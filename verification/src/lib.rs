//! The mechanics of a `tail`-style utility: the last lines of a file, found by
//! scanning it backward in fixed-size blocks, and the bookkeeping needed to keep
//! following a file that grows, shrinks or is replaced.
//!
//! Nothing here touches a file. Callers hand in the bytes they read and the
//! sizes they observed, and carry out the reads and seeks that the library asks
//! for.

pub mod backwards;
pub mod follow;
pub mod initial;
pub mod lines;
pub mod ring;

pub use backwards::BackwardsReader;
pub use follow::{ModificationType, StatefulFile};
pub use ring::RingBuffer;
