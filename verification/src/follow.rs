//! Following a file: what is remembered of it between notifications, and what
//! a notification leads to.
//!
//! A followed file is known by three things: its size when it was last looked
//! at, the cursor from which the next read starts, and how its size had
//! changed at the last notification. A notification brings the size seen now;
//! [`follow`] classifies the change, resets the cursor where the file has
//! shrunk, and says where to read from. Of what is read, the lines that the
//! file holds whole are shown, and the cursor moves behind the last of them
//! ([`StatefulFile::take_lines`]).

use crate::lines::{line_views, whole_len, whole_lines, whole_lines_of, with_delimiter};
use vstd::prelude::*;
use vstd::slice::slice_subrange;

verus! {

/// How the size of a file differs from the size last seen.
#[derive(Clone, Copy, Debug, PartialEq, Eq, Structural)]
pub enum ModificationType {
    /// The file has grown.
    Added,
    /// The file has shrunk.
    Removed,
    /// The size is the same.
    NoChange,
}

/// What a notification reports.
#[derive(Clone, Copy, Debug, PartialEq, Eq, Structural)]
pub enum EventKind {
    /// The size of the file has probably changed.
    SizeChanged,
    /// A writer has finished with the file.
    WriteCompleted,
    /// Anything else.
    Other,
}

/// What a notification leads to.
#[derive(Clone, Copy, Debug, PartialEq, Eq, Structural)]
pub enum Action {
    /// Nothing: the notification does not call for a read.
    Ignore,
    /// Read on from where the last read ended.
    KeepCursor,
    /// Read again from the start of the file.
    ResetCursor,
}

/// The change from size `old_size` to size `new_size`.
pub open spec fn change(old_size: nat, new_size: nat) -> ModificationType {
    if new_size > old_size {
        ModificationType::Added
    } else if new_size < old_size {
        ModificationType::Removed
    } else {
        ModificationType::NoChange
    }
}

/// Whether a notification of this kind calls for a read.
pub open spec fn calls_for_read(event: EventKind) -> bool {
    event == EventKind::SizeChanged || event == EventKind::WriteCompleted
}

/// The rule of the follow engine, from how the size had changed at the last
/// notification, how it has changed now, and the kind of the notification. A
/// notification that does not call for a read is ignored. A file that has
/// grown is read on from the cursor. A file that has shrunk was truncated or
/// replaced, and is read from its start. A file of unchanged size is read
/// from its start if it had shrunk at the notification before, since the
/// cursor may still lie behind its end, and is read on from the cursor
/// otherwise.
pub open spec fn action_for(
    previous: ModificationType,
    observed: ModificationType,
    event: EventKind,
) -> Action {
    if !calls_for_read(event) {
        Action::Ignore
    } else if observed == ModificationType::Removed || (observed == ModificationType::NoChange
        && previous == ModificationType::Removed) {
        Action::ResetCursor
    } else {
        Action::KeepCursor
    }
}

/// What is remembered of a followed file.
pub struct FileState {
    /// The name the file was opened under.
    pub file_name: Seq<char>,
    /// The size of the file when it was last looked at.
    pub old_size: nat,
    /// The offset at which the next read starts.
    pub cursor: nat,
    /// How the size had changed at the last notification.
    pub last_change: ModificationType,
}

impl FileState {
    /// Whether the cursor lies within the file as it was last seen.
    pub open spec fn cursor_in_file(self) -> bool {
        self.cursor <= self.old_size
    }

    /// The state after a notification of kind `event` has come in and the
    /// file has been found to be `size` bytes long.
    pub open spec fn after_event(self, event: EventKind, size: nat) -> FileState {
        let observed = change(self.old_size, size);
        match action_for(self.last_change, observed, event) {
            Action::Ignore => self,
            Action::KeepCursor => FileState { old_size: size, last_change: observed, ..self },
            Action::ResetCursor => FileState {
                old_size: size,
                cursor: 0,
                last_change: observed,
                ..self
            },
        }
    }
}

/// A followed file: its name, its size when last looked at, and the cursor.
#[derive(Debug)]
pub struct StatefulFile {
    file_name: String,
    old_size: u64,
    cursor: u64,
    last_change: ModificationType,
}

impl View for StatefulFile {
    type V = FileState;

    closed spec fn view(&self) -> FileState {
        FileState {
            file_name: self.file_name@,
            old_size: self.old_size as nat,
            cursor: self.cursor as nat,
            last_change: self.last_change,
        }
    }
}

/// The rule of the follow engine, see [`action_for`].
pub fn transition(previous: ModificationType, observed: ModificationType, event: EventKind) -> (action:
    Action)
    ensures
        action == action_for(previous, observed, event),
{
    match event {
        EventKind::Other => Action::Ignore,
        _ => match observed {
            ModificationType::Added => Action::KeepCursor,
            ModificationType::Removed => Action::ResetCursor,
            ModificationType::NoChange => match previous {
                ModificationType::Removed => Action::ResetCursor,
                _ => Action::KeepCursor,
            },
        },
    }
}

impl StatefulFile {
    /// A file just opened under `file_name` and found to be `size` bytes
    /// long. The cursor is at its start.
    pub fn new(size: u64, file_name: String) -> (file: Self)
        ensures
            file@ == (FileState {
                file_name: file_name@,
                old_size: size as nat,
                cursor: 0,
                last_change: ModificationType::NoChange,
            }),
    {
        StatefulFile { file_name, old_size: size, cursor: 0, last_change: ModificationType::NoChange }
    }

    /// The name the file was opened under.
    pub fn file_name(&self) -> (name: &String)
        ensures
            name@ == self@.file_name,
    {
        &self.file_name
    }

    /// The size of the file when it was last looked at.
    pub fn old_size(&self) -> (size: u64)
        ensures
            size == self@.old_size,
    {
        self.old_size
    }

    /// Remembers `size` as the size of the file.
    pub fn update_metadata(&mut self, size: u64)
        ensures
            final(self)@ == (FileState { old_size: size as nat, ..old(self)@ }),
    {
        self.old_size = size;
    }

    /// How the file has changed, now that it is `size` bytes long. Only the
    /// two sizes count: a file replaced by one of the same size counts as
    /// unchanged.
    pub fn modification_type(&self, size: u64) -> (observed: ModificationType)
        ensures
            observed == change(self@.old_size, size as nat),
    {
        if size > self.old_size {
            ModificationType::Added
        } else if size < self.old_size {
            ModificationType::Removed
        } else {
            ModificationType::NoChange
        }
    }

    /// The offset that the file handle is to be moved to before a read.
    pub fn seek_to_cursor(&self) -> (offset: u64)
        ensures
            offset == self@.cursor,
    {
        self.cursor
    }

    /// Remembers `position`, where the file handle stands after a read, as
    /// the cursor.
    pub fn update_cursor(&mut self, position: u64)
        ensures
            final(self)@ == (FileState { cursor: position as nat, ..old(self)@ }),
    {
        self.cursor = position;
    }

    /// Takes `fresh`, the bytes read from the cursor to the end of the file:
    /// returns the lines that stand whole in them, with their delimiters, and
    /// moves the cursor behind the last of them. Bytes after the last
    /// delimiter are an open line; they are read again next time.
    pub fn take_lines(&mut self, fresh: &[u8]) -> (lines: Vec<Vec<u8>>)
        requires
            old(self)@.cursor + fresh@.len() <= u64::MAX,
        ensures
            line_views(lines@) == with_delimiter(whole_lines_of(fresh@)),
            final(self)@ == (FileState {
                cursor: old(self)@.cursor + whole_len(fresh@),
                ..old(self)@
            }),
    {
        let (lines, taken) = whole_lines(fresh);
        self.cursor = self.cursor + taken as u64;
        lines
    }

    /// Moves the cursor to the start of the file.
    pub fn reset_cursor(&mut self)
        ensures
            final(self)@ == (FileState { cursor: 0, ..old(self)@ }),
    {
        self.cursor = 0;
    }
}

/// One step of following `file`: a notification of kind `event` has come in
/// and the file is now `size` bytes long. Where the notification calls for a
/// read, the change of size is classified, the cursor is reset if the rule
/// says so, `size` is remembered, and the offset to read from is returned.
/// The caller hands what it reads from there to the end of the file to
/// [`StatefulFile::take_lines`]. Other notifications change nothing.
///
/// A cursor that lay within the file as last seen lies within the file as it
/// is now.
pub fn follow(file: &mut StatefulFile, event: EventKind, size: u64) -> (start: Option<u64>)
    ensures
        final(file)@ == old(file)@.after_event(event, size as nat),
        start == if calls_for_read(event) {
            Some(final(file)@.cursor as u64)
        } else {
            None
        },
        calls_for_read(event) && old(file)@.cursor_in_file() ==> final(file)@.cursor_in_file(),
{
    let observed = file.modification_type(size);
    match transition(file.last_change, observed, event) {
        Action::Ignore => {
            return None;
        },
        Action::ResetCursor => {
            file.reset_cursor();
        },
        Action::KeepCursor => {},
    }
    file.last_change = observed;
    file.update_metadata(size);
    Some(file.seek_to_cursor())
}

/// What a read from `start` to the end of `data` shows: the lines that stand
/// whole from there on, with their delimiters. A line that the file does not
/// end yet is not shown, and nothing is shown where `start` lies behind the
/// end.
pub open spec fn shown_from(data: Seq<u8>, start: nat) -> Seq<Seq<u8>> {
    if start <= data.len() {
        with_delimiter(whole_lines_of(data.skip(start as int)))
    } else {
        Seq::empty()
    }
}

/// Where the cursor stands after such a read: just behind the last delimiter
/// at or after `start`. It stays at `start` where there is none, and where
/// `start` lies behind the end.
pub open spec fn position_after(data: Seq<u8>, start: nat) -> nat {
    if start <= data.len() {
        start + whole_len(data.skip(start as int))
    } else {
        start
    }
}

/// One step of following `file`, carried out on `content`, the bytes that
/// the file now holds: the step of [`follow`], then a read from the cursor to
/// the end of the file. The lines that stand whole there are returned, and
/// the cursor moves behind the last of them.
pub fn follow_and_read(file: &mut StatefulFile, event: EventKind, content: &[u8]) -> (lines: Vec<
    Vec<u8>,
>)
    requires
        content@.len() <= u64::MAX,
    ensures
        calls_for_read(event) ==> {
            let started = old(file)@.after_event(event, content@.len());
            &&& line_views(lines@) == shown_from(content@, started.cursor)
            &&& final(file)@ == (FileState {
                cursor: position_after(content@, started.cursor),
                ..started
            })
        },
        !calls_for_read(event) ==> final(file)@ == old(file)@ && lines@.len() == 0,
{
    let size = content.len() as u64;
    match follow(file, event, size) {
        None => Vec::new(),
        Some(start) => {
            if start <= size {
                let fresh = slice_subrange(content, start as usize, content.len());
                assert(fresh@ =~= content@.skip(start as int));
                file.take_lines(fresh)
            } else {
                assert(line_views(Seq::<Vec<u8>>::empty()) =~= Seq::<Seq<u8>>::empty());
                Vec::new()
            }
        },
    }
}

} // verus!
