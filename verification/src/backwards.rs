//! The backward reader: the last lines of a file, found by reading fixed-size
//! blocks from its end toward its start.
//!
//! The reader never touches the file. It says which block its next step reads
//! ([`BackwardsReader::next_read`]), takes the bytes of that block and says
//! whether the scan goes on ([`BackwardsReader::read`]), and hands out the
//! lines once the scan is over ([`BackwardsReader::finish`]).
//! [`BackwardsReader::read_all`] runs these steps over bytes held in memory.

use crate::lines::{
    all_delimiter_free, delimiter_free, delimiters, glue, last_lines, lemma_delimiters, lemma_lines_of,
    lemma_split_concat, lemma_split_of_unsplit, lemma_split_unsplit, line_views, lines_of, split,
    split_on_delimiter, tail_of, terminated, unsplit, with_delimiter, DELIMITER,
};
use std::collections::VecDeque;
use vstd::prelude::*;
use vstd::slice::{slice_subrange, slice_to_vec};

verus! {

/// The number of bytes read at a time.
pub const BUFFER_SIZE: u64 = 4096;

/// A block of the file that the reader asks for: `len` bytes starting at
/// `offset`.
#[derive(Clone, Copy, Debug, PartialEq, Eq, Structural)]
pub struct BlockRequest {
    pub offset: u64,
    pub len: usize,
}

/// The fragments held by a queue of blocks.
pub open spec fn piece_views(pieces: Seq<VecDeque<Vec<u8>>>) -> Seq<Seq<Seq<u8>>> {
    pieces.map_values(|piece: VecDeque<Vec<u8>>| line_views(piece@))
}

/// The bytes that a queue of blocks stands for: the blocks in order, the
/// fragments of each joined by delimiters.
pub open spec fn content(pieces: Seq<Seq<Seq<u8>>>) -> Seq<u8>
    decreases pieces.len(),
{
    if pieces.len() == 0 {
        Seq::<u8>::empty()
    } else {
        unsplit(pieces.first()) + content(pieces.drop_first())
    }
}

/// What happens to a block before it is split: the block nearest the end of
/// the file gets a delimiter at its end if it has none.
pub open spec fn prepared(block: Seq<u8>, first_read: bool) -> Seq<u8> {
    if first_read {
        terminated(block)
    } else {
        block
    }
}

/// Where a scan of `data` for `n` lines comes to rest, when it stands at
/// `from` and wants more: at the start of the first block, going backward,
/// from which on `data` holds `n` lines or more, or at the start of `data`
/// where no block gets that far.
pub open spec fn scan_stop(data: Seq<u8>, n: nat, from: nat) -> nat
    decreases from,
{
    if from < BUFFER_SIZE {
        0
    } else {
        let next = (from - BUFFER_SIZE) as nat;
        if lines_of(data.skip(next as int)).len() >= n {
            next
        } else {
            scan_stop(data, n, next)
        }
    }
}

/// The state of a reader.
pub struct ReaderState {
    /// The blocks read so far, the one nearest the start of the file first,
    /// each as its fragments.
    pub pieces: Seq<Seq<Seq<u8>>>,
    /// How many lines are wanted.
    pub num_of_lines: nat,
    /// How many delimiters the queued blocks hold.
    pub total_newlines: nat,
    /// Whether no block has been read yet.
    pub first_read: bool,
    /// Where the earliest block read so far starts; the end of the file
    /// before any read.
    pub last_offset: nat,
}

impl ReaderState {
    /// A reader that has read nothing of a file of `end_offset` bytes.
    pub open spec fn fresh(num_of_lines: nat, end_offset: nat) -> ReaderState {
        ReaderState {
            pieces: Seq::empty(),
            num_of_lines,
            total_newlines: 0,
            first_read: true,
            last_offset: end_offset,
        }
    }

    /// The invariant of a reader.
    pub open spec fn well_formed(self) -> bool {
        &&& forall|i: int|
            0 <= i < self.pieces.len() ==> (#[trigger] self.pieces[i]).len() >= 1
                && all_delimiter_free(self.pieces[i])
        &&& self.total_newlines == delimiters(content(self.pieces))
        &&& self.first_read <==> self.pieces.len() == 0
        &&& self.pieces.len() >= 1 ==> content(self.pieces).len() >= 1 && content(
            self.pieces,
        ).last() == DELIMITER
        &&& self.pieces.len() >= 2 ==> delimiters(content(self.pieces.drop_first()))
            < self.num_of_lines
        &&& self.total_newlines + self.last_offset <= u64::MAX
    }

    /// Whether the scan is still under way: nothing has been read yet, or
    /// what has been read holds fewer delimiters than lines are wanted.
    pub open spec fn scanning(self) -> bool {
        self.first_read || self.total_newlines < self.num_of_lines
    }

    /// The block that the next step reads: a full block just before the
    /// earliest one, or what is left at the start of the file where that is
    /// less than a block. At the start of the file nothing is left, and the
    /// block is empty.
    pub open spec fn request(self) -> BlockRequest {
        if self.last_offset >= BUFFER_SIZE {
            BlockRequest {
                offset: (self.last_offset - BUFFER_SIZE) as u64,
                len: BUFFER_SIZE as usize,
            }
        } else {
            BlockRequest { offset: 0, len: self.last_offset as usize }
        }
    }

    /// Whether the reader has read `data` from `last_offset` to its end: it
    /// has read nothing and stands at the end, or its queue holds those bytes,
    /// terminated.
    pub open spec fn in_sync(self, data: Seq<u8>) -> bool {
        if self.first_read {
            self.last_offset == data.len()
        } else {
            self.last_offset < data.len() && content(self.pieces) == terminated(data).skip(
                self.last_offset as int,
            )
        }
    }

    /// Where the reader comes to rest when it is fed the blocks of `data`
    /// that it asks for, step by step, for as long as a step says to go on.
    pub open spec fn stop_offset(self, data: Seq<u8>) -> nat {
        if self.scanning() {
            scan_stop(data, self.num_of_lines, self.last_offset)
        } else {
            self.last_offset
        }
    }

    /// The state after a step that has read the requested block and found
    /// it to hold `block`. A step at the start of the file changes nothing.
    pub open spec fn after_read(self, block: Seq<u8>) -> ReaderState {
        if self.last_offset == 0 {
            self
        } else {
            let fragments = split(prepared(block, self.first_read));
            ReaderState {
                pieces: seq![fragments] + self.pieces,
                num_of_lines: self.num_of_lines,
                total_newlines: self.total_newlines + (fragments.len() - 1) as nat,
                first_read: false,
                last_offset: self.request().offset as nat,
            }
        }
    }

    /// Whether the scan goes on after such a step: the step has read a full
    /// block, and the reader still holds fewer delimiters than lines are
    /// wanted. A step that reads what is left at the start of the file, or
    /// nothing, ends the scan.
    pub open spec fn goes_on(self, block: Seq<u8>) -> bool {
        self.last_offset >= BUFFER_SIZE && self.after_read(block).total_newlines
            < self.num_of_lines
    }
}

/// Reads the last lines of a file backward, block by block.
pub struct BackwardsReader {
    pieces: VecDeque<VecDeque<Vec<u8>>>,
    num_of_lines: usize,
    total_newlines: u64,
    first_read: bool,
    last_offset: u64,
}

impl View for BackwardsReader {
    type V = ReaderState;

    closed spec fn view(&self) -> ReaderState {
        ReaderState {
            pieces: piece_views(self.pieces@),
            num_of_lines: self.num_of_lines as nat,
            total_newlines: self.total_newlines as nat,
            first_read: self.first_read,
            last_offset: self.last_offset as nat,
        }
    }
}

/// A block that ends the file holds, once terminated, no more delimiters than
/// it has bytes.
proof fn lemma_delimiters_of_terminated(block: Seq<u8>)
    requires
        block.len() >= 1,
    ensures
        delimiters(terminated(block)) <= block.len(),
        terminated(block).len() >= 1,
        terminated(block).last() == DELIMITER,
{
    lemma_delimiters(block, Seq::<u8>::empty());
    if block.last() != DELIMITER {
        lemma_delimiters(block.drop_last(), Seq::<u8>::empty());
        lemma_split_unsplit(block.drop_last());
        assert(block.push(DELIMITER).drop_last() =~= block);
    }
}

/// Cutting a string short at its front and terminating it are the same in
/// either order, as long as something is left.
proof fn lemma_terminated_skip(data: Seq<u8>, offset: int)
    requires
        0 <= offset < data.len(),
    ensures
        terminated(data.skip(offset)) == terminated(data).skip(offset),
{
    assert(data.skip(offset).last() == data.last());
    assert(terminated(data.skip(offset)) =~= terminated(data).skip(offset));
}

/// A step on the block of `data` that the reader asks for keeps it in step
/// with `data`, moves it toward the start unless it stands there, and does
/// not change where it will come to rest.
pub proof fn lemma_read_in_sync(state: ReaderState, data: Seq<u8>)
    requires
        state.well_formed(),
        state.in_sync(data),
        state.scanning(),
    ensures
        ({
            let wanted = state.request();
            let block = data.subrange(wanted.offset as int, wanted.offset + wanted.len);
            let after = state.after_read(block);
            &&& wanted.offset + wanted.len == state.last_offset
            &&& state.last_offset <= data.len()
            &&& after.in_sync(data)
            &&& state.last_offset > 0 ==> after.last_offset < state.last_offset
            &&& after.stop_offset(data) == state.stop_offset(data)
            &&& !state.goes_on(block) ==> after.stop_offset(data) == after.last_offset
            &&& state.goes_on(block) ==> after.scanning()
        }),
{
    let wanted = state.request();
    let start = wanted.offset as int;
    let block = data.subrange(start, start + wanted.len);
    let after = state.after_read(block);
    assert(scan_stop(data, state.num_of_lines, 0) == 0);
    if state.last_offset > 0 {
        let ready = prepared(block, state.first_read);
        lemma_split_unsplit(ready);
        assert(after.pieces.drop_first() =~= state.pieces);
        assert(content(after.pieces) == ready + content(state.pieces));
        lemma_delimiters(ready, content(state.pieces));
        lemma_terminated_skip(data, start);
        lemma_lines_of(data.skip(start));
        if state.first_read {
            assert(block =~= data.skip(start));
            assert(content(state.pieces) =~= Seq::<u8>::empty());
            assert(ready + content(state.pieces) =~= ready);
        } else {
            assert(block + terminated(data).skip(start + wanted.len) =~= terminated(data).skip(
                start,
            ));
        }
        assert(after.total_newlines == lines_of(data.skip(start)).len());
    }
}

/// Dropping the first `count` fragments of the block at the front of the
/// queue drops the first `count` lines of what the queue stands for, as long
/// as one fragment of the block is left.
proof fn lemma_discard(fragments: Seq<Seq<u8>>, rest: Seq<u8>, count: int)
    requires
        all_delimiter_free(fragments),
        0 <= count < fragments.len(),
    ensures
        all_delimiter_free(fragments.skip(count)),
        lines_of(unsplit(fragments.skip(count)) + rest) == lines_of(
            unsplit(fragments) + rest,
        ).skip(count),
        delimiters(unsplit(fragments) + rest) == fragments.len() - 1 + delimiters(rest),
{
    let kept = fragments.skip(count);
    assert(all_delimiter_free(kept)) by {
        assert forall|i: int| 0 <= i < kept.len() implies delimiter_free(#[trigger] kept[i]) by {
            assert(kept[i] == fragments[i + count]);
        }
    }
    lemma_split_of_unsplit(fragments);
    lemma_split_of_unsplit(kept);
    lemma_split_concat(unsplit(fragments), rest);
    lemma_split_concat(unsplit(kept), rest);
    lemma_split_unsplit(rest);
    lemma_lines_of(unsplit(fragments) + rest);
    lemma_lines_of(unsplit(kept) + rest);
    let whole = glue(fragments, split(rest));
    let shorter = glue(kept, split(rest));
    assert(shorter =~= whole.skip(count));
    if whole.last().len() == 0 {
        assert(shorter.drop_last() =~= whole.drop_last().skip(count));
    }
}

/// Walks the queue from its front and stitches the fragments into lines. A
/// block of one fragment only lengthens the line in progress. In a block of
/// several, every fragment but the last ends a line, and the last starts the
/// next one. What is left in progress at the end is a line too.
fn emit(pieces: VecDeque<VecDeque<Vec<u8>>>) -> (lines: Vec<Vec<u8>>)
    requires
        forall|i: int|
            0 <= i < pieces@.len() ==> all_delimiter_free(#[trigger] piece_views(pieces@)[i]),
    ensures
        line_views(lines@) == with_delimiter(lines_of(content(piece_views(pieces@)))),
{
    let mut pieces = pieces;
    let mut lines: Vec<Vec<u8>> = Vec::new();
    let mut line: Vec<u8> = Vec::new();
    let ghost whole = content(piece_views(pieces@));
    let ghost mut done = Seq::<u8>::empty();
    assert(done + whole =~= whole);
    assert(line_views(lines@) =~= with_delimiter(split(done).drop_last()));
    while pieces.len() > 0
        invariant
            forall|i: int|
                0 <= i < pieces@.len() ==> all_delimiter_free(#[trigger] piece_views(pieces@)[i]),
            done + content(piece_views(pieces@)) == whole,
            line_views(lines@) == with_delimiter(split(done).drop_last()),
            line@ == split(done).last(),
        decreases pieces@.len(),
    {
        let ghost queue = piece_views(pieces@);
        let mut piece = pieces.pop_front().unwrap();
        let ghost fragments = line_views(piece@);
        let ghost so_far = split(done);
        proof {
            assert(fragments == queue[0]);
            assert(piece_views(pieces@) =~= queue.drop_first());
            assert forall|i: int| 0 <= i < pieces@.len() implies all_delimiter_free(
                #[trigger] piece_views(pieces@)[i],
            ) by {
                assert(piece_views(pieces@)[i] == queue[i + 1]);
            }
            assert(done + unsplit(fragments) + content(piece_views(pieces@)) =~= whole);
            lemma_split_unsplit(done);
            lemma_split_concat(done, unsplit(fragments));
        }
        if piece.len() == 1 {
            let mut chunk = piece.pop_front().unwrap();
            line.append(&mut chunk);
            proof {
                lemma_split_of_unsplit(fragments);
                assert(glue(so_far, fragments).drop_last() =~= so_far.drop_last());
            }
        } else if piece.len() > 1 {
            let mut last_chunk = piece.pop_back().unwrap();
            let ghost joined = glue(so_far, fragments);
            let ghost mut taken: int = 0;
            proof {
                lemma_split_of_unsplit(fragments);
                assert(line_views(piece@) =~= fragments.subrange(0, fragments.len() - 1));
                assert(joined.take(so_far.len() - 1) =~= so_far.drop_last());
            }
            while piece.len() > 0
                invariant
                    fragments.len() >= 2,
                    so_far.len() >= 1,
                    joined == glue(so_far, fragments),
                    taken + piece@.len() == fragments.len() - 1,
                    0 <= taken,
                    line_views(piece@) == fragments.subrange(taken, fragments.len() - 1),
                    line_views(lines@) == with_delimiter(joined.take(so_far.len() - 1 + taken)),
                    line@ == if taken == 0 {
                        so_far.last()
                    } else {
                        Seq::<u8>::empty()
                    },
                decreases piece@.len(),
            {
                let ghost shown = line_views(lines@);
                let ghost pending = line@;
                let ghost left = line_views(piece@);
                let mut chunk = piece.pop_front().unwrap();
                assert(chunk@ == left[0]);
                assert(line_views(piece@) =~= left.skip(1));
                line.append(&mut chunk);
                line.push(DELIMITER);
                lines.push(line);
                line = Vec::new();
                proof {
                    let at = so_far.len() - 1 + taken;
                    assert(pending + fragments[taken] =~= joined[at]);
                    assert(line_views(lines@) =~= shown.push(joined[at].push(DELIMITER)));
                    assert(with_delimiter(joined.take(at + 1)) =~= with_delimiter(
                        joined.take(at),
                    ).push(joined[at].push(DELIMITER)));
                    assert(line_views(piece@) =~= fragments.subrange(
                        taken + 1,
                        fragments.len() - 1,
                    ));
                    taken = taken + 1;
                }
            }
            line.append(&mut last_chunk);
            proof {
                assert(joined.take(so_far.len() - 1 + taken) =~= joined.drop_last());
                assert(line@ =~= joined.last());
            }
        } else {
            assert(fragments =~= Seq::empty());
            assert(done + unsplit(fragments) =~= done);
        }
        proof {
            done = done + unsplit(fragments);
        }
    }
    proof {
        assert(done =~= whole);
        lemma_lines_of(whole);
    }
    if line.len() > 0 {
        let ghost shown = line_views(lines@);
        let ghost last = line@;
        line.push(DELIMITER);
        lines.push(line);
        proof {
            let all = split(whole);
            assert(line_views(lines@) =~= shown.push(last.push(DELIMITER)));
            assert(with_delimiter(all) =~= with_delimiter(all.drop_last()).push(
                all.last().push(DELIMITER),
            ));
        }
    }
    lines
}

impl BackwardsReader {
    /// A reader for the last `num_of_lines` lines of a file that is
    /// `end_offset` bytes long.
    pub fn new(num_of_lines: usize, end_offset: u64) -> (reader: Self)
        ensures
            reader@ == ReaderState::fresh(num_of_lines as nat, end_offset as nat),
            reader@.well_formed(),
    {
        let reader = BackwardsReader {
            pieces: VecDeque::new(),
            num_of_lines,
            total_newlines: 0,
            first_read: true,
            last_offset: end_offset,
        };
        proof {
            assert(piece_views(reader.pieces@) =~= Seq::empty());
            lemma_split_unsplit(Seq::<u8>::empty());
        }
        reader
    }

    /// The block that the next step reads. It is empty once the reader
    /// stands at the start of the file.
    pub fn next_read(&self) -> (request: BlockRequest)
        ensures
            request == self@.request(),
    {
        if self.last_offset >= BUFFER_SIZE {
            BlockRequest { offset: self.last_offset - BUFFER_SIZE, len: BUFFER_SIZE as usize }
        } else {
            BlockRequest { offset: 0, len: self.last_offset as usize }
        }
    }

    /// One step of the scan: takes the bytes of the block that
    /// [`Self::next_read`] asked for, and returns whether the scan goes on.
    /// The scan goes on after a full block that leaves the reader with fewer
    /// delimiters than lines are wanted. It ends with the block that reaches
    /// the start of the file in less than a full block, and with a step that
    /// finds the reader at the start of the file already, which changes
    /// nothing.
    pub fn read(&mut self, block: Vec<u8>) -> (more: bool)
        requires
            old(self)@.well_formed(),
            old(self)@.scanning(),
            block.len() == old(self)@.request().len,
        ensures
            final(self)@ == old(self)@.after_read(block@),
            final(self)@.well_formed(),
            more == old(self)@.goes_on(block@),
            more == (old(self)@.last_offset >= BUFFER_SIZE && final(self)@.total_newlines
                < final(self)@.num_of_lines),
    {
        if self.last_offset == 0 {
            return false;
        }
        let request = self.next_read();
        let full = self.last_offset >= BUFFER_SIZE;
        let mut block = block;
        let ghost given = block@;
        let ghost before = self@;
        if self.first_read && block[block.len() - 1] != DELIMITER {
            block.push(DELIMITER);
        }
        assert(block@ == prepared(given, before.first_read));
        let fragments = split_on_delimiter(block.as_slice());
        proof {
            lemma_split_unsplit(block@);
            lemma_delimiters(block@, content(before.pieces));
            lemma_delimiters(given, Seq::<u8>::empty());
            if before.first_read {
                lemma_delimiters_of_terminated(given);
            }
        }
        self.total_newlines = self.total_newlines + (fragments.len() - 1) as u64;
        self.pieces.push_front(fragments);
        self.first_read = false;
        self.last_offset = request.offset;
        proof {
            let after = self@;
            assert(after.pieces =~= seq![split(block@)] + before.pieces);
            assert(after.pieces.drop_first() =~= before.pieces);
            assert(after == before.after_read(given));
            assert(content(after.pieces) == block@ + content(before.pieces));
            assert forall|i: int| 0 <= i < after.pieces.len() implies (#[trigger] after.pieces[i]).len()
                >= 1 && all_delimiter_free(after.pieces[i]) by {
                if i > 0 {
                    assert(after.pieces[i] == before.pieces[i - 1]);
                }
            }
        }
        full && self.total_newlines < self.num_of_lines as u64
    }

    /// The lines found, in file order and delimiter-terminated: the last
    /// `num_of_lines` lines of what the queued blocks hold. Where the blocks
    /// hold more lines than were asked for, the surplus is dropped from the
    /// block at the front of the queue.
    pub fn finish(self) -> (lines: Vec<Vec<u8>>)
        requires
            self@.well_formed(),
        ensures
            line_views(lines@) == tail_of(content(self@.pieces), self@.num_of_lines),
    {
        let ghost state = self@;
        let ghost held = content(state.pieces);
        let wanted = self.num_of_lines as u64;
        let found = self.total_newlines;
        let mut pieces = self.pieces;
        proof {
            lemma_lines_of(held);
            lemma_split_unsplit(Seq::<u8>::empty());
        }
        if found > wanted {
            let pieces_to_discard = found - wanted;
            let mut first_chunk = pieces.pop_front().unwrap();
            let ghost fragments = state.pieces[0];
            let ghost rest = content(state.pieces.drop_first());
            proof {
                assert(piece_views(pieces@) =~= state.pieces.drop_first());
                lemma_discard(fragments, rest, 0);
                lemma_discard(fragments, rest, pieces_to_discard as int);
            }
            let mut discarded: u64 = 0;
            while discarded < pieces_to_discard
                invariant
                    discarded <= pieces_to_discard < fragments.len(),
                    line_views(first_chunk@) == fragments.skip(discarded as int),
                decreases pieces_to_discard - discarded,
            {
                let ghost left = line_views(first_chunk@);
                let _ = first_chunk.pop_front();
                assert(line_views(first_chunk@) =~= left.skip(1));
                assert(left.skip(1) =~= fragments.skip(discarded + 1));
                discarded += 1;
            }
            pieces.push_front(first_chunk);
            proof {
                let kept = fragments.skip(pieces_to_discard as int);
                let queue = piece_views(pieces@);
                assert(queue =~= seq![kept] + state.pieces.drop_first());
                assert(queue.drop_first() =~= state.pieces.drop_first());
                assert(content(queue) == unsplit(kept) + rest);
                assert forall|i: int| 0 <= i < queue.len() implies all_delimiter_free(
                    #[trigger] queue[i],
                ) by {
                    if i > 0 {
                        assert(queue[i] == state.pieces[i]);
                    }
                }
            }
        }
        emit(pieces)
    }

    /// Runs the scan over `source`, the bytes of the file, step by step for
    /// as long as a step says to go on, and returns the lines found: the last
    /// `num_of_lines` lines of `source` from where the scan comes to rest.
    /// For a reader that has read nothing yet, that is
    /// `scanned_tail(source, num_of_lines)`.
    pub fn read_all(self, source: &[u8]) -> (lines: Vec<Vec<u8>>)
        requires
            self@.well_formed(),
            self@.in_sync(source@),
        ensures
            line_views(lines@) == tail_of(
                source@.skip(self@.stop_offset(source@) as int),
                self@.num_of_lines,
            ),
            self@.first_read ==> line_views(lines@) == scanned_tail(
                source@,
                self@.num_of_lines,
            ),
    {
        let ghost begin = self@;
        let mut reader = self;
        let length = source.len();
        let mut more = reader.first_read || reader.total_newlines < reader.num_of_lines as u64;
        while more
            invariant
                length == source@.len(),
                reader@.well_formed(),
                reader@.in_sync(source@),
                reader@.num_of_lines == begin.num_of_lines,
                reader@.stop_offset(source@) == begin.stop_offset(source@),
                more ==> reader@.scanning(),
                !more ==> reader@.stop_offset(source@) == reader@.last_offset,
            decreases
                    reader@.last_offset + if more {
                        1int
                    } else {
                        0int
                    },
        {
            let wanted = reader.next_read();
            proof {
                lemma_read_in_sync(reader@, source@);
            }
            assert(wanted.offset + wanted.len <= source@.len());
            let start = wanted.offset as usize;
            assert(start == wanted.offset);
            let block = slice_to_vec(slice_subrange(source, start, start + wanted.len));
            more = reader.read(block);
        }
        proof {
            let rest = reader@.last_offset as int;
            lemma_lines_of(source@.skip(rest));
            if reader@.first_read {
                assert(content(reader@.pieces) =~= source@.skip(rest));
            } else {
                lemma_terminated_skip(source@, rest);
            }
        }
        reader.finish()
    }
}

/// Where a reader that starts at the end of `data` and is fed the blocks it
/// asks for comes to rest.
pub open spec fn window_start(data: Seq<u8>, n: nat) -> nat {
    scan_stop(data, n, data.len())
}

/// What such a reader hands out: the last `n` lines of `data` from where it
/// came to rest.
pub open spec fn scanned_tail(data: Seq<u8>, n: nat) -> Seq<Seq<u8>> {
    tail_of(data.skip(window_start(data, n) as int), n)
}

/// Whether the scan came to rest where its first line is whole: at the start
/// of `data`, just behind a delimiter, or with more lines in hand than the
/// `n` it was asked for. A scan can only rest at the start of a block, and it
/// rests as soon as it holds `n` delimiters; where that block starts inside a
/// line and the scan holds exactly `n` lines, the first of them lacks its
/// head.
pub open spec fn clean_scan(data: Seq<u8>, n: nat) -> bool {
    let start = window_start(data, n) as int;
    start == 0 || data[start - 1] == DELIMITER || lines_of(data.skip(start)).len() > n
}

/// A new reader for a file that holds `data` is in step with `data`, and a
/// run over `data` hands out `scanned_tail(data, n)`.
pub proof fn lemma_fresh_reader(data: Seq<u8>, n: nat)
    requires
        data.len() <= u64::MAX,
    ensures
        ReaderState::fresh(n, data.len()).well_formed(),
        ReaderState::fresh(n, data.len()).in_sync(data),
        ReaderState::fresh(n, data.len()).stop_offset(data) == window_start(data, n),
{
    lemma_split_unsplit(Seq::<u8>::empty());
}

/// A scan rests at or before the place it started from, a whole number of
/// blocks away from it unless it rests at the start of the data; and where it
/// rests before reaching the start, it holds at least the lines asked for.
pub proof fn lemma_scan_stop(data: Seq<u8>, n: nat, from: nat)
    ensures
        scan_stop(data, n, from) <= from,
        scan_stop(data, n, from) > 0 ==> {
            &&& scan_stop(data, n, from) + BUFFER_SIZE <= from
            &&& (from - scan_stop(data, n, from)) % (BUFFER_SIZE as int) == 0
            &&& lines_of(data.skip(scan_stop(data, n, from) as int)).len() >= n
        },
    decreases from,
{
    if from >= BUFFER_SIZE {
        lemma_scan_stop(data, n, (from - BUFFER_SIZE) as nat);
    }
}

/// The lines of `data` and the lines of what follows `at`, by fragments: the
/// fragment that ends at `at` and the one that starts there are one line of
/// `data`.
proof fn lemma_lines_of_suffix(data: Seq<u8>, at: int)
    requires
        0 < at < data.len(),
    ensures
        split(data.take(at)).len() >= 1,
        split(terminated(data.skip(at))).len() >= 2,
        lines_of(data) == glue(
            split(data.take(at)),
            split(terminated(data.skip(at))),
        ).drop_last(),
        lines_of(data.skip(at)) == split(terminated(data.skip(at))).drop_last(),
        data[at - 1] == DELIMITER ==> split(data.take(at)).last().len() == 0,
{
    let head = data.take(at);
    let rest = terminated(data.skip(at));
    lemma_terminated_skip(data, at);
    assert(terminated(data) =~= head + rest);
    lemma_split_concat(head, rest);
    lemma_split_unsplit(head);
    lemma_split_unsplit(head.drop_last());
    lemma_split_unsplit(rest);
    lemma_split_unsplit(rest.drop_last());
}

/// Where the scan is clean, the reader hands out exactly the last `n` lines
/// of the data.
pub proof fn lemma_clean_scan(data: Seq<u8>, n: nat)
    requires
        clean_scan(data, n),
    ensures
        scanned_tail(data, n) == tail_of(data, n),
{
    let start = window_start(data, n) as int;
    lemma_scan_stop(data, n, data.len());
    if start == 0 {
        assert(data.skip(0) =~= data);
    } else {
        lemma_lines_of_suffix(data, start);
        let head = split(data.take(start));
        let rest = split(terminated(data.skip(start)));
        let near = lines_of(data.skip(start));
        let all = lines_of(data);
        assert(near.len() >= n);
        assert(all.len() == head.len() - 1 + near.len());
        assert(all.skip(all.len() - n) =~= near.skip(near.len() - n)) by {
            if data[start - 1] == DELIMITER {
                assert(head.last() + rest[0] =~= rest[0]);
            }
        }
        assert(last_lines(data, n) == last_lines(data.skip(start), n));
    }
}

/// Where the scan is not clean, the reader hands out `n` lines of which the
/// first lacks its head, which is not the last `n` lines of the data.
pub proof fn lemma_unclean_scan(data: Seq<u8>, n: nat)
    requires
        !clean_scan(data, n),
    ensures
        scanned_tail(data, n).len() == n,
        tail_of(data, n).len() == n,
        n >= 1,
        scanned_tail(data, n)[0].len() < tail_of(data, n)[0].len(),
        scanned_tail(data, n) != tail_of(data, n),
{
    let start = window_start(data, n) as int;
    lemma_scan_stop(data, n, data.len());
    lemma_lines_of_suffix(data, start);
    let head = split(data.take(start));
    let rest = split(terminated(data.skip(start)));
    let near = lines_of(data.skip(start));
    let all = lines_of(data);
    assert(all.len() == head.len() - 1 + near.len());
    assert(head.last().len() >= 1) by {
        lemma_split_unsplit(data.take(start).drop_last());
    }
    assert(all.skip(all.len() - n)[0] == head.last() + rest[0]);
    assert(near[0] == rest[0]);
}

/// Asked for at least as many lines as the data holds, a reader whose scan
/// is clean hands out every line, in order and unchanged.
pub proof fn lemma_all_lines(data: Seq<u8>, n: nat)
    requires
        clean_scan(data, n),
        n >= lines_of(data).len(),
    ensures
        scanned_tail(data, n) == with_delimiter(lines_of(data)),
{
    lemma_clean_scan(data, n);
}

/// Asked for fewer lines than the data holds, a reader whose scan is clean
/// hands out exactly the last `n` of them, in order and unchanged.
pub proof fn lemma_last_lines(data: Seq<u8>, n: nat)
    requires
        clean_scan(data, n),
        n < lines_of(data).len(),
    ensures
        scanned_tail(data, n).len() == n,
        scanned_tail(data, n) == with_delimiter(lines_of(data).skip(lines_of(data).len() - n)),
{
    lemma_clean_scan(data, n);
}

/// Data that does not end in the delimiter still has its last bytes as a
/// line: the reader hands them out last, with one delimiter added. That is so
/// wherever the scan is clean, and wherever two lines or more are asked for.
pub proof fn lemma_unterminated_last_line(data: Seq<u8>, n: nat)
    requires
        data.len() > 0,
        data.last() != DELIMITER,
        n >= 1,
        clean_scan(data, n) || n >= 2,
    ensures
        lines_of(data) == split(data),
        scanned_tail(data, n).len() >= 1,
        scanned_tail(data, n).last() == split(data).last().push(DELIMITER),
{
    lemma_lines_of(data);
    lemma_split_unsplit(data.drop_last());
    if clean_scan(data, n) {
        lemma_clean_scan(data, n);
    } else {
        let start = window_start(data, n) as int;
        lemma_unclean_scan(data, n);
        lemma_scan_stop(data, n, data.len());
        lemma_lines_of_suffix(data, start);
        let head = split(data.take(start));
        let rest = split(terminated(data.skip(start)));
        let near = lines_of(data.skip(start));
        assert(scanned_tail(data, n).len() == n);
        assert(near.len() == n);
        assert(lines_of(data).last() == near.last());
    }
}

/// Data shorter than one block is read in one piece from its start, so the
/// reader hands out its last `n` lines. So it does for data that is a whole
/// number of blocks long, where the scan is clean; it then rests at the start
/// of a block.
pub proof fn lemma_boundary_lengths(data: Seq<u8>, n: nat)
    ensures
        data.len() < BUFFER_SIZE ==> scanned_tail(data, n) == tail_of(data, n),
        data.len() % (BUFFER_SIZE as nat) == 0 ==> window_start(data, n) % (BUFFER_SIZE as nat)
            == 0,
        data.len() % (BUFFER_SIZE as nat) == 0 && clean_scan(data, n) ==> scanned_tail(data, n)
            == tail_of(data, n),
{
    lemma_scan_stop(data, n, data.len());
    if clean_scan(data, n) {
        lemma_clean_scan(data, n);
    }
}

} // verus!
