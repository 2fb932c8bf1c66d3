//! What is shown of a file when it is first opened: the line-count argument
//! and the choice of lines it stands for, made in one pass from the start of
//! the file.

use crate::lines::{complete_lines, line_views, lines_of, tail_of, with_delimiter};
use crate::ring::{last_items, lemma_pushed_all, pushed_all, RingBuffer};
use vstd::prelude::*;
use vstd::string::StringSliceAdditionalSpecFns;

verus! {

/// The plus sign.
pub const PLUS: u8 = 43;

/// The digit zero.
pub const ZERO: u8 = 48;

/// The digit nine.
pub const NINE: u8 = 57;

/// Which lines of a file are wanted.
#[derive(Clone, Copy, Debug, PartialEq, Eq, Structural)]
pub enum LineCount {
    /// The lines at the end of the file, this many.
    FromEnd(usize),
    /// Every line but the first ones, this many.
    SkipFirst(usize),
}

/// Whether every byte is a decimal digit.
pub open spec fn digits_only(s: Seq<u8>) -> bool {
    forall|i: int| 0 <= i < s.len() ==> ZERO <= #[trigger] s[i] <= NINE
}

/// The number that a string of decimal digits spells.
pub open spec fn decimal(s: Seq<u8>) -> nat
    decreases s.len(),
{
    if s.len() == 0 {
        0
    } else {
        decimal(s.drop_last()) * 10 + (s.last() - ZERO) as nat
    }
}

/// The number that `s` spells, if it spells one: a plus sign or none, then
/// one decimal digit or more.
pub open spec fn number_of(s: Seq<u8>) -> Option<nat> {
    let digits = if s.len() > 0 && s[0] == PLUS {
        s.skip(1)
    } else {
        s
    };
    if digits.len() > 0 && digits_only(digits) {
        Some(decimal(digits))
    } else {
        None
    }
}

/// The number that `s` spells, if it spells one that a `usize` can hold.
pub open spec fn usize_of(s: Seq<u8>) -> Option<usize> {
    match number_of(s) {
        Some(n) => if n <= usize::MAX {
            Some(n as usize)
        } else {
            None
        },
        None => None,
    }
}

/// The line count that an argument stands for. A number asks for that many
/// lines from the end. A plus sign and then a number asks for all lines but
/// that many at the start. Anything else is malformed.
pub open spec fn line_count_of(arg: Seq<u8>) -> Option<LineCount> {
    if arg.len() > 0 && arg[0] == PLUS {
        match usize_of(arg.skip(1)) {
            Some(n) => Some(LineCount::SkipFirst(n)),
            None => None,
        }
    } else {
        match usize_of(arg) {
            Some(n) => Some(LineCount::FromEnd(n)),
            None => None,
        }
    }
}

/// The lines of `data` that `count` asks for, each delimiter-terminated:
/// its last lines, or all its lines but the first ones.
pub open spec fn initial_selection(data: Seq<u8>, count: LineCount) -> Seq<Seq<u8>> {
    match count {
        LineCount::SkipFirst(n) => {
            let all = with_delimiter(lines_of(data));
            if n <= all.len() {
                all.skip(n as int)
            } else {
                Seq::empty()
            }
        },
        LineCount::FromEnd(n) => tail_of(data, n as nat),
    }
}

/// A longer string of digits spells no smaller a number.
proof fn lemma_decimal_grows(s: Seq<u8>, n: int)
    requires
        0 <= n <= s.len(),
    ensures
        decimal(s.take(n)) <= decimal(s),
    decreases s.len() - n,
{
    if n < s.len() {
        lemma_decimal_grows(s, n + 1);
        assert(s.take(n + 1).drop_last() =~= s.take(n));
    } else {
        assert(s.take(n) =~= s);
    }
}

/// Reads a number: a plus sign or none, then one decimal digit or more.
/// Nothing comes back for any other string, nor for a number that a `usize`
/// cannot hold.
pub fn parse_number(bytes: &[u8]) -> (number: Option<usize>)
    ensures
        number == usize_of(bytes@),
{
    let start: usize = if bytes.len() > 0 && bytes[0] == PLUS {
        1
    } else {
        0
    };
    if start == bytes.len() {
        return None;
    }
    let ghost digits = bytes@.skip(start as int);
    let mut value: usize = 0;
    let mut i: usize = start;
    assert(digits.take(0) =~= Seq::<u8>::empty());
    assert(bytes@.skip(0) =~= bytes@);
    while i < bytes.len()
        invariant
            start <= i <= bytes.len(),
            start < bytes.len(),
            digits == bytes@.skip(start as int),
            digits == if bytes@.len() > 0 && bytes@[0] == PLUS {
                bytes@.skip(1)
            } else {
                bytes@
            },
            digits_only(digits.take(i - start)),
            value == decimal(digits.take(i - start)),
        decreases bytes.len() - i,
    {
        let byte = bytes[i];
        let ghost read = digits.take(i - start);
        let ghost next = digits.take(i - start + 1);
        proof {
            assert(next.drop_last() =~= read);
            assert(next.last() == byte);
            assert(decimal(next) == decimal(read) * 10 + (byte - ZERO) as nat);
            lemma_decimal_grows(digits, i - start + 1);
        }
        if byte < ZERO || byte > NINE {
            assert(digits[i - start] == byte);
            return None;
        }
        let digit = (byte - ZERO) as usize;
        let shifted = match value.checked_mul(10) {
            Some(shifted) => shifted,
            None => {
                return None;
            },
        };
        value = match shifted.checked_add(digit) {
            Some(sum) => sum,
            None => {
                return None;
            },
        };
        assert(digits_only(next)) by {
            assert forall|j: int| 0 <= j < next.len() implies ZERO <= #[trigger] next[j] <= NINE by {
                if j < read.len() {
                    assert(next[j] == read[j]);
                }
            }
        }
        i += 1;
    }
    assert(digits.take(i - start) =~= digits);
    Some(value)
}

/// Reads the line-count argument. Nothing comes back for a malformed one.
pub fn parse_line_count(arg: &str) -> (count: Option<LineCount>)
    ensures
        count == line_count_of(arg.spec_bytes()),
{
    let bytes = arg.as_bytes();
    if bytes.len() > 0 && bytes[0] == PLUS {
        let rest = vstd::slice::slice_subrange(bytes, 1, bytes.len());
        assert(rest@ =~= bytes@.skip(1));
        match parse_number(rest) {
            Some(n) => Some(LineCount::SkipFirst(n)),
            None => None,
        }
    } else {
        match parse_number(bytes) {
            Some(n) => Some(LineCount::FromEnd(n)),
            None => None,
        }
    }
}

/// The last `cap` of `items`, or all of them where there are no more, found
/// in one pass: every item goes through a ring buffer of `cap` slots, and the
/// buffer is then emptied, oldest value first.
pub fn forward_tail<T>(items: Vec<T>, cap: usize) -> (kept: Vec<T>)
    ensures
        kept@ == last_items(items@, cap as nat),
{
    let ghost all = items@;
    let mut kept: Vec<T> = Vec::new();
    if cap == 0 {
        assert(all.skip(all.len() as int) =~= Seq::<T>::empty());
        return kept;
    }
    let mut ring: RingBuffer<T> = RingBuffer::new(cap);
    for item in it: items
        invariant
            cap > 0,
            ring.well_formed(),
            ring.capacity() == cap,
            it.seq() == all,
            ring@ == pushed_all(cap as nat, all.take(it.index() as int)),
    {
        proof {
            assert(all.take(it.index() + 1).drop_last() =~= all.take(it.index() as int));
        }
        ring.push_front(item);
    }
    proof {
        assert(all.take(all.len() as int) =~= all);
        lemma_pushed_all(cap as nat, all);
    }
    let ghost held = ring@;
    let mut next = ring.pop_back();
    while next.is_some()
        invariant
            ring.well_formed(),
            match next {
                Some(item) => kept@.push(item) + ring@ == held,
                None => kept@ == held,
            },
        decreases
                ring@.len() + if next is Some {
                    1int
                } else {
                    0int
                },
    {
        let ghost taken = kept@.push(next.unwrap());
        let ghost left = ring@;
        kept.push(next.unwrap());
        next = ring.pop_back();
        proof {
            if next is None {
                assert(kept@ =~= held);
            } else {
                assert(kept@.push(next.unwrap()) + ring@ =~= taken + left);
            }
        }
    }
    kept
}

/// The lines of `content` that `count` asks for, in order and
/// delimiter-terminated.
pub fn initial_lines(content: &[u8], count: LineCount) -> (lines: Vec<Vec<u8>>)
    ensures
        line_views(lines@) == initial_selection(content@, count),
{
    let all = complete_lines(content);
    match count {
        LineCount::SkipFirst(n) => {
            let mut all = all;
            if n <= all.len() {
                let rest = all.split_off(n);
                assert(line_views(rest@) =~= line_views(all@ + rest@).skip(n as int));
                rest
            } else {
                Vec::new()
            }
        },
        LineCount::FromEnd(n) => {
            let ghost shown = all@;
            let kept = forward_tail(all, n);
            assert(line_views(last_items(shown, n as nat)) =~= last_items(
                line_views(shown),
                n as nat,
            ));
            assert(last_items(with_delimiter(lines_of(content@)), n as nat) =~= tail_of(
                content@,
                n as nat,
            ));
            kept
        },
    }
}

} // verus!
