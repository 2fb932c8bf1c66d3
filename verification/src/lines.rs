//! Lines of a byte string: splitting on the delimiter and joining again.

use std::collections::VecDeque;
use vstd::prelude::*;

verus! {

/// The byte that ends a line.
pub const DELIMITER: u8 = 10;

/// The fragments of `s` between delimiters, in order. There is always one
/// fragment more than there are delimiters: a string that ends in the
/// delimiter has an empty last fragment.
pub open spec fn split(s: Seq<u8>) -> Seq<Seq<u8>>
    decreases s.len(),
{
    if s.len() == 0 {
        seq![Seq::<u8>::empty()]
    } else {
        let before = split(s.drop_last());
        if s.last() == DELIMITER {
            before.push(Seq::<u8>::empty())
        } else {
            before.update(before.len() - 1, before.last().push(s.last()))
        }
    }
}

/// The fragments joined again, one delimiter between each two neighbours.
pub open spec fn unsplit(fragments: Seq<Seq<u8>>) -> Seq<u8>
    decreases fragments.len(),
{
    if fragments.len() == 0 {
        Seq::<u8>::empty()
    } else if fragments.len() == 1 {
        fragments[0]
    } else {
        unsplit(fragments.drop_last()).push(DELIMITER) + fragments.last()
    }
}

/// No byte of `s` is the delimiter.
pub open spec fn delimiter_free(s: Seq<u8>) -> bool {
    forall|i: int| 0 <= i < s.len() ==> s[i] != DELIMITER
}

/// Every fragment is free of delimiters.
pub open spec fn all_delimiter_free(fragments: Seq<Seq<u8>>) -> bool {
    forall|i: int| 0 <= i < fragments.len() ==> delimiter_free(#[trigger] fragments[i])
}

/// Splitting yields at least one fragment, none of which holds a delimiter,
/// and joining the fragments gives the string back.
pub proof fn lemma_split_unsplit(s: Seq<u8>)
    ensures
        split(s).len() >= 1,
        all_delimiter_free(split(s)),
        unsplit(split(s)) == s,
    decreases s.len(),
{
    if s.len() == 0 {
        assert(unsplit(split(s)) =~= s);
    } else {
        let rest = s.drop_last();
        lemma_split_unsplit(rest);
        let before = split(rest);
        if s.last() == DELIMITER {
            let now = before.push(Seq::<u8>::empty());
            assert(now.drop_last() =~= before);
            assert(unsplit(now) =~= unsplit(before).push(DELIMITER));
            assert(s =~= rest.push(DELIMITER));
        } else {
            let grown = before.last().push(s.last());
            let now = before.update(before.len() - 1, grown);
            assert(delimiter_free(grown));
            if before.len() == 1 {
                assert(unsplit(before) == before[0]);
                assert(unsplit(now) == grown);
            } else {
                assert(now.drop_last() =~= before.drop_last());
                assert(unsplit(now) =~= unsplit(before).push(s.last()));
            }
            assert(s =~= rest.push(s.last()));
        }
    }
}

/// A string without delimiters is its own single fragment.
pub proof fn lemma_split_delimiter_free(s: Seq<u8>)
    requires
        delimiter_free(s),
    ensures
        split(s) == seq![s],
    decreases s.len(),
{
    if s.len() == 0 {
        assert(s =~= Seq::<u8>::empty());
    } else {
        lemma_split_delimiter_free(s.drop_last());
        assert(s.drop_last().push(s.last()) =~= s);
        assert(split(s) =~= seq![s]);
    }
}

/// The fragments of a concatenation, from the fragments of its two parts: the
/// last fragment of the first part and the first fragment of the second part
/// are one fragment of the whole.
pub open spec fn glue(left: Seq<Seq<u8>>, right: Seq<Seq<u8>>) -> Seq<Seq<u8>> {
    left.drop_last().push(left.last() + right[0]) + right.skip(1)
}

/// Splitting a concatenation glues the fragments of its parts.
pub proof fn lemma_split_concat(a: Seq<u8>, b: Seq<u8>)
    ensures
        split(a + b) == glue(split(a), split(b)),
    decreases b.len(),
{
    lemma_split_unsplit(a);
    lemma_split_unsplit(b);
    let left = split(a);
    if b.len() == 0 {
        assert(a + b =~= a);
        assert(left.last() + split(b)[0] =~= left.last());
        assert(glue(left, split(b)) =~= left);
    } else {
        let rest = b.drop_last();
        lemma_split_concat(a, rest);
        lemma_split_unsplit(rest);
        lemma_split_unsplit(a + rest);
        assert((a + b).drop_last() =~= a + rest);
        let right = split(rest);
        let whole = split(a + rest);
        if b.last() == DELIMITER {
            assert(glue(left, right.push(Seq::<u8>::empty())) =~= glue(left, right).push(
                Seq::<u8>::empty(),
            ));
        } else {
            let x = b.last();
            let grown = right.update(right.len() - 1, right.last().push(x));
            if right.len() == 1 {
                assert(whole.last() == left.last() + right[0]);
                assert(whole.last().push(x) =~= left.last() + grown[0]);
            } else {
                assert(whole.last() == right.last());
            }
            assert(glue(left, grown) =~= whole.update(whole.len() - 1, whole.last().push(x)));
        }
    }
}

/// Joining fragments that hold no delimiter and splitting again gives the
/// same fragments: `split` is the only way to cut a string into such
/// fragments.
pub proof fn lemma_split_of_unsplit(fragments: Seq<Seq<u8>>)
    requires
        fragments.len() >= 1,
        all_delimiter_free(fragments),
    ensures
        split(unsplit(fragments)) == fragments,
    decreases fragments.len(),
{
    if fragments.len() == 1 {
        lemma_split_delimiter_free(fragments[0]);
        assert(seq![fragments[0]] =~= fragments);
    } else {
        let init = fragments.drop_last();
        let last = fragments.last();
        assert(all_delimiter_free(init)) by {
            assert forall|i: int| 0 <= i < init.len() implies delimiter_free(#[trigger] init[i]) by {
                assert(init[i] == fragments[i]);
            }
        }
        lemma_split_of_unsplit(init);
        lemma_split_delimiter_free(last);
        let joined = unsplit(init).push(DELIMITER);
        assert(joined.drop_last() =~= unsplit(init));
        assert(split(joined) == init.push(Seq::<u8>::empty()));
        lemma_split_concat(joined, last);
        assert(Seq::<u8>::empty() + last =~= last);
        assert(glue(init.push(Seq::<u8>::empty()), seq![last]) =~= fragments);
    }
}

/// The number of delimiters in `s`.
pub open spec fn delimiters(s: Seq<u8>) -> nat {
    (split(s).len() - 1) as nat
}

/// Delimiters of a concatenation add up, and there are never more of them
/// than bytes.
pub proof fn lemma_delimiters(a: Seq<u8>, b: Seq<u8>)
    ensures
        delimiters(a + b) == delimiters(a) + delimiters(b),
        delimiters(a) <= a.len(),
    decreases a.len(),
{
    lemma_split_unsplit(a);
    lemma_split_unsplit(b);
    lemma_split_concat(a, b);
    if a.len() > 0 {
        lemma_delimiters(a.drop_last(), b);
        lemma_split_unsplit(a.drop_last());
    }
}

/// `s` with a delimiter added at its end, unless it is empty or ends in one
/// already.
pub open spec fn terminated(s: Seq<u8>) -> Seq<u8> {
    if s.len() == 0 || s.last() == DELIMITER {
        s
    } else {
        s.push(DELIMITER)
    }
}

/// The lines of `s`, each without its delimiter. Bytes after the last
/// delimiter are a line too.
pub open spec fn lines_of(s: Seq<u8>) -> Seq<Seq<u8>> {
    split(terminated(s)).drop_last()
}

/// Each line with the delimiter at its end.
pub open spec fn with_delimiter(lines: Seq<Seq<u8>>) -> Seq<Seq<u8>> {
    lines.map_values(|line: Seq<u8>| line.push(DELIMITER))
}

/// The last `n` lines of `s`, or all of them where there are no more than `n`.
pub open spec fn last_lines(s: Seq<u8>, n: nat) -> Seq<Seq<u8>> {
    let all = lines_of(s);
    if all.len() <= n {
        all
    } else {
        all.skip(all.len() - n)
    }
}

/// What a tail of `n` lines shows of `s`: its last `n` lines,
/// delimiter-terminated.
pub open spec fn tail_of(s: Seq<u8>, n: nat) -> Seq<Seq<u8>> {
    with_delimiter(last_lines(s, n))
}

/// The byte strings held by a sequence of buffers.
pub open spec fn line_views(buffers: Seq<Vec<u8>>) -> Seq<Seq<u8>> {
    buffers.map_values(|buffer: Vec<u8>| buffer@)
}

/// The lines are the fragments, without the last one where that is empty.
/// There are as many lines as the terminated string has delimiters.
pub proof fn lemma_lines_of(s: Seq<u8>)
    ensures
        lines_of(s) == if split(s).last().len() == 0 {
            split(s).drop_last()
        } else {
            split(s)
        },
        lines_of(s).len() == delimiters(terminated(s)),
        lines_of(terminated(s)) == lines_of(s),
        all_delimiter_free(lines_of(s)),
        split(s).len() >= 1,
{
    lemma_split_unsplit(s);
    lemma_split_unsplit(terminated(s));
    if s.len() == 0 {
    } else if s.last() == DELIMITER {
        lemma_split_unsplit(s.drop_last());
    } else {
        lemma_split_unsplit(s.drop_last());
        assert(s.push(DELIMITER).drop_last() =~= s);
        assert(split(s).push(Seq::<u8>::empty()).drop_last() =~= split(s));
    }
}

/// The lines of `s`, each followed by the delimiter, are together the bytes
/// of `s`, terminated.
pub proof fn lemma_lines_rejoin(s: Seq<u8>)
    ensures
        with_delimiter(lines_of(s)).flatten() == terminated(s),
{
    let all = split(terminated(s));
    lemma_split_unsplit(terminated(s));
    lemma_lines_of(terminated(s));
    lemma_lines_of(s);
    assert(all.last().len() == 0) by {
        if s.len() > 0 {
            lemma_split_unsplit(terminated(s).drop_last());
        }
    }
    lemma_flatten_terminated(all.drop_last());
    assert(all.drop_last().push(all.last()) =~= all);
    if all.len() >= 2 {
        assert(unsplit(all) =~= unsplit(all.drop_last()).push(DELIMITER));
    } else {
        assert(with_delimiter(all.drop_last()) =~= Seq::<Seq<u8>>::empty());
    }
}

/// Lines that each carry their delimiter make, put together, the lines
/// joined by delimiters with one more delimiter at the end.
proof fn lemma_flatten_terminated(lines: Seq<Seq<u8>>)
    ensures
        lines.len() >= 1 ==> with_delimiter(lines).flatten() == unsplit(lines).push(DELIMITER),
        lines.len() == 0 ==> with_delimiter(lines).flatten() == Seq::<u8>::empty(),
    decreases lines.len(),
{
    if lines.len() >= 1 {
        let init = lines.drop_last();
        lemma_flatten_terminated(init);
        assert(with_delimiter(lines) =~= with_delimiter(init).push(lines.last().push(DELIMITER)));
        with_delimiter(init).lemma_flatten_push(lines.last().push(DELIMITER));
        assert(with_delimiter(lines).flatten() =~= unsplit(lines).push(DELIMITER));
    } else {
        assert(with_delimiter(lines) =~= Seq::<Seq<u8>>::empty());
    }
}

/// Cuts `block` at every delimiter: the fragments hold no delimiter, and
/// joined by delimiters they are `block` again.
pub fn split_on_delimiter(block: &[u8]) -> (fragments: VecDeque<Vec<u8>>)
    ensures
        line_views(fragments@) == split(block@),
        fragments@.len() >= 1,
        all_delimiter_free(line_views(fragments@)),
        unsplit(line_views(fragments@)) == block@,
{
    let mut fragments: VecDeque<Vec<u8>> = VecDeque::new();
    let mut current: Vec<u8> = Vec::new();
    let mut i: usize = 0;
    assert(block@.take(0) =~= Seq::<u8>::empty());
    assert(line_views(fragments@).push(current@) =~= split(block@.take(0)));
    while i < block.len()
        invariant
            i <= block.len(),
            line_views(fragments@).push(current@) == split(block@.take(i as int)),
        decreases block.len() - i,
    {
        let byte = block[i];
        proof {
            assert(block@.take(i + 1).drop_last() =~= block@.take(i as int));
        }
        let ghost before = line_views(fragments@);
        let ghost pending = current@;
        if byte == DELIMITER {
            fragments.push_back(current);
            current = Vec::new();
            assert(line_views(fragments@) =~= before.push(pending));
        } else {
            current.push(byte);
            assert(line_views(fragments@).push(current@) =~= before.push(pending).update(
                before.len() as int,
                pending.push(byte),
            ));
        }
        i += 1;
    }
    let ghost before = line_views(fragments@);
    let ghost pending = current@;
    fragments.push_back(current);
    assert(block@.take(block.len() as int) =~= block@);
    assert(line_views(fragments@) =~= before.push(pending));
    proof {
        lemma_split_unsplit(block@);
    }
    fragments
}

/// The lines of `bytes` in order, each delimiter-terminated; bytes after the
/// last delimiter come out as a line of their own, with a delimiter added.
pub fn complete_lines(bytes: &[u8]) -> (lines: Vec<Vec<u8>>)
    ensures
        line_views(lines@) == with_delimiter(lines_of(bytes@)),
{
    let mut lines: Vec<Vec<u8>> = Vec::new();
    let mut current: Vec<u8> = Vec::new();
    let mut i: usize = 0;
    assert(bytes@.take(0) =~= Seq::<u8>::empty());
    assert(line_views(lines@) =~= with_delimiter(split(bytes@.take(0)).drop_last()));
    while i < bytes.len()
        invariant
            i <= bytes.len(),
            line_views(lines@) == with_delimiter(split(bytes@.take(i as int)).drop_last()),
            current@ == split(bytes@.take(i as int)).last(),
        decreases bytes.len() - i,
    {
        let byte = bytes[i];
        proof {
            assert(bytes@.take(i + 1).drop_last() =~= bytes@.take(i as int));
            lemma_split_unsplit(bytes@.take(i as int));
        }
        let ghost before = split(bytes@.take(i as int));
        let ghost shown = line_views(lines@);
        if byte == DELIMITER {
            current.push(DELIMITER);
            lines.push(current);
            current = Vec::new();
            assert(before.push(Seq::<u8>::empty()).drop_last() =~= before);
            assert(line_views(lines@) =~= shown.push(before.last().push(DELIMITER)));
            assert(with_delimiter(before) =~= with_delimiter(before.drop_last()).push(
                before.last().push(DELIMITER),
            ));
        } else {
            current.push(byte);
            assert(before.update(before.len() - 1, before.last().push(byte)).drop_last()
                =~= before.drop_last());
        }
        i += 1;
    }
    proof {
        assert(bytes@.take(bytes.len() as int) =~= bytes@);
        lemma_lines_of(bytes@);
    }
    if current.len() > 0 {
        let ghost before = split(bytes@);
        let ghost shown = line_views(lines@);
        current.push(DELIMITER);
        lines.push(current);
        assert(line_views(lines@) =~= shown.push(before.last().push(DELIMITER)));
        assert(with_delimiter(before) =~= with_delimiter(before.drop_last()).push(
            before.last().push(DELIMITER),
        ));
    }
    lines
}

/// The lines that `s` holds whole, each without its delimiter: what stands
/// before each of its delimiters. Bytes after the last delimiter are an open
/// line and are left out.
pub open spec fn whole_lines_of(s: Seq<u8>) -> Seq<Seq<u8>> {
    split(s).drop_last()
}

/// How many bytes of `s` its whole lines take up, delimiters included: all
/// but the open line at its end.
pub open spec fn whole_len(s: Seq<u8>) -> nat {
    (s.len() - split(s).last().len()) as nat
}

/// The whole lines of `s`, each followed by its delimiter, are together the
/// longest part of `s` from its start that is empty or ends in a delimiter.
/// What follows holds no delimiter.
pub proof fn lemma_whole_lines(s: Seq<u8>)
    ensures
        whole_len(s) <= s.len(),
        split(s).len() >= 1,
        with_delimiter(whole_lines_of(s)).flatten() == s.take(whole_len(s) as int),
        whole_len(s) > 0 ==> s[whole_len(s) - 1] == DELIMITER,
        s.skip(whole_len(s) as int) == split(s).last(),
        delimiter_free(split(s).last()),
{
    let all = split(s);
    lemma_split_unsplit(s);
    lemma_flatten_terminated(all.drop_last());
    assert(all.drop_last().push(all.last()) =~= all);
    if all.len() >= 2 {
        let before = unsplit(all.drop_last()).push(DELIMITER);
        assert(s == before + all.last());
        assert(s.take(before.len() as int) =~= before);
        assert(s.skip(before.len() as int) =~= all.last());
    } else {
        assert(s.take(0) =~= Seq::<u8>::empty());
        assert(s.skip(0) =~= s);
    }
}

/// The lines that `bytes` holds whole, in order and with their delimiters,
/// and the number of bytes they take up. Bytes after the last delimiter are
/// left for a later time.
pub fn whole_lines(bytes: &[u8]) -> (found: (Vec<Vec<u8>>, usize))
    ensures
        line_views(found.0@) == with_delimiter(whole_lines_of(bytes@)),
        found.1 == whole_len(bytes@),
        found.1 <= bytes@.len(),
{
    let mut lines: Vec<Vec<u8>> = Vec::new();
    let mut current: Vec<u8> = Vec::new();
    let mut taken: usize = 0;
    let mut i: usize = 0;
    assert(bytes@.take(0) =~= Seq::<u8>::empty());
    assert(line_views(lines@) =~= with_delimiter(split(bytes@.take(0)).drop_last()));
    while i < bytes.len()
        invariant
            i <= bytes.len(),
            line_views(lines@) == with_delimiter(split(bytes@.take(i as int)).drop_last()),
            current@ == split(bytes@.take(i as int)).last(),
            taken + current@.len() == i,
        decreases bytes.len() - i,
    {
        let byte = bytes[i];
        proof {
            assert(bytes@.take(i + 1).drop_last() =~= bytes@.take(i as int));
            lemma_split_unsplit(bytes@.take(i as int));
        }
        let ghost before = split(bytes@.take(i as int));
        let ghost shown = line_views(lines@);
        if byte == DELIMITER {
            current.push(DELIMITER);
            lines.push(current);
            current = Vec::new();
            taken = i + 1;
            assert(before.push(Seq::<u8>::empty()).drop_last() =~= before);
            assert(line_views(lines@) =~= shown.push(before.last().push(DELIMITER)));
            assert(with_delimiter(before) =~= with_delimiter(before.drop_last()).push(
                before.last().push(DELIMITER),
            ));
        } else {
            current.push(byte);
            assert(before.update(before.len() - 1, before.last().push(byte)).drop_last()
                =~= before.drop_last());
        }
        i += 1;
    }
    assert(bytes@.take(bytes.len() as int) =~= bytes@);
    (lines, taken)
}

} // verus!
