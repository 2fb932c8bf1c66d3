//! A ring buffer of fixed capacity that overwrites its oldest entry once it is
//! full.

use vstd::arithmetic::div_mod::{lemma_mod_self_0, lemma_small_mod};
use vstd::prelude::*;

verus! {

/// A circular store of at most `capacity` values. `head` is the slot of the
/// oldest value and `tail` the slot that the next value goes to. A slot holds
/// a value exactly when it lies between the two; where the two are the same
/// slot, either every slot holds a value or none does.
pub struct RingBuffer<T> {
    backing_arr: Vec<Option<T>>,
    tail: usize,
    head: usize,
}

/// The slot after `index` in a ring of `cap` slots.
fn advance(index: usize, cap: usize) -> (next: usize)
    requires
        index < cap,
    ensures
        next == if index + 1 == cap {
            0
        } else {
            index + 1
        },
{
    proof {
        if index + 1 == cap {
            lemma_mod_self_0(cap as int);
        } else {
            lemma_small_mod((index + 1) as nat, cap as nat);
        }
    }
    (index + 1) % cap
}

/// The slot before `index` in a ring of `cap` slots.
fn retreat(index: usize, cap: usize) -> (previous: usize)
    requires
        index < cap,
    ensures
        previous == if index == 0 {
            cap - 1
        } else {
            index - 1
        },
{
    if index == 0 {
        cap - 1
    } else {
        index - 1
    }
}

/// What a buffer of `cap` slots that holds `held` holds after one more value
/// has been added: a full buffer gives up its oldest value for it.
pub open spec fn pushed<T>(held: Seq<T>, cap: nat, item: T) -> Seq<T> {
    if held.len() == cap {
        held.skip(1).push(item)
    } else {
        held.push(item)
    }
}

/// What a buffer of `cap` slots holds after `items` have been added to it,
/// one after the other, starting empty.
pub open spec fn pushed_all<T>(cap: nat, items: Seq<T>) -> Seq<T>
    decreases items.len(),
{
    if items.len() == 0 {
        Seq::<T>::empty()
    } else {
        pushed(pushed_all(cap, items.drop_last()), cap, items.last())
    }
}

/// A value added to a buffer with a free slot is its newest value, and
/// taking the newest value out again leaves what the buffer held before.
pub proof fn lemma_pushed_newest<T>(held: Seq<T>, cap: nat, item: T)
    requires
        held.len() < cap,
    ensures
        pushed(held, cap, item).last() == item,
        pushed(held, cap, item).drop_last() == held,
{
    assert(held.push(item).drop_last() =~= held);
}

/// The last `n` items, or all of them where there are no more than `n`.
pub open spec fn last_items<T>(items: Seq<T>, n: nat) -> Seq<T> {
    if items.len() <= n {
        items
    } else {
        items.skip(items.len() - n)
    }
}

/// A buffer with at least one slot holds, after any number of additions, the
/// last values added, as many as it has slots, in the order they were added.
pub proof fn lemma_pushed_all<T>(cap: nat, items: Seq<T>)
    requires
        cap >= 1,
    ensures
        pushed_all(cap, items) == last_items(items, cap),
    decreases items.len(),
{
    if items.len() > 0 {
        let init = items.drop_last();
        lemma_pushed_all(cap, init);
        if items.len() <= cap {
            assert(init.push(items.last()) =~= items);
        } else if init.len() == cap {
            assert(init.skip(1).push(items.last()) =~= items.skip(items.len() - cap));
        } else {
            assert(init.skip(init.len() - cap).skip(1).push(items.last()) =~= items.skip(
                items.len() - cap,
            ));
        }
    }
}

impl<T> RingBuffer<T> {
    /// The number of slots.
    pub closed spec fn capacity(&self) -> nat {
        self.backing_arr@.len()
    }

    /// The number of values held.
    closed spec fn count(&self) -> nat {
        let cap = self.backing_arr@.len();
        if self.head == self.tail {
            if cap > 0 && self.backing_arr@[self.head as int] is Some {
                cap
            } else {
                0
            }
        } else if self.tail > self.head {
            (self.tail - self.head) as nat
        } else {
            (self.tail + cap - self.head) as nat
        }
    }

    /// The slot of the value that is `i` places younger than the oldest.
    closed spec fn slot(&self, i: int) -> int {
        if self.head + i < self.backing_arr@.len() {
            self.head + i
        } else {
            self.head + i - self.backing_arr@.len()
        }
    }

    /// The invariant: head and tail are slots, and exactly the slots from
    /// head up to tail hold a value.
    pub closed spec fn well_formed(&self) -> bool {
        let cap = self.backing_arr@.len();
        &&& cap == 0 ==> self.head == 0 && self.tail == 0
        &&& cap > 0 ==> self.head < cap && self.tail < cap
        &&& forall|i: int|
            0 <= i < cap ==> (self.backing_arr@[#[trigger] self.slot(i)] is Some <==> i
                < self.count())
    }

    /// A buffer never holds more values than it has slots.
    pub proof fn lemma_within_capacity(&self)
        requires
            self.well_formed(),
        ensures
            self@.len() <= self.capacity(),
    {
        if self.head == self.tail && self.backing_arr@.len() > 0 {
            assert(self.slot(0) == self.head);
        }
    }

    /// A buffer with `cap` empty slots.
    pub fn new(cap: usize) -> (buffer: Self)
        ensures
            buffer.well_formed(),
            buffer.capacity() == cap,
            buffer@ == Seq::<T>::empty(),
    {
        let mut backing_arr: Vec<Option<T>> = Vec::new();
        let mut filled: usize = 0;
        while filled < cap
            invariant
                filled <= cap,
                backing_arr@.len() == filled,
                forall|i: int| 0 <= i < filled ==> backing_arr@[i] is None,
            decreases cap - filled,
        {
            backing_arr.push(None);
            filled += 1;
        }
        let buffer = RingBuffer { backing_arr, tail: 0, head: 0 };
        assert(buffer@ =~= Seq::<T>::empty());
        buffer
    }

    /// Adds `elm` as the newest value. A full buffer first gives up its
    /// oldest value.
    pub fn push_front(&mut self, elm: T)
        requires
            old(self).well_formed(),
            old(self).capacity() > 0,
        ensures
            final(self).well_formed(),
            final(self).capacity() == old(self).capacity(),
            final(self)@ == pushed(old(self)@, old(self).capacity(), elm),
            final(self)@.len() <= final(self).capacity(),
    {
        let ghost before = *self;
        let cap = self.backing_arr.len();
        if self.backing_arr[self.tail].is_some() {
            self.head = advance(self.head, cap);
        }
        self.backing_arr[self.tail] = Some(elm);
        self.tail = advance(self.tail, cap);
        proof {
            let full = before.count() == cap;
            assert(before.slot(0) == before.head);
            if full {
                if cap > 1 {
                    assert(before.slot(1) == self.head);
                }
                assert(self.count() == cap);
            } else {
                assert(before.tail == before.slot(before.count() as int));
                assert(self.count() == before.count() + 1);
            }
            assert forall|i: int| 0 <= i < cap implies (self.backing_arr@[#[trigger] self.slot(
                i,
            )] is Some <==> i < self.count()) by {
                if full {
                    if i + 1 < cap {
                        assert(self.slot(i) == before.slot(i + 1));
                    } else {
                        assert(self.slot(i) == before.tail);
                    }
                } else {
                    assert(self.slot(i) == before.slot(i));
                }
            }
            if full {
                assert forall|i: int| 0 <= i < cap - 1 implies self@[i] == before@[i + 1] by {
                    assert(self.slot(i) == before.slot(i + 1));
                }
                assert(self.slot(cap - 1) == before.tail);
                assert(self@ =~= before@.skip(1).push(elm));
            } else {
                assert forall|i: int| 0 <= i < before.count() implies self@[i] == before@[i] by {
                    assert(self.slot(i) == before.slot(i));
                }
                assert(self@ =~= before@.push(elm));
            }
        }
    }

    /// Takes out the newest value. Reports nothing for an empty buffer.
    pub fn pop_front(&mut self) -> (newest: Option<T>)
        requires
            old(self).well_formed(),
        ensures
            final(self).well_formed(),
            final(self).capacity() == old(self).capacity(),
            old(self)@.len() == 0 ==> newest is None && final(self)@ == old(self)@,
            old(self)@.len() > 0 ==> newest == Some(old(self)@.last()) && final(self)@ == old(
                self,
            )@.drop_last(),
    {
        let ghost before = *self;
        let cap = self.backing_arr.len();
        proof {
            if cap > 0 {
                assert(before.slot(0) == before.head);
            }
        }
        if cap == 0 || self.backing_arr[self.head].is_none() {
            return None;
        }
        self.tail = retreat(self.tail, cap);
        let newest = self.backing_arr[self.tail].take();
        proof {
            let last = before.count() - 1;
            assert(before.tail == before.slot(before.count() as int));
            assert(self.tail == before.slot(last));
            assert(self.count() == last);
            assert forall|i: int| 0 <= i < cap implies (self.backing_arr@[#[trigger] self.slot(
                i,
            )] is Some <==> i < self.count()) by {
                assert(self.slot(i) == before.slot(i));
            }
            assert(self@ =~= before@.drop_last());
        }
        newest
    }

    /// Takes out the oldest value. Reports nothing for an empty buffer.
    pub fn pop_back(&mut self) -> (oldest: Option<T>)
        requires
            old(self).well_formed(),
        ensures
            final(self).well_formed(),
            final(self).capacity() == old(self).capacity(),
            old(self)@.len() == 0 ==> oldest is None && final(self)@ == old(self)@,
            old(self)@.len() > 0 ==> oldest == Some(old(self)@[0]) && final(self)@ == old(
                self,
            )@.skip(1),
    {
        let ghost before = *self;
        let cap = self.backing_arr.len();
        proof {
            if cap > 0 {
                assert(before.slot(0) == before.head);
            }
        }
        if cap == 0 || self.backing_arr[self.head].is_none() {
            return None;
        }
        let oldest = self.backing_arr[self.head].take();
        self.head = advance(self.head, cap);
        proof {
            assert(before.tail == before.slot(before.count() as int));
            assert(self.count() == before.count() - 1);
            assert forall|i: int| 0 <= i < cap implies (self.backing_arr@[#[trigger] self.slot(
                i,
            )] is Some <==> i < self.count()) by {
                if i + 1 < cap {
                    assert(self.slot(i) == before.slot(i + 1));
                } else {
                    assert(self.slot(i) == before.slot(0));
                }
            }
            assert forall|i: int| 0 <= i < self.count() implies self@[i] == before@[i + 1] by {
                assert(self.slot(i) == before.slot(i + 1));
            }
            assert(self@ =~= before@.skip(1));
        }
        oldest
    }
}

impl<T> View for RingBuffer<T> {
    type V = Seq<T>;

    /// The values held, the oldest first.
    closed spec fn view(&self) -> Seq<T> {
        Seq::new(self.count(), |i: int| self.backing_arr@[self.slot(i)].unwrap())
    }
}

} // verus!
