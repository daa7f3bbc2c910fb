//! A pushback buffer over any producer.
//!
//! [`Memory`] wraps a producer and adds a LIFO buffer: items handed to
//! [`Memory::remember`] are replayed, most recent first, before the
//! underlying producer is consulted again.  This is what lets a consumer
//! undo the consumption of one or more items, in reverse order of
//! remembering them.

use vstd::prelude::*;

use crate::Rollercoaster;

verus! {

/// The remaining sequence after remembering `items` one at a time, first
/// to last, on a memory whose remaining sequence is `rest`: each remember
/// puts its item in front, as [`Memory::remember`] ensures.
pub open spec fn remember_in_turn<Item>(rest: Seq<Item>, items: Seq<Item>) -> Seq<Item>
    decreases items.len(),
{
    if items.len() == 0 {
        rest
    } else {
        remember_in_turn(seq![items[0]] + rest, items.drop_first())
    }
}

/// Memory stack law: remembering `items` in turn, with no production in
/// between, makes the remaining sequence `items` in reverse followed by
/// what was remaining before.  Since [`Rollercoaster::produce_next`]
/// always produces the front of the remaining sequence, the next calls
/// replay the remembered items last-in first-out and then resume the
/// underlying sequence untouched.
pub proof fn lemma_memory_stack_law<Item>(rest: Seq<Item>, items: Seq<Item>)
    ensures
        remember_in_turn(rest, items) == items.reverse() + rest,
    decreases items.len(),
{
    if items.len() == 0 {
        assert(items.reverse() + rest =~= rest);
    } else {
        lemma_memory_stack_law(seq![items[0]] + rest, items.drop_first());
        assert(items.drop_first().reverse() + (seq![items[0]] + rest) =~= items.reverse() + rest);
    }
}

/// Memory forget law: a remember followed by a forget leaves the memory
/// as if neither had been called.  After [`Memory::remember`] the buffer
/// holds `item` in front of `buffered` and the remaining sequence holds it
/// in front of `rest`; the buffer is then non-empty, so [`Memory::forget`]
/// drops exactly that front from both, restoring `buffered` and `rest`.
pub proof fn lemma_memory_forget_law<Item>(buffered: Seq<Item>, rest: Seq<Item>, item: Item)
    ensures
        (seq![item] + buffered).len() > 0,
        (seq![item] + buffered).drop_first() == buffered,
        (seq![item] + rest).drop_first() == rest,
{
    assert((seq![item] + buffered).drop_first() =~= buffered);
    assert((seq![item] + rest).drop_first() =~= rest);
}

/// A producer with a stack-discipline pushback buffer.
pub struct Memory<R: Rollercoaster> {
    /// The buffer, owned as a stack: the last element is replayed first.
    items: Vec<R::Item>,
    /// The wrapped producer, exclusively owned.
    underlying: R,
}

impl<R: Rollercoaster> Memory<R> {
    /// The buffered items in replay order: the most recently remembered
    /// item stands at index 0.
    pub closed spec fn buffered(&self) -> Seq<R::Item> {
        self.items@.reverse()
    }

    /// Wraps a producer with an empty buffer.
    pub fn new(underlying: R) -> (memory: Memory<R>)
        requires
            underlying.inv(),
        ensures
            memory.inv(),
            memory.buffered() == Seq::<R::Item>::empty(),
            memory.remaining() == underlying.remaining(),
    {
        let memory = Memory { items: Vec::new(), underlying };
        proof {
            assert(memory.buffered() =~= Seq::<R::Item>::empty());
        }
        memory
    }

    /// Remember this item: it is the next one produced.
    pub fn remember(&mut self, item: R::Item)
        ensures
            final(self).buffered() == seq![item] + old(self).buffered(),
            final(self).remaining() == seq![item] + old(self).remaining(),
            final(self).inv() == old(self).inv(),
    {
        self.items.push(item);
        proof {
            assert(self.buffered() =~= seq![item] + old(self).buffered());
            assert(self.remaining() =~= seq![item] + old(self).remaining());
        }
    }

    /// Remove the most recently remembered item, without producing it.
    /// With nothing remembered this is a silent no-op.
    pub fn forget(&mut self)
        ensures
            old(self).buffered().len() == 0 ==> final(self).buffered() == old(
                self,
            ).buffered() && final(self).remaining() == old(self).remaining(),
            old(self).buffered().len() > 0 ==> final(self).buffered() == old(
                self,
            ).buffered().drop_first() && final(self).remaining() == old(
                self,
            ).remaining().drop_first(),
            final(self).inv() == old(self).inv(),
    {
        let _ = self.items.pop();
        proof {
            if old(self).buffered().len() == 0 {
                assert(self.buffered() =~= old(self).buffered());
                assert(self.remaining() =~= old(self).remaining());
            } else {
                assert(self.buffered() =~= old(self).buffered().drop_first());
                assert(self.remaining() =~= old(self).remaining().drop_first());
            }
        }
    }

    /// Empty the buffer entirely: production resumes from the underlying
    /// producer alone.
    pub fn clear(&mut self)
        ensures
            final(self).buffered() == Seq::<R::Item>::empty(),
            final(self).remaining() == old(self).remaining().skip(
                old(self).buffered().len() as int,
            ),
            final(self).inv() == old(self).inv(),
    {
        self.items.clear();
        proof {
            assert(self.buffered() =~= Seq::<R::Item>::empty());
            assert(self.remaining() =~= old(self).remaining().skip(
                old(self).buffered().len() as int,
            ));
        }
    }
}

impl<R: Rollercoaster> Rollercoaster for Memory<R> {
    type Item = R::Item;

    /// The buffer in replay order, then whatever the wrapped producer
    /// still holds.
    closed spec fn remaining(&self) -> Seq<R::Item> {
        self.buffered() + self.underlying.remaining()
    }

    closed spec fn inv(&self) -> bool {
        self.underlying.inv()
    }

    fn produce_next(&mut self) -> (produced: Option<R::Item>) {
        if self.items.len() > 0 {
            let item = self.items.pop().unwrap();
            proof {
                assert(item == old(self).remaining()[0]);
                assert(self.remaining() =~= old(self).remaining().drop_first());
            }
            Some(item)
        } else {
            proof {
                assert(self.buffered() =~= Seq::<R::Item>::empty());
                assert(old(self).remaining() =~= self.underlying.remaining());
            }
            let produced = self.underlying.produce_next();
            proof {
                assert(self.remaining() =~= self.underlying.remaining());
                if old(self).remaining().len() > 0 {
                    assert(self.remaining() =~= old(self).remaining().drop_first());
                }
            }
            produced
        }
    }
}

} // verus!
