//! Lazy, composable sequence transformations over pull-based producers.
//!
//! The [`Rollercoaster`] trait is the sequence-production capability that
//! every combinator in this crate wraps: a producer hands out one item per
//! call, in a fixed order, until it is exhausted.  On top of it the crate
//! builds a pushback buffer ([`memory::Memory`]), contiguous run grouping
//! ([`grouping::GroupBy`]), key-based deduplication ([`unique::Unique`]) and
//! concatenation at either end ([`concat::Concat`]).

use vstd::prelude::*;

pub mod classify;
pub mod concat;
pub mod grouping;
pub mod memory;
pub mod unique;

verus! {

/// A pull-based producer of a finite sequence of items.
///
/// `remaining()` is the abstract view: the items still to be produced, in
/// the order they will come out.  `inv()` is the producer's internal
/// well-formedness condition; constructors establish it and `produce_next`
/// preserves it.
pub trait Rollercoaster: Sized {
    type Item;

    /// The items still to be produced, first to come out at index 0.
    spec fn remaining(&self) -> Seq<Self::Item>;

    /// Internal well-formedness of the producer.
    spec fn inv(&self) -> bool;

    /// Produce the next item, or signal exhaustion with `None`.
    fn produce_next(&mut self) -> (produced: Option<Self::Item>)
        requires
            old(self).inv(),
        ensures
            final(self).inv(),
            match produced {
                Some(item) => old(self).remaining().len() > 0
                    && item == old(self).remaining()[0]
                    && final(self).remaining() == old(self).remaining().drop_first(),
                None => old(self).remaining().len() == 0
                    && final(self).remaining() == old(self).remaining(),
            },
    ;
}

/// The leaf producer: hands out the elements of a vector, front first.
pub struct VecProducer<T> {
    items: Vec<T>,
}

impl<T> VecProducer<T> {
    /// Wraps a vector; its elements are produced in order.
    pub fn new(items: Vec<T>) -> (producer: VecProducer<T>)
        ensures
            producer.inv(),
            producer.remaining() == items@,
    {
        VecProducer { items }
    }
}

impl<T> Rollercoaster for VecProducer<T> {
    type Item = T;

    closed spec fn remaining(&self) -> Seq<T> {
        self.items@
    }

    open spec fn inv(&self) -> bool {
        true
    }

    fn produce_next(&mut self) -> (produced: Option<T>) {
        if self.items.len() > 0 {
            let item = self.items.remove(0);
            proof {
                assert(self.items@ =~= old(self).items@.drop_first());
            }
            Some(item)
        } else {
            None
        }
    }
}

} // verus!
