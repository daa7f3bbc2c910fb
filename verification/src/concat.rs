//! Sequence concatenation at either end.
//!
//! [`Concat`] drives two producers one after the other.  With
//! [`ConcatSide::End`] the wrapped producer's items come first and the
//! attached items follow (append); with [`ConcatSide::Start`] the attached
//! items come first (prepend).

use vstd::prelude::*;

use crate::Rollercoaster;

verus! {

/// Which end the attached items are produced at.
pub enum ConcatSide {
    /// The attached items come before the wrapped producer's.
    Start,
    /// The attached items come after the wrapped producer's.
    End,
}

/// The order a [`Concat`] produces in: for `End` the primary items then the
/// secondary ones, for `Start` the reverse.
pub open spec fn concat_order<Item>(
    side: ConcatSide,
    primary: Seq<Item>,
    secondary: Seq<Item>,
) -> Seq<Item> {
    match side {
        ConcatSide::Start => secondary + primary,
        ConcatSide::End => primary + secondary,
    }
}

/// Concat identity: appending `secondary` to `primary` produces exactly
/// `primary`'s items followed by `secondary`'s, and prepending `secondary`
/// to `primary` produces the very sequence that appending `primary` to
/// `secondary` does.
pub proof fn lemma_concat_identity<Item>(primary: Seq<Item>, secondary: Seq<Item>)
    ensures
        concat_order(ConcatSide::End, primary, secondary) == primary + secondary,
        concat_order(ConcatSide::Start, primary, secondary) == concat_order(
            ConcatSide::End,
            secondary,
            primary,
        ),
{
}

/// Produces one producer's items followed by another's.
pub struct Concat<R: Rollercoaster, A: Rollercoaster<Item = R::Item>> {
    /// Fixed at construction: which end `items` is produced at.
    side: ConcatSide,
    /// The primary producer.
    underlying: R,
    /// The attached producer.
    items: A,
}

impl<R: Rollercoaster, A: Rollercoaster<Item = R::Item>> Concat<R, A> {
    /// Chains two producers; `side` says which end `items` is produced at.
    pub fn new(iter: R, items: A, side: ConcatSide) -> (concat: Concat<R, A>)
        requires
            iter.inv(),
            items.inv(),
        ensures
            concat.inv(),
            concat.remaining() == concat_order(side, iter.remaining(), items.remaining()),
    {
        Concat { underlying: iter, items, side }
    }
}

impl<R: Rollercoaster, A: Rollercoaster<Item = R::Item>> Rollercoaster for Concat<R, A> {
    type Item = R::Item;

    /// Both producers' items, in the order the side dictates.
    closed spec fn remaining(&self) -> Seq<R::Item> {
        concat_order(self.side, self.underlying.remaining(), self.items.remaining())
    }

    closed spec fn inv(&self) -> bool {
        self.underlying.inv() && self.items.inv()
    }

    fn produce_next(&mut self) -> (produced: Option<R::Item>) {
        match self.side {
            ConcatSide::Start => {
                let ghost head = self.items.remaining();
                let ghost tail = self.underlying.remaining();
                match self.items.produce_next() {
                    Some(item) => {
                        proof {
                            assert(self.remaining() =~= old(self).remaining().drop_first());
                        }
                        Some(item)
                    },
                    None => {
                        let produced = self.underlying.produce_next();
                        proof {
                            assert(old(self).remaining() =~= tail);
                            assert(self.remaining() =~= self.underlying.remaining());
                        }
                        produced
                    },
                }
            },
            ConcatSide::End => {
                let ghost head = self.underlying.remaining();
                let ghost tail = self.items.remaining();
                match self.underlying.produce_next() {
                    Some(item) => {
                        proof {
                            assert(self.remaining() =~= old(self).remaining().drop_first());
                        }
                        Some(item)
                    },
                    None => {
                        let produced = self.items.produce_next();
                        proof {
                            assert(old(self).remaining() =~= tail);
                            assert(self.remaining() =~= self.items.remaining());
                        }
                        produced
                    },
                }
            },
        }
    }
}

} // verus!
