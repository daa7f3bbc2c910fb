//! Contiguous run grouping.
//!
//! [`GroupBy`] partitions a producer's items into maximal runs of adjacent
//! items with equal keys.  It scans forward through a [`Memory`]-wrapped
//! producer; the first item whose key differs from the current run's is
//! pushed back so the next call starts the next run with it.  Grouping is
//! adjacency-based: a key seen again after a gap starts a fresh group.

use vstd::prelude::*;

use crate::Rollercoaster;
use crate::classify::Classify;
use crate::memory::Memory;

verus! {

/// One maximal run of adjacent items with equal keys.
pub struct Group<Item, K> {
    /// The key every item of the run has.
    pub kind: K,
    /// The run's items, in source order.
    pub items: Vec<Item>,
}

/// The length of the maximal prefix of `s` whose items all have the key of
/// `s[0]`; zero only on the empty sequence.
pub open spec fn run_len<C: Classify>(s: Seq<C::Item>, classifier: C) -> nat
    decreases s.len(),
{
    if s.len() == 0 {
        0
    } else if s.len() == 1 {
        1
    } else if classifier.key(s[1]) == classifier.key(s[0]) {
        run_len(s.drop_first(), classifier) + 1
    } else {
        1
    }
}

/// What makes `run_len` the length of the maximal run: every item before it
/// carries the first item's key, and the item at it (if any) does not.
pub proof fn lemma_run_len_bounds<C: Classify>(s: Seq<C::Item>, classifier: C)
    requires
        s.len() > 0,
    ensures
        1 <= run_len(s, classifier) <= s.len(),
        forall|i: int|
            0 <= i < run_len(s, classifier) ==> classifier.key(#[trigger] s[i]) == classifier.key(
                s[0],
            ),
        run_len(s, classifier) < s.len() ==> classifier.key(s[run_len(s, classifier) as int])
            != classifier.key(s[0]),
    decreases s.len(),
{
    if s.len() > 1 && classifier.key(s[1]) == classifier.key(s[0]) {
        let t = s.drop_first();
        lemma_run_len_bounds(t, classifier);
        assert forall|i: int| 0 <= i < run_len(s, classifier) implies classifier.key(
            #[trigger] s[i],
        ) == classifier.key(s[0]) by {
            if i >= 1 {
                assert(t[i - 1] == s[i]);
                assert(classifier.key(t[i - 1]) == classifier.key(t[0]));
            }
        }
        if run_len(s, classifier) < s.len() {
            assert(t[run_len(t, classifier) as int] == s[run_len(s, classifier) as int]);
        }
    }
}

/// A scan that stopped at position `k` found the whole maximal run: `k`
/// items carrying the first key, ended by the source or by a differing key.
pub proof fn lemma_run_len_from_scan<C: Classify>(s: Seq<C::Item>, classifier: C, k: int)
    requires
        0 <= k <= s.len(),
        s.len() > 0 ==> k >= 1,
        forall|i: int| 0 <= i < k ==> classifier.key(#[trigger] s[i]) == classifier.key(s[0]),
        k < s.len() ==> classifier.key(s[k]) != classifier.key(s[0]),
    ensures
        run_len(s, classifier) == k,
{
    if s.len() > 0 {
        lemma_run_len_bounds(s, classifier);
        let n = run_len(s, classifier) as int;
        if n < k {
            assert(classifier.key(s[n]) == classifier.key(s[0]));
        }
        if k < n {
            assert(classifier.key(s[k]) == classifier.key(s[0]));
        }
    }
}

/// The partition of `s` into maximal runs of adjacent equal-key items, each
/// with its key, in source order.
pub open spec fn group_split<C: Classify>(s: Seq<C::Item>, classifier: C) -> Seq<
    (C::Key, Seq<C::Item>),
>
    decreases s.len(),
    via group_split_decreases::<C>
{
    if s.len() == 0 {
        Seq::empty()
    } else {
        seq![(classifier.key(s[0]), s.take(run_len(s, classifier) as int))] + group_split(
            s.skip(run_len(s, classifier) as int),
            classifier,
        )
    }
}

#[via_fn]
proof fn group_split_decreases<C: Classify>(s: Seq<C::Item>, classifier: C) {
    if s.len() > 0 {
        lemma_run_len_bounds(s, classifier);
    }
}

/// GroupBy completeness: concatenating the items of every group, in
/// emission order, reproduces the source sequence exactly.
pub proof fn lemma_group_by_completeness<C: Classify>(s: Seq<C::Item>, classifier: C)
    ensures
        group_split(s, classifier).map_values(|group: (C::Key, Seq<C::Item>)| group.1).flatten()
            == s,
    decreases s.len(),
{
    let to_items = |group: (C::Key, Seq<C::Item>)| group.1;
    if s.len() == 0 {
        assert(group_split(s, classifier).map_values(to_items).flatten() =~= s);
    } else {
        lemma_run_len_bounds(s, classifier);
        let n = run_len(s, classifier) as int;
        let rest = s.skip(n);
        lemma_group_by_completeness(rest, classifier);
        let mapped = group_split(s, classifier).map_values(to_items);
        assert(mapped =~= seq![s.take(n)] + group_split(rest, classifier).map_values(to_items));
        assert(mapped.drop_first() =~= group_split(rest, classifier).map_values(to_items));
        assert(mapped.flatten() == s.take(n) + mapped.drop_first().flatten());
        assert(s.take(n) + rest =~= s);
    }
}

/// GroupBy maximality: every group is a non-empty run of items that all
/// carry the group's key, the key is the first item's, and adjacent groups
/// carry differing keys — so the item right after a group (the next group's
/// first) never matches the group's key.
pub proof fn lemma_group_by_maximality<C: Classify>(s: Seq<C::Item>, classifier: C)
    ensures
        forall|g: int|
            0 <= g < group_split(s, classifier).len() ==> (#[trigger] group_split(s, classifier)[g]).1.len()
                > 0,
        forall|g: int|
            0 <= g < group_split(s, classifier).len() ==> (#[trigger] group_split(s, classifier)[g]).0
                == classifier.key(group_split(s, classifier)[g].1[0]),
        forall|g: int, i: int|
            0 <= g < group_split(s, classifier).len() && 0 <= i < group_split(s, classifier)[g].1.len()
                ==> classifier.key(#[trigger] group_split(s, classifier)[g].1[i]) == group_split(
                s,
                classifier,
            )[g].0,
        forall|g: int|
            0 <= g < group_split(s, classifier).len() - 1 ==> (#[trigger] group_split(s, classifier)[g
                + 1]).0 != group_split(s, classifier)[g].0,
    decreases s.len(),
{
    if s.len() > 0 {
        lemma_run_len_bounds(s, classifier);
        let n = run_len(s, classifier) as int;
        let rest = s.skip(n);
        lemma_group_by_maximality(rest, classifier);
        let groups = group_split(s, classifier);
        let rest_groups = group_split(rest, classifier);
        assert forall|g: int, i: int|
            0 <= g < groups.len() && 0 <= i < groups[g].1.len() implies classifier.key(
            #[trigger] groups[g].1[i],
        ) == groups[g].0 by {
            if g == 0 {
                assert(groups[0].1[i] == s[i]);
            } else {
                assert(groups[g] == rest_groups[g - 1]);
            }
        }
        assert forall|g: int| 0 <= g < groups.len() - 1 implies (#[trigger] groups[g + 1]).0
            != groups[g].0 by {
            if g == 0 {
                assert(rest.len() > 0);
                lemma_run_len_bounds(rest, classifier);
                assert(groups[1] == rest_groups[0]);
                assert(rest_groups[0].0 == classifier.key(rest[0]));
                assert(rest[0] == s[n]);
            } else {
                assert(groups[g] == rest_groups[g - 1]);
                assert(groups[g + 1] == rest_groups[g - 1 + 1]);
                assert(rest_groups[g - 1 + 1].0 != rest_groups[g - 1].0);
            }
        }
    }
}

/// A producer of [`Group`]s: maximal runs of adjacent equal-key items.
pub struct GroupBy<R: Rollercoaster, C: Classify<Item = R::Item>> {
    /// The wrapped producer, behind a pushback buffer for the one item
    /// that is scanned past the end of a run.
    underlying: Memory<R>,
    /// The key function runs are formed by.
    predicate: C,
}

impl<R: Rollercoaster, C: Classify<Item = R::Item>> GroupBy<R, C> {
    /// The key function this grouping was built with.
    pub closed spec fn classifier(&self) -> C {
        self.predicate
    }

    /// The items not yet emitted in any group, in source order.
    pub closed spec fn pending(&self) -> Seq<R::Item> {
        self.underlying.remaining()
    }

    /// The groups still to be emitted.
    pub open spec fn groups(&self) -> Seq<(C::Key, Seq<R::Item>)> {
        group_split(self.pending(), self.classifier())
    }

    /// Internal well-formedness: the wrapped producer is well formed and
    /// the key function accepts every pending item.
    pub closed spec fn inv(&self) -> bool {
        self.underlying.inv() && forall|i: int|
            0 <= i < self.underlying.remaining().len() ==> self.predicate.can_classify(
                #[trigger] self.underlying.remaining()[i],
            )
    }

    /// Wraps a producer; every item of it must be acceptable to the key
    /// function.
    pub fn new(iter: R, predicate: C) -> (group_by: GroupBy<R, C>)
        requires
            iter.inv(),
            forall|i: int|
                0 <= i < iter.remaining().len() ==> predicate.can_classify(
                    #[trigger] iter.remaining()[i],
                ),
        ensures
            group_by.inv(),
            group_by.classifier() == predicate,
            group_by.pending() == iter.remaining(),
    {
        GroupBy { underlying: Memory::new(iter), predicate }
    }

    /// Produce the next maximal run of adjacent equal-key items, or `None`
    /// once every pending item has been emitted.
    ///
    /// The run emitted is exactly the `run_len`-long prefix of the pending
    /// items, keyed by the first item's key; the pending items lose that
    /// prefix and nothing else.
    pub fn produce_next(&mut self) -> (produced: Option<Group<R::Item, C::Key>>)
        requires
            old(self).inv(),
        ensures
            final(self).inv(),
            final(self).classifier() == old(self).classifier(),
            match produced {
                Some(group) => {
                    let n = run_len(old(self).pending(), old(self).classifier()) as int;
                    old(self).pending().len() > 0 && group.kind == old(self).classifier().key(
                        old(self).pending()[0],
                    ) && group.items@ == old(self).pending().take(n) && final(self).pending()
                        == old(self).pending().skip(n) && (group.kind, group.items@) == old(
                        self,
                    ).groups()[0] && final(self).groups() == old(self).groups().drop_first()
                },
                None => old(self).pending().len() == 0 && final(self).pending() == old(
                    self,
                ).pending(),
            },
    {
        let ghost start = old(self).pending();
        let ghost classifier = old(self).predicate;
        let mut items: Vec<R::Item> = Vec::new();
        let mut current: Option<C::Key> = None;
        proof {
            assert(items@ =~= start.take(0));
            assert(self.underlying.remaining() =~= start.skip(0));
        }

        loop
            invariant_except_break
                self.inv(),
                self.predicate == classifier,
                items@.len() <= start.len(),
                items@ == start.take(items@.len() as int),
                self.underlying.remaining() == start.skip(items@.len() as int),
                forall|i: int|
                    0 <= i < items@.len() ==> classifier.key(#[trigger] start[i]) == classifier.key(
                        start[0],
                    ),
                current is Some <==> items@.len() > 0,
                items@.len() > 0 ==> current == Some(classifier.key(start[0])),
            ensures
                self.inv(),
                self.predicate == classifier,
                items@ == start.take(items@.len() as int),
                self.underlying.remaining() == start.skip(items@.len() as int),
                items@.len() == run_len(start, classifier),
                items@.len() > 0 ==> current == Some(classifier.key(start[0])),
            decreases self.underlying.remaining().len(),
        {
            let ghost scanned = items@.len() as int;
            match self.underlying.produce_next() {
                None => {
                    proof {
                        assert(start.skip(scanned).len() == 0);
                        lemma_run_len_from_scan(start, classifier, scanned);
                    }
                    break ;
                },
                Some(item) => {
                    proof {
                        assert(item == start.skip(scanned)[0]);
                        assert(item == start[scanned]);
                        assert(classifier.can_classify(item));
                    }
                    let key = self.predicate.classify(&item);
                    let same = match &current {
                        None => true,
                        Some(run_key) => self.predicate.key_eq(&key, run_key),
                    };
                    if same {
                        current = Some(key);
                        items.push(item);
                        proof {
                            assert(items@ =~= start.take(scanned + 1));
                            assert(self.underlying.remaining() =~= start.skip(scanned + 1));
                        }
                    } else {
                        self.underlying.remember(item);
                        proof {
                            assert(self.underlying.remaining() =~= start.skip(scanned));
                            assert(classifier.key(start[scanned]) != classifier.key(start[0]));
                            lemma_run_len_from_scan(start, classifier, scanned);
                        }
                        break ;
                    }
                },
            }
        }

        if items.len() == 0 {
            proof {
                if start.len() > 0 {
                    lemma_run_len_bounds(start, classifier);
                }
                assert(self.pending() =~= start);
            }
            None
        } else {
            let kind = current.unwrap();
            proof {
                assert(start.len() > 0);
                let n = run_len(start, classifier) as int;
                assert(group_split(start, classifier) == seq![(classifier.key(start[0]), start.take(n))]
                    + group_split(start.skip(n), classifier));
                assert(group_split(start, classifier)[0] == (classifier.key(start[0]), start.take(n)));
                assert(group_split(start, classifier).drop_first() =~= group_split(
                    start.skip(n),
                    classifier,
                ));
            }
            Some(Group { kind, items })
        }
    }
}

} // verus!
