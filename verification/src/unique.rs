//! Key-based deduplication.
//!
//! [`Unique`] filters a producer down to the first occurrence of every key:
//! an item comes out exactly when its key has not been produced before.
//! The set of keys already produced only grows; it is never pruned.

use vstd::prelude::*;

use crate::Rollercoaster;
use crate::classify::Classify;

verus! {

/// The first-occurrence filter of `s`, as a mathematical function: an item
/// stays exactly when its key is neither in `seen` nor on an earlier item
/// of `s`.  Kept items keep their source order.
pub open spec fn dedup<C: Classify>(s: Seq<C::Item>, seen: Set<C::Key>, classifier: C) -> Seq<
    C::Item,
>
    decreases s.len(),
{
    if s.len() == 0 {
        Seq::empty()
    } else if seen.contains(classifier.key(s[0])) {
        dedup(s.drop_first(), seen, classifier)
    } else {
        seq![s[0]] + dedup(s.drop_first(), seen.insert(classifier.key(s[0])), classifier)
    }
}

/// Unique idempotence: deduplicating an already deduplicated sequence
/// changes nothing.  With no keys seen yet this is the familiar law that
/// applying the filter twice equals applying it once.
pub proof fn lemma_unique_idempotence<C: Classify>(
    s: Seq<C::Item>,
    seen: Set<C::Key>,
    classifier: C,
)
    ensures
        dedup(dedup(s, seen, classifier), seen, classifier) == dedup(s, seen, classifier),
    decreases s.len(),
{
    if s.len() == 0 {
    } else if seen.contains(classifier.key(s[0])) {
        lemma_unique_idempotence(s.drop_first(), seen, classifier);
    } else {
        let expanded = seen.insert(classifier.key(s[0]));
        let tail = dedup(s.drop_first(), expanded, classifier);
        lemma_unique_idempotence(s.drop_first(), expanded, classifier);
        assert((seq![s[0]] + tail)[0] == s[0]);
        assert((seq![s[0]] + tail).drop_first() =~= tail);
    }
}

/// The position of the first item of `s` whose key is `k`, counted from
/// the front; meaningful only when `s` holds such an item.
pub open spec fn first_position<C: Classify>(s: Seq<C::Item>, classifier: C, k: C::Key) -> int
    decreases s.len(),
{
    if s.len() == 0 {
        0
    } else if classifier.key(s[0]) == k {
        0
    } else {
        1 + first_position(s.drop_first(), classifier, k)
    }
}

/// Unique order preservation: every emitted item is the first occurrence
/// of its key in the source (a key already in `seen` is never emitted),
/// distinct emitted items carry distinct keys, and the emission order is
/// the order of those first occurrences in the source.
pub proof fn lemma_unique_order_preservation<C: Classify>(
    s: Seq<C::Item>,
    seen: Set<C::Key>,
    classifier: C,
)
    ensures
        forall|i: int|
            0 <= i < dedup(s, seen, classifier).len() ==> !seen.contains(
                classifier.key(#[trigger] dedup(s, seen, classifier)[i]),
            ),
        forall|i: int|
            0 <= i < dedup(s, seen, classifier).len() ==> {
                let position = first_position(
                    s,
                    classifier,
                    classifier.key(#[trigger] dedup(s, seen, classifier)[i]),
                );
                0 <= position < s.len() && dedup(s, seen, classifier)[i] == s[position]
            },
        forall|i: int, j: int|
            0 <= i < j < dedup(s, seen, classifier).len() ==> first_position(
                s,
                classifier,
                classifier.key(#[trigger] dedup(s, seen, classifier)[i]),
            ) < first_position(
                s,
                classifier,
                classifier.key(#[trigger] dedup(s, seen, classifier)[j]),
            ),
        forall|i: int, j: int|
            0 <= i < j < dedup(s, seen, classifier).len() ==> classifier.key(
                #[trigger] dedup(s, seen, classifier)[i],
            ) != classifier.key(#[trigger] dedup(s, seen, classifier)[j]),
    decreases s.len(),
{
    if s.len() == 0 {
    } else {
        let out = dedup(s, seen, classifier);
        let rest = s.drop_first();
        let head_key = classifier.key(s[0]);
        if seen.contains(head_key) {
            lemma_unique_order_preservation(rest, seen, classifier);
            assert(out == dedup(rest, seen, classifier));
            assert forall|i: int| 0 <= i < out.len() implies !seen.contains(
                classifier.key(#[trigger] out[i]),
            ) by {
                assert(out[i] == dedup(rest, seen, classifier)[i]);
            }
            assert forall|i: int| 0 <= i < out.len() implies {
                let position = first_position(s, classifier, classifier.key(#[trigger] out[i]));
                0 <= position < s.len() && out[i] == s[position]
            } by {
                assert(out[i] == dedup(rest, seen, classifier)[i]);
                assert(classifier.key(out[i]) != head_key);
            }
            assert forall|i: int, j: int| 0 <= i < j < out.len() implies first_position(
                s,
                classifier,
                classifier.key(#[trigger] out[i]),
            ) < first_position(s, classifier, classifier.key(#[trigger] out[j])) by {
                assert(out[i] == dedup(rest, seen, classifier)[i]);
                assert(out[j] == dedup(rest, seen, classifier)[j]);
                assert(classifier.key(out[i]) != head_key);
                assert(classifier.key(out[j]) != head_key);
            }
            assert forall|i: int, j: int| 0 <= i < j < out.len() implies classifier.key(
                #[trigger] out[i],
            ) != classifier.key(#[trigger] out[j]) by {
                assert(out[i] == dedup(rest, seen, classifier)[i]);
                assert(out[j] == dedup(rest, seen, classifier)[j]);
            }
        } else {
            let expanded = seen.insert(head_key);
            lemma_unique_order_preservation(rest, expanded, classifier);
            let tail = dedup(rest, expanded, classifier);
            assert(out == seq![s[0]] + tail);
            assert forall|i: int| 0 <= i < out.len() implies !seen.contains(
                classifier.key(#[trigger] out[i]),
            ) by {
                if i >= 1 {
                    assert(out[i] == tail[i - 1]);
                }
            }
            assert forall|i: int| 0 <= i < out.len() implies {
                let position = first_position(s, classifier, classifier.key(#[trigger] out[i]));
                0 <= position < s.len() && out[i] == s[position]
            } by {
                if i == 0 {
                    assert(first_position(s, classifier, head_key) == 0);
                } else {
                    assert(out[i] == tail[i - 1]);
                    assert(!expanded.contains(classifier.key(out[i])));
                    assert(classifier.key(out[i]) != head_key);
                }
            }
            assert forall|i: int, j: int| 0 <= i < j < out.len() implies first_position(
                s,
                classifier,
                classifier.key(#[trigger] out[i]),
            ) < first_position(s, classifier, classifier.key(#[trigger] out[j])) by {
                assert(out[j] == tail[j - 1]);
                assert(!expanded.contains(classifier.key(out[j])));
                assert(classifier.key(out[j]) != head_key);
                if i == 0 {
                    assert(first_position(s, classifier, head_key) == 0);
                    assert(first_position(s, classifier, classifier.key(out[j])) == 1
                        + first_position(rest, classifier, classifier.key(out[j])));
                    assert(0 <= first_position(rest, classifier, classifier.key(out[j])));
                } else {
                    assert(out[i] == tail[i - 1]);
                    assert(classifier.key(out[i]) != head_key);
                }
            }
        }
    }
}

/// A producer that drops every item whose key was already produced.
pub struct Unique<R: Rollercoaster, C: Classify<Item = R::Item>> {
    /// The keys of the items produced so far; only ever grows.
    seen: Vec<C::Key>,
    /// The wrapped producer, exclusively owned.
    underlying: R,
    /// The key function.
    identify: C,
}

impl<R: Rollercoaster, C: Classify<Item = R::Item>> Unique<R, C> {
    /// The key function this filter was built with.
    pub closed spec fn classifier(&self) -> C {
        self.identify
    }

    /// The keys already produced.
    pub closed spec fn seen_keys(&self) -> Set<C::Key> {
        self.seen@.to_set()
    }

    /// Wraps a producer; every item of it must be acceptable to the key
    /// function.
    pub fn new(iter: R, identify: C) -> (unique: Unique<R, C>)
        requires
            iter.inv(),
            forall|i: int|
                0 <= i < iter.remaining().len() ==> identify.can_classify(
                    #[trigger] iter.remaining()[i],
                ),
        ensures
            unique.inv(),
            unique.classifier() == identify,
            unique.seen_keys() == Set::<C::Key>::empty(),
            unique.remaining() == dedup(iter.remaining(), Set::<C::Key>::empty(), identify),
    {
        let unique = Unique { seen: Vec::new(), underlying: iter, identify };
        proof {
            assert(unique.seen_keys() =~= Set::<C::Key>::empty());
        }
        unique
    }

    /// Whether this key was already produced.
    fn is_seen(&self, key: &C::Key) -> (seen: bool)
        ensures
            seen == self.seen_keys().contains(*key),
    {
        let mut i: usize = 0;
        while i < self.seen.len()
            invariant
                i <= self.seen.len(),
                forall|j: int| 0 <= j < i ==> self.seen@[j] != *key,
            decreases self.seen.len() - i,
        {
            if self.identify.key_eq(&self.seen[i], key) {
                proof {
                    assert(self.seen@.contains(*key));
                }
                return true;
            }
            i += 1;
        }
        proof {
            assert(!self.seen@.contains(*key));
        }
        false
    }
}

impl<R: Rollercoaster, C: Classify<Item = R::Item>> Rollercoaster for Unique<R, C> {
    type Item = R::Item;

    /// The items still to come out: the wrapped producer's items, filtered
    /// to first occurrences of keys not already produced.
    closed spec fn remaining(&self) -> Seq<R::Item> {
        dedup(self.underlying.remaining(), self.seen@.to_set(), self.identify)
    }

    closed spec fn inv(&self) -> bool {
        self.underlying.inv() && forall|i: int|
            0 <= i < self.underlying.remaining().len() ==> self.identify.can_classify(
                #[trigger] self.underlying.remaining()[i],
            )
    }

    fn produce_next(&mut self) -> (produced: Option<R::Item>) {
        let ghost goal = old(self).remaining();
        let ghost classifier = old(self).identify;
        let ghost seen_at_entry = old(self).seen@;
        #[verifier::loop_isolation(false)]
        loop
            invariant
                self.inv(),
                self.identify == classifier,
                self.seen@ == seen_at_entry,
                dedup(self.underlying.remaining(), self.seen@.to_set(), self.identify) == goal,
            decreases self.underlying.remaining().len(),
        {
            let ghost rem = self.underlying.remaining();
            match self.underlying.produce_next() {
                None => {
                    proof {
                        assert(goal =~= Seq::<R::Item>::empty());
                    }
                    return None;
                },
                Some(item) => {
                    let key = self.identify.classify(&item);
                    if !self.is_seen(&key) {
                        let ghost seen_seq = self.seen@;
                        let ghost seen_set = self.seen@.to_set();
                        self.seen.push(key);
                        proof {
                            let pushed = self.seen@;
                            assert forall|k: C::Key|
                                pushed.contains(k) == seen_set.insert(key).contains(
                                    k,
                                ) by {
                                if pushed.contains(k) {
                                    let j = choose|j: int|
                                        0 <= j < pushed.len() && pushed[j] == k;
                                    if j < seen_seq.len() {
                                        assert(seen_seq[j] == k);
                                        assert(seen_seq.contains(k));
                                    } else {
                                        assert(k == key);
                                    }
                                }
                                if seen_seq.contains(k) {
                                    let j = choose|j: int|
                                        0 <= j < seen_seq.len() && seen_seq[j] == k;
                                    assert(pushed[j] == k);
                                    assert(pushed.contains(k));
                                }
                                if k == key {
                                    assert(pushed[pushed.len() - 1] == k);
                                    assert(pushed.contains(k));
                                }
                            }
                            assert(pushed.to_set() =~= seen_set.insert(key));
                            let tail = dedup(
                                self.underlying.remaining(),
                                self.seen@.to_set(),
                                self.identify,
                            );
                            assert(goal == seq![item] + tail);
                            assert((seq![item] + tail).drop_first() =~= tail);
                        }
                        return Some(item);
                    }
                },
            }
        }
    }
}

} // verus!
