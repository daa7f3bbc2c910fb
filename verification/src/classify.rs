//! Key functions for grouping and deduplication.
//!
//! A [`Classify`] value is a pure key function from items to keys, together
//! with a decidable equality on the keys it produces.  Grouping and
//! deduplication are specified entirely through the spec-level function
//! [`Classify::key`], so every combinator's contract pins down its output
//! for whichever key function it was built with.

use vstd::prelude::*;

verus! {

/// A pure key function `Item -> Key`, with decidable key equality.
///
/// `key` is the mathematical statement of the function; `classify` computes
/// it.  `can_classify` delimits the items the executable key function
/// accepts (for most key functions it is every item).
pub trait Classify: Sized {
    type Item;

    type Key;

    /// The items the executable key function accepts.
    spec fn can_classify(&self, item: Self::Item) -> bool;

    /// The key of an item, as a mathematical function.
    spec fn key(&self, item: Self::Item) -> Self::Key;

    /// Compute the key of an item.
    fn classify(&self, item: &Self::Item) -> (key: Self::Key)
        requires
            self.can_classify(*item),
        ensures
            key == self.key(*item),
    ;

    /// Decide equality of two keys.
    fn key_eq(&self, a: &Self::Key, b: &Self::Key) -> (equal: bool)
        ensures
            equal == (*a == *b),
    ;
}

/// Keys each integer by its own value: deduplication by this key function
/// keeps the first occurrence of every value.
pub struct IdentityKey;

impl Classify for IdentityKey {
    type Item = i32;

    type Key = i32;

    open spec fn can_classify(&self, item: i32) -> bool {
        true
    }

    open spec fn key(&self, item: i32) -> i32 {
        item
    }

    fn classify(&self, item: &i32) -> i32 {
        *item
    }

    fn key_eq(&self, a: &i32, b: &i32) -> bool {
        *a == *b
    }
}

/// Keys a string by its length in characters.
pub struct LengthKey;

impl Classify for LengthKey {
    type Item = &'static str;

    type Key = usize;

    open spec fn can_classify(&self, item: &'static str) -> bool {
        true
    }

    open spec fn key(&self, item: &'static str) -> usize {
        item@.len() as usize
    }

    fn classify(&self, item: &&'static str) -> usize {
        item.unicode_len()
    }

    fn key_eq(&self, a: &usize, b: &usize) -> bool {
        *a == *b
    }
}

/// Keys a character by whether it is blank: a space, tab, carriage return
/// or line feed.
pub struct WhitespaceKey;

impl Classify for WhitespaceKey {
    type Item = char;

    type Key = bool;

    open spec fn can_classify(&self, item: char) -> bool {
        true
    }

    open spec fn key(&self, item: char) -> bool {
        item == ' ' || item == '\t' || item == '\r' || item == '\n'
    }

    fn classify(&self, item: &char) -> bool {
        *item == ' ' || *item == '\t' || *item == '\r' || *item == '\n'
    }

    fn key_eq(&self, a: &bool, b: &bool) -> bool {
        *a == *b
    }
}

/// Keys an integer by the fixed-width block it falls in, counted from
/// `origin`: items in `origin..origin + width` get key `0`, the next
/// `width` items key `1`, and so on.
pub struct BlockKey {
    pub origin: i32,
    pub width: i32,
}

impl Classify for BlockKey {
    type Item = i32;

    type Key = i32;

    open spec fn can_classify(&self, item: i32) -> bool {
        1 <= self.width && self.origin <= item && (item - self.origin) / (self.width as int)
            <= i32::MAX
    }

    open spec fn key(&self, item: i32) -> i32 {
        ((item - self.origin) / (self.width as int)) as i32
    }

    fn classify(&self, item: &i32) -> (key: i32) {
        let distance: u64 = ((*item as i64) - (self.origin as i64)) as u64;
        let block: u64 = distance / (self.width as u64);
        proof {
            assert(distance == *item - self.origin);
            assert(self.width as u64 == self.width as int);
            assert(block == (*item - self.origin) / (self.width as int));
        }
        block as i32
    }

    fn key_eq(&self, a: &i32, b: &i32) -> bool {
        *a == *b
    }
}

} // verus!
