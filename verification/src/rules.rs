//! Ready-made key functions and adjacency predicates for common segmentations.

use vstd::prelude::*;

use crate::rule::Adjacency;
use crate::rule::KeyFn;

verus! {

/// Keys a string slice by its length in bytes.
pub struct ByteLen;

impl<'a> KeyFn<&'a str, usize> for ByteLen {
    open spec fn spec_key(&self, t: &'a str) -> usize {
        t.len()
    }

    fn key(&self, t: &&'a str) -> (c: usize) {
        t.len()
    }
}

/// Keys a string slice by its first character, or by `'\0'` when it is empty.
pub struct FirstChar;

impl<'a> KeyFn<&'a str, char> for FirstChar {
    open spec fn spec_key(&self, t: &'a str) -> char {
        if t@.len() > 0 {
            t@[0]
        } else {
            '\0'
        }
    }

    fn key(&self, t: &&'a str) -> (c: char) {
        if t.is_empty() {
            '\0'
        } else {
            t.get_char(0)
        }
    }
}

/// Keys an integer by itself.
pub struct IdentityKey;

impl KeyFn<i64, i64> for IdentityKey {
    open spec fn spec_key(&self, t: i64) -> i64 {
        t
    }

    fn key(&self, t: &i64) -> (c: i64) {
        *t
    }
}

/// Two keys are adjacent when they are equal.
pub struct KeysEqual;

impl Adjacency<usize> for KeysEqual {
    open spec fn spec_connected(&self, prev: usize, cur: usize) -> bool {
        prev == cur
    }

    fn are_connected(&self, prev: usize, cur: usize) -> (r: bool) {
        prev == cur
    }
}

impl Adjacency<char> for KeysEqual {
    open spec fn spec_connected(&self, prev: char, cur: char) -> bool {
        prev == cur
    }

    fn are_connected(&self, prev: char, cur: char) -> (r: bool) {
        prev == cur
    }
}

/// Two integer keys are adjacent when the later one is the successor of the
/// earlier one.
pub struct Successor;

impl Adjacency<i64> for Successor {
    open spec fn spec_connected(&self, prev: i64, cur: i64) -> bool {
        prev + 1 == cur
    }

    fn are_connected(&self, prev: i64, cur: i64) -> (r: bool) {
        prev < i64::MAX && prev + 1 == cur
    }
}

} // verus!
