//! The two capabilities a segmentation needs: deriving a comparison key from
//! an item, and deciding whether two neighbouring keys belong to one span.

use vstd::prelude::*;

verus! {

/// A pure key function: derives a copyable comparison key of type `C` from an
/// item of type `T`.
///
/// `spec_key` is the mathematical statement of the function; the executable
/// `key` must return exactly that value, so a key is the same however often it
/// is derived, and contracts over whole sequences of items can speak of it.
pub trait KeyFn<T, C>: Sized {
    /// The key of `t`, as a mathematical function.
    spec fn spec_key(&self, t: T) -> C;

    /// Derives the key of `t`.
    fn key(&self, t: &T) -> (c: C)
        ensures
            c == self.spec_key(*t),
    ;
}

/// A pure adjacency predicate over two comparison keys: `prev` is the key of
/// the earlier item, `cur` the key of the item immediately after it, and the
/// predicate holds when the two items belong to the same span.
///
/// `spec_connected` is the mathematical statement of the predicate; the
/// executable `are_connected` must return exactly that value.
pub trait Adjacency<C>: Sized {
    /// Whether keys `prev` and `cur` are adjacent, as a mathematical function.
    spec fn spec_connected(&self, prev: C, cur: C) -> bool;

    /// Decides whether keys `prev` and `cur` are adjacent.
    fn are_connected(&self, prev: C, cur: C) -> (r: bool)
        ensures
            r == self.spec_connected(prev, cur),
    ;
}

} // verus!
