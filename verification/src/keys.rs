//! Bounds on the key and value types that the cache stores.
//!
//! Keys must support an equality test that decides equality of their
//! mathematical views, and a duplication that preserves the view; values
//! must support an exact duplication. `String` and the unsigned integers
//! satisfy both, and user types can join by implementing the traits.

use vstd::prelude::*;

verus! {

/// A cache key: a value with a mathematical view, an equality test that
/// decides view equality, and a duplication that preserves the view.
pub trait CacheKey: View + Sized {
    /// Decides whether two keys have the same view.
    fn key_eq(&self, other: &Self) -> (r: bool)
        ensures
            r <==> self@ == other@,
    ;

    /// Produces a key equal to this one.
    fn key_dup(&self) -> (r: Self)
        ensures
            r == *self,
    ;
}

/// A cache value: a value that can be duplicated exactly.
pub trait CacheValue: Sized {
    /// Produces a value equal to this one.
    fn dup(&self) -> (r: Self)
        ensures
            r == *self,
    ;
}

impl CacheKey for String {
    fn key_eq(&self, other: &Self) -> (r: bool) {
        *self == *other
    }

    fn key_dup(&self) -> (r: Self) {
        self.clone()
    }
}

impl CacheKey for u64 {
    fn key_eq(&self, other: &Self) -> (r: bool) {
        *self == *other
    }

    fn key_dup(&self) -> (r: Self) {
        *self
    }
}

impl CacheValue for String {
    fn dup(&self) -> (r: Self) {
        self.clone()
    }
}

impl CacheValue for u64 {
    fn dup(&self) -> (r: Self) {
        *self
    }
}

impl CacheValue for u32 {
    fn dup(&self) -> (r: Self) {
        *self
    }
}

impl<A: CacheValue> CacheValue for (A, u64) {
    fn dup(&self) -> (r: Self) {
        (self.0.dup(), self.1)
    }
}

} // verus!

verus! {

/// A sample value type carrying a small number.
#[derive(Debug, Clone)]
pub struct ThingOne(pub u8);

/// A sample value type carrying a string.
#[derive(Debug, Clone)]
pub struct ThingTwo(pub String);

impl CacheValue for ThingOne {
    fn dup(&self) -> (r: Self) {
        ThingOne(self.0)
    }
}

impl CacheValue for ThingTwo {
    fn dup(&self) -> (r: Self) {
        ThingTwo(self.0.clone())
    }
}

} // verus!
