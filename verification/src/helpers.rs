//! Helper structures for the shared declarations of a model.
use std::sync::Arc;

use vstd::prelude::*;

use crate::model::same_allocation;

verus! {

/// Marker of the representation of shared declarations as `Arc<T>`: the one
/// that reading a model produces.
#[derive(Clone, Copy, PartialEq, Eq, Debug)]
pub struct Immutable;

/// Marker that names an interior-mutable representation of shared
/// declarations. The library builds and reads models only in the
/// `Immutable` representation; this marker carries no representation of its
/// own.
#[derive(Clone, Copy, PartialEq, Eq, Debug)]
pub struct Mutable;

/// A key for collections that identifies an `Arc` by its allocation: two keys
/// are equal when they point to the same allocation, and keys of equal values
/// in different allocations differ.
#[derive(Debug, Clone)]
pub struct ArcKey<T> {
    /// The underlying shared value.
    key: Arc<T>,
}

impl<T> View for ArcKey<T> {
    type V = T;

    closed spec fn view(&self) -> T {
        *self.key
    }
}

impl<T> ArcKey<T> {
    /// Creates a new key from the given `Arc`.
    pub fn new(key: Arc<T>) -> (r: Self)
        ensures
            r@ == *key,
    {
        ArcKey { key }
    }

    /// The value that the key points to.
    pub fn get(&self) -> (r: &T)
        ensures
            *r == self@,
    {
        &self.key
    }

    /// The shared value, as an `Arc`.
    pub fn key(&self) -> (r: &Arc<T>)
        ensures
            **r == self@,
    {
        &self.key
    }

    /// Whether both keys point to the same allocation; if so, they point to
    /// the same value.
    pub fn same_key(&self, other: &Self) -> (r: bool)
        ensures
            r ==> self@ == other@,
    {
        same_allocation(&self.key, &other.key)
    }
}

impl<T> std::ops::Deref for ArcKey<T> {
    type Target = T;

    fn deref(&self) -> (r: &T)
        ensures
            *r == self@,
    {
        &self.key
    }
}

impl<T> From<ArcKey<T>> for Arc<T> {
    fn from(value: ArcKey<T>) -> (r: Arc<T>) {
        value.key
    }
}

impl<T> vstd::std_specs::convert::FromSpecImpl<ArcKey<T>> for Arc<T> {
    open spec fn obeys_from_spec() -> bool {
        true
    }

    closed spec fn from_spec(v: ArcKey<T>) -> Arc<T> {
        v.key
    }
}

impl<T> PartialEq for ArcKey<T> {
    fn eq(&self, other: &Self) -> (r: bool) {
        same_allocation(&self.key, &other.key)
    }
}

impl<T> vstd::std_specs::cmp::PartialEqSpecImpl for ArcKey<T> {
    /// Equality of keys compares allocations, which the model of a key (the
    /// value it points to) does not see; so nothing is claimed of `==`.
    open spec fn obeys_eq_spec() -> bool {
        false
    }

    open spec fn eq_spec(&self, other: &Self) -> bool {
        self@ == other@
    }
}

impl<T> Eq for ArcKey<T> {
}

/// `Hash::hash` of the address of the allocation that `a` points to.
#[verifier::external_body]
fn hash_allocation<T, H: std::hash::Hasher>(a: &Arc<T>, state: &mut H) {
    std::hash::Hash::hash(&Arc::as_ptr(a).addr(), state)
}

impl<T> std::hash::Hash for ArcKey<T> {
    fn hash<H: std::hash::Hasher>(&self, state: &mut H) {
        hash_allocation(&self.key, state)
    }
}

} // verus!
