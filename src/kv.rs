//! A key/value pair whose equality and order go by the key alone.
use vstd::prelude::*;

use crate::entries::Keyed;
use crate::key_order::{compare_keys, key_cmp};
use std::cmp::Ordering;

pub use crate::entries::{search_by_key, upsert_object_key};

verus! {

/// A member of a key-sorted sequence: a string key and a value of type `V`.
/// Two pairs are equal, and ordered, by their keys only.
#[derive(Debug, Clone)]
pub struct KeyValue<V>(String, V);

impl<V> KeyValue<V> {
    /// The pair's value.
    pub closed spec fn value_view(&self) -> V {
        self.1
    }

    /// Builds a pair from a key and a value.
    pub fn new(key: String, value: V) -> (r: KeyValue<V>)
        ensures
            r.key_view() == key@,
            r.value_view() == value,
    {
        KeyValue(key, value)
    }

    /// Moves the key out.
    pub fn key(self) -> (r: String)
        ensures
            r@ == self.key_view(),
    {
        self.0
    }

    /// Borrows the key.
    pub fn key_ref(&self) -> (r: &String)
        ensures
            r@ == self.key_view(),
    {
        &self.0
    }

    /// Moves the value out.
    pub fn value(self) -> (r: V)
        ensures
            r == self.value_view(),
    {
        self.1
    }

    /// Borrows the value.
    pub fn value_ref(&self) -> (r: &V)
        ensures
            *r == self.value_view(),
    {
        &self.1
    }

    /// Borrows the value mutably; the key stays as it is.
    pub fn value_mut(&mut self) -> (r: &mut V)
        ensures
            *r == old(self).value_view(),
            final(self).key_view() == old(self).key_view(),
            final(self).value_view() == *final(r),
    {
        &mut self.1
    }

    /// Replaces the value; the key stays as it is.
    pub fn set_value(&mut self, value: V)
        ensures
            final(self).key_view() == old(self).key_view(),
            final(self).value_view() == value,
    {
        self.1 = value;
    }
}

impl<V> Keyed for KeyValue<V> {
    closed spec fn key_view(&self) -> Seq<char> {
        self.0@
    }

    fn entry_key(&self) -> (r: &str) {
        self.0.as_str()
    }
}

impl<V> PartialEq for KeyValue<V> {
    /// Compares the keys only.
    fn eq(&self, other: &KeyValue<V>) -> (r: bool) {
        self.0 == other.0
    }
}

impl<V> vstd::std_specs::cmp::PartialEqSpecImpl for KeyValue<V> {
    open spec fn obeys_eq_spec() -> bool {
        true
    }

    open spec fn eq_spec(&self, other: &KeyValue<V>) -> bool {
        self.key_view() == other.key_view()
    }
}

impl<V> Eq for KeyValue<V> {

}

impl<V> PartialOrd for KeyValue<V> {
    /// Orders by the keys only; any two pairs are comparable.
    fn partial_cmp(&self, other: &KeyValue<V>) -> (r: Option<Ordering>) {
        Some(compare_keys(self.0.as_str(), other.0.as_str()))
    }
}

impl<V> vstd::std_specs::cmp::PartialOrdSpecImpl for KeyValue<V> {
    open spec fn obeys_partial_cmp_spec() -> bool {
        true
    }

    open spec fn partial_cmp_spec(&self, other: &KeyValue<V>) -> Option<Ordering> {
        Some(key_cmp(self.key_view(), other.key_view()))
    }
}

} // verus!
