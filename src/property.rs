//! A JSON object's property: a name and a value, equal and ordered by the name alone.
use vstd::prelude::*;

use crate::entries::Keyed;
use crate::key_order::{compare_keys, key_cmp};
use std::cmp::Ordering;
use vstd::string::to_string_from_display_ensures;

pub use crate::entries::{search_by_key, upsert_object_key};

verus! {

/// A single (key, value) pair of a JSON object, kept in a key-sorted sequence.
/// Two properties are equal, and ordered, by their keys only.
#[derive(Debug, Clone)]
pub struct Property<V>(String, V);

impl<V> Property<V> {
    /// The property's value.
    pub closed spec fn value_view(&self) -> V {
        self.1
    }

    /// Builds a property whose key is `key` rendered as a string.
    pub fn new<T: std::fmt::Display + ?Sized>(key: &T, value: V) -> (r: Property<V>)
        ensures
            exists|s: String| to_string_from_display_ensures::<T>(key, s) && r.key_view() == s@,
            r.value_view() == value,
    {
        let k = key.to_string();
        let r = Property(k, value);
        assert(to_string_from_display_ensures::<T>(key, r.0) && r.key_view() == r.0@);
        r
    }

    /// Moves the key out.
    pub fn key(self) -> (r: String)
        ensures
            r@ == self.key_view(),
    {
        self.0
    }

    /// Borrows the key.
    pub fn key_ref(&self) -> (r: &String)
        ensures
            r@ == self.key_view(),
    {
        &self.0
    }

    /// Moves the value out.
    pub fn value(self) -> (r: V)
        ensures
            r == self.value_view(),
    {
        self.1
    }

    /// Borrows the value.
    pub fn value_ref(&self) -> (r: &V)
        ensures
            *r == self.value_view(),
    {
        &self.1
    }

    /// Borrows the value mutably; the key stays as it is.
    pub fn value_mut(&mut self) -> (r: &mut V)
        ensures
            *r == old(self).value_view(),
            final(self).key_view() == old(self).key_view(),
            final(self).value_view() == *final(r),
    {
        &mut self.1
    }

    /// Replaces the value; the key stays as it is.
    pub fn set_value(&mut self, value: V)
        ensures
            final(self).key_view() == old(self).key_view(),
            final(self).value_view() == value,
    {
        self.1 = value;
    }
}

impl<V> Keyed for Property<V> {
    closed spec fn key_view(&self) -> Seq<char> {
        self.0@
    }

    fn entry_key(&self) -> (r: &str) {
        self.0.as_str()
    }
}

impl<V> PartialEq for Property<V> {
    /// Compares the keys only.
    fn eq(&self, other: &Property<V>) -> (r: bool) {
        self.0 == other.0
    }
}

impl<V> vstd::std_specs::cmp::PartialEqSpecImpl for Property<V> {
    open spec fn obeys_eq_spec() -> bool {
        true
    }

    open spec fn eq_spec(&self, other: &Property<V>) -> bool {
        self.key_view() == other.key_view()
    }
}

impl<V> Eq for Property<V> {

}

impl<V> PartialOrd for Property<V> {
    /// Orders by the keys only; any two properties are comparable.
    fn partial_cmp(&self, other: &Property<V>) -> (r: Option<Ordering>) {
        Some(compare_keys(self.0.as_str(), other.0.as_str()))
    }
}

impl<V> vstd::std_specs::cmp::PartialOrdSpecImpl for Property<V> {
    open spec fn obeys_partial_cmp_spec() -> bool {
        true
    }

    open spec fn partial_cmp_spec(&self, other: &Property<V>) -> Option<Ordering> {
        Some(key_cmp(self.key_view(), other.key_view()))
    }
}

} // verus!
