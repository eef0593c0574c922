//! A key and its value, as an iterator hands them out.
use vstd::prelude::*;

verus! {

/// A key and its value.
pub struct EntryRef<'a, V> {
    key: u64,
    value: &'a V,
}

impl<'a, V> EntryRef<'a, V> {
    pub closed spec fn view(&self) -> (u64, V) {
        (self.key, *self.value)
    }

    pub fn new(key: u64, value: &'a V) -> (r: Self)
        ensures
            r@ == (key, *value),
    {
        EntryRef { key, value }
    }

    pub fn key(&self) -> (r: &u64)
        ensures
            *r == self@.0,
    {
        &self.key
    }

    pub fn value(&self) -> (r: &'a V)
        ensures
            *r == self@.1,
    {
        self.value
    }

    pub fn pair(&self) -> (r: (&u64, &'a V))
        ensures
            *r.0 == self@.0,
            *r.1 == self@.1,
    {
        (self.key(), self.value())
    }
}

} // verus!
