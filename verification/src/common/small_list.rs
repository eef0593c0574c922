//! Short lists of entries: a `smallvec::SmallVec`, which needs no memory of its own for a
//! few items.
use smallvec::SmallVec;

use vstd::prelude::*;

verus! {

/// A list that holds a `SmallVec`.
#[verifier::external_body]
pub struct SmallList {
    items: SmallVec<[usize; 8]>,
}

/// The items of a list, in their order.
pub uninterp spec fn small_items(v: SmallList) -> Seq<usize>;

impl SmallList {
    pub open spec fn view(&self) -> Seq<usize> {
        small_items(*self)
    }

    /// `SmallVec::new` makes an empty list.
    #[verifier::external_body]
    pub(crate) fn new() -> (r: Self)
        ensures
            small_items(r) == Seq::<usize>::empty(),
    {
        SmallList { items: SmallVec::new() }
    }

    /// `SmallVec::push` adds an item behind the last.
    #[verifier::external_body]
    pub(crate) fn push(&mut self, item: usize)
        ensures
            small_items(*final(self)) == small_items(*old(self)).push(item),
    {
        self.items.push(item)
    }

    /// `SmallVec::len` tells how many items there are.
    #[verifier::external_body]
    pub(crate) fn len(&self) -> (r: usize)
        ensures
            r == small_items(*self).len(),
    {
        self.items.len()
    }

    /// A `SmallVec` gives the item at an index.
    #[verifier::external_body]
    pub(crate) fn at(&self, i: usize) -> (r: usize)
        requires
            i < small_items(*self).len(),
        ensures
            r == small_items(*self)[i as int],
    {
        self.items[i]
    }
}

} // verus!
