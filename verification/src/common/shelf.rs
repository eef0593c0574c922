//! The nodes of a list, in memory in the order of the list.
//!
//! A node is addressed by a number, which stays the same when the node is put behind the others.
//! What is on a shelf when it goes is dropped in the order in which it stands there.
use vstd::prelude::*;

use crate::common::deque::{moved_to_back, DeqNode};

verus! {

/// The place of a number that addresses no node.
const NOWHERE: usize = usize::MAX;

/// A node, and the number that addresses it.
struct Item<T> {
    number: usize,
    node: DeqNode<T>,
}

/// Nodes, each addressed by a number.
pub struct Shelf<T> {
    /// The nodes in their order, each with its number, and gaps between them.
    items: Vec<Option<Item<T>>>,
    /// Where the node of each number stands.
    places: Vec<usize>,
    /// How many nodes there are.
    len: usize,
    /// The numbers of the nodes in their order.
    order: Ghost<Seq<usize>>,
}

impl<T> Shelf<T> {
    /// The node that each number addresses.
    pub closed spec fn view(&self) -> Seq<Option<DeqNode<T>>> {
        Seq::new(self.places@.len(), |h: int| self.node_at(h))
    }

    spec fn node_at(&self, h: int) -> Option<DeqNode<T>> {
        if self.places@[h] == NOWHERE {
            None
        } else {
            Some(self.items@[self.places@[h] as int]->0.node)
        }
    }

    /// The numbers of the nodes, in the order in which they stand in memory.
    pub closed spec fn order(&self) -> Seq<usize> {
        self.order@
    }

    spec fn held_at(&self, i: int) -> bool {
        let h = self.order@[i];
        &&& h < self.places@.len()
        &&& self.places@[h as int] != NOWHERE
        &&& self.places@[h as int] < self.items@.len()
        &&& self.items@[self.places@[h as int] as int] is Some
        &&& self.items@[self.places@[h as int] as int]->0.number == h
    }

    spec fn is_held(&self, h: usize) -> bool {
        exists|i: int| 0 <= i < self.order@.len() && #[trigger] self.order@[i] == h
    }

    spec fn place(&self, i: int) -> int {
        self.places@[self.order@[i] as int] as int
    }

    /// The nodes stand in their order, and nothing else is there.
    pub closed spec fn wf(&self) -> bool {
        &&& self.len == self.order@.len()
        &&& forall|i: int| 0 <= i < self.order@.len() ==> #[trigger] self.held_at(i)
        &&& forall|i: int, j: int|
            0 <= i < j < self.order@.len() ==> #[trigger] self.place(i) < #[trigger] self.place(j)
        &&& forall|p: int|
            0 <= p < self.items@.len() && (#[trigger] self.items@[p]) is Some ==> self.is_held(
                self.items@[p]->0.number,
            ) && self.items@[p]->0.number < self.places@.len()
                && self.places@[self.items@[p]->0.number as int] == p
        &&& forall|h: usize|
            h < self.places@.len() && (#[trigger] self.places@[h as int]) != NOWHERE ==> self.is_held(h)
    }

    pub fn new() -> (r: Self)
        ensures
            r.wf(),
            r@ == Seq::<Option<DeqNode<T>>>::empty(),
            r.order() == Seq::<usize>::empty(),
    {
        let r = Shelf { items: Vec::new(), places: Vec::new(), len: 0, order: Ghost(Seq::empty()) };
        assert(r@ =~= Seq::<Option<DeqNode<T>>>::empty());
        r
    }

    /// How many numbers were ever given out.
    pub fn len(&self) -> (r: usize)
        ensures
            r == self@.len(),
    {
        self.places.len()
    }

    /// A number addresses a node exactly if it is one of those in the order, which has each once.
    pub proof fn lemma_wf(&self)
        requires
            self.wf(),
        ensures
            self.order().no_duplicates(),
            self@.len() <= usize::MAX,
            forall|h: usize|
                h < self@.len() ==> (self.order().contains(h) <==> (#[trigger] self@[h as int]) is Some),
            forall|h: usize| #[trigger] self.order().contains(h) ==> h < self@.len(),
    {
        assert forall|i: int, j: int|
            0 <= i < self.order@.len() && 0 <= j < self.order@.len() && i != j implies self.order@[i]
            != self.order@[j] by {
            if i < j {
                assert(self.place(i) < self.place(j));
            } else {
                assert(self.place(j) < self.place(i));
            }
        }
        assert(self.places.len() == self.places@.len());
        assert forall|h: usize| h < self@.len() implies (self.order().contains(h) <==> (
        #[trigger] self@[h as int]) is Some) by {
            if self.order().contains(h) {
                let i = choose|i: int| 0 <= i < self.order@.len() && self.order@[i] == h;
                assert(self.held_at(i));
            }
            if self@[h as int] is Some {
                assert(self.places@[h as int] != NOWHERE);
                assert(self.is_held(h));
            }
        }
        assert forall|h: usize| #[trigger] self.order().contains(h) implies h < self@.len() by {
            let i = choose|i: int| 0 <= i < self.order@.len() && self.order@[i] == h;
            assert(self.held_at(i));
        }
    }

    /// The position of a number in the order.
    pub proof fn lemma_index(&self, i: int)
        requires
            self.wf(),
            0 <= i < self.order().len(),
        ensures
            self.order().index_of(self.order()[i]) == i,
    {
        self.lemma_wf();
        let h = self.order@[i];
        assert(self.order@[self.order@.index_of(h)] == h);
    }

    proof fn lemma_place(&self, h: usize) -> (i: int)
        requires
            self.wf(),
            h < self@.len(),
            self@[h as int] is Some,
        ensures
            0 <= i < self.order@.len(),
            self.order@[i] == h,
            self.held_at(i),
            i == self.order@.index_of(h),
            self.order@.contains(h),
    {
        self.lemma_wf();
        assert(self.order().contains(h));
        let i = self.order@.index_of(h);
        assert(self.order@[i] == h);
        assert(self.held_at(i));
        i
    }

    pub fn is_some(&self, h: usize) -> (r: bool)
        requires
            self.wf(),
            h < self@.len(),
        ensures
            r == (self@[h as int] is Some),
    {
        proof {
            self.lemma_wf();
            if self.places@[h as int] != NOWHERE {
                assert(self.is_held(h));
                assert(self.order().contains(h));
            }
        }
        self.places[h] != NOWHERE
    }

    /// The node of a number.
    pub fn get(&self, h: usize) -> (r: &DeqNode<T>)
        requires
            self.wf(),
            h < self@.len(),
            self@[h as int] is Some,
        ensures
            *r == self@[h as int]->0,
    {
        proof {
            let i = self.lemma_place(h);
        }
        &self.items[self.places[h]].as_ref().unwrap().node
    }

    pub fn set_next(&mut self, h: usize, next: Option<usize>)
        requires
            old(self).wf(),
            h < old(self)@.len(),
            old(self)@[h as int] is Some,
        ensures
            final(self).wf(),
            final(self).order() == old(self).order(),
            final(self)@ == old(self)@.update(
                h as int,
                Some(DeqNode { next, ..old(self)@[h as int]->0 }),
            ),
    {
        proof {
            let i = self.lemma_place(h);
        }
        match &mut self.items[self.places[h]] {
            Some(item) => {
                item.node.next = next;
            },
            None => {},
        }
        proof {
            self.lemma_changed(old(self), h);
        }
    }

    pub fn set_prev(&mut self, h: usize, prev: Option<usize>)
        requires
            old(self).wf(),
            h < old(self)@.len(),
            old(self)@[h as int] is Some,
        ensures
            final(self).wf(),
            final(self).order() == old(self).order(),
            final(self)@ == old(self)@.update(
                h as int,
                Some(DeqNode { prev, ..old(self)@[h as int]->0 }),
            ),
    {
        proof {
            let i = self.lemma_place(h);
        }
        match &mut self.items[self.places[h]] {
            Some(item) => {
                item.node.prev = prev;
            },
            None => {},
        }
        proof {
            self.lemma_changed(old(self), h);
        }
    }

    /// The node of one number was changed where it stands.
    proof fn lemma_changed(&self, before: &Self, h: usize)
        requires
            before.wf(),
            h < before@.len(),
            before@[h as int] is Some,
            self.places@ == before.places@,
            self.len == before.len,
            self.order@ == before.order@,
            self.items@.len() == before.items@.len(),
            self.items@[before.places@[h as int] as int] is Some,
            self.items@ == before.items@.update(
                before.places@[h as int] as int,
                Some(
                    Item { number: h, node: self.items@[before.places@[h as int] as int]->0.node },
                ),
            ),
        ensures
            self.wf(),
            self@ == before@.update(
                h as int,
                Some(self.items@[before.places@[h as int] as int]->0.node),
            ),
    {
        let at = before.lemma_place(h);
        let p0 = before.places@[h as int] as int;
        assert forall|i: int| 0 <= i < self.order@.len() implies #[trigger] self.held_at(i) by {
            assert(before.held_at(i));
        }
        assert forall|i: int, j: int| 0 <= i < j < self.order@.len() implies #[trigger] self.place(i)
            < #[trigger] self.place(j) by {
            assert(before.place(i) < before.place(j));
        }
        assert forall|p: int| 0 <= p < self.items@.len() && (#[trigger] self.items@[p]) is Some implies self.is_held(
            self.items@[p]->0.number,
        ) && self.items@[p]->0.number < self.places@.len() && self.places@[self.items@[p]->0.number as int] == p by {
            assert(before.items@[p] is Some);
            assert(before.is_held(before.items@[p]->0.number));
            let i = choose|i: int| 0 <= i < before.order@.len() && #[trigger] before.order@[i] == before.items@[p]->0.number;
            assert(self.order@[i] == self.items@[p]->0.number);
        }
        assert forall|x: usize| x < self.places@.len() && (#[trigger] self.places@[x as int]) != NOWHERE implies self.is_held(
            x,
        ) by {
            assert(before.places@[x as int] != NOWHERE);
            assert(before.is_held(x));
            let i = choose|i: int| 0 <= i < before.order@.len() && #[trigger] before.order@[i] == x;
            assert(self.order@[i] == x);
        }
        assert(self.places.len() == self.places@.len());
        assert forall|x: int| 0 <= x < self.places@.len() && x != h implies self.node_at(x) == before.node_at(x) by {
            let y = x as usize;
            if before.places@[y as int] != NOWHERE {
                assert(before.is_held(y));
                let i = choose|i: int| 0 <= i < before.order@.len() && #[trigger] before.order@[i] == y;
                assert(before.held_at(i));
                assert(before.places@[y as int] != p0);
            }
        }
        assert(self@ =~= before@.update(
            h as int,
            Some(self.items@[p0]->0.node),
        ));
    }

    /// The nodes are no more than the places.
    proof fn lemma_place_bound(&self, i: int)
        requires
            self.wf(),
            0 <= i < self.order@.len(),
        ensures
            i <= self.place(i) < self.items@.len(),
        decreases i,
    {
        assert(self.held_at(i));
        if i > 0 {
            self.lemma_place_bound(i - 1);
            assert(self.place(i - 1) < self.place(i));
        }
    }

    /// Takes the node of a number away.
    pub fn take(&mut self, h: usize) -> (r: DeqNode<T>)
        requires
            old(self).wf(),
            h < old(self)@.len(),
            old(self)@[h as int] is Some,
        ensures
            final(self).wf(),
            r == old(self)@[h as int]->0,
            final(self).order() == old(self).order().remove(old(self).order().index_of(h)),
            final(self)@ == old(self)@.update(h as int, None),
    {
        let ghost at = self.lemma_place(h);
        let mut taken: Option<Item<T>> = None;
        let place: usize = self.places[h];
        std::mem::swap(&mut self.items[place], &mut taken);
        let taken = taken.unwrap();
        self.places.set(h, NOWHERE);
        self.len = self.len - 1;
        proof {
            let order0 = old(self).order@;
            self.order = Ghost(order0.remove(at));
            let order = self.order@;
            old(self).lemma_wf();
            assert forall|i: int| 0 <= i < order.len() implies #[trigger] self.held_at(i) && order[i]
                == order0[if i < at { i } else { i + 1 }] by {
                let j = if i < at { i } else { i + 1 };
                assert(old(self).held_at(j));
                assert(order[i] == order0[j]);
                assert(order0[j] != order0[at]);
                assert(old(self).place(j) != old(self).place(at)) by {
                    if j < at {
                        assert(old(self).place(j) < old(self).place(at));
                    } else {
                        assert(old(self).place(at) < old(self).place(j));
                    }
                }
            }
            assert forall|i: int, j: int| 0 <= i < j < order.len() implies #[trigger] self.place(i)
                < #[trigger] self.place(j) by {
                let i0 = if i < at { i } else { i + 1 };
                let j0 = if j < at { j } else { j + 1 };
                assert(self.held_at(i) && self.held_at(j));
                assert(order0[i0] != order0[at] && order0[j0] != order0[at]);
                assert(old(self).place(i0) < old(self).place(j0));
            }
            assert forall|x: usize| x != h && old(self).is_held(x) implies #[trigger] self.is_held(x) by {
                let j = choose|j: int| 0 <= j < order0.len() && #[trigger] order0[j] == x;
                let i = if j < at { j } else { j - 1 };
                assert(order[i] == x);
            }
            assert forall|p: int| 0 <= p < self.items@.len() && (#[trigger] self.items@[p]) is Some implies self.is_held(
                self.items@[p]->0.number,
            ) && self.items@[p]->0.number < self.places@.len() && self.places@[self.items@[p]->0.number as int]
                == p by {
                assert(old(self).items@[p] is Some);
                assert(old(self).is_held(self.items@[p]->0.number));
            }
            assert forall|x: usize|
                x < self.places@.len() && (#[trigger] self.places@[x as int]) != NOWHERE implies self.is_held(x) by {
                assert(old(self).places@[x as int] != NOWHERE);
                assert(old(self).is_held(x));
            }
            self.lemma_same_nodes(old(self), h);
            assert(self@ =~= old(self)@.update(h as int, None));
        }
        taken.node
    }

    /// Only the item at one place changed: the other numbers address what they did.
    proof fn lemma_same_nodes(&self, before: &Self, h: usize)
        requires
            before.wf(),
            h < before.places@.len(),
            self.places@.len() == before.places@.len(),
            forall|x: int| 0 <= x < before.places@.len() && x != h ==> #[trigger] self.places@[x] == before.places@[x],
            self.items@.len() >= before.items@.len(),
            forall|p: int|
                0 <= p < before.items@.len() && p != before.places@[h as int] ==> #[trigger] self.items@[p]
                    == before.items@[p],
        ensures
            forall|x: int| 0 <= x < before.places@.len() && x != h ==> #[trigger] self@[x] == before@[x],
    {
        assert(before.places.len() == before.places@.len());
        assert forall|x: int| 0 <= x < before.places@.len() && x != h implies #[trigger] self@[x] == before@[x] by {
            let y = x as usize;
            if before.places@[y as int] != NOWHERE {
                assert(before.is_held(y));
                let i = choose|i: int| 0 <= i < before.order@.len() && #[trigger] before.order@[i] == y;
                assert(before.held_at(i));
                if before.places@[y as int] == before.places@[h as int] {
                    assert(before.places@[h as int] != NOWHERE);
                    assert(before.is_held(h));
                    let j = choose|j: int| 0 <= j < before.order@.len() && #[trigger] before.order@[j] == h;
                    assert(before.held_at(j));
                }
            }
        }
    }

    /// Puts a node behind the others, under a number that addresses none.
    fn append(&mut self, h: usize, node: DeqNode<T>)
        requires
            old(self).wf(),
            h < old(self)@.len(),
            old(self)@[h as int] is None,
        ensures
            final(self).wf(),
            final(self).order() == old(self).order().push(h),
            final(self)@ == old(self)@.update(h as int, Some(node)),
    {
        let place: usize = self.items.len();
        proof {
            if self.order@.len() > 0 {
                self.lemma_place_bound(self.order@.len() - 1);
            }
        }
        self.items.push(Some(Item { number: h, node }));
        assert(self.items.len() == self.items@.len());
        self.places.set(h, place);
        self.len = self.len + 1;
        proof {
            let order0 = old(self).order@;
            let n = order0.len() as int;
            self.order = Ghost(order0.push(h));
            let order = self.order@;
            assert(order[n] == h);
            assert forall|i: int| 0 <= i < n implies order0[i] != h by {
                assert(old(self).held_at(i));
            }
            assert forall|i: int| 0 <= i < order.len() implies #[trigger] self.held_at(i) by {
                if i < n {
                    assert(old(self).held_at(i));
                    assert(order[i] == order0[i]);
                }
            }
            assert forall|i: int, j: int| 0 <= i < j < order.len() implies #[trigger] self.place(i)
                < #[trigger] self.place(j) by {
                assert(order[i] == order0[i] && order0[i] != h);
                old(self).lemma_place_bound(i);
                assert(self.place(i) == old(self).place(i)) by {
                    assert(old(self).held_at(i));
                }
                if j < n {
                    assert(order[j] == order0[j] && order0[j] != h);
                    assert(self.place(j) == old(self).place(j)) by {
                        assert(old(self).held_at(j));
                    }
                    assert(old(self).place(i) < old(self).place(j));
                }
            }
            assert forall|x: usize| old(self).is_held(x) implies #[trigger] self.is_held(x) by {
                let j = choose|j: int| 0 <= j < order0.len() && #[trigger] order0[j] == x;
                assert(order[j] == x);
            }
            assert(self.is_held(h));
            assert forall|p: int| 0 <= p < self.items@.len() && (#[trigger] self.items@[p]) is Some implies self.is_held(
                self.items@[p]->0.number,
            ) && self.items@[p]->0.number < self.places@.len() && self.places@[self.items@[p]->0.number as int]
                == p by {
                if p < place {
                    assert(old(self).items@[p] is Some);
                    assert(old(self).is_held(self.items@[p]->0.number));
                }
            }
            assert forall|x: usize|
                x < self.places@.len() && (#[trigger] self.places@[x as int]) != NOWHERE implies self.is_held(x) by {
                if x != h {
                    assert(old(self).places@[x as int] != NOWHERE);
                    assert(old(self).is_held(x));
                }
            }
            self.lemma_same_nodes(old(self), h);
            assert(self@ =~= old(self)@.update(h as int, Some(node)));
        }
    }

    /// Closes the gaps between the nodes.
    fn tidy(&mut self)
        requires
            old(self).wf(),
        ensures
            final(self).wf(),
            final(self).order() == old(self).order(),
            final(self)@ == old(self)@,
    {
        let ghost before = *self;
        let ghost order = self.order@;
        let mut items: Vec<Option<Item<T>>> = Vec::new();
        std::mem::swap(&mut items, &mut self.items);
        let mut i: usize = 0;
        proof {
            before.lemma_wf();
        }
        while i < items.len()
            invariant
                before.wf(),
                order == before.order@,
                order.no_duplicates(),
                i <= items.len(),
                items@.len() == before.items@.len(),
                self.len == before.len,
                self.order@ == order,
                self.places@.len() == before.places@.len(),
                self.items@.len() <= i,
                self.items@.len() <= order.len(),
                forall|p: int| i <= p < items@.len() ==> #[trigger] items@[p] == before.items@[p],
                forall|j: int| 0 <= j < self.items@.len() ==> before.place(j) < i,
                forall|j: int| self.items@.len() <= j < order.len() ==> #[trigger] before.place(j) >= i,
                forall|j: int|
                    #![trigger self.items@[j]]
                    #![trigger before.place(j)]
                    0 <= j < self.items@.len() ==> self.items@[j] == before.items@[before.place(j)]
                        && self.places@[order[j] as int] == j,
                forall|x: int|
                    0 <= x < before.places@.len() && (forall|j: int|
                        0 <= j < self.items@.len() ==> order[j] != x) ==> #[trigger] self.places@[x]
                        == before.places@[x],
            decreases items.len() - i,
        {
            let mut taken: Option<Item<T>> = None;
            std::mem::swap(&mut items[i], &mut taken);
            let ghost kept = self.items@;
            let ghost places = self.places@;
            let ghost c = kept.len() as int;
            match taken {
                Some(item) => {
                    let number: usize = item.number;
                    let place: usize = self.items.len();
                    proof {
                        assert(before.items@[i as int] == Some(item));
                        assert(before.is_held(number));
                        let j = choose|j: int| 0 <= j < order.len() && #[trigger] order[j] == number;
                        assert(before.held_at(j));
                        assert(before.place(j) == i);
                        if c < j {
                            assert(before.place(c) < before.place(j));
                        }
                        assert(j == c);
                    }
                    self.places.set(number, place);
                    self.items.push(Some(item));
                    proof {
                        assert forall|j: int|
                            #![trigger self.items@[j]]
                            #![trigger before.place(j)]
                            0 <= j < self.items@.len() implies self.items@[j] == before.items@[before.place(j)]
                            && self.places@[order[j] as int] == j by {
                            assert(before.held_at(j));
                            if j < c {
                                assert(self.items@[j] == kept[j]);
                                assert(order[j] != order[c]);
                            }
                        }
                        assert forall|j: int| self.items@.len() <= j < order.len() implies #[trigger] before.place(j)
                            >= i + 1 by {
                            assert(before.place(c) < before.place(j));
                        }
                        assert forall|x: int|
                            0 <= x < before.places@.len() && (forall|j: int|
                                0 <= j < self.items@.len() ==> order[j] != x) implies #[trigger] self.places@[x]
                            == before.places@[x] by {
                            assert(order[c] != x);
                            assert forall|j: int| 0 <= j < c implies order[j] != x by {
                                assert(0 <= j < self.items@.len());
                            }
                            assert(places[x] == before.places@[x]);
                        }
                    }
                },
                None => {
                    proof {
                        assert forall|j: int| c <= j < order.len() implies #[trigger] before.place(j) >= i + 1 by {
                            assert(before.held_at(j));
                            assert(before.items@[before.place(j)] is Some);
                        }
                    }
                },
            }
            i = i + 1;
        }
        proof {
            let c = self.items@.len() as int;
            if c < order.len() {
                before.lemma_place_bound(c);
            }
            assert(c == order.len());
            assert forall|j: int| 0 <= j < order.len() implies #[trigger] self.held_at(j) && self.place(j) == j by {
                assert(before.held_at(j));
                assert(self.items@[j] == before.items@[before.place(j)]);
                assert(self.items.len() == self.items@.len());
            }
            assert forall|a: int, b: int| 0 <= a < b < order.len() implies #[trigger] self.place(a)
                < #[trigger] self.place(b) by {
                assert(self.held_at(a) && self.held_at(b));
            }
            assert forall|p: int| 0 <= p < self.items@.len() && (#[trigger] self.items@[p]) is Some implies self.is_held(
                self.items@[p]->0.number,
            ) && self.items@[p]->0.number < self.places@.len() && self.places@[self.items@[p]->0.number as int]
                == p by {
                assert(self.held_at(p));
                assert(self.order@[p] == self.items@[p]->0.number);
            }
            assert forall|x: usize| before.is_held(x) implies #[trigger] self.is_held(x) by {
                let j = choose|j: int| 0 <= j < order.len() && #[trigger] order[j] == x;
                assert(self.order@[j] == x);
            }
            assert(before.places.len() == before.places@.len());
            assert forall|x: usize| x < self.places@.len() && !before.is_held(x) implies self.places@[x as int]
                == before.places@[x as int] by {
                assert forall|j: int| 0 <= j < self.items@.len() implies order[j] != x as int by {
                    if order[j] == x {
                        assert(before.is_held(x));
                    }
                }
            }
            assert forall|x: usize|
                x < self.places@.len() && (#[trigger] self.places@[x as int]) != NOWHERE implies self.is_held(x) by {
                if !before.is_held(x) {
                    assert(before.places@[x as int] != NOWHERE);
                }
            }
            assert forall|x: int| 0 <= x < self@.len() implies self@[x] == before@[x] by {
                let y = x as usize;
                if before.is_held(y) {
                    let j = choose|j: int| 0 <= j < order.len() && #[trigger] order[j] == y;
                    assert(before.held_at(j));
                    assert(self.held_at(j));
                    assert(self.items@[j] == before.items@[before.place(j)]);
                } else {
                    assert(self.places@[y as int] == before.places@[y as int]);
                    assert(before.places@[y as int] == NOWHERE);
                }
            }
            assert(self@ =~= before@);
        }
    }

    /// Closes the gaps where there are many.
    fn tidy_if_needed(&mut self)
        requires
            old(self).wf(),
        ensures
            final(self).wf(),
            final(self).order() == old(self).order(),
            final(self)@ == old(self)@,
    {
        if self.items.len() >= 64 && self.items.len() / 2 > self.len {
            self.tidy();
        }
    }

    /// Puts a node behind the others, and returns the new number that addresses it.
    pub fn push(&mut self, node: DeqNode<T>) -> (r: usize)
        requires
            old(self).wf(),
        ensures
            final(self).wf(),
            r == old(self)@.len(),
            final(self).order() == old(self).order().push(r),
            final(self)@ == old(self)@.push(Some(node)),
    {
        let h: usize = self.places.len();
        self.places.push(NOWHERE);
        proof {
            assert forall|i: int| 0 <= i < self.order@.len() implies #[trigger] self.held_at(i) by {
                assert(old(self).held_at(i));
            }
            assert forall|i: int, j: int| 0 <= i < j < self.order@.len() implies #[trigger] self.place(i)
                < #[trigger] self.place(j) by {
                assert(old(self).held_at(i) && old(self).held_at(j));
                assert(old(self).place(i) < old(self).place(j));
            }
            assert forall|x: usize| old(self).is_held(x) implies #[trigger] self.is_held(x) by {
                let j = choose|j: int| 0 <= j < old(self).order@.len() && #[trigger] old(self).order@[j] == x;
                assert(self.order@[j] == x);
            }
            assert forall|p: int| 0 <= p < self.items@.len() && (#[trigger] self.items@[p]) is Some implies self.is_held(
                self.items@[p]->0.number,
            ) && self.items@[p]->0.number < self.places@.len() && self.places@[self.items@[p]->0.number as int]
                == p by {
                assert(old(self).items@[p] is Some);
                assert(old(self).is_held(self.items@[p]->0.number));
            }
            assert forall|x: usize|
                x < self.places@.len() && (#[trigger] self.places@[x as int]) != NOWHERE implies self.is_held(x) by {
                assert(old(self).places@[x as int] != NOWHERE);
                assert(old(self).is_held(x));
            }
            assert(self@ =~= old(self)@.push(None));
        }
        self.append(h, node);
        self.tidy_if_needed();
        assert(self@ =~= old(self)@.push(Some(node)));
        h
    }

    /// Puts a node behind the others, under a number that addresses none.
    pub fn put_back(&mut self, h: usize, node: DeqNode<T>)
        requires
            old(self).wf(),
            h < old(self)@.len(),
            old(self)@[h as int] is None,
        ensures
            final(self).wf(),
            final(self).order() == old(self).order().push(h),
            final(self)@ == old(self)@.update(h as int, Some(node)),
    {
        self.append(h, node);
        self.tidy_if_needed();
    }

    /// Puts the node of a number behind the others.
    pub fn move_to_back(&mut self, h: usize)
        requires
            old(self).wf(),
            h < old(self)@.len(),
            old(self)@[h as int] is Some,
        ensures
            final(self).wf(),
            final(self).order() == moved_to_back(old(self).order(), old(self).order().index_of(h)),
            final(self)@ == old(self)@,
    {
        proof {
            let at = self.lemma_place(h);
        }
        let node = self.take(h);
        self.append(h, node);
        self.tidy_if_needed();
        assert(self@ =~= old(self)@);
    }

    /// The elements of the nodes, in the order in which they stand in memory.
    pub closed spec fn in_memory(&self) -> Seq<T> {
        present(self.items@)
    }

    /// They stand in their order.
    pub proof fn lemma_in_memory(&self)
        requires
            self.wf(),
        ensures
            self.in_memory() == Seq::new(
                self.order().len(),
                |i: int| self@[self.order()[i] as int]->0.element,
            ),
    {
        let all = Seq::new(self.order@.len(), |i: int| self@[self.order@[i] as int]->0.element);
        let c = self.lemma_present(self.items@.len() as int);
        if c < self.order@.len() {
            self.lemma_place_bound(c);
        }
        assert(self.items@.take(self.items@.len() as int) =~= self.items@);
        assert(all.take(c) =~= all);
    }

    /// The first `n` places hold the first nodes.
    proof fn lemma_present(&self, n: int) -> (c: int)
        requires
            self.wf(),
            0 <= n <= self.items@.len(),
        ensures
            0 <= c <= self.order@.len(),
            present(self.items@.take(n)) == Seq::new(
                self.order@.len(),
                |i: int| self@[self.order@[i] as int]->0.element,
            ).take(c),
            forall|j: int| 0 <= j < c ==> #[trigger] self.place(j) < n,
            forall|j: int| c <= j < self.order@.len() ==> #[trigger] self.place(j) >= n,
        decreases n,
    {
        let all = Seq::new(self.order@.len(), |i: int| self@[self.order@[i] as int]->0.element);
        let part = self.items@.take(n);
        if n == 0 {
            assert(all.take(0) =~= Seq::<T>::empty());
            0
        } else {
            let c = self.lemma_present(n - 1);
            assert(part.drop_last() =~= self.items@.take(n - 1));
            match self.items@[n - 1] {
                Some(item) => {
                    assert(self.is_held(item.number));
                    let j = choose|j: int|
                        0 <= j < self.order@.len() && #[trigger] self.order@[j] == item.number;
                    assert(self.held_at(j));
                    assert(self.place(j) == n - 1);
                    if c < j {
                        assert(self.place(c) < self.place(j));
                    }
                    assert(j == c);
                    assert(all.take(c + 1) =~= all.take(c).push(item.node.element));
                    assert forall|k: int| c + 1 <= k < self.order@.len() implies #[trigger] self.place(k) >= n by {
                        assert(self.place(c) < self.place(k));
                    }
                    c + 1
                },
                None => {
                    assert forall|k: int| c <= k < self.order@.len() implies #[trigger] self.place(k) >= n by {
                        assert(self.held_at(k));
                    }
                    c
                },
            }
        }
    }
}

/// The elements of those that are not gaps.
spec fn present<T>(items: Seq<Option<Item<T>>>) -> Seq<T>
    decreases items.len(),
{
    if items.len() == 0 {
        Seq::empty()
    } else {
        match items.last() {
            Some(item) => present(items.drop_last()).push(item.node.element),
            None => present(items.drop_last()),
        }
    }
}

} // verus!
