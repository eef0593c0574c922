//! A doubly linked list whose nodes live on one shelf.
//!
//! A node is addressed by its slot number, which stays the same for as long as the
//! node is a member of the list. Slot numbers of removed nodes are used again.
use vstd::prelude::*;
use vstd::set_lib::*;

use crate::common::shelf::Shelf;
use crate::common::CacheRegion;

verus! {

/// A node of a [`Deque`].
pub struct DeqNode<T> {
    pub region: CacheRegion,
    pub next: Option<usize>,
    pub prev: Option<usize>,
    pub element: T,
}

impl<T> DeqNode<T> {
    /// A node that is in no list.
    pub fn new(region: CacheRegion, element: T) -> (r: Self)
        ensures
            r.region == region,
            r.element == element,
            r.next is None,
            r.prev is None,
    {
        DeqNode { region, next: None, prev: None, element }
    }
}

/// A doubly linked list of nodes of one region.
///
/// The members stand in memory in their order, so a list that goes drops them from front to back.
pub struct Deque<T> {
    region: CacheRegion,
    len: usize,
    head: Option<usize>,
    tail: Option<usize>,
    slots: Shelf<T>,
    free: Vec<usize>,
    order: Ghost<Seq<usize>>,
}

/// The list of slot numbers without the one at `i`, and that one at the end.
pub open spec fn moved_to_back<A>(s: Seq<A>, i: int) -> Seq<A> {
    s.remove(i).push(s[i])
}

/// The position of `node` in a sequence of slot numbers and elements.
pub open spec fn position_of<T>(s: Seq<(usize, T)>, node: usize) -> int {
    choose|i: int| 0 <= i < s.len() && (#[trigger] s[i]).0 == node
}

/// Whether `node` is one of the slot numbers of `s`.
pub open spec fn has_node<T>(s: Seq<(usize, T)>, node: usize) -> bool {
    exists|i: int| 0 <= i < s.len() && (#[trigger] s[i]).0 == node
}

/// No slot number occurs twice.
pub open spec fn distinct_nodes<T>(s: Seq<(usize, T)>) -> bool {
    forall|i: int, j: int|
        0 <= i < s.len() && 0 <= j < s.len() && (#[trigger] s[i]).0 == (#[trigger] s[j]).0 ==> i == j
}

spec fn is_slot_of(order: Seq<usize>, s: int) -> bool {
    exists|i: int| 0 <= i < order.len() && (#[trigger] order[i]) as int == s
}

impl<T> Deque<T> {
    /// The members from front to back, each with the slot number that addresses it.
    pub closed spec fn view(&self) -> Seq<(usize, T)> {
        Seq::new(self.order@.len(), |i: int| (self.order@[i], self.slots@[self.order@[i] as int]->0.element))
    }

    /// The region that every node of the list belongs to.
    pub closed spec fn spec_region(&self) -> CacheRegion {
        self.region
    }

    spec fn linked_at(&self, i: int) -> bool {
        let s = self.order@[i];
        &&& s < self.slots@.len()
        &&& self.slots@[s as int] is Some
        &&& self.slots@[s as int]->0.region == self.region
        &&& self.slots@[s as int]->0.prev == if i == 0 {
            None::<usize>
        } else {
            Some(self.order@[i - 1])
        }
        &&& self.slots@[s as int]->0.next == if i == self.order@.len() - 1 {
            None::<usize>
        } else {
            Some(self.order@[i + 1])
        }
    }

    /// The links between the nodes agree with the order of the members.
    pub closed spec fn wf(&self) -> bool {
        let order = self.order@;
        &&& self.slots.wf()
        &&& self.slots.order() == order
        &&& self.len == order.len()
        &&& self.head == if order.len() == 0 {
            None::<usize>
        } else {
            Some(order[0])
        }
        &&& self.tail == if order.len() == 0 {
            None::<usize>
        } else {
            Some(order[order.len() - 1])
        }
        &&& forall|i: int| 0 <= i < order.len() ==> #[trigger] self.linked_at(i)
        &&& forall|i: int, j: int|
            0 <= i < order.len() && 0 <= j < order.len() && #[trigger] order[i] == #[trigger] order[j] ==> i == j
        &&& forall|s: int|
            0 <= s < self.slots@.len() && (#[trigger] self.slots@[s]) is Some ==> is_slot_of(order, s)
        &&& forall|i: int|
            0 <= i < self.free@.len() ==> (#[trigger] self.free@[i]) < self.slots@.len()
                && self.slots@[self.free@[i] as int] is None
        &&& forall|i: int, j: int|
            0 <= i < self.free@.len() && 0 <= j < self.free@.len() && #[trigger] self.free@[i]
                == #[trigger] self.free@[j] ==> i == j
    }

    /// An empty list.
    pub fn new(region: CacheRegion) -> (r: Self)
        ensures
            r.wf(),
            r@ == Seq::<(usize, T)>::empty(),
            r.spec_region() == region,
    {
        let r = Deque {
            region,
            len: 0,
            head: None,
            tail: None,
            slots: Shelf::new(),
            free: Vec::new(),
            order: Ghost(Seq::empty()),
        };
        assert(r@ =~= Seq::<(usize, T)>::empty());
        r
    }

    /// Facts that every well-formed list has.
    pub proof fn lemma_wf(&self)
        requires
            self.wf(),
        ensures
            distinct_nodes(self@),
            self@.len() <= usize::MAX,
    {
        assert forall|i: int, j: int|
            0 <= i < self@.len() && 0 <= j < self@.len() && (#[trigger] self@[i]).0 == (
            #[trigger] self@[j]).0 implies i == j by {
            assert(self.order@[i] == self.order@[j]);
        }
    }

    /// The elements of the members, in the order in which they stand in memory.
    pub closed spec fn in_memory(&self) -> Seq<T> {
        self.slots.in_memory()
    }

    /// The members stand in memory from front to back, whatever was moved or taken out: so they are
    /// dropped from front to back.
    pub proof fn members_stand_in_order(&self)
        requires
            self.wf(),
        ensures
            self.in_memory() == self@.map_values(|member: (usize, T)| member.1),
    {
        self.slots.lemma_in_memory();
        assert forall|i: int| 0 <= i < self.order@.len() implies self.slots@[self.order@[i] as int]->0.element
            == #[trigger] self@[i].1 by {
            assert(self.linked_at(i));
        }
        assert(self.in_memory() =~= self@.map_values(|member: (usize, T)| member.1));
    }

    proof fn lemma_member(&self, node: usize) -> (i: int)
        requires
            self.wf(),
            has_node(self@, node),
        ensures
            0 <= i < self.order@.len(),
            self.order@[i] == node,
            self@[i].0 == node,
            i == position_of(self@, node),
            self.linked_at(i),
    {
        let i = choose|i: int| 0 <= i < self@.len() && (#[trigger] self@[i]).0 == node;
        assert(self.order@[i] == node);
        assert(self.linked_at(i));
        i
    }

    /// Whether the node at `node` is a member.
    pub fn contains(&self, node: usize) -> (r: bool)
        requires
            self.wf(),
        ensures
            r == has_node(self@, node),
    {
        let r = node < self.slots.len() && self.slots.is_some(node);
        proof {
            if r {
                let i = choose|i: int| 0 <= i < self.order@.len() && self.order@[i] as int == node;
                assert(self@[i].0 == node);
            } else if has_node(self@, node) {
                let i = self.lemma_member(node);
            }
        }
        r
    }

    /// The number of members.
    pub fn len(&self) -> (r: usize)
        requires
            self.wf(),
        ensures
            r == self@.len(),
    {
        self.len
    }

    /// The slot number of the first member.
    pub fn peek_front_ptr(&self) -> (r: Option<usize>)
        requires
            self.wf(),
        ensures
            r == if self@.len() == 0 {
                None::<usize>
            } else {
                Some(self@[0].0)
            },
    {
        self.head
    }

    /// The node of a member.
    pub fn node(&self, node: usize) -> (r: &DeqNode<T>)
        requires
            self.wf(),
            has_node(self@, node),
        ensures
            r.region == self.spec_region(),
            r.element == self@[position_of(self@, node)].1,
            r.prev == if position_of(self@, node) == 0 {
                None::<usize>
            } else {
                Some(self@[position_of(self@, node) - 1].0)
            },
            r.next == if position_of(self@, node) == self@.len() - 1 {
                None::<usize>
            } else {
                Some(self@[position_of(self@, node) + 1].0)
            },
    {
        proof {
            let i = self.lemma_member(node);
        }
        self.slots.get(node)
    }

    /// The node of the first member.
    pub fn peek_front(&self) -> (r: Option<&DeqNode<T>>)
        requires
            self.wf(),
        ensures
            r is Some <==> self@.len() > 0,
            r is Some ==> r->0.element == self@[0].1 && r->0.region == self.spec_region()
                && r->0.prev is None && r->0.next == if self@.len() == 1 {
                None::<usize>
            } else {
                Some(self@[1].0)
            },
    {
        match self.head {
            None => None,
            Some(head) => {
                proof {
                    assert(self@[0].0 == head);
                    self.lemma_wf();
                }
                Some(self.node(head))
            },
        }
    }

    /// The node of the last member.
    pub fn peek_back(&self) -> (r: Option<&DeqNode<T>>)
        requires
            self.wf(),
        ensures
            r is Some <==> self@.len() > 0,
            r is Some ==> r->0.element == self@.last().1 && r->0.region == self.spec_region()
                && r->0.next is None && r->0.prev == if self@.len() == 1 {
                None::<usize>
            } else {
                Some(self@[self@.len() - 2].0)
            },
    {
        match self.tail {
            None => None,
            Some(tail) => {
                proof {
                    assert(self@[self@.len() - 1].0 == tail);
                    self.lemma_wf();
                }
                Some(self.node(tail))
            },
        }
    }

    /// Whether `node` addresses the first member.
    pub fn is_head(&self, node: usize) -> (r: bool)
        requires
            self.wf(),
        ensures
            r == (self@.len() > 0 && self@[0].0 == node),
    {
        match self.head {
            Some(head) => head == node,
            None => false,
        }
    }

    /// Whether `node` addresses the last member.
    pub fn is_tail(&self, node: usize) -> (r: bool)
        requires
            self.wf(),
        ensures
            r == (self@.len() > 0 && self@.last().0 == node),
    {
        match self.tail {
            Some(tail) => tail == node,
            None => false,
        }
    }

    /// Adds a node behind the last member and returns the slot number that addresses it.
    pub fn push_back(&mut self, node: DeqNode<T>) -> (r: usize)
        requires
            old(self).wf(),
            node.region == old(self).spec_region(),
        ensures
            final(self).wf(),
            final(self).spec_region() == old(self).spec_region(),
            !has_node(old(self)@, r),
            final(self)@ == old(self)@.push((r, node.element)),
    {
        let ghost n = self.order@.len();
        let ghost order0 = self.order@;
        let new_node = DeqNode { region: node.region, next: None, prev: self.tail, element: node.element };
        let slot: usize = if self.free.len() > 0 {
            let s: usize = self.free.pop().unwrap();
            assert(s == old(self).free@[old(self).free@.len() - 1]);
            self.slots.put_back(s, new_node);
            s
        } else {
            self.slots.push(new_node)
        };
        assert(forall|i: int| 0 <= i < n ==> order0[i] != slot) by {
            assert forall|i: int| 0 <= i < n implies order0[i] != slot by {
                assert(old(self).linked_at(i));
            }
        }
        match self.tail {
            None => {
                self.head = Some(slot);
            },
            Some(tail) => {
                assert(old(self).linked_at(n - 1));
                self.slots.set_next(tail, Some(slot));
            },
        }
        self.tail = Some(slot);
        proof {
            self.order = Ghost(order0.push(slot));
            if has_node(old(self)@, slot) {
                let i = old(self).lemma_member(slot);
            }
            assert forall|i: int| 0 <= i < self.order@.len() implies #[trigger] self.linked_at(i) by {
                if i < n {
                    assert(old(self).linked_at(i));
                }
            }
            assert forall|s: int|
                0 <= s < self.slots@.len() && (#[trigger] self.slots@[s]) is Some implies is_slot_of(self.order@, s) by {
                if s == slot {
                    assert(self.order@[n as int] == slot);
                } else {
                    assert(old(self).slots@[s] is Some);
                    let i = choose|i: int| 0 <= i < n && order0[i] as int == s;
                    assert(self.order@[i] as int == s);
                }
            }
        }
        proof {
            self.lemma_len_bound();
        }
        let bound: usize = self.slots.len();
        assert(self.len < bound);
        let ghost mid = *self;
        self.len = self.len + 1;
        proof {
            assert forall|i: int| 0 <= i < self.order@.len() implies #[trigger] self.linked_at(i) by {
                assert(mid.linked_at(i));
            }
            assert forall|i: int| 0 <= i < n implies self@[i] == old(self)@[i] by {
                assert(old(self).linked_at(i));
            }
            assert(self@ =~= old(self)@.push((slot, node.element)));
            assert forall|i: int| 0 <= i < self.free@.len() implies (#[trigger] self.free@[i])
                < self.slots@.len() && self.slots@[self.free@[i] as int] is None by {
                assert(self.free@[i] == old(self).free@[i]);
                if old(self).order@.len() > 0 {
                    assert(old(self).linked_at(n - 1));
                }
            }
        }
        slot
    }

    /// Takes a member out and returns its node, which is then in no list.
    pub fn unlink(&mut self, node: usize) -> (r: DeqNode<T>)
        requires
            old(self).wf(),
            has_node(old(self)@, node),
        ensures
            final(self).wf(),
            final(self).spec_region() == old(self).spec_region(),
            final(self)@ == old(self)@.remove(position_of(old(self)@, node)),
            r.region == old(self).spec_region(),
            r.element == old(self)@[position_of(old(self)@, node)].1,
            r.prev is None,
            r.next is None,
    {
        let ghost p = self.lemma_member(node);
        let ghost n = self.order@.len();
        let ghost order0 = self.order@;
        proof {
            self.slots.lemma_index(p);
        }
        let mut taken = self.slots.take(node);
        assert(taken == old(self).slots@[node as int]->0);
        assert(self.slots@ == old(self).slots@.update(node as int, None));
        proof {
            if p > 0 {
                assert(old(self).linked_at(p - 1));
            }
            if p < n - 1 {
                assert(old(self).linked_at(p + 1));
            }
        }
        match taken.prev {
            Some(prev) => {
                self.slots.set_next(prev, taken.next);
            },
            None => {
                self.head = taken.next;
            },
        }
        match taken.next {
            Some(next) => {
                self.slots.set_prev(next, taken.prev);
            },
            None => {
                self.tail = taken.prev;
            },
        }
        taken.prev = None;
        taken.next = None;
        self.free.push(node);
        self.len = self.len - 1;
        proof {
            self.order = Ghost(order0.remove(p));
            let order = self.order@;
            assert forall|i: int| 0 <= i < order.len() implies #[trigger] self.linked_at(i) by {
                let j = if i < p { i } else { i + 1 };
                assert(old(self).linked_at(j));
                assert(order[i] == order0[j]);
                if i > 0 {
                    assert(order[i - 1] == order0[if i - 1 < p { i - 1 } else { i }]);
                }
                if i < order.len() - 1 {
                    assert(order[i + 1] == order0[if i + 1 < p { i + 1 } else { i + 2 }]);
                }
            }
            assert forall|s: int| 0 <= s < self.slots@.len() && (#[trigger] self.slots@[s]) is Some
                implies is_slot_of(order, s) by {
                assert(old(self).slots@[s] is Some);
                let j = choose|j: int| 0 <= j < n && order0[j] as int == s;
                let i = if j < p { j } else { j - 1 };
                assert(j != p);
                assert(order[i] as int == s);
            }
            assert forall|i: int| 0 <= i < self.free@.len() implies (#[trigger] self.free@[i])
                < self.slots@.len() && self.slots@[self.free@[i] as int] is None by {
                if i < self.free@.len() - 1 {
                    assert(self.free@[i] == old(self).free@[i]);
                }
            }
            assert forall|i: int, j: int|
                0 <= i < self.free@.len() && 0 <= j < self.free@.len() && #[trigger] self.free@[i]
                    == #[trigger] self.free@[j] implies i == j by {
                if i < self.free@.len() - 1 {
                    assert(self.free@[i] == old(self).free@[i]);
                }
                if j < self.free@.len() - 1 {
                    assert(self.free@[j] == old(self).free@[j]);
                }
            }
            assert forall|i: int| 0 <= i < order.len() implies self@[i] == old(self)@.remove(p)[i] by {
                let j = if i < p { i } else { i + 1 };
                assert(old(self).linked_at(j));
                assert(order[i] == order0[j]);
            }
            assert(self@ =~= old(self)@.remove(p));
        }
        taken
    }

    /// Takes the first member out.
    pub fn pop_front(&mut self) -> (r: Option<DeqNode<T>>)
        requires
            old(self).wf(),
        ensures
            final(self).wf(),
            final(self).spec_region() == old(self).spec_region(),
            r is Some <==> old(self)@.len() > 0,
            r is None ==> final(self)@ == old(self)@,
            r is Some ==> final(self)@ == old(self)@.remove(0) && r->0.element == old(self)@[0].1
                && r->0.region == old(self).spec_region() && r->0.prev is None && r->0.next is None,
    {
        match self.head {
            None => None,
            Some(head) => {
                proof {
                    assert(self@[0].0 == head);
                    self.lemma_wf();
                }
                Some(self.unlink(head))
            },
        }
    }

    /// Makes a member the last one.
    pub fn move_to_back(&mut self, node: usize)
        requires
            old(self).wf(),
            has_node(old(self)@, node),
        ensures
            final(self).wf(),
            final(self).spec_region() == old(self).spec_region(),
            final(self)@ == moved_to_back(old(self)@, position_of(old(self)@, node)),
    {
        let ghost p = self.lemma_member(node);
        let ghost n = self.order@.len();
        let ghost order0 = self.order@;
        proof {
            assert(self.linked_at(n - 1));
            if p > 0 {
                assert(self.linked_at(p - 1));
            }
            if p < n - 1 {
                assert(self.linked_at(p + 1));
            }
        }
        if self.is_tail(node) {
            assert(self.order@[n - 1] == node);
            assert(moved_to_back(old(self)@, p) =~= old(self)@);
            return;
        }
        assert(p < n - 1);
        let (prev, next): (Option<usize>, Option<usize>) = {
            let r = self.slots.get(node);
            (r.prev, r.next)
        };
        match prev {
            Some(prev) => {
                self.slots.set_next(prev, next);
            },
            None => {
                self.head = next;
            },
        }
        match next {
            Some(next) => {
                self.slots.set_prev(next, prev);
            },
            None => {},
        }
        match self.tail {
            Some(tail) => {
                self.slots.set_next(tail, Some(node));
            },
            None => {},
        }
        self.slots.set_prev(node, self.tail);
        self.slots.set_next(node, None);
        proof {
            self.slots.lemma_index(p);
        }
        self.slots.move_to_back(node);
        self.tail = Some(node);
        proof {
            self.order = Ghost(moved_to_back(order0, p));
            let order = self.order@;
            assert forall|i: int| 0 <= i < order.len() implies #[trigger] self.linked_at(i) by {
                let j = if i == n - 1 { p } else if i < p { i } else { i + 1 };
                assert(old(self).linked_at(j));
                assert(order[i] == order0[j]);
                if i > 0 {
                    assert(order[i - 1] == order0[if i - 1 < p { i - 1 } else { i }]);
                }
                if i < order.len() - 2 {
                    assert(order[i + 1] == order0[if i + 1 < p { i + 1 } else { i + 2 }]);
                }
            }
            assert forall|s: int| 0 <= s < self.slots@.len() && (#[trigger] self.slots@[s]) is Some
                implies is_slot_of(order, s) by {
                assert(old(self).slots@[s] is Some);
                let j = choose|j: int| 0 <= j < n && order0[j] as int == s;
                let i = if j == p { n - 1 } else if j < p { j } else { j - 1 };
                assert(order[i] as int == s);
            }
            assert forall|i: int| 0 <= i < self.free@.len() implies (#[trigger] self.free@[i])
                < self.slots@.len() && self.slots@[self.free@[i] as int] is None by {
                assert(self.free@[i] == old(self).free@[i]);
            }
            assert forall|i: int| 0 <= i < order.len() implies self@[i] == moved_to_back(old(self)@, p)[i] by {
                let j = if i == n - 1 { p } else if i < p { i } else { i + 1 };
                assert(old(self).linked_at(j));
                assert(order[i] == order0[j]);
            }
            assert(self@ =~= moved_to_back(old(self)@, p));
        }
    }

    proof fn lemma_len_bound(&self)
        requires
            forall|i: int| 0 <= i < self.order@.len() ==> #[trigger] self.linked_at(i),
            forall|i: int, j: int|
                0 <= i < self.order@.len() && 0 <= j < self.order@.len() && #[trigger] self.order@[i] == #[trigger] self.order@[j] ==> i == j,
        ensures
            self.order@.len() <= self.slots@.len(),
    {
        let ids = self.order@.map_values(|s: usize| s as int);
        assert(ids.no_duplicates());
        ids.unique_seq_to_set();
        let all = set_int_range(0, self.slots@.len() as int);
        lemma_int_range(0, self.slots@.len() as int);
        assert forall|x: int| ids.to_set().contains(x) implies all.contains(x) by {
            let i = choose|i: int| 0 <= i < ids.len() && ids[i] == x;
            assert(self.linked_at(i));
        }
        lemma_len_subset(ids.to_set(), all);
    }
}

/// The one that is moved to the back is the last, and the others keep their order.
pub proof fn others_keep_their_order<A>(s: Seq<A>, i: int)
    requires
        0 <= i < s.len(),
    ensures
        moved_to_back(s, i) == s.take(i) + s.skip(i + 1) + seq![s[i]],
{
    assert(moved_to_back(s, i) =~= s.take(i) + s.skip(i + 1) + seq![s[i]]);
}

} // verus!
