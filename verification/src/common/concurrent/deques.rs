//! The access-order queues of the regions, and the write-order queue.
use vstd::prelude::*;

use super::entry_table::EntryTable;
use super::{AoqNode, DeqNodes, ValueEntry};
use crate::common::deque::{distinct_nodes, has_node, moved_to_back, position_of, DeqNode, Deque};
use crate::common::CacheRegion;

verus! {

/// The queue with `e` at the back, if `e` is in the queue.
pub open spec fn moved_back(s: Seq<usize>, e: usize) -> Seq<usize> {
    if s.contains(e) {
        s.remove(s.index_of(e)).push(e)
    } else {
        s
    }
}

/// The queue without `e`.
pub open spec fn unlinked(s: Seq<usize>, e: usize) -> Seq<usize> {
    if s.contains(e) {
        s.remove(s.index_of(e))
    } else {
        s
    }
}

/// The queue with the entry at `i` moved to its back; the others keep their order.
pub open spec fn with_last(q: Seq<usize>, i: int) -> Seq<usize> {
    q.take(i) + q.skip(i + 1) + seq![q[i]]
}

/// An entry that is moved to the back, or taken out, leaves the others in their order.
pub proof fn lemma_moved(q: Seq<usize>, i: int)
    requires
        q.no_duplicates(),
        0 <= i < q.len(),
    ensures
        moved_back(q, q[i]) == with_last(q, i),
        unlinked(q, q[i]) == q.take(i) + q.skip(i + 1),
{
    let e = q[i];
    assert(q.contains(e));
    let j = q.index_of(e);
    assert(q[j] == e);
    assert(j == i);
    assert(q.remove(i) =~= q.take(i) + q.skip(i + 1));
    assert(q.remove(i).push(e) =~= with_last(q, i));
}

/// The entries of a queue in their order.
pub open spec fn entries_in(nodes: Seq<(usize, usize)>) -> Seq<usize> {
    nodes.map_values(|p: (usize, usize)| p.1)
}

/// The entries in the queues, each from the one that was touched longest ago.
pub struct Queues {
    pub window: Seq<usize>,
    pub probation: Seq<usize>,
    pub protected: Seq<usize>,
    pub write_order: Seq<usize>,
}

impl Queues {
    /// The access-order queue of a region.
    pub open spec fn access_order(self, region: CacheRegion) -> Seq<usize> {
        match region {
            CacheRegion::Window => self.window,
            CacheRegion::MainProbation => self.probation,
            CacheRegion::MainProtected => self.protected,
            CacheRegion::Other => Seq::empty(),
        }
    }

    pub open spec fn with_access_order(self, region: CacheRegion, s: Seq<usize>) -> Self {
        match region {
            CacheRegion::Window => Queues { window: s, ..self },
            CacheRegion::MainProbation => Queues { probation: s, ..self },
            CacheRegion::MainProtected => Queues { protected: s, ..self },
            CacheRegion::Other => self,
        }
    }

    pub open spec fn empty() -> Self {
        Queues {
            window: Seq::empty(),
            probation: Seq::empty(),
            protected: Seq::empty(),
            write_order: Seq::empty(),
        }
    }
}

/// The access-order queues, and the write-order queue.
pub struct Deques {
    window: Deque<usize>,
    probation: Deque<usize>,
    protected: Deque<usize>,
    write_order: Deque<usize>,
}

/// Every node of the queue is known to its entry by `node_of`, and every entry that knows a
/// node is in the queue.
spec fn queue_linked<K, V>(
    nodes: Seq<(usize, usize)>,
    entries: Map<usize, ValueEntry<K, V>>,
    node_of: spec_fn(DeqNodes) -> Option<usize>,
) -> bool {
    &&& forall|k: int|
        0 <= k < nodes.len() ==> entries.dom().contains((#[trigger] nodes[k]).1) && node_of(
            entries[nodes[k].1].nodes,
        ) == Some(nodes[k].0)
    &&& forall|e: usize|
        entries.dom().contains(e) && node_of((#[trigger] entries[e]).nodes) is Some ==> has_pair(
            nodes,
            node_of(entries[e].nodes)->0,
            e,
        )
}

spec fn has_pair(nodes: Seq<(usize, usize)>, n: usize, e: usize) -> bool {
    exists|k: int| 0 <= k < nodes.len() && #[trigger] nodes[k] == (n, e)
}

/// The node of an entry in the access-order queue of a region.
spec fn ao_node_in(region: CacheRegion) -> spec_fn(DeqNodes) -> Option<usize> {
    |d: DeqNodes|
        match d.access_order_q_node {
            Some(a) => if a.region == region {
                Some(a.node)
            } else {
                None
            },
            None => None,
        }
}

/// The node of an entry in the write-order queue.
spec fn wo_node() -> spec_fn(DeqNodes) -> Option<usize> {
    |d: DeqNodes| d.write_order_q_node
}

proof fn lemma_linked_once<K, V>(
    nodes: Seq<(usize, usize)>,
    entries: Map<usize, ValueEntry<K, V>>,
    node_of: spec_fn(DeqNodes) -> Option<usize>,
)
    requires
        distinct_nodes(nodes),
        queue_linked(nodes, entries, node_of),
    ensures
        entries_in(nodes).no_duplicates(),
{
    let s = entries_in(nodes);
    assert forall|i: int, j: int| 0 <= i < s.len() && 0 <= j < s.len() && i != j implies s[i] != s[j] by {
        if s[i] == s[j] {
            assert(nodes[i].1 == nodes[j].1);
            assert(nodes[i].0 == nodes[j].0);
        }
    }
}

/// A queue that gained a node for `e` at the back.
proof fn lemma_linked_push<K, V>(
    nodes: Seq<(usize, usize)>,
    before: Map<usize, ValueEntry<K, V>>,
    after: Map<usize, ValueEntry<K, V>>,
    node_of: spec_fn(DeqNodes) -> Option<usize>,
    n: usize,
    e: usize,
)
    requires
        queue_linked(nodes, before, node_of),
        before.dom().contains(e),
        node_of(before[e].nodes) is None,
        after == before.insert(e, after[e]),
        node_of(after[e].nodes) == Some(n),
    ensures
        queue_linked(nodes.push((n, e)), after, node_of),
        entries_in(nodes.push((n, e))) == entries_in(nodes).push(e),
{
    let more = nodes.push((n, e));
    assert(entries_in(more) =~= entries_in(nodes).push(e));
    assert forall|k: int| 0 <= k < more.len() implies after.dom().contains((#[trigger] more[k]).1)
        && node_of(after[more[k].1].nodes) == Some(more[k].0) by {
        if k < nodes.len() {
            assert(more[k] == nodes[k]);
        }
    }
    assert forall|x: usize|
        after.dom().contains(x) && node_of((#[trigger] after[x]).nodes) is Some implies has_pair(
        more,
        node_of(after[x].nodes)->0,
        x,
    ) by {
        if x == e {
            assert(more[nodes.len() as int] == (n, e));
        } else {
            assert(before[x] == after[x]);
            let k = choose|k: int|
                0 <= k < nodes.len() && #[trigger] nodes[k] == (node_of(before[x].nodes)->0, x);
            assert(more[k] == nodes[k]);
        }
    }
}

/// A queue that lost the node of `e`.
proof fn lemma_linked_remove<K, V>(
    nodes: Seq<(usize, usize)>,
    before: Map<usize, ValueEntry<K, V>>,
    after: Map<usize, ValueEntry<K, V>>,
    node_of: spec_fn(DeqNodes) -> Option<usize>,
    p: int,
    e: usize,
)
    requires
        distinct_nodes(nodes),
        queue_linked(nodes, before, node_of),
        before.dom().contains(e),
        0 <= p < nodes.len(),
        nodes[p].1 == e,
        after == before.insert(e, after[e]),
        node_of(after[e].nodes) is None,
    ensures
        queue_linked(nodes.remove(p), after, node_of),
        entries_in(nodes).contains(e),
        entries_in(nodes).index_of(e) == p,
        entries_in(nodes.remove(p)) == entries_in(nodes).remove(p),
{
    lemma_linked_once(nodes, before, node_of);
    assert(entries_in(nodes)[p] == e);
    let less = nodes.remove(p);
    assert(entries_in(less) =~= entries_in(nodes).remove(p));
    assert forall|k: int| 0 <= k < less.len() implies after.dom().contains((#[trigger] less[k]).1)
        && node_of(after[less[k].1].nodes) == Some(less[k].0) by {
        let j = if k < p {
            k
        } else {
            k + 1
        };
        assert(less[k] == nodes[j]);
        assert(entries_in(nodes)[j] != entries_in(nodes)[p]);
    }
    assert forall|x: usize|
        after.dom().contains(x) && node_of((#[trigger] after[x]).nodes) is Some implies has_pair(
        less,
        node_of(after[x].nodes)->0,
        x,
    ) by {
        assert(before[x] == after[x]);
        let j = choose|k: int|
            0 <= k < nodes.len() && #[trigger] nodes[k] == (node_of(before[x].nodes)->0, x);
        let k = if j < p {
            j
        } else {
            j - 1
        };
        assert(less[k] == nodes[j]);
    }
}

/// A queue in which the node of `e` was moved to the back.
proof fn lemma_linked_move<K, V>(
    nodes: Seq<(usize, usize)>,
    entries: Map<usize, ValueEntry<K, V>>,
    node_of: spec_fn(DeqNodes) -> Option<usize>,
    p: int,
    e: usize,
)
    requires
        distinct_nodes(nodes),
        queue_linked(nodes, entries, node_of),
        0 <= p < nodes.len(),
        nodes[p].1 == e,
    ensures
        queue_linked(moved_to_back(nodes, p), entries, node_of),
        entries_in(nodes).contains(e),
        entries_in(nodes).index_of(e) == p,
        entries_in(moved_to_back(nodes, p)) == moved_back(entries_in(nodes), e),
{
    lemma_linked_once(nodes, entries, node_of);
    assert(entries_in(nodes)[p] == e);
    let moved = moved_to_back(nodes, p);
    assert(entries_in(moved) =~= moved_back(entries_in(nodes), e));
    let n = nodes.len() as int;
    assert forall|k: int| 0 <= k < moved.len() implies entries.dom().contains(
        (#[trigger] moved[k]).1,
    ) && node_of(entries[moved[k].1].nodes) == Some(moved[k].0) by {
        let j = if k == n - 1 {
            p
        } else if k < p {
            k
        } else {
            k + 1
        };
        assert(moved[k] == nodes[j]);
    }
    assert forall|x: usize|
        entries.dom().contains(x) && node_of((#[trigger] entries[x]).nodes) is Some implies has_pair(
        moved,
        node_of(entries[x].nodes)->0,
        x,
    ) by {
        let j = choose|k: int|
            0 <= k < nodes.len() && #[trigger] nodes[k] == (node_of(entries[x].nodes)->0, x);
        let k = if j == p {
            n - 1
        } else if j < p {
            j
        } else {
            j - 1
        };
        assert(moved[k] == nodes[j]);
    }
}

/// A queue is not affected by changes to entries that leave its nodes alone.
proof fn lemma_linked_same<K, V>(
    nodes: Seq<(usize, usize)>,
    before: Map<usize, ValueEntry<K, V>>,
    after: Map<usize, ValueEntry<K, V>>,
    node_of: spec_fn(DeqNodes) -> Option<usize>,
)
    requires
        queue_linked(nodes, before, node_of),
        before.dom() =~= after.dom(),
        forall|e: usize|
            before.dom().contains(e) ==> node_of((#[trigger] after[e]).nodes) == node_of(
                before[e].nodes,
            ),
    ensures
        queue_linked(nodes, after, node_of),
{
    assert forall|k: int| 0 <= k < nodes.len() implies after.dom().contains((#[trigger] nodes[k]).1)
        && node_of(after[nodes[k].1].nodes) == Some(nodes[k].0) by {
        assert(before.dom().contains(nodes[k].1));
        assert(node_of(after[nodes[k].1].nodes) == node_of(before[nodes[k].1].nodes));
    }
    assert forall|x: usize|
        after.dom().contains(x) && node_of((#[trigger] after[x]).nodes) is Some implies has_pair(
        nodes,
        node_of(after[x].nodes)->0,
        x,
    ) by {
        assert(node_of(before[x].nodes) is Some);
    }
}

impl Default for Deques {
    fn default() -> (r: Self)
        ensures
            r.wf(),
            r@ == Queues::empty(),
    {
        let r = Deques {
            window: Deque::new(CacheRegion::Window),
            probation: Deque::new(CacheRegion::MainProbation),
            protected: Deque::new(CacheRegion::MainProtected),
            write_order: Deque::new(CacheRegion::Other),
        };
        assert(r@.window =~= Seq::<usize>::empty());
        assert(r@.probation =~= Seq::<usize>::empty());
        assert(r@.protected =~= Seq::<usize>::empty());
        assert(r@.write_order =~= Seq::<usize>::empty());
        r
    }
}

impl Deques {
    pub closed spec fn view(&self) -> Queues {
        Queues {
            window: entries_in(self.window@),
            probation: entries_in(self.probation@),
            protected: entries_in(self.protected@),
            write_order: entries_in(self.write_order@),
        }
    }

    /// Each queue is well-formed and for its region.
    pub closed spec fn wf(&self) -> bool {
        &&& self.window.wf()
        &&& self.probation.wf()
        &&& self.protected.wf()
        &&& self.write_order.wf()
        &&& self.window.spec_region() == CacheRegion::Window
        &&& self.probation.spec_region() == CacheRegion::MainProbation
        &&& self.protected.spec_region() == CacheRegion::MainProtected
        &&& self.write_order.spec_region() == CacheRegion::Other
    }

    /// The nodes that the entries know of are those that the queues have.
    pub closed spec fn linked<K, V>(&self, entries: Map<usize, ValueEntry<K, V>>) -> bool {
        &&& queue_linked(self.window@, entries, ao_node_in(CacheRegion::Window))
        &&& queue_linked(self.probation@, entries, ao_node_in(CacheRegion::MainProbation))
        &&& queue_linked(self.protected@, entries, ao_node_in(CacheRegion::MainProtected))
        &&& queue_linked(self.write_order@, entries, wo_node())
        &&& forall|e: usize|
            entries.dom().contains(e) && (#[trigger] entries[e]).nodes.access_order_q_node is Some
                ==> entries[e].nodes.access_order_q_node->0.region != CacheRegion::Other
    }

    /// No entry is twice in a queue, and an entry is in a queue if and only if it has a node
    /// there.
    pub proof fn lemma_linked<K, V>(&self, entries: Map<usize, ValueEntry<K, V>>)
        requires
            self.wf(),
            self.linked(entries),
        ensures
            self@.probation.len() <= usize::MAX,
            self@.window.no_duplicates(),
            self@.probation.no_duplicates(),
            self@.protected.no_duplicates(),
            self@.write_order.no_duplicates(),
            forall|e: usize, region: CacheRegion|
                #![trigger self@.access_order(region).contains(e)]
                self@.access_order(region).contains(e) ==> entries.dom().contains(e)
                    && entries[e].nodes.access_order_q_node is Some
                    && entries[e].nodes.access_order_q_node->0.region == region,
            forall|e: usize|
                entries.dom().contains(e) && (
                #[trigger] entries[e]).nodes.access_order_q_node is Some ==> self@.access_order(
                    entries[e].nodes.access_order_q_node->0.region,
                ).contains(e),
            forall|e: usize|
                #![trigger self@.write_order.contains(e)]
                self@.write_order.contains(e) ==> entries.dom().contains(e)
                    && entries[e].nodes.write_order_q_node is Some,
            forall|e: usize|
                entries.dom().contains(e) && (#[trigger] entries[e]).nodes.write_order_q_node is Some
                    ==> self@.write_order.contains(e),
    {
        self.window.lemma_wf();
        self.probation.lemma_wf();
        self.protected.lemma_wf();
        self.write_order.lemma_wf();
        lemma_linked_once(self.window@, entries, ao_node_in(CacheRegion::Window));
        lemma_linked_once(self.probation@, entries, ao_node_in(CacheRegion::MainProbation));
        lemma_linked_once(self.protected@, entries, ao_node_in(CacheRegion::MainProtected));
        lemma_linked_once(self.write_order@, entries, wo_node());
        assert forall|e: usize, region: CacheRegion| #[trigger]
            self@.access_order(region).contains(e) implies entries.dom().contains(e)
            && entries[e].nodes.access_order_q_node is Some
            && entries[e].nodes.access_order_q_node->0.region == region by {
            let nodes = self.nodes_of(region);
            let k = choose|k: int|
                0 <= k < self@.access_order(region).len() && self@.access_order(region)[k] == e;
            assert(nodes[k].1 == e);
        }
        assert forall|e: usize|
            entries.dom().contains(e) && (
            #[trigger] entries[e]).nodes.access_order_q_node is Some implies self@.access_order(
            entries[e].nodes.access_order_q_node->0.region,
        ).contains(e) by {
            let a = entries[e].nodes.access_order_q_node->0;
            let nodes = self.nodes_of(a.region);
            assert(ao_node_in(a.region)(entries[e].nodes) == Some(a.node));
            assert(has_pair(nodes, a.node, e));
            let k = choose|k: int| 0 <= k < nodes.len() && #[trigger] nodes[k] == (a.node, e);
            assert(self@.access_order(a.region)[k] == e);
        }
        assert forall|e: usize| #[trigger] self@.write_order.contains(e) implies entries.dom().contains(e)
            && entries[e].nodes.write_order_q_node is Some by {
            let k = choose|k: int| 0 <= k < self@.write_order.len() && self@.write_order[k] == e;
            assert(self.write_order@[k].1 == e);
        }
        assert forall|e: usize|
            entries.dom().contains(e) && (#[trigger] entries[e]).nodes.write_order_q_node is Some implies self@.write_order.contains(
            e,
        ) by {
            let n = entries[e].nodes.write_order_q_node->0;
            assert(has_pair(self.write_order@, n, e));
            let k = choose|k: int|
                0 <= k < self.write_order@.len() && #[trigger] self.write_order@[k] == (n, e);
            assert(self@.write_order[k] == e);
        }
    }

    spec fn nodes_of(&self, region: CacheRegion) -> Seq<(usize, usize)> {
        match region {
            CacheRegion::Window => self.window@,
            CacheRegion::MainProbation => self.probation@,
            CacheRegion::MainProtected => self.protected@,
            CacheRegion::Other => Seq::empty(),
        }
    }

    /// The queues stay linked when the entries change in nothing but what the queues do not
    /// know of.
    pub proof fn lemma_same_nodes<K, V>(
        &self,
        before: Map<usize, ValueEntry<K, V>>,
        after: Map<usize, ValueEntry<K, V>>,
    )
        requires
            self.linked(before),
            before.dom() =~= after.dom(),
            forall|e: usize|
                before.dom().contains(e) ==> (#[trigger] after[e]).nodes.access_order_q_node
                    == before[e].nodes.access_order_q_node && after[e].nodes.write_order_q_node
                    == before[e].nodes.write_order_q_node,
        ensures
            self.linked(after),
    {
        lemma_linked_same(self.window@, before, after, ao_node_in(CacheRegion::Window));
        lemma_linked_same(self.probation@, before, after, ao_node_in(CacheRegion::MainProbation));
        lemma_linked_same(self.protected@, before, after, ao_node_in(CacheRegion::MainProtected));
        lemma_linked_same(self.write_order@, before, after, wo_node());
    }

    /// The queues stay linked when an entry without nodes comes or goes.
    pub proof fn lemma_entry_without_nodes<K, V>(
        &self,
        before: Map<usize, ValueEntry<K, V>>,
        after: Map<usize, ValueEntry<K, V>>,
        e: usize,
    )
        requires
            self.linked(before),
            after.remove(e) =~= before.remove(e),
            before.dom().contains(e) ==> before[e].nodes.access_order_q_node is None
                && before[e].nodes.write_order_q_node is None,
            after.dom().contains(e) ==> after[e].nodes.access_order_q_node is None
                && after[e].nodes.write_order_q_node is None,
        ensures
            self.linked(after),
    {
        lemma_linked_without(self.window@, before, after, ao_node_in(CacheRegion::Window), e);
        lemma_linked_without(self.probation@, before, after, ao_node_in(CacheRegion::MainProbation), e);
        lemma_linked_without(self.protected@, before, after, ao_node_in(CacheRegion::MainProtected), e);
        lemma_linked_without(self.write_order@, before, after, wo_node(), e);
        assert forall|x: usize|
            after.dom().contains(x) && (#[trigger] after[x]).nodes.access_order_q_node is Some implies after[x].nodes.access_order_q_node->0.region
            != CacheRegion::Other by {
            assert(after.remove(e)[x] == before.remove(e)[x]);
            assert(before.remove(e).dom().contains(x));
            assert(before[x] == after[x]);
        }
    }

    /// Empty queues are linked with entries that have no nodes.
    pub proof fn lemma_empty_linked<K, V>(&self, entries: Map<usize, ValueEntry<K, V>>)
        requires
            self@ == Queues::empty(),
            forall|e: usize|
                entries.dom().contains(e) ==> (#[trigger] entries[e]).nodes.access_order_q_node is None
                    && entries[e].nodes.write_order_q_node is None,
        ensures
            self.linked(entries),
    {
        assert(self@.window.len() == 0);
        assert(self@.probation.len() == 0);
        assert(self@.protected.len() == 0);
        assert(self@.write_order.len() == 0);
    }

    /// Adds an entry to the back of the access-order queue of a region.
    pub fn push_back_ao<K, V>(
        &mut self,
        entries: &mut EntryTable<K, V>,
        region: CacheRegion,
        e: usize,
    )
        requires
            old(self).wf(),
            old(entries).wf(),
            old(self).linked(old(entries)@),
            region != CacheRegion::Other,
            old(entries)@.dom().contains(e),
            old(entries)@[e].nodes.access_order_q_node is None,
        ensures
            final(self).wf(),
            final(entries).wf(),
            final(self).linked(final(entries)@),
            final(self)@ == old(self)@.with_access_order(
                region,
                old(self)@.access_order(region).push(e),
            ),
            final(entries)@ == old(entries)@.insert(e, final(entries)@[e]),
            final(entries)@[e].nodes.access_order_q_node is Some,
            final(entries)@[e].nodes.access_order_q_node->0.region == region,
            final(entries)@[e] == (ValueEntry {
                nodes: DeqNodes {
                    access_order_q_node: final(entries)@[e].nodes.access_order_q_node,
                    ..old(entries)@[e].nodes
                },
                ..old(entries)@[e]
            }),
    {
        let ghost m0 = entries@;
        let ghost q0 = *self;
        let new_node = DeqNode::new(region, e);
        let node: usize = match region {
            CacheRegion::Window => self.window.push_back(new_node),
            CacheRegion::MainProbation => self.probation.push_back(new_node),
            _ => self.protected.push_back(new_node),
        };
        entries.get_mut(e).set_access_order_q_node(Some(AoqNode { region, node }));
        proof {
            let m1 = entries@;
            assert(m0.dom() =~= m1.dom());
            lemma_linked_push(q0.nodes_of(region), m0, m1, ao_node_in(region), node, e);
            if region != CacheRegion::Window {
                lemma_linked_same(q0.window@, m0, m1, ao_node_in(CacheRegion::Window));
            }
            if region != CacheRegion::MainProbation {
                lemma_linked_same(q0.probation@, m0, m1, ao_node_in(CacheRegion::MainProbation));
            }
            if region != CacheRegion::MainProtected {
                lemma_linked_same(q0.protected@, m0, m1, ao_node_in(CacheRegion::MainProtected));
            }
            lemma_linked_same(q0.write_order@, m0, m1, wo_node());
        }
    }

    /// Adds an entry to the back of the write-order queue.
    pub fn push_back_wo<K, V>(&mut self, entries: &mut EntryTable<K, V>, e: usize)
        requires
            old(self).wf(),
            old(entries).wf(),
            old(self).linked(old(entries)@),
            old(entries)@.dom().contains(e),
            old(entries)@[e].nodes.write_order_q_node is None,
        ensures
            final(self).wf(),
            final(entries).wf(),
            final(self).linked(final(entries)@),
            final(self)@ == (Queues {
                write_order: old(self)@.write_order.push(e),
                ..old(self)@
            }),
            final(entries)@ == old(entries)@.insert(e, final(entries)@[e]),
            final(entries)@[e].nodes.write_order_q_node is Some,
            final(entries)@[e] == (ValueEntry {
                nodes: DeqNodes {
                    write_order_q_node: final(entries)@[e].nodes.write_order_q_node,
                    ..old(entries)@[e].nodes
                },
                ..old(entries)@[e]
            }),
    {
        let ghost m0 = entries@;
        let ghost q0 = *self;
        let node: usize = self.write_order.push_back(DeqNode::new(CacheRegion::Other, e));
        entries.get_mut(e).set_write_order_q_node(Some(node));
        proof {
            let m1 = entries@;
            assert(m0.dom() =~= m1.dom());
            lemma_linked_push(q0.write_order@, m0, m1, wo_node(), node, e);
            lemma_linked_same(q0.window@, m0, m1, ao_node_in(CacheRegion::Window));
            lemma_linked_same(q0.probation@, m0, m1, ao_node_in(CacheRegion::MainProbation));
            lemma_linked_same(q0.protected@, m0, m1, ao_node_in(CacheRegion::MainProtected));
        }
    }

    proof fn lemma_ao_position<K, V>(
        &self,
        entries: Map<usize, ValueEntry<K, V>>,
        e: usize,
    ) -> (p: int)
        requires
            self.wf(),
            self.linked(entries),
            entries.dom().contains(e),
            entries[e].nodes.access_order_q_node is Some,
        ensures
            ({
                let a = entries[e].nodes.access_order_q_node->0;
                let nodes = self.nodes_of(a.region);
                &&& a.region != CacheRegion::Other
                &&& 0 <= p < nodes.len()
                &&& nodes[p] == (a.node, e)
                &&& has_node(nodes, a.node)
                &&& p == position_of(nodes, a.node)
                &&& distinct_nodes(nodes)
            }),
    {
        let a = entries[e].nodes.access_order_q_node->0;
        let nodes = self.nodes_of(a.region);
        assert(ao_node_in(a.region)(entries[e].nodes) == Some(a.node));
        assert(has_pair(nodes, a.node, e));
        let p = choose|k: int| 0 <= k < nodes.len() && #[trigger] nodes[k] == (a.node, e);
        assert(nodes[p].0 == a.node);
        self.window.lemma_wf();
        self.probation.lemma_wf();
        self.protected.lemma_wf();
        p
    }

    proof fn lemma_wo_position<K, V>(
        &self,
        entries: Map<usize, ValueEntry<K, V>>,
        e: usize,
    ) -> (p: int)
        requires
            self.wf(),
            self.linked(entries),
            entries.dom().contains(e),
            entries[e].nodes.write_order_q_node is Some,
        ensures
            ({
                let n = entries[e].nodes.write_order_q_node->0;
                let nodes = self.write_order@;
                &&& 0 <= p < nodes.len()
                &&& nodes[p] == (n, e)
                &&& has_node(nodes, n)
                &&& p == position_of(nodes, n)
                &&& distinct_nodes(nodes)
            }),
    {
        let n = entries[e].nodes.write_order_q_node->0;
        let nodes = self.write_order@;
        assert(has_pair(nodes, n, e));
        let p = choose|k: int| 0 <= k < nodes.len() && #[trigger] nodes[k] == (n, e);
        assert(nodes[p].0 == n);
        self.write_order.lemma_wf();
        p
    }

    /// Moves an entry to the back of its access-order queue, if it is in one.
    pub fn move_to_back_ao<K, V>(&mut self, entries: &EntryTable<K, V>, e: usize)
        requires
            old(self).wf(),
            old(self).linked(entries@),
            entries@.dom().contains(e),
        ensures
            final(self).wf(),
            final(self).linked(entries@),
            final(self)@ == match entries@[e].nodes.access_order_q_node {
                Some(a) => old(self)@.with_access_order(
                    a.region,
                    moved_back(old(self)@.access_order(a.region), e),
                ),
                None => old(self)@,
            },
    {
        match entries.get(e).access_order_q_node() {
            Some(a) => {
                let ghost q0 = *self;
                let ghost p = self.lemma_ao_position(entries@, e);
                match a.region {
                    CacheRegion::Window => self.window.move_to_back(a.node),
                    CacheRegion::MainProbation => self.probation.move_to_back(a.node),
                    CacheRegion::MainProtected => self.protected.move_to_back(a.node),
                    CacheRegion::Other => {},
                }
                proof {
                    lemma_linked_move(q0.nodes_of(a.region), entries@, ao_node_in(a.region), p, e);
                }
            },
            None => {},
        }
    }

    /// Moves an entry to the back of the write-order queue, if it is there.
    pub fn move_to_back_wo<K, V>(&mut self, entries: &EntryTable<K, V>, e: usize)
        requires
            old(self).wf(),
            old(self).linked(entries@),
            entries@.dom().contains(e),
        ensures
            final(self).wf(),
            final(self).linked(entries@),
            final(self)@ == (Queues {
                write_order: moved_back(old(self)@.write_order, e),
                ..old(self)@
            }),
    {
        proof {
            self.lemma_linked(entries@);
        }
        match entries.get(e).write_order_q_node() {
            Some(node) => {
                let ghost q0 = *self;
                let ghost p = self.lemma_wo_position(entries@, e);
                self.write_order.move_to_back(node);
                proof {
                    lemma_linked_move(q0.write_order@, entries@, wo_node(), p, e);
                }
            },
            None => {},
        }
    }

    /// Takes an entry out of its access-order queue, if it is in one.
    pub fn unlink_ao<K, V>(&mut self, entries: &mut EntryTable<K, V>, e: usize)
        requires
            old(self).wf(),
            old(entries).wf(),
            old(self).linked(old(entries)@),
            old(entries)@.dom().contains(e),
        ensures
            final(self).wf(),
            final(entries).wf(),
            final(self).linked(final(entries)@),
            final(self)@ == match old(entries)@[e].nodes.access_order_q_node {
                Some(a) => old(self)@.with_access_order(
                    a.region,
                    unlinked(old(self)@.access_order(a.region), e),
                ),
                None => old(self)@,
            },
            final(entries)@ == old(entries)@.insert(
                e,
                ValueEntry {
                    nodes: DeqNodes { access_order_q_node: None, ..old(entries)@[e].nodes },
                    ..old(entries)@[e]
                },
            ),
    {
        let ghost m0 = entries@;
        let ghost q0 = *self;
        match entries.get_mut(e).take_access_order_q_node() {
            Some(a) => {
                let ghost p = self.lemma_ao_position(m0, e);
                match a.region {
                    CacheRegion::Window => {
                        let node = self.window.unlink(a.node);
                    },
                    CacheRegion::MainProbation => {
                        let node = self.probation.unlink(a.node);
                    },
                    CacheRegion::MainProtected => {
                        let node = self.protected.unlink(a.node);
                    },
                    CacheRegion::Other => {},
                }
                proof {
                    let m1 = entries@;
                    assert(m0.dom() =~= m1.dom());
                    let region = a.region;
                    lemma_linked_remove(q0.nodes_of(region), m0, m1, ao_node_in(region), p, e);
                    if region != CacheRegion::Window {
                        lemma_linked_same(q0.window@, m0, m1, ao_node_in(CacheRegion::Window));
                    }
                    if region != CacheRegion::MainProbation {
                        lemma_linked_same(q0.probation@, m0, m1, ao_node_in(CacheRegion::MainProbation));
                    }
                    if region != CacheRegion::MainProtected {
                        lemma_linked_same(q0.protected@, m0, m1, ao_node_in(CacheRegion::MainProtected));
                    }
                    lemma_linked_same(q0.write_order@, m0, m1, wo_node());
                }
            },
            None => {
                proof {
                    assert(entries@ =~= m0);
                }
            },
        }
    }

    /// Takes an entry out of the write-order queue, if it is there.
    pub fn unlink_wo<K, V>(&mut self, entries: &mut EntryTable<K, V>, e: usize)
        requires
            old(self).wf(),
            old(entries).wf(),
            old(self).linked(old(entries)@),
            old(entries)@.dom().contains(e),
        ensures
            final(self).wf(),
            final(entries).wf(),
            final(self).linked(final(entries)@),
            final(self)@ == (Queues {
                write_order: unlinked(old(self)@.write_order, e),
                ..old(self)@
            }),
            final(entries)@ == old(entries)@.insert(
                e,
                ValueEntry {
                    nodes: DeqNodes { write_order_q_node: None, ..old(entries)@[e].nodes },
                    ..old(entries)@[e]
                },
            ),
    {
        let ghost m0 = entries@;
        let ghost q0 = *self;
        proof {
            self.lemma_linked(m0);
        }
        match entries.get_mut(e).take_write_order_q_node() {
            Some(n) => {
                let ghost p = self.lemma_wo_position(m0, e);
                let node = self.write_order.unlink(n);
                proof {
                    let m1 = entries@;
                    assert(m0.dom() =~= m1.dom());
                    lemma_linked_remove(q0.write_order@, m0, m1, wo_node(), p, e);
                    lemma_linked_same(q0.window@, m0, m1, ao_node_in(CacheRegion::Window));
                    lemma_linked_same(q0.probation@, m0, m1, ao_node_in(CacheRegion::MainProbation));
                    lemma_linked_same(q0.protected@, m0, m1, ao_node_in(CacheRegion::MainProtected));
                }
            },
            None => {
                proof {
                    assert(entries@ =~= m0);
                }
            },
        }
    }

    /// The first entry of the access-order queue of a region.
    pub fn peek_front_ao(&self, region: CacheRegion) -> (r: Option<usize>)
        requires
            self.wf(),
        ensures
            r == if self@.access_order(region).len() == 0 {
                None::<usize>
            } else {
                Some(self@.access_order(region)[0])
            },
    {
        let front = match region {
            CacheRegion::Window => self.window.peek_front(),
            CacheRegion::MainProbation => self.probation.peek_front(),
            CacheRegion::MainProtected => self.protected.peek_front(),
            CacheRegion::Other => None,
        };
        match front {
            Some(node) => Some(node.element),
            None => None,
        }
    }

    /// The first entry of the write-order queue.
    pub fn peek_front_wo(&self) -> (r: Option<usize>)
        requires
            self.wf(),
        ensures
            r == if self@.write_order.len() == 0 {
                None::<usize>
            } else {
                Some(self@.write_order[0])
            },
    {
        match self.write_order.peek_front() {
            Some(node) => Some(node.element),
            None => None,
        }
    }

    /// The entry behind `e` in the access-order queue that `e` is in.
    pub fn next_ao<K, V>(&self, entries: &EntryTable<K, V>, e: usize) -> (r: Option<usize>)
        requires
            self.wf(),
            self.linked(entries@),
            entries@.dom().contains(e),
            entries@[e].nodes.access_order_q_node is Some,
        ensures
            ({
                let s = self@.access_order(entries@[e].nodes.access_order_q_node->0.region);
                let i = s.index_of(e);
                &&& s.contains(e)
                &&& r == if i + 1 < s.len() {
                    Some(s[i + 1])
                } else {
                    None::<usize>
                }
            }),
    {
        let a = entries.get(e).access_order_q_node().unwrap();
        let ghost p = self.lemma_ao_position(entries@, e);
        proof {
            self.lemma_linked(entries@);
            let nodes = self.nodes_of(a.region);
            let s = self@.access_order(a.region);
            assert(s[p] == e);
            assert(s.index_of(e) == p);
        }
        let next: Option<usize> = match a.region {
            CacheRegion::Window => self.window.node(a.node).next,
            CacheRegion::MainProbation => self.probation.node(a.node).next,
            CacheRegion::MainProtected => self.protected.node(a.node).next,
            CacheRegion::Other => None,
        };
        match next {
            Some(n) => {
                proof {
                    let nodes = self.nodes_of(a.region);
                    assert(nodes[p + 1].0 == n);
                    assert(has_node(nodes, n));
                }
                let element: usize = match a.region {
                    CacheRegion::Window => self.window.node(n).element,
                    CacheRegion::MainProbation => self.probation.node(n).element,
                    _ => self.protected.node(n).element,
                };
                Some(element)
            },
            None => None,
        }
    }

    /// The entry of the probation behind the one at `i`.
    pub(crate) fn next_in_probation<K, V>(
        &self,
        entries: &EntryTable<K, V>,
        e: usize,
        Ghost(i): Ghost<int>,
    ) -> (r: Option<usize>)
        requires
            self.wf(),
            self.linked(entries@),
            0 <= i < self@.probation.len(),
            self@.probation[i] == e,
        ensures
            r == if i + 1 < self@.probation.len() {
                Some(self@.probation[i + 1])
            } else {
                None::<usize>
            },
            entries@.dom().contains(e),
    {
        proof {
            self.lemma_linked(entries@);
            let queue = self@.access_order(CacheRegion::MainProbation);
            assert(queue == self@.probation);
            assert(queue.contains(e));
            assert(queue.index_of(e) == i);
        }
        self.next_ao(entries, e)
    }

    /// The last entry of the probation.
    pub(crate) fn back_of_probation(&self) -> (r: Option<usize>)
        requires
            self.wf(),
        ensures
            r == if self@.probation.len() == 0 {
                None::<usize>
            } else {
                Some(self@.probation.last())
            },
    {
        match self.probation.peek_back() {
            Some(node) => Some(node.element),
            None => None,
        }
    }

    /// The entry of the probation before the one at `i`.
    pub(crate) fn previous_in_probation<K, V>(
        &self,
        entries: &EntryTable<K, V>,
        e: usize,
        Ghost(i): Ghost<int>,
    ) -> (r: Option<usize>)
        requires
            self.wf(),
            self.linked(entries@),
            0 <= i < self@.probation.len(),
            self@.probation[i] == e,
        ensures
            r == if i > 0 {
                Some(self@.probation[i - 1])
            } else {
                None::<usize>
            },
            entries@.dom().contains(e),
    {
        proof {
            self.lemma_linked(entries@);
            let queue = self@.access_order(CacheRegion::MainProbation);
            assert(queue == self@.probation);
            assert(queue.contains(e));
        }
        let ghost p = self.lemma_ao_position(entries@, e);
        proof {
            assert(self@.probation[p] == e);
            assert(p == i);
        }
        let a = entries.get(e).access_order_q_node().unwrap();
        match self.probation.node(a.node).prev {
            Some(n) => {
                proof {
                    assert(self.probation@[p - 1].0 == n);
                    assert(has_node(self.probation@, n));
                }
                Some(self.probation.node(n).element)
            },
            None => None,
        }
    }

    /// Moves the entry of the probation at `i` to the back.
    pub(crate) fn skip_in_probation<K, V>(
        &mut self,
        entries: &EntryTable<K, V>,
        e: usize,
        Ghost(i): Ghost<int>,
    )
        requires
            old(self).wf(),
            old(self).linked(entries@),
            0 <= i < old(self)@.probation.len(),
            old(self)@.probation[i] == e,
        ensures
            final(self).wf(),
            final(self).linked(entries@),
            final(self)@ == (Queues {
                probation: old(self)@.probation.remove(i).push(e),
                ..old(self)@
            }),
    {
        proof {
            self.lemma_linked(entries@);
            let queue = self@.access_order(CacheRegion::MainProbation);
            assert(queue == self@.probation);
            assert(queue.contains(e));
            assert(queue.index_of(e) == i);
        }
        self.move_to_back_ao(entries, e);
    }

    /// The number of entries in the access-order queue of a region.
    pub fn len_ao(&self, region: CacheRegion) -> (r: usize)
        requires
            self.wf(),
        ensures
            r == self@.access_order(region).len(),
    {
        match region {
            CacheRegion::Window => self.window.len(),
            CacheRegion::MainProbation => self.probation.len(),
            CacheRegion::MainProtected => self.protected.len(),
            CacheRegion::Other => 0,
        }
    }
}

proof fn lemma_linked_without<K, V>(
    nodes: Seq<(usize, usize)>,
    before: Map<usize, ValueEntry<K, V>>,
    after: Map<usize, ValueEntry<K, V>>,
    node_of: spec_fn(DeqNodes) -> Option<usize>,
    e: usize,
)
    requires
        queue_linked(nodes, before, node_of),
        after.remove(e) =~= before.remove(e),
        before.dom().contains(e) ==> node_of(before[e].nodes) is None,
        after.dom().contains(e) ==> node_of(after[e].nodes) is None,
    ensures
        queue_linked(nodes, after, node_of),
{
    assert forall|k: int| 0 <= k < nodes.len() implies after.dom().contains((#[trigger] nodes[k]).1)
        && node_of(after[nodes[k].1].nodes) == Some(nodes[k].0) by {
        let x = nodes[k].1;
        assert(before.remove(e).dom().contains(x));
        assert(after.remove(e)[x] == before.remove(e)[x]);
    }
    assert forall|x: usize|
        after.dom().contains(x) && node_of((#[trigger] after[x]).nodes) is Some implies has_pair(
        nodes,
        node_of(after[x].nodes)->0,
        x,
    ) by {
        assert(after.remove(e).dom().contains(x));
        assert(after.remove(e)[x] == before.remove(e)[x]);
        assert(before[x] == after[x]);
    }
}

/// The two queues have the same entries, each once.
pub open spec fn same_members(a: Seq<usize>, b: Seq<usize>) -> bool {
    &&& a.len() == b.len()
    &&& a.no_duplicates()
    &&& b.no_duplicates()
    &&& forall|x: usize| #[trigger] a.contains(x) <==> b.contains(x)
}

/// Moving an entry to the back changes nothing but the order.
pub proof fn lemma_moved_back(s: Seq<usize>, e: usize)
    requires
        s.no_duplicates(),
    ensures
        same_members(moved_back(s, e), s),
        s.contains(e) ==> moved_back(s, e).last() == e,
{
    let r = moved_back(s, e);
    if s.contains(e) {
        let p = s.index_of(e);
        let n = s.len() as int;
        assert forall|i: int, j: int| 0 <= i < n && 0 <= j < n && i != j implies r[i] != r[j] by {
            let i0 = if i == n - 1 {
                p
            } else if i < p {
                i
            } else {
                i + 1
            };
            let j0 = if j == n - 1 {
                p
            } else if j < p {
                j
            } else {
                j + 1
            };
            assert(r[i] == s[i0]);
            assert(r[j] == s[j0]);
        }
        assert forall|x: usize| #[trigger] r.contains(x) <==> s.contains(x) by {
            if r.contains(x) {
                let i = choose|i: int| 0 <= i < n && r[i] == x;
                let i0 = if i == n - 1 {
                    p
                } else if i < p {
                    i
                } else {
                    i + 1
                };
                assert(s[i0] == x);
            }
            if s.contains(x) {
                let j = choose|j: int| 0 <= j < n && s[j] == x;
                let i = if j == p {
                    n - 1
                } else if j < p {
                    j
                } else {
                    j - 1
                };
                assert(r[i] == x);
            }
        }
    }
}

/// Taking an entry out of a queue leaves the others.
pub proof fn lemma_unlinked(s: Seq<usize>, e: usize)
    requires
        s.no_duplicates(),
    ensures
        unlinked(s, e).no_duplicates(),
        unlinked(s, e).len() == if s.contains(e) {
            s.len() - 1
        } else {
            s.len() as int
        },
        forall|x: usize| #[trigger] unlinked(s, e).contains(x) <==> s.contains(x) && x != e,
{
    let r = unlinked(s, e);
    if s.contains(e) {
        let p = s.index_of(e);
        let n = s.len() as int;
        assert forall|x: usize| #[trigger] r.contains(x) <==> s.contains(x) && x != e by {
            if r.contains(x) {
                let i = choose|i: int| 0 <= i < r.len() && r[i] == x;
                let i0 = if i < p {
                    i
                } else {
                    i + 1
                };
                assert(s[i0] == x);
                assert(s[p] == e);
            }
            if s.contains(x) && x != e {
                let j = choose|j: int| 0 <= j < n && s[j] == x;
                let i = if j < p {
                    j
                } else {
                    j - 1
                };
                assert(r[i] == x);
            }
        }
    }
}

/// Adding an entry to a queue.
pub proof fn lemma_pushed(s: Seq<usize>, e: usize)
    requires
        s.no_duplicates(),
        !s.contains(e),
    ensures
        s.push(e).no_duplicates(),
        forall|x: usize| #[trigger] s.push(e).contains(x) <==> s.contains(x) || x == e,
{
    let r = s.push(e);
    assert(r[s.len() as int] == e);
    assert forall|x: usize| #[trigger] r.contains(x) <==> s.contains(x) || x == e by {
        if s.contains(x) {
            let j = choose|j: int| 0 <= j < s.len() && s[j] == x;
            assert(r[j] == x);
        }
        if r.contains(x) && x != e {
            let i = choose|i: int| 0 <= i < r.len() && r[i] == x;
            assert(s[i] == x);
        }
    }
}

} // verus!
