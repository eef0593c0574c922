//! Entries, and what the policies know of them.
use vstd::prelude::*;

use self::entry_info::EntryInfo;
use crate::common::time::{AtomicInstant, Instant};
use crate::common::CacheRegion;

pub mod admission;
pub mod constants;
pub mod deques;
pub mod entry_info;
pub mod entry_table;
pub mod expiry;
pub mod housekeeper;
pub mod thread_pool;

verus! {

/// A key with its hash.
#[derive(Debug)]
pub struct KeyHash<K> {
    pub key: K,
    pub hash: u64,
}

impl<K> KeyHash<K> {
    pub fn new(key: K, hash: u64) -> (r: Self)
        ensures
            r.key == key,
            r.hash == hash,
    {
        KeyHash { key, hash }
    }
}

/// Where an entry stands in the access-order queues: the region, and the node in its queue.
#[derive(Clone, Copy, Debug, PartialEq, Eq, Structural)]
pub struct AoqNode {
    pub region: CacheRegion,
    pub node: usize,
}

/// Where an entry stands in a timer wheel: the bucket, and the node in its queue.
#[derive(Clone, Copy, Debug, PartialEq, Eq, Structural)]
pub struct TimerPos {
    pub level: usize,
    pub index: usize,
    pub node: usize,
}

/// The nodes by which the queues and the timer wheel hold an entry.
#[derive(Clone, Copy, Debug, PartialEq, Eq, Structural)]
pub struct DeqNodes {
    pub access_order_q_node: Option<AoqNode>,
    pub write_order_q_node: Option<usize>,
    pub timer_node: Option<TimerPos>,
    pub timer_node_expiry_gen: u32,
}

impl Default for DeqNodes {
    fn default() -> (r: Self)
        ensures
            r == (DeqNodes {
                access_order_q_node: None,
                write_order_q_node: None,
                timer_node: None,
                timer_node_expiry_gen: 0,
            }),
    {
        DeqNodes {
            access_order_q_node: None,
            write_order_q_node: None,
            timer_node: None,
            timer_node_expiry_gen: 0,
        }
    }
}

impl DeqNodes {
    pub fn set_timer_node(&mut self, timer_node: Option<TimerPos>, expiry_gen: u32)
        ensures
            *final(self) == (DeqNodes {
                timer_node,
                timer_node_expiry_gen: expiry_gen,
                ..*old(self)
            }),
    {
        self.timer_node = timer_node;
        self.timer_node_expiry_gen = expiry_gen;
    }

    pub fn timer_node_with_expiry_gen(&self) -> (r: (Option<TimerPos>, u32))
        ensures
            r == (self.timer_node, self.timer_node_expiry_gen),
    {
        (self.timer_node, self.timer_node_expiry_gen)
    }
}

/// A value, and what the policies know of its entry, without the nodes.
pub struct EntryState<V> {
    pub value: V,
    pub info: EntryInfo<u64>,
}

/// The values and what the policies know, without the nodes.
pub open spec fn entry_states<V>(m: Map<usize, ValueEntry<u64, V>>) -> Map<usize, EntryState<V>> {
    m.map_values(|v: ValueEntry<u64, V>| EntryState { value: v.value, info: v.info })
}

/// A new entry: not admitted, and written and used at this time.
pub open spec fn new_entry<V>(
    entry: EntryState<V>,
    key: u64,
    hash: u64,
    value: V,
    weight: u32,
    time: Option<Instant>,
) -> bool {
    &&& entry.value == value
    &&& entry.info.key_hash == (KeyHash { key, hash })
    &&& entry.info.policy_weight == weight
    &&& entry.info.last_accessed == AtomicInstant::spec_of(time)
    &&& entry.info.last_modified == AtomicInstant::spec_of(time)
    &&& !entry.info.is_admitted
    &&& !entry.info.is_retired
    &&& entry.info.entry_gen == 1
    &&& entry.info.policy_gen == 0
    &&& entry.info.expiration_time() is None
}

/// A cached value with what the policies know of its entry.
pub struct ValueEntry<K, V> {
    pub value: V,
    pub info: EntryInfo<K>,
    pub nodes: DeqNodes,
}

impl<K, V> ValueEntry<K, V> {
    pub fn new(value: V, info: EntryInfo<K>) -> (r: Self)
        ensures
            r.value == value,
            r.info == info,
            r.nodes.access_order_q_node is None,
            r.nodes.write_order_q_node is None,
            r.nodes.timer_node is None,
            r.nodes.timer_node_expiry_gen == 0,
    {
        ValueEntry { value, info, nodes: DeqNodes::default() }
    }

    pub fn entry_info(&self) -> (r: &EntryInfo<K>)
        ensures
            *r == self.info,
    {
        &self.info
    }

    pub fn is_admitted(&self) -> (r: bool)
        ensures
            r == self.info.is_admitted,
    {
        self.info.is_admitted()
    }

    pub fn set_admitted(&mut self, value: bool)
        ensures
            *final(self) == (ValueEntry {
                info: EntryInfo { is_admitted: value, ..old(self).info },
                ..*old(self)
            }),
    {
        self.info.set_admitted(value);
    }

    pub fn is_dirty(&self) -> (r: bool)
        ensures
            r == (self.info.entry_gen != self.info.policy_gen),
    {
        self.info.is_dirty()
    }

    pub fn policy_weight(&self) -> (r: u32)
        ensures
            r == self.info.policy_weight,
    {
        self.info.policy_weight()
    }

    pub fn access_order_q_node(&self) -> (r: Option<AoqNode>)
        ensures
            r == self.nodes.access_order_q_node,
    {
        self.nodes.access_order_q_node
    }

    pub fn set_access_order_q_node(&mut self, node: Option<AoqNode>)
        ensures
            *final(self) == (ValueEntry {
                nodes: DeqNodes { access_order_q_node: node, ..old(self).nodes },
                ..*old(self)
            }),
    {
        self.nodes.access_order_q_node = node;
    }

    pub fn take_access_order_q_node(&mut self) -> (r: Option<AoqNode>)
        ensures
            r == old(self).nodes.access_order_q_node,
            *final(self) == (ValueEntry {
                nodes: DeqNodes { access_order_q_node: None, ..old(self).nodes },
                ..*old(self)
            }),
    {
        let r = self.nodes.access_order_q_node;
        self.nodes.access_order_q_node = None;
        r
    }

    pub fn write_order_q_node(&self) -> (r: Option<usize>)
        ensures
            r == self.nodes.write_order_q_node,
    {
        self.nodes.write_order_q_node
    }

    pub fn set_write_order_q_node(&mut self, node: Option<usize>)
        ensures
            *final(self) == (ValueEntry {
                nodes: DeqNodes { write_order_q_node: node, ..old(self).nodes },
                ..*old(self)
            }),
    {
        self.nodes.write_order_q_node = node;
    }

    pub fn take_write_order_q_node(&mut self) -> (r: Option<usize>)
        ensures
            r == old(self).nodes.write_order_q_node,
            *final(self) == (ValueEntry {
                nodes: DeqNodes { write_order_q_node: None, ..old(self).nodes },
                ..*old(self)
            }),
    {
        let r: Option<usize> = self.nodes.write_order_q_node;
        self.nodes.write_order_q_node = None;
        r
    }

    pub fn timer_node_with_expiry_gen(&self) -> (r: (Option<TimerPos>, u32))
        ensures
            r == (self.nodes.timer_node, self.nodes.timer_node_expiry_gen),
    {
        self.nodes.timer_node_with_expiry_gen()
    }

    pub fn set_timer_node(&mut self, node: Option<TimerPos>, expiry_gen: u32)
        ensures
            *final(self) == (ValueEntry {
                nodes: DeqNodes {
                    timer_node: node,
                    timer_node_expiry_gen: expiry_gen,
                    ..old(self).nodes
                },
                ..*old(self)
            }),
    {
        self.nodes.set_timer_node(node, expiry_gen);
    }

    pub fn take_timer_node(&mut self) -> (r: (Option<TimerPos>, u32))
        ensures
            r == (old(self).nodes.timer_node, old(self).nodes.timer_node_expiry_gen),
            *final(self) == (ValueEntry {
                nodes: DeqNodes { timer_node: None, timer_node_expiry_gen: 0, ..old(self).nodes },
                ..*old(self)
            }),
    {
        let r = self.nodes.timer_node_with_expiry_gen();
        self.nodes.set_timer_node(None, 0);
        r
    }

    /// Forgets the nodes of the two queues.
    pub fn unset_q_nodes(&mut self)
        ensures
            *final(self) == (ValueEntry {
                nodes: DeqNodes {
                    access_order_q_node: None,
                    write_order_q_node: None,
                    ..old(self).nodes
                },
                ..*old(self)
            }),
    {
        self.nodes.access_order_q_node = None;
        self.nodes.write_order_q_node = None;
    }
}

} // verus!
