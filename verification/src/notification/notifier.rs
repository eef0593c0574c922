//! Tells the listener of a cache what was removed.
//!
//! Where removals are told some time later, they are put into a queue, and a task takes them
//! out of it.
use vstd::prelude::*;

use super::{Configuration, DeliveryMode, RemovalCause};

verus! {

/// The number of removals, or batches of removals, that the queue takes.
pub const CHANNEL_CAPACITY: usize = 1024;

/// The length of the queue at which a task is to be started.
pub const SUBMIT_TASK_THRESHOLD: usize = 100;

/// The number of removals that one task tells, before it gives way to another.
pub const MAX_NOTIFICATIONS_PER_TASK: u16 = 5000;

/// A removed entry.
pub struct RemovedEntry<K, V> {
    pub key: K,
    pub value: V,
    pub cause: RemovalCause,
}

impl<K, V> RemovedEntry<K, V> {
    pub fn new(key: K, value: V, cause: RemovalCause) -> (r: Self)
        ensures
            r == (RemovedEntry { key, value, cause }),
    {
        RemovedEntry { key, value, cause }
    }
}

/// A removed entry, or a batch of them.
pub enum RemovedEntries<K, V> {
    Single(RemovedEntry<K, V>),
    Multi(Vec<RemovedEntry<K, V>>),
}

impl<K, V> RemovedEntries<K, V> {
    pub fn new_single(key: K, value: V, cause: RemovalCause) -> (r: Self)
        ensures
            r == RemovedEntries::Single(RemovedEntry { key, value, cause }),
    {
        RemovedEntries::Single(RemovedEntry::new(key, value, cause))
    }

    pub fn new_multi(entries: Vec<RemovedEntry<K, V>>) -> (r: Self)
        ensures
            r == RemovedEntries::Multi(entries),
    {
        RemovedEntries::Multi(entries)
    }
}

/// How removals are told.
#[derive(Clone, Copy, Debug, PartialEq, Eq, Structural)]
pub enum RemovalNotifier {
    /// At once, by the one who removes.
    Blocking,
    /// Later, by a task.
    ThreadPool,
}

impl RemovalNotifier {
    pub fn new(conf: Configuration) -> (r: Self)
        ensures
            r == match conf.spec_delivery_mode() {
                DeliveryMode::Immediate => RemovalNotifier::Blocking,
                DeliveryMode::Queued => RemovalNotifier::ThreadPool,
            },
    {
        match conf.delivery_mode() {
            DeliveryMode::Immediate => RemovalNotifier::Blocking,
            DeliveryMode::Queued => RemovalNotifier::ThreadPool,
        }
    }

    pub fn is_blocking(&self) -> (r: bool)
        ensures
            r == (*self == RemovalNotifier::Blocking),
    {
        match self {
            RemovalNotifier::Blocking => true,
            RemovalNotifier::ThreadPool => false,
        }
    }

    /// Whether removals may be told in batches.
    pub fn is_batching_supported(&self) -> (r: bool)
        ensures
            r == (*self == RemovalNotifier::ThreadPool),
    {
        match self {
            RemovalNotifier::Blocking => false,
            RemovalNotifier::ThreadPool => true,
        }
    }
}

/// A listener that is told at once. Once it has panicked it is told nothing more.
#[derive(Clone, Copy, Debug, PartialEq, Eq, Structural)]
pub struct BlockingRemovalNotifier {
    pub is_enabled: bool,
}

impl BlockingRemovalNotifier {
    pub fn new() -> (r: Self)
        ensures
            r.is_enabled,
    {
        BlockingRemovalNotifier { is_enabled: true }
    }

    /// Whether the listener is to be told.
    pub fn should_notify(&self) -> (r: bool)
        ensures
            r == self.is_enabled,
    {
        self.is_enabled
    }

    /// Takes note of whether the listener panicked.
    pub fn notified(&mut self, panicked: bool)
        ensures
            final(self).is_enabled == (old(self).is_enabled && !panicked),
    {
        if panicked {
            self.is_enabled = false;
        }
    }
}

/// The state of a listener that is told later.
#[derive(Clone, Copy, Debug, PartialEq, Eq, Structural)]
pub struct NotifierState {
    pub is_enabled: bool,
    pub is_running: bool,
    pub is_shutting_down: bool,
}

impl NotifierState {
    pub fn new() -> (r: Self)
        ensures
            r == (NotifierState { is_enabled: true, is_running: false, is_shutting_down: false }),
    {
        NotifierState { is_enabled: true, is_running: false, is_shutting_down: false }
    }

    pub fn is_enabled(&self) -> (r: bool)
        ensures
            r == self.is_enabled,
    {
        self.is_enabled
    }

    pub fn is_running(&self) -> (r: bool)
        ensures
            r == self.is_running,
    {
        self.is_running
    }

    pub fn is_shutting_down(&self) -> (r: bool)
        ensures
            r == self.is_shutting_down,
    {
        self.is_shutting_down
    }

    /// The task that runs, if there is one, is to end soon, and no other is to be started.
    pub fn shutdown(&mut self)
        ensures
            *final(self) == (NotifierState { is_shutting_down: true, ..*old(self) }),
    {
        self.is_shutting_down = true;
    }

    /// A task may be started.
    pub open spec fn may_start(self) -> bool {
        !self.is_running && self.is_enabled && !self.is_shutting_down
    }

    /// Whether a task is to be started now. If so, it counts as running.
    pub fn submit_task(&mut self) -> (r: bool)
        ensures
            r == old(self).may_start(),
            *final(self) == if r {
                NotifierState { is_running: true, ..*old(self) }
            } else {
                *old(self)
            },
    {
        if self.is_running() || !self.is_enabled() || self.is_shutting_down() {
            return false;
        }
        self.is_running = true;
        true
    }

    /// Whether a task is to be started now because the queue is this long.
    pub fn submit_task_if_necessary(&mut self, queue_len: usize) -> (r: bool)
        ensures
            r == (queue_len >= SUBMIT_TASK_THRESHOLD && old(self).may_start()),
            r == (queue_len >= 100 && old(self).may_start()),
            *final(self) == if r {
                NotifierState { is_running: true, ..*old(self) }
            } else {
                *old(self)
            },
    {
        if queue_len >= SUBMIT_TASK_THRESHOLD && !self.is_running() {
            self.submit_task()
        } else {
            false
        }
    }
}

/// What a task is to do next.
#[derive(Clone, Copy, Debug, PartialEq, Eq, Structural)]
pub enum TaskAction {
    /// Tell the next entry of the batch.
    NextEntry,
    /// Take the next entry or batch out of the queue.
    NextBatch,
    /// End.
    Finish,
}

/// A task that takes removals out of the queue and tells them to the listener.
#[derive(Clone, Copy, Debug, PartialEq, Eq, Structural)]
pub struct NotificationTask {
    /// How many removals were told.
    pub count: u16,
    /// The listener has not panicked.
    pub is_enabled: bool,
}

impl NotificationTask {
    /// A task has nothing to do once the listener has panicked.
    pub fn start(state: &NotifierState) -> (r: Option<Self>)
        ensures
            r == if state.is_enabled {
                Some(NotificationTask { count: 0, is_enabled: true })
            } else {
                None
            },
    {
        if state.is_enabled() {
            Some(NotificationTask { count: 0, is_enabled: true })
        } else {
            None
        }
    }

    /// What a task does when it is through with a batch.
    pub open spec fn between_batches(count: u16, is_shutting_down: bool) -> TaskAction {
        if count > MAX_NOTIFICATIONS_PER_TASK || is_shutting_down {
            TaskAction::Finish
        } else {
            TaskAction::NextBatch
        }
    }

    /// Goes on after a batch.
    pub fn batch_done(&self, is_shutting_down: bool) -> (r: TaskAction)
        ensures
            r == Self::between_batches(self.count, is_shutting_down),
    {
        if self.count > MAX_NOTIFICATIONS_PER_TASK || is_shutting_down {
            TaskAction::Finish
        } else {
            TaskAction::NextBatch
        }
    }

    /// The number of removals that were told, with one more.
    pub open spec fn one_more(self) -> u16 {
        if self.count < u16::MAX {
            (self.count + 1) as u16
        } else {
            u16::MAX
        }
    }

    /// Goes on after an entry was told that stood in the queue by itself. The task ends when the
    /// listener panics.
    pub fn notified_single(&mut self, panicked: bool, is_shutting_down: bool) -> (r: TaskAction)
        ensures
            panicked ==> r == TaskAction::Finish && *final(self) == (NotificationTask {
                is_enabled: false,
                ..*old(self)
            }),
            !panicked ==> *final(self) == (NotificationTask {
                count: old(self).one_more(),
                ..*old(self)
            }) && r == Self::between_batches(final(self).count, is_shutting_down),
    {
        if panicked {
            self.is_enabled = false;
            return TaskAction::Finish;
        }
        self.count = self.count.saturating_add(1);
        self.batch_done(is_shutting_down)
    }

    /// Goes on after an entry of a batch was told. `is_last` says that it was the last of the
    /// batch. When the listener panics, the rest of the batch is left out; what else is in the
    /// queue is still told, until the task ends.
    pub fn notified(&mut self, panicked: bool, is_last: bool, is_shutting_down: bool) -> (r: TaskAction)
        ensures
            panicked ==> *final(self) == (NotificationTask { is_enabled: false, ..*old(self) }) && r
                == Self::between_batches(old(self).count, is_shutting_down),
            !panicked && is_shutting_down ==> *final(self) == *old(self) && r == TaskAction::Finish,
            !panicked && !is_shutting_down ==> *final(self) == (NotificationTask {
                count: old(self).one_more(),
                ..*old(self)
            }) && r == if is_last {
                Self::between_batches(final(self).count, is_shutting_down)
            } else {
                TaskAction::NextEntry
            },
    {
        if panicked {
            self.is_enabled = false;
            return self.batch_done(is_shutting_down);
        }
        if is_shutting_down {
            return TaskAction::Finish;
        }
        self.count = self.count.saturating_add(1);
        if is_last {
            self.batch_done(is_shutting_down)
        } else {
            TaskAction::NextEntry
        }
    }

    /// Ends the task. For a listener that has panicked no other is started.
    pub fn finish(self, state: &mut NotifierState)
        ensures
            *final(state) == (NotifierState {
                is_enabled: old(state).is_enabled && self.is_enabled,
                is_running: false,
                ..*old(state)
            }),
    {
        if !self.is_enabled {
            state.is_enabled = false;
        }
        state.is_running = false;
    }
}

/// No task is started for a listener that has panicked, nor once the notifier shuts down.
pub proof fn silent_after_panic(state: NotifierState, task: NotificationTask)
    requires
        !task.is_enabled || !state.is_enabled,
    ensures
        !(NotifierState {
            is_enabled: state.is_enabled && task.is_enabled,
            is_running: false,
            ..state
        }).may_start(),
{
}

/// A task is started exactly where none runs, the listener has not panicked, and the notifier does not
/// shut down.
pub proof fn one_task_at_a_time(state: NotifierState)
    ensures
        state.may_start() ==> !state.is_running && state.is_enabled && !state.is_shutting_down,
        !state.is_running && state.is_enabled && !state.is_shutting_down ==> state.may_start(),
{
}

/// A task tells removals until it has told more than 5000, and counts each; it ends between two batches,
/// or when the notifier shuts down.
pub proof fn task_tells_thousands(task: NotificationTask, is_shutting_down: bool)
    ensures
        task.count < u16::MAX ==> task.one_more() == task.count + 1,
        task.count == u16::MAX ==> task.one_more() == u16::MAX,
        NotificationTask::between_batches(task.count, true) == TaskAction::Finish,
        task.count > 5000 ==> NotificationTask::between_batches(task.count, is_shutting_down)
            == TaskAction::Finish,
        task.count <= 5000 ==> NotificationTask::between_batches(task.count, false) == TaskAction::NextBatch,
{
}

} // verus!
