//! The logs of operations that the policies have not seen yet: bounded channels of
//! `crossbeam_channel`.
//!
//! A log owns both halves of its channel and never hands out a copy of either, so what is
//! in the channel is what the log has put there.
use crossbeam_channel::{Receiver, Sender};

use vstd::prelude::*;

verus! {

#[verifier::external_type_specification]
#[verifier::external_body]
#[verifier::reject_recursive_types(T)]
pub struct ExSender<T>(Sender<T>);

#[verifier::external_type_specification]
#[verifier::external_body]
#[verifier::reject_recursive_types(T)]
pub struct ExReceiver<T>(Receiver<T>);

/// A read that the policies have not seen yet.
#[derive(Clone, Copy, Debug, PartialEq, Eq, Structural)]
pub enum ReadOp {
    /// The entry was found by a key of this hash.
    Hit { hash: u64, entry: usize },
    /// A key of this hash was not found.
    Miss(u64),
}

/// A write that the policies have not seen yet.
#[derive(Clone, Copy, Debug, PartialEq, Eq, Structural)]
pub enum WriteOp {
    /// The entry was put under the key, or its value was replaced.
    Upsert { key: u64, hash: u64, entry: usize, old_weight: u32, new_weight: u32 },
    /// The entry was removed from under the key.
    Remove { key: u64, entry: usize },
}

/// A write to a cache that counts its entries and knows of no weights.
#[derive(Clone, Copy, Debug, PartialEq, Eq, Structural)]
pub enum QueueOp {
    /// The entry was put under the key.
    Insert { key: u64, hash: u64, entry: usize },
    /// The value of the entry was replaced.
    Update { entry: usize },
    /// The entry was removed.
    Remove { entry: usize },
}

/// What stands in a log.
#[derive(Clone, Copy, Debug, PartialEq, Eq, Structural)]
pub enum LoggedOp {
    Read(ReadOp),
    Write(WriteOp),
    Queue(QueueOp),
}

/// What waits in a channel of which these are the two halves, in the order in which it was
/// sent. Two halves of different channels have `None`.
pub uninterp spec fn waiting(ch: (Sender<LoggedOp>, Receiver<LoggedOp>)) -> Option<Seq<LoggedOp>>;

/// How many operations a channel of which these are the two halves takes at most.
pub uninterp spec fn room(ch: (Sender<LoggedOp>, Receiver<LoggedOp>)) -> nat;

/// `crossbeam_channel::bounded` makes the two halves of an empty channel.
#[verifier::external_body]
fn new_channel(cap: usize) -> (r: (Sender<LoggedOp>, Receiver<LoggedOp>))
    requires
        1 <= cap <= 65536,
    ensures
        waiting(r) == Some(Seq::<LoggedOp>::empty()),
        room(r) == cap,
{
    crossbeam_channel::bounded(cap)
}

/// `Sender::try_send` puts an operation behind those that wait, unless the channel is full.
#[verifier::external_body]
fn channel_send(ch: &mut (Sender<LoggedOp>, Receiver<LoggedOp>), op: LoggedOp) -> (r: bool)
    requires
        waiting(*old(ch)) is Some,
    ensures
        r == (waiting(*old(ch))->0.len() < room(*old(ch))),
        waiting(*final(ch)) == if r {
            Some(waiting(*old(ch))->0.push(op))
        } else {
            waiting(*old(ch))
        },
        room(*final(ch)) == room(*old(ch)),
{
    ch.0.try_send(op).is_ok()
}

/// `Receiver::try_recv` takes out the operation that has waited longest, if there is one.
#[verifier::external_body]
fn channel_recv(ch: &mut (Sender<LoggedOp>, Receiver<LoggedOp>)) -> (r: Option<LoggedOp>)
    requires
        waiting(*old(ch)) is Some,
    ensures
        r == if waiting(*old(ch))->0.len() == 0 {
            None::<LoggedOp>
        } else {
            Some(waiting(*old(ch))->0[0])
        },
        waiting(*final(ch)) == if waiting(*old(ch))->0.len() == 0 {
            waiting(*old(ch))
        } else {
            Some(waiting(*old(ch))->0.remove(0))
        },
        room(*final(ch)) == room(*old(ch)),
{
    ch.1.try_recv().ok()
}

/// `Receiver::is_full` tells whether as many operations wait as the channel takes.
#[verifier::external_body]
fn channel_is_full(ch: &(Sender<LoggedOp>, Receiver<LoggedOp>)) -> (r: bool)
    requires
        waiting(*ch) is Some,
    ensures
        r == (waiting(*ch)->0.len() == room(*ch)),
{
    ch.1.is_full()
}

/// `Receiver::len` tells how many operations wait.
#[verifier::external_body]
fn channel_len(ch: &(Sender<LoggedOp>, Receiver<LoggedOp>)) -> (r: usize)
    requires
        waiting(*ch) is Some,
    ensures
        r == waiting(*ch)->0.len(),
{
    ch.1.len()
}

/// An operation that can be logged.
pub trait Logged: Sized {
    /// What stands in the log for the operation.
    spec fn spec_logged(self) -> LoggedOp;

    /// The operation that something in a log stands for, if it is of this kind.
    spec fn spec_of(op: LoggedOp) -> Option<Self>;

    proof fn lemma_logged(self)
        ensures
            Self::spec_of(self.spec_logged()) == Some(self),
    ;

    fn logged(self) -> (r: LoggedOp)
        ensures
            r == self.spec_logged(),
    ;

    fn of(op: LoggedOp) -> (r: Option<Self>)
        ensures
            r == Self::spec_of(op),
    ;
}

impl Logged for ReadOp {
    open spec fn spec_logged(self) -> LoggedOp {
        LoggedOp::Read(self)
    }

    open spec fn spec_of(op: LoggedOp) -> Option<Self> {
        match op {
            LoggedOp::Read(op) => Some(op),
            _ => None,
        }
    }

    proof fn lemma_logged(self) {
    }

    fn logged(self) -> LoggedOp {
        LoggedOp::Read(self)
    }

    fn of(op: LoggedOp) -> Option<Self> {
        match op {
            LoggedOp::Read(op) => Some(op),
            _ => None,
        }
    }
}

impl Logged for WriteOp {
    open spec fn spec_logged(self) -> LoggedOp {
        LoggedOp::Write(self)
    }

    open spec fn spec_of(op: LoggedOp) -> Option<Self> {
        match op {
            LoggedOp::Write(op) => Some(op),
            _ => None,
        }
    }

    proof fn lemma_logged(self) {
    }

    fn logged(self) -> LoggedOp {
        LoggedOp::Write(self)
    }

    fn of(op: LoggedOp) -> Option<Self> {
        match op {
            LoggedOp::Write(op) => Some(op),
            _ => None,
        }
    }
}

impl Logged for QueueOp {
    open spec fn spec_logged(self) -> LoggedOp {
        LoggedOp::Queue(self)
    }

    open spec fn spec_of(op: LoggedOp) -> Option<Self> {
        match op {
            LoggedOp::Queue(op) => Some(op),
            _ => None,
        }
    }

    proof fn lemma_logged(self) {
    }

    fn logged(self) -> LoggedOp {
        LoggedOp::Queue(self)
    }

    fn of(op: LoggedOp) -> Option<Self> {
        match op {
            LoggedOp::Queue(op) => Some(op),
            _ => None,
        }
    }
}

/// A log of operations of one kind.
pub struct OpLog<T> {
    ch: (Sender<LoggedOp>, Receiver<LoggedOp>),
    kind: Ghost<Option<T>>,
}

/// The log of reads. When it is full, further reads are not logged.
pub type ReadLog = OpLog<ReadOp>;

/// The log of writes.
pub type WriteLog = OpLog<WriteOp>;

/// The log of writes to a cache that counts its entries.
pub type QueueLog = OpLog<QueueOp>;

impl<T: Logged> OpLog<T> {
    /// The operations in the log, from the oldest on.
    pub closed spec fn view(&self) -> Seq<T> {
        waiting(self.ch)->0.map_values(|op: LoggedOp| T::spec_of(op)->0)
    }

    /// The number of operations that the log takes.
    pub closed spec fn capacity(&self) -> nat {
        room(self.ch)
    }

    pub closed spec fn wf(&self) -> bool {
        &&& waiting(self.ch) is Some
        &&& waiting(self.ch)->0.len() <= room(self.ch)
        &&& forall|i: int|
            0 <= i < waiting(self.ch)->0.len() ==> T::spec_of(
                #[trigger] waiting(self.ch)->0[i],
            ) is Some
    }

    /// No more is logged than the log takes.
    pub proof fn lemma_wf(&self)
        requires
            self.wf(),
        ensures
            self@.len() <= self.capacity(),
    {
    }

    pub fn new(cap: usize) -> (r: Self)
        requires
            1 <= cap <= 65536,
        ensures
            r.wf(),
            r@ == Seq::<T>::empty(),
            r.capacity() == cap,
    {
        let r = OpLog { ch: new_channel(cap), kind: Ghost(None) };
        assert(r@ =~= Seq::<T>::empty());
        r
    }

    pub fn len(&self) -> (r: usize)
        requires
            self.wf(),
        ensures
            r == self@.len(),
            r <= self.capacity(),
    {
        channel_len(&self.ch)
    }

    /// Whether the log takes no more operations.
    pub fn is_full(&self) -> (r: bool)
        requires
            self.wf(),
        ensures
            r == (self@.len() >= self.capacity()),
    {
        channel_is_full(&self.ch)
    }

    /// Logs an operation, unless the log is full.
    pub fn try_send(&mut self, op: T) -> (r: bool)
        requires
            old(self).wf(),
        ensures
            final(self).wf(),
            final(self).capacity() == old(self).capacity(),
            r == (old(self)@.len() < old(self).capacity()),
            final(self)@ == if r {
                old(self)@.push(op)
            } else {
                old(self)@
            },
    {
        proof {
            op.lemma_logged();
        }
        let r = channel_send(&mut self.ch, op.logged());
        assert(r ==> self@ =~= old(self)@.push(op));
        r
    }

    /// Takes the oldest operation out of the log.
    pub fn try_recv(&mut self) -> (r: Option<T>)
        requires
            old(self).wf(),
        ensures
            final(self).wf(),
            final(self).capacity() == old(self).capacity(),
            r == if old(self)@.len() == 0 {
                None::<T>
            } else {
                Some(old(self)@[0])
            },
            final(self)@ == if old(self)@.len() == 0 {
                old(self)@
            } else {
                old(self)@.remove(0)
            },
    {
        let ghost before = waiting(self.ch)->0;
        let op = channel_recv(&mut self.ch);
        proof {
            if before.len() > 0 {
                let after = waiting(self.ch)->0;
                assert forall|i: int| 0 <= i < after.len() implies T::spec_of(
                    #[trigger] waiting(self.ch)->0[i],
                ) is Some by {
                    assert(T::spec_of(before[i + 1]) is Some);
                }
                assert(T::spec_of(before[0]) is Some);
                assert(self@ =~= old(self)@.remove(0));
            }
        }
        match op {
            Some(op) => T::of(op),
            None => None,
        }
    }
}

} // verus!
