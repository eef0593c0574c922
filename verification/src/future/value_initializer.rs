//! Makes sure that of many who ask for a missing value at the same time only one computes it.
//!
//! Who asks puts a waiter under the key. The one whose waiter is put there computes the value;
//! the others wait for it. What is to be done next follows from what came of the last thing
//! that was done.
use vstd::prelude::*;

verus! {

/// How often one may find that somebody else failed to compute the value.
pub const MAX_RETRIES: usize = 200;

/// The outcome for one who asked for a value.
pub enum InitResult<V, E> {
    /// The value was computed.
    Initialized(V),
    /// The value was there, or somebody else computed it.
    ReadExisting(V),
    /// The computation returned an error.
    InitErr(E),
}

/// What a waiter holds.
pub enum WaiterValue<V, E> {
    /// The value is being computed.
    Computing,
    /// The computation is done.
    Ready(Result<V, E>),
    /// The computation panicked.
    InitFuturePanicked,
    /// The computation was given up.
    EnclosingFutureAborted,
}

/// What a waiter is to be set to before it is removed.
#[derive(Clone, Copy, Debug, PartialEq, Eq, Structural)]
pub enum WaiterSetting {
    /// The waiter is somebody else's: it stays.
    NotOurs,
    /// The value or the error that is returned.
    Returned,
    InitFuturePanicked,
    EnclosingFutureAborted,
}

/// How the attempt ends.
pub enum Outcome<V, E> {
    Return(InitResult<V, E>),
    /// The computation panicked, and so does who asked for the value.
    ResumeUnwind,
    /// Other computations panicked this many times.
    TooManyPanics(usize),
    /// Other computations were given up this many times.
    TooManyAborts(usize),
    /// Another waiter said that its value is being computed when it was not.
    UnexpectedComputing,
    /// The attempt was given up.
    Aborted,
}

/// What is to be done next.
pub enum InitAction<V, E> {
    /// Make a waiter, lock it, and put it under the key unless there is one.
    InsertWaiter,
    /// Look for the value in the cache.
    GetExisting,
    /// Compute the value.
    ResolveInit,
    /// Put the computed value into the cache.
    InsertValue,
    /// Wait for the waiter that is under the key, and read it.
    ReadWaiter,
    /// Set our waiter and remove it, and end.
    Finish { waiter: WaiterSetting, outcome: Outcome<V, E> },
}

/// What came of the last thing that was done.
pub enum InitEvent<V, E> {
    /// Our waiter was put under the key.
    WaiterInserted,
    /// There is a waiter under the key.
    WaiterExists,
    /// The value is in the cache, or is not.
    Existing(Option<V>),
    /// The computation returned.
    Resolved(Result<V, E>),
    /// The computation panicked.
    Panicked,
    /// The value was put into the cache.
    ValueInserted,
    /// The waiter under the key holds this.
    Waiter(WaiterValue<V, E>),
    /// The attempt was given up.
    Aborted,
}

/// Where an attempt stands.
pub enum InitState<V> {
    /// A waiter is being put under the key.
    Inserting,
    /// Our waiter is under the key, and the value is looked for in the cache.
    Checking,
    /// Our waiter is under the key, and the value is being computed.
    Resolving,
    /// Our waiter is under the key, and the value is being put into the cache.
    Storing(V),
    /// Somebody else's waiter is under the key, and is being read.
    Reading,
    /// The attempt has ended.
    Done,
}

/// An attempt to get a value.
pub struct Initialization<V> {
    pub state: InitState<V>,
    pub retries: usize,
}

impl<V> Initialization<V> {
    /// Fewer retries than are allowed were made.
    pub open spec fn wf(self) -> bool {
        self.retries < MAX_RETRIES
    }

    /// Our waiter is under the key.
    pub open spec fn owns_waiter(self) -> bool {
        self.state is Checking || self.state is Resolving || self.state is Storing
    }

    /// This may come of what is being done.
    pub open spec fn expects<E>(self, event: InitEvent<V, E>) -> bool {
        match event {
            InitEvent::WaiterInserted | InitEvent::WaiterExists => self.state is Inserting,
            InitEvent::Existing(_) => self.state is Checking,
            InitEvent::Resolved(_) | InitEvent::Panicked => self.state is Resolving,
            InitEvent::ValueInserted => self.state is Storing,
            InitEvent::Waiter(_) => self.state is Reading,
            InitEvent::Aborted => !(self.state is Done),
        }
    }

    pub open spec fn at(self, state: InitState<V>) -> Self {
        Initialization { state, ..self }
    }

    /// The attempt starts over, unless it did so too often.
    pub open spec fn retried<E>(self, too_many: Outcome<V, E>) -> (Self, InitAction<V, E>) {
        if self.retries + 1 >= MAX_RETRIES {
            (
                self.at(InitState::Done),
                InitAction::Finish { waiter: WaiterSetting::NotOurs, outcome: too_many },
            )
        } else {
            (
                Initialization { state: InitState::Inserting, retries: (self.retries + 1) as usize },
                InitAction::InsertWaiter,
            )
        }
    }

    /// The attempt ends.
    pub open spec fn ended<E>(self, waiter: WaiterSetting, outcome: Outcome<V, E>) -> (
        Self,
        InitAction<V, E>,
    ) {
        (self.at(InitState::Done), InitAction::Finish { waiter, outcome })
    }

    /// Where the attempt stands after something came of what was done, and what is to be done
    /// next.
    pub open spec fn stepped<E>(self, event: InitEvent<V, E>) -> (Self, InitAction<V, E>) {
        match event {
            InitEvent::WaiterInserted => (self.at(InitState::Checking), InitAction::GetExisting),
            InitEvent::WaiterExists => (self.at(InitState::Reading), InitAction::ReadWaiter),
            InitEvent::Existing(Some(value)) => self.ended(
                WaiterSetting::Returned,
                Outcome::Return(InitResult::ReadExisting(value)),
            ),
            InitEvent::Existing(None) => (self.at(InitState::Resolving), InitAction::ResolveInit),
            InitEvent::Resolved(Ok(value)) => (
                self.at(InitState::Storing(value)),
                InitAction::InsertValue,
            ),
            InitEvent::Resolved(Err(e)) => self.ended(
                WaiterSetting::Returned,
                Outcome::Return(InitResult::InitErr(e)),
            ),
            InitEvent::Panicked => self.ended(
                WaiterSetting::InitFuturePanicked,
                Outcome::ResumeUnwind,
            ),
            InitEvent::ValueInserted => self.ended(
                WaiterSetting::Returned,
                Outcome::Return(InitResult::Initialized(self.state->Storing_0)),
            ),
            InitEvent::Waiter(WaiterValue::Ready(Ok(value))) => self.ended(
                WaiterSetting::NotOurs,
                Outcome::Return(InitResult::ReadExisting(value)),
            ),
            InitEvent::Waiter(WaiterValue::Ready(Err(e))) => self.ended(
                WaiterSetting::NotOurs,
                Outcome::Return(InitResult::InitErr(e)),
            ),
            InitEvent::Waiter(WaiterValue::InitFuturePanicked) => self.retried(
                Outcome::TooManyPanics((self.retries + 1) as usize),
            ),
            InitEvent::Waiter(WaiterValue::EnclosingFutureAborted) => self.retried(
                Outcome::TooManyAborts((self.retries + 1) as usize),
            ),
            InitEvent::Waiter(WaiterValue::Computing) => self.ended(
                WaiterSetting::NotOurs,
                Outcome::UnexpectedComputing,
            ),
            InitEvent::Aborted => self.ended(
                if self.owns_waiter() {
                    WaiterSetting::EnclosingFutureAborted
                } else {
                    WaiterSetting::NotOurs
                },
                Outcome::Aborted,
            ),
        }
    }

    /// An attempt begins with a waiter.
    pub fn new<E>() -> (r: (Self, InitAction<V, E>))
        ensures
            r.0 == (Initialization::<V> { state: InitState::Inserting, retries: 0 }),
            r.0.wf(),
            r.1 is InsertWaiter,
    {
        (Initialization { state: InitState::Inserting, retries: 0 }, InitAction::InsertWaiter)
    }

    /// The value that is being put into the cache.
    pub fn value(&self) -> (r: Option<&V>)
        ensures
            match self.state {
                InitState::Storing(v) => r == Some(&v),
                _ => r is None,
            },
    {
        match &self.state {
            InitState::Storing(v) => Some(v),
            _ => None,
        }
    }

    fn finish<E>(retries: usize, waiter: WaiterSetting, outcome: Outcome<V, E>) -> (r: (
        Self,
        InitAction<V, E>,
    ))
        ensures
            r == (
                Initialization::<V> { state: InitState::Done, retries },
                InitAction::Finish { waiter, outcome },
            ),
    {
        (Initialization { state: InitState::Done, retries }, InitAction::Finish { waiter, outcome })
    }

    /// Goes on after something came of what was done.
    pub fn try_init_or_read<E>(self, event: InitEvent<V, E>) -> (r: (Self, InitAction<V, E>))
        requires
            self.wf(),
            self.expects(event),
        ensures
            r.0.wf(),
            r == self.stepped(event),
    {
        let retries: usize = self.retries;
        match event {
            InitEvent::WaiterInserted => (
                Initialization { state: InitState::Checking, retries },
                InitAction::GetExisting,
            ),
            InitEvent::WaiterExists => (
                Initialization { state: InitState::Reading, retries },
                InitAction::ReadWaiter,
            ),
            InitEvent::Existing(existing) => match existing {
                Some(value) => Self::finish(
                    retries,
                    WaiterSetting::Returned,
                    Outcome::Return(InitResult::ReadExisting(value)),
                ),
                None => (
                    Initialization { state: InitState::Resolving, retries },
                    InitAction::ResolveInit,
                ),
            },
            InitEvent::Resolved(resolved) => match resolved {
                Ok(value) => (
                    Initialization { state: InitState::Storing(value), retries },
                    InitAction::InsertValue,
                ),
                Err(e) => Self::finish(
                    retries,
                    WaiterSetting::Returned,
                    Outcome::Return(InitResult::InitErr(e)),
                ),
            },
            InitEvent::Panicked => Self::finish(
                retries,
                WaiterSetting::InitFuturePanicked,
                Outcome::ResumeUnwind,
            ),
            InitEvent::ValueInserted => match self.state {
                InitState::Storing(value) => Self::finish(
                    retries,
                    WaiterSetting::Returned,
                    Outcome::Return(InitResult::Initialized(value)),
                ),
                _ => vstd::pervasive::unreached(),
            },
            InitEvent::Waiter(waiter) => match waiter {
                WaiterValue::Ready(Ok(value)) => Self::finish(
                    retries,
                    WaiterSetting::NotOurs,
                    Outcome::Return(InitResult::ReadExisting(value)),
                ),
                WaiterValue::Ready(Err(e)) => Self::finish(
                    retries,
                    WaiterSetting::NotOurs,
                    Outcome::Return(InitResult::InitErr(e)),
                ),
                WaiterValue::InitFuturePanicked => {
                    if is_retry_exhausted(retries + 1, MAX_RETRIES) {
                        Self::finish(
                            retries,
                            WaiterSetting::NotOurs,
                            Outcome::TooManyPanics(retries + 1),
                        )
                    } else {
                        (
                            Initialization { state: InitState::Inserting, retries: retries + 1 },
                            InitAction::InsertWaiter,
                        )
                    }
                },
                WaiterValue::EnclosingFutureAborted => {
                    if is_retry_exhausted(retries + 1, MAX_RETRIES) {
                        Self::finish(
                            retries,
                            WaiterSetting::NotOurs,
                            Outcome::TooManyAborts(retries + 1),
                        )
                    } else {
                        (
                            Initialization { state: InitState::Inserting, retries: retries + 1 },
                            InitAction::InsertWaiter,
                        )
                    }
                },
                WaiterValue::Computing => Self::finish(
                    retries,
                    WaiterSetting::NotOurs,
                    Outcome::UnexpectedComputing,
                ),
            },
            InitEvent::Aborted => {
                let waiter = match self.state {
                    InitState::Checking | InitState::Resolving | InitState::Storing(_) => WaiterSetting::EnclosingFutureAborted,
                    _ => WaiterSetting::NotOurs,
                };
                Self::finish(retries, waiter, Outcome::Aborted)
            },
        }
    }
}

/// Whether no further retry is allowed.
pub fn is_retry_exhausted(retries: usize, max: usize) -> (r: bool)
    ensures
        r == (retries >= max),
{
    retries >= max
}

/// There is no value, and the computation gave none.
#[derive(Clone, Copy, Debug, PartialEq, Eq, Structural)]
pub struct OptionallyNone;

/// A computation that always gives a value.
pub fn post_init_for_get_with<V>(value: V) -> (r: Result<V, ()>)
    ensures
        r == Ok::<V, ()>(value),
{
    Ok(value)
}

/// A computation that may give no value.
pub fn post_init_for_optionally_get_with<V>(value: Option<V>) -> (r: Result<V, OptionallyNone>)
    ensures
        r == match value {
            Some(v) => Ok::<V, OptionallyNone>(v),
            None => Err::<V, OptionallyNone>(OptionallyNone),
        },
{
    match value {
        Some(v) => Ok(v),
        None => Err(OptionallyNone),
    }
}

/// A computation that may fail.
pub fn post_init_for_try_get_with<V, E>(result: Result<V, E>) -> (r: Result<V, E>)
    ensures
        r == result,
{
    result
}

/// Whoever's waiter is under the key removes it when the attempt ends, however it ends; and
/// nobody removes somebody else's.
pub proof fn owner_removes_waiter<V, E>(a: Initialization<V>, event: InitEvent<V, E>)
    requires
        a.expects(event),
    ensures
        a.stepped(event).1 matches InitAction::Finish { waiter, outcome } ==> (waiter
            != WaiterSetting::NotOurs <==> a.owns_waiter()),
        a.owns_waiter() ==> a.stepped(event).0.owns_waiter() || a.stepped(event).1 is Finish,
        a.stepped(event).1 is Finish <==> a.stepped(event).0.state is Done,
{
}

/// What the others are told is what the one who computed the value returns, and only a value
/// that was put into the cache is returned as computed.
pub proof fn computed_value_is_stored<V, E>(a: Initialization<V>, event: InitEvent<V, E>)
    requires
        a.expects(event),
    ensures
        match a.stepped(event).1 {
            InitAction::Finish { waiter, outcome: Outcome::Return(InitResult::Initialized(v)) } => {
                &&& waiter == WaiterSetting::Returned
                &&& a.state == InitState::Storing(v)
                &&& event is ValueInserted
            },
            _ => true,
        },
        a.stepped(event).0.state matches InitState::Storing(v) ==> event == InitEvent::<V, E>::Resolved(Ok(v)),
{
}

/// Where an attempt stands after some events.
pub open spec fn after_events<V, E>(a: Initialization<V>, events: Seq<InitEvent<V, E>>) -> Initialization<V>
    decreases events.len(),
{
    if events.len() == 0 {
        a
    } else {
        after_events(a, events.drop_last()).stepped(events.last()).0
    }
}

/// The number of times that somebody else was found to have failed.
pub open spec fn failures<V, E>(events: Seq<InitEvent<V, E>>) -> int
    decreases events.len(),
{
    if events.len() == 0 {
        0
    } else {
        failures(events.drop_last()) + match events.last() {
            InitEvent::Waiter(WaiterValue::InitFuturePanicked) => 1int,
            InitEvent::Waiter(WaiterValue::EnclosingFutureAborted) => 1int,
            _ => 0int,
        }
    }
}

/// Every event of a run is one that may come of what was being done.
pub open spec fn is_run<V, E>(a: Initialization<V>, events: Seq<InitEvent<V, E>>) -> bool
    decreases events.len(),
{
    events.len() == 0 || (is_run(a, events.drop_last()) && after_events(a, events.drop_last()).expects(
        events.last(),
    ))
}

/// An attempt does not go on for ever on account of others who fail: it ends at the latest with
/// the last retry that is allowed.
pub proof fn retries_are_bounded<V, E>(events: Seq<InitEvent<V, E>>)
    requires
        is_run(Initialization::<V> { state: InitState::Inserting, retries: 0 }, events),
    ensures
        ({
            let a = after_events(Initialization::<V> { state: InitState::Inserting, retries: 0 }, events);
            &&& a.wf()
            &&& failures(events) <= MAX_RETRIES
            &&& !(a.state is Done) ==> failures(events) == a.retries
            &&& failures(events) == MAX_RETRIES ==> a.state is Done
        }),
    decreases events.len(),
{
    let start = Initialization::<V> { state: InitState::Inserting, retries: 0 };
    if events.len() > 0 {
        retries_are_bounded(events.drop_last());
        let before = after_events(start, events.drop_last());
        assert(before.expects(events.last()));
    }
}

/// A panic is that of the one whose computation panicked: nobody else panics, and who waited for
/// the value starts over, unless that happened too often.
pub proof fn panic_stays_with_its_caller<V, E>(a: Initialization<V>, event: InitEvent<V, E>)
    requires
        a.expects(event),
    ensures
        event is Panicked <==> (a.stepped(event).1 matches InitAction::Finish { waiter, outcome }
            && outcome is ResumeUnwind),
        event is Panicked ==> (a.stepped(event).1 matches InitAction::Finish { waiter, outcome }
            && waiter == WaiterSetting::InitFuturePanicked),
        event == InitEvent::<V, E>::Waiter(WaiterValue::InitFuturePanicked) && a.retries + 1
            < MAX_RETRIES ==> a.stepped(event).1 is InsertWaiter && a.stepped(event).0.state is Inserting,
{
}

/// A value that is found, in the cache or with somebody else who computed it, is returned at once, and only
/// such a value is returned as found. The same holds of an error, be it our own or that of somebody else.
pub proof fn found_value_is_returned<V, E>(a: Initialization<V>, event: InitEvent<V, E>, v: V, e: E)
    requires
        a.expects(event),
    ensures
        event == InitEvent::<V, E>::Existing(Some(v)) || event == InitEvent::<V, E>::Waiter(
            WaiterValue::Ready(Ok(v)),
        ) <==> (a.stepped(event).1 matches InitAction::Finish { waiter, outcome } && outcome
            == Outcome::<V, E>::Return(InitResult::ReadExisting(v))),
        event == InitEvent::<V, E>::Resolved(Err(e)) || event == InitEvent::<V, E>::Waiter(
            WaiterValue::Ready(Err(e)),
        ) <==> (a.stepped(event).1 matches InitAction::Finish { waiter, outcome } && outcome
            == Outcome::<V, E>::Return(InitResult::InitErr(e))),
{
}

/// A value is computed exactly after our waiter came under the key and the value was not in the cache, and
/// is put into the cache exactly when it was computed.
pub proof fn value_is_computed_where_it_is_missing<V, E>(a: Initialization<V>, event: InitEvent<V, E>, v: V)
    requires
        a.expects(event),
    ensures
        a.stepped(event).1 is ResolveInit <==> a.state is Checking && event == InitEvent::<V, E>::Existing(None),
        a.stepped(event).0.state is Resolving <==> a.stepped(event).1 is ResolveInit,
        a.stepped(event).1 is InsertValue <==> event is Resolved && event->Resolved_0 is Ok,
        event == InitEvent::<V, E>::Resolved(Ok(v)) ==> a.stepped(event).0.state == InitState::Storing(v),
        a.state == InitState::Storing(v) && event is ValueInserted ==> (a.stepped(event).1
            matches InitAction::Finish { waiter, outcome } && outcome == Outcome::<V, E>::Return(
            InitResult::Initialized(v),
        )),
        event is WaiterInserted ==> a.stepped(event).1 is GetExisting && a.stepped(event).0.state is Checking,
        event is WaiterExists ==> a.stepped(event).1 is ReadWaiter && a.stepped(event).0.state is Reading,
{
}

/// Who waited for somebody who panicked, or who was given up, starts over, and each time counts; the
/// two hundredth time is told as the reason to end.
pub proof fn two_hundredth_failure_ends_it<V, E>(a: Initialization<V>, event: InitEvent<V, E>)
    requires
        a.wf(),
        a.expects(event),
        event == InitEvent::<V, E>::Waiter(WaiterValue::InitFuturePanicked) || event == InitEvent::<V, E>::Waiter(
            WaiterValue::EnclosingFutureAborted,
        ),
    ensures
        a.retries < 200,
        a.retries < 199 ==> a.stepped(event).0.retries == a.retries + 1 && a.stepped(event).0.state is Inserting
            && a.stepped(event).1 is InsertWaiter,
        a.retries == 199 ==> (a.stepped(event).1 matches InitAction::Finish { waiter, outcome } && waiter
            == WaiterSetting::NotOurs && outcome == if event->Waiter_0 is InitFuturePanicked {
            Outcome::<V, E>::TooManyPanics(200)
        } else {
            Outcome::<V, E>::TooManyAborts(200)
        }),
{
}

} // verus!
