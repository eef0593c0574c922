//! Many who ask for the value of one key at the same time.
use vstd::prelude::*;

use super::value_initializer::{
    owner_removes_waiter, InitAction, InitEvent, InitResult, InitState, Initialization, Outcome, WaiterSetting,
    WaiterValue, MAX_RETRIES,
};
use crate::common::concurrent::expiry::expired_by;
use crate::common::time::Instant;
use crate::dash::count_laws::{housekeeping_keeps_order, is_sound};
use crate::dash::laws::read_gives_back_what_was_written;
use crate::dash::state::CacheState;

verus! {

/// Many who ask for the value of one key at the same time, and the one of them whose waiter is
/// under the key.
pub struct Gathering<V> {
    pub attempts: Seq<Initialization<V>>,
    pub owner: Option<int>,
}

impl<V> Gathering<V> {
    /// The waiter under the key is that of the one who owns it.
    pub open spec fn wf(self) -> bool {
        forall|i: int|
            0 <= i < self.attempts.len() ==> ((#[trigger] self.attempts[i]).owns_waiter()
                <==> self.owner == Some(i))
    }

    /// This may come of what the `i`-th is doing: a waiter is put under the key only where there
    /// is none.
    pub open spec fn expects<E>(self, i: int, event: InitEvent<V, E>) -> bool {
        &&& 0 <= i < self.attempts.len()
        &&& self.attempts[i].expects(event)
        &&& event is WaiterInserted ==> self.owner is None
        &&& event is WaiterExists ==> self.owner is Some
    }

    /// The `i`-th goes on. Who ends removes the waiter, if it is theirs.
    pub open spec fn stepped<E>(self, i: int, event: InitEvent<V, E>) -> Self {
        let (attempt, action) = self.attempts[i].stepped(event);
        Gathering {
            attempts: self.attempts.update(i, attempt),
            owner: if event is WaiterInserted {
                Some(i)
            } else {
                match action {
                    InitAction::Finish { waiter, outcome } => if waiter == WaiterSetting::NotOurs {
                        self.owner
                    } else {
                        None
                    },
                    _ => self.owner,
                }
            },
        }
    }
}

/// Of all who ask for the value of a key at the same time, one at most computes it, whatever
/// they do.
pub proof fn one_at_most_computes<V, E>(g: Gathering<V>, i: int, event: InitEvent<V, E>, a: int, b: int)
    requires
        g.wf(),
        g.expects(i, event),
    ensures
        g.stepped(i, event).wf(),
        0 <= a < g.attempts.len() && 0 <= b < g.attempts.len() && g.stepped(i, event).attempts[a].state is Resolving
            && g.stepped(i, event).attempts[b].state is Resolving ==> a == b,
{
    let after = g.stepped(i, event);
    owner_removes_waiter(g.attempts[i], event);
    assert forall|j: int| 0 <= j < after.attempts.len() implies ((
    #[trigger] after.attempts[j]).owns_waiter() <==> after.owner == Some(j)) by {
        assert(g.attempts[j].owns_waiter() <==> g.owner == Some(j));
        assert(g.attempts[i].owns_waiter() <==> g.owner == Some(i));
    }
    if 0 <= a < g.attempts.len() && 0 <= b < g.attempts.len() && after.attempts[a].state is Resolving
        && after.attempts[b].state is Resolving {
        assert(after.attempts[a].owns_waiter());
        assert(after.attempts[b].owns_waiter());
    }
}

/// What came of a computation.
pub enum Computed<V, E> {
    Gave(Result<V, E>),
    Panicked,
}

/// What one who asks does next.
pub enum CallStep<V, E> {
    /// Looks for the value in the cache, before anything else.
    Read,
    /// Goes on with the attempt to get the value. Where the attempt is given up while the value is
    /// being put into the cache, `is_stored` says whether it got there.
    Attempt { event: InitEvent<V, E>, is_stored: bool },
}

/// What a waiter is set to by one who ends so.
pub open spec fn told<V, E>(outcome: Outcome<V, E>) -> WaiterValue<V, E> {
    match outcome {
        Outcome::Return(InitResult::Initialized(v)) => WaiterValue::Ready(Ok(v)),
        Outcome::Return(InitResult::ReadExisting(v)) => WaiterValue::Ready(Ok(v)),
        Outcome::Return(InitResult::InitErr(e)) => WaiterValue::Ready(Err(e)),
        Outcome::ResumeUnwind => WaiterValue::InitFuturePanicked,
        Outcome::Aborted => WaiterValue::EnclosingFutureAborted,
        _ => WaiterValue::Computing,
    }
}

/// What a waiter is set to by this setting.
pub open spec fn set_to<V, E>(setting: WaiterSetting, outcome: Outcome<V, E>) -> WaiterValue<V, E> {
    match setting {
        WaiterSetting::Returned => told(outcome),
        WaiterSetting::InitFuturePanicked => WaiterValue::InitFuturePanicked,
        WaiterSetting::EnclosingFutureAborted => WaiterValue::EnclosingFutureAborted,
        WaiterSetting::NotOurs => WaiterValue::Computing,
    }
}

/// Many who ask for the value of one key, with the cache that they share. Nothing is evicted or
/// invalidated meanwhile. Computations may fail or panic, and whoever asks may give up.
pub struct Meeting<V, E> {
    pub gathering: Gathering<V>,
    /// Who has looked for the value in the cache.
    pub has_read: Seq<bool>,
    /// What each waiter that was ever put under the key holds.
    pub waiters: Seq<WaiterValue<V, E>>,
    /// Whose each waiter is.
    pub makers: Seq<int>,
    /// The waiter that each one owns or waits for.
    pub watched: Seq<int>,
    /// The value of the key in the cache.
    pub stored: Option<V>,
    /// What came of the computation of each one, if it was made.
    pub computed: Seq<Option<Computed<V, E>>>,
    /// How many computations gave a value.
    pub computations: nat,
    /// How many of these values were given up before they were put into the cache.
    pub lost: nat,
    /// How each one has ended.
    pub ended: Seq<Option<Outcome<V, E>>>,
}

impl<V, E> Meeting<V, E> {
    pub open spec fn len(self) -> int {
        self.gathering.attempts.len() as int
    }

    pub open spec fn is_storing(self) -> bool {
        self.gathering.owner is Some && self.gathering.attempts[self.gathering.owner->0].state is Storing
    }

    /// Nobody has asked for the value yet, and the key has none.
    pub open spec fn is_fresh(self) -> bool {
        &&& self.gathering.owner is None
        &&& self.has_read.len() == self.len()
        &&& self.waiters.len() == 0
        &&& self.makers.len() == 0
        &&& self.watched.len() == self.len()
        &&& self.stored is None
        &&& self.computed.len() == self.len()
        &&& self.computations == 0
        &&& self.lost == 0
        &&& self.ended.len() == self.len()
        &&& forall|i: int|
            0 <= i < self.len() ==> (#[trigger] self.gathering.attempts[i]).state is Inserting
        &&& forall|i: int| 0 <= i < self.len() ==> (#[trigger] self.computed[i]) is None
        &&& forall|i: int| 0 <= i < self.len() ==> (#[trigger] self.ended[i]) is None
    }

    /// The `i`-th may do this next. A waiter is read once it was set; what is found in the cache is
    /// what is there.
    pub open spec fn expects(self, i: int, step: CallStep<V, E>) -> bool {
        &&& 0 <= i < self.len()
        &&& match step {
            CallStep::Read => !self.has_read[i] && !(self.gathering.attempts[i].state is Done),
            CallStep::Attempt { event, is_stored } => {
                &&& self.has_read[i] || event is Aborted
                &&& self.gathering.expects(i, event)
                &&& event matches InitEvent::Existing(value) ==> value == self.stored
                &&& event matches InitEvent::Waiter(value) ==> value == self.waiters[self.watched[i]]
                    && !(value is Computing)
            },
        }
    }

    /// The value that the step puts into the cache.
    pub open spec fn stores(self, i: int, step: CallStep<V, E>) -> Option<V> {
        match (self.gathering.attempts[i].state, step) {
            (
                InitState::Storing(value),
                CallStep::Attempt { event: InitEvent::ValueInserted, is_stored },
            ) => Some(value),
            (
                InitState::Storing(value),
                CallStep::Attempt { event: InitEvent::Aborted, is_stored: true },
            ) => Some(value),
            _ => None,
        }
    }

    /// The `i`-th goes on.
    pub open spec fn stepped(self, i: int, step: CallStep<V, E>) -> Self {
        match step {
            CallStep::Read => match self.stored {
                Some(value) => Meeting {
                    gathering: Gathering {
                        attempts: self.gathering.attempts.update(
                            i,
                            self.gathering.attempts[i].at(InitState::Done),
                        ),
                        ..self.gathering
                    },
                    has_read: self.has_read.update(i, true),
                    ended: self.ended.update(
                        i,
                        Some(Outcome::Return(InitResult::ReadExisting(value))),
                    ),
                    ..self
                },
                None => Meeting { has_read: self.has_read.update(i, true), ..self },
            },
            CallStep::Attempt { event, is_stored } => self.attempted(i, event, step),
        }
    }

    pub open spec fn attempted(self, i: int, event: InitEvent<V, E>, step: CallStep<V, E>) -> Self {
        let action = self.gathering.attempts[i].stepped(event).1;
        let is_storing = self.gathering.attempts[i].state is Storing;
        Meeting {
            gathering: self.gathering.stepped(i, event),
            has_read: self.has_read,
            waiters: match action {
                InitAction::GetExisting => self.waiters.push(WaiterValue::Computing),
                InitAction::Finish { waiter, outcome } => if waiter == WaiterSetting::NotOurs {
                    self.waiters
                } else {
                    self.waiters.update(self.watched[i], set_to(waiter, outcome))
                },
                _ => self.waiters,
            },
            makers: if action is GetExisting {
                self.makers.push(i)
            } else {
                self.makers
            },
            watched: match action {
                InitAction::GetExisting => self.watched.update(i, self.waiters.len() as int),
                InitAction::ReadWaiter => self.watched.update(
                    i,
                    self.watched[self.gathering.owner->0],
                ),
                _ => self.watched,
            },
            stored: match self.stores(i, step) {
                Some(value) => Some(value),
                None => self.stored,
            },
            computed: match event {
                InitEvent::Resolved(result) => self.computed.update(i, Some(Computed::Gave(result))),
                InitEvent::Panicked => self.computed.update(i, Some(Computed::Panicked)),
                _ => self.computed,
            },
            computations: match event {
                InitEvent::Resolved(Ok(_)) => self.computations + 1,
                _ => self.computations,
            },
            lost: if is_storing && event is Aborted && self.stores(i, step) is None {
                self.lost + 1
            } else {
                self.lost
            },
            ended: match action {
                InitAction::Finish { waiter, outcome } => self.ended.update(i, Some(outcome)),
                _ => self.ended,
            },
        }
    }

    /// A computation gave this error.
    pub open spec fn has_failed(self, e: E) -> bool {
        exists|j: int|
            0 <= j < self.len() && #[trigger] self.computed[j] == Some(
                Computed::<V, E>::Gave(Err(e)),
            )
    }

    /// A computation gave this value.
    pub open spec fn has_given(self, v: V) -> bool {
        exists|j: int|
            0 <= j < self.len() && #[trigger] self.computed[j] == Some(Computed::<V, E>::Gave(Ok(v)))
    }

    /// A computation panicked.
    pub open spec fn has_panicked(self) -> bool {
        exists|j: int|
            0 <= j < self.len() && #[trigger] self.computed[j] == Some(Computed::<V, E>::Panicked)
    }

    /// Somebody gave up.
    pub open spec fn has_aborted(self) -> bool {
        exists|j: int| 0 <= j < self.len() && (#[trigger] self.ended[j]) == Some(Outcome::<V, E>::Aborted)
    }

    /// The `i`-th may end so.
    pub open spec fn is_right_end(self, i: int, outcome: Outcome<V, E>) -> bool {
        match outcome {
            Outcome::Return(InitResult::Initialized(v)) => self.stored == Some(v) && self.computed[i]
                == Some(Computed::<V, E>::Gave(Ok(v))),
            Outcome::Return(InitResult::ReadExisting(v)) => self.stored == Some(v)
                && self.computed[i] is None,
            Outcome::Return(InitResult::InitErr(e)) => self.has_failed(e),
            Outcome::ResumeUnwind => self.computed[i] == Some(Computed::<V, E>::Panicked),
            Outcome::TooManyPanics(_) => self.has_panicked(),
            Outcome::TooManyAborts(_) => self.has_aborted(),
            Outcome::UnexpectedComputing => false,
            Outcome::Aborted => true,
        }
    }

    /// What came of the computation of the `i`-th is what they end with, unless they give up.
    pub open spec fn is_right_use(self, i: int, computed: Computed<V, E>) -> bool {
        match computed {
            Computed::Gave(Ok(v)) => {
                ||| self.gathering.attempts[i].state == InitState::Storing(v)
                ||| self.ended[i] == Some(Outcome::<V, E>::Return(InitResult::Initialized(v)))
                ||| self.ended[i] == Some(Outcome::<V, E>::Aborted)
            },
            Computed::Gave(Err(e)) => self.ended[i] == Some(
                Outcome::<V, E>::Return(InitResult::InitErr(e)),
            ),
            Computed::Panicked => self.ended[i] == Some(Outcome::<V, E>::ResumeUnwind),
        }
    }

    /// Where the `i`-th stands agrees with what is known of them.
    pub open spec fn is_right_place(self, i: int) -> bool {
        let a = self.gathering.attempts[i];
        &&& !self.has_read[i] ==> a.state is Inserting || a.state is Done
        &&& a.owns_waiter() || a.state is Reading ==> 0 <= self.watched[i] < self.waiters.len()
        &&& a.owns_waiter() ==> self.makers[self.watched[i]] == i
            && self.waiters[self.watched[i]] is Computing
        &&& a.state is Resolving || a.state is Storing ==> self.stored is None
        &&& self.computed[i] is Some ==> a.state is Storing || a.state is Done
        &&& a.state matches InitState::Storing(v) ==> self.computed[i] == Some(
            Computed::<V, E>::Gave(Ok(v)),
        )
        &&& a.state is Done <==> self.ended[i] is Some
    }

    /// A waiter is being computed for by its owner, or holds how the owner has ended.
    pub open spec fn is_right_waiter(self, w: int) -> bool {
        let maker = self.makers[w];
        &&& 0 <= maker < self.len()
        &&& if self.waiters[w] is Computing {
            self.gathering.owner == Some(maker) && self.watched[maker] == w
        } else {
            self.ended[maker] is Some && told(self.ended[maker]->0) == self.waiters[w]
        }
    }

    /// What holds at every point.
    pub open spec fn wf(self) -> bool {
        &&& self.gathering.wf()
        &&& self.gathering.owner is Some ==> 0 <= self.gathering.owner->0 < self.len()
        &&& self.has_read.len() == self.len()
        &&& self.watched.len() == self.len()
        &&& self.computed.len() == self.len()
        &&& self.ended.len() == self.len()
        &&& self.makers.len() == self.waiters.len()
        &&& forall|i: int| #![trigger self.gathering.attempts[i]] 0 <= i < self.len() ==> self.is_right_place(i)
        &&& forall|i: int|
            0 <= i < self.len() && (#[trigger] self.ended[i]) is Some ==> self.is_right_end(
                i,
                self.ended[i]->0,
            )
        &&& forall|i: int|
            0 <= i < self.len() && (#[trigger] self.computed[i]) is Some ==> self.is_right_use(
                i,
                self.computed[i]->0,
            )
        &&& forall|w: int|
            #![trigger self.waiters[w]]
            0 <= w < self.waiters.len() ==> self.is_right_waiter(w)
        &&& self.computations == self.lost + (if self.stored is Some {
            1int
        } else {
            0
        }) + (if self.is_storing() {
            1int
        } else {
            0
        })
        &&& self.lost > 0 ==> self.has_aborted()
        &&& self.stored is Some ==> self.has_given(self.stored->0)
    }
}

proof fn lemma_fresh<V, E>(m: Meeting<V, E>)
    requires
        m.is_fresh(),
    ensures
        m.wf(),
{
    assert forall|i: int| #![trigger m.gathering.attempts[i]] 0 <= i < m.len() implies m.is_right_place(i) by {
        assert(m.computed[i] is None);
        assert(m.ended[i] is None);
    }
}

/// Whoever has ended, failed or panicked before the step has done so after it.
proof fn lemma_kept<V, E>(m: Meeting<V, E>, i: int, step: CallStep<V, E>)
    requires
        m.wf(),
        m.expects(i, step),
    ensures
        ({
            let after = m.stepped(i, step);
            &&& after.len() == m.len()
            &&& forall|j: int|
                0 <= j < m.len() && (#[trigger] m.ended[j]) is Some ==> after.ended[j] == m.ended[j]
            &&& forall|j: int|
                0 <= j < m.len() && (#[trigger] m.computed[j]) is Some ==> after.computed[j]
                    == m.computed[j]
            &&& forall|e: E| m.has_failed(e) ==> #[trigger] after.has_failed(e)
            &&& forall|v: V| m.has_given(v) ==> #[trigger] after.has_given(v)
            &&& m.has_panicked() ==> after.has_panicked()
            &&& m.has_aborted() ==> after.has_aborted()
            &&& m.stored is Some ==> after.stored == m.stored
        }),
{
    let after = m.stepped(i, step);
    assert(m.is_right_place(i)) by {
        assert(m.gathering.attempts[i] == m.gathering.attempts[i]);
    }
    assert forall|j: int| 0 <= j < m.len() && (#[trigger] m.ended[j]) is Some implies after.ended[j]
        == m.ended[j] by {
        if j == i {
            assert(m.gathering.attempts[i].state is Done);
        }
    }
    assert forall|j: int| 0 <= j < m.len() && (#[trigger] m.computed[j]) is Some implies after.computed[j]
        == m.computed[j] by {}
    assert forall|e: E| m.has_failed(e) implies #[trigger] after.has_failed(e) by {
        let j = choose|j: int|
            0 <= j < m.len() && #[trigger] m.computed[j] == Some(Computed::<V, E>::Gave(Err(e)));
        assert(after.computed[j] == m.computed[j]);
    }
    assert forall|v: V| m.has_given(v) implies #[trigger] after.has_given(v) by {
        let j = choose|j: int|
            0 <= j < m.len() && #[trigger] m.computed[j] == Some(Computed::<V, E>::Gave(Ok(v)));
        assert(after.computed[j] == m.computed[j]);
    }
    if m.has_panicked() {
        let j = choose|j: int|
            0 <= j < m.len() && #[trigger] m.computed[j] == Some(Computed::<V, E>::Panicked);
        assert(after.computed[j] == m.computed[j]);
    }
    if m.has_aborted() {
        let j = choose|j: int| 0 <= j < m.len() && (#[trigger] m.ended[j]) == Some(Outcome::<V, E>::Aborted);
        assert(after.ended[j] == m.ended[j]);
    }
}

/// What one who asks is told agrees with how they set their waiter.
proof fn lemma_setting<V, E>(a: Initialization<V>, event: InitEvent<V, E>)
    requires
        a.expects(event),
        a.owns_waiter(),
    ensures
        a.stepped(event).1 matches InitAction::Finish { waiter, outcome } ==> {
            &&& waiter != WaiterSetting::NotOurs
            &&& set_to(waiter, outcome) == told(outcome)
            &&& !(told(outcome) is Computing)
        },
{
}

proof fn lemma_step_places<V, E>(m: Meeting<V, E>, i: int, step: CallStep<V, E>)
    requires
        m.wf(),
        m.expects(i, step),
    ensures
        ({
            let after = m.stepped(i, step);
            &&& after.gathering.wf()
            &&& after.gathering.owner is Some ==> 0 <= after.gathering.owner->0 < after.len()
            &&& after.makers.len() == after.waiters.len()
            &&& forall|j: int|
                #![trigger after.gathering.attempts[j]]
                0 <= j < after.len() ==> after.is_right_place(j)
        }),
{
    let after = m.stepped(i, step);
    let g = m.gathering;
    let a = g.attempts[i];
    assert(m.is_right_place(i));
    assert(a.owns_waiter() <==> g.owner == Some(i));
    match step {
        CallStep::Read => {
            assert forall|j: int| 0 <= j < after.len() implies ((
            #[trigger] after.gathering.attempts[j]).owns_waiter() <==> after.gathering.owner == Some(j)) by {
                assert(g.attempts[j].owns_waiter() <==> g.owner == Some(j));
            }
        },
        CallStep::Attempt { event, is_stored } => {
            one_at_most_computes(g, i, event, i, i);
            owner_removes_waiter(a, event);
        },
    }
    if g.owner is Some {
        assert(g.attempts[g.owner->0].owns_waiter());
        assert(m.is_right_place(g.owner->0));
    }
    assert forall|j: int|
        #![trigger after.gathering.attempts[j]]
        0 <= j < after.len() implies after.is_right_place(j) by {
        assert(m.is_right_place(j)) by {
            assert(g.attempts[j] == g.attempts[j]);
        }
        assert(g.attempts[j].owns_waiter() <==> g.owner == Some(j));
        if j != i && g.attempts[j].owns_waiter() {
            assert(!a.owns_waiter());
        }
    }
}

proof fn lemma_step_ends<V, E>(m: Meeting<V, E>, i: int, step: CallStep<V, E>)
    requires
        m.wf(),
        m.expects(i, step),
    ensures
        ({
            let after = m.stepped(i, step);
            &&& forall|j: int|
                0 <= j < after.len() && (#[trigger] after.ended[j]) is Some ==> after.is_right_end(
                    j,
                    after.ended[j]->0,
                )
            &&& forall|j: int|
                0 <= j < after.len() && (#[trigger] after.computed[j]) is Some
                    ==> after.is_right_use(j, after.computed[j]->0)
        }),
{
    let after = m.stepped(i, step);
    let g = m.gathering;
    let a = g.attempts[i];
    assert(m.is_right_place(i));
    lemma_kept(m, i, step);
    if a.state is Reading {
        let w = m.watched[i];
        assert(m.is_right_waiter(w)) by {
            assert(m.waiters[w] == m.waiters[w]);
        }
        let maker = m.makers[w];
        if m.ended[maker] is Some {
            assert(m.is_right_end(maker, m.ended[maker]->0));
        }
    }
    if after.ended[i] == Some(Outcome::<V, E>::Aborted) {
        assert(after.has_aborted());
    }
    if after.computed[i] == Some(Computed::<V, E>::Panicked) {
        assert(after.has_panicked());
    }
    if after.computed[i] is Some && after.computed[i]->0 is Gave && after.computed[i]->0->Gave_0 is Err {
        assert(after.has_failed(after.computed[i]->0->Gave_0->Err_0));
    }
    assert forall|j: int| 0 <= j < after.len() && (#[trigger] after.ended[j]) is Some implies after.is_right_end(
        j,
        after.ended[j]->0,
    ) by {
        if j == i {
            lemma_own_end(m, i, step);
        } else {
            assert(m.ended[j] is Some);
            assert(m.is_right_end(j, m.ended[j]->0));
        }
    }
    assert forall|j: int| 0 <= j < after.len() && (#[trigger] after.computed[j]) is Some implies after.is_right_use(
        j,
        after.computed[j]->0,
    ) by {
        if m.computed[j] is Some {
            assert(m.is_right_use(j, m.computed[j]->0));
        }
    }
}

/// Who ends with this step ends as they may.
proof fn lemma_own_end<V, E>(m: Meeting<V, E>, i: int, step: CallStep<V, E>)
    requires
        m.wf(),
        m.expects(i, step),
        m.stepped(i, step).ended[i] is Some,
    ensures
        m.stepped(i, step).is_right_end(i, m.stepped(i, step).ended[i]->0),
{
    let after = m.stepped(i, step);
    let g = m.gathering;
    let a = g.attempts[i];
    assert(m.is_right_place(i));
    lemma_kept(m, i, step);
    if after.computed[i] is Some {
        assert(after.computed[i] == after.computed[i]);
    }
    match step {
        CallStep::Read => {},
        CallStep::Attempt { event, is_stored } => {
            match event {
                InitEvent::Waiter(value) => {
                    let w = m.watched[i];
                    assert(m.is_right_waiter(w)) by {
                        assert(m.waiters[w] == m.waiters[w]);
                    }
                    let maker = m.makers[w];
                    let end = m.ended[maker]->0;
                    assert(m.is_right_end(maker, end));
                    match value {
                        WaiterValue::Ready(Ok(v)) => {
                            assert(m.stored == Some(v));
                        },
                        WaiterValue::Ready(Err(e)) => {
                            assert(m.has_failed(e));
                            assert(after.has_failed(e));
                        },
                        WaiterValue::InitFuturePanicked => {
                            assert(m.computed[maker] == Some(Computed::<V, E>::Panicked));
                            assert(m.has_panicked());
                        },
                        WaiterValue::EnclosingFutureAborted => {
                            assert(m.ended[maker] == Some(Outcome::<V, E>::Aborted));
                            assert(m.has_aborted());
                        },
                        WaiterValue::Computing => {},
                    }
                },
                InitEvent::Resolved(Err(e)) => {
                    assert(after.computed[i] == Some(Computed::<V, E>::Gave(Err(e))));
                    assert(after.has_failed(e));
                },
                _ => {},
            }
        },
    }
}

proof fn lemma_step_waiters<V, E>(m: Meeting<V, E>, i: int, step: CallStep<V, E>)
    requires
        m.wf(),
        m.expects(i, step),
    ensures
        ({
            let after = m.stepped(i, step);
            forall|w: int|
                #![trigger after.waiters[w]]
                0 <= w < after.waiters.len() ==> after.is_right_waiter(w)
        }),
{
    let after = m.stepped(i, step);
    let g = m.gathering;
    let a = g.attempts[i];
    assert(m.is_right_place(i));
    assert(a.owns_waiter() <==> g.owner == Some(i));
    lemma_kept(m, i, step);
    match step {
        CallStep::Read => {},
        CallStep::Attempt { event, is_stored } => {
            owner_removes_waiter(a, event);
            if a.owns_waiter() {
                lemma_setting(a, event);
            }
        },
    }
    assert forall|w: int|
        #![trigger after.waiters[w]]
        0 <= w < after.waiters.len() implies after.is_right_waiter(w) by {
        if w < m.waiters.len() {
            assert(m.is_right_waiter(w)) by {
                assert(m.waiters[w] == m.waiters[w]);
            }
            let maker = m.makers[w];
            if m.ended[maker] is Some {
                assert(after.ended[maker] == m.ended[maker]);
            }
            if g.owner == Some(maker) {
                assert(g.attempts[maker].owns_waiter());
            }
        }
    }
}

proof fn lemma_step_counts<V, E>(m: Meeting<V, E>, i: int, step: CallStep<V, E>)
    requires
        m.wf(),
        m.expects(i, step),
    ensures
        ({
            let after = m.stepped(i, step);
            &&& after.computations == after.lost + (if after.stored is Some {
                1int
            } else {
                0
            }) + (if after.is_storing() {
                1int
            } else {
                0
            })
            &&& after.lost > 0 ==> after.has_aborted()
            &&& after.stored is Some ==> after.has_given(after.stored->0)
        }),
{
    let after = m.stepped(i, step);
    let g = m.gathering;
    let a = g.attempts[i];
    assert(m.is_right_place(i));
    assert(a.owns_waiter() <==> g.owner == Some(i));
    lemma_kept(m, i, step);
    if g.owner is Some {
        assert(g.attempts[g.owner->0].owns_waiter());
    }
    if after.ended[i] == Some(Outcome::<V, E>::Aborted) {
        assert(after.has_aborted());
    }
    match step {
        CallStep::Read => {},
        CallStep::Attempt { event, is_stored } => {
            owner_removes_waiter(a, event);
        },
    }
    if m.stores(i, step) is Some {
        assert(after.computed[i] == m.computed[i]);
        assert(after.has_given(m.stores(i, step)->0));
    }
}

/// What holds of all who ask for a missing value at the same time holds at the start, and whatever
/// is done next keeps it so.
pub proof fn meeting_keeps_order<V, E>(m: Meeting<V, E>, i: int, step: CallStep<V, E>)
    ensures
        m.is_fresh() ==> m.wf(),
        m.wf() && m.expects(i, step) ==> m.stepped(i, step).wf(),
{
    if m.is_fresh() {
        lemma_fresh(m);
    }
    if m.wf() && m.expects(i, step) {
        lemma_kept(m, i, step);
        lemma_step_places(m, i, step);
        lemma_step_ends(m, i, step);
        lemma_step_waiters(m, i, step);
        lemma_step_counts(m, i, step);
    }
}

/// Of all who ask for a missing value at the same time, whatever fails: who returns a value returns
/// the one that is in the cache; who returns an error returns one that a computation gave; who
/// panics on account of a computation is the one who made it, except after too many panics of
/// others; and one computation at most gave a value that was not given up.
pub proof fn all_get_the_stored_value<V, E>(m: Meeting<V, E>, who: int)
    requires
        m.wf(),
        0 <= who < m.len(),
    ensures
        match m.ended[who] {
            Some(Outcome::Return(InitResult::Initialized(v))) => m.stored == Some(v) && m.computed[who]
                == Some(Computed::<V, E>::Gave(Ok(v))),
            Some(Outcome::Return(InitResult::ReadExisting(v))) => m.stored == Some(v),
            Some(Outcome::Return(InitResult::InitErr(e))) => m.has_failed(e),
            Some(Outcome::TooManyPanics(_)) => m.has_panicked(),
            Some(Outcome::TooManyAborts(_)) => m.has_aborted(),
            Some(Outcome::UnexpectedComputing) => false,
            _ => true,
        },
        m.ended[who] == Some(Outcome::<V, E>::ResumeUnwind) <==> m.computed[who] == Some(
            Computed::<V, E>::Panicked,
        ),
        m.computations <= m.lost + 1,
        !m.has_aborted() ==> m.computations <= 1,
{
    assert(m.is_right_place(who)) by {
        assert(m.gathering.attempts[who] == m.gathering.attempts[who]);
    }
    if m.ended[who] is Some {
        assert(m.is_right_end(who, m.ended[who]->0));
    }
    if m.computed[who] is Some {
        assert(m.is_right_use(who, m.computed[who]->0));
    }
    if m.is_storing() {
        let owner = m.gathering.owner->0;
        assert(m.is_right_place(owner)) by {
            assert(m.gathering.attempts[owner] == m.gathering.attempts[owner]);
        }
    }
}

/// Where no computation fails or panics, and nobody gives up, exactly one computation was made once
/// all have ended, all return its value, and that is the value in the cache.
pub proof fn one_computes_for_all<V, E>(m: Meeting<V, E>, who: int)
    requires
        m.wf(),
        0 <= who < m.len(),
        forall|j: int| 0 <= j < m.len() ==> (#[trigger] m.ended[j]) is Some,
        !m.has_panicked(),
        !m.has_aborted(),
        forall|e: E| !m.has_failed(e),
    ensures
        m.computations == 1,
        m.stored is Some,
        ({
            ||| m.ended[who] == Some(Outcome::<V, E>::Return(InitResult::Initialized(m.stored->0)))
            ||| m.ended[who] == Some(Outcome::<V, E>::Return(InitResult::ReadExisting(m.stored->0)))
        }),
        m.has_given(m.stored->0),
{
    all_get_the_stored_value(m, who);
    if m.ended[who] == Some(Outcome::<V, E>::ResumeUnwind) {
        assert(m.computed[who] == Some(Computed::<V, E>::Panicked));
        assert(m.has_panicked());
    }
    if m.ended[who] == Some(Outcome::<V, E>::Aborted) {
        assert(m.has_aborted());
    }
    if m.is_storing() {
        let owner = m.gathering.owner->0;
        assert(m.is_right_place(owner)) by {
            assert(m.gathering.attempts[owner] == m.gathering.attempts[owner]);
        }
        assert(m.ended[owner] is Some);
    }
}

/// Who waited for a computation that gave a value or an error returns it; who waited for one that
/// panicked or was given up starts over, with their own computation still to be made, unless they
/// did so too often.
pub proof fn waiting_ends_with_the_owner<V, E>(m: Meeting<V, E>, i: int, step: CallStep<V, E>)
    requires
        m.wf(),
        m.expects(i, step),
        m.gathering.attempts[i].state is Reading,
        !(step matches CallStep::Attempt { event, is_stored } && event is Aborted),
    ensures
        ({
            let after = m.stepped(i, step);
            let maker = m.makers[m.watched[i]];
            &&& maker != i
            &&& m.computed[i] is None
            &&& after.computed[i] is None
            &&& match m.ended[maker] {
                Some(Outcome::Return(InitResult::Initialized(v))) => after.ended[i] == Some(
                    Outcome::<V, E>::Return(InitResult::ReadExisting(v)),
                ),
                Some(Outcome::Return(InitResult::ReadExisting(v))) => after.ended[i] == Some(
                    Outcome::<V, E>::Return(InitResult::ReadExisting(v)),
                ),
                Some(Outcome::Return(InitResult::InitErr(e))) => after.ended[i] == Some(
                    Outcome::<V, E>::Return(InitResult::InitErr(e)),
                ),
                Some(Outcome::ResumeUnwind) | Some(Outcome::Aborted) => {
                    ||| after.ended[i] is None && after.gathering.attempts[i].state is Inserting
                    ||| m.gathering.attempts[i].retries + 1 >= MAX_RETRIES && (
                    after.ended[i]->0 is TooManyPanics || after.ended[i]->0 is TooManyAborts)
                },
                _ => false,
            }
        }),
{
    let w = m.watched[i];
    assert(m.is_right_place(i));
    assert(m.is_right_waiter(w)) by {
        assert(m.waiters[w] == m.waiters[w]);
    }
    assert(m.is_right_end(m.makers[w], m.ended[m.makers[w]]->0));
}

/// The cache goes from `before` to `after` while the `i`-th of those who ask goes on: the value that
/// is stored is put under the key, and nothing else changes what a read of the key gives.
pub open spec fn is_shared_step<V, E>(
    m: Meeting<V, E>,
    i: int,
    step: CallStep<V, E>,
    before: CacheState<V>,
    after: CacheState<V>,
    key: u64,
    hash: u64,
    now: Instant,
) -> bool {
    match m.stores(i, step) {
        Some(value) => exists|weight: u32| #[trigger]
            before.with_room(now).put(after, key, hash, value, weight, now),
        None => after.lookup(key, now) == before.lookup(key, now),
    }
}

/// All the while a read of the key gives the value that those who ask have stored, and so what they
/// return: this holds where the key had no value at first, and whatever they do next keeps it so.
/// It is left out that entries expire at once.
pub proof fn read_gives_the_stored_value<V, E>(
    m: Meeting<V, E>,
    i: int,
    step: CallStep<V, E>,
    before: CacheState<V>,
    after: CacheState<V>,
    key: u64,
    hash: u64,
    now: Instant,
)
    requires
        m.wf(),
        m.expects(i, step),
        is_sound(before),
        before.lookup(key, now) == m.stored,
        is_shared_step(m, i, step, before, after, key, hash, now),
        !expired_by(before.time_to_live, now, now),
        !expired_by(before.time_to_idle, now, now),
        before.valid_after is Some ==> before.valid_after->0.nanos <= now.nanos,
    ensures
        after.lookup(key, now) == m.stepped(i, step).stored,
{
    match m.stores(i, step) {
        Some(value) => {
            let weight = choose|weight: u32| #[trigger]
                before.with_room(now).put(after, key, hash, value, weight, now);
            before.lemma_with_room_settings(now);
            housekeeping_keeps_order(before, now);
            read_gives_back_what_was_written(
                before.with_room(now),
                after,
                key,
                hash,
                value,
                weight,
                now,
                now,
            );
        },
        None => {},
    }
}

/// The meeting after some steps, each with the one who did it.
pub open spec fn after_steps<V, E>(m: Meeting<V, E>, steps: Seq<(int, CallStep<V, E>)>) -> Meeting<V, E>
    decreases steps.len(),
{
    if steps.len() == 0 {
        m
    } else {
        after_steps(m, steps.drop_last()).stepped(steps.last().0, steps.last().1)
    }
}

/// Every step is one that may be done where the meeting then stands.
pub open spec fn is_course<V, E>(m: Meeting<V, E>, steps: Seq<(int, CallStep<V, E>)>) -> bool
    decreases steps.len(),
{
    steps.len() == 0 || (is_course(m, steps.drop_last()) && after_steps(m, steps.drop_last()).expects(
        steps.last().0,
        steps.last().1,
    ))
}

proof fn lemma_course<V, E>(m: Meeting<V, E>, steps: Seq<(int, CallStep<V, E>)>)
    requires
        m.is_fresh(),
        is_course(m, steps),
    ensures
        after_steps(m, steps).wf(),
        after_steps(m, steps).len() == m.len(),
    decreases steps.len(),
{
    if steps.len() == 0 {
        lemma_fresh(m);
    } else {
        lemma_course(m, steps.drop_last());
        let before = after_steps(m, steps.drop_last());
        meeting_keeps_order(before, steps.last().0, steps.last().1);
    }
}

/// Many call `get_with` for a missing value at the same time, in whatever order they go on. All who
/// return a value return the one in the cache. Only the one whose computation panicked panics with
/// it. One computation at most gives a value that is not given up; and where all have ended, no
/// computation failed or panicked, and nobody gave up, exactly one was made, and all return its
/// value.
pub proof fn get_with_by_many<V, E>(m: Meeting<V, E>, steps: Seq<(int, CallStep<V, E>)>, who: int)
    requires
        m.is_fresh(),
        is_course(m, steps),
        0 <= who < m.len(),
    ensures
        ({
            let last = after_steps(m, steps);
            &&& last.len() == m.len()
            &&& match last.ended[who] {
                Some(Outcome::Return(InitResult::Initialized(v))) => last.stored == Some(v),
                Some(Outcome::Return(InitResult::ReadExisting(v))) => last.stored == Some(v),
                Some(Outcome::Return(InitResult::InitErr(e))) => last.has_failed(e),
                _ => true,
            }
            &&& last.ended[who] == Some(Outcome::<V, E>::ResumeUnwind) <==> last.computed[who]
                == Some(Computed::<V, E>::Panicked)
            &&& last.computations <= last.lost + 1
            &&& {
                &&& forall|j: int| 0 <= j < last.len() ==> (#[trigger] last.ended[j]) is Some
                &&& !last.has_panicked()
                &&& !last.has_aborted()
                &&& forall|e: E| !last.has_failed(e)
            } ==> {
                &&& last.computations == 1
                &&& last.stored is Some
                &&& last.has_given(last.stored->0)
                &&& {
                    ||| last.ended[who] == Some(
                        Outcome::<V, E>::Return(InitResult::Initialized(last.stored->0)),
                    )
                    ||| last.ended[who] == Some(
                        Outcome::<V, E>::Return(InitResult::ReadExisting(last.stored->0)),
                    )
                }
            }
        }),
{
    let last = after_steps(m, steps);
    lemma_course(m, steps);
    all_get_the_stored_value(last, who);
    if (forall|j: int| 0 <= j < last.len() ==> (#[trigger] last.ended[j]) is Some)
        && !last.has_panicked() && !last.has_aborted() && (forall|e: E| !last.has_failed(e)) {
        one_computes_for_all(last, who);
    }
}

} // verus!
