//! The scheduler of a bounded sweep.
//!
//! A sweep probes a list of units (hosts or ports), a bounded number of them
//! at a time.  The probes themselves block on the network, so they run
//! outside this library; the engine only decides.  Its caller asks for the
//! next action, starts a probe when told to dispatch one, waits for any
//! probe to finish when told to wait, and reports each finished probe back.
//! The engine keeps the books: which unit goes next, how many probes are
//! outstanding, and which units answered.

use vstd::prelude::*;
use crate::error::ScanError;

verus! {

/// The number of probes that a sweep runs at once unless it is told
/// otherwise.  Host sweeps and port sweeps use the same cap.
pub const DEFAULT_CAP: usize = 100;

/// Where one unit of a sweep stands.
#[derive(Clone, Copy, Debug, PartialEq, Eq, Structural)]
pub enum UnitStatus {
    /// Not handed out yet.
    Pending,
    /// Handed out; its probe has not reported back.
    InFlight,
    /// Its probe reported a negative result.
    Negative,
    /// Its probe reported a positive result.
    Positive,
}

/// What the caller of the engine has to do next.
#[derive(Clone, Copy, Debug, PartialEq, Eq, Structural)]
pub enum SweepAction {
    /// Start the probe of the unit with this index.
    Dispatch(usize),
    /// Every slot is taken, or nothing is left to hand out: wait for a probe
    /// to finish and report it.
    Wait,
    /// Every unit has been probed and has reported.
    Finished,
}

/// The state of a sweep as a mathematical value.
pub struct SweepState {
    /// The largest number of probes that may be outstanding at once.
    pub cap: nat,
    /// The number of units handed out so far; they are handed out in order.
    pub next: nat,
    /// The status of each unit.
    pub status: Seq<UnitStatus>,
}

impl SweepState {
    /// The state before anything was handed out.
    pub open spec fn initial(total: nat, cap: nat) -> SweepState {
        SweepState { cap, next: 0, status: Seq::new(total, |i: int| UnitStatus::Pending) }
    }

    /// The units whose probes are running.
    pub open spec fn in_flight(self) -> Set<int> {
        Set::new(|i: int| 0 <= i < self.status.len() && self.status[i] is InFlight)
    }

    /// The number of probes that are running.
    pub open spec fn outstanding(self) -> nat {
        self.in_flight().len()
    }

    /// The units that answered.
    pub open spec fn positive(self) -> Set<int> {
        Set::new(|i: int| 0 <= i < self.status.len() && self.status[i] is Positive)
    }

    /// The invariant of a sweep: units are handed out in order, exactly
    /// those handed out have left `Pending`, and the number of running
    /// probes stays within the cap.
    pub open spec fn wf(self) -> bool {
        &&& self.cap >= 1
        &&& self.next <= self.status.len()
        &&& forall|i: int|
            0 <= i < self.status.len() ==> (#[trigger] self.status[i] is Pending <==> i >= self.next)
        &&& self.outstanding() <= self.cap
    }

    /// Whether a further unit may be handed out now.
    pub open spec fn can_dispatch(self) -> bool {
        self.next < self.status.len() && self.outstanding() < self.cap
    }

    /// The state after the next unit was handed out.
    pub open spec fn dispatch(self) -> SweepState {
        SweepState {
            cap: self.cap,
            next: self.next + 1,
            status: self.status.update(self.next as int, UnitStatus::InFlight),
        }
    }

    /// Whether a report about `unit` is expected.
    pub open spec fn accepts(self, unit: int) -> bool {
        0 <= unit < self.status.len() && self.status[unit] is InFlight
    }

    /// The state after the probe of `unit` reported `positive`.
    pub open spec fn complete(self, unit: int, positive: bool) -> SweepState {
        SweepState {
            cap: self.cap,
            next: self.next,
            status: self.status.update(
                unit,
                if positive {
                    UnitStatus::Positive
                } else {
                    UnitStatus::Negative
                },
            ),
        }
    }

    /// Whether every unit was handed out and has reported.
    pub open spec fn finished(self) -> bool {
        self.next == self.status.len() && self.outstanding() == 0
    }

    /// Whether the sweep has recorded the outcomes of the probes faithfully:
    /// `outcome` says of each unit how its probe turns out, and every unit
    /// that has reported stands as its probe turned out.
    pub open spec fn agrees_with(self, outcome: spec_fn(int) -> bool) -> bool {
        forall|i: int|
            0 <= i < self.status.len() ==> (#[trigger] self.status[i] is Positive ==> outcome(i))
                && (self.status[i] is Negative ==> !outcome(i))
    }

    /// The steps that the sweep still has to take: one to hand out each
    /// unit that is left, and one to take each report that is due.
    pub open spec fn work_left(self) -> nat {
        (2 * (self.status.len() - self.next) + self.outstanding()) as nat
    }

    /// What the engine answers in this state when asked for the next action.
    pub open spec fn action(self) -> SweepAction {
        if self.can_dispatch() {
            SweepAction::Dispatch(self.next as usize)
        } else if self.outstanding() > 0 {
            SweepAction::Wait
        } else {
            SweepAction::Finished
        }
    }

    /// The state after the engine was asked for the next action.
    pub open spec fn after_action(self) -> SweepState {
        if self.can_dispatch() {
            self.dispatch()
        } else {
            self
        }
    }
}

/// The running probes are among the units, so they are finitely many, and
/// no more than the units.
pub proof fn lemma_in_flight_finite(state: SweepState)
    ensures
        state.in_flight().finite(),
        state.in_flight().len() <= state.status.len(),
{
    let range = vstd::set_lib::set_int_range(0, state.status.len() as int);
    vstd::set_lib::lemma_int_range(0, state.status.len() as int);
    assert(state.in_flight().subset_of(range));
    vstd::set_lib::lemma_len_subset(state.in_flight(), range);
}

/// A fresh sweep is well formed and has no probe running.
pub proof fn lemma_initial_wf(total: nat, cap: nat)
    requires
        cap >= 1,
    ensures
        SweepState::initial(total, cap).wf(),
        SweepState::initial(total, cap).outstanding() == 0,
{
    let state = SweepState::initial(total, cap);
    assert(state.in_flight() =~= Set::<int>::empty());
}

/// Handing out a unit keeps the sweep well formed and takes one more slot;
/// in particular the number of running probes stays within the cap.
pub proof fn lemma_dispatch_wf(state: SweepState)
    requires
        state.wf(),
        state.can_dispatch(),
    ensures
        state.dispatch().wf(),
        state.dispatch().outstanding() == state.outstanding() + 1,
        state.dispatch().outstanding() <= state.cap,
        state.dispatch().positive() == state.positive(),
        state.dispatch().work_left() == state.work_left() - 1,
{
    lemma_in_flight_finite(state);
    let after = state.dispatch();
    assert(state.status[state.next as int] is Pending);
    assert(after.in_flight() =~= state.in_flight().insert(state.next as int));
    assert(after.positive() =~= state.positive());
    assert forall|i: int| 0 <= i < after.status.len() implies (#[trigger] after.status[i]
        is Pending <==> i >= after.next) by {
        if i != state.next {
            assert(after.status[i] == state.status[i]);
        }
    }
}

/// A report about a running probe keeps the sweep well formed and frees one
/// slot; the unit joins the positive ones exactly if it answered.
pub proof fn lemma_complete_wf(state: SweepState, unit: int, positive: bool)
    requires
        state.wf(),
        state.accepts(unit),
    ensures
        state.complete(unit, positive).wf(),
        state.complete(unit, positive).outstanding() == state.outstanding() - 1,
        state.complete(unit, positive).positive() == if positive {
            state.positive().insert(unit)
        } else {
            state.positive()
        },
        state.complete(unit, positive).work_left() == state.work_left() - 1,
{
    lemma_in_flight_finite(state);
    let after = state.complete(unit, positive);
    assert(after.in_flight() =~= state.in_flight().remove(unit));
    assert(state.in_flight().contains(unit));
    if positive {
        assert(after.positive() =~= state.positive().insert(unit));
    } else {
        assert(after.positive() =~= state.positive());
    }
    assert forall|i: int| 0 <= i < after.status.len() implies (#[trigger] after.status[i]
        is Pending <==> i >= after.next) by {
        if i != unit {
            assert(after.status[i] == state.status[i]);
        }
    }
}

/// Whatever the engine is asked and told, the number of running probes
/// never exceeds the cap: asking for the next action keeps a well-formed
/// sweep well formed.
pub proof fn lemma_action_wf(state: SweepState)
    requires
        state.wf(),
    ensures
        state.after_action().wf(),
        state.after_action().outstanding() <= state.cap,
{
    if state.can_dispatch() {
        lemma_dispatch_wf(state);
    }
}

/// A sweep is never stuck: the engine says `Wait` only while a probe is
/// running, and `Finished` only when every unit has reported.
pub proof fn lemma_action_progress(state: SweepState)
    requires
        state.wf(),
    ensures
        state.action() is Wait ==> state.outstanding() > 0,
        state.action() is Finished <==> state.finished(),
        state.finished() <==> state.work_left() == 0,
        state.finished() ==> forall|i: int|
            0 <= i < state.status.len() ==> #[trigger] state.status[i] is Positive
                || state.status[i] is Negative,
{
    lemma_in_flight_finite(state);
    if state.finished() {
        assert forall|i: int| 0 <= i < state.status.len() implies #[trigger] state.status[i]
            is Positive || state.status[i] is Negative by {
            assert(!(state.status[i] is Pending));
            if state.status[i] is InFlight {
                assert(state.in_flight().contains(i));
            }
        }
    }
}

/// A fresh sweep has recorded nothing yet, so its record is faithful.
pub proof fn lemma_fresh_record_is_faithful(total: nat, cap: nat, outcome: spec_fn(int) -> bool)
    ensures
        SweepState::initial(total, cap).agrees_with(outcome),
{
}

/// Recording goes on faithfully: handing out a unit, and taking the report
/// of a probe with the outcome that the probe had, keep a faithful record
/// faithful.
pub proof fn lemma_record_stays_faithful(state: SweepState, outcome: spec_fn(int) -> bool, unit: int)
    requires
        state.agrees_with(outcome),
    ensures
        state.can_dispatch() ==> state.dispatch().agrees_with(outcome),
        state.after_action().agrees_with(outcome),
        state.accepts(unit) ==> state.complete(unit, outcome(unit)).agrees_with(outcome),
{
    if state.can_dispatch() {
        let after = state.dispatch();
        assert forall|i: int| 0 <= i < after.status.len() implies (#[trigger] after.status[i]
            is Positive ==> outcome(i)) && (after.status[i] is Negative ==> !outcome(i)) by {
            if i != state.next {
                assert(after.status[i] == state.status[i]);
            }
        }
    }
    if state.accepts(unit) {
        let after = state.complete(unit, outcome(unit));
        assert forall|i: int| 0 <= i < after.status.len() implies (#[trigger] after.status[i]
            is Positive ==> outcome(i)) && (after.status[i] is Negative ==> !outcome(i)) by {
            if i != unit {
                assert(after.status[i] == state.status[i]);
            }
        }
    }
}

/// No result is lost and none is made up: when a sweep with a faithful
/// record is finished, the units that answered are exactly the units whose
/// probes were positive.
pub proof fn lemma_finished_sweep_is_complete(state: SweepState, outcome: spec_fn(int) -> bool)
    requires
        state.wf(),
        state.finished(),
        state.agrees_with(outcome),
    ensures
        state.positive() == Set::new(|i: int| 0 <= i < state.status.len() && outcome(i)),
{
    lemma_action_progress(state);
    assert(state.positive() =~= Set::new(|i: int| 0 <= i < state.status.len() && outcome(i))) by {
        assert forall|i: int| 0 <= i < state.status.len() && outcome(i) implies state.status[i]
            is Positive by {
            assert(state.status[i] is Positive || state.status[i] is Negative);
        }
    }
}

/// The units among `units` whose status is `Positive`, in the order of the
/// units.  `units` names the units of the sweep, one for each status.
pub open spec fn answered_of<T>(status: Seq<UnitStatus>, units: Seq<T>) -> Seq<T>
    decreases status.len(),
{
    if status.len() == 0 || units.len() != status.len() {
        Seq::empty()
    } else {
        let init = answered_of(status.drop_last(), units.drop_last());
        if status.last() is Positive {
            init.push(units.last())
        } else {
            init
        }
    }
}

/// No result is lost and none is made up: a unit is among the answered
/// ones exactly if its status, at some position, is `Positive`.
pub proof fn lemma_answered_complete<T>(status: Seq<UnitStatus>, units: Seq<T>, unit: T)
    requires
        status.len() == units.len(),
    ensures
        answered_of(status, units).contains(unit) <==> exists|i: int|
            0 <= i < status.len() && #[trigger] status[i] is Positive && units[i] == unit,
        answered_of(status, units).len() <= status.len(),
    decreases status.len(),
{
    if status.len() > 0 {
        let init_status = status.drop_last();
        let init_units = units.drop_last();
        let init = answered_of(init_status, init_units);
        lemma_answered_complete(init_status, init_units, unit);
        let last = status.len() - 1;
        if answered_of(status, units).contains(unit) {
            let k = choose|k: int|
                0 <= k < answered_of(status, units).len() && answered_of(status, units)[k] == unit;
            if k < init.len() {
                assert(init[k] == unit);
                assert(init.contains(unit));
                let i = choose|i: int|
                    0 <= i < init_status.len() && #[trigger] init_status[i] is Positive
                        && init_units[i] == unit;
                assert(status[i] is Positive && units[i] == unit);
            } else {
                assert(status[last] is Positive && units[last] == unit);
            }
        }
        if exists|i: int| 0 <= i < status.len() && #[trigger] status[i] is Positive && units[i] == unit {
            let i = choose|i: int|
                0 <= i < status.len() && #[trigger] status[i] is Positive && units[i] == unit;
            if i < last {
                assert(init_status[i] is Positive && init_units[i] == unit);
                assert(init.contains(unit));
                let k = choose|k: int| 0 <= k < init.len() && init[k] == unit;
                assert(answered_of(status, units)[k] == unit);
            } else {
                assert(answered_of(status, units)[init.len() as int] == unit);
            }
        }
    }
}

/// Where the units are ports in ascending order, the answered ones come
/// out in ascending order too, and all lie below any port that is larger
/// than every unit.
pub proof fn lemma_answered_ascending(status: Seq<UnitStatus>, units: Seq<u16>)
    requires
        status.len() == units.len(),
        forall|a: int, b: int| 0 <= a < b < units.len() ==> units[a] < units[b],
    ensures
        forall|a: int, b: int|
            0 <= a < b < answered_of(status, units).len() ==> answered_of(status, units)[a]
                < answered_of(status, units)[b],
        forall|k: int|
            0 <= k < answered_of(status, units).len() && units.len() > 0 ==> answered_of(
                status,
                units,
            )[k] <= units.last(),
    decreases status.len(),
{
    if status.len() > 0 {
        let init_status = status.drop_last();
        let init_units = units.drop_last();
        lemma_answered_ascending(init_status, init_units);
        let init = answered_of(init_status, init_units);
        assert forall|k: int| 0 <= k < init.len() implies init[k] < units.last() by {
            assert(init_units.len() > 0);
            assert(init[k] <= init_units.last());
            assert(init_units.last() == units[units.len() - 2]);
        }
    }
}

/// The scheduler of one sweep.
pub struct SweepEngine {
    cap: usize,
    next: usize,
    outstanding: usize,
    status: Vec<UnitStatus>,
}

/// The state of the engine.  The engine also counts the running probes;
/// the count is no part of the state, because the statuses give it.
impl View for SweepEngine {
    type V = SweepState;

    closed spec fn view(&self) -> SweepState {
        SweepState { cap: self.cap as nat, next: self.next as nat, status: self.status@ }
    }
}

impl SweepEngine {
    /// The validity of an engine: its state is a well-formed sweep and its
    /// counter agrees with the statuses.
    pub closed spec fn wf(&self) -> bool {
        &&& self@.wf()
        &&& self.outstanding == self@.outstanding()
    }

    /// The state of a valid engine is a well-formed sweep; in particular
    /// no more probes are running than the cap allows.
    pub proof fn lemma_wf(&self)
        requires
            self.wf(),
        ensures
            self@.wf(),
            self@.outstanding() <= self@.cap,
    {
    }

    /// An engine for `total` units with at most `cap` probes at a time.
    /// A cap of zero could never make progress and is refused.
    pub fn new(total: usize, cap: usize) -> (made: Result<SweepEngine, ScanError>)
        ensures
            cap == 0 <==> made is Err,
            made matches Err(e) ==> e == ScanError::InvalidRange,
            made matches Ok(engine) ==> engine.wf() && engine@.wf() && engine@
                == SweepState::initial(total as nat, cap as nat) && engine@.outstanding() == 0,
    {
        if cap == 0 {
            return Err(ScanError::InvalidRange);
        }
        let mut status: Vec<UnitStatus> = Vec::new();
        let mut i: usize = 0;
        while i < total
            invariant
                i <= total,
                status@ == Seq::new(i as nat, |k: int| UnitStatus::Pending),
            decreases total - i,
        {
            status.push(UnitStatus::Pending);
            i += 1;
        }
        let engine = SweepEngine { cap, next: 0, outstanding: 0, status };
        proof {
            lemma_initial_wf(total as nat, cap as nat);
        }
        Ok(engine)
    }

    /// The number of units of the sweep.
    pub fn total(&self) -> (n: usize)
        ensures
            n == self@.status.len(),
    {
        self.status.len()
    }

    /// The largest number of probes that may run at once.
    pub fn cap(&self) -> (n: usize)
        ensures
            n == self@.cap,
    {
        self.cap
    }

    /// The number of probes that are running.
    pub fn outstanding(&self) -> (n: usize)
        requires
            self.wf(),
        ensures
            n == self@.outstanding(),
            n <= self@.cap,
    {
        self.outstanding
    }

    /// Whether every unit was handed out and has reported.
    pub fn is_finished(&self) -> (done: bool)
        requires
            self.wf(),
        ensures
            done == self@.finished(),
    {
        self.next == self.status.len() && self.outstanding == 0
    }

    /// Decides what happens next.  While a slot is free and a unit is left,
    /// the next unit in order is marked as running and handed out; else the
    /// caller waits for a running probe, or learns that the sweep is over.
    pub fn next_action(&mut self) -> (action: SweepAction)
        requires
            old(self).wf(),
        ensures
            final(self).wf(),
            final(self)@.wf(),
            action == old(self)@.action(),
            final(self)@ == old(self)@.after_action(),
            final(self)@.outstanding() == old(self)@.outstanding() + if action is Dispatch {
                1nat
            } else {
                0nat
            },
            final(self)@.outstanding() <= final(self)@.cap,
    {
        proof {
            lemma_action_wf(self@);
        }
        if self.next < self.status.len() && self.outstanding < self.cap {
            let unit = self.next;
            proof {
                lemma_dispatch_wf(self@);
            }
            self.status.set(unit, UnitStatus::InFlight);
            self.next = unit + 1;
            self.outstanding = self.outstanding + 1;
            SweepAction::Dispatch(unit)
        } else if self.outstanding > 0 {
            SweepAction::Wait
        } else {
            SweepAction::Finished
        }
    }

    /// Records that the probe of `unit` has finished, with a positive or a
    /// negative result.  A report about a unit that is not running (never
    /// handed out, already reported, or out of range) changes nothing and
    /// is answered with `false`.
    pub fn complete(&mut self, unit: usize, positive: bool) -> (accepted: bool)
        requires
            old(self).wf(),
        ensures
            final(self).wf(),
            final(self)@.wf(),
            accepted == old(self)@.accepts(unit as int),
            accepted ==> final(self)@ == old(self)@.complete(unit as int, positive),
            !accepted ==> final(self)@ == old(self)@,
            final(self)@.outstanding() == old(self)@.outstanding() - if accepted {
                1nat
            } else {
                0nat
            },
            final(self)@.outstanding() <= final(self)@.cap,
    {
        if unit >= self.status.len() {
            return false;
        }
        match self.status[unit] {
            UnitStatus::InFlight => {},
            _ => {
                return false;
            },
        }
        proof {
            lemma_complete_wf(self@, unit as int, positive);
        }
        let outcome = if positive {
            UnitStatus::Positive
        } else {
            UnitStatus::Negative
        };
        self.status.set(unit, outcome);
        self.outstanding = self.outstanding - 1;
        true
    }

    /// The status of `unit`, or `None` where the sweep has no such unit.
    pub fn status_of(&self, unit: usize) -> (status: Option<UnitStatus>)
        ensures
            status == if unit < self@.status.len() {
                Some(self@.status[unit as int])
            } else {
                None
            },
    {
        if unit < self.status.len() {
            Some(self.status[unit])
        } else {
            None
        }
    }

    /// The units that answered so far, in ascending order and each once.
    pub fn positives(&self) -> (found: Vec<usize>)
        ensures
            forall|a: int, b: int| 0 <= a < b < found@.len() ==> found@[a] < found@[b],
            forall|i: int| self@.positive().contains(i) <==> exists|k: int|
                0 <= k < found@.len() && #[trigger] found@[k] == i,
    {
        let mut found: Vec<usize> = Vec::new();
        let mut i: usize = 0;
        while i < self.status.len()
            invariant
                i <= self.status.len(),
                forall|a: int, b: int| 0 <= a < b < found@.len() ==> found@[a] < found@[b],
                forall|k: int| 0 <= k < found@.len() ==> found@[k] < i,
                forall|j: int|
                    (self@.positive().contains(j) && j < i) <==> exists|k: int|
                        0 <= k < found@.len() && #[trigger] found@[k] == j,
            decreases self.status.len() - i,
        {
            match self.status[i] {
                UnitStatus::Positive => {
                    let ghost before = found@;
                    found.push(i);
                    proof {
                        assert(found@[before.len() as int] == i);
                        assert forall|j: int|
                            (self@.positive().contains(j) && j < i + 1) implies exists|k: int|
                            0 <= k < found@.len() && #[trigger] found@[k] == j by {
                            if j < i {
                                let k = choose|k: int|
                                    0 <= k < before.len() && #[trigger] before[k] == j;
                                assert(found@[k] == j);
                            }
                        }
                        assert forall|j: int|
                            (exists|k: int|
                                0 <= k < found@.len() && #[trigger] found@[k]
                                    == j) implies self@.positive().contains(j) && j < i + 1 by {
                            let k = choose|k: int| 0 <= k < found@.len() && #[trigger] found@[k] == j;
                            if k < before.len() {
                                assert(before[k] == j);
                            }
                        }
                    }
                },
                _ => {},
            }
            i += 1;
        }
        found
    }

    /// The units that answered so far, in the order of the units.  `units`
    /// names the units of the sweep; a list of another length is refused
    /// with `None`.
    pub fn answered<T: Copy>(&self, units: &Vec<T>) -> (found: Option<Vec<T>>)
        ensures
            found is Some <==> units@.len() == self@.status.len(),
            found matches Some(list) ==> list@ == answered_of(self@.status, units@),
    {
        let n = self.status.len();
        if units.len() != n {
            return None;
        }
        let mut list: Vec<T> = Vec::new();
        let mut i: usize = 0;
        while i < n
            invariant
                i <= n,
                n == self.status@.len(),
                n == units@.len(),
                list@ == answered_of(self.status@.take(i as int), units@.take(i as int)),
            decreases n - i,
        {
            proof {
                assert(self.status@.take(i + 1).drop_last() == self.status@.take(i as int));
                assert(units@.take(i + 1).drop_last() == units@.take(i as int));
            }
            match self.status[i] {
                UnitStatus::Positive => {
                    list.push(units[i]);
                },
                _ => {},
            }
            i += 1;
        }
        proof {
            assert(self.status@.take(n as int) == self.status@);
            assert(units@.take(n as int) == units@);
        }
        Some(list)
    }
}

} // verus!
