//! The polling trigger as a machine: the driver performs the step that the
//! machine names (a fetch, a sleep, a wait for the next tick) and reports
//! what came of it; the machine answers with the items to dispatch.

use crate::output::{bindings, lemma_bindings_insert, ContextMap};
use crate::seen::{lemma_fresh, seen_in, spec_fresh, SeenSet};
use crate::strmap::StrMap;
use vstd::prelude::*;

verus! {

/// A scope is given up when this many seeding attempts have failed.
pub const MAX_SEED_ATTEMPTS: u32 = 10;

/// The seeding backoff doubles up to two to this power, in seconds.
pub const MAX_BACKOFF_EXPONENT: u32 = 5;

/// Two to the power `e`.
pub open spec fn pow2(e: nat) -> nat
    decreases e,
{
    if e == 0 {
        1
    } else {
        2 * pow2((e - 1) as nat)
    }
}

/// The seconds to wait after seeding attempt number `attempt` has failed:
/// two to the power of the attempt number, at most two to the fifth.
pub open spec fn spec_backoff_secs(attempt: nat) -> nat {
    pow2(
        if attempt < MAX_BACKOFF_EXPONENT {
            attempt
        } else {
            MAX_BACKOFF_EXPONENT as nat
        },
    )
}

/// The seconds to wait after seeding attempt number `attempt` has failed.
pub fn backoff_secs(attempt: u32) -> (seconds: u64)
    ensures
        seconds == spec_backoff_secs(attempt as nat),
        1 <= seconds <= 32,
{
    reveal_with_fuel(pow2, 6);
    if attempt == 0 {
        1
    } else if attempt == 1 {
        2
    } else if attempt == 2 {
        4
    } else if attempt == 3 {
        8
    } else if attempt == 4 {
        16
    } else {
        32
    }
}

/// Whether the trigger is still seeding its scopes or already polling them.
#[derive(Clone, Copy, Debug, PartialEq, Eq, Structural)]
pub enum Phase {
    Seeding,
    Polling,
}

/// What the driver has to do next.
#[derive(Clone, Copy, Debug, PartialEq, Eq, Structural)]
pub enum Step {
    /// Fetch the items that the scope at this place holds now, and report
    /// them with `fetched`, or the failure with `fetch_failed`.
    Fetch { scope: usize },
    /// Sleep for so many seconds, then call `woke`.
    Sleep { seconds: u64 },
    /// Wait for the next tick of the poll interval, then call `woke`.
    AwaitTick,
}

/// The state of a polling trigger.
pub struct TriggerModel {
    /// The configured scopes.
    pub scopes: Seq<Seq<char>>,
    /// What has been seen in each scope.
    pub seen: Map<Seq<char>, Set<u64>>,
    /// For every scope, whether a seeding fetch of it has succeeded. Only
    /// these scopes are polled.
    pub polled: Seq<bool>,
    pub phase: Phase,
    /// The place of the scope that seeding is at.
    pub cursor: nat,
    /// The number of the seeding attempt in flight, from one.
    pub attempt: nat,
    pub step: Step,
}

/// The flags of `n` scopes of which none has been seeded.
pub open spec fn none_seeded(n: nat) -> Seq<bool> {
    Seq::new(n, |i: int| false)
}

/// The flags after the scope at place `i` has been seeded.
pub open spec fn mark_seeded(polled: Seq<bool>, i: int) -> Seq<bool> {
    if 0 <= i < polled.len() {
        polled.update(i, true)
    } else {
        polled
    }
}

/// The fetch of the first polled scope at or after `from`, or the wait for
/// the next tick where there is none.
pub open spec fn next_polled(polled: Seq<bool>, from: nat) -> Step
    decreases polled.len() - from,
{
    if from >= polled.len() {
        Step::AwaitTick
    } else if polled[from as int] {
        Step::Fetch { scope: from as usize }
    } else {
        next_polled(polled, from + 1)
    }
}

/// Seeding turns to the scope at place `j`; past the last scope, polling
/// begins, with the scopes that were seeded.
pub open spec fn turn_to_scope(s: TriggerModel, j: nat) -> TriggerModel {
    if j < s.scopes.len() {
        TriggerModel { cursor: j, attempt: 1, step: Step::Fetch { scope: j as usize }, ..s }
    } else {
        TriggerModel {
            phase: Phase::Polling,
            cursor: j,
            attempt: 1,
            step: Step::AwaitTick,
            ..s
        }
    }
}

/// A trigger over `scopes` that has seen nothing yet.
pub open spec fn spec_start(scopes: Seq<Seq<char>>) -> TriggerModel {
    turn_to_scope(
        TriggerModel {
            scopes,
            seen: Map::empty(),
            polled: none_seeded(scopes.len()),
            phase: Phase::Seeding,
            cursor: 0,
            attempt: 1,
            step: Step::AwaitTick,
        },
        0,
    )
}

/// The state after a fetch has brought `items`, and the items to dispatch.
///
/// While seeding, the items become the record of the scope, the scope
/// counts as seeded, and nothing is dispatched. While polling, the new items join the record and are
/// dispatched in the order in which they came. A fetch that was not asked
/// for changes nothing.
pub open spec fn spec_fetched(s: TriggerModel, items: Seq<u64>) -> (TriggerModel, Seq<u64>) {
    match s.step {
        Step::Fetch { scope } => if scope < s.scopes.len() {
            let name = s.scopes[scope as int];
            match s.phase {
                Phase::Seeding => (
                    turn_to_scope(
                        TriggerModel {
                            seen: s.seen.insert(name, items.to_set()),
                            polled: mark_seeded(s.polled, scope as int),
                            ..s
                        },
                        (scope + 1) as nat,
                    ),
                    Seq::empty(),
                ),
                Phase::Polling => (
                    TriggerModel {
                        seen: s.seen.insert(name, seen_in(s.seen, name).union(items.to_set())),
                        step: next_polled(s.polled, (scope + 1) as nat),
                        ..s
                    },
                    spec_fresh(seen_in(s.seen, name), items),
                ),
            }
        } else {
            (s, Seq::empty())
        },
        _ => (s, Seq::empty()),
    }
}

/// The state after a fetch has failed.
///
/// While seeding, the scope is tried again after a backoff, until the
/// tenth attempt has failed: then it is given up, and will not be polled.
/// While polling, the scope is passed over until the next tick.
pub open spec fn spec_fetch_failed(s: TriggerModel) -> TriggerModel {
    match s.step {
        Step::Fetch { scope } => if scope < s.scopes.len() {
            match s.phase {
                Phase::Seeding => if s.attempt >= MAX_SEED_ATTEMPTS {
                    turn_to_scope(s, (scope + 1) as nat)
                } else {
                    TriggerModel {
                        attempt: s.attempt + 1,
                        step: Step::Sleep { seconds: spec_backoff_secs(s.attempt) as u64 },
                        ..s
                    }
                },
                Phase::Polling => TriggerModel {
                    step: next_polled(s.polled, (scope + 1) as nat),
                    ..s
                },
            }
        } else {
            s
        },
        _ => s,
    }
}

/// The state after the sleep is over or the tick has come: seeding fetches
/// its scope again, polling starts a round with the first polled scope.
pub open spec fn spec_woke(s: TriggerModel) -> TriggerModel {
    match (s.phase, s.step) {
        (Phase::Seeding, Step::Sleep { seconds }) => TriggerModel {
            step: Step::Fetch { scope: s.cursor as usize },
            ..s
        },
        (Phase::Polling, Step::AwaitTick) => TriggerModel { step: next_polled(s.polled, 0), ..s },
        _ => s,
    }
}

/// The state after `item` of `scope` has been marked as seen from outside
/// the loop, as a manual run of that item does.
pub open spec fn spec_marked(s: TriggerModel, scope: Seq<char>, item: u64) -> TriggerModel {
    TriggerModel { seen: s.seen.insert(scope, seen_in(s.seen, scope).insert(item)), ..s }
}

// ---------------------------------------------------------------------------
// The machine
// ---------------------------------------------------------------------------

/// A polling trigger: its scopes, what it has seen, and what it waits for.
pub struct PollingTrigger {
    scopes: Vec<String>,
    seen: SeenSet,
    polled: Vec<bool>,
    phase: Phase,
    cursor: usize,
    attempt: u32,
    step: Step,
}

/// The characters of each scope name.
pub open spec fn scope_names(v: Seq<String>) -> Seq<Seq<char>> {
    Seq::new(v.len(), |i: int| v[i]@)
}

impl PollingTrigger {
    /// The state of the trigger.
    pub closed spec fn view(&self) -> TriggerModel {
        TriggerModel {
            scopes: scope_names(self.scopes@),
            seen: self.seen@,
            polled: self.polled@,
            phase: self.phase,
            cursor: self.cursor as nat,
            attempt: self.attempt as nat,
            step: self.step,
        }
    }

    /// A trigger over `scopes` that has seen nothing. It begins by seeding
    /// the first scope; without scopes it begins to poll at once.
    pub fn new(scopes: Vec<String>) -> (t: Self)
        ensures
            t@ == spec_start(scope_names(scopes@)),
    {
        let mut t = PollingTrigger {
            scopes,
            seen: SeenSet::new(),
            polled: Vec::new(),
            phase: Phase::Seeding,
            cursor: 0,
            attempt: 1,
            step: Step::AwaitTick,
        };
        let mut i: usize = 0;
        while i < t.scopes.len()
            invariant
                i <= t.scopes@.len(),
                t.scopes == scopes,
                t.seen@ == Map::<Seq<char>, Set<u64>>::empty(),
                t.phase == Phase::Seeding,
                t.cursor == 0,
                t.attempt == 1,
                t.step == Step::AwaitTick,
                t.polled@ == none_seeded(i as nat),
            decreases t.scopes@.len() - i,
        {
            t.polled.push(false);
            assert(t.polled@ =~= none_seeded((i + 1) as nat));
            i = i + 1;
        }
        t.turn_to(0);
        t
    }

    /// What the driver has to do next.
    pub fn next_step(&self) -> (step: Step)
        ensures
            step == self@.step,
    {
        self.step
    }

    /// Whether the trigger is seeding or polling.
    pub fn phase(&self) -> (phase: Phase)
        ensures
            phase == self@.phase,
    {
        self.phase
    }

    /// The number of configured scopes.
    pub fn scope_count(&self) -> (n: usize)
        ensures
            n == self@.scopes.len(),
    {
        self.scopes.len()
    }

    /// The name of the scope at place `i`.
    pub fn scope_name(&self, i: usize) -> (name: Option<&String>)
        ensures
            match name {
                Some(n) => i < self@.scopes.len() && n@ == self@.scopes[i as int],
                None => i >= self@.scopes.len(),
            },
    {
        if i < self.scopes.len() {
            Some(&self.scopes[i])
        } else {
            None
        }
    }

    /// Whether `item` of `scope` has been seen.
    pub fn has_seen(&self, scope: &str, item: u64) -> (b: bool)
        ensures
            b == seen_in(self@.seen, scope@).contains(item),
    {
        self.seen.contains(scope, item)
    }

    /// The items seen in `scope`, each once, in no particular order.
    pub fn seen_items(&self, scope: &str) -> (list: Vec<u64>)
        ensures
            list@.no_duplicates(),
            list@.to_set() == seen_in(self@.seen, scope@),
    {
        self.seen.items(scope)
    }

    /// Whether the scope at place `i` is polled: whether a seeding fetch of
    /// it has succeeded.
    pub fn is_polled(&self, i: usize) -> (b: bool)
        ensures
            b == (i < self@.polled.len() && self@.polled[i as int]),
    {
        i < self.polled.len() && self.polled[i]
    }

    /// Whether `scope` has a record of seen items: it was seeded, or an
    /// item of it was marked as seen.
    pub fn is_seeded(&self, scope: &str) -> (b: bool)
        ensures
            b == self@.seen.dom().contains(scope@),
    {
        self.seen.is_seeded(scope)
    }

    /// Seeding turns to the scope at place `j`, or polling begins.
    fn turn_to(&mut self, j: usize)
        ensures
            final(self)@ == turn_to_scope(old(self)@, j as nat),
    {
        self.attempt = 1;
        self.cursor = j;
        if j < self.scopes.len() {
            self.step = Step::Fetch { scope: j };
        } else {
            self.phase = Phase::Polling;
            self.step = Step::AwaitTick;
        }
    }

    /// The fetch of the first polled scope at or after `from`, or the wait
    /// for the next tick.
    fn step_after(&self, from: usize) -> (step: Step)
        ensures
            step == next_polled(self.polled@, from as nat),
    {
        let mut i: usize = from;
        while i < self.polled.len()
            invariant
                next_polled(self.polled@, i as nat) == next_polled(self.polled@, from as nat),
            decreases self.polled@.len() - i,
        {
            if self.polled[i] {
                return Step::Fetch { scope: i };
            }
            i = i + 1;
        }
        Step::AwaitTick
    }

    /// Reports the items that the fetch has brought, and hands back the
    /// items to dispatch, one run each, in this order.
    pub fn fetched(&mut self, items: &[u64]) -> (dispatch: Vec<u64>)
        ensures
            final(self)@ == spec_fetched(old(self)@, items@).0,
            dispatch@ == spec_fetched(old(self)@, items@).1,
    {
        match self.step {
            Step::Fetch { scope } => {
                if scope < self.scopes.len() {
                    match self.phase {
                        Phase::Seeding => {
                            self.seen.seed(self.scopes[scope].as_str(), items);
                            if scope < self.polled.len() {
                                self.polled.set(scope, true);
                            }
                            self.turn_to(scope + 1);
                            Vec::new()
                        },
                        Phase::Polling => {
                            let fresh = self.seen.observe(self.scopes[scope].as_str(), items);
                            self.step = self.step_after(scope + 1);
                            fresh
                        },
                    }
                } else {
                    Vec::new()
                }
            },
            _ => Vec::new(),
        }
    }

    /// Reports that the fetch has failed.
    pub fn fetch_failed(&mut self)
        ensures
            final(self)@ == spec_fetch_failed(old(self)@),
    {
        match self.step {
            Step::Fetch { scope } => {
                if scope < self.scopes.len() {
                    match self.phase {
                        Phase::Seeding => {
                            if self.attempt >= MAX_SEED_ATTEMPTS {
                                self.turn_to(scope + 1);
                            } else {
                                self.step = Step::Sleep { seconds: backoff_secs(self.attempt) };
                                self.attempt = self.attempt + 1;
                            }
                        },
                        Phase::Polling => {
                            self.step = self.step_after(scope + 1);
                        },
                    }
                }
            },
            _ => {},
        }
    }

    /// Reports that the sleep is over, or that the tick has come.
    pub fn woke(&mut self)
        ensures
            final(self)@ == spec_woke(old(self)@),
    {
        match (self.phase, self.step) {
            (Phase::Seeding, Step::Sleep { seconds }) => {
                self.step = Step::Fetch { scope: self.cursor };
            },
            (Phase::Polling, Step::AwaitTick) => {
                self.step = self.step_after(0);
            },
            _ => {},
        }
    }

    /// Marks `item` of `scope` as seen, so that no poll dispatches it.
    pub fn mark_seen(&mut self, scope: &str, item: u64)
        ensures
            final(self)@ == spec_marked(old(self)@, scope@, item),
    {
        let mut one: Vec<u64> = Vec::new();
        one.push(item);
        let ghost before = seen_in(self.seen@, scope@);
        self.seen.observe(scope, one.as_slice());
        assert(before.union(one@.to_set()) =~= before.insert(item)) by {
            assert forall|x: u64| one@.contains(x) <==> x == item by {
                if x == item {
                    assert(one@[0] == item);
                }
            }
        }
    }
}

// ---------------------------------------------------------------------------
// Every item is dispatched at most once
// ---------------------------------------------------------------------------

/// What can happen to a polling trigger.
pub enum TriggerEvent {
    /// A fetch has brought these items.
    Fetched(Seq<u64>),
    /// A fetch has failed.
    FetchFailed,
    /// The sleep is over, or the tick has come.
    Woke,
    /// An item of a scope was marked as seen from outside the loop.
    Marked(Seq<char>, u64),
}

/// The items, each with the scope it was found in.
pub open spec fn in_scope(scope: Seq<char>, items: Seq<u64>) -> Seq<(Seq<char>, u64)> {
    Seq::new(items.len(), |i: int| (scope, items[i]))
}

/// The scope that the trigger is fetching, where it is fetching one.
pub open spec fn fetching(s: TriggerModel) -> Seq<char> {
    match s.step {
        Step::Fetch { scope } => s.scopes[scope as int],
        _ => Seq::empty(),
    }
}

/// The state after one event, and what the event had dispatched.
pub open spec fn spec_event(s: TriggerModel, e: TriggerEvent) -> (
    TriggerModel,
    Seq<(Seq<char>, u64)>,
) {
    match e {
        TriggerEvent::Fetched(items) => (
            spec_fetched(s, items).0,
            in_scope(fetching(s), spec_fetched(s, items).1),
        ),
        TriggerEvent::FetchFailed => (spec_fetch_failed(s), Seq::empty()),
        TriggerEvent::Woke => (spec_woke(s), Seq::empty()),
        TriggerEvent::Marked(scope, item) => (spec_marked(s, scope, item), Seq::empty()),
    }
}

/// The state after the events, and all that they had dispatched, in order.
pub open spec fn spec_run(s: TriggerModel, events: Seq<TriggerEvent>) -> (
    TriggerModel,
    Seq<(Seq<char>, u64)>,
)
    decreases events.len(),
{
    if events.len() == 0 {
        (s, Seq::empty())
    } else {
        let before = spec_run(s, events.drop_last());
        let last = spec_event(before.0, events.last());
        (last.0, before.1 + last.1)
    }
}

/// Nothing was dispatched twice, everything dispatched is recorded as seen,
/// and nothing is dispatched before polling begins.
pub open spec fn dispatched_once(s: TriggerModel, log: Seq<(Seq<char>, u64)>) -> bool {
    &&& log.no_duplicates()
    &&& forall|i: int|
        0 <= i < log.len() ==> seen_in(s.seen, (#[trigger] log[i]).0).contains(log[i].1)
    &&& s.phase == Phase::Seeding ==> log.len() == 0
}

/// One event keeps `dispatched_once`, and what it dispatches is recorded as
/// seen in the state that it leaves.
pub proof fn lemma_event_keeps_dispatched_once(
    s: TriggerModel,
    log: Seq<(Seq<char>, u64)>,
    e: TriggerEvent,
)
    requires
        dispatched_once(s, log),
    ensures
        dispatched_once(spec_event(s, e).0, log + spec_event(s, e).1),
        forall|i: int|
            0 <= i < spec_event(s, e).1.len() ==> seen_in(
                spec_event(s, e).0.seen,
                (#[trigger] spec_event(s, e).1[i]).0,
            ).contains(spec_event(s, e).1[i].1),
{
    let after = spec_event(s, e).0;
    let sent = spec_event(s, e).1;
    let all = log + sent;
    match e {
        TriggerEvent::Fetched(items) => {
            match s.step {
                Step::Fetch { scope } => {
                    if scope < s.scopes.len() && s.phase == Phase::Polling {
                        let name = s.scopes[scope as int];
                        let known = seen_in(s.seen, name);
                        let fresh = spec_fresh(known, items);
                        lemma_fresh(known, items);
                        assert(sent == in_scope(name, fresh));
                        assert forall|i: int| 0 <= i < all.len() implies seen_in(
                            after.seen,
                            (#[trigger] all[i]).0,
                        ).contains(all[i].1) by {
                            if i < log.len() {
                                assert(all[i] == log[i]);
                            } else {
                                let x = fresh[i - log.len()];
                                assert(fresh.contains(x));
                                assert(items.contains(x));
                            }
                        }
                        assert forall|i: int, j: int|
                            0 <= i < all.len() && 0 <= j < all.len() && i != j implies all[i]
                            != all[j] by {
                            if i < log.len() && j < log.len() {
                                assert(log[i] != log[j]);
                            } else if i >= log.len() && j >= log.len() {
                                assert(fresh[i - log.len()] != fresh[j - log.len()]);
                            } else {
                                let (old_one, new_one) = if i < log.len() {
                                    (i, j)
                                } else {
                                    (j, i)
                                };
                                let x = fresh[new_one - log.len()];
                                assert(fresh.contains(x));
                                assert(all[old_one] == log[old_one]);
                                assert(seen_in(s.seen, log[old_one].0).contains(log[old_one].1));
                            }
                        }
                        assert forall|i: int| 0 <= i < sent.len() implies seen_in(
                            after.seen,
                            (#[trigger] sent[i]).0,
                        ).contains(sent[i].1) by {
                            assert(all[log.len() + i] == sent[i]);
                        }
                    } else {
                        assert(sent.len() == 0);
                        assert(all =~= log);
                    }
                },
                _ => {
                    assert(all =~= log);
                },
            }
        },
        TriggerEvent::FetchFailed => {
            assert(all =~= log);
        },
        TriggerEvent::Woke => {
            assert(all =~= log);
        },
        TriggerEvent::Marked(scope, item) => {
            assert(all =~= log);
        },
    }
}

/// Whatever the fetches bring and whenever they fail, from the start of a
/// trigger on, no item of a scope is dispatched twice, and every item
/// dispatched has been recorded as seen.
pub proof fn law_each_item_dispatched_at_most_once(
    scopes: Seq<Seq<char>>,
    events: Seq<TriggerEvent>,
)
    ensures
        dispatched_once(spec_run(spec_start(scopes), events).0, spec_run(spec_start(scopes), events).1),
    decreases events.len(),
{
    if events.len() > 0 {
        law_each_item_dispatched_at_most_once(scopes, events.drop_last());
        let before = spec_run(spec_start(scopes), events.drop_last());
        lemma_event_keeps_dispatched_once(before.0, before.1, events.last());
    }
}

/// Whether, among the events on a trigger over `scopes`, a seeding fetch
/// of the scope at place `i` has brought its items.
pub open spec fn seeding_succeeded(scopes: Seq<Seq<char>>, events: Seq<TriggerEvent>, i: int) -> bool
    decreases events.len(),
{
    if events.len() == 0 {
        false
    } else {
        let before = spec_run(spec_start(scopes), events.drop_last()).0;
        seeding_succeeded(scopes, events.drop_last(), i) || (events.last() is Fetched
            && before.phase == Phase::Seeding && before.step == (Step::Fetch { scope: i as usize })
            && 0 <= i < scopes.len())
    }
}

/// What holds of every state of a trigger over `scopes`: every scope has
/// its flag, a fetch is asked only of a scope that there is, and a poll
/// only of a scope that was seeded.
pub open spec fn polls_only_seeded(scopes: Seq<Seq<char>>, s: TriggerModel) -> bool {
    &&& s.scopes == scopes
    &&& s.polled.len() == scopes.len()
    &&& s.step matches Step::Fetch { scope } ==> scope < scopes.len() && (s.phase
        == Phase::Polling ==> s.polled[scope as int])
    &&& s.phase == Phase::Seeding ==> s.cursor < scopes.len()
}

/// The next poll is of a scope that was seeded, if it is of any.
proof fn lemma_next_polled(polled: Seq<bool>, from: nat)
    requires
        polled.len() <= usize::MAX,
    ensures
        next_polled(polled, from) matches Step::Fetch { scope } ==> from <= scope < polled.len()
            && polled[scope as int],
        !(next_polled(polled, from) is Sleep),
    decreases polled.len() - from,
{
    if from < polled.len() && !polled[from as int] {
        lemma_next_polled(polled, from + 1);
    }
}

/// One event keeps `polls_only_seeded`, and sets the flag of a scope
/// exactly when it is a seeding fetch of that scope that has succeeded.
proof fn lemma_event_polls_only_seeded(scopes: Seq<Seq<char>>, s: TriggerModel, e: TriggerEvent)
    requires
        scopes.len() <= usize::MAX,
        polls_only_seeded(scopes, s),
    ensures
        polls_only_seeded(scopes, spec_event(s, e).0),
        forall|i: int|
            0 <= i < scopes.len() ==> (#[trigger] spec_event(s, e).0.polled[i] <==> s.polled[i] || (
            e is Fetched && s.phase == Phase::Seeding && s.step == (Step::Fetch {
                scope: i as usize,
            }))),
{
    match s.step {
        Step::Fetch { scope } => {
            lemma_next_polled(s.polled, (scope + 1) as nat);
        },
        _ => {},
    }
    lemma_next_polled(s.polled, 0);
}

/// A scope is polled only if a seeding fetch of it has succeeded: whatever
/// happens to a trigger, a scope whose seeding was given up is never
/// fetched again, whether or not items of it were marked as seen.
pub proof fn law_only_seeded_scopes_are_polled(scopes: Seq<Seq<char>>, events: Seq<TriggerEvent>)
    requires
        scopes.len() <= usize::MAX,
    ensures
        polls_only_seeded(scopes, spec_run(spec_start(scopes), events).0),
        forall|i: int|
            0 <= i < scopes.len() ==> (#[trigger] spec_run(spec_start(scopes), events).0.polled[i]
                <==> seeding_succeeded(scopes, events, i)),
    decreases events.len(),
{
    if events.len() > 0 {
        law_only_seeded_scopes_are_polled(scopes, events.drop_last());
        let before = spec_run(spec_start(scopes), events.drop_last());
        lemma_event_polls_only_seeded(scopes, before.0, events.last());
    }
}

/// Once polling has begun, nothing that was seen is ever forgotten: an
/// item that has left its source and comes back is not new.
pub proof fn law_polling_never_forgets(
    s: TriggerModel,
    e: TriggerEvent,
    scope: Seq<char>,
    item: u64,
)
    requires
        s.phase == Phase::Polling,
        seen_in(s.seen, scope).contains(item),
    ensures
        spec_event(s, e).0.phase == Phase::Polling,
        seen_in(spec_event(s, e).0.seen, scope).contains(item),
{
}

/// The context of a run that a timer starts: empty, or with the time of
/// the firing under `now`.
pub fn timer_context(now: Option<String>) -> (context: ContextMap)
    ensures
        bindings(context.pairs()) == match now {
            Some(t) => seq![("now"@, t@)],
            None => Seq::<(Seq<char>, Seq<char>)>::empty(),
        },
{
    let mut context: ContextMap = StrMap::new();
    assert(bindings(context.pairs()) =~= Seq::<(Seq<char>, Seq<char>)>::empty());
    match now {
        Some(t) => {
            proof {
                use_type_invariant(&context);
                lemma_bindings_insert(context.pairs(), "now"@, t);
            }
            context.insert("now".to_owned(), t);
            assert(bindings(context.pairs()) =~= seq![("now"@, t@)]);
        },
        None => {},
    }
    context
}

} // verus!
