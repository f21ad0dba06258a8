//! The engine's laws: properties of registration and of single ticks, and of
//! pairs of consecutive ticks, proved once and for all over the machine's
//! model and the tick relation that [`crate::StateMachine::run`] ensures.

use vstd::prelude::*;

use crate::action::ActionFlag;
use crate::statemachine::Event;
use crate::statemachine::MachineModel;
use crate::statemachine::executed_tick;
use crate::statemachine::finish_events;
use crate::statemachine::first_run_events;
use crate::statemachine::step_state;
use crate::statemachine::tick_rel;

verus! {

/// A tick that found an action bound and whose history shows an `execute`
/// completion at position `j` ran that completion with the flag this lemma
/// returns, handed it the elapsed time `now - o.last_timestamp`, and — on
/// overall success of an episode-ending flag — recorded the `on_finish`
/// completion right after it, as the tick's last event.
proof fn lemma_executed_position<S, E, Context>(
    o: MachineModel<S, E, Context>,
    f: MachineModel<S, E, Context>,
    r: Result<(), E>,
    now: int,
    j: int,
) -> (flag: ActionFlag<S>)
    requires
        tick_rel(o, f, r, now),
        o.registry.contains_key(o.current_state),
        o.log.len() <= j < f.log.len(),
        f.log[j] is Executed,
    ensures
        executed_tick(o, f, r, now, flag),
        f.log[j] == Event::Executed(o.current_state, now - o.last_timestamp, flag),
        j == o.log.len() + first_run_events(o.current_state, o.current_state != o.last_state).len(),
        r is Ok && !(flag is Continue) ==> f.log.len() == j + 2 && f.log[j + 1]
            == Event::Finished(o.current_state, false),
{
    let cs = o.current_state;
    let fresh = cs != o.last_state;
    let fr = first_run_events(cs, fresh);
    if exists|fl: ActionFlag<S>| executed_tick(o, f, r, now, fl) {
        let fl = choose|fl: ActionFlag<S>| executed_tick(o, f, r, now, fl);
        assert(executed_tick(o, f, r, now, fl));
        let ex = Event::Executed(cs, now - o.last_timestamp, fl);
        let fin: Seq<Event<S>> = if r is Ok {
            finish_events(cs, fl)
        } else {
            Seq::empty()
        };
        assert(f.log == o.log + fr + seq![ex] + fin);
        assert(f.log.len() == o.log.len() + fr.len() + 1 + fin.len());
        if j < o.log.len() + fr.len() {
            assert(fr.len() == 1);
            assert(f.log[j] == fr[0]);
            assert(false);
        } else if j == o.log.len() + fr.len() {
            assert(f.log[j] == ex);
        } else {
            assert(fin.len() == 1);
            assert(f.log[j] == fin[0]);
            assert(f.log[j] == Event::Finished(cs, false));
            assert(false);
        }
        if r is Ok && !(fl is Continue) {
            assert(fin == seq![Event::Finished(cs, false)]);
            assert(f.log[j + 1] == fin[0]);
        }
        fl
    } else {
        assert(f.log == o.log || f.log == o.log + fr);
        if f.log == o.log {
            assert(false);
        } else {
            assert(f.log.len() == o.log.len() + fr.len());
            assert(fr.len() == 1);
            assert(f.log[j] == fr[0]);
            assert(false);
        }
        arbitrary()
    }
}

/// Law (single binding): registering an action for a state and then another
/// action for the same state leaves the registry with exactly one binding
/// for that state — the one the second registration stored — and every other
/// state's binding untouched. The hypotheses are what two successful
/// [`crate::StateMachine::add_action`] calls on state `s` ensure.
pub proof fn lemma_single_binding<S, E, Context>(
    m0: MachineModel<S, E, Context>,
    m1: MachineModel<S, E, Context>,
    m2: MachineModel<S, E, Context>,
    s: S,
)
    requires
        m1.registry.dom() == m0.registry.dom().insert(s),
        forall|k: S| #![auto]
            m0.registry.contains_key(k) && k != s ==> m1.registry[k] == m0.registry[k],
        m2.registry.dom() == m1.registry.dom().insert(s),
        forall|k: S| #![auto]
            m1.registry.contains_key(k) && k != s ==> m2.registry[k] == m1.registry[k],
    ensures
        m2.registry.dom() == m0.registry.dom().insert(s),
        m2.registry.contains_key(s),
        forall|k: S| #![auto]
            m0.registry.contains_key(k) && k != s ==> m2.registry[k] == m0.registry[k],
{
    assert(m2.registry.dom() =~= m0.registry.dom().insert(s));
}

/// Law (idle tick is a no-op): a tick taken with no action bound to the
/// current state succeeds and leaves the machine — its states, timestamp,
/// registry and history — exactly as it was.
pub proof fn lemma_idle_tick_is_noop<S, E, Context>(
    o: MachineModel<S, E, Context>,
    f: MachineModel<S, E, Context>,
    r: Result<(), E>,
    now: int,
)
    requires
        tick_rel(o, f, r, now),
        !o.registry.contains_key(o.current_state),
    ensures
        r is Ok,
        f == o,
{
}

/// Law (first run fires on entry): a successful tick taken in a bound state
/// that was freshly entered — the previous tick's state differs — records
/// the action's `on_first_run` completion, as the first event it appends.
pub proof fn lemma_first_run_on_entry<S, E, Context>(
    o: MachineModel<S, E, Context>,
    f: MachineModel<S, E, Context>,
    r: Result<(), E>,
    now: int,
)
    requires
        tick_rel(o, f, r, now),
        r is Ok,
        o.registry.contains_key(o.current_state),
        o.current_state != o.last_state,
    ensures
        f.log.len() > o.log.len(),
        f.log[o.log.len() as int] == Event::FirstRun(o.current_state),
{
    let flag = choose|fl: ActionFlag<S>| executed_tick(o, f, r, now, fl);
    assert(executed_tick(o, f, r, now, flag));
    let cs = o.current_state;
    let fr = first_run_events(cs, true);
    assert(f.log[o.log.len() as int] == fr[0]);
}

/// Law (first run not repeated): a tick taken in a state that was already
/// current on the previous tick records no `on_first_run` completion,
/// whatever else it does.
pub proof fn lemma_no_first_run_while_staying<S, E, Context>(
    o: MachineModel<S, E, Context>,
    f: MachineModel<S, E, Context>,
    r: Result<(), E>,
    now: int,
)
    requires
        tick_rel(o, f, r, now),
        o.current_state == o.last_state,
    ensures
        o.log.len() <= f.log.len(),
        forall|j: int| o.log.len() <= j < f.log.len() ==> !(#[trigger] f.log[j] is FirstRun),
{
    let cs = o.current_state;
    if !o.registry.contains_key(cs) {
        assert(f == o);
    } else if exists|fl: ActionFlag<S>| executed_tick(o, f, r, now, fl) {
        let fl = choose|fl: ActionFlag<S>| executed_tick(o, f, r, now, fl);
        assert(executed_tick(o, f, r, now, fl));
        let fr = first_run_events(cs, false);
        let ex = Event::Executed(cs, now - o.last_timestamp, fl);
        let fin: Seq<Event<S>> = if r is Ok {
            finish_events(cs, fl)
        } else {
            Seq::empty()
        };
        assert(f.log == o.log + fr + seq![ex] + fin);
        assert forall|j: int| o.log.len() <= j < f.log.len() implies !(#[trigger] f.log[j]
            is FirstRun) by {
            if j == o.log.len() {
                assert(f.log[j] == ex);
            } else {
                assert(j == o.log.len() + 1);
                assert(fin.len() == 1);
                assert(f.log[j] == fin[0]);
                assert(f.log[j] == Event::Finished(cs, false));
            }
        }
    } else {
        assert(f.log == o.log || f.log == o.log + first_run_events(cs, false));
        assert(f.log.len() == o.log.len());
    }
}

/// Law (first run once per episode): after a successful tick that kept the
/// machine in its current state, the next tick — in that same state —
/// records no further `on_first_run` completion. Together with
/// [`lemma_first_run_on_entry`], the first-run hook fires exactly once per
/// maximal run of consecutive ticks in one state.
pub proof fn lemma_first_run_once_per_episode<S, E, Context>(
    m0: MachineModel<S, E, Context>,
    m1: MachineModel<S, E, Context>,
    m2: MachineModel<S, E, Context>,
    r1: Result<(), E>,
    r2: Result<(), E>,
    now1: int,
    now2: int,
)
    requires
        tick_rel(m0, m1, r1, now1),
        r1 is Ok,
        m0.registry.contains_key(m0.current_state),
        m1.current_state == m0.current_state,
        tick_rel(m1, m2, r2, now2),
    ensures
        m1.log.len() <= m2.log.len(),
        forall|j: int| m1.log.len() <= j < m2.log.len() ==> !(#[trigger] m2.log[j] is FirstRun),
{
    let fl = choose|fl: ActionFlag<S>| executed_tick(m0, m1, r1, now1, fl);
    assert(executed_tick(m0, m1, r1, now1, fl));
    assert(m1.last_state == m0.current_state);
    lemma_no_first_run_while_staying(m1, m2, r2, now2);
}

/// Law (stop returns to default): a tick whose `execute` completion returned
/// [`ActionFlag::Stop`] leaves the default state current, and — when the
/// tick as a whole succeeded — records the action's `on_finish(false)`
/// completion before returning.
pub proof fn lemma_stop_returns_to_default<S, E, Context>(
    o: MachineModel<S, E, Context>,
    f: MachineModel<S, E, Context>,
    r: Result<(), E>,
    now: int,
    j: int,
)
    requires
        tick_rel(o, f, r, now),
        o.registry.contains_key(o.current_state),
        o.log.len() <= j < f.log.len(),
        f.log[j] matches Event::Executed(_, _, ActionFlag::Stop),
    ensures
        f.current_state == o.default_state,
        f.last_state == o.current_state,
        r is Ok ==> f.log.len() == j + 2 && f.log[j + 1] == Event::Finished(
            o.current_state,
            false,
        ),
{
    let flag = lemma_executed_position(o, f, r, now, j);
    assert(flag is Stop);
    assert(f.current_state == step_state(o.current_state, o.default_state, flag));
}

/// Law (switch transitions): a tick whose `execute` completion returned
/// [`ActionFlag::SwitchState`] with target `t` leaves `t` current, advances
/// the previous state to the state that ran, and — when the tick as a whole
/// succeeded — records the outgoing action's `on_finish(false)` completion
/// before returning.
pub proof fn lemma_switch_transitions<S, E, Context>(
    o: MachineModel<S, E, Context>,
    f: MachineModel<S, E, Context>,
    r: Result<(), E>,
    now: int,
    j: int,
    t: S,
)
    requires
        tick_rel(o, f, r, now),
        o.registry.contains_key(o.current_state),
        o.log.len() <= j < f.log.len(),
        f.log[j] matches Event::Executed(_, _, ActionFlag::SwitchState(t0)) && t0 == t,
    ensures
        f.current_state == t,
        f.last_state == o.current_state,
        r is Ok ==> f.log.len() == j + 2 && f.log[j + 1] == Event::Finished(
            o.current_state,
            false,
        ),
{
    let flag = lemma_executed_position(o, f, r, now, j);
    assert(flag == ActionFlag::SwitchState(t));
    assert(f.current_state == step_state(o.current_state, o.default_state, flag));
}

/// Law (switch then first run): when a successful tick switched to a state
/// `t` different from the state that ran, `t` has an action bound, and the
/// next tick also succeeds, that next tick records `t`'s `on_first_run`
/// completion as the first event it appends.
pub proof fn lemma_switch_then_first_run<S, E, Context>(
    m0: MachineModel<S, E, Context>,
    m1: MachineModel<S, E, Context>,
    m2: MachineModel<S, E, Context>,
    r1: Result<(), E>,
    r2: Result<(), E>,
    now1: int,
    now2: int,
    j: int,
    t: S,
)
    requires
        tick_rel(m0, m1, r1, now1),
        r1 is Ok,
        m0.registry.contains_key(m0.current_state),
        m0.log.len() <= j < m1.log.len(),
        m1.log[j] matches Event::Executed(_, _, ActionFlag::SwitchState(t0)) && t0 == t,
        t != m0.current_state,
        m1.registry.contains_key(t),
        tick_rel(m1, m2, r2, now2),
        r2 is Ok,
    ensures
        m2.log.len() > m1.log.len(),
        m2.log[m1.log.len() as int] == Event::FirstRun(t),
{
    lemma_switch_transitions(m0, m1, r1, now1, j, t);
    lemma_first_run_on_entry(m1, m2, r2, now2);
}

/// Law (elapsed time under a forward-moving clock): the elapsed time a
/// tick's `execute` completion records equals the tick's clock reading minus
/// the timestamp the machine carried into the tick; whenever that reading is
/// not before the carried timestamp — the wall clock did not move backwards
/// since the previous successful tick stamped it — the elapsed time handed
/// to `execute` is non-negative.
pub proof fn lemma_delta_nonnegative<S, E, Context>(
    o: MachineModel<S, E, Context>,
    f: MachineModel<S, E, Context>,
    r: Result<(), E>,
    now: int,
    j: int,
)
    requires
        tick_rel(o, f, r, now),
        o.registry.contains_key(o.current_state),
        now >= o.last_timestamp,
        o.log.len() <= j < f.log.len(),
        f.log[j] is Executed,
    ensures
        f.log[j] matches Event::Executed(_, d, _) ==> d == now - o.last_timestamp && d >= 0,
{
    let flag = lemma_executed_position(o, f, r, now, j);
}

} // verus!
