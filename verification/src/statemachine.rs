use vstd::prelude::*;
use vstd::laws_eq::obeys_concrete_eq;

use crate::action::Action;
use crate::action::ActionFlag;
use crate::clock::clock_stamp;

verus! {

/// One entry of a machine's registry: a state and the action bound to it.
pub type Entry<S, E, Context> = (S, Box<dyn Action<S, E, Context>>);

/// A hook call that a machine has completed, recorded in its ghost history.
/// The history lets contracts say which hooks a tick ran, and in what order.
pub enum Event<S> {
    /// `on_register` succeeded while an action was added for this state.
    Registered(S),
    /// `on_first_run` succeeded on the action bound to this state.
    FirstRun(S),
    /// `execute` succeeded on the action bound to this state; carries the
    /// elapsed-time argument it was handed and the flag it returned.
    Executed(S, int, ActionFlag<S>),
    /// `on_finish` succeeded on the action bound to this state; carries the
    /// `interrupted` argument it was handed.
    Finished(S, bool),
}

/// The mathematical model of a [`StateMachine`]: its four scalar fields, the
/// registry as a map from state to bound action, and the history of completed
/// hook calls.
#[verifier::reject_recursive_types(S)]
#[verifier::reject_recursive_types(E)]
#[verifier::reject_recursive_types(Context)]
pub struct MachineModel<S, E, Context> {
    pub default_state: S,
    pub current_state: S,
    pub last_state: S,
    pub last_timestamp: int,
    pub registry: Map<S, Box<dyn Action<S, E, Context>>>,
    pub log: Seq<Event<S>>,
}

/// Holds when `T`'s `Clone` implementation only ever returns a value equal
/// to the one cloned. The machine requires this of its state type: a state
/// is an identifying value, and duplicating it must preserve it.
pub open spec fn clone_faithful<T: Clone>() -> bool {
    forall|a: T, b: T| #[trigger] call_ensures(T::clone, (&a,), b) ==> b == a
}

/// The state a tick leaves current, given the state that was current, the
/// machine's default state, and the flag the action's `execute` returned.
pub open spec fn step_state<S>(current: S, default: S, flag: ActionFlag<S>) -> S {
    match flag {
        ActionFlag::Continue => current,
        ActionFlag::Stop => default,
        ActionFlag::SwitchState(t) => t,
    }
}

/// The `on_first_run` completions a tick records: exactly one when the
/// current state was freshly entered, none otherwise.
pub open spec fn first_run_events<S>(cs: S, fresh: bool) -> Seq<Event<S>> {
    if fresh {
        seq![Event::FirstRun(cs)]
    } else {
        Seq::empty()
    }
}

/// The `on_finish` completions a tick records for a returned flag: the
/// episode-ending flags record one `on_finish(false)` call; `Continue`
/// records none.
pub open spec fn finish_events<S>(cs: S, flag: ActionFlag<S>) -> Seq<Event<S>> {
    match flag {
        ActionFlag::Continue => Seq::empty(),
        _ => seq![Event::Finished(cs, false)],
    }
}

/// How one call of [`StateMachine::run`] relates the machine's model before
/// the tick (`o`) and after it (`f`), the tick's result `r`, and the clock
/// reading `now` from which the tick computed the elapsed time it handed to
/// `execute`. A tick never touches the default state, never adds or removes
/// a registry binding, and mutates no action but the one bound to the
/// current state. With no action bound to the current state the tick is a
/// complete no-op that succeeds. Otherwise [`active_tick_rel`] describes it.
pub open spec fn tick_rel<S, E, Context>(
    o: MachineModel<S, E, Context>,
    f: MachineModel<S, E, Context>,
    r: Result<(), E>,
    now: int,
) -> bool {
    &&& f.default_state == o.default_state
    &&& f.registry.dom() == o.registry.dom()
    &&& (forall|k: S| #![auto]
        o.registry.contains_key(k) && k != o.current_state ==> f.registry[k] == o.registry[k])
    &&& (!o.registry.contains_key(o.current_state) ==> r is Ok && f == o)
    &&& (o.registry.contains_key(o.current_state) ==> active_tick_rel(o, f, r, now))
}

/// The part of [`tick_rel`] for a tick that found an action bound to the
/// current state `cs`. The tick is freshly entered when `cs` differs from
/// the previous tick's state; it then owes the action an `on_first_run`
/// call before `execute`. Exactly one of the following happened:
/// - `on_first_run` failed: the error is surfaced and nothing changed.
/// - `execute` failed: the error is surfaced; the previous state is
///   advanced to `cs` but the current state and timestamp are unchanged.
/// - `execute` returned a flag. The current state becomes
///   [`step_state`] of that flag, and the previous state becomes `cs`. The
///   elapsed time handed to `execute` was `now - o.last_timestamp`. On an
///   episode-ending flag `on_finish(false)` runs; if it fails the error is
///   surfaced with the transition already committed and the timestamp not
///   advanced. On overall success the history also records the finish
///   completion, and the timestamp is replaced with a fresh non-negative
///   clock reading (nothing more is promised of it: the wall clock may
///   move backwards between readings).
pub open spec fn active_tick_rel<S, E, Context>(
    o: MachineModel<S, E, Context>,
    f: MachineModel<S, E, Context>,
    r: Result<(), E>,
    now: int,
) -> bool {
    let cs = o.current_state;
    let fresh = cs != o.last_state;
    let fr = first_run_events(cs, fresh);
    let delta = now - o.last_timestamp;
    ||| (fresh && r is Err && f.log == o.log && f.current_state == cs && f.last_state
        == o.last_state && f.last_timestamp == o.last_timestamp)
    ||| (r is Err && f.log == o.log + fr && f.current_state == cs && f.last_state == cs
        && f.last_timestamp == o.last_timestamp)
    ||| (exists|flag: ActionFlag<S>| #[trigger] executed_tick(o, f, r, now, flag))
}

/// The part of [`active_tick_rel`] for a tick whose `execute` call completed
/// and returned `flag`.
pub open spec fn executed_tick<S, E, Context>(
    o: MachineModel<S, E, Context>,
    f: MachineModel<S, E, Context>,
    r: Result<(), E>,
    now: int,
    flag: ActionFlag<S>,
) -> bool {
    let cs = o.current_state;
    let fresh = cs != o.last_state;
    let fr = first_run_events(cs, fresh);
    let delta = now - o.last_timestamp;
    &&& f.current_state == step_state(cs, o.default_state, flag)
    &&& f.log == o.log + fr + seq![Event::Executed(cs, delta, flag)] + (if r is Ok {
        finish_events(cs, flag)
    } else {
        Seq::empty()
    })
    &&& f.last_state == cs
    &&& (r is Err ==> !(flag is Continue) && f.last_timestamp == o.last_timestamp)
    &&& (r is Ok ==> f.last_timestamp >= 0)
}

/// Some entry of `s` carries the key `k`.
pub open spec fn has_key<S, E, Context>(s: Seq<Entry<S, E, Context>>, k: S) -> bool {
    exists|i: int| #![auto] 0 <= i < s.len() && s[i].0 == k
}

/// No two entries of `s` carry the same key.
pub open spec fn distinct_keys<S, E, Context>(s: Seq<Entry<S, E, Context>>) -> bool {
    forall|i: int, j: int| #![auto] 0 <= i < j < s.len() ==> s[i].0 != s[j].0
}

/// The index of the entry of `s` that carries key `k` (meaningful only when
/// `has_key(s, k)`; with distinct keys it is unique).
pub open spec fn key_index<S, E, Context>(s: Seq<Entry<S, E, Context>>, k: S) -> int {
    choose|i: int| #![auto] 0 <= i < s.len() && s[i].0 == k
}

/// The registry map that a sequence of entries denotes.
pub open spec fn entry_map<S, E, Context>(s: Seq<Entry<S, E, Context>>) -> Map<
    S,
    Box<dyn Action<S, E, Context>>,
> {
    Map::new(|k: S| has_key(s, k), |k: S| s[key_index(s, k)].1)
}

proof fn lemma_key_index<S, E, Context>(s: Seq<Entry<S, E, Context>>, i: int)
    requires
        distinct_keys(s),
        0 <= i < s.len(),
    ensures
        has_key(s, s[i].0),
        key_index(s, s[i].0) == i,
{
    let k = s[i].0;
    assert(0 <= i < s.len() && s[i].0 == k);
    assert(has_key(s, k));
    let j = key_index(s, k);
    assert(0 <= j < s.len() && s[j].0 == k) by {
        assert(has_key(s, k));
    }
    if j < i {
        assert(s[j].0 != s[i].0);
    } else if i < j {
        assert(s[i].0 != s[j].0);
    }
}

proof fn lemma_entry_map_dom<S, E, Context>(s: Seq<Entry<S, E, Context>>)
    ensures
        forall|k: S| #![auto] entry_map(s).contains_key(k) <==> has_key(s, k),
{
}

proof fn lemma_entry_map_val<S, E, Context>(s: Seq<Entry<S, E, Context>>, i: int)
    requires
        distinct_keys(s),
        0 <= i < s.len(),
    ensures
        entry_map(s).contains_key(s[i].0),
        entry_map(s)[s[i].0] == s[i].1,
{
    lemma_key_index(s, i);
    lemma_entry_map_dom(s);
}

proof fn lemma_entry_map_remove<S, E, Context>(s: Seq<Entry<S, E, Context>>, i: int)
    requires
        distinct_keys(s),
        0 <= i < s.len(),
    ensures
        distinct_keys(s.remove(i)),
        !has_key(s.remove(i), s[i].0),
        entry_map(s.remove(i)) == entry_map(s).remove(s[i].0),
{
    let k = s[i].0;
    let r = s.remove(i);
    s.remove_ensures(i);
    assert forall|p: int, q: int| #![auto] 0 <= p < q < r.len() implies r[p].0 != r[q].0 by {
        let p0 = if p < i {
            p
        } else {
            p + 1
        };
        let q0 = if q < i {
            q
        } else {
            q + 1
        };
        assert(r[p] == s[p0]);
        assert(r[q] == s[q0]);
        assert(s[p0].0 != s[q0].0);
    }
    assert forall|j: int| #![auto] 0 <= j < r.len() implies r[j].0 != k by {
        let j0 = if j < i {
            j
        } else {
            j + 1
        };
        assert(r[j] == s[j0]);
        if j0 < i {
            assert(s[j0].0 != s[i].0);
        } else {
            assert(s[i].0 != s[j0].0);
        }
    }
    assert(!has_key(r, k));
    assert forall|x: S| #![auto] has_key(r, x) implies has_key(s, x) && x != k by {
        let j = choose|j: int| #![auto] 0 <= j < r.len() && r[j].0 == x;
        let j0 = if j < i {
            j
        } else {
            j + 1
        };
        assert(r[j] == s[j0]);
        assert(s[j0].0 == x);
    }
    assert forall|x: S| #![auto] has_key(s, x) && x != k implies has_key(r, x) by {
        let j = choose|j: int| #![auto] 0 <= j < s.len() && s[j].0 == x;
        if j < i {
            assert(r[j] == s[j]);
            assert(r[j].0 == x);
        } else {
            assert(j != i);
            assert(r[j - 1] == s[j - 1 + 1]);
            assert(r[j - 1].0 == x);
        }
    }
    assert forall|x: S| #![auto] has_key(r, x) implies entry_map(r)[x] == entry_map(s)[x] by {
        let j = key_index(r, x);
        assert(0 <= j < r.len() && r[j].0 == x) by {
            assert(has_key(r, x));
        }
        let j0 = if j < i {
            j
        } else {
            j + 1
        };
        assert(r[j] == s[j0]);
        lemma_key_index(s, j0);
        assert(key_index(s, x) == j0);
        assert(entry_map(r)[x] == r[j].1);
        assert(entry_map(s)[x] == s[j0].1);
    }
    assert(entry_map(r) =~= entry_map(s).remove(k));
}

proof fn lemma_entry_map_insert_at<S, E, Context>(
    s: Seq<Entry<S, E, Context>>,
    i: int,
    x: Entry<S, E, Context>,
)
    requires
        distinct_keys(s),
        !has_key(s, x.0),
        0 <= i <= s.len(),
    ensures
        distinct_keys(s.insert(i, x)),
        entry_map(s.insert(i, x)).dom() == entry_map(s).dom().insert(x.0),
        entry_map(s.insert(i, x))[x.0] == x.1,
        forall|y: S| #![auto] has_key(s, y) ==> entry_map(s.insert(i, x))[y] == entry_map(s)[y],
{
    let s2 = s.insert(i, x);
    let k = x.0;
    s.insert_ensures(i, x);
    assert forall|j: int| 0 <= j < s.len() implies (#[trigger] s[j]).0 != k by {
        assert(!(0 <= j < s.len() && s[j].0 == k));
    }
    assert(s2[i] == x);
    assert forall|p: int, q: int| #![auto] 0 <= p < q < s2.len() implies s2[p].0 != s2[q].0 by {
        if q == i {
            assert(s2[p] == s[p]);
        } else if p == i {
            assert(s2[q - 1 + 1] == s[q - 1]);
        } else if p < i && q > i {
            assert(s2[p] == s[p]);
            assert(s2[q - 1 + 1] == s[q - 1]);
            assert(s[p].0 != s[q - 1].0);
        } else if q < i {
            assert(s2[p] == s[p]);
            assert(s2[q] == s[q]);
            assert(s[p].0 != s[q].0);
        } else {
            assert(s2[p - 1 + 1] == s[p - 1]);
            assert(s2[q - 1 + 1] == s[q - 1]);
            assert(s[p - 1].0 != s[q - 1].0);
        }
    }
    assert forall|y: S| #![auto] has_key(s2, y) implies has_key(s, y) || y == k by {
        let j = choose|j: int| #![auto] 0 <= j < s2.len() && s2[j].0 == y;
        if j < i {
            assert(s2[j] == s[j]);
            assert(s[j].0 == y);
        } else if j > i {
            assert(s2[j - 1 + 1] == s[j - 1]);
            assert(s[j - 1].0 == y);
        }
    }
    assert forall|y: S| #![auto] has_key(s, y) implies has_key(s2, y) by {
        let j = choose|j: int| #![auto] 0 <= j < s.len() && s[j].0 == y;
        if j < i {
            assert(s2[j] == s[j]);
            assert(s2[j].0 == y);
        } else {
            assert(s2[j + 1] == s[j]);
            assert(s2[j + 1].0 == y);
        }
    }
    assert(has_key(s2, k));
    assert forall|y: S| #![auto] has_key(s, y) implies entry_map(s2)[y] == entry_map(s)[y] by {
        let j = key_index(s, y);
        assert(0 <= j < s.len() && s[j].0 == y) by {
            assert(has_key(s, y));
        }
        let j2 = if j < i {
            j
        } else {
            j + 1
        };
        if j < i {
            assert(s2[j] == s[j]);
        } else {
            assert(s2[j + 1] == s[j]);
        }
        assert(s2[j2] == s[j]);
        lemma_key_index(s2, j2);
        assert(key_index(s2, y) == j2);
        assert(entry_map(s2)[y] == s2[j2].1);
        assert(entry_map(s)[y] == s[j].1);
    }
    lemma_key_index(s2, i);
    assert(entry_map(s2)[k] == x.1);
    assert(entry_map(s2).dom() =~= entry_map(s).dom().insert(x.0));
}

proof fn lemma_entry_map_push<S, E, Context>(s: Seq<Entry<S, E, Context>>, x: Entry<S, E, Context>)
    requires
        distinct_keys(s),
        !has_key(s, x.0),
    ensures
        distinct_keys(s.push(x)),
        entry_map(s.push(x)).dom() == entry_map(s).dom().insert(x.0),
        entry_map(s.push(x))[x.0] == x.1,
        forall|y: S| #![auto] has_key(s, y) ==> entry_map(s.push(x))[y] == entry_map(s)[y],
{
    let s2 = s.push(x);
    let k = x.0;
    assert forall|j: int| 0 <= j < s.len() implies (#[trigger] s[j]).0 != k by {
        assert(!(0 <= j < s.len() && s[j].0 == k));
    }
    assert(s2[s.len() as int] == x);
    assert forall|p: int, q: int| #![auto] 0 <= p < q < s2.len() implies s2[p].0 != s2[q].0 by {
        if q == s.len() {
            assert(s2[p] == s[p]);
        } else {
            assert(s2[p] == s[p]);
            assert(s2[q] == s[q]);
            assert(s[p].0 != s[q].0);
        }
    }
    assert forall|y: S| #![auto] has_key(s2, y) implies has_key(s, y) || y == k by {
        let j = choose|j: int| #![auto] 0 <= j < s2.len() && s2[j].0 == y;
        if j < s.len() {
            assert(s2[j] == s[j]);
            assert(s[j].0 == y);
        }
    }
    assert forall|y: S| #![auto] has_key(s, y) implies has_key(s2, y) by {
        let j = choose|j: int| #![auto] 0 <= j < s.len() && s[j].0 == y;
        assert(s2[j] == s[j]);
        assert(s2[j].0 == y);
    }
    assert(has_key(s2, k));
    assert forall|y: S| #![auto] has_key(s, y) implies entry_map(s2)[y] == entry_map(s)[y] by {
        let j = key_index(s, y);
        assert(0 <= j < s.len() && s[j].0 == y) by {
            assert(has_key(s, y));
        }
        assert(s2[j] == s[j]);
        lemma_key_index(s2, j);
        assert(key_index(s2, y) == j);
        assert(entry_map(s2)[y] == s2[j].1);
        assert(entry_map(s)[y] == s[j].1);
    }
    lemma_key_index(s2, s.len() as int);
    assert(entry_map(s2)[k] == x.1);
    assert(entry_map(s2).dom() =~= entry_map(s).dom().insert(x.0));
}

/// Taking the entry at `i` out of the registry sequence and putting an
/// entry with the same key back in its place leaves the registry's domain
/// unchanged and every other binding as it was.
proof fn lemma_reinsert<S, E, Context>(
    s0: Seq<Entry<S, E, Context>>,
    i: int,
    x: Entry<S, E, Context>,
)
    requires
        distinct_keys(s0),
        0 <= i < s0.len(),
        x.0 == s0[i].0,
    ensures
        distinct_keys(s0.remove(i).insert(i, x)),
        entry_map(s0.remove(i).insert(i, x)).dom() == entry_map(s0).dom(),
        forall|k: S| #![auto]
            entry_map(s0).contains_key(k) && k != x.0 ==> entry_map(s0.remove(i).insert(i, x))[k]
                == entry_map(s0)[k],
        entry_map(s0.remove(i).insert(i, x))[x.0] == x.1,
{
    let mid = s0.remove(i);
    lemma_entry_map_remove(s0, i);
    lemma_entry_map_dom(mid);
    lemma_entry_map_val(s0, i);
    lemma_entry_map_insert_at(mid, i, x);
    let s2 = mid.insert(i, x);
    assert(entry_map(s2).dom() =~= entry_map(s0).dom());
    assert forall|k: S| #![auto]
        entry_map(s0).contains_key(k) && k != x.0 implies entry_map(s2)[k] == entry_map(
        s0,
    )[k] by {
        assert(entry_map(mid).contains_key(k));
        assert(has_key(mid, k));
        assert(entry_map(s2)[k] == entry_map(mid)[k]);
        assert(entry_map(mid)[k] == entry_map(s0).remove(x.0)[k]);
    }
}

/// The shared commit reasoning for every branch of
/// [`StateMachine::run`] that reached `execute`: a tick that took the
/// entry at `i` out of registry sequence `s0`, ran hooks that returned
/// `flag`, put an entry with the same key back in place, and left the
/// machine as `f` describes, satisfies the tick relation.
proof fn lemma_commit_tick<S, E, Context>(
    m0: MachineModel<S, E, Context>,
    f: MachineModel<S, E, Context>,
    r: Result<(), E>,
    now: int,
    flag: ActionFlag<S>,
    s0: Seq<Entry<S, E, Context>>,
    i: int,
    x: Entry<S, E, Context>,
)
    requires
        distinct_keys(s0),
        0 <= i < s0.len(),
        s0[i].0 == m0.current_state,
        x.0 == s0[i].0,
        m0.registry == entry_map(s0),
        f.registry == entry_map(s0.remove(i).insert(i, x)),
        f.default_state == m0.default_state,
        f.current_state == step_state(m0.current_state, m0.default_state, flag),
        f.last_state == m0.current_state,
        f.log == m0.log + first_run_events(m0.current_state, m0.current_state != m0.last_state)
            + seq![Event::Executed(m0.current_state, now - m0.last_timestamp, flag)] + (if r is Ok {
            finish_events(m0.current_state, flag)
        } else {
            Seq::empty()
        }),
        r is Err ==> !(flag is Continue) && f.last_timestamp == m0.last_timestamp,
        r is Ok ==> f.last_timestamp >= 0,
    ensures
        distinct_keys(s0.remove(i).insert(i, x)),
        tick_rel(m0, f, r, now),
{
    lemma_entry_map_val(s0, i);
    lemma_reinsert(s0, i, x);
    assert(executed_tick(m0, f, r, now, flag));
}

#[verifier::reject_recursive_types(S)]
#[verifier::reject_recursive_types(E)]
#[verifier::reject_recursive_types(Context)]
pub struct StateMachine<S, E, Context> {
    default_state: S,
    current_state: S,
    last_state: S,
    last_timestamp: i64,
    actions: Vec<Entry<S, E, Context>>,
    log: Ghost<Seq<Event<S>>>,
}

impl<S, E, Context> View for StateMachine<S, E, Context> {
    type V = MachineModel<S, E, Context>;

    closed spec fn view(&self) -> MachineModel<S, E, Context> {
        MachineModel {
            default_state: self.default_state,
            current_state: self.current_state,
            last_state: self.last_state,
            last_timestamp: self.last_timestamp as int,
            registry: entry_map(self.actions@),
            log: self.log@,
        }
    }
}

impl<S, E, Context> StateMachine<S, E, Context> where S: PartialEq + Eq + Clone + Default {
    /// The machine's internal invariant: registry entries carry distinct
    /// keys, and the stored timestamp is a non-negative clock reading.
    pub closed spec fn wf(self) -> bool {
        &&& distinct_keys(self.actions@)
        &&& self.last_timestamp >= 0
    }

    /// Construct a machine whose default, current and last state are all the
    /// state type's default value, with an empty registry and an empty
    /// history, stamped with the construction time.
    pub fn new() -> (r: Self)
        requires
            clone_faithful::<S>(),
        ensures
            r.wf(),
            r@.current_state == r@.default_state,
            r@.last_state == r@.default_state,
            r@.registry == Map::<S, Box<dyn Action<S, E, Context>>>::empty(),
            r@.log == Seq::<Event<S>>::empty(),
            call_ensures(S::default, (), r@.default_state),
    {
        let default_state = S::default();
        let current_state = default_state.clone();
        let last_state = default_state.clone();
        let last_timestamp = clock_stamp();
        StateMachine {
            default_state,
            current_state,
            last_state,
            last_timestamp,
            actions: Vec::new(),
            log: Ghost(Seq::empty()),
        }
    }

    /// The index of the entry bound to `state`, if any.
    fn find_index(&self, state: &S) -> (r: Option<usize>)
        requires
            obeys_concrete_eq::<S>(),
        ensures
            match r {
                Some(i) => i < self.actions@.len() && self.actions@[i as int].0 == *state,
                None => !has_key(self.actions@, *state),
            },
    {
        let n = self.actions.len();
        let mut i: usize = 0;
        while i < n
            invariant
                obeys_concrete_eq::<S>(),
                n == self.actions@.len(),
                i <= n,
                forall|j: int| #![auto] 0 <= j < i ==> self.actions@[j].0 != *state,
            decreases n - i,
        {
            let hit = self.actions[i].0.eq(state);
            proof {
                reveal(vstd::laws_eq::obeys_concrete_eq);
            }
            if hit {
                return Some(i);
            }
            i = i + 1;
        }
        None
    }

    /// Register `action` for `state`. `on_register` runs first; if it fails,
    /// the error propagates and the registry is left unchanged. On success
    /// the action is inserted, overwriting any prior binding for `state`.
    pub fn add_action(&mut self, state: S, action: Box<dyn Action<S, E, Context>>) -> (r: Result<
        (),
        E,
    >)
        requires
            obeys_concrete_eq::<S>(),
            old(self).wf(),
        ensures
            final(self).wf(),
            final(self)@.default_state == old(self)@.default_state,
            final(self)@.current_state == old(self)@.current_state,
            final(self)@.last_state == old(self)@.last_state,
            final(self)@.last_timestamp == old(self)@.last_timestamp,
            match r {
                Ok(()) => {
                    &&& final(self)@.registry.dom() == old(self)@.registry.dom().insert(state)
                    &&& forall|k: S| #![auto]
                        old(self)@.registry.contains_key(k) && k != state
                            ==> final(self)@.registry[k] == old(self)@.registry[k]
                    &&& final(self)@.log == old(self)@.log.push(Event::Registered(state))
                },
                Err(_) => *final(self) == *old(self),
            },
    {
        let mut action = action;
        match action.on_register() {
            Err(e) => Err(e),
            Ok(()) => {
                let ghost s0 = self.actions@;
                let found = self.find_index(&state);
                let entry = (state, action);
                let ghost ent = entry;
                match found {
                    Some(i) => {
                        proof {
                            lemma_entry_map_remove(s0, i as int);
                            lemma_entry_map_dom(s0.remove(i as int));
                        }
                        let _old_entry = self.actions.remove(i);
                        self.actions.insert(i, entry);
                        proof {
                            lemma_entry_map_insert_at(s0.remove(i as int), i as int, ent);
                            assert(entry_map(self.actions@).dom() =~= entry_map(s0).dom().insert(
                                ent.0,
                            ));
                            assert forall|k: S| #![auto]
                                entry_map(s0).contains_key(k) && k != state implies entry_map(
                                self.actions@,
                            )[k] == entry_map(s0)[k] by {
                                assert(entry_map(s0.remove(i as int)).contains_key(k));
                                assert(has_key(s0.remove(i as int), k));
                                assert(entry_map(self.actions@)[k] == entry_map(
                                    s0.remove(i as int),
                                )[k]);
                                assert(entry_map(s0.remove(i as int))[k] == entry_map(s0).remove(
                                    state,
                                )[k]);
                            }
                        }
                        self.log = Ghost(self.log@.push(Event::Registered(ent.0)));
                        Ok(())
                    },
                    None => {
                        proof {
                            lemma_entry_map_dom(s0);
                        }
                        self.actions.push(entry);
                        proof {
                            lemma_entry_map_push(s0, ent);
                            assert forall|k: S| #![auto]
                                entry_map(s0).contains_key(k) && k != state implies entry_map(
                                self.actions@,
                            )[k] == entry_map(s0)[k] by {
                                assert(has_key(s0, k));
                            }
                        }
                        self.log = Ghost(self.log@.push(Event::Registered(ent.0)));
                        Ok(())
                    },
                }
            },
        }
    }

    /// Remove any binding for `state` from the registry. The removed action's
    /// `on_finish` is not invoked, even if `state` is currently active.
    pub fn remove_action(&mut self, state: S)
        requires
            obeys_concrete_eq::<S>(),
            old(self).wf(),
        ensures
            final(self).wf(),
            final(self)@.default_state == old(self)@.default_state,
            final(self)@.current_state == old(self)@.current_state,
            final(self)@.last_state == old(self)@.last_state,
            final(self)@.last_timestamp == old(self)@.last_timestamp,
            final(self)@.log == old(self)@.log,
            final(self)@.registry == old(self)@.registry.remove(state),
    {
        let found = self.find_index(&state);
        match found {
            Some(i) => {
                proof {
                    lemma_entry_map_remove(self.actions@, i as int);
                }
                let _removed = self.actions.remove(i);
            },
            None => {
                proof {
                    lemma_entry_map_dom(self.actions@);
                    assert(entry_map(self.actions@) =~= entry_map(self.actions@).remove(state));
                }
            },
        }
    }

    /// Execute exactly one tick. If no action is bound to the current state
    /// the tick is a complete no-op. Otherwise the action's `on_first_run`
    /// runs when the state was freshly entered, then `execute` with the
    /// elapsed wall-clock time and the shared context, then the returned
    /// flag is applied to the machine's state, and on an episode-ending
    /// flag the action's `on_finish(false)` runs. Any hook failure aborts
    /// the tick at that point and surfaces the error. [`tick_rel`] states
    /// the exact relation between the machine before and after.
    pub fn run(&mut self, context: &Context) -> (r: Result<(), E>)
        requires
            obeys_concrete_eq::<S>(),
            clone_faithful::<S>(),
            old(self).wf(),
        ensures
            final(self).wf(),
            exists|now: int| #![auto] tick_rel(old(self)@, final(self)@, r, now),
    {
        let ghost m0 = self@;
        let found = self.find_index(&self.current_state);
        match found {
            None => {
                proof {
                    lemma_entry_map_dom(self.actions@);
                    assert(!m0.registry.contains_key(m0.current_state));
                    assert(tick_rel(m0, self@, Result::<(), E>::Ok(()), 0));
                }
                Ok(())
            },
            Some(i) => {
                let ghost s0 = self.actions@;
                let ghost cs = self.current_state;
                proof {
                    lemma_entry_map_val(s0, i as int);
                    lemma_entry_map_remove(s0, i as int);
                }
                let mut entry = self.actions.remove(i);
                let fresh = !self.current_state.eq(&self.last_state);
                proof {
                    reveal(vstd::laws_eq::obeys_concrete_eq);
                    assert(fresh == (cs != m0.last_state));
                }
                if fresh {
                    match entry.1.on_first_run(context) {
                        Err(e) => {
                            let ghost ex = entry;
                            self.actions.insert(i, entry);
                            proof {
                                lemma_reinsert(s0, i as int, ex);
                                assert(tick_rel(m0, self@, Result::<(), E>::Err(e), 0));
                            }
                            return Err(e);
                        },
                        Ok(()) => {
                            self.log = Ghost(self.log@ + first_run_events(cs, true));
                        },
                    }
                }
                let now = clock_stamp();
                let delta: i64 = now - self.last_timestamp;
                self.last_state = self.current_state.clone();
                proof {
                    assert(self.last_state == cs);
                }
                match entry.1.execute(delta, context) {
                    Err(e) => {
                        let ghost ex = entry;
                        self.actions.insert(i, entry);
                        proof {
                            lemma_reinsert(s0, i as int, ex);
                            assert(self.log@ =~= m0.log + first_run_events(cs, fresh));
                            assert(tick_rel(m0, self@, Result::<(), E>::Err(e), now as int));
                        }
                        return Err(e);
                    },
                    Ok(flag) => {
                        let ghost gflag = flag;
                        self.log = Ghost(
                            self.log@ + seq![Event::Executed(cs, delta as int, gflag)],
                        );
                        match flag {
                            ActionFlag::Continue => {
                                let ghost ex = entry;
                                self.actions.insert(i, entry);
                                self.last_timestamp = clock_stamp();
                                proof {
                                    assert(self.log@ =~= m0.log + first_run_events(cs, fresh)
                                        + seq![Event::Executed(cs, delta as int, gflag)]
                                        + finish_events(cs, gflag));
                                    assert(step_state(cs, m0.default_state, gflag)
                                        == self.current_state);
                                    lemma_commit_tick(
                                        m0,
                                        self@,
                                        Result::<(), E>::Ok(()),
                                        now as int,
                                        gflag,
                                        s0,
                                        i as int,
                                        ex,
                                    );
                                }
                                Ok(())
                            },
                            ActionFlag::Stop => {
                                self.current_state = self.default_state.clone();
                                proof {
                                    assert(self.current_state == m0.default_state);
                                    assert(step_state(cs, m0.default_state, gflag)
                                        == self.current_state);
                                }
                                match entry.1.on_finish(false) {
                                    Err(e) => {
                                        let ghost ex = entry;
                                        self.actions.insert(i, entry);
                                        proof {
                                            assert(self.log@ =~= m0.log
                                                + first_run_events(cs, fresh)
                                                + seq![Event::Executed(cs, delta as int, gflag)]
                                                + Seq::<Event<S>>::empty());
                                            lemma_commit_tick(
                                                m0,
                                                self@,
                                                Result::<(), E>::Err(e),
                                                now as int,
                                                gflag,
                                                s0,
                                                i as int,
                                                ex,
                                            );
                                        }
                                        return Err(e);
                                    },
                                    Ok(()) => {},
                                }
                                self.log = Ghost(self.log@ + finish_events(cs, gflag));
                                let ghost ex = entry;
                                self.actions.insert(i, entry);
                                self.last_timestamp = clock_stamp();
                                proof {
                                    assert(self.log@ =~= m0.log + first_run_events(cs, fresh)
                                        + seq![Event::Executed(cs, delta as int, gflag)]
                                        + finish_events(cs, gflag));
                                    lemma_commit_tick(
                                        m0,
                                        self@,
                                        Result::<(), E>::Ok(()),
                                        now as int,
                                        gflag,
                                        s0,
                                        i as int,
                                        ex,
                                    );
                                }
                                Ok(())
                            },
                            ActionFlag::SwitchState(t) => {
                                self.current_state = t;
                                proof {
                                    assert(self.current_state == step_state(
                                        cs,
                                        m0.default_state,
                                        gflag,
                                    ));
                                }
                                match entry.1.on_finish(false) {
                                    Err(e) => {
                                        let ghost ex = entry;
                                        self.actions.insert(i, entry);
                                        proof {
                                            assert(self.log@ =~= m0.log
                                                + first_run_events(cs, fresh)
                                                + seq![Event::Executed(cs, delta as int, gflag)]
                                                + Seq::<Event<S>>::empty());
                                            lemma_commit_tick(
                                                m0,
                                                self@,
                                                Result::<(), E>::Err(e),
                                                now as int,
                                                gflag,
                                                s0,
                                                i as int,
                                                ex,
                                            );
                                        }
                                        return Err(e);
                                    },
                                    Ok(()) => {},
                                }
                                self.log = Ghost(self.log@ + finish_events(cs, gflag));
                                let ghost ex = entry;
                                self.actions.insert(i, entry);
                                self.last_timestamp = clock_stamp();
                                proof {
                                    assert(self.log@ =~= m0.log + first_run_events(cs, fresh)
                                        + seq![Event::Executed(cs, delta as int, gflag)]
                                        + finish_events(cs, gflag));
                                    lemma_commit_tick(
                                        m0,
                                        self@,
                                        Result::<(), E>::Ok(()),
                                        now as int,
                                        gflag,
                                        s0,
                                        i as int,
                                        ex,
                                    );
                                }
                                Ok(())
                            },
                        }
                    },
                }
            },
        }
    }
}

} // verus!
