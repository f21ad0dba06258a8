use std::cell::Cell;
use std::cell::RefCell;
use std::rc::Rc;

use dirty_fsm::{Action, ActionFlag, StateMachine};

#[derive(Debug, PartialEq, Eq, Clone, Hash)]
enum States {
    Default,
    State1,
    State2,
}

impl Default for States {
    fn default() -> Self {
        States::Default
    }
}

struct Ctx {
    pub number: u8,
}

#[derive(Debug)]
pub struct ActionA {}

impl Action<States, (), RefCell<Ctx>> for ActionA {
    fn on_register(&mut self) -> Result<(), ()> {
        Ok(())
    }

    fn on_first_run(&mut self, _context: &RefCell<Ctx>) -> Result<(), ()> {
        Ok(())
    }

    fn execute(&mut self, _delta: i64, _context: &RefCell<Ctx>) -> Result<ActionFlag<States>, ()> {
        Ok(ActionFlag::SwitchState(States::State2))
    }

    fn on_finish(&mut self, _interrupted: bool) -> Result<(), ()> {
        Ok(())
    }
}

#[derive(Debug)]
pub struct ActionB {}

impl Action<States, (), RefCell<Ctx>> for ActionB {
    fn on_register(&mut self) -> Result<(), ()> {
        Ok(())
    }

    fn on_first_run(&mut self, _context: &RefCell<Ctx>) -> Result<(), ()> {
        Ok(())
    }

    fn execute(&mut self, _delta: i64, context: &RefCell<Ctx>) -> Result<ActionFlag<States>, ()> {
        context.borrow_mut().number += 1;
        Ok(ActionFlag::Continue)
    }

    fn on_finish(&mut self, _interrupted: bool) -> Result<(), ()> {
        Ok(())
    }
}

#[test]
fn test_state_machine_execution() {
    let mut machine = StateMachine::new();
    machine
        .add_action(States::State1, Box::new(ActionA {}))
        .unwrap();
    machine
        .add_action(States::State2, Box::new(ActionB {}))
        .unwrap();

    let ctx = RefCell::new(Ctx { number: 0 });

    for _ in 0..10 {
        machine.run(&ctx).unwrap();
    }
}

/// Per-action call counters shared with the test body.
#[derive(Clone, Default)]
struct Counters {
    registered: Rc<Cell<usize>>,
    first_runs: Rc<Cell<usize>>,
    executes: Rc<Cell<usize>>,
    finishes: Rc<Cell<usize>>,
}

/// States for the scenario tests; the default state is the entry state.
#[derive(Debug, PartialEq, Eq, Clone, Hash)]
enum Flow {
    Entry,
    Work,
    Other,
}

impl Default for Flow {
    fn default() -> Self {
        Flow::Entry
    }
}

/// An action that counts its hook calls and returns a fixed sequence of
/// flags from `execute`, cycling on the last one.
struct Scripted {
    counters: Counters,
    script: Vec<ActionFlag<Flow>>,
    deltas: Rc<RefCell<Vec<i64>>>,
}

impl Scripted {
    fn new(counters: &Counters, script: Vec<ActionFlag<Flow>>) -> Self {
        Scripted {
            counters: counters.clone(),
            script,
            deltas: Rc::new(RefCell::new(Vec::new())),
        }
    }
}

impl Action<Flow, String, ()> for Scripted {
    fn on_register(&mut self) -> Result<(), String> {
        self.counters.registered.set(self.counters.registered.get() + 1);
        Ok(())
    }

    fn on_first_run(&mut self, _context: &()) -> Result<(), String> {
        self.counters.first_runs.set(self.counters.first_runs.get() + 1);
        Ok(())
    }

    fn execute(&mut self, delta: i64, _context: &()) -> Result<ActionFlag<Flow>, String> {
        self.deltas.borrow_mut().push(delta);
        let n = self.counters.executes.get();
        self.counters.executes.set(n + 1);
        let idx = n.min(self.script.len() - 1);
        Ok(self.script[idx].clone())
    }

    fn on_finish(&mut self, _interrupted: bool) -> Result<(), String> {
        self.counters.finishes.set(self.counters.finishes.get() + 1);
        Ok(())
    }
}

#[test]
fn scenario_switch_then_count() {
    // The entry state's action always switches to Work; Work's action always
    // continues, incrementing a shared counter by one per tick.
    let a = Counters::default();
    let b = Counters::default();
    let mut machine: StateMachine<Flow, String, ()> = StateMachine::new();
    machine
        .add_action(
            Flow::Entry,
            Box::new(Scripted::new(&a, vec![ActionFlag::SwitchState(Flow::Work)])),
        )
        .unwrap();
    machine
        .add_action(Flow::Work, Box::new(Scripted::new(&b, vec![ActionFlag::Continue])))
        .unwrap();

    for _ in 0..10 {
        machine.run(&()).unwrap();
    }

    // Tick 1 ran the entry action once and switched; ticks 2 through 10 ran
    // the work action, so its counter reached 9. The entry action saw no
    // on_first_run: a new machine starts with its current and previous
    // state equal, so the first tick ever is not a fresh entry.
    assert_eq!(a.executes.get(), 1);
    assert_eq!(a.finishes.get(), 1);
    assert_eq!(a.first_runs.get(), 0);
    assert_eq!(b.executes.get(), 9);
    assert_eq!(b.first_runs.get(), 1);
    assert_eq!(b.finishes.get(), 0);
}

#[test]
fn single_binding_dispatches_to_second() {
    // Two registrations on the same state: ticks dispatch only to the
    // action registered second.
    let first = Counters::default();
    let second = Counters::default();
    let mut machine: StateMachine<Flow, String, ()> = StateMachine::new();
    machine
        .add_action(Flow::Entry, Box::new(Scripted::new(&first, vec![ActionFlag::Continue])))
        .unwrap();
    machine
        .add_action(Flow::Entry, Box::new(Scripted::new(&second, vec![ActionFlag::Continue])))
        .unwrap();

    assert_eq!(first.registered.get(), 1);
    assert_eq!(second.registered.get(), 1);

    for _ in 0..3 {
        machine.run(&()).unwrap();
    }
    assert_eq!(first.first_runs.get(), 0);
    assert_eq!(first.executes.get(), 0);
    assert_eq!(second.executes.get(), 3);
}

#[test]
fn idle_machine_runs_trivially() {
    // No action is bound to the current state: every tick is a no-op that
    // succeeds.
    let mut machine: StateMachine<Flow, String, ()> = StateMachine::new();
    for _ in 0..5 {
        machine.run(&()).unwrap();
    }

    // An action bound elsewhere leaves the current state idle too.
    let c = Counters::default();
    machine
        .add_action(Flow::Other, Box::new(Scripted::new(&c, vec![ActionFlag::Continue])))
        .unwrap();
    machine.run(&()).unwrap();
    assert_eq!(c.executes.get(), 0);
}

#[test]
fn stop_returns_to_default_state() {
    // The default state's action switches to Work once, then continues.
    // Work's action stops immediately, which must call its on_finish(false)
    // and put the machine back in the default state on the next tick.
    let entry = Counters::default();
    let work = Counters::default();
    let mut machine: StateMachine<Flow, String, ()> = StateMachine::new();
    machine
        .add_action(
            Flow::Entry,
            Box::new(Scripted::new(
                &entry,
                vec![ActionFlag::SwitchState(Flow::Work), ActionFlag::Continue],
            )),
        )
        .unwrap();
    machine
        .add_action(Flow::Work, Box::new(Scripted::new(&work, vec![ActionFlag::Stop])))
        .unwrap();

    machine.run(&()).unwrap(); // entry switches to Work
    machine.run(&()).unwrap(); // Work stops: back to the default state
    assert_eq!(work.executes.get(), 1);
    assert_eq!(work.finishes.get(), 1);

    machine.run(&()).unwrap(); // entry runs again, freshly entered
    assert_eq!(entry.executes.get(), 2);
    assert_eq!(entry.first_runs.get(), 1);
    assert_eq!(work.executes.get(), 1);
}

#[test]
fn first_run_once_per_episode() {
    let entry = Counters::default();
    let c = Counters::default();
    let mut machine: StateMachine<Flow, String, ()> = StateMachine::new();
    machine
        .add_action(
            Flow::Entry,
            Box::new(Scripted::new(&entry, vec![ActionFlag::SwitchState(Flow::Work)])),
        )
        .unwrap();
    machine
        .add_action(Flow::Work, Box::new(Scripted::new(&c, vec![ActionFlag::Continue])))
        .unwrap();
    for _ in 0..5 {
        machine.run(&()).unwrap();
    }
    // Fired on the first tick in the freshly entered state only, not on the
    // later ticks that stay there.
    assert_eq!(c.first_runs.get(), 1);
    assert_eq!(c.executes.get(), 4);
}

#[test]
fn deltas_are_nonnegative() {
    let c = Counters::default();
    let action = Scripted::new(&c, vec![ActionFlag::Continue]);
    let deltas = action.deltas.clone();
    let mut machine: StateMachine<Flow, String, ()> = StateMachine::new();
    machine.add_action(Flow::Entry, Box::new(action)).unwrap();
    for _ in 0..5 {
        machine.run(&()).unwrap();
    }
    let seen = deltas.borrow();
    assert_eq!(seen.len(), 5);
    for d in seen.iter() {
        assert!(*d >= 0);
    }
}

/// An action whose `execute` fails on its third call.
struct FailsThird {
    counters: Counters,
}

impl Action<Flow, String, ()> for FailsThird {
    fn on_register(&mut self) -> Result<(), String> {
        Ok(())
    }

    fn on_first_run(&mut self, _context: &()) -> Result<(), String> {
        Ok(())
    }

    fn execute(&mut self, _delta: i64, _context: &()) -> Result<ActionFlag<Flow>, String> {
        let n = self.counters.executes.get() + 1;
        self.counters.executes.set(n);
        if n == 3 {
            Err(String::from("third tick failed"))
        } else {
            Ok(ActionFlag::Continue)
        }
    }

    fn on_finish(&mut self, _interrupted: bool) -> Result<(), String> {
        self.counters.finishes.set(self.counters.finishes.get() + 1);
        Ok(())
    }
}

#[test]
fn execute_error_aborts_tick_and_keeps_state() {
    let c = Counters::default();
    let mut machine: StateMachine<Flow, String, ()> = StateMachine::new();
    machine
        .add_action(Flow::Entry, Box::new(FailsThird { counters: c.clone() }))
        .unwrap();

    machine.run(&()).unwrap();
    machine.run(&()).unwrap();
    let err = machine.run(&()).unwrap_err();
    assert_eq!(err, String::from("third tick failed"));
    // No on_finish was invoked for the failing action.
    assert_eq!(c.finishes.get(), 0);
    // The current state is unchanged: the next tick dispatches to the same
    // action again.
    machine.run(&()).unwrap();
    assert_eq!(c.executes.get(), 4);
}

/// An action whose registration fails.
struct RefusesRegistration {
    counters: Counters,
}

impl Action<Flow, String, ()> for RefusesRegistration {
    fn on_register(&mut self) -> Result<(), String> {
        Err(String::from("refused"))
    }

    fn on_first_run(&mut self, _context: &()) -> Result<(), String> {
        Ok(())
    }

    fn execute(&mut self, _delta: i64, _context: &()) -> Result<ActionFlag<Flow>, String> {
        let n = self.counters.executes.get() + 1;
        self.counters.executes.set(n);
        Ok(ActionFlag::Continue)
    }

    fn on_finish(&mut self, _interrupted: bool) -> Result<(), String> {
        Ok(())
    }
}

#[test]
fn failed_registration_inserts_nothing() {
    let c = Counters::default();
    let mut machine: StateMachine<Flow, String, ()> = StateMachine::new();
    let err = machine
        .add_action(Flow::Entry, Box::new(RefusesRegistration { counters: c.clone() }))
        .unwrap_err();
    assert_eq!(err, String::from("refused"));
    // The action was not inserted: ticks in that state stay idle.
    machine.run(&()).unwrap();
    assert_eq!(c.executes.get(), 0);
}

#[test]
fn remove_action_unbinds_state() {
    let c = Counters::default();
    let mut machine: StateMachine<Flow, String, ()> = StateMachine::new();
    machine
        .add_action(Flow::Entry, Box::new(Scripted::new(&c, vec![ActionFlag::Continue])))
        .unwrap();
    machine.run(&()).unwrap();
    assert_eq!(c.executes.get(), 1);

    machine.remove_action(Flow::Entry);
    machine.run(&()).unwrap();
    assert_eq!(c.executes.get(), 1);

    // Removing an unbound state is a no-op.
    machine.remove_action(Flow::Other);
    machine.run(&()).unwrap();
    assert_eq!(c.executes.get(), 1);
}
