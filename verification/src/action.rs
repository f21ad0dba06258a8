use vstd::prelude::*;

verus! {

/// Control signal an action returns from its per-tick execution, telling the
/// owning state machine what to do on the tick that just ran.
#[derive(Debug, Clone, PartialEq, Eq, Hash)]
pub enum ActionFlag<S> {
    /// Keep this action's state current; the same action runs on the next tick.
    Continue,
    /// End this action's episode and return the machine to its default state.
    Stop,
    /// End this action's episode and transition to the named state.
    SwitchState(S),
}

/// An executable action, bound to one state of a [`StateMachine`](crate::StateMachine).
///
/// A full episode of an action is `on_first_run`, one or more `execute`
/// calls, then `on_finish`; `on_register` happens at most once, when the
/// action is added to a machine. Every hook may fail with the caller-supplied
/// error type `E`, which aborts the operation in progress and surfaces the
/// error unchanged.
pub trait Action<S, E, Context> {
    /// Called once, when the action is registered with its parent machine.
    /// A failure aborts the registration: the action is not inserted.
    fn on_register(&mut self) -> Result<(), E>;

    /// Called once each time this action's state becomes current after a tick
    /// spent in a different state (or on the first tick ever in this state).
    fn on_first_run(&mut self, context: &Context) -> Result<(), E>;

    /// Called on every tick while this action's state is current, after any
    /// pending first-run hook has succeeded. `delta` is the elapsed wall-clock
    /// time, in microseconds, since the previous successful tick's completion.
    fn execute(&mut self, delta: i64, context: &Context) -> Result<ActionFlag<S>, E>;

    /// Called when this action's episode ends because its own `execute`
    /// returned [`ActionFlag::Stop`] or [`ActionFlag::SwitchState`]. The run
    /// loop always passes `interrupted == false`; the `true` branch is
    /// reserved for removal-while-active semantics.
    fn on_finish(&mut self, interrupted: bool) -> Result<(), E>;
}

} // verus!
