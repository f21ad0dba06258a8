//! A minimal, generic finite-state-machine execution engine.
//!
//! A caller registers one [`Action`] per state value on a [`StateMachine`]
//! and repeatedly advances the machine by one tick with
//! [`StateMachine::run`], which dispatches to the action bound to the
//! current state and applies the control flag it returns.

pub mod action;
mod clock;
pub mod laws;
pub mod statemachine;

pub use action::Action;
pub use action::ActionFlag;
pub use statemachine::StateMachine;
