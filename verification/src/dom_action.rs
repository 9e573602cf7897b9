//! DOM actions
//!
//! The action records the propagation engine hands back to the host: the
//! sole side channel through which the library describes what the UI should
//! paint.

use vstd::prelude::*;

verus! {

/// Type of action.
#[derive(Copy, Clone, PartialEq, Eq, Debug, Structural)]
pub enum ActionType {
    /// Flash a cell red indicating that the input was invalid.
    FlashError,
    /// Flash a cell green and set it to a new (corrected) value.
    FlashSet,
    /// Set a cell to a value (without any flashing or anything).
    SetValue,
}

/// Action to perform on the DOM.
#[derive(Clone, PartialEq, Eq, Debug)]
pub struct Action {
    /// What to do.
    pub ty: ActionType,
    /// And what cell to do it to.
    pub id: String,
    /// Data for the action (e.g. to set a cell to a particular value).
    pub value: Option<char>,
}

} // verus!
