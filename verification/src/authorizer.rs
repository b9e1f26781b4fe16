//! The outcome of an access request.

use vstd::prelude::*;

use crate::ast::PolicyID;

verus! {

/// Whether access is granted.
#[derive(Debug, Clone, Copy, PartialEq, Eq, Structural)]
pub enum Decision {
    /// It is
    Allow,
    /// It is not
    Deny,
}

/// What led to a decision.
#[derive(Debug)]
pub struct Diagnostics {
    /// The policies that the decision is due to, each once
    pub reason: Vec<PolicyID>,
    /// The errors that were met on the way
    pub errors: Vec<String>,
}

} // verus!
