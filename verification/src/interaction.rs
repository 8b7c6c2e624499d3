//! What a frontend is asked to do on the user's behalf.

use vstd::prelude::*;
use crate::model::{Candidate, TransactionPlan};

verus! {

/// A question for the user.
#[derive(Debug, Clone, PartialEq, Eq)]
pub enum Interaction {
    SelectCandidate(Vec<Candidate>),
    Confirm(TransactionPlan),
    RequestPrivilege(PrivilegedOperation),
}

/// An operation that needs elevated privileges.
#[derive(Debug, Clone, PartialEq, Eq)]
pub enum PrivilegedOperation {
    Install(String),
    Remove(String),
    Upgrade,
}

/// A way to obtain elevated privileges (sudo, pkexec, ...); it talks to
/// the system, so nothing is promised of its answers.
pub trait PrivilegeProvider {
    fn available(&self) -> bool;

    fn elevate(&self, operation: PrivilegedOperation) -> Result<(), String>;
}

} // verus!
