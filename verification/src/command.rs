//! The operations a user can ask for.

use vstd::prelude::*;
use crate::model::TargetSpec;

verus! {

/// A command, whichever syntax (pacman-style or verb) it was written in.
#[derive(Debug, Clone, PartialEq, Eq)]
pub enum Command {
    Install(Vec<TargetSpec>),
    Remove(Vec<TargetSpec>),
    Search(String),
    Info(TargetSpec),
    ListInstalled,
    Upgrade,
    Sync,
}

} // verus!
