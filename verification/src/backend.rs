//! The interface every package backend implements, and how a backend
//! command is run with or without privilege elevation.

use vstd::prelude::*;
use crate::model::{Candidate, InstalledPackage, Source, TransactionOperation, TransactionPlan};
use crate::text::owned;

verus! {

/// How backend commands are launched: directly, or through a privilege
/// command such as `sudo` or `pkexec --user root`.
#[derive(Debug, Clone, PartialEq, Eq)]
pub struct ExecutionContext {
    pub privilege: Option<Vec<String>>,
}

/// The program and arguments that launch `program` under `privilege`.
pub open spec fn command_line_spec(privilege: Option<Seq<String>>, program: Seq<char>) -> (Seq<char>, Seq<Seq<char>>) {
    match privilege {
        Some(argv) if argv.len() > 0 => (
            argv[0]@,
            argv.skip(1).map_values(|a: String| a@).push(program),
        ),
        _ => (program, Seq::empty()),
    }
}

impl ExecutionContext {
    pub open spec fn privilege_view(&self) -> Option<Seq<String>> {
        match self.privilege {
            Some(v) => Some(v@),
            None => None,
        }
    }

    /// The program and arguments that run `program` in this context: the
    /// program itself without a privilege command (or with an empty one),
    /// else the privilege command followed by its own arguments and then
    /// `program`.
    pub fn command_line(&self, program: &str) -> (r: (String, Vec<String>))
        ensures
            r.0@ == command_line_spec(self.privilege_view(), program@).0,
            r.1@.map_values(|a: String| a@) == command_line_spec(self.privilege_view(), program@).1,
    {
        match &self.privilege {
            Some(argv) if argv.len() > 0 => {
                let mut args: Vec<String> = Vec::new();
                let mut i: usize = 1;
                while i < argv.len()
                    invariant
                        1 <= i <= argv@.len(),
                        args@.map_values(|a: String| a@) == argv@.subrange(1, i as int).map_values(
                            |a: String| a@,
                        ),
                    decreases argv.len() - i,
                {
                    let ghost before = args@.map_values(|a: String| a@);
                    args.push(argv[i].clone());
                    assert(args@.map_values(|a: String| a@) =~= before.push(argv@[i as int]@));
                    assert(argv@.subrange(1, i + 1).map_values(|a: String| a@) =~= argv@.subrange(
                        1,
                        i as int,
                    ).map_values(|a: String| a@).push(argv@[i as int]@));
                    i = i + 1;
                }
                let ghost before = args@.map_values(|a: String| a@);
                args.push(owned(program));
                assert(args@.map_values(|a: String| a@) =~= before.push(program@));
                assert(argv@.subrange(1, argv@.len() as int) =~= argv@.skip(1));
                (argv[0].clone(), args)
            },
            _ => {
                let args: Vec<String> = Vec::new();
                assert(args@.map_values(|a: String| a@) =~= Seq::<Seq<char>>::empty());
                (owned(program), args)
            },
        }
    }
}

/// What an upgrade would change on disk, per package.
#[derive(Debug, Clone, Default)]
pub struct UpgradeImpact {
    pub entries: Vec<UpgradeImpactEntry>,
}

/// Installed size before and after upgrading one package, where known.
#[derive(Debug, Clone)]
pub struct UpgradeImpactEntry {
    pub name: String,
    pub old_size: Option<u64>,
    pub new_size: Option<u64>,
}

/// A package ecosystem (pacman repositories, the AUR, Nix profiles).
/// Searching, listing and executing talk to the system, so nothing is
/// promised of their results.
pub trait PackageBackend: Send + Sync {
    fn name(&self) -> &'static str;

    fn source(&self) -> Source;

    fn search(&self, query: &str) -> Result<Vec<Candidate>, String>;

    fn installed(&self) -> Result<Vec<InstalledPackage>, String>;

    fn plan_install(&self, target: &Candidate) -> Result<TransactionPlan, String>;

    fn plan_remove(&self, target: &InstalledPackage) -> Result<TransactionPlan, String>;

    fn plan_upgrade(&self, target: &InstalledPackage) -> Result<TransactionPlan, String>;

    fn plan_upgrade_all(&self) -> Result<TransactionPlan, String>;

    /// The plans that install `target`, dependencies first. Unless a
    /// backend says otherwise, that is its one install plan.
    fn plan_install_chain(&self, target: &Candidate) -> (r: Result<Vec<TransactionPlan>, String>)
        default_ensures
            r matches Ok(plans) ==> plans@.len() == 1,
    {
        let plan = self.plan_install(target)?;
        let mut plans: Vec<TransactionPlan> = Vec::new();
        plans.push(plan);
        Ok(plans)
    }

    /// Installed packages of this backend that have a newer version; none
    /// unless a backend says otherwise.
    fn outdated(&self, installed: &[String]) -> (r: Result<Vec<Candidate>, String>)
        default_ensures
            r matches Ok(v) && v@.len() == 0,
    {
        Ok(Vec::new())
    }

    /// The plans that upgrade `targets`; none unless a backend says
    /// otherwise.
    fn plan_upgrade_chain(&self, targets: &[Candidate]) -> (r: Result<Vec<TransactionPlan>, String>)
        default_ensures
            r matches Ok(v) && v@.len() == 0,
    {
        Ok(Vec::new())
    }

    /// The disk space `target` takes once installed; unknown unless a
    /// backend says otherwise.
    fn install_size_estimate(&self, target: &Candidate) -> (r: Result<Option<u64>, String>)
        default_ensures
            r == Ok::<Option<u64>, String>(None),
    {
        Ok(None)
    }

    /// The disk space removing `target` frees; unknown unless a backend
    /// says otherwise.
    fn remove_size_estimate(&self, target: &InstalledPackage) -> (r: Result<Option<u64>, String>)
        default_ensures
            r == Ok::<Option<u64>, String>(None),
    {
        Ok(None)
    }

    /// How an upgrade plan changes sizes; unknown unless a backend says
    /// otherwise.
    fn upgrade_impact_estimate(&self, plan: &TransactionPlan) -> (r: Result<
        Option<UpgradeImpact>,
        String,
    >)
        default_ensures
            r matches Ok(None),
    {
        Ok(None)
    }

    fn execute_operation(&self, op: &TransactionOperation, ctx: &ExecutionContext) -> Result<(), String>;

    fn receipt_instances(
        &self,
        plan: &TransactionPlan,
        before: &[InstalledPackage],
        after: &[InstalledPackage],
    ) -> Result<Vec<InstalledPackage>, String>;
}

} // verus!
