//! The course of a mutating command (install, remove, upgrade): plan,
//! show the plan, stop on a dry run, obtain privileges, ask for
//! confirmation, execute, reconcile. The frontend performs each action and
//! reports back what happened; this module decides what comes next.

use vstd::prelude::*;
use crate::session::{known_total, known_values, signed_total, sum_i64, sum_u64, sums_fit_i64, sums_fit_u64};
use crate::text::{str_eq, strings_view};

verus! {

/// Which mutating command is running.
#[derive(Debug, Clone, Copy, PartialEq, Eq, Structural)]
pub enum FlowKind {
    Install,
    Remove,
    Upgrade,
}

/// How far the command has come.
#[derive(Debug, Clone, Copy, PartialEq, Eq, Structural)]
pub enum FlowStage {
    Start,
    Planning,
    Summarizing,
    Privileging,
    Acquiring,
    Confirming,
    Executing,
    Done,
}

/// The state of a mutating command.
#[derive(Debug, Clone, Copy, PartialEq, Eq, Structural)]
pub struct Flow {
    pub kind: FlowKind,
    pub dry_run: bool,
    pub noconfirm: bool,
    pub stage: FlowStage,
    /// Some planned transaction needs elevated privileges.
    pub needs_privilege: bool,
    /// Privileges were acquired.
    pub privilege_held: bool,
}

/// What the frontend reports after performing an action.
#[derive(Debug, Clone, Copy, PartialEq, Eq, Structural)]
pub enum FlowEvent {
    /// The command was given `targets` targets.
    Started { targets: usize },
    /// Planning ended with `plans` plans and `failures` failed targets.
    Planned { plans: usize, failures: usize, needs_privilege: bool },
    SummaryShown,
    /// The privilege command was (or could not be) determined.
    PrivilegeResolved { ok: bool },
    PrivilegeAcquired { ok: bool },
    /// The user's answer to the confirmation prompt.
    Answered { yes: bool },
    /// All lanes finished; `all_ok` when none of them failed.
    Executed { all_ok: bool },
}

/// Why a command stopped before executing anything.
#[derive(Debug, Clone, Copy, PartialEq, Eq, Structural)]
pub enum FlowAbort {
    NoTargets,
    ResolutionFailed,
    NothingToUpgrade,
    PrivilegeUnavailable,
    PrivilegeDenied,
    Declined,
}

/// What the frontend is to do next.
#[derive(Debug, Clone, Copy, PartialEq, Eq, Structural)]
pub enum FlowAction {
    PlanTargets,
    ShowSummary,
    /// Stop after the summary: nothing executed, nothing written.
    FinishDryRun,
    ResolvePrivilege,
    AcquirePrivilege,
    AskConfirmation,
    Execute,
    /// Bring the stored state in line with the backends; `after_failure`
    /// when some lane failed (only an upgrade reconciles then).
    Reconcile { after_failure: bool },
    /// Some lanes failed; the user is pointed at `sync`.
    ReportPartialFailure,
    Abort(FlowAbort),
    /// The event does not belong to the current stage: nothing happens.
    Ignore,
}

/// The state `f` moves to when it reaches `stage`.
pub open spec fn at_stage(f: Flow, stage: FlowStage) -> Flow {
    Flow { stage, ..f }
}

/// After privileges are settled: straight to execution with `--noconfirm`,
/// otherwise ask first.
pub open spec fn before_execution(f: Flow) -> (Flow, FlowAction) {
    if f.noconfirm {
        (at_stage(f, FlowStage::Executing), FlowAction::Execute)
    } else {
        (at_stage(f, FlowStage::Confirming), FlowAction::AskConfirmation)
    }
}

/// One step of a mutating command: the next state and action after `e`.
pub open spec fn step_spec(f: Flow, e: FlowEvent) -> (Flow, FlowAction) {
    let stop = |a: FlowAbort| (at_stage(f, FlowStage::Done), FlowAction::Abort(a));
    match (f.stage, e) {
        (FlowStage::Start, FlowEvent::Started { targets }) => {
            if targets == 0 && f.kind != FlowKind::Upgrade {
                stop(FlowAbort::NoTargets)
            } else {
                (at_stage(f, FlowStage::Planning), FlowAction::PlanTargets)
            }
        },
        (FlowStage::Planning, FlowEvent::Planned { plans, failures, needs_privilege }) => {
            if f.kind == FlowKind::Upgrade && plans == 0 {
                stop(FlowAbort::NothingToUpgrade)
            } else if f.kind != FlowKind::Upgrade && failures > 0 {
                stop(FlowAbort::ResolutionFailed)
            } else {
                (
                    Flow { stage: FlowStage::Summarizing, needs_privilege, ..f },
                    FlowAction::ShowSummary,
                )
            }
        },
        (FlowStage::Summarizing, FlowEvent::SummaryShown) => {
            if f.dry_run {
                (at_stage(f, FlowStage::Done), FlowAction::FinishDryRun)
            } else {
                (at_stage(f, FlowStage::Privileging), FlowAction::ResolvePrivilege)
            }
        },
        (FlowStage::Privileging, FlowEvent::PrivilegeResolved { ok }) => {
            if !ok {
                stop(FlowAbort::PrivilegeUnavailable)
            } else if f.needs_privilege {
                (at_stage(f, FlowStage::Acquiring), FlowAction::AcquirePrivilege)
            } else {
                before_execution(f)
            }
        },
        (FlowStage::Acquiring, FlowEvent::PrivilegeAcquired { ok }) => {
            if ok {
                before_execution(Flow { privilege_held: true, ..f })
            } else {
                stop(FlowAbort::PrivilegeDenied)
            }
        },
        (FlowStage::Confirming, FlowEvent::Answered { yes }) => {
            if yes {
                (at_stage(f, FlowStage::Executing), FlowAction::Execute)
            } else {
                stop(FlowAbort::Declined)
            }
        },
        (FlowStage::Executing, FlowEvent::Executed { all_ok }) => {
            if all_ok || f.kind == FlowKind::Upgrade {
                (at_stage(f, FlowStage::Done), FlowAction::Reconcile { after_failure: !all_ok })
            } else {
                (at_stage(f, FlowStage::Done), FlowAction::ReportPartialFailure)
            }
        },
        _ => (f, FlowAction::Ignore),
    }
}

impl Flow {
    /// A command that has not started yet.
    pub fn new(kind: FlowKind, dry_run: bool, noconfirm: bool) -> (r: Flow)
        ensures
            r == (Flow {
                kind,
                dry_run,
                noconfirm,
                stage: FlowStage::Start,
                needs_privilege: false,
                privilege_held: false,
            }),
    {
        Flow {
            kind,
            dry_run,
            noconfirm,
            stage: FlowStage::Start,
            needs_privilege: false,
            privilege_held: false,
        }
    }

    fn settle(self) -> (r: (Flow, FlowAction))
        ensures
            r == before_execution(self),
    {
        if self.noconfirm {
            (Flow { stage: FlowStage::Executing, ..self }, FlowAction::Execute)
        } else {
            (Flow { stage: FlowStage::Confirming, ..self }, FlowAction::AskConfirmation)
        }
    }

    fn stop(self, why: FlowAbort) -> (r: (Flow, FlowAction))
        ensures
            r == (at_stage(self, FlowStage::Done), FlowAction::Abort(why)),
    {
        (Flow { stage: FlowStage::Done, ..self }, FlowAction::Abort(why))
    }

    /// The next state and action after `event`. An event that does not
    /// belong to the current stage changes nothing.
    pub fn step(&self, event: FlowEvent) -> (r: (Flow, FlowAction))
        ensures
            r == step_spec(*self, event),
            r.1 == FlowAction::Execute ==> self.noconfirm || event == (FlowEvent::Answered {
                yes: true,
            }),
    {
        let f = *self;
        match (f.stage, event) {
            (FlowStage::Start, FlowEvent::Started { targets }) => {
                if targets == 0 && f.kind != FlowKind::Upgrade {
                    f.stop(FlowAbort::NoTargets)
                } else {
                    (Flow { stage: FlowStage::Planning, ..f }, FlowAction::PlanTargets)
                }
            },
            (FlowStage::Planning, FlowEvent::Planned { plans, failures, needs_privilege }) => {
                if f.kind == FlowKind::Upgrade && plans == 0 {
                    f.stop(FlowAbort::NothingToUpgrade)
                } else if f.kind != FlowKind::Upgrade && failures > 0 {
                    f.stop(FlowAbort::ResolutionFailed)
                } else {
                    (
                        Flow { stage: FlowStage::Summarizing, needs_privilege, ..f },
                        FlowAction::ShowSummary,
                    )
                }
            },
            (FlowStage::Summarizing, FlowEvent::SummaryShown) => {
                if f.dry_run {
                    (Flow { stage: FlowStage::Done, ..f }, FlowAction::FinishDryRun)
                } else {
                    (Flow { stage: FlowStage::Privileging, ..f }, FlowAction::ResolvePrivilege)
                }
            },
            (FlowStage::Privileging, FlowEvent::PrivilegeResolved { ok }) => {
                if !ok {
                    f.stop(FlowAbort::PrivilegeUnavailable)
                } else if f.needs_privilege {
                    (Flow { stage: FlowStage::Acquiring, ..f }, FlowAction::AcquirePrivilege)
                } else {
                    f.settle()
                }
            },
            (FlowStage::Acquiring, FlowEvent::PrivilegeAcquired { ok }) => {
                if ok {
                    Flow { privilege_held: true, ..f }.settle()
                } else {
                    f.stop(FlowAbort::PrivilegeDenied)
                }
            },
            (FlowStage::Confirming, FlowEvent::Answered { yes }) => {
                if yes {
                    (Flow { stage: FlowStage::Executing, ..f }, FlowAction::Execute)
                } else {
                    f.stop(FlowAbort::Declined)
                }
            },
            (FlowStage::Executing, FlowEvent::Executed { all_ok }) => {
                if all_ok || f.kind == FlowKind::Upgrade {
                    (
                        Flow { stage: FlowStage::Done, ..f },
                        FlowAction::Reconcile { after_failure: !all_ok },
                    )
                } else {
                    (Flow { stage: FlowStage::Done, ..f }, FlowAction::ReportPartialFailure)
                }
            },
            _ => (f, FlowAction::Ignore),
        }
    }
}

// ---------------------------------------------------------------------
// Runs of events
// ---------------------------------------------------------------------

/// The state after the first `k` events of `es`.
pub open spec fn state_after(f: Flow, es: Seq<FlowEvent>, k: nat) -> Flow
    decreases k,
{
    if k == 0 {
        f
    } else {
        step_spec(state_after(f, es, (k - 1) as nat), es[k - 1]).0
    }
}

/// The action answered to the event `es[k]`.
pub open spec fn action_at(f: Flow, es: Seq<FlowEvent>, k: nat) -> FlowAction {
    step_spec(state_after(f, es, k), es[k as int]).1
}

/// A command as `Flow::new` makes it.
pub open spec fn fresh(f: Flow) -> bool {
    f.stage == FlowStage::Start && !f.needs_privilege && !f.privilege_held
}

/// What holds of every state that a fresh command reaches.
pub open spec fn coherent(f: Flow) -> bool {
    &&& f.dry_run ==> (f.stage == FlowStage::Start || f.stage == FlowStage::Planning
        || f.stage == FlowStage::Summarizing || f.stage == FlowStage::Done)
    &&& (f.stage == FlowStage::Confirming || f.stage == FlowStage::Executing) ==> (
    f.needs_privilege ==> f.privilege_held)
}

proof fn lemma_step_keeps_settings(f: Flow, e: FlowEvent)
    ensures
        step_spec(f, e).0.kind == f.kind,
        step_spec(f, e).0.dry_run == f.dry_run,
        step_spec(f, e).0.noconfirm == f.noconfirm,
        step_spec(f, e).0.privilege_held ==> (f.privilege_held || e == (FlowEvent::PrivilegeAcquired {
            ok: true,
        })),
{
}

proof fn lemma_step_coherent(f: Flow, e: FlowEvent)
    requires
        coherent(f),
    ensures
        coherent(step_spec(f, e).0),
        step_spec(f, e).1 == FlowAction::Execute ==> !f.dry_run,
        step_spec(f, e).1 == FlowAction::Execute ==> step_spec(f, e).0.stage == FlowStage::Executing,
{
}

proof fn lemma_settings_after(f: Flow, es: Seq<FlowEvent>, k: nat)
    requires
        k <= es.len(),
    ensures
        state_after(f, es, k).kind == f.kind,
        state_after(f, es, k).dry_run == f.dry_run,
        state_after(f, es, k).noconfirm == f.noconfirm,
    decreases k,
{
    if k > 0 {
        lemma_settings_after(f, es, (k - 1) as nat);
        lemma_step_keeps_settings(state_after(f, es, (k - 1) as nat), es[k - 1]);
    }
}

proof fn lemma_coherent_after(f: Flow, es: Seq<FlowEvent>, k: nat)
    requires
        fresh(f),
        k <= es.len(),
    ensures
        coherent(state_after(f, es, k)),
    decreases k,
{
    if k > 0 {
        lemma_coherent_after(f, es, (k - 1) as nat);
        lemma_step_coherent(state_after(f, es, (k - 1) as nat), es[k - 1]);
    }
}

proof fn lemma_privilege_history(f: Flow, es: Seq<FlowEvent>, k: nat)
    requires
        fresh(f),
        k <= es.len(),
        state_after(f, es, k).privilege_held,
    ensures
        exists|j: int| 0 <= j < k && es[j] == (FlowEvent::PrivilegeAcquired { ok: true }),
    decreases k,
{
    if k > 0 {
        let prev = state_after(f, es, (k - 1) as nat);
        lemma_step_keeps_settings(prev, es[k - 1]);
        if prev.privilege_held {
            lemma_privilege_history(f, es, (k - 1) as nat);
            let j = choose|j: int| 0 <= j < k - 1 && es[j] == (FlowEvent::PrivilegeAcquired { ok: true });
            assert(0 <= j < k && es[j] == (FlowEvent::PrivilegeAcquired { ok: true }));
        } else {
            assert(es[k - 1] == (FlowEvent::PrivilegeAcquired { ok: true }));
        }
    }
}

/// A dry run never executes anything, whatever the frontend reports.
pub proof fn lemma_dry_run_executes_nothing(f: Flow, es: Seq<FlowEvent>, k: nat)
    requires
        fresh(f),
        f.dry_run,
        k < es.len(),
    ensures
        action_at(f, es, k) != FlowAction::Execute,
{
    lemma_coherent_after(f, es, k);
    lemma_settings_after(f, es, k);
    lemma_step_coherent(state_after(f, es, k), es[k as int]);
}

/// Nothing is executed unless the user has just said yes, or `--noconfirm`
/// was given.
pub proof fn lemma_execution_needs_consent(f: Flow, es: Seq<FlowEvent>, k: nat)
    requires
        k < es.len(),
        action_at(f, es, k) == FlowAction::Execute,
    ensures
        f.noconfirm || es[k as int] == (FlowEvent::Answered { yes: true }),
{
    lemma_settings_after(f, es, k);
}

/// When some plan needs privileges, execution comes only after they were
/// acquired.
pub proof fn lemma_privileged_execution_follows_acquisition(
    f: Flow,
    es: Seq<FlowEvent>,
    k: nat,
)
    requires
        fresh(f),
        k < es.len(),
        action_at(f, es, k) == FlowAction::Execute,
        state_after(f, es, k + 1).needs_privilege,
    ensures
        exists|j: int| 0 <= j <= k && es[j] == (FlowEvent::PrivilegeAcquired { ok: true }),
{
    lemma_coherent_after(f, es, k + 1);
    lemma_step_coherent(state_after(f, es, k), es[k as int]);
    assert(state_after(f, es, k + 1) == step_spec(state_after(f, es, k), es[k as int]).0);
    lemma_privilege_history(f, es, k + 1);
}

proof fn lemma_after_execution(f: Flow, es: Seq<FlowEvent>, i: nat, k: nat)
    requires
        i < k <= es.len(),
        action_at(f, es, i) == FlowAction::Execute,
    ensures
        state_after(f, es, k).stage == FlowStage::Executing || state_after(f, es, k).stage
            == FlowStage::Done,
    decreases k,
{
    if k == i + 1 {
        assert(state_after(f, es, k) == step_spec(state_after(f, es, i), es[i as int]).0);
    } else {
        lemma_after_execution(f, es, i, (k - 1) as nat);
    }
}

/// A command executes its plans at most once.
pub proof fn lemma_executes_at_most_once(f: Flow, es: Seq<FlowEvent>, i: nat, j: nat)
    requires
        i < j < es.len(),
        action_at(f, es, i) == FlowAction::Execute,
    ensures
        action_at(f, es, j) != FlowAction::Execute,
{
    lemma_after_execution(f, es, i, j);
}

/// Once a command is done (stopped, finished a dry run, or reconciled),
/// later events change nothing.
pub proof fn lemma_done_is_final(f: Flow, es: Seq<FlowEvent>, i: nat, k: nat)
    requires
        i <= k < es.len(),
        state_after(f, es, i).stage == FlowStage::Done,
    ensures
        action_at(f, es, k) == FlowAction::Ignore,
        state_after(f, es, k) == state_after(f, es, i),
    decreases k - i,
{
    if k > i {
        lemma_done_is_final(f, es, i, (k - 1) as nat);
    }
}

// ---------------------------------------------------------------------
// After the lanes of an install
// ---------------------------------------------------------------------

/// What follows one finished install lane.
#[derive(Debug, Clone, Copy, PartialEq, Eq, Structural)]
pub struct LaneFollowUp {
    /// Report the package as installed (and list its binaries).
    pub announce_installed: bool,
    /// Remember the chosen provider for the query.
    pub remember_alias: bool,
    /// Point at a prebuilt variant of an AUR package that failed to build.
    pub hint_prebuilt: bool,
}

/// What follows a lane: a successful lane with receipts is announced; the
/// provider is remembered only when the lane of the requested target
/// succeeded (never for the dependencies of an AUR chain); a failed AUR
/// target gets a hint at a prebuilt variant.
pub fn lane_follow_up(succeeded: bool, has_receipts: bool, is_target: bool, from_aur: bool) -> (r:
    LaneFollowUp)
    ensures
        r.announce_installed == (succeeded && has_receipts),
        r.remember_alias == (succeeded && is_target),
        r.hint_prebuilt == (!succeeded && is_target && from_aur),
{
    LaneFollowUp {
        announce_installed: succeeded && has_receipts,
        remember_alias: succeeded && is_target,
        hint_prebuilt: !succeeded && is_target && from_aur,
    }
}

/// Which plans of a chain of `n` are the requested target: the last one;
/// those before it are its dependencies.
pub fn chain_roles(n: usize) -> (r: Vec<bool>)
    ensures
        r@.len() == n,
        forall|i: int| 0 <= i < n ==> r@[i] == (i == n - 1),
{
    let mut out: Vec<bool> = Vec::new();
    let mut i: usize = 0;
    while i < n
        invariant
            i <= n,
            out@.len() == i,
            forall|j: int| 0 <= j < i ==> out@[j] == (j == n - 1),
        decreases n - i,
    {
        out.push(i + 1 == n);
        i = i + 1;
    }
    out
}

// ---------------------------------------------------------------------
// Totals of a summary
// ---------------------------------------------------------------------

pub open spec fn all_known<T>(s: Seq<Option<T>>) -> bool {
    forall|i: int| 0 <= i < s.len() ==> s[i] is Some
}

pub open spec fn any_known<T>(s: Seq<Option<T>>) -> bool {
    exists|i: int| 0 <= i < s.len() && s[i] is Some
}

proof fn lemma_known_values_empty<T>(s: Seq<Option<T>>)
    ensures
        (known_values(s).len() == 0) == !any_known(s),
    decreases s.len(),
{
    if s.len() > 0 {
        let p = s.drop_last();
        lemma_known_values_empty(p);
        if s.last() is None {
            if any_known(s) {
                let i = choose|i: int| 0 <= i < s.len() && s[i] is Some;
                assert(p[i] is Some);
            }
            if any_known(p) {
                let i = choose|i: int| 0 <= i < p.len() && p[i] is Some;
                assert(s[i] is Some);
            }
        } else {
            assert(s[s.len() - 1] is Some);
        }
    }
}

/// How a list of sizes ends: the total when every size is known, the
/// subtotal of the known ones when only some are, nothing when none is.
#[derive(Debug, Clone, Copy, PartialEq, Eq, Structural)]
pub enum SizeTotal {
    Total(u64),
    KnownSubtotal(u64),
    Omitted,
}

pub open spec fn size_total_spec(sizes: Seq<Option<u64>>) -> SizeTotal {
    if sizes.len() > 0 && all_known(sizes) {
        SizeTotal::Total(sum_u64(known_values(sizes)) as u64)
    } else if any_known(sizes) {
        SizeTotal::KnownSubtotal(sum_u64(known_values(sizes)) as u64)
    } else {
        SizeTotal::Omitted
    }
}

/// The closing line of an install or removal summary.
pub fn size_total_line(sizes: &[Option<u64>]) -> (r: SizeTotal)
    requires
        sums_fit_u64(known_values(sizes@)),
    ensures
        r == size_total_spec(sizes@),
{
    let total = known_total(sizes);
    let mut all = true;
    let mut any = false;
    let mut i: usize = 0;
    while i < sizes.len()
        invariant
            i <= sizes@.len(),
            all == (forall|j: int| 0 <= j < i ==> sizes@[j] is Some),
            any == (exists|j: int| 0 <= j < i && sizes@[j] is Some),
        decreases sizes.len() - i,
    {
        if sizes[i].is_some() {
            any = true;
        } else {
            all = false;
        }
        i = i + 1;
    }
    if sizes.len() > 0 && all {
        SizeTotal::Total(total)
    } else if any {
        SizeTotal::KnownSubtotal(total)
    } else {
        SizeTotal::Omitted
    }
}

/// How the size changes of an upgrade end: the total when every plan's
/// impact was available and every change is known, the subtotal of the
/// known changes otherwise, nothing when no change is known.
#[derive(Debug, Clone, Copy, PartialEq, Eq, Structural)]
pub enum DeltaTotal {
    Total(i64),
    KnownSubtotal(i64),
    Omitted,
}

pub open spec fn delta_total_spec(deltas: Seq<Option<i64>>, all_available: bool) -> DeltaTotal {
    if !any_known(deltas) {
        DeltaTotal::Omitted
    } else if all_available && all_known(deltas) {
        DeltaTotal::Total(sum_i64(known_values(deltas)) as i64)
    } else {
        DeltaTotal::KnownSubtotal(sum_i64(known_values(deltas)) as i64)
    }
}

/// The closing line of an upgrade summary.
pub fn delta_total_line(deltas: &[Option<i64>], all_available: bool) -> (r: DeltaTotal)
    requires
        sums_fit_i64(known_values(deltas@)),
    ensures
        r == delta_total_spec(deltas@, all_available),
{
    proof {
        lemma_known_values_empty(deltas@);
    }
    let mut all = true;
    let mut i: usize = 0;
    while i < deltas.len()
        invariant
            i <= deltas@.len(),
            all == (forall|j: int| 0 <= j < i ==> deltas@[j] is Some),
        decreases deltas.len() - i,
    {
        if deltas[i].is_none() {
            all = false;
        }
        i = i + 1;
    }
    match signed_total(deltas) {
        None => DeltaTotal::Omitted,
        Some(total) => {
            if all_available && all {
                DeltaTotal::Total(total)
            } else {
                DeltaTotal::KnownSubtotal(total)
            }
        },
    }
}

// ---------------------------------------------------------------------
// Grouping by backend
// ---------------------------------------------------------------------

/// The distinct keys among the first `n`, in order of first appearance.
pub open spec fn distinct_keys(keys: Seq<Seq<char>>, n: int) -> Seq<Seq<char>>
    decreases n,
{
    if n <= 0 {
        Seq::empty()
    } else {
        let p = distinct_keys(keys, n - 1);
        if p.contains(keys[n - 1]) {
            p
        } else {
            p.push(keys[n - 1])
        }
    }
}

/// The positions among the first `n` that hold `k`, ascending.
pub open spec fn positions_of(keys: Seq<Seq<char>>, k: Seq<char>, n: int) -> Seq<int>
    decreases n,
{
    if n <= 0 {
        Seq::empty()
    } else {
        let p = positions_of(keys, k, n - 1);
        if keys[n - 1] == k {
            p.push(n - 1)
        } else {
            p
        }
    }
}

pub open spec fn positions_view(v: Seq<usize>) -> Seq<int> {
    v.map_values(|i: usize| i as int)
}

fn contains_string(v: &Vec<String>, s: &str) -> (r: bool)
    ensures
        r == strings_view(v@).contains(s@),
{
    let mut i: usize = 0;
    while i < v.len()
        invariant
            i <= v@.len(),
            forall|j: int| 0 <= j < i ==> v@[j]@ != s@,
        decreases v.len() - i,
    {
        if str_eq(v[i].as_str(), s) {
            assert(strings_view(v@)[i as int] == s@);
            return true;
        }
        i = i + 1;
    }
    assert forall|j: int| 0 <= j < strings_view(v@).len() implies strings_view(v@)[j] != s@ by {
        assert(strings_view(v@)[j] == v@[j]@);
    }
    false
}

fn positions_in(keys: &Vec<String>, k: &str) -> (r: Vec<usize>)
    ensures
        positions_view(r@) == positions_of(strings_view(keys@), k@, keys@.len() as int),
{
    let ghost sv = strings_view(keys@);
    let mut out: Vec<usize> = Vec::new();
    let mut i: usize = 0;
    while i < keys.len()
        invariant
            i <= keys@.len(),
            sv == strings_view(keys@),
            positions_view(out@) == positions_of(sv, k@, i as int),
        decreases keys.len() - i,
    {
        let ghost before = out@;
        if str_eq(keys[i].as_str(), k) {
            out.push(i);
            assert(positions_view(out@) =~= positions_view(before).push(i as int));
        }
        assert(sv[i as int] == keys@[i as int]@);
        i = i + 1;
    }
    out
}

/// The keys' distinct values in order of first appearance, each with the
/// ascending positions that hold it.
pub fn group_by_key(keys: &Vec<String>) -> (r: Vec<(String, Vec<usize>)>)
    ensures
        r@.len() == distinct_keys(strings_view(keys@), keys@.len() as int).len(),
        forall|g: int|
            #![trigger r@[g]]
            0 <= g < r@.len() ==> r@[g].0@ == distinct_keys(strings_view(keys@), keys@.len() as int)[g]
                && positions_view(r@[g].1@) == positions_of(
                strings_view(keys@),
                r@[g].0@,
                keys@.len() as int,
            ),
{
    let ghost sv = strings_view(keys@);
    let mut names: Vec<String> = Vec::new();
    let mut i: usize = 0;
    while i < keys.len()
        invariant
            i <= keys@.len(),
            sv == strings_view(keys@),
            strings_view(names@) == distinct_keys(sv, i as int),
        decreases keys.len() - i,
    {
        assert(sv[i as int] == keys@[i as int]@);
        if !contains_string(&names, keys[i].as_str()) {
            let ghost before = strings_view(names@);
            names.push(keys[i].clone());
            assert(strings_view(names@) =~= before.push(keys@[i as int]@));
        }
        i = i + 1;
    }
    let ghost dk = distinct_keys(sv, keys@.len() as int);
    let mut out: Vec<(String, Vec<usize>)> = Vec::new();
    let mut g: usize = 0;
    while g < names.len()
        invariant
            g <= names@.len(),
            sv == strings_view(keys@),
            strings_view(names@) == dk,
            dk == distinct_keys(sv, keys@.len() as int),
            out@.len() == g,
            forall|h: int|
                #![trigger out@[h]]
                0 <= h < g ==> out@[h].0@ == dk[h] && positions_view(out@[h].1@) == positions_of(
                    sv,
                    out@[h].0@,
                    keys@.len() as int,
                ),
        decreases names.len() - g,
    {
        assert(dk[g as int] == names@[g as int]@);
        let members = positions_in(keys, names[g].as_str());
        out.push((names[g].clone(), members));
        g = g + 1;
    }
    out
}

} // verus!
