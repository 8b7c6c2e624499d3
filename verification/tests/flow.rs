use pacnix::flow::{
    chain_roles, delta_total_line, group_by_key, lane_follow_up, size_total_line, DeltaTotal, Flow,
    FlowAbort, FlowAction, FlowEvent, FlowKind, FlowStage, SizeTotal,
};

fn run(mut flow: Flow, events: &[FlowEvent]) -> Vec<FlowAction> {
    let mut actions = Vec::new();
    for e in events {
        let (next, action) = flow.step(*e);
        flow = next;
        actions.push(action);
    }
    actions
}

fn happy_path(needs_privilege: bool) -> Vec<FlowEvent> {
    vec![
        FlowEvent::Started { targets: 2 },
        FlowEvent::Planned { plans: 2, failures: 0, needs_privilege },
        FlowEvent::SummaryShown,
        FlowEvent::PrivilegeResolved { ok: true },
        FlowEvent::PrivilegeAcquired { ok: true },
        FlowEvent::Answered { yes: true },
        FlowEvent::Executed { all_ok: true },
    ]
}

#[test]
fn install_runs_through_every_step() {
    let flow = Flow::new(FlowKind::Install, false, false);
    let actions = run(flow, &happy_path(true));
    assert_eq!(
        actions,
        vec![
            FlowAction::PlanTargets,
            FlowAction::ShowSummary,
            FlowAction::ResolvePrivilege,
            FlowAction::AcquirePrivilege,
            FlowAction::AskConfirmation,
            FlowAction::Execute,
            FlowAction::Reconcile { after_failure: false },
        ]
    );
}

#[test]
fn unprivileged_plans_skip_acquisition() {
    let flow = Flow::new(FlowKind::Install, false, false);
    let events = vec![
        FlowEvent::Started { targets: 1 },
        FlowEvent::Planned { plans: 1, failures: 0, needs_privilege: false },
        FlowEvent::SummaryShown,
        FlowEvent::PrivilegeResolved { ok: true },
        FlowEvent::Answered { yes: true },
    ];
    assert_eq!(
        run(flow, &events),
        vec![
            FlowAction::PlanTargets,
            FlowAction::ShowSummary,
            FlowAction::ResolvePrivilege,
            FlowAction::AskConfirmation,
            FlowAction::Execute,
        ]
    );
}

#[test]
fn dry_run_stops_after_the_summary() {
    let flow = Flow::new(FlowKind::Remove, true, false);
    let actions = run(flow, &happy_path(true));
    assert_eq!(actions[2], FlowAction::FinishDryRun);
    assert!(actions[3..].iter().all(|a| *a == FlowAction::Ignore));
    assert!(!actions.contains(&FlowAction::Execute));
}

#[test]
fn noconfirm_executes_without_asking() {
    let flow = Flow::new(FlowKind::Upgrade, false, true);
    let events = vec![
        FlowEvent::Started { targets: 0 },
        FlowEvent::Planned { plans: 1, failures: 0, needs_privilege: true },
        FlowEvent::SummaryShown,
        FlowEvent::PrivilegeResolved { ok: true },
        FlowEvent::PrivilegeAcquired { ok: true },
    ];
    let actions = run(flow, &events);
    assert_eq!(actions.last(), Some(&FlowAction::Execute));
    assert!(!actions.contains(&FlowAction::AskConfirmation));
}

#[test]
fn missing_targets_abort_install_and_remove_only() {
    for kind in [FlowKind::Install, FlowKind::Remove] {
        let (next, action) = Flow::new(kind, false, false).step(FlowEvent::Started { targets: 0 });
        assert_eq!(action, FlowAction::Abort(FlowAbort::NoTargets));
        assert_eq!(next.stage, FlowStage::Done);
    }
    let (_, action) = Flow::new(FlowKind::Upgrade, false, false).step(FlowEvent::Started { targets: 0 });
    assert_eq!(action, FlowAction::PlanTargets);
}

#[test]
fn failed_resolution_aborts_before_the_summary() {
    let flow = Flow::new(FlowKind::Install, false, false);
    let events = vec![
        FlowEvent::Started { targets: 2 },
        FlowEvent::Planned { plans: 1, failures: 1, needs_privilege: false },
        FlowEvent::SummaryShown,
    ];
    assert_eq!(
        run(flow, &events),
        vec![
            FlowAction::PlanTargets,
            FlowAction::Abort(FlowAbort::ResolutionFailed),
            FlowAction::Ignore,
        ]
    );
}

#[test]
fn upgrade_goes_on_despite_failed_backends_but_not_without_plans() {
    let flow = Flow::new(FlowKind::Upgrade, false, false);
    let started = flow.step(FlowEvent::Started { targets: 0 }).0;
    let (_, with_plans) = started.step(FlowEvent::Planned { plans: 1, failures: 2, needs_privilege: false });
    assert_eq!(with_plans, FlowAction::ShowSummary);
    let (_, without) = started.step(FlowEvent::Planned { plans: 0, failures: 1, needs_privilege: false });
    assert_eq!(without, FlowAction::Abort(FlowAbort::NothingToUpgrade));
}

#[test]
fn privilege_and_confirmation_refusals_abort() {
    let base = vec![
        FlowEvent::Started { targets: 1 },
        FlowEvent::Planned { plans: 1, failures: 0, needs_privilege: true },
        FlowEvent::SummaryShown,
    ];
    let mut unavailable = base.clone();
    unavailable.push(FlowEvent::PrivilegeResolved { ok: false });
    let actions = run(Flow::new(FlowKind::Install, false, false), &unavailable);
    assert_eq!(actions.last(), Some(&FlowAction::Abort(FlowAbort::PrivilegeUnavailable)));

    let mut denied = base.clone();
    denied.push(FlowEvent::PrivilegeResolved { ok: true });
    denied.push(FlowEvent::PrivilegeAcquired { ok: false });
    let actions = run(Flow::new(FlowKind::Install, false, false), &denied);
    assert_eq!(actions.last(), Some(&FlowAction::Abort(FlowAbort::PrivilegeDenied)));

    let mut declined = base;
    declined.push(FlowEvent::PrivilegeResolved { ok: true });
    declined.push(FlowEvent::PrivilegeAcquired { ok: true });
    declined.push(FlowEvent::Answered { yes: false });
    let actions = run(Flow::new(FlowKind::Install, false, false), &declined);
    assert_eq!(actions.last(), Some(&FlowAction::Abort(FlowAbort::Declined)));
    assert!(!actions.contains(&FlowAction::Execute));
}

#[test]
fn failed_lanes_report_partial_failure_except_for_upgrade() {
    let mut events = happy_path(false);
    events.remove(4);
    *events.last_mut().unwrap() = FlowEvent::Executed { all_ok: false };
    let install = run(Flow::new(FlowKind::Install, false, false), &events);
    assert_eq!(install.last(), Some(&FlowAction::ReportPartialFailure));
    let remove = run(Flow::new(FlowKind::Remove, false, false), &events);
    assert_eq!(remove.last(), Some(&FlowAction::ReportPartialFailure));
    let upgrade = run(Flow::new(FlowKind::Upgrade, false, false), &events);
    assert_eq!(upgrade.last(), Some(&FlowAction::Reconcile { after_failure: true }));
}

#[test]
fn events_out_of_order_change_nothing() {
    let flow = Flow::new(FlowKind::Install, false, false);
    let (next, action) = flow.step(FlowEvent::Answered { yes: true });
    assert_eq!(action, FlowAction::Ignore);
    assert_eq!(next, flow);
}

#[test]
fn execution_happens_once() {
    let mut events = happy_path(true);
    events.push(FlowEvent::Answered { yes: true });
    events.push(FlowEvent::PrivilegeAcquired { ok: true });
    let actions = run(Flow::new(FlowKind::Install, false, true), &events);
    assert_eq!(actions.iter().filter(|a| **a == FlowAction::Execute).count(), 1);
}

#[test]
fn lane_follow_ups() {
    let ok_target = lane_follow_up(true, true, true, false);
    assert!(ok_target.announce_installed && ok_target.remember_alias && !ok_target.hint_prebuilt);
    let ok_dependency = lane_follow_up(true, true, false, true);
    assert!(ok_dependency.announce_installed && !ok_dependency.remember_alias);
    let quiet = lane_follow_up(true, false, true, false);
    assert!(!quiet.announce_installed && quiet.remember_alias);
    let failed_aur = lane_follow_up(false, false, true, true);
    assert!(!failed_aur.remember_alias && failed_aur.hint_prebuilt && !failed_aur.announce_installed);
    let failed_repo = lane_follow_up(false, false, true, false);
    assert!(!failed_repo.hint_prebuilt);
    let failed_dependency = lane_follow_up(false, false, false, true);
    assert!(!failed_dependency.hint_prebuilt);
}

#[test]
fn chain_roles_mark_the_last_plan() {
    assert_eq!(chain_roles(3), vec![false, false, true]);
    assert_eq!(chain_roles(1), vec![true]);
    assert!(chain_roles(0).is_empty());
}

#[test]
fn size_total_lines() {
    assert_eq!(size_total_line(&[Some(1024), Some(2048)]), SizeTotal::Total(3072));
    assert_eq!(size_total_line(&[Some(1024), None]), SizeTotal::KnownSubtotal(1024));
    assert_eq!(size_total_line(&[None, None]), SizeTotal::Omitted);
    assert_eq!(size_total_line(&[]), SizeTotal::Omitted);
}

#[test]
fn delta_total_lines() {
    assert_eq!(delta_total_line(&[Some(5), Some(-8)], true), DeltaTotal::Total(-3));
    assert_eq!(delta_total_line(&[Some(5), Some(-8)], false), DeltaTotal::KnownSubtotal(-3));
    assert_eq!(delta_total_line(&[Some(2), None], true), DeltaTotal::KnownSubtotal(2));
    assert_eq!(delta_total_line(&[None], true), DeltaTotal::Omitted);
    assert_eq!(delta_total_line(&[], false), DeltaTotal::Omitted);
}

#[test]
fn grouping_keeps_first_appearance_order() {
    let keys: Vec<String> = ["ALPM", "AUR", "ALPM", "NIX", "AUR"].iter().map(|s| s.to_string()).collect();
    let groups = group_by_key(&keys);
    assert_eq!(
        groups,
        vec![
            ("ALPM".to_string(), vec![0, 2]),
            ("AUR".to_string(), vec![1, 4]),
            ("NIX".to_string(), vec![3]),
        ]
    );
    assert!(group_by_key(&Vec::new()).is_empty());
}
