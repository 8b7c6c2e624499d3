use std::sync::Mutex;

use pacnix::backend::{ExecutionContext, PackageBackend};
use pacnix::cli::{parse, to_targets};
use pacnix::command::Command;
use pacnix::executor::{finish_lane, run_lane, BackendPlan};
use pacnix::model::{
    Candidate, InstalledPackage, Provenance, Source, TargetSpec, TransactionOperation,
    TransactionPlan,
};
use pacnix::resolver::{RankedCandidate, Reason};
use pacnix::session::{
    alpm_foreign_names, binaries_from_files, context_for, dedup_adjacent, desc_line_value, foreign_names,
    installed_named, is_yes, known_total, needs_source_lookup, parse_selection, prebuilt_among,
    privilege_probe, provenance_mark, reasons, reconciled_provenance, signed_total, size_change,
    size_delta, SizeChange,
};

fn args(xs: &[&str]) -> Vec<String> {
    xs.iter().map(|s| s.to_string()).collect()
}

fn queries(ts: &[TargetSpec]) -> Vec<&str> {
    ts.iter().map(|t| t.query.as_str()).collect()
}

#[test]
fn pacman_style_flags_parse() {
    let (cmd, opts) = parse(&args(&["-S", "firefox", "ripgrep", "--noconfirm"])).unwrap();
    match cmd {
        Command::Install(ts) => assert_eq!(queries(&ts), vec!["firefox", "ripgrep"]),
        other => panic!("unexpected {other:?}"),
    }
    assert!(opts.noconfirm);
    assert!(!opts.dry_run);
    assert_eq!(parse(&args(&["-Syu"])).unwrap().0, Command::Upgrade);
    assert_eq!(parse(&args(&["-Q"])).unwrap().0, Command::ListInstalled);
    assert_eq!(parse(&args(&["-Ss", "web", "browser"])).unwrap().0, Command::Search("web browser".into()));
    assert_eq!(
        parse(&args(&["-Qi", "fire", "fox"])).unwrap().0,
        Command::Info(TargetSpec { query: "fire fox".into() })
    );
    match parse(&args(&["-R", "foo"])).unwrap().0 {
        Command::Remove(ts) => assert_eq!(queries(&ts), vec!["foo"]),
        other => panic!("unexpected {other:?}"),
    }
}

#[test]
fn verbs_parse_with_double_dash() {
    match parse(&args(&["install", "--dry-run", "--", "-weird-name"])).unwrap() {
        (Command::Install(ts), opts) => {
            assert_eq!(queries(&ts), vec!["-weird-name"]);
            assert!(opts.dry_run);
        }
        other => panic!("unexpected {other:?}"),
    }
    assert_eq!(parse(&args(&["sync"])).unwrap().0, Command::Sync);
    assert_eq!(parse(&args(&["list"])).unwrap().0, Command::ListInstalled);
    assert_eq!(parse(&args(&["upgrade"])).unwrap().0, Command::Upgrade);
    assert_eq!(parse(&args(&["search", "a", "b"])).unwrap().0, Command::Search("a b".into()));
    assert_eq!(
        parse(&args(&["info", "x", "y"])).unwrap().0,
        Command::Info(TargetSpec { query: "x".into() })
    );
    assert_eq!(parse(&args(&["info"])).unwrap_err(), "info requires a target");
}

#[test]
fn parse_errors() {
    assert_eq!(parse(&args(&[])).unwrap_err(), "no command given");
    assert_eq!(parse(&args(&["--dry-run"])).unwrap_err(), "no command given");
    assert_eq!(parse(&args(&["frobnicate"])).unwrap_err(), "unknown command: frobnicate");
    assert_eq!(
        parse(&args(&["-S", "x", "--privilege"])).unwrap_err(),
        "--privilege requires a command (e.g. sudo, pkexec, doas)"
    );
}

#[test]
fn privilege_and_ignored_flags() {
    let (_, opts) = parse(&args(&["--privilege", "pkexec --user root", "-Syu", "-E"])).unwrap();
    assert_eq!(opts.privilege, Some(args(&["pkexec", "--user", "root"])));
    assert_eq!(opts.ignored, args(&["-E"]));
    let (_, opts) = parse(&args(&["--privilege=doas", "--execute", "-Q"])).unwrap();
    assert_eq!(opts.privilege, Some(args(&["doas"])));
    assert_eq!(opts.ignored, args(&["--execute"]));
}

#[test]
fn targets_keep_their_queries() {
    let ts = to_targets(&args(&["a", "b c"]));
    assert_eq!(queries(&ts), vec!["a", "b c"]);
}

#[test]
fn binaries_are_read_from_files_lists() {
    let files = "%FILES%\nusr/\nusr/bin/\nusr/bin/rg\n/usr/bin/usr/bin/odd\nusr/share/doc/x\nusr/bin/sub/\n";
    assert_eq!(binaries_from_files(files), vec!["rg", "odd"]);
    assert_eq!(dedup_adjacent(&args(&["a", "a", "b", "a"])), args(&["a", "b", "a"]));
    let desc = "%NAME%\nfoo\n\n%VERSION%\n1.0\n%NAME%";
    assert_eq!(desc_line_value(desc, "%NAME%"), Some("foo".to_string()));
    assert_eq!(desc_line_value(desc, "%BASE%"), None);
    assert_eq!(desc_line_value("%NAME%", "%NAME%"), None);
}

#[test]
fn answers_and_selections() {
    assert!(is_yes(""));
    assert!(is_yes(" Y \n"));
    assert!(is_yes("yEs"));
    assert!(!is_yes("no"));
    assert!(!is_yes("yess"));
    assert_eq!(parse_selection("", 3), Some(0));
    assert_eq!(parse_selection(" 2\n", 3), Some(1));
    assert_eq!(parse_selection("+3", 3), Some(2));
    assert_eq!(parse_selection("4", 3), None);
    assert_eq!(parse_selection("0", 3), None);
    assert_eq!(parse_selection("two", 3), None);
}

fn ranked(source: Source, name: &str, reasons: Vec<Reason>) -> RankedCandidate {
    RankedCandidate {
        candidate: Candidate {
            source,
            provider: "aur".into(),
            backend_ref: format!("aur/{name}"),
            name: name.into(),
            version: None,
            description: None,
            package_base: None,
            url_path: None,
        },
        score: 0,
        reasons,
    }
}

#[test]
fn prebuilt_hints_and_reasons() {
    let list = vec![
        ranked(Source::Alpm, "foo-bin", vec![]),
        ranked(Source::Aur, "foo-git", vec![]),
        ranked(Source::Aur, "foo-static", vec![]),
        ranked(Source::Aur, "foo-bin", vec![]),
    ];
    assert_eq!(prebuilt_among(&list, "foo"), Some("foo-static".to_string()));
    assert_eq!(prebuilt_among(&list, "bar"), None);
    let r = ranked(Source::Aur, "x", vec![Reason::ExactName, Reason::BackendPriority("aur")]);
    assert_eq!(reasons(&r), "exact name match; aur backend priority");
    assert_eq!(reasons(&ranked(Source::Aur, "x", vec![])), "");
}

#[test]
fn size_totals() {
    assert_eq!(signed_total(&[]), None);
    assert_eq!(signed_total(&[None, None]), None);
    assert_eq!(signed_total(&[Some(5), None, Some(-7)]), Some(-2));
    assert_eq!(known_total(&[Some(1), None, Some(2)]), 3);
    assert_eq!(size_delta(10, 4), -6);
}

fn installed(name: &str, provenance: Provenance, installed_at: Option<i64>) -> InstalledPackage {
    InstalledPackage {
        source: Source::Alpm,
        backend_ref: format!("local/{name}"),
        name: name.into(),
        version: Some("1".into()),
        scope: None,
        installed_at,
        provenance,
    }
}

#[test]
fn reconciling_provenance() {
    let foreign = installed("yay", Provenance::Foreign, Some(1));
    assert!(needs_source_lookup(&foreign));
    assert!(!needs_source_lookup(&installed("x", Provenance::SyncKnown, Some(1))));
    assert!(needs_source_lookup(&installed("x", Provenance::Unknown, None)));
    let aur = args(&["yay"]);
    assert_eq!(
        reconciled_provenance(&foreign, Some("aur".into()), true, &aur),
        (Provenance::PacnixInstalled { source: "aur".into() }, false)
    );
    assert_eq!(
        reconciled_provenance(&foreign, None, true, &aur),
        (Provenance::Inferred { source: "aur".into() }, true)
    );
    assert_eq!(reconciled_provenance(&foreign, None, false, &aur), (Provenance::Foreign, false));
    assert_eq!(
        reconciled_provenance(&foreign, None, true, &Vec::new()),
        (Provenance::Foreign, false)
    );
    let all = vec![
        foreign.clone(),
        installed("paru", Provenance::Foreign, None),
        installed("bash", Provenance::SyncKnown, Some(2)),
    ];
    assert_eq!(foreign_names(&all), args(&["yay"]));
    assert_eq!(installed_named(&all, "bash").len(), 1);
    assert!(installed_named(&all, "zsh").is_empty());
}

#[test]
fn privilege_contexts() {
    let plan = |p: bool| TransactionPlan {
        backend_ref: "r".into(),
        name: "n".into(),
        operations: Vec::new(),
        requires_privilege: p,
    };
    let argv = args(&["sudo"]);
    assert_eq!(context_for(&plan(true), &argv).privilege, Some(argv.clone()));
    assert_eq!(context_for(&plan(false), &argv).privilege, None);
    assert_eq!(
        privilege_probe(&args(&["sudo-rs", "-E"])),
        ("sudo-rs".to_string(), Some(args(&["-E", "-v"])))
    );
    assert_eq!(privilege_probe(&args(&["pkexec"])), ("pkexec".to_string(), None));
}

struct ScriptBackend {
    store: Mutex<Vec<InstalledPackage>>,
}

impl PackageBackend for ScriptBackend {
    fn name(&self) -> &'static str {
        "script"
    }
    fn source(&self) -> Source {
        Source::Nix
    }
    fn search(&self, _query: &str) -> Result<Vec<Candidate>, String> {
        Err("unused".into())
    }
    fn installed(&self) -> Result<Vec<InstalledPackage>, String> {
        Ok(self.store.lock().unwrap().clone())
    }
    fn plan_install(&self, _target: &Candidate) -> Result<TransactionPlan, String> {
        Err("unused".into())
    }
    fn plan_remove(&self, _target: &InstalledPackage) -> Result<TransactionPlan, String> {
        Err("unused".into())
    }
    fn plan_upgrade(&self, _target: &InstalledPackage) -> Result<TransactionPlan, String> {
        Err("unused".into())
    }
    fn plan_upgrade_all(&self) -> Result<TransactionPlan, String> {
        Err("unused".into())
    }
    fn execute_operation(&self, op: &TransactionOperation, _ctx: &ExecutionContext) -> Result<(), String> {
        match op {
            TransactionOperation::InstallPackage { package } => {
                self.store.lock().unwrap().push(InstalledPackage {
                    source: Source::Nix,
                    backend_ref: format!("/nix/store/000-{package}-1.0"),
                    name: package.clone(),
                    version: Some("1.0".into()),
                    scope: None,
                    installed_at: None,
                    provenance: Provenance::Unknown,
                });
                Ok(())
            }
            _ => Err("scripted failure".into()),
        }
    }
    fn receipt_instances(
        &self,
        plan: &TransactionPlan,
        _before: &[InstalledPackage],
        after: &[InstalledPackage],
    ) -> Result<Vec<InstalledPackage>, String> {
        Ok(after.iter().filter(|p| p.name == plan.name).cloned().collect())
    }
}

fn lane_plan(name: &str, ops: Vec<TransactionOperation>) -> TransactionPlan {
    TransactionPlan {
        backend_ref: format!("nixpkgs#{name}"),
        name: name.into(),
        operations: ops,
        requires_privilege: false,
    }
}

#[test]
fn lane_records_receipts_for_new_instances() {
    let backend = ScriptBackend { store: Mutex::new(Vec::new()) };
    let plan = lane_plan("foo", vec![TransactionOperation::InstallPackage { package: "foo".into() }]);
    let lane = BackendPlan { backend: &backend, plan: &plan, ctx: ExecutionContext { privilege: None } };
    let locked = |op: &TransactionOperation| Ok(backend.execute_operation(op, &lane.ctx));
    let report = run_lane(&lane, &|| backend.installed(), &|op: &TransactionOperation| backend.execute_operation(op, &lane.ctx), &locked, &|b: &[InstalledPackage], a: &[InstalledPackage]| backend.receipt_instances(&plan, b, a), &|| 42);
    assert!(report.error.is_none());
    assert_eq!(report.backend, "script");
    assert_eq!(report.receipts.len(), 1);
    let r = &report.receipts[0];
    assert_eq!(r.package_name, "foo");
    assert_eq!(r.installed_backend, "nix");
    assert_eq!(r.installed_backend_ref, "/nix/store/000-foo-1.0");
    assert_eq!(r.source, "nix");
    assert_eq!(r.source_ref, "nixpkgs#foo");
    assert_eq!(r.version.as_deref(), Some("1.0"));
    assert_eq!(r.installed_at, 42);
}

#[test]
fn failed_lane_records_no_receipt() {
    let backend = ScriptBackend { store: Mutex::new(Vec::new()) };
    let plan = lane_plan(
        "foo",
        vec![
            TransactionOperation::InstallPackage { package: "foo".into() },
            TransactionOperation::ProfileRemove { profile: "default".into(), attr: "foo".into() },
        ],
    );
    let lane = BackendPlan { backend: &backend, plan: &plan, ctx: ExecutionContext { privilege: None } };
    let locked = |op: &TransactionOperation| Ok(backend.execute_operation(op, &lane.ctx));
    let installed = || backend.installed();
    let execute = |op: &TransactionOperation| backend.execute_operation(op, &lane.ctx);
    let instances = |b: &[InstalledPackage], a: &[InstalledPackage]| backend.receipt_instances(&plan, b, a);
    let report = run_lane(&lane, &installed, &execute, &locked, &instances, &|| 0);
    assert_eq!(report.error.as_deref(), Some("script: scripted failure"));
    assert!(report.receipts.is_empty());
    let poisoned = |_: &TransactionOperation| Err("pacman db lock poisoned".to_string());
    let report = run_lane(&lane, &installed, &execute, &poisoned, &instances, &|| 0);
    assert_eq!(report.error.as_deref(), Some("pacman db lock poisoned"));
    assert!(report.receipts.is_empty());
}


#[test]
fn both_syntaxes_name_the_same_command() {
    let pairs = [("-S", "install"), ("-R", "remove"), ("-Ss", "search"), ("-Syu", "upgrade"), ("-Q", "list")];
    for (flag, verb) in pairs {
        let a = parse(&args(&[flag, "foo", "bar"])).unwrap().0;
        let b = parse(&args(&[verb, "foo", "bar"])).unwrap().0;
        assert_eq!(a, b, "{flag} vs {verb}");
    }
}

#[test]
fn a_verb_is_never_a_package_name() {
    for verb in ["install", "remove", "search", "list", "upgrade", "sync", "info"] {
        let parsed = parse(&args(&[verb, "x"]));
        assert!(parsed.is_ok(), "{verb}: {parsed:?}");
    }
    match parse(&args(&["install", "--", "install"])).unwrap().0 {
        Command::Install(ts) => assert_eq!(queries(&ts), vec!["install"]),
        other => panic!("unexpected {other:?}"),
    }
    match parse(&args(&["-S", "install"])).unwrap().0 {
        Command::Install(ts) => assert_eq!(queries(&ts), vec!["install"]),
        other => panic!("unexpected {other:?}"),
    }
}

#[test]
fn lane_without_changes_records_nothing() {
    let backend = ScriptBackend { store: Mutex::new(Vec::new()) };
    let plan = lane_plan("bar", Vec::new());
    let lane = BackendPlan { backend: &backend, plan: &plan, ctx: ExecutionContext { privilege: None } };
    let locked = |op: &TransactionOperation| Ok(backend.execute_operation(op, &lane.ctx));
    let report = run_lane(&lane, &|| backend.installed(), &|op: &TransactionOperation| backend.execute_operation(op, &lane.ctx), &locked, &|b: &[InstalledPackage], a: &[InstalledPackage]| backend.receipt_instances(&plan, b, a), &|| 0);
    assert!(report.error.is_none());
    assert!(report.receipts.is_empty());
}

#[test]
fn size_change_classifies_upgrade_entries() {
    assert_eq!(size_change(Some(1000), Some(1500)), SizeChange::Delta(500));
    assert_eq!(size_change(Some(1500), Some(1000)), SizeChange::Delta(-500));
    assert_eq!(size_change(None, Some(42)), SizeChange::New(42));
    assert_eq!(size_change(Some(42), None), SizeChange::Old(42));
    assert_eq!(size_change(None, None), SizeChange::Unknown);
    assert_eq!(size_change(Some(u64::MAX), Some(1)), SizeChange::Unknown);
}

#[test]
fn provenance_marks() {
    assert_eq!(provenance_mark(&Provenance::SyncKnown), "");
    assert_eq!(provenance_mark(&Provenance::Foreign), " (foreign)");
    assert_eq!(provenance_mark(&Provenance::Unknown), " (unknown)");
    assert_eq!(
        provenance_mark(&Provenance::Inferred { source: "aur".to_string() }),
        " (inferred: aur)"
    );
    assert_eq!(
        provenance_mark(&Provenance::PacnixInstalled { source: "nix".to_string() }),
        " (via pacnix: nix)"
    );
}

#[test]
fn pacman_flags_and_verbs_read_alike() {
    let pairs = [("-S", "install"), ("-R", "remove"), ("-Ss", "search"), ("-Syu", "upgrade"), ("-Q", "list")];
    for (flag, verb) in pairs {
        let a = parse(&args(&[flag, "--dry-run", "firefox", "--privilege", "doas", "htop"])).unwrap();
        let b = parse(&args(&[verb, "--dry-run", "firefox", "--privilege", "doas", "htop"])).unwrap();
        assert_eq!(a.0, b.0, "{flag} vs {verb}");
        assert_eq!(a.1.dry_run, b.1.dry_run);
        assert_eq!(a.1.noconfirm, b.1.noconfirm);
        assert_eq!(a.1.privilege, b.1.privilege);
        assert_eq!(a.1.ignored, b.1.ignored);
    }
    assert_eq!(
        parse(&args(&["-S", "--privilege"])).unwrap_err(),
        parse(&args(&["install", "--privilege"])).unwrap_err()
    );
}

#[test]
fn lane_attributes_instances_between_the_two_reads() {
    let backend = ScriptBackend { store: Mutex::new(Vec::new()) };
    let plan = lane_plan("foo", vec![TransactionOperation::InstallPackage { package: "foo".into() }]);
    let lane = BackendPlan { backend: &backend, plan: &plan, ctx: ExecutionContext { privilege: None } };
    let locked = |op: &TransactionOperation| Ok(backend.execute_operation(op, &lane.ctx));
    let execute = |op: &TransactionOperation| backend.execute_operation(op, &lane.ctx);
    let installed = || backend.installed();
    // Only what was not there before the operations is attributed.
    let new_only = |b: &[InstalledPackage], a: &[InstalledPackage]| -> Result<Vec<InstalledPackage>, String> {
        Ok(a.iter().filter(|p| !b.iter().any(|q| q.backend_ref == p.backend_ref)).cloned().collect())
    };
    let report = run_lane(&lane, &installed, &execute, &locked, &new_only, &|| 7);
    assert!(report.error.is_none());
    assert_eq!(report.receipts.len(), 1);
    assert_eq!(report.receipts[0].installed_backend_ref, "/nix/store/000-foo-1.0");
    assert_eq!(report.receipts[0].installed_at, 7);
    // Given a state that already holds the instance, nothing new appears.
    let before = backend.installed().unwrap();
    let report = finish_lane(&lane, &before, &installed, &execute, &locked, &new_only, &|| 7);
    assert!(report.error.is_none());
    assert!(report.receipts.is_empty());
    let refusing = |_: &[InstalledPackage], _: &[InstalledPackage]| -> Result<Vec<InstalledPackage>, String> {
        Err("store unreadable".to_string())
    };
    let report = finish_lane(&lane, &before, &installed, &execute, &locked, &refusing, &|| 7);
    assert_eq!(report.error.as_deref(), Some("store unreadable"));
    assert!(report.receipts.is_empty());
}

#[test]
fn info_flag_and_verb_read_alike_with_one_target() {
    let a = parse(&args(&["-Qi", "--noconfirm", "firefox"])).unwrap();
    let b = parse(&args(&["info", "--noconfirm", "firefox"])).unwrap();
    assert_eq!(a.0, b.0);
    assert_eq!(a.1.noconfirm, b.1.noconfirm);
}

#[test]
fn reconcile_looks_up_foreign_names_of_pacman_scans_only() {
    let pkg = |name: &str, provenance: Provenance, at: Option<i64>| InstalledPackage {
        source: Source::Alpm,
        backend_ref: format!("local/{name}"),
        name: name.to_string(),
        version: None,
        scope: None,
        installed_at: at,
        provenance,
    };
    let scans = vec![
        (Source::Alpm, Some(vec![pkg("yay", Provenance::Foreign, Some(1)), pkg("bash", Provenance::SyncKnown, Some(1))])),
        (Source::Nix, Some(vec![pkg("nixfoo", Provenance::Foreign, Some(1))])),
        (Source::Alpm, None),
        (Source::Alpm, Some(vec![pkg("paru", Provenance::Foreign, Some(2)), pkg("old", Provenance::Foreign, None)])),
    ];
    assert_eq!(alpm_foreign_names(&scans), vec!["yay", "paru"]);
}
