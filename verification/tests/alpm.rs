use pacnix::alpm::{
    desc_field, desc_install_date, interpret_pacman_output, parse_installed,
    parse_installed_size, parse_search, parse_upgrade_candidates, with_install_dates, AlpmBackend,
};
use pacnix::model::{Candidate, InstalledPackage, Provenance, Source, TransactionOperation, TransactionPlan};

#[test]
fn parse_search_output() {
    let out = "extra/firefox 122.0-1\n    Standalone web browser\nchaotic-aur/foo-bin 1.2-3\n    Foo binary\n";
    let candidates = parse_search(out);
    assert_eq!(candidates.len(), 2);
    assert_eq!(candidates[0].provider, "extra");
    assert_eq!(candidates[0].name, "firefox");
    assert_eq!(candidates[0].version.as_deref(), Some("122.0-1"));
    assert_eq!(candidates[0].description.as_deref(), Some("Standalone web browser"));
    assert_eq!(candidates[1].provider, "chaotic-aur");
    assert_eq!(candidates[1].name, "foo-bin");
}

#[test]
fn parse_installed_output() {
    let parsed = parse_installed("firefox 122.0-1\nfoo 1.2-1\n", Provenance::SyncKnown);
    assert_eq!(parsed.len(), 2);
    assert_eq!(parsed[0].name, "firefox");
    assert_eq!(parsed[0].version.as_deref(), Some("122.0-1"));
    assert_eq!(parsed[0].backend_ref, "local/firefox");
    assert_eq!(parsed[1].name, "foo");
}

#[test]
fn receipt_instances_exclude_dependencies() {
    let backend = AlpmBackend;
    let plan = TransactionPlan {
        backend_ref: "extra/foo".into(),
        name: "foo".into(),
        operations: vec![TransactionOperation::InstallPackage { package: "extra/foo".into() }],
        requires_privilege: true,
    };
    let pkg = |name: &str| InstalledPackage {
        source: Source::Alpm,
        backend_ref: format!("local/{name}"),
        name: name.into(),
        version: Some("1.0-1".into()),
        scope: None,
        installed_at: None,
        provenance: Provenance::SyncKnown,
    };
    let after = vec![pkg("foo"), pkg("libfoo")];
    let receipts = backend.receipt_instances(&plan, &[], &after).unwrap();
    assert_eq!(receipts.len(), 1);
    assert_eq!(receipts[0].name, "foo");
}

#[test]
fn upgrade_all_is_single_system_upgrade() {
    let backend = AlpmBackend;
    let plan = backend.plan_upgrade_all().unwrap();
    assert_eq!(
        plan.operations,
        vec![TransactionOperation::SystemUpgrade { system: "pacman".into() }]
    );
    assert!(plan.requires_privilege);
}

fn alpm_candidate(name: &str) -> Candidate {
    Candidate {
        source: Source::Alpm,
        provider: "extra".into(),
        backend_ref: format!("extra/{name}"),
        name: name.into(),
        version: None,
        description: None,
        package_base: None,
        url_path: None,
    }
}

#[test]
fn upgrade_chain_plans_system_upgrade_only_with_targets() {
    let backend = AlpmBackend;
    assert_eq!(backend.plan_upgrade_chain(&[]).unwrap(), Vec::new());
    let plan = backend
        .plan_upgrade_chain(&[alpm_candidate("foo"), alpm_candidate("bar")])
        .unwrap();
    assert_eq!(plan.len(), 1);
    assert_eq!(plan[0].name, "foo, bar");
    assert_eq!(
        plan[0].operations,
        vec![TransactionOperation::SystemUpgrade { system: "pacman".into() }]
    );
    assert!(plan[0].requires_privilege);
}

#[test]
fn install_plan_targets_repo_qualified_package() {
    let backend = AlpmBackend;
    let cand = Candidate {
        source: Source::Alpm,
        provider: "chaotic-aur".into(),
        backend_ref: "chaotic-aur/foo-bin".into(),
        name: "foo-bin".into(),
        version: Some("1.2-3".into()),
        description: None,
        package_base: None,
        url_path: None,
    };
    let plan = backend.plan_install(&cand).unwrap();
    assert_eq!(plan.backend_ref, "chaotic-aur/foo-bin");
    assert_eq!(
        plan.operations,
        vec![TransactionOperation::InstallPackage { package: "chaotic-aur/foo-bin".into() }],
        "install must pin the chosen repo, not let pacman pick by pacman.conf order"
    );
}

#[test]
fn desc_field_extracts_name_and_install_date() {
    let desc = "%NAME%\nfoo\n\n%VERSION%\n1.0-1\n\n%INSTALLDATE%\n1700000000\n";
    assert_eq!(desc_field(desc, "%NAME%"), Some("foo".into()));
    assert_eq!(desc_field(desc, "%INSTALLDATE%"), Some("1700000000".into()));
    assert_eq!(desc_field(desc, "%MISSING%"), None);
}

#[test]
fn parses_search_output() {
    let out = "extra/firefox 122.0-1\n    Standalone web browser\nchaotic-aur/foo-bin 1.2-3\n    Foo binary\n";
    let candidates = parse_search(out);
    assert_eq!(candidates.len(), 2);
    assert_eq!(candidates[0].provider, "extra");
    assert_eq!(candidates[0].name, "firefox");
    assert_eq!(candidates[0].version.as_deref(), Some("122.0-1"));
    assert_eq!(candidates[0].description.as_deref(), Some("Standalone web browser"));
    assert_eq!(candidates[1].provider, "chaotic-aur");
}

#[test]
fn parses_upgrade_print_list() {
    let out = "extra/blender\nextra/ffmpeg\n";
    let candidates = parse_upgrade_candidates(out);
    assert_eq!(
        candidates,
        vec![
            ("extra".to_string(), "blender".to_string()),
            ("extra".to_string(), "ffmpeg".to_string()),
        ]
    );
    assert!(parse_upgrade_candidates("").is_empty());
    assert!(
        parse_upgrade_candidates("https://mirror/extra/blender.pkg.tar.zst").is_empty(),
        "url-style default %l output must not produce repo/name pairs"
    );
}

#[test]
fn parses_size_from_si_and_qi_output() {
    let si = "Repository      : extra\nName            : blender\nVersion         : 17:5.2.0-4\nInstalled Size  : 381.68 MiB\n";
    let qi = "Name            : a52dec\nVersion         : 0.8.0-3\nInstalled Size  : 132.34 KiB\nBuild Date      : ...\n";
    assert_eq!(parse_installed_size(si), Some(400_220_488));
    assert_eq!(parse_installed_size(qi), Some(135516));
    assert_eq!(parse_installed_size("Name : foo\n"), None);
}

#[test]
fn installed_size_units_and_rounding() {
    assert_eq!(parse_installed_size("Installed Size : 12 B\n"), Some(12));
    assert_eq!(parse_installed_size("Installed Size : 1.5 GiB\n"), Some(1_610_612_736));
    assert_eq!(parse_installed_size("Installed Size : 0.5 B\n"), Some(1));
    assert_eq!(parse_installed_size("Installed Size : 3 TiB\n"), None);
    assert_eq!(parse_installed_size("Installed Size :\n"), None);
}

#[test]
fn pacman_output_is_interpreted() {
    let args = vec!["-Qi".to_string(), "foo".to_string()];
    assert_eq!(
        interpret_pacman_output(&args, true, "out\n".to_string(), "ignored"),
        Ok("out\n".to_string())
    );
    assert_eq!(interpret_pacman_output(&args, false, "x".to_string(), "  \n"), Ok(String::new()));
    assert_eq!(
        interpret_pacman_output(&args, false, String::new(), "error: target not found\n"),
        Err("pacman -Qi foo failed: error: target not found".to_string())
    );
}

#[test]
fn install_dates_come_from_desc_files() {
    let desc = "%NAME%\nfoo\n\n%INSTALLDATE%\n1700000000\n";
    assert_eq!(desc_install_date(desc), Some(("foo".to_string(), 1700000000)));
    assert_eq!(desc_install_date("%NAME%\nfoo\n"), None);
    assert_eq!(desc_install_date("%NAME%\nfoo\n%INSTALLDATE%\nsoon\n"), None);
    let pkgs = parse_installed("foo 1.0-1\nbar 2.0-1\n", Provenance::Foreign);
    let dated = with_install_dates(pkgs, &vec![("foo".to_string(), 1), ("foo".to_string(), 7)]);
    assert_eq!(dated[0].installed_at, Some(7));
    assert_eq!(dated[1].installed_at, None);
    assert_eq!(dated[1].provenance, Provenance::Foreign);
}

#[test]
fn operation_args_cover_pacman_operations() {
    let args = AlpmBackend::operation_args(&TransactionOperation::UpgradePackage {
        package: "foo".into(),
    });
    assert_eq!(
        args,
        Some(vec!["-S".to_string(), "--noconfirm".into(), "--needed".into(), "foo".into()])
    );
    assert_eq!(
        AlpmBackend::operation_args(&TransactionOperation::SystemUpgrade { system: "nix".into() }),
        None
    );
}

#[test]
fn upgrade_all_runs_full_sync_upgrade() {
    let plan = AlpmBackend.plan_upgrade_all().unwrap();
    assert_eq!(
        AlpmBackend::operation_args(&plan.operations[0]),
        Some(vec!["-Syu".to_string(), "--noconfirm".to_string()])
    );
}
