use pacnix::model::{Candidate, InstalledPackage, Provenance, Source, TransactionOperation, TransactionPlan};
use pacnix::nix::{
    interpret_nix_output, locked_rev_of, nix_invocation, outdated_candidate, parse_profile_list,
    profile_args, revision_query, search_candidate, split_version, NixBackend, ProfileElement,
};

fn backend() -> NixBackend {
    NixBackend::new(None)
}

fn candidate(name: &str) -> Candidate {
    Candidate {
        source: Source::Nix,
        provider: "nix".into(),
        backend_ref: name.into(),
        name: name.into(),
        version: None,
        description: None,
        package_base: None,
        url_path: None,
    }
}

fn pkg(name: &str, store: &str) -> InstalledPackage {
    InstalledPackage {
        source: Source::Nix,
        backend_ref: store.into(),
        name: name.into(),
        version: None,
        scope: None,
        installed_at: None,
        provenance: Provenance::Unknown,
    }
}

#[test]
fn plans_use_profile_operations() {
    let backend = backend();
    let mut cand = candidate("ripgrep");
    cand.backend_ref = "nixpkgs#legacyPackages.x86_64-linux.ripgrep".into();
    cand.version = Some("14.1.1".into());
    let plan = backend.plan_install(&cand).unwrap();
    assert_eq!(plan.backend_ref, "nixpkgs#legacyPackages.x86_64-linux.ripgrep");
    assert_eq!(
        plan.operations,
        vec![TransactionOperation::ProfileInstall {
            profile: "default".into(),
            attr: "nixpkgs#legacyPackages.x86_64-linux.ripgrep".into(),
        }]
    );
    assert!(!plan.requires_privilege);

    let upgrade = backend.plan_upgrade(&pkg("ripgrep", "/nix/store/000-ripgrep-14.1.1")).unwrap();
    assert_eq!(
        upgrade.operations,
        vec![TransactionOperation::ProfileUpgrade {
            profile: "default".into(),
            element: "ripgrep".into(),
        }]
    );
}

#[test]
fn custom_profile_is_part_of_every_plan() {
    let backend = NixBackend::new(Some("/tmp/pacnix-profile".to_string()));
    let plan = backend.plan_install(&candidate("foo")).unwrap();
    assert_eq!(
        plan.operations,
        vec![TransactionOperation::ProfileInstall {
            profile: "/tmp/pacnix-profile".into(),
            attr: "foo".into(),
        }]
    );
    let plan = backend.plan_upgrade_chain(&[candidate("foo"), candidate("bar")]).unwrap();
    assert_eq!(plan.len(), 1);
    assert_eq!(
        plan[0].operations,
        vec![TransactionOperation::ProfileUpgradeMany {
            profile: "/tmp/pacnix-profile".into(),
            elements: vec!["foo".into(), "bar".into()],
        }]
    );
}

#[test]
fn upgrade_chain_is_one_plan_per_profile() {
    let plan = backend()
        .plan_upgrade_chain(&[candidate("foo"), candidate("bar"), candidate("baz")])
        .unwrap();
    assert_eq!(plan.len(), 1);
    assert_eq!(plan[0].name, "foo, bar, baz");
    assert_eq!(
        plan[0].operations,
        vec![TransactionOperation::ProfileUpgradeMany {
            profile: "default".into(),
            elements: vec!["foo".into(), "bar".into(), "baz".into()],
        }]
    );
    let single = backend().plan_upgrade_chain(&[candidate("foo")]).unwrap();
    assert_eq!(single[0].name, "foo");
    assert_eq!(backend().plan_upgrade_chain(&[]).unwrap(), Vec::new() as Vec<TransactionPlan>);
}

#[test]
fn receipts_only_for_elements_that_changed() {
    let plan = TransactionPlan {
        backend_ref: "default".into(),
        name: "upgrade".into(),
        operations: vec![
            TransactionOperation::ProfileUpgradeMany {
                profile: "default".into(),
                elements: vec!["changed".into(), "same".into(), "vanished".into()],
            },
            TransactionOperation::ProfileUpgrade {
                profile: "default".into(),
                element: "single".into(),
            },
        ],
        requires_privilege: false,
    };
    let before = vec![
        pkg("changed", "/nix/store/aaa-changed-1.0"),
        pkg("same", "/nix/store/bbb-same-1.0"),
        pkg("vanished", "/nix/store/ccc-vanished-1.0"),
        pkg("single", "/nix/store/ddd-single-1.0"),
        pkg("untouched", "/nix/store/eee-untouched-1.0"),
    ];
    let after = vec![
        pkg("changed", "/nix/store/fff-changed-2.0"),
        pkg("same", "/nix/store/bbb-same-1.0"),
        pkg("single", "/nix/store/ggg-single-2.0"),
        pkg("untouched", "/nix/store/eee-untouched-1.0"),
    ];
    let receipts = backend().receipt_instances(&plan, &before, &after).unwrap();
    assert_eq!(receipts.len(), 2);
    assert_eq!(receipts[0].name, "changed");
    assert_eq!(receipts[0].backend_ref, "/nix/store/fff-changed-2.0");
    assert_eq!(receipts[1].name, "single");
    assert_eq!(receipts[1].backend_ref, "/nix/store/ggg-single-2.0");
}

#[test]
fn parses_profile_list_with_multiple_elements() {
    let elements = vec![
        ProfileElement {
            name: "ayugram-desktop".into(),
            original_url: Some("github:Mar2ianen/ayugram-desktop".into()),
            locked_url: Some("github:Mar2ianen/ayugram-desktop/abc".into()),
            store_path: Some(
                "/nix/store/4jzf58snfrpy30fv70cvlvxj8vhbv0za-ayugram-desktop-7.0.4".into(),
            ),
            attr_path: Some("packages.x86_64-linux.default".into()),
        },
        ProfileElement {
            name: "helium-more".into(),
            original_url: Some("github:oxcl/nix-flake-helium-browser".into()),
            locked_url: None,
            store_path: Some("/nix/store/0zpnsj2iilszyxpn8962l1ciddz0yhv5-helium-0.15.2.1".into()),
            attr_path: Some("packages.x86_64-linux.helium".into()),
        },
    ];
    let pkgs = parse_profile_list(elements);
    assert_eq!(pkgs.len(), 2);
    assert_eq!(pkgs[0].name, "ayugram-desktop");
    assert_eq!(pkgs[0].version.as_deref(), Some("7.0.4"));
    assert_eq!(
        pkgs[0].backend_ref,
        "/nix/store/4jzf58snfrpy30fv70cvlvxj8vhbv0za-ayugram-desktop-7.0.4"
    );
    assert_eq!(pkgs[1].name, "helium-more");
    assert_eq!(pkgs[1].version.as_deref(), Some("0.15.2.1"));
    assert_eq!(pkgs[1].scope.as_deref(), Some("packages.x86_64-linux.helium"));
}

#[test]
fn profile_element_without_store_path_is_named_by_flake() {
    let pkgs = parse_profile_list(vec![
        ProfileElement {
            name: "hello".into(),
            original_url: None,
            locked_url: None,
            store_path: None,
            attr_path: None,
        },
        ProfileElement {
            name: "tool".into(),
            original_url: Some("github:me/tool".into()),
            locked_url: None,
            store_path: None,
            attr_path: None,
        },
    ]);
    assert_eq!(pkgs[0].backend_ref, "nixpkgs#hello");
    assert_eq!(pkgs[0].version, None);
    assert_eq!(pkgs[1].backend_ref, "github:me/tool#tool");
    assert_eq!(pkgs[1].provenance, Provenance::Unknown);
    assert_eq!(pkgs[1].source, Source::Nix);
}

#[test]
fn store_path_version_needs_leading_digit() {
    assert_eq!(split_version("/nix/store/abc-foo-1.2.3"), Some("1.2.3".into()));
    assert_eq!(split_version("/nix/store/abc-foo-latest"), None);
}

#[test]
fn locked_rev_of_splits_revision_from_url() {
    assert_eq!(
        locked_rev_of("github:owner/repo/cdbb75c?narHash=sha256-x"),
        Some("cdbb75c".into())
    );
    assert_eq!(locked_rev_of("github:owner/repo/cdbb75c"), Some("cdbb75c".into()));
    assert_eq!(locked_rev_of("github:owner/repo"), None);
    assert_eq!(locked_rev_of("flake:nixpkgs"), None);
}

#[test]
fn search_hits_become_installable_candidates() {
    let c = search_candidate(
        "legacyPackages.x86_64-linux.ripgrep",
        Some("ripgrep".into()),
        Some("14.1.1".into()),
        None,
    );
    assert_eq!(c.name, "ripgrep");
    assert_eq!(c.provider, "nixpkgs");
    assert_eq!(c.backend_ref, "nixpkgs#legacyPackages.x86_64-linux.ripgrep");
    assert_eq!(c.version.as_deref(), Some("14.1.1"));
    let nested = search_candidate("legacyPackages.x86_64-linux.gnome3.vala", None, None, None);
    assert_eq!(nested.name, "vala");
    assert_eq!(nested.backend_ref, "nixpkgs#legacyPackages.x86_64-linux.gnome3.vala");
}

#[test]
fn outdated_elements_compare_revisions() {
    let element = ProfileElement {
        name: "ayugram-desktop".into(),
        original_url: Some("github:Mar2ianen/ayugram-desktop".into()),
        locked_url: Some("github:Mar2ianen/ayugram-desktop/cdbb75c?narHash=sha256-x".into()),
        store_path: None,
        attr_path: None,
    };
    assert_eq!(
        revision_query(&element),
        Some(("github:Mar2ianen/ayugram-desktop".to_string(), "cdbb75c".to_string()))
    );
    assert!(outdated_candidate(&element, "cdbb75c", "cdbb75c").is_none());
    let c = outdated_candidate(&element, "cdbb75c", "934c50a").unwrap();
    assert_eq!(c.name, "ayugram-desktop");
    assert_eq!(c.provider, "nix");
    assert_eq!(c.version, None);
    let unpinned = ProfileElement { locked_url: Some("github:o/r".into()), ..element };
    assert_eq!(revision_query(&unpinned), None);
}

#[test]
fn nix_commands_and_outcomes() {
    assert_eq!(profile_args("default"), Vec::<String>::new());
    assert_eq!(profile_args("/p"), vec!["--profile", "/p"]);
    assert_eq!(
        nix_invocation(&vec!["profile".to_string()]),
        vec!["--extra-experimental-features", "nix-command flakes", "profile"]
    );
    assert_eq!(
        NixBackend::new(Some("/p".into())).list_args(),
        vec!["profile", "list", "--json", "--profile", "/p"]
    );
    assert_eq!(
        NixBackend::operation_args(&TransactionOperation::ProfileUpgradeMany {
            profile: "/p".into(),
            elements: vec!["a".into(), "b".into()],
        }),
        Some(vec!["profile".into(), "upgrade".into(), "--profile".into(), "/p".into(), "a".into(), "b".into()])
    );
    assert_eq!(
        NixBackend::operation_args(&TransactionOperation::SystemUpgrade { system: "nix".into() }),
        Some(vec!["profile".to_string(), "upgrade".into()])
    );
    assert_eq!(
        NixBackend::operation_args(&TransactionOperation::RemovePackage { package: "x".into() }),
        None
    );
    let args = vec!["search".to_string(), "nixpkgs".into(), "zzz".into()];
    assert_eq!(interpret_nix_output(&args, false, String::new(), " \n"), Ok(String::new()));
    assert_eq!(
        interpret_nix_output(&args, false, String::new(), "error: no results for the query\n"),
        Ok(String::new())
    );
    assert_eq!(
        interpret_nix_output(&args, false, String::new(), "boom\n"),
        Err("nix search nixpkgs zzz failed: boom".to_string())
    );
    assert_eq!(interpret_nix_output(&args, true, "{}".into(), "warn"), Ok("{}".to_string()));
}

#[test]
fn upgrade_all_upgrades_the_profile() {
    let plan = NixBackend::new(Some("/p".into())).plan_upgrade_all().unwrap();
    assert_eq!(plan.backend_ref, "/p");
    assert_eq!(plan.name, "nix profile upgrade");
    assert_eq!(plan.operations, vec![TransactionOperation::SystemUpgrade { system: "nix".into() }]);
    let remove = backend().plan_remove(&pkg("x", "/nix/store/1-x-1")).unwrap();
    assert_eq!(
        remove.operations,
        vec![TransactionOperation::ProfileRemove {
            profile: "default".into(),
            attr: "/nix/store/1-x-1".into(),
        }]
    );
}

#[test]
fn search_keeps_nested_attr_installable() {
    let candidates = vec![search_candidate(
        "legacyPackages.x86_64-linux.gnome3.vala",
        Some("vala".into()),
        Some("0.56.0".into()),
        None,
    )];
    assert_eq!(candidates.len(), 1);
    assert_eq!(candidates[0].backend_ref, "nixpkgs#legacyPackages.x86_64-linux.gnome3.vala");
    assert_eq!(candidates[0].name, "vala");
}

#[test]
fn parsers_parses_search_output() {
    let fixture = r#"{
        "legacyPackages.x86_64-linux.ripgrep": {
            "pname": "ripgrep",
            "version": "14.1.1",
            "description": "A utility that combines the usability of The Silver Searcher"
        }
    }"#;
    let parsed: serde_json::Value = serde_json::from_str(fixture).unwrap();
    let field = |v: &serde_json::Value, k: &str| v.get(k).and_then(|x| x.as_str()).map(str::to_string);
    let candidates: Vec<Candidate> = parsed
        .as_object()
        .unwrap()
        .iter()
        .map(|(attr, v)| search_candidate(attr, field(v, "pname"), field(v, "version"), field(v, "description")))
        .collect();
    assert_eq!(candidates.len(), 1);
    assert_eq!(candidates[0].name, "ripgrep");
    assert_eq!(candidates[0].provider, "nixpkgs");
    assert_eq!(candidates[0].backend_ref, "nixpkgs#legacyPackages.x86_64-linux.ripgrep");
    assert_eq!(candidates[0].version.as_deref(), Some("14.1.1"));
}
