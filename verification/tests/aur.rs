use pacnix::aur::{after_download, fallback_error, FetchStep, DOWNLOAD_ATTEMPTS};
use pacnix::aur::{
    build_deps_args, dep_name, dep_names_of, filter_outdated, is_gzip, is_package_artifact,
    keep_outdated, parse_desc_fields, parse_srcinfo_deps, pkginfo_name, snapshot_url,
    to_candidates, urlencode, AurBackend, AurPackage,
};
use pacnix::chain::{existing_names, expand_chain, sorted_names};
use pacnix::aur::{aur_receipt_instances, installed_entry, results_of, RpcResponse};
use pacnix::model::{Candidate, InstalledPackage, Provenance, Source, TransactionOperation, TransactionPlan};

#[test]
fn parses_desc_fields() {
    let desc = "%NAME%\nmutt-wizard\n\n%VERSION%\n3.3.1-1\n\n%INSTALLDATE%\n1754702000\n";
    let (name, version, installed_at) = parse_desc_fields(desc);
    assert_eq!(name.as_deref(), Some("mutt-wizard"));
    assert_eq!(version.as_deref(), Some("3.3.1-1"));
    assert_eq!(installed_at, Some(1754702000));
    let (name, version, installed_at) = parse_desc_fields("%NAME%\nfoo\n%VERSION%-\n");
    assert_eq!(name.as_deref(), Some("foo"));
    assert_eq!(version, None);
    assert_eq!(installed_at, None);
}

#[test]
fn snapshot_url_prefers_url_path() {
    assert_eq!(
        snapshot_url("hiddify", None),
        "https://aur.archlinux.org/cgit/aur.git/snapshot/hiddify.tar.gz"
    );
    assert_eq!(
        snapshot_url("nx", Some("/cgit/aur.git/snapshot/nx.tar.gz")),
        "https://aur.archlinux.org/cgit/aur.git/snapshot/nx.tar.gz"
    );
}

#[test]
fn split_package_uses_base_for_fetch_and_name_for_artifact() {
    let plan = AurBackend
        .plan_install(&Candidate {
            source: Source::Aur,
            provider: "aur".into(),
            backend_ref: "aur/nxproxy".into(),
            name: "nxproxy".into(),
            version: Some("3.5.2-1".into()),
            description: None,
            package_base: Some("nx".into()),
            url_path: Some("/cgit/aur.git/snapshot/nx.tar.gz".into()),
        })
        .unwrap();
    let ops = &plan.operations;
    assert!(matches!(
        &ops[0],
        TransactionOperation::FetchAurSource {
            package,
            package_base,
            url_path,
        } if package == "nxproxy"
            && package_base == "nx"
            && url_path.as_deref() == Some("/cgit/aur.git/snapshot/nx.tar.gz")
    ));
    assert!(
        matches!(&ops[1], TransactionOperation::InstallAurBuildDeps { package } if package == "nxproxy")
    );
    assert!(
        matches!(&ops[2], TransactionOperation::BuildAurPackage { package } if package == "nxproxy")
    );
    assert!(
        matches!(&ops[3], TransactionOperation::InstallAurPackage { package } if package == "nxproxy")
    );
}

#[test]
fn urlencode_queries() {
    assert_eq!(urlencode("hiddify"), "hiddify");
    assert_eq!(urlencode("foo bar"), "foo%20bar");
    assert_eq!(urlencode("foo/bar"), "foo%2Fbar");
}

#[test]
fn urlencode_encodes_utf8_bytes() {
    assert_eq!(urlencode("A-z_0.9~"), "A-z_0.9~");
    assert_eq!(urlencode("é"), "%C3%A9");
    assert_eq!(urlencode(""), "");
}

#[test]
fn srcinfo_includes_dep_kinds_and_arch_variants() {
    let srcinfo = "\
pkgbase = nx
pkgver = 3.5.2
pkgrel = 1
depends = zlib
makedepends = gcc
makedepends_x86_64 = extra-tool
checkdepends = python
checkdepends_x86_64 = ctest
pkgname = nx
depends = any-pkg
pkgname = nxproxy
depends = nx
";
    let deps = parse_srcinfo_deps(srcinfo, "x86_64", "nxproxy");
    for expected in ["zlib", "gcc", "extra-tool", "python", "ctest", "nx"] {
        assert!(
            deps.iter().any(|d| d == expected),
            "{expected} must be collected, got {deps:?}"
        );
    }
    assert!(
        !deps.contains(&"any-pkg".to_string()),
        "deps of another split package section must be excluded"
    );
    assert_eq!(
        deps.iter().filter(|d| d.as_str() == "nx").count(),
        1,
        "nx must appear once (dedup)"
    );
}

#[test]
fn srcinfo_dedupes_across_sections() {
    let srcinfo = "\
pkgname = a
depends = libz
pkgname = b
depends = libz
makedepends_x86_64 = cmake
";
    let deps = parse_srcinfo_deps(srcinfo, "x86_64", "b");
    assert_eq!(deps.iter().filter(|d| d.as_str() == "libz").count(), 1);
}

#[test]
fn srcinfo_ignores_other_architectures() {
    let srcinfo = "depends_aarch64 = arm-only\ndepends_x86_64 = x86-only\ndepends = common>=2\n";
    let deps = parse_srcinfo_deps(srcinfo, "x86_64", "p");
    assert_eq!(deps, vec!["x86-only".to_string(), "common".to_string()]);
}

fn pkg(name: &str, deps: &[&str]) -> AurPackage {
    AurPackage {
        name: name.to_string(),
        version: Some("1.0-1".to_string()),
        description: None,
        url_path: None,
        package_base: Some(name.to_string()),
        depends: deps.iter().map(|d| d.to_string()).collect(),
        make_depends: Vec::new(),
        check_depends: Vec::new(),
    }
}

fn names(packages: &[AurPackage]) -> Vec<String> {
    packages.iter().map(|p| p.name.clone()).collect()
}

#[test]
fn dep_name_strips_version_constraints() {
    assert_eq!(dep_name("gcc>=13"), "gcc");
    assert_eq!(dep_name("libx11"), "libx11");
    assert_eq!(dep_name("libpng!=1.2"), "libpng");
    assert_eq!(dep_name("  curl<2 "), "curl");
}

#[test]
fn dep_names_merge_kinds_without_repeats() {
    let mut p = pkg("a", &["gcc>=13", "zlib"]);
    p.make_depends = vec!["gcc".into(), "cmake".into(), "".into()];
    p.check_depends = vec!["zlib<2".into(), "python".into()];
    assert_eq!(dep_names_of(&p), vec!["gcc", "zlib", "cmake", "python"]);
}

#[test]
fn expand_chain_orders_deps_first() {
    let table = [pkg("a", &["b"]), pkg("b", &["c"]), pkg("c", &[]), pkg("d", &[])];
    let find = move |names: &[String]| {
        Ok(table
            .iter()
            .filter(|p| names.iter().any(|n| n == &p.name))
            .cloned()
            .collect::<Vec<_>>())
    };
    let chain = expand_chain(&["a".to_string()], &find, &|_| false).unwrap();
    assert_eq!(names(&chain), vec!["c", "b", "a"]);
}

#[test]
fn expand_chain_dedupes_diamond() {
    let table = [pkg("a", &["b", "c"]), pkg("b", &["d"]), pkg("c", &["d"]), pkg("d", &[])];
    let find = move |names: &[String]| {
        Ok(table
            .iter()
            .filter(|p| names.iter().any(|n| n == &p.name))
            .cloned()
            .collect::<Vec<_>>())
    };
    let chain = expand_chain(&["a".to_string()], &find, &|_| false).unwrap();
    let order = names(&chain);
    assert_eq!(order.last().unwrap(), "a", "target must be installed last");
    assert_eq!(order.iter().filter(|n| n.as_str() == "d").count(), 1);
    assert_eq!(order.len(), 4);
}

#[test]
fn expand_chain_reports_cycles() {
    let table = [pkg("a", &["b"]), pkg("b", &["a"])];
    let find = move |names: &[String]| {
        Ok(table
            .iter()
            .filter(|p| names.iter().any(|n| n == &p.name))
            .cloned()
            .collect::<Vec<_>>())
    };
    let err = expand_chain(&["a".to_string()], &find, &|_| false).unwrap_err();
    assert!(err.contains("a -> b -> a"), "got: {err}");
}

#[test]
fn expand_chain_reports_the_full_cycle_path() {
    let table = [pkg("a", &["b"]), pkg("b", &["c"]), pkg("c", &["b"])];
    let find = move |names: &[String]| {
        Ok(table
            .iter()
            .filter(|p| names.iter().any(|n| n == &p.name))
            .cloned()
            .collect::<Vec<_>>())
    };
    let err = expand_chain(&["a".to_string()], &find, &|_| false).unwrap_err();
    assert_eq!(err, "dependency cycle: b -> c -> b");
}

#[test]
fn expand_chain_skips_installed_and_repo_deps() {
    let table = [pkg("a", &["b", "c"]), pkg("c", &[])];
    let find = move |names: &[String]| {
        Ok(table
            .iter()
            .filter(|p| names.iter().any(|n| n == &p.name))
            .cloned()
            .collect::<Vec<_>>())
    };
    let chain = expand_chain(&["a".to_string()], &find, &|name| name == "b").unwrap();
    assert_eq!(names(&chain), vec!["c", "a"]);
}

#[test]
fn expand_chain_propagates_network_errors() {
    let err = expand_chain(&["a".to_string()], &|_| Err("network down".to_string()), &|_| false)
        .unwrap_err();
    assert!(err.contains("network down"), "got: {err}");
}

#[test]
fn aur_plan_chain_puts_target_last() {
    let table = [pkg("a", &["b"]), pkg("b", &[])];
    let find = move |names: &[String]| {
        Ok(table
            .iter()
            .filter(|p| names.iter().any(|n| n == &p.name))
            .cloned()
            .collect::<Vec<_>>())
    };
    let chain = expand_chain(&["a".to_string()], &find, &|_| false).unwrap();
    assert_eq!(chain.last().unwrap().name, "a");
    assert_eq!(chain[0].name, "b");
}

#[test]
fn expand_chain_multi_root_shares_deps() {
    let table = [pkg("a", &["b"]), pkg("c", &["b"]), pkg("b", &[])];
    let find = move |names: &[String]| {
        Ok(table
            .iter()
            .filter(|p| names.iter().any(|n| n == &p.name))
            .cloned()
            .collect::<Vec<_>>())
    };
    let roots = ["a".to_string(), "c".to_string()];
    let chain = expand_chain(&roots, &find, &|_| false).unwrap();
    let order = names(&chain);
    assert_eq!(
        order.iter().filter(|n| n.as_str() == "b").count(),
        1,
        "shared dep must be planned exactly once"
    );
    let pos_b = order.iter().position(|n| n == "b").unwrap();
    let pos_a = order.iter().position(|n| n == "a").unwrap();
    let pos_c = order.iter().position(|n| n == "c").unwrap();
    assert!(pos_b < pos_a && pos_b < pos_c, "dep before both roots: {order:?}");
}

#[test]
fn expand_chain_keeps_roots_last_in_order_given() {
    let table = [pkg("x", &["y"]), pkg("w", &[]), pkg("y", &[])];
    let find = move |names: &[String]| {
        Ok(table
            .iter()
            .filter(|p| names.iter().any(|n| n == &p.name))
            .cloned()
            .collect::<Vec<_>>())
    };
    let roots = ["w".to_string(), "x".to_string(), "missing".to_string()];
    let chain = expand_chain(&roots, &find, &|_| false).unwrap();
    assert_eq!(names(&chain), vec!["y", "w", "x"]);
}

#[test]
fn expand_chain_asks_at_most_fifty_names_per_request() {
    let roots: Vec<String> = (0..120).map(|i| format!("p{i}")).collect();
    let sizes = std::cell::RefCell::new(Vec::new());
    let find = |names: &[String]| {
        sizes.borrow_mut().push(names.len());
        Ok(names.iter().map(|n| pkg(n, &[])).collect::<Vec<_>>())
    };
    let chain = expand_chain(&roots, &find, &|_| false).unwrap();
    assert_eq!(chain.len(), 120);
    assert_eq!(*sizes.borrow(), vec![50, 50, 20]);
}

#[test]
fn chain_plans_fail_when_nothing_is_in_the_aur() {
    let find = |_: &[String]| Ok(Vec::new());
    let err = AurBackend.expand_and_plan(&["ghost".to_string()], &find, &|_| false).unwrap_err();
    assert_eq!(err, "not found in AUR");
}

#[test]
fn chain_plans_install_each_package_in_order() {
    let table = [pkg("a", &["b"]), pkg("b", &[])];
    let find = move |names: &[String]| {
        Ok(table
            .iter()
            .filter(|p| names.iter().any(|n| n == &p.name))
            .cloned()
            .collect::<Vec<_>>())
    };
    let plans = AurBackend.expand_and_plan(&["a".to_string()], &find, &|_| false).unwrap();
    assert_eq!(plans.len(), 2);
    assert_eq!(plans[0].name, "b");
    assert_eq!(plans[0].backend_ref, "aur/b");
    assert_eq!(plans[1].name, "a");
    assert_eq!(plans[1].operations.len(), 4);
    assert!(plans.iter().all(|p| p.requires_privilege));
}

#[test]
fn filter_outdated_keeps_only_newer_versions() {
    let mut newest = pkg("newer", &[]);
    newest.version = Some("2.0-1".to_string());
    let equal = pkg("equal", &[]);
    let unknown = pkg("unknown", &[]);
    let table = vec![newest, equal, unknown];
    let installed = |name: &str| match name {
        "newer" => Some("1.0-1".to_string()),
        "equal" => Some("1.0-1".to_string()),
        _ => None,
    };
    let outdated = filter_outdated(table, &installed);
    assert_eq!(names(&outdated), vec!["newer"]);
}

#[test]
fn keep_outdated_treats_missing_version_as_empty() {
    let mut p = pkg("p", &[]);
    p.version = None;
    let kept = keep_outdated(vec![p], &vec![Some("1.0".to_string())]);
    assert!(kept.is_empty());
}

#[test]
fn outdated_candidates_come_from_the_aur() {
    let mut newer = pkg("newer", &[]);
    newer.version = Some("2.0-1".to_string());
    let table = vec![newer, pkg("same", &[])];
    let find = move |names: &[String]| {
        Ok(table
            .iter()
            .filter(|p| names.iter().any(|n| n == &p.name))
            .cloned()
            .collect::<Vec<_>>())
    };
    let current = |_: &str| Some("1.0-1".to_string());
    let out = AurBackend
        .outdated(&["newer".to_string(), "same".to_string()], &find, &current)
        .unwrap();
    assert_eq!(out.len(), 1);
    assert_eq!(out[0].backend_ref, "aur/newer");
    assert_eq!(out[0].source, Source::Aur);
}

#[test]
fn to_candidates_names_aur_references() {
    let c = to_candidates(vec![pkg("foo", &[])]);
    assert_eq!(c[0].backend_ref, "aur/foo");
    assert_eq!(c[0].provider, "aur");
    assert_eq!(c[0].package_base.as_deref(), Some("foo"));
}

#[test]
fn existing_names_are_sorted_and_unique() {
    let find = |names: &[String]| {
        Ok(names
            .iter()
            .filter(|n| n.as_str() != "repo-only")
            .map(|n| pkg(n, &[]))
            .collect::<Vec<_>>())
    };
    let asked = ["zsh-git".to_string(), "repo-only".to_string(), "alpha".to_string(), "zsh-git".to_string()];
    assert_eq!(existing_names(&asked, &find).unwrap(), vec!["alpha", "zsh-git"]);
    assert_eq!(
        sorted_names(&vec![pkg("b", &[]), pkg("a", &[]), pkg("b", &[])]),
        vec!["a", "b"]
    );
}

#[test]
fn build_helpers() {
    assert_eq!(
        build_deps_args(&vec!["gcc".to_string()]),
        vec!["-S", "--needed", "--asdeps", "--noconfirm", "gcc"]
    );
    assert!(is_package_artifact("nx-3.5.2-1-x86_64.pkg.tar.zst"));
    assert!(is_package_artifact("nx-3.5.2-1-x86_64.pkg.tar"));
    assert!(!is_package_artifact("nx.tar.gz"));
    assert_eq!(pkginfo_name("# generated\npkgname = nxproxy \npkgver = 1\n"), Some("nxproxy".to_string()));
    assert_eq!(pkginfo_name("NOPE"), None);
    assert!(is_gzip(&[0x1f, 0x8b, 0x08]));
    assert!(!is_gzip(&[0x1f]));
    assert!(!is_gzip(b"<html>"));
}

#[test]
fn rpc_error_responses_are_errors() {
    let err = results_of(RpcResponse {
        version: 5,
        kind: "error".into(),
        resultcount: 0,
        results: Vec::new(),
    });
    assert_eq!(err.unwrap_err(), "AUR RPC error response");
    let ok = results_of(RpcResponse {
        version: 5,
        kind: "search".into(),
        resultcount: 1,
        results: vec![pkg("hiddify", &[])],
    })
    .unwrap();
    assert_eq!(names(&ok), vec!["hiddify"]);
}

#[test]
fn aur_plans_for_installed_packages() {
    let installed = InstalledPackage {
        source: Source::Alpm,
        backend_ref: "local/yay".into(),
        name: "yay".into(),
        version: Some("12-1".into()),
        scope: None,
        installed_at: Some(1),
        provenance: Provenance::Foreign,
    };
    let remove = AurBackend.plan_remove(&installed).unwrap();
    assert_eq!(remove.operations, vec![TransactionOperation::RemovePackage { package: "yay".into() }]);
    assert!(remove.requires_privilege);
    let upgrade = AurBackend.plan_upgrade(&installed).unwrap();
    assert_eq!(upgrade.operations, vec![TransactionOperation::UpgradePackage { package: "yay".into() }]);
    assert_eq!(AurBackend.plan_upgrade_all().unwrap_err(), "aur: upgrade all not implemented yet");
    let without_base = AurBackend
        .plan_install(&Candidate {
            source: Source::Aur,
            provider: "aur".into(),
            backend_ref: "aur/yay".into(),
            name: "yay".into(),
            version: None,
            description: None,
            package_base: None,
            url_path: None,
        })
        .unwrap();
    assert!(matches!(
        &without_base.operations[0],
        TransactionOperation::FetchAurSource { package_base, url_path: None, .. } if package_base == "yay"
    ));
}

#[test]
fn local_entries_become_aur_receipts() {
    let desc = "%NAME%\nmutt-wizard\n\n%VERSION%\n3.3.1-1\n\n%INSTALLDATE%\n1754702000\n";
    let entry = installed_entry(desc, "mutt-wizard");
    assert_eq!(entry, Some(("mutt-wizard".to_string(), Some("3.3.1-1".to_string()), 1754702000)));
    assert_eq!(installed_entry(desc, "other"), None);
    assert_eq!(installed_entry("%NAME%\nmutt-wizard\n", "mutt-wizard"), None);
    let plan = TransactionPlan {
        backend_ref: "aur/mutt-wizard".into(),
        name: "mutt-wizard".into(),
        operations: Vec::new(),
        requires_privilege: true,
    };
    let receipts = aur_receipt_instances(&plan, entry);
    assert_eq!(receipts.len(), 1);
    assert_eq!(receipts[0].backend_ref, "local/mutt-wizard");
    assert_eq!(receipts[0].source, Source::Alpm);
    assert_eq!(receipts[0].provenance, Provenance::Foreign);
    assert_eq!(receipts[0].installed_at, Some(1754702000));
    assert!(aur_receipt_instances(&plan, None).is_empty());
}

fn table_lookup(table: Vec<AurPackage>) -> impl Fn(&[String]) -> Result<Vec<AurPackage>, String> {
    move |names: &[String]| {
        Ok(table
            .iter()
            .filter(|p| names.iter().any(|n| n == &p.name))
            .cloned()
            .collect::<Vec<_>>())
    }
}

#[test]
fn expand_chain_puts_every_dependency_first() {
    let find = table_lookup(vec![pkg("a", &["b", "c"]), pkg("b", &["c"]), pkg("c", &[])]);
    let chain = expand_chain(&["a".to_string()], &find, &|_| false).unwrap();
    assert_eq!(names(&chain), vec!["c", "b", "a"]);
}

#[test]
fn expand_chain_reports_cycles_off_the_ancestor_path() {
    let find = table_lookup(vec![pkg("a", &["b", "c"]), pkg("b", &["c"]), pkg("c", &["b"])]);
    let err = expand_chain(&["a".to_string()], &find, &|_| false).unwrap_err();
    assert!(err.contains("b -> c -> b"), "{err}");
}

#[test]
fn expand_chain_without_roots_looks_nothing_up() {
    let find = |_: &[String]| -> Result<Vec<AurPackage>, String> { Err("no lookup expected".to_string()) };
    let chain = expand_chain(&[], &find, &|_| false).unwrap();
    assert!(chain.is_empty());
}

#[test]
fn existing_names_stops_at_the_first_failed_chunk() {
    let asked: Vec<String> = (0..120).map(|i| format!("pkg{i:03}")).collect();
    let calls = std::cell::Cell::new(0usize);
    let find = |names: &[String]| {
        calls.set(calls.get() + 1);
        assert!(!names.is_empty() && names.len() <= 50);
        if names.iter().any(|n| n == "pkg060") {
            Err("rate limited".to_string())
        } else {
            Ok(names.iter().map(|n| pkg(n, &[])).collect::<Vec<_>>())
        }
    };
    assert_eq!(existing_names(&asked, &find), Err("rate limited".to_string()));
    assert_eq!(calls.get(), 2);
}

#[test]
fn snapshot_fetch_retries_then_falls_back_to_clone() {
    assert_eq!(DOWNLOAD_ATTEMPTS, 3);
    assert_eq!(after_download(1, true), FetchStep::Extract);
    assert_eq!(after_download(3, true), FetchStep::Extract);
    assert_eq!(after_download(1, false), FetchStep::Retry { wait_ms: 500 });
    assert_eq!(after_download(2, false), FetchStep::Retry { wait_ms: 1000 });
    assert_eq!(after_download(3, false), FetchStep::Clone);
    assert_eq!(fallback_error("http 503", "git missing"), "http 503; git clone fallback: git missing");
}
