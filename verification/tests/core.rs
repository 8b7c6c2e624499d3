use pacnix::backend::{ExecutionContext, PackageBackend};
use pacnix::model::{Candidate, InstalledPackage, Source, TransactionOperation, TransactionPlan};
use pacnix::parsers::parse_pairs;
use pacnix::resolver::{Reason, ResolutionDecision, Resolver};
use pacnix::version::vercmp;

fn check(pairs: &[(&str, &str, i8)]) {
    for (a, b, expected) in pairs {
        assert_eq!(vercmp(a, b), *expected, "{a} vs {b}");
        assert_eq!(vercmp(b, a), -*expected, "{b} vs {a}");
    }
}

#[test]
fn matches_pacman_suite() {
    check(&[
        ("1.0.1", "1.0.1", 0),
        ("1.0.1", "1.0.2", -1),
        ("1.0.1", "1.0.1", 0),
        ("1.5", "1.5", 0),
        ("1.5", "1.6", -1),
        ("1.5", "1.5.1", -1),
        ("1.5.1", "1.5", 1),
        ("1.5.0", "1.5", 1),
        ("1.5.0", "1.5.0.0", -1),
        ("1.0", "1.0-1", 0),
        ("1.0-1", "1.0", 0),
        ("1.0-1", "1.0-2", -1),
        ("1.0-2", "1.0-1.1", 1),
        ("1.0-1.1", "1.0-2", -1),
        ("1.0.15-1", "1-1", 1),
        ("1.0.15", "1", 1),
        ("1.0", "1", 1),
        ("1.0", "1-1", 1),
        ("1.0", "1.0a", 1),
        ("1.0a", "1.0", -1),
        ("1.0a", "1.0b", -1),
        ("1.0b", "1.0a1", 1),
        ("1.0a1", "1.0b", -1),
        ("1.0a1", "1.0b1", -1),
        ("1.0b1", "1.0a1", 1),
        ("1.0a1", "1.0a2", -1),
        ("1.0a2", "1.0a1b", 1),
        ("1.0a1b", "1.0a2", -1),
        ("1.0a1b", "1.0a1b1", -1),
    ]);
}

#[test]
fn handles_epochs() {
    check(&[
        ("1:1.0", "1:1.0", 0),
        ("1:1.0", "1:2.0", -1),
        ("1:2.0", "1:1.0", 1),
        ("0:1.0", "1.0", 0),
        ("0:1.0", "1:2.0", -1),
        ("1:2.0", "0:1.0", 1),
        ("1.0", "1:1.0", -1),
        ("1:1.0", "1.0", 1),
        ("1:2.0", "1.0", 1),
        ("1:1.0", "0:1.0", 1),
        ("0:1.0", "1:1.0", -1),
    ]);
}

#[test]
fn release_only_compared_when_present_on_both_sides() {
    check(&[
        ("1.5-1", "1.5", 0),
        ("1.5", "1.5-1", 0),
        ("1.5-1", "1.5-2", -1),
        ("1.5-2", "1.5-1", 1),
        ("1.5-1", "1.6", -1),
        ("1.6", "1.5-99", 1),
        ("1.0-", "1.0", 0),
        ("1.0-", "1.0-1", -1),
        ("1.0-1-2", "1.0-1", 1),
    ]);
}

#[test]
fn alpha_ordering_is_bytewise_and_leading_zeros_ignored() {
    check(&[
        ("1.0Alpha", "1.0alpha", -1),
        ("1.0beta", "1.0Alpha", 1),
        ("1.05", "1.5", 0),
        ("1.05", "1.5.1", -1),
        ("1.0.0", "1.0", 1),
        ("1.0", "1.0.0", -1),
        ("1a", "1", -1),
        ("1", "1a", 1),
        ("1-2", "1a", 1),
        ("1a", "1-2", -1),
        ("a1", "a", 1),
        ("a", "a1", -1),
        ("A", "a", -1),
        ("a", "A", 1),
        ("RC1", "rc1", -1),
    ]);
}

#[test]
fn handles_git_style_and_release_candidates() {
    check(&[
        ("r1041.gb1c3d2f", "r1041.gb1c3d2f", 0),
        ("r1041.gb1c3d2f", "r1042.gb1c3d2f", -1),
        ("r1041.gb1c3d2f", "0.4.0-1", -1),
        ("0.4.0-1", "r1041.gb1c3d2f", 1),
        ("0.4.0-1", "0.5.0-1", -1),
        ("1.0rc1", "1.0", -1),
        ("1.0", "1.0rc1", 1),
        ("1.0", "1.0.0", -1),
        ("3.14.0+git", "3.14.0", 1),
        ("3.14.0", "3.14.0+git", -1),
    ]);
}

#[test]
fn follows_specification_special_cases() {
    check(&[
        ("1...0", "1.2", 1),
        ("1...", "1.", 0),
        ("1.", "1.foo.2", 1),
        ("1.", "1.2", -1),
        ("1", "1.", -1),
        ("1.", "1", 1),
        ("alpha1", "alpha.0", -1),
        ("alpha2", "alpha.0", -1),
        ("alpha1", "alpha.", 1),
        ("1.foo.1", "1.foo2", 1),
        ("1.foo.", "1.foo2", -1),
        ("1.foo", "1.foo2", -1),
        ("1.0", "1.0foo.2", 1),
        ("1.0", "1.0alpha", 1),
        ("1.0alpha", "1.0", -1),
    ]);
}

#[test]
fn vercmp_is_reflexive_and_antisymmetric_on_samples() {
    let samples = [
        "1.0", "1.0-1", "1:1.0", "1.0alpha", "2.0rc1", "0.1.0", "3.14.0+git", "r1041.gb1c3d2f",
        "1.0.", "1.0-1-2", "", "-", ":", "1..0", "alpha.", "1.foo2",
    ];
    for a in samples {
        assert_eq!(vercmp(a, a), 0, "{a}");
        for b in samples {
            assert_eq!(vercmp(a, b), -vercmp(b, a), "{a} vs {b}");
        }
    }
}

#[test]
fn numeric_runs_compare_by_value() {
    assert_eq!(vercmp("10", "9"), 1);
    assert_eq!(vercmp("007", "7"), 0);
    assert_eq!(vercmp("1.100", "1.99"), 1);
}

#[test]
fn parses_name_version_pairs() {
    let pairs = parse_pairs("firefox 122.0-1\nfoo\n  bar 1.0\n");
    assert_eq!(pairs.len(), 3);
    assert_eq!(pairs[0], ("firefox".to_string(), Some("122.0-1".to_string())));
    assert_eq!(pairs[1], ("foo".to_string(), None));
    assert_eq!(pairs[2], ("bar".to_string(), Some("1.0".to_string())));
}

#[test]
fn command_runs_directly_without_privilege() {
    let (program, args) = ExecutionContext { privilege: None }.command_line("pacman");
    assert_eq!(program, "pacman");
    assert!(args.is_empty());
}

#[test]
fn command_wraps_sudo() {
    let (program, args) =
        ExecutionContext { privilege: Some(vec!["sudo".into()]) }.command_line("pacman");
    assert_eq!(program, "sudo");
    assert_eq!(args, vec!["pacman"]);
}

#[test]
fn command_wraps_gui_pkexec_with_flags() {
    let (program, args) = ExecutionContext {
        privilege: Some(vec!["pkexec".into(), "--user".into(), "root".into()]),
    }
    .command_line("pacman");
    assert_eq!(program, "pkexec");
    assert_eq!(args, vec!["--user", "root", "pacman"]);
}

#[test]
fn empty_privilege_command_runs_directly() {
    let (program, args) = ExecutionContext { privilege: Some(Vec::new()) }.command_line("pacman");
    assert_eq!(program, "pacman");
    assert!(args.is_empty());
}

struct MockBackend {
    source: Source,
    name: &'static str,
    results: Result<Vec<Candidate>, String>,
}

impl PackageBackend for MockBackend {
    fn name(&self) -> &'static str {
        self.name
    }
    fn source(&self) -> Source {
        self.source
    }
    fn search(&self, _query: &str) -> Result<Vec<Candidate>, String> {
        self.results.clone()
    }
    fn installed(&self) -> Result<Vec<InstalledPackage>, String> {
        Ok(Vec::new())
    }
    fn plan_install(&self, _target: &Candidate) -> Result<TransactionPlan, String> {
        Err("unused in tests".into())
    }
    fn plan_remove(&self, _target: &InstalledPackage) -> Result<TransactionPlan, String> {
        Err("unused in tests".into())
    }
    fn plan_upgrade(&self, _target: &InstalledPackage) -> Result<TransactionPlan, String> {
        Err("unused in tests".into())
    }
    fn plan_upgrade_all(&self) -> Result<TransactionPlan, String> {
        Err("unused in tests".into())
    }
    fn execute_operation(
        &self,
        _op: &TransactionOperation,
        _ctx: &ExecutionContext,
    ) -> Result<(), String> {
        Err("unused in tests".into())
    }
    fn receipt_instances(
        &self,
        _plan: &TransactionPlan,
        _before: &[InstalledPackage],
        _after: &[InstalledPackage],
    ) -> Result<Vec<InstalledPackage>, String> {
        Err("unused in tests".into())
    }
}

fn candidate(source: Source, provider: &str, name: &str) -> Candidate {
    Candidate {
        source,
        provider: provider.to_string(),
        backend_ref: format!("{provider}/{name}"),
        name: name.to_string(),
        version: None,
        description: None,
        package_base: None,
        url_path: None,
    }
}

#[test]
fn exact_name_beats_substring() {
    let resolver = Resolver::new(vec![Box::new(MockBackend {
        source: Source::Nix,
        name: "nix",
        results: Ok(vec![
            candidate(Source::Nix, "nixpkgs", "firefox-esr"),
            candidate(Source::Nix, "nixpkgs", "firefox"),
        ]),
    })]);
    match resolver.resolve("firefox") {
        ResolutionDecision::Selected(winner) => {
            assert_eq!(winner.candidate.name, "firefox");
            assert!(winner.reasons.contains(&Reason::ExactName));
        }
        other => panic!("expected Best, got {other:?}"),
    }
}

#[test]
fn backend_priority_breaks_score_ties() {
    let resolver = Resolver::new(vec![
        Box::new(MockBackend {
            source: Source::Aur,
            name: "aur",
            results: Ok(vec![candidate(Source::Aur, "aur", "firefox")]),
        }),
        Box::new(MockBackend {
            source: Source::Alpm,
            name: "alpm",
            results: Ok(vec![candidate(Source::Alpm, "extra", "firefox")]),
        }),
    ]);
    match resolver.resolve("firefox") {
        ResolutionDecision::Selected(winner) => {
            assert_eq!(winner.candidate.source, Source::Alpm);
        }
        other => panic!("expected Best, got {other:?}"),
    }
}

#[test]
fn equal_scores_are_ambiguous() {
    let resolver = Resolver::new(vec![Box::new(MockBackend {
        source: Source::Aur,
        name: "aur",
        results: Ok(vec![
            candidate(Source::Aur, "aur", "foo-bin"),
            candidate(Source::Aur, "aur", "foo-git"),
        ]),
    })]);
    match resolver.resolve("foo") {
        ResolutionDecision::Ambiguous(ranked) => {
            assert_eq!(ranked.len(), 2);
        }
        other => panic!("expected Ambiguous, got {other:?}"),
    }
}

#[test]
fn previous_preference_wins() {
    let resolver = Resolver::new(vec![Box::new(MockBackend {
        source: Source::Alpm,
        name: "alpm",
        results: Ok(vec![
            candidate(Source::Alpm, "extra", "firefox"),
            candidate(Source::Alpm, "extra", "firefox-esr"),
        ]),
    })]);
    match resolver.resolve_with_preference("firefox", Some(("alpm", "extra/firefox"))) {
        ResolutionDecision::Selected(winner) => {
            assert_eq!(winner.candidate.name, "firefox");
            assert!(winner.reasons.contains(&Reason::PreviousPreference));
        }
        other => panic!("expected Best, got {other:?}"),
    }
}

#[test]
fn backend_errors_surface_as_not_found() {
    let resolver = Resolver::new(vec![Box::new(MockBackend {
        source: Source::Nix,
        name: "nix",
        results: Err("flake evaluation exploded".into()),
    })]);
    match resolver.resolve("zzz") {
        ResolutionDecision::NotFound { errors } => {
            assert_eq!(errors.len(), 1);
            assert_eq!(errors[0].backend, "nix");
        }
        other => panic!("expected NotFound, got {other:?}"),
    }
}

#[test]
fn previous_preference_and_preferred_backend() {
    let resolver = Resolver::new(vec![Box::new(MockBackend {
        source: Source::Alpm,
        name: "alpm",
        results: Ok(vec![candidate(Source::Alpm, "extra", "firefox")]),
    })]);
    match resolver.resolve_with_preference("firefox", Some(("alpm", "extra/firefox"))) {
        ResolutionDecision::Selected(winner) => {
            assert!(winner.reasons.contains(&Reason::PreviousPreference));
        }
        other => panic!("expected Selected, got {other:?}"),
    }
    let resolver = Resolver::new(vec![Box::new(MockBackend {
        source: Source::Alpm,
        name: "alpm",
        results: Ok(vec![
            candidate(Source::Alpm, "extra", "firefox"),
            candidate(Source::Alpm, "extra", "firefox-esr"),
        ]),
    })]);
    match resolver.resolve_with_preference("firefox", Some(("alpm", "extra/firefox-esr"))) {
        ResolutionDecision::Selected(winner) => {
            assert_eq!(winner.candidate.name, "firefox-esr");
            assert!(winner.reasons.iter().any(|r| matches!(r, Reason::PreviousPreference)));
        }
        other => panic!("expected Selected, got {other:?}"),
    }
    let resolver = Resolver::new(vec![Box::new(MockBackend {
        source: Source::Alpm,
        name: "alpm",
        results: Ok(vec![candidate(Source::Alpm, "extra", "firefox")]),
    })]);
    match resolver.resolve_with_preference("firefox", Some(("alpm", "extra/other-firefox"))) {
        ResolutionDecision::Selected(winner) => {
            assert_eq!(winner.candidate.name, "firefox");
            assert!(winner.reasons.iter().any(|r| matches!(r, Reason::PreferredBackend)));
        }
        other => panic!("expected Selected, got {other:?}"),
    }
}

#[test]
fn non_name_match_is_backend_match_not_substring() {
    let resolver = Resolver::new(vec![Box::new(MockBackend {
        source: Source::Aur,
        name: "aur",
        results: Ok(vec![Candidate {
            source: Source::Aur,
            provider: "aur".into(),
            backend_ref: "aur/hiddify-bin".into(),
            name: "hiddify-bin".into(),
            version: None,
            description: Some("proxy for hiddify".into()),
            package_base: Some("hiddify-bin".into()),
            url_path: None,
        }]),
    })]);
    match resolver.resolve("hiddify proxy") {
        ResolutionDecision::Selected(winner) => {
            assert!(winner.reasons.contains(&Reason::BackendMatch));
            assert!(!winner.reasons.contains(&Reason::SubstringName));
        }
        other => panic!("expected Selected, got {other:?}"),
    }
}

#[test]
fn no_candidates_is_not_found() {
    let resolver = Resolver::new(vec![Box::new(MockBackend {
        source: Source::Alpm,
        name: "alpm",
        results: Ok(Vec::new()),
    })]);
    match resolver.resolve("anything") {
        ResolutionDecision::NotFound { errors } => assert!(errors.is_empty()),
        other => panic!("expected NotFound, got {other:?}"),
    }
}

#[test]
fn ranked_results_are_ordered_by_score() {
    let resolver = Resolver::new(vec![Box::new(MockBackend {
        source: Source::Nix,
        name: "nix",
        results: Ok(vec![
            candidate(Source::Nix, "nixpkgs", "xfirefox"),
            candidate(Source::Nix, "nixpkgs", "firefox-esr"),
            candidate(Source::Nix, "nixpkgs", "firefox"),
        ]),
    })]);
    let (ranked, errors) = resolver.resolve_ranked("firefox");
    assert!(errors.is_empty());
    let names: Vec<&str> = ranked.iter().map(|r| r.candidate.name.as_str()).collect();
    assert_eq!(names, vec!["firefox", "firefox-esr", "xfirefox"]);
    for pair in ranked.windows(2) {
        assert!(pair[0].score >= pair[1].score);
    }
}

#[test]
fn resolver_collects_in_source_priority_then_registration_order() {
    let nix = MockBackend {
        source: Source::Nix,
        name: "nix",
        results: Ok(vec![candidate(Source::Nix, "nixpkgs", "tool")]),
    };
    let broken = MockBackend { source: Source::Aur, name: "aur", results: Err("rpc down".to_string()) };
    let repo = MockBackend {
        source: Source::Alpm,
        name: "alpm",
        results: Ok(vec![candidate(Source::Alpm, "extra", "tool-extra")]),
    };
    let resolver = Resolver::new(vec![Box::new(nix), Box::new(broken), Box::new(repo)]);
    let (ranked, errors) = resolver.resolve_ranked("zzz");
    let providers: Vec<&str> = ranked.iter().map(|r| r.candidate.provider.as_str()).collect();
    assert_eq!(providers, vec!["extra", "nixpkgs"]);
    assert_eq!(errors.len(), 1);
    assert_eq!(errors[0].backend, "aur");
    assert_eq!(errors[0].message, "rpc down");
}

#[test]
fn resolve_decides_on_what_resolve_ranked_lists() {
    let resolver = Resolver::new(vec![
        Box::new(MockBackend {
            source: Source::Nix,
            name: "nix",
            results: Ok(vec![candidate(Source::Nix, "nixpkgs", "htop")]),
        }),
        Box::new(MockBackend {
            source: Source::Alpm,
            name: "alpm",
            results: Ok(vec![candidate(Source::Alpm, "extra", "htop")]),
        }),
        Box::new(MockBackend { source: Source::Aur, name: "aur", results: Err("timeout".to_string()) }),
    ]);
    let (ranked, errors) = resolver.resolve_ranked("htop");
    assert_eq!(ranked.len(), 2);
    assert!(ranked[0].score > ranked[1].score);
    assert_eq!(errors.len(), 1);
    match resolver.resolve("htop") {
        ResolutionDecision::Selected(winner) => {
            assert_eq!(winner.candidate.source, ranked[0].candidate.source);
            assert_eq!(winner.score, ranked[0].score);
        }
        other => panic!("expected Selected, got {other:?}"),
    }
    let silent = Resolver::new(vec![Box::new(MockBackend {
        source: Source::Aur,
        name: "aur",
        results: Err("timeout".to_string()),
    })]);
    let (none, errs) = silent.resolve_ranked("htop");
    assert!(none.is_empty());
    match silent.resolve("htop") {
        ResolutionDecision::NotFound { errors } => {
            assert_eq!(errors.len(), errs.len());
            assert_eq!(errors[0].backend, errs[0].backend);
            assert_eq!(errors[0].message, errs[0].message);
        }
        other => panic!("expected NotFound, got {other:?}"),
    }
}
