//! The Nix profile backend: profile elements, store path versions,
//! locked flake revisions, and the plans that install, remove and upgrade
//! elements of one profile.

use vstd::prelude::*;
use crate::model::{
    Candidate, CandidateView, InstalledPackage, InstalledView, Provenance, Source,
    TransactionOperation, TransactionPlan, installed_view, join_comma, join_names,
};
use crate::text::{
    ascii_digit, chars_of, contains_char, contains_chars, contains_seq, filter_map, find_char,
    first_index, is_ascii_digit, join_spaces, join_with_spaces, last_index, opt_view, owned,
    push_str, rfind_char, slice_of, str_eq, string_of, strings_view, trim, trim_chars,
};

verus! {

/// One element of `nix profile list --json`: its name (the key), the
/// original flake URL, the locked URL (with the pinned revision), its first
/// store path and its attribute path.
#[derive(Debug, Clone, PartialEq, Eq)]
pub struct ProfileElement {
    pub name: String,
    pub original_url: Option<String>,
    pub locked_url: Option<String>,
    pub store_path: Option<String>,
    pub attr_path: Option<String>,
}

/// A profile element with its text as character sequences.
pub struct ElementView {
    pub name: Seq<char>,
    pub original_url: Option<Seq<char>>,
    pub locked_url: Option<Seq<char>>,
    pub store_path: Option<Seq<char>>,
    pub attr_path: Option<Seq<char>>,
}

impl View for ProfileElement {
    type V = ElementView;

    open spec fn view(&self) -> ElementView {
        ElementView {
            name: self.name@,
            original_url: opt_view(self.original_url),
            locked_url: opt_view(self.locked_url),
            store_path: opt_view(self.store_path),
            attr_path: opt_view(self.attr_path),
        }
    }
}

/// The pinned revision in a locked flake URL: the last path component up
/// to any `?`, trimmed, when the URL has at least two `/`, and the
/// revision is non-empty and holds no `:`.
pub open spec fn locked_rev_spec(url: Seq<char>) -> Option<Seq<char>> {
    let p = last_index(url, '/');
    if p < 0 {
        None
    } else {
        let before = url.subrange(0, p);
        let tail = url.subrange(p + 1, url.len() as int);
        if !before.contains('/') {
            None
        } else {
            let q = first_index(tail, '?');
            let piece = if q < 0 {
                tail
            } else {
                tail.subrange(0, q)
            };
            let rev = trim(piece);
            if rev.len() == 0 || rev.contains(':') {
                None
            } else {
                Some(rev)
            }
        }
    }
}

/// Splits the pinned revision out of a locked element URL, e.g.
/// `github:owner/repo/abc123?narHash=...` gives `abc123`; URLs without a
/// revision component (`github:owner/repo`) give none.
pub fn locked_rev_of(url: &str) -> (r: Option<String>)
    ensures
        opt_view(r) == locked_rev_spec(url@),
{
    let u = chars_of(url);
    let p = match rfind_char(&u, '/') {
        Some(p) => p,
        None => {
            return None;
        },
    };
    proof {
        crate::text::lemma_index_before(u@, '/', u@.len() as int);
        assert(p < u@.len());
    }
    let before = slice_of(&u, 0, p);
    if !contains_char(&before, '/') {
        return None;
    }
    let tail = slice_of(&u, p + 1, u.len());
    let piece = match find_char(&tail, '?') {
        Some(q) => {
            proof {
                crate::text::lemma_index_from(tail@, '?', 0);
            }
            slice_of(&tail, 0, q)
        },
        None => tail,
    };
    let rev = trim_chars(&piece);
    if rev.len() == 0 || contains_char(&rev, ':') {
        return None;
    }
    Some(string_of(&rev))
}

/// The version at the end of a store path: after the last `-` of its last
/// component, when it starts with an ASCII digit.
pub open spec fn store_version(path: Seq<char>) -> Option<Seq<char>> {
    let comp = path.subrange(last_index(path, '/') + 1, path.len() as int);
    let d = last_index(comp, '-');
    if d < 0 {
        None
    } else {
        let v = comp.subrange(d + 1, comp.len() as int);
        if v.len() > 0 && is_ascii_digit(v[0]) {
            Some(v)
        } else {
            None
        }
    }
}

/// The version of a store path such as `/nix/store/abc-foo-1.2.3`.
pub fn split_version(store_path: &str) -> (r: Option<String>)
    ensures
        opt_view(r) == store_version(store_path@),
{
    let s = chars_of(store_path);
    proof {
        crate::text::lemma_index_before(s@, '/', s@.len() as int);
    }
    let start = match rfind_char(&s, '/') {
        Some(p) => {
            assert(p < s@.len());
            p + 1
        },
        None => 0,
    };
    let comp = slice_of(&s, start, s.len());
    proof {
        crate::text::lemma_index_before(comp@, '-', comp@.len() as int);
    }
    let d = match rfind_char(&comp, '-') {
        Some(d) => d,
        None => {
            return None;
        },
    };
    let v = slice_of(&comp, d + 1, comp.len());
    if v.len() > 0 && ascii_digit(v[0]) {
        Some(string_of(&v))
    } else {
        None
    }
}

/// The installed package that a profile element stands for: its store
/// path as reference (or `<original URL, default nixpkgs>#<name>`), the
/// version of the store path, the attribute path as scope.
pub open spec fn installed_of_element(e: ElementView) -> InstalledView {
    InstalledView {
        source: Source::Nix,
        backend_ref: match e.store_path {
            Some(p) => p,
            None => (match e.original_url {
                Some(u) => u,
                None => "nixpkgs"@,
            }) + "#"@ + e.name,
        },
        name: e.name,
        version: match e.store_path {
            Some(p) => store_version(p),
            None => None,
        },
        scope: e.attr_path,
        installed_at: None,
        provenance: Provenance::Unknown,
    }
}

/// The installed packages of a profile, one per element, in order.
pub fn parse_profile_list(elements: Vec<ProfileElement>) -> (r: Vec<InstalledPackage>)
    ensures
        installed_view(r@) == elements@.map_values(|e: ProfileElement| installed_of_element(e@)),
{
    let ghost ev = elements@.map_values(|e: ProfileElement| installed_of_element(e@));
    let mut out: Vec<InstalledPackage> = Vec::new();
    let mut i: usize = 0;
    while i < elements.len()
        invariant
            i <= elements@.len(),
            ev == elements@.map_values(|e: ProfileElement| installed_of_element(e@)),
            installed_view(out@) == ev.take(i as int),
        decreases elements.len() - i,
    {
        let e = &elements[i];
        let backend_ref = match &e.store_path {
            Some(p) => p.clone(),
            None => {
                let mut b = match &e.original_url {
                    Some(u) => u.clone(),
                    None => owned("nixpkgs"),
                };
                push_str(&mut b, "#");
                push_str(&mut b, e.name.as_str());
                b
            },
        };
        let version = match &e.store_path {
            Some(p) => split_version(p.as_str()),
            None => None,
        };
        let pkg = InstalledPackage {
            source: Source::Nix,
            backend_ref,
            name: e.name.clone(),
            version,
            scope: crate::model::copy_opt(&e.attr_path),
            installed_at: None,
            provenance: Provenance::Unknown,
        };
        proof {
            reveal_strlit("#");
            reveal_strlit("nixpkgs");
            assert(pkg@ == installed_of_element(e@));
        }
        let ghost before = installed_view(out@);
        out.push(pkg);
        assert(installed_view(out@) =~= before.push(pkg@));
        assert(ev.take(i + 1) =~= ev.take(i as int).push(ev[i as int]));
        i = i + 1;
    }
    assert(ev.take(ev.len() as int) =~= ev);
    out
}

/// The candidate for one hit of `nix search nixpkgs <query> --json`: named
/// by its `pname`, else by the last component of its attribute path,
/// installable as `nixpkgs#<attribute path>`.
pub open spec fn search_candidate_spec(
    full_attr: Seq<char>,
    pname: Option<Seq<char>>,
    version: Option<Seq<char>>,
    description: Option<Seq<char>>,
) -> CandidateView {
    CandidateView {
        source: Source::Nix,
        provider: "nixpkgs"@,
        backend_ref: "nixpkgs#"@ + full_attr,
        name: match pname {
            Some(n) => n,
            None => full_attr.subrange(last_index(full_attr, '.') + 1, full_attr.len() as int),
        },
        version,
        description,
        package_base: None,
        url_path: None,
    }
}

/// The candidate for a search hit at attribute path `full_attr`.
pub fn search_candidate(
    full_attr: &str,
    pname: Option<String>,
    version: Option<String>,
    description: Option<String>,
) -> (r: Candidate)
    ensures
        r@ == search_candidate_spec(full_attr@, opt_view(pname), opt_view(version), opt_view(description)),
{
    let name = match pname {
        Some(n) => n,
        None => {
            let a = chars_of(full_attr);
            proof {
                crate::text::lemma_index_before(a@, '.', a@.len() as int);
            }
            let start = match rfind_char(&a, '.') {
                Some(p) => p + 1,
                None => 0,
            };
            string_of(&slice_of(&a, start, a.len()))
        },
    };
    let mut backend_ref = owned("nixpkgs#");
    push_str(&mut backend_ref, full_attr);
    Candidate {
        source: Source::Nix,
        provider: owned("nixpkgs"),
        backend_ref,
        name,
        version,
        description,
        package_base: None,
        url_path: None,
    }
}

/// A Nix profile backend. The configured profile path (none: the default
/// profile) is part of the backend's identity: every plan and every query
/// is about exactly that profile.
pub struct NixBackend {
    profile: Option<String>,
}

/// How a profile is named in plans: its path, or "default".
pub open spec fn profile_label_spec(profile: Option<String>) -> Seq<char> {
    match profile {
        Some(p) => p@,
        None => "default"@,
    }
}

/// The `--profile <path>` arguments for a profile label ("default": none).
pub open spec fn profile_args_spec(profile: Seq<char>) -> Seq<Seq<char>> {
    if profile == "default"@ {
        Seq::empty()
    } else {
        seq!["--profile"@, profile]
    }
}

/// The `--profile` arguments for a profile label.
pub fn profile_args(profile: &str) -> (r: Vec<String>)
    ensures
        strings_view(r@) == profile_args_spec(profile@),
{
    let mut args: Vec<String> = Vec::new();
    if !str_eq(profile, "default") {
        args.push(owned("--profile"));
        args.push(owned(profile));
    }
    assert(strings_view(args@) =~= profile_args_spec(profile@));
    args
}

/// The elements that an operation upgrades.
pub open spec fn upgraded_by(op: TransactionOperation) -> Seq<Seq<char>> {
    match op {
        TransactionOperation::ProfileUpgrade { element, .. } => seq![element@],
        TransactionOperation::ProfileUpgradeMany { elements, .. } => strings_view(elements@),
        _ => Seq::empty(),
    }
}

/// The elements that a plan upgrades, operation by operation.
pub open spec fn upgraded_elements(ops: Seq<TransactionOperation>) -> Seq<Seq<char>>
    decreases ops.len(),
{
    if ops.len() == 0 {
        Seq::empty()
    } else {
        upgraded_elements(ops.drop_last()) + upgraded_by(ops.last())
    }
}

/// The last package of `pkgs` named `name`, as a map keyed by name keeps
/// it.
pub open spec fn last_by_name(pkgs: Seq<InstalledView>, name: Seq<char>) -> Option<InstalledView>
    decreases pkgs.len(),
{
    if pkgs.len() == 0 {
        None
    } else if pkgs.last().name == name {
        Some(pkgs.last())
    } else {
        last_by_name(pkgs.drop_last(), name)
    }
}

/// The receipt for an upgraded element: its state after the upgrade, when
/// it exists before and after and its store path changed.
pub open spec fn changed_element(
    before: Seq<InstalledView>,
    after: Seq<InstalledView>,
    element: Seq<char>,
) -> Option<InstalledView> {
    match (last_by_name(before, element), last_by_name(after, element)) {
        (Some(b), Some(a)) => if a.backend_ref != b.backend_ref {
            Some(a)
        } else {
            None
        },
        _ => None,
    }
}

pub open spec fn changed_element_fn(
    before: Seq<InstalledView>,
    after: Seq<InstalledView>,
) -> spec_fn(Seq<char>) -> Option<InstalledView> {
    |e: Seq<char>| changed_element(before, after, e)
}

/// The last index of a package named `name` in `pkgs`.
fn last_index_named(pkgs: &[InstalledPackage], name: &str) -> (r: Option<usize>)
    ensures
        match r {
            Some(i) => i < pkgs@.len() && last_by_name(installed_view(pkgs@), name@) == Some(
                pkgs@[i as int]@,
            ),
            None => last_by_name(installed_view(pkgs@), name@) is None,
        },
{
    let ghost pv = installed_view(pkgs@);
    let mut i: usize = pkgs.len();
    assert(pv.take(pv.len() as int) =~= pv);
    while i > 0
        invariant
            i <= pkgs@.len(),
            pv == installed_view(pkgs@),
            last_by_name(pv, name@) == last_by_name(pv.take(i as int), name@),
        decreases i,
    {
        let ghost t = pv.take(i as int);
        assert(t.drop_last() =~= pv.take(i - 1));
        assert(t.last() == pkgs@[i - 1]@);
        if str_eq(pkgs[i - 1].name.as_str(), name) {
            return Some(i - 1);
        }
        i = i - 1;
    }
    assert(pv.take(0) =~= Seq::<InstalledView>::empty());
    None
}

/// Appends the receipts for `elements` (see `changed_element`).
fn add_changed(
    elements: &Vec<String>,
    before: &[InstalledPackage],
    after: &[InstalledPackage],
    out: &mut Vec<InstalledPackage>,
    Ghost(done): Ghost<Seq<Seq<char>>>,
)
    requires
        installed_view(old(out)@) == filter_map(
            done,
            changed_element_fn(installed_view(before@), installed_view(after@)),
        ),
    ensures
        installed_view(final(out)@) == filter_map(
            done + strings_view(elements@),
            changed_element_fn(installed_view(before@), installed_view(after@)),
        ),
{
    let ghost f = changed_element_fn(installed_view(before@), installed_view(after@));
    let ghost ev = strings_view(elements@);
    let mut j: usize = 0;
    assert(done + ev.take(0) =~= done);
    while j < elements.len()
        invariant
            j <= elements@.len(),
            ev == strings_view(elements@),
            f == changed_element_fn(installed_view(before@), installed_view(after@)),
            installed_view(out@) == filter_map(done + ev.take(j as int), f),
        decreases elements.len() - j,
    {
        let e = elements[j].as_str();
        proof {
            let s = done + ev.take(j + 1);
            assert(s.drop_last() =~= done + ev.take(j as int));
            assert(s.last() == ev[j as int]);
            assert(ev[j as int] == e@);
        }
        let b = last_index_named(before, e);
        let a = last_index_named(after, e);
        match (b, a) {
            (Some(bi), Some(ai)) => {
                if !str_eq(after[ai].backend_ref.as_str(), before[bi].backend_ref.as_str()) {
                    let ghost prev = installed_view(out@);
                    let p = after[ai].duplicate();
                    out.push(p);
                    assert(installed_view(out@) =~= prev.push(p@));
                }
            },
            _ => {},
        }
        j = j + 1;
    }
    assert(done + ev.take(ev.len() as int) =~= done + ev);
}

impl NixBackend {
    pub fn new(profile: Option<String>) -> (r: NixBackend)
        ensures
            r.profile_path() == profile,
    {
        NixBackend { profile }
    }

    /// The configured profile path (none: the default profile).
    pub closed spec fn profile_path(&self) -> Option<String> {
        self.profile
    }

    pub fn name(&self) -> (r: &'static str)
        ensures
            r@ == "nix"@,
    {
        "nix"
    }

    pub fn source(&self) -> (r: Source)
        ensures
            r == Source::Nix,
    {
        Source::Nix
    }

    /// The profile as plans name it: its path, or "default".
    pub fn profile_label(&self) -> (r: String)
        ensures
            r@ == profile_label_spec(self.profile_path()),
    {
        match &self.profile {
            Some(p) => p.clone(),
            None => owned("default"),
        }
    }

    /// The arguments of `nix profile list --json` for this profile.
    pub fn list_args(&self) -> (r: Vec<String>)
        ensures
            strings_view(r@) == seq!["profile"@, "list"@, "--json"@] + match self.profile_path() {
                Some(p) => seq!["--profile"@, p@],
                None => Seq::empty(),
            },
    {
        let mut args: Vec<String> = Vec::new();
        args.push(owned("profile"));
        args.push(owned("list"));
        args.push(owned("--json"));
        match &self.profile {
            Some(p) => {
                args.push(owned("--profile"));
                args.push(p.clone());
            },
            None => {},
        }
        proof {
            let tail = match self.profile_path() {
                Some(p) => seq!["--profile"@, p@],
                None => Seq::<Seq<char>>::empty(),
            };
            assert(strings_view(args@) =~= seq!["profile"@, "list"@, "--json"@] + tail);
        }
        args
    }

    /// Installs the candidate's installable into this profile.
    pub fn plan_install(&self, target: &Candidate) -> (r: Result<TransactionPlan, String>)
        ensures
            r matches Ok(p) && p.backend_ref == target.backend_ref && p.name == target.name
                && p.operations@.len() == 1 && (p.operations@[0] matches TransactionOperation::ProfileInstall {
                profile,
                attr,
            } && profile@ == profile_label_spec(self.profile_path()) && attr == target.backend_ref)
                && !p.requires_privilege,
    {
        let mut operations: Vec<TransactionOperation> = Vec::new();
        operations.push(
            TransactionOperation::ProfileInstall {
                profile: self.profile_label(),
                attr: target.backend_ref.clone(),
            },
        );
        Ok(
            TransactionPlan {
                backend_ref: target.backend_ref.clone(),
                name: target.name.clone(),
                operations,
                requires_privilege: false,
            },
        )
    }

    /// Removes the element by its reference from this profile.
    pub fn plan_remove(&self, target: &InstalledPackage) -> (r: Result<TransactionPlan, String>)
        ensures
            r matches Ok(p) && p.backend_ref == target.backend_ref && p.name == target.name
                && p.operations@.len() == 1 && (p.operations@[0] matches TransactionOperation::ProfileRemove {
                profile,
                attr,
            } && profile@ == profile_label_spec(self.profile_path()) && attr == target.backend_ref)
                && !p.requires_privilege,
    {
        let mut operations: Vec<TransactionOperation> = Vec::new();
        operations.push(
            TransactionOperation::ProfileRemove {
                profile: self.profile_label(),
                attr: target.backend_ref.clone(),
            },
        );
        Ok(
            TransactionPlan {
                backend_ref: target.backend_ref.clone(),
                name: target.name.clone(),
                operations,
                requires_privilege: false,
            },
        )
    }

    /// Upgrades the element by its name in this profile.
    pub fn plan_upgrade(&self, target: &InstalledPackage) -> (r: Result<TransactionPlan, String>)
        ensures
            r matches Ok(p) && p.backend_ref == target.backend_ref && p.name == target.name
                && p.operations@.len() == 1 && (p.operations@[0] matches TransactionOperation::ProfileUpgrade {
                profile,
                element,
            } && profile@ == profile_label_spec(self.profile_path()) && element == target.name)
                && !p.requires_privilege,
    {
        let mut operations: Vec<TransactionOperation> = Vec::new();
        operations.push(
            TransactionOperation::ProfileUpgrade {
                profile: self.profile_label(),
                element: target.name.clone(),
            },
        );
        Ok(
            TransactionPlan {
                backend_ref: target.backend_ref.clone(),
                name: target.name.clone(),
                operations,
                requires_privilege: false,
            },
        )
    }

    /// One plan for the whole profile that upgrades every target in one
    /// `nix profile upgrade`; no plan when there is nothing to upgrade.
    pub fn plan_upgrade_chain(&self, targets: &[Candidate]) -> (r: Result<Vec<TransactionPlan>, String>)
        ensures
            r matches Ok(plans) && (targets@.len() == 0 ==> plans@.len() == 0) && (targets@.len()
                > 0 ==> plans@.len() == 1 && plans@[0].backend_ref@ == profile_label_spec(
                self.profile_path(),
            ) && plans@[0].name@ == join_comma(targets@.map_values(|t: Candidate| t.name@))
                && plans@[0].operations@.len() == 1 && (plans@[0].operations@[0] matches TransactionOperation::ProfileUpgradeMany {
                profile,
                elements,
            } && profile@ == profile_label_spec(self.profile_path()) && strings_view(elements@)
                == targets@.map_values(|t: Candidate| t.name@)) && !plans@[0].requires_privilege),
    {
        let ghost tn = targets@.map_values(|t: Candidate| t.name@);
        let mut elements: Vec<String> = Vec::new();
        let mut i: usize = 0;
        while i < targets.len()
            invariant
                i <= targets@.len(),
                tn == targets@.map_values(|t: Candidate| t.name@),
                strings_view(elements@) == tn.take(i as int),
            decreases targets.len() - i,
        {
            let ghost before = strings_view(elements@);
            elements.push(targets[i].name.clone());
            assert(strings_view(elements@) =~= before.push(tn[i as int]));
            assert(tn.take(i + 1) =~= tn.take(i as int).push(tn[i as int]));
            i = i + 1;
        }
        assert(tn.take(tn.len() as int) =~= tn);
        let mut plans: Vec<TransactionPlan> = Vec::new();
        if elements.len() == 0 {
            return Ok(plans);
        }
        let name = join_names(&elements);
        assert(elements@.map_values(|s: String| s@) =~= strings_view(elements@));
        let mut operations: Vec<TransactionOperation> = Vec::new();
        operations.push(
            TransactionOperation::ProfileUpgradeMany { profile: self.profile_label(), elements },
        );
        plans.push(
            TransactionPlan {
                backend_ref: self.profile_label(),
                name,
                operations,
                requires_privilege: false,
            },
        );
        Ok(plans)
    }

    /// Upgrades every element of this profile.
    pub fn plan_upgrade_all(&self) -> (r: Result<TransactionPlan, String>)
        ensures
            r matches Ok(p) && p.backend_ref@ == profile_label_spec(self.profile_path()) && p.name@
                == "nix profile upgrade"@ && p.operations@.len() == 1 && (p.operations@[0] matches TransactionOperation::SystemUpgrade {
                system,
            } && system@ == "nix"@) && !p.requires_privilege,
    {
        let mut operations: Vec<TransactionOperation> = Vec::new();
        operations.push(TransactionOperation::SystemUpgrade { system: owned("nix") });
        Ok(
            TransactionPlan {
                backend_ref: self.profile_label(),
                name: owned("nix profile upgrade"),
                operations,
                requires_privilege: false,
            },
        )
    }

    /// Receipts only for elements that really changed: an element upgraded
    /// by the plan whose store path differs between before and after.
    /// Elements that vanished or were renamed get none: the profile listing
    /// after the operation is authoritative. The states are compared by
    /// scanning `Vec`s rather than through a `HashMap`: vstd specifies hash
    /// tables only for keys it knows to hash consistently (integers and
    /// `bool`), not for `String`.
    pub fn receipt_instances(
        &self,
        plan: &TransactionPlan,
        before: &[InstalledPackage],
        after: &[InstalledPackage],
    ) -> (r: Result<Vec<InstalledPackage>, String>)
        ensures
            r matches Ok(v) && installed_view(v@) == filter_map(
                upgraded_elements(plan.operations@),
                changed_element_fn(installed_view(before@), installed_view(after@)),
            ),
    {
        let ghost bv = installed_view(before@);
        let ghost av = installed_view(after@);
        let ghost f = changed_element_fn(bv, av);
        let ghost ops = plan.operations@;
        let mut out: Vec<InstalledPackage> = Vec::new();
        let mut k: usize = 0;
        assert(ops.take(0) =~= Seq::<TransactionOperation>::empty());
        while k < plan.operations.len()
            invariant
                k <= ops.len(),
                ops == plan.operations@,
                bv == installed_view(before@),
                av == installed_view(after@),
                f == changed_element_fn(bv, av),
                installed_view(out@) == filter_map(upgraded_elements(ops.take(k as int)), f),
            decreases ops.len() - k,
        {
            let mut elements: Vec<String> = Vec::new();
            match &plan.operations[k] {
                TransactionOperation::ProfileUpgrade { element, .. } => {
                    elements.push(element.clone());
                },
                TransactionOperation::ProfileUpgradeMany { elements: es, .. } => {
                    elements = crate::aur::copy_strings(es);
                },
                _ => {},
            }
            let ghost done = upgraded_elements(ops.take(k as int));
            proof {
                let t = ops.take(k + 1);
                assert(t.drop_last() =~= ops.take(k as int));
                assert(t.last() == ops[k as int]);
                assert(strings_view(elements@) =~= upgraded_by(ops[k as int]));
            }
            add_changed(&elements, before, after, &mut out, Ghost(done));
            assert(done + strings_view(elements@) =~= upgraded_elements(ops.take(k + 1)));
            k = k + 1;
        }
        assert(ops.take(ops.len() as int) =~= ops);
        Ok(out)
    }
}

/// The full argument list of a `nix` invocation: the experimental
/// features it needs, then `args`.
pub fn nix_invocation(args: &Vec<String>) -> (r: Vec<String>)
    ensures
        strings_view(r@) == seq!["--extra-experimental-features"@, "nix-command flakes"@]
            + strings_view(args@),
{
    let mut out: Vec<String> = Vec::new();
    out.push(owned("--extra-experimental-features"));
    out.push(owned("nix-command flakes"));
    let ghost start = strings_view(out@);
    let mut i: usize = 0;
    while i < args.len()
        invariant
            i <= args@.len(),
            start == seq!["--extra-experimental-features"@, "nix-command flakes"@],
            strings_view(out@) == start + strings_view(args@).take(i as int),
        decreases args.len() - i,
    {
        let ghost before = strings_view(out@);
        out.push(args[i].clone());
        assert(strings_view(out@) =~= before.push(args@[i as int]@));
        assert(strings_view(args@).take(i + 1) =~= strings_view(args@).take(i as int).push(
            args@[i as int]@,
        ));
        i = i + 1;
    }
    assert(strings_view(args@).take(args@.len() as int) =~= strings_view(args@));
    out
}

/// What a finished `nix <args>` query gives: its output when it succeeded;
/// nothing when it failed silently or found no results; otherwise its
/// error output as the error.
pub open spec fn nix_outcome(
    args: Seq<Seq<char>>,
    success: bool,
    stdout: Seq<char>,
    stderr: Seq<char>,
) -> Result<Seq<char>, Seq<char>> {
    if success {
        Ok(stdout)
    } else if trim(stderr).len() == 0 && trim(stdout).len() == 0 {
        Ok(Seq::empty())
    } else if contains_seq(trim(stderr), "no results"@) {
        Ok(Seq::empty())
    } else {
        Err("nix "@ + join_spaces(args) + " failed: "@ + trim(stderr))
    }
}

/// Interprets the exit status and output of `nix <args>`.
pub fn interpret_nix_output(args: &Vec<String>, success: bool, stdout: String, stderr: &str) -> (r:
    Result<String, String>)
    ensures
        match (r, nix_outcome(strings_view(args@), success, stdout@, stderr@)) {
            (Ok(a), Ok(b)) => a@ == b,
            (Err(a), Err(b)) => a@ == b,
            _ => false,
        },
{
    if success {
        return Ok(stdout);
    }
    let err = trim_chars(&chars_of(stderr));
    let out = trim_chars(&chars_of(stdout.as_str()));
    proof {
        reveal_strlit("");
    }
    if err.len() == 0 && out.len() == 0 {
        return Ok(String::new());
    }
    if contains_chars(&err, &chars_of("no results")) {
        return Ok(String::new());
    }
    let mut msg = owned("nix ");
    let joined = join_with_spaces(args);
    push_str(&mut msg, joined.as_str());
    push_str(&mut msg, " failed: ");
    crate::text::push_chars(&mut msg, &err);
    Err(msg)
}

/// The query that tells whether an element is outdated: the element's
/// original flake URL and the revision its locked URL pins. Elements
/// without both URLs, or without a pinned revision, are not checked.
pub open spec fn revision_query_spec(e: ElementView) -> Option<(Seq<char>, Seq<char>)> {
    match (e.original_url, e.locked_url) {
        (Some(o), Some(l)) => match locked_rev_spec(l) {
            Some(rev) => Some((o, rev)),
            None => None,
        },
        _ => None,
    }
}

/// The flake URL to look the latest revision up for, and the revision
/// the element is pinned at.
pub fn revision_query(element: &ProfileElement) -> (r: Option<(String, String)>)
    ensures
        match (r, revision_query_spec(element@)) {
            (Some((u, rev)), Some((su, srev))) => u@ == su && rev@ == srev,
            (None, None) => true,
            _ => false,
        },
{
    match (&element.original_url, &element.locked_url) {
        (Some(o), Some(l)) => match locked_rev_of(l.as_str()) {
            Some(rev) => Some((o.clone(), rev)),
            None => None,
        },
        _ => None,
    }
}

/// The candidate that upgrades an element whose latest revision differs
/// from the pinned one. Its version is unknown without building it.
pub open spec fn outdated_candidate_spec(name: Seq<char>, current: Seq<char>, latest: Seq<char>) -> Option<
    CandidateView,
> {
    if latest != current {
        Some(
            CandidateView {
                source: Source::Nix,
                provider: "nix"@,
                backend_ref: name,
                name,
                version: None,
                description: None,
                package_base: None,
                url_path: None,
            },
        )
    } else {
        None
    }
}

/// The upgrade candidate for `element`, when the flake's latest revision
/// differs from the one it is pinned at.
pub fn outdated_candidate(element: &ProfileElement, current_rev: &str, latest_rev: &str) -> (r:
    Option<Candidate>)
    ensures
        match (r, outdated_candidate_spec(element.name@, current_rev@, latest_rev@)) {
            (Some(c), Some(v)) => c@ == v,
            (None, None) => true,
            _ => false,
        },
{
    if str_eq(latest_rev, current_rev) {
        return None;
    }
    Some(
        Candidate {
            source: Source::Nix,
            provider: owned("nix"),
            backend_ref: element.name.clone(),
            name: element.name.clone(),
            version: None,
            description: None,
            package_base: None,
            url_path: None,
        },
    )
}

/// The `nix` arguments that carry out an operation (after those of
/// `nix_invocation`), or none for an operation that is not Nix's.
pub open spec fn nix_operation_args(op: TransactionOperation) -> Option<Seq<Seq<char>>> {
    match op {
        TransactionOperation::ProfileInstall { profile, attr } => Some(
            seq!["profile"@, "install"@] + profile_args_spec(profile@) + seq![attr@],
        ),
        TransactionOperation::ProfileRemove { profile, attr } => Some(
            seq!["profile"@, "remove"@] + profile_args_spec(profile@) + seq![attr@],
        ),
        TransactionOperation::ProfileUpgrade { profile, element } => Some(
            seq!["profile"@, "upgrade"@] + profile_args_spec(profile@) + seq![element@],
        ),
        TransactionOperation::ProfileUpgradeMany { profile, elements } => Some(
            seq!["profile"@, "upgrade"@] + profile_args_spec(profile@) + strings_view(elements@),
        ),
        TransactionOperation::SystemUpgrade { system } => if system@ == "nix"@ {
            Some(seq!["profile"@, "upgrade"@])
        } else {
            None
        },
        _ => None,
    }
}

/// Installing, removing and upgrading `target` in the profile `profile`
/// run `nix profile` with the same arguments but for the verb: each
/// carries `--profile` and the profile's path, right after the verb,
/// unless the profile is the default one (then nothing but the verb and
/// the target), and ends with the target.
pub proof fn lemma_profile_operations_agree(profile: String, target: String)
    ensures
        ({
            let i = nix_operation_args(
                TransactionOperation::ProfileInstall { profile: profile, attr: target },
            );
            let r = nix_operation_args(
                TransactionOperation::ProfileRemove { profile: profile, attr: target },
            );
            let u = nix_operation_args(
                TransactionOperation::ProfileUpgrade { profile: profile, element: target },
            );
            &&& i is Some && r is Some && u is Some
            &&& i->0.len() == r->0.len() && r->0.len() == u->0.len()
            &&& i->0[1] == "install"@ && r->0[1] == "remove"@ && u->0[1] == "upgrade"@
            &&& forall|k: int| 0 <= k < i->0.len() && k != 1 ==> i->0[k] == r->0[k] && r->0[k] == u->0[k]
            &&& i->0[0] == "profile"@
            &&& i->0.last() == target@
            &&& profile@ != "default"@ ==> i->0.len() == 5 && i->0[2] == "--profile"@ && i->0[3] == profile@
            &&& profile@ == "default"@ ==> i->0.len() == 3
        }),
{
    let pa = profile_args_spec(profile@);
    let i = seq!["profile"@, "install"@] + pa + seq![target@];
    let r = seq!["profile"@, "remove"@] + pa + seq![target@];
    let u = seq!["profile"@, "upgrade"@] + pa + seq![target@];
    assert forall|k: int| 0 <= k < i.len() && k != 1 implies i[k] == r[k] && r[k] == u[k] by {
        if k >= 2 && k < 2 + pa.len() {
            assert(i[k] == pa[k - 2] && r[k] == pa[k - 2] && u[k] == pa[k - 2]);
        }
    }
}

/// Appends `b` to `a`.
fn append_strings(a: &mut Vec<String>, b: &Vec<String>)
    ensures
        strings_view(final(a)@) == strings_view(old(a)@) + strings_view(b@),
{
    let ghost start = strings_view(a@);
    let mut i: usize = 0;
    while i < b.len()
        invariant
            i <= b@.len(),
            strings_view(a@) == start + strings_view(b@).take(i as int),
        decreases b.len() - i,
    {
        let ghost before = strings_view(a@);
        a.push(b[i].clone());
        assert(strings_view(a@) =~= before.push(b@[i as int]@));
        assert(strings_view(b@).take(i + 1) =~= strings_view(b@).take(i as int).push(b@[i as int]@));
        i = i + 1;
    }
    assert(strings_view(b@).take(b@.len() as int) =~= strings_view(b@));
}

impl NixBackend {
    /// The arguments that carry out `op` on a profile.
    pub fn operation_args(op: &TransactionOperation) -> (r: Option<Vec<String>>)
        ensures
            match (r, nix_operation_args(*op)) {
                (Some(a), Some(s)) => strings_view(a@) == s,
                (None, None) => true,
                _ => false,
            },
    {
        let mut args: Vec<String> = Vec::new();
        args.push(owned("profile"));
        match op {
            TransactionOperation::ProfileInstall { profile, attr } => {
                args.push(owned("install"));
                assert(strings_view(args@) =~= seq!["profile"@, "install"@]);
                append_strings(&mut args, &profile_args(profile.as_str()));
                let ghost s1 = strings_view(args@);
                args.push(attr.clone());
                assert(strings_view(args@) =~= s1.push(attr@));
                assert(strings_view(args@) =~= seq!["profile"@, "install"@] + profile_args_spec(
                    profile@,
                ) + seq![attr@]);
            },
            TransactionOperation::ProfileRemove { profile, attr } => {
                args.push(owned("remove"));
                assert(strings_view(args@) =~= seq!["profile"@, "remove"@]);
                append_strings(&mut args, &profile_args(profile.as_str()));
                let ghost s1 = strings_view(args@);
                args.push(attr.clone());
                assert(strings_view(args@) =~= s1.push(attr@));
                assert(strings_view(args@) =~= seq!["profile"@, "remove"@] + profile_args_spec(
                    profile@,
                ) + seq![attr@]);
            },
            TransactionOperation::ProfileUpgrade { profile, element } => {
                args.push(owned("upgrade"));
                assert(strings_view(args@) =~= seq!["profile"@, "upgrade"@]);
                append_strings(&mut args, &profile_args(profile.as_str()));
                let ghost s1 = strings_view(args@);
                args.push(element.clone());
                assert(strings_view(args@) =~= s1.push(element@));
                assert(strings_view(args@) =~= seq!["profile"@, "upgrade"@] + profile_args_spec(
                    profile@,
                ) + seq![element@]);
            },
            TransactionOperation::ProfileUpgradeMany { profile, elements } => {
                args.push(owned("upgrade"));
                assert(strings_view(args@) =~= seq!["profile"@, "upgrade"@]);
                append_strings(&mut args, &profile_args(profile.as_str()));
                append_strings(&mut args, elements);
                assert(strings_view(args@) =~= seq!["profile"@, "upgrade"@] + profile_args_spec(
                    profile@,
                ) + strings_view(elements@));
            },
            TransactionOperation::SystemUpgrade { system } => {
                if !str_eq(system.as_str(), "nix") {
                    return None;
                }
                args.push(owned("upgrade"));
                assert(strings_view(args@) =~= seq!["profile"@, "upgrade"@]);
            },
            _ => {
                return None;
            },
        }
        Some(args)
    }
}

} // verus!
