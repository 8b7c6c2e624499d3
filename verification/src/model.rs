//! Packages, candidates and transaction plans shared by all backends.

use vstd::prelude::*;
use crate::text::{opt_view, owned, push_chars, push_str};

verus! {

/// The ecosystem a candidate or installed package belongs to.
#[derive(Debug, Clone, Copy, PartialEq, Eq, Hash, Structural)]
pub enum Source {
    Alpm,
    Aur,
    Nix,
}

impl Source {
    pub open spec fn spec_name(self) -> Seq<char> {
        match self {
            Source::Alpm => "alpm"@,
            Source::Aur => "aur"@,
            Source::Nix => "nix"@,
        }
    }

    /// The backend name of the source: "alpm", "aur" or "nix".
    pub fn as_str(&self) -> (r: &'static str)
        ensures
            r@ == self.spec_name(),
    {
        match self {
            Source::Alpm => "alpm",
            Source::Aur => "aur",
            Source::Nix => "nix",
        }
    }
}

/// A package that a backend offers for a query.
#[derive(Debug, Clone, PartialEq, Eq)]
pub struct Candidate {
    pub source: Source,
    pub provider: String,
    pub backend_ref: String,
    pub name: String,
    pub version: Option<String>,
    pub description: Option<String>,
    pub package_base: Option<String>,
    pub url_path: Option<String>,
}

/// A candidate with its text fields as character sequences.
pub struct CandidateView {
    pub source: Source,
    pub provider: Seq<char>,
    pub backend_ref: Seq<char>,
    pub name: Seq<char>,
    pub version: Option<Seq<char>>,
    pub description: Option<Seq<char>>,
    pub package_base: Option<Seq<char>>,
    pub url_path: Option<Seq<char>>,
}

impl View for Candidate {
    type V = CandidateView;

    open spec fn view(&self) -> CandidateView {
        CandidateView {
            source: self.source,
            provider: self.provider@,
            backend_ref: self.backend_ref@,
            name: self.name@,
            version: opt_view(self.version),
            description: opt_view(self.description),
            package_base: opt_view(self.package_base),
            url_path: opt_view(self.url_path),
        }
    }
}

pub open spec fn candidates_view(s: Seq<Candidate>) -> Seq<CandidateView> {
    s.map_values(|c: Candidate| c@)
}

impl Candidate {
    /// `provider/name`, e.g. `extra/firefox`.
    pub fn installed_label(&self) -> (r: String)
        ensures
            r@ == self.provider@ + "/"@ + self.name@,
    {
        let mut out = owned(self.provider.as_str());
        push_str(&mut out, "/");
        push_str(&mut out, self.name.as_str());
        out
    }
}

/// Where an installed package is known to come from.
#[derive(Debug, Clone, PartialEq, Eq)]
pub enum Provenance {
    /// Nothing is known about its origin.
    Unknown,
    /// Installed from a configured sync repository.
    SyncKnown,
    /// Not present in any sync repository.
    Foreign,
    /// Foreign, and found under that exact name in `source` (e.g. the AUR).
    Inferred { source: String },
    /// Installed through this tool from `source`.
    PacnixInstalled { source: String },
}

impl Provenance {
    /// A copy of the provenance.
    pub fn duplicate(&self) -> (r: Provenance)
        ensures
            r == *self,
    {
        match self {
            Provenance::Unknown => Provenance::Unknown,
            Provenance::SyncKnown => Provenance::SyncKnown,
            Provenance::Foreign => Provenance::Foreign,
            Provenance::Inferred { source } => Provenance::Inferred { source: source.clone() },
            Provenance::PacnixInstalled { source } => Provenance::PacnixInstalled {
                source: source.clone(),
            },
        }
    }
}

/// The label under which a provenance is stored.
pub open spec fn provenance_label(p: Provenance) -> Seq<char> {
    match p {
        Provenance::Unknown => "unknown"@,
        Provenance::SyncKnown => "native"@,
        Provenance::Foreign => "foreign-unknown"@,
        Provenance::Inferred { .. } => "inferred"@,
        Provenance::PacnixInstalled { .. } => "pacnix"@,
    }
}

/// The label under which a provenance is stored: packages from a sync
/// repository are "native", other foreign packages "foreign-unknown".
pub fn provenance_str(provenance: &Provenance) -> (r: &'static str)
    ensures
        r@ == provenance_label(*provenance),
{
    match provenance {
        Provenance::Unknown => "unknown",
        Provenance::SyncKnown => "native",
        Provenance::Foreign => "foreign-unknown",
        Provenance::Inferred { .. } => "inferred",
        Provenance::PacnixInstalled { .. } => "pacnix",
    }
}

/// A record that this tool installed a package.
#[derive(Debug, Clone, PartialEq, Eq)]
pub struct InstallReceipt {
    pub package_name: String,
    pub installed_backend: String,
    pub installed_backend_ref: String,
    pub source: String,
    pub source_ref: String,
    pub version: Option<String>,
    pub installed_at: i64,
}

/// A package instance as a backend reports it.
#[derive(Debug, Clone, PartialEq, Eq)]
pub struct InstalledPackage {
    pub source: Source,
    pub backend_ref: String,
    pub name: String,
    pub version: Option<String>,
    pub scope: Option<String>,
    pub installed_at: Option<i64>,
    pub provenance: Provenance,
}

/// An installed package with its text fields as character sequences.
pub struct InstalledView {
    pub source: Source,
    pub backend_ref: Seq<char>,
    pub name: Seq<char>,
    pub version: Option<Seq<char>>,
    pub scope: Option<Seq<char>>,
    pub installed_at: Option<i64>,
    pub provenance: Provenance,
}

impl View for InstalledPackage {
    type V = InstalledView;

    open spec fn view(&self) -> InstalledView {
        InstalledView {
            source: self.source,
            backend_ref: self.backend_ref@,
            name: self.name@,
            version: opt_view(self.version),
            scope: opt_view(self.scope),
            installed_at: self.installed_at,
            provenance: self.provenance,
        }
    }
}

pub open spec fn installed_view(s: Seq<InstalledPackage>) -> Seq<InstalledView> {
    s.map_values(|p: InstalledPackage| p@)
}

/// A copy of an optional string.
pub fn copy_opt(o: &Option<String>) -> (r: Option<String>)
    ensures
        r == *o,
{
    match o {
        Some(s) => Some(s.clone()),
        None => None,
    }
}

impl InstalledPackage {
    /// A copy of the package record.
    pub fn duplicate(&self) -> (r: InstalledPackage)
        ensures
            r == *self,
    {
        InstalledPackage {
            source: self.source,
            backend_ref: self.backend_ref.clone(),
            name: self.name.clone(),
            version: copy_opt(&self.version),
            scope: copy_opt(&self.scope),
            installed_at: self.installed_at,
            provenance: self.provenance.duplicate(),
        }
    }
}

/// What the user asked for on the command line.
#[derive(Debug, Clone, PartialEq, Eq)]
pub struct TargetSpec {
    pub query: String,
}

/// The operations a backend plans for one package.
#[derive(Debug, Clone, PartialEq, Eq)]
pub struct TransactionPlan {
    pub backend_ref: String,
    pub name: String,
    pub operations: Vec<TransactionOperation>,
    pub requires_privilege: bool,
}

/// One step of a plan.
#[derive(Debug, Clone, PartialEq, Eq)]
pub enum TransactionOperation {
    FetchAurSource { package: String, package_base: String, url_path: Option<String> },
    InstallAurBuildDeps { package: String },
    BuildAurPackage { package: String },
    InstallAurPackage { package: String },
    InstallPackage { package: String },
    RemovePackage { package: String },
    UpgradePackage { package: String },
    ProfileInstall { profile: String, attr: String },
    ProfileRemove { profile: String, attr: String },
    ProfileUpgrade { profile: String, element: String },
    ProfileUpgradeMany { profile: String, elements: Vec<String> },
    SystemUpgrade { system: String },
}

/// The characters of `items` joined with ", ".
pub open spec fn join_comma(items: Seq<Seq<char>>) -> Seq<char>
    decreases items.len(),
{
    if items.len() == 0 {
        Seq::empty()
    } else if items.len() == 1 {
        items[0]
    } else {
        join_comma(items.drop_last()) + ", "@ + items.last()
    }
}

/// `items.join(", ")`.
pub fn join_names(items: &Vec<String>) -> (r: String)
    ensures
        r@ == join_comma(items@.map_values(|s: String| s@)),
{
    let ghost views = items@.map_values(|s: String| s@);
    let mut out = String::new();
    let mut i: usize = 0;
    while i < items.len()
        invariant
            i <= items@.len(),
            views == items@.map_values(|s: String| s@),
            out@ == join_comma(views.take(i as int)),
        decreases items.len() - i,
    {
        if i > 0 {
            push_str(&mut out, ", ");
        }
        let cs = crate::text::chars_of(items[i].as_str());
        push_chars(&mut out, &cs);
        proof {
            let t = views.take(i + 1);
            assert(t.drop_last() =~= views.take(i as int));
            assert(t.last() == items@[i as int]@);
            if i == 0 {
                assert(out@ =~= t[0]);
            }
        }
        i = i + 1;
    }
    assert(views.take(items@.len() as int) =~= views);
    out
}

} // verus!
