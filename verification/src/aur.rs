//! The AUR backend: RPC package records, dependency names, `.SRCINFO`
//! and `desc` parsing, and the plans that fetch, build and install AUR
//! packages.

use vstd::prelude::*;
use crate::model::{
    Candidate, CandidateView, InstalledPackage, InstalledView, Provenance, Source,
    TransactionOperation, TransactionPlan, candidates_view, installed_view,
};
use crate::numbers::{parse_i64, parse_i64_spec};
use vstd::string::StringSliceAdditionalSpecFns;
use crate::version::{pkgver_order, vercmp};
use crate::text::{
    chars_eq_str, chars_of, has_prefix, lines, lines_of, opt_view, owned, push_str, slice_of,
    starts_with, string_of, strings_view, trim, trim_chars, lemma_skip_space, lemma_back_space,
    unicode_white_space, skip_space, back_space,
};

verus! {

/// A package record of the AUR RPC interface.
#[derive(Debug, Clone)]
pub struct AurPackage {
    pub name: String,
    pub version: Option<String>,
    pub description: Option<String>,
    pub url_path: Option<String>,
    pub package_base: Option<String>,
    pub depends: Vec<String>,
    pub make_depends: Vec<String>,
    pub check_depends: Vec<String>,
}

/// An AUR RPC response.
#[derive(Debug)]
pub struct RpcResponse {
    pub version: u32,
    pub kind: String,
    pub resultcount: u32,
    pub results: Vec<AurPackage>,
}

pub(crate) fn copy_strings(v: &Vec<String>) -> (r: Vec<String>)
    ensures
        r@ == v@,
{
    let mut out: Vec<String> = Vec::new();
    let mut i: usize = 0;
    while i < v.len()
        invariant
            i <= v@.len(),
            out@ == v@.take(i as int),
        decreases v.len() - i,
    {
        out.push(v[i].clone());
        assert(v@.take(i + 1) =~= v@.take(i as int).push(v@[i as int]));
        i = i + 1;
    }
    assert(v@.take(v@.len() as int) =~= v@);
    out
}

/// A package record with its text as character sequences.
pub struct AurView {
    pub name: Seq<char>,
    pub version: Option<Seq<char>>,
    pub description: Option<Seq<char>>,
    pub url_path: Option<Seq<char>>,
    pub package_base: Option<Seq<char>>,
    pub depends: Seq<Seq<char>>,
    pub make_depends: Seq<Seq<char>>,
    pub check_depends: Seq<Seq<char>>,
}

impl View for AurPackage {
    type V = AurView;

    open spec fn view(&self) -> AurView {
        AurView {
            name: self.name@,
            version: opt_view(self.version),
            description: opt_view(self.description),
            url_path: opt_view(self.url_path),
            package_base: opt_view(self.package_base),
            depends: strings_view(self.depends@),
            make_depends: strings_view(self.make_depends@),
            check_depends: strings_view(self.check_depends@),
        }
    }
}

pub open spec fn aur_views(s: Seq<AurPackage>) -> Seq<AurView> {
    s.map_values(|p: AurPackage| p@)
}

impl AurPackage {
    /// A copy of the record.
    pub fn duplicate(&self) -> (r: AurPackage)
        ensures
            r@ == self@,
    {
        AurPackage {
            name: self.name.clone(),
            version: crate::model::copy_opt(&self.version),
            description: crate::model::copy_opt(&self.description),
            url_path: crate::model::copy_opt(&self.url_path),
            package_base: crate::model::copy_opt(&self.package_base),
            depends: copy_strings(&self.depends),
            make_depends: copy_strings(&self.make_depends),
            check_depends: copy_strings(&self.check_depends),
        }
    }
}

/// The URL of a package's snapshot tarball: the RPC's URL path under the
/// AUR host, or the standard snapshot of the package base.
pub open spec fn snapshot_url_spec(package_base: Seq<char>, url_path: Option<Seq<char>>) -> Seq<char> {
    match url_path {
        Some(path) => "https://aur.archlinux.org"@ + path,
        None => "https://aur.archlinux.org/cgit/aur.git/snapshot/"@ + package_base + ".tar.gz"@,
    }
}

pub fn snapshot_url(package_base: &str, url_path: Option<&str>) -> (r: String)
    ensures
        r@ == snapshot_url_spec(
            package_base@,
            match url_path {
                Some(p) => Some(p@),
                None => None,
            },
        ),
{
    match url_path {
        Some(path) => {
            let mut s = owned("https://aur.archlinux.org");
            push_str(&mut s, path);
            s
        },
        None => {
            let mut s = owned("https://aur.archlinux.org/cgit/aur.git/snapshot/");
            push_str(&mut s, package_base);
            push_str(&mut s, ".tar.gz");
            s
        },
    }
}

// ---------------------------------------------------------------------
// Dependency names
// ---------------------------------------------------------------------

pub open spec fn is_constraint_char(c: char) -> bool {
    c == '>' || c == '<' || c == '=' || c == '!'
}

/// Index of the first version-constraint character of `s` at or after
/// `i` (`s.len()` when there is none).
pub open spec fn constraint_from(s: Seq<char>, i: int) -> int
    decreases s.len() - i,
{
    if i < 0 || i >= s.len() {
        s.len() as int
    } else if is_constraint_char(s[i]) {
        i
    } else {
        constraint_from(s, i + 1)
    }
}

proof fn lemma_constraint_from(s: Seq<char>, i: int)
    requires
        0 <= i <= s.len(),
    ensures
        i <= constraint_from(s, i) <= s.len(),
    decreases s.len() - i,
{
    if i < s.len() && !is_constraint_char(s[i]) {
        lemma_constraint_from(s, i + 1);
    }
}

/// A dependency without its version constraint: the trimmed text before
/// the first `>`, `<`, `=` or `!`.
pub open spec fn dep_name_spec(dep: Seq<char>) -> Seq<char> {
    trim(dep.subrange(0, constraint_from(dep, 0)))
}

/// No character from `i` up to the first constraint at or after it is a
/// version operator.
proof fn lemma_before_constraint(s: Seq<char>, i: int)
    requires
        0 <= i <= s.len(),
    ensures
        forall|j: int|
            i <= j < constraint_from(s, i) ==> s[j] != '>' && s[j] != '<' && s[j] != '=' && s[j]
                != '!',
    decreases s.len() - i,
{
    lemma_constraint_from(s, i);
    if i < s.len() && !is_constraint_char(s[i]) {
        lemma_before_constraint(s, i + 1);
    }
}

/// The name a dependency is stripped to holds no version operator
/// (`>`, `<`, `=`, `!`).
pub proof fn lemma_dep_name_has_no_operator(dep: Seq<char>)
    ensures
        forall|k: int|
            0 <= k < dep_name_spec(dep).len() ==> #[trigger] dep_name_spec(dep)[k] != '>'
                && dep_name_spec(dep)[k] != '<' && dep_name_spec(dep)[k] != '='
                && dep_name_spec(dep)[k] != '!',
{
    lemma_constraint_from(dep, 0);
    lemma_before_constraint(dep, 0);
    let c = constraint_from(dep, 0);
    let h = dep.subrange(0, c);
    lemma_skip_space(h, 0);
    let a = skip_space(h, 0);
    lemma_back_space(h, a, h.len() as int);
    assert forall|k: int| 0 <= k < dep_name_spec(dep).len() implies #[trigger] dep_name_spec(dep)[k]
        != '>' && dep_name_spec(dep)[k] != '<' && dep_name_spec(dep)[k] != '='
        && dep_name_spec(dep)[k] != '!' by {
        assert(dep_name_spec(dep)[k] == h[a + k]);
        assert(h[a + k] == dep[a + k]);
    }
}

/// Where the first constraint of `name` followed by `rest` lies when
/// `name` holds no operator and `rest` starts with one.
proof fn lemma_constraint_after_name(name: Seq<char>, rest: Seq<char>, i: int)
    requires
        forall|k: int| 0 <= k < name.len() ==> !is_constraint_char(#[trigger] name[k]),
        rest.len() > 0,
        is_constraint_char(rest[0]),
        0 <= i <= name.len(),
    ensures
        constraint_from(name + rest, i) == name.len(),
    decreases name.len() - i,
{
    let s = name + rest;
    if i < name.len() {
        assert(s[i] == name[i]);
        lemma_constraint_after_name(name, rest, i + 1);
    } else {
        assert(s[i] == rest[0]);
    }
}

/// A plain package name followed by a version constraint (`=`, `>=`,
/// `<=`, `<`, `>` or `!=` and a version) is stripped back to the name.
pub proof fn lemma_dep_name_of_constrained(name: Seq<char>, op: Seq<char>, version: Seq<char>)
    requires
        forall|k: int|
            0 <= k < name.len() ==> #[trigger] name[k] != '>' && name[k] != '<' && name[k] != '='
                && name[k] != '!' && !unicode_white_space(name[k]),
        op == "="@ || op == ">="@ || op == "<="@ || op == "<"@ || op == ">"@ || op == "!="@,
    ensures
        dep_name_spec(name + op + version) == name,
{
    reveal_strlit("=");
    reveal_strlit(">=");
    reveal_strlit("<=");
    reveal_strlit("<");
    reveal_strlit(">");
    reveal_strlit("!=");
    let rest = op + version;
    assert(name + op + version =~= name + rest);
    assert(rest[0] == op[0]);
    lemma_constraint_after_name(name, rest, 0);
    assert((name + rest).subrange(0, name.len() as int) =~= name);
    if name.len() > 0 {
        assert(skip_space(name, 0) == 0);
        assert(back_space(name, 0, name.len() as int) == name.len());
    }
    assert(trim(name) =~= name);
}

fn constraint_index(s: &Vec<char>) -> (r: usize)
    ensures
        r == constraint_from(s@, 0),
        r <= s@.len(),
{
    proof {
        lemma_constraint_from(s@, 0);
    }
    let mut i: usize = 0;
    while i < s.len()
        invariant
            i <= s@.len(),
            constraint_from(s@, 0) == constraint_from(s@, i as int),
        decreases s.len() - i,
    {
        let c = s[i];
        if c == '>' || c == '<' || c == '=' || c == '!' {
            return i;
        }
        i = i + 1;
    }
    i
}

/// Strips a version constraint from a dependency string, e.g.
/// `gcc>=13` -> `gcc`, `libx11` -> `libx11`.
pub fn dep_name(dep: &str) -> (r: String)
    ensures
        r@ == dep_name_spec(dep@),
{
    let cs = chars_of(dep);
    let end = constraint_index(&cs);
    let head = slice_of(&cs, 0, end);
    let t = trim_chars(&head);
    string_of(&t)
}

/// Adds a name unless it is empty or already present.
pub open spec fn add_unique(acc: Seq<Seq<char>>, x: Seq<char>) -> Seq<Seq<char>> {
    if x.len() > 0 && !acc.contains(x) {
        acc.push(x)
    } else {
        acc
    }
}

/// The distinct non-empty dependency names of `raws`, in first-seen order.
pub open spec fn unique_dep_names(raws: Seq<Seq<char>>) -> Seq<Seq<char>>
    decreases raws.len(),
{
    if raws.len() == 0 {
        Seq::empty()
    } else {
        add_unique(unique_dep_names(raws.drop_last()), dep_name_spec(raws.last()))
    }
}

/// All build-relevant dependency strings of a package: `depends`, then
/// `makedepends`, then `checkdepends`.
pub open spec fn all_deps(pkg: AurView) -> Seq<Seq<char>> {
    pkg.depends + pkg.make_depends + pkg.check_depends
}

/// The distinct dependency names of a package.
pub open spec fn dep_names_spec(pkg: AurView) -> Seq<Seq<char>> {
    unique_dep_names(all_deps(pkg))
}

/// The names in `unique_dep_names` are distinct, non-empty, and exactly the
/// non-empty stripped names of the input.
pub proof fn lemma_unique_dep_names(raws: Seq<Seq<char>>)
    ensures
        forall|i: int, j: int|
            0 <= i < j < unique_dep_names(raws).len() ==> unique_dep_names(raws)[i]
                != unique_dep_names(raws)[j],
        forall|i: int| 0 <= i < unique_dep_names(raws).len() ==> (#[trigger] unique_dep_names(raws)[i]).len() > 0,
        forall|x: Seq<char>|
            unique_dep_names(raws).contains(x) <==> (x.len() > 0 && exists|k: int|
                0 <= k < raws.len() && dep_name_spec(#[trigger] raws[k]) == x),
    decreases raws.len(),
{
    if raws.len() > 0 {
        let p = raws.drop_last();
        lemma_unique_dep_names(p);
        let prev = unique_dep_names(p);
        let x = dep_name_spec(raws.last());
        let cur = unique_dep_names(raws);
        assert forall|y: Seq<char>|
            cur.contains(y) <==> (y.len() > 0 && exists|k: int|
                0 <= k < raws.len() && dep_name_spec(#[trigger] raws[k]) == y) by {
            if cur.contains(y) {
                let m = choose|m: int| 0 <= m < cur.len() && cur[m] == y;
                if m < prev.len() && cur[m] == prev[m] {
                    assert(prev.contains(y));
                    let k = choose|k: int| 0 <= k < p.len() && dep_name_spec(#[trigger] p[k]) == y;
                    assert(raws[k] == p[k]);
                } else {
                    assert(y == x);
                    assert(raws[raws.len() - 1] == raws.last());
                }
            }
            if y.len() > 0 && exists|k: int| 0 <= k < raws.len() && dep_name_spec(#[trigger] raws[k]) == y {
                let k = choose|k: int| 0 <= k < raws.len() && dep_name_spec(#[trigger] raws[k]) == y;
                if k < raws.len() - 1 {
                    assert(p[k] == raws[k]);
                    assert(prev.contains(y));
                    let m = choose|m: int| 0 <= m < prev.len() && prev[m] == y;
                    assert(cur[m] == y);
                } else {
                    if !prev.contains(y) {
                        assert(cur[cur.len() - 1] == y);
                    } else {
                        let m = choose|m: int| 0 <= m < prev.len() && prev[m] == y;
                        assert(cur[m] == y);
                    }
                }
            }
        }
    }
}

/// The distinct dependency names of `deps`, see [`unique_dep_names`].
fn add_dep_names(acc: &mut Vec<String>, deps: &Vec<String>)
    ensures
        strings_view(final(acc)@) == unique_dep_names_from(strings_view(old(acc)@), strings_view(deps@)),
{
    let ghost start = strings_view(acc@);
    let ghost dv = strings_view(deps@);
    let mut i: usize = 0;
    while i < deps.len()
        invariant
            i <= deps@.len(),
            dv == strings_view(deps@),
            strings_view(acc@) == unique_dep_names_from(start, dv.take(i as int)),
        decreases deps.len() - i,
    {
        let name = dep_name(deps[i].as_str());
        proof {
            assert(dv.take(i + 1).drop_last() =~= dv.take(i as int));
            assert(dv.take(i + 1).last() == deps@[i as int]@);
        }
        if !name.as_str().is_empty() && !contains_string(acc, &name) {
            let ghost before = strings_view(acc@);
            acc.push(name);
            assert(strings_view(acc@) =~= before.push(name@));
        }
        i = i + 1;
    }
    assert(dv.take(dv.len() as int) =~= dv);
}

/// [`unique_dep_names`] continued from names already collected.
pub open spec fn unique_dep_names_from(acc: Seq<Seq<char>>, raws: Seq<Seq<char>>) -> Seq<Seq<char>>
    decreases raws.len(),
{
    if raws.len() == 0 {
        acc
    } else {
        add_unique(unique_dep_names_from(acc, raws.drop_last()), dep_name_spec(raws.last()))
    }
}

proof fn lemma_unique_from_concat(acc: Seq<Seq<char>>, a: Seq<Seq<char>>, b: Seq<Seq<char>>)
    ensures
        unique_dep_names_from(unique_dep_names_from(acc, a), b) == unique_dep_names_from(acc, a + b),
    decreases b.len(),
{
    if b.len() == 0 {
        assert(a + b =~= a);
    } else {
        lemma_unique_from_concat(acc, a, b.drop_last());
        assert((a + b).drop_last() =~= a + b.drop_last());
        assert((a + b).last() == b.last());
    }
}

proof fn lemma_unique_from_empty(raws: Seq<Seq<char>>)
    ensures
        unique_dep_names_from(Seq::empty(), raws) == unique_dep_names(raws),
    decreases raws.len(),
{
    if raws.len() > 0 {
        lemma_unique_from_empty(raws.drop_last());
    }
}

/// Whether `v` holds a string equal to `s`.
pub fn contains_string(v: &Vec<String>, s: &String) -> (r: bool)
    ensures
        r == strings_view(v@).contains(s@),
{
    let mut i: usize = 0;
    while i < v.len()
        invariant
            i <= v@.len(),
            forall|k: int| 0 <= k < i ==> v@[k]@ != s@,
        decreases v.len() - i,
    {
        if crate::text::str_eq(v[i].as_str(), s.as_str()) {
            assert(strings_view(v@)[i as int] == s@);
            return true;
        }
        i = i + 1;
    }
    assert forall|k: int| 0 <= k < strings_view(v@).len() implies strings_view(v@)[k] != s@ by {
        assert(strings_view(v@)[k] == v@[k]@);
    }
    false
}

/// All build-relevant dependency names of a package: runtime `depends`,
/// `makedepends` and `checkdepends`, deduplicated and constraint-stripped.
pub fn dep_names_of(pkg: &AurPackage) -> (r: Vec<String>)
    ensures
        strings_view(r@) == dep_names_spec(pkg@),
{
    let mut deps: Vec<String> = Vec::new();
    assert(strings_view(deps@) =~= Seq::<Seq<char>>::empty());
    add_dep_names(&mut deps, &pkg.depends);
    add_dep_names(&mut deps, &pkg.make_depends);
    add_dep_names(&mut deps, &pkg.check_depends);
    proof {
        let a = strings_view(pkg.depends@);
        let b = strings_view(pkg.make_depends@);
        let c = strings_view(pkg.check_depends@);
        lemma_unique_from_concat(Seq::empty(), a, b);
        lemma_unique_from_concat(Seq::empty(), a + b, c);
        lemma_unique_from_empty(a + b + c);
    }
    deps
}

// ---------------------------------------------------------------------
// .SRCINFO
// ---------------------------------------------------------------------

/// The dependencies collected so far and the `pkgname` section the scan
/// is in (none before the first `pkgname` line).
pub struct SrcinfoState {
    pub deps: Seq<Seq<char>>,
    pub current: Option<Seq<char>>,
}

/// One dependency kind (`depends`, `makedepends`, `checkdepends`) tried
/// on a trimmed line: `kind[_arch] = name[constraint]` adds `name` when the
/// line is in the shared section or in `package`'s own section.
pub open spec fn srcinfo_kind(
    st: SrcinfoState,
    t: Seq<char>,
    kind: Seq<char>,
    arch: Seq<char>,
    package: Seq<char>,
) -> SrcinfoState {
    if !starts_with(t, kind) {
        st
    } else {
        let rest = t.subrange(kind.len() as int, t.len() as int);
        let suffix = seq!['_'] + arch;
        let rest2 = if starts_with(rest, suffix) {
            rest.subrange(suffix.len() as int, rest.len() as int)
        } else {
            rest
        };
        if !starts_with(rest2, " = "@) {
            st
        } else {
            let name = dep_name_spec(rest2.subrange(3, rest2.len() as int));
            let in_section = match st.current {
                None => true,
                Some(p) => p == package,
            };
            if in_section {
                SrcinfoState { deps: add_unique(st.deps, name), current: st.current }
            } else {
                st
            }
        }
    }
}

/// One line of `makepkg --printsrcinfo` output.
pub open spec fn srcinfo_line(st: SrcinfoState, line: Seq<char>, arch: Seq<char>, package: Seq<char>) -> SrcinfoState {
    let t = trim(line);
    if starts_with(t, "pkgname = "@) {
        SrcinfoState { deps: st.deps, current: Some(trim(t.subrange(10, t.len() as int))) }
    } else {
        let s1 = srcinfo_kind(st, t, "depends"@, arch, package);
        let s2 = srcinfo_kind(s1, t, "makedepends"@, arch, package);
        srcinfo_kind(s2, t, "checkdepends"@, arch, package)
    }
}

pub open spec fn srcinfo_scan(ls: Seq<Seq<char>>, arch: Seq<char>, package: Seq<char>) -> SrcinfoState
    decreases ls.len(),
{
    if ls.len() == 0 {
        SrcinfoState { deps: Seq::empty(), current: None }
    } else {
        srcinfo_line(srcinfo_scan(ls.drop_last(), arch, package), ls.last(), arch, package)
    }
}

/// The build dependencies of `package` in `.SRCINFO` text.
pub open spec fn srcinfo_deps_spec(srcinfo: Seq<char>, arch: Seq<char>, package: Seq<char>) -> Seq<Seq<char>> {
    srcinfo_scan(lines(srcinfo), arch, package).deps
}

fn srcinfo_kind_exec(
    deps: &mut Vec<String>,
    current: &Option<Vec<char>>,
    t: &Vec<char>,
    kind: &str,
    arch: &Vec<char>,
    package: &Vec<char>,
)
    ensures
        strings_view(final(deps)@) == srcinfo_kind(
            SrcinfoState {
                deps: strings_view(old(deps)@),
                current: match *current {
                    Some(c) => Some(c@),
                    None => None,
                },
            },
            t@,
            kind@,
            arch@,
            package@,
        ).deps,
{
    let k = chars_of(kind);
    if !has_prefix(t, &k) {
        return;
    }
    let rest = slice_of(t, k.len(), t.len());
    let mut suffix: Vec<char> = Vec::new();
    suffix.push('_');
    push_all(&mut suffix, arch);
    let rest2 = if has_prefix(&rest, &suffix) {
        slice_of(&rest, suffix.len(), rest.len())
    } else {
        rest
    };
    let sep = chars_of(" = ");
    proof {
        reveal_strlit(" = ");
    }
    if !has_prefix(&rest2, &sep) {
        return;
    }
    let value = slice_of(&rest2, 3, rest2.len());
    let name = dep_name(string_of(&value).as_str());
    let in_section = match current {
        None => true,
        Some(p) => crate::text::chars_eq(p, package),
    };
    if in_section && !name.as_str().is_empty() && !contains_string(deps, &name) {
        let ghost before = strings_view(deps@);
        deps.push(name);
        assert(strings_view(deps@) =~= before.push(name@));
    }
}

/// Appends `b` to `a`.
fn push_all(a: &mut Vec<char>, b: &Vec<char>)
    ensures
        final(a)@ == old(a)@ + b@,
{
    let ghost start = a@;
    let mut i: usize = 0;
    while i < b.len()
        invariant
            i <= b@.len(),
            a@ == start + b@.take(i as int),
        decreases b.len() - i,
    {
        a.push(b[i]);
        assert(b@.take(i + 1) =~= b@.take(i as int).push(b@[i as int]));
        i = i + 1;
    }
    assert(b@.take(b@.len() as int) =~= b@);
}

/// The build dependencies (`depends`, `makedepends`, `checkdepends`, also
/// their `_arch` variants) of `package` in `makepkg --printsrcinfo`
/// output: those of the shared section and of `package`'s own section,
/// deduplicated and constraint-stripped.
pub fn parse_srcinfo_deps(srcinfo: &str, arch: &str, package: &str) -> (r: Vec<String>)
    ensures
        strings_view(r@) == srcinfo_deps_spec(srcinfo@, arch@, package@),
{
    let cs = chars_of(srcinfo);
    let ls = lines_of(&cs);
    let ghost lv = lines(cs@);
    let a = chars_of(arch);
    let p = chars_of(package);
    let prefix = chars_of("pkgname = ");
    proof {
        reveal_strlit("pkgname = ");
    }
    let mut deps: Vec<String> = Vec::new();
    let mut current: Option<Vec<char>> = None;
    let mut i: usize = 0;
    assert(strings_view(deps@) =~= Seq::<Seq<char>>::empty());
    assert(lv.take(0) =~= Seq::<Seq<char>>::empty());
    while i < ls.len()
        invariant
            i <= ls@.len(),
            ls@.len() == lv.len(),
            forall|k: int| 0 <= k < ls@.len() ==> #[trigger] ls@[k]@ == lv[k],
            a@ == arch@,
            p@ == package@,
            prefix@ == "pkgname = "@,
            prefix@.len() == 10,
            srcinfo_scan(lv.take(i as int), arch@, package@) == (SrcinfoState {
                deps: strings_view(deps@),
                current: match current {
                    Some(c) => Some(c@),
                    None => None,
                },
            }),
        decreases ls.len() - i,
    {
        assert(ls@[i as int]@ == lv[i as int]);
        proof {
            assert(lv.take(i + 1).drop_last() =~= lv.take(i as int));
            assert(lv.take(i + 1).last() == lv[i as int]);
        }
        let t = trim_chars(&ls[i]);
        if has_prefix(&t, &prefix) {
            let rest = slice_of(&t, 10, t.len());
            current = Some(trim_chars(&rest));
        } else {
            srcinfo_kind_exec(&mut deps, &current, &t, "depends", &a, &p);
            srcinfo_kind_exec(&mut deps, &current, &t, "makedepends", &a, &p);
            srcinfo_kind_exec(&mut deps, &current, &t, "checkdepends", &a, &p);
        }
        i = i + 1;
    }
    assert(lv.take(lv.len() as int) =~= lv);
    deps
}

// ---------------------------------------------------------------------
// Outdated packages
// ---------------------------------------------------------------------

/// The version the RPC reports, or "" when it reports none.
pub open spec fn version_or_empty(v: Option<Seq<char>>) -> Seq<char> {
    match v {
        Some(x) => x,
        None => Seq::empty(),
    }
}

/// A package is outdated when an installed version is known and is older
/// than the version the AUR reports.
pub open spec fn is_outdated(pkg: AurView, current: Option<Seq<char>>) -> bool {
    match current {
        Some(cur) => pkgver_order(cur, version_or_empty(pkg.version)) < 0,
        None => false,
    }
}

/// The packages of `pkgs` that are outdated against the installed
/// versions `installed` (one per package, in order).
pub open spec fn outdated_filter(pkgs: Seq<AurView>, installed: Seq<Option<Seq<char>>>) -> Seq<AurView>
    decreases pkgs.len(),
{
    if pkgs.len() == 0 {
        Seq::empty()
    } else {
        let prev = outdated_filter(pkgs.drop_last(), installed.take(pkgs.len() - 1));
        if is_outdated(pkgs.last(), installed[pkgs.len() - 1]) {
            prev.push(pkgs.last())
        } else {
            prev
        }
    }
}

/// Whether `available` is a newer version than `current`.
fn is_newer(current: &str, available: &str) -> (r: bool)
    ensures
        r == (pkgver_order(current@, available@) < 0),
{
    vercmp(current, available) < 0
}

/// Keeps the packages that are newer in the AUR than the installed
/// version given for each of them (`None`: not installed).
pub fn keep_outdated(packages: Vec<AurPackage>, installed: &Vec<Option<String>>) -> (r: Vec<AurPackage>)
    requires
        installed@.len() == packages@.len(),
    ensures
        aur_views(r@) == outdated_filter(aur_views(packages@), installed@.map_values(|o: Option<String>| opt_view(o))),
{
    let ghost pv = aur_views(packages@);
    let ghost iv = installed@.map_values(|o: Option<String>| opt_view(o));
    let mut out: Vec<AurPackage> = Vec::new();
    let mut i: usize = 0;
    let n = packages.len();
    assert(pv.take(0) =~= Seq::<AurView>::empty());
    while i < n
        invariant
            n == packages@.len(),
            n == installed@.len(),
            i <= n,
            pv == aur_views(packages@),
            iv == installed@.map_values(|o: Option<String>| opt_view(o)),
            aur_views(out@) == outdated_filter(pv.take(i as int), iv.take(i as int)),
        decreases n - i,
    {
        let pkg = &packages[i];
        let keep = match &installed[i] {
            Some(current) => {
                let available = match &pkg.version {
                    Some(v) => v.as_str(),
                    None => "",
                };
                is_newer(current.as_str(), available)
            },
            None => false,
        };
        proof {
            let t = pv.take(i + 1);
            assert(t.drop_last() =~= pv.take(i as int));
            assert(iv.take(i + 1).take(i as int) =~= iv.take(i as int));
            assert(t.last() == pkg@);
            assert(iv.take(i + 1)[i as int] == opt_view(installed@[i as int]));
            if pkg.version is None {
                assert(""@ =~= Seq::<char>::empty()) by {
                    reveal_strlit("");
                }
            }
        }
        if keep {
            let ghost before = aur_views(out@);
            out.push(pkg.duplicate());
            assert(aur_views(out@) =~= before.push(pkg@));
        }
        i = i + 1;
    }
    assert(pv.take(n as int) =~= pv);
    assert(iv.take(n as int) =~= iv);
    out
}

/// `installed` answered `answer` for the package named `name`.
pub open spec fn version_answered<F: Fn(&str) -> Option<String>>(
    installed: &F,
    name: Seq<char>,
    answer: Option<Seq<char>>,
) -> bool {
    exists|s: &str, o: Option<String>| s@ == name && installed.ensures((s,), o) && opt_view(o) == answer
}

/// `answers` are what `installed` answered for each of `pkgs`, in order.
pub open spec fn versions_answered<F: Fn(&str) -> Option<String>>(
    installed: &F,
    pkgs: Seq<AurView>,
    answers: Seq<Option<Seq<char>>>,
) -> bool {
    answers.len() == pkgs.len() && forall|i: int|
        0 <= i < pkgs.len() ==> version_answered(installed, pkgs[i].name, #[trigger] answers[i])
}

/// Keeps packages whose version is newer than what `installed` reports,
/// skipping names that `installed` does not know (e.g. packages removed
/// by hand).
pub fn filter_outdated<F>(packages: Vec<AurPackage>, installed: &F) -> (r: Vec<AurPackage>) where
    F: Fn(&str) -> Option<String>,

    requires
        forall|s: &str| installed.requires((s,)),
    ensures
        exists|answers: Seq<Option<Seq<char>>>|
            versions_answered(installed, aur_views(packages@), answers) && aur_views(r@)
                == outdated_filter(aur_views(packages@), answers),
{
    let ghost pv = aur_views(packages@);
    let mut answers: Vec<Option<String>> = Vec::new();
    let mut i: usize = 0;
    while i < packages.len()
        invariant
            i <= packages@.len(),
            answers@.len() == i,
            pv == aur_views(packages@),
            forall|s: &str| installed.requires((s,)),
            forall|j: int|
                0 <= j < i ==> version_answered(installed, pv[j].name, #[trigger] opt_view(answers@[j])),
        decreases packages.len() - i,
    {
        let name = packages[i].name.as_str();
        let a = installed(name);
        proof {
            assert(installed.ensures((name,), a));
            assert(version_answered(installed, pv[i as int].name, opt_view(a)));
        }
        answers.push(a);
        i = i + 1;
    }
    let ghost av = answers@.map_values(|o: Option<String>| opt_view(o));
    assert forall|j: int| 0 <= j < pv.len() implies version_answered(
        installed,
        pv[j].name,
        #[trigger] av[j],
    ) by {
        assert(av[j] == opt_view(answers@[j]));
    }
    keep_outdated(packages, &answers)
}

// ---------------------------------------------------------------------
// URL encoding and desc files
// ---------------------------------------------------------------------

pub open spec fn is_unreserved(b: u8) -> bool {
    (65 <= b && b <= 90) || (97 <= b && b <= 122) || (48 <= b && b <= 57) || b == 45 || b == 95
        || b == 46 || b == 126
}

/// An upper-case hexadecimal digit.
pub open spec fn hex_upper(n: u8) -> char {
    if n < 10 {
        (48 + n) as char
    } else {
        (55 + n) as char
    }
}

/// A byte percent-encoded unless it is unreserved (RFC 3986).
pub open spec fn encode_byte(b: u8) -> Seq<char> {
    if is_unreserved(b) {
        seq![b as char]
    } else {
        seq!['%', hex_upper(b / 16), hex_upper(b % 16)]
    }
}

pub open spec fn urlencode_bytes(bs: Seq<u8>) -> Seq<char>
    decreases bs.len(),
{
    if bs.len() == 0 {
        Seq::empty()
    } else {
        urlencode_bytes(bs.drop_last()) + encode_byte(bs.last())
    }
}

fn hex_digit(n: u8) -> (r: char)
    requires
        n < 16,
    ensures
        r == hex_upper(n),
{
    if n < 10 {
        (48 + n) as char
    } else {
        (55 + n) as char
    }
}

/// Percent-encodes the UTF-8 bytes of `s` for a URL path segment.
pub fn urlencode(s: &str) -> (r: String)
    ensures
        r@ == urlencode_bytes(s.spec_bytes()),
{
    let bytes = s.as_bytes();
    let mut out = String::new();
    let mut i: usize = 0;
    while i < bytes.len()
        invariant
            i <= bytes@.len(),
            bytes@ == s.spec_bytes(),
            out@ == urlencode_bytes(bytes@.take(i as int)),
        decreases bytes.len() - i,
    {
        let b = bytes[i];
        if (65 <= b && b <= 90) || (97 <= b && b <= 122) || (48 <= b && b <= 57) || b == 45 || b == 95
            || b == 46 || b == 126 {
            out.push(b as char);
        } else {
            out.push('%');
            out.push(hex_digit(b / 16));
            out.push(hex_digit(b % 16));
        }
        proof {
            let t = bytes@.take(i + 1);
            assert(t.drop_last() =~= bytes@.take(i as int));
            assert(t.last() == b);
        }
        i = i + 1;
    }
    assert(bytes@.take(bytes@.len() as int) =~= bytes@);
    out
}

/// Name, version and install date read from a pacman `desc` file.
pub struct DescFields {
    pub name: Option<Seq<char>>,
    pub version: Option<Seq<char>>,
    pub installed_at: Option<i64>,
}

/// A `%FIELD%` header line.
pub open spec fn is_field_line(l: Seq<char>) -> bool {
    l.len() > 0 && l[0] == '%' && l.last() == '%'
}

/// The scan of a `desc` file from line `i`: a header takes the next line
/// (or "") as its value; later headers of the same field win.
pub open spec fn desc_scan(ls: Seq<Seq<char>>, i: int, st: DescFields) -> DescFields
    decreases ls.len() + 2 - i,
{
    if i < 0 || i >= ls.len() {
        st
    } else if is_field_line(ls[i]) {
        let value = if i + 1 < ls.len() {
            ls[i + 1]
        } else {
            Seq::empty()
        };
        let next = if ls[i] == "%NAME%"@ {
            DescFields { name: Some(value), version: st.version, installed_at: st.installed_at }
        } else if ls[i] == "%VERSION%"@ {
            DescFields { name: st.name, version: Some(value), installed_at: st.installed_at }
        } else if ls[i] == "%INSTALLDATE%"@ {
            DescFields { name: st.name, version: st.version, installed_at: parse_i64_spec(value) }
        } else {
            st
        };
        desc_scan(ls, i + 2, next)
    } else {
        desc_scan(ls, i + 1, st)
    }
}

pub open spec fn desc_fields_spec(desc: Seq<char>) -> DescFields {
    desc_scan(lines(desc), 0, DescFields { name: None, version: None, installed_at: None })
}

/// Reads the `%NAME%`, `%VERSION%` and `%INSTALLDATE%` fields of a pacman
/// `desc` file.
pub fn parse_desc_fields(desc: &str) -> (r: (Option<String>, Option<String>, Option<i64>))
    ensures
        opt_view(r.0) == desc_fields_spec(desc@).name,
        opt_view(r.1) == desc_fields_spec(desc@).version,
        r.2 == desc_fields_spec(desc@).installed_at,
{
    let cs = chars_of(desc);
    let ls = lines_of(&cs);
    let ghost lv = lines(cs@);
    let mut name: Option<String> = None;
    let mut version: Option<String> = None;
    let mut installed_at: Option<i64> = None;
    let mut i: usize = 0;
    let n = ls.len();
    while i < n
        invariant
            n == ls@.len(),
            i <= n,
            n == lv.len(),
            forall|k: int| 0 <= k < ls@.len() ==> #[trigger] ls@[k]@ == lv[k],
            desc_fields_spec(desc@) == desc_scan(
                lv,
                i as int,
                DescFields { name: opt_view(name), version: opt_view(version), installed_at },
            ),
            lv == lines(desc@),
        decreases n + 2 - i,
    {
        let field = &ls[i];
        assert(field@ == lv[i as int]);
        let fl = field.len();
        if fl > 0 && field[0] == '%' && field[fl - 1] == '%' {
            let value: Vec<char> = if i + 1 < n {
                assert(ls@[i + 1]@ == lv[i + 1]);
                slice_of(&ls[i + 1], 0, ls[i + 1].len())
            } else {
                Vec::new()
            };
            proof {
                if i + 1 < n {
                    assert(ls@[i + 1]@.subrange(0, ls@[i + 1]@.len() as int) =~= ls@[i + 1]@);
                }
            }
            if chars_eq_str(field, "%NAME%") {
                name = Some(string_of(&value));
            } else if chars_eq_str(field, "%VERSION%") {
                version = Some(string_of(&value));
            } else if chars_eq_str(field, "%INSTALLDATE%") {
                installed_at = parse_i64(&value);
            }
            i = i + 1;
            if i < n {
                i = i + 1;
            } else {
                assert(desc_scan(lv, i + 1, DescFields { name: opt_view(name), version: opt_view(version), installed_at })
                    == desc_scan(lv, i as int, DescFields { name: opt_view(name), version: opt_view(version), installed_at }));
            }
        } else {
            i = i + 1;
        }
    }
    (name, version, installed_at)
}

// ---------------------------------------------------------------------
// Candidates and plans
// ---------------------------------------------------------------------

/// The candidate for an AUR record: provider "aur", reference `aur/<name>`.
pub open spec fn candidate_of(p: AurView) -> CandidateView {
    CandidateView {
        source: Source::Aur,
        provider: "aur"@,
        backend_ref: "aur/"@ + p.name,
        name: p.name,
        version: p.version,
        description: p.description,
        package_base: p.package_base,
        url_path: p.url_path,
    }
}

/// The candidates for AUR records, in order.
pub fn to_candidates(packages: Vec<AurPackage>) -> (r: Vec<Candidate>)
    ensures
        candidates_view(r@) == aur_views(packages@).map_values(|p: AurView| candidate_of(p)),
{
    let ghost pv = aur_views(packages@);
    let mut out: Vec<Candidate> = Vec::new();
    let mut i: usize = 0;
    while i < packages.len()
        invariant
            i <= packages@.len(),
            pv == aur_views(packages@),
            candidates_view(out@) == pv.take(i as int).map_values(|p: AurView| candidate_of(p)),
        decreases packages.len() - i,
    {
        let p = &packages[i];
        let mut backend_ref = owned("aur/");
        push_str(&mut backend_ref, p.name.as_str());
        let c = Candidate {
            source: Source::Aur,
            provider: owned("aur"),
            backend_ref,
            name: p.name.clone(),
            version: crate::model::copy_opt(&p.version),
            description: crate::model::copy_opt(&p.description),
            package_base: crate::model::copy_opt(&p.package_base),
            url_path: crate::model::copy_opt(&p.url_path),
        };
        let ghost before = candidates_view(out@);
        out.push(c);
        assert(candidates_view(out@) =~= before.push(c@));
        assert(pv.take(i + 1) =~= pv.take(i as int).push(pv[i as int]));
        i = i + 1;
    }
    assert(pv.take(pv.len() as int) =~= pv);
    out
}

/// The AUR backend.
pub struct AurBackend;

/// The four steps that install an AUR package: fetch the snapshot of its
/// package base, install its build dependencies, build it, install the
/// built artifact of this very package.
pub open spec fn aur_install_ops(target: Candidate) -> Seq<TransactionOperation> {
    seq![
        TransactionOperation::FetchAurSource {
            package: target.name,
            package_base: match target.package_base {
                Some(b) => b,
                None => target.name,
            },
            url_path: target.url_path,
        },
        TransactionOperation::InstallAurBuildDeps { package: target.name },
        TransactionOperation::BuildAurPackage { package: target.name },
        TransactionOperation::InstallAurPackage { package: target.name },
    ]
}

impl AurBackend {
    pub fn name(&self) -> (r: &'static str)
        ensures
            r@ == "aur"@,
    {
        "aur"
    }

    pub fn source(&self) -> (r: Source)
        ensures
            r == Source::Aur,
    {
        Source::Aur
    }

    /// Fetch, build-dependencies, build, install: a split package is
    /// fetched by its base and installed by its own name.
    pub fn plan_install(&self, target: &Candidate) -> (r: Result<TransactionPlan, String>)
        ensures
            r matches Ok(p) && p.backend_ref == target.backend_ref && p.name == target.name
                && p.operations@ == aur_install_ops(*target) && p.requires_privilege,
    {
        let package_base = match &target.package_base {
            Some(b) => b.clone(),
            None => target.name.clone(),
        };
        let mut operations: Vec<TransactionOperation> = Vec::new();
        operations.push(
            TransactionOperation::FetchAurSource {
                package: target.name.clone(),
                package_base,
                url_path: crate::model::copy_opt(&target.url_path),
            },
        );
        operations.push(TransactionOperation::InstallAurBuildDeps { package: target.name.clone() });
        operations.push(TransactionOperation::BuildAurPackage { package: target.name.clone() });
        operations.push(TransactionOperation::InstallAurPackage { package: target.name.clone() });
        assert(operations@ =~= aur_install_ops(*target));
        Ok(
            TransactionPlan {
                backend_ref: target.backend_ref.clone(),
                name: target.name.clone(),
                operations,
                requires_privilege: true,
            },
        )
    }

    pub fn plan_remove(&self, target: &InstalledPackage) -> (r: Result<TransactionPlan, String>)
        ensures
            r matches Ok(p) && p.backend_ref == target.backend_ref && p.name == target.name
                && p.operations@ == seq![TransactionOperation::RemovePackage { package: target.name }]
                && p.requires_privilege,
    {
        let mut operations: Vec<TransactionOperation> = Vec::new();
        operations.push(TransactionOperation::RemovePackage { package: target.name.clone() });
        assert(operations@ =~= seq![TransactionOperation::RemovePackage { package: target.name }]);
        Ok(
            TransactionPlan {
                backend_ref: target.backend_ref.clone(),
                name: target.name.clone(),
                operations,
                requires_privilege: true,
            },
        )
    }

    pub fn plan_upgrade(&self, target: &InstalledPackage) -> (r: Result<TransactionPlan, String>)
        ensures
            r matches Ok(p) && p.backend_ref == target.backend_ref && p.name == target.name
                && p.operations@ == seq![TransactionOperation::UpgradePackage { package: target.name }]
                && p.requires_privilege,
    {
        let mut operations: Vec<TransactionOperation> = Vec::new();
        operations.push(TransactionOperation::UpgradePackage { package: target.name.clone() });
        assert(operations@ =~= seq![TransactionOperation::UpgradePackage { package: target.name }]);
        Ok(
            TransactionPlan {
                backend_ref: target.backend_ref.clone(),
                name: target.name.clone(),
                operations,
                requires_privilege: true,
            },
        )
    }

    /// Upgrading every AUR package at once is not offered.
    pub fn plan_upgrade_all(&self) -> (r: Result<TransactionPlan, String>)
        ensures
            r matches Err(e) && e@ == "aur: upgrade all not implemented yet"@,
    {
        Err(owned("aur: upgrade all not implemented yet"))
    }
}

// ---------------------------------------------------------------------
// Building
// ---------------------------------------------------------------------

/// The pacman arguments that install the build dependencies `deps` as
/// dependencies, skipping those already installed.
pub fn build_deps_args(deps: &Vec<String>) -> (r: Vec<String>)
    ensures
        strings_view(r@) == seq!["-S"@, "--needed"@, "--asdeps"@, "--noconfirm"@] + strings_view(
            deps@,
        ),
{
    let mut args: Vec<String> = Vec::new();
    args.push(owned("-S"));
    args.push(owned("--needed"));
    args.push(owned("--asdeps"));
    args.push(owned("--noconfirm"));
    let ghost start = strings_view(args@);
    assert(start =~= seq!["-S"@, "--needed"@, "--asdeps"@, "--noconfirm"@]);
    let mut i: usize = 0;
    while i < deps.len()
        invariant
            i <= deps@.len(),
            strings_view(args@) == start + strings_view(deps@).take(i as int),
        decreases deps.len() - i,
    {
        let ghost before = strings_view(args@);
        args.push(deps[i].clone());
        assert(strings_view(args@) =~= before.push(deps@[i as int]@));
        assert(strings_view(deps@).take(i + 1) =~= strings_view(deps@).take(i as int).push(
            deps@[i as int]@,
        ));
        i = i + 1;
    }
    assert(strings_view(deps@).take(deps@.len() as int) =~= strings_view(deps@));
    args
}

/// A file name of a built package: `.pkg.tar.zst`, `.pkg.tar.xz` or
/// `.pkg.tar`.
pub open spec fn is_package_file(name: Seq<char>) -> bool {
    crate::text::ends_with(name, ".pkg.tar.zst"@) || crate::text::ends_with(name, ".pkg.tar.xz"@)
        || crate::text::ends_with(name, ".pkg.tar"@)
}

pub fn is_package_artifact(file_name: &str) -> (r: bool)
    ensures
        r == is_package_file(file_name@),
{
    let n = chars_of(file_name);
    crate::text::has_suffix(&n, &chars_of(".pkg.tar.zst")) || crate::text::has_suffix(
        &n,
        &chars_of(".pkg.tar.xz"),
    ) || crate::text::has_suffix(&n, &chars_of(".pkg.tar"))
}

/// The `pkgname` of a package's `.PKGINFO`: the first line that reads
/// `pkgname = <name>` (around white space), its name trimmed.
pub open spec fn pkginfo_from(ls: Seq<Seq<char>>, i: int) -> Option<Seq<char>>
    decreases ls.len() - i,
{
    if i < 0 || i >= ls.len() {
        None
    } else if starts_with(trim(ls[i]), "pkgname = "@) {
        Some(trim(trim(ls[i]).skip(10)))
    } else {
        pkginfo_from(ls, i + 1)
    }
}

/// Reads the package name out of `.PKGINFO` text.
pub fn pkginfo_name(text: &str) -> (r: Option<String>)
    ensures
        opt_view(r) == pkginfo_from(lines(text@), 0),
{
    let cs = chars_of(text);
    let ls = lines_of(&cs);
    let ghost lv = lines(cs@);
    let prefix = chars_of("pkgname = ");
    proof {
        reveal_strlit("pkgname = ");
    }
    let mut i: usize = 0;
    while i < ls.len()
        invariant
            i <= ls@.len(),
            ls@.len() == lv.len(),
            lv == lines(text@),
            forall|k: int| 0 <= k < ls@.len() ==> #[trigger] ls@[k]@ == lv[k],
            prefix@ == "pkgname = "@,
            prefix@.len() == 10,
            pkginfo_from(lv, 0) == pkginfo_from(lv, i as int),
        decreases ls.len() - i,
    {
        assert(ls@[i as int]@ == lv[i as int]);
        let t = trim_chars(&ls[i]);
        if has_prefix(&t, &prefix) {
            let rest = slice_of(&t, 10, t.len());
            assert(rest@ =~= t@.skip(10));
            return Some(string_of(&trim_chars(&rest)));
        }
        i = i + 1;
    }
    None
}

/// Whether `bytes` start like a gzip stream.
pub fn is_gzip(bytes: &[u8]) -> (r: bool)
    ensures
        r == (bytes@.len() >= 2 && bytes@[0] == 0x1f && bytes@[1] == 0x8b),
{
    bytes.len() >= 2 && bytes[0] == 0x1f && bytes[1] == 0x8b
}

// ---------------------------------------------------------------------
// RPC responses
// ---------------------------------------------------------------------

/// The records of an RPC response; a response of type "error" is an
/// error.
pub fn results_of(response: RpcResponse) -> (r: Result<Vec<AurPackage>, String>)
    ensures
        response.kind@ == "error"@ <==> r is Err,
        r matches Err(e) ==> e@ == "AUR RPC error response"@,
        r matches Ok(v) ==> v@ == response.results@,
{
    if crate::text::str_eq(response.kind.as_str(), "error") {
        return Err(owned("AUR RPC error response"));
    }
    Ok(response.results)
}

// ---------------------------------------------------------------------
// Installed AUR packages
// ---------------------------------------------------------------------

/// The entry of a `desc` file for `package`: its name, version and install
/// time, when the file names that package and records when it was
/// installed.
pub open spec fn installed_entry_spec(desc: Seq<char>, package: Seq<char>) -> Option<(Seq<char>, Option<Seq<char>>, i64)> {
    let f = desc_fields_spec(desc);
    if f.name == Some(package) && f.installed_at is Some {
        Some((package, f.version, f.installed_at->0))
    } else {
        None
    }
}

/// Reads the entry for `package` out of one `desc` file of the local
/// pacman database.
pub fn installed_entry(desc: &str, package: &str) -> (r: Option<(String, Option<String>, i64)>)
    ensures
        match (r, installed_entry_spec(desc@, package@)) {
            (Some((n, v, t)), Some((sn, sv, st))) => n@ == sn && opt_view(v) == sv && t == st,
            (None, None) => true,
            _ => false,
        },
{
    let (name, version, installed_at) = parse_desc_fields(desc);
    match (name, installed_at) {
        (Some(n), Some(t)) => {
            if crate::text::str_eq(n.as_str(), package) {
                Some((n, version, t))
            } else {
                None
            }
        },
        _ => None,
    }
}

/// The instance that an AUR plan leaves installed: the pacman package of
/// that name, foreign to the sync repositories, when the local database
/// has an entry for it.
pub open spec fn aur_receipt_spec(plan: TransactionPlan, entry: Option<(Seq<char>, Option<Seq<char>>, i64)>) -> Seq<InstalledView> {
    match entry {
        Some((name, version, t)) => seq![
            InstalledView {
                source: Source::Alpm,
                backend_ref: "local/"@ + plan.name@,
                name,
                version,
                scope: None,
                installed_at: Some(t),
                provenance: Provenance::Foreign,
            },
        ],
        None => Seq::empty(),
    }
}

/// The receipts of an AUR plan, given the local database entry for the
/// planned package.
pub fn aur_receipt_instances(plan: &TransactionPlan, entry: Option<(String, Option<String>, i64)>) -> (r: Vec<InstalledPackage>)
    ensures
        installed_view(r@) == aur_receipt_spec(
            *plan,
            match entry {
                Some((n, v, t)) => Some((n@, opt_view(v), t)),
                None => None,
            },
        ),
{
    let mut out: Vec<InstalledPackage> = Vec::new();
    match entry {
        Some((name, version, t)) => {
            let mut backend_ref = owned("local/");
            push_str(&mut backend_ref, plan.name.as_str());
            let pkg = InstalledPackage {
                source: Source::Alpm,
                backend_ref,
                name,
                version,
                scope: None,
                installed_at: Some(t),
                provenance: Provenance::Foreign,
            };
            out.push(pkg);
            assert(installed_view(out@) =~= seq![pkg@]);
        },
        None => {
            assert(installed_view(out@) =~= Seq::<InstalledView>::empty());
        },
    }
    out
}


/// How many times a snapshot download is tried before falling back to a
/// git clone.
pub const DOWNLOAD_ATTEMPTS: u64 = 3;

/// What fetching an AUR snapshot does after a download attempt.
#[derive(Debug, Clone, Copy, PartialEq, Eq)]
pub enum FetchStep {
    /// The tarball is there: extract it.
    Extract,
    /// Wait `wait_ms` milliseconds, then try the download again.
    Retry { wait_ms: u64 },
    /// Every attempt failed: clone the package's git repository instead.
    Clone,
}

/// The step after download attempt `attempt` (counted from 1) succeeded
/// (`ok`) or failed: extract on success; after a failure, wait 500 ms
/// times the attempt number and retry, until the last attempt, after which
/// the git clone takes over.
pub fn after_download(attempt: u64, ok: bool) -> (r: FetchStep)
    requires
        1 <= attempt <= DOWNLOAD_ATTEMPTS,
    ensures
        ok ==> r == FetchStep::Extract,
        !ok && attempt < DOWNLOAD_ATTEMPTS ==> (r matches FetchStep::Retry { wait_ms } && wait_ms == 500
            * attempt),
        !ok && attempt == DOWNLOAD_ATTEMPTS ==> r == FetchStep::Clone,
{
    if ok {
        FetchStep::Extract
    } else if attempt < DOWNLOAD_ATTEMPTS {
        FetchStep::Retry { wait_ms: 500 * attempt }
    } else {
        FetchStep::Clone
    }
}

/// The error of a fetch whose downloads failed with `download` and whose
/// git clone fallback failed with `clone`.
pub fn fallback_error(download: &str, clone: &str) -> (r: String)
    ensures
        r@ == download@ + "; git clone fallback: "@ + clone@,
{
    let mut out = owned(download);
    push_str(&mut out, "; git clone fallback: ");
    push_str(&mut out, clone);
    out
}

} // verus!
