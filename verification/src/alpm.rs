//! The pacman backend: parsing of pacman's output, and the plans for
//! installing, removing and upgrading repository packages.

use vstd::prelude::*;
use crate::model::{
    Candidate, CandidateView, InstalledPackage, InstalledView, Provenance, Source,
    TransactionOperation, TransactionPlan, candidates_view, installed_view, join_comma, join_names,
};
use crate::numbers::{decimal_parts, parse_i64, parse_i64_spec, parse_scaled_decimal, scaled_amount};
use crate::parsers::{pairs_spec, parse_pairs, pair_view};
use crate::text::{
    chars_eq_str, chars_of, contains_char, filter_map, find_char, find_chars, first_index,
    first_line, first_line_from, lemma_filter_map_step, lemma_index_from, lemma_seq_index_from,
    lines, lines_of, opt_view, owned, push_str, seq_index_from, slice_of,
    string_of, string_of_range, strings_view, trim, trim_chars, trim_end, trim_end_chars,
    trim_start, trim_start_chars, join_spaces, join_with_spaces,
};

verus! {

// ---------------------------------------------------------------------
// Parsers
// ---------------------------------------------------------------------

/// The value after the line `field` in a pacman `desc` file: the trimmed
/// line that follows the first occurrence of `field` and a newline, when
/// not empty.
pub open spec fn desc_field_spec(content: Seq<char>, field: Seq<char>) -> Option<Seq<char>> {
    let marker = field.push('\n');
    let pos = seq_index_from(content, marker, 0);
    if pos == -1 {
        None
    } else {
        let rest = content.subrange(pos + marker.len(), content.len() as int);
        let v = trim(first_line(rest));
        if rest.len() == 0 || v.len() == 0 {
            None
        } else {
            Some(v)
        }
    }
}

/// The value after the line `field` in a pacman `desc` file.
pub fn desc_field(content: &str, field: &str) -> (r: Option<String>)
    ensures
        opt_view(r) == desc_field_spec(content@, field@),
{
    let cs = chars_of(content);
    let mut marker = chars_of(field);
    marker.push('\n');
    let ghost mv = marker@;
    proof {
        lemma_seq_index_from(cs@, mv, 0);
    }
    let pos = match find_chars(&cs, &marker) {
        Some(p) => p,
        None => return None,
    };
    let n = cs.len();
    assert(pos + marker@.len() <= n);
    let start = pos + marker.len();
    if start >= n {
        return None;
    }
    let line = first_line_from(&cs, start);
    let value = trim_chars(&line);
    if value.len() == 0 {
        None
    } else {
        Some(string_of(&value))
    }
}

/// A `repo/name` line of `pacman -Su --print-format %r/%n`; URL-style
/// lines (a name with another slash or a space) are not.
pub open spec fn upgrade_line(line: Seq<char>) -> Option<(Seq<char>, Seq<char>)> {
    let t = trim(line);
    let i = first_index(t, '/');
    if t.len() == 0 || i == -1 {
        None
    } else {
        let name = t.subrange(i + 1, t.len() as int);
        if name.contains('/') || name.contains(' ') {
            None
        } else {
            Some((t.subrange(0, i), name))
        }
    }
}

pub open spec fn upgrade_line_fn() -> spec_fn(Seq<char>) -> Option<(Seq<char>, Seq<char>)> {
    |l: Seq<char>| upgrade_line(l)
}

pub open spec fn upgrade_candidates_spec(output: Seq<char>) -> Seq<(Seq<char>, Seq<char>)> {
    filter_map(lines(output), upgrade_line_fn())
}

/// The `(repo, name)` pairs of `pacman -Su --print-format %r/%n` output.
pub fn parse_upgrade_candidates(output: &str) -> (r: Vec<(String, String)>)
    ensures
        r@.map_values(|p: (String, String)| (p.0@, p.1@)) == upgrade_candidates_spec(output@),
{
    let cs = chars_of(output);
    let ls = lines_of(&cs);
    let ghost lv = lines(cs@);
    let mut out: Vec<(String, String)> = Vec::new();
    let mut i: usize = 0;
    assert(out@.map_values(|p: (String, String)| (p.0@, p.1@)) =~= filter_map(lv.take(0), upgrade_line_fn()));
    while i < ls.len()
        invariant
            i <= ls@.len(),
            ls@.len() == lv.len(),
            forall|k: int| 0 <= k < ls@.len() ==> #[trigger] ls@[k]@ == lv[k],
            out@.map_values(|p: (String, String)| (p.0@, p.1@)) == filter_map(lv.take(i as int), upgrade_line_fn()),
        decreases ls.len() - i,
    {
        proof {
            lemma_filter_map_step(lv, upgrade_line_fn(), i as int);
            assert(ls@[i as int]@ == lv[i as int]);
            assert(upgrade_line_fn()(lv[i as int]) == upgrade_line(lv[i as int]));
        }
        let t = trim_chars(&ls[i]);
        let n = t.len();
        if n > 0 {
            proof {
                lemma_index_from(t@, '/', 0);
            }
            match find_char(&t, '/') {
                Some(slash) => {
                    assert(slash < n);
                    let name = slice_of(&t, slash + 1, n);
                    if !contains_char(&name, '/') && !contains_char(&name, ' ') {
                        let pair = (string_of_range(&t, 0, slash), string_of(&name));
                        let ghost before = out@.map_values(|p: (String, String)| (p.0@, p.1@));
                        out.push(pair);
                        assert(out@.map_values(|p: (String, String)| (p.0@, p.1@)) =~= before.push(
                            (pair.0@, pair.1@),
                        ));
                    }
                },
                None => {},
            }
        }
        i = i + 1;
    }
    assert(lv.take(lv.len() as int) =~= lv);
    out
}

/// The unit multipliers pacman uses for sizes.
pub open spec fn unit_multiplier(unit: Seq<char>) -> Option<int> {
    if unit == "B"@ {
        Some(1)
    } else if unit == "KiB"@ {
        Some(1024)
    } else if unit == "MiB"@ {
        Some(1048576int)
    } else if unit == "GiB"@ {
        Some(1073741824int)
    } else {
        None
    }
}

/// The value of an `Installed Size : <value>` line.
pub open spec fn size_line(line: Seq<char>) -> Option<Seq<char>> {
    let c = first_index(line, ':');
    if c == -1 {
        None
    } else {
        let rest = trim(line.subrange(c + 1, line.len() as int));
        if trim_end(line.subrange(0, c)) == "Installed Size"@ && rest.len() > 0 {
            Some(rest)
        } else {
            None
        }
    }
}

/// The value of the first `Installed Size` line of `ls[i..]`.
pub open spec fn first_size_line(ls: Seq<Seq<char>>, i: int) -> Option<Seq<char>>
    decreases ls.len() - i,
{
    if i < 0 || i >= ls.len() {
        None
    } else {
        match size_line(ls[i]) {
            Some(v) => Some(v),
            None => first_size_line(ls, i + 1),
        }
    }
}

/// The `Installed Size` of `pacman -Si`/`-Qi` output in bytes: a decimal
/// amount and a unit (B, KiB, MiB, GiB), rounded to whole bytes.
pub open spec fn installed_size_spec(output: Seq<char>) -> Option<u64> {
    match first_size_line(lines(output), 0) {
        None => None,
        Some(v) => {
            let sp = first_index(v, ' ');
            if sp == -1 {
                None
            } else {
                match (decimal_parts(v.subrange(0, sp)), unit_multiplier(v.subrange(sp + 1, v.len() as int))) {
                    (Some((ip, fp)), Some(m)) => Some(scaled_amount(ip, fp, m) as u64),
                    _ => None,
                }
            }
        },
    }
}

/// The value of an `Installed Size` line.
fn size_value(line: &Vec<char>) -> (r: Option<Vec<char>>)
    ensures
        match r {
            Some(v) => size_line(line@) == Some(v@),
            None => size_line(line@) is None,
        },
{
    proof {
        lemma_index_from(line@, ':', 0);
    }
    let n = line.len();
    match find_char(line, ':') {
        None => None,
        Some(c) => {
            assert(c < n);
            let key = slice_of(line, 0, c);
            let after = slice_of(line, c + 1, n);
            let rest = trim_chars(&after);
            let k = trim_end_chars(&key);
            if chars_eq_str(&k, "Installed Size") && rest.len() > 0 {
                Some(rest)
            } else {
                None
            }
        },
    }
}

/// The value of the first `Installed Size` line.
fn first_size_value(ls: &Vec<Vec<char>>, Ghost(lv): Ghost<Seq<Seq<char>>>) -> (r: Option<Vec<char>>)
    requires
        ls@.len() == lv.len(),
        forall|k: int| 0 <= k < ls@.len() ==> #[trigger] ls@[k]@ == lv[k],
    ensures
        match r {
            Some(v) => first_size_line(lv, 0) == Some(v@),
            None => first_size_line(lv, 0) is None,
        },
{
    let mut i: usize = 0;
    while i < ls.len()
        invariant
            i <= ls@.len(),
            ls@.len() == lv.len(),
            forall|k: int| 0 <= k < ls@.len() ==> #[trigger] ls@[k]@ == lv[k],
            first_size_line(lv, 0) == first_size_line(lv, i as int),
        decreases ls.len() - i,
    {
        assert(ls@[i as int]@ == lv[i as int]);
        match size_value(&ls[i]) {
            Some(v) => {
                return Some(v);
            },
            None => {},
        }
        i = i + 1;
    }
    None
}

/// The `Installed Size` of `pacman -Si`/`-Qi` output in bytes.
pub fn parse_installed_size(output: &str) -> (r: Option<u64>)
    ensures
        r == installed_size_spec(output@),
{
    let cs = chars_of(output);
    let ls = lines_of(&cs);
    let value = match first_size_value(&ls, Ghost(lines(cs@))) {
        Some(v) => v,
        None => return None,
    };
    proof {
        lemma_index_from(value@, ' ', 0);
    }
    let n = value.len();
    let sp = match find_char(&value, ' ') {
        Some(sp) => sp,
        None => return None,
    };
    assert(sp < n);
    let amount = slice_of(&value, 0, sp);
    let unit = slice_of(&value, sp + 1, n);
    let mult: u64 = if chars_eq_str(&unit, "B") {
        1
    } else if chars_eq_str(&unit, "KiB") {
        1024
    } else if chars_eq_str(&unit, "MiB") {
        1024 * 1024
    } else if chars_eq_str(&unit, "GiB") {
        1024 * 1024 * 1024
    } else {
        return None;
    };
    parse_scaled_decimal(&amount, mult)
}

/// The `repo/name version` head of a `pacman -Ss` entry: the full
/// reference, the version, the repository and the name.
pub open spec fn search_head(line: Seq<char>) -> Option<(Seq<char>, Seq<char>, Seq<char>, Seq<char>)> {
    let l = trim_end(line);
    let sp = first_index(l, ' ');
    if l.len() == 0 || sp == -1 {
        None
    } else {
        let prefix = l.subrange(0, sp);
        let sl = first_index(prefix, '/');
        if sl == -1 {
            None
        } else {
            Some(
                (
                    prefix,
                    l.subrange(sp + 1, l.len() as int),
                    prefix.subrange(0, sl),
                    prefix.subrange(sl + 1, prefix.len() as int),
                ),
            )
        }
    }
}

/// The description line that follows an entry: `ls[i]` without leading
/// white space, when there is such a line and it is not empty.
pub open spec fn description_at(ls: Seq<Seq<char>>, i: int) -> Option<Seq<char>> {
    if 0 <= i < ls.len() && trim_start(ls[i]).len() > 0 {
        Some(trim_start(ls[i]))
    } else {
        None
    }
}

/// The candidates of `pacman -Ss` output from line `i` on: each entry
/// head consumes the line after it as its description.
pub open spec fn search_from(ls: Seq<Seq<char>>, i: int) -> Seq<CandidateView>
    decreases ls.len() + 2 - i,
{
    if i < 0 || i >= ls.len() {
        Seq::empty()
    } else {
        match search_head(ls[i]) {
            None => search_from(ls, i + 1),
            Some((prefix, rest, provider, name)) => seq![
                CandidateView {
                    source: Source::Alpm,
                    provider,
                    backend_ref: prefix,
                    name,
                    version: Some(rest),
                    description: description_at(ls, i + 1),
                    package_base: None,
                    url_path: None,
                },
            ] + search_from(ls, i + 2),
        }
    }
}

/// Every candidate read from `pacman -Ss` output keeps its repository in
/// its reference: `backend_ref` is the provider, `/` and the name, and the
/// provider holds no `/`.
pub proof fn lemma_search_refs_are_qualified(ls: Seq<Seq<char>>, i: int)
    ensures
        forall|k: int|
            0 <= k < search_from(ls, i).len() ==> (#[trigger] search_from(ls, i)[k]).backend_ref
                == search_from(ls, i)[k].provider + seq!['/'] + search_from(ls, i)[k].name
                && !search_from(ls, i)[k].provider.contains('/'),
    decreases ls.len() + 2 - i,
{
    if 0 <= i < ls.len() {
        match search_head(ls[i]) {
            None => {
                lemma_search_refs_are_qualified(ls, i + 1);
            },
            Some((prefix, rest, provider, name)) => {
                lemma_search_refs_are_qualified(ls, i + 2);
                let l = trim_end(ls[i]);
                let sp = first_index(l, ' ');
                let sl = first_index(prefix, '/');
                lemma_index_from(prefix, '/', 0);
                assert(prefix =~= provider + seq!['/'] + name);
                assert forall|j: int| 0 <= j < provider.len() implies provider[j] != '/' by {
                    assert(provider[j] == prefix[j]);
                }
                let tail = search_from(ls, i + 2);
                let all = search_from(ls, i);
                assert forall|k: int| 0 <= k < all.len() implies (#[trigger] all[k]).backend_ref
                    == all[k].provider + seq!['/'] + all[k].name && !all[k].provider.contains('/') by {
                    if k > 0 {
                        assert(all[k] == tail[k - 1]);
                    }
                }
            },
        }
    }
}

/// The candidates of `pacman -Ss` output.
pub fn parse_search(output: &str) -> (r: Vec<Candidate>)
    ensures
        candidates_view(r@) == search_from(lines(output@), 0),
{
    let cs = chars_of(output);
    let ls = lines_of(&cs);
    let ghost lv = lines(cs@);
    let mut out: Vec<Candidate> = Vec::new();
    let mut i: usize = 0;
    assert(candidates_view(out@) + search_from(lv, 0) =~= search_from(lv, 0));
    while i < ls.len()
        invariant
            i <= ls@.len(),
            ls@.len() == lv.len(),
            forall|k: int| 0 <= k < ls@.len() ==> #[trigger] ls@[k]@ == lv[k],
            candidates_view(out@) + search_from(lv, i as int) == search_from(lv, 0),
        decreases ls.len() + 2 - i,
    {
        assert(ls@[i as int]@ == lv[i as int]);
        let l = trim_end_chars(&ls[i]);
        let n = l.len();
        proof {
            lemma_index_from(l@, ' ', 0);
        }
        let sp = if n == 0 {
            None
        } else {
            find_char(&l, ' ')
        };
        match sp {
            None => {
                i = i + 1;
            },
            Some(sp) => {
                assert(sp < n);
                let prefix = slice_of(&l, 0, sp);
                proof {
                    lemma_index_from(prefix@, '/', 0);
                }
                match find_char(&prefix, '/') {
                    None => {
                        i = i + 1;
                    },
                    Some(sl) => {
                        let description = if i + 1 < ls.len() {
                            assert(ls@[i + 1]@ == lv[i + 1]);
                            let d = trim_start_chars(&ls[i + 1]);
                            if d.len() > 0 {
                                Some(string_of(&d))
                            } else {
                                None
                            }
                        } else {
                            None
                        };
                        let c = Candidate {
                            source: Source::Alpm,
                            provider: string_of_range(&prefix, 0, sl),
                            backend_ref: string_of(&prefix),
                            name: string_of_range(&prefix, sl + 1, prefix.len()),
                            version: Some(string_of_range(&l, sp + 1, n)),
                            description,
                            package_base: None,
                            url_path: None,
                        };
                        let ghost before = candidates_view(out@);
                        out.push(c);
                        assert(candidates_view(out@) =~= before.push(c@));
                        assert(before.push(c@) + search_from(lv, i + 2) =~= before + (seq![c@] + search_from(lv, i + 2)));
                        i = i + 1;
                        if i < ls.len() {
                            i = i + 1;
                        } else {
                            assert(search_from(lv, i + 1) =~= Seq::<CandidateView>::empty());
                            assert(search_from(lv, i as int) =~= Seq::<CandidateView>::empty());
                        }
                    },
                }
            },
        }
    }
    assert(search_from(lv, i as int) =~= Seq::<CandidateView>::empty());
    assert(candidates_view(out@) + Seq::<CandidateView>::empty() =~= candidates_view(out@));
    out
}

/// The record of an installed repository package: `local/<name>`.
pub open spec fn installed_of(pair: (Seq<char>, Option<Seq<char>>), provenance: Provenance) -> InstalledView {
    InstalledView {
        source: Source::Alpm,
        backend_ref: "local/"@ + pair.0,
        name: pair.0,
        version: pair.1,
        scope: None,
        installed_at: None,
        provenance,
    }
}

/// The installed packages of `pacman -Qn`/`-Qm` output.
pub fn parse_installed(output: &str, provenance: Provenance) -> (r: Vec<InstalledPackage>)
    ensures
        installed_view(r@) == pairs_spec(output@).map_values(
            |p: (Seq<char>, Option<Seq<char>>)| installed_of(p, provenance),
        ),
{
    let pairs = parse_pairs(output);
    let ghost pv = pairs@.map_values(|p: (String, Option<String>)| pair_view(p));
    let mut out: Vec<InstalledPackage> = Vec::new();
    let mut i: usize = 0;
    while i < pairs.len()
        invariant
            i <= pairs@.len(),
            pv == pairs@.map_values(|p: (String, Option<String>)| pair_view(p)),
            installed_view(out@) == pv.take(i as int).map_values(
                |p: (Seq<char>, Option<Seq<char>>)| installed_of(p, provenance),
            ),
        decreases pairs.len() - i,
    {
        let (name, version) = &pairs[i];
        let mut backend_ref = owned("local/");
        push_str(&mut backend_ref, name.as_str());
        let pkg = InstalledPackage {
            source: Source::Alpm,
            backend_ref,
            name: name.clone(),
            version: crate::model::copy_opt(version),
            scope: None,
            installed_at: None,
            provenance: provenance.duplicate(),
        };
        let ghost before = installed_view(out@);
        out.push(pkg);
        assert(installed_view(out@) =~= before.push(pkg@));
        assert(pv.take(i + 1) =~= pv.take(i as int).push(pv[i as int]));
        i = i + 1;
    }
    assert(pv.take(pv.len() as int) =~= pv);
    out
}

// ---------------------------------------------------------------------
// Plans
// ---------------------------------------------------------------------

/// The pacman backend.
pub struct AlpmBackend;

/// A system upgrade of `system`.
pub open spec fn is_system_upgrade(op: TransactionOperation, system: Seq<char>) -> bool {
    match op {
        TransactionOperation::SystemUpgrade { system: s } => s@ == system,
        _ => false,
    }
}

/// A single-operation plan.
fn single_plan(backend_ref: String, name: String, op: TransactionOperation, privileged: bool) -> (r: TransactionPlan)
    ensures
        r.backend_ref == backend_ref,
        r.name == name,
        r.operations@ == seq![op],
        r.requires_privilege == privileged,
{
    let mut operations: Vec<TransactionOperation> = Vec::new();
    operations.push(op);
    assert(operations@ =~= seq![op]);
    TransactionPlan { backend_ref, name, operations, requires_privilege: privileged }
}

/// The pacman arguments of an operation, if pacman carries it out.
pub open spec fn pacman_args(op: TransactionOperation) -> Option<Seq<Seq<char>>> {
    match op {
        TransactionOperation::InstallPackage { package } => Some(seq!["-S"@, "--noconfirm"@, package@]),
        TransactionOperation::RemovePackage { package } => Some(seq!["-R"@, "--noconfirm"@, package@]),
        TransactionOperation::UpgradePackage { package } => Some(
            seq!["-S"@, "--noconfirm"@, "--needed"@, package@],
        ),
        TransactionOperation::SystemUpgrade { system } => if system@ == "pacman"@ {
            Some(seq!["-Syu"@, "--noconfirm"@])
        } else {
            None
        },
        _ => None,
    }
}

/// Removing a package runs pacman on that package alone with the plain
/// `-R` operation: no `s`, `c`, `n` or `u` modifier, so nothing but the
/// named package (no dependency, dependent or backup file) goes with it.
/// Its arguments are those of installing the package but for that flag.
pub proof fn lemma_remove_removes_only_the_package(package: String)
    ensures
        ({
            let r = pacman_args(TransactionOperation::RemovePackage { package });
            let i = pacman_args(TransactionOperation::InstallPackage { package });
            &&& r is Some && i is Some
            &&& r->0.len() == 3
            &&& r->0[0] == seq!['-', 'R']
            &&& r->0[2] == package@
            &&& r->0.skip(1) == i->0.skip(1)
            &&& forall|k: int| 0 <= k < r->0.len() && k != 2 ==> r->0[k][0] == '-'
        }),
{
    reveal_strlit("-R");
    reveal_strlit("-S");
    reveal_strlit("--noconfirm");
    let r = seq!["-R"@, "--noconfirm"@, package@];
    let i = seq!["-S"@, "--noconfirm"@, package@];
    assert(r.skip(1) =~= i.skip(1));
    assert("-R"@ =~= seq!['-', 'R']);
}

/// Upgrading everything is the full `pacman -Syu` (refresh and upgrade in
/// one transaction), never a refresh of the databases alone.
pub proof fn lemma_system_upgrade_is_full_sync(op: TransactionOperation)
    requires
        is_system_upgrade(op, "pacman"@),
    ensures
        pacman_args(op) == Some(seq!["-Syu"@, "--noconfirm"@]),
{
}

impl AlpmBackend {
    pub fn name(&self) -> (r: &'static str)
        ensures
            r@ == "alpm"@,
    {
        "alpm"
    }

    pub fn source(&self) -> (r: Source)
        ensures
            r == Source::Alpm,
    {
        Source::Alpm
    }

    /// Installs the chosen repository-qualified package (`repo/name`), so
    /// pacman cannot pick another repository.
    pub fn plan_install(&self, target: &Candidate) -> (r: Result<TransactionPlan, String>)
        ensures
            r matches Ok(p) && p.backend_ref == target.backend_ref && p.name == target.name
                && p.operations@ == seq![
                TransactionOperation::InstallPackage { package: target.backend_ref },
            ] && p.requires_privilege,
    {
        Ok(
            single_plan(
                target.backend_ref.clone(),
                target.name.clone(),
                TransactionOperation::InstallPackage { package: target.backend_ref.clone() },
                true,
            ),
        )
    }

    pub fn plan_remove(&self, target: &InstalledPackage) -> (r: Result<TransactionPlan, String>)
        ensures
            r matches Ok(p) && p.backend_ref == target.backend_ref && p.name == target.name
                && p.operations@ == seq![TransactionOperation::RemovePackage { package: target.name }]
                && p.requires_privilege,
    {
        Ok(
            single_plan(
                target.backend_ref.clone(),
                target.name.clone(),
                TransactionOperation::RemovePackage { package: target.name.clone() },
                true,
            ),
        )
    }

    pub fn plan_upgrade(&self, target: &InstalledPackage) -> (r: Result<TransactionPlan, String>)
        ensures
            r matches Ok(p) && p.backend_ref == target.backend_ref && p.name == target.name
                && p.operations@ == seq![TransactionOperation::UpgradePackage { package: target.name }]
                && p.requires_privilege,
    {
        Ok(
            single_plan(
                target.backend_ref.clone(),
                target.name.clone(),
                TransactionOperation::UpgradePackage { package: target.name.clone() },
                true,
            ),
        )
    }

    /// A full system upgrade (`pacman -Syu`).
    pub fn plan_upgrade_all(&self) -> (r: Result<TransactionPlan, String>)
        ensures
            r matches Ok(p) && p.backend_ref@ == "system"@ && p.name@ == "alpm system upgrade"@
                && p.operations@.len() == 1 && is_system_upgrade(p.operations@[0], "pacman"@)
                && p.requires_privilege,
    {
        Ok(
            single_plan(
                owned("system"),
                owned("alpm system upgrade"),
                TransactionOperation::SystemUpgrade { system: owned("pacman") },
                true,
            ),
        )
    }

    /// One system upgrade covering the targets, named after them; nothing
    /// when there is no target.
    pub fn plan_upgrade_chain(&self, targets: &[Candidate]) -> (r: Result<Vec<TransactionPlan>, String>)
        ensures
            r matches Ok(plans) && (targets@.len() == 0 ==> plans@.len() == 0) && (targets@.len() > 0
                ==> plans@.len() == 1 && plans@[0].backend_ref@ == "system"@ && plans@[0].name@
                == join_comma(targets@.map_values(|t: Candidate| t.name@))
                && plans@[0].operations@.len() == 1
                && is_system_upgrade(plans@[0].operations@[0], "pacman"@) && plans@[0].requires_privilege),
    {
        let mut plans: Vec<TransactionPlan> = Vec::new();
        if targets.len() == 0 {
            return Ok(plans);
        }
        let mut names: Vec<String> = Vec::new();
        let mut i: usize = 0;
        while i < targets.len()
            invariant
                i <= targets@.len(),
                strings_view(names@) == targets@.take(i as int).map_values(|t: Candidate| t.name@),
            decreases targets.len() - i,
        {
            let ghost before = strings_view(names@);
            names.push(targets[i].name.clone());
            assert(strings_view(names@) =~= before.push(targets@[i as int].name@));
            assert(targets@.take(i + 1).map_values(|t: Candidate| t.name@) =~= targets@.take(i as int).map_values(|t: Candidate| t.name@).push(targets@[i as int].name@));
            i = i + 1;
        }
        assert(targets@.take(targets@.len() as int) =~= targets@);
        let name = join_names(&names);
        plans.push(
            single_plan(
                owned("system"),
                name,
                TransactionOperation::SystemUpgrade { system: owned("pacman") },
                true,
            ),
        );
        Ok(plans)
    }

    /// The installed packages of a plan are the instances named like the
    /// plan; dependencies pulled in with it get no receipt.
    pub fn receipt_instances(
        &self,
        plan: &TransactionPlan,
        before: &[InstalledPackage],
        after: &[InstalledPackage],
    ) -> (r: Result<Vec<InstalledPackage>, String>)
        ensures
            r matches Ok(v) && v@ == after@.filter(|p: InstalledPackage| p.name@ == plan.name@),
    {
        let mut out: Vec<InstalledPackage> = Vec::new();
        let mut i: usize = 0;
        let ghost f = |p: InstalledPackage| p.name@ == plan.name@;
        assert(after@.take(0).filter(f) =~= Seq::<InstalledPackage>::empty()) by {
            reveal(Seq::filter);
        }
        while i < after.len()
            invariant
                i <= after@.len(),
                f == (|p: InstalledPackage| p.name@ == plan.name@),
                out@ == after@.take(i as int).filter(f),
            decreases after.len() - i,
        {
            let ghost t = after@.take(i + 1);
            assert(t.drop_last() =~= after@.take(i as int));
            assert(t.last() == after@[i as int]);
            assert(t.filter(f) == if f(t.last()) {
                t.drop_last().filter(f).push(t.last())
            } else {
                t.drop_last().filter(f)
            }) by {
                reveal(Seq::filter);
            }
            if crate::text::str_eq(after[i].name.as_str(), plan.name.as_str()) {
                out.push(after[i].duplicate());
            }
            i = i + 1;
        }
        assert(after@.take(after@.len() as int) =~= after@);
        Ok(out)
    }

    /// The upgrade candidates listed by `pacman -Su --print-format %r/%n`;
    /// pacman resolves the version itself, so it stays unknown.
    pub fn outdated_from(&self, output: &str) -> (r: Vec<Candidate>)
        ensures
            candidates_view(r@) == upgrade_candidates_spec(output@).map_values(
                |p: (Seq<char>, Seq<char>)| CandidateView {
                    source: Source::Alpm,
                    provider: p.0,
                    backend_ref: p.0 + "/"@ + p.1,
                    name: p.1,
                    version: None,
                    description: None,
                    package_base: None,
                    url_path: None,
                },
            ),
    {
        let pairs = parse_upgrade_candidates(output);
        let ghost pv = pairs@.map_values(|p: (String, String)| (p.0@, p.1@));
        let mut out: Vec<Candidate> = Vec::new();
        let mut i: usize = 0;
        while i < pairs.len()
            invariant
                i <= pairs@.len(),
                pv == pairs@.map_values(|p: (String, String)| (p.0@, p.1@)),
                candidates_view(out@) == pv.take(i as int).map_values(
                    |p: (Seq<char>, Seq<char>)| CandidateView {
                        source: Source::Alpm,
                        provider: p.0,
                        backend_ref: p.0 + "/"@ + p.1,
                        name: p.1,
                        version: None,
                        description: None,
                        package_base: None,
                        url_path: None,
                    },
                ),
            decreases pairs.len() - i,
        {
            let (repo, name) = &pairs[i];
            let mut backend_ref = repo.clone();
            push_str(&mut backend_ref, "/");
            push_str(&mut backend_ref, name.as_str());
            let c = Candidate {
                source: Source::Alpm,
                provider: repo.clone(),
                backend_ref,
                name: name.clone(),
                version: None,
                description: None,
                package_base: None,
                url_path: None,
            };
            let ghost before = candidates_view(out@);
            out.push(c);
            assert(candidates_view(out@) =~= before.push(c@));
            assert(pv.take(i + 1) =~= pv.take(i as int).push(pv[i as int]));
            i = i + 1;
        }
        assert(pv.take(pv.len() as int) =~= pv);
        out
    }

    /// The pacman arguments that carry out an operation; `None` for an
    /// operation this backend does not run.
    pub fn operation_args(op: &TransactionOperation) -> (r: Option<Vec<String>>)
        ensures
            match r {
                Some(a) => pacman_args(*op) == Some(strings_view(a@)),
                None => pacman_args(*op) is None,
            },
    {
        let mut args: Vec<String> = Vec::new();
        match op {
            TransactionOperation::InstallPackage { package } => {
                args.push(owned("-S"));
                args.push(owned("--noconfirm"));
                args.push(package.clone());
            },
            TransactionOperation::RemovePackage { package } => {
                args.push(owned("-R"));
                args.push(owned("--noconfirm"));
                args.push(package.clone());
            },
            TransactionOperation::UpgradePackage { package } => {
                args.push(owned("-S"));
                args.push(owned("--noconfirm"));
                args.push(owned("--needed"));
                args.push(package.clone());
            },
            TransactionOperation::SystemUpgrade { system } => {
                if !crate::text::str_eq(system.as_str(), "pacman") {
                    return None;
                }
                args.push(owned("-Syu"));
                args.push(owned("--noconfirm"));
            },
            _ => {
                return None;
            },
        }
        assert(strings_view(args@) =~= args@.map_values(|s: String| s@));
        Some(args)
    }
}

// ---------------------------------------------------------------------
// Running pacman
// ---------------------------------------------------------------------

/// What a finished `pacman <args>` query gives: its output when it
/// succeeded; nothing when it failed without saying why; otherwise its
/// error output as the error.
pub open spec fn pacman_outcome(
    args: Seq<Seq<char>>,
    success: bool,
    stdout: Seq<char>,
    stderr: Seq<char>,
) -> Result<Seq<char>, Seq<char>> {
    if success {
        Ok(stdout)
    } else if trim(stderr).len() == 0 {
        Ok(Seq::empty())
    } else {
        Err("pacman "@ + join_spaces(args) + " failed: "@ + trim(stderr))
    }
}

/// Interprets the exit status and output of `pacman <args>`.
pub fn interpret_pacman_output(args: &Vec<String>, success: bool, stdout: String, stderr: &str) -> (r:
    Result<String, String>)
    ensures
        match (r, pacman_outcome(strings_view(args@), success, stdout@, stderr@)) {
            (Ok(a), Ok(b)) => a@ == b,
            (Err(a), Err(b)) => a@ == b,
            _ => false,
        },
{
    if success {
        return Ok(stdout);
    }
    let err = trim_chars(&chars_of(stderr));
    if err.len() == 0 {
        proof {
            reveal_strlit("");
        }
        return Ok(String::new());
    }
    let mut msg = owned("pacman ");
    let joined = join_with_spaces(args);
    push_str(&mut msg, joined.as_str());
    push_str(&mut msg, " failed: ");
    crate::text::push_chars(&mut msg, &err);
    Err(msg)
}

/// The package name and install time of a pacman `desc` file, when it
/// has both.
pub open spec fn install_date_spec(content: Seq<char>) -> Option<(Seq<char>, i64)> {
    match (desc_field_spec(content, "%NAME%"@), desc_field_spec(content, "%INSTALLDATE%"@)) {
        (Some(n), Some(d)) => match parse_i64_spec(d) {
            Some(t) => Some((n, t)),
            None => None,
        },
        _ => None,
    }
}

/// Reads the name and the install time of a `desc` file.
pub fn desc_install_date(content: &str) -> (r: Option<(String, i64)>)
    ensures
        match (r, install_date_spec(content@)) {
            (Some((n, t)), Some((sn, st))) => n@ == sn && t == st,
            (None, None) => true,
            _ => false,
        },
{
    let name = desc_field(content, "%NAME%");
    let date = desc_field(content, "%INSTALLDATE%");
    match (name, date) {
        (Some(n), Some(d)) => match parse_i64(&chars_of(d.as_str())) {
            Some(t) => Some((n, t)),
            None => None,
        },
        _ => None,
    }
}

/// The install time recorded for `name`: the last entry for it, as a map
/// keyed by name keeps it.
pub open spec fn date_for(dates: Seq<(Seq<char>, i64)>, name: Seq<char>) -> Option<i64>
    decreases dates.len(),
{
    if dates.len() == 0 {
        None
    } else if dates.last().0 == name {
        Some(dates.last().1)
    } else {
        date_for(dates.drop_last(), name)
    }
}

pub open spec fn dates_view(dates: Seq<(String, i64)>) -> Seq<(Seq<char>, i64)> {
    dates.map_values(|d: (String, i64)| (d.0@, d.1))
}

/// The install time recorded for `name` in `dates`.
fn date_lookup(dates: &Vec<(String, i64)>, name: &str) -> (r: Option<i64>)
    ensures
        r == date_for(dates_view(dates@), name@),
{
    let ghost dv = dates_view(dates@);
    let mut j: usize = dates.len();
    assert(dv.take(dv.len() as int) =~= dv);
    while j > 0
        invariant
            j <= dates@.len(),
            dv == dates_view(dates@),
            date_for(dv, name@) == date_for(dv.take(j as int), name@),
        decreases j,
    {
        let ghost t = dv.take(j as int);
        assert(t.drop_last() =~= dv.take(j - 1));
        assert(t.last() == (dates@[j - 1].0@, dates@[j - 1].1));
        if crate::text::str_eq(dates[j - 1].0.as_str(), name) {
            return Some(dates[j - 1].1);
        }
        j = j - 1;
    }
    assert(dv.take(0) =~= Seq::<(Seq<char>, i64)>::empty());
    None
}

/// `pkgs` with the install time of each looked up by name in `dates`.
/// The lookup table is a `Vec` scanned by name rather than a `HashMap`:
/// vstd specifies hash tables only for keys it knows to hash consistently
/// (integers and `bool`), not for `String`.
pub fn with_install_dates(pkgs: Vec<InstalledPackage>, dates: &Vec<(String, i64)>) -> (r: Vec<
    InstalledPackage,
>)
    ensures
        r@.len() == pkgs@.len(),
        forall|i: int|
            0 <= i < r@.len() ==> {
                let p = #[trigger] r@[i];
                let q = pkgs@[i];
                &&& p.source == q.source
                &&& p.backend_ref == q.backend_ref
                &&& p.name == q.name
                &&& p.version == q.version
                &&& p.scope == q.scope
                &&& p.provenance == q.provenance
                &&& p.installed_at == date_for(dates_view(dates@), q.name@)
            },
{
    let ghost dv = dates_view(dates@);
    let mut out: Vec<InstalledPackage> = Vec::new();
    let mut i: usize = 0;
    while i < pkgs.len()
        invariant
            i <= pkgs@.len(),
            dv == dates_view(dates@),
            out@.len() == i,
            forall|k: int|
                0 <= k < i ==> {
                    let p = #[trigger] out@[k];
                    let q = pkgs@[k];
                    &&& p.source == q.source
                    &&& p.backend_ref == q.backend_ref
                    &&& p.name == q.name
                    &&& p.version == q.version
                    &&& p.scope == q.scope
                    &&& p.provenance == q.provenance
                    &&& p.installed_at == date_for(dv, q.name@)
                },
        decreases pkgs.len() - i,
    {
        let q = &pkgs[i];
        let found = date_lookup(dates, q.name.as_str());
        out.push(
            InstalledPackage {
                source: q.source,
                backend_ref: q.backend_ref.clone(),
                name: q.name.clone(),
                version: crate::model::copy_opt(&q.version),
                scope: crate::model::copy_opt(&q.scope),
                installed_at: found,
                provenance: q.provenance.duplicate(),
            },
        );
        i = i + 1;
    }
    out
}

} // verus!
