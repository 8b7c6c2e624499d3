//! The decisions of an interactive session: reading answers and
//! selections, the binaries a package ships, hints for prebuilt variants,
//! size totals, which provenance a reconciled package gets, and how each
//! plan's commands are launched.

use vstd::prelude::*;
use crate::backend::ExecutionContext;
use crate::model::{InstalledPackage, Provenance, Source, TransactionPlan};
use crate::numbers::{parse_usize, parse_usize_spec};
use crate::resolver::{RankedCandidate, RankedView, Reason, Resolver, found_of, ranked_all, ranked_views, reason_label, searched};
use crate::model::Candidate;
use crate::text::{
    chars_of, ends_with, filter_map, lemma_filter_map_step, lines, lines_of, opt_view, owned,
    push_str, slice_of, starts_with, str_eq, string_of, strings_view, trim, trim_chars,
};

verus! {

// ---------------------------------------------------------------------
// Binaries of a package
// ---------------------------------------------------------------------

/// `s` without its leading `/` characters.
pub open spec fn strip_slashes(s: Seq<char>) -> Seq<char>
    decreases s.len(),
{
    if s.len() > 0 && s[0] == '/' {
        strip_slashes(s.skip(1))
    } else {
        s
    }
}

/// `s` without any number of leading copies of `p`.
pub open spec fn strip_prefixes(s: Seq<char>, p: Seq<char>) -> Seq<char>
    decreases s.len(),
{
    if p.len() > 0 && starts_with(s, p) {
        strip_prefixes(s.skip(p.len() as int), p)
    } else {
        s
    }
}

/// The binary that a line of a pacman `files` list names: an entry under
/// `usr/bin/` that is not a directory.
pub open spec fn binary_of(line: Seq<char>) -> Option<Seq<char>> {
    let l = strip_slashes(line);
    if starts_with(l, "usr/bin/"@) && !ends_with(l, "/"@) {
        Some(strip_prefixes(l, "usr/bin/"@))
    } else {
        None
    }
}

pub open spec fn binary_of_fn() -> spec_fn(Seq<char>) -> Option<Seq<char>> {
    |l: Seq<char>| binary_of(l)
}

fn strip_slashes_exec(s: &Vec<char>) -> (r: Vec<char>)
    ensures
        r@ == strip_slashes(s@),
{
    let mut i: usize = 0;
    assert(s@.skip(0) =~= s@);
    while i < s.len() && s[i] == '/'
        invariant
            i <= s@.len(),
            strip_slashes(s@) == strip_slashes(s@.skip(i as int)),
        decreases s.len() - i,
    {
        assert(s@.skip(i as int).skip(1) =~= s@.skip(i + 1));
        i = i + 1;
    }
    let r = slice_of(s, i, s.len());
    assert(r@ =~= s@.skip(i as int));
    r
}

fn strip_prefixes_exec(s: &Vec<char>, p: &Vec<char>) -> (r: Vec<char>)
    requires
        p@.len() > 0,
    ensures
        r@ == strip_prefixes(s@, p@),
{
    let mut i: usize = 0;
    assert(s@.skip(0) =~= s@);
    while i <= s.len() && s.len() - i >= p.len() && crate::text::matches_at(s, p, i)
        invariant
            i <= s@.len(),
            p@.len() > 0,
            strip_prefixes(s@, p@) == strip_prefixes(s@.skip(i as int), p@),
        decreases s.len() - i,
    {
        assert(starts_with(s@.skip(i as int), p@)) by {
            assert(s@.skip(i as int).subrange(0, p@.len() as int) =~= s@.subrange(
                i as int,
                i + p@.len(),
            ));
        }
        assert(s@.skip(i as int).skip(p@.len() as int) =~= s@.skip(i + p@.len()));
        i = i + p.len();
    }
    proof {
        if s@.len() - i >= p@.len() {
            assert(s@.skip(i as int).subrange(0, p@.len() as int) =~= s@.subrange(
                i as int,
                i + p@.len(),
            ));
        }
    }
    let r = slice_of(s, i, s.len());
    assert(r@ =~= s@.skip(i as int));
    r
}

/// The binaries listed in a pacman `files` list, in order.
pub fn binaries_from_files(files: &str) -> (r: Vec<String>)
    ensures
        strings_view(r@) == filter_map(lines(files@), binary_of_fn()),
{
    let cs = chars_of(files);
    let ls = lines_of(&cs);
    let ghost lv = lines(cs@);
    let prefix = chars_of("usr/bin/");
    proof {
        reveal_strlit("usr/bin/");
        reveal_strlit("/");
    }
    let mut out: Vec<String> = Vec::new();
    let mut i: usize = 0;
    assert(lv.take(0) =~= Seq::<Seq<char>>::empty());
    while i < ls.len()
        invariant
            i <= ls@.len(),
            ls@.len() == lv.len(),
            lv == lines(files@),
            forall|k: int| 0 <= k < ls@.len() ==> #[trigger] ls@[k]@ == lv[k],
            prefix@ == "usr/bin/"@,
            prefix@.len() == 8,
            "/"@ == seq!['/'],
            strings_view(out@) == filter_map(lv.take(i as int), binary_of_fn()),
        decreases ls.len() - i,
    {
        proof {
            lemma_filter_map_step(lv, binary_of_fn(), i as int);
        }
        let l = strip_slashes_exec(&ls[i]);
        assert(ls@[i as int]@ == lv[i as int]);
        let keep = crate::text::has_prefix(&l, &prefix) && !(l.len() > 0 && l[l.len() - 1] == '/');
        proof {
            assert(ends_with(l@, "/"@) == (l@.len() > 0 && l@[l@.len() - 1] == '/')) by {
                assert("/"@.len() == 1);
                assert("/"@[0] == '/');
                if l@.len() > 0 {
                    let last = l@.subrange(l@.len() - 1, l@.len() as int);
                    assert(last.len() == 1 && last[0] == l@[l@.len() - 1]);
                    if l@[l@.len() - 1] == '/' {
                        assert(last =~= "/"@);
                    }
                }
            }
        }
        if keep {
            let b = strip_prefixes_exec(&l, &prefix);
            let ghost before = strings_view(out@);
            out.push(string_of(&b));
            assert(strings_view(out@) =~= before.push(b@));
        }
        i = i + 1;
    }
    assert(lv.take(lv.len() as int) =~= lv);
    out
}

/// Drops each string equal to the one before it (`Vec::dedup`).
pub open spec fn dedup_spec(s: Seq<Seq<char>>) -> Seq<Seq<char>>
    decreases s.len(),
{
    if s.len() == 0 {
        s
    } else if s.len() >= 2 && s[s.len() - 2] == s.last() {
        dedup_spec(s.drop_last())
    } else {
        dedup_spec(s.drop_last()).push(s.last())
    }
}

/// `v` without consecutive repetitions.
pub fn dedup_adjacent(v: &Vec<String>) -> (r: Vec<String>)
    ensures
        strings_view(r@) == dedup_spec(strings_view(v@)),
{
    let ghost sv = strings_view(v@);
    let mut out: Vec<String> = Vec::new();
    let mut i: usize = 0;
    assert(sv.take(0) =~= Seq::<Seq<char>>::empty());
    while i < v.len()
        invariant
            i <= v@.len(),
            sv == strings_view(v@),
            strings_view(out@) == dedup_spec(sv.take(i as int)),
        decreases v.len() - i,
    {
        let ghost t = sv.take(i + 1);
        assert(t.drop_last() =~= sv.take(i as int));
        assert(t.last() == v@[i as int]@);
        if i > 0 {
            assert(t[t.len() - 2] == v@[i - 1]@);
        }
        if i == 0 || !str_eq(v[i - 1].as_str(), v[i].as_str()) {
            let ghost before = strings_view(out@);
            out.push(v[i].clone());
            assert(strings_view(out@) =~= before.push(v@[i as int]@));
        }
        i = i + 1;
    }
    assert(sv.take(sv.len() as int) =~= sv);
    out
}

/// The value on the line after the first line that is exactly `field`
/// (and has a line after it), trimmed.
pub open spec fn desc_value_from(ls: Seq<Seq<char>>, field: Seq<char>, i: int) -> Option<Seq<char>>
    decreases ls.len() - i,
{
    if i < 0 || i >= ls.len() {
        None
    } else if ls[i] == field && i + 1 < ls.len() {
        Some(trim(ls[i + 1]))
    } else {
        desc_value_from(ls, field, i + 1)
    }
}

/// The value of `field` in a pacman `desc` file: the next line, trimmed.
pub fn desc_line_value(desc: &str, field: &str) -> (r: Option<String>)
    ensures
        opt_view(r) == desc_value_from(lines(desc@), field@, 0),
{
    let cs = chars_of(desc);
    let ls = lines_of(&cs);
    let ghost lv = lines(cs@);
    let f = chars_of(field);
    let mut i: usize = 0;
    while i < ls.len()
        invariant
            i <= ls@.len(),
            ls@.len() == lv.len(),
            lv == lines(desc@),
            f@ == field@,
            forall|k: int| 0 <= k < ls@.len() ==> #[trigger] ls@[k]@ == lv[k],
            desc_value_from(lv, field@, 0) == desc_value_from(lv, field@, i as int),
        decreases ls.len() - i,
    {
        assert(ls@[i as int]@ == lv[i as int]);
        if crate::text::chars_eq(&ls[i], &f) && i + 1 < ls.len() {
            assert(ls@[i + 1]@ == lv[i + 1]);
            return Some(string_of(&trim_chars(&ls[i + 1])));
        }
        i = i + 1;
    }
    None
}

// ---------------------------------------------------------------------
// Answers
// ---------------------------------------------------------------------

/// A confirmation prompt's answer means yes: empty, `y` or `yes` in any
/// letter case, around white space.
pub open spec fn is_yes_spec(answer: Seq<char>) -> bool {
    let t = trim(answer);
    ||| t.len() == 0
    ||| t.len() == 1 && (t[0] == 'y' || t[0] == 'Y')
    ||| t.len() == 3 && (t[0] == 'y' || t[0] == 'Y') && (t[1] == 'e' || t[1] == 'E') && (t[2]
        == 's' || t[2] == 'S')
}

/// Whether an answer to a yes/no prompt (default yes) accepts.
pub fn is_yes(answer: &str) -> (r: bool)
    ensures
        r == is_yes_spec(answer@),
{
    let t = trim_chars(&chars_of(answer));
    if t.len() == 0 {
        return true;
    }
    let y = t[0] == 'y' || t[0] == 'Y';
    if t.len() == 1 {
        return y;
    }
    if t.len() == 3 {
        return y && (t[1] == 'e' || t[1] == 'E') && (t[2] == 's' || t[2] == 'S');
    }
    false
}

/// The entry a selection prompt's answer picks among `len` entries: the
/// first for an empty answer, else the entry numbered by the answer
/// (counting from 1) when there is one.
pub open spec fn selection_spec(choice: Seq<char>, len: int) -> Option<int> {
    let t = trim(choice);
    if t.len() == 0 {
        Some(0)
    } else {
        match parse_usize_spec(t) {
            Some(n) => if 1 <= n && n - 1 < len {
                Some(n - 1)
            } else {
                None
            },
            None => None,
        }
    }
}

/// Reads the answer to "Enter a selection (default=1)".
pub fn parse_selection(choice: &str, len: usize) -> (r: Option<usize>)
    ensures
        match (r, selection_spec(choice@, len as int)) {
            (Some(a), Some(b)) => a == b,
            (None, None) => true,
            _ => false,
        },
{
    let t = trim_chars(&chars_of(choice));
    if t.len() == 0 {
        return Some(0);
    }
    match parse_usize(&t) {
        Some(n) => {
            if n >= 1 && n - 1 < len {
                Some(n - 1)
            } else {
                None
            }
        },
        None => None,
    }
}

/// The reasons of a ranked candidate, joined by "; ".
pub open spec fn join_semicolons(items: Seq<Seq<char>>) -> Seq<char>
    decreases items.len(),
{
    if items.len() == 0 {
        Seq::empty()
    } else if items.len() == 1 {
        items[0]
    } else {
        join_semicolons(items.drop_last()) + "; "@ + items.last()
    }
}

/// Why a candidate ranks where it does: the labels of its reasons.
pub fn reasons(ranked: &RankedCandidate) -> (r: String)
    ensures
        r@ == join_semicolons(ranked.reasons@.map_values(|x: Reason| reason_label(x))),
{
    let ghost lv = ranked.reasons@.map_values(|x: Reason| reason_label(x));
    let mut out = String::new();
    let mut i: usize = 0;
    proof {
        assert(lv.take(0) =~= Seq::<Seq<char>>::empty());
        reveal_strlit("");
    }
    while i < ranked.reasons.len()
        invariant
            i <= ranked.reasons@.len(),
            lv == ranked.reasons@.map_values(|x: Reason| reason_label(x)),
            out@ == join_semicolons(lv.take(i as int)),
        decreases ranked.reasons.len() - i,
    {
        proof {
            let t = lv.take(i + 1);
            assert(t.drop_last() =~= lv.take(i as int));
            assert(t.last() == reason_label(ranked.reasons@[i as int]));
            if i == 0 {
                assert(lv.take(0) =~= Seq::<Seq<char>>::empty());
            }
        }
        if i > 0 {
            push_str(&mut out, "; ");
        }
        let label = ranked.reasons[i].label();
        push_str(&mut out, label.as_str());
        i = i + 1;
    }
    assert(lv.take(lv.len() as int) =~= lv);
    out
}

// ---------------------------------------------------------------------
// Prebuilt variants
// ---------------------------------------------------------------------

/// `name` is `exact` followed by `-bin`, `-bins` or `-static`.
pub open spec fn is_prebuilt_of(name: Seq<char>, exact: Seq<char>) -> bool {
    starts_with(name, exact) && {
        let rest = name.skip(exact.len() as int);
        rest == "-bin"@ || rest == "-bins"@ || rest == "-static"@
    }
}

/// The first AUR candidate from `i` on that is a prebuilt variant of
/// `exact`.
pub open spec fn prebuilt_from(ranked: Seq<RankedView>, exact: Seq<char>, i: int) -> Option<Seq<char>>
    decreases ranked.len() - i,
{
    if i < 0 || i >= ranked.len() {
        None
    } else if ranked[i].candidate.source == Source::Aur && is_prebuilt_of(
        ranked[i].candidate.name@,
        exact,
    ) {
        Some(ranked[i].candidate.name@)
    } else {
        prebuilt_from(ranked, exact, i + 1)
    }
}

/// The first AUR candidate among `ranked` that is a prebuilt variant of
/// `exact`.
pub fn prebuilt_among(ranked: &Vec<RankedCandidate>, exact: &str) -> (r: Option<String>)
    ensures
        opt_view(r) == prebuilt_from(ranked_views(ranked@), exact@, 0),
{
    let ghost rv = ranked_views(ranked@);
    let e = chars_of(exact);
    let mut i: usize = 0;
    proof {
        reveal_strlit("-bin");
        reveal_strlit("-bins");
        reveal_strlit("-static");
    }
    while i < ranked.len()
        invariant
            i <= ranked@.len(),
            rv == ranked_views(ranked@),
            e@ == exact@,
            prebuilt_from(rv, exact@, 0) == prebuilt_from(rv, exact@, i as int),
        decreases ranked.len() - i,
    {
        let c = &ranked[i].candidate;
        assert(rv[i as int].candidate == *c);
        if c.source == Source::Aur {
            let n = chars_of(c.name.as_str());
            if crate::text::has_prefix(&n, &e) {
                let rest = string_of(&slice_of(&n, e.len(), n.len()));
                assert(rest@ =~= n@.skip(e@.len() as int));
                if str_eq(rest.as_str(), "-bin") || str_eq(rest.as_str(), "-bins") || str_eq(
                    rest.as_str(),
                    "-static",
                ) {
                    return Some(c.name.clone());
                }
            }
        }
        i = i + 1;
    }
    None
}

/// A prebuilt variant (`-bin`, `-bins`, `-static`) of the AUR package
/// `exact`, among the candidates a search for `exact` finds.
pub fn prebuilt_variant(resolver: &Resolver, exact: &str) -> (r: Option<String>)
    ensures
        exists|sources: Seq<Source>, answers: Seq<Result<Vec<Candidate>, String>>, names: Seq<Seq<char>>|
            #[trigger] searched(resolver, exact, sources, answers, names) && opt_view(r) == prebuilt_from(
                ranked_all(exact@, found_of(answers), None),
                exact@,
                0,
            ),
{
    let (ranked, _errors) = resolver.resolve_ranked(exact);
    prebuilt_among(&ranked, exact)
}

// ---------------------------------------------------------------------
// Size totals
// ---------------------------------------------------------------------

/// The known values of `s`, in order.
pub open spec fn known_values<T>(s: Seq<Option<T>>) -> Seq<T>
    decreases s.len(),
{
    if s.len() == 0 {
        Seq::empty()
    } else {
        match s.last() {
            Some(v) => known_values(s.drop_last()).push(v),
            None => known_values(s.drop_last()),
        }
    }
}

pub open spec fn sum_i64(s: Seq<i64>) -> int
    decreases s.len(),
{
    if s.len() == 0 {
        0
    } else {
        sum_i64(s.drop_last()) + s.last()
    }
}

pub open spec fn sum_u64(s: Seq<u64>) -> int
    decreases s.len(),
{
    if s.len() == 0 {
        0
    } else {
        sum_u64(s.drop_last()) + s.last()
    }
}

/// Every running total of `s` fits an `i64`.
pub open spec fn sums_fit_i64(s: Seq<i64>) -> bool {
    forall|k: int| 0 <= k <= s.len() ==> i64::MIN <= #[trigger] sum_i64(s.take(k)) <= i64::MAX
}

/// The total of the known size changes, or none when none is known.
pub fn signed_total(deltas: &[Option<i64>]) -> (r: Option<i64>)
    requires
        sums_fit_i64(known_values(deltas@)),
    ensures
        known_values(deltas@).len() == 0 <==> r is None,
        r matches Some(t) ==> t == sum_i64(known_values(deltas@)),
{
    let ghost kv = known_values(deltas@);
    let mut total: i64 = 0;
    let mut any = false;
    let mut i: usize = 0;
    assert(deltas@.take(0) =~= Seq::<Option<i64>>::empty());
    while i < deltas.len()
        invariant
            i <= deltas@.len(),
            kv == known_values(deltas@),
            sums_fit_i64(kv),
            kv.len() >= known_values(deltas@.take(i as int)).len(),
            kv.take(known_values(deltas@.take(i as int)).len() as int) == known_values(
                deltas@.take(i as int),
            ),
            total == sum_i64(known_values(deltas@.take(i as int))),
            any == (known_values(deltas@.take(i as int)).len() > 0),
        decreases deltas.len() - i,
    {
        proof {
            lemma_known_prefix(deltas@, i as int);
        }
        let ghost before = known_values(deltas@.take(i as int));
        match deltas[i] {
            Some(d) => {
                proof {
                    let k: int = before.len() as int + 1;
                    assert(kv.take(k) =~= before.push(d));
                    assert(kv.take(k).drop_last() =~= before);
                    assert(i64::MIN <= sum_i64(kv.take(k)) <= i64::MAX);
                }
                total = total + d;
                any = true;
            },
            None => {},
        }
        i = i + 1;
    }
    assert(deltas@.take(deltas@.len() as int) =~= deltas@);
    if any {
        Some(total)
    } else {
        None
    }
}

/// The known values of a prefix of `s` are a prefix of its known values.
proof fn lemma_known_prefix<T>(s: Seq<Option<T>>, i: int)
    requires
        0 <= i < s.len(),
    ensures
        known_values(s.take(i + 1)) == match s[i] {
            Some(v) => known_values(s.take(i)).push(v),
            None => known_values(s.take(i)),
        },
        known_values(s).len() >= known_values(s.take(i + 1)).len(),
        known_values(s).take(known_values(s.take(i + 1)).len() as int) == known_values(s.take(i + 1)),
    decreases s.len() - i,
{
    let t = s.take(i + 1);
    assert(t.drop_last() =~= s.take(i));
    assert(t.last() == s[i]);
    if i + 1 == s.len() {
        assert(s.take(i + 1) =~= s);
        assert(known_values(s).take(known_values(s).len() as int) =~= known_values(s));
    } else {
        lemma_known_prefix(s, i + 1);
        let k1 = known_values(s.take(i + 1));
        let k2 = known_values(s.take(i + 2));
        assert(k2 == match s[i + 1] {
            Some(v) => k1.push(v),
            None => k1,
        });
        assert(known_values(s).take(k1.len() as int) =~= k2.take(k1.len() as int));
        assert(k2.take(k1.len() as int) =~= k1);
    }
}

/// Every running total of `s` fits a `u64`.
pub open spec fn sums_fit_u64(s: Seq<u64>) -> bool {
    forall|k: int| 0 <= k <= s.len() ==> #[trigger] sum_u64(s.take(k)) <= u64::MAX
}

/// The total of the known sizes.
pub fn known_total(sizes: &[Option<u64>]) -> (r: u64)
    requires
        sums_fit_u64(known_values(sizes@)),
    ensures
        r == sum_u64(known_values(sizes@)),
{
    let ghost kv = known_values(sizes@);
    let mut total: u64 = 0;
    let mut i: usize = 0;
    assert(sizes@.take(0) =~= Seq::<Option<u64>>::empty());
    while i < sizes.len()
        invariant
            i <= sizes@.len(),
            kv == known_values(sizes@),
            sums_fit_u64(kv),
            kv.len() >= known_values(sizes@.take(i as int)).len(),
            kv.take(known_values(sizes@.take(i as int)).len() as int) == known_values(
                sizes@.take(i as int),
            ),
            total == sum_u64(known_values(sizes@.take(i as int))),
        decreases sizes.len() - i,
    {
        proof {
            lemma_known_prefix(sizes@, i as int);
        }
        let ghost before = known_values(sizes@.take(i as int));
        match sizes[i] {
            Some(d) => {
                proof {
                    let k: int = before.len() as int + 1;
                    assert(kv.take(k).drop_last() =~= before);
                    assert(sum_u64(kv.take(k)) <= u64::MAX);
                }
                total = total + d;
            },
            None => {},
        }
        i = i + 1;
    }
    assert(sizes@.take(sizes@.len() as int) =~= sizes@);
    total
}

/// The change from `old` to `new` bytes.
pub fn size_delta(old: u64, new: u64) -> (r: i64)
    requires
        old <= i64::MAX,
        new <= i64::MAX,
    ensures
        r == new - old,
{
    (new as i64) - (old as i64)
}

/// How one package's installed size changes in an upgrade.
#[derive(Debug, Clone, Copy, PartialEq, Eq)]
pub enum SizeChange {
    /// Both sizes are known: the signed change in bytes.
    Delta(i64),
    /// Only the size after the upgrade is known.
    New(u64),
    /// Only the size before the upgrade is known.
    Old(u64),
    /// Neither size is known, or one is too large to subtract.
    Unknown,
}

/// The size change of an upgrade entry whose sizes before and after are
/// `old` and `new`, where known.
pub fn size_change(old: Option<u64>, new: Option<u64>) -> (r: SizeChange)
    ensures
        match (old, new) {
            (Some(o), Some(n)) => if o <= i64::MAX && n <= i64::MAX {
                r matches SizeChange::Delta(d) && d == n - o
            } else {
                r is Unknown
            },
            (None, Some(n)) => r == SizeChange::New(n),
            (Some(o), None) => r == SizeChange::Old(o),
            (None, None) => r is Unknown,
        },
{
    match (old, new) {
        (Some(o), Some(n)) => {
            if o <= i64::MAX as u64 && n <= i64::MAX as u64 {
                SizeChange::Delta(size_delta(o, n))
            } else {
                SizeChange::Unknown
            }
        },
        (None, Some(n)) => SizeChange::New(n),
        (Some(o), None) => SizeChange::Old(o),
        (None, None) => SizeChange::Unknown,
    }
}

/// The note shown after an installed package's name for its provenance.
pub open spec fn provenance_mark_spec(p: Provenance) -> Seq<char> {
    match p {
        Provenance::SyncKnown => Seq::empty(),
        Provenance::Foreign => " (foreign)"@,
        Provenance::Inferred { source } => " (inferred: "@ + source@ + ")"@,
        Provenance::PacnixInstalled { source } => " (via pacnix: "@ + source@ + ")"@,
        Provenance::Unknown => " (unknown)"@,
    }
}

pub fn provenance_mark(p: &Provenance) -> (r: String)
    ensures
        r@ == provenance_mark_spec(*p),
{
    match p {
        Provenance::SyncKnown => String::new(),
        Provenance::Foreign => owned(" (foreign)"),
        Provenance::Inferred { source } => {
            let mut out = owned(" (inferred: ");
            push_str(&mut out, source.as_str());
            push_str(&mut out, ")");
            out
        },
        Provenance::PacnixInstalled { source } => {
            let mut out = owned(" (via pacnix: ");
            push_str(&mut out, source.as_str());
            push_str(&mut out, ")");
            out
        },
        Provenance::Unknown => owned(" (unknown)"),
    }
}

// ---------------------------------------------------------------------
// Reconciling provenance
// ---------------------------------------------------------------------

/// Whether the store may know where a package came from: a foreign
/// package with an install time, or an unknown one without.
pub open spec fn needs_lookup_spec(pkg: InstalledPackage) -> bool {
    (pkg.provenance is Foreign && pkg.installed_at is Some) || (pkg.provenance is Unknown
        && pkg.installed_at is None)
}

pub fn needs_source_lookup(pkg: &InstalledPackage) -> (r: bool)
    ensures
        r == needs_lookup_spec(*pkg),
{
    match pkg.provenance {
        Provenance::Foreign => pkg.installed_at.is_some(),
        Provenance::Unknown => pkg.installed_at.is_none(),
        _ => false,
    }
}

/// The provenance a package gets when installed state is reconciled: a
/// source the store recorded (`known`) makes it "installed by this tool";
/// otherwise a foreign pacman package whose exact name the AUR has is
/// inferred to come from the AUR; anything else keeps its provenance.
/// The result is the new source (none: unchanged) and whether it was
/// inferred.
pub open spec fn reconciled_spec(
    pkg: InstalledPackage,
    known: Option<Seq<char>>,
    from_alpm: bool,
    in_aur: bool,
) -> (Option<Seq<char>>, bool) {
    if needs_lookup_spec(pkg) && known is Some {
        (known, false)
    } else if pkg.provenance is Foreign && pkg.installed_at is Some && from_alpm && in_aur {
        (Some("aur"@), true)
    } else {
        (None, false)
    }
}

/// The reconciled provenance of `pkg` (see `reconciled_spec`) and whether
/// it was inferred.
pub fn reconciled_provenance(
    pkg: &InstalledPackage,
    known: Option<String>,
    from_alpm: bool,
    aur_names: &Vec<String>,
) -> (r: (Provenance, bool))
    ensures
        ({
            let in_aur = strings_view(aur_names@).contains(pkg.name@);
            let (src, inferred) = reconciled_spec(*pkg, opt_view(known), from_alpm, in_aur);
            &&& r.1 == inferred
            &&& match src {
                Some(s) => if inferred {
                    r.0 matches Provenance::Inferred { source } && source@ == s
                } else {
                    r.0 matches Provenance::PacnixInstalled { source } && source@ == s
                },
                None => r.0 == pkg.provenance,
            }
        }),
{
    let lookup = needs_source_lookup(pkg);
    if lookup {
        match known {
            Some(source) => {
                return (Provenance::PacnixInstalled { source }, false);
            },
            None => {},
        }
    }
    let foreign_dated = match pkg.provenance {
        Provenance::Foreign => pkg.installed_at.is_some(),
        _ => false,
    };
    if foreign_dated && from_alpm && crate::aur::contains_string(aur_names, &pkg.name) {
        proof {
            reveal_strlit("aur");
        }
        return (Provenance::Inferred { source: owned("aur") }, true);
    }
    (pkg.provenance.duplicate(), false)
}

/// The names of the foreign packages with an install time in `pkgs`.
pub open spec fn foreign_of(pkgs: Seq<InstalledPackage>) -> Seq<Seq<char>> {
    pkgs.filter(|p: InstalledPackage| p.provenance is Foreign && p.installed_at is Some).map_values(
        |p: InstalledPackage| p.name@,
    )
}

/// The foreign names of the scans of pacman backends that succeeded, scan
/// after scan.
pub open spec fn alpm_foreign(scans: Seq<(Source, Option<Vec<InstalledPackage>>)>) -> Seq<Seq<char>>
    decreases scans.len(),
{
    if scans.len() == 0 {
        Seq::empty()
    } else {
        alpm_foreign(scans.drop_last()) + match scans.last() {
            (Source::Alpm, Some(v)) => foreign_of(v@),
            _ => Seq::empty(),
        }
    }
}

/// The names to look up in the AUR when reconciling: the foreign packages
/// with an install time that the pacman backends reported, in scan order.
/// Failed scans (`None`) and other backends add nothing. The names come
/// back as a `Vec` rather than a `HashSet`: vstd specifies hash tables only
/// for keys it knows to hash consistently (integers and `bool`), not for
/// `String`.
pub fn alpm_foreign_names(scans: &Vec<(Source, Option<Vec<InstalledPackage>>)>) -> (r: Vec<String>)
    ensures
        strings_view(r@) == alpm_foreign(scans@),
{
    let mut out: Vec<String> = Vec::new();
    let mut i: usize = 0;
    while i < scans.len()
        invariant
            i <= scans@.len(),
            strings_view(out@) == alpm_foreign(scans@.take(i as int)),
        decreases scans.len() - i,
    {
        let ghost t = scans@.take(i + 1);
        assert(t.drop_last() =~= scans@.take(i as int));
        assert(t.last() == scans@[i as int]);
        match &scans[i] {
            (Source::Alpm, Some(pkgs)) => {
                let names = foreign_names(pkgs.as_slice());
                let mut k: usize = 0;
                let ghost base = strings_view(out@);
                while k < names.len()
                    invariant
                        k <= names@.len(),
                        strings_view(out@) == base + strings_view(names@).take(k as int),
                    decreases names.len() - k,
                {
                    let ghost before = strings_view(out@);
                    out.push(names[k].clone());
                    assert(strings_view(out@) =~= before.push(names@[k as int]@));
                    assert(strings_view(names@).take(k + 1) =~= strings_view(names@).take(
                        k as int,
                    ).push(names@[k as int]@));
                    k = k + 1;
                }
                assert(strings_view(names@).take(names@.len() as int) =~= strings_view(names@));
            },
            _ => {},
        }
        i = i + 1;
    }
    assert(scans@.take(scans@.len() as int) =~= scans@);
    out
}

/// The names of the foreign packages with an install time, in order.
pub fn foreign_names(pkgs: &[InstalledPackage]) -> (r: Vec<String>)
    ensures
        strings_view(r@) == pkgs@.filter(
            |p: InstalledPackage| p.provenance is Foreign && p.installed_at is Some,
        ).map_values(|p: InstalledPackage| p.name@),
{
    let ghost f = |p: InstalledPackage| p.provenance is Foreign && p.installed_at is Some;
    let mut out: Vec<String> = Vec::new();
    let mut i: usize = 0;
    assert(pkgs@.take(0).filter(f) =~= Seq::<InstalledPackage>::empty()) by {
        reveal(Seq::filter);
    }
    while i < pkgs.len()
        invariant
            i <= pkgs@.len(),
            f == (|p: InstalledPackage| p.provenance is Foreign && p.installed_at is Some),
            strings_view(out@) == pkgs@.take(i as int).filter(f).map_values(
                |p: InstalledPackage| p.name@,
            ),
        decreases pkgs.len() - i,
    {
        let ghost t = pkgs@.take(i + 1);
        assert(t.drop_last() =~= pkgs@.take(i as int));
        assert(t.last() == pkgs@[i as int]);
        assert(t.filter(f) == if f(t.last()) {
            t.drop_last().filter(f).push(t.last())
        } else {
            t.drop_last().filter(f)
        }) by {
            reveal(Seq::filter);
        }
        let keep = match pkgs[i].provenance {
            Provenance::Foreign => pkgs[i].installed_at.is_some(),
            _ => false,
        };
        if keep {
            let ghost before = strings_view(out@);
            out.push(pkgs[i].name.clone());
            assert(strings_view(out@) =~= before.push(pkgs@[i as int].name@));
            assert(t.filter(f).map_values(|p: InstalledPackage| p.name@) =~= pkgs@.take(
                i as int,
            ).filter(f).map_values(|p: InstalledPackage| p.name@).push(pkgs@[i as int].name@));
        }
        i = i + 1;
    }
    assert(pkgs@.take(pkgs@.len() as int) =~= pkgs@);
    out
}

/// The installed instances named `query`, in order.
pub fn installed_named(all: &Vec<InstalledPackage>, query: &str) -> (r: Vec<InstalledPackage>)
    ensures
        r@ == all@.filter(|p: InstalledPackage| p.name@ == query@),
{
    let ghost f = |p: InstalledPackage| p.name@ == query@;
    let mut out: Vec<InstalledPackage> = Vec::new();
    let mut i: usize = 0;
    assert(all@.take(0).filter(f) =~= Seq::<InstalledPackage>::empty()) by {
        reveal(Seq::filter);
    }
    while i < all.len()
        invariant
            i <= all@.len(),
            f == (|p: InstalledPackage| p.name@ == query@),
            out@ == all@.take(i as int).filter(f),
        decreases all.len() - i,
    {
        let ghost t = all@.take(i + 1);
        assert(t.drop_last() =~= all@.take(i as int));
        assert(t.last() == all@[i as int]);
        assert(t.filter(f) == if f(t.last()) {
            t.drop_last().filter(f).push(t.last())
        } else {
            t.drop_last().filter(f)
        }) by {
            reveal(Seq::filter);
        }
        if str_eq(all[i].name.as_str(), query) {
            out.push(all[i].duplicate());
        }
        i = i + 1;
    }
    assert(all@.take(all@.len() as int) =~= all@);
    out
}

// ---------------------------------------------------------------------
// Privilege
// ---------------------------------------------------------------------

/// How a plan's commands are launched: through the privilege command when
/// the plan needs privileges, directly otherwise.
pub fn context_for(plan: &TransactionPlan, privilege: &Vec<String>) -> (r: ExecutionContext)
    ensures
        plan.requires_privilege ==> (r.privilege matches Some(p) && p@ == privilege@),
        !plan.requires_privilege ==> r.privilege is None,
{
    if plan.requires_privilege {
        ExecutionContext { privilege: Some(crate::aur::copy_strings(privilege)) }
    } else {
        ExecutionContext { privilege: None }
    }
}

/// How privileges are acquired ahead of time: `sudo` and `sudo-rs`
/// validate their credentials with `-v` (after the command's own
/// arguments); any other tool is only looked up in `PATH` and prompts on
/// first use.
pub fn privilege_probe(privilege: &Vec<String>) -> (r: (String, Option<Vec<String>>))
    requires
        privilege@.len() > 0,
    ensures
        r.0@ == privilege@[0]@,
        (privilege@[0]@ == "sudo"@ || privilege@[0]@ == "sudo-rs"@) ==> (r.1 matches Some(a)
            && strings_view(a@) == strings_view(privilege@).skip(1).push("-v"@)),
        !(privilege@[0]@ == "sudo"@ || privilege@[0]@ == "sudo-rs"@) ==> r.1 is None,
{
    let program = privilege[0].clone();
    if str_eq(program.as_str(), "sudo") || str_eq(program.as_str(), "sudo-rs") {
        let mut args: Vec<String> = Vec::new();
        let mut i: usize = 1;
        while i < privilege.len()
            invariant
                1 <= i <= privilege@.len(),
                strings_view(args@) == strings_view(privilege@).subrange(1, i as int),
            decreases privilege.len() - i,
        {
            let ghost before = strings_view(args@);
            args.push(privilege[i].clone());
            assert(strings_view(args@) =~= before.push(privilege@[i as int]@));
            assert(strings_view(privilege@).subrange(1, i + 1) =~= strings_view(privilege@).subrange(
                1,
                i as int,
            ).push(privilege@[i as int]@));
            i = i + 1;
        }
        let ghost before = strings_view(args@);
        args.push(owned("-v"));
        assert(strings_view(args@) =~= before.push("-v"@));
        assert(strings_view(privilege@).subrange(1, privilege@.len() as int) =~= strings_view(
            privilege@,
        ).skip(1));
        (program, Some(args))
    } else {
        (program, None)
    }
}

} // verus!
