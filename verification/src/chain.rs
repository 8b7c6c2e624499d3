//! The AUR dependency walk: which AUR packages an install or upgrade
//! needs, in the order they are built, and the names the AUR knows.

use vstd::prelude::*;
use crate::aur::{
    AurBackend, AurPackage, AurView, aur_views, candidate_of, contains_string, copy_strings,
    dep_names_of, dep_names_spec, filter_outdated, outdated_filter, to_candidates, versions_answered,
};
use crate::model::{Candidate, TransactionOperation, TransactionPlan, candidates_view};
use crate::text::{lex_compare, lex_less, chars_of, opt_view, owned, push_str, str_eq, strings_view};

verus! {

/// The names of a sequence of package records.
pub open spec fn pkg_names(s: Seq<AurPackage>) -> Seq<Seq<char>> {
    s.map_values(|p: AurPackage| p.name@)
}

/// No name occurs twice.
pub open spec fn all_distinct(s: Seq<Seq<char>>) -> bool {
    forall|i: int, j: int| 0 <= i < j < s.len() ==> s[i] != s[j]
}

/// `items` joined by " -> ".
pub open spec fn join_arrows(items: Seq<Seq<char>>) -> Seq<char>
    decreases items.len(),
{
    if items.len() == 0 {
        Seq::empty()
    } else if items.len() == 1 {
        items[0]
    } else {
        join_arrows(items.drop_last()) + " -> "@ + items.last()
    }
}

/// `installed` answered "not installed" for a name.
pub open spec fn not_installed<G: Fn(&str) -> bool>(installed: &G, n: Seq<char>) -> bool {
    exists|s: &str| s@ == n && installed.ensures((s,), false)
}

/// `installed` answered "installed" for a name.
pub open spec fn reported_installed<G: Fn(&str) -> bool>(installed: &G, n: Seq<char>) -> bool {
    exists|s: &str| s@ == n && installed.ensures((s,), true)
}

/// The lookup of names failed with `e`.
pub open spec fn lookup_failed<F: Fn(&[String]) -> Result<Vec<AurPackage>, String>>(
    info: &F,
    e: String,
) -> bool {
    exists|c: &[String]|
        1 <= c@.len() <= 50 && info.ensures((c,), Err::<Vec<AurPackage>, String>(e))
}

/// The lookup of `names` in chunks failed with `e` at chunk `k`, every
/// chunk before it having been answered with `answers`.
pub open spec fn failed_at<F: Fn(&[String]) -> Result<Vec<AurPackage>, String>>(
    info: &F,
    names: Seq<String>,
    k: int,
    answers: Seq<Seq<AurPackage>>,
    e: String,
) -> bool {
    &&& 0 <= k < chunk_count(names.len() as int)
    &&& answers.len() == k
    &&& forall|j: int| 0 <= j < k ==> chunk_answered(info, names, j, #[trigger] answers[j])
    &&& exists|c: &[String]|
        c@ == chunk_of(names, k) && info.ensures((c,), Err::<Vec<AurPackage>, String>(e))
}

/// The lookup of `names` in chunks stopped at the first chunk that
/// failed, with its error `e`.
pub open spec fn chunks_failed<F: Fn(&[String]) -> Result<Vec<AurPackage>, String>>(
    info: &F,
    names: Seq<String>,
    e: String,
) -> bool {
    exists|k: int, answers: Seq<Seq<AurPackage>>| #[trigger] failed_at(info, names, k, answers, e)
}

/// `items` joined by " -> ".
fn join_with_arrows(items: &Vec<String>) -> (r: String)
    ensures
        r@ == join_arrows(strings_view(items@)),
{
    let ghost iv = strings_view(items@);
    let mut out = String::new();
    let mut i: usize = 0;
    proof {
        assert(iv.take(0) =~= Seq::<Seq<char>>::empty());
        reveal_strlit("");
    }
    while i < items.len()
        invariant
            i <= items@.len(),
            iv == strings_view(items@),
            out@ == join_arrows(iv.take(i as int)),
        decreases items.len() - i,
    {
        proof {
            let t = iv.take(i + 1);
            assert(t.drop_last() =~= iv.take(i as int));
            assert(t.last() == items@[i as int]@);
            if i == 0 {
                assert(iv.take(0) =~= Seq::<Seq<char>>::empty());
            }
        }
        if i > 0 {
            push_str(&mut out, " -> ");
        }
        push_str(&mut out, items[i].as_str());
        i = i + 1;
    }
    assert(iv.take(iv.len() as int) =~= iv);
    out
}

/// The last record of `found` named `name`, as a map keyed by name would
/// keep it.
fn last_named(found: &Vec<AurPackage>, name: &String) -> (r: Option<usize>)
    ensures
        r matches Some(i) ==> i < found@.len() && found@[i as int].name@ == name@ && forall|k: int|
            i < k < found@.len() ==> found@[k].name@ != name@,
        r is None ==> forall|k: int| 0 <= k < found@.len() ==> found@[k].name@ != name@,
{
    let mut i: usize = found.len();
    while i > 0
        invariant
            i <= found@.len(),
            forall|k: int| i <= k < found@.len() ==> found@[k].name@ != name@,
        decreases i,
    {
        i = i - 1;
        if str_eq(found[i].name.as_str(), name.as_str()) {
            return Some(i);
        }
    }
    None
}

/// The dependencies `deps` that the walk takes next: those reported not
/// installed and not seen before, in order.
fn add_dependencies<G: Fn(&str) -> bool>(
    deps: &Vec<String>,
    installed: &G,
    seen: &mut Vec<String>,
    next: &mut Vec<String>,
)
    requires
        forall|s: &str| installed.requires((s,)),
    ensures
        ({
            let added = strings_view(final(next)@.skip(old(next)@.len() as int));
            &&& final(next)@.len() >= old(next)@.len()
            &&& final(next)@.take(old(next)@.len() as int) == old(next)@
            &&& strings_view(final(seen)@) == strings_view(old(seen)@) + added
            &&& forall|q: int|
                0 <= q < added.len() ==> strings_view(deps@).contains(added[q]) && not_installed(
                    installed,
                    added[q],
                ) && !strings_view(old(seen)@).contains(added[q])
            &&& all_distinct(added)
            &&& forall|j: int|
                0 <= j < deps@.len() ==> reported_installed(installed, #[trigger] deps@[j]@) || (
                strings_view(old(seen)@).contains(deps@[j]@) || added.contains(deps@[j]@))
        }),
{
    let ghost sv0 = strings_view(seen@);
    let ghost next0 = next@;
    let ghost n0 = next@.len();
    let mut i: usize = 0;
    assert(next@.skip(n0 as int) =~= Seq::<String>::empty());
    assert(strings_view(seen@) =~= sv0 + strings_view(next@.skip(n0 as int)));
    while i < deps.len()
        invariant
            i <= deps@.len(),
            forall|s: &str| installed.requires((s,)),
            n0 <= next@.len(),
            next@.take(n0 as int) == next0,
            strings_view(seen@) == sv0 + strings_view(next@.skip(n0 as int)),
            forall|q: int|
                0 <= q < strings_view(next@.skip(n0 as int)).len() ==> strings_view(
                    deps@,
                ).contains(#[trigger] strings_view(next@.skip(n0 as int))[q]) && not_installed(
                    installed,
                    strings_view(next@.skip(n0 as int))[q],
                ) && !sv0.contains(strings_view(next@.skip(n0 as int))[q]),
            all_distinct(strings_view(next@.skip(n0 as int))),
            forall|j: int|
                0 <= j < i ==> reported_installed(installed, #[trigger] deps@[j]@) || (sv0.contains(
                    deps@[j]@,
                ) || strings_view(next@.skip(n0 as int)).contains(deps@[j]@)),
        decreases deps.len() - i,
    {
        let d = &deps[i];
        let ds: &str = d.as_str();
        let inst = installed(ds);
        let ghost added_before = strings_view(next@.skip(n0 as int));
        if inst {
            assert(installed.ensures((ds,), true));
            assert(reported_installed(installed, deps@[i as int]@));
        } else {
            let seen_has = contains_string(seen, d);
            if seen_has {
                proof {
                    let sv = strings_view(seen@);
                    let w = choose|w: int| 0 <= w < sv.len() && sv[w] == d@;
                    if w < sv0.len() {
                        assert(sv0[w] == d@);
                        assert(sv0.contains(deps@[i as int]@));
                    } else {
                        assert(added_before[w - sv0.len()] == d@);
                        assert(added_before.contains(deps@[i as int]@));
                    }
                }
            } else {
                let ghost added0 = strings_view(next@.skip(n0 as int));
                let ghost seen0 = strings_view(seen@);
                seen.push(d.clone());
                next.push(d.clone());
                proof {
                    let added = strings_view(next@.skip(n0 as int));
                    assert(added =~= added0.push(d@));
                    assert(strings_view(seen@) =~= seen0.push(d@));
                    assert(strings_view(deps@)[i as int] == d@);
                    assert(installed.ensures((ds,), false));
                    assert(not_installed(installed, d@));
                    assert forall|q: int| 0 <= q < added0.len() implies added0[q] != d@ by {
                        assert(seen0.contains(added0[q])) by {
                            assert(seen0[sv0.len() + q] == added0[q]);
                        }
                    }
                    assert(!sv0.contains(d@)) by {
                        if sv0.contains(d@) {
                            let k = choose|k: int| 0 <= k < sv0.len() && sv0[k] == d@;
                            assert(seen0[k] == d@);
                        }
                    }
                    assert(next@.take(n0 as int) =~= next0);
                    assert(added[added.len() - 1] == deps@[i as int]@);
                    assert forall|j: int| 0 <= j < i implies added0.contains(#[trigger] deps@[j]@)
                        ==> added.contains(deps@[j]@) by {
                        if added0.contains(deps@[j]@) {
                            let w = choose|w: int| 0 <= w < added0.len() && added0[w] == deps@[j]@;
                            assert(added[w] == deps@[j]@);
                        }
                    }
                }
            }
        }
        i = i + 1;
    }
}

/// The `k`-th chunk of at most 50 names.
pub open spec fn chunk_of(names: Seq<String>, k: int) -> Seq<String> {
    names.subrange(
        50 * k,
        if 50 * k + 50 <= names.len() {
            50 * k + 50
        } else {
            names.len() as int
        },
    )
}

/// How many chunks of at most 50 hold `n` names.
pub open spec fn chunk_count(n: int) -> int {
    (n + 49) / 50
}

/// `found` is a successful answer of `info` to the `k`-th chunk of `names`.
pub open spec fn chunk_answered<F: Fn(&[String]) -> Result<Vec<AurPackage>, String>>(
    info: &F,
    names: Seq<String>,
    k: int,
    found: Seq<AurPackage>,
) -> bool {
    exists|c: &[String], v: Vec<AurPackage>|
        c@ == chunk_of(names, k) && v@ == found && info.ensures((c,), Ok::<Vec<AurPackage>, String>(v))
}

/// `answers[k]` is a successful answer of `info` to the `k`-th chunk of
/// `names`, for every chunk.
pub open spec fn answered_chunks<F: Fn(&[String]) -> Result<Vec<AurPackage>, String>>(
    info: &F,
    names: Seq<String>,
    answers: Seq<Seq<AurPackage>>,
) -> bool {
    &&& answers.len() == chunk_count(names.len() as int)
    &&& forall|k: int| 0 <= k < answers.len() ==> chunk_answered(info, names, k, #[trigger] answers[k])
}

/// The answers one after the other.
pub open spec fn joined(answers: Seq<Seq<AurPackage>>) -> Seq<AurPackage>
    decreases answers.len(),
{
    if answers.len() == 0 {
        Seq::empty()
    } else {
        joined(answers.drop_last()) + answers.last()
    }
}

/// Looks `names` up in chunks of at most 50, as one request per chunk,
/// and gathers the records found.
fn lookup_in_chunks<F: Fn(&[String]) -> Result<Vec<AurPackage>, String>>(
    names: &Vec<String>,
    info: &F,
) -> (r: Result<Vec<AurPackage>, String>)
    requires
        forall|c: &[String]| info.requires((c,)),
    ensures
        r matches Err(e) ==> lookup_failed(info, e) && chunks_failed(info, names@, e),
        r matches Ok(found) ==> exists|answers: Seq<Seq<AurPackage>>|
            answered_chunks(info, names@, answers) && found@ == joined(answers),
{
    let n = names.len();
    let mut found: Vec<AurPackage> = Vec::new();
    let ghost mut answers: Seq<Seq<AurPackage>> = Seq::empty();
    let mut i: usize = 0;
    while i < n
        invariant
            n == names@.len(),
            i <= n,
            i == 50 * answers.len() || (i == n && 50 * answers.len() > n),
            answers.len() == 0 || 50 * (answers.len() - 1) < n,
            forall|c: &[String]| info.requires((c,)),
            forall|k: int|
                0 <= k < answers.len() ==> chunk_answered(info, names@, k, #[trigger] answers[k]),
            found@ == joined(answers),
        decreases n - i,
    {
        let end: usize = if n - i > 50 {
            i + 50
        } else {
            n
        };
        let mut chunk: Vec<String> = Vec::new();
        let mut j: usize = i;
        while j < end
            invariant
                i <= j <= end <= names@.len(),
                chunk@ == names@.subrange(i as int, j as int),
            decreases end - j,
        {
            chunk.push(names[j].clone());
            assert(chunk@ =~= names@.subrange(i as int, j + 1));
            j = j + 1;
        }
        assert(chunk@ == chunk_of(names@, answers.len() as int));
        let cs: &[String] = chunk.as_slice();
        let res = info(cs);
        match res {
            Ok(pkgs) => {
                let ghost before = answers;
                let ghost f0 = found@;
                let ghost pv = pkgs;
                proof {
                    answers = answers.push(pkgs@);
                    assert(answers.drop_last() =~= before);
                    assert(info.ensures((cs,), Ok::<Vec<AurPackage>, String>(pv)));
                    assert(chunk_answered(info, names@, before.len() as int, pv@));
                    assert forall|k: int| 0 <= k < answers.len() implies chunk_answered(
                        info,
                        names@,
                        k,
                        #[trigger] answers[k],
                    ) by {
                        if k < before.len() {
                            assert(answers[k] == before[k]);
                        } else {
                            assert(answers[k] == pv@);
                        }
                    }
                }
                let mut pkgs = pkgs;
                found.append(&mut pkgs);
                assert(found@ =~= f0 + answers.last());
            },
            Err(e) => {
                proof {
                    assert(info.ensures((cs,), Err::<Vec<AurPackage>, String>(e)));
                    let k = answers.len() as int;
                    assert(k < chunk_count(n as int)) by (nonlinear_arith)
                        requires
                            i == 50 * k,
                            i < n,
                    ;
                    assert(1 <= cs@.len() <= 50);
                    assert(failed_at(info, names@, k, answers, e));
                }
                return Err(e);
            },
        }
        i = end;
    }
    proof {
        let m = answers.len() as int;
        assert(m == chunk_count(n as int)) by (nonlinear_arith)
            requires
                n as int == 50 * m || 50 * m > n,
                m == 0 || 50 * (m - 1) < n,
                n >= 0,
        ;
        assert(answered_chunks(info, names@, answers));
    }
    Ok(found)
}

/// Some package of `pkgs` depends on `x`.
pub open spec fn needed_in(pkgs: Seq<AurPackage>, x: Seq<char>) -> bool {
    exists|t: int| 0 <= t < pkgs.len() && #[trigger] dep_names_spec(pkgs[t]@).contains(x)
}

/// Some package of `order` after position `i` depends on `x`.
pub open spec fn needed_after(order: Seq<AurPackage>, i: int, x: Seq<char>) -> bool {
    exists|j: int| i < j < order.len() && #[trigger] dep_names_spec(order[j]@).contains(x)
}

/// Every package of the chain that is not a root is a dependency of a
/// package that comes after it.
pub open spec fn needed_by_later(order: Seq<AurPackage>, roots: Seq<Seq<char>>) -> bool {
    forall|i: int|
        0 <= i < order.len() && !roots.contains(#[trigger] order[i].name@) ==> needed_after(
            order,
            i,
            order[i].name@,
        )
}

/// Every package of the chain that is not a root was reported as not
/// installed.
pub open spec fn skips_installed<G: Fn(&str) -> bool>(
    order: Seq<AurPackage>,
    roots: Seq<Seq<char>>,
    installed: &G,
) -> bool {
    forall|i: int|
        0 <= i < order.len() && !roots.contains(#[trigger] order[i].name@) ==> not_installed(
            installed,
            order[i].name@,
        )
}

/// Root names come after all other names.
pub open spec fn roots_last(names: Seq<Seq<char>>, roots: Seq<Seq<char>>) -> bool {
    forall|i: int, j: int|
        0 <= i < j < names.len() && roots.contains(#[trigger] names[i]) ==> roots.contains(
            #[trigger] names[j],
        )
}

/// Root names come in the order of `roots`.
pub open spec fn roots_in_order(names: Seq<Seq<char>>, roots: Seq<Seq<char>>) -> bool {
    forall|i: int, j: int, a: int, b: int|
        #![trigger names[i], names[j], roots[a], roots[b]]
        0 <= i < j < names.len() && 0 <= a < roots.len() && 0 <= b < roots.len() && roots[a]
            == names[i] && roots[b] == names[j] ==> a < b
}

/// What holds of the records the walk gathers, deepest level first: with
/// distinct roots no name occurs twice and the roots come last, in the
/// order given; every other record is a dependency of a later one and was
/// reported as not installed.
pub open spec fn walk_laws<G: Fn(&str) -> bool>(
    order: Seq<AurPackage>,
    roots: Seq<Seq<char>>,
    installed: &G,
) -> bool {
    &&& all_distinct(roots) ==> all_distinct(pkg_names(order))
    &&& needed_by_later(order, roots)
    &&& skips_installed(order, roots, installed)
    &&& roots_last(pkg_names(order), roots)
    &&& all_distinct(roots) ==> roots_in_order(pkg_names(order), roots)
}

/// The state of the walk between rounds: `names` are the frontier's names,
/// `order` the chain so far (deepest level first), `seen` every name taken
/// so far; `first` holds before the first round.
pub open spec fn walk_state<G: Fn(&str) -> bool>(
    roots: Seq<Seq<char>>,
    names: Seq<Seq<char>>,
    order: Seq<AurPackage>,
    seen: Seq<Seq<char>>,
    first: bool,
    installed: &G,
) -> bool {
    &&& forall|x: Seq<char>| roots.contains(x) ==> seen.contains(x)
    &&& forall|k: int| 0 <= k < names.len() ==> seen.contains(#[trigger] names[k])
    &&& forall|i: int| 0 <= i < order.len() ==> seen.contains(#[trigger] order[i].name@)
    &&& all_distinct(roots) ==> all_distinct(names + pkg_names(order))
    &&& first ==> names == roots && order.len() == 0
    &&& !first ==> forall|k: int|
        0 <= k < names.len() ==> !roots.contains(#[trigger] names[k]) && needed_in(order, names[k])
            && not_installed(installed, names[k])
    &&& walk_laws(order, roots, installed)
}

/// One round of the walk keeps its state: the packages found for the
/// frontier (`level`, at the frontier positions `idx`) go before the chain,
/// and the newly reached dependencies `next` become the frontier.
proof fn lemma_walk_round<G: Fn(&str) -> bool>(
    roots: Seq<Seq<char>>,
    names: Seq<Seq<char>>,
    order: Seq<AurPackage>,
    seen: Seq<Seq<char>>,
    first: bool,
    installed: &G,
    level: Seq<AurPackage>,
    idx: Seq<int>,
    next: Seq<Seq<char>>,
)
    requires
        walk_state(roots, names, order, seen, first, installed),
        idx.len() == level.len(),
        forall|a: int, b: int| 0 <= a < b < idx.len() ==> idx[a] < idx[b],
        forall|t: int|
            0 <= t < idx.len() ==> 0 <= #[trigger] idx[t] < names.len() && level[t].name@
                == names[idx[t]],
        forall|q: int|
            0 <= q < next.len() ==> not_installed(installed, #[trigger] next[q]) && !seen.contains(
                next[q],
            ) && needed_in(level, next[q]),
        all_distinct(next),
    ensures
        walk_state(roots, next, level + order, seen + next, false, installed),
{
    let o2 = level + order;
    let s2 = seen + next;
    let on = pkg_names(order);
    let ln = pkg_names(level);
    let on2 = pkg_names(o2);
    let ll = level.len() as int;
    assert(on2 =~= ln + on);
    assert forall|x: Seq<char>| seen.contains(x) implies s2.contains(x) by {
        let k = choose|k: int| 0 <= k < seen.len() && seen[k] == x;
        assert(s2[k] == x);
    }
    assert forall|t: int| 0 <= t < ll implies #[trigger] ln[t] == names[idx[t]] && seen.contains(
        ln[t],
    ) by {
        assert(seen.contains(names[idx[t]]));
    }
    assert forall|i: int| 0 <= i < on.len() implies seen.contains(#[trigger] on[i]) by {
        assert(seen.contains(order[i].name@));
    }
    // Everything reached is in `seen + next`.
    assert forall|x: Seq<char>| roots.contains(x) implies s2.contains(x) by {}
    assert forall|k: int| 0 <= k < next.len() implies s2.contains(#[trigger] next[k]) by {
        assert(s2[seen.len() + k] == next[k]);
    }
    assert forall|i: int| 0 <= i < o2.len() implies s2.contains(#[trigger] o2[i].name@) by {
        assert(o2[i].name@ == on2[i]);
        if i < ll {
            assert(seen.contains(ln[i]));
        } else {
            assert(on2[i] == on[i - ll]);
            assert(seen.contains(on[i - ll]));
        }
    }
    // Distinct names.
    if all_distinct(roots) {
        let fo = names + on;
        assert(all_distinct(fo));
        assert forall|a: int, b: int| 0 <= a < b < on2.len() implies on2[a] != on2[b] by {
            if b < ll {
                assert(idx[a] < idx[b]);
                assert(fo[idx[a]] == ln[a]);
                assert(fo[idx[b]] == ln[b]);
            } else if a < ll {
                assert(fo[idx[a]] == ln[a]);
                assert(fo[names.len() + (b - ll)] == on[b - ll]);
            } else {
                assert(fo[names.len() + (a - ll)] == on[a - ll]);
                assert(fo[names.len() + (b - ll)] == on[b - ll]);
            }
        }
        let nf = next + on2;
        assert forall|a: int, b: int| 0 <= a < b < nf.len() implies nf[a] != nf[b] by {
            if b < next.len() {
            } else if a < next.len() {
                let i = b - next.len();
                assert(nf[b] == on2[i]);
                if i < ll {
                    assert(seen.contains(ln[i]));
                } else {
                    assert(seen.contains(on[i - ll]));
                }
            } else {
                assert(nf[a] == on2[a - next.len()]);
                assert(nf[b] == on2[b - next.len()]);
            }
        }
        assert(all_distinct(nf));
        assert(all_distinct(on2));
    }
    // The new frontier: dependencies of the new level, none of them a root.
    assert forall|k: int| 0 <= k < next.len() implies !roots.contains(#[trigger] next[k])
        && needed_in(o2, next[k]) && not_installed(installed, next[k]) by {
        let t = choose|t: int| 0 <= t < level.len() && #[trigger] dep_names_spec(level[t]@).contains(
            next[k],
        );
        assert(o2[t] == level[t]);
        assert(dep_names_spec(o2[t]@).contains(next[k]));
    }
    // Which level names are roots.
    assert forall|t: int| 0 <= t < ll implies (first ==> roots.contains(#[trigger] ln[t])) && (
    !first ==> !roots.contains(ln[t])) by {
        assert(ln[t] == names[idx[t]]);
        if first {
            assert(roots[idx[t]] == ln[t]);
        }
    }
    // Every non-root is needed by a later package.
    assert forall|i: int|
        0 <= i < o2.len() && !roots.contains(#[trigger] o2[i].name@) implies needed_after(
        o2,
        i,
        o2[i].name@,
    ) by {
        assert(o2[i].name@ == on2[i]);
        if i < ll {
            assert(ln[i] == on2[i]);
            assert(!first);
            assert(needed_in(order, names[idx[i]]));
            let j = choose|j: int| 0 <= j < order.len() && #[trigger] dep_names_spec(order[j]@).contains(
                names[idx[i]],
            );
            assert(o2[ll + j] == order[j]);
            assert(dep_names_spec(o2[ll + j]@).contains(o2[i].name@));
        } else {
            assert(o2[i] == order[i - ll]);
            assert(needed_after(order, i - ll, order[i - ll].name@));
            let j = choose|j: int| i - ll < j < order.len() && #[trigger] dep_names_spec(order[j]@).contains(
                order[i - ll].name@,
            );
            assert(o2[ll + j] == order[j]);
            assert(dep_names_spec(o2[ll + j]@).contains(o2[i].name@));
        }
    }
    // Every non-root was reported as not installed.
    assert forall|i: int|
        0 <= i < o2.len() && !roots.contains(#[trigger] o2[i].name@) implies not_installed(
        installed,
        o2[i].name@,
    ) by {
        assert(o2[i].name@ == on2[i]);
        if i < ll {
            assert(ln[i] == on2[i]);
            assert(not_installed(installed, names[idx[i]]));
        } else {
            assert(o2[i] == order[i - ll]);
        }
    }
    // Roots come last, in the order given.
    assert forall|i: int, j: int|
        0 <= i < j < on2.len() && roots.contains(#[trigger] on2[i]) implies roots.contains(
        #[trigger] on2[j],
    ) by {
        if first {
            assert(on.len() == 0);
            assert(ln[j] == on2[j]);
        } else {
            if i < ll {
                assert(ln[i] == on2[i]);
            } else {
                assert(on2[i] == on[i - ll]);
                assert(on2[j] == on[j - ll]);
            }
        }
    }
    if all_distinct(roots) {
        assert forall|i: int, j: int, a: int, b: int|
            #![trigger on2[i], on2[j], roots[a], roots[b]]
            0 <= i < j < on2.len() && 0 <= a < roots.len() && 0 <= b < roots.len() && roots[a]
                == on2[i] && roots[b] == on2[j] implies a < b by {
            if first {
                assert(on.len() == 0);
                assert(ln[i] == on2[i] && ln[j] == on2[j]);
                assert(roots[idx[i]] == on2[i]);
                assert(roots[idx[j]] == on2[j]);
                assert(idx[i] < idx[j]);
            } else {
                if i < ll {
                    assert(ln[i] == on2[i]);
                    assert(roots.contains(on2[i]));
                } else {
                    assert(on2[i] == on[i - ll]);
                    assert(on2[j] == on[j - ll]);
                }
            }
        }
    }
}

/// One round of the walk over `frontier`, given the records the lookup
/// found: the packages found for the frontier, in frontier order, and the
/// dependencies they lead to.
fn walk_level<G: Fn(&str) -> bool>(
    frontier: &Vec<String>,
    found: &Vec<AurPackage>,
    installed: &G,
    seen: &mut Vec<String>,
) -> (r: (Vec<AurPackage>, Vec<String>, Ghost<Seq<int>>))
    requires
        forall|s: &str| installed.requires((s,)),
    ensures
        ({
            let (level, next, idx) = r;
            let nn = strings_view(next@);
            &&& idx@.len() == level@.len()
            &&& forall|a: int, b: int| 0 <= a < b < idx@.len() ==> idx@[a] < idx@[b]
            &&& forall|t: int|
                0 <= t < idx@.len() ==> 0 <= #[trigger] idx@[t] < frontier@.len()
                    && level@[t].name@ == strings_view(frontier@)[idx@[t]]
            &&& strings_view(final(seen)@) == strings_view(old(seen)@) + nn
            &&& forall|q: int|
                0 <= q < nn.len() ==> not_installed(installed, #[trigger] nn[q])
                    && !strings_view(old(seen)@).contains(nn[q]) && needed_in(level@, nn[q])
            &&& all_distinct(nn)
            &&& forall|t: int| 0 <= t < level@.len() ==> aur_views(found@).contains(#[trigger] level@[t]@)
            &&& forall|k: int|
                0 <= k < frontier@.len() ==> pkg_names(level@).contains(
                    #[trigger] strings_view(frontier@)[k],
                ) || !pkg_names(found@).contains(strings_view(frontier@)[k])
            &&& forall|t: int, d: Seq<char>|
                0 <= t < level@.len() && #[trigger] dep_names_spec(level@[t]@).contains(d)
                    ==> reported_installed(installed, d) || strings_view(final(seen)@).contains(d)
        }),
{
    let ghost sv0 = strings_view(seen@);
    let ghost fnames = strings_view(frontier@);
    let mut level: Vec<AurPackage> = Vec::new();
    let mut next: Vec<String> = Vec::new();
    let ghost mut idx: Seq<int> = Seq::empty();
    let mut k: usize = 0;
    assert(strings_view(seen@) =~= sv0 + strings_view(next@));
    while k < frontier.len()
        invariant
            k <= frontier@.len(),
            fnames == strings_view(frontier@),
            forall|s: &str| installed.requires((s,)),
            idx.len() == level@.len(),
            forall|a: int, b: int| 0 <= a < b < idx.len() ==> idx[a] < idx[b],
            forall|t: int|
                0 <= t < idx.len() ==> 0 <= #[trigger] idx[t] < k && level@[t].name@
                    == fnames[idx[t]],
            strings_view(seen@) == sv0 + strings_view(next@),
            forall|q: int|
                0 <= q < next@.len() ==> not_installed(
                    installed,
                    #[trigger] strings_view(next@)[q],
                ) && !sv0.contains(strings_view(next@)[q]) && needed_in(
                    level@,
                    strings_view(next@)[q],
                ),
            all_distinct(strings_view(next@)),
            forall|t: int| 0 <= t < level@.len() ==> aur_views(found@).contains(#[trigger] level@[t]@),
            forall|k2: int|
                0 <= k2 < k ==> pkg_names(level@).contains(#[trigger] fnames[k2]) || !pkg_names(
                    found@,
                ).contains(fnames[k2]),
            forall|t: int, d: Seq<char>|
                0 <= t < level@.len() && #[trigger] dep_names_spec(level@[t]@).contains(d)
                    ==> reported_installed(installed, d) || strings_view(seen@).contains(d),
        decreases frontier.len() - k,
    {
        let name = &frontier[k];
        let ghost lv_start = level@;
        match last_named(found, name) {
            None => {
                proof {
                    assert(fnames[k as int] == name@);
                    if pkg_names(found@).contains(name@) {
                        let w = choose|w: int| 0 <= w < pkg_names(found@).len() && pkg_names(found@)[w] == name@;
                        assert(found@[w].name@ == name@);
                    }
                }
            },
            Some(j) => {
                let pkg = found[j].duplicate();
                let deps = dep_names_of(&pkg);
                let ghost level0 = level@;
                let ghost next0 = next@;
                let ghost seen0 = strings_view(seen@);
                level.push(pkg);
                proof {
                    idx = idx.push(k as int);
                    assert(fnames[k as int] == name@);
                    assert forall|t: int| 0 <= t < level@.len() implies aur_views(found@).contains(
                        #[trigger] level@[t]@,
                    ) by {
                        if t < level0.len() {
                            assert(level@[t] == level0[t]);
                        } else {
                            assert(level@[t]@ == aur_views(found@)[j as int]);
                        }
                    }
                }
                let ghost sv_mid = strings_view(seen@);
                add_dependencies(&deps, installed, seen, &mut next);
                proof {
                    let added = strings_view(next@.skip(next0.len() as int));
                    let svn = strings_view(seen@);
                    assert(svn == sv_mid + added);
                    assert(pkg_names(level@)[level@.len() - 1] == name@);
                    assert(fnames[k as int] == name@);
                    assert forall|k2: int| 0 <= k2 < k + 1 implies pkg_names(level@).contains(
                        #[trigger] fnames[k2],
                    ) || !pkg_names(found@).contains(fnames[k2]) by {
                        if k2 < k && pkg_names(level0).contains(fnames[k2]) {
                            let w = choose|w: int| 0 <= w < pkg_names(level0).len() && pkg_names(level0)[w] == fnames[k2];
                            assert(pkg_names(level@)[w] == fnames[k2]);
                        }
                    }
                    assert forall|t: int, d: Seq<char>|
                        0 <= t < level@.len() && #[trigger] dep_names_spec(level@[t]@).contains(d)
                        implies reported_installed(installed, d) || svn.contains(d) by {
                        if t < level0.len() {
                            assert(level@[t] == level0[t]);
                            if sv_mid.contains(d) {
                                let w = choose|w: int| 0 <= w < sv_mid.len() && sv_mid[w] == d;
                                assert(svn[w] == d);
                            }
                        } else {
                            assert(level@[t]@ == pkg@);
                            let w = choose|w: int| 0 <= w < dep_names_spec(pkg@).len() && dep_names_spec(pkg@)[w] == d;
                            assert(strings_view(deps@)[w] == d);
                            assert(deps@[w]@ == d);
                            if sv_mid.contains(d) {
                                let w2 = choose|w2: int| 0 <= w2 < sv_mid.len() && sv_mid[w2] == d;
                                assert(svn[w2] == d);
                            } else if added.contains(d) {
                                let w2 = choose|w2: int| 0 <= w2 < added.len() && added[w2] == d;
                                assert(svn[sv_mid.len() + w2] == d);
                            }
                        }
                    }
                    let nn = strings_view(next@);
                    let nn0 = strings_view(next0);
                    assert(nn =~= nn0 + added) by {
                        assert(next@ =~= next0 + next@.skip(next0.len() as int));
                    }
                    assert(strings_view(seen@) =~= sv0 + nn);
                    let t = level@.len() - 1;
                    assert(level@[t]@ == pkg@);
                    assert forall|q: int| 0 <= q < nn.len() implies not_installed(
                        installed,
                        #[trigger] nn[q],
                    ) && !sv0.contains(nn[q]) && needed_in(level@, nn[q]) by {
                        if q < nn0.len() {
                            assert(nn[q] == nn0[q]);
                            assert(needed_in(level0, nn0[q]));
                            let t0 = choose|t0: int|
                                0 <= t0 < level0.len() && #[trigger] dep_names_spec(
                                    level0[t0]@,
                                ).contains(nn0[q]);
                            assert(level@[t0] == level0[t0]);
                            assert(dep_names_spec(level@[t0]@).contains(nn[q]));
                        } else {
                            let a = q - nn0.len();
                            assert(nn[q] == added[a]);
                            assert(!seen0.contains(added[a]));
                            if sv0.contains(added[a]) {
                                let w = choose|w: int| 0 <= w < sv0.len() && sv0[w] == added[a];
                                assert(seen0[w] == added[a]);
                            }
                            assert(dep_names_spec(level@[t]@).contains(nn[q]));
                        }
                    }
                    assert forall|a: int, b: int| 0 <= a < b < nn.len() implies nn[a] != nn[b] by {
                        if b >= nn0.len() && a < nn0.len() {
                            assert(seen0[sv0.len() + a] == nn0[a]);
                            assert(seen0.contains(nn[a]));
                            assert(nn[b] == added[b - nn0.len()]);
                        } else if b >= nn0.len() {
                            assert(nn[a] == added[a - nn0.len()]);
                            assert(nn[b] == added[b - nn0.len()]);
                        }
                    }
                }
            },
        }
        k = k + 1;
    }
    (level, next, Ghost(idx))
}

/// `p` is a record that `info` gave in a successful answer.
pub open spec fn from_lookup<F: Fn(&[String]) -> Result<Vec<AurPackage>, String>>(
    info: &F,
    p: AurView,
) -> bool {
    exists|c: &[String], v: Vec<AurPackage>|
        1 <= c@.len() <= 50 && info.ensures((c,), Ok::<Vec<AurPackage>, String>(v)) && aur_views(
            v@,
        ).contains(p)
}

/// Every chunk of a lookup holds between 1 and 50 names.
proof fn lemma_chunk_size(names: Seq<String>, k: int)
    requires
        0 <= k < chunk_count(names.len() as int),
    ensures
        1 <= chunk_of(names, k).len() <= 50,
{
    let n = names.len() as int;
    assert(50 * k < n) by (nonlinear_arith)
        requires
            0 <= k < (n + 49) / 50,
            n >= 0,
    ;
}

proof fn lemma_joined_from_lookup<F: Fn(&[String]) -> Result<Vec<AurPackage>, String>>(
    info: &F,
    names: Seq<String>,
    chunks: Seq<Seq<AurPackage>>,
    p: AurView,
)
    requires
        chunks.len() <= chunk_count(names.len() as int),
        forall|k: int| 0 <= k < chunks.len() ==> chunk_answered(info, names, k, #[trigger] chunks[k]),
        aur_views(joined(chunks)).contains(p),
    ensures
        from_lookup(info, p),
    decreases chunks.len(),
{
    if chunks.len() > 0 {
        let init = chunks.drop_last();
        let w = choose|w: int| 0 <= w < joined(chunks).len() && aur_views(joined(chunks))[w] == p;
        assert(joined(chunks) =~= joined(init) + chunks.last());
        if w < joined(init).len() {
            assert(aur_views(joined(init))[w] == p);
            assert forall|k: int| 0 <= k < init.len() implies chunk_answered(
                info,
                names,
                k,
                #[trigger] init[k],
            ) by {
                assert(init[k] == chunks[k]);
            }
            lemma_joined_from_lookup(info, names, init, p);
        } else {
            let last = chunks.last();
            assert(aur_views(last)[w - joined(init).len()] == p);
            assert(chunk_answered(info, names, chunks.len() - 1, chunks[chunks.len() - 1]));
            let (c, v) = choose|c: &[String], v: Vec<AurPackage>|
                c@ == chunk_of(names, chunks.len() - 1) && v@ == last && info.ensures(
                    (c,),
                    Ok::<Vec<AurPackage>, String>(v),
                );
            lemma_chunk_size(names, chunks.len() - 1);
            assert(aur_views(v@).contains(p));
        }
    }
}

/// `x` was among the names of a successful lookup whose answer has no
/// record named `x`: the AUR does not have it.
pub open spec fn not_in_aur<F: Fn(&[String]) -> Result<Vec<AurPackage>, String>>(
    info: &F,
    x: Seq<char>,
) -> bool {
    exists|c: &[String], v: Vec<AurPackage>|
        1 <= c@.len() <= 50 && info.ensures((c,), Ok::<Vec<AurPackage>, String>(v)) && strings_view(
            c@,
        ).contains(x) && !pkg_names(v@).contains(x)
}

proof fn lemma_joined_has_chunk(chunks: Seq<Seq<AurPackage>>, k: int, x: Seq<char>)
    requires
        0 <= k < chunks.len(),
        pkg_names(chunks[k]).contains(x),
    ensures
        pkg_names(joined(chunks)).contains(x),
    decreases chunks.len(),
{
    let init = chunks.drop_last();
    assert(joined(chunks) =~= joined(init) + chunks.last());
    if k < chunks.len() - 1 {
        assert(init[k] == chunks[k]);
        lemma_joined_has_chunk(init, k, x);
        let w = choose|w: int| 0 <= w < pkg_names(joined(init)).len() && pkg_names(joined(init))[w] == x;
        assert(pkg_names(joined(chunks))[w] == x);
    } else {
        let w = choose|w: int| 0 <= w < pkg_names(chunks[k]).len() && pkg_names(chunks[k])[w] == x;
        assert(pkg_names(joined(chunks))[joined(init).len() + w] == x);
    }
}

/// A name that was looked up and has no record among the answers is not
/// in the AUR.
proof fn lemma_absent_not_in_aur<F: Fn(&[String]) -> Result<Vec<AurPackage>, String>>(
    info: &F,
    names: Seq<String>,
    chunks: Seq<Seq<AurPackage>>,
    x: Seq<char>,
)
    requires
        answered_chunks(info, names, chunks),
        strings_view(names).contains(x),
        !pkg_names(joined(chunks)).contains(x),
    ensures
        not_in_aur(info, x),
{
    let n = names.len() as int;
    let i = choose|i: int| 0 <= i < strings_view(names).len() && strings_view(names)[i] == x;
    let k = i / 50;
    assert(0 <= 50 * k <= i < 50 * k + 50 && k < (n + 49) / 50) by (nonlinear_arith)
        requires
            0 <= i < n,
            k == i / 50,
    ;
    assert(chunk_answered(info, names, k, chunks[k]));
    let (c, v) = choose|c: &[String], v: Vec<AurPackage>|
        c@ == chunk_of(names, k) && v@ == chunks[k] && info.ensures((c,), Ok::<Vec<AurPackage>, String>(v));
    assert(strings_view(c@)[i - 50 * k] == x);
    lemma_chunk_size(names, k);
    if pkg_names(v@).contains(x) {
        lemma_joined_has_chunk(chunks, k, x);
    }
}

// ---------------------------------------------------------------------
// Ordering the gathered records
// ---------------------------------------------------------------------

/// How many entries of `c` are 0 (records not visited yet).
pub open spec fn whites(c: Seq<u8>) -> nat
    decreases c.len(),
{
    if c.len() == 0 {
        0
    } else {
        whites(c.drop_last()) + if c.last() == 0 {
            1nat
        } else {
            0nat
        }
    }
}

proof fn lemma_whites_bound(c: Seq<u8>)
    ensures
        whites(c) <= c.len(),
    decreases c.len(),
{
    if c.len() > 0 {
        lemma_whites_bound(c.drop_last());
    }
}

proof fn lemma_whites_update(c: Seq<u8>, i: int, v: u8)
    requires
        0 <= i < c.len(),
    ensures
        whites(c.update(i, v)) + (if c[i] == 0 {
            1int
        } else {
            0int
        }) == whites(c) + (if v == 0 {
            1int
        } else {
            0int
        }),
    decreases c.len(),
{
    let u = c.update(i, v);
    assert(u.drop_last() =~= if i == c.len() - 1 {
        c.drop_last()
    } else {
        c.drop_last().update(i, v)
    });
    if i < c.len() - 1 {
        lemma_whites_update(c.drop_last(), i, v);
    }
}

/// The package named `x` among `recs` depends on `y`.
pub open spec fn dep_edge(recs: Seq<AurPackage>, x: Seq<char>, y: Seq<char>) -> bool {
    exists|a: int| 0 <= a < recs.len() && recs[a].name@ == x && dep_names_spec(recs[a]@).contains(y)
}

/// `cyc` is a cycle of dependencies among `recs`: it starts and ends at
/// the same name, and each name depends on the next.
pub open spec fn cycle_in(recs: Seq<AurPackage>, cyc: Seq<Seq<char>>) -> bool {
    &&& cyc.len() >= 2
    &&& cyc[0] == cyc.last()
    &&& forall|k: int| 0 <= k < cyc.len() - 1 ==> #[trigger] dep_edge(recs, cyc[k], cyc[k + 1])
}

/// `edges[i]` points, for each dependency of `recs[i]` that names some
/// record, to such a record.
pub open spec fn edges_of(recs: Seq<AurPackage>, edges: Seq<Vec<usize>>) -> bool {
    &&& edges.len() == recs.len()
    &&& forall|i: int, t: int|
        0 <= i < recs.len() && 0 <= t < edges[i]@.len() ==> #[trigger] edges[i]@[t] < recs.len()
            && dep_names_spec(recs[i]@).contains(recs[edges[i]@[t] as int].name@)
    &&& forall|i: int, d: Seq<char>|
        0 <= i < recs.len() && #[trigger] dep_names_spec(recs[i]@).contains(d) && pkg_names(
            recs,
        ).contains(d) ==> exists|t: int|
            0 <= t < edges[i]@.len() && recs[edges[i]@[t] as int].name@ == d
}

/// The state of the depth-first walk: 1 marks the records on the current
/// path `stack`, 2 those already placed in `out`, each after the records
/// its edges point to.
pub open spec fn dfs_ok(edges: Seq<Vec<usize>>, colors: Seq<u8>, stack: Seq<usize>, out: Seq<usize>) -> bool {
    let n = edges.len();
    &&& colors.len() == n
    &&& forall|x: int| 0 <= x < n ==> #[trigger] colors[x] <= 2
    &&& forall|k: int| 0 <= k < stack.len() ==> #[trigger] stack[k] < n && colors[stack[k] as int] == 1
    &&& forall|x: int| 0 <= x < n && #[trigger] colors[x] == 1 ==> stack.contains(x as usize)
    &&& forall|k: int|
        0 <= k < stack.len() - 1 ==> edges[#[trigger] stack[k] as int]@.contains(stack[k + 1])
    &&& forall|k: int, l: int| 0 <= k < l < stack.len() ==> #[trigger] stack[k] != #[trigger] stack[l]
    &&& forall|p: int| 0 <= p < out.len() ==> #[trigger] out[p] < n && colors[out[p] as int] == 2
    &&& forall|x: int| 0 <= x < n && #[trigger] colors[x] == 2 ==> out.contains(x as usize)
    &&& out_ordered(edges, out)
}

/// `out` holds no record twice, and each record after those its edges
/// point to.
pub open spec fn out_ordered(edges: Seq<Vec<usize>>, out: Seq<usize>) -> bool {
    &&& forall|p: int, q: int| 0 <= p < q < out.len() ==> out[p] != out[q]
    &&& forall|p: int, t: int|
        0 <= p < out.len() && 0 <= t < edges[out[p] as int]@.len() ==> placed_before(
            out,
            p,
            #[trigger] edges[out[p] as int]@[t],
        )
}

/// Some edge points to `y`.
pub open spec fn has_incoming(edges: Seq<Vec<usize>>, y: usize) -> bool {
    exists|a: int, t: int| 0 <= a < edges.len() && 0 <= t < edges[a]@.len() && edges[a]@[t] == y
}

/// `y` occurs in `out` before position `p`.
pub open spec fn placed_before(out: Seq<usize>, p: int, y: usize) -> bool {
    exists|q: int| 0 <= q < p && out[q] == y
}

/// Every record gathered before the one at position `p` of `out` is placed
/// before it.
pub open spec fn after_earlier(out: Seq<usize>, p: int) -> bool {
    forall|y: int| 0 <= y < out[p] ==> #[trigger] placed_before(out, p, y as usize)
}

/// The names of the records at `ix`.
pub open spec fn names_at(names: Seq<String>, ix: Seq<usize>) -> Seq<Seq<char>> {
    ix.map_values(|x: usize| names[x as int]@)
}

/// The depth-first walk stopped on the path `st` (its records in the
/// order the walk went down) at an edge from the last of them back to
/// `st[pos]`, and reported `msg`.
pub open spec fn dfs_report(
    recs: Seq<AurPackage>,
    names: Seq<String>,
    edges: Seq<Vec<usize>>,
    st: Seq<usize>,
    pos: int,
    msg: Seq<char>,
) -> bool {
    &&& 0 <= pos < st.len()
    &&& forall|k: int| 0 <= k < st.len() ==> #[trigger] st[k] < recs.len()
    &&& forall|k: int, l: int| 0 <= k < l < st.len() ==> #[trigger] st[k] != #[trigger] st[l]
    &&& forall|k: int| 0 <= k < st.len() - 1 ==> edges[#[trigger] st[k] as int]@.contains(st[k + 1])
    &&& edges[st.last() as int]@.contains(st[pos])
    &&& msg == "dependency cycle: "@ + join_arrows(
        names_at(names, st.skip(pos)).push(names[st[pos] as int]@),
    )
}

/// The first record of the path `stack` once `i` is pushed on it.
pub open spec fn bottom_of(stack: Seq<usize>, i: usize) -> usize {
    if stack.len() > 0 {
        stack[0]
    } else {
        i
    }
}

/// The walk that went down from record `bottom` reported `msg`.
#[verifier::opaque]
pub open spec fn reported_from(
    recs: Seq<AurPackage>,
    names: Seq<String>,
    edges: Seq<Vec<usize>>,
    bottom: usize,
    msg: Seq<char>,
) -> bool {
    exists|st: Seq<usize>, pos: int|
        #[trigger] dfs_report(recs, names, edges, st, pos, msg) && st[0] == bottom
}

proof fn lemma_reported_here(
    recs: Seq<AurPackage>,
    names: Seq<String>,
    edges: Seq<Vec<usize>>,
    colors: Seq<u8>,
    stack: Seq<usize>,
    out: Seq<usize>,
    pos: int,
    msg: Seq<char>,
)
    requires
        dfs_ok(edges, colors, stack, out),
        edges.len() == recs.len(),
        0 <= pos < stack.len(),
        edges[stack.last() as int]@.contains(stack[pos]),
        msg == "dependency cycle: "@ + join_arrows(
            names_at(names, stack.skip(pos)).push(names[stack[pos] as int]@),
        ),
    ensures
        reported_from(recs, names, edges, stack[0], msg),
{
    assert(dfs_report(recs, names, edges, stack, pos, msg));
    reveal(reported_from);
}

/// "dependency cycle: " and the names along `stack[pos..]`, then `names[e]`.
fn cycle_report(names: &Vec<String>, stack: &Vec<usize>, pos: usize, e: usize) -> (r: String)
    requires
        pos < stack@.len(),
        e < names@.len(),
        forall|k: int| 0 <= k < stack@.len() ==> #[trigger] stack@[k] < names@.len(),
    ensures
        r@ == "dependency cycle: "@ + join_arrows(
            names_at(names@, stack@.skip(pos as int)).push(names@[e as int]@),
        ),
{
    let mut items: Vec<String> = Vec::new();
    let mut i: usize = pos;
    while i < stack.len()
        invariant
            pos <= i <= stack@.len(),
            forall|k: int| 0 <= k < stack@.len() ==> #[trigger] stack@[k] < names@.len(),
            strings_view(items@) == names_at(names@, stack@.subrange(pos as int, i as int)),
        decreases stack.len() - i,
    {
        let ghost before = strings_view(items@);
        items.push(names[stack[i]].clone());
        assert(strings_view(items@) =~= before.push(names@[stack@[i as int] as int]@));
        assert(names_at(names@, stack@.subrange(pos as int, i + 1)) =~= names_at(
            names@,
            stack@.subrange(pos as int, i as int),
        ).push(names@[stack@[i as int] as int]@));
        i = i + 1;
    }
    assert(stack@.subrange(pos as int, stack@.len() as int) =~= stack@.skip(pos as int));
    let ghost mid = strings_view(items@);
    items.push(names[e].clone());
    assert(strings_view(items@) =~= mid.push(names@[e as int]@));
    let mut out = String::new();
    push_str(&mut out, "dependency cycle: ");
    let joined_names = join_with_arrows(&items);
    push_str(&mut out, joined_names.as_str());
    proof {
        reveal_strlit("dependency cycle: ");
        reveal_strlit("");
    }
    out
}

/// The position of `x` in `stack`.
fn stack_position(stack: &Vec<usize>, x: usize) -> (r: usize)
    requires
        stack@.contains(x),
    ensures
        r < stack@.len() && stack@[r as int] == x,
{
    let mut i: usize = 0;
    while i < stack.len()
        invariant
            i <= stack@.len(),
            stack@.contains(x),
            forall|k: int| 0 <= k < i ==> stack@[k] != x,
        decreases stack.len() - i,
    {
        if stack[i] == x {
            return i;
        }
        i = i + 1;
    }
    proof {
        let w = choose|w: int| 0 <= w < stack@.len() && stack@[w] == x;
        assert(stack@[w] != x);
    }
    0
}

proof fn lemma_dfs_push(edges: Seq<Vec<usize>>, c0: Seq<u8>, s0: Seq<usize>, o0: Seq<usize>, i: usize)
    requires
        dfs_ok(edges, c0, s0, o0),
        i < edges.len(),
        c0[i as int] == 0,
        s0.len() > 0 ==> edges[s0.last() as int]@.contains(i),
    ensures
        dfs_ok(edges, c0.update(i as int, 1), s0.push(i), o0),
{
    let n = edges.len();
    let c1 = c0.update(i as int, 1);
    let s1 = s0.push(i);
    assert forall|x: int| 0 <= x < n implies #[trigger] c1[x] <= 2 by {
        if x != i {
            assert(c0[x] <= 2);
        }
    }
    assert forall|k: int| 0 <= k < s1.len() implies #[trigger] s1[k] < n && c1[s1[k] as int] == 1 by {
        if k < s0.len() {
            assert(s1[k] == s0[k]);
            assert(c0[s0[k] as int] == 1);
        }
    }
    assert forall|x: int| 0 <= x < n && #[trigger] c1[x] == 1 implies s1.contains(x as usize) by {
        if x == i {
            assert(s1[s0.len() as int] == i);
        } else {
            assert(c0[x] == 1);
            let w = choose|w: int| 0 <= w < s0.len() && s0[w] == x as usize;
            assert(s1[w] == x as usize);
        }
    }
    assert forall|k: int| 0 <= k < s1.len() - 1 implies edges[#[trigger] s1[k] as int]@.contains(
        s1[k + 1],
    ) by {
        if k < s0.len() - 1 {
            assert(s1[k] == s0[k] && s1[k + 1] == s0[k + 1]);
        } else {
            assert(s1[k] == s0.last());
        }
    }
    assert forall|k: int, l: int| 0 <= k < l < s1.len() implies #[trigger] s1[k] != #[trigger] s1[l] by {
        if l < s0.len() {
            assert(s1[k] == s0[k] && s1[l] == s0[l]);
        } else {
            assert(s1[k] == s0[k]);
            assert(c0[s0[k] as int] == 1);
        }
    }
    assert forall|p: int| 0 <= p < o0.len() implies #[trigger] o0[p] < n && c1[o0[p] as int] == 2 by {
        assert(c0[o0[p] as int] == 2);
    }
    assert forall|x: int| 0 <= x < n && #[trigger] c1[x] == 2 implies o0.contains(x as usize) by {
        assert(c0[x] == 2);
    }
}

proof fn lemma_dfs_finish(edges: Seq<Vec<usize>>, c2: Seq<u8>, s0: Seq<usize>, o2: Seq<usize>, i: usize)
    requires
        dfs_ok(edges, c2, s0.push(i), o2),
        i < edges.len(),
        edges.len() <= usize::MAX,
        forall|u: int| 0 <= u < edges[i as int]@.len() ==> #[trigger] edges[i as int]@[u] < edges.len(),
        c2[i as int] == 1,
        forall|u: int| 0 <= u < edges[i as int]@.len() ==> c2[#[trigger] edges[i as int]@[u] as int] == 2,
        forall|k: int| 0 <= k < s0.len() ==> #[trigger] s0[k] != i,
    ensures
        dfs_ok(edges, c2.update(i as int, 2), s0, o2.push(i)),
{
    let n = edges.len();
    let sp = s0.push(i);
    let c3 = c2.update(i as int, 2);
    let o3 = o2.push(i);
    assert(!o2.contains(i)) by {
        if o2.contains(i) {
            let w = choose|w: int| 0 <= w < o2.len() && o2[w] == i;
            assert(c2[o2[w] as int] == 2);
        }
    }
    assert forall|x: int| 0 <= x < n implies #[trigger] c3[x] <= 2 by {
        if x != i {
            assert(c2[x] <= 2);
        }
    }
    assert forall|k: int| 0 <= k < s0.len() implies #[trigger] s0[k] < n && c3[s0[k] as int] == 1 by {
        assert(sp[k] == s0[k]);
        assert(c2[sp[k] as int] == 1);
    }
    assert forall|x: int| 0 <= x < n && #[trigger] c3[x] == 1 implies s0.contains(x as usize) by {
        assert(x != i);
        assert(c2[x] == 1);
        assert(0 <= x < n);
        assert(sp.contains(x as usize));
        let w = choose|w: int| 0 <= w < sp.len() && sp[w] == x as usize;
        if w == sp.len() - 1 {
            assert(sp[w] == i);
            assert((x as usize) as int == x);
        }
        assert(s0[w] == x as usize);
    }
    assert forall|k: int| 0 <= k < s0.len() - 1 implies edges[#[trigger] s0[k] as int]@.contains(
        s0[k + 1],
    ) by {
        assert(sp[k] == s0[k] && sp[k + 1] == s0[k + 1]);
    }
    assert forall|k: int, l: int| 0 <= k < l < s0.len() implies #[trigger] s0[k] != #[trigger] s0[l] by {
        assert(sp[k] == s0[k] && sp[l] == s0[l]);
    }
    assert forall|p: int| 0 <= p < o3.len() implies #[trigger] o3[p] < n && c3[o3[p] as int] == 2 by {
        if p < o2.len() {
            assert(o3[p] == o2[p]);
            assert(c2[o2[p] as int] == 2);
        }
    }
    assert forall|x: int| 0 <= x < n && #[trigger] c3[x] == 2 implies o3.contains(x as usize) by {
        if x == i {
            assert(o3[o2.len() as int] == i);
        } else {
            assert(c2[x] == 2);
            let w = choose|w: int| 0 <= w < o2.len() && o2[w] == x as usize;
            assert(o3[w] == x as usize);
        }
    }
    assert(out_ordered(edges, o2));
    assert forall|p: int, q: int| 0 <= p < q < o3.len() implies o3[p] != o3[q] by {
        if q == o2.len() {
            assert(o3[p] == o2[p]);
        }
    }
    assert forall|p: int, t2: int|
        0 <= p < o3.len() && 0 <= t2 < edges[o3[p] as int]@.len() implies placed_before(
        o3,
        p,
        #[trigger] edges[o3[p] as int]@[t2],
    ) by {
        if p < o2.len() {
            assert(o3[p] == o2[p]);
            assert(placed_before(o2, p, edges[o2[p] as int]@[t2]));
            let q = choose|q: int| 0 <= q < p && o2[q] == edges[o2[p] as int]@[t2];
            assert(o3[q] == o2[q]);
        } else {
            let y = edges[i as int]@[t2];
            assert(c2[y as int] == 2);
            assert(y < n);
            assert(o2.contains(y));
            let q = choose|q: int| 0 <= q < o2.len() && o2[q] == y;
            assert(o3[q] == y);
        }
    }
}

proof fn lemma_dfs_cycle(
    recs: Seq<AurPackage>,
    names: Seq<String>,
    edges: Seq<Vec<usize>>,
    stack: Seq<usize>,
    pos: int,
    e: usize,
)
    requires
        edges_of(recs, edges),
        strings_view(names) == pkg_names(recs),
        names.len() == recs.len(),
        forall|k: int| 0 <= k < stack.len() ==> #[trigger] stack[k] < recs.len(),
        forall|k: int| 0 <= k < stack.len() - 1 ==> edges[#[trigger] stack[k] as int]@.contains(stack[k + 1]),
        0 <= pos < stack.len(),
        stack[pos] == e,
        edges[stack.last() as int]@.contains(e),
    ensures
        cycle_in(recs, names_at(names, stack.skip(pos)).push(names[e as int]@)),
{
    let sk = stack.skip(pos);
    let cyc = names_at(names, sk).push(names[e as int]@);
    assert(cyc[0] == names[e as int]@);
    assert(cyc.last() == names[e as int]@);
    assert forall|k: int| 0 <= k < cyc.len() - 1 implies #[trigger] dep_edge(recs, cyc[k], cyc[k + 1]) by {
        let a = sk[k];
        assert(a == stack[pos + k]);
        assert(cyc[k] == names[a as int]@);
        let b: usize = if k < sk.len() - 1 {
            stack[pos + k + 1]
        } else {
            e
        };
        if k < sk.len() - 1 {
            assert(edges[stack[pos + k] as int]@.contains(stack[pos + k + 1]));
            assert(cyc[k + 1] == names[b as int]@);
        } else {
            assert(stack[pos + k] == stack.last());
            assert(cyc[k + 1] == names[e as int]@);
        }
        assert(edges[a as int]@.contains(b));
        let w = choose|w: int| 0 <= w < edges[a as int]@.len() && edges[a as int]@[w] == b;
        assert(edges[a as int]@[w] < recs.len());
        assert(dep_names_spec(recs[a as int]@).contains(recs[b as int].name@));
        assert(strings_view(names)[a as int] == names[a as int]@);
        assert(strings_view(names)[b as int] == names[b as int]@);
    }
}

/// Visits record `i` depth first: first the records its edges point to,
/// then `i` itself is placed in `out`. Reaching a record on the current
/// path is a dependency cycle.
#[verifier::rlimit(50)]
fn visit(
    recs: &Vec<AurPackage>,
    names: &Vec<String>,
    edges: &Vec<Vec<usize>>,
    i: usize,
    colors: &mut Vec<u8>,
    stack: &mut Vec<usize>,
    out: &mut Vec<usize>,
    budget: usize,
) -> (r: Result<(), String>)
    requires
        whites(old(colors)@) <= budget,
        edges_of(recs@, edges@),
        strings_view(names@) == pkg_names(recs@),
        names@.len() == recs@.len(),
        dfs_ok(edges@, old(colors)@, old(stack)@, old(out)@),
        i < recs@.len(),
        old(colors)@[i as int] == 0,
        old(stack)@.len() > 0 ==> edges@[old(stack)@.last() as int]@.contains(i),
    ensures
        r is Ok ==> {
            &&& dfs_ok(edges@, final(colors)@, final(stack)@, final(out)@)
            &&& final(stack)@ == old(stack)@
            &&& final(colors)@[i as int] == 2
            &&& final(out)@.len() >= old(out)@.len()
            &&& final(out)@.take(old(out)@.len() as int) == old(out)@
            &&& forall|x: int|
                0 <= x < recs@.len() && old(colors)@[x] != 0 ==> #[trigger] final(colors)@[x]
                    == old(colors)@[x]
            &&& whites(final(colors)@) < whites(old(colors)@)
            &&& final(out)@.len() > old(out)@.len()
            &&& final(out)@.last() == i
            &&& forall|p: int|
                old(out)@.len() <= p < final(out)@.len() - 1 ==> has_incoming(
                    edges@,
                    #[trigger] final(out)@[p],
                )
        },
        r matches Err(e) ==> exists|cyc: Seq<Seq<char>>|
            cycle_in(recs@, cyc) && e@ == "dependency cycle: "@ + join_arrows(cyc),
        r matches Err(e) ==> reported_from(recs@, names@, edges@, bottom_of(old(stack)@, i), e@),
    decreases budget,
{
    let ghost n = recs@.len();
    let ghost c0 = colors@;
    let ghost s0 = stack@;
    let ghost o0 = out@;
    proof {
        lemma_whites_update(colors@, i as int, 1);
        lemma_dfs_push(edges@, colors@, stack@, out@, i);
    }
    colors.set(i, 1);
    stack.push(i);
    let en = edges.len();
    let m = edges[i].len();
    let mut t: usize = 0;
    while t < m
        invariant
            edges_of(recs@, edges@),
            strings_view(names@) == pkg_names(recs@),
            n == recs@.len(),
            names@.len() == n,
            i < n,
            m == edges@[i as int]@.len(),
            en == edges@.len(),
            t <= m,
            dfs_ok(edges@, colors@, stack@, out@),
            stack@ == s0.push(i),
            s0 == old(stack)@,
            colors@[i as int] == 1,
            out@.len() >= o0.len(),
            out@.take(o0.len() as int) == o0,
            forall|x: int| 0 <= x < n && c0[x] != 0 ==> #[trigger] colors@[x] == c0[x],
            whites(colors@) < whites(c0),
            whites(c0) <= budget,
            forall|u: int| 0 <= u < t ==> colors@[#[trigger] edges@[i as int]@[u] as int] == 2,
            forall|p: int| o0.len() <= p < out@.len() ==> has_incoming(edges@, #[trigger] out@[p]),
        decreases m - t,
    {
        let e = edges[i][t];
        proof {
            assert(edges@[i as int]@[t as int] < n);
        }
        if colors[e] == 1 {
            let pos = stack_position(stack, e);
            let msg = cycle_report(names, stack, pos, e);
            proof {
                assert(stack@.last() == i);
                assert(edges@[i as int]@[t as int] == e);
                assert(edges@[i as int]@.contains(e));
                lemma_dfs_cycle(recs@, names@, edges@, stack@, pos as int, e);
                lemma_reported_here(recs@, names@, edges@, colors@, stack@, out@, pos as int, msg@);
                assert(stack@[0] == bottom_of(s0, i));
            }
            return Err(msg);
        } else if colors[e] == 0 {
            let ghost c_before = colors@;
            let ghost o_before = out@;
            proof {
                assert(stack@.last() == i);
                assert(edges@[i as int]@[t as int] == e);
                assert(edges@[i as int]@.contains(e));
                assert(whites(colors@) < whites(c0));
            }
            let ghost s_before = stack@;
            match visit(recs, names, edges, e, colors, stack, out, budget - 1) {
                Ok(()) => {},
                Err(msg) => {
                    proof {
                        assert(s_before == s0.push(i));
                        assert(bottom_of(s_before, e) == bottom_of(s0, i));
                    }
                    return Err(msg);
                },
            }
            proof {
                assert(out@.take(o0.len() as int) =~= o0) by {
                    assert(out@.take(o_before.len() as int) == o_before);
                    assert(o_before.take(o0.len() as int) == o0);
                }
                assert forall|u: int| 0 <= u < t + 1 implies colors@[#[trigger] edges@[i as int]@[u] as int] == 2 by {
                    if u < t {
                        assert(c_before[edges@[i as int]@[u] as int] == 2);
                    }
                }
                assert(colors@[i as int] == 1) by {
                    assert(c_before[i as int] == 1);
                }
                assert forall|p: int| o0.len() <= p < out@.len() implies has_incoming(
                    edges@,
                    #[trigger] out@[p],
                ) by {
                    if p < o_before.len() {
                        assert(out@.take(o_before.len() as int)[p] == o_before[p]);
                    } else if p == out@.len() - 1 {
                        assert(edges@[i as int]@[t as int] == e);
                    }
                }
            }
        } else {
        }
        t = t + 1;
    }
    proof {
        lemma_whites_update(colors@, i as int, 2);
        assert forall|k: int| 0 <= k < s0.len() implies #[trigger] s0[k] != i by {
            assert(c0[s0[k] as int] == 1);
        }
        assert(edges@.len() == en);
        assert forall|u: int| 0 <= u < edges@[i as int]@.len() implies #[trigger] edges@[i as int]@[u] < edges@.len() by {
            assert(edges@[i as int]@[u] < recs@.len());
        }
        lemma_dfs_finish(edges@, colors@, s0, out@, i);
    }
    let ghost o2 = out@;
    colors.set(i, 2);
    stack.pop();
    out.push(i);
    proof {
        assert(stack@ =~= s0);
        assert(out@.take(o0.len() as int) =~= o0) by {
            assert(o2.take(o0.len() as int) == o0);
        }
        assert forall|p: int| o0.len() <= p < out@.len() - 1 implies has_incoming(
            edges@,
            #[trigger] out@[p],
        ) by {
            assert(out@[p] == o2[p]);
        }
    }
    Ok(())
}

/// The first record named `name`, if any.
fn first_named(names: &Vec<String>, name: &str) -> (r: Option<usize>)
    ensures
        r matches Some(j) ==> j < names@.len() && names@[j as int]@ == name@,
        r is None ==> !strings_view(names@).contains(name@),
{
    let mut j: usize = 0;
    while j < names.len()
        invariant
            j <= names@.len(),
            forall|k: int| 0 <= k < j ==> names@[k]@ != name@,
        decreases names.len() - j,
    {
        if str_eq(names[j].as_str(), name) {
            return Some(j);
        }
        j = j + 1;
    }
    assert forall|k: int| 0 <= k < strings_view(names@).len() implies strings_view(names@)[k] != name@ by {
        assert(strings_view(names@)[k] == names@[k]@);
    }
    None
}

/// For each record, the records named by its dependencies.
fn edges_for(recs: &Vec<AurPackage>, names: &Vec<String>) -> (r: Vec<Vec<usize>>)
    requires
        strings_view(names@) == pkg_names(recs@),
        names@.len() == recs@.len(),
    ensures
        edges_of(recs@, r@),
{
    let mut edges: Vec<Vec<usize>> = Vec::new();
    let mut i: usize = 0;
    while i < recs.len()
        invariant
            i <= recs@.len(),
            strings_view(names@) == pkg_names(recs@),
            names@.len() == recs@.len(),
            edges@.len() == i,
            forall|a: int, t: int|
                0 <= a < i && 0 <= t < edges@[a]@.len() ==> #[trigger] edges@[a]@[t] < recs@.len()
                    && dep_names_spec(recs@[a]@).contains(recs@[edges@[a]@[t] as int].name@),
            forall|a: int, d: Seq<char>|
                0 <= a < i && #[trigger] dep_names_spec(recs@[a]@).contains(d) && pkg_names(
                    recs@,
                ).contains(d) ==> exists|t: int|
                    0 <= t < edges@[a]@.len() && recs@[edges@[a]@[t] as int].name@ == d,
        decreases recs.len() - i,
    {
        let deps = dep_names_of(&recs[i]);
        let mut mine: Vec<usize> = Vec::new();
        let mut k: usize = 0;
        while k < deps.len()
            invariant
                i < recs@.len(),
                k <= deps@.len(),
                strings_view(names@) == pkg_names(recs@),
                names@.len() == recs@.len(),
                strings_view(deps@) == dep_names_spec(recs@[i as int]@),
                forall|t: int|
                    0 <= t < mine@.len() ==> #[trigger] mine@[t] < recs@.len() && dep_names_spec(
                        recs@[i as int]@,
                    ).contains(recs@[mine@[t] as int].name@),
                forall|q: int|
                    0 <= q < k && pkg_names(recs@).contains(#[trigger] strings_view(deps@)[q])
                        ==> exists|t: int|
                        0 <= t < mine@.len() && recs@[mine@[t] as int].name@ == strings_view(deps@)[q],
            decreases deps.len() - k,
        {
            let ghost m0 = mine@;
            match first_named(names, deps[k].as_str()) {
                Some(j) => {
                    mine.push(j);
                    proof {
                        assert(strings_view(names@)[j as int] == names@[j as int]@);
                        assert(pkg_names(recs@)[j as int] == recs@[j as int].name@);
                        assert(strings_view(deps@)[k as int] == deps@[k as int]@);
                        assert(dep_names_spec(recs@[i as int]@)[k as int] == deps@[k as int]@);
                        assert(dep_names_spec(recs@[i as int]@).contains(recs@[j as int].name@));
                        assert forall|q: int|
                            0 <= q < k + 1 && pkg_names(recs@).contains(#[trigger] strings_view(deps@)[q])
                            implies exists|t: int|
                            0 <= t < mine@.len() && recs@[mine@[t] as int].name@ == strings_view(deps@)[q] by {
                            if q < k {
                                let t0 = choose|t0: int| 0 <= t0 < m0.len() && recs@[m0[t0] as int].name@ == strings_view(deps@)[q];
                                assert(mine@[t0] == m0[t0]);
                            } else {
                                assert(mine@[m0.len() as int] == j);
                            }
                        }
                        assert forall|t: int| 0 <= t < mine@.len() implies #[trigger] mine@[t] < recs@.len() && dep_names_spec(
                            recs@[i as int]@,
                        ).contains(recs@[mine@[t] as int].name@) by {
                            if t < m0.len() {
                                assert(mine@[t] == m0[t]);
                            }
                        }
                    }
                },
                None => {
                    proof {
                        assert(strings_view(deps@)[k as int] == deps@[k as int]@);
                    }
                },
            }
            k = k + 1;
        }
        let ghost mv = mine@;
        proof {
            assert forall|d: Seq<char>|
                #[trigger] dep_names_spec(recs@[i as int]@).contains(d) && pkg_names(recs@).contains(d)
                implies exists|t: int| 0 <= t < mv.len() && recs@[mv[t] as int].name@ == d by {
                let q = choose|q: int| 0 <= q < dep_names_spec(recs@[i as int]@).len() && dep_names_spec(recs@[i as int]@)[q] == d;
                assert(strings_view(deps@)[q] == d);
                assert(q < k);
                assert(pkg_names(recs@).contains(strings_view(deps@)[q]));
            }
        }
        let ghost e0 = edges@;
        edges.push(mine);
        proof {
            assert forall|a: int, t: int|
                0 <= a < i + 1 && 0 <= t < edges@[a]@.len() implies #[trigger] edges@[a]@[t] < recs@.len()
                    && dep_names_spec(recs@[a]@).contains(recs@[edges@[a]@[t] as int].name@) by {
                if a < i {
                    assert(edges@[a] == e0[a]);
                }
            }
            assert forall|a: int, d: Seq<char>|
                0 <= a < i + 1 && #[trigger] dep_names_spec(recs@[a]@).contains(d) && pkg_names(
                    recs@,
                ).contains(d) implies exists|t: int|
                    0 <= t < edges@[a]@.len() && recs@[edges@[a]@[t] as int].name@ == d by {
                if a < i {
                    assert(edges@[a] == e0[a]);
                } else {
                    assert(edges@[a]@ == mv);
                    let t = choose|t: int| 0 <= t < mv.len() && recs@[mv[t] as int].name@ == d;
                    assert(edges@[a]@[t] == mv[t]);
                }
            }
        }
        i = i + 1;
    }
    edges
}

/// The AUR records that `roots` need, gathered level by level: each
/// round looks up the names of the frontier, in chunks of at most 50 per
/// call of `info`, and the dependencies of the records found that
/// `installed` reports missing and that were not taken before form the
/// next frontier. Deepest level first, the roots last.
/// The names taken are kept in a `Vec` and scanned rather than in a
/// `HashSet`: vstd specifies hash tables only for keys it knows to hash
/// consistently (integers and `bool`), not for `String`.
fn gather_chain<F, G>(roots: &[String], info: &F, installed: &G) -> (r: Result<
    Vec<AurPackage>,
    String,
>) where F: Fn(&[String]) -> Result<Vec<AurPackage>, String>, G: Fn(&str) -> bool
    requires
        forall|c: &[String]| info.requires((c,)),
        forall|s: &str| installed.requires((s,)),
    ensures
        r matches Ok(order) ==> walk_laws(order@, strings_view(roots@), installed),
        r matches Ok(order) ==> forall|i: int|
            0 <= i < order@.len() ==> from_lookup(info, #[trigger] order@[i]@),
        r matches Ok(order) ==> forall|x: Seq<char>|
            #[trigger] strings_view(roots@).contains(x) ==> pkg_names(order@).contains(x)
                || not_in_aur(info, x),
        r matches Ok(order) ==> forall|i: int, d: Seq<char>|
            0 <= i < order@.len() && #[trigger] dep_names_spec(order@[i]@).contains(d)
                ==> pkg_names(order@).contains(d) || reported_installed(installed, d) || not_in_aur(
                info,
                d,
            ),
        roots@.len() == 0 ==> (r matches Ok(order) && order@.len() == 0),
        r matches Err(e) ==> lookup_failed(info, e),
{
    if roots.len() == 0 {
        return Ok(Vec::new());
    }
    let ghost rv = strings_view(roots@);
    let mut seen: Vec<String> = Vec::new();
    let mut frontier: Vec<String> = Vec::new();
    let mut i: usize = 0;
    while i < roots.len()
        invariant
            i <= roots@.len(),
            rv == strings_view(roots@),
            strings_view(seen@) == rv.take(i as int),
            strings_view(frontier@) == rv.take(i as int),
        decreases roots.len() - i,
    {
        let ghost s0 = strings_view(seen@);
        let ghost f0 = strings_view(frontier@);
        seen.push(roots[i].clone());
        frontier.push(roots[i].clone());
        assert(rv.take(i + 1) =~= rv.take(i as int).push(roots@[i as int]@));
        assert(strings_view(seen@) =~= s0.push(roots@[i as int]@));
        assert(strings_view(frontier@) =~= f0.push(roots@[i as int]@));
        i = i + 1;
    }
    assert(rv.take(rv.len() as int) =~= rv);
    let mut order: Vec<AurPackage> = Vec::new();
    let ghost mut first = true;
    proof {
        assert(pkg_names(order@) =~= Seq::<Seq<char>>::empty());
        assert(strings_view(frontier@) + pkg_names(order@) =~= rv);
    }
    while frontier.len() > 0
        invariant
            roots@.len() > 0,
            rv == strings_view(roots@),
            forall|c: &[String]| info.requires((c,)),
            forall|s: &str| installed.requires((s,)),
            walk_state(
                rv,
                strings_view(frontier@),
                order@,
                strings_view(seen@),
                first,
                installed,
            ),
            forall|i: int| 0 <= i < order@.len() ==> from_lookup(info, #[trigger] order@[i]@),
            forall|x: Seq<char>|
                #[trigger] strings_view(seen@).contains(x) ==> strings_view(frontier@).contains(x)
                    || pkg_names(order@).contains(x) || not_in_aur(info, x),
            forall|i: int, d: Seq<char>|
                0 <= i < order@.len() && #[trigger] dep_names_spec(order@[i]@).contains(d)
                    ==> reported_installed(installed, d) || strings_view(seen@).contains(d),
        decreases usize::MAX - seen.len(), frontier.len(),
    {
        let mut names: Vec<String> = Vec::new();
        let mut k: usize = 0;
        while k < frontier.len()
            invariant
                k <= frontier@.len(),
                strings_view(names@) == strings_view(frontier@).take(k as int),
            decreases frontier.len() - k,
        {
            let ghost before = strings_view(names@);
            names.push(frontier[k].clone());
            assert(strings_view(names@) =~= before.push(strings_view(frontier@)[k as int]));
            assert(strings_view(frontier@).take(k + 1) =~= strings_view(frontier@).take(k as int).push(
                strings_view(frontier@)[k as int],
            ));
            k = k + 1;
        }
        assert(strings_view(frontier@).take(frontier@.len() as int) =~= strings_view(frontier@));
        let ghost fn0 = strings_view(frontier@);
        let found = match lookup_in_chunks(&names, info) {
            Ok(f) => f,
            Err(e) => {
                return Err(e);
            },
        };
        let ghost chunks = choose|chunks: Seq<Seq<AurPackage>>|
            answered_chunks(info, names@, chunks) && found@ == joined(chunks);
        let ghost sv0 = strings_view(seen@);
        let ghost len0 = seen@.len();
        let (level, next, Ghost(idx)) = walk_level(&frontier, &found, installed, &mut seen);
        proof {
            lemma_walk_round(
                rv,
                strings_view(frontier@),
                order@,
                sv0,
                first,
                installed,
                level@,
                idx,
                strings_view(next@),
            );
            first = false;
            assert(seen@.len() == len0 + next@.len()) by {
                assert(strings_view(seen@).len() == seen@.len());
            }
        }
        let ghost lv = level@;
        let ghost ov = order@;
        proof {
            assert forall|t: int| 0 <= t < lv.len() implies from_lookup(info, #[trigger] lv[t]@) by {
                assert(aur_views(found@).contains(lv[t]@));
                lemma_joined_from_lookup(info, names@, chunks, lv[t]@);
            }
        }
        let mut level = level;
        let mut rest = order;
        level.append(&mut rest);
        order = level;
        frontier = next;
        proof {
            assert(order@ =~= lv + ov);
            let svn = strings_view(seen@);
            let nn = strings_view(frontier@);
            assert(svn == sv0 + nn);
            assert forall|x: Seq<char>| #[trigger] svn.contains(x) implies nn.contains(x) || pkg_names(
                order@,
            ).contains(x) || not_in_aur(info, x) by {
                let w = choose|w: int| 0 <= w < svn.len() && svn[w] == x;
                if w >= sv0.len() {
                    assert(nn[w - sv0.len()] == x);
                } else {
                    assert(sv0[w] == x);
                    assert(sv0.contains(x));
                    if fn0.contains(x) {
                        let q = choose|q: int| 0 <= q < fn0.len() && fn0[q] == x;
                        if pkg_names(lv).contains(x) {
                            let a = choose|a: int| 0 <= a < pkg_names(lv).len() && pkg_names(lv)[a] == x;
                            assert(pkg_names(order@)[a] == x);
                        } else {
                            assert(!pkg_names(found@).contains(fn0[q]));
                            assert(strings_view(names@) == fn0);
                            lemma_absent_not_in_aur(info, names@, chunks, x);
                        }
                    } else if pkg_names(ov).contains(x) {
                        let a = choose|a: int| 0 <= a < pkg_names(ov).len() && pkg_names(ov)[a] == x;
                        assert(pkg_names(order@)[lv.len() + a] == x);
                    }
                }
            }
            assert forall|i: int, d: Seq<char>|
                0 <= i < order@.len() && #[trigger] dep_names_spec(order@[i]@).contains(d)
                implies reported_installed(installed, d) || svn.contains(d) by {
                if i < lv.len() {
                    assert(order@[i] == lv[i]);
                    assert(dep_names_spec(lv[i]@).contains(d));
                } else {
                    assert(order@[i] == ov[i - lv.len()]);
                    assert(dep_names_spec(ov[i - lv.len()]@).contains(d));
                    if sv0.contains(d) {
                        let w = choose|w: int| 0 <= w < sv0.len() && sv0[w] == d;
                        assert(svn[w] == d);
                    }
                }
            }
            assert forall|i: int| 0 <= i < order@.len() implies from_lookup(info, #[trigger] order@[i]@) by {
                if i < lv.len() {
                    assert(order@[i] == lv[i]);
                } else {
                    assert(order@[i] == ov[i - lv.len()]);
                }
            }
        }
    }
    proof {
        let sv = strings_view(seen@);
        assert(strings_view(frontier@).len() == 0);
        assert forall|x: Seq<char>| #[trigger] rv.contains(x) implies pkg_names(order@).contains(x)
            || not_in_aur(info, x) by {
            assert(sv.contains(x));
        }
        assert forall|i: int, d: Seq<char>|
            0 <= i < order@.len() && #[trigger] dep_names_spec(order@[i]@).contains(d)
            implies pkg_names(order@).contains(d) || reported_installed(installed, d) || not_in_aur(
            info,
            d,
        ) by {
            if sv.contains(d) {
                assert(!strings_view(frontier@).contains(d));
            }
        }
    }
    Ok(order)
}

/// `j` occurs in `perm`.
pub open spec fn in_perm(perm: Seq<int>, j: int) -> bool {
    exists|k: int| 0 <= k < perm.len() && perm[k] == j
}

/// `perm` lists every index below `n` exactly once.
pub open spec fn is_permutation(perm: Seq<int>, n: int) -> bool {
    &&& forall|k: int| 0 <= k < perm.len() ==> 0 <= #[trigger] perm[k] < n
    &&& forall|k: int, l: int| 0 <= k < l < perm.len() ==> perm[k] != perm[l]
    &&& forall|j: int| 0 <= j < n ==> #[trigger] in_perm(perm, j)
}

/// `y` occurs in `perm` before position `k`.
pub open spec fn in_prefix(perm: Seq<int>, k: int, y: int) -> bool {
    exists|q: int| 0 <= q < k && perm[q] == y
}

/// Every index below `perm[k]` occurs in `perm` before position `k`.
pub open spec fn perm_after_earlier(perm: Seq<int>, k: int) -> bool {
    forall|y: int| 0 <= y < perm[k] ==> #[trigger] in_prefix(perm, k, y)
}

/// Every dependency of a package that the chain holds comes before it.
pub open spec fn deps_first(chain: Seq<AurPackage>) -> bool {
    forall|i: int, d: Seq<char>|
        0 <= i < chain.len() && #[trigger] dep_names_spec(chain[i]@).contains(d) && pkg_names(
            chain,
        ).contains(d) ==> exists|j: int| 0 <= j < i && chain[j].name@ == d
}

/// Some record named `root` is placed (coloured 2).
pub open spec fn root_black(names: Seq<String>, colors: Seq<u8>, root: Seq<char>) -> bool {
    exists|j: int| 0 <= j < names.len() && names[j]@ == root && colors[j] == 2
}

/// Every root that names a record has such a record in `out`.
pub open spec fn roots_placed(names: Seq<String>, roots: Seq<String>, out: Seq<usize>) -> bool {
    forall|q: int|
        0 <= q < roots.len() && strings_view(names).contains(roots[q]@) ==> exists|j: int|
            0 <= j < names.len() && names[j]@ == roots[q]@ && #[trigger] out.contains(j as usize)
}

/// The walk reported `msg` going down from some record, which is named by
/// a root when `from_roots`.
pub open spec fn reported_from_root(
    recs: Seq<AurPackage>,
    names: Seq<String>,
    edges: Seq<Vec<usize>>,
    roots: Seq<String>,
    from_roots: bool,
    msg: Seq<char>,
) -> bool {
    exists|b: usize|
        b < recs.len() && #[trigger] reported_from(recs, names, edges, b, msg) && (from_roots
            ==> strings_view(roots).contains(names[b as int]@))
}

/// One depth-first pass: from the roots (in the order given) when
/// `from_roots`, else from every record in order.
fn dfs_pass(
    recs: &Vec<AurPackage>,
    names: &Vec<String>,
    edges: &Vec<Vec<usize>>,
    roots: &[String],
    from_roots: bool,
) -> (r: Result<Vec<usize>, String>)
    requires
        edges_of(recs@, edges@),
        strings_view(names@) == pkg_names(recs@),
        names@.len() == recs@.len(),
    ensures
        r matches Ok(out) ==> {
            &&& out_ordered(edges@, out@)
            &&& forall|p: int| 0 <= p < out@.len() ==> #[trigger] out@[p] < recs@.len()
            &&& !from_roots ==> forall|x: int| 0 <= x < recs@.len() ==> #[trigger] out@.contains(x as usize)
            &&& recs@.len() == 0 ==> out@.len() == 0
        },
        r matches Ok(out) ==> (from_roots ==> roots_placed(names@, roots@, out@)),
        r matches Err(e) ==> reported_from_root(recs@, names@, edges@, roots@, from_roots, e@),
        recs@.len() == 0 ==> r is Ok,
        r matches Ok(out) ==> (!from_roots ==> forall|p: int|
            0 <= p < out@.len() && !has_incoming(edges@, out@[p]) ==> #[trigger] after_earlier(
                out@,
                p,
            )),
        r matches Err(e) ==> exists|cyc: Seq<Seq<char>>|
            cycle_in(recs@, cyc) && e@ == "dependency cycle: "@ + join_arrows(cyc),
{
    let n = recs.len();
    let mut colors: Vec<u8> = Vec::new();
    let mut z: usize = 0;
    while z < n
        invariant
            z <= n,
            colors@.len() == z,
            forall|x: int| 0 <= x < z ==> #[trigger] colors@[x] == 0,
        decreases n - z,
    {
        colors.push(0);
        z = z + 1;
    }
    let mut stack: Vec<usize> = Vec::new();
    let mut out: Vec<usize> = Vec::new();
    let mut q: usize = 0;
    while from_roots && q < roots.len()
        invariant
            n == recs@.len(),
            edges_of(recs@, edges@),
            strings_view(names@) == pkg_names(recs@),
            dfs_ok(edges@, colors@, stack@, out@),
            names@.len() == n,
            stack@.len() == 0,
            n == 0 ==> out@.len() == 0,
            !from_roots ==> out@.len() == 0,
            !from_roots ==> forall|x: int| 0 <= x < n ==> #[trigger] colors@[x] == 0,
            q <= roots@.len(),
            forall|q2: int|
                0 <= q2 < q && strings_view(names@).contains(roots@[q2]@) ==> #[trigger] root_black(
                    names@,
                    colors@,
                    roots@[q2]@,
                ),
        decreases roots.len() - q,
    {
        proof {
            lemma_whites_bound(colors@);
        }
        let ghost c0 = colors@;
        match first_named(names, roots[q].as_str()) {
            Some(j) => {
                if colors[j] == 0 {
                    let ghost s_pre = stack@;
                    match visit(recs, names, edges, j, &mut colors, &mut stack, &mut out, n) {
                        Ok(()) => {},
                        Err(e) => {
                            proof {
                                assert(s_pre =~= Seq::<usize>::empty());
                                assert(bottom_of(s_pre, j) == j);
                                assert(reported_from(recs@, names@, edges@, j, e@));
                                assert(strings_view(roots@)[q as int] == roots@[q as int]@);
                                assert(strings_view(roots@).contains(names@[j as int]@));
                                assert(reported_from_root(recs@, names@, edges@, roots@, from_roots, e@));
                            }
                            return Err(e);
                        },
                    }
                } else {
                    assert(colors@[j as int] != 1);
                }
                proof {
                    assert(colors@[j as int] == 2);
                    assert(root_black(names@, colors@, roots@[q as int]@));
                    assert forall|q2: int|
                        0 <= q2 < q + 1 && strings_view(names@).contains(roots@[q2]@) implies #[trigger] root_black(
                        names@,
                        colors@,
                        roots@[q2]@,
                    ) by {
                        if q2 < q {
                            assert(root_black(names@, c0, roots@[q2]@));
                            let w = choose|w: int|
                                0 <= w < names@.len() && names@[w]@ == roots@[q2]@ && c0[w] == 2;
                            assert(colors@[w] == 2);
                        }
                    }
                }
            },
            None => {
                proof {
                    assert forall|q2: int|
                        0 <= q2 < q + 1 && strings_view(names@).contains(roots@[q2]@) implies #[trigger] root_black(
                        names@,
                        colors@,
                        roots@[q2]@,
                    ) by {
                        if q2 == q {
                            assert(false);
                        }
                    }
                }
            },
        }
        q = q + 1;
    }
    if from_roots {
        proof {
            assert forall|q2: int|
                0 <= q2 < roots@.len() && strings_view(names@).contains(roots@[q2]@) implies exists|j2: int|
                0 <= j2 < names@.len() && names@[j2]@ == roots@[q2]@ && #[trigger] out@.contains(
                    j2 as usize,
                ) by {
                assert(root_black(names@, colors@, roots@[q2]@));
                let w = choose|w: int|
                    0 <= w < names@.len() && names@[w]@ == roots@[q2]@ && colors@[w] == 2;
                assert(out@.contains(w as usize));
            }
            assert(roots_placed(names@, roots@, out@));
        }
        return Ok(out);
    }
    let mut j: usize = 0;
    while j < n
        invariant
            n == recs@.len(),
            j <= n,
            edges_of(recs@, edges@),
            strings_view(names@) == pkg_names(recs@),
            dfs_ok(edges@, colors@, stack@, out@),
            names@.len() == n,
            stack@.len() == 0,
            n == 0 ==> out@.len() == 0,
            forall|x: int| 0 <= x < j ==> #[trigger] colors@[x] != 0,
            !from_roots,
            !from_roots ==> forall|x: int|
                j <= x < n && !has_incoming(edges@, x as usize) ==> #[trigger] colors@[x] == 0,
            !from_roots ==> forall|p: int|
                0 <= p < out@.len() && !has_incoming(edges@, out@[p]) ==> #[trigger] after_earlier(
                    out@,
                    p,
                ),
        decreases n - j,
    {
        proof {
            lemma_whites_bound(colors@);
        }
        if colors[j] == 0 {
            let ghost c0 = colors@;
            let ghost o0 = out@;
            let ghost s_pre = stack@;
            match visit(recs, names, edges, j, &mut colors, &mut stack, &mut out, n) {
                Ok(()) => {},
                Err(e) => {
                    proof {
                        assert(s_pre =~= Seq::<usize>::empty());
                        assert(bottom_of(s_pre, j) == j);
                        assert(reported_from(recs@, names@, edges@, j, e@));
                        assert(reported_from_root(recs@, names@, edges@, roots@, from_roots, e@));
                    }
                    return Err(e);
                },
            }
            assert forall|x: int| 0 <= x < j + 1 implies #[trigger] colors@[x] != 0 by {
                if x < j {
                    assert(c0[x] != 0);
                }
            }
            proof {
                if !from_roots {
                    assert forall|p: int| 0 <= p < o0.len() implies out@[p] == o0[p] by {
                        assert(out@.take(o0.len() as int)[p] == o0[p]);
                    }
                    assert forall|x: int|
                        j + 1 <= x < n && !has_incoming(edges@, x as usize) implies #[trigger] colors@[x]
                        == 0 by {
                        assert(c0[x] == 0);
                        if colors@[x] != 0 {
                            assert(colors@[x] != 1);
                            assert(out@.contains(x as usize));
                            let p = choose|p: int| 0 <= p < out@.len() && out@[p] == x as usize;
                            if p < o0.len() {
                                assert(o0[p] == x);
                                assert(c0[o0[p] as int] == 2);
                            } else if p < out@.len() - 1 {
                                assert(has_incoming(edges@, out@[p]));
                            }
                        }
                    }
                    assert forall|p: int|
                        0 <= p < out@.len() && !has_incoming(edges@, out@[p]) implies #[trigger] after_earlier(
                        out@,
                        p,
                    ) by {
                        if p < o0.len() {
                            assert(after_earlier(o0, p));
                            assert forall|y: int| 0 <= y < out@[p] implies #[trigger] placed_before(
                                out@,
                                p,
                                y as usize,
                            ) by {
                                assert(placed_before(o0, p, y as usize));
                                let q = choose|q: int| 0 <= q < p && o0[q] == y as usize;
                                assert(out@[q] == o0[q]);
                            }
                        } else {
                            assert(p == out@.len() - 1);
                            assert(out@[p] == j);
                            assert forall|y: int| 0 <= y < out@[p] implies #[trigger] placed_before(
                                out@,
                                p,
                                y as usize,
                            ) by {
                                assert(c0[y] != 0);
                                assert(c0[y] != 1);
                                assert(o0.contains(y as usize));
                                let q = choose|q: int| 0 <= q < o0.len() && o0[q] == y as usize;
                                assert(out@[q] == o0[q]);
                            }
                        }
                    }
                }
            }
        }
        j = j + 1;
    }
    proof {
        assert forall|x: int| 0 <= x < n implies #[trigger] out@.contains(x as usize) by {
            assert(colors@[x] != 0);
            if colors@[x] == 1 {
                assert(stack@.contains(x as usize));
            }
            assert(colors@[x] == 2);
        }
    }
    Ok(out)
}

/// Every record that is not named by a root is a dependency of a record
/// gathered after it.
pub open spec fn rooted(recs: Seq<AurPackage>, roots: Seq<Seq<char>>) -> bool {
    forall|i: int|
        0 <= i < recs.len() ==> roots.contains(#[trigger] recs[i].name@) || needed_after(
            recs,
            i,
            recs[i].name@,
        )
}

/// `path` goes from a root, by dependencies among `recs`, to the first name
/// of `cyc`, and meets no name of `cyc` before it.
pub open spec fn root_path(
    recs: Seq<AurPackage>,
    roots: Seq<Seq<char>>,
    path: Seq<Seq<char>>,
    cyc: Seq<Seq<char>>,
) -> bool {
    &&& path.len() >= 1
    &&& roots.contains(path[0])
    &&& path.last() == cyc[0]
    &&& forall|k: int| 0 <= k < path.len() - 1 ==> #[trigger] dep_edge(recs, path[k], path[k + 1])
    &&& forall|k: int| 0 <= k < path.len() - 1 ==> !cyc.contains(#[trigger] path[k])
}

/// The position of `x` in `out`.
spec fn position_in(out: Seq<usize>, x: usize) -> int {
    choose|q: int| 0 <= q < out.len() && out[q] == x
}

/// Along a path of the walk whose records are all placed, each record is
/// placed before the one above it.
proof fn lemma_placed_descends(edges: Seq<Vec<usize>>, out: Seq<usize>, st: Seq<usize>, pos: int, m: int)
    requires
        out_ordered(edges, out),
        forall|k: int| 0 <= k < st.len() ==> out.contains(#[trigger] st[k]),
        forall|k: int| 0 <= k < st.len() - 1 ==> edges[#[trigger] st[k] as int]@.contains(st[k + 1]),
        forall|p: int| 0 <= p < out.len() ==> #[trigger] out[p] < edges.len(),
        0 <= pos <= m < st.len(),
    ensures
        0 <= position_in(out, st[m]) < out.len(),
        out[position_in(out, st[m])] == st[m],
        position_in(out, st[m]) + (m - pos) <= position_in(out, st[pos]),
    decreases m - pos,
{
    assert(out.contains(st[m]));
    if m > pos {
        lemma_placed_descends(edges, out, st, pos, m - 1);
        let a = position_in(out, st[m - 1]);
        let l = m - 1;
        assert(edges[st[l] as int]@.contains(st[l + 1]));
        let t = choose|t: int| 0 <= t < edges[out[a] as int]@.len() && edges[out[a] as int]@[t] == st[m];
        assert(placed_before(out, a, edges[out[a] as int]@[t]));
        let q = choose|q: int| 0 <= q < a && out[q] == st[m];
        let b = position_in(out, st[m]);
        if q != b {
            if q < b {
                assert(out[q] != out[b]);
            } else {
                assert(out[b] != out[q]);
            }
        }
    }
}

/// A walk that placed every record in dependency order finds no path that
/// leads back into itself.
proof fn lemma_no_back_edge(edges: Seq<Vec<usize>>, out: Seq<usize>, st: Seq<usize>, pos: int)
    requires
        out_ordered(edges, out),
        forall|k: int| 0 <= k < st.len() ==> out.contains(#[trigger] st[k]),
        forall|k: int| 0 <= k < st.len() - 1 ==> edges[#[trigger] st[k] as int]@.contains(st[k + 1]),
        forall|p: int| 0 <= p < out.len() ==> #[trigger] out[p] < edges.len(),
        0 <= pos < st.len(),
    ensures
        !edges[st.last() as int]@.contains(st[pos]),
{
    if !edges[st.last() as int]@.contains(st[pos]) {
        return;
    }
    let m = st.len() - 1;
    lemma_placed_descends(edges, out, st, pos, m);
    lemma_placed_descends(edges, out, st, pos, pos);
    let a = position_in(out, st[m]);
    let t = choose|t: int| 0 <= t < edges[out[a] as int]@.len() && edges[out[a] as int]@[t] == st[pos];
    assert(placed_before(out, a, edges[out[a] as int]@[t]));
    let q = choose|q: int| 0 <= q < a && out[q] == st[pos];
    let b = position_in(out, st[pos]);
    if q != b {
        if q < b {
            assert(out[q] != out[b]);
        } else {
            assert(out[b] != out[q]);
        }
    }
}

/// With distinct names, two records of the same name are one.
proof fn lemma_same_name(recs: Seq<AurPackage>, u: int, v: int)
    requires
        all_distinct(pkg_names(recs)),
        0 <= u < recs.len(),
        0 <= v < recs.len(),
        recs[u].name@ == recs[v].name@,
    ensures
        u == v,
{
    assert(pkg_names(recs)[u] == recs[u].name@);
    assert(pkg_names(recs)[v] == recs[v].name@);
    if u < v {
        assert(pkg_names(recs)[u] != pkg_names(recs)[v]);
    } else if v < u {
        assert(pkg_names(recs)[v] != pkg_names(recs)[u]);
    }
}

/// With distinct names, a walk from the roots that placed a record for
/// every root placed every record of a gathering in which each record is
/// a root or a dependency of a later one.
#[verifier::rlimit(30)]
proof fn lemma_all_placed(
    recs: Seq<AurPackage>,
    names: Seq<String>,
    edges: Seq<Vec<usize>>,
    roots: Seq<String>,
    out: Seq<usize>,
    i: int,
)
    requires
        edges_of(recs, edges),
        strings_view(names) == pkg_names(recs),
        names.len() == recs.len(),
        all_distinct(pkg_names(recs)),
        rooted(recs, strings_view(roots)),
        out_ordered(edges, out),
        roots_placed(names, roots, out),
        recs.len() <= usize::MAX,
        0 <= i < recs.len(),
    ensures
        out.contains(i as usize),
    decreases recs.len() - i,
{
    let x = recs[i].name@;
    if strings_view(roots).contains(x) {
        let q = choose|q: int| 0 <= q < strings_view(roots).len() && strings_view(roots)[q] == x;
        assert(roots[q]@ == x);
        assert(strings_view(names).contains(roots[q]@)) by {
            assert(strings_view(names)[i] == names[i]@);
            assert(pkg_names(recs)[i] == x);
        }
        let j = choose|j: int| 0 <= j < names.len() && names[j]@ == roots[q]@ && #[trigger] out.contains(j as usize);
        assert(recs[j].name@ == x) by {
            assert(strings_view(names)[j] == names[j]@);
            assert(pkg_names(recs)[j] == recs[j].name@);
        }
        lemma_same_name(recs, i, j);
    } else {
        assert(needed_after(recs, i, x));
        let j = choose|j: int| i < j < recs.len() && #[trigger] dep_names_spec(recs[j]@).contains(x);
        lemma_all_placed(recs, names, edges, roots, out, j);
        lemma_dependency_placed(recs, edges, out, j, i);
    }
}

/// With distinct names, the record a placed record depends on is placed.
proof fn lemma_dependency_placed(recs: Seq<AurPackage>, edges: Seq<Vec<usize>>, out: Seq<usize>, j: int, i: int)
    requires
        edges_of(recs, edges),
        all_distinct(pkg_names(recs)),
        out_ordered(edges, out),
        recs.len() <= usize::MAX,
        0 <= j < recs.len(),
        0 <= i < recs.len(),
        out.contains(j as usize),
        dep_names_spec(recs[j]@).contains(recs[i].name@),
    ensures
        out.contains(i as usize),
{
    let x = recs[i].name@;
    assert(pkg_names(recs).contains(x)) by {
        assert(pkg_names(recs)[i] == x);
    }
    assert(exists|t: int| 0 <= t < edges[j]@.len() && recs[edges[j]@[t] as int].name@ == x);
    let t = choose|t: int| 0 <= t < edges[j]@.len() && recs[edges[j]@[t] as int].name@ == x;
    let y = edges[j]@[t];
    assert(y < recs.len());
    lemma_same_name(recs, i, y as int);
    let p = choose|p: int| 0 <= p < out.len() && out[p] == j as usize;
    assert(edges[out[p] as int] == edges[j]);
    assert(0 <= t < edges[out[p] as int]@.len());
    assert(placed_before(out, p, edges[out[p] as int]@[t]));
    let q = choose|q: int| 0 <= q < p && out[q] == y;
    assert(out[q] == i as usize);
}

/// The cycle a walk from a root reports, with the path that led to it.
proof fn lemma_reported_cycle(
    recs: Seq<AurPackage>,
    names: Seq<String>,
    edges: Seq<Vec<usize>>,
    roots: Seq<String>,
    st: Seq<usize>,
    pos: int,
    msg: Seq<char>,
) -> (cyc: Seq<Seq<char>>)
    requires
        edges_of(recs, edges),
        strings_view(names) == pkg_names(recs),
        names.len() == recs.len(),
        dfs_report(recs, names, edges, st, pos, msg),
        strings_view(roots).contains(names[st[0] as int]@),
    ensures
        cycle_in(recs, cyc),
        msg == "dependency cycle: "@ + join_arrows(cyc),
        all_distinct(pkg_names(recs)) ==> exists|path: Seq<Seq<char>>|
            #[trigger] root_path(recs, strings_view(roots), path, cyc),
{
    let e = st[pos];
    lemma_dfs_cycle(recs, names, edges, st, pos, e);
    let cyc = names_at(names, st.skip(pos)).push(names[e as int]@);
    if all_distinct(pkg_names(recs)) {
        let path = names_at(names, st.take(pos + 1));
        assert(path[0] == names[st[0] as int]@);
        assert(path.last() == names[e as int]@);
        assert(cyc[0] == names[e as int]@);
        assert forall|k: int| 0 <= k < path.len() - 1 implies #[trigger] dep_edge(recs, path[k], path[k + 1]) by {
            let a = st[k];
            let b = st[k + 1];
            assert(path[k] == names[a as int]@);
            assert(path[k + 1] == names[b as int]@);
            assert(edges[a as int]@.contains(b));
            let w = choose|w: int| 0 <= w < edges[a as int]@.len() && edges[a as int]@[w] == b;
            assert(dep_names_spec(recs[a as int]@).contains(recs[b as int].name@));
            assert(strings_view(names)[a as int] == names[a as int]@);
            assert(strings_view(names)[b as int] == names[b as int]@);
        }
        assert forall|k: int| 0 <= k < path.len() - 1 implies !cyc.contains(#[trigger] path[k]) by {
            if cyc.contains(path[k]) {
                let m = choose|m: int| 0 <= m < cyc.len() && cyc[m] == path[k];
                let sm: int = if m < cyc.len() - 1 { pos + m } else { pos };
                assert(cyc[m] == names[st[sm] as int]@);
                assert(path[k] == names[st[k] as int]@);
                assert(st[k] != st[sm]);
                let u = st[k] as int;
                let v = st[sm] as int;
                assert(strings_view(names)[u] == names[u]@);
                assert(strings_view(names)[v] == names[v]@);
                if u < v {
                    assert(pkg_names(recs)[u] != pkg_names(recs)[v]);
                } else {
                    assert(pkg_names(recs)[v] != pkg_names(recs)[u]);
                }
            }
        }
        assert(root_path(recs, strings_view(roots), path, cyc));
    }
    cyc
}

/// Orders the gathered records depth first, dependencies before their
/// dependents. A first pass down from the roots, in the order given,
/// fails with the first dependency cycle it meets; otherwise a pass over
/// the records in the order gathered places them (and fails on a cycle
/// among records no root leads to).
fn order_chain(recs: &Vec<AurPackage>, roots: &[String]) -> (r: Result<Vec<AurPackage>, String>)
    ensures
        r matches Ok(chain) ==> exists|perm: Seq<int>|
            is_permutation(perm, recs@.len() as int) && perm.len() == chain@.len() && (forall|k: int|
                0 <= k < perm.len() ==> (#[trigger] chain@[k])@ == recs@[perm[k]]@) && (forall|k: int|
                0 <= k < perm.len() && !needed_in(recs@, recs@[perm[k]].name@) ==> #[trigger] perm_after_earlier(
                perm,
                k,
            )),
        r matches Ok(chain) ==> deps_first(chain@),
        recs@.len() == 0 ==> (r matches Ok(chain) && chain@.len() == 0),
        r matches Err(e) ==> exists|cyc: Seq<Seq<char>>|
            #[trigger] cycle_in(recs@, cyc) && e@ == "dependency cycle: "@ + join_arrows(cyc) && (
            all_distinct(pkg_names(recs@)) && rooted(recs@, strings_view(roots@)) ==> exists|
                path: Seq<Seq<char>>,
            | #[trigger] root_path(recs@, strings_view(roots@), path, cyc)),
{
    let n = recs.len();
    let mut names: Vec<String> = Vec::new();
    let mut i: usize = 0;
    while i < n
        invariant
            n == recs@.len(),
            i <= n,
            strings_view(names@) == pkg_names(recs@).take(i as int),
        decreases n - i,
    {
        let ghost before = strings_view(names@);
        names.push(recs[i].name.clone());
        assert(strings_view(names@) =~= before.push(recs@[i as int].name@));
        assert(pkg_names(recs@).take(i + 1) =~= pkg_names(recs@).take(i as int).push(recs@[i as int].name@));
        i = i + 1;
    }
    assert(pkg_names(recs@).take(n as int) =~= pkg_names(recs@));
    assert(names@.len() == n) by {
        assert(strings_view(names@).len() == names@.len());
    }
    let edges = edges_for(recs, &names);
    let first = dfs_pass(recs, &names, &edges, roots, true);
    let out1 = match first {
        Err(e) => {
            proof {
                let b = choose|b: usize|
                    b < recs@.len() && #[trigger] reported_from(recs@, names@, edges@, b, e@) && (true
                        ==> strings_view(roots@).contains(names@[b as int]@));
                reveal(reported_from);
                let (st, pos) = choose|st: Seq<usize>, pos: int|
                    #[trigger] dfs_report(recs@, names@, edges@, st, pos, e@) && st[0] == b;
                let cyc = lemma_reported_cycle(recs@, names@, edges@, roots@, st, pos, e@);
            }
            return Err(e);
        },
        Ok(o) => o,
    };
    let out = match dfs_pass(recs, &names, &edges, roots, false) {
        Ok(o) => o,
        Err(e) => {
            proof {
                if all_distinct(pkg_names(recs@)) && rooted(recs@, strings_view(roots@)) {
                    let b = choose|b: usize|
                        b < recs@.len() && #[trigger] reported_from(recs@, names@, edges@, b, e@) && (
                        false ==> strings_view(roots@).contains(names@[b as int]@));
                    reveal(reported_from);
                    let (st, pos) = choose|st: Seq<usize>, pos: int|
                        #[trigger] dfs_report(recs@, names@, edges@, st, pos, e@) && st[0] == b;
                    assert forall|k: int| 0 <= k < st.len() implies out1@.contains(#[trigger] st[k]) by {
                        lemma_all_placed(recs@, names@, edges@, roots@, out1@, st[k] as int);
                    }
                    lemma_no_back_edge(edges@, out1@, st, pos);
                }
            }
            return Err(e);
        },
    };
    let mut chain: Vec<AurPackage> = Vec::new();
    let mut k: usize = 0;
    while k < out.len()
        invariant
            n == recs@.len(),
            k <= out@.len(),
            chain@.len() == k,
            forall|p: int| 0 <= p < out@.len() ==> #[trigger] out@[p] < n,
            forall|p: int| 0 <= p < k ==> (#[trigger] chain@[p])@ == recs@[out@[p] as int]@,
        decreases out.len() - k,
    {
        chain.push(recs[out[k]].duplicate());
        k = k + 1;
    }
    proof {
        let perm = out@.map_values(|x: usize| x as int);
        assert forall|x: int| 0 <= x < n implies #[trigger] in_perm(perm, x) by {
            assert(out@.contains(x as usize));
            let w = choose|w: int| 0 <= w < out@.len() && out@[w] == x as usize;
            assert(perm[w] == x);
        }
        assert(is_permutation(perm, n as int));
        assert forall|k2: int| 0 <= k2 < perm.len() implies (#[trigger] chain@[k2])@ == recs@[perm[k2]]@ by {
            assert(perm[k2] == out@[k2] as int);
        }
        assert forall|k2: int|
            0 <= k2 < perm.len() && !needed_in(recs@, recs@[perm[k2]].name@) implies #[trigger] perm_after_earlier(
            perm,
            k2,
        ) by {
            let x = out@[k2];
            assert(perm[k2] == x as int);
            if has_incoming(edges@, x) {
                let (a, t) = choose|a: int, t: int|
                    0 <= a < edges@.len() && 0 <= t < edges@[a]@.len() && edges@[a]@[t] == x;
                assert(dep_names_spec(recs@[a]@).contains(recs@[edges@[a]@[t] as int].name@));
            }
            assert(after_earlier(out@, k2));
            assert forall|y: int| 0 <= y < perm[k2] implies #[trigger] in_prefix(perm, k2, y) by {
                assert(placed_before(out@, k2, y as usize));
                let q = choose|q: int| 0 <= q < k2 && out@[q] == y as usize;
                assert(perm[q] == y);
            }
        }
        assert forall|i2: int, d: Seq<char>|
            0 <= i2 < chain@.len() && #[trigger] dep_names_spec(chain@[i2]@).contains(d) && pkg_names(
                chain@,
            ).contains(d) implies exists|j2: int| 0 <= j2 < i2 && chain@[j2].name@ == d by {
            let a = out@[i2] as int;
            assert(chain@[i2]@ == recs@[a]@);
            let w = choose|w: int| 0 <= w < pkg_names(chain@).len() && pkg_names(chain@)[w] == d;
            assert(chain@[w]@ == recs@[out@[w] as int]@);
            assert(pkg_names(recs@)[out@[w] as int] == d);
            assert(dep_names_spec(recs@[a]@).contains(d));
            let t = choose|t: int| 0 <= t < edges@[a]@.len() && recs@[edges@[a]@[t] as int].name@ == d;
            assert(placed_before(out@, i2, edges@[out@[i2] as int]@[t]));
            let q2 = choose|q2: int| 0 <= q2 < i2 && out@[q2] == edges@[out@[i2] as int]@[t];
            assert(chain@[q2]@ == recs@[out@[q2] as int]@);
        }
    }
    Ok(chain)
}

/// `x` depends on `y` by a record that the lookup gave.
pub open spec fn looked_up_edge<F: Fn(&[String]) -> Result<Vec<AurPackage>, String>>(
    info: &F,
    x: Seq<char>,
    y: Seq<char>,
) -> bool {
    exists|p: AurView| from_lookup(info, p) && p.name == x && dep_names_spec(p).contains(y)
}

/// `cyc` is a dependency cycle among records that the lookup gave.
pub open spec fn looked_up_cycle<F: Fn(&[String]) -> Result<Vec<AurPackage>, String>>(
    info: &F,
    cyc: Seq<Seq<char>>,
) -> bool {
    &&& cyc.len() >= 2
    &&& cyc[0] == cyc.last()
    &&& forall|k: int| 0 <= k < cyc.len() - 1 ==> #[trigger] looked_up_edge(info, cyc[k], cyc[k + 1])
}

/// Every package of the chain that is not a root is a dependency of a
/// package of the chain.
pub open spec fn needed_by_some(order: Seq<AurPackage>, roots: Seq<Seq<char>>) -> bool {
    forall|i: int|
        0 <= i < order.len() && !roots.contains(#[trigger] order[i].name@) ==> needed_in(
            order,
            order[i].name@,
        )
}

/// No package of `order` depends on a root.
pub open spec fn no_root_needed(order: Seq<AurPackage>, roots: Seq<Seq<char>>) -> bool {
    forall|i: int, x: Seq<char>|
        0 <= i < order.len() && #[trigger] dep_names_spec(order[i]@).contains(x) ==> !roots.contains(
            x,
        )
}

/// What holds of a dependency chain for the roots `roots`: with distinct
/// roots no package occurs twice; every package that is not a root is a
/// dependency of one in the chain and was reported as not installed;
/// every dependency the chain holds comes before its dependent; and where
/// no package depends on a root, the roots come last (in the order given,
/// when they are distinct).
pub open spec fn chain_laws<G: Fn(&str) -> bool>(
    order: Seq<AurPackage>,
    roots: Seq<Seq<char>>,
    installed: &G,
) -> bool {
    &&& all_distinct(roots) ==> all_distinct(pkg_names(order))
    &&& needed_by_some(order, roots)
    &&& skips_installed(order, roots, installed)
    &&& deps_first(order)
    &&& no_root_needed(order, roots) ==> roots_last(pkg_names(order), roots) && (all_distinct(roots)
        ==> roots_in_order(pkg_names(order), roots))
}

/// Everything a successful walk for `roots` promises of its chain.
pub open spec fn chain_result<F, G>(
    order: Seq<AurPackage>,
    roots: Seq<Seq<char>>,
    info: &F,
    installed: &G,
) -> bool where F: Fn(&[String]) -> Result<Vec<AurPackage>, String>, G: Fn(&str) -> bool {
    &&& chain_laws(order, roots, installed)
    &&& forall|i: int| 0 <= i < order.len() ==> from_lookup(info, #[trigger] order[i]@)
    &&& forall|x: Seq<char>|
        #[trigger] roots.contains(x) ==> pkg_names(order).contains(x) || not_in_aur(info, x)
    &&& forall|i: int, d: Seq<char>|
        0 <= i < order.len() && #[trigger] dep_names_spec(order[i]@).contains(d) ==> pkg_names(
            order,
        ).contains(d) || reported_installed(installed, d) || not_in_aur(info, d)
}

/// Where the `k`-th name of a cycle through `chain` stands: at least `k`
/// places before the first.
proof fn lemma_cycle_descends(chain: Seq<AurPackage>, cyc: Seq<Seq<char>>, a0: int, k: int) -> (a:
    int)
    requires
        all_distinct(pkg_names(chain)),
        deps_first(chain),
        cycle_in(chain, cyc),
        0 <= a0 < chain.len(),
        chain[a0].name@ == cyc[0],
        0 <= k < cyc.len(),
    ensures
        0 <= a < chain.len(),
        chain[a].name@ == cyc[k],
        a + k <= a0,
    decreases k,
{
    if k == 0 {
        a0
    } else {
        let prev = lemma_cycle_descends(chain, cyc, a0, k - 1);
        let m = k - 1;
        assert(dep_edge(chain, cyc[m], cyc[m + 1]));
        let b = choose|b: int|
            0 <= b < chain.len() && chain[b].name@ == cyc[k - 1] && dep_names_spec(
                chain[b]@,
            ).contains(cyc[k]);
        assert(pkg_names(chain)[b] == pkg_names(chain)[prev]);
        assert(b == prev);
        if k < cyc.len() - 1 {
            assert(dep_edge(chain, cyc[k], cyc[k + 1]));
            let c = choose|c: int|
                0 <= c < chain.len() && chain[c].name@ == cyc[k] && dep_names_spec(
                    chain[c]@,
                ).contains(cyc[k + 1]);
            assert(pkg_names(chain)[c] == cyc[k]);
        } else {
            assert(pkg_names(chain)[a0] == cyc[k]);
        }
        assert(pkg_names(chain).contains(cyc[k]));
        let j = choose|j: int| 0 <= j < b && chain[j].name@ == cyc[k];
        j
    }
}

/// A chain in which no name occurs twice and every dependency comes before
/// the package that needs it holds no dependency cycle.
pub proof fn lemma_deps_first_has_no_cycle(chain: Seq<AurPackage>, cyc: Seq<Seq<char>>)
    requires
        all_distinct(pkg_names(chain)),
        deps_first(chain),
    ensures
        !cycle_in(chain, cyc),
{
    if cycle_in(chain, cyc) {
        let z: int = 0;
        assert(dep_edge(chain, cyc[z], cyc[z + 1]));
        let a0 = choose|a: int|
            0 <= a < chain.len() && chain[a].name@ == cyc[0] && dep_names_spec(chain[a]@).contains(
                cyc[1],
            );
        let a = lemma_cycle_descends(chain, cyc, a0, cyc.len() - 1);
        assert(pkg_names(chain)[a] == pkg_names(chain)[a0]);
    }
}

/// The chain of a successful walk for distinct roots holds no dependency
/// cycle.
pub proof fn lemma_chain_has_no_cycle<F, G>(
    order: Seq<AurPackage>,
    roots: Seq<Seq<char>>,
    info: &F,
    installed: &G,
    cyc: Seq<Seq<char>>,
) where F: Fn(&[String]) -> Result<Vec<AurPackage>, String>, G: Fn(&str) -> bool
    requires
        chain_result(order, roots, info, installed),
        all_distinct(roots),
    ensures
        !cycle_in(order, cyc),
{
    lemma_deps_first_has_no_cycle(order, cyc);
}

/// `path` goes from a root, by dependencies of records that the lookup
/// gave, to the first name of `cyc`, and meets no name of `cyc` before it.
pub open spec fn looked_up_root_path<F: Fn(&[String]) -> Result<Vec<AurPackage>, String>>(
    info: &F,
    roots: Seq<Seq<char>>,
    path: Seq<Seq<char>>,
    cyc: Seq<Seq<char>>,
) -> bool {
    &&& path.len() >= 1
    &&& roots.contains(path[0])
    &&& path.last() == cyc[0]
    &&& forall|k: int| 0 <= k < path.len() - 1 ==> #[trigger] looked_up_edge(info, path[k], path[k + 1])
    &&& forall|k: int| 0 <= k < path.len() - 1 ==> !cyc.contains(#[trigger] path[k])
}

/// Why a walk for `roots` may fail: a lookup failed with `e`, or `e`
/// reports a dependency cycle among the records the lookups gave; with
/// distinct roots, the cycle is named from where the walk down from a root
/// first meets it.
pub open spec fn walk_failed<F: Fn(&[String]) -> Result<Vec<AurPackage>, String>>(
    info: &F,
    roots: Seq<Seq<char>>,
    e: String,
) -> bool {
    lookup_failed(info, e) || exists|cyc: Seq<Seq<char>>|
        #[trigger] looked_up_cycle(info, cyc) && e@ == "dependency cycle: "@ + join_arrows(cyc) && (
        all_distinct(roots) ==> exists|path: Seq<Seq<char>>|
            #[trigger] looked_up_root_path(info, roots, path, cyc))
}

/// The AUR-only dependency chain of `roots`, every dependency before the
/// packages that need it; where no package of the chain depends on a
/// root, the roots come last, in the order given. `info(names)` gives the AUR records among
/// `names` (repository packages are simply absent); it is called in
/// chunks of at most 50 names per round of the walk. `installed(name)`
/// says whether pacman already has a dependency. The walk fails only when
/// a lookup fails or the records found have a dependency cycle, which the
/// error names starting where the walk down from a root first meets it;
/// with no roots it gives the empty chain.
pub fn expand_chain<F, G>(roots: &[String], info: &F, installed: &G) -> (r: Result<
    Vec<AurPackage>,
    String,
>) where F: Fn(&[String]) -> Result<Vec<AurPackage>, String>, G: Fn(&str) -> bool
    requires
        forall|c: &[String]| info.requires((c,)),
        forall|s: &str| installed.requires((s,)),
    ensures
        r matches Ok(order) ==> chain_result(order@, strings_view(roots@), info, installed),
        roots@.len() == 0 ==> (r matches Ok(order) && order@.len() == 0),
        r matches Err(e) ==> walk_failed(info, strings_view(roots@), e),
{
    let ghost rv = strings_view(roots@);
    let recs = match gather_chain(roots, info, installed) {
        Ok(v) => v,
        Err(e) => {
            return Err(e);
        },
    };
    let ghost g = recs@;
    match order_chain(&recs, roots) {
        Err(e) => {
            proof {
                let cyc = choose|cyc: Seq<Seq<char>>|
                    #[trigger] cycle_in(g, cyc) && e@ == "dependency cycle: "@ + join_arrows(cyc) && (
                    all_distinct(pkg_names(g)) && rooted(g, rv) ==> exists|path: Seq<Seq<char>>|
                        #[trigger] root_path(g, rv, path, cyc));
                if all_distinct(rv) {
                    assert(rooted(g, rv)) by {
                        assert forall|i: int| 0 <= i < g.len() implies rv.contains(#[trigger] g[i].name@)
                            || needed_after(g, i, g[i].name@) by {
                            if !rv.contains(g[i].name@) {
                                assert(needed_by_later(g, rv));
                            }
                        }
                    }
                    let path = choose|path: Seq<Seq<char>>| #[trigger] root_path(g, rv, path, cyc);
                    assert forall|k: int| 0 <= k < path.len() - 1 implies #[trigger] looked_up_edge(
                        info,
                        path[k],
                        path[k + 1],
                    ) by {
                        assert(dep_edge(g, path[k], path[k + 1]));
                        let a = choose|a: int|
                            0 <= a < g.len() && g[a].name@ == path[k] && dep_names_spec(g[a]@).contains(
                                path[k + 1],
                            );
                        assert(from_lookup(info, g[a]@));
                    }
                    assert(looked_up_root_path(info, rv, path, cyc));
                }
                assert forall|k: int| 0 <= k < cyc.len() - 1 implies #[trigger] looked_up_edge(
                    info,
                    cyc[k],
                    cyc[k + 1],
                ) by {
                    assert(dep_edge(g, cyc[k], cyc[k + 1]));
                    let a = choose|a: int|
                        0 <= a < g.len() && g[a].name@ == cyc[k] && dep_names_spec(g[a]@).contains(
                            cyc[k + 1],
                        );
                    assert(from_lookup(info, g[a]@));
                }
                assert(looked_up_cycle(info, cyc));
            }
            Err(e)
        },
        Ok(chain) => {
            proof {
                let c = chain@;
                let perm = choose|perm: Seq<int>|
                    is_permutation(perm, g.len() as int) && perm.len() == c.len() && (forall|k: int|
                        0 <= k < perm.len() ==> (#[trigger] c[k])@ == g[perm[k]]@) && (forall|k: int|
                        0 <= k < perm.len() && !needed_in(g, g[perm[k]].name@)
                            ==> #[trigger] perm_after_earlier(perm, k));
                lemma_chain_transfer(g, c, perm, rv, info, installed);
            }
            Ok(chain)
        },
    }
}

proof fn lemma_chain_transfer<F, G>(
    g: Seq<AurPackage>,
    c: Seq<AurPackage>,
    perm: Seq<int>,
    roots: Seq<Seq<char>>,
    info: &F,
    installed: &G,
) where F: Fn(&[String]) -> Result<Vec<AurPackage>, String>, G: Fn(&str) -> bool
    requires
        is_permutation(perm, g.len() as int),
        perm.len() == c.len(),
        forall|k: int| 0 <= k < perm.len() ==> (#[trigger] c[k])@ == g[perm[k]]@,
        forall|k: int|
            0 <= k < perm.len() && !needed_in(g, g[perm[k]].name@) ==> #[trigger] perm_after_earlier(
                perm,
                k,
            ),
        deps_first(c),
        walk_laws(g, roots, installed),
        forall|i: int| 0 <= i < g.len() ==> from_lookup(info, #[trigger] g[i]@),
        forall|x: Seq<char>|
            #[trigger] roots.contains(x) ==> pkg_names(g).contains(x) || not_in_aur(info, x),
        forall|i: int, d: Seq<char>|
            0 <= i < g.len() && #[trigger] dep_names_spec(g[i]@).contains(d) ==> pkg_names(
                g,
            ).contains(d) || reported_installed(installed, d) || not_in_aur(info, d),
    ensures
        chain_result(c, roots, info, installed),
{
    // names present in g are present in c and conversely
    assert forall|x: Seq<char>| pkg_names(g).contains(x) implies pkg_names(c).contains(x) by {
        let w = choose|w: int| 0 <= w < pkg_names(g).len() && pkg_names(g)[w] == x;
        assert(in_perm(perm, w));
        let k = choose|k: int| 0 <= k < perm.len() && #[trigger] perm[k] == w;
        assert(c[k]@ == g[w]@);
        assert(pkg_names(c)[k] == x);
    }
    assert forall|i: int| 0 <= i < c.len() implies from_lookup(info, #[trigger] c[i]@) by {
        assert(c[i]@ == g[perm[i]]@);
        assert(from_lookup(info, g[perm[i]]@));
    }
    assert forall|i: int, d: Seq<char>|
        0 <= i < c.len() && #[trigger] dep_names_spec(c[i]@).contains(d) implies pkg_names(
            c,
        ).contains(d) || reported_installed(installed, d) || not_in_aur(info, d) by {
        assert(c[i]@ == g[perm[i]]@);
        assert(dep_names_spec(g[perm[i]]@).contains(d));
    }
    if all_distinct(roots) {
        assert(all_distinct(pkg_names(g)));
        assert forall|a: int, b: int| 0 <= a < b < pkg_names(c).len() implies pkg_names(c)[a] != pkg_names(c)[b] by {
            assert(c[a]@ == g[perm[a]]@);
            assert(c[b]@ == g[perm[b]]@);
            assert(perm[a] != perm[b]);
            if perm[a] < perm[b] {
                assert(pkg_names(g)[perm[a]] != pkg_names(g)[perm[b]]);
            } else {
                assert(pkg_names(g)[perm[b]] != pkg_names(g)[perm[a]]);
            }
        }
    }
    assert forall|i: int| 0 <= i < c.len() && !roots.contains(#[trigger] c[i].name@) implies needed_in(
        c,
        c[i].name@,
    ) by {
        let a = perm[i];
        assert(c[i]@ == g[a]@);
        assert(g[a].name@ == c[i].name@);
        assert(needed_after(g, a, g[a].name@));
        let b = choose|b: int| a < b < g.len() && #[trigger] dep_names_spec(g[b]@).contains(g[a].name@);
        assert(in_perm(perm, b));
        let k = choose|k: int| 0 <= k < perm.len() && #[trigger] perm[k] == b;
        assert(c[k]@ == g[b]@);
        assert(dep_names_spec(c[k]@).contains(c[i].name@));
    }
    assert forall|i: int| 0 <= i < c.len() && !roots.contains(#[trigger] c[i].name@) implies not_installed(
        installed,
        c[i].name@,
    ) by {
        let a = perm[i];
        assert(c[i]@ == g[a]@);
        assert(g[a].name@ == c[i].name@);
    }
    if no_root_needed(c, roots) {
        assert forall|i: int, j: int| 0 <= i < j < c.len() && roots.contains(c[i].name@) implies perm[i]
            < perm[j] by {
            let x = perm[i];
            assert(c[i]@ == g[x]@);
            if needed_in(g, g[x].name@) {
                let t = choose|t: int| 0 <= t < g.len() && #[trigger] dep_names_spec(g[t]@).contains(
                    g[x].name@,
                );
                assert(in_perm(perm, t));
                let k = choose|k: int| 0 <= k < perm.len() && #[trigger] perm[k] == t;
                assert(c[k]@ == g[t]@);
                assert(dep_names_spec(c[k]@).contains(c[i].name@));
            }
            assert(perm_after_earlier(perm, i));
            assert(perm[i] != perm[j]);
            if perm[j] < perm[i] {
                assert(in_prefix(perm, i, perm[j]));
                let q = choose|q: int| 0 <= q < i && perm[q] == perm[j];
                assert(perm[q] != perm[j]);
            }
        }
        assert forall|i: int, j: int|
            0 <= i < j < pkg_names(c).len() && roots.contains(#[trigger] pkg_names(c)[i]) implies roots.contains(
            #[trigger] pkg_names(c)[j],
        ) by {
            assert(c[i]@ == g[perm[i]]@);
            assert(c[j]@ == g[perm[j]]@);
            assert(perm[i] < perm[j]);
            assert(pkg_names(g)[perm[i]] == pkg_names(c)[i]);
            assert(pkg_names(g)[perm[j]] == pkg_names(c)[j]);
        }
        if all_distinct(roots) {
            assert forall|i: int, j: int, a: int, b: int|
                #![trigger pkg_names(c)[i], pkg_names(c)[j], roots[a], roots[b]]
                0 <= i < j < pkg_names(c).len() && 0 <= a < roots.len() && 0 <= b < roots.len()
                    && roots[a] == pkg_names(c)[i] && roots[b] == pkg_names(c)[j] implies a < b by {
                assert(c[i]@ == g[perm[i]]@);
                assert(c[j]@ == g[perm[j]]@);
                assert(roots.contains(c[i].name@));
                assert(perm[i] < perm[j]);
                assert(pkg_names(g)[perm[i]] == pkg_names(c)[i]);
                assert(pkg_names(g)[perm[j]] == pkg_names(c)[j]);
            }
        }
    }
}

/// Each name comes strictly before the next in lexicographic order.
pub open spec fn strictly_sorted(s: Seq<Seq<char>>) -> bool {
    forall|a: int, b: int| 0 <= a < b < s.len() ==> lex_less(#[trigger] s[a], #[trigger] s[b])
}

/// `x` and `y` differ exactly when one comes strictly before the other.
proof fn lemma_lex_total(x: Seq<char>, y: Seq<char>)
    ensures
        x != y ==> (lex_less(x, y) <==> !lex_less(y, x)),
        x == y ==> !lex_less(x, y),
{
    crate::text::lemma_lex_order_antisym(x, y, 0);
    assert(x.subrange(0, 0) =~= y.subrange(0, 0));
    crate::text::lemma_lex_order_zero(x, y, 0);
}

/// The names of `found`, sorted and without repetitions.
pub fn sorted_names(found: &Vec<AurPackage>) -> (r: Vec<String>)
    ensures
        strictly_sorted(strings_view(r@)),
        forall|x: Seq<char>| strings_view(r@).contains(x) <==> pkg_names(found@).contains(x),
{
    let ghost fnm = pkg_names(found@);
    let mut out: Vec<String> = Vec::new();
    let mut i: usize = 0;
    while i < found.len()
        invariant
            i <= found@.len(),
            fnm == pkg_names(found@),
            strictly_sorted(strings_view(out@)),
            forall|x: Seq<char>|
                strings_view(out@).contains(x) <==> fnm.take(i as int).contains(x),
        decreases found.len() - i,
    {
        let name = &found[i].name;
        let nc = chars_of(name.as_str());
        let ghost ov = strings_view(out@);
        let mut p: usize = 0;
        while p < out.len() && lex_compare(&chars_of(out[p].as_str()), &nc) < 0
            invariant
                p <= out@.len(),
                ov == strings_view(out@),
                nc@ == name@,
                forall|a: int| 0 <= a < p ==> lex_less(ov[a], name@),
            decreases out.len() - p,
        {
            p = p + 1;
        }
        let present = p < out.len() && str_eq(out[p].as_str(), name.as_str());
        proof {
            assert(fnm.take(i + 1) =~= fnm.take(i as int).push(name@));
            assert(fnm[i as int] == name@);
        }
        if !present {
            proof {
                if p < ov.len() {
                    lemma_lex_total(ov[p as int], name@);
                    assert(!lex_less(ov[p as int], name@));
                }
            }
            out.insert(p, name.clone());
            proof {
                let nv = strings_view(out@);
                assert(nv =~= ov.insert(p as int, name@));
                assert forall|a: int, b: int| 0 <= a < b < nv.len() implies lex_less(
                    #[trigger] nv[a],
                    #[trigger] nv[b],
                ) by {
                    if b < p {
                        assert(nv[a] == ov[a] && nv[b] == ov[b]);
                    } else if b == p {
                        assert(nv[a] == ov[a]);
                    } else if a == p {
                        assert(nv[b] == ov[b - 1]);
                        if b - 1 > p {
                            assert(lex_less(ov[p as int], ov[b - 1]));
                            crate::text::lemma_lex_order_trans(name@, ov[p as int], ov[b - 1], 0);
                        }
                    } else if a < p {
                        assert(nv[a] == ov[a] && nv[b] == ov[b - 1]);
                        assert(lex_less(ov[a], name@));
                        if b - 1 >= p {
                            if b - 1 > p {
                                assert(lex_less(ov[p as int], ov[b - 1]));
                                crate::text::lemma_lex_order_trans(name@, ov[p as int], ov[b - 1], 0);
                            }
                            crate::text::lemma_lex_order_trans(ov[a], name@, ov[b - 1], 0);
                        }
                    } else {
                        assert(nv[a] == ov[a - 1] && nv[b] == ov[b - 1]);
                    }
                }
                let t0 = fnm.take(i as int);
                let t1 = fnm.take(i + 1);
                assert(t1 =~= t0.push(name@));
                assert forall|x: Seq<char>| nv.contains(x) <==> t1.contains(x) by {
                    if t1.contains(x) {
                        let w = choose|w: int| 0 <= w < t1.len() && t1[w] == x;
                        if w < t0.len() {
                            assert(t0[w] == x);
                            assert(t0.contains(x));
                            assert(ov.contains(x));
                        }
                    }
                    if t0.contains(x) {
                        let w = choose|w: int| 0 <= w < t0.len() && t0[w] == x;
                        assert(t1[w] == x);
                    }
                    assert(t1[i as int] == name@);
                    if nv.contains(x) {
                        let w = choose|w: int| 0 <= w < nv.len() && nv[w] == x;
                        if w < p {
                            assert(ov[w] == x);
                        } else if w > p {
                            assert(ov[w - 1] == x);
                        }
                    }
                    if ov.contains(x) {
                        let w = choose|w: int| 0 <= w < ov.len() && ov[w] == x;
                        if w < p {
                            assert(nv[w] == x);
                        } else {
                            assert(nv[w + 1] == x);
                        }
                    }
                    assert(nv[p as int] == name@);
                }
            }
        } else {
            proof {
                assert(ov[p as int] == name@);
                let t0 = fnm.take(i as int);
                let t1 = fnm.take(i + 1);
                assert(t1 =~= t0.push(name@));
                assert forall|x: Seq<char>| ov.contains(x) <==> t1.contains(x) by {
                    assert(ov.contains(name@));
                    if t1.contains(x) {
                        let w = choose|w: int| 0 <= w < t1.len() && t1[w] == x;
                        if w < t0.len() {
                            assert(t0[w] == x);
                            assert(t0.contains(x));
                        }
                    }
                    if t0.contains(x) {
                        let w = choose|w: int| 0 <= w < t0.len() && t0[w] == x;
                        assert(t1[w] == x);
                    }
                    assert(t1[i as int] == name@);
                }
            }
        }
        i = i + 1;
    }
    assert(fnm.take(fnm.len() as int) =~= fnm);
    out
}

/// The names among `names` that the AUR has, sorted and without
/// repetitions. `info` looks names up, at most 50 per request, in order.
/// The set comes back as a sorted `Vec` rather than a `HashSet`: vstd
/// specifies hash tables only for keys it knows to hash consistently
/// (integers and `bool`), not for `String`.
pub fn existing_names<F>(names: &[String], info: &F) -> (r: Result<Vec<String>, String>) where
    F: Fn(&[String]) -> Result<Vec<AurPackage>, String>,

    requires
        forall|c: &[String]| info.requires((c,)),
    ensures
        r matches Ok(v) ==> strictly_sorted(strings_view(v@)),
        r matches Ok(v) ==> exists|answers: Seq<Seq<AurPackage>>|
            answered_chunks(info, names@, answers) && forall|x: Seq<char>|
                strings_view(v@).contains(x) <==> pkg_names(joined(answers)).contains(x),
        r matches Err(e) ==> lookup_failed(info, e) && chunks_failed(info, names@, e),
{
    let mut all: Vec<String> = Vec::new();
    let mut i: usize = 0;
    while i < names.len()
        invariant
            i <= names@.len(),
            all@ == names@.take(i as int),
        decreases names.len() - i,
    {
        all.push(names[i].clone());
        assert(all@ =~= names@.take(i + 1));
        i = i + 1;
    }
    assert(all@ =~= names@);
    match lookup_in_chunks(&all, info) {
        Ok(found) => Ok(sorted_names(&found)),
        Err(e) => Err(e),
    }
}

/// `ops` are the four steps that install the AUR package `pkg`: fetch the
/// snapshot of its base (its own name without one), install its build
/// dependencies, build it, install it.
pub open spec fn installs_aur_package(ops: Seq<TransactionOperation>, pkg: AurView) -> bool {
    &&& ops.len() == 4
    &&& ops[0] matches TransactionOperation::FetchAurSource { package, package_base, url_path }
        && package@ == pkg.name && package_base@ == (match pkg.package_base {
        Some(b) => b,
        None => pkg.name,
    }) && opt_view(url_path) == pkg.url_path
    &&& ops[1] matches TransactionOperation::InstallAurBuildDeps { package } && package@ == pkg.name
    &&& ops[2] matches TransactionOperation::BuildAurPackage { package } && package@ == pkg.name
    &&& ops[3] matches TransactionOperation::InstallAurPackage { package } && package@ == pkg.name
}

/// The install plan of the AUR package `pkg`.
pub open spec fn aur_plan_for(plan: TransactionPlan, pkg: AurView) -> bool {
    &&& plan.backend_ref@ == "aur/"@ + pkg.name
    &&& plan.name@ == pkg.name
    &&& plan.requires_privilege
    &&& installs_aur_package(plan.operations@, pkg)
}

/// The plans for a dependency chain, one per package, in chain order.
pub open spec fn plans_for_chain(plans: Seq<TransactionPlan>, chain: Seq<AurPackage>) -> bool {
    plans.len() == chain.len() && forall|i: int|
        0 <= i < chain.len() ==> aur_plan_for(#[trigger] plans[i], chain[i]@)
}

impl AurBackend {
    /// Plans each package of a dependency chain in order; an empty chain
    /// means that nothing asked for is in the AUR.
    pub fn plan_chain(&self, chain: Vec<AurPackage>) -> (r: Result<Vec<TransactionPlan>, String>)
        ensures
            chain@.len() == 0 <==> r is Err,
            r matches Err(e) ==> e@ == "not found in AUR"@,
            r matches Ok(plans) ==> plans_for_chain(plans@, chain@),
    {
        if chain.len() == 0 {
            return Err(owned("not found in AUR"));
        }
        let ghost cv = chain@;
        let candidates = to_candidates(chain);
        assert(candidates_view(candidates@).len() == candidates@.len());
        let mut plans: Vec<TransactionPlan> = Vec::new();
        let mut i: usize = 0;
        while i < candidates.len()
            invariant
                i <= candidates@.len(),
                candidates_view(candidates@) == aur_views(cv).map_values(
                    |p: AurView| candidate_of(p),
                ),
                candidates@.len() == cv.len(),
                plans@.len() == i,
                forall|k: int| 0 <= k < i ==> aur_plan_for(#[trigger] plans@[k], cv[k]@),
            decreases candidates.len() - i,
        {
            let c = &candidates[i];
            proof {
                assert(candidates_view(candidates@)[i as int] == c@);
                assert(aur_views(cv)[i as int] == cv[i as int]@);
                assert(c@ == candidate_of(cv[i as int]@));
            }
            match self.plan_install(c) {
                Ok(plan) => {
                    proof {
                        reveal_strlit("aur/");
                        let ops = plan.operations@;
                        assert(installs_aur_package(ops, cv[i as int]@));
                    }
                    plans.push(plan);
                },
                Err(e) => {
                    return Err(e);
                },
            }
            i = i + 1;
        }
        Ok(plans)
    }

    /// Expands the AUR-only dependency chain of `roots` and plans each of
    /// its packages in order (see `expand_chain` for `info` and
    /// `installed`).
    pub fn expand_and_plan<F, G>(&self, roots: &[String], info: &F, installed: &G) -> (r: Result<
        Vec<TransactionPlan>,
        String,
    >) where F: Fn(&[String]) -> Result<Vec<AurPackage>, String>, G: Fn(&str) -> bool
        requires
            forall|c: &[String]| info.requires((c,)),
            forall|s: &str| installed.requires((s,)),
        ensures
            r matches Ok(plans) ==> exists|chain: Seq<AurPackage>|
                chain.len() > 0 && chain_result(chain, strings_view(roots@), info, installed)
                    && plans_for_chain(plans@, chain),
            r matches Err(e) ==> walk_failed(info, strings_view(roots@), e) || (e@
                == "not found in AUR"@ && forall|x: Seq<char>|
                #[trigger] strings_view(roots@).contains(x) ==> not_in_aur(info, x)),
    {
        let chain = match expand_chain(roots, info, installed) {
            Ok(c) => c,
            Err(e) => {
                return Err(e);
            },
        };
        let ghost cv = chain@;
        let r = self.plan_chain(chain);
        proof {
            if r is Ok {
                assert(cv.len() > 0);
            } else {
                assert forall|x: Seq<char>| #[trigger] strings_view(roots@).contains(x) implies not_in_aur(
                    info,
                    x,
                ) by {
                    assert(!pkg_names(cv).contains(x));
                }
            }
        }
        r
    }

    /// The chain of plans that installs `target` with its AUR dependencies.
    pub fn plan_install_chain<F, G>(&self, target: &Candidate, info: &F, installed: &G) -> (r:
        Result<Vec<TransactionPlan>, String>) where
        F: Fn(&[String]) -> Result<Vec<AurPackage>, String>,
        G: Fn(&str) -> bool,

        requires
            forall|c: &[String]| info.requires((c,)),
            forall|s: &str| installed.requires((s,)),
        ensures
            r matches Ok(plans) ==> exists|chain: Seq<AurPackage>|
                chain.len() > 0 && chain_result(chain, seq![target.name@], info, installed)
                    && plans_for_chain(plans@, chain),
            r matches Err(e) ==> walk_failed(info, seq![target.name@], e) || (e@
                == "not found in AUR"@ && forall|x: Seq<char>|
                #[trigger] seq![target.name@].contains(x) ==> not_in_aur(info, x)),
    {
        let roots: Vec<String> = vec![target.name.clone()];
        assert(strings_view(roots@) =~= seq![target.name@]);
        self.expand_and_plan(roots.as_slice(), info, installed)
    }

    /// The chain of plans that upgrades `targets` with their AUR
    /// dependencies, the targets last.
    pub fn plan_upgrade_chain<F, G>(&self, targets: &[Candidate], info: &F, installed: &G) -> (r:
        Result<Vec<TransactionPlan>, String>) where
        F: Fn(&[String]) -> Result<Vec<AurPackage>, String>,
        G: Fn(&str) -> bool,

        requires
            forall|c: &[String]| info.requires((c,)),
            forall|s: &str| installed.requires((s,)),
        ensures
            r matches Ok(plans) ==> exists|chain: Seq<AurPackage>|
                chain.len() > 0 && chain_result(
                    chain,
                    targets@.map_values(|t: Candidate| t.name@),
                    info,
                    installed,
                ) && plans_for_chain(plans@, chain),
            r matches Err(e) ==> walk_failed(info, targets@.map_values(|t: Candidate| t.name@), e)
                || (e@ == "not found in AUR"@ && forall|x: Seq<char>|
                targets@.map_values(|t: Candidate| t.name@).contains(x) ==> #[trigger] not_in_aur(
                info,
                x,
            )),
    {
        let mut roots: Vec<String> = Vec::new();
        let mut i: usize = 0;
        while i < targets.len()
            invariant
                i <= targets@.len(),
                strings_view(roots@) == targets@.map_values(|t: Candidate| t.name@).take(i as int),
            decreases targets.len() - i,
        {
            let ghost before = strings_view(roots@);
            roots.push(targets[i].name.clone());
            assert(strings_view(roots@) =~= before.push(targets@[i as int].name@));
            assert(targets@.map_values(|t: Candidate| t.name@).take(i + 1) =~= targets@.map_values(
                |t: Candidate| t.name@,
            ).take(i as int).push(targets@[i as int].name@));
            i = i + 1;
        }
        assert(targets@.map_values(|t: Candidate| t.name@).take(targets@.len() as int)
            =~= targets@.map_values(|t: Candidate| t.name@));
        self.expand_and_plan(roots.as_slice(), info, installed)
    }

    /// The AUR packages among `installed` that are newer in the AUR than
    /// the version `current` reports as installed, as candidates.
    pub fn outdated<F, G>(&self, installed: &[String], info: &F, current: &G) -> (r: Result<
        Vec<Candidate>,
        String,
    >) where F: Fn(&[String]) -> Result<Vec<AurPackage>, String>, G: Fn(&str) -> Option<String>
        requires
            forall|c: &[String]| info.requires((c,)),
            forall|s: &str| current.requires((s,)),
        ensures
            r matches Ok(cands) ==> exists|
                chunks: Seq<Seq<AurPackage>>,
                answers: Seq<Option<Seq<char>>>,
            |
                answered_chunks(info, installed@, chunks) && versions_answered(
                    current,
                    aur_views(joined(chunks)),
                    answers,
                ) && candidates_view(cands@) == outdated_filter(
                    aur_views(joined(chunks)),
                    answers,
                ).map_values(|p: AurView| candidate_of(p)),
            r matches Err(e) ==> lookup_failed(info, e),
    {
        let mut names: Vec<String> = Vec::new();
        let mut i: usize = 0;
        while i < installed.len()
            invariant
                i <= installed@.len(),
                names@ == installed@.take(i as int),
            decreases installed.len() - i,
        {
            names.push(installed[i].clone());
            assert(names@ =~= installed@.take(i + 1));
            i = i + 1;
        }
        assert(names@ =~= installed@);
        let found = match lookup_in_chunks(&names, info) {
            Ok(f) => f,
            Err(e) => {
                return Err(e);
            },
        };
        let ghost chunks = choose|chunks: Seq<Seq<AurPackage>>|
            answered_chunks(info, names@, chunks) && found@ == joined(chunks);
        let ghost fv = aur_views(found@);
        let kept = filter_outdated(found, current);
        let ghost kv = aur_views(kept@);
        let r = to_candidates(kept);
        proof {
            let answers = choose|answers: Seq<Option<Seq<char>>>|
                versions_answered(current, fv, answers) && kv == outdated_filter(fv, answers);
            assert(answered_chunks(info, installed@, chunks) && versions_answered(
                current,
                aur_views(joined(chunks)),
                answers,
            ) && candidates_view(r@) == outdated_filter(
                aur_views(joined(chunks)),
                answers,
            ).map_values(|p: AurView| candidate_of(p)));
        }
        Ok(r)
    }
}

} // verus!
