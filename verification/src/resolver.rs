//! Ranking of the candidates that the backends find for a query, and the
//! decision between a clear winner, an ambiguous choice and nothing found.

use vstd::prelude::*;
use crate::backend::PackageBackend;
use crate::model::{Candidate, Source};
use crate::text::{
    chars_of, contains_chars, contains_seq, has_prefix, occurs_at, owned, push_str, starts_with, str_eq,
};

verus! {

/// A backend that failed while searching.
#[derive(Debug, Clone, PartialEq, Eq)]
pub struct BackendError {
    pub backend: String,
    pub message: String,
}

/// How a candidate's name matches the query.
#[derive(Debug, Clone, Copy, PartialEq, Eq)]
pub enum MatchKind {
    Exact,
    Prefix,
    Substring,
}

/// Why a candidate got its score.
#[derive(Debug, Clone, PartialEq, Eq)]
pub enum Reason {
    ExactName,
    PrefixName,
    SubstringName,
    BackendMatch,
    BackendPriority(&'static str),
    PreferredBackend,
    PreviousPreference,
}

/// A reason, with the backend name of a priority as characters.
pub enum ReasonView {
    ExactName,
    PrefixName,
    SubstringName,
    BackendMatch,
    BackendPriority(Seq<char>),
    PreferredBackend,
    PreviousPreference,
}

impl View for Reason {
    type V = ReasonView;

    open spec fn view(&self) -> ReasonView {
        match self {
            Reason::ExactName => ReasonView::ExactName,
            Reason::PrefixName => ReasonView::PrefixName,
            Reason::SubstringName => ReasonView::SubstringName,
            Reason::BackendMatch => ReasonView::BackendMatch,
            Reason::BackendPriority(b) => ReasonView::BackendPriority(b@),
            Reason::PreferredBackend => ReasonView::PreferredBackend,
            Reason::PreviousPreference => ReasonView::PreviousPreference,
        }
    }
}

pub open spec fn reasons_view(rs: Seq<Reason>) -> Seq<ReasonView> {
    rs.map_values(|r: Reason| r@)
}

pub open spec fn reason_label(r: Reason) -> Seq<char> {
    match r {
        Reason::ExactName => "exact name match"@,
        Reason::PrefixName => "prefix match"@,
        Reason::SubstringName => "substring match"@,
        Reason::BackendMatch => "matched by backend"@,
        Reason::BackendPriority(b) => b@ + " backend priority"@,
        Reason::PreferredBackend => "preferred backend"@,
        Reason::PreviousPreference => "previous preference"@,
    }
}

impl Reason {
    /// A human-readable explanation of the reason.
    pub fn label(&self) -> (r: String)
        ensures
            r@ == reason_label(*self),
    {
        match self {
            Reason::ExactName => owned("exact name match"),
            Reason::PrefixName => owned("prefix match"),
            Reason::SubstringName => owned("substring match"),
            Reason::BackendMatch => owned("matched by backend"),
            Reason::BackendPriority(b) => {
                let mut s = owned(b);
                push_str(&mut s, " backend priority");
                s
            },
            Reason::PreferredBackend => owned("preferred backend"),
            Reason::PreviousPreference => owned("previous preference"),
        }
    }
}

/// How much a reason adds to a candidate's score.
pub open spec fn weight_of(r: ReasonView) -> int {
    match r {
        ReasonView::ExactName => 150,
        ReasonView::PrefixName => 80,
        ReasonView::SubstringName => 40,
        ReasonView::BackendMatch => 5,
        ReasonView::BackendPriority(b) => if b == "alpm"@ {
            30
        } else if b == "aur"@ {
            20
        } else {
            10
        },
        ReasonView::PreferredBackend => 60,
        ReasonView::PreviousPreference => 1000,
    }
}

fn weight(reason: &Reason) -> (r: i32)
    ensures
        r == weight_of(reason@),
{
    match reason {
        Reason::ExactName => 150,
        Reason::PrefixName => 80,
        Reason::SubstringName => 40,
        Reason::BackendMatch => 5,
        Reason::BackendPriority(b) => {
            if str_eq(b, "alpm") {
                30
            } else if str_eq(b, "aur") {
                20
            } else {
                10
            }
        },
        Reason::PreferredBackend => 60,
        Reason::PreviousPreference => 1000,
    }
}

/// A candidate with its score and the reasons for it.
#[derive(Debug, Clone, PartialEq, Eq)]
pub struct RankedCandidate {
    pub candidate: Candidate,
    pub score: i32,
    pub reasons: Vec<Reason>,
}

pub struct RankedView {
    pub candidate: Candidate,
    pub score: int,
    pub reasons: Seq<ReasonView>,
}

impl View for RankedCandidate {
    type V = RankedView;

    open spec fn view(&self) -> RankedView {
        RankedView {
            candidate: self.candidate,
            score: self.score as int,
            reasons: reasons_view(self.reasons@),
        }
    }
}

/// The outcome of resolving a query.
#[derive(Debug, Clone, PartialEq, Eq)]
pub enum ResolutionDecision {
    Selected(RankedCandidate),
    Ambiguous(Vec<RankedCandidate>),
    NotFound { errors: Vec<BackendError> },
}

pub enum DecisionView {
    Selected(RankedView),
    Ambiguous(Seq<RankedView>),
    NotFound(Seq<BackendError>),
}

pub open spec fn ranked_views(s: Seq<RankedCandidate>) -> Seq<RankedView> {
    s.map_values(|r: RankedCandidate| r@)
}

impl View for ResolutionDecision {
    type V = DecisionView;

    open spec fn view(&self) -> DecisionView {
        match self {
            ResolutionDecision::Selected(r) => DecisionView::Selected(r@),
            ResolutionDecision::Ambiguous(v) => DecisionView::Ambiguous(ranked_views(v@)),
            ResolutionDecision::NotFound { errors } => DecisionView::NotFound(errors@),
        }
    }
}

/// A remembered choice for a query: the source name and the backend
/// reference that was picked.
pub open spec fn preference_view(p: Option<(&str, &str)>) -> Option<(Seq<char>, Seq<char>)> {
    match p {
        Some((s, r)) => Some((s@, r@)),
        None => None,
    }
}

/// How the candidate's name matches the query: exactly, as a prefix, as a
/// substring (a non-empty query only), or not at all (the backend matched
/// it on other fields).
pub open spec fn match_reason_of(query: Seq<char>, name: Seq<char>) -> ReasonView {
    if query == name {
        ReasonView::ExactName
    } else if query.len() > 0 && starts_with(name, query) {
        ReasonView::PrefixName
    } else if query.len() > 0 && contains_seq(name, query) {
        ReasonView::SubstringName
    } else {
        ReasonView::BackendMatch
    }
}

/// The candidate matches the remembered source and backend reference.
pub open spec fn is_previous_choice(c: Candidate, pref: (Seq<char>, Seq<char>)) -> bool {
    c.source.spec_name() == pref.0 && c.backend_ref@ == pref.1
}

/// The reasons of a candidate: its name match, its backend's priority, and
/// the remembered preference when it names the candidate (or only its
/// source).
pub open spec fn reasons_of(
    query: Seq<char>,
    c: Candidate,
    pref: Option<(Seq<char>, Seq<char>)>,
) -> Seq<ReasonView> {
    let base = seq![match_reason_of(query, c.name@), ReasonView::BackendPriority(c.source.spec_name())];
    match pref {
        Some(p) => if is_previous_choice(c, p) {
            base.push(ReasonView::PreviousPreference)
        } else if c.source.spec_name() == p.0 {
            base.push(ReasonView::PreferredBackend)
        } else {
            base
        },
        None => base,
    }
}

pub open spec fn total_weight(rs: Seq<ReasonView>) -> int
    decreases rs.len(),
{
    if rs.len() == 0 {
        0
    } else {
        total_weight(rs.drop_last()) + weight_of(rs.last())
    }
}

/// The ranking of one candidate.
pub open spec fn rank_of(
    query: Seq<char>,
    c: Candidate,
    pref: Option<(Seq<char>, Seq<char>)>,
) -> RankedView {
    let rs = reasons_of(query, c, pref);
    RankedView { candidate: c, score: total_weight(rs), reasons: rs }
}

/// Backend priority: pacman repositories, then the AUR, then Nix.
pub open spec fn ordinal_of(s: Source) -> int {
    match s {
        Source::Alpm => 0,
        Source::Aur => 1,
        Source::Nix => 2,
    }
}

/// `a` comes strictly before `b`: a higher score, or the same score from a
/// backend of higher priority.
pub open spec fn ranks_before(a: RankedView, b: RankedView) -> bool {
    a.score > b.score || (a.score == b.score && ordinal_of(a.candidate.source) < ordinal_of(
        b.candidate.source,
    ))
}

/// `x` inserted into the ordered `s` after every element it does not come
/// strictly before.
pub open spec fn insert_ranked(s: Seq<RankedView>, x: RankedView) -> Seq<RankedView>
    decreases s.len(),
{
    if s.len() == 0 {
        seq![x]
    } else if ranks_before(x, s.last()) {
        insert_ranked(s.drop_last(), x).push(s.last())
    } else {
        s.push(x)
    }
}

/// The stable order of `s` by descending score, then backend priority.
pub open spec fn sort_ranked_spec(s: Seq<RankedView>) -> Seq<RankedView>
    decreases s.len(),
{
    if s.len() == 0 {
        s
    } else {
        insert_ranked(sort_ranked_spec(s.drop_last()), s.last())
    }
}

/// All candidates ranked and ordered.
pub open spec fn ranked_all(
    query: Seq<char>,
    raw: Seq<Candidate>,
    pref: Option<(Seq<char>, Seq<char>)>,
) -> Seq<RankedView> {
    sort_ranked_spec(raw.map_values(|c: Candidate| rank_of(query, c, pref)))
}

/// Nothing found when there is no candidate; the top candidate when it
/// is alone or scores strictly higher than the second; else all of them,
/// ordered, for the user to choose.
pub open spec fn decide_spec(
    query: Seq<char>,
    pref: Option<(Seq<char>, Seq<char>)>,
    raw: Seq<Candidate>,
    errors: Seq<BackendError>,
) -> DecisionView {
    if raw.len() == 0 {
        DecisionView::NotFound(errors)
    } else {
        let ranked = ranked_all(query, raw, pref);
        if ranked.len() == 1 || ranked[0].score > ranked[1].score {
            DecisionView::Selected(ranked[0])
        } else {
            DecisionView::Ambiguous(ranked)
        }
    }
}

// ---------------------------------------------------------------------
// Laws of the ordering
// ---------------------------------------------------------------------

pub open spec fn is_ordered(s: Seq<RankedView>) -> bool {
    forall|i: int, j: int| 0 <= i < j < s.len() ==> !ranks_before(#[trigger] s[j], #[trigger] s[i])
}

proof fn lemma_insert_ranked(s: Seq<RankedView>, x: RankedView)
    ensures
        insert_ranked(s, x).len() == s.len() + 1,
        insert_ranked(s, x).to_multiset() == s.to_multiset().insert(x),
        is_ordered(s) ==> is_ordered(insert_ranked(s, x)),
        forall|i: int|
            0 <= i < insert_ranked(s, x).len() ==> #[trigger] insert_ranked(s, x)[i] == x
                || s.contains(insert_ranked(s, x)[i]),
    decreases s.len(),
{
    broadcast use vstd::seq_lib::group_to_multiset_ensures;

    let r = insert_ranked(s, x);
    if s.len() == 0 {
        assert(r =~= seq![x]);
        assert(seq![x] =~= Seq::<RankedView>::empty().push(x));
    } else if ranks_before(x, s.last()) {
        let p = s.drop_last();
        lemma_insert_ranked(p, x);
        let q = insert_ranked(p, x);
        assert(s =~= p.push(s.last()));
        assert forall|i: int| 0 <= i < r.len() implies #[trigger] r[i] == x || s.contains(r[i]) by {
            if i < q.len() {
                if q[i] != x {
                    let k = choose|k: int| 0 <= k < p.len() && p[k] == q[i];
                    assert(s[k] == q[i]);
                }
            } else {
                assert(s[s.len() - 1] == r[i]);
            }
        }
        if is_ordered(s) {
            assert(is_ordered(p));
            assert forall|i: int, j: int| 0 <= i < j < r.len() implies !ranks_before(
                #[trigger] r[j],
                #[trigger] r[i],
            ) by {
                if j == r.len() - 1 {
                    if i < q.len() {
                        if q[i] == x {
                        } else {
                            let k = choose|k: int| 0 <= k < p.len() && p[k] == q[i];
                            assert(s[k] == p[k]);
                            assert(!ranks_before(s[s.len() - 1], s[k]));
                        }
                    }
                }
            }
        }
    } else {
        assert forall|i: int| 0 <= i < r.len() implies #[trigger] r[i] == x || s.contains(r[i]) by {
            if i < s.len() {
                assert(s[i] == r[i]);
            }
        }
        if is_ordered(s) {
            assert forall|i: int, j: int| 0 <= i < j < r.len() implies !ranks_before(
                #[trigger] r[j],
                #[trigger] r[i],
            ) by {
                if j == s.len() {
                    assert(!ranks_before(x, s[s.len() - 1]));
                    assert(!ranks_before(s[s.len() - 1], s[i]) || i == s.len() - 1);
                }
            }
        }
    }
}

/// The order is a permutation of its input, sorted by descending score and
/// then by backend priority.
pub proof fn lemma_sort_ranked(s: Seq<RankedView>)
    ensures
        sort_ranked_spec(s).len() == s.len(),
        sort_ranked_spec(s).to_multiset() == s.to_multiset(),
        is_ordered(sort_ranked_spec(s)),
    decreases s.len(),
{
    broadcast use vstd::seq_lib::group_to_multiset_ensures;

    if s.len() > 0 {
        let p = s.drop_last();
        lemma_sort_ranked(p);
        lemma_insert_ranked(sort_ranked_spec(p), s.last());
        assert(s =~= p.push(s.last()));
    }
}

/// `x` stays first when it is first and the inserted element does not come
/// strictly before it.
proof fn lemma_insert_keeps_first(s: Seq<RankedView>, y: RankedView)
    requires
        s.len() > 0,
        !ranks_before(y, s[0]),
    ensures
        insert_ranked(s, y)[0] == s[0],
    decreases s.len(),
{
    if s.len() > 1 && ranks_before(y, s.last()) {
        lemma_insert_keeps_first(s.drop_last(), y);
    }
}

/// When exactly one element scores at least `t`, the order starts with it
/// and the next element scores below `t`.
pub proof fn lemma_unique_top(s: Seq<RankedView>, k: int, t: int)
    requires
        0 <= k < s.len(),
        s[k].score >= t,
        forall|j: int| 0 <= j < s.len() && j != k ==> #[trigger] s[j].score < t,
    ensures
        sort_ranked_spec(s)[0] == s[k],
        forall|j: int| 0 < j < sort_ranked_spec(s).len() ==> #[trigger] sort_ranked_spec(s)[j].score < t,
    decreases s.len(),
{
    let p = s.drop_last();
    let r = sort_ranked_spec(s);
    lemma_sort_ranked(p);
    let q = sort_ranked_spec(p);
    lemma_insert_ranked(q, s.last());
    if k == s.len() - 1 {
        assert forall|j: int| 0 <= j < q.len() implies #[trigger] q[j].score < t by {
            lemma_below_preserved(p, t);
        }
        lemma_insert_front(q, s.last());
    } else {
        assert forall|j: int| 0 <= j < p.len() && j != k implies #[trigger] p[j].score < t by {
            assert(p[j] == s[j]);
        }
        lemma_unique_top(p, k, t);
        assert(s.last().score < t);
        lemma_insert_keeps_first(q, s.last());
        assert forall|j: int| 0 < j < r.len() implies #[trigger] r[j].score < t by {
            lemma_insert_rest(q, s.last(), t);
        }
    }
}

/// Every element of the order of `s` scores below `t` when every element
/// of `s` does.
proof fn lemma_below_preserved(s: Seq<RankedView>, t: int)
    requires
        forall|j: int| 0 <= j < s.len() ==> #[trigger] s[j].score < t,
    ensures
        forall|j: int| 0 <= j < sort_ranked_spec(s).len() ==> #[trigger] sort_ranked_spec(s)[j].score < t,
    decreases s.len(),
{
    if s.len() > 0 {
        let p = s.drop_last();
        lemma_below_preserved(p, t);
        lemma_sort_ranked(p);
        lemma_insert_ranked(sort_ranked_spec(p), s.last());
        let q = sort_ranked_spec(p);
        assert forall|j: int| 0 <= j < sort_ranked_spec(s).len() implies #[trigger] sort_ranked_spec(s)[j].score < t by {
            let e = insert_ranked(q, s.last())[j];
            if e != s.last() {
                let m = choose|m: int| 0 <= m < q.len() && q[m] == e;
            }
        }
    }
}

/// An element that comes strictly before every element is inserted first.
proof fn lemma_insert_front(s: Seq<RankedView>, x: RankedView)
    requires
        forall|j: int| 0 <= j < s.len() ==> ranks_before(x, #[trigger] s[j]),
    ensures
        insert_ranked(s, x) == seq![x] + s,
    decreases s.len(),
{
    if s.len() > 0 {
        let p = s.drop_last();
        assert(ranks_before(x, s[s.len() - 1]));
        assert forall|j: int| 0 <= j < p.len() implies ranks_before(x, #[trigger] p[j]) by {
            assert(p[j] == s[j]);
        }
        lemma_insert_front(p, x);
        assert(seq![x] + p.push(s.last()) =~= (seq![x] + p).push(s.last()));
        assert(s =~= p.push(s.last()));
    } else {
        assert(seq![x] + s =~= seq![x]);
    }
}

/// Inserting an element below `t` after a first element keeps every later
/// element below `t` when that held before.
proof fn lemma_insert_rest(s: Seq<RankedView>, y: RankedView, t: int)
    requires
        s.len() > 0,
        y.score < t,
        forall|j: int| 0 < j < s.len() ==> #[trigger] s[j].score < t,
        !ranks_before(y, s[0]),
    ensures
        forall|j: int| 0 < j < insert_ranked(s, y).len() ==> #[trigger] insert_ranked(s, y)[j].score < t,
    decreases s.len(),
{
    let r = insert_ranked(s, y);
    if s.len() > 1 && ranks_before(y, s.last()) {
        let p = s.drop_last();
        assert forall|j: int| 0 < j < p.len() implies #[trigger] p[j].score < t by {
            assert(p[j] == s[j]);
        }
        lemma_insert_rest(p, y, t);
        assert forall|j: int| 0 < j < r.len() implies #[trigger] r[j].score < t by {
            if j < r.len() - 1 {
                assert(r[j] == insert_ranked(p, y)[j]);
            } else {
                assert(r[j] == s[s.len() - 1]);
            }
        }
    } else if s.len() == 1 {
        assert(!ranks_before(y, s.last()));
        assert forall|j: int| 0 < j < r.len() implies #[trigger] r[j].score < t by {
            assert(r == s.push(y));
        }
    } else {
        assert forall|j: int| 0 < j < r.len() implies #[trigger] r[j].score < t by {
            assert(r == s.push(y));
            if j < s.len() {
                assert(r[j] == s[j]);
            }
        }
    }
}

/// Nothing is found exactly when no backend returned a candidate.
pub proof fn lemma_not_found_iff_empty(
    query: Seq<char>,
    pref: Option<(Seq<char>, Seq<char>)>,
    raw: Seq<Candidate>,
    errors: Seq<BackendError>,
)
    ensures
        decide_spec(query, pref, raw, errors) is NotFound <==> raw.len() == 0,
{
}

proof fn lemma_score_bounds(query: Seq<char>, c: Candidate, pref: Option<(Seq<char>, Seq<char>)>)
    ensures
        rank_of(query, c, pref).score >= 15,
        rank_of(query, c, pref).score <= 240 || (pref is Some && is_previous_choice(c, pref->0)),
        pref is Some && is_previous_choice(c, pref->0) ==> rank_of(query, c, pref).score >= 1015,
        match_reason_of(query, c.name@) == ReasonView::ExactName ==> rank_of(query, c, pref).score >= 160,
        pref is None && match_reason_of(query, c.name@) != ReasonView::ExactName ==> rank_of(query, c, pref).score <= 110,
{
    let rs = reasons_of(query, c, pref);
    let m = match_reason_of(query, c.name@);
    let b = ReasonView::BackendPriority(c.source.spec_name());
    let base = seq![m, b];
    assert(base.drop_last() =~= seq![m]);
    assert(seq![m].drop_last() =~= Seq::<ReasonView>::empty());
    assert(seq![m].last() == m);
    assert(base.last() == b);
    assert(total_weight(Seq::<ReasonView>::empty()) == 0);
    assert(total_weight(seq![m]) == weight_of(m));
    assert(total_weight(base) == weight_of(m) + weight_of(b));
    assert(10 <= weight_of(b) <= 30);
    assert(5 <= weight_of(m) <= 150);
    if rs.len() == 3 {
        assert(rs.drop_last() =~= base);
        assert(total_weight(rs) == weight_of(m) + weight_of(b) + weight_of(rs[2]));
    } else {
        assert(rs =~= base);
    }
}

/// A non-empty query that occurs inside a name, without being the name or
/// its start, is a substring match, worth 40.
pub proof fn lemma_inner_occurrence_is_substring(query: Seq<char>, name: Seq<char>, i: int)
    requires
        query.len() > 0,
        name != query,
        !(query.len() <= name.len() && name.subrange(0, query.len() as int) == query),
        0 <= i,
        i + query.len() <= name.len(),
        name.subrange(i, i + query.len()) == query,
    ensures
        match_reason_of(query, name) == ReasonView::SubstringName,
        weight_of(match_reason_of(query, name)) == 40,
{
    assert(occurs_at(name, query, i));
}

/// A name that holds the query nowhere matches only through the backend.
pub proof fn lemma_absent_query_is_backend_match(query: Seq<char>, name: Seq<char>)
    requires
        query.len() > 0,
        forall|j: int|
            0 <= j && j + query.len() <= name.len() ==> #[trigger] name.subrange(j, j + query.len())
                != query,
    ensures
        match_reason_of(query, name) == ReasonView::BackendMatch,
{
    if name == query {
        assert(name.subrange(0, query.len() as int) =~= name);
    }
    if query.len() <= name.len() && name.subrange(0, query.len() as int) == query {
        let z: int = 0;
        assert(name.subrange(z, z + query.len()) == query);
    }
    if contains_seq(name, query) {
        let j = choose|j: int| occurs_at(name, query, j);
        assert(name.subrange(j, j + query.len()) == query);
    }
}

/// Without a remembered choice, of two candidates from the same backend,
/// one whose name holds the query inside it outranks one whose name does
/// not hold it at all.
pub proof fn lemma_containing_name_outranks(query: Seq<char>, c1: Candidate, c2: Candidate, i: int)
    requires
        query.len() > 0,
        c1.source == c2.source,
        0 <= i,
        i + query.len() <= c1.name@.len(),
        c1.name@.subrange(i, i + query.len()) == query,
        forall|j: int|
            0 <= j && j + query.len() <= c2.name@.len() ==> #[trigger] c2.name@.subrange(
                j,
                j + query.len(),
            ) != query,
    ensures
        rank_of(query, c1, None).score > rank_of(query, c2, None).score,
{
    lemma_absent_query_is_backend_match(query, c2.name@);
    let m1 = match_reason_of(query, c1.name@);
    assert(occurs_at(c1.name@, query, i));
    assert(weight_of(m1) >= 40);
    let b = ReasonView::BackendPriority(c1.source.spec_name());
    let r1 = seq![m1, b];
    let r2 = seq![ReasonView::BackendMatch, b];
    assert(r1.drop_last() =~= seq![m1]);
    assert(r2.drop_last() =~= seq![ReasonView::BackendMatch]);
    assert(seq![m1].drop_last() =~= Seq::<ReasonView>::empty());
    assert(seq![ReasonView::BackendMatch].drop_last() =~= Seq::<ReasonView>::empty());
    assert(seq![m1].last() == m1);
    assert(seq![ReasonView::BackendMatch].last() == ReasonView::BackendMatch);
    assert(r1.last() == b && r2.last() == b);
    assert(total_weight(Seq::<ReasonView>::empty()) == 0);
    assert(total_weight(seq![m1]) == weight_of(m1));
    assert(total_weight(seq![ReasonView::BackendMatch]) == weight_of(ReasonView::BackendMatch));
    assert(total_weight(r1) == weight_of(m1) + weight_of(b));
    assert(total_weight(r2) == weight_of(ReasonView::BackendMatch) + weight_of(b));
    assert(reasons_of(query, c1, None) == r1);
    assert(reasons_of(query, c2, None) == r2);
}

/// A candidate that matches the remembered choice is selected when it is
/// the only one that does.
pub proof fn lemma_previous_preference_wins(
    query: Seq<char>,
    pref: (Seq<char>, Seq<char>),
    raw: Seq<Candidate>,
    errors: Seq<BackendError>,
    k: int,
)
    requires
        0 <= k < raw.len(),
        is_previous_choice(raw[k], pref),
        forall|j: int| 0 <= j < raw.len() && j != k ==> !is_previous_choice(#[trigger] raw[j], pref),
    ensures
        decide_spec(query, Some(pref), raw, errors) == DecisionView::Selected(
            rank_of(query, raw[k], Some(pref)),
        ),
{
    let s = raw.map_values(|c: Candidate| rank_of(query, c, Some(pref)));
    lemma_score_bounds(query, raw[k], Some(pref));
    assert forall|j: int| 0 <= j < s.len() && j != k implies #[trigger] s[j].score < 1000 by {
        lemma_score_bounds(query, raw[j], Some(pref));
    }
    lemma_unique_top(s, k, 1000);
    lemma_sort_ranked(s);
}

/// Without a remembered choice, the only candidate whose name equals the
/// query is selected.
pub proof fn lemma_exact_name_wins(
    query: Seq<char>,
    raw: Seq<Candidate>,
    errors: Seq<BackendError>,
    k: int,
)
    requires
        0 <= k < raw.len(),
        raw[k].name@ == query,
        forall|j: int| 0 <= j < raw.len() && j != k ==> (#[trigger] raw[j]).name@ != query,
    ensures
        decide_spec(query, None, raw, errors) == DecisionView::Selected(rank_of(query, raw[k], None)),
{
    let s = raw.map_values(|c: Candidate| rank_of(query, c, None));
    lemma_score_bounds(query, raw[k], None);
    assert forall|j: int| 0 <= j < s.len() && j != k implies #[trigger] s[j].score < 160 by {
        lemma_score_bounds(query, raw[j], None);
    }
    lemma_unique_top(s, k, 160);
    lemma_sort_ranked(s);
}

// ---------------------------------------------------------------------
// Implementation
// ---------------------------------------------------------------------

/// The indices below `n` of the backends whose source is `source`, in
/// registration order.
pub open spec fn indices_with(sources: Seq<Source>, source: Source, n: int) -> Seq<int>
    decreases n,
{
    if n <= 0 {
        Seq::empty()
    } else if sources[n - 1] == source {
        indices_with(sources, source, n - 1).push(n - 1)
    } else {
        indices_with(sources, source, n - 1)
    }
}

/// The order in which backends are searched: those of each source of
/// `priority` in turn, each group in registration order.
pub open spec fn search_order(sources: Seq<Source>, priority: Seq<Source>) -> Seq<int>
    decreases priority.len(),
{
    if priority.len() == 0 {
        Seq::empty()
    } else {
        search_order(sources, priority.drop_last()) + indices_with(
            sources,
            priority.last(),
            sources.len() as int,
        )
    }
}

/// The candidates of the successful answers, one after the other.
pub open spec fn found_of(answers: Seq<Result<Vec<Candidate>, String>>) -> Seq<Candidate>
    decreases answers.len(),
{
    if answers.len() == 0 {
        Seq::empty()
    } else {
        found_of(answers.drop_last()) + match answers.last() {
            Ok(v) => v@,
            Err(_) => Seq::empty(),
        }
    }
}

/// One (backend name, message) per failed answer, in order; `names[k]` is
/// the name of the backend that gave `answers[k]`.
pub open spec fn errors_of(
    answers: Seq<Result<Vec<Candidate>, String>>,
    names: Seq<Seq<char>>,
) -> Seq<(Seq<char>, Seq<char>)>
    decreases answers.len(),
{
    if answers.len() == 0 {
        Seq::empty()
    } else {
        let prev = errors_of(answers.drop_last(), names.take(answers.len() - 1));
        match answers.last() {
            Ok(_) => prev,
            Err(m) => prev.push((names[answers.len() - 1], m@)),
        }
    }
}

pub open spec fn error_views(errors: Seq<BackendError>) -> Seq<(Seq<char>, Seq<char>)> {
    errors.map_values(|e: BackendError| (e.backend@, e.message@))
}

/// Resolves queries against the registered backends, in the backend
/// priority order pacman repositories, AUR, Nix.
pub struct Resolver {
    backends: Vec<Box<dyn PackageBackend>>,
    priority: Vec<Source>,
}

impl Resolver {
    pub closed spec fn backend_list(&self) -> Seq<Box<dyn PackageBackend>> {
        self.backends@
    }

    pub closed spec fn priority_list(&self) -> Seq<Source> {
        self.priority@
    }

    pub fn new(backends: Vec<Box<dyn PackageBackend>>) -> (r: Self)
        ensures
            r.backend_list() == backends@,
            r.priority_list() == seq![Source::Alpm, Source::Aur, Source::Nix],
    {
        let mut priority: Vec<Source> = Vec::new();
        priority.push(Source::Alpm);
        priority.push(Source::Aur);
        priority.push(Source::Nix);
        assert(priority@ =~= seq![Source::Alpm, Source::Aur, Source::Nix]);
        Resolver { backends, priority }
    }

    pub fn backends(&self) -> (r: &[Box<dyn PackageBackend>])
        ensures
            r@ == self.backend_list(),
    {
        self.backends.as_slice()
    }

    /// `resolve_with_preference` without a remembered choice.
    pub fn resolve(&self, query: &str) -> (r: ResolutionDecision)
        ensures
            exists|
                sources: Seq<Source>,
                answers: Seq<Result<Vec<Candidate>, String>>,
                names: Seq<Seq<char>>,
                errors: Seq<BackendError>,
            |
                #![trigger searched(self, query, sources, answers, names), error_views(errors)]
                searched(self, query, sources, answers, names) && error_views(errors)
                    == errors_of(answers, names) && r@ == decide_spec(
                    query@,
                    None,
                    found_of(answers),
                    errors,
                ),
    {
        self.resolve_with_preference(query, None)
    }

    /// Every candidate the backends find, ranked and ordered, together with
    /// the backends that failed.
    pub fn resolve_ranked(&self, query: &str) -> (r: (Vec<RankedCandidate>, Vec<BackendError>))
        ensures
            exists|
                sources: Seq<Source>,
                answers: Seq<Result<Vec<Candidate>, String>>,
                names: Seq<Seq<char>>,
            |
                #[trigger] searched(self, query, sources, answers, names) && ranked_views(r.0@)
                    == ranked_all(query@, found_of(answers), None) && error_views(r.1@) == errors_of(
                    answers,
                    names,
                ),
    {
        let (raw, errors) = self.collect(query);
        let ghost rv = raw@;
        let ranked = Self::rank_all(query, None, raw);
        (ranked, errors)
    }

    /// Searches every backend and decides between the candidates found;
    /// a remembered choice (source and backend reference) raises the
    /// candidate it names.
    pub fn resolve_with_preference(&self, query: &str, preference: Option<(&str, &str)>) -> (r:
        ResolutionDecision)
        ensures
            exists|
                sources: Seq<Source>,
                answers: Seq<Result<Vec<Candidate>, String>>,
                names: Seq<Seq<char>>,
                errors: Seq<BackendError>,
            |
                #![trigger searched(self, query, sources, answers, names), error_views(errors)]
                searched(self, query, sources, answers, names) && error_views(errors)
                    == errors_of(answers, names) && r@ == decide_spec(
                    query@,
                    preference_view(preference),
                    found_of(answers),
                    errors,
                ),
    {
        let (raw, errors) = self.collect(query);
        let ghost rv = raw@;
        let ghost ev = errors@;
        let r = Self::decide(query, preference, raw, errors);
        assert(r@ == decide_spec(query@, preference_view(preference), rv, ev));
        r
    }

    /// The decision for the candidates and backend errors that a search
    /// returned.
    pub fn decide(
        query: &str,
        preference: Option<(&str, &str)>,
        raw: Vec<Candidate>,
        errors: Vec<BackendError>,
    ) -> (r: ResolutionDecision)
        ensures
            r@ == decide_spec(query@, preference_view(preference), raw@, errors@),
    {
        if raw.len() == 0 {
            return ResolutionDecision::NotFound { errors };
        }
        let ghost rv = raw@;
        let mut ranked = Self::rank_all(query, preference, raw);
        proof {
            lemma_sort_ranked(rv.map_values(|c: Candidate| rank_of(query@, c, preference_view(preference))));
        }
        if ranked.len() == 1 {
            let top = ranked.remove(0);
            return ResolutionDecision::Selected(top);
        }
        if ranked[0].score > ranked[1].score {
            let winner = ranked.remove(0);
            ResolutionDecision::Selected(winner)
        } else {
            ResolutionDecision::Ambiguous(ranked)
        }
    }

    /// All candidates ranked and ordered by descending score, ties broken
    /// by backend priority, otherwise in the order found.
    pub fn rank_all(query: &str, preference: Option<(&str, &str)>, raw: Vec<Candidate>) -> (r: Vec<
        RankedCandidate,
    >)
        ensures
            ranked_views(r@) == ranked_all(query@, raw@, preference_view(preference)),
    {
        let ghost pv = preference_view(preference);
        let ghost orig = raw@;
        let mut raw = raw;
        let mut ranked: Vec<RankedCandidate> = Vec::new();
        let mut k: usize = 0;
        let n = raw.len();
        assert(orig.take(0).map_values(|c: Candidate| rank_of(query@, c, pv)) =~= Seq::<RankedView>::empty());
        assert(ranked_views(ranked@) =~= Seq::<RankedView>::empty());
        assert(orig.skip(0) =~= orig);
        while k < n
            invariant
                n == orig.len(),
                k <= n,
                raw@ == orig.skip(k as int),
                ranked_views(ranked@) == sort_ranked_spec(
                    orig.take(k as int).map_values(|c: Candidate| rank_of(query@, c, pv)),
                ),
                pv == preference_view(preference),
            decreases n - k,
        {
            let c = raw.remove(0);
            let rc = Self::rank(query, c, preference);
            let ghost before = ranked_views(ranked@);
            Self::insert_in_order(&mut ranked, rc);
            proof {
                let m = orig.take(k + 1).map_values(|c: Candidate| rank_of(query@, c, pv));
                assert(m.drop_last() =~= orig.take(k as int).map_values(|c: Candidate| rank_of(query@, c, pv)));
                assert(orig.skip(k as int).drop_first() =~= orig.skip(k + 1));
            }
            k = k + 1;
        }
        assert(orig.take(n as int) =~= orig);
        ranked
    }

    /// Inserts `x` into the ordered `ranked` after every element it does
    /// not come strictly before.
    fn insert_in_order(ranked: &mut Vec<RankedCandidate>, x: RankedCandidate)
        ensures
            ranked_views(final(ranked)@) == insert_ranked(ranked_views(old(ranked)@), x@),
    {
        let ghost s = ranked_views(ranked@);
        let mut pos = ranked.len();
        proof {
            assert(s.take(pos as int) =~= s);
            assert(s.skip(pos as int) =~= Seq::<RankedView>::empty());
        }
        while pos > 0 && Self::before(&x, &ranked[pos - 1])
            invariant
                pos <= ranked@.len(),
                s == ranked_views(ranked@),
                insert_ranked(s, x@) == insert_ranked(s.take(pos as int), x@) + s.skip(pos as int),
            decreases pos,
        {
            proof {
                let t = s.take(pos as int);
                assert(t.last() == ranked@[pos - 1]@);
                assert(t.drop_last() =~= s.take(pos - 1));
                assert(s.skip(pos - 1) =~= seq![t.last()] + s.skip(pos as int));
                assert(insert_ranked(s.take(pos - 1), x@).push(t.last()) + s.skip(pos as int)
                    =~= insert_ranked(s.take(pos - 1), x@) + s.skip(pos - 1));
            }
            pos = pos - 1;
        }
        proof {
            let t = s.take(pos as int);
            if pos > 0 {
                assert(t.last() == ranked@[pos - 1]@);
            }
            assert(insert_ranked(t, x@) =~= t.push(x@));
        }
        ranked.insert(pos, x);
        assert(ranked_views(ranked@) =~= s.take(pos as int).push(x@) + s.skip(pos as int));
    }

    fn before(a: &RankedCandidate, b: &RankedCandidate) -> (r: bool)
        ensures
            r == ranks_before(a@, b@),
    {
        a.score > b.score || (a.score == b.score && Self::ordinal(&a.candidate) < Self::ordinal(
            &b.candidate,
        ))
    }

    fn ordinal(candidate: &Candidate) -> (r: usize)
        ensures
            r == ordinal_of(candidate.source),
    {
        match &candidate.source {
            Source::Alpm => 0,
            Source::Aur => 1,
            Source::Nix => 2,
        }
    }

    /// Searches the backends of each source in priority order: asks each
    /// registered backend its source once, then searches those of each
    /// source of the priority list in registration order, and collects the
    /// candidates found and one error (with the backend's name) per failed
    /// search.
    fn collect(&self, query: &str) -> (r: (Vec<Candidate>, Vec<BackendError>))
        ensures
            exists|sources: Seq<Source>, answers: Seq<Result<Vec<Candidate>, String>>, names: Seq<Seq<char>>|
                #[trigger] searched(self, query, sources, answers, names) && r.0@ == found_of(answers)
                    && error_views(r.1@) == errors_of(answers, names),
    {
        let n = self.backends.len();
        let ask_source = backend_source;
        let ask_search = backend_search;
        let ask_name = backend_name;
        let mut sources: Vec<Source> = Vec::new();
        let mut b: usize = 0;
        while b < n
            invariant
                n == self.backend_list().len(),
                ask_source == backend_source,
                b <= n,
                sources@.len() == b,
                forall|k: int| 0 <= k < b ==> backend_source.ensures((self, k as usize), #[trigger] sources@[k]),
            decreases n - b,
        {
            let s = ask_source(self, b);
            sources.push(s);
            proof {
                assert forall|k: int| 0 <= k < b + 1 implies backend_source.ensures((self, k as usize), #[trigger] sources@[k]) by {
                    if k == b {
                        assert(sources@[k] == s);
                    }
                }
            }
            b = b + 1;
        }
        let ghost sv = sources@;
        let mut candidates: Vec<Candidate> = Vec::new();
        let mut backend_errors: Vec<BackendError> = Vec::new();
        let ghost mut answers: Seq<Result<Vec<Candidate>, String>> = Seq::empty();
        let ghost mut names: Seq<Seq<char>> = Seq::empty();
        let mut p: usize = 0;
        while p < self.priority.len()
            invariant
                n == self.backend_list().len(),
                sources@ == sv,
                sv.len() == n,
                ask_search == backend_search,
                ask_name == backend_name,
                p <= self.priority@.len(),
                answers.len() == search_order(sv, self.priority@.take(p as int)).len(),
                names.len() == answers.len(),
                forall|k: int|
                    0 <= k < answers.len() ==> backend_search.ensures(
                        (self, search_order(sv, self.priority@.take(p as int))[k] as usize, query),
                        #[trigger] answers[k],
                    ),
                forall|k: int|
                    0 <= k < answers.len() && answers[k] is Err ==> named(self, search_order(sv, self.priority@.take(p as int))[k] as usize, #[trigger] names[k]),
                candidates@ == found_of(answers),
                error_views(backend_errors@) == errors_of(answers, names),
            decreases self.priority.len() - p,
        {
            let source = self.priority[p];
            let ghost a0 = answers;
            let ghost n0 = names;
            let ghost ord0 = search_order(sv, self.priority@.take(p as int));
            let mut b: usize = 0;
            while b < n
                invariant
                    n == self.backend_list().len(),
                    sources@ == sv,
                    sv.len() == n,
                    ask_search == backend_search,
                    ask_name == backend_name,
                    b <= n,
                    answers.len() == ord0.len() + indices_with(sv, source, b as int).len(),
                    answers.take(a0.len() as int) == a0,
                    a0.len() == ord0.len(),
                    names.len() == answers.len(),
                    names.take(a0.len() as int) == n0,
                    forall|k: int|
                        0 <= k < answers.len() ==> backend_search.ensures(
                            (self, (ord0 + indices_with(sv, source, b as int))[k] as usize, query),
                            #[trigger] answers[k],
                        ),
                    forall|k: int|
                        0 <= k < answers.len() && answers[k] is Err ==> named(self, (ord0 + indices_with(sv, source, b as int))[k] as usize, #[trigger] names[k]),
                    candidates@ == found_of(answers),
                    error_views(backend_errors@) == errors_of(answers, names),
                decreases n - b,
            {
                let ghost ordb = ord0 + indices_with(sv, source, b as int);
                let ghost ordb1 = ord0 + indices_with(sv, source, b + 1);
                if sources[b] == source {
                    assert(ordb1 =~= ordb.push(b as int));
                    let res = ask_search(self, b, query);
                    let ghost ans0 = answers;
                    let ghost nam0 = names;
                    match res {
                        Ok(found) => {
                            let ghost fv = found;
                            let mut found = found;
                            proof {
                                answers = answers.push(Ok(fv));
                                names = names.push(Seq::empty());
                                assert(answers.drop_last() =~= ans0);
                                assert(names.take(answers.len() - 1) =~= nam0);
                            }
                            candidates.append(&mut found);
                        },
                        Err(message) => {
                            let nm = ask_name(self, b);
                            let ghost mv = message;
                            let e = BackendError { backend: owned(nm), message };
                            proof {
                                assert(backend_name.ensures((self, b), nm));
                                assert(named(self, b, nm@));
                                answers = answers.push(Err(mv));
                                names = names.push(nm@);
                                assert(answers.drop_last() =~= ans0);
                                assert(names.take(answers.len() - 1) =~= nam0);
                            }
                            let ghost e0 = error_views(backend_errors@);
                            backend_errors.push(e);
                            assert(error_views(backend_errors@) =~= e0.push((nm@, mv@)));
                        },
                    }
                    proof {
                        assert forall|k: int| 0 <= k < answers.len() implies backend_search.ensures(
                            (self, ordb1[k] as usize, query),
                            #[trigger] answers[k],
                        ) by {
                            if k < ans0.len() {
                                assert(answers[k] == ans0[k]);
                                assert(ordb1[k] == ordb[k]);
                            } else {
                                assert(ordb1[k] == b as int);
                            }
                        }
                        assert forall|k: int| 0 <= k < answers.len() && answers[k] is Err implies named(self, ordb1[k] as usize, #[trigger] names[k]) by {
                            if k < ans0.len() {
                                assert(answers[k] == ans0[k]);
                                assert(names[k] == nam0[k]);
                                assert(ordb1[k] == ordb[k]);
                            } else {
                                assert(ordb1[k] == b as int);
                            }
                        }
                        assert(answers.take(a0.len() as int) =~= a0) by {
                            assert(ans0.take(a0.len() as int) == a0);
                        }
                        assert(names.take(a0.len() as int) =~= n0) by {
                            assert(nam0.take(a0.len() as int) == n0);
                        }
                    }
                } else {
                    assert(ordb1 =~= ordb);
                }
                b = b + 1;
            }
            proof {
                assert(self.priority@.take(p + 1).drop_last() =~= self.priority@.take(p as int));
                assert(self.priority@.take(p + 1).last() == source);
                assert(search_order(sv, self.priority@.take(p + 1)) == ord0 + indices_with(sv, source, n as int));
            }
            p = p + 1;
        }
        proof {
            assert(self.priority@.take(self.priority@.len() as int) =~= self.priority@);
            assert(searched(self, query, sv, answers, names));
        }
        (candidates, backend_errors)
    }

    /// Ranks one candidate against the query and the remembered choice.
    fn rank(query: &str, candidate: Candidate, preference: Option<(&str, &str)>) -> (r: RankedCandidate)
        ensures
            r@ == rank_of(query@, candidate, preference_view(preference)),
    {
        let mut reasons: Vec<Reason> = Vec::new();
        reasons.push(Self::match_reason(query, &candidate));
        reasons.push(Reason::BackendPriority(candidate.source.as_str()));
        match preference {
            Some((pref_source, pref_ref)) => {
                let same_source = str_eq(candidate.source.as_str(), pref_source);
                if same_source && str_eq(candidate.backend_ref.as_str(), pref_ref) {
                    reasons.push(Reason::PreviousPreference);
                } else if same_source {
                    reasons.push(Reason::PreferredBackend);
                }
            },
            None => {},
        }
        let ghost rs = reasons_view(reasons@);
        assert(rs =~= reasons_of(query@, candidate, preference_view(preference)));
        proof {
            let base = seq![match_reason_of(query@, candidate.name@), ReasonView::BackendPriority(candidate.source.spec_name())];
            if rs.len() == 3 {
                assert(rs.drop_last() =~= base);
            } else {
                assert(rs =~= base);
            }
            assert(base.drop_last() =~= seq![match_reason_of(query@, candidate.name@)]);
            assert(seq![match_reason_of(query@, candidate.name@)].drop_last() =~= Seq::<ReasonView>::empty());
        }
        let mut score: i32 = 0;
        let mut i: usize = 0;
        while i < reasons.len()
            invariant
                i <= reasons@.len(),
                reasons_view(reasons@) == rs,
                rs.len() <= 3,
                forall|j: int| 0 <= j < rs.len() ==> 0 <= #[trigger] weight_of(rs[j]) <= 1000,
                score == total_weight(rs.take(i as int)),
                0 <= score <= 1000 * i,
            decreases reasons.len() - i,
        {
            let w = weight(&reasons[i]);
            proof {
                assert(rs[i as int] == reasons@[i as int]@);
                assert(rs.take(i + 1).drop_last() =~= rs.take(i as int));
            }
            score = score + w;
            i = i + 1;
        }
        assert(rs.take(rs.len() as int) =~= rs);
        RankedCandidate { candidate, score, reasons }
    }

    /// How the candidate's name matches the query.
    fn match_reason(query: &str, candidate: &Candidate) -> (r: Reason)
        ensures
            r@ == match_reason_of(query@, candidate.name@),
    {
        let q = chars_of(query);
        let name = chars_of(candidate.name.as_str());
        if crate::text::chars_eq(&q, &name) {
            return Reason::ExactName;
        }
        if q.len() > 0 && has_prefix(&name, &q) {
            return Reason::PrefixName;
        }
        if q.len() > 0 && contains_chars(&name, &q) {
            return Reason::SubstringName;
        }
        Reason::BackendMatch
    }
}

/// Asks registered backend `b` its source; nothing is promised of the
/// answer.
pub fn backend_source(r: &Resolver, b: usize) -> Source
    requires
        b < r.backend_list().len(),
{
    r.backends[b].source()
}

/// Searches registered backend `b` for `query`; nothing is promised of
/// the answer.
pub fn backend_search(r: &Resolver, b: usize, query: &str) -> Result<Vec<Candidate>, String>
    requires
        b < r.backend_list().len(),
{
    r.backends[b].search(query)
}

/// Asks registered backend `b` its name; nothing is promised of the
/// answer.
pub fn backend_name(r: &Resolver, b: usize) -> &'static str
    requires
        b < r.backend_list().len(),
{
    r.backends[b].name()
}

/// Backend `b` of `r` answered `name` as its name.
pub open spec fn named(r: &Resolver, b: usize, name: Seq<char>) -> bool {
    exists|nm: &'static str| nm@ == name && backend_name.ensures((r, b), nm)
}

/// The backends of `r` answered: `sources[b]` as the source of backend
/// `b`; `answers[k]` to the search for `query` of the `k`-th backend in
/// search order; and, for each failed search, `names[k]` as its name.
pub open spec fn searched(
    r: &Resolver,
    query: &str,
    sources: Seq<Source>,
    answers: Seq<Result<Vec<Candidate>, String>>,
    names: Seq<Seq<char>>,
) -> bool {
    let order = search_order(sources, r.priority_list());
    &&& sources.len() == r.backend_list().len()
    &&& forall|b: int|
        0 <= b < sources.len() ==> backend_source.ensures((r, b as usize), #[trigger] sources[b])
    &&& answers.len() == order.len()
    &&& names.len() == answers.len()
    &&& forall|k: int|
        0 <= k < answers.len() ==> backend_search.ensures(
            (r, order[k] as usize, query),
            #[trigger] answers[k],
        )
    &&& forall|k: int|
        0 <= k < answers.len() && answers[k] is Err ==> named(r, order[k] as usize, #[trigger] names[k])
}


/// The backends of `r` give one answer each when asked for `query`: one
/// source, one search result and one name per backend.
pub open spec fn answers_fixed(r: &Resolver, query: &str) -> bool {
    &&& forall|b: usize, x: Source, y: Source|
        #![trigger backend_source.ensures((r, b), x), backend_source.ensures((r, b), y)]
        backend_source.ensures((r, b), x) && backend_source.ensures((r, b), y) ==> x == y
    &&& forall|b: usize, x: Result<Vec<Candidate>, String>, y: Result<Vec<Candidate>, String>|
        #![trigger backend_search.ensures((r, b, query), x), backend_search.ensures((r, b, query), y)]
        backend_search.ensures((r, b, query), x) && backend_search.ensures((r, b, query), y) ==> x
            == y
    &&& forall|b: usize, x: Seq<char>, y: Seq<char>|
        #![trigger named(r, b, x), named(r, b, y)]
        named(r, b, x) && named(r, b, y) ==> x == y
}

/// The failures listed depend only on the names given for failed answers.
proof fn lemma_errors_of_failed_names(
    answers: Seq<Result<Vec<Candidate>, String>>,
    n1: Seq<Seq<char>>,
    n2: Seq<Seq<char>>,
)
    requires
        n1.len() == answers.len(),
        n2.len() == answers.len(),
        forall|k: int| 0 <= k < answers.len() && (#[trigger] answers[k]) is Err ==> n1[k] == n2[k],
    ensures
        errors_of(answers, n1) == errors_of(answers, n2),
    decreases answers.len(),
{
    if answers.len() > 0 {
        let m = answers.len() - 1;
        let init = answers.drop_last();
        assert forall|k: int| 0 <= k < init.len() && (#[trigger] init[k]) is Err implies n1.take(
            m,
        )[k] == n2.take(m)[k] by {
            assert(init[k] == answers[k]);
        }
        lemma_errors_of_failed_names(init, n1.take(m), n2.take(m));
    }
}

/// Two searches of backends that give one answer each saw the same
/// sources, answers and failures.
proof fn lemma_searches_agree(
    r: &Resolver,
    query: &str,
    s1: Seq<Source>,
    a1: Seq<Result<Vec<Candidate>, String>>,
    n1: Seq<Seq<char>>,
    s2: Seq<Source>,
    a2: Seq<Result<Vec<Candidate>, String>>,
    n2: Seq<Seq<char>>,
)
    requires
        answers_fixed(r, query),
        searched(r, query, s1, a1, n1),
        searched(r, query, s2, a2, n2),
    ensures
        a1 == a2,
        errors_of(a1, n1) == errors_of(a2, n2),
{
    assert forall|b: int| 0 <= b < s1.len() implies s1[b] == s2[b] by {
        assert(backend_source.ensures((r, b as usize), s1[b]));
        assert(backend_source.ensures((r, b as usize), s2[b]));
    }
    assert(s1 =~= s2);
    let order = search_order(s1, r.priority_list());
    assert forall|k: int| 0 <= k < a1.len() implies a1[k] == a2[k] by {
        assert(backend_search.ensures((r, order[k] as usize, query), a1[k]));
        assert(backend_search.ensures((r, order[k] as usize, query), a2[k]));
    }
    assert(a1 =~= a2);
    assert forall|k: int| 0 <= k < a1.len() && (#[trigger] a1[k]) is Err implies n1[k] == n2[k] by {
        assert(named(r, order[k] as usize, n1[k]));
        assert(named(r, order[k] as usize, n2[k]));
    }
    lemma_errors_of_failed_names(a1, n1, n2);
}

/// Over the same candidates and failures, the decision is read off the
/// ranking: nothing found (with those failures) when it is empty; its
/// first candidate when that one is alone or scores strictly higher than
/// the second; else the whole ranking, which holds every candidate once.
pub proof fn lemma_decision_from_ranking(
    query: Seq<char>,
    raw: Seq<Candidate>,
    errors: Seq<BackendError>,
)
    ensures
        ranked_all(query, raw, None).len() == raw.len(),
        ranked_all(query, raw, None).to_multiset() == raw.map_values(
            |c: Candidate| rank_of(query, c, None),
        ).to_multiset(),
        decide_spec(query, None, raw, errors) == ({
            let ranked = ranked_all(query, raw, None);
            if ranked.len() == 0 {
                DecisionView::NotFound(errors)
            } else if ranked.len() == 1 || ranked[0].score > ranked[1].score {
                DecisionView::Selected(ranked[0])
            } else {
                DecisionView::Ambiguous(ranked)
            }
        }),
{
    lemma_sort_ranked(raw.map_values(|c: Candidate| rank_of(query, c, None)));
}

/// With backends that give one answer each, `resolve` decides on exactly
/// what `resolve_ranked` lists: nothing found, with the same failures,
/// when the list is empty; its first candidate when that one is alone or
/// scores strictly higher than the second; else the whole list.
pub proof fn lemma_resolve_agrees_with_ranked(
    r: &Resolver,
    query: &str,
    s1: Seq<Source>,
    a1: Seq<Result<Vec<Candidate>, String>>,
    n1: Seq<Seq<char>>,
    errors: Seq<BackendError>,
    s2: Seq<Source>,
    a2: Seq<Result<Vec<Candidate>, String>>,
    n2: Seq<Seq<char>>,
    ranked: Seq<RankedView>,
    ranked_errors: Seq<BackendError>,
)
    requires
        answers_fixed(r, query),
        searched(r, query, s1, a1, n1),
        error_views(errors) == errors_of(a1, n1),
        searched(r, query, s2, a2, n2),
        ranked == ranked_all(query@, found_of(a2), None),
        error_views(ranked_errors) == errors_of(a2, n2),
    ensures
        error_views(errors) == error_views(ranked_errors),
        decide_spec(query@, None, found_of(a1), errors) == (if ranked.len() == 0 {
            DecisionView::NotFound(errors)
        } else if ranked.len() == 1 || ranked[0].score > ranked[1].score {
            DecisionView::Selected(ranked[0])
        } else {
            DecisionView::Ambiguous(ranked)
        }),
{
    lemma_searches_agree(r, query, s1, a1, n1, s2, a2, n2);
    lemma_decision_from_ranking(query@, found_of(a2), errors);
}

} // verus!
