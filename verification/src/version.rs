//! ALPM package version comparison (`vercmp`).
//!
//! A version is `[epoch:]version[-release]`; epoch and version are compared
//! with the segment algorithm of the alpm-pkgver specification, the release
//! only when both sides carry one.

use vstd::prelude::*;
use crate::numbers::{all_digits, digit_val, digits_value, pow10};
use crate::text::{
    ascii_digit, chars_eq, chars_of, find_char, first_index, is_alphanumeric, is_ascii_digit,
    last_index, lemma_index_before, lemma_index_from, lemma_lex_order_antisym, lex_compare,
    lex_order, rfind_char, slice_of, str_eq, unicode_alphanumeric,
};

verus! {

// ---------------------------------------------------------------------
// Model
// ---------------------------------------------------------------------

/// A numeric or alphabetic run inside a version segment, e.g. "0" and
/// "alpha" for "0alpha".
pub struct SubV {
    pub numeric: bool,
    pub text: Seq<char>,
}

/// A version segment: its runs, and the number of non-alphanumeric
/// characters that precede it in the whole string.
pub struct SegV {
    pub subs: Seq<SubV>,
    pub delims: nat,
}

/// State of the left-to-right scan that splits a version into segments.
pub struct SplitState {
    pub segs: Seq<SegV>,
    pub delims: nat,
    pub subs: Seq<SubV>,
    pub cur: Seq<char>,
    pub cur_numeric: bool,
    pub ended: bool,
}

pub open spec fn split_init() -> SplitState {
    SplitState {
        segs: Seq::empty(),
        delims: 0,
        subs: Seq::empty(),
        cur: Seq::empty(),
        cur_numeric: false,
        ended: false,
    }
}

/// One character of the scan: a non-alphanumeric character closes the
/// current run and segment and counts as a delimiter; an alphanumeric one
/// extends the current run, or starts a new run when it switches between
/// digit and non-digit.
pub open spec fn split_step(st: SplitState, ch: char) -> SplitState {
    if !unicode_alphanumeric(ch) {
        let subs1 = if st.cur.len() > 0 {
            st.subs.push(SubV { numeric: st.cur_numeric, text: st.cur })
        } else {
            st.subs
        };
        SplitState {
            segs: if subs1.len() > 0 {
                st.segs.push(SegV { subs: subs1, delims: st.delims })
            } else {
                st.segs
            },
            delims: st.delims + 1,
            subs: Seq::empty(),
            cur: Seq::empty(),
            cur_numeric: st.cur_numeric,
            ended: true,
        }
    } else {
        let numeric = is_ascii_digit(ch);
        let flush = st.cur.len() > 0 && numeric != st.cur_numeric;
        SplitState {
            segs: st.segs,
            delims: st.delims,
            subs: if flush {
                st.subs.push(SubV { numeric: st.cur_numeric, text: st.cur })
            } else {
                st.subs
            },
            cur: if flush { seq![ch] } else { st.cur.push(ch) },
            cur_numeric: numeric,
            ended: false,
        }
    }
}

/// End of the scan: an open run closes the last segment, and a trailing
/// delimiter yields a final empty segment.
pub open spec fn split_finish(st: SplitState) -> Seq<SegV> {
    if st.cur.len() > 0 {
        st.segs.push(
            SegV {
                subs: st.subs.push(SubV { numeric: st.cur_numeric, text: st.cur }),
                delims: st.delims,
            },
        )
    } else if st.ended {
        st.segs.push(SegV { subs: Seq::empty(), delims: st.delims })
    } else {
        st.segs
    }
}

pub open spec fn split_scan(s: Seq<char>) -> SplitState {
    s.fold_left(split_init(), |st: SplitState, c: char| split_step(st, c))
}

/// The segments of a version string.
pub open spec fn segments(s: Seq<char>) -> Seq<SegV> {
    split_finish(split_scan(s))
}

/// Index of the first character of `x` at or after `i` that is not '0'.
pub open spec fn skip_zeros(x: Seq<char>, i: int) -> int
    decreases x.len() - i,
{
    if i < 0 || i >= x.len() {
        x.len() as int
    } else if x[i] == '0' {
        skip_zeros(x, i + 1)
    } else {
        i
    }
}

/// A digit run without its leading zeros ("0" when nothing is left).
pub open spec fn trimmed_zeros(x: Seq<char>) -> Seq<char> {
    let z = skip_zeros(x, 0);
    if z >= x.len() {
        seq!['0']
    } else {
        x.subrange(z, x.len() as int)
    }
}

/// Comparison of two digit runs: the longer one without leading zeros is
/// larger, equal lengths compare digit by digit.
pub open spec fn numeric_order(x: Seq<char>, y: Seq<char>) -> int {
    let a = trimmed_zeros(x);
    let b = trimmed_zeros(y);
    if a.len() > b.len() {
        1
    } else if a.len() < b.len() {
        -1
    } else {
        lex_order(a, b, 0)
    }
}

/// Comparison of two runs: a numeric run beats an alphabetic one.
pub open spec fn run_order(a: SubV, b: SubV) -> int {
    if a.numeric && b.numeric {
        numeric_order(a.text, b.text)
    } else if a.numeric {
        1
    } else if b.numeric {
        -1
    } else {
        lex_order(a.text, b.text, 0)
    }
}

/// The first non-zero comparison of runs `x[k]`, `y[k]` on their common
/// length, or 0.
pub open spec fn runs_order(x: Seq<SubV>, y: Seq<SubV>, k: int) -> int
    decreases x.len() - k,
{
    if 0 <= k && k < x.len() && k < y.len() {
        let r = run_order(x[k], y[k]);
        if r != 0 {
            r
        } else {
            runs_order(x, y, k + 1)
        }
    } else {
        0
    }
}

/// The segment comparison from index `i` on, with the special cases of the
/// alpm-pkgver specification.
pub open spec fn segments_order(a: Seq<SegV>, b: Seq<SegV>, i: int) -> int
    decreases a.len() - i,
{
    if 0 <= i && i < a.len() && i < b.len() {
        let sa = a[i];
        let sb = b[i];
        if sa.subs.len() == 0 && sb.subs.len() == 0 {
            segments_order(a, b, i + 1)
        } else if sa.subs.len() > 0 && sb.subs.len() > 0 && sa.delims != sb.delims {
            if sa.delims > sb.delims {
                1
            } else {
                -1
            }
        } else if sa.subs.len() == 0 {
            if sb.subs[0].numeric {
                -1
            } else {
                1
            }
        } else if sb.subs.len() == 0 {
            if sa.subs[0].numeric {
                1
            } else {
                -1
            }
        } else {
            let r = runs_order(sa.subs, sb.subs, 0);
            if r != 0 {
                r
            } else if sa.subs.len() == sb.subs.len() {
                segments_order(a, b, i + 1)
            } else if sa.subs.len() < sb.subs.len() {
                let k = sa.subs.len() as int;
                if i + 1 < a.len() && a[i + 1].subs.len() > 0 {
                    1
                } else if sb.subs[k].numeric {
                    -1
                } else if sa.subs[k - 1].numeric {
                    1
                } else {
                    -1
                }
            } else {
                let l = sb.subs.len() as int;
                if i + 1 < b.len() && b[i + 1].subs.len() > 0 {
                    -1
                } else if sa.subs[l].numeric {
                    1
                } else if sb.subs[l - 1].numeric {
                    -1
                } else {
                    1
                }
            }
        }
    } else if i >= a.len() {
        if i >= b.len() {
            0
        } else {
            -1
        }
    } else {
        1
    }
}

/// Comparison of two version strings (without epoch or release).
pub open spec fn version_order(a: Seq<char>, b: Seq<char>) -> int {
    if a == b {
        0
    } else {
        segments_order(segments(a), segments(b), 0)
    }
}

/// `[epoch:]version[-release]`: the epoch is the text before the first
/// colon when that text is not empty (else "0"), the release the text after
/// the last dash of the rest.
pub open spec fn evr(v: Seq<char>) -> (Seq<char>, Seq<char>, Option<Seq<char>>) {
    let c = first_index(v, ':');
    let epoch = if c > 0 { v.subrange(0, c) } else { seq!['0'] };
    let rest = if c > 0 { v.subrange(c + 1, v.len() as int) } else { v };
    let d = last_index(rest, '-');
    if d == -1 {
        (epoch, rest, None)
    } else {
        (epoch, rest.subrange(0, d), Some(rest.subrange(d + 1, rest.len() as int)))
    }
}

/// Full version comparison: -1, 0 or 1 when `a` is older than, equal to,
/// or newer than `b`. Epochs decide first, then versions; releases count
/// only when both sides have one.
pub open spec fn pkgver_order(a: Seq<char>, b: Seq<char>) -> int {
    if a == b {
        0
    } else {
        let (ea, va, ra) = evr(a);
        let (eb, vb, rb) = evr(b);
        let e = version_order(ea, eb);
        if e != 0 {
            e
        } else {
            let v = version_order(va, vb);
            if v != 0 {
                v
            } else {
                match (ra, rb) {
                    (Some(x), Some(y)) => version_order(x, y),
                    _ => 0,
                }
            }
        }
    }
}

// ---------------------------------------------------------------------
// Laws
// ---------------------------------------------------------------------

proof fn lemma_run_order_antisym(a: SubV, b: SubV)
    ensures
        run_order(a, b) == -run_order(b, a),
        -1 <= run_order(a, b) <= 1,
{
    lemma_lex_order_antisym(a.text, b.text, 0);
    lemma_lex_order_antisym(trimmed_zeros(a.text), trimmed_zeros(b.text), 0);
}

proof fn lemma_runs_order_antisym(x: Seq<SubV>, y: Seq<SubV>, k: int)
    requires
        0 <= k,
    ensures
        runs_order(x, y, k) == -runs_order(y, x, k),
        -1 <= runs_order(x, y, k) <= 1,
    decreases x.len() - k,
{
    if k < x.len() && k < y.len() {
        lemma_run_order_antisym(x[k], y[k]);
        lemma_runs_order_antisym(x, y, k + 1);
    }
}

proof fn lemma_segments_order_antisym(a: Seq<SegV>, b: Seq<SegV>, i: int)
    requires
        0 <= i,
    ensures
        segments_order(a, b, i) == -segments_order(b, a, i),
        -1 <= segments_order(a, b, i) <= 1,
    decreases a.len() - i,
{
    if i < a.len() && i < b.len() {
        lemma_runs_order_antisym(a[i].subs, b[i].subs, 0);
        lemma_segments_order_antisym(a, b, i + 1);
    }
}

proof fn lemma_version_order_antisym(a: Seq<char>, b: Seq<char>)
    ensures
        version_order(a, b) == -version_order(b, a),
        -1 <= version_order(a, b) <= 1,
{
    lemma_segments_order_antisym(segments(a), segments(b), 0);
}

/// Swapping the arguments of `vercmp` negates the result, and the result
/// is always -1, 0 or 1.
pub proof fn lemma_pkgver_order_antisymmetric(a: Seq<char>, b: Seq<char>)
    ensures
        pkgver_order(a, b) == -pkgver_order(b, a),
        -1 <= pkgver_order(a, b) <= 1,
{
    let (ea, va, ra) = evr(a);
    let (eb, vb, rb) = evr(b);
    lemma_version_order_antisym(ea, eb);
    lemma_version_order_antisym(va, vb);
    if ra is Some && rb is Some {
        lemma_version_order_antisym(ra->0, rb->0);
    }
}

/// Every version compares equal to itself.
pub proof fn lemma_pkgver_order_reflexive(a: Seq<char>)
    ensures
        pkgver_order(a, a) == 0,
{
}

// ---------------------------------------------------------------------
// Numeric runs compare as numbers
// ---------------------------------------------------------------------

pub open spec fn sign(v: int) -> int {
    if v > 0 {
        1
    } else if v < 0 {
        -1
    } else {
        0
    }
}

proof fn lemma_all_digits_sub(s: Seq<char>, lo: int, hi: int)
    requires
        all_digits(s),
        0 <= lo <= hi <= s.len(),
    ensures
        all_digits(s.subrange(lo, hi)),
{
    assert forall|i: int| 0 <= i < s.subrange(lo, hi).len() implies is_ascii_digit(
        #[trigger] s.subrange(lo, hi)[i],
    ) by {
        assert(s.subrange(lo, hi)[i] == s[lo + i]);
    }
}

proof fn lemma_pow10_pos(n: nat)
    ensures
        pow10(n) >= 1,
    decreases n,
{
    if n > 0 {
        lemma_pow10_pos((n - 1) as nat);
    }
}

proof fn lemma_pow10_mono(i: nat, j: nat)
    requires
        i <= j,
    ensures
        pow10(i) <= pow10(j),
    decreases j,
{
    if i < j {
        lemma_pow10_mono(i, (j - 1) as nat);
        lemma_pow10_pos((j - 1) as nat);
    }
}

/// The value of a digit string, split after its first `k` digits.
proof fn lemma_value_split(s: Seq<char>, k: int)
    requires
        0 <= k <= s.len(),
    ensures
        digits_value(s) == digits_value(s.subrange(0, k)) * pow10((s.len() - k) as nat)
            + digits_value(s.subrange(k, s.len() as int)),
    decreases s.len(),
{
    if k == s.len() {
        assert(s.subrange(0, k) =~= s);
        assert(s.subrange(k, s.len() as int) =~= Seq::<char>::empty());
    } else {
        let t = s.drop_last();
        lemma_value_split(t, k);
        assert(t.subrange(0, k) =~= s.subrange(0, k));
        let tail = s.subrange(k, s.len() as int);
        assert(tail.drop_last() =~= t.subrange(k, t.len() as int));
        assert(tail.last() == s.last());
        let a = digits_value(s.subrange(0, k));
        let p = pow10((t.len() - k) as nat);
        let b = digits_value(t.subrange(k, t.len() as int));
        assert(pow10((s.len() - k) as nat) == 10 * p);
        assert((a * p + b) * 10 + digit_val(s.last()) == a * (10 * p) + (b * 10 + digit_val(
            s.last(),
        ))) by (nonlinear_arith);
    }
}

/// A digit string is below the power of ten of its length.
proof fn lemma_value_bounds(s: Seq<char>)
    requires
        all_digits(s),
    ensures
        0 <= digits_value(s) < pow10(s.len()),
    decreases s.len(),
{
    if s.len() > 0 {
        let t = s.drop_last();
        lemma_all_digits_sub(s, 0, s.len() - 1);
        assert(t =~= s.subrange(0, s.len() - 1));
        lemma_value_bounds(t);
        assert(is_ascii_digit(s[s.len() - 1]));
        let d = digit_val(s.last());
        assert(0 <= d <= 9);
        let v = digits_value(t);
        let p = pow10(t.len());
        assert(pow10(s.len()) == 10 * p);
        assert(0 <= v * 10 + d < 10 * p) by (nonlinear_arith)
            requires
                0 <= v < p,
                0 <= d <= 9,
        ;
    }
}

/// A digit string without a leading zero is at least the power of ten
/// below its length.
proof fn lemma_value_lower(s: Seq<char>)
    requires
        all_digits(s),
        s.len() >= 1,
        s[0] != '0',
    ensures
        digits_value(s) >= pow10((s.len() - 1) as nat),
{
    lemma_value_split(s, 1);
    let head = s.subrange(0, 1);
    assert(head.drop_last() =~= Seq::<char>::empty());
    assert(head.last() == s[0]);
    assert(is_ascii_digit(s[0]));
    let d = digit_val(s[0]);
    assert(1 <= d <= 9);
    assert(digits_value(head.drop_last()) == 0);
    assert(digits_value(head) == digits_value(head.drop_last()) * 10 + digit_val(head.last()));
    assert(digits_value(head) == d);
    lemma_all_digits_sub(s, 1, s.len() as int);
    lemma_value_bounds(s.subrange(1, s.len() as int));
    let p = pow10((s.len() - 1) as nat);
    lemma_pow10_pos((s.len() - 1) as nat);
    assert(d * p >= p) by (nonlinear_arith)
        requires
            d >= 1,
            p >= 1,
    ;
}

/// Zeros in front do not change the value.
proof fn lemma_zeros_value(s: Seq<char>, z: int)
    requires
        0 <= z <= s.len(),
        forall|i: int| 0 <= i < z ==> s[i] == '0',
    ensures
        digits_value(s) == digits_value(s.subrange(z, s.len() as int)),
        digits_value(s.subrange(0, z)) == 0,
    decreases z,
{
    if z > 0 {
        let t = s.subrange(0, z);
        lemma_zeros_value(t, z - 1);
        assert(t.subrange(0, z - 1) =~= s.subrange(0, z - 1));
        assert(t.drop_last() =~= s.subrange(0, z - 1));
        assert(t.last() == '0');
        assert(digits_value(t) == digits_value(t.drop_last()) * 10 + 0);
        assert(digits_value(s.subrange(0, z - 1)) == 0) by {
            lemma_zeros_value(s.subrange(0, z), z - 1);
            assert(s.subrange(0, z).subrange(0, z - 1) =~= s.subrange(0, z - 1));
        }
    }
    lemma_value_split(s, z);
    let p = pow10((s.len() - z) as nat);
    assert(0 * p == 0);
}

/// On digit strings of one length, the first differing digit decides.
proof fn lemma_equal_length_order(a: Seq<char>, b: Seq<char>, k: int)
    requires
        all_digits(a),
        all_digits(b),
        a.len() == b.len(),
        0 <= k <= a.len(),
    ensures
        lex_order(a, b, k) == sign(
            digits_value(a.subrange(k, a.len() as int)) - digits_value(
                b.subrange(k, b.len() as int),
            ),
        ),
    decreases a.len() - k,
{
    let n = a.len() as int;
    if k == n {
        assert(a.subrange(k, n) =~= Seq::<char>::empty());
        assert(b.subrange(k, n) =~= Seq::<char>::empty());
    } else {
        let ta = a.subrange(k, n);
        let tb = b.subrange(k, n);
        lemma_value_split(ta, 1);
        lemma_value_split(tb, 1);
        assert(ta.subrange(1, ta.len() as int) =~= a.subrange(k + 1, n));
        assert(tb.subrange(1, tb.len() as int) =~= b.subrange(k + 1, n));
        let ha = ta.subrange(0, 1);
        let hb = tb.subrange(0, 1);
        assert(ha.drop_last() =~= Seq::<char>::empty());
        assert(hb.drop_last() =~= Seq::<char>::empty());
        assert(ha.last() == a[k] && hb.last() == b[k]);
        assert(is_ascii_digit(a[k]) && is_ascii_digit(b[k]));
        let da = digit_val(a[k]);
        let db = digit_val(b[k]);
        let p = pow10((n - k - 1) as nat);
        assert(digits_value(ha.drop_last()) == 0 && digits_value(hb.drop_last()) == 0);
        assert(digits_value(ha) == digits_value(ha.drop_last()) * 10 + digit_val(ha.last()));
        assert(digits_value(hb) == digits_value(hb.drop_last()) * 10 + digit_val(hb.last()));
        assert(digits_value(ha) == da && digits_value(hb) == db);
        assert(ta.len() - 1 == n - k - 1);
        let ra = digits_value(a.subrange(k + 1, n));
        let rb = digits_value(b.subrange(k + 1, n));
        lemma_all_digits_sub(a, k + 1, n);
        lemma_all_digits_sub(b, k + 1, n);
        lemma_value_bounds(a.subrange(k + 1, n));
        lemma_value_bounds(b.subrange(k + 1, n));
        assert(digits_value(ta) == da * p + ra);
        assert(digits_value(tb) == db * p + rb);
        if a[k] == b[k] {
            lemma_equal_length_order(a, b, k + 1);
        } else if a[k] < b[k] {
            assert(da + 1 <= db);
            assert(da * p + ra < db * p + rb) by (nonlinear_arith)
                requires
                    da + 1 <= db,
                    0 <= ra < p,
                    0 <= rb,
            ;
        } else {
            assert(db + 1 <= da);
            assert(db * p + rb < da * p + ra) by (nonlinear_arith)
                requires
                    db + 1 <= da,
                    0 <= rb < p,
                    0 <= ra,
            ;
        }
    }
}

/// A digit run without its leading zeros keeps its value, and has no
/// leading zero unless it is "0".
proof fn lemma_trimmed(x: Seq<char>)
    requires
        all_digits(x),
    ensures
        all_digits(trimmed_zeros(x)),
        trimmed_zeros(x).len() >= 1,
        digits_value(trimmed_zeros(x)) == digits_value(x),
        trimmed_zeros(x) == seq!['0'] || trimmed_zeros(x)[0] != '0',
{
    let z = skip_zeros(x, 0);
    lemma_skip_zeros(x, 0);
    if z >= x.len() {
        lemma_zeros_value(x, x.len() as int);
        assert(x.subrange(x.len() as int, x.len() as int) =~= Seq::<char>::empty());
        let t = seq!['0'];
        assert(t.drop_last() =~= Seq::<char>::empty());
        assert(is_ascii_digit('0'));
    } else {
        lemma_zeros_value(x, z);
        lemma_all_digits_sub(x, z, x.len() as int);
    }
}

proof fn lemma_skip_zeros(x: Seq<char>, i: int)
    requires
        0 <= i <= x.len(),
    ensures
        i <= skip_zeros(x, i) <= x.len(),
        forall|j: int| i <= j < skip_zeros(x, i) ==> x[j] == '0',
        skip_zeros(x, i) < x.len() ==> x[skip_zeros(x, i)] != '0',
    decreases x.len() - i,
{
    if i < x.len() && x[i] == '0' {
        lemma_skip_zeros(x, i + 1);
    }
}

/// Numeric runs of a version compare as the numbers they spell: leading
/// zeros do not count, and a longer number is larger.
pub proof fn lemma_numeric_order_is_value_order(x: Seq<char>, y: Seq<char>)
    requires
        all_digits(x),
        all_digits(y),
    ensures
        numeric_order(x, y) == sign(digits_value(x) - digits_value(y)),
{
    lemma_trimmed(x);
    lemma_trimmed(y);
    let a = trimmed_zeros(x);
    let b = trimmed_zeros(y);
    if a.len() > b.len() {
        assert(a != seq!['0']);
        lemma_value_lower(a);
        lemma_value_bounds(b);
        lemma_pow10_mono(b.len(), (a.len() - 1) as nat);
    } else if a.len() < b.len() {
        assert(b != seq!['0']);
        lemma_value_lower(b);
        lemma_value_bounds(a);
        lemma_pow10_mono(a.len(), (b.len() - 1) as nat);
    } else {
        lemma_equal_length_order(a, b, 0);
        assert(a.subrange(0, a.len() as int) =~= a);
        assert(b.subrange(0, b.len() as int) =~= b);
    }
}

// ---------------------------------------------------------------------
// Implementation
// ---------------------------------------------------------------------

struct Sub {
    numeric: bool,
    text: Vec<char>,
}

impl View for Sub {
    type V = SubV;

    closed spec fn view(&self) -> SubV {
        SubV { numeric: self.numeric, text: self.text@ }
    }
}

struct Seg {
    subs: Vec<Sub>,
    delims: usize,
}

impl View for Seg {
    type V = SegV;

    closed spec fn view(&self) -> SegV {
        SegV { subs: self.subs@.map_values(|s: Sub| s@), delims: self.delims as nat }
    }
}

spec fn subs_view(v: Seq<Sub>) -> Seq<SubV> {
    v.map_values(|s: Sub| s@)
}

spec fn segs_view(v: Seq<Seg>) -> Seq<SegV> {
    v.map_values(|s: Seg| s@)
}

/// Splits a version string into segments per the alpm-pkgver specification.
fn split_segments(s: &Vec<char>) -> (r: Vec<Seg>)
    ensures
        segs_view(r@) == segments(s@),
{
    let mut segs: Vec<Seg> = Vec::new();
    let mut delims: usize = 0;
    let mut subs: Vec<Sub> = Vec::new();
    let mut cur: Vec<char> = Vec::new();
    let mut cur_numeric = false;
    let mut ended = false;
    let mut i: usize = 0;
    assert(s@.take(0) =~= Seq::<char>::empty());
    assert(segs_view(segs@) =~= Seq::<SegV>::empty());
    assert(subs_view(subs@) =~= Seq::<SubV>::empty());
    while i < s.len()
        invariant
            i <= s@.len(),
            delims <= i,
            split_scan(s@.take(i as int)) == (SplitState {
                segs: segs_view(segs@),
                delims: delims as nat,
                subs: subs_view(subs@),
                cur: cur@,
                cur_numeric,
                ended,
            }),
        decreases s.len() - i,
    {
        let ch = s[i];
        let ghost before = SplitState {
            segs: segs_view(segs@),
            delims: delims as nat,
            subs: subs_view(subs@),
            cur: cur@,
            cur_numeric,
            ended,
        };
        if !is_alphanumeric(ch) {
            if cur.len() > 0 {
                let ghost sv = subs_view(subs@);
                subs.push(Sub { numeric: cur_numeric, text: cur });
                cur = Vec::new();
                assert(subs_view(subs@) =~= sv.push(SubV { numeric: cur_numeric, text: before.cur }));
            }
            if subs.len() > 0 {
                let ghost gv = segs_view(segs@);
                let ghost sv = subs_view(subs@);
                segs.push(Seg { subs, delims });
                subs = Vec::new();
                assert(segs_view(segs@) =~= gv.push(SegV { subs: sv, delims: delims as nat }));
            }
            delims = delims + 1;
            ended = true;
            assert(subs_view(subs@) =~= Seq::<SubV>::empty());
            assert(cur@ =~= Seq::<char>::empty());
        } else {
            let numeric = ascii_digit(ch);
            if cur.len() > 0 && numeric != cur_numeric {
                let ghost sv = subs_view(subs@);
                subs.push(Sub { numeric: cur_numeric, text: cur });
                cur = Vec::new();
                assert(subs_view(subs@) =~= sv.push(SubV { numeric: cur_numeric, text: before.cur }));
                assert(cur@.push(ch) =~= seq![ch]);
            }
            cur.push(ch);
            cur_numeric = numeric;
            ended = false;
        }
        proof {
            let t = s@.take(i + 1);
            assert(t.drop_last() =~= s@.take(i as int));
            assert(t.last() == ch);
        }
        i = i + 1;
    }
    assert(s@.take(s@.len() as int) =~= s@);
    if cur.len() > 0 {
        let ghost gv = segs_view(segs@);
        let ghost sv = subs_view(subs@);
        let ghost cv = cur@;
        subs.push(Sub { numeric: cur_numeric, text: cur });
        let ghost sv2 = subs_view(subs@);
        assert(sv2 =~= sv.push(SubV { numeric: cur_numeric, text: cv }));
        segs.push(Seg { subs, delims });
        assert(segs_view(segs@) =~= gv.push(SegV { subs: sv2, delims: delims as nat }));
    } else if ended {
        let ghost gv = segs_view(segs@);
        segs.push(Seg { subs: Vec::new(), delims });
        assert(subs_view(Seq::<Sub>::empty()) =~= Seq::<SubV>::empty());
        assert(segs_view(segs@) =~= gv.push(SegV { subs: Seq::empty(), delims: delims as nat }));
    }
    segs
}

/// A digit run without its leading zeros.
fn trim_zeros(x: &Vec<char>) -> (r: Vec<char>)
    ensures
        r@ == trimmed_zeros(x@),
{
    let mut z: usize = 0;
    while z < x.len() && x[z] == '0'
        invariant
            z <= x@.len(),
            skip_zeros(x@, 0) == skip_zeros(x@, z as int),
        decreases x.len() - z,
    {
        z = z + 1;
    }
    if z >= x.len() {
        let mut r: Vec<char> = Vec::new();
        r.push('0');
        assert(r@ =~= seq!['0']);
        r
    } else {
        slice_of(x, z, x.len())
    }
}

/// Compares two runs; 0 when equal.
fn compare_runs(a: &Sub, b: &Sub) -> (r: i8)
    ensures
        r as int == run_order(a@, b@),
{
    if a.numeric && b.numeric {
        let x = trim_zeros(&a.text);
        let y = trim_zeros(&b.text);
        if x.len() > y.len() {
            1
        } else if x.len() < y.len() {
            -1
        } else {
            lex_compare(&x, &y)
        }
    } else if a.numeric {
        1
    } else if b.numeric {
        -1
    } else {
        lex_compare(&a.text, &b.text)
    }
}

/// Compares two version strings with the segment algorithm of the
/// alpm-pkgver specification.
fn compare_versions(a: &Vec<char>, b: &Vec<char>) -> (r: i8)
    ensures
        r as int == version_order(a@, b@),
{
    if chars_eq(a, b) {
        return 0;
    }
    let sa_all = split_segments(a);
    let sb_all = split_segments(b);
    let ghost av = segs_view(sa_all@);
    let ghost bv = segs_view(sb_all@);
    let mut i: usize = 0;
    while i < sa_all.len() && i < sb_all.len()
        invariant
            av == segs_view(sa_all@),
            bv == segs_view(sb_all@),
            i <= sa_all@.len(),
            i <= sb_all@.len(),
            segments_order(av, bv, 0) == segments_order(av, bv, i as int),
            version_order(a@, b@) == segments_order(av, bv, 0),
        decreases sa_all.len() - i,
    {
        let sa = &sa_all[i];
        let sb = &sb_all[i];
        assert(av[i as int] == sa@);
        assert(bv[i as int] == sb@);
        if sa.subs.len() == 0 && sb.subs.len() == 0 {
            i = i + 1;
            continue;
        }
        if sa.subs.len() > 0 && sb.subs.len() > 0 && sa.delims != sb.delims {
            return if sa.delims > sb.delims {
                1
            } else {
                -1
            };
        }
        if sa.subs.len() == 0 {
            assert(sb@.subs[0] == sb.subs@[0]@);
            return if sb.subs[0].numeric {
                -1
            } else {
                1
            };
        }
        if sb.subs.len() == 0 {
            assert(sa@.subs[0] == sa.subs@[0]@);
            return if sa.subs[0].numeric {
                1
            } else {
                -1
            };
        }
        let ghost xs = sa@.subs;
        let ghost ys = sb@.subs;
        let mut k: usize = 0;
        while k < sa.subs.len() && k < sb.subs.len()
            invariant
                xs == sa@.subs,
                ys == sb@.subs,
                version_order(a@, b@) == segments_order(av, bv, i as int),
                i < av.len(),
                i < bv.len(),
                av[i as int] == sa@,
                bv[i as int] == sb@,
                sa.subs@.len() > 0,
                sb.subs@.len() > 0,
                sa.delims == sb.delims,
                k <= sa.subs@.len(),
                k <= sb.subs@.len(),
                runs_order(xs, ys, 0) == runs_order(xs, ys, k as int),
            decreases sa.subs.len() - k,
        {
            assert(xs[k as int] == sa.subs@[k as int]@);
            assert(ys[k as int] == sb.subs@[k as int]@);
            let r = compare_runs(&sa.subs[k], &sb.subs[k]);
            if r != 0 {
                return r;
            }
            k = k + 1;
        }
        let l = k;
        if k == sa.subs.len() && l == sb.subs.len() {
            i = i + 1;
            continue;
        }
        if k == sa.subs.len() {
            if i + 1 < sa_all.len() && sa_all[i + 1].subs.len() > 0 {
                assert(av[i + 1] == sa_all@[i + 1]@);
                return 1;
            }
            if i + 1 < sa_all.len() {
                assert(av[i + 1] == sa_all@[i + 1]@);
            }
            assert(ys[l as int] == sb.subs@[l as int]@);
            if sb.subs[l].numeric {
                return -1;
            }
            assert(xs[k - 1] == sa.subs@[k - 1]@);
            return if sa.subs[k - 1].numeric {
                1
            } else {
                -1
            };
        }
        if i + 1 < sb_all.len() && sb_all[i + 1].subs.len() > 0 {
            assert(bv[i + 1] == sb_all@[i + 1]@);
            return -1;
        }
        if i + 1 < sb_all.len() {
            assert(bv[i + 1] == sb_all@[i + 1]@);
        }
        assert(xs[k as int] == sa.subs@[k as int]@);
        if sa.subs[k].numeric {
            return 1;
        }
        assert(ys[l - 1] == sb.subs@[l - 1]@);
        return if sb.subs[l - 1].numeric {
            -1
        } else {
            1
        };
    }
    if i == sa_all.len() {
        if i == sb_all.len() {
            return 0;
        }
        return -1;
    }
    1
}

/// Splits `[epoch:]version[-release]` per alpm rules.
fn parse_evr(v: &Vec<char>) -> (r: (Vec<char>, Vec<char>, Option<Vec<char>>))
    ensures
        r.0@ == evr(v@).0,
        r.1@ == evr(v@).1,
        match r.2 {
            Some(x) => evr(v@).2 == Some(x@),
            None => evr(v@).2 is None,
        },
{
    let colon = find_char(v, ':');
    proof {
        lemma_index_from(v@, ':', 0);
    }
    let (epoch, rest) = match colon {
        Some(c) if c > 0 => {
            let n = v.len();
            assert(c < n);
            (slice_of(v, 0, c), slice_of(v, c + 1, n))
        },
        _ => {
            let mut e: Vec<char> = Vec::new();
            e.push('0');
            assert(e@ =~= seq!['0']);
            let mut r: Vec<char> = Vec::new();
            let mut k: usize = 0;
            while k < v.len()
                invariant
                    k <= v@.len(),
                    r@ == v@.take(k as int),
                decreases v.len() - k,
            {
                r.push(v[k]);
                k = k + 1;
                assert(v@.take(k as int) =~= v@.take(k - 1).push(v@[k - 1]));
            }
            assert(v@.take(v@.len() as int) =~= v@);
            (e, r)
        },
    };
    match rfind_char(&rest, '-') {
        Some(pos) => {
            proof {
                lemma_index_before(rest@, '-', rest@.len() as int);
            }
            (epoch, slice_of(&rest, 0, pos), Some(slice_of(&rest, pos + 1, rest.len())))
        },
        None => (epoch, rest, None),
    }
}

/// Compares valid ALPM package version strings according to the
/// alpm-pkgver comparison rules. Returns -1, 0 or 1 when `a` is older
/// than, equal to, or newer than `b`.
pub fn vercmp(a: &str, b: &str) -> (r: i8)
    ensures
        r == pkgver_order(a@, b@),
        -1 <= r <= 1,
{
    proof {
        lemma_pkgver_order_antisymmetric(a@, b@);
    }
    if str_eq(a, b) {
        return 0;
    }
    let av = chars_of(a);
    let bv = chars_of(b);
    let (epoch_a, ver_a, rel_a) = parse_evr(&av);
    let (epoch_b, ver_b, rel_b) = parse_evr(&bv);
    let epoch_order = compare_versions(&epoch_a, &epoch_b);
    if epoch_order != 0 {
        return epoch_order;
    }
    let ver_order = compare_versions(&ver_a, &ver_b);
    if ver_order != 0 {
        return ver_order;
    }
    match (rel_a, rel_b) {
        (Some(x), Some(y)) => compare_versions(&x, &y),
        _ => 0,
    }
}

} // verus!
