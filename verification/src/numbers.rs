//! Decimal number parsing: signed and unsigned integers as `str::parse`
//! reads them, and decimal amounts such as "381.68".

use vstd::prelude::*;
use crate::text::is_ascii_digit;

verus! {

pub open spec fn digit_val(c: char) -> int {
    (c as int) - ('0' as int)
}

pub open spec fn all_digits(s: Seq<char>) -> bool {
    forall|i: int| 0 <= i < s.len() ==> is_ascii_digit(#[trigger] s[i])
}

/// The value of a run of decimal digits.
pub open spec fn digits_value(s: Seq<char>) -> int
    decreases s.len(),
{
    if s.len() == 0 {
        0
    } else {
        digits_value(s.drop_last()) * 10 + digit_val(s.last())
    }
}

pub open spec fn pow10(n: nat) -> int
    decreases n,
{
    if n == 0 {
        1
    } else {
        10 * pow10((n - 1) as nat)
    }
}

pub open spec fn min_int(a: int, b: int) -> int {
    if a <= b {
        a
    } else {
        b
    }
}

proof fn lemma_digits_value_nonneg(s: Seq<char>)
    requires
        all_digits(s),
    ensures
        digits_value(s) >= 0,
    decreases s.len(),
{
    if s.len() > 0 {
        assert(all_digits(s.drop_last())) by {
            assert forall|i: int| 0 <= i < s.drop_last().len() implies is_ascii_digit(#[trigger] s.drop_last()[i]) by {
                assert(s.drop_last()[i] == s[i]);
            }
        }
        lemma_digits_value_nonneg(s.drop_last());
        assert(is_ascii_digit(s[s.len() - 1]));
    }
}

proof fn lemma_pow10_pos(n: nat)
    ensures
        pow10(n) >= 1,
    decreases n,
{
    if n > 0 {
        lemma_pow10_pos((n - 1) as nat);
    }
}

/// Reads the digits `s[lo..hi]` with the running value capped at `cap`:
/// the result is `min(value, cap)`, and `None` when a character is not a
/// digit.
fn digits_capped(s: &Vec<char>, lo: usize, hi: usize, cap: u128) -> (r: Option<u128>)
    requires
        lo <= hi <= s@.len(),
        1 <= cap <= 0x1000_0000_0000_0000_0000_0000_0000_0000,
    ensures
        match r {
            Some(v) => all_digits(s@.subrange(lo as int, hi as int)) && v == min_int(
                digits_value(s@.subrange(lo as int, hi as int)),
                cap as int,
            ),
            None => !all_digits(s@.subrange(lo as int, hi as int)),
        },
{
    let mut acc: u128 = 0;
    let mut i = lo;
    while i < hi
        invariant
            lo <= i <= hi <= s@.len(),
            1 <= cap <= 0x1000_0000_0000_0000_0000_0000_0000_0000,
            all_digits(s@.subrange(lo as int, i as int)),
            acc == min_int(digits_value(s@.subrange(lo as int, i as int)), cap as int),
        decreases hi - i,
    {
        let c = s[i];
        let ghost pre = s@.subrange(lo as int, i as int);
        let ghost nxt = s@.subrange(lo as int, i + 1);
        assert(nxt.drop_last() =~= pre);
        assert(nxt.last() == c);
        if !('0' <= c && c <= '9') {
            assert(!is_ascii_digit(nxt[i - lo]));
            assert(!all_digits(s@.subrange(lo as int, hi as int))) by {
                assert(s@.subrange(lo as int, hi as int)[i - lo] == c);
            }
            return None;
        }
        let d = (c as u32 - '0' as u32) as u128;
        proof {
            lemma_digits_value_nonneg(pre);
            assert(all_digits(nxt)) by {
                assert forall|k: int| 0 <= k < nxt.len() implies is_ascii_digit(#[trigger] nxt[k]) by {
                    if k < pre.len() {
                        assert(nxt[k] == pre[k]);
                    }
                }
            }
            assert(d == digit_val(c));
            let v = digits_value(pre);
            assert(digits_value(nxt) == v * 10 + d);
            if v >= cap {
                assert(acc == cap);
                assert(v * 10 + d >= cap) by (nonlinear_arith)
                    requires
                        v >= cap,
                        d >= 0,
                        cap >= 1,
                ;
            } else {
                assert(acc == v);
            }
        }
        let next: u128 = acc * 10 + d;
        acc = if next > cap {
            cap
        } else {
            next
        };
        i = i + 1;
    }
    Some(acc)
}

/// The optional sign and the digits of an integer literal.
pub open spec fn signed_parts(s: Seq<char>) -> (bool, Seq<char>) {
    if s.len() > 0 && s[0] == '-' {
        (true, s.drop_first())
    } else if s.len() > 0 && s[0] == '+' {
        (false, s.drop_first())
    } else {
        (false, s)
    }
}

/// `i64::from_str`: an optional `+` or `-`, then at least one ASCII digit,
/// the value within the range of `i64`.
pub open spec fn parse_i64_spec(s: Seq<char>) -> Option<i64> {
    let (neg, body) = signed_parts(s);
    let v = if neg {
        -digits_value(body)
    } else {
        digits_value(body)
    };
    if body.len() > 0 && all_digits(body) && i64::MIN <= v <= i64::MAX {
        Some(v as i64)
    } else {
        None
    }
}

/// `usize::from_str`: an optional `+`, then at least one ASCII digit, the
/// value within the range of `usize`.
pub open spec fn parse_usize_spec(s: Seq<char>) -> Option<usize> {
    let body = if s.len() > 0 && s[0] == '+' {
        s.drop_first()
    } else {
        s
    };
    let v = digits_value(body);
    if body.len() > 0 && all_digits(body) && v <= usize::MAX {
        Some(v as usize)
    } else {
        None
    }
}

/// Parses a signed 64-bit integer as `str::parse::<i64>` does.
pub fn parse_i64(s: &Vec<char>) -> (r: Option<i64>)
    ensures
        r == parse_i64_spec(s@),
{
    let n = s.len();
    let neg = n > 0 && s[0] == '-';
    let start: usize = if n > 0 && (s[0] == '-' || s[0] == '+') {
        1
    } else {
        0
    };
    let ghost body = signed_parts(s@).1;
    assert(s@.subrange(start as int, n as int) =~= body);
    if start >= n {
        return None;
    }
    let cap: u128 = 0x8000_0000_0000_0001;
    match digits_capped(s, start, n, cap) {
        None => None,
        Some(v) => {
            proof {
                lemma_digits_value_nonneg(body);
            }
            if neg {
                if v > 0x8000_0000_0000_0000 {
                    None
                } else {
                    let r: i128 = 0 - (v as i128);
                    Some(r as i64)
                }
            } else {
                if v > 0x7fff_ffff_ffff_ffff {
                    None
                } else {
                    Some(v as i64)
                }
            }
        },
    }
}

/// Parses an unsigned machine-size integer as `str::parse::<usize>` does.
pub fn parse_usize(s: &Vec<char>) -> (r: Option<usize>)
    ensures
        r == parse_usize_spec(s@),
{
    let n = s.len();
    let start: usize = if n > 0 && s[0] == '+' {
        1
    } else {
        0
    };
    let ghost body = if s@.len() > 0 && s@[0] == '+' {
        s@.drop_first()
    } else {
        s@
    };
    assert(s@.subrange(start as int, n as int) =~= body);
    if start >= n {
        return None;
    }
    let cap: u128 = 0x1_0000_0000_0000_0000;
    match digits_capped(s, start, n, cap) {
        None => None,
        Some(v) => {
            if v > usize::MAX as u128 {
                None
            } else {
                Some(v as usize)
            }
        },
    }
}

// ---------------------------------------------------------------------
// Decimal amounts
// ---------------------------------------------------------------------

/// Most fractional digits a decimal amount may have.
pub const MAX_FRACTION_DIGITS: usize = 18;

/// `[+]int[.frac]` with at least one digit in all, at most
/// [`MAX_FRACTION_DIGITS`] fractional digits: the integer and fractional
/// digit runs.
pub open spec fn decimal_parts(s: Seq<char>) -> Option<(Seq<char>, Seq<char>)> {
    let body = if s.len() > 0 && s[0] == '+' {
        s.drop_first()
    } else {
        s
    };
    let dot = crate::text::first_index(body, '.');
    let ip = if dot == -1 {
        body
    } else {
        body.subrange(0, dot)
    };
    let fp = if dot == -1 {
        Seq::empty()
    } else {
        body.subrange(dot + 1, body.len() as int)
    };
    if ip.len() + fp.len() > 0 && all_digits(ip) && all_digits(fp) && fp.len() <= MAX_FRACTION_DIGITS {
        Some((ip, fp))
    } else {
        None
    }
}

/// `ip.fp * mult`, rounded half up, capped at `u64::MAX`.
pub open spec fn scaled_amount(ip: Seq<char>, fp: Seq<char>, mult: int) -> int {
    let scale = pow10(fp.len());
    let frac = digits_value(fp) * mult;
    let rounded = digits_value(ip) * mult + frac / scale + if 2 * (frac % scale) >= scale {
        1int
    } else {
        0int
    };
    min_int(rounded, u64::MAX as int)
}

proof fn lemma_pow10_mono(a: nat, b: nat)
    requires
        a <= b,
    ensures
        1 <= pow10(a) <= pow10(b),
    decreases b,
{
    if b > a {
        lemma_pow10_mono(a, (b - 1) as nat);
    } else {
        lemma_pow10_pos(a);
    }
}

proof fn lemma_pow10_bound(n: nat)
    requires
        n <= 18,
    ensures
        1 <= pow10(n) <= 1_000_000_000_000_000_000,
{
    lemma_pow10_mono(n, 18);
    reveal_with_fuel(pow10, 19);
    assert(pow10(18) == 1_000_000_000_000_000_000);
}

proof fn lemma_digits_below_pow(s: Seq<char>)
    requires
        all_digits(s),
    ensures
        0 <= digits_value(s) < pow10(s.len()),
    decreases s.len(),
{
    if s.len() > 0 {
        let p = s.drop_last();
        assert(all_digits(p)) by {
            assert forall|i: int| 0 <= i < p.len() implies is_ascii_digit(#[trigger] p[i]) by {
                assert(p[i] == s[i]);
            }
        }
        lemma_digits_below_pow(p);
        assert(is_ascii_digit(s[s.len() - 1]));
        let v = digits_value(p);
        let d = digit_val(s.last());
        let q = pow10(p.len());
        assert(v * 10 + d < 10 * q) by (nonlinear_arith)
            requires
                0 <= v < q,
                0 <= d <= 9,
        ;
        assert(pow10(s.len()) == 10 * q);
    }
}

/// The value of `ip.fp * mult` in whole units, rounded half up and capped
/// at `u64::MAX`, for the digit runs `s[ilo..ihi]` and `s[flo..fhi]`.
fn scale_decimal(s: &Vec<char>, ilo: usize, ihi: usize, flo: usize, fhi: usize, mult: u64) -> (r: Option<u64>)
    requires
        ilo <= ihi <= s@.len(),
        flo <= fhi <= s@.len(),
        fhi - flo <= MAX_FRACTION_DIGITS,
        1 <= mult <= 0x4000_0000,
    ensures
        match r {
            Some(v) => all_digits(s@.subrange(ilo as int, ihi as int)) && all_digits(
                s@.subrange(flo as int, fhi as int),
            ) && v == scaled_amount(
                s@.subrange(ilo as int, ihi as int),
                s@.subrange(flo as int, fhi as int),
                mult as int,
            ),
            None => !all_digits(s@.subrange(ilo as int, ihi as int)) || !all_digits(
                s@.subrange(flo as int, fhi as int),
            ),
        },
{
    let ghost ip = s@.subrange(ilo as int, ihi as int);
    let ghost fp = s@.subrange(flo as int, fhi as int);
    let cap: u128 = 100_000_000_000_000_000_000;
    let ivalue = match digits_capped(s, ilo, ihi, cap) {
        Some(v) => v,
        None => return None,
    };
    let fvalue = match digits_capped(s, flo, fhi, cap) {
        Some(v) => v,
        None => return None,
    };
    let mut scale: u128 = 1;
    let mut k: usize = flo;
    while k < fhi
        invariant
            flo <= k <= fhi,
            fhi - flo <= MAX_FRACTION_DIGITS,
            scale == pow10((k - flo) as nat),
            scale <= 1_000_000_000_000_000_000,
        decreases fhi - k,
    {
        proof {
            lemma_pow10_bound((k + 1 - flo) as nat);
            assert(pow10((k + 1 - flo) as nat) == 10 * pow10((k - flo) as nat));
        }
        scale = scale * 10;
        k = k + 1;
    }
    proof {
        lemma_digits_below_pow(fp);
        lemma_digits_value_nonneg(ip);
        lemma_pow10_bound(fp.len());
        assert(fvalue == digits_value(fp));
    }
    let m = mult as u128;
    assert(fvalue * m <= 1_000_000_000_000_000_000 * 0x4000_0000) by (nonlinear_arith)
        requires
            fvalue <= 1_000_000_000_000_000_000,
            m <= 0x4000_0000,
    ;
    assert(ivalue * m <= 100_000_000_000_000_000_000 * 0x4000_0000) by (nonlinear_arith)
        requires
            ivalue <= 100_000_000_000_000_000_000,
            m <= 0x4000_0000,
    ;
    let frac = fvalue * m;
    let whole = ivalue * m;
    let half_up: u128 = if 2 * (frac % scale) >= scale {
        1
    } else {
        0
    };
    let total = whole + frac / scale + half_up;
    proof {
        let iv = digits_value(ip);
        if iv >= cap {
            assert(ivalue == cap);
            assert(iv * mult >= cap) by (nonlinear_arith)
                requires
                    iv >= cap,
                    mult >= 1,
            ;
            assert(whole >= cap) by (nonlinear_arith)
                requires
                    whole == ivalue * m,
                    ivalue == cap,
                    m >= 1,
            ;
        } else {
            assert(ivalue == iv);
        }
    }
    if total > u64::MAX as u128 {
        Some(u64::MAX)
    } else {
        Some(total as u64)
    }
}

/// Parses a decimal amount (see [`decimal_parts`]) scaled by `mult`.
pub fn parse_scaled_decimal(s: &Vec<char>, mult: u64) -> (r: Option<u64>)
    requires
        1 <= mult <= 0x4000_0000,
    ensures
        match decimal_parts(s@) {
            Some((ip, fp)) => r == Some(scaled_amount(ip, fp, mult as int) as u64),
            None => r is None,
        },
{
    let n = s.len();
    let start: usize = if n > 0 && s[0] == '+' {
        1
    } else {
        0
    };
    let ghost body = if s@.len() > 0 && s@[0] == '+' {
        s@.drop_first()
    } else {
        s@
    };
    assert(s@.subrange(start as int, n as int) =~= body);
    let mut dot = start;
    while dot < n && s[dot] != '.'
        invariant
            start <= dot <= n,
            n == s@.len(),
            s@.subrange(start as int, n as int) == body,
            crate::text::index_from(body, '.', 0) == crate::text::index_from(body, '.', (dot - start) as int),
            forall|j: int| start <= j < dot ==> s@[j] != '.',
        decreases n - dot,
    {
        assert(body[(dot - start) as int] == s@[dot as int]);
        dot = dot + 1;
    }
    proof {
        if dot < n {
            assert(body[(dot - start) as int] == s@[dot as int]);
        }
    }
    let (flo, fhi) = if dot < n {
        (dot + 1, n)
    } else {
        (n, n)
    };
    let ghost ip = s@.subrange(start as int, dot as int);
    let ghost fp = s@.subrange(flo as int, fhi as int);
    proof {
        if dot < n {
            assert(ip =~= body.subrange(0, (dot - start) as int));
            assert(fp =~= body.subrange((dot - start) + 1, body.len() as int));
        } else {
            assert(ip =~= body);
            assert(fp =~= Seq::<char>::empty());
        }
    }
    if dot - start + (fhi - flo) == 0 || fhi - flo > MAX_FRACTION_DIGITS {
        return None;
    }
    match scale_decimal(s, start, dot, flo, fhi, mult) {
        Some(v) => Some(v),
        None => None,
    }
}

} // verus!
