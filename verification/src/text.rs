//! Character-level text helpers shared by the parsers.
//!
//! Every parser in this crate turns its `&str` input into a vector of
//! `char`s first and works on that; the specifications below describe the
//! `str` methods the parsers rely on (`lines`, `trim`, `split_once`, ...)
//! as functions on `Seq<char>`.

use vstd::prelude::*;

verus! {

/// `char::is_alphanumeric`: the Unicode `Alphabetic` or `Numeric` property.
pub uninterp spec fn unicode_alphanumeric(c: char) -> bool;

/// `char::is_whitespace`: the characters with the Unicode `White_Space`
/// property.
pub open spec fn unicode_white_space(c: char) -> bool {
    ||| '\u{9}' <= c <= '\u{d}'
    ||| c == ' '
    ||| c == '\u{85}'
    ||| c == '\u{a0}'
    ||| c == '\u{1680}'
    ||| '\u{2000}' <= c <= '\u{200a}'
    ||| c == '\u{2028}'
    ||| c == '\u{2029}'
    ||| c == '\u{202f}'
    ||| c == '\u{205f}'
    ||| c == '\u{3000}'
}

/// Calls `char::is_alphanumeric`. The contract names the result, a fixed
/// property of the character looked up in Unicode tables, and states what
/// those tables give on ASCII: the letters and digits are alphanumeric,
/// every other ASCII character is not.
#[verifier::external_body]
pub(crate) fn is_alphanumeric(c: char) -> (r: bool)
    ensures
        r == unicode_alphanumeric(c),
        c <= '\u{7f}' ==> (r <==> (('a' <= c && c <= 'z') || ('A' <= c && c <= 'Z') || ('0' <= c
            && c <= '9'))),
{
    c.is_alphanumeric()
}

/// Whether `c` is white space, as `char::is_whitespace` decides it.
pub fn is_whitespace(c: char) -> (r: bool)
    ensures
        r == unicode_white_space(c),
{
    ('\u{9}' <= c && c <= '\u{d}') || c == ' ' || c == '\u{85}' || c == '\u{a0}' || c
        == '\u{1680}' || ('\u{2000}' <= c && c <= '\u{200a}') || c == '\u{2028}' || c
        == '\u{2029}' || c == '\u{202f}' || c == '\u{205f}' || c == '\u{3000}'
}

/// `String::push` appends one character.
pub assume_specification[ String::push ](s: &mut String, ch: char)
    ensures
        final(s)@ == old(s)@.push(ch),
;

pub open spec fn is_ascii_digit(c: char) -> bool {
    '0' <= c && c <= '9'
}

pub fn ascii_digit(c: char) -> (r: bool)
    ensures
        r == is_ascii_digit(c),
{
    '0' <= c && c <= '9'
}

/// The characters of `s`, in order.
pub fn chars_of(s: &str) -> (r: Vec<char>)
    ensures
        r@ == s@,
{
    let mut out: Vec<char> = Vec::new();
    for c in it: s.chars()
        invariant
            it.seq() == s@,
            out@ == s@.take(it.index() as int),
    {
        out.push(c);
    }
    out
}

/// A `String` holding `cs[lo..hi]`.
pub fn string_of_range(cs: &Vec<char>, lo: usize, hi: usize) -> (r: String)
    requires
        lo <= hi <= cs@.len(),
    ensures
        r@ == cs@.subrange(lo as int, hi as int),
{
    let mut out = String::new();
    let mut i = lo;
    while i < hi
        invariant
            lo <= i <= hi <= cs@.len(),
            out@ == cs@.subrange(lo as int, i as int),
        decreases hi - i,
    {
        out.push(cs[i]);
        i = i + 1;
    }
    out
}

/// A `String` holding `cs`.
pub fn string_of(cs: &Vec<char>) -> (r: String)
    ensures
        r@ == cs@,
{
    let r = string_of_range(cs, 0, cs.len());
    assert(cs@.subrange(0, cs@.len() as int) == cs@);
    r
}

/// `cs[lo..hi]` as a new vector.
pub fn slice_of(cs: &Vec<char>, lo: usize, hi: usize) -> (r: Vec<char>)
    requires
        lo <= hi <= cs@.len(),
    ensures
        r@ == cs@.subrange(lo as int, hi as int),
{
    let mut out: Vec<char> = Vec::new();
    let mut i = lo;
    while i < hi
        invariant
            lo <= i <= hi <= cs@.len(),
            out@ == cs@.subrange(lo as int, i as int),
        decreases hi - i,
    {
        out.push(cs[i]);
        i = i + 1;
    }
    out
}

/// Appends the characters of `s` to `out`.
pub fn push_str(out: &mut String, s: &str)
    ensures
        final(out)@ == old(out)@ + s@,
{
    let cs = chars_of(s);
    push_chars(out, &cs);
}

/// Appends `cs` to `out`.
pub fn push_chars(out: &mut String, cs: &Vec<char>)
    ensures
        final(out)@ == old(out)@ + cs@,
{
    let ghost start = out@;
    let mut i: usize = 0;
    while i < cs.len()
        invariant
            i <= cs@.len(),
            out@ == start + cs@.take(i as int),
        decreases cs.len() - i,
    {
        out.push(cs[i]);
        i = i + 1;
        assert(cs@.take(i as int) == cs@.take(i - 1).push(cs@[i - 1]));
    }
    assert(cs@.take(cs@.len() as int) == cs@);
}

/// A `String` holding the characters of `s`.
pub fn owned(s: &str) -> (r: String)
    ensures
        r@ == s@,
{
    let mut out = String::new();
    push_str(&mut out, s);
    out
}

/// Whether two character sequences are equal.
pub fn chars_eq(a: &Vec<char>, b: &Vec<char>) -> (r: bool)
    ensures
        r == (a@ == b@),
{
    if a.len() != b.len() {
        return false;
    }
    let mut i: usize = 0;
    while i < a.len()
        invariant
            a@.len() == b@.len(),
            i <= a@.len(),
            forall|j: int| 0 <= j < i ==> a@[j] == b@[j],
        decreases a.len() - i,
    {
        if a[i] != b[i] {
            return false;
        }
        i = i + 1;
    }
    assert(a@ =~= b@);
    true
}

/// Whether `a` equals the characters of `s`.
pub fn chars_eq_str(a: &Vec<char>, s: &str) -> (r: bool)
    ensures
        r == (a@ == s@),
{
    let b = chars_of(s);
    chars_eq(a, &b)
}

/// Whether two strings hold the same characters.
pub fn str_eq(a: &str, b: &str) -> (r: bool)
    ensures
        r == (a@ == b@),
{
    let x = chars_of(a);
    let y = chars_of(b);
    chars_eq(&x, &y)
}

// ---------------------------------------------------------------------
// Searching
// ---------------------------------------------------------------------

/// Index of the first `c` in `s` at or after `i`, or -1.
pub open spec fn index_from(s: Seq<char>, c: char, i: int) -> int
    decreases s.len() - i,
{
    if i < 0 || i >= s.len() {
        -1
    } else if s[i] == c {
        i
    } else {
        index_from(s, c, i + 1)
    }
}

/// Index of the first `c` in `s`, or -1.
pub open spec fn first_index(s: Seq<char>, c: char) -> int {
    index_from(s, c, 0)
}

pub proof fn lemma_index_from(s: Seq<char>, c: char, i: int)
    requires
        0 <= i <= s.len(),
    ensures
        index_from(s, c, i) == -1 ==> forall|j: int| i <= j < s.len() ==> s[j] != c,
        index_from(s, c, i) != -1 ==> {
            &&& i <= index_from(s, c, i) < s.len()
            &&& s[index_from(s, c, i)] == c
            &&& forall|j: int| i <= j < index_from(s, c, i) ==> s[j] != c
        },
    decreases s.len() - i,
{
    if i < s.len() && s[i] != c {
        lemma_index_from(s, c, i + 1);
    }
}

/// Index of the last `c` in `s[..i]`, or -1.
pub open spec fn index_before(s: Seq<char>, c: char, i: int) -> int
    decreases i,
{
    if i <= 0 || i > s.len() {
        -1
    } else if s[i - 1] == c {
        i - 1
    } else {
        index_before(s, c, i - 1)
    }
}

/// Index of the last `c` in `s`, or -1.
pub open spec fn last_index(s: Seq<char>, c: char) -> int {
    index_before(s, c, s.len() as int)
}

pub proof fn lemma_index_before(s: Seq<char>, c: char, i: int)
    requires
        0 <= i <= s.len(),
    ensures
        index_before(s, c, i) == -1 ==> forall|j: int| 0 <= j < i ==> s[j] != c,
        index_before(s, c, i) != -1 ==> {
            &&& 0 <= index_before(s, c, i) < i
            &&& s[index_before(s, c, i)] == c
            &&& forall|j: int| index_before(s, c, i) < j < i ==> s[j] != c
        },
    decreases i,
{
    if i > 0 && s[i - 1] != c {
        lemma_index_before(s, c, i - 1);
    }
}

/// First index of `c` in `s` at or after `from`.
pub fn find_char_from(s: &Vec<char>, c: char, from: usize) -> (r: Option<usize>)
    requires
        from <= s@.len(),
    ensures
        match r {
            Some(i) => i == index_from(s@, c, from as int),
            None => index_from(s@, c, from as int) == -1,
        },
{
    let mut i = from;
    while i < s.len()
        invariant
            from <= i <= s@.len(),
            index_from(s@, c, from as int) == index_from(s@, c, i as int),
        decreases s.len() - i,
    {
        if s[i] == c {
            return Some(i);
        }
        i = i + 1;
    }
    None
}

/// First index of `c` in `s`.
pub fn find_char(s: &Vec<char>, c: char) -> (r: Option<usize>)
    ensures
        match r {
            Some(i) => i == first_index(s@, c),
            None => first_index(s@, c) == -1,
        },
{
    find_char_from(s, c, 0)
}

/// Last index of `c` in `s`.
pub fn rfind_char(s: &Vec<char>, c: char) -> (r: Option<usize>)
    ensures
        match r {
            Some(i) => i == last_index(s@, c),
            None => last_index(s@, c) == -1,
        },
{
    let mut i = s.len();
    while i > 0
        invariant
            i <= s@.len(),
            last_index(s@, c) == index_before(s@, c, i as int),
        decreases i,
    {
        if s[i - 1] == c {
            return Some(i - 1);
        }
        i = i - 1;
    }
    None
}

// ---------------------------------------------------------------------
// Trimming
// ---------------------------------------------------------------------

/// First index at or after `i` whose character is not white space
/// (`s.len()` when there is none).
pub open spec fn skip_space(s: Seq<char>, i: int) -> int
    decreases s.len() - i,
{
    if i < 0 || i >= s.len() {
        if i < 0 { 0 } else { s.len() as int }
    } else if unicode_white_space(s[i]) {
        skip_space(s, i + 1)
    } else {
        i
    }
}

/// One past the last index before `j` and at or after `lo` whose character
/// is not white space (`lo` when there is none).
pub open spec fn back_space(s: Seq<char>, lo: int, j: int) -> int
    decreases j - lo,
{
    if j <= lo || j > s.len() {
        if j > s.len() { s.len() as int } else { lo }
    } else if unicode_white_space(s[j - 1]) {
        back_space(s, lo, j - 1)
    } else {
        j
    }
}

/// `str::trim_start`.
pub open spec fn trim_start(s: Seq<char>) -> Seq<char> {
    s.subrange(skip_space(s, 0), s.len() as int)
}

/// `str::trim_end`.
pub open spec fn trim_end(s: Seq<char>) -> Seq<char> {
    s.subrange(0, back_space(s, 0, s.len() as int))
}

/// `str::trim`.
pub open spec fn trim(s: Seq<char>) -> Seq<char> {
    s.subrange(skip_space(s, 0), back_space(s, skip_space(s, 0), s.len() as int))
}

pub proof fn lemma_skip_space(s: Seq<char>, i: int)
    requires
        0 <= i <= s.len(),
    ensures
        i <= skip_space(s, i) <= s.len(),
        forall|j: int| i <= j < skip_space(s, i) ==> unicode_white_space(#[trigger] s[j]),
        skip_space(s, i) < s.len() ==> !unicode_white_space(s[skip_space(s, i)]),
    decreases s.len() - i,
{
    if i < s.len() && unicode_white_space(s[i]) {
        lemma_skip_space(s, i + 1);
    }
}

pub proof fn lemma_back_space(s: Seq<char>, lo: int, j: int)
    requires
        0 <= lo <= j <= s.len(),
    ensures
        lo <= back_space(s, lo, j) <= j,
        forall|k: int| back_space(s, lo, j) <= k < j ==> unicode_white_space(#[trigger] s[k]),
        back_space(s, lo, j) > lo ==> !unicode_white_space(s[back_space(s, lo, j) - 1]),
    decreases j - lo,
{
    if j > lo && unicode_white_space(s[j - 1]) {
        lemma_back_space(s, lo, j - 1);
    }
}

/// Index of the first non-space character of `s[i..]`.
pub fn skip_space_from(s: &Vec<char>, i: usize) -> (r: usize)
    requires
        i <= s@.len(),
    ensures
        r == skip_space(s@, i as int),
{
    let mut k = i;
    while k < s.len()
        invariant
            i <= k <= s@.len(),
            skip_space(s@, i as int) == skip_space(s@, k as int),
        decreases s.len() - k,
    {
        if !is_whitespace(s[k]) {
            return k;
        }
        k = k + 1;
    }
    k
}

/// One past the last non-space character of `s[lo..j]`.
pub fn back_space_from(s: &Vec<char>, lo: usize, j: usize) -> (r: usize)
    requires
        lo <= j <= s@.len(),
    ensures
        r == back_space(s@, lo as int, j as int),
{
    let mut k = j;
    while k > lo
        invariant
            lo <= k <= j <= s@.len(),
            back_space(s@, lo as int, j as int) == back_space(s@, lo as int, k as int),
        decreases k - lo,
    {
        if !is_whitespace(s[k - 1]) {
            return k;
        }
        k = k - 1;
    }
    k
}

/// `str::trim`.
pub fn trim_chars(s: &Vec<char>) -> (r: Vec<char>)
    ensures
        r@ == trim(s@),
{
    let lo = skip_space_from(s, 0);
    proof {
        lemma_skip_space(s@, 0);
    }
    let hi = back_space_from(s, lo, s.len());
    proof {
        lemma_back_space(s@, lo as int, s@.len() as int);
    }
    slice_of(s, lo, hi)
}

/// `str::trim_start`.
pub fn trim_start_chars(s: &Vec<char>) -> (r: Vec<char>)
    ensures
        r@ == trim_start(s@),
{
    let lo = skip_space_from(s, 0);
    proof {
        lemma_skip_space(s@, 0);
    }
    slice_of(s, lo, s.len())
}

/// `str::trim_end`.
pub fn trim_end_chars(s: &Vec<char>) -> (r: Vec<char>)
    ensures
        r@ == trim_end(s@),
{
    let hi = back_space_from(s, 0, s.len());
    proof {
        lemma_back_space(s@, 0, s@.len() as int);
    }
    slice_of(s, 0, hi)
}

// ---------------------------------------------------------------------
// Lines
// ---------------------------------------------------------------------

/// A line without its terminating `\n`: `str::lines` also drops one `\r`
/// before the `\n`.
pub open spec fn strip_cr(line: Seq<char>) -> Seq<char> {
    if line.len() > 0 && line.last() == '\r' {
        line.drop_last()
    } else {
        line
    }
}

/// `str::lines`: the pieces of `s` split at `\n`, where a line that ended in
/// `\r\n` loses the `\r`, and a trailing `\n` does not start another line.
pub open spec fn lines(s: Seq<char>) -> Seq<Seq<char>>
    decreases s.len(),
{
    if s.len() == 0 {
        Seq::empty()
    } else {
        let i = first_index(s, '\n');
        if i == -1 {
            seq![s]
        } else {
            proof {
                lemma_index_from(s, '\n', 0);
            }
            seq![strip_cr(s.subrange(0, i))] + lines(s.subrange(i + 1, s.len() as int))
        }
    }
}

/// The lines of `s`, see [`lines`].
pub fn lines_of(s: &Vec<char>) -> (r: Vec<Vec<char>>)
    ensures
        r@.len() == lines(s@).len(),
        forall|k: int| 0 <= k < r@.len() ==> #[trigger] r@[k]@ == lines(s@)[k],
{
    let mut out: Vec<Vec<char>> = Vec::new();
    let mut start: usize = 0;
    assert(s@.subrange(0, s@.len() as int) =~= s@);
    assert(out@.map_values(|l: Vec<char>| l@) =~= Seq::<Seq<char>>::empty());
    while start < s.len()
        invariant
            start <= s@.len(),
            lines(s@) == out@.map_values(|l: Vec<char>| l@) + lines(s@.subrange(start as int, s@.len() as int)),
        decreases s.len() - start,
    {
        let ghost rest = s@.subrange(start as int, s@.len() as int);
        let nl = find_char_from(s, '\n', start);
        proof {
            lemma_index_from(s@, '\n', start as int);
            lemma_index_from(rest, '\n', 0);
        }
        match nl {
            None => {
                assert(first_index(rest, '\n') == -1) by {
                    if first_index(rest, '\n') != -1 {
                        let k = first_index(rest, '\n');
                        assert(s@[start + k] == '\n');
                    }
                }
                let line = slice_of(s, start, s.len());
                let ghost before = out@.map_values(|l: Vec<char>| l@);
                out.push(line);
                assert(out@.map_values(|l: Vec<char>| l@) == before.push(rest));
                assert(lines(s@.subrange(s@.len() as int, s@.len() as int)) == Seq::<Seq<char>>::empty());
                start = s.len();
            },
            Some(i) => {
                assert(first_index(rest, '\n') == i - start) by {
                    if first_index(rest, '\n') != -1 {
                        let k = first_index(rest, '\n');
                        assert(s@[start + k] == '\n');
                        if k < i - start {
                            assert(rest[k] == s@[start + k]);
                        }
                    }
                    assert(rest[i - start] == '\n');
                }
                let mut end = i;
                if end > start && s[end - 1] == '\r' {
                    end = end - 1;
                }
                let line = slice_of(s, start, end);
                let ghost before = out@.map_values(|l: Vec<char>| l@);
                assert(line@ == strip_cr(rest.subrange(0, i - start)));
                out.push(line);
                assert(out@.map_values(|l: Vec<char>| l@) == before.push(line@));
                assert(rest.subrange(i - start + 1, rest.len() as int) =~= s@.subrange(i + 1, s@.len() as int));
                start = i + 1;
            },
        }
    }
    assert(lines(s@.subrange(start as int, s@.len() as int)) == Seq::<Seq<char>>::empty());
    assert(lines(s@) == out@.map_values(|l: Vec<char>| l@));
    out
}

/// Maps `f` over `s`, keeping the `Some` results in order.
pub open spec fn filter_map<A, B>(s: Seq<A>, f: spec_fn(A) -> Option<B>) -> Seq<B>
    decreases s.len(),
{
    if s.len() == 0 {
        Seq::empty()
    } else {
        let prev = filter_map(s.drop_last(), f);
        match f(s.last()) {
            Some(b) => prev.push(b),
            None => prev,
        }
    }
}

/// One more element of `s` processed by [`filter_map`].
pub proof fn lemma_filter_map_step<A, B>(s: Seq<A>, f: spec_fn(A) -> Option<B>, i: int)
    requires
        0 <= i < s.len(),
    ensures
        filter_map(s.take(i + 1), f) == match f(s[i]) {
            Some(b) => filter_map(s.take(i), f).push(b),
            None => filter_map(s.take(i), f),
        },
{
    assert(s.take(i + 1).drop_last() =~= s.take(i));
    assert(s.take(i + 1).last() == s[i]);
}

/// Optional strings as character sequences.
pub open spec fn opt_view(o: Option<String>) -> Option<Seq<char>> {
    match o {
        Some(s) => Some(s@),
        None => None,
    }
}

/// The views of a vector of strings.
pub open spec fn strings_view(v: Seq<String>) -> Seq<Seq<char>> {
    v.map_values(|s: String| s@)
}

// ---------------------------------------------------------------------
// Prefixes and substrings
// ---------------------------------------------------------------------

pub open spec fn starts_with(s: Seq<char>, p: Seq<char>) -> bool {
    p.len() <= s.len() && s.subrange(0, p.len() as int) == p
}

pub open spec fn ends_with(s: Seq<char>, p: Seq<char>) -> bool {
    p.len() <= s.len() && s.subrange(s.len() - p.len(), s.len() as int) == p
}

/// `p` occurs in `s` starting at `i`.
pub open spec fn occurs_at(s: Seq<char>, p: Seq<char>, i: int) -> bool {
    0 <= i && i + p.len() <= s.len() && s.subrange(i, i + p.len()) == p
}

/// `str::contains` with a string pattern.
pub open spec fn contains_seq(s: Seq<char>, p: Seq<char>) -> bool {
    exists|i: int| occurs_at(s, p, i)
}

/// Index of the first occurrence of `p` in `s` at or after `i`, or -1.
pub open spec fn seq_index_from(s: Seq<char>, p: Seq<char>, i: int) -> int
    decreases s.len() + 1 - i,
{
    if i < 0 || i + p.len() > s.len() {
        -1
    } else if occurs_at(s, p, i) {
        i
    } else {
        seq_index_from(s, p, i + 1)
    }
}

pub proof fn lemma_seq_index_from(s: Seq<char>, p: Seq<char>, i: int)
    requires
        0 <= i,
    ensures
        seq_index_from(s, p, i) == -1 || (i <= seq_index_from(s, p, i) && occurs_at(
            s,
            p,
            seq_index_from(s, p, i),
        )),
    decreases s.len() + 1 - i,
{
    if i + p.len() <= s.len() && !occurs_at(s, p, i) {
        lemma_seq_index_from(s, p, i + 1);
    }
}

/// `str::find` with a string pattern: the first index where `p` occurs.
pub fn find_chars(s: &Vec<char>, p: &Vec<char>) -> (r: Option<usize>)
    ensures
        match r {
            Some(i) => i == seq_index_from(s@, p@, 0) && occurs_at(s@, p@, i as int),
            None => seq_index_from(s@, p@, 0) == -1,
        },
{
    let n = s.len();
    let m = p.len();
    let mut i: usize = 0;
    while i <= n && m <= n - i
        invariant
            n == s@.len(),
            m == p@.len(),
            seq_index_from(s@, p@, 0) == seq_index_from(s@, p@, i as int),
        decreases n - i,
    {
        if matches_at(s, p, i) {
            return Some(i);
        }
        if i == n {
            assert(s@.subrange(n as int, n as int) =~= p@);
            return None;
        }
        i = i + 1;
    }
    None
}

/// The first line of `s` (the text up to the first newline, without a
/// `\r` before it).
pub open spec fn first_line(s: Seq<char>) -> Seq<char> {
    let i = first_index(s, '\n');
    if i == -1 {
        s
    } else {
        strip_cr(s.subrange(0, i))
    }
}

/// The first line of `s[from..]`.
pub fn first_line_from(s: &Vec<char>, from: usize) -> (r: Vec<char>)
    requires
        from <= s@.len(),
    ensures
        r@ == first_line(s@.subrange(from as int, s@.len() as int)),
{
    let ghost rest = s@.subrange(from as int, s@.len() as int);
    let nl = find_char_from(s, '\n', from);
    proof {
        lemma_index_from(s@, '\n', from as int);
        lemma_index_from(rest, '\n', 0);
    }
    match nl {
        None => {
            assert(first_index(rest, '\n') == -1) by {
                if first_index(rest, '\n') != -1 {
                    let k = first_index(rest, '\n');
                    assert(s@[from + k] == '\n');
                }
            }
            slice_of(s, from, s.len())
        },
        Some(i) => {
            assert(first_index(rest, '\n') == i - from) by {
                if first_index(rest, '\n') != -1 {
                    let k = first_index(rest, '\n');
                    assert(s@[from + k] == '\n');
                    if k < i - from {
                        assert(rest[k] == s@[from + k]);
                    }
                }
                assert(rest[i - from] == '\n');
            }
            let mut end = i;
            if end > from && s[end - 1] == '\r' {
                end = end - 1;
            }
            let r = slice_of(s, from, end);
            assert(r@ == strip_cr(rest.subrange(0, i - from)));
            r
        },
    }
}

/// Whether `p` occurs in `s` at `i`.
pub fn matches_at(s: &Vec<char>, p: &Vec<char>, i: usize) -> (r: bool)
    ensures
        r == occurs_at(s@, p@, i as int),
{
    let n = s.len();
    let m = p.len();
    if i > n || m > n - i {
        return false;
    }
    let mut k: usize = 0;
    while k < m
        invariant
            n == s@.len(),
            m == p@.len(),
            i + m <= n,
            k <= m,
            forall|j: int| 0 <= j < k ==> s@[i + j] == p@[j],
        decreases p.len() - k,
    {
        if s[i + k] != p[k] {
            assert(s@.subrange(i as int, i + p@.len())[k as int] != p@[k as int]);
            return false;
        }
        k = k + 1;
    }
    assert(s@.subrange(i as int, i + p@.len()) =~= p@);
    true
}

/// `str::starts_with`.
pub fn has_prefix(s: &Vec<char>, p: &Vec<char>) -> (r: bool)
    ensures
        r == starts_with(s@, p@),
{
    matches_at(s, p, 0)
}

/// `str::ends_with`.
pub fn has_suffix(s: &Vec<char>, p: &Vec<char>) -> (r: bool)
    ensures
        r == ends_with(s@, p@),
{
    if p.len() > s.len() {
        return false;
    }
    matches_at(s, p, s.len() - p.len())
}

/// `str::contains` with a string pattern.
pub fn contains_chars(s: &Vec<char>, p: &Vec<char>) -> (r: bool)
    ensures
        r == contains_seq(s@, p@),
{
    let n = s.len();
    let mut i: usize = 0;
    loop
        invariant
            n == s@.len(),
            i <= n,
            forall|j: int| 0 <= j < i ==> !occurs_at(s@, p@, j),
        decreases n - i,
    {
        if matches_at(s, p, i) {
            return true;
        }
        if i == n {
            assert forall|j: int| !occurs_at(s@, p@, j) by {
                if 0 <= j && j + p@.len() <= s@.len() {
                    assert(j <= i);
                }
            }
            return false;
        }
        i = i + 1;
    }
}

/// Whether `c` occurs in `s`.
pub fn contains_char(s: &Vec<char>, c: char) -> (r: bool)
    ensures
        r == s@.contains(c),
{
    let f = find_char(s, c);
    proof {
        lemma_index_from(s@, c, 0);
    }
    match f {
        Some(i) => {
            assert(s@[i as int] == c);
            true
        },
        None => false,
    }
}

/// Lexicographic comparison of `x[k..]` and `y[k..]` by character code:
/// -1, 0 or 1.
pub open spec fn lex_order(x: Seq<char>, y: Seq<char>, k: int) -> int
    decreases x.len() - k,
{
    if k < 0 || k >= x.len() {
        if k >= 0 && k < y.len() {
            -1
        } else {
            0
        }
    } else if k >= y.len() {
        1
    } else if x[k] < y[k] {
        -1
    } else if x[k] > y[k] {
        1
    } else {
        lex_order(x, y, k + 1)
    }
}

pub proof fn lemma_lex_order_antisym(x: Seq<char>, y: Seq<char>, k: int)
    requires
        0 <= k,
    ensures
        lex_order(x, y, k) == -lex_order(y, x, k),
        -1 <= lex_order(x, y, k) <= 1,
    decreases x.len() - k,
{
    if k < x.len() && k < y.len() && x[k] == y[k] {
        lemma_lex_order_antisym(x, y, k + 1);
    }
}


/// Two sequences compare equal exactly when they are equal.
pub proof fn lemma_lex_order_zero(x: Seq<char>, y: Seq<char>, k: int)
    requires
        0 <= k <= x.len(),
        k <= y.len(),
        x.subrange(0, k) == y.subrange(0, k),
    ensures
        lex_order(x, y, k) == 0 <==> x == y,
    decreases x.len() - k,
{
    if k < x.len() && k < y.len() && x[k] == y[k] {
        assert(x.subrange(0, k + 1) =~= x.subrange(0, k).push(x[k]));
        assert(y.subrange(0, k + 1) =~= y.subrange(0, k).push(y[k]));
        lemma_lex_order_zero(x, y, k + 1);
    } else if k < x.len() && k < y.len() {
        assert(x[k] != y[k]);
    } else if k == x.len() && k == y.len() {
        assert(x =~= x.subrange(0, k));
        assert(y =~= y.subrange(0, k));
    } else if k == x.len() {
        assert(x.len() != y.len());
    } else {
        assert(x.len() != y.len());
    }
}

/// The lexicographic order is transitive.
pub proof fn lemma_lex_order_trans(x: Seq<char>, y: Seq<char>, z: Seq<char>, k: int)
    requires
        0 <= k,
        lex_order(x, y, k) < 0,
        lex_order(y, z, k) < 0,
    ensures
        lex_order(x, z, k) < 0,
    decreases x.len() - k,
{
    if k < x.len() && k < y.len() && k < z.len() && x[k] == y[k] && y[k] == z[k] {
        lemma_lex_order_trans(x, y, z, k + 1);
    }
}

/// `x` comes strictly before `y` in lexicographic order.
pub open spec fn lex_less(x: Seq<char>, y: Seq<char>) -> bool {
    lex_order(x, y, 0) < 0
}
/// Lexicographic comparison of two character vectors.
pub fn lex_compare(x: &Vec<char>, y: &Vec<char>) -> (r: i8)
    ensures
        r as int == lex_order(x@, y@, 0),
{
    let mut k: usize = 0;
    while k < x.len() && k < y.len()
        invariant
            k <= x@.len(),
            k <= y@.len(),
            lex_order(x@, y@, 0) == lex_order(x@, y@, k as int),
        decreases x.len() - k,
    {
        if x[k] < y[k] {
            return -1;
        }
        if x[k] > y[k] {
            return 1;
        }
        k = k + 1;
    }
    if k < x.len() {
        1
    } else if k < y.len() {
        -1
    } else {
        0
    }
}

/// `items` joined by single spaces.
pub open spec fn join_spaces(items: Seq<Seq<char>>) -> Seq<char>
    decreases items.len(),
{
    if items.len() == 0 {
        Seq::empty()
    } else if items.len() == 1 {
        items[0]
    } else {
        join_spaces(items.drop_last()) + " "@ + items.last()
    }
}

/// `items.join(" ")`.
pub fn join_with_spaces(items: &Vec<String>) -> (r: String)
    ensures
        r@ == join_spaces(strings_view(items@)),
{
    let ghost iv = strings_view(items@);
    let mut out = String::new();
    let mut i: usize = 0;
    proof {
        assert(iv.take(0) =~= Seq::<Seq<char>>::empty());
        reveal_strlit("");
    }
    while i < items.len()
        invariant
            i <= items@.len(),
            iv == strings_view(items@),
            out@ == join_spaces(iv.take(i as int)),
        decreases items.len() - i,
    {
        proof {
            let t = iv.take(i + 1);
            assert(t.drop_last() =~= iv.take(i as int));
            assert(t.last() == items@[i as int]@);
            if i == 0 {
                assert(iv.take(0) =~= Seq::<Seq<char>>::empty());
            }
        }
        if i > 0 {
            push_str(&mut out, " ");
        }
        push_str(&mut out, items[i].as_str());
        i = i + 1;
    }
    assert(iv.take(iv.len() as int) =~= iv);
    out
}

} // verus!
