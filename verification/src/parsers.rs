//! Parsing of `name version` listings.

use vstd::prelude::*;
use crate::text::{
    chars_of, filter_map, find_char, first_index, lemma_filter_map_step, lemma_index_from, lines,
    lines_of, opt_view, string_of, string_of_range, trim, trim_chars,
};

verus! {

/// A trimmed line split at its first space into name and version; a line
/// without a space is a name alone.
pub open spec fn pair_of(line: Seq<char>) -> (Seq<char>, Option<Seq<char>>) {
    let i = first_index(line, ' ');
    if i == -1 {
        (line, None)
    } else {
        (line.subrange(0, i), Some(line.subrange(i + 1, line.len() as int)))
    }
}

/// The pair of a line, or nothing for a line that is blank after trimming.
pub open spec fn pair_line(line: Seq<char>) -> Option<(Seq<char>, Option<Seq<char>>)> {
    let t = trim(line);
    if t.len() == 0 {
        None
    } else {
        Some(pair_of(t))
    }
}

pub open spec fn pair_line_fn() -> spec_fn(Seq<char>) -> Option<(Seq<char>, Option<Seq<char>>)> {
    |l: Seq<char>| pair_line(l)
}

pub open spec fn pairs_spec(output: Seq<char>) -> Seq<(Seq<char>, Option<Seq<char>>)> {
    filter_map(lines(output), pair_line_fn())
}

pub open spec fn pair_view(p: (String, Option<String>)) -> (Seq<char>, Option<Seq<char>>) {
    (p.0@, opt_view(p.1))
}

/// Splits a trimmed, non-empty line into name and optional version.
pub fn split_pair(t: &Vec<char>) -> (r: (String, Option<String>))
    ensures
        pair_view(r) == pair_of(t@),
{
    proof {
        lemma_index_from(t@, ' ', 0);
    }
    let n = t.len();
    match find_char(t, ' ') {
        Some(i) => {
            assert(i < n);
            (string_of_range(t, 0, i), Some(string_of_range(t, i + 1, n)))
        },
        None => (string_of(t), None),
    }
}

/// Parses `name version` lines (blank lines skipped, each line trimmed;
/// a line without a space has no version).
pub fn parse_pairs(output: &str) -> (r: Vec<(String, Option<String>)>)
    ensures
        r@.map_values(|p: (String, Option<String>)| pair_view(p)) == pairs_spec(output@),
{
    let cs = chars_of(output);
    let ls = lines_of(&cs);
    let ghost lv = lines(cs@);
    let mut out: Vec<(String, Option<String>)> = Vec::new();
    let mut i: usize = 0;
    assert(out@.map_values(|p: (String, Option<String>)| pair_view(p)) =~= filter_map(lv.take(0), pair_line_fn()));
    while i < ls.len()
        invariant
            i <= ls@.len(),
            ls@.len() == lv.len(),
            forall|k: int| 0 <= k < ls@.len() ==> #[trigger] ls@[k]@ == lv[k],
            out@.map_values(|p: (String, Option<String>)| pair_view(p)) == filter_map(lv.take(i as int), pair_line_fn()),
        decreases ls.len() - i,
    {
        let t = trim_chars(&ls[i]);
        proof {
            lemma_filter_map_step(lv, pair_line_fn(), i as int);
            assert(ls@[i as int]@ == lv[i as int]);
            assert(pair_line_fn()(lv[i as int]) == pair_line(lv[i as int]));
        }
        if t.len() > 0 {
            let p = split_pair(&t);
            let ghost before = out@.map_values(|p: (String, Option<String>)| pair_view(p));
            out.push(p);
            assert(out@.map_values(|p: (String, Option<String>)| pair_view(p)) =~= before.push(pair_view(p)));
        }
        i = i + 1;
    }
    assert(lv.take(lv.len() as int) =~= lv);
    out
}

} // verus!
