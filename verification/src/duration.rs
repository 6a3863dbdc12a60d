//! The run time that ExUnit reports on its `Finished in` line: the word
//! that follows `Finished in`, as the output gives it.
//!
//! Turning that word into a number of seconds with two decimals is
//! floating-point work and is done by the caller; the library takes the
//! shown text as a plain value.
use vstd::prelude::*;
use crate::patterns::{word_run, word_run_end, ws_run, ws_run_end};
use crate::text::{
    chars_of,
    copy_range,
    lines,
    split_lines,
    starts_with,
    starts_with_str,
    string_from_chars,
    trim,
    trim_chars,
    views,
};

verus! {

/// The first word of `s`, as `s.split_whitespace().next().unwrap_or("")`
/// gives it.
pub open spec fn first_word(s: Seq<char>) -> Seq<char> {
    let a = ws_run(s, 0);
    s.subrange(a, a + word_run(s, a))
}

/// The word after `Finished in ` on the first line among `ls` whose trimmed
/// text begins with it.
pub open spec fn duration_word_in_lines(ls: Seq<Seq<char>>) -> Option<Seq<char>>
    decreases ls.len(),
{
    if ls.len() == 0 {
        None
    } else {
        let t = trim(ls[0]);
        if starts_with(t, "Finished in "@) {
            Some(first_word(t.skip("Finished in "@.len() as int)))
        } else {
            duration_word_in_lines(ls.drop_first())
        }
    }
}

/// The run time word that the output reports, such as `0.05` for
/// `Finished in 0.05 seconds`.
pub open spec fn duration_word_of(output: Seq<char>) -> Option<Seq<char>> {
    duration_word_in_lines(lines(output))
}

fn first_word_chars(v: &Vec<char>) -> (r: Vec<char>)
    ensures
        r@ == first_word(v@),
{
    let a = ws_run_end(v, 0);
    let b = word_run_end(v, a);
    copy_range(v, a, b)
}

/// The run time word that `output` reports on its first `Finished in` line.
pub fn duration_word_chars(output: &Vec<char>) -> (r: Option<Vec<char>>)
    ensures
        match (r, duration_word_of(output@)) {
            (Some(d), Some(sd)) => d@ == sd,
            (None, None) => true,
            _ => false,
        },
{
    let ls = split_lines(output);
    let mut i: usize = 0;
    assert(views(ls@).skip(0) =~= views(ls@));
    while i < ls.len()
        invariant
            i <= ls.len(),
            views(ls@) == lines(output@),
            duration_word_of(output@) == duration_word_in_lines(views(ls@).skip(i as int)),
        decreases ls.len() - i,
    {
        let t = trim_chars(&ls[i]);
        assert(views(ls@).skip(i as int)[0] == ls@[i as int]@);
        if starts_with_str(&t, "Finished in ") {
            let n = "Finished in ".unicode_len();
            let rest = copy_range(&t, n, t.len());
            assert(rest@ =~= t@.skip("Finished in "@.len() as int));
            return Some(first_word_chars(&rest));
        }
        assert(views(ls@).skip(i as int).drop_first() =~= views(ls@).skip(i + 1));
        i = i + 1;
    }
    None
}

/// The word after `Finished in ` on the first line of `output` that begins
/// with it once trimmed: the run time as ExUnit printed it.
pub fn duration_word(output: &str) -> (r: Option<String>)
    ensures
        match (r, duration_word_of(output@)) {
            (Some(d), Some(sd)) => d@ == sd,
            (None, None) => true,
            _ => false,
        },
{
    let v = chars_of(output);
    match duration_word_chars(&v) {
        Some(d) => Some(string_from_chars(&d)),
        None => None,
    }
}

} // verus!
