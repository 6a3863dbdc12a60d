//! The line grammar of ExUnit output: the summary line with its two
//! counts, the `Finished in` and `Randomized with seed` lines, failure
//! headers, and stacktrace lines that point into dependencies.
use vstd::prelude::*;
use crate::digits::{is_decimal_digit, is_decimal_digit_char};
use crate::text::{
    contains,
    contains_str,
    copy_range,
    is_white_space,
    is_white_space_char,
    occurs_at,
    occurs_at_chars,
    chars_of,
    starts_with,
    starts_with_str,
    trim,
    trim_chars,
};

verus! {

/// The number of decimal digits (`\d`) in `s` from position `i` on.
pub open spec fn digit_run(s: Seq<char>, i: int) -> int
    decreases s.len() - i,
{
    if 0 <= i < s.len() && is_decimal_digit(s[i]) {
        1 + digit_run(s, i + 1)
    } else {
        0
    }
}

/// The number of white-space characters (`\s`) in `s` from position `i` on.
pub open spec fn ws_run(s: Seq<char>, i: int) -> int
    decreases s.len() - i,
{
    if 0 <= i < s.len() && is_white_space(s[i]) {
        1 + ws_run(s, i + 1)
    } else {
        0
    }
}

/// The number of characters other than white space in `s` from position `i` on.
pub open spec fn word_run(s: Seq<char>, i: int) -> int
    decreases s.len() - i,
{
    if 0 <= i < s.len() && !is_white_space(s[i]) {
        1 + word_run(s, i + 1)
    } else {
        0
    }
}

pub proof fn lemma_digit_run(s: Seq<char>, i: int)
    requires
        0 <= i <= s.len(),
    ensures
        0 <= digit_run(s, i) <= s.len() - i,
        forall|k: int| i <= k < i + digit_run(s, i) ==> is_decimal_digit(#[trigger] s[k]),
        i + digit_run(s, i) < s.len() ==> !is_decimal_digit(s[i + digit_run(s, i)]),
    decreases s.len() - i,
{
    if i < s.len() && is_decimal_digit(s[i]) {
        lemma_digit_run(s, i + 1);
    }
}

pub proof fn lemma_ws_run(s: Seq<char>, i: int)
    requires
        0 <= i <= s.len(),
    ensures
        0 <= ws_run(s, i) <= s.len() - i,
        forall|k: int| i <= k < i + ws_run(s, i) ==> is_white_space(#[trigger] s[k]),
        i + ws_run(s, i) < s.len() ==> !is_white_space(s[i + ws_run(s, i)]),
    decreases s.len() - i,
{
    if i < s.len() && is_white_space(s[i]) {
        lemma_ws_run(s, i + 1);
    }
}

pub proof fn lemma_word_run(s: Seq<char>, i: int)
    requires
        0 <= i <= s.len(),
    ensures
        0 <= word_run(s, i) <= s.len() - i,
        forall|k: int| i <= k < i + word_run(s, i) ==> !is_white_space(#[trigger] s[k]),
        i + word_run(s, i) < s.len() ==> is_white_space(s[i + word_run(s, i)]),
    decreases s.len() - i,
{
    if i < s.len() && !is_white_space(s[i]) {
        lemma_word_run(s, i + 1);
    }
}

/// The end of the run of decimal digits in `v` that starts at `i`.
pub fn digit_run_end(v: &Vec<char>, i: usize) -> (e: usize)
    requires
        i <= v.len(),
    ensures
        e == i + digit_run(v@, i as int),
        i <= e <= v.len(),
{
    proof {
        lemma_digit_run(v@, i as int);
    }
    let mut e = i;
    while e < v.len() && is_decimal_digit_char(v[e])
        invariant
            i <= e <= i + digit_run(v@, i as int) <= v.len(),
            forall|k: int| i <= k < i + digit_run(v@, i as int) ==> is_decimal_digit(
                #[trigger] v@[k],
            ),
            i + digit_run(v@, i as int) < v.len() ==> !is_decimal_digit(
                v@[i + digit_run(v@, i as int)],
            ),
        decreases v.len() - e,
    {
        e = e + 1;
    }
    e
}

/// The end of the run of white space in `v` that starts at `i`.
pub fn ws_run_end(v: &Vec<char>, i: usize) -> (e: usize)
    requires
        i <= v.len(),
    ensures
        e == i + ws_run(v@, i as int),
        i <= e <= v.len(),
{
    proof {
        lemma_ws_run(v@, i as int);
    }
    let mut e = i;
    while e < v.len() && is_white_space_char(v[e])
        invariant
            i <= e <= i + ws_run(v@, i as int) <= v.len(),
            forall|k: int| i <= k < i + ws_run(v@, i as int) ==> is_white_space(
                #[trigger] v@[k],
            ),
            i + ws_run(v@, i as int) < v.len() ==> !is_white_space(
                v@[i + ws_run(v@, i as int)],
            ),
        decreases v.len() - e,
    {
        e = e + 1;
    }
    e
}

/// The end of the run of non-white-space characters in `v` that starts at `i`.
pub fn word_run_end(v: &Vec<char>, i: usize) -> (e: usize)
    requires
        i <= v.len(),
    ensures
        e == i + word_run(v@, i as int),
        i <= e <= v.len(),
{
    proof {
        lemma_word_run(v@, i as int);
    }
    let mut e = i;
    while e < v.len() && !is_white_space_char(v[e])
        invariant
            i <= e <= i + word_run(v@, i as int) <= v.len(),
            forall|k: int| i <= k < i + word_run(v@, i as int) ==> !is_white_space(
                #[trigger] v@[k],
            ),
            i + word_run(v@, i as int) < v.len() ==> is_white_space(
                v@[i + word_run(v@, i as int)],
            ),
        decreases v.len() - e,
    {
        e = e + 1;
    }
    e
}

/// Whether the literal `p` occurs in `v` at position `i`.
pub fn occurs_at_str(v: &Vec<char>, p: &str, i: usize) -> (r: bool)
    ensures
        r == occurs_at(v@, p@, i as int),
{
    let pv = chars_of(p);
    occurs_at_chars(v, &pv, i)
}

/// Whether `v` spells exactly the literal `p`.
pub fn equals_str(v: &Vec<char>, p: &str) -> (r: bool)
    ensures
        r == (v@ == p@),
{
    let pv = chars_of(p);
    if v.len() != pv.len() {
        return false;
    }
    let r = occurs_at_chars(v, &pv, 0);
    assert(v@.subrange(0, v@.len() as int) =~= v@);
    r
}

/// The spans of the two counts of the summary pattern
/// `(\d+)\s+tests?,\s*(\d+)\s+failures?` when a match of it starts at
/// position `i` of `s`.
///
/// No run of digits or of white space in the pattern can give back a
/// character to what follows it, so a match at `i` takes each run whole.
pub open spec fn summary_at(s: Seq<char>, i: int) -> Option<(int, int, int, int)> {
    let j = i + digit_run(s, i);
    let k = j + ws_run(s, j);
    let m = if occurs_at(s, "tests,"@, k) {
        k + 6
    } else {
        k + 5
    };
    let n = m + ws_run(s, m);
    let p = n + digit_run(s, n);
    let q = p + ws_run(s, p);
    if j > i && k > j && (occurs_at(s, "tests,"@, k) || occurs_at(s, "test,"@, k)) && p > n && q
        > p && occurs_at(s, "failure"@, q) {
        Some((i, j, n, p))
    } else {
        None
    }
}

/// The spans of the two counts in the leftmost match of the summary
/// pattern that starts at `i` or later.
pub open spec fn summary_from(s: Seq<char>, i: int) -> Option<(int, int, int, int)>
    decreases s.len() - i,
{
    if i < 0 || i >= s.len() {
        None
    } else {
        match summary_at(s, i) {
            Some(spans) => Some(spans),
            None => summary_from(s, i + 1),
        }
    }
}

/// The two captured counts of the leftmost match of
/// `(\d+)\s+tests?,\s*(\d+)\s+failures?` in `s`, as text.
pub open spec fn summary_captures(s: Seq<char>) -> Option<(Seq<char>, Seq<char>)> {
    match summary_from(s, 0) {
        Some((a, b, c, d)) => Some((s.subrange(a, b), s.subrange(c, d))),
        None => None,
    }
}

/// Whether `s` holds the test summary of a run.
pub open spec fn is_summary_line(s: Seq<char>) -> bool {
    summary_captures(s) is Some
}

proof fn lemma_summary_at_bounds(s: Seq<char>, i: int)
    requires
        0 <= i < s.len(),
    ensures
        summary_at(s, i) matches Some((a, b, c, d)) ==> a == i && i < b && b <= c && c < d
            <= s.len(),
{
    lemma_digit_run(s, i);
    let j = i + digit_run(s, i);
    lemma_ws_run(s, j);
    let k = j + ws_run(s, j);
    let m = if occurs_at(s, "tests,"@, k) {
        k + 6
    } else {
        k + 5
    };
    if summary_at(s, i) is Some {
        lemma_ws_run(s, m);
        lemma_digit_run(s, m + ws_run(s, m));
    }
}

/// The spans of the counts when a summary match starts at `i`.
fn summary_at_chars(v: &Vec<char>, i: usize) -> (r: Option<(usize, usize, usize, usize)>)
    requires
        i < v.len(),
    ensures
        r matches Some((a, b, c, d)) ==> summary_at(v@, i as int) == Some(
            (a as int, b as int, c as int, d as int),
        ),
        r is None ==> summary_at(v@, i as int) is None,
{
    let j = digit_run_end(v, i);
    if j == i {
        return None;
    }
    let k = ws_run_end(v, j);
    if k == j {
        return None;
    }
    proof {
        reveal_strlit("tests,");
        reveal_strlit("test,");
    }
    let plural = occurs_at_str(v, "tests,", k);
    let m = if plural {
        k + 6
    } else if occurs_at_str(v, "test,", k) {
        k + 5
    } else {
        return None;
    };
    let n = ws_run_end(v, m);
    let p = digit_run_end(v, n);
    if p == n {
        return None;
    }
    let q = ws_run_end(v, p);
    if q == p {
        return None;
    }
    if occurs_at_str(v, "failure", q) {
        Some((i, j, n, p))
    } else {
        None
    }
}

/// The two captured counts of the leftmost match of
/// `(\d+)\s+tests?,\s*(\d+)\s+failures?` in `v`.
pub fn summary_captures_chars(v: &Vec<char>) -> (r: Option<(Vec<char>, Vec<char>)>)
    ensures
        match (r, summary_captures(v@)) {
            (Some((x, y)), Some((xs, ys))) => x@ == xs && y@ == ys,
            (None, None) => true,
            _ => false,
        },
{
    let mut i: usize = 0;
    while i < v.len()
        invariant
            i <= v.len(),
            summary_from(v@, 0) == summary_from(v@, i as int),
        decreases v.len() - i,
    {
        match summary_at_chars(v, i) {
            Some((a, b, c, d)) => {
                proof {
                    lemma_summary_at_bounds(v@, i as int);
                }
                let x = copy_range(v, a, b);
                let y = copy_range(v, c, d);
                return Some((x, y));
            },
            None => {
                i = i + 1;
            },
        }
    }
    None
}

/// Whether `s` begins with `lit` followed by a decimal digit.
pub open spec fn starts_with_then_digit(s: Seq<char>, lit: Seq<char>) -> bool {
    starts_with(s, lit) && lit.len() < s.len() && is_decimal_digit(s[lit.len() as int])
}

/// `^Finished in \d`: the line that reports how long the run took.
pub open spec fn is_finished_line(s: Seq<char>) -> bool {
    starts_with_then_digit(s, "Finished in "@)
}

/// `^Randomized with seed \d+`: the line that reports the random seed.
pub open spec fn is_seed_line(s: Seq<char>) -> bool {
    starts_with_then_digit(s, "Randomized with seed "@)
}

fn starts_with_then_digit_chars(v: &Vec<char>, lit: &str) -> (r: bool)
    ensures
        r == starts_with_then_digit(v@, lit@),
{
    let n = lit.unicode_len();
    starts_with_str(v, lit) && n < v.len() && is_decimal_digit_char(v[n])
}

pub fn is_finished_line_chars(v: &Vec<char>) -> (r: bool)
    ensures
        r == is_finished_line(v@),
{
    starts_with_then_digit_chars(v, "Finished in ")
}

pub fn is_seed_line_chars(v: &Vec<char>) -> (r: bool)
    ensures
        r == is_seed_line(v@),
{
    starts_with_then_digit_chars(v, "Randomized with seed ")
}

/// The ASCII lower case of `c`; other characters stay as they are.
pub open spec fn ascii_lower(c: char) -> char {
    if 'A' <= c && c <= 'Z' {
        (c as int + 32) as char
    } else {
        c
    }
}

/// Whether the lower-case literal `p` occurs at position `i` of `s`, with
/// ASCII letters of `s` compared without regard to case.
pub open spec fn occurs_at_ignoring_case(s: Seq<char>, p: Seq<char>, i: int) -> bool {
    0 <= i && i + p.len() <= s.len() && forall|k: int|
        0 <= k < p.len() ==> ascii_lower(#[trigger] s[i + k]) == p[k]
}

fn ascii_lower_char(c: char) -> (r: char)
    ensures
        r == ascii_lower(c),
{
    if 'A' <= c && c <= 'Z' {
        ((c as u8) + 32u8) as char
    } else {
        c
    }
}

pub fn occurs_at_ignoring_case_chars(v: &Vec<char>, p: &str, i: usize) -> (r: bool)
    ensures
        r == occurs_at_ignoring_case(v@, p@, i as int),
{
    let pv = chars_of(p);
    if i > v.len() || pv.len() > v.len() - i {
        return false;
    }
    let mut k: usize = 0;
    while k < pv.len()
        invariant
            pv@ == p@,
            i + pv.len() <= v.len(),
            k <= pv.len(),
            forall|j: int| 0 <= j < k ==> ascii_lower(#[trigger] v@[i + j]) == pv@[j],
        decreases pv.len() - k,
    {
        if ascii_lower_char(v[i + k]) != pv[k] {
            return false;
        }
        k = k + 1;
    }
    true
}

/// `(?i)^\s*\d+\)\s+(?:failure|error)\s*:`: the header of one failure
/// report, such as `1) failure: test greets the world (MyApp.GreeterTest)`.
pub open spec fn matches_failure_header(s: Seq<char>) -> bool {
    let a = ws_run(s, 0);
    let b = a + digit_run(s, a);
    let c = b + 1 + ws_run(s, b + 1);
    let e = if occurs_at_ignoring_case(s, "failure"@, c) {
        c + 7
    } else {
        c + 5
    };
    let f = e + ws_run(s, e);
    &&& b > a
    &&& b < s.len()
    &&& s[b] == ')'
    &&& c > b + 1
    &&& (occurs_at_ignoring_case(s, "failure"@, c) || occurs_at_ignoring_case(s, "error"@, c))
    &&& f < s.len()
    &&& s[f] == ':'
}

/// Whether `v` is the header of a failure report.
pub fn is_failure_header_chars(v: &Vec<char>) -> (r: bool)
    ensures
        r == matches_failure_header(v@),
{
    let a = ws_run_end(v, 0);
    let b = digit_run_end(v, a);
    proof {
        lemma_digit_run(v@, a as int);
    }
    if b == a || b >= v.len() || v[b] != ')' {
        return false;
    }
    let c = ws_run_end(v, b + 1);
    if c == b + 1 {
        return false;
    }
    proof {
        reveal_strlit("failure");
        reveal_strlit("error");
    }
    let e = if occurs_at_ignoring_case_chars(v, "failure", c) {
        c + 7
    } else if occurs_at_ignoring_case_chars(v, "error", c) {
        c + 5
    } else {
        return false;
    };
    let f = ws_run_end(v, e);
    f < v.len() && v[f] == ':'
}

/// The position of the first `c` in `s`, or the length of `s` when there is none.
pub open spec fn index_of(s: Seq<char>, c: char) -> int
    decreases s.len(),
{
    if s.len() == 0 {
        0
    } else if s[0] == c {
        0
    } else {
        1 + index_of(s.drop_first(), c)
    }
}

/// The applications of the Erlang/Elixir distribution whose frames a
/// stacktrace line can name in parentheses.
pub open spec fn is_runtime_app(app: Seq<char>) -> bool {
    ||| app == "elixir"@
    ||| app == "eex"@
    ||| app == "mix"@
    ||| app == "logger"@
    ||| app == "iex"@
    ||| app == "ex_unit"@
    ||| app == "kernel"@
    ||| app == "stdlib"@
    ||| app == "compiler"@
}

/// Whether a stacktrace line points into a dependency or into the runtime
/// rather than into the project: it names a `/deps/` or `lib/ex_unit/`
/// path, or it begins with a runtime application in parentheses, such as
/// `(elixir) lib/enum.ex:123: Enum.map/2`.
pub open spec fn matches_deps_backtrace(line: Seq<char>) -> bool {
    let t = trim(line);
    if contains(t, "/deps/"@) || contains(t, "lib/ex_unit/"@) {
        true
    } else if t.len() > 0 && t[0] == '(' {
        let rest = t.drop_first();
        let end = index_of(rest, ')');
        end < rest.len() && is_runtime_app(rest.take(end))
    } else {
        false
    }
}

fn is_runtime_app_chars(app: &Vec<char>) -> (r: bool)
    ensures
        r == is_runtime_app(app@),
{
    equals_str(app, "elixir") || equals_str(app, "eex") || equals_str(app, "mix") || equals_str(
        app,
        "logger",
    ) || equals_str(app, "iex") || equals_str(app, "ex_unit") || equals_str(app, "kernel")
        || equals_str(app, "stdlib") || equals_str(app, "compiler")
}

/// Whether a stacktrace line points into a dependency or into the runtime.
pub fn is_deps_backtrace_chars(line: &Vec<char>) -> (r: bool)
    ensures
        r == matches_deps_backtrace(line@),
{
    let t = trim_chars(line);
    if contains_str(&t, "/deps/") || contains_str(&t, "lib/ex_unit/") {
        return true;
    }
    if t.len() > 0 && t[0] == '(' {
        let rest = copy_range(&t, 1, t.len());
        assert(rest@ =~= t@.drop_first());
        let mut end: usize = 0;
        assert(rest@.skip(0) =~= rest@);
        while end < rest.len() && rest[end] != ')'
            invariant
                end <= rest.len(),
                index_of(rest@, ')') == end + index_of(rest@.skip(end as int), ')'),
            decreases rest.len() - end,
        {
            assert(rest@.skip(end as int).drop_first() =~= rest@.skip(end + 1));
            end = end + 1;
        }
        assert(index_of(rest@, ')') == end);
        if end < rest.len() {
            let app = copy_range(&rest, 0, end);
            assert(app@ =~= rest@.take(end as int));
            return is_runtime_app_chars(&app);
        }
        return false;
    }
    false
}


/// Whether `line` is the header of a failure report, such as
/// `1) failure: test greets the world (MyApp.GreeterTest)`.
pub fn is_failure_header(line: &str) -> (r: bool)
    ensures
        r == matches_failure_header(line@),
{
    let v = chars_of(line);
    is_failure_header_chars(&v)
}

/// Whether a stacktrace line points into a dependency or into the
/// Erlang/Elixir runtime rather than into the project.
pub fn is_deps_backtrace(line: &str) -> (r: bool)
    ensures
        r == matches_deps_backtrace(line@),
{
    let v = chars_of(line);
    is_deps_backtrace_chars(&v)
}

} // verus!
