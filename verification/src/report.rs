//! Compaction of failure reports and the text of the final summary.
use vstd::prelude::*;
use crate::digits::{decimal, decimal_chars, parse_usize, parse_usize_chars};
use crate::patterns::{summary_captures, summary_captures_chars};
use crate::text::{
    append_chars,
    append_str,
    chars_of,
    contains,
    contains_str,
    copy_range,
    join,
    join_chars,
    lines,
    split_lines,
    starts_with,
    starts_with_str,
    string_from_chars,
    trim,
    trim_chars,
    views,
};

verus! {

/// `s` cut to at most `max` characters: a longer text keeps its first
/// `max - 3` characters followed by `...`, or is `...` alone when `max` is
/// below 3.
pub open spec fn truncated(s: Seq<char>, max: nat) -> Seq<char> {
    if s.len() <= max {
        s
    } else if max < 3 {
        "..."@
    } else {
        s.take(max - 3) + "..."@
    }
}

fn truncate_chars(s: &Vec<char>, max: usize) -> (r: Vec<char>)
    ensures
        r@ == truncated(s@, max as nat),
{
    if s.len() <= max {
        copy_range(s, 0, s.len())
    } else if max < 3 {
        chars_of("...")
    } else {
        let mut r = copy_range(s, 0, max - 3);
        append_str(&mut r, "...");
        r
    }
}

/// `s` cut to at most `max_len` characters; a cut text ends in `...`.
pub fn truncate(s: &str, max_len: usize) -> (r: String)
    ensures
        r@ == truncated(s@, max_len as nat),
{
    let v = chars_of(s);
    string_from_chars(&truncate_chars(&v, max_len))
}

/// The lines of `ls` that hold more than white space, in order.
pub open spec fn keep_non_blank(ls: Seq<Seq<char>>) -> Seq<Seq<char>>
    decreases ls.len(),
{
    if ls.len() == 0 {
        seq![]
    } else if trim(ls.last()).len() > 0 {
        keep_non_blank(ls.drop_last()).push(ls.last())
    } else {
        keep_non_blank(ls.drop_last())
    }
}

/// What a failure report keeps while it is compacted: the lines shown so
/// far and the last line that names a test or library file.
pub struct Compaction {
    pub kept: Seq<Seq<char>>,
    pub location: Seq<char>,
}

/// Whether a line names a file under `test/` or `lib/`, or a test script.
pub open spec fn is_location(t: Seq<char>) -> bool {
    starts_with(t, "test/"@) || starts_with(t, "lib/"@) || contains(t, "_test.exs"@)
}

/// One line of a failure report taken into the compaction: the first line
/// is kept trimmed; a `stacktrace:` line is dropped; a line that names a
/// test or library file becomes the location; any other line is kept,
/// cut to 120 characters, while fewer than four lines are kept.
pub open spec fn compact_step(c: Compaction, line: Seq<char>, first: bool) -> Compaction {
    let t = trim(line);
    if first {
        Compaction { kept: c.kept.push(t), location: c.location }
    } else if starts_with(t, "stacktrace:"@) {
        c
    } else if is_location(t) {
        Compaction { kept: c.kept, location: t }
    } else if c.kept.len() < 4 {
        Compaction { kept: c.kept.push(truncated(t, 120)), location: c.location }
    } else {
        c
    }
}

/// The compaction of the lines `ls`, taken in order.
pub open spec fn compact_lines(ls: Seq<Seq<char>>) -> Compaction
    decreases ls.len(),
{
    if ls.len() == 0 {
        Compaction { kept: seq![], location: seq![] }
    } else {
        compact_step(compact_lines(ls.drop_last()), ls.last(), ls.len() == 1)
    }
}

/// The parts of a compacted failure report: its non-blank lines reduced to
/// the header, at most three further lines and the location.
pub open spec fn compacted_parts(block: Seq<char>) -> Seq<Seq<char>> {
    let ls = keep_non_blank(lines(block));
    if ls.len() == 0 {
        seq![]
    } else {
        let c = compact_lines(ls);
        if c.location.len() > 0 {
            c.kept.push(c.location)
        } else {
            c.kept
        }
    }
}

/// A failure report compacted: its parts, one per line, indented.
pub open spec fn compacted(block: Seq<char>) -> Seq<char> {
    join(compacted_parts(block), "\n   "@)
}

fn is_blank_chars(v: &Vec<char>) -> (r: bool)
    ensures
        r == (trim(v@).len() == 0),
{
    let t = trim_chars(v);
    t.len() == 0
}

fn keep_non_blank_chars(ls: &Vec<Vec<char>>) -> (r: Vec<Vec<char>>)
    ensures
        views(r@) == keep_non_blank(views(ls@)),
{
    let mut r: Vec<Vec<char>> = Vec::new();
    let mut i: usize = 0;
    assert(views(ls@).take(0) =~= Seq::<Seq<char>>::empty());
    assert(views(r@) =~= Seq::<Seq<char>>::empty());
    while i < ls.len()
        invariant
            i <= ls.len(),
            views(r@) == keep_non_blank(views(ls@).take(i as int)),
        decreases ls.len() - i,
    {
        let ghost before = views(r@);
        assert(views(ls@).take(i + 1).drop_last() =~= views(ls@).take(i as int));
        assert(views(ls@).take(i + 1).last() == ls@[i as int]@);
        if !is_blank_chars(&ls[i]) {
            let line = copy_range(&ls[i], 0, ls[i].len());
            assert(line@ =~= ls@[i as int]@);
            r.push(line);
            assert(views(r@) =~= before.push(ls@[i as int]@));
        }
        i = i + 1;
    }
    assert(views(ls@).take(ls.len() as int) =~= views(ls@));
    r
}

fn is_location_chars(t: &Vec<char>) -> (r: bool)
    ensures
        r == is_location(t@),
{
    starts_with_str(t, "test/") || starts_with_str(t, "lib/") || contains_str(t, "_test.exs")
}

/// A failure report compacted: the header, at most three further lines
/// cut to 120 characters, and the file location, joined by indented line
/// breaks.
pub fn compact_failure_chars(block: &Vec<char>) -> (r: Vec<char>)
    ensures
        r@ == compacted(block@),
{
    let all = split_lines(block);
    let ls = keep_non_blank_chars(&all);
    if ls.len() == 0 {
        return Vec::new();
    }
    let mut kept: Vec<Vec<char>> = Vec::new();
    let mut location: Vec<char> = Vec::new();
    let mut i: usize = 0;
    assert(views(ls@).take(0) =~= Seq::<Seq<char>>::empty());
    assert(views(kept@) =~= Seq::<Seq<char>>::empty());
    while i < ls.len()
        invariant
            i <= ls.len(),
            views(kept@) == compact_lines(views(ls@).take(i as int)).kept,
            location@ == compact_lines(views(ls@).take(i as int)).location,
        decreases ls.len() - i,
    {
        let ghost before = views(kept@);
        assert(views(ls@).take(i + 1).drop_last() =~= views(ls@).take(i as int));
        assert(views(ls@).take(i + 1).last() == ls@[i as int]@);
        let t = trim_chars(&ls[i]);
        if i == 0 {
            kept.push(t);
            assert(views(kept@) =~= before.push(t@));
        } else if starts_with_str(&t, "stacktrace:") {
        } else if is_location_chars(&t) {
            location = t;
        } else if kept.len() < 4 {
            let cut = truncate_chars(&t, 120);
            kept.push(cut);
            assert(views(kept@) =~= before.push(cut@));
        }
        i = i + 1;
    }
    assert(views(ls@).take(ls.len() as int) =~= views(ls@));
    if location.len() > 0 {
        let ghost before = views(kept@);
        kept.push(location);
        assert(views(kept@) =~= before.push(location@));
    }
    join_chars(&kept, "\n   ")
}

/// A failure report compacted for the summary.
pub fn compact_failure(block: &str) -> (r: String)
    ensures
        r@ == compacted(block@),
{
    let v = chars_of(block);
    string_from_chars(&compact_failure_chars(&v))
}


/// The last `n` lines of `s`, joined by line breaks.
pub open spec fn last_lines(s: Seq<char>, n: nat) -> Seq<char> {
    let ls = lines(s);
    let start = if ls.len() > n {
        ls.len() - n
    } else {
        0
    };
    join(ls.skip(start), "\n"@)
}

/// The last `n` lines of `v`, joined by line breaks: what is shown of
/// output whose format is not recognized.
pub fn fallback_tail_chars(v: &Vec<char>, n: usize) -> (r: Vec<char>)
    ensures
        r@ == last_lines(v@, n as nat),
{
    let ls = split_lines(v);
    let start = if ls.len() > n {
        ls.len() - n
    } else {
        0
    };
    let mut tail: Vec<Vec<char>> = Vec::new();
    let mut i = start;
    while i < ls.len()
        invariant
            start <= i <= ls.len(),
            views(tail@) == views(ls@).subrange(start as int, i as int),
        decreases ls.len() - i,
    {
        let ghost before = views(tail@);
        let line = copy_range(&ls[i], 0, ls[i].len());
        assert(line@ =~= ls@[i as int]@);
        tail.push(line);
        assert(views(tail@) =~= before.push(ls@[i as int]@));
        assert(views(tail@) =~= views(ls@).subrange(start as int, i + 1));
        i = i + 1;
    }
    assert(views(ls@).subrange(start as int, ls.len() as int) =~= views(ls@).skip(start as int));
    join_chars(&tail, "\n")
}

/// The last `n` lines of `output`, joined by line breaks.
pub fn fallback_tail(output: &str, n: usize) -> (r: String)
    ensures
        r@ == last_lines(output@, n as nat),
{
    let v = chars_of(output);
    string_from_chars(&fallback_tail_chars(&v, n))
}

/// A count read from the summary line, 0 where it cannot be read.
pub open spec fn count_or_zero(s: Seq<char>) -> usize {
    match parse_usize(s) {
        Some(v) => v,
        None => 0,
    }
}

/// The number of tests and the number of failures on a summary line,
/// `(0, 0)` when the line is not one.
pub open spec fn summary_counts(s: Seq<char>) -> (usize, usize) {
    match summary_captures(s) {
        Some((tests, failures)) => (count_or_zero(tests), count_or_zero(failures)),
        None => (0, 0),
    }
}

fn count_or_zero_chars(v: &Vec<char>) -> (r: usize)
    ensures
        r == count_or_zero(v@),
{
    match parse_usize_chars(v) {
        Some(n) => n,
        None => 0,
    }
}

fn summary_counts_chars(v: &Vec<char>) -> (r: (usize, usize))
    ensures
        r == summary_counts(v@),
{
    match summary_captures_chars(v) {
        Some((tests, failures)) => (count_or_zero_chars(&tests), count_or_zero_chars(&failures)),
        None => (0, 0),
    }
}

/// The number of tests and of failures that a summary line such as
/// `6 tests, 1 failure` reports; `(0, 0)` when it reports none.
pub fn parse_summary(summary: &str) -> (r: (usize, usize))
    ensures
        r == summary_counts(summary@),
{
    let v = chars_of(summary);
    summary_counts_chars(&v)
}

/// The rule under the heading of a report with failures.
pub open spec fn rule() -> Seq<char> {
    "═══════════════════════════════════════"@
}

/// The view of an optional string.
pub open spec fn opt_view(d: Option<String>) -> Option<Seq<char>> {
    match d {
        Some(s) => Some(s@),
        None => None,
    }
}

/// ` (0.05s)` after the counts when a run time is shown.
pub open spec fn duration_suffix(duration: Option<Seq<char>>) -> Seq<char> {
    match duration {
        Some(d) => " ("@ + d + ")"@,
        None => seq![],
    }
}

/// The most failures that a report lists.
pub open spec fn max_listed() -> nat {
    5
}

/// The entry of the `i`th failure (counted from 0) in the list.
pub open spec fn failure_entry(failures: Seq<Seq<char>>, i: int) -> Seq<char> {
    decimal((i + 1) as nat) + ". ❌ "@ + compacted(failures[i]) + "\n"@ + (if i < 4 {
        "\n"@
    } else {
        seq![]
    })
}

/// The entries of the first `k` failures.
pub open spec fn failure_entries(failures: Seq<Seq<char>>, k: int) -> Seq<char>
    decreases k,
{
    if k <= 0 {
        seq![]
    } else {
        failure_entries(failures, k - 1) + failure_entry(failures, k - 1)
    }
}

/// The number of failures that a report lists.
pub open spec fn listed_count(n: int) -> int {
    if n > max_listed() {
        max_listed() as int
    } else {
        n
    }
}

/// The note on failures left out of the list.
pub open spec fn overflow_note(n: int) -> Seq<char> {
    if n > max_listed() {
        "\n... +"@ + decimal((n - max_listed()) as nat) + " more failures\n"@
    } else {
        seq![]
    }
}

/// The heading of a report with failures: counts, run time and a rule.
pub open spec fn failure_heading(tests: usize, fails: usize, duration: Option<Seq<char>>) -> Seq<
    char,
> {
    "mix test: "@ + decimal(tests as nat) + " tests, "@ + decimal(fails as nat) + " failures"@
        + duration_suffix(duration) + "\n"@ + rule() + "\n"@
}

/// The summary of a run: `summary_line` is the line that reported the
/// counts (empty when there was none), `failures` the failure reports in
/// order, `clean` the whole output, and `duration` the run time as it is
/// to be shown, if the output reports one.
///
/// Without a summary line the output is not in a recognized format and its
/// last five lines are shown (`mix test: No output` when it is blank). A
/// run without failures is one line that starts with `✓ mix test:`.
/// Otherwise the counts head a list of at most five compacted failures,
/// numbered from 1, with a note on how many more there were.
pub open spec fn report(
    summary_line: Seq<char>,
    failures: Seq<Seq<char>>,
    clean: Seq<char>,
    duration: Option<Seq<char>>,
) -> Seq<char> {
    let (tests, fails) = summary_counts(summary_line);
    if summary_line.len() == 0 {
        if trim(clean).len() == 0 {
            "mix test: No output"@
        } else {
            last_lines(clean, max_listed())
        }
    } else if fails == 0 {
        "✓ mix test: "@ + decimal(tests as nat) + " tests, 0 failures"@ + duration_suffix(duration)
    } else if failures.len() == 0 {
        trim(failure_heading(tests, fails, duration))
    } else {
        trim(
            failure_heading(tests, fails, duration) + "\nFailures:\n"@ + failure_entries(
                failures,
                listed_count(failures.len() as int),
            ) + overflow_note(failures.len() as int),
        )
    }
}

fn duration_suffix_chars(duration: &Option<String>) -> (r: Vec<char>)
    ensures
        r@ == duration_suffix(opt_view(*duration)),
{
    match duration {
        Some(d) => {
            let d = chars_of(d.as_str());
            let mut r = chars_of(" (");
            append_chars(&mut r, &d);
            append_str(&mut r, ")");
            r
        },
        None => Vec::new(),
    }
}

/// The summary of a run, as `report` states it.
pub fn report_chars(
    summary_line: &Vec<char>,
    failures: &Vec<Vec<char>>,
    clean: &Vec<char>,
    duration: &Option<String>,
) -> (r: Vec<char>)
    ensures
        r@ == report(summary_line@, views(failures@), clean@, opt_view(*duration)),
{
    let (tests, fails) = summary_counts_chars(summary_line);
    if summary_line.len() == 0 {
        if trim_chars(clean).len() == 0 {
            return chars_of("mix test: No output");
        }
        return fallback_tail_chars(clean, 5);
    }
    let suffix = duration_suffix_chars(duration);
    if fails == 0 {
        let mut r = chars_of("✓ mix test: ");
        append_chars(&mut r, &decimal_chars(tests));
        append_str(&mut r, " tests, 0 failures");
        append_chars(&mut r, &suffix);
        return r;
    }
    let mut r = chars_of("mix test: ");
    append_chars(&mut r, &decimal_chars(tests));
    append_str(&mut r, " tests, ");
    append_chars(&mut r, &decimal_chars(fails));
    append_str(&mut r, " failures");
    append_chars(&mut r, &suffix);
    append_str(&mut r, "\n");
    append_str(&mut r, "═══════════════════════════════════════");
    append_str(&mut r, "\n");
    assert(r@ =~= failure_heading(tests, fails, opt_view(*duration)));
    if failures.len() == 0 {
        return trim_chars(&r);
    }
    let ghost heading = r@;
    append_str(&mut r, "\nFailures:\n");
    let shown: usize = if failures.len() > 5 {
        5
    } else {
        failures.len()
    };
    let mut i: usize = 0;
    while i < shown
        invariant
            i <= shown <= failures.len(),
            shown == listed_count(failures.len() as int),
            r@ == heading + "\nFailures:\n"@ + failure_entries(views(failures@), i as int),
        decreases shown - i,
    {
        let ghost before = r@;
        append_chars(&mut r, &decimal_chars(i + 1));
        append_str(&mut r, ". ❌ ");
        append_chars(&mut r, &compact_failure_chars(&failures[i]));
        append_str(&mut r, "\n");
        if i < 4 {
            append_str(&mut r, "\n");
        }
        assert(views(failures@)[i as int] == failures@[i as int]@);
        assert(r@ =~= before + failure_entry(views(failures@), i as int));
        i = i + 1;
    }
    if failures.len() > 5 {
        append_str(&mut r, "\n... +");
        append_chars(&mut r, &decimal_chars(failures.len() - 5));
        append_str(&mut r, " more failures\n");
    }
    assert(r@ =~= heading + "\nFailures:\n"@ + failure_entries(views(failures@), shown as int)
        + overflow_note(failures.len() as int));
    trim_chars(&r)
}


/// The views of a slice of strings.
pub open spec fn string_views(v: Seq<String>) -> Seq<Seq<char>> {
    v.map_values(|s: String| s@)
}

/// The summary of a run from its summary line, its failure reports, its
/// whole output and its run time as shown, as `report` states it.
pub fn build_mix_test_summary(
    summary_line: &str,
    failures: &[String],
    clean: &str,
    duration: Option<String>,
) -> (r: String)
    ensures
        r@ == report(summary_line@, string_views(failures@), clean@, opt_view(duration)),
{
    let mut blocks: Vec<Vec<char>> = Vec::new();
    let mut i: usize = 0;
    while i < failures.len()
        invariant
            i <= failures.len(),
            views(blocks@) == string_views(failures@).take(i as int),
        decreases failures.len() - i,
    {
        let ghost before = views(blocks@);
        let b = chars_of(failures[i].as_str());
        blocks.push(b);
        assert(views(blocks@) =~= before.push(failures@[i as int]@));
        assert(views(blocks@) =~= string_views(failures@).take(i + 1));
        i = i + 1;
    }
    assert(string_views(failures@).take(failures.len() as int) =~= string_views(failures@));
    let s = chars_of(summary_line);
    let c = chars_of(clean);
    string_from_chars(&report_chars(&s, &blocks, &c, &duration))
}

} // verus!
