//! Properties of the filter as a whole, stated over the specifications
//! that the executable functions meet and proved from them.
use vstd::prelude::*;
use crate::ansi::{
    csi_len,
    ansi_stripped,
    is_csi_param,
    lemma_param_run_bounds,
    param_run,
    strip_ansi_from,
};
use crate::filter::{
    filtered,
    final_failures,
    flushed,
    initial_scan,
    scan,
    scan_step,
    Phase,
    ScanState,
};
use crate::digits::{
    all_ascii_digits,
    decimal,
    digit_char,
    digit_value,
    digits_value,
    is_ascii_digit,
    is_decimal_digit,
    parse_usize,
};
use crate::patterns::{
    ascii_lower,
    digit_run,
    word_run,
    occurs_at_ignoring_case,
    index_of,
    is_runtime_app,
    is_finished_line,
    is_seed_line,
    is_summary_line,
    matches_deps_backtrace,
    matches_failure_header,
    summary_at,
    summary_from,
    ws_run,
};
use crate::report::summary_counts;
use crate::duration::duration_word_in_lines;
use crate::facts::{
    count_of,
    free_of,
    lemma_compacted_free,
    lemma_count_concat,
    lemma_count_free,
    lemma_free_concat,
    lemma_compact_lines_free,
    lemma_join_free,
    lemma_keep_non_blank_free,
    lemma_lines_free,
    lemma_trim_free,
    lemma_trim_count,
    lemma_trim_end_shape,
};
use crate::report::{
    compact_step,
    compact_lines,
    compacted,
    compacted_parts,
    is_location,
    Compaction,
    keep_non_blank,
    duration_suffix,
    failure_entries,
    failure_entry,
    failure_heading,
    last_lines,
    listed_count,
    max_listed,
    overflow_note,
    report,
    rule,
    truncated,
};
use crate::text::{
    contains,
    is_blank,
    is_white_space,
    join,
    lines,
    lines_from,
    occurs_at,
    starts_with,
    strip_cr,
    trim,
    trim_end,
    trim_start,
};

verus! {

/// Text that is white space only trims to nothing, and only such text does.
pub proof fn lemma_trim_empty_iff_blank(s: Seq<char>)
    ensures
        (trim(s).len() == 0) == is_blank(s),
{
    lemma_trim_start_empty_iff_blank(s);
    lemma_trim_end_empty_iff_empty(trim_start(s));
}

proof fn lemma_trim_start_empty_iff_blank(s: Seq<char>)
    ensures
        (trim_start(s).len() == 0) == is_blank(s),
        trim_start(s).len() > 0 ==> !is_white_space(trim_start(s)[0]),
    decreases s.len(),
{
    if s.len() > 0 && is_white_space(s[0]) {
        lemma_trim_start_empty_iff_blank(s.drop_first());
        if is_blank(s.drop_first()) {
            assert forall|i: int| 0 <= i < s.len() implies is_white_space(#[trigger] s[i]) by {
                if i > 0 {
                    assert(s[i] == s.drop_first()[i - 1]);
                }
            }
        }
        if is_blank(s) {
            assert forall|i: int| 0 <= i < s.drop_first().len() implies is_white_space(
                #[trigger] s.drop_first()[i],
            ) by {
                assert(s.drop_first()[i] == s[i + 1]);
            }
        }
    } else if s.len() > 0 {
        assert(!is_white_space(s[0]));
    }
}

proof fn lemma_trim_end_empty_iff_empty(s: Seq<char>)
    requires
        s.len() > 0 ==> !is_white_space(s[0]),
    ensures
        (trim_end(s).len() == 0) == (s.len() == 0),
    decreases s.len(),
{
    if s.len() > 0 && is_white_space(s.last()) {
        if s.len() > 1 {
            assert(s.drop_last()[0] == s[0]);
        }
        lemma_trim_end_empty_iff_empty(s.drop_last());
    }
}

/// Output that is blank once its colour codes are removed is reported as
/// `mix test: No output`.
pub proof fn law_blank_output_has_no_output_report(output: Seq<char>, duration: Option<Seq<char>>)
    requires
        is_blank(ansi_stripped(output)),
    ensures
        filtered(output, duration) == "mix test: No output"@,
{
    lemma_trim_empty_iff_blank(ansi_stripped(output));
}

/// Text without an escape character has no colour code to remove.
pub proof fn law_plain_text_unchanged_by_ansi_removal(s: Seq<char>)
    requires
        forall|i: int| 0 <= i < s.len() ==> s[i] != '\u{1b}',
    ensures
        ansi_stripped(s) == s,
{
    lemma_strip_plain_from(s, 0);
    assert(s.skip(0) =~= s);
}

proof fn lemma_strip_plain_from(s: Seq<char>, i: int)
    requires
        0 <= i <= s.len(),
        forall|k: int| 0 <= k < s.len() ==> s[k] != '\u{1b}',
    ensures
        strip_ansi_from(s, i) == s.skip(i),
    decreases s.len() - i,
{
    if i < s.len() {
        assert(csi_len(s, i) == 0);
        lemma_strip_plain_from(s, i + 1);
        assert(seq![s[i]] + s.skip(i + 1) =~= s.skip(i));
    } else {
        assert(s.skip(i) =~= Seq::<char>::empty());
    }
}

proof fn lemma_param_run_shift(pre: Seq<char>, y: Seq<char>, j: int)
    requires
        0 <= j,
    ensures
        param_run(pre + y, pre.len() + j) == param_run(y, j),
    decreases y.len() - j,
{
    if j < y.len() {
        assert((pre + y)[pre.len() + j] == y[j]);
        lemma_param_run_shift(pre, y, j + 1);
    }
}

proof fn lemma_strip_shift(pre: Seq<char>, y: Seq<char>, j: int)
    requires
        0 <= j <= y.len(),
    ensures
        strip_ansi_from(pre + y, pre.len() + j) == strip_ansi_from(y, j),
    decreases y.len() - j,
{
    let s = pre + y;
    let i = pre.len() + j;
    if j < y.len() {
        assert(s[i] == y[j]);
        if j + 1 < y.len() {
            assert(s[i + 1] == y[j + 1]);
        }
        lemma_param_run_shift(pre, y, j + 2);
        let r = param_run(y, j + 2);
        if j + 2 <= y.len() {
            lemma_param_run_bounds(y, j + 2);
        }
        if j + 2 + r < y.len() {
            assert(s[i + 2 + r] == y[j + 2 + r]);
        }
        assert(csi_len(s, i) == csi_len(y, j));
        if csi_len(y, j) > 0 {
            lemma_strip_shift(pre, y, j + csi_len(y, j));
        } else {
            lemma_strip_shift(pre, y, j + 1);
        }
    }
}

proof fn lemma_strip_plain_front(x: Seq<char>, z: Seq<char>, i: int)
    requires
        0 <= i <= x.len(),
        forall|k: int| 0 <= k < x.len() ==> x[k] != '\u{1b}',
    ensures
        strip_ansi_from(x + z, i) == x.skip(i) + strip_ansi_from(x + z, x.len() as int),
    decreases x.len() - i,
{
    if i < x.len() {
        assert((x + z)[i] == x[i]);
        assert(csi_len(x + z, i) == 0);
        lemma_strip_plain_front(x, z, i + 1);
        assert(seq![x[i]] + x.skip(i + 1) =~= x.skip(i));
    } else {
        assert(x.skip(i) =~= Seq::<char>::empty());
    }
}

/// Colour codes are removed from the output before it is read: text without
/// an escape character, then a control sequence `ESC [`, parameters made of
/// digits and `;`, and a letter, then anything, reads as the text followed
/// by the rest with its own codes removed. So `\x1b[31m1) failure\x1b[0m:`
/// reads as `1) failure:`.
pub proof fn law_colour_codes_removed(x: Seq<char>, params: Seq<char>, letter: char, y: Seq<char>)
    requires
        forall|k: int| 0 <= k < x.len() ==> x[k] != '\u{1b}',
        forall|k: int|
            0 <= k < params.len() ==> ('0' <= #[trigger] params[k] && params[k] <= '9')
                || params[k] == ';',
        ('a' <= letter && letter <= 'z') || ('A' <= letter && letter <= 'Z'),
    ensures
        ansi_stripped(x + seq!['\u{1b}', '['] + params + seq![letter] + y) == x + ansi_stripped(y),
{
    let code = seq!['\u{1b}', '['] + params + seq![letter];
    let z = code + y;
    let s = x + z;
    assert(x + seq!['\u{1b}', '['] + params + seq![letter] + y =~= s);
    lemma_strip_plain_front(x, z, 0);
    assert(x.skip(0) =~= x);
    let i = x.len() as int;
    let p = params.len() as int;
    assert(s[i] == '\u{1b}');
    assert(s[i + 1] == '[');
    assert forall|k: int| i + 2 <= k < i + 2 + p implies is_csi_param(#[trigger] s[k]) by {
        assert(s[k] == params[k - i - 2]);
    }
    assert(s[i + 2 + p] == letter);
    assert(!is_csi_param(letter));
    lemma_param_run_exact(s, i + 2, i + 2 + p);
    assert(csi_len(s, i) == p + 3);
    assert(x + code + y =~= s);
    lemma_strip_shift(x + code, y, 0);
    assert((x + code).len() == i + p + 3);
}

proof fn lemma_param_run_exact(s: Seq<char>, i: int, j: int)
    requires
        0 <= i <= j < s.len(),
        forall|k: int| i <= k < j ==> is_csi_param(#[trigger] s[k]),
        !is_csi_param(s[j]),
    ensures
        param_run(s, i) == j - i,
    decreases j - i,
{
    if i < j {
        lemma_param_run_exact(s, i + 1, j);
    }
}

proof fn lemma_summary_closes_reports(st: ScanState, ls: Seq<Seq<char>>)
    requires
        st.phase == Phase::Summary ==> st.current.len() == 0,
    ensures
        scan(st, ls).phase == Phase::Summary ==> scan(st, ls).current.len() == 0,
    decreases ls.len(),
{
    if ls.len() > 0 {
        match scan_step(st, ls[0]) {
            Some(next) => {
                lemma_summary_closes_reports(next, ls.drop_first());
            },
            None => {},
        }
    }
}

/// When the scan has read the summary line, no failure report is open.
pub proof fn law_no_report_open_past_summary(ls: Seq<Seq<char>>)
    ensures
        scan(initial_scan(), ls).phase == Phase::Summary ==> scan(
            initial_scan(),
            ls,
        ).current.len() == 0,
{
    lemma_summary_closes_reports(initial_scan(), ls);
}

/// Once the summary line has been read (which leaves no report open), no
/// later line adds, changes or completes a failure report, and the scan
/// stays past the summary.
pub proof fn law_summary_freezes_failures(st: ScanState, ls: Seq<Seq<char>>)
    requires
        st.phase == Phase::Summary,
        st.current.len() == 0,
    ensures
        scan(st, ls).phase == Phase::Summary,
        scan(st, ls).failures == st.failures,
        scan(st, ls).current == st.current,
    decreases ls.len(),
{
    if ls.len() > 0 {
        match scan_step(st, ls[0]) {
            Some(next) => {
                law_summary_freezes_failures(next, ls.drop_first());
            },
            None => {},
        }
    }
}

/// A `Randomized with seed` line changes nothing, wherever it stands.
pub proof fn law_seed_lines_ignored(
    st: ScanState,
    before: Seq<Seq<char>>,
    seed: Seq<char>,
    after: Seq<Seq<char>>,
)
    requires
        is_seed_line(trim(seed)),
    ensures
        scan(st, before + seq![seed] + after) == scan(st, before + after),
    decreases before.len(),
{
    let with_seed = before + seq![seed] + after;
    let without = before + after;
    if before.len() == 0 {
        assert(with_seed[0] == seed);
        assert(with_seed.drop_first() =~= after);
        assert(without =~= after);
    } else {
        assert(with_seed[0] == before[0]);
        assert(without[0] == before[0]);
        assert(with_seed.drop_first() =~= before.drop_first() + seq![seed] + after);
        assert(without.drop_first() =~= before.drop_first() + after);
        match scan_step(st, before[0]) {
            Some(next) => {
                law_seed_lines_ignored(next, before.drop_first(), seed, after);
            },
            None => {},
        }
    }
}

proof fn lemma_no_summary_line_keeps_summary(st: ScanState, ls: Seq<Seq<char>>)
    requires
        forall|i: int| 0 <= i < ls.len() ==> !is_summary_line(trim(#[trigger] ls[i])),
    ensures
        scan(st, ls).summary == st.summary,
    decreases ls.len(),
{
    if ls.len() > 0 {
        assert(!is_summary_line(trim(ls[0])));
        match scan_step(st, ls[0]) {
            Some(next) => {
                assert forall|i: int| 0 <= i < ls.drop_first().len() implies !is_summary_line(
                    trim(#[trigger] ls.drop_first()[i]),
                ) by {
                    assert(ls.drop_first()[i] == ls[i + 1]);
                }
                lemma_no_summary_line_keeps_summary(next, ls.drop_first());
            },
            None => {},
        }
    }
}

/// Output with no summary line is not in a recognized format: the filter
/// falls back to its last five lines.
pub proof fn law_unrecognized_output_falls_back_to_tail(
    output: Seq<char>,
    duration: Option<Seq<char>>,
)
    requires
        !is_blank(ansi_stripped(output)),
        forall|i: int|
            0 <= i < lines(ansi_stripped(output)).len() ==> !is_summary_line(
                trim(#[trigger] lines(ansi_stripped(output))[i]),
            ),
    ensures
        filtered(output, duration) == last_lines(ansi_stripped(output), max_listed()),
{
    let clean = ansi_stripped(output);
    lemma_trim_empty_iff_blank(clean);
    lemma_no_summary_line_keeps_summary(initial_scan(), lines(clean));
}

/// Output with no summary line is not in a recognized format: what is
/// shown of it is its last five lines as they are (all of them where there
/// are fewer), joined by line breaks.
pub proof fn law_unrecognized_output_shows_last_five_lines(
    output: Seq<char>,
    duration: Option<Seq<char>>,
)
    requires
        !is_blank(ansi_stripped(output)),
        forall|i: int|
            0 <= i < lines(ansi_stripped(output)).len() ==> !is_summary_line(
                trim(#[trigger] lines(ansi_stripped(output))[i]),
            ),
    ensures
        lines(ansi_stripped(output)).len() >= 5 ==> filtered(output, duration) == join(
            lines(ansi_stripped(output)).skip(lines(ansi_stripped(output)).len() - 5),
            "\n"@,
        ),
        lines(ansi_stripped(output)).len() < 5 ==> filtered(output, duration) == join(
            lines(ansi_stripped(output)),
            "\n"@,
        ),
{
    law_unrecognized_output_falls_back_to_tail(output, duration);
    let ls = lines(ansi_stripped(output));
    if ls.len() <= 5 {
        assert(ls.skip(0) =~= ls);
    }
}

/// A compacted failure report keeps at most four lines besides its
/// location, and every kept line after the header is at most 120
/// characters long.
pub proof fn law_compaction_is_bounded(ls: Seq<Seq<char>>)
    ensures
        compact_lines(ls).kept.len() <= 4,
        forall|k: int|
            1 <= k < compact_lines(ls).kept.len() ==> (#[trigger] compact_lines(ls).kept[k]).len()
                <= 120,
    decreases ls.len(),
{
    if ls.len() > 0 {
        law_compaction_is_bounded(ls.drop_last());
        let prev = compact_lines(ls.drop_last());
        law_truncation_bounded(trim(ls.last()), 120);
        if ls.len() == 1 {
            assert(prev.kept.len() == 0);
        } else {
            assert(prev.kept.len() > 0) by {
                lemma_compaction_starts_with_header(ls.drop_last());
            }
        }
    }
}

proof fn lemma_compaction_starts_with_header(ls: Seq<Seq<char>>)
    requires
        ls.len() > 0,
    ensures
        compact_lines(ls).kept.len() > 0,
    decreases ls.len(),
{
    if ls.len() > 1 {
        lemma_compaction_starts_with_header(ls.drop_last());
    }
}

/// A detail line of a compacted report longer than 120 characters is cut
/// to its first 117 followed by `...`, 120 in all; a shorter one is shown
/// whole.
pub proof fn law_long_lines_cut_at_120(s: Seq<char>)
    ensures
        s.len() <= 120 ==> truncated(s, 120) == s,
        s.len() > 120 ==> truncated(s, 120) == s.take(117) + "..."@,
        s.len() > 120 ==> truncated(s, 120).len() == 120,
{
    reveal_strlit("...");
}

/// A line cut for a report is never longer than the limit, or than the
/// three dots where the limit is below three; a line within the limit is
/// kept whole.
pub proof fn law_truncation_bounded(s: Seq<char>, max: nat)
    ensures
        truncated(s, max).len() <= if max < 3 {
            3
        } else {
            max
        },
        s.len() <= max ==> truncated(s, max) == s,
{
    reveal_strlit("...");
}


proof fn lemma_digit_char(d: nat)
    requires
        d < 10,
    ensures
        is_ascii_digit(digit_char(d)),
        is_decimal_digit(digit_char(d)),
        !is_white_space(digit_char(d)),
        digit_value(digit_char(d)) == d,
        digit_char(d) != '+',
{
}

/// The decimal spelling of a number is a run of ASCII digits that reads
/// back as the number.
pub proof fn lemma_decimal_reads_back(n: nat)
    ensures
        decimal(n).len() >= 1,
        all_ascii_digits(decimal(n)),
        digits_value(decimal(n)) == n,
    decreases n,
{
    if n < 10 {
        lemma_digit_char(n);
        assert(decimal(n).drop_last() =~= Seq::<char>::empty());
        assert(digits_value(decimal(n)) == digits_value(decimal(n).drop_last()) * 10
            + digit_value(decimal(n).last()));
    } else {
        lemma_decimal_reads_back(n / 10);
        lemma_digit_char(n % 10);
        let d = decimal(n);
        assert(d.drop_last() =~= decimal(n / 10));
        assert(d.last() == digit_char(n % 10));
        assert(n == (n / 10) * 10 + n % 10);
        assert(digits_value(d) == digits_value(d.drop_last()) * 10 + digit_value(d.last()));
        assert forall|i: int| 0 <= i < d.len() implies is_ascii_digit(#[trigger] d[i]) by {
            if i < d.len() - 1 {
                assert(d[i] == decimal(n / 10)[i]);
            }
        }
    }
}

proof fn lemma_digit_run_exact(s: Seq<char>, i: int, j: int)
    requires
        0 <= i <= j <= s.len(),
        forall|k: int| i <= k < j ==> is_decimal_digit(#[trigger] s[k]),
        j < s.len() ==> !is_decimal_digit(s[j]),
    ensures
        digit_run(s, i) == j - i,
    decreases j - i,
{
    if i < j {
        lemma_digit_run_exact(s, i + 1, j);
    }
}

proof fn lemma_ws_run_exact(s: Seq<char>, i: int, j: int)
    requires
        0 <= i <= j <= s.len(),
        forall|k: int| i <= k < j ==> is_white_space(#[trigger] s[k]),
        j < s.len() ==> !is_white_space(s[j]),
    ensures
        ws_run(s, i) == j - i,
    decreases j - i,
{
    if i < j {
        lemma_ws_run_exact(s, i + 1, j);
    }
}

proof fn lemma_summary_from_skips(s: Seq<char>, i: int, l: int)
    requires
        0 <= i <= l < s.len(),
        forall|k: int| i <= k < l ==> !is_decimal_digit(#[trigger] s[k]),
    ensures
        summary_from(s, i) == summary_from(s, l),
    decreases l - i,
{
    if i < l {
        assert(digit_run(s, i) == 0);
        assert(summary_at(s, i) is None);
        lemma_summary_from_skips(s, i + 1, l);
    }
}

/// The word after the count of tests on a summary line: `test` for one,
/// `tests` otherwise, as ExUnit writes it.
pub open spec fn tests_word(plural: bool) -> Seq<char> {
    if plural {
        "tests"@
    } else {
        "test"@
    }
}

/// The word after the count of failures on a summary line.
pub open spec fn failures_word(plural: bool) -> Seq<char> {
    if plural {
        "failures"@
    } else {
        "failure"@
    }
}

/// `n` spaces.
pub open spec fn spaces(n: nat) -> Seq<char> {
    Seq::new(n, |i: int| ' ')
}

/// The counts of a summary line read back in each of its four forms,
/// `N test, M failure`, `N test, M failures`, `N tests, M failure` and
/// `N tests, M failures`, with any spacing that ExUnit's summary admits (at
/// least one space between a count and its word, any number after the
/// comma), whatever follows them and whatever precedes them without a
/// decimal digit; such a line is taken as the summary of the run. Which
/// word is singular does not depend on the other: `1 test, 0 failures`
/// reads back as one test and no failure.
#[verifier::rlimit(40)]
#[verifier::spinoff_prover]
pub proof fn law_counts_read_back_in_each_form(
    prefix: Seq<char>,
    tests: usize,
    plural_tests: bool,
    failures: usize,
    plural_failures: bool,
    gaps: (nat, nat, nat),
    rest: Seq<char>,
)
    requires
        forall|k: int| 0 <= k < prefix.len() ==> !is_decimal_digit(#[trigger] prefix[k]),
        gaps.0 >= 1,
        gaps.2 >= 1,
    ensures
        is_summary_line(prefix + decimal(tests as nat) + spaces(gaps.0) + tests_word(plural_tests)
            + ","@ + spaces(gaps.1) + decimal(failures as nat) + spaces(gaps.2) + failures_word(
            plural_failures,
        ) + rest),
        summary_counts(prefix + decimal(tests as nat) + spaces(gaps.0) + tests_word(plural_tests)
            + ","@ + spaces(gaps.1) + decimal(failures as nat) + spaces(gaps.2) + failures_word(
            plural_failures,
        ) + rest) == (tests, failures),
{
    reveal_strlit("tests");
    reveal_strlit("test");
    reveal_strlit("failures");
    reveal_strlit("failure");
    reveal_strlit(",");
    reveal_strlit("tests,");
    reveal_strlit("test,");
    let d1 = decimal(tests as nat);
    let d2 = decimal(failures as nat);
    let tw = tests_word(plural_tests);
    let fw = failures_word(plural_failures);
    let (g1, g2, g3) = gaps;
    lemma_decimal_reads_back(tests as nat);
    lemma_decimal_reads_back(failures as nat);
    let s = prefix + d1 + spaces(g1) + tw + ","@ + spaces(g2) + d2 + spaces(g3) + fw + rest;
    let l = prefix.len() as int;
    let a = l + d1.len() as int;
    let k = a + g1;
    let t = tw.len() as int;
    let m = k + t + 1;
    let n = m + g2;
    let b = d2.len() as int;
    let p = n + b;
    let q = p + g3;
    assert(t == 5 || t == 4);
    assert(fw.len() >= 7);
    assert(s.len() == q + fw.len() + rest.len());
    assert forall|i: int| 0 <= i < l implies !is_decimal_digit(#[trigger] s[i]) by {
        assert(s[i] == prefix[i]);
    }
    assert forall|i: int| l <= i < a implies is_decimal_digit(#[trigger] s[i]) by {
        assert(s[i] == d1[i - l]);
        assert(is_ascii_digit(d1[i - l]));
    }
    assert forall|i: int| a <= i < k implies is_white_space(#[trigger] s[i]) by {
        assert(s[i] == spaces(g1)[i - a]);
    }
    assert forall|i: int| 0 <= i < t implies s[k + i] == #[trigger] tw[i] by {}
    assert(s[k + t] == ',');
    assert forall|i: int| m <= i < n implies is_white_space(#[trigger] s[i]) by {
        assert(s[i] == spaces(g2)[i - m]);
    }
    assert forall|i: int| n <= i < p implies is_decimal_digit(#[trigger] s[i]) by {
        assert(s[i] == d2[i - n]);
        assert(is_ascii_digit(d2[i - n]));
    }
    assert forall|i: int| p <= i < q implies is_white_space(#[trigger] s[i]) by {
        assert(s[i] == spaces(g3)[i - p]);
    }
    assert forall|i: int| 0 <= i < 7 implies s[q + i] == #[trigger] fw[i] by {}
    assert(s[a] == ' ');
    assert(s[k] == 't');
    assert(s[n] == d2[0]);
    assert(is_ascii_digit(d2[0]));
    assert(s[p] == ' ');
    assert(s[q] == 'f');
    lemma_summary_from_skips(s, 0, l);
    lemma_digit_run_exact(s, l, a);
    lemma_ws_run_exact(s, a, k);
    if plural_tests {
        assert(s.subrange(k, k + 6) =~= "tests,"@);
    } else {
        assert(s.subrange(k, k + 6) != "tests,"@) by {
            assert(s.subrange(k, k + 6)[4] == ',');
        }
        assert(s.subrange(k, k + 5) =~= "test,"@);
    }
    lemma_ws_run_exact(s, m, n);
    lemma_digit_run_exact(s, n, p);
    lemma_ws_run_exact(s, p, q);
    assert(s.subrange(q, q + 7) =~= "failure"@);
    assert(summary_at(s, l) == Some((l, a, n, p)));
    assert(summary_from(s, l) == Some((l, a, n, p)));
    assert(s.subrange(l, a) =~= d1);
    assert(s.subrange(n, p) =~= d2);
    assert(d1[0] != '+') by {
        assert(is_ascii_digit(d1[0]));
    }
    assert(d2[0] != '+');
    assert(parse_usize(d1) == Some(tests));
    assert(parse_usize(d2) == Some(failures));
}

/// The counts written as `N tests, M failures` read back as `N` and `M`,
/// whatever follows them and whatever precedes them without a decimal
/// digit: a report's own heading restates the counts it shows.
pub proof fn law_counts_read_back_after_prefix(
    prefix: Seq<char>,
    tests: usize,
    failures: usize,
    rest: Seq<char>,
)
    requires
        forall|k: int| 0 <= k < prefix.len() ==> !is_decimal_digit(#[trigger] prefix[k]),
    ensures
        summary_counts(prefix + decimal(tests as nat) + " tests, "@ + decimal(failures as nat)
            + " failures"@ + rest) == (tests, failures),
{
    reveal_strlit(" tests, ");
    reveal_strlit(" failures");
    reveal_strlit("tests");
    reveal_strlit("failures");
    reveal_strlit(",");
    law_counts_read_back_in_each_form(prefix, tests, true, failures, true, (1, 1, 1), rest);
    let d1 = decimal(tests as nat);
    let d2 = decimal(failures as nat);
    assert(spaces(1) + "tests"@ + ","@ + spaces(1) =~= " tests, "@);
    assert(spaces(1) + "failures"@ =~= " failures"@);
    assert(prefix + d1 + spaces(1) + tests_word(true) + ","@ + spaces(1) + d2 + spaces(1)
        + failures_word(true) + rest =~= prefix + d1 + " tests, "@ + d2 + " failures"@ + rest);
}

/// The counts that a report prints in its heading read back as the same
/// counts: `N tests, M failures` is a summary line of `N` tests and `M`
/// failures, and so is `mix test: N tests, M failures`.
pub proof fn law_summary_counts_read_back(tests: usize, failures: usize)
    ensures
        summary_counts(decimal(tests as nat) + " tests, "@ + decimal(failures as nat)
            + " failures"@) == (tests, failures),
        summary_counts("mix test: "@ + decimal(tests as nat) + " tests, "@ + decimal(
            failures as nat,
        ) + " failures"@) == (tests, failures),
{
    let e = Seq::<char>::empty();
    law_counts_read_back_after_prefix(e, tests, failures, e);
    assert(e + decimal(tests as nat) + " tests, "@ + decimal(failures as nat) + " failures"@ + e
        =~= decimal(tests as nat) + " tests, "@ + decimal(failures as nat) + " failures"@);
    reveal_strlit("mix test: ");
    law_counts_read_back_after_prefix("mix test: "@, tests, failures, e);
    assert("mix test: "@ + decimal(tests as nat) + " tests, "@ + decimal(failures as nat)
        + " failures"@ + e =~= "mix test: "@ + decimal(tests as nat) + " tests, "@ + decimal(
        failures as nat,
    ) + " failures"@);
}


/// Trimming twice trims no more than trimming once.
pub proof fn lemma_trim_idempotent(s: Seq<char>)
    ensures
        trim(trim(s)) == trim(s),
{
    let x = trim_start(s);
    let e = trim_end(x);
    lemma_trim_start_empty_iff_blank(s);
    lemma_trim_end_shape(x);
    if e.len() > 0 {
        assert(e[0] == x[0]);
        assert(trim_start(e) == e);
        assert(trim_end(e) == e);
    } else {
        assert(trim_start(e) == e);
        assert(trim_end(e) == e);
    }
}

/// The lines of a failure report as the scan collects them: the first is
/// a failure header, none of them is blank, and none after the first is a
/// stacktrace line that points into a dependency or into the runtime.
pub open spec fn report_lines_clean(c: Seq<Seq<char>>) -> bool {
    &&& c.len() > 0
    &&& matches_failure_header(c[0])
    &&& forall|k: int| 0 <= k < c.len() ==> !is_blank(#[trigger] c[k])
    &&& forall|k: int| 1 <= k < c.len() ==> !matches_deps_backtrace(#[trigger] c[k])
}

/// A failure report made of such lines, one per line.
pub open spec fn is_clean_report(f: Seq<char>) -> bool {
    exists|c: Seq<Seq<char>>| #[trigger] report_lines_clean(c) && c.len() > 0 && f == join(c, "\n"@)
}

spec fn scan_clean(st: ScanState) -> bool {
    &&& (st.current.len() == 0 || report_lines_clean(st.current))
    &&& forall|i: int| 0 <= i < st.failures.len() ==> is_clean_report(#[trigger] st.failures[i])
}

proof fn lemma_flushed_clean(st: ScanState)
    requires
        scan_clean(st),
    ensures
        forall|i: int| 0 <= i < flushed(st).len() ==> is_clean_report(#[trigger] flushed(st)[i]),
{
    if st.current.len() > 0 {
        assert(is_clean_report(join(st.current, "\n"@))) by {
            assert(report_lines_clean(st.current));
        }
        assert forall|i: int| 0 <= i < flushed(st).len() implies is_clean_report(
            #[trigger] flushed(st)[i],
        ) by {
            if i < st.failures.len() {
                assert(flushed(st)[i] == st.failures[i]);
            }
        }
    }
}

proof fn lemma_trimmed_not_blank(line: Seq<char>)
    requires
        trim(line).len() > 0,
    ensures
        !is_blank(line),
        !is_blank(trim(line)),
{
    lemma_trim_empty_iff_blank(line);
    lemma_trim_idempotent(line);
    lemma_trim_empty_iff_blank(trim(line));
}

proof fn lemma_step_keeps_clean(st: ScanState, line: Seq<char>)
    requires
        scan_clean(st),
    ensures
        scan_step(st, line) matches Some(next) ==> scan_clean(next),
{
    let t = trim(line);
    lemma_flushed_clean(st);
    lemma_trim_idempotent(line);
    if t.len() > 0 {
        lemma_trimmed_not_blank(line);
    }
    if matches_failure_header(t) {
        assert(t.len() > 0);
        assert(report_lines_clean(seq![t]));
    }
    if !is_seed_line(t) && !is_summary_line(t) && st.phase == Phase::Failures
        && !matches_failure_header(t) && !(t.len() == 0 && st.current.len() > 0) && t.len() > 0
        && st.current.len() > 0 && !matches_deps_backtrace(t) {
        assert(matches_deps_backtrace(t) == matches_deps_backtrace(line));
        let c = st.current.push(line);
        assert forall|k: int| 0 <= k < c.len() implies !is_blank(#[trigger] c[k]) by {
            if k < st.current.len() {
                assert(c[k] == st.current[k]);
            }
        }
        assert forall|k: int| 1 <= k < c.len() implies !matches_deps_backtrace(#[trigger] c[k]) by {
            if k < st.current.len() {
                assert(c[k] == st.current[k]);
            }
        }
    }
}

proof fn lemma_scan_keeps_clean(st: ScanState, ls: Seq<Seq<char>>)
    requires
        scan_clean(st),
    ensures
        scan_clean(scan(st, ls)),
    decreases ls.len(),
{
    if ls.len() > 0 {
        lemma_step_keeps_clean(st, ls[0]);
        match scan_step(st, ls[0]) {
            Some(next) => {
                lemma_scan_keeps_clean(next, ls.drop_first());
            },
            None => {},
        }
    }
}

/// Every failure report that the scan collects begins with a failure
/// header and consists of non-blank lines, and no line after its header
/// points into a dependency or into the runtime: such stacktrace lines are
/// left out, and lines outside a report never form one.
pub proof fn law_reports_leave_out_dependency_frames(ls: Seq<Seq<char>>)
    ensures
        forall|i: int|
            0 <= i < final_failures(scan(initial_scan(), ls)).len() ==> is_clean_report(
                #[trigger] final_failures(scan(initial_scan(), ls))[i],
            ),
{
    assert(scan_clean(initial_scan()));
    lemma_scan_keeps_clean(initial_scan(), ls);
    lemma_flushed_clean(scan(initial_scan(), ls));
}

proof fn lemma_index_of_after(x: Seq<char>, r: Seq<char>, c: char)
    requires
        forall|k: int| 0 <= k < x.len() ==> x[k] != c,
        r.len() > 0,
        r[0] == c,
    ensures
        index_of(x + r, c) == x.len(),
    decreases x.len(),
{
    if x.len() > 0 {
        assert((x + r).drop_first() =~= x.drop_first() + r);
        lemma_index_of_after(x.drop_first(), r, c);
    } else {
        assert(x + r =~= r);
    }
}

proof fn lemma_runtime_frame(line: Seq<char>, app: Seq<char>)
    requires
        is_runtime_app(app),
        forall|k: int| 0 <= k < app.len() ==> app[k] != ')',
        starts_with(trim(line), seq!['('] + app + seq![')']),
    ensures
        matches_deps_backtrace(line),
{
    let t = trim(line);
    let p = seq!['('] + app + seq![')'];
    if !(contains(t, "/deps/"@) || contains(t, "lib/ex_unit/"@)) {
        assert(t[0] == p[0]);
        let rest = t.drop_first();
        let tail = t.skip(p.len() as int);
        assert(rest =~= app + (seq![')'] + tail)) by {
            assert(t =~= t.take(p.len() as int) + tail);
        }
        lemma_index_of_after(app, seq![')'] + tail, ')');
        assert(rest.take(app.len() as int) =~= app);
    }
}

/// A stacktrace line that begins, once trimmed, with one of the Erlang and
/// Elixir applications in parentheses, such as
/// `(mix) lib/mix/task.ex:331: Mix.Task.run/2`, is a frame of the runtime,
/// one of the dependency frames that the scan passes over.
pub proof fn law_runtime_frames_are_left_out(line: Seq<char>)
    ensures
        starts_with(trim(line), "(elixir)"@) ==> matches_deps_backtrace(line),
        starts_with(trim(line), "(eex)"@) ==> matches_deps_backtrace(line),
        starts_with(trim(line), "(mix)"@) ==> matches_deps_backtrace(line),
        starts_with(trim(line), "(logger)"@) ==> matches_deps_backtrace(line),
        starts_with(trim(line), "(iex)"@) ==> matches_deps_backtrace(line),
        starts_with(trim(line), "(ex_unit)"@) ==> matches_deps_backtrace(line),
        starts_with(trim(line), "(kernel)"@) ==> matches_deps_backtrace(line),
        starts_with(trim(line), "(stdlib)"@) ==> matches_deps_backtrace(line),
        starts_with(trim(line), "(compiler)"@) ==> matches_deps_backtrace(line),
{
    reveal_strlit("(elixir)");
    reveal_strlit("(eex)");
    reveal_strlit("(mix)");
    reveal_strlit("(logger)");
    reveal_strlit("(iex)");
    reveal_strlit("(ex_unit)");
    reveal_strlit("(kernel)");
    reveal_strlit("(stdlib)");
    reveal_strlit("(compiler)");
    reveal_strlit("elixir");
    reveal_strlit("eex");
    reveal_strlit("mix");
    reveal_strlit("logger");
    reveal_strlit("iex");
    reveal_strlit("ex_unit");
    reveal_strlit("kernel");
    reveal_strlit("stdlib");
    reveal_strlit("compiler");
    let o = seq!['('];
    let c = seq![')'];
    if starts_with(trim(line), "(elixir)"@) {
        assert("(elixir)"@ =~= o + "elixir"@ + c);
        lemma_runtime_frame(line, "elixir"@);
    }
    if starts_with(trim(line), "(eex)"@) {
        assert("(eex)"@ =~= o + "eex"@ + c);
        lemma_runtime_frame(line, "eex"@);
    }
    if starts_with(trim(line), "(mix)"@) {
        assert("(mix)"@ =~= o + "mix"@ + c);
        lemma_runtime_frame(line, "mix"@);
    }
    if starts_with(trim(line), "(logger)"@) {
        assert("(logger)"@ =~= o + "logger"@ + c);
        lemma_runtime_frame(line, "logger"@);
    }
    if starts_with(trim(line), "(iex)"@) {
        assert("(iex)"@ =~= o + "iex"@ + c);
        lemma_runtime_frame(line, "iex"@);
    }
    if starts_with(trim(line), "(ex_unit)"@) {
        assert("(ex_unit)"@ =~= o + "ex_unit"@ + c);
        lemma_runtime_frame(line, "ex_unit"@);
    }
    if starts_with(trim(line), "(kernel)"@) {
        assert("(kernel)"@ =~= o + "kernel"@ + c);
        lemma_runtime_frame(line, "kernel"@);
    }
    if starts_with(trim(line), "(stdlib)"@) {
        assert("(stdlib)"@ =~= o + "stdlib"@ + c);
        lemma_runtime_frame(line, "stdlib"@);
    }
    if starts_with(trim(line), "(compiler)"@) {
        assert("(compiler)"@ =~= o + "compiler"@ + c);
        lemma_runtime_frame(line, "compiler"@);
    }
}

/// A stacktrace line that names a path into a dependency (`/deps/`) or into
/// ExUnit itself (`lib/ex_unit/`) is a dependency frame as well. A line
/// that names neither is one only when it begins, once trimmed, with one of
/// the Erlang and Elixir applications in parentheses: a line that begins
/// otherwise, or with another application in parentheses, such as
/// `(my_app) lib/my_app/users.ex:12: MyApp.Users.list/0`, is kept in the
/// failure report.
pub proof fn law_project_frames_are_kept(line: Seq<char>, app: Seq<char>)
    ensures
        contains(trim(line), "/deps/"@) ==> matches_deps_backtrace(line),
        contains(trim(line), "lib/ex_unit/"@) ==> matches_deps_backtrace(line),
        !contains(trim(line), "/deps/"@) && !contains(trim(line), "lib/ex_unit/"@) && (trim(
            line,
        ).len() == 0 || trim(line)[0] != '(') ==> !matches_deps_backtrace(line),
        !contains(trim(line), "/deps/"@) && !contains(trim(line), "lib/ex_unit/"@) && starts_with(
            trim(line),
            seq!['('] + app + seq![')'],
        ) && (forall|i: int| 0 <= i < app.len() ==> app[i] != ')') && app != "elixir"@ && app
            != "eex"@ && app != "mix"@ && app != "logger"@ && app != "iex"@ && app != "ex_unit"@
            && app != "kernel"@ && app != "stdlib"@ && app != "compiler"@
            ==> !matches_deps_backtrace(line),
{
    let t = trim(line);
    let p = seq!['('] + app + seq![')'];
    if !contains(t, "/deps/"@) && !contains(t, "lib/ex_unit/"@) && starts_with(t, p) && (forall|
        i: int,
    | 0 <= i < app.len() ==> app[i] != ')') {
        assert(t[0] == p[0]);
        let rest = t.drop_first();
        let tail = t.skip(p.len() as int);
        assert(rest =~= app + (seq![')'] + tail)) by {
            assert(t =~= t.take(p.len() as int) + tail);
        }
        lemma_index_of_after(app, seq![')'] + tail, ')');
        assert(rest.take(app.len() as int) =~= app);
    }
}

/// Within the failures, a stacktrace line into a dependency or the runtime
/// that is not itself a seed, summary or header line is passed over: the
/// scan goes on with the report being read unchanged.
pub proof fn law_dependency_frames_passed_over(st: ScanState, line: Seq<char>)
    requires
        st.phase == Phase::Failures,
        matches_deps_backtrace(line),
        !is_seed_line(trim(line)),
        !is_summary_line(trim(line)),
        !matches_failure_header(trim(line)),
    ensures
        scan_step(st, line) == Some(st),
{
    reveal_strlit("/deps/");
    reveal_strlit("lib/ex_unit/");
    let t = trim(line);
    lemma_trim_idempotent(line);
    assert(matches_deps_backtrace(t) == matches_deps_backtrace(line));
    assert(t.len() > 0);
}


proof fn lemma_decimal_free(n: nat, c: char)
    requires
        !is_ascii_digit(c),
    ensures
        free_of(decimal(n), c),
{
    lemma_decimal_reads_back(n);
}

proof fn lemma_duration_suffix_free(duration: Option<Seq<char>>, c: char)
    requires
        c != ' ' && c != '(' && c != ')',
        duration matches Some(d) ==> free_of(d, c),
    ensures
        free_of(duration_suffix(duration), c),
{
    reveal_strlit(" (");
    reveal_strlit(")");
    match duration {
        Some(d) => {
            lemma_free_concat(" ("@, d, c);
            lemma_free_concat(" ("@ + d, ")"@, c);
        },
        None => {},
    }
}

/// A run without failures is reported on a single line: the check mark,
/// the number of tests, no failures, and the run time where one is shown
/// (itself a single line).
pub proof fn law_passing_run_is_one_line(
    summary_line: Seq<char>,
    failures: Seq<Seq<char>>,
    clean: Seq<char>,
    duration: Option<Seq<char>>,
)
    requires
        summary_line.len() > 0,
        summary_counts(summary_line).1 == 0,
        duration matches Some(d) ==> free_of(d, '\n'),
    ensures
        report(summary_line, failures, clean, duration) == "✓ mix test: "@ + decimal(
            summary_counts(summary_line).0 as nat,
        ) + " tests, 0 failures"@ + duration_suffix(duration),
        free_of(report(summary_line, failures, clean, duration), '\n'),
{
    reveal_strlit("✓ mix test: ");
    reveal_strlit(" tests, 0 failures");
    let head = "✓ mix test: "@;
    let n = decimal(summary_counts(summary_line).0 as nat);
    let tail = " tests, 0 failures"@;
    lemma_decimal_free(summary_counts(summary_line).0 as nat, '\n');
    lemma_duration_suffix_free(duration, '\n');
    lemma_free_concat(head, n, '\n');
    lemma_free_concat(head + n, tail, '\n');
    lemma_free_concat(head + n + tail, duration_suffix(duration), '\n');
}

proof fn lemma_entries_count(failures: Seq<Seq<char>>, k: int)
    requires
        0 <= k <= failures.len(),
        forall|j: int| 0 <= j < failures.len() ==> free_of(#[trigger] failures[j], '❌'),
    ensures
        count_of(failure_entries(failures, k), '❌') == k,
    decreases k,
{
    let x = '❌';
    if k <= 0 {
        lemma_count_free(Seq::<char>::empty(), x);
    } else {
        lemma_entries_count(failures, k - 1);
        let i = k - 1;
        reveal_strlit(". ❌ ");
        reveal_strlit("\n");
        let num = decimal((i + 1) as nat);
        let mark = ". ❌ "@;
        let body = compacted(failures[i]);
        let nl = "\n"@;
        let extra: Seq<char> = if i < 4 {
            "\n"@
        } else {
            seq![]
        };
        lemma_decimal_free((i + 1) as nat, x);
        lemma_count_free(num, x);
        lemma_compacted_free(failures[i], x);
        lemma_count_free(body, x);
        lemma_count_free(nl, x);
        lemma_count_free(extra, x);
        assert(count_of(mark, x) == 1) by {
            assert(mark =~= seq!['.', ' '] + seq!['❌', ' ']);
            lemma_count_free(seq!['.', ' '], x);
            lemma_count_concat(seq!['.', ' '], seq!['❌', ' '], x);
            assert(seq!['❌', ' '].drop_last() =~= seq!['❌']);
            assert(seq!['❌'].drop_last() =~= Seq::<char>::empty());
            assert(count_of(Seq::<char>::empty(), x) == 0);
            assert(seq!['❌'].last() == x);
            assert(count_of(seq!['❌'], x) == 1);
            assert(seq!['❌', ' '].last() == ' ');
            assert(count_of(seq!['❌', ' '], x) == 1);
        }
        lemma_count_concat(num, mark, x);
        lemma_count_concat(num + mark, body, x);
        lemma_count_concat(num + mark + body, nl, x);
        lemma_count_concat(num + mark + body + nl, extra, x);
        assert(failure_entry(failures, i) == num + mark + body + nl + extra);
        lemma_count_concat(failure_entries(failures, k - 1), failure_entry(failures, i), x);
    }
}

/// A report lists at most five failures: with the failure reports and the
/// shown run time free of the mark `❌`, the report holds the mark exactly
/// once per listed failure, for the first five at most.
#[verifier::rlimit(40)]
#[verifier::spinoff_prover]
pub proof fn law_at_most_five_failures_listed(
    summary_line: Seq<char>,
    failures: Seq<Seq<char>>,
    clean: Seq<char>,
    duration: Option<Seq<char>>,
)
    requires
        summary_line.len() > 0,
        summary_counts(summary_line).1 > 0,
        duration matches Some(d) ==> free_of(d, '❌'),
        forall|j: int| 0 <= j < failures.len() ==> free_of(#[trigger] failures[j], '❌'),
    ensures
        count_of(report(summary_line, failures, clean, duration), '❌') == listed_count(
            failures.len() as int,
        ),
{
    let x = '❌';
    let (tests, fails) = summary_counts(summary_line);
    reveal_strlit("mix test: ");
    reveal_strlit(" tests, ");
    reveal_strlit(" failures");
    reveal_strlit("\n");
    reveal_strlit("\nFailures:\n");
    reveal_strlit("\n... +");
    reveal_strlit(" more failures\n");
    reveal_strlit("═══════════════════════════════════════");
    lemma_decimal_free(tests as nat, x);
    lemma_decimal_free(fails as nat, x);
    lemma_duration_suffix_free(duration, x);
    let h1 = "mix test: "@ + decimal(tests as nat);
    lemma_free_concat("mix test: "@, decimal(tests as nat), x);
    lemma_free_concat(h1, " tests, "@, x);
    lemma_free_concat(h1 + " tests, "@, decimal(fails as nat), x);
    let h2 = h1 + " tests, "@ + decimal(fails as nat);
    lemma_free_concat(h2, " failures"@, x);
    lemma_free_concat(h2 + " failures"@, duration_suffix(duration), x);
    let h3 = h2 + " failures"@ + duration_suffix(duration);
    lemma_free_concat(h3, "\n"@, x);
    lemma_free_concat(h3 + "\n"@, rule(), x);
    lemma_free_concat(h3 + "\n"@ + rule(), "\n"@, x);
    let heading = failure_heading(tests, fails, duration);
    assert(heading == h3 + "\n"@ + rule() + "\n"@);
    lemma_count_free(heading, x);
    if failures.len() == 0 {
        lemma_trim_count(heading, x);
    } else {
        let k = listed_count(failures.len() as int);
        let note = overflow_note(failures.len() as int);
        lemma_entries_count(failures, k);
        if failures.len() > max_listed() {
            lemma_decimal_free((failures.len() - max_listed()) as nat, x);
            lemma_free_concat("\n... +"@, decimal((failures.len() - max_listed()) as nat), x);
            lemma_free_concat(
                "\n... +"@ + decimal((failures.len() - max_listed()) as nat),
                " more failures\n"@,
                x,
            );
        } else {
            assert(free_of(note, x));
        }
        lemma_count_free(note, x);
        lemma_count_free("\nFailures:\n"@, x);
        let all = heading + "\nFailures:\n"@ + failure_entries(failures, k) + note;
        lemma_count_concat(heading, "\nFailures:\n"@, x);
        lemma_count_concat(heading + "\nFailures:\n"@, failure_entries(failures, k), x);
        lemma_count_concat(heading + "\nFailures:\n"@ + failure_entries(failures, k), note, x);
        lemma_trim_count(all, x);
    }
}


/// The number of failure headers among the lines `ls` that come before the
/// first summary line, seed lines passed over.
pub open spec fn headers_before_summary(ls: Seq<Seq<char>>) -> nat
    decreases ls.len(),
{
    if ls.len() == 0 {
        0
    } else {
        let t = trim(ls[0]);
        if is_seed_line(t) {
            headers_before_summary(ls.drop_first())
        } else if is_summary_line(t) {
            0
        } else if matches_failure_header(t) {
            1 + headers_before_summary(ls.drop_first())
        } else {
            headers_before_summary(ls.drop_first())
        }
    }
}

proof fn lemma_finished_line_is_no_header(t: Seq<char>)
    requires
        is_finished_line(t),
    ensures
        !matches_failure_header(t),
{
    reveal_strlit("Finished in ");
    assert(t.take(12)[0] == t[0]);
    assert(t[0] == 'F');
    assert(ws_run(t, 0) == 0);
    assert(digit_run(t, 0) == 0);
}

proof fn lemma_reports_counted(st: ScanState, ls: Seq<Seq<char>>)
    requires
        st.phase != Phase::Summary,
    ensures
        flushed(scan(st, ls)).len() == flushed(st).len() + headers_before_summary(ls),
    decreases ls.len(),
{
    if ls.len() > 0 {
        let t = trim(ls[0]);
        if is_finished_line(t) {
            lemma_finished_line_is_no_header(t);
        }
        match scan_step(st, ls[0]) {
            Some(next) => {
                if next.phase == Phase::Summary {
                    law_summary_freezes_failures(next, ls.drop_first());
                } else {
                    lemma_reports_counted(next, ls.drop_first());
                }
            },
            None => {},
        }
    }
}

/// The scan collects one failure report per failure header that comes
/// before the summary line, and no other.
pub proof fn law_one_report_per_failure_header(ls: Seq<Seq<char>>)
    ensures
        final_failures(scan(initial_scan(), ls)).len() == headers_before_summary(ls),
{
    lemma_reports_counted(initial_scan(), ls);
}

spec fn scan_free(st: ScanState, c: char) -> bool {
    &&& forall|k: int| 0 <= k < st.current.len() ==> free_of(#[trigger] st.current[k], c)
    &&& forall|k: int| 0 <= k < st.failures.len() ==> free_of(#[trigger] st.failures[k], c)
}

proof fn lemma_flushed_free(st: ScanState, c: char)
    requires
        scan_free(st, c),
        c != '\n',
    ensures
        forall|k: int| 0 <= k < flushed(st).len() ==> free_of(#[trigger] flushed(st)[k], c),
{
    reveal_strlit("\n");
    if st.current.len() > 0 {
        lemma_join_free(st.current, "\n"@, c);
        assert forall|k: int| 0 <= k < flushed(st).len() implies free_of(
            #[trigger] flushed(st)[k],
            c,
        ) by {
            if k < st.failures.len() {
                assert(flushed(st)[k] == st.failures[k]);
            }
        }
    }
}

proof fn lemma_scan_keeps_free(st: ScanState, ls: Seq<Seq<char>>, c: char)
    requires
        scan_free(st, c),
        c != '\n',
        forall|j: int| 0 <= j < ls.len() ==> free_of(#[trigger] ls[j], c),
    ensures
        scan_free(scan(st, ls), c),
    decreases ls.len(),
{
    if ls.len() > 0 {
        let line = ls[0];
        assert(free_of(line, c));
        lemma_trim_free(line, c);
        lemma_flushed_free(st, c);
        match scan_step(st, line) {
            Some(next) => {
                assert(scan_free(next, c)) by {
                    assert forall|k: int| 0 <= k < next.current.len() implies free_of(
                        #[trigger] next.current[k],
                        c,
                    ) by {
                        if k < st.current.len() {
                            assert(next.current[k] == st.current[k] || next.current.len() == 1);
                        }
                    }
                }
                assert forall|j: int| 0 <= j < ls.drop_first().len() implies free_of(
                    #[trigger] ls.drop_first()[j],
                    c,
                ) by {
                    assert(ls.drop_first()[j] == ls[j + 1]);
                }
                lemma_scan_keeps_free(next, ls.drop_first(), c);
            },
            None => {},
        }
    }
}

/// A run with failures lists one entry for each failure header before the
/// summary line, for the first five at most: with the output and the
/// shown run time free of the mark `❌`, the filtered text holds the mark
/// exactly that many times.
pub proof fn law_filter_lists_failure_headers(output: Seq<char>, duration: Option<Seq<char>>)
    requires
        !is_blank(ansi_stripped(output)),
        free_of(ansi_stripped(output), '❌'),
        duration matches Some(d) ==> free_of(d, '❌'),
        summary_counts(scan(initial_scan(), lines(ansi_stripped(output))).summary).1 > 0,
    ensures
        count_of(filtered(output, duration), '❌') == listed_count(
            headers_before_summary(lines(ansi_stripped(output))) as int,
        ),
{
    let clean = ansi_stripped(output);
    let ls = lines(clean);
    let st = scan(initial_scan(), ls);
    lemma_trim_empty_iff_blank(clean);
    lemma_lines_free(clean, '❌');
    assert(scan_free(initial_scan(), '❌'));
    lemma_scan_keeps_free(initial_scan(), ls, '❌');
    lemma_flushed_free(st, '❌');
    law_one_report_per_failure_header(ls);
    assert(st.summary.len() > 0) by {
        if st.summary.len() == 0 {
            assert(summary_from(st.summary, 0) is None);
        }
    }
    law_at_most_five_failures_listed(st.summary, final_failures(st), clean, duration);
}


proof fn lemma_trim_end_concat(a: Seq<char>, b: Seq<char>)
    requires
        a.len() > 0,
        !is_white_space(a.last()),
    ensures
        trim_end(a + b) == a + trim_end(b),
    decreases b.len(),
{
    if b.len() == 0 {
        assert(a + b =~= a);
        assert(a + trim_end(b) =~= a);
    } else if is_white_space(b.last()) {
        assert((a + b).drop_last() =~= a + b.drop_last());
        lemma_trim_end_concat(a, b.drop_last());
    } else {
        assert((a + b).last() == b.last());
    }
}

proof fn lemma_trim_heading(a: Seq<char>, b: Seq<char>)
    requires
        a.len() > 0,
        !is_white_space(a[0]),
        !is_white_space(a.last()),
    ensures
        trim(a + b) == a + trim_end(b),
{
    assert((a + b)[0] == a[0]);
    assert(trim_start(a + b) == a + b);
    lemma_trim_end_concat(a, b);
}

/// A report restates the counts of its summary line: reading the report
/// itself as a summary line gives the same numbers of tests and failures.
pub proof fn law_report_restates_counts(
    summary_line: Seq<char>,
    failures: Seq<Seq<char>>,
    clean: Seq<char>,
    duration: Option<Seq<char>>,
)
    requires
        summary_line.len() > 0,
    ensures
        summary_counts(report(summary_line, failures, clean, duration)) == summary_counts(
            summary_line,
        ),
{
    let (tests, fails) = summary_counts(summary_line);
    reveal_strlit("✓ mix test: ");
    reveal_strlit("mix test: ");
    reveal_strlit(" tests, 0 failures");
    reveal_strlit(" tests, ");
    reveal_strlit(" failures");
    let dt = decimal(tests as nat);
    let df = decimal(fails as nat);
    if fails == 0 {
        assert(decimal(0) == seq!['0']);
        let p = "✓ mix test: "@;
        assert(p + dt + " tests, 0 failures"@ + duration_suffix(duration) =~= p + dt + " tests, "@
            + decimal(0) + " failures"@ + duration_suffix(duration));
        law_counts_read_back_after_prefix(p, tests, 0, duration_suffix(duration));
    } else {
        let p = "mix test: "@;
        let a = p + dt + " tests, "@ + df + " failures"@;
        let b0 = duration_suffix(duration) + "\n"@ + rule() + "\n"@;
        assert(failure_heading(tests, fails, duration) =~= a + b0);
        assert(a[0] == 'm');
        assert(a.last() == 's');
        let b = if failures.len() == 0 {
            b0
        } else {
            b0 + "\nFailures:\n"@ + failure_entries(failures, listed_count(failures.len() as int))
                + overflow_note(failures.len() as int)
        };
        if failures.len() > 0 {
            assert(failure_heading(tests, fails, duration) + "\nFailures:\n"@ + failure_entries(
                failures,
                listed_count(failures.len() as int),
            ) + overflow_note(failures.len() as int) =~= a + b);
        }
        lemma_trim_heading(a, b);
        law_counts_read_back_after_prefix(p, tests, fails, trim_end(b));
        assert(a + trim_end(b) =~= p + dt + " tests, "@ + df + " failures"@ + trim_end(b));
    }
}


proof fn lemma_truncated_keeps_start(t: Seq<char>, lit: Seq<char>)
    requires
        lit.len() == 11,
    ensures
        starts_with(truncated(t, 120), lit) ==> starts_with(t, lit),
{
    reveal_strlit("...");
    if t.len() > 120 {
        assert((t.take(117) + "..."@).take(11) =~= t.take(11));
    }
}

proof fn lemma_compact_lines_no_stacktrace(ls: Seq<Seq<char>>)
    ensures
        forall|k: int|
            1 <= k < compact_lines(ls).kept.len() ==> !starts_with(
                #[trigger] compact_lines(ls).kept[k],
                "stacktrace:"@,
            ),
        !starts_with(compact_lines(ls).location, "stacktrace:"@),
    decreases ls.len(),
{
    reveal_strlit("stacktrace:");
    if ls.len() > 0 {
        lemma_compact_lines_no_stacktrace(ls.drop_last());
        let prev = compact_lines(ls.drop_last());
        let t = trim(ls.last());
        lemma_truncated_keeps_start(t, "stacktrace:"@);
        if ls.len() > 1 {
            lemma_compaction_starts_with_header(ls.drop_last());
        }
        let now = compact_lines(ls);
        assert forall|k: int| 1 <= k < now.kept.len() implies !starts_with(
            #[trigger] now.kept[k],
            "stacktrace:"@,
        ) by {
            if k < prev.kept.len() {
                assert(now.kept[k] == prev.kept[k]);
            }
        }
    } else {
        assert(!starts_with(Seq::<char>::empty(), "stacktrace:"@));
    }
}

/// A compacted failure report has at most five parts (the header, at most
/// three further lines, the location), none of them holding a line break,
/// and no part after the header is a `stacktrace:` line.
pub proof fn law_compacted_report_shape(block: Seq<char>)
    ensures
        compacted_parts(block).len() <= 5,
        forall|k: int|
            0 <= k < compacted_parts(block).len() ==> free_of(
                #[trigger] compacted_parts(block)[k],
                '\n',
            ),
        forall|k: int|
            1 <= k < compacted_parts(block).len() ==> !starts_with(
                #[trigger] compacted_parts(block)[k],
                "stacktrace:"@,
            ),
        compacted(block) == join(compacted_parts(block), "\n   "@),
{
    let ls = keep_non_blank(lines(block));
    lemma_lines_free(block, '\n');
    lemma_keep_non_blank_free(lines(block), '\n');
    if ls.len() > 0 {
        law_compaction_is_bounded(ls);
        lemma_compact_lines_free(ls, '\n');
        lemma_compact_lines_no_stacktrace(ls);
        lemma_compaction_starts_with_header(ls);
        let c = compact_lines(ls);
        let parts = compacted_parts(block);
        assert forall|k: int| 0 <= k < parts.len() implies free_of(#[trigger] parts[k], '\n') by {
            if k < c.kept.len() {
                assert(parts[k] == c.kept[k]);
            }
        }
        assert forall|k: int| 1 <= k < parts.len() implies !starts_with(
            #[trigger] parts[k],
            "stacktrace:"@,
        ) by {
            if k < c.kept.len() {
                assert(parts[k] == c.kept[k]);
            }
        }
    }
}


/// A text that trimming leaves as it is, and that is not empty.
pub open spec fn settled(p: Seq<char>) -> bool {
    p.len() > 0 && trim(p) == p
}

/// The lines that a compacted report spells: its parts, all but the first
/// indented by three spaces.
pub open spec fn indented(parts: Seq<Seq<char>>) -> Seq<Seq<char>> {
    Seq::new(parts.len(), |k: int| if k == 0 { parts[0] } else { "   "@ + parts[k] })
}

proof fn lemma_settled_ends(p: Seq<char>)
    requires
        settled(p),
    ensures
        !is_white_space(p[0]),
        !is_white_space(p.last()),
{
    lemma_trim_start_empty_iff_blank(p);
    crate::facts::lemma_trim_start_shape(p);
    lemma_trim_end_shape(trim_start(p));
    let x = trim_start(p);
    if is_white_space(p[0]) {
        assert(x.len() < p.len()) by {
            assert(p.skip(p.len() - x.len())[0] == p[p.len() - x.len()]);
            if x.len() == p.len() {
                assert(p.skip(0) =~= p);
            }
        }
        assert(trim_end(x).len() <= x.len());
    }
    assert(x.len() == p.len()) by {
        assert(trim_end(x).len() <= x.len());
        assert(x.len() <= p.len());
    }
    assert(p.skip(0) =~= p);
    assert(x == p);
    lemma_trim_end_shape(p);
}

proof fn lemma_trim_indented(p: Seq<char>)
    requires
        settled(p),
    ensures
        trim("   "@ + p) == p,
        !is_blank("   "@ + p),
{
    reveal_strlit("   ");
    lemma_settled_ends(p);
    let q = "   "@ + p;
    let q1 = q.drop_first();
    let q2 = q1.drop_first();
    let q3 = q2.drop_first();
    assert(q[0] == ' ');
    assert(q1[0] == ' ');
    assert(q2[0] == ' ');
    assert(q3 =~= p);
    assert(trim_start(q2) == trim_start(q3));
    assert(trim_start(q1) == trim_start(q2));
    assert(trim_start(q) == trim_start(q1));
    assert(trim_start(q) == trim_start(p));
    assert(trim_start(p) == p) by {
        assert(p.len() > 0 && !is_white_space(p[0]));
    }
    assert(trim_end(p) == p) by {
        assert(!is_white_space(p.last()));
    }
    assert(q[3] == p[0]);
}

proof fn lemma_lines_from_shift(x: Seq<char>, y: Seq<char>, start: int, i: int)
    requires
        0 <= start <= i <= y.len(),
    ensures
        lines_from(x + y, x.len() + start, x.len() + i) == lines_from(y, start, i),
    decreases y.len() - i,
{
    let s = x + y;
    let n = x.len() as int;
    if i < y.len() {
        assert(s[n + i] == y[i]);
        if y[i] == '\n' {
            lemma_lines_from_shift(x, y, i + 1, i + 1);
            assert(s.subrange(n + start, n + i) =~= y.subrange(start, i));
        } else {
            lemma_lines_from_shift(x, y, start, i + 1);
        }
    } else if start < y.len() {
        assert(s.subrange(n + start, s.len() as int) =~= y.subrange(start, y.len() as int));
    }
}

proof fn lemma_lines_from_before_break(a: Seq<char>, b: Seq<char>, start: int, i: int)
    requires
        0 <= start <= i <= a.len(),
        start < a.len(),
        a.last() != '\n',
        a.last() != '\r',
    ensures
        lines_from(a + seq!['\n'] + b, start, i) == lines_from(a, start, i) + lines_from(b, 0, 0),
    decreases a.len() - i,
{
    let s = a + seq!['\n'] + b;
    let n = a.len() as int;
    if i == n {
        assert(s[n] == '\n');
        assert(s.subrange(start, n) =~= a.subrange(start, n));
        assert(a.subrange(start, n).last() == a.last());
        lemma_lines_from_shift(a + seq!['\n'], b, 0, 0);
        assert((a + seq!['\n']) + b =~= s);
    } else {
        assert(s[i] == a[i]);
        if a[i] == '\n' {
            assert(i + 1 < n);
            lemma_lines_from_before_break(a, b, i + 1, i + 1);
            assert(s.subrange(start, i) =~= a.subrange(start, i));
            assert(seq![strip_cr(a.subrange(start, i))] + (lines_from(a, i + 1, i + 1) + lines_from(
                b,
                0,
                0,
            )) =~= (seq![strip_cr(a.subrange(start, i))] + lines_from(a, i + 1, i + 1))
                + lines_from(b, 0, 0));
        } else {
            lemma_lines_from_before_break(a, b, start, i + 1);
        }
    }
}

proof fn lemma_lines_single(y: Seq<char>, i: int)
    requires
        y.len() > 0,
        0 <= i <= y.len(),
        free_of(y, '\n'),
    ensures
        lines_from(y, 0, i) == seq![y],
    decreases y.len() - i,
{
    if i < y.len() {
        lemma_lines_single(y, i + 1);
    } else {
        assert(y.subrange(0, y.len() as int) =~= y);
    }
}

proof fn lemma_join_last(parts: Seq<Seq<char>>, sep: Seq<char>)
    requires
        parts.len() > 0,
        parts.last().len() > 0,
    ensures
        join(parts, sep).len() > 0,
        join(parts, sep).last() == parts.last().last(),
{
}

proof fn lemma_lines_of_join(parts: Seq<Seq<char>>)
    requires
        parts.len() > 0,
        forall|k: int| 0 <= k < parts.len() ==> settled(#[trigger] parts[k]),
        forall|k: int| 0 <= k < parts.len() ==> free_of(#[trigger] parts[k], '\n'),
    ensures
        lines(join(parts, "\n   "@)) == indented(parts),
    decreases parts.len(),
{
    reveal_strlit("\n   ");
    reveal_strlit("   ");
    if parts.len() == 1 {
        lemma_lines_single(parts[0], 0);
        assert(indented(parts) =~= seq![parts[0]]);
    } else {
        let front = parts.drop_last();
        assert forall|k: int| 0 <= k < front.len() implies settled(#[trigger] front[k]) && free_of(
            front[k],
            '\n',
        ) by {
            assert(front[k] == parts[k]);
        }
        lemma_lines_of_join(front);
        let a = join(front, "\n   "@);
        let last = parts.last();
        let b = "   "@ + last;
        lemma_settled_ends(front.last());
        lemma_join_last(front, "\n   "@);
        assert(a + "\n   "@ + last =~= a + seq!['\n'] + b);
        lemma_lines_from_before_break(a, b, 0, 0);
        lemma_free_concat("   "@, last, '\n');
        lemma_lines_single(b, 0);
        assert(indented(parts) =~= indented(front) + seq![b]);
    }
}

spec fn kept_ok(kept: Seq<Seq<char>>) -> bool {
    &&& forall|k: int| 0 <= k < kept.len() ==> settled(#[trigger] kept[k]) && kept[k].len() <= 120
    &&& forall|k: int|
        1 <= k < kept.len() ==> !is_location(#[trigger] kept[k]) && !starts_with(
            kept[k],
            "stacktrace:"@,
        )
}

spec fn first_pass_ok(c: Compaction) -> bool {
    &&& kept_ok(c.kept)
    &&& c.location.len() > 0 ==> settled(c.location) && is_location(c.location)
        && !starts_with(c.location, "stacktrace:"@)
}

proof fn lemma_first_pass(ls: Seq<Seq<char>>)
    requires
        forall|j: int| 0 <= j < ls.len() ==> !is_blank(#[trigger] ls[j]),
        forall|j: int| 0 <= j < ls.len() ==> (#[trigger] ls[j]).len() <= 120,
    ensures
        first_pass_ok(compact_lines(ls)),
    decreases ls.len(),
{
    if ls.len() > 0 {
        assert forall|j: int| 0 <= j < ls.drop_last().len() implies !is_blank(
            #[trigger] ls.drop_last()[j],
        ) && ls.drop_last()[j].len() <= 120 by {
            assert(ls.drop_last()[j] == ls[j]);
        }
        lemma_first_pass(ls.drop_last());
        let line = ls.last();
        assert(!is_blank(line) && line.len() <= 120);
        let t = trim(line);
        lemma_trim_empty_iff_blank(line);
        lemma_trim_idempotent(line);
        crate::facts::lemma_trim_is_subrange(line);
        assert(t.len() <= 120);
        law_truncation_bounded(t, 120);
        lemma_compact_lines_no_stacktrace(ls);
        let prev = compact_lines(ls.drop_last());
        let now = compact_lines(ls);
        assert(kept_ok(prev.kept));
        assert forall|k: int| 0 <= k < now.kept.len() implies settled(#[trigger] now.kept[k])
            && now.kept[k].len() <= 120 by {
            if k < prev.kept.len() {
                assert(now.kept[k] == prev.kept[k]);
            }
        }
        assert forall|k: int| 1 <= k < now.kept.len() implies !is_location(#[trigger] now.kept[k]) by {
            if k < prev.kept.len() {
                assert(now.kept[k] == prev.kept[k]);
            }
        }
    }
}

proof fn lemma_keep_non_blank_members(ls: Seq<Seq<char>>)
    requires
        forall|j: int| 0 <= j < ls.len() ==> (#[trigger] ls[j]).len() <= 120,
    ensures
        forall|j: int|
            0 <= j < keep_non_blank(ls).len() ==> !is_blank(#[trigger] keep_non_blank(ls)[j])
                && keep_non_blank(ls)[j].len() <= 120,
    decreases ls.len(),
{
    if ls.len() > 0 {
        assert forall|j: int| 0 <= j < ls.drop_last().len() implies (
        #[trigger] ls.drop_last()[j]).len() <= 120 by {
            assert(ls.drop_last()[j] == ls[j]);
        }
        lemma_keep_non_blank_members(ls.drop_last());
        lemma_trim_empty_iff_blank(ls.last());
        let prev = keep_non_blank(ls.drop_last());
        assert forall|j: int| 0 <= j < keep_non_blank(ls).len() implies !is_blank(
            #[trigger] keep_non_blank(ls)[j],
        ) && keep_non_blank(ls)[j].len() <= 120 by {
            if j < prev.len() {
                assert(keep_non_blank(ls)[j] == prev[j]);
            }
        }
    }
}

proof fn lemma_keep_all(ls: Seq<Seq<char>>)
    requires
        forall|j: int| 0 <= j < ls.len() ==> !is_blank(#[trigger] ls[j]),
    ensures
        keep_non_blank(ls) == ls,
    decreases ls.len(),
{
    if ls.len() > 0 {
        assert forall|j: int| 0 <= j < ls.drop_last().len() implies !is_blank(
            #[trigger] ls.drop_last()[j],
        ) by {
            assert(ls.drop_last()[j] == ls[j]);
        }
        lemma_keep_all(ls.drop_last());
        lemma_trim_empty_iff_blank(ls.last());
        assert(ls.drop_last().push(ls.last()) =~= ls);
    }
}

proof fn lemma_second_pass(kept: Seq<Seq<char>>, j: int)
    requires
        1 <= j <= kept.len() <= 4,
        kept_ok(kept),
    ensures
        compact_lines(indented(kept).take(j)) == (Compaction { kept: kept.take(j), location: seq![] }),
    decreases j,
{
    if j == 1 {
        let one = indented(kept).take(1);
        assert(one.drop_last() =~= Seq::<Seq<char>>::empty());
        assert(one.last() == kept[0]);
        assert(settled(kept[0]));
        assert(kept.take(1) =~= seq![kept[0]]);
        assert(trim(kept[0]) == kept[0]);
        assert(Seq::<Seq<char>>::empty().push(kept[0]) =~= kept.take(1));
        assert(compact_lines(one.drop_last()) == Compaction {
            kept: Seq::<Seq<char>>::empty(),
            location: Seq::<char>::empty(),
        });
        assert(compact_lines(one) == compact_step(
            compact_lines(one.drop_last()),
            one.last(),
            true,
        ));
    } else {
        lemma_second_pass(kept, j - 1);
        let cur = indented(kept).take(j);
        assert(cur.drop_last() =~= indented(kept).take(j - 1));
        assert(cur.last() == "   "@ + kept[j - 1]);
        assert(settled(kept[j - 1]));
        assert(!is_location(kept[j - 1]));
        lemma_trim_indented(kept[j - 1]);
        law_truncation_bounded(kept[j - 1], 120);
        assert(kept.take(j - 1).push(kept[j - 1]) =~= kept.take(j));
        assert(!starts_with(kept[j - 1], "stacktrace:"@));
        assert(compact_lines(cur) == compact_step(
            compact_lines(cur.drop_last()),
            cur.last(),
            false,
        ));
    }
}

/// Compacting a compacted failure report changes nothing, when no line of
/// the report is longer than the limit that compaction cuts at.
pub proof fn law_compaction_is_idempotent(block: Seq<char>)
    requires
        forall|j: int| 0 <= j < lines(block).len() ==> (#[trigger] lines(block)[j]).len() <= 120,
    ensures
        compacted(compacted(block)) == compacted(block),
{
    reveal_strlit("\n   ");
    let ls = keep_non_blank(lines(block));
    let parts = compacted_parts(block);
    law_compacted_report_shape(block);
    if ls.len() == 0 {
        assert(compacted(block) == Seq::<char>::empty());
        assert(lines(Seq::<char>::empty()) == Seq::<Seq<char>>::empty());
        lemma_keep_all(Seq::<Seq<char>>::empty());
    } else {
        lemma_keep_non_blank_members(lines(block));
        lemma_first_pass(ls);
        law_compaction_is_bounded(ls);
        lemma_compaction_starts_with_header(ls);
        let c = compact_lines(ls);
        assert forall|k: int| 0 <= k < parts.len() implies settled(#[trigger] parts[k]) by {
            if k < c.kept.len() {
                assert(parts[k] == c.kept[k]);
            }
        }
        lemma_lines_of_join(parts);
        let second = indented(parts);
        assert forall|k: int| 0 <= k < second.len() implies !is_blank(#[trigger] second[k]) by {
            if k == 0 {
                lemma_trim_empty_iff_blank(parts[0]);
            } else {
                lemma_trim_indented(parts[k]);
            }
        }
        lemma_keep_all(second);
        lemma_second_pass(c.kept, c.kept.len() as int);
        assert(c.kept.take(c.kept.len() as int) =~= c.kept);
        if c.location.len() > 0 {
            assert(indented(c.kept).take(c.kept.len() as int) =~= indented(c.kept));
            assert(second.drop_last() =~= indented(c.kept));
            assert(second.last() == "   "@ + c.location);
            lemma_trim_indented(c.location);
            assert(compact_lines(second) == c);
        } else {
            assert(second =~= indented(c.kept).take(c.kept.len() as int));
            assert(c.location =~= Seq::<char>::empty());
            assert(compact_lines(second) == c);
        }
        assert(compacted_parts(compacted(block)) == parts);
    }
}


/// The detail lines of a failure report among `ls`, the lines after its
/// header: each trimmed line that is neither a `stacktrace:` line nor a
/// file location, cut to 120 characters, in order.
pub open spec fn detail_lines(ls: Seq<Seq<char>>) -> Seq<Seq<char>>
    decreases ls.len(),
{
    if ls.len() == 0 {
        seq![]
    } else {
        let t = trim(ls.last());
        if !starts_with(t, "stacktrace:"@) && !is_location(t) {
            detail_lines(ls.drop_last()).push(truncated(t, 120))
        } else {
            detail_lines(ls.drop_last())
        }
    }
}

/// The last trimmed line among `ls` that names a file location and is not
/// a `stacktrace:` line; empty where there is none.
pub open spec fn last_location(ls: Seq<Seq<char>>) -> Seq<char>
    decreases ls.len(),
{
    if ls.len() == 0 {
        seq![]
    } else {
        let t = trim(ls.last());
        if !starts_with(t, "stacktrace:"@) && is_location(t) {
            t
        } else {
            last_location(ls.drop_last())
        }
    }
}

/// The first `n` elements of `s`, or all of them where there are fewer.
pub open spec fn first_n(s: Seq<Seq<char>>, n: nat) -> Seq<Seq<char>> {
    if s.len() <= n {
        s
    } else {
        s.take(n as int)
    }
}

/// The parts of a compacted report in list form: the trimmed header, the
/// first three detail lines, and the last file location if there is one.
pub open spec fn listed_parts(ls: Seq<Seq<char>>) -> Seq<Seq<char>> {
    let loc = last_location(ls.skip(1));
    seq![trim(ls[0])] + first_n(detail_lines(ls.skip(1)), 3) + if loc.len() > 0 {
        seq![loc]
    } else {
        seq![]
    }
}

proof fn lemma_compact_lines_list_form(ls: Seq<Seq<char>>)
    requires
        ls.len() > 0,
    ensures
        compact_lines(ls).kept == seq![trim(ls[0])] + first_n(detail_lines(ls.skip(1)), 3),
        compact_lines(ls).location == last_location(ls.skip(1)),
    decreases ls.len(),
{
    reveal_strlit("stacktrace:");
    if ls.len() == 1 {
        assert(ls.skip(1) =~= Seq::<Seq<char>>::empty());
        assert(ls.drop_last() =~= Seq::<Seq<char>>::empty());
        assert(seq![trim(ls[0])] + first_n(Seq::<Seq<char>>::empty(), 3) =~= seq![trim(ls[0])]);
        assert(Seq::<Seq<char>>::empty().push(trim(ls[0])) =~= seq![trim(ls[0])]);
        assert(compact_lines(ls.drop_last()) == Compaction {
            kept: Seq::<Seq<char>>::empty(),
            location: Seq::<char>::empty(),
        });
        assert(compact_lines(ls) == compact_step(compact_lines(ls.drop_last()), ls.last(), true));
        assert(detail_lines(ls.skip(1)) == Seq::<Seq<char>>::empty());
        assert(last_location(ls.skip(1)) == Seq::<char>::empty());
        assert(ls.last() == ls[0]);
    } else {
        let p = ls.drop_last();
        lemma_compact_lines_list_form(p);
        let rest = ls.skip(1);
        assert(rest.drop_last() =~= p.skip(1));
        assert(rest.last() == ls.last());
        assert(p[0] == ls[0]);
        let d = detail_lines(p.skip(1));
        let t = trim(ls.last());
        let h = seq![trim(ls[0])];
        assert(compact_lines(ls) == compact_step(compact_lines(p), ls.last(), false));
        assert(detail_lines(rest) == if !starts_with(t, "stacktrace:"@) && !is_location(t) {
            d.push(truncated(t, 120))
        } else {
            d
        });
        assert(last_location(rest) == if !starts_with(t, "stacktrace:"@) && is_location(t) {
            t
        } else {
            last_location(p.skip(1))
        });
        if !starts_with(t, "stacktrace:"@) && !is_location(t) {
            let d2 = d.push(truncated(t, 120));
            if d.len() < 3 {
                assert((h + first_n(d, 3)).push(truncated(t, 120)) =~= h + first_n(d2, 3));
            } else {
                assert(first_n(d2, 3) =~= first_n(d, 3));
            }
        }
    }
}

/// Compaction in list form: a failure report is reduced to its first
/// non-blank line trimmed, its first three detail lines (cut to 120
/// characters), and the last line naming a test or library file, joined by
/// a line break and three spaces; a blank report compacts to nothing.
pub proof fn law_compaction_list_form(block: Seq<char>)
    ensures
        keep_non_blank(lines(block)).len() == 0 ==> compacted(block) == Seq::<char>::empty(),
        keep_non_blank(lines(block)).len() > 0 ==> compacted_parts(block) == listed_parts(
            keep_non_blank(lines(block)),
        ),
        keep_non_blank(lines(block)).len() > 0 ==> compacted(block) == join(
            listed_parts(keep_non_blank(lines(block))),
            "\n   "@,
        ),
{
    let ls = keep_non_blank(lines(block));
    if ls.len() > 0 {
        lemma_compact_lines_list_form(ls);
        let c = compact_lines(ls);
        if c.location.len() > 0 {
            assert(c.kept.push(c.location) =~= listed_parts(ls));
        } else {
            assert(c.kept =~= listed_parts(ls));
        }
    }
}


/// A trimmed line of a failure report that names a file of the project: a
/// path under `test/` or `lib/`, or a test script, and not the
/// `stacktrace:` heading.
pub open spec fn names_project_file(t: Seq<char>) -> bool {
    &&& !starts_with(t, "stacktrace:"@)
    &&& (starts_with(t, "test/"@) || starts_with(t, "lib/"@) || contains(t, "_test.exs"@))
}

/// `d` is a line of `xs`, trimmed and cut to 120 characters, that neither
/// names a file of the project nor is the `stacktrace:` heading.
spec fn shown_detail_of(xs: Seq<Seq<char>>, d: Seq<char>) -> bool {
    exists|j: int|
        #![trigger xs[j]]
        0 <= j < xs.len() && !names_project_file(trim(xs[j])) && !starts_with(
            trim(xs[j]),
            "stacktrace:"@,
        ) && d == truncated(trim(xs[j]), 120)
}

proof fn lemma_detail_lines_origin(xs: Seq<Seq<char>>)
    ensures
        forall|i: int|
            0 <= i < detail_lines(xs).len() ==> shown_detail_of(xs, #[trigger] detail_lines(xs)[i]),
        (exists|j: int|
            0 <= j < xs.len() && !names_project_file(trim(#[trigger] xs[j])) && !starts_with(
                trim(xs[j]),
                "stacktrace:"@,
            )) ==> detail_lines(xs).len() > 0,
    decreases xs.len(),
{
    if xs.len() > 0 {
        let p = xs.drop_last();
        lemma_detail_lines_origin(p);
        let t = trim(xs.last());
        let d = detail_lines(xs);
        let dp = detail_lines(p);
        assert forall|i: int| 0 <= i < d.len() implies shown_detail_of(xs, #[trigger] d[i]) by {
            if i < dp.len() {
                assert(d[i] == dp[i]);
                assert(shown_detail_of(p, dp[i]));
                let j = choose|j: int|
                    #![trigger p[j]]
                    0 <= j < p.len() && !names_project_file(trim(p[j])) && !starts_with(
                        trim(p[j]),
                        "stacktrace:"@,
                    ) && dp[i] == truncated(trim(p[j]), 120);
                assert(xs[j] == p[j]);
            } else {
                assert(xs[xs.len() - 1] == xs.last());
            }
        }
        if exists|j: int|
            0 <= j < xs.len() && !names_project_file(trim(#[trigger] xs[j])) && !starts_with(
                trim(xs[j]),
                "stacktrace:"@,
            ) {
            let j = choose|j: int|
                0 <= j < xs.len() && !names_project_file(trim(#[trigger] xs[j])) && !starts_with(
                    trim(xs[j]),
                    "stacktrace:"@,
                );
            if j < p.len() {
                assert(xs[j] == p[j]);
                assert(!names_project_file(trim(p[j])));
            } else {
                assert(xs[j] == xs.last());
            }
        }
    }
}

proof fn lemma_project_file_not_empty(t: Seq<char>)
    requires
        names_project_file(t),
    ensures
        t.len() > 0,
{
    reveal_strlit("test/");
    reveal_strlit("lib/");
    reveal_strlit("_test.exs");
}

proof fn lemma_last_location_origin(xs: Seq<Seq<char>>)
    ensures
        (forall|j: int| 0 <= j < xs.len() ==> !names_project_file(trim(#[trigger] xs[j])))
            ==> last_location(xs).len() == 0,
        (exists|j: int| 0 <= j < xs.len() && names_project_file(trim(#[trigger] xs[j])))
            ==> last_location(xs).len() > 0,
        last_location(xs).len() > 0 ==> exists|m: int|
            #![trigger xs[m]]
            0 <= m < xs.len() && names_project_file(trim(xs[m])) && last_location(xs) == trim(
                xs[m],
            ) && forall|k: int| m < k < xs.len() ==> !names_project_file(trim(#[trigger] xs[k])),
    decreases xs.len(),
{
    if xs.len() > 0 {
        let p = xs.drop_last();
        lemma_last_location_origin(p);
        let t = trim(xs.last());
        assert(xs[xs.len() - 1] == xs.last());
        if names_project_file(t) {
            lemma_project_file_not_empty(t);
        } else {
            assert forall|j: int| 0 <= j < p.len() implies p[j] == xs[j] by {}
            if exists|j: int| 0 <= j < xs.len() && names_project_file(trim(#[trigger] xs[j])) {
                let j = choose|j: int|
                    0 <= j < xs.len() && names_project_file(trim(#[trigger] xs[j]));
                assert(j < p.len());
                assert(names_project_file(trim(p[j])));
            }
            if last_location(xs).len() > 0 {
                let m = choose|m: int|
                    #![trigger p[m]]
                    0 <= m < p.len() && names_project_file(trim(p[m])) && last_location(p) == trim(
                        p[m],
                    ) && forall|k: int| m < k < p.len() ==> !names_project_file(trim(#[trigger] p[k]));
                assert(xs[m] == p[m]);
                assert forall|k: int| m < k < xs.len() implies !names_project_file(
                    trim(#[trigger] xs[k]),
                ) by {
                    if k < p.len() {
                        assert(xs[k] == p[k]);
                    }
                }
            }
        }
    }
}

/// Every line after the header of a failure report that names a file of
/// the project (a path under `test/` or `lib/`, or a test script) counts as
/// a file location and never as a detail line. The compacted report is its
/// trimmed header, then detail lines that each come from a line naming no
/// such file, then, where any line names one, the last such line: the
/// location shown is the last file named. A report with any line after its
/// header other than `stacktrace:` compacts to more than the header alone.
pub proof fn law_file_lines_give_the_location(block: Seq<char>)
    ensures
        ({
            let ls = keep_non_blank(lines(block));
            let parts = compacted_parts(block);
            let located = exists|j: int|
                1 <= j < ls.len() && names_project_file(trim(#[trigger] ls[j]));
            let details = if located {
                parts.len() - 1
            } else {
                parts.len() as int
            };
            ls.len() > 0 ==> {
                &&& 1 <= details
                &&& parts[0] == trim(ls[0])
                &&& forall|i: int|
                    1 <= i < details ==> exists|j: int|
                        #![trigger ls[j]]
                        1 <= j < ls.len() && !names_project_file(trim(ls[j])) && !starts_with(
                            trim(ls[j]),
                            "stacktrace:"@,
                        ) && #[trigger] parts[i] == truncated(trim(ls[j]), 120)
                &&& located ==> exists|m: int|
                    #![trigger ls[m]]
                    1 <= m < ls.len() && names_project_file(trim(ls[m])) && parts.last() == trim(
                        ls[m],
                    ) && forall|k: int|
                        m < k < ls.len() ==> !names_project_file(trim(#[trigger] ls[k]))
                &&& (exists|j: int|
                    1 <= j < ls.len() && !starts_with(trim(#[trigger] ls[j]), "stacktrace:"@))
                    ==> parts.len() > 1
            }
        }),
{
    let ls = keep_non_blank(lines(block));
    if ls.len() > 0 {
        law_compaction_list_form(block);
        let parts = compacted_parts(block);
        let xs = ls.skip(1);
        assert forall|j: int| 0 <= j < xs.len() implies xs[j] == ls[j + 1] by {}
        lemma_detail_lines_origin(xs);
        lemma_last_location_origin(xs);
        let d = detail_lines(xs);
        let f = first_n(d, 3);
        let loc = last_location(xs);
        assert(parts == listed_parts(ls));
        let located = exists|j: int|
            1 <= j < ls.len() && names_project_file(trim(#[trigger] ls[j]));
        if located {
            let j = choose|j: int| 1 <= j < ls.len() && names_project_file(trim(#[trigger] ls[j]));
            assert(names_project_file(trim(xs[j - 1])));
            assert(loc.len() > 0);
        } else {
            assert forall|j: int| 0 <= j < xs.len() implies !names_project_file(
                trim(#[trigger] xs[j]),
            ) by {
                assert(xs[j] == ls[j + 1]);
            }
            assert(loc.len() == 0);
        }
        let details = 1 + f.len();
        assert(parts.len() == details + if loc.len() > 0 {
            1int
        } else {
            0int
        });
        assert(parts[0] == trim(ls[0]));
        assert forall|i: int| 1 <= i < details implies exists|j: int|
            #![trigger ls[j]]
            1 <= j < ls.len() && !names_project_file(trim(ls[j])) && !starts_with(
                trim(ls[j]),
                "stacktrace:"@,
            ) && #[trigger] parts[i] == truncated(trim(ls[j]), 120) by {
            assert(parts[i] == f[i - 1]);
            assert(f[i - 1] == d[i - 1]);
            assert(shown_detail_of(xs, d[i - 1]));
            let j = choose|j: int|
                #![trigger xs[j]]
                0 <= j < xs.len() && !names_project_file(trim(xs[j])) && !starts_with(
                    trim(xs[j]),
                    "stacktrace:"@,
                ) && d[i - 1] == truncated(trim(xs[j]), 120);
            assert(ls[j + 1] == xs[j]);
        }
        if loc.len() > 0 {
            let m = choose|m: int|
                #![trigger xs[m]]
                0 <= m < xs.len() && names_project_file(trim(xs[m])) && loc == trim(xs[m])
                    && forall|k: int| m < k < xs.len() ==> !names_project_file(trim(#[trigger] xs[k]));
            assert(parts.last() == loc);
            assert(ls[m + 1] == xs[m]);
            assert forall|k: int| m + 1 < k < ls.len() implies !names_project_file(
                trim(#[trigger] ls[k]),
            ) by {
                assert(ls[k] == xs[k - 1]);
            }
        }
        if exists|j: int| 1 <= j < ls.len() && !starts_with(trim(#[trigger] ls[j]), "stacktrace:"@) {
            let j = choose|j: int|
                1 <= j < ls.len() && !starts_with(trim(#[trigger] ls[j]), "stacktrace:"@);
            assert(xs[j - 1] == ls[j]);
            if !names_project_file(trim(ls[j])) {
                assert(d.len() > 0);
            } else {
                assert(loc.len() > 0);
            }
        }
    }
}


/// The entries of the failures from the `k`th (counted from 0) up to the
/// `m`th, the latter left out.
spec fn entries_from(failures: Seq<Seq<char>>, k: int, m: int) -> Seq<char>
    decreases m - k,
{
    if m <= k {
        seq![]
    } else {
        entries_from(failures, k, m - 1) + failure_entry(failures, m - 1)
    }
}

proof fn lemma_entries_prefix(failures: Seq<Seq<char>>, k: int, m: int)
    requires
        0 <= k <= m,
    ensures
        failure_entries(failures, m) == failure_entries(failures, k) + entries_from(
            failures,
            k,
            m,
        ),
    decreases m - k,
{
    if m == k {
        assert(failure_entries(failures, k) + Seq::<char>::empty() =~= failure_entries(
            failures,
            k,
        ));
    } else {
        lemma_entries_prefix(failures, k, m - 1);
        assert(failure_entries(failures, m) =~= failure_entries(failures, k) + entries_from(
            failures,
            k,
            m,
        ));
    }
}

proof fn lemma_entries_from_front(failures: Seq<Seq<char>>, k: int, m: int)
    requires
        0 <= k < m,
    ensures
        entries_from(failures, k, m) == failure_entry(failures, k) + entries_from(
            failures,
            k + 1,
            m,
        ),
    decreases m - k,
{
    if m == k + 1 {
        assert(entries_from(failures, k, k) == Seq::<char>::empty());
        assert(entries_from(failures, k + 1, m) == Seq::<char>::empty());
        assert(entries_from(failures, k, m) =~= failure_entry(failures, k) + entries_from(
            failures,
            k + 1,
            m,
        ));
    } else {
        lemma_entries_from_front(failures, k, m - 1);
        assert(entries_from(failures, k, m) =~= failure_entry(failures, k) + entries_from(
            failures,
            k + 1,
            m,
        ));
    }
}

proof fn lemma_kept_lines_not_blank(ls: Seq<Seq<char>>)
    ensures
        forall|j: int|
            0 <= j < keep_non_blank(ls).len() ==> trim(#[trigger] keep_non_blank(ls)[j]).len()
                > 0,
    decreases ls.len(),
{
    if ls.len() > 0 {
        lemma_kept_lines_not_blank(ls.drop_last());
        let prev = keep_non_blank(ls.drop_last());
        assert forall|j: int| 0 <= j < keep_non_blank(ls).len() implies trim(
            #[trigger] keep_non_blank(ls)[j],
        ).len() > 0 by {
            if j < prev.len() {
                assert(keep_non_blank(ls)[j] == prev[j]);
            }
        }
    }
}

proof fn lemma_trim_ends_settled(x: Seq<char>)
    requires
        trim(x).len() > 0,
    ensures
        !is_white_space(trim(x).last()),
{
    lemma_trim_end_shape(trim_start(x));
}

proof fn lemma_truncated_ends_settled(t: Seq<char>)
    requires
        t.len() > 0,
        !is_white_space(t.last()),
    ensures
        truncated(t, 120).len() > 0,
        !is_white_space(truncated(t, 120).last()),
{
    reveal_strlit("...");
}

/// A compacted report of a failure with a non-blank line ends with a
/// character other than white space.
proof fn lemma_compacted_ends_settled(block: Seq<char>)
    requires
        keep_non_blank(lines(block)).len() > 0,
    ensures
        compacted(block).len() > 0,
        !is_white_space(compacted(block).last()),
{
    let ls = keep_non_blank(lines(block));
    law_compaction_list_form(block);
    lemma_kept_lines_not_blank(lines(block));
    let xs = ls.skip(1);
    lemma_detail_lines_origin(xs);
    lemma_last_location_origin(xs);
    let parts = listed_parts(ls);
    let d = detail_lines(xs);
    let f = first_n(d, 3);
    let loc = last_location(xs);
    if loc.len() > 0 {
        let m = choose|m: int|
            #![trigger xs[m]]
            0 <= m < xs.len() && names_project_file(trim(xs[m])) && loc == trim(xs[m])
                && forall|k: int| m < k < xs.len() ==> !names_project_file(trim(#[trigger] xs[k]));
        lemma_trim_ends_settled(xs[m]);
        assert(parts.last() == loc);
    } else if f.len() > 0 {
        let i = f.len() - 1;
        assert(f[i] == d[i]);
        assert(shown_detail_of(xs, d[i]));
        let j = choose|j: int|
            #![trigger xs[j]]
            0 <= j < xs.len() && !names_project_file(trim(xs[j])) && !starts_with(
                trim(xs[j]),
                "stacktrace:"@,
            ) && d[i] == truncated(trim(xs[j]), 120);
        assert(xs[j] == ls[j + 1]);
        lemma_trim_ends_settled(xs[j]);
        lemma_truncated_ends_settled(trim(xs[j]));
        assert(parts.last() == f[i]);
    } else {
        assert(ls[0] == keep_non_blank(lines(block))[0]);
        lemma_trim_ends_settled(ls[0]);
        assert(parts.last() == trim(ls[0]));
    }
    lemma_join_last(parts, "\n   "@);
}


proof fn lemma_occurs_after_trim(a: Seq<char>, e: Seq<char>, b: Seq<char>)
    requires
        (a + e).len() > 0,
        !is_white_space((a + e)[0]),
        !is_white_space((a + e).last()),
    ensures
        occurs_at(trim(a + e + b), e, a.len() as int),
        trim_end(b).len() == 0 ==> trim(a + e + b).len() == a.len() + e.len(),
{
    lemma_trim_heading(a + e, b);
    assert(trim(a + e + b).subrange(a.len() as int, (a.len() + e.len()) as int) =~= e);
}

/// The entry of the `k`th failure, with what follows it, in the list under
/// a heading `hp`, once the whole is trimmed.
proof fn lemma_line_breaks_trim_away(t: Seq<char>)
    requires
        forall|i: int| 0 <= i < t.len() ==> t[i] == '\n',
    ensures
        trim_end(t).len() == 0,
    decreases t.len(),
{
    if t.len() > 0 {
        assert(is_white_space(t.last()));
        lemma_line_breaks_trim_away(t.drop_last());
    }
}

#[verifier::rlimit(50)]
proof fn lemma_entry_placed(hp: Seq<char>, failures: Seq<Seq<char>>, k: int)
    requires
        hp.len() > 0,
        !is_white_space(hp[0]),
        0 <= k < failures.len(),
        k < 5,
        after_entry(failures.len() as int, k).len() > 0 || keep_non_blank(
            lines(failures[k]),
        ).len() > 0,
    ensures
        ({
            let n = failures.len() as int;
            let body = hp + failure_entries(failures, listed_count(n)) + overflow_note(n);
            let e = decimal((k + 1) as nat) + ". ❌ "@ + compacted(failures[k]);
            let p = (hp.len() + failure_entries(failures, k).len()) as int;
            &&& occurs_at(trim(body), e + after_entry(n, k), p)
            &&& after_entry(n, k).len() == 0 ==> p + e.len() == trim(body).len()
        }),
{
    reveal_strlit(". ❌ ");
    reveal_strlit(". ❌");
    reveal_strlit(" ");
    reveal_strlit("\n");
    reveal_strlit("\n\n");
    reveal_strlit("\n... +");
    reveal_strlit("\n\n... +");
    let n = failures.len() as int;
    let after = after_entry(n, k);
    let l = listed_count(n);
    let note = overflow_note(n);
    let body = hp + failure_entries(failures, l) + note;
    lemma_entries_prefix(failures, k, l);
    lemma_entries_from_front(failures, k, l);
    let pfx = hp + failure_entries(failures, k);
    let pre = decimal((k + 1) as nat) + ". ❌ "@;
    let c = compacted(failures[k]);
    let e = pre + c + after;
    let tail: Seq<char> = "\n"@ + (if k < 4 {
        "\n"@
    } else {
        seq![]
    });
    assert(failure_entry(failures, k) == pre + c + tail);
    let rest = entries_from(failures, k + 1, l);
    assert(body =~= pfx + (pre + c + tail) + rest + note);
    assert((pfx + e)[0] == hp[0]);
    if k + 1 < n && k < 4 {
        lemma_entries_from_front(failures, k + 1, l);
        let pre2 = decimal((k + 2) as nat) + ". ❌ "@;
        let c2 = compacted(failures[k + 1]);
        let tail2: Seq<char> = "\n"@ + (if k + 1 < 4 {
            "\n"@
        } else {
            seq![]
        });
        assert(failure_entry(failures, k + 1) == pre2 + c2 + tail2);
        let b = " "@ + c2 + tail2 + entries_from(failures, k + 2, l) + note;
        assert(after =~= "\n\n"@ + decimal((k + 2) as nat) + ". ❌"@);
        assert(body =~= pfx + e + b);
        assert((pfx + e).last() == '❌');
        lemma_occurs_after_trim(pfx, e, b);
    } else if k == 4 && n > 5 {
        let b = decimal((n - 5) as nat) + " more failures\n"@;
        assert(rest == Seq::<char>::empty());
        assert(note == "\n... +"@ + b);
        assert(tail =~= "\n"@);
        assert(body =~= pfx + e + b);
        assert((pfx + e).last() == '+');
        lemma_occurs_after_trim(pfx, e, b);
    } else {
        assert(after == Seq::<char>::empty());
        assert(l == n);
        assert(rest == Seq::<char>::empty());
        assert(note == Seq::<char>::empty());
        lemma_compacted_ends_settled(failures[k]);
        assert(e =~= pre + c);
        assert((pfx + e).last() == c.last());
        assert(body =~= pfx + e + tail);
        lemma_line_breaks_trim_away(tail);
        lemma_occurs_after_trim(pfx, e, tail);
    }
}

proof fn lemma_trimmed_part_settled(x: Seq<char>)
    requires
        trim(x).len() > 0,
    ensures
        !is_white_space(trim(x)[0]),
        !is_white_space(trim(x).last()),
        truncated(trim(x), 120).len() > 0,
        !is_white_space(truncated(trim(x), 120)[0]),
        !is_white_space(truncated(trim(x), 120).last()),
{
    lemma_trim_idempotent(x);
    lemma_settled_ends(trim(x));
    lemma_truncated_ends_settled(trim(x));
    let t = trim(x);
    if t.len() > 120 {
        reveal_strlit("...");
        assert(truncated(t, 120)[0] == t[0]);
    }
}

/// No part of a compacted report is blank: the header, each detail line
/// and the location each begin and end with a character other than white
/// space, blank lines of the report being passed over.
pub proof fn law_compacted_parts_not_blank(block: Seq<char>)
    ensures
        forall|k: int|
            0 <= k < compacted_parts(block).len() ==> (#[trigger] compacted_parts(block)[k]).len()
                > 0 && !is_white_space(compacted_parts(block)[k][0]) && !is_white_space(
                compacted_parts(block)[k].last(),
            ),
{
    let ls = keep_non_blank(lines(block));
    if ls.len() > 0 {
        law_compaction_list_form(block);
        lemma_kept_lines_not_blank(lines(block));
        let xs = ls.skip(1);
        lemma_detail_lines_origin(xs);
        lemma_last_location_origin(xs);
        let parts = listed_parts(ls);
        let d = detail_lines(xs);
        let f = first_n(d, 3);
        let loc = last_location(xs);
        assert forall|k: int| 0 <= k < parts.len() implies (#[trigger] parts[k]).len() > 0
            && !is_white_space(parts[k][0]) && !is_white_space(parts[k].last()) by {
            if k == 0 {
                assert(ls[0] == keep_non_blank(lines(block))[0]);
                lemma_trimmed_part_settled(ls[0]);
            } else if k <= f.len() {
                assert(parts[k] == f[k - 1]);
                assert(f[k - 1] == d[k - 1]);
                assert(shown_detail_of(xs, d[k - 1]));
                let j = choose|j: int|
                    #![trigger xs[j]]
                    0 <= j < xs.len() && !names_project_file(trim(xs[j])) && !starts_with(
                        trim(xs[j]),
                        "stacktrace:"@,
                    ) && d[k - 1] == truncated(trim(xs[j]), 120);
                assert(xs[j] == ls[j + 1]);
                lemma_trimmed_part_settled(xs[j]);
            } else {
                assert(loc.len() > 0);
                assert(parts[k] == loc);
                let m = choose|m: int|
                    #![trigger xs[m]]
                    0 <= m < xs.len() && names_project_file(trim(xs[m])) && loc == trim(xs[m])
                        && forall|i: int|
                        m < i < xs.len() ==> !names_project_file(trim(#[trigger] xs[i]));
                lemma_trimmed_part_settled(xs[m]);
            }
        }
    }
}

/// What follows the entry of the `k`th listed failure (counted from 0) of
/// `n` in a report: a blank line and the next entry's number and mark, a
/// blank line and the note on the failures left out, or nothing, at the
/// end of the report.
pub open spec fn after_entry(n: int, k: int) -> Seq<char> {
    if k + 1 < n && k < 4 {
        "\n\n"@ + decimal((k + 2) as nat) + ". ❌"@
    } else if k == 4 && n > 5 {
        "\n\n... +"@
    } else {
        seq![]
    }
}

/// Each of the first five failures of a run with failures is listed in full
/// in its report: its number, a cross mark and its compacted report (the
/// header, up to three detail lines and the file location), followed by a
/// blank line and the next entry, or by a blank line and the note on the
/// failures left out; the last entry ends the report. Only an entry that
/// ends the report and whose failure report is blank is left out, as the
/// report is trimmed.
pub proof fn law_listed_failures_are_compacted(
    summary_line: Seq<char>,
    failures: Seq<Seq<char>>,
    clean: Seq<char>,
    duration: Option<Seq<char>>,
    k: int,
)
    requires
        summary_line.len() > 0,
        summary_counts(summary_line).1 > 0,
        0 <= k < failures.len(),
        k < 5,
    ensures
        after_entry(failures.len() as int, k).len() > 0 || keep_non_blank(
            lines(failures[k]),
        ).len() > 0 ==> exists|p: int|
            #[trigger] occurs_at(
                report(summary_line, failures, clean, duration),
                decimal((k + 1) as nat) + ". ❌ "@ + compacted(failures[k]) + after_entry(
                    failures.len() as int,
                    k,
                ),
                p,
            ) && (after_entry(failures.len() as int, k).len() == 0 ==> p + (decimal(
                (k + 1) as nat,
            ) + ". ❌ "@ + compacted(failures[k])).len() == report(
                summary_line,
                failures,
                clean,
                duration,
            ).len()),
{
    let n = failures.len() as int;
    let after = after_entry(n, k);
    if after.len() > 0 || keep_non_blank(lines(failures[k])).len() > 0 {
        reveal_strlit("mix test: ");
        let (tests, fails) = summary_counts(summary_line);
        let hp = failure_heading(tests, fails, duration) + "\nFailures:\n"@;
        assert(hp[0] == 'm');
        let l = listed_count(n);
        let body = hp + failure_entries(failures, l) + overflow_note(n);
        assert(report(summary_line, failures, clean, duration) == trim(body));
        lemma_entry_placed(hp, failures, k);
    }
}


/// A run with more than five failure reports lists the first five, and its
/// report ends with a note on how many more there were, after a blank line:
/// `... +N more failures`.
pub proof fn law_overflow_note_counts_the_rest(
    summary_line: Seq<char>,
    failures: Seq<Seq<char>>,
    clean: Seq<char>,
    duration: Option<Seq<char>>,
)
    requires
        summary_line.len() > 0,
        summary_counts(summary_line).1 > 0,
        failures.len() > 5,
    ensures
        exists|p: int|
            #[trigger] occurs_at(
                report(summary_line, failures, clean, duration),
                "\n\n... +"@ + decimal((failures.len() - 5) as nat) + " more failures"@,
                p,
            ) && p + ("\n\n... +"@ + decimal((failures.len() - 5) as nat)
                + " more failures"@).len() == report(summary_line, failures, clean, duration).len(),
{
    reveal_strlit("mix test: ");
    reveal_strlit("\n");
    reveal_strlit("\n\n... +");
    reveal_strlit("\n... +");
    reveal_strlit(" more failures");
    reveal_strlit(" more failures\n");
    let n = failures.len() as int;
    let (tests, fails) = summary_counts(summary_line);
    let hp = failure_heading(tests, fails, duration) + "\nFailures:\n"@;
    assert(hp[0] == 'm');
    let d = decimal((n - 5) as nat);
    let note = overflow_note(n);
    assert(note =~= "\n... +"@ + d + " more failures\n"@);
    let pre = decimal(5) + ". ❌ "@;
    let c = compacted(failures[4]);
    assert(failure_entry(failures, 4) =~= pre + c + "\n"@);
    let a = hp + failure_entries(failures, 4) + pre + c;
    let e = "\n\n... +"@ + d + " more failures"@;
    let body = hp + failure_entries(failures, 5) + note;
    assert(body =~= a + e + "\n"@);
    assert((a + e)[0] == hp[0]);
    assert((a + e).last() == 's');
    assert(report(summary_line, failures, clean, duration) == trim(body));
    lemma_line_breaks_trim_away("\n"@);
    lemma_occurs_after_trim(a, e, "\n"@);
}

/// `kind` is `failure` or `error`, each letter in either case.
pub open spec fn failure_kind(kind: Seq<char>) -> bool {
    ||| kind.len() == 7 && forall|i: int|
        0 <= i < 7 ==> #[trigger] kind[i] == "failure"@[i] || kind[i] == "FAILURE"@[i]
    ||| kind.len() == 5 && forall|i: int|
        0 <= i < 5 ==> #[trigger] kind[i] == "error"@[i] || kind[i] == "ERROR"@[i]
}

/// The lines that mark out ExUnit's output are recognized in the forms it
/// writes them: `Finished in` and `Randomized with seed` followed by a
/// number, and the header of a failure report: a number and a closing
/// parenthesis after any indentation, at least one space, `failure` or
/// `error` in either case, any number of spaces and a colon, such as
/// `  1) failure: test greets the world (MyApp.GreeterTest)` or
/// `12) ERROR : test boots (MyApp.AppTest)`.
pub proof fn law_marker_lines_recognized(
    n: nat,
    indent: nat,
    gap: nat,
    kind: Seq<char>,
    pad: nat,
    rest: Seq<char>,
)
    requires
        gap >= 1,
        failure_kind(kind),
    ensures
        is_finished_line("Finished in "@ + decimal(n) + rest),
        is_seed_line("Randomized with seed "@ + decimal(n) + rest),
        matches_failure_header(spaces(indent) + decimal(n) + ")"@ + spaces(gap) + kind + spaces(
            pad,
        ) + ":"@ + rest),
{
    reveal_strlit("Finished in ");
    reveal_strlit("Randomized with seed ");
    reveal_strlit(")");
    reveal_strlit(":");
    reveal_strlit("failure");
    reveal_strlit("FAILURE");
    reveal_strlit("error");
    reveal_strlit("ERROR");
    let d = decimal(n);
    lemma_decimal_reads_back(n);
    assert(is_ascii_digit(d[0]));
    let f1 = "Finished in "@ + d + rest;
    assert(f1.take(12) =~= "Finished in "@);
    assert(f1[12] == d[0]);
    let f2 = "Randomized with seed "@ + d + rest;
    assert(f2.take(21) =~= "Randomized with seed "@);
    assert(f2[21] == d[0]);
    let s = spaces(indent) + d + ")"@ + spaces(gap) + kind + spaces(pad) + ":"@ + rest;
    let a = indent as int;
    let b = a + d.len();
    let c = b + 1 + gap;
    let e = c + kind.len();
    let f = e + pad;
    assert forall|i: int| 0 <= i < a implies is_white_space(#[trigger] s[i]) by {
        assert(s[i] == spaces(indent)[i]);
    }
    assert forall|i: int| a <= i < b implies is_decimal_digit(#[trigger] s[i]) by {
        assert(s[i] == d[i - a]);
        assert(is_ascii_digit(d[i - a]));
    }
    assert(s[a] == d[0]);
    assert(s[b] == ')');
    assert forall|i: int| b + 1 <= i < c implies is_white_space(#[trigger] s[i]) by {
        assert(s[i] == spaces(gap)[i - b - 1]);
    }
    assert forall|i: int| 0 <= i < kind.len() implies s[c + i] == #[trigger] kind[i] by {}
    assert forall|i: int| e <= i < f implies is_white_space(#[trigger] s[i]) by {
        assert(s[i] == spaces(pad)[i - e]);
    }
    assert(s[f] == ':');
    assert(!is_white_space(kind[0]));
    lemma_ws_run_exact(s, 0, a);
    lemma_digit_run_exact(s, a, b);
    lemma_ws_run_exact(s, b + 1, c);
    lemma_ws_run_exact(s, e, f);
    if kind.len() == 7 {
        assert forall|i: int| 0 <= i < 7 implies ascii_lower(#[trigger] s[c + i]) == "failure"@[i] by {
            assert(s[c + i] == kind[i]);
        }
        assert(occurs_at_ignoring_case(s, "failure"@, c));
    } else {
        assert(s[c] == kind[0]);
        assert(ascii_lower(s[c]) == 'e');
        assert(!occurs_at_ignoring_case(s, "failure"@, c));
        assert forall|i: int| 0 <= i < 5 implies ascii_lower(#[trigger] s[c + i]) == "error"@[i] by {
            assert(s[c + i] == kind[i]);
        }
        assert(occurs_at_ignoring_case(s, "error"@, c));
    }
}

/// A run with failures is reported under a heading that gives the counts
/// of its summary line and the run time where one is shown, then a rule;
/// where failure reports were collected, a blank line, `Failures:` and the
/// first entry follow.
pub proof fn law_failure_report_heading(
    summary_line: Seq<char>,
    failures: Seq<Seq<char>>,
    clean: Seq<char>,
    duration: Option<Seq<char>>,
)
    requires
        summary_line.len() > 0,
        summary_counts(summary_line).1 > 0,
    ensures
        starts_with(
            report(summary_line, failures, clean, duration),
            "mix test: "@ + decimal(summary_counts(summary_line).0 as nat) + " tests, "@ + decimal(
                summary_counts(summary_line).1 as nat,
            ) + " failures"@ + (match duration {
                Some(d) => " ("@ + d + ")"@,
                None => seq![],
            }) + "\n═══════════════════════════════════════"@,
        ),
        failures.len() > 0 ==> starts_with(
            report(summary_line, failures, clean, duration),
            "mix test: "@ + decimal(summary_counts(summary_line).0 as nat) + " tests, "@ + decimal(
                summary_counts(summary_line).1 as nat,
            ) + " failures"@ + (match duration {
                Some(d) => " ("@ + d + ")"@,
                None => seq![],
            }) + "\n═══════════════════════════════════════"@ + "\n\nFailures:\n1. ❌"@,
        ),
{
    reveal_strlit("mix test: ");
    reveal_strlit("\n═══════════════════════════════════════");
    reveal_strlit("═══════════════════════════════════════");
    reveal_strlit("\n\nFailures:\n1. ❌");
    reveal_strlit("\nFailures:\n");
    reveal_strlit("\n");
    reveal_strlit(". ❌ ");
    reveal_strlit("1. ❌ ");
    reveal_strlit(" ");
    let (tests, fails) = summary_counts(summary_line);
    let a = "mix test: "@ + decimal(tests as nat) + " tests, "@ + decimal(fails as nat)
        + " failures"@ + duration_suffix(duration) + "\n═══════════════════════════════════════"@;
    let heading = failure_heading(tests, fails, duration);
    assert(heading =~= a + "\n"@);
    assert(a[0] == 'm');
    assert(a.last() == '═');
    let r = report(summary_line, failures, clean, duration);
    if failures.len() == 0 {
        assert(r == trim(heading));
        lemma_trim_heading(a, "\n"@);
    } else {
        let l = listed_count(failures.len() as int);
        lemma_entries_prefix(failures, 0, l);
        lemma_entries_from_front(failures, 0, l);
        let a2 = a + "\n\nFailures:\n1. ❌"@;
        let b2 = " "@ + compacted(failures[0]) + "\n"@ + "\n"@ + entries_from(failures, 1, l)
            + overflow_note(failures.len() as int);
        assert(decimal(1) =~= seq!['1']);
        assert(failure_entry(failures, 0) =~= "1. ❌ "@ + compacted(failures[0]) + "\n"@ + "\n"@);
        assert(failure_entries(failures, 0) == Seq::<char>::empty());
        assert("\n"@ + "\nFailures:\n"@ + "1. ❌ "@ =~= "\n\nFailures:\n1. ❌"@ + " "@);
        let body = heading + "\nFailures:\n"@ + failure_entries(failures, l) + overflow_note(
            failures.len() as int,
        );
        assert(r == trim(body));
        assert(body =~= a2 + b2);
        assert(a2[0] == 'm');
        assert(a2.last() == '❌');
        lemma_trim_heading(a2, b2);
        assert(r.take(a.len() as int) =~= a);
        assert(r.take(a2.len() as int) =~= a2);
        return;
    }
    assert(r.take(a.len() as int) =~= a);
}

proof fn lemma_word_run_exact(s: Seq<char>, i: int, j: int)
    requires
        0 <= i <= j <= s.len(),
        forall|k: int| i <= k < j ==> !is_white_space(#[trigger] s[k]),
        j < s.len() ==> is_white_space(s[j]),
    ensures
        word_run(s, i) == j - i,
    decreases j - i,
{
    if i < j {
        lemma_word_run_exact(s, i + 1, j);
    }
}

/// The run time shown is the word after `Finished in ` on the first line
/// that begins with it once trimmed: for `Finished in 0.05 seconds` it is
/// `0.05`, as ExUnit printed it.
pub proof fn law_run_time_is_the_word_after_finished_in(
    ls: Seq<Seq<char>>,
    j: int,
    word: Seq<char>,
    tail: Seq<char>,
)
    requires
        0 <= j < ls.len(),
        forall|i: int| 0 <= i < j ==> !starts_with(trim(#[trigger] ls[i]), "Finished in "@),
        trim(ls[j]) == "Finished in "@ + word + tail,
        word.len() > 0,
        forall|k: int| 0 <= k < word.len() ==> !is_white_space(#[trigger] word[k]),
        tail.len() > 0 ==> is_white_space(tail[0]),
    ensures
        duration_word_in_lines(ls) == Some(word),
    decreases j,
{
    reveal_strlit("Finished in ");
    if j == 0 {
        let t = trim(ls[0]);
        assert(t.take(12) =~= "Finished in "@);
        let s = t.skip(12);
        assert(s =~= word + tail);
        assert(s[0] == word[0]);
        assert(ws_run(s, 0) == 0);
        assert forall|k: int| 0 <= k < word.len() implies !is_white_space(#[trigger] s[k]) by {
            assert(s[k] == word[k]);
        }
        if word.len() < s.len() {
            assert(s[word.len() as int] == tail[0]);
        }
        lemma_word_run_exact(s, 0, word.len() as int);
        assert(s.subrange(0, word.len() as int) =~= word);
    } else {
        assert(!starts_with(trim(ls[0]), "Finished in "@));
        assert forall|i: int| 0 <= i < j - 1 implies !starts_with(
            trim(#[trigger] ls.drop_first()[i]),
            "Finished in "@,
        ) by {
            assert(ls.drop_first()[i] == ls[i + 1]);
        }
        law_run_time_is_the_word_after_finished_in(ls.drop_first(), j - 1, word, tail);
    }
}

/// A line that joins the failure report being read: not blank, not a seed,
/// summary or failure header line, and not a stacktrace line into a
/// dependency or the runtime.
pub open spec fn joins_report(line: Seq<char>) -> bool {
    &&& trim(line).len() > 0
    &&& !is_seed_line(trim(line))
    &&& !is_summary_line(trim(line))
    &&& !matches_failure_header(trim(line))
    &&& !matches_deps_backtrace(line)
}

proof fn lemma_body_joins(st: ScanState, body: Seq<Seq<char>>, more: Seq<Seq<char>>)
    requires
        st.phase == Phase::Failures,
        st.current.len() > 0,
        forall|j: int| 0 <= j < body.len() ==> joins_report(#[trigger] body[j]),
    ensures
        scan(st, body + more) == scan(
            ScanState { current: st.current + body, ..st },
            more,
        ),
    decreases body.len(),
{
    if body.len() == 0 {
        assert(body + more =~= more);
        assert(st.current + body =~= st.current);
    } else {
        let line = body[0];
        assert(joins_report(line));
        let next = ScanState { current: st.current.push(line), ..st };
        lemma_trim_idempotent(line);
        assert(matches_deps_backtrace(trim(line)) == matches_deps_backtrace(line));
        assert(scan_step(st, line) == Some(next));
        assert((body + more)[0] == line);
        assert((body + more).drop_first() =~= body.drop_first() + more);
        assert forall|j: int| 0 <= j < body.drop_first().len() implies joins_report(
            #[trigger] body.drop_first()[j],
        ) by {
            assert(body.drop_first()[j] == body[j + 1]);
        }
        lemma_body_joins(next, body.drop_first(), more);
        assert(next.current + body.drop_first() =~= st.current + body);
    }
}

/// A failure report is collected whole: a failure header, read before the
/// summary, followed by lines that each join a report (non-blank, not a
/// seed, summary or header line, and not a stacktrace line into a
/// dependency or the runtime) leaves the scan reading the report made of
/// the trimmed header and every one of those lines, in order and as they
/// are, whatever their length. A blank line after them, or the end of the
/// output, completes exactly that report after the ones before it.
pub proof fn law_reports_keep_their_lines(
    st: ScanState,
    header: Seq<char>,
    body: Seq<Seq<char>>,
    gap: Seq<char>,
)
    requires
        st.phase != Phase::Summary,
        matches_failure_header(trim(header)),
        !is_seed_line(trim(header)),
        !is_summary_line(trim(header)),
        forall|j: int| 0 <= j < body.len() ==> joins_report(#[trigger] body[j]),
    ensures
        scan(st, seq![header] + body).phase == Phase::Failures,
        scan(st, seq![header] + body).failures == flushed(st),
        scan(st, seq![header] + body).current == seq![trim(header)] + body,
        final_failures(scan(st, seq![header] + body)) == flushed(st).push(
            join(seq![trim(header)] + body, "\n"@),
        ),
        trim(gap).len() == 0 ==> scan(st, seq![header] + body + seq![gap]).failures == flushed(
            st,
        ).push(join(seq![trim(header)] + body, "\n"@)),
{
    let t = trim(header);
    if is_finished_line(t) {
        lemma_finished_line_is_no_header(t);
    }
    let first = ScanState {
        phase: Phase::Failures,
        failures: flushed(st),
        current: seq![t],
        summary: st.summary,
    };
    assert(scan_step(st, header) == Some(first));
    let e = Seq::<Seq<char>>::empty();
    assert((seq![header] + body + e)[0] == header);
    assert((seq![header] + body + e).drop_first() =~= body + e);
    assert(seq![header] + body + e =~= seq![header] + body);
    lemma_body_joins(first, body, e);
    let read = ScanState { current: seq![t] + body, ..first };
    assert(scan(read, e) == read);
    assert(scan(st, seq![header] + body) == read);
    if trim(gap).len() == 0 {
        reveal_strlit("Randomized with seed ");
        assert(!is_seed_line(trim(gap)));
        assert(summary_from(trim(gap), 0) is None);
        assert(!is_summary_line(trim(gap)));
        let g = seq![gap];
        assert((seq![header] + body + g)[0] == header);
        assert((seq![header] + body + g).drop_first() =~= body + g);
        lemma_body_joins(first, body, g);
        let done = ScanState { failures: flushed(read), current: e, ..read };
        assert(scan_step(read, gap) == Some(done));
        assert(g.drop_first() =~= e);
        assert(scan(read, g) == scan(done, e));
    }
}


/// The first line of a text.
pub open spec fn first_line(f: Seq<char>) -> Seq<char> {
    lines(f)[0]
}

/// The first line of each report.
pub open spec fn first_lines(fs: Seq<Seq<char>>) -> Seq<Seq<char>> {
    fs.map_values(|f: Seq<char>| first_line(f))
}

/// The failure headers among `ls` before the first summary line, trimmed
/// and in order, seed lines passed over.
pub open spec fn failure_headers(ls: Seq<Seq<char>>) -> Seq<Seq<char>>
    decreases ls.len(),
{
    if ls.len() == 0 {
        seq![]
    } else {
        let t = trim(ls[0]);
        if is_seed_line(t) {
            failure_headers(ls.drop_first())
        } else if is_summary_line(t) {
            seq![]
        } else if matches_failure_header(t) {
            seq![t] + failure_headers(ls.drop_first())
        } else {
            failure_headers(ls.drop_first())
        }
    }
}

/// The state of the scan on the output of `mix test`.
pub open spec fn scanned(output: Seq<char>) -> ScanState {
    scan(initial_scan(), lines(ansi_stripped(output)))
}

spec fn good_head(h: Seq<char>) -> bool {
    h.len() > 0 && free_of(h, '\n') && !is_white_space(h.last())
}

proof fn lemma_join_front(c: Seq<Seq<char>>, sep: Seq<char>)
    requires
        c.len() >= 2,
    ensures
        join(c, sep) == c[0] + sep + join(c.drop_first(), sep),
    decreases c.len(),
{
    if c.len() == 2 {
        assert(c.drop_last() =~= seq![c[0]]);
        assert(c.drop_first() =~= seq![c[1]]);
        assert(join(c.drop_last(), sep) == c[0]);
        assert(join(c.drop_first(), sep) == c[1]);
        assert(join(c, sep) == join(c.drop_last(), sep) + sep + c.last());
    } else {
        lemma_join_front(c.drop_last(), sep);
        assert(c.drop_last().drop_first() =~= c.drop_first().drop_last());
        assert(c.drop_last()[0] == c[0]);
        assert(c.drop_first().last() == c.last());
        assert(join(c, sep) == join(c.drop_last(), sep) + sep + c.last());
        assert(join(c.drop_first(), sep) == join(c.drop_first().drop_last(), sep) + sep
            + c.drop_first().last());
        assert(c[0] + sep + join(c.drop_last().drop_first(), sep) + sep + c.last() =~= c[0] + sep
            + (join(c.drop_first().drop_last(), sep) + sep + c.drop_first().last()));
    }
}

proof fn lemma_first_line_of(a: Seq<char>, r: Seq<char>)
    requires
        good_head(a),
    ensures
        lines(a).len() > 0,
        first_line(a) == a,
        lines(a + seq!['\n'] + r).len() > 0,
        first_line(a + seq!['\n'] + r) == a,
{
    lemma_lines_single(a, 0);
    assert(a.last() != '\r' && a.last() != '\n') by {
        assert(a[a.len() - 1] != '\n');
    }
    lemma_lines_from_before_break(a, r, 0, 0);
}

proof fn lemma_first_line_of_join(c: Seq<Seq<char>>)
    requires
        c.len() > 0,
        good_head(c[0]),
    ensures
        lines(join(c, "\n"@)).len() > 0,
        first_line(join(c, "\n"@)) == c[0],
{
    reveal_strlit("\n");
    if c.len() == 1 {
        lemma_first_line_of(c[0], seq![]);
    } else {
        lemma_join_front(c, "\n"@);
        assert("\n"@ =~= seq!['\n']);
        lemma_first_line_of(c[0], join(c.drop_first(), "\n"@));
    }
}

proof fn lemma_header_is_good(line: Seq<char>)
    requires
        free_of(line, '\n'),
        matches_failure_header(trim(line)),
    ensures
        good_head(trim(line)),
        settled(trim(line)),
{
    let t = trim(line);
    assert(t.len() > 0);
    lemma_trim_free(line, '\n');
    lemma_trim_idempotent(line);
    lemma_settled_ends(t);
}

spec fn heads_ok(st: ScanState) -> bool {
    &&& st.current.len() > 0 ==> good_head(st.current[0])
    &&& forall|k: int| 0 <= k < st.failures.len() ==> lines(#[trigger] st.failures[k]).len() > 0
}

proof fn lemma_flushed_heads(st: ScanState)
    requires
        heads_ok(st),
    ensures
        first_lines(flushed(st)) == if st.current.len() > 0 {
            first_lines(st.failures).push(st.current[0])
        } else {
            first_lines(st.failures)
        },
        forall|k: int| 0 <= k < flushed(st).len() ==> lines(#[trigger] flushed(st)[k]).len() > 0,
{
    if st.current.len() > 0 {
        lemma_first_line_of_join(st.current);
        assert(first_lines(flushed(st)) =~= first_lines(st.failures).push(st.current[0]));
        assert forall|k: int| 0 <= k < flushed(st).len() implies lines(
            #[trigger] flushed(st)[k],
        ).len() > 0 by {
            if k < st.failures.len() {
                assert(flushed(st)[k] == st.failures[k]);
            }
        }
    }
}

proof fn lemma_report_heads(st: ScanState, ls: Seq<Seq<char>>)
    requires
        st.phase != Phase::Summary,
        heads_ok(st),
        forall|j: int| 0 <= j < ls.len() ==> free_of(#[trigger] ls[j], '\n'),
    ensures
        first_lines(flushed(scan(st, ls))) == first_lines(flushed(st)) + failure_headers(ls),
        forall|k: int|
            0 <= k < flushed(scan(st, ls)).len() ==> lines(
                #[trigger] flushed(scan(st, ls))[k],
            ).len() > 0,
    decreases ls.len(),
{
    lemma_flushed_heads(st);
    if ls.len() == 0 {
        assert(first_lines(flushed(st)) + failure_headers(ls) =~= first_lines(flushed(st)));
    } else {
        let line = ls[0];
        let t = trim(line);
        assert(free_of(line, '\n'));
        if is_finished_line(t) {
            lemma_finished_line_is_no_header(t);
        }
        if matches_failure_header(t) {
            lemma_header_is_good(line);
            lemma_lines_single(t, 0);
        }
        assert forall|j: int| 0 <= j < ls.drop_first().len() implies free_of(
            #[trigger] ls.drop_first()[j],
            '\n',
        ) by {
            assert(ls.drop_first()[j] == ls[j + 1]);
        }
        match scan_step(st, line) {
            Some(next) => {
                assert(heads_ok(next)) by {
                    assert forall|k: int| 0 <= k < next.failures.len() implies lines(
                        #[trigger] next.failures[k],
                    ).len() > 0 by {
                        if next.failures.len() == flushed(st).len() && next.failures
                            == flushed(st) {
                            assert(lines(flushed(st)[k]).len() > 0);
                        } else {
                            assert(next.failures == st.failures);
                        }
                    }
                    if next.current.len() > 0 && st.current.len() > 0 && next.current.len()
                        > 1 {
                        assert(next.current[0] == st.current[0]);
                    }
                }
                lemma_flushed_heads(next);
                if next.current.len() > 1 {
                    assert(next.current[0] == st.current[0]);
                }
                if matches_failure_header(t) && !is_seed_line(t) && !is_summary_line(t) {
                    assert(join(seq![t], "\n"@) == t);
                    assert(first_lines(flushed(next)) =~= first_lines(flushed(st)).push(t));
                } else {
                    assert(first_lines(flushed(next)) =~= first_lines(flushed(st)));
                }
                if next.phase == Phase::Summary {
                    law_summary_freezes_failures(next, ls.drop_first());
                    assert(failure_headers(ls) =~= Seq::<Seq<char>>::empty());
                    assert(first_lines(flushed(st)) + failure_headers(ls) =~= first_lines(
                        flushed(st),
                    ));
                } else {
                    lemma_report_heads(next, ls.drop_first());
                    if matches_failure_header(t) && !is_seed_line(t) && !is_summary_line(t) {
                        assert(first_lines(flushed(st)).push(t) + failure_headers(ls.drop_first())
                            =~= first_lines(flushed(st)) + failure_headers(ls));
                    }
                }
            },
            None => {},
        }
    }
}


proof fn lemma_join_starts(parts: Seq<Seq<char>>, sep: Seq<char>)
    requires
        parts.len() > 0,
    ensures
        starts_with(join(parts, sep), parts[0]),
    decreases parts.len(),
{
    if parts.len() > 1 {
        lemma_join_starts(parts.drop_last(), sep);
        let a = join(parts.drop_last(), sep);
        assert(parts.drop_last()[0] == parts[0]);
        assert((a + sep + parts.last()).take(parts[0].len() as int) =~= a.take(
            parts[0].len() as int,
        ));
    } else {
        assert(join(parts, sep).take(parts[0].len() as int) =~= parts[0]);
    }
}

proof fn lemma_keep_first(ls: Seq<Seq<char>>)
    requires
        ls.len() > 0,
        !is_blank(ls[0]),
    ensures
        keep_non_blank(ls).len() > 0,
        keep_non_blank(ls)[0] == ls[0],
    decreases ls.len(),
{
    lemma_trim_empty_iff_blank(ls[0]);
    if ls.len() > 1 {
        assert(ls.drop_last()[0] == ls[0]);
        lemma_keep_first(ls.drop_last());
        let prev = keep_non_blank(ls.drop_last());
        if trim(ls.last()).len() > 0 {
            assert(keep_non_blank(ls)[0] == prev.push(ls.last())[0]);
        }
    } else {
        assert(ls.last() == ls[0]);
        assert(keep_non_blank(ls.drop_last()) == Seq::<Seq<char>>::empty());
        assert(keep_non_blank(ls) == Seq::<Seq<char>>::empty().push(ls[0]));
    }
}

proof fn lemma_failure_headers_settled(ls: Seq<Seq<char>>)
    requires
        forall|j: int| 0 <= j < ls.len() ==> free_of(#[trigger] ls[j], '\n'),
    ensures
        forall|k: int|
            0 <= k < failure_headers(ls).len() ==> settled(#[trigger] failure_headers(ls)[k])
                && good_head(failure_headers(ls)[k]),
    decreases ls.len(),
{
    if ls.len() > 0 {
        assert forall|j: int| 0 <= j < ls.drop_first().len() implies free_of(
            #[trigger] ls.drop_first()[j],
            '\n',
        ) by {
            assert(ls.drop_first()[j] == ls[j + 1]);
        }
        lemma_failure_headers_settled(ls.drop_first());
        let t = trim(ls[0]);
        assert(free_of(ls[0], '\n'));
        if matches_failure_header(t) {
            lemma_header_is_good(ls[0]);
        }
        let rest = failure_headers(ls.drop_first());
        if !is_seed_line(t) && !is_summary_line(t) && matches_failure_header(t) {
            assert forall|k: int| 0 <= k < failure_headers(ls).len() implies settled(
                #[trigger] failure_headers(ls)[k],
            ) && good_head(failure_headers(ls)[k]) by {
                if k > 0 {
                    assert(failure_headers(ls)[k] == rest[k - 1]);
                }
            }
        }
    }
}

/// The failure reports follow the failure headers: among lines without a
/// line break, the `k`th report that the scan collects begins with the
/// `k`th failure header before the summary line, and its compaction begins
/// with that header, trimmed.
pub proof fn law_reports_follow_failure_headers(ls: Seq<Seq<char>>)
    requires
        forall|j: int| 0 <= j < ls.len() ==> free_of(#[trigger] ls[j], '\n'),
    ensures
        final_failures(scan(initial_scan(), ls)).len() == failure_headers(ls).len(),
        first_lines(final_failures(scan(initial_scan(), ls))) == failure_headers(ls),
        forall|k: int|
            0 <= k < failure_headers(ls).len() ==> compacted_parts(
                #[trigger] final_failures(scan(initial_scan(), ls))[k],
            ).len() > 0 && compacted_parts(final_failures(scan(initial_scan(), ls))[k])[0]
                == failure_headers(ls)[k],
{
    let st = initial_scan();
    lemma_flushed_heads(st);
    assert(first_lines(flushed(st)) =~= Seq::<Seq<char>>::empty());
    lemma_report_heads(st, ls);
    assert(Seq::<Seq<char>>::empty() + failure_headers(ls) =~= failure_headers(ls));
    let fs = final_failures(scan(st, ls));
    lemma_failure_headers_settled(ls);
    assert forall|k: int| 0 <= k < failure_headers(ls).len() implies compacted_parts(
        #[trigger] fs[k],
    ).len() > 0 && compacted_parts(fs[k])[0] == failure_headers(ls)[k] by {
        let h = failure_headers(ls)[k];
        assert(first_lines(fs)[k] == h);
        assert(first_line(fs[k]) == h);
        assert(lines(fs[k]).len() > 0);
        assert(settled(h));
        lemma_trim_empty_iff_blank(h);
        lemma_keep_first(lines(fs[k]));
        law_compaction_list_form(fs[k]);
    }
}

/// A run with failures lists its failures item by item in the order of
/// their headers: the report is the heading, `Failures:`, the entries of
/// the first five reports at most, and a note on the rest; there is one
/// report per failure header before the summary line, and the `k`th entry
/// begins with its number, the mark `❌` and the `k`th failure header.
pub proof fn law_items_follow_failure_headers(output: Seq<char>, duration: Option<Seq<char>>)
    requires
        !is_blank(ansi_stripped(output)),
        summary_counts(scanned(output).summary).1 > 0,
    ensures
        final_failures(scanned(output)).len() == failure_headers(
            lines(ansi_stripped(output)),
        ).len(),
        final_failures(scanned(output)).len() > 0 ==> filtered(output, duration) == trim(
            failure_heading(
                summary_counts(scanned(output).summary).0,
                summary_counts(scanned(output).summary).1,
                duration,
            ) + "\nFailures:\n"@ + failure_entries(
                final_failures(scanned(output)),
                listed_count(final_failures(scanned(output)).len() as int),
            ) + overflow_note(final_failures(scanned(output)).len() as int),
        ),
        forall|k: int|
            0 <= k < listed_count(final_failures(scanned(output)).len() as int) ==> starts_with(
                #[trigger] failure_entry(final_failures(scanned(output)), k),
                decimal((k + 1) as nat) + ". ❌ "@ + failure_headers(
                    lines(ansi_stripped(output)),
                )[k],
            ),
{
    let clean = ansi_stripped(output);
    let ls = lines(clean);
    let st = scanned(output);
    let fs = final_failures(st);
    lemma_trim_empty_iff_blank(clean);
    assert forall|j: int| 0 <= j < ls.len() implies free_of(#[trigger] ls[j], '\n') by {
        lemma_lines_free(clean, '\n');
    }
    law_reports_follow_failure_headers(ls);
    assert(st.summary.len() > 0) by {
        if st.summary.len() == 0 {
            assert(summary_from(st.summary, 0) is None);
        }
    }
    assert forall|k: int| 0 <= k < listed_count(fs.len() as int) implies starts_with(
        #[trigger] failure_entry(fs, k),
        decimal((k + 1) as nat) + ". ❌ "@ + failure_headers(ls)[k],
    ) by {
        let h = failure_headers(ls)[k];
        let parts = compacted_parts(fs[k]);
        assert(parts.len() > 0 && parts[0] == h);
        lemma_join_starts(parts, "\n   "@);
        let pre = decimal((k + 1) as nat) + ". ❌ "@;
        let body = compacted(fs[k]);
        let tail: Seq<char> = "\n"@ + (if k < 4 {
            "\n"@
        } else {
            seq![]
        });
        assert(failure_entry(fs, k) =~= pre + body + tail);
        assert((pre + body + tail).take((pre + h).len() as int) =~= pre + body.take(
            h.len() as int,
        ));
    }
}

} // verus!
