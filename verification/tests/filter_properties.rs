use mix_test_filter::ansi::strip_ansi;
use mix_test_filter::duration::duration_word;
use mix_test_filter::filter;
use mix_test_filter::patterns::{is_deps_backtrace, is_failure_header};
use mix_test_filter::report::{
    build_mix_test_summary, compact_failure, fallback_tail, parse_summary, truncate,
};
use mix_test_filter::text::count_tokens;
use regex::Regex;

fn extract_duration(output: &str) -> Option<String> {
    duration_word(output).map(|word| match word.parse::<f64>() {
        Ok(secs) => format!("{:.2}s", secs),
        Err(_) => word,
    })
}

fn filter_mix_test_output(output: &str) -> String {
    let clean = strip_ansi(output);
    filter::filter_mix_test_output(output, extract_duration(&clean))
}

const RULE: &str = "═══════════════════════════════════════";

fn reference_parse_summary(summary: &str) -> (usize, usize) {
    let re = Regex::new(r"(\d+)\s+tests?,\s*(\d+)\s+failures?").unwrap();
    if let Some(caps) = re.captures(summary) {
        let tests: usize = caps.get(1).and_then(|m| m.as_str().parse().ok()).unwrap_or(0);
        let fails: usize = caps.get(2).and_then(|m| m.as_str().parse().ok()).unwrap_or(0);
        (tests, fails)
    } else {
        (0, 0)
    }
}

const SAMPLE_LINES: &[&str] = &[
    "",
    "6 tests, 0 failures",
    "10 tests, 3 failures",
    "1 test, 1 failure",
    "2 doctests, 6 tests, 0 failures",
    "6 tests, 0 failures, 2 excluded",
    "6 tests,0 failures",
    "6  tests,   2   failures",
    "6\ttests,\t2\tfailures",
    "6tests, 0 failures",
    "6 tests 0 failures",
    "6 test, 0 failure",
    "6 testss, 0 failures",
    "6 tests, failures",
    "a6 tests, 7 failures",
    "x 12 tests, 34 failures y",
    "٣ tests, ٤ failures",
    "3 tests, ٤ failures",
    "99999999999999999999999 tests, 1 failure",
    "1 tests, 2 failures and 3 tests, 4 failures",
    "1) failure: test greets the world (MyApp.GreeterTest)",
    "  1) failure: test x",
    "1) FAILURE: test x",
    "12) Error : boom",
    "1)failure: x",
    "1) failures: x",
    "1) error x",
    "  \u{2003}7)\u{3000}error\t:",
    "1 ) failure: x",
    "Finished in 0.05 seconds",
    "Randomized with seed 584732",
    "\u{a0}3) failure: nbsp",
];

#[test]
fn parse_summary_agrees_with_the_summary_pattern() {
    for line in SAMPLE_LINES {
        assert_eq!(parse_summary(line), reference_parse_summary(line), "line {:?}", line);
    }
}

#[test]
fn failure_header_agrees_with_the_header_pattern() {
    let re = Regex::new(r"(?i)^\s*\d+\)\s+(?:failure|error)\s*:").unwrap();
    for line in SAMPLE_LINES {
        assert_eq!(is_failure_header(line), re.is_match(line), "line {:?}", line);
    }
}

#[test]
fn parse_summary_edge_cases() {
    assert_eq!(parse_summary("2 doctests, 6 tests, 0 failures"), (6, 0));
    assert_eq!(parse_summary("٣ tests, 0 failures"), (0, 0));
    assert_eq!(parse_summary("99999999999999999999999 tests, 1 failure"), (0, 1));
    assert_eq!(parse_summary("6 tests 0 failures"), (0, 0));
}

#[test]
fn summary_counts_read_back() {
    for (t, f) in [(0usize, 0usize), (6, 1), (10, 3), (123456, 789), (usize::MAX, 7)] {
        let line = format!("{} tests, {} failures", t, f);
        assert_eq!(parse_summary(&line), (t, f));
    }
}

#[test]
fn deps_backtrace_lines() {
    assert!(is_deps_backtrace("(elixir) lib/enum.ex:123: Enum.map/2"));
    assert!(is_deps_backtrace("   (ex_unit) lib/ex_unit/runner.ex:1: x"));
    assert!(is_deps_backtrace("(ecto) /deps/ecto/lib/ecto/repo.ex:45: Ecto.Repo.all/2"));
    assert!(is_deps_backtrace("lib/ex_unit/case.ex:10"));
    assert!(is_deps_backtrace("(stdlib) gen_server.erl:1"));
    assert!(!is_deps_backtrace("(my_app) lib/my_app/worker.ex:42: MyApp.Worker.run/1"));
    assert!(!is_deps_backtrace("test/my_test.exs:6: (test)"));
    assert!(!is_deps_backtrace("(elixir lib/enum.ex"));
    assert!(!is_deps_backtrace(""));
}

#[test]
fn strip_ansi_removes_colour_codes() {
    assert_eq!(strip_ansi("\x1b[32mok\x1b[0m"), "ok");
    assert_eq!(strip_ansi("\x1b[1;31mred\x1b[m!"), "red!");
    assert_eq!(strip_ansi("plain text"), "plain text");
    assert_eq!(strip_ansi("\x1b[12"), "\x1b[12");
    assert_eq!(strip_ansi("\x1b\x1b[0m["), "\x1b[");
}

#[test]
fn duration_word_is_read_from_the_first_finished_line() {
    assert_eq!(duration_word("Finished in 0.05 seconds"), Some("0.05".to_string()));
    assert_eq!(
        duration_word("x\n  Finished in 1.5 seconds\nFinished in 9 seconds"),
        Some("1.5".to_string())
    );
    assert_eq!(duration_word("Finished in   2.5s (0.1s async)"), Some("2.5s".to_string()));
    assert_eq!(duration_word("Finished in 1e3 seconds"), Some("1e3".to_string()));
    assert_eq!(duration_word("Finished in "), None);
    assert_eq!(duration_word("no duration here"), None);
    assert_eq!(duration_word(""), None);
}

#[test]
fn shown_duration_is_the_floating_point_value() {
    let d = |s: &str| extract_duration(&format!("Finished in {} seconds", s));
    assert_eq!(d("1e3"), Some("1000.00s".to_string()));
    assert_eq!(d("1.005"), Some("1.00s".to_string()));
    assert_eq!(d("abc"), Some("abc".to_string()));
    let out = "Finished in 1E-2 seconds\n3 tests, 0 failures\n";
    assert_eq!(filter_mix_test_output(out), "✓ mix test: 3 tests, 0 failures (0.01s)");
    let r = build_mix_test_summary("3 tests, 0 failures", &[], "", Some("7.25s".to_string()));
    assert_eq!(r, "✓ mix test: 3 tests, 0 failures (7.25s)");
}

#[test]
fn truncate_marks_the_cut() {
    assert_eq!(truncate("hello", 10), "hello");
    assert_eq!(truncate("hello", 5), "hello");
    assert_eq!(truncate("hello world", 8), "hello...");
    assert_eq!(truncate("hello", 2), "...");
    let long = "x".repeat(130);
    assert_eq!(truncate(&long, 120).chars().count(), 120);
}

#[test]
fn compact_failure_keeps_header_three_lines_and_location() {
    let block = "1) failure: test a (T)\n     test/a_test.exs:5\n     l1\n\n     l2\n     l3\n     l4\n     stacktrace:\n       lib/a.ex:9: f/1";
    assert_eq!(
        compact_failure(block),
        "1) failure: test a (T)\n   l1\n   l2\n   l3\n   lib/a.ex:9: f/1"
    );
    assert_eq!(compact_failure("   \n\t\n"), "");
    let long = format!("h\n{}", "y".repeat(200));
    assert_eq!(compact_failure(&long), format!("h\n   {}...", "y".repeat(117)));
}

#[test]
fn fallback_tail_keeps_last_lines() {
    assert_eq!(fallback_tail("a\nb\nc\nd\ne\nf\ng", 5), "c\nd\ne\nf\ng");
    assert_eq!(fallback_tail("a\nb", 5), "a\nb");
    assert_eq!(fallback_tail("", 5), "");
}

#[test]
fn blank_output_reports_no_output() {
    assert_eq!(filter_mix_test_output("  \n\t\n"), "mix test: No output");
    assert_eq!(filter_mix_test_output("\x1b[0m\n\x1b[32m  \x1b[0m"), "mix test: No output");
}

#[test]
fn unrecognized_output_falls_back_to_last_five_lines() {
    let out = "l1\nl2\nl3\nl4\nl5\nl6\nl7\n";
    assert_eq!(filter_mix_test_output(out), "l3\nl4\nl5\nl6\nl7");
    assert_eq!(filter_mix_test_output("some unrecognized output\nmore lines"), "some unrecognized output\nmore lines");
}

#[test]
fn passing_run_is_one_line() {
    let out = "......\n\nFinished in 0.05 seconds\n6 tests, 0 failures\n";
    assert_eq!(filter_mix_test_output(out), "✓ mix test: 6 tests, 0 failures (0.05s)");
    let no_time = "6 tests, 0 failures\n";
    assert_eq!(filter_mix_test_output(no_time), "✓ mix test: 6 tests, 0 failures");
}

#[test]
fn failing_run_exact_report() {
    let output = "\
.E....

  1) error: test something (MyApp.UserTest)
     test/user_test.exs:10
     ** (RuntimeError) something went wrong
     stacktrace:
       test/user_test.exs:11: (test)

Finished in 0.12 seconds
6 tests, 1 failures
";
    let expected = format!(
        "mix test: 6 tests, 1 failures (0.12s)\n{}\n\nFailures:\n1. ❌ 1) error: test something (MyApp.UserTest)\n   ** (RuntimeError) something went wrong\n   test/user_test.exs:11: (test)",
        RULE
    );
    assert_eq!(filter_mix_test_output(output), expected);
}

#[test]
fn failures_without_reports_show_heading_only() {
    let out = "Finished in 1 seconds\n3 tests, 2 failures\n";
    assert_eq!(
        filter_mix_test_output(out),
        format!("mix test: 3 tests, 2 failures (1.00s)\n{}", RULE)
    );
}

#[test]
fn seed_lines_change_nothing() {
    let base = "  1) failure: test a (T)\n     boom\n\nFinished in 0.1 seconds\n1 tests, 1 failures\n";
    let with_seed = "Randomized with seed 1\n  1) failure: test a (T)\nRandomized with seed 2\n     boom\n\nFinished in 0.1 seconds\nRandomized with seed 3\n1 tests, 1 failures\nRandomized with seed 4\n";
    assert_eq!(filter_mix_test_output(base), filter_mix_test_output(with_seed));
}

#[test]
fn lines_after_the_summary_add_no_failure() {
    let out = "  1) failure: test a (T)\n     boom\n\n1 tests, 1 failures\nother\n  2) failure: test b (T)\n     bang\n";
    let result = filter_mix_test_output(out);
    assert!(result.contains("test a"));
    assert!(!result.contains("test b"));
}

#[test]
fn report_open_at_the_summary_line_is_kept() {
    let out = "  1) failure: test a (T)\n     boom\n1 tests, 1 failures\n";
    assert_eq!(
        filter_mix_test_output(out),
        format!("mix test: 1 tests, 1 failures\n{}\n\nFailures:\n1. ❌ 1) failure: test a (T)\n   boom", RULE)
    );
}

#[test]
fn lines_outside_reports_form_no_failure() {
    let mut out = String::new();
    for i in 1..=6 {
        out.push_str(&format!("  {}) failure: test {} (T)\n     boom\n\n", i, i));
    }
    out.push_str("Compiling 15 files (.ex)\nGenerated my_app app\n\nFinished in 0.891 seconds\n20 tests, 6 failures\n");
    let result = filter_mix_test_output(&out);
    assert_eq!(result.matches('❌').count(), 5);
    assert!(result.ends_with("... +1 more failures"), "{}", result);
    assert!(!result.contains("Compiling"));
    assert!(!result.contains("Finished"));
}

#[test]
fn report_open_at_end_of_output_is_kept() {
    let out = "1 tests, 1 failures\n";
    let summary = build_mix_test_summary("1 tests, 1 failures", &["1) failure: test z\n  oops".to_string()], out, None);
    assert_eq!(
        summary,
        format!("mix test: 1 tests, 1 failures\n{}\n\nFailures:\n1. ❌ 1) failure: test z\n   oops", RULE)
    );
}

#[test]
fn overflow_note_counts_the_rest() {
    let failures: Vec<String> = (1..=8).map(|i| format!("{}) failure: t{}", i, i)).collect();
    let r = build_mix_test_summary("8 tests, 8 failures", &failures, "8 tests, 8 failures", None);
    assert_eq!(r.matches('❌').count(), 5);
    assert!(r.ends_with("5. ❌ 5) failure: t5\n\n... +3 more failures"));
    assert!(!r.contains("t6"));
}

#[test]
fn build_summary_without_summary_line() {
    assert_eq!(build_mix_test_summary("", &[], "", None), "mix test: No output");
    assert_eq!(build_mix_test_summary("", &[], "a\nb", None), "a\nb");
}

#[test]
fn count_tokens_counts_words() {
    assert_eq!(count_tokens(""), 0);
    assert_eq!(count_tokens("  a  bb\tc\n"), 3);
    assert_eq!(count_tokens("one"), 1);
}

#[test]
fn compaction_is_idempotent() {
    let block = "1) failure: test a (T)\n     test/a_test.exs:5\n     l1\n\n     l2\n     stacktrace:\n       lib/a.ex:9: f/1";
    let once = compact_failure(block);
    assert_eq!(compact_failure(&once), once);
    let parts: Vec<&str> = once.split("\n   ").collect();
    assert!(parts.len() <= 5);
    assert!(parts.iter().skip(1).all(|p| !p.starts_with("stacktrace:")));
}

#[test]
fn report_restates_summary_counts() {
    let failures = vec!["1) failure: t1\n boom".to_string()];
    for line in ["7 tests, 2 failures", "1 test, 0 failure", "2 doctests, 9 tests, 3 failures, 1 excluded"] {
        let r = build_mix_test_summary(line, &failures, line, Some("0.10s".to_string()));
        assert_eq!(parse_summary(&r), parse_summary(line), "{}", r);
    }
    assert_eq!(parse_summary("mix test: 12 tests, 4 failures"), (12, 4));
}

#[test]
fn one_entry_per_failure_header() {
    let out = "  1) failure: a\n  x\n\nstray line\n  2) error: b\n  y\n\n3 tests, 2 failures\n";
    let result = filter_mix_test_output(out);
    assert_eq!(result.matches('❌').count(), 2);
    assert!(!result.contains("stray"));
}

#[test]
fn items_follow_failure_headers_in_order() {
    let mut out = String::new();
    for i in 1..=7 {
        out.push_str(&format!("  {}) failure: test n{} (T)\n     boom{}\n\n", i, i, i));
    }
    out.push_str("7 tests, 7 failures\n");
    let result = filter_mix_test_output(&out);
    for i in 1..=5 {
        assert!(result.contains(&format!("{}. ❌ {}) failure: test n{} (T)", i, i, i)));
    }
    assert!(!result.contains("test n6"));
    assert!(result.ends_with("... +2 more failures"));
}

#[test]
fn compaction_in_list_form() {
    let block = "\n  1) failure: h\n  d1\n  test/x_test.exs:1\n  stacktrace:\n  d2\n  d3\n  d4\n  lib/y.ex:2\n";
    assert_eq!(
        compact_failure(block),
        "1) failure: h\n   d1\n   d2\n   d3\n   lib/y.ex:2"
    );
}
