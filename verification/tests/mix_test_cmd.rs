use mix_test_filter::ansi::strip_ansi;
use mix_test_filter::duration::duration_word;
use mix_test_filter::filter;
use mix_test_filter::report::parse_summary;
use mix_test_filter::text::count_tokens;

/// The run time as `mix test` output is shown: seconds with two decimals.
fn extract_duration(output: &str) -> Option<String> {
    duration_word(output).map(|word| match word.parse::<f64>() {
        Ok(secs) => format!("{:.2}s", secs),
        Err(_) => word,
    })
}

/// The filtered output, with the run time shown as seconds.
fn filter_mix_test_output(output: &str) -> String {
    let clean = strip_ansi(output);
    filter::filter_mix_test_output(output, extract_duration(&clean))
}

#[test]
fn test_filter_mix_test_all_pass() {
    let output = "\
......

Finished in 0.05 seconds
2 doctests, 6 tests, 0 failures

Randomized with seed 584732
";

    let result = filter_mix_test_output(output);
    assert!(result.starts_with("✓ mix test:"));
    assert!(result.contains("6 tests"));
    assert!(result.contains("0 failures"));
}

#[test]
fn test_filter_mix_test_with_failures() {
    let output = "\
..F...

  1) failure: test greets the world (MyApp.GreeterTest)
     test/my_app/greeter_test.exs:5
     Assertion with == failed
     code:  assert Greeter.greet() == \"hello\"
     left:  \"hi\"
     right: \"hello\"
     stacktrace:
       test/my_app/greeter_test.exs:6: (test)

Finished in 0.08 seconds
2 doctests, 6 tests, 1 failures
";

    let result = filter_mix_test_output(output);
    assert!(result.contains("1 failures"));
    assert!(result.contains("❌"));
    assert!(result.contains("greeter_test.exs"));
    assert!(result.contains("test greets the world"));
}

#[test]
fn test_filter_mix_test_with_error() {
    let output = "\
.E....

  1) error: test something (MyApp.UserTest)
     test/user_test.exs:10
     ** (RuntimeError) something went wrong
     stacktrace:
       test/user_test.exs:11: (test)

Finished in 0.12 seconds
6 tests, 1 failures
";

    let result = filter_mix_test_output(output);
    assert!(result.contains("1 failures"));
    assert!(result.contains("❌"));
    assert!(result.contains("RuntimeError"));
}

#[test]
fn test_filter_mix_test_empty() {
    let result = filter_mix_test_output("");
    assert_eq!(result, "mix test: No output");
}

#[test]
fn test_filter_mix_test_multiple_failures() {
    let output = "\
.FF...

  1) failure: test alpha (MyApp.AlphaTest)
     test/alpha_test.exs:5
     Assertion with == failed
     code:  assert 1 == 2
     stacktrace:
       test/alpha_test.exs:6: (test)

  2) failure: test beta (MyApp.BetaTest)
     test/beta_test.exs:10
     Assertion with == failed
     code:  assert \"a\" == \"b\"
     stacktrace:
       test/beta_test.exs:11: (test)

Finished in 0.15 seconds
6 tests, 2 failures

Randomized with seed 123456
";

    let result = filter_mix_test_output(output);
    assert!(result.contains("2 failures"));
    assert!(result.contains("test alpha"));
    assert!(result.contains("test beta"));
}

#[test]
fn test_filter_mix_test_many_failures_caps_at_five() {
    let mut output = String::from("FFFFFF\n\n");
    for i in 1..=7u8 {
        output.push_str(&format!(
            "  {i}) failure: test {i} (MyApp.Test{i})\n\
test/test_{i}.exs:{line}\n\
Assertion failed\n\
stacktrace:\n\
test/test_{i}.exs:{next}: (test)\n\n",
            i = i,
            line = i as usize * 5,
            next = i as usize * 5 + 1
        ));
    }
    output.push_str("Finished in 0.3 seconds\n7 tests, 7 failures\n");

    let result = filter_mix_test_output(&output);
    assert!(result.contains("1. ❌"), "should show first failure");
    assert!(result.contains("5. ❌"), "should show fifth failure");
    assert!(!result.contains("6. ❌"), "should not show sixth inline");
    assert!(result.contains("+2 more"), "should show overflow: {}", result);
}

#[test]
fn test_filter_mix_test_ansi() {
    let output = "\x1b[32m......\x1b[0m\n\n\
         \x1b[32mFinished in 0.05 seconds\x1b[0m\n\
         6 tests, 0 failures\n\n\
         Randomized with seed 123\n";
    let result = filter_mix_test_output(output);
    assert!(result.contains("✓ mix test:"));
    assert!(result.contains("6 tests"));
}

#[test]
fn test_filter_mix_test_strips_deps_backtrace() {
    let output = "\
F

  1) failure: test something (MyApp.Test)
     test/my_test.exs:5
     Assertion failed
     stacktrace:
       (elixir) lib/enum.ex:123: Enum.map/2
       (ecto) /deps/ecto/lib/ecto/repo.ex:45: Ecto.Repo.all/2
       (my_app) lib/my_app/worker.ex:42: MyApp.Worker.run/1
       test/my_test.exs:6: (test)

Finished in 0.1 seconds
1 tests, 1 failures
";

    let result = filter_mix_test_output(output);
    assert!(result.contains("my_test.exs"));
    assert!(result.contains("my_app/worker"), "user project stacktrace should be kept");
    assert!(!result.contains("deps/ecto"));
    assert!(!result.contains("lib/enum.ex"));
}

#[test]
fn test_filter_mix_test_no_summary_fallback() {
    let output = "some unrecognized output\nmore lines";
    let result = filter_mix_test_output(output);
    assert!(!result.is_empty());
}

#[test]
fn test_parse_summary() {
    assert_eq!(parse_summary("6 tests, 0 failures"), (6, 0));
    assert_eq!(parse_summary("10 tests, 3 failures"), (10, 3));
    assert_eq!(parse_summary("1 test, 1 failure"), (1, 1));
    assert_eq!(parse_summary(""), (0, 0));
}

#[test]
fn test_token_savings_all_pass() {
    let mut dots = String::new();
    for _ in 0..20 {
        dots.push_str("......................................................................\n");
    }
    let output = format!(
        "{}\nFinished in 2.345 seconds\n500 tests, 0 failures\n\nRandomized with seed 12345\n",
        dots
    );

    let input_tokens = count_tokens(&output);
    let result = filter_mix_test_output(&output);
    let output_tokens = count_tokens(&result);
    let savings = 100.0 - (output_tokens as f64 / input_tokens as f64 * 100.0);

    assert!(
        savings >= 60.0,
        "mix test all-pass: expected >=60% savings, got {:.1}% (in={}, out={})",
        savings,
        input_tokens,
        output_tokens
    );
}

#[test]
fn test_token_savings_with_failures() {
    let mut output = String::from("F.F..F....F..F..F\n\n");
    for i in 1..=6u8 {
        output.push_str(&format!(
            "  {i}) failure: test feature_{i} works correctly (MyApp.Feature{i}Test)\n\
test/feature_{i}_test.exs:{line}\n\
Assertion with == failed\n\
code:  assert Feature_{i}.run(%{{a: 1, b: 2}}) == {{:ok, result_{i}}}\n\
left:  {{:error, :not_found}}\n\
right: {{:ok, %{{value: {i}}}}}\n\
stacktrace:\n\
test/feature_{i}_test.exs:{ln}: (test)\n\n",
            i = i,
            line = i as usize * 10,
            ln = i as usize * 10 + 1
        ));
    }
    output.push_str(
        "Compiling 15 files (.ex)\n\
         Generated my_app app\n\
         \n\
         Finished in 0.891 seconds\n\
         20 tests, 6 failures\n",
    );

    let input_tokens = count_tokens(&output);
    let result = filter_mix_test_output(&output);
    let output_tokens = count_tokens(&result);
    let savings = 100.0 - (output_tokens as f64 / input_tokens as f64 * 100.0);

    assert!(
        savings >= 25.0,
        "mix test failures: expected >=25% savings, got {:.1}% (in={}, out={})",
        savings,
        input_tokens,
        output_tokens
    );
}

#[test]
fn test_extract_duration() {
    assert_eq!(
        extract_duration("Finished in 0.05 seconds"),
        Some("0.05s".to_string())
    );
    assert_eq!(
        extract_duration("Finished in 2.345 seconds"),
        Some("2.35s".to_string())
    );
    assert_eq!(extract_duration("no duration here"), None);
}

#[test]
fn test_filter_mix_test_with_excluded() {
    let output = "\
......

Finished in 0.05 seconds
6 tests, 0 failures, 2 excluded

Randomized with seed 584732
";

    let result = filter_mix_test_output(output);
    assert!(result.contains("✓ mix test:"));
    assert!(result.contains("0 failures"));
}
