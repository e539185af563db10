use regex::Regex;
use reforge::building::{
    lint_sources, lint_warning, lints_file, refuse_paths, should_lint, BuildArgs, LintSources,
};
use reforge::ordered::TextMap;
use reforge::results::{TestStatus, TraceKind};
use reforge::test::filter::{
    merge_filter_with_config, FilterArgs, FilterConfig, GlobPattern, ProjectPaths,
    ProjectPathsAwareFilter,
};
use reforge::test::run::{
    check_group, check_groups, decodes_json_logs, first_execution, no_match_line, open_failure,
    should_show_trace, shows_storage_changes, snapshot_error, snapshot_file, traces_to_show,
    AfterCount, EvmSettings, InternalTraceMode, Line, ReportSamples, RunMode, RunState, SuiteStep,
    TestOutput,
};
use reforge::test::{CompiledContract, ConfigValue, SourceSearch, TestArgs};

fn no_filter() -> FilterArgs {
    FilterArgs {
        test_pattern: None,
        test_pattern_inverse: None,
        contract_pattern: None,
        contract_pattern_inverse: None,
        path_pattern: None,
        path_pattern_inverse: None,
        coverage_pattern_inverse: None,
    }
}

fn no_args() -> TestArgs {
    TestArgs {
        path: None,
        debug: false,
        flamegraph: false,
        flamechart: false,
        decode_internal: false,
        gas_report: false,
        gas_snapshot_check: None,
        gas_snapshot_emit: None,
        suppress_successful_traces: false,
        junit: false,
        fail_fast: false,
        etherscan_api_key: None,
        list: false,
        fuzz_seed: None,
        fuzz_runs: None,
        fuzz_timeout: None,
        fuzz_input_file: None,
        show_progress: false,
        rerun: false,
        summary: false,
        detailed: false,
        filter: no_filter(),
    }
}

fn regex(text: &str) -> Option<Regex> {
    Some(Regex::new(text).unwrap())
}

fn glob(text: &str) -> Option<GlobPattern> {
    Some(GlobPattern { pattern: text.to_string() })
}

fn config(patterns: FilterArgs) -> FilterConfig {
    FilterConfig {
        patterns,
        paths: ProjectPaths { root: "/p".to_string(), libraries: vec!["lib".to_string()] },
        test_failures_file: "cache/failures".to_string(),
    }
}

fn text_of(pattern: &Option<Regex>) -> Option<&str> {
    pattern.as_ref().map(|r| r.as_str())
}

fn own(list: &[&str]) -> Vec<String> {
    list.iter().map(|s| s.to_string()).collect()
}

// --- Filters ---------------------------------------------------------------

#[test]
fn command_line_wins_over_configuration() {
    let filter = FilterArgs { test_pattern: regex("a"), path_pattern: glob("x"), ..no_filter() };
    let patterns = FilterArgs {
        test_pattern: regex("b"),
        contract_pattern: regex("c"),
        path_pattern: glob("y"),
        path_pattern_inverse: glob("z"),
        ..no_filter()
    };
    let merged = merge_filter_with_config(filter, &config(patterns));
    let args = merged.args();
    assert_eq!(text_of(&args.test_pattern), Some("a"));
    assert_eq!(text_of(&args.contract_pattern), Some("c"));
    assert_eq!(text_of(&args.test_pattern_inverse), None);
    assert_eq!(args.path_pattern.as_ref().unwrap().pattern, "x");
    assert_eq!(args.path_pattern_inverse.as_ref().unwrap().pattern, "z");
    assert_eq!(merged.paths.root, "/p");
    assert_eq!(merged.paths.libraries, ["lib"]);
    assert!(!merged.is_empty());
}

#[test]
fn filter_without_criteria_is_empty() {
    assert!(merge_filter_with_config(no_filter(), &config(no_filter())).is_empty());
    let only_coverage = FilterArgs { coverage_pattern_inverse: regex("x"), ..no_filter() };
    assert!(only_coverage.is_empty());
    let inverse = FilterArgs { path_pattern_inverse: glob("x"), ..no_filter() };
    assert!(!inverse.is_empty());
}

#[test]
fn filter_takes_the_path_argument() {
    let args = TestArgs { path: glob("test/A.sol"), ..no_args() };
    let filter = args.filter(&config(no_filter()), None).filter.unwrap();
    assert_eq!(filter.args().path_pattern.as_ref().unwrap().pattern, "test/A.sol");

    let args = TestArgs {
        path: glob("test/A.sol"),
        filter: FilterArgs { path_pattern: glob("x"), ..no_filter() },
        ..no_args()
    };
    assert_eq!(
        args.filter(&config(no_filter()), None).filter.unwrap_err(),
        "Can not supply both --match-path and |path|"
    );
}

#[test]
fn rerun_takes_the_recorded_failures() {
    let args = TestArgs {
        rerun: true,
        filter: FilterArgs { test_pattern: regex("mine"), ..no_filter() },
        ..no_args()
    };
    let configured = config(FilterArgs { test_pattern: regex("other"), ..no_filter() });
    let outcome = args.filter(&configured, Some("testA|testB"));
    assert!(outcome.warning.is_none());
    assert_eq!(text_of(&outcome.filter.unwrap().args().test_pattern), Some("testA|testB"));
    // Nothing recorded: a regular run.
    let outcome = args.filter(&configured, None);
    assert_eq!(text_of(&outcome.filter.unwrap().args().test_pattern), Some("mine"));
    // What was recorded cannot be read.
    let outcome = args.filter(&configured, Some("("));
    assert!(outcome.warning.unwrap().starts_with(
        "failed to parse test filter from \"cache/failures\": "
    ));
    assert_eq!(text_of(&outcome.filter.unwrap().args().test_pattern), Some("mine"));
    // Without a rerun the record does not count.
    let args = TestArgs { rerun: false, ..args };
    let outcome = args.filter(&configured, Some("("));
    assert!(outcome.warning.is_none());
    assert_eq!(text_of(&outcome.filter.unwrap().args().test_pattern), Some("mine"));
}

#[test]
fn files_of_libraries_are_not_selected() {
    let filter: ProjectPathsAwareFilter =
        merge_filter_with_config(no_filter(), &config(no_filter()));
    assert_eq!(filter.relative("/p/test/A.sol"), "test/A.sol");
    assert_eq!(filter.relative("/q/test/A.sol"), "/q/test/A.sol");
    assert!(filter.matches_path("/p/test/A.sol", true));
    assert!(!filter.matches_path("/p/test/A.sol", false));
    assert!(!filter.matches_path("/p/lib/x/A.sol", true));
    assert!(!filter.matches_path("lib/x/A.sol", true));
    assert!(filter.matches_path("/p/library/A.sol", true));
}

#[test]
fn libraries_may_be_relative_or_absolute() {
    let paths = |lib: &str| ProjectPaths { root: "/p".to_string(), libraries: own(&["z", lib]) };
    assert!(paths("lib").has_library_ancestor("lib/a.sol"));
    assert!(paths("lib").has_library_ancestor("/p/lib/a.sol"));
    assert!(!paths("lib").has_library_ancestor("/q/lib/a.sol"));
    assert!(paths("/p/lib").has_library_ancestor("lib/a.sol"));
    assert!(paths("/p/lib").has_library_ancestor("/p/lib/a.sol"));
    assert!(!paths("/q/lib").has_library_ancestor("lib/a.sol"));
}

// --- Sources and settings --------------------------------------------------

#[test]
fn all_files_are_compiled_without_a_filter() {
    let search = SourceSearch::AllFiles {
        src: own(&["src/b.sol", "src/a.sol"]),
        test: own(&["test/t.sol", "src//a.sol"]),
    };
    let files = no_args().get_sources_to_compile(&search, "src").unwrap();
    assert_eq!(files, ["src/a.sol", "src/b.sol", "test/t.sol"]);
}

#[test]
fn sources_and_selected_tests_are_compiled_with_a_filter() {
    let contract = |source: &str, has_abi, is_selected| CompiledContract {
        source: source.to_string(),
        has_abi,
        is_selected,
    };
    let contracts = || {
        vec![
            contract("test/b.sol", true, true),
            contract("test/c.sol", true, false),
            contract("test/d.sol", false, true),
            contract("src/a.sol", true, false),
            contract("src/e.sol", false, false),
        ]
    };
    let search = SourceSearch::Compiled { has_errors: false, contracts: contracts() };
    let files = no_args().get_sources_to_compile(&search, "src").unwrap();
    assert_eq!(files, ["src/a.sol", "test/b.sol"]);
    let search = SourceSearch::Compiled { has_errors: true, contracts: contracts() };
    assert_eq!(
        no_args().get_sources_to_compile(&search, "src").unwrap_err(),
        "Compilation failed"
    );
}

#[test]
fn settings_are_overridden_by_the_command_line() {
    let data = no_args().data();
    assert_eq!((data.fuzz.len(), data.rest.len()), (0, 0));
    let data = TestArgs {
        fuzz_seed: Some("7".to_string()),
        fuzz_runs: Some(100),
        fuzz_timeout: Some(3),
        fuzz_input_file: Some("in".to_string()),
        etherscan_api_key: Some("KEY".to_string()),
        show_progress: true,
        ..no_args()
    }
    .data();
    assert!(matches!(data.fuzz.get("seed"), Some(ConfigValue::Text(s)) if s == "7"));
    assert!(matches!(data.fuzz.get("runs"), Some(ConfigValue::Number(100))));
    assert!(matches!(data.fuzz.get("timeout"), Some(ConfigValue::Number(3))));
    assert!(matches!(
        data.fuzz.get("failure_persist_file"),
        Some(ConfigValue::Text(s)) if s == "in"
    ));
    assert!(matches!(
        data.rest.get("etherscan_api_key"),
        Some(ConfigValue::Text(s)) if s == "KEY"
    ));
    assert!(matches!(data.rest.get("show_progress"), Some(ConfigValue::Flag(true))));
    let blank = TestArgs { etherscan_api_key: Some(" \t".to_string()), ..no_args() };
    assert_eq!(blank.data().rest.len(), 0);
}

// --- Setting up ------------------------------------------------------------

#[test]
fn gas_report_isolates_and_samples() {
    let mut args = TestArgs { gas_report: true, ..no_args() };
    let mut evm = EvmSettings { isolate: false, verbosity: 1 };
    let mut samples = ReportSamples { fuzz: 256, invariant: 128 };
    let plan = args.prepare_run(&mut evm, &mut samples);
    assert_eq!(evm, EvmSettings { isolate: true, verbosity: 3 });
    assert_eq!(samples, ReportSamples { fuzz: 256, invariant: 128 });
    assert_eq!(plan.verbosity, 1);
    assert!(!plan.should_debug && !plan.should_draw);
    assert_eq!(plan.decode_internal, InternalTraceMode::Off);
    let again = args.prepare_run(&mut evm, &mut samples);
    assert_eq!(evm, EvmSettings { isolate: true, verbosity: 3 });
    assert_eq!(again.verbosity, 3);
}

#[test]
fn drawing_shows_internal_functions() {
    let mut args = TestArgs { flamechart: true, ..no_args() };
    let mut evm = EvmSettings { isolate: false, verbosity: 5 };
    let mut samples = ReportSamples { fuzz: 256, invariant: 128 };
    let plan = args.prepare_run(&mut evm, &mut samples);
    assert!(plan.should_draw && args.decode_internal);
    assert_eq!(plan.decode_internal, InternalTraceMode::Simple);
    assert_eq!(evm, EvmSettings { isolate: false, verbosity: 3 });
    assert_eq!(samples, ReportSamples { fuzz: 0, invariant: 0 });
}

// --- Before the tests run --------------------------------------------------

#[test]
fn run_follows_from_the_number_of_tests() {
    let args = no_args();
    assert!(matches!(args.after_count(0, true, "", false), AfterCount::NoTests));
    assert!(matches!(args.after_count(0, false, "f", false), AfterCount::NoMatch));
    assert!(matches!(
        args.after_count(3, true, "", false),
        AfterCount::Run { mode: RunMode::Stream, full_decode: false }
    ));
    assert!(matches!(
        args.after_count(3, true, "", true),
        AfterCount::Run { mode: RunMode::Json, .. }
    ));
    let junit = TestArgs { junit: true, decode_internal: true, ..no_args() };
    assert!(matches!(
        junit.after_count(1, true, "", false),
        AfterCount::Run { mode: RunMode::Junit, full_decode: true }
    ));
    let summary = TestArgs { summary: true, ..no_args() };
    assert!(matches!(
        summary.after_count(2, true, "", true),
        AfterCount::Run { mode: RunMode::Stream, .. }
    ));
}

#[test]
fn single_test_modes_refuse_many_tests() {
    let graph = TestArgs { flamegraph: true, ..no_args() };
    match graph.after_count(2, false, "match-test: x", false) {
        AfterCount::Refuse(message) => assert_eq!(
            message,
            "2 tests matched your criteria, but exactly 1 test must match in order to generate a \
             flamegraph.\n\nUse --match-contract and --match-path to further limit the \
             search.\n\nFilter used:\nmatch-test: x"
        ),
        other => panic!("{other:?}"),
    }
    let debug = TestArgs { debug: true, ..no_args() };
    match debug.after_count(10, true, "", false) {
        AfterCount::Refuse(message) => assert_eq!(
            message,
            "10 tests matched your criteria, but exactly 1 test must match in order to run the \
             debugger.\n\nUse --match-contract and --match-path to further limit the search."
        ),
        other => panic!("{other:?}"),
    }
    assert!(matches!(debug.after_count(1, true, "", false), AfterCount::Run { .. }));
    let chart = TestArgs { flamechart: true, ..no_args() };
    assert!(matches!(
        chart.after_count(2, true, "", false),
        AfterCount::Refuse(m) if m.contains("generate a flamechart.")
    ));
}

#[test]
fn missing_tests_are_reported() {
    assert!(matches!(
        no_match_line(0, "f", Some("x")),
        Line::Print(s) if s == "No tests found in project! Forge looks for functions that start with `test`"
    ));
    assert!(matches!(
        no_match_line(4, "f", None),
        Line::Warn(s) if s == "no tests match the provided pattern:\nf"
    ));
    assert!(matches!(
        no_match_line(4, "f", Some("testX")),
        Line::Warn(s) if s == "no tests match the provided pattern:\nf\nDid you mean `testX`?"
    ));
}

#[test]
fn silence_and_quiet_are_told_apart() {
    let plain = no_args();
    assert!(!plain.is_silent(true) && plain.is_quiet(true) && !plain.is_quiet(false));
    let gas = TestArgs { gas_report: true, ..no_args() };
    assert!(gas.is_silent(true) && !gas.is_silent(false));
    let summary = TestArgs { summary: true, junit: true, ..no_args() };
    assert!(summary.is_silent(true) && summary.is_quiet(false));
    assert!(decodes_json_logs(2) && !decodes_json_logs(1));
}

// --- While suites come in --------------------------------------------------

fn shown(lines: &[Line]) -> Vec<(char, &str)> {
    lines
        .iter()
        .map(|l| match l {
            Line::Print(s) => ('p', s.as_str()),
            Line::Warn(s) => ('w', s.as_str()),
            Line::Error(s) => ('e', s.as_str()),
        })
        .collect()
}

#[test]
fn suites_are_headed() {
    let args = no_args();
    let lines = args.suite_opening(false, &own(&["careful"]), 2, "a.sol:A");
    assert_eq!(
        shown(&lines),
        [('p', ""), ('w', "careful"), ('p', "Ran 2 tests for a.sol:A")]
    );
    let lines = args.suite_opening(false, &Vec::new(), 1, "A");
    assert_eq!(shown(&lines), [('p', ""), ('p', "Ran 1 test for A")]);
    assert_eq!(shown(&args.suite_opening(false, &Vec::new(), 0, "A")), [('p', "")]);
    let silent = TestArgs { summary: true, ..no_args() };
    assert!(silent.suite_opening(true, &own(&["careful"]), 2, "A").is_empty());
}

#[test]
fn traces_are_shown_by_verbosity() {
    use_traces(TraceKind::Execution, TestStatus::Failure, 3);
    use_traces(TraceKind::Execution, TestStatus::Success, 4);
    use_traces(TraceKind::Setup, TestStatus::Failure, 4);
    use_traces(TraceKind::Setup, TestStatus::Skipped, 5);
    assert!(!should_show_trace(TraceKind::Deployment, TestStatus::Failure, 5));
    assert!(!shows_storage_changes(4) && shows_storage_changes(5));
}

fn use_traces(kind: TraceKind, status: TestStatus, from: u8) {
    for verbosity in 0..=7 {
        assert_eq!(should_show_trace(kind, status, verbosity), verbosity >= from);
    }
}

#[test]
fn traces_are_picked_by_kind() {
    let kinds = vec![TraceKind::Deployment, TraceKind::Setup, TraceKind::Execution];
    assert_eq!(traces_to_show(&kinds, TestStatus::Failure, 4), [1, 2]);
    assert_eq!(traces_to_show(&kinds, TestStatus::Failure, 3), [2]);
    assert!(traces_to_show(&kinds, TestStatus::Success, 3).is_empty());
    assert_eq!(first_execution(&kinds), Some(2));
    assert_eq!(first_execution(&vec![TraceKind::Setup]), None);
    let args = no_args();
    assert_eq!(args.backtrace_of(false, 3, TestStatus::Failure, &kinds), Some(2));
    assert_eq!(args.backtrace_of(false, 2, TestStatus::Failure, &kinds), None);
    assert_eq!(args.backtrace_of(false, 3, TestStatus::Success, &kinds), None);
    let silent = TestArgs { gas_report: true, ..no_args() };
    assert_eq!(silent.backtrace_of(true, 3, TestStatus::Failure, &kinds), None);
    assert!(args.identifies_addresses(3) && !args.identifies_addresses(2));
    assert!(silent.identifies_addresses(0));
}

fn output(status: TestStatus) -> TestOutput {
    TestOutput {
        status,
        short_result: "[PASS] t()".to_string(),
        metrics_table: Some("| m |".to_string()),
        console_logs: own(&["hello", "world"]),
        decoded_traces: own(&["trace"]),
        backtrace: Some("back".to_string()),
    }
}

#[test]
fn tests_are_reported_line_by_line() {
    let args = no_args();
    assert_eq!(
        args.test_lines(false, 2, &output(TestStatus::Success)),
        ["[PASS] t()", "\n| m |\n", "Logs:", "  hello", "  world", "", "Traces:", "trace", "back"]
    );
    assert_eq!(
        args.test_lines(false, 1, &output(TestStatus::Success)),
        ["[PASS] t()", "\n| m |\n", "Traces:", "trace", "back"]
    );
    let bare = TestOutput {
        metrics_table: None,
        console_logs: Vec::new(),
        decoded_traces: Vec::new(),
        backtrace: Some(String::new()),
        ..output(TestStatus::Failure)
    };
    assert_eq!(args.test_lines(false, 5, &bare), ["[PASS] t()"]);
}

#[test]
fn output_can_be_suppressed() {
    let args = TestArgs { suppress_successful_traces: true, ..no_args() };
    assert_eq!(
        args.test_lines(false, 5, &output(TestStatus::Success)),
        ["[PASS] t()", "\n| m |\n", "back"]
    );
    assert_eq!(args.test_lines(false, 5, &output(TestStatus::Failure)).len(), 9);
    let silent = TestArgs { summary: true, ..no_args() };
    assert!(silent.test_lines(true, 5, &output(TestStatus::Failure)).is_empty());
}

// --- Gas snapshots ---------------------------------------------------------

fn group(values: &[(&str, &str)]) -> TextMap<String> {
    let mut map = TextMap::new();
    for (k, v) in values {
        map.insert(k.to_string(), v.to_string());
    }
    map
}

fn groups(list: &[(&str, &[(&str, &str)])]) -> TextMap<TextMap<String>> {
    let mut map = TextMap::new();
    for (k, v) in list {
        map.insert(k.to_string(), group(v));
    }
    map
}

#[test]
fn snapshots_are_merged_by_group() {
    let mut state = RunState::new();
    assert!(!state.has_snapshots() && !state.any_test_failed);
    state.record_test(TestStatus::Success, &groups(&[("G", &[("a", "1"), ("b", "2")])]));
    state.record_test(TestStatus::Failure, &groups(&[("G", &[("b", "3")]), ("H", &[("c", "4")])]));
    state.record_test(TestStatus::Skipped, &TextMap::new());
    assert!(state.has_snapshots() && state.any_test_failed);
    let g = state.gas_snapshots.get("G").unwrap();
    assert_eq!(g.get("a").unwrap(), "1");
    assert_eq!(g.get("b").unwrap(), "3");
    assert_eq!(state.gas_snapshots.get("H").unwrap().get("c").unwrap(), "4");
    assert_eq!(state.gas_snapshots.len(), 2);
    let args = TestArgs { fail_fast: true, ..no_args() };
    assert!(args.stops(&state) && !no_args().stops(&state));
    assert!(!args.stops(&RunState::new()));
}

#[test]
fn snapshots_are_compared_with_those_on_disk() {
    yansi::enable();
    let now = group(&[("a", "1"), ("b", "2"), ("new", "9")]);
    let disk = group(&[("a", "1"), ("b", "5"), ("gone", "7")]);
    let check = check_group(false, "G", &now, &Some(disk));
    assert!(check.found);
    assert_eq!(
        shown(&check.lines),
        [
            ('e', "\u{1b}[1;31m\n[G] Failed to match snapshots:\u{1b}[0m"),
            ('e', "\u{1b}[31m- [b] 5 → 2\u{1b}[0m"),
        ]
    );
    let same = Some(group(&[("a", "1"), ("b", "2"), ("new", "9")]));
    let kept = check_group(true, "G", &now, &same);
    assert!(kept.found && kept.lines.is_empty());
    assert!(!check_group(false, "G", &now, &same).found);
    assert_eq!(snapshot_error(true).as_deref(), Some("Snapshots differ from previous run"));
    assert_eq!(snapshot_error(false), None);
    assert_eq!(snapshot_file("G"), "G.json");
}

#[test]
fn differences_are_found_across_groups() {
    yansi::enable();
    let now = groups(&[
        ("A", &[("a", "1")]),
        ("B", &[("b", "2"), ("c", "3")]),
        ("C", &[("d", "4")]),
        ("D", &[("e", "5")]),
        ("E", &[("f", "6")]),
    ]);
    // A group without a file has nothing to differ from; what one group shows stays found.
    let on_disk = vec![
        None,
        Some(group(&[("b", "7"), ("c", "8")])),
        Some(group(&[("d", "4")])),
        Some(group(&[("e", "9")])),
        None,
    ];
    let check = check_groups(&now, &on_disk);
    assert!(check.found);
    assert_eq!(
        shown(&check.lines),
        [
            ('e', "\u{1b}[1;31m\n[B] Failed to match snapshots:\u{1b}[0m"),
            ('e', "\u{1b}[31m- [b] 7 → 2\u{1b}[0m"),
            ('e', "\u{1b}[31m- [c] 8 → 3\u{1b}[0m"),
            ('e', "\u{1b}[1;31m\n[D] Failed to match snapshots:\u{1b}[0m"),
            ('e', "\u{1b}[31m- [e] 9 → 5\u{1b}[0m"),
        ]
    );
    let same = check_groups(&groups(&[("A", &[]), ("C", &[("d", "4")])]), &vec![
        None,
        Some(group(&[("d", "4")])),
    ]);
    assert!(!same.found && same.lines.is_empty());
}

#[test]
fn a_suite_ends_with_its_steps_in_order() {
    let mut state = RunState::new();
    assert_eq!(
        no_args().suite_steps(&state, false, 1, true, true),
        [SuiteStep::PrintSummary, SuiteStep::KeepResult]
    );
    assert_eq!(no_args().suite_steps(&state, true, 0, true, true), [SuiteStep::KeepResult]);
    state.record_test(TestStatus::Failure, &groups(&[("G", &[("a", "1")])]));
    let args = TestArgs { fail_fast: true, ..no_args() };
    assert_eq!(
        args.suite_steps(&state, false, 1, true, true),
        [
            SuiteStep::CheckSnapshots,
            SuiteStep::EmitSnapshots,
            SuiteStep::PrintSummary,
            SuiteStep::KeepResult,
            SuiteStep::Stop,
        ]
    );
    let args = TestArgs { gas_snapshot_check: Some(true), ..no_args() };
    assert_eq!(
        args.suite_steps(&state, false, 0, false, false),
        [SuiteStep::CheckSnapshots, SuiteStep::KeepResult]
    );
}

#[test]
fn command_line_decides_on_snapshots_first() {
    let args = no_args();
    assert!(args.checks_snapshots(true) && !args.checks_snapshots(false));
    assert!(args.emits_snapshots(true) && !args.emits_snapshots(false));
    let args = TestArgs {
        gas_snapshot_check: Some(true),
        gas_snapshot_emit: Some(false),
        ..no_args()
    };
    assert!(args.checks_snapshots(false) && !args.emits_snapshots(true));
}

// --- In the end ------------------------------------------------------------

#[test]
fn closing_follows_the_arguments() {
    let args = no_args();
    let c = args.closing(false, 2);
    assert!(c.totals && !c.summary && !c.gas_report);
    assert!(!args.closing(true, 2).totals);
    let args = TestArgs { summary: true, gas_report: true, ..no_args() };
    let c = args.closing(false, 2);
    assert!(!c.totals && c.summary && c.gas_report);
    assert!(!args.closing(false, 0).summary);
    assert!(args.prints_suite_summary(false, 1));
    assert!(!args.prints_suite_summary(false, 0));
    assert!(!args.prints_suite_summary(true, 1));
}

#[test]
fn drawings_are_named_after_the_test() {
    let graph = TestArgs { flamegraph: true, ..no_args() };
    let out = graph.flame_output("test/A.sol:Token", "testX()()");
    assert_eq!(out.file_name, "cache/flamegraph_Token_testX.svg");
    assert_eq!(out.title, "flamegraph Token::testX");
    assert_eq!(out.count_name, "gas");
    assert!(!out.chart);
    assert_eq!(out.saved, "Saved to cache/flamegraph_Token_testX.svg");
    let chart = TestArgs { flamechart: true, ..no_args() };
    let out = chart.flame_output("Token", "testY(uint256)");
    assert_eq!(out.file_name, "cache/flamechart_Token_testY(uint256).svg");
    assert!(out.chart);
    assert_eq!(chart.flame_stacks(own(&["a", "b", "c"])), ["c", "b", "a"]);
    assert_eq!(graph.flame_stacks(own(&["a", "b"])), ["a", "b"]);
    assert_eq!(
        open_failure("f.svg", "no viewer"),
        "Failed to open f.svg; please open it manually: no viewer"
    );
}

// --- Building --------------------------------------------------------------

#[test]
fn build_decisions() {
    assert_eq!(
        refuse_paths(true, 0).as_deref(),
        Some("No source files found in specified build paths.")
    );
    assert_eq!(refuse_paths(true, 1), None);
    assert_eq!(refuse_paths(false, 0), None);
    assert_eq!(lint_sources(true, false), LintSources::Expanded);
    assert_eq!(lint_sources(false, true), LintSources::ExpandNow);
    assert_eq!(lint_sources(false, false), LintSources::OnDisk);
    assert!(BuildArgs { names: false, sizes: false }.prints_json(true));
    assert!(!BuildArgs { names: true, sizes: false }.prints_json(true));
    assert!(!BuildArgs { names: false, sizes: false }.prints_json(false));
    assert!(should_lint(true, false) && !should_lint(true, true) && !should_lint(false, false));
    assert_eq!(
        lint_warning(0, 2).as_deref(),
        Some("unable to lint. Solar only supports Solidity versions >=0.8.0")
    );
    assert_eq!(lint_warning(0, 0), None);
    assert_eq!(lint_warning(1, 2), None);
}

#[test]
fn linted_files_are_chosen_or_not_ignored() {
    let none: Vec<String> = Vec::new();
    let chosen = own(&["src/a.sol", "/q/b.sol"]);
    assert!(lints_file("/p/src/a.sol", Some(&chosen), "/p", false, &none));
    assert!(lints_file("/q/b.sol", Some(&chosen), "/p", false, &none));
    assert!(!lints_file("/p/src/c.sol", Some(&chosen), "/p", true, &none));
    let ignored = own(&["/p/src/a.sol"]);
    assert!(!lints_file("/p/src/a.sol", None, "/p", true, &ignored));
    assert!(!lints_file("src/a.sol", None, "/p", true, &ignored));
    assert!(lints_file("src/b.sol", None, "/p/", true, &ignored));
    assert!(!lints_file("src/b.sol", None, "/p", false, &ignored));
}
