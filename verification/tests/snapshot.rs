use reforge::snapshot::{
    build_gas_snapshot_table, check, collect_diffs, color_by_sign, diff, diff_line, diff_lines,
    exit_code, fmt_change, match_snapshots, snapshot_content, sort_diffs, summarize,
    within_tolerance, DiffSet, DiffSortOrder, GasSnapshotArgs, GasSnapshotConfig, GasSnapshotDiff,
    GasSnapshotEntry, KindReport, SnapshotAction, SuiteTestResult,
};

fn report(gas: u64) -> KindReport {
    KindReport { gas, shown: format!("(gas: {gas})") }
}

fn test(contract: &str, signature: &str, gas: u64) -> SuiteTestResult {
    SuiteTestResult {
        contract_name: contract.to_string(),
        signature: signature.to_string(),
        gas_used: gas,
        report: report(gas),
    }
}

fn entry(contract: &str, signature: &str, gas: u64) -> GasSnapshotEntry {
    GasSnapshotEntry {
        contract_name: contract.to_string(),
        signature: signature.to_string(),
        gas_used: report(gas),
    }
}

fn config(asc: bool, desc: bool, min: Option<u64>, max: Option<u64>) -> GasSnapshotConfig {
    GasSnapshotConfig { asc, desc, min, max }
}

fn names(tests: &[SuiteTestResult]) -> Vec<String> {
    tests.iter().map(|t| t.signature.clone()).collect()
}

/// What a coloured text says.
fn plain(text: &str) -> String {
    let mut out = String::new();
    let mut escape = false;
    for c in text.chars() {
        if c == '\u{1b}' {
            escape = true;
        } else if escape {
            escape = c != 'm';
        } else {
            out.push(c);
        }
    }
    out
}

#[test]
fn selection_keeps_all_by_default() {
    let config = GasSnapshotConfig::default();
    assert!(!config.asc && !config.desc && config.min.is_none() && config.max.is_none());
}

#[test]
fn gas_range_leaves_out_its_ends() {
    let c = config(false, false, Some(10), Some(20));
    assert!(!c.is_in_gas_range(10));
    assert!(c.is_in_gas_range(11));
    assert!(c.is_in_gas_range(19));
    assert!(!c.is_in_gas_range(20));
    assert!(config(false, false, None, None).is_in_gas_range(u64::MAX));
    assert!(!config(false, false, Some(0), None).is_in_gas_range(0));
}

#[test]
fn selection_filters_and_sorts_stably() {
    let tests = || {
        vec![test("A", "a", 5), test("A", "b", 3), test("A", "c", 9), test("A", "d", 3)]
    };
    let c = config(false, false, Some(2), Some(6));
    assert_eq!(names(&c.apply(tests())), ["a", "b", "d"]);
    let c = config(true, false, Some(2), Some(10));
    assert_eq!(names(&c.apply(tests())), ["b", "d", "a", "c"]);
    let c = config(false, true, None, None);
    assert_eq!(names(&c.apply(tests())), ["c", "a", "b", "d"]);
    let c = config(true, true, None, Some(4));
    assert_eq!(names(&c.apply(tests())), ["b", "d"]);
}

#[test]
fn snapshot_file_is_sorted() {
    let tests = vec![test("B", "t()", 7), test("A", "u()", 1), test("A", "t()", 22)];
    assert_eq!(
        snapshot_content(&tests),
        "A:t() (gas: 22)\nA:u() (gas: 1)\nB:t() (gas: 7)"
    );
    assert_eq!(snapshot_content(&Vec::new()), "");
}

#[test]
fn snapshot_file_does_not_depend_on_the_order_of_tests() {
    let a = vec![test("B", "t()", 7), test("A", "u()", 1)];
    let b = vec![test("A", "u()", 1), test("B", "t()", 7)];
    assert_eq!(snapshot_content(&a), snapshot_content(&b));
}

#[test]
fn snapshot_table_lists_the_tests() {
    let tests = vec![test("B", "t()", 7), test("A", "u()", 1)];
    let table = build_gas_snapshot_table(&tests, true);
    let header: Vec<String> =
        table.header().unwrap().cell_iter().map(|c| c.content()).collect();
    assert_eq!(header, ["Contract", "Signature", "Report"]);
    let rows: Vec<Vec<String>> =
        table.row_iter().map(|r| r.cell_iter().map(|c| c.content()).collect()).collect();
    assert_eq!(rows, [["B", "t()", "(gas: 7)"], ["A", "u()", "(gas: 1)"]]);
    assert_eq!(table.style(), comfy_table::presets::ASCII_MARKDOWN);
    assert_eq!(
        build_gas_snapshot_table(&tests, false).style(),
        comfy_table::presets::ASCII_FULL.with_rounded_corners()
    );
}

#[test]
fn the_last_entry_for_a_test_counts() {
    let snaps = vec![entry("A", "t()", 1), entry("B", "t()", 2), entry("A", "t()", 3)];
    let tests = vec![test("A", "t()", 3), test("B", "t()", 2), test("A", "u()", 2)];
    assert_eq!(match_snapshots(&tests, &snaps), [Some(2), Some(1), None]);
}

#[test]
fn check_reports_what_does_not_match() {
    let snaps = vec![entry("A", "t()", 100), entry("A", "u()", 50)];
    let tests = vec![test("A", "t()", 101), test("A", "u()", 50), test("A", "v()", 1)];
    let outcome = check(&tests, &snaps, None);
    assert!(!outcome.all_match);
    assert_eq!(
        outcome.lines,
        [
            "Diff in \"A::t()\": consumed \"(gas: 101)\" gas, expected \"(gas: 100)\" gas ",
            "No matching snapshot entry found for \"A::v()\" in snapshot file",
        ]
    );
    assert_eq!(exit_code(outcome.all_match), 1);
}

#[test]
fn check_of_unchanged_gas_passes() {
    let snaps = vec![entry("A", "t()", 100), entry("A", "u()", 50)];
    let tests = vec![test("A", "u()", 50), test("A", "t()", 100)];
    let outcome = check(&tests, &snaps, None);
    assert!(outcome.all_match);
    assert!(outcome.lines.is_empty());
    assert_eq!(exit_code(outcome.all_match), 0);
}

#[test]
fn check_with_a_tolerance_goes_by_the_deviation() {
    let snaps = vec![entry("A", "t()", 99), entry("A", "u()", 50)];
    let tests = vec![test("A", "t()", 100), test("A", "u()", 50)];
    assert!(check(&tests, &snaps, Some(1)).all_match);
    let outcome = check(&tests, &snaps, Some(0));
    assert_eq!(outcome.lines.len(), 1);
    assert!(within_tolerance(5, 5, None));
    assert!(!within_tolerance(5, 6, None));
    // Deviations up to the percentage are tolerated, from either side.
    assert!(within_tolerance(50, 100, Some(50)));
    assert!(within_tolerance(100, 50, Some(50)));
    assert!(!within_tolerance(49, 100, Some(50)));
    assert!(within_tolerance(5, 5, Some(0)));
    assert!(within_tolerance(0, 0, Some(0)));
    assert!(!within_tolerance(0, 1, Some(99)));
    assert!(within_tolerance(u64::MAX, u64::MAX - 1, Some(1)));
}

fn compared(name: &str, source: u64, target: u64, rank: u64, pct: &str) -> GasSnapshotDiff {
    GasSnapshotDiff {
        signature: name.to_string(),
        source_gas_used: source,
        target_gas_used: target,
        percentage_rank: rank,
        percentage: pct.to_string(),
    }
}

#[test]
fn tests_are_compared_or_new() {
    let snaps = vec![entry("A", "t()", 100)];
    let tests = vec![test("A", "t()", 90), test("B", "u()", 50)];
    let set = collect_diffs(&tests, &snaps);
    assert_eq!(set.diffs.len(), 1);
    assert_eq!(set.diffs[0].signature, "A::t()");
    assert_eq!(set.diffs[0].source_gas_used, 90);
    assert_eq!(set.diffs[0].target_gas_used, 100);
    assert_eq!(set.diffs[0].gas_change(), -10);
    assert_eq!(set.new_tests, ["B::u()"]);
}

#[test]
fn comparisons_are_sorted_stably() {
    let list = || {
        vec![compared("a", 10, 20, 5, ""), compared("b", 7, 4, 9, ""), compared("c", 4, 7, 5, ""), compared("d", 9, 9, 0, "")]
    };
    let order = |o| -> Vec<String> {
        sort_diffs(list(), o).into_iter().map(|d| d.signature).collect()
    };
    assert_eq!(order(DiffSortOrder::Percentage), ["d", "a", "c", "b"]);
    assert_eq!(order(DiffSortOrder::PercentageDesc), ["b", "a", "c", "d"]);
    assert_eq!(order(DiffSortOrder::Absolute), ["d", "b", "c", "a"]);
    assert_eq!(order(DiffSortOrder::AbsoluteDesc), ["a", "b", "c", "d"]);
    assert_eq!(DiffSortOrder::default(), DiffSortOrder::Percentage);
}

#[test]
fn summary_counts_and_adds_up() {
    let list = vec![compared("a", 10, 20, 0, ""), compared("b", 7, 4, 0, ""), compared("c", 9, 9, 0, "")];
    let s = summarize(&list);
    assert_eq!((s.increased, s.decreased, s.unchanged), (1, 1, 1));
    assert_eq!(s.overall_gas_change, 26 - 33);
    assert_eq!(s.overall_gas_used, 33);
}

#[test]
fn changes_are_coloured_by_their_sign() {
    yansi::enable();
    assert_eq!(fmt_change(0), "0");
    assert_eq!(fmt_change(-3), "\u{1b}[32m-3\u{1b}[0m");
    assert_eq!(fmt_change(12), "\u{1b}[31m12\u{1b}[0m");
    assert_eq!(color_by_sign("1%", 1), "\u{1b}[31m1%\u{1b}[0m");
}

#[test]
fn comparison_is_shown_on_a_line() {
    let line = diff_line(&compared("A::t()", 90, 100, 0, "-10.000%"));
    assert_eq!(plain(&line), "↓ A::t() (gas: 100 → 90 | -10 -10.000%)");
    let line = diff_line(&compared("A::t()", 5, 5, 0, "0.000%"));
    assert_eq!(line, "━ A::t() (gas: 5 → 5 | 0 0.000%)");
}

#[test]
fn report_shows_comparisons_new_tests_and_summary() {
    let diffs = vec![
        compared("A::u()", 7, 4, 2, "75.000%"),
        compared("A::t()", 9, 10, 1, "-10.000%"),
    ];
    let set = DiffSet { diffs, new_tests: vec!["B::n()".to_string()] };
    let lines = diff(set, DiffSortOrder::Percentage, "14.286%");
    let shown: Vec<String> = lines.iter().map(|l| plain(l)).collect();
    let dashes = format!("\n{}", "-".repeat(80));
    assert_eq!(
        shown,
        [
            "↓ A::t() (gas: 10 → 9 | -1 -10.000%)",
            "↑ A::u() (gas: 4 → 7 | 3 75.000%)",
            "\nNew tests:",
            "  + B::n()",
            dashes.as_str(),
            "Total tests: 2, ↑ 1, ↓ 1, ━ 0",
            "Overall gas change: 2 (14.286%)",
        ]
    );
    let lines = diff_lines(&Vec::new(), &Vec::new(), &summarize(&Vec::new()), "0%");
    assert_eq!(lines.len(), 3);
}

fn args(diff: Option<Option<&str>>, check: Option<Option<&str>>) -> GasSnapshotArgs {
    let own = |o: Option<Option<&str>>| o.map(|f| f.map(|s| s.to_string()));
    GasSnapshotArgs {
        diff: own(diff),
        check: own(check),
        as_table: true,
        snap: ".gas-snapshot".to_string(),
        tolerance: Some(3),
        diff_sort: None,
        config: config(false, false, None, None),
    }
}

#[test]
fn action_follows_the_arguments() {
    match args(Some(Some("x")), Some(None)).action() {
        SnapshotAction::Diff { file, order } => {
            assert_eq!(file, "x");
            assert_eq!(order, DiffSortOrder::Percentage);
        }
        other => panic!("{other:?}"),
    }
    match args(None, Some(None)).action() {
        SnapshotAction::Check { file, tolerance } => {
            assert_eq!(file, ".gas-snapshot");
            assert_eq!(tolerance, Some(3));
        }
        other => panic!("{other:?}"),
    }
    match args(None, None).action() {
        SnapshotAction::Write { file, as_table } => {
            assert_eq!(file, ".gas-snapshot");
            assert!(as_table);
        }
        other => panic!("{other:?}"),
    }
}
