//! Reports on a test run.
use crate::json::compact_json;
use crate::json::json_compact;
use crate::json::json_content;
use crate::json::json_contents;
use crate::json::json_count;
use crate::json::json_list;
use crate::json::json_object;
use crate::json::json_pretty;
use crate::json::json_set;
use crate::json::json_text;
use crate::json::pretty_json;
use crate::json::Json;
use crate::junit::add_case;
use crate::junit::add_suite;
use crate::junit::case_content;
use crate::junit::document;
use crate::junit::failure;
use crate::junit::new_case;
use crate::junit::new_report;
use crate::junit::new_suite;
use crate::junit::report_content;
use crate::junit::report_document;
use crate::junit::set_case_output;
use crate::junit::set_case_time;
use crate::junit::set_message;
use crate::junit::set_report_time;
use crate::junit::set_suite_output;
use crate::junit::set_suite_time;
use crate::junit::skipped;
use crate::junit::stamp;
use crate::junit::status_content;
use crate::junit::success;
use crate::junit::suite_content;
use crate::junit::xml_text;
use crate::junit::JunitCase;
use crate::junit::JunitReport;
use crate::junit::JunitStatus;
use crate::junit::JunitSuite;
use crate::ordered::TextMap;
use crate::patterns::compile;
use crate::patterns::pattern_text;
use crate::patterns::regex_problem;
use crate::results::law_count_is_that_of_the_tests;
use crate::results::law_every_test_is_counted_once;
use crate::results::statuses;
use crate::results::Elapsed;
use crate::results::SuiteResult;
use crate::results::TestResult;
use crate::results::TestStatus;
use crate::shown::duration_text;
use crate::shown::quoted;
use crate::shown::quoted_path;
use crate::shown::show_duration;
use crate::shown::show_path;
use crate::shown::show_quoted;
use crate::tables::add_colored;
use crate::tables::add_row;
use crate::tables::add_text;
use crate::tables::load_look;
use crate::tables::new_row;
use crate::tables::new_table;
use crate::tables::row_cells;
use crate::tables::set_header;
use crate::tables::table_header;
use crate::tables::table_look;
use crate::tables::table_rows;
use crate::tables::CellColor;
use crate::tables::CellView;
use crate::tables::TableLook;
use crate::text::count_of;
use crate::text::decimal;
use crate::text::decimal_text;
use crate::text::join;
use crate::text::joined;
use crate::text::lemma_count_bound;
use crate::text::occurs;
use crate::text::occurs_at;
use crate::text::rsplit_once;
use crate::text::split_first;
use crate::text::split_last;
use crate::text::split_once;
use crate::text::strings;
use comfy_table::Row;
use comfy_table::Table;
use quick_junit::Report;
use quick_junit::TestCase;
use quick_junit::TestSuite;
use regex::Regex;
use serde_json::Value;
use vstd::prelude::*;
use vstd::string::StringExecFns;

verus! {

// ---------------------------------------------------------------------------
// Suite keys
// ---------------------------------------------------------------------------
/// The two halves of a suite's key, `path/to/File.sol:ContractName`.
///
/// The key is split at its last colon, so the path may hold colons of its own.
#[derive(Debug)]
pub struct SuiteId {
    pub file: String,
    pub name: String,
}

impl SuiteId {
    /// Splits a key.
    pub fn try_from(key: &str) -> (r: Result<SuiteId, String>)
        ensures
            match split_last(key@, ':') {
                Some(p) => r matches Ok(id) && id.file@ == p.0 && id.name@ == p.1,
                None => r matches Err(e) && e@ == "suite key missing ':': "@ + quoted(key@),
            },
    {
        match rsplit_once(key, ':') {
            Some((file, name)) => Ok(SuiteId { file: file.to_owned(), name: name.to_owned() }),
            None => {
                let mut e = "suite key missing ':': ".to_owned();
                e.append(show_quoted(key).as_str());
                Err(e)
            },
        }
    }

    /// The file's path.
    pub fn path(&self) -> (r: &str)
        ensures
            r@ == self.file@,
    {
        self.file.as_str()
    }

    /// The contract's name.
    pub fn contract(&self) -> (r: &str)
        ensures
            r@ == self.name@,
    {
        self.name.as_str()
    }
}

/// A key is its path, a colon and its contract, and the contract's name holds no colon.
pub proof fn law_suite_key_is_path_colon_contract(key: Seq<char>)
    requires
        key.contains(':'),
    ensures
        split_last(key, ':') is Some,
        key == path_of(key) + seq![':'] + contract_of(key),
        !contract_of(key).contains(':'),
{
    key.index_of_last_ensures(':');
}

/// The path in a key.
pub open spec fn path_of(key: Seq<char>) -> Seq<char> {
    match split_last(key, ':') {
        Some(p) => p.0,
        None => key,
    }
}

/// The contract in a key.
pub open spec fn contract_of(key: Seq<char>) -> Seq<char> {
    match split_last(key, ':') {
        Some(p) => p.1,
        None => key,
    }
}

// ---------------------------------------------------------------------------
// Summary
// ---------------------------------------------------------------------------
/// The results of a run, by suite.
pub type Results = Seq<(String, SuiteResult)>;

/// Every key is well-formed, and so is every span of time.
pub open spec fn valid_results(results: Results) -> bool {
    forall|i: int|
        0 <= i < results.len() ==> (split_last((#[trigger] results[i]).0@, ':') is Some)
            && results[i].1.duration.wf()
}

/// How a span of time is shown.
pub open spec fn elapsed_text(e: Elapsed) -> Seq<char> {
    duration_text(e.secs, e.nanos)
}

/// One suite in the JSON summary.
pub open spec fn suite_json(key: Seq<char>, suite: SuiteResult, detailed: bool) -> Json {
    let members = Map::<Seq<char>, Json>::empty().insert(
        "suite"@,
        Json::Text(contract_of(key)),
    ).insert("passed"@, Json::Count(suite.counted(TestStatus::Success))).insert(
        "failed"@,
        Json::Count(suite.counted(TestStatus::Failure)),
    ).insert("skipped"@, Json::Count(suite.counted(TestStatus::Skipped)));
    Json::Object(
        if detailed {
            members.insert("file_path"@, Json::Text(path_of(key))).insert(
                "duration"@,
                Json::Text(elapsed_text(suite.duration)),
            )
        } else {
            members
        },
    )
}

/// The JSON summary: the suites in order, under `results`.
pub open spec fn summary_json(results: Results, detailed: bool) -> Json {
    Json::Object(
        Map::<Seq<char>, Json>::empty().insert(
            "results"@,
            Json::List(
                results.map_values(
                    |r: (String, SuiteResult)| suite_json(r.0@, r.1, detailed),
                ),
            ),
        ),
    )
}

/// The header of the summary table.
pub open spec fn summary_header(detailed: bool) -> Seq<CellView> {
    let cells = seq![
        ("Test Suite"@, None::<CellColor>),
        ("Passed"@, Some(CellColor::Green)),
        ("Failed"@, Some(CellColor::Red)),
        ("Skipped"@, Some(CellColor::Yellow)),
    ];
    if detailed {
        cells.push(("File Path"@, Some(CellColor::Cyan))).push(("Duration"@, Some(CellColor::Cyan)))
    } else {
        cells
    }
}

/// A count, coloured where it is not zero.
pub open spec fn count_cell(n: nat, color: CellColor) -> CellView {
    (
        decimal(n),
        if n > 0 {
            Some(color)
        } else {
            None
        },
    )
}

/// One suite in the summary table.
pub open spec fn summary_row(key: Seq<char>, suite: SuiteResult, detailed: bool) -> Seq<CellView> {
    let cells = seq![
        (contract_of(key), None::<CellColor>),
        count_cell(suite.counted(TestStatus::Success), CellColor::Green),
        count_cell(suite.counted(TestStatus::Failure), CellColor::Red),
        count_cell(suite.counted(TestStatus::Skipped), CellColor::Yellow),
    ];
    if detailed {
        cells.push((path_of(key), None)).push((elapsed_text(suite.duration), None))
    } else {
        cells
    }
}

/// The look of the tables on a test run.
pub open spec fn report_look(is_markdown: bool) -> TableLook {
    if is_markdown {
        TableLook::Markdown
    } else {
        TableLook::RoundedMarkdown
    }
}

/// The summary of a run: a JSON text that ends its line, or a table.
pub enum SummaryOutput {
    Json(String),
    Table(Table),
}

/// A summary of a test run.
#[derive(Debug)]
pub struct TestSummaryReport {
    pub is_detailed: bool,
    pub outcome: TextMap<SuiteResult>,
}

fn add_count(row: &mut Row, n: usize, color: CellColor)
    ensures
        row_cells(*final(row)) == row_cells(*old(row)).push(count_cell(n as nat, color)),
{
    let text = decimal_text(n as u128);
    if n > 0 {
        add_colored(row, text.as_str(), color);
    } else {
        add_text(row, text.as_str());
    }
}

fn start_table(is_markdown: bool) -> (r: Table)
    ensures
        table_header(r) == Seq::<CellView>::empty(),
        table_rows(r) == Seq::<Seq<CellView>>::empty(),
        table_look(r) == Some(report_look(is_markdown)),
{
    let mut table = new_table();
    if is_markdown {
        load_look(&mut table, TableLook::Markdown);
    } else {
        load_look(&mut table, TableLook::RoundedMarkdown);
    }
    table
}

fn suite_value(key: &str, suite: &SuiteResult, detailed: bool) -> (r: Value)
    requires
        split_last(key@, ':') is Some,
        suite.duration.wf(),
    ensures
        json_content(r) == suite_json(key@, *suite, detailed),
{
    let mut object = json_object();
    match SuiteId::try_from(key) {
        Ok(id) => {
            json_set(&mut object, "suite", json_text(id.contract()));
            json_set(&mut object, "passed", json_count(suite.count(TestStatus::Success)));
            json_set(&mut object, "failed", json_count(suite.count(TestStatus::Failure)));
            json_set(&mut object, "skipped", json_count(suite.count(TestStatus::Skipped)));
            if detailed {
                json_set(&mut object, "file_path", json_text(id.path()));
                let time = show_duration(suite.duration.secs, suite.duration.nanos);
                json_set(&mut object, "duration", json_text(time.as_str()));
            }
        },
        Err(_) => {},
    }
    object
}

impl TestSummaryReport {
    /// A summary of `outcome`, with paths and times where `is_detailed`.
    pub fn new(is_detailed: bool, outcome: TextMap<SuiteResult>) -> (r: Self)
        ensures
            r.is_detailed == is_detailed,
            r.outcome == outcome,
    {
        TestSummaryReport { is_detailed, outcome }
    }

    /// The summary as JSON.
    pub fn format_json_output(&self) -> (r: String)
        requires
            valid_results(self.outcome.entries@),
        ensures
            r@ == pretty_json(summary_json(self.outcome.entries@, self.is_detailed)),
    {
        let ghost detailed = self.is_detailed;
        let ghost all = self.outcome.entries@.map_values(
            |r: (String, SuiteResult)| suite_json(r.0@, r.1, detailed),
        );
        let mut values: Vec<Value> = Vec::new();
        let mut i: usize = 0;
        while i < self.outcome.entries.len()
            invariant
                i <= self.outcome.entries@.len(),
                valid_results(self.outcome.entries@),
                detailed == self.is_detailed,
                all == self.outcome.entries@.map_values(
                    |r: (String, SuiteResult)| suite_json(r.0@, r.1, detailed),
                ),
                json_contents(values@) == all.take(i as int),
            decreases self.outcome.entries@.len() - i,
        {
            let entry = &self.outcome.entries[i];
            let ghost before = values@;
            let value = suite_value(entry.0.as_str(), &entry.1, self.is_detailed);
            values.push(value);
            proof {
                assert(json_contents(values@) =~= json_contents(before).push(all[i as int]));
                assert(all.take(i + 1) =~= all.take(i as int).push(all[i as int]));
            }
            i = i + 1;
        }
        assert(all.take(i as int) =~= all);
        let mut object = json_object();
        json_set(&mut object, "results", json_list(values));
        json_pretty(&object)
    }

    /// The summary as a table.
    pub fn format_table_output(&self, is_markdown: bool) -> (r: Table)
        requires
            valid_results(self.outcome.entries@),
        ensures
            table_look(r) == Some(report_look(is_markdown)),
            table_header(r) == summary_header(self.is_detailed),
            table_rows(r) == self.outcome.entries@.map_values(
                |e: (String, SuiteResult)| summary_row(e.0@, e.1, self.is_detailed),
            ),
    {
        let mut table = start_table(is_markdown);
        let mut header = new_row();
        add_text(&mut header, "Test Suite");
        add_colored(&mut header, "Passed", CellColor::Green);
        add_colored(&mut header, "Failed", CellColor::Red);
        add_colored(&mut header, "Skipped", CellColor::Yellow);
        if self.is_detailed {
            add_colored(&mut header, "File Path", CellColor::Cyan);
            add_colored(&mut header, "Duration", CellColor::Cyan);
        }
        assert(row_cells(header) =~= summary_header(self.is_detailed));
        set_header(&mut table, header);
        let ghost all = self.outcome.entries@.map_values(
            |e: (String, SuiteResult)| summary_row(e.0@, e.1, self.is_detailed),
        );
        let mut i: usize = 0;
        while i < self.outcome.entries.len()
            invariant
                i <= self.outcome.entries@.len(),
                valid_results(self.outcome.entries@),
                all == self.outcome.entries@.map_values(
                    |e: (String, SuiteResult)| summary_row(e.0@, e.1, self.is_detailed),
                ),
                table_look(table) == Some(report_look(is_markdown)),
                table_header(table) == summary_header(self.is_detailed),
                table_rows(table) == all.take(i as int),
            decreases self.outcome.entries@.len() - i,
        {
            let entry = &self.outcome.entries[i];
            let row = suite_row(entry.0.as_str(), &entry.1, self.is_detailed);
            add_row(&mut table, row);
            assert(all.take(i + 1) =~= all.take(i as int).push(all[i as int]));
            i = i + 1;
        }
        assert(all.take(i as int) =~= all);
        table
    }

    /// The summary in the form that was asked for.
    pub fn output(&self, is_json: bool, is_markdown: bool) -> (r: SummaryOutput)
        requires
            valid_results(self.outcome.entries@),
        ensures
            match r {
                SummaryOutput::Json(text) => is_json && text@ == pretty_json(
                    summary_json(self.outcome.entries@, self.is_detailed),
                ) + "\n"@,
                SummaryOutput::Table(table) => !is_json && table_look(table) == Some(
                    report_look(is_markdown),
                ) && table_header(table) == summary_header(self.is_detailed) && table_rows(table)
                    == self.outcome.entries@.map_values(
                    |e: (String, SuiteResult)| summary_row(e.0@, e.1, self.is_detailed),
                ),
            },
    {
        if is_json {
            let mut text = self.format_json_output();
            text.append("\n");
            SummaryOutput::Json(text)
        } else {
            SummaryOutput::Table(self.format_table_output(is_markdown))
        }
    }
}

fn suite_row(key: &str, suite: &SuiteResult, detailed: bool) -> (r: Row)
    requires
        split_last(key@, ':') is Some,
        suite.duration.wf(),
    ensures
        row_cells(r) == summary_row(key@, *suite, detailed),
{
    let mut row = new_row();
    match SuiteId::try_from(key) {
        Ok(id) => {
            add_text(&mut row, id.contract());
            add_count(&mut row, suite.count(TestStatus::Success), CellColor::Green);
            add_count(&mut row, suite.count(TestStatus::Failure), CellColor::Red);
            add_count(&mut row, suite.count(TestStatus::Skipped), CellColor::Yellow);
            if detailed {
                add_text(&mut row, id.path());
                let time = show_duration(suite.duration.secs, suite.duration.nanos);
                add_text(&mut row, time.as_str());
            }
            assert(row_cells(row) =~= summary_row(key@, *suite, detailed));
        },
        Err(_) => {},
    }
    row
}

// ---------------------------------------------------------------------------
// Invariant metrics
// ---------------------------------------------------------------------------
/// How often a function was called while an invariant was tested.
#[derive(Debug, Clone, Copy, PartialEq, Eq, Structural)]
pub struct InvariantMetrics {
    pub calls: usize,
    pub reverts: usize,
    pub discards: usize,
}

/// The header of the table of metrics.
pub open spec fn metrics_header() -> Seq<CellView> {
    seq![
        ("Contract"@, None::<CellColor>),
        ("Selector"@, None::<CellColor>),
        ("Calls"@, Some(CellColor::Green)),
        ("Reverts"@, Some(CellColor::Red)),
        ("Discards"@, Some(CellColor::Yellow)),
    ]
}

/// A metric: coloured where it is not zero, and white otherwise.
pub open spec fn metric_cell(n: nat, color: CellColor) -> CellView {
    (
        decimal(n),
        Some(
            if n > 0 {
                color
            } else {
                CellColor::White
            },
        ),
    )
}

/// What follows the first colon, or all of it where there is none.
pub open spec fn without_file(name: Seq<char>) -> Seq<char> {
    match split_first(name, ':') {
        Some(p) => p.1,
        None => name,
    }
}

/// The row for the function `file:Contract.selector`; none where the name has no dot.
pub open spec fn metrics_row(name: Seq<char>, metrics: InvariantMetrics) -> Option<Seq<CellView>> {
    match split_first(without_file(name), '.') {
        Some(p) => Some(
            seq![
                (p.0, None::<CellColor>),
                (p.1, None::<CellColor>),
                metric_cell(metrics.calls as nat, CellColor::Green),
                metric_cell(metrics.reverts as nat, CellColor::Red),
                metric_cell(metrics.discards as nat, CellColor::Yellow),
            ],
        ),
        None => None,
    }
}

/// The rows for these functions, in order.
pub open spec fn metrics_rows(metrics: Seq<(String, InvariantMetrics)>) -> Seq<Seq<CellView>>
    decreases metrics.len(),
{
    if metrics.len() == 0 {
        seq![]
    } else {
        let before = metrics_rows(metrics.drop_last());
        match metrics_row(metrics.last().0@, metrics.last().1) {
            Some(row) => before.push(row),
            None => before,
        }
    }
}

fn add_metric(row: &mut Row, n: usize, color: CellColor)
    ensures
        row_cells(*final(row)) == row_cells(*old(row)).push(metric_cell(n as nat, color)),
{
    let text = decimal_text(n as u128);
    if n > 0 {
        add_colored(row, text.as_str(), color);
    } else {
        add_colored(row, text.as_str(), CellColor::White);
    }
}

fn row_of_metrics(name: &str, metrics: &InvariantMetrics) -> (r: Option<Row>)
    ensures
        match metrics_row(name@, *metrics) {
            Some(cells) => r matches Some(row) && row_cells(row) == cells,
            None => r is None,
        },
{
    let rest = match split_once(name, ':') {
        Some((_, rest)) => rest,
        None => name,
    };
    assert(rest@ == without_file(name@));
    match split_once(rest, '.') {
        Some((contract, selector)) => {
            let mut row = new_row();
            add_text(&mut row, contract);
            add_text(&mut row, selector);
            add_metric(&mut row, metrics.calls, CellColor::Green);
            add_metric(&mut row, metrics.reverts, CellColor::Red);
            add_metric(&mut row, metrics.discards, CellColor::Yellow);
            assert(row_cells(row) =~= metrics_row(name@, *metrics)->0);
            Some(row)
        },
        None => None,
    }
}

/// The table of an invariant test's metrics, in the order of the functions' names.
pub fn format_invariant_metrics_table(
    test_metrics: &TextMap<InvariantMetrics>,
    is_markdown: bool,
) -> (r: Table)
    ensures
        table_look(r) == Some(report_look(is_markdown)),
        table_header(r) == metrics_header(),
        table_rows(r) == metrics_rows(test_metrics.entries@),
{
    let mut table = start_table(is_markdown);
    let mut header = new_row();
    add_text(&mut header, "Contract");
    add_text(&mut header, "Selector");
    add_colored(&mut header, "Calls", CellColor::Green);
    add_colored(&mut header, "Reverts", CellColor::Red);
    add_colored(&mut header, "Discards", CellColor::Yellow);
    assert(row_cells(header) =~= metrics_header());
    set_header(&mut table, header);
    let ghost all = test_metrics.entries@;
    assert(all.take(0) =~= Seq::<(String, InvariantMetrics)>::empty());
    let mut i: usize = 0;
    while i < test_metrics.entries.len()
        invariant
            i <= all.len(),
            all == test_metrics.entries@,
            table_look(table) == Some(report_look(is_markdown)),
            table_header(table) == metrics_header(),
            table_rows(table) == metrics_rows(all.take(i as int)),
        decreases all.len() - i,
    {
        assert(all.take(i + 1).drop_last() =~= all.take(i as int));
        assert(all.take(i + 1).last() == all[i as int]);
        let entry = &test_metrics.entries[i];
        match row_of_metrics(entry.0.as_str(), &entry.1) {
            Some(row) => add_row(&mut table, row),
            None => {},
        }
        i = i + 1;
    }
    assert(all.take(i as int) =~= all);
    table
}

/// The table has a row for each function whose name has a dot after the file, and no others.
pub proof fn law_metrics_table_is_complete(metrics: Seq<(String, InvariantMetrics)>)
    ensures
        metrics_rows(metrics).len() <= metrics.len(),
        forall|i: int|
            0 <= i < metrics.len() ==> match metrics_row(
                (#[trigger] metrics[i]).0@,
                metrics[i].1,
            ) {
                Some(row) => metrics_rows(metrics).contains(row),
                None => true,
            },
        forall|j: int|
            0 <= j < metrics_rows(metrics).len() ==> exists|i: int|
                0 <= i < metrics.len() && metrics_row((#[trigger] metrics[i]).0@, metrics[i].1)
                    == Some(#[trigger] metrics_rows(metrics)[j]),
    decreases metrics.len(),
{
    if metrics.len() > 0 {
        let rest = metrics.drop_last();
        law_metrics_table_is_complete(rest);
        let rows = metrics_rows(metrics);
        let last = metrics.len() - 1;
        assert forall|i: int| 0 <= i < metrics.len() implies match metrics_row(
            (#[trigger] metrics[i]).0@,
            metrics[i].1,
        ) {
            Some(row) => rows.contains(row),
            None => true,
        } by {
            match metrics_row(metrics[i].0@, metrics[i].1) {
                Some(row) => {
                    if i < last {
                        assert(rest[i] == metrics[i]);
                        let k = choose|k: int|
                            0 <= k < metrics_rows(rest).len() && metrics_rows(rest)[k] == row;
                        assert(rows[k] == row);
                    } else {
                        assert(rows[rows.len() - 1] == row);
                    }
                },
                None => {},
            }
        }
        assert forall|j: int| 0 <= j < rows.len() implies exists|i: int|
            0 <= i < metrics.len() && metrics_row((#[trigger] metrics[i]).0@, metrics[i].1) == Some(
                #[trigger] rows[j],
            ) by {
            if j < metrics_rows(rest).len() {
                assert(metrics_rows(rest)[j] == rows[j]);
                let i = choose|i: int|
                    0 <= i < rest.len() && metrics_row((#[trigger] rest[i]).0@, rest[i].1) == Some(
                        metrics_rows(rest)[j],
                    );
                assert(metrics[i] == rest[i]);
            } else {
                assert(metrics[last] == metrics.last());
            }
        }
    }
}

// ---------------------------------------------------------------------------
// Listing
// ---------------------------------------------------------------------------
/// The lines for one contract: its name, and its tests below it.
pub open spec fn contract_lines(contract: Seq<char>, tests: Seq<Seq<char>>) -> Seq<Seq<char>> {
    seq!["  "@ + contract, "    "@ + joined(tests, "\n    "@) + "\n"@]
}

/// The lines for the contracts of one file.
pub open spec fn contracts_lines(contracts: Seq<(String, Vec<String>)>) -> Seq<Seq<char>>
    decreases contracts.len(),
{
    if contracts.len() == 0 {
        seq![]
    } else {
        contracts_lines(contracts.drop_last()) + contract_lines(
            contracts.last().0@,
            strings(contracts.last().1@),
        )
    }
}

/// The lines for all files.
pub open spec fn listing(results: Seq<(String, TextMap<Vec<String>>)>) -> Seq<Seq<char>>
    decreases results.len(),
{
    if results.len() == 0 {
        seq![]
    } else {
        listing(results.drop_last()).push(results.last().0@) + contracts_lines(
            results.last().1.entries@,
        )
    }
}

/// A list of texts in JSON.
pub open spec fn texts_json(texts: Seq<String>) -> Json {
    Json::List(texts.map_values(|t: String| Json::Text(t@)))
}

/// The contracts of one file in JSON.
pub open spec fn contracts_json(contracts: Seq<(String, Vec<String>)>) -> Map<Seq<char>, Json>
    decreases contracts.len(),
{
    if contracts.len() == 0 {
        Map::empty()
    } else {
        contracts_json(contracts.drop_last()).insert(
            contracts.last().0@,
            texts_json(contracts.last().1@),
        )
    }
}

/// All files in JSON.
pub open spec fn listing_json(results: Seq<(String, TextMap<Vec<String>>)>) -> Map<Seq<char>, Json>
    decreases results.len(),
{
    if results.len() == 0 {
        Map::empty()
    } else {
        listing_json(results.drop_last()).insert(
            results.last().0@,
            Json::Object(contracts_json(results.last().1.entries@)),
        )
    }
}

fn texts_value(texts: &Vec<String>) -> (r: Value)
    ensures
        json_content(r) == texts_json(texts@),
{
    let ghost all = texts@.map_values(|t: String| Json::Text(t@));
    let mut values: Vec<Value> = Vec::new();
    let mut i: usize = 0;
    while i < texts.len()
        invariant
            i <= texts@.len(),
            all == texts@.map_values(|t: String| Json::Text(t@)),
            json_contents(values@) == all.take(i as int),
        decreases texts@.len() - i,
    {
        let ghost before = values@;
        values.push(json_text(texts[i].as_str()));
        assert(json_contents(values@) =~= json_contents(before).push(all[i as int]));
        assert(all.take(i + 1) =~= all.take(i as int).push(all[i as int]));
        i = i + 1;
    }
    assert(all.take(i as int) =~= all);
    json_list(values)
}

fn contracts_value(contracts: &Vec<(String, Vec<String>)>) -> (r: Value)
    ensures
        json_content(r) == Json::Object(contracts_json(contracts@)),
{
    let ghost all = contracts@;
    let mut object = json_object();
    assert(all.take(0) =~= Seq::<(String, Vec<String>)>::empty());
    let mut i: usize = 0;
    while i < contracts.len()
        invariant
            i <= all.len(),
            all == contracts@,
            json_content(object) == Json::Object(contracts_json(all.take(i as int))),
        decreases all.len() - i,
    {
        assert(all.take(i + 1).drop_last() =~= all.take(i as int));
        assert(all.take(i + 1).last() == all[i as int]);
        let entry = &contracts[i];
        json_set(&mut object, entry.0.as_str(), texts_value(&entry.1));
        i = i + 1;
    }
    assert(all.take(i as int) =~= all);
    object
}

fn push_contracts(out: &mut Vec<String>, contracts: &Vec<(String, Vec<String>)>)
    ensures
        strings(final(out)@) == strings(old(out)@) + contracts_lines(contracts@),
{
    let ghost all = contracts@;
    let ghost start = strings(out@);
    assert(all.take(0) =~= Seq::<(String, Vec<String>)>::empty());
    assert(start + contracts_lines(all.take(0)) =~= start);
    let mut i: usize = 0;
    while i < contracts.len()
        invariant
            i <= all.len(),
            all == contracts@,
            strings(out@) == start + contracts_lines(all.take(i as int)),
        decreases all.len() - i,
    {
        assert(all.take(i + 1).drop_last() =~= all.take(i as int));
        assert(all.take(i + 1).last() == all[i as int]);
        let entry = &contracts[i];
        let mut name = "  ".to_owned();
        name.append(entry.0.as_str());
        let mut tests = "    ".to_owned();
        tests.append(join(&entry.1, "\n    ").as_str());
        tests.append("\n");
        let ghost lines = contract_lines(entry.0@, strings(entry.1@));
        let ghost before = strings(out@);
        assert(lines =~= seq![name@, tests@]);
        out.push(name);
        out.push(tests);
        assert(strings(out@) =~= before + lines);
        assert(strings(out@) =~= start + contracts_lines(all.take(i + 1)));
        i = i + 1;
    }
    assert(all.take(i as int) =~= all);
}

/// The lines that list the tests of each contract of each file: one line of JSON, or an indented
/// list.
pub fn list_tests(results: &TextMap<TextMap<Vec<String>>>, is_json: bool) -> (r: Vec<String>)
    ensures
        strings(r@) == if is_json {
            seq![compact_json(Json::Object(listing_json(results.entries@)))]
        } else {
            listing(results.entries@)
        },
{
    let ghost all = results.entries@;
    assert(all.take(0) =~= Seq::<(String, TextMap<Vec<String>>)>::empty());
    let mut out: Vec<String> = Vec::new();
    let mut i: usize = 0;
    if is_json {
        let mut object = json_object();
        while i < results.entries.len()
            invariant
                i <= all.len(),
                all == results.entries@,
                json_content(object) == Json::Object(listing_json(all.take(i as int))),
            decreases all.len() - i,
        {
            assert(all.take(i + 1).drop_last() =~= all.take(i as int));
            assert(all.take(i + 1).last() == all[i as int]);
            let entry = &results.entries[i];
            json_set(&mut object, entry.0.as_str(), contracts_value(&entry.1.entries));
            i = i + 1;
        }
        assert(all.take(i as int) =~= all);
        out.push(json_compact(&object));
        assert(strings(out@) =~= seq![compact_json(Json::Object(listing_json(all)))]);
        out
    } else {
        assert(strings(out@) =~= Seq::<Seq<char>>::empty());
        while i < results.entries.len()
            invariant
                i <= all.len(),
                all == results.entries@,
                strings(out@) == listing(all.take(i as int)),
            decreases all.len() - i,
        {
            assert(all.take(i + 1).drop_last() =~= all.take(i as int));
            assert(all.take(i + 1).last() == all[i as int]);
            let entry = &results.entries[i];
            let ghost before = strings(out@);
            out.push(entry.0.as_str().to_owned());
            assert(strings(out@) =~= before.push(entry.0@));
            push_contracts(&mut out, &entry.1.entries);
            i = i + 1;
        }
        assert(all.take(i as int) =~= all);
        out
    }
}

// ---------------------------------------------------------------------------
// Failures of the last run
// ---------------------------------------------------------------------------
/// The filter that the last run left behind.
pub struct LastRun {
    /// The pattern, where one was recorded and could be read.
    pub pattern: Option<Regex>,
    /// What to warn of.
    pub warning: Option<String>,
}

/// Reads the filter that the last run left in `file`, whose content is `recorded`; there is none
/// where the file could not be read.
pub fn last_run_failures(recorded: Option<&str>, file: &str) -> (r: LastRun)
    ensures
        match recorded {
            None => r.pattern is None && r.warning is None,
            Some(text) => match regex_problem(text@) {
                None => pattern_text(r.pattern) == Some(text@) && r.warning is None,
                Some(problem) => r.pattern is None && r.warning is Some && r.warning->0@
                    == "failed to parse test filter from "@ + quoted_path(file@) + ": "@ + problem,
            },
        },
{
    match recorded {
        None => LastRun { pattern: None, warning: None },
        Some(text) => match compile(text) {
            Ok(regex) => LastRun { pattern: Some(regex), warning: None },
            Err(problem) => {
                let mut warning = "failed to parse test filter from ".to_owned();
                warning.append(show_path(file).as_str());
                warning.append(": ");
                warning.append(problem.as_str());
                LastRun { pattern: None, warning: Some(warning) }
            },
        },
    }
}

/// What precedes the first parenthesis, or all of it where there is none.
pub open spec fn before_parenthesis(name: Seq<char>) -> Seq<char> {
    match split_first(name, '(') {
        Some(p) => p.0,
        None => name,
    }
}

/// The names of the failed tests, without their parameters. The flag beside a name says whether it
/// is the name of a test.
pub open spec fn failed_names(failures: Seq<(String, bool)>) -> Seq<Seq<char>>
    decreases failures.len(),
{
    if failures.len() == 0 {
        seq![]
    } else if failures.last().1 {
        failed_names(failures.drop_last()).push(before_parenthesis(failures.last().0@))
    } else {
        failed_names(failures.drop_last())
    }
}

/// What is done with the file that records failures.
#[derive(Debug)]
pub enum Persist {
    /// The file is left as it is.
    Keep,
    /// The file is emptied.
    Clear,
    /// The file holds this filter.
    Write(String),
}

/// Decides what to record of a run's failures: a filter that matches each failed test by name, and
/// nothing where no test failed.
pub fn persist_run_failures(failed: usize, failures: &Vec<(String, bool)>) -> (r: Persist)
    ensures
        ({
            let filter = joined(failed_names(failures@), "|"@);
            match r {
                Persist::Keep => failed == 0,
                Persist::Clear => failed > 0 && filter.len() == 0,
                Persist::Write(text) => failed > 0 && filter.len() > 0 && text@ == filter,
            }
        }),
{
    if failed == 0 {
        return Persist::Keep;
    }
    let ghost all = failures@;
    assert(all.take(0) =~= Seq::<(String, bool)>::empty());
    let mut names: Vec<String> = Vec::new();
    assert(strings(names@) =~= Seq::<Seq<char>>::empty());
    let mut i: usize = 0;
    while i < failures.len()
        invariant
            i <= all.len(),
            all == failures@,
            strings(names@) == failed_names(all.take(i as int)),
        decreases all.len() - i,
    {
        assert(all.take(i + 1).drop_last() =~= all.take(i as int));
        assert(all.take(i + 1).last() == all[i as int]);
        let entry = &failures[i];
        if entry.1 {
            let name = match split_once(entry.0.as_str(), '(') {
                Some((name, _)) => name,
                None => entry.0.as_str(),
            };
            let ghost before = strings(names@);
            names.push(name.to_owned());
            assert(strings(names@) =~= before.push(before_parenthesis(entry.0@)));
        }
        i = i + 1;
    }
    assert(all.take(i as int) =~= all);
    let filter = join(&names, "|");
    if filter.as_str().is_empty() {
        Persist::Clear
    } else {
        Persist::Write(filter)
    }
}

/// The recorded filter holds the name of every test that failed.
pub proof fn law_filter_names_every_failure(failures: Seq<(String, bool)>, i: int)
    requires
        0 <= i < failures.len(),
        failures[i].1,
    ensures
        occurs(joined(failed_names(failures), "|"@), before_parenthesis(failures[i].0@)),
{
    lemma_failed_name(failures, i);
    let names = failed_names(failures);
    let k = choose|k: int|
        0 <= k < names.len() && names[k] == before_parenthesis(failures[i].0@);
    lemma_part_occurs(names, "|"@, k);
}

proof fn lemma_failed_name(failures: Seq<(String, bool)>, i: int)
    requires
        0 <= i < failures.len(),
        failures[i].1,
    ensures
        failed_names(failures).contains(before_parenthesis(failures[i].0@)),
    decreases failures.len(),
{
    let rest = failures.drop_last();
    let name = before_parenthesis(failures[i].0@);
    let names = failed_names(failures);
    if i < rest.len() {
        lemma_failed_name(rest, i);
        assert(rest[i] == failures[i]);
        let k = choose|k: int| 0 <= k < failed_names(rest).len() && failed_names(rest)[k] == name;
        assert(names[k] == name);
    } else {
        assert(names[names.len() - 1] == name);
    }
}

proof fn lemma_part_occurs(parts: Seq<Seq<char>>, sep: Seq<char>, k: int)
    requires
        0 <= k < parts.len(),
    ensures
        occurs(joined(parts, sep), parts[k]),
    decreases parts.len(),
{
    let all = joined(parts, sep);
    if parts.len() == 1 {
        assert(all.subrange(0, all.len() as int) =~= all);
        assert(occurs_at(all, parts[k], 0));
    } else {
        let rest = joined(parts.drop_last(), sep);
        if k < parts.len() - 1 {
            lemma_part_occurs(parts.drop_last(), sep, k);
            assert(parts.drop_last()[k] == parts[k]);
            let j = choose|j: int| occurs_at(rest, parts[k], j);
            assert(all.subrange(j, j + parts[k].len()) =~= rest.subrange(j, j + parts[k].len()));
            assert(occurs_at(all, parts[k], j));
        } else {
            let j = (rest + sep).len() as int;
            assert(all.subrange(j, j + parts[k].len()) =~= parts[k]);
            assert(occurs_at(all, parts[k], j));
        }
    }
}

// ---------------------------------------------------------------------------
// JUnit
// ---------------------------------------------------------------------------
/// The log lines of a test. Line breaks are written as a backslash and an `n`.
pub open spec fn log_text(logs: Seq<Seq<char>>) -> Seq<char>
    decreases logs.len(),
{
    if logs.len() == 0 {
        seq![]
    } else {
        log_text(logs.drop_last()) + "  "@ + logs.last() + "\\n"@
    }
}

/// What is noted as a test's output: its result, name and report, and what it logged where that was
/// asked for.
pub open spec fn case_output(name: Seq<char>, result: TestResult, verbosity: u8) -> Seq<char> {
    let line = result.shown@ + " "@ + name + " "@ + result.report@;
    if verbosity >= 2 && result.has_logs {
        line + "\\nLogs:\\n"@ + log_text(strings(result.console_logs@))
    } else {
        line
    }
}

/// How a test ended, in JUnit's terms.
pub open spec fn case_status(result: TestResult) -> JunitStatus {
    let reason = match result.reason {
        Some(text) => Some(xml_text(text@)),
        None => None,
    };
    match result.status {
        TestStatus::Success => JunitStatus::Success,
        TestStatus::Failure => JunitStatus::Failure(reason),
        TestStatus::Skipped => JunitStatus::Skipped(reason),
    }
}

/// One test in the report.
pub open spec fn junit_case(name: Seq<char>, result: TestResult, verbosity: u8) -> JunitCase {
    JunitCase {
        name: xml_text(name),
        status: case_status(result),
        time: Some(result.duration.total()),
        system_out: Some(xml_text(case_output(name, result, verbosity))),
    }
}

/// One suite in the report.
pub open spec fn junit_suite(name: Seq<char>, suite: SuiteResult, verbosity: u8) -> JunitSuite {
    JunitSuite {
        name: xml_text(name),
        cases: suite.test_results@.map_values(
            |t: (String, TestResult)| junit_case(t.0@, t.1, verbosity),
        ),
        tests: suite.test_results@.len() as int,
        failures: suite.counted(TestStatus::Failure) as int,
        errors: 0,
        skipped: suite.counted(TestStatus::Skipped) as int,
        disabled: None,
        time: Some(suite.duration.total()),
        system_out: Some(xml_text(suite.summary@)),
    }
}

/// The sum of `f` over the suites.
pub open spec fn suite_sum(results: Results, f: spec_fn(SuiteResult) -> int) -> int
    decreases results.len(),
{
    if results.len() == 0 {
        0
    } else {
        suite_sum(results.drop_last(), f) + f(results.last().1)
    }
}

/// The number of tests.
pub open spec fn total_tests(results: Results) -> int {
    suite_sum(results, |s: SuiteResult| s.test_results@.len() as int)
}

/// The number of tests that ended in `status`.
pub open spec fn total_counted(results: Results, status: TestStatus) -> int {
    suite_sum(results, |s: SuiteResult| s.counted(status) as int)
}

/// The time that the suites took together, in nanoseconds.
pub open spec fn total_time(results: Results) -> int {
    suite_sum(results, |s: SuiteResult| s.duration.total())
}

/// The report.
pub open spec fn junit_report(results: Results, verbosity: u8) -> JunitReport {
    JunitReport {
        name: xml_text("Test run"@),
        suites: results.map_values(
            |r: (String, SuiteResult)| junit_suite(r.0@, r.1, verbosity),
        ),
        tests: total_tests(results),
        failures: total_counted(results, TestStatus::Failure),
        errors: 0,
        skipped: total_counted(results, TestStatus::Skipped),
        disabled: None,
        time: Some(total_time(results)),
        stamped: true,
    }
}

/// Every span of time is well-formed.
pub open spec fn valid_times(results: Results) -> bool {
    forall|i: int| 0 <= i < results.len() ==> valid_suite_times((#[trigger] results[i]).1)
}

/// Every span of time in a suite is well-formed.
pub open spec fn valid_suite_times(suite: SuiteResult) -> bool {
    &&& suite.duration.wf()
    &&& forall|i: int|
        0 <= i < suite.test_results@.len() ==> (#[trigger] suite.test_results@[i]).1.duration.wf()
}

proof fn lemma_suite_sum_grows(results: Results, f: spec_fn(SuiteResult) -> int, i: int)
    requires
        0 <= i <= results.len(),
        forall|s: SuiteResult| #[trigger] f(s) >= 0,
    ensures
        suite_sum(results.take(i), f) <= suite_sum(results, f),
    decreases results.len(),
{
    if i < results.len() {
        lemma_suite_sum_grows(results.drop_last(), f, i);
        assert(results.drop_last().take(i) =~= results.take(i));
    } else {
        assert(results.take(i) =~= results);
    }
}

proof fn lemma_counts_below_tests(results: Results, status: TestStatus)
    ensures
        total_counted(results, status) <= total_tests(results),
    decreases results.len(),
{
    if results.len() > 0 {
        lemma_counts_below_tests(results.drop_last(), status);
        lemma_count_bound(statuses(results.last().1.test_results@), status);
    }
}

fn output_of(name: &str, result: &TestResult, verbosity: u8) -> (r: String)
    ensures
        r@ == case_output(name@, *result, verbosity),
{
    let mut out = result.shown.as_str().to_owned();
    out.append(" ");
    out.append(name);
    out.append(" ");
    out.append(result.report.as_str());
    if verbosity >= 2 && result.has_logs {
        out.append("\\nLogs:\\n");
        let ghost start = out@;
        let ghost all = strings(result.console_logs@);
        assert(all.take(0) =~= Seq::<Seq<char>>::empty());
        assert(start + log_text(all.take(0)) =~= start);
        let mut i: usize = 0;
        while i < result.console_logs.len()
            invariant
                i <= all.len(),
                all == strings(result.console_logs@),
                out@ == start + log_text(all.take(i as int)),
            decreases all.len() - i,
        {
            assert(all.take(i + 1).drop_last() =~= all.take(i as int));
            assert(all.take(i + 1).last() == all[i as int]);
            out.append("  ");
            out.append(result.console_logs[i].as_str());
            out.append("\\n");
            assert(out@ =~= start + log_text(all.take(i + 1)));
            i = i + 1;
        }
        assert(all.take(i as int) =~= all);
    }
    out
}

fn case_of(name: &str, result: &TestResult, verbosity: u8) -> (r: TestCase)
    requires
        result.duration.wf(),
    ensures
        case_content(r) == junit_case(name@, *result, verbosity),
{
    let mut status = match result.status {
        TestStatus::Success => success(),
        TestStatus::Failure => failure(),
        TestStatus::Skipped => skipped(),
    };
    if let Some(reason) = &result.reason {
        set_message(&mut status, reason.as_str());
    }
    assert(status_content(status) == case_status(*result));
    let mut case = new_case(name, status);
    set_case_time(&mut case, result.duration.secs, result.duration.nanos);
    let out = output_of(name, result, verbosity);
    set_case_output(&mut case, out.as_str());
    case
}

fn suite_of(name: &str, suite: &SuiteResult, verbosity: u8) -> (r: TestSuite)
    requires
        valid_suite_times(*suite),
    ensures
        suite_content(r) == junit_suite(name@, *suite, verbosity),
{
    let mut out = new_suite(name);
    set_suite_time(&mut out, suite.duration.secs, suite.duration.nanos);
    set_suite_output(&mut out, suite.summary.as_str());
    let ghost tests = suite.test_results@;
    let ghost cases = tests.map_values(|t: (String, TestResult)| junit_case(t.0@, t.1, verbosity));
    let ghost ends = statuses(tests);
    assert(ends.take(0) =~= Seq::<TestStatus>::empty());
    assert(cases.take(0) =~= Seq::<JunitCase>::empty());
    let mut i: usize = 0;
    while i < suite.test_results.len()
        invariant
            i <= tests.len(),
            tests == suite.test_results@,
            cases == tests.map_values(
                |t: (String, TestResult)| junit_case(t.0@, t.1, verbosity),
            ),
            ends == statuses(tests),
            valid_suite_times(*suite),
            suite_content(out) == (JunitSuite {
                cases: cases.take(i as int),
                tests: i as int,
                failures: count_of(ends.take(i as int), TestStatus::Failure) as int,
                skipped: count_of(ends.take(i as int), TestStatus::Skipped) as int,
                ..junit_suite(name@, *suite, verbosity)
            }),
        decreases tests.len() - i,
    {
        let entry = &suite.test_results[i];
        let case = case_of(entry.0.as_str(), &entry.1, verbosity);
        proof {
            lemma_count_bound(ends.take(i as int), TestStatus::Failure);
            lemma_count_bound(ends.take(i as int), TestStatus::Skipped);
            assert(ends.take(i + 1).drop_last() =~= ends.take(i as int));
            assert(ends.take(i + 1).last() == entry.1.status);
            assert(cases.take(i + 1) =~= cases.take(i as int).push(cases[i as int]));
        }
        add_case(&mut out, case);
        i = i + 1;
    }
    assert(ends.take(i as int) =~= ends);
    assert(cases.take(i as int) =~= cases);
    out
}

/// The report on a run in JUnit's form, made now.
pub fn junit_xml_report(results: &TextMap<SuiteResult>, verbosity: u8) -> (r: Report)
    requires
        valid_times(results.entries@),
        total_tests(results.entries@) <= usize::MAX,
        total_time(results.entries@) < (u64::MAX + 1) * 1_000_000_000,
    ensures
        report_content(r) == junit_report(results.entries@, verbosity),
{
    let ghost all = results.entries@;
    let ghost suites = all.map_values(
        |r: (String, SuiteResult)| junit_suite(r.0@, r.1, verbosity),
    );
    let mut total = Elapsed::zero();
    let mut report = new_report("Test run");
    stamp(&mut report);
    assert(all.take(0) =~= Seq::<(String, SuiteResult)>::empty());
    assert(suites.take(0) =~= Seq::<JunitSuite>::empty());
    let mut i: usize = 0;
    while i < results.entries.len()
        invariant
            i <= all.len(),
            all == results.entries@,
            suites == all.map_values(
                |r: (String, SuiteResult)| junit_suite(r.0@, r.1, verbosity),
            ),
            valid_times(all),
            total_tests(all) <= usize::MAX,
            total_time(all) < (u64::MAX + 1) * 1_000_000_000,
            total.wf(),
            total.total() == total_time(all.take(i as int)),
            report_content(report) == (JunitReport {
                suites: suites.take(i as int),
                tests: total_tests(all.take(i as int)),
                failures: total_counted(all.take(i as int), TestStatus::Failure),
                skipped: total_counted(all.take(i as int), TestStatus::Skipped),
                time: None,
                ..junit_report(all, verbosity)
            }),
        decreases all.len() - i,
    {
        let entry = &results.entries[i];
        let suite = suite_of(entry.0.as_str(), &entry.1, verbosity);
        proof {
            assert(all.take(i + 1).drop_last() =~= all.take(i as int));
            assert(all.take(i + 1).last() == all[i as int]);
            assert(suites.take(i + 1) =~= suites.take(i as int).push(suites[i as int]));
            lemma_suite_sum_grows(all, |s: SuiteResult| s.test_results@.len() as int, i + 1);
            lemma_suite_sum_grows(all, |s: SuiteResult| s.duration.total(), i + 1);
            lemma_counts_below_tests(all.take(i + 1), TestStatus::Failure);
            lemma_counts_below_tests(all.take(i + 1), TestStatus::Skipped);
        }
        total = total.plus(entry.1.duration);
        add_suite(&mut report, suite);
        i = i + 1;
    }
    assert(all.take(i as int) =~= all);
    assert(suites.take(i as int) =~= suites);
    set_report_time(&mut report, total.secs, total.nanos);
    report
}

/// The XML document for a report.
pub fn junit_xml_text(report: &Report) -> (r: Result<String, quick_junit::SerializeError>)
    ensures
        match r {
            Ok(text) => report_document(*report) == Some(text@),
            Err(_) => report_document(*report) is None,
        },
{
    document(report)
}

/// A report counts every test of every suite once: as passed, as failed or as skipped.
pub proof fn law_report_counts_every_test(results: Results, verbosity: u8)
    ensures
        junit_report(results, verbosity).tests == total_counted(results, TestStatus::Success)
            + junit_report(results, verbosity).failures + junit_report(results, verbosity).skipped,
    decreases results.len(),
{
    if results.len() > 0 {
        law_report_counts_every_test(results.drop_last(), verbosity);
        law_every_test_is_counted_once(results.last().1);
    }
}

// ---------------------------------------------------------------------------
// Laws
// ---------------------------------------------------------------------------
/// How many tests of a suite ended in `status`.
pub open spec fn ended_in(suite: SuiteResult, status: TestStatus) -> nat {
    suite.test_results@.filter(|t: (String, TestResult)| t.1.status == status).len()
}

/// The contract of a key is what follows its last colon, and the path what precedes it.
pub proof fn law_halves_of_a_key(path: Seq<char>, contract: Seq<char>)
    requires
        !contract.contains(':'),
    ensures
        split_last(path + seq![':'] + contract, ':') == Some((path, contract)),
        path_of(path + seq![':'] + contract) == path,
        contract_of(path + seq![':'] + contract) == contract,
        split_last(contract, ':') is None,
{
    let s = path + seq![':'] + contract;
    contract.index_of_last_ensures(':');
    s.index_of_last_ensures(':');
    assert(s[path.len() as int] == ':');
    assert(s.contains(':'));
    let k = s.index_of_last(':')->0;
    if k < path.len() {
        assert(s[path.len() as int] != ':');
    }
    if k > path.len() {
        assert(contract[k - path.len() - 1] == ':');
    }
    assert(s.take(k) =~= path);
    assert(s.skip(k + 1) =~= contract);
}

/// A suite's part of the JSON summary: its contract and how many of its tests passed, failed and were
/// skipped, and in detail its file and its time as well, and nothing else.
pub proof fn law_suite_in_the_json_summary(
    path: Seq<char>,
    contract: Seq<char>,
    suite: SuiteResult,
    detailed: bool,
    key: Seq<char>,
)
    requires
        !contract.contains(':'),
    ensures
        ({
            let json = suite_json(path + seq![':'] + contract, suite, detailed);
            let m = json->Object_0;
            &&& json is Object
            &&& m.contains_key("suite"@) && m["suite"@] == Json::Text(contract)
            &&& m.contains_key("passed"@) && m["passed"@] == Json::Count(
                ended_in(suite, TestStatus::Success),
            )
            &&& m.contains_key("failed"@) && m["failed"@] == Json::Count(
                ended_in(suite, TestStatus::Failure),
            )
            &&& m.contains_key("skipped"@) && m["skipped"@] == Json::Count(
                ended_in(suite, TestStatus::Skipped),
            )
            &&& m.contains_key("file_path"@) <==> detailed
            &&& m.contains_key("duration"@) <==> detailed
            &&& detailed ==> m["file_path"@] == Json::Text(path) && m["duration"@] == Json::Text(
                duration_text(suite.duration.secs, suite.duration.nanos),
            )
            &&& m.contains_key(key) ==> key == "suite"@ || key == "passed"@ || key == "failed"@
                || key == "skipped"@ || key == "file_path"@ || key == "duration"@
        }),
{
    law_halves_of_a_key(path, contract);
    law_count_is_that_of_the_tests(suite, TestStatus::Success);
    law_count_is_that_of_the_tests(suite, TestStatus::Failure);
    law_count_is_that_of_the_tests(suite, TestStatus::Skipped);
    reveal_strlit("suite");
    reveal_strlit("passed");
    reveal_strlit("failed");
    reveal_strlit("skipped");
    reveal_strlit("file_path");
    reveal_strlit("duration");
    assert("suite"@.len() == 5 && "passed"@.len() == 6 && "failed"@.len() == 6);
    assert("skipped"@.len() == 7 && "file_path"@.len() == 9 && "duration"@.len() == 8);
    assert("passed"@[0] == 'p' && "failed"@[0] == 'f');
}

/// The JSON summary holds each suite once, in order, under one name.
pub proof fn law_json_summary_holds_every_suite(results: Results, detailed: bool, i: int)
    ensures
        summary_json(results, detailed) is Object,
        summary_json(results, detailed)->Object_0.dom() == set!["results"@],
        ({
            let list = summary_json(results, detailed)->Object_0["results"@];
            &&& list is List
            &&& list->List_0.len() == results.len()
            &&& 0 <= i < results.len() ==> list->List_0[i] == suite_json(
                results[i].0@,
                results[i].1,
                detailed,
            )
        }),
{
    assert(summary_json(results, detailed)->Object_0.dom() =~= set!["results"@]);
}

/// A suite's row of the summary table: its contract and how many of its tests passed, failed and were
/// skipped, each coloured where there are any, and in detail its file and its time as well. The header
/// names the columns in the same order.
pub proof fn law_suite_in_the_summary_table(
    path: Seq<char>,
    contract: Seq<char>,
    suite: SuiteResult,
    detailed: bool,
)
    requires
        !contract.contains(':'),
    ensures
        ({
            let row = summary_row(path + seq![':'] + contract, suite, detailed);
            let header = summary_header(detailed);
            &&& row.len() == header.len()
            &&& row.len() == if detailed {
                6int
            } else {
                4
            }
            &&& header[0].0 == "Test Suite"@ && row[0].0 == contract
            &&& header[1].0 == "Passed"@ && row[1].0 == decimal(
                ended_in(suite, TestStatus::Success),
            )
            &&& header[2].0 == "Failed"@ && row[2].0 == decimal(
                ended_in(suite, TestStatus::Failure),
            )
            &&& header[3].0 == "Skipped"@ && row[3].0 == decimal(
                ended_in(suite, TestStatus::Skipped),
            )
            &&& row[1].1 == if ended_in(suite, TestStatus::Success) > 0 {
                Some(CellColor::Green)
            } else {
                None
            }
            &&& row[2].1 == if ended_in(suite, TestStatus::Failure) > 0 {
                Some(CellColor::Red)
            } else {
                None
            }
            &&& row[3].1 == if ended_in(suite, TestStatus::Skipped) > 0 {
                Some(CellColor::Yellow)
            } else {
                None
            }
            &&& detailed ==> header[4].0 == "File Path"@ && row[4].0 == path && header[5].0
                == "Duration"@ && row[5].0 == duration_text(
                suite.duration.secs,
                suite.duration.nanos,
            )
        }),
{
    law_halves_of_a_key(path, contract);
    law_count_is_that_of_the_tests(suite, TestStatus::Success);
    law_count_is_that_of_the_tests(suite, TestStatus::Failure);
    law_count_is_that_of_the_tests(suite, TestStatus::Skipped);
}

/// A function's row of the metrics table: the contract and the selector, which the first dot behind the
/// file divides, and how often it was called, reverted and was discarded. Without such a dot there is
/// no row.
pub proof fn law_row_of_metrics(
    file: Seq<char>,
    contract: Seq<char>,
    selector: Seq<char>,
    other: Seq<char>,
    metrics: InvariantMetrics,
)
    requires
        !file.contains(':'),
        !contract.contains('.'),
        !other.contains('.'),
    ensures
        ({
            let row = metrics_row(
                file + seq![':'] + (contract + seq!['.'] + selector),
                metrics,
            );
            &&& row is Some
            &&& row->0.len() == 5
            &&& row->0[0].0 == contract
            &&& row->0[1].0 == selector
            &&& row->0[2].0 == decimal(metrics.calls as nat)
            &&& row->0[3].0 == decimal(metrics.reverts as nat)
            &&& row->0[4].0 == decimal(metrics.discards as nat)
            &&& row->0[2].1 == Some(
                if metrics.calls > 0 {
                    CellColor::Green
                } else {
                    CellColor::White
                },
            )
            &&& row->0[3].1 == Some(
                if metrics.reverts > 0 {
                    CellColor::Red
                } else {
                    CellColor::White
                },
            )
            &&& row->0[4].1 == Some(
                if metrics.discards > 0 {
                    CellColor::Yellow
                } else {
                    CellColor::White
                },
            )
        }),
        metrics_row(file + seq![':'] + other, metrics) is None,
        metrics_header().map_values(|c: CellView| c.0) == seq![
            "Contract"@,
            "Selector"@,
            "Calls"@,
            "Reverts"@,
            "Discards"@,
        ],
{
    let name = contract + seq!['.'] + selector;
    lemma_split_first_at(file, ':', name);
    lemma_split_first_at(file, ':', other);
    lemma_split_first_at(contract, '.', selector);
    other.index_of_first_ensures('.');
    assert(metrics_header().map_values(|c: CellView| c.0) =~= seq![
        "Contract"@,
        "Selector"@,
        "Calls"@,
        "Reverts"@,
        "Discards"@,
    ]);
}

proof fn lemma_split_first_at(a: Seq<char>, c: char, b: Seq<char>)
    requires
        !a.contains(c),
    ensures
        split_first(a + seq![c] + b, c) == Some((a, b)),
{
    let s = a + seq![c] + b;
    assert(s[a.len() as int] == c);
    assert(s.contains(c));
    s.index_of_first_ensures(c);
    let k = s.index_of_first(c)->0;
    if k < a.len() {
        assert(a[k] == c);
    }
    assert(s.take(k) =~= a);
    assert(s.skip(k + 1) =~= b);
}

/// The rows of the metrics table stand in the order of the functions, each made for itself.
pub proof fn law_metrics_rows_go_one_by_one(
    a: Seq<(String, InvariantMetrics)>,
    b: Seq<(String, InvariantMetrics)>,
    entry: (String, InvariantMetrics),
)
    ensures
        metrics_rows(a + b) == metrics_rows(a) + metrics_rows(b),
        metrics_row(entry.0@, entry.1) is Some ==> metrics_rows(seq![entry]) == seq![
            metrics_row(entry.0@, entry.1)->0,
        ],
        metrics_row(entry.0@, entry.1) is None ==> metrics_rows(seq![entry]).len() == 0,
    decreases b.len(),
{
    reveal_with_fuel(metrics_rows, 2);
    assert(seq![entry].drop_last() =~= Seq::<(String, InvariantMetrics)>::empty());
    if metrics_row(entry.0@, entry.1) is Some {
        assert(metrics_rows(seq![entry]) =~= seq![metrics_row(entry.0@, entry.1)->0]);
    }
    if b.len() == 0 {
        assert(a + b =~= a);
    } else {
        law_metrics_rows_go_one_by_one(a, b.drop_last(), entry);
        assert((a + b).drop_last() =~= a + b.drop_last());
        assert((a + b).last() == b.last());
    }
    assert(metrics_rows(a + b) =~= metrics_rows(a) + metrics_rows(b));
}

/// Tables on a test run are Markdown where that is asked for.
pub proof fn law_look_of_reports(is_markdown: bool)
    ensures
        is_markdown <==> report_look(is_markdown) == TableLook::Markdown,
        !is_markdown <==> report_look(is_markdown) == TableLook::RoundedMarkdown,
{
}

/// A listing names each file, below it its contracts, indented by two, and below each its tests,
/// indented by four, one on a line. Files and contracts follow each other in order.
pub proof fn law_listing_goes_one_by_one(
    results: Seq<(String, TextMap<Vec<String>>)>,
    file: (String, TextMap<Vec<String>>),
    contracts: Seq<(String, Vec<String>)>,
    contract: (String, Vec<String>),
    tests: Seq<Seq<char>>,
    test: Seq<char>,
)
    ensures
        listing(Seq::<(String, TextMap<Vec<String>>)>::empty()).len() == 0,
        listing(results.push(file)) == listing(results) + seq![file.0@] + contracts_lines(
            file.1.entries@,
        ),
        contracts_lines(Seq::<(String, Vec<String>)>::empty()).len() == 0,
        contracts_lines(contracts.push(contract)) == contracts_lines(contracts) + contract_lines(
            contract.0@,
            strings(contract.1@),
        ),
        contract_lines(contract.0@, tests).len() == 2,
        contract_lines(contract.0@, tests)[0] == "  "@ + contract.0@,
        contract_lines(contract.0@, seq![test])[1] == "    "@ + test + "\n"@,
        tests.len() > 0 ==> contract_lines(contract.0@, tests.push(test))[1] == contract_lines(
            contract.0@,
            tests,
        )[1] + "    "@ + test + "\n"@,
{
    reveal_strlit("\n    ");
    reveal_strlit("\n");
    reveal_strlit("    ");
    assert(results.push(file).drop_last() =~= results);
    assert(contracts.push(contract).drop_last() =~= contracts);
    assert(listing(results).push(file.0@) =~= listing(results) + seq![file.0@]);
    assert(tests.push(test).drop_last() =~= tests);
    assert("\n    "@ =~= "\n"@ + "    "@);
    if tests.len() > 0 {
        assert(contract_lines(contract.0@, tests.push(test))[1] =~= contract_lines(
            contract.0@,
            tests,
        )[1] + "    "@ + test + "\n"@);
    }
}

/// In JSON a listing leads from each file to its contracts and from each contract to its tests.
pub proof fn law_json_listing(
    results: Seq<(String, TextMap<Vec<String>>)>,
    file: (String, TextMap<Vec<String>>),
    contracts: Seq<(String, Vec<String>)>,
    contract: (String, Vec<String>),
    i: int,
)
    ensures
        listing_json(results.push(file)) == listing_json(results).insert(
            file.0@,
            Json::Object(contracts_json(file.1.entries@)),
        ),
        listing_json(Seq::<(String, TextMap<Vec<String>>)>::empty()) == Map::<
            Seq<char>,
            Json,
        >::empty(),
        contracts_json(contracts.push(contract)) == contracts_json(contracts).insert(
            contract.0@,
            texts_json(contract.1@),
        ),
        contracts_json(Seq::<(String, Vec<String>)>::empty()) == Map::<Seq<char>, Json>::empty(),
        texts_json(contract.1@) is List,
        texts_json(contract.1@)->List_0.len() == contract.1@.len(),
        0 <= i < contract.1@.len() ==> texts_json(contract.1@)->List_0[i] == Json::Text(
            contract.1@[i]@,
        ),
{
    assert(results.push(file).drop_last() =~= results);
    assert(contracts.push(contract).drop_last() =~= contracts);
}

/// A failed test is recorded by its name up to the first parenthesis, and what failed besides tests is
/// not. The names stand in order, with a bar between each two.
pub proof fn law_recorded_failures(
    failures: Seq<(String, bool)>,
    entry: (String, bool),
    name: Seq<char>,
    rest: Seq<char>,
    names: Seq<Seq<char>>,
)
    requires
        !name.contains('('),
    ensures
        before_parenthesis(name + seq!['('] + rest) == name,
        before_parenthesis(name) == name,
        entry.1 ==> failed_names(failures.push(entry)) == failed_names(failures).push(
            before_parenthesis(entry.0@),
        ),
        !entry.1 ==> failed_names(failures.push(entry)) == failed_names(failures),
        failed_names(Seq::<(String, bool)>::empty()).len() == 0,
        joined(seq![name], "|"@) == name,
        names.len() > 0 ==> joined(names.push(name), "|"@) == joined(names, "|"@) + "|"@ + name,
        joined(Seq::<Seq<char>>::empty(), "|"@).len() == 0,
{
    lemma_split_first_at(name, '(', rest);
    name.index_of_first_ensures('(');
    assert(failures.push(entry).drop_last() =~= failures);
    assert(names.push(name).drop_last() =~= names);
}

/// What is noted of a test in the report: its name, how it ended and why, the time it took, and as its
/// output the result, the name and the report in words, with its logs from verbosity 2 on, each line
/// indented.
pub proof fn law_test_in_the_report(
    name: Seq<char>,
    result: TestResult,
    verbosity: u8,
    logs: Seq<Seq<char>>,
    log: Seq<char>,
)
    ensures
        ({
            let case = junit_case(name, result, verbosity);
            let line = result.shown@ + " "@ + name + " "@ + result.report@;
            &&& case.name == xml_text(name)
            &&& case.time == Some(result.duration.secs * 1_000_000_000 + result.duration.nanos)
            &&& case.status is Success <==> result.status == TestStatus::Success
            &&& case.status is Failure <==> result.status == TestStatus::Failure
            &&& case.status is Skipped <==> result.status == TestStatus::Skipped
            &&& result.reason matches Some(reason) ==> {
                &&& result.status == TestStatus::Failure ==> case.status == JunitStatus::Failure(
                    Some(xml_text(reason@)),
                )
                &&& result.status == TestStatus::Skipped ==> case.status == JunitStatus::Skipped(
                    Some(xml_text(reason@)),
                )
            }
            &&& result.reason is None ==> {
                &&& result.status == TestStatus::Failure ==> case.status == JunitStatus::Failure(
                    None,
                )
                &&& result.status == TestStatus::Skipped ==> case.status == JunitStatus::Skipped(
                    None,
                )
            }
            &&& verbosity < 2 || !result.has_logs ==> case.system_out == Some(xml_text(line))
            &&& verbosity >= 2 && result.has_logs ==> case.system_out == Some(
                xml_text(line + "\\nLogs:\\n"@ + log_text(strings(result.console_logs@))),
            )
        }),
        log_text(logs.push(log)) == log_text(logs) + "  "@ + log + "\\n"@,
        log_text(Seq::<Seq<char>>::empty()).len() == 0,
{
    assert(logs.push(log).drop_last() =~= logs);
}

/// What is noted of a suite in the report: its name, each of its tests in order, how many there are and
/// how many of them failed and were skipped, the time it took and its summary.
pub proof fn law_suite_in_the_report(name: Seq<char>, suite: SuiteResult, verbosity: u8, i: int)
    ensures
        ({
            let s = junit_suite(name, suite, verbosity);
            &&& s.name == xml_text(name)
            &&& s.cases.len() == suite.test_results@.len()
            &&& 0 <= i < s.cases.len() ==> s.cases[i] == junit_case(
                suite.test_results@[i].0@,
                suite.test_results@[i].1,
                verbosity,
            )
            &&& s.tests == suite.test_results@.len()
            &&& s.failures == ended_in(suite, TestStatus::Failure)
            &&& s.skipped == ended_in(suite, TestStatus::Skipped)
            &&& s.errors == 0
            &&& s.disabled is None
            &&& s.time == Some(suite.duration.secs * 1_000_000_000 + suite.duration.nanos)
            &&& s.system_out == Some(xml_text(suite.summary@))
        }),
{
    law_count_is_that_of_the_tests(suite, TestStatus::Failure);
    law_count_is_that_of_the_tests(suite, TestStatus::Skipped);
}

/// One more suite is one more part of the report, behind the others, and adds its tests, failures,
/// skipped tests and time to those of the report. A report on nothing counts nothing.
pub proof fn law_report_grows_by_each_suite(
    results: Results,
    entry: (String, SuiteResult),
    verbosity: u8,
)
    ensures
        ({
            let before = junit_report(results, verbosity);
            let after = junit_report(results.push(entry), verbosity);
            let suite = junit_suite(entry.0@, entry.1, verbosity);
            &&& after.suites == before.suites.push(suite)
            &&& after.tests == before.tests + entry.1.test_results@.len()
            &&& after.failures == before.failures + ended_in(entry.1, TestStatus::Failure)
            &&& after.skipped == before.skipped + ended_in(entry.1, TestStatus::Skipped)
            &&& after.errors == 0
            &&& after.time == Some(
                before.time->0 + entry.1.duration.secs * 1_000_000_000 + entry.1.duration.nanos,
            )
            &&& after.name == xml_text("Test run"@)
            &&& after.stamped
            &&& results.len() == 0 ==> before.tests == 0 && before.failures == 0 && before.skipped
                == 0 && before.time == Some(0int) && before.suites.len() == 0
        }),
{
    let more = results.push(entry);
    assert(more.drop_last() =~= results);
    law_count_is_that_of_the_tests(entry.1, TestStatus::Failure);
    law_count_is_that_of_the_tests(entry.1, TestStatus::Skipped);
    assert(junit_report(more, verbosity).suites =~= junit_report(results, verbosity).suites.push(
        junit_suite(entry.0@, entry.1, verbosity),
    ));
}

} // verus!
