//! Gas snapshots: what each test used, and how that compares with what was recorded.
use crate::ordered::in_order;
use crate::ordered::is_sorted_form;
use crate::ordered::is_stable_sort;
use crate::ordered::law_sorted_form_is_unique;
use crate::ordered::law_stable_sort_is_permutation;
use crate::ordered::lemma_text_order_total;
use crate::ordered::sort_by_key;
use crate::ordered::sort_texts;
use crate::ordered::text_before;
use crate::ordered::with_key;
use crate::ordered::Keyed;
use crate::paint::green;
use crate::paint::painted;
use crate::paint::red;
use crate::paint::yellow;
use crate::tables::add_colored;
use crate::tables::add_row;
use crate::tables::add_text;
use crate::tables::load_look;
use crate::tables::new_row;
use crate::tables::new_table;
use crate::tables::row_cells;
use crate::tables::set_header;
use crate::tables::table_header;
use crate::tables::table_look;
use crate::tables::table_rows;
use crate::tables::CellColor;
use crate::tables::CellView;
use crate::tables::TableLook;
use crate::text::decimal;
use crate::text::decimal_signed;
use crate::text::decimal_text;
use crate::text::join;
use crate::text::joined;
use crate::text::lemma_joined_is_split;
use crate::text::repeated;
use crate::text::signed_text;
use crate::text::split_all;
use crate::text::strings;
use alloy_primitives::map::HashMap;
use comfy_table::Table;
use vstd::prelude::*;
use vstd::string::StringExecFns;

verus! {

// ---------------------------------------------------------------------------
// Tests and entries
// ---------------------------------------------------------------------------
/// The gas that a test used, and how that is shown.
#[derive(Debug)]
pub struct KindReport {
    pub gas: u64,
    pub shown: String,
}

/// A test that was run.
#[derive(Debug)]
pub struct SuiteTestResult {
    pub contract_name: String,
    pub signature: String,
    /// The gas by which tests are selected and sorted.
    pub gas_used: u64,
    pub report: KindReport,
}

/// A line of a snapshot file.
#[derive(Debug)]
pub struct GasSnapshotEntry {
    pub contract_name: String,
    pub signature: String,
    pub gas_used: KindReport,
}

/// A test's full name.
pub open spec fn full_name(contract: Seq<char>, signature: Seq<char>) -> Seq<char> {
    contract + "::"@ + signature
}

fn name_of(test: &SuiteTestResult) -> (r: String)
    ensures
        r@ == full_name(test.contract_name@, test.signature@),
{
    let mut name = test.contract_name.as_str().to_owned();
    name.append("::");
    name.append(test.signature.as_str());
    name
}

// ---------------------------------------------------------------------------
// Selecting
// ---------------------------------------------------------------------------
/// Which tests go into a snapshot, and in which order.
#[derive(Debug, Clone, Copy)]
pub struct GasSnapshotConfig {
    /// Sort by gas used, ascending.
    pub asc: bool,
    /// Sort by gas used, descending.
    pub desc: bool,
    /// Only tests that used more gas than this are kept.
    pub min: Option<u64>,
    /// Only tests that used less gas than this are kept.
    pub max: Option<u64>,
}

impl Default for GasSnapshotConfig {
    fn default() -> (r: Self)
        ensures
            !r.asc,
            !r.desc,
            r.min is None,
            r.max is None,
    {
        GasSnapshotConfig { asc: false, desc: false, min: None, max: None }
    }
}

/// Sorting by the gas that was used.
pub struct ByGas;

impl Keyed<ByGas> for SuiteTestResult {
    open spec fn key(&self) -> int {
        self.gas_used as int
    }

    fn sort_key(&self) -> (r: u128) {
        self.gas_used as u128
    }
}

impl GasSnapshotConfig {
    /// `gas_used` lies within the limits.
    pub open spec fn in_range(&self, gas_used: int) -> bool {
        &&& self.min matches Some(min) ==> min < gas_used
        &&& self.max matches Some(max) ==> gas_used < max
    }

    /// The tests within the limits, in the order they came in.
    pub open spec fn selected(&self, tests: Seq<SuiteTestResult>) -> Seq<SuiteTestResult> {
        tests.filter(|t: SuiteTestResult| self.in_range(t.gas_used as int))
    }

    /// `kept` are the tests within the limits, sorted as configured.
    pub open spec fn is_selection(
        &self,
        tests: Seq<SuiteTestResult>,
        kept: Seq<SuiteTestResult>,
    ) -> bool {
        if self.asc {
            is_stable_sort::<ByGas, SuiteTestResult>(self.selected(tests), kept, false)
        } else if self.desc {
            is_stable_sort::<ByGas, SuiteTestResult>(self.selected(tests), kept, true)
        } else {
            kept == self.selected(tests)
        }
    }

    /// Whether `gas_used` lies within the limits.
    pub fn is_in_gas_range(&self, gas_used: u64) -> (r: bool)
        ensures
            r == self.in_range(gas_used as int),
    {
        if let Some(min) = self.min {
            if gas_used <= min {
                return false;
            }
        }
        if let Some(max) = self.max {
            if gas_used >= max {
                return false;
            }
        }
        true
    }

    /// Selects the tests within the limits and sorts them as configured. Tests that used the same
    /// gas stay in the order they came in.
    pub fn apply(&self, tests: Vec<SuiteTestResult>) -> (r: Vec<SuiteTestResult>)
        ensures
            self.is_selection(tests@, r@),
    {
        let ghost all = tests@;
        let ghost pred = |t: SuiteTestResult| self.in_range(t.gas_used as int);
        let mut kept: Vec<SuiteTestResult> = Vec::new();
        proof {
            reveal(Seq::filter);
            assert(all.take(0) =~= Seq::<SuiteTestResult>::empty());
        }
        for test in it: tests.into_iter()
            invariant
                it.seq() == all,
                pred == (|t: SuiteTestResult| self.in_range(t.gas_used as int)),
                kept@ == all.take(it.index() as int).filter(pred),
        {
            proof {
                reveal(Seq::filter);
                let i = it.index() as int;
                assert(all.take(i + 1).drop_last() =~= all.take(i));
                assert(all.take(i + 1).last() == test);
            }
            if self.is_in_gas_range(test.gas_used) {
                kept.push(test);
            }
        }
        assert(all.take(all.len() as int) =~= all);
        if self.asc {
            sort_by_key::<ByGas, SuiteTestResult>(kept, false)
        } else if self.desc {
            sort_by_key::<ByGas, SuiteTestResult>(kept, true)
        } else {
            kept
        }
    }
}

/// Whatever the order, exactly the tests within the limits are kept.
pub proof fn law_selection_keeps_what_is_in_range(
    config: GasSnapshotConfig,
    tests: Seq<SuiteTestResult>,
    kept: Seq<SuiteTestResult>,
    descending: bool,
    test: SuiteTestResult,
)
    requires
        kept == config.selected(tests) || is_stable_sort::<ByGas, SuiteTestResult>(
            config.selected(tests),
            kept,
            descending,
        ),
    ensures
        kept.to_multiset().count(test) == if config.in_range(test.gas_used as int) {
            tests.to_multiset().count(test)
        } else {
            0
        },
        kept.to_multiset().count(test) == if (config.min is Some && test.gas_used <= config.min->0)
            || (config.max is Some && test.gas_used >= config.max->0) {
            0
        } else {
            tests.to_multiset().count(test)
        },
{
    if kept != config.selected(tests) {
        law_stable_sort_is_permutation::<ByGas, SuiteTestResult>(
            config.selected(tests),
            kept,
            descending,
        );
    }
    lemma_filter_count(
        tests,
        |t: SuiteTestResult| config.in_range(t.gas_used as int),
        test,
    );
}

/// A selection ascends or descends as configured, ascending where both are, and tests that used the
/// same gas stand in it as they came in. Where no order is configured all of them do.
pub proof fn law_selection_is_in_order(
    config: GasSnapshotConfig,
    tests: Seq<SuiteTestResult>,
    kept: Seq<SuiteTestResult>,
    gas: u64,
)
    requires
        config.is_selection(tests, kept),
    ensures
        config.asc ==> forall|i: int, j: int|
            0 <= i < j < kept.len() ==> (#[trigger] kept[i]).gas_used <= (
            #[trigger] kept[j]).gas_used,
        config.desc && !config.asc ==> forall|i: int, j: int|
            0 <= i < j < kept.len() ==> (#[trigger] kept[i]).gas_used >= (
            #[trigger] kept[j]).gas_used,
        kept.filter(|t: SuiteTestResult| t.gas_used == gas) == if (config.min is Some && gas
            <= config.min->0) || (config.max is Some && gas >= config.max->0) {
            Seq::<SuiteTestResult>::empty()
        } else {
            tests.filter(|t: SuiteTestResult| t.gas_used == gas)
        },
        !config.asc && !config.desc ==> kept == tests.filter(
            |t: SuiteTestResult|
                (config.min matches Some(min) ==> min < t.gas_used) && (config.max matches Some(max)
                    ==> t.gas_used < max),
        ),
{
    let inside = |t: SuiteTestResult| config.in_range(t.gas_used as int);
    let alike = |t: SuiteTestResult| t.gas_used == gas;
    let limits = |t: SuiteTestResult|
        (config.min matches Some(min) ==> min < t.gas_used) && (config.max matches Some(max)
            ==> t.gas_used < max);
    lemma_filter_agrees(tests, inside, limits);
    lemma_with_key_is_filter::<ByGas, SuiteTestResult>(kept, gas as int, alike);
    lemma_with_key_is_filter::<ByGas, SuiteTestResult>(config.selected(tests), gas as int, alike);
    lemma_filter_twice(tests, inside, alike);
    if config.asc || config.desc {
        assert(with_key::<ByGas, SuiteTestResult>(kept, gas as int) == with_key::<
            ByGas,
            SuiteTestResult,
        >(config.selected(tests), gas as int));
    }
    if config.asc {
        assert forall|i: int, j: int| 0 <= i < j < kept.len() implies (
        #[trigger] kept[i]).gas_used <= (#[trigger] kept[j]).gas_used by {
            assert(in_order::<ByGas, SuiteTestResult>(kept[i], kept[j], false));
        }
    } else if config.desc {
        assert forall|i: int, j: int| 0 <= i < j < kept.len() implies (
        #[trigger] kept[i]).gas_used >= (#[trigger] kept[j]).gas_used by {
            assert(in_order::<ByGas, SuiteTestResult>(kept[i], kept[j], true));
        }
    }
    if (config.min is Some && gas <= config.min->0) || (config.max is Some && gas
        >= config.max->0) {
        lemma_filter_agrees(
            tests,
            |t: SuiteTestResult| inside(t) && alike(t),
            |t: SuiteTestResult| false,
        );
        lemma_filter_none(tests);
    } else {
        lemma_filter_agrees(tests, |t: SuiteTestResult| inside(t) && alike(t), alike);
    }
}

proof fn lemma_with_key_is_filter<By, T: Keyed<By>>(s: Seq<T>, k: int, pred: spec_fn(T) -> bool)
    requires
        forall|x: T| #[trigger] pred(x) == (x.key() == k),
    ensures
        with_key::<By, T>(s, k) == s.filter(pred),
    decreases s.len(),
{
    reveal(Seq::filter);
    if s.len() > 0 {
        lemma_with_key_is_filter::<By, T>(s.drop_last(), k, pred);
        assert(pred(s.last()) == (s.last().key() == k));
    }
}

proof fn lemma_filter_none<T>(s: Seq<T>)
    ensures
        s.filter(|x: T| false) == Seq::<T>::empty(),
    decreases s.len(),
{
    reveal(Seq::filter);
    if s.len() > 0 {
        lemma_filter_none(s.drop_last());
    }
}

/// Conditions that agree pick the same items.
proof fn lemma_filter_agrees<T>(s: Seq<T>, one: spec_fn(T) -> bool, two: spec_fn(T) -> bool)
    requires
        forall|x: T| #[trigger] one(x) == two(x),
    ensures
        s.filter(one) == s.filter(two),
    decreases s.len(),
{
    reveal(Seq::filter);
    if s.len() > 0 {
        lemma_filter_agrees(s.drop_last(), one, two);
        assert(one(s.last()) == two(s.last()));
    }
}

/// Picking twice is picking by both conditions.
proof fn lemma_filter_twice<T>(s: Seq<T>, one: spec_fn(T) -> bool, two: spec_fn(T) -> bool)
    ensures
        s.filter(one).filter(two) == s.filter(|x: T| one(x) && two(x)),
    decreases s.len(),
{
    reveal(Seq::filter);
    if s.len() > 0 {
        let rest = s.drop_last();
        lemma_filter_twice(rest, one, two);
        if one(s.last()) {
            assert(rest.filter(one).push(s.last()).drop_last() =~= rest.filter(one));
        }
    }
}

proof fn lemma_filter_count<T>(s: Seq<T>, pred: spec_fn(T) -> bool, x: T)
    ensures
        s.filter(pred).to_multiset().count(x) == if pred(x) {
            s.to_multiset().count(x)
        } else {
            0
        },
    decreases s.len(),
{
    broadcast use vstd::seq_lib::group_to_multiset_ensures;

    reveal(Seq::filter);
    if s.len() > 0 {
        let rest = s.drop_last();
        lemma_filter_count(rest, pred, x);
        assert(s =~= rest.push(s.last()));
    } else {
        assert(s.to_multiset().count(x) == 0) by {
            vstd::seq_lib::to_multiset_len(s);
        }
    }
}

// ---------------------------------------------------------------------------
// Writing
// ---------------------------------------------------------------------------
/// The line for a test.
pub open spec fn snapshot_line(test: SuiteTestResult) -> Seq<char> {
    test.contract_name@ + ":"@ + test.signature@ + " "@ + test.report.shown@
}

/// The lines for the tests, in the order they came in.
pub open spec fn snapshot_lines(tests: Seq<SuiteTestResult>) -> Seq<Seq<char>> {
    tests.map_values(|t: SuiteTestResult| snapshot_line(t))
}

/// `content` is `lines`, sorted, one below the other.
pub open spec fn is_snapshot_of(content: Seq<char>, lines: Seq<Seq<char>>) -> bool {
    exists|sorted: Seq<Seq<char>>| #[trigger]
        is_sorted_form(lines, sorted) && content == joined(sorted, "\n"@)
}

/// The content of the snapshot file: a line for each test, sorted.
pub fn snapshot_content(tests: &Vec<SuiteTestResult>) -> (r: String)
    ensures
        is_snapshot_of(r@, snapshot_lines(tests@)),
{
    let ghost all = snapshot_lines(tests@);
    let mut reports: Vec<String> = Vec::new();
    assert(strings(reports@) =~= all.take(0));
    let mut i: usize = 0;
    while i < tests.len()
        invariant
            i <= tests@.len(),
            all == snapshot_lines(tests@),
            strings(reports@) == all.take(i as int),
        decreases tests@.len() - i,
    {
        let test = &tests[i];
        let mut line = test.contract_name.as_str().to_owned();
        line.append(":");
        line.append(test.signature.as_str());
        line.append(" ");
        line.append(test.report.shown.as_str());
        let ghost before = strings(reports@);
        reports.push(line);
        assert(strings(reports@) =~= before.push(all[i as int]));
        assert(all.take(i + 1) =~= all.take(i as int).push(all[i as int]));
        i = i + 1;
    }
    assert(all.take(i as int) =~= all);
    let sorted = sort_texts(reports);
    assert(is_sorted_form(all, strings(sorted@)));
    join(&sorted, "\n")
}

/// A snapshot file does not depend on the order in which the tests ran.
pub proof fn law_snapshot_ignores_test_order(
    a: Seq<SuiteTestResult>,
    b: Seq<SuiteTestResult>,
    x: Seq<char>,
    y: Seq<char>,
)
    requires
        a.to_multiset() == b.to_multiset(),
        is_snapshot_of(x, snapshot_lines(a)),
        is_snapshot_of(y, snapshot_lines(b)),
    ensures
        x == y,
{
    let s = choose|s: Seq<Seq<char>>| #[trigger]
        is_sorted_form(snapshot_lines(a), s) && x == joined(s, "\n"@);
    let t = choose|t: Seq<Seq<char>>| #[trigger]
        is_sorted_form(snapshot_lines(b), t) && y == joined(t, "\n"@);
    lemma_map_permutation(a, b);
    law_sorted_form_is_unique(snapshot_lines(a), snapshot_lines(b), s, t);
}

/// No text of a test runs over several lines.
pub open spec fn on_one_line(test: SuiteTestResult) -> bool {
    !test.contract_name@.contains('\n') && !test.signature@.contains('\n')
        && !test.report.shown@.contains('\n')
}

/// The lines of a snapshot file are sorted, and there is one for each test: the name of its contract,
/// a colon, its signature, a blank and its report as it is shown.
pub proof fn law_snapshot_file_lists_the_tests(tests: Seq<SuiteTestResult>, content: Seq<char>)
    requires
        tests.len() > 0,
        forall|i: int| 0 <= i < tests.len() ==> on_one_line(#[trigger] tests[i]),
        is_snapshot_of(content, snapshot_lines(tests)),
    ensures
        split_all(content, '\n').to_multiset() == tests.map_values(
            |t: SuiteTestResult|
                t.contract_name@ + seq![':'] + t.signature@ + seq![' '] + t.report.shown@,
        ).to_multiset(),
        forall|i: int, j: int|
            0 <= i < j < split_all(content, '\n').len() ==> #[trigger] split_all(content, '\n')[i]
                == #[trigger] split_all(content, '\n')[j] || text_before(
                split_all(content, '\n')[i],
                split_all(content, '\n')[j],
            ),
{
    broadcast use vstd::seq_lib::group_to_multiset_ensures;

    reveal_strlit(":");
    reveal_strlit(" ");
    reveal_strlit("\n");
    let lines = snapshot_lines(tests);
    let sorted = choose|s: Seq<Seq<char>>| #[trigger]
        is_sorted_form(lines, s) && content == joined(s, "\n"@);
    let written = tests.map_values(
        |t: SuiteTestResult|
            t.contract_name@ + seq![':'] + t.signature@ + seq![' '] + t.report.shown@,
    );
    assert(":"@ =~= seq![':']);
    assert(" "@ =~= seq![' ']);
    assert("\n"@ =~= seq!['\n']);
    assert(lines =~= written);
    vstd::seq_lib::to_multiset_len(lines);
    vstd::seq_lib::to_multiset_len(sorted);
    assert forall|k: int| 0 <= k < sorted.len() implies !(#[trigger] sorted[k]).contains('\n') by {
        assert(sorted.contains(sorted[k]));
        assert(sorted.to_multiset().count(sorted[k]) > 0);
        assert(lines.contains(sorted[k]));
        let i = choose|i: int| 0 <= i < lines.len() && lines[i] == sorted[k];
        let t = tests[i];
        assert(on_one_line(t));
        let line = snapshot_line(t);
        if line.contains('\n') {
            let c = choose|c: int| 0 <= c < line.len() && line[c] == '\n';
            let a = t.contract_name@.len() as int;
            let b = a + 1 + t.signature@.len();
            if c < a {
                assert(t.contract_name@[c] == '\n');
            } else if a < c && c < b {
                assert(t.signature@[c - a - 1] == '\n');
            } else if c > b {
                assert(t.report.shown@[c - b - 1] == '\n');
            }
        }
    }
    lemma_joined_is_split(sorted, '\n');
    assert forall|i: int, j: int| 0 <= i < j < sorted.len() implies #[trigger] sorted[i]
        == #[trigger] sorted[j] || text_before(sorted[i], sorted[j]) by {
        lemma_text_order_total(sorted[i], sorted[j]);
    }
}

/// What stands in a line behind the name of its test and a blank is the report as it is shown: lines
/// of tests of the same name differ where their reports do.
pub proof fn law_snapshot_line_holds_the_report(a: SuiteTestResult, b: SuiteTestResult)
    ensures
        ({
            let n = a.contract_name@.len() + 1 + a.signature@.len();
            &&& snapshot_line(a).len() == n + 1 + a.report.shown@.len()
            &&& snapshot_line(a).take(a.contract_name@.len() as int) == a.contract_name@
            &&& snapshot_line(a)[a.contract_name@.len() as int] == ':'
            &&& snapshot_line(a).subrange(a.contract_name@.len() as int + 1, n as int)
                == a.signature@
            &&& snapshot_line(a)[n as int] == ' '
            &&& snapshot_line(a).skip(n as int + 1) == a.report.shown@
        }),
        a.contract_name@ == b.contract_name@ && a.signature@ == b.signature@ ==> (snapshot_line(a)
            == snapshot_line(b) <==> a.report.shown@ == b.report.shown@),
{
    reveal_strlit(":");
    reveal_strlit(" ");
    let n = (a.contract_name@.len() + 1 + a.signature@.len()) as int;
    let m = (b.contract_name@.len() + 1 + b.signature@.len()) as int;
    let line = snapshot_line(a);
    assert(line.take(a.contract_name@.len() as int) =~= a.contract_name@);
    assert(line.subrange(a.contract_name@.len() as int + 1, n) =~= a.signature@);
    assert(line.skip(n + 1) =~= a.report.shown@);
    assert(snapshot_line(b).skip(m + 1) =~= b.report.shown@);
}

proof fn lemma_map_permutation(a: Seq<SuiteTestResult>, b: Seq<SuiteTestResult>)
    requires
        a.to_multiset() == b.to_multiset(),
    ensures
        snapshot_lines(a).to_multiset() == snapshot_lines(b).to_multiset(),
    decreases a.len(),
{
    broadcast use vstd::seq_lib::group_to_multiset_ensures;

    vstd::seq_lib::to_multiset_len(a);
    vstd::seq_lib::to_multiset_len(b);
    if a.len() == 0 {
        assert(a =~= b);
    } else {
        let x = a.last();
        let rest = a.drop_last();
        assert(a =~= rest.push(x));
        assert(a.to_multiset().count(x) > 0);
        assert(b.contains(x));
        let j = choose|j: int| 0 <= j < b.len() && b[j] == x;
        let other = b.remove(j);
        assert(b =~= other.insert(j, x));
        vstd::seq_lib::to_multiset_insert(other, j, x);
        assert(other.to_multiset() =~= b.to_multiset().remove(x));
        assert(rest.to_multiset() =~= a.to_multiset().remove(x));
        lemma_map_permutation(rest, other);
        let line = snapshot_line(x);
        assert(snapshot_lines(a) =~= snapshot_lines(rest).push(line));
        assert(snapshot_lines(b) =~= snapshot_lines(other).insert(j, line));
        vstd::seq_lib::to_multiset_insert(snapshot_lines(other), j, line);
    }
}

/// The header of the snapshot table.
pub open spec fn snapshot_header() -> Seq<CellView> {
    seq![
        ("Contract"@, Some(CellColor::Cyan)),
        ("Signature"@, Some(CellColor::Cyan)),
        ("Report"@, Some(CellColor::Cyan)),
    ]
}

/// The row for a test.
pub open spec fn snapshot_row(test: SuiteTestResult) -> Seq<CellView> {
    seq![
        (test.contract_name@, None::<CellColor>),
        (test.signature@, None::<CellColor>),
        (test.report.shown@, None::<CellColor>),
    ]
}

/// The snapshot as a table, in the order of the tests.
pub fn build_gas_snapshot_table(tests: &Vec<SuiteTestResult>, is_markdown: bool) -> (r: Table)
    ensures
        table_look(r) == Some(
            if is_markdown {
                TableLook::Markdown
            } else {
                TableLook::RoundedFull
            },
        ),
        table_header(r) == snapshot_header(),
        table_rows(r) == tests@.map_values(|t: SuiteTestResult| snapshot_row(t)),
{
    let mut table = new_table();
    if is_markdown {
        load_look(&mut table, TableLook::Markdown);
    } else {
        load_look(&mut table, TableLook::RoundedFull);
    }
    let ghost look = table_look(table);
    let mut header = new_row();
    add_colored(&mut header, "Contract", CellColor::Cyan);
    add_colored(&mut header, "Signature", CellColor::Cyan);
    add_colored(&mut header, "Report", CellColor::Cyan);
    assert(row_cells(header) =~= snapshot_header());
    set_header(&mut table, header);
    let ghost all = tests@.map_values(|t: SuiteTestResult| snapshot_row(t));
    let mut i: usize = 0;
    while i < tests.len()
        invariant
            i <= tests@.len(),
            all == tests@.map_values(|t: SuiteTestResult| snapshot_row(t)),
            table_look(table) == look,
            table_header(table) == snapshot_header(),
            table_rows(table) == all.take(i as int),
        decreases tests@.len() - i,
    {
        let test = &tests[i];
        let mut row = new_row();
        add_text(&mut row, test.contract_name.as_str());
        add_text(&mut row, test.signature.as_str());
        add_text(&mut row, test.report.shown.as_str());
        assert(row_cells(row) =~= snapshot_row(*test));
        add_row(&mut table, row);
        assert(all.take(i + 1) =~= all.take(i as int).push(all[i as int]));
        i = i + 1;
    }
    assert(all.take(i as int) =~= all);
    table
}

/// The row for a test holds the name of its contract, its signature and its report.
pub proof fn law_snapshot_row_shows_the_test(test: SuiteTestResult)
    ensures
        snapshot_row(test).map_values(|c: CellView| c.0) == seq![
            test.contract_name@,
            test.signature@,
            test.report.shown@,
        ],
        forall|i: int| 0 <= i < 3 ==> (#[trigger] snapshot_row(test)[i]).1 is None,
{
    assert(snapshot_row(test).map_values(|c: CellView| c.0) =~= seq![
        test.contract_name@,
        test.signature@,
        test.report.shown@,
    ]);
}

// ---------------------------------------------------------------------------
// Finding entries
// ---------------------------------------------------------------------------
#[verifier::external_type_specification]
#[verifier::external_body]
pub struct ExDefaultHashBuilder(alloy_primitives::map::DefaultHashBuilder);

/// Where the entry for a contract and a signature stands.
pub type EntryIndex = Map<(Seq<char>, Seq<char>), usize>;

/// What an index holds.
pub uninterp spec fn index_entries(index: HashMap<(String, String), usize>) -> Map<
    (Seq<char>, Seq<char>),
    usize,
>;

/// `Default` of `alloy_primitives::map::HashMap`: an empty map.
#[verifier::external_body]
fn new_index() -> (r: HashMap<(String, String), usize>)
    ensures
        index_entries(r) == EntryIndex::empty(),
{
    HashMap::default()
}

/// `insert` of `alloy_primitives::map::HashMap`: the value replaces what was there for this key.
/// Keys are compared by their texts.
#[verifier::external_body]
fn index_insert(index: &mut HashMap<(String, String), usize>, contract: &str, signature: &str, at: usize)
    ensures
        index_entries(*final(index)) == index_entries(*old(index)).insert(
            (contract@, signature@),
            at,
        ),
{
    index.insert((contract.to_owned(), signature.to_owned()), at);
}

/// `get` of `alloy_primitives::map::HashMap`: the value for this key.
#[verifier::external_body]
fn index_get(
    index: &HashMap<(String, String), usize>,
    contract: &str,
    signature: &str,
) -> (r: Option<usize>)
    ensures
        match r {
            Some(at) => index_entries(*index).contains_key((contract@, signature@))
                && index_entries(*index)[(contract@, signature@)] == at,
            None => !index_entries(*index).contains_key((contract@, signature@)),
        },
{
    index.get(&(contract.to_owned(), signature.to_owned())).copied()
}

/// The last entry for a contract and a signature.
pub open spec fn entry_for(
    snaps: Seq<GasSnapshotEntry>,
    contract: Seq<char>,
    signature: Seq<char>,
) -> Option<int>
    decreases snaps.len(),
{
    if snaps.len() == 0 {
        None
    } else if snaps.last().contract_name@ == contract && snaps.last().signature@ == signature {
        Some(snaps.len() - 1)
    } else {
        entry_for(snaps.drop_last(), contract, signature)
    }
}

/// The last entry for a test.
pub open spec fn entry_of(snaps: Seq<GasSnapshotEntry>, test: SuiteTestResult) -> Option<int> {
    entry_for(snaps, test.contract_name@, test.signature@)
}

proof fn lemma_entry_in_range(
    snaps: Seq<GasSnapshotEntry>,
    contract: Seq<char>,
    signature: Seq<char>,
)
    ensures
        entry_for(snaps, contract, signature) matches Some(i) ==> 0 <= i < snaps.len()
            && snaps[i].contract_name@ == contract && snaps[i].signature@ == signature,
    decreases snaps.len(),
{
    if snaps.len() > 0 {
        lemma_entry_in_range(snaps.drop_last(), contract, signature);
    }
}

/// Entry `i` is for `test`, and none behind it is.
pub open spec fn is_last_entry(
    snaps: Seq<GasSnapshotEntry>,
    test: SuiteTestResult,
    i: int,
) -> bool {
    &&& 0 <= i < snaps.len()
    &&& snaps[i].contract_name@ == test.contract_name@
    &&& snaps[i].signature@ == test.signature@
    &&& forall|j: int|
        i < j < snaps.len() ==> (#[trigger] snaps[j]).contract_name@ != test.contract_name@
            || snaps[j].signature@ != test.signature@
}

/// The entry of a test is the last one of its contract and signature; it has none exactly where no
/// entry is for both.
pub proof fn law_last_entry_counts(snaps: Seq<GasSnapshotEntry>, test: SuiteTestResult)
    ensures
        match entry_of(snaps, test) {
            Some(i) => is_last_entry(snaps, test, i),
            None => forall|j: int|
                0 <= j < snaps.len() ==> (#[trigger] snaps[j]).contract_name@ != test.contract_name@
                    || snaps[j].signature@ != test.signature@,
        },
        forall|i: int| #[trigger]
            is_last_entry(snaps, test, i) ==> entry_of(snaps, test) == Some(i),
    decreases snaps.len(),
{
    if snaps.len() > 0 {
        let rest = snaps.drop_last();
        law_last_entry_counts(rest, test);
        assert(forall|j: int| 0 <= j < rest.len() ==> #[trigger] rest[j] == snaps[j]);
        assert(snaps[snaps.len() - 1] == snaps.last());
        if entry_of(snaps, test) is Some {
            let i = entry_of(snaps, test)->0;
            if i < rest.len() {
                assert(is_last_entry(rest, test, i));
                assert(snaps[i] == rest[i]);
            }
            assert forall|j: int| i < j < snaps.len() implies (
            #[trigger] snaps[j]).contract_name@ != test.contract_name@ || snaps[j].signature@
                != test.signature@ by {
                if j < rest.len() {
                    assert(rest[j] == snaps[j]);
                }
            }
        } else {
            assert forall|j: int| 0 <= j < snaps.len() implies (
            #[trigger] snaps[j]).contract_name@ != test.contract_name@ || snaps[j].signature@
                != test.signature@ by {
                if j < rest.len() {
                    assert(rest[j] == snaps[j]);
                }
            }
        }
        assert forall|i: int| #[trigger] is_last_entry(snaps, test, i) implies entry_of(snaps, test)
            == Some(i) by {
            if i < rest.len() {
                assert(rest[i] == snaps[i]);
                assert(is_last_entry(rest, test, i));
            }
        }
    }
}

/// `index` leads to the last entry for each contract and signature.
spec fn indexes(index: EntryIndex, snaps: Seq<GasSnapshotEntry>) -> bool {
    forall|c: Seq<char>, s: Seq<char>|
        match #[trigger] entry_for(snaps, c, s) {
            Some(i) => index.contains_key((c, s)) && index[(c, s)] == i,
            None => !index.contains_key((c, s)),
        }
}

fn index_of(snaps: &Vec<GasSnapshotEntry>) -> (r: HashMap<(String, String), usize>)
    ensures
        indexes(index_entries(r), snaps@),
{
    let ghost all = snaps@;
    let mut index = new_index();
    assert(all.take(0) =~= Seq::<GasSnapshotEntry>::empty());
    let mut i: usize = 0;
    while i < snaps.len()
        invariant
            i <= all.len(),
            all == snaps@,
            indexes(index_entries(index), all.take(i as int)),
        decreases all.len() - i,
    {
        let entry = &snaps[i];
        let ghost before = index_entries(index);
        index_insert(&mut index, entry.contract_name.as_str(), entry.signature.as_str(), i);
        proof {
            assert(all.take(i + 1).drop_last() =~= all.take(i as int));
            assert(all.take(i + 1).last() == all[i as int]);
            assert forall|c: Seq<char>, s: Seq<char>|
                match #[trigger] entry_for(all.take(i + 1), c, s) {
                    Some(at) => index_entries(index).contains_key((c, s)) && index_entries(index)[(
                        c,
                        s,
                    )] == at,
                    None => !index_entries(index).contains_key((c, s)),
                } by {
                let old_entry = entry_for(all.take(i as int), c, s);
                assert(match old_entry {
                    Some(at) => before.contains_key((c, s)) && before[(c, s)] == at,
                    None => !before.contains_key((c, s)),
                });
            }
        }
        i = i + 1;
    }
    assert(all.take(i as int) =~= all);
    index
}

/// For each test, where its entry stands among `snaps`. Of several entries for a test the last
/// counts.
pub fn match_snapshots(
    tests: &Vec<SuiteTestResult>,
    snaps: &Vec<GasSnapshotEntry>,
) -> (r: Vec<Option<usize>>)
    ensures
        r@.len() == tests@.len(),
        forall|i: int|
            0 <= i < tests@.len() ==> match entry_of(snaps@, #[trigger] tests@[i]) {
                Some(at) => r@[i] matches Some(x) && x == at && x < snaps@.len(),
                None => r@[i] is None,
            },
{
    let index = index_of(snaps);
    let mut out: Vec<Option<usize>> = Vec::new();
    let mut i: usize = 0;
    while i < tests.len()
        invariant
            i <= tests@.len(),
            indexes(index_entries(index), snaps@),
            out@.len() == i,
            forall|k: int|
                0 <= k < i ==> match entry_of(snaps@, #[trigger] tests@[k]) {
                    Some(at) => out@[k] matches Some(x) && x == at && x < snaps@.len(),
                    None => out@[k] is None,
                },
        decreases tests@.len() - i,
    {
        let test = &tests[i];
        let at = index_get(&index, test.contract_name.as_str(), test.signature.as_str());
        proof {
            lemma_entry_in_range(snaps@, test.contract_name@, test.signature@);
        }
        out.push(at);
        i = i + 1;
    }
    out
}

// ---------------------------------------------------------------------------
// Checking
// ---------------------------------------------------------------------------
/// Whether two gas values are close enough: equal without a tolerance, and otherwise such that the
/// lower one lies at most that many percent below the higher one.
pub open spec fn tolerated(source_gas: int, target_gas: int, tolerance_pct: Option<u32>) -> bool {
    match tolerance_pct {
        Some(tolerance) => if source_gas > target_gas {
            (source_gas - target_gas) * 100 <= tolerance * source_gas
        } else {
            (target_gas - source_gas) * 100 <= tolerance * target_gas
        },
        None => source_gas == target_gas,
    }
}

/// Returns true if the difference between the gas values does not exceed the tolerance.
///
/// If `tolerance_pct` is `None`, then this returns `true` if both gas values are equal.
pub fn within_tolerance(source_gas: u64, target_gas: u64, tolerance_pct: Option<u32>) -> (r: bool)
    ensures
        r == tolerated(source_gas as int, target_gas as int, tolerance_pct),
{
    match tolerance_pct {
        Some(tolerance) => {
            let (hi, lo) = if source_gas > target_gas {
                (source_gas, target_gas)
            } else {
                (target_gas, source_gas)
            };
            assert(tolerance * hi <= u32::MAX * u64::MAX) by (nonlinear_arith)
                requires
                    tolerance <= u32::MAX,
                    hi <= u64::MAX,
            ;
            (hi - lo) as u128 * 100 <= tolerance as u128 * hi as u128
        },
        None => source_gas == target_gas,
    }
}

/// Without a tolerance only equal values are close enough. With one of `p` percent each of the two has
/// at least `100 - p` percent of the other, so that it does not matter which of them is which, and a
/// larger tolerance admits what a smaller one does.
pub proof fn law_tolerance_bounds_the_deviation(a: int, b: int, p: u32, q: u32)
    requires
        0 <= a,
        0 <= b,
        p <= q,
    ensures
        tolerated(a, b, None) <==> a == b,
        tolerated(a, b, Some(p)) <==> a * 100 >= (100 - p) * b && b * 100 >= (100 - p) * a,
        tolerated(a, b, Some(p)) == tolerated(b, a, Some(p)),
        tolerated(a, b, Some(p)) ==> tolerated(a, b, Some(q)),
        tolerated(a, b, Some(0)) <==> a == b,
{
    assert((100 - p) * a == 100 * a - p * a) by (nonlinear_arith);
    assert((100 - p) * b == 100 * b - p * b) by (nonlinear_arith);
    assert(p * a <= q * a) by (nonlinear_arith)
        requires
            0 <= a,
            p <= q,
    ;
    assert(p * b <= q * b) by (nonlinear_arith)
        requires
            0 <= b,
            p <= q,
    ;
    assert(p * a <= p * b || p * b <= p * a);
    if a <= b {
        assert(p * a <= p * b) by (nonlinear_arith)
            requires
                0 <= a <= b,
                p >= 0,
        ;
        assert(p * a >= 0) by (nonlinear_arith)
            requires
                0 <= a,
                p >= 0,
        ;
    } else {
        assert(p * b >= 0) by (nonlinear_arith)
            requires
                0 <= b,
                p >= 0,
        ;
    }
}

/// The gas of two values is near enough for a check.
pub open spec fn is_near(a: u64, b: u64, tolerance: Option<u32>) -> bool {
    match tolerance {
        Some(p) => a * 100 >= (100 - p) * b && b * 100 >= (100 - p) * a,
        None => a == b,
    }
}

/// What is said of a test that does not match; nothing of one that does.
pub open spec fn check_line(
    test: SuiteTestResult,
    snaps: Seq<GasSnapshotEntry>,
    tolerance: Option<u32>,
) -> Option<Seq<char>> {
    let name = full_name(test.contract_name@, test.signature@);
    match entry_of(snaps, test) {
        Some(i) => if tolerated(
            test.report.gas as int,
            snaps[i].gas_used.gas as int,
            tolerance,
        ) {
            None
        } else {
            Some(
                "Diff in \""@ + name + "\": consumed \""@ + test.report.shown@
                    + "\" gas, expected \""@ + snaps[i].gas_used.shown@ + "\" gas "@,
            )
        },
        None => Some(
            "No matching snapshot entry found for \""@ + name + "\" in snapshot file"@,
        ),
    }
}

/// What is said of the tests that do not match, in the order of the tests.
pub open spec fn check_lines(
    tests: Seq<SuiteTestResult>,
    snaps: Seq<GasSnapshotEntry>,
    tolerance: Option<u32>,
) -> Seq<Seq<char>>
    decreases tests.len(),
{
    if tests.len() == 0 {
        seq![]
    } else {
        let before = check_lines(tests.drop_last(), snaps, tolerance);
        match check_line(tests.last(), snaps, tolerance) {
            Some(line) => before.push(line),
            None => before,
        }
    }
}

/// What came of a check.
#[derive(Debug)]
pub struct CheckOutcome {
    /// Whether all tests match.
    pub all_match: bool,
    /// What is said of those that do not.
    pub lines: Vec<String>,
}

fn line_for(
    test: &SuiteTestResult,
    snaps: &Vec<GasSnapshotEntry>,
    at: Option<usize>,
    tolerance: Option<u32>,
) -> (r: Option<String>)
    requires
        match entry_of(snaps@, *test) {
            Some(i) => at matches Some(x) && x == i && x < snaps@.len(),
            None => at is None,
        },
    ensures
        match check_line(*test, snaps@, tolerance) {
            Some(line) => r matches Some(text) && text@ == line,
            None => r is None,
        },
{
    let name = name_of(test);
    match at {
        Some(i) => {
            let target = &snaps[i].gas_used;
            if within_tolerance(test.report.gas, target.gas, tolerance) {
                return None;
            }
            let mut line = "Diff in \"".to_owned();
            line.append(name.as_str());
            line.append("\": consumed \"");
            line.append(test.report.shown.as_str());
            line.append("\" gas, expected \"");
            line.append(target.shown.as_str());
            line.append("\" gas ");
            Some(line)
        },
        None => {
            let mut line = "No matching snapshot entry found for \"".to_owned();
            line.append(name.as_str());
            line.append("\" in snapshot file");
            Some(line)
        },
    }
}

/// Compares the tests with a snapshot.
pub fn check(
    tests: &Vec<SuiteTestResult>,
    snaps: &Vec<GasSnapshotEntry>,
    tolerance: Option<u32>,
) -> (r: CheckOutcome)
    ensures
        strings(r.lines@) == check_lines(tests@, snaps@, tolerance),
        r.all_match == (check_lines(tests@, snaps@, tolerance).len() == 0),
{
    let matches = match_snapshots(tests, snaps);
    let ghost all = tests@;
    assert(all.take(0) =~= Seq::<SuiteTestResult>::empty());
    let mut has_diff = false;
    let mut lines: Vec<String> = Vec::new();
    assert(strings(lines@) =~= Seq::<Seq<char>>::empty());
    let mut i: usize = 0;
    while i < tests.len()
        invariant
            i <= all.len(),
            all == tests@,
            matches@.len() == all.len(),
            forall|k: int|
                0 <= k < all.len() ==> match entry_of(snaps@, #[trigger] tests@[k]) {
                    Some(at) => matches@[k] matches Some(x) && x == at && x < snaps@.len(),
                    None => matches@[k] is None,
                },
            strings(lines@) == check_lines(all.take(i as int), snaps@, tolerance),
            has_diff == (lines@.len() > 0),
        decreases all.len() - i,
    {
        assert(all.take(i + 1).drop_last() =~= all.take(i as int));
        assert(all.take(i + 1).last() == all[i as int]);
        let ghost before = strings(lines@);
        match line_for(&tests[i], snaps, matches[i], tolerance) {
            Some(line) => {
                lines.push(line);
                assert(strings(lines@) =~= before.push(line@));
                has_diff = true;
            },
            None => {},
        }
        i = i + 1;
    }
    assert(all.take(i as int) =~= all);
    CheckOutcome { all_match: !has_diff, lines }
}

/// A check passes exactly when every test has an entry and lies within the tolerance of it.
pub proof fn law_check_passes_iff_all_match(
    tests: Seq<SuiteTestResult>,
    snaps: Seq<GasSnapshotEntry>,
    tolerance: Option<u32>,
)
    ensures
        check_lines(tests, snaps, tolerance).len() == 0 <==> forall|i: int|
            0 <= i < tests.len() ==> match entry_of(snaps, #[trigger] tests[i]) {
                Some(at) => tolerated(
                    tests[i].report.gas as int,
                    snaps[at].gas_used.gas as int,
                    tolerance,
                ),
                None => false,
            },
    decreases tests.len(),
{
    if tests.len() > 0 {
        let rest = tests.drop_last();
        law_check_passes_iff_all_match(rest, snaps, tolerance);
        assert(forall|i: int| 0 <= i < rest.len() ==> #[trigger] rest[i] == tests[i]);
        assert(tests.last() == tests[tests.len() - 1]);
        if check_lines(tests, snaps, tolerance).len() == 0 {
            assert(check_lines(rest, snaps, tolerance).len() == 0);
            assert forall|i: int| 0 <= i < tests.len() implies match entry_of(
                snaps,
                #[trigger] tests[i],
            ) {
                Some(at) => tolerated(
                    tests[i].report.gas as int,
                    snaps[at].gas_used.gas as int,
                    tolerance,
                ),
                None => false,
            } by {
                if i < rest.len() {
                    assert(rest[i] == tests[i]);
                }
            }
        }
    }
}

/// A check says nothing of a test whose last entry is near enough. Of any other it says one thing: how
/// much the test used and how much its entry says, or that it has no entry.
pub proof fn law_check_of_a_test(
    test: SuiteTestResult,
    snaps: Seq<GasSnapshotEntry>,
    tolerance: Option<u32>,
    i: int,
)
    ensures
        is_last_entry(snaps, test, i) && is_near(
            test.report.gas,
            snaps[i].gas_used.gas,
            tolerance,
        ) ==> check_lines(seq![test], snaps, tolerance).len() == 0,
        is_last_entry(snaps, test, i) && !is_near(
            test.report.gas,
            snaps[i].gas_used.gas,
            tolerance,
        ) ==> check_lines(seq![test], snaps, tolerance) == seq![
            "Diff in \""@ + test.contract_name@ + "::"@ + test.signature@ + "\": consumed \""@
                + test.report.shown@ + "\" gas, expected \""@ + snaps[i].gas_used.shown@
                + "\" gas "@,
        ],
        (forall|j: int| !is_last_entry(snaps, test, j)) ==> check_lines(
            seq![test],
            snaps,
            tolerance,
        ) == seq![
            "No matching snapshot entry found for \""@ + test.contract_name@ + "::"@
                + test.signature@ + "\" in snapshot file"@,
        ],
{
    law_last_entry_counts(snaps, test);
    reveal_with_fuel(check_lines, 2);
    assert(seq![test].drop_last() =~= Seq::<SuiteTestResult>::empty());
    let name = test.contract_name@ + "::"@ + test.signature@;
    if is_last_entry(snaps, test, i) {
        let gas = snaps[i].gas_used.gas;
        assert(entry_of(snaps, test) == Some(i));
        if tolerance is Some {
            law_tolerance_bounds_the_deviation(
                test.report.gas as int,
                gas as int,
                tolerance->0,
                tolerance->0,
            );
        }
        if !is_near(test.report.gas, gas, tolerance) {
            assert(check_lines(seq![test], snaps, tolerance) =~= seq![
                "Diff in \""@ + name + "\": consumed \""@ + test.report.shown@
                    + "\" gas, expected \""@ + snaps[i].gas_used.shown@ + "\" gas "@,
            ]);
            assert("Diff in \""@ + name + "\": consumed \""@ + test.report.shown@
                + "\" gas, expected \""@ + snaps[i].gas_used.shown@ + "\" gas "@ =~= "Diff in \""@
                + test.contract_name@ + "::"@ + test.signature@ + "\": consumed \""@
                + test.report.shown@ + "\" gas, expected \""@ + snaps[i].gas_used.shown@
                + "\" gas "@);
        }
    }
    if forall|j: int| !is_last_entry(snaps, test, j) {
        if entry_of(snaps, test) is Some {
            assert(is_last_entry(snaps, test, entry_of(snaps, test)->0));
        }
        assert(check_lines(seq![test], snaps, tolerance) =~= seq![
            "No matching snapshot entry found for \""@ + name + "\" in snapshot file"@,
        ]);
        assert("No matching snapshot entry found for \""@ + name + "\" in snapshot file"@
            =~= "No matching snapshot entry found for \""@ + test.contract_name@ + "::"@
            + test.signature@ + "\" in snapshot file"@);
    }
}

/// Tests are checked one after the other, each for itself.
pub proof fn law_check_goes_test_by_test(
    a: Seq<SuiteTestResult>,
    b: Seq<SuiteTestResult>,
    snaps: Seq<GasSnapshotEntry>,
    tolerance: Option<u32>,
)
    ensures
        check_lines(a + b, snaps, tolerance) == check_lines(a, snaps, tolerance) + check_lines(
            b,
            snaps,
            tolerance,
        ),
    decreases b.len(),
{
    if b.len() == 0 {
        assert(a + b =~= a);
        assert(check_lines(a, snaps, tolerance) + check_lines(b, snaps, tolerance) =~= check_lines(
            a,
            snaps,
            tolerance,
        ));
    } else {
        law_check_goes_test_by_test(a, b.drop_last(), snaps, tolerance);
        assert((a + b).drop_last() =~= a + b.drop_last());
        assert((a + b).last() == b.last());
        assert(check_lines(a + b, snaps, tolerance) =~= check_lines(a, snaps, tolerance)
            + check_lines(b, snaps, tolerance));
    }
}

/// The last entry of a test is near enough to what the test used.
pub open spec fn has_near_entry(
    test: SuiteTestResult,
    snaps: Seq<GasSnapshotEntry>,
    tolerance: Option<u32>,
) -> bool {
    exists|k: int| #[trigger]
        is_last_entry(snaps, test, k) && is_near(
            test.report.gas,
            snaps[k].gas_used.gas,
            tolerance,
        )
}

/// A check fails where a test deviates by more than the tolerance from its last entry, in either
/// direction, and where a test has no entry. It passes otherwise.
pub proof fn law_check_passes_iff_gas_is_near(
    tests: Seq<SuiteTestResult>,
    snaps: Seq<GasSnapshotEntry>,
    tolerance: Option<u32>,
)
    ensures
        check_lines(tests, snaps, tolerance).len() == 0 <==> forall|i: int|
            0 <= i < tests.len() ==> has_near_entry(#[trigger] tests[i], snaps, tolerance),
    decreases tests.len(),
{
    if tests.len() > 0 {
        let rest = tests.drop_last();
        let last = tests.last();
        law_check_passes_iff_gas_is_near(rest, snaps, tolerance);
        law_last_entry_counts(snaps, last);
        assert(last == tests[tests.len() - 1]);
        if entry_of(snaps, last) is Some {
            let k = entry_of(snaps, last)->0;
            assert(is_last_entry(snaps, last, k));
            if tolerance is Some {
                law_tolerance_bounds_the_deviation(
                    last.report.gas as int,
                    snaps[k].gas_used.gas as int,
                    tolerance->0,
                    tolerance->0,
                );
            }
        }
        assert(has_near_entry(last, snaps, tolerance) == (check_line(last, snaps, tolerance)
            is None));
        if check_lines(tests, snaps, tolerance).len() == 0 {
            assert forall|i: int| 0 <= i < tests.len() implies has_near_entry(
                #[trigger] tests[i],
                snaps,
                tolerance,
            ) by {
                if i < rest.len() {
                    assert(rest[i] == tests[i]);
                }
            }
        }
        if forall|i: int|
            0 <= i < tests.len() ==> has_near_entry(#[trigger] tests[i], snaps, tolerance) {
            assert forall|i: int| 0 <= i < rest.len() implies has_near_entry(
                #[trigger] rest[i],
                snaps,
                tolerance,
            ) by {
                assert(rest[i] == tests[i]);
            }
        }
    }
}

/// A check against a snapshot of the same gas values passes, whatever the tolerance.
pub proof fn law_unchanged_gas_passes_check(
    tests: Seq<SuiteTestResult>,
    snaps: Seq<GasSnapshotEntry>,
    tolerance: Option<u32>,
)
    requires
        forall|i: int|
            0 <= i < tests.len() ==> match entry_of(snaps, #[trigger] tests[i]) {
                Some(at) => snaps[at].gas_used.gas == tests[i].report.gas,
                None => false,
            },
    ensures
        check_lines(tests, snaps, tolerance).len() == 0,
{
    law_check_passes_iff_all_match(tests, snaps, tolerance);
}

// ---------------------------------------------------------------------------
// Comparing
// ---------------------------------------------------------------------------
/// How a comparison is sorted.
#[derive(Debug, Clone, Copy, PartialEq, Eq, Structural)]
pub enum DiffSortOrder {
    /// By percentage of change, smallest first.
    Percentage,
    /// By percentage of change, largest first.
    PercentageDesc,
    /// By amount of change, smallest first.
    Absolute,
    /// By amount of change, largest first.
    AbsoluteDesc,
}

impl Default for DiffSortOrder {
    fn default() -> (r: Self)
        ensures
            r == DiffSortOrder::Percentage,
    {
        DiffSortOrder::Percentage
    }
}

/// The gas of a test, now and as recorded.
#[derive(Debug)]
pub struct GasSnapshotDiff {
    pub signature: String,
    /// Now.
    pub source_gas_used: u64,
    /// As recorded.
    pub target_gas_used: u64,
    /// Where the percentage of change, taken without its sign, stands among all others: a larger
    /// percentage has a larger rank. The bits of the percentage as a positive floating-point number
    /// are such a rank.
    pub percentage_rank: u64,
    /// The percentage of change in words.
    pub percentage: String,
}

impl View for GasSnapshotDiff {
    /// The name, the gas now and the gas as recorded.
    type V = (Seq<char>, u64, u64);

    open spec fn view(&self) -> (Seq<char>, u64, u64) {
        (self.signature@, self.source_gas_used, self.target_gas_used)
    }
}

impl GasSnapshotDiff {
    /// By how much the gas has grown.
    pub open spec fn change(&self) -> int {
        self.source_gas_used - self.target_gas_used
    }

    /// By how much the gas has changed, without the sign.
    pub open spec fn amount(&self) -> int {
        if self.change() < 0 {
            -self.change()
        } else {
            self.change()
        }
    }

    /// By how much the gas has grown: positive where more is used now than was recorded, negative
    /// where less is.
    pub fn gas_change(&self) -> (r: i128)
        ensures
            r == self.change(),
    {
        self.source_gas_used as i128 - self.target_gas_used as i128
    }
}

/// Sorting by the percentage of change.
pub struct ByPercentage;

/// Sorting by the amount of change.
pub struct ByAmount;

impl Keyed<ByPercentage> for GasSnapshotDiff {
    open spec fn key(&self) -> int {
        self.percentage_rank as int
    }

    fn sort_key(&self) -> (r: u128) {
        self.percentage_rank as u128
    }
}

impl Keyed<ByAmount> for GasSnapshotDiff {
    open spec fn key(&self) -> int {
        self.amount()
    }

    fn sort_key(&self) -> (r: u128) {
        let change = self.gas_change();
        if change < 0 {
            (-change) as u128
        } else {
            change as u128
        }
    }
}

/// The tests that have an entry: name, gas now, gas as recorded.
pub open spec fn known_tests(
    tests: Seq<SuiteTestResult>,
    snaps: Seq<GasSnapshotEntry>,
) -> Seq<(Seq<char>, u64, u64)>
    decreases tests.len(),
{
    if tests.len() == 0 {
        seq![]
    } else {
        let before = known_tests(tests.drop_last(), snaps);
        let test = tests.last();
        match entry_of(snaps, test) {
            Some(i) => before.push(
                (
                    full_name(test.contract_name@, test.signature@),
                    test.report.gas,
                    snaps[i].gas_used.gas,
                ),
            ),
            None => before,
        }
    }
}

/// The names of the tests that have no entry.
pub open spec fn new_names(
    tests: Seq<SuiteTestResult>,
    snaps: Seq<GasSnapshotEntry>,
) -> Seq<Seq<char>>
    decreases tests.len(),
{
    if tests.len() == 0 {
        seq![]
    } else {
        let before = new_names(tests.drop_last(), snaps);
        let test = tests.last();
        match entry_of(snaps, test) {
            Some(_) => before,
            None => before.push(full_name(test.contract_name@, test.signature@)),
        }
    }
}

/// The contents of the comparisons.
pub open spec fn diff_views(diffs: Seq<GasSnapshotDiff>) -> Seq<(Seq<char>, u64, u64)> {
    diffs.map_values(|d: GasSnapshotDiff| d@)
}

/// The tests that have an entry, and the names of those that have none.
#[derive(Debug)]
pub struct DiffSet {
    pub diffs: Vec<GasSnapshotDiff>,
    pub new_tests: Vec<String>,
}

/// Compares the tests with a snapshot. The percentages are left empty, and their ranks at zero.
pub fn collect_diffs(tests: &Vec<SuiteTestResult>, snaps: &Vec<GasSnapshotEntry>) -> (r: DiffSet)
    ensures
        diff_views(r.diffs@) == known_tests(tests@, snaps@),
        strings(r.new_tests@) == new_names(tests@, snaps@),
        forall|i: int|
            0 <= i < r.diffs@.len() ==> (#[trigger] r.diffs@[i]).percentage_rank == 0
                && r.diffs@[i].percentage@.len() == 0,
{
    let matches = match_snapshots(tests, snaps);
    let ghost all = tests@;
    assert(all.take(0) =~= Seq::<SuiteTestResult>::empty());
    let mut diffs: Vec<GasSnapshotDiff> = Vec::new();
    let mut new_tests: Vec<String> = Vec::new();
    assert(diff_views(diffs@) =~= Seq::<(Seq<char>, u64, u64)>::empty());
    assert(strings(new_tests@) =~= Seq::<Seq<char>>::empty());
    let mut i: usize = 0;
    while i < tests.len()
        invariant
            i <= all.len(),
            all == tests@,
            matches@.len() == all.len(),
            forall|k: int|
                0 <= k < all.len() ==> match entry_of(snaps@, #[trigger] tests@[k]) {
                    Some(at) => matches@[k] matches Some(x) && x == at && x < snaps@.len(),
                    None => matches@[k] is None,
                },
            diff_views(diffs@) == known_tests(all.take(i as int), snaps@),
            strings(new_tests@) == new_names(all.take(i as int), snaps@),
            forall|k: int|
                0 <= k < diffs@.len() ==> (#[trigger] diffs@[k]).percentage_rank == 0
                    && diffs@[k].percentage@.len() == 0,
        decreases all.len() - i,
    {
        assert(all.take(i + 1).drop_last() =~= all.take(i as int));
        assert(all.take(i + 1).last() == all[i as int]);
        let test = &tests[i];
        let name = name_of(test);
        match matches[i] {
            Some(at) => {
                let ghost before = diff_views(diffs@);
                let diff = GasSnapshotDiff {
                    signature: name,
                    source_gas_used: test.report.gas,
                    target_gas_used: snaps[at].gas_used.gas,
                    percentage_rank: 0,
                    percentage: String::new(),
                };
                diffs.push(diff);
                assert(diff_views(diffs@) =~= before.push(diff@));
            },
            None => {
                let ghost before = strings(new_tests@);
                new_tests.push(name);
                assert(strings(new_tests@) =~= before.push(name@));
            },
        }
        i = i + 1;
    }
    assert(all.take(i as int) =~= all);
    DiffSet { diffs, new_tests }
}

/// Every test is compared or is new, and none is both.
pub proof fn law_every_test_is_compared_or_new(
    tests: Seq<SuiteTestResult>,
    snaps: Seq<GasSnapshotEntry>,
)
    ensures
        known_tests(tests, snaps).len() + new_names(tests, snaps).len() == tests.len(),
    decreases tests.len(),
{
    if tests.len() > 0 {
        law_every_test_is_compared_or_new(tests.drop_last(), snaps);
    }
}

/// A test that has an entry is compared with the last one: its gas now stands beside the recorded gas.
/// A test without an entry is new. Both go by the full name.
pub proof fn law_comparison_of_a_test(
    test: SuiteTestResult,
    snaps: Seq<GasSnapshotEntry>,
    i: int,
)
    ensures
        is_last_entry(snaps, test, i) ==> known_tests(seq![test], snaps) == seq![
            (
                test.contract_name@ + "::"@ + test.signature@,
                test.report.gas,
                snaps[i].gas_used.gas,
            ),
        ] && new_names(seq![test], snaps).len() == 0,
        (forall|j: int| !is_last_entry(snaps, test, j)) ==> known_tests(seq![test], snaps).len()
            == 0 && new_names(seq![test], snaps) == seq![
            test.contract_name@ + "::"@ + test.signature@,
        ],
{
    law_last_entry_counts(snaps, test);
    reveal_with_fuel(known_tests, 2);
    reveal_with_fuel(new_names, 2);
    assert(seq![test].drop_last() =~= Seq::<SuiteTestResult>::empty());
    if is_last_entry(snaps, test, i) {
        assert(known_tests(seq![test], snaps) =~= seq![
            (
                test.contract_name@ + "::"@ + test.signature@,
                test.report.gas,
                snaps[i].gas_used.gas,
            ),
        ]);
    }
    if forall|j: int| !is_last_entry(snaps, test, j) {
        if entry_of(snaps, test) is Some {
            assert(is_last_entry(snaps, test, entry_of(snaps, test)->0));
        }
        assert(new_names(seq![test], snaps) =~= seq![
            test.contract_name@ + "::"@ + test.signature@,
        ]);
    }
}

/// Tests are compared one after the other, each for itself.
pub proof fn law_comparison_goes_test_by_test(
    a: Seq<SuiteTestResult>,
    b: Seq<SuiteTestResult>,
    snaps: Seq<GasSnapshotEntry>,
)
    ensures
        known_tests(a + b, snaps) == known_tests(a, snaps) + known_tests(b, snaps),
        new_names(a + b, snaps) == new_names(a, snaps) + new_names(b, snaps),
    decreases b.len(),
{
    if b.len() == 0 {
        assert(a + b =~= a);
    } else {
        law_comparison_goes_test_by_test(a, b.drop_last(), snaps);
        assert((a + b).drop_last() =~= a + b.drop_last());
        assert((a + b).last() == b.last());
    }
    assert(known_tests(a + b, snaps) =~= known_tests(a, snaps) + known_tests(b, snaps));
    assert(new_names(a + b, snaps) =~= new_names(a, snaps) + new_names(b, snaps));
}

/// `sorted` is `diffs` in the order asked for. Those that change alike stay in the order they came in.
pub open spec fn is_in_order(
    diffs: Seq<GasSnapshotDiff>,
    sorted: Seq<GasSnapshotDiff>,
    order: DiffSortOrder,
) -> bool {
    match order {
        DiffSortOrder::Percentage => is_stable_sort::<ByPercentage, GasSnapshotDiff>(
            diffs,
            sorted,
            false,
        ),
        DiffSortOrder::PercentageDesc => is_stable_sort::<ByPercentage, GasSnapshotDiff>(
            diffs,
            sorted,
            true,
        ),
        DiffSortOrder::Absolute => is_stable_sort::<ByAmount, GasSnapshotDiff>(
            diffs,
            sorted,
            false,
        ),
        DiffSortOrder::AbsoluteDesc => is_stable_sort::<ByAmount, GasSnapshotDiff>(
            diffs,
            sorted,
            true,
        ),
    }
}

/// Sorts the comparisons. Those that change alike stay in the order they came in.
pub fn sort_diffs(diffs: Vec<GasSnapshotDiff>, order: DiffSortOrder) -> (r: Vec<GasSnapshotDiff>)
    ensures
        is_in_order(diffs@, r@, order),
{
    match order {
        DiffSortOrder::Percentage => sort_by_key::<ByPercentage, GasSnapshotDiff>(diffs, false),
        DiffSortOrder::PercentageDesc => sort_by_key::<ByPercentage, GasSnapshotDiff>(diffs, true),
        DiffSortOrder::Absolute => sort_by_key::<ByAmount, GasSnapshotDiff>(diffs, false),
        DiffSortOrder::AbsoluteDesc => sort_by_key::<ByAmount, GasSnapshotDiff>(diffs, true),
    }
}

/// Sorting loses and adds no comparison.
pub proof fn law_sorting_keeps_comparisons(
    diffs: Seq<GasSnapshotDiff>,
    sorted: Seq<GasSnapshotDiff>,
    order: DiffSortOrder,
)
    requires
        is_in_order(diffs, sorted, order),
    ensures
        sorted.to_multiset() == diffs.to_multiset(),
{
    match order {
        DiffSortOrder::Percentage => law_stable_sort_is_permutation::<
            ByPercentage,
            GasSnapshotDiff,
        >(diffs, sorted, false),
        DiffSortOrder::PercentageDesc => law_stable_sort_is_permutation::<
            ByPercentage,
            GasSnapshotDiff,
        >(diffs, sorted, true),
        DiffSortOrder::Absolute => law_stable_sort_is_permutation::<ByAmount, GasSnapshotDiff>(
            diffs,
            sorted,
            false,
        ),
        DiffSortOrder::AbsoluteDesc => law_stable_sort_is_permutation::<ByAmount, GasSnapshotDiff>(
            diffs,
            sorted,
            true,
        ),
    }
}

/// How far apart the gas of a comparison is.
pub open spec fn gas_apart(d: GasSnapshotDiff) -> int {
    if d.source_gas_used < d.target_gas_used {
        d.target_gas_used - d.source_gas_used
    } else {
        d.source_gas_used - d.target_gas_used
    }
}

/// Sorted comparisons ascend or descend in the percentage or in the amount of change, whichever was
/// asked for, and comparisons that are alike in it stand as they came in.
pub proof fn law_sorted_comparisons_are_in_order(
    diffs: Seq<GasSnapshotDiff>,
    sorted: Seq<GasSnapshotDiff>,
    order: DiffSortOrder,
    i: int,
    j: int,
    n: int,
)
    requires
        is_in_order(diffs, sorted, order),
        0 <= i < j < sorted.len(),
    ensures
        match order {
            DiffSortOrder::Percentage => sorted[i].percentage_rank <= sorted[j].percentage_rank
                && sorted.filter(|d: GasSnapshotDiff| d.percentage_rank == n) == diffs.filter(
                |d: GasSnapshotDiff| d.percentage_rank == n,
            ),
            DiffSortOrder::PercentageDesc => sorted[i].percentage_rank >= sorted[j].percentage_rank
                && sorted.filter(|d: GasSnapshotDiff| d.percentage_rank == n) == diffs.filter(
                |d: GasSnapshotDiff| d.percentage_rank == n,
            ),
            DiffSortOrder::Absolute => gas_apart(sorted[i]) <= gas_apart(sorted[j])
                && sorted.filter(|d: GasSnapshotDiff| gas_apart(d) == n) == diffs.filter(
                |d: GasSnapshotDiff| gas_apart(d) == n,
            ),
            DiffSortOrder::AbsoluteDesc => gas_apart(sorted[i]) >= gas_apart(sorted[j])
                && sorted.filter(|d: GasSnapshotDiff| gas_apart(d) == n) == diffs.filter(
                |d: GasSnapshotDiff| gas_apart(d) == n,
            ),
        },
{
    let rank = |d: GasSnapshotDiff| d.percentage_rank == n;
    let amount = |d: GasSnapshotDiff| gas_apart(d) == n;
    lemma_with_key_is_filter::<ByPercentage, GasSnapshotDiff>(diffs, n, rank);
    lemma_with_key_is_filter::<ByPercentage, GasSnapshotDiff>(sorted, n, rank);
    lemma_with_key_is_filter::<ByAmount, GasSnapshotDiff>(diffs, n, amount);
    lemma_with_key_is_filter::<ByAmount, GasSnapshotDiff>(sorted, n, amount);
    match order {
        DiffSortOrder::Percentage => {
            assert(in_order::<ByPercentage, GasSnapshotDiff>(sorted[i], sorted[j], false));
            assert(with_key::<ByPercentage, GasSnapshotDiff>(sorted, n) == with_key::<
                ByPercentage,
                GasSnapshotDiff,
            >(diffs, n));
        },
        DiffSortOrder::PercentageDesc => {
            assert(in_order::<ByPercentage, GasSnapshotDiff>(sorted[i], sorted[j], true));
            assert(with_key::<ByPercentage, GasSnapshotDiff>(sorted, n) == with_key::<
                ByPercentage,
                GasSnapshotDiff,
            >(diffs, n));
        },
        DiffSortOrder::Absolute => {
            assert(in_order::<ByAmount, GasSnapshotDiff>(sorted[i], sorted[j], false));
            assert(with_key::<ByAmount, GasSnapshotDiff>(sorted, n) == with_key::<
                ByAmount,
                GasSnapshotDiff,
            >(diffs, n));
        },
        DiffSortOrder::AbsoluteDesc => {
            assert(in_order::<ByAmount, GasSnapshotDiff>(sorted[i], sorted[j], true));
            assert(with_key::<ByAmount, GasSnapshotDiff>(sorted, n) == with_key::<
                ByAmount,
                GasSnapshotDiff,
            >(diffs, n));
        },
    }
}

/// How many comparisons satisfy `pred`.
pub open spec fn count_diffs(
    diffs: Seq<GasSnapshotDiff>,
    pred: spec_fn(GasSnapshotDiff) -> bool,
) -> int
    decreases diffs.len(),
{
    if diffs.len() == 0 {
        0
    } else {
        count_diffs(diffs.drop_last(), pred) + if pred(diffs.last()) {
            1int
        } else {
            0
        }
    }
}

/// By how much the gas has grown over all comparisons.
pub open spec fn overall_change(diffs: Seq<GasSnapshotDiff>) -> int
    decreases diffs.len(),
{
    if diffs.len() == 0 {
        0
    } else {
        overall_change(diffs.drop_last()) + diffs.last().change()
    }
}

/// The gas that was recorded over all comparisons.
pub open spec fn overall_recorded(diffs: Seq<GasSnapshotDiff>) -> int
    decreases diffs.len(),
{
    if diffs.len() == 0 {
        0
    } else {
        overall_recorded(diffs.drop_last()) + diffs.last().target_gas_used
    }
}

/// The gas that is used now over all comparisons.
pub open spec fn overall_used(diffs: Seq<GasSnapshotDiff>) -> int
    decreases diffs.len(),
{
    if diffs.len() == 0 {
        0
    } else {
        overall_used(diffs.drop_last()) + diffs.last().source_gas_used
    }
}

/// The comparisons taken together.
#[derive(Debug)]
pub struct DiffSummary {
    pub increased: usize,
    pub decreased: usize,
    pub unchanged: usize,
    pub overall_gas_change: i128,
    pub overall_gas_used: i128,
}

impl DiffSummary {
    /// This sums up `diffs`.
    pub open spec fn sums_up(&self, diffs: Seq<GasSnapshotDiff>) -> bool {
        &&& self.increased == count_diffs(diffs, |d: GasSnapshotDiff| d.change() > 0)
        &&& self.decreased == count_diffs(diffs, |d: GasSnapshotDiff| d.change() < 0)
        &&& self.unchanged == count_diffs(diffs, |d: GasSnapshotDiff| d.change() == 0)
        &&& self.overall_gas_change == overall_change(diffs)
        &&& self.overall_gas_used == overall_recorded(diffs)
    }
}

/// Sums up the comparisons.
pub fn summarize(diffs: &Vec<GasSnapshotDiff>) -> (r: DiffSummary)
    requires
        diffs@.len() <= i64::MAX,
    ensures
        r.sums_up(diffs@),
{
    let ghost all = diffs@;
    assert(all.take(0) =~= Seq::<GasSnapshotDiff>::empty());
    let mut s = DiffSummary {
        increased: 0,
        decreased: 0,
        unchanged: 0,
        overall_gas_change: 0,
        overall_gas_used: 0,
    };
    let mut i: usize = 0;
    while i < diffs.len()
        invariant
            i <= all.len(),
            all == diffs@,
            all.len() <= i64::MAX,
            s.sums_up(all.take(i as int)),
            s.increased <= i,
            s.decreased <= i,
            s.unchanged <= i,
            -(i * u64::MAX) <= s.overall_gas_change <= i * u64::MAX,
            0 <= s.overall_gas_used <= i * u64::MAX,
        decreases all.len() - i,
    {
        assert(all.take(i + 1).drop_last() =~= all.take(i as int));
        assert(all.take(i + 1).last() == all[i as int]);
        assert((i + 1) * u64::MAX == i * u64::MAX + u64::MAX) by (nonlinear_arith);
        assert((i + 1) * u64::MAX <= i128::MAX) by (nonlinear_arith)
            requires
                i + 1 <= i64::MAX,
        ;
        let change = diffs[i].gas_change();
        s.overall_gas_change = s.overall_gas_change + change;
        s.overall_gas_used = s.overall_gas_used + diffs[i].target_gas_used as i128;
        if change > 0 {
            s.increased = s.increased + 1;
        } else if change < 0 {
            s.decreased = s.decreased + 1;
        } else {
            s.unchanged = s.unchanged + 1;
        }
        i = i + 1;
    }
    assert(all.take(i as int) =~= all);
    s
}

/// Every comparison is counted once, and the overall change is what is used now less what was
/// recorded.
pub proof fn law_summary_adds_up(diffs: Seq<GasSnapshotDiff>)
    ensures
        count_diffs(diffs, |d: GasSnapshotDiff| d.change() > 0) + count_diffs(
            diffs,
            |d: GasSnapshotDiff| d.change() < 0,
        ) + count_diffs(diffs, |d: GasSnapshotDiff| d.change() == 0) == diffs.len(),
        overall_change(diffs) == overall_used(diffs) - overall_recorded(diffs),
    decreases diffs.len(),
{
    if diffs.len() > 0 {
        law_summary_adds_up(diffs.drop_last());
    }
}

/// One more comparison adds one to the count that it belongs to, its change to the overall change,
/// and its recorded gas to the overall gas. Nothing at all sums up to zero.
pub proof fn law_summary_grows_by_each_comparison(
    diffs: Seq<GasSnapshotDiff>,
    d: GasSnapshotDiff,
    before: DiffSummary,
    after: DiffSummary,
)
    requires
        before.sums_up(diffs),
        after.sums_up(diffs.push(d)),
    ensures
        after.increased == before.increased + if d.source_gas_used > d.target_gas_used {
            1int
        } else {
            0
        },
        after.decreased == before.decreased + if d.source_gas_used < d.target_gas_used {
            1int
        } else {
            0
        },
        after.unchanged == before.unchanged + if d.source_gas_used == d.target_gas_used {
            1int
        } else {
            0
        },
        after.overall_gas_change == before.overall_gas_change + d.source_gas_used
            - d.target_gas_used,
        after.overall_gas_used == before.overall_gas_used + d.target_gas_used,
        diffs.len() == 0 ==> before.increased == 0 && before.decreased == 0 && before.unchanged == 0
            && before.overall_gas_change == 0 && before.overall_gas_used == 0,
{
    assert(diffs.push(d).drop_last() =~= diffs);
}

// ---------------------------------------------------------------------------
// Wording
// ---------------------------------------------------------------------------
/// `r` is `text`, green where `sign` is negative, red where it is positive.
pub open spec fn colored_by_sign(r: Seq<char>, text: Seq<char>, sign: int) -> bool {
    if sign < 0 {
        painted(r, text, "32"@)
    } else if sign > 0 {
        painted(r, text, "31"@)
    } else {
        r == text
    }
}

/// Colours a text by a sign: green for less, red for more.
pub fn color_by_sign(text: &str, sign: i128) -> (r: String)
    ensures
        colored_by_sign(r@, text@, sign as int),
{
    if sign < 0 {
        green(text)
    } else if sign > 0 {
        red(text)
    } else {
        text.to_owned()
    }
}

/// A change of gas, coloured by its sign.
pub fn fmt_change(change: i128) -> (r: String)
    ensures
        colored_by_sign(r@, decimal_signed(change as int), change as int),
{
    let text = signed_text(change);
    color_by_sign(text.as_str(), change)
}

/// The sign in front of a comparison.
pub open spec fn icon_text(change: int) -> Seq<char> {
    if change > 0 {
        "↑"@
    } else if change < 0 {
        "↓"@
    } else {
        "━"@
    }
}

/// `line` shows a comparison.
pub open spec fn is_diff_line(line: Seq<char>, diff: GasSnapshotDiff) -> bool {
    exists|icon: Seq<char>, change: Seq<char>| #[trigger]
        colored_by_sign(icon, icon_text(diff.change()), diff.change()) && #[trigger]
        colored_by_sign(change, decimal_signed(diff.change()), diff.change()) && line == icon + " "@
            + diff.signature@ + " (gas: "@ + decimal(diff.target_gas_used as nat) + " → "@
            + decimal(diff.source_gas_used as nat) + " | "@ + change + " "@ + diff.percentage@ + ")"@
}

/// Shows a comparison.
pub fn diff_line(diff: &GasSnapshotDiff) -> (r: String)
    ensures
        is_diff_line(r@, *diff),
{
    let gas_change = diff.gas_change();
    let icon = if gas_change > 0 {
        red("↑")
    } else if gas_change < 0 {
        green("↓")
    } else {
        "━".to_owned()
    };
    let change = fmt_change(gas_change);
    let mut line = icon.as_str().to_owned();
    line.append(" ");
    line.append(diff.signature.as_str());
    line.append(" (gas: ");
    line.append(decimal_text(diff.target_gas_used as u128).as_str());
    line.append(" → ");
    line.append(decimal_text(diff.source_gas_used as u128).as_str());
    line.append(" | ");
    line.append(change.as_str());
    line.append(" ");
    line.append(diff.percentage.as_str());
    line.append(")");
    proof {
        assert(colored_by_sign(icon@, icon_text(diff.change()), diff.change()));
        assert(colored_by_sign(change@, decimal_signed(diff.change()), diff.change()));
    }
    line
}

/// A comparison is shown by the name, the recorded gas, the gas now and the difference of the two,
/// with an arrow up in red where more gas is used now, and an arrow down in green where less is.
pub proof fn law_diff_line_shows_the_gas(line: Seq<char>, d: GasSnapshotDiff)
    requires
        is_diff_line(line, d),
    ensures
        exists|icon: Seq<char>, change: Seq<char>| #[trigger]
            (icon + " "@ + d.signature@ + " (gas: "@ + decimal(d.target_gas_used as nat) + " → "@
                + decimal(d.source_gas_used as nat) + " | "@ + change + " "@ + d.percentage@ + ")"@)
                == line && (d.source_gas_used > d.target_gas_used ==> painted(icon, "↑"@, "31"@)
                && painted(
                change,
                decimal((d.source_gas_used - d.target_gas_used) as nat),
                "31"@,
            )) && (d.source_gas_used < d.target_gas_used ==> painted(icon, "↓"@, "32"@) && painted(
                change,
                seq!['-'] + decimal((d.target_gas_used - d.source_gas_used) as nat),
                "32"@,
            )) && (d.source_gas_used == d.target_gas_used ==> icon == "━"@ && change == decimal(0)),
{
    let (icon, change) = choose|icon: Seq<char>, change: Seq<char>| #[trigger]
        colored_by_sign(icon, icon_text(d.change()), d.change()) && #[trigger] colored_by_sign(
            change,
            decimal_signed(d.change()),
            d.change(),
        ) && line == icon + " "@ + d.signature@ + " (gas: "@ + decimal(d.target_gas_used as nat)
            + " → "@ + decimal(d.source_gas_used as nat) + " | "@ + change + " "@ + d.percentage@
            + ")"@;
    assert((icon + " "@ + d.signature@ + " (gas: "@ + decimal(d.target_gas_used as nat) + " → "@
        + decimal(d.source_gas_used as nat) + " | "@ + change + " "@ + d.percentage@ + ")"@)
        == line);
}

/// `line` names a test that has no entry.
pub open spec fn is_new_test_line(line: Seq<char>, name: Seq<char>) -> bool {
    exists|plus: Seq<char>| #[trigger]
        painted(plus, "+"@, "32"@) && line == "  "@ + plus + " "@ + name
}

/// `line` heads the tests that have no entry.
pub open spec fn is_new_tests_heading(line: Seq<char>) -> bool {
    exists|heading: Seq<char>| #[trigger]
        painted(heading, "New tests:"@, "33"@) && line == "\n"@ + heading
}

/// `line` counts the comparisons.
pub open spec fn is_totals_line(line: Seq<char>, total: nat, s: DiffSummary) -> bool {
    exists|up: Seq<char>, down: Seq<char>| #[trigger]
        painted(up, "↑"@, "31"@) && #[trigger] painted(down, "↓"@, "32"@) && line
            == "Total tests: "@ + decimal(total) + ", "@ + up + " "@ + decimal(s.increased as nat)
            + ", "@ + down + " "@ + decimal(s.decreased as nat) + ", "@ + "━"@ + " "@ + decimal(
            s.unchanged as nat,
        )
}

/// `line` shows the overall change; `pct` is its percentage in words.
pub open spec fn is_overall_line(line: Seq<char>, change: int, pct: Seq<char>) -> bool {
    exists|shown: Seq<char>| #[trigger]
        colored_by_sign(shown, decimal_signed(change), change) && line == "Overall gas change: "@
            + shown + " ("@ + pct + ")"@
}

/// How many lines are spent on the tests that have no entry.
pub open spec fn new_tests_size(count: nat) -> nat {
    if count == 0 {
        0
    } else {
        count + 1
    }
}

/// The lines show the comparisons, the tests that have no entry, and the summary.
pub open spec fn is_diff_report(
    lines: Seq<Seq<char>>,
    diffs: Seq<GasSnapshotDiff>,
    new_tests: Seq<Seq<char>>,
    s: DiffSummary,
    overall_pct: Seq<char>,
) -> bool {
    let n = diffs.len() as int;
    let m = n + new_tests_size(new_tests.len());
    &&& lines.len() == m + 3
    &&& forall|i: int| 0 <= i < n ==> is_diff_line(#[trigger] lines[i], diffs[i])
    &&& new_tests.len() > 0 ==> is_new_tests_heading(lines[n])
    &&& forall|i: int|
        n + 1 <= i < m ==> is_new_test_line(#[trigger] lines[i], new_tests[i - n - 1])
    &&& lines[m] == "\n"@ + repeated('-', 80)
    &&& is_totals_line(lines[m + 1], diffs.len(), s)
    &&& is_overall_line(lines[m + 2], s.overall_gas_change as int, overall_pct)
}

fn dashes() -> (r: String)
    ensures
        r@ == "\n"@ + repeated('-', 80),
{
    let mut out = "\n".to_owned();
    let mut i: usize = 0;
    assert(out@ =~= "\n"@ + repeated('-', 0));
    while i < 80
        invariant
            i <= 80,
            out@ == "\n"@ + repeated('-', i as nat),
        decreases 80 - i,
    {
        out.append("-");
        proof {
            reveal_strlit("-");
            assert(out@ =~= "\n"@ + repeated('-', (i + 1) as nat));
        }
        i = i + 1;
    }
    out
}

fn totals_line(total: usize, s: &DiffSummary) -> (r: String)
    ensures
        is_totals_line(r@, total as nat, *s),
{
    let up = red("↑");
    let down = green("↓");
    let mut line = "Total tests: ".to_owned();
    line.append(decimal_text(total as u128).as_str());
    line.append(", ");
    line.append(up.as_str());
    line.append(" ");
    line.append(decimal_text(s.increased as u128).as_str());
    line.append(", ");
    line.append(down.as_str());
    line.append(" ");
    line.append(decimal_text(s.decreased as u128).as_str());
    line.append(", ");
    line.append("━");
    line.append(" ");
    line.append(decimal_text(s.unchanged as u128).as_str());
    assert(painted(up@, "↑"@, "31"@));
    assert(painted(down@, "↓"@, "32"@));
    line
}

fn overall_line(change: i128, pct: &str) -> (r: String)
    ensures
        is_overall_line(r@, change as int, pct@),
{
    let shown = fmt_change(change);
    let mut line = "Overall gas change: ".to_owned();
    line.append(shown.as_str());
    line.append(" (");
    line.append(pct);
    line.append(")");
    assert(colored_by_sign(shown@, decimal_signed(change as int), change as int));
    line
}

/// The lines that show the comparisons in the order given, the tests that have no entry, and the
/// summary. `overall_pct` is the overall percentage of change in words.
pub fn diff_lines(
    diffs: &Vec<GasSnapshotDiff>,
    new_tests: &Vec<String>,
    summary: &DiffSummary,
    overall_pct: &str,
) -> (r: Vec<String>)
    ensures
        is_diff_report(strings(r@), diffs@, strings(new_tests@), *summary, overall_pct@),
{
    let ghost n = diffs@.len() as int;
    let mut lines: Vec<String> = Vec::new();
    let mut i: usize = 0;
    while i < diffs.len()
        invariant
            i <= diffs@.len(),
            lines@.len() == i,
            forall|k: int| 0 <= k < i ==> is_diff_line((#[trigger] lines@[k])@, diffs@[k]),
        decreases diffs@.len() - i,
    {
        let line = diff_line(&diffs[i]);
        lines.push(line);
        i = i + 1;
    }
    if new_tests.len() > 0 {
        let heading = yellow("New tests:");
        let mut line = "\n".to_owned();
        line.append(heading.as_str());
        assert(painted(heading@, "New tests:"@, "33"@));
        lines.push(line);
        let mut j: usize = 0;
        while j < new_tests.len()
            invariant
                j <= new_tests@.len(),
                n == diffs@.len(),
                lines@.len() == n + 1 + j,
                forall|k: int| 0 <= k < n ==> is_diff_line((#[trigger] lines@[k])@, diffs@[k]),
                is_new_tests_heading(lines@[n]@),
                forall|k: int|
                    n + 1 <= k < n + 1 + j ==> is_new_test_line(
                        (#[trigger] lines@[k])@,
                        new_tests@[k - n - 1]@,
                    ),
            decreases new_tests@.len() - j,
        {
            let plus = green("+");
            let mut line = "  ".to_owned();
            line.append(plus.as_str());
            line.append(" ");
            line.append(new_tests[j].as_str());
            assert(painted(plus@, "+"@, "32"@));
            lines.push(line);
            j = j + 1;
        }
    }
    lines.push(dashes());
    lines.push(totals_line(diffs.len(), summary));
    lines.push(overall_line(summary.overall_gas_change, overall_pct));
    proof {
        let views = strings(lines@);
        assert(forall|k: int| 0 <= k < lines@.len() ==> #[trigger] views[k] == lines@[k]@);
        assert(forall|k: int|
            0 <= k < new_tests@.len() ==> #[trigger] strings(new_tests@)[k] == new_tests@[k]@);
    }
    lines
}

/// A report shows each comparison on a line of its own, in order, then the names of the new tests in
/// order, below a heading where there are any, and then the three lines of the summary: the number of
/// comparisons, of those that grew, shrank and stayed, and the overall change.
pub proof fn law_diff_report_shows_everything(
    lines: Seq<Seq<char>>,
    diffs: Seq<GasSnapshotDiff>,
    new_tests: Seq<Seq<char>>,
    s: DiffSummary,
    pct: Seq<char>,
    i: int,
    j: int,
)
    requires
        is_diff_report(lines, diffs, new_tests, s, pct),
    ensures
        lines.len() == diffs.len() + 3 + if new_tests.len() > 0 {
            new_tests.len() + 1
        } else {
            0
        },
        0 <= i < diffs.len() ==> is_diff_line(lines[i], diffs[i]),
        0 <= j < new_tests.len() ==> ({
            let line = lines[diffs.len() + 1 + j];
            &&& line.len() > new_tests[j].len()
            &&& line.skip(line.len() - new_tests[j].len()) == new_tests[j]
        }),
        lines[lines.len() - 3] == "\n"@ + Seq::new(80, |k: int| '-'),
        exists|up: Seq<char>, down: Seq<char>| #[trigger]
            painted(up, "↑"@, "31"@) && #[trigger] painted(down, "↓"@, "32"@)
                && lines[lines.len() - 2] == "Total tests: "@ + decimal(diffs.len()) + ", "@ + up
                + " "@ + decimal(s.increased as nat) + ", "@ + down + " "@ + decimal(
                s.decreased as nat,
            ) + ", "@ + "━"@ + " "@ + decimal(s.unchanged as nat),
        exists|shown: Seq<char>|
            (if s.overall_gas_change > 0 {
                painted(shown, decimal(s.overall_gas_change as nat), "31"@)
            } else if s.overall_gas_change < 0 {
                painted(shown, seq!['-'] + decimal((-s.overall_gas_change) as nat), "32"@)
            } else {
                shown == decimal(0)
            }) && #[trigger] ("Overall gas change: "@ + shown + " ("@ + pct + ")"@)
                == lines[lines.len() - 1],
{
    reveal_strlit("  ");
    reveal_strlit(" ");
    let n = diffs.len() as int;
    if 0 <= j < new_tests.len() {
        let name = new_tests[j];
        let line = lines[n + 1 + j];
        assert(is_new_test_line(line, name));
        let plus = choose|plus: Seq<char>| #[trigger]
            painted(plus, "+"@, "32"@) && line == "  "@ + plus + " "@ + name;
        assert(line.skip(line.len() - name.len()) =~= name);
    }
    assert(repeated('-', 80) =~= Seq::new(80, |k: int| '-'));
    let last = lines[lines.len() - 1];
    let change = s.overall_gas_change as int;
    let shown = choose|shown: Seq<char>| #[trigger]
        colored_by_sign(shown, decimal_signed(change), change) && last == "Overall gas change: "@
            + shown + " ("@ + pct + ")"@;
    assert(("Overall gas change: "@ + shown + " ("@ + pct + ")"@) == last);
}

/// The lines show the comparisons of `set` in the order asked for, and their summary.
pub open spec fn is_sorted_report(
    lines: Seq<Seq<char>>,
    set: DiffSet,
    order: DiffSortOrder,
    overall_pct: Seq<char>,
) -> bool {
    exists|sorted: Seq<GasSnapshotDiff>, s: DiffSummary| #[trigger]
        is_in_order(set.diffs@, sorted, order) && #[trigger] s.sums_up(sorted) && is_diff_report(
            lines,
            sorted,
            strings(set.new_tests@),
            s,
            overall_pct,
        )
}

/// The report on a comparison with a snapshot. `overall_pct` is the overall percentage of change in
/// words.
pub fn diff(set: DiffSet, order: DiffSortOrder, overall_pct: &str) -> (r: Vec<String>)
    requires
        set.diffs@.len() <= i64::MAX,
    ensures
        is_sorted_report(strings(r@), set, order, overall_pct@),
{
    let DiffSet { diffs, new_tests } = set;
    let sorted = sort_diffs(diffs, order);
    proof {
        law_sorting_keeps_comparisons(diffs@, sorted@, order);
        vstd::seq_lib::to_multiset_len(diffs@);
        vstd::seq_lib::to_multiset_len(sorted@);
    }
    let summary = summarize(&sorted);
    let lines = diff_lines(&sorted, &new_tests, &summary, overall_pct);
    assert(is_in_order(set.diffs@, sorted@, order) && summary.sums_up(sorted@));
    lines
}

/// The overall change does not depend on the order of the comparisons.
pub proof fn law_overall_change_ignores_order(a: Seq<GasSnapshotDiff>, b: Seq<GasSnapshotDiff>)
    requires
        a.to_multiset() == b.to_multiset(),
    ensures
        overall_change(a) == overall_change(b),
        overall_recorded(a) == overall_recorded(b),
    decreases a.len(),
{
    broadcast use vstd::seq_lib::group_to_multiset_ensures;

    vstd::seq_lib::to_multiset_len(a);
    vstd::seq_lib::to_multiset_len(b);
    if a.len() == 0 {
        assert(a =~= b);
    } else {
        let x = a.last();
        let rest = a.drop_last();
        assert(a =~= rest.push(x));
        assert(a.to_multiset().count(x) > 0);
        assert(b.contains(x));
        let j = choose|j: int| 0 <= j < b.len() && b[j] == x;
        let other = b.remove(j);
        assert(b =~= other.insert(j, x));
        vstd::seq_lib::to_multiset_insert(other, j, x);
        assert(other.to_multiset() =~= b.to_multiset().remove(x));
        assert(rest.to_multiset() =~= a.to_multiset().remove(x));
        law_overall_change_ignores_order(rest, other);
        lemma_overall_insert(other, j, x);
    }
}

proof fn lemma_overall_insert(s: Seq<GasSnapshotDiff>, j: int, x: GasSnapshotDiff)
    requires
        0 <= j <= s.len(),
    ensures
        overall_change(s.insert(j, x)) == overall_change(s) + x.change(),
        overall_recorded(s.insert(j, x)) == overall_recorded(s) + x.target_gas_used,
    decreases s.len(),
{
    let t = s.insert(j, x);
    if j == s.len() {
        assert(t.drop_last() =~= s);
    } else {
        lemma_overall_insert(s.drop_last(), j, x);
        assert(t.drop_last() =~= s.drop_last().insert(j, x));
        assert(t.last() == s.last());
    }
}

// ---------------------------------------------------------------------------
// What to do
// ---------------------------------------------------------------------------
/// What the `snapshot` command was asked for.
#[derive(Debug)]
pub struct GasSnapshotArgs {
    /// Compare with a snapshot: with this file, or with the default one.
    pub diff: Option<Option<String>>,
    /// Check against a snapshot: against this file, or against the default one.
    pub check: Option<Option<String>>,
    /// Whether the snapshot is shown as a table as well.
    pub as_table: bool,
    /// The snapshot file.
    pub snap: String,
    pub tolerance: Option<u32>,
    pub diff_sort: Option<DiffSortOrder>,
    pub config: GasSnapshotConfig,
}

/// What the `snapshot` command does once the tests have run.
#[derive(Debug)]
pub enum SnapshotAction {
    /// Compare with the snapshot in `file`.
    Diff { file: String, order: DiffSortOrder },
    /// Check against the snapshot in `file`.
    Check { file: String, tolerance: Option<u32> },
    /// Write the snapshot to `file`.
    Write { file: String, as_table: bool },
}

/// The file that was named, or else the default one.
pub open spec fn file_or(named: Option<String>, default: Seq<char>) -> Seq<char> {
    match named {
        Some(file) => file@,
        None => default,
    }
}

fn pick_file(named: &Option<String>, default: &String) -> (r: String)
    ensures
        r@ == file_or(*named, default@),
{
    match named {
        Some(file) => file.as_str().to_owned(),
        None => default.as_str().to_owned(),
    }
}

impl GasSnapshotArgs {
    /// Decides what to do once the tests have run: to compare where that was asked for, else to
    /// check where that was, else to write.
    pub fn action(&self) -> (r: SnapshotAction)
        ensures
            match r {
                SnapshotAction::Diff { file, order } => self.diff is Some && file@ == file_or(
                    self.diff->0,
                    self.snap@,
                ) && order == match self.diff_sort {
                    Some(order) => order,
                    None => DiffSortOrder::Percentage,
                },
                SnapshotAction::Check { file, tolerance } => self.diff is None && self.check is Some
                    && file@ == file_or(self.check->0, self.snap@) && tolerance == self.tolerance,
                SnapshotAction::Write { file, as_table } => self.diff is None && self.check is None
                    && file@ == self.snap@ && as_table == self.as_table,
            },
    {
        if let Some(named) = &self.diff {
            let order = match self.diff_sort {
                Some(order) => order,
                None => DiffSortOrder::default(),
            };
            SnapshotAction::Diff { file: pick_file(named, &self.snap), order }
        } else if let Some(named) = &self.check {
            SnapshotAction::Check { file: pick_file(named, &self.snap), tolerance: self.tolerance }
        } else {
            SnapshotAction::Write { file: self.snap.as_str().to_owned(), as_table: self.as_table }
        }
    }
}

/// The exit code of a check.
pub fn exit_code(all_match: bool) -> (r: i32)
    ensures
        r == if all_match {
            0i32
        } else {
            1i32
        },
{
    if all_match {
        0
    } else {
        1
    }
}

/// The file that was named is the one that counts, and the default one where none was.
pub proof fn law_named_file_counts(named: String, default: Seq<char>)
    ensures
        file_or(Some(named), default) == named@,
        file_or(None, default) == default,
        snapshot_header().map_values(|c: CellView| c.0) == seq![
            "Contract"@,
            "Signature"@,
            "Report"@,
        ],
{
    assert(snapshot_header().map_values(|c: CellView| c.0) =~= seq![
        "Contract"@,
        "Signature"@,
        "Report"@,
    ]);
}

} // verus!
