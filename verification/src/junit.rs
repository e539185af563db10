//! Test reports in JUnit's form.
use quick_junit::Report;
use quick_junit::TestCase;
use quick_junit::TestCaseStatus;
use quick_junit::TestSuite;
use vstd::prelude::*;

verus! {

#[verifier::external_type_specification]
#[verifier::external_body]
pub struct ExReport(quick_junit::Report);

#[verifier::external_type_specification]
#[verifier::external_body]
pub struct ExTestSuite(quick_junit::TestSuite);

#[verifier::external_type_specification]
#[verifier::external_body]
pub struct ExTestCase(quick_junit::TestCase);

#[verifier::external_type_specification]
#[verifier::external_body]
pub struct ExTestCaseStatus(quick_junit::TestCaseStatus);

#[verifier::external_type_specification]
#[verifier::external_body]
pub struct ExSerializeError(quick_junit::SerializeError);

/// How a test case ended, and why.
pub ghost enum JunitStatus {
    Success,
    Failure(Option<Seq<char>>),
    Skipped(Option<Seq<char>>),
    /// A status that this library does not make.
    Other,
}

/// A test case. Times are in nanoseconds.
pub ghost struct JunitCase {
    pub name: Seq<char>,
    pub status: JunitStatus,
    pub time: Option<int>,
    pub system_out: Option<Seq<char>>,
}

/// A suite of test cases. Times are in nanoseconds.
pub ghost struct JunitSuite {
    pub name: Seq<char>,
    pub cases: Seq<JunitCase>,
    pub tests: int,
    pub failures: int,
    pub errors: int,
    pub skipped: int,
    pub disabled: Option<int>,
    pub time: Option<int>,
    pub system_out: Option<Seq<char>>,
}

/// A report. Times are in nanoseconds.
pub ghost struct JunitReport {
    pub name: Seq<char>,
    pub suites: Seq<JunitSuite>,
    pub tests: int,
    pub failures: int,
    pub errors: int,
    pub skipped: int,
    pub disabled: Option<int>,
    pub time: Option<int>,
    /// Whether the time of its making was noted.
    pub stamped: bool,
}

/// What `status` says.
pub uninterp spec fn status_content(status: TestCaseStatus) -> JunitStatus;

/// What `case` says.
pub uninterp spec fn case_content(case: TestCase) -> JunitCase;

/// What `suite` says.
pub uninterp spec fn suite_content(suite: TestSuite) -> JunitSuite;

/// What `report` says.
pub uninterp spec fn report_content(report: Report) -> JunitReport;

/// The text that `quick_junit::XmlString::new` keeps: all but escape sequences and control
/// characters.
pub uninterp spec fn xml_text(text: Seq<char>) -> Seq<char>;

/// The XML document for `report`; none where it cannot be written.
pub uninterp spec fn report_document(report: Report) -> Option<Seq<char>>;

/// Nanoseconds in `secs` seconds and `nanos` nanoseconds.
pub open spec fn nanoseconds(secs: u64, nanos: u32) -> int {
    secs * 1_000_000_000 + nanos
}

/// `quick_junit::TestCaseStatus::success`.
#[verifier::external_body]
pub(crate) fn success() -> (r: TestCaseStatus)
    ensures
        status_content(r) == JunitStatus::Success,
{
    TestCaseStatus::success()
}

/// `quick_junit::TestCaseStatus::non_success` on a failure: no message yet.
#[verifier::external_body]
pub(crate) fn failure() -> (r: TestCaseStatus)
    ensures
        status_content(r) == JunitStatus::Failure(None),
{
    TestCaseStatus::non_success(quick_junit::NonSuccessKind::Failure)
}

/// `quick_junit::TestCaseStatus::skipped`: no message yet.
#[verifier::external_body]
pub(crate) fn skipped() -> (r: TestCaseStatus)
    ensures
        status_content(r) == JunitStatus::Skipped(None),
{
    TestCaseStatus::skipped()
}

/// The status with its message set to `text`. A success has no message.
pub open spec fn with_message(status: JunitStatus, text: Seq<char>) -> JunitStatus {
    match status {
        JunitStatus::Failure(_) => JunitStatus::Failure(Some(text)),
        JunitStatus::Skipped(_) => JunitStatus::Skipped(Some(text)),
        JunitStatus::Success => JunitStatus::Success,
        JunitStatus::Other => JunitStatus::Other,
    }
}

/// `quick_junit::TestCaseStatus::set_message`: sets the message, and changes nothing in a success.
#[verifier::external_body]
pub(crate) fn set_message(status: &mut TestCaseStatus, text: &str)
    ensures
        status_content(*final(status)) == with_message(
            status_content(*old(status)),
            xml_text(text@),
        ),
{
    status.set_message(text);
}

/// `quick_junit::TestCase::new`: a case with this name and status and nothing else.
#[verifier::external_body]
pub(crate) fn new_case(name: &str, status: TestCaseStatus) -> (r: TestCase)
    ensures
        case_content(r) == (JunitCase {
            name: xml_text(name@),
            status: status_content(status),
            time: None,
            system_out: None,
        }),
{
    TestCase::new(name, status)
}

/// `quick_junit::TestCase::set_time`.
#[verifier::external_body]
pub(crate) fn set_case_time(case: &mut TestCase, secs: u64, nanos: u32)
    requires
        nanos < 1_000_000_000,
    ensures
        case_content(*final(case)) == (JunitCase {
            time: Some(nanoseconds(secs, nanos)),
            ..case_content(*old(case))
        }),
{
    case.set_time(std::time::Duration::new(secs, nanos));
}

/// `quick_junit::TestCase::set_system_out`.
#[verifier::external_body]
pub(crate) fn set_case_output(case: &mut TestCase, text: &str)
    ensures
        case_content(*final(case)) == (JunitCase {
            system_out: Some(xml_text(text@)),
            ..case_content(*old(case))
        }),
{
    case.set_system_out(text);
}

/// `quick_junit::TestSuite::new`: a suite with this name and nothing else.
#[verifier::external_body]
pub(crate) fn new_suite(name: &str) -> (r: TestSuite)
    ensures
        suite_content(r) == (JunitSuite {
            name: xml_text(name@),
            cases: seq![],
            tests: 0,
            failures: 0,
            errors: 0,
            skipped: 0,
            disabled: None,
            time: None,
            system_out: None,
        }),
{
    TestSuite::new(name)
}

/// `quick_junit::TestSuite::set_time`.
#[verifier::external_body]
pub(crate) fn set_suite_time(suite: &mut TestSuite, secs: u64, nanos: u32)
    requires
        nanos < 1_000_000_000,
    ensures
        suite_content(*final(suite)) == (JunitSuite {
            time: Some(nanoseconds(secs, nanos)),
            ..suite_content(*old(suite))
        }),
{
    suite.set_time(std::time::Duration::new(secs, nanos));
}

/// `quick_junit::TestSuite::set_system_out`.
#[verifier::external_body]
pub(crate) fn set_suite_output(suite: &mut TestSuite, text: &str)
    ensures
        suite_content(*final(suite)) == (JunitSuite {
            system_out: Some(xml_text(text@)),
            ..suite_content(*old(suite))
        }),
{
    suite.set_system_out(text);
}

/// `suite` after `case` was appended and counted.
pub open spec fn with_case(suite: JunitSuite, case: JunitCase) -> JunitSuite {
    JunitSuite {
        cases: suite.cases.push(case),
        tests: suite.tests + 1,
        failures: suite.failures + if case.status is Failure {
            1int
        } else {
            0
        },
        skipped: suite.skipped + if case.status is Skipped {
            1int
        } else {
            0
        },
        ..suite
    }
}

/// `quick_junit::TestSuite::add_test_case`: appends the case and counts it, by its status as well.
/// The counts are of type `usize`; past its range the call panics.
#[verifier::external_body]
pub(crate) fn add_case(suite: &mut TestSuite, case: TestCase)
    requires
        !(case_content(case).status is Other),
        suite_content(*old(suite)).tests < usize::MAX,
        suite_content(*old(suite)).failures < usize::MAX,
        suite_content(*old(suite)).skipped < usize::MAX,
    ensures
        suite_content(*final(suite)) == with_case(suite_content(*old(suite)), case_content(case)),
{
    suite.add_test_case(case);
}

/// `quick_junit::Report::new`: a report with this name and nothing else.
#[verifier::external_body]
pub(crate) fn new_report(name: &str) -> (r: Report)
    ensures
        report_content(r) == (JunitReport {
            name: xml_text(name@),
            suites: seq![],
            tests: 0,
            failures: 0,
            errors: 0,
            skipped: 0,
            disabled: None,
            time: None,
            stamped: false,
        }),
{
    Report::new(name)
}

/// `quick_junit::Report::set_timestamp` with `chrono::Utc::now`: notes the current time. Nothing is
/// said of which time that is.
#[verifier::external_body]
pub(crate) fn stamp(report: &mut Report)
    ensures
        report_content(*final(report)) == (JunitReport {
            stamped: true,
            ..report_content(*old(report))
        }),
{
    report.set_timestamp(chrono::Utc::now());
}

/// `report` after `suite` was appended and its counts added.
pub open spec fn with_suite(report: JunitReport, suite: JunitSuite) -> JunitReport {
    JunitReport {
        suites: report.suites.push(suite),
        tests: report.tests + suite.tests,
        failures: report.failures + suite.failures,
        errors: report.errors + suite.errors,
        skipped: report.skipped + suite.skipped,
        ..report
    }
}

/// `quick_junit::Report::add_test_suite`: appends the suite and adds its counts to the report's.
/// The counts are of type `usize`; past its range the call panics.
#[verifier::external_body]
pub(crate) fn add_suite(report: &mut Report, suite: TestSuite)
    requires
        suite_content(suite).disabled is None,
        report_content(*old(report)).tests + suite_content(suite).tests <= usize::MAX,
        report_content(*old(report)).failures + suite_content(suite).failures <= usize::MAX,
        report_content(*old(report)).errors + suite_content(suite).errors <= usize::MAX,
        report_content(*old(report)).skipped + suite_content(suite).skipped <= usize::MAX,
    ensures
        report_content(*final(report)) == with_suite(
            report_content(*old(report)),
            suite_content(suite),
        ),
{
    report.add_test_suite(suite);
}

/// `quick_junit::Report::set_time`.
#[verifier::external_body]
pub(crate) fn set_report_time(report: &mut Report, secs: u64, nanos: u32)
    requires
        nanos < 1_000_000_000,
    ensures
        report_content(*final(report)) == (JunitReport {
            time: Some(nanoseconds(secs, nanos)),
            ..report_content(*old(report))
        }),
{
    report.set_time(std::time::Duration::new(secs, nanos));
}

/// `quick_junit::Report::to_string`: whether it succeeds, and the document it gives, depend on the
/// report alone. Nothing is said of the error.
#[verifier::external_body]
pub(crate) fn document(report: &Report) -> (r: Result<String, quick_junit::SerializeError>)
    ensures
        match r {
            Ok(text) => report_document(*report) == Some(text@),
            Err(_) => report_document(*report) is None,
        },
{
    report.to_string()
}

} // verus!
