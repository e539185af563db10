//! What a test run hands back.
use crate::text::count_of;
use vstd::prelude::*;

verus! {

/// How a test ended.
#[derive(Debug, Clone, Copy, PartialEq, Eq, Structural)]
pub enum TestStatus {
    Success,
    Failure,
    Skipped,
}

/// What a trace was recorded of.
#[derive(Debug, Clone, Copy, PartialEq, Eq, Structural)]
pub enum TraceKind {
    Deployment,
    Setup,
    Execution,
}

/// A span of time.
#[derive(Debug, Clone, Copy, PartialEq, Eq, Structural)]
pub struct Elapsed {
    pub secs: u64,
    /// Less than a second's worth.
    pub nanos: u32,
}

impl Elapsed {
    /// The nanoseconds do not make up a second.
    pub open spec fn wf(&self) -> bool {
        self.nanos < 1_000_000_000
    }

    /// The span in nanoseconds.
    pub open spec fn total(&self) -> int {
        self.secs * 1_000_000_000 + self.nanos
    }

    /// No time at all.
    pub fn zero() -> (r: Self)
        ensures
            r.wf(),
            r.total() == 0,
    {
        Elapsed { secs: 0, nanos: 0 }
    }

    /// The two spans one after the other.
    pub fn plus(self, other: Self) -> (r: Self)
        requires
            self.wf(),
            other.wf(),
            self.total() + other.total() < (u64::MAX + 1) * 1_000_000_000,
        ensures
            r.wf(),
            r.total() == self.total() + other.total(),
    {
        let nanos: u32 = self.nanos + other.nanos;
        if nanos >= 1_000_000_000 {
            Elapsed { secs: self.secs + other.secs + 1, nanos: nanos - 1_000_000_000 }
        } else {
            Elapsed { secs: self.secs + other.secs, nanos }
        }
    }
}

/// What became of one test.
#[derive(Debug)]
pub struct TestResult {
    pub status: TestStatus,
    /// Why it failed or was skipped.
    pub reason: Option<String>,
    pub duration: Elapsed,
    /// Whether it logged anything.
    pub has_logs: bool,
    /// What it logged, as far as it could be decoded.
    pub console_logs: Vec<String>,
    /// The result in words.
    pub shown: String,
    /// The gas and the runs it took, in words.
    pub report: String,
}

/// What became of the tests of one contract.
#[derive(Debug)]
pub struct SuiteResult {
    pub duration: Elapsed,
    /// The results, each beside the test's name.
    pub test_results: Vec<(String, TestResult)>,
    /// The results in one line.
    pub summary: String,
}

/// How each test ended.
pub open spec fn statuses(tests: Seq<(String, TestResult)>) -> Seq<TestStatus> {
    tests.map_values(|t: (String, TestResult)| t.1.status)
}

impl SuiteResult {
    /// How many tests ended in `status`.
    pub open spec fn counted(&self, status: TestStatus) -> nat {
        count_of(statuses(self.test_results@), status)
    }

    /// How many tests ended in `status`.
    pub fn count(&self, status: TestStatus) -> (r: usize)
        ensures
            r == self.counted(status),
    {
        let ghost all = statuses(self.test_results@);
        let mut n: usize = 0;
        let mut i: usize = 0;
        assert(all.take(0) =~= Seq::<TestStatus>::empty());
        while i < self.test_results.len()
            invariant
                i <= self.test_results@.len(),
                all == statuses(self.test_results@),
                n == count_of(all.take(i as int), status),
                n <= i,
            decreases self.test_results@.len() - i,
        {
            assert(all.take(i + 1).drop_last() =~= all.take(i as int));
            assert(all.take(i + 1).last() == self.test_results@[i as int].1.status);
            if self.test_results[i].1.status == status {
                n = n + 1;
            }
            i = i + 1;
        }
        assert(all.take(i as int) =~= all);
        n
    }
}

/// Every test of a suite is counted exactly once: as passed, as failed or as skipped.
pub proof fn law_every_test_is_counted_once(suite: SuiteResult)
    ensures
        suite.counted(TestStatus::Success) + suite.counted(TestStatus::Failure) + suite.counted(
            TestStatus::Skipped,
        ) == suite.test_results@.len(),
{
    lemma_three_counts(statuses(suite.test_results@));
}

proof fn lemma_three_counts(s: Seq<TestStatus>)
    ensures
        count_of(s, TestStatus::Success) + count_of(s, TestStatus::Failure) + count_of(
            s,
            TestStatus::Skipped,
        ) == s.len(),
    decreases s.len(),
{
    if s.len() > 0 {
        lemma_three_counts(s.drop_last());
    }
}

/// The tests counted for a status are those that ended in it.
pub proof fn law_count_is_that_of_the_tests(suite: SuiteResult, status: TestStatus)
    ensures
        suite.counted(status) == suite.test_results@.filter(
            |t: (String, TestResult)| t.1.status == status,
        ).len(),
{
    lemma_counted_by_filter(suite.test_results@, status);
}

proof fn lemma_counted_by_filter(tests: Seq<(String, TestResult)>, status: TestStatus)
    ensures
        count_of(statuses(tests), status) == tests.filter(
            |t: (String, TestResult)| t.1.status == status,
        ).len(),
    decreases tests.len(),
{
    reveal(Seq::filter);
    if tests.len() > 0 {
        lemma_counted_by_filter(tests.drop_last(), status);
        assert(statuses(tests).drop_last() =~= statuses(tests.drop_last()));
        assert(statuses(tests).last() == tests.last().1.status);
    }
}

/// A second is a billion nanoseconds, and a span is as long as its seconds and nanoseconds together.
pub proof fn law_spans_are_told_apart(a: Elapsed, b: Elapsed)
    requires
        a.wf(),
        b.wf(),
    ensures
        a.total() < b.total() <==> a.secs < b.secs || (a.secs == b.secs && a.nanos < b.nanos),
        a.total() == b.total() <==> a == b,
        a.secs == b.secs + 1 && a.nanos == b.nanos ==> a.total() == b.total() + 1_000_000_000,
        a.secs == b.secs ==> a.total() - b.total() == a.nanos - b.nanos,
        a.secs == 0 ==> a.total() == a.nanos,
{
}

} // verus!
