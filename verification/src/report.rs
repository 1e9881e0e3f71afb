//! Test reporting and result formatting.

use crate::binary64::Binary64;
use crate::calendar::{date_and_time, time_of_day};
use crate::clock::utc_now;
use crate::framework::{PhaseResult, PhaseResultView, TestPhase, TestResult, TestResultView};
use crate::measure::{law_mean_of_integers, mean, mean_of};
use crate::order::{lemma_filter_start, lemma_filter_step};
use crate::share::total;
use crate::text::{copy_of, decimal, fixed_text, push_decimal, push_fixed};
use vstd::prelude::*;

verus! {

/// Complete test report.
#[derive(Debug)]
pub struct TestReport {
    pub title: String,
    /// When the report was made (nanoseconds since 1970-01-01 UTC)
    pub generated_at: i64,
    pub results: Vec<TestResult>,
    pub summary: ReportSummary,
}

/// Summary statistics.
#[derive(Debug)]
pub struct ReportSummary {
    pub total_tests: usize,
    pub tests_with_winner: usize,
    pub avg_confidence: Binary64,
    pub recommendations: Vec<String>,
}

/// What a [`ReportSummary`] holds.
#[verifier::ext_equal]
pub struct ReportSummaryView {
    pub total_tests: usize,
    pub tests_with_winner: usize,
    pub avg_confidence: Binary64,
    pub recommendations: Seq<Seq<char>>,
}

impl View for ReportSummary {
    type V = ReportSummaryView;

    open spec fn view(&self) -> ReportSummaryView {
        ReportSummaryView {
            total_tests: self.total_tests,
            tests_with_winner: self.tests_with_winner,
            avg_confidence: self.avg_confidence,
            recommendations: self.recommendations@.map_values(|r: String| r@),
        }
    }
}

/// What a [`TestReport`] holds.
#[verifier::ext_equal]
pub struct TestReportView {
    pub title: Seq<char>,
    pub generated_at: i64,
    pub results: Seq<TestResultView>,
    pub summary: ReportSummaryView,
}

impl View for TestReport {
    type V = TestReportView;

    open spec fn view(&self) -> TestReportView {
        TestReportView {
            title: self.title@,
            generated_at: self.generated_at,
            results: self.results@.map_values(|r: TestResult| r@),
            summary: self.summary@,
        }
    }
}

// ---------------------------------------------------------------------------
// Summary
// ---------------------------------------------------------------------------

/// The results with a winner.
pub open spec fn won(results: Seq<TestResultView>) -> Seq<TestResultView> {
    results.filter(|r: TestResultView| r.winner is Some)
}

/// The results with a recommendation.
pub open spec fn advised(results: Seq<TestResultView>) -> Seq<TestResultView> {
    results.filter(|r: TestResultView| r.recommendation.len() > 0)
}

/// The summary of results.
pub open spec fn summary_of(results: Seq<TestResultView>) -> ReportSummaryView {
    ReportSummaryView {
        total_tests: results.len() as usize,
        tests_with_winner: won(results).len() as usize,
        avg_confidence: if won(results).len() > 0 {
            mean(won(results).map_values(|r: TestResultView| r.confidence))
        } else {
            Binary64::of_nat(0)
        },
        recommendations: advised(results).map_values(|r: TestResultView| r.recommendation),
    }
}

impl TestReport {
    /// Create a new report from test results.
    pub fn new(title: &str, results: Vec<TestResult>) -> (r: TestReport)
        ensures
            r@.title == title@,
            r.results == results,
            r@.summary == summary_of(results@.map_values(|r: TestResult| r@)),
    {
        Self::new_at(title, results, utc_now())
    }

    /// The report of test results made at a given time.
    pub fn new_at(title: &str, results: Vec<TestResult>, generated_at: i64) -> (r: TestReport)
        ensures
            r@.title == title@,
            r@.generated_at == generated_at,
            r.results == results,
            r@.summary == summary_of(results@.map_values(|r: TestResult| r@)),
    {
        let summary: ReportSummary = Self::compute_summary(&results);
        TestReport { title: copy_of(title), generated_at, results, summary }
    }

    fn compute_summary(results: &Vec<TestResult>) -> (r: ReportSummary)
        ensures
            r@ == summary_of(results@.map_values(|r: TestResult| r@)),
    {
        let ghost all = results@.map_values(|r: TestResult| r@);
        let ghost winner = |r: TestResultView| r.winner is Some;
        let ghost advice = |r: TestResultView| r.recommendation.len() > 0;
        let ghost confidence = |r: TestResultView| r.confidence;
        let mut confidences: Vec<Binary64> = Vec::new();
        let mut recommendations: Vec<String> = Vec::new();
        let mut i: usize = 0;
        proof {
            lemma_filter_start(all, winner);
            lemma_filter_start(all, advice);
            assert(confidences@ =~= all.take(0).filter(winner).map_values(confidence));
        }
        while i < results.len()
            invariant
                i <= results@.len(),
                all == results@.map_values(|r: TestResult| r@),
                winner == (|r: TestResultView| r.winner is Some),
                advice == (|r: TestResultView| r.recommendation.len() > 0),
                confidence == (|r: TestResultView| r.confidence),
                confidences@ == all.take(i as int).filter(winner).map_values(confidence),
                recommendations@.len() == all.take(i as int).filter(advice).len(),
                forall|j: int|
                    0 <= j < recommendations@.len() ==> (#[trigger] recommendations@[j])@ == all.take(
                        i as int,
                    ).filter(advice)[j].recommendation,
            decreases results.len() - i,
        {
            let ghost before = all.take(i as int).filter(winner);
            proof {
                lemma_filter_step(all, winner, i as int);
                lemma_filter_step(all, advice, i as int);
            }
            let result: &TestResult = &results[i];
            assert(all[i as int] == result@);
            if result.winner.is_some() {
                confidences.push(result.confidence);
                assert(confidences@ =~= before.push(all[i as int]).map_values(confidence));
            }
            if result.recommendation.as_str().unicode_len() > 0 {
                recommendations.push(copy_of(&result.recommendation));
            }
            i = i + 1;
        }
        proof {
            lemma_filter_start(all, winner);
            lemma_filter_start(all, advice);
            assert(recommendations@.map_values(|r: String| r@) =~= summary_of(all).recommendations);
            assert(confidences@.len() == won(all).len());
            assert(confidences@ == won(all).map_values(|r: TestResultView| r.confidence));
        }
        let avg_confidence: Binary64 = if confidences.len() > 0 {
            mean_of(&confidences)
        } else {
            Binary64::from_u64(0)
        };
        ReportSummary {
            total_tests: results.len(),
            tests_with_winner: confidences.len(),
            avg_confidence,
            recommendations,
        }
    }
}

// ---------------------------------------------------------------------------
// Times
// ---------------------------------------------------------------------------

/// `chrono::DateTime::format` on an instant in UTC, as a string.  The contract
/// claims that the pattern of hours, minutes and seconds gives the time of
/// day, and that the one with a date puts the Gregorian date before it.
#[verifier::external_body]
fn utc_text(nanos: i64, pattern: &str) -> (r: String)
    requires
        pattern@ == "%Y-%m-%d %H:%M:%S UTC"@ || pattern@ == "%H:%M:%S"@,
    ensures
        pattern@ == "%H:%M:%S"@ ==> r@ == time_of_day(nanos),
        pattern@ == "%Y-%m-%d %H:%M:%S UTC"@ ==> r@ == date_and_time(nanos),
{
    chrono::DateTime::from_timestamp_nanos(nanos).format(pattern).to_string()
}

// ---------------------------------------------------------------------------
// Markdown
// ---------------------------------------------------------------------------

/// The name of a phase in a table.
pub open spec fn row_name(phase: TestPhase) -> Seq<char> {
    match phase {
        TestPhase::Baseline => "Baseline"@,
        TestPhase::VariantA => "Variant A"@,
        TestPhase::VariantB => "Variant B"@,
        _ => "Other"@,
    }
}

fn row_name_of(phase: TestPhase) -> (r: &'static str)
    ensures
        r@ == row_name(phase),
{
    match phase {
        TestPhase::Baseline => "Baseline",
        TestPhase::VariantA => "Variant A",
        TestPhase::VariantB => "Variant B",
        _ => "Other",
    }
}

/// A ratio in percent.
pub open spec fn percent(x: Binary64, places: nat) -> Seq<char> {
    fixed_text(x.product(Binary64::of_nat(100)), places)
}

/// A phase as a row of a table.
pub open spec fn row(p: PhaseResultView) -> Seq<char> {
    "| "@ + row_name(p.phase) + " | "@ + p.parameter_value.text() + " | "@ + decimal(p.samples as nat) + " | "@
        + fixed_text(p.metrics_summary.avg_throughput_down_mbps, 2) + " | "@ + fixed_text(
        p.metrics_summary.avg_latency_ms,
        2,
    ) + " | "@ + fixed_text(p.score, 2) + " |\n"@
}

/// The first `n` phases as rows of a table.
pub open spec fn rows(phases: Seq<PhaseResultView>, n: nat) -> Seq<char>
    decreases n,
{
    if n == 0 {
        Seq::empty()
    } else {
        rows(phases, (n - 1) as nat) + row(phases[n - 1])
    }
}

/// The first `n` recommendations as a numbered list.
pub open spec fn numbered(items: Seq<Seq<char>>, n: nat) -> Seq<char>
    decreases n,
{
    if n == 0 {
        Seq::empty()
    } else {
        numbered(items, (n - 1) as nat) + decimal(n) + ". "@ + items[n - 1] + "\n"@
    }
}

/// The section of a result, with the text of its start and end.
pub open spec fn section(r: TestResultView, span: (Seq<char>, Seq<char>)) -> Seq<char> {
    "### "@ + r.config.name + "\n\n"@ + "**Parameter**: `"@ + r.config.parameter_path + "`\n\n"@ + "**Duration**: "@
        + span.0 + " - "@ + span.1 + "\n\n"@
        + "| Phase | Value | Samples | Throughput (Mbps) | Latency (ms) | Score |\n"@
        + "|-------|-------|---------|-------------------|--------------|-------|\n"@ + rows(
        r.phases,
        r.phases.len(),
    ) + "\n"@ + (match r.winner {
        Some(w) => "**Winner**: "@ + w + " (confidence: "@ + percent(r.confidence, 0) + "%)\n\n"@,
        None => Seq::empty(),
    }) + "---\n\n"@
}

/// The sections of the first `n` results.
pub open spec fn sections(results: Seq<TestResultView>, spans: Seq<(Seq<char>, Seq<char>)>, n: nat) -> Seq<char>
    decreases n,
{
    if n == 0 {
        Seq::empty()
    } else {
        sections(results, spans, (n - 1) as nat) + section(results[n - 1], spans[n - 1])
    }
}

impl TestReportView {
    /// The report in Markdown, with the text of when it was made and of when
    /// each test started and ended.
    pub open spec fn markdown(self, generated: Seq<char>, spans: Seq<(Seq<char>, Seq<char>)>) -> Seq<char> {
        "# "@ + self.title + "\n\n"@ + "Generated: "@ + generated + "\n\n"@ + "## Summary\n\n"@ + "- **Total Tests**: "@
            + decimal(self.summary.total_tests as nat) + "\n"@ + "- **Tests with Clear Winner**: "@ + decimal(
            self.summary.tests_with_winner as nat,
        ) + "\n"@ + "- **Average Confidence**: "@ + percent(self.summary.avg_confidence, 1) + "%\n\n"@ + (
        if self.summary.recommendations.len() > 0 {
            "### Recommendations\n\n"@ + numbered(
                self.summary.recommendations,
                self.summary.recommendations.len(),
            ) + "\n"@
        } else {
            Seq::empty()
        }) + "## Detailed Results\n\n"@ + sections(self.results, spans, self.results.len())
    }

    /// When each test started and ended.
    pub open spec fn spans(self) -> Seq<(Seq<char>, Seq<char>)> {
        self.results.map_values(|r: TestResultView| (time_of_day(r.started_at), time_of_day(r.completed_at)))
    }
}

fn row_of(p: &PhaseResult) -> (r: String)
    ensures
        r@ == row(p@),
{
    let mut r: String = copy_of("| ");
    r.append(row_name_of(p.phase));
    r.append(" | ");
    r.append(p.parameter_value.text().as_str());
    r.append(" | ");
    push_decimal(&mut r, p.samples as u64);
    r.append(" | ");
    push_fixed(&mut r, p.metrics_summary.avg_throughput_down_mbps, 2);
    r.append(" | ");
    push_fixed(&mut r, p.metrics_summary.avg_latency_ms, 2);
    r.append(" | ");
    push_fixed(&mut r, p.score, 2);
    r.append(" |\n");
    r
}

fn rows_of(phases: &Vec<PhaseResult>) -> (r: String)
    ensures
        r@ == rows(phases@.map_values(|p: PhaseResult| p@), phases@.len()),
{
    let ghost all = phases@.map_values(|p: PhaseResult| p@);
    let mut r: String = String::new();
    let mut i: usize = 0;
    assert(r@ =~= rows(all, 0));
    while i < phases.len()
        invariant
            i <= phases@.len(),
            all == phases@.map_values(|p: PhaseResult| p@),
            r@ == rows(all, i as nat),
        decreases phases.len() - i,
    {
        r.append(row_of(&phases[i]).as_str());
        i = i + 1;
        assert(all[i - 1] == phases@[i - 1]@);
    }
    r
}

fn winner_line(r: &TestResult) -> (line: String)
    ensures
        line@ == match r@.winner {
            Some(w) => "**Winner**: "@ + w + " (confidence: "@ + percent(r@.confidence, 0) + "%)\n\n"@,
            None => Seq::empty(),
        },
{
    match &r.winner {
        Some(winner) => {
            let mut line: String = copy_of("**Winner**: ");
            line.append(winner.as_str());
            line.append(" (confidence: ");
            push_fixed(&mut line, r.confidence.times(Binary64::from_u64(100)), 0);
            line.append("%)\n\n");
            line
        },
        None => {
            let line: String = String::new();
            assert(line@ =~= Seq::<char>::empty());
            line
        },
    }
}

fn section_of(r: &TestResult, started: &str, completed: &str) -> (md: String)
    ensures
        md@ == section(r@, (started@, completed@)),
{
    let mut md: String = copy_of("### ");
    md.append(&r.config.name);
    md.append("\n\n");
    md.append("**Parameter**: `");
    md.append(&r.config.parameter_path);
    md.append("`\n\n");
    md.append("**Duration**: ");
    md.append(started);
    md.append(" - ");
    md.append(completed);
    md.append("\n\n");
    md.append("| Phase | Value | Samples | Throughput (Mbps) | Latency (ms) | Score |\n");
    md.append("|-------|-------|---------|-------------------|--------------|-------|\n");
    md.append(rows_of(&r.phases).as_str());
    md.append("\n");
    md.append(winner_line(r).as_str());
    md.append("---\n\n");
    md
}

fn numbered_of(items: &Vec<String>) -> (r: String)
    ensures
        r@ == numbered(items@.map_values(|s: String| s@), items@.len()),
{
    let ghost all = items@.map_values(|s: String| s@);
    let mut r: String = String::new();
    let mut i: usize = 0;
    assert(r@ =~= numbered(all, 0));
    while i < items.len()
        invariant
            i <= items@.len(),
            all == items@.map_values(|s: String| s@),
            r@ == numbered(all, i as nat),
        decreases items.len() - i,
    {
        push_decimal(&mut r, i as u64 + 1);
        r.append(". ");
        r.append(items[i].as_str());
        r.append("\n");
        i = i + 1;
        assert(all[i - 1] == items@[i - 1]@);
    }
    r
}

fn advice_of(items: &Vec<String>) -> (r: String)
    ensures
        r@ == if items@.len() > 0 {
            "### Recommendations\n\n"@ + numbered(items@.map_values(|s: String| s@), items@.len()) + "\n"@
        } else {
            Seq::empty()
        },
{
    if items.len() > 0 {
        let mut r: String = copy_of("### Recommendations\n\n");
        r.append(numbered_of(items).as_str());
        r.append("\n");
        r
    } else {
        let r: String = String::new();
        assert(r@ =~= Seq::<char>::empty());
        r
    }
}

impl TestReport {
    /// The report in Markdown, with the text of when it was made and of when
    /// each test started and ended.
    pub fn render(&self, generated: &str, spans: &Vec<(String, String)>) -> (md: String)
        requires
            spans@.len() == self.results@.len(),
        ensures
            md@ == self@.markdown(generated@, spans@.map_values(|s: (String, String)| (s.0@, s.1@))),
    {
        let ghost view = self@;
        let ghost times = spans@.map_values(|s: (String, String)| (s.0@, s.1@));
        let mut md: String = copy_of("# ");
        md.append(&self.title);
        md.append("\n\n");
        md.append("Generated: ");
        md.append(generated);
        md.append("\n\n");
        md.append("## Summary\n\n");
        md.append("- **Total Tests**: ");
        push_decimal(&mut md, self.summary.total_tests as u64);
        md.append("\n");
        md.append("- **Tests with Clear Winner**: ");
        push_decimal(&mut md, self.summary.tests_with_winner as u64);
        md.append("\n");
        md.append("- **Average Confidence**: ");
        push_fixed(&mut md, self.summary.avg_confidence.times(Binary64::from_u64(100)), 1);
        md.append("%\n\n");
        md.append(advice_of(&self.summary.recommendations).as_str());
        md.append("## Detailed Results\n\n");
        let mut body: String = String::new();
        let mut i: usize = 0;
        assert(body@ =~= sections(view.results, times, 0));
        while i < self.results.len()
            invariant
                i <= self.results@.len(),
                spans@.len() == self.results@.len(),
                view == self@,
                times == spans@.map_values(|s: (String, String)| (s.0@, s.1@)),
                body@ == sections(view.results, times, i as nat),
            decreases self.results.len() - i,
        {
            let span: &(String, String) = &spans[i];
            body.append(section_of(&self.results[i], span.0.as_str(), span.1.as_str()).as_str());
            i = i + 1;
            assert(view.results[i - 1] == self.results@[i - 1]@);
            assert(times[i - 1] == (span.0@, span.1@));
        }
        md.append(body.as_str());
        md
    }

    /// Generate markdown report.
    pub fn to_markdown(&self) -> (md: String)
        ensures
            md@ == self@.markdown(date_and_time(self@.generated_at), self@.spans()),
    {
        let mut spans: Vec<(String, String)> = Vec::new();
        let mut i: usize = 0;
        while i < self.results.len()
            invariant
                i <= self.results@.len(),
                spans@.len() == i,
                forall|j: int|
                    #![trigger spans@[j]]
                    0 <= j < i ==> spans@[j].0@ == time_of_day(self.results@[j].started_at) && spans@[j].1@
                        == time_of_day(self.results@[j].completed_at),
            decreases self.results.len() - i,
        {
            let r: &TestResult = &self.results[i];
            spans.push((utc_text(r.started_at, "%H:%M:%S"), utc_text(r.completed_at, "%H:%M:%S")));
            i = i + 1;
        }
        assert(spans@.map_values(|s: (String, String)| (s.0@, s.1@)) =~= self@.spans());
        self.render(utc_text(self.generated_at, "%Y-%m-%d %H:%M:%S UTC").as_str(), &spans)
    }
}

/// Whether a report goes to a file as JSON rather than Markdown.
pub fn is_json_path(path: &str) -> (r: bool)
    ensures
        r == (path@.len() >= 5 && path@.skip(path@.len() - 5) == ".json"@),
{
    proof {
        reveal_strlit(".json");
    }
    let n: usize = path.unicode_len();
    if n < 5 {
        return false;
    }
    let r: bool = path.get_char(n - 5) == '.' && path.get_char(n - 4) == 'j' && path.get_char(n - 3) == 's'
        && path.get_char(n - 2) == 'o' && path.get_char(n - 1) == 'n';
    proof {
        let end = path@.skip(path@.len() - 5);
        assert(end.len() == 5);
        if r {
            assert(end =~= ".json"@);
        } else {
            assert(end[0] == path@[n - 5]);
            assert(end[1] == path@[n - 4]);
            assert(end[2] == path@[n - 3]);
            assert(end[3] == path@[n - 2]);
            assert(end[4] == path@[n - 1]);
        }
    }
    r
}

// ---------------------------------------------------------------------------
// Laws
// ---------------------------------------------------------------------------

/// A report counts every test, no more winners than tests, and no more
/// recommendations than tests.
pub proof fn law_summary_counts_are_bounded(results: Seq<TestResultView>)
    requires
        results.len() <= usize::MAX,
    ensures
        summary_of(results).total_tests == results.len(),
        summary_of(results).tests_with_winner <= results.len(),
        summary_of(results).recommendations.len() <= results.len(),
{
    results.lemma_filter_len(|r: TestResultView| r.winner is Some);
    results.lemma_filter_len(|r: TestResultView| r.recommendation.len() > 0);
}

/// One result more counts: as a test, and as a winner and towards the average
/// where it has one, and as a recommendation where it makes one.
pub proof fn law_summary_adds_up(results: Seq<TestResultView>, r: TestResultView)
    requires
        results.len() < usize::MAX,
    ensures
        ({
            let before = summary_of(results);
            let after = summary_of(results.push(r));
            &&& after.total_tests == before.total_tests + 1
            &&& r.winner is Some ==> after.tests_with_winner == before.tests_with_winner + 1
            &&& r.winner is None ==> after.tests_with_winner == before.tests_with_winner && after.avg_confidence
                == before.avg_confidence
            &&& r.recommendation.len() > 0 ==> after.recommendations == before.recommendations.push(r.recommendation)
            &&& r.recommendation.len() == 0 ==> after.recommendations == before.recommendations
        }),
        summary_of(Seq::empty()).avg_confidence == Binary64::of_nat(0),
{
    let all = results.push(r);
    reveal(Seq::filter);
    assert(all.drop_last() =~= results);
    results.lemma_filter_len(|r: TestResultView| r.winner is Some);
    results.lemma_filter_len(|r: TestResultView| r.recommendation.len() > 0);
    assert(summary_of(all).recommendations =~= if r.recommendation.len() > 0 {
        summary_of(results).recommendations.push(r.recommendation)
    } else {
        summary_of(results).recommendations
    });
    assert(won(Seq::empty()).len() == 0);
}

/// The average confidence is that of the tests with a winner: here all have
/// one, and are sure or not at all.
pub proof fn law_confidence_is_averaged(results: Seq<TestResultView>, sure: Seq<u64>)
    requires
        0 < results.len() < 0x20_0000_0000_0000,
        sure.len() == results.len(),
        total(sure) < 0x20_0000_0000_0000,
        forall|i: int|
            0 <= i < results.len() ==> (#[trigger] results[i]).winner is Some && results[i].confidence == Binary64::of_nat(
                sure[i] as nat,
            ),
    ensures
        summary_of(results).avg_confidence == Binary64::fraction(total(sure), results.len()),
{
    lemma_all_won(results);
    law_mean_of_integers(sure);
    assert(results.map_values(|r: TestResultView| r.confidence) =~= sure.map_values(
        |v: u64| Binary64::of_nat(v as nat),
    ));
}

proof fn lemma_all_won(results: Seq<TestResultView>)
    requires
        forall|i: int| 0 <= i < results.len() ==> (#[trigger] results[i]).winner is Some,
    ensures
        won(results) == results,
    decreases results.len(),
{
    reveal(Seq::filter);
    if results.len() > 0 {
        let shorter = results.drop_last();
        assert forall|i: int| 0 <= i < shorter.len() implies (#[trigger] shorter[i]).winner is Some by {
            assert(shorter[i] == results[i]);
        }
        lemma_all_won(shorter);
        assert(results.last() == results[results.len() - 1]);
        assert(shorter.push(results.last()) =~= results);
    }
}

} // verus!
