//! [`HtmlReporter`]: renders session reports as an HTML page.
//!
//! The page is a pure function of the reports (no wall-clock time), so it
//! can be compared byte for byte.

use vstd::prelude::*;

use crate::ids::{uuid_text, EventSeq};
use crate::oracle::engine::{results_max_rank, results_model, severity_of_rank, SessionReport};
use crate::oracle::rule::{OracleResult, OracleViolation, Severity};
use crate::text::{nat_text, push_nat};

verus! {

/// Short label of a severity.
pub open spec fn severity_label(s: Severity) -> Seq<char> {
    match s {
        Severity::Warning => "WARN"@,
        Severity::Error => "ERR"@,
        Severity::Critical => "CRIT"@,
    }
}

/// The decimal texts of the evidence, separated by `", "`.
pub open spec fn evidence_text(ev: Seq<EventSeq>) -> Seq<char>
    decreases ev.len(),
{
    if ev.len() == 0 {
        Seq::empty()
    } else if ev.len() == 1 {
        nat_text(ev[0].0 as nat)
    } else {
        evidence_text(ev.drop_last()) + ", "@ + nat_text(ev.last().0 as nat)
    }
}

/// One violation: `[SEV] message (seq a, b)`.
pub open spec fn violation_text(v: OracleViolation) -> Seq<char> {
    "["@ + severity_label(v.severity) + "] "@ + v.message@ + " (seq "@ + evidence_text(v.evidence@)
        + ")"@
}

/// The violations of a result, separated by `<br>`.
pub open spec fn violations_text(vs: Seq<OracleViolation>) -> Seq<char>
    decreases vs.len(),
{
    if vs.len() == 0 {
        Seq::empty()
    } else if vs.len() == 1 {
        violation_text(vs[0])
    } else {
        violations_text(vs.drop_last()) + "<br>"@ + violation_text(vs.last())
    }
}

/// One table row for a result of the session with text `sid`.
pub open spec fn row_text(sid: Seq<char>, r: OracleResult) -> Seq<char> {
    "<tr><td>"@ + sid + "</td><td>"@ + r.rule@ + "</td><td class=\""@ + (if r.passed {
        "pass"@
    } else {
        "fail"@
    }) + "\">"@ + (if r.passed {
        "PASS"@
    } else {
        "FAIL"@
    }) + "</td><td>"@ + violations_text(r.violations@) + "</td></tr>\n"@
}

/// The rows of the first `n` results of one session.
pub open spec fn result_rows(sid: Seq<char>, rs: Seq<OracleResult>, n: nat) -> Seq<char>
    decreases n,
{
    if n == 0 || n > rs.len() {
        Seq::empty()
    } else {
        result_rows(sid, rs, (n - 1) as nat) + row_text(sid, rs[n - 1])
    }
}

/// The rows of the first `n` reports.
pub open spec fn report_rows(reports: Seq<SessionReport>, n: nat) -> Seq<char>
    decreases n,
{
    if n == 0 || n > reports.len() {
        Seq::empty()
    } else {
        let r = reports[n - 1];
        report_rows(reports, (n - 1) as nat) + result_rows(
            uuid_text(r.session_id.0),
            r.results@,
            r.results@.len(),
        )
    }
}

/// Every rule of the report passed.
pub open spec fn report_passed(r: SessionReport) -> bool {
    forall|i: int| 0 <= i < r.results@.len() ==> (#[trigger] r.results@[i]).passed
}

/// The report's highest severity is `Critical`.
pub open spec fn report_critical(r: SessionReport) -> bool {
    severity_of_rank(results_max_rank(results_model(r.results@))) == Some(Severity::Critical)
}

/// How many of the first `n` reports passed every rule.
pub open spec fn passed_count(reports: Seq<SessionReport>, n: nat) -> nat
    decreases n,
{
    if n == 0 || n > reports.len() {
        0
    } else {
        passed_count(reports, (n - 1) as nat) + if report_passed(reports[n - 1]) {
            1nat
        } else {
            0nat
        }
    }
}

/// The summary line.
pub open spec fn summary_text(reports: Seq<SessionReport>) -> Seq<char> {
    let total = reports.len();
    let passed = passed_count(reports, total);
    "<p>Sessions: "@ + nat_text(total) + " &nbsp;|&nbsp; Passed: "@ + nat_text(passed)
        + " &nbsp;|&nbsp; Failed: "@ + nat_text((total - passed) as nat) + (if exists|i: int|
        0 <= i < reports.len() && report_critical(#[trigger] reports[i]) {
        " &nbsp;| <strong class=\"crit\">CRITICAL</strong>"@
    } else {
        Seq::empty()
    }) + "</p>\n"@
}

/// Everything before the summary line.
pub open spec fn page_head() -> Seq<char> {
    "<!DOCTYPE html>\n"@ + "<html lang=\"en\"><head><meta charset=\"utf-8\">\n"@
        + "<title>SemantxTrace Oracle Report</title>\n"@
        + "<style>body{font-family:sans-serif;margin:2em} table{border-collapse:collapse;width:100%} td,th{border:1px solid #ccc;padding:.4em .8em} .pass{color:green} .fail{color:red} .crit{color:darkred;font-weight:bold}</style>\n"@
        + "</head><body>\n"@ + "<h1>Oracle Report</h1>\n"@
}

/// The table's opening.
pub open spec fn table_head() -> Seq<char> {
    "<table><thead><tr><th>Session</th><th>Rule</th><th>Result</th><th>Violations</th></tr></thead><tbody>\n"@
}

/// The page's end.
pub open spec fn page_tail() -> Seq<char> {
    "</tbody></table></body></html>\n"@
}

/// The whole HTML page for `reports`.
pub open spec fn html_text(reports: Seq<SessionReport>) -> Seq<char> {
    page_head() + summary_text(reports) + table_head() + report_rows(reports, reports.len())
        + page_tail()
}

fn push_evidence(s: &mut String, ev: &Vec<EventSeq>)
    ensures
        final(s)@ == old(s)@ + evidence_text(ev@),
{
    let mut i: usize = 0;
    while i < ev.len()
        invariant
            i <= ev@.len(),
            s@ == old(s)@ + evidence_text(ev@.subrange(0, i as int)),
        decreases ev@.len() - i,
    {
        proof {
            let p = ev@.subrange(0, i + 1);
            assert(p.drop_last() =~= ev@.subrange(0, i as int));
            if i == 0 {
                assert(ev@.subrange(0, 0) =~= Seq::<EventSeq>::empty());
            }
        }
        if i > 0 {
            s.append(", ");
        }
        push_nat(s, ev[i].0);
        i += 1;
    }
    assert(ev@.subrange(0, ev@.len() as int) =~= ev@);
}

fn push_violation(s: &mut String, v: &OracleViolation)
    ensures
        final(s)@ == old(s)@ + violation_text(*v),
{
    s.append("[");
    s.append(format_severity(v.severity));
    s.append("] ");
    s.append(v.message.as_str());
    s.append(" (seq ");
    push_evidence(s, &v.evidence);
    s.append(")");
}

fn push_violations(s: &mut String, vs: &Vec<OracleViolation>)
    ensures
        final(s)@ == old(s)@ + violations_text(vs@),
{
    let mut i: usize = 0;
    while i < vs.len()
        invariant
            i <= vs@.len(),
            s@ == old(s)@ + violations_text(vs@.subrange(0, i as int)),
        decreases vs@.len() - i,
    {
        proof {
            let p = vs@.subrange(0, i + 1);
            assert(p.drop_last() =~= vs@.subrange(0, i as int));
            if i == 0 {
                assert(vs@.subrange(0, 0) =~= Seq::<OracleViolation>::empty());
            }
        }
        if i > 0 {
            s.append("<br>");
        }
        push_violation(s, &vs[i]);
        i += 1;
    }
    assert(vs@.subrange(0, vs@.len() as int) =~= vs@);
}

fn push_row(s: &mut String, sid: &str, r: &OracleResult)
    ensures
        final(s)@ == old(s)@ + row_text(sid@, *r),
{
    s.append("<tr><td>");
    s.append(sid);
    s.append("</td><td>");
    s.append(r.rule.as_str());
    s.append("</td><td class=\"");
    if r.passed {
        s.append("pass");
    } else {
        s.append("fail");
    }
    s.append("\">");
    if r.passed {
        s.append("PASS");
    } else {
        s.append("FAIL");
    }
    s.append("</td><td>");
    push_violations(s, &r.violations);
    s.append("</td></tr>\n");
}

fn count_outcomes(reports: &[SessionReport]) -> (r: (usize, bool))
    ensures
        r.0 == passed_count(reports@, reports@.len()),
        r.0 <= reports@.len(),
        r.1 == exists|k: int| 0 <= k < reports@.len() && report_critical(#[trigger] reports@[k]),
{
    let total = reports.len();
    let mut passed: usize = 0;
    let mut has_critical = false;
    let mut i: usize = 0;
    while i < total
        invariant
            total == reports@.len(),
            i <= total,
            passed == passed_count(reports@, i as nat),
            passed <= i,
            has_critical == exists|k: int| 0 <= k < i && report_critical(#[trigger] reports@[k]),
        decreases total - i,
    {
        if reports[i].all_passed() {
            passed += 1;
        }
        match reports[i].max_severity() {
            Some(Severity::Critical) => {
                has_critical = true;
            },
            _ => {},
        }
        i += 1;
    }
    (passed, has_critical)
}

fn push_head(sink: &mut String)
    ensures
        final(sink)@ == old(sink)@ + page_head(),
{
    sink.append("<!DOCTYPE html>\n");
    sink.append("<html lang=\"en\"><head><meta charset=\"utf-8\">\n");
    sink.append("<title>SemantxTrace Oracle Report</title>\n");
    sink.append(
        "<style>body{font-family:sans-serif;margin:2em} table{border-collapse:collapse;width:100%} td,th{border:1px solid #ccc;padding:.4em .8em} .pass{color:green} .fail{color:red} .crit{color:darkred;font-weight:bold}</style>\n",
    );
    sink.append("</head><body>\n");
    sink.append("<h1>Oracle Report</h1>\n");
}

fn push_summary(sink: &mut String, reports: &[SessionReport])
    ensures
        final(sink)@ == old(sink)@ + summary_text(reports@),
{
    let total = reports.len();
    let (passed, has_critical) = count_outcomes(reports);
    sink.append("<p>Sessions: ");
    push_nat(sink, total as u64);
    sink.append(" &nbsp;|&nbsp; Passed: ");
    push_nat(sink, passed as u64);
    sink.append(" &nbsp;|&nbsp; Failed: ");
    push_nat(sink, (total - passed) as u64);
    if has_critical {
        sink.append(" &nbsp;| <strong class=\"crit\">CRITICAL</strong>");
    }
    sink.append("</p>\n");
}

fn push_rows(sink: &mut String, reports: &[SessionReport])
    ensures
        final(sink)@ == old(sink)@ + report_rows(reports@, reports@.len()),
{
    let total = reports.len();
    let ghost before_rows = sink@;
    let mut k: usize = 0;
    while k < total
        invariant
            total == reports@.len(),
            k <= total,
            sink@ == before_rows + report_rows(reports@, k as nat),
        decreases total - k,
    {
        let report = &reports[k];
        let sid = report.session_id.to_string();
        let ghost row_start = sink@;
        let mut j: usize = 0;
        while j < report.results.len()
            invariant
                j <= report.results@.len(),
                sid@ == uuid_text(report.session_id.0),
                sink@ == row_start + result_rows(sid@, report.results@, j as nat),
            decreases report.results@.len() - j,
        {
            push_row(sink, sid.as_str(), &report.results[j]);
            j += 1;
        }
        k += 1;
    }
}

/// Render `reports` as an HTML page, appending it to `sink`.
pub fn write_html(reports: &[SessionReport], sink: &mut String)
    ensures
        final(sink)@ == old(sink)@ + html_text(reports@),
{
    push_head(sink);
    push_summary(sink, reports);
    sink.append(
        "<table><thead><tr><th>Session</th><th>Rule</th><th>Result</th><th>Violations</th></tr></thead><tbody>\n",
    );
    push_rows(sink, reports);
    sink.append("</tbody></table></body></html>\n");
}

/// Renders session reports as an HTML page.
#[derive(Clone, Copy, Debug, Default)]
pub struct HtmlReporter;

impl HtmlReporter {
    /// Append the HTML page for `reports` to `sink`.
    pub fn write(reports: &[SessionReport], sink: &mut String)
        ensures
            final(sink)@ == old(sink)@ + html_text(reports@),
    {
        write_html(reports, sink);
    }
}

/// Short label of a severity.
pub fn format_severity(s: Severity) -> (r: &'static str)
    ensures
        r@ == severity_label(s),
{
    match s {
        Severity::Warning => "WARN",
        Severity::Error => "ERR",
        Severity::Critical => "CRIT",
    }
}

} // verus!
