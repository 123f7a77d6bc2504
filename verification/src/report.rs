//! The text report of an audit, and the exit status that an audit gives.
use crate::audit::{AuditResult, Finding, FindingView, Severity, Source, severity_of_ascii};
use crate::order::views;
use crate::text::{ascii_lower, decimal, decimal_string};
use vstd::prelude::*;

verus! {

/// The label of a severity in the text report.
pub open spec fn severity_label_text(s: Severity) -> Seq<char> {
    match s {
        Severity::Critical => "CRITICAL"@,
        Severity::High => "HIGH"@,
        Severity::Medium => "MEDIUM"@,
        Severity::Low => "LOW"@,
        Severity::Unknown => "UNKNOWN"@,
    }
}

/// A source as `name:remote_id`.
pub open spec fn source_text(src: (Seq<char>, Seq<char>)) -> Seq<char> {
    src.0 + ":"@ + src.1
}

/// The sources, joined by `, `.
pub open spec fn sources_text(srcs: Seq<(Seq<char>, Seq<char>)>) -> Seq<char>
    decreases srcs.len(),
{
    if srcs.len() == 0 {
        Seq::empty()
    } else if srcs.len() == 1 {
        source_text(srcs[0])
    } else {
        sources_text(srcs.drop_last()) + ", "@ + source_text(srcs.last())
    }
}

/// `label`, `text` and a line end, when there is a text.
pub open spec fn optional_line(label: Seq<char>, text: Option<Seq<char>>) -> Seq<char> {
    match text {
        Some(t) => label + t + "\n"@,
        None => Seq::empty(),
    }
}

/// The line of the sources, when there is one.
pub open spec fn sources_line(srcs: Seq<(Seq<char>, Seq<char>)>) -> Seq<char> {
    if srcs.len() > 0 {
        "  - Sources: "@ + sources_text(srcs) + "\n"@
    } else {
        Seq::empty()
    }
}

/// The first lines of a finding: label, package and version, advisory id.
pub open spec fn finding_head(f: FindingView) -> Seq<char> {
    "["@ + severity_label_text(f.severity) + "] "@ + f.package + " "@ + f.version + "\n"@
        + "  - Advisory: "@ + f.advisory_id + "\n"@
}

/// The title and affected range lines of a finding.
pub open spec fn finding_body(f: FindingView) -> Seq<char> {
    "  - "@ + f.title + "\n"@ + "  - Affected: "@ + f.affected_versions + "\n"@
}

/// The block of lines of one finding.
pub open spec fn finding_text(f: FindingView) -> Seq<char> {
    finding_head(f) + optional_line("  - CVE: "@, f.cve) + finding_body(f) + optional_line(
        "  - Link: "@,
        f.link,
    ) + sources_line(f.sources)
}

/// The blocks of all findings, each followed by an empty line.
pub open spec fn findings_text(fs: Seq<FindingView>) -> Seq<char>
    decreases fs.len(),
{
    if fs.len() == 0 {
        Seq::empty()
    } else {
        findings_text(fs.drop_last()) + finding_text(fs.last()) + "\n"@
    }
}

/// The text report: the findings, or a line that there are none and an
/// empty line, then the summary.
pub open spec fn report_text(r: AuditResult) -> Seq<char> {
    (if r.findings@.len() == 0 {
        "No known vulnerabilities found.\n"@ + "\n"@
    } else {
        "Found "@ + decimal(r.vulnerable_packages as nat) + " packages with known vulnerabilities.\n"@
            + "\n"@ + findings_text(views(r.findings@))
    }) + "Summary:\n"@ + "  - Total packages: "@ + decimal(r.total_packages as nat) + "\n"@
        + "  - Vulnerable packages: "@ + decimal(r.vulnerable_packages as nat) + "\n"@
        + "  - Critical: "@ + decimal(r.summary.critical as nat) + "\n"@ + "  - High: "@ + decimal(
        r.summary.high as nat,
    ) + "\n"@ + "  - Medium: "@ + decimal(r.summary.medium as nat) + "\n"@ + "  - Low: "@
        + decimal(r.summary.low as nat) + "\n"@ + "  - Unknown: "@ + decimal(r.summary.unknown as nat)
        + "\n"@
}

/// The label of a severity in the text report.
fn severity_label(s: &Severity) -> (r: &'static str)
    ensures
        r@ == severity_label_text(*s),
{
    match s {
        Severity::Critical => "CRITICAL",
        Severity::High => "HIGH",
        Severity::Medium => "MEDIUM",
        Severity::Low => "LOW",
        Severity::Unknown => "UNKNOWN",
    }
}

/// Appends `label`, the decimal `n` and a line end.
fn push_count_line(out: &mut String, label: &str, n: usize)
    ensures
        final(out)@ == old(out)@ + label@ + decimal(n as nat) + "\n"@,
{
    out.append(label);
    let d = decimal_string(n);
    out.append(d.as_str());
    out.append("\n");
}

fn push_optional_line(out: &mut String, label: &str, text: &Option<String>)
    ensures
        final(out)@ == old(out)@ + optional_line(label@, text.deep_view()),
{
    if let Some(t) = text {
        out.append(label);
        out.append(t.as_str());
        out.append("\n");
    }
}

fn push_head(out: &mut String, finding: &Finding)
    ensures
        final(out)@ == old(out)@ + finding_head(finding@),
{
    out.append("[");
    out.append(severity_label(&finding.severity));
    out.append("] ");
    out.append(finding.package.as_str());
    out.append(" ");
    out.append(finding.version.as_str());
    out.append("\n");
    out.append("  - Advisory: ");
    out.append(finding.advisory_id.as_str());
    out.append("\n");
}

fn push_body(out: &mut String, finding: &Finding)
    ensures
        final(out)@ == old(out)@ + finding_body(finding@),
{
    out.append("  - ");
    out.append(finding.title.as_str());
    out.append("\n");
    out.append("  - Affected: ");
    out.append(finding.affected_versions.as_str());
    out.append("\n");
}

fn push_sources(out: &mut String, sources: &Vec<Source>)
    ensures
        final(out)@ == old(out)@ + sources_line(sources@.map_values(|s: Source| (s.name@, s.remote_id@))),
{
    let ghost srcs = sources@.map_values(|s: Source| (s.name@, s.remote_id@));
    let ghost start = out@;
    if sources.len() > 0 {
        out.append("  - Sources: ");
        for k in 0..sources.len()
            invariant
                srcs == sources@.map_values(|s: Source| (s.name@, s.remote_id@)),
                srcs.len() == sources@.len(),
                k > 0 ==> out@ == start + "  - Sources: "@ + sources_text(srcs.take(k as int)),
                k == 0 ==> out@ == start + "  - Sources: "@,
        {
            assert(srcs[k as int] == (sources@[k as int].name@, sources@[k as int].remote_id@));
            assert(srcs.take(k + 1).drop_last() =~= srcs.take(k as int));
            if k > 0 {
                out.append(", ");
            }
            out.append(sources[k].name.as_str());
            out.append(":");
            out.append(sources[k].remote_id.as_str());
            assert(out@ =~= start + "  - Sources: "@ + sources_text(srcs.take(k + 1)));
        }
        assert(srcs.take(srcs.len() as int) =~= srcs);
        out.append("\n");
    }
    assert(out@ =~= start + sources_line(srcs));
}

/// Appends the block of lines of `finding`.
fn render_finding_text(finding: &Finding, out: &mut String)
    ensures
        final(out)@ == old(out)@ + finding_text(finding@),
{
    let ghost start = out@;
    push_head(out, finding);
    push_optional_line(out, "  - CVE: ", &finding.cve);
    push_body(out, finding);
    push_optional_line(out, "  - Link: ", &finding.link);
    push_sources(out, &finding.sources);
    assert(out@ =~= start + finding_text(finding@));
}

/// The text report of `result`: a line on the number of vulnerable
/// packages and a block per finding, or a line that none was found, then
/// the summary counts.
pub fn render_text(result: &AuditResult) -> (r: String)
    ensures
        r@ == report_text(*result),
{
    let mut out = String::new();
    if result.findings.len() == 0 {
        out.append("No known vulnerabilities found.\n");
        out.append("\n");
    } else {
        out.append("Found ");
        let d = decimal_string(result.vulnerable_packages);
        out.append(d.as_str());
        out.append(" packages with known vulnerabilities.\n");
        out.append("\n");
        let ghost head = out@;
        let ghost fs = views(result.findings@);
        for i in 0..result.findings.len()
            invariant
                fs == views(result.findings@),
                out@ == head + findings_text(fs.take(i as int)),
        {
            assert(fs.take(i + 1).drop_last() =~= fs.take(i as int));
            assert(fs[i as int] == result.findings@[i as int]@);
            render_finding_text(&result.findings[i], &mut out);
            out.append("\n");
        }
        assert(fs.take(fs.len() as int) =~= fs);
    }
    let ghost top = out@;
    out.append("Summary:\n");
    push_count_line(&mut out, "  - Total packages: ", result.total_packages);
    push_count_line(&mut out, "  - Vulnerable packages: ", result.vulnerable_packages);
    push_count_line(&mut out, "  - Critical: ", result.summary.critical);
    push_count_line(&mut out, "  - High: ", result.summary.high);
    push_count_line(&mut out, "  - Medium: ", result.summary.medium);
    push_count_line(&mut out, "  - Low: ", result.summary.low);
    push_count_line(&mut out, "  - Unknown: ", result.summary.unknown);
    assert(out@ =~= report_text(*result));
    out
}

/// The exit status of a completed audit: 0 when nothing is reported, 1 when
/// a finding is.
pub fn exit_status(result: &AuditResult) -> (r: u8)
    ensures
        r == (if result.findings@.len() == 0 { 0u8 } else { 1u8 }),
{
    if result.findings.len() == 0 {
        0
    } else {
        1
    }
}

/// Law: a report with findings opens with the number of vulnerable
/// packages, the distinct packages among the findings, not the number of
/// findings: its first line is `Found <vulnerable_packages> packages with
/// known vulnerabilities.`, the number that the `Vulnerable packages`
/// summary line gives too.
pub proof fn law_headline_counts_vulnerable_packages(r: AuditResult)
    requires
        r.findings@.len() > 0,
    ensures
        ({
            let head = "Found "@ + decimal(r.vulnerable_packages as nat) + " packages with known vulnerabilities.\n"@;
            report_text(r).len() >= head.len() && report_text(r).subrange(0, head.len() as int) == head
        }),
{
    let head = "Found "@ + decimal(r.vulnerable_packages as nat) + " packages with known vulnerabilities.\n"@;
    let t = report_text(r);
    assert(t.subrange(0, head.len() as int) =~= head);
}

/// Law: the label of a known severity, read back in lowercase, names that
/// same severity; the label of an unknown one is `UNKNOWN`.
pub proof fn law_labels_name_their_severity(sev: Severity)
    ensures
        sev != Severity::Unknown ==> severity_of_ascii(severity_label_text(sev).map_values(|c: char| ascii_lower(c))) == sev,
        sev == Severity::Unknown ==> severity_label_text(sev).map_values(|c: char| ascii_lower(c)) == "unknown"@,
{
    reveal_strlit("CRITICAL");
    reveal_strlit("HIGH");
    reveal_strlit("MEDIUM");
    reveal_strlit("LOW");
    reveal_strlit("UNKNOWN");
    reveal_strlit("critical");
    reveal_strlit("high");
    reveal_strlit("medium");
    reveal_strlit("low");
    reveal_strlit("unknown");
    let lower = severity_label_text(sev).map_values(|c: char| ascii_lower(c));
    match sev {
        Severity::Critical => {
            assert(lower =~= "critical"@);
        },
        Severity::High => {
            assert(lower =~= "high"@);
        },
        Severity::Medium => {
            assert(lower =~= "medium"@);
        },
        Severity::Low => {
            assert(lower =~= "low"@);
        },
        Severity::Unknown => {
            assert(lower =~= "unknown"@);
        },
    }
}

} // verus!
