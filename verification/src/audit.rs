//! Matching installed packages against advisories, filtering and counting.
use crate::cli::SeverityArg;
use crate::lock::LockedPackage;
use crate::order::{
    SortOrder, lemma_filter_add, lemma_stable_sorted_filter, ranks_alike, sort_stable, stable_sorted,
    views,
};
use crate::packagist::{AdvisoryResponse, WireAdvisory, WireSource};
use crate::semver::{
    AffectedRange, InstalledVersion, composer_constraint_admits, composer_constraint_valid,
    composer_version_valid,
};
use crate::overflow::{range_supported, range_text_supported};
use crate::text::{
    ascii_lower, is_ascii_char, lex_lt, lemma_lex_irreflexive, lemma_lex_total, lemma_lex_transitive,
    lowercase, str_before, str_eq, str_to_lowercase,
};
use vstd::prelude::*;

verus! {

/// Severity of an advisory. The variants are in increasing order.
#[derive(Debug, Clone, Copy, PartialEq, Eq, PartialOrd, Ord, Structural)]
pub enum Severity {
    Unknown,
    Low,
    Medium,
    High,
    Critical,
}

/// A source of an advisory.
#[derive(Debug, Clone)]
pub struct Source {
    pub name: String,
    pub remote_id: String,
}

/// One advisory that affects one installed package.
#[derive(Debug, Clone)]
pub struct Finding {
    pub package: String,
    pub version: String,
    pub advisory_id: String,
    pub severity: Severity,
    pub cve: Option<String>,
    pub title: String,
    pub affected_versions: String,
    pub link: Option<String>,
    pub sources: Vec<Source>,
}

/// Number of reported findings of each severity.
#[derive(Debug, Clone)]
pub struct Summary {
    pub critical: usize,
    pub high: usize,
    pub medium: usize,
    pub low: usize,
    pub unknown: usize,
}

/// The outcome of an audit.
#[derive(Debug, Clone)]
pub struct AuditResult {
    pub total_packages: usize,
    pub vulnerable_packages: usize,
    pub findings: Vec<Finding>,
    pub summary: Summary,
    /// Packages for which the response held no advisory data.
    pub coverage_unknown: Vec<String>,
}

/// A finding, with its text as character sequences.
pub struct FindingView {
    pub package: Seq<char>,
    pub version: Seq<char>,
    pub advisory_id: Seq<char>,
    pub severity: Severity,
    pub cve: Option<Seq<char>>,
    pub title: Seq<char>,
    pub affected_versions: Seq<char>,
    pub link: Option<Seq<char>>,
    /// Name and remote id of each source.
    pub sources: Seq<(Seq<char>, Seq<char>)>,
}

impl View for Finding {
    type V = FindingView;

    open spec fn view(&self) -> FindingView {
        FindingView {
            package: self.package@,
            version: self.version@,
            advisory_id: self.advisory_id@,
            severity: self.severity,
            cve: self.cve.deep_view(),
            title: self.title@,
            affected_versions: self.affected_versions@,
            link: self.link.deep_view(),
            sources: self.sources@.map_values(|s: Source| (s.name@, s.remote_id@)),
        }
    }
}

/// The rank by which a severity is compared with a threshold: unknown counts as low.
pub open spec fn severity_level(s: Severity) -> int {
    match s {
        Severity::Critical => 4,
        Severity::High => 3,
        Severity::Medium => 2,
        Severity::Low => 1,
        Severity::Unknown => 1,
    }
}

/// The rank of a threshold.
pub open spec fn threshold_level(t: SeverityArg) -> int {
    match t {
        SeverityArg::Low => 1,
        SeverityArg::Medium => 2,
        SeverityArg::High => 3,
        SeverityArg::Critical => 4,
    }
}

/// The position of a severity in the order of the variants, unknown lowest.
pub open spec fn severity_order(s: Severity) -> int {
    match s {
        Severity::Unknown => 0,
        Severity::Low => 1,
        Severity::Medium => 2,
        Severity::High => 3,
        Severity::Critical => 4,
    }
}

/// The severity that an advisory's severity field stands for: its
/// lowercase form names a level, or it is unknown.
pub open spec fn severity_of_text(raw: Option<Seq<char>>) -> Severity {
    match raw {
        None => Severity::Unknown,
        Some(s) => severity_of_ascii(lowercase(s)),
    }
}

/// The severity that a lowercase severity text names, or unknown.
pub open spec fn severity_of_ascii(l: Seq<char>) -> Severity {
    if l == "low"@ {
        Severity::Low
    } else if l == "medium"@ {
        Severity::Medium
    } else if l == "high"@ {
        Severity::High
    } else if l == "critical"@ {
        Severity::Critical
    } else {
        Severity::Unknown
    }
}

/// Maps the severity field of an advisory to a [`Severity`], ignoring case;
/// an absent or unrecognized value is unknown.
pub fn normalize_severity(raw: Option<&str>) -> (r: Severity)
    ensures
        r == severity_of_text(
            match raw {
                Some(s) => Some(s@),
                None => None,
            },
        ),
        match raw {
            Some(s) => (forall|i: int| 0 <= i < s@.len() ==> is_ascii_char(#[trigger] s@[i])) ==> r
                == severity_of_ascii(s@.map_values(|c: char| ascii_lower(c))),
            None => true,
        },
{
    match raw {
        Some(s) => {
            let lower = str_to_lowercase(s);
            if str_eq(lower.as_str(), "low") {
                Severity::Low
            } else if str_eq(lower.as_str(), "medium") {
                Severity::Medium
            } else if str_eq(lower.as_str(), "high") {
                Severity::High
            } else if str_eq(lower.as_str(), "critical") {
                Severity::Critical
            } else {
                Severity::Unknown
            }
        },
        None => Severity::Unknown,
    }
}

/// Whether a finding of severity `finding` is reported at `threshold`.
pub fn meets_threshold(finding: &Severity, threshold: SeverityArg) -> (r: bool)
    ensures
        r == (severity_level(*finding) >= threshold_level(threshold)),
{
    let finding_level: u8 = match finding {
        Severity::Critical => 4,
        Severity::High => 3,
        Severity::Medium => 2,
        Severity::Low => 1,
        Severity::Unknown => 1,
    };
    let threshold_level: u8 = match threshold {
        SeverityArg::Low => 1,
        SeverityArg::Medium => 2,
        SeverityArg::High => 3,
        SeverityArg::Critical => 4,
    };
    finding_level >= threshold_level
}


/// Findings come in decreasing severity, then by package name, installed
/// version and advisory id.
pub open spec fn finding_before(a: FindingView, b: FindingView) -> bool {
    ||| severity_order(a.severity) > severity_order(b.severity)
    ||| severity_order(a.severity) == severity_order(b.severity) && lex_lt(a.package, b.package)
    ||| severity_order(a.severity) == severity_order(b.severity) && a.package == b.package
        && lex_lt(a.version, b.version)
    ||| severity_order(a.severity) == severity_order(b.severity) && a.package == b.package
        && a.version == b.version && lex_lt(a.advisory_id, b.advisory_id)
}

fn severity_position(s: Severity) -> (r: u8)
    ensures
        r as int == severity_order(s),
{
    match s {
        Severity::Unknown => 0,
        Severity::Low => 1,
        Severity::Medium => 2,
        Severity::High => 3,
        Severity::Critical => 4,
    }
}

impl SortOrder for Finding {
    open spec fn before(a: FindingView, b: FindingView) -> bool {
        finding_before(a, b)
    }

    proof fn lemma_before_asymmetric(a: FindingView, b: FindingView) {
        lemma_lex_total(a.package, b.package);
        lemma_lex_total(a.version, b.version);
        lemma_lex_total(a.advisory_id, b.advisory_id);
        lemma_lex_irreflexive(a.package);
        lemma_lex_irreflexive(a.version);
    }

    proof fn lemma_before_transitive(a: FindingView, b: FindingView, c: FindingView) {
        lemma_lex_irreflexive(a.package);
        lemma_lex_irreflexive(a.version);
        if lex_lt(a.package, b.package) && lex_lt(b.package, c.package) {
            lemma_lex_transitive(a.package, b.package, c.package);
        }
        if lex_lt(a.version, b.version) && lex_lt(b.version, c.version) {
            lemma_lex_transitive(a.version, b.version, c.version);
        }
        if lex_lt(a.advisory_id, b.advisory_id) && lex_lt(b.advisory_id, c.advisory_id) {
            lemma_lex_transitive(a.advisory_id, b.advisory_id, c.advisory_id);
        }
    }

    fn precedes(&self, other: &Self) -> (r: bool) {
        let a = severity_position(self.severity);
        let b = severity_position(other.severity);
        if a != b {
            return a > b;
        }
        if str_before(self.package.as_str(), other.package.as_str()) {
            return true;
        }
        if !str_eq(self.package.as_str(), other.package.as_str()) {
            return false;
        }
        if str_before(self.version.as_str(), other.version.as_str()) {
            return true;
        }
        if !str_eq(self.version.as_str(), other.version.as_str()) {
            return false;
        }
        str_before(self.advisory_id.as_str(), other.advisory_id.as_str())
    }
}

/// Whether the installed version of `pkg` lies in the affected range of
/// `adv`; an unparsable version or range affects nothing.
pub open spec fn advisory_affects(pkg: LockedPackage, adv: WireAdvisory) -> bool {
    &&& composer_version_valid(pkg.version@)
    &&& composer_constraint_valid(adv.affected_versions@)
    &&& composer_constraint_admits(adv.affected_versions@, pkg.version@)
}

/// Name and remote id of each source of an advisory; none when absent.
pub open spec fn source_views(sources: Option<Vec<WireSource>>) -> Seq<(Seq<char>, Seq<char>)> {
    match sources {
        Some(v) => v@.map_values(|s: WireSource| (s.name@, s.remote_id@)),
        None => Seq::empty(),
    }
}

/// The finding that `adv` makes about `pkg`.
pub open spec fn finding_of(pkg: LockedPackage, adv: WireAdvisory) -> FindingView {
    FindingView {
        package: pkg.name@,
        version: pkg.version@,
        advisory_id: adv.advisory_id@,
        severity: severity_of_text(adv.severity.deep_view()),
        cve: adv.cve.deep_view(),
        title: adv.title@,
        affected_versions: adv.affected_versions@,
        link: adv.link.deep_view(),
        sources: source_views(adv.sources),
    }
}

/// The reported findings that the advisories `advs` make about `pkg`, in order.
pub open spec fn package_findings(pkg: LockedPackage, advs: Seq<WireAdvisory>, min: SeverityArg) -> Seq<FindingView>
    decreases advs.len(),
{
    if advs.len() == 0 {
        Seq::empty()
    } else {
        let adv = advs.last();
        let rest = package_findings(pkg, advs.drop_last(), min);
        if advisory_affects(pkg, adv) && severity_level(finding_of(pkg, adv).severity) >= threshold_level(min) {
            rest.push(finding_of(pkg, adv))
        } else {
            rest
        }
    }
}

/// The reported findings about `pkgs`, package by package, before sorting.
pub open spec fn audit_findings(
    pkgs: Seq<LockedPackage>,
    response: Map<Seq<char>, Seq<WireAdvisory>>,
    min: SeverityArg,
) -> Seq<FindingView>
    decreases pkgs.len(),
{
    if pkgs.len() == 0 {
        Seq::empty()
    } else {
        let pkg = pkgs.last();
        let rest = audit_findings(pkgs.drop_last(), response, min);
        if response.contains_key(pkg.name@) {
            rest + package_findings(pkg, response[pkg.name@], min)
        } else {
            rest
        }
    }
}

/// The names of the packages of `pkgs` that the response does not cover, in order.
pub open spec fn uncovered(pkgs: Seq<LockedPackage>, response: Map<Seq<char>, Seq<WireAdvisory>>) -> Seq<Seq<char>>
    decreases pkgs.len(),
{
    if pkgs.len() == 0 {
        Seq::empty()
    } else {
        let rest = uncovered(pkgs.drop_last(), response);
        if response.contains_key(pkgs.last().name@) {
            rest
        } else {
            rest.push(pkgs.last().name@)
        }
    }
}

/// The number of different packages among the findings.
pub open spec fn distinct_packages(fs: Seq<FindingView>) -> nat {
    fs.map_values(|f: FindingView| f.package).to_set().len()
}

/// The number of findings of severity `sev`.
pub open spec fn severity_count(fs: Seq<FindingView>, sev: Severity) -> nat
    decreases fs.len(),
{
    if fs.len() == 0 {
        0
    } else {
        severity_count(fs.drop_last(), sev) + if fs.last().severity == sev {
            1nat
        } else {
            0nat
        }
    }
}

/// The text views of a list of strings.
pub open spec fn string_views(s: Seq<String>) -> Seq<Seq<char>> {
    s.map_values(|x: String| x@)
}

fn clone_text(o: &Option<String>) -> (r: Option<String>)
    ensures
        r.deep_view() == o.deep_view(),
{
    match o {
        Some(s) => Some(s.clone()),
        None => None,
    }
}

fn convert_sources(sources: &Option<Vec<WireSource>>) -> (r: Vec<Source>)
    ensures
        r@.map_values(|s: Source| (s.name@, s.remote_id@)) == source_views(*sources),
{
    let mut out: Vec<Source> = Vec::new();
    match sources {
        Some(ws) => {
            for k in 0..ws.len()
                invariant
                    out@.len() == k,
                    out@.map_values(|s: Source| (s.name@, s.remote_id@))
                        == ws@.take(k as int).map_values(|s: WireSource| (s.name@, s.remote_id@)),
            {
                let ghost prev = out@;
                let src = Source { name: ws[k].name.clone(), remote_id: ws[k].remote_id.clone() };
                out.push(src);
                assert(out@ =~= prev.push(src));
                assert(ws@.take(k + 1) =~= ws@.take(k as int).push(ws@[k as int]));
                assert(out@.map_values(|s: Source| (s.name@, s.remote_id@)) =~= prev.map_values(
                    |s: Source| (s.name@, s.remote_id@),
                ).push((ws@[k as int].name@, ws@[k as int].remote_id@)));
            }
            assert(ws@.take(ws@.len() as int) =~= ws@);
        },
        None => {
            assert(out@.map_values(|s: Source| (s.name@, s.remote_id@)) =~= Seq::empty());
        },
    }
    out
}

/// The finding that `advisory` makes about `pkg`, if the installed version
/// lies in its affected range.
fn evaluate_advisory(pkg: &LockedPackage, advisory: &WireAdvisory) -> (r: Option<Finding>)
    requires
        range_text_supported(advisory.affected_versions@),
    ensures
        r is Some <==> advisory_affects(*pkg, *advisory),
        r matches Some(f) ==> f@ == finding_of(*pkg, *advisory),
{
    let version = match InstalledVersion::parse(pkg.version.as_str()) {
        Some(v) => v,
        None => return None,
    };
    let constraint = match AffectedRange::parse(advisory.affected_versions.as_str()) {
        Some(c) => c,
        None => return None,
    };
    if !constraint.admits(&version) {
        return None;
    }
    let sources = convert_sources(&advisory.sources);
    let severity = match &advisory.severity {
        Some(s) => normalize_severity(Some(s.as_str())),
        None => normalize_severity(None),
    };
    Some(
        Finding {
            package: pkg.name.clone(),
            version: pkg.version.clone(),
            advisory_id: advisory.advisory_id.clone(),
            severity,
            cve: clone_text(&advisory.cve),
            title: advisory.title.clone(),
            affected_versions: advisory.affected_versions.clone(),
            link: clone_text(&advisory.link),
            sources,
        },
    )
}


/// Sorts the findings stably by decreasing severity, then package name,
/// installed version and advisory id.
fn sort_findings(findings: &mut Vec<Finding>)
    ensures
        views(final(findings)@) == stable_sorted::<Finding>(views(old(findings)@)),
{
    let mut taken: Vec<Finding> = Vec::new();
    std::mem::swap(&mut taken, findings);
    *findings = sort_stable(taken);
}

/// Counts the findings of each severity.
fn build_summary(findings: &Vec<Finding>) -> (r: Summary)
    ensures
        r.critical == severity_count(views(findings@), Severity::Critical),
        r.high == severity_count(views(findings@), Severity::High),
        r.medium == severity_count(views(findings@), Severity::Medium),
        r.low == severity_count(views(findings@), Severity::Low),
        r.unknown == severity_count(views(findings@), Severity::Unknown),
{
    let ghost fs = views(findings@);
    let mut summary = Summary { critical: 0, high: 0, medium: 0, low: 0, unknown: 0 };
    for i in 0..findings.len()
        invariant
            fs == views(findings@),
            summary.critical == severity_count(fs.take(i as int), Severity::Critical),
            summary.high == severity_count(fs.take(i as int), Severity::High),
            summary.medium == severity_count(fs.take(i as int), Severity::Medium),
            summary.low == severity_count(fs.take(i as int), Severity::Low),
            summary.unknown == severity_count(fs.take(i as int), Severity::Unknown),
            summary.critical + summary.high + summary.medium + summary.low + summary.unknown == i,
    {
        assert(fs.take(i + 1).drop_last() =~= fs.take(i as int));
        assert(fs[i as int] == findings@[i as int]@);
        match findings[i].severity {
            Severity::Critical => summary.critical = summary.critical + 1,
            Severity::High => summary.high = summary.high + 1,
            Severity::Medium => summary.medium = summary.medium + 1,
            Severity::Low => summary.low = summary.low + 1,
            Severity::Unknown => summary.unknown = summary.unknown + 1,
        }
    }
    assert(fs.take(findings.len() as int) =~= fs);
    summary
}

/// The package names of a list of findings.
pub open spec fn finding_packages(fs: Seq<FindingView>) -> Seq<Seq<char>> {
    fs.map_values(|f: FindingView| f.package)
}

/// Counts the different packages among the findings.
fn count_vulnerable(findings: &Vec<Finding>) -> (r: usize)
    ensures
        r == distinct_packages(views(findings@)),
{
    let ghost pkgs = finding_packages(views(findings@));
    let mut seen: Vec<String> = Vec::new();
    for i in 0..findings.len()
        invariant
            pkgs == finding_packages(views(findings@)),
            seen@.len() <= i,
            string_views(seen@).no_duplicates(),
            string_views(seen@).to_set() == pkgs.take(i as int).to_set(),
    {
        let name = &findings[i].package;
        assert(pkgs[i as int] == name@);
        let mut found = false;
        let mut j: usize = 0;
        while j < seen.len()
            invariant
                j <= seen@.len(),
                found ==> string_views(seen@).contains(name@),
                !found ==> forall|m: int| 0 <= m < j ==> #[trigger] string_views(seen@)[m] != name@,
            decreases seen.len() - j,
        {
            if str_eq(seen[j].as_str(), name.as_str()) {
                found = true;
                assert(string_views(seen@)[j as int] == name@);
            }
            j = j + 1;
        }
        let ghost sv = string_views(seen@);
        assert(pkgs.take(i + 1) =~= pkgs.take(i as int).push(name@));
        proof {
            pkgs.take(i as int).lemma_push_to_set_commute(name@);
            sv.lemma_push_to_set_commute(name@);
        }
        if !found {
            seen.push(name.clone());
            assert(string_views(seen@) =~= sv.push(name@));
            assert(!sv.contains(name@));
        } else {
            assert(sv.to_set().contains(name@));
            assert(sv.to_set().insert(name@) =~= sv.to_set());
        }
        assert(string_views(seen@).to_set() =~= pkgs.take(i + 1).to_set());
    }
    assert(pkgs.take(findings.len() as int) =~= pkgs);
    proof {
        string_views(seen@).unique_seq_to_set();
    }
    seen.len()
}

/// Every affected range that auditing `pkgs` against `m` reads, those of
/// the advisories of the packages of `pkgs`, is one that the constraint
/// parser reads without overflow.
pub open spec fn lock_ranges_supported(pkgs: Seq<LockedPackage>, m: Map<Seq<char>, Seq<WireAdvisory>>) -> bool {
    forall|i: int, j: int|
        #![trigger m[pkgs[i].name@][j]]
        0 <= i < pkgs.len() && m.contains_key(pkgs[i].name@) && 0 <= j < m[pkgs[i].name@].len()
            ==> range_text_supported(m[pkgs[i].name@][j].affected_versions@)
}

/// Whether [`lock_ranges_supported`] holds of `packages` and `response`.
pub fn lock_ranges_within_limits(packages: &[LockedPackage], response: &AdvisoryResponse) -> (r: bool)
    requires
        response.wf(),
    ensures
        r == lock_ranges_supported(packages@, response@),
{
    let ghost m = response@;
    for i in 0..packages.len()
        invariant
            response.wf(),
            m == response@,
            forall|a: int, j: int|
                #![trigger m[packages@[a].name@][j]]
                0 <= a < i && m.contains_key(packages@[a].name@) && 0 <= j < m[packages@[a].name@].len()
                    ==> range_text_supported(m[packages@[a].name@][j].affected_versions@),
    {
        let pkg = &packages[i];
        match response.get(pkg.name.as_str()) {
            Some(advisories) => {
                for j in 0..advisories.len()
                    invariant
                        m == response@,
                        i < packages@.len(),
                        packages@[i as int] == *pkg,
                        m.contains_key(pkg.name@),
                        advisories@ == m[pkg.name@],
                        forall|a: int, k: int|
                            #![trigger m[packages@[a].name@][k]]
                            0 <= a < i && m.contains_key(packages@[a].name@) && 0 <= k < m[packages@[a].name@].len()
                                ==> range_text_supported(m[packages@[a].name@][k].affected_versions@),
                        forall|k: int| 0 <= k < j ==> range_text_supported(#[trigger] m[pkg.name@][k].affected_versions@),
                {
                    if !range_supported(advisories[j].affected_versions.as_str()) {
                        assert(m[packages@[i as int].name@][j as int] == advisories@[j as int]);
                        return false;
                    }
                }
                assert forall|a: int, k: int|
                    #![trigger m[packages@[a].name@][k]]
                    0 <= a < i + 1 && m.contains_key(packages@[a].name@) && 0 <= k < m[packages@[a].name@].len()
                        implies range_text_supported(m[packages@[a].name@][k].affected_versions@) by {
                    if a == i {
                        assert(m[pkg.name@][k] == m[packages@[a].name@][k]);
                    }
                }
            },
            None => {},
        }
    }
    true
}

/// Audits the installed packages against the advisories of the response:
/// for each package that the response covers, each advisory whose affected
/// range holds the installed version and whose severity meets the threshold
/// is a finding. Findings are sorted stably by decreasing severity, package,
/// version and advisory id; packages that the response does not cover are
/// listed, in order. Every affected range is one that the constraint
/// parser reads without overflow.
pub fn audit(packages: &[LockedPackage], response: &AdvisoryResponse, min_severity: SeverityArg) -> (r: AuditResult)
    requires
        response.wf(),
        lock_ranges_supported(packages@, response@),
    ensures
        r.total_packages == packages@.len(),
        views(r.findings@) == stable_sorted::<Finding>(audit_findings(packages@, response@, min_severity)),
        string_views(r.coverage_unknown@) == uncovered(packages@, response@),
        r.vulnerable_packages == distinct_packages(views(r.findings@)),
        r.summary.critical == severity_count(views(r.findings@), Severity::Critical),
        r.summary.high == severity_count(views(r.findings@), Severity::High),
        r.summary.medium == severity_count(views(r.findings@), Severity::Medium),
        r.summary.low == severity_count(views(r.findings@), Severity::Low),
        r.summary.unknown == severity_count(views(r.findings@), Severity::Unknown),
{
    let mut findings: Vec<Finding> = Vec::new();
    let mut coverage_unknown: Vec<String> = Vec::new();
    for i in 0..packages.len()
        invariant
            response.wf(),
            lock_ranges_supported(packages@, response@),
            views(findings@) == audit_findings(packages@.take(i as int), response@, min_severity),
            string_views(coverage_unknown@) == uncovered(packages@.take(i as int), response@),
    {
        let pkg = &packages[i];
        let ghost prefix = packages@.take(i as int);
        assert(packages@.take(i + 1).drop_last() =~= prefix);
        assert(packages@.take(i + 1).last() == *pkg);
        match response.get(pkg.name.as_str()) {
            Some(advisories) => {
                let ghost base = views(findings@);
                assert(advisories@.take(0) =~= Seq::<WireAdvisory>::empty());
                assert(base + Seq::<FindingView>::empty() =~= base);
                for j in 0..advisories.len()
                    invariant
                        base == audit_findings(prefix, response@, min_severity),
                        lock_ranges_supported(packages@, response@),
                        i < packages@.len(),
                        packages@[i as int] == *pkg,
                        response@.contains_key(pkg.name@),
                        advisories@ == response@[pkg.name@],
                        views(findings@) == base + package_findings(*pkg, advisories@.take(j as int), min_severity),
                {
                    let adv = &advisories[j];
                    assert(response@[pkg.name@][j as int] == *adv);
                    assert(advisories@.take(j + 1).drop_last() =~= advisories@.take(j as int));
                    assert(advisories@.take(j + 1).last() == *adv);
                    let ghost before = views(findings@);
                    match evaluate_advisory(pkg, adv) {
                        Some(f) => {
                            if meets_threshold(&f.severity, min_severity) {
                                findings.push(f);
                                assert(views(findings@) =~= before.push(f@));
                            }
                        },
                        None => {},
                    }
                    assert(views(findings@) =~= base + package_findings(*pkg, advisories@.take(j + 1), min_severity));
                }
                assert(advisories@.take(advisories@.len() as int) =~= advisories@);
            },
            None => {
                let ghost before = string_views(coverage_unknown@);
                coverage_unknown.push(pkg.name.clone());
                assert(string_views(coverage_unknown@) =~= before.push(pkg.name@));
            },
        }
    }
    assert(packages@.take(packages@.len() as int) =~= packages@);
    let total_packages = packages.len();
    sort_findings(&mut findings);
    let vulnerable_packages = count_vulnerable(&findings);
    let summary = build_summary(&findings);
    AuditResult { total_packages, vulnerable_packages, findings, summary, coverage_unknown }
}


/// Why an advisory was skipped for a package: its installed version or its
/// affected range could not be parsed.
#[derive(Debug, Clone)]
pub enum ParseWarning {
    /// The installed version of the package is no Composer version.
    Version { package: String, version: String, advisory_id: String },
    /// The affected range of the advisory is no Composer constraint.
    Constraint { package: String, constraint: String, advisory_id: String },
}

/// A warning, with its text as character sequences: package, the text that
/// did not parse, advisory id.
pub enum WarningView {
    Version(Seq<char>, Seq<char>, Seq<char>),
    Constraint(Seq<char>, Seq<char>, Seq<char>),
}

impl View for ParseWarning {
    type V = WarningView;

    open spec fn view(&self) -> WarningView {
        match self {
            ParseWarning::Version { package, version, advisory_id } => WarningView::Version(
                package@,
                version@,
                advisory_id@,
            ),
            ParseWarning::Constraint { package, constraint, advisory_id } => WarningView::Constraint(
                package@,
                constraint@,
                advisory_id@,
            ),
        }
    }
}

/// The warning that checking `adv` against `pkg` gives: the version is
/// parsed first, then the range.
pub open spec fn advisory_warning(pkg: LockedPackage, adv: WireAdvisory) -> Option<WarningView> {
    if !composer_version_valid(pkg.version@) {
        Some(WarningView::Version(pkg.name@, pkg.version@, adv.advisory_id@))
    } else if !composer_constraint_valid(adv.affected_versions@) {
        Some(WarningView::Constraint(pkg.name@, adv.affected_versions@, adv.advisory_id@))
    } else {
        None
    }
}

/// The warnings of the advisories `advs` about `pkg`, in order.
pub open spec fn package_warnings(pkg: LockedPackage, advs: Seq<WireAdvisory>) -> Seq<WarningView>
    decreases advs.len(),
{
    if advs.len() == 0 {
        Seq::empty()
    } else {
        let rest = package_warnings(pkg, advs.drop_last());
        match advisory_warning(pkg, advs.last()) {
            Some(w) => rest.push(w),
            None => rest,
        }
    }
}

/// The warnings that auditing `pkgs` gives, package by package.
pub open spec fn audit_warnings(pkgs: Seq<LockedPackage>, response: Map<Seq<char>, Seq<WireAdvisory>>) -> Seq<WarningView>
    decreases pkgs.len(),
{
    if pkgs.len() == 0 {
        Seq::empty()
    } else {
        let pkg = pkgs.last();
        let rest = audit_warnings(pkgs.drop_last(), response);
        if response.contains_key(pkg.name@) {
            rest + package_warnings(pkg, response[pkg.name@])
        } else {
            rest
        }
    }
}

/// The line that reports a warning.
pub open spec fn warning_text(w: WarningView) -> Seq<char> {
    match w {
        WarningView::Version(p, v, id) => "warning: cannot parse version '"@ + v + "' for "@ + p
            + " \u{2014} skipping advisory "@ + id,
        WarningView::Constraint(p, c, id) => "warning: cannot parse constraint '"@ + c + "' for "@
            + p + " \u{2014} skipping advisory "@ + id,
    }
}

impl ParseWarning {
    /// The line that reports the warning.
    pub fn message(&self) -> (r: String)
        ensures
            r@ == warning_text(self@),
    {
        let mut out = String::new();
        match self {
            ParseWarning::Version { package, version, advisory_id } => {
                out.append("warning: cannot parse version '");
                out.append(version.as_str());
                out.append("' for ");
                out.append(package.as_str());
                out.append(" \u{2014} skipping advisory ");
                out.append(advisory_id.as_str());
            },
            ParseWarning::Constraint { package, constraint, advisory_id } => {
                out.append("warning: cannot parse constraint '");
                out.append(constraint.as_str());
                out.append("' for ");
                out.append(package.as_str());
                out.append(" \u{2014} skipping advisory ");
                out.append(advisory_id.as_str());
            },
        }
        assert(out@ =~= warning_text(self@));
        out
    }
}

/// The warning, if any, for checking `advisory` against `pkg`.
fn advisory_warning_of(pkg: &LockedPackage, advisory: &WireAdvisory) -> (r: Option<ParseWarning>)
    requires
        range_text_supported(advisory.affected_versions@),
    ensures
        match r {
            Some(w) => advisory_warning(*pkg, *advisory) == Some(w@),
            None => advisory_warning(*pkg, *advisory) is None,
        },
{
    if InstalledVersion::parse(pkg.version.as_str()).is_none() {
        return Some(
            ParseWarning::Version {
                package: pkg.name.clone(),
                version: pkg.version.clone(),
                advisory_id: advisory.advisory_id.clone(),
            },
        );
    }
    if AffectedRange::parse(advisory.affected_versions.as_str()).is_none() {
        return Some(
            ParseWarning::Constraint {
                package: pkg.name.clone(),
                constraint: advisory.affected_versions.clone(),
                advisory_id: advisory.advisory_id.clone(),
            },
        );
    }
    None
}

/// The advisories that auditing `packages` against `response` skips because
/// the installed version or the affected range does not parse, one warning
/// per skipped advisory, in the order in which the audit meets them.
pub fn parse_warnings(packages: &[LockedPackage], response: &AdvisoryResponse) -> (r: Vec<ParseWarning>)
    requires
        response.wf(),
        lock_ranges_supported(packages@, response@),
    ensures
        views(r@) == audit_warnings(packages@, response@),
{
    let mut out: Vec<ParseWarning> = Vec::new();
    for i in 0..packages.len()
        invariant
            response.wf(),
            lock_ranges_supported(packages@, response@),
            views(out@) == audit_warnings(packages@.take(i as int), response@),
    {
        let pkg = &packages[i];
        let ghost prefix = packages@.take(i as int);
        assert(packages@.take(i + 1).drop_last() =~= prefix);
        assert(packages@.take(i + 1).last() == *pkg);
        match response.get(pkg.name.as_str()) {
            Some(advisories) => {
                let ghost base = views(out@);
                assert(advisories@.take(0) =~= Seq::<WireAdvisory>::empty());
                assert(base + Seq::<WarningView>::empty() =~= base);
                for j in 0..advisories.len()
                    invariant
                        base == audit_warnings(prefix, response@),
                        lock_ranges_supported(packages@, response@),
                        i < packages@.len(),
                        packages@[i as int] == *pkg,
                        response@.contains_key(pkg.name@),
                        advisories@ == response@[pkg.name@],
                        views(out@) == base + package_warnings(*pkg, advisories@.take(j as int)),
                {
                    let adv = &advisories[j];
                    assert(response@[pkg.name@][j as int] == *adv);
                    assert(advisories@.take(j + 1).drop_last() =~= advisories@.take(j as int));
                    assert(advisories@.take(j + 1).last() == *adv);
                    let ghost before = views(out@);
                    match advisory_warning_of(pkg, adv) {
                        Some(w) => {
                            out.push(w);
                            assert(views(out@) =~= before.push(w@));
                        },
                        None => {},
                    }
                    assert(views(out@) =~= base + package_warnings(*pkg, advisories@.take(j + 1)));
                }
                assert(advisories@.take(advisories@.len() as int) =~= advisories@);
            },
            None => {},
        }
    }
    assert(packages@.take(packages@.len() as int) =~= packages@);
    out
}

/// Law: an advisory of unknown severity is reported at the default
/// threshold `low` and at no higher one.
pub proof fn law_unknown_reported_only_at_low(threshold: SeverityArg)
    ensures
        severity_level(Severity::Unknown) >= threshold_level(threshold) <==> threshold == SeverityArg::Low,
{
}

/// Law: a severity reported at a threshold is reported at every lower one.
pub proof fn law_threshold_monotonic(s: Severity, low: SeverityArg, high: SeverityArg)
    requires
        threshold_level(low) <= threshold_level(high),
        severity_level(s) >= threshold_level(high),
    ensures
        severity_level(s) >= threshold_level(low),
{
}

/// Law: the counts by severity add up to the number of findings.
pub proof fn law_summary_counts_all_findings(fs: Seq<FindingView>)
    ensures
        severity_count(fs, Severity::Critical) + severity_count(fs, Severity::High) + severity_count(
            fs,
            Severity::Medium,
        ) + severity_count(fs, Severity::Low) + severity_count(fs, Severity::Unknown) == fs.len(),
    decreases fs.len(),
{
    if fs.len() > 0 {
        law_summary_counts_all_findings(fs.drop_last());
    }
}

/// Law: there are no more vulnerable packages than findings, and none
/// exactly when there is no finding.
pub proof fn law_vulnerable_packages_bounded(fs: Seq<FindingView>)
    ensures
        distinct_packages(fs) <= fs.len(),
        distinct_packages(fs) == 0 <==> fs.len() == 0,
{
    let names = finding_packages(fs);
    names.lemma_cardinality_of_set();
    if fs.len() > 0 {
        assert(names.to_set().contains(names[0]));
        vstd::set::axiom_set_contains_len(names.to_set(), names[0]);
    } else {
        assert(names.to_set() =~= Set::empty());
    }
}

/// Every finding about `pkgs` is about a package that the response covers,
/// and is the finding of one of its advisories.
proof fn lemma_findings_from_covered(
    pkgs: Seq<LockedPackage>,
    response: Map<Seq<char>, Seq<WireAdvisory>>,
    min: SeverityArg,
    f: FindingView,
)
    requires
        audit_findings(pkgs, response, min).contains(f),
    ensures
        response.contains_key(f.package),
        severity_level(f.severity) >= threshold_level(min),
    decreases pkgs.len(),
{
    let rest = audit_findings(pkgs.drop_last(), response, min);
    let pkg = pkgs.last();
    if rest.contains(f) {
        lemma_findings_from_covered(pkgs.drop_last(), response, min, f);
    } else {
        assert(response.contains_key(pkg.name@)) by {
            if !response.contains_key(pkg.name@) {
                assert(audit_findings(pkgs, response, min) == rest);
            }
        }
        let whole = rest + package_findings(pkg, response[pkg.name@], min);
        assert(audit_findings(pkgs, response, min) == whole);
        let k = choose|k: int| 0 <= k < whole.len() && whole[k] == f;
        assert(package_findings(pkg, response[pkg.name@], min).contains(f)) by {
            assert(package_findings(pkg, response[pkg.name@], min)[k - rest.len()] == f);
        }
        lemma_package_findings_about(pkg, response[pkg.name@], min, f);
    }
}

proof fn lemma_package_findings_about(pkg: LockedPackage, advs: Seq<WireAdvisory>, min: SeverityArg, f: FindingView)
    requires
        package_findings(pkg, advs, min).contains(f),
    ensures
        f.package == pkg.name@,
        severity_level(f.severity) >= threshold_level(min),
    decreases advs.len(),
{
    if advs.len() > 0 {
        let rest = package_findings(pkg, advs.drop_last(), min);
        if rest.contains(f) {
            lemma_package_findings_about(pkg, advs.drop_last(), min, f);
        } else {
            let adv = advs.last();
            if advisory_affects(pkg, adv) && severity_level(finding_of(pkg, adv).severity) >= threshold_level(min) {
                let k = choose|k: int| 0 <= k < rest.push(finding_of(pkg, adv)).len() && rest.push(finding_of(pkg, adv))[k] == f;
                if k < rest.len() {
                    assert(rest[k] == f);
                }
            }
        }
    }
}

/// Law: a package without advisory data has no finding, and every finding
/// meets the threshold.
pub proof fn law_findings_only_for_covered_packages(
    pkgs: Seq<LockedPackage>,
    response: Map<Seq<char>, Seq<WireAdvisory>>,
    min: SeverityArg,
    f: FindingView,
)
    requires
        stable_sorted::<Finding>(audit_findings(pkgs, response, min)).contains(f),
    ensures
        response.contains_key(f.package),
        !uncovered(pkgs, response).contains(f.package),
        severity_level(f.severity) >= threshold_level(min),
{
    broadcast use vstd::seq_lib::group_to_multiset_ensures;

    let raw = audit_findings(pkgs, response, min);
    crate::order::lemma_stable_sorted_sorted_permutation::<Finding>(raw);
    assert(raw.to_multiset().count(f) > 0);
    lemma_findings_from_covered(pkgs, response, min, f);
    lemma_uncovered_not_in_response(pkgs, response, f.package);
}

proof fn lemma_uncovered_not_in_response(pkgs: Seq<LockedPackage>, response: Map<Seq<char>, Seq<WireAdvisory>>, name: Seq<char>)
    requires
        response.contains_key(name),
    ensures
        !uncovered(pkgs, response).contains(name),
    decreases pkgs.len(),
{
    if pkgs.len() > 0 {
        lemma_uncovered_not_in_response(pkgs.drop_last(), response, name);
        let rest = uncovered(pkgs.drop_last(), response);
        if !response.contains_key(pkgs.last().name@) {
            assert forall|k: int| 0 <= k < rest.push(pkgs.last().name@).len() implies rest.push(pkgs.last().name@)[k] != name by {
                if k < rest.len() {
                    assert(rest[k] != name);
                }
            }
        }
    }
}

proof fn lemma_package_findings_threshold(pkg: LockedPackage, advs: Seq<WireAdvisory>, low: SeverityArg, high: SeverityArg, f: FindingView)
    requires
        threshold_level(low) <= threshold_level(high),
        package_findings(pkg, advs, high).contains(f),
    ensures
        package_findings(pkg, advs, low).contains(f),
    decreases advs.len(),
{
    if advs.len() > 0 {
        let adv = advs.last();
        let rh = package_findings(pkg, advs.drop_last(), high);
        let rl = package_findings(pkg, advs.drop_last(), low);
        if rh.contains(f) {
            lemma_package_findings_threshold(pkg, advs.drop_last(), low, high, f);
            let k = choose|k: int| 0 <= k < rl.len() && rl[k] == f;
            if advisory_affects(pkg, adv) && severity_level(finding_of(pkg, adv).severity) >= threshold_level(low) {
                assert(rl.push(finding_of(pkg, adv))[k] == f);
            }
        } else {
            let k = choose|k: int| 0 <= k < rh.push(finding_of(pkg, adv)).len() && rh.push(finding_of(pkg, adv))[k] == f;
            if k < rh.len() {
                assert(rh[k] == f);
            }
            assert(rl.push(finding_of(pkg, adv))[rl.len() as int] == f);
        }
    }
}

/// Law: raising the threshold only removes findings: each finding at a
/// higher threshold is also a finding at a lower one.
pub proof fn law_higher_threshold_fewer_findings(
    pkgs: Seq<LockedPackage>,
    response: Map<Seq<char>, Seq<WireAdvisory>>,
    low: SeverityArg,
    high: SeverityArg,
    f: FindingView,
)
    requires
        threshold_level(low) <= threshold_level(high),
        audit_findings(pkgs, response, high).contains(f),
    ensures
        audit_findings(pkgs, response, low).contains(f),
    decreases pkgs.len(),
{
    if pkgs.len() > 0 {
        let pkg = pkgs.last();
        let rh = audit_findings(pkgs.drop_last(), response, high);
        let rl = audit_findings(pkgs.drop_last(), response, low);
        if rh.contains(f) {
            law_higher_threshold_fewer_findings(pkgs.drop_last(), response, low, high, f);
            let k = choose|k: int| 0 <= k < rl.len() && rl[k] == f;
            if response.contains_key(pkg.name@) {
                assert((rl + package_findings(pkg, response[pkg.name@], low))[k] == f);
            }
        } else {
            assert(response.contains_key(pkg.name@));
            let ph = package_findings(pkg, response[pkg.name@], high);
            let pl = package_findings(pkg, response[pkg.name@], low);
            let k = choose|k: int| 0 <= k < (rh + ph).len() && (rh + ph)[k] == f;
            if k < rh.len() {
                assert(rh[k] == f);
            }
            assert(ph[k - rh.len()] == f);
            lemma_package_findings_threshold(pkg, response[pkg.name@], low, high, f);
            let m = choose|m: int| 0 <= m < pl.len() && pl[m] == f;
            assert((rl + pl)[rl.len() + m] == f);
        }
    }
}

/// Whether a finding is reported at threshold `t`.
pub open spec fn reported_at(t: SeverityArg) -> spec_fn(FindingView) -> bool {
    |f: FindingView| severity_level(f.severity) >= threshold_level(t)
}

/// Findings that neither comes before the other have the same severity,
/// package, version and advisory id, so they rank alike.
proof fn lemma_findings_rank_alike()
    ensures
        ranks_alike::<Finding>(),
{
    assert forall|a: FindingView, b: FindingView, c: FindingView|
        #![trigger finding_before(a, b), finding_before(c, b)]
        finding_before(a, b) && !finding_before(c, b) implies finding_before(a, c) by {
        if finding_before(b, c) {
            Finding::lemma_before_transitive(a, b, c);
        } else {
            lemma_lex_total(b.package, c.package);
            lemma_lex_total(b.version, c.version);
            lemma_lex_total(b.advisory_id, c.advisory_id);
        }
    }
}

proof fn lemma_package_findings_filter(pkg: LockedPackage, advs: Seq<WireAdvisory>, low: SeverityArg, high: SeverityArg)
    requires
        threshold_level(low) <= threshold_level(high),
    ensures
        package_findings(pkg, advs, high) == package_findings(pkg, advs, low).filter(reported_at(high)),
    decreases advs.len(),
{
    reveal(Seq::filter);
    if advs.len() > 0 {
        lemma_package_findings_filter(pkg, advs.drop_last(), low, high);
        let lo = package_findings(pkg, advs, low);
        let rl = package_findings(pkg, advs.drop_last(), low);
        let adv = advs.last();
        if advisory_affects(pkg, adv) && severity_level(finding_of(pkg, adv).severity) >= threshold_level(low) {
            assert(lo.drop_last() =~= rl);
        } else {
            assert(lo == rl);
        }
    }
}

proof fn lemma_audit_findings_filter(
    pkgs: Seq<LockedPackage>,
    response: Map<Seq<char>, Seq<WireAdvisory>>,
    low: SeverityArg,
    high: SeverityArg,
)
    requires
        threshold_level(low) <= threshold_level(high),
    ensures
        audit_findings(pkgs, response, high) == audit_findings(pkgs, response, low).filter(reported_at(high)),
    decreases pkgs.len(),
{
    reveal(Seq::filter);
    if pkgs.len() > 0 {
        lemma_audit_findings_filter(pkgs.drop_last(), response, low, high);
        let pkg = pkgs.last();
        let rl = audit_findings(pkgs.drop_last(), response, low);
        if response.contains_key(pkg.name@) {
            lemma_package_findings_filter(pkg, response[pkg.name@], low, high);
            lemma_filter_add(rl, package_findings(pkg, response[pkg.name@], low), reported_at(high));
        }
    }
}

proof fn lemma_count_filtered(fs: Seq<FindingView>, t: SeverityArg, sev: Severity)
    ensures
        severity_count(fs.filter(reported_at(t)), sev) == if severity_level(sev) >= threshold_level(t) {
            severity_count(fs, sev)
        } else {
            0
        },
    decreases fs.len(),
{
    reveal(Seq::filter);
    if fs.len() > 0 {
        lemma_count_filtered(fs.drop_last(), t, sev);
        let kept = fs.filter(reported_at(t));
        if reported_at(t)(fs.last()) {
            assert(kept.drop_last() =~= fs.drop_last().filter(reported_at(t)));
        }
    }
}

/// Law: a higher threshold keeps exactly the findings of a lower one that
/// meet it, in the same order; each severity count is the lower one's, or 0
/// for a severity below the higher threshold. (The total and the packages
/// without advisory data do not depend on the threshold.)
pub proof fn law_higher_threshold_filters_findings(
    pkgs: Seq<LockedPackage>,
    response: Map<Seq<char>, Seq<WireAdvisory>>,
    low: SeverityArg,
    high: SeverityArg,
)
    requires
        threshold_level(low) <= threshold_level(high),
    ensures
        stable_sorted::<Finding>(audit_findings(pkgs, response, high)) == stable_sorted::<Finding>(
            audit_findings(pkgs, response, low),
        ).filter(reported_at(high)),
        forall|sev: Severity|
            #[trigger] severity_count(stable_sorted::<Finding>(audit_findings(pkgs, response, high)), sev)
                == if severity_level(sev) >= threshold_level(high) {
                severity_count(stable_sorted::<Finding>(audit_findings(pkgs, response, low)), sev)
            } else {
                0
            },
{
    lemma_audit_findings_filter(pkgs, response, low, high);
    lemma_findings_rank_alike();
    lemma_stable_sorted_filter::<Finding>(audit_findings(pkgs, response, low), reported_at(high));
    assert forall|sev: Severity|
        #[trigger] severity_count(stable_sorted::<Finding>(audit_findings(pkgs, response, high)), sev)
            == if severity_level(sev) >= threshold_level(high) {
            severity_count(stable_sorted::<Finding>(audit_findings(pkgs, response, low)), sev)
        } else {
            0
        } by {
        lemma_count_filtered(stable_sorted::<Finding>(audit_findings(pkgs, response, low)), high, sev);
    }
}

/// `s` is `t` or more severe, in the order of the variants: unknown, low,
/// medium, high, critical.
pub open spec fn at_least_as_severe(s: Severity, t: Severity) -> bool {
    match t {
        Severity::Unknown => true,
        Severity::Low => s != Severity::Unknown,
        Severity::Medium => s == Severity::Medium || s == Severity::High || s == Severity::Critical,
        Severity::High => s == Severity::High || s == Severity::Critical,
        Severity::Critical => s == Severity::Critical,
    }
}

/// Law: the audit's findings come in decreasing severity: a finding is at
/// least as severe as every finding after it (so a medium one comes before
/// every low one, and a critical one before all others).
pub proof fn law_findings_by_decreasing_severity(
    pkgs: Seq<LockedPackage>,
    response: Map<Seq<char>, Seq<WireAdvisory>>,
    min: SeverityArg,
)
    ensures
        forall|i: int, j: int|
            0 <= i < j < stable_sorted::<Finding>(audit_findings(pkgs, response, min)).len() ==> at_least_as_severe(
                #[trigger] stable_sorted::<Finding>(audit_findings(pkgs, response, min))[i].severity,
                #[trigger] stable_sorted::<Finding>(audit_findings(pkgs, response, min))[j].severity,
            ),
{
    let fs = stable_sorted::<Finding>(audit_findings(pkgs, response, min));
    crate::order::lemma_stable_sorted_sorted_permutation::<Finding>(audit_findings(pkgs, response, min));
    assert forall|i: int, j: int| 0 <= i < j < fs.len() implies at_least_as_severe(
        #[trigger] fs[i].severity,
        #[trigger] fs[j].severity,
    ) by {
        assert(!finding_before(fs[j], fs[i]));
    }
}

/// Law: a finding carries every source of its advisory, in the advisory's
/// order, as its name and remote id; an advisory without sources gives none.
pub proof fn law_finding_keeps_every_source(pkg: LockedPackage, adv: WireAdvisory)
    ensures
        finding_of(pkg, adv).sources.len() == match adv.sources {
            Some(v) => v@.len(),
            None => 0,
        },
        adv.sources matches Some(v) ==> forall|i: int|
            0 <= i < v@.len() ==> #[trigger] finding_of(pkg, adv).sources[i] == (v@[i].name@, v@[i].remote_id@),
{
}

/// The severity that a threshold names.
pub open spec fn severity_of_threshold(t: SeverityArg) -> Severity {
    match t {
        SeverityArg::Low => Severity::Low,
        SeverityArg::Medium => Severity::Medium,
        SeverityArg::High => Severity::High,
        SeverityArg::Critical => Severity::Critical,
    }
}

/// Law: the threshold's truth table: a finding is reported exactly when it
/// is at least as severe as the severity the threshold names, an unknown one
/// counting as low.
pub proof fn law_threshold_truth_table(s: Severity, t: SeverityArg)
    ensures
        (severity_level(s) >= threshold_level(t)) <==> at_least_as_severe(
            if s == Severity::Unknown { Severity::Low } else { s },
            severity_of_threshold(t),
        ),
{
}

/// Law: each summary count is the number of findings of that severity.
pub proof fn law_severity_count_is_number_of_findings(fs: Seq<FindingView>, sev: Severity)
    ensures
        severity_count(fs, sev) == fs.filter(|f: FindingView| f.severity == sev).len(),
    decreases fs.len(),
{
    reveal(Seq::filter);
    if fs.len() > 0 {
        law_severity_count_is_number_of_findings(fs.drop_last(), sev);
    }
}

} // verus!
