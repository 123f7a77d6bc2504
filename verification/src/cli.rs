//! Command-line options of the auditor.
use crate::text::str_eq;
use vstd::prelude::*;
use vstd::string::StrSliceExecFns;

verus! {

/// Output format of the report.
#[derive(Debug, Clone, Copy, PartialEq, Eq, Structural)]
pub enum Format {
    Text,
    Json,
}

/// Minimum severity that a finding needs to be reported.
#[derive(Debug, Clone, Copy, PartialEq, Eq, PartialOrd, Ord, Structural)]
pub enum SeverityArg {
    Low,
    Medium,
    High,
    Critical,
}

/// The options of one run.
#[derive(Debug)]
pub struct Cli {
    /// Path to `composer.lock`.
    pub lock: String,
    /// Output format.
    pub format: Format,
    /// Minimum severity to report.
    pub min_severity: SeverityArg,
}


/// Why the arguments were not accepted, or what they asked for instead of a run.
#[derive(Debug)]
pub enum CliError {
    /// `--help` or `-h`: print the usage.
    HelpRequested,
    /// `--version` or `-V`: print the version.
    VersionRequested,
    /// An argument that is no option of the program.
    UnknownArgument(String),
    /// An option without its value.
    MissingValue(String),
    /// An option whose value is not one of those it takes.
    InvalidValue { option: String, value: String },
    /// An option given twice.
    DuplicateOption(String),
}

/// An option of the program that takes a value.
#[derive(Debug, Clone, Copy, PartialEq, Eq, Structural)]
pub enum OptionName {
    Lock,
    Format,
    MinSeverity,
}

/// The options as far as they are read, with the text of each.
pub struct ArgsModel {
    pub lock: Option<Seq<char>>,
    pub format: Option<Format>,
    pub min_severity: Option<SeverityArg>,
}

/// The outcome of reading the arguments, over character sequences.
pub enum ParseOutcome {
    Options { lock: Seq<char>, format: Format, min_severity: SeverityArg },
    Help,
    Version,
    Unknown(Seq<char>),
    Missing(Seq<char>),
    Invalid(Seq<char>, Seq<char>),
    Duplicate(Seq<char>),
}

/// How an option is spelled.
pub open spec fn option_text(o: OptionName) -> Seq<char> {
    match o {
        OptionName::Lock => "--lock"@,
        OptionName::Format => "--format"@,
        OptionName::MinSeverity => "--min-severity"@,
    }
}

/// `p` starts `s`.
pub open spec fn has_prefix(s: Seq<char>, p: Seq<char>) -> bool {
    p.len() <= s.len() && s.subrange(0, p.len() as int) == p
}

/// The option that a token names, alone (`--lock`) or with its value
/// attached (`--lock=PATH`).
pub open spec fn option_of(tok: Seq<char>) -> Option<OptionName> {
    if tok == "--lock"@ || has_prefix(tok, "--lock="@) {
        Some(OptionName::Lock)
    } else if tok == "--format"@ || has_prefix(tok, "--format="@) {
        Some(OptionName::Format)
    } else if tok == "--min-severity"@ || has_prefix(tok, "--min-severity="@) {
        Some(OptionName::MinSeverity)
    } else {
        None
    }
}

/// A token that can stand as the value of an option: not a flag.
pub open spec fn is_value_token(tok: Seq<char>) -> bool {
    !(tok.len() > 1 && tok[0] == '-')
}

/// The format that a value names.
pub open spec fn format_named(v: Seq<char>) -> Option<Format> {
    if v == "text"@ {
        Some(Format::Text)
    } else if v == "json"@ {
        Some(Format::Json)
    } else {
        None
    }
}

/// The threshold that a value names.
pub open spec fn severity_named(v: Seq<char>) -> Option<SeverityArg> {
    if v == "low"@ {
        Some(SeverityArg::Low)
    } else if v == "medium"@ {
        Some(SeverityArg::Medium)
    } else if v == "high"@ {
        Some(SeverityArg::High)
    } else if v == "critical"@ {
        Some(SeverityArg::Critical)
    } else {
        None
    }
}

/// Whether option `o` was already given.
pub open spec fn already_set(m: ArgsModel, o: OptionName) -> bool {
    match o {
        OptionName::Lock => m.lock is Some,
        OptionName::Format => m.format is Some,
        OptionName::MinSeverity => m.min_severity is Some,
    }
}

/// Reading the tokens from position `i` on, with the options read so far:
/// help and version stop the reading; `--` ends the options, after which no
/// token may follow; an option takes its value attached or from the next
/// token; a value that no option takes, or a token that is no option, is
/// refused; unset options take their defaults.
pub open spec fn parse_tokens(toks: Seq<Seq<char>>, i: int, m: ArgsModel) -> ParseOutcome
    decreases toks.len() - i,
{
    if i >= toks.len() || i < 0 {
        ParseOutcome::Options {
            lock: match m.lock {
                Some(l) => l,
                None => "composer.lock"@,
            },
            format: match m.format {
                Some(f) => f,
                None => Format::Text,
            },
            min_severity: match m.min_severity {
                Some(s) => s,
                None => SeverityArg::Low,
            },
        }
    } else {
        let tok = toks[i];
        if tok == "--help"@ || tok == "-h"@ {
            ParseOutcome::Help
        } else if tok == "--version"@ || tok == "-V"@ {
            ParseOutcome::Version
        } else if tok == "--"@ {
            if i + 1 < toks.len() {
                ParseOutcome::Unknown(toks[i + 1])
            } else {
                parse_tokens(toks, toks.len() as int, m)
            }
        } else {
            match option_of(tok) {
                None => ParseOutcome::Unknown(tok),
                Some(o) => {
                    let name = option_text(o);
                    if already_set(m, o) {
                        ParseOutcome::Duplicate(name)
                    } else {
                        let attached = tok != name;
                        if !attached && !(i + 1 < toks.len() && is_value_token(toks[i + 1])) {
                            ParseOutcome::Missing(name)
                        } else {
                            let value = if attached {
                                tok.skip(name.len() + 1int)
                            } else {
                                toks[i + 1]
                            };
                            let next = if attached {
                                i + 1
                            } else {
                                i + 2
                            };
                            match o {
                                OptionName::Lock => if value.len() == 0 {
                                    ParseOutcome::Missing(name)
                                } else {
                                    parse_tokens(toks, next, ArgsModel { lock: Some(value), ..m })
                                },
                                OptionName::Format => match format_named(value) {
                                    Some(f) => parse_tokens(toks, next, ArgsModel { format: Some(f), ..m }),
                                    None => ParseOutcome::Invalid(name, value),
                                },
                                OptionName::MinSeverity => match severity_named(value) {
                                    Some(s) => parse_tokens(
                                        toks,
                                        next,
                                        ArgsModel { min_severity: Some(s), ..m },
                                    ),
                                    None => ParseOutcome::Invalid(name, value),
                                },
                            }
                        }
                    }
                },
            }
        }
    }
}

/// The outcome of reading the command line `args`, whose first element is
/// the program name.
pub open spec fn parse_args(args: Seq<Seq<char>>) -> ParseOutcome {
    parse_tokens(args, 1, ArgsModel { lock: None, format: None, min_severity: None })
}

/// The outcome that a parse result stands for.
pub open spec fn outcome_of(r: Result<Cli, CliError>) -> ParseOutcome {
    match r {
        Ok(c) => ParseOutcome::Options { lock: c.lock@, format: c.format, min_severity: c.min_severity },
        Err(CliError::HelpRequested) => ParseOutcome::Help,
        Err(CliError::VersionRequested) => ParseOutcome::Version,
        Err(CliError::UnknownArgument(t)) => ParseOutcome::Unknown(t@),
        Err(CliError::MissingValue(o)) => ParseOutcome::Missing(o@),
        Err(CliError::InvalidValue { option, value }) => ParseOutcome::Invalid(option@, value@),
        Err(CliError::DuplicateOption(o)) => ParseOutcome::Duplicate(o@),
    }
}

/// The text views of the arguments.
pub open spec fn arg_views(args: Seq<&str>) -> Seq<Seq<char>> {
    args.map_values(|a: &str| a@)
}


/// The documented name of a threshold: its level in lowercase.
pub open spec fn threshold_name(t: SeverityArg) -> Seq<char> {
    match t {
        SeverityArg::Low => "low"@,
        SeverityArg::Medium => "medium"@,
        SeverityArg::High => "high"@,
        SeverityArg::Critical => "critical"@,
    }
}

/// `--min-severity` with a value that names a threshold selects it, the
/// other options at their defaults.
proof fn lemma_min_severity_alone(prog: Seq<char>, w: Seq<char>, u: SeverityArg)
    requires
        severity_named(w) == Some(u),
        is_value_token(w),
    ensures
        parse_args(seq![prog, "--min-severity"@, w]) == (ParseOutcome::Options {
            lock: "composer.lock"@,
            format: Format::Text,
            min_severity: u,
        }),
{
    reveal_strlit("--min-severity");
    reveal_strlit("--min-severity=");
    reveal_strlit("--lock");
    reveal_strlit("--lock=");
    reveal_strlit("--format");
    reveal_strlit("--format=");
    reveal_strlit("--help");
    reveal_strlit("-h");
    reveal_strlit("--version");
    reveal_strlit("-V");
    reveal_strlit("--");
    let tok = "--min-severity"@;
    assert(tok != "--lock"@ && !has_prefix(tok, "--lock="@)) by {
        assert(tok[2] != "--lock="@[2]);
    }
    assert(tok != "--format"@ && !has_prefix(tok, "--format="@)) by {
        assert(tok[2] != "--format="@[2]);
    }
    assert(option_of(tok) == Some(OptionName::MinSeverity));
    assert(tok.len() == 14);
    assert(tok != "--help"@) by {
        assert(tok[2] != "--help"@[2]);
    }
    assert(tok != "-h"@) by {
        assert("-h"@.len() == 2);
    }
    assert(tok != "--version"@) by {
        assert(tok[2] != "--version"@[2]);
    }
    assert(tok != "-V"@) by {
        assert("-V"@.len() == 2);
    }
    assert(tok != "--"@) by {
        assert("--"@.len() == 2);
    }
    let toks = seq![prog, tok, w];
    assert(toks[1] == tok && toks[2] == w && toks.len() == 3);
    let empty = ArgsModel { lock: None, format: None, min_severity: None };
    let m = ArgsModel { min_severity: Some(u), ..empty };
    assert(parse_tokens(toks, 3, m) == (ParseOutcome::Options {
        lock: "composer.lock"@,
        format: Format::Text,
        min_severity: u,
    }));
    assert(parse_tokens(toks, 1, empty) == parse_tokens(toks, 3, m));
}

/// The documented name of a format.
pub open spec fn format_name(f: Format) -> Seq<char> {
    match f {
        Format::Text => "text"@,
        Format::Json => "json"@,
    }
}

/// An option given alone with a value selects what the value gives, the
/// other options at their defaults.
proof fn lemma_option_alone(prog: Seq<char>, o: OptionName, w: Seq<char>)
    requires
        is_value_token(w),
        o is Lock ==> w.len() > 0,
        o is Format ==> format_named(w) is Some,
        o is MinSeverity ==> severity_named(w) is Some,
    ensures
        parse_args(seq![prog, option_text(o), w]) == (ParseOutcome::Options {
            lock: if o is Lock { w } else { "composer.lock"@ },
            format: if o is Format { format_named(w)->0 } else { Format::Text },
            min_severity: if o is MinSeverity { severity_named(w)->0 } else { SeverityArg::Low },
        }),
{
    reveal_strlit("--min-severity");
    reveal_strlit("--min-severity=");
    reveal_strlit("--lock");
    reveal_strlit("--lock=");
    reveal_strlit("--format");
    reveal_strlit("--format=");
    reveal_strlit("--help");
    reveal_strlit("-h");
    reveal_strlit("--version");
    reveal_strlit("-V");
    reveal_strlit("--");
    let tok = option_text(o);
    assert(tok.len() >= 6);
    assert(tok[2] != "--help"@[2] || tok.len() != "--help"@.len());
    assert(tok != "--version"@) by {
        assert(tok[2] != "--version"@[2]);
    }
    assert(tok != "--help"@) by {
        if tok.len() == "--help"@.len() {
            assert(tok[2] != "--help"@[2]);
        }
    }
    assert(tok != "-h"@ && tok != "-V"@ && tok != "--"@) by {
        assert("-h"@.len() == 2 && "-V"@.len() == 2 && "--"@.len() == 2);
    }
    match o {
        OptionName::Lock => {
            assert(option_of(tok) == Some(OptionName::Lock));
        },
        OptionName::Format => {
            assert(tok != "--lock"@ && !has_prefix(tok, "--lock="@)) by {
                assert(tok[2] != "--lock="@[2]);
            }
            assert(option_of(tok) == Some(OptionName::Format));
        },
        OptionName::MinSeverity => {
            assert(tok != "--lock"@ && !has_prefix(tok, "--lock="@)) by {
                assert(tok[2] != "--lock="@[2]);
            }
            assert(tok != "--format"@ && !has_prefix(tok, "--format="@)) by {
                assert(tok[2] != "--format="@[2]);
            }
            assert(option_of(tok) == Some(OptionName::MinSeverity));
        },
    }
    let toks = seq![prog, tok, w];
    assert(toks[1] == tok && toks[2] == w && toks.len() == 3);
    let empty = ArgsModel { lock: None, format: None, min_severity: None };
    let m = match o {
        OptionName::Lock => ArgsModel { lock: Some(w), ..empty },
        OptionName::Format => ArgsModel { format: format_named(w), ..empty },
        OptionName::MinSeverity => ArgsModel { min_severity: severity_named(w), ..empty },
    };
    assert(parse_tokens(toks, 1, empty) == parse_tokens(toks, 3, m));
}

/// Law: each documented format name selects its own format, and a path
/// given to `--lock` is the lock file read, the other options at their
/// defaults; an explicit `--format text` gives what no option gives.
pub proof fn law_format_and_lock_options(prog: Seq<char>, f: Format, path: Seq<char>)
    requires
        is_value_token(path),
        path.len() > 0,
    ensures
        parse_args(seq![prog, "--format"@, format_name(f)]) == (ParseOutcome::Options {
            lock: "composer.lock"@,
            format: f,
            min_severity: SeverityArg::Low,
        }),
        parse_args(seq![prog, "--lock"@, path]) == (ParseOutcome::Options {
            lock: path,
            format: Format::Text,
            min_severity: SeverityArg::Low,
        }),
        parse_args(seq![prog, "--format"@, "text"@]) == parse_args(seq![prog]),
{
    reveal_strlit("text");
    reveal_strlit("json");
    reveal_strlit("--format");
    reveal_strlit("--lock");
    let v = format_name(f);
    assert(is_value_token(v));
    assert(format_named(v) == Some(f));
    lemma_option_alone(prog, OptionName::Format, v);
    lemma_option_alone(prog, OptionName::Format, "text"@);
    lemma_option_alone(prog, OptionName::Lock, path);
    assert(parse_tokens(seq![prog], 1, ArgsModel { lock: None, format: None, min_severity: None })
        == (ParseOutcome::Options { lock: "composer.lock"@, format: Format::Text, min_severity: SeverityArg::Low }));
}

/// Law: each documented threshold name selects its own level, with the
/// other options at their defaults; and an explicit `--min-severity low`
/// gives what no option gives.
pub proof fn law_threshold_names_select_their_level(prog: Seq<char>, t: SeverityArg)
    ensures
        parse_args(seq![prog, "--min-severity"@, threshold_name(t)]) == (ParseOutcome::Options {
            lock: "composer.lock"@,
            format: Format::Text,
            min_severity: t,
        }),
        parse_args(seq![prog, "--min-severity"@, "low"@]) == parse_args(seq![prog]),
{
    reveal_strlit("low");
    reveal_strlit("medium");
    reveal_strlit("high");
    reveal_strlit("critical");
    let v = threshold_name(t);
    assert(is_value_token(v));
    assert(severity_named(v) == Some(t));
    lemma_min_severity_alone(prog, v, t);
    lemma_min_severity_alone(prog, "low"@, SeverityArg::Low);
    assert(parse_tokens(seq![prog], 1, ArgsModel { lock: None, format: None, min_severity: None })
        == (ParseOutcome::Options { lock: "composer.lock"@, format: Format::Text, min_severity: SeverityArg::Low }));
}

/// The rest of `tok` after `prefix`, if `tok` starts with it.
fn strip_prefix<'a>(tok: &'a str, prefix: &str) -> (r: Option<&'a str>)
    ensures
        r is Some <==> has_prefix(tok@, prefix@),
        r matches Some(rest) ==> rest@ == tok@.skip(prefix@.len() as int),
{
    let n = prefix.unicode_len();
    let m = tok.unicode_len();
    if n <= m {
        let head = tok.substring_char(0, n);
        if str_eq(head, prefix) {
            return Some(tok.substring_char(n, m));
        }
    }
    None
}

/// The option that `tok` names, with its attached value if it has one.
fn option_in<'a>(tok: &'a str) -> (r: Option<(OptionName, Option<&'a str>)>)
    ensures
        r is None <==> option_of(tok@) is None,
        r matches Some((o, v)) ==> {
            &&& option_of(tok@) == Some(o)
            &&& (v is None <==> tok@ == option_text(o))
            &&& v matches Some(x) ==> x@ == tok@.skip(option_text(o).len() + 1int)
        },
{
    proof {
        reveal_strlit("--lock");
        reveal_strlit("--lock=");
        reveal_strlit("--format");
        reveal_strlit("--format=");
        reveal_strlit("--min-severity");
        reveal_strlit("--min-severity=");
    }
    if str_eq(tok, "--lock") {
        return Some((OptionName::Lock, None));
    }
    if let Some(v) = strip_prefix(tok, "--lock=") {
        return Some((OptionName::Lock, Some(v)));
    }
    if str_eq(tok, "--format") {
        return Some((OptionName::Format, None));
    }
    if let Some(v) = strip_prefix(tok, "--format=") {
        return Some((OptionName::Format, Some(v)));
    }
    if str_eq(tok, "--min-severity") {
        return Some((OptionName::MinSeverity, None));
    }
    if let Some(v) = strip_prefix(tok, "--min-severity=") {
        return Some((OptionName::MinSeverity, Some(v)));
    }
    None
}

fn option_label(o: OptionName) -> (r: String)
    ensures
        r@ == option_text(o),
{
    match o {
        OptionName::Lock => "--lock".to_owned(),
        OptionName::Format => "--format".to_owned(),
        OptionName::MinSeverity => "--min-severity".to_owned(),
    }
}

fn value_token(tok: &str) -> (r: bool)
    ensures
        r == is_value_token(tok@),
{
    !(tok.unicode_len() > 1 && tok.get_char(0) == '-')
}

fn format_value(v: &str) -> (r: Option<Format>)
    ensures
        r == format_named(v@),
{
    if str_eq(v, "text") {
        Some(Format::Text)
    } else if str_eq(v, "json") {
        Some(Format::Json)
    } else {
        None
    }
}

fn severity_value(v: &str) -> (r: Option<SeverityArg>)
    ensures
        r == severity_named(v@),
{
    if str_eq(v, "low") {
        Some(SeverityArg::Low)
    } else if str_eq(v, "medium") {
        Some(SeverityArg::Medium)
    } else if str_eq(v, "high") {
        Some(SeverityArg::High)
    } else if str_eq(v, "critical") {
        Some(SeverityArg::Critical)
    } else {
        None
    }
}

/// The model of the options read so far.
pub open spec fn model_of(lock: Option<String>, format: Option<Format>, min_severity: Option<SeverityArg>) -> ArgsModel {
    ArgsModel { lock: lock.deep_view(), format, min_severity }
}

impl Cli {
    /// Reads the command line `args`, whose first element is the program
    /// name: `--lock <PATH>` (default `composer.lock`), `--format
    /// <text|json>` (default `text`), `--min-severity
    /// <low|medium|high|critical>` (default `low`), each at most once, with
    /// the value as the next argument or after `=`; `--help`/`-h` and
    /// `--version`/`-V` ask for the usage and the version.
    pub fn try_parse_from(args: &[&str]) -> (r: Result<Cli, CliError>)
        ensures
            outcome_of(r) == parse_args(arg_views(args@)),
    {
        let ghost toks = arg_views(args@);
        let mut lock: Option<String> = None;
        let mut format: Option<Format> = None;
        let mut min_severity: Option<SeverityArg> = None;
        let mut i: usize = 1;
        while i < args.len()
            invariant
                toks == arg_views(args@),
                toks.len() == args@.len(),
                1 <= i,
                parse_args(toks) == parse_tokens(toks, i as int, model_of(lock, format, min_severity)),
            ensures
                i >= args.len(),
                parse_args(toks) == parse_tokens(toks, i as int, model_of(lock, format, min_severity)),
            decreases args.len() - i,
        {
            let tok = args[i];
            assert(toks[i as int] == tok@);
            proof {
                reveal_strlit("--help");
                reveal_strlit("-h");
                reveal_strlit("--version");
                reveal_strlit("-V");
                reveal_strlit("--");
            }
            if str_eq(tok, "--help") || str_eq(tok, "-h") {
                return Err(CliError::HelpRequested);
            }
            if str_eq(tok, "--version") || str_eq(tok, "-V") {
                return Err(CliError::VersionRequested);
            }
            if str_eq(tok, "--") {
                if i + 1 < args.len() {
                    assert(toks[i + 1] == args@[i + 1]@);
                    return Err(CliError::UnknownArgument(args[i + 1].to_owned()));
                }
                i = args.len();
                break;
            }
            let (o, attached) = match option_in(tok) {
                None => {
                    return Err(CliError::UnknownArgument(tok.to_owned()));
                },
                Some(found) => found,
            };
            let set = match o {
                OptionName::Lock => lock.is_some(),
                OptionName::Format => format.is_some(),
                OptionName::MinSeverity => min_severity.is_some(),
            };
            if set {
                return Err(CliError::DuplicateOption(option_label(o)));
            }
            let (value, next): (&str, usize) = match attached {
                Some(v) => (v, i + 1),
                None => {
                    if i + 1 < args.len() && value_token(args[i + 1]) {
                        assert(toks[i + 1] == args@[i + 1]@);
                        (args[i + 1], i + 2)
                    } else {
                        if i + 1 < args.len() {
                            assert(toks[i + 1] == args@[i + 1]@);
                        }
                        return Err(CliError::MissingValue(option_label(o)));
                    }
                },
            };
            match o {
                OptionName::Lock => {
                    if value.is_empty() {
                        return Err(CliError::MissingValue(option_label(o)));
                    }
                    lock = Some(value.to_owned());
                },
                OptionName::Format => match format_value(value) {
                    Some(f) => format = Some(f),
                    None => {
                        return Err(CliError::InvalidValue { option: option_label(o), value: value.to_owned() });
                    },
                },
                OptionName::MinSeverity => match severity_value(value) {
                    Some(sv) => min_severity = Some(sv),
                    None => {
                        return Err(CliError::InvalidValue { option: option_label(o), value: value.to_owned() });
                    },
                },
            }
            i = next;
        }
        let lock = match lock {
            Some(l) => l,
            None => "composer.lock".to_owned(),
        };
        let format = match format {
            Some(f) => f,
            None => Format::Text,
        };
        let min_severity = match min_severity {
            Some(sv) => sv,
            None => SeverityArg::Low,
        };
        Ok(Cli { lock, format, min_severity })
    }

    /// Reads a command line that [`Cli::try_parse_from`] accepts.
    pub fn parse_from(args: &[&str]) -> (r: Cli)
        requires
            parse_args(arg_views(args@)) is Options,
        ensures
            parse_args(arg_views(args@)) == (ParseOutcome::Options {
                lock: r.lock@,
                format: r.format,
                min_severity: r.min_severity,
            }),
    {
        match Cli::try_parse_from(args) {
            Ok(c) => c,
            Err(e) => {
                proof {
                    assert(false);
                }
                Cli { lock: String::new(), format: Format::Text, min_severity: SeverityArg::Low }
            },
        }
    }
}

} // verus!
