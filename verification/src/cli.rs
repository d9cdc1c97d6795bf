//! Output formats and output-target parsing: the option values the
//! command line hands in, stated and checked without touching the
//! terminal.

use vstd::prelude::*;
use vstd::string::{StrSliceExecFns, StringExecFns};

use crate::text::{char_code, is_ws, str_to_chars};

verus! {

/// The output formats a report can be rendered in.
#[derive(Debug, Clone, Copy, PartialEq, Eq, Hash, Structural)]
pub enum OutputFormat {
    Cli,
    Summary,
    Gitlab,
    Json,
}

/// The format used when no output target is named.
pub const DEFAULT_OUTPUT_FORMAT: OutputFormat = OutputFormat::Cli;

/// How files missing from coverage are handled.
#[derive(Debug, Clone, Copy, PartialEq, Eq, Hash, Structural)]
pub enum MissingCoverageMode {
    Uncovered,
    Ignore,
}

/// One requested output: a format, and a path for the formats that write
/// to a file.
#[derive(Debug, Clone, PartialEq, Eq)]
pub struct OutputTarget {
    pub format: OutputFormat,
    pub path: Option<String>,
}

impl OutputFormat {
    /// The kebab-case name of this format.
    pub open spec fn label_spec(self) -> Seq<char> {
        match self {
            OutputFormat::Cli => "cli"@,
            OutputFormat::Summary => "summary"@,
            OutputFormat::Gitlab => "gitlab"@,
            OutputFormat::Json => "json"@,
        }
    }

    /// The name this format is selected by.
    pub fn label(self) -> (r: String)
        ensures
            r@ == self.label_spec(),
    {
        match self {
            OutputFormat::Cli => "cli".to_owned(),
            OutputFormat::Summary => "summary".to_owned(),
            OutputFormat::Gitlab => "gitlab".to_owned(),
            OutputFormat::Json => "json".to_owned(),
        }
    }

    /// Whether this format writes to a file and so needs a path.
    pub open spec fn requires_path_spec(self) -> bool {
        self is Gitlab || self is Json
    }

    /// Whether an output target for this format must carry a path.
    pub fn requires_path(self) -> (r: bool)
        ensures
            r == self.requires_path_spec(),
    {
        match self {
            OutputFormat::Cli => false,
            OutputFormat::Summary => false,
            OutputFormat::Gitlab => true,
            OutputFormat::Json => true,
        }
    }

    /// What parsing a format name yields: the name, trimmed, compared to
    /// each label without regard to ASCII case.
    pub open spec fn parse_spec(raw: Seq<char>) -> Option<OutputFormat> {
        let t = trim_spec(raw);
        if eq_icase(t, "cli"@) {
            Some(OutputFormat::Cli)
        } else if eq_icase(t, "summary"@) {
            Some(OutputFormat::Summary)
        } else if eq_icase(t, "gitlab"@) {
            Some(OutputFormat::Gitlab)
        } else if eq_icase(t, "json"@) {
            Some(OutputFormat::Json)
        } else {
            None
        }
    }

    /// Parses a format name, exactly as [`OutputFormat::parse_spec`]
    /// describes.
    pub fn parse(raw: &str) -> (r: Option<OutputFormat>)
        ensures
            r == OutputFormat::parse_spec(raw@),
    {
        let v = str_to_chars(raw);
        let n = v.len();
        let a = trim_lo_exec(&v);
        let b = trim_hi_exec(&v);
        let ghost t = trim_spec(raw@);
        if a > b {
            proof {
                assert(t =~= Seq::<char>::empty());
                assert(!eq_icase(t, "cli"@)) by {
                    reveal_strlit("cli");
                }
                assert(!eq_icase(t, "summary"@)) by {
                    reveal_strlit("summary");
                }
                assert(!eq_icase(t, "gitlab"@)) by {
                    reveal_strlit("gitlab");
                }
                assert(!eq_icase(t, "json"@)) by {
                    reveal_strlit("json");
                }
            }
            return None;
        }
        proof {
            assert(t == v@.subrange(a as int, b as int));
        }
        if eq_icase_range(&v, a, b, "cli") {
            Some(OutputFormat::Cli)
        } else if eq_icase_range(&v, a, b, "summary") {
            Some(OutputFormat::Summary)
        } else if eq_icase_range(&v, a, b, "gitlab") {
            Some(OutputFormat::Gitlab)
        } else if eq_icase_range(&v, a, b, "json") {
            Some(OutputFormat::Json)
        } else {
            None
        }
    }

    /// The labels of every format, in declaration order.
    pub fn labels() -> (r: Vec<String>)
        ensures
            r@.len() == 4,
            r@[0]@ == "cli"@,
            r@[1]@ == "summary"@,
            r@[2]@ == "gitlab"@,
            r@[3]@ == "json"@,
    {
        let mut r: Vec<String> = Vec::new();
        r.push("cli".to_owned());
        r.push("summary".to_owned());
        r.push("gitlab".to_owned());
        r.push("json".to_owned());
        r
    }

    /// The labels of the formats that take no path.
    pub fn labels_without_path() -> (r: Vec<String>)
        ensures
            r@.len() == 2,
            r@[0]@ == "cli"@,
            r@[1]@ == "summary"@,
    {
        let mut r: Vec<String> = Vec::new();
        r.push("cli".to_owned());
        r.push("summary".to_owned());
        r
    }

    /// The labels of the formats that require a path.
    pub fn labels_requiring_path() -> (r: Vec<String>)
        ensures
            r@.len() == 2,
            r@[0]@ == "gitlab"@,
            r@[1]@ == "json"@,
    {
        let mut r: Vec<String> = Vec::new();
        r.push("gitlab".to_owned());
        r.push("json".to_owned());
        r
    }
}

/// First index that is not leading whitespace.
pub open spec fn trim_lo_from(s: Seq<char>, i: int) -> int
    decreases s.len() - i,
{
    if i < 0 || i >= s.len() || !is_ws(s[i]) {
        i
    } else {
        trim_lo_from(s, i + 1)
    }
}

/// One past the last index that is not trailing whitespace.
pub open spec fn trim_hi_from(s: Seq<char>, j: int) -> int
    decreases j,
{
    if j <= 0 || j > s.len() || !is_ws(s[j - 1]) {
        j
    } else {
        trim_hi_from(s, j - 1)
    }
}

/// `s` with leading and trailing whitespace removed.
pub open spec fn trim_spec(s: Seq<char>) -> Seq<char> {
    let a = trim_lo_from(s, 0);
    let b = trim_hi_from(s, s.len() as int);
    if a <= b {
        s.subrange(a, b)
    } else {
        Seq::empty()
    }
}

/// The ASCII-lowercase code of a character.
pub open spec fn lower_code(c: char) -> int {
    if 'A' as int <= c as int && c as int <= 'Z' as int {
        c as int + 32
    } else {
        c as int
    }
}

/// Character-wise equality up to ASCII case.
pub open spec fn eq_icase(a: Seq<char>, b: Seq<char>) -> bool {
    a.len() == b.len() && forall|i: int| 0 <= i < a.len() ==> lower_code(a[i]) == lower_code(b[i])
}

fn trim_lo_exec(v: &Vec<char>) -> (r: usize)
    ensures
        r == trim_lo_from(v@, 0),
        r <= v@.len(),
{
    trim_lo_exec_from(v, 0)
}

fn trim_lo_exec_from(v: &Vec<char>, i: usize) -> (r: usize)
    requires
        i <= v@.len(),
    ensures
        r == trim_lo_from(v@, i as int),
        i <= r <= v@.len(),
    decreases v@.len() - i,
{
    if i >= v.len() {
        i
    } else {
        let c = v[i];
        if c == ' ' || c == '\t' || c == '\n' || c == '\r' || c == '\u{b}' || c == '\u{c}' {
            trim_lo_exec_from(v, i + 1)
        } else {
            i
        }
    }
}

fn trim_hi_exec(v: &Vec<char>) -> (r: usize)
    ensures
        r == trim_hi_from(v@, v@.len() as int),
        r <= v@.len(),
{
    trim_hi_exec_from(v, v.len())
}

fn trim_hi_exec_from(v: &Vec<char>, j: usize) -> (r: usize)
    requires
        j <= v@.len(),
    ensures
        r == trim_hi_from(v@, j as int),
        r <= j,
    decreases j,
{
    if j == 0 {
        j
    } else {
        let c = v[j - 1];
        if c == ' ' || c == '\t' || c == '\n' || c == '\r' || c == '\u{b}' || c == '\u{c}' {
            trim_hi_exec_from(v, j - 1)
        } else {
            j
        }
    }
}

/// Whether `v[from..to]` equals `lit` up to ASCII case.
fn eq_icase_range(v: &Vec<char>, from: usize, to: usize, lit: &str) -> (r: bool)
    requires
        from <= to <= v@.len(),
    ensures
        r == eq_icase(v@.subrange(from as int, to as int), lit@),
{
    let ghost t = v@.subrange(from as int, to as int);
    let ln = lit.unicode_len();
    if to - from != ln {
        return false;
    }
    let mut i: usize = 0;
    while i < ln
        invariant
            from <= to <= v@.len(),
            t == v@.subrange(from as int, to as int),
            ln == lit@.len(),
            to - from == ln,
            i <= ln,
            forall|k: int| 0 <= k < i ==> lower_code(t[k]) == lower_code(lit@[k]),
        decreases ln - i,
    {
        let a = v[from + i];
        let b = lit.get_char(i);
        proof {
            assert(t[i as int] == a);
        }
        let av = char_code(a);
        let bv = char_code(b);
        let al: u32 = if av >= 65 && av <= 90 {
            av + 32
        } else {
            av
        };
        let bl: u32 = if bv >= 65 && bv <= 90 {
            bv + 32
        } else {
            bv
        };
        if al != bl {
            return false;
        }
        i = i + 1;
    }
    true
}

// ---------------------------------------------------------------------------
// Output-target syntax.
// ---------------------------------------------------------------------------
/// First index of `=`, or `s.len()`.
pub open spec fn find_eq_from(s: Seq<char>, i: int) -> int
    decreases s.len() - i,
{
    if i < 0 || i >= s.len() || s[i] == '=' {
        i
    } else {
        find_eq_from(s, i + 1)
    }
}

/// The message naming every accepted format.
pub open spec fn bad_format_msg() -> Seq<char> {
    "output target format must be one of: cli, summary, gitlab, json"@
}

/// The message for a path handed to a format that takes none.
pub open spec fn no_path_msg(f: OutputFormat) -> Seq<char> {
    f.label_spec() + " output does not take a path"@
}

/// The message for a missing path.
pub open spec fn needs_path_msg() -> Seq<char> {
    "output target must be FORMAT=PATH for formats that require a path: gitlab, json"@
}

/// The message for an empty path.
pub open spec fn empty_path_msg() -> Seq<char> {
    "output target path cannot be empty"@
}

/// What parsing one `FORMAT[=PATH]` output target yields.
pub open spec fn parse_output_target_spec(raw: Seq<char>) -> Result<
    (OutputFormat, Option<Seq<char>>),
    Seq<char>,
> {
    let e = find_eq_from(raw, 0);
    let format_raw = raw.take(e);
    let path_raw: Option<Seq<char>> = if e < raw.len() {
        Some(raw.skip(e + 1))
    } else {
        None
    };
    match OutputFormat::parse_spec(format_raw) {
        None => Err(bad_format_msg()),
        Some(f) => match (f.requires_path_spec(), path_raw) {
            (false, None) => Ok((f, None)),
            (false, Some(p)) => Err(no_path_msg(f)),
            (true, None) => Err(needs_path_msg()),
            (true, Some(p)) => if p.len() == 0 {
                Err(empty_path_msg())
            } else {
                Ok((f, Some(p)))
            },
        },
    }
}

fn find_eq_exec(v: &Vec<char>, i: usize) -> (r: usize)
    requires
        i <= v@.len(),
    ensures
        r == find_eq_from(v@, i as int),
        i <= r <= v@.len(),
    decreases v@.len() - i,
{
    if i >= v.len() {
        i
    } else if v[i] == '=' {
        i
    } else {
        find_eq_exec(v, i + 1)
    }
}

/// Parses one `--output` value of the form `FORMAT` or `FORMAT=PATH` —
/// exactly [`parse_output_target_spec`].
pub fn parse_output_target(raw: &str) -> (r: Result<OutputTarget, String>)
    ensures
        ({
            match r {
                Ok(t) => {
                    &&& parse_output_target_spec(raw@) is Ok
                    &&& t.format == parse_output_target_spec(raw@)->Ok_0.0
                    &&& match t.path {
                        Some(p) => parse_output_target_spec(raw@)->Ok_0.1 == Some(p@),
                        None => parse_output_target_spec(raw@)->Ok_0.1 is None,
                    }
                },
                Err(m) => {
                    &&& parse_output_target_spec(raw@) is Err
                    &&& m@ == parse_output_target_spec(raw@)->Err_0
                },
            }
        }),
{
    let v = str_to_chars(raw);
    let n = v.len();
    let e = find_eq_exec(&v, 0);
    let format_part = crate::text::subvec(&v, 0, e);
    proof {
        assert(format_part@ =~= v@.take(e as int));
    }
    let format_str = crate::text::chars_to_string(&format_part);
    let parsed = OutputFormat::parse(format_str.as_str());
    let format = match parsed {
        Some(f) => f,
        None => {
            return Err(
                "output target format must be one of: cli, summary, gitlab, json".to_owned(),
            );
        },
    };
    let has_path = e < n;
    if !format.requires_path() {
        if has_path {
            let mut m = format.label();
            m.append(" output does not take a path");
            return Err(m);
        }
        return Ok(OutputTarget { format, path: None });
    }
    if !has_path {
        return Err(
            "output target must be FORMAT=PATH for formats that require a path: gitlab, json".to_owned(),
        );
    }
    let path_part = crate::text::subvec(&v, e + 1, n);
    proof {
        assert(path_part@ =~= v@.skip(e as int + 1));
    }
    if path_part.len() == 0 {
        return Err("output target path cannot be empty".to_owned());
    }
    let path_str = crate::text::chars_to_string(&path_part);
    Ok(OutputTarget { format, path: Some(path_str) })
}

/// The help text for the output option, built from the labels.
pub open spec fn output_help_spec() -> Seq<char> {
    "Output target(s); can be repeated or comma-separated [default: cli] [possible values: cli, summary, gitlab, json] [formats that do not take a path: cli, summary]"@
}

/// The help line for the output option.
pub fn output_help() -> (r: String)
    ensures
        r@ == output_help_spec(),
{
    "Output target(s); can be repeated or comma-separated [default: cli] [possible values: cli, summary, gitlab, json] [formats that do not take a path: cli, summary]".to_owned()
}

} // verus!
