//! Unified-diff parsing: a single forward pass over the diff text that
//! reconstructs, per file, the new-side line numbers touched by the patch.
//!
//! The parser is a line-by-line state machine.  Its behaviour is pinned down
//! by the spec-level model [`DiffModel`] and the transition function
//! [`diff_step`]; the executable parser is proved to compute exactly the fold
//! of that transition over the input lines.

use vstd::prelude::*;

use crate::text::{
    chars_eq_str, chars_to_string, is_ws, parse_u32_range, parse_u32_spec, starts_with,
    str_to_chars, subvec,
};

verus! {

/// One file touched by the diff that has a non-deleted new side: its path as
/// written in the `+++` marker (after the `b/` prefix is stripped) and the
/// new-side numbers of its added lines, in diff order, duplicates kept.
#[derive(Debug)]
pub struct ChangedFile {
    pub path: String,
    pub changed_lines: Vec<u32>,
}

/// A structural error in the diff text.
#[derive(Debug)]
pub enum DiffParseError {
    /// A hunk header whose range syntax cannot be parsed; carries the
    /// offending line.
    InvalidHunkHeader(String),
}

/// The state of the diff parser, at the specification level.
#[verifier::ext_equal]
pub struct DiffModel {
    /// Registered files, in arrival order: `(path, changed lines so far)`.
    pub files: Seq<(Seq<char>, Seq<u32>)>,
    /// Index into `files` of the file the upcoming hunks belong to, if any.
    pub current: Option<int>,
    /// Whether a hunk header has been seen for the current file and body
    /// lines are being consumed.
    pub in_hunk: bool,
    /// Old-side line counter.
    pub old_line: u32,
    /// New-side line counter.
    pub new_line: u32,
}

/// The parser state before any line is read.
pub open spec fn init_model() -> DiffModel {
    DiffModel {
        files: Seq::empty(),
        current: None,
        in_hunk: false,
        old_line: 0u32,
        new_line: 0u32,
    }
}

/// `+++ ` — the new-file marker prefix.
pub open spec fn marker_prefix() -> Seq<char> {
    seq!['+', '+', '+', ' ']
}

/// `/dev/null` — the sentinel path of a deleted file.
pub open spec fn dev_null_path() -> Seq<char> {
    seq!['/', 'd', 'e', 'v', '/', 'n', 'u', 'l', 'l']
}

/// `b/` — the conventional prefix of a new-side path.
pub open spec fn new_side_prefix() -> Seq<char> {
    seq!['b', '/']
}

/// `@@` — the hunk header prefix.
pub open spec fn hunk_prefix() -> Seq<char> {
    seq!['@', '@']
}

/// `@@ ` — the hunk header prefix a parseable header must carry.
pub open spec fn hunk_prefix_sp() -> Seq<char> {
    seq!['@', '@', ' ']
}

/// `+++` — three pluses, never counted as an added line.
pub open spec fn plus3() -> Seq<char> {
    seq!['+', '+', '+']
}

/// `---` — three minuses, never counted as a removed line.
pub open spec fn minus3() -> Seq<char> {
    seq!['-', '-', '-']
}

/// Increment that stops at `u32::MAX` instead of wrapping.
pub open spec fn sat_inc(x: u32) -> u32 {
    if x == u32::MAX {
        x
    } else {
        (x + 1) as u32
    }
}

/// First index `>= i` where the three characters ` @@` begin, or `s.len()`.
pub open spec fn find_tail_from(s: Seq<char>, i: int) -> int
    decreases s.len() - i,
{
    if i < 0 || i + 3 > s.len() {
        s.len() as int
    } else if s[i] == ' ' && s[i + 1] == '@' && s[i + 2] == '@' {
        i
    } else {
        find_tail_from(s, i + 1)
    }
}

/// First index `>= i` holding a non-whitespace character, or `s.len()`.
pub open spec fn skip_ws_from(s: Seq<char>, i: int) -> int
    decreases s.len() - i,
{
    if i < 0 || i >= s.len() || !is_ws(s[i]) {
        i
    } else {
        skip_ws_from(s, i + 1)
    }
}

/// First index `>= i` holding a whitespace character, or `s.len()`.
pub open spec fn token_end_from(s: Seq<char>, i: int) -> int
    decreases s.len() - i,
{
    if i < 0 || i >= s.len() || is_ws(s[i]) {
        i
    } else {
        token_end_from(s, i + 1)
    }
}

/// First index `>= i` holding a comma, or `s.len()`.
pub open spec fn find_comma_from(s: Seq<char>, i: int) -> int
    decreases s.len() - i,
{
    if i < 0 || i >= s.len() || s[i] == ',' {
        i
    } else {
        find_comma_from(s, i + 1)
    }
}

/// What parsing a range token `±start[,count]` yields.  The `count` defaults
/// to 1 when the comma is absent; a second comma and anything after it are
/// ignored.  A zero `start` is only legal together with a zero `count`.
pub open spec fn parse_range_spec(part: Seq<char>, prefix: char) -> Option<(u32, u32)> {
    if part.len() == 0 || part[0] != prefix {
        None
    } else {
        let rest = part.skip(1);
        let c1 = find_comma_from(rest, 0);
        let start_v = parse_u32_spec(rest.take(c1));
        let count_v = if c1 == rest.len() {
            Some(1u32)
        } else {
            let c2 = find_comma_from(rest, c1 + 1);
            parse_u32_spec(rest.subrange(c1 + 1, c2))
        };
        match (start_v, count_v) {
            (Some(s), Some(c)) => if s == 0 && c != 0 {
                None
            } else {
                Some((s, c))
            },
            _ => None,
        }
    }
}

/// What parsing a hunk header line yields: `(old_start, old_count,
/// new_start, new_count)`.  The header must begin `@@ `; everything from the
/// first ` @@` on is ignored; the two range tokens are the first two
/// whitespace-separated tokens of what remains.
pub open spec fn parse_hunk_header_spec(line: Seq<char>) -> Option<(u32, u32, u32, u32)> {
    if !starts_with(line, hunk_prefix_sp()) {
        None
    } else {
        let rest = line.skip(3);
        let body = rest.take(find_tail_from(rest, 0));
        let i1 = skip_ws_from(body, 0);
        let j1 = token_end_from(body, i1);
        let i2 = skip_ws_from(body, j1);
        let j2 = token_end_from(body, i2);
        if i1 == j1 || i2 == j2 {
            None
        } else {
            match parse_range_spec(body.subrange(i1, j1), '-') {
                None => None,
                Some((os, oc)) => match parse_range_spec(body.subrange(i2, j2), '+') {
                    None => None,
                    Some((ns, nc)) => Some((os, oc, ns, nc)),
                },
            }
        }
    }
}

/// First index `>= i` of a file registered under `path`, or `files.len()`.
pub open spec fn path_index_from(
    files: Seq<(Seq<char>, Seq<u32>)>,
    path: Seq<char>,
    i: int,
) -> int
    decreases files.len() - i,
{
    if i < 0 || i >= files.len() {
        files.len() as int
    } else if files[i].0 == path {
        i
    } else {
        path_index_from(files, path, i + 1)
    }
}

/// Whether some file is registered under `path`.
pub open spec fn has_path(files: Seq<(Seq<char>, Seq<u32>)>, path: Seq<char>) -> bool {
    path_index_from(files, path, 0) < files.len()
}

/// Effect of a `+++ <path>` marker line.
pub open spec fn step_marker(m: DiffModel, line: Seq<char>) -> DiffModel {
    let p = line.skip(4);
    if p == dev_null_path() {
        DiffModel { current: None, ..m }
    } else {
        let norm = if starts_with(p, new_side_prefix()) {
            p.skip(2)
        } else {
            p
        };
        let files1 = if has_path(m.files, norm) {
            m.files
        } else {
            m.files.push((norm, Seq::empty()))
        };
        DiffModel {
            files: files1,
            current: Some(path_index_from(files1, norm, 0)),
            in_hunk: false,
            ..m
        }
    }
}

/// Effect of a line starting `@@`: a new hunk opens, or the header is
/// rejected; without an active file the hunk is ignored.
pub open spec fn step_hunk_header(m: DiffModel, line: Seq<char>) -> Result<DiffModel, ()> {
    if m.current is None {
        Ok(DiffModel { in_hunk: false, ..m })
    } else {
        match parse_hunk_header_spec(line) {
            None => Err(()),
            Some((os, oc, ns, nc)) => Ok(
                DiffModel { old_line: os, new_line: ns, in_hunk: true, ..m },
            ),
        }
    }
}

/// Effect of a hunk body line, assuming `m.in_hunk` and an active file at
/// index `i`.
pub open spec fn step_body(m: DiffModel, i: int, line: Seq<char>) -> DiffModel {
    if line.len() > 0 && line[0] == '+' && !starts_with(line, plus3()) {
        DiffModel {
            files: m.files.update(i, (m.files[i].0, m.files[i].1.push(m.new_line))),
            new_line: sat_inc(m.new_line),
            ..m
        }
    } else if line.len() > 0 && line[0] == '-' && !starts_with(line, minus3()) {
        DiffModel { old_line: sat_inc(m.old_line), ..m }
    } else if line.len() > 0 && line[0] == ' ' {
        DiffModel { old_line: sat_inc(m.old_line), new_line: sat_inc(m.new_line), ..m }
    } else {
        m
    }
}

/// The parser's transition on one input line.
pub open spec fn diff_step(m: DiffModel, line: Seq<char>) -> Result<DiffModel, ()> {
    if starts_with(line, marker_prefix()) {
        Ok(step_marker(m, line))
    } else if starts_with(line, hunk_prefix()) {
        step_hunk_header(m, line)
    } else {
        match m.current {
            Some(i) => if m.in_hunk {
                Ok(step_body(m, i, line))
            } else {
                Ok(m)
            },
            None => Ok(m),
        }
    }
}

/// The state after the first `k` lines; `Err(j)` when line `j` was a
/// malformed hunk header.
pub open spec fn run_steps(lines: Seq<Seq<char>>, k: int) -> Result<DiffModel, int>
    decreases k,
{
    if k <= 0 {
        Ok(init_model())
    } else {
        match run_steps(lines, k - 1) {
            Err(j) => Err(j),
            Ok(m) => match diff_step(m, lines[k - 1]) {
                Ok(m2) => Ok(m2),
                Err(e) => Err(k - 1),
            },
        }
    }
}

/// What parsing the whole diff yields: the registered files in arrival
/// order, or the index of the offending line.
pub open spec fn diff_result_spec(lines: Seq<Seq<char>>) -> Result<
    Seq<(Seq<char>, Seq<u32>)>,
    int,
> {
    match run_steps(lines, lines.len() as int) {
        Ok(m) => Ok(m.files),
        Err(j) => Err(j),
    }
}

/// The view of an executable changed-file record.
pub open spec fn file_view(cf: ChangedFile) -> (Seq<char>, Seq<u32>) {
    (cf.path@, cf.changed_lines@)
}

/// The view of an executable changed-file list.
pub open spec fn files_view(files: Seq<ChangedFile>) -> Seq<(Seq<char>, Seq<u32>)> {
    files.map_values(|cf: ChangedFile| file_view(cf))
}

// ---------------------------------------------------------------------------
// Executable scanning helpers, each the exact mirror of its spec function.
// ---------------------------------------------------------------------------
fn find_tail_exec(v: &Vec<char>, i: usize) -> (r: usize)
    requires
        i <= v@.len(),
    ensures
        r == find_tail_from(v@, i as int),
        i <= r <= v@.len(),
    decreases v@.len() - i,
{
    if v.len() < 3 || i > v.len() - 3 {
        v.len()
    } else if v[i] == ' ' && v[i + 1] == '@' && v[i + 2] == '@' {
        i
    } else {
        find_tail_exec(v, i + 1)
    }
}

fn skip_ws_exec(v: &Vec<char>, i: usize) -> (r: usize)
    requires
        i <= v@.len(),
    ensures
        r == skip_ws_from(v@, i as int),
        i <= r <= v@.len(),
    decreases v@.len() - i,
{
    if i >= v.len() {
        i
    } else {
        let c = v[i];
        if c == ' ' || c == '\t' || c == '\n' || c == '\r' || c == '\u{b}' || c == '\u{c}' {
            skip_ws_exec(v, i + 1)
        } else {
            i
        }
    }
}

fn token_end_exec(v: &Vec<char>, i: usize) -> (r: usize)
    requires
        i <= v@.len(),
    ensures
        r == token_end_from(v@, i as int),
        i <= r <= v@.len(),
    decreases v@.len() - i,
{
    if i >= v.len() {
        i
    } else {
        let c = v[i];
        if c == ' ' || c == '\t' || c == '\n' || c == '\r' || c == '\u{b}' || c == '\u{c}' {
            i
        } else {
            token_end_exec(v, i + 1)
        }
    }
}

fn find_comma_exec(v: &Vec<char>, i: usize) -> (r: usize)
    requires
        i <= v@.len(),
    ensures
        r == find_comma_from(v@, i as int),
        i <= r <= v@.len(),
    decreases v@.len() - i,
{
    if i >= v.len() {
        i
    } else if v[i] == ',' {
        i
    } else {
        find_comma_exec(v, i + 1)
    }
}

/// Parses one `±start[,count]` range token, exactly as
/// [`parse_range_spec`] describes.
pub fn parse_range(part: &str, prefix: char) -> (r: Option<(u32, u32)>)
    ensures
        r == parse_range_spec(part@, prefix),
{
    let v = str_to_chars(part);
    parse_range_chars(&v, prefix)
}

fn parse_range_chars(part: &Vec<char>, prefix: char) -> (r: Option<(u32, u32)>)
    ensures
        r == parse_range_spec(part@, prefix),
{
    if part.len() == 0 {
        return None;
    }
    if part[0] != prefix {
        return None;
    }
    let rest = subvec(part, 1, part.len());
    proof {
        assert(rest@ =~= part@.skip(1));
    }
    let c1 = find_comma_exec(&rest, 0);
    let start_v = parse_u32_range(&rest, 0, c1);
    proof {
        assert(rest@.subrange(0, c1 as int) =~= rest@.take(c1 as int));
    }
    let count_v: Option<u32> = if c1 == rest.len() {
        Some(1u32)
    } else {
        let c2 = find_comma_exec(&rest, c1 + 1);
        parse_u32_range(&rest, c1 + 1, c2)
    };
    match (start_v, count_v) {
        (Some(s), Some(c)) => if s == 0 && c != 0 {
            None
        } else {
            Some((s, c))
        },
        _ => None,
    }
}

/// Parses a hunk header line, exactly as [`parse_hunk_header_spec`]
/// describes.
pub fn parse_hunk_header(line: &str) -> (r: Option<(u32, u32, u32, u32)>)
    ensures
        r == parse_hunk_header_spec(line@),
{
    let v = str_to_chars(line);
    parse_hunk_header_chars(&v)
}

fn parse_hunk_header_chars(line: &Vec<char>) -> (r: Option<(u32, u32, u32, u32)>)
    ensures
        r == parse_hunk_header_spec(line@),
{
    let has_prefix = line.len() >= 3 && line[0] == '@' && line[1] == '@' && line[2] == ' ';
    proof {
        if has_prefix {
            assert(line@.take(3) =~= hunk_prefix_sp());
        }
        if starts_with(line@, hunk_prefix_sp()) {
            assert(line@[0] == line@.take(3)[0]);
            assert(line@[1] == line@.take(3)[1]);
            assert(line@[2] == line@.take(3)[2]);
        }
    }
    if !has_prefix {
        return None;
    }
    let rest = subvec(line, 3, line.len());
    proof {
        assert(rest@ =~= line@.skip(3));
    }
    let t = find_tail_exec(&rest, 0);
    let body = subvec(&rest, 0, t);
    proof {
        assert(body@ =~= rest@.take(find_tail_from(rest@, 0)));
    }
    let i1 = skip_ws_exec(&body, 0);
    let j1 = token_end_exec(&body, i1);
    let i2 = skip_ws_exec(&body, j1);
    let j2 = token_end_exec(&body, i2);
    if i1 == j1 || i2 == j2 {
        return None;
    }
    let tok1 = subvec(&body, i1, j1);
    let tok2 = subvec(&body, i2, j2);
    match parse_range_chars(&tok1, '-') {
        None => None,
        Some((os, oc)) => match parse_range_chars(&tok2, '+') {
            None => None,
            Some((ns, nc)) => Some((os, oc, ns, nc)),
        },
    }
}

// ---------------------------------------------------------------------------
// The parser state machine.
// ---------------------------------------------------------------------------
struct DiffState {
    files: Vec<ChangedFile>,
    current: Option<usize>,
    in_hunk: bool,
    old_line: u32,
    new_line: u32,
}

impl DiffState {
    spec fn model(self) -> DiffModel {
        DiffModel {
            files: files_view(self.files@),
            current: match self.current {
                Some(i) => Some(i as int),
                None => None,
            },
            in_hunk: self.in_hunk,
            old_line: self.old_line,
            new_line: self.new_line,
        }
    }

    spec fn wf(self) -> bool {
        match self.current {
            Some(i) => i < self.files@.len(),
            None => true,
        }
    }
}

/// First index `>= i` of a registered file whose path is `path`.
fn find_path_from(files: &Vec<ChangedFile>, path: &Vec<char>, i: usize) -> (r: usize)
    requires
        i <= files@.len(),
    ensures
        r == path_index_from(files_view(files@), path@, i as int),
        i <= r <= files@.len(),
    decreases files@.len() - i,
{
    proof {
        assert(files_view(files@).len() == files@.len());
    }
    if i >= files.len() {
        files.len()
    } else {
        proof {
            assert(files_view(files@)[i as int] == file_view(files@[i as int]));
        }
        if chars_eq_str(path, files[i].path.as_str()) {
            i
        } else {
            find_path_from(files, path, i + 1)
        }
    }
}

proof fn lemma_path_index_push_from(
    files: Seq<(Seq<char>, Seq<u32>)>,
    p: Seq<char>,
    e: (Seq<char>, Seq<u32>),
    i: int,
)
    requires
        0 <= i <= files.len(),
        path_index_from(files, p, i) == files.len(),
        e.0 == p,
    ensures
        path_index_from(files.push(e), p, i) == files.len(),
    decreases files.len() - i,
{
    if i == files.len() {
        assert(files.push(e)[i] == e);
    } else {
        assert(files[i].0 != p);
        assert(files.push(e)[i] == files[i]);
        lemma_path_index_push_from(files, p, e, i + 1);
    }
}

fn marker_test(line: &Vec<char>) -> (r: bool)
    ensures
        r == starts_with(line@, marker_prefix()),
{
    let r = line.len() >= 4 && line[0] == '+' && line[1] == '+' && line[2] == '+' && line[3]
        == ' ';
    proof {
        if r {
            assert(line@.take(4) =~= marker_prefix());
        }
        if starts_with(line@, marker_prefix()) {
            assert(line@[0] == line@.take(4)[0]);
            assert(line@[1] == line@.take(4)[1]);
            assert(line@[2] == line@.take(4)[2]);
            assert(line@[3] == line@.take(4)[3]);
        }
    }
    r
}

fn hunk_test(line: &Vec<char>) -> (r: bool)
    ensures
        r == starts_with(line@, hunk_prefix()),
{
    let r = line.len() >= 2 && line[0] == '@' && line[1] == '@';
    proof {
        if r {
            assert(line@.take(2) =~= hunk_prefix());
        }
        if starts_with(line@, hunk_prefix()) {
            assert(line@[0] == line@.take(2)[0]);
            assert(line@[1] == line@.take(2)[1]);
        }
    }
    r
}

fn plus3_test(line: &Vec<char>) -> (r: bool)
    ensures
        r == starts_with(line@, plus3()),
{
    let r = line.len() >= 3 && line[0] == '+' && line[1] == '+' && line[2] == '+';
    proof {
        if r {
            assert(line@.take(3) =~= plus3());
        }
        if starts_with(line@, plus3()) {
            assert(line@[0] == line@.take(3)[0]);
            assert(line@[1] == line@.take(3)[1]);
            assert(line@[2] == line@.take(3)[2]);
        }
    }
    r
}

fn minus3_test(line: &Vec<char>) -> (r: bool)
    ensures
        r == starts_with(line@, minus3()),
{
    let r = line.len() >= 3 && line[0] == '-' && line[1] == '-' && line[2] == '-';
    proof {
        if r {
            assert(line@.take(3) =~= minus3());
        }
        if starts_with(line@, minus3()) {
            assert(line@[0] == line@.take(3)[0]);
            assert(line@[1] == line@.take(3)[1]);
            assert(line@[2] == line@.take(3)[2]);
        }
    }
    r
}

/// Whether the path after a `+++ ` marker is the deletion sentinel.
fn dev_null_test(line: &Vec<char>) -> (r: bool)
    requires
        line@.len() >= 4,
    ensures
        r == (line@.skip(4) == dev_null_path()),
{
    let r = line.len() == 13 && line[4] == '/' && line[5] == 'd' && line[6] == 'e' && line[7]
        == 'v' && line[8] == '/' && line[9] == 'n' && line[10] == 'u' && line[11] == 'l'
        && line[12] == 'l';
    proof {
        if r {
            assert(line@.skip(4) =~= dev_null_path());
        }
        if line@.skip(4) == dev_null_path() {
            assert(line@.skip(4).len() == 9);
            assert(forall|k: int| 0 <= k < 9 ==> line@.skip(4)[k] == #[trigger] dev_null_path()[k]);
            assert(line@[4] == line@.skip(4)[0]);
            assert(line@[5] == line@.skip(4)[1]);
            assert(line@[6] == line@.skip(4)[2]);
            assert(line@[7] == line@.skip(4)[3]);
            assert(line@[8] == line@.skip(4)[4]);
            assert(line@[9] == line@.skip(4)[5]);
            assert(line@[10] == line@.skip(4)[6]);
            assert(line@[11] == line@.skip(4)[7]);
            assert(line@[12] == line@.skip(4)[8]);
        }
    }
    r
}

/// Whether the path after a `+++ ` marker starts with `b/`.
fn bslash_test(line: &Vec<char>) -> (r: bool)
    requires
        line@.len() >= 4,
    ensures
        r == starts_with(line@.skip(4), new_side_prefix()),
{
    let r = line.len() >= 6 && line[4] == 'b' && line[5] == '/';
    proof {
        let p = line@.skip(4);
        if r {
            assert(p.take(2) =~= new_side_prefix());
        }
        if starts_with(p, new_side_prefix()) {
            assert(p[0] == p.take(2)[0]);
            assert(p[1] == p.take(2)[1]);
            assert(line@[4] == p[0]);
            assert(line@[5] == p[1]);
        }
    }
    r
}

/// Runs the parser's transition for one line on the executable state.
fn diff_step_exec(st: &mut DiffState, line: &Vec<char>) -> (r: Result<(), DiffParseError>)
    requires
        old(st).wf(),
    ensures
        final(st).wf(),
        match r {
            Ok(_) => diff_step(old(st).model(), line@) == Ok::<DiffModel, ()>(final(st).model()),
            Err(e) => {
                &&& diff_step(old(st).model(), line@) is Err
                &&& e matches DiffParseError::InvalidHunkHeader(l) && l@ == line@
            },
        },
{
    if marker_test(line) {
        if dev_null_test(line) {
            st.current = None;
            return Ok(());
        }
        let pstart: usize = if bslash_test(line) {
            6
        } else {
            4
        };
        let norm = subvec(line, pstart, line.len());
        proof {
            let p = line@.skip(4);
            if starts_with(p, new_side_prefix()) {
                assert(norm@ =~= p.skip(2));
            } else {
                assert(norm@ =~= p);
            }
        }
        let idx = find_path_from(&st.files, &norm, 0);
        if idx < st.files.len() {
            st.current = Some(idx);
            st.in_hunk = false;
            return Ok(());
        }
        let path_s = chars_to_string(&norm);
        let lines_empty: Vec<u32> = Vec::new();
        proof {
            assert(!has_path(files_view(st.files@), norm@));
            lemma_path_index_push_from(
                files_view(st.files@),
                norm@,
                (norm@, Seq::empty()),
                0,
            );
        }
        st.files.push(ChangedFile { path: path_s, changed_lines: lines_empty });
        let idx2 = st.files.len() - 1;
        st.current = Some(idx2);
        st.in_hunk = false;
        proof {
            assert(files_view(st.files@) =~= files_view(old(st).files@).push(
                (norm@, Seq::empty()),
            ));
        }
        return Ok(());
    }
    if hunk_test(line) {
        if st.current.is_none() {
            st.in_hunk = false;
            return Ok(());
        }
        match parse_hunk_header_chars(line) {
            None => {
                return Err(DiffParseError::InvalidHunkHeader(chars_to_string(line)));
            },
            Some((os, oc, ns, nc)) => {
                st.old_line = os;
                st.new_line = ns;
                st.in_hunk = true;
                return Ok(());
            },
        }
    }
    if st.in_hunk {
        let cur = st.current;
        if let Some(i) = cur {
            if line.len() > 0 {
                let c0 = line[0];
                if c0 == '+' && !plus3_test(line) {
                    let nl = st.new_line;
                    st.files[i].changed_lines.push(nl);
                    st.new_line = if nl == u32::MAX {
                        nl
                    } else {
                        nl + 1
                    };
                    proof {
                        let m = old(st).model();
                        assert(files_view(st.files@) =~= m.files.update(
                            i as int,
                            (m.files[i as int].0, m.files[i as int].1.push(nl)),
                        ));
                    }
                    return Ok(());
                }
                if c0 == '-' && !minus3_test(line) {
                    let ol = st.old_line;
                    st.old_line = if ol == u32::MAX {
                        ol
                    } else {
                        ol + 1
                    };
                    return Ok(());
                }
                if c0 == ' ' {
                    let ol = st.old_line;
                    st.old_line = if ol == u32::MAX {
                        ol
                    } else {
                        ol + 1
                    };
                    let nl = st.new_line;
                    st.new_line = if nl == u32::MAX {
                        nl
                    } else {
                        nl + 1
                    };
                    return Ok(());
                }
            }
            return Ok(());
        }
    }
    Ok(())
}

proof fn lemma_run_steps_err(lines: Seq<Seq<char>>, j: int, n: int)
    requires
        run_steps(lines, j) is Err,
        j <= n,
    ensures
        run_steps(lines, n) == run_steps(lines, j),
    decreases n - j,
{
    if j < n {
        lemma_run_steps_err(lines, j, n - 1);
    }
}

/// Parses unified-diff text, given line by line, into the ordered list of
/// changed files — exactly the fold of [`diff_step`] over the lines, as
/// [`diff_result_spec`] describes.  On a malformed hunk header the error
/// carries that line and nothing is returned.
pub fn parse_unified_diff(lines: &Vec<String>) -> (r: Result<Vec<ChangedFile>, DiffParseError>)
    ensures
        match r {
            Ok(files) => diff_result_spec(lines.deep_view()) == Ok::<_, int>(
                files_view(files@),
            ),
            Err(e) => {
                &&& diff_result_spec(lines.deep_view()) is Err
                &&& e matches DiffParseError::InvalidHunkHeader(l) && l@ == lines.deep_view()[
                    diff_result_spec(lines.deep_view())->Err_0
                ]
            },
        },
{
    let ghost ld = lines.deep_view();
    let mut st = DiffState {
        files: Vec::new(),
        current: None,
        in_hunk: false,
        old_line: 0u32,
        new_line: 0u32,
    };
    proof {
        assert(st.model() =~= init_model());
        assert(files_view(st.files@) =~= Seq::<(Seq<char>, Seq<u32>)>::empty());
    }
    let n = lines.len();
    let mut k: usize = 0;
    while k < n
        invariant
            n == lines@.len(),
            ld == lines.deep_view(),
            k <= n,
            st.wf(),
            run_steps(ld, k as int) == Ok::<DiffModel, int>(st.model()),
        decreases n - k,
    {
        let v = str_to_chars(lines[k].as_str());
        proof {
            assert(v@ == ld[k as int]);
        }
        let res = diff_step_exec(&mut st, &v);
        match res {
            Ok(_) => {},
            Err(e) => {
                proof {
                    assert(run_steps(ld, k + 1) == Err::<DiffModel, int>(k as int));
                    lemma_run_steps_err(ld, k + 1, ld.len() as int);
                }
                return Err(e);
            },
        }
        k = k + 1;
    }
    Ok(st.files)
}

/// The state after folding the transition over a run of lines from `m`.
pub open spec fn steps_from(m: DiffModel, ls: Seq<Seq<char>>) -> Result<DiffModel, ()>
    decreases ls.len(),
{
    if ls.len() == 0 {
        Ok(m)
    } else {
        match diff_step(m, ls[0]) {
            Err(e) => Err(e),
            Ok(m1) => steps_from(m1, ls.drop_first()),
        }
    }
}

/// Every line of `ls` is an added line: it starts with `+` but not `+++`.
pub open spec fn all_added_lines(ls: Seq<Seq<char>>) -> bool {
    forall|t: int|
        0 <= t < ls.len() ==> (#[trigger] ls[t]).len() > 0 && ls[t][0] == '+' && !starts_with(
            ls[t],
            plus3(),
        )
}

/// Deletion: a `+++ /dev/null` marker clears the active file and registers
/// nothing.
pub proof fn lemma_dev_null_registers_nothing(m: DiffModel, line: Seq<char>)
    requires
        starts_with(line, marker_prefix()),
        line.skip(4) == dev_null_path(),
    ensures
        diff_step(m, line) == Ok::<DiffModel, ()>(DiffModel { current: None, ..m }),
{
}

/// While no file is active, no line but a new-file marker can register a
/// file or record a line: whatever follows a deleted file's marker is
/// attributed to no file at all.
pub proof fn lemma_no_current_keeps_files(m: DiffModel, line: Seq<char>)
    requires
        m.current is None,
        !starts_with(line, marker_prefix()),
    ensures
        diff_step(m, line) is Ok,
        (diff_step(m, line)->Ok_0).files == m.files,
        (diff_step(m, line)->Ok_0).current is None,
{
}

proof fn lemma_added_lines_record_run(m: DiffModel, ls: Seq<Seq<char>>, i: int)
    requires
        m.in_hunk,
        m.current == Some(i),
        0 <= i < m.files.len(),
        all_added_lines(ls),
        m.new_line + ls.len() <= u32::MAX,
    ensures
        steps_from(m, ls) is Ok,
        ({
            let m2 = steps_from(m, ls)->Ok_0;
            &&& m2.files.len() == m.files.len()
            &&& m2.files[i].0 == m.files[i].0
            &&& m2.files[i].1 == m.files[i].1 + Seq::new(
                ls.len(),
                |t: int| (m.new_line + t) as u32,
            )
            &&& forall|k: int|
                0 <= k < m.files.len() && k != i ==> (#[trigger] m2.files[k]) == m.files[k]
            &&& m2.in_hunk
            &&& m2.current == Some(i)
            &&& m2.new_line == m.new_line + ls.len()
        }),
    decreases ls.len(),
{
    if ls.len() == 0 {
        assert(m.files[i].1 + Seq::new(0, |t: int| (m.new_line + t) as u32) =~= m.files[i].1);
    } else {
        let line = ls[0];
        assert(line.len() > 0 && line[0] == '+' && !starts_with(line, plus3()));
        if starts_with(line, marker_prefix()) {
            assert(line.take(4) == marker_prefix());
            assert(line.take(3) =~= plus3()) by {
                assert(forall|t: int| 0 <= t < 3 ==> line.take(3)[t] == line.take(4)[t]);
            }
            assert(false);
        }
        if starts_with(line, hunk_prefix()) {
            assert(line[0] == line.take(2)[0]);
            assert(false);
        }
        let m1 = diff_step(m, line)->Ok_0;
        assert(m1 == step_body(m, i, line));
        assert(m1.new_line == m.new_line + 1);
        assert(all_added_lines(ls.drop_first())) by {
            assert(forall|t: int|
                0 <= t < ls.len() - 1 ==> (#[trigger] ls.drop_first()[t]) == ls[t + 1]);
        }
        lemma_added_lines_record_run(m1, ls.drop_first(), i);
        let m2 = steps_from(m1, ls.drop_first())->Ok_0;
        assert(steps_from(m, ls)->Ok_0 == m2);
        assert(m1.files[i].1 == m.files[i].1.push(m.new_line));
        assert(m2.files[i].1 == m1.files[i].1 + Seq::new(
            (ls.len() - 1) as nat,
            |t: int| (m1.new_line + t) as u32,
        ));
        assert(m2.files[i].1 == m.files[i].1 + Seq::new(
            ls.len(),
            |t: int| (m.new_line + t) as u32,
        )) by {
            assert(m.files[i].1.push(m.new_line) + Seq::new(
                (ls.len() - 1) as nat,
                |t: int| (m1.new_line + t) as u32,
            ) =~= m.files[i].1 + Seq::new(ls.len(), |t: int| (m.new_line + t) as u32));
        }
    }
}

/// Round trip on hunk headers: a hunk header `@@ -a,b +c,d @@` followed by
/// k added lines extends the active file's list by exactly the numbers
/// c, c+1, ..., c+k-1 — one for each `+` line actually present.
pub proof fn lemma_hunk_round_trip(
    m: DiffModel,
    header: Seq<char>,
    body: Seq<Seq<char>>,
    i: int,
)
    requires
        m.current == Some(i),
        0 <= i < m.files.len(),
        starts_with(header, hunk_prefix()),
        parse_hunk_header_spec(header) is Some,
        all_added_lines(body),
        (parse_hunk_header_spec(header)->Some_0).2 + body.len() <= u32::MAX,
    ensures
        steps_from(m, seq![header] + body) is Ok,
        ({
            let c = (parse_hunk_header_spec(header)->Some_0).2;
            let m2 = steps_from(m, seq![header] + body)->Ok_0;
            &&& m2.files.len() == m.files.len()
            &&& m2.files[i].0 == m.files[i].0
            &&& m2.files[i].1 == m.files[i].1 + Seq::new(body.len(), |t: int| (c + t) as u32)
            &&& forall|k: int|
                0 <= k < m.files.len() && k != i ==> (#[trigger] m2.files[k]) == m.files[k]
        }),
{
    let ls = seq![header] + body;
    assert(ls[0] == header);
    if starts_with(header, marker_prefix()) {
        assert(header[0] == header.take(4)[0]);
        assert(header[0] == header.take(2)[0]);
        assert(false);
    }
    let m1 = diff_step(m, header)->Ok_0;
    assert(m1.in_hunk && m1.current == Some(i));
    assert(m1.new_line == (parse_hunk_header_spec(header)->Some_0).2);
    assert(m1.files == m.files);
    assert(ls.drop_first() =~= body);
    lemma_added_lines_record_run(m1, body, i);
}

} // verus!
