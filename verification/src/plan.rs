//! The output plan: which reports to write, in what order, and where —
//! validated before any work is done.

use vstd::prelude::*;
use vstd::string::StringExecFns;

use crate::cli::{OutputFormat, OutputTarget, DEFAULT_OUTPUT_FORMAT};

verus! {

/// An error surfaced to the operator, with the exit code it maps to.
#[derive(Debug)]
pub struct AppError {
    pub message: String,
    pub exit_code: i32,
}

impl AppError {
    /// An error with the given message and exit code.
    pub fn new(message: String, exit_code: i32) -> (r: AppError)
        ensures
            r.message@ == message@,
            r.exit_code == exit_code,
    {
        AppError { message, exit_code }
    }

    /// A usage error: exit code 2.
    pub fn usage(message: String) -> (r: AppError)
        ensures
            r.message@ == message@,
            r.exit_code == 2,
    {
        AppError::new(message, 2)
    }
}

/// The views of a target list.
pub open spec fn targets_view(ts: Seq<OutputTarget>) -> Seq<(OutputFormat, Option<Seq<char>>)> {
    ts.map_values(
        |t: OutputTarget|
            (
                t.format,
                match t.path {
                    Some(p) => Some(p@),
                    None => None,
                },
            ),
    )
}

/// `--output <label> can only be provided once`.
pub open spec fn dup_output_msg(f: OutputFormat) -> Seq<char> {
    "--output "@ + f.label_spec() + " can only be provided once"@
}

/// `--output <label> does not accept a path`.
pub open spec fn no_accept_path_msg(f: OutputFormat) -> Seq<char> {
    "--output "@ + f.label_spec() + " does not accept a path"@
}

/// `--output <label> requires a path`.
pub open spec fn requires_path_msg(f: OutputFormat) -> Seq<char> {
    "--output "@ + f.label_spec() + " requires a path"@
}

/// The plan after the first `k` targets: the formats in request order and
/// the paths of the file-writing formats, or the first usage error.
pub open spec fn build_plan_prefix(ts: Seq<(OutputFormat, Option<Seq<char>>)>, k: int) -> Result<
    (Seq<OutputFormat>, Seq<(OutputFormat, Seq<char>)>),
    Seq<char>,
>
    decreases k,
{
    if k <= 0 {
        Ok((Seq::empty(), Seq::empty()))
    } else {
        match build_plan_prefix(ts, k - 1) {
            Err(m) => Err(m),
            Ok((ord, paths)) => {
                let f = ts[k - 1].0;
                let p = ts[k - 1].1;
                if ord.contains(f) {
                    Err(dup_output_msg(f))
                } else if !f.requires_path_spec() {
                    match p {
                        Some(_) => Err(no_accept_path_msg(f)),
                        None => Ok((ord.push(f), paths)),
                    }
                } else {
                    match p {
                        None => Err(requires_path_msg(f)),
                        Some(pp) => Ok((ord.push(f), paths.push((f, pp)))),
                    }
                }
            },
        }
    }
}

/// The whole plan: an empty request defaults to the CLI report.
pub open spec fn build_plan_spec(ts: Seq<(OutputFormat, Option<Seq<char>>)>) -> Result<
    (Seq<OutputFormat>, Seq<(OutputFormat, Seq<char>)>),
    Seq<char>,
> {
    match build_plan_prefix(ts, ts.len() as int) {
        Err(m) => Err(m),
        Ok((ord, paths)) => if ord.len() == 0 {
            Ok((seq![DEFAULT_OUTPUT_FORMAT], paths))
        } else {
            Ok((ord, paths))
        },
    }
}

/// The validated output plan.
#[derive(Debug)]
pub struct OutputPlan {
    order: Vec<OutputFormat>,
    paths: Vec<(OutputFormat, String)>,
}

/// First index `>= i` of a path recorded for `f`, or `ps.len()`.
pub open spec fn path_index_from(
    ps: Seq<(OutputFormat, Seq<char>)>,
    f: OutputFormat,
    i: int,
) -> int
    decreases ps.len() - i,
{
    if i < 0 || i >= ps.len() {
        ps.len() as int
    } else if ps[i].0 == f {
        i
    } else {
        path_index_from(ps, f, i + 1)
    }
}

impl OutputPlan {
    /// The formats to render, in order.
    pub closed spec fn order_view(self) -> Seq<OutputFormat> {
        self.order@
    }

    /// The output paths, one per file-writing format.
    pub closed spec fn paths_view(self) -> Seq<(OutputFormat, Seq<char>)> {
        self.paths@.map_values(|p: (OutputFormat, String)| (p.0, p.1@))
    }

    /// Whether some requested format writes to a file rather than the
    /// terminal.
    pub open spec fn wants_non_cli_spec(self) -> bool {
        exists|k: int|
            0 <= k < self.order_view().len() && (#[trigger] self.order_view()[k]).requires_path_spec()
    }

    /// Whether any requested output needs a file path.
    pub fn wants_non_cli(&self) -> (r: bool)
        ensures
            r == self.wants_non_cli_spec(),
    {
        let n = self.order.len();
        let mut k: usize = 0;
        while k < n
            invariant
                n == self.order@.len(),
                k <= n,
                forall|t: int| 0 <= t < k ==> !(#[trigger] self.order@[t]).requires_path_spec(),
            decreases n - k,
        {
            if self.order[k].requires_path() {
                proof {
                    assert(self.order_view()[k as int].requires_path_spec());
                }
                return true;
            }
            k = k + 1;
        }
        false
    }

    /// The formats to render, in request order.
    pub fn order(&self) -> (r: &Vec<OutputFormat>)
        ensures
            r@ == self.order_view(),
    {
        &self.order
    }

    /// The output path recorded for `format`, if any.
    pub fn path_for(&self, format: &OutputFormat) -> (r: Option<&String>)
        ensures
            ({
                let i = path_index_from(self.paths_view(), *format, 0);
                match r {
                    Some(p) => i < self.paths_view().len() && self.paths_view()[i].1 == p@,
                    None => i == self.paths_view().len(),
                }
            }),
    {
        self.path_for_from(format, 0)
    }

    fn path_for_from(&self, format: &OutputFormat, i: usize) -> (r: Option<&String>)
        requires
            i <= self.paths@.len(),
        ensures
            ({
                let j = path_index_from(self.paths_view(), *format, i as int);
                match r {
                    Some(p) => j < self.paths_view().len() && self.paths_view()[j].1 == p@,
                    None => j == self.paths_view().len(),
                }
            }),
        decreases self.paths@.len() - i,
    {
        proof {
            assert(self.paths_view().len() == self.paths@.len());
        }
        if i >= self.paths.len() {
            None
        } else {
            proof {
                assert(self.paths_view()[i as int] == (self.paths@[i as int].0, self.paths@[
                    i as int].1@));
            }
            if self.paths[i].0 == *format {
                Some(&self.paths[i].1)
            } else {
                self.path_for_from(format, i + 1)
            }
        }
    }
}

proof fn lemma_plan_err_propagates(ts: Seq<(OutputFormat, Option<Seq<char>>)>, j: int, n: int)
    requires
        0 <= j <= n,
        build_plan_prefix(ts, j) is Err,
    ensures
        build_plan_prefix(ts, n) == build_plan_prefix(ts, j),
    decreases n - j,
{
    if j < n {
        lemma_plan_err_propagates(ts, j, n - 1);
    }
}

/// Whether `order` already holds `f`.
fn order_contains(order: &Vec<OutputFormat>, f: OutputFormat) -> (r: bool)
    ensures
        r == order@.contains(f),
{
    let n = order.len();
    let mut k: usize = 0;
    while k < n
        invariant
            n == order@.len(),
            k <= n,
            forall|t: int| 0 <= t < k ==> order@[t] != f,
        decreases n - k,
    {
        if order[k] == f {
            return true;
        }
        k = k + 1;
    }
    false
}

/// Builds the output plan from the requested targets: each format at most
/// once, paths exactly for the formats that need them, the CLI report when
/// nothing was requested — exactly [`build_plan_spec`].
pub fn build_output_plan(output_targets: Vec<OutputTarget>) -> (r: Result<OutputPlan, AppError>)
    ensures
        ({
            match r {
                Ok(plan) => {
                    &&& build_plan_spec(targets_view(output_targets@)) is Ok
                    &&& plan.order_view() == build_plan_spec(targets_view(output_targets@))->Ok_0.0
                    &&& plan.paths_view() == build_plan_spec(targets_view(output_targets@))->Ok_0.1
                },
                Err(e) => {
                    &&& build_plan_spec(targets_view(output_targets@)) is Err
                    &&& e.message@ == build_plan_spec(targets_view(output_targets@))->Err_0
                    &&& e.exit_code == 2
                },
            }
        }),
{
    let ghost ts = targets_view(output_targets@);
    let mut order: Vec<OutputFormat> = Vec::new();
    let mut paths: Vec<(OutputFormat, String)> = Vec::new();
    let n = output_targets.len();
    let mut k: usize = 0;
    proof {
        assert(ts.len() == output_targets@.len());
        assert(build_plan_prefix(ts, 0) == Ok::<_, Seq<char>>((
            Seq::<OutputFormat>::empty(),
            Seq::<(OutputFormat, Seq<char>)>::empty(),
        )));
        assert(order@ =~= Seq::<OutputFormat>::empty());
        assert(paths@.map_values(|p: (OutputFormat, String)| (p.0, p.1@)) =~= Seq::<
            (OutputFormat, Seq<char>),
        >::empty());
    }
    while k < n
        invariant
            ts == targets_view(output_targets@),
            n == output_targets@.len(),
            k <= n,
            build_plan_prefix(ts, k as int) == Ok::<_, Seq<char>>((
                order@,
                paths@.map_values(|p: (OutputFormat, String)| (p.0, p.1@)),
            )),
        decreases n - k,
    {
        proof {
            assert(ts[k as int] == (
                output_targets@[k as int].format,
                match output_targets@[k as int].path {
                    Some(p) => Some(p@),
                    None => None,
                },
            ));
        }
        let target = &output_targets[k];
        let f = target.format;
        if order_contains(&order, f) {
            let mut m = "--output ".to_owned();
            let lab = f.label();
            m.append(lab.as_str());
            m.append(" can only be provided once");
            proof {
                assert(build_plan_prefix(ts, k + 1) == Err::<
                    (Seq<OutputFormat>, Seq<(OutputFormat, Seq<char>)>),
                    Seq<char>,
                >(dup_output_msg(f)));
                lemma_plan_err_propagates(ts, k + 1, ts.len() as int);
            }
            return Err(AppError::usage(m));
        }
        if !f.requires_path() {
            match &target.path {
                Some(_) => {
                    let mut m = "--output ".to_owned();
                    let lab = f.label();
                    m.append(lab.as_str());
                    m.append(" does not accept a path");
                    proof {
                        assert(build_plan_prefix(ts, k + 1) == Err::<
                            (Seq<OutputFormat>, Seq<(OutputFormat, Seq<char>)>),
                            Seq<char>,
                        >(no_accept_path_msg(f)));
                        lemma_plan_err_propagates(ts, k + 1, ts.len() as int);
                    }
                    return Err(AppError::usage(m));
                },
                None => {},
            }
        } else {
            match &target.path {
                None => {
                    let mut m = "--output ".to_owned();
                    let lab = f.label();
                    m.append(lab.as_str());
                    m.append(" requires a path");
                    proof {
                        assert(build_plan_prefix(ts, k + 1) == Err::<
                            (Seq<OutputFormat>, Seq<(OutputFormat, Seq<char>)>),
                            Seq<char>,
                        >(requires_path_msg(f)));
                        lemma_plan_err_propagates(ts, k + 1, ts.len() as int);
                    }
                    return Err(AppError::usage(m));
                },
                Some(p) => {
                    paths.push((f, p.clone()));
                },
            }
        }
        order.push(f);
        proof {
            let pv = paths@.map_values(|p: (OutputFormat, String)| (p.0, p.1@));
            match build_plan_prefix(ts, k + 1) {
                Ok((o2, p2)) => {
                    assert(order@ =~= o2);
                    assert(pv =~= p2);
                },
                Err(_) => {
                    assert(false);
                },
            }
        }
        k = k + 1;
    }
    if order.len() == 0 {
        order.push(DEFAULT_OUTPUT_FORMAT);
        proof {
            assert(order@ =~= seq![DEFAULT_OUTPUT_FORMAT]);
        }
    }
    Ok(OutputPlan { order, paths })
}

/// The message when file-writing outputs are requested without inputs.
pub open spec fn output_inputs_msg() -> Seq<char> {
    "--output requires both --diff-file and at least one coverage path"@
}

/// A plan that writes report files is only valid when both a diff file and
/// at least one coverage path were given; the error says so, exactly when
/// that fails.
pub fn validate_output_requirements(
    output_plan: &OutputPlan,
    has_diff_file: bool,
    has_coverage_files: bool,
) -> (r: Result<(), AppError>)
    ensures
        (r is Err) == (output_plan.wants_non_cli_spec() && (!has_diff_file || !has_coverage_files)),
        r matches Err(e) ==> e.message@ == output_inputs_msg() && e.exit_code == 2,
{
    if output_plan.wants_non_cli() && (!has_diff_file || !has_coverage_files) {
        return Err(
            AppError::usage(
                "--output requires both --diff-file and at least one coverage path".to_owned(),
            ),
        );
    }
    Ok(())
}

} // verus!
