//! The matching and aggregation step: joining the changed lines of a diff
//! against the coverage store, under a configurable policy for files that
//! the coverage reports do not mention.
//!
//! The whole computation is modelled by the fold [`analyze_prefix`]; the
//! executable analyzer is proved to compute exactly that fold, or to stop
//! with the store's ambiguity error at the first ambiguous file.

use vstd::prelude::*;

use crate::diff::{file_view, files_view, ChangedFile};
use crate::paths::{normal_path, normalize_path};
use crate::store::{
    copy_lines, cov_wf, has_key, key_index_from, lemma_sorted_set_unique, lex_sorted_strict,
    normal_of, sort_and_dedup, strictly_sorted, strings_view, suffix_match_keys, CovView,
    CoverageLookupError, CoverageStore,
};

verus! {

/// Aggregated coverage of all changed lines: global totals and, per file
/// with at least one uncovered line, the ascending list of those lines.
#[derive(Debug)]
pub struct CoverageReport {
    pub total_changed: usize,
    pub total_covered: usize,
    pub uncovered_files: Vec<UncoveredFile>,
}

/// One file with uncovered changed lines.
#[derive(Debug)]
pub struct UncoveredFile {
    pub path: String,
    pub uncovered_lines: Vec<u32>,
    pub covered_lines: usize,
    pub changed_lines: usize,
}

/// The view of one uncovered-file record: path, uncovered lines, covered
/// count, changed count.
pub open spec fn uncovered_view(u: UncoveredFile) -> (Seq<char>, Seq<u32>, int, int) {
    (u.path@, u.uncovered_lines@, u.covered_lines as int, u.changed_lines as int)
}

/// `x` placed into the strictly sorted sequence `s`, without duplication.
pub open spec fn insert_sorted(s: Seq<u32>, x: u32) -> Seq<u32>
    decreases s.len(),
{
    if s.len() == 0 {
        seq![x]
    } else if x < s[0] {
        seq![x] + s
    } else if x == s[0] {
        s
    } else {
        seq![s[0]] + insert_sorted(s.drop_first(), x)
    }
}

/// The canonical ascending, duplicate-free form of a line list.
pub open spec fn sorted_dedup(v: Seq<u32>) -> Seq<u32>
    decreases v.len(),
{
    if v.len() == 0 {
        Seq::empty()
    } else {
        insert_sorted(sorted_dedup(v.drop_first()), v[0])
    }
}

pub proof fn lemma_insert_sorted_props(s: Seq<u32>, x: u32)
    requires
        strictly_sorted(s),
    ensures
        strictly_sorted(insert_sorted(s, x)),
        insert_sorted(s, x).to_set() == s.to_set().insert(x),
    decreases s.len(),
{
    let r = insert_sorted(s, x);
    if s.len() == 0 {
        assert(r =~= seq![x]);
        assert forall|y: u32| r.contains(y) implies s.to_set().insert(x).contains(y) by {}
        assert(r.to_set() =~= s.to_set().insert(x)) by {
            assert(r.contains(x));
            assert(forall|y: u32| #[trigger] r.contains(y) ==> y == x);
        }
    } else if x < s[0] {
        let r2 = seq![x] + s;
        assert(r == r2);
        assert(strictly_sorted(r2)) by {
            assert(forall|j: int| 1 <= j < r2.len() ==> #[trigger] r2[j] == s[j - 1]);
            assert(forall|j: int| 1 <= j < r2.len() ==> s[0] <= #[trigger] s[j - 1]);
        }
        assert(r2.to_set() =~= s.to_set().insert(x)) by {
            assert forall|y: u32| r2.contains(y) implies s.to_set().insert(x).contains(y) by {
                let j = choose|j: int| 0 <= j < r2.len() && r2[j] == y;
                if j > 0 {
                    assert(s[j - 1] == y);
                }
            }
            assert forall|y: u32| s.to_set().insert(x).contains(y) implies r2.contains(y) by {
                if s.contains(y) {
                    let j = choose|j: int| 0 <= j < s.len() && s[j] == y;
                    assert(r2[j + 1] == y);
                } else {
                    assert(r2[0] == y);
                }
            }
        }
    } else if x == s[0] {
        assert(s.contains(x));
        assert(r.to_set() =~= s.to_set().insert(x));
    } else {
        let t = s.drop_first();
        assert(strictly_sorted(t)) by {
            assert(forall|i: int, j: int|
                0 <= i < j < t.len() ==> t[i] == s[i + 1] && t[j] == s[j + 1]);
        }
        lemma_insert_sorted_props(t, x);
        let rt = insert_sorted(t, x);
        let r2 = seq![s[0]] + rt;
        assert(r == r2);
        assert forall|y: u32| rt.contains(y) implies y > s[0] by {
            assert(rt.to_set().contains(y));
            if t.contains(y) {
                let j = choose|j: int| 0 <= j < t.len() && t[j] == y;
                assert(s[j + 1] == y);
            }
        }
        assert(strictly_sorted(r2)) by {
            assert(forall|j: int| 1 <= j < r2.len() ==> #[trigger] r2[j] == rt[j - 1]);
            assert(forall|j: int| 1 <= j < r2.len() ==> rt.contains(#[trigger] rt[j - 1]));
            assert(forall|i: int, j: int|
                1 <= i < j < r2.len() ==> #[trigger] rt[i - 1] < #[trigger] rt[j - 1]);
        }
        assert(r2.to_set() =~= s.to_set().insert(x)) by {
            assert forall|y: u32| r2.contains(y) implies s.to_set().insert(x).contains(y) by {
                let j = choose|j: int| 0 <= j < r2.len() && r2[j] == y;
                if j == 0 {
                    assert(s[0] == y);
                } else {
                    assert(rt[j - 1] == y);
                    assert(rt.contains(y));
                    assert(rt.to_set().contains(y));
                    if t.contains(y) {
                        let k = choose|k: int| 0 <= k < t.len() && t[k] == y;
                        assert(s[k + 1] == y);
                    }
                }
            }
            assert forall|y: u32| s.to_set().insert(x).contains(y) implies r2.contains(y) by {
                if s.contains(y) {
                    let j = choose|j: int| 0 <= j < s.len() && s[j] == y;
                    if j == 0 {
                        assert(r2[0] == y);
                    } else {
                        assert(t[j - 1] == y);
                        assert(rt.to_set().contains(y));
                        assert(rt.contains(y));
                        let k = choose|k: int| 0 <= k < rt.len() && rt[k] == y;
                        assert(r2[k + 1] == y);
                    }
                } else {
                    assert(rt.to_set().contains(x));
                    assert(rt.contains(x));
                    let k = choose|k: int| 0 <= k < rt.len() && rt[k] == x;
                    assert(r2[k + 1] == y);
                }
            }
        }
    }
}

pub proof fn lemma_sorted_dedup_props(v: Seq<u32>)
    ensures
        strictly_sorted(sorted_dedup(v)),
        sorted_dedup(v).to_set() == v.to_set(),
    decreases v.len(),
{
    if v.len() == 0 {
        assert(sorted_dedup(v).to_set() =~= v.to_set()) by {
            assert(forall|y: u32| !(#[trigger] Seq::<u32>::empty().contains(y)));
        }
    } else {
        let t = v.drop_first();
        lemma_sorted_dedup_props(t);
        lemma_insert_sorted_props(sorted_dedup(t), v[0]);
        assert(v.to_set() =~= t.to_set().insert(v[0])) by {
            assert forall|y: u32| v.contains(y) implies t.to_set().insert(v[0]).contains(y) by {
                let j = choose|j: int| 0 <= j < v.len() && v[j] == y;
                if j > 0 {
                    assert(t[j - 1] == y);
                }
            }
            assert forall|y: u32| t.to_set().insert(v[0]).contains(y) implies v.contains(y) by {
                if t.contains(y) {
                    let j = choose|j: int| 0 <= j < t.len() && t[j] == y;
                    assert(v[j + 1] == y);
                } else {
                    assert(v[0] == y);
                }
            }
        }
    }
}

/// Deduplication is exactly what makes a line that two hunks both touch
/// count once: line lists with the same set of lines contribute identically,
/// however often a line repeats.
pub proof fn lemma_changed_lines_counted_once(a: Seq<u32>, b: Seq<u32>)
    requires
        a.to_set() == b.to_set(),
    ensures
        sorted_dedup(a) == sorted_dedup(b),
{
    lemma_sorted_dedup_props(a);
    lemma_sorted_dedup_props(b);
    lemma_sorted_set_unique(sorted_dedup(a), sorted_dedup(b));
}

/// How a changed file's path resolves against the store.
pub enum Resolution {
    /// Coverage found: the entry at this index.
    Entry(int),
    /// No coverage for this file.
    Missing,
    /// Two or more suffix matches: the lookup is ambiguous.
    Ambiguous,
}

/// The three-tier resolution of `file_coverage`, at the spec level.
pub open spec fn resolve(es: Seq<(Seq<char>, CovView)>, q: Seq<char>) -> Resolution {
    if has_key(es, q) {
        Resolution::Entry(key_index_from(es, q, 0))
    } else {
        let ms = suffix_match_keys(es, q);
        if ms.len() == 0 {
            Resolution::Missing
        } else if ms.len() == 1 {
            Resolution::Entry(key_index_from(es, ms[0], 0))
        } else {
            Resolution::Ambiguous
        }
    }
}

/// Whether a changed file stops the analysis: it has changed lines and its
/// path resolves ambiguously.
pub open spec fn is_ambiguous_file(f: (Seq<char>, Seq<u32>), es: Seq<(Seq<char>, CovView)>) -> bool {
    sorted_dedup(f.1).len() > 0 && resolve(es, normal_path(f.0)) is Ambiguous
}

/// The first index `>= i` of a file that stops the analysis, or `cfs.len()`.
pub open spec fn first_ambiguous_from(
    cfs: Seq<(Seq<char>, Seq<u32>)>,
    es: Seq<(Seq<char>, CovView)>,
    i: int,
) -> int
    decreases cfs.len() - i,
{
    if i < 0 || i >= cfs.len() {
        cfs.len() as int
    } else if is_ambiguous_file(cfs[i], es) {
        i
    } else {
        first_ambiguous_from(cfs, es, i + 1)
    }
}

/// The analysis completes exactly when no file stops it.
pub open spec fn analysis_ok(cfs: Seq<(Seq<char>, Seq<u32>)>, es: Seq<(Seq<char>, CovView)>) -> bool {
    first_ambiguous_from(cfs, es, 0) == cfs.len()
}

/// The aggregate the analysis computes, at the spec level.
#[verifier::ext_equal]
pub struct AnalysisModel {
    pub total_changed: int,
    pub total_covered: int,
    /// Per file with uncovered lines: path, ascending uncovered lines,
    /// covered count, changed count.
    pub uncovered: Seq<(Seq<char>, Seq<u32>, int, int)>,
}

/// The empty aggregate.
pub open spec fn empty_model() -> AnalysisModel {
    AnalysisModel { total_changed: 0, total_covered: 0, uncovered: Seq::empty() }
}

/// A measured changed line.
pub open spec fn measured_pred(cov: CovView) -> spec_fn(u32) -> bool {
    |l: u32| cov.measured.contains(l)
}

/// A measured and covered changed line.
pub open spec fn covered_pred(cov: CovView) -> spec_fn(u32) -> bool {
    |l: u32| cov.measured.contains(l) && cov.covered.contains(l)
}

/// A measured but uncovered changed line.
pub open spec fn uncovered_pred(cov: CovView) -> spec_fn(u32) -> bool {
    |l: u32| cov.measured.contains(l) && !cov.covered.contains(l)
}

/// One file's effect on the aggregate.
pub open spec fn file_step(
    m: AnalysisModel,
    f: (Seq<char>, Seq<u32>),
    es: Seq<(Seq<char>, CovView)>,
    treat_missing_as_uncovered: bool,
) -> AnalysisModel {
    let q = normal_path(f.0);
    let su = sorted_dedup(f.1);
    if su.len() == 0 {
        m
    } else {
        match resolve(es, q) {
            Resolution::Entry(i) => {
                let cov = es[i].1;
                let unc = su.filter(uncovered_pred(cov));
                let cc = su.filter(covered_pred(cov)).len() as int;
                let ch = su.filter(measured_pred(cov)).len() as int;
                AnalysisModel {
                    total_changed: m.total_changed + ch,
                    total_covered: m.total_covered + cc,
                    uncovered: if unc.len() > 0 {
                        m.uncovered.push((q, unc, cc, ch))
                    } else {
                        m.uncovered
                    },
                }
            },
            Resolution::Missing => {
                if treat_missing_as_uncovered {
                    AnalysisModel {
                        total_changed: m.total_changed + su.len(),
                        total_covered: m.total_covered,
                        uncovered: m.uncovered.push((q, su, 0, su.len() as int)),
                    }
                } else {
                    m
                }
            },
            Resolution::Ambiguous => m,
        }
    }
}

/// The aggregate after the first `k` changed files.
pub open spec fn analyze_prefix(
    cfs: Seq<(Seq<char>, Seq<u32>)>,
    es: Seq<(Seq<char>, CovView)>,
    treat_missing_as_uncovered: bool,
    k: int,
) -> AnalysisModel
    decreases k,
{
    if k <= 0 {
        empty_model()
    } else {
        file_step(
            analyze_prefix(cfs, es, treat_missing_as_uncovered, k - 1),
            cfs[k - 1],
            es,
            treat_missing_as_uncovered,
        )
    }
}

/// What the whole analysis computes when it completes.
pub open spec fn analysis_spec(
    cfs: Seq<(Seq<char>, Seq<u32>)>,
    es: Seq<(Seq<char>, CovView)>,
    treat_missing_as_uncovered: bool,
) -> AnalysisModel {
    analyze_prefix(cfs, es, treat_missing_as_uncovered, cfs.len() as int)
}

proof fn lemma_filter_take_step<A>(s: Seq<A>, p: spec_fn(A) -> bool, t: int)
    requires
        0 <= t < s.len(),
    ensures
        s.take(t + 1).filter(p) == if p(s[t]) {
            s.take(t).filter(p).push(s[t])
        } else {
            s.take(t).filter(p)
        },
{
    reveal(Seq::filter);
    assert(s.take(t + 1).drop_last() =~= s.take(t));
    assert(s.take(t + 1).last() == s[t]);
}

proof fn lemma_filter_subset_len<A>(s: Seq<A>, p: spec_fn(A) -> bool, q: spec_fn(A) -> bool)
    requires
        forall|x: A| #[trigger] p(x) ==> q(x),
    ensures
        s.filter(p).len() <= s.filter(q).len(),
    decreases s.len(),
{
    reveal(Seq::filter);
    if s.len() > 0 {
        lemma_filter_subset_len(s.drop_last(), p, q);
    }
}

/// Totals only ever grow as more files are folded in.
proof fn lemma_analyze_prefix_monotone(
    cfs: Seq<(Seq<char>, Seq<u32>)>,
    es: Seq<(Seq<char>, CovView)>,
    treat_missing_as_uncovered: bool,
    k: int,
    n: int,
)
    requires
        0 <= k <= n,
    ensures
        analyze_prefix(cfs, es, treat_missing_as_uncovered, k).total_changed <= analyze_prefix(
            cfs,
            es,
            treat_missing_as_uncovered,
            n,
        ).total_changed,
        analyze_prefix(cfs, es, treat_missing_as_uncovered, k).total_covered <= analyze_prefix(
            cfs,
            es,
            treat_missing_as_uncovered,
            n,
        ).total_covered,
    decreases n - k,
{
    if k < n {
        lemma_analyze_prefix_monotone(cfs, es, treat_missing_as_uncovered, k, n - 1);
        let m = analyze_prefix(cfs, es, treat_missing_as_uncovered, n - 1);
        let m2 = analyze_prefix(cfs, es, treat_missing_as_uncovered, n);
        broadcast use vstd::prelude::Seq::lemma_filter_len;

    }
}

/// The covered total never exceeds the changed total.
proof fn lemma_model_covered_le_changed(
    cfs: Seq<(Seq<char>, Seq<u32>)>,
    es: Seq<(Seq<char>, CovView)>,
    treat_missing_as_uncovered: bool,
    k: int,
)
    requires
        0 <= k,
    ensures
        0 <= analyze_prefix(cfs, es, treat_missing_as_uncovered, k).total_covered
            <= analyze_prefix(cfs, es, treat_missing_as_uncovered, k).total_changed,
    decreases k,
{
    if k > 0 {
        lemma_model_covered_le_changed(cfs, es, treat_missing_as_uncovered, k - 1);
        let f = cfs[k - 1];
        let su = sorted_dedup(f.1);
        let q = normal_path(f.0);
        if su.len() > 0 {
            match resolve(es, q) {
                Resolution::Entry(i) => {
                    let cov = es[i].1;
                    assert forall|x: u32| #[trigger] covered_pred(cov)(x) implies measured_pred(
                        cov,
                    )(x) by {}
                    lemma_filter_subset_len(su, covered_pred(cov), measured_pred(cov));
                },
                Resolution::Missing => {},
                Resolution::Ambiguous => {},
            }
        }
    }
}

proof fn lemma_first_ambiguous_step(
    cfs: Seq<(Seq<char>, Seq<u32>)>,
    es: Seq<(Seq<char>, CovView)>,
    i: int,
)
    requires
        0 <= i < cfs.len(),
        !is_ambiguous_file(cfs[i], es),
    ensures
        first_ambiguous_from(cfs, es, i) == first_ambiguous_from(cfs, es, i + 1),
{
}

/// The analyzer.  Joins each changed file's unique changed lines against
/// the resolved coverage record: unmeasured lines are skipped, measured
/// lines are counted and classified, files absent from coverage contribute
/// all their lines as uncovered when the policy says so and nothing
/// otherwise, and a file with no uncovered lines is left out of the
/// per-file list.  An ambiguous path lookup aborts the whole analysis with
/// the store's error for the first such file.
pub fn analyze_changed_coverage(
    changed_files: &Vec<ChangedFile>,
    coverage: &CoverageStore,
    treat_missing_as_uncovered: bool,
) -> (r: Result<CoverageReport, CoverageLookupError>)
    requires
        coverage.wf(),
        analysis_spec(
            files_view(changed_files@),
            coverage.entries(),
            treat_missing_as_uncovered,
        ).total_changed <= usize::MAX,
    ensures
        ({
            let cfs = files_view(changed_files@);
            let es = coverage.entries();
            match r {
                Ok(rep) => {
                    &&& analysis_ok(cfs, es)
                    &&& rep.total_changed as int == analysis_spec(
                        cfs,
                        es,
                        treat_missing_as_uncovered,
                    ).total_changed
                    &&& rep.total_covered as int == analysis_spec(
                        cfs,
                        es,
                        treat_missing_as_uncovered,
                    ).total_covered
                    &&& rep.uncovered_files@.map_values(
                        |u: UncoveredFile| uncovered_view(u),
                    ) == analysis_spec(cfs, es, treat_missing_as_uncovered).uncovered
                },
                Err(e) => {
                    &&& !analysis_ok(cfs, es)
                    &&& ({
                        let j = first_ambiguous_from(cfs, es, 0);
                        let q = normal_path(cfs[j].0);
                        let ms = suffix_match_keys(es, q);
                        &&& e.path@ == q
                        &&& e.matches@.len() == ms.len()
                        &&& lex_sorted_strict(strings_view(e.matches@))
                        &&& strings_view(e.matches@).to_set() == ms.to_set()
                    })
                },
            }
        }),
{
    let ghost cfs = files_view(changed_files@);
    let ghost es = coverage.entries();
    let mut total_changed: usize = 0;
    let mut total_covered: usize = 0;
    let mut uncovered_files: Vec<UncoveredFile> = Vec::new();
    let n = changed_files.len();
    let mut k: usize = 0;
    proof {
        assert(uncovered_files@.map_values(|u: UncoveredFile| uncovered_view(u))
            =~= empty_model().uncovered);
    }
    while k < n
        invariant
            coverage.wf(),
            cfs == files_view(changed_files@),
            es == coverage.entries(),
            analysis_spec(cfs, es, treat_missing_as_uncovered).total_changed <= usize::MAX,
            n == changed_files@.len(),
            n == cfs.len(),
            k <= n,
            first_ambiguous_from(cfs, es, 0) == first_ambiguous_from(cfs, es, k as int),
            total_changed as int == analyze_prefix(
                cfs,
                es,
                treat_missing_as_uncovered,
                k as int,
            ).total_changed,
            total_covered as int == analyze_prefix(
                cfs,
                es,
                treat_missing_as_uncovered,
                k as int,
            ).total_covered,
            uncovered_files@.map_values(|u: UncoveredFile| uncovered_view(u)) == analyze_prefix(
                cfs,
                es,
                treat_missing_as_uncovered,
                k as int,
            ).uncovered,
        decreases n - k,
    {
        let ghost m_pre = analyze_prefix(cfs, es, treat_missing_as_uncovered, k as int);
        let ghost f = cfs[k as int];
        proof {
            assert(cfs[k as int] == file_view(changed_files@[k as int]));
        }
        let path_s = normalize_path(changed_files[k].path.as_str());
        let mut su_v = copy_lines(&changed_files[k].changed_lines);
        sort_and_dedup(&mut su_v);
        proof {
            lemma_sorted_dedup_props(f.1);
            lemma_sorted_set_unique(su_v@, sorted_dedup(f.1));
        }
        let ghost su = sorted_dedup(f.1);
        let ghost q = normal_path(f.0);
        if su_v.len() == 0 {
            proof {
                assert(analyze_prefix(cfs, es, treat_missing_as_uncovered, k + 1) =~= m_pre);
                if is_ambiguous_file(f, es) {
                    assert(false);
                }
                lemma_first_ambiguous_step(cfs, es, k as int);
            }
            k = k + 1;
            continue ;
        }
        let looked_up = coverage.file_coverage(path_s.as_str());
        match looked_up {
            Err(e) => {
                proof {
                    assert(suffix_match_keys(es, q).len() >= 2);
                    assert(!has_key(es, q));
                    assert(resolve(es, q) is Ambiguous);
                    assert(is_ambiguous_file(f, es));
                    assert(first_ambiguous_from(cfs, es, k as int) == k as int);
                }
                return Err(e);
            },
            Ok(None) => {
                proof {
                    assert(!has_key(es, q));
                    assert(suffix_match_keys(es, q).len() == 0);
                    assert(resolve(es, q) is Missing);
                    if is_ambiguous_file(f, es) {
                        assert(false);
                    }
                    lemma_first_ambiguous_step(cfs, es, k as int);
                    lemma_analyze_prefix_monotone(
                        cfs,
                        es,
                        treat_missing_as_uncovered,
                        k + 1,
                        n as int,
                    );
                    lemma_model_covered_le_changed(cfs, es, treat_missing_as_uncovered, k + 1);
                }
                if treat_missing_as_uncovered {
                    let changed_count = su_v.len();
                    total_changed = total_changed + changed_count;
                    let file_rec = UncoveredFile {
                        path: path_s,
                        uncovered_lines: su_v,
                        covered_lines: 0,
                        changed_lines: changed_count,
                    };
                    uncovered_files.push(file_rec);
                    proof {
                        let m_post = analyze_prefix(cfs, es, treat_missing_as_uncovered, k + 1);
                        assert(uncovered_files@.map_values(|u: UncoveredFile| uncovered_view(u))
                            =~= m_post.uncovered);
                    }
                } else {
                    proof {
                        assert(analyze_prefix(cfs, es, treat_missing_as_uncovered, k + 1)
                            =~= m_pre);
                    }
                }
                k = k + 1;
            },
            Ok(Some(fc)) => {
                let ghost ei = resolve_entry_index(es, q);
                let ghost cov = es[ei].1;
                proof {
                    assert(resolve(es, q) == Resolution::Entry(ei));
                    assert(normal_of(cov, fc@));
                    if is_ambiguous_file(f, es) {
                        assert(false);
                    }
                    lemma_first_ambiguous_step(cfs, es, k as int);
                    lemma_analyze_prefix_monotone(
                        cfs,
                        es,
                        treat_missing_as_uncovered,
                        k + 1,
                        n as int,
                    );
                    lemma_model_covered_le_changed(cfs, es, treat_missing_as_uncovered, k + 1);
                }
                let sun = su_v.len();
                let mut covered_count: usize = 0;
                let mut changed_count: usize = 0;
                let mut uncovered_lines: Vec<u32> = Vec::new();
                let mut t: usize = 0;
                proof {
                    assert(su.take(0) =~= Seq::<u32>::empty());
                    reveal(Seq::filter);
                    assert(uncovered_lines@ =~= su.take(0).filter(uncovered_pred(cov)));
                    assert(su.take(0).filter(covered_pred(cov)).len() == 0);
                    assert(su.take(0).filter(measured_pred(cov)).len() == 0);
                }
                while t < sun
                    invariant
                        su_v@ == su,
                        sun == su.len(),
                        t <= sun,
                        cov_wf(fc@),
                        normal_of(cov, fc@),
                        uncovered_lines@ == su.take(t as int).filter(uncovered_pred(cov)),
                        covered_count as int == su.take(t as int).filter(
                            covered_pred(cov),
                        ).len(),
                        changed_count as int == su.take(t as int).filter(
                            measured_pred(cov),
                        ).len(),
                        covered_count <= t,
                        changed_count <= t,
                    decreases sun - t,
                {
                    let l = su_v[t];
                    let measured = fc.is_measured(l);
                    let covered_q = fc.is_covered(l);
                    proof {
                        assert(fc@.measured.to_set().contains(l) == fc@.measured.contains(l));
                        assert(cov.measured.to_set().contains(l) == cov.measured.contains(l));
                        assert(fc@.covered.to_set().contains(l) == fc@.covered.contains(l));
                        assert(cov.covered.to_set().contains(l) == cov.covered.contains(l));
                        assert(measured == measured_pred(cov)(l));
                        assert((measured && covered_q) == covered_pred(cov)(l));
                        assert((measured && !covered_q) == uncovered_pred(cov)(l));
                        lemma_filter_take_step(su, uncovered_pred(cov), t as int);
                        lemma_filter_take_step(su, covered_pred(cov), t as int);
                        lemma_filter_take_step(su, measured_pred(cov), t as int);
                    }
                    if measured {
                        changed_count = changed_count + 1;
                        if covered_q {
                            covered_count = covered_count + 1;
                        } else {
                            uncovered_lines.push(l);
                        }
                    }
                    t = t + 1;
                }
                proof {
                    assert(su.take(sun as int) =~= su);
                }
                total_changed = total_changed + changed_count;
                total_covered = total_covered + covered_count;
                if uncovered_lines.len() > 0 {
                    let file_rec = UncoveredFile {
                        path: path_s,
                        uncovered_lines,
                        covered_lines: covered_count,
                        changed_lines: changed_count,
                    };
                    uncovered_files.push(file_rec);
                    proof {
                        let m_post = analyze_prefix(cfs, es, treat_missing_as_uncovered, k + 1);
                        assert(uncovered_files@.map_values(|u: UncoveredFile| uncovered_view(u))
                            =~= m_post.uncovered);
                    }
                } else {
                    proof {
                        let m_post = analyze_prefix(cfs, es, treat_missing_as_uncovered, k + 1);
                        assert(uncovered_files@.map_values(|u: UncoveredFile| uncovered_view(u))
                            =~= m_post.uncovered);
                    }
                }
                k = k + 1;
            },
        }
    }
    Ok(CoverageReport { total_changed, total_covered, uncovered_files })
}

/// The entry index that a successful resolution denotes.
pub open spec fn resolve_entry_index(es: Seq<(Seq<char>, CovView)>, q: Seq<char>) -> int {
    if has_key(es, q) {
        key_index_from(es, q, 0)
    } else {
        key_index_from(es, suffix_match_keys(es, q)[0], 0)
    }
}

/// Exact-match precedence: when the store holds the queried path as a
/// key, resolution returns that entry outright — whatever suffix matches
/// also exist, no ambiguity is raised.
pub proof fn lemma_exact_match_precedence(es: Seq<(Seq<char>, CovView)>, q: Seq<char>)
    requires
        has_key(es, q),
    ensures
        resolve(es, q) == Resolution::Entry(key_index_from(es, q, 0)),
{
}

/// Ambiguity surfaces: without an exact key, two or more suffix matches
/// never resolve to an entry — the lookup is ambiguous and the analysis
/// stops rather than guessing.
pub proof fn lemma_ambiguity_surfaces(es: Seq<(Seq<char>, CovView)>, q: Seq<char>)
    requires
        !has_key(es, q),
        suffix_match_keys(es, q).len() >= 2,
    ensures
        resolve(es, q) is Ambiguous,
{
}

/// Uniqueness: a line covered by overlapping hunks, or listed twice for any
/// other reason, is counted once.  Two changed-file records for the same
/// path whose line lists hold the same set of lines make exactly the same
/// contribution to the analysis, totals and uncovered list alike.
pub proof fn lemma_overlapping_hunks_count_once(
    m: AnalysisModel,
    f1: (Seq<char>, Seq<u32>),
    f2: (Seq<char>, Seq<u32>),
    es: Seq<(Seq<char>, CovView)>,
    treat_missing_as_uncovered: bool,
)
    requires
        f1.0 == f2.0,
        f1.1.to_set() == f2.1.to_set(),
    ensures
        file_step(m, f1, es, treat_missing_as_uncovered) == file_step(
            m,
            f2,
            es,
            treat_missing_as_uncovered,
        ),
{
    lemma_changed_lines_counted_once(f1.1, f2.1);
}

/// Missing-file policy: a changed file with no coverage entry contributes
/// every one of its unique changed lines to the changed total and to its
/// uncovered-file record when the policy is on, and contributes nothing at
/// all — not even an empty record — when it is off.
pub proof fn lemma_missing_file_policy(
    m: AnalysisModel,
    f: (Seq<char>, Seq<u32>),
    es: Seq<(Seq<char>, CovView)>,
)
    requires
        resolve(es, normal_path(f.0)) is Missing,
        sorted_dedup(f.1).len() > 0,
    ensures
        file_step(m, f, es, true) == (AnalysisModel {
            total_changed: m.total_changed + sorted_dedup(f.1).len(),
            total_covered: m.total_covered,
            uncovered: m.uncovered.push(
                (normal_path(f.0), sorted_dedup(f.1), 0, sorted_dedup(f.1).len() as int),
            ),
        }),
        file_step(m, f, es, false) == m,
{
}

} // verus!
