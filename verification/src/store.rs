//! The coverage store: per-file line coverage accumulated from coverage
//! reports, normalised lazily, with three-tier path resolution (exact key,
//! unique suffix match, surfaced ambiguity).

use vstd::prelude::*;

use crate::text::{
    ends_with, lemma_lex_le_from_antisym, lemma_lex_le_from_total, lemma_lex_le_from_trans,
    lex_le, str_ends_with, str_eq, str_lex_le,
};

verus! {

/// Line coverage of one file: the lines the tool instrumented and the lines
/// with a hit count above zero.  Both sequences grow by appending; after
/// normalisation they are strictly ascending and `dirty` is clear.  Queries
/// are correct in both states.
#[derive(Debug)]
pub struct FileCoverage {
    pub measured_lines: Vec<u32>,
    pub covered_lines: Vec<u32>,
    pub dirty: bool,
}

/// The mathematical content of a [`FileCoverage`].
#[verifier::ext_equal]
pub struct CovView {
    pub measured: Seq<u32>,
    pub covered: Seq<u32>,
    pub dirty: bool,
}

impl View for FileCoverage {
    type V = CovView;

    open spec fn view(&self) -> CovView {
        CovView {
            measured: self.measured_lines@,
            covered: self.covered_lines@,
            dirty: self.dirty,
        }
    }
}

/// Strictly ascending: sorted and free of duplicates.
pub open spec fn strictly_sorted(s: Seq<u32>) -> bool {
    forall|i: int, j: int| 0 <= i < j < s.len() ==> s[i] < s[j]
}

/// A coverage record is well formed when a clear `dirty` flag really means
/// both sequences are normalised.
pub open spec fn cov_wf(c: CovView) -> bool {
    !c.dirty ==> strictly_sorted(c.measured) && strictly_sorted(c.covered)
}

/// An empty, normalised coverage record.
pub open spec fn empty_cov() -> CovView {
    CovView { measured: Seq::empty(), covered: Seq::empty(), dirty: false }
}

/// The relation between a record and its normalised form: the same sets of
/// lines, strictly sorted, with the flag clear.
pub open spec fn normal_of(a: CovView, b: CovView) -> bool {
    &&& b.measured.to_set() == a.measured.to_set()
    &&& b.covered.to_set() == a.covered.to_set()
    &&& strictly_sorted(b.measured)
    &&& strictly_sorted(b.covered)
    &&& !b.dirty
}

/// Whether `v@` holds `x`, by linear scan.
fn contains_linear(v: &Vec<u32>, x: u32) -> (r: bool)
    ensures
        r == v@.contains(x),
{
    let n = v.len();
    let mut i: usize = 0;
    while i < n
        invariant
            n == v@.len(),
            i <= n,
            forall|k: int| 0 <= k < i ==> v@[k] != x,
        decreases n - i,
    {
        if v[i] == x {
            return true;
        }
        i = i + 1;
    }
    false
}

/// Whether `v@` holds `x`, by binary search over a strictly sorted vector.
fn contains_sorted(v: &Vec<u32>, x: u32) -> (r: bool)
    requires
        strictly_sorted(v@),
    ensures
        r == v@.contains(x),
{
    let mut lo: usize = 0;
    let mut hi: usize = v.len();
    while lo < hi
        invariant
            strictly_sorted(v@),
            lo <= hi <= v@.len(),
            forall|k: int| 0 <= k < lo ==> v@[k] < x,
            forall|k: int| hi <= k < v@.len() ==> v@[k] > x,
        decreases hi - lo,
    {
        let mid = lo + (hi - lo) / 2;
        let e = v[mid];
        if e == x {
            return true;
        }
        if e < x {
            lo = mid + 1;
        } else {
            hi = mid;
        }
    }
    false
}

proof fn lemma_insert_keeps_set<T>(s: Seq<T>, p: int, x: T)
    requires
        0 <= p <= s.len(),
    ensures
        s.insert(p, x).to_set() == s.to_set().insert(x),
{
    let ins = s.insert(p, x);
    s.insert_ensures(p, x);
    assert forall|y: T| ins.contains(y) implies s.contains(y) || y == x by {
        let j = choose|j: int| 0 <= j < ins.len() && ins[j] == y;
        if j < p {
            assert(s[j] == y);
        } else if j == p {
        } else {
            assert(s[j - 1] == y);
        }
    }
    assert forall|y: T| s.contains(y) || y == x implies ins.contains(y) by {
        if s.contains(y) {
            let j = choose|j: int| 0 <= j < s.len() && s[j] == y;
            if j < p {
                assert(ins[j] == y);
            } else {
                assert(ins[j + 1] == y);
            }
        } else {
            assert(ins[p] == y);
        }
    }
    assert(ins.to_set() =~= s.to_set().insert(x));
}

/// Places `x` into the strictly sorted vector `out`, keeping it strictly
/// sorted; a value already present is not duplicated.
fn insert_unique_sorted(out: &mut Vec<u32>, x: u32)
    requires
        strictly_sorted(old(out)@),
    ensures
        strictly_sorted(final(out)@),
        final(out)@.to_set() == old(out)@.to_set().insert(x),
{
    let n = out.len();
    let mut p: usize = 0;
    while p < n && out[p] < x
        invariant
            out@ == old(out)@,
            n == out@.len(),
            p <= n,
            forall|k: int| 0 <= k < p ==> out@[k] < x,
        decreases n - p,
    {
        p = p + 1;
    }
    if p < n && out[p] == x {
        proof {
            assert(out@.contains(x));
            assert(out@.to_set() =~= out@.to_set().insert(x));
        }
        return ;
    }
    proof {
        lemma_insert_keeps_set(out@, p as int, x);
        out@.insert_ensures(p as int, x);
    }
    out.insert(p, x);
    proof {
        let s = old(out)@;
        let ins = final(out)@;
        assert forall|i: int, j: int| 0 <= i < j < ins.len() implies ins[i] < ins[j] by {
            if j < p {
                assert(ins[i] == s[i] && ins[j] == s[j]);
            } else if i < p && j == p {
                assert(ins[i] == s[i]);
            } else if i < p {
                assert(ins[i] == s[i] && ins[j] == s[j - 1]);
                if (p as int) < s.len() {
                    assert(s[p as int] > x);
                }
            } else if i == p {
                assert(ins[j] == s[j - 1]);
                if (p as int) < s.len() {
                    assert(s[p as int] > x);
                }
            } else {
                assert(ins[i] == s[i - 1] && ins[j] == s[j - 1]);
            }
        }
    }
}

/// Sorts `values` ascending and removes duplicates: afterwards the vector is
/// strictly ascending and holds exactly the same set of values.
pub fn sort_and_dedup(values: &mut Vec<u32>)
    ensures
        strictly_sorted(final(values)@),
        final(values)@.to_set() == old(values)@.to_set(),
{
    broadcast use vstd::prelude::Seq::lemma_to_set_insert_commutes;

    let mut out: Vec<u32> = Vec::new();
    let n = values.len();
    let mut i: usize = 0;
    proof {
        assert(values@.take(0) =~= Seq::<u32>::empty());
        assert(Seq::<u32>::empty().to_set() =~= Set::<u32>::empty());
        assert(out@.to_set() =~= Seq::<u32>::empty().to_set());
    }
    while i < n
        invariant
            values@ == old(values)@,
            n == values@.len(),
            i <= n,
            strictly_sorted(out@),
            out@.to_set() == values@.take(i as int).to_set(),
        decreases n - i,
    {
        insert_unique_sorted(&mut out, values[i]);
        proof {
            let gi = i as int;
            assert(out@.to_set() == values@.take(gi).to_set().insert(values@[gi]));
            assert(values@.take(gi + 1) =~= values@.take(gi).push(values@[gi]));
            Seq::<u32>::lemma_to_set_insert_commutes(values@.take(gi), values@[gi]);
            assert(values@.take(gi).push(values@[gi]) =~= values@.take(gi) + seq![values@[gi]]);
            assert(values@.take(gi).push(values@[gi]).to_set() == values@.take(gi).to_set().insert(
                values@[gi],
            ));
            assert(values@.take(gi + 1).to_set() == values@.take(gi).to_set().insert(values@[gi]));
            assert(out@.to_set() == values@.take(gi + 1).to_set());
        }
        i = i + 1;
    }
    proof {
        assert(values@.take(n as int) =~= values@);
    }
    *values = out;
}

/// Two strictly sorted sequences over the same set are the same sequence.
pub proof fn lemma_sorted_set_unique(a: Seq<u32>, b: Seq<u32>)
    requires
        strictly_sorted(a),
        strictly_sorted(b),
        a.to_set() == b.to_set(),
    ensures
        a == b,
    decreases a.len(),
{
    if a.len() == 0 {
        if b.len() > 0 {
            assert(b.to_set().contains(b[0]));
            assert(a.contains(b[0]));
        }
        assert(a =~= b);
    } else {
        assert(a.to_set().contains(a[0]));
        assert(b.contains(a[0]));
        if b.len() == 0 {
            assert(b.to_set() =~= Set::<u32>::empty());
            assert(!b.to_set().contains(a[0]));
        }
        // the heads are the minimum of the common set, hence equal
        let ja = choose|j: int| 0 <= j < b.len() && b[j] == a[0];
        assert(b[0] <= b[ja]);
        assert(b.to_set().contains(b[0]));
        assert(a.contains(b[0]));
        let ia = choose|j: int| 0 <= j < a.len() && a[j] == b[0];
        assert(a[0] <= a[ia]);
        assert(a[0] == b[0]);
        // the tails cover the set minus the head
        let at = a.drop_first();
        let bt = b.drop_first();
        assert(strictly_sorted(at)) by {
            assert(forall|i: int, j: int|
                0 <= i < j < at.len() ==> at[i] == a[i + 1] && at[j] == a[j + 1]);
        }
        assert(strictly_sorted(bt)) by {
            assert(forall|i: int, j: int|
                0 <= i < j < bt.len() ==> bt[i] == b[i + 1] && bt[j] == b[j + 1]);
        }
        assert(at.to_set() =~= a.to_set().remove(a[0])) by {
            assert forall|y: u32| at.contains(y) implies a.to_set().remove(a[0]).contains(y) by {
                let j = choose|j: int| 0 <= j < at.len() && at[j] == y;
                assert(a[j + 1] == y);
                assert(y > a[0]);
            }
            assert forall|y: u32| a.to_set().remove(a[0]).contains(y) implies at.contains(y) by {
                let j = choose|j: int| 0 <= j < a.len() && a[j] == y;
                assert(j != 0);
                assert(at[j - 1] == y);
            }
        }
        assert(bt.to_set() =~= b.to_set().remove(b[0])) by {
            assert forall|y: u32| bt.contains(y) implies b.to_set().remove(b[0]).contains(y) by {
                let j = choose|j: int| 0 <= j < bt.len() && bt[j] == y;
                assert(b[j + 1] == y);
                assert(y > b[0]);
            }
            assert forall|y: u32| b.to_set().remove(b[0]).contains(y) implies bt.contains(y) by {
                let j = choose|j: int| 0 <= j < b.len() && b[j] == y;
                assert(j != 0);
                assert(bt[j - 1] == y);
            }
        }
        lemma_sorted_set_unique(at, bt);
        assert(a =~= b) by {
            assert(forall|k: int| 1 <= k < a.len() ==> a[k] == at[k - 1]);
            assert(forall|k: int| 1 <= k < b.len() ==> b[k] == bt[k - 1]);
        }
    }
}

/// Normalising is idempotent: a second sort-and-dedup pass cannot change a
/// sequence that one pass produced, because a strictly sorted sequence is
/// determined by its set of values.
pub proof fn lemma_normalize_idempotent(original: Seq<u32>, once: Seq<u32>, twice: Seq<u32>)
    requires
        strictly_sorted(once),
        once.to_set() == original.to_set(),
        strictly_sorted(twice),
        twice.to_set() == once.to_set(),
    ensures
        twice == once,
{
    lemma_sorted_set_unique(twice, once);
}

/// Normalisation never changes what a query answers: membership in the
/// line sets is exactly preserved, for every line.
pub proof fn lemma_normalize_preserves_queries(before: CovView, after: CovView, line: u32)
    requires
        normal_of(before, after),
    ensures
        after.measured.contains(line) == before.measured.contains(line),
        after.covered.contains(line) == before.covered.contains(line),
{
    assert(before.measured.to_set().contains(line) == before.measured.contains(line));
    assert(after.measured.to_set().contains(line) == after.measured.contains(line));
    assert(before.covered.to_set().contains(line) == before.covered.contains(line));
    assert(after.covered.to_set().contains(line) == after.covered.contains(line));
}

impl FileCoverage {
    /// An empty record, normalised.
    pub fn new() -> (r: FileCoverage)
        ensures
            r@ == empty_cov(),
    {
        let r = FileCoverage { measured_lines: Vec::new(), covered_lines: Vec::new(), dirty: false };
        proof {
            assert(r@ =~= empty_cov());
        }
        r
    }

    /// Appends `line` to the measured set and, when `hits > 0`, to the
    /// covered set, leaving the record unnormalised.
    pub fn record_line(&mut self, line: u32, hits: u32)
        ensures
            final(self)@.measured == old(self)@.measured.push(line),
            final(self)@.covered == if hits > 0 {
                old(self)@.covered.push(line)
            } else {
                old(self)@.covered
            },
            final(self)@.dirty,
    {
        self.measured_lines.push(line);
        if hits > 0 {
            self.covered_lines.push(line);
        }
        self.dirty = true;
    }

    /// Whether the instrumentation measured `line`, in either state.
    pub fn is_measured(&self, line: u32) -> (r: bool)
        requires
            cov_wf(self@),
        ensures
            r == self@.measured.contains(line),
    {
        if self.dirty {
            contains_linear(&self.measured_lines, line)
        } else {
            contains_sorted(&self.measured_lines, line)
        }
    }

    /// Whether `line` was executed at least once, in either state.
    pub fn is_covered(&self, line: u32) -> (r: bool)
        requires
            cov_wf(self@),
        ensures
            r == self@.covered.contains(line),
    {
        if self.dirty {
            contains_linear(&self.covered_lines, line)
        } else {
            contains_sorted(&self.covered_lines, line)
        }
    }

    /// Sorts and dedupes both line sets and clears the dirty flag.
    pub fn normalize_in_place(&mut self)
        requires
            cov_wf(old(self)@),
        ensures
            normal_of(old(self)@, final(self)@),
            cov_wf(final(self)@),
    {
        if !self.dirty {
            return ;
        }
        sort_and_dedup(&mut self.measured_lines);
        sort_and_dedup(&mut self.covered_lines);
        self.dirty = false;
    }

    /// This record, normalised.
    pub fn normalized(self) -> (r: FileCoverage)
        requires
            cov_wf(self@),
        ensures
            normal_of(self@, r@),
            cov_wf(r@),
    {
        let mut r = self;
        r.normalize_in_place();
        r
    }

    /// A normalised copy, leaving this record as it is.
    fn normalized_copy(&self) -> (r: FileCoverage)
        requires
            cov_wf(self@),
        ensures
            normal_of(self@, r@),
            cov_wf(r@),
    {
        let mut measured = copy_lines(&self.measured_lines);
        let mut covered = copy_lines(&self.covered_lines);
        if self.dirty {
            sort_and_dedup(&mut measured);
            sort_and_dedup(&mut covered);
        }
        FileCoverage { measured_lines: measured, covered_lines: covered, dirty: false }
    }
}

impl core::default::Default for FileCoverage {
    /// An empty record, normalised.
    fn default() -> (r: FileCoverage)
        ensures
            r@ == empty_cov(),
    {
        FileCoverage::new()
    }
}

/// An ambiguous path lookup: the query matched two or more stored coverage
/// paths by suffix.  Carries the query and the sorted list of all matches.
#[derive(Debug, Clone, PartialEq, Eq)]
pub struct CoverageLookupError {
    pub path: String,
    pub matches: Vec<String>,
}

/// The sink that coverage parsers stream their findings into.
pub trait CoverageSink {
    /// The invariant the sink maintains across calls.
    spec fn sink_inv(&self) -> bool;

    /// Called when a per-file coverage section opens.
    fn on_file(&mut self, file_path: &str)
        requires
            old(self).sink_inv(),
        ensures
            final(self).sink_inv(),
    ;

    /// Called for every coverage-bearing line entry.
    fn on_line(&mut self, file_path: &str, line: u32, hits: u32)
        requires
            old(self).sink_inv(),
        ensures
            final(self).sink_inv(),
    ;
}

/// Accumulates [`FileCoverage`] per path while coverage reports are parsed,
/// then resolves path lookups, tolerating differing path roots.
pub struct CoverageStore {
    pub files: Vec<(String, FileCoverage)>,
    pub normalized_ready: bool,
}

/// The view of one stored entry.
pub open spec fn entry_view(e: (String, FileCoverage)) -> (Seq<char>, CovView) {
    (e.0@, e.1@)
}

/// The views of a sequence of strings.
pub open spec fn strings_view(s: Seq<String>) -> Seq<Seq<char>> {
    s.map_values(|x: String| x@)
}

/// First index `>= i` of an entry stored under `key`, or `es.len()`.
pub open spec fn key_index_from(es: Seq<(Seq<char>, CovView)>, key: Seq<char>, i: int) -> int
    decreases es.len() - i,
{
    if i < 0 || i >= es.len() {
        es.len() as int
    } else if es[i].0 == key {
        i
    } else {
        key_index_from(es, key, i + 1)
    }
}

/// Whether some entry is stored under `key`.
pub open spec fn has_key(es: Seq<(Seq<char>, CovView)>, key: Seq<char>) -> bool {
    key_index_from(es, key, 0) < es.len()
}

pub proof fn lemma_key_index(es: Seq<(Seq<char>, CovView)>, key: Seq<char>, i: int)
    requires
        0 <= i <= es.len(),
    ensures
        i <= key_index_from(es, key, i) <= es.len(),
        key_index_from(es, key, i) < es.len() ==> es[key_index_from(es, key, i)].0 == key,
        forall|k: int| i <= k < key_index_from(es, key, i) ==> (#[trigger] es[k]).0 != key,
    decreases es.len() - i,
{
    if i < es.len() && es[i].0 != key {
        lemma_key_index(es, key, i + 1);
    }
}

/// A stored key and a query path match by suffix, in either direction.
pub open spec fn suffix_related(key: Seq<char>, q: Seq<char>) -> bool {
    ends_with(key, q) || ends_with(q, key)
}

/// The stored keys that match `q` by suffix, in store order.
pub open spec fn suffix_match_keys(es: Seq<(Seq<char>, CovView)>, q: Seq<char>) -> Seq<Seq<char>> {
    es.map_values(|e: (Seq<char>, CovView)| e.0).filter(|k: Seq<char>| suffix_related(k, q))
}

/// Strictly ascending in lexicographic order: sorted and duplicate-free.
pub open spec fn lex_sorted_strict(s: Seq<Seq<char>>) -> bool {
    forall|i: int, j: int| 0 <= i < j < s.len() ==> lex_le(s[i], s[j]) && s[i] != s[j]
}

/// The store contents after `on_file` for `p`: an entry is ensured.
pub open spec fn store_on_file(
    es: Seq<(Seq<char>, CovView)>,
    p: Seq<char>,
) -> Seq<(Seq<char>, CovView)> {
    if has_key(es, p) {
        es
    } else {
        es.push((p, empty_cov()))
    }
}

/// The store contents after `on_line` for `p`: the entry is ensured and
/// one line is recorded on it.
pub open spec fn store_on_line(
    es: Seq<(Seq<char>, CovView)>,
    p: Seq<char>,
    line: u32,
    hits: u32,
) -> Seq<(Seq<char>, CovView)> {
    if has_key(es, p) {
        let ki = key_index_from(es, p, 0);
        es.update(ki, (es[ki].0, recorded(es[ki].1, line, hits)))
    } else {
        es.push((p, recorded(empty_cov(), line, hits)))
    }
}

/// The result of recording one line with the given hit count.
pub open spec fn recorded(c: CovView, line: u32, hits: u32) -> CovView {
    CovView {
        measured: c.measured.push(line),
        covered: if hits > 0 {
            c.covered.push(line)
        } else {
            c.covered
        },
        dirty: true,
    }
}

/// One entry after normalisation: the same key, the normalised record.
pub open spec fn entry_normalized(
    old_e: (Seq<char>, CovView),
    new_e: (Seq<char>, CovView),
) -> bool {
    &&& new_e.0 == old_e.0
    &&& normal_of(old_e.1, new_e.1)
    &&& cov_wf(new_e.1)
}

impl CoverageStore {
    /// The mathematical content of the store: its entries in insertion
    /// order.
    pub open spec fn entries(self) -> Seq<(Seq<char>, CovView)> {
        self.files@.map_values(|e: (String, FileCoverage)| entry_view(e))
    }

    /// Well-formedness: every record is consistent with its dirty flag,
    /// paths are registered at most once, and a set `normalized_ready`
    /// flag really means every record is normalised.
    pub open spec fn wf(self) -> bool {
        &&& forall|k: int|
            0 <= k < self.entries().len() ==> cov_wf((#[trigger] self.entries()[k]).1)
        &&& forall|k1: int, k2: int|
            0 <= k1 < k2 < self.entries().len() ==> self.entries()[k1].0 != self.entries()[k2].0
        &&& self.normalized_ready ==> forall|k: int|
            0 <= k < self.entries().len() ==> !(#[trigger] self.entries()[k]).1.dirty
    }

    /// An empty store.
    pub fn new() -> (r: CoverageStore)
        ensures
            r.wf(),
            r.entries() == Seq::<(Seq<char>, CovView)>::empty(),
            !r.normalized_ready,
    {
        let r = CoverageStore { files: Vec::new(), normalized_ready: false };
        proof {
            assert(r.entries() =~= Seq::<(Seq<char>, CovView)>::empty());
        }
        r
    }

    /// First index of an entry stored under `key`, or the entry count.
    fn find_key(&self, key: &str) -> (r: usize)
        ensures
            r == key_index_from(self.entries(), key@, 0),
            r <= self.files@.len(),
    {
        self.find_key_from(key, 0)
    }

    fn find_key_from(&self, key: &str, i: usize) -> (r: usize)
        requires
            i <= self.files@.len(),
        ensures
            r == key_index_from(self.entries(), key@, i as int),
            i <= r <= self.files@.len(),
        decreases self.files@.len() - i,
    {
        proof {
            assert(self.entries().len() == self.files@.len());
        }
        if i >= self.files.len() {
            self.files.len()
        } else {
            proof {
                assert(self.entries()[i as int] == entry_view(self.files@[i as int]));
            }
            if str_eq(self.files[i].0.as_str(), key) {
                i
            } else {
                self.find_key_from(key, i + 1)
            }
        }
    }

    /// Ensures an entry exists for `file_path`, creating an empty one if
    /// absent, and marks the store stale.
    pub fn on_file(&mut self, file_path: &str)
        requires
            old(self).wf(),
        ensures
            final(self).wf(),
            !final(self).normalized_ready,
            final(self).entries() == store_on_file(old(self).entries(), file_path@),
    {
        let idx = self.find_key(file_path);
        self.normalized_ready = false;
        if idx == self.files.len() {
            proof {
                lemma_key_index(old(self).entries(), file_path@, 0);
            }
            self.files.push((file_path.to_owned(), FileCoverage::new()));
            proof {
                let es = old(self).entries();
                assert(final(self).entries() =~= es.push((file_path@, empty_cov())));
                assert forall|k: int|
                    0 <= k < final(self).entries().len() implies cov_wf(
                    (#[trigger] final(self).entries()[k]).1,
                ) by {
                    if k < es.len() {
                        assert(final(self).entries()[k] == es[k]);
                    } else {
                        assert(final(self).entries()[k].1 == empty_cov());
                    }
                }
                assert forall|k1: int, k2: int|
                    0 <= k1 < k2 < final(self).entries().len() implies final(self).entries()[k1].0
                    != final(self).entries()[k2].0 by {
                    if k2 == es.len() {
                        assert(es[k1].0 != file_path@);
                    }
                }
            }
        }
    }

    /// Ensures the entry exists and records one measured line, covered when
    /// `hits > 0`; marks the store stale.
    pub fn on_line(&mut self, file_path: &str, line: u32, hits: u32)
        requires
            old(self).wf(),
        ensures
            final(self).wf(),
            !final(self).normalized_ready,
            final(self).entries() == store_on_line(old(self).entries(), file_path@, line, hits),
    {
        let idx = self.find_key(file_path);
        self.normalized_ready = false;
        proof {
            lemma_key_index(old(self).entries(), file_path@, 0);
            assert(self.entries().len() == self.files@.len());
        }
        if idx == self.files.len() {
            let mut fresh = FileCoverage::new();
            fresh.record_line(line, hits);
            proof {
                assert(fresh@ =~= recorded(empty_cov(), line, hits));
            }
            self.files.push((file_path.to_owned(), fresh));
            proof {
                let es = old(self).entries();
                assert(final(self).entries() =~= es.push(
                    (file_path@, recorded(empty_cov(), line, hits)),
                ));
                assert forall|k: int|
                    0 <= k < final(self).entries().len() implies cov_wf(
                    (#[trigger] final(self).entries()[k]).1,
                ) by {
                    if k < es.len() {
                        assert(final(self).entries()[k] == es[k]);
                    }
                }
                assert forall|k1: int, k2: int|
                    0 <= k1 < k2 < final(self).entries().len() implies final(self).entries()[k1].0
                    != final(self).entries()[k2].0 by {
                    if k2 == es.len() {
                        assert(es[k1].0 != file_path@);
                    }
                }
            }
        } else {
            self.files[idx].1.record_line(line, hits);
            proof {
                let es = old(self).entries();
                let ki = idx as int;
                assert(final(self).entries()[ki].1 =~= recorded(es[ki].1, line, hits));
                assert(final(self).entries() =~= es.update(
                    ki,
                    (es[ki].0, recorded(es[ki].1, line, hits)),
                ));
                assert forall|k: int|
                    0 <= k < final(self).entries().len() implies cov_wf(
                    (#[trigger] final(self).entries()[k]).1,
                ) by {
                    if k != ki {
                        assert(final(self).entries()[k] == es[k]);
                    }
                }
                assert forall|k1: int, k2: int|
                    0 <= k1 < k2 < final(self).entries().len() implies final(self).entries()[k1].0
                    != final(self).entries()[k2].0 by {
                    assert(final(self).entries()[k1].0 == es[k1].0);
                    assert(final(self).entries()[k2].0 == es[k2].0);
                }
            }
        }
    }

    /// Normalises every entry and marks the store ready for lookups.
    pub fn prepare_lookup(&mut self)
        requires
            old(self).wf(),
        ensures
            final(self).wf(),
            final(self).normalized_ready,
            final(self).entries().len() == old(self).entries().len(),
            forall|k: int|
                0 <= k < old(self).entries().len() ==> entry_normalized(
                    old(self).entries()[k],
                    #[trigger] final(self).entries()[k],
                ),
    {
        let n = self.files.len();
        let mut normalized: Vec<(String, FileCoverage)> = Vec::new();
        let mut i: usize = 0;
        while i < n
            invariant
                old(self).wf(),
                self.files@ == old(self).files@,
                n == self.files@.len(),
                i <= n,
                normalized@.len() == i,
                forall|k: int|
                    0 <= k < i ==> entry_normalized(
                        entry_view(old(self).files@[k]),
                        entry_view(#[trigger] normalized@[k]),
                    ),
            decreases n - i,
        {
            proof {
                assert(self.entries()[i as int] == entry_view(self.files@[i as int]));
                assert(cov_wf(entry_view(self.files@[i as int]).1));
            }
            let key = self.files[i].0.clone();
            let cov = self.files[i].1.normalized_copy();
            normalized.push((key, cov));
            i = i + 1;
        }
        self.files = normalized;
        self.normalized_ready = true;
        proof {
            let oes = old(self).entries();
            let nes = final(self).entries();
            assert(nes.len() == oes.len());
            assert forall|k: int| 0 <= k < oes.len() implies entry_normalized(
                oes[k],
                #[trigger] nes[k],
            ) by {
                assert(nes[k] == entry_view(final(self).files@[k]));
                assert(oes[k] == entry_view(old(self).files@[k]));
            }
            assert forall|k1: int, k2: int|
                0 <= k1 < k2 < nes.len() implies nes[k1].0 != nes[k2].0 by {
                assert(entry_normalized(oes[k1], nes[k1]));
                assert(entry_normalized(oes[k2], nes[k2]));
            }
        }
    }

    /// The entry at `k`, normalised: borrowed knowledge when the store has
    /// been prepared, a normalised copy otherwise.
    fn coverage_for(&self, k: usize) -> (r: FileCoverage)
        requires
            self.wf(),
            k < self.files@.len(),
        ensures
            normal_of(self.entries()[k as int].1, r@),
            cov_wf(r@),
    {
        proof {
            assert(self.entries()[k as int] == entry_view(self.files@[k as int]));
        }
        if self.normalized_ready {
            let r = FileCoverage {
                measured_lines: copy_lines(&self.files[k].1.measured_lines),
                covered_lines: copy_lines(&self.files[k].1.covered_lines),
                dirty: false,
            };
            r
        } else {
            proof {
                assert(cov_wf(self.files@[k as int].1@));
            }
            self.files[k].1.normalized_copy()
        }
    }

    /// Three-tier path resolution.  An exact key wins outright; otherwise
    /// the stored keys are scanned for a suffix relationship in either
    /// direction.  Exactly one suffix match resolves to that entry; none
    /// means the file has no coverage; two or more are a fatal ambiguity
    /// carrying the query and the sorted list of every matching key.
    pub fn file_coverage(&self, path: &str) -> (r: Result<
        Option<FileCoverage>,
        CoverageLookupError,
    >)
        requires
            self.wf(),
        ensures
            ({
                let es = self.entries();
                let q = path@;
                let ms = suffix_match_keys(es, q);
                if has_key(es, q) {
                    &&& r is Ok
                    &&& r->Ok_0 is Some
                    &&& normal_of(es[key_index_from(es, q, 0)].1, r->Ok_0->0@)
                    &&& cov_wf(r->Ok_0->0@)
                } else if ms.len() == 0 {
                    r == Ok::<Option<FileCoverage>, CoverageLookupError>(None)
                } else if ms.len() == 1 {
                    &&& r is Ok
                    &&& r->Ok_0 is Some
                    &&& has_key(es, ms[0])
                    &&& normal_of(es[key_index_from(es, ms[0], 0)].1, r->Ok_0->0@)
                    &&& cov_wf(r->Ok_0->0@)
                } else {
                    &&& r is Err
                    &&& r->Err_0.path@ == q
                    &&& r->Err_0.matches@.len() == ms.len()
                    &&& lex_sorted_strict(strings_view(r->Err_0.matches@))
                    &&& strings_view(r->Err_0.matches@).to_set() == ms.to_set()
                }
            }),
    {
        let idx = self.find_key(path);
        proof {
            lemma_key_index(self.entries(), path@, 0);
        }
        if idx < self.files.len() {
            return Ok(Some(self.coverage_for(idx)));
        }
        let ghost es = self.entries();
        let ghost q = path@;
        let n = self.files.len();
        let mut matches: Vec<String> = Vec::new();
        let mut first_match: usize = n;
        let mut k: usize = 0;
        proof {
            assert(es.take(0) =~= Seq::<(Seq<char>, CovView)>::empty());
            assert(suffix_match_keys(es.take(0), q) =~= Seq::<Seq<char>>::empty()) by {
                reveal(Seq::filter);
                assert(es.take(0).map_values(|e: (Seq<char>, CovView)| e.0)
                    =~= Seq::<Seq<char>>::empty());
            }
        }
        while k < n
            invariant
                self.wf(),
                es == self.entries(),
                q == path@,
                n == self.files@.len(),
                k <= n,
                strings_view(matches@) == suffix_match_keys(es.take(k as int), q),
                matches@.len() == 0 ==> first_match == n,
                matches@.len() > 0 ==> first_match < k && es[first_match as int].0 == strings_view(
                    matches@,
                )[0],
            decreases n - k,
        {
            proof {
                assert(es[k as int] == entry_view(self.files@[k as int]));
            }
            let key_matches = {
                let stored = self.files[k].0.as_str();
                str_ends_with(stored, path) || str_ends_with(path, stored)
            };
            proof {
                lemma_suffix_keys_step(es, q, k as int);
            }
            if key_matches {
                if matches.len() == 0 {
                    first_match = k;
                }
                let key_copy = self.files[k].0.clone();
                matches.push(key_copy);
                proof {
                    assert(strings_view(matches@) =~= suffix_match_keys(
                        es.take(k as int),
                        q,
                    ).push(es[k as int].0));
                }
            }
            k = k + 1;
        }
        proof {
            assert(es.take(n as int) =~= es);
        }
        if matches.len() == 0 {
            return Ok(None);
        }
        if matches.len() == 1 {
            proof {
                let ms = suffix_match_keys(es, q);
                lemma_key_index(es, ms[0], 0);
                assert(es[first_match as int].0 == ms[0]);
                let ki = key_index_from(es, ms[0], 0);
                assert(ki < es.len());
                // the found key occurs once, so resolution hits the same record
                if ki != first_match as int {
                    assert(es[ki].0 == es[first_match as int].0);
                }
            }
            return Ok(Some(self.coverage_for(first_match)));
        }
        proof {
            lemma_suffix_keys_unique(es, q, es.len() as int);
            assert(es.take(es.len() as int) =~= es);
            assert forall|k1: int, k2: int|
                0 <= k1 < k2 < matches@.len() implies matches@[k1]@ != matches@[k2]@ by {
                assert(strings_view(matches@)[k1] == matches@[k1]@);
                assert(strings_view(matches@)[k2] == matches@[k2]@);
                let ms = suffix_match_keys(es.take(es.len() as int), q);
                assert(ms[k1] != ms[k2]);
            }
        }
        let sorted = sort_matches(matches);
        Err(CoverageLookupError { path: path_to_string(path), matches: sorted })
    }
}

impl core::default::Default for CoverageStore {
    /// An empty store.
    fn default() -> (r: CoverageStore)
        ensures
            r.wf(),
            r.entries() == Seq::<(Seq<char>, CovView)>::empty(),
            !r.normalized_ready,
    {
        CoverageStore::new()
    }
}

impl CoverageSink for CoverageStore {
    open spec fn sink_inv(&self) -> bool {
        self.wf()
    }

    fn on_file(&mut self, file_path: &str) {
        self.on_file(file_path)
    }

    fn on_line(&mut self, file_path: &str, line: u32, hits: u32) {
        self.on_line(file_path, line, hits)
    }
}

/// The query string, owned.
fn path_to_string(path: &str) -> (r: String)
    ensures
        r@ == path@,
{
    path.to_owned()
}

proof fn lemma_suffix_keys_unique(es: Seq<(Seq<char>, CovView)>, q: Seq<char>, i: int)
    requires
        0 <= i <= es.len(),
        forall|k1: int, k2: int| 0 <= k1 < k2 < es.len() ==> es[k1].0 != es[k2].0,
    ensures
        ({
            let ms = suffix_match_keys(es.take(i), q);
            &&& forall|t1: int, t2: int| 0 <= t1 < t2 < ms.len() ==> ms[t1] != ms[t2]
            &&& forall|t: int|
                0 <= t < ms.len() ==> exists|j: int| 0 <= j < i && es[j].0 == #[trigger] ms[t]
        }),
    decreases i,
{
    if i == 0 {
        reveal(Seq::filter);
        assert(es.take(0) =~= Seq::<(Seq<char>, CovView)>::empty());
        assert(es.take(0).map_values(|e: (Seq<char>, CovView)| e.0) =~= Seq::<Seq<char>>::empty());
    } else {
        lemma_suffix_keys_unique(es, q, i - 1);
        lemma_suffix_keys_step(es, q, i - 1);
        let prev = suffix_match_keys(es.take(i - 1), q);
        let ms = suffix_match_keys(es.take(i), q);
        if suffix_related(es[i - 1].0, q) {
            assert(ms == prev.push(es[i - 1].0));
            assert forall|t1: int, t2: int| 0 <= t1 < t2 < ms.len() implies ms[t1] != ms[t2] by {
                if t2 == ms.len() - 1 {
                    assert(ms[t2] == es[i - 1].0);
                    let j = choose|j: int| 0 <= j < i - 1 && es[j].0 == prev[t1];
                    assert(es[j].0 != es[i - 1].0);
                }
            }
            assert forall|t: int| 0 <= t < ms.len() implies exists|j: int|
                0 <= j < i && es[j].0 == #[trigger] ms[t] by {
                if t < ms.len() - 1 {
                    let j = choose|j: int| 0 <= j < i - 1 && es[j].0 == prev[t];
                    assert(es[j].0 == ms[t]);
                } else {
                    assert(es[i - 1].0 == ms[t]);
                }
            }
        } else {
            assert(ms == prev);
        }
    }
}

proof fn lemma_suffix_keys_step(es: Seq<(Seq<char>, CovView)>, q: Seq<char>, i: int)
    requires
        0 <= i < es.len(),
    ensures
        suffix_match_keys(es.take(i + 1), q) == if suffix_related(es[i].0, q) {
            suffix_match_keys(es.take(i), q).push(es[i].0)
        } else {
            suffix_match_keys(es.take(i), q)
        },
{
    reveal(Seq::filter);
    let keys1 = es.take(i + 1).map_values(|e: (Seq<char>, CovView)| e.0);
    let keys0 = es.take(i).map_values(|e: (Seq<char>, CovView)| e.0);
    assert(keys1.drop_last() =~= keys0);
    assert(keys1.last() == es[i].0);
    assert(keys1.len() > 0);
}

/// Insertion into a strictly lexicographically sorted vector of strings; a
/// string already present is not duplicated.
fn insert_lex_sorted(out: &mut Vec<String>, x: String)
    requires
        lex_sorted_strict(strings_view(old(out)@)),
    ensures
        lex_sorted_strict(strings_view(final(out)@)),
        strings_view(final(out)@).to_set() == strings_view(old(out)@).to_set().insert(x@),
        !strings_view(old(out)@).contains(x@) ==> final(out)@.len() == old(out)@.len() + 1,
{
    let n = out.len();
    let mut p: usize = 0;
    loop
        invariant
            out@ == old(out)@,
            n == out@.len(),
            p <= n,
            forall|t: int|
                0 <= t < p ==> lex_le((#[trigger] strings_view(out@)[t]), x@) && strings_view(
                    out@,
                )[t] != x@,
        ensures
            out@ == old(out)@,
            p <= n,
            forall|t: int|
                0 <= t < p ==> lex_le((#[trigger] strings_view(out@)[t]), x@) && strings_view(
                    out@,
                )[t] != x@,
            p < n ==> !(lex_le(strings_view(out@)[p as int], x@) && strings_view(out@)[p as int]
                != x@),
        decreases n - p,
    {
        if p >= n {
            break ;
        }
        let cmp_le = str_lex_le(out[p].as_str(), x.as_str());
        let cmp_eq = str_eq(out[p].as_str(), x.as_str());
        proof {
            assert(strings_view(out@)[p as int] == out@[p as int]@);
        }
        if !(cmp_le && !cmp_eq) {
            break ;
        }
        p = p + 1;
    }
    proof {
        assert(forall|t: int|
            0 <= t < out@.len() ==> (#[trigger] strings_view(out@)[t]) == out@[t]@);
    }
    if p < n {
        let same = str_eq(out[p].as_str(), x.as_str());
        if same {
            proof {
                let sv = strings_view(out@);
                assert(sv[p as int] == x@);
                assert(sv.contains(x@));
                assert(sv.to_set() =~= sv.to_set().insert(x@));
            }
            return ;
        }
    }
    proof {
        lemma_insert_keeps_set(strings_view(old(out)@), p as int, x@);
        strings_view(old(out)@).insert_ensures(p as int, x@);
    }
    out.insert(p, x);
    proof {
        let s = strings_view(old(out)@);
        let ins = strings_view(final(out)@);
        assert(ins =~= s.insert(p as int, x@)) by {
            s.insert_ensures(p as int, x@);
            assert(forall|t: int|
                0 <= t < ins.len() ==> (#[trigger] ins[t]) == final(out)@[t]@);
            assert(forall|t: int| 0 <= t < p ==> final(out)@[t] == old(out)@[t]);
            assert(forall|t: int|
                p < t < ins.len() ==> final(out)@[t] == old(out)@[t - 1]);
            assert(final(out)@[p as int] == x);
        };
        let gp = p as int;
        if gp < s.len() {
            // the scan stopped before the end: the element there is above x
            assert(!(lex_le(s[gp], x@) && s[gp] != x@));
            lemma_lex_le_from_total(s[gp], x@, 0);
            if s[gp] == x@ {
                assert(false);
            }
            assert(lex_le(x@, s[gp]) && x@ != s[gp]);
        }
        assert forall|i: int, j: int| 0 <= i < j < ins.len() implies lex_le(ins[i], ins[j])
            && ins[i] != ins[j] by {
            if j < gp {
            } else if i < gp && j == gp {
                assert(ins[i] == s[i] && ins[j] == x@);
            } else if i < gp {
                assert(ins[i] == s[i] && ins[j] == s[j - 1]);
            } else if i == gp {
                assert(ins[i] == x@ && ins[j] == s[j - 1]);
                assert(lex_le(x@, s[gp]) && x@ != s[gp]);
                if j - 1 == gp {
                } else {
                    assert(lex_le(s[gp], s[j - 1]) && s[gp] != s[j - 1]);
                    lemma_lex_le_from_trans(x@, s[gp], s[j - 1], 0);
                    if x@ == s[j - 1] {
                        lemma_lex_le_from_antisym(s[gp], x@, 0);
                    }
                }
            } else {
                assert(ins[i] == s[i - 1] && ins[j] == s[j - 1]);
            }
        }
    }
}

/// The matching keys, sorted ascending.  The input holds no duplicates, so
/// the result is a strictly sorted permutation of it.
fn sort_matches(values: Vec<String>) -> (r: Vec<String>)
    requires
        forall|k1: int, k2: int|
            0 <= k1 < k2 < values@.len() ==> values@[k1]@ != values@[k2]@,
    ensures
        lex_sorted_strict(strings_view(r@)),
        strings_view(r@).to_set() == strings_view(values@).to_set(),
        r@.len() == values@.len(),
    decreases values@.len(),
{
    let mut values = values;
    let mut out: Vec<String> = Vec::new();
    let n = values.len();
    proof {
        assert(strings_view(out@) =~= Seq::<Seq<char>>::empty());
        assert(strings_view(values@.take(0)) =~= Seq::<Seq<char>>::empty());
        assert(Seq::<Seq<char>>::empty().to_set() =~= Set::<Seq<char>>::empty());
    }
    let ghost orig = values@;
    let mut i: usize = 0;
    while i < n
        invariant
            values@ == orig,
            n == orig.len(),
            i <= n,
            forall|k1: int, k2: int| 0 <= k1 < k2 < orig.len() ==> orig[k1]@ != orig[k2]@,
            lex_sorted_strict(strings_view(out@)),
            strings_view(out@).to_set() == strings_view(orig.take(i as int)).to_set(),
            out@.len() == i,
        decreases n - i,
    {
        let x = values[i].clone();
        proof {
            // x has not been placed yet: it differs from every earlier input
            let sv = strings_view(out@);
            let pfx = strings_view(orig.take(i as int));
            assert forall|t: int| 0 <= t < pfx.len() implies (#[trigger] pfx[t]) != x@ by {
                assert(pfx[t] == orig.take(i as int)[t]@);
                assert(orig.take(i as int)[t] == orig[t]);
                assert(orig[i as int]@ == x@);
            }
            if sv.contains(x@) {
                assert(sv.to_set().contains(x@));
                assert(pfx.to_set().contains(x@));
                assert(pfx.contains(x@));
            }
        }
        insert_lex_sorted(&mut out, x);
        proof {
            let pfx1 = strings_view(orig.take(i + 1));
            let pfx = strings_view(orig.take(i as int));
            assert(pfx1 =~= pfx.push(orig[i as int]@)) by {
                assert(forall|t: int|
                    0 <= t < pfx1.len() ==> (#[trigger] pfx1[t]) == orig.take(i + 1)[t]@);
            }
            Seq::<Seq<char>>::lemma_to_set_insert_commutes(pfx, orig[i as int]@);
            assert(pfx.push(orig[i as int]@) =~= pfx + seq![orig[i as int]@]);
            // out stayed one longer: the inserted string was absent
        }
        i = i + 1;
    }
    proof {
        assert(orig.take(n as int) =~= orig);
    }
    out
}

/// A copy of a line vector.
pub(crate) fn copy_lines(v: &Vec<u32>) -> (r: Vec<u32>)
    ensures
        r@ == v@,
{
    let mut r: Vec<u32> = Vec::new();
    let n = v.len();
    let mut i: usize = 0;
    while i < n
        invariant
            n == v@.len(),
            i <= n,
            r@ == v@.take(i as int),
        decreases n - i,
    {
        r.push(v[i]);
        proof {
            assert(r@ =~= v@.take(i + 1));
        }
        i = i + 1;
    }
    proof {
        assert(r@ =~= v@);
    }
    r
}

} // verus!
