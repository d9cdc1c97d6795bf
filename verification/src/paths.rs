//! Path normalisation: coverage tools and diff tools write the same file
//! under different spellings, so both sides are brought to one form —
//! forward slashes, no leading `./` — before they are compared.

use vstd::prelude::*;

use vstd::string::StrSliceExecFns;

use crate::text::{chars_start_with, chars_to_string, starts_with, str_to_chars, subvec};

verus! {

/// `s` with every backslash replaced by a forward slash.
pub open spec fn slashed(s: Seq<char>) -> Seq<char> {
    s.map_values(
        |c: char|
            if c == '\\' {
                '/'
            } else {
                c
            },
    )
}

/// `s` with every leading `./` removed.
pub open spec fn strip_dot_slashes(s: Seq<char>) -> Seq<char>
    decreases s.len(),
{
    if s.len() >= 2 && s[0] == '.' && s[1] == '/' {
        strip_dot_slashes(s.skip(2))
    } else {
        s
    }
}

/// The universal path-normalisation rule: forward slashes, no leading `./`.
pub open spec fn normal_path(s: Seq<char>) -> Seq<char> {
    strip_dot_slashes(slashed(s))
}

/// Whether `p` is written as an absolute path.
pub open spec fn is_absolute(p: Seq<char>) -> bool {
    p.len() > 0 && p[0] == '/'
}

/// What normalising a coverage-declared path against the working directory
/// `base` yields: an absolute path under `base` is first rewritten relative
/// to it, then the universal rule is applied.
pub open spec fn coverage_path_spec(p: Seq<char>, base: Seq<char>) -> Seq<char> {
    if is_absolute(p) && base.len() > 0 && starts_with(p, base.push('/')) {
        normal_path(p.skip(base.len() as int + 1))
    } else {
        normal_path(p)
    }
}

/// Applies the universal path-normalisation rule.
pub fn normalize_path(path: &str) -> (r: String)
    ensures
        r@ == normal_path(path@),
{
    let v = str_to_chars(path);
    normalize_chars(v)
}

/// Applies the universal rule to a path given as characters.
fn normalize_chars(v: Vec<char>) -> (r: String)
    ensures
        r@ == normal_path(v@),
{
    let mut w: Vec<char> = Vec::new();
    let n = v.len();
    let mut i: usize = 0;
    while i < n
        invariant
            n == v@.len(),
            i <= n,
            w@ == slashed(v@.take(i as int)),
        decreases n - i,
    {
        let c = v[i];
        if c == '\\' {
            w.push('/');
        } else {
            w.push(c);
        }
        proof {
            assert(w@ =~= slashed(v@.take(i + 1)));
        }
        i = i + 1;
    }
    proof {
        assert(v@.take(n as int) =~= v@);
    }
    let wn = w.len();
    let mut s: usize = 0;
    proof {
        assert(w@.skip(0) =~= w@);
    }
    loop
        invariant
            wn == w@.len(),
            s <= wn,
            strip_dot_slashes(w@.skip(s as int)) == strip_dot_slashes(w@),
        ensures
            s <= wn,
            strip_dot_slashes(w@.skip(s as int)) == strip_dot_slashes(w@),
            strip_dot_slashes(w@.skip(s as int)) == w@.skip(s as int),
        decreases wn - s,
    {
        if wn - s < 2 {
            break ;
        }
        if w[s] != '.' {
            break ;
        }
        if w[s + 1] != '/' {
            break ;
        }
        proof {
            assert(w@.skip(s as int).skip(2) =~= w@.skip(s + 2));
        }
        s = s + 2;
    }
    let tail = subvec(&w, s, wn);
    proof {
        assert(tail@ == w@.skip(s as int)) by {
            assert(w@.subrange(s as int, wn as int) =~= w@.skip(s as int));
        }
        assert(strip_dot_slashes(w@.skip(s as int)) == w@.skip(s as int));
    }
    chars_to_string(&tail)
}

/// Normalises a path declared by a coverage report, rewriting an absolute
/// path that lies under the working directory `base` relative to it first —
/// exactly [`coverage_path_spec`].
pub fn normalize_coverage_path(path: &str, base: &str) -> (r: String)
    ensures
        r@ == coverage_path_spec(path@, base@),
{
    let p = str_to_chars(path);
    let pn = p.len();
    let bn = base.unicode_len();
    let mut under_base = pn > 0 && bn > 0 && pn - 1 >= bn;
    if under_base && p[0] != '/' {
        under_base = false;
    }
    if under_base && !chars_start_with(&p, base) {
        under_base = false;
    }
    if under_base && p[bn] != '/' {
        under_base = false;
    }
    proof {
        let ext = base@.push('/');
        if under_base {
            assert(p@.take(bn + 1) =~= ext) by {
                assert(forall|t: int| 0 <= t < bn ==> p@.take(bn as int)[t] == #[trigger] base@[t]);
            }
            assert(starts_with(p@, ext));
        } else {
            if is_absolute(p@) && base@.len() > 0 && starts_with(p@, ext) {
                assert(forall|t: int| 0 <= t < bn + 1 ==> p@.take(bn + 1)[t] == #[trigger] ext[t]);
                assert(p@.take(bn as int) =~= base@) by {
                    assert(forall|t: int|
                        0 <= t < bn ==> p@.take(bn as int)[t] == p@.take(bn + 1)[t]);
                }
                assert(starts_with(p@, base@));
                assert(p@[bn as int] == ext[bn as int]);
                assert(ext[bn as int] == '/');
            }
        }
    }
    if under_base {
        let rest = subvec(&p, bn + 1, pn);
        proof {
            assert(rest@ =~= p@.skip(bn as int + 1));
        }
        normalize_chars(rest)
    } else {
        normalize_chars(p)
    }
}

} // verus!
