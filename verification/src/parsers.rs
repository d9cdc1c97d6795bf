//! The two coverage-format parsers.  Format sniffing is a set of cheap
//! substring checks over the first part of the input; parsing is driven by
//! the XML event layer, with every decision about an event — which tags
//! open a file section, which attributes carry line numbers and hit
//! counts, which lines are skipped — made by verified transition
//! functions with exact contracts.

use vstd::prelude::*;
use vstd::string::StringSliceAdditionalSpecFns;
use vstd::utf8::valid_utf8;

use crate::paths::{coverage_path_spec, normalize_coverage_path};
use crate::store::{store_on_file, store_on_line, CovView, CoverageStore};
use crate::text::{
    all_dec_digits, bytes_contain, bytes_contain_str, dec_value, is_dec_digit, parse_u32_range,
    parse_u32_spec, str_eq, str_to_chars, subvec,
};
use crate::xml::{
    attrs_view, event_view, first_terminal, is_terminal, lemma_first_terminal_props,
    xml_event_at, XmlDocument, XmlError, XmlEvent, XmlEventModel, XmlTag,
};

verus! {

/// The Cobertura-style XML coverage format: `class` tags carry `filename`
/// attributes, nested `line` tags carry `number` and `hits`.
pub struct CoberturaParser;

/// The Clover-style XML coverage format: `file` tags carry `name`, `path`
/// or `filename` attributes, nested `line` tags carry `num`/`number` and
/// `count`/`hits`, and `type="method"` lines are structural markers.
pub struct CloverParser;

/// A coverage format: it can say whether a byte stream looks like its
/// format, and it can stream the per-line hit counts into a store.
pub trait CoverageParser {
    /// What the format sniff of this parser answers on the given text.
    spec fn can_parse_spec(&self, head: Seq<u8>) -> bool;

    /// What the store holds after this format has consumed the first `k`
    /// events of `data`'s stream, starting from the entries `es0`.
    spec fn parse_fold(
        &self,
        data: Seq<u8>,
        base: Seq<char>,
        es0: Seq<(Seq<char>, CovView)>,
        k: int,
    ) -> Seq<(Seq<char>, CovView)>;

    /// Bounded-lookahead format sniffing over the first part of the input.
    fn can_parse(&self, head: &[u8]) -> (r: bool)
        ensures
            r == self.can_parse_spec(head@),
    ;

    /// Full single-pass parse of `data`, streaming `(file, line, hits)`
    /// into the store; `base` is the working directory that absolute
    /// coverage paths are rewritten against.  The store receives exactly
    /// the fold of this format's transition over the document's events up
    /// to its first terminal one; the result is `Ok` when that event is
    /// the end of the document and `Err` when it is a failed read.
    fn parse(&self, data: &[u8], base: &str, sink: &mut CoverageStore) -> (r: Result<
        (),
        XmlError,
    >)
        requires
            old(sink).wf(),
        ensures
            final(sink).wf(),
            (r is Ok) == (xml_event_at(data@, first_terminal(data@)) is End),
            (r is Err) == (xml_event_at(data@, first_terminal(data@)) is Fail),
            final(sink).entries() == self.parse_fold(
                data@,
                base@,
                old(sink).entries(),
                first_terminal(data@),
            ),
    ;
}

// ---------------------------------------------------------------------------
// Numeric attribute values.
// ---------------------------------------------------------------------------
/// First index `>= i` of a dot, or `s.len()`.
pub open spec fn find_dot_from(s: Seq<char>, i: int) -> int
    decreases s.len() - i,
{
    if i < 0 || i >= s.len() || s[i] == '.' {
        i
    } else {
        find_dot_from(s, i + 1)
    }
}

/// First index `>= i` of an `e` or `E`, or `s.len()`.
pub open spec fn find_exp_from(s: Seq<char>, i: int) -> int
    decreases s.len() - i,
{
    if i < 0 || i >= s.len() || s[i] == 'e' || s[i] == 'E' {
        i
    } else {
        find_exp_from(s, i + 1)
    }
}

/// Ten to the `e`-th power (one for `e <= 0`).
pub open spec fn pow10(e: int) -> int
    decreases e,
{
    if e <= 0 {
        1
    } else {
        10 * pow10(e - 1)
    }
}

/// The decimal-truncation fallback: a plain decimal number — an optional
/// sign, digits with an optional fraction (at least one digit in all), an
/// optional exponent — coerced to a non-negative integer by dropping
/// everything after the decimal point, clamping negative values to zero
/// and values above `u32::MAX` to `u32::MAX`.
pub open spec fn dec_trunc_spec(s: Seq<char>) -> Option<u32> {
    let body = if s.len() > 0 && (s[0] == '+' || s[0] == '-') {
        s.skip(1)
    } else {
        s
    };
    let neg = s.len() > 0 && s[0] == '-';
    let epos = find_exp_from(body, 0);
    let mant = body.take(epos);
    let has_exp = epos < body.len();
    let etoken = body.skip(epos + 1);
    let eneg = etoken.len() > 0 && etoken[0] == '-';
    let edigits = if etoken.len() > 0 && (etoken[0] == '+' || etoken[0] == '-') {
        etoken.skip(1)
    } else {
        etoken
    };
    let d = find_dot_from(mant, 0);
    let ip = mant.take(d);
    let fp = if d < mant.len() {
        mant.skip(d + 1)
    } else {
        Seq::empty()
    };
    let mant_ok = all_dec_digits(ip) && all_dec_digits(fp) && ip.len() + fp.len() > 0;
    let exp_ok = !has_exp || (edigits.len() > 0 && all_dec_digits(edigits));
    if !(mant_ok && exp_ok) {
        None
    } else if neg {
        Some(0)
    } else {
        let e = if !has_exp {
            0
        } else if eneg {
            -dec_value(edigits)
        } else {
            dec_value(edigits)
        };
        let digits = ip + fp;
        let point = ip.len() + e;
        let floor = if point <= 0 {
            0
        } else if point >= digits.len() {
            dec_value(digits) * pow10(point - digits.len() as int)
        } else {
            dec_value(digits.take(point))
        };
        if floor > u32::MAX {
            Some(u32::MAX)
        } else {
            Some(floor as u32)
        }
    }
}

/// What the lossy hit-count coercion yields: an ordinary integer when the
/// value parses as one, else the decimal-truncation fallback.
pub open spec fn parse_u32_lossy_spec(s: Seq<char>) -> Option<u32> {
    match parse_u32_spec(s) {
        Some(v) => Some(v),
        None => dec_trunc_spec(s),
    }
}

fn find_dot_exec(v: &Vec<char>, i: usize) -> (r: usize)
    requires
        i <= v@.len(),
    ensures
        r == find_dot_from(v@, i as int),
        i <= r <= v@.len(),
    decreases v@.len() - i,
{
    if i >= v.len() {
        i
    } else if v[i] == '.' {
        i
    } else {
        find_dot_exec(v, i + 1)
    }
}

/// Checks that `v[from..to]` is all decimal digits.
fn all_digits_exec(v: &Vec<char>, from: usize, to: usize) -> (r: bool)
    requires
        from <= to <= v@.len(),
    ensures
        r == all_dec_digits(v@.subrange(from as int, to as int)),
{
    let ghost s = v@.subrange(from as int, to as int);
    let mut i: usize = from;
    while i < to
        invariant
            from <= i <= to <= v@.len(),
            s == v@.subrange(from as int, to as int),
            forall|t: int| 0 <= t < i - from ==> is_dec_digit(#[trigger] s[t]),
        decreases to - i,
    {
        let c = v[i];
        proof {
            assert(s[i - from] == c);
        }
        if c < '0' || c > '9' {
            proof {
                assert(!is_dec_digit(s[i - from]));
            }
            return false;
        }
        i = i + 1;
    }
    true
}

/// The integer value of the digit string `v[from..to]`, clamped to
/// `u32::MAX`.
fn dec_value_clamped(v: &Vec<char>, from: usize, to: usize) -> (r: u32)
    requires
        from <= to <= v@.len(),
        all_dec_digits(v@.subrange(from as int, to as int)),
    ensures
        ({
            let s = v@.subrange(from as int, to as int);
            if dec_value(s) > u32::MAX {
                r == u32::MAX
            } else {
                r as int == dec_value(s)
            }
        }),
{
    let ghost s = v@.subrange(from as int, to as int);
    let mut acc: u64 = 0;
    let mut sat: bool = false;
    let mut i: usize = from;
    proof {
        assert(s.take(0) =~= Seq::<char>::empty());
    }
    while i < to
        invariant
            from <= i <= to <= v@.len(),
            s == v@.subrange(from as int, to as int),
            all_dec_digits(s),
            !sat ==> acc == dec_value(s.take(i - from)) && acc <= u32::MAX,
            sat ==> dec_value(s.take(i - from)) > u32::MAX,
        decreases to - i,
    {
        let c = v[i];
        proof {
            assert(s[i - from] == c);
            assert(is_dec_digit(c));
            assert(c as int <= 0x10FFFF);
            assert(s.take(i - from + 1).drop_last() =~= s.take(i - from));
            assert(s.take(i - from + 1).last() == c);
            assert(all_dec_digits(s.take(i - from))) by {
                assert(forall|t: int|
                    0 <= t < i - from ==> #[trigger] s.take(i - from)[t] == s[t]);
            }
        }
        let cv = c as u32;
        proof {
            assert(cv as int == c as int);
        }
        let d: u64 = (cv - 48) as u64;
        if sat {
            proof {
                crate::text::lemma_dec_value_nonneg(s.take(i - from));
                assert(dec_value(s.take(i - from + 1)) == dec_value(s.take(i - from)) * 10 + (
                c as int - '0' as int));
            }
        } else {
            let next: u64 = acc * 10 + d;
            if next > u32::MAX as u64 {
                sat = true;
            } else {
                acc = next;
            }
        }
        i = i + 1;
    }
    proof {
        assert(s.take(to - from) =~= s);
    }
    if sat {
        u32::MAX
    } else {
        acc as u32
    }
}

/// First index `>= i` of an `e` or `E` in `v`, or `v.len()`.
fn find_exp_exec(v: &Vec<char>, i: usize) -> (r: usize)
    requires
        i <= v@.len(),
    ensures
        r == find_exp_from(v@, i as int),
        i <= r <= v@.len(),
    decreases v@.len() - i,
{
    if i >= v.len() {
        i
    } else if v[i] == 'e' || v[i] == 'E' {
        i
    } else {
        find_exp_exec(v, i + 1)
    }
}

/// The value of the digit string `v[from..to]`, exact up to `cap` and
/// `cap + 1` for anything beyond it.
fn dec_value_sat(v: &Vec<char>, from: usize, to: usize, cap: u128) -> (r: u128)
    requires
        from <= to <= v@.len(),
        all_dec_digits(v@.subrange(from as int, to as int)),
        cap <= 0xFFFF_FFFF_FFFF_FFFF_FFFF,
    ensures
        ({
            let s = v@.subrange(from as int, to as int);
            if dec_value(s) > cap {
                r == cap + 1
            } else {
                r as int == dec_value(s)
            }
        }),
{
    let ghost s = v@.subrange(from as int, to as int);
    let mut acc: u128 = 0;
    let mut sat: bool = false;
    let mut i: usize = from;
    proof {
        assert(s.take(0) =~= Seq::<char>::empty());
    }
    while i < to
        invariant
            from <= i <= to <= v@.len(),
            s == v@.subrange(from as int, to as int),
            all_dec_digits(s),
            cap <= 0xFFFF_FFFF_FFFF_FFFF_FFFF,
            !sat ==> acc as int == dec_value(s.take(i - from)) && acc <= cap,
            sat ==> dec_value(s.take(i - from)) > cap,
        decreases to - i,
    {
        let c = v[i];
        proof {
            assert(s[i - from] == c);
            assert(is_dec_digit(c));
            assert(c as int <= 0x10FFFF);
            assert(s.take(i - from + 1).drop_last() =~= s.take(i - from));
            assert(s.take(i - from + 1).last() == c);
            assert(all_dec_digits(s.take(i - from))) by {
                assert(forall|t: int|
                    0 <= t < i - from ==> #[trigger] s.take(i - from)[t] == s[t]);
            }
        }
        let cv = c as u32;
        proof {
            assert(cv as int == c as int);
        }
        let d: u128 = (cv - 48) as u128;
        if sat {
            proof {
                crate::text::lemma_dec_value_nonneg(s.take(i - from));
                assert(dec_value(s.take(i - from + 1)) == dec_value(s.take(i - from)) * 10 + (
                c as int - '0' as int));
            }
        } else {
            let next: u128 = acc * 10 + d;
            if next > cap {
                sat = true;
            } else {
                acc = next;
            }
        }
        i = i + 1;
    }
    proof {
        assert(s.take(to - from) =~= s);
    }
    if sat {
        cap + 1
    } else {
        acc
    }
}

pub proof fn lemma_pow10_pos(e: int)
    ensures
        pow10(e) >= 1,
    decreases e,
{
    if e > 0 {
        lemma_pow10_pos(e - 1);
    }
}

proof fn lemma_pow10_big(e: int)
    requires
        e >= 10,
    ensures
        pow10(e) > u32::MAX,
    decreases e,
{
    if e == 10 {
        assert(pow10(0) == 1);
        assert(pow10(1) == 10);
        assert(pow10(2) == 100);
        assert(pow10(3) == 1000);
        assert(pow10(4) == 10000);
        assert(pow10(5) == 100000);
        assert(pow10(6) == 1000000);
        assert(pow10(7) == 10000000);
        assert(pow10(8) == 100000000);
        assert(pow10(9) == 1000000000);
        assert(pow10(10) == 10000000000);
    } else {
        lemma_pow10_big(e - 1);
    }
}

proof fn lemma_pow10_add(a: int, b: int)
    requires
        a >= 0,
        b >= 0,
    ensures
        pow10(a + b) == pow10(a) * pow10(b),
    decreases a,
{
    if a > 0 {
        lemma_pow10_add(a - 1, b);
        assert(pow10(a + b) == 10 * pow10(a - 1 + b));
        assert(10 * (pow10(a - 1) * pow10(b)) == (10 * pow10(a - 1)) * pow10(b))
            by (nonlinear_arith);
    }
}

/// The spec-level floor of `digits` with the decimal point placed after
/// `ip_len` digits and then shifted by the signed exponent.
pub open spec fn shifted_floor_spec(
    digits: Seq<char>,
    ip_len: int,
    eneg: bool,
    edigits: Seq<char>,
) -> int {
    let e = if eneg {
        -dec_value(edigits)
    } else {
        dec_value(edigits)
    };
    let point = ip_len + e;
    if point <= 0 {
        0
    } else if point >= digits.len() {
        dec_value(digits) * pow10(point - digits.len() as int)
    } else {
        dec_value(digits.take(point))
    }
}

/// The floor of the shifted digit string, clamped to `u32::MAX`.
fn shifted_floor(digits: &Vec<char>, ip_len: usize, eneg: bool, edigits: &Vec<char>) -> (r: u32)
    requires
        ip_len <= digits@.len(),
        all_dec_digits(digits@),
        all_dec_digits(edigits@),
    ensures
        ({
            let floor = shifted_floor_spec(digits@, ip_len as int, eneg, edigits@);
            if floor > u32::MAX {
                r == u32::MAX
            } else {
                r as int == floor
            }
        }),
{
    let dlen = digits.len();
    let fp_len = dlen - ip_len;
    let edn = edigits.len();
    let ghost e_spec: int = if eneg {
        -dec_value(edigits@)
    } else {
        dec_value(edigits@)
    };
    let ghost point = ip_len as int + e_spec;
    let ghost floor_spec = shifted_floor_spec(digits@, ip_len as int, eneg, edigits@);
    proof {
        crate::text::lemma_dec_value_nonneg(edigits@);
        assert(edigits@.subrange(0, edn as int) =~= edigits@);
        assert(digits@.subrange(0, dlen as int) =~= digits@);
    }
    if eneg {
        let e_sat = dec_value_sat(edigits, 0, edn, ip_len as u128);
        if e_sat >= ip_len as u128 {
            proof {
                assert(point <= 0);
            }
            return 0;
        }
        let pt = ip_len - (e_sat as usize);
        proof {
            assert(e_sat as usize as u128 == e_sat);
            assert(point == pt);
            assert(0 < pt && pt <= ip_len);
            if point >= dlen as int {
                assert(pt == dlen);
                assert(digits@.take(dlen as int) =~= digits@);
                assert(pow10(0) == 1);
            }
            assert(digits@.subrange(0, pt as int) =~= digits@.take(pt as int));
        }
        return dec_value_clamped(digits, 0, pt);
    }
    // non-negative exponent
    let cap: u128 = fp_len as u128 + 10;
    proof {
        assert(fp_len <= usize::MAX);
        assert(cap <= 0xFFFF_FFFF_FFFF_FFFF_FFFF);
    }
    let e_sat: u128 = dec_value_sat(edigits, 0, edn, cap);
    if e_sat <= fp_len as u128 {
        // the point stays within the digit string
        let pt = ip_len + (e_sat as usize);
        proof {
            assert(e_sat as usize as u128 == e_sat);
            assert(point == pt);
            if point >= dlen as int {
                assert(pt == dlen);
                assert(digits@.take(dlen as int) =~= digits@);
                assert(pow10(0) == 1);
            }
            if point <= 0 {
                assert(pt == 0);
                assert(digits@.subrange(0, 0) =~= Seq::<char>::empty());
            }
            assert(digits@.subrange(0, pt as int) =~= digits@.take(pt as int));
        }
        return dec_value_clamped(digits, 0, pt);
    }
    // the point lies past the digits: floor = digits times 10^(e - fp_len)
    proof {
        assert(e_spec > fp_len);
        assert(point > dlen as int);
    }
    let val = dec_value_clamped(digits, 0, dlen);
    proof {
        crate::text::lemma_dec_value_nonneg(digits@);
        lemma_pow10_pos(point - dlen as int);
        assert(floor_spec == dec_value(digits@) * pow10(point - dlen as int));
    }
    if val == 0 {
        proof {
            assert(floor_spec == 0) by (nonlinear_arith)
                requires
                    floor_spec == dec_value(digits@) * pow10(point - dlen as int),
                    dec_value(digits@) == 0,
            ;
        }
        return 0;
    }
    if val == u32::MAX || e_sat >= cap {
        proof {
            let excess = point - dlen as int;
            if e_sat >= cap {
                assert(e_spec >= fp_len + 10);
                assert(excess >= 10);
                lemma_pow10_big(excess);
                assert(floor_spec > u32::MAX) by (nonlinear_arith)
                    requires
                        floor_spec == dec_value(digits@) * pow10(excess),
                        dec_value(digits@) >= 1,
                        pow10(excess) > 0xFFFF_FFFFu32,
                ;
            } else {
                assert(dec_value(digits@) >= u32::MAX);
                assert(excess >= 1);
                assert(pow10(excess) >= 10) by {
                    lemma_pow10_pos(excess - 1);
                }
                assert(floor_spec > u32::MAX) by (nonlinear_arith)
                    requires
                        floor_spec == dec_value(digits@) * pow10(excess),
                        dec_value(digits@) >= 0xFFFF_FFFFu32,
                        pow10(excess) >= 10,
                ;
            }
        }
        return u32::MAX;
    }
    // 1 <= excess <= 9 and the digit value is exact: multiply out
    let excess: usize = (e_sat - fp_len as u128) as usize;
    proof {
        assert(e_sat - fp_len as u128 <= 9);
        assert(excess as u128 == e_sat - fp_len as u128);
        assert(point - dlen as int == excess);
        assert(1 <= excess <= 9);
        assert(pow10(0) == 1);
    }
    let mut acc: u64 = val as u64;
    let mut k: usize = 0;
    while k < excess
        invariant
            1 <= excess <= 9,
            k <= excess,
            1 <= dec_value(digits@) < u32::MAX,
            floor_spec == shifted_floor_spec(digits@, ip_len as int, eneg, edigits@),
            floor_spec == dec_value(digits@) * pow10(excess as int),
            acc as int == dec_value(digits@) * pow10(k as int),
            acc >= 1,
        decreases excess - k,
    {
        if acc > u32::MAX as u64 {
            proof {
                lemma_pow10_pos(excess - k);
                lemma_pow10_add(k as int, excess - k);
                assert(floor_spec == acc as int * pow10(excess - k)) by (nonlinear_arith)
                    requires
                        floor_spec == dec_value(digits@) * pow10(excess as int),
                        pow10(excess as int) == pow10(k as int) * pow10(excess - k),
                        acc as int == dec_value(digits@) * pow10(k as int),
                ;
                assert(floor_spec > u32::MAX) by (nonlinear_arith)
                    requires
                        floor_spec == acc as int * pow10(excess - k),
                        acc > 0xFFFF_FFFFu64,
                        pow10(excess - k) >= 1,
                ;
            }
            return u32::MAX;
        }
        proof {
            assert(pow10(k as int + 1) == 10 * pow10(k as int));
            assert(dec_value(digits@) * pow10(k as int + 1) == (dec_value(digits@) * pow10(
                k as int,
            )) * 10) by (nonlinear_arith);
        }
        acc = acc * 10;
        k = k + 1;
    }
    proof {
        assert(acc as int == floor_spec);
    }
    if acc > u32::MAX as u64 {
        return u32::MAX;
    }
    acc as u32
}

/// Parses a line or hit attribute value as an integer, or, failing that,
/// as a plain decimal number — sign, digits with an optional fraction,
/// an optional exponent — coerced to a non-negative integer, exactly
/// [`parse_u32_lossy_spec`].  Deliberately narrower than coercion through
/// a machine float in two ways: the word forms of infinity and
/// not-a-number are rejected rather than clamped, and the value is
/// truncated from its exact decimal reading, where a float would first
/// round to the nearest representable number and can land one past an
/// integer boundary.
#[verifier::rlimit(60)]
pub fn parse_u32_lossy(value: &str) -> (r: Option<u32>)
    ensures
        r == parse_u32_lossy_spec(value@),
{
    let v = str_to_chars(value);
    let n = v.len();
    let direct = parse_u32_range(&v, 0, n);
    proof {
        assert(v@.subrange(0, n as int) =~= v@);
    }
    if let Some(x) = direct {
        return Some(x);
    }
    // the fallback: sign, significand, optional exponent
    let has_sign = n > 0 && (v[0] == '+' || v[0] == '-');
    let neg = n > 0 && v[0] == '-';
    let start: usize = if has_sign {
        1
    } else {
        0
    };
    let body = subvec(&v, start, n);
    proof {
        if has_sign {
            assert(body@ =~= v@.skip(1));
        } else {
            assert(body@ =~= v@);
        }
    }
    let bn = body.len();
    let epos = find_exp_exec(&body, 0);
    let mant = subvec(&body, 0, epos);
    proof {
        assert(mant@ =~= body@.take(epos as int));
    }
    let has_exp = epos < bn;
    let et_from: usize = if has_exp {
        epos + 1
    } else {
        bn
    };
    let eneg = et_from < bn && body[et_from] == '-';
    let esigned = et_from < bn && (body[et_from] == '+' || body[et_from] == '-');
    let edig_from: usize = if esigned {
        et_from + 1
    } else {
        et_from
    };
    let edigits = subvec(&body, edig_from, bn);
    proof {
        if has_exp {
            let etoken = body@.skip(epos as int + 1);
            assert(etoken =~= body@.subrange(et_from as int, bn as int));
            if esigned {
                assert(edigits@ =~= etoken.skip(1));
            } else {
                assert(edigits@ =~= etoken);
            }
        }
    }
    let d = find_dot_exec(&mant, 0);
    let mn = mant.len();
    let ip_len = d;
    let ip = subvec(&mant, 0, d);
    let fp: Vec<char> = if d < mn {
        subvec(&mant, d + 1, mn)
    } else {
        Vec::new()
    };
    proof {
        assert(ip@ =~= mant@.take(d as int));
        if d < mn {
            assert(fp@ =~= mant@.skip(d as int + 1));
        } else {
            assert(fp@ =~= Seq::<char>::empty());
        }
    }
    let fp_len = fp.len();
    let ip_ok = all_digits_exec(&ip, 0, ip_len);
    let fp_ok = all_digits_exec(&fp, 0, fp_len);
    let edn = edigits.len();
    let edig_ok = all_digits_exec(&edigits, 0, edn);
    proof {
        assert(ip@.subrange(0, ip@.len() as int) =~= ip@);
        assert(fp@.subrange(0, fp@.len() as int) =~= fp@);
        assert(edigits@.subrange(0, edigits@.len() as int) =~= edigits@);
    }
    let mant_ok = ip_ok && fp_ok && (ip_len > 0 || fp_len > 0);
    let exp_ok = !has_exp || (edn > 0 && edig_ok);
    if !(mant_ok && exp_ok) {
        return None;
    }
    if neg {
        return Some(0);
    }
    // the digit string ip ++ fp; the point sits after ip_len digits
    let mut digits = ip;
    let mut fp_tail = fp;
    digits.append(&mut fp_tail);
    proof {
        assert(all_dec_digits(digits@)) by {
            assert(forall|t: int|
                0 <= t < ip_len ==> #[trigger] digits@[t] == mant@.take(ip_len as int)[t]);
            assert(forall|t: int|
                ip_len <= t < digits@.len() ==> #[trigger] digits@[t] == mant@.skip(
                    ip_len as int + 1,
                )[t - ip_len]);
        }
    }
    let exp_part: Vec<char> = if has_exp {
        edigits
    } else {
        Vec::new()
    };
    proof {
        if !has_exp {
            assert(exp_part@ =~= Seq::<char>::empty());
            assert(dec_value(exp_part@) == 0);
        }
    }
    let fl = shifted_floor(&digits, ip_len, eneg, &exp_part);
    proof {
        let sv = value@;
        let floor = shifted_floor_spec(digits@, ip_len as int, eneg, exp_part@);
        assert(dec_trunc_spec(sv) == (if floor > u32::MAX {
            Some(u32::MAX)
        } else {
            Some(floor as u32)
        }));
    }
    Some(fl)
}

// ---------------------------------------------------------------------------
// Attribute lookup and per-line attribute folds.
// ---------------------------------------------------------------------------
/// The value of the first attribute named `key`, from index `i` on.
pub open spec fn attr_first_from(
    avs: Seq<(Seq<char>, Seq<char>)>,
    key: Seq<char>,
    i: int,
) -> Option<Seq<char>>
    decreases avs.len() - i,
{
    if i < 0 || i >= avs.len() {
        None
    } else if avs[i].0 == key {
        Some(avs[i].1)
    } else {
        attr_first_from(avs, key, i + 1)
    }
}

/// The value of the first attribute named `key`.
pub open spec fn attr_first(avs: Seq<(Seq<char>, Seq<char>)>, key: Seq<char>) -> Option<
    Seq<char>,
> {
    attr_first_from(avs, key, 0)
}

/// Finds the first attribute named `key` and hands its value out.
fn read_attribute(tag: &XmlTag, key: &str) -> (r: Option<String>)
    ensures
        match r {
            Some(v) => attr_first(attrs_view(tag.attrs@), key@) == Some(v@),
            None => attr_first(attrs_view(tag.attrs@), key@) is None,
        },
{
    read_attribute_from(tag, key, 0)
}

fn read_attribute_from(tag: &XmlTag, key: &str, i: usize) -> (r: Option<String>)
    requires
        i <= tag.attrs@.len(),
    ensures
        match r {
            Some(v) => attr_first_from(attrs_view(tag.attrs@), key@, i as int) == Some(v@),
            None => attr_first_from(attrs_view(tag.attrs@), key@, i as int) is None,
        },
    decreases tag.attrs@.len() - i,
{
    proof {
        assert(attrs_view(tag.attrs@).len() == tag.attrs@.len());
    }
    if i >= tag.attrs.len() {
        None
    } else {
        proof {
            assert(attrs_view(tag.attrs@)[i as int] == (tag.attrs@[i as int].0@, tag.attrs@[
                i as int].1@));
        }
        if str_eq(tag.attrs[i].0.as_str(), key) {
            Some(tag.attrs[i].1.clone())
        } else {
            read_attribute_from(tag, key, i + 1)
        }
    }
}

/// The value of the first attribute carrying any of the three file-path
/// keys, checked in priority order: `name`, then `path`, then `filename`.
pub open spec fn clover_path_attr(avs: Seq<(Seq<char>, Seq<char>)>) -> Option<Seq<char>> {
    match attr_first(avs, "name"@) {
        Some(v) => Some(v),
        None => match attr_first(avs, "path"@) {
            Some(v) => Some(v),
            None => attr_first(avs, "filename"@),
        },
    }
}

/// Cobertura per-line attributes, folded left to right over the first `i`
/// attributes: the last `number` and `hits` values seen, parsed strictly.
pub open spec fn cob_line_vals(avs: Seq<(Seq<char>, Seq<char>)>, i: int) -> (
    Option<u32>,
    Option<u32>,
)
    decreases i,
{
    if i <= 0 {
        (None, None)
    } else {
        let prev = cob_line_vals(avs, i - 1);
        let a = avs[i - 1];
        if a.0 == "number"@ {
            (parse_u32_spec(a.1), prev.1)
        } else if a.0 == "hits"@ {
            (prev.0, parse_u32_spec(a.1))
        } else {
            prev
        }
    }
}

/// Clover per-line attributes, folded left to right: the last line number
/// (`num` or `number`), hit count (`count` or `hits`) — both through the
/// lossy coercion — and `type` value seen.
pub open spec fn clover_line_vals(avs: Seq<(Seq<char>, Seq<char>)>, i: int) -> (
    Option<u32>,
    Option<u32>,
    Option<Seq<char>>,
)
    decreases i,
{
    if i <= 0 {
        (None, None, None)
    } else {
        let prev = clover_line_vals(avs, i - 1);
        let a = avs[i - 1];
        if a.0 == "num"@ || a.0 == "number"@ {
            (parse_u32_lossy_spec(a.1), prev.1, prev.2)
        } else if a.0 == "count"@ || a.0 == "hits"@ {
            (prev.0, parse_u32_lossy_spec(a.1), prev.2)
        } else if a.0 == "type"@ {
            (prev.0, prev.1, Some(a.1))
        } else {
            prev
        }
    }
}

/// Reads a Cobertura `line` tag's `number` and `hits`, exactly
/// [`cob_line_vals`] over the whole attribute list.
fn cob_read_line(tag: &XmlTag) -> (r: (Option<u32>, Option<u32>))
    ensures
        r == cob_line_vals(attrs_view(tag.attrs@), tag.attrs@.len() as int),
{
    let ghost avs = attrs_view(tag.attrs@);
    let n = tag.attrs.len();
    let mut number: Option<u32> = None;
    let mut hits: Option<u32> = None;
    let mut i: usize = 0;
    while i < n
        invariant
            n == tag.attrs@.len(),
            avs == attrs_view(tag.attrs@),
            i <= n,
            (number, hits) == cob_line_vals(avs, i as int),
        decreases n - i,
    {
        proof {
            assert(avs[i as int] == (tag.attrs@[i as int].0@, tag.attrs@[i as int].1@));
        }
        let key = tag.attrs[i].0.as_str();
        let val = tag.attrs[i].1.as_str();
        if str_eq(key, "number") {
            let w = str_to_chars(val);
            let parsed = parse_u32_range(&w, 0, w.len());
            proof {
                assert(w@.subrange(0, w@.len() as int) =~= w@);
            }
            number = parsed;
        } else if str_eq(key, "hits") {
            let w = str_to_chars(val);
            let parsed = parse_u32_range(&w, 0, w.len());
            proof {
                assert(w@.subrange(0, w@.len() as int) =~= w@);
            }
            hits = parsed;
        }
        i = i + 1;
    }
    (number, hits)
}

/// Reads a Clover `line` tag's number, count and `type`, exactly
/// [`clover_line_vals`] over the whole attribute list.
fn clover_read_line(tag: &XmlTag) -> (r: (Option<u32>, Option<u32>, Option<String>))
    ensures
        ({
            let s = clover_line_vals(attrs_view(tag.attrs@), tag.attrs@.len() as int);
            &&& r.0 == s.0
            &&& r.1 == s.1
            &&& match r.2 {
                Some(t) => s.2 == Some(t@),
                None => s.2 is None,
            }
        }),
{
    let ghost avs = attrs_view(tag.attrs@);
    let n = tag.attrs.len();
    let mut number: Option<u32> = None;
    let mut hits: Option<u32> = None;
    let mut kind: Option<String> = None;
    let mut i: usize = 0;
    while i < n
        invariant
            n == tag.attrs@.len(),
            avs == attrs_view(tag.attrs@),
            i <= n,
            ({
                let s = clover_line_vals(avs, i as int);
                &&& number == s.0
                &&& hits == s.1
                &&& match kind {
                    Some(t) => s.2 == Some(t@),
                    None => s.2 is None,
                }
            }),
        decreases n - i,
    {
        proof {
            assert(avs[i as int] == (tag.attrs@[i as int].0@, tag.attrs@[i as int].1@));
        }
        let key = tag.attrs[i].0.as_str();
        if str_eq(key, "num") || str_eq(key, "number") {
            number = parse_u32_lossy(tag.attrs[i].1.as_str());
        } else if str_eq(key, "count") || str_eq(key, "hits") {
            hits = parse_u32_lossy(tag.attrs[i].1.as_str());
        } else if str_eq(key, "type") {
            kind = Some(tag.attrs[i].1.clone());
        }
        i = i + 1;
    }
    (number, hits, kind)
}

// ---------------------------------------------------------------------------
// Per-event transitions.
// ---------------------------------------------------------------------------
/// The view of an optional current-file path.
pub open spec fn opt_str_view(c: Option<String>) -> Option<Seq<char>> {
    match c {
        Some(s) => Some(s@),
        None => None,
    }
}

/// Effect of a `line` tag, given the parsed line attributes: a measured
/// line is recorded only while a file section is open and both numbers
/// parsed.
pub open spec fn line_event_spec(
    cur: Option<Seq<char>>,
    es: Seq<(Seq<char>, CovView)>,
    vals: Option<(u32, u32)>,
) -> Seq<(Seq<char>, CovView)> {
    match cur {
        Some(f) => match vals {
            Some((n, h)) => store_on_line(es, f, n, h),
            None => es,
        },
        None => es,
    }
}

/// Cobertura: `number` and `hits` must both parse strictly.
pub open spec fn cob_line_ok(vals: (Option<u32>, Option<u32>)) -> Option<(u32, u32)> {
    match vals {
        (Some(n), Some(h)) => Some((n, h)),
        _ => None,
    }
}

/// Clover: a `type="method"` line is a structural marker and never a
/// measured line; otherwise number and count must both coerce.
pub open spec fn clover_line_ok(vals: (Option<u32>, Option<u32>, Option<Seq<char>>)) -> Option<
    (u32, u32),
> {
    if vals.2 == Some("method"@) {
        None
    } else {
        match (vals.0, vals.1) {
            (Some(n), Some(h)) => Some((n, h)),
            _ => None,
        }
    }
}

/// The Cobertura transition on one event: a `class` tag with a `filename`
/// opens a file section (a self-closing one only registers the file), a
/// `line` tag inside a section records a line, a closing `class` tag ends
/// the section, and everything else — the end of the document and a
/// failed read included — is ignored.
pub open spec fn cobertura_event_spec(
    cur: Option<Seq<char>>,
    es: Seq<(Seq<char>, CovView)>,
    m: XmlEventModel,
    base: Seq<char>,
) -> (Option<Seq<char>>, Seq<(Seq<char>, CovView)>) {
    match m {
        XmlEventModel::Open(name, attrs) => {
            if name == "class"@ {
                match attr_first(attrs, "filename"@) {
                    Some(p) => {
                        let np = coverage_path_spec(p, base);
                        (Some(np), store_on_file(es, np))
                    },
                    None => (cur, es),
                }
            } else if name == "line"@ {
                (cur, line_event_spec(cur, es, cob_line_ok(cob_line_vals(attrs, attrs.len() as int))))
            } else {
                (cur, es)
            }
        },
        XmlEventModel::SelfClosed(name, attrs) => {
            if name == "class"@ {
                match attr_first(attrs, "filename"@) {
                    Some(p) => (cur, store_on_file(es, coverage_path_spec(p, base))),
                    None => (cur, es),
                }
            } else if name == "line"@ {
                (cur, line_event_spec(cur, es, cob_line_ok(cob_line_vals(attrs, attrs.len() as int))))
            } else {
                (cur, es)
            }
        },
        XmlEventModel::Close(n) => {
            if n == "class"@ {
                (None, es)
            } else {
                (cur, es)
            }
        },
        XmlEventModel::Other => (cur, es),
        XmlEventModel::End => (cur, es),
        XmlEventModel::Fail => (cur, es),
    }
}

/// The store after the first `k` events of `data`, under the Cobertura
/// transition, together with the open file section.
pub open spec fn cobertura_fold(
    data: Seq<u8>,
    base: Seq<char>,
    es0: Seq<(Seq<char>, CovView)>,
    k: int,
) -> (Option<Seq<char>>, Seq<(Seq<char>, CovView)>)
    decreases k,
{
    if k <= 0 {
        (None, es0)
    } else {
        let prev = cobertura_fold(data, base, es0, k - 1);
        cobertura_event_spec(prev.0, prev.1, xml_event_at(data, k - 1), base)
    }
}

/// The Clover transition on one event, in the same shape, driven by `file`
/// tags whose path attribute is `name`, `path` or `filename`, in that
/// priority.
pub open spec fn clover_event_spec(
    cur: Option<Seq<char>>,
    es: Seq<(Seq<char>, CovView)>,
    m: XmlEventModel,
    base: Seq<char>,
) -> (Option<Seq<char>>, Seq<(Seq<char>, CovView)>) {
    match m {
        XmlEventModel::Open(name, attrs) => {
            if name == "file"@ {
                match clover_path_attr(attrs) {
                    Some(p) => {
                        let np = coverage_path_spec(p, base);
                        (Some(np), store_on_file(es, np))
                    },
                    None => (cur, es),
                }
            } else if name == "line"@ {
                (
                    cur,
                    line_event_spec(
                        cur,
                        es,
                        clover_line_ok(clover_line_vals(attrs, attrs.len() as int)),
                    ),
                )
            } else {
                (cur, es)
            }
        },
        XmlEventModel::SelfClosed(name, attrs) => {
            if name == "file"@ {
                match clover_path_attr(attrs) {
                    Some(p) => (cur, store_on_file(es, coverage_path_spec(p, base))),
                    None => (cur, es),
                }
            } else if name == "line"@ {
                (
                    cur,
                    line_event_spec(
                        cur,
                        es,
                        clover_line_ok(clover_line_vals(attrs, attrs.len() as int)),
                    ),
                )
            } else {
                (cur, es)
            }
        },
        XmlEventModel::Close(n) => {
            if n == "file"@ {
                (None, es)
            } else {
                (cur, es)
            }
        },
        XmlEventModel::Other => (cur, es),
        XmlEventModel::End => (cur, es),
        XmlEventModel::Fail => (cur, es),
    }
}

/// The store after the first `k` events of `data`, under the Clover
/// transition, together with the open file section.
pub open spec fn clover_fold(
    data: Seq<u8>,
    base: Seq<char>,
    es0: Seq<(Seq<char>, CovView)>,
    k: int,
) -> (Option<Seq<char>>, Seq<(Seq<char>, CovView)>)
    decreases k,
{
    if k <= 0 {
        (None, es0)
    } else {
        let prev = clover_fold(data, base, es0, k - 1);
        clover_event_spec(prev.0, prev.1, xml_event_at(data, k - 1), base)
    }
}

/// Applies a parsed `line` tag to the store.
fn apply_line_event(
    current: &Option<String>,
    store: &mut CoverageStore,
    vals: Option<(u32, u32)>,
)
    requires
        old(store).wf(),
    ensures
        final(store).wf(),
        final(store).entries() == line_event_spec(
            opt_str_view(*current),
            old(store).entries(),
            vals,
        ),
{
    match current {
        Some(f) => {
            match vals {
                Some((n, h)) => {
                    store.on_line(f.as_str(), n, h);
                },
                None => {},
            }
        },
        None => {},
    }
}

/// Runs the Cobertura transition for one event.
fn cobertura_event(
    current: &mut Option<String>,
    store: &mut CoverageStore,
    ev: XmlEvent,
    base: &str,
)
    requires
        old(store).wf(),
    ensures
        final(store).wf(),
        ({
            let r = cobertura_event_spec(
                opt_str_view(*old(current)),
                old(store).entries(),
                event_view(ev),
                base@,
            );
            &&& opt_str_view(*final(current)) == r.0
            &&& final(store).entries() == r.1
        }),
{
    match ev {
        XmlEvent::Open(tag) => {
            if str_eq(tag.name.as_str(), "class") {
                match read_attribute(&tag, "filename") {
                    Some(p) => {
                        let np = normalize_coverage_path(p.as_str(), base);
                        store.on_file(np.as_str());
                        *current = Some(np);
                    },
                    None => {},
                }
            } else if str_eq(tag.name.as_str(), "line") {
                let vals = cob_read_line(&tag);
                let ok = match vals {
                    (Some(n), Some(h)) => Some((n, h)),
                    _ => None,
                };
                apply_line_event(&*current, store, ok);
            }
        },
        XmlEvent::SelfClosed(tag) => {
            if str_eq(tag.name.as_str(), "class") {
                match read_attribute(&tag, "filename") {
                    Some(p) => {
                        let np = normalize_coverage_path(p.as_str(), base);
                        store.on_file(np.as_str());
                    },
                    None => {},
                }
            } else if str_eq(tag.name.as_str(), "line") {
                let vals = cob_read_line(&tag);
                let ok = match vals {
                    (Some(n), Some(h)) => Some((n, h)),
                    _ => None,
                };
                apply_line_event(&*current, store, ok);
            }
        },
        XmlEvent::Close(n) => {
            if str_eq(n.as_str(), "class") {
                *current = None;
            }
        },
        XmlEvent::Other => {},
        XmlEvent::Eof => {},
    }
}

/// Finds the Clover file-path attribute, in priority order.
fn clover_read_path(tag: &XmlTag) -> (r: Option<String>)
    ensures
        match r {
            Some(v) => clover_path_attr(attrs_view(tag.attrs@)) == Some(v@),
            None => clover_path_attr(attrs_view(tag.attrs@)) is None,
        },
{
    match read_attribute(tag, "name") {
        Some(v) => Some(v),
        None => match read_attribute(tag, "path") {
            Some(v) => Some(v),
            None => read_attribute(tag, "filename"),
        },
    }
}

/// Runs the Clover transition for one event.
fn clover_event(
    current: &mut Option<String>,
    store: &mut CoverageStore,
    ev: XmlEvent,
    base: &str,
)
    requires
        old(store).wf(),
    ensures
        final(store).wf(),
        ({
            let r = clover_event_spec(
                opt_str_view(*old(current)),
                old(store).entries(),
                event_view(ev),
                base@,
            );
            &&& opt_str_view(*final(current)) == r.0
            &&& final(store).entries() == r.1
        }),
{
    match ev {
        XmlEvent::Open(tag) => {
            if str_eq(tag.name.as_str(), "file") {
                match clover_read_path(&tag) {
                    Some(p) => {
                        let np = normalize_coverage_path(p.as_str(), base);
                        store.on_file(np.as_str());
                        *current = Some(np);
                    },
                    None => {},
                }
            } else if str_eq(tag.name.as_str(), "line") {
                let ok = clover_line_check(&tag);
                apply_line_event(&*current, store, ok);
            }
        },
        XmlEvent::SelfClosed(tag) => {
            if str_eq(tag.name.as_str(), "file") {
                match clover_read_path(&tag) {
                    Some(p) => {
                        let np = normalize_coverage_path(p.as_str(), base);
                        store.on_file(np.as_str());
                    },
                    None => {},
                }
            } else if str_eq(tag.name.as_str(), "line") {
                let ok = clover_line_check(&tag);
                apply_line_event(&*current, store, ok);
            }
        },
        XmlEvent::Close(n) => {
            if str_eq(n.as_str(), "file") {
                *current = None;
            }
        },
        XmlEvent::Other => {},
        XmlEvent::Eof => {},
    }
}

/// Reads and validates a Clover `line` tag's attributes.
fn clover_line_check(tag: &XmlTag) -> (r: Option<(u32, u32)>)
    ensures
        r == clover_line_ok(clover_line_vals(attrs_view(tag.attrs@), tag.attrs@.len() as int)),
{
    let (number, hits, kind) = clover_read_line(tag);
    match kind {
        Some(t) => {
            if str_eq(t.as_str(), "method") {
                return None;
            }
        },
        None => {},
    }
    match (number, hits) {
        (Some(n), Some(h)) => Some((n, h)),
        _ => None,
    }
}

/// In a state where every event before position `p` is non-terminal, the
/// event at `p` is terminal, and some terminal event lies within the
/// document, `p` is the document's first terminal position.
proof fn lemma_terminal_position(dv: Seq<u8>, p: int)
    requires
        0 <= p,
        is_terminal(xml_event_at(dv, p)),
        forall|j: int| 0 <= j < p ==> !is_terminal(#[trigger] xml_event_at(dv, j)),
        exists|n: int| 0 <= n <= dv.len() && is_terminal(#[trigger] xml_event_at(dv, n)),
    ensures
        first_terminal(dv) == p,
{
    let bound = dv.len() as int + 1;
    let n = choose|n: int| 0 <= n <= dv.len() && is_terminal(#[trigger] xml_event_at(dv, n));
    if n < p {
        assert(!is_terminal(xml_event_at(dv, n)));
    }
    assert(p <= dv.len());
    lemma_first_terminal_props(dv, 0, bound);
    let ft = first_terminal(dv);
    assert(exists|m: int| 0 <= m < bound && is_terminal(#[trigger] xml_event_at(dv, m)));
    assert(ft < bound);
    assert(is_terminal(xml_event_at(dv, ft)));
    if ft < p {
        assert(!is_terminal(xml_event_at(dv, ft)));
    }
    if ft > p {
        assert(!is_terminal(xml_event_at(dv, p)));
    }
}

impl CoverageParser for CoberturaParser {
    /// The Cobertura heuristics: the format name, or a class declaration
    /// together with a filename attribute, or a line-number attribute
    /// together with a hits attribute.
    open spec fn can_parse_spec(&self, head: Seq<u8>) -> bool {
        ||| bytes_contain(head, "cobertura".spec_bytes())
        ||| (bytes_contain(head, "<class".spec_bytes()) && bytes_contain(
            head,
            "filename=".spec_bytes(),
        ))
        ||| (bytes_contain(head, "line number=".spec_bytes()) && bytes_contain(
            head,
            "hits=".spec_bytes(),
        ))
    }

    fn can_parse(&self, head: &[u8]) -> (r: bool) {
        let has_cobertura = bytes_contain_str(head, "cobertura");
        let has_class = bytes_contain_str(head, "<class");
        let has_filename = bytes_contain_str(head, "filename=");
        let has_line_number = bytes_contain_str(head, "line number=");
        let has_hits = bytes_contain_str(head, "hits=");
        has_cobertura || (has_class && has_filename) || (has_line_number && has_hits)
    }

    open spec fn parse_fold(
        &self,
        data: Seq<u8>,
        base: Seq<char>,
        es0: Seq<(Seq<char>, CovView)>,
        k: int,
    ) -> Seq<(Seq<char>, CovView)> {
        cobertura_fold(data, base, es0, k).1
    }

    fn parse(&self, data: &[u8], base: &str, sink: &mut CoverageStore) -> (r: Result<
        (),
        XmlError,
    >) {
        let ghost dv = data@;
        let ghost es0 = sink.entries();
        let mut doc = XmlDocument::new(data);
        let mut current: Option<String> = None;
        loop
            invariant
                sink.wf(),
                dv == data@,
                es0 == old(sink).entries(),
                doc.data_spec() == dv,
                0 <= doc.pos_spec() <= dv.len() + 1,
                forall|j: int| 0 <= j < doc.pos_spec() ==> !is_terminal(#[trigger] xml_event_at(dv, j)),
                doc.pos_spec() > 0 ==> exists|n: int|
                    0 <= n <= dv.len() && is_terminal(#[trigger] xml_event_at(dv, n)),
                ({
                    let f = cobertura_fold(dv, base@, es0, doc.pos_spec());
                    opt_str_view(current) == f.0 && sink.entries() == f.1
                }),
            decreases dv.len() + 2 - doc.pos_spec(),
        {
            let ghost p = doc.pos_spec();
            let step = doc.next_event();
            match step {
                Err(_) => {
                    proof {
                        lemma_terminal_position(dv, p);
                        assert(cobertura_fold(dv, base@, es0, p).1 == sink.entries());
                    }
                    return Err(XmlError);
                },
                Ok(ev) => {
                    match ev {
                        XmlEvent::Eof => {
                            proof {
                                assert(xml_event_at(dv, p) is End);
                                lemma_terminal_position(dv, p);
                            }
                            return Ok(());
                        },
                        tag_event => {
                            proof {
                                assert(!is_terminal(xml_event_at(dv, p)));
                            }
                            cobertura_event(&mut current, sink, tag_event, base);
                        },
                    }
                },
            }
        }
    }
}

impl CoverageParser for CloverParser {
    /// The Clover heuristics: a file declaration together with a count or
    /// num attribute.
    open spec fn can_parse_spec(&self, head: Seq<u8>) -> bool {
        bytes_contain(head, "<file".spec_bytes()) && (bytes_contain(head, "count=".spec_bytes())
            || bytes_contain(head, "num=".spec_bytes()))
    }

    fn can_parse(&self, head: &[u8]) -> (r: bool) {
        let has_file = bytes_contain_str(head, "<file");
        let has_count = bytes_contain_str(head, "count=");
        let has_num = bytes_contain_str(head, "num=");
        has_file && (has_count || has_num)
    }

    open spec fn parse_fold(
        &self,
        data: Seq<u8>,
        base: Seq<char>,
        es0: Seq<(Seq<char>, CovView)>,
        k: int,
    ) -> Seq<(Seq<char>, CovView)> {
        clover_fold(data, base, es0, k).1
    }

    fn parse(&self, data: &[u8], base: &str, sink: &mut CoverageStore) -> (r: Result<
        (),
        XmlError,
    >) {
        let ghost dv = data@;
        let ghost es0 = sink.entries();
        let mut doc = XmlDocument::new(data);
        let mut current: Option<String> = None;
        loop
            invariant
                sink.wf(),
                dv == data@,
                es0 == old(sink).entries(),
                doc.data_spec() == dv,
                0 <= doc.pos_spec() <= dv.len() + 1,
                forall|j: int| 0 <= j < doc.pos_spec() ==> !is_terminal(#[trigger] xml_event_at(dv, j)),
                doc.pos_spec() > 0 ==> exists|n: int|
                    0 <= n <= dv.len() && is_terminal(#[trigger] xml_event_at(dv, n)),
                ({
                    let f = clover_fold(dv, base@, es0, doc.pos_spec());
                    opt_str_view(current) == f.0 && sink.entries() == f.1
                }),
            decreases dv.len() + 2 - doc.pos_spec(),
        {
            let ghost p = doc.pos_spec();
            let step = doc.next_event();
            match step {
                Err(_) => {
                    proof {
                        lemma_terminal_position(dv, p);
                        assert(clover_fold(dv, base@, es0, p).1 == sink.entries());
                    }
                    return Err(XmlError);
                },
                Ok(ev) => {
                    match ev {
                        XmlEvent::Eof => {
                            proof {
                                assert(xml_event_at(dv, p) is End);
                                lemma_terminal_position(dv, p);
                            }
                            return Ok(());
                        },
                        tag_event => {
                            proof {
                                assert(!is_terminal(xml_event_at(dv, p)));
                            }
                            clover_event(&mut current, sink, tag_event, base);
                        },
                    }
                },
            }
        }
    }
}

// ---------------------------------------------------------------------------
// Format selection.
// ---------------------------------------------------------------------------
/// Why a coverage input could not be ingested.
#[derive(Debug)]
pub enum CoverageIngestError {
    /// The leading part of the input is not valid text.
    NotText,
    /// No installed format parser claims the input.
    NoParserMatched,
    /// The claimed document's structure or an attribute could not be read.
    Malformed,
}

/// How many bytes the format sniff may look at.
pub open spec fn sniff_len(n: int) -> int {
    if n < 8192 {
        n
    } else {
        8192
    }
}

/// Relies on `core::str::from_utf8`: it succeeds exactly on valid UTF-8.
#[verifier::external_body]
fn utf8_check(b: &[u8]) -> (r: bool)
    ensures
        r == valid_utf8(b@),
{
    core::str::from_utf8(b).is_ok()
}

/// The first `k` bytes, as their own vector.
fn bytes_prefix(data: &[u8], k: usize) -> (r: Vec<u8>)
    requires
        k <= data@.len(),
    ensures
        r@ == data@.take(k as int),
{
    let mut r: Vec<u8> = Vec::new();
    let mut i: usize = 0;
    while i < k
        invariant
            i <= k <= data@.len(),
            r@ == data@.take(i as int),
        decreases k - i,
    {
        r.push(data[i]);
        proof {
            assert(r@ =~= data@.take(i + 1));
        }
        i = i + 1;
    }
    r
}

/// Ingests one coverage input into the store: the first 8 KiB are read as
/// text and sniffed, Cobertura first and Clover second, and the claiming
/// parser streams the whole input into the store.  Exactly when the
/// leading text is malformed the result is `NotText`; exactly when it is
/// text that neither parser claims, `NoParserMatched`.  The claiming
/// parser's fold reaches the store; the result is `Ok` when the document
/// ends cleanly and `Malformed` when a read fails.
pub fn ingest_coverage(data: &[u8], base: &str, store: &mut CoverageStore) -> (r: Result<
    (),
    CoverageIngestError,
>)
    requires
        old(store).wf(),
    ensures
        final(store).wf(),
        ({
            let head = data@.take(sniff_len(data@.len() as int));
            let cob = CoberturaParser.can_parse_spec(head);
            let clo = CloverParser.can_parse_spec(head);
            let terminal = xml_event_at(data@, first_terminal(data@));
            &&& (r matches Err(CoverageIngestError::NotText)) == !valid_utf8(head)
            &&& (r matches Err(CoverageIngestError::NoParserMatched)) == (valid_utf8(head) && !cob
                && !clo)
            &&& valid_utf8(head) && cob ==> {
                &&& final(store).entries() == CoberturaParser.parse_fold(
                    data@,
                    base@,
                    old(store).entries(),
                    first_terminal(data@),
                )
                &&& (r is Ok) == (terminal is End)
                &&& (r matches Err(CoverageIngestError::Malformed)) == (terminal is Fail)
            }
            &&& valid_utf8(head) && !cob && clo ==> {
                &&& final(store).entries() == CloverParser.parse_fold(
                    data@,
                    base@,
                    old(store).entries(),
                    first_terminal(data@),
                )
                &&& (r is Ok) == (terminal is End)
                &&& (r matches Err(CoverageIngestError::Malformed)) == (terminal is Fail)
            }
        }),
{
    let n = data.len();
    let k: usize = if n < 8192 {
        n
    } else {
        8192
    };
    let head = bytes_prefix(data, k);
    if !utf8_check(head.as_slice()) {
        return Err(CoverageIngestError::NotText);
    }
    if CoberturaParser.can_parse(head.as_slice()) {
        return match CoberturaParser.parse(data, base, store) {
            Ok(_) => Ok(()),
            Err(_) => Err(CoverageIngestError::Malformed),
        };
    }
    if CloverParser.can_parse(head.as_slice()) {
        return match CloverParser.parse(data, base, store) {
            Ok(_) => Ok(()),
            Err(_) => Err(CoverageIngestError::Malformed),
        };
    }
    Err(CoverageIngestError::NoParserMatched)
}

} // verus!
