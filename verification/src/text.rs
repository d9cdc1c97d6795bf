//! Character- and byte-level text utilities shared by the diff parser, the
//! coverage parsers and the path logic.

use vstd::prelude::*;
use vstd::string::*;

verus! {

/// Relies on `String::push`: appends the given `char` to the end of the string.
pub assume_specification[ String::push ](s: &mut String, c: char)
    ensures
        final(s)@ == old(s)@.push(c),
;

/// The characters of `s`, as a vector with constant-time indexing.
pub fn str_to_chars(s: &str) -> (r: Vec<char>)
    ensures
        r@ == s@,
{
    let n: usize = s.unicode_len();
    let mut r: Vec<char> = Vec::new();
    let mut i: usize = 0;
    while i < n
        invariant
            n == s@.len(),
            i <= n,
            r@ == s@.take(i as int),
        decreases n - i,
    {
        r.push(s.get_char(i));
        proof {
            assert(r@ =~= s@.take(i + 1));
        }
        i = i + 1;
    }
    proof {
        assert(r@ =~= s@);
    }
    r
}

/// A string holding exactly the characters of `v`.
pub fn chars_to_string(v: &Vec<char>) -> (r: String)
    ensures
        r@ == v@,
{
    let mut r: String = String::new();
    let mut i: usize = 0;
    while i < v.len()
        invariant
            i <= v@.len(),
            r@ == v@.take(i as int),
        decreases v@.len() - i,
    {
        r.push(v[i]);
        proof {
            assert(r@ =~= v@.take(i + 1));
        }
        i = i + 1;
    }
    proof {
        assert(r@ =~= v@);
    }
    r
}

/// Character-wise equality of two strings.
pub fn str_eq(a: &str, b: &str) -> (r: bool)
    ensures
        r == (a@ == b@),
{
    let an: usize = a.unicode_len();
    let bn: usize = b.unicode_len();
    if an != bn {
        return false;
    }
    let mut i: usize = 0;
    while i < an
        invariant
            an == a@.len(),
            an == b@.len(),
            i <= an,
            forall|j: int| 0 <= j < i ==> a@[j] == b@[j],
        decreases an - i,
    {
        if a.get_char(i) != b.get_char(i) {
            return false;
        }
        i = i + 1;
    }
    proof {
        assert(a@ =~= b@);
    }
    true
}

/// Whether the characters `p` equal the characters of `s`.
pub fn chars_eq_str(p: &Vec<char>, s: &str) -> (r: bool)
    ensures
        r == (p@ == s@),
{
    let sn: usize = s.unicode_len();
    if p.len() != sn {
        return false;
    }
    let mut i: usize = 0;
    while i < sn
        invariant
            sn == s@.len(),
            sn == p@.len(),
            i <= sn,
            forall|j: int| 0 <= j < i ==> p@[j] == s@[j],
        decreases sn - i,
    {
        if p[i] != s.get_char(i) {
            return false;
        }
        i = i + 1;
    }
    proof {
        assert(p@ =~= s@);
    }
    true
}

/// The characters `v[from..to]`, as their own vector.
pub fn subvec(v: &Vec<char>, from: usize, to: usize) -> (r: Vec<char>)
    requires
        from <= to <= v@.len(),
    ensures
        r@ == v@.subrange(from as int, to as int),
{
    let mut r: Vec<char> = Vec::new();
    let mut i: usize = from;
    while i < to
        invariant
            from <= i <= to <= v@.len(),
            r@ == v@.subrange(from as int, i as int),
        decreases to - i,
    {
        r.push(v[i]);
        proof {
            assert(r@ =~= v@.subrange(from as int, i + 1));
        }
        i = i + 1;
    }
    r
}

/// The code point of a character.
pub fn char_code(c: char) -> (r: u32)
    ensures
        r as int == c as int,
{
    proof {
        assert(c as int <= 0x10FFFF);
    }
    c as u32
}

/// ASCII whitespace.  Deliberately narrower than the full Unicode
/// whitespace property: hunk-header tokens and option names are separated
/// by ASCII characters in practice, and the exotic Unicode spaces are not
/// treated as separators here.
pub open spec fn is_ws(c: char) -> bool {
    c == ' ' || c == '\t' || c == '\n' || c == '\r' || c == '\u{b}' || c == '\u{c}'
}

/// `true` when `c` is a decimal digit.
pub open spec fn is_dec_digit(c: char) -> bool {
    '0' as int <= c as int && c as int <= '9' as int
}

/// The numeric value of the digit string `s`, most significant digit first.
pub open spec fn dec_value(s: Seq<char>) -> int
    decreases s.len(),
{
    if s.len() == 0 {
        0
    } else {
        dec_value(s.drop_last()) * 10 + (s.last() as int - '0' as int)
    }
}

/// `true` when every character of `s` is a decimal digit.
pub open spec fn all_dec_digits(s: Seq<char>) -> bool {
    forall|i: int| 0 <= i < s.len() ==> is_dec_digit(s[i])
}

/// What parsing `s` as a `u32` yields: an optional leading `+`, then one or
/// more decimal digits whose value fits in 32 bits; anything else fails.
pub open spec fn parse_u32_spec(s: Seq<char>) -> Option<u32> {
    let body = if s.len() > 0 && s[0] == '+' {
        s.drop_first()
    } else {
        s
    };
    if body.len() == 0 || !all_dec_digits(body) {
        None
    } else if dec_value(body) > u32::MAX {
        None
    } else {
        Some(dec_value(body) as u32)
    }
}

pub proof fn lemma_dec_value_nonneg(s: Seq<char>)
    requires
        all_dec_digits(s),
    ensures
        dec_value(s) >= 0,
    decreases s.len(),
{
    if s.len() > 0 {
        assert(all_dec_digits(s.drop_last())) by {
            assert(forall|i: int|
                0 <= i < s.len() - 1 ==> #[trigger] s.drop_last()[i] == s[i]);
        }
        lemma_dec_value_nonneg(s.drop_last());
        assert(is_dec_digit(s[s.len() - 1]));
        assert(s.last() as int - '0' as int >= 0);
    }
}

/// Appending further digits never shrinks the value.
pub proof fn lemma_dec_value_prefix_grows(s: Seq<char>, k: int)
    requires
        all_dec_digits(s),
        0 <= k <= s.len(),
    ensures
        dec_value(s.take(k)) <= dec_value(s),
    decreases s.len() - k,
{
    if k < s.len() {
        lemma_dec_value_prefix_grows(s, k + 1);
        let p = s.take(k + 1);
        assert(p.drop_last() =~= s.take(k));
        assert(all_dec_digits(s.take(k))) by {
            assert(forall|i: int| 0 <= i < k ==> #[trigger] s.take(k)[i] == s[i]);
        }
        lemma_dec_value_nonneg(s.take(k));
        assert(p.last() == s[k]);
        assert(is_dec_digit(s[k]));
        assert(dec_value(p) == dec_value(s.take(k)) * 10 + (p.last() as int - '0' as int));
    } else {
        assert(s.take(k) =~= s);
    }
}

/// Parses `v[from..to]` as a `u32`, exactly as [`parse_u32_spec`] describes.
pub fn parse_u32_range(v: &Vec<char>, from: usize, to: usize) -> (r: Option<u32>)
    requires
        from <= to <= v@.len(),
    ensures
        r == parse_u32_spec(v@.subrange(from as int, to as int)),
{
    let ghost s = v@.subrange(from as int, to as int);
    let mut i: usize = from;
    if i < to && v[i] == '+' {
        i = i + 1;
    }
    let ghost body = if s.len() > 0 && s[0] == '+' {
        s.drop_first()
    } else {
        s
    };
    proof {
        assert(body =~= v@.subrange(i as int, to as int));
    }
    if i == to {
        return None;
    }
    let start: usize = i;
    let mut acc: u64 = 0;
    while i < to
        invariant
            from <= start <= i <= to <= v@.len(),
            s == v@.subrange(from as int, to as int),
            body == (if s.len() > 0 && s[0] == '+' {
                s.drop_first()
            } else {
                s
            }),
            body == v@.subrange(start as int, to as int),
            body.len() > 0,
            all_dec_digits(body.take(i - start)),
            acc == dec_value(body.take(i - start)),
            acc <= u32::MAX,
        decreases to - i,
    {
        let c = v[i];
        proof {
            assert(body[i - start] == c);
        }
        if c < '0' || c > '9' {
            proof {
                assert(!is_dec_digit(c));
                assert(!all_dec_digits(body));
            }
            return None;
        }
        let cv = c as u32;
        proof {
            assert(c as int <= 0x10FFFF);
            assert(cv as int == c as int);
        }
        let d: u64 = (cv - 48) as u64;
        proof {
            assert(is_dec_digit(c));
            assert(d as int == c as int - '0' as int);
            assert(body.take(i - start + 1).drop_last() =~= body.take(i - start));
            assert(body.take(i - start + 1).last() == c);
            assert(all_dec_digits(body.take(i - start + 1))) by {
                assert(forall|t: int|
                    0 <= t < i - start + 1 ==> #[trigger] body.take(i - start + 1)[t] == body[t]);
            }
        }
        let next: u64 = acc * 10 + d;
        if next > u32::MAX as u64 {
            proof {
                assert(dec_value(body.take(i - start + 1)) > u32::MAX);
                if all_dec_digits(body) {
                    lemma_dec_value_prefix_grows(body, i - start + 1);
                    assert(dec_value(body) > u32::MAX);
                }
            }
            return None;
        }
        acc = next;
        i = i + 1;
    }
    proof {
        assert(body.take(to - start) =~= body);
    }
    Some(acc as u32)
}

/// The character for the decimal digit `d`.
pub open spec fn digit_char(d: int) -> char {
    (d + '0' as int) as char
}

/// The decimal rendering of `n`, most significant digit first, no sign and no
/// leading zeros (a lone zero for `n == 0`).
pub open spec fn u32_dec_chars(n: int) -> Seq<char>
    decreases n,
{
    if n < 10 {
        seq![digit_char(n)]
    } else {
        u32_dec_chars(n / 10).push(digit_char(n % 10))
    }
}

/// Renders `n` in decimal.
pub fn u32_to_string(n: u32) -> (r: String)
    ensures
        r@ == u32_dec_chars(n as int),
    decreases n,
{
    if n < 10 {
        let mut s = String::new();
        s.push((48u8 + n as u8) as char);
        proof {
            assert(s@ =~= u32_dec_chars(n as int));
        }
        s
    } else {
        let mut s = u32_to_string(n / 10);
        s.push((48u8 + (n % 10) as u8) as char);
        s
    }
}

/// `true` when the byte string `n` occurs at position `i` of `h`.
pub open spec fn bytes_match_at(h: Seq<u8>, n: Seq<u8>, i: int) -> bool {
    0 <= i && i + n.len() <= h.len() && h.subrange(i, i + n.len()) == n
}

/// `true` when the byte string `n` occurs somewhere in `h`.
pub open spec fn bytes_contain(h: Seq<u8>, n: Seq<u8>) -> bool {
    exists|i: int| bytes_match_at(h, n, i)
}

/// Whether the byte string `nb` occurs at position `i` of `h`.
fn bytes_eq_at(h: &[u8], nb: &[u8], i: usize) -> (r: bool)
    requires
        i + nb@.len() <= h@.len(),
    ensures
        r == bytes_match_at(h@, nb@, i as int),
{
    let nn: usize = nb.len();
    let hn: usize = h.len();
    let mut j: usize = 0;
    while j < nn
        invariant
            nn == nb@.len(),
            hn == h@.len(),
            i + nn <= hn,
            j <= nn,
            forall|t: int| 0 <= t < j ==> h@[i + t] == nb@[t],
        decreases nn - j,
    {
        if h[i + j] != nb[j] {
            proof {
                if bytes_match_at(h@, nb@, i as int) {
                    assert(h@.subrange(i as int, i + nn as int)[j as int] == nb@[j as int]);
                }
            }
            return false;
        }
        j = j + 1;
    }
    proof {
        assert(h@.subrange(i as int, i + nn as int) =~= nb@);
    }
    true
}

/// `true` when the UTF-8 bytes of `needle` occur in `h`.  For an ASCII
/// needle this is the same as substring containment on the decoded text.
pub fn bytes_contain_str(h: &[u8], needle: &str) -> (r: bool)
    ensures
        r == bytes_contain(h@, needle.spec_bytes()),
{
    let nb: &[u8] = needle.as_bytes();
    let hn: usize = h.len();
    let nn: usize = nb.len();
    if nn > hn {
        proof {
            assert(forall|i: int| !bytes_match_at(h@, nb@, i));
        }
        return false;
    }
    if nn == 0 {
        proof {
            assert(h@.subrange(0, 0) =~= nb@);
            assert(bytes_match_at(h@, nb@, 0));
        }
        return true;
    }
    let limit: usize = hn - nn;
    let mut i: usize = 0;
    loop
        invariant
            1 <= nn <= hn,
            hn == h@.len(),
            nn == nb@.len(),
            limit == hn - nn,
            i <= limit + 1,
            forall|k: int| 0 <= k < i ==> !bytes_match_at(h@, nb@, k),
        ensures
            (i <= limit) == bytes_contain(h@, nb@),
        decreases limit + 1 - i,
    {
        if i > limit {
            proof {
                assert(forall|k: int|
                    #[trigger] bytes_match_at(h@, nb@, k) ==> 0 <= k < i);
            }
            break;
        }
        if bytes_eq_at(h, nb, i) {
            break;
        }
        i = i + 1;
    }
    i <= limit
}

/// Lexicographic order on the characters from position `i` on, by code
/// point; a proper prefix comes first.
pub open spec fn lex_le_from(a: Seq<char>, b: Seq<char>, i: int) -> bool
    decreases a.len() - i,
{
    if i < 0 || i >= a.len() {
        true
    } else if i >= b.len() {
        false
    } else if a[i] != b[i] {
        (a[i] as int) < (b[i] as int)
    } else {
        lex_le_from(a, b, i + 1)
    }
}

/// Lexicographic order by code point, proper prefixes first — the order in
/// which `str` values compare.
pub open spec fn lex_le(a: Seq<char>, b: Seq<char>) -> bool {
    lex_le_from(a, b, 0)
}

pub proof fn lemma_lex_le_from_total(a: Seq<char>, b: Seq<char>, i: int)
    ensures
        lex_le_from(a, b, i) || lex_le_from(b, a, i),
    decreases a.len() - i,
{
    if 0 <= i < a.len() && i < b.len() && a[i] == b[i] {
        lemma_lex_le_from_total(a, b, i + 1);
    }
}

pub proof fn lemma_lex_le_from_antisym(a: Seq<char>, b: Seq<char>, i: int)
    requires
        0 <= i <= a.len(),
        i <= b.len(),
        lex_le_from(a, b, i),
        lex_le_from(b, a, i),
        a.take(i) == b.take(i),
    ensures
        a == b,
    decreases a.len() - i,
{
    if i >= a.len() {
        assert(i >= b.len());
        assert(a =~= a.take(i));
        assert(b =~= b.take(i));
    } else {
        assert(i < b.len());
        assert(a[i] == b[i]);
        assert(a.take(i + 1) =~= b.take(i + 1));
        lemma_lex_le_from_antisym(a, b, i + 1);
    }
}

pub proof fn lemma_lex_le_from_trans(a: Seq<char>, b: Seq<char>, c: Seq<char>, i: int)
    requires
        0 <= i,
        lex_le_from(a, b, i),
        lex_le_from(b, c, i),
    ensures
        lex_le_from(a, c, i),
    decreases a.len() - i,
{
    if i < a.len() {
        assert(i < b.len());
        assert(i < c.len());
        if a[i] == b[i] && b[i] == c[i] {
            lemma_lex_le_from_trans(a, b, c, i + 1);
        }
    }
}

/// Lexicographic comparison of two strings, exactly [`lex_le`].
pub fn str_lex_le(a: &str, b: &str) -> (r: bool)
    ensures
        r == lex_le(a@, b@),
{
    let an: usize = a.unicode_len();
    let bn: usize = b.unicode_len();
    let mut i: usize = 0;
    while i < an && i < bn
        invariant
            an == a@.len(),
            bn == b@.len(),
            i <= an,
            i <= bn,
            lex_le_from(a@, b@, 0) == lex_le_from(a@, b@, i as int),
        decreases an - i,
    {
        let ca = a.get_char(i);
        let cb = b.get_char(i);
        if ca != cb {
            proof {
                assert(ca as int <= 0x10FFFF);
                assert(cb as int <= 0x10FFFF);
                assert((ca as u32) as int == ca as int);
                assert((cb as u32) as int == cb as int);
            }
            return (ca as u32) < (cb as u32);
        }
        i = i + 1;
    }
    i >= an
}

/// `true` when `s` starts with `p`.
pub open spec fn starts_with(s: Seq<char>, p: Seq<char>) -> bool {
    p.len() <= s.len() && s.take(p.len() as int) == p
}

/// `true` when `s` ends with `p`.
pub open spec fn ends_with(s: Seq<char>, p: Seq<char>) -> bool {
    p.len() <= s.len() && s.skip(s.len() - p.len()) == p
}

/// Whether the characters `v` start with the literal `p`.
pub fn chars_start_with(v: &Vec<char>, p: &str) -> (r: bool)
    ensures
        r == starts_with(v@, p@),
{
    let pn: usize = p.unicode_len();
    if pn > v.len() {
        return false;
    }
    let mut j: usize = 0;
    while j < pn
        invariant
            pn == p@.len(),
            pn <= v@.len(),
            j <= pn,
            forall|t: int| 0 <= t < j ==> v@[t] == p@[t],
        decreases pn - j,
    {
        if v[j] != p.get_char(j) {
            proof {
                if starts_with(v@, p@) {
                    assert(v@.take(pn as int)[j as int] == p@[j as int]);
                }
            }
            return false;
        }
        j = j + 1;
    }
    proof {
        assert(v@.take(pn as int) =~= p@);
    }
    true
}

/// Whether `s` ends with `p`, character-wise.
pub fn str_ends_with(s: &str, p: &str) -> (r: bool)
    ensures
        r == ends_with(s@, p@),
{
    let sn: usize = s.unicode_len();
    let pn: usize = p.unicode_len();
    if pn > sn {
        return false;
    }
    let off: usize = sn - pn;
    let mut j: usize = 0;
    while j < pn
        invariant
            sn == s@.len(),
            pn == p@.len(),
            pn <= sn,
            off == sn - pn,
            j <= pn,
            forall|t: int| 0 <= t < j ==> s@[off + t] == p@[t],
        decreases pn - j,
    {
        if s.get_char(off + j) != p.get_char(j) {
            proof {
                if ends_with(s@, p@) {
                    assert(s@.skip(off as int)[j as int] == p@[j as int]);
                }
            }
            return false;
        }
        j = j + 1;
    }
    proof {
        assert(s@.skip(off as int) =~= p@);
    }
    true
}

} // verus!
