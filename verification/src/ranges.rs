//! Rendering ascending line lists as compact ranges: `1, 3, 5-9`.

use vstd::prelude::*;
use vstd::string::{StringExecFns, StrSliceExecFns};

use crate::store::strings_view;
use crate::text::{u32_dec_chars, u32_to_string};

verus! {

/// The maximal runs of consecutive values in `lines` from index `i` on,
/// given a run `start..=end` already open.
pub open spec fn ranges_from(lines: Seq<u32>, i: int, start: u32, end: u32) -> Seq<(u32, u32)>
    decreases lines.len() - i,
{
    if i < 0 || i >= lines.len() {
        seq![(start, end)]
    } else if lines[i] as int == end as int + 1 {
        ranges_from(lines, i + 1, start, lines[i])
    } else {
        seq![(start, end)] + ranges_from(lines, i + 1, lines[i], lines[i])
    }
}

/// The maximal runs of consecutive values in `lines`.
pub open spec fn line_ranges(lines: Seq<u32>) -> Seq<(u32, u32)> {
    if lines.len() == 0 {
        Seq::empty()
    } else {
        ranges_from(lines, 1, lines[0], lines[0])
    }
}

/// How one run is written: a single number, or `start-end`.
pub open spec fn range_text(start: u32, end: u32) -> Seq<char> {
    if start == end {
        u32_dec_chars(start as int)
    } else {
        u32_dec_chars(start as int) + seq!['-'] + u32_dec_chars(end as int)
    }
}

/// The written runs of `lines`, in order.
pub open spec fn rendered_ranges(lines: Seq<u32>) -> Seq<Seq<char>> {
    line_ranges(lines).map_values(|p: (u32, u32)| range_text(p.0, p.1))
}

/// The tail of a comma-separated join: `, x` for each further piece.
pub open spec fn join_tail(ss: Seq<Seq<char>>, i: int) -> Seq<char>
    decreases ss.len() - i,
{
    if i < 0 || i >= ss.len() {
        Seq::empty()
    } else {
        seq![',', ' '] + ss[i] + join_tail(ss, i + 1)
    }
}

/// The pieces joined with `, `.
pub open spec fn joined(ss: Seq<Seq<char>>) -> Seq<char> {
    if ss.len() == 0 {
        Seq::empty()
    } else {
        ss[0] + join_tail(ss, 1)
    }
}

/// What `format_line_ranges` writes for an ascending line list.
pub open spec fn format_ranges_spec(lines: Seq<u32>) -> Seq<char> {
    joined(rendered_ranges(lines))
}

/// Appends the written form of one run to the collected pieces.
pub fn push_range(ranges: &mut Vec<String>, start: u32, end: u32)
    ensures
        final(ranges)@.len() == old(ranges)@.len() + 1,
        strings_view(final(ranges)@) == strings_view(old(ranges)@).push(range_text(start, end)),
{
    let piece: String = if start == end {
        u32_to_string(start)
    } else {
        let mut s = u32_to_string(start);
        s.append("-");
        let e = u32_to_string(end);
        s.append(e.as_str());
        proof {
            reveal_strlit("-");
            assert(s@ =~= range_text(start, end)) by {
                assert("-"@ =~= seq!['-']);
            }
        }
        s
    };
    ranges.push(piece);
    proof {
        assert(strings_view(final(ranges)@) =~= strings_view(old(ranges)@).push(
            range_text(start, end),
        ));
    }
}

/// Renders the join tail from piece `i` on.
fn render_tail(parts: &Vec<String>, i: usize) -> (r: String)
    requires
        i <= parts@.len(),
    ensures
        r@ == join_tail(strings_view(parts@), i as int),
    decreases parts@.len() - i,
{
    proof {
        assert(strings_view(parts@).len() == parts@.len());
    }
    if i >= parts.len() {
        let r = String::new();
        proof {
            assert(r@ =~= join_tail(strings_view(parts@), i as int));
        }
        r
    } else {
        proof {
            assert(strings_view(parts@)[i as int] == parts@[i as int]@);
        }
        let mut s = String::new();
        s.append(", ");
        s.append(parts[i].as_str());
        let rest = render_tail(parts, i + 1);
        s.append(rest.as_str());
        proof {
            reveal_strlit(", ");
            assert(", "@ =~= seq![',', ' ']);
            assert(s@ =~= join_tail(strings_view(parts@), i as int));
        }
        s
    }
}

/// Writes an ascending, duplicate-free line list as comma-separated
/// maximal ranges — exactly [`format_ranges_spec`].
pub fn format_line_ranges(lines: &Vec<u32>) -> (r: String)
    ensures
        r@ == format_ranges_spec(lines@),
{
    let n = lines.len();
    if n == 0 {
        let r = String::new();
        proof {
            assert(r@ =~= format_ranges_spec(lines@));
        }
        return r;
    }
    let mut parts: Vec<String> = Vec::new();
    let mut start: u32 = lines[0];
    let mut end: u32 = lines[0];
    let mut i: usize = 1;
    proof {
        assert(strings_view(parts@) =~= Seq::<Seq<char>>::empty());
        assert(strings_view(parts@) + ranges_from(lines@, 1, start, end).map_values(
            |p: (u32, u32)| range_text(p.0, p.1),
        ) =~= rendered_ranges(lines@));
    }
    while i < n
        invariant
            n == lines@.len(),
            1 <= i <= n,
            strings_view(parts@) + ranges_from(lines@, i as int, start, end).map_values(
                |p: (u32, u32)| range_text(p.0, p.1),
            ) == rendered_ranges(lines@),
        decreases n - i,
    {
        let line = lines[i];
        if line as u64 == end as u64 + 1 {
            end = line;
        } else {
            let ghost before = strings_view(parts@);
            push_range(&mut parts, start, end);
            proof {
                let rf = ranges_from(lines@, i as int, start, end);
                let m = |p: (u32, u32)| range_text(p.0, p.1);
                assert(rf == seq![(start, end)] + ranges_from(lines@, i + 1, line, line));
                assert(rf.map_values(m) =~= seq![range_text(start, end)] + ranges_from(
                    lines@,
                    i + 1,
                    line,
                    line,
                ).map_values(m));
                assert(strings_view(parts@) + ranges_from(lines@, i + 1, line, line).map_values(m)
                    =~= before + rf.map_values(m));
            }
            start = line;
            end = line;
        }
        i = i + 1;
    }
    let ghost before = strings_view(parts@);
    push_range(&mut parts, start, end);
    proof {
        let m = |p: (u32, u32)| range_text(p.0, p.1);
        assert(ranges_from(lines@, n as int, start, end) == seq![(start, end)]);
        assert(seq![(start, end)].map_values(m) =~= seq![range_text(start, end)]);
        assert(strings_view(parts@) =~= before + seq![range_text(start, end)]);
        assert(strings_view(parts@) =~= rendered_ranges(lines@));
        assert(parts@.len() > 0);
        assert(strings_view(parts@)[0] == parts@[0]@);
    }
    let mut out = parts[0].clone();
    let rest = render_tail(&parts, 1);
    out.append(rest.as_str());
    proof {
        assert(out@ =~= joined(strings_view(parts@)));
    }
    out
}

} // verus!
