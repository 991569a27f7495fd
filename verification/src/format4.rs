//! The UCS-2 segmented subtable, and the UCS-4 segmented subtable that
//! maps the same codepoints to the same glyphs.

use std::borrow::Cow;

use vstd::prelude::*;

use crate::bytes::{be_u16, read_u16_at, u16_at, u16_bytes, u32_bytes, Writer};
use crate::error::Error;
use crate::format12::{covered, encode_format12, format12_bytes, format12_fits, glyph_at, Group};
use crate::format12::{format12_groups, format12_in_bounds, groups_sorted};
use crate::format12::lemma_format12_round_trip;
use crate::table::{Subtable, SubtableView};

verus! {

/// Twice the number of segments, as the header gives it at offset 6.
pub open spec fn seg_count_x2(data: Seq<u8>) -> int {
    be_u16(data, 6)
}

/// The number of segments.
pub open spec fn seg_count(data: Seq<u8>) -> int {
    seg_count_x2(data) / 2
}

/// Whether the payload holds the header and the four parallel arrays: the
/// end codes from offset 14 on, a reserved word, the start codes, the
/// deltas and the range offsets, each array `seg_count_x2` bytes long.
pub open spec fn arrays_in_bounds(data: Seq<u8>) -> bool {
    data.len() >= 8 && 16 + 4 * seg_count_x2(data) <= data.len()
}

/// The fields by which a reader bisects the segments. The header stores
/// them, but a reader is to derive them from the segment count.
#[derive(Clone, Copy, Debug, PartialEq, Eq, Structural)]
pub struct SearchFields {
    /// The greatest power of two that is not above `seg_count_x2`.
    pub search_range: u16,
    /// The base-2 logarithm of `search_range`.
    pub entry_selector: u16,
    /// What `seg_count_x2` has above `search_range`.
    pub range_shift: u16,
}

/// Two to the power `k`.
pub open spec fn pow2(k: nat) -> nat
    decreases k,
{
    if k == 0 {
        1
    } else {
        2 * pow2((k - 1) as nat)
    }
}

/// Derives the search fields from twice the segment count. There are none
/// for a subtable without segments.
pub fn search_fields(seg_count_x2: u16) -> (r: Option<SearchFields>)
    ensures
        match r {
            Some(fields) => {
                &&& seg_count_x2 >= 1
                &&& fields.search_range == pow2(fields.entry_selector as nat)
                &&& fields.search_range <= seg_count_x2 < 2 * fields.search_range
                &&& fields.range_shift == seg_count_x2 - fields.search_range
            },
            None => seg_count_x2 == 0,
        },
{
    if seg_count_x2 == 0 {
        return None;
    }
    let mut range: u16 = 1;
    let mut selector: u16 = 0;
    while range <= seg_count_x2 / 2
        invariant
            range == pow2(selector as nat),
            1 <= range <= seg_count_x2,
            selector < range,
        decreases seg_count_x2 - range,
    {
        range = range * 2;
        selector = selector + 1;
    }
    Some(
        SearchFields {
            search_range: range,
            entry_selector: selector,
            range_shift: seg_count_x2 - range,
        },
    )
}

/// The last codepoint of segment `i`.
pub open spec fn segment_end(data: Seq<u8>, i: int) -> int {
    be_u16(data, 14 + 2 * i)
}

/// The first codepoint of segment `i`.
pub open spec fn segment_start(data: Seq<u8>, i: int) -> int {
    be_u16(data, 16 + seg_count_x2(data) + 2 * i)
}

/// The delta of segment `i`.
pub open spec fn segment_delta(data: Seq<u8>, i: int) -> int {
    be_u16(data, 16 + 2 * seg_count_x2(data) + 2 * i)
}

/// The range offset of segment `i`: zero where the segment maps by its
/// delta, else the distance in bytes from this field to the glyph of the
/// first codepoint of the segment.
pub open spec fn segment_range_offset(data: Seq<u8>, i: int) -> int {
    be_u16(data, 16 + 3 * seg_count_x2(data) + 2 * i)
}

/// Where the glyph of the codepoint `c` of segment `i` stands, for a
/// segment with a range offset.
pub open spec fn glyph_position(data: Seq<u8>, i: int, c: int) -> int {
    16 + 3 * seg_count_x2(data) + 2 * i + segment_range_offset(data, i) + 2 * (c - segment_start(
        data,
        i,
    ))
}

/// The glyph that a segment with a range offset gives to the codepoint
/// `c`: the entry of the glyph index array, as it stands.
pub open spec fn indexed_glyph(data: Seq<u8>, i: int, c: int) -> int {
    be_u16(data, glyph_position(data, i, c))
}

/// Whether the glyphs of all codepoints of segment `i` can be read. The
/// glyph of the last codepoint stands last.
pub open spec fn segment_in_bounds(data: Seq<u8>, i: int) -> bool {
    segment_range_offset(data, i) == 0 || segment_start(data, i) > segment_end(data, i)
        || glyph_position(data, i, segment_end(data, i)) + 2 <= data.len()
}

/// The groups that the first `m` codepoints of segment `i` make, for a
/// segment with a range offset. A codepoint goes into the last group where
/// its glyph continues the run of that group, and starts a group of its own
/// where it does not.
pub open spec fn runs(data: Seq<u8>, i: int, m: int) -> Seq<Group>
    decreases m,
{
    if m <= 0 {
        Seq::<Group>::empty()
    } else {
        let c: int = segment_start(data, i) + m - 1;
        let single: Group = Group {
            start_code: c as u32,
            end_code: c as u32,
            start_glyph_id: indexed_glyph(data, i, c) as u32,
        };
        let before: Seq<Group> = runs(data, i, m - 1);
        if before.len() == 0 {
            seq![single]
        } else if c + before.last().start_glyph_id == before.last().start_code + indexed_glyph(
            data,
            i,
            c,
        ) {
            before.drop_last().push(
                Group {
                    start_code: before.last().start_code,
                    end_code: c as u32,
                    start_glyph_id: before.last().start_glyph_id,
                },
            )
        } else {
            before.push(single)
        }
    }
}

/// The groups that segment `i` makes: one group for a segment that maps by
/// its delta, and the runs of its glyphs for a segment with a range offset.
pub open spec fn segment_groups(data: Seq<u8>, i: int) -> Seq<Group> {
    if segment_range_offset(data, i) == 0 {
        seq![
            Group {
                start_code: segment_start(data, i) as u32,
                end_code: segment_end(data, i) as u32,
                start_glyph_id: ((segment_delta(data, i) + segment_start(data, i)) % 0x1_0000) as u32,
            },
        ]
    } else {
        runs(data, i, segment_end(data, i) - segment_start(data, i) + 1)
    }
}

/// The groups that the segments `0 .. n` make, in the order of the segments.
pub open spec fn segments_groups(data: Seq<u8>, n: int) -> Seq<Group>
    decreases n,
{
    if n <= 0 {
        Seq::<Group>::empty()
    } else {
        segments_groups(data, n - 1) + segment_groups(data, n - 1)
    }
}

/// The twelve-byte header of a fresh UCS-4 segmented subtable: format 12,
/// a reserved word, room for the length, and the language.
pub open spec fn fresh_header(language: u32) -> Seq<u8> {
    u16_bytes(12) + u16_bytes(0) + u32_bytes(0) + u32_bytes(language)
}

/// The UCS-4 segmented subtable that a UCS-2 segmented subtable becomes,
/// or why it becomes none: the arrays and every glyph that a segment
/// refers to have to lie inside the payload, and the groups have to fit
/// into a subtable.
pub open spec fn converted(st: SubtableView) -> Result<SubtableView, Error> {
    if !arrays_in_bounds(st.data) {
        Err(Error::OutOfBounds)
    } else if exists|i: int| 0 <= i < seg_count(st.data) && !segment_in_bounds(st.data, i) {
        Err(Error::OutOfBounds)
    } else {
        let groups: Seq<Group> = segments_groups(st.data, seg_count(st.data));
        if !format12_fits(groups.len() as int) {
            Err(Error::OutOfBounds)
        } else {
            Ok(
                SubtableView {
                    format: 12,
                    language: st.language,
                    data: format12_bytes(fresh_header(st.language), groups),
                },
            )
        }
    }
}

/// A segment of one codepoint or more makes one group or more, and the
/// last of them ends with the last codepoint.
pub proof fn lemma_runs_nonempty(data: Seq<u8>, i: int, m: int)
    requires
        arrays_in_bounds(data),
        0 <= i < seg_count(data),
        m >= 1,
        segment_start(data, i) + m - 1 <= 0xFFFF,
        glyph_position(data, i, segment_start(data, i) + m - 1) + 2 <= data.len(),
    ensures
        runs(data, i, m).len() >= 1,
        runs(data, i, m).last().end_code == (segment_start(data, i) + m - 1) as u32,
        runs(data, i, m).last().start_code <= 0xFFFF,
        runs(data, i, m).last().start_glyph_id <= 0xFFFF,
    decreases m,
{
    if m > 1 {
        lemma_runs_nonempty(data, i, m - 1);
    } else {
        assert(runs(data, i, 0).len() == 0);
    }
}

/// What the runs of the first `m` codepoints of a segment are: they start
/// with the segment and follow one another without a gap; within a run
/// each codepoint has the glyph that the glyph index array gives it; and
/// a new run starts only where a glyph does not follow the one before it.
pub proof fn lemma_runs(data: Seq<u8>, i: int, m: int)
    requires
        arrays_in_bounds(data),
        0 <= i < seg_count(data),
        m >= 1,
        segment_start(data, i) + m - 1 <= 0xFFFF,
        glyph_position(data, i, segment_start(data, i) + m - 1) + 2 <= data.len(),
    ensures
        ({
            let r: Seq<Group> = runs(data, i, m);
            &&& r.len() >= 1
            &&& r[0].start_code == segment_start(data, i)
            &&& r.last().end_code == segment_start(data, i) + m - 1
            &&& forall|j: int| 0 <= j < r.len() ==> (#[trigger] r[j]).start_code <= r[j].end_code
            &&& forall|j: int, k: int|
                0 <= j && k == j + 1 && k < r.len() ==> (#[trigger] r[k]).start_code == (
                #[trigger] r[j]).end_code + 1
            &&& forall|j: int, c: int|
                0 <= j < r.len() && #[trigger] r[j].contains(c) ==> r[j].glyph(c) == indexed_glyph(
                    data,
                    i,
                    c,
                )
            &&& forall|j: int|
                1 <= j < r.len() ==> indexed_glyph(data, i, (#[trigger] r[j]).start_code as int)
                    != indexed_glyph(data, i, r[j].start_code - 1) + 1
        }),
    decreases m,
{
    let r: Seq<Group> = runs(data, i, m);
    let c: int = segment_start(data, i) + m - 1;
    if m == 1 {
        assert(runs(data, i, 0).len() == 0);
    } else {
        lemma_runs(data, i, m - 1);
        let before: Seq<Group> = runs(data, i, m - 1);
        let last: Group = before.last();
        assert(last.contains(c - 1));
        if c + last.start_glyph_id == last.start_code + indexed_glyph(data, i, c) {
            let grown: Group = r.last();
            assert forall|j: int| 0 <= j < r.len() implies (#[trigger] r[j]).start_code
                <= r[j].end_code by {
                if j < r.len() - 1 {
                    assert(r[j] == before[j]);
                }
            }
            assert forall|j: int, k: int|
                0 <= j && k == j + 1 && k < r.len() implies (#[trigger] r[k]).start_code == (
            #[trigger] r[j]).end_code + 1 by {
                assert(r[j] == before[j]);
                if k < r.len() - 1 {
                    assert(r[k] == before[k]);
                } else {
                    assert(before[k].start_code == before[j].end_code + 1);
                }
            }
            assert forall|j: int, x: int| 0 <= j < r.len() && #[trigger] r[j].contains(x) implies r[j].glyph(
                x,
            ) == indexed_glyph(data, i, x) by {
                if j < r.len() - 1 {
                    assert(r[j] == before[j]);
                    assert(before[j].contains(x));
                } else if x < c {
                    assert(before[j].contains(x));
                }
            }
            assert forall|j: int| 1 <= j < r.len() implies indexed_glyph(
                data,
                i,
                (#[trigger] r[j]).start_code as int,
            ) != indexed_glyph(data, i, r[j].start_code - 1) + 1 by {
                assert(r[j].start_code == before[j].start_code);
            }
        } else {
            assert forall|j: int| 0 <= j < r.len() implies (#[trigger] r[j]).start_code
                <= r[j].end_code by {
                if j < r.len() - 1 {
                    assert(r[j] == before[j]);
                }
            }
            assert forall|j: int, k: int|
                0 <= j && k == j + 1 && k < r.len() implies (#[trigger] r[k]).start_code == (
            #[trigger] r[j]).end_code + 1 by {
                assert(r[j] == before[j]);
                if k < r.len() - 1 {
                    assert(r[k] == before[k]);
                }
            }
            assert forall|j: int, x: int| 0 <= j < r.len() && #[trigger] r[j].contains(x) implies r[j].glyph(
                x,
            ) == indexed_glyph(data, i, x) by {
                if j < r.len() - 1 {
                    assert(r[j] == before[j]);
                    assert(before[j].contains(x));
                }
            }
            assert forall|j: int| 1 <= j < r.len() implies indexed_glyph(
                data,
                i,
                (#[trigger] r[j]).start_code as int,
            ) != indexed_glyph(data, i, r[j].start_code - 1) + 1 by {
                if j < r.len() - 1 {
                    assert(r[j] == before[j]);
                } else {
                    assert(last.glyph(c - 1) == indexed_glyph(data, i, c - 1));
                }
            }
        }
    }
}

/// Each of the first `m` codepoints of a segment is in one of their runs.
pub proof fn lemma_runs_cover(data: Seq<u8>, i: int, m: int, c: int)
    requires
        arrays_in_bounds(data),
        0 <= i < seg_count(data),
        m >= 1,
        segment_start(data, i) + m - 1 <= 0xFFFF,
        glyph_position(data, i, segment_start(data, i) + m - 1) + 2 <= data.len(),
        segment_start(data, i) <= c <= segment_start(data, i) + m - 1,
    ensures
        covered(runs(data, i, m), c),
    decreases m,
{
    let r: Seq<Group> = runs(data, i, m);
    lemma_runs(data, i, m);
    if c == segment_start(data, i) + m - 1 {
        assert(r[r.len() - 1].contains(c));
    } else {
        lemma_runs_cover(data, i, m - 1, c);
        lemma_runs(data, i, m - 1);
        let before: Seq<Group> = runs(data, i, m - 1);
        let j: int = choose|j: int| 0 <= j < before.len() && (#[trigger] before[j]).contains(c);
        if j < before.len() - 1 {
            assert(r[j] == before[j]);
            assert(r[j].contains(c));
        } else if r.len() == before.len() {
            assert(r[j].start_code == before[j].start_code);
            assert(r[j].contains(c));
        } else {
            assert(r[j] == before[j]);
            assert(r[j].contains(c));
        }
    }
}

/// Glyphs that follow one another end up in one group: where a segment
/// with a range offset gives every codepoint `c` of `a ..= b` the glyph
/// `c + k`, one group of the segment covers all of `a ..= b`.
pub proof fn lemma_consecutive_glyphs_share_a_group(data: Seq<u8>, i: int, a: int, b: int, k: int)
    requires
        arrays_in_bounds(data),
        0 <= i < seg_count(data),
        segment_range_offset(data, i) != 0,
        segment_in_bounds(data, i),
        segment_start(data, i) <= a <= b <= segment_end(data, i),
        forall|c: int| a <= c <= b ==> #[trigger] indexed_glyph(data, i, c) == c + k,
    ensures
        exists|j: int|
            0 <= j < segment_groups(data, i).len() && (#[trigger] segment_groups(
                data,
                i,
            )[j]).start_code <= a && b <= segment_groups(data, i)[j].end_code,
{
    let m: int = segment_end(data, i) - segment_start(data, i) + 1;
    let r: Seq<Group> = runs(data, i, m);
    assert(r == segment_groups(data, i));
    lemma_runs(data, i, m);
    lemma_runs_cover(data, i, m, a);
    let first: int = choose|j: int| 0 <= j < r.len() && (#[trigger] r[j]).contains(a);
    lemma_group_reaches(data, i, m, first, a, b, k);
}

/// A group that covers `a` covers every codepoint up to `b`, where the
/// glyphs of `a ..= b` follow one another: no run ends inside.
proof fn lemma_group_reaches(data: Seq<u8>, i: int, m: int, j: int, a: int, b: int, k: int)
    requires
        arrays_in_bounds(data),
        0 <= i < seg_count(data),
        m >= 1,
        segment_start(data, i) + m - 1 <= 0xFFFF,
        glyph_position(data, i, segment_start(data, i) + m - 1) + 2 <= data.len(),
        segment_start(data, i) <= a <= b <= segment_start(data, i) + m - 1,
        forall|c: int| a <= c <= b ==> #[trigger] indexed_glyph(data, i, c) == c + k,
        0 <= j < runs(data, i, m).len(),
        runs(data, i, m)[j].contains(a),
    ensures
        b <= runs(data, i, m)[j].end_code,
{
    let r: Seq<Group> = runs(data, i, m);
    lemma_runs(data, i, m);
    if r[j].end_code < b {
        assert(j < r.len() - 1) by {
            if j == r.len() - 1 {
                assert(r.last().end_code == segment_start(data, i) + m - 1);
            }
        }
        let next: Group = r[j + 1];
        assert(next.start_code == r[j].end_code + 1);
        assert(indexed_glyph(data, i, next.start_code as int) == next.start_code + k);
        assert(indexed_glyph(data, i, next.start_code - 1) == next.start_code - 1 + k);
    }
}

/// The glyph that segment `i` gives to the codepoint `c`: the codepoint
/// plus the delta, within sixteen bits, or the entry of the glyph index
/// array.
pub open spec fn segment_glyph(data: Seq<u8>, i: int, c: int) -> int {
    if segment_range_offset(data, i) == 0 {
        (c + segment_delta(data, i)) % 0x1_0000
    } else {
        indexed_glyph(data, i, c)
    }
}

/// Whether one of the segments `0 .. n` holds the codepoint `c`.
pub open spec fn in_segment(data: Seq<u8>, n: int, c: int) -> bool {
    exists|i: int| 0 <= i < n && segment_start(data, i) <= c <= #[trigger] segment_end(data, i)
}

/// The glyph that the segments give to the codepoint `c`, if one of them
/// holds it. In a sorted subtable at most one does.
pub open spec fn segmented_glyph_at(data: Seq<u8>, c: int) -> Option<int> {
    if in_segment(data, seg_count(data), c) {
        let i: int = choose|i: int|
            0 <= i < seg_count(data) && segment_start(data, i) <= c <= #[trigger] segment_end(
                data,
                i,
            );
        Some(segment_glyph(data, i, c))
    } else {
        None
    }
}

/// The invariant of the segments: each one ends before the next one
/// starts.
pub open spec fn segments_sorted(data: Seq<u8>) -> bool {
    forall|i: int, j: int|
        0 <= i < j < seg_count(data) ==> #[trigger] segment_end(data, i) < #[trigger] segment_start(
            data,
            j,
        )
}

/// Whether the glyphs of a segment that maps by its delta stay within
/// sixteen bits without wrapping around inside the segment.
pub open spec fn delta_stays_in_range(data: Seq<u8>, i: int) -> bool {
    segment_range_offset(data, i) == 0 ==> (segment_delta(data, i) + segment_start(data, i))
        % 0x1_0000 + (segment_end(data, i) - segment_start(data, i)) <= 0xFFFF
}

/// Whether the group `g` maps nothing but codepoints of segment `i`, and
/// each of them to the glyph that the segment gives it.
pub open spec fn group_of_segment(data: Seq<u8>, i: int, g: Group) -> bool {
    forall|c: int| #[trigger]
        g.contains(c) ==> segment_start(data, i) <= c <= segment_end(data, i) && g.glyph(c)
            == segment_glyph(data, i, c)
}

/// Each group that the segments `0 .. n` make belongs to one of them.
pub proof fn lemma_groups_come_from_segments(data: Seq<u8>, n: int, j: int)
    requires
        arrays_in_bounds(data),
        0 <= n <= seg_count(data),
        forall|i: int| 0 <= i < n ==> segment_in_bounds(data, i) && delta_stays_in_range(data, i),
        0 <= j < segments_groups(data, n).len(),
    ensures
        exists|i: int| 0 <= i < n && #[trigger] group_of_segment(data, i, segments_groups(data, n)[j]),
    decreases n,
{
    let before: Seq<Group> = segments_groups(data, n - 1);
    let g: Group = segments_groups(data, n)[j];
    if j < before.len() {
        lemma_groups_come_from_segments(data, n - 1, j);
        let i: int = choose|i: int| 0 <= i < n - 1 && #[trigger] group_of_segment(data, i, before[j]);
        assert(group_of_segment(data, i, g));
    } else {
        let i: int = n - 1;
        let own: Seq<Group> = segment_groups(data, i);
        assert(g == own[j - before.len()]);
        assert(segment_in_bounds(data, i) && delta_stays_in_range(data, i));
        if segment_range_offset(data, i) == 0 {
            assert forall|c: int| #[trigger] g.contains(c) implies g.glyph(c) == segment_glyph(
                data,
                i,
                c,
            ) by {
                lemma_delta_glyph(
                    segment_delta(data, i) + segment_start(data, i),
                    c - segment_start(data, i),
                );
            }
            assert(group_of_segment(data, i, g));
        } else {
            let m: int = segment_end(data, i) - segment_start(data, i) + 1;
            if m >= 1 {
                lemma_runs(data, i, m);
                lemma_run_within(data, i, m, j - before.len());
            }
            assert(group_of_segment(data, i, g));
        }
    }
}

/// Adding to a number what does not carry it over the next multiple of
/// 65536 adds the same to its remainder.
proof fn lemma_delta_glyph(x: int, y: int)
    requires
        0 <= y,
        x % 0x1_0000 + y < 0x1_0000,
    ensures
        (x + y) % 0x1_0000 == x % 0x1_0000 + y,
{
}

/// A run of the first `m` codepoints of a segment lies within them.
proof fn lemma_run_within(data: Seq<u8>, i: int, m: int, j: int)
    requires
        arrays_in_bounds(data),
        0 <= i < seg_count(data),
        m >= 1,
        segment_start(data, i) + m - 1 <= 0xFFFF,
        glyph_position(data, i, segment_start(data, i) + m - 1) + 2 <= data.len(),
        0 <= j < runs(data, i, m).len(),
    ensures
        segment_start(data, i) <= runs(data, i, m)[j].start_code,
        runs(data, i, m)[j].end_code <= segment_start(data, i) + m - 1,
    decreases m,
{
    let r: Seq<Group> = runs(data, i, m);
    lemma_runs(data, i, m);
    if m > 1 {
        lemma_runs(data, i, m - 1);
        let before: Seq<Group> = runs(data, i, m - 1);
        if j < before.len() - 1 {
            assert(r[j] == before[j]);
            lemma_run_within(data, i, m - 1, j);
        } else if j == before.len() - 1 {
            lemma_run_within(data, i, m - 1, j);
            assert(r[j].start_code == before[j].start_code);
        }
    } else {
        assert(runs(data, i, 0).len() == 0);
    }
}

/// Each codepoint of each of the segments `0 .. n` is in one of their
/// groups.
pub proof fn lemma_segments_are_covered(data: Seq<u8>, n: int, i: int, c: int)
    requires
        arrays_in_bounds(data),
        0 <= i < n <= seg_count(data),
        forall|k: int| 0 <= k < n ==> segment_in_bounds(data, k),
        segment_start(data, i) <= c <= segment_end(data, i),
    ensures
        covered(segments_groups(data, n), c),
    decreases n,
{
    let before: Seq<Group> = segments_groups(data, n - 1);
    let all: Seq<Group> = segments_groups(data, n);
    if i < n - 1 {
        lemma_segments_are_covered(data, n - 1, i, c);
        let j: int = choose|j: int| 0 <= j < before.len() && (#[trigger] before[j]).contains(c);
        assert(all[j].contains(c));
    } else {
        let own: Seq<Group> = segment_groups(data, i);
        if segment_range_offset(data, i) == 0 {
            assert(own[0].contains(c));
            assert(all[before.len() as int] == own[0]);
            assert(all[before.len() as int].contains(c));
        } else {
            let m: int = segment_end(data, i) - segment_start(data, i) + 1;
            assert(segment_in_bounds(data, i));
            lemma_runs_cover(data, i, m, c);
            let j: int = choose|j: int| 0 <= j < own.len() && (#[trigger] own[j]).contains(c);
            assert(all[before.len() + j] == own[j]);
            assert(all[before.len() + j].contains(c));
        }
    }
}

/// The runs of a segment stand in the order of their codepoints: each one
/// ends before the next one starts.
proof fn lemma_runs_sorted(data: Seq<u8>, i: int, m: int, j: int, k: int)
    requires
        arrays_in_bounds(data),
        0 <= i < seg_count(data),
        m >= 1,
        segment_start(data, i) + m - 1 <= 0xFFFF,
        glyph_position(data, i, segment_start(data, i) + m - 1) + 2 <= data.len(),
        0 <= j < k < runs(data, i, m).len(),
    ensures
        runs(data, i, m)[j].end_code < runs(data, i, m)[k].start_code,
    decreases k - j,
{
    let r: Seq<Group> = runs(data, i, m);
    lemma_runs(data, i, m);
    if k > j + 1 {
        lemma_runs_sorted(data, i, m, j, k - 1);
        assert(r[k].start_code == r[k - 1].end_code + 1);
        assert(r[k - 1].start_code <= r[k - 1].end_code);
    } else {
        assert(r[k].start_code == r[j].end_code + 1);
    }
}

/// Whether no segment that maps by its delta is empty.
pub open spec fn delta_segments_hold_codepoints(data: Seq<u8>) -> bool {
    forall|i: int|
        0 <= i < seg_count(data) && #[trigger] segment_range_offset(data, i) == 0
            ==> segment_start(data, i) <= segment_end(data, i)
}

/// Each group that the segments `0 .. n` make holds a codepoint, and lies
/// within one of the segments.
proof fn lemma_group_within_segment(data: Seq<u8>, n: int, j: int)
    requires
        arrays_in_bounds(data),
        0 <= n <= seg_count(data),
        forall|i: int| 0 <= i < n ==> segment_in_bounds(data, i),
        delta_segments_hold_codepoints(data),
        0 <= j < segments_groups(data, n).len(),
    ensures
        segments_groups(data, n)[j].start_code <= segments_groups(data, n)[j].end_code,
        exists|i: int|
            0 <= i < n && #[trigger] segment_start(data, i) <= segments_groups(
                data,
                n,
            )[j].start_code && segments_groups(data, n)[j].end_code <= segment_end(data, i),
    decreases n,
{
    let before: Seq<Group> = segments_groups(data, n - 1);
    let g: Group = segments_groups(data, n)[j];
    if j < before.len() {
        lemma_group_within_segment(data, n - 1, j);
        let i: int = choose|i: int|
            0 <= i < n - 1 && #[trigger] segment_start(data, i) <= before[j].start_code
                && before[j].end_code <= segment_end(data, i);
        assert(segment_start(data, i) <= g.start_code && g.end_code <= segment_end(data, i));
    } else {
        let i: int = n - 1;
        assert(g == segment_groups(data, i)[j - before.len()]);
        assert(segment_in_bounds(data, i));
        if segment_range_offset(data, i) != 0 {
            let m: int = segment_end(data, i) - segment_start(data, i) + 1;
            if m >= 1 {
                lemma_runs(data, i, m);
                lemma_run_within(data, i, m, j - before.len());
            }
        }
        assert(segment_start(data, i) <= g.start_code && g.end_code <= segment_end(data, i));
    }
}

/// The groups that sorted segments make are sorted.
proof fn lemma_segments_make_sorted_groups(data: Seq<u8>, n: int)
    requires
        arrays_in_bounds(data),
        0 <= n <= seg_count(data),
        forall|i: int| 0 <= i < n ==> segment_in_bounds(data, i),
        segments_sorted(data),
        delta_segments_hold_codepoints(data),
    ensures
        groups_sorted(segments_groups(data, n)),
    decreases n,
{
    if n > 0 {
        lemma_segments_make_sorted_groups(data, n - 1);
        let before: Seq<Group> = segments_groups(data, n - 1);
        let all: Seq<Group> = segments_groups(data, n);
        let own: Seq<Group> = segment_groups(data, n - 1);
        assert forall|j: int| 0 <= j < all.len() implies (#[trigger] all[j]).start_code
            <= all[j].end_code by {
            lemma_group_within_segment(data, n, j);
        }
        assert forall|j: int, k: int| 0 <= j < k < all.len() implies (#[trigger] all[j]).end_code < (
        #[trigger] all[k]).start_code by {
            if k < before.len() {
                assert(all[j] == before[j] && all[k] == before[k]);
            } else if j < before.len() {
                lemma_group_within_segment(data, n - 1, j);
                lemma_group_within_segment(data, n, k);
                let from: int = choose|i: int|
                    0 <= i < n - 1 && #[trigger] segment_start(data, i) <= before[j].start_code
                        && before[j].end_code <= segment_end(data, i);
                assert(segment_end(data, from) < segment_start(data, n - 1));
                assert(all[k] == own[k - before.len()]);
                assert(segment_in_bounds(data, n - 1));
                if segment_range_offset(data, n - 1) != 0 {
                    let m: int = segment_end(data, n - 1) - segment_start(data, n - 1) + 1;
                    if m >= 1 {
                        lemma_run_within(data, n - 1, m, k - before.len());
                    }
                }
            } else {
                assert(all[j] == own[j - before.len()] && all[k] == own[k - before.len()]);
                assert(segment_in_bounds(data, n - 1));
                let m: int = segment_end(data, n - 1) - segment_start(data, n - 1) + 1;
                lemma_runs_sorted(data, n - 1, m, j - before.len(), k - before.len());
            }
        }
    }
}

/// The conversion of a sorted subtable is a sorted subtable: where each
/// segment ends before the next one starts, and no segment that maps by
/// its delta is empty, each group of the result holds a codepoint and ends
/// before the next one starts.
pub proof fn lemma_conversion_makes_sorted_groups(st: SubtableView)
    requires
        converted(st) is Ok,
        segments_sorted(st.data),
        delta_segments_hold_codepoints(st.data),
    ensures
        groups_sorted(format12_groups(converted(st)->Ok_0.data)),
{
    lemma_converted_groups(st);
    lemma_segments_make_sorted_groups(st.data, seg_count(st.data));
}

/// The payload of a converted subtable holds the groups that the
/// segments make, and reads back as such.
pub proof fn lemma_converted_groups(st: SubtableView)
    requires
        converted(st) is Ok,
    ensures
        arrays_in_bounds(st.data),
        forall|i: int| 0 <= i < seg_count(st.data) ==> segment_in_bounds(st.data, i),
        format12_in_bounds(converted(st)->Ok_0.data),
        format12_groups(converted(st)->Ok_0.data) == segments_groups(
            st.data,
            seg_count(st.data),
        ),
{
    let groups: Seq<Group> = segments_groups(st.data, seg_count(st.data));
    lemma_format12_round_trip(fresh_header(st.language), groups);
}

/// The conversion keeps what the subtable maps: every codepoint has in
/// the new subtable the glyph that it has in the segments, and a codepoint
/// that no segment holds has none. This holds for sorted segments, where
/// no delta wraps around inside its segment.
pub proof fn lemma_conversion_keeps_glyphs(st: SubtableView, c: int)
    requires
        converted(st) is Ok,
        segments_sorted(st.data),
        forall|i: int| 0 <= i < seg_count(st.data) ==> delta_stays_in_range(st.data, i),
    ensures
        glyph_at(format12_groups(converted(st)->Ok_0.data), c) == segmented_glyph_at(st.data, c),
{
    lemma_converted_groups(st);
    lemma_segments_keep_glyphs(st.data, c);
}

/// The groups that the segments make map what the segments map.
proof fn lemma_segments_keep_glyphs(data: Seq<u8>, c: int)
    requires
        arrays_in_bounds(data),
        segments_sorted(data),
        forall|i: int| 0 <= i < seg_count(data) ==> segment_in_bounds(data, i),
        forall|i: int| 0 <= i < seg_count(data) ==> delta_stays_in_range(data, i),
    ensures
        glyph_at(segments_groups(data, seg_count(data)), c) == segmented_glyph_at(data, c),
{
    let n: int = seg_count(data);
    let groups: Seq<Group> = segments_groups(data, n);
    if covered(groups, c) {
        let j: int = choose|j: int| 0 <= j < groups.len() && (#[trigger] groups[j]).contains(c);
        lemma_groups_come_from_segments(data, n, j);
        let i: int = choose|i: int| 0 <= i < n && #[trigger] group_of_segment(data, i, groups[j]);
        assert(groups[j].contains(c));
        assert(segment_start(data, i) <= c <= segment_end(data, i));
        assert(in_segment(data, n, c));
        let chosen: int = choose|i: int|
            0 <= i < n && segment_start(data, i) <= c <= #[trigger] segment_end(data, i);
        if chosen < i {
            assert(segment_end(data, chosen) < segment_start(data, i));
        } else if i < chosen {
            assert(segment_end(data, i) < segment_start(data, chosen));
        }
    } else if in_segment(data, n, c) {
        let i: int = choose|i: int|
            0 <= i < n && segment_start(data, i) <= c <= #[trigger] segment_end(data, i);
        lemma_segments_are_covered(data, n, i, c);
    }
}

/// Reads the groups of the segment `i`, whose fields are in bounds, and
/// appends them to `groups`.
fn convert_segment(data: &[u8], i: usize, groups: &mut Vec<Group>) -> (r: Result<(), Error>)
    requires
        arrays_in_bounds(data@),
        i < seg_count(data@),
    ensures
        match r {
            Ok(()) => segment_in_bounds(data@, i as int) && final(groups)@ == old(groups)@
                + segment_groups(data@, i as int),
            Err(e) => e == Error::OutOfBounds && !segment_in_bounds(data@, i as int),
        },
{
    let x2: usize = u16_at(data, 6) as usize;
    let start: u16 = u16_at(data, 16 + x2 + 2 * i);
    let end: u16 = u16_at(data, 14 + 2 * i);
    let range_offset: u16 = u16_at(data, 16 + 3 * x2 + 2 * i);
    if range_offset == 0 {
        let delta: u16 = u16_at(data, 16 + 2 * x2 + 2 * i);
        groups.push(
            Group {
                start_code: start as u32,
                end_code: end as u32,
                start_glyph_id: delta.wrapping_add(start) as u32,
            },
        );
        assert(groups@ =~= old(groups)@ + segment_groups(data@, i as int));
        return Ok(());
    }
    if start > end {
        assert(groups@ =~= old(groups)@ + segment_groups(data@, i as int));
        return Ok(());
    }
    let first: usize = 16 + 3 * x2 + 2 * i + range_offset as usize;
    let mut pending: Option<Group> = None;
    let mut c: u32 = start as u32;
    while c <= end as u32
        invariant
            arrays_in_bounds(data@),
            i < seg_count(data@),
            x2 == seg_count_x2(data@),
            start == segment_start(data@, i as int),
            end == segment_end(data@, i as int),
            range_offset == segment_range_offset(data@, i as int),
            range_offset != 0,
            first == 16 + 3 * x2 + 2 * i + range_offset,
            start <= c <= end + 1,
            c > start ==> glyph_position(data@, i as int, c - 1) + 2 <= data@.len(),
            pending is None <==> c == start,
            pending is None ==> groups@ == old(groups)@,
            pending matches Some(run) ==> {
                &&& runs(data@, i as int, c - start).len() >= 1
                &&& run == runs(data@, i as int, c - start).last()
                &&& groups@ == old(groups)@ + runs(data@, i as int, c - start).drop_last()
            },
        decreases end + 1 - c,
    {
        let position: usize = first + 2 * ((c - start as u32) as usize);
        let glyph: u16 = match read_u16_at(data, position) {
            Ok(glyph) => glyph,
            Err(e) => {
                return Err(e);
            },
        };
        proof {
            if c > start {
                lemma_runs_nonempty(data@, i as int, c - start);
            }
            lemma_runs_nonempty(data@, i as int, c - start + 1);
        }
        let ghost before: Seq<Group> = runs(data@, i as int, c - start);
        let single = Group { start_code: c, end_code: c, start_glyph_id: glyph as u32 };
        pending =
        match pending {
            None => Some(single),
            Some(run) => {
                if c + run.start_glyph_id == run.start_code + glyph as u32 {
                    let grown = Group {
                        start_code: run.start_code,
                        end_code: c,
                        start_glyph_id: run.start_glyph_id,
                    };
                    assert(before.drop_last().push(grown).drop_last() =~= before.drop_last());
                    Some(grown)
                } else {
                    groups.push(run);
                    assert(groups@ =~= old(groups)@ + before);
                    assert(before.push(single).drop_last() =~= before);
                    Some(single)
                }
            },
        };
        c += 1;
    }
    if let Some(run) = pending {
        groups.push(run);
        let ghost all: Seq<Group> = runs(data@, i as int, end - start + 1);
        assert(all.drop_last().push(all.last()) =~= all);
        assert(groups@ =~= old(groups)@ + all);
    }
    Ok(())
}

/// Builds the UCS-4 segmented subtable that maps what a UCS-2 segmented
/// subtable maps. A segment that maps by its delta becomes one group; a
/// segment with a range offset becomes one group for each run of glyphs
/// that follow one another. The language is kept.
pub fn convert_subtable_4_to_12<'a>(st: &Subtable<'a>) -> (r: Result<Subtable<'a>, Error>)
    ensures
        match r {
            Ok(out) => converted(st@) == Ok::<SubtableView, Error>(out@),
            Err(e) => converted(st@) == Err::<SubtableView, Error>(e),
        },
{
    let data: &[u8] = st.bytes();
    let x2: usize = read_u16_at(data, 6)? as usize;
    if data.len() < 16 + 4 * x2 {
        return Err(Error::OutOfBounds);
    }
    let count: usize = x2 / 2;
    let mut groups: Vec<Group> = Vec::new();
    let mut i: usize = 0;
    while i < count
        invariant
            data@ == st@.data,
            arrays_in_bounds(data@),
            count == seg_count(data@),
            i <= count,
            forall|k: int| 0 <= k < i ==> segment_in_bounds(data@, k),
            groups@ == segments_groups(data@, i as int),
        decreases count - i,
    {
        convert_segment(data, i, &mut groups)?;
        i += 1;
    }
    let mut header = Writer::new();
    header.write_u16(12);
    header.write_u16(0);
    header.write_u32(0);
    header.write_u32(st.language);
    let header: Vec<u8> = header.finish();
    assert(header@ =~= fresh_header(st.language));
    let bytes: Vec<u8> = encode_format12(header.as_slice(), &groups)?;
    Ok(Subtable { format: 12, language: st.language, data: Cow::Owned(bytes) })
}

} // verus!
