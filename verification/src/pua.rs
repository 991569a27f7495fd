//! Mapping a block of glyph indices onto the supplementary private use area:
//! codepoint `PUA_START + g` is made to map to glyph `g`, for every glyph of
//! the font, by splicing one group into a sorted group list.

use std::borrow::Cow;

use vstd::prelude::*;
use vstd::slice::slice_subrange;

use crate::error::Error;
use crate::format12::{covered, glyph_at, groups_sorted, lemma_glyph_at_sorted, Group};
use crate::format12::{encode_format12, read_groups};
use crate::format12::{format12_bytes, format12_fits, format12_groups, format12_in_bounds};
use crate::format12::lemma_format12_round_trip;
use crate::table::Subtable;

verus! {

/// The first codepoint of the supplementary private use area A.
pub const PUA_START: u32 = 0xF0000;

/// The last codepoint of the window that `num_glyphs` glyphs take up.
pub open spec fn window_end(num_glyphs: u16) -> int {
    PUA_START + num_glyphs - 1
}

/// The group that maps the window onto the glyphs `0 .. num_glyphs`.
pub open spec fn window_group(num_glyphs: u16) -> Group {
    Group {
        start_code: PUA_START,
        end_code: (PUA_START + num_glyphs - 1) as u32,
        start_glyph_id: 0,
    }
}

/// For each group, whether it ends before `bound`.
pub open spec fn ends_before(gs: Seq<Group>, bound: int) -> Seq<bool> {
    Seq::new(gs.len(), |k: int| gs[k].end_code < bound)
}

/// For each group, whether it starts at or before `bound`.
pub open spec fn starts_up_to(gs: Seq<Group>, bound: int) -> Seq<bool> {
    Seq::new(gs.len(), |k: int| gs[k].start_code <= bound)
}

/// The index at which a bisection of `below[lo..hi]` arrives. Where `below`
/// holds on a prefix of that range and nowhere else in it, this is the end
/// of the prefix: see `lemma_bisect_partitioned`.
pub open spec fn bisect(below: Seq<bool>, lo: int, hi: int) -> int
    decreases hi - lo,
{
    if lo >= hi {
        lo
    } else {
        let mid: int = lo + (hi - lo) / 2;
        if below[mid] {
            bisect(below, mid + 1, hi)
        } else {
            bisect(below, lo, mid)
        }
    }
}

/// A bisection ends inside its range, just behind an element on which
/// `below` holds and on one on which it does not, whatever the input.
pub proof fn lemma_bisect_range(below: Seq<bool>, lo: int, hi: int)
    requires
        0 <= lo <= hi <= below.len(),
    ensures
        lo <= bisect(below, lo, hi) <= hi,
        bisect(below, lo, hi) > lo ==> below[bisect(below, lo, hi) - 1],
        bisect(below, lo, hi) < hi ==> !below[bisect(below, lo, hi)],
    decreases hi - lo,
{
    if lo < hi {
        let mid: int = lo + (hi - lo) / 2;
        if below[mid] {
            lemma_bisect_range(below, mid + 1, hi);
        } else {
            lemma_bisect_range(below, lo, mid);
        }
    }
}

/// Where `below` holds on a prefix of the range and nowhere else in it, a
/// bisection finds the end of that prefix.
pub proof fn lemma_bisect_partitioned(below: Seq<bool>, lo: int, hi: int)
    requires
        0 <= lo <= hi <= below.len(),
        forall|i: int, j: int| lo <= i <= j < hi && below[j] ==> below[i],
    ensures
        lo <= bisect(below, lo, hi) <= hi,
        forall|k: int| lo <= k < bisect(below, lo, hi) ==> below[k],
        forall|k: int| bisect(below, lo, hi) <= k < hi ==> !below[k],
    decreases hi - lo,
{
    if lo < hi {
        let mid: int = lo + (hi - lo) / 2;
        if below[mid] {
            lemma_bisect_partitioned(below, mid + 1, hi);
        } else {
            lemma_bisect_partitioned(below, lo, mid);
        }
    }
}

/// Where the splice starts: where a bisection for the groups that end
/// before the window arrives. In a sorted list this is the first group
/// that ends at or after the start of the window.
pub open spec fn splice_start(gs: Seq<Group>) -> int {
    bisect(ends_before(gs, PUA_START as int), 0, gs.len() as int)
}

/// Where the splice ends: where a bisection of the groups from
/// `splice_start` on, for those that start at or before the end of the
/// window, arrives. In a sorted list this is the first group that starts
/// behind the window.
pub open spec fn splice_end(gs: Seq<Group>, num_glyphs: u16) -> int {
    bisect(starts_up_to(gs, window_end(num_glyphs)), splice_start(gs), gs.len() as int)
}

/// What is kept of the first group of the splice: its part before the window.
pub open spec fn left_remainder(gs: Seq<Group>, num_glyphs: u16) -> Seq<Group> {
    let i: int = splice_start(gs);
    if i < splice_end(gs, num_glyphs) && gs[i].start_code < PUA_START {
        seq![
            Group {
                start_code: gs[i].start_code,
                end_code: (PUA_START - 1) as u32,
                start_glyph_id: gs[i].start_glyph_id,
            },
        ]
    } else {
        Seq::<Group>::empty()
    }
}

/// What is kept of the last group of the splice: its part behind the
/// window, with the glyph that its first codepoint had before.
pub open spec fn right_remainder(gs: Seq<Group>, num_glyphs: u16) -> Seq<Group> {
    let j: int = splice_end(gs, num_glyphs);
    if splice_start(gs) < j && gs[j - 1].end_code > window_end(num_glyphs) {
        seq![
            Group {
                start_code: (window_end(num_glyphs) + 1) as u32,
                end_code: gs[j - 1].end_code,
                start_glyph_id: gs[j - 1].start_glyph_id.wrapping_add(
                    (window_end(num_glyphs) + 1 - gs[j - 1].start_code) as u32,
                ),
            },
        ]
    } else {
        Seq::<Group>::empty()
    }
}

/// The group list after the remap: the groups before the splice, what is
/// left of the first group of the splice, the window, what is left of the
/// last group of the splice, and the groups behind the splice.
pub open spec fn remapped(gs: Seq<Group>, num_glyphs: u16) -> Seq<Group> {
    gs.subrange(0, splice_start(gs)) + left_remainder(gs, num_glyphs) + seq![
        window_group(num_glyphs),
    ] + right_remainder(gs, num_glyphs) + gs.subrange(
        splice_end(gs, num_glyphs),
        gs.len() as int,
    )
}

/// Whether every group keeps the glyphs of all its codepoints within `u32`.
pub open spec fn glyphs_fit(gs: Seq<Group>) -> bool {
    forall|i: int|
        0 <= i < gs.len() ==> (#[trigger] gs[i]).start_glyph_id + (gs[i].end_code
            - gs[i].start_code) <= u32::MAX
}

/// In a sorted list the splice is the range of the groups that meet the
/// window: the groups before it end before the window, the groups behind it
/// start behind the window, and the groups in it do neither.
pub proof fn lemma_splice_bounds(gs: Seq<Group>, num_glyphs: u16)
    requires
        groups_sorted(gs),
    ensures
        0 <= splice_start(gs) <= splice_end(gs, num_glyphs) <= gs.len(),
        forall|k: int| 0 <= k < splice_start(gs) ==> (#[trigger] gs[k]).end_code < PUA_START,
        forall|k: int| splice_start(gs) <= k < gs.len() ==> (#[trigger] gs[k]).end_code >= PUA_START,
        forall|k: int|
            splice_start(gs) <= k < splice_end(gs, num_glyphs) ==> (#[trigger] gs[k]).start_code
                <= window_end(num_glyphs),
        forall|k: int|
            splice_end(gs, num_glyphs) <= k < gs.len() ==> (#[trigger] gs[k]).start_code
                > window_end(num_glyphs),
{
    let len: int = gs.len() as int;
    let ends: Seq<bool> = ends_before(gs, PUA_START as int);
    assert forall|a: int, b: int| 0 <= a <= b < len && ends[b] implies ends[a] by {
        if a < b {
            assert(gs[a].end_code < gs[b].start_code);
            assert(gs[b].start_code <= gs[b].end_code);
        }
    }
    lemma_bisect_partitioned(ends, 0, len);
    let i: int = splice_start(gs);
    assert forall|k: int| 0 <= k < i implies (#[trigger] gs[k]).end_code < PUA_START by {
        assert(ends[k]);
    }
    assert forall|k: int| i <= k < len implies (#[trigger] gs[k]).end_code >= PUA_START by {
        assert(!ends[k]);
    }
    let starts: Seq<bool> = starts_up_to(gs, window_end(num_glyphs));
    assert forall|a: int, b: int| i <= a <= b < len && starts[b] implies starts[a] by {
        if a < b {
            assert(gs[a].end_code < gs[b].start_code);
            assert(gs[a].start_code <= gs[a].end_code);
        }
    }
    lemma_bisect_partitioned(starts, i, len);
    let j: int = splice_end(gs, num_glyphs);
    assert forall|k: int| i <= k < j implies (#[trigger] gs[k]).start_code <= window_end(
        num_glyphs,
    ) by {
        assert(starts[k]);
    }
    assert forall|k: int| j <= k < len implies (#[trigger] gs[k]).start_code > window_end(
        num_glyphs,
    ) by {
        assert(!starts[k]);
    }
}

/// After the remap every codepoint of the window maps to the glyph of its
/// rank: `PUA_START + g` maps to `g`, for each of the `num_glyphs` glyphs.
pub proof fn lemma_window_maps_to_glyphs(gs: Seq<Group>, num_glyphs: u16, g: int)
    requires
        groups_sorted(gs),
        0 <= g < num_glyphs,
    ensures
        glyph_at(remapped(gs, num_glyphs), PUA_START + g) == Some(g),
{
    lemma_splice_bounds(gs, num_glyphs);
    let out: Seq<Group> = remapped(gs, num_glyphs);
    let c: int = PUA_START + g;
    let at: int = splice_start(gs) + left_remainder(gs, num_glyphs).len();
    assert(out[at] == window_group(num_glyphs));
    assert(out[at].contains(c));
    assert forall|k: int| 0 <= k < out.len() && (#[trigger] out[k]).contains(c) implies k
        == at by {
        lemma_remapped_origin(gs, num_glyphs, k);
    }
    assert(covered(out, c));
}

/// The remap keeps a sorted list sorted, as long as the font has a glyph.
pub proof fn lemma_remap_keeps_sorted(gs: Seq<Group>, num_glyphs: u16)
    requires
        groups_sorted(gs),
        num_glyphs >= 1,
    ensures
        groups_sorted(remapped(gs, num_glyphs)),
{
    lemma_splice_bounds(gs, num_glyphs);
    let out: Seq<Group> = remapped(gs, num_glyphs);
    assert forall|k: int| 0 <= k < out.len() implies (#[trigger] out[k]).start_code
        <= out[k].end_code by {
        lemma_remapped_origin(gs, num_glyphs, k);
    }
    assert forall|a: int, b: int| 0 <= a < b < out.len() implies (#[trigger] out[a]).end_code < (
    #[trigger] out[b]).start_code by {
        lemma_remapped_origin(gs, num_glyphs, a);
        lemma_remapped_origin(gs, num_glyphs, b);
    }
}

/// The remap changes nothing outside the window: a codepoint before or
/// behind it maps to the glyph it had, or to none if it had none.
pub proof fn lemma_remap_keeps_outside(gs: Seq<Group>, num_glyphs: u16, c: int)
    requires
        groups_sorted(gs),
        glyphs_fit(gs),
        c < PUA_START || c > window_end(num_glyphs),
    ensures
        glyph_at(remapped(gs, num_glyphs), c) == glyph_at(gs, c),
{
    lemma_splice_bounds(gs, num_glyphs);
    let out: Seq<Group> = remapped(gs, num_glyphs);
    let i: int = splice_start(gs);
    let j: int = splice_end(gs, num_glyphs);
    let left: int = left_remainder(gs, num_glyphs).len() as int;
    let right: int = right_remainder(gs, num_glyphs).len() as int;
    if covered(gs, c) {
        let m: int = choose|m: int| 0 <= m < gs.len() && (#[trigger] gs[m]).contains(c);
        lemma_glyph_at_sorted(gs, m, c);
        // The group of the result that stands for `gs[m]` at `c`.
        let k: int = if m < i {
            m
        } else if m >= j {
            m - j + i + left + 1 + right
        } else if c < PUA_START {
            i
        } else {
            i + left + 1
        };
        if i <= m < j {
            if c < PUA_START {
                if m > i {
                    assert(gs[i].end_code < gs[m].start_code);
                }
                assert(m == i);
            } else {
                if m < j - 1 {
                    assert(gs[m].end_code < gs[j - 1].start_code);
                }
                assert(m == j - 1);
            }
        }
        lemma_remapped_origin(gs, num_glyphs, k);
        assert(out[k].contains(c));
        assert(out[k].glyph(c) == gs[m].glyph(c));
        assert(covered(out, c));
        let chosen: int = choose|x: int| 0 <= x < out.len() && (#[trigger] out[x]).contains(c);
        lemma_remapped_origin(gs, num_glyphs, chosen);
        let from: int = remapped_origin(gs, num_glyphs, chosen);
        assert(gs[from].contains(c));
        if from < m {
            assert(gs[from].end_code < gs[m].start_code);
        } else if m < from {
            assert(gs[m].end_code < gs[from].start_code);
        }
        assert(out[chosen].glyph(c) == gs[m].glyph(c));
    } else {
        if covered(out, c) {
            let chosen: int = choose|x: int| 0 <= x < out.len() && (#[trigger] out[x]).contains(c);
            lemma_remapped_origin(gs, num_glyphs, chosen);
            let from: int = remapped_origin(gs, num_glyphs, chosen);
            assert(gs[from].contains(c));
        }
    }
}

/// The index of the group of `gs` that group `k` of the result is, or is a
/// part of; for the window, which comes from no group, `-1`.
pub open spec fn remapped_origin(gs: Seq<Group>, num_glyphs: u16, k: int) -> int {
    let i: int = splice_start(gs);
    let j: int = splice_end(gs, num_glyphs);
    let left: int = left_remainder(gs, num_glyphs).len() as int;
    let right: int = right_remainder(gs, num_glyphs).len() as int;
    if k < i {
        k
    } else if k < i + left {
        i
    } else if k == i + left {
        -1
    } else if k < i + left + 1 + right {
        j - 1
    } else {
        k - (i + left + 1 + right) + j
    }
}

/// What group `k` of the result is: a group of `gs` outside the splice as
/// it was, the window, or what the first or last group of the splice holds
/// before or behind the window.
pub proof fn lemma_remapped_origin(gs: Seq<Group>, num_glyphs: u16, k: int)
    requires
        groups_sorted(gs),
        0 <= k < remapped(gs, num_glyphs).len(),
    ensures
        ({
            let out: Seq<Group> = remapped(gs, num_glyphs);
            let i: int = splice_start(gs);
            let j: int = splice_end(gs, num_glyphs);
            let left: int = left_remainder(gs, num_glyphs).len() as int;
            let right: int = right_remainder(gs, num_glyphs).len() as int;
            let from: int = remapped_origin(gs, num_glyphs, k);
            &&& out.len() == i + left + 1 + right + (gs.len() - j)
            &&& k == i + left <==> from == -1
            &&& from == -1 ==> out[k] == window_group(num_glyphs)
            &&& from != -1 ==> 0 <= from < gs.len()
            &&& from != -1 && (from < i || from >= j) ==> out[k] == gs[from]
            &&& i <= from < j && k < i + left ==> {
                &&& from == i
                &&& gs[i].start_code < PUA_START
                &&& out[k].start_code == gs[i].start_code
                &&& out[k].end_code == PUA_START - 1
                &&& out[k].start_glyph_id == gs[i].start_glyph_id
            }
            &&& i <= from < j && k > i + left ==> {
                &&& from == j - 1
                &&& gs[j - 1].end_code > window_end(num_glyphs)
                &&& out[k].start_code == window_end(num_glyphs) + 1
                &&& out[k].end_code == gs[j - 1].end_code
                &&& out[k].start_glyph_id == gs[j - 1].start_glyph_id.wrapping_add(
                    (window_end(num_glyphs) + 1 - gs[j - 1].start_code) as u32,
                )
            }
        }),
{
    lemma_splice_bounds(gs, num_glyphs);
}

/// The index that a bisection for the first group ending at or after
/// `bound` arrives at.
fn search_end(groups: &Vec<Group>, bound: u32) -> (r: usize)
    ensures
        r == bisect(ends_before(groups@, bound as int), 0, groups@.len() as int),
        r <= groups@.len(),
{
    let ghost below: Seq<bool> = ends_before(groups@, bound as int);
    let mut lo: usize = 0;
    let mut hi: usize = groups.len();
    while lo < hi
        invariant
            lo <= hi <= groups@.len(),
            below == ends_before(groups@, bound as int),
            bisect(below, lo as int, hi as int) == bisect(below, 0, groups@.len() as int),
        decreases hi - lo,
    {
        let mid: usize = lo + (hi - lo) / 2;
        if groups[mid].end_code < bound {
            lo = mid + 1;
        } else {
            hi = mid;
        }
    }
    lo
}

/// The index that a bisection of the groups from `from` on, for the first
/// group starting behind `bound`, arrives at.
fn search_start(groups: &Vec<Group>, from: usize, bound: u32) -> (r: usize)
    requires
        from <= groups@.len(),
    ensures
        r == bisect(starts_up_to(groups@, bound as int), from as int, groups@.len() as int),
        from <= r <= groups@.len(),
{
    let ghost below: Seq<bool> = starts_up_to(groups@, bound as int);
    let mut lo: usize = from;
    let mut hi: usize = groups.len();
    while lo < hi
        invariant
            from <= lo <= hi <= groups@.len(),
            below == starts_up_to(groups@, bound as int),
            bisect(below, lo as int, hi as int) == bisect(below, from as int, groups@.len() as int),
        decreases hi - lo,
    {
        let mid: usize = lo + (hi - lo) / 2;
        if groups[mid].start_code <= bound {
            lo = mid + 1;
        } else {
            hi = mid;
        }
    }
    lo
}

/// Appends the groups `from .. to` of `groups` to `out`.
fn append_groups(out: &mut Vec<Group>, groups: &Vec<Group>, from: usize, to: usize)
    requires
        from <= to <= groups@.len(),
    ensures
        final(out)@ == old(out)@ + groups@.subrange(from as int, to as int),
{
    let mut k: usize = from;
    while k < to
        invariant
            from <= k <= to <= groups@.len(),
            out@ == old(out)@ + groups@.subrange(from as int, k as int),
        decreases to - k,
    {
        out.push(groups[k]);
        k += 1;
        assert(out@ =~= old(out)@ + groups@.subrange(from as int, k as int));
    }
}

/// Splices the window for `num_glyphs` glyphs into a group list. The groups
/// that the window meets are replaced by the window and by what the first
/// and the last of them hold outside it.
pub fn remap_groups(groups: &Vec<Group>, num_glyphs: u16) -> (out: Vec<Group>)
    ensures
        out@ == remapped(groups@, num_glyphs),
{
    let first: u32 = PUA_START;
    let last: u32 = PUA_START + num_glyphs as u32 - 1;
    let i: usize = search_end(groups, first);
    let j: usize = search_start(groups, i, last);
    proof {
        lemma_bisect_range(starts_up_to(groups@, last as int), i as int, groups@.len() as int);
    }
    let mut out: Vec<Group> = Vec::new();
    append_groups(&mut out, groups, 0, i);
    if i < j {
        let head: Group = groups[i];
        if head.start_code < first {
            out.push(
                Group {
                    start_code: head.start_code,
                    end_code: first - 1,
                    start_glyph_id: head.start_glyph_id,
                },
            );
        }
    }
    assert(out@ =~= groups@.subrange(0, i as int) + left_remainder(groups@, num_glyphs));
    out.push(Group { start_code: first, end_code: last, start_glyph_id: 0 });
    if i < j {
        let tail: Group = groups[j - 1];
        if tail.end_code > last {
            out.push(
                Group {
                    start_code: last + 1,
                    end_code: tail.end_code,
                    start_glyph_id: tail.start_glyph_id.wrapping_add(last + 1 - tail.start_code),
                },
            );
        }
    }
    assert(out@ =~= groups@.subrange(0, i as int) + left_remainder(groups@, num_glyphs) + seq![
        window_group(num_glyphs),
    ] + right_remainder(groups@, num_glyphs));
    append_groups(&mut out, groups, j, groups.len());
    out
}

/// The payload of a segmented UCS-4 subtable after the remap, or why there
/// is none: the payload has to hold the groups that it announces, and the
/// new group list has to fit into a subtable. The format, the reserved word
/// and the language are the bytes that the payload had.
pub open spec fn remapped_payload(data: Seq<u8>, num_glyphs: u16) -> Result<Seq<u8>, Error> {
    if !format12_in_bounds(data) {
        Err(Error::OutOfBounds)
    } else {
        let groups: Seq<Group> = remapped(format12_groups(data), num_glyphs);
        if !format12_fits(groups.len() as int) {
            Err(Error::OutOfBounds)
        } else {
            Ok(format12_bytes(data.subrange(0, 12), groups))
        }
    }
}

/// The payload of a remapped subtable holds the remapped groups, and
/// reads back as such.
pub proof fn lemma_remapped_payload_groups(data: Seq<u8>, num_glyphs: u16)
    requires
        remapped_payload(data, num_glyphs) is Ok,
    ensures
        format12_in_bounds(data),
        format12_in_bounds(remapped_payload(data, num_glyphs)->Ok_0),
        format12_groups(remapped_payload(data, num_glyphs)->Ok_0) == remapped(
            format12_groups(data),
            num_glyphs,
        ),
        remapped_payload(data, num_glyphs)->Ok_0.subrange(0, 4) == data.subrange(0, 4),
        remapped_payload(data, num_glyphs)->Ok_0.subrange(8, 12) == data.subrange(8, 12),
{
    let header: Seq<u8> = data.subrange(0, 12);
    lemma_format12_round_trip(header, remapped(format12_groups(data), num_glyphs));
    assert(header.subrange(0, 4) =~= data.subrange(0, 4));
    assert(header.subrange(8, 12) =~= data.subrange(8, 12));
}

/// In a remapped subtable whose groups were sorted, the codepoint
/// `PUA_START + g` maps to the glyph `g`, for each of the `num_glyphs`
/// glyphs.
pub proof fn lemma_remapped_payload_maps_window(data: Seq<u8>, num_glyphs: u16, g: int)
    requires
        remapped_payload(data, num_glyphs) is Ok,
        groups_sorted(format12_groups(data)),
        0 <= g < num_glyphs,
    ensures
        glyph_at(format12_groups(remapped_payload(data, num_glyphs)->Ok_0), PUA_START + g)
            == Some(g),
{
    lemma_remapped_payload_groups(data, num_glyphs);
    lemma_window_maps_to_glyphs(format12_groups(data), num_glyphs, g);
}

/// Maps the glyphs `0 .. num_glyphs` onto the codepoints from `PUA_START`
/// on, in a subtable of format 12. The payload is replaced as a whole, or,
/// where the remap fails, left as it is.
pub fn map_glyph_to_pua_12(st: &mut Subtable<'_>, num_glyphs: u16) -> (r: Result<(), Error>)
    requires
        old(st).format == 12,
    ensures
        final(st).format == old(st).format,
        final(st).language == old(st).language,
        match r {
            Ok(()) => remapped_payload(old(st)@.data, num_glyphs) == Ok::<Seq<u8>, Error>(
                final(st)@.data,
            ),
            Err(e) => remapped_payload(old(st)@.data, num_glyphs) == Err::<Seq<u8>, Error>(e)
                && final(st)@ == old(st)@,
        },
{
    let groups: Vec<Group> = read_groups(st.bytes())?;
    let out: Vec<Group> = remap_groups(&groups, num_glyphs);
    let bytes: Vec<u8> = encode_format12(slice_subrange(st.bytes(), 0, 12), &out)?;
    st.data = Cow::Owned(bytes);
    Ok(())
}

} // verus!
