//! The UCS-4 segmented subtable: its groups, what they map, and how they
//! are laid out in bytes.

use vstd::prelude::*;

use crate::bytes::{be_u32, read_u32_at, u32_at, u32_bytes, Writer};
use crate::bytes::{lemma_u32_round_trip, padding_to_four, zeros};
use crate::error::Error;

verus! {

/// A run of codepoints that maps onto a run of glyphs: the codepoint `c` in
/// `start_code ..= end_code` maps to the glyph `start_glyph_id + (c - start_code)`.
#[derive(Clone, Copy, Debug, PartialEq, Eq, Structural)]
pub struct Group {
    pub start_code: u32,
    pub end_code: u32,
    pub start_glyph_id: u32,
}

impl Group {
    /// Whether the group covers the codepoint `c`.
    pub open spec fn contains(self, c: int) -> bool {
        self.start_code <= c <= self.end_code
    }

    /// The glyph that the group gives to the codepoint `c`.
    pub open spec fn glyph(self, c: int) -> int {
        self.start_glyph_id + (c - self.start_code)
    }
}

/// The invariant of a group list: no group is empty, and each group ends
/// before the next one starts.
pub open spec fn groups_sorted(gs: Seq<Group>) -> bool {
    &&& forall|i: int| 0 <= i < gs.len() ==> (#[trigger] gs[i]).start_code <= gs[i].end_code
    &&& forall|i: int, j: int|
        0 <= i < j < gs.len() ==> (#[trigger] gs[i]).end_code < (#[trigger] gs[j]).start_code
}

/// Whether some group of `gs` covers the codepoint `c`.
pub open spec fn covered(gs: Seq<Group>, c: int) -> bool {
    exists|i: int| 0 <= i < gs.len() && (#[trigger] gs[i]).contains(c)
}

/// The glyph that a group list gives to the codepoint `c`, if a group covers it.
/// In a sorted list at most one group does.
pub open spec fn glyph_at(gs: Seq<Group>, c: int) -> Option<int> {
    if covered(gs, c) {
        let i: int = choose|i: int| 0 <= i < gs.len() && (#[trigger] gs[i]).contains(c);
        Some(gs[i].glyph(c))
    } else {
        None
    }
}

/// In a sorted list, the group that covers a codepoint decides its glyph.
pub proof fn lemma_glyph_at_sorted(gs: Seq<Group>, i: int, c: int)
    requires
        groups_sorted(gs),
        0 <= i < gs.len(),
        gs[i].contains(c),
    ensures
        glyph_at(gs, c) == Some(gs[i].glyph(c)),
{
    let j: int = choose|j: int| 0 <= j < gs.len() && (#[trigger] gs[j]).contains(c);
    if j < i {
        assert(gs[j].end_code < gs[i].start_code);
    } else if i < j {
        assert(gs[i].end_code < gs[j].start_code);
    }
}

/// The twelve bytes of one group.
pub open spec fn group_bytes(g: Group) -> Seq<u8> {
    u32_bytes(g.start_code) + u32_bytes(g.end_code) + u32_bytes(g.start_glyph_id)
}

/// The bytes of a group list: its groups one after the other.
pub open spec fn groups_bytes(gs: Seq<Group>) -> Seq<u8>
    decreases gs.len(),
{
    if gs.len() == 0 {
        Seq::<u8>::empty()
    } else {
        groups_bytes(gs.drop_last()) + group_bytes(gs.last())
    }
}

/// The group whose twelve bytes start at `at`.
pub open spec fn group_at(data: Seq<u8>, at: int) -> Group {
    Group {
        start_code: be_u32(data, at) as u32,
        end_code: be_u32(data, at + 4) as u32,
        start_glyph_id: be_u32(data, at + 8) as u32,
    }
}

/// The `n` groups whose bytes start at `at`.
pub open spec fn groups_at(data: Seq<u8>, at: int, n: int) -> Seq<Group> {
    Seq::new(n as nat, |k: int| group_at(data, at + 12 * k))
}

/// Whether a payload holds the header of a segmented UCS-4 subtable and all
/// the groups that the header announces.
pub open spec fn format12_in_bounds(data: Seq<u8>) -> bool {
    data.len() >= 16 && 16 + 12 * be_u32(data, 12) <= data.len()
}

/// The groups of a payload that `format12_in_bounds` accepts.
pub open spec fn format12_groups(data: Seq<u8>) -> Seq<Group> {
    groups_at(data, 16, be_u32(data, 12))
}

/// Whether a subtable of `n` groups has a length that its header can hold.
pub open spec fn format12_fits(n: int) -> bool {
    16 + 12 * n <= u32::MAX
}

/// The payload with the given groups. Of `header`, twelve bytes long, the
/// first four (format, reserved) and the last four (language) are kept; the
/// length between them is written anew, and so is the group count.
pub open spec fn format12_bytes(header: Seq<u8>, gs: Seq<Group>) -> Seq<u8> {
    header.subrange(0, 4) + u32_bytes((16 + 12 * gs.len()) as u32) + header.subrange(8, 12)
        + u32_bytes(gs.len() as u32) + groups_bytes(gs)
}

/// A group list of `n` groups takes `12 * n` bytes.
pub proof fn lemma_groups_bytes_len(gs: Seq<Group>)
    ensures
        groups_bytes(gs).len() == 12 * gs.len(),
    decreases gs.len(),
{
    if gs.len() > 0 {
        lemma_groups_bytes_len(gs.drop_last());
    }
}

/// Within the bytes of a group list, group `k` stands at offset `12 * k`.
pub proof fn lemma_groups_bytes_index(gs: Seq<Group>, k: int)
    requires
        0 <= k < gs.len(),
    ensures
        groups_bytes(gs).len() == 12 * gs.len(),
        groups_bytes(gs).subrange(12 * k, 12 * k + 12) == group_bytes(gs[k]),
    decreases gs.len(),
{
    lemma_groups_bytes_len(gs);
    lemma_groups_bytes_len(gs.drop_last());
    if k == gs.len() - 1 {
        assert(groups_bytes(gs).subrange(12 * k, 12 * k + 12) =~= group_bytes(gs[k]));
    } else {
        lemma_groups_bytes_index(gs.drop_last(), k);
        assert(groups_bytes(gs).subrange(12 * k, 12 * k + 12) =~= groups_bytes(
            gs.drop_last(),
        ).subrange(12 * k, 12 * k + 12));
    }
}

/// Decoding the twelve bytes of a group gives the group again.
pub proof fn lemma_group_round_trip(g: Group)
    ensures
        group_bytes(g).len() == 12,
        group_at(group_bytes(g), 0) == g,
{
    lemma_u32_round_trip(g.start_code);
    lemma_u32_round_trip(g.end_code);
    lemma_u32_round_trip(g.start_glyph_id);
}

/// Decoding an encoded subtable gives its groups again: the header
/// announces their number, all of them are in bounds, and each is read back
/// as it was written.
pub proof fn lemma_format12_round_trip(header: Seq<u8>, gs: Seq<Group>)
    requires
        header.len() == 12,
        format12_fits(gs.len() as int),
    ensures
        format12_bytes(header, gs).len() == 16 + 12 * gs.len(),
        be_u32(format12_bytes(header, gs), 4) == 16 + 12 * gs.len(),
        be_u32(format12_bytes(header, gs), 12) == gs.len(),
        format12_bytes(header, gs).subrange(0, 4) == header.subrange(0, 4),
        format12_bytes(header, gs).subrange(8, 12) == header.subrange(8, 12),
        format12_in_bounds(format12_bytes(header, gs)),
        format12_groups(format12_bytes(header, gs)) == gs,
{
    let bytes: Seq<u8> = format12_bytes(header, gs);
    lemma_groups_bytes_len(gs);
    lemma_u32_round_trip((16 + 12 * gs.len()) as u32);
    lemma_u32_round_trip(gs.len() as u32);
    assert(bytes.subrange(0, 4) =~= header.subrange(0, 4));
    assert(bytes.subrange(8, 12) =~= header.subrange(8, 12));
    assert(bytes.subrange(4, 8) =~= u32_bytes((16 + 12 * gs.len()) as u32));
    assert(bytes.subrange(12, 16) =~= u32_bytes(gs.len() as u32));
    assert(be_u32(bytes, 4) == be_u32(bytes.subrange(4, 8), 0));
    assert(be_u32(bytes, 12) == be_u32(bytes.subrange(12, 16), 0));
    assert forall|k: int| 0 <= k < gs.len() implies #[trigger] format12_groups(bytes)[k]
        == gs[k] by {
        lemma_groups_bytes_index(gs, k);
        lemma_group_round_trip(gs[k]);
        let at: int = 16 + 12 * k;
        assert(bytes.subrange(at, at + 12) =~= groups_bytes(gs).subrange(12 * k, 12 * k + 12));
        let one: Seq<u8> = bytes.subrange(at, at + 12);
        assert(be_u32(bytes, at) == be_u32(one, 0));
        assert(be_u32(bytes, at + 4) == be_u32(one, 4));
        assert(be_u32(bytes, at + 8) == be_u32(one, 8));
    }
    assert(format12_groups(bytes) =~= gs);
}

/// Reads the groups of a segmented UCS-4 payload: the count at offset 12,
/// then that many groups from offset 16 on.
pub fn read_groups(data: &[u8]) -> (r: Result<Vec<Group>, Error>)
    ensures
        match r {
            Ok(gs) => format12_in_bounds(data@) && gs@ == format12_groups(data@),
            Err(e) => e == Error::OutOfBounds && !format12_in_bounds(data@),
        },
{
    let count: u32 = read_u32_at(data, 12)?;
    let len: usize = data.len();
    if (len - 16) / 12 < count as usize {
        return Err(Error::OutOfBounds);
    }
    let n: usize = count as usize;
    let mut groups: Vec<Group> = Vec::new();
    let mut k: usize = 0;
    while k < n
        invariant
            k <= n,
            len == data@.len(),
            16 + 12 * n <= len,
            groups@ == groups_at(data@, 16, k as int),
        decreases n - k,
    {
        let at: usize = 16 + 12 * k;
        let group = Group {
            start_code: u32_at(data, at),
            end_code: u32_at(data, at + 4),
            start_glyph_id: u32_at(data, at + 8),
        };
        groups.push(group);
        k += 1;
        assert(groups@ =~= groups_at(data@, 16, k as int));
    }
    Ok(groups)
}

/// Builds the payload that holds `groups` behind the given twelve-byte
/// header. The length and the group count are written as placeholders, and
/// patched once the body is complete.
pub fn encode_format12(header: &[u8], groups: &Vec<Group>) -> (r: Result<Vec<u8>, Error>)
    requires
        header@.len() == 12,
    ensures
        match r {
            Ok(bytes) => format12_fits(groups@.len() as int) && bytes@ == format12_bytes(
                header@,
                groups@,
            ),
            Err(e) => e == Error::OutOfBounds && !format12_fits(groups@.len() as int),
        },
{
    let n: usize = groups.len();
    if n > (0xFFFF_FFFF - 16) / 12 {
        return Err(Error::OutOfBounds);
    }
    let mut w = Writer::new();
    w.give(header);
    w.write_u32(0);
    let ghost start: Seq<u8> = w@;
    let mut k: usize = 0;
    while k < n
        invariant
            k <= n,
            n == groups@.len(),
            w@ == start + groups_bytes(groups@.take(k as int)),
        decreases n - k,
    {
        let group: Group = groups[k];
        w.write_u32(group.start_code);
        w.write_u32(group.end_code);
        w.write_u32(group.start_glyph_id);
        proof {
            let next: Seq<Group> = groups@.take(k + 1);
            assert(next.drop_last() =~= groups@.take(k as int));
            assert(next.last() == group);
            assert(w@ =~= start + groups_bytes(next));
        }
        k += 1;
    }
    proof {
        assert(groups@.take(n as int) =~= groups@);
        lemma_groups_bytes_len(groups@);
        assert(padding_to_four(16 + 12 * n) == 0);
        assert(zeros(0) =~= Seq::<u8>::empty());
    }
    w.align4();
    assert(w@ =~= start + groups_bytes(groups@));
    let length: usize = w.len();
    w.patch_u32(4, length as u32);
    w.patch_u32(12, n as u32);
    assert(w@ =~= format12_bytes(header@, groups@));
    Ok(w.finish())
}

} // verus!
