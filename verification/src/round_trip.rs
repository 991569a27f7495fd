//! What reading gives of what was written: the layout of a written table,
//! and the table that a parse of it finds.

use vstd::prelude::*;

use crate::bytes::{be_u16, be_u32, in_bounds, lemma_u16_round_trip, lemma_u32_round_trip};
use crate::bytes::{u16_bytes, u32_bytes};
use crate::table::{distinct_ranges, entry_error, entry_offset, entry_range, first_error};
use crate::table::{header_len, is_entry_range, is_known_format, parsed, parsed_record};
use crate::table::{lemma_directory_len, lemma_distinct_ranges, lemma_payloads_len};
use crate::table::{lemma_sorts_before_order, lemma_stable_order, range_index};
use crate::table::{subtable_at, subtable_error, subtable_language, subtable_length};
use crate::table::{SubtableView, TableView};

verus! {

/// Whether a subtable is what its own payload says: the payload holds the
/// whole header, and the header gives the format, the length and the
/// language of the subtable.
pub open spec fn carries_header(st: SubtableView) -> bool {
    &&& is_known_format(st.format as int)
    &&& st.data.len() >= header_len(st.format as int)
    &&& be_u16(st.data, 0) == st.format
    &&& subtable_length(st.data, 0) == st.data.len()
    &&& subtable_language(st.data, 0) == st.language
}

/// What a record says of the font: its platform and encoding, and the
/// format, the language and the length of its subtable.
pub open spec fn record_tuple(t: TableView, i: int) -> (u16, u16, u16, u32, nat) {
    let st: SubtableView = t.subtables[t.records[i].subtable_idx as int];
    (t.records[i].platform_id, t.records[i].encoding_id, st.format, st.language, st.data.len())
}

/// Whether some record of the table says `tuple`.
pub open spec fn has_tuple(t: TableView, tuple: (u16, u16, u16, u32, nat)) -> bool {
    exists|i: int| 0 <= i < t.records.len() && #[trigger] record_tuple(t, i) == tuple
}

/// The set of what the records of a table say.
pub open spec fn record_tuples(t: TableView) -> Set<(u16, u16, u16, u32, nat)> {
    Set::new(|tuple: (u16, u16, u16, u32, nat)| has_tuple(t, tuple))
}

/// Where no entry has an error, there is no first error.
pub proof fn lemma_no_first_error(data: Seq<u8>, n: int)
    requires
        forall|i: int| 0 <= i < n ==> #[trigger] entry_error(data, i) is None,
    ensures
        first_error(data, n) is None,
    decreases n,
{
    if n > 0 {
        lemma_no_first_error(data, n - 1);
    }
}

/// Where there is no first error, no entry has one.
pub proof fn lemma_entries_without_error(data: Seq<u8>, n: int, i: int)
    requires
        first_error(data, n) is None,
        0 <= i < n,
    ensures
        entry_error(data, i) is None,
    decreases n,
{
    if i < n - 1 {
        lemma_entries_without_error(data, n - 1, i);
    }
}

/// What a parse makes of directory entry `i`: a record with the platform
/// and the encoding of the entry, which refers to the subtable that stands
/// at the offset of the entry.
pub proof fn lemma_parsed_entry(data: Seq<u8>, i: int)
    requires
        parsed(data) is Ok,
        0 <= i < be_u16(data, 2),
    ensures
        ({
            let t: TableView = parsed(data)->Ok_0;
            &&& t.records.len() == be_u16(data, 2)
            &&& t.subtables.len() <= t.records.len()
            &&& t.records[i].platform_id == be_u16(data, 4 + 8 * i)
            &&& t.records[i].encoding_id == be_u16(data, 4 + 8 * i + 2)
            &&& t.records[i].subtable_idx < t.subtables.len()
            &&& t.subtables[t.records[i].subtable_idx as int] == subtable_at(
                data,
                entry_offset(data, i),
            )
            &&& entry_error(data, i) is None
        }),
{
    let n: int = be_u16(data, 2);
    lemma_distinct_ranges(data, n);
    lemma_entries_without_error(data, n, i);
    let ranges: Seq<(int, int)> = distinct_ranges(data, n);
    assert(ranges.contains(entry_range(data, i)));
    let k: int = range_index(ranges, entry_range(data, i));
    assert(ranges[k] == entry_range(data, i));
    assert(parsed(data)->Ok_0.records[i] == parsed_record(data, n, i));
}

/// Two directory entries that name the same range of bytes get one
/// subtable, and two that name different ranges get different ones.
pub proof fn lemma_same_range_same_subtable(data: Seq<u8>, i: int, j: int)
    requires
        parsed(data) is Ok,
        0 <= i < be_u16(data, 2),
        0 <= j < be_u16(data, 2),
    ensures
        ({
            let t: TableView = parsed(data)->Ok_0;
            t.records[i].subtable_idx == t.records[j].subtable_idx <==> entry_range(data, i)
                == entry_range(data, j)
        }),
{
    let n: int = be_u16(data, 2);
    lemma_distinct_ranges(data, n);
    let ranges: Seq<(int, int)> = distinct_ranges(data, n);
    assert(ranges.contains(entry_range(data, i)));
    assert(ranges.contains(entry_range(data, j)));
    let a: int = range_index(ranges, entry_range(data, i));
    let b: int = range_index(ranges, entry_range(data, j));
    assert(ranges[a] == entry_range(data, i));
    assert(ranges[b] == entry_range(data, j));
    assert(parsed(data)->Ok_0.records[i] == parsed_record(data, n, i));
    assert(parsed(data)->Ok_0.records[j] == parsed_record(data, n, j));
}

/// A parsed subtable that is as long as its header is what its own
/// payload says.
pub proof fn lemma_parsed_subtable_carries_header(data: Seq<u8>, k: int)
    requires
        parsed(data) is Ok,
        0 <= k < parsed(data)->Ok_0.subtables.len(),
        parsed(data)->Ok_0.subtables[k].data.len() >= header_len(
            parsed(data)->Ok_0.subtables[k].format as int,
        ),
    ensures
        carries_header(parsed(data)->Ok_0.subtables[k]),
{
    let n: int = be_u16(data, 2);
    lemma_distinct_ranges(data, n);
    let ranges: Seq<(int, int)> = distinct_ranges(data, n);
    assert(is_entry_range(data, n, ranges[k]));
    let i: int = choose|i: int| 0 <= i < n && #[trigger] entry_range(data, i) == ranges[k];
    lemma_entries_without_error(data, n, i);
    let offset: int = entry_offset(data, i);
    let st: SubtableView = subtable_at(data, offset);
    assert(parsed(data)->Ok_0.subtables[k] == st);
    lemma_header_in_payload(data, offset, st);
}

/// A subtable that is cut out of `data` at `offset`, header and all, says
/// of itself what `data` says of it there.
pub proof fn lemma_header_in_payload(data: Seq<u8>, offset: int, st: SubtableView)
    requires
        0 <= offset,
        offset + st.data.len() <= data.len(),
        st.data == data.subrange(offset, offset + st.data.len()),
        st.data.len() >= 2,
        st.data.len() >= header_len(be_u16(data, offset)),
    ensures
        be_u16(st.data, 0) == be_u16(data, offset),
        subtable_length(st.data, 0) == subtable_length(data, offset),
        subtable_language(st.data, 0) == subtable_language(data, offset),
{
    assert(st.data[0] == data[offset] && st.data[1] == data[offset + 1]);
    assert(st.data[2] == data[offset + 2] && st.data[3] == data[offset + 3]);
    assert(st.data[4] == data[offset + 4] && st.data[5] == data[offset + 5]);
    if header_len(be_u16(data, offset)) == 12 {
        assert(st.data[6] == data[offset + 6] && st.data[7] == data[offset + 7]);
        assert(st.data[8] == data[offset + 8] && st.data[9] == data[offset + 9]);
        assert(st.data[10] == data[offset + 10] && st.data[11] == data[offset + 11]);
    }
}

/// Where a subtable that carries its header stands in `data` as it is, a
/// parse finds no fault with it there and takes it out as it is.
pub proof fn lemma_subtable_read_back(data: Seq<u8>, offset: int, st: SubtableView)
    requires
        carries_header(st),
        0 <= offset,
        offset + st.data.len() <= data.len(),
        st.data == data.subrange(offset, offset + st.data.len()),
    ensures
        subtable_error(data, offset) is None,
        subtable_length(data, offset) == st.data.len(),
        subtable_at(data, offset) == st,
{
    assert(st.data[0] == data[offset] && st.data[1] == data[offset + 1]);
    assert(be_u16(data, offset) == st.format);
    lemma_header_in_payload(data, offset, st);
    assert(subtable_at(data, offset).data =~= st.data);
}

/// Within the bytes of a directory, entry `p` stands at offset `8 * p`.
pub proof fn lemma_directory_entry(t: TableView, order: Seq<int>, p: int)
    requires
        0 <= p < order.len(),
    ensures
        t.directory_bytes(order).len() == 8 * order.len(),
        t.directory_bytes(order).subrange(8 * p, 8 * p + 8) == t.record_bytes(order[p]),
    decreases order.len(),
{
    lemma_directory_len(t, order);
    lemma_directory_len(t, order.drop_last());
    if p == order.len() - 1 {
        assert(t.directory_bytes(order).subrange(8 * p, 8 * p + 8) =~= t.record_bytes(order[p]));
    } else {
        lemma_directory_entry(t, order.drop_last(), p);
        assert(t.directory_bytes(order).subrange(8 * p, 8 * p + 8) =~= t.directory_bytes(
            order.drop_last(),
        ).subrange(8 * p, 8 * p + 8));
    }
}

/// Within the payloads of the subtables `0 .. k`, the payload of subtable
/// `s` starts where the payloads before it end.
pub proof fn lemma_payload_at(t: TableView, k: int, s: int)
    requires
        0 <= s < k,
    ensures
        t.payloads(k).len() == t.payloads_len(k),
        0 <= t.payloads_len(s),
        t.payloads_len(s) + t.subtables[s].data.len() <= t.payloads_len(k),
        t.payloads(k).subrange(t.payloads_len(s), t.payloads_len(s) + t.subtables[s].data.len())
            == t.subtables[s].data,
    decreases k,
{
    lemma_payloads_len(t, s, k);
    lemma_payloads_len(t, s + 1, k);
    lemma_payloads_len(t, k - 1, k - 1);
    if s == k - 1 {
        assert(t.payloads(k).subrange(
            t.payloads_len(s),
            t.payloads_len(s) + t.subtables[s].data.len(),
        ) =~= t.subtables[s].data);
    } else {
        lemma_payload_at(t, k - 1, s);
        assert(t.payloads(k).subrange(
            t.payloads_len(s),
            t.payloads_len(s) + t.subtables[s].data.len(),
        ) =~= t.payloads(k - 1).subrange(
            t.payloads_len(s),
            t.payloads_len(s) + t.subtables[s].data.len(),
        ));
    }
}

/// The head of a written table: its length, its version, and the number
/// of subtables where the number of directory entries is expected.
pub proof fn lemma_written_head(t: TableView)
    requires
        t.fits(),
    ensures
        t.serialized().len() == t.serialized_len(),
        t.serialized().len() >= 4 + 8 * t.records.len(),
        be_u16(t.serialized(), 0) == t.version,
        be_u16(t.serialized(), 2) == t.subtables.len(),
{
    let out: Seq<u8> = t.serialized();
    lemma_directory_len(t, t.stable_order(t.records.len() as int));
    lemma_stable_order(t, t.records.len() as int);
    lemma_payloads_len(t, 0, t.subtables.len() as int);
    lemma_u16_round_trip(t.version);
    lemma_u16_round_trip(t.subtables.len() as u16);
    assert(out.subrange(0, 2) =~= u16_bytes(t.version));
    assert(out.subrange(2, 4) =~= u16_bytes(t.subtables.len() as u16));
    assert(be_u16(out, 0) == be_u16(out.subrange(0, 2), 0));
    assert(be_u16(out, 2) == be_u16(out.subrange(2, 4), 0));
}

/// Entry `p` of the directory of a written table: the platform and the
/// encoding of the record that stands at `p` in the sorted order, and the
/// offset of its subtable.
pub proof fn lemma_written_entry(t: TableView, p: int)
    requires
        t.wf(),
        t.fits(),
        0 <= p < t.records.len(),
    ensures
        ({
            let out: Seq<u8> = t.serialized();
            let i: int = t.stable_order(t.records.len() as int)[p];
            &&& 0 <= i < t.records.len()
            &&& in_bounds(out, 4 + 8 * p, 8)
            &&& be_u16(out, 4 + 8 * p) == t.records[i].platform_id
            &&& be_u16(out, 4 + 8 * p + 2) == t.records[i].encoding_id
            &&& entry_offset(out, p) == t.subtable_offset(t.records[i].subtable_idx as int)
        }),
{
    let out: Seq<u8> = t.serialized();
    let n: int = t.records.len() as int;
    let order: Seq<int> = t.stable_order(n);
    lemma_written_head(t);
    lemma_stable_order(t, n);
    lemma_directory_entry(t, order, p);
    let i: int = order[p];
    let s: int = t.records[i].subtable_idx as int;
    lemma_payloads_len(t, s, t.subtables.len() as int);
    let at: int = 4 + 8 * p;
    let entry: Seq<u8> = out.subrange(at, at + 8);
    assert(entry =~= t.directory_bytes(order).subrange(8 * p, 8 * p + 8));
    assert(entry == t.record_bytes(i));
    lemma_u16_round_trip(t.records[i].platform_id);
    lemma_u16_round_trip(t.records[i].encoding_id);
    lemma_u32_round_trip(t.subtable_offset(s) as u32);
    assert(entry.subrange(0, 2) =~= u16_bytes(t.records[i].platform_id));
    assert(entry.subrange(2, 4) =~= u16_bytes(t.records[i].encoding_id));
    assert(entry.subrange(4, 8) =~= u32_bytes(t.subtable_offset(s) as u32));
    assert(be_u16(out, at) == be_u16(entry.subrange(0, 2), 0));
    assert(be_u16(out, at + 2) == be_u16(entry.subrange(2, 4), 0));
    assert(be_u32(out, at + 4) == be_u32(entry.subrange(4, 8), 0));
}

/// In a written table the payload of subtable `s` stands at the offset
/// that the directory gives for it.
pub proof fn lemma_written_payload(t: TableView, s: int)
    requires
        t.fits(),
        0 <= s < t.subtables.len(),
    ensures
        ({
            let out: Seq<u8> = t.serialized();
            let offset: int = t.subtable_offset(s);
            &&& 4 + 8 * t.records.len() <= offset
            &&& offset + t.subtables[s].data.len() <= out.len()
            &&& out.subrange(offset, offset + t.subtables[s].data.len()) == t.subtables[s].data
        }),
{
    let out: Seq<u8> = t.serialized();
    let k: int = t.subtables.len() as int;
    lemma_written_head(t);
    lemma_directory_len(t, t.stable_order(t.records.len() as int));
    lemma_stable_order(t, t.records.len() as int);
    lemma_payload_at(t, k, s);
    let offset: int = t.subtable_offset(s);
    assert(out.subrange(offset, offset + t.subtables[s].data.len()) =~= t.payloads(k).subrange(
        t.payloads_len(s),
        t.payloads_len(s) + t.subtables[s].data.len(),
    ));
}

/// What stands at entry `p` of the directory of a written table can be
/// read: the entry has no error, and the subtable at its offset is the
/// subtable of the record that stands at `p` in the sorted order.
pub proof fn lemma_written_entry_read(t: TableView, p: int)
    requires
        t.wf(),
        t.fits(),
        forall|k: int| 0 <= k < t.subtables.len() ==> carries_header(#[trigger] t.subtables[k]),
        0 <= p < t.records.len(),
    ensures
        ({
            let out: Seq<u8> = t.serialized();
            let i: int = t.stable_order(t.records.len() as int)[p];
            &&& 0 <= i < t.records.len()
            &&& entry_error(out, p) is None
            &&& be_u16(out, 4 + 8 * p) == t.records[i].platform_id
            &&& be_u16(out, 4 + 8 * p + 2) == t.records[i].encoding_id
            &&& subtable_at(out, entry_offset(out, p)) == t.subtables[t.records[i].subtable_idx as int]
        }),
{
    let out: Seq<u8> = t.serialized();
    lemma_written_entry(t, p);
    let i: int = t.stable_order(t.records.len() as int)[p];
    let s: int = t.records[i].subtable_idx as int;
    assert(0 <= s < t.subtables.len());
    lemma_written_payload(t, s);
    assert(carries_header(t.subtables[s]));
    lemma_subtable_read_back(out, t.subtable_offset(s), t.subtables[s]);
}

/// What a parse finds in a written table. The count in the head is the
/// number of subtables, so the parse reads that many directory entries: the
/// records that stand first in the sorted order, each with the subtable
/// that it had.
pub proof fn lemma_read_back(t: TableView)
    requires
        t.wf(),
        t.fits(),
        t.subtables.len() <= t.records.len(),
        forall|k: int| 0 <= k < t.subtables.len() ==> carries_header(#[trigger] t.subtables[k]),
    ensures
        parsed(t.serialized()) is Ok,
        ({
            let back: TableView = parsed(t.serialized())->Ok_0;
            let order: Seq<int> = t.stable_order(t.records.len() as int);
            &&& back.wf()
            &&& back.version == t.version
            &&& back.records.len() == t.subtables.len()
            &&& forall|p: int|
                0 <= p < back.records.len() ==> {
                    &&& 0 <= #[trigger] order[p] < t.records.len()
                    &&& back.records[p].platform_id == t.records[order[p]].platform_id
                    &&& back.records[p].encoding_id == t.records[order[p]].encoding_id
                    &&& back.records[p].subtable_idx < back.subtables.len()
                    &&& back.subtables[back.records[p].subtable_idx as int]
                        == t.subtables[t.records[order[p]].subtable_idx as int]
                }
        }),
{
    let out: Seq<u8> = t.serialized();
    let k: int = t.subtables.len() as int;
    let order: Seq<int> = t.stable_order(t.records.len() as int);
    lemma_written_head(t);
    assert forall|p: int| 0 <= p < k implies #[trigger] entry_error(out, p) is None by {
        lemma_written_entry_read(t, p);
    }
    lemma_no_first_error(out, k);
    assert(parsed(out) is Ok);
    let back: TableView = parsed(out)->Ok_0;
    assert(back.records.len() == k);
    assert(back.version == t.version);
    assert forall|p: int| 0 <= p < k implies {
        &&& 0 <= #[trigger] order[p] < t.records.len()
        &&& back.records[p].platform_id == t.records[order[p]].platform_id
        &&& back.records[p].encoding_id == t.records[order[p]].encoding_id
        &&& back.records[p].subtable_idx < back.subtables.len()
        &&& back.subtables[back.records[p].subtable_idx as int]
            == t.subtables[t.records[order[p]].subtable_idx as int]
    } by {
        lemma_written_entry_read(t, p);
        lemma_parsed_entry(out, p);
    }
    assert(back.wf()) by {
        assert forall|p: int| 0 <= p < back.records.len() implies (
        #[trigger] back.records[p]).subtable_idx < back.subtables.len() by {
            lemma_parsed_entry(out, p);
        }
    }
}

/// The directory of a written table reads back in the mandated order: no
/// record that is read has to stand before one that is read before it.
pub proof fn lemma_read_back_sorted(t: TableView, a: int, b: int)
    requires
        t.wf(),
        t.fits(),
        t.subtables.len() <= t.records.len(),
        forall|k: int| 0 <= k < t.subtables.len() ==> carries_header(#[trigger] t.subtables[k]),
        0 <= a <= b < t.subtables.len(),
    ensures
        parsed(t.serialized()) is Ok,
        !parsed(t.serialized())->Ok_0.sorts_before(b, a),
{
    lemma_read_back(t);
    let back: TableView = parsed(t.serialized())->Ok_0;
    let n: int = t.records.len() as int;
    let order: Seq<int> = t.stable_order(n);
    lemma_stable_order(t, n);
    assert(0 <= order[a] < n && 0 <= order[b] < n);
    if a < b {
        assert(!t.sorts_before(order[b], order[a]));
    } else {
        lemma_sorts_before_order(t, order[a], order[a], order[a]);
    }
    assert(back.language_of(a) == t.language_of(order[a]));
    assert(back.language_of(b) == t.language_of(order[b]));
}

/// Whether what record `i` says is also said by a record that a reader of
/// the written table sees: one of the first records of the sorted order,
/// as many as the table has subtables.
pub open spec fn is_read_back(t: TableView, i: int) -> bool {
    exists|p: int|
        0 <= p < t.subtables.len() && p < t.records.len() && #[trigger] record_tuple(
            t,
            t.stable_order(t.records.len() as int)[p],
        ) == record_tuple(t, i)
}

/// Where no two records share a subtable, a reader of the written table
/// sees every record.
pub proof fn lemma_unshared_is_read_back(t: TableView, i: int)
    requires
        t.records.len() == t.subtables.len(),
        0 <= i < t.records.len(),
    ensures
        is_read_back(t, i),
{
    let n: int = t.records.len() as int;
    let order: Seq<int> = t.stable_order(n);
    lemma_stable_order(t, n);
    assert(order.contains(i));
    let p: int = choose|p: int| 0 <= p < order.len() && order[p] == i;
    assert(record_tuple(t, order[p]) == record_tuple(t, i));
}

/// A table that is parsed, written and parsed again says what it said
/// before: the same set of platform, encoding, format, language and
/// length. This holds where every subtable is as long as its header, and
/// where a reader of the written table sees what every record says, as it
/// does where no two records share a subtable.
pub proof fn lemma_round_trip(data: Seq<u8>)
    requires
        parsed(data) is Ok,
        parsed(data)->Ok_0.fits(),
        forall|k: int|
            0 <= k < parsed(data)->Ok_0.subtables.len() ==> (#[trigger] parsed(
                data,
            )->Ok_0.subtables[k]).data.len() >= header_len(
                parsed(data)->Ok_0.subtables[k].format as int,
            ),
        forall|i: int|
            0 <= i < parsed(data)->Ok_0.records.len() ==> #[trigger] is_read_back(
                parsed(data)->Ok_0,
                i,
            ),
    ensures
        parsed(parsed(data)->Ok_0.serialized()) is Ok,
        record_tuples(parsed(parsed(data)->Ok_0.serialized())->Ok_0) == record_tuples(
            parsed(data)->Ok_0,
        ),
{
    let t: TableView = parsed(data)->Ok_0;
    let n: int = t.records.len() as int;
    assert(t.wf() && t.subtables.len() <= t.records.len()) by {
        assert forall|i: int| 0 <= i < t.records.len() implies (#[trigger] t.records[i]).subtable_idx
            < t.subtables.len() by {
            lemma_parsed_entry(data, i);
        }
        lemma_distinct_ranges(data, be_u16(data, 2));
    }
    assert forall|k: int| 0 <= k < t.subtables.len() implies carries_header(
        #[trigger] t.subtables[k],
    ) by {
        lemma_parsed_subtable_carries_header(data, k);
    }
    lemma_read_back(t);
    lemma_stable_order(t, n);
    let back: TableView = parsed(t.serialized())->Ok_0;
    let order: Seq<int> = t.stable_order(n);
    assert forall|tuple: (u16, u16, u16, u32, nat)| has_tuple(back, tuple) implies has_tuple(
        t,
        tuple,
    ) by {
        let p: int = choose|p: int| 0 <= p < back.records.len() && #[trigger] record_tuple(back, p)
            == tuple;
        assert(0 <= order[p] < n);
        assert(record_tuple(t, order[p]) == tuple);
    }
    assert forall|tuple: (u16, u16, u16, u32, nat)| has_tuple(t, tuple) implies has_tuple(
        back,
        tuple,
    ) by {
        let i: int = choose|i: int| 0 <= i < t.records.len() && #[trigger] record_tuple(t, i)
            == tuple;
        assert(is_read_back(t, i));
        let p: int = choose|p: int|
            0 <= p < t.subtables.len() && p < t.records.len() && #[trigger] record_tuple(
                t,
                order[p],
            ) == record_tuple(t, i);
        assert(0 <= order[p] < n);
        assert(record_tuple(back, p) == tuple);
    }
    assert(record_tuples(back) =~= record_tuples(t));
}

} // verus!
