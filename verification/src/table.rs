//! The table in memory: its directory of encoding records and the distinct
//! subtables that they refer to, read from bytes and written back.

use std::borrow::Cow;

use vstd::prelude::*;

use crate::bytes::{be_u16, be_u32, in_bounds, read_u16_at, u16_at, u16_bytes, u32_at, u32_bytes};
use crate::bytes::Writer;
use crate::error::Error;

verus! {

/// One entry of the directory: a platform and an encoding, and the
/// subtable that serves them.
#[derive(Clone, Copy, Debug, PartialEq, Eq, Structural)]
pub struct EncodingRecord {
    pub platform_id: u16,
    pub encoding_id: u16,
    /// An index into the subtables of the table.
    pub subtable_idx: usize,
}

/// One mapping body of the table, with what its header says of it.
#[derive(Debug)]
pub struct Subtable<'a> {
    pub format: u16,
    pub language: u32,
    /// The whole encoded subtable, header included. It is borrowed from the
    /// buffer that was parsed until a rewrite replaces it.
    pub data: Cow<'a, [u8]>,
}

/// What a subtable is, with its bytes as a sequence.
pub struct SubtableView {
    pub format: u16,
    pub language: u32,
    pub data: Seq<u8>,
}

impl<'a> View for Subtable<'a> {
    type V = SubtableView;

    open spec fn view(&self) -> SubtableView {
        SubtableView { format: self.format, language: self.language, data: self.data@ }
    }
}

impl<'a> Subtable<'a> {
    /// The encoded subtable.
    pub fn bytes(&self) -> (bytes: &[u8])
        ensures
            bytes@ == self@.data,
    {
        match &self.data {
            Cow::Borrowed(borrowed) => borrowed,
            Cow::Owned(owned) => owned.as_slice(),
        }
    }
}

/// The table: a version, the directory in the order in which it was read,
/// and the subtables in the order in which the directory first names them.
#[derive(Debug)]
pub struct Table<'a> {
    pub version: u16,
    pub encoding_records: Vec<EncodingRecord>,
    pub subtables: Vec<Subtable<'a>>,
}

/// What a table is, with its lists as sequences.
pub struct TableView {
    pub version: u16,
    pub records: Seq<EncodingRecord>,
    pub subtables: Seq<SubtableView>,
}

impl TableView {
    /// The invariant of a table: every record refers to a subtable of it.
    pub open spec fn wf(self) -> bool {
        forall|i: int|
            0 <= i < self.records.len() ==> (#[trigger] self.records[i]).subtable_idx
                < self.subtables.len()
    }
}

impl<'a> View for Table<'a> {
    type V = TableView;

    open spec fn view(&self) -> TableView {
        TableView {
            version: self.version,
            records: self.encoding_records@,
            subtables: Seq::new(self.subtables@.len(), |k: int| self.subtables@[k]@),
        }
    }
}

impl TableView {
    /// The language of the subtable that record `i` refers to.
    pub open spec fn language_of(self, i: int) -> u32 {
        self.subtables[self.records[i].subtable_idx as int].language
    }

    /// Whether record `a` has to stand before record `b` in the directory
    /// on account of its platform, its encoding and the language of its
    /// subtable, compared in that order.
    pub open spec fn sorts_before(self, a: int, b: int) -> bool {
        let x: EncodingRecord = self.records[a];
        let y: EncodingRecord = self.records[b];
        x.platform_id < y.platform_id || (x.platform_id == y.platform_id && (x.encoding_id
            < y.encoding_id || (x.encoding_id == y.encoding_id && self.language_of(a)
            < self.language_of(b))))
    }

    /// Where record `i` goes into `order`: behind the last record that
    /// does not have to stand behind it.
    pub open spec fn insertion_point(self, order: Seq<int>, i: int) -> int
        decreases order.len(),
    {
        if order.len() == 0 {
            0
        } else if self.sorts_before(i, order.last()) {
            self.insertion_point(order.drop_last(), i)
        } else {
            order.len() as int
        }
    }

    /// The records `0 .. n` in the order of the directory: sorted by
    /// platform, encoding and language, and those that agree in all three
    /// in the order in which the table holds them.
    pub open spec fn stable_order(self, n: int) -> Seq<int>
        decreases n,
    {
        if n <= 0 {
            Seq::<int>::empty()
        } else {
            let before: Seq<int> = self.stable_order(n - 1);
            before.insert(self.insertion_point(before, n - 1), n - 1)
        }
    }

    /// The number of bytes that the payloads of the subtables `0 .. k` take.
    pub open spec fn payloads_len(self, k: int) -> int
        decreases k,
    {
        if k <= 0 {
            0
        } else {
            self.payloads_len(k - 1) + self.subtables[k - 1].data.len()
        }
    }

    /// Where the payload of subtable `k` starts in the written table:
    /// behind the header, the directory and the payloads before it.
    pub open spec fn subtable_offset(self, k: int) -> int {
        4 + 8 * self.records.len() + self.payloads_len(k)
    }

    /// The number of bytes of the written table.
    pub open spec fn serialized_len(self) -> int {
        self.subtable_offset(self.subtables.len() as int)
    }

    /// Whether the table can be written: the number of subtables and
    /// every offset fit the fields that hold them.
    pub open spec fn fits(self) -> bool {
        self.subtables.len() <= u16::MAX && self.serialized_len() <= u32::MAX
    }

    /// The eight bytes of the directory entry of record `i`.
    pub open spec fn record_bytes(self, i: int) -> Seq<u8> {
        u16_bytes(self.records[i].platform_id) + u16_bytes(self.records[i].encoding_id)
            + u32_bytes(self.subtable_offset(self.records[i].subtable_idx as int) as u32)
    }

    /// The bytes of the directory that lists the records in `order`.
    pub open spec fn directory_bytes(self, order: Seq<int>) -> Seq<u8>
        decreases order.len(),
    {
        if order.len() == 0 {
            Seq::<u8>::empty()
        } else {
            self.directory_bytes(order.drop_last()) + self.record_bytes(order.last())
        }
    }

    /// The payloads of the subtables `0 .. k`, one after the other.
    pub open spec fn payloads(self, k: int) -> Seq<u8>
        decreases k,
    {
        if k <= 0 {
            Seq::<u8>::empty()
        } else {
            self.payloads(k - 1) + self.subtables[k - 1].data
        }
    }

    /// The written table: the version, the number of subtables, the
    /// directory in its mandated order, and the payloads in the order of
    /// the subtables.
    pub open spec fn serialized(self) -> Seq<u8> {
        u16_bytes(self.version) + u16_bytes(self.subtables.len() as u16) + self.directory_bytes(
            self.stable_order(self.records.len() as int),
        ) + self.payloads(self.subtables.len() as int)
    }
}

/// Payloads only add up: the first `a` of them take no more bytes than the
/// first `b`, and the payloads `0 .. k` take `payloads_len(k)` bytes.
pub proof fn lemma_payloads_len(t: TableView, a: int, b: int)
    requires
        0 <= a <= b,
    ensures
        0 <= t.payloads_len(a) <= t.payloads_len(b),
        t.payloads(b).len() == t.payloads_len(b),
    decreases b,
{
    if a < b {
        lemma_payloads_len(t, a, b - 1);
    } else if b > 0 {
        lemma_payloads_len(t, a - 1, b - 1);
    }
}

/// The order of the first `n` records lists each of them once, and has
/// every record behind all those that may not stand behind it; where two
/// records agree in platform, encoding and language, the one that the
/// table holds first stands first.
pub proof fn lemma_stable_order(t: TableView, n: int)
    requires
        0 <= n <= t.records.len(),
    ensures
        t.stable_order(n).len() == n,
        forall|p: int| 0 <= p < n ==> 0 <= (#[trigger] t.stable_order(n)[p]) < n,
        forall|p: int, q: int|
            0 <= p < q < n ==> !t.sorts_before(
                #[trigger] t.stable_order(n)[q],
                #[trigger] t.stable_order(n)[p],
            ),
        forall|p: int, q: int|
            0 <= p < q < n && !t.sorts_before(
                #[trigger] t.stable_order(n)[p],
                #[trigger] t.stable_order(n)[q],
            ) ==> t.stable_order(n)[p] < t.stable_order(n)[q],
        forall|i: int| 0 <= i < n ==> #[trigger] t.stable_order(n).contains(i),
    decreases n,
{
    if n > 0 {
        lemma_stable_order(t, n - 1);
        let before: Seq<int> = t.stable_order(n - 1);
        let at: int = t.insertion_point(before, n - 1);
        lemma_insertion_point(t, before, n - 1);
        let after: Seq<int> = t.stable_order(n);
        assert(after == before.insert(at, n - 1));
        assert forall|i: int| 0 <= i < n implies #[trigger] after.contains(i) by {
            if i < n - 1 {
                assert(before.contains(i));
                let p: int = choose|p: int| 0 <= p < before.len() && before[p] == i;
                if p < at {
                    assert(after[p] == i);
                } else {
                    assert(after[p + 1] == i);
                }
            } else {
                assert(after[at] == i);
            }
        }
        assert forall|p: int, q: int| 0 <= p < q < n implies !t.sorts_before(
            #[trigger] after[q],
            #[trigger] after[p],
        ) by {
            lemma_sorts_before_order(t, after[p], after[q], after[q]);
            if q == at {
                assert(after[p] == before[p]);
            } else if p == at {
                assert(after[q] == before[q - 1]);
            } else {
                let p0: int = if p < at { p } else { p - 1 };
                let q0: int = if q < at { q } else { q - 1 };
                assert(after[p] == before[p0] && after[q] == before[q0]);
            }
        }
        assert forall|p: int, q: int|
            0 <= p < q < n && !t.sorts_before(
                #[trigger] after[p],
                #[trigger] after[q],
            ) implies after[p] < after[q] by {
            if q == at {
                assert(after[p] == before[p]);
            } else if p == at {
                assert(after[q] == before[q - 1]);
            } else {
                let p0: int = if p < at { p } else { p - 1 };
                let q0: int = if q < at { q } else { q - 1 };
                assert(after[p] == before[p0] && after[q] == before[q0]);
            }
        }
    }
}

/// The order by platform, encoding and language is a strict one: no
/// record stands before itself, and of two records that stand before each
/// other in turn the first stands before the third.
pub proof fn lemma_sorts_before_order(t: TableView, a: int, b: int, c: int)
    ensures
        !t.sorts_before(a, a),
        t.sorts_before(a, b) ==> !t.sorts_before(b, a),
        t.sorts_before(a, b) && t.sorts_before(b, c) ==> t.sorts_before(a, c),
        t.sorts_before(a, b) && !t.sorts_before(c, b) ==> t.sorts_before(a, c),
        !t.sorts_before(b, a) && t.sorts_before(b, c) ==> t.sorts_before(a, c),
{
}

/// In a sorted order the insertion point splits the order: the records
/// before it may stand before the new one, and those from it on have to
/// stand behind it.
pub proof fn lemma_insertion_point(t: TableView, order: Seq<int>, i: int)
    requires
        forall|p: int, q: int|
            0 <= p < q < order.len() ==> !t.sorts_before(#[trigger] order[q], #[trigger] order[p]),
    ensures
        0 <= t.insertion_point(order, i) <= order.len(),
        forall|p: int|
            0 <= p < t.insertion_point(order, i) ==> !t.sorts_before(i, #[trigger] order[p]),
        forall|p: int|
            t.insertion_point(order, i) <= p < order.len() ==> t.sorts_before(
                i,
                #[trigger] order[p],
            ),
    decreases order.len(),
{
    if order.len() > 0 {
        let last: int = order.last();
        if t.sorts_before(i, last) {
            let rest: Seq<int> = order.drop_last();
            assert forall|p: int, q: int| 0 <= p < q < rest.len() implies !t.sorts_before(
                #[trigger] rest[q],
                #[trigger] rest[p],
            ) by {
                assert(rest[p] == order[p] && rest[q] == order[q]);
            }
            lemma_insertion_point(t, rest, i);
            assert forall|p: int| 0 <= p < t.insertion_point(order, i) implies !t.sorts_before(
                i,
                #[trigger] order[p],
            ) by {
                assert(order[p] == rest[p]);
            }
            assert forall|p: int|
                t.insertion_point(order, i) <= p < order.len() implies t.sorts_before(
                i,
                #[trigger] order[p],
            ) by {
                if p < rest.len() {
                    assert(order[p] == rest[p]);
                }
            }
        } else {
            assert forall|p: int| 0 <= p < order.len() implies !t.sorts_before(
                i,
                #[trigger] order[p],
            ) by {
                if p < order.len() - 1 {
                    assert(!t.sorts_before(order[order.len() - 1], order[p]));
                    lemma_sorts_before_order(t, i, order[p], last);
                }
            }
        }
    }
}

/// The indices of `order` as integers.
pub open spec fn indices(order: Seq<usize>) -> Seq<int> {
    Seq::new(order.len(), |p: int| order[p] as int)
}

/// A directory of `n` records takes `8 * n` bytes.
pub proof fn lemma_directory_len(t: TableView, order: Seq<int>)
    ensures
        t.directory_bytes(order).len() == 8 * order.len(),
    decreases order.len(),
{
    if order.len() > 0 {
        lemma_directory_len(t, order.drop_last());
    }
}

/// Whether `format` is one of the nine subtable formats.
pub open spec fn is_known_format(format: int) -> bool {
    format == 0 || format == 2 || format == 4 || format == 6 || format == 8 || format == 10
        || format == 12 || format == 13 || format == 14
}

/// Whether a format keeps its length and language in 32-bit fields behind
/// a reserved word.
pub open spec fn has_long_header(format: int) -> bool {
    format == 8 || format == 10 || format == 12 || format == 13
}

/// The number of bytes that have to be read to learn the length and the
/// language of a subtable of the given format.
pub open spec fn header_len(format: int) -> int {
    if has_long_header(format) {
        12
    } else {
        6
    }
}

/// The length that the subtable at `offset` announces.
pub open spec fn subtable_length(data: Seq<u8>, offset: int) -> int {
    let format: int = be_u16(data, offset);
    if has_long_header(format) {
        be_u32(data, offset + 4)
    } else if format == 14 {
        be_u32(data, offset + 2)
    } else {
        be_u16(data, offset + 2)
    }
}

/// The language that the subtable at `offset` announces; a subtable of
/// format 14 has none, and counts as language 0.
pub open spec fn subtable_language(data: Seq<u8>, offset: int) -> int {
    let format: int = be_u16(data, offset);
    if has_long_header(format) {
        be_u32(data, offset + 8)
    } else if format == 14 {
        0
    } else {
        be_u16(data, offset + 4)
    }
}

/// What stands in the way of taking the subtable at `offset` out of
/// `data`, if anything does.
pub open spec fn subtable_error(data: Seq<u8>, offset: int) -> Option<Error> {
    if !in_bounds(data, offset, 2) {
        Some(Error::OutOfBounds)
    } else if !is_known_format(be_u16(data, offset)) {
        Some(Error::UnrecognizedFormat)
    } else if !in_bounds(data, offset, header_len(be_u16(data, offset))) {
        Some(Error::OutOfBounds)
    } else if !in_bounds(data, offset, subtable_length(data, offset)) {
        Some(Error::OutOfBounds)
    } else {
        None
    }
}

/// The subtable that stands at `offset`.
pub open spec fn subtable_at(data: Seq<u8>, offset: int) -> SubtableView {
    SubtableView {
        format: be_u16(data, offset) as u16,
        language: subtable_language(data, offset) as u32,
        data: data.subrange(offset, offset + subtable_length(data, offset)),
    }
}

/// The offset that directory entry `i` gives for its subtable.
pub open spec fn entry_offset(data: Seq<u8>, i: int) -> int {
    be_u32(data, 4 + 8 * i + 4)
}

/// The bytes that directory entry `i` refers to: where its subtable starts
/// and how long it is.
pub open spec fn entry_range(data: Seq<u8>, i: int) -> (int, int) {
    (entry_offset(data, i), subtable_length(data, entry_offset(data, i)))
}

/// What stands in the way of reading directory entry `i` and its
/// subtable, if anything does.
pub open spec fn entry_error(data: Seq<u8>, i: int) -> Option<Error> {
    if !in_bounds(data, 4 + 8 * i, 8) {
        Some(Error::OutOfBounds)
    } else {
        subtable_error(data, entry_offset(data, i))
    }
}

/// The error of the first of the directory entries `0 .. n` that has one.
pub open spec fn first_error(data: Seq<u8>, n: int) -> Option<Error>
    decreases n,
{
    if n <= 0 {
        None
    } else {
        match first_error(data, n - 1) {
            Some(e) => Some(e),
            None => entry_error(data, n - 1),
        }
    }
}

/// The distinct byte ranges that the directory entries `0 .. n` refer to,
/// each where the directory first names it. Two entries share a subtable
/// exactly if they name the same range: equal bytes elsewhere do not count.
pub open spec fn distinct_ranges(data: Seq<u8>, n: int) -> Seq<(int, int)>
    decreases n,
{
    if n <= 0 {
        Seq::<(int, int)>::empty()
    } else {
        let before: Seq<(int, int)> = distinct_ranges(data, n - 1);
        if before.contains(entry_range(data, n - 1)) {
            before
        } else {
            before.push(entry_range(data, n - 1))
        }
    }
}

/// Whether one of the directory entries `0 .. n` refers to `range`.
pub open spec fn is_entry_range(data: Seq<u8>, n: int, range: (int, int)) -> bool {
    exists|i: int| 0 <= i < n && #[trigger] entry_range(data, i) == range
}

/// The place of `range` in `ranges`.
pub open spec fn range_index(ranges: Seq<(int, int)>, range: (int, int)) -> int {
    choose|k: int| 0 <= k < ranges.len() && ranges[k] == range
}

/// The record that directory entry `i` of `n` becomes.
pub open spec fn parsed_record(data: Seq<u8>, n: int, i: int) -> EncodingRecord {
    EncodingRecord {
        platform_id: be_u16(data, 4 + 8 * i) as u16,
        encoding_id: be_u16(data, 4 + 8 * i + 2) as u16,
        subtable_idx: range_index(distinct_ranges(data, n), entry_range(data, i)) as usize,
    }
}

/// The table that `data` holds, or why it holds none. The directory keeps
/// its order, and the subtables stand in the order in which the directory
/// first names them.
pub open spec fn parsed(data: Seq<u8>) -> Result<TableView, Error> {
    if data.len() < 4 {
        Err(Error::OutOfBounds)
    } else {
        let n: int = be_u16(data, 2);
        match first_error(data, n) {
            Some(e) => Err(e),
            None => Ok(
                TableView {
                    version: be_u16(data, 0) as u16,
                    records: Seq::new(n as nat, |i: int| parsed_record(data, n, i)),
                    subtables: Seq::new(
                        distinct_ranges(data, n).len(),
                        |k: int| subtable_at(data, distinct_ranges(data, n)[k].0),
                    ),
                },
            ),
        }
    }
}

/// What the distinct ranges of the first `n` entries are: every entry's
/// range is among them, each of them is some entry's range, and none
/// occurs twice. One more entry leaves those before it where they are.
pub proof fn lemma_distinct_ranges(data: Seq<u8>, n: int)
    requires
        0 <= n,
    ensures
        distinct_ranges(data, n).len() <= n,
        forall|i: int| 0 <= i < n ==> distinct_ranges(data, n).contains(#[trigger] entry_range(data, i)),
        forall|k: int|
            0 <= k < distinct_ranges(data, n).len() ==> is_entry_range(
                data,
                n,
                #[trigger] distinct_ranges(data, n)[k],
            ),
        forall|k: int, m: int|
            0 <= k < m < distinct_ranges(data, n).len() ==> distinct_ranges(data, n)[k]
                != distinct_ranges(data, n)[m],
        n > 0 ==> distinct_ranges(data, n - 1).len() <= distinct_ranges(data, n).len(),
        n > 0 ==> forall|k: int|
            0 <= k < distinct_ranges(data, n - 1).len() ==> distinct_ranges(data, n)[k]
                == distinct_ranges(data, n - 1)[k],
    decreases n,
{
    if n > 0 {
        lemma_distinct_ranges(data, n - 1);
        let before: Seq<(int, int)> = distinct_ranges(data, n - 1);
        let after: Seq<(int, int)> = distinct_ranges(data, n);
        let last: (int, int) = entry_range(data, n - 1);
        assert forall|i: int| 0 <= i < n implies after.contains(#[trigger] entry_range(data, i)) by {
            if i < n - 1 {
                let k: int = choose|k: int| 0 <= k < before.len() && before[k] == entry_range(data, i);
                assert(after[k] == entry_range(data, i));
            } else if before.contains(last) {
            } else {
                assert(after[before.len() as int] == last);
            }
        }
        assert forall|k: int| 0 <= k < after.len() implies is_entry_range(
            data,
            n,
            #[trigger] after[k],
        ) by {
            if k < before.len() {
                assert(is_entry_range(data, n - 1, before[k]));
                let i: int = choose|i: int|
                    0 <= i < n - 1 && #[trigger] entry_range(data, i) == before[k];
                assert(entry_range(data, i) == after[k]);
            } else {
                assert(entry_range(data, n - 1) == after[k]);
            }
        }
    }
}

impl<'a> Table<'a> {
    /// Whether every record refers to a subtable of the table.
    pub open spec fn wf(&self) -> bool {
        self@.wf()
    }

    /// Whether every record refers to a subtable of the table, which is
    /// what `write` asks of a table that was put together by hand.
    pub fn is_well_formed(&self) -> (r: bool)
        ensures
            r == self.wf(),
    {
        let mut i: usize = 0;
        while i < self.encoding_records.len()
            invariant
                i <= self.encoding_records@.len(),
                forall|m: int|
                    0 <= m < i ==> (#[trigger] self@.records[m]).subtable_idx
                        < self@.subtables.len(),
            decreases self.encoding_records@.len() - i,
        {
            if self.encoding_records[i].subtable_idx >= self.subtables.len() {
                assert(self@.records[i as int].subtable_idx >= self@.subtables.len());
                return false;
            }
            i += 1;
        }
        true
    }

    /// Parses the table that `data` holds. Each subtable borrows its bytes
    /// from `data`; two directory entries that name the same range of bytes
    /// get the same subtable.
    pub fn read(data: &'a [u8]) -> (r: Result<Table<'a>, Error>)
        ensures
            match r {
                Ok(table) => parsed(data@) == Ok::<TableView, Error>(table@) && table.wf(),
                Err(e) => parsed(data@) == Err::<TableView, Error>(e),
            },
    {
        let version: u16 = read_u16_at(data, 0)?;
        let num_tables: usize = read_u16_at(data, 2)? as usize;
        let len: usize = data.len();
        let mut encoding_records: Vec<EncodingRecord> = Vec::new();
        let mut subtables: Vec<Subtable<'a>> = Vec::new();
        let mut seen: Vec<(usize, usize)> = Vec::new();
        let mut i: usize = 0;
        while i < num_tables
            invariant
                i <= num_tables <= u16::MAX,
                num_tables == be_u16(data@, 2),
                len == data@.len(),
                len >= 4,
                first_error(data@, i as int) is None,
                encoding_records@.len() == i,
                seen@.len() == distinct_ranges(data@, i as int).len(),
                subtables@.len() == seen@.len(),
                forall|k: int|
                    0 <= k < seen@.len() ==> (#[trigger] seen@[k]).0 == distinct_ranges(
                        data@,
                        i as int,
                    )[k].0 && seen@[k].1 == distinct_ranges(data@, i as int)[k].1,
                forall|k: int|
                    0 <= k < seen@.len() ==> (#[trigger] subtables@[k])@ == subtable_at(
                        data@,
                        seen@[k].0 as int,
                    ),
                forall|m: int|
                    0 <= m < i ==> {
                        &&& (#[trigger] encoding_records@[m]).platform_id == be_u16(
                            data@,
                            4 + 8 * m,
                        )
                        &&& encoding_records@[m].encoding_id == be_u16(data@, 4 + 8 * m + 2)
                        &&& encoding_records@[m].subtable_idx < seen@.len()
                        &&& distinct_ranges(data@, i as int)[encoding_records@[m].subtable_idx as int]
                            == entry_range(data@, m)
                    },
            decreases num_tables - i,
        {
            proof {
                lemma_distinct_ranges(data@, i + 1);
            }
            let entry: Entry = match read_entry(data, i) {
                Ok(entry) => entry,
                Err(e) => {
                    proof {
                        lemma_first_error_stays(data@, i + 1, num_tables as int);
                    }
                    return Err(e);
                },
            };
            let platform_id: u16 = entry.platform_id;
            let encoding_id: u16 = entry.encoding_id;
            let offset: usize = entry.offset;
            let length: usize = entry.length;
            let format: u16 = entry.format;
            let language: u32 = entry.language;
            assert(entry_error(data@, i as int) is None);
            assert(entry_range(data@, i as int) == (offset as int, length as int));
            let ghost before: Seq<(int, int)> = distinct_ranges(data@, i as int);
            let ghost range: (int, int) = (offset as int, length as int);
            let found: Option<usize> = find_range(&seen, offset, length);
            let subtable_idx: usize = match found {
                Some(k) => {
                    assert(before[k as int] == range);
                    assert(before.contains(range));
                    k
                },
                None => {
                    assert(!before.contains(range)) by {
                        if before.contains(range) {
                            let k: int = choose|k: int| 0 <= k < before.len() && before[k] == range;
                            assert(seen@[k].0 == offset && seen@[k].1 == length);
                        }
                    }
                    let payload: &'a [u8] = vstd::slice::slice_subrange(data, offset, offset + length);
                    subtables.push(Subtable { format, language, data: Cow::Borrowed(payload) });
                    seen.push((offset, length));
                    seen.len() - 1
                },
            };
            encoding_records.push(EncodingRecord { platform_id, encoding_id, subtable_idx });
            i += 1;
        }
        let table = Table { version, encoding_records, subtables };
        proof {
            let n: int = num_tables as int;
            lemma_distinct_ranges(data@, n);
            let ranges: Seq<(int, int)> = distinct_ranges(data@, n);
            let want: TableView = parsed(data@)->Ok_0;
            assert forall|m: int| 0 <= m < n implies table@.records[m] == want.records[m] by {
                let k: int = range_index(ranges, entry_range(data@, m));
                assert(ranges.contains(entry_range(data@, m)));
                assert(ranges[table.encoding_records@[m].subtable_idx as int] == entry_range(data@, m));
            }
            assert(table@.records =~= want.records);
            assert(table@.subtables =~= want.subtables);
        }
        Ok(table)
    }

    /// Whether record `a` has to stand before record `b` in the directory.
    fn record_sorts_before(&self, a: usize, b: usize) -> (r: bool)
        requires
            self.wf(),
            a < self.encoding_records@.len(),
            b < self.encoding_records@.len(),
        ensures
            r == self@.sorts_before(a as int, b as int),
    {
        let x: EncodingRecord = self.encoding_records[a];
        let y: EncodingRecord = self.encoding_records[b];
        if x.platform_id != y.platform_id {
            return x.platform_id < y.platform_id;
        }
        if x.encoding_id != y.encoding_id {
            return x.encoding_id < y.encoding_id;
        }
        assert(self@.records[a as int].subtable_idx < self@.subtables.len());
        assert(self@.records[b as int].subtable_idx < self@.subtables.len());
        self.subtables[x.subtable_idx].language < self.subtables[y.subtable_idx].language
    }

    /// The indices of the records in the order of the directory.
    fn directory_order(&self) -> (order: Vec<usize>)
        requires
            self.wf(),
        ensures
            indices(order@) == self@.stable_order(self@.records.len() as int),
    {
        let n: usize = self.encoding_records.len();
        let mut order: Vec<usize> = Vec::new();
        let mut i: usize = 0;
        assert(indices(order@) =~= self@.stable_order(0));
        while i < n
            invariant
                self.wf(),
                i <= n,
                n == self.encoding_records@.len(),
                indices(order@) == self@.stable_order(i as int),
            decreases n - i,
        {
            proof {
                lemma_stable_order(self@, i as int);
            }
            let ghost sorted: Seq<int> = indices(order@);
            let mut at: usize = order.len();
            assert(sorted.take(at as int) =~= sorted);
            while at > 0 && self.record_sorts_before(i, order[at - 1])
                invariant
                    self.wf(),
                    i < n,
                    n == self.encoding_records@.len(),
                    at <= order@.len(),
                    order@.len() == i,
                    sorted == indices(order@),
                    forall|p: int| 0 <= p < i ==> 0 <= (#[trigger] sorted[p]) < i,
                    self@.insertion_point(sorted, i as int) == self@.insertion_point(
                        sorted.take(at as int),
                        i as int,
                    ),
                decreases at,
            {
                proof {
                    let head: Seq<int> = sorted.take(at as int);
                    assert(head.last() == order@[at - 1]);
                    assert(head.drop_last() =~= sorted.take(at - 1));
                }
                at -= 1;
            }
            proof {
                let head: Seq<int> = sorted.take(at as int);
                if at > 0 {
                    assert(head.last() == order@[at - 1]);
                }
                assert(self@.insertion_point(head, i as int) == at);
            }
            order.insert(at, i);
            assert(indices(order@) =~= sorted.insert(at as int, i as int));
            i += 1;
        }
        order
    }

    /// Writes the table: the version, the number of subtables, the
    /// directory sorted by platform, encoding and language, and the
    /// payloads in the order of the subtables, each at the offset that the
    /// directory gives for it. Nothing is written where an offset or the
    /// number of subtables does not fit its field.
    pub fn write(&self, w: &mut Writer) -> (r: Result<(), Error>)
        requires
            self.wf(),
        ensures
            match r {
                Ok(()) => self@.fits() && final(w)@ == old(w)@ + self@.serialized(),
                Err(e) => e == Error::OutOfBounds && !self@.fits() && final(w)@ == old(w)@,
            },
    {
        let n: usize = self.encoding_records.len();
        let k: usize = self.subtables.len();
        proof {
            lemma_payloads_len(self@, 0, k as int);
        }
        if k > 0xFFFF || n > (0xFFFF_FFFF - 4) / 8 {
            return Err(Error::OutOfBounds);
        }
        let mut offsets: Vec<u32> = Vec::new();
        let mut offset: u64 = 4 + 8 * (n as u64);
        let mut s: usize = 0;
        while s < k
            invariant
                s <= k,
                k == self.subtables@.len(),
                n == self.encoding_records@.len(),
                offsets@.len() == s,
                offset == self@.subtable_offset(s as int),
                offset <= u32::MAX,
                forall|m: int|
                    0 <= m < s ==> (#[trigger] offsets@[m]) == self@.subtable_offset(m),
            decreases k - s,
        {
            let size: usize = self.subtables[s].bytes().len();
            proof {
                lemma_payloads_len(self@, s + 1, k as int);
            }
            if size as u64 > 0xFFFF_FFFF - offset {
                return Err(Error::OutOfBounds);
            }
            offsets.push(offset as u32);
            offset = offset + size as u64;
            s += 1;
        }
        let order: Vec<usize> = self.directory_order();
        proof {
            lemma_stable_order(self@, n as int);
            assert forall|q: int| 0 <= q < n implies (#[trigger] order@[q]) < n by {
                assert(indices(order@)[q] == order@[q]);
            }
        }
        let ghost before: Seq<u8> = w@;
        w.write_u16(self.version);
        w.write_u16(k as u16);
        let ghost head: Seq<u8> = w@;
        let mut p: usize = 0;
        while p < n
            invariant
                self.wf(),
                p <= n,
                n == self.encoding_records@.len(),
                k == self.subtables@.len(),
                order@.len() == n,
                forall|q: int| 0 <= q < n ==> (#[trigger] order@[q]) < n,
                offsets@.len() == k,
                forall|m: int|
                    0 <= m < k ==> (#[trigger] offsets@[m]) == self@.subtable_offset(m),
                w@ == head + self@.directory_bytes(indices(order@).take(p as int)),
            decreases n - p,
        {
            let record: EncodingRecord = self.encoding_records[order[p]];
            w.write_u16(record.platform_id);
            w.write_u16(record.encoding_id);
            w.write_u32(offsets[record.subtable_idx]);
            proof {
                let next: Seq<int> = indices(order@).take(p + 1);
                assert(next.drop_last() =~= indices(order@).take(p as int));
                assert(next.last() == order@[p as int]);
                assert(self@.records[order@[p as int] as int].subtable_idx < k);
                assert(w@ =~= head + self@.directory_bytes(next));
            }
            p += 1;
        }
        assert(indices(order@).take(n as int) =~= indices(order@));
        let ghost directory: Seq<u8> = w@;
        proof {
            lemma_directory_len(self@, indices(order@));
        }
        let mut s: usize = 0;
        while s < k
            invariant
                s <= k,
                k == self.subtables@.len(),
                n == self.encoding_records@.len(),
                offsets@.len() == k,
                forall|m: int|
                    0 <= m < k ==> (#[trigger] offsets@[m]) == self@.subtable_offset(m),
                directory.len() == before.len() + 4 + 8 * n,
                w@ == directory + self@.payloads(s as int),
            decreases k - s,
        {
            proof {
                lemma_payloads_len(self@, s as int, s as int);
                // Each payload starts where the directory says it does.
                assert(w@.len() - before.len() == offsets@[s as int]);
            }
            w.give(self.subtables[s].bytes());
            s += 1;
        }
        assert(w@ =~= before + self@.serialized());
        Ok(())
    }
}

/// What one directory entry says, together with what the header of its
/// subtable says.
struct Entry {
    platform_id: u16,
    encoding_id: u16,
    offset: usize,
    length: usize,
    format: u16,
    language: u32,
}

/// Reads directory entry `i` and the header of the subtable that it names,
/// and checks that the subtable lies inside `data`.
fn read_entry(data: &[u8], i: usize) -> (r: Result<Entry, Error>)
    requires
        i <= u16::MAX,
    ensures
        match r {
            Ok(entry) => {
                &&& entry_error(data@, i as int) is None
                &&& entry.platform_id == be_u16(data@, 4 + 8 * i)
                &&& entry.encoding_id == be_u16(data@, 4 + 8 * i + 2)
                &&& entry.offset == entry_offset(data@, i as int)
                &&& entry.length == subtable_length(data@, entry.offset as int)
                &&& entry.format == be_u16(data@, entry.offset as int)
                &&& entry.language == subtable_language(data@, entry.offset as int)
                &&& entry.offset + entry.length <= data@.len()
            },
            Err(e) => entry_error(data@, i as int) == Some(e),
        },
{
    let len: usize = data.len();
    let at: usize = 4 + 8 * i;
    if at > len || len - at < 8 {
        return Err(Error::OutOfBounds);
    }
    let platform_id: u16 = u16_at(data, at);
    let encoding_id: u16 = u16_at(data, at + 2);
    let offset: usize = u32_at(data, at + 4) as usize;
    let format: u16 = read_u16_at(data, offset)?;
    let long: bool = format == 8 || format == 10 || format == 12 || format == 13;
    let short: bool = format == 0 || format == 2 || format == 4 || format == 6;
    if !long && !short && format != 14 {
        return Err(Error::UnrecognizedFormat);
    }
    if long {
        if len - offset < 12 {
            return Err(Error::OutOfBounds);
        }
    } else {
        if len - offset < 6 {
            return Err(Error::OutOfBounds);
        }
    }
    let length: usize = if long {
        u32_at(data, offset + 4) as usize
    } else if short {
        u16_at(data, offset + 2) as usize
    } else {
        u32_at(data, offset + 2) as usize
    };
    let language: u32 = if long {
        u32_at(data, offset + 8)
    } else if short {
        u16_at(data, offset + 4) as u32
    } else {
        0
    };
    if len - offset < length {
        return Err(Error::OutOfBounds);
    }
    Ok(Entry { platform_id, encoding_id, offset, length, format, language })
}

/// Once an entry has failed, more entries change nothing: the first error
/// stays the first.
pub proof fn lemma_first_error_stays(data: Seq<u8>, i: int, n: int)
    requires
        0 <= i <= n,
        first_error(data, i) is Some,
    ensures
        first_error(data, n) == first_error(data, i),
    decreases n - i,
{
    if i < n {
        lemma_first_error_stays(data, i, n - 1);
    }
}

/// The place of the range `(offset, length)` among the ranges seen so far.
fn find_range(seen: &Vec<(usize, usize)>, offset: usize, length: usize) -> (r: Option<usize>)
    ensures
        match r {
            Some(k) => k < seen@.len() && seen@[k as int].0 == offset && seen@[k as int].1
                == length,
            None => forall|k: int|
                0 <= k < seen@.len() ==> !((#[trigger] seen@[k]).0 == offset && seen@[k].1
                    == length),
        },
{
    let mut k: usize = 0;
    while k < seen.len()
        invariant
            k <= seen@.len(),
            forall|m: int|
                0 <= m < k ==> !((#[trigger] seen@[m]).0 == offset && seen@[m].1 == length),
        decreases seen@.len() - k,
    {
        if seen[k].0 == offset && seen[k].1 == length {
            return Some(k);
        }
        k += 1;
    }
    None
}

} // verus!
