//! Rewriting a whole table: parse it, make sure that it has a UCS-4
//! segmented subtable and a Unicode full-repertoire record for it, map the
//! glyphs onto the private use area, and write the table back.

use vstd::prelude::*;
use vstd::slice::slice_to_vec;

use crate::bytes::Writer;
use crate::error::Error;
use crate::format4::{convert_subtable_4_to_12, converted};
use crate::pua::{map_glyph_to_pua_12, remapped_payload};
use crate::table::{parsed, EncodingRecord, Subtable, SubtableView, Table, TableView};

verus! {

/// Whether one of the subtables has the given format.
pub open spec fn has_format(subtables: Seq<SubtableView>, format: u16) -> bool {
    exists|k: int| 0 <= k < subtables.len() && (#[trigger] subtables[k]).format == format
}

/// Whether subtable `k` is the first one of the given format.
pub open spec fn is_first_with_format(subtables: Seq<SubtableView>, format: u16, k: int) -> bool {
    &&& 0 <= k < subtables.len()
    &&& subtables[k].format == format
    &&& forall|m: int| 0 <= m < k ==> (#[trigger] subtables[m]).format != format
}

/// The index of the first subtable of the given format.
pub open spec fn first_with_format(subtables: Seq<SubtableView>, format: u16) -> int {
    choose|k: int| is_first_with_format(subtables, format, k)
}

/// The table with a UCS-4 segmented subtable in it, and the index of that
/// subtable: the first one that the table has, or else the conversion of
/// its first UCS-2 segmented subtable, appended to the subtables.
pub open spec fn with_format12(t: TableView) -> Result<(TableView, int), Error> {
    if has_format(t.subtables, 12) {
        Ok((t, first_with_format(t.subtables, 12)))
    } else if has_format(t.subtables, 4) {
        match converted(t.subtables[first_with_format(t.subtables, 4)]) {
            Ok(made) => Ok(
                (
                    TableView {
                        version: t.version,
                        records: t.records,
                        subtables: t.subtables.push(made),
                    },
                    t.subtables.len() as int,
                ),
            ),
            Err(e) => Err(e),
        }
    } else {
        Err(Error::MissingRequiredSubtable)
    }
}

/// Whether record `r` is one for Unicode, full repertoire (platform 0,
/// encoding 4), that refers to subtable `idx`.
pub open spec fn is_unicode_record(r: EncodingRecord, idx: int) -> bool {
    r.platform_id == 0 && r.encoding_id == 4 && r.subtable_idx == idx
}

/// Whether the directory has a Unicode full-repertoire record that refers
/// to subtable `idx`.
pub open spec fn has_unicode_record(records: Seq<EncodingRecord>, idx: int) -> bool {
    exists|i: int| 0 <= i < records.len() && is_unicode_record(#[trigger] records[i], idx)
}

/// The table with a Unicode full-repertoire record for subtable `idx` in
/// it: the table as it is where it has one, else with one more record.
pub open spec fn with_unicode_record(t: TableView, idx: int) -> TableView {
    if has_unicode_record(t.records, idx) {
        t
    } else {
        TableView {
            version: t.version,
            records: t.records.push(
                EncodingRecord { platform_id: 0, encoding_id: 4, subtable_idx: idx as usize },
            ),
            subtables: t.subtables,
        }
    }
}

/// The table with the payload of subtable `idx` remapped.
pub open spec fn with_remapped(t: TableView, idx: int, num_glyphs: u16) -> Result<
    TableView,
    Error,
> {
    match remapped_payload(t.subtables[idx].data, num_glyphs) {
        Ok(data) => Ok(
            TableView {
                version: t.version,
                records: t.records,
                subtables: t.subtables.update(
                    idx,
                    SubtableView {
                        format: t.subtables[idx].format,
                        language: t.subtables[idx].language,
                        data,
                    },
                ),
            },
        ),
        Err(e) => Err(e),
    }
}

/// The table that the rewrite of `data` produces, before it is written.
pub open spec fn rewritten_table(data: Seq<u8>, num_glyphs: u16) -> Result<TableView, Error> {
    match parsed(data) {
        Err(e) => Err(e),
        Ok(t) => match with_format12(t) {
            Err(e) => Err(e),
            Ok((t, idx)) => with_remapped(with_unicode_record(t, idx), idx, num_glyphs),
        },
    }
}

/// The bytes that `map_glyphs` returns, or the error that it fails with.
/// With the remap disabled these are the bytes that came in, whatever they
/// hold.
pub open spec fn mapped(data: Seq<u8>, enabled: bool, num_glyphs: u16) -> Result<Seq<u8>, Error> {
    if !enabled {
        Ok(data)
    } else {
        match rewritten_table(data, num_glyphs) {
            Err(e) => Err(e),
            Ok(t) => if t.fits() {
                Ok(t.serialized())
            } else {
                Err(Error::OutOfBounds)
            },
        }
    }
}

/// The index of the first subtable of the given format, if there is one.
fn find_format(subtables: &Vec<Subtable<'_>>, format: u16) -> (r: Option<usize>)
    ensures
        match r {
            Some(k) => k < subtables@.len() && subtables@[k as int].format == format && forall|
                m: int,
            | 0 <= m < k ==> (#[trigger] subtables@[m]).format != format,
            None => forall|m: int|
                0 <= m < subtables@.len() ==> (#[trigger] subtables@[m]).format != format,
        },
{
    let mut k: usize = 0;
    while k < subtables.len()
        invariant
            k <= subtables@.len(),
            forall|m: int| 0 <= m < k ==> (#[trigger] subtables@[m]).format != format,
        decreases subtables@.len() - k,
    {
        if subtables[k].format == format {
            return Some(k);
        }
        k += 1;
    }
    None
}

/// Whether the directory has a record for platform 0, encoding 4, that
/// refers to subtable `idx`.
fn has_unicode(records: &Vec<EncodingRecord>, idx: usize) -> (r: bool)
    ensures
        r == has_unicode_record(records@, idx as int),
{
    let mut i: usize = 0;
    while i < records.len()
        invariant
            i <= records@.len(),
            forall|m: int| 0 <= m < i ==> !is_unicode_record(#[trigger] records@[m], idx as int),
        decreases records@.len() - i,
    {
        let record: EncodingRecord = records[i];
        if record.platform_id == 0 && record.encoding_id == 4 && record.subtable_idx == idx {
            assert(is_unicode_record(records@[i as int], idx as int));
            return true;
        }
        i += 1;
    }
    false
}

/// Makes sure that the table has a UCS-4 segmented subtable, and returns
/// its index. Where the table has none, its first UCS-2 segmented subtable
/// is converted and the result appended.
fn ensure_format12(table: &mut Table<'_>) -> (r: Result<usize, Error>)
    requires
        old(table).wf(),
    ensures
        match r {
            Ok(idx) => with_format12(old(table)@) == Ok::<(TableView, int), Error>(
                (final(table)@, idx as int),
            ) && final(table).wf() && idx < final(table).subtables@.len()
                && final(table).subtables@[idx as int].format == 12,
            Err(e) => with_format12(old(table)@) == Err::<(TableView, int), Error>(e),
        },
{
    let ghost before: TableView = table@;
    if let Some(idx) = find_format(&table.subtables, 12) {
        assert(before.subtables[idx as int].format == 12);
        assert(is_first_with_format(before.subtables, 12, idx as int));
        return Ok(idx);
    }
    assert(!has_format(before.subtables, 12));
    let source: usize = match find_format(&table.subtables, 4) {
        Some(source) => source,
        None => {
            assert(!has_format(before.subtables, 4));
            return Err(Error::MissingRequiredSubtable);
        },
    };
    assert(before.subtables[source as int].format == 4);
    assert(is_first_with_format(before.subtables, 4, source as int));
    let made: Subtable<'_> = convert_subtable_4_to_12(&table.subtables[source])?;
    table.subtables.push(made);
    assert(table@.subtables =~= before.subtables.push(made@));
    Ok(table.subtables.len() - 1)
}

/// Rewrites the table that `data` holds so that the glyphs
/// `0 .. num_glyphs` can be reached through the private use area. With
/// `enabled` unset the bytes are handed back as they are, unread.
pub fn map_glyphs(data: &[u8], enabled: bool, num_glyphs: u16) -> (r: Result<Vec<u8>, Error>)
    ensures
        !enabled ==> r is Ok && r->Ok_0@ == data@,
        match r {
            Ok(bytes) => mapped(data@, enabled, num_glyphs) == Ok::<Seq<u8>, Error>(bytes@),
            Err(e) => mapped(data@, enabled, num_glyphs) == Err::<Seq<u8>, Error>(e),
        },
{
    if !enabled {
        return Ok(slice_to_vec(data));
    }
    let mut table: Table<'_> = Table::read(data)?;
    let idx: usize = ensure_format12(&mut table)?;
    let ghost converted: TableView = table@;
    if !has_unicode(&table.encoding_records, idx) {
        table.encoding_records.push(
            EncodingRecord { platform_id: 0, encoding_id: 4, subtable_idx: idx },
        );
    }
    let ghost recorded: TableView = table@;
    assert(recorded.records =~= with_unicode_record(converted, idx as int).records);
    assert(recorded.subtables =~= converted.subtables);
    map_glyph_to_pua_12(&mut table.subtables[idx], num_glyphs)?;
    proof {
        let want: TableView = with_remapped(recorded, idx as int, num_glyphs)->Ok_0;
        assert(table@.subtables =~= want.subtables);
    }
    let mut writer = Writer::new();
    table.write(&mut writer)?;
    Ok(writer.finish())
}

} // verus!
