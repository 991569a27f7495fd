use std::borrow::Cow;

use cmap_remap::bytes::Writer;
use cmap_remap::error::Error;
use cmap_remap::table::{EncodingRecord, Subtable, Table};

/// A table whose directory names the given `(platform, encoding, offset)`,
/// followed by `body`, which starts at offset `4 + 8 * entries.len()`.
fn table_bytes(version: u16, entries: &[(u16, u16, u32)], body: &[u8]) -> Vec<u8> {
    let mut bytes = Vec::new();
    bytes.extend_from_slice(&version.to_be_bytes());
    bytes.extend_from_slice(&(entries.len() as u16).to_be_bytes());
    for (platform_id, encoding_id, offset) in entries {
        bytes.extend_from_slice(&platform_id.to_be_bytes());
        bytes.extend_from_slice(&encoding_id.to_be_bytes());
        bytes.extend_from_slice(&offset.to_be_bytes());
    }
    bytes.extend_from_slice(body);
    bytes
}

fn record(platform_id: u16, encoding_id: u16, subtable_idx: usize) -> EncodingRecord {
    EncodingRecord { platform_id, encoding_id, subtable_idx }
}

fn written(table: &Table) -> Result<Vec<u8>, Error> {
    let mut w = Writer::new();
    table.write(&mut w)?;
    Ok(w.finish())
}

fn tuples(table: &Table) -> Vec<(u16, u16, u16, u32, usize)> {
    let mut all: Vec<(u16, u16, u16, u32, usize)> = table
        .encoding_records
        .iter()
        .map(|r| {
            let st = &table.subtables[r.subtable_idx];
            (r.platform_id, r.encoding_id, st.format, st.language, st.data.len())
        })
        .collect();
    all.sort();
    all
}

#[test]
fn a_table_is_read_in_directory_order() {
    let body = [
        0, 6, 0, 10, 0, 5, 1, 2, 3, 4, // format 6, length 10, language 5
        0, 12, 0, 0, 0, 0, 0, 16, 0, 0, 0, 9, 0, 0, 0, 0, // format 12, language 9
        0, 14, 0, 0, 0, 6, // format 14, length 6
    ];
    let data = table_bytes(1, &[(3, 10, 38), (0, 5, 54), (1, 0, 28)], &body);
    let table = Table::read(&data).unwrap();
    assert_eq!(table.version, 1);
    assert_eq!(table.encoding_records, vec![record(3, 10, 0), record(0, 5, 1), record(1, 0, 2)]);
    assert_eq!(table.subtables.len(), 3);
    assert_eq!(table.subtables[0].format, 12);
    assert_eq!(table.subtables[0].language, 9);
    assert_eq!(table.subtables[0].data.as_ref(), &body[10..26]);
    assert_eq!(table.subtables[1].format, 14);
    assert_eq!(table.subtables[1].language, 0);
    assert_eq!(table.subtables[1].data.as_ref(), &body[26..32]);
    assert_eq!(table.subtables[2].format, 6);
    assert_eq!(table.subtables[2].language, 5);
    assert_eq!(table.subtables[2].bytes(), &body[..10]);
    assert!(matches!(table.subtables[2].data, Cow::Borrowed(_)));
}

#[test]
fn entries_with_the_same_range_share_a_subtable() {
    let body = [0, 0, 0, 6, 0, 0, 0, 0, 0, 6, 0, 0];
    let data = table_bytes(0, &[(0, 3, 28), (3, 1, 28), (1, 0, 34)], &body);
    let table = Table::read(&data).unwrap();
    assert_eq!(table.subtables.len(), 2);
    assert_eq!(table.encoding_records, vec![record(0, 3, 0), record(3, 1, 0), record(1, 0, 1)]);
}

#[test]
fn equal_bytes_at_another_offset_are_another_subtable() {
    let body = [0, 0, 0, 6, 0, 0, 0, 0, 0, 6, 0, 0];
    let data = table_bytes(0, &[(0, 3, 20), (3, 1, 26)], &body);
    let table = Table::read(&data).unwrap();
    assert_eq!(table.subtables.len(), 2);
    assert_eq!(table.encoding_records, vec![record(0, 3, 0), record(3, 1, 1)]);
    assert_eq!(table.subtables[0].data, table.subtables[1].data);
}

#[test]
fn each_format_has_its_header() {
    for format in [0u16, 2, 4, 6] {
        let mut body = vec![0, format as u8, 0, 8, 0x12, 0x34, 0xAA, 0xBB];
        body.extend_from_slice(&[0xCC; 4]);
        let data = table_bytes(0, &[(0, 0, 12)], &body);
        let table = Table::read(&data).unwrap();
        assert_eq!(table.subtables[0].format, format);
        assert_eq!(table.subtables[0].language, 0x1234);
        assert_eq!(table.subtables[0].data.as_ref(), &body[..8]);
    }
    for format in [8u16, 10, 12, 13] {
        let body = vec![0, format as u8, 0xEE, 0xEE, 0, 0, 0, 13, 0x12, 0x34, 0x56, 0x78, 1, 2];
        let data = table_bytes(0, &[(0, 0, 12)], &body);
        let table = Table::read(&data).unwrap();
        assert_eq!(table.subtables[0].format, format);
        assert_eq!(table.subtables[0].language, 0x12345678);
        assert_eq!(table.subtables[0].data.as_ref(), &body[..13]);
    }
    let body = vec![0, 14, 0, 0, 0, 7, 1, 2];
    let data = table_bytes(0, &[(0, 0, 12)], &body);
    let table = Table::read(&data).unwrap();
    assert_eq!(table.subtables[0].format, 14);
    assert_eq!(table.subtables[0].language, 0);
    assert_eq!(table.subtables[0].data.as_ref(), &body[..7]);
}

#[test]
fn an_unknown_format_stops_the_parse() {
    for format in [1u8, 3, 5, 7, 9, 11, 15, 255] {
        let data = table_bytes(0, &[(0, 3, 12)], &[0, format, 0, 6, 0, 0]);
        assert_eq!(Table::read(&data).err(), Some(Error::UnrecognizedFormat));
    }
    let data = table_bytes(0, &[(0, 3, 12)], &[1, 4, 0, 6, 0, 0]);
    assert_eq!(Table::read(&data).err(), Some(Error::UnrecognizedFormat));
}

#[test]
fn a_truncated_table_stops_the_parse() {
    assert_eq!(Table::read(&[]).err(), Some(Error::OutOfBounds));
    assert_eq!(Table::read(&[0, 0, 0]).err(), Some(Error::OutOfBounds));
    assert_eq!(Table::read(&[0, 0, 0, 1, 0, 0, 0, 3, 0, 0, 0]).err(), Some(Error::OutOfBounds));
    // The offset points behind the end.
    let data = table_bytes(0, &[(0, 3, 17)], &[0, 4, 0, 6, 0, 0]);
    assert_eq!(Table::read(&data).err(), Some(Error::OutOfBounds));
    let data = table_bytes(0, &[(0, 3, 0xFFFF_FFFF)], &[0, 4, 0, 6, 0, 0]);
    assert_eq!(Table::read(&data).err(), Some(Error::OutOfBounds));
    // The header is cut short.
    let data = table_bytes(0, &[(0, 3, 12)], &[0, 4, 0, 6, 0]);
    assert_eq!(Table::read(&data).err(), Some(Error::OutOfBounds));
    let data = table_bytes(0, &[(0, 3, 12)], &[0, 12, 0, 0, 0, 0, 0, 11, 0, 0, 0]);
    assert_eq!(Table::read(&data).err(), Some(Error::OutOfBounds));
    // The length reaches behind the end.
    let data = table_bytes(0, &[(0, 3, 12)], &[0, 4, 0, 7, 0, 0]);
    assert_eq!(Table::read(&data).err(), Some(Error::OutOfBounds));
}

#[test]
fn the_first_entry_that_fails_decides_the_error() {
    let body = [0, 1, 0, 6, 0, 0];
    let data = table_bytes(0, &[(0, 3, 100), (0, 4, 20)], &body);
    assert_eq!(Table::read(&data).err(), Some(Error::OutOfBounds));
    let data = table_bytes(0, &[(0, 3, 20), (0, 4, 100)], &body);
    assert_eq!(Table::read(&data).err(), Some(Error::UnrecognizedFormat));
}

#[test]
fn a_table_without_entries_is_empty() {
    let table = Table::read(&[0, 7, 0, 0, 1, 2, 3]).unwrap();
    assert_eq!(table.version, 7);
    assert!(table.encoding_records.is_empty());
    assert!(table.subtables.is_empty());
    assert_eq!(written(&table), Ok(vec![0, 7, 0, 0]));
}

#[test]
fn the_directory_is_written_in_sorted_order() {
    let table = Table {
        version: 0,
        encoding_records: vec![record(3, 10, 0), record(3, 1, 1), record(0, 4, 0), record(1, 0, 2)],
        subtables: vec![
            Subtable { format: 12, language: 0, data: Cow::Owned(vec![0xA0; 5]) },
            Subtable { format: 4, language: 0, data: Cow::Owned(vec![0xB0; 3]) },
            Subtable { format: 6, language: 0, data: Cow::Owned(vec![0xC0; 2]) },
        ],
    };
    let bytes = written(&table).unwrap();
    assert_eq!(
        bytes,
        vec![
            0, 0, 0, 3, //
            0, 0, 0, 4, 0, 0, 0, 36, //
            0, 1, 0, 0, 0, 0, 0, 44, //
            0, 3, 0, 1, 0, 0, 0, 41, //
            0, 3, 0, 10, 0, 0, 0, 36, //
            0xA0, 0xA0, 0xA0, 0xA0, 0xA0, 0xB0, 0xB0, 0xB0, 0xC0, 0xC0,
        ]
    );
}

#[test]
fn the_language_breaks_ties_and_equal_records_keep_their_order() {
    let table = Table {
        version: 2,
        encoding_records: vec![record(1, 0, 0), record(1, 0, 1), record(1, 0, 2), record(1, 0, 3)],
        subtables: vec![
            Subtable { format: 0, language: 9, data: Cow::Owned(vec![1]) },
            Subtable { format: 0, language: 3, data: Cow::Owned(vec![2, 2]) },
            Subtable { format: 0, language: 9, data: Cow::Owned(vec![3, 3, 3]) },
            Subtable { format: 0, language: 0, data: Cow::Owned(vec![]) },
        ],
    };
    let bytes = written(&table).unwrap();
    assert_eq!(
        bytes,
        vec![
            0, 2, 0, 4, //
            0, 1, 0, 0, 0, 0, 0, 42, //
            0, 1, 0, 0, 0, 0, 0, 37, //
            0, 1, 0, 0, 0, 0, 0, 36, //
            0, 1, 0, 0, 0, 0, 0, 39, //
            1, 2, 2, 3, 3, 3,
        ]
    );
}

#[test]
fn the_table_is_appended_to_what_the_writer_holds() {
    let table = Table {
        version: 0,
        encoding_records: vec![record(0, 3, 0)],
        subtables: vec![Subtable { format: 0, language: 0, data: Cow::Owned(vec![5, 6]) }],
    };
    let mut w = Writer::new();
    w.give(&[0xEE, 0xEE, 0xEE]);
    assert_eq!(table.write(&mut w), Ok(()));
    assert_eq!(w.finish(), vec![0xEE, 0xEE, 0xEE, 0, 0, 0, 1, 0, 0, 0, 3, 0, 0, 0, 12, 5, 6]);
}

#[test]
fn too_many_subtables_are_not_written() {
    let table = Table {
        version: 0,
        encoding_records: vec![],
        subtables: (0..0x10000)
            .map(|_| Subtable { format: 0, language: 0, data: Cow::Borrowed(&[]) })
            .collect(),
    };
    let mut w = Writer::new();
    w.give(&[1, 2]);
    assert_eq!(table.write(&mut w), Err(Error::OutOfBounds));
    assert_eq!(w.finish(), vec![1, 2]);
}

#[test]
fn a_written_table_reads_back_sorted() {
    let body = [
        0, 6, 0, 10, 0, 5, 1, 2, 3, 4, //
        0, 12, 0, 0, 0, 0, 0, 16, 0, 0, 0, 9, 0, 0, 0, 0, //
        0, 14, 0, 0, 0, 6, //
        0, 0, 0, 6, 0, 1,
    ];
    let data = table_bytes(0, &[(3, 10, 46), (3, 1, 36), (0, 5, 62), (0, 3, 68)], &body);
    let table = Table::read(&data).unwrap();
    let bytes = written(&table).unwrap();
    let again = Table::read(&bytes).unwrap();
    let keys: Vec<(u16, u16, u32)> = again
        .encoding_records
        .iter()
        .map(|r| (r.platform_id, r.encoding_id, again.subtables[r.subtable_idx].language))
        .collect();
    assert_eq!(keys, vec![(0, 3, 1), (0, 5, 0), (3, 1, 5), (3, 10, 9)]);
    let mut sorted = keys.clone();
    sorted.sort();
    assert_eq!(keys, sorted);
}

#[test]
fn a_table_survives_writing_and_reading() {
    let body = [
        0, 6, 0, 10, 0, 5, 1, 2, 3, 4, //
        0, 12, 0, 0, 0, 0, 0, 16, 0, 0, 0, 9, 0, 0, 0, 0, //
        0, 14, 0, 0, 0, 6, //
        0, 0, 0, 6, 0, 1,
    ];
    let data = table_bytes(3, &[(3, 10, 46), (3, 1, 36), (0, 5, 62), (0, 3, 68)], &body);
    let table = Table::read(&data).unwrap();
    let bytes = written(&table).unwrap();
    assert_eq!(bytes.len(), data.len());
    assert_ne!(bytes, data);
    let again = Table::read(&bytes).unwrap();
    assert_eq!(again.version, 3);
    assert_eq!(tuples(&again), tuples(&table));
    assert_eq!(
        tuples(&again),
        vec![(0, 3, 0, 1, 6), (0, 5, 14, 0, 6), (3, 1, 6, 5, 10), (3, 10, 12, 9, 16)]
    );
    // The subtables now stand in the order of the directory, and stay there.
    let settled = written(&again).unwrap();
    let once_more = Table::read(&settled).unwrap();
    assert_eq!(tuples(&once_more), tuples(&table));
    assert_eq!(written(&once_more), Ok(settled));
}

#[test]
fn the_head_counts_the_subtables() {
    let body = [0, 0, 0, 6, 0, 0];
    let data = table_bytes(0, &[(3, 1, 20), (0, 3, 20)], &body);
    let table = Table::read(&data).unwrap();
    assert_eq!(table.subtables.len(), 1);
    let bytes = written(&table).unwrap();
    assert_eq!(
        bytes,
        vec![
            0, 0, 0, 1, //
            0, 0, 0, 3, 0, 0, 0, 20, //
            0, 3, 0, 1, 0, 0, 0, 20, //
            0, 0, 0, 6, 0, 0,
        ]
    );
    // A reader takes the count for the number of entries.
    let again = Table::read(&bytes).unwrap();
    assert_eq!(again.encoding_records, vec![record(0, 3, 0)]);
}

#[test]
fn a_table_knows_whether_its_records_are_in_range() {
    let mut table = Table {
        version: 0,
        encoding_records: vec![record(0, 3, 0), record(3, 1, 1)],
        subtables: vec![
            Subtable { format: 0, language: 0, data: Cow::Owned(vec![1]) },
            Subtable { format: 0, language: 0, data: Cow::Owned(vec![2]) },
        ],
    };
    assert!(table.is_well_formed());
    table.encoding_records.push(record(3, 10, 2));
    assert!(!table.is_well_formed());
    table.encoding_records.clear();
    table.subtables.clear();
    assert!(table.is_well_formed());
}
