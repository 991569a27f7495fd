use std::borrow::Cow;

use cmap_remap::error::Error;
use cmap_remap::format12::{encode_format12, read_groups, Group};
use cmap_remap::pua::{map_glyph_to_pua_12, remap_groups, PUA_START};
use cmap_remap::table::Subtable;

fn group(start_code: u32, end_code: u32, start_glyph_id: u32) -> Group {
    Group { start_code, end_code, start_glyph_id }
}

fn glyph_of(groups: &[Group], c: u32) -> Option<u32> {
    groups
        .iter()
        .find(|g| g.start_code <= c && c <= g.end_code)
        .map(|g| g.start_glyph_id + (c - g.start_code))
}

fn payload_of(language: u32, groups: &[Group]) -> Vec<u8> {
    let mut bytes = vec![0, 12, 0, 0];
    bytes.extend_from_slice(&(16 + 12 * groups.len() as u32).to_be_bytes());
    bytes.extend_from_slice(&language.to_be_bytes());
    bytes.extend_from_slice(&(groups.len() as u32).to_be_bytes());
    for g in groups {
        bytes.extend_from_slice(&g.start_code.to_be_bytes());
        bytes.extend_from_slice(&g.end_code.to_be_bytes());
        bytes.extend_from_slice(&g.start_glyph_id.to_be_bytes());
    }
    bytes
}

#[test]
fn groups_are_read_from_a_payload() {
    let bytes = vec![
        0, 12, 0, 0, 0, 0, 0, 40, 0, 0, 0, 0, 0, 0, 0, 2, //
        0, 0, 0, 0x41, 0, 0, 0, 0x5A, 0, 0, 0, 10, //
        0, 0x0F, 0, 0, 0, 0x0F, 0, 4, 0, 0, 0, 0,
    ];
    assert_eq!(read_groups(&bytes), Ok(vec![group(0x41, 0x5A, 10), group(0xF0000, 0xF0004, 0)]));
}

#[test]
fn a_payload_without_groups_has_none() {
    let bytes = vec![0, 12, 0, 0, 0, 0, 0, 16, 0, 0, 0, 0, 0, 0, 0, 0];
    assert_eq!(read_groups(&bytes), Ok(vec![]));
}

#[test]
fn a_short_payload_has_no_groups() {
    assert_eq!(read_groups(&[0, 12, 0, 0, 0, 0, 0, 16, 0, 0, 0, 0, 0, 0, 0]), Err(Error::OutOfBounds));
    let mut bytes = payload_of(0, &[group(1, 2, 3), group(5, 6, 7)]);
    bytes.pop();
    assert_eq!(read_groups(&bytes), Err(Error::OutOfBounds));
    let announced = vec![0, 12, 0, 0, 0, 0, 0, 16, 0, 0, 0, 0, 0xFF, 0xFF, 0xFF, 0xFF];
    assert_eq!(read_groups(&announced), Err(Error::OutOfBounds));
}

#[test]
fn a_payload_is_built_around_its_header() {
    let header = [0, 12, 0xAA, 0xBB, 1, 2, 3, 4, 0, 0, 0, 9];
    let bytes = encode_format12(&header, &vec![group(0x10, 0x20, 5)]).unwrap();
    assert_eq!(
        bytes,
        vec![
            0, 12, 0xAA, 0xBB, 0, 0, 0, 28, 0, 0, 0, 9, 0, 0, 0, 1, //
            0, 0, 0, 0x10, 0, 0, 0, 0x20, 0, 0, 0, 5,
        ]
    );
}

#[test]
fn groups_written_are_read_back() {
    let groups = vec![group(0, 0, 0), group(0x41, 0x5A, 10), group(0x10FFFF, 0xFFFF_FFFF, 0x8000_0000)];
    let header = [0, 12, 0, 0, 0, 0, 0, 0, 0, 0, 0, 0];
    let bytes = encode_format12(&header, &groups).unwrap();
    assert_eq!(bytes.len(), 16 + 12 * 3);
    assert_eq!(read_groups(&bytes), Ok(groups));
}

#[test]
fn groups_outside_the_window_stay_as_they_are() {
    let out = remap_groups(&vec![group(0x41, 0x5A, 10)], 5);
    assert_eq!(out, vec![group(0x41, 0x5A, 10), group(0xF0000, 0xF0004, 0)]);
}

#[test]
fn a_group_across_the_window_is_trimmed_on_both_sides() {
    let out = remap_groups(&vec![group(0xEFFF0, 0xF0010, 7)], 5);
    assert_eq!(
        out,
        vec![
            group(0xEFFF0, 0xEFFFF, 7),
            group(0xF0000, 0xF0004, 0),
            group(0xF0005, 0xF0010, 7 + (0xF0005 - 0xEFFF0)),
        ]
    );
    assert_eq!(out[2].start_glyph_id, 28);
}

#[test]
fn the_window_goes_into_an_empty_list() {
    assert_eq!(remap_groups(&vec![], 1), vec![group(0xF0000, 0xF0000, 0)]);
    assert_eq!(remap_groups(&vec![], 0xFFFF), vec![group(0xF0000, 0xFFFFE, 0)]);
    assert_eq!(PUA_START, 0xF0000);
}

#[test]
fn the_window_goes_between_its_neighbours() {
    let groups = vec![group(0x20, 0x7E, 1), group(0xF1000, 0xF1001, 200), group(0x100000, 0x100005, 300)];
    let out = remap_groups(&groups, 0x100);
    assert_eq!(
        out,
        vec![
            group(0x20, 0x7E, 1),
            group(0xF0000, 0xF00FF, 0),
            group(0xF1000, 0xF1001, 200),
            group(0x100000, 0x100005, 300),
        ]
    );
}

#[test]
fn groups_inside_the_window_are_dropped() {
    let groups = vec![
        group(0x20, 0x7E, 1),
        group(0xEFFFE, 0xF0001, 100),
        group(0xF0003, 0xF0004, 110),
        group(0xF0006, 0xF0006, 120),
        group(0xF0008, 0xF000B, 130),
        group(0xF0100, 0xF0101, 140),
    ];
    let out = remap_groups(&groups, 10);
    assert_eq!(
        out,
        vec![
            group(0x20, 0x7E, 1),
            group(0xEFFFE, 0xEFFFF, 100),
            group(0xF0000, 0xF0009, 0),
            group(0xF000A, 0xF000B, 132),
            group(0xF0100, 0xF0101, 140),
        ]
    );
}

#[test]
fn a_group_that_ends_with_the_window_leaves_nothing_behind() {
    let out = remap_groups(&vec![group(0xF0000, 0xF0004, 50)], 5);
    assert_eq!(out, vec![group(0xF0000, 0xF0004, 0)]);
    let out = remap_groups(&vec![group(0xF0002, 0xF0005, 50)], 5);
    assert_eq!(out, vec![group(0xF0000, 0xF0004, 0), group(0xF0005, 0xF0005, 53)]);
    let out = remap_groups(&vec![group(0xEFFFF, 0xF0000, 50)], 5);
    assert_eq!(out, vec![group(0xEFFFF, 0xEFFFF, 50), group(0xF0000, 0xF0004, 0)]);
}

#[test]
fn every_glyph_is_reached_through_the_window() {
    let groups = vec![group(0x20, 0x7E, 1), group(0xEFFFE, 0xF0001, 100), group(0xF0008, 0xF0020, 130)];
    let n: u16 = 12;
    let out = remap_groups(&groups, n);
    for g in 0..n as u32 {
        assert_eq!(glyph_of(&out, 0xF0000 + g), Some(g));
    }
}

#[test]
fn codepoints_outside_the_window_keep_their_glyphs() {
    let groups = vec![group(0x20, 0x7E, 1), group(0xEFFFE, 0xF0001, 100), group(0xF0008, 0xF0020, 130)];
    let out = remap_groups(&groups, 12);
    for c in (0u32..0x100).chain(0xEFFF0..0xF0000).chain(0xF000C..0xF0030) {
        assert_eq!(glyph_of(&out, c), glyph_of(&groups, c));
    }
    for pair in out.windows(2) {
        assert!(pair[0].start_code <= pair[0].end_code);
        assert!(pair[0].end_code < pair[1].start_code);
    }
}

#[test]
fn a_remainder_glyph_wraps_around() {
    let out = remap_groups(&vec![group(0xF0000, 0xF0002, 0xFFFF_FFFF)], 2);
    assert_eq!(out, vec![group(0xF0000, 0xF0001, 0), group(0xF0002, 0xF0002, 1)]);
}

#[test]
fn a_subtable_is_remapped_in_place() {
    let mut st = Subtable {
        format: 12,
        language: 7,
        data: Cow::Owned(payload_of(7, &[group(0xEFFF0, 0xF0010, 7)])),
    };
    assert_eq!(map_glyph_to_pua_12(&mut st, 5), Ok(()));
    assert_eq!(st.format, 12);
    assert_eq!(st.language, 7);
    let want = payload_of(
        7,
        &[group(0xEFFF0, 0xEFFFF, 7), group(0xF0000, 0xF0004, 0), group(0xF0005, 0xF0010, 28)],
    );
    assert_eq!(st.data.as_ref(), want.as_slice());
    assert_eq!(&st.data[4..8], &[0, 0, 0, 52]);
}

#[test]
fn a_remap_keeps_the_first_and_third_header_words() {
    let mut bytes = payload_of(0x01020304, &[group(0x41, 0x5A, 10)]);
    bytes[2] = 0xEE;
    bytes[3] = 0xDD;
    bytes[4] = 0x77;
    let borrowed: &[u8] = &bytes;
    let mut st = Subtable { format: 12, language: 0, data: Cow::Borrowed(borrowed) };
    assert_eq!(map_glyph_to_pua_12(&mut st, 1), Ok(()));
    assert_eq!(&st.data[..16], &[0, 12, 0xEE, 0xDD, 0, 0, 0, 40, 1, 2, 3, 4, 0, 0, 0, 2]);
    assert_eq!(
        read_groups(st.bytes()),
        Ok(vec![group(0x41, 0x5A, 10), group(0xF0000, 0xF0000, 0)])
    );
}

#[test]
fn a_failed_remap_leaves_the_subtable_alone() {
    let mut bytes = payload_of(0, &[group(0x41, 0x5A, 10)]);
    bytes.truncate(27);
    let mut st = Subtable { format: 12, language: 0, data: Cow::Owned(bytes.clone()) };
    assert_eq!(map_glyph_to_pua_12(&mut st, 5), Err(Error::OutOfBounds));
    assert_eq!(st.data.as_ref(), bytes.as_slice());
    let mut short = Subtable { format: 12, language: 0, data: Cow::Owned(vec![0, 12, 0, 0]) };
    assert_eq!(map_glyph_to_pua_12(&mut short, 5), Err(Error::OutOfBounds));
}
