use std::borrow::Cow;

use cmap_remap::error::Error;
use cmap_remap::format12::{read_groups, Group};
use cmap_remap::format4::{convert_subtable_4_to_12, search_fields, SearchFields};
use cmap_remap::table::Subtable;

fn run(start_code: u32, end_code: u32, start_glyph_id: u32) -> Group {
    Group { start_code, end_code, start_glyph_id }
}

/// A UCS-2 segmented payload with the segments `(start, end, delta, range offset)`.
fn segmented(language: u16, segments: &[(u16, u16, u16, u16)], glyphs: &[u16]) -> Vec<u8> {
    let x2 = 2 * segments.len() as u16;
    let length = 16 + 4 * x2 + 2 * glyphs.len() as u16;
    let mut words: Vec<u16> = vec![4, length, language, x2, 0, 0, 0];
    words.extend(segments.iter().map(|s| s.1));
    words.push(0);
    words.extend(segments.iter().map(|s| s.0));
    words.extend(segments.iter().map(|s| s.2));
    words.extend(segments.iter().map(|s| s.3));
    words.extend_from_slice(glyphs);
    words.iter().flat_map(|w| w.to_be_bytes()).collect()
}

fn convert(language: u32, data: Vec<u8>) -> Result<(u16, u32, Vec<u8>), Error> {
    let st = Subtable { format: 4, language, data: Cow::Owned(data) };
    convert_subtable_4_to_12(&st).map(|out| (out.format, out.language, out.data.into_owned()))
}

#[test]
fn a_segment_with_a_delta_becomes_one_group() {
    let data = segmented(0, &[(0x41, 0x5A, 0xFFC9, 0), (0xFFFF, 0xFFFF, 1, 0)], &[]);
    let (format, language, bytes) = convert(0, data).unwrap();
    assert_eq!(format, 12);
    assert_eq!(language, 0);
    assert_eq!(
        bytes,
        vec![
            0, 12, 0, 0, 0, 0, 0, 40, 0, 0, 0, 0, 0, 0, 0, 2, //
            0, 0, 0, 0x41, 0, 0, 0, 0x5A, 0, 0, 0, 10, //
            0, 0, 0xFF, 0xFF, 0, 0, 0xFF, 0xFF, 0, 0, 0, 0,
        ]
    );
}

#[test]
fn the_language_of_the_subtable_is_kept() {
    let data = segmented(3, &[(0xFFFF, 0xFFFF, 1, 0)], &[]);
    let (format, language, bytes) = convert(0x00010003, data).unwrap();
    assert_eq!(format, 12);
    assert_eq!(language, 0x00010003);
    assert_eq!(&bytes[8..12], &[0, 1, 0, 3]);
    assert_eq!(&bytes[4..8], &[0, 0, 0, 28]);
}

#[test]
fn glyphs_that_follow_one_another_become_one_group() {
    let data = segmented(
        0,
        &[(0x10, 0x14, 0, 4), (0xFFFF, 0xFFFF, 1, 0)],
        &[5, 6, 7, 20, 21],
    );
    let (_, _, bytes) = convert(0, data).unwrap();
    assert_eq!(
        read_groups(&bytes),
        Ok(vec![run(0x10, 0x12, 5), run(0x13, 0x14, 20), run(0xFFFF, 0xFFFF, 0)])
    );
}

#[test]
fn a_whole_segment_of_consecutive_glyphs_is_one_group() {
    let glyphs: Vec<u16> = (0..64).map(|k| 100 + k).collect();
    let data = segmented(0, &[(0x100, 0x13F, 0, 2)], &glyphs);
    let (_, _, bytes) = convert(0, data).unwrap();
    assert_eq!(read_groups(&bytes), Ok(vec![run(0x100, 0x13F, 100)]));
}

#[test]
fn glyphs_that_do_not_follow_one_another_stay_apart() {
    let data = segmented(0, &[(0x30, 0x33, 0, 2)], &[9, 9, 0, 1]);
    let (_, _, bytes) = convert(0, data).unwrap();
    assert_eq!(
        read_groups(&bytes),
        Ok(vec![run(0x30, 0x30, 9), run(0x31, 0x31, 9), run(0x32, 0x33, 0)])
    );
}

#[test]
fn the_delta_of_an_indexed_segment_is_not_added() {
    let data = segmented(0, &[(0x30, 0x31, 500, 2)], &[9, 10]);
    let (_, _, bytes) = convert(0, data).unwrap();
    assert_eq!(read_groups(&bytes), Ok(vec![run(0x30, 0x31, 9)]));
}

#[test]
fn a_delta_wraps_around_sixteen_bits() {
    let data = segmented(0, &[(0xFFF0, 0xFFF4, 0x20, 0)], &[]);
    let (_, _, bytes) = convert(0, data).unwrap();
    assert_eq!(read_groups(&bytes), Ok(vec![run(0xFFF0, 0xFFF4, 0x10)]));
}

#[test]
fn an_empty_indexed_segment_makes_no_group() {
    let data = segmented(0, &[(0x50, 0x4F, 0, 2), (0x60, 0x5F, 7, 0)], &[]);
    let (_, _, bytes) = convert(0, data).unwrap();
    assert_eq!(read_groups(&bytes), Ok(vec![run(0x60, 0x5F, 0x67)]));
}

#[test]
fn a_subtable_without_segments_becomes_one_without_groups() {
    let data = segmented(0, &[], &[]);
    let (_, _, bytes) = convert(0, data).unwrap();
    assert_eq!(bytes, vec![0, 12, 0, 0, 0, 0, 0, 16, 0, 0, 0, 0, 0, 0, 0, 0]);
}

#[test]
fn a_glyph_outside_the_payload_stops_the_conversion() {
    let data = segmented(0, &[(0x10, 0x14, 0, 4), (0xFFFF, 0xFFFF, 1, 0)], &[5, 6, 7, 20]);
    assert_eq!(convert(0, data), Err(Error::OutOfBounds));
    let far = segmented(0, &[(0x10, 0x10, 0, 0xFFFE)], &[5]);
    assert_eq!(convert(0, far), Err(Error::OutOfBounds));
}

#[test]
fn arrays_outside_the_payload_stop_the_conversion() {
    let mut data = segmented(0, &[(0x41, 0x5A, 0xFFC9, 0), (0xFFFF, 0xFFFF, 1, 0)], &[]);
    data.pop();
    assert_eq!(convert(0, data), Err(Error::OutOfBounds));
    assert_eq!(convert(0, vec![0, 4, 0, 7, 0, 0, 0]), Err(Error::OutOfBounds));
    assert_eq!(convert(0, vec![]), Err(Error::OutOfBounds));
}

#[test]
fn an_odd_segment_count_leaves_the_last_byte_of_each_array_alone() {
    // Three bytes for each array: one segment, and one byte that no segment owns.
    let data = vec![
        0, 4, 0, 28, 0, 0, 0, 3, 0, 0, 0, 0, 0, 0, //
        0, 0x22, 0xAA, 0, 0, 0, 0x20, 0xBB, 0, 1, 0xCC, 0, 0, 0xDD,
    ];
    let (_, _, bytes) = convert(0, data).unwrap();
    assert_eq!(read_groups(&bytes), Ok(vec![run(0x20, 0x22, 0x21)]));
}

/// The glyph that the segments give to `c`, read as a font reader does.
fn glyph_in_segments(segments: &[(u16, u16, u16, u16)], glyphs: &[u16], c: u32) -> Option<u32> {
    let at = segments.iter().position(|s| s.0 as u32 <= c && c <= s.1 as u32)?;
    let (start, _, delta, offset) = segments[at];
    if offset == 0 {
        return Some((c as u16).wrapping_add(delta) as u32);
    }
    // The offset counts bytes from its own field to the glyph of `start`.
    let behind_the_fields = offset as usize / 2 - (segments.len() - at);
    Some(glyphs[behind_the_fields + (c - start as u32) as usize] as u32)
}

#[test]
fn every_codepoint_keeps_its_glyph() {
    let segments = [
        (0x20, 0x7E, 0xFFE4, 0),
        (0xA0, 0xA7, 0, 6),
        (0x400, 0x44F, 0x100, 0),
        (0xFFFF, 0xFFFF, 1, 0),
    ];
    let glyphs = [7, 8, 9, 3, 0, 1, 2, 40];
    let data = segmented(0, &segments, &glyphs);
    let (_, _, bytes) = convert(0, data).unwrap();
    let groups = read_groups(&bytes).unwrap();
    assert_eq!(
        groups,
        vec![
            run(0x20, 0x7E, 4),
            run(0xA0, 0xA2, 7),
            run(0xA3, 0xA3, 3),
            run(0xA4, 0xA6, 0),
            run(0xA7, 0xA7, 40),
            run(0x400, 0x44F, 0x500),
            run(0xFFFF, 0xFFFF, 0),
        ]
    );
    for c in 0u32..0x10000 {
        let in_groups = groups
            .iter()
            .find(|g| g.start_code <= c && c <= g.end_code)
            .map(|g| g.start_glyph_id + (c - g.start_code));
        assert_eq!(in_groups, glyph_in_segments(&segments, &glyphs, c));
    }
}

#[test]
fn the_search_fields_come_from_the_segment_count() {
    assert_eq!(search_fields(0), None);
    assert_eq!(
        search_fields(1),
        Some(SearchFields { search_range: 1, entry_selector: 0, range_shift: 0 })
    );
    assert_eq!(
        search_fields(4),
        Some(SearchFields { search_range: 4, entry_selector: 2, range_shift: 0 })
    );
    assert_eq!(
        search_fields(78),
        Some(SearchFields { search_range: 64, entry_selector: 6, range_shift: 14 })
    );
    assert_eq!(
        search_fields(0xFFFF),
        Some(SearchFields { search_range: 0x8000, entry_selector: 15, range_shift: 0x7FFF })
    );
}
