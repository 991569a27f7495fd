use cmap_remap::bytes::{read_u16_at, read_u32_at, u16_at, u32_at, Writer};
use cmap_remap::error::Error;

#[test]
fn read_u16_is_big_endian() {
    let data = [0x12u8, 0x34, 0x56];
    assert_eq!(read_u16_at(&data, 0), Ok(0x1234));
    assert_eq!(read_u16_at(&data, 1), Ok(0x3456));
    assert_eq!(u16_at(&data, 1), 0x3456);
}

#[test]
fn read_u16_past_the_end_fails() {
    let data = [0x12u8, 0x34, 0x56];
    assert_eq!(read_u16_at(&data, 2), Err(Error::OutOfBounds));
    assert_eq!(read_u16_at(&data, 3), Err(Error::OutOfBounds));
    assert_eq!(read_u16_at(&data, 4), Err(Error::OutOfBounds));
    assert_eq!(read_u16_at(&data, usize::MAX), Err(Error::OutOfBounds));
    assert_eq!(read_u16_at(&[], 0), Err(Error::OutOfBounds));
}

#[test]
fn read_u32_is_big_endian() {
    let data = [0x01u8, 0x02, 0x03, 0x04, 0xFF];
    assert_eq!(read_u32_at(&data, 0), Ok(0x01020304));
    assert_eq!(read_u32_at(&data, 1), Ok(0x020304FF));
    assert_eq!(u32_at(&data, 0), 0x01020304);
}

#[test]
fn read_u32_past_the_end_fails() {
    let data = [0x01u8, 0x02, 0x03, 0x04, 0xFF];
    assert_eq!(read_u32_at(&data, 2), Err(Error::OutOfBounds));
    assert_eq!(read_u32_at(&data, 5), Err(Error::OutOfBounds));
    assert_eq!(read_u32_at(&data, usize::MAX - 1), Err(Error::OutOfBounds));
}

#[test]
fn writer_appends_scalars_and_bytes() {
    let mut w = Writer::new();
    assert_eq!(w.len(), 0);
    w.write_u16(0xABCD);
    w.write_u32(0x01020304);
    w.give(&[9, 8, 7]);
    assert_eq!(w.len(), 9);
    assert_eq!(w.finish(), vec![0xAB, 0xCD, 1, 2, 3, 4, 9, 8, 7]);
}

#[test]
fn writer_pads_to_a_multiple_of_four() {
    let mut w = Writer::new();
    w.align4();
    assert_eq!(w.len(), 0);
    w.give(&[1]);
    w.align4();
    assert_eq!(w.len(), 4);
    w.give(&[2, 3]);
    w.align4();
    w.align4();
    assert_eq!(w.finish(), vec![1, 0, 0, 0, 2, 3, 0, 0]);
}

#[test]
fn writer_patches_what_was_written() {
    let mut w = Writer::new();
    w.write_u32(0);
    w.write_u32(0xFFFF_FFFF);
    w.write_u16(7);
    w.patch_u32(0, 0xDEADBEEF);
    w.patch_u32(6, 0x00010203);
    assert_eq!(w.finish(), vec![0xDE, 0xAD, 0xBE, 0xEF, 0xFF, 0xFF, 0, 1, 2, 3]);
}

#[test]
fn scalars_written_are_read_back() {
    let mut w = Writer::new();
    w.write_u16(0xFFFF);
    w.write_u32(0x8000_0001);
    w.write_u16(0);
    let bytes = w.finish();
    assert_eq!(read_u16_at(&bytes, 0), Ok(0xFFFF));
    assert_eq!(read_u32_at(&bytes, 2), Ok(0x8000_0001));
    assert_eq!(read_u16_at(&bytes, 6), Ok(0));
}

#[test]
fn errors_describe_themselves() {
    assert_eq!(Error::UnrecognizedFormat.describe(), "unrecognized subtable format");
    assert_eq!(Error::OutOfBounds.describe(), "data out of bounds");
    assert_eq!(Error::MissingRequiredSubtable.describe(), "missing required subtable");
}
