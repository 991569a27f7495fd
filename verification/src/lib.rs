//! Rewriting of a font's character-to-glyph mapping table.
//!
//! The crate parses the table's directory and subtables, derives a UCS-4
//! segmented subtable from a UCS-2 segmented one where the font has none,
//! maps a block of glyph indices onto the supplementary private use area,
//! and writes the table back with its directory in the mandated order.
//!
//! `cmap::map_glyphs` does all of it; the other modules hold the steps,
//! each with the statement of what it computes and with the proofs of what
//! follows from that.

pub mod bytes;
pub mod cmap;
pub mod error;
pub mod format12;
pub mod format4;
pub mod pua;
pub mod round_trip;
pub mod table;
