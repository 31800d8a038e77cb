//! Core of a floppy-disk imaging progress viewer: a parser for the
//! line-oriented mapfile ledger written by block-level disk-imaging tools,
//! a registry of known floppy geometries, and an iterator that maps the
//! parsed linear byte ranges onto physical side/track/sector coordinates.

pub mod ddrescue;
pub mod floppy_type;
pub mod text;
