//! Parser for the Linux `numa_maps` pseudo-file format.
//!
//! Each line of a `numa_maps` file describes one memory range of a process:
//! a hexadecimal base address, a memory policy label, and a sequence of
//! `key` or `key=value` properties describing NUMA placement and page-level
//! statistics. This crate turns such lines into typed [`Range`] records,
//! optionally normalizes page counts into byte counts, and collects the
//! records of a whole file into a [`NumaMap`].

pub mod numa_map;
pub mod order;
pub mod property;
pub mod range;
pub mod text;

pub use numa_map::NumaMap;
pub use property::ParseError;
pub use property::Property;
pub use range::Range;
pub use text::parse_dec_usize;
pub use text::parse_hex_usize;
