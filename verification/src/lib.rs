//! Memory consistency of a zero-knowledge virtual machine: the RAM table.
//!
//! The memory accesses recorded during a program run are reordered into a
//! table in which every address forms one contiguous block, the table is
//! padded to a target height, extended with running products over the
//! extension field, and described by polynomial constraints between
//! neighbouring rows.

pub mod field;
pub mod algebra;
pub mod bezout;
pub mod challenges;
pub mod constraints;
pub mod discipline;
pub mod evaluation;
pub mod extension;
pub mod laws;
pub mod ram_table;
pub mod ring;
pub mod terminal;
pub mod trace;
pub mod vanishing;
pub mod vm;
