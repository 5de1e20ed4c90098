//! Parses the Unicode Character Database text files into structured tables
//! and compresses per-code-point index vectors into two-level page tables.

pub mod bmp;
pub mod case_folding;
pub mod code_point_table;
pub mod constants;
pub mod derived_core_properties;
pub mod non_bmp;
pub mod order;
pub mod spaces;
pub mod special_casing;
pub mod table;
pub mod text;
pub mod types;
