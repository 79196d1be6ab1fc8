//! Converts low-level debug information into a compact, queryable index
//! that maps a runtime instruction address to the chain of source
//! locations (including inlined call sites) that produced it.

pub mod addr_map;
pub mod converter;
pub mod line_program;
pub mod types;
