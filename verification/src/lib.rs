//! Symbolization of sampled profiles against symbol ranges and return pads.
//!
//! The library resolves every sampled location of a profile to an ELF
//! virtual address, finds the symbol ranges that cover it and the return pads
//! that sit at it, and reports all of it as plain values.

pub mod profile;
pub mod records;
pub mod symbolize;
pub mod text;
