//! A small custom computer architecture: a two-pass assembler that turns a
//! statement stream into a relocated binary image, and a virtual CPU that
//! fetches, decodes and executes that image against a paged memory space.
//! The two sides share one instruction encoding, defined in `encoding`.

pub mod assembler;
pub mod cpu;
pub mod encoding;
pub mod numbers;
