//! Conversion of DTS vibration recordings into UFF Type-58 datasets.
//!
//! The library holds no floating-point value: a number that is a float on
//! disk is carried as its IEEE-754 bit pattern, and a number that appears in
//! a text file is carried as the text that renders it.

pub mod conversion;
pub mod dts;
pub mod ranking;
pub mod text;
pub mod tools;
pub mod uff;
pub mod xml;
