//! Parser and model for USB DFU interface descriptor strings.
//!
//! A DFU-capable bootloader advertises the layout of its flash memory as a
//! text descriptor such as
//! `@Internal Flash  /0x08000000/04*016Kg,01*064Kg,03*128Kg`.
//! This crate turns such a string into a queryable memory map (banks of
//! sectors with sizes, addresses and access capabilities), and also exposes
//! the multi-radix numeric literal parser used for the bank base addresses
//! and for user-supplied offsets.

pub mod descriptor;
pub mod image;
pub mod memory;
pub mod numeric;
pub mod text;
