//! Decoder for MDX/MDD dictionary files, with the pieces of the Beluga
//! conversion pipeline that work on plain values.
pub mod error;
pub mod bytes;
pub mod text;
pub mod scanner;
pub mod block;
pub mod header;
pub mod index;
pub mod mdict;
pub mod raw;

