//! Ren'Rs engine core: archive decryption, Lua source embedding, value conversion and styling.
pub mod archive;
pub mod files;
pub mod text;
pub mod parser;
pub mod rng;
pub mod style;
pub mod value;
pub mod table;
pub mod error;
pub mod codec;
pub mod package;
pub mod copywriting;
pub mod games;
