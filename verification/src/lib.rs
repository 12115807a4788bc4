//! Text handling, chunking and tensor layout for the Supertonic speech tap,
//! with the plain decisions of the other taps.

pub mod chars;
pub mod lang;
pub mod error;
pub mod text;
pub mod text_laws;
pub mod processor;
pub mod chunk;
pub mod chunk_laws;
pub mod style;
pub mod config;
pub mod assets;
pub mod audio;
pub mod tap;
