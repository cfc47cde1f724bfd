//! A terminal emulation engine: an incremental UTF-8 decoder, a resumable
//! ECMA-48 control-sequence parser, and a grapheme-aware character grid, with
//! the translator that drives bytes through all three.

pub mod child;
pub mod config;
pub mod data;
pub mod parser;
pub mod translator;
