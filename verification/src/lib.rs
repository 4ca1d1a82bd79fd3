//! Web-font subsetting engine: splits a font's character repertoire into
//! script-aware, byte-size-bounded chunks and emits one standalone subset
//! font binary per chunk, together with ordered progress events.
//!
//! The pipeline is classify — partition — build — finalize: `classify`
//! names the script areas, `model` and `plan` carry the chunking with its
//! coverage, size-window, count and guaranteed-character contracts,
//! `font` is the binary codec, `subset` the glyph closure and rewrite,
//! `builder` emits one artifact per chunk, and `runner` orchestrates the
//! stages and the progress events under the `config` options.

pub mod builder;
pub mod classify;
pub mod config;
pub mod errors;
pub mod font;
pub mod model;
pub mod plan;
pub mod runner;
pub mod subset;
