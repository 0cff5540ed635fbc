//! Recovery of bibliographic references from the text of scholarly papers.
//!
//! The stages, leaves first:
//! - `zones`: reference-heading detection on block and line text;
//! - `collect`: reference-section discovery, harvesting, fallbacks, footnotes
//!   and segmentation into raw references;
//! - `kb`: the journal, collaboration and report-number knowledge bases and
//!   their match primitives;
//! - `tokenizer`: typed tokens of a reference string;
//! - `parse`: structured records from tokens, with sub-references;
//! - `driver`: semicolon splitting, the whole parse step and `ibid` resolution;
//! - `enrich`: the decisions of DOI enrichment.
//! `types` holds the records the stages hand on; `text` the character helpers.

pub mod collect;
pub mod columns;
pub mod driver;
pub mod enrich;
pub mod kb;
pub mod parse;
pub mod text;
pub mod tokenizer;
pub mod types;
pub mod zones;
