//! Turns a document that holds one GitHub-flavoured Markdown table into
//! tab-separated values.
//!
//! The work is done in two steps. [`extract::parse_markdown_table`] parses the
//! text and reduces the syntax tree to rows of cell texts, refusing every
//! document that is not exactly one table. [`tsv::write_table_as_csv`] writes
//! those rows as tab-delimited records. [`convert::convert`] does both.

pub mod convert;
pub mod error;
pub mod extract;
pub mod gfm;
pub mod reading;
pub mod tree;
pub mod tsv;
pub mod writer;
