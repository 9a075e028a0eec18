//! Verified core of a semantic code search tool: search arguments and
//! plans, result previews and formatting, multi-query result merging, rank
//! fusion, symbol expansion and the indexer's decisions.

pub mod output_format;

pub use output_format::OutputFormat;

pub mod text;
pub mod symbols;
pub mod blocks;
pub mod group;
pub mod preview;
pub mod format_text;
pub mod format_markdown;
pub mod render;
pub mod merge;
pub mod hybrid;
pub mod bm25;
pub mod validate;
pub mod search_output;
pub mod plan;
pub mod expand;
pub mod indexer;
