//! Taxonomic classification reports turned into rooted trees, merged across
//! samples, aggregated as abundance tables and written in Newick notation.

pub mod cli;
pub mod data;
pub mod errors;
pub mod kraken;
pub mod newick;
pub mod taxonomy;
pub mod text;
