use vstd::prelude::*;

use crate::data::tree::{IndentedTaxon, IndentedTaxonView};
use crate::taxonomy::Rank;

verus! {

/// Why a rank code could not be read.
#[derive(Debug)]
pub enum TaxRankParsingError {
    /// The code (first field) has a second character (second field) that is not a digit.
    OffsetNotANumber(String, char),
    /// The code (first field) has a length (second field, in characters) other than 1 or 2.
    InvalidLength(String, usize),
    /// The code (first field) starts with a character (second field) that names no rank.
    InvalidRankCode(String, char),
    /// The code (field) is `-` but no earlier rank can be continued.
    TaxRankParsingCannotInferRank(String),
}

/// Why a report could not be read, or trees could not be built, merged or written.
#[derive(Debug)]
pub enum SpideogError {
    /// The first node of a tree has this indentation instead of none.
    NonZeroIndentRoot(usize),
    /// No node of the tree can be the parent of the node with this name, indentation and rank.
    NoSuitableParent(String, usize, Rank),
    /// Neither end of an edge of the incoming tree is in the base tree.
    NodeNotFound,
    /// This node of the incoming tree is in the base tree, but the source of its edge is not.
    ParentNotFound(IndentedTaxon),
    /// Both nodes are in the base tree, but no edge links the first to the second.
    EdgeNotFound(IndentedTaxon, IndentedTaxon),
    /// The report holds no record.
    EmptyFile,
    /// The tree has no root yet.
    TreeNotInitialized,
    /// A rank code could not be read.
    RankParsing(TaxRankParsingError),
    /// This percentage field is not a decimal number.
    PercentageParsing(String),
    /// A node is less indented (first field) than its parent (second field).
    InvalidDistance(usize, usize),
}

/// What an error says, with its strings and nodes seen as their views.
/// The detail of a rank error is stated apart (`TaxRankParsingError::explains`).
pub enum Failure {
    NonZeroIndentRoot(usize),
    NoSuitableParent(Seq<char>, usize, Rank),
    NodeNotFound,
    ParentNotFound(IndentedTaxonView),
    EdgeNotFound(IndentedTaxonView, IndentedTaxonView),
    EmptyFile,
    TreeNotInitialized,
    RankParsing,
    PercentageParsing(Seq<char>),
    InvalidDistance(usize, usize),
}

impl View for SpideogError {
    type V = Failure;

    open spec fn view(&self) -> Failure {
        match self {
            SpideogError::NonZeroIndentRoot(i) => Failure::NonZeroIndentRoot(*i),
            SpideogError::NoSuitableParent(n, i, r) => Failure::NoSuitableParent(n@, *i, *r),
            SpideogError::NodeNotFound => Failure::NodeNotFound,
            SpideogError::ParentNotFound(n) => Failure::ParentNotFound(n@),
            SpideogError::EdgeNotFound(a, b) => Failure::EdgeNotFound(a@, b@),
            SpideogError::EmptyFile => Failure::EmptyFile,
            SpideogError::TreeNotInitialized => Failure::TreeNotInitialized,
            SpideogError::RankParsing(_) => Failure::RankParsing,
            SpideogError::PercentageParsing(s) => Failure::PercentageParsing(s@),
            SpideogError::InvalidDistance(a, b) => Failure::InvalidDistance(*a, *b),
        }
    }
}

/// The view of a result whose error is a `SpideogError`.
pub open spec fn outcome<T: View>(r: Result<T, SpideogError>) -> Result<T::V, Failure> {
    match r {
        Ok(t) => Ok(t@),
        Err(e) => Err(e@),
    }
}

} // verus!
