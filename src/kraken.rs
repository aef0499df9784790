//! Records of a classification report, and what is read from them.
use vstd::prelude::*;
use vstd::string::*;

use crate::data::tree::{IndentedTaxon, IndentedTaxonView};
use crate::errors::{SpideogError, TaxRankParsingError};
use crate::taxonomy::{parse_taxonomy_level, rank_from_code, Rank};
use crate::text::{chars_of, trim, trimmed};

verus! {

/// One line of a report, split into its six fields: the clade percentage
/// (text), the reads of the clade, the reads of the taxon itself, the rank
/// code, the taxonomy id, and the name after its indentation.
pub type ReportRecord = (String, u64, u64, String, u64, String);

/// A taxon: its rank, name and taxonomy id.
#[derive(Debug, PartialOrd, Ord, Hash)]
pub struct Taxon {
    pub taxonomy_level: Rank,
    pub name: String,
    pub taxonomy_id: u64,
}

/// A taxon with its name seen as characters.
pub struct TaxonView {
    pub taxonomy_level: Rank,
    pub name: Seq<char>,
    pub taxonomy_id: u64,
}

impl View for Taxon {
    type V = TaxonView;

    open spec fn view(&self) -> TaxonView {
        TaxonView {
            taxonomy_level: self.taxonomy_level,
            name: self.name@,
            taxonomy_id: self.taxonomy_id,
        }
    }
}

impl PartialEq for Taxon {
    fn eq(&self, other: &Taxon) -> (r: bool)
        ensures
            r == (self@ == other@),
    {
        self.taxonomy_level == other.taxonomy_level && self.taxonomy_id == other.taxonomy_id
            && self.name == other.name
    }
}

impl vstd::std_specs::cmp::PartialEqSpecImpl for Taxon {
    open spec fn obeys_eq_spec() -> bool {
        true
    }

    open spec fn eq_spec(&self, other: &Taxon) -> bool {
        self@ == other@
    }
}

impl Eq for Taxon {}

impl Clone for Taxon {
    fn clone(&self) -> (r: Taxon)
        ensures
            r == *self,
    {
        Taxon {
            taxonomy_level: self.taxonomy_level,
            name: self.name.clone(),
            taxonomy_id: self.taxonomy_id,
        }
    }
}

/// How many two-space indentation markers a name field starts with.
pub open spec fn indent_of(s: Seq<char>) -> nat
    decreases s.len(),
{
    if s.len() >= 2 && s[0] == ' ' && s[1] == ' ' {
        1 + indent_of(s.subrange(2, s.len() as int))
    } else {
        0
    }
}

/// The name that a name field holds after its indentation, trimmed.
pub open spec fn name_of(s: Seq<char>) -> Seq<char> {
    trimmed(s.subrange(2 * indent_of(s) as int, s.len() as int))
}

proof fn lemma_indent_bound(s: Seq<char>)
    ensures
        2 * indent_of(s) <= s.len(),
    decreases s.len(),
{
    if s.len() >= 2 && s[0] == ' ' && s[1] == ' ' {
        lemma_indent_bound(s.subrange(2, s.len() as int));
    }
}

/// Splits a name field into its indentation (the number of two-space
/// markers it starts with) and the trimmed name that follows.
pub fn parse_ident_organism_name(input: &str) -> (r: (usize, String))
    ensures
        r.0 == indent_of(input@),
        r.1@ == name_of(input@),
{
    let chars = chars_of(input);
    let len = chars.len();
    let mut i: usize = 0;
    proof {
        lemma_indent_bound(input@);
        assert(input@.subrange(0, input@.len() as int) == input@);
    }
    while i + 1 < len && chars[i] == ' ' && chars[i + 1] == ' '
        invariant
            chars@ == input@,
            len == chars@.len(),
            i <= len,
            i % 2 == 0,
            indent_of(input@) == i / 2 + indent_of(input@.subrange(i as int, len as int)),
        decreases len - i,
    {
        let ghost rest = input@.subrange(i as int, len as int);
        assert(rest.subrange(2, rest.len() as int) == input@.subrange(i + 2, len as int));
        i = i + 2;
    }
    let indent = i / 2;
    let rest = input.substring_char(i, len);
    (indent, trim(rest))
}

/// The codes of the records' ranks.
pub open spec fn rank_codes(records: Seq<ReportRecord>) -> Seq<Seq<char>> {
    Seq::new(records.len(), |i: int| records[i].3@)
}

/// The rank read just before record `i` (none before the first): the ranks
/// are read in order, a `-` continuing the one before it.
pub open spec fn rank_context(codes: Seq<Seq<char>>, i: int) -> Option<Rank>
    decreases i,
{
    if i <= 0 {
        None
    } else {
        rank_from_code(codes[i - 1], rank_context(codes, i - 1))
    }
}

/// Every rank code of the records can be read, in order.
pub open spec fn ranks_readable(records: Seq<ReportRecord>) -> bool {
    forall|i: int| 0 <= i < records.len() ==> (#[trigger] rank_context(rank_codes(records), i + 1)).is_some()
}

/// The node that a record gives, with the rank read from its code.
pub open spec fn node_from(record: ReportRecord, rank: Rank) -> IndentedTaxonView {
    let field = record.5@;
    IndentedTaxonView {
        indent: indent_of(field) as usize,
        taxon: TaxonView { taxonomy_level: rank, name: name_of(field), taxonomy_id: record.4 },
    }
}

/// The node that record `i` gives, where all ranks before it could be read.
pub open spec fn record_node(records: Seq<ReportRecord>, i: int) -> IndentedTaxonView {
    node_from(records[i], rank_context(rank_codes(records), i + 1).unwrap())
}

/// Reads the node of one record, its rank code read after `last`, the rank
/// of the record before it.
pub fn adapt_record(record: &ReportRecord, last: Option<Rank>) -> (r: Result<IndentedTaxon, SpideogError>)
    ensures
        match rank_from_code(record.3@, last) {
            Some(rank) => r matches Ok(n) && n@ == node_from(*record, rank),
            None => r matches Err(SpideogError::RankParsing(e)) && e.explains(record.3@, last),
        },
{
    let rank = match parse_taxonomy_level(record.3.as_str(), last) {
        Ok(rank) => rank,
        Err(e) => {
            return Err(SpideogError::RankParsing(e));
        },
    };
    let (indent, name) = parse_ident_organism_name(record.5.as_str());
    Ok(IndentedTaxon { indent, taxon: Taxon { taxonomy_level: rank, name, taxonomy_id: record.4 } })
}

/// The nodes that the records give.
pub open spec fn record_nodes(records: Seq<ReportRecord>) -> Seq<IndentedTaxonView> {
    Seq::new(records.len(), |i: int| record_node(records, i))
}

/// `e` is the error of the first record whose rank code cannot be read.
pub open spec fn first_rank_error(records: Seq<ReportRecord>, e: TaxRankParsingError) -> bool {
    exists|k: int|
        0 <= k < records.len() && rank_context(rank_codes(records), k + 1).is_none() && (forall|
            j: int,
        |
            0 <= j < k ==> (#[trigger] rank_context(rank_codes(records), j + 1)).is_some())
            && e.explains(records[k].3@, rank_context(rank_codes(records), k))
}

/// Reads the nodes of a report, record by record, each rank code read after
/// the one before it.
pub fn adapt_records(records: &Vec<ReportRecord>) -> (r: Result<Vec<IndentedTaxon>, SpideogError>)
    ensures
        match r {
            Ok(nodes) => ranks_readable(records@) && nodes@.map_values(|n: IndentedTaxon| n@)
                == record_nodes(records@),
            Err(e) => !ranks_readable(records@) && match e {
                SpideogError::RankParsing(re) => first_rank_error(records@, re),
                _ => false,
            },
        },
{
    let ghost codes = rank_codes(records@);
    let mut nodes: Vec<IndentedTaxon> = Vec::new();
    let mut last: Option<Rank> = None;
    let mut i: usize = 0;
    while i < records.len()
        invariant
            i <= records@.len(),
            codes == rank_codes(records@),
            last == rank_context(codes, i as int),
            i > 0 ==> last.is_some(),
            nodes@.len() == i,
            forall|j: int| 0 <= j < i ==> (#[trigger] rank_context(codes, j + 1)).is_some(),
            forall|j: int| 0 <= j < i ==> (#[trigger] nodes@[j])@ == record_node(records@, j),
        decreases records@.len() - i,
    {
        let node = match adapt_record(&records[i], last) {
            Ok(node) => node,
            Err(e) => {
                assert(e matches SpideogError::RankParsing(re) && first_rank_error(records@, re));
                return Err(e);
            },
        };
        last = Some(node.taxon.taxonomy_level);
        nodes.push(node);
        i = i + 1;
    }
    assert(nodes@.map_values(|n: IndentedTaxon| n@) == record_nodes(records@));
    Ok(nodes)
}

} // verus!
