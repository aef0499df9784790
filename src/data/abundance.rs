//! Abundance tables: per sample, the read counts of each taxon; across
//! samples, the taxa seen in any of them.
use vstd::prelude::*;

use crate::errors::{Failure, SpideogError};
use crate::kraken::{
    adapt_record, first_rank_error, node_from, rank_codes, rank_context, ReportRecord, Taxon,
    TaxonView,
};
use crate::taxonomy::{is_digit, Rank};
use crate::text::{chars_of, trim, trimmed};

verus! {

/// The reads of one taxon in one sample. The clade percentage is kept as the
/// decimal text that the report gives.
#[derive(Debug)]
pub struct Fragments {
    pub clade_percentage: String,
    pub clade_count_reads: u64,
    pub taxon_count_reads: u64,
}

pub struct FragmentsView {
    pub clade_percentage: Seq<char>,
    pub clade_count_reads: u64,
    pub taxon_count_reads: u64,
}

impl View for Fragments {
    type V = FragmentsView;

    open spec fn view(&self) -> FragmentsView {
        FragmentsView {
            clade_percentage: self.clade_percentage@,
            clade_count_reads: self.clade_count_reads,
            taxon_count_reads: self.taxon_count_reads,
        }
    }
}

impl Clone for Fragments {
    fn clone(&self) -> (r: Fragments)
        ensures
            r == *self,
    {
        Fragments {
            clade_percentage: self.clade_percentage.clone(),
            clade_count_reads: self.clade_count_reads,
            taxon_count_reads: self.taxon_count_reads,
        }
    }
}

/// The reads of a taxon absent from a sample: none at all.
pub open spec fn zero_fragments() -> FragmentsView {
    FragmentsView { clade_percentage: seq!['0'], clade_count_reads: 0, taxon_count_reads: 0 }
}

/// Digits with at most one decimal point among them, and at least one digit.
pub open spec fn is_decimal(s: Seq<char>) -> bool {
    &&& forall|i: int| 0 <= i < s.len() ==> is_digit(#[trigger] s[i]) || s[i] == '.'
    &&& forall|i: int, j: int| 0 <= i < j < s.len() ==> !(#[trigger] s[i] == '.' && #[trigger] s[j] == '.')
    &&& exists|i: int| 0 <= i < s.len() && is_digit(#[trigger] s[i])
}

impl Fragments {
    /// The reads of a taxon absent from a sample.
    pub fn zero() -> (r: Fragments)
        ensures
            r@ == zero_fragments(),
    {
        let mut percentage = String::new();
        crate::text::push_char(&mut percentage, '0');
        assert(percentage@ =~= seq!['0']);
        Fragments { clade_percentage: percentage, clade_count_reads: 0, taxon_count_reads: 0 }
    }

    /// The reads that a record gives: its percentage, trimmed, and its two
    /// read counts as they are. The percentage must be digits with at most
    /// one decimal point among them (`12.5`, `0.01`, `100`, `.5`): no sign,
    /// exponent, infinity or NaN, the forms in which reports write it.
    pub fn from_record(record: &ReportRecord) -> (r: Result<Fragments, SpideogError>)
        ensures
            is_decimal(trimmed(record.0@)) ==> (r matches Ok(f) && f@ == record_fragments(*record)),
            !is_decimal(trimmed(record.0@)) ==> (r matches Err(e) && e@ == Failure::PercentageParsing(
                record.0@,
            )),
    {
        let text = trim(record.0.as_str());
        if !check_decimal(text.as_str()) {
            return Err(SpideogError::PercentageParsing(record.0.clone()));
        }
        Ok(
            Fragments {
                clade_percentage: text,
                clade_count_reads: record.1,
                taxon_count_reads: record.2,
            },
        )
    }
}

/// The reads that a record with a valid percentage gives.
pub open spec fn record_fragments(record: ReportRecord) -> FragmentsView {
    FragmentsView {
        clade_percentage: trimmed(record.0@),
        clade_count_reads: record.1,
        taxon_count_reads: record.2,
    }
}

/// Whether the text is digits with at most one decimal point among them.
pub fn check_decimal(s: &str) -> (r: bool)
    ensures
        r == is_decimal(s@),
{
    let chars = chars_of(s);
    let mut dot: Option<usize> = None;
    let mut digit: Option<usize> = None;
    let mut i: usize = 0;
    while i < chars.len()
        invariant
            chars@ == s@,
            i <= chars@.len(),
            forall|k: int| 0 <= k < i ==> is_digit(#[trigger] chars@[k]) || chars@[k] == '.',
            match dot {
                Some(d) => d < i && chars@[d as int] == '.' && forall|k: int|
                    0 <= k < i && k != d ==> #[trigger] chars@[k] != '.',
                None => forall|k: int| 0 <= k < i ==> #[trigger] chars@[k] != '.',
            },
            match digit {
                Some(d) => d < i && is_digit(chars@[d as int]),
                None => forall|k: int| 0 <= k < i ==> !is_digit(#[trigger] chars@[k]),
            },
        decreases chars@.len() - i,
    {
        let c = chars[i];
        if c == '.' {
            if dot.is_some() {
                let d = dot.unwrap();
                assert(s@[d as int] == '.' && s@[i as int] == '.');
                return false;
            }
            dot = Some(i);
        } else if '0' <= c && c <= '9' {
            digit = Some(i);
        } else {
            return false;
        }
        i = i + 1;
    }
    match digit {
        Some(_) => true,
        None => false,
    }
}

/// The entries of a table: each taxon with its reads.
pub type Entries = Seq<(TaxonView, FragmentsView)>;

/// The index of the entry of taxon `t`, if there is one.
pub open spec fn key_index(s: Entries, t: TaxonView) -> Option<int>
    decreases s.len(),
{
    if s.len() == 0 {
        None
    } else {
        match key_index(s.drop_last(), t) {
            Some(i) => Some(i),
            None => if s.last().0 == t {
                Some(s.len() - 1)
            } else {
                None
            },
        }
    }
}

/// The taxa of a table.
pub open spec fn keys(s: Entries) -> Set<TaxonView> {
    Set::new(|t: TaxonView| exists|i: int| 0 <= i < s.len() && (#[trigger] s[i]).0 == t)
}

/// No taxon has two entries.
pub open spec fn keys_distinct(s: Entries) -> bool {
    forall|i: int, j: int| 0 <= i < j < s.len() ==> (#[trigger] s[i]).0 != (#[trigger] s[j]).0
}

/// `s` where taxon `t` has reads `f`: its entry replaced, or a new entry at the end.
pub open spec fn insert_entry(s: Entries, t: TaxonView, f: FragmentsView) -> Entries {
    match key_index(s, t) {
        Some(i) => s.update(i, (t, f)),
        None => s.push((t, f)),
    }
}

proof fn lemma_key_index(s: Entries, t: TaxonView)
    ensures
        match key_index(s, t) {
            Some(i) => 0 <= i < s.len() && s[i].0 == t && forall|j: int| 0 <= j < i ==> (#[trigger] s[j]).0 != t,
            None => forall|j: int| 0 <= j < s.len() ==> (#[trigger] s[j]).0 != t,
        },
    decreases s.len(),
{
    if s.len() > 0 {
        lemma_key_index(s.drop_last(), t);
        assert forall|j: int| 0 <= j < s.len() - 1 implies s.drop_last()[j] == s[j] by {}
    }
}

/// The reads of the taxa of one sample, one entry per taxon.
#[derive(Debug)]
pub struct AbundanceData {
    entries: Vec<(Taxon, Fragments)>,
}

impl View for AbundanceData {
    type V = Entries;

    closed spec fn view(&self) -> Entries {
        self.entries@.map_values(|e: (Taxon, Fragments)| (e.0@, e.1@))
    }
}

impl AbundanceData {
    pub open spec fn wf(&self) -> bool {
        keys_distinct(self@)
    }

    /// A table without entries.
    pub fn new() -> (r: AbundanceData)
        ensures
            r.wf(),
            r@ == Seq::<(TaxonView, FragmentsView)>::empty(),
    {
        let r = AbundanceData { entries: Vec::new() };
        assert(r@ =~= Seq::<(TaxonView, FragmentsView)>::empty());
        r
    }

    /// The number of entries.
    pub fn len(&self) -> (r: usize)
        ensures
            r == self@.len(),
    {
        self.entries.len()
    }

    /// The entry at index `i`.
    pub fn entry(&self, i: usize) -> (r: (&Taxon, &Fragments))
        requires
            i < self@.len(),
        ensures
            (r.0@, r.1@) == self@[i as int],
    {
        let e = &self.entries[i];
        (&e.0, &e.1)
    }

    /// The index of the entry of `taxon`, if there is one.
    pub fn position(&self, taxon: &Taxon) -> (r: Option<usize>)
        ensures
            key_index(self@, taxon@) == match r {
                Some(i) => Some(i as int),
                None => None::<int>,
            },
    {
        proof {
            lemma_key_index(self@, taxon@);
        }
        let mut i: usize = 0;
        while i < self.entries.len()
            invariant
                i <= self@.len(),
                self@.len() == self.entries@.len(),
                forall|j: int| 0 <= j < i ==> (#[trigger] self@[j]).0 != taxon@,
                match key_index(self@, taxon@) {
                    Some(k) => 0 <= k < self@.len() && self@[k].0 == taxon@ && forall|j: int|
                        0 <= j < k ==> (#[trigger] self@[j]).0 != taxon@,
                    None => forall|j: int| 0 <= j < self@.len() ==> (#[trigger] self@[j]).0 != taxon@,
                },
            decreases self@.len() - i,
        {
            assert(self@[i as int].0 == self.entries@[i as int].0@);
            if self.entries[i].0.eq(taxon) {
                return Some(i);
            }
            i = i + 1;
        }
        None
    }

    /// Whether `taxon` has an entry.
    pub fn contains(&self, taxon: &Taxon) -> (r: bool)
        ensures
            r == keys(self@).contains(taxon@),
    {
        proof {
            lemma_key_index(self@, taxon@);
        }
        self.position(taxon).is_some()
    }

    /// The reads of `taxon`, if it has an entry.
    pub fn get(&self, taxon: &Taxon) -> (r: Option<&Fragments>)
        ensures
            match key_index(self@, taxon@) {
                Some(i) => r matches Some(f) && f@ == self@[i].1,
                None => r.is_none(),
            },
    {
        proof {
            lemma_key_index(self@, taxon@);
        }
        match self.position(taxon) {
            Some(i) => {
                let f = &self.entries[i].1;
                assert(self@[i as int].1 == f@);
                assert(key_index(self@, taxon@) == Some(i as int));
                Some(f)
            },
            None => None,
        }
    }

    /// Gives `taxon` the reads `fragments`, replacing those it had.
    pub fn insert(&mut self, taxon: Taxon, fragments: Fragments)
        requires
            old(self).wf(),
        ensures
            final(self).wf(),
            final(self)@ == insert_entry(old(self)@, taxon@, fragments@),
    {
        proof {
            lemma_key_index(self@, taxon@);
        }
        let ghost before = self@;
        let ghost item = (taxon@, fragments@);
        match self.position(&taxon) {
            Some(i) => {
                self.entries.set(i, (taxon, fragments));
                assert(self@ =~= before.update(i as int, item));
            },
            None => {
                self.entries.push((taxon, fragments));
                assert(self@ =~= before.push(item));
            },
        }
    }

    /// The taxa of the table, in the order of its entries.
    pub fn taxons(&self) -> (r: Vec<Taxon>)
        ensures
            r@.map_values(|t: Taxon| t@) == self@.map_values(|e: (TaxonView, FragmentsView)| e.0),
    {
        let mut r: Vec<Taxon> = Vec::new();
        let mut i: usize = 0;
        while i < self.entries.len()
            invariant
                i <= self@.len(),
                self@.len() == self.entries@.len(),
                r@.map_values(|t: Taxon| t@) == self@.subrange(0, i as int).map_values(
                    |e: (TaxonView, FragmentsView)| e.0,
                ),
            decreases self@.len() - i,
        {
            assert(self@[i as int].0 == self.entries@[i as int].0@);
            let ghost before = r@;
            let t = self.entries[i].0.clone();
            r.push(t);
            assert(r@ == before.push(t));
            assert(r@.map_values(|t: Taxon| t@) =~= before.map_values(|t: Taxon| t@).push(t@));
            assert(self@.subrange(0, i + 1) =~= self@.subrange(0, i as int).push(self@[i as int]));
            assert(r@.map_values(|t: Taxon| t@) =~= self@.subrange(0, i + 1).map_values(
                |e: (TaxonView, FragmentsView)| e.0,
            ));
            i = i + 1;
        }
        assert(self@.subrange(0, i as int) =~= self@);
        r
    }
}

/// The table that the first `k` records give. Record by record, in order,
/// the rank code is read after the one before it, then the percentage is
/// checked, then the record's reads are given to its taxon, a later record
/// replacing an earlier one of the same taxon. The first record that fails
/// gives the failure.
pub open spec fn records_abundance(records: Seq<ReportRecord>, k: int) -> Result<Entries, Failure>
    decreases k,
{
    if k <= 0 {
        Ok(Seq::empty())
    } else {
        match records_abundance(records, k - 1) {
            Err(e) => Err(e),
            Ok(m) => match rank_context(rank_codes(records), k) {
                None => Err(Failure::RankParsing),
                Some(rank) => if is_decimal(trimmed(records[k - 1].0@)) {
                    Ok(
                        insert_entry(
                            m,
                            node_from(records[k - 1], rank).taxon,
                            record_fragments(records[k - 1]),
                        ),
                    )
                } else {
                    Err(Failure::PercentageParsing(records[k - 1].0@))
                },
            },
        }
    }
}

proof fn lemma_abundance_failure_persists(records: Seq<ReportRecord>, k: int, n: int)
    requires
        0 <= k <= n,
        records_abundance(records, k) is Err,
    ensures
        records_abundance(records, n) == records_abundance(records, k),
    decreases n,
{
    if n > k {
        lemma_abundance_failure_persists(records, k, n - 1);
    }
}

impl AbundanceData {
    /// The table of a report's records (see `records_abundance`).
    pub fn from_records(records: &Vec<ReportRecord>) -> (r: Result<AbundanceData, SpideogError>)
        ensures
            match r {
                Ok(d) => d.wf() && records_abundance(records@, records@.len() as int) == Ok::<
                    Entries,
                    Failure,
                >(d@),
                Err(e) => records_abundance(records@, records@.len() as int) == Err::<
                    Entries,
                    Failure,
                >(e@),
            },
            r matches Err(SpideogError::RankParsing(e)) ==> first_rank_error(records@, e),
    {
        let ghost codes = rank_codes(records@);
        let ghost n = records@.len() as int;
        let mut data = AbundanceData::new();
        let mut last: Option<Rank> = None;
        let mut i: usize = 0;
        while i < records.len()
            invariant
                i <= records@.len(),
                n == records@.len(),
                codes == rank_codes(records@),
                last == rank_context(codes, i as int),
                forall|j: int| 0 <= j < i ==> (#[trigger] rank_context(codes, j + 1)).is_some(),
                data.wf(),
                records_abundance(records@, i as int) == Ok::<Entries, Failure>(data@),
            decreases records@.len() - i,
        {
            assert(codes[i as int] == records@[i as int].3@);
            let node = match adapt_record(&records[i], last) {
                Ok(node) => node,
                Err(e) => {
                    assert(e matches SpideogError::RankParsing(re) && first_rank_error(records@, re));
                    assert(records_abundance(records@, i + 1) == Err::<Entries, Failure>(e@));
                    proof {
                        lemma_abundance_failure_persists(records@, i + 1, n);
                    }
                    return Err(e);
                },
            };
            last = Some(node.taxon.taxonomy_level);
            let fragments = match Fragments::from_record(&records[i]) {
                Ok(f) => f,
                Err(e) => {
                    assert(records_abundance(records@, i + 1) == Err::<Entries, Failure>(e@));
                    proof {
                        lemma_abundance_failure_persists(records@, i + 1, n);
                    }
                    return Err(e);
                },
            };
            data.insert(node.taxon, fragments);
            i = i + 1;
        }
        Ok(data)
    }
}

/// The taxa of `ts` appended to `us`, in order, each unless already there.
pub open spec fn add_unique(us: Seq<TaxonView>, ts: Seq<TaxonView>) -> Seq<TaxonView>
    decreases ts.len(),
{
    if ts.len() == 0 {
        us
    } else {
        let p = add_unique(us, ts.drop_last());
        if p.contains(ts.last()) {
            p
        } else {
            p.push(ts.last())
        }
    }
}

/// `s` with a zero entry for each taxon of `us` that it lacks, in the order of `us`.
pub open spec fn fill_missing(s: Entries, us: Seq<TaxonView>) -> Entries
    decreases us.len(),
{
    if us.len() == 0 {
        s
    } else {
        let p = fill_missing(s, us.drop_last());
        if keys(p).contains(us.last()) {
            p
        } else {
            p.push((us.last(), zero_fragments()))
        }
    }
}

/// The taxa of a table, in the order of its entries.
pub open spec fn key_seq(s: Entries) -> Seq<TaxonView> {
    s.map_values(|e: (TaxonView, FragmentsView)| e.0)
}

/// Whether `t` is among `v`.
fn contains_taxon(v: &Vec<Taxon>, t: &Taxon) -> (r: bool)
    ensures
        r == v@.map_values(|x: Taxon| x@).contains(t@),
{
    let ghost vs = v@.map_values(|x: Taxon| x@);
    let mut i: usize = 0;
    while i < v.len()
        invariant
            i <= v@.len(),
            vs == v@.map_values(|x: Taxon| x@),
            forall|j: int| 0 <= j < i ==> vs[j] != t@,
        decreases v@.len() - i,
    {
        if v[i].eq(t) {
            assert(vs[i as int] == t@);
            return true;
        }
        i = i + 1;
    }
    false
}

/// Filling a table adds exactly the taxa that it lacked.
proof fn lemma_fill_keys(s: Entries, us: Seq<TaxonView>, t: TaxonView)
    ensures
        keys(fill_missing(s, us)).contains(t) <==> (keys(s).contains(t) || us.contains(t)),
    decreases us.len(),
{
    if us.len() > 0 {
        let prefix = us.drop_last();
        lemma_fill_keys(s, prefix, t);
        let p = fill_missing(s, prefix);
        if us.contains(t) {
            let k = choose|k: int| 0 <= k < us.len() && #[trigger] us[k] == t;
            if k < prefix.len() {
                assert(prefix[k] == t);
            }
        }
        if prefix.contains(t) {
            let k = choose|k: int| 0 <= k < prefix.len() && #[trigger] prefix[k] == t;
            assert(us[k] == t);
        }
        if !keys(p).contains(us.last()) {
            let q = p.push((us.last(), zero_fragments()));
            if keys(q).contains(t) {
                let k = choose|k: int| 0 <= k < q.len() && (#[trigger] q[k]).0 == t;
                if k < p.len() {
                    assert(p[k] == q[k]);
                }
            }
            if keys(p).contains(t) {
                let k = choose|k: int| 0 <= k < p.len() && (#[trigger] p[k]).0 == t;
                assert(q[k] == p[k]);
            }
            assert(q[p.len() as int].0 == us.last());
        }
    }
}

/// Gives `ds` a zero entry for each taxon of `us` that it lacks (see `fill_missing`).
fn fill_sample(ds: &mut AbundanceData, us: &Vec<Taxon>)
    requires
        old(ds).wf(),
    ensures
        final(ds).wf(),
        final(ds)@ == fill_missing(old(ds)@, us@.map_values(|t: Taxon| t@)),
{
    let ghost usv = us@.map_values(|t: Taxon| t@);
    let ghost orig = ds@;
    let mut j: usize = 0;
    while j < us.len()
        invariant
            j <= us@.len(),
            usv == us@.map_values(|t: Taxon| t@),
            ds.wf(),
            ds@ == fill_missing(orig, usv.subrange(0, j as int)),
        decreases us@.len() - j,
    {
        let u = &us[j];
        assert(usv[j as int] == u@);
        assert(usv.subrange(0, j + 1).drop_last() =~= usv.subrange(0, j as int));
        assert(usv.subrange(0, j + 1).last() == u@);
        if !ds.contains(u) {
            proof {
                lemma_key_index(ds@, u@);
                if key_index(ds@, u@) is Some {
                    let k = key_index(ds@, u@).unwrap();
                    assert(ds@[k].0 == u@);
                }
            }
            ds.insert(u.clone(), Fragments::zero());
        }
        j = j + 1;
    }
    assert(usv.subrange(0, us@.len() as int) =~= usv);
}

/// Filling a table keeps its entries as they were, in front, and only adds
/// zero entries after them.
pub proof fn lemma_fill_missing_extends(s: Entries, us: Seq<TaxonView>)
    ensures
        fill_missing(s, us).len() >= s.len(),
        forall|j: int| 0 <= j < s.len() ==> #[trigger] fill_missing(s, us)[j] == s[j],
        forall|j: int|
            s.len() <= j < fill_missing(s, us).len() ==> (#[trigger] fill_missing(s, us)[j]).1
                == zero_fragments(),
    decreases us.len(),
{
    if us.len() > 0 {
        lemma_fill_missing_extends(s, us.drop_last());
    }
}

/// Filling a table that already has every taxon of `us` leaves it as it is,
/// so that filling twice is filling once.
pub proof fn lemma_fill_missing_idempotent(s: Entries, us: Seq<TaxonView>)
    requires
        forall|t: TaxonView| us.contains(t) ==> keys(s).contains(t),
    ensures
        fill_missing(s, us) == s,
    decreases us.len(),
{
    if us.len() > 0 {
        let prefix = us.drop_last();
        assert forall|t: TaxonView| prefix.contains(t) implies keys(s).contains(t) by {
            let k = choose|k: int| 0 <= k < prefix.len() && #[trigger] prefix[k] == t;
            assert(us[k] == t);
            assert(us.contains(t));
        }
        lemma_fill_missing_idempotent(s, prefix);
        assert(us[us.len() - 1] == us.last());
        assert(us.contains(us.last()));
    }
}

/// The taxa seen in samples added in order, in the order in which they were first seen.
pub open spec fn uniques_of(data: Seq<(Seq<char>, Entries)>) -> Seq<TaxonView>
    decreases data.len(),
{
    if data.len() == 0 {
        Seq::empty()
    } else {
        add_unique(uniques_of(data.drop_last()), key_seq(data.last().1))
    }
}

proof fn lemma_add_unique_contains(us: Seq<TaxonView>, ts: Seq<TaxonView>, x: TaxonView)
    ensures
        add_unique(us, ts).contains(x) <==> (us.contains(x) || ts.contains(x)),
    decreases ts.len(),
{
    if ts.len() > 0 {
        let prefix = ts.drop_last();
        lemma_add_unique_contains(us, prefix, x);
        let p = add_unique(us, prefix);
        if ts.contains(x) {
            let k = choose|k: int| 0 <= k < ts.len() && #[trigger] ts[k] == x;
            if k < prefix.len() {
                assert(prefix[k] == x);
            }
        }
        if prefix.contains(x) {
            let k = choose|k: int| 0 <= k < prefix.len() && #[trigger] prefix[k] == x;
            assert(ts[k] == x);
        }
        assert(ts[ts.len() - 1] == ts.last());
        if !p.contains(ts.last()) {
            let q = p.push(ts.last());
            if q.contains(x) {
                let k = choose|k: int| 0 <= k < q.len() && #[trigger] q[k] == x;
                if k < p.len() {
                    assert(p[k] == x);
                }
            }
            if p.contains(x) {
                let k = choose|k: int| 0 <= k < p.len() && #[trigger] p[k] == x;
                assert(q[k] == x);
            }
            assert(q[p.len() as int] == ts.last());
        }
    }
}

proof fn lemma_add_unique_distinct(us: Seq<TaxonView>, ts: Seq<TaxonView>)
    requires
        forall|i: int, j: int| 0 <= i < j < us.len() ==> us[i] != us[j],
    ensures
        forall|i: int, j: int|
            0 <= i < j < add_unique(us, ts).len() ==> add_unique(us, ts)[i] != add_unique(us, ts)[j],
    decreases ts.len(),
{
    if ts.len() > 0 {
        lemma_add_unique_distinct(us, ts.drop_last());
        let p = add_unique(us, ts.drop_last());
        if !p.contains(ts.last()) {
            let q = p.push(ts.last());
            assert forall|i: int, j: int| 0 <= i < j < q.len() implies q[i] != q[j] by {
                if j == p.len() {
                    assert(q[i] == p[i]);
                } else {
                    assert(q[i] == p[i] && q[j] == p[j]);
                }
            }
        }
    }
}

proof fn lemma_key_seq_contains(s: Entries, t: TaxonView)
    ensures
        key_seq(s).contains(t) <==> keys(s).contains(t),
{
    if key_seq(s).contains(t) {
        let k = choose|k: int| 0 <= k < key_seq(s).len() && #[trigger] key_seq(s)[k] == t;
        assert(s[k].0 == t);
    }
    if keys(s).contains(t) {
        let k = choose|k: int| 0 <= k < s.len() && (#[trigger] s[k]).0 == t;
        assert(key_seq(s)[k] == t);
    }
}

/// One sample: its name and its table.
#[derive(Debug)]
pub struct SampleAbundance {
    pub name: String,
    pub dataset: AbundanceData,
}

impl SampleAbundance {
    pub fn new(name: String, dataset: AbundanceData) -> (r: SampleAbundance)
        ensures
            r.name == name,
            r.dataset == dataset,
    {
        SampleAbundance { name, dataset }
    }

    /// The taxa of the sample, in the order of its table.
    pub fn taxons(&self) -> (r: Vec<Taxon>)
        ensures
            r@.map_values(|t: Taxon| t@) == key_seq(self.dataset@),
    {
        self.dataset.taxons()
    }
}

/// Samples: each name with its table, and the taxa seen in any of them.
pub struct SamplesView {
    pub data: Seq<(Seq<char>, Entries)>,
    pub unique_taxons: Seq<TaxonView>,
}

/// Every table has one entry per taxon, the taxa seen are listed once each,
/// and they are exactly the taxa of the tables.
pub open spec fn samples_wf(v: SamplesView) -> bool {
    &&& forall|i: int| 0 <= i < v.data.len() ==> keys_distinct(#[trigger] v.data[i].1)
    &&& forall|i: int, j: int|
        0 <= i < j < v.unique_taxons.len() ==> v.unique_taxons[i] != v.unique_taxons[j]
    &&& forall|t: TaxonView|
        v.unique_taxons.contains(t) <==> exists|i: int|
            0 <= i < v.data.len() && #[trigger] keys(v.data[i].1).contains(t)
}

/// Samples combined into one table per sample, with the taxa seen in any of
/// them in the order in which they were first seen.
#[derive(Debug)]
pub struct Samples {
    data: Vec<SampleAbundance>,
    unique_taxons: Vec<Taxon>,
}

impl View for Samples {
    type V = SamplesView;

    closed spec fn view(&self) -> SamplesView {
        SamplesView {
            data: self.data@.map_values(|s: SampleAbundance| (s.name@, s.dataset@)),
            unique_taxons: self.unique_taxons@.map_values(|t: Taxon| t@),
        }
    }
}

impl Samples {
    pub open spec fn wf(&self) -> bool {
        samples_wf(self@)
    }

    /// No samples yet.
    pub fn new() -> (r: Samples)
        ensures
            r.wf(),
            r@.data.len() == 0,
            r@.unique_taxons.len() == 0,
    {
        let r = Samples { data: Vec::new(), unique_taxons: Vec::new() };
        assert(r@.unique_taxons =~= Seq::<TaxonView>::empty());
        r
    }

    /// The samples, in the order in which they were added.
    pub fn samples(&self) -> (r: &Vec<SampleAbundance>)
        ensures
            r@.map_values(|s: SampleAbundance| (s.name@, s.dataset@)) == self@.data,
    {
        &self.data
    }

    /// Adds a sample; its taxa not seen before are appended to those seen.
    pub fn add(&mut self, elem: SampleAbundance)
        requires
            old(self).wf(),
            elem.dataset.wf(),
        ensures
            final(self).wf(),
            final(self)@.data == old(self)@.data.push((elem.name@, elem.dataset@)),
            final(self)@.unique_taxons == add_unique(old(self)@.unique_taxons, key_seq(elem.dataset@)),
    {
        let ghost old_view = self@;
        let ghost ts = key_seq(elem.dataset@);
        let new_taxons = elem.taxons();
        assert(new_taxons@.map_values(|t: Taxon| t@).len() == new_taxons@.len());
        let mut i: usize = 0;
        while i < new_taxons.len()
            invariant
                i <= new_taxons@.len(),
                new_taxons@.map_values(|t: Taxon| t@) == ts,
                ts.len() == new_taxons@.len(),
                self@.data == old_view.data,
                self@.unique_taxons == add_unique(old_view.unique_taxons, ts.subrange(0, i as int)),
            decreases new_taxons@.len() - i,
        {
            let ghost before = self@.unique_taxons;
            let t = &new_taxons[i];
            assert(ts[i as int] == t@);
            assert(ts.subrange(0, i + 1).drop_last() =~= ts.subrange(0, i as int));
            assert(ts.subrange(0, i + 1).last() == t@);
            if !contains_taxon(&self.unique_taxons, t) {
                self.unique_taxons.push(t.clone());
                assert(self@.unique_taxons =~= before.push(t@));
            }
            i = i + 1;
        }
        assert(ts.subrange(0, i as int) =~= ts);
        proof {
            lemma_add_unique_distinct(old_view.unique_taxons, ts);
        }
        let ghost us = self@.unique_taxons;
        self.data.push(elem);
        assert(self@.unique_taxons == us);
        assert(self@.data =~= old_view.data.push((elem.name@, elem.dataset@)));
        assert forall|t: TaxonView| self@.unique_taxons.contains(t) <==> exists|i: int|
            0 <= i < self@.data.len() && #[trigger] keys(self@.data[i].1).contains(t) by {
            lemma_add_unique_contains(old_view.unique_taxons, ts, t);
            lemma_key_seq_contains(elem.dataset@, t);
            let last = old_view.data.len() as int;
            assert(self@.data[last].1 == elem.dataset@);
            if exists|i: int| 0 <= i < self@.data.len() && #[trigger] keys(self@.data[i].1).contains(t) {
                let i = choose|i: int| 0 <= i < self@.data.len() && #[trigger] keys(self@.data[i].1).contains(t);
                if i < last {
                    assert(self@.data[i] == old_view.data[i]);
                    assert(keys(old_view.data[i].1).contains(t));
                }
            }
            if old_view.unique_taxons.contains(t) {
                let i = choose|i: int| 0 <= i < old_view.data.len() && #[trigger] keys(old_view.data[i].1).contains(t);
                assert(self@.data[i] == old_view.data[i]);
                assert(keys(self@.data[i].1).contains(t));
            }
            if keys(elem.dataset@).contains(t) {
                assert(keys(self@.data[last].1).contains(t));
            }
        }
    }

    /// Gives every sample a zero entry for each taxon seen that it lacks, so
    /// that every sample then has exactly the taxa seen.
    pub fn add_missing_taxons(&mut self) -> (r: &mut Self)
        requires
            old(self).wf(),
        ensures
            r.wf(),
            r@.unique_taxons == old(self)@.unique_taxons,
            r@.data.len() == old(self)@.data.len(),
            forall|i: int|
                0 <= i < r@.data.len() ==> #[trigger] r@.data[i] == (
                old(self)@.data[i].0,
                fill_missing(old(self)@.data[i].1, old(self)@.unique_taxons),
            ),
            forall|i: int, t: TaxonView|
                0 <= i < r@.data.len() ==> (#[trigger] keys(r@.data[i].1).contains(t)
                    <==> r@.unique_taxons.contains(t)),
            forall|i: int, j: int|
                0 <= i < r@.data.len() && 0 <= j < old(self)@.data[i].1.len() ==> #[trigger] r@.data[i].1[j]
                    == old(self)@.data[i].1[j],
            forall|i: int, j: int|
                0 <= i < r@.data.len() && old(self)@.data[i].1.len() <= j < r@.data[i].1.len() ==> (
                #[trigger] r@.data[i].1[j]).1 == zero_fragments(),
            *final(self) == *final(r),
    {
        let ghost start = self@;
        let mut rest: Vec<SampleAbundance> = Vec::new();
        core::mem::swap(&mut self.data, &mut rest);
        let ghost rest0 = rest@;
        assert(rest0.map_values(|s: SampleAbundance| (s.name@, s.dataset@)) == start.data);
        assert(self@.data =~= Seq::<(Seq<char>, Entries)>::empty());
        let n = rest.len();
        let mut i: usize = 0;
        while i < n
            invariant
                n == rest0.len(),
                i <= n,
                rest@ == rest0.subrange(i as int, n as int),
                self@.unique_taxons == start.unique_taxons,
                samples_wf(start),
                start.data == rest0.map_values(|s: SampleAbundance| (s.name@, s.dataset@)),
                self@.data.len() == i,
                forall|k: int|
                    0 <= k < i ==> #[trigger] self@.data[k] == (
                    start.data[k].0,
                    fill_missing(start.data[k].1, start.unique_taxons),
                ),
                forall|k: int| 0 <= k < i ==> keys_distinct(#[trigger] self@.data[k].1),
            decreases n - i,
        {
            let mut sample = rest.remove(0);
            assert(sample == rest0[i as int]);
            assert(start.data[i as int] == (sample.name@, sample.dataset@));
            assert(keys_distinct(start.data[i as int].1));
            fill_sample(&mut sample.dataset, &self.unique_taxons);
            let ghost before = self@.data;
            let ghost item = (sample.name@, sample.dataset@);
            self.data.push(sample);
            assert(self@.data =~= before.push(item));
            assert(rest@ =~= rest0.subrange(i + 1, n as int));
            i = i + 1;
        }
        assert forall|k: int, t: TaxonView|
            0 <= k < self@.data.len() implies (#[trigger] keys(self@.data[k].1).contains(t)
                <==> self@.unique_taxons.contains(t)) by {
            lemma_fill_keys(start.data[k].1, start.unique_taxons, t);
            if keys(start.data[k].1).contains(t) {
                assert(start.unique_taxons.contains(t));
            }
        }
        assert forall|i: int| 0 <= i < self@.data.len() implies self@.data[i].1.len() >= start.data[i].1.len()
            && (forall|j: int| 0 <= j < start.data[i].1.len() ==> #[trigger] self@.data[i].1[j] == start.data[i].1[j])
            && (forall|j: int| start.data[i].1.len() <= j < self@.data[i].1.len() ==> (#[trigger] self@.data[i].1[j]).1
                == zero_fragments()) by {
            lemma_fill_missing_extends(start.data[i].1, start.unique_taxons);
        }
        assert forall|t: TaxonView| self@.unique_taxons.contains(t) implies exists|k: int|
            0 <= k < self@.data.len() && #[trigger] keys(self@.data[k].1).contains(t) by {
            let k = choose|k: int| 0 <= k < start.data.len() && #[trigger] keys(start.data[k].1).contains(t);
            assert(keys(self@.data[k].1).contains(t));
        }
        self
    }

    /// The samples combined, in order.
    pub fn from_samples(samples: Vec<SampleAbundance>) -> (r: Samples)
        requires
            forall|i: int| 0 <= i < samples@.len() ==> (#[trigger] samples@[i]).dataset.wf(),
        ensures
            r.wf(),
            r@.data == samples@.map_values(|s: SampleAbundance| (s.name@, s.dataset@)),
            r@.unique_taxons == uniques_of(r@.data),
    {
        let ghost all = samples@;
        let ghost views = all.map_values(|s: SampleAbundance| (s.name@, s.dataset@));
        let mut rest = samples;
        let mut r = Samples::new();
        assert(r@.data =~= views.subrange(0, 0));
        let n = rest.len();
        let mut i: usize = 0;
        while i < n
            invariant
                n == all.len(),
                i <= n,
                views == all.map_values(|s: SampleAbundance| (s.name@, s.dataset@)),
                forall|k: int| 0 <= k < all.len() ==> (#[trigger] all[k]).dataset.wf(),
                rest@ == all.subrange(i as int, n as int),
                r.wf(),
                r@.data == views.subrange(0, i as int),
                r@.unique_taxons == uniques_of(r@.data),
            decreases n - i,
        {
            let sample = rest.remove(0);
            assert(sample == all[i as int]);
            let ghost before = r@;
            r.add(sample);
            assert(r@.data =~= views.subrange(0, i + 1));
            assert(r@.data.drop_last() =~= before.data);
            assert(rest@ =~= all.subrange(i + 1, n as int));
            i = i + 1;
        }
        assert(views.subrange(0, n as int) =~= views);
        r
    }

    /// The taxa seen in any sample, in the order in which they were first seen.
    pub fn unique_taxons(&self) -> (r: &Vec<Taxon>)
        ensures
            r@.map_values(|t: Taxon| t@) == self@.unique_taxons,
    {
        &self.unique_taxons
    }
}

} // verus!
