use spideog::data::abundance::{AbundanceData, Fragments, SampleAbundance, Samples};
use spideog::errors::SpideogError;
use spideog::kraken::Taxon;
use spideog::taxonomy::Rank;

fn taxon(name: &str, id: u64) -> Taxon {
    Taxon { taxonomy_level: Rank::Species(0), name: name.to_string(), taxonomy_id: id }
}

fn reads(n: u64) -> Fragments {
    Fragments { clade_percentage: "1.5".to_string(), clade_count_reads: n, taxon_count_reads: n }
}

fn table(taxa: &[(&str, u64)]) -> AbundanceData {
    let mut d = AbundanceData::new();
    for (name, id) in taxa {
        d.insert(taxon(name, *id), reads(*id));
    }
    d
}

fn record(pct: &str, rank: &str, id: u64, name: &str) -> (String, u64, u64, String, u64, String) {
    (pct.to_string(), 100 + id, id, rank.to_string(), id, name.to_string())
}

#[test]
fn missing_taxa_are_added_as_zero() {
    let a = SampleAbundance::new("A".to_string(), table(&[("X", 1), ("Y", 2)]));
    let b = SampleAbundance::new("B".to_string(), table(&[("Y", 2), ("Z", 3)]));
    let mut samples = Samples::from_samples(vec![a, b]);
    assert_eq!(samples.unique_taxons(), &vec![taxon("X", 1), taxon("Y", 2), taxon("Z", 3)]);
    samples.add_missing_taxons();
    let all = samples.samples();
    for s in all {
        assert_eq!(s.dataset.len(), 3);
        for t in [taxon("X", 1), taxon("Y", 2), taxon("Z", 3)] {
            assert!(s.dataset.contains(&t));
        }
    }
    let z_in_a = all[0].dataset.get(&taxon("Z", 3)).unwrap();
    assert_eq!(z_in_a.clade_percentage, "0");
    assert_eq!(z_in_a.clade_count_reads, 0);
    assert_eq!(z_in_a.taxon_count_reads, 0);
    let x_in_b = all[1].dataset.get(&taxon("X", 1)).unwrap();
    assert_eq!(x_in_b.clade_count_reads, 0);
    assert_eq!(all[0].dataset.get(&taxon("X", 1)).unwrap().clade_count_reads, 1);
    assert_eq!(all[0].name, "A");
    assert_eq!(all[1].name, "B");
}

#[test]
fn adding_missing_taxa_twice_changes_nothing() {
    let a = SampleAbundance::new("A".to_string(), table(&[("X", 1)]));
    let b = SampleAbundance::new("B".to_string(), table(&[("Z", 3)]));
    let mut samples = Samples::from_samples(vec![a, b]);
    samples.add_missing_taxons();
    let first: Vec<Vec<Taxon>> = samples.samples().iter().map(|s| s.taxons()).collect();
    samples.add_missing_taxons();
    let second: Vec<Vec<Taxon>> = samples.samples().iter().map(|s| s.taxons()).collect();
    assert_eq!(first, second);
    assert_eq!(first[0], vec![taxon("X", 1), taxon("Z", 3)]);
    assert_eq!(first[1], vec![taxon("Z", 3), taxon("X", 1)]);
}

#[test]
fn insert_replaces_the_entry_of_a_taxon() {
    let mut d = AbundanceData::new();
    d.insert(taxon("X", 1), reads(1));
    d.insert(taxon("Y", 2), reads(2));
    d.insert(taxon("X", 1), reads(7));
    assert_eq!(d.len(), 2);
    assert_eq!(d.position(&taxon("X", 1)), Some(0));
    assert_eq!(d.get(&taxon("X", 1)).unwrap().clade_count_reads, 7);
    assert!(d.get(&taxon("Q", 9)).is_none());
    let (t, f) = d.entry(1);
    assert_eq!(t, &taxon("Y", 2));
    assert_eq!(f.taxon_count_reads, 2);
}

#[test]
fn table_from_records() {
    let records = vec![
        record("100.00", "R", 1, "root"),
        record(" 12.5 ", "D", 2, "  Bacteria"),
        record("3", "-", 3, "    Terrabacteria"),
    ];
    let d = AbundanceData::from_records(&records).unwrap();
    assert_eq!(d.len(), 3);
    let (t, f) = d.entry(1);
    assert_eq!(t.name, "Bacteria");
    assert_eq!(f.clade_percentage, "12.5");
    assert_eq!(f.clade_count_reads, 102);
    assert_eq!(f.taxon_count_reads, 2);
    let (t, _) = d.entry(2);
    assert_eq!(t.taxonomy_level, Rank::Domain(1));
}

#[test]
fn table_errors() {
    let bad = vec![record("1.0", "R", 1, "root"), record("1.2.3", "D", 2, "  a")];
    assert!(matches!(
        AbundanceData::from_records(&bad),
        Err(SpideogError::PercentageParsing(p)) if p == "1.2.3"
    ));
    let bad = vec![record("abc", "R", 1, "root")];
    assert!(matches!(AbundanceData::from_records(&bad), Err(SpideogError::PercentageParsing(_))));
    let bad = vec![record("1", "Q", 1, "root")];
    assert!(matches!(AbundanceData::from_records(&bad), Err(SpideogError::RankParsing(_))));
    assert!(Fragments::from_record(&record(".", "R", 1, "r")).is_err());
    assert!(Fragments::from_record(&record(".5", "R", 1, "r")).is_ok());
}

#[test]
fn the_first_failing_record_gives_the_table_error() {
    let records = vec![record("x", "R", 1, "root"), record("1", "Q", 2, "  a")];
    assert!(matches!(
        AbundanceData::from_records(&records),
        Err(SpideogError::PercentageParsing(p)) if p == "x"
    ));
    let records = vec![record("1", "Q", 1, "root"), record("x", "R", 2, "  a")];
    assert!(matches!(AbundanceData::from_records(&records), Err(SpideogError::RankParsing(_))));
    assert_eq!(AbundanceData::from_records(&vec![]).unwrap().len(), 0);
}

#[test]
fn samples_added_one_by_one() {
    let mut samples = Samples::new();
    samples.add(SampleAbundance::new("A".to_string(), table(&[("X", 1)])));
    samples.add(SampleAbundance::new("B".to_string(), table(&[("X", 1), ("W", 4)])));
    assert_eq!(samples.samples().len(), 2);
    assert_eq!(samples.unique_taxons(), &vec![taxon("X", 1), taxon("W", 4)]);
    assert_eq!(Fragments::zero().clade_percentage, "0");
}
