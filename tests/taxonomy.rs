use spideog::errors::TaxRankParsingError;
use spideog::taxonomy::{parse_taxonomy_level, Rank};

#[test]
fn test_order_taxonomy() {
    assert!(Rank::Domain(0) > Rank::Root(1));
    assert!(Rank::Domain(1) > Rank::Domain(0))
}

#[test]
fn test_parse_tax_level() {
    let cases = vec![
        ("U", Rank::Unclassified(0)),
        ("U1", Rank::Unclassified(1)),
        ("R", Rank::Root(0)),
        ("R1", Rank::Root(1)),
        ("P", Rank::Phylum(0)),
        ("P1", Rank::Phylum(1)),
        ("C", Rank::Class(0)),
        ("C1", Rank::Class(1)),
        ("O", Rank::Order(0)),
        ("O1", Rank::Order(1)),
        ("F", Rank::Family(0)),
        ("F1", Rank::Family(1)),
        ("S", Rank::Species(0)),
        ("S1", Rank::Species(1)),
    ];
    for (input, expected) in cases {
        assert_eq!(parse_taxonomy_level(input, None).unwrap(), expected);
    }
}

#[test]
fn test_plus_one() {
    assert_eq!(Rank::Kingdom(2).plus_one(), Rank::Kingdom(3))
}

#[test]
#[should_panic]
fn test_parse_tax_level_error_too_long() {
    parse_taxonomy_level("R11111", None).unwrap();
}

#[test]
#[should_panic]
fn test_parse_tax_level_error_invalid_code() {
    parse_taxonomy_level("L4", None).unwrap();
}

#[test]
#[should_panic]
fn test_parse_tax_level_error_offsetnotanumber() {
    parse_taxonomy_level("RR", None).unwrap();
}

#[test]
#[should_panic]
fn test_parse_tax_level_error_cannotinferprevious() {
    parse_taxonomy_level("-", None).unwrap();
}

#[test]
fn rank_codes_and_continuation() {
    assert_eq!(parse_taxonomy_level("R", None).unwrap(), Rank::Root(0));
    assert_eq!(parse_taxonomy_level("R1", None).unwrap(), Rank::Root(1));
    assert_eq!(parse_taxonomy_level("-", Some(Rank::Root(1))).unwrap(), Rank::Root(2));
    assert!(matches!(
        parse_taxonomy_level("-", None),
        Err(TaxRankParsingError::TaxRankParsingCannotInferRank(s)) if s == "-"
    ));
}

#[test]
fn rank_errors_carry_the_code() {
    assert!(matches!(
        parse_taxonomy_level("R11111", None),
        Err(TaxRankParsingError::InvalidLength(s, 6)) if s == "R11111"
    ));
    assert!(matches!(
        parse_taxonomy_level("", None),
        Err(TaxRankParsingError::InvalidLength(s, 0)) if s.is_empty()
    ));
    assert!(matches!(
        parse_taxonomy_level("L4", None),
        Err(TaxRankParsingError::InvalidRankCode(s, 'L')) if s == "L4"
    ));
    assert!(matches!(
        parse_taxonomy_level("RR", None),
        Err(TaxRankParsingError::OffsetNotANumber(s, 'R')) if s == "RR"
    ));
    assert!(matches!(
        parse_taxonomy_level("LR", None),
        Err(TaxRankParsingError::OffsetNotANumber(_, 'R'))
    ));
}

#[test]
fn continuation_keeps_the_level_and_stops_at_the_largest_offset() {
    assert_eq!(parse_taxonomy_level("-", Some(Rank::Genus(7))).unwrap(), Rank::Genus(8));
    assert!(matches!(
        parse_taxonomy_level("-", Some(Rank::Genus(u32::MAX))),
        Err(TaxRankParsingError::TaxRankParsingCannotInferRank(_))
    ));
    assert_eq!(parse_taxonomy_level("D9", Some(Rank::Genus(7))).unwrap(), Rank::Domain(9));
}

#[test]
fn rank_order_helpers() {
    assert!(Rank::Root(9).precedes(&Rank::Domain(0)));
    assert!(Rank::Domain(0).precedes(&Rank::Domain(1)));
    assert!(!Rank::Species(0).precedes(&Rank::Genus(5)));
    assert_eq!(Rank::Species(4).level(), 9);
    assert_eq!(Rank::Species(4).offset(), 4);
}

#[test]
fn rank_short_codes() {
    assert_eq!(Rank::Domain(1).code(), "D1");
    assert_eq!(Rank::Unclassified(0).code(), "U0");
    assert_eq!(Rank::Species(12).code(), "S12");
}
