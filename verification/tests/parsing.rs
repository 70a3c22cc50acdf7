use xaffinity::parse::criterion_from_name;
use xaffinity::{Affinity, AffinityPair, ParseError};

#[test]
fn test_affinity_pair_parsing() {
    assert_eq!(
        AffinityPair(Affinity::Largest, true),
        "largest".parse().unwrap()
    );
    assert_eq!(
        AffinityPair(Affinity::Largest, false),
        "not-largest".parse().unwrap()
    );
}

#[test]
fn every_criterion_is_read_by_its_name() {
    let names = [
        ("primary", Affinity::Primary),
        ("nonprimary", Affinity::Nonprimary),
        ("largest", Affinity::Largest),
        ("smallest", Affinity::Smallest),
        ("leftmost", Affinity::Leftmost),
        ("rightmost", Affinity::Rightmost),
        ("topmost", Affinity::Topmost),
        ("bottommost", Affinity::Bottommost),
        ("portrait", Affinity::Portrait),
        ("landscape", Affinity::Landscape),
    ];
    for (name, criterion) in names {
        assert_eq!(criterion_from_name(name), Some(criterion));
        assert_eq!(AffinityPair::parse(name), Ok(AffinityPair(criterion, true)));
        let negated = format!("not-{}", name);
        assert_eq!(
            AffinityPair::parse(&negated),
            Ok(AffinityPair(criterion, false))
        );
    }
}

#[test]
fn from_str_agrees_with_parse() {
    let term: Result<AffinityPair, ParseError> = "not-topmost".parse();
    assert_eq!(term, Ok(AffinityPair(Affinity::Topmost, false)));
    let bad: Result<AffinityPair, ParseError> = "very-large".parse();
    assert_eq!(bad, Err(ParseError::InvalidAffinity));
}

#[test]
fn unknown_names_are_refused() {
    assert_eq!(AffinityPair::parse("biggest"), Err(ParseError::UnknownCriterion));
    assert_eq!(AffinityPair::parse(""), Err(ParseError::UnknownCriterion));
    assert_eq!(AffinityPair::parse("Largest"), Err(ParseError::UnknownCriterion));
    assert_eq!(AffinityPair::parse("largest "), Err(ParseError::UnknownCriterion));
    assert_eq!(AffinityPair::parse("not-"), Err(ParseError::UnknownCriterion));
    assert_eq!(AffinityPair::parse("not-biggest"), Err(ParseError::UnknownCriterion));
    assert_eq!(criterion_from_name("not"), None);
}

#[test]
fn a_first_piece_other_than_not_is_refused() {
    assert_eq!(AffinityPair::parse("non-primary"), Err(ParseError::InvalidAffinity));
    assert_eq!(AffinityPair::parse("-largest"), Err(ParseError::InvalidAffinity));
    assert_eq!(AffinityPair::parse("Not-largest"), Err(ParseError::InvalidAffinity));
    assert_eq!(AffinityPair::parse("largest-"), Err(ParseError::InvalidAffinity));
    assert_eq!(AffinityPair::parse("-"), Err(ParseError::InvalidAffinity));
    assert_eq!(AffinityPair::parse("not--largest"), Err(ParseError::InvalidAffinity));
    assert_eq!(AffinityPair::parse("nöt-largest"), Err(ParseError::InvalidAffinity));
}

#[test]
fn pieces_behind_the_criterion_are_refused() {
    assert_eq!(
        AffinityPair::parse("not-largest-at-all"),
        Err(ParseError::InvalidAffinity)
    );
    assert_eq!(AffinityPair::parse("not-primary-"), Err(ParseError::InvalidAffinity));
    assert_eq!(AffinityPair::parse("not-largest-extra"), Err(ParseError::InvalidAffinity));
    assert_eq!(AffinityPair::parse("not-not-largest"), Err(ParseError::InvalidAffinity));
    assert_eq!(AffinityPair::parse("not-biggest-"), Err(ParseError::InvalidAffinity));
    assert_eq!(AffinityPair::parse("not--"), Err(ParseError::InvalidAffinity));
    let term: Result<AffinityPair, ParseError> = "not-largest-extra".parse();
    assert!(term.is_err());
}

#[test]
fn errors_describe_themselves() {
    assert_eq!(ParseError::InvalidAffinity.message(), "invalid affinity");
    assert_eq!(ParseError::UnknownCriterion.message(), "unknown affinity");
}
