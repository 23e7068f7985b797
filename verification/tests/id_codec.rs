//! The canonical text form of identities: encode, parse, and their
//! round-trip.

use ark_tags::id::{Id, ParseError};

#[test]
fn encode_canonical_form() {
    let id = Id { size: 1024, hash: 305419896 };
    assert_eq!(id.encode(), "s1024_h305419896");
}

#[test]
fn encode_zero() {
    let id = Id { size: 0, hash: 0 };
    assert_eq!(id.encode(), "s0_h0");
}

#[test]
fn encode_max_values() {
    let id = Id { size: u64::MAX, hash: u32::MAX };
    assert_eq!(id.encode(), "s18446744073709551615_h4294967295");
}

#[test]
fn round_trip_simple() {
    let id = Id { size: 1024, hash: 305419896 };
    assert_eq!(Id::parse(&id.encode()), Ok(id));
}

#[test]
fn round_trip_zero_and_max() {
    for id in [
        Id { size: 0, hash: 0 },
        Id { size: u64::MAX, hash: u32::MAX },
        Id { size: 1, hash: 0 },
        Id { size: 0, hash: 1 },
        Id { size: 987654321012345678, hash: 87654321 },
    ] {
        assert_eq!(Id::parse(&id.encode()), Ok(id));
    }
}

#[test]
fn parse_exact_value() {
    assert_eq!(Id::parse("s42_h7"), Ok(Id { size: 42, hash: 7 }));
}

#[test]
fn parse_accepts_leading_zeros() {
    assert_eq!(Id::parse("s007_h05"), Ok(Id { size: 7, hash: 5 }));
}

#[test]
fn parse_missing_separator_is_not_enough_tokens() {
    assert_eq!(Id::parse(""), Err(ParseError::NotEnoughTokens));
    assert_eq!(Id::parse("s12h5"), Err(ParseError::NotEnoughTokens));
    assert_eq!(Id::parse("plainname"), Err(ParseError::NotEnoughTokens));
}

#[test]
fn parse_malformed_tokens_are_unexpected_token() {
    // no digits before the separator
    assert_eq!(Id::parse("s_h5"), Err(ParseError::UnexpectedToken));
    // missing the leading marker
    assert_eq!(Id::parse("1_h5"), Err(ParseError::UnexpectedToken));
    // wrong marker after the separator
    assert_eq!(Id::parse("s1_x5"), Err(ParseError::UnexpectedToken));
    // no digits after the second marker
    assert_eq!(Id::parse("s1_h"), Err(ParseError::UnexpectedToken));
    // non-digit inside a number
    assert_eq!(Id::parse("s1a_h5"), Err(ParseError::UnexpectedToken));
    // trailing garbage
    assert_eq!(Id::parse("s1_h2_x"), Err(ParseError::UnexpectedToken));
}

#[test]
fn parse_overflow_is_unexpected_token() {
    // one past u64::MAX
    assert_eq!(
        Id::parse("s18446744073709551616_h1"),
        Err(ParseError::UnexpectedToken)
    );
    // one past u32::MAX
    assert_eq!(Id::parse("s1_h4294967296"), Err(ParseError::UnexpectedToken));
    // the maxima themselves still parse
    assert_eq!(
        Id::parse("s18446744073709551615_h4294967295"),
        Ok(Id {
            size: u64::MAX,
            hash: u32::MAX
        })
    );
}

#[test]
fn id_ordering_by_size_then_hash() {
    let a = Id { size: 1, hash: 9 };
    let b = Id { size: 2, hash: 0 };
    let c = Id { size: 2, hash: 1 };
    assert!(a < b && b < c);
}
