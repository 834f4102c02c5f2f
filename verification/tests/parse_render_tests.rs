use payments::parse::{amount_or_zero, parse_amount, parse_kind, parse_row, parse_u16, parse_u32, ParseError};
use payments::processor::TransactionKind;
use payments::render::render_amount;

fn text(units: i128) -> String {
    String::from_utf8(render_amount(units)).unwrap()
}

#[test]
fn parse_amount_plain_values() {
    assert_eq!(parse_amount(b"5.0"), Some(50_000));
    assert_eq!(parse_amount(b"1.2345"), Some(12_345));
    assert_eq!(parse_amount(b"3"), Some(30_000));
    assert_eq!(parse_amount(b"0"), Some(0));
    assert_eq!(parse_amount(b"-3"), Some(-30_000));
    assert_eq!(parse_amount(b"+2.5"), Some(25_000));
    assert_eq!(parse_amount(b"007.10"), Some(71_000));
}

#[test]
fn parse_amount_keeps_trailing_zero_fractions() {
    assert_eq!(parse_amount(b"0.00010"), Some(1));
    assert_eq!(parse_amount(b"2.50000000"), Some(25_000));
}

#[test]
fn parse_amount_rejects_bad_fields() {
    assert_eq!(parse_amount(b""), None);
    assert_eq!(parse_amount(b"abc"), None);
    assert_eq!(parse_amount(b"5."), None);
    assert_eq!(parse_amount(b".5"), None);
    assert_eq!(parse_amount(b"1.2.3"), None);
    assert_eq!(parse_amount(b"1,5"), None);
    assert_eq!(parse_amount(b"-"), None);
    assert_eq!(parse_amount(b"1.23456"), None);
    assert_eq!(parse_amount(b"12345678901234567890123456789012345678901234567890"), None);
}

#[test]
fn amount_or_zero_applies_the_tolerant_policy() {
    assert_eq!(amount_or_zero(b"4.25"), 42_500);
    assert_eq!(amount_or_zero(b""), 0);
    assert_eq!(amount_or_zero(b"oops"), 0);
    assert_eq!(amount_or_zero(b"1.00001"), 0);
}

#[test]
fn parse_identifiers() {
    assert_eq!(parse_u16(b"42"), Some(42));
    assert_eq!(parse_u16(b"+7"), Some(7));
    assert_eq!(parse_u16(b"007"), Some(7));
    assert_eq!(parse_u16(b"65535"), Some(65535));
    assert_eq!(parse_u16(b"65536"), None);
    assert_eq!(parse_u16(b""), None);
    assert_eq!(parse_u16(b"+"), None);
    assert_eq!(parse_u16(b"1x"), None);
    assert_eq!(parse_u16(b"99999999999999999999999"), None);
    assert_eq!(parse_u32(b"4294967295"), Some(4294967295));
    assert_eq!(parse_u32(b"4294967296"), None);
}

#[test]
fn parse_kind_matches_exact_lowercase_tags() {
    assert_eq!(parse_kind(b"deposit"), Some(TransactionKind::Deposit));
    assert_eq!(parse_kind(b"withdrawal"), Some(TransactionKind::Withdrawal));
    assert_eq!(parse_kind(b"dispute"), Some(TransactionKind::Dispute));
    assert_eq!(parse_kind(b"resolve"), Some(TransactionKind::Resolve));
    assert_eq!(parse_kind(b"chargeback"), Some(TransactionKind::Chargeback));
    assert_eq!(parse_kind(b"Deposit"), None);
    assert_eq!(parse_kind(b"deposits"), None);
    assert_eq!(parse_kind(b""), None);
}

#[test]
fn parse_row_builds_an_event() {
    let row = parse_row(b"deposit", b"1", b"2", b"5.0").unwrap();
    assert_eq!(row.kind, TransactionKind::Deposit);
    assert_eq!(row.client_id, 1);
    assert_eq!(row.txn_id, 2);
    assert_eq!(row.amount, 50_000);
}

#[test]
fn parse_row_defaults_bad_amounts_to_zero() {
    let row = parse_row(b"dispute", b"1", b"1", b"").unwrap();
    assert_eq!(row.amount, 0);
    let row = parse_row(b"deposit", b"1", b"1", b"junk").unwrap();
    assert_eq!(row.amount, 0);
}

#[test]
fn parse_row_rejects_structurally_bad_rows() {
    assert_eq!(parse_row(b"transfer", b"1", b"1", b"5.0"), Err(ParseError::BadKind));
    assert_eq!(parse_row(b"deposit", b"x", b"1", b"5.0"), Err(ParseError::BadClient));
    assert_eq!(parse_row(b"deposit", b"70000", b"1", b"5.0"), Err(ParseError::BadClient));
    assert_eq!(parse_row(b"deposit", b"1", b"y", b"5.0"), Err(ParseError::BadTransaction));
}

#[test]
fn render_amount_writes_four_fraction_digits() {
    assert_eq!(text(50_000), "5.0000");
    assert_eq!(text(0), "0.0000");
    assert_eq!(text(7), "0.0007");
    assert_eq!(text(12_345), "1.2345");
    assert_eq!(text(-12_345), "-1.2345");
    assert_eq!(text(1_000_000_000), "100000.0000");
}

#[test]
fn render_round_trips_through_parse() {
    for units in [0i128, 1, 42, 9_999, 10_000, 123_456_789, -1, -50_000] {
        assert_eq!(parse_amount(text(units).as_bytes()), Some(units));
    }
}
