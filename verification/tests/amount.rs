//! Amounts as people write them.

use chroma::amount::{format_chr, parse_chr};

#[test]
fn whole_coins_parse() {
    assert_eq!(parse_chr("1").unwrap(), 1_000_000);
    assert_eq!(parse_chr("0").unwrap(), 0);
    assert_eq!(parse_chr("1354").unwrap(), 1_354_000_000);
}

#[test]
fn fractions_parse_to_the_unit() {
    assert_eq!(parse_chr("1.5").unwrap(), 1_500_000);
    assert_eq!(parse_chr("0.00001").unwrap(), 10);
    assert_eq!(parse_chr("0.000001").unwrap(), 1, "one unit");
    assert_eq!(parse_chr("1353.99999").unwrap(), 1_353_999_990);
}

#[test]
fn a_seventh_decimal_place_is_refused_not_rounded() {
    // The chain cannot represent it. Rounding it away would send an
    // amount the caller did not ask for, which is the one outcome a
    // money command must never have.
    let err = parse_chr("0.0000001").unwrap_err().message();
    assert!(err.contains("decimal places"), "{}", err);
}

#[test]
fn malformed_amounts_are_refused() {
    for bad in [
        "", " ", "-1", "+1", "1.", ".5", "1.2.3", "abc", "1e6", "1 000", "1,5",
    ] {
        assert!(parse_chr(bad).is_err(), "{:?} should not parse", bad);
    }
}

#[test]
fn an_amount_past_the_supply_is_out_of_range() {
    // 18_446_744_073_710 CHR overflows u64 units.
    assert!(parse_chr("18446744073710").is_err());
}

#[test]
fn formatting_is_exact() {
    assert_eq!(format_chr(0), "0");
    assert_eq!(format_chr(1), "0.000001");
    assert_eq!(format_chr(10), "0.00001");
    assert_eq!(format_chr(1_000_000), "1");
    assert_eq!(format_chr(1_500_000), "1.5");
    assert_eq!(format_chr(1_353_999_990), "1353.99999");
}

#[test]
fn formatting_and_parsing_agree() {
    for units in [0u64, 1, 10, 999_999, 1_000_000, 1_353_999_990, u64::MAX] {
        let rendered = format_chr(units);
        assert_eq!(
            parse_chr(&rendered).unwrap(),
            units,
            "{} rendered as {}",
            units,
            rendered
        );
    }
}
