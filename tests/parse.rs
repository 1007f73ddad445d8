use ipv4_aggregator::parse::{parse_ipv4, parse_ipv4_addresses, AddressError};

#[test]
fn parses_dotted_decimal() {
    assert_eq!(parse_ipv4("192.168.34.2"), Ok([192, 168, 34, 2]));
    assert_eq!(parse_ipv4("0.0.0.0"), Ok([0, 0, 0, 0]));
    assert_eq!(parse_ipv4("255.255.255.255"), Ok([255, 255, 255, 255]));
    assert_eq!(parse_ipv4("+1.02.003.4"), Ok([1, 2, 3, 4]));
}

#[test]
fn rejects_wrong_part_counts() {
    assert_eq!(parse_ipv4("1.2.3"), Err(AddressError::WrongPartCount));
    assert_eq!(parse_ipv4("1.2.3.4.5"), Err(AddressError::WrongPartCount));
    assert_eq!(parse_ipv4("1234"), Err(AddressError::WrongPartCount));
    assert_eq!(parse_ipv4("1.2.3.x.5"), Err(AddressError::WrongPartCount));
}

#[test]
fn rejects_bad_octets() {
    assert_eq!(parse_ipv4("1..3.4"), Err(AddressError::EmptyOctet));
    assert_eq!(parse_ipv4("1.2.3."), Err(AddressError::EmptyOctet));
    assert_eq!(parse_ipv4("1.a.3.4"), Err(AddressError::InvalidDigit));
    assert_eq!(parse_ipv4("1.2.+.4"), Err(AddressError::InvalidDigit));
    assert_eq!(parse_ipv4("1.-2.3.4"), Err(AddressError::InvalidDigit));
    assert_eq!(parse_ipv4("1.2.3.256"), Err(AddressError::OctetTooLarge));
    assert_eq!(parse_ipv4("1.2.300x.4"), Err(AddressError::OctetTooLarge));
    assert_eq!(parse_ipv4("1.2.3x0.4"), Err(AddressError::InvalidDigit));
    assert_eq!(parse_ipv4("x.256.3.4"), Err(AddressError::InvalidDigit));
    assert_eq!(parse_ipv4("1.2.3.4 "), Err(AddressError::InvalidDigit));
}

#[test]
fn parses_lines_into_a_set() {
    let lines = vec![
        "10.0.0.1".to_string(),
        "".to_string(),
        "10.0.0.2".to_string(),
        "10.0.0.1".to_string(),
    ];
    let mut got = parse_ipv4_addresses(&lines).unwrap();
    got.sort();
    assert_eq!(got, vec![[10, 0, 0, 1], [10, 0, 0, 2]]);
    assert_eq!(parse_ipv4_addresses(&Vec::new()), Ok(Vec::new()));
}

#[test]
fn first_bad_line_fails_the_lot() {
    let lines = vec!["10.0.0.1".to_string(), "10.0.0".to_string(), "10.0.0.999".to_string()];
    assert_eq!(parse_ipv4_addresses(&lines), Err(AddressError::WrongPartCount));
}
