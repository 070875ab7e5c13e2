use wgman::decimal::{parse_bounded, push_decimal, to_decimal};
use wgman::net::{Address, Endpoint, IpRange, RangeSyntaxError};
use wgman::utils::{deserialize_ipv4net, serialize_ipv4net};

#[test]
fn parse_bounded_reads_decimal_numbers() {
    assert_eq!(parse_bounded("0", u32::MAX), Some(0));
    assert_eq!(parse_bounded("123", u32::MAX), Some(123));
    assert_eq!(parse_bounded("+123", u32::MAX), Some(123));
    assert_eq!(parse_bounded("007", u32::MAX), Some(7));
    assert_eq!(parse_bounded("4294967295", u32::MAX), Some(4294967295));
    assert_eq!(parse_bounded("65535", 65535), Some(65535));
}

#[test]
fn parse_bounded_refuses_what_is_no_number() {
    assert_eq!(parse_bounded("", u32::MAX), None);
    assert_eq!(parse_bounded("+", u32::MAX), None);
    assert_eq!(parse_bounded("-1", u32::MAX), None);
    assert_eq!(parse_bounded("++1", u32::MAX), None);
    assert_eq!(parse_bounded("12a", u32::MAX), None);
    assert_eq!(parse_bounded(" 12", u32::MAX), None);
    assert_eq!(parse_bounded("12\n", u32::MAX), None);
    assert_eq!(parse_bounded("\u{661}\u{662}", u32::MAX), None);
}

#[test]
fn parse_bounded_refuses_what_exceeds_the_bound() {
    assert_eq!(parse_bounded("4294967296", u32::MAX), None);
    assert_eq!(parse_bounded("99999999999999999999", u32::MAX), None);
    assert_eq!(parse_bounded("65536", 65535), None);
    assert_eq!(parse_bounded("00000000000000000001", 5), Some(1));
    assert_eq!(parse_bounded("6", 5), None);
}

#[test]
fn parse_bounded_agrees_with_std() {
    for text in ["0", "1", "+7", "42", "4294967295", "4294967296", "", "+", "x", "1 ", "-0"] {
        assert_eq!(parse_bounded(text, u32::MAX), text.parse::<u32>().ok());
    }
}

#[test]
fn to_decimal_has_no_leading_zeros() {
    assert_eq!(to_decimal(0), "0");
    assert_eq!(to_decimal(7), "7");
    assert_eq!(to_decimal(10), "10");
    assert_eq!(to_decimal(51900), "51900");
    assert_eq!(to_decimal(u32::MAX), "4294967295");
}

#[test]
fn push_decimal_appends() {
    let mut text = "pid ".to_string();
    push_decimal(&mut text, 4321);
    assert_eq!(text, "pid 4321");
}

#[test]
fn decimal_round_trip() {
    for n in [0u32, 1, 9, 10, 99, 100, 65535, 65536, 1_000_000, u32::MAX] {
        assert_eq!(parse_bounded(&to_decimal(n), u32::MAX), Some(n));
    }
}

#[test]
fn address_from_octets_and_back() {
    let address = Address::from_octets(10, 33, 7, 2);
    assert_eq!(address.bits, 0x0a21_0702);
    assert_eq!(address.octets(), (10, 33, 7, 2));
    assert_eq!(Address::from_octets(0, 0, 0, 0).bits, 0);
    assert_eq!(Address::from_octets(255, 255, 255, 255).bits, u32::MAX);
    assert_eq!(Address { bits: 0x7f00_0001 }.octets(), (127, 0, 0, 1));
}

#[test]
fn address_to_text_is_dotted() {
    assert_eq!(Address::from_octets(10, 33, 7, 2).to_text(), "10.33.7.2");
    assert_eq!(Address::from_octets(0, 0, 0, 0).to_text(), "0.0.0.0");
    assert_eq!(Address::from_octets(255, 255, 255, 255).to_text(), "255.255.255.255");
}

#[test]
fn endpoint_holds_address_and_port() {
    let endpoint = Endpoint { address: Address::from_octets(127, 0, 0, 1), port: 51900 };
    assert_eq!(endpoint.address.octets(), (127, 0, 0, 1));
    assert_eq!(endpoint.port, 51900);
}

#[test]
fn range_new_checks_the_prefix() {
    let address = Address::from_octets(10, 33, 7, 0);
    assert_eq!(IpRange::new(address, 24), Some(IpRange { address, prefix_len: 24 }));
    assert_eq!(IpRange::new(address, 0), Some(IpRange { address, prefix_len: 0 }));
    assert_eq!(IpRange::new(address, 32), Some(IpRange { address, prefix_len: 32 }));
    assert_eq!(IpRange::new(address, 33), None);
    assert_eq!(IpRange::new(address, 255), None);
    assert_eq!(IpRange::host(address), IpRange { address, prefix_len: 32 });
}

#[test]
fn range_contains_by_prefix() {
    let range = IpRange::new(Address::from_octets(10, 33, 7, 0), 24).unwrap();
    assert!(range.contains(Address::from_octets(10, 33, 7, 0)));
    assert!(range.contains(Address::from_octets(10, 33, 7, 2)));
    assert!(range.contains(Address::from_octets(10, 33, 7, 255)));
    assert!(!range.contains(Address::from_octets(10, 33, 8, 0)));
    assert!(!range.contains(Address::from_octets(10, 33, 6, 255)));
    assert!(!range.contains(Address::from_octets(127, 0, 0, 1)));
}

#[test]
fn range_contains_ignores_host_bits_of_its_address() {
    let range = IpRange::new(Address::from_octets(10, 33, 7, 77), 24).unwrap();
    assert!(range.contains(Address::from_octets(10, 33, 7, 1)));
    assert!(!range.contains(Address::from_octets(10, 33, 9, 77)));
}

#[test]
fn range_contains_at_the_extremes() {
    let all = IpRange::new(Address::from_octets(10, 0, 0, 0), 0).unwrap();
    assert!(all.contains(Address::from_octets(0, 0, 0, 0)));
    assert!(all.contains(Address::from_octets(255, 255, 255, 255)));
    let one = IpRange::host(Address::from_octets(10, 0, 0, 1));
    assert!(one.contains(Address::from_octets(10, 0, 0, 1)));
    assert!(!one.contains(Address::from_octets(10, 0, 0, 0)));
    assert!(!one.contains(Address::from_octets(10, 0, 0, 2)));
    let odd = IpRange::new(Address::from_octets(192, 168, 0, 128), 25).unwrap();
    assert!(odd.contains(Address::from_octets(192, 168, 0, 200)));
    assert!(!odd.contains(Address::from_octets(192, 168, 0, 127)));
    let high = IpRange::new(Address::from_octets(128, 0, 0, 0), 1).unwrap();
    assert!(high.contains(Address::from_octets(200, 1, 2, 3)));
    assert!(!high.contains(Address::from_octets(127, 255, 255, 255)));
}

#[test]
fn range_parse_reads_cidr() {
    assert_eq!(
        IpRange::parse("10.33.7.0/24"),
        Ok(IpRange { address: Address::from_octets(10, 33, 7, 0), prefix_len: 24 })
    );
    assert_eq!(
        IpRange::parse("10.33.7.1/24"),
        Ok(IpRange { address: Address::from_octets(10, 33, 7, 1), prefix_len: 24 })
    );
    assert_eq!(
        IpRange::parse("0.0.0.0/0"),
        Ok(IpRange { address: Address::from_octets(0, 0, 0, 0), prefix_len: 0 })
    );
    assert_eq!(
        IpRange::parse("255.255.255.255/32"),
        Ok(IpRange::host(Address::from_octets(255, 255, 255, 255)))
    );
}

#[test]
fn range_parse_refuses_other_texts() {
    for text in ["", "10.33.7.0", "10.33.7.0/", "10.33.7.0/33", "10.33.7/24", "a.b.c.d/8",
        "10.33.7.0/24 ", " 10.33.7.0/24", "::1/128", "10.33.7.256/24"]
    {
        assert_eq!(IpRange::parse(text), Err(RangeSyntaxError));
    }
}

#[test]
fn range_to_text_is_cidr() {
    assert_eq!(IpRange::new(Address::from_octets(10, 33, 7, 0), 24).unwrap().to_text(), "10.33.7.0/24");
    assert_eq!(IpRange::new(Address::from_octets(0, 0, 0, 0), 0).unwrap().to_text(), "0.0.0.0/0");
    assert_eq!(IpRange::host(Address::from_octets(192, 168, 1, 200)).to_text(), "192.168.1.200/32");
}

#[test]
fn range_text_round_trip() {
    for (bits, prefix_len) in [(0u32, 0u8), (0x0a21_0700, 24), (0x0a21_0701, 24), (u32::MAX, 32), (0xc0a8_0180, 25)] {
        let range = IpRange::new(Address { bits }, prefix_len).unwrap();
        assert_eq!(IpRange::parse(&range.to_text()), Ok(range));
    }
}

#[test]
fn serialize_and_deserialize_ipv4net() {
    let range = IpRange::new(Address::from_octets(10, 33, 7, 0), 24).unwrap();
    assert_eq!(serialize_ipv4net(&range), "10.33.7.0/24");
    assert_eq!(deserialize_ipv4net("10.33.7.0/24"), Ok(range));
    assert_eq!(deserialize_ipv4net(&serialize_ipv4net(&range)), Ok(range));
    assert_eq!(deserialize_ipv4net("10.33.7.0-24"), Err(RangeSyntaxError));
}
