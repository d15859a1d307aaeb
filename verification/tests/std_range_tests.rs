use netrangemerge::{InvalidRangeError, IpRange, Range, RangeParseError};

#[test]
fn std_range_test_new_ipv4() {
    IpRange::new("0.0.0.0".parse().unwrap(), 0).unwrap();
    IpRange::new("127.0.0.0".parse().unwrap(), 12).unwrap();
    IpRange::new("127.0.8.0".parse().unwrap(), 21).unwrap();

    match IpRange::new("127.0.0.1".parse().unwrap(), 12) {
        Err(InvalidRangeError::InvalidHostAddress(_)) => {}
        _ => panic!("Expected InvalidHostAddress failure"),
    }

    match IpRange::new("127.0.0.0".parse().unwrap(), 99) {
        Err(InvalidRangeError::InvalidPrefixLength(_)) => {}
        _ => panic!("Expected InvalidPrefixLength failure"),
    }

    match IpRange::new("127.0.0.0".parse().unwrap(), 0) {
        Err(InvalidRangeError::InvalidHostAddress(_)) => {}
        _ => panic!("Expected InvalidHostAddress failure"),
    }
}

#[test]
fn std_range_test_parsing_ipv4() {
    "0.0.0.0/0".parse::<IpRange>().unwrap();
    "127.0.0.0/12".parse::<IpRange>().unwrap();
    "127.0.8.0/21".parse::<IpRange>().unwrap();

    match "127.0.0.1/12".parse::<IpRange>() {
        Err(RangeParseError::InvalidHostAddress(_)) => {}
        _ => panic!("Expected InvalidHostAddress failure"),
    }

    match "127.0.0.0/99".parse::<IpRange>() {
        Err(RangeParseError::InvalidPrefixLength(_)) => {}
        _ => panic!("Expected InvalidPrefixLength failure"),
    }

    match "127.0.0.0/0".parse::<IpRange>() {
        Err(RangeParseError::InvalidHostAddress(_)) => {}
        _ => panic!("Expected InvalidHostAddress failure"),
    }

    match "127.0.0.0x12".parse::<IpRange>() {
        Err(RangeParseError::UnparseableRange(_)) => {}
        _ => panic!("Expected UnparseableRange failure"),
    }

    match "127.0.0x0/12".parse::<IpRange>() {
        Err(RangeParseError::UnparseableRange(_)) => {}
        _ => panic!("Expected UnparseableRange failure"),
    }

    match "127.0.0.0/x".parse::<IpRange>() {
        Err(RangeParseError::UnparseableRange(_)) => {}
        _ => panic!("Expected UnparseableRange failure"),
    }

    match "127.0.0.0/".parse::<IpRange>() {
        Err(RangeParseError::UnparseableRange(_)) => {}
        _ => panic!("Expected UnparseableRange failure"),
    }
}

#[test]
fn std_range_test_new_ipv6() {
    IpRange::new("::".parse().unwrap(), 0).unwrap();
    IpRange::new("::".parse().unwrap(), 125).unwrap();
    IpRange::new("::8".parse().unwrap(), 125).unwrap();

    match IpRange::new("::1".parse().unwrap(), 12) {
        Err(InvalidRangeError::InvalidHostAddress(_)) => {}
        _ => panic!("Expected InvalidHostAddress failure"),
    }

    match IpRange::new("::".parse().unwrap(), 129) {
        Err(InvalidRangeError::InvalidPrefixLength(_)) => {}
        _ => panic!("Expected InvalidPrefixLength failure"),
    }

    match IpRange::new("::8".parse().unwrap(), 0) {
        Err(InvalidRangeError::InvalidHostAddress(_)) => {}
        _ => panic!("Expected InvalidHostAddress failure"),
    }
}

#[test]
fn std_range_test_parsing_ipv6() {
    "::/0".parse::<IpRange>().unwrap();
    "::/125".parse::<IpRange>().unwrap();
    "::8/125".parse::<IpRange>().unwrap();

    match "::1/12".parse::<IpRange>() {
        Err(RangeParseError::InvalidHostAddress(_)) => {}
        _ => panic!("Expected InvalidHostAddress failure"),
    }

    match "::/129".parse::<IpRange>() {
        Err(RangeParseError::InvalidPrefixLength(_)) => {}
        _ => panic!("Expected InvalidPrefixLength failure"),
    }

    match "::8/1".parse::<IpRange>() {
        Err(RangeParseError::InvalidHostAddress(_)) => {}
        _ => panic!("Expected InvalidHostAddress failure"),
    }

    match "::8x125".parse::<IpRange>() {
        Err(RangeParseError::UnparseableRange(_)) => {}
        _ => panic!("Expected UnparseableRange failure"),
    }

    match "::x/125".parse::<IpRange>() {
        Err(RangeParseError::UnparseableRange(_)) => {}
        _ => panic!("Expected UnparseableRange failure"),
    }

    match "::8/x".parse::<IpRange>() {
        Err(RangeParseError::UnparseableRange(_)) => {}
        _ => panic!("Expected UnparseableRange failure"),
    }

    match "::8/".parse::<IpRange>() {
        Err(RangeParseError::UnparseableRange(_)) => {}
        _ => panic!("Expected UnparseableRange failure"),
    }
}

#[test]
fn test_parsing_ipv6_forms() {
    "1:2:3:4:5:6:7:8/128".parse::<IpRange>().unwrap();
    "fe80::/10".parse::<IpRange>().unwrap();
    "2600:1f18:e2f:2000::/56".parse::<IpRange>().unwrap();
    "a:b::c:d/128".parse::<IpRange>().unwrap();
    assert!("1:2:3:4:5:6:7:8:9/128".parse::<IpRange>().is_err());
    assert!("1::2::3/128".parse::<IpRange>().is_err());
    assert!(":1:2:3:4:5:6:7/128".parse::<IpRange>().is_err());
    assert!("1:2:3:4:5:6:7:/128".parse::<IpRange>().is_err());
    assert!("12345::/32".parse::<IpRange>().is_err());
}

#[test]
fn test_range_accessors() {
    let r: IpRange = "127.0.4.0/22".parse().unwrap();
    assert_eq!(r.host_address(), 0x7f000400u128);
    assert_eq!(r.prefix_length(), 22);
    assert!(!r.is_ipv6());
    let inner: IpRange = "127.0.5.0/24".parse().unwrap();
    assert!(r.contains(&inner));
    assert!(!inner.contains(&r));
    let parent = "127.0.4.0/23".parse::<IpRange>().unwrap().embiggen();
    assert_eq!(parent, Some("127.0.4.0/22".parse().unwrap()));
    let no_parent = "127.0.6.0/23".parse::<IpRange>().unwrap().embiggen();
    assert_eq!(no_parent, None);
}
