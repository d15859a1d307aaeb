use netrangemerge::{
    expand_ranges, parse_single_line_ranges, CloudName, Ipv4Range, Ipv6Range, MergeOptions,
    MetadataValue, Network, NetworkInterest, RangesWithMetadata,
};
use netrangemerge::{IpRange, Range, RangeInterest};

#[test]
fn test_range_interest_accessors() {
    let range: IpRange = "127.0.0.0/24".parse().unwrap();
    let mut n = RangeInterest::new(range, false);
    assert_eq!(*n.range(), range);
    assert!(!n.is_selected());
    n.set_selected(true);
    assert!(n.is_selected());
    let wider: IpRange = "127.0.0.0/16".parse().unwrap();
    *n.range_mut() = wider;
    assert_eq!(n.unwrap(), wider);
}

#[test]
fn test_expand_ranges() {
    let mut ranges = vec![
        RangeInterest::new("127.0.4.0/24".parse().unwrap(), true),
        RangeInterest::new("127.0.0.0/8".parse().unwrap(), false),
        RangeInterest::new("fe80::1:0/112".parse().unwrap(), true),
    ];
    expand_ranges(&mut ranges, Some(16), Some(64));
    assert_eq!(*ranges[0].range(), "127.0.0.0/16".parse().unwrap());
    assert!(ranges[0].is_selected());
    assert_eq!(*ranges[1].range(), "127.0.0.0/8".parse().unwrap());
    assert!(!ranges[1].is_selected());
    assert_eq!(*ranges[2].range(), "fe80::/64".parse().unwrap());
    assert_eq!(ranges[2].range().prefix_length(), 64);
}

#[test]
fn test_parse_single_line_ranges() {
    let lines = vec![
        String::from("127.0.0.0/24"),
        String::from("10.0.0.0/8"),
        String::from("::/0"),
    ];
    let mut ranges: Vec<RangeInterest<IpRange>> = Vec::new();
    parse_single_line_ranges(&lines, &mut ranges, true).unwrap();
    assert_eq!(ranges.len(), 3);
    assert_eq!(*ranges[2].range(), "::/0".parse().unwrap());
    assert!(ranges[0].is_selected());

    let bad = vec![String::from("127.0.0.0/24"), String::from("bogus")];
    let mut ranges2: Vec<RangeInterest<IpRange>> = Vec::new();
    assert!(parse_single_line_ranges(&bad, &mut ranges2, false).is_err());
    assert_eq!(ranges2.len(), 1);
}

#[test]
fn test_family_specific_ranges() {
    let four = Ipv4Range::new(0x7f000000, 8).unwrap();
    assert!(!four.is_ipv6());
    assert_eq!(four.host_address(), 0x7f000000u128);
    assert!(Ipv4Range::new(0x7f000001, 8).is_err());
    let six = Ipv6Range::new(0, 0).unwrap();
    assert!(six.is_ipv6());
    assert!(six.contains(&Ipv6Range::new(8, 125).unwrap()));
    assert!(Ipv6Range::new(1, 12).is_err());
}

#[test]
fn test_network_interest() {
    let net: IpRange = "127.0.0.0/24".parse().unwrap();
    let n = NetworkInterest::new(net, true);
    assert!(n.is_interesting());
    assert_eq!(Network::network_length(n.network()), 24);
    assert_eq!(Network::host_address(n.network()), 0x7f000000u128);
}

#[test]
fn test_options_and_metadata() {
    let group = RangesWithMetadata::new(
        vec![(String::from("region"), MetadataValue::Text(String::from("us-east-1")))],
        vec!["127.0.0.0/24".parse().unwrap()],
    );
    let (metadata, ranges) = group.into_parts();
    assert_eq!(metadata.len(), 1);
    assert_eq!(ranges.len(), 1);
    let options = MergeOptions {
        file: String::from("-"),
        extra_ranges_files: Vec::new(),
        min_ipv4_network_size: Some(24),
        min_ipv6_network_size: None,
    };
    assert_eq!(options.file, "-");
    let service = CloudName::Aws;
    assert_eq!(service, CloudName::Aws);
}
