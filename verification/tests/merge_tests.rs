use netrangemerge::{merge_ranges_slice, IpRange, Range, RangeInterest};
use std::cmp::Ordering;

// ASSUMES: No Dummies
// IPV4 then IPV6
// Smaller addresses to bigger addresses
// Bigger ranges to smaller ranges
fn sort_standard<R: Range>(a: &RangeInterest<R>, b: &RangeInterest<R>) -> Ordering {
    let ipv4_first = a.range().is_ipv6().cmp(&b.range().is_ipv6());
    let smaller_addresses_first = a.range().host_address().cmp(&b.range().host_address());
    let bigger_ranges_first = a.range().prefix_length().cmp(&b.range().prefix_length());
    ipv4_first
        .then(smaller_addresses_first)
        .then(bigger_ranges_first)
}

#[test]
fn test_remove_overlapping_ranges_1() {
    let mut ranges: Vec<RangeInterest<IpRange>> = vec![
        RangeInterest::new("127.0.0.8/29".parse().unwrap(), false),
        RangeInterest::new("127.0.0.16/29".parse().unwrap(), true),
        RangeInterest::new("0.0.0.0/0".parse().unwrap(), false),
    ];
    let len = merge_ranges_slice(&mut ranges);
    ranges.truncate(len);
    ranges.sort_unstable_by(sort_standard);
    assert_eq!(ranges.len(), 1);
    assert_eq!(
        ranges[0],
        RangeInterest::new("0.0.0.0/0".parse().unwrap(), true)
    );
}

#[test]
fn test_remove_overlapping_ranges_2() {
    let mut ranges: Vec<RangeInterest<IpRange>> = vec![
        RangeInterest::new("127.0.0.0/32".parse().unwrap(), false),
        RangeInterest::new("127.0.0.1/32".parse().unwrap(), true),
        RangeInterest::new("127.0.0.0/31".parse().unwrap(), true),
        RangeInterest::new("127.0.1.0/32".parse().unwrap(), false),
        RangeInterest::new("127.0.1.1/32".parse().unwrap(), false),
        RangeInterest::new("127.0.1.0/31".parse().unwrap(), false),
    ];
    let len = merge_ranges_slice(&mut ranges);
    ranges.truncate(len);
    ranges.sort_unstable_by(sort_standard);
    assert_eq!(ranges.len(), 2);
    assert_eq!(
        ranges[0],
        RangeInterest::new("127.0.0.0/31".parse().unwrap(), true)
    );
    assert_eq!(
        ranges[1],
        RangeInterest::new("127.0.1.0/31".parse().unwrap(), false)
    );
}

#[test]
fn test_merge_1() {
    let mut ranges: Vec<RangeInterest<IpRange>> = vec![
        RangeInterest::new("127.0.0.0/31".parse().unwrap(), false),
        RangeInterest::new("127.0.0.2/31".parse().unwrap(), true),
        RangeInterest::new("127.0.0.4/31".parse().unwrap(), true),
        RangeInterest::new("127.0.0.8/31".parse().unwrap(), true),
        RangeInterest::new("127.0.0.10/31".parse().unwrap(), true),
    ];
    let len = merge_ranges_slice(&mut ranges);
    ranges.truncate(len);
    ranges.sort_unstable_by(sort_standard);
    assert_eq!(ranges.len(), 3);
    assert_eq!(
        ranges[0],
        RangeInterest::new("127.0.0.0/30".parse().unwrap(), true)
    );
    assert_eq!(
        ranges[1],
        RangeInterest::new("127.0.0.4/31".parse().unwrap(), true)
    );
    assert_eq!(
        ranges[2],
        RangeInterest::new("127.0.0.8/30".parse().unwrap(), true)
    );
}

#[test]
fn test_merge_2() {
    let mut ranges: Vec<RangeInterest<IpRange>> = vec![
        RangeInterest::new("127.0.0.0/31".parse().unwrap(), false),
        RangeInterest::new("127.0.0.2/31".parse().unwrap(), true),
        RangeInterest::new("127.0.0.4/31".parse().unwrap(), true),
        RangeInterest::new("127.0.0.6/31".parse().unwrap(), true),
    ];
    let len = merge_ranges_slice(&mut ranges);
    ranges.truncate(len);
    ranges.sort_unstable_by(sort_standard);
    assert_eq!(ranges.len(), 1);
    assert_eq!(
        ranges[0],
        RangeInterest::new("127.0.0.0/29".parse().unwrap(), true)
    );
}

#[test]
fn test_merge_3() {
    let mut ranges: Vec<RangeInterest<IpRange>> = vec![
        RangeInterest::new("127.0.0.0/31".parse().unwrap(), false),
        RangeInterest::new("127.0.0.2/31".parse().unwrap(), true),
        RangeInterest::new("127.0.0.0/30".parse().unwrap(), true),
        RangeInterest::new("127.0.0.4/30".parse().unwrap(), true),
        RangeInterest::new("127.0.0.8/31".parse().unwrap(), true),
        RangeInterest::new("127.0.0.10/31".parse().unwrap(), true),
        RangeInterest::new("127.0.4.0/23".parse().unwrap(), true),
        RangeInterest::new("127.0.6.0/23".parse().unwrap(), true),
    ];
    let len = merge_ranges_slice(&mut ranges);
    ranges.truncate(len);
    ranges.sort_unstable_by(sort_standard);
    assert_eq!(ranges.len(), 3);
    assert_eq!(
        ranges[0],
        RangeInterest::new("127.0.0.0/29".parse().unwrap(), true)
    );
    assert_eq!(
        ranges[1],
        RangeInterest::new("127.0.0.8/30".parse().unwrap(), true)
    );
    assert_eq!(
        ranges[2],
        RangeInterest::new("127.0.4.0/22".parse().unwrap(), true)
    );
}

#[test]
fn test_merge_idempotent_rerun() {
    let mut ranges: Vec<RangeInterest<IpRange>> = vec![
        RangeInterest::new("127.0.0.0/31".parse().unwrap(), false),
        RangeInterest::new("127.0.0.2/31".parse().unwrap(), true),
        RangeInterest::new("10.0.0.0/8".parse().unwrap(), true),
    ];
    let len = merge_ranges_slice(&mut ranges);
    ranges.truncate(len);
    ranges.sort_unstable_by(sort_standard);
    let first: Vec<RangeInterest<IpRange>> = ranges.clone();
    let len2 = merge_ranges_slice(&mut ranges);
    ranges.truncate(len2);
    ranges.sort_unstable_by(sort_standard);
    assert_eq!(first, ranges);
}

#[test]
fn test_merge_mixed_families() {
    let mut ranges: Vec<RangeInterest<IpRange>> = vec![
        RangeInterest::new("::/128".parse().unwrap(), true),
        RangeInterest::new("127.0.0.0/32".parse().unwrap(), true),
        RangeInterest::new("::1/128".parse().unwrap(), true),
        RangeInterest::new("127.0.0.1/32".parse().unwrap(), true),
    ];
    let len = merge_ranges_slice(&mut ranges);
    ranges.truncate(len);
    ranges.sort_unstable_by(sort_standard);
    assert_eq!(ranges.len(), 2);
    assert_eq!(
        ranges[0],
        RangeInterest::new("127.0.0.0/31".parse().unwrap(), true)
    );
    assert_eq!(
        ranges[1],
        RangeInterest::new("::/127".parse().unwrap(), true)
    );
}

#[test]
fn test_merge_ranges_truncates() {
    let mut ranges: Vec<RangeInterest<IpRange>> = vec![
        RangeInterest::new("127.0.0.0/25".parse().unwrap(), true),
        RangeInterest::new("127.0.0.128/25".parse().unwrap(), false),
    ];
    netrangemerge::merge_ranges(&mut ranges);
    assert_eq!(ranges.len(), 1);
    assert_eq!(
        ranges[0],
        RangeInterest::new("127.0.0.0/24".parse().unwrap(), true)
    );
}

#[test]
fn test_merge_empty() {
    let mut ranges: Vec<RangeInterest<IpRange>> = Vec::new();
    let len = merge_ranges_slice(&mut ranges);
    assert_eq!(len, 0);
}

#[test]
fn test_merge_does_not_increase() {
    let mut ranges: Vec<RangeInterest<IpRange>> = vec![
        RangeInterest::new("127.0.0.0/32".parse().unwrap(), true),
        RangeInterest::new("127.0.0.2/32".parse().unwrap(), true),
        RangeInterest::new("127.0.0.4/32".parse().unwrap(), true),
    ];
    let len = merge_ranges_slice(&mut ranges);
    assert!(len <= 3);
    ranges.truncate(len);
    assert_eq!(ranges.len(), 3);
}
