use subnet_scanner::cidr::{address_part, expand_cidr, IpAddress, TargetError};
use subnet_scanner::render::ipv4_chars;

fn text(h: &IpAddress) -> String {
    match h {
        IpAddress::V4(a) => ipv4_chars(*a).iter().collect(),
        IpAddress::V6(x) => format!("{x:x}"),
    }
}

#[test]
fn test_expand_cidr_single_host() {
    let hosts = expand_cidr("192.168.1.1", None).unwrap();
    assert_eq!(hosts.len(), 1);
    assert_eq!(text(&hosts[0]), "192.168.1.1");
}

#[test]
fn test_expand_cidr_slash_32() {
    let hosts = expand_cidr("10.0.0.5/32", None).unwrap();
    assert_eq!(hosts.len(), 1);
    assert_eq!(text(&hosts[0]), "10.0.0.5");
}

#[test]
fn test_expand_cidr_slash_24() {
    let hosts = expand_cidr("192.168.1.0/24", None).unwrap();
    assert_eq!(hosts.len(), 254);
    assert_eq!(text(&hosts[0]), "192.168.1.1");
    assert_eq!(text(&hosts[253]), "192.168.1.254");
}

#[test]
fn test_expand_cidr_slash_30() {
    let hosts = expand_cidr("10.0.0.0/30", None).unwrap();
    assert_eq!(hosts.len(), 2);
    assert_eq!(text(&hosts[0]), "10.0.0.1");
    assert_eq!(text(&hosts[1]), "10.0.0.2");
}

#[test]
fn test_expand_cidr_invalid_ip() {
    assert!(expand_cidr("not-an-ip", None).is_err());
}

#[test]
fn test_expand_cidr_prefix_too_large() {
    assert!(expand_cidr("10.0.0.0/33", None).is_err());
}

#[test]
fn test_expand_cidr_prefix_too_small() {
    assert!(expand_cidr("10.0.0.0/15", None).is_err());
}

#[test]
fn test_expand_cidr_ipv6_unsupported() {
    assert!(expand_cidr("::1/128", Some(1)).is_err());
}

#[test]
fn expand_errors_by_kind() {
    assert_eq!(expand_cidr("not-an-ip", None), Err(TargetError::InvalidTarget));
    assert_eq!(expand_cidr("10.0.0.0/33", None), Err(TargetError::InvalidPrefix));
    assert_eq!(expand_cidr("10.0.0.0/15", None), Err(TargetError::PrefixTooBroad));
    assert_eq!(expand_cidr("::1/128", Some(1)), Err(TargetError::UnsupportedAddressFamily));
    assert_eq!(expand_cidr("10.0.0/24", None), Err(TargetError::InvalidAddress));
    assert_eq!(expand_cidr("10.0.0.0/x", None), Err(TargetError::MalformedPrefix));
    assert_eq!(expand_cidr("10.0.0.0/", None), Err(TargetError::MalformedPrefix));
    assert_eq!(expand_cidr("10.0.0.0/24/1", None), Err(TargetError::MalformedPrefix));
}

#[test]
fn expand_bare_ipv6_is_kept() {
    assert_eq!(expand_cidr("::1", Some(1)), Ok(vec![IpAddress::V6(1)]));
    assert_eq!(address_part("::1/128"), "::1");
    assert_eq!(address_part("10.1.2.3"), "10.1.2.3");
}

#[test]
fn expand_rejects_malformed_ipv4() {
    assert!(expand_cidr("256.0.0.1", None).is_err());
    assert!(expand_cidr("01.2.3.4", None).is_err());
    assert!(expand_cidr("1.2.3", None).is_err());
    assert!(expand_cidr("1.2.3.4.5", None).is_err());
    assert!(expand_cidr("1.2..4", None).is_err());
    assert_eq!(expand_cidr("0.0.0.0", None), Ok(vec![IpAddress::V4(0)]));
}

#[test]
fn expand_block_sizes() {
    for n in 16u32..32 {
        let hosts = expand_cidr(&format!("172.16.5.9/{n}"), None).unwrap();
        assert_eq!(hosts.len(), (1usize << (32 - n)) - 2);
    }
    let hosts = expand_cidr("10.1.255.255/16", None).unwrap();
    assert_eq!(hosts.len(), 65534);
    assert_eq!(text(&hosts[0]), "10.1.0.1");
    assert_eq!(text(&hosts[65533]), "10.1.255.254");
}

#[test]
fn expand_top_of_address_space() {
    let hosts = expand_cidr("255.255.255.255/30", None).unwrap();
    assert_eq!(text(&hosts[0]), "255.255.255.253");
    assert_eq!(text(&hosts[1]), "255.255.255.254");
    let hosts = expand_cidr("10.0.0.7/31", None).unwrap();
    assert!(hosts.is_empty());
}
