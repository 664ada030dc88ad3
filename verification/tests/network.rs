use classify::cidr::{is_ipv4_cidr, is_ipv6_cidr};
use classify::ipv4::is_ipv4;
use classify::ipv6::is_ipv6;
use classify::network::{find_ips, is_ip_cidr_any, is_ip_loopback, is_ipv_any, which_ipv,
    IpVersion};

#[test]
fn test_find_ips() {
    let ips = find_ips("asdfsafasdfdsf2001::1<asdfdsf,1.2.3.4");
    assert!(ips.contains(&"2001::1".to_string()));
    assert!(ips.contains(&"1.2.3.4".to_string()));
}

#[test]
fn test_is_ipv4() {
    // valid
    assert!(is_ipv4("10.10.10.1"));
    assert!(is_ipv4("100.128.10.132"));
    assert!(is_ipv4("100.17.5.119"));
    assert!(is_ipv4("127.0.0.1"));

    // invalid
    assert!(!is_ipv4("12.110.105.256"));
    assert!(!is_ipv4("10.2.13"));
    assert!(!is_ipv4("256.10.10.1000"));
    assert!(is_ipv4("2.1.2.0"));
    assert!(is_ipv4("1.1.2.0"));
    assert!(is_ipv4("0.1.2.0"));
}

#[test]
fn test_is_ipv4_cidr() {
    assert!(is_ipv4_cidr("10.0.0.0/8"));
    assert!(is_ipv4_cidr("10.0.0.0/32"));
    assert!(!is_ipv4_cidr("10.0.0.0/33"));
    assert!(!is_ipv4_cidr("270.0.0.1000/24"));
}

#[test]
fn test_is_ipv6() {
    assert!(is_ipv6("2041:0000:140F::875B:131B"));
    assert!(is_ipv6("::ffff:127.0.0.1"));
    assert!(is_ipv6("::ffff:7f00:1"));
    assert!(is_ipv6("::1"));
    assert!(is_ipv6("2041:0:140F::875B:131B"));
    assert!(is_ipv6("2041:0000:140F::875B:131B"));
    assert!(is_ipv6("fcb7:360a:242a:2d0d:392e:bc22:a45:3573"));
    assert!(!is_ipv6("2002:::1234::"));
    assert!(is_ipv6("3b8f:473b:d1a7:ba09:d28c:3cd:7f46:c95e"));
    assert!(is_ipv6("0000:0000:0000:0000:0000:FFFF:2BE0:9E74"));
    assert!(is_ipv6("::ffff:43.224.158.116"));
}

#[test]
fn test_is_ipv6_cidr() {
    assert!(is_ipv6_cidr("2001:0DB8:1234::/48"));
    assert!(is_ipv6_cidr("2001:0DB8:12a4::/128"));
    assert!(!is_ipv6_cidr("2005:0DB8:1234::/130"));
    assert!(!is_ipv6_cidr("2002:::1234::/48"));
}

#[test]
fn test_is_ip_loopback() {
    assert!(is_ip_loopback("127.0.0.1"));
    assert!(is_ip_loopback("::1"));
    assert!(!is_ip_loopback("10.122.1.130"));
    assert!(!is_ip_loopback("::ffff:7f00:1"));
}

#[test]
fn test_is_ipv_any() {
    // valid
    assert!(is_ipv_any("127.0.0.1"));
    assert!(is_ipv_any("::1"));

    // not valid
    assert!(!is_ipv_any("127.0.0.1.36"));
    assert!(!is_ipv_any("2A00:17C8:50C:0000:0000:0000:0000:00001"));
}

#[test]
fn test_is_ip_cidr_any() {
    // valid
    assert!(is_ip_cidr_any("2001:0DB8:1234::/48"));
    assert!(is_ip_cidr_any("10.0.0.0/8"));

    // not valid
    assert!(!is_ip_cidr_any("2002:::1234::/48"));
    assert!(!is_ip_cidr_any("10.0.0.0/33"));
}

#[test]
fn test_which_ipv() {
    assert_eq!(which_ipv("::1"), Some(IpVersion::V6));
    assert_eq!(which_ipv("127.0.0.1"), Some(IpVersion::V4));
    assert_eq!(which_ipv("2002:::1234::"), None);
}
