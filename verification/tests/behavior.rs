use classify::cidr::{is_ipv4_cidr, is_ipv6_cidr};
use classify::filepath::is_file_path;
use classify::ipv4::is_ipv4;
use classify::ipv6::is_ipv6;
use classify::network::{find_ips, is_ip_loopback, which_ipv, IpVersion};
use classify::pattern::is_regex;
use classify::registry::is_registry_key;
use classify::sql::is_sql;

#[test]
fn octet_bounds() {
    assert!(is_ipv4("0.0.0.0"));
    assert!(is_ipv4("255.255.255.255"));
    assert!(!is_ipv4("256.0.0.1"));
    assert!(!is_ipv4("1.2.3.256"));
    assert!(!is_ipv4("01.2.3.4"));
    assert!(!is_ipv4(""));
    assert!(!is_ipv4("1.2.3."));
    assert!(!is_ipv4(".1.2.3"));
}

#[test]
fn cidr_shapes() {
    assert!(!is_ipv4_cidr("10.0.0.0"));
    assert!(!is_ipv4_cidr("10.0.0.0/"));
    assert!(!is_ipv4_cidr("/8"));
    assert!(is_ipv4_cidr("0.0.0.0/0"));
    assert!(!is_ipv4_cidr("10.0.0.0/8/9"));
    assert!(!is_ipv6_cidr("::1"));
    assert!(is_ipv6_cidr("::/0"));
    assert!(!is_ipv6_cidr("::1/-1"));
    assert!(!is_ipv6_cidr("::1/12a"));
}

#[test]
fn ipv6_shapes() {
    assert!(is_ipv6("1:2:3:4:5:6:7:8"));
    assert!(!is_ipv6("1:2:3:4:5:6:7"));
    assert!(!is_ipv6("1:2:3:4:5:6:7:8:9"));
    assert!(is_ipv6("1::8"));
    assert!(!is_ipv6("1::8::9"));
    assert!(!is_ipv6(":"));
    assert!(is_ipv6("::"));
    assert!(!is_ipv6("12345::"));
    assert!(!is_ipv6("1:2:3:4:5:6:7:8::"));
}

#[test]
fn loopback_cases() {
    assert!(is_ip_loopback("127.0.0.1"));
    assert!(!is_ip_loopback("10.1.1.1"));
    assert!(is_ip_loopback("127.255.255.254"));
    assert!(is_ip_loopback("0:0:0:0:0:0:0:1"));
    assert!(!is_ip_loopback("::2"));
}

#[test]
fn version_tags_agree() {
    assert_eq!(which_ipv("1.2.3.4"), Some(IpVersion::V4));
    assert!(is_ipv4("1.2.3.4") && !is_ipv6("1.2.3.4"));
    assert_eq!(which_ipv("fe80::1"), Some(IpVersion::V6));
    assert!(!is_ipv4("fe80::1") && is_ipv6("fe80::1"));
    assert_eq!(which_ipv("neither"), None);
}

#[test]
fn extraction_keeps_duplicates_and_order() {
    let ips = find_ips("10.0.0.1 junk 10.0.0.1");
    // the token pass reports both tokens, the structural pass both again
    assert_eq!(ips.len(), 4);
    assert!(ips.iter().all(|t| t == "10.0.0.1"));

    let ips = find_ips("a 1.2.3.4/8 b");
    // a range satisfies the token pass; the scan re-finds its address part
    assert!(ips.contains(&"1.2.3.4/8".to_string()));
    assert!(ips.contains(&"1.2.3.4".to_string()));
}

#[test]
fn registry_needs_separator() {
    assert!(!is_registry_key("HKLM SOFTWARE Microsoft"));
    assert!(!is_registry_key("SOFTWARE"));
    assert!(!is_registry_key(""));
    assert!(is_registry_key("hklm\\software\\x"));
    assert!(!is_registry_key("SOFTWARE\\Micro{1,3}soft\\x"));
}

#[test]
fn sql_shapes() {
    assert!(is_sql("  update t set x = 1"));
    assert!(!is_sql("SELECT"));
    assert!(!is_sql(""));
    assert!(!is_sql("hello world"));
    assert!(is_sql("BEGIN x END"));
    assert!(is_sql("FROM t\nWHERE x = 1"));
}

#[test]
fn regex_two_stages() {
    assert!(!is_regex("just plain text"));
    assert!(!is_regex(""));
    // shaped like a pattern, but does not compile: the engine decides
    assert!(!is_regex("a{1,2}("));
    assert!(is_regex("a{1,2}"));
}

#[test]
fn file_path_shapes() {
    assert!(!is_file_path("foo.rar"));
    assert!(!is_file_path("C:\\foo"));
    assert!(!is_file_path("C:\\foo.toolong"));
    assert!(!is_file_path("C:\\fo|o\\bar.exe"));
    assert!(is_file_path("C:/mixed/seps.txt"));
    assert!(!is_file_path(""));
}

#[test]
fn cidr_suffix_reads_as_integer() {
    // integer parsing tolerates a leading plus and leading zeros
    assert!(is_ipv4_cidr("10.0.0.0/+8"));
    assert!(is_ipv4_cidr("10.0.0.0/08"));
    assert!(!is_ipv4_cidr("10.0.0.0/++8"));
    assert!(is_ipv6_cidr("::1/0048"));
}

#[test]
fn registry_token_kinds() {
    assert!(is_registry_key("S-1-5-21\\Account"));
    assert!(is_registry_key("Control Panel\\Desktop"));
    assert!(is_registry_key("Keyboard Layout\\Preload"));
    assert!(is_registry_key("x\\HKCU\\Software\\y"));
    assert!(!is_registry_key("SOFTWARES\\x"));
}

#[test]
fn sql_spanning_shapes() {
    assert!(is_sql("PATINDEX '%x%' FROM t"));
    assert!(is_sql("INSERT t (a) VALUES (1)"));
    // a blank line breaks a spanning shape
    assert!(is_sql("INSERT x\ny VALUES z"));
    assert!(!is_sql("INSERT x\n\ny VALUES z"));
}

#[test]
fn regex_construct_kinds() {
    assert!(is_regex("[a-z]"));
    assert!(is_regex("(abc)?"));
    assert!(is_regex("x{3}"));
    assert!(!is_regex("a-z"));
}

#[test]
fn file_path_roots() {
    assert!(is_file_path("./x.txt"));
    assert!(is_file_path("\\x.txt"));
    assert!(!is_file_path("x/y.txt"));
}

#[test]
fn repeated_calls_are_stable() {
    let inputs = ["127.0.0.1", "::1", "10.0.0.0/8", "^dog", "C:\\a\\b.exe"];
    for s in inputs {
        assert_eq!(is_ipv4(s), is_ipv4(s));
        assert_eq!(is_ipv6(s), is_ipv6(s));
        assert_eq!(is_regex(s), is_regex(s));
        assert_eq!(is_file_path(s), is_file_path(s));
        assert_eq!(find_ips(s), find_ips(s));
    }
}
