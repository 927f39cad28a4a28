use security_smile::validate::{
    is_valid_domain_format, is_valid_ip_format, is_valid_ipv4_format, is_valid_ipv6_format,
    validate_block_domain,
};

#[test]
fn ipv4_accepts_normal_address() {
    assert!(is_valid_ipv4_format("93.184.216.34"));
    assert!(is_valid_ipv4_format("0.0.0.0"));
    assert!(is_valid_ipv4_format("255.255.255.255"));
    assert!(is_valid_ipv4_format("01.2.3.4"));
}

#[test]
fn ipv4_rejects_out_of_range_octet() {
    assert!(!is_valid_ipv4_format("999.1.1.1"));
    assert!(!is_valid_ipv4_format("256.1.1.1"));
    assert!(!is_valid_ipv4_format("1.2.3.999"));
}

#[test]
fn ipv4_rejects_wrong_shape() {
    assert!(!is_valid_ipv4_format("1.2.3"));
    assert!(!is_valid_ipv4_format("1.2.3.4.5"));
    assert!(!is_valid_ipv4_format("1..2.3"));
    assert!(!is_valid_ipv4_format("1.2.3."));
    assert!(!is_valid_ipv4_format("a.b.c.d"));
    assert!(!is_valid_ipv4_format(""));
    assert!(!is_valid_ipv4_format("1234.1.1.1"));
}

#[test]
fn ipv6_accepts_full_form() {
    assert!(is_valid_ipv6_format("2606:2800:220:1:248:1893:25c8:1946"));
    assert!(is_valid_ipv6_format("0:0:0:0:0:0:0:1"));
    assert!(is_valid_ipv6_format("ABCD:ef01:2345:6789:abcd:EF01:2345:6789"));
}

#[test]
fn ipv6_accepts_compressed_forms() {
    assert!(is_valid_ipv6_format("::"));
    assert!(is_valid_ipv6_format("::1"));
    assert!(is_valid_ipv6_format("1::"));
    assert!(is_valid_ipv6_format("fe80::1"));
    assert!(is_valid_ipv6_format("2001:db8::8a2e:370:7334"));
}

#[test]
fn ipv6_rejects_malformed() {
    assert!(!is_valid_ipv6_format("1:::2"));
    assert!(!is_valid_ipv6_format("1::2::3"));
    assert!(!is_valid_ipv6_format("1:2:3:4:5:6:7:8:9"));
    assert!(!is_valid_ipv6_format("1:2:3:4:5:6:7"));
    assert!(!is_valid_ipv6_format("12345::"));
    assert!(!is_valid_ipv6_format("g::1"));
    assert!(!is_valid_ipv6_format(":"));
    assert!(!is_valid_ipv6_format("1:2:3:4:5:6:7:"));
    // with a double colon, at most seven groups fit around it
    assert!(!is_valid_ipv6_format("1:2:3:4:5:6:7:8::"));
}

#[test]
fn ip_format_covers_both_families() {
    assert!(is_valid_ip_format("93.184.216.34"));
    assert!(is_valid_ip_format("2606:2800:220:1:248:1893:25c8:1946"));
    assert!(!is_valid_ip_format("999.1.1.1"));
    assert!(!is_valid_ip_format("not-an-ip"));
}

#[test]
fn domain_accepts_ordinary_names() {
    assert!(is_valid_domain_format("x.test"));
    assert!(is_valid_domain_format("example.com"));
    assert!(is_valid_domain_format("sub.domain.example.org"));
    assert!(is_valid_domain_format("a-b.example.com"));
    assert!(is_valid_domain_format("UPPER.Mixed.COM"));
    assert!(is_valid_domain_format("0a.test"));
}

#[test]
fn domain_accepts_boundary_label_lengths() {
    let label63 = "a".repeat(63);
    let label64 = "a".repeat(64);
    assert!(is_valid_domain_format(&format!("{}.test", label63)));
    assert!(!is_valid_domain_format(&format!("{}.test", label64)));
}

#[test]
fn domain_rejects_malformed_names() {
    assert!(!is_valid_domain_format("com"));
    assert!(!is_valid_domain_format(""));
    assert!(!is_valid_domain_format("."));
    assert!(!is_valid_domain_format("x."));
    assert!(!is_valid_domain_format(".test"));
    assert!(!is_valid_domain_format("-a.test"));
    assert!(!is_valid_domain_format("a-.test"));
    assert!(!is_valid_domain_format("a..test"));
    assert!(!is_valid_domain_format("a.c"));
    assert!(!is_valid_domain_format("a.c0m"));
    assert!(!is_valid_domain_format("a.test-"));
    assert!(!is_valid_domain_format("a b.test"));
}

#[test]
fn block_validation_reports_exact_message() {
    assert!(validate_block_domain("example.test").is_ok());
    let err = validate_block_domain("not valid").unwrap_err();
    assert_eq!(err, "Invalid domain format: not valid");
}
