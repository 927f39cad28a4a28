use security_smile::resolver::{
    extract_ip_from_ping, extract_ips_from_nslookup, extract_name_from_nslookup,
    resolve_from_outputs,
};

#[test]
fn reverse_lookup_name_is_extracted() {
    let output = "Server:  dns.local\r\n\
                  Address:  192.168.1.1\r\n\
                  \r\n\
                  Name:    blocked.test\r\n\
                  Address:  9.9.9.9\r\n";
    assert_eq!(
        extract_name_from_nslookup(output),
        Some("blocked.test".to_string())
    );
    assert_eq!(extract_name_from_nslookup("no names here\n"), None);
    assert_eq!(extract_name_from_nslookup("Name:\n"), None);
}

#[test]
fn nslookup_addresses_section_is_collected() {
    let output = "Server:  dns.local\r\n\
                  Address:  192.168.1.1\r\n\
                  \r\n\
                  Name:    example.test\r\n\
                  Addresses:  93.184.216.34\r\n\
                  \x20         2606:2800:220:1:248:1893:25c8:1946\r\n";
    let ips = extract_ips_from_nslookup(output);
    assert_eq!(
        ips,
        vec![
            "93.184.216.34".to_string(),
            "2606:2800:220:1:248:1893:25c8:1946".to_string()
        ]
    );
}

#[test]
fn nslookup_local_server_address_is_ignored() {
    let output = "Address:  192.168.1.1\nName: x.test\n";
    let ips = extract_ips_from_nslookup(output);
    assert!(ips.is_empty());
}

#[test]
fn nslookup_single_address_line_is_collected() {
    let output = "Name: x.test\nAddress: 93.184.216.34\n";
    let ips = extract_ips_from_nslookup(output);
    assert_eq!(ips, vec!["93.184.216.34".to_string()]);
}

#[test]
fn nslookup_section_ends_at_unindented_text() {
    let output = "Addresses: 1.2.3.4\nAliases: something.test\n  5.6.7.8\n";
    // the unindented non-address line leaves the section, so the later
    // indented address is not collected
    let ips = extract_ips_from_nslookup(output);
    assert_eq!(ips, vec!["1.2.3.4".to_string()]);
}

#[test]
fn nslookup_invalid_addresses_are_dropped() {
    let output = "Addresses: 999.1.1.1\n";
    let ips = extract_ips_from_nslookup(output);
    assert!(ips.is_empty());
}

#[test]
fn ping_extracts_bracketed_address() {
    let output = "\r\nPinging example.test [93.184.216.34] with 32 bytes of data:\r\n\
                  Reply from 93.184.216.34: bytes=32 time=10ms TTL=56\r\n";
    assert_eq!(
        extract_ip_from_ping(output),
        Some("93.184.216.34".to_string())
    );
}

#[test]
fn ping_without_target_line_yields_nothing() {
    assert_eq!(extract_ip_from_ping("Request timed out.\n"), None);
    assert_eq!(extract_ip_from_ping(""), None);
    // brackets in the wrong order do not count
    assert_eq!(extract_ip_from_ping("Pinging ]x[ oddly\n"), None);
}

#[test]
fn resolution_prefers_primary_addresses_in_order() {
    let nslookup = Ok("Addresses: 1.2.3.4\n  5.6.7.8\n".to_string());
    let ping = Ok("Pinging x.test [9.9.9.9] with 32 bytes of data:\n".to_string());
    let ips = resolve_from_outputs(&nslookup, &ping).unwrap();
    assert_eq!(ips, vec!["1.2.3.4".to_string(), "5.6.7.8".to_string()]);
}

#[test]
fn resolution_falls_back_to_ping() {
    let nslookup = Ok(String::new());
    let ping = Ok("Pinging x.test [1.2.3.4] with 32 bytes of data:\n".to_string());
    let ips = resolve_from_outputs(&nslookup, &ping).unwrap();
    assert_eq!(ips, vec!["1.2.3.4".to_string()]);
}

#[test]
fn resolution_failure_names_both_methods() {
    let nslookup = Ok(String::new());
    let ping = Ok(String::new());
    let err = resolve_from_outputs(&nslookup, &ping).unwrap_err();
    assert_eq!(err.primary, "nslookup output contained no IP addresses");
    assert_eq!(err.fallback, "ping output contained no IP address");
    let message = err.message();
    assert!(message.contains("nslookup"));
    assert!(message.contains("ping"));
}

#[test]
fn resolution_reports_command_failures() {
    let nslookup = Err("spawn failed".to_string());
    let ping = Err("no ping binary".to_string());
    let err = resolve_from_outputs(&nslookup, &ping).unwrap_err();
    assert_eq!(
        err.primary,
        "Failed to execute nslookup command: spawn failed"
    );
    assert_eq!(err.fallback, "Failed to execute ping command: no ping binary");
}

#[test]
fn resolution_rejects_invalid_fallback_address() {
    let nslookup = Ok(String::new());
    let ping = Ok("Pinging x.test [999.1.1.1] with 32 bytes of data:\n".to_string());
    let err = resolve_from_outputs(&nslookup, &ping).unwrap_err();
    assert_eq!(err.fallback, "Extracted IP has invalid format: 999.1.1.1");
}
