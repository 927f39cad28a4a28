use security_smile::compile::{
    build_block_script, build_rule_id, build_unblock_script, compile_block, compile_unblock,
    Direction,
};

#[test]
fn block_compilation_is_deterministic() {
    let ips = vec!["1.1.1.1".to_string(), "2.2.2.2".to_string()];
    let a = compile_block("x.test", &ips);
    let b = compile_block("x.test", &ips);
    assert_eq!(a.len(), b.len());
    for (x, y) in a.iter().zip(b.iter()) {
        assert_eq!(x.rule_id, y.rule_id);
        assert_eq!(x.ip, y.ip);
        assert_eq!(x.domain, y.domain);
    }
}

#[test]
fn multi_address_rules_carry_ordinals() {
    let ips = vec!["1.1.1.1".to_string(), "2.2.2.2".to_string()];
    let descs = compile_block("x.test", &ips);
    assert_eq!(descs.len(), 4);
    assert_eq!(descs[0].rule_id, "Block-Domain-Outbound-x.test-1");
    assert_eq!(descs[1].rule_id, "Block-Domain-Inbound-x.test-1");
    assert_eq!(descs[2].rule_id, "Block-Domain-Outbound-x.test-2");
    assert_eq!(descs[3].rule_id, "Block-Domain-Inbound-x.test-2");
    assert_eq!(descs[0].ip, "1.1.1.1");
    assert_eq!(descs[2].ip, "2.2.2.2");
    assert_eq!(descs[0].domain, "x.test");
}

#[test]
fn single_address_rules_are_unsuffixed() {
    let ips = vec!["93.184.216.34".to_string()];
    let descs = compile_block("example.test", &ips);
    assert_eq!(descs.len(), 2);
    assert_eq!(descs[0].rule_id, "Block-Domain-Outbound-example.test");
    assert_eq!(descs[1].rule_id, "Block-Domain-Inbound-example.test");
}

#[test]
fn rule_id_renders_ordinals_in_decimal() {
    assert_eq!(
        build_rule_id("a.test", Direction::Outbound, 12, true),
        "Block-Domain-Outbound-a.test-12"
    );
    assert_eq!(
        build_rule_id("a.test", Direction::Inbound, 7, false),
        "Block-Domain-Inbound-a.test"
    );
}

#[test]
fn unblock_candidates_cover_bounded_range_and_legacy_name() {
    let names = compile_unblock("x.test");
    // the unsuffixed pair, ordinals 1 through 19 as pairs, one legacy name
    assert_eq!(names.len(), 2 + 19 * 2 + 1);
    assert_eq!(names[0], "Block-Domain-Outbound-x.test");
    assert_eq!(names[1], "Block-Domain-Inbound-x.test");
    assert_eq!(names[2], "Block-Domain-Outbound-x.test-1");
    assert_eq!(names[3], "Block-Domain-Inbound-x.test-1");
    assert_eq!(names[names.len() - 3], "Block-Domain-Outbound-x.test-19");
    assert_eq!(names[names.len() - 2], "Block-Domain-Inbound-x.test-19");
    assert_eq!(names[names.len() - 1], "Block-Domain-x.test");
}

#[test]
fn unblock_candidates_cover_compiled_rule_ids() {
    for count in 1..=19usize {
        let ips: Vec<String> = (0..count).map(|i| format!("10.0.0.{}", i + 1)).collect();
        let descs = compile_block("x.test", &ips);
        let candidates = compile_unblock("x.test");
        for desc in &descs {
            assert!(
                candidates.contains(&desc.rule_id),
                "{} not covered",
                desc.rule_id
            );
        }
    }
}

#[test]
fn block_script_matches_expected_text() {
    let ips = vec!["93.184.216.34".to_string()];
    let script = build_block_script("example.test", &ips);
    let expected = format!(
        "$ErrorActionPreference = 'Stop'\ntry {{\n\
         \x20   netsh advfirewall firewall add rule name=\"Block-Domain-Outbound-example.test\" dir=out action=block enable=yes protocol=any description=\"Blocks outgoing connections to domain: example.test (IP: 93.184.216.34)\" remoteip=93.184.216.34\n\
         \x20   netsh advfirewall firewall add rule name=\"Block-Domain-Inbound-example.test\" dir=in action=block enable=yes protocol=any description=\"Blocks incoming connections from domain: example.test (IP: 93.184.216.34)\" remoteip=93.184.216.34\n\
         \x20   Write-Host \"Successfully created all firewall rules\"\n}} catch {{\n\
         \x20   Write-Host \"Error creating firewall rules: $_\"\n\
         \x20   exit 1\n}}\n"
    );
    assert_eq!(script, expected);
}

#[test]
fn unblock_script_deletes_each_candidate_tolerantly() {
    let script = build_unblock_script("x.test");
    assert!(script.starts_with(
        "$ErrorActionPreference = 'Continue'\n$removed_count = 0\n\n"
    ));
    assert!(script.contains(
        "try { netsh advfirewall firewall delete rule name=\"Block-Domain-Outbound-x.test\"; $removed_count++ } catch { Write-Host \"Rule not found\" }\n"
    ));
    assert!(script.contains("name=\"Block-Domain-Outbound-x.test-19\""));
    assert!(script.contains("name=\"Block-Domain-x.test\""));
    assert!(script.ends_with(
        "\nWrite-Host \"Removed $removed_count firewall rules for domain: x.test\"\n"
    ));
}

#[test]
fn netsh_command_line_joins_arguments() {
    let args = vec![
        "advfirewall".to_string(),
        "firewall".to_string(),
        "show".to_string(),
    ];
    assert_eq!(
        security_smile::command::build_netsh_script(&args),
        "netsh advfirewall firewall show;"
    );
    let empty: Vec<String> = Vec::new();
    assert_eq!(security_smile::command::build_netsh_script(&empty), "netsh ;");
}
