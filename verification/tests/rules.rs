use security_smile::command::{build_netsh_script, interpret_command_output, reports_zero_removed};
use security_smile::error::FirewallError;
use security_smile::rules::{
    build_add_rule_args, build_delete_rule_args, build_set_rule_args, parse_firewall_rules,
    quote_if_needed, FirewallRuleInfo, FirewallState,
};

const LISTING: &str = "\r\n\
Rule Name:                            Web Server Port\r\n\
----------------------------------------------------------------------\r\n\
Enabled:                              Yes\r\n\
Direction:                            In\r\n\
Profiles:                             Domain,Private,Public\r\n\
LocalIP:                              Any\r\n\
RemoteIP:                             Any\r\n\
Protocol:                             TCP\r\n\
LocalPort:                            80\r\n\
RemotePort:                           Any\r\n\
Action:                               Allow\r\n\
\r\n\
Rule Name:                            Blocker\r\n\
----------------------------------------------------------------------\r\n\
Enabled:                              No\r\n\
Direction:                            Out\r\n\
Description:                          Blocks things\r\n\
Program:                              C:\\tool.exe\r\n\
Action:                               Block\r\n";

#[test]
fn listing_parses_into_structured_rules() {
    let rules = parse_firewall_rules(LISTING).unwrap();
    assert_eq!(rules.len(), 2);
    assert_eq!(rules[0].name, "Web Server Port");
    assert!(rules[0].enabled);
    assert_eq!(rules[0].direction, "In");
    assert_eq!(rules[0].protocol, "TCP");
    assert_eq!(rules[0].port, Some(80));
    assert_eq!(rules[0].action, "Allow");
    assert_eq!(rules[0].application_path, None);
    assert_eq!(rules[0].description, "");
    assert_eq!(rules[1].name, "Blocker");
    assert!(!rules[1].enabled);
    assert_eq!(rules[1].direction, "Out");
    assert_eq!(rules[1].description, "Blocks things");
    assert_eq!(rules[1].application_path, Some("C:\\tool.exe".to_string()));
    assert_eq!(rules[1].action, "Block");
    // the listing's defaults survive where the block said nothing
    assert_eq!(rules[1].protocol, "Any");
    assert_eq!(rules[1].port, None);
}

#[test]
fn listing_defaults_apply_to_bare_rules() {
    let rules = parse_firewall_rules("Rule Name: Bare\n").unwrap();
    assert_eq!(rules.len(), 1);
    assert_eq!(rules[0].name, "Bare");
    assert_eq!(rules[0].protocol, "Any");
    assert_eq!(rules[0].direction, "Inbound");
    assert_eq!(rules[0].action, "Block");
    assert!(!rules[0].enabled);
}

#[test]
fn empty_listing_yields_no_rules() {
    let rules = parse_firewall_rules("").unwrap();
    assert!(rules.is_empty());
    let rules = parse_firewall_rules("Enabled: Yes\n").unwrap();
    assert!(rules.is_empty());
}

#[test]
fn enabled_flag_ignores_ascii_case() {
    let rules = parse_firewall_rules("Rule Name: A\nEnabled: YES\n").unwrap();
    assert!(rules[0].enabled);
    let rules = parse_firewall_rules("Rule Name: A\nEnabled: no\n").unwrap();
    assert!(!rules[0].enabled);
}

#[test]
fn unparsable_port_is_dropped() {
    let rules = parse_firewall_rules("Rule Name: A\nLocalPort: RPC\n").unwrap();
    assert_eq!(rules[0].port, None);
    let rules = parse_firewall_rules("Rule Name: A\nLocalPort: 70000\n").unwrap();
    assert_eq!(rules[0].port, None);
    let rules = parse_firewall_rules("Rule Name: A\nLocalPort: Any\n").unwrap();
    assert_eq!(rules[0].port, None);
    let rules = parse_firewall_rules("Rule Name: A\nLocalPort: 8080\n").unwrap();
    assert_eq!(rules[0].port, Some(8080));
}

#[test]
fn quoting_wraps_once() {
    assert_eq!(quote_if_needed("My Rule"), "\"My Rule\"");
    assert_eq!(quote_if_needed("\"My Rule\""), "\"My Rule\"");
    assert_eq!(quote_if_needed(""), "\"\"");
}

fn sample_rule() -> FirewallRuleInfo {
    FirewallRuleInfo {
        name: "Web Server Port".to_string(),
        description: "Allows web traffic".to_string(),
        application_path: None,
        port: Some(80),
        protocol: "TCP".to_string(),
        direction: "Inbound".to_string(),
        action: "Allow".to_string(),
        enabled: true,
    }
}

#[test]
fn add_rule_arguments_follow_netsh_grammar() {
    let args = build_add_rule_args(&sample_rule());
    assert_eq!(
        args,
        vec![
            "advfirewall".to_string(),
            "firewall".to_string(),
            "add".to_string(),
            "rule".to_string(),
            "name=\"Web Server Port\"".to_string(),
            "dir=in".to_string(),
            "action=allow".to_string(),
            "description=Allows web traffic".to_string(),
            "protocol=tcp".to_string(),
            "localport=80".to_string(),
            "enable=yes".to_string(),
        ]
    );
}

#[test]
fn program_rules_omit_protocol_and_port() {
    let mut rule = sample_rule();
    rule.application_path = Some("C:\\tool.exe".to_string());
    rule.enabled = false;
    let args = build_add_rule_args(&rule);
    assert!(args.contains(&"program=\"C:\\tool.exe\"".to_string()));
    assert!(!args.iter().any(|a| a.starts_with("protocol=")));
    assert!(!args.iter().any(|a| a.starts_with("localport=")));
    assert_eq!(args.last().unwrap(), "enable=no");
}

#[test]
fn delete_and_set_arguments_follow_netsh_grammar() {
    assert_eq!(
        build_delete_rule_args("Blocker"),
        vec![
            "advfirewall".to_string(),
            "firewall".to_string(),
            "delete".to_string(),
            "rule".to_string(),
            "name=\"Blocker\"".to_string(),
        ]
    );
    let args = build_set_rule_args("Blocker", true);
    assert_eq!(
        args,
        vec![
            "advfirewall".to_string(),
            "firewall".to_string(),
            "set".to_string(),
            "rule".to_string(),
            "name=\"Blocker\"".to_string(),
            "new".to_string(),
            "enable=yes".to_string(),
        ]
    );
    assert_eq!(
        build_netsh_script(&args),
        "netsh advfirewall firewall set rule name=\"Blocker\" new enable=yes;"
    );
}

#[test]
fn state_tracks_recorded_and_removed_rules() {
    let mut state = FirewallState::default();
    assert_eq!(state.len(), 0);
    state.record_rule(sample_rule());
    let mut other = sample_rule();
    other.name = "Other".to_string();
    state.record_rule(other);
    assert_eq!(state.len(), 2);
    state.remove_rule("Web Server Port");
    let left = state.list();
    assert_eq!(left.len(), 1);
    assert_eq!(left[0].name, "Other");
}

#[test]
fn state_toggles_first_matching_rule() {
    let mut state = FirewallState::default();
    state.record_rule(sample_rule());
    state.set_rule_enabled("Web Server Port", false);
    assert!(!state.list()[0].enabled);
    state.set_rule_enabled("missing", true);
    assert!(!state.list()[0].enabled);
}

#[test]
fn command_outcome_classification() {
    let ok = interpret_command_output(true, "all good", "").unwrap();
    assert_eq!(ok, "all good");
    let err = interpret_command_output(false, "", "  access denied \n").unwrap_err();
    match err {
        FirewallError::CommandError(m) => assert_eq!(m, "Command failed: access denied"),
        _ => panic!("wrong variant"),
    }
    let err = interpret_command_output(false, " partial output ", "").unwrap_err();
    match err {
        FirewallError::CommandError(m) => {
            assert_eq!(m, "Command failed (no stderr): partial output")
        }
        _ => panic!("wrong variant"),
    }
    let err = interpret_command_output(false, "", "").unwrap_err();
    match err {
        FirewallError::CommandError(m) => {
            assert_eq!(m, "Command failed: Unknown error (no output)")
        }
        _ => panic!("wrong variant"),
    }
}

#[test]
fn zero_removed_marker_is_detected() {
    assert!(reports_zero_removed(
        "Removed 0 firewall rules for domain: x.test\n"
    ));
    assert!(!reports_zero_removed(
        "Removed 3 firewall rules for domain: x.test\n"
    ));
}

#[test]
fn error_messages_render_with_their_kind() {
    let e = FirewallError::CommandError("boom".to_string());
    assert_eq!(e.message(), "Command Error: boom");
    let e = FirewallError::ParseError("bad line".to_string());
    assert_eq!(e.message(), "Parse Error: bad line");
    let e = FirewallError::AdminRequired("elevation".to_string());
    assert_eq!(e.message(), "Admin Required: elevation");
}
