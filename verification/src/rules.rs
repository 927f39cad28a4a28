//! General firewall-rule management: parsing the rule listing that
//! `netsh advfirewall firewall show rule` prints, the in-memory rule
//! state, and the argument lists for adding, deleting and toggling
//! rules.

use vstd::prelude::*;

use crate::error::FirewallError;
use crate::text::{
    is_prefix, lower_seq, spec_decimal, spec_parse_u16, spec_trim, str_eq, starts_with_str,
    to_lower, trim_str,
};
use crate::text::{append_decimal, first_ix, parse_u16};

verus! {

/// One firewall rule as the listing reports it.
#[derive(Debug)]
pub struct FirewallRuleInfo {
    pub name: String,
    pub description: String,
    pub application_path: Option<String>,
    pub port: Option<u16>,
    pub protocol: String,
    pub direction: String,
    pub action: String,
    pub enabled: bool,
}

/// The mathematical shadow of a [`FirewallRuleInfo`].
pub ghost struct RuleInfoView {
    pub name: Seq<char>,
    pub description: Seq<char>,
    pub application_path: Option<Seq<char>>,
    pub port: Option<u16>,
    pub protocol: Seq<char>,
    pub direction: Seq<char>,
    pub action: Seq<char>,
    pub enabled: bool,
}

impl View for FirewallRuleInfo {
    type V = RuleInfoView;

    open spec fn view(&self) -> RuleInfoView {
        RuleInfoView {
            name: self.name@,
            description: self.description@,
            application_path: self.application_path.deep_view(),
            port: self.port,
            protocol: self.protocol@,
            direction: self.direction@,
            action: self.action@,
            enabled: self.enabled,
        }
    }
}

impl DeepView for FirewallRuleInfo {
    type V = RuleInfoView;

    open spec fn deep_view(&self) -> RuleInfoView {
        self.view()
    }
}

/// `s` with every leading copy of `prefix` removed, the way
/// `str::trim_start_matches` strips repeatedly.
pub open spec fn strip_all(prefix: Seq<char>, s: Seq<char>) -> Seq<char>
    decreases s.len(),
{
    if prefix.len() > 0 && is_prefix(prefix, s) {
        strip_all(prefix, s.skip(prefix.len() as int))
    } else {
        s
    }
}

/// Executable form of [`strip_all`].
fn strip_prefix_all<'a>(s: &'a str, p: &'a str) -> (r: &'a str)
    ensures
        r@ == strip_all(p@, s@),
{
    let np = p.unicode_len();
    let n = s.unicode_len();
    if np == 0 {
        return s;
    }
    let mut pos: usize = 0;
    proof {
        assert(s@.skip(0) =~= s@);
    }
    while pos < n
        invariant
            0 <= pos <= n,
            n == s@.len(),
            np == p@.len(),
            np > 0,
            strip_all(p@, s@) == strip_all(p@, s@.skip(pos as int)),
        decreases n - pos,
    {
        let rest = s.substring_char(pos, n);
        proof {
            assert(rest@ =~= s@.skip(pos as int));
        }
        if starts_with_str(rest, p) {
            proof {
                assert(s@.skip(pos as int).skip(np as int) =~= s@.skip(pos + np));
            }
            pos = pos + np;
        } else {
            return rest;
        }
    }
    let rest = s.substring_char(pos, n);
    proof {
        assert(rest@ =~= s@.skip(pos as int));
        assert(rest@.len() == 0);
        assert(!is_prefix(p@, rest@));
    }
    rest
}

/// The listing's defaults for a freshly named rule.
pub open spec fn default_rule(name: Seq<char>) -> RuleInfoView {
    RuleInfoView {
        name: name,
        description: Seq::empty(),
        application_path: None,
        port: None,
        protocol: "Any"@,
        direction: "Inbound"@,
        action: "Block"@,
        enabled: false,
    }
}

/// The value of a `Key: value` line: the text after the repeated key
/// prefix, trimmed.
pub open spec fn line_value(prefix: Seq<char>, t: Seq<char>) -> Seq<char> {
    spec_trim(strip_all(prefix, t))
}

/// One line of the listing applied to the parser state: the rule
/// being assembled (if any) and the finished rules.
pub open spec fn parse_rules_step(
    cur: Option<RuleInfoView>,
    acc: Seq<RuleInfoView>,
    line: Seq<char>,
) -> (Option<RuleInfoView>, Seq<RuleInfoView>) {
    let t = spec_trim(line);
    if is_prefix("Rule Name:"@, t) {
        let acc2 = match cur {
            Some(r) => acc.push(r),
            None => acc,
        };
        (Some(default_rule(line_value("Rule Name:"@, t))), acc2)
    } else {
        match cur {
            None => (None, acc),
            Some(r) => {
                if is_prefix("Description:"@, t) {
                    (
                        Some(RuleInfoView { description: line_value("Description:"@, t), ..r }),
                        acc,
                    )
                } else if is_prefix("Enabled:"@, t) {
                    let v = line_value("Enabled:"@, t);
                    (Some(RuleInfoView { enabled: lower_seq(v) == lower_seq("Yes"@), ..r }), acc)
                } else if is_prefix("Direction:"@, t) {
                    (Some(RuleInfoView { direction: line_value("Direction:"@, t), ..r }), acc)
                } else if is_prefix("Action:"@, t) {
                    (Some(RuleInfoView { action: line_value("Action:"@, t), ..r }), acc)
                } else if is_prefix("Protocol:"@, t) {
                    (Some(RuleInfoView { protocol: line_value("Protocol:"@, t), ..r }), acc)
                } else if is_prefix("Program:"@, t) {
                    let v = line_value("Program:"@, t);
                    if v != "Any"@ {
                        (Some(RuleInfoView { application_path: Some(v), ..r }), acc)
                    } else {
                        (Some(r), acc)
                    }
                } else if is_prefix("LocalPort:"@, t) {
                    let v = line_value("LocalPort:"@, t);
                    if v != "Any"@ {
                        (Some(RuleInfoView { port: spec_parse_u16(v), ..r }), acc)
                    } else {
                        (Some(r), acc)
                    }
                } else {
                    (Some(r), acc)
                }
            },
        }
    }
}

/// The listing scan over a list of lines.
pub open spec fn parse_rules_fold(
    lines: Seq<Seq<char>>,
    cur: Option<RuleInfoView>,
    acc: Seq<RuleInfoView>,
) -> (Option<RuleInfoView>, Seq<RuleInfoView>)
    decreases lines.len(),
{
    if lines.len() == 0 {
        (cur, acc)
    } else {
        let step = parse_rules_step(cur, acc, lines[0]);
        parse_rules_fold(lines.drop_first(), step.0, step.1)
    }
}

/// The rules that the listing text describes: the scan over its
/// lines, with the rule still being assembled appended at the end.
pub open spec fn spec_parse_rules(s: Seq<char>) -> Seq<RuleInfoView> {
    let folded = parse_rules_fold(crate::resolver::spec_lines(s), None, Seq::empty());
    match folded.0 {
        Some(r) => folded.1.push(r),
        None => folded.1,
    }
}

fn rule_value(t: &str, p: &str) -> (r: String)
    ensures
        r@ == line_value(p@, t@),
{
    let stripped = strip_prefix_all(t, p);
    String::from_str(trim_str(stripped))
}

fn parse_rules_rec(
    s: &str,
    pos: usize,
    cur: Option<FirewallRuleInfo>,
    acc: Vec<FirewallRuleInfo>,
) -> (r: (Option<FirewallRuleInfo>, Vec<FirewallRuleInfo>))
    requires
        pos <= s@.len(),
    ensures
        (r.0.deep_view(), r.1.deep_view()) == parse_rules_fold(
            crate::resolver::spec_lines(s@.skip(pos as int)),
            cur.deep_view(),
            acc.deep_view(),
        ),
    decreases s@.len() - pos,
{
    let ghost rest = s@.skip(pos as int);
    let n = s.unicode_len();
    if pos == n {
        proof {
            assert(rest.len() == 0);
        }
        return (cur, acc);
    }
    let nl = crate::text::find_char_from(s, '\n', pos);
    proof {
        assert(first_ix(rest, '\n') == nl - pos);
        crate::text::lemma_first_ix(rest, '\n');
    }
    let line_end: usize = if nl < n && nl > pos && s.get_char(nl - 1) == '\r' {
        nl - 1
    } else {
        nl
    };
    let line = s.substring_char(pos, line_end);
    proof {
        if nl < n {
            let raw = rest.take(nl - pos);
            assert(raw =~= s@.subrange(pos as int, nl as int));
            assert(crate::resolver::strip_cr(raw) =~= s@.subrange(pos as int, line_end as int));
            assert(line@ == crate::resolver::strip_cr(raw));
        } else {
            assert(rest =~= s@.subrange(pos as int, n as int));
            assert(line@ == rest);
        }
    }
    let ghost cur0 = cur.deep_view();
    let ghost acc0 = acc.deep_view();
    let ghost step = parse_rules_step(cur0, acc0, line@);
    let t = trim_str(line);
    let mut cur = cur;
    let mut acc = acc;
    if starts_with_str(t, "Rule Name:") {
        let name = rule_value(t, "Rule Name:");
        match cur {
            Some(r) => {
                acc.push(r);
                proof {
                    assert(acc.deep_view() =~= acc0.push(cur0->Some_0));
                }
            },
            None => {},
        }
        cur = Some(
            FirewallRuleInfo {
                name,
                description: String::new(),
                application_path: None,
                port: None,
                protocol: String::from_str("Any"),
                direction: String::from_str("Inbound"),
                action: String::from_str("Block"),
                enabled: false,
            },
        );
        proof {
            assert(cur.deep_view() =~= step.0);
        }
    } else if cur.is_some() {
        let r = cur.unwrap();
        if starts_with_str(t, "Description:") {
            let v = rule_value(t, "Description:");
            cur = Some(FirewallRuleInfo { description: v, ..r });
        } else if starts_with_str(t, "Enabled:") {
            let v = rule_value(t, "Enabled:");
            let lv = to_lower(v.as_str());
            let ly = to_lower("Yes");
            cur = Some(FirewallRuleInfo { enabled: lv.eq(&ly), ..r });
        } else if starts_with_str(t, "Direction:") {
            let v = rule_value(t, "Direction:");
            cur = Some(FirewallRuleInfo { direction: v, ..r });
        } else if starts_with_str(t, "Action:") {
            let v = rule_value(t, "Action:");
            cur = Some(FirewallRuleInfo { action: v, ..r });
        } else if starts_with_str(t, "Protocol:") {
            let v = rule_value(t, "Protocol:");
            cur = Some(FirewallRuleInfo { protocol: v, ..r });
        } else if starts_with_str(t, "Program:") {
            let v = rule_value(t, "Program:");
            if !str_eq(v.as_str(), "Any") {
                cur = Some(FirewallRuleInfo { application_path: Some(v), ..r });
            } else {
                cur = Some(r);
            }
        } else if starts_with_str(t, "LocalPort:") {
            let v = rule_value(t, "LocalPort:");
            if !str_eq(v.as_str(), "Any") {
                let p = parse_u16(v.as_str());
                cur = Some(FirewallRuleInfo { port: p, ..r });
            } else {
                cur = Some(r);
            }
        } else {
            cur = Some(r);
        }
    }
    proof {
        assert(cur.deep_view() == step.0 && acc.deep_view() == step.1);
    }
    if nl == n {
        proof {
            let lines = crate::resolver::spec_lines(rest);
            assert(lines =~= seq![line@]);
            assert(lines[0] == line@ && lines.len() == 1);
            assert(parse_rules_fold(lines, cur0, acc0) == parse_rules_fold(
                lines.drop_first(),
                step.0,
                step.1,
            ));
            assert(lines.drop_first().len() == 0);
        }
        (cur, acc)
    } else {
        proof {
            let lines = crate::resolver::spec_lines(rest);
            assert(rest.skip(nl - pos + 1) =~= s@.skip(nl + 1));
            assert(lines =~= seq![line@] + crate::resolver::spec_lines(s@.skip(nl + 1)));
            assert(lines[0] == line@ && lines.len() > 0);
            assert(parse_rules_fold(lines, cur0, acc0) == parse_rules_fold(
                lines.drop_first(),
                step.0,
                step.1,
            ));
            assert(lines.drop_first() =~= crate::resolver::spec_lines(s@.skip(nl + 1)));
        }
        parse_rules_rec(s, nl + 1, cur, acc)
    }
}

/// Parses the rule listing into structured rules: each `Rule Name:`
/// line opens a rule with the listing's defaults, later `Key: value`
/// lines fill it in, and the last rule is closed by the end of the
/// text. The parse itself cannot fail.
pub fn parse_firewall_rules(output: &str) -> (r: Result<Vec<FirewallRuleInfo>, FirewallError>)
    ensures
        r matches Ok(rules) && rules.deep_view() == spec_parse_rules(output@),
{
    proof {
        assert(output@.skip(0) =~= output@);
    }
    let start: Vec<FirewallRuleInfo> = Vec::new();
    proof {
        assert(start.deep_view() =~= Seq::<RuleInfoView>::empty());
    }
    let (cur, mut acc) = parse_rules_rec(output, 0, None, start);
    match cur {
        Some(r) => {
            let ghost acc0 = acc.deep_view();
            let ghost rv = r.deep_view();
            acc.push(r);
            proof {
                assert(acc.deep_view() =~= acc0.push(rv));
            }
        },
        None => {},
    }
    Ok(acc)
}

/// `s` wrapped in double quotes unless it already starts and ends
/// with one.
pub open spec fn spec_quote(s: Seq<char>) -> Seq<char> {
    if s.len() > 0 && s[0] == '"' && s[s.len() - 1] == '"' {
        s
    } else {
        "\""@ + s + "\""@
    }
}

/// Quotes a command argument, as [`spec_quote`] describes.
pub fn quote_if_needed(s: &str) -> (r: String)
    ensures
        r@ == spec_quote(s@),
{
    let n = s.unicode_len();
    if n > 0 && s.get_char(0) == '"' && s.get_char(n - 1) == '"' {
        return String::from_str(s);
    }
    let mut out = String::from_str("\"");
    out.append(s);
    out.append("\"");
    proof {
        assert(out@ =~= "\""@ + s@ + "\""@);
    }
    out
}

/// The `dir=` word for a rule's direction: the listing's words mapped
/// to netsh's, anything else lowercased as it stands.
pub open spec fn spec_direction_word(direction: Seq<char>) -> Seq<char> {
    if lower_seq(direction) == "inbound"@ {
        "in"@
    } else if lower_seq(direction) == "outbound"@ {
        "out"@
    } else {
        lower_seq(direction)
    }
}

/// The argument list that creates `rule` through netsh.
pub open spec fn spec_add_rule_args(r: RuleInfoView) -> Seq<Seq<char>> {
    let base = seq![
        "advfirewall"@,
        "firewall"@,
        "add"@,
        "rule"@,
        "name="@ + spec_quote(r.name),
        "dir="@ + spec_direction_word(r.direction),
        "action="@ + lower_seq(r.action),
    ];
    let with_desc = if r.description.len() > 0 {
        base.push("description="@ + r.description)
    } else {
        base
    };
    let with_target = match r.application_path {
        Some(path) => if path.len() > 0 {
            with_desc.push("program="@ + spec_quote(path))
        } else {
            with_desc
        },
        None => {
            let with_proto = if r.protocol != "Any"@ {
                with_desc.push("protocol="@ + lower_seq(r.protocol))
            } else {
                with_desc
            };
            match r.port {
                Some(p) => with_proto.push("localport="@ + spec_decimal(p as nat)),
                None => with_proto,
            }
        },
    };
    with_target.push("enable="@ + (if r.enabled {
        "yes"@
    } else {
        "no"@
    }))
}

fn push_joined(args: &mut Vec<String>, prefix: &str, value: &str)
    ensures
        final(args).deep_view() == old(args).deep_view().push(prefix@ + value@),
{
    let mut a = String::from_str(prefix);
    a.append(value);
    let ghost before = args.deep_view();
    args.push(a);
    proof {
        assert(args.deep_view() =~= before.push(prefix@ + value@));
    }
}

/// Builds the netsh arguments that create `rule`, as
/// [`spec_add_rule_args`] describes.
pub fn build_add_rule_args(rule: &FirewallRuleInfo) -> (r: Vec<String>)
    ensures
        r.deep_view() == spec_add_rule_args(rule@),
{
    let mut args: Vec<String> = Vec::new();
    args.push(String::from_str("advfirewall"));
    args.push(String::from_str("firewall"));
    args.push(String::from_str("add"));
    args.push(String::from_str("rule"));
    let quoted_name = quote_if_needed(rule.name.as_str());
    push_joined(&mut args, "name=", quoted_name.as_str());
    let dir_lower = to_lower(rule.direction.as_str());
    let dir_word: &str = if str_eq(dir_lower.as_str(), "inbound") {
        "in"
    } else if str_eq(dir_lower.as_str(), "outbound") {
        "out"
    } else {
        dir_lower.as_str()
    };
    proof {
        assert(dir_word@ == spec_direction_word(rule.direction@));
    }
    push_joined(&mut args, "dir=", dir_word);
    let action_lower = to_lower(rule.action.as_str());
    push_joined(&mut args, "action=", action_lower.as_str());
    proof {
        assert(args.deep_view() =~= seq![
            "advfirewall"@,
            "firewall"@,
            "add"@,
            "rule"@,
            "name="@ + spec_quote(rule@.name),
            "dir="@ + spec_direction_word(rule@.direction),
            "action="@ + lower_seq(rule@.action),
        ]);
    }
    if rule.description.unicode_len() > 0 {
        push_joined(&mut args, "description=", rule.description.as_str());
    }
    match &rule.application_path {
        Some(path) => {
            if path.as_str().unicode_len() > 0 {
                let quoted_path = quote_if_needed(path.as_str());
                push_joined(&mut args, "program=", quoted_path.as_str());
            }
        },
        None => {
            if !str_eq(rule.protocol.as_str(), "Any") {
                let proto_lower = to_lower(rule.protocol.as_str());
                push_joined(&mut args, "protocol=", proto_lower.as_str());
            }
            match rule.port {
                Some(p) => {
                    let mut port_arg = String::from_str("localport=");
                    append_decimal(&mut port_arg, p as u64);
                    let ghost before = args.deep_view();
                    args.push(port_arg);
                    proof {
                        assert(args.deep_view() =~= before.push(
                            "localport="@ + spec_decimal(p as nat),
                        ));
                    }
                },
                None => {},
            }
        },
    }
    if rule.enabled {
        push_joined(&mut args, "enable=", "yes");
    } else {
        push_joined(&mut args, "enable=", "no");
    }
    proof {
        assert(args.deep_view() =~= spec_add_rule_args(rule@));
    }
    args
}

/// The argument list that deletes the rule named `name`.
pub open spec fn spec_delete_rule_args(name: Seq<char>) -> Seq<Seq<char>> {
    seq!["advfirewall"@, "firewall"@, "delete"@, "rule"@, "name="@ + spec_quote(name)]
}

/// Builds the netsh arguments that delete the rule named `name`.
pub fn build_delete_rule_args(name: &str) -> (r: Vec<String>)
    ensures
        r.deep_view() == spec_delete_rule_args(name@),
{
    let mut args: Vec<String> = Vec::new();
    args.push(String::from_str("advfirewall"));
    args.push(String::from_str("firewall"));
    args.push(String::from_str("delete"));
    args.push(String::from_str("rule"));
    let quoted = quote_if_needed(name);
    push_joined(&mut args, "name=", quoted.as_str());
    proof {
        assert(args.deep_view() =~= spec_delete_rule_args(name@));
    }
    args
}

/// The argument list that enables or disables the rule named `name`.
pub open spec fn spec_set_rule_args(name: Seq<char>, enable: bool) -> Seq<Seq<char>> {
    seq![
        "advfirewall"@,
        "firewall"@,
        "set"@,
        "rule"@,
        "name="@ + spec_quote(name),
        "new"@,
        "enable="@ + (if enable {
            "yes"@
        } else {
            "no"@
        }),
    ]
}

/// Builds the netsh arguments that enable or disable a rule.
pub fn build_set_rule_args(name: &str, enable: bool) -> (r: Vec<String>)
    ensures
        r.deep_view() == spec_set_rule_args(name@, enable),
{
    let mut args: Vec<String> = Vec::new();
    args.push(String::from_str("advfirewall"));
    args.push(String::from_str("firewall"));
    args.push(String::from_str("set"));
    args.push(String::from_str("rule"));
    let quoted = quote_if_needed(name);
    push_joined(&mut args, "name=", quoted.as_str());
    let ghost before_new = args.deep_view();
    args.push(String::from_str("new"));
    proof {
        assert(args.deep_view() =~= before_new.push("new"@));
    }
    if enable {
        push_joined(&mut args, "enable=", "yes");
    } else {
        push_joined(&mut args, "enable=", "no");
    }
    proof {
        assert(args.deep_view() =~= spec_set_rule_args(name@, enable));
    }
    args
}

/// Index of the first rule named `name`, or `s.len()` if none.
pub open spec fn find_rule(s: Seq<RuleInfoView>, name: Seq<char>) -> int
    decreases s.len(),
{
    if s.len() == 0 {
        0
    } else if s[0].name == name {
        0
    } else {
        1 + find_rule(s.drop_first(), name)
    }
}

pub proof fn lemma_find_rule(s: Seq<RuleInfoView>, name: Seq<char>)
    ensures
        0 <= find_rule(s, name) <= s.len(),
        find_rule(s, name) < s.len() ==> s[find_rule(s, name)].name == name,
        forall|j: int| 0 <= j < find_rule(s, name) ==> (#[trigger] s[j]).name != name,
    decreases s.len(),
{
    if s.len() > 0 && s[0].name != name {
        lemma_find_rule(s.drop_first(), name);
        assert(forall|j: int|
            1 <= j < find_rule(s, name) ==> #[trigger] s[j] == s.drop_first()[j - 1]);
    }
}

pub proof fn lemma_find_rule_is(s: Seq<RuleInfoView>, name: Seq<char>, i: int)
    requires
        0 <= i <= s.len(),
        i < s.len() ==> s[i].name == name,
        forall|j: int| 0 <= j < i ==> (#[trigger] s[j]).name != name,
        i == s.len() ==> forall|j: int| 0 <= j < s.len() ==> (#[trigger] s[j]).name != name,
    ensures
        find_rule(s, name) == i,
{
    lemma_find_rule(s, name);
    if find_rule(s, name) < i {
        assert(s[find_rule(s, name)].name == name);
    } else if i < find_rule(s, name) {
        assert(s[i].name == name);
    }
}

/// The rule list with every rule named `name` removed.
pub open spec fn spec_remove_rules(s: Seq<RuleInfoView>, name: Seq<char>) -> Seq<RuleInfoView>
    decreases s.len(),
{
    if s.len() == 0 {
        s
    } else if s[0].name == name {
        spec_remove_rules(s.drop_first(), name)
    } else {
        seq![s[0]] + spec_remove_rules(s.drop_first(), name)
    }
}

/// The rule list with the first rule named `name` toggled.
pub open spec fn spec_set_enabled(
    s: Seq<RuleInfoView>,
    name: Seq<char>,
    enable: bool,
) -> Seq<RuleInfoView> {
    let i = find_rule(s, name);
    if i < s.len() {
        s.update(i, RuleInfoView { enabled: enable, ..s[i] })
    } else {
        s
    }
}

/// The cached snapshot of the host's firewall rules.
pub struct FirewallState {
    rules: Vec<FirewallRuleInfo>,
}

impl View for FirewallState {
    type V = Seq<RuleInfoView>;

    closed spec fn view(&self) -> Seq<RuleInfoView> {
        self.rules.deep_view()
    }
}

impl Default for FirewallState {
    /// An empty snapshot.
    fn default() -> (r: Self)
        ensures
            r@ == Seq::<RuleInfoView>::empty(),
    {
        let r = FirewallState { rules: Vec::new() };
        proof {
            assert(r@ =~= Seq::<RuleInfoView>::empty());
        }
        r
    }
}

impl FirewallState {
    /// Number of cached rules.
    pub fn len(&self) -> (r: usize)
        ensures
            r == self@.len(),
    {
        self.rules.len()
    }

    /// Replaces the snapshot with a freshly parsed listing.
    pub fn replace_all(&mut self, rules: Vec<FirewallRuleInfo>)
        ensures
            final(self)@ == rules.deep_view(),
    {
        self.rules = rules;
    }

    /// The cached rules, in order.
    pub fn list(&self) -> (r: Vec<FirewallRuleInfo>)
        ensures
            r.deep_view() == self@,
    {
        let n = self.rules.len();
        let mut out: Vec<FirewallRuleInfo> = Vec::new();
        let mut i: usize = 0;
        proof {
            assert(out.deep_view() =~= self@.take(0));
        }
        while i < n
            invariant
                0 <= i <= n,
                n == self.rules@.len(),
                out.deep_view() == self@.take(i as int),
            decreases n - i,
        {
            let ghost out0 = out.deep_view();
            let e = &self.rules[i];
            let copied = FirewallRuleInfo {
                name: e.name.clone(),
                description: e.description.clone(),
                application_path: match &e.application_path {
                    Some(p) => Some(p.clone()),
                    None => None,
                },
                port: e.port,
                protocol: e.protocol.clone(),
                direction: e.direction.clone(),
                action: e.action.clone(),
                enabled: e.enabled,
            };
            out.push(copied);
            proof {
                assert(self.rules@[i as int]@ == self@[i as int]);
                assert(out.deep_view() =~= out0.push(self@[i as int]));
                assert(out0.push(self@[i as int]) =~= self@.take(i + 1));
            }
            i = i + 1;
        }
        proof {
            assert(self@.take(n as int) =~= self@);
        }
        out
    }

    /// Records a rule the executor just created.
    pub fn record_rule(&mut self, rule: FirewallRuleInfo)
        ensures
            final(self)@ == old(self)@.push(rule@),
    {
        let ghost before = self@;
        let ghost rv = rule@;
        self.rules.push(rule);
        proof {
            assert(self@ =~= before.push(rv));
        }
    }

    /// Forgets every cached rule named `name`.
    pub fn remove_rule(&mut self, name: &str)
        ensures
            final(self)@ == spec_remove_rules(old(self)@, name@),
    {
        let ghost dv = old(self)@;
        let n = self.rules.len();
        let mut out: Vec<FirewallRuleInfo> = Vec::new();
        proof {
            assert(out.deep_view() =~= Seq::<RuleInfoView>::empty());
            assert(dv.skip(0) =~= dv);
            assert(out.deep_view() + spec_remove_rules(dv.skip(0), name@) =~= spec_remove_rules(
                dv,
                name@,
            ));
        }
        let mut i: usize = 0;
        while i < n
            invariant
                0 <= i <= n,
                n == self.rules@.len(),
                self@ == dv,
                spec_remove_rules(dv, name@) == out.deep_view() + spec_remove_rules(
                    dv.skip(i as int),
                    name@,
                ),
            decreases n - i,
        {
            let ghost rest = dv.skip(i as int);
            let ghost out0 = out.deep_view();
            proof {
                assert(rest[0] == dv[i as int]);
                assert(rest.drop_first() =~= dv.skip(i + 1));
                assert(self.rules@[i as int]@ == dv[i as int]);
            }
            if !str_eq(self.rules[i].name.as_str(), name) {
                let e = &self.rules[i];
                let kept = FirewallRuleInfo {
                    name: e.name.clone(),
                    description: e.description.clone(),
                    application_path: match &e.application_path {
                        Some(p) => Some(p.clone()),
                        None => None,
                    },
                    port: e.port,
                    protocol: e.protocol.clone(),
                    direction: e.direction.clone(),
                    action: e.action.clone(),
                    enabled: e.enabled,
                };
                out.push(kept);
                proof {
                    assert(out.deep_view() =~= out0.push(dv[i as int]));
                    assert(out.deep_view() + spec_remove_rules(dv.skip(i + 1), name@) =~= out0 + (
                    seq![rest[0]] + spec_remove_rules(rest.drop_first(), name@)));
                }
            }
            i = i + 1;
        }
        proof {
            assert(dv.skip(n as int).len() == 0);
            assert(spec_remove_rules(dv.skip(n as int), name@) =~= Seq::<RuleInfoView>::empty());
            assert(out.deep_view() =~= spec_remove_rules(dv, name@));
        }
        self.rules = out;
    }

    /// Toggles the first cached rule named `name`, if any.
    pub fn set_rule_enabled(&mut self, name: &str, enable: bool)
        ensures
            final(self)@ == spec_set_enabled(old(self)@, name@, enable),
    {
        let ghost dv = old(self)@;
        let n = self.rules.len();
        let mut i: usize = 0;
        while i < n
            invariant
                0 <= i <= n,
                n == self.rules@.len(),
                self@ == dv,
                dv == old(self)@,
                forall|j: int| 0 <= j < i ==> (#[trigger] dv[j]).name != name@,
            decreases n - i,
        {
            proof {
                assert(self@[i as int] == self.rules@[i as int]@);
            }
            if str_eq(self.rules[i].name.as_str(), name) {
                proof {
                    lemma_find_rule_is(dv, name@, i as int);
                }
                let e = &self.rules[i];
                let toggled = FirewallRuleInfo {
                    name: e.name.clone(),
                    description: e.description.clone(),
                    application_path: match &e.application_path {
                        Some(p) => Some(p.clone()),
                        None => None,
                    },
                    port: e.port,
                    protocol: e.protocol.clone(),
                    direction: e.direction.clone(),
                    action: e.action.clone(),
                    enabled: enable,
                };
                self.rules.set(i, toggled);
                proof {
                    assert(self@ =~= dv.update(
                        i as int,
                        RuleInfoView { enabled: enable, ..dv[i as int] },
                    ));
                }
                return ;
            }
            i = i + 1;
        }
        proof {
            lemma_find_rule_is(dv, name@, n as int);
        }
    }
}

} // verus!
