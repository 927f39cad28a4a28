//! The rule compiler: turning a domain and its resolved addresses into
//! deterministic rule descriptors and into the script the executor runs.
//!
//! Rule identifiers derive from the domain, the direction and the
//! 1-based ordinal of the address alone, so re-running block or unblock
//! regenerates the same identifiers. With a single address no ordinal
//! suffix is used; unblock therefore tries the unsuffixed identifiers,
//! a bounded range of suffixed ones, and a legacy name, treating each
//! missing rule as a non-fatal case.

use vstd::prelude::*;

use crate::text::{append_decimal, spec_decimal};

verus! {

/// The direction a rule filters.
#[derive(Clone, Copy, Debug, PartialEq, Eq, Structural)]
pub enum Direction {
    Outbound,
    Inbound,
}

/// One firewall rule to create: a direction, an address, and the
/// deterministically derived rule identifier.
#[derive(Debug)]
pub struct RuleDescriptor {
    pub domain: String,
    pub direction: Direction,
    pub ip: String,
    pub rule_id: String,
}

/// The mathematical shadow of a [`RuleDescriptor`].
pub ghost struct DescriptorView {
    pub domain: Seq<char>,
    pub direction: Direction,
    pub ip: Seq<char>,
    pub rule_id: Seq<char>,
}

impl View for RuleDescriptor {
    type V = DescriptorView;

    open spec fn view(&self) -> DescriptorView {
        DescriptorView {
            domain: self.domain@,
            direction: self.direction,
            ip: self.ip@,
            rule_id: self.rule_id@,
        }
    }
}

impl DeepView for RuleDescriptor {
    type V = DescriptorView;

    open spec fn deep_view(&self) -> DescriptorView {
        self.view()
    }
}

/// The fixed identifier prefix of a direction.
pub open spec fn direction_prefix(d: Direction) -> Seq<char> {
    match d {
        Direction::Outbound => "Block-Domain-Outbound-"@,
        Direction::Inbound => "Block-Domain-Inbound-"@,
    }
}

/// The rule identifier for one address of a domain: the direction
/// prefix and the domain, with a `-ordinal` suffix only when the
/// address set has more than one entry.
pub open spec fn spec_rule_id(domain: Seq<char>, d: Direction, ordinal: nat, multi: bool) -> Seq<
    char,
> {
    if multi {
        direction_prefix(d) + domain + "-"@ + spec_decimal(ordinal)
    } else {
        direction_prefix(d) + domain
    }
}

/// Builds the identifier [`spec_rule_id`] describes.
pub fn build_rule_id(domain: &str, direction: Direction, ordinal: u64, multi: bool) -> (r: String)
    ensures
        r@ == spec_rule_id(domain@, direction, ordinal as nat, multi),
{
    let mut s = match direction {
        Direction::Outbound => String::from_str("Block-Domain-Outbound-"),
        Direction::Inbound => String::from_str("Block-Domain-Inbound-"),
    };
    s.append(domain);
    if multi {
        s.append("-");
        append_decimal(&mut s, ordinal);
        proof {
            assert(s@ =~= spec_rule_id(domain@, direction, ordinal as nat, multi));
        }
    }
    s
}

/// The descriptors for one domain and address list: for the `i`-th
/// address, an outbound descriptor at position `2i` and an inbound one
/// at `2i + 1`, both with ordinal `i + 1`.
pub open spec fn spec_compile_block(domain: Seq<char>, ips: Seq<Seq<char>>) -> Seq<DescriptorView> {
    Seq::new(
        2 * ips.len(),
        |k: int|
            {
                let i = k / 2;
                let dir = if k % 2 == 0 {
                    Direction::Outbound
                } else {
                    Direction::Inbound
                };
                DescriptorView {
                    domain: domain,
                    direction: dir,
                    ip: ips[i],
                    rule_id: spec_rule_id(domain, dir, (i + 1) as nat, ips.len() > 1),
                }
            },
    )
}

/// Compiles the block request for `domain` into its descriptors.
pub fn compile_block(domain: &str, ips: &Vec<String>) -> (r: Vec<RuleDescriptor>)
    ensures
        r.deep_view() == spec_compile_block(domain@, ips.deep_view()),
        r@.len() == 2 * ips@.len(),
{
    let ghost dv = ips.deep_view();
    let n = ips.len();
    let multi = n > 1;
    let mut r: Vec<RuleDescriptor> = Vec::new();
    let mut i: usize = 0;
    while i < n
        invariant
            0 <= i <= n,
            n == ips@.len(),
            dv == ips.deep_view(),
            multi == (n > 1),
            r@.len() == 2 * i,
            r.deep_view() == spec_compile_block(domain@, dv).take(2 * i),
        decreases n - i,
    {
        let ordinal = (i as u64) + 1;
        let out_desc = RuleDescriptor {
            domain: String::from_str(domain),
            direction: Direction::Outbound,
            ip: ips[i].clone(),
            rule_id: build_rule_id(domain, Direction::Outbound, ordinal, multi),
        };
        let in_desc = RuleDescriptor {
            domain: String::from_str(domain),
            direction: Direction::Inbound,
            ip: ips[i].clone(),
            rule_id: build_rule_id(domain, Direction::Inbound, ordinal, multi),
        };
        r.push(out_desc);
        r.push(in_desc);
        proof {
            let full = spec_compile_block(domain@, dv);
            assert((2 * i as int) / 2 == i as int && (2 * i as int) % 2 == 0);
            assert((2 * i as int + 1) / 2 == i as int && (2 * i as int + 1) % 2 == 1);
            assert(dv[i as int] == ips@[i as int]@);
            assert(r.deep_view() =~= full.take(2 * (i + 1)));
        }
        i = i + 1;
    }
    proof {
        assert(spec_compile_block(domain@, dv).take(2 * n) =~= spec_compile_block(domain@, dv));
    }
    r
}

/// Compiling the same domain and address set always yields the same
/// descriptor list: the result is a function of the inputs alone.
pub proof fn lemma_compile_block_deterministic(
    domain: Seq<char>,
    ips: Seq<Seq<char>>,
    a: Seq<DescriptorView>,
    b: Seq<DescriptorView>,
)
    requires
        a == spec_compile_block(domain, ips),
        b == spec_compile_block(domain, ips),
    ensures
        a == b,
{
}

/// The bound below which unblock tries numbered identifiers.
pub const UNBLOCK_ORDINAL_BOUND: u64 = 20;

/// The numbered candidate identifiers for ordinals `i` up to the
/// bound, an outbound/inbound pair each.
pub open spec fn spec_unblock_numbered(domain: Seq<char>, i: nat) -> Seq<Seq<char>>
    decreases UNBLOCK_ORDINAL_BOUND - i,
{
    if i >= UNBLOCK_ORDINAL_BOUND {
        Seq::empty()
    } else {
        seq![
            spec_rule_id(domain, Direction::Outbound, i, true),
            spec_rule_id(domain, Direction::Inbound, i, true),
        ] + spec_unblock_numbered(domain, i + 1)
    }
}

/// Every identifier unblock must try for a domain: the unsuffixed
/// pair, the numbered pairs below the bound, and the legacy name.
pub open spec fn spec_unblock_candidates(domain: Seq<char>) -> Seq<Seq<char>> {
    seq![
        spec_rule_id(domain, Direction::Outbound, 0, false),
        spec_rule_id(domain, Direction::Inbound, 0, false),
    ] + spec_unblock_numbered(domain, 1) + seq!["Block-Domain-"@ + domain]
}

/// Compiles the unblock request for `domain` into the candidate rule
/// identifiers to delete, in a fixed order.
pub fn compile_unblock(domain: &str) -> (r: Vec<String>)
    ensures
        r.deep_view() == spec_unblock_candidates(domain@),
{
    let ghost legacy_part = seq!["Block-Domain-"@ + domain@];
    let mut r: Vec<String> = Vec::new();
    r.push(build_rule_id(domain, Direction::Outbound, 0, false));
    r.push(build_rule_id(domain, Direction::Inbound, 0, false));
    proof {
        assert(spec_unblock_candidates(domain@) =~= r.deep_view() + spec_unblock_numbered(
            domain@,
            1,
        ) + legacy_part);
    }
    let mut i: u64 = 1;
    while i < UNBLOCK_ORDINAL_BOUND
        invariant
            1 <= i <= UNBLOCK_ORDINAL_BOUND,
            legacy_part == seq!["Block-Domain-"@ + domain@],
            spec_unblock_candidates(domain@) == r.deep_view() + spec_unblock_numbered(
                domain@,
                i as nat,
            ) + legacy_part,
        decreases UNBLOCK_ORDINAL_BOUND - i,
    {
        r.push(build_rule_id(domain, Direction::Outbound, i, true));
        r.push(build_rule_id(domain, Direction::Inbound, i, true));
        proof {
            assert(r.deep_view() + spec_unblock_numbered(domain@, (i + 1) as nat) + legacy_part
                =~= spec_unblock_candidates(domain@));
        }
        i = i + 1;
    }
    let mut legacy = String::from_str("Block-Domain-");
    legacy.append(domain);
    r.push(legacy);
    proof {
        assert(spec_unblock_numbered(domain@, UNBLOCK_ORDINAL_BOUND as nat) =~= Seq::<
            Seq<char>,
        >::empty());
        assert(r.deep_view() =~= spec_unblock_candidates(domain@));
    }
    r
}

proof fn lemma_numbered_contains(domain: Seq<char>, i: nat, k: nat)
    requires
        1 <= i <= k < UNBLOCK_ORDINAL_BOUND,
    ensures
        crate::store::seq_contains(
            spec_unblock_numbered(domain, i),
            spec_rule_id(domain, Direction::Outbound, k, true),
        ),
        crate::store::seq_contains(
            spec_unblock_numbered(domain, i),
            spec_rule_id(domain, Direction::Inbound, k, true),
        ),
    decreases UNBLOCK_ORDINAL_BOUND - i,
{
    let s = spec_unblock_numbered(domain, i);
    let pair = seq![
        spec_rule_id(domain, Direction::Outbound, i, true),
        spec_rule_id(domain, Direction::Inbound, i, true),
    ];
    assert(s == pair + spec_unblock_numbered(domain, i + 1));
    if i == k {
        assert(s[0] == spec_rule_id(domain, Direction::Outbound, k, true));
        assert(s[1] == spec_rule_id(domain, Direction::Inbound, k, true));
    } else {
        lemma_numbered_contains(domain, i + 1, k);
        let rest = spec_unblock_numbered(domain, i + 1);
        let out_j = choose|j: int|
            0 <= j < rest.len() && rest[j] == spec_rule_id(domain, Direction::Outbound, k, true);
        assert(s[out_j + 2] == spec_rule_id(domain, Direction::Outbound, k, true));
        let in_j = choose|j: int|
            0 <= j < rest.len() && rest[j] == spec_rule_id(domain, Direction::Inbound, k, true);
        assert(s[in_j + 2] == spec_rule_id(domain, Direction::Inbound, k, true));
    }
}

/// Unblock can delete whatever block created: with at most nineteen
/// addresses (the bounded ordinal range), every rule identifier among
/// the compiled block descriptors is one of the unblock candidates,
/// with no record of the addresses needed.
pub proof fn lemma_unblock_covers_block(domain: Seq<char>, ips: Seq<Seq<char>>, k: int)
    requires
        1 <= ips.len() < UNBLOCK_ORDINAL_BOUND,
        0 <= k < 2 * ips.len(),
    ensures
        crate::store::seq_contains(
            spec_unblock_candidates(domain),
            spec_compile_block(domain, ips)[k].rule_id,
        ),
{
    let id = spec_compile_block(domain, ips)[k].rule_id;
    let ordinal = (k / 2 + 1) as nat;
    let dir = if k % 2 == 0 {
        Direction::Outbound
    } else {
        Direction::Inbound
    };
    assert(id == spec_rule_id(domain, dir, ordinal, ips.len() > 1));
    let cands = spec_unblock_candidates(domain);
    let base = seq![
        spec_rule_id(domain, Direction::Outbound, 0, false),
        spec_rule_id(domain, Direction::Inbound, 0, false),
    ];
    let numbered = spec_unblock_numbered(domain, 1);
    assert(cands == base + numbered + seq!["Block-Domain-"@ + domain]);
    if ips.len() == 1 {
        assert(id == spec_rule_id(domain, dir, ordinal, false));
        if k == 0 {
            assert(cands[0] == id);
        } else {
            assert(cands[1] == id);
        }
    } else {
        assert(1 <= ordinal < UNBLOCK_ORDINAL_BOUND);
        lemma_numbered_contains(domain, 1, ordinal);
        let j = choose|j: int|
            0 <= j < numbered.len() && numbered[j] == spec_rule_id(domain, dir, ordinal, true);
        assert(cands[j + 2] == id);
    }
}

/// The description text of an outbound rule.
pub open spec fn spec_outbound_desc(domain: Seq<char>, ip: Seq<char>) -> Seq<char> {
    "Blocks outgoing connections to domain: "@ + domain + " (IP: "@ + ip + ")"@
}

/// The description text of an inbound rule.
pub open spec fn spec_inbound_desc(domain: Seq<char>, ip: Seq<char>) -> Seq<char> {
    "Blocks incoming connections from domain: "@ + domain + " (IP: "@ + ip + ")"@
}

/// One `netsh ... add rule` line of the block script.
pub open spec fn spec_add_rule_line(
    name: Seq<char>,
    dir_word: Seq<char>,
    desc: Seq<char>,
    ip: Seq<char>,
) -> Seq<char> {
    "    netsh advfirewall firewall add rule name=\""@ + name + "\" dir="@ + dir_word
        + " action=block enable=yes protocol=any description=\""@ + desc + "\" remoteip="@ + ip
        + "\n"@
}

/// The per-address lines of the block script, from index `i` on: an
/// outbound line then an inbound line for each address.
pub open spec fn spec_block_body(domain: Seq<char>, ips: Seq<Seq<char>>, i: int) -> Seq<char>
    decreases ips.len() - i,
{
    if i < 0 || i >= ips.len() {
        Seq::empty()
    } else {
        spec_add_rule_line(
            spec_rule_id(domain, Direction::Outbound, (i + 1) as nat, ips.len() > 1),
            "out"@,
            spec_outbound_desc(domain, ips[i]),
            ips[i],
        ) + spec_add_rule_line(
            spec_rule_id(domain, Direction::Inbound, (i + 1) as nat, ips.len() > 1),
            "in"@,
            spec_inbound_desc(domain, ips[i]),
            ips[i],
        ) + spec_block_body(domain, ips, i + 1)
    }
}

/// The whole block script: a strict preamble, the per-address lines,
/// and a reporting epilogue.
pub open spec fn spec_block_script(domain: Seq<char>, ips: Seq<Seq<char>>) -> Seq<char> {
    "$ErrorActionPreference = 'Stop'\ntry {\n"@ + spec_block_body(domain, ips, 0)
        + "    Write-Host \"Successfully created all firewall rules\"\n} catch {\n    Write-Host \"Error creating firewall rules: $_\"\n    exit 1\n}\n"@
}

fn append_add_rule_line(out: &mut String, name: &String, dir_word: &str, desc: &String, ip: &str)
    ensures
        final(out)@ == old(out)@ + spec_add_rule_line(name@, dir_word@, desc@, ip@),
{
    out.append("    netsh advfirewall firewall add rule name=\"");
    out.append(name.as_str());
    out.append("\" dir=");
    out.append(dir_word);
    out.append(" action=block enable=yes protocol=any description=\"");
    out.append(desc.as_str());
    out.append("\" remoteip=");
    out.append(ip);
    out.append("\n");
    proof {
        assert(out@ =~= old(out)@ + spec_add_rule_line(name@, dir_word@, desc@, ip@));
    }
}

fn build_outbound_desc(domain: &str, ip: &str) -> (r: String)
    ensures
        r@ == spec_outbound_desc(domain@, ip@),
{
    let mut s = String::from_str("Blocks outgoing connections to domain: ");
    s.append(domain);
    s.append(" (IP: ");
    s.append(ip);
    s.append(")");
    proof {
        assert(s@ =~= spec_outbound_desc(domain@, ip@));
    }
    s
}

fn build_inbound_desc(domain: &str, ip: &str) -> (r: String)
    ensures
        r@ == spec_inbound_desc(domain@, ip@),
{
    let mut s = String::from_str("Blocks incoming connections from domain: ");
    s.append(domain);
    s.append(" (IP: ");
    s.append(ip);
    s.append(")");
    proof {
        assert(s@ =~= spec_inbound_desc(domain@, ip@));
    }
    s
}

/// Builds the script that creates both rules for every address, as
/// [`spec_block_script`] describes it.
pub fn build_block_script(domain: &str, ips: &Vec<String>) -> (r: String)
    ensures
        r@ == spec_block_script(domain@, ips.deep_view()),
{
    let ghost dv = ips.deep_view();
    let n = ips.len();
    let multi = n > 1;
    let mut s = String::from_str("$ErrorActionPreference = 'Stop'\ntry {\n");
    let ghost header = s@;
    let mut i: usize = 0;
    while i < n
        invariant
            0 <= i <= n,
            n == ips@.len(),
            dv == ips.deep_view(),
            multi == (n > 1),
            header + spec_block_body(domain@, dv, 0) == s@ + spec_block_body(domain@, dv, i as int),
        decreases n - i,
    {
        let ordinal = (i as u64) + 1;
        let out_id = build_rule_id(domain, Direction::Outbound, ordinal, multi);
        let out_desc = build_outbound_desc(domain, ips[i].as_str());
        append_add_rule_line(&mut s, &out_id, "out", &out_desc, ips[i].as_str());
        let in_id = build_rule_id(domain, Direction::Inbound, ordinal, multi);
        let in_desc = build_inbound_desc(domain, ips[i].as_str());
        append_add_rule_line(&mut s, &in_id, "in", &in_desc, ips[i].as_str());
        proof {
            assert(dv[i as int] == ips@[i as int]@);
            assert(s@ + spec_block_body(domain@, dv, i + 1) =~= header + spec_block_body(
                domain@,
                dv,
                0,
            ));
        }
        i = i + 1;
    }
    proof {
        assert(spec_block_body(domain@, dv, n as int) =~= Seq::<char>::empty());
        assert(s@ =~= header + spec_block_body(domain@, dv, 0));
    }
    s.append(
        "    Write-Host \"Successfully created all firewall rules\"\n} catch {\n    Write-Host \"Error creating firewall rules: $_\"\n    exit 1\n}\n",
    );
    proof {
        assert(s@ =~= spec_block_script(domain@, dv));
    }
    s
}

/// One `netsh ... delete rule` line of the unblock script; a missing
/// rule only prints a note.
pub open spec fn spec_delete_line(name: Seq<char>) -> Seq<char> {
    "try { netsh advfirewall firewall delete rule name=\""@ + name
        + "\"; $removed_count++ } catch { Write-Host \"Rule not found\" }\n"@
}

/// The delete lines for all candidates from index `i` on.
pub open spec fn spec_delete_lines(names: Seq<Seq<char>>, i: int) -> Seq<char>
    decreases names.len() - i,
{
    if i < 0 || i >= names.len() {
        Seq::empty()
    } else {
        spec_delete_line(names[i]) + spec_delete_lines(names, i + 1)
    }
}

/// The whole unblock script: a tolerant preamble, one delete line per
/// candidate identifier, and a count-reporting epilogue.
pub open spec fn spec_unblock_script(domain: Seq<char>) -> Seq<char> {
    "$ErrorActionPreference = 'Continue'\n$removed_count = 0\n\n"@ + spec_delete_lines(
        spec_unblock_candidates(domain),
        0,
    ) + "\nWrite-Host \"Removed $removed_count firewall rules for domain: "@ + domain + "\"\n"@
}

/// Builds the script that best-effort deletes every candidate rule of
/// a domain, as [`spec_unblock_script`] describes it.
pub fn build_unblock_script(domain: &str) -> (r: String)
    ensures
        r@ == spec_unblock_script(domain@),
{
    let names = compile_unblock(domain);
    let ghost dv = names.deep_view();
    let n = names.len();
    let mut s = String::from_str("$ErrorActionPreference = 'Continue'\n$removed_count = 0\n\n");
    let ghost header = s@;
    let mut i: usize = 0;
    while i < n
        invariant
            0 <= i <= n,
            n == names@.len(),
            dv == names.deep_view(),
            header + spec_delete_lines(dv, 0) == s@ + spec_delete_lines(dv, i as int),
        decreases n - i,
    {
        s.append("try { netsh advfirewall firewall delete rule name=\"");
        s.append(names[i].as_str());
        s.append("\"; $removed_count++ } catch { Write-Host \"Rule not found\" }\n");
        proof {
            assert(dv[i as int] == names@[i as int]@);
            assert(s@ + spec_delete_lines(dv, i + 1) =~= header + spec_delete_lines(dv, 0));
        }
        i = i + 1;
    }
    proof {
        assert(spec_delete_lines(dv, n as int) =~= Seq::<char>::empty());
        assert(s@ =~= header + spec_delete_lines(dv, 0));
    }
    s.append("\nWrite-Host \"Removed $removed_count firewall rules for domain: ");
    s.append(domain);
    s.append("\"\n");
    proof {
        assert(s@ =~= spec_unblock_script(domain@));
    }
    s
}

} // verus!
