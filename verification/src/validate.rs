//! Validation of domain names and of IPv4/IPv6 literals.
//!
//! A domain is one or more labels (1-63 characters, alphanumeric at both
//! ends, alphanumeric or `-` inside), each followed by a dot, then a
//! top-level label of at least two letters. An IPv4 literal is four
//! dot-separated runs of one to three digits, each valuing at most 255.
//! An IPv6 literal is eight colon-separated groups of one to four hex
//! digits, or a compressed form with one `::` standing for at least one
//! zero group.

use vstd::prelude::*;

use crate::text::{all_digits, dec_value, first_ix, is_digit, lemma_first_ix, lemma_first_ix_is};
use crate::text::find_char_from;

verus! {

/// ASCII letter.
pub open spec fn is_alpha(c: char) -> bool {
    ('a' as u32) <= (c as u32) <= ('z' as u32) || ('A' as u32) <= (c as u32) <= ('Z' as u32)
}

/// ASCII letter or digit.
pub open spec fn is_alnum(c: char) -> bool {
    is_alpha(c) || is_digit(c)
}

/// Character allowed inside a domain label.
pub open spec fn is_label_char(c: char) -> bool {
    is_alnum(c) || c == '-'
}

/// Hexadecimal digit.
pub open spec fn is_hex_digit(c: char) -> bool {
    is_digit(c) || ('a' as u32) <= (c as u32) <= ('f' as u32) || ('A' as u32) <= (c as u32) <= (
    'F' as u32)
}

/// Domain label: 1-63 characters, alphanumeric at both ends,
/// alphanumeric or `-` elsewhere.
pub open spec fn is_label(p: Seq<char>) -> bool {
    &&& 1 <= p.len() <= 63
    &&& is_alnum(p[0])
    &&& is_alnum(p[p.len() - 1])
    &&& forall|i: int| 0 <= i < p.len() ==> is_label_char(p[i])
}

/// Top-level label: at least two letters.
pub open spec fn is_tld(p: Seq<char>) -> bool {
    p.len() >= 2 && forall|i: int| 0 <= i < p.len() ==> is_alpha(p[i])
}

/// One or more labels, each followed by a dot, then a top-level label.
pub open spec fn valid_labels_from(s: Seq<char>) -> bool
    decreases s.len(),
{
    let i = first_ix(s, '.');
    if i >= s.len() {
        is_tld(s)
    } else {
        proof {
            lemma_first_ix(s, '.');
        }
        is_label(s.take(i)) && valid_labels_from(s.skip(i + 1))
    }
}

/// The domain grammar: at least one dot, labels before each dot, a
/// top-level label after the last one.
pub open spec fn valid_domain(s: Seq<char>) -> bool {
    first_ix(s, '.') < s.len() && valid_labels_from(s)
}

/// IPv4 octet: one to three digits valuing at most 255.
pub open spec fn is_octet(p: Seq<char>) -> bool {
    1 <= p.len() <= 3 && all_digits(p) && dec_value(p) <= 255
}

/// `k` remaining dot-separated octets.
pub open spec fn valid_octets_from(s: Seq<char>, k: nat) -> bool
    decreases s.len(),
{
    let i = first_ix(s, '.');
    if i >= s.len() {
        k == 1 && is_octet(s)
    } else {
        proof {
            lemma_first_ix(s, '.');
        }
        k > 1 && is_octet(s.take(i)) && valid_octets_from(s.skip(i + 1), (k - 1) as nat)
    }
}

/// The IPv4 grammar: exactly four dot-separated octets.
pub open spec fn valid_ipv4(s: Seq<char>) -> bool {
    valid_octets_from(s, 4)
}

/// IPv6 group: one to four hex digits.
pub open spec fn is_hex_group(p: Seq<char>) -> bool {
    1 <= p.len() <= 4 && forall|i: int| 0 <= i < p.len() ==> is_hex_digit(p[i])
}

/// Every colon-separated part of `s` is a hex group.
pub open spec fn valid_groups_from(s: Seq<char>) -> bool
    decreases s.len(),
{
    let i = first_ix(s, ':');
    if i >= s.len() {
        is_hex_group(s)
    } else {
        proof {
            lemma_first_ix(s, ':');
        }
        is_hex_group(s.take(i)) && valid_groups_from(s.skip(i + 1))
    }
}

/// Number of colon-separated parts of `s`.
pub open spec fn group_count(s: Seq<char>) -> nat
    decreases s.len(),
{
    let i = first_ix(s, ':');
    if i >= s.len() {
        1
    } else {
        proof {
            lemma_first_ix(s, ':');
        }
        1 + group_count(s.skip(i + 1))
    }
}

/// Index of the first `::` in `s`, or `s.len()` if there is none.
pub open spec fn first_dc(s: Seq<char>) -> int
    decreases s.len(),
{
    if s.len() < 2 {
        s.len() as int
    } else if s[0] == ':' && s[1] == ':' {
        0
    } else {
        1 + first_dc(s.drop_first())
    }
}

pub proof fn lemma_first_dc(s: Seq<char>)
    ensures
        0 <= first_dc(s) <= s.len(),
        first_dc(s) < s.len() ==> first_dc(s) + 1 < s.len() && s[first_dc(s)] == ':' && s[first_dc(
            s,
        ) + 1] == ':',
        forall|j: int|
            0 <= j < first_dc(s) && j + 1 < s.len() ==> !(#[trigger] s[j] == ':' && s[j + 1]
                == ':'),
    decreases s.len(),
{
    if s.len() >= 2 && !(s[0] == ':' && s[1] == ':') {
        lemma_first_dc(s.drop_first());
        assert(forall|j: int|
            1 <= j < first_dc(s) && j + 1 < s.len() ==> #[trigger] s[j] == s.drop_first()[j - 1]
                && s[j + 1] == s.drop_first()[j]);
    }
}

pub proof fn lemma_first_dc_is(s: Seq<char>, i: int)
    requires
        0 <= i <= s.len(),
        i < s.len() ==> i + 1 < s.len() && s[i] == ':' && s[i + 1] == ':',
        forall|j: int|
            0 <= j < i && j + 1 < s.len() ==> !(#[trigger] s[j] == ':' && s[j + 1] == ':'),
        i == s.len() ==> forall|j: int|
            0 <= j && j + 1 < s.len() ==> !(#[trigger] s[j] == ':' && s[j + 1] == ':'),
    ensures
        first_dc(s) == i,
{
    lemma_first_dc(s);
    if first_dc(s) < i {
        assert(s[first_dc(s)] == ':' && s[first_dc(s) + 1] == ':');
    } else if i < first_dc(s) {
        assert(s[i] == ':' && s[i + 1] == ':');
    }
}

/// The IPv6 grammar: eight groups, or a single `::` with at most seven
/// groups around it.
pub open spec fn valid_ipv6(s: Seq<char>) -> bool {
    let dc = first_dc(s);
    if dc >= s.len() {
        valid_groups_from(s) && group_count(s) == 8
    } else {
        let left = s.take(dc);
        let right = s.skip(dc + 2);
        &&& (left.len() == 0 || valid_groups_from(left))
        &&& (right.len() == 0 || valid_groups_from(right))
        &&& side_count(left) + side_count(right) <= 7
    }
}

/// Number of groups on one side of a `::`.
pub open spec fn side_count(s: Seq<char>) -> nat {
    if s.len() == 0 {
        0
    } else {
        group_count(s)
    }
}

/// A valid IPv4 or IPv6 literal.
pub open spec fn valid_ip(s: Seq<char>) -> bool {
    valid_ipv4(s) || valid_ipv6(s)
}

fn is_alnum_char(c: char) -> (r: bool)
    ensures
        r == is_alnum(c),
{
    ('a' <= c && c <= 'z') || ('A' <= c && c <= 'Z') || ('0' <= c && c <= '9')
}

fn is_label_char_exec(c: char) -> (r: bool)
    ensures
        r == is_label_char(c),
{
    is_alnum_char(c) || c == '-'
}

fn is_alpha_char(c: char) -> (r: bool)
    ensures
        r == is_alpha(c),
{
    ('a' <= c && c <= 'z') || ('A' <= c && c <= 'Z')
}

fn is_hex_digit_char(c: char) -> (r: bool)
    ensures
        r == is_hex_digit(c),
{
    ('0' <= c && c <= '9') || ('a' <= c && c <= 'f') || ('A' <= c && c <= 'F')
}

fn check_label(s: &str, lo: usize, hi: usize) -> (r: bool)
    requires
        lo <= hi <= s@.len(),
    ensures
        r == is_label(s@.subrange(lo as int, hi as int)),
{
    let ghost p = s@.subrange(lo as int, hi as int);
    if hi - lo < 1 || hi - lo > 63 {
        return false;
    }
    if !is_alnum_char(s.get_char(lo)) {
        return false;
    }
    if !is_alnum_char(s.get_char(hi - 1)) {
        return false;
    }
    let mut i: usize = lo;
    while i < hi
        invariant
            lo <= i <= hi <= s@.len(),
            p == s@.subrange(lo as int, hi as int),
            forall|j: int| lo <= j < i ==> is_label_char(s@[j]),
        decreases hi - i,
    {
        if !is_label_char_exec(s.get_char(i)) {
            assert(!is_label_char(p[i - lo]));
            return false;
        }
        i = i + 1;
    }
    assert(forall|j: int| 0 <= j < p.len() ==> p[j] == s@[j + lo] && is_label_char(p[j]));
    assert(p[0] == s@[lo as int]);
    assert(p[p.len() - 1] == s@[hi - 1]);
    true
}

fn check_tld(s: &str, lo: usize, hi: usize) -> (r: bool)
    requires
        lo <= hi <= s@.len(),
    ensures
        r == is_tld(s@.subrange(lo as int, hi as int)),
{
    let ghost p = s@.subrange(lo as int, hi as int);
    if hi - lo < 2 {
        return false;
    }
    let mut i: usize = lo;
    while i < hi
        invariant
            lo <= i <= hi <= s@.len(),
            p == s@.subrange(lo as int, hi as int),
            forall|j: int| lo <= j < i ==> is_alpha(s@[j]),
        decreases hi - i,
    {
        if !is_alpha_char(s.get_char(i)) {
            assert(!is_alpha(p[i - lo]));
            return false;
        }
        i = i + 1;
    }
    assert(forall|j: int| 0 <= j < p.len() ==> p[j] == s@[j + lo] && is_alpha(p[j]));
    true
}

fn check_labels_from(s: &str, pos: usize) -> (r: bool)
    requires
        pos <= s@.len(),
    ensures
        r == valid_labels_from(s@.skip(pos as int)),
    decreases s@.len() - pos,
{
    let ghost t = s@.skip(pos as int);
    let n = s.unicode_len();
    let dot = find_char_from(s, '.', pos);
    proof {
        assert(first_ix(t, '.') == dot - pos);
        lemma_first_ix(t, '.');
    }
    if dot == n {
        proof {
            assert(t =~= s@.subrange(pos as int, n as int));
        }
        check_tld(s, pos, n)
    } else {
        proof {
            assert(t.take(dot - pos) =~= s@.subrange(pos as int, dot as int));
        }
        if !check_label(s, pos, dot) {
            return false;
        }
        proof {
            assert(t.skip(dot - pos + 1) =~= s@.skip(dot + 1));
        }
        check_labels_from(s, dot + 1)
    }
}

/// Whether `domain` matches the domain grammar.
pub fn is_valid_domain_format(domain: &str) -> (r: bool)
    ensures
        r == valid_domain(domain@),
{
    let n = domain.unicode_len();
    let first_dot = find_char_from(domain, '.', 0);
    proof {
        assert(domain@.skip(0) =~= domain@);
    }
    if first_dot == n {
        return false;
    }
    check_labels_from(domain, 0)
}

fn check_octet(s: &str, lo: usize, hi: usize) -> (r: bool)
    requires
        lo <= hi <= s@.len(),
    ensures
        r == is_octet(s@.subrange(lo as int, hi as int)),
{
    let ghost p = s@.subrange(lo as int, hi as int);
    if hi - lo < 1 || hi - lo > 3 {
        return false;
    }
    let mut i: usize = lo;
    let mut val: u32 = 0;
    while i < hi
        invariant
            lo <= i <= hi <= s@.len(),
            hi - lo <= 3,
            p == s@.subrange(lo as int, hi as int),
            forall|j: int| lo <= j < i ==> is_digit(s@[j]),
            val == dec_value(p.take(i - lo)),
            val <= 999,
        decreases hi - i,
    {
        let c = s.get_char(i);
        let d: u32 = match c {
            '0' => 0,
            '1' => 1,
            '2' => 2,
            '3' => 3,
            '4' => 4,
            '5' => 5,
            '6' => 6,
            '7' => 7,
            '8' => 8,
            '9' => 9,
            _ => {
                proof {
                    assert(!is_digit(p[i - lo]));
                }
                return false;
            },
        };
        proof {
            let q = p.take(i + 1 - lo);
            assert(q.drop_last() =~= p.take(i - lo));
            assert(q.last() == s@[i as int]);
            assert(dec_value(p.take(i - lo)) <= 99) by {
                if i - lo >= 2 {
                    assert(p.take(i - lo).len() <= 2);
                    lemma_dec_value_bound(p.take(i - lo));
                } else {
                    lemma_dec_value_bound(p.take(i - lo));
                }
            }
        }
        val = val * 10 + d;
        i = i + 1;
    }
    proof {
        assert(p.take(hi - lo) =~= p);
        assert(forall|j: int| 0 <= j < p.len() ==> p[j] == s@[j + lo] && is_digit(p[j]));
    }
    val <= 255
}

/// At most two digits value at most 99.
proof fn lemma_dec_value_bound(s: Seq<char>)
    requires
        s.len() <= 2,
    ensures
        dec_value(s) <= 99,
    decreases s.len(),
{
    if s.len() > 0 {
        lemma_dec_value_bound_1(s.drop_last());
    }
}

/// At most one digit values at most 9.
proof fn lemma_dec_value_bound_1(s: Seq<char>)
    requires
        s.len() <= 1,
    ensures
        dec_value(s) <= 9,
{
    if s.len() > 0 {
        assert(s.drop_last().len() == 0);
        assert(dec_value(s.drop_last()) == 0);
    }
}

fn check_octets_from(s: &str, pos: usize, k: u32) -> (r: bool)
    requires
        pos <= s@.len(),
        1 <= k <= 4,
    ensures
        r == valid_octets_from(s@.skip(pos as int), k as nat),
    decreases s@.len() - pos,
{
    let ghost t = s@.skip(pos as int);
    let n = s.unicode_len();
    let dot = find_char_from(s, '.', pos);
    proof {
        assert(first_ix(t, '.') == dot - pos);
        lemma_first_ix(t, '.');
    }
    if dot == n {
        proof {
            assert(t =~= s@.subrange(pos as int, n as int));
        }
        if k != 1 {
            return false;
        }
        check_octet(s, pos, n)
    } else {
        if k == 1 {
            return false;
        }
        proof {
            assert(t.take(dot - pos) =~= s@.subrange(pos as int, dot as int));
        }
        if !check_octet(s, pos, dot) {
            return false;
        }
        proof {
            assert(t.skip(dot - pos + 1) =~= s@.skip(dot + 1));
        }
        check_octets_from(s, dot + 1, k - 1)
    }
}

/// Whether `ip` matches the IPv4 grammar.
pub fn is_valid_ipv4_format(ip: &str) -> (r: bool)
    ensures
        r == valid_ipv4(ip@),
{
    proof {
        assert(ip@.skip(0) =~= ip@);
    }
    check_octets_from(ip, 0, 4)
}

fn check_hex_group(s: &str, lo: usize, hi: usize) -> (r: bool)
    requires
        lo <= hi <= s@.len(),
    ensures
        r == is_hex_group(s@.subrange(lo as int, hi as int)),
{
    let ghost p = s@.subrange(lo as int, hi as int);
    if hi - lo < 1 || hi - lo > 4 {
        return false;
    }
    let mut i: usize = lo;
    while i < hi
        invariant
            lo <= i <= hi <= s@.len(),
            p == s@.subrange(lo as int, hi as int),
            forall|j: int| lo <= j < i ==> is_hex_digit(s@[j]),
        decreases hi - i,
    {
        if !is_hex_digit_char(s.get_char(i)) {
            assert(!is_hex_digit(p[i - lo]));
            return false;
        }
        i = i + 1;
    }
    assert(forall|j: int| 0 <= j < p.len() ==> p[j] == s@[j + lo] && is_hex_digit(p[j]));
    true
}

/// Checks the colon-separated groups in `s[pos..hi]`, where either
/// `hi` is the end of `s` or `s[hi]` is a colon (so a global search
/// for `:` never lands strictly inside a group). Returns whether all
/// groups are hex groups, and how many there are.
fn check_groups_range(s: &str, pos: usize, hi: usize) -> (res: (bool, usize))
    requires
        pos <= hi <= s@.len(),
        hi < s@.len() ==> s@[hi as int] == ':',
    ensures
        res.0 == valid_groups_from(s@.subrange(pos as int, hi as int)),
        res.0 ==> res.1 == group_count(s@.subrange(pos as int, hi as int)),
        res.1 <= hi - pos + 1,
    decreases hi - pos,
{
    let ghost t = s@.subrange(pos as int, hi as int);
    let d = find_char_from(s, ':', pos);
    let end: usize = if d >= hi {
        hi
    } else {
        d
    };
    proof {
        if d >= hi {
            assert(forall|j: int| 0 <= j < t.len() ==> t[j] == s@[j + pos] && t[j] != ':');
            lemma_first_ix_is(t, ':', t.len() as int);
        } else {
            assert(forall|j: int| 0 <= j < d - pos ==> t[j] == s@[j + pos] && t[j] != ':');
            assert(t[d - pos] == ':');
            lemma_first_ix_is(t, ':', d - pos);
        }
    }
    if end == hi {
        proof {
            assert(first_ix(t, ':') == t.len());
            assert(t =~= s@.subrange(pos as int, hi as int));
        }
        (check_hex_group(s, pos, hi), 1)
    } else {
        proof {
            assert(first_ix(t, ':') == end - pos < t.len());
            assert(t.take(end - pos) =~= s@.subrange(pos as int, end as int));
            assert(t.skip(end - pos + 1) =~= s@.subrange(end + 1, hi as int));
        }
        let ok1 = check_hex_group(s, pos, end);
        if !ok1 {
            return (false, 0);
        }
        let (ok2, c2) = check_groups_range(s, end + 1, hi);
        (ok2, c2 + 1)
    }
}

fn find_double_colon(s: &str) -> (r: usize)
    ensures
        r == first_dc(s@),
        r <= s@.len(),
{
    let n = s.unicode_len();
    if n < 2 {
        proof {
            lemma_first_dc(s@);
        }
        return n;
    }
    let mut i: usize = 0;
    while i < n - 1
        invariant
            0 <= i <= n,
            n == s@.len(),
            n >= 2,
            forall|j: int|
                0 <= j < i && j + 1 < n ==> !(#[trigger] s@[j] == ':' && s@[j + 1] == ':'),
        decreases n - i,
    {
        if s.get_char(i) == ':' && s.get_char(i + 1) == ':' {
            proof {
                lemma_first_dc_is(s@, i as int);
            }
            return i;
        }
        i = i + 1;
    }
    proof {
        lemma_first_dc_is(s@, n as int);
    }
    n
}

/// Whether `ip` matches the IPv6 grammar.
pub fn is_valid_ipv6_format(ip: &str) -> (r: bool)
    ensures
        r == valid_ipv6(ip@),
{
    let n = ip.unicode_len();
    let dc = find_double_colon(ip);
    if dc == n {
        proof {
            assert(ip@.subrange(0, n as int) =~= ip@);
            lemma_first_dc(ip@);
        }
        let (ok, count) = check_groups_range(ip, 0, n);
        ok && count == 8
    } else {
        proof {
            lemma_first_dc(ip@);
        }
        let ghost left = ip@.take(dc as int);
        let ghost right = ip@.skip(dc + 2);
        let (ok_l, count_l) = if dc == 0 {
            (true, 0)
        } else {
            proof {
                assert(left =~= ip@.subrange(0, dc as int));
                assert(ip@[dc as int] == ':');
            }
            check_groups_range(ip, 0, dc)
        };
        if !ok_l {
            return false;
        }
        let (ok_r, count_r) = if dc + 2 == n {
            (true, 0)
        } else {
            proof {
                assert(right =~= ip@.subrange(dc + 2, n as int));
            }
            check_groups_range(ip, dc + 2, n)
        };
        if !ok_r {
            return false;
        }
        proof {
            if dc == 0 {
                assert(left.len() == 0 && side_count(left) == 0);
            } else {
                assert(left.len() > 0 && side_count(left) == group_count(left));
            }
            if dc + 2 == n {
                assert(right.len() == 0 && side_count(right) == 0);
            } else {
                assert(right.len() > 0 && side_count(right) == group_count(right));
            }
        }
        count_l + count_r <= 7
    }
}

/// Guards a block request: a malformed domain is rejected, with the
/// exact message the caller surfaces, before any side effect.
pub fn validate_block_domain(domain: &str) -> (r: Result<(), String>)
    ensures
        r is Ok <==> valid_domain(domain@),
        r matches Err(m) ==> m@ == "Invalid domain format: "@ + domain@,
{
    if is_valid_domain_format(domain) {
        Ok(())
    } else {
        let mut m = String::from_str("Invalid domain format: ");
        m.append(domain);
        Err(m)
    }
}

/// Whether `ip` is a valid IPv4 or IPv6 literal.
pub fn is_valid_ip_format(ip: &str) -> (r: bool)
    ensures
        r == valid_ip(ip@),
{
    is_valid_ipv4_format(ip) || is_valid_ipv6_format(ip)
}

} // verus!
