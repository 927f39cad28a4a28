//! Name resolution: parsing the output of the two lookup methods and
//! the fallback decision between them.
//!
//! The primary method runs `nslookup` and may yield several addresses;
//! the fallback runs `ping` and yields at most one. The engine itself
//! never runs commands: callers run them and hand the combined output
//! (or the failure message) to [`resolve_from_outputs`].

use vstd::prelude::*;

use crate::text::{
    first_ix, has_substring, is_prefix, spec_trim, contains_str, find_char_from, starts_with_str,
    trim_str,
};
use crate::error::ResolutionError;
use crate::validate::{valid_ip, is_valid_ip_format};

verus! {

/// Debug logging hook; intentionally a no-op in the library.
pub fn log_debug(_message: &str) {
}

/// `p` without one trailing carriage return.
pub open spec fn strip_cr(p: Seq<char>) -> Seq<char> {
    if p.len() > 0 && p.last() == '\r' {
        p.drop_last()
    } else {
        p
    }
}

/// The lines of `s`, split at `\n`, with a `\r` before each `\n`
/// removed and an optional final line ending.
pub open spec fn spec_lines(s: Seq<char>) -> Seq<Seq<char>>
    decreases s.len(),
{
    if s.len() == 0 {
        Seq::empty()
    } else {
        let i = first_ix(s, '\n');
        if i >= s.len() {
            seq![s]
        } else {
            proof {
                crate::text::lemma_first_ix(s, '\n');
            }
            seq![strip_cr(s.take(i))] + spec_lines(s.skip(i + 1))
        }
    }
}

/// One step of the nslookup scan: the section flag and the addresses
/// collected so far, advanced over one line.
pub open spec fn nslookup_step(st: bool, acc: Seq<Seq<char>>, line: Seq<char>) -> (bool, Seq<
    Seq<char>,
>) {
    let t = spec_trim(line);
    if is_prefix("Addresses:"@, t) {
        let rest = spec_trim(t.skip("Addresses:"@.len() as int));
        if rest.len() > 0 && valid_ip(rest) {
            (true, acc.push(rest))
        } else {
            (true, acc)
        }
    } else if st && t.len() > 0 {
        if !valid_ip(t) && !(line.len() > 0 && line[0] == ' ') {
            (false, acc)
        } else if valid_ip(t) {
            (st, acc.push(t))
        } else {
            (st, acc)
        }
    } else if is_prefix("Address:"@, t) && !has_substring(t, "192.168."@) {
        let rest = spec_trim(t.skip("Address:"@.len() as int));
        if valid_ip(rest) {
            (st, acc.push(rest))
        } else {
            (st, acc)
        }
    } else {
        (st, acc)
    }
}

/// The nslookup scan over a list of lines.
pub open spec fn nslookup_fold(lines: Seq<Seq<char>>, st: bool, acc: Seq<Seq<char>>) -> Seq<
    Seq<char>,
>
    decreases lines.len(),
{
    if lines.len() == 0 {
        acc
    } else {
        let step = nslookup_step(st, acc, lines[0]);
        nslookup_fold(lines.drop_first(), step.0, step.1)
    }
}

/// The addresses that the nslookup parser extracts from `s`.
pub open spec fn spec_extract_ips(s: Seq<char>) -> Seq<Seq<char>> {
    nslookup_fold(spec_lines(s), false, Seq::empty())
}

/// Everything the nslookup scan collects is a valid IP literal.
pub proof fn lemma_nslookup_fold_valid(lines: Seq<Seq<char>>, st: bool, acc: Seq<Seq<char>>)
    requires
        forall|i: int| 0 <= i < acc.len() ==> valid_ip(#[trigger] acc[i]),
    ensures
        forall|i: int|
            0 <= i < nslookup_fold(lines, st, acc).len() ==> valid_ip(
                #[trigger] nslookup_fold(lines, st, acc)[i],
            ),
    decreases lines.len(),
{
    let r = nslookup_fold(lines, st, acc);
    if lines.len() == 0 {
        assert(r == acc);
        assert forall|i: int| 0 <= i < r.len() implies valid_ip(#[trigger] r[i]) by {
            assert(r[i] == acc[i]);
        }
    } else {
        let step = nslookup_step(st, acc, lines[0]);
        assert(forall|i: int| 0 <= i < step.1.len() ==> valid_ip(#[trigger] step.1[i]));
        lemma_nslookup_fold_valid(lines.drop_first(), step.0, step.1);
        assert(r == nslookup_fold(lines.drop_first(), step.0, step.1));
    }
}

fn extract_ips_rec(s: &str, pos: usize, st: bool, ips: Vec<String>) -> (r: Vec<String>)
    requires
        pos <= s@.len(),
    ensures
        r.deep_view() == nslookup_fold(spec_lines(s@.skip(pos as int)), st, ips.deep_view()),
    decreases s@.len() - pos,
{
    let ghost rest = s@.skip(pos as int);
    let n = s.unicode_len();
    if pos == n {
        proof {
            assert(rest.len() == 0);
        }
        return ips;
    }
    let nl = find_char_from(s, '\n', pos);
    proof {
        assert(first_ix(rest, '\n') == nl - pos);
        crate::text::lemma_first_ix(rest, '\n');
    }
    let line_end: usize = if nl < n && nl > pos && s.get_char(nl - 1) == '\r' {
        nl - 1
    } else {
        nl
    };
    let line = s.substring_char(pos, line_end);
    proof {
        if nl < n {
            let raw = rest.take(nl - pos);
            assert(raw =~= s@.subrange(pos as int, nl as int));
            assert(strip_cr(raw) =~= s@.subrange(pos as int, line_end as int));
            assert(line@ == strip_cr(raw));
        } else {
            assert(rest =~= s@.subrange(pos as int, n as int));
            assert(line@ == rest);
        }
    }
    let t = trim_str(line);
    let mut ips = ips;
    let mut st2 = st;
    let ghost acc0 = ips.deep_view();
    let ghost step = nslookup_step(st, acc0, line@);
    if starts_with_str(t, "Addresses:") {
        let plen = "Addresses:".unicode_len();
        let tn = t.unicode_len();
        let after = t.substring_char(plen, tn);
        proof {
            assert(after@ =~= t@.skip("Addresses:"@.len() as int));
        }
        let ip = trim_str(after);
        st2 = true;
        if ip.unicode_len() > 0 && is_valid_ip_format(ip) {
            ips.push(String::from_str(ip));
            proof {
                assert(ips.deep_view() =~= step.1);
            }
        }
    } else if st && t.unicode_len() > 0 {
        let line_starts_space = line.unicode_len() > 0 && line.get_char(0) == ' ';
        let t_is_ip = is_valid_ip_format(t);
        if !t_is_ip && !line_starts_space {
            st2 = false;
        } else if t_is_ip {
            ips.push(String::from_str(t));
            proof {
                assert(ips.deep_view() =~= step.1);
            }
        }
    } else if starts_with_str(t, "Address:") && !contains_str(t, "192.168.") {
        let plen = "Address:".unicode_len();
        let tn = t.unicode_len();
        let after = t.substring_char(plen, tn);
        proof {
            assert(after@ =~= t@.skip("Address:"@.len() as int));
        }
        let ip = trim_str(after);
        if is_valid_ip_format(ip) {
            ips.push(String::from_str(ip));
            proof {
                assert(ips.deep_view() =~= step.1);
            }
        }
    }
    proof {
        assert(st2 == step.0 && ips.deep_view() == step.1);
    }
    if nl == n {
        proof {
            let lines = spec_lines(rest);
            assert(lines =~= seq![line@]);
            assert(lines[0] == line@ && lines.len() == 1);
            assert(nslookup_fold(lines, st, acc0) == nslookup_fold(
                lines.drop_first(),
                step.0,
                step.1,
            ));
            assert(lines.drop_first().len() == 0);
            assert(nslookup_fold(lines.drop_first(), step.0, step.1) == step.1);
        }
        ips
    } else {
        proof {
            let lines = spec_lines(rest);
            assert(rest.skip(nl - pos + 1) =~= s@.skip(nl + 1));
            assert(lines =~= seq![line@] + spec_lines(s@.skip(nl + 1)));
            assert(lines[0] == line@ && lines.len() > 0);
            assert(nslookup_fold(lines, st, acc0) == nslookup_fold(
                lines.drop_first(),
                step.0,
                step.1,
            ));
            assert(lines.drop_first() =~= spec_lines(s@.skip(nl + 1)));
        }
        extract_ips_rec(s, nl + 1, st2, ips)
    }
}

/// Extracts the IP addresses from nslookup output: the addresses
/// listed under an `Addresses:` heading, continuation lines included,
/// and any non-local `Address:` line. Every returned entry is a valid
/// IP literal.
pub fn extract_ips_from_nslookup(nslookup_output: &str) -> (ips: Vec<String>)
    ensures
        ips.deep_view() == spec_extract_ips(nslookup_output@),
        forall|i: int| 0 <= i < ips.deep_view().len() ==> valid_ip(#[trigger] ips.deep_view()[i]),
{
    proof {
        assert(nslookup_output@.skip(0) =~= nslookup_output@);
    }
    let ips: Vec<String> = Vec::new();
    proof {
        assert(ips.deep_view() =~= Seq::<Seq<char>>::empty());
        lemma_nslookup_fold_valid(
            spec_lines(nslookup_output@),
            false,
            Seq::<Seq<char>>::empty(),
        );
    }
    extract_ips_rec(nslookup_output, 0, false, ips)
}

/// A ping line that names the target: it mentions `Pinging` and holds
/// a `[` before a `]`.
pub open spec fn ping_line_hit(line: Seq<char>) -> bool {
    &&& has_substring(line, "Pinging"@)
    &&& first_ix(line, '[') < line.len()
    &&& first_ix(line, ']') < line.len()
    &&& first_ix(line, '[') < first_ix(line, ']')
}

/// The text between the brackets of a hit line.
pub open spec fn ping_extract(line: Seq<char>) -> Seq<char> {
    line.subrange(first_ix(line, '[') + 1, first_ix(line, ']'))
}

/// The first hit line's bracketed text, scanning the lines in order.
pub open spec fn spec_extract_ping_lines(lines: Seq<Seq<char>>) -> Option<Seq<char>>
    decreases lines.len(),
{
    if lines.len() == 0 {
        None
    } else if ping_line_hit(lines[0]) {
        Some(ping_extract(lines[0]))
    } else {
        spec_extract_ping_lines(lines.drop_first())
    }
}

/// What the ping parser extracts from `s`.
pub open spec fn spec_extract_ping(s: Seq<char>) -> Option<Seq<char>> {
    spec_extract_ping_lines(spec_lines(s))
}

fn extract_ping_rec(s: &str, pos: usize) -> (r: Option<String>)
    requires
        pos <= s@.len(),
    ensures
        r.deep_view() == spec_extract_ping_lines(spec_lines(s@.skip(pos as int))),
    decreases s@.len() - pos,
{
    let ghost rest = s@.skip(pos as int);
    let n = s.unicode_len();
    if pos == n {
        proof {
            assert(rest.len() == 0);
        }
        return None;
    }
    let nl = find_char_from(s, '\n', pos);
    proof {
        assert(first_ix(rest, '\n') == nl - pos);
        crate::text::lemma_first_ix(rest, '\n');
    }
    let line_end: usize = if nl < n && nl > pos && s.get_char(nl - 1) == '\r' {
        nl - 1
    } else {
        nl
    };
    let line = s.substring_char(pos, line_end);
    proof {
        if nl < n {
            let raw = rest.take(nl - pos);
            assert(raw =~= s@.subrange(pos as int, nl as int));
            assert(strip_cr(raw) =~= s@.subrange(pos as int, line_end as int));
            assert(line@ == strip_cr(raw));
        } else {
            assert(rest =~= s@.subrange(pos as int, n as int));
            assert(line@ == rest);
        }
    }
    let ln = line.unicode_len();
    if contains_str(line, "Pinging") {
        proof {
            assert(line@.skip(0) =~= line@);
        }
        let open_ix = find_char_from(line, '[', 0);
        if open_ix < ln {
            let close_ix = find_char_from(line, ']', 0);
            if close_ix < ln && open_ix < close_ix {
                let ip = line.substring_char(open_ix + 1, close_ix);
                proof {
                    assert(ping_line_hit(line@));
                    assert(ip@ == ping_extract(line@));
                }
                return Some(String::from_str(ip));
            }
        }
        proof {
            assert(!ping_line_hit(line@));
        }
    }
    proof {
        assert(!ping_line_hit(line@));
        let lines = spec_lines(rest);
        if nl < n {
            assert(rest.skip(nl - pos + 1) =~= s@.skip(nl + 1));
            assert(lines =~= seq![line@] + spec_lines(s@.skip(nl + 1)));
            assert(lines.len() > 0 && lines[0] == line@);
            assert(spec_extract_ping_lines(lines) == spec_extract_ping_lines(lines.drop_first()));
            assert(lines.drop_first() =~= spec_lines(s@.skip(nl + 1)));
        } else {
            assert(lines =~= seq![line@]);
            assert(lines.len() > 0 && lines[0] == line@);
            assert(spec_extract_ping_lines(lines) == spec_extract_ping_lines(lines.drop_first()));
            assert(lines.drop_first().len() == 0);
            assert(spec_extract_ping_lines(lines.drop_first()) is None);
        }
    }
    if nl == n {
        None
    } else {
        extract_ping_rec(s, nl + 1)
    }
}

/// Extracts the bracketed address from ping output: the first line
/// mentioning `Pinging` whose `[` comes before its `]`.
pub fn extract_ip_from_ping(ping_output: &str) -> (r: Option<String>)
    ensures
        r.deep_view() == spec_extract_ping(ping_output@),
{
    proof {
        assert(ping_output@.skip(0) =~= ping_output@);
    }
    extract_ping_rec(ping_output, 0)
}

/// The host name on a reverse-lookup answer line, if the line names
/// one: the trimmed text after a `Name:` heading.
pub open spec fn name_line_value(line: Seq<char>) -> Option<Seq<char>> {
    let t = spec_trim(line);
    if is_prefix("Name:"@, t) {
        let v = spec_trim(t.skip("Name:"@.len() as int));
        if v.len() > 0 {
            Some(v)
        } else {
            None
        }
    } else {
        None
    }
}

/// The first host name among the lines.
pub open spec fn spec_extract_name_lines(lines: Seq<Seq<char>>) -> Option<Seq<char>>
    decreases lines.len(),
{
    if lines.len() == 0 {
        None
    } else if name_line_value(lines[0]) is Some {
        name_line_value(lines[0])
    } else {
        spec_extract_name_lines(lines.drop_first())
    }
}

/// What the reverse-lookup parser extracts from `s`.
pub open spec fn spec_extract_name(s: Seq<char>) -> Option<Seq<char>> {
    spec_extract_name_lines(spec_lines(s))
}

fn extract_name_rec(s: &str, pos: usize) -> (r: Option<String>)
    requires
        pos <= s@.len(),
    ensures
        r.deep_view() == spec_extract_name_lines(spec_lines(s@.skip(pos as int))),
    decreases s@.len() - pos,
{
    let ghost rest = s@.skip(pos as int);
    let n = s.unicode_len();
    if pos == n {
        proof {
            assert(rest.len() == 0);
        }
        return None;
    }
    let nl = find_char_from(s, '\n', pos);
    proof {
        assert(first_ix(rest, '\n') == nl - pos);
        crate::text::lemma_first_ix(rest, '\n');
    }
    let line_end: usize = if nl < n && nl > pos && s.get_char(nl - 1) == '\r' {
        nl - 1
    } else {
        nl
    };
    let line = s.substring_char(pos, line_end);
    proof {
        if nl < n {
            let raw = rest.take(nl - pos);
            assert(raw =~= s@.subrange(pos as int, nl as int));
            assert(strip_cr(raw) =~= s@.subrange(pos as int, line_end as int));
            assert(line@ == strip_cr(raw));
        } else {
            assert(rest =~= s@.subrange(pos as int, n as int));
            assert(line@ == rest);
        }
    }
    let t = trim_str(line);
    if starts_with_str(t, "Name:") {
        let plen = "Name:".unicode_len();
        let tn = t.unicode_len();
        let after = t.substring_char(plen, tn);
        proof {
            assert(after@ =~= t@.skip("Name:"@.len() as int));
        }
        let v = trim_str(after);
        if v.unicode_len() > 0 {
            proof {
                assert(name_line_value(line@) == Some(v@));
            }
            return Some(String::from_str(v));
        }
    }
    proof {
        assert(name_line_value(line@) is None);
        let lines = spec_lines(rest);
        if nl < n {
            assert(rest.skip(nl - pos + 1) =~= s@.skip(nl + 1));
            assert(lines =~= seq![line@] + spec_lines(s@.skip(nl + 1)));
            assert(lines.len() > 0 && lines[0] == line@);
            assert(spec_extract_name_lines(lines) == spec_extract_name_lines(lines.drop_first()));
            assert(lines.drop_first() =~= spec_lines(s@.skip(nl + 1)));
        } else {
            assert(lines =~= seq![line@]);
            assert(lines.len() > 0 && lines[0] == line@);
            assert(spec_extract_name_lines(lines) == spec_extract_name_lines(lines.drop_first()));
            assert(lines.drop_first().len() == 0);
            assert(spec_extract_name_lines(lines.drop_first()) is None);
        }
    }
    if nl == n {
        None
    } else {
        extract_name_rec(s, nl + 1)
    }
}

/// Extracts the host name from reverse-lookup output: the first
/// non-empty `Name:` line, trimmed.
pub fn extract_name_from_nslookup(nslookup_output: &str) -> (r: Option<String>)
    ensures
        r.deep_view() == spec_extract_name(nslookup_output@),
{
    proof {
        assert(nslookup_output@.skip(0) =~= nslookup_output@);
    }
    extract_name_rec(nslookup_output, 0)
}

/// The addresses the primary method yields: what its output parses to,
/// or none at all if the command itself failed.
pub open spec fn primary_ips_of(nslookup: Result<String, String>) -> Seq<Seq<char>> {
    match nslookup {
        Ok(out) => spec_extract_ips(out@),
        Err(_) => Seq::empty(),
    }
}

/// The address the fallback method yields: ping's bracketed text, if
/// the command succeeded and the text is a valid IP literal.
pub open spec fn fallback_ip_of(ping: Result<String, String>) -> Option<Seq<char>> {
    match ping {
        Ok(out) => match spec_extract_ping(out@) {
            Some(ip) => if valid_ip(ip) {
                Some(ip)
            } else {
                None
            },
            None => None,
        },
        Err(_) => None,
    }
}

/// How the primary method failed, when it yielded no address.
pub open spec fn primary_failure_of(nslookup: Result<String, String>) -> Seq<char> {
    match nslookup {
        Ok(_) => "nslookup output contained no IP addresses"@,
        Err(e) => "Failed to execute nslookup command: "@ + e@,
    }
}

/// How the fallback method failed, when it yielded no address.
pub open spec fn fallback_failure_of(ping: Result<String, String>) -> Seq<char> {
    match ping {
        Ok(out) => match spec_extract_ping(out@) {
            Some(ip) => if valid_ip(ip) {
                Seq::empty()
            } else {
                "Extracted IP has invalid format: "@ + ip
            },
            None => "ping output contained no IP address"@,
        },
        Err(e) => "Failed to execute ping command: "@ + e@,
    }
}

/// The resolution decision over the two lookup outcomes: the primary
/// addresses if there are any, else the fallback address alone, else a
/// `ResolutionError` carrying both failure messages.
pub fn resolve_from_outputs(nslookup: &Result<String, String>, ping: &Result<String, String>) -> (r:
    Result<Vec<String>, ResolutionError>)
    ensures
        r is Ok <==> primary_ips_of(*nslookup).len() > 0 || fallback_ip_of(*ping) is Some,
        primary_ips_of(*nslookup).len() > 0 ==> (r matches Ok(ips) && ips.deep_view()
            == primary_ips_of(*nslookup)),
        (primary_ips_of(*nslookup).len() == 0 && fallback_ip_of(*ping) is Some) ==> (
        r matches Ok(ips) && ips.deep_view() == seq![fallback_ip_of(*ping)->Some_0]),
        r matches Err(e) ==> (e.primary@ == primary_failure_of(*nslookup) && e.fallback@
            == fallback_failure_of(*ping)),
{
    let primary: Vec<String> = match nslookup {
        Ok(out) => extract_ips_from_nslookup(out.as_str()),
        Err(_) => Vec::new(),
    };
    proof {
        assert(primary.deep_view() =~= primary_ips_of(*nslookup) || primary.deep_view()
            == primary_ips_of(*nslookup));
    }
    if primary.len() > 0 {
        proof {
            assert(primary.deep_view().len() == primary@.len());
        }
        return Ok(primary);
    }
    proof {
        assert(primary_ips_of(*nslookup).len() == 0);
    }
    let primary_msg: String = match nslookup {
        Ok(_) => String::from_str("nslookup output contained no IP addresses"),
        Err(e) => {
            let mut m = String::from_str("Failed to execute nslookup command: ");
            m.append(e.as_str());
            m
        },
    };
    match ping {
        Ok(out) => {
            match extract_ip_from_ping(out.as_str()) {
                Some(ip) => {
                    if is_valid_ip_format(ip.as_str()) {
                        let mut one: Vec<String> = Vec::new();
                        one.push(ip);
                        proof {
                            assert(one.deep_view() =~= seq![fallback_ip_of(*ping)->Some_0]);
                        }
                        Ok(one)
                    } else {
                        let mut fm = String::from_str("Extracted IP has invalid format: ");
                        fm.append(ip.as_str());
                        Err(ResolutionError { primary: primary_msg, fallback: fm })
                    }
                },
                None => Err(
                    ResolutionError {
                        primary: primary_msg,
                        fallback: String::from_str("ping output contained no IP address"),
                    },
                ),
            }
        },
        Err(e) => {
            let mut fm = String::from_str("Failed to execute ping command: ");
            fm.append(e.as_str());
            Err(ResolutionError { primary: primary_msg, fallback: fm })
        },
    }
}

} // verus!
