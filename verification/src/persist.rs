//! The persistence format of the blocked-domain list: a JSON array of
//! domain strings.
//!
//! The encoder emits a compact array; the decoder accepts any amount
//! of whitespace between tokens, as other writers of the format may
//! pretty-print it. Strings are taken verbatim: domain names never
//! need escapes, and an escape or control character in the file is
//! rejected rather than interpreted.

use vstd::prelude::*;

use crate::text::{is_space, trim_front};
use crate::text::is_space_char;

verus! {

/// A character that may stand unescaped in a JSON string.
pub open spec fn json_plain(c: char) -> bool {
    c != '"' && c != '\\' && (c as u32) >= 32
}

/// Every character of `s` may stand unescaped.
pub open spec fn all_plain(s: Seq<char>) -> bool {
    forall|i: int| 0 <= i < s.len() ==> json_plain(s[i])
}

/// The encoded items from index `i` on: each domain quoted, separated
/// by commas.
pub open spec fn spec_encode_items(domains: Seq<Seq<char>>, i: int) -> Seq<char>
    decreases domains.len() - i,
{
    if i < 0 || i >= domains.len() {
        Seq::empty()
    } else if i == domains.len() - 1 {
        "\""@ + domains[i] + "\""@
    } else {
        "\""@ + domains[i] + "\""@ + ","@ + spec_encode_items(domains, i + 1)
    }
}

/// The encoded form of a domain list.
pub open spec fn spec_encode(domains: Seq<Seq<char>>) -> Seq<char> {
    "["@ + spec_encode_items(domains, 0) + "]"@
}

/// Encodes the domain list as [`spec_encode`] describes.
pub fn encode_domains(domains: &Vec<String>) -> (r: String)
    ensures
        r@ == spec_encode(domains.deep_view()),
{
    let ghost dv = domains.deep_view();
    let n = domains.len();
    let mut s = String::from_str("[");
    let ghost header = s@;
    proof {
        if n == 0 {
            assert(spec_encode_items(dv, 0) =~= Seq::<char>::empty());
            assert(s@ + spec_encode_items(dv, 0) =~= s@);
        }
    }
    let mut i: usize = 0;
    while i < n
        invariant
            0 <= i <= n,
            n == domains@.len(),
            dv == domains.deep_view(),
            header == "["@,
            i < n ==> s@ + spec_encode_items(dv, i as int) == header + spec_encode_items(dv, 0),
            i == n ==> s@ == header + spec_encode_items(dv, 0),
        decreases n - i,
    {
        s.append("\"");
        s.append(domains[i].as_str());
        s.append("\"");
        proof {
            assert(dv[i as int] == domains@[i as int]@);
        }
        if i + 1 < n {
            s.append(",");
            proof {
                assert(s@ + spec_encode_items(dv, i + 1) =~= header + spec_encode_items(dv, 0));
            }
        } else {
            proof {
                assert(s@ =~= header + spec_encode_items(dv, 0));
            }
        }
        i = i + 1;
    }
    s.append("]");
    proof {
        assert(s@ =~= spec_encode(dv));
    }
    s
}

/// Length of the maximal prefix of `s` made of unescaped characters.
pub open spec fn plain_prefix_len(s: Seq<char>) -> int
    decreases s.len(),
{
    if s.len() > 0 && json_plain(s[0]) {
        1 + plain_prefix_len(s.drop_first())
    } else {
        0
    }
}

pub proof fn lemma_plain_prefix(s: Seq<char>)
    ensures
        0 <= plain_prefix_len(s) <= s.len(),
        plain_prefix_len(s) < s.len() ==> !json_plain(s[plain_prefix_len(s)]),
        forall|j: int| 0 <= j < plain_prefix_len(s) ==> json_plain(s[j]),
    decreases s.len(),
{
    if s.len() > 0 && json_plain(s[0]) {
        lemma_plain_prefix(s.drop_first());
        assert(forall|j: int|
            1 <= j < plain_prefix_len(s) ==> #[trigger] s[j] == s.drop_first()[j - 1]);
    }
}

pub proof fn lemma_plain_prefix_is(s: Seq<char>, i: int)
    requires
        0 <= i <= s.len(),
        i < s.len() ==> !json_plain(s[i]),
        forall|j: int| 0 <= j < i ==> json_plain(s[j]),
    ensures
        plain_prefix_len(s) == i,
{
    lemma_plain_prefix(s);
    if plain_prefix_len(s) < i {
        assert(json_plain(s[plain_prefix_len(s)]));
    } else if i < plain_prefix_len(s) {
        assert(json_plain(s[i]));
    }
}

/// Trimming leading whitespace never lengthens a sequence.
pub proof fn lemma_trim_front_len(s: Seq<char>)
    ensures
        trim_front(s).len() <= s.len(),
    decreases s.len(),
{
    if s.len() > 0 && is_space(s[0]) {
        lemma_trim_front_len(s.drop_first());
    }
}

/// The string token at the head of `s`: its content and what follows,
/// or nothing if `s` does not start with a quoted run of unescaped
/// characters.
pub open spec fn parse_string(s: Seq<char>) -> Option<(Seq<char>, Seq<char>)> {
    if s.len() > 0 && s[0] == '"' {
        let body = s.drop_first();
        let k = plain_prefix_len(body);
        if k < body.len() && body[k] == '"' {
            Some((body.take(k), body.skip(k + 1)))
        } else {
            None
        }
    } else {
        None
    }
}

/// The remaining items of the array, the head of `s` being the next
/// string token; `acc` holds the items already read.
pub open spec fn spec_decode_items(s: Seq<char>, acc: Seq<Seq<char>>) -> Option<Seq<Seq<char>>>
    decreases s.len(),
{
    match parse_string(s) {
        None => None,
        Some(pair) => {
            let content = pair.0;
            let v = trim_front(pair.1);
            proof {
                lemma_plain_prefix(s.drop_first());
                lemma_trim_front_len(pair.1);
            }
            if v.len() > 0 && v[0] == ',' {
                proof {
                    lemma_trim_front_len(v.drop_first());
                }
                spec_decode_items(trim_front(v.drop_first()), acc.push(content))
            } else if v.len() > 0 && v[0] == ']' {
                if trim_front(v.drop_first()).len() == 0 {
                    Some(acc.push(content))
                } else {
                    None
                }
            } else {
                None
            }
        },
    }
}

/// The domain list that `s` encodes, if `s` is a whitespace-tolerant
/// JSON array of unescaped strings.
pub open spec fn spec_decode(s: Seq<char>) -> Option<Seq<Seq<char>>> {
    let t = trim_front(s);
    if t.len() > 0 && t[0] == '[' {
        let u = trim_front(t.drop_first());
        if u.len() > 0 && u[0] == ']' {
            if trim_front(u.drop_first()).len() == 0 {
                Some(Seq::empty())
            } else {
                None
            }
        } else {
            spec_decode_items(u, Seq::empty())
        }
    } else {
        None
    }
}

fn is_plain_char(c: char) -> (r: bool)
    ensures
        r == json_plain(c),
{
    c != '"' && c != '\\' && c >= ' '
}

/// First index at or after `pos` holding a non-whitespace character.
fn skip_ws_from(s: &str, pos: usize) -> (r: usize)
    requires
        pos <= s@.len(),
    ensures
        pos <= r <= s@.len(),
        trim_front(s@.skip(pos as int)) == s@.skip(r as int),
        r < s@.len() ==> !is_space(s@[r as int]),
        forall|j: int| pos <= j < r ==> is_space(s@[j]),
{
    let n = s.unicode_len();
    let mut i: usize = pos;
    while i < n && is_space_char(s.get_char(i))
        invariant
            pos <= i <= n,
            n == s@.len(),
            forall|j: int| pos <= j < i ==> is_space(s@[j]),
        decreases n - i,
    {
        i = i + 1;
    }
    proof {
        let t = s@.skip(pos as int);
        assert(forall|j: int| 0 <= j < i - pos ==> t[j] == s@[j + pos] && is_space(t[j]));
        if i < n {
            assert(t[i - pos] == s@[i as int]);
        }
        crate::text::lemma_trim_front_at(t, i - pos);
        assert(t.subrange(i - pos, t.len() as int) =~= s@.skip(i as int));
    }
    i
}

fn decode_items(s: &str, pos: usize, acc: Vec<String>) -> (r: Option<Vec<String>>)
    requires
        pos <= s@.len(),
        pos < s@.len() ==> !is_space(s@[pos as int]),
    ensures
        r.deep_view() == spec_decode_items(s@.skip(pos as int), acc.deep_view()),
    decreases s@.len() - pos,
{
    let ghost t = s@.skip(pos as int);
    let ghost acc0 = acc.deep_view();
    let n = s.unicode_len();
    if pos == n {
        proof {
            assert(t.len() == 0);
        }
        return None;
    }
    if s.get_char(pos) != '"' {
        proof {
            assert(t[0] == s@[pos as int]);
        }
        return None;
    }
    let ghost body = t.drop_first();
    proof {
        assert(body =~= s@.skip(pos + 1));
    }
    let mut e = pos + 1;
    while e < n && is_plain_char(s.get_char(e))
        invariant
            pos + 1 <= e <= n,
            n == s@.len(),
            forall|j: int| pos + 1 <= j < e ==> json_plain(s@[j]),
        decreases n - e,
    {
        e = e + 1;
    }
    proof {
        assert(forall|j: int| 0 <= j < e - (pos + 1) ==> body[j] == s@[j + pos + 1]);
        if e < n {
            assert(body[e - (pos + 1)] == s@[e as int]);
        }
        lemma_plain_prefix_is(body, e - (pos + 1));
    }
    if e == n {
        proof {
            assert(plain_prefix_len(body) == body.len());
        }
        return None;
    }
    if s.get_char(e) != '"' {
        return None;
    }
    let content = s.substring_char(pos + 1, e);
    let ghost rest = body.skip(e - (pos + 1) + 1);
    proof {
        assert(content@ =~= body.take(e - (pos + 1)));
        assert(rest =~= s@.skip(e + 1));
    }
    let v = skip_ws_from(s, e + 1);
    let ghost vseq = s@.skip(v as int);
    proof {
        assert(trim_front(rest) == vseq);
    }
    if v == n {
        proof {
            assert(vseq.len() == 0);
        }
        return None;
    }
    let c = s.get_char(v);
    proof {
        assert(vseq[0] == s@[v as int]);
    }
    if c == ',' {
        let next = skip_ws_from(s, v + 1);
        proof {
            assert(vseq.drop_first() =~= s@.skip(v + 1));
            assert(trim_front(vseq.drop_first()) == s@.skip(next as int));
        }
        let mut acc = acc;
        acc.push(String::from_str(content));
        proof {
            assert(acc.deep_view() =~= acc0.push(content@));
        }
        decode_items(s, next, acc)
    } else if c == ']' {
        let after = skip_ws_from(s, v + 1);
        proof {
            assert(vseq.drop_first() =~= s@.skip(v + 1));
            assert(trim_front(vseq.drop_first()) == s@.skip(after as int));
        }
        if after == n {
            let mut acc = acc;
            acc.push(String::from_str(content));
            proof {
                assert(acc.deep_view() =~= acc0.push(content@));
            }
            Some(acc)
        } else {
            None
        }
    } else {
        None
    }
}

/// Decodes a persisted domain list, as [`spec_decode`] describes:
/// the items of the array, or nothing if the text is not a JSON array
/// of unescaped strings.
pub fn decode_domains(s: &str) -> (r: Option<Vec<String>>)
    ensures
        r.deep_view() == spec_decode(s@),
{
    let n = s.unicode_len();
    proof {
        assert(s@.skip(0) =~= s@);
    }
    let p0 = skip_ws_from(s, 0);
    let ghost t = s@.skip(p0 as int);
    if p0 == n {
        proof {
            assert(t.len() == 0);
        }
        return None;
    }
    if s.get_char(p0) != '[' {
        proof {
            assert(t[0] == s@[p0 as int]);
        }
        return None;
    }
    proof {
        assert(t[0] == s@[p0 as int]);
        assert(t.drop_first() =~= s@.skip(p0 + 1));
    }
    let p1 = skip_ws_from(s, p0 + 1);
    let ghost u = s@.skip(p1 as int);
    proof {
        assert(trim_front(t.drop_first()) == u);
    }
    if p1 < n && s.get_char(p1) == ']' {
        proof {
            assert(u[0] == s@[p1 as int]);
            assert(u.drop_first() =~= s@.skip(p1 + 1));
        }
        let p2 = skip_ws_from(s, p1 + 1);
        if p2 == n {
            let empty: Vec<String> = Vec::new();
            proof {
                assert(empty.deep_view() =~= Seq::<Seq<char>>::empty());
            }
            return Some(empty);
        }
        return None;
    }
    proof {
        if u.len() > 0 {
            assert(u[0] == s@[p1 as int]);
        }
        assert(!(u.len() > 0 && u[0] == ']'));
    }
    let start: Vec<String> = Vec::new();
    proof {
        assert(start.deep_view() =~= Seq::<Seq<char>>::empty());
    }
    decode_items(s, p1, start)
}

proof fn lemma_parse_string_quoted(d: Seq<char>, tail: Seq<char>)
    requires
        all_plain(d),
    ensures
        parse_string("\""@ + d + "\""@ + tail) matches Some(p) && p.0 == d && p.1 == tail,
{
    reveal_strlit("\"");
    let s = "\""@ + d + "\""@ + tail;
    let body = s.drop_first();
    assert(body =~= d + "\""@ + tail);
    assert(forall|j: int| 0 <= j < d.len() ==> body[j] == d[j]);
    assert(body[d.len() as int] == '"');
    assert(!json_plain('"'));
    lemma_plain_prefix_is(body, d.len() as int);
    assert(s[0] == '"');
    assert(body.take(d.len() as int) =~= d);
    assert(body.skip(d.len() as int + 1) =~= tail);
}

proof fn lemma_decode_encode_items(domains: Seq<Seq<char>>, i: int, acc: Seq<Seq<char>>)
    requires
        0 <= i < domains.len(),
        forall|k: int| 0 <= k < domains.len() ==> all_plain(#[trigger] domains[k]),
    ensures
        spec_decode_items(spec_encode_items(domains, i) + "]"@, acc) == Some(
            acc + domains.skip(i),
        ),
    decreases domains.len() - i,
{
    reveal_strlit("\"");
    reveal_strlit(",");
    reveal_strlit("]");
    let d = domains[i];
    let s = spec_encode_items(domains, i) + "]"@;
    if i == domains.len() - 1 {
        assert(s =~= "\""@ + d + "\""@ + "]"@);
        lemma_parse_string_quoted(d, "]"@);
        let p = parse_string(s)->Some_0;
        let v = trim_front(p.1);
        assert(p.1.len() == 1 && p.1[0] == ']');
        assert(!is_space(']'));
        assert(v == p.1);
        assert(v.drop_first().len() == 0);
        assert(trim_front(v.drop_first()).len() == 0);
        assert(spec_decode_items(s, acc) == Some(acc.push(d)));
        assert(acc.push(d) =~= acc + domains.skip(i));
    } else {
        let tail = ","@ + spec_encode_items(domains, i + 1) + "]"@;
        assert(s =~= "\""@ + d + "\""@ + tail);
        lemma_parse_string_quoted(d, tail);
        let p = parse_string(s)->Some_0;
        let v = trim_front(p.1);
        assert(p.1[0] == ',');
        assert(!is_space(','));
        assert(v == p.1);
        let w = v.drop_first();
        assert(w =~= spec_encode_items(domains, i + 1) + "]"@);
        assert(w[0] == '"');
        assert(!is_space('"'));
        assert(trim_front(w) == w);
        lemma_decode_encode_items(domains, i + 1, acc.push(d));
        assert(spec_decode_items(s, acc) == spec_decode_items(w, acc.push(d)));
        assert(acc.push(d) + domains.skip(i + 1) =~= acc + domains.skip(i));
    }
}

/// Decoding an encoded domain list yields the list back, provided no
/// domain needs escaping (none whose characters are all unescaped
/// does).
pub proof fn lemma_decode_encode(domains: Seq<Seq<char>>)
    requires
        forall|k: int| 0 <= k < domains.len() ==> all_plain(#[trigger] domains[k]),
    ensures
        spec_decode(spec_encode(domains)) == Some(domains),
{
    reveal_strlit("[");
    reveal_strlit("]");
    reveal_strlit("\"");
    let s = spec_encode(domains);
    assert(s[0] == '[');
    assert(!is_space('['));
    let t = trim_front(s);
    assert(t == s);
    let items = spec_encode_items(domains, 0);
    assert(t.drop_first() =~= items + "]"@);
    if domains.len() == 0 {
        assert(items =~= Seq::<char>::empty());
        assert(t.drop_first() =~= "]"@);
        let u = trim_front(t.drop_first());
        assert(t.drop_first()[0] == ']');
        assert(!is_space(']'));
        assert(u == t.drop_first());
        assert(u.drop_first().len() == 0);
        assert(trim_front(u.drop_first()).len() == 0);
        assert(spec_decode(s) == Some(Seq::<Seq<char>>::empty()));
        assert(Seq::<Seq<char>>::empty() =~= domains);
    } else {
        assert((items + "]"@)[0] == '"');
        assert(!is_space('"'));
        let u = trim_front(t.drop_first());
        assert(u == t.drop_first());
        assert(u[0] == '"');
        lemma_decode_encode_items(domains, 0, Seq::empty());
        assert(u =~= items + "]"@);
        assert(spec_decode(s) == spec_decode_items(u, Seq::empty()));
        assert(Seq::empty() + domains.skip(0) =~= domains);
    }
}

/// A valid domain never needs escaping: its characters are letters,
/// digits, hyphens and dots.
pub proof fn lemma_valid_domain_plain(s: Seq<char>)
    requires
        crate::validate::valid_domain(s),
    ensures
        all_plain(s),
{
    lemma_valid_labels_plain(s);
}

proof fn lemma_valid_labels_plain(s: Seq<char>)
    requires
        crate::validate::valid_labels_from(s),
    ensures
        all_plain(s),
    decreases s.len(),
{
    let i = crate::text::first_ix(s, '.');
    crate::text::lemma_first_ix(s, '.');
    if i >= s.len() {
        assert forall|j: int| 0 <= j < s.len() implies json_plain(s[j]) by {
            assert(crate::validate::is_alpha(s[j]));
        }
    } else {
        lemma_valid_labels_plain(s.skip(i + 1));
        assert forall|j: int| 0 <= j < s.len() implies json_plain(s[j]) by {
            if j < i {
                assert(crate::validate::is_label_char(s.take(i)[j]));
                assert(s.take(i)[j] == s[j]);
            } else if j == i {
                assert(s[j] == '.');
            } else {
                assert(json_plain(s.skip(i + 1)[j - i - 1]));
                assert(s.skip(i + 1)[j - i - 1] == s[j]);
            }
        }
    }
}

} // verus!
