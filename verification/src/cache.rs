//! The reverse-lookup cache: maps an observed IP to the domain a
//! reverse resolution found for it, with a fixed time-to-live.
//!
//! A hit within the TTL answers without a network call, and says
//! explicitly whether the cached domain is blocked. A miss or an
//! expired entry asks the caller to reverse-resolve; a successful
//! resolution refreshes the cache whatever the block status, a failed
//! one leaves the cache alone so the next alert retries.

use vstd::prelude::*;

use crate::store::{seq_contains, BlockedDomains};
use crate::text::lower_seq;

verus! {

/// Age beyond which a cache entry is treated as absent.
pub const REVERSE_CACHE_TTL_SECONDS: u64 = 3600;

/// One cached reverse lookup.
pub struct ReverseLookupCacheEntry {
    pub ip: String,
    pub domain: String,
    pub resolved_at: u64,
}

/// The mathematical shadow of a [`ReverseLookupCacheEntry`].
pub ghost struct EntryView {
    pub ip: Seq<char>,
    pub domain: Seq<char>,
    pub resolved_at: u64,
}

impl View for ReverseLookupCacheEntry {
    type V = EntryView;

    open spec fn view(&self) -> EntryView {
        EntryView { ip: self.ip@, domain: self.domain@, resolved_at: self.resolved_at }
    }
}

impl DeepView for ReverseLookupCacheEntry {
    type V = EntryView;

    open spec fn deep_view(&self) -> EntryView {
        self.view()
    }
}

/// An entry is trusted at `now` while its age is at most the TTL.
pub open spec fn fresh_at(e: EntryView, now: u64) -> bool {
    now <= e.resolved_at || now - e.resolved_at <= REVERSE_CACHE_TTL_SECONDS
}

/// Index of the entry for `ip`, or `s.len()` if there is none.
pub open spec fn find_ip(s: Seq<EntryView>, ip: Seq<char>) -> int
    decreases s.len(),
{
    if s.len() == 0 {
        0
    } else if s[0].ip == ip {
        0
    } else {
        1 + find_ip(s.drop_first(), ip)
    }
}

pub proof fn lemma_find_ip(s: Seq<EntryView>, ip: Seq<char>)
    ensures
        0 <= find_ip(s, ip) <= s.len(),
        find_ip(s, ip) < s.len() ==> s[find_ip(s, ip)].ip == ip,
        forall|j: int| 0 <= j < find_ip(s, ip) ==> (#[trigger] s[j]).ip != ip,
    decreases s.len(),
{
    if s.len() > 0 && s[0].ip != ip {
        lemma_find_ip(s.drop_first(), ip);
        assert(forall|j: int| 1 <= j < find_ip(s, ip) ==> #[trigger] s[j] == s.drop_first()[j - 1]);
    }
}

pub proof fn lemma_find_ip_is(s: Seq<EntryView>, ip: Seq<char>, i: int)
    requires
        0 <= i <= s.len(),
        i < s.len() ==> s[i].ip == ip,
        forall|j: int| 0 <= j < i ==> (#[trigger] s[j]).ip != ip,
        i == s.len() ==> forall|j: int| 0 <= j < s.len() ==> (#[trigger] s[j]).ip != ip,
    ensures
        find_ip(s, ip) == i,
{
    lemma_find_ip(s, ip);
    if find_ip(s, ip) < i {
        assert(s[find_ip(s, ip)].ip == ip);
    } else if i < find_ip(s, ip) {
        assert(s[i].ip == ip);
    }
}

/// The domain a lookup of `ip` at `now` yields: the cached one, if an
/// entry exists and has not expired.
pub open spec fn cache_lookup(s: Seq<EntryView>, ip: Seq<char>, now: u64) -> Option<Seq<char>> {
    let i = find_ip(s, ip);
    if i < s.len() && fresh_at(s[i], now) {
        Some(s[i].domain)
    } else {
        None
    }
}

/// The cache after recording that `ip` resolved to `domain` at `now`:
/// the entry for `ip` replaced, or appended if there was none.
pub open spec fn cache_insert(
    s: Seq<EntryView>,
    ip: Seq<char>,
    domain: Seq<char>,
    now: u64,
) -> Seq<EntryView> {
    let e = EntryView { ip: ip, domain: domain, resolved_at: now };
    let i = find_ip(s, ip);
    if i < s.len() {
        s.update(i, e)
    } else {
        s.push(e)
    }
}

/// The cache after the periodic sweep: expired entries dropped.
pub open spec fn cache_sweep(s: Seq<EntryView>, now: u64) -> Seq<EntryView>
    decreases s.len(),
{
    if s.len() == 0 {
        s
    } else if fresh_at(s[0], now) {
        seq![s[0]] + cache_sweep(s.drop_first(), now)
    } else {
        cache_sweep(s.drop_first(), now)
    }
}

/// What the sweep keeps: fresh entries of `s`, unique ips preserved.
pub proof fn lemma_cache_sweep_props(s: Seq<EntryView>, now: u64)
    requires
        forall|i: int, j: int| 0 <= i < j < s.len() ==> s[i].ip != s[j].ip,
    ensures
        forall|k: int|
            0 <= k < cache_sweep(s, now).len() ==> fresh_at(#[trigger] cache_sweep(s, now)[k], now),
        forall|k: int|
            0 <= k < cache_sweep(s, now).len() ==> exists|x: int|
                0 <= x < s.len() && s[x] == #[trigger] cache_sweep(s, now)[k],
        forall|k1: int, k2: int|
            0 <= k1 < k2 < cache_sweep(s, now).len() ==> cache_sweep(s, now)[k1].ip != cache_sweep(
                s,
                now,
            )[k2].ip,
    decreases s.len(),
{
    if s.len() > 0 {
        let rest = s.drop_first();
        assert(forall|i: int| 0 <= i < rest.len() ==> #[trigger] rest[i] == s[i + 1]);
        lemma_cache_sweep_props(rest, now);
        let rr = cache_sweep(rest, now);
        assert forall|k: int| 0 <= k < rr.len() implies exists|x: int|
            0 <= x < s.len() && s[x] == #[trigger] rr[k] by {
            let x = choose|x: int| 0 <= x < rest.len() && rest[x] == rr[k];
            assert(s[x + 1] == rr[k]);
        }
        if fresh_at(s[0], now) {
            let r = seq![s[0]] + rr;
            assert(cache_sweep(s, now) == r);
            assert(r[0] == s[0]);
            assert(forall|k: int| 1 <= k < r.len() ==> #[trigger] r[k] == rr[k - 1]);
            assert forall|k1: int, k2: int| 0 <= k1 < k2 < r.len() implies r[k1].ip != r[k2].ip by {
                if k1 == 0 {
                    assert(r[k2] == rr[k2 - 1]);
                    let x = choose|x: int| 0 <= x < rest.len() && rest[x] == rr[k2 - 1];
                    assert(s[x + 1] == rr[k2 - 1]);
                    assert(s[0].ip != s[x + 1].ip);
                }
            }
        }
    }
}

/// What a hit is worth: blocked, known but not blocked, or unknown
/// (the caller must reverse-resolve).
pub enum CacheDecision {
    Blocked(String),
    KnownNotBlocked,
    NeedResolve,
}

/// The reverse-lookup cache.
pub struct ReverseLookupCache {
    entries: Vec<ReverseLookupCacheEntry>,
}

impl View for ReverseLookupCache {
    type V = Seq<EntryView>;

    closed spec fn view(&self) -> Seq<EntryView> {
        self.entries.deep_view()
    }
}

impl ReverseLookupCache {
    /// At most one entry per ip.
    pub open spec fn wf(&self) -> bool {
        forall|i: int, j: int| 0 <= i < j < self@.len() ==> self@[i].ip != self@[j].ip
    }

    /// An empty cache.
    pub fn new() -> (r: Self)
        ensures
            r@ == Seq::<EntryView>::empty(),
            r.wf(),
    {
        let r = ReverseLookupCache { entries: Vec::new() };
        proof {
            assert(r@ =~= Seq::<EntryView>::empty());
        }
        r
    }

    /// Number of cached entries.
    pub fn len(&self) -> (r: usize)
        ensures
            r == self@.len(),
    {
        self.entries.len()
    }

    /// The unexpired cached domain for `ip`, if any.
    pub fn lookup(&self, ip: &str, now: u64) -> (r: Option<String>)
        ensures
            r.deep_view() == cache_lookup(self@, ip@, now),
    {
        let n = self.entries.len();
        let mut i: usize = 0;
        while i < n
            invariant
                0 <= i <= n,
                n == self.entries@.len(),
                forall|j: int| 0 <= j < i ==> (#[trigger] self@[j]).ip != ip@,
            decreases n - i,
        {
            proof {
                assert(self@[i as int] == self.entries@[i as int]@);
            }
            if crate::text::str_eq(self.entries[i].ip.as_str(), ip) {
                proof {
                    lemma_find_ip_is(self@, ip@, i as int);
                }
                let e = &self.entries[i];
                if now <= e.resolved_at || now - e.resolved_at <= REVERSE_CACHE_TTL_SECONDS {
                    return Some(e.domain.clone());
                }
                return None;
            }
            i = i + 1;
        }
        proof {
            lemma_find_ip_is(self@, ip@, n as int);
        }
        None
    }

    /// Records (or refreshes) the resolution of `ip` to `domain`.
    pub fn insert(&mut self, ip: &str, domain: &str, now: u64)
        requires
            old(self).wf(),
        ensures
            final(self).wf(),
            final(self)@ == cache_insert(old(self)@, ip@, domain@, now),
    {
        let ghost dv = old(self)@;
        let ghost e = EntryView { ip: ip@, domain: domain@, resolved_at: now };
        let n = self.entries.len();
        let mut i: usize = 0;
        while i < n
            invariant
                0 <= i <= n,
                n == self.entries@.len(),
                self@ == dv,
                dv == old(self)@,
                e == (EntryView { ip: ip@, domain: domain@, resolved_at: now }),
                forall|a: int, b: int| 0 <= a < b < dv.len() ==> dv[a].ip != dv[b].ip,
                forall|j: int| 0 <= j < i ==> (#[trigger] self@[j]).ip != ip@,
            decreases n - i,
        {
            proof {
                assert(self@[i as int] == self.entries@[i as int]@);
            }
            if crate::text::str_eq(self.entries[i].ip.as_str(), ip) {
                proof {
                    lemma_find_ip_is(dv, ip@, i as int);
                }
                let fresh_entry = ReverseLookupCacheEntry {
                    ip: String::from_str(ip),
                    domain: String::from_str(domain),
                    resolved_at: now,
                };
                self.entries.set(i, fresh_entry);
                proof {
                    assert(self@ =~= dv.update(i as int, e));
                    assert forall|a: int, b: int| 0 <= a < b < self@.len() implies self@[a].ip
                        != self@[b].ip by {
                        if a != i && b != i {
                            assert(self@[a] == dv[a] && self@[b] == dv[b]);
                        } else if a == i {
                            assert(self@[b] == dv[b] && dv[a].ip == ip@);
                        } else {
                            assert(self@[a] == dv[a] && dv[b].ip == ip@);
                        }
                    }
                }
                return ;
            }
            i = i + 1;
        }
        proof {
            lemma_find_ip_is(dv, ip@, n as int);
        }
        let fresh_entry = ReverseLookupCacheEntry {
            ip: String::from_str(ip),
            domain: String::from_str(domain),
            resolved_at: now,
        };
        self.entries.push(fresh_entry);
        proof {
            assert(self@ =~= dv.push(e));
            assert forall|a: int, b: int| 0 <= a < b < self@.len() implies self@[a].ip
                != self@[b].ip by {
                if b == dv.len() {
                    assert(self@[a] == dv[a] && self@[b] == e);
                } else {
                    assert(self@[a] == dv[a] && self@[b] == dv[b]);
                }
            }
        }
    }

    /// Drops every expired entry, bounding memory between lookups.
    pub fn sweep(&mut self, now: u64)
        requires
            old(self).wf(),
        ensures
            final(self).wf(),
            final(self)@ == cache_sweep(old(self)@, now),
    {
        let ghost dv = old(self)@;
        let n = self.entries.len();
        let mut out: Vec<ReverseLookupCacheEntry> = Vec::new();
        proof {
            assert(out.deep_view() =~= Seq::<EntryView>::empty());
            assert(dv.skip(0) =~= dv);
            assert(out.deep_view() + cache_sweep(dv.skip(0), now) =~= cache_sweep(dv, now));
        }
        let mut i: usize = 0;
        while i < n
            invariant
                0 <= i <= n,
                n == self.entries@.len(),
                self@ == dv,
                cache_sweep(dv, now) == out.deep_view() + cache_sweep(dv.skip(i as int), now),
            decreases n - i,
        {
            let ghost rest = dv.skip(i as int);
            let ghost out0 = out.deep_view();
            proof {
                assert(rest[0] == dv[i as int]);
                assert(rest.drop_first() =~= dv.skip(i + 1));
                assert(self.entries@[i as int]@ == dv[i as int]);
            }
            let e = &self.entries[i];
            if now <= e.resolved_at || now - e.resolved_at <= REVERSE_CACHE_TTL_SECONDS {
                let kept = ReverseLookupCacheEntry {
                    ip: e.ip.clone(),
                    domain: e.domain.clone(),
                    resolved_at: e.resolved_at,
                };
                out.push(kept);
                proof {
                    assert(out.deep_view() =~= out0.push(dv[i as int]));
                    assert(out.deep_view() + cache_sweep(dv.skip(i + 1), now) =~= out0 + (seq![
                        rest[0],
                    ] + cache_sweep(rest.drop_first(), now)));
                }
            } else {
                proof {
                    assert(!fresh_at(dv[i as int], now));
                }
            }
            i = i + 1;
        }
        proof {
            assert(dv.skip(n as int).len() == 0);
            assert(cache_sweep(dv.skip(n as int), now) =~= Seq::<EntryView>::empty());
            assert(out.deep_view() =~= cache_sweep(dv, now));
        }
        self.entries = out;
        proof {
            lemma_cache_sweep_props(dv, now);
        }
    }

    /// The lookup-or-resolve decision of the monitor: a fresh hit
    /// answers immediately (blocked or known-not-blocked), anything
    /// else asks the caller to reverse-resolve.
    pub fn evaluate(&self, ip: &str, now: u64, blocked: &BlockedDomains) -> (r: CacheDecision)
        ensures
            match cache_lookup(self@, ip@, now) {
                Some(d) => if seq_contains(blocked@, lower_seq(d)) {
                    r matches CacheDecision::Blocked(bd) && bd@ == d
                } else {
                    r is KnownNotBlocked
                },
                None => r is NeedResolve,
            },
    {
        match self.lookup(ip, now) {
            Some(domain) => {
                if blocked.contains(domain.as_str()) {
                    CacheDecision::Blocked(domain)
                } else {
                    CacheDecision::KnownNotBlocked
                }
            },
            None => CacheDecision::NeedResolve,
        }
    }

    /// Feeds a reverse-resolution outcome back: success refreshes the
    /// cache whatever the block status and reports the domain if it is
    /// blocked; failure leaves the cache alone, so the next alert for
    /// the ip retries.
    pub fn record_resolution(
        &mut self,
        ip: &str,
        resolved: &Option<String>,
        now: u64,
        blocked: &BlockedDomains,
    ) -> (r: Option<String>)
        requires
            old(self).wf(),
        ensures
            final(self).wf(),
            resolved matches Some(d) ==> final(self)@ == cache_insert(old(self)@, ip@, d@, now),
            resolved matches Some(d) ==> (r is Some <==> seq_contains(blocked@, lower_seq(d@))),
            (resolved is Some && r is Some) ==> r->Some_0@ == resolved->Some_0@,
            resolved is None ==> final(self)@ == old(self)@ && r is None,
    {
        match resolved {
            Some(domain) => {
                self.insert(ip, domain.as_str(), now);
                if blocked.contains(domain.as_str()) {
                    Some(domain.clone())
                } else {
                    None
                }
            },
            None => None,
        }
    }
}

/// The time-to-live law: an entry recorded at `t0` answers lookups
/// while `now - t0` is at most the TTL, and is treated as absent once
/// `now - t0` exceeds it (so such a lookup triggers a fresh reverse
/// resolution).
pub proof fn lemma_cache_ttl(
    s: Seq<EntryView>,
    ip: Seq<char>,
    domain: Seq<char>,
    t0: u64,
    now: u64,
)
    requires
        now >= t0,
    ensures
        now - t0 <= REVERSE_CACHE_TTL_SECONDS ==> cache_lookup(cache_insert(s, ip, domain, t0), ip, now)
            == Some(domain),
        now - t0 > REVERSE_CACHE_TTL_SECONDS ==> cache_lookup(cache_insert(s, ip, domain, t0), ip, now)
            is None,
{
    let e = EntryView { ip: ip, domain: domain, resolved_at: t0 };
    let i = find_ip(s, ip);
    lemma_find_ip(s, ip);
    let s2 = cache_insert(s, ip, domain, t0);
    if i < s.len() {
        assert(s2 == s.update(i, e));
        assert(s2[i] == e);
        assert(forall|j: int| 0 <= j < i ==> #[trigger] s2[j] == s[j]);
        lemma_find_ip_is(s2, ip, i);
    } else {
        assert(s2 == s.push(e));
        assert(s2[s.len() as int] == e);
        assert(forall|j: int| 0 <= j < s.len() ==> #[trigger] s2[j] == s[j]);
        lemma_find_ip_is(s2, ip, s.len() as int);
    }
}

} // verus!
