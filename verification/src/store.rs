//! The blocked-domain store: the authoritative in-memory set of
//! blocked domains.
//!
//! Names are case-normalized (ASCII lowercase) and de-duplicated;
//! order is insertion order. Every mutation returns the encoded form
//! of the new list through [`BlockedDomains::commit_block`] and
//! [`BlockedDomains::commit_unblock`], for the caller to write to
//! disk; a failed write leaves the in-memory state authoritative.

use vstd::prelude::*;

use crate::persist::{all_plain, lemma_decode_encode, spec_decode, spec_encode};
use crate::persist::encode_domains;
use crate::text::{lower_char, lower_seq};
use crate::text::to_lower;

verus! {

/// `d` occurs in the list `s`.
pub open spec fn seq_contains(s: Seq<Seq<char>>, d: Seq<char>) -> bool {
    exists|i: int| 0 <= i < s.len() && s[i] == d
}

/// The list after blocking `d`: unchanged if present, else appended.
pub open spec fn spec_add(s: Seq<Seq<char>>, d: Seq<char>) -> Seq<Seq<char>> {
    if seq_contains(s, d) {
        s
    } else {
        s.push(d)
    }
}

/// The list after unblocking `d`: every occurrence removed.
pub open spec fn spec_remove(s: Seq<Seq<char>>, d: Seq<char>) -> Seq<Seq<char>>
    decreases s.len(),
{
    if s.len() == 0 {
        s
    } else if s[0] == d {
        spec_remove(s.drop_first(), d)
    } else {
        seq![s[0]] + spec_remove(s.drop_first(), d)
    }
}

/// What remains after a removal: entries of `s` other than `d`, and
/// no duplicates if `s` had none.
pub proof fn lemma_spec_remove_props(s: Seq<Seq<char>>, d: Seq<char>)
    requires
        forall|i: int, j: int| 0 <= i < j < s.len() ==> s[i] != s[j],
    ensures
        forall|k: int| 0 <= k < spec_remove(s, d).len() ==> #[trigger] spec_remove(s, d)[k] != d,
        forall|k: int|
            0 <= k < spec_remove(s, d).len() ==> seq_contains(s, #[trigger] spec_remove(s, d)[k]),
        forall|k1: int, k2: int|
            0 <= k1 < k2 < spec_remove(s, d).len() ==> spec_remove(s, d)[k1] != spec_remove(
                s,
                d,
            )[k2],
    decreases s.len(),
{
    if s.len() > 0 {
        let rest = s.drop_first();
        assert(forall|i: int| 0 <= i < rest.len() ==> #[trigger] rest[i] == s[i + 1]);
        lemma_spec_remove_props(rest, d);
        let rr = spec_remove(rest, d);
        assert forall|k: int| 0 <= k < rr.len() implies seq_contains(s, #[trigger] rr[k]) by {
            assert(seq_contains(rest, rr[k]));
            let x = choose|x: int| 0 <= x < rest.len() && rest[x] == rr[k];
            assert(s[x + 1] == rr[k]);
        }
        if s[0] == d {
            assert(spec_remove(s, d) == rr);
        } else {
            let r = seq![s[0]] + rr;
            assert(spec_remove(s, d) == r);
            assert(r[0] == s[0]);
            assert(forall|k: int| 1 <= k < r.len() ==> #[trigger] r[k] == rr[k - 1]);
            assert forall|k1: int, k2: int| 0 <= k1 < k2 < r.len() implies r[k1] != r[k2] by {
                if k1 == 0 {
                    assert(r[k2] == rr[k2 - 1]);
                    assert(seq_contains(rest, rr[k2 - 1]));
                    let x = choose|x: int| 0 <= x < rest.len() && rest[x] == rr[k2 - 1];
                    assert(s[x + 1] == rr[k2 - 1]);
                    assert(s[0] != s[x + 1]);
                }
            }
        }
    }
}

/// The store state loaded from a persisted list: each entry
/// normalized, duplicates dropped, first occurrences kept in order.
pub open spec fn spec_init(loaded: Seq<Seq<char>>) -> Seq<Seq<char>> {
    spec_init_acc(loaded, Seq::empty())
}

/// [`spec_init`] with the part already loaded.
pub open spec fn spec_init_acc(loaded: Seq<Seq<char>>, acc: Seq<Seq<char>>) -> Seq<Seq<char>>
    decreases loaded.len(),
{
    if loaded.len() == 0 {
        acc
    } else {
        spec_init_acc(loaded.drop_first(), spec_add(acc, lower_seq(loaded[0])))
    }
}

/// The process-wide set of blocked domains.
pub struct BlockedDomains {
    domains: Vec<String>,
}

impl View for BlockedDomains {
    type V = Seq<Seq<char>>;

    closed spec fn view(&self) -> Seq<Seq<char>> {
        self.domains.deep_view()
    }
}

impl BlockedDomains {
    /// Entries are normalized and pairwise distinct.
    pub open spec fn wf(&self) -> bool {
        &&& forall|i: int| 0 <= i < self@.len() ==> #[trigger] self@[i] == lower_seq(self@[i])
        &&& forall|i: int, j: int| 0 <= i < j < self@.len() ==> self@[i] != self@[j]
    }

    /// An empty store.
    pub fn new() -> (r: Self)
        ensures
            r@ == Seq::<Seq<char>>::empty(),
            r.wf(),
    {
        let r = BlockedDomains { domains: Vec::new() };
        proof {
            assert(r@ =~= Seq::<Seq<char>>::empty());
        }
        r
    }

    /// Number of blocked domains.
    pub fn len(&self) -> (r: usize)
        ensures
            r == self@.len(),
    {
        self.domains.len()
    }

    /// The cheap fast path of the monitor: nothing is blocked.
    pub fn is_empty(&self) -> (r: bool)
        ensures
            r == (self@.len() == 0),
    {
        self.domains.len() == 0
    }

    /// Whether `domain` (case-insensitively) is blocked.
    pub fn contains(&self, domain: &str) -> (r: bool)
        ensures
            r == seq_contains(self@, lower_seq(domain@)),
    {
        let norm = to_lower(domain);
        let n = self.domains.len();
        let mut i: usize = 0;
        while i < n
            invariant
                0 <= i <= n,
                n == self.domains@.len(),
                norm@ == lower_seq(domain@),
                forall|j: int| 0 <= j < i ==> self@[j] != norm@,
            decreases n - i,
        {
            if self.domains[i].eq(&norm) {
                proof {
                    assert(self@[i as int] == norm@);
                }
                return true;
            }
            proof {
                assert(self@[i as int] == self.domains@[i as int]@);
            }
            i = i + 1;
        }
        false
    }

    /// Blocks `domain`: appends its normalized form unless it is
    /// already present. Returns whether the store changed.
    pub fn add(&mut self, domain: &str) -> (added: bool)
        requires
            old(self).wf(),
        ensures
            final(self).wf(),
            final(self)@ == spec_add(old(self)@, lower_seq(domain@)),
            added == !seq_contains(old(self)@, lower_seq(domain@)),
    {
        let ghost dv = old(self)@;
        let ghost target = lower_seq(domain@);
        let norm = to_lower(domain);
        if self.contains(domain) {
            return false;
        }
        self.domains.push(norm);
        proof {
            assert(self@ =~= dv.push(target));
            lemma_lower_seq_idempotent(domain@);
            let r = dv.push(target);
            assert(forall|i: int| 0 <= i < dv.len() ==> #[trigger] r[i] == dv[i]);
            assert(r[dv.len() as int] == target);
            assert forall|i: int, j: int| 0 <= i < j < r.len() implies r[i] != r[j] by {
                if j == dv.len() {
                    if r[i] == target {
                        assert(seq_contains(dv, target));
                    }
                }
            }
        }
        true
    }

    /// Unblocks `domain`: removes its normalized form. A domain that
    /// was never blocked leaves the store unchanged, not an error.
    pub fn remove(&mut self, domain: &str)
        requires
            old(self).wf(),
        ensures
            final(self).wf(),
            final(self)@ == spec_remove(old(self)@, lower_seq(domain@)),
            !seq_contains(final(self)@, lower_seq(domain@)),
    {
        let ghost dv = old(self)@;
        let ghost target = lower_seq(domain@);
        let norm = to_lower(domain);
        let n = self.domains.len();
        let mut out: Vec<String> = Vec::new();
        proof {
            assert(out.deep_view() =~= Seq::<Seq<char>>::empty());
            assert(dv.skip(0) =~= dv);
            assert(out.deep_view() + spec_remove(dv.skip(0), target) =~= spec_remove(dv, target));
        }
        let mut i: usize = 0;
        while i < n
            invariant
                0 <= i <= n,
                n == self.domains@.len(),
                self@ == dv,
                norm@ == target,
                spec_remove(dv, target) == out.deep_view() + spec_remove(
                    dv.skip(i as int),
                    target,
                ),
            decreases n - i,
        {
            let ghost rest = dv.skip(i as int);
            let ghost out0 = out.deep_view();
            proof {
                assert(rest[0] == dv[i as int]);
                assert(rest.drop_first() =~= dv.skip(i + 1));
                assert(self.domains@[i as int]@ == dv[i as int]);
            }
            if !self.domains[i].eq(&norm) {
                out.push(self.domains[i].clone());
                proof {
                    assert(out.deep_view() =~= out0.push(dv[i as int]));
                    assert(out.deep_view() + spec_remove(dv.skip(i + 1), target) =~= out0 + (seq![
                        rest[0],
                    ] + spec_remove(rest.drop_first(), target)));
                }
            } else {
                proof {
                    assert(dv[i as int] == target);
                }
            }
            i = i + 1;
        }
        proof {
            assert(dv.skip(n as int).len() == 0);
            assert(spec_remove(dv.skip(n as int), target) =~= Seq::<Seq<char>>::empty());
            assert(out.deep_view() =~= spec_remove(dv, target));
        }
        self.domains = out;
        proof {
            let r = self@;
            lemma_spec_remove_props(dv, target);
            assert forall|k: int| 0 <= k < r.len() implies #[trigger] r[k] == lower_seq(r[k]) by {
                assert(seq_contains(dv, r[k]));
                let x = choose|x: int| 0 <= x < dv.len() && dv[x] == r[k];
                assert(dv[x] == lower_seq(dv[x]));
            }
        }
    }

    /// The blocked domains, in insertion order.
    pub fn list(&self) -> (r: Vec<String>)
        ensures
            r.deep_view() == self@,
    {
        let n = self.domains.len();
        let mut out: Vec<String> = Vec::new();
        let mut i: usize = 0;
        proof {
            assert(out.deep_view() =~= self@.take(0));
        }
        while i < n
            invariant
                0 <= i <= n,
                n == self.domains@.len(),
                out.deep_view() == self@.take(i as int),
            decreases n - i,
        {
            let ghost out0 = out.deep_view();
            out.push(self.domains[i].clone());
            proof {
                assert(self.domains@[i as int]@ == self@[i as int]);
                assert(out.deep_view() =~= out0.push(self@[i as int]));
                assert(out0.push(self@[i as int]) =~= self@.take(i + 1));
            }
            i = i + 1;
        }
        proof {
            assert(self@.take(n as int) =~= self@);
        }
        out
    }

    /// Loads the store from a persisted list: normalizes each entry
    /// and drops duplicates, keeping first occurrences in order.
    pub fn initialize(&mut self, loaded: &Vec<String>)
        ensures
            final(self).wf(),
            final(self)@ == spec_init(loaded.deep_view()),
    {
        let ghost dv = loaded.deep_view();
        self.domains = Vec::new();
        proof {
            assert(self@ =~= Seq::<Seq<char>>::empty());
            assert(dv.skip(0) =~= dv);
        }
        let n = loaded.len();
        let mut i: usize = 0;
        while i < n
            invariant
                0 <= i <= n,
                n == loaded@.len(),
                dv == loaded.deep_view(),
                self.wf(),
                spec_init_acc(dv.skip(i as int), self@) == spec_init(dv),
            decreases n - i,
        {
            let ghost rest = dv.skip(i as int);
            let ghost before = self@;
            proof {
                assert(rest[0] == dv[i as int]);
                assert(rest.drop_first() =~= dv.skip(i + 1));
                assert(dv[i as int] == loaded@[i as int]@);
                assert(spec_init_acc(rest, before) == spec_init_acc(
                    rest.drop_first(),
                    spec_add(before, lower_seq(rest[0])),
                ));
            }
            self.add(loaded[i].as_str());
            i = i + 1;
        }
        proof {
            assert(dv.skip(n as int).len() == 0);
        }
    }

    /// Blocks `domain` and returns the encoded list to persist.
    pub fn commit_block(&mut self, domain: &str) -> (persist: String)
        requires
            old(self).wf(),
        ensures
            final(self).wf(),
            final(self)@ == spec_add(old(self)@, lower_seq(domain@)),
            persist@ == spec_encode(final(self)@),
    {
        self.add(domain);
        encode_domains(&self.domains)
    }

    /// Unblocks `domain` and returns the encoded list to persist.
    pub fn commit_unblock(&mut self, domain: &str) -> (persist: String)
        requires
            old(self).wf(),
        ensures
            final(self).wf(),
            final(self)@ == spec_remove(old(self)@, lower_seq(domain@)),
            persist@ == spec_encode(final(self)@),
    {
        self.remove(domain);
        encode_domains(&self.domains)
    }
}

/// Lowercasing is idempotent.
pub proof fn lemma_lower_seq_idempotent(s: Seq<char>)
    ensures
        lower_seq(lower_seq(s)) == lower_seq(s),
{
    assert forall|i: int| 0 <= i < s.len() implies lower_char(lower_char(s[i])) == lower_char(
        s[i],
    ) by {
    }
    assert(lower_seq(lower_seq(s)) =~= lower_seq(s));
}

/// Blocking a domain twice is the same as blocking it once: the second
/// call finds it present and leaves the list (and so the persisted
/// file) unchanged.
pub proof fn lemma_add_idempotent(s: Seq<Seq<char>>, d: Seq<char>)
    ensures
        spec_add(spec_add(s, d), d) == spec_add(s, d),
        spec_encode(spec_add(spec_add(s, d), d)) == spec_encode(spec_add(s, d)),
{
    if !seq_contains(s, d) {
        assert(s.push(d)[s.len() as int] == d);
        assert(seq_contains(s.push(d), d));
    }
}

/// A store whose entries are normalized, distinct and free of escapes
/// survives persistence: encoding, decoding and reloading the list
/// yields the same store state.
pub proof fn lemma_persistence_round_trip(domains: Seq<Seq<char>>)
    requires
        forall|i: int| 0 <= i < domains.len() ==> #[trigger] domains[i] == lower_seq(domains[i]),
        forall|i: int, j: int| 0 <= i < j < domains.len() ==> domains[i] != domains[j],
        forall|i: int| 0 <= i < domains.len() ==> all_plain(#[trigger] domains[i]),
    ensures
        spec_decode(spec_encode(domains)) == Some(domains),
        spec_init(domains) == domains,
{
    lemma_decode_encode(domains);
    lemma_init_acc_distinct(domains, Seq::empty());
    assert(Seq::empty() + domains =~= domains);
}

proof fn lemma_init_acc_distinct(rest: Seq<Seq<char>>, acc: Seq<Seq<char>>)
    requires
        forall|i: int| 0 <= i < rest.len() ==> #[trigger] rest[i] == lower_seq(rest[i]),
        forall|i: int, j: int| 0 <= i < j < rest.len() ==> rest[i] != rest[j],
        forall|i: int| 0 <= i < rest.len() ==> !seq_contains(acc, #[trigger] rest[i]),
    ensures
        spec_init_acc(rest, acc) == acc + rest,
    decreases rest.len(),
{
    if rest.len() == 0 {
        assert(spec_init_acc(rest, acc) =~= acc + rest);
    } else {
        let d = rest[0];
        assert(lower_seq(d) == d);
        assert(!seq_contains(acc, d));
        assert(spec_add(acc, lower_seq(d)) == acc.push(d));
        let rest2 = rest.drop_first();
        assert(forall|i: int| 0 <= i < rest2.len() ==> #[trigger] rest2[i] == rest[i + 1]);
        assert forall|i: int| 0 <= i < rest2.len() implies !seq_contains(
            acc.push(d),
            #[trigger] rest2[i],
        ) by {
            assert(rest2[i] == rest[i + 1]);
            assert(rest[i + 1] != d);
            if seq_contains(acc.push(d), rest2[i]) {
                let k = choose|k: int| 0 <= k < acc.push(d).len() && acc.push(d)[k] == rest2[i];
                if k < acc.len() {
                    assert(seq_contains(acc, rest2[i]));
                } else {
                    assert(acc.push(d)[k] == d);
                }
            }
        }
        lemma_init_acc_distinct(rest2, acc.push(d));
        assert(acc.push(d) + rest2 =~= acc + rest);
    }
}

} // verus!
