//! The access monitor's decision logic: the run flag, the table of
//! recent access attempts with its notification cooldown, and the
//! per-tick housekeeping decisions.
//!
//! The polling loop itself lives outside the library: each tick it
//! reads the alert events, resolves destination IPs through the
//! reverse-lookup cache, and feeds every match through
//! [`handle_blocked_domain_access`], which debounces notifications per
//! `(domain, ip)` key.

use vstd::prelude::*;

use crate::text::str_eq;

verus! {

/// Seconds between two notifications for the same `(domain, ip)` key.
pub const NOTIFICATION_COOLDOWN_SECONDS: u64 = 30;

/// Seconds between two housekeeping sweeps of the monitor.
pub const CLEANUP_INTERVAL_SECONDS: u64 = 300;

/// Seconds of inactivity after which an attempt entry is purged.
pub const ATTEMPT_EXPIRY_SECONDS: u64 = 600;

/// How the user wants to be notified; read fresh on every use, so a
/// change takes effect on the next evaluation.
#[derive(Clone, Copy, Debug, PartialEq, Eq, Structural)]
pub struct NotificationSettings {
    pub domain_blocked_delay_seconds: u64,
    pub cooldown_seconds: u64,
    pub enabled: bool,
}

impl Default for NotificationSettings {
    /// Notifications on, two seconds of delay, half a minute of
    /// cooldown.
    fn default() -> (r: Self)
        ensures
            r.domain_blocked_delay_seconds == 2,
            r.cooldown_seconds == NOTIFICATION_COOLDOWN_SECONDS,
            r.enabled,
    {
        NotificationSettings {
            domain_blocked_delay_seconds: 2,
            cooldown_seconds: NOTIFICATION_COOLDOWN_SECONDS,
            enabled: true,
        }
    }
}

/// The process-wide notification settings.
pub struct NotificationState {
    pub settings: NotificationSettings,
}

impl Default for NotificationState {
    fn default() -> (r: Self)
        ensures
            r.settings.domain_blocked_delay_seconds == 2,
            r.settings.cooldown_seconds == NOTIFICATION_COOLDOWN_SECONDS,
            r.settings.enabled,
    {
        NotificationState { settings: NotificationSettings::default() }
    }
}

/// The monitor's run flag: `Stopped -> Running -> Stopped`. Stopping
/// only flips the flag; the loop observes it on its own schedule.
pub struct MonitorState {
    pub active: bool,
}

impl MonitorState {
    /// A stopped monitor.
    pub fn new() -> (r: Self)
        ensures
            !r.active,
    {
        MonitorState { active: false }
    }

    /// Requests the monitor to run. Idempotent: returns whether the
    /// caller must spawn the loop (it was stopped until now).
    pub fn start(&mut self) -> (spawn: bool)
        ensures
            final(self).active,
            spawn == !old(self).active,
    {
        let was_active = self.active;
        self.active = true;
        !was_active
    }

    /// Requests the monitor to stop; takes effect within one poll
    /// interval.
    pub fn stop(&mut self)
        ensures
            !final(self).active,
    {
        self.active = false;
    }
}

/// Whether the monitor is (requested to be) running.
pub fn is_monitor_active(state: &MonitorState) -> (r: bool)
    ensures
        r == state.active,
{
    state.active
}

/// One alert record handed in by the external alert source.
#[derive(Debug)]
pub struct AlertEvent {
    pub timestamp: String,
    pub src_ip: Option<String>,
    pub dest_ip: Option<String>,
    pub src_port: Option<u16>,
    pub dest_port: Option<u16>,
    pub signature: Option<String>,
    pub category: Option<String>,
    pub severity: Option<u8>,
}

/// One flow record handed in by the external alert source.
#[derive(Debug)]
pub struct FlowEvent {
    pub sourceip: String,
    pub destinationip: String,
    pub sourceport: u16,
    pub destinationport: u16,
    pub protocol: String,
    pub bytes_in: u64,
    pub bytes_out: u64,
    pub packets_in: u32,
    pub packets_out: u32,
    pub start_time: String,
    pub end_time: String,
}

/// The record of observed accesses to one blocked `(domain, ip)` pair.
pub struct AccessAttempt {
    pub domain: String,
    pub ip: String,
    pub last_seen: u64,
    pub last_notified: u64,
    pub count: u32,
}

/// The mathematical shadow of an [`AccessAttempt`].
pub ghost struct AttemptView {
    pub domain: Seq<char>,
    pub ip: Seq<char>,
    pub last_seen: u64,
    pub last_notified: u64,
    pub count: u32,
}

impl View for AccessAttempt {
    type V = AttemptView;

    open spec fn view(&self) -> AttemptView {
        AttemptView {
            domain: self.domain@,
            ip: self.ip@,
            last_seen: self.last_seen,
            last_notified: self.last_notified,
            count: self.count,
        }
    }
}

impl DeepView for AccessAttempt {
    type V = AttemptView;

    open spec fn deep_view(&self) -> AttemptView {
        self.view()
    }
}

/// Index of the entry keyed `(domain, ip)`, or `s.len()` if none.
pub open spec fn find_key(s: Seq<AttemptView>, domain: Seq<char>, ip: Seq<char>) -> int
    decreases s.len(),
{
    if s.len() == 0 {
        0
    } else if s[0].domain == domain && s[0].ip == ip {
        0
    } else {
        1 + find_key(s.drop_first(), domain, ip)
    }
}

pub proof fn lemma_find_key(s: Seq<AttemptView>, domain: Seq<char>, ip: Seq<char>)
    ensures
        0 <= find_key(s, domain, ip) <= s.len(),
        find_key(s, domain, ip) < s.len() ==> s[find_key(s, domain, ip)].domain == domain && s[
            find_key(s, domain, ip)
        ].ip == ip,
        forall|j: int|
            0 <= j < find_key(s, domain, ip) ==> !((#[trigger] s[j]).domain == domain && s[j].ip
                == ip),
    decreases s.len(),
{
    if s.len() > 0 && !(s[0].domain == domain && s[0].ip == ip) {
        lemma_find_key(s.drop_first(), domain, ip);
        assert(forall|j: int|
            1 <= j < find_key(s, domain, ip) ==> #[trigger] s[j] == s.drop_first()[j - 1]);
    }
}

pub proof fn lemma_find_key_is(s: Seq<AttemptView>, domain: Seq<char>, ip: Seq<char>, i: int)
    requires
        0 <= i <= s.len(),
        i < s.len() ==> s[i].domain == domain && s[i].ip == ip,
        forall|j: int| 0 <= j < i ==> !((#[trigger] s[j]).domain == domain && s[j].ip == ip),
        i == s.len() ==> forall|j: int|
            0 <= j < s.len() ==> !((#[trigger] s[j]).domain == domain && s[j].ip == ip),
    ensures
        find_key(s, domain, ip) == i,
{
    lemma_find_key(s, domain, ip);
    if find_key(s, domain, ip) < i {
        assert(s[find_key(s, domain, ip)].domain == domain && s[find_key(s, domain, ip)].ip == ip);
    } else if i < find_key(s, domain, ip) {
        assert(s[i].domain == domain && s[i].ip == ip);
    }
}

/// The rendered form of an attempt key, `domain:ip`.
pub fn access_key(domain: &str, ip: &str) -> (r: String)
    ensures
        r@ == domain@ + ":"@ + ip@,
{
    let mut key = String::from_str(domain);
    key.append(":");
    key.append(ip);
    proof {
        assert(key@ =~= domain@ + ":"@ + ip@);
    }
    key
}

/// The cooldown has elapsed since the last notification.
pub open spec fn cooldown_elapsed(last_notified: u64, now: u64, cooldown: u64) -> bool {
    now >= last_notified && now - last_notified > cooldown
}

/// A count bumped without overflow.
pub open spec fn bump(c: u32) -> u32 {
    if c == u32::MAX {
        c
    } else {
        (c + 1) as u32
    }
}

/// The attempt table and the notify decision after one observed match
/// of `(domain, ip)` at `now`: a first sighting is recorded and
/// notifies at once; a known key bumps its count and notifies only if
/// the cooldown since its last notification has elapsed.
pub open spec fn spec_record(
    s: Seq<AttemptView>,
    domain: Seq<char>,
    ip: Seq<char>,
    now: u64,
    cooldown: u64,
) -> (Seq<AttemptView>, bool) {
    let i = find_key(s, domain, ip);
    if i >= s.len() {
        (
            s.push(
                AttemptView {
                    domain: domain,
                    ip: ip,
                    last_seen: now,
                    last_notified: now,
                    count: 1,
                },
            ),
            true,
        )
    } else {
        let e = s[i];
        if cooldown_elapsed(e.last_notified, now, cooldown) {
            (
                s.update(
                    i,
                    AttemptView {
                        domain: e.domain,
                        ip: e.ip,
                        last_seen: now,
                        last_notified: now,
                        count: bump(e.count),
                    },
                ),
                true,
            )
        } else {
            (
                s.update(
                    i,
                    AttemptView {
                        domain: e.domain,
                        ip: e.ip,
                        last_seen: now,
                        last_notified: e.last_notified,
                        count: bump(e.count),
                    },
                ),
                false,
            )
        }
    }
}

/// The attempt table after the housekeeping sweep: entries not seen
/// for [`ATTEMPT_EXPIRY_SECONDS`] are purged.
pub open spec fn spec_cleanup(s: Seq<AttemptView>, now: u64) -> Seq<AttemptView>
    decreases s.len(),
{
    if s.len() == 0 {
        s
    } else if attempt_live(s[0], now) {
        seq![s[0]] + spec_cleanup(s.drop_first(), now)
    } else {
        spec_cleanup(s.drop_first(), now)
    }
}

/// An attempt entry is kept while it was seen recently.
pub open spec fn attempt_live(e: AttemptView, now: u64) -> bool {
    now <= e.last_seen || now - e.last_seen < ATTEMPT_EXPIRY_SECONDS
}

/// The table of recent access attempts, keyed by `(domain, ip)`.
pub struct AttemptTable {
    attempts: Vec<AccessAttempt>,
}

impl View for AttemptTable {
    type V = Seq<AttemptView>;

    closed spec fn view(&self) -> Seq<AttemptView> {
        self.attempts.deep_view()
    }
}

impl AttemptTable {
    /// At most one entry per `(domain, ip)` key.
    pub open spec fn wf(&self) -> bool {
        forall|i: int, j: int|
            0 <= i < j < self@.len() ==> !(self@[i].domain == self@[j].domain && self@[i].ip
                == self@[j].ip)
    }

    /// An empty table.
    pub fn new() -> (r: Self)
        ensures
            r@ == Seq::<AttemptView>::empty(),
            r.wf(),
    {
        let r = AttemptTable { attempts: Vec::new() };
        proof {
            assert(r@ =~= Seq::<AttemptView>::empty());
        }
        r
    }

    /// Number of tracked keys.
    pub fn len(&self) -> (r: usize)
        ensures
            r == self@.len(),
    {
        self.attempts.len()
    }

    /// Records one observed match and decides whether to notify, as
    /// [`spec_record`] describes.
    pub fn record_match(&mut self, domain: &str, ip: &str, now: u64, cooldown: u64) -> (notify:
        bool)
        requires
            old(self).wf(),
        ensures
            final(self).wf(),
            final(self)@ == spec_record(old(self)@, domain@, ip@, now, cooldown).0,
            notify == spec_record(old(self)@, domain@, ip@, now, cooldown).1,
    {
        let ghost dv = old(self)@;
        let n = self.attempts.len();
        let mut i: usize = 0;
        while i < n
            invariant
                0 <= i <= n,
                n == self.attempts@.len(),
                self@ == dv,
                dv == old(self)@,
                forall|a: int, b: int|
                    0 <= a < b < dv.len() ==> !(dv[a].domain == dv[b].domain && dv[a].ip
                        == dv[b].ip),
                forall|j: int|
                    0 <= j < i ==> !((#[trigger] self@[j]).domain == domain@ && self@[j].ip
                        == ip@),
            decreases n - i,
        {
            proof {
                assert(self@[i as int] == self.attempts@[i as int]@);
            }
            let hit = str_eq(self.attempts[i].domain.as_str(), domain) && str_eq(
                self.attempts[i].ip.as_str(),
                ip,
            );
            if hit {
                proof {
                    lemma_find_key_is(dv, domain@, ip@, i as int);
                }
                let e = &self.attempts[i];
                let elapsed = now >= e.last_notified && now - e.last_notified > cooldown;
                let new_count = if e.count == u32::MAX {
                    e.count
                } else {
                    e.count + 1
                };
                let updated = AccessAttempt {
                    domain: e.domain.clone(),
                    ip: e.ip.clone(),
                    last_seen: now,
                    last_notified: if elapsed {
                        now
                    } else {
                        e.last_notified
                    },
                    count: new_count,
                };
                self.attempts.set(i, updated);
                proof {
                    let target = spec_record(dv, domain@, ip@, now, cooldown).0;
                    assert(self@ =~= target);
                    assert forall|a: int, b: int| 0 <= a < b < self@.len() implies !(self@[a].domain
                        == self@[b].domain && self@[a].ip == self@[b].ip) by {
                        if a != i && b != i {
                            assert(self@[a] == dv[a] && self@[b] == dv[b]);
                        } else if a == i {
                            assert(self@[b] == dv[b] && self@[a].domain == dv[a].domain
                                && self@[a].ip == dv[a].ip);
                        } else {
                            assert(self@[a] == dv[a] && self@[b].domain == dv[b].domain
                                && self@[b].ip == dv[b].ip);
                        }
                    }
                }
                return elapsed;
            }
            i = i + 1;
        }
        proof {
            lemma_find_key_is(dv, domain@, ip@, n as int);
        }
        let fresh_entry = AccessAttempt {
            domain: String::from_str(domain),
            ip: String::from_str(ip),
            last_seen: now,
            last_notified: now,
            count: 1,
        };
        self.attempts.push(fresh_entry);
        proof {
            assert(self@ =~= spec_record(dv, domain@, ip@, now, cooldown).0);
            assert forall|a: int, b: int| 0 <= a < b < self@.len() implies !(self@[a].domain
                == self@[b].domain && self@[a].ip == self@[b].ip) by {
                if b == dv.len() {
                    assert(self@[a] == dv[a]);
                    assert(self@[b].domain == domain@ && self@[b].ip == ip@);
                } else {
                    assert(self@[a] == dv[a] && self@[b] == dv[b]);
                }
            }
        }
        true
    }
}

/// What the sweep keeps: recently seen entries of `s`, keys unique.
proof fn lemma_spec_cleanup_props(s: Seq<AttemptView>, now: u64)
    requires
        forall|i: int, j: int|
            0 <= i < j < s.len() ==> !(s[i].domain == s[j].domain && s[i].ip == s[j].ip),
    ensures
        forall|k: int|
            0 <= k < spec_cleanup(s, now).len() ==> exists|x: int|
                0 <= x < s.len() && s[x] == #[trigger] spec_cleanup(s, now)[k],
        forall|k1: int, k2: int|
            0 <= k1 < k2 < spec_cleanup(s, now).len() ==> !(spec_cleanup(s, now)[k1].domain
                == spec_cleanup(s, now)[k2].domain && spec_cleanup(s, now)[k1].ip == spec_cleanup(
                s,
                now,
            )[k2].ip),
    decreases s.len(),
{
    if s.len() > 0 {
        let rest = s.drop_first();
        assert(forall|i: int| 0 <= i < rest.len() ==> #[trigger] rest[i] == s[i + 1]);
        lemma_spec_cleanup_props(rest, now);
        let rr = spec_cleanup(rest, now);
        assert forall|k: int| 0 <= k < rr.len() implies exists|x: int|
            0 <= x < s.len() && s[x] == #[trigger] rr[k] by {
            let x = choose|x: int| 0 <= x < rest.len() && rest[x] == rr[k];
            assert(s[x + 1] == rr[k]);
        }
        if attempt_live(s[0], now) {
            let r = seq![s[0]] + rr;
            assert(spec_cleanup(s, now) == r);
            assert(r[0] == s[0]);
            assert(forall|k: int| 1 <= k < r.len() ==> #[trigger] r[k] == rr[k - 1]);
            assert forall|k1: int, k2: int| 0 <= k1 < k2 < r.len() implies !(r[k1].domain
                == r[k2].domain && r[k1].ip == r[k2].ip) by {
                if k1 == 0 {
                    assert(r[k2] == rr[k2 - 1]);
                    let x = choose|x: int| 0 <= x < rest.len() && rest[x] == rr[k2 - 1];
                    assert(s[x + 1] == rr[k2 - 1]);
                    assert(!(s[0].domain == s[x + 1].domain && s[0].ip == s[x + 1].ip));
                }
            }
        }
    }
}

/// Purges attempt entries not seen for [`ATTEMPT_EXPIRY_SECONDS`].
pub fn cleanup_old_attempts(table: &mut AttemptTable, now: u64)
    requires
        old(table).wf(),
    ensures
        final(table).wf(),
        final(table)@ == spec_cleanup(old(table)@, now),
{
    let ghost dv = old(table)@;
    let n = table.attempts.len();
    let mut out: Vec<AccessAttempt> = Vec::new();
    proof {
        assert(out.deep_view() =~= Seq::<AttemptView>::empty());
        assert(dv.skip(0) =~= dv);
        assert(out.deep_view() + spec_cleanup(dv.skip(0), now) =~= spec_cleanup(dv, now));
    }
    let mut i: usize = 0;
    while i < n
        invariant
            0 <= i <= n,
            n == table.attempts@.len(),
            table@ == dv,
            spec_cleanup(dv, now) == out.deep_view() + spec_cleanup(dv.skip(i as int), now),
        decreases n - i,
    {
        let ghost rest = dv.skip(i as int);
        let ghost out0 = out.deep_view();
        proof {
            assert(rest[0] == dv[i as int]);
            assert(rest.drop_first() =~= dv.skip(i + 1));
            assert(table.attempts@[i as int]@ == dv[i as int]);
        }
        let e = &table.attempts[i];
        if now <= e.last_seen || now - e.last_seen < ATTEMPT_EXPIRY_SECONDS {
            let kept = AccessAttempt {
                domain: e.domain.clone(),
                ip: e.ip.clone(),
                last_seen: e.last_seen,
                last_notified: e.last_notified,
                count: e.count,
            };
            out.push(kept);
            proof {
                assert(out.deep_view() =~= out0.push(dv[i as int]));
                assert(out.deep_view() + spec_cleanup(dv.skip(i + 1), now) =~= out0 + (seq![
                    rest[0],
                ] + spec_cleanup(rest.drop_first(), now)));
            }
        } else {
            proof {
                assert(!attempt_live(dv[i as int], now));
            }
        }
        i = i + 1;
    }
    proof {
        assert(dv.skip(n as int).len() == 0);
        assert(spec_cleanup(dv.skip(n as int), now) =~= Seq::<AttemptView>::empty());
        assert(out.deep_view() =~= spec_cleanup(dv, now));
    }
    table.attempts = out;
    proof {
        lemma_spec_cleanup_props(dv, now);
    }
}

/// The housekeeping decision of a tick: sweep once the interval since
/// the last sweep has passed.
pub fn should_sweep(last_cleanup: u64, now: u64) -> (r: bool)
    ensures
        r == (now >= last_cleanup && now - last_cleanup > CLEANUP_INTERVAL_SECONDS),
{
    now >= last_cleanup && now - last_cleanup > CLEANUP_INTERVAL_SECONDS
}

/// The structured event handed to the UI when a blocked domain was
/// contacted.
#[derive(Debug)]
pub struct NotificationEvent {
    pub domain: String,
    pub ip: String,
    pub timestamp: String,
    pub signature: Option<String>,
}

/// Assembles the UI event for one match from the triggering alert.
pub fn make_notification(domain: &str, ip: &str, alert: &AlertEvent) -> (r: NotificationEvent)
    ensures
        r.domain@ == domain@,
        r.ip@ == ip@,
        r.timestamp@ == alert.timestamp@,
        r.signature.deep_view() == alert.signature.deep_view(),
{
    NotificationEvent {
        domain: String::from_str(domain),
        ip: String::from_str(ip),
        timestamp: alert.timestamp.clone(),
        signature: match &alert.signature {
            Some(sig) => Some(sig.clone()),
            None => None,
        },
    }
}

/// The dispatch decision: how long to delay the notification, or
/// nothing when notifications are disabled.
pub fn notification_plan(settings: &NotificationSettings) -> (r: Option<u64>)
    ensures
        settings.enabled ==> r == Some(settings.domain_blocked_delay_seconds),
        !settings.enabled ==> r is None,
{
    if settings.enabled {
        Some(settings.domain_blocked_delay_seconds)
    } else {
        None
    }
}

/// One observed match of a blocked `(domain, ip)` pair: updates the
/// attempt table under the settings' cooldown and, when a
/// notification is due and enabled, returns the delay after which the
/// caller dispatches it.
pub fn handle_blocked_domain_access(
    table: &mut AttemptTable,
    settings: &NotificationSettings,
    domain: &str,
    ip: &str,
    now: u64,
) -> (r: Option<u64>)
    requires
        old(table).wf(),
    ensures
        final(table).wf(),
        final(table)@ == spec_record(old(table)@, domain@, ip@, now, settings.cooldown_seconds).0,
        r is Some <==> (spec_record(old(table)@, domain@, ip@, now, settings.cooldown_seconds).1
            && settings.enabled),
        r is Some ==> r == Some(settings.domain_blocked_delay_seconds),
{
    let notify = table.record_match(domain, ip, now, settings.cooldown_seconds);
    if notify {
        notification_plan(settings)
    } else {
        None
    }
}

/// The notification-cooldown law: with no prior record for the key, a
/// match at `t0` notifies; a second match within the cooldown is
/// suppressed (though recorded); a third match more than the cooldown
/// after `t0` notifies again.
pub proof fn lemma_notification_cooldown(
    s0: Seq<AttemptView>,
    domain: Seq<char>,
    ip: Seq<char>,
    t0: u64,
    t1: u64,
    t2: u64,
    cooldown: u64,
)
    requires
        find_key(s0, domain, ip) == s0.len(),
        t0 <= t1,
        t1 - t0 <= cooldown,
        t2 >= t0,
        t2 - t0 > cooldown,
    ensures
        spec_record(s0, domain, ip, t0, cooldown).1,
        !spec_record(spec_record(s0, domain, ip, t0, cooldown).0, domain, ip, t1, cooldown).1,
        spec_record(
            spec_record(spec_record(s0, domain, ip, t0, cooldown).0, domain, ip, t1, cooldown).0,
            domain,
            ip,
            t2,
            cooldown,
        ).1,
{
    lemma_find_key(s0, domain, ip);
    let e0 = AttemptView { domain: domain, ip: ip, last_seen: t0, last_notified: t0, count: 1 };
    let s1 = spec_record(s0, domain, ip, t0, cooldown).0;
    assert(s1 == s0.push(e0));
    assert(s1[s0.len() as int] == e0);
    assert(forall|j: int| 0 <= j < s0.len() ==> #[trigger] s1[j] == s0[j]);
    lemma_find_key_is(s1, domain, ip, s0.len() as int);
    assert(!cooldown_elapsed(t0, t1, cooldown));
    let step2 = spec_record(s1, domain, ip, t1, cooldown);
    assert(!step2.1);
    let s2 = step2.0;
    let e1 = AttemptView {
        domain: domain,
        ip: ip,
        last_seen: t1,
        last_notified: t0,
        count: bump(1),
    };
    assert(s2 == s1.update(s0.len() as int, e1));
    assert(s2[s0.len() as int] == e1);
    assert(forall|j: int| 0 <= j < s0.len() ==> #[trigger] s2[j] == s0[j]);
    lemma_find_key_is(s2, domain, ip, s0.len() as int);
    assert(cooldown_elapsed(t0, t2, cooldown));
}

} // verus!
