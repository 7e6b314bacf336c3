//! Connection guard: per-address rate limiting of connection attempts, and a
//! cooldown that grows with consecutive failures.
use crate::env::{env_on, env_u64, Environment};
use crate::keyed::{
    distinct, holds, lemma_table_at, lemma_table_len, lemma_table_push, lemma_table_swap_remove,
    place, table, Keyed,
};
use crate::order::sorted_positions;
use crate::time::{Duration, Instant};
use vstd::arithmetic::power2::{lemma2_to64, lemma_pow2_strictly_increases, pow2};
use vstd::prelude::*;

verus! {

/// Addresses kept at most: the longest untouched ones are dropped to keep to it.
pub const MAX_TRACKED_IPS: usize = 50_000;

/// An internet address by its number in network order.
#[derive(Debug, Clone, Copy, PartialEq, Eq, Structural)]
pub enum IpAddr {
    V4(u32),
    V6(u128),
}

/// The first and the last of the IPv6 addresses that stand for an IPv4 address.
pub const MAPPED_FIRST: u128 = 0xFFFF_0000_0000;

pub const MAPPED_LAST: u128 = 0xFFFF_FFFF_FFFF;

/// The address under which a peer is tracked: an IPv4 address that arrives in its
/// IPv6 form counts as the IPv4 address.
pub open spec fn canonical(ip: IpAddr) -> IpAddr {
    match ip {
        IpAddr::V4(a) => IpAddr::V4(a),
        IpAddr::V6(v) => if MAPPED_FIRST <= v <= MAPPED_LAST {
            IpAddr::V4((v - MAPPED_FIRST) as u32)
        } else {
            IpAddr::V6(v)
        },
    }
}

/// 127.0.0.0/8 and ::1.
pub open spec fn loopback(ip: IpAddr) -> bool {
    match ip {
        IpAddr::V4(a) => a / 0x100_0000 == 127,
        IpAddr::V6(v) => v == 1,
    }
}

pub fn canonical_ip(ip: IpAddr) -> (r: IpAddr)
    ensures
        r == canonical(ip),
{
    match ip {
        IpAddr::V4(a) => IpAddr::V4(a),
        IpAddr::V6(v) => if MAPPED_FIRST <= v && v <= MAPPED_LAST {
            IpAddr::V4((v - MAPPED_FIRST) as u32)
        } else {
            IpAddr::V6(v)
        },
    }
}

impl IpAddr {
    pub fn is_loopback(&self) -> (r: bool)
        ensures
            r == loopback(*self),
    {
        match *self {
            IpAddr::V4(a) => a / 0x100_0000 == 127,
            IpAddr::V6(v) => v == 1,
        }
    }
}

#[derive(Debug, Clone, Copy, PartialEq, Eq, Structural)]
pub struct GuardConfig {
    /// How far back attempts count.
    pub window: Duration,
    /// Attempts allowed within the window; 0 switches rate limiting off.
    pub max_attempts: usize,
    /// Consecutive failures that start a cooldown; 0 switches the lockout off.
    pub failure_threshold: u32,
    /// A connection that errors within this span of its start counts as a failure.
    pub failfast_window: Duration,
    pub base_cooldown: Duration,
    pub max_cooldown: Duration,
}

impl GuardConfig {
    /// The settings that the environment names, each with its default.
    pub open spec fn read_from(&self, env: &Environment) -> bool {
        &&& self.window@ == crate::env::number_or(
                env.value("MACRDP_GUARD_RL_WINDOW_SECS"@),
                u64::MAX as int,
                60,
            ) * crate::time::NANOS_PER_SEC
        &&& self.max_attempts == crate::env::number_or(
                env.value("MACRDP_GUARD_RL_MAX"@),
                u64::MAX as int,
                10,
            ) as u64 as usize
        &&& self.failure_threshold == crate::env::number_or(
                env.value("MACRDP_GUARD_FAIL_THRESHOLD"@),
                u64::MAX as int,
                5,
            ) as u64 as u32
        &&& self.failfast_window@ == crate::env::number_or(
                env.value("MACRDP_GUARD_FAILFAST_SECS"@),
                u64::MAX as int,
                3,
            ) * crate::time::NANOS_PER_SEC
        &&& self.base_cooldown@ == crate::env::number_or(
                env.value("MACRDP_GUARD_COOLDOWN_BASE_SECS"@),
                u64::MAX as int,
                30,
            ) * crate::time::NANOS_PER_SEC
        &&& self.max_cooldown@ == crate::env::number_or(
                env.value("MACRDP_GUARD_COOLDOWN_MAX_SECS"@),
                u64::MAX as int,
                900,
            ) * crate::time::NANOS_PER_SEC
    }

    pub fn from_env(env: &Environment) -> (c: Self)
        ensures
            c.read_from(env),
    {
        GuardConfig {
            window: Duration::from_secs(env_u64(env, "MACRDP_GUARD_RL_WINDOW_SECS", 60)),
            max_attempts: env_u64(env, "MACRDP_GUARD_RL_MAX", 10) as usize,
            failure_threshold: env_u64(env, "MACRDP_GUARD_FAIL_THRESHOLD", 5) as u32,
            failfast_window: Duration::from_secs(env_u64(env, "MACRDP_GUARD_FAILFAST_SECS", 3)),
            base_cooldown: Duration::from_secs(
                env_u64(env, "MACRDP_GUARD_COOLDOWN_BASE_SECS", 30),
            ),
            max_cooldown: Duration::from_secs(env_u64(env, "MACRDP_GUARD_COOLDOWN_MAX_SECS", 900)),
        }
    }

    pub open spec fn limits_rate(&self) -> bool {
        self.max_attempts > 0
    }

    pub open spec fn locks_out(&self) -> bool {
        self.failure_threshold > 0
    }

    /// The moment before which an attempt no longer counts at `now`.
    pub open spec fn cutoff(&self, now: Instant) -> Option<nat> {
        if self.window@ <= now@ {
            Some((now@ - self.window@) as nat)
        } else {
            None
        }
    }

    pub fn rate_limit_enabled(&self) -> (r: bool)
        ensures
            r == self.limits_rate(),
    {
        self.max_attempts > 0
    }

    pub fn lockout_enabled(&self) -> (r: bool)
        ensures
            r == self.locks_out(),
    {
        self.failure_threshold > 0
    }
}

#[derive(Debug, Clone, Copy, PartialEq, Eq, Structural)]
pub enum Decision {
    Accept,
    RejectRateLimit { window_attempts: usize },
    RejectCooldown { retry_after: Duration },
}

#[derive(Debug, Clone, Copy, PartialEq, Eq, Structural)]
pub enum Outcome {
    Success,
    Failure,
}

pub open spec fn outcome_of(errored: bool, duration: nat, failfast_window: nat) -> Outcome {
    if errored && duration < failfast_window {
        Outcome::Failure
    } else {
        Outcome::Success
    }
}

/// A connection counts as failed only if it errored, and did so quickly.
pub fn classify_outcome(errored: bool, duration: Duration, failfast_window: Duration) -> (r: Outcome)
    ensures
        r == outcome_of(errored, duration@, failfast_window@),
{
    if errored && duration.nanos < failfast_window.nanos {
        Outcome::Failure
    } else {
        Outcome::Success
    }
}

/// What is known of one address.
#[verifier::ext_equal]
pub struct Record {
    /// The accepted attempts that still count, oldest first.
    pub attempts: Seq<Instant>,
    pub consecutive_failures: u32,
    pub cooldown_until: Option<Instant>,
    pub last_touch: Instant,
}

/// The attempts without the leading ones that lie before the cutoff.
pub open spec fn prune(s: Seq<Instant>, cutoff: Option<nat>) -> Seq<Instant>
    decreases s.len(),
{
    match cutoff {
        Some(c) => if s.len() > 0 && s[0]@ < c {
            prune(s.drop_first(), cutoff)
        } else {
            s
        },
        None => s,
    }
}

pub open spec fn pruned(r: Record, cutoff: Option<nat>) -> Record {
    Record { attempts: prune(r.attempts, cutoff), ..r }
}

/// Nothing is left to remember of the address.
pub open spec fn idle(r: Record, now: Instant) -> bool {
    &&& r.attempts.len() == 0
    &&& r.consecutive_failures == 0
    &&& match r.cooldown_until {
        Some(t) => now@ >= t@,
        None => true,
    }
}

pub open spec fn fresh(now: Instant) -> Record {
    Record {
        attempts: Seq::empty(),
        consecutive_failures: 0,
        cooldown_until: None,
        last_touch: now,
    }
}

/// The records after old attempts are pruned and idle addresses are dropped.
pub open spec fn swept(m: Map<IpAddr, Record>, cfg: GuardConfig, now: Instant) -> Map<
    IpAddr,
    Record,
> {
    Map::new(
        |ip: IpAddr| m.contains_key(ip) && !idle(pruned(m[ip], cfg.cutoff(now)), now),
        |ip: IpAddr| pruned(m[ip], cfg.cutoff(now)),
    )
}

/// `after` is `m` less the tenth of its records (and one) touched least recently. Among
/// records touched at the same moment any may go.
pub open spec fn thinned(m: Map<IpAddr, Record>, after: Map<IpAddr, Record>) -> bool {
    &&& after.submap_of(m)
    &&& after.dom().len() == m.dom().len() - (m.dom().len() / 10 + 1)
    &&& forall|gone: IpAddr, kept: IpAddr|
        m.contains_key(gone) && !after.contains_key(gone) && after.contains_key(kept)
            ==> #[trigger] m[gone].last_touch@ <= #[trigger] m[kept].last_touch@
}

/// `after` is what eviction leaves of `m`: the swept records, thinned where the table is
/// full.
pub open spec fn evicted(
    m: Map<IpAddr, Record>,
    after: Map<IpAddr, Record>,
    cfg: GuardConfig,
    now: Instant,
) -> bool {
    let s = swept(m, cfg, now);
    if s.dom().len() < MAX_TRACKED_IPS {
        after == s
    } else {
        thinned(s, after)
    }
}

/// `after` is `m` with room for the record of `ip`: thinned where the table is full and
/// the address is not on record.
pub open spec fn made_room(m: Map<IpAddr, Record>, after: Map<IpAddr, Record>, ip: IpAddr) -> bool {
    if m.contains_key(ip) || m.dom().len() < MAX_TRACKED_IPS {
        after == m
    } else {
        thinned(m, after)
    }
}

/// The record of an address that is touched at `now`.
pub open spec fn touched(m: Map<IpAddr, Record>, ip: IpAddr, now: Instant) -> Record {
    if m.contains_key(ip) {
        Record { last_touch: now, ..m[ip] }
    } else {
        fresh(now)
    }
}

/// The verdict on an attempt at `now`, and the record after it.
pub open spec fn judge(cfg: GuardConfig, rec: Record, now: Instant) -> (Decision, Record) {
    let r1 = pruned(rec, cfg.cutoff(now));
    if cfg.locks_out() && r1.cooldown_until is Some && now@ < r1.cooldown_until->0@ {
        (
            Decision::RejectCooldown {
                retry_after: Duration { nanos: (r1.cooldown_until->0@ - now@) as u128 },
            },
            r1,
        )
    } else {
        let r2 = if cfg.locks_out() {
            Record { cooldown_until: None, ..r1 }
        } else {
            r1
        };
        if cfg.limits_rate() && r2.attempts.len() >= cfg.max_attempts {
            (Decision::RejectRateLimit { window_attempts: r2.attempts.len() as usize }, r2)
        } else {
            (Decision::Accept, Record { attempts: r2.attempts.push(now), ..r2 })
        }
    }
}

/// The cooldown after `n` failures in a row: the base, doubled for each failure
/// above the threshold, up to the maximum.
pub open spec fn cooldown_after(n: int, threshold: int, base: nat, max: nat) -> int {
    let steps = if n >= threshold {
        (n - threshold) as nat
    } else {
        0
    };
    crate::order::smaller((base * pow2(steps)) as int, max as int)
}

/// The record after a connection ended at `now`.
pub open spec fn with_outcome(
    cfg: GuardConfig,
    rec: Record,
    now: Instant,
    outcome: Outcome,
) -> Record {
    match outcome {
        Outcome::Success => Record { consecutive_failures: 0, cooldown_until: None, ..rec },
        Outcome::Failure => {
            let n = crate::order::smaller(rec.consecutive_failures + 1, u32::MAX as int);
            let until = if cfg.locks_out() && n >= cfg.failure_threshold {
                Some(
                    Instant {
                        nanos: (now@ + cooldown_after(
                            n,
                            cfg.failure_threshold as int,
                            cfg.base_cooldown@,
                            cfg.max_cooldown@,
                        )) as u128,
                    },
                )
            } else {
                rec.cooldown_until
            };
            Record { consecutive_failures: n as u32, cooldown_until: until, ..rec }
        },
    }
}

/// An attempt from `ip` at `now` meets the verdict `d` and turns the table `m` into `after`.
pub open spec fn decided(
    cfg: GuardConfig,
    m: Map<IpAddr, Record>,
    now: Instant,
    ip: IpAddr,
    d: Decision,
    after: Map<IpAddr, Record>,
) -> bool {
    let key = canonical(ip);
    if loopback(key) {
        d == Decision::Accept && after == m
    } else {
        exists|mid: Map<IpAddr, Record>|
            {
                let verdict = judge(cfg, touched(mid, key, now), now);
                &&& #[trigger] evicted(m, mid, cfg, now)
                &&& d == verdict.0
                &&& after == mid.insert(key, verdict.1)
            }
    }
}

/// The end of a connection from `ip` at `now` turns the table `m` into `after`.
pub open spec fn recorded(
    cfg: GuardConfig,
    m: Map<IpAddr, Record>,
    now: Instant,
    ip: IpAddr,
    outcome: Outcome,
    after: Map<IpAddr, Record>,
) -> bool {
    let key = canonical(ip);
    if loopback(key) {
        after == m
    } else {
        exists|mid: Map<IpAddr, Record>|
            {
                &&& #[trigger] made_room(m, mid, key)
                &&& after == mid.insert(
                    key,
                    with_outcome(cfg, touched(mid, key, now), now, outcome),
                )
            }
    }
}

/// Doubles the base cooldown for each failure above the threshold, up to `max`.
pub fn escalated_cooldown(n: u32, threshold: u32, base: Duration, max: Duration) -> (d: Duration)
    ensures
        d@ == cooldown_after(n as int, threshold as int, base@, max@),
{
    let steps: u32 = n.saturating_sub(threshold);
    let mut nanos: u128 = base.nanos;
    let mut k: u32 = 0;
    proof {
        lemma2_to64();
    }
    while k < steps && 0 < nanos && nanos < max.nanos
        invariant
            k <= steps,
            nanos == base@ * pow2(k as nat),
            steps == (if n >= threshold {
                n - threshold
            } else {
                0
            }),
        decreases steps - k,
    {
        proof {
            lemma_doubled(base@, k as nat);
        }
        if nanos > max.nanos - nanos {
            proof {
                lemma_shifts_grow(base@, k as nat + 1, steps as nat);
            }
            return max;
        }
        nanos = nanos + nanos;
        k = k + 1;
    }
    proof {
        lemma_shifts_grow(base@, k as nat, steps as nat);
        if nanos == 0 {
            vstd::arithmetic::power2::lemma_pow2_pos(k as nat);
            assert(base@ == 0) by (nonlinear_arith)
                requires
                    base@ * pow2(k as nat) == 0,
                    pow2(k as nat) > 0,
            ;
            assert(base@ * pow2(steps as nat) == 0) by (nonlinear_arith)
                requires
                    base@ == 0,
            ;
        }
    }
    Duration { nanos }.min(max)
}

proof fn lemma_doubled(base: nat, k: nat)
    ensures
        base * pow2(k + 1) == 2 * (base * pow2(k)),
{
    vstd::arithmetic::power2::lemma_pow2_unfold(k + 1);
    assert(base * (2 * pow2(k)) == 2 * (base * pow2(k))) by (nonlinear_arith);
}

proof fn lemma_shifts_grow(base: nat, j: nat, k: nat)
    requires
        j <= k,
    ensures
        base * pow2(j) <= base * pow2(k),
{
    if j < k {
        lemma_pow2_strictly_increases(j, k);
    }
    assert(base * pow2(j) <= base * pow2(k)) by (nonlinear_arith)
        requires
            pow2(j) <= pow2(k),
    ;
}

#[derive(Debug)]
pub struct PerIp {
    ip: IpAddr,
    attempts: Vec<Instant>,
    consecutive_failures: u32,
    cooldown_until: Option<Instant>,
    last_touch: Instant,
}

impl View for PerIp {
    type V = Record;

    closed spec fn view(&self) -> Record {
        Record {
            attempts: self.attempts@,
            consecutive_failures: self.consecutive_failures,
            cooldown_until: self.cooldown_until,
            last_touch: self.last_touch,
        }
    }
}

impl Keyed for PerIp {
    type Key = IpAddr;

    type Value = Record;

    closed spec fn key(&self) -> IpAddr {
        self.ip
    }

    closed spec fn value(&self) -> Record {
        self@
    }
}

impl PerIp {
    fn new(ip: IpAddr, now: Instant) -> (e: Self)
        ensures
            e@ == fresh(now),
            e.ip == ip,
    {
        PerIp {
            ip,
            attempts: Vec::new(),
            consecutive_failures: 0,
            cooldown_until: None,
            last_touch: now,
        }
    }

    fn is_idle(&self, now: Instant) -> (r: bool)
        ensures
            r == idle(self@, now),
    {
        self.attempts.len() == 0 && self.consecutive_failures == 0 && match self.cooldown_until {
            Some(t) => now.nanos >= t.nanos,
            None => true,
        }
    }

    fn drop_before(&mut self, cutoff: Option<Instant>)
        ensures
            final(self)@ == pruned(
                old(self)@,
                match cutoff {
                    Some(c) => Some(c@),
                    None => None,
                },
            ),
            final(self).ip == old(self).ip,
    {
        if let Some(c) = cutoff {
            let mut k: usize = 0;
            assert(self.attempts@.skip(0) =~= self.attempts@);
            while k < self.attempts.len() && self.attempts[k].nanos < c.nanos
                invariant
                    k <= self.attempts.len(),
                    prune(self.attempts@, Some(c@)) == prune(
                        self.attempts@.skip(k as int),
                        Some(c@),
                    ),
                decreases self.attempts.len() - k,
            {
                proof {
                    assert(self.attempts@.skip(k as int).drop_first() =~= self.attempts@.skip(
                        k + 1,
                    ));
                }
                k = k + 1;
            }
            if k > 0 {
                let tail: Vec<Instant> = self.attempts.split_off(k);
                self.attempts = tail;
            }
        }
    }

    fn duplicate(&self) -> (e: Self)
        ensures
            e@ == self@,
            e.ip == self.ip,
    {
        let mut attempts: Vec<Instant> = Vec::new();
        let mut i: usize = 0;
        while i < self.attempts.len()
            invariant
                i <= self.attempts.len(),
                attempts@ == self.attempts@.take(i as int),
            decreases self.attempts.len() - i,
        {
            attempts.push(self.attempts[i]);
            proof {
                assert(self.attempts@.take(i + 1) =~= self.attempts@.take(i as int).push(
                    self.attempts@[i as int],
                ));
            }
            i = i + 1;
        }
        assert(attempts@ =~= self.attempts@);
        PerIp {
            ip: self.ip,
            attempts,
            consecutive_failures: self.consecutive_failures,
            cooldown_until: self.cooldown_until,
            last_touch: self.last_touch,
        }
    }
}

pub struct AuthGuardCore {
    entries: Vec<PerIp>,
    cfg: GuardConfig,
}

impl View for AuthGuardCore {
    type V = Map<IpAddr, Record>;

    closed spec fn view(&self) -> Map<IpAddr, Record> {
        table(self.entries@)
    }
}

impl AuthGuardCore {
    pub closed spec fn config(&self) -> GuardConfig {
        self.cfg
    }

    /// One record per address, and no more of them than are tracked at most; every
    /// address in its canonical form, none of them loopback; no more attempts on record
    /// than the limit allows.
    pub closed spec fn wf(&self) -> bool {
        &&& distinct(self.entries@)
        &&& self.entries@.len() <= MAX_TRACKED_IPS
        &&& forall|i: int|
            0 <= i < self.entries@.len() ==> {
                let e = #[trigger] self.entries@[i];
                &&& canonical(e.ip) == e.ip
                &&& !loopback(e.ip)
                &&& self.cfg.limits_rate() ==> e.attempts@.len() <= self.cfg.max_attempts
            }
    }

    /// The guard, unless it is switched off.
    pub fn from_env(env: &Environment) -> (r: Option<Self>)
        ensures
            r is Some <==> crate::env::switch_value(env.value("MACRDP_CONN_GUARD"@), true),
            r matches Some(g) ==> g.wf() && g.config().read_from(env) && g@ == Map::<
                IpAddr,
                Record,
            >::empty(),
    {
        if !env_on(env, "MACRDP_CONN_GUARD", true) {
            return None;
        }
        Some(Self::with_config(GuardConfig::from_env(env)))
    }

    pub fn with_config(cfg: GuardConfig) -> (g: Self)
        ensures
            g.wf(),
            g.config() == cfg,
            g@ == Map::<IpAddr, Record>::empty(),
    {
        let g = AuthGuardCore { entries: Vec::new(), cfg };
        assert(g@ =~= Map::<IpAddr, Record>::empty());
        g
    }

    pub fn failfast_window(&self) -> (d: Duration)
        ensures
            d == self.config().failfast_window,
    {
        self.cfg.failfast_window
    }

    /// Whether anything is on record for the address.
    pub fn tracks(&self, ip: IpAddr) -> (r: bool)
        requires
            self.wf(),
        ensures
            r == self@.contains_key(canonical(ip)),
    {
        self.find(canonical_ip(ip)).is_some()
    }

    fn find(&self, ip: IpAddr) -> (r: Option<usize>)
        ensures
            r is Some <==> holds(self.entries@, ip),
            r matches Some(i) ==> i < self.entries@.len() && self.entries@[i as int].key() == ip,
    {
        let mut i: usize = 0;
        while i < self.entries.len()
            invariant
                i <= self.entries.len(),
                forall|k: int| 0 <= k < i ==> #[trigger] self.entries@[k].key() != ip,
            decreases self.entries.len() - i,
        {
            if self.entries[i].ip == ip {
                return Some(i);
            }
            i = i + 1;
        }
        None
    }

    /// Takes the record of an address out of the table, or starts one.
    fn take_entry(&mut self, ip: IpAddr, now: Instant) -> (e: PerIp)
        requires
            old(self).wf(),
            canonical(ip) == ip,
            !loopback(ip),
        ensures
            final(self).wf(),
            final(self).config() == old(self).config(),
            final(self)@ == old(self)@.remove(ip),
            !holds(final(self).entries@, ip),
            holds(old(self).entries@, ip) || old(self).entries@.len() < MAX_TRACKED_IPS
                ==> final(self).entries@.len() < MAX_TRACKED_IPS,
            e.ip == ip,
            e@ == touched(old(self)@, ip, now),
            e@.attempts.len() <= old(self).config().max_attempts || !old(
                self,
            ).config().limits_rate(),
    {
        let mut e: PerIp = match self.find(ip) {
            Some(i) => {
                proof {
                    lemma_table_at(self.entries@, i as int);
                    lemma_table_swap_remove(self.entries@, i as int);
                }
                self.entries.swap_remove(i)
            },
            None => {
                assert(old(self)@.remove(ip) =~= old(self)@);
                PerIp::new(ip, now)
            },
        };
        e.last_touch = now;
        e
    }

    fn put_entry(&mut self, e: PerIp)
        requires
            old(self).wf(),
            old(self).entries@.len() < MAX_TRACKED_IPS,
            !holds(old(self).entries@, e.ip),
            canonical(e.ip) == e.ip,
            !loopback(e.ip),
            old(self).config().limits_rate() ==> e@.attempts.len() <= old(
                self,
            ).config().max_attempts,
        ensures
            final(self).wf(),
            final(self).config() == old(self).config(),
            final(self)@ == old(self)@.insert(e.ip, e@),
    {
        proof {
            lemma_table_push(self.entries@, e);
        }
        self.entries.push(e);
    }

    /// Judges a connection attempt from `ip` at `now` and keeps the record of it.
    pub fn decide(&mut self, now: Instant, ip: IpAddr) -> (d: Decision)
        requires
            old(self).wf(),
        ensures
            final(self).wf(),
            final(self).config() == old(self).config(),
            decided(old(self).config(), old(self)@, now, ip, d, final(self)@),
    {
        let ip: IpAddr = canonical_ip(ip);
        if ip.is_loopback() {
            return Decision::Accept;
        }
        self.evict_stale(now);
        let ghost mid = self@;
        let cfg: GuardConfig = self.cfg;
        let mut entry: PerIp = self.take_entry(ip, now);
        let ghost rec = entry@;
        proof {
            lemma_prune_len(rec.attempts, cfg.cutoff(now));
        }
        entry.drop_before(now.checked_sub(cfg.window));
        if cfg.lockout_enabled() {
            if let Some(until) = entry.cooldown_until {
                if now.nanos < until.nanos {
                    self.put_entry(entry);
                    assert(self@ =~= mid.insert(ip, judge(cfg, rec, now).1));
                    return Decision::RejectCooldown {
                        retry_after: until.saturating_duration_since(now),
                    };
                }
                entry.cooldown_until = None;
            }
        }
        if cfg.rate_limit_enabled() && entry.attempts.len() >= cfg.max_attempts {
            let window_attempts: usize = entry.attempts.len();
            self.put_entry(entry);
            assert(self@ =~= mid.insert(ip, judge(cfg, rec, now).1));
            return Decision::RejectRateLimit { window_attempts };
        }
        entry.attempts.push(now);
        self.put_entry(entry);
        assert(self@ =~= mid.insert(ip, judge(cfg, rec, now).1));
        Decision::Accept
    }

    /// Records how a connection from `ip` ended.
    pub fn record_outcome(&mut self, now: Instant, ip: IpAddr, outcome: Outcome)
        requires
            old(self).wf(),
            now@ + old(self).config().max_cooldown@ <= u128::MAX,
        ensures
            final(self).wf(),
            final(self).config() == old(self).config(),
            recorded(old(self).config(), old(self)@, now, ip, outcome, final(self)@),
    {
        let ip: IpAddr = canonical_ip(ip);
        if ip.is_loopback() {
            return;
        }
        self.make_room(ip);
        let ghost mid = self@;
        let cfg: GuardConfig = self.cfg;
        let mut entry: PerIp = self.take_entry(ip, now);
        let ghost rec = entry@;
        match outcome {
            Outcome::Success => {
                entry.consecutive_failures = 0;
                entry.cooldown_until = None;
            },
            Outcome::Failure => {
                entry.consecutive_failures = entry.consecutive_failures.saturating_add(1);
                if cfg.lockout_enabled() && entry.consecutive_failures >= cfg.failure_threshold {
                    let cooldown: Duration = escalated_cooldown(
                        entry.consecutive_failures,
                        cfg.failure_threshold,
                        cfg.base_cooldown,
                        cfg.max_cooldown,
                    );
                    entry.cooldown_until = now.checked_add(cooldown);
                }
            },
        }
        assert(entry@ == with_outcome(cfg, rec, now, outcome));
        self.put_entry(entry);
        assert(self@ =~= mid.insert(ip, with_outcome(cfg, rec, now, outcome)));
    }

    /// Drops the longest untouched records where the table is full and the address would
    /// need one more.
    fn make_room(&mut self, ip: IpAddr)
        requires
            old(self).wf(),
        ensures
            final(self).wf(),
            final(self).config() == old(self).config(),
            made_room(old(self)@, final(self)@, ip),
            holds(final(self).entries@, ip) || final(self).entries@.len() < MAX_TRACKED_IPS,
    {
        proof {
            lemma_table_len(self.entries@);
        }
        if self.entries.len() >= MAX_TRACKED_IPS && self.find(ip).is_none() {
            let survivors: Vec<PerIp> = drop_oldest(&self.entries);
            proof {
                lemma_table_len(survivors@);
                assert forall|i: int| 0 <= i < survivors@.len() implies {
                    let e = #[trigger] survivors@[i];
                    &&& canonical(e.ip) == e.ip
                    &&& !loopback(e.ip)
                    &&& self.cfg.limits_rate() ==> e.attempts@.len() <= self.cfg.max_attempts
                } by {
                    let j = choose|j: int|
                        0 <= j < self.entries@.len() && #[trigger] self.entries@[j].key()
                            == survivors@[i].key() && self.entries@[j]@ == survivors@[i]@;
                    assert(self.entries@[j]@.attempts == survivors@[i]@.attempts);
                }
            }
            self.entries = survivors;
        }
    }

    /// Drops what no longer matters, and the longest untouched records where too
    /// many remain.
    fn evict_stale(&mut self, now: Instant)
        requires
            old(self).wf(),
        ensures
            final(self).wf(),
            final(self).config() == old(self).config(),
            final(self).entries@.len() < MAX_TRACKED_IPS,
            evicted(old(self)@, final(self)@, old(self).config(), now),
    {
        let ghost orig = self.entries@;
        let ghost cut = self.cfg.cutoff(now);
        let cutoff: Option<Instant> = now.checked_sub(self.cfg.window);
        let mut rest: Vec<PerIp> = Vec::new();
        std::mem::swap(&mut rest, &mut self.entries);
        let mut kept: Vec<PerIp> = Vec::new();
        while rest.len() > 0
            invariant
                rest@.len() <= orig.len(),
                rest@ == orig.take(rest@.len() as int),
                kept@.len() + rest@.len() <= orig.len(),
                distinct(orig),
                self.cfg == old(self).cfg,
                cut == self.cfg.cutoff(now),
                cut == (match cutoff {
                    Some(c) => Some(c@),
                    None => None,
                }),
                forall|i: int|
                    0 <= i < orig.len() ==> {
                        let e = #[trigger] orig[i];
                        &&& canonical(e.ip) == e.ip
                        &&& !loopback(e.ip)
                        &&& self.cfg.limits_rate() ==> e.attempts@.len() <= self.cfg.max_attempts
                    },
                forall|a: int|
                    0 <= a < kept@.len() ==> {
                        let e = #[trigger] kept@[a];
                        &&& canonical(e.ip) == e.ip
                        &&& !loopback(e.ip)
                        &&& self.cfg.limits_rate() ==> e.attempts@.len() <= self.cfg.max_attempts
                        &&& exists|j: int|
                            rest@.len() <= j < orig.len() && #[trigger] orig[j].key() == e.ip && e@
                                == pruned(orig[j]@, cut) && !idle(e@, now)
                    },
                distinct(kept@),
                forall|j: int|
                    rest@.len() <= j < orig.len() && !idle(pruned(orig[j]@, cut), now) ==> holds(
                        kept@,
                        #[trigger] orig[j].key(),
                    ),
            decreases rest.len(),
        {
            let ghost last = (rest@.len() - 1) as int;
            let ghost kept0 = kept@;
            let popped: Option<PerIp> = rest.pop();
            if let Some(mut e) = popped {
                proof {
                    assert(e == orig[last]);
                    assert(rest@ =~= orig.take(last));
                    lemma_prune_len(e.attempts@, cut);
                }
                e.drop_before(cutoff);
                if !e.is_idle(now) {
                    proof {
                        assert(!holds(kept0, e.ip)) by {
                            if holds(kept0, e.ip) {
                                let a = place(kept0, e.ip);
                                let j = choose|j: int|
                                    rest@.len() + 1 <= j < orig.len() && #[trigger] orig[j].key()
                                        == kept0[a].key();
                                assert(orig[last].key() == orig[j].key());
                            }
                        }
                        lemma_table_push(kept0, e);
                        assert(orig[last].key() == e.ip);
                    }
                    kept.push(e);
                    proof {
                        assert(kept@[kept0.len() as int] == e);
                        assert(holds(kept@, e.ip));
                        assert forall|a: int| 0 <= a < kept@.len() implies exists|j: int|
                            rest@.len() <= j < orig.len() && #[trigger] orig[j].key()
                                == #[trigger] kept@[a].key() && kept@[a]@ == pruned(orig[j]@, cut)
                                && !idle(kept@[a]@, now) by {
                            if a < kept0.len() {
                                assert(kept@[a] == kept0[a]);
                            } else {
                                assert(orig[last].key() == kept@[a].key());
                            }
                        }
                        assert forall|ip: IpAddr| holds(kept0, ip) implies holds(kept@, ip) by {
                            let a = place(kept0, ip);
                            assert(kept@[a].key() == ip);
                        }
                    }
                }
            }
        }
        let ghost s = swept(old(self)@, self.cfg, now);
        proof {
            assert forall|ip: IpAddr| #[trigger] table(kept@).contains_key(ip) <==> s.contains_key(
                ip,
            ) by {
                if holds(kept@, ip) {
                    let a = place(kept@, ip);
                    let j = choose|j: int|
                        0 <= j < orig.len() && #[trigger] orig[j].key() == kept@[a].key() && kept@[a]@
                            == pruned(orig[j]@, cut) && !idle(kept@[a]@, now);
                    lemma_table_at(orig, j);
                }
                if s.contains_key(ip) {
                    let j = place(orig, ip);
                    lemma_table_at(orig, j);
                    assert(holds(kept@, orig[j].key()));
                }
            }
            assert forall|ip: IpAddr| #[trigger] table(kept@).contains_key(ip) implies table(
                kept@,
            )[ip] == s[ip] by {
                let a = place(kept@, ip);
                lemma_table_at(kept@, a);
                let j = choose|j: int|
                    0 <= j < orig.len() && #[trigger] orig[j].key() == kept@[a].key() && kept@[a]@
                        == pruned(orig[j]@, cut) && !idle(kept@[a]@, now);
                lemma_table_at(orig, j);
            }
            assert(table(kept@) =~= s);
            lemma_table_len(kept@);
        }
        if kept.len() >= MAX_TRACKED_IPS {
            let survivors: Vec<PerIp> = drop_oldest(&kept);
            proof {
                lemma_table_len(survivors@);
                assert forall|i: int| 0 <= i < survivors@.len() implies {
                    let e = #[trigger] survivors@[i];
                    &&& canonical(e.ip) == e.ip
                    &&& !loopback(e.ip)
                    &&& self.cfg.limits_rate() ==> e.attempts@.len() <= self.cfg.max_attempts
                } by {
                    let j = choose|j: int|
                        0 <= j < kept@.len() && #[trigger] kept@[j].key() == survivors@[i].key()
                            && kept@[j]@ == survivors@[i]@;
                    assert(kept@[j]@.attempts == survivors@[i]@.attempts);
                }
            }
            self.entries = survivors;
        } else {
            self.entries = kept;
        }
    }
}

/// The entry is a copy of one of these.
spec fn comes_from(s: Seq<PerIp>, e: PerIp) -> bool {
    exists|j: int| 0 <= j < s.len() && #[trigger] s[j].key() == e.ip && s[j]@ == e@
}

/// Keeps all but the least recently touched tenth (and one) of the entries.
fn drop_oldest(kept: &Vec<PerIp>) -> (out: Vec<PerIp>)
    requires
        distinct(kept@),
        kept@.len() > 0,
    ensures
        distinct(out@),
        forall|i: int| 0 <= i < out@.len() ==> comes_from(kept@, #[trigger] out@[i]),
        thinned(table(kept@), table(out@)),
{
    let n: usize = kept.len();
    let to_drop: usize = n / 10 + 1;
    let mut keys: Vec<u128> = Vec::new();
    let mut i: usize = 0;
    while i < n
        invariant
            i <= n,
            n == kept@.len(),
            keys@.len() == i,
            forall|k: int| 0 <= k < i ==> #[trigger] keys@[k] == kept@[k].last_touch.nanos,
        decreases n - i,
    {
        keys.push(kept[i].last_touch.nanos);
        i = i + 1;
    }
    let pos: Vec<usize> = sorted_positions(&keys);
    let mut out: Vec<PerIp> = Vec::new();
    let mut a: usize = to_drop;
    while a < n
        invariant
            1 <= to_drop <= a <= n,
            n == kept@.len(),
            keys@.len() == n,
            crate::order::ordered(keys@, pos@, 0, n as int),
            distinct(kept@),
            out@.len() == a - to_drop,
            forall|k: int|
                0 <= k < out@.len() ==> {
                    let e = #[trigger] out@[k];
                    let o = kept@[pos@[k + to_drop] as int];
                    e.ip == o.ip && e@ == o@
                },
        decreases n - a,
    {
        out.push(kept[pos[a]].duplicate());
        a = a + 1;
    }
    proof {
        assert forall|x: int, y: int| 0 <= x < y < out@.len() implies #[trigger] out@[x].key()
            != #[trigger] out@[y].key() by {
            let p = pos@[x + to_drop] as int;
            let q = pos@[y + to_drop] as int;
            assert(crate::order::before(keys@, p, q));
            assert(kept@[p].key() != kept@[q].key());
        }
        assert forall|k: int| 0 <= k < out@.len() implies comes_from(kept@, #[trigger] out@[k]) by {
            let p = pos@[k + to_drop] as int;
            assert(kept@[p].key() == out@[k].ip);
        }
        assert forall|ip: IpAddr| #[trigger] table(out@).contains_key(ip) implies table(
            kept@,
        ).contains_key(ip) && table(out@)[ip] == table(kept@)[ip] by {
            let k = place(out@, ip);
            lemma_table_at(out@, k);
            lemma_table_at(kept@, pos@[k + to_drop] as int);
        }
        lemma_table_len(out@);
        lemma_table_len(kept@);
        assert forall|gone: IpAddr, left: IpAddr|
            table(kept@).contains_key(gone) && !table(out@).contains_key(gone) && table(
                out@,
            ).contains_key(left) implies #[trigger] table(kept@)[gone].last_touch@
            <= #[trigger] table(kept@)[left].last_touch@ by {
            let g = place(kept@, gone);
            lemma_table_at(kept@, g);
            assert(pos@.contains(g as usize));
            let x = choose|x: int| 0 <= x < pos@.len() && pos@[x] == g as usize;
            let k = place(out@, left);
            lemma_table_at(out@, k);
            let p = pos@[k + to_drop] as int;
            lemma_table_at(kept@, p);
            if x >= to_drop {
                assert(out@[x - to_drop].key() == gone);
                assert(holds(out@, gone));
            } else {
                assert(crate::order::before(keys@, pos@[x] as int, p));
                assert(keys@[g] == kept@[g].last_touch.nanos);
                assert(keys@[p] == kept@[p].last_touch.nanos);
            }
        }
    }
    out
}

proof fn lemma_prune_len(s: Seq<Instant>, cutoff: Option<nat>)
    ensures
        prune(s, cutoff).len() <= s.len(),
    decreases s.len(),
{
    if cutoff is Some && s.len() > 0 && s[0]@ < cutoff->0 {
        lemma_prune_len(s.drop_first(), cutoff);
    }
}

/// Whether the audit log is on.
pub fn audit_enabled(env: &Environment) -> (r: bool)
    ensures
        r == crate::env::switch_value(env.value("MACRDP_AUDIT_LOG"@), true),
{
    env_on(env, "MACRDP_AUDIT_LOG", true)
}

/// A line of the audit log.
#[derive(Debug, Clone, Copy, PartialEq, Eq, Structural)]
pub enum AuditEvent {
    Accept { ip: IpAddr, port: u16 },
    RejectRateLimit { ip: IpAddr, window_attempts: usize },
    RejectLockout { ip: IpAddr, retry_after_secs: u128 },
    Disconnect { ip: IpAddr, duration_ms: u64, outcome: Outcome },
}

pub open spec fn accept_line(enabled: bool, ip: IpAddr, port: u16) -> Option<AuditEvent> {
    if enabled {
        Some(AuditEvent::Accept { ip, port })
    } else {
        None
    }
}

pub open spec fn reject_line(enabled: bool, ip: IpAddr, decision: Decision) -> Option<AuditEvent> {
    if !enabled {
        None
    } else {
        match decision {
            Decision::RejectRateLimit { window_attempts } => Some(
                AuditEvent::RejectRateLimit { ip, window_attempts },
            ),
            Decision::RejectCooldown { retry_after } => Some(
                AuditEvent::RejectLockout {
                    ip,
                    retry_after_secs: retry_after.nanos / crate::time::NANOS_PER_SEC,
                },
            ),
            Decision::Accept => None,
        }
    }
}

pub open spec fn disconnect_line(
    enabled: bool,
    ip: IpAddr,
    duration: Duration,
    outcome: Outcome,
) -> Option<AuditEvent> {
    if enabled {
        Some(
            AuditEvent::Disconnect {
                ip,
                duration_ms: ((duration@ / crate::time::NANOS_PER_MILLI as nat)
                    % 0x1_0000_0000_0000_0000) as u64,
                outcome,
            },
        )
    } else {
        None
    }
}

/// What the log says of a peer that is served.
pub fn audit_accept(enabled: bool, ip: IpAddr, port: u16) -> (r: Option<AuditEvent>)
    ensures
        r == accept_line(enabled, ip, port),
{
    if enabled {
        Some(AuditEvent::Accept { ip, port })
    } else {
        None
    }
}

/// What the log says of a peer that is turned away.
pub fn audit_reject(enabled: bool, ip: IpAddr, decision: Decision) -> (r: Option<AuditEvent>)
    ensures
        r == reject_line(enabled, ip, decision),
{
    if !enabled {
        return None;
    }
    match decision {
        Decision::RejectRateLimit { window_attempts } => Some(
            AuditEvent::RejectRateLimit { ip, window_attempts },
        ),
        Decision::RejectCooldown { retry_after } => Some(
            AuditEvent::RejectLockout {
                ip,
                retry_after_secs: retry_after.nanos / crate::time::NANOS_PER_SEC,
            },
        ),
        Decision::Accept => None,
    }
}

/// What the log says of a connection that ended. Milliseconds beyond 64 bits wrap.
pub fn audit_disconnect(enabled: bool, ip: IpAddr, duration: Duration, outcome: Outcome) -> (r:
    Option<AuditEvent>)
    ensures
        r == disconnect_line(enabled, ip, duration, outcome),
{
    if !enabled {
        return None;
    }
    let ms: u128 = duration.as_millis() % 0x1_0000_0000_0000_0000;
    Some(AuditEvent::Disconnect { ip, duration_ms: ms as u64, outcome })
}

/// The guard as a connection handler: what is decided when a peer arrives and when
/// it leaves.
pub struct AuthGuardHandler {
    pub core: AuthGuardCore,
}

impl AuthGuardHandler {
    /// The guard that the environment asks for, if it asks for one.
    pub fn from_env(env: &Environment) -> (r: Option<Self>)
        ensures
            r is Some <==> crate::env::switch_value(env.value("MACRDP_CONN_GUARD"@), true),
            r matches Some(h) ==> h.core.wf() && h.core.config().read_from(env) && h.core@ == Map::<
                IpAddr,
                Record,
            >::empty(),
    {
        match AuthGuardCore::from_env(env) {
            Some(core) => Some(AuthGuardHandler { core }),
            None => None,
        }
    }

    /// Whether to serve the peer, with the verdict that the audit log reports.
    pub fn on_accept(&mut self, now: Instant, ip: IpAddr) -> (r: (bool, Decision))
        requires
            old(self).core.wf(),
        ensures
            final(self).core.wf(),
            r.0 == (r.1 == Decision::Accept),
            final(self).core.config() == old(self).core.config(),
            decided(old(self).core.config(), old(self).core@, now, ip, r.1, final(self).core@),
    {
        let d: Decision = self.core.decide(now, ip);
        (d == Decision::Accept, d)
    }

    /// Records the end of a connection and says how it was counted.
    pub fn on_disconnected(
        &mut self,
        now: Instant,
        ip: IpAddr,
        duration: Duration,
        errored: bool,
    ) -> (outcome: Outcome)
        requires
            old(self).core.wf(),
            now@ + old(self).core.config().max_cooldown@ <= u128::MAX,
        ensures
            final(self).core.wf(),
            outcome == outcome_of(
                errored,
                duration@,
                old(self).core.config().failfast_window@,
            ),
            final(self).core.config() == old(self).core.config(),
            recorded(
                old(self).core.config(),
                old(self).core@,
                now,
                ip,
                outcome,
                final(self).core@,
            ),
    {
        let outcome: Outcome = classify_outcome(errored, duration, self.core.failfast_window());
        self.core.record_outcome(now, ip, outcome);
        outcome
    }
}

/// No more addresses are on record than are tracked at most. Every one of them is in its
/// canonical form and not loopback, and no record holds more attempts than the limit
/// allows.
pub proof fn records_are_in_bounds(core: AuthGuardCore, ip: IpAddr)
    requires
        core.wf(),
    ensures
        core@.dom().finite(),
        core@.dom().len() <= MAX_TRACKED_IPS,
        core@.contains_key(ip) ==> {
            &&& canonical(ip) == ip
            &&& !loopback(ip)
            &&& core.config().limits_rate() ==> core@[ip].attempts.len()
                <= core.config().max_attempts
        },
{
    lemma_table_len(core.entries@);
    if core@.contains_key(ip) {
        let i = place(core.entries@, ip);
        lemma_table_at(core.entries@, i);
    }
}

/// An IPv4 peer is one peer, whichever of its two forms it arrives in.
pub proof fn both_forms_are_one_peer(a: u32)
    ensures
        canonical(IpAddr::V6((MAPPED_FIRST + a) as u128)) == canonical(IpAddr::V4(a)),
        loopback(canonical(IpAddr::V6((MAPPED_FIRST + a) as u128))) == loopback(IpAddr::V4(a)),
{
}

/// A rejected attempt is not added to the attempts that count.
pub proof fn rejection_is_not_counted(cfg: GuardConfig, rec: Record, now: Instant)
    requires
        judge(cfg, rec, now).0 != Decision::Accept,
    ensures
        judge(cfg, rec, now).1.attempts == prune(rec.attempts, cfg.cutoff(now)),
{
}

/// Judging an attempt never leaves more attempts on record than the limit allows.
pub proof fn attempts_stay_within_the_limit(cfg: GuardConfig, rec: Record, now: Instant)
    requires
        cfg.limits_rate(),
        rec.attempts.len() <= cfg.max_attempts,
    ensures
        judge(cfg, rec, now).1.attempts.len() <= cfg.max_attempts,
{
    lemma_prune_len(rec.attempts, cfg.cutoff(now));
}

/// With attempts in order of time, exactly those inside the window still count.
pub proof fn only_recent_attempts_count(s: Seq<Instant>, c: nat)
    requires
        forall|i: int, j: int| 0 <= i <= j < s.len() ==> #[trigger] s[i]@ <= #[trigger] s[j]@,
    ensures
        prune(s, Some(c)) == s.filter(|t: Instant| t@ >= c),
    decreases s.len(),
{
    let recent = |t: Instant| t@ >= c;
    reveal(Seq::filter);
    if s.len() == 0 {
        assert(s.filter(recent) =~= s);
    } else if s[0]@ < c {
        let rest = s.drop_first();
        assert forall|i: int, j: int| 0 <= i <= j < rest.len() implies #[trigger] rest[i]@
            <= #[trigger] rest[j]@ by {
            assert(rest[i] == s[i + 1] && rest[j] == s[j + 1]);
        }
        only_recent_attempts_count(rest, c);
        assert(s =~= seq![s[0]] + rest);
        Seq::filter_distributes_over_add(seq![s[0]], rest, recent);
        assert(seq![s[0]].filter(recent) =~= Seq::<Instant>::empty()) by {
            assert(seq![s[0]].drop_last() =~= Seq::<Instant>::empty());
            assert(Seq::<Instant>::empty().filter(recent) =~= Seq::<Instant>::empty());
        }
        assert(s.filter(recent) =~= rest.filter(recent));
    } else {
        assert forall|i: int| 0 <= i < s.len() implies recent(#[trigger] s[i]) by {
            assert(s[0]@ <= s[i]@);
        }
        lemma_filter_all(s, recent);
    }
}

proof fn lemma_filter_all(s: Seq<Instant>, p: spec_fn(Instant) -> bool)
    requires
        forall|i: int| 0 <= i < s.len() ==> p(#[trigger] s[i]),
    ensures
        s.filter(p) == s,
    decreases s.len(),
{
    reveal(Seq::filter);
    if s.len() > 0 {
        lemma_filter_all(s.drop_last(), p);
        assert(s.drop_last().push(s.last()) =~= s);
    } else {
        assert(s.filter(p) =~= s);
    }
}

/// A success lifts the lockout at once.
pub proof fn success_lifts_the_lockout(
    cfg: GuardConfig,
    rec: Record,
    at: Instant,
    now: Instant,
)
    ensures
        with_outcome(cfg, rec, at, Outcome::Success).consecutive_failures == 0,
        !(judge(cfg, with_outcome(cfg, rec, at, Outcome::Success), now).0 is RejectCooldown),
{
}

/// A failure that reaches the threshold shuts the address out for the cooldown, to
/// the nanosecond, and no longer.
pub proof fn lockout_lasts_for_the_cooldown(
    cfg: GuardConfig,
    rec: Record,
    at: Instant,
    now: Instant,
)
    requires
        cfg.locks_out(),
        rec.consecutive_failures + 1 >= cfg.failure_threshold,
        at@ + cfg.max_cooldown@ <= u128::MAX,
    ensures
        ({
            let after = with_outcome(cfg, rec, at, Outcome::Failure);
            let end = at@ + cooldown_after(
                after.consecutive_failures as int,
                cfg.failure_threshold as int,
                cfg.base_cooldown@,
                cfg.max_cooldown@,
            );
            &&& now@ < end ==> judge(cfg, after, now).0 == (Decision::RejectCooldown {
                retry_after: Duration { nanos: (end - now@) as u128 },
            })
            &&& now@ >= end ==> !(judge(cfg, after, now).0 is RejectCooldown)
        }),
{
}

/// Fewer failures in a row than the threshold never start a cooldown.
pub proof fn few_failures_do_not_lock(cfg: GuardConfig, rec: Record, at: Instant)
    requires
        rec.consecutive_failures + 1 < cfg.failure_threshold,
    ensures
        with_outcome(cfg, rec, at, Outcome::Failure).cooldown_until == rec.cooldown_until,
{
}

/// A lever that is switched off never rejects.
pub proof fn a_disabled_lever_never_rejects(cfg: GuardConfig, rec: Record, now: Instant)
    ensures
        cfg.failure_threshold == 0 ==> !(judge(cfg, rec, now).0 is RejectCooldown),
        cfg.max_attempts == 0 ==> !(judge(cfg, rec, now).0 is RejectRateLimit),
{
}

/// The cooldown never exceeds its maximum and never shrinks as failures go on.
pub proof fn cooldown_grows_up_to_its_maximum(
    m: int,
    n: int,
    threshold: int,
    base: nat,
    max: nat,
)
    requires
        m <= n,
    ensures
        cooldown_after(n, threshold, base, max) <= max,
        cooldown_after(m, threshold, base, max) <= cooldown_after(n, threshold, base, max),
{
    let s = if m >= threshold {
        (m - threshold) as nat
    } else {
        0
    };
    let t = if n >= threshold {
        (n - threshold) as nat
    } else {
        0
    };
    lemma_shifts_grow(base, s, t);
}

proof fn lemma_pruning_again_changes_nothing(s: Seq<Instant>, cutoff: Option<nat>)
    ensures
        prune(prune(s, cutoff), cutoff) == prune(s, cutoff),
    decreases s.len(),
{
    if cutoff is Some && s.len() > 0 && s[0]@ < cutoff->0 {
        lemma_pruning_again_changes_nothing(s.drop_first(), cutoff);
    }
}

/// Sweeping the table to save room changes no verdict.
pub proof fn sweeping_changes_no_verdict(
    m: Map<IpAddr, Record>,
    cfg: GuardConfig,
    ip: IpAddr,
    now: Instant,
)
    ensures
        judge(cfg, touched(swept(m, cfg, now), ip, now), now).0 == judge(
            cfg,
            touched(m, ip, now),
            now,
        ).0,
{
    if m.contains_key(ip) {
        lemma_pruning_again_changes_nothing(m[ip].attempts, cfg.cutoff(now));
    }
}

/// A call of the guard, with the verdict it met.
pub enum GuardCall {
    Decide { now: Instant, ip: IpAddr, verdict: Decision },
    Record { now: Instant, ip: IpAddr, outcome: Outcome },
}

pub open spec fn time_of(c: GuardCall) -> Instant {
    match c {
        GuardCall::Decide { now, .. } => now,
        GuardCall::Record { now, .. } => now,
    }
}

/// The call turns the table `m` into `after`.
pub open spec fn called(
    cfg: GuardConfig,
    m: Map<IpAddr, Record>,
    c: GuardCall,
    after: Map<IpAddr, Record>,
) -> bool {
    match c {
        GuardCall::Decide { now, ip, verdict } => decided(cfg, m, now, ip, verdict, after),
        GuardCall::Record { now, ip, outcome } => recorded(cfg, m, now, ip, outcome, after),
    }
}

/// A run of a fresh guard: `tables` holds its table before each call and after the last.
/// Time does not go back, and the table is never full.
pub open spec fn guard_run(
    cfg: GuardConfig,
    calls: Seq<GuardCall>,
    tables: Seq<Map<IpAddr, Record>>,
) -> bool {
    &&& tables.len() == calls.len() + 1
    &&& tables[0] == Map::<IpAddr, Record>::empty()
    &&& forall|i: int|
        0 <= i < calls.len() ==> called(cfg, tables[i], #[trigger] calls[i], tables[i + 1])
    &&& forall|i: int|
        0 <= i < tables.len() ==> (#[trigger] tables[i]).dom().finite() && tables[i].dom().len()
            < MAX_TRACKED_IPS
    &&& forall|i: int, j: int|
        0 <= i <= j < calls.len() ==> time_of(#[trigger] calls[i])@ <= time_of(
            #[trigger] calls[j],
        )@
}

/// When the peer was accepted in the course of these calls.
pub open spec fn accepts(calls: Seq<GuardCall>, peer: IpAddr) -> Seq<Instant>
    decreases calls.len(),
{
    if calls.len() == 0 {
        Seq::empty()
    } else {
        let before = accepts(calls.drop_last(), peer);
        match calls.last() {
            GuardCall::Decide { now, ip, verdict } => if canonical(ip) == peer && verdict
                == Decision::Accept {
                before.push(now)
            } else {
                before
            },
            GuardCall::Record { .. } => before,
        }
    }
}

/// Those of the moments that lie within the window that ends at `now`.
pub open spec fn within(cfg: GuardConfig, moments: Seq<Instant>, now: Instant) -> Seq<Instant> {
    moments.filter(|t: Instant| t@ + cfg.window@ >= now@)
}

/// The attempts on record for a peer; none where nothing is on record.
spec fn attempts_of(m: Map<IpAddr, Record>, peer: IpAddr) -> Seq<Instant> {
    if m.contains_key(peer) {
        m[peer].attempts
    } else {
        Seq::empty()
    }
}

proof fn lemma_pruning_twice(s: Seq<Instant>, a: Option<nat>, b: Option<nat>)
    requires
        a is Some ==> b is Some && a->0 <= b->0,
    ensures
        prune(prune(s, a), b) == prune(s, b),
    decreases s.len(),
{
    if a is Some && s.len() > 0 && s[0]@ < a->0 {
        lemma_pruning_twice(s.drop_first(), a, b);
    }
}

proof fn lemma_pruning_a_longer_list(s: Seq<Instant>, x: Instant, c: Option<nat>)
    ensures
        prune(s.push(x), c) == (if prune(s, c).len() > 0 {
            prune(s, c).push(x)
        } else {
            prune(seq![x], c)
        }),
    decreases s.len(),
{
    if s.len() == 0 {
        assert(s.push(x) =~= seq![x]);
        assert(prune(s, c).len() == 0);
    } else if c is Some && s[0]@ < c->0 {
        assert(s.push(x).drop_first() =~= s.drop_first().push(x));
        lemma_pruning_a_longer_list(s.drop_first(), x, c);
    }
}

/// What is on record of the accepted attempts agrees with them wherever it matters later.
spec fn agrees(cfg: GuardConfig, all: Seq<Instant>, kept: Seq<Instant>, from: Instant) -> bool {
    forall|now: Instant|
        now@ >= from@ ==> #[trigger] prune(all, cfg.cutoff(now)) == prune(kept, cfg.cutoff(now))
}

proof fn lemma_swept_agrees(
    cfg: GuardConfig,
    m: Map<IpAddr, Record>,
    peer: IpAddr,
    all: Seq<Instant>,
    from: Instant,
    now: Instant,
)
    requires
        agrees(cfg, all, attempts_of(m, peer), from),
        from@ <= now@,
    ensures
        agrees(cfg, all, attempts_of(swept(m, cfg, now), peer), now),
        attempts_of(swept(m, cfg, now), peer).len() <= attempts_of(m, peer).len(),
{
    let before = attempts_of(m, peer);
    let after = attempts_of(swept(m, cfg, now), peer);
    assert(after == prune(before, cfg.cutoff(now)));
    lemma_prune_len(before, cfg.cutoff(now));
    assert forall|t: Instant| t@ >= now@ implies #[trigger] prune(all, cfg.cutoff(t)) == prune(
        after,
        cfg.cutoff(t),
    ) by {
        lemma_pruning_twice(before, cfg.cutoff(now), cfg.cutoff(t));
    }
}

proof fn lemma_swept_fits(m: Map<IpAddr, Record>, cfg: GuardConfig, now: Instant)
    requires
        m.dom().finite(),
        m.dom().len() < MAX_TRACKED_IPS,
    ensures
        swept(m, cfg, now).dom().len() < MAX_TRACKED_IPS,
{
    let s = swept(m, cfg, now);
    assert(s.dom().subset_of(m.dom()));
    vstd::set_lib::lemma_len_subset(s.dom(), m.dom());
}

/// The attempts on record agree with the accepts of a run, and keep to the limit.
proof fn lemma_run(
    cfg: GuardConfig,
    calls: Seq<GuardCall>,
    tables: Seq<Map<IpAddr, Record>>,
    peer: IpAddr,
)
    requires
        guard_run(cfg, calls, tables),
        cfg.limits_rate(),
        !loopback(peer),
        calls.len() > 0,
    ensures
        agrees(
            cfg,
            accepts(calls, peer),
            attempts_of(tables.last(), peer),
            time_of(calls.last()),
        ),
        attempts_of(tables.last(), peer).len() <= cfg.max_attempts,
    decreases calls.len(),
{
    let n = calls.len() - 1;
    let front = calls.drop_last();
    let m = tables[n];
    let all = accepts(front, peer);
    let now = time_of(calls.last());
    let from = if n == 0 {
        now
    } else {
        time_of(calls[n - 1])
    };
    lemma_run_shrinks(cfg, calls, tables);
    if n > 0 {
        lemma_run(cfg, front, tables.drop_last(), peer);
        assert(tables.drop_last().last() == m);
        assert(front.last() == calls[n - 1]);
    } else {
        assert(all =~= attempts_of(m, peer));
    }
    assert(agrees(cfg, all, attempts_of(m, peer), from));
    assert(from@ <= now@);
    assert(called(cfg, m, calls[n], tables[n + 1]));
    let after = tables[n + 1];
    assert(after == tables.last());
    match calls.last() {
        GuardCall::Record { now: at, ip, outcome } => {
            assert(attempts_of(after, peer) == attempts_of(m, peer));
        },
        GuardCall::Decide { now: at, ip, verdict } => {
            let key = canonical(ip);
            if !loopback(key) {
                lemma_swept_fits(m, cfg, now);
                lemma_swept_agrees(cfg, m, peer, all, from, now);
                let mid = swept(m, cfg, now);
                let rec = touched(mid, key, now);
                let j = judge(cfg, rec, now);
                assert(verdict == j.0 && after == mid.insert(key, j.1));
                if key == peer {
                    let kept = attempts_of(mid, peer);
                    assert(rec.attempts == kept);
                    let c = cfg.cutoff(now);
                    let p = prune(kept, c);
                    lemma_prune_len(kept, c);
                    assert(agrees(cfg, all, p, now)) by {
                        assert forall|t: Instant| t@ >= now@ implies #[trigger] prune(
                            all,
                            cfg.cutoff(t),
                        ) == prune(p, cfg.cutoff(t)) by {
                            lemma_pruning_twice(kept, c, cfg.cutoff(t));
                        }
                    }
                    if verdict == Decision::Accept {
                        assert(attempts_of(after, peer) == p.push(now));
                        assert forall|t: Instant| t@ >= now@ implies #[trigger] prune(
                            all.push(now),
                            cfg.cutoff(t),
                        ) == prune(p.push(now), cfg.cutoff(t)) by {
                            assert(prune(all, cfg.cutoff(t)) == prune(p, cfg.cutoff(t)));
                            lemma_pruning_a_longer_list(all, now, cfg.cutoff(t));
                            lemma_pruning_a_longer_list(p, now, cfg.cutoff(t));
                        }
                    } else {
                        assert(attempts_of(after, peer) == p);
                    }
                } else {
                    assert(attempts_of(after, peer) == attempts_of(mid, peer));
                }
            }
        },
    }
}

proof fn lemma_run_shrinks(
    cfg: GuardConfig,
    calls: Seq<GuardCall>,
    tables: Seq<Map<IpAddr, Record>>,
)
    requires
        guard_run(cfg, calls, tables),
        calls.len() > 0,
    ensures
        guard_run(cfg, calls.drop_last(), tables.drop_last()),
{
    let c = calls.drop_last();
    let t = tables.drop_last();
    assert forall|i: int| 0 <= i < c.len() implies called(cfg, t[i], #[trigger] c[i], t[i + 1]) by {
        assert(called(cfg, tables[i], calls[i], tables[i + 1]));
    }
    assert forall|i: int| 0 <= i < t.len() implies (#[trigger] t[i]).dom().finite()
        && t[i].dom().len() < MAX_TRACKED_IPS by {
        assert(t[i] == tables[i]);
    }
    assert forall|i: int, j: int| 0 <= i <= j < c.len() implies time_of(#[trigger] c[i])@
        <= time_of(#[trigger] c[j])@ by {
        assert(c[i] == calls[i] && c[j] == calls[j]);
    }
}

proof fn lemma_accepts_in_order(calls: Seq<GuardCall>, peer: IpAddr)
    requires
        forall|i: int, j: int|
            0 <= i <= j < calls.len() ==> time_of(#[trigger] calls[i])@ <= time_of(
                #[trigger] calls[j],
            )@,
    ensures
        ({
            let a = accepts(calls, peer);
            &&& forall|i: int, j: int|
                0 <= i <= j < a.len() ==> #[trigger] a[i]@ <= #[trigger] a[j]@
            &&& forall|i: int| 0 <= i < a.len() ==> #[trigger] a[i]@ <= time_of(calls.last())@
        }),
    decreases calls.len(),
{
    if calls.len() > 0 {
        let front = calls.drop_last();
        assert forall|i: int, j: int| 0 <= i <= j < front.len() implies time_of(
            #[trigger] front[i],
        )@ <= time_of(#[trigger] front[j])@ by {
            assert(front[i] == calls[i] && front[j] == calls[j]);
        }
        lemma_accepts_in_order(front, peer);
        let before = accepts(front, peer);
        let n = calls.len() - 1;
        assert forall|i: int| 0 <= i < before.len() implies #[trigger] before[i]@ <= time_of(
            calls[n],
        )@ by {
            if n > 0 {
                assert(front.last() == calls[n - 1]);
                assert(time_of(calls[n - 1])@ <= time_of(calls[n])@);
            }
        }
    }
}

/// Pruning to the window that ends at `now` leaves exactly what lies within it.
proof fn lemma_pruned_is_within(cfg: GuardConfig, s: Seq<Instant>, now: Instant)
    requires
        forall|i: int, j: int| 0 <= i <= j < s.len() ==> #[trigger] s[i]@ <= #[trigger] s[j]@,
    ensures
        prune(s, cfg.cutoff(now)) == within(cfg, s, now),
{
    let inside = |t: Instant| t@ + cfg.window@ >= now@;
    match cfg.cutoff(now) {
        Some(c) => {
            only_recent_attempts_count(s, c);
            assert(inside =~= (|t: Instant| t@ >= c));
        },
        None => {
            lemma_filter_all(s, inside);
        },
    }
}

/// Over any run of a guard that limits the rate, and whose table is never full: the
/// accepts of one peer within the window that ends with an attempt, that one counted, are
/// no more than the limit. An attempt is turned away for the rate only where as many were
/// accepted before it as the limit allows, and that many are reported.
pub proof fn accepts_keep_to_the_limit(
    cfg: GuardConfig,
    calls: Seq<GuardCall>,
    tables: Seq<Map<IpAddr, Record>>,
)
    requires
        guard_run(cfg, calls, tables),
        cfg.limits_rate(),
        calls.len() > 0,
        calls.last() matches GuardCall::Decide { ip, .. } && !loopback(canonical(ip)),
    ensures
        calls.last() matches GuardCall::Decide { now, ip, verdict } ==> {
            let peer = canonical(ip);
            &&& within(cfg, accepts(calls, peer), now).len() <= cfg.max_attempts
            &&& verdict matches Decision::RejectRateLimit { window_attempts } ==> window_attempts
                == cfg.max_attempts && within(cfg, accepts(calls.drop_last(), peer), now).len()
                == cfg.max_attempts
        },
{
    if let GuardCall::Decide { now, ip, verdict } = calls.last() {
        let peer = canonical(ip);
        let n = calls.len() - 1;
        lemma_run(cfg, calls, tables, peer);
        let all = accepts(calls, peer);
        let kept = attempts_of(tables.last(), peer);
        lemma_accepts_in_order(calls, peer);
        lemma_pruned_is_within(cfg, all, now);
        assert(prune(all, cfg.cutoff(now)) == prune(kept, cfg.cutoff(now)));
        lemma_prune_len(kept, cfg.cutoff(now));
        if let Decision::RejectRateLimit { window_attempts } = verdict {
            let m = tables[n];
            lemma_swept_fits(m, cfg, now);
            assert(called(cfg, m, calls[n], tables[n + 1]));
            let mid = swept(m, cfg, now);
            let j = judge(cfg, touched(mid, peer, now), now);
            assert(tables.last() == mid.insert(peer, j.1));
            assert(kept == j.1.attempts);
            lemma_pruning_again_changes_nothing(
                touched(mid, peer, now).attempts,
                cfg.cutoff(now),
            );
            assert(prune(kept, cfg.cutoff(now)) == kept);
            assert(accepts(calls.drop_last(), peer) == all);
        }
    }
}

/// The IPv6 form of an IPv4 address is that address, and any other address is itself.
/// 127.0.0.0/8 and ::1, in either form, are the machine itself.
pub proof fn addresses_have_one_form(a: u32, v: u128)
    ensures
        canonical(IpAddr::V4(a)) == IpAddr::V4(a),
        canonical(IpAddr::V6((0xFFFF_0000_0000 + a) as u128)) == IpAddr::V4(a),
        v < 0xFFFF_0000_0000 || v > 0xFFFF_FFFF_FFFF ==> canonical(IpAddr::V6(v)) == IpAddr::V6(v),
        loopback(IpAddr::V4(a)) <==> 0x7F00_0000 <= a < 0x8000_0000,
        loopback(IpAddr::V6(v)) <==> v == 1,
{
}

/// The machine itself is always served, and leaves no trace.
pub proof fn the_machine_itself_is_always_served(
    cfg: GuardConfig,
    m: Map<IpAddr, Record>,
    now: Instant,
    a: u32,
    d: Decision,
    outcome: Outcome,
    after: Map<IpAddr, Record>,
)
    requires
        0x7F00_0000 <= a < 0x8000_0000,
    ensures
        decided(cfg, m, now, IpAddr::V4(a), d, after) ==> d is Accept && after == m,
        decided(cfg, m, now, IpAddr::V6(1), d, after) ==> d is Accept && after == m,
        decided(cfg, m, now, IpAddr::V6((0xFFFF_0000_0000 + a) as u128), d, after) ==> d is Accept
            && after == m,
        recorded(cfg, m, now, IpAddr::V4(a), outcome, after) ==> after == m,
{
}

/// An address that is not shut out is served as long as fewer attempts than allowed lie
/// within the window; then this one counts too. With as many as allowed it is turned away,
/// and told how many there were. `attempts` are those on record, in order of time.
pub proof fn the_rate_is_limited(cfg: GuardConfig, rec: Record, now: Instant)
    requires
        cfg.max_attempts > 0,
        rec.attempts.len() <= usize::MAX,
        cfg.failure_threshold == 0 || rec.cooldown_until is None || now.nanos
            >= rec.cooldown_until->0.nanos,
        cfg.window.nanos <= now.nanos,
        forall|i: int|
            0 <= i < rec.attempts.len() ==> (#[trigger] rec.attempts[i]).nanos >= now.nanos
                - cfg.window.nanos,
    ensures
        rec.attempts.len() < cfg.max_attempts ==> judge(cfg, rec, now).0 is Accept && judge(
            cfg,
            rec,
            now,
        ).1.attempts == rec.attempts.push(now),
        rec.attempts.len() >= cfg.max_attempts ==> judge(cfg, rec, now).0
            == (Decision::RejectRateLimit { window_attempts: rec.attempts.len() as usize }) && judge(
            cfg,
            rec,
            now,
        ).1.attempts == rec.attempts,
        judge(cfg, rec, now).1.consecutive_failures == rec.consecutive_failures,
{
    if rec.attempts.len() > 0 {
        assert(rec.attempts[0].nanos >= now.nanos - cfg.window.nanos);
    }
}

/// An attempt from before the window no longer counts.
pub proof fn old_attempts_are_forgotten(cfg: GuardConfig, rec: Record, now: Instant)
    requires
        cfg.max_attempts > 0,
        cfg.failure_threshold == 0 || rec.cooldown_until is None || now.nanos
            >= rec.cooldown_until->0.nanos,
        cfg.window.nanos <= now.nanos,
        forall|i: int|
            0 <= i < rec.attempts.len() ==> (#[trigger] rec.attempts[i]).nanos < now.nanos
                - cfg.window.nanos,
    ensures
        judge(cfg, rec, now).0 is Accept,
        judge(cfg, rec, now).1.attempts == seq![now],
{
    lemma_prune_all(rec.attempts, (now.nanos - cfg.window.nanos) as nat);
    assert(Seq::<Instant>::empty().push(now) =~= seq![now]);
}

proof fn lemma_prune_all(s: Seq<Instant>, c: nat)
    requires
        forall|i: int| 0 <= i < s.len() ==> (#[trigger] s[i])@ < c,
    ensures
        prune(s, Some(c)) == Seq::<Instant>::empty(),
    decreases s.len(),
{
    if s.len() > 0 {
        let rest = s.drop_first();
        assert forall|i: int| 0 <= i < rest.len() implies (#[trigger] rest[i])@ < c by {
            assert(rest[i] == s[i + 1]);
        }
        assert(s[0]@ < c);
        lemma_prune_all(rest, c);
    } else {
        assert(s =~= Seq::<Instant>::empty());
    }
}

/// An address that is shut out is turned away until its time has come, told how long that
/// is, and served after it.
pub proof fn shut_out_until_its_time(cfg: GuardConfig, rec: Record, now: Instant, end: Instant)
    requires
        cfg.failure_threshold > 0,
        rec.cooldown_until == Some(end),
    ensures
        now.nanos < end.nanos ==> (judge(cfg, rec, now).0 matches Decision::RejectCooldown {
            retry_after,
        } && retry_after.nanos == end.nanos - now.nanos),
        now.nanos >= end.nanos ==> !(judge(cfg, rec, now).0 is RejectCooldown) && judge(
            cfg,
            rec,
            now,
        ).1.cooldown_until is None,
{
}

/// The first cooldown is the base, and each further failure doubles it, up to the maximum.
pub proof fn cooldowns_double(n: int, threshold: int, base: nat, max: nat)
    requires
        n >= threshold,
    ensures
        base <= max ==> cooldown_after(threshold, threshold, base, max) == base,
        n < threshold ==> cooldown_after(n, threshold, base, max) == cooldown_after(
            threshold,
            threshold,
            base,
            max,
        ),
        2 * cooldown_after(n, threshold, base, max) <= max && cooldown_after(n, threshold, base, max)
            < max ==> cooldown_after(n + 1, threshold, base, max) == 2 * cooldown_after(
            n,
            threshold,
            base,
            max,
        ),
        2 * cooldown_after(n, threshold, base, max) > max ==> cooldown_after(
            n + 1,
            threshold,
            base,
            max,
        ) == max,
{
    let k = (n - threshold) as nat;
    lemma2_to64();
    vstd::arithmetic::power2::lemma_pow2_unfold(k + 1);
    vstd::arithmetic::power2::lemma_pow2_pos(k);
    let (p, q) = (pow2(k), pow2(k + 1));
    assert(base * q == 2 * (base * p)) by (nonlinear_arith)
        requires
            q == 2 * p,
    ;
    assert(base * 1 == base);
}

/// Failures in a row are counted one by one; a success ends the row.
pub proof fn failures_are_counted(cfg: GuardConfig, rec: Record, at: Instant)
    ensures
        rec.consecutive_failures < u32::MAX ==> with_outcome(cfg, rec, at, Outcome::Failure)
            .consecutive_failures == rec.consecutive_failures + 1,
        with_outcome(cfg, rec, at, Outcome::Success).consecutive_failures == 0,
        with_outcome(cfg, rec, at, Outcome::Success).cooldown_until is None,
        with_outcome(cfg, rec, at, Outcome::Failure).attempts == rec.attempts,
        with_outcome(cfg, rec, at, Outcome::Success).attempts == rec.attempts,
{
}

/// A connection failed if it ended in an error before the window had passed, and else not.
pub proof fn quick_errors_are_failures(errored: bool, duration: nat, window: nat)
    ensures
        outcome_of(false, duration, window) is Success,
        duration < window ==> outcome_of(true, duration, window) is Failure,
        duration >= window ==> outcome_of(true, duration, window) is Success,
{
}

/// With no variable set ten attempts a minute are allowed, five failures within three
/// seconds each shut out for thirty seconds, and at most for fifteen minutes. Each variable
/// sets its own.
pub proof fn guards_have_defaults(c: GuardConfig, env: &Environment, n: nat)
    requires
        c.read_from(env),
        n <= u32::MAX,
    ensures
        env.vars@.len() == 0 ==> {
            &&& c.window.nanos == 60_000_000_000
            &&& c.max_attempts == 10
            &&& c.failure_threshold == 5
            &&& c.failfast_window.nanos == 3_000_000_000
            &&& c.base_cooldown.nanos == 30_000_000_000
            &&& c.max_cooldown.nanos == 900_000_000_000
        },
        env.value("MACRDP_GUARD_RL_WINDOW_SECS"@) == Some(crate::text::digits(n)) ==> c.window.nanos == n
            * 1_000_000_000,
        env.value("MACRDP_GUARD_RL_MAX"@) == Some(crate::text::digits(n)) ==> c.max_attempts == n,
        env.value("MACRDP_GUARD_FAIL_THRESHOLD"@) == Some(crate::text::digits(n))
            ==> c.failure_threshold == n,
        env.value("MACRDP_GUARD_FAILFAST_SECS"@) == Some(crate::text::digits(n))
            ==> c.failfast_window.nanos == n * 1_000_000_000,
        env.value("MACRDP_GUARD_COOLDOWN_BASE_SECS"@) == Some(crate::text::digits(n))
            ==> c.base_cooldown.nanos == n * 1_000_000_000,
        env.value("MACRDP_GUARD_COOLDOWN_MAX_SECS"@) == Some(crate::text::digits(n))
            ==> c.max_cooldown.nanos == n * 1_000_000_000,
{
    crate::env::plain_numbers_are_read(n, u64::MAX as int);
}

/// The log names the peer, with what happened to it: seconds until it may try again,
/// milliseconds that it stayed. Switched off it says nothing, and of a peer that is served
/// it reports no rejection.
pub proof fn the_log_names_the_peer(
    ip: IpAddr,
    port: u16,
    duration: Duration,
    outcome: Outcome,
    attempts: usize,
)
    requires
        duration.nanos / 1_000_000 < 0x1_0000_0000_0000_0000,
    ensures
        accept_line(true, ip, port) == Some(AuditEvent::Accept { ip, port }),
        accept_line(false, ip, port) is None,
        reject_line(true, ip, Decision::Accept) is None,
        reject_line(true, ip, Decision::RejectRateLimit { window_attempts: attempts }) == Some(
            AuditEvent::RejectRateLimit { ip, window_attempts: attempts },
        ),
        reject_line(true, ip, Decision::RejectCooldown { retry_after: duration }) matches Some(
            AuditEvent::RejectLockout { ip: i, retry_after_secs },
        ) && i == ip && retry_after_secs == duration.nanos / 1_000_000_000,
        reject_line(false, ip, Decision::RejectRateLimit { window_attempts: attempts }) is None,
        disconnect_line(true, ip, duration, outcome) matches Some(
            AuditEvent::Disconnect { ip: i, duration_ms, outcome: o },
        ) && i == ip && o == outcome && duration_ms == duration.nanos / 1_000_000,
        disconnect_line(false, ip, duration, outcome) is None,
{
}

} // verus!
