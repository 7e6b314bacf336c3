//! Liveness watchdog: whether it runs, how it is set up, and when it gives up.
use crate::env::{number_from, Environment};
use crate::text::{chars_of, lower, same, trim};
use crate::time::Duration;
use vstd::prelude::*;

verus! {

/// The exit status of a process that its own watchdog ended.
pub const WATCHDOG_EXIT_CODE: i32 = 70;

#[derive(Debug, Clone, Copy, PartialEq, Eq, Structural)]
pub struct HealthConfig {
    pub probe_interval: Duration,
    pub timeout: Duration,
    pub failures_before_exit: u32,
}

impl Default for HealthConfig {
    fn default() -> (c: Self)
        ensures
            c.probe_interval@ == 15 * crate::time::NANOS_PER_SEC,
            c.timeout@ == 30 * crate::time::NANOS_PER_SEC,
            c.failures_before_exit == 2,
    {
        HealthConfig {
            probe_interval: Duration::from_secs(15),
            timeout: Duration::from_secs(30),
            failures_before_exit: 2,
        }
    }
}

impl HealthConfig {
    /// The settings that the environment names, each with its default.
    pub open spec fn read_from(&self, env: &Environment) -> bool {
        &&& self.probe_interval@ == crate::env::positive_or(
            env.value("MACRDP_HEALTHCHECK_INTERVAL_SECS"@),
            u64::MAX as int,
            15,
        ) * crate::time::NANOS_PER_SEC
        &&& self.timeout@ == crate::env::positive_or(
            env.value("MACRDP_HEALTHCHECK_TIMEOUT_SECS"@),
            u64::MAX as int,
            30,
        ) * crate::time::NANOS_PER_SEC
        &&& self.failures_before_exit == crate::env::positive_or(
            env.value("MACRDP_HEALTHCHECK_FAILURES"@),
            u32::MAX as int,
            2,
        )
    }

    pub fn from_env(env: &Environment) -> (c: Self)
        ensures
            c.read_from(env),
    {
        let d: HealthConfig = HealthConfig::default();
        HealthConfig {
            probe_interval: parse_secs(
                env.get("MACRDP_HEALTHCHECK_INTERVAL_SECS"),
                d.probe_interval,
            ),
            timeout: parse_secs(env.get("MACRDP_HEALTHCHECK_TIMEOUT_SECS"), d.timeout),
            failures_before_exit: parse_u32(
                env.get("MACRDP_HEALTHCHECK_FAILURES"),
                d.failures_before_exit,
            ),
        }
    }
}

/// What the override says, where it says anything.
pub open spec fn override_says(v: Seq<char>) -> Option<bool> {
    let t = crate::text::lowered(crate::text::trimmed(v));
    if t == "1"@ || t == "on"@ || t == "true"@ || t == "yes"@ {
        Some(true)
    } else if t == "0"@ || t == "off"@ || t == "false"@ || t == "no"@ {
        Some(false)
    } else {
        None
    }
}

pub open spec fn arms(is_worker: bool, stdout_is_tty: bool, env_override: Option<Seq<char>>) -> bool {
    !is_worker && match env_override {
        Some(v) => match override_says(v) {
            Some(on) => on,
            None => !stdout_is_tty,
        },
        None => !stdout_is_tty,
    }
}

/// Whether the watchdog runs: never in a worker; as the override says, where it says
/// anything; else exactly when nobody watches at a terminal.
pub fn should_arm(is_worker: bool, stdout_is_tty: bool, env_override: Option<&str>) -> (r: bool)
    ensures
        r == arms(is_worker, stdout_is_tty, crate::text::text_of(env_override)),
{
    if is_worker {
        return false;
    }
    match env_override {
        Some(v) => {
            let chars: Vec<char> = chars_of(v);
            let t: Vec<char> = lower(&trim(&chars));
            if same(&t, "1") || same(&t, "on") || same(&t, "true") || same(&t, "yes") {
                true
            } else if same(&t, "0") || same(&t, "off") || same(&t, "false") || same(&t, "no") {
                false
            } else {
                !stdout_is_tty
            }
        },
        None => !stdout_is_tty,
    }
}

/// Reads a span of seconds above zero.
pub fn parse_secs(raw: Option<&str>, default: Duration) -> (d: Duration)
    ensures
        ({
            let n = crate::env::number_or(crate::text::text_of(raw), u64::MAX as int, 0);
            d@ == if n > 0 {
                n * crate::time::NANOS_PER_SEC
            } else {
                default@ as int
            }
        }),
{
    let n: u64 = number_from(raw, u64::MAX, 0);
    if n > 0 {
        Duration::from_secs(n)
    } else {
        default
    }
}

/// Reads a count above zero.
pub fn parse_u32(raw: Option<&str>, default: u32) -> (n: u32)
    ensures
        n == crate::env::positive_or(crate::text::text_of(raw), u32::MAX as int, default as int),
{
    let n: u64 = number_from(raw, u32::MAX as u64, 0);
    if n > 0 {
        n as u32
    } else {
        default
    }
}

/// What follows from a probe.
#[derive(Debug, Clone, Copy, PartialEq, Eq, Structural)]
pub enum Verdict {
    Continue,
    Exit(i32),
}

/// The watchdog between two probes.
#[derive(Debug, Clone, Copy, PartialEq, Eq, Structural)]
pub struct Watchdog {
    pub consecutive_misses: u32,
}

/// How many probes in a row were missed at the end of the history.
pub open spec fn trailing_misses(history: Seq<bool>) -> nat
    decreases history.len(),
{
    if history.len() == 0 || history.last() {
        0
    } else {
        1 + trailing_misses(history.drop_last())
    }
}

/// After a probe: the verdict, and the misses in a row.
pub open spec fn probed(misses: u32, ok: bool, limit: u32) -> (Verdict, int) {
    let n = if ok {
        0
    } else {
        misses + 1
    };
    (
        if !ok && n >= limit {
            Verdict::Exit(WATCHDOG_EXIT_CODE)
        } else {
            Verdict::Continue
        },
        n,
    )
}

impl Watchdog {
    pub fn new() -> (w: Self)
        ensures
            w.consecutive_misses == 0,
    {
        Watchdog { consecutive_misses: 0 }
    }

    /// Takes in a probe's result. A miss counts on, an answer starts over, and with
    /// enough misses in a row the process is to end.
    pub fn on_probe(&mut self, ok: bool, cfg: &HealthConfig) -> (v: Verdict)
        requires
            old(self).consecutive_misses < u32::MAX,
        ensures
            (v, final(self).consecutive_misses as int) == probed(
                old(self).consecutive_misses,
                ok,
                cfg.failures_before_exit,
            ),
    {
        if ok {
            self.consecutive_misses = 0;
            return Verdict::Continue;
        }
        self.consecutive_misses = self.consecutive_misses + 1;
        if self.consecutive_misses >= cfg.failures_before_exit {
            Verdict::Exit(WATCHDOG_EXIT_CODE)
        } else {
            Verdict::Continue
        }
    }
}

/// A watchdog that has counted the misses at the end of a history, counts those at
/// the end of the longer history after one probe more. A watchdog that goes on has
/// missed fewer probes in a row than its limit.
pub proof fn misses_are_counted(history: Seq<bool>, ok: bool, before: u32, after: u32, limit: u32)
    requires
        before == trailing_misses(history),
        after == (if ok {
            0
        } else {
            before + 1
        }),
    ensures
        after == trailing_misses(history.push(ok)),
        limit > 0 && !(!ok && after >= limit) ==> trailing_misses(history.push(ok)) < limit,
{
    assert(history.push(ok).drop_last() =~= history);
}

/// An answer starts the count over; each miss counts one, and the one that reaches the limit
/// ends the process with status 70. No other does.
pub proof fn enough_misses_end_the_process(misses: u32, limit: u32)
    ensures
        probed(misses, true, limit) == (Verdict::Continue, 0int),
        probed(misses, false, limit).1 == misses + 1,
        misses + 1 >= limit ==> probed(misses, false, limit).0 == Verdict::Exit(70),
        misses + 1 < limit ==> probed(misses, false, limit).0 is Continue,
{
}

/// A worker has no watchdog. Else the override decides, and where it says nothing the
/// watchdog runs exactly where nobody sits at a terminal.
pub proof fn watchdogs_run_where_nobody_watches(tty: bool, v: Seq<char>)
    ensures
        !arms(true, tty, Some(v)),
        !arms(true, tty, None),
        arms(false, false, None),
        !arms(false, true, None),
        crate::text::lowered(crate::text::trimmed(v)) == "1"@ || crate::text::lowered(
            crate::text::trimmed(v),
        ) == "on"@ || crate::text::lowered(crate::text::trimmed(v)) == "true"@
            || crate::text::lowered(crate::text::trimmed(v)) == "yes"@ ==> arms(false, tty, Some(v)),
        (crate::text::lowered(crate::text::trimmed(v)) == "0"@ || crate::text::lowered(
            crate::text::trimmed(v),
        ) == "off"@ || crate::text::lowered(crate::text::trimmed(v)) == "false"@
            || crate::text::lowered(crate::text::trimmed(v)) == "no"@) ==> !arms(
            false,
            tty,
            Some(v),
        ),
        crate::text::trimmed(v).len() > 5 ==> arms(false, tty, Some(v)) == !tty,
{
    reveal_strlit("1");
    reveal_strlit("on");
    reveal_strlit("true");
    reveal_strlit("yes");
    reveal_strlit("0");
    reveal_strlit("off");
    reveal_strlit("false");
    reveal_strlit("no");
    let t = crate::text::lowered(crate::text::trimmed(v));
    assert(t.len() == crate::text::trimmed(v).len());
    assert("1"@[0] != "0"@[0]);
    assert("on"@[0] == 'o' && "off"@[0] == 'o' && "on"@.len() == 2 && "off"@.len() == 3);
    assert("true"@[0] == 't' && "false"@[0] == 'f');
    assert("yes"@[0] == 'y' && "no"@[0] == 'n');
}

/// With no variable set a probe goes out every 15 seconds, is waited for 30 seconds, and two
/// misses are enough. Each variable sets its own.
pub proof fn watchdogs_have_defaults(c: HealthConfig, env: &Environment, n: nat)
    requires
        c.read_from(env),
        0 < n <= u32::MAX,
    ensures
        env.vars@.len() == 0 ==> c.probe_interval.nanos == 15_000_000_000 && c.timeout.nanos
            == 30_000_000_000 && c.failures_before_exit == 2,
        env.value("MACRDP_HEALTHCHECK_INTERVAL_SECS"@) == Some(crate::text::digits(n))
            ==> c.probe_interval.nanos == n * 1_000_000_000,
        env.value("MACRDP_HEALTHCHECK_TIMEOUT_SECS"@) == Some(crate::text::digits(n))
            ==> c.timeout.nanos == n * 1_000_000_000,
        env.value("MACRDP_HEALTHCHECK_FAILURES"@) == Some(crate::text::digits(n))
            ==> c.failures_before_exit == n,
{
    crate::env::plain_numbers_are_read(n, u32::MAX as int);
    crate::env::plain_numbers_are_read(n, u64::MAX as int);
}

} // verus!
