//! The process that hands each connection to a worker of its own, and the watcher that
//! keeps the physical displays out of the way while clients are connected.
use crate::env::Environment;
use crate::startup::BlankMode;
use crate::text::{chars_of, decimal_text, join_path, parse_decimal, string_of};
use crate::time::{Duration, Instant};
use vstd::prelude::*;

verus! {

/// How long a new connection waits for the worker before it to end.
pub const WORKER_WAIT_TIMEOUT_MS: u64 = 3000;

/// The wait between two workers that the environment asks for, in nanoseconds.
pub open spec fn settle_asked(env: &Environment) -> int {
    (match env.value("MACRDP_WORKER_SCK_SETTLE_MS"@) {
        Some(v) => match crate::text::bounded_decimal(v, u64::MAX as int) {
            Some(ms) => ms,
            None => 0,
        },
        None => 0,
    }) * crate::time::NANOS_PER_MILLI
}

/// How long to wait between two workers.
pub fn worker_settle(env: &Environment) -> (d: Duration)
    ensures
        d@ == settle_asked(env),
{
    let ms: u64 = match env.get("MACRDP_WORKER_SCK_SETTLE_MS") {
        Some(v) => match parse_decimal(&chars_of(v), u64::MAX) {
            Some(ms) => ms,
            None => 0,
        },
        None => 0,
    };
    Duration::from_millis(ms)
}

/// What a new connection asks for before it gets a worker.
#[derive(Debug, Clone, Copy, PartialEq, Eq, Structural)]
pub struct Accepted {
    /// Keep the physical displays out of the way of this virtual one.
    pub engage: Option<u32>,
    /// Wait for this worker to end, and then for the displays to settle.
    pub drain: Option<u32>,
}

/// A supervisor, between two connections.
#[derive(Debug, Clone, Copy, PartialEq, Eq, Structural)]
pub struct Supervisor {
    pub blank: BlankMode,
    /// The virtual display that the workers show.
    pub display: Option<u32>,
    /// The physical displays were taken care of.
    pub engaged: bool,
    /// The worker of the last connection.
    pub worker: Option<u32>,
}

pub open spec fn accept_step(s: Supervisor) -> (Supervisor, Accepted) {
    let first = !s.engaged && s.blank != BlankMode::Off;
    (
        Supervisor { engaged: s.engaged || first, worker: None, ..s },
        Accepted {
            engage: if first {
                s.display
            } else {
                None
            },
            drain: s.worker,
        },
    )
}

/// A supervisor before its first connection.
pub open spec fn idle_supervisor(blank: BlankMode, display: Option<u32>) -> Supervisor {
    Supervisor { blank, display, engaged: false, worker: None }
}

/// The supervisor after a worker was started, or could not be.
pub open spec fn spawned(s: Supervisor, pid: Option<u32>) -> Supervisor {
    Supervisor { worker: pid, ..s }
}

impl Supervisor {
    pub fn new(blank: BlankMode, display: Option<u32>) -> (s: Self)
        ensures
            s == idle_supervisor(blank, display),
    {
        Supervisor { blank, display, engaged: false, worker: None }
    }

    /// A client connected. The physical displays are taken care of with the first one.
    pub fn on_accept(&mut self) -> (a: Accepted)
        ensures
            (*final(self), a) == accept_step(*old(self)),
    {
        let mut engage: Option<u32> = None;
        if !self.engaged && self.blank != BlankMode::Off {
            self.engaged = true;
            engage = self.display;
        }
        let drain: Option<u32> = self.worker;
        self.worker = None;
        Accepted { engage, drain }
    }

    /// A worker was started for the connection, or could not be.
    pub fn on_spawned(&mut self, pid: Option<u32>)
        ensures
            *final(self) == spawned(*old(self), pid),
    {
        self.worker = pid;
    }
}

/// What a worker is told: its socket, and the display to show.
pub open spec fn told(fd: i32, display: Option<u32>) -> Seq<(Seq<char>, Seq<char>)> {
    let socket = seq![("MACRDP_WORKER_FD"@, crate::text::digits(fd as nat))];
    match display {
        Some(id) => socket.push(("MACRDP_VD_ID"@, crate::text::digits(id as nat))),
        None => socket,
    }
}

/// Names and values as texts.
pub open spec fn variables(vars: Seq<(String, String)>) -> Seq<(Seq<char>, Seq<char>)> {
    vars.map_values(|v: (String, String)| (v.0@, v.1@))
}

/// The variables that a worker is started with.
pub fn worker_variables(fd: i32, display: Option<u32>) -> (vars: Vec<(String, String)>)
    requires
        fd >= 0,
    ensures
        variables(vars@) == told(fd, display),
{
    let mut vars: Vec<(String, String)> = Vec::new();
    vars.push((string_of(&chars_of("MACRDP_WORKER_FD")), decimal_text(fd as u128)));
    assert(variables(vars@) =~= seq![("MACRDP_WORKER_FD"@, crate::text::digits(fd as nat))]);
    if let Some(id) = display {
        let ghost before = variables(vars@);
        vars.push((string_of(&chars_of("MACRDP_VD_ID")), decimal_text(id as u128)));
        assert(variables(vars@) =~= before.push(
            ("MACRDP_VD_ID"@, crate::text::digits(id as nat)),
        ));
    }
    vars
}

pub open spec fn exit_code_of(served: bool) -> i32 {
    if served {
        0i32
    } else {
        1i32
    }
}

/// How a worker that served its connection ends.
pub fn worker_exit_code(served: bool) -> (code: i32)
    ensures
        code == exit_code_of(served),
{
    if served {
        0
    } else {
        1
    }
}

/// The places where the helper that draws the application switcher may be: where the
/// environment says, with the bundle, or in the build tree.
pub open spec fn hud_places(
    named: Option<Seq<char>>,
    exe_dir: Option<Seq<char>>,
    build_root: Option<Seq<char>>,
) -> Seq<Seq<char>> {
    (match named {
        Some(p) => seq![p],
        None => Seq::empty(),
    }) + (match exe_dir {
        Some(d) => seq![crate::text::joined(d, "../Resources/macrdphud"@)],
        None => Seq::empty(),
    }) + (match build_root {
        Some(d) => seq![crate::text::joined(d, "gui/.build/release/macrdphud"@)],
        None => Seq::empty(),
    })
}

/// The places to look for the helper, best first.
pub fn locate_hud_helper(
    env: &Environment,
    exe_dir: Option<&str>,
    build_root: Option<&str>,
) -> (places: Vec<String>)
    ensures
        crate::config::arguments(places@) == hud_places(
            env.value("MACRDP_HUD_HELPER"@),
            crate::text::text_of(exe_dir),
            crate::text::text_of(build_root),
        ),
{
    let mut places: Vec<String> = Vec::new();
    if let Some(p) = env.get("MACRDP_HUD_HELPER") {
        places.push(string_of(&chars_of(p)));
    }
    if let Some(d) = exe_dir {
        places.push(join_path(d, "../Resources/macrdphud"));
    }
    if let Some(d) = build_root {
        places.push(join_path(d, "gui/.build/release/macrdphud"));
    }
    assert(crate::config::arguments(places@) =~= hud_places(
        env.value("MACRDP_HUD_HELPER"@),
        crate::text::text_of(exe_dir),
        crate::text::text_of(build_root),
    ));
    places
}

/// How long the displays stay set aside at least.
pub const ENGAGED_SETTLE_MS: u64 = 3000;

/// How long a client has to stay before the displays are set aside.
pub const CONNECT_DEBOUNCE_MS: u64 = 750;

/// What the watcher does next.
#[derive(Debug, Clone, Copy, PartialEq, Eq, Structural)]
pub enum Watch {
    /// Wait for the next change.
    Idle,
    /// Wait, and look how many clients there are then.
    Debounce(Duration),
    /// Set the displays aside.
    Install,
    /// Wait, and bring the displays back where they were set aside.
    Release { after: Duration, engaged: bool },
}

/// The watcher, between two changes of the number of clients.
#[derive(Debug, Clone, Copy, PartialEq, Eq, Structural)]
pub struct OverlayWatcher {
    /// There was no client.
    pub was_zero: bool,
    /// When the displays were set aside.
    pub installed_at: Option<Instant>,
    /// The displays are set aside.
    pub engaged: bool,
}

/// What is left of the time that the displays stay set aside at least.
pub open spec fn settle_left(installed_at: Option<Instant>, now: Instant) -> int {
    let whole = ENGAGED_SETTLE_MS * crate::time::NANOS_PER_MILLI;
    match installed_at {
        Some(t) => if crate::time::since(now, t) < whole {
            whole - crate::time::since(now, t)
        } else {
            0
        },
        None => 0,
    }
}

/// The watcher after the number of clients may have changed, and what it does next.
pub open spec fn woken(w: OverlayWatcher, count: usize, now: Instant) -> (Watch, OverlayWatcher) {
    if w.was_zero && count > 0 {
        (
            Watch::Debounce(
                Duration { nanos: (CONNECT_DEBOUNCE_MS * crate::time::NANOS_PER_MILLI) as u128 },
            ),
            w,
        )
    } else if !w.was_zero && count == 0 {
        (
            Watch::Release {
                after: Duration { nanos: settle_left(w.installed_at, now) as u128 },
                engaged: w.engaged,
            },
            OverlayWatcher {
                was_zero: true,
                engaged: false,
                installed_at: if w.engaged {
                    None
                } else {
                    w.installed_at
                },
            },
        )
    } else {
        (Watch::Idle, w)
    }
}

/// What follows once a client had its time to stay.
pub open spec fn debounced(count: usize) -> Watch {
    if count == 0 {
        Watch::Idle
    } else {
        Watch::Install
    }
}

/// The watcher after the displays were set aside, or could not be.
pub open spec fn installed(w: OverlayWatcher, ok: bool, now: Instant) -> OverlayWatcher {
    OverlayWatcher {
        was_zero: false,
        engaged: ok,
        installed_at: if ok {
            Some(now)
        } else {
            w.installed_at
        },
    }
}

impl OverlayWatcher {
    /// Displays are set aside only while a client is there.
    pub open spec fn wf(&self) -> bool {
        &&& self.engaged ==> !self.was_zero
        &&& self.engaged ==> self.installed_at is Some
    }

    pub fn new() -> (w: Self)
        ensures
            w.wf(),
            w == (OverlayWatcher { was_zero: true, installed_at: None, engaged: false }),
    {
        OverlayWatcher { was_zero: true, installed_at: None, engaged: false }
    }

    /// The number of clients may have changed.
    pub fn on_wake(&mut self, count: usize, now: Instant) -> (r: Watch)
        requires
            old(self).wf(),
        ensures
            final(self).wf(),
            (r, *final(self)) == woken(*old(self), count, now),
    {
        if self.was_zero && count > 0 {
            return Watch::Debounce(Duration::from_millis(CONNECT_DEBOUNCE_MS));
        }
        if !self.was_zero && count == 0 {
            let whole: Duration = Duration::from_millis(ENGAGED_SETTLE_MS);
            let after: Duration = match self.installed_at {
                Some(t) => {
                    let elapsed: Duration = now.saturating_duration_since(t);
                    if elapsed.nanos < whole.nanos {
                        Duration { nanos: whole.nanos - elapsed.nanos }
                    } else {
                        Duration { nanos: 0 }
                    }
                },
                None => Duration { nanos: 0 },
            };
            let engaged: bool = self.engaged;
            self.was_zero = true;
            if engaged {
                self.engaged = false;
                self.installed_at = None;
            }
            return Watch::Release { after, engaged };
        }
        Watch::Idle
    }

    /// The wait for a client to stay is over.
    pub fn on_debounced(&self, count: usize) -> (r: Watch)
        ensures
            r == debounced(count),
    {
        if count == 0 {
            Watch::Idle
        } else {
            Watch::Install
        }
    }

    /// The displays were set aside, or could not be. Either way the client is known.
    pub fn on_installed(&mut self, ok: bool, now: Instant)
        requires
            old(self).wf(),
            old(self).was_zero,
        ensures
            final(self).wf(),
            *final(self) == installed(*old(self), ok, now),
    {
        self.was_zero = false;
        if ok {
            self.installed_at = Some(now);
            self.engaged = true;
        }
    }
}

/// The physical displays are taken care of with the first client that connects and never
/// again.
pub proof fn displays_are_engaged_once(s: Supervisor, pid: Option<u32>)
    ensures
        ({
            let (after, a) = accept_step(s);
            let (_, b) = accept_step(Supervisor { worker: pid, ..after });
            a.engage is Some ==> b.engage is None
        }),
        s.engaged ==> accept_step(s).1.engage is None && accept_step(s).0.engaged,
{
}

/// A worker is told of its socket and display in a way that it reads back, whatever else
/// the environment holds.
pub proof fn workers_read_what_they_are_told(
    env: Environment,
    fd: i32,
    display: Option<u32>,
)
    requires
        fd >= 0,
        env.vars@.len() >= told(fd, display).len(),
        variables(env.vars@.take(told(fd, display).len() as int)) == told(fd, display),
        display is None ==> env.value("MACRDP_VD_ID"@) is None,
    ensures
        crate::startup::inherited_socket(&env) == Some(fd as int),
        crate::startup::inherited_display(&env) == (match display {
            Some(id) => Some(id as int),
            None => None,
        }),
{
    reveal_strlit("MACRDP_WORKER_FD");
    reveal_strlit("MACRDP_VD_ID");
    let vars = env.vars@;
    let head = vars.take(told(fd, display).len() as int);
    assert(variables(head)[0] == told(fd, display)[0]);
    assert(vars[0].0@ == "MACRDP_WORKER_FD"@);
    assert(vars[0].1@ == crate::text::digits(fd as nat));
    crate::text::decimal_round_trip(fd as nat);
    assert(env.value("MACRDP_WORKER_FD"@) == Some(crate::text::digits(fd as nat)));
    lemma_digits_have_no_sign(fd as nat);
    if let Some(id) = display {
        assert(variables(head)[1] == told(fd, display)[1]);
        assert(vars.drop_first()[0] == vars[1]);
        assert("MACRDP_WORKER_FD"@.len() != "MACRDP_VD_ID"@.len());
        crate::text::decimal_round_trip(id as nat);
        assert(crate::env::first_var(vars.drop_first(), "MACRDP_VD_ID"@) == Some(
            crate::text::digits(id as nat),
        ));
    }
}

proof fn lemma_digits_have_no_sign(n: nat)
    ensures
        crate::text::digits(n).len() > 0,
        crate::text::digits(n)[0] != '-',
{
    crate::text::decimal_round_trip(n);
    let d = crate::text::digits(n);
    let t = if d.len() > 0 && d[0] == '+' {
        d.drop_first()
    } else {
        d
    };
    assert(crate::text::all_digits(t));
    if d[0] == '-' {
        assert(crate::text::is_digit(t[0]));
    }
}

/// A new connection waits for the worker of the one before it, and for no other; and a worker
/// that was started is the one that the next connection waits for.
pub proof fn connections_wait_for_the_last_worker(s: Supervisor, pid: Option<u32>)
    ensures
        accept_step(spawned(s, pid)).1.drain == pid,
        accept_step(accept_step(s).0).1.drain is None,
        accept_step(s).0.blank == s.blank,
        accept_step(s).0.display == s.display,
{
}

/// The first connection sets the physical displays aside, for the virtual display, where
/// that is asked for; later ones leave them alone.
pub proof fn the_first_connection_sets_displays_aside(blank: BlankMode, id: u32, s: Supervisor)
    ensures
        blank != BlankMode::Off ==> accept_step(idle_supervisor(blank, Some(id))).1.engage == Some(id),
        accept_step(idle_supervisor(BlankMode::Off, Some(id))).1.engage is None,
        accept_step(idle_supervisor(blank, None)).1.engage is None,
        accept_step(idle_supervisor(blank, Some(id))).1.drain is None,
        s.engaged ==> accept_step(s).1.engage is None,
        accept_step(accept_step(s).0).1.engage is None,
        accept_step(spawned(accept_step(s).0, Some(id))).1.engage is None,
{
}

/// A worker is told its socket and its display, each by its own name, in decimal; one without
/// a display is told no other.
pub proof fn workers_are_told_socket_and_display(fd: i32, id: u32)
    requires
        fd >= 0,
    ensures
        told(fd, Some(id)).len() == 2,
        told(fd, Some(id))[0] == ("MACRDP_WORKER_FD"@, crate::text::digits(fd as nat)),
        told(fd, Some(id))[1] == ("MACRDP_VD_ID"@, crate::text::digits(id as nat)),
        told(fd, None).len() == 1,
        told(fd, None)[0] == ("MACRDP_WORKER_FD"@, crate::text::digits(fd as nat)),
{
}

/// A worker ends with status 0 exactly if it served its connection. Workers follow each other
/// at once unless a number of milliseconds is asked for.
pub proof fn workers_end_and_follow(env: &Environment, n: nat)
    requires
        n <= u64::MAX,
    ensures
        exit_code_of(true) == 0,
        exit_code_of(false) == 1,
        env.value("MACRDP_WORKER_SCK_SETTLE_MS"@) is None ==> settle_asked(env) == 0,
        env.value("MACRDP_WORKER_SCK_SETTLE_MS"@) == Some(crate::text::digits(n)) ==> settle_asked(env)
            == n * 1_000_000,
{
    crate::text::decimal_round_trip(n);
}

/// The helper is looked for where the environment says, then with the bundle, then in the
/// build tree.
pub proof fn the_named_helper_comes_first(a: Seq<char>, b: Seq<char>, c: Seq<char>)
    ensures
        hud_places(Some(a), Some(b), Some(c)) == seq![
            a,
            crate::text::joined(b, "../Resources/macrdphud"@),
            crate::text::joined(c, "gui/.build/release/macrdphud"@),
        ],
        hud_places(None, Some(b), None) == seq![crate::text::joined(b, "../Resources/macrdphud"@)],
        hud_places(None, None, None).len() == 0,
{
    assert(hud_places(Some(a), Some(b), Some(c)) =~= seq![
        a,
        crate::text::joined(b, "../Resources/macrdphud"@),
        crate::text::joined(c, "gui/.build/release/macrdphud"@),
    ]);
    assert(hud_places(None, Some(b), None) =~= seq![
        crate::text::joined(b, "../Resources/macrdphud"@),
    ]);
}

/// A client that comes has three quarters of a second to stay; with one still there the
/// displays are set aside, and else nothing happens. While clients stay, or none is there,
/// nothing happens either.
pub proof fn clients_have_to_stay(w: OverlayWatcher, count: usize, now: Instant)
    ensures
        w.was_zero && count > 0 ==> woken(w, count, now) == (
            Watch::Debounce(Duration { nanos: 750_000_000 }),
            w,
        ),
        w.was_zero && count == 0 ==> woken(w, count, now) == (Watch::Idle, w),
        !w.was_zero && count > 0 ==> woken(w, count, now) == (Watch::Idle, w),
        count > 0 ==> debounced(count) is Install,
        count == 0 ==> debounced(count) is Idle,
{
}

/// When the last client goes, displays that were set aside come back, but not before they
/// were aside for three seconds; displays that could not be set aside are not brought back.
pub proof fn displays_come_back_after_the_last_client(
    w: OverlayWatcher,
    at: Instant,
    now: Instant,
)
    requires
        w.was_zero,
        now.nanos >= at.nanos,
    ensures
        woken(installed(w, true, at), 0, now).0 matches Watch::Release { after, engaged } && engaged
            && after.nanos == (if now.nanos - at.nanos < 3_000_000_000 {
            3_000_000_000 - (now.nanos - at.nanos)
        } else {
            0
        }),
        woken(installed(w, false, at), 0, now).0 matches Watch::Release { engaged, .. } && !engaged,
        woken(installed(w, true, at), 0, now).1.was_zero,
        !woken(installed(w, true, at), 0, now).1.engaged,
        woken(installed(w, true, at), 0, now).1.installed_at is None,
        installed(w, true, at).engaged,
        !installed(w, false, at).engaged,
        !installed(w, true, at).was_zero,
{
}

} // verus!
