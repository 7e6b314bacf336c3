//! The virtual display and the ways to make it the one that counts: which physical
//! displays are set aside, where they go meanwhile, and how they are brought back.
use crate::env::Environment;
use crate::shield::hide_all;
use crate::text::{chars_of, lower, same, same_text};
use crate::time::Duration;
use vstd::prelude::*;

verus! {

/// How long one change of the arrangement is left to settle before the next.
pub const TX_SETTLE_MS: u64 = 200;

/// How long displays that no longer mirror each other are left to settle before they are
/// covered.
pub const UNMIRROR_SETTLE_MS: u64 = 600;

/// How long a new size may take to show.
pub const RESIZE_TIMEOUT_MS: u64 = 3000;

pub const RESIZE_POLL_MS: u64 = 50;

/// Where a display lies and how large it is, in whole points.
#[derive(Debug, Clone, Copy, PartialEq, Eq, Structural)]
pub struct Bounds {
    pub x: i32,
    pub y: i32,
    pub width: i32,
    pub height: i32,
}

/// A display as the system reports it.
#[derive(Debug, Clone, Copy, PartialEq, Eq, Structural)]
pub struct Panel {
    pub id: u32,
    pub bounds: Bounds,
}

/// A display and the place it is to take.
#[derive(Debug, Clone, Copy, PartialEq, Eq, Structural)]
pub struct Placement {
    pub id: u32,
    pub x: i32,
    pub y: i32,
}

#[derive(Debug, Clone, Copy, PartialEq, Eq, Structural)]
pub enum DisplayError {
    /// The virtual display has no size yet.
    NotActivated { id: u32 },
    /// There is no physical display to set aside.
    NoPhysicalDisplay,
    /// The system would not hand over a display.
    CaptureRefused { id: u32 },
    /// A display still shows the virtual one's picture.
    StillMirrored,
}

/// A display's size as a number that is not negative.
pub open spec fn side(n: i32) -> u32 {
    if n < 0 {
        0
    } else {
        n as u32
    }
}

/// How waiting for a new size goes on.
#[derive(Debug, Clone, Copy, PartialEq, Eq, Structural)]
pub enum ResizeStep {
    Done,
    Wait(Duration),
    TimedOut,
}

/// How waiting for a size goes on, told the bounds that the system reports.
pub open spec fn resize_step(width: u32, height: u32, bounds: Bounds, waited: nat) -> ResizeStep {
    if side(bounds.width) == width && side(bounds.height) == height {
        ResizeStep::Done
    } else if waited >= RESIZE_TIMEOUT_MS * crate::time::NANOS_PER_MILLI {
        ResizeStep::TimedOut
    } else {
        ResizeStep::Wait(
            Duration { nanos: (RESIZE_POLL_MS * crate::time::NANOS_PER_MILLI) as u128 },
        )
    }
}

#[derive(Debug, Clone, Copy)]
pub struct VirtualDisplay {
    display_id: u32,
    origin_pts: (i32, i32),
    size_pts: (i32, i32),
}

impl VirtualDisplay {
    pub closed spec fn id(&self) -> u32 {
        self.display_id
    }

    pub closed spec fn origin(&self) -> (i32, i32) {
        self.origin_pts
    }

    pub closed spec fn size(&self) -> (i32, i32) {
        self.size_pts
    }

    /// Takes up the display `id`, once it has a size.
    pub fn new(id: u32, bounds: Bounds) -> (r: Result<Self, DisplayError>)
        ensures
            bounds.width <= 0 || bounds.height <= 0 ==> r == Err::<Self, DisplayError>(
                DisplayError::NotActivated { id },
            ),
            bounds.width > 0 && bounds.height > 0 ==> (r matches Ok(v) && v.id() == id
                && v.origin() == (bounds.x, bounds.y) && v.size() == (
                bounds.width,
                bounds.height,
            )),
    {
        if bounds.width <= 0 || bounds.height <= 0 {
            return Err(DisplayError::NotActivated { id });
        }
        Ok(
            VirtualDisplay {
                display_id: id,
                origin_pts: (bounds.x, bounds.y),
                size_pts: (bounds.width, bounds.height),
            },
        )
    }

    pub fn display_id(&self) -> (id: u32)
        ensures
            id == self.id(),
    {
        self.display_id
    }

    pub fn origin_pts(&self) -> (o: (i32, i32))
        ensures
            o == self.origin(),
    {
        self.origin_pts
    }

    pub fn size_pts(&self) -> (s: (i32, i32))
        ensures
            s == self.size(),
    {
        self.size_pts
    }

    /// Looks at the bounds that the system reports `waited` after a new size was asked
    /// for. Once they show it, place and size are taken from them.
    pub fn resize(&mut self, width: u32, height: u32, bounds: Bounds, waited: Duration) -> (r:
        ResizeStep)
        ensures
            final(self).id() == old(self).id(),
            r == resize_step(width, height, bounds, waited@),
            r is Done ==> final(self).origin() == (bounds.x, bounds.y) && final(self).size() == (
                bounds.width,
                bounds.height,
            ),
            !(r is Done) ==> *final(self) == *old(self),
    {
        let w: u32 = if bounds.width < 0 {
            0
        } else {
            bounds.width as u32
        };
        let h: u32 = if bounds.height < 0 {
            0
        } else {
            bounds.height as u32
        };
        if w == width && h == height {
            self.origin_pts = (bounds.x, bounds.y);
            self.size_pts = (bounds.width, bounds.height);
            return ResizeStep::Done;
        }
        if waited.nanos >= Duration::from_millis(RESIZE_TIMEOUT_MS).nanos {
            return ResizeStep::TimedOut;
        }
        ResizeStep::Wait(Duration::from_millis(RESIZE_POLL_MS))
    }

    /// Where the display has to go to be the main one again, after a change of size.
    /// Nowhere, where it still is.
    pub fn reanchor_as_main(&self, bounds: Bounds, main_id: u32) -> (r: Option<Placement>)
        ensures
            r is None <==> bounds.x == 0 && bounds.y == 0 && main_id == self.id(),
            r matches Some(p) ==> p == (Placement { id: self.id(), x: 0, y: 0 }),
    {
        if bounds.x == 0 && bounds.y == 0 && main_id == self.display_id {
            return None;
        }
        Some(Placement { id: self.display_id, x: 0, y: 0 })
    }

    /// The display was moved to the origin.
    pub fn on_reanchored(&mut self)
        ensures
            final(self).id() == old(self).id(),
            final(self).size() == old(self).size(),
            final(self).origin() == (0i32, 0i32),
    {
        self.origin_pts = (0, 0);
    }
}

/// Where each display lies once the placements were made, one after another.
pub open spec fn arranged(layout: Map<u32, (i32, i32)>, moves: Seq<Placement>) -> Map<
    u32,
    (i32, i32),
>
    decreases moves.len(),
{
    if moves.len() == 0 {
        layout
    } else {
        let m = moves.last();
        arranged(layout, moves.drop_last()).insert(m.id, (m.x, m.y))
    }
}

/// The system's main display is another one meanwhile.
#[derive(Debug, Clone, Copy)]
pub struct PrimaryOverride {
    primary_id: u32,
    primary_old_origin: (i32, i32),
    virtual_id: u32,
    virtual_old_origin: (i32, i32),
}

impl PrimaryOverride {
    pub closed spec fn primary(&self) -> Placement {
        Placement {
            id: self.primary_id,
            x: self.primary_old_origin.0,
            y: self.primary_old_origin.1,
        }
    }

    pub closed spec fn virtual_display(&self) -> Placement {
        Placement {
            id: self.virtual_id,
            x: self.virtual_old_origin.0,
            y: self.virtual_old_origin.1,
        }
    }

    /// Makes the virtual display the main one: it goes to the origin, and the main one
    /// to its right. Nothing is done where it is the main one already.
    pub fn install(vd: Panel, main: Panel) -> (r: Option<(Self, Vec<Placement>)>)
        ensures
            r is None <==> vd.id == main.id,
            r matches Some((o, moves)) ==> {
                &&& o.primary() == home(main)
                &&& o.virtual_display() == home(vd)
                &&& moves@ == seq![
                    Placement { id: vd.id, x: 0, y: 0 },
                    Placement { id: main.id, x: vd.bounds.width, y: 0 },
                ]
            },
    {
        if vd.id == main.id {
            return None;
        }
        let mut moves: Vec<Placement> = Vec::new();
        moves.push(Placement { id: vd.id, x: 0, y: 0 });
        moves.push(Placement { id: main.id, x: vd.bounds.width, y: 0 });
        let o = PrimaryOverride {
            primary_id: main.id,
            primary_old_origin: (main.bounds.x, main.bounds.y),
            virtual_id: vd.id,
            virtual_old_origin: (vd.bounds.x, vd.bounds.y),
        };
        Some((o, moves))
    }

    /// The placements that bring both displays back.
    pub fn restore(&self) -> (moves: Vec<Placement>)
        ensures
            moves@ == seq![self.primary(), self.virtual_display()],
    {
        let mut moves: Vec<Placement> = Vec::new();
        moves.push(
            Placement {
                id: self.primary_id,
                x: self.primary_old_origin.0,
                y: self.primary_old_origin.1,
            },
        );
        moves.push(
            Placement {
                id: self.virtual_id,
                x: self.virtual_old_origin.0,
                y: self.virtual_old_origin.1,
            },
        );
        moves
    }
}

/// A display and the place where it lies.
pub open spec fn home(p: Panel) -> Placement {
    Placement { id: p.id, x: p.bounds.x, y: p.bounds.y }
}

/// The displays but the virtual one, with their places.
pub open spec fn others(vd_id: u32, actives: Seq<Panel>) -> Seq<Placement>
    decreases actives.len(),
{
    if actives.len() == 0 {
        Seq::empty()
    } else {
        let rest = others(vd_id, actives.drop_last());
        if actives.last().id == vd_id {
            rest
        } else {
            rest.push(home(actives.last()))
        }
    }
}

pub open spec fn is_active(id: u32, actives: Seq<Panel>) -> bool {
    exists|i: int| 0 <= i < actives.len() && (#[trigger] actives[i]).id == id
}

/// The displays but the virtual one that are there without being in use. Where they
/// lay is not known; the origin stands for it.
pub open spec fn idle(vd_id: u32, actives: Seq<Panel>, online: Seq<u32>) -> Seq<Placement>
    decreases online.len(),
{
    if online.len() == 0 {
        Seq::empty()
    } else {
        let rest = idle(vd_id, actives, online.drop_last());
        let id = online.last();
        if id == vd_id || is_active(id, actives) {
            rest
        } else {
            rest.push(Placement { id, x: 0, y: 0 })
        }
    }
}

/// The physical displays to set aside: those in use, or where there are none, those
/// that are merely there.
pub open spec fn targets_of(vd_id: u32, actives: Seq<Panel>, online: Seq<u32>) -> Seq<Placement> {
    if others(vd_id, actives).len() > 0 {
        others(vd_id, actives)
    } else {
        idle(vd_id, actives, online)
    }
}

fn other_displays(vd_id: u32, actives: &Vec<Panel>) -> (out: Vec<Placement>)
    ensures
        out@ == others(vd_id, actives@),
{
    let mut out: Vec<Placement> = Vec::new();
    let mut i: usize = 0;
    assert(actives@.take(0) =~= Seq::<Panel>::empty());
    while i < actives.len()
        invariant
            i <= actives.len(),
            out@ == others(vd_id, actives@.take(i as int)),
        decreases actives.len() - i,
    {
        assert(actives@.take(i + 1).drop_last() =~= actives@.take(i as int));
        let p: Panel = actives[i];
        if p.id != vd_id {
            out.push(Placement { id: p.id, x: p.bounds.x, y: p.bounds.y });
        }
        i = i + 1;
    }
    assert(actives@.take(i as int) =~= actives@);
    out
}

fn contains_display(id: u32, actives: &Vec<Panel>) -> (r: bool)
    ensures
        r == is_active(id, actives@),
{
    let mut i: usize = 0;
    while i < actives.len()
        invariant
            i <= actives.len(),
            forall|k: int| 0 <= k < i ==> (#[trigger] actives@[k]).id != id,
        decreases actives.len() - i,
    {
        if actives[i].id == id {
            return true;
        }
        i = i + 1;
    }
    false
}

fn idle_displays(vd_id: u32, actives: &Vec<Panel>, online: &Vec<u32>) -> (out: Vec<Placement>)
    ensures
        out@ == idle(vd_id, actives@, online@),
{
    let mut out: Vec<Placement> = Vec::new();
    let mut i: usize = 0;
    assert(online@.take(0) =~= Seq::<u32>::empty());
    while i < online.len()
        invariant
            i <= online.len(),
            out@ == idle(vd_id, actives@, online@.take(i as int)),
        decreases online.len() - i,
    {
        assert(online@.take(i + 1).drop_last() =~= online@.take(i as int));
        let id: u32 = online[i];
        if id != vd_id && !contains_display(id, actives) {
            out.push(Placement { id, x: 0, y: 0 });
        }
        i = i + 1;
    }
    assert(online@.take(i as int) =~= online@);
    out
}

fn find_targets(vd_id: u32, actives: &Vec<Panel>, online: &Vec<u32>) -> (out: Vec<Placement>)
    ensures
        out@ == targets_of(vd_id, actives@, online@),
{
    let out: Vec<Placement> = other_displays(vd_id, actives);
    if out.len() > 0 {
        out
    } else {
        idle_displays(vd_id, actives, online)
    }
}

/// What a display that is set aside looks like right now.
#[derive(Debug, Clone, Copy, PartialEq, Eq, Structural)]
pub struct PanelState {
    pub active: bool,
    pub width: i32,
}

/// How far to the right the first free place is once the displays in use among the
/// first `n` were lined up behind the virtual one.
pub open spec fn offset_after(vd_width: i32, states: Seq<PanelState>, n: int) -> int
    decreases n,
{
    if n <= 0 {
        vd_width as int
    } else {
        offset_after(vd_width, states, n - 1) + (if states[n - 1].active {
            states[n - 1].width as int
        } else {
            0
        })
    }
}

/// Every place in the line is a number that the system can take.
pub open spec fn line_fits(vd_width: i32, states: Seq<PanelState>) -> bool {
    forall|n: int|
        0 <= n <= states.len() ==> i32::MIN <= #[trigger] offset_after(vd_width, states, n)
            <= i32::MAX
}

/// The placements that line up the displays in use to the right of the virtual one.
pub open spec fn lined_up(
    vd_width: i32,
    targets: Seq<Placement>,
    states: Seq<PanelState>,
    n: int,
) -> Seq<Placement>
    decreases n,
{
    if n <= 0 {
        Seq::empty()
    } else {
        let rest = lined_up(vd_width, targets, states, n - 1);
        if states[n - 1].active {
            rest.push(
                Placement {
                    id: targets[n - 1].id,
                    x: offset_after(vd_width, states, n - 1) as i32,
                    y: 0,
                },
            )
        } else {
            rest
        }
    }
}

/// The placements that make the virtual display the main one.
pub open spec fn aside(
    vd_id: u32,
    vd_width: i32,
    targets: Seq<Placement>,
    states: Seq<PanelState>,
) -> Seq<Placement> {
    seq![Placement { id: vd_id, x: 0, y: 0 }] + lined_up(
        vd_width,
        targets,
        states,
        targets.len() as int,
    )
}

fn place_aside(
    vd_id: u32,
    vd_width: i32,
    targets: &Vec<Placement>,
    states: &Vec<PanelState>,
) -> (moves: Vec<Placement>)
    requires
        states@.len() == targets@.len(),
        line_fits(vd_width, states@),
    ensures
        moves@ == aside(vd_id, vd_width, targets@, states@),
{
    let mut moves: Vec<Placement> = Vec::new();
    moves.push(Placement { id: vd_id, x: 0, y: 0 });
    let ghost head = moves@;
    let mut x_off: i32 = vd_width;
    let mut i: usize = 0;
    assert(moves@ =~= head + lined_up(vd_width, targets@, states@, 0));
    while i < targets.len()
        invariant
            i <= targets.len(),
            states@.len() == targets@.len(),
            line_fits(vd_width, states@),
            x_off == offset_after(vd_width, states@, i as int),
            moves@ == head + lined_up(vd_width, targets@, states@, i as int),
        decreases targets.len() - i,
    {
        assert(i32::MIN <= offset_after(vd_width, states@, i + 1) <= i32::MAX);
        if states[i].active {
            moves.push(Placement { id: targets[i].id, x: x_off, y: 0 });
            x_off = x_off + states[i].width;
        }
        assert(moves@ =~= head + lined_up(vd_width, targets@, states@, i + 1));
        i = i + 1;
    }
    assert(moves@ =~= aside(vd_id, vd_width, targets@, states@));
    moves
}

fn place_back(targets: &Vec<Placement>, n: usize, vd: Placement) -> (moves: Vec<Placement>)
    requires
        n <= targets@.len(),
    ensures
        moves@ == targets@.take(n as int).push(vd),
{
    let mut moves: Vec<Placement> = Vec::new();
    let mut i: usize = 0;
    while i < n
        invariant
            i <= n <= targets@.len(),
            moves@ == targets@.take(i as int),
        decreases n - i,
    {
        moves.push(targets[i]);
        assert(moves@ =~= targets@.take(i + 1));
        i = i + 1;
    }
    moves.push(vd);
    moves
}

/// The displays among the targets that are in use.
pub open spec fn in_use(targets: Seq<Placement>, states: Seq<PanelState>, n: int) -> Seq<u32>
    decreases n,
{
    if n <= 0 {
        Seq::empty()
    } else {
        let rest = in_use(targets, states, n - 1);
        if states[n - 1].active {
            rest.push(targets[n - 1].id)
        } else {
            rest
        }
    }
}

/// How often the displays are switched on again before giving up.
pub const MAX_ENABLE_ATTEMPTS: u32 = 3;

pub const ENABLE_RETRY_BACKOFF_MS: u64 = 2000;

/// What follows an attempt to switch the displays on again.
#[derive(Debug, Clone, Copy, PartialEq, Eq, Structural)]
pub enum EnableStep {
    /// They are on: put them back where they were.
    Reposition,
    RetryAfter(Duration),
    /// They stay off.
    GiveUp,
}

/// What follows attempt number `attempt`, counted from 1, to switch the displays on again.
pub open spec fn enable_step(attempt: u32, ok: bool) -> EnableStep {
    if ok {
        EnableStep::Reposition
    } else if attempt < MAX_ENABLE_ATTEMPTS {
        EnableStep::RetryAfter(
            Duration { nanos: (ENABLE_RETRY_BACKOFF_MS * crate::time::NANOS_PER_MILLI) as u128 },
        )
    } else {
        EnableStep::GiveUp
    }
}

/// Takes the note that displays were left switched off.
pub fn take_detach_reenable_failed(flag: &mut bool) -> (failed: bool)
    ensures
        failed == *old(flag),
        !*final(flag),
{
    let failed: bool = *flag;
    *flag = false;
    failed
}

/// The physical displays are switched off meanwhile.
#[derive(Debug)]
pub struct DetachedPrimary {
    vd: Placement,
    detached: Vec<Placement>,
}

impl DetachedPrimary {
    /// Where the virtual display lay.
    pub closed spec fn virtual_display(&self) -> Placement {
        self.vd
    }

    /// The displays set aside, and where they lay.
    pub closed spec fn targets(&self) -> Seq<Placement> {
        self.detached@
    }

    /// Picks the displays to switch off. `online` is looked at only where no physical
    /// display is in use.
    pub fn install(vd: Panel, actives: &Vec<Panel>, online: &Vec<u32>) -> (r: Result<
        Self,
        DisplayError,
    >)
        ensures
            r is Err <==> targets_of(vd.id, actives@, online@).len() == 0,
            r matches Err(e) ==> e == DisplayError::NoPhysicalDisplay,
            r matches Ok(d) ==> d.virtual_display() == home(vd) && d.targets() == targets_of(
                vd.id,
                actives@,
                online@,
            ),
    {
        let detached: Vec<Placement> = find_targets(vd.id, actives, online);
        if detached.len() == 0 {
            return Err(DisplayError::NoPhysicalDisplay);
        }
        Ok(
            DetachedPrimary {
                vd: Placement { id: vd.id, x: vd.bounds.x, y: vd.bounds.y },
                detached,
            },
        )
    }

    /// The placements made before the displays are switched off.
    pub fn moves(&self, vd_width: i32, states: &Vec<PanelState>) -> (moves: Vec<Placement>)
        requires
            states@.len() == self.targets().len(),
            line_fits(vd_width, states@),
        ensures
            moves@ == aside(self.virtual_display().id, vd_width, self.targets(), states@),
    {
        place_aside(self.vd.id, vd_width, &self.detached, states)
    }

    /// The displays to switch off.
    pub fn disables(&self, states: &Vec<PanelState>) -> (ids: Vec<u32>)
        requires
            states@.len() == self.targets().len(),
        ensures
            ids@ == in_use(self.targets(), states@, self.targets().len() as int),
    {
        let mut ids: Vec<u32> = Vec::new();
        let mut i: usize = 0;
        while i < self.detached.len()
            invariant
                i <= self.detached.len(),
                states@.len() == self.detached@.len(),
                ids@ == in_use(self.detached@, states@, i as int),
            decreases self.detached.len() - i,
        {
            if states[i].active {
                ids.push(self.detached[i].id);
            }
            i = i + 1;
        }
        ids
    }

    /// Goes on after attempt number `attempt`, counted from 1, to switch the displays on
    /// again. Giving up is noted in `failed`.
    pub fn on_enabled(attempt: u32, ok: bool, failed: &mut bool) -> (step: EnableStep)
        ensures
            step == enable_step(attempt, ok),
            *final(failed) == (*old(failed) || step == EnableStep::GiveUp),
    {
        if ok {
            EnableStep::Reposition
        } else if attempt < MAX_ENABLE_ATTEMPTS {
            EnableStep::RetryAfter(Duration::from_millis(ENABLE_RETRY_BACKOFF_MS))
        } else {
            *failed = true;
            EnableStep::GiveUp
        }
    }

    /// The placements that bring every display back.
    pub fn restore(&self) -> (moves: Vec<Placement>)
        ensures
            moves@ == self.targets().push(self.virtual_display()),
    {
        let moves: Vec<Placement> = place_back(&self.detached, self.detached.len(), self.vd);
        assert(self.detached@.take(self.detached@.len() as int) =~= self.detached@);
        moves
    }
}

/// The physical displays are held and blackened meanwhile.
#[derive(Debug)]
pub struct CapturedPrimary {
    vd: Placement,
    picked: Vec<Placement>,
    held: usize,
}

/// The numbers of the displays.
pub open spec fn ids_of(targets: Seq<Placement>) -> Seq<u32> {
    targets.map_values(|t: Placement| t.id)
}

fn first_ids(targets: &Vec<Placement>, n: usize) -> (ids: Vec<u32>)
    requires
        n <= targets@.len(),
    ensures
        ids@ == ids_of(targets@.take(n as int)),
{
    let mut ids: Vec<u32> = Vec::new();
    let mut i: usize = 0;
    while i < n
        invariant
            i <= n <= targets@.len(),
            ids@ == ids_of(targets@.take(i as int)),
        decreases n - i,
    {
        ids.push(targets[i].id);
        assert(ids@ =~= ids_of(targets@.take(i + 1)));
        i = i + 1;
    }
    ids
}

/// How many of the attempts failed.
pub open spec fn failures(ok: Seq<bool>) -> nat
    decreases ok.len(),
{
    if ok.len() == 0 {
        0
    } else {
        failures(ok.drop_last()) + (if ok.last() {
            0nat
        } else {
            1nat
        })
    }
}

impl CapturedPrimary {
    /// Where the virtual display lay.
    pub closed spec fn virtual_display(&self) -> Placement {
        self.vd
    }

    /// The displays to hold, and where they lay.
    pub closed spec fn targets(&self) -> Seq<Placement> {
        self.picked@
    }

    /// How many of them are held so far.
    pub closed spec fn held_count(&self) -> nat {
        self.held as nat
    }

    pub open spec fn wf(&self) -> bool {
        self.held_count() <= self.targets().len()
    }

    /// The displays that are held, and where they lay.
    pub open spec fn captured(&self) -> Seq<Placement> {
        self.targets().take(self.held_count() as int)
    }

    /// Picks the displays to hold: every one in use but the virtual one.
    pub fn install(vd: Panel, actives: &Vec<Panel>) -> (r: Result<Self, DisplayError>)
        ensures
            r is Err <==> others(vd.id, actives@).len() == 0,
            r matches Err(e) ==> e == DisplayError::NoPhysicalDisplay,
            r matches Ok(c) ==> c.wf() && c.virtual_display() == home(vd) && c.targets() == others(
                vd.id,
                actives@,
            ) && c.held_count() == 0,
    {
        let picked: Vec<Placement> = other_displays(vd.id, actives);
        if picked.len() == 0 {
            return Err(DisplayError::NoPhysicalDisplay);
        }
        Ok(
            CapturedPrimary {
                vd: Placement { id: vd.id, x: vd.bounds.x, y: vd.bounds.y },
                picked,
                held: 0,
            },
        )
    }

    /// The placements made before the displays are held.
    pub fn moves(&self, vd_width: i32, states: &Vec<PanelState>) -> (moves: Vec<Placement>)
        requires
            states@.len() == self.targets().len(),
            line_fits(vd_width, states@),
        ensures
            moves@ == aside(self.virtual_display().id, vd_width, self.targets(), states@),
    {
        place_aside(self.vd.id, vd_width, &self.picked, states)
    }

    /// The display to ask for next; none when all are held.
    pub fn next_capture(&self) -> (r: Option<u32>)
        requires
            self.wf(),
        ensures
            r is None <==> self.held_count() == self.targets().len(),
            r matches Some(id) ==> id == self.targets()[self.held_count() as int].id,
    {
        if self.held == self.picked.len() {
            None
        } else {
            Some(self.picked[self.held].id)
        }
    }

    /// The display asked for was handed over, or refused. After a refusal those held so
    /// far are to be let go, and come with the error.
    pub fn on_capture(&mut self, ok: bool) -> (r: Result<(), (DisplayError, Vec<u32>)>)
        requires
            old(self).wf(),
            old(self).held_count() < old(self).targets().len(),
        ensures
            final(self).wf(),
            final(self).virtual_display() == old(self).virtual_display(),
            final(self).targets() == old(self).targets(),
            ok ==> r is Ok && final(self).held_count() == old(self).held_count() + 1,
            !ok ==> final(self).held_count() == 0 && (r matches Err((e, release)) && e
                == (DisplayError::CaptureRefused {
                id: old(self).targets()[old(self).held_count() as int].id,
            }) && release@ == ids_of(old(self).captured())),
    {
        if ok {
            assert(self.held < self.picked.len());
            self.held = self.held + 1;
            return Ok(());
        }
        let id: u32 = self.picked[self.held].id;
        let release: Vec<u32> = first_ids(&self.picked, self.held);
        self.held = 0;
        Err((DisplayError::CaptureRefused { id }, release))
    }

    /// The displays to blacken, and to let go in the end.
    pub fn captured_ids(&self) -> (ids: Vec<u32>)
        requires
            self.wf(),
        ensures
            ids@ == ids_of(self.captured()),
    {
        first_ids(&self.picked, self.held)
    }

    /// How many displays could not be blackened again, told how each attempt went.
    pub fn reassert_blanking(&self, blackened: &Vec<bool>) -> (failed: usize)
        ensures
            failed == failures(blackened@),
    {
        let mut failed: usize = 0;
        let mut i: usize = 0;
        assert(blackened@.take(0) =~= Seq::<bool>::empty());
        while i < blackened.len()
            invariant
                i <= blackened.len(),
                failed <= i,
                failed == failures(blackened@.take(i as int)),
            decreases blackened.len() - i,
        {
            assert(blackened@.take(i + 1).drop_last() =~= blackened@.take(i as int));
            if !blackened[i] {
                failed = failed + 1;
            }
            i = i + 1;
        }
        assert(blackened@.take(i as int) =~= blackened@);
        failed
    }

    /// The placements that bring the displays back.
    pub fn restore(&self) -> (moves: Vec<Placement>)
        requires
            self.wf(),
        ensures
            moves@ == self.captured().push(self.virtual_display()),
    {
        place_back(&self.picked, self.held, self.vd)
    }
}

/// The text switches the default off.
pub open spec fn keeps_physical_main(v: Option<Seq<char>>) -> bool {
    match v {
        Some(s) => s != "0"@ && crate::text::lowered(s) != "false"@ && s != ""@,
        None => true,
    }
}

/// Whether a covered physical display stays the main one.
pub fn shield_keeps_physical_main(env: &Environment) -> (r: bool)
    ensures
        r == keeps_physical_main(env.value("MACRDP_SHIELD_KEEP_PHYSICAL_MAIN"@)),
{
    match env.get("MACRDP_SHIELD_KEEP_PHYSICAL_MAIN") {
        Some(v) => {
            let low: Vec<char> = lower(&chars_of(v));
            !same_text(v, "0") && !same(&low, "false") && !same_text(v, "")
        },
        None => true,
    }
}

/// How long to wait after each attempt to raise the covers, in milliseconds. One more
/// attempt follows the last wait.
pub open spec fn show_backoff(attempt: int) -> int {
    if attempt == 0 {
        300
    } else if attempt == 1 {
        500
    } else if attempt == 2 {
        800
    } else if attempt == 3 {
        1200
    } else if attempt == 4 {
        1600
    } else {
        2000
    }
}

pub const SHOW_WAITS: usize = 6;

/// What an attempt to raise the covers leads to.
#[derive(Debug)]
pub enum ShowStep {
    /// Every display is covered.
    Raised,
    RetryAfter(Duration),
    /// Not every display could be covered: the displays are not set aside, and what was
    /// done so far is undone. The helper is sent the frame `hide`, then the displays
    /// `remirror` mirror the virtual one again.
    Refuse { hide: Vec<u8>, remirror: Vec<u32> },
}

/// What undoes covers that are up: the frame for the helper, then the displays that mirror
/// the virtual one again.
#[derive(Debug)]
pub struct Undo {
    pub hide: Vec<u8>,
    pub remirror: Vec<u32>,
}

/// Windows are gathered onto a display, twice: after the first wait, and after the second
/// again.
#[derive(Debug, Clone, Copy, PartialEq, Eq, Structural)]
pub struct Gather {
    pub display: u32,
    pub first_wait: Duration,
    pub second_wait: Duration,
}

/// The physical displays are covered by black windows meanwhile.
#[derive(Debug)]
pub struct ShieldedPrimary {
    vd: Placement,
    shielded: Vec<Placement>,
    moved_arrangement: bool,
    broke_mirror: Vec<u32>,
    displaced: bool,
}

/// The targets that show the same picture as the virtual display.
pub open spec fn mirrors_of(vd_id: u32, targets: Seq<Placement>, masters: Seq<u32>, n: int) -> Seq<
    u32,
>
    decreases n,
{
    if n <= 0 {
        Seq::empty()
    } else {
        let rest = mirrors_of(vd_id, targets, masters, n - 1);
        if masters[n - 1] == vd_id {
            rest.push(targets[n - 1].id)
        } else {
            rest
        }
    }
}

/// Where the displays go that no longer mirror: side by side, each taking up at least
/// one point.
pub open spec fn spread_offset(vd_width: i32, widths: Seq<i32>, n: int) -> int
    decreases n,
{
    if n <= 0 {
        vd_width as int
    } else {
        spread_offset(vd_width, widths, n - 1) + (if widths[n - 1] < 1 {
            1
        } else {
            widths[n - 1] as int
        })
    }
}

pub open spec fn spread_fits(vd_width: i32, widths: Seq<i32>) -> bool {
    forall|n: int|
        0 <= n <= widths.len() ==> i32::MIN <= #[trigger] spread_offset(vd_width, widths, n)
            <= i32::MAX
}

pub open spec fn spread(vd_id: u32, vd_width: i32, ids: Seq<u32>, widths: Seq<i32>) -> Seq<
    Placement,
> {
    seq![Placement { id: vd_id, x: 0, y: 0 }] + Seq::new(
        ids.len(),
        |i: int| Placement { id: ids[i], x: spread_offset(vd_width, widths, i) as i32, y: 0 },
    )
}

impl ShieldedPrimary {
    /// Where the virtual display lay.
    pub closed spec fn virtual_display(&self) -> Placement {
        self.vd
    }

    /// The displays to cover, and where they lay.
    pub closed spec fn targets(&self) -> Seq<Placement> {
        self.shielded@
    }

    /// The displays that mirrored the virtual one.
    pub closed spec fn broken(&self) -> Seq<u32> {
        self.broke_mirror@
    }

    /// The virtual display was made the main one.
    pub closed spec fn moved(&self) -> bool {
        self.moved_arrangement
    }

    /// The displays that no longer mirror were taken off the virtual one's place.
    pub closed spec fn displaced(&self) -> bool {
        self.displaced
    }

    /// Nothing but whether displays were moved differs from `other`.
    pub open spec fn same_displays(&self, other: &ShieldedPrimary) -> bool {
        &&& self.virtual_display() == other.virtual_display()
        &&& self.targets() == other.targets()
        &&& self.broken() == other.broken()
    }

    /// Picks the displays to cover. `online` is looked at only where no physical display
    /// is in use.
    pub fn install(vd: Panel, actives: &Vec<Panel>, online: &Vec<u32>) -> (r: Result<
        Self,
        DisplayError,
    >)
        ensures
            r is Err <==> targets_of(vd.id, actives@, online@).len() == 0,
            r matches Err(e) ==> e == DisplayError::NoPhysicalDisplay,
            r matches Ok(s) ==> {
                &&& s.virtual_display() == home(vd)
                &&& s.targets() == targets_of(vd.id, actives@, online@)
                &&& s.broken() == Seq::<u32>::empty()
                &&& !s.moved()
                &&& !s.displaced()
            },
    {
        let shielded: Vec<Placement> = find_targets(vd.id, actives, online);
        if shielded.len() == 0 {
            return Err(DisplayError::NoPhysicalDisplay);
        }
        Ok(
            ShieldedPrimary {
                vd: Placement { id: vd.id, x: vd.bounds.x, y: vd.bounds.y },
                shielded,
                moved_arrangement: false,
                broke_mirror: Vec::new(),
                displaced: false,
            },
        )
    }

    /// Told which display each target mirrors, notes those that mirror the virtual one:
    /// they are to stop. They are told to the caller too.
    pub fn break_mirrors(&mut self, masters: &Vec<u32>) -> (ids: Vec<u32>)
        requires
            masters@.len() == old(self).targets().len(),
        ensures
            ids@ == mirrors_of(
                old(self).virtual_display().id,
                old(self).targets(),
                masters@,
                masters@.len() as int,
            ),
            final(self).broken() == ids@,
            final(self).virtual_display() == old(self).virtual_display(),
            final(self).targets() == old(self).targets(),
            final(self).moved() == old(self).moved(),
            final(self).displaced() == old(self).displaced(),
    {
        let mut ids: Vec<u32> = Vec::new();
        let mut copy: Vec<u32> = Vec::new();
        let mut i: usize = 0;
        while i < masters.len()
            invariant
                i <= masters.len(),
                masters@.len() == self.shielded@.len(),
                ids@ == mirrors_of(self.vd.id, self.shielded@, masters@, i as int),
                copy@ == ids@,
            decreases masters.len() - i,
        {
            if masters[i] == self.vd.id {
                ids.push(self.shielded[i].id);
                copy.push(self.shielded[i].id);
            }
            i = i + 1;
        }
        self.broke_mirror = copy;
        ids
    }

    /// The placements that take the displays that no longer mirror off the virtual one's
    /// place, told how wide each is.
    pub fn displace(&self, vd_width: i32, widths: &Vec<i32>) -> (moves: Vec<Placement>)
        requires
            widths@.len() == self.broken().len(),
            spread_fits(vd_width, widths@),
        ensures
            moves@ == spread(self.virtual_display().id, vd_width, self.broken(), widths@),
    {
        let mut moves: Vec<Placement> = Vec::new();
        moves.push(Placement { id: self.vd.id, x: 0, y: 0 });
        let ghost all = spread(self.vd.id, vd_width, self.broke_mirror@, widths@);
        let mut x_off: i32 = vd_width;
        let mut i: usize = 0;
        assert(moves@ =~= all.take(1));
        while i < widths.len()
            invariant
                i <= widths.len(),
                widths@.len() == self.broke_mirror@.len(),
                spread_fits(vd_width, widths@),
                x_off == spread_offset(vd_width, widths@, i as int),
                all == spread(self.vd.id, vd_width, self.broke_mirror@, widths@),
                moves@ == all.take(i + 1),
            decreases widths.len() - i,
        {
            assert(i32::MIN <= spread_offset(vd_width, widths@, i + 1) <= i32::MAX);
            moves.push(Placement { id: self.broke_mirror[i], x: x_off, y: 0 });
            let step: i32 = if widths[i] < 1 {
                1
            } else {
                widths[i]
            };
            x_off = x_off + step;
            assert(moves@ =~= all.take(i + 2));
            i = i + 1;
        }
        assert(all.take(i + 1) =~= all);
        moves
    }

    /// Told whether the displays stopped mirroring. A display that shows the virtual one's
    /// picture cannot be covered, so if they did not, the displays are not set aside; no
    /// cover is up yet.
    pub fn on_unmirrored(&self, ok: bool) -> (r: Result<(), DisplayError>)
        ensures
            r is Ok <==> ok,
            r matches Err(e) ==> e == DisplayError::StillMirrored,
    {
        if ok {
            Ok(())
        } else {
            Err(DisplayError::StillMirrored)
        }
    }

    /// Told whether those placements were made. If they were not, the covers are raised
    /// all the same.
    pub fn on_displaced(&mut self, ok: bool)
        ensures
            final(self).displaced() == ok,
            final(self).moved() == old(self).moved(),
            final(self).same_displays(old(self)),
    {
        self.displaced = ok;
    }

    /// The displays that the helper is told to leave uncovered, whenever it is told to
    /// raise the covers or to fit them again: the virtual one alone.
    pub fn show_ids(&self) -> (ids: Vec<u32>)
        ensures
            ids@ == seq![self.virtual_display().id],
    {
        let mut ids: Vec<u32> = Vec::new();
        ids.push(self.vd.id);
        assert(ids@ =~= seq![self.vd.id]);
        ids
    }

    /// Goes on after attempt number `attempt`, counted from 0, to raise the covers.
    /// `covered` is how many displays the helper reports as covered, where it answered.
    pub fn on_show(&self, attempt: usize, covered: Option<u16>) -> (step: ShowStep)
        ensures
            ({
                let raised = covered is Some && covered->0 >= self.targets().len();
                &&& raised ==> step == ShowStep::Raised
                &&& !raised && attempt < SHOW_WAITS ==> (step matches ShowStep::RetryAfter(d) && d@
                    == show_backoff(attempt as int) * crate::time::NANOS_PER_MILLI)
                &&& !raised && attempt >= SHOW_WAITS ==> (step matches ShowStep::Refuse {
                    hide,
                    remirror,
                } && hide@ == seq![3u8] && remirror@ == self.broken())
            }),
    {
        if let Some(n) = covered {
            if n as usize >= self.shielded.len() {
                return ShowStep::Raised;
            }
        }
        if attempt >= SHOW_WAITS {
            return ShowStep::Refuse { hide: hide_all(), remirror: self.remirror() };
        }
        let ms: u64 = if attempt == 0 {
            300
        } else if attempt == 1 {
            500
        } else if attempt == 2 {
            800
        } else if attempt == 3 {
            1200
        } else if attempt == 4 {
            1600
        } else {
            2000
        };
        ShowStep::RetryAfter(Duration::from_millis(ms))
    }

    /// The placements made once the covers are up, where the virtual display is to be
    /// the main one; none where a physical display stays it.
    pub fn moves(&self, keep_physical_main: bool, vd_width: i32, states: &Vec<PanelState>) -> (r:
        Option<Vec<Placement>>)
        requires
            states@.len() == self.targets().len(),
            line_fits(vd_width, states@),
        ensures
            r is None <==> keep_physical_main,
            r matches Some(moves) ==> moves@ == aside(
                self.virtual_display().id,
                vd_width,
                self.targets(),
                states@,
            ),
    {
        if keep_physical_main {
            return None;
        }
        Some(place_aside(self.vd.id, vd_width, &self.shielded, states))
    }

    /// Told whether the placements were made once the covers are up. If they were not,
    /// the displays are not set aside, and the covers come down again.
    pub fn on_arranged(&mut self, ok: bool) -> (r: Option<Undo>)
        ensures
            ok ==> r is None && final(self).moved(),
            !ok ==> (r matches Some(u) && u.hide@ == seq![3u8] && u.remirror@ == old(
                self,
            ).broken()) && !final(self).moved(),
            final(self).displaced() == old(self).displaced(),
            final(self).same_displays(old(self)),
    {
        self.moved_arrangement = ok;
        if ok {
            None
        } else {
            Some(Undo { hide: hide_all(), remirror: self.remirror() })
        }
    }

    /// The last step, once nothing can fail any more: windows that went along with a
    /// displaced display are gathered onto the virtual one. Where none was displaced, no
    /// window is moved.
    pub fn gather(&self) -> (r: Option<Gather>)
        ensures
            r is Some <==> self.displaced(),
            r matches Some(g) ==> g.display == self.virtual_display().id && g.first_wait@ == 900
                * crate::time::NANOS_PER_MILLI && g.second_wait@ == 1000
                * crate::time::NANOS_PER_MILLI,
    {
        if self.displaced {
            Some(
                Gather {
                    display: self.vd.id,
                    first_wait: Duration::from_millis(900),
                    second_wait: Duration::from_millis(1000),
                },
            )
        } else {
            None
        }
    }

    /// What takes the covers away at the end, before the displays are brought back.
    pub fn lower(&self) -> (u: Undo)
        ensures
            u.hide@ == seq![3u8],
            u.remirror@ == self.broken(),
    {
        Undo { hide: hide_all(), remirror: self.remirror() }
    }

    /// The displays that are to mirror the virtual one again, when the covers are taken
    /// away or could not be raised.
    pub fn remirror(&self) -> (ids: Vec<u32>)
        ensures
            ids@ == self.broken(),
    {
        let mut ids: Vec<u32> = Vec::new();
        let mut i: usize = 0;
        while i < self.broke_mirror.len()
            invariant
                i <= self.broke_mirror.len(),
                ids@ == self.broke_mirror@.take(i as int),
            decreases self.broke_mirror.len() - i,
        {
            ids.push(self.broke_mirror[i]);
            assert(ids@ =~= self.broke_mirror@.take(i + 1));
            i = i + 1;
        }
        assert(self.broke_mirror@.take(i as int) =~= self.broke_mirror@);
        ids
    }

    /// The placements that bring the displays back; none where nothing was moved.
    pub fn restore(&self) -> (moves: Vec<Placement>)
        ensures
            moves@ == (if self.moved() {
                self.targets().push(self.virtual_display())
            } else {
                Seq::empty()
            }),
    {
        if !self.moved_arrangement {
            return Vec::new();
        }
        let moves: Vec<Placement> = place_back(&self.shielded, self.shielded.len(), self.vd);
        assert(self.shielded@.take(self.shielded@.len() as int) =~= self.shielded@);
        moves
    }

    /// The covers outlast a change of the displays, so none has to be counted as lost;
    /// with that comes the display that the helper is told of again.
    pub fn reassert_blanking(&self) -> (r: (usize, u32))
        ensures
            r == (0usize, self.virtual_display().id),
    {
        (0, self.vd.id)
    }
}

/// The display lies at its place in the layout.
pub open spec fn at_home(layout: Map<u32, (i32, i32)>, p: Placement) -> bool {
    layout.contains_key(p.id) && layout[p.id] == (p.x, p.y)
}

/// One of the displays, or the virtual one, has this number.
pub open spec fn known_display(id: u32, targets: Seq<Placement>, vd: Placement) -> bool {
    id == vd.id || exists|i: int| 0 <= i < targets.len() && (#[trigger] targets[i]).id == id
}

/// Moves leave every display that they do not name where it is.
proof fn lemma_moves_touch_only_their_own(
    layout: Map<u32, (i32, i32)>,
    moves: Seq<Placement>,
    id: u32,
)
    requires
        forall|k: int| 0 <= k < moves.len() ==> (#[trigger] moves[k]).id != id,
    ensures
        arranged(layout, moves).contains_key(id) == layout.contains_key(id),
        layout.contains_key(id) ==> arranged(layout, moves)[id] == layout[id],
    decreases moves.len(),
{
    if moves.len() > 0 {
        assert(moves[moves.len() - 1].id != id);
        assert forall|k: int| 0 <= k < moves.drop_last().len() implies (
        #[trigger] moves.drop_last()[k]).id != id by {
            assert(moves[k].id != id);
        }
        lemma_moves_touch_only_their_own(layout, moves.drop_last(), id);
    }
}

/// A display that is put to one place, however often, ends there.
proof fn lemma_moves_end_at_home(
    layout: Map<u32, (i32, i32)>,
    moves: Seq<Placement>,
    home: Map<u32, (i32, i32)>,
    id: u32,
)
    requires
        exists|k: int| 0 <= k < moves.len() && (#[trigger] moves[k]).id == id,
        forall|k: int| 0 <= k < moves.len() ==> at_home(home, #[trigger] moves[k]),
    ensures
        arranged(layout, moves).contains_key(id),
        arranged(layout, moves)[id] == home[id],
    decreases moves.len(),
{
    let last = moves[moves.len() - 1];
    assert(at_home(home, last));
    if last.id != id {
        let front = moves.drop_last();
        let k = choose|k: int| 0 <= k < moves.len() && (#[trigger] moves[k]).id == id;
        assert(front[k].id == id);
        assert forall|j: int| 0 <= j < front.len() implies at_home(home, #[trigger] front[j]) by {
            assert(at_home(home, moves[j]));
        }
        lemma_moves_end_at_home(layout, front, home, id);
    }
}

proof fn lemma_round_trip(
    layout: Map<u32, (i32, i32)>,
    moves: Seq<Placement>,
    targets: Seq<Placement>,
    vd: Placement,
)
    requires
        at_home(layout, vd),
        forall|i: int| 0 <= i < targets.len() ==> at_home(layout, #[trigger] targets[i]),
        forall|k: int| 0 <= k < moves.len() ==> known_display((#[trigger] moves[k]).id, targets, vd),
    ensures
        arranged(arranged(layout, moves), targets.push(vd)) == layout,
{
    let back = targets.push(vd);
    let there = arranged(layout, moves);
    let again = arranged(there, back);
    assert forall|id: u32|
        #![trigger again.contains_key(id)]
        again.contains_key(id) == layout.contains_key(id) && (layout.contains_key(id) ==> again[id]
            == layout[id]) by {
        if known_display(id, targets, vd) {
            if id == vd.id {
                assert(back[targets.len() as int].id == id);
            } else {
                let i = choose|i: int| 0 <= i < targets.len() && (#[trigger] targets[i]).id == id;
                assert(back[i].id == id);
            }
            assert forall|k: int| 0 <= k < back.len() implies at_home(layout, #[trigger] back[k]) by {
                if k < targets.len() {
                    assert(at_home(layout, targets[k]));
                }
            }
            lemma_moves_end_at_home(there, back, layout, id);
            let k = choose|k: int| 0 <= k < back.len() && (#[trigger] back[k]).id == id;
            assert(at_home(layout, back[k]));
        } else {
            assert forall|k: int| 0 <= k < back.len() implies (#[trigger] back[k]).id != id by {
                if k < targets.len() {
                    assert(targets[k].id != id);
                }
            }
            assert forall|k: int| 0 <= k < moves.len() implies (#[trigger] moves[k]).id != id by {
                assert(known_display(moves[k].id, targets, vd));
            }
            lemma_moves_touch_only_their_own(there, back, id);
            lemma_moves_touch_only_their_own(layout, moves, id);
        }
    }
    assert(again =~= layout);
}

proof fn lemma_lined_up_are_targets(
    vd_width: i32,
    targets: Seq<Placement>,
    states: Seq<PanelState>,
    n: int,
    k: int,
)
    requires
        0 <= n <= targets.len(),
        0 <= k < lined_up(vd_width, targets, states, n).len(),
    ensures
        exists|i: int|
            0 <= i < targets.len() && (#[trigger] targets[i]).id == lined_up(
                vd_width,
                targets,
                states,
                n,
            )[k].id,
    decreases n,
{
    if n > 0 {
        let rest = lined_up(vd_width, targets, states, n - 1);
        if k < rest.len() {
            lemma_lined_up_are_targets(vd_width, targets, states, n - 1, k);
        } else {
            assert(targets[n - 1].id == lined_up(vd_width, targets, states, n)[k].id);
        }
    }
}

/// Setting the displays aside and bringing them back leaves every display where it was.
pub proof fn restoring_undoes_setting_aside(
    layout: Map<u32, (i32, i32)>,
    vd: Placement,
    vd_width: i32,
    targets: Seq<Placement>,
    states: Seq<PanelState>,
)
    requires
        at_home(layout, vd),
        forall|i: int| 0 <= i < targets.len() ==> at_home(layout, #[trigger] targets[i]),
    ensures
        arranged(
            arranged(layout, aside(vd.id, vd_width, targets, states)),
            targets.push(vd),
        ) == layout,
{
    let moves = aside(vd.id, vd_width, targets, states);
    let line = lined_up(vd_width, targets, states, targets.len() as int);
    assert forall|k: int| 0 <= k < moves.len() implies known_display(
        (#[trigger] moves[k]).id,
        targets,
        vd,
    ) by {
        if k > 0 {
            assert(moves[k] == line[k - 1]);
            lemma_lined_up_are_targets(vd_width, targets, states, targets.len() as int, k - 1);
        }
    }
    lemma_round_trip(layout, moves, targets, vd);
}

/// Making the virtual display the main one and undoing that leaves every display where
/// it was.
pub proof fn restoring_undoes_the_override(layout: Map<u32, (i32, i32)>, vd: Panel, main: Panel)
    requires
        vd.id != main.id,
        at_home(layout, home(vd)),
        at_home(layout, home(main)),
    ensures
        arranged(
            arranged(
                layout,
                seq![
                    Placement { id: vd.id, x: 0, y: 0 },
                    Placement { id: main.id, x: vd.bounds.width, y: 0 },
                ],
            ),
            seq![home(main), home(vd)],
        ) == layout,
{
    let moves = seq![
        Placement { id: vd.id, x: 0, y: 0 },
        Placement { id: main.id, x: vd.bounds.width, y: 0 },
    ];
    let targets = seq![home(main)];
    assert(targets[0].id == main.id);
    lemma_round_trip(layout, moves, targets, home(vd));
    assert(targets.push(home(vd)) =~= seq![home(main), home(vd)]);
}

proof fn lemma_others_leave_out(vd_id: u32, actives: Seq<Panel>, k: int)
    requires
        0 <= k < others(vd_id, actives).len(),
    ensures
        others(vd_id, actives)[k].id != vd_id,
    decreases actives.len(),
{
    if actives.len() > 0 && k < others(vd_id, actives.drop_last()).len() {
        lemma_others_leave_out(vd_id, actives.drop_last(), k);
    }
}

proof fn lemma_idle_leave_out(vd_id: u32, actives: Seq<Panel>, online: Seq<u32>, k: int)
    requires
        0 <= k < idle(vd_id, actives, online).len(),
    ensures
        idle(vd_id, actives, online)[k].id != vd_id,
    decreases online.len(),
{
    if online.len() > 0 && k < idle(vd_id, actives, online.drop_last()).len() {
        lemma_idle_leave_out(vd_id, actives, online.drop_last(), k);
    }
}

/// Setting the physical displays aside never touches the virtual one but to make it the
/// main display, at the origin.
pub proof fn the_virtual_display_becomes_main(
    layout: Map<u32, (i32, i32)>,
    vd_id: u32,
    vd_width: i32,
    actives: Seq<Panel>,
    online: Seq<u32>,
    states: Seq<PanelState>,
)
    ensures
        ({
            let targets = targets_of(vd_id, actives, online);
            let after = arranged(layout, aside(vd_id, vd_width, targets, states));
            &&& forall|i: int| 0 <= i < targets.len() ==> (#[trigger] targets[i]).id != vd_id
            &&& after.contains_key(vd_id)
            &&& after[vd_id] == (0i32, 0i32)
        }),
{
    let targets = targets_of(vd_id, actives, online);
    assert forall|i: int| 0 <= i < targets.len() implies (#[trigger] targets[i]).id != vd_id by {
        if others(vd_id, actives).len() > 0 {
            lemma_others_leave_out(vd_id, actives, i);
        } else {
            lemma_idle_leave_out(vd_id, actives, online, i);
        }
    }
    let line = lined_up(vd_width, targets, states, targets.len() as int);
    let first = Placement { id: vd_id, x: 0, y: 0 };
    assert forall|k: int| 0 <= k < line.len() implies (#[trigger] line[k]).id != vd_id by {
        lemma_lined_up_are_targets(vd_width, targets, states, targets.len() as int, k);
    }
    lemma_arranged_in_two_parts(layout, seq![first], line);
    assert(seq![first].drop_last() =~= Seq::<Placement>::empty());
    assert(arranged(layout, seq![first].drop_last()) == layout);
    lemma_moves_touch_only_their_own(arranged(layout, seq![first]), line, vd_id);
}

proof fn lemma_arranged_in_two_parts(
    layout: Map<u32, (i32, i32)>,
    a: Seq<Placement>,
    b: Seq<Placement>,
)
    ensures
        arranged(layout, a + b) == arranged(arranged(layout, a), b),
    decreases b.len(),
{
    if b.len() == 0 {
        assert(a + b =~= a);
    } else {
        assert((a + b).drop_last() =~= a + b.drop_last());
        lemma_arranged_in_two_parts(layout, a, b.drop_last());
    }
}

/// Displays in use that are set aside stand side by side to the right of the virtual
/// one: none overlaps another.
pub proof fn displays_stand_side_by_side(
    vd_width: i32,
    states: Seq<PanelState>,
    i: int,
    j: int,
)
    requires
        0 <= i < j <= states.len(),
        states[i].active,
        forall|k: int| 0 <= k < states.len() ==> (#[trigger] states[k]).width >= 0,
    ensures
        vd_width <= offset_after(vd_width, states, i),
        offset_after(vd_width, states, i) + states[i].width <= offset_after(vd_width, states, j),
{
    lemma_offsets_grow(vd_width, states, 0, i);
    lemma_offsets_grow(vd_width, states, i + 1, j);
}

proof fn lemma_offsets_grow(vd_width: i32, states: Seq<PanelState>, i: int, j: int)
    requires
        0 <= i <= j <= states.len(),
        forall|k: int| 0 <= k < states.len() ==> (#[trigger] states[k]).width >= 0,
    ensures
        offset_after(vd_width, states, i) <= offset_after(vd_width, states, j),
    decreases j,
{
    if i < j {
        lemma_offsets_grow(vd_width, states, i, j - 1);
        assert(states[j - 1].width >= 0);
    }
}

/// A size is there once both sides are as asked for, each by itself. Until then the system is
/// asked every twentieth of a second, for three seconds.
pub proof fn sizes_are_waited_for(width: u32, height: u32, bounds: Bounds, waited: nat)
    requires
        bounds.width >= 0,
        bounds.height >= 0,
    ensures
        resize_step(width, height, bounds, waited) is Done <==> bounds.width == width && bounds.height
            == height,
        (bounds.width != width || bounds.height != height) && waited < 3_000_000_000 ==> resize_step(
            width,
            height,
            bounds,
            waited,
        ) == ResizeStep::Wait(Duration { nanos: 50_000_000 }),
        (bounds.width != width || bounds.height != height) && waited >= 3_000_000_000 ==> resize_step(
            width,
            height,
            bounds,
            waited,
        ) is TimedOut,
{
}

/// Displays are switched on again in up to three attempts, two seconds apart.
pub proof fn displays_are_switched_on_in_three_attempts(attempt: u32)
    ensures
        enable_step(attempt, true) is Reposition,
        attempt < 3 ==> enable_step(attempt, false) == EnableStep::RetryAfter(
            Duration { nanos: 2_000_000_000 },
        ),
        attempt >= 3 ==> enable_step(attempt, false) is GiveUp,
{
}

/// Every physical display in use is set aside, with the place where it lies, and the virtual
/// one never is.
pub proof fn displays_in_use_are_set_aside(
    vd_id: u32,
    actives: Seq<Panel>,
    online: Seq<u32>,
    i: int,
    k: int,
)
    ensures
        0 <= i < actives.len() && actives[i].id != vd_id ==> targets_of(vd_id, actives, online).contains(
            Placement { id: actives[i].id, x: actives[i].bounds.x, y: actives[i].bounds.y },
        ),
        0 <= k < targets_of(vd_id, actives, online).len() ==> targets_of(vd_id, actives, online)[k].id
            != vd_id,
{
    lemma_others_hold(vd_id, actives, i);
    let t = others(vd_id, actives);
    if 0 <= i < actives.len() && actives[i].id != vd_id {
        let j = choose|j: int| 0 <= j < t.len() && t[j] == home(actives[i]);
        assert(t[j] == home(actives[i]));
    }
    if t.len() > 0 {
        lemma_others_name_no_virtual(vd_id, actives, k);
    } else {
        lemma_idle_name_no_virtual(vd_id, actives, online, k);
    }
}

proof fn lemma_others_hold(vd_id: u32, actives: Seq<Panel>, i: int)
    ensures
        0 <= i < actives.len() && actives[i].id != vd_id ==> others(vd_id, actives).contains(
            home(actives[i]),
        ),
    decreases actives.len(),
{
    if 0 <= i < actives.len() && actives[i].id != vd_id {
        let front = actives.drop_last();
        let rest = others(vd_id, front);
        if i < front.len() {
            assert(front[i] == actives[i]);
            lemma_others_hold(vd_id, front, i);
            let j = choose|j: int| 0 <= j < rest.len() && rest[j] == home(actives[i]);
            assert(others(vd_id, actives)[j] == home(actives[i]));
        } else {
            let all = others(vd_id, actives);
            assert(all[all.len() - 1] == home(actives[i]));
        }
    }
}

proof fn lemma_others_name_no_virtual(vd_id: u32, actives: Seq<Panel>, k: int)
    ensures
        0 <= k < others(vd_id, actives).len() ==> others(vd_id, actives)[k].id != vd_id,
    decreases actives.len(),
{
    if actives.len() > 0 {
        lemma_others_name_no_virtual(vd_id, actives.drop_last(), k);
    }
}

proof fn lemma_idle_name_no_virtual(vd_id: u32, actives: Seq<Panel>, online: Seq<u32>, k: int)
    ensures
        0 <= k < idle(vd_id, actives, online).len() ==> idle(vd_id, actives, online)[k].id != vd_id,
    decreases online.len(),
{
    if online.len() > 0 {
        lemma_idle_name_no_virtual(vd_id, actives, online.drop_last(), k);
    }
}

/// With no physical display in use, those that are merely there are set aside.
pub proof fn idle_displays_are_set_aside_too(
    vd_id: u32,
    actives: Seq<Panel>,
    online: Seq<u32>,
    i: int,
)
    requires
        forall|k: int| 0 <= k < actives.len() ==> (#[trigger] actives[k]).id == vd_id,
        0 <= i < online.len(),
        online[i] != vd_id,
    ensures
        targets_of(vd_id, actives, online).contains(Placement { id: online[i], x: 0, y: 0 }),
{
    lemma_no_others(vd_id, actives);
    lemma_idle_hold(vd_id, actives, online, i);
}

proof fn lemma_no_others(vd_id: u32, actives: Seq<Panel>)
    requires
        forall|k: int| 0 <= k < actives.len() ==> (#[trigger] actives[k]).id == vd_id,
    ensures
        others(vd_id, actives).len() == 0,
    decreases actives.len(),
{
    if actives.len() > 0 {
        let front = actives.drop_last();
        assert forall|k: int| 0 <= k < front.len() implies (#[trigger] front[k]).id == vd_id by {
            assert(front[k] == actives[k]);
        }
        assert(actives[actives.len() - 1].id == vd_id);
        lemma_no_others(vd_id, front);
    }
}

proof fn lemma_idle_hold(vd_id: u32, actives: Seq<Panel>, online: Seq<u32>, i: int)
    requires
        forall|k: int| 0 <= k < actives.len() ==> (#[trigger] actives[k]).id == vd_id,
        0 <= i < online.len(),
        online[i] != vd_id,
    ensures
        idle(vd_id, actives, online).contains(Placement { id: online[i], x: 0, y: 0 }),
    decreases online.len(),
{
    let front = online.drop_last();
    let rest = idle(vd_id, actives, front);
    let p = Placement { id: online[i], x: 0, y: 0 };
    let all = idle(vd_id, actives, online);
    if i < front.len() {
        lemma_idle_hold(vd_id, actives, front, i);
        let j = choose|j: int| 0 <= j < rest.len() && rest[j] == p;
        assert(all[j] == p);
    } else {
        assert(!is_active(online[i], actives));
        assert(all[all.len() - 1] == p);
    }
}

/// Of the displays that are set aside, exactly those in use are switched off.
pub proof fn displays_in_use_are_switched_off(
    targets: Seq<Placement>,
    states: Seq<PanelState>,
    n: int,
    i: int,
)
    requires
        0 <= i < n <= targets.len(),
        states.len() == targets.len(),
    ensures
        states[i].active ==> in_use(targets, states, n).contains(targets[i].id),
        in_use(targets, states, n).len() <= n,
    decreases n,
{
    let rest = in_use(targets, states, n - 1);
    let all = in_use(targets, states, n);
    if n > 1 {
        displays_in_use_are_switched_off(targets, states, n - 1, if i < n - 1 {
            i
        } else {
            0
        });
    }
    if states[i].active {
        if i < n - 1 {
            let j = choose|j: int| 0 <= j < rest.len() && rest[j] == targets[i].id;
            assert(all[j] == targets[i].id);
        } else {
            assert(all[all.len() - 1] == targets[i].id);
        }
    }
}

/// A display stops mirroring exactly if it showed the virtual one's picture.
pub proof fn mirrors_of_the_virtual_display_are_broken(
    vd_id: u32,
    targets: Seq<Placement>,
    masters: Seq<u32>,
    n: int,
    i: int,
)
    requires
        0 <= i < n <= targets.len(),
        masters.len() == targets.len(),
    ensures
        masters[i] == vd_id ==> mirrors_of(vd_id, targets, masters, n).contains(targets[i].id),
        (forall|k: int| 0 <= k < n ==> #[trigger] masters[k] != vd_id) ==> mirrors_of(
            vd_id,
            targets,
            masters,
            n,
        ).len() == 0,
    decreases n,
{
    let rest = mirrors_of(vd_id, targets, masters, n - 1);
    let all = mirrors_of(vd_id, targets, masters, n);
    if n > 1 {
        mirrors_of_the_virtual_display_are_broken(vd_id, targets, masters, n - 1, if i < n - 1 {
            i
        } else {
            0
        });
    }
    if masters[i] == vd_id {
        if i < n - 1 {
            let j = choose|j: int| 0 <= j < rest.len() && rest[j] == targets[i].id;
            assert(all[j] == targets[i].id);
        } else {
            assert(all[all.len() - 1] == targets[i].id);
        }
    }
}

/// Displays that no longer mirror lie to the right of the virtual one, which is at the
/// origin, each behind the one before it and as far as that is wide, and all at its height.
pub proof fn displays_are_spread_side_by_side(
    vd_id: u32,
    vd_width: i32,
    ids: Seq<u32>,
    widths: Seq<i32>,
    k: int,
)
    requires
        spread_fits(vd_width, widths),
        widths.len() == ids.len(),
        0 <= k < ids.len(),
    ensures
        spread(vd_id, vd_width, ids, widths).len() == ids.len() + 1,
        spread(vd_id, vd_width, ids, widths)[0] == (Placement { id: vd_id, x: 0, y: 0 }),
        spread(vd_id, vd_width, ids, widths)[k + 1].id == ids[k],
        spread(vd_id, vd_width, ids, widths)[k + 1].y == 0,
        spread(vd_id, vd_width, ids, widths)[1].x == vd_width,
        k + 1 < ids.len() && widths[k] >= 1 ==> spread(vd_id, vd_width, ids, widths)[k + 2].x == spread(
            vd_id,
            vd_width,
            ids,
            widths,
        )[k + 1].x + widths[k],
{
    assert(i32::MIN <= spread_offset(vd_width, widths, 0) <= i32::MAX);
    assert(i32::MIN <= spread_offset(vd_width, widths, k) <= i32::MAX);
    assert(i32::MIN <= spread_offset(vd_width, widths, k + 1) <= i32::MAX);
}

/// Failures are counted one by one.
pub proof fn failed_blankings_are_counted(ok: Seq<bool>)
    ensures
        failures(Seq::empty()) == 0,
        failures(ok.push(false)) == failures(ok) + 1,
        failures(ok.push(true)) == failures(ok),
{
    assert(ok.push(false).drop_last() =~= ok);
    assert(ok.push(true).drop_last() =~= ok);
}

/// A covered display stays the main one unless the text is empty, `0` or `false`. Covers are
/// tried with waits that grow from 300 milliseconds to two seconds.
pub proof fn covers_keep_the_main_display(v: Seq<char>)
    ensures
        keeps_physical_main(None),
        v == "0"@ || v == ""@ || crate::text::lowered(v) == "false"@ ==> !keeps_physical_main(Some(v)),
        v.len() > 5 ==> keeps_physical_main(Some(v)),
        show_backoff(0) == 300,
        show_backoff(1) == 500,
        show_backoff(2) == 800,
        show_backoff(3) == 1200,
        show_backoff(4) == 1600,
        show_backoff(5) == 2000,
        SHOW_WAITS == 6,
{
    reveal_strlit("0");
    reveal_strlit("");
    reveal_strlit("false");
    assert(crate::text::lowered(v).len() == v.len());
}

} // verus!
