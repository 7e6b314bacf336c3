//! Pasting files that stay with the client until they are read: what a paste sets up,
//! when a file is fetched, and what is cleared away afterwards.
use crate::order::{ordered, sorted_positions};
use crate::reaper::for_each_stale;
use crate::text::{concat2, decimal_text};
use std::collections::HashMap;
use vstd::prelude::*;

verus! {

broadcast use vstd::std_specs::hash::group_hash_axioms;

/// A file or directory that the client offers.
#[derive(Debug)]
pub struct RemoteEntry {
    pub index: i32,
    pub is_dir: bool,
    pub size: Option<u64>,
    /// The path below a top-level directory; a top-level entry has none.
    pub relative_path: Option<String>,
}

/// Whether an offer can be pasted this way at all.
#[derive(Debug, Clone, Copy, PartialEq, Eq, Structural)]
pub enum Screen {
    /// There is nothing to paste.
    Nothing,
    /// Some file's size is not known.
    Refuse,
    Proceed,
}

pub open spec fn sized(e: RemoteEntry) -> bool {
    e.is_dir || e.size is Some
}

pub open spec fn screened(entries: Seq<RemoteEntry>) -> Screen {
    if entries.len() == 0 {
        Screen::Nothing
    } else if forall|i: int| 0 <= i < entries.len() ==> sized(#[trigger] entries[i]) {
        Screen::Proceed
    } else {
        Screen::Refuse
    }
}

pub fn screen_entries(entries: &Vec<RemoteEntry>) -> (s: Screen)
    ensures
        s == screened(entries@),
{
    if entries.len() == 0 {
        return Screen::Nothing;
    }
    let mut i: usize = 0;
    while i < entries.len()
        invariant
            i <= entries.len(),
            forall|k: int| 0 <= k < i ==> sized(#[trigger] entries@[k]),
        decreases entries.len() - i,
    {
        if !entries[i].is_dir && entries[i].size.is_none() {
            assert(!sized(entries@[i as int]));
            return Screen::Refuse;
        }
        i = i + 1;
    }
    Screen::Proceed
}

/// What a paste sets up, by the entries' places.
#[derive(Debug)]
pub struct PastePlan {
    /// Directories to make, outer ones first.
    pub dirs: Vec<usize>,
    /// Files to make, with the length each is given.
    pub files: Vec<(usize, u64)>,
    /// What is put on the pasteboard.
    pub top_level: Vec<usize>,
}

/// The places of the directories.
pub open spec fn dir_places(entries: Seq<RemoteEntry>) -> Seq<usize>
    decreases entries.len(),
{
    if entries.len() == 0 {
        Seq::empty()
    } else {
        let rest = dir_places(entries.drop_last());
        if entries.last().is_dir {
            rest.push((entries.len() - 1) as usize)
        } else {
            rest
        }
    }
}

/// The places of the files, with their sizes.
pub open spec fn file_places(entries: Seq<RemoteEntry>) -> Seq<(usize, u64)>
    decreases entries.len(),
{
    if entries.len() == 0 {
        Seq::empty()
    } else {
        let rest = file_places(entries.drop_last());
        if entries.last().is_dir {
            rest
        } else {
            rest.push(((entries.len() - 1) as usize, entries.last().size->0))
        }
    }
}

/// The places of the top-level entries.
pub open spec fn top_places(entries: Seq<RemoteEntry>) -> Seq<usize>
    decreases entries.len(),
{
    if entries.len() == 0 {
        Seq::empty()
    } else {
        let rest = top_places(entries.drop_last());
        if entries.last().relative_path is None {
            rest.push((entries.len() - 1) as usize)
        } else {
            rest
        }
    }
}

/// How deep the directories lie, in the order of their places.
pub open spec fn dir_depths(places: Seq<usize>, depths: Seq<Option<usize>>) -> Seq<u128> {
    places.map_values(|p: usize| depths[p as int]->0 as u128)
}

/// `dirs` holds the directories' places, by increasing depth.
pub open spec fn outer_first(
    dirs: Seq<usize>,
    entries: Seq<RemoteEntry>,
    depths: Seq<Option<usize>>,
) -> bool {
    let places = dir_places(entries);
    exists|order: Seq<usize>|
        #[trigger] ordered(dir_depths(places, depths), order, 0, places.len() as int) && dirs
            == order.map_values(|k: usize| places[k as int])
}

/// Plans a paste. `depths` tells for each entry how deep its destination lies, or that
/// it has none, in which case nothing is pasted.
pub fn plan_paste(entries: &Vec<RemoteEntry>, depths: &Vec<Option<usize>>) -> (r: Option<PastePlan>)
    requires
        depths@.len() == entries@.len(),
        forall|i: int| 0 <= i < entries@.len() ==> sized(#[trigger] entries@[i]),
    ensures
        r is Some <==> forall|i: int| 0 <= i < depths@.len() ==> #[trigger] depths@[i] is Some,
        r matches Some(p) ==> {
            &&& outer_first(p.dirs@, entries@, depths@)
            &&& p.files@ == file_places(entries@)
            &&& p.top_level@ == top_places(entries@)
        },
{
    let mut places: Vec<usize> = Vec::new();
    let mut keys: Vec<u128> = Vec::new();
    let mut files: Vec<(usize, u64)> = Vec::new();
    let mut top_level: Vec<usize> = Vec::new();
    let mut i: usize = 0;
    assert(entries@.take(0) =~= Seq::<RemoteEntry>::empty());
    while i < entries.len()
        invariant
            i <= entries.len(),
            depths@.len() == entries@.len(),
            forall|k: int| 0 <= k < entries@.len() ==> sized(#[trigger] entries@[k]),
            forall|k: int| 0 <= k < i ==> #[trigger] depths@[k] is Some,
            places@ == dir_places(entries@.take(i as int)),
            forall|k: int| 0 <= k < places@.len() ==> #[trigger] places@[k] < i,
            keys@ == dir_depths(places@, depths@),
            files@ == file_places(entries@.take(i as int)),
            top_level@ == top_places(entries@.take(i as int)),
        decreases entries.len() - i,
    {
        assert(entries@.take(i + 1).drop_last() =~= entries@.take(i as int));
        assert(sized(entries@[i as int]));
        let depth: usize = match depths[i] {
            Some(d) => d,
            None => {
                assert(depths@[i as int] is None);
                return None;
            },
        };
        let e: &RemoteEntry = &entries[i];
        if e.is_dir {
            let ghost before = places@;
            places.push(i);
            keys.push(depth as u128);
            assert(keys@ =~= dir_depths(before.push(i), depths@));
        } else if let Some(size) = e.size {
            files.push((i, size));
        }
        if e.relative_path.is_none() {
            top_level.push(i);
        }
        i = i + 1;
    }
    assert(entries@.take(i as int) =~= entries@);
    let order: Vec<usize> = sorted_positions(&keys);
    let mut dirs: Vec<usize> = Vec::new();
    let mut k: usize = 0;
    while k < order.len()
        invariant
            k <= order.len(),
            ordered(keys@, order@, 0, keys@.len() as int),
            keys@.len() == places@.len(),
            dirs@.len() == k,
            forall|j: int| 0 <= j < k ==> #[trigger] dirs@[j] == places@[order@[j] as int],
        decreases order.len() - k,
    {
        dirs.push(places[order[k]]);
        k = k + 1;
    }
    proof {
        assert(dirs@ =~= order@.map_values(|x: usize| places@[x as int]));
        assert(outer_first(dirs@, entries@, depths@));
    }
    Some(PastePlan { dirs, files, top_level })
}

/// No directory is made before one that lies less deep.
pub proof fn outer_directories_come_first(
    dirs: Seq<usize>,
    entries: Seq<RemoteEntry>,
    depths: Seq<Option<usize>>,
    i: int,
    j: int,
)
    requires
        outer_first(dirs, entries, depths),
        0 <= i < j < dirs.len(),
    ensures
        depths[dirs[i] as int]->0 <= depths[dirs[j] as int]->0,
{
    let places = dir_places(entries);
    let keys = dir_depths(places, depths);
    let order = choose|order: Seq<usize>|
        #[trigger] ordered(keys, order, 0, places.len() as int) && dirs == order.map_values(
            |k: usize| places[k as int],
        );
    assert(crate::order::before(keys, order[i] as int, order[j] as int));
}

/// Every directory is made.
pub proof fn every_directory_is_made(
    dirs: Seq<usize>,
    entries: Seq<RemoteEntry>,
    depths: Seq<Option<usize>>,
    d: int,
)
    requires
        outer_first(dirs, entries, depths),
        entries.len() <= usize::MAX,
        0 <= d < entries.len(),
        entries[d].is_dir,
    ensures
        dirs.contains(d as usize),
{
    let places = dir_places(entries);
    let keys = dir_depths(places, depths);
    let order = choose|order: Seq<usize>|
        #[trigger] ordered(keys, order, 0, places.len() as int) && dirs == order.map_values(
            |k: usize| places[k as int],
        );
    lemma_every_directory_has_its_place(entries, d);
    let at = choose|k: int| 0 <= k < places.len() && places[k] == d as usize;
    assert(order.contains(at as usize));
    let k = choose|k: int| 0 <= k < order.len() && order[k] == at as usize;
    assert(dirs[k] == d as usize);
}

proof fn lemma_every_directory_has_its_place(entries: Seq<RemoteEntry>, d: int)
    requires
        0 <= d < entries.len(),
        entries.len() <= usize::MAX,
        entries[d].is_dir,
    ensures
        exists|k: int|
            0 <= k < dir_places(entries).len() && #[trigger] dir_places(entries)[k] == d as usize,
        dir_places(entries).len() <= entries.len(),
    decreases entries.len(),
{
    let front = entries.drop_last();
    lemma_places_are_few(front);
    if d < entries.len() - 1 {
        lemma_every_directory_has_its_place(front, d);
        let k = choose|k: int|
            0 <= k < dir_places(front).len() && #[trigger] dir_places(front)[k] == d as usize;
        assert(dir_places(entries)[k] == d as usize);
    } else {
        assert(dir_places(entries)[dir_places(front).len() as int] == d as usize);
    }
}

proof fn lemma_places_are_few(entries: Seq<RemoteEntry>)
    ensures
        dir_places(entries).len() <= entries.len(),
    decreases entries.len(),
{
    if entries.len() > 0 {
        lemma_places_are_few(entries.drop_last());
    }
}

/// What to do when a pasted file is read.
#[derive(Debug, Clone, Copy, PartialEq, Eq, Structural)]
pub enum ReadAction {
    /// Let the reader go on.
    Release,
    /// Fetch the file first.
    Download,
}

/// What reading a file leads to: one that is known and not fetched yet is fetched.
pub open spec fn on_reading(known: Map<u64, bool>, id: u64) -> ReadAction {
    if known.contains_key(id) && !known[id] {
        ReadAction::Download
    } else {
        ReadAction::Release
    }
}

/// The known files after a fetch.
pub open spec fn after_fetch(known: Map<u64, bool>, id: u64, ok: bool) -> Map<u64, bool> {
    if !ok {
        known.remove(id)
    } else if known.contains_key(id) {
        known.insert(id, true)
    } else {
        known
    }
}

/// The pasted files that are still waited on.
#[derive(Debug)]
pub struct Presenters {
    next_id: u64,
    /// Which files are known, and whether each was fetched.
    registry: HashMap<u64, bool>,
    /// Which files the system was told of.
    live: Vec<u64>,
}

impl Presenters {
    pub closed spec fn next(&self) -> u64 {
        self.next_id
    }

    /// The known files, and whether each was fetched.
    pub closed spec fn known(&self) -> Map<u64, bool> {
        self.registry@
    }

    /// The files that the system was told of.
    pub closed spec fn told(&self) -> Seq<u64> {
        self.live@
    }

    /// No number in use will be given out again.
    pub closed spec fn wf(&self) -> bool {
        &&& forall|id: u64| #[trigger] self.registry@.contains_key(id) ==> id < self.next_id
        &&& forall|i: int| 0 <= i < self.live@.len() ==> #[trigger] self.live@[i] < self.next_id
    }

    pub fn new() -> (p: Self)
        ensures
            p.wf(),
            p.next() == 1,
            p.known() == Map::<u64, bool>::empty(),
            p.told() == Seq::<u64>::empty(),
    {
        Presenters { next_id: 1, registry: HashMap::new(), live: Vec::new() }
    }

    /// Takes up a file that is yet to be fetched.
    pub fn register(&mut self) -> (id: u64)
        requires
            old(self).wf(),
            old(self).next() < u64::MAX,
        ensures
            final(self).wf(),
            id == old(self).next(),
            !old(self).known().contains_key(id),
            final(self).next() == id + 1,
            final(self).known() == old(self).known().insert(id, false),
            final(self).told() == old(self).told(),
    {
        let id: u64 = self.next_id;
        self.next_id = self.next_id + 1;
        self.registry.insert(id, false);
        id
    }

    /// The system was told of a file.
    pub fn present(&mut self, id: u64)
        requires
            old(self).wf(),
            id < old(self).next(),
        ensures
            final(self).wf(),
            final(self).next() == old(self).next(),
            final(self).known() == old(self).known(),
            final(self).told() == old(self).told().push(id),
    {
        self.live.push(id);
    }

    /// Someone wants to read a file.
    pub fn on_read(&self, id: u64) -> (a: ReadAction)
        ensures
            a == on_reading(self.known(), id),
    {
        match self.registry.get(&id) {
            Some(done) => if *done {
                ReadAction::Release
            } else {
                ReadAction::Download
            },
            None => ReadAction::Release,
        }
    }

    /// A fetch ended. A file that could not be fetched is removed, as the result says,
    /// and no longer waited on.
    pub fn on_download(&mut self, id: u64, ok: bool) -> (remove_file: bool)
        requires
            old(self).wf(),
        ensures
            final(self).wf(),
            remove_file == !ok,
            final(self).next() == old(self).next(),
            final(self).told() == old(self).told(),
            final(self).known() == after_fetch(old(self).known(), id, ok),
    {
        if !ok {
            self.registry.remove(&id);
            return true;
        }
        if self.registry.contains_key(&id) {
            self.registry.insert(id, true);
        }
        false
    }

    /// Lets go of every file that the system was told of; those it is to forget.
    pub fn drain(&mut self) -> (ids: Vec<u64>)
        requires
            old(self).wf(),
        ensures
            final(self).wf(),
            ids@ == old(self).told(),
            final(self).told() == Seq::<u64>::empty(),
            final(self).next() == old(self).next(),
            final(self).known() == old(self).known().remove_keys(old(self).told().to_set()),
    {
        let mut ids: Vec<u64> = Vec::new();
        std::mem::swap(&mut ids, &mut self.live);
        let ghost all = self.registry@;
        let mut i: usize = 0;
        assert(all.remove_keys(ids@.take(0).to_set()) =~= all);
        while i < ids.len()
            invariant
                i <= ids.len(),
                self.live@ == Seq::<u64>::empty(),
                self.next_id == old(self).next_id,
                forall|id: u64| #[trigger] self.registry@.contains_key(id) ==> id < self.next_id,
                self.registry@ == all.remove_keys(ids@.take(i as int).to_set()),
            decreases ids.len() - i,
        {
            let ghost seen = ids@.take(i as int);
            self.registry.remove(&ids[i]);
            proof {
                let next = ids@.take(i + 1);
                assert(next =~= seen.push(ids@[i as int]));
                assert forall|x: u64| next.to_set().contains(x) <==> (seen.to_set().contains(x) || x
                    == ids@[i as int]) by {
                    if seen.to_set().contains(x) {
                        let k = choose|k: int| 0 <= k < seen.len() && seen[k] == x;
                        assert(next[k] == x);
                    }
                    if x == ids@[i as int] {
                        assert(next[i as int] == x);
                    }
                    if next.to_set().contains(x) {
                        let k = choose|k: int| 0 <= k < next.len() && next[k] == x;
                        if k < i {
                            assert(seen[k] == x);
                        }
                    }
                }
                assert(self.registry@ =~= all.remove_keys(next.to_set()));
            }
            i = i + 1;
        }
        assert(ids@.take(i as int) =~= ids@);
        ids
    }
}

/// A file is fetched at most once: after a fetch, good or bad, reading it fetches
/// nothing more.
pub proof fn files_are_fetched_once(known: Map<u64, bool>, id: u64, ok: bool)
    ensures
        ({
            let after = if !ok {
                known.remove(id)
            } else if known.contains_key(id) {
                known.insert(id, true)
            } else {
                known
            };
            !(after.contains_key(id) && !after[id])
        }),
{
}

/// What a connection has pasted.
#[derive(Debug)]
pub struct PasteState {
    pub temp_dir: Option<String>,
    /// The pasteboard's change count after the last paste; negative before the first.
    pub self_change_count: i64,
}

/// What is cleared away.
#[derive(Debug)]
pub struct Cleanup {
    pub remove_dir: Option<String>,
    pub unregister: Vec<u64>,
    pub clear_pasteboard: bool,
}

/// The pasteboard still holds what was put there.
pub open spec fn still_ours(our: i64, current: i64) -> bool {
    our >= 0 && current == our
}

/// Whether the pasteboard is to be cleared.
pub fn clear_pasteboard_if_stale(our_change_count: i64, current_change_count: i64) -> (r: bool)
    ensures
        r == still_ours(our_change_count, current_change_count),
{
    our_change_count >= 0 && current_change_count == our_change_count
}

impl PasteState {
    pub fn new() -> (s: Self)
        ensures
            s.temp_dir is None,
            s.self_change_count == -1,
    {
        PasteState { temp_dir: None, self_change_count: -1 }
    }

    /// Clears away what an earlier paste set up: its directory, and its files.
    pub fn cleanup_previous(&mut self, presenters: &mut Presenters) -> (r: (
        Option<String>,
        Vec<u64>,
    ))
        requires
            old(presenters).wf(),
        ensures
            r.0 == old(self).temp_dir,
            final(self).temp_dir is None,
            final(self).self_change_count == old(self).self_change_count,
            final(presenters).wf(),
            r.1@ == old(presenters).told(),
            final(presenters).told() == Seq::<u64>::empty(),
            final(presenters).next() == old(presenters).next(),
            final(presenters).known() == old(presenters).known().remove_keys(
                old(presenters).told().to_set(),
            ),
    {
        let dir: Option<String> = self.temp_dir.take();
        (dir, presenters.drain())
    }

    /// Clears away everything when the client leaves. The pasteboard is cleared only
    /// where it still holds what was pasted.
    pub fn cleanup_on_disconnect(
        &mut self,
        presenters: &mut Presenters,
        current_change_count: i64,
    ) -> (c: Cleanup)
        requires
            old(presenters).wf(),
        ensures
            c.remove_dir == old(self).temp_dir,
            c.unregister@ == old(presenters).told(),
            c.clear_pasteboard == still_ours(old(self).self_change_count, current_change_count),
            final(self).temp_dir is None,
            final(self).self_change_count == old(self).self_change_count,
            final(presenters).wf(),
            final(presenters).told() == Seq::<u64>::empty(),
            final(presenters).next() == old(presenters).next(),
            final(presenters).known() == old(presenters).known().remove_keys(
                old(presenters).told().to_set(),
            ),
    {
        let (remove_dir, unregister): (Option<String>, Vec<u64>) = self.cleanup_previous(
            presenters,
        );
        let clear_pasteboard: bool = clear_pasteboard_if_stale(
            self.self_change_count,
            current_change_count,
        );
        Cleanup { remove_dir, unregister, clear_pasteboard }
    }

    /// The pasteboard was written or cleared, and has this change count now.
    pub fn on_pasteboard_changed(&mut self, change_count: i64)
        ensures
            final(self).temp_dir == old(self).temp_dir,
            final(self).self_change_count == change_count,
    {
        self.self_change_count = change_count;
    }
}

/// How a paste starts.
#[derive(Debug)]
pub enum Spawn {
    /// There is nothing to paste, and nothing is done.
    Nothing,
    /// The offer has to be pasted another way.
    Fallback,
    /// The paste goes on, once what an earlier one set up is cleared away.
    Clear { remove_dir: Option<String>, unregister: Vec<u64> },
}

/// Starts a paste. An offer that cannot be pasted this way leaves the earlier paste as
/// it is.
pub fn spawn_lazy_paste(
    entries: &Vec<RemoteEntry>,
    state: &mut PasteState,
    presenters: &mut Presenters,
) -> (r: Spawn)
    requires
        old(presenters).wf(),
    ensures
        final(presenters).wf(),
        screened(entries@) != Screen::Proceed ==> *final(state) == *old(state)
            && *final(presenters) == *old(presenters) && r == (if screened(entries@)
            == Screen::Nothing {
            Spawn::Nothing
        } else {
            Spawn::Fallback
        }),
        screened(entries@) == Screen::Proceed ==> {
            &&& r matches Spawn::Clear { remove_dir, unregister }
            &&& remove_dir == old(state).temp_dir
            &&& unregister@ == old(presenters).told()
            &&& final(state).temp_dir is None
            &&& final(state).self_change_count == old(state).self_change_count
            &&& final(presenters).told() == Seq::<u64>::empty()
            &&& final(presenters).next() == old(presenters).next()
            &&& final(presenters).known() == old(presenters).known().remove_keys(
                old(presenters).told().to_set(),
            )
        },
{
    match screen_entries(entries) {
        Screen::Nothing => Spawn::Nothing,
        Screen::Refuse => Spawn::Fallback,
        Screen::Proceed => {
            let (remove_dir, unregister): (Option<String>, Vec<u64>) = state.cleanup_previous(
                presenters,
            );
            Spawn::Clear { remove_dir, unregister }
        },
    }
}

/// Leaves a paste's state to be cleared away when the program ends. The first one left
/// is kept.
pub fn register_shutdown_cleanup(slot: &mut Option<PasteState>, state: PasteState)
    ensures
        *final(slot) == (if *old(slot) is Some {
            *old(slot)
        } else {
            Some(state)
        }),
{
    if slot.is_none() {
        *slot = Some(state);
    }
}

/// Clears away what was left, if anything was.
pub fn shutdown_cleanup(
    slot: &mut Option<PasteState>,
    presenters: &mut Presenters,
    current_change_count: i64,
) -> (r: Option<Cleanup>)
    requires
        old(presenters).wf(),
    ensures
        final(presenters).wf(),
        r is Some <==> *old(slot) is Some,
        *old(slot) is None ==> *final(slot) is None && final(presenters).known() == old(
            presenters,
        ).known() && final(presenters).told() == old(presenters).told(),
        *old(slot) matches Some(s) ==> {
            &&& r->0.remove_dir == s.temp_dir
            &&& r->0.unregister@ == old(presenters).told()
            &&& r->0.clear_pasteboard == still_ours(s.self_change_count, current_change_count)
            &&& *final(slot) matches Some(after)
            &&& after.temp_dir is None
            &&& after.self_change_count == s.self_change_count
            &&& final(presenters).told() == Seq::<u64>::empty()
            &&& final(presenters).known() == old(presenters).known().remove_keys(
                old(presenters).told().to_set(),
            )
        },
{
    match slot.take() {
        None => None,
        Some(mut state) => {
            let c: Cleanup = state.cleanup_on_disconnect(presenters, current_change_count);
            *slot = Some(state);
            Some(c)
        },
    }
}

/// The name of a paste's directory: it tells which process made it, and when.
pub open spec fn paste_dir(pid: u32, nanos: u128) -> Seq<char> {
    "macrdp-lazy-paste-"@ + crate::text::digits(pid as nat) + seq!['-'] + crate::text::digits(
        nanos as nat,
    )
}

pub fn temp_dir_name(pid: u32, nanos: u128) -> (s: String)
    ensures
        s@ == paste_dir(pid, nanos),
{
    let p: String = decimal_text(pid as u128);
    let t: String = decimal_text(nanos);
    let a: String = concat2("macrdp-lazy-paste-", p.as_str());
    let b: String = concat2(a.as_str(), "-");
    proof {
        reveal_strlit("-");
        assert("-"@ =~= seq!['-']);
    }
    concat2(b.as_str(), t.as_str())
}

/// The directory of a paste names the process that made it, so that a later process
/// can tell whether it was left over.
pub proof fn paste_dirs_name_their_process(pid: u32, nanos: u128)
    requires
        0 < pid <= i32::MAX,
    ensures
        crate::reaper::tagged_pid(paste_dir(pid, nanos), "macrdp-lazy-paste-"@, false) == Some(
            pid as int,
        ),
{
    crate::reaper::tags_round_trip(
        "macrdp-lazy-paste-"@,
        pid as i32,
        crate::text::digits(nanos as nat),
    );
}

/// The paste directories that earlier processes left, by their places in the listing
/// of the temporary directory.
pub fn reap_stale<F: Fn(i32) -> bool>(names: &Vec<String>, self_pid: i32, is_alive: F) -> (out: Vec<
    usize,
>)
    requires
        forall|pid: i32| pid > 0 ==> #[trigger] call_requires(is_alive, (pid,)),
    ensures
        exists|alive: Seq<bool>|
            #[trigger] crate::reaper::answers(
                names@,
                "macrdp-lazy-paste-"@,
                false,
                self_pid,
                is_alive,
                alive,
            ) && out@ == crate::reaper::stale_positions(
                names@,
                "macrdp-lazy-paste-"@,
                false,
                self_pid,
                alive,
            ),
{
    for_each_stale(names, "macrdp-lazy-paste-", false, self_pid, is_alive)
}

/// Every file is made, at its length, and so is every directory; and the entries without a
/// path are those that are put on the pasteboard. Nothing else is.
pub proof fn every_entry_has_its_part(entries: Seq<RemoteEntry>, i: int, k: int)
    requires
        entries.len() <= usize::MAX,
        0 <= i < entries.len(),
    ensures
        !entries[i].is_dir ==> file_places(entries).contains((i as usize, entries[i].size->0)),
        entries[i].is_dir ==> dir_places(entries).contains(i as usize),
        entries[i].relative_path is None ==> top_places(entries).contains(i as usize),
        0 <= k < file_places(entries).len() ==> file_places(entries)[k].0 < entries.len() && !entries[file_places(
            entries,
        )[k].0 as int].is_dir && file_places(entries)[k].1 == entries[file_places(entries)[k].0 as int].size->0,
        0 <= k < top_places(entries).len() ==> top_places(entries)[k] < entries.len() && entries[top_places(
            entries,
        )[k] as int].relative_path is None,
    decreases entries.len(),
{
    let front = entries.drop_last();
    let n = front.len() as int;
    let (f, d, t) = (file_places(front), dir_places(front), top_places(front));
    if n > 0 {
        every_entry_has_its_part(front, if i < n {
            i
        } else {
            0
        }, k);
    }
    if i < n {
        assert(front[i] == entries[i]);
        if !entries[i].is_dir {
            let j = choose|j: int| 0 <= j < f.len() && f[j] == (i as usize, entries[i].size->0);
            assert(file_places(entries)[j] == (i as usize, entries[i].size->0));
        } else {
            let j = choose|j: int| 0 <= j < d.len() && d[j] == i as usize;
            assert(dir_places(entries)[j] == i as usize);
        }
        if entries[i].relative_path is None {
            let j = choose|j: int| 0 <= j < t.len() && t[j] == i as usize;
            assert(top_places(entries)[j] == i as usize);
        }
    } else {
        if !entries[i].is_dir {
            let all = file_places(entries);
            assert(all[all.len() - 1] == (i as usize, entries[i].size->0));
        } else {
            let all = dir_places(entries);
            assert(all[all.len() - 1] == i as usize);
        }
        if entries[i].relative_path is None {
            let all = top_places(entries);
            assert(all[all.len() - 1] == i as usize);
        }
    }
    if n == 0 {
        assert(f.len() == 0 && t.len() == 0);
    }
}

/// An offer is pasted where there is something in it and the length of every file is known.
pub proof fn offers_need_known_lengths(entries: Seq<RemoteEntry>, i: int)
    ensures
        entries.len() == 0 ==> screened(entries) is Nothing,
        0 <= i < entries.len() && !entries[i].is_dir && entries[i].size is None ==> screened(entries)
            is Refuse,
        entries.len() > 0 && (forall|k: int|
            0 <= k < entries.len() ==> (#[trigger] entries[k]).is_dir || entries[k].size is Some)
            ==> screened(entries) is Proceed,
{
    if 0 <= i < entries.len() {
        assert(sized(entries[i]) <==> entries[i].is_dir || entries[i].size is Some);
    }
    if forall|k: int| 0 <= k < entries.len() ==> (#[trigger] entries[k]).is_dir || entries[k].size is Some {
        assert forall|k: int| 0 <= k < entries.len() implies sized(#[trigger] entries[k]) by {
        }
    }
}

/// A file that was taken up is fetched when it is read, for the first time and not again,
/// whether or not the fetch succeeded; other files are not touched by that.
pub proof fn files_are_fetched_when_read(known: Map<u64, bool>, id: u64, other: u64, ok: bool)
    requires
        other != id,
    ensures
        on_reading(known.insert(id, false), id) is Download,
        on_reading(after_fetch(known, id, ok), id) is Release,
        on_reading(after_fetch(known, id, ok), other) == on_reading(known, other),
        on_reading(known.insert(id, false), other) == on_reading(known, other),
        after_fetch(known, id, true).contains_key(id) == known.contains_key(id),
        !after_fetch(known, id, false).contains_key(id),
        !known.contains_key(id) ==> on_reading(known, id) is Release,
{
}

/// The pasteboard is cleared only where nobody changed it since the paste, and not before the
/// first one.
pub proof fn others_pastes_are_kept(our: i64, current: i64)
    ensures
        our != current ==> !still_ours(our, current),
        our < 0 ==> !still_ours(our, current),
        our >= 0 ==> still_ours(our, our),
{
}

} // verus!
