//! Devices that the client lends: drives and smart cards.
use crate::reaper::for_each_stale;
use crate::text::utf8_lossy;
use vstd::prelude::*;

pub mod smartcard;
pub mod surface;

verus! {

/// A status code of the client's file system.
#[derive(Debug, Clone, Copy, PartialEq, Eq, Structural)]
pub struct NtStatus {
    pub code: u32,
}

pub const UNSUCCESSFUL: u32 = 0xC000_0001;

pub const NO_SUCH_FILE: u32 = 0xC000_000F;

pub const ACCESS_DENIED: u32 = 0xC000_0022;

pub const OBJECT_NAME_COLLISION: u32 = 0xC000_0035;

pub const NOT_SUPPORTED: u32 = 0xC000_00BB;

pub const DIRECTORY_NOT_EMPTY: u32 = 0xC000_0101;

pub const NOT_A_DIRECTORY: u32 = 0xC000_0103;

/// The failures that the file server reports.
#[derive(Debug, Clone, Copy, PartialEq, Eq, Structural)]
pub enum Nfsstat3 {
    NoEnt,
    Io,
    Acces,
    Exist,
    NotDir,
    IsDir,
    RoFs,
    NotEmpty,
    NotSupp,
}

pub open spec fn failure_of(status: Option<NtStatus>) -> Nfsstat3 {
    match status {
        None => Nfsstat3::Io,
        Some(s) => if s.code == ACCESS_DENIED {
            Nfsstat3::Acces
        } else if s.code == OBJECT_NAME_COLLISION {
            Nfsstat3::Exist
        } else if s.code == NO_SUCH_FILE {
            Nfsstat3::NoEnt
        } else if s.code == NOT_A_DIRECTORY {
            Nfsstat3::NotDir
        } else if s.code == DIRECTORY_NOT_EMPTY {
            Nfsstat3::NotEmpty
        } else if s.code == NOT_SUPPORTED {
            Nfsstat3::NotSupp
        } else {
            Nfsstat3::Io
        },
    }
}

/// The failure that a status of the client's stands for.
pub fn ntstatus_to_nfsstat3(status: Option<NtStatus>) -> (r: Nfsstat3)
    ensures
        r == failure_of(status),
{
    match status {
        Some(s) => match s.code {
            ACCESS_DENIED => Nfsstat3::Acces,
            OBJECT_NAME_COLLISION => Nfsstat3::Exist,
            NO_SUCH_FILE => Nfsstat3::NoEnt,
            NOT_A_DIRECTORY => Nfsstat3::NotDir,
            DIRECTORY_NOT_EMPTY => Nfsstat3::NotEmpty,
            NOT_SUPPORTED => Nfsstat3::NotSupp,
            _ => Nfsstat3::Io,
        },
        None => Nfsstat3::Io,
    }
}

/// Which kinds of devices are taken.
#[derive(Debug, Clone, Copy, PartialEq, Eq, Structural)]
pub struct MacRdpdr {
    pub enable_drive: bool,
    pub enable_smartcard: bool,
}

impl MacRdpdr {
    pub fn new(enable_drive: bool, enable_smartcard: bool) -> (m: Self)
        ensures
            m.enable_drive == enable_drive,
            m.enable_smartcard == enable_smartcard,
    {
        MacRdpdr { enable_drive, enable_smartcard }
    }

    /// The state of a connection that has just been opened.
    pub fn build_backend(&self) -> (h: MacRdpdrHandler)
        ensures
            h.enable_drive == self.enable_drive,
            h.enable_smartcard == self.enable_smartcard,
            !h.has_handle,
            h.surfaces@.len() == 0,
            h.smartcard is None,
            h.wf(),
    {
        MacRdpdrHandler {
            has_handle: false,
            enable_drive: self.enable_drive,
            enable_smartcard: self.enable_smartcard,
            surfaces: Vec::new(),
            smartcard: None,
        }
    }
}

#[derive(Debug, Clone, Copy, PartialEq, Eq, Structural)]
pub enum DeviceType {
    Serial,
    Parallel,
    Printer,
    Filesystem,
    Smartcard,
}

/// A device as the client announces it.
#[derive(Debug, Clone, Copy, PartialEq, Eq, Structural)]
pub struct AnnouncedDevice {
    pub device_id: u32,
    pub device_type: DeviceType,
}

/// What to do about announced devices.
#[derive(Debug, Clone, Copy, PartialEq, Eq, Structural)]
pub enum DeviceAction {
    /// Serve the device at this place of the list as a volume.
    Mount(usize),
    /// Serve the card reader at this place of the list.
    Bridge(usize),
}

/// The devices of one connection.
#[derive(Debug)]
pub struct MacRdpdrHandler {
    pub has_handle: bool,
    pub enable_drive: bool,
    pub enable_smartcard: bool,
    /// The drives that are served.
    pub surfaces: Vec<u32>,
    /// The card reader that is served.
    pub smartcard: Option<u32>,
}

/// The drives served after those of the announced devices that are new are taken up.
pub open spec fn drives_after(served: Seq<u32>, devices: Seq<AnnouncedDevice>) -> Seq<u32>
    decreases devices.len(),
{
    if devices.len() == 0 {
        served
    } else {
        let rest = drives_after(served, devices.drop_last());
        let d = devices.last();
        if d.device_type == DeviceType::Filesystem && !rest.contains(d.device_id) {
            rest.push(d.device_id)
        } else {
            rest
        }
    }
}

/// The places of the announced drives that are new.
pub open spec fn new_drives(served: Seq<u32>, devices: Seq<AnnouncedDevice>) -> Seq<DeviceAction>
    decreases devices.len(),
{
    if devices.len() == 0 {
        Seq::empty()
    } else {
        let front = devices.drop_last();
        let d = devices.last();
        if d.device_type == DeviceType::Filesystem && !drives_after(served, front).contains(
            d.device_id,
        ) {
            new_drives(served, front).push(DeviceAction::Mount(front.len() as usize))
        } else {
            new_drives(served, front)
        }
    }
}

/// The place of the first card reader, counted from `from`.
pub open spec fn first_reader(devices: Seq<AnnouncedDevice>, from: int) -> Option<int>
    decreases devices.len() - from,
{
    if from < 0 || from >= devices.len() {
        None
    } else if devices[from].device_type == DeviceType::Smartcard {
        Some(from)
    } else {
        first_reader(devices, from + 1)
    }
}

fn find_reader(devices: &Vec<AnnouncedDevice>) -> (r: Option<usize>)
    ensures
        r is Some <==> first_reader(devices@, 0) is Some,
        r matches Some(i) ==> i < devices@.len() && first_reader(devices@, 0) == Some(i as int),
{
    let mut i: usize = 0;
    while i < devices.len()
        invariant
            i <= devices.len(),
            first_reader(devices@, 0) == first_reader(devices@, i as int),
        decreases devices.len() - i,
    {
        if devices[i].device_type == DeviceType::Smartcard {
            return Some(i);
        }
        i = i + 1;
    }
    None
}

fn holds(v: &Vec<u32>, id: u32) -> (r: bool)
    ensures
        r == v@.contains(id),
{
    let mut i: usize = 0;
    while i < v.len()
        invariant
            i <= v.len(),
            forall|k: int| 0 <= k < i ==> v@[k] != id,
        decreases v.len() - i,
    {
        if v[i] == id {
            return true;
        }
        i = i + 1;
    }
    false
}

impl MacRdpdrHandler {
    /// No drive is served twice.
    pub open spec fn wf(&self) -> bool {
        self.surfaces@.no_duplicates()
    }

    pub fn set_handle(&mut self)
        ensures
            final(self).has_handle,
            final(self).enable_drive == old(self).enable_drive,
            final(self).enable_smartcard == old(self).enable_smartcard,
            final(self).surfaces == old(self).surfaces,
            final(self).smartcard == old(self).smartcard,
    {
        self.has_handle = true;
    }

    /// Takes up the announced devices: every drive not yet served, and the first card
    /// reader where none is. Without a handle to the channel nothing happens.
    pub fn on_devices_announced(&mut self, devices: &Vec<AnnouncedDevice>) -> (actions: Vec<
        DeviceAction,
    >)
        requires
            old(self).wf(),
        ensures
            final(self).wf(),
            final(self).has_handle == old(self).has_handle,
            final(self).enable_drive == old(self).enable_drive,
            final(self).enable_smartcard == old(self).enable_smartcard,
            ({
                let drives = old(self).has_handle && old(self).enable_drive;
                let cards = old(self).has_handle && old(self).enable_smartcard && old(
                    self,
                ).smartcard is None;
                let reader = if cards {
                    first_reader(devices@, 0)
                } else {
                    None
                };
                &&& final(self).surfaces@ == (if drives {
                    drives_after(old(self).surfaces@, devices@)
                } else {
                    old(self).surfaces@
                })
                &&& final(self).smartcard == (match reader {
                    Some(i) => Some(devices@[i].device_id),
                    None => old(self).smartcard,
                })
                &&& actions@ == (if drives {
                    new_drives(old(self).surfaces@, devices@)
                } else {
                    Seq::empty()
                }) + (match reader {
                    Some(i) => seq![DeviceAction::Bridge(i as usize)],
                    None => Seq::empty(),
                })
            }),
    {
        let mut actions: Vec<DeviceAction> = Vec::new();
        if !self.has_handle {
            return actions;
        }
        let ghost served = self.surfaces@;
        if self.enable_drive {
            let mut i: usize = 0;
            assert(devices@.take(0) =~= Seq::<AnnouncedDevice>::empty());
            while i < devices.len()
                invariant
                    i <= devices.len(),
                    self.wf(),
                    self.has_handle == old(self).has_handle,
                    self.enable_drive == old(self).enable_drive,
                    self.enable_smartcard == old(self).enable_smartcard,
                    self.smartcard == old(self).smartcard,
                    self.surfaces@ == drives_after(served, devices@.take(i as int)),
                    actions@ == new_drives(served, devices@.take(i as int)),
                decreases devices.len() - i,
            {
                let d: AnnouncedDevice = devices[i];
                assert(devices@.take(i + 1).drop_last() =~= devices@.take(i as int));
                if d.device_type == DeviceType::Filesystem && !holds(&self.surfaces, d.device_id) {
                    self.surfaces.push(d.device_id);
                    actions.push(DeviceAction::Mount(i));
                }
                i = i + 1;
            }
            assert(devices@.take(i as int) =~= devices@);
        }
        let ghost mounts = actions@;
        if self.enable_smartcard && self.smartcard.is_none() {
            if let Some(i) = find_reader(devices) {
                self.smartcard = Some(devices[i].device_id);
                actions.push(DeviceAction::Bridge(i));
                assert(actions@ =~= mounts + seq![DeviceAction::Bridge(i)]);
                return actions;
            }
        }
        assert(actions@ =~= mounts + Seq::<DeviceAction>::empty());
        actions
    }
}

/// Announcing the same devices again takes up nothing more.
pub proof fn announcing_again_changes_nothing(served: Seq<u32>, devices: Seq<AnnouncedDevice>)
    ensures
        drives_after(drives_after(served, devices), devices) == drives_after(served, devices),
        new_drives(drives_after(served, devices), devices) == Seq::<DeviceAction>::empty(),
{
    lemma_all_served(served, devices, devices.len() as int);
    assert(devices.take(devices.len() as int) =~= devices);
    lemma_nothing_new(drives_after(served, devices), devices);
}

proof fn lemma_served_stay(served: Seq<u32>, devices: Seq<AnnouncedDevice>, id: u32)
    requires
        served.contains(id),
    ensures
        drives_after(served, devices).contains(id),
    decreases devices.len(),
{
    if devices.len() > 0 {
        lemma_served_stay(served, devices.drop_last(), id);
        let rest = drives_after(served, devices.drop_last());
        let k = choose|k: int| 0 <= k < rest.len() && rest[k] == id;
        assert(rest.push(devices.last().device_id)[k] == id);
    }
}

proof fn lemma_all_served(served: Seq<u32>, devices: Seq<AnnouncedDevice>, n: int)
    requires
        0 <= n <= devices.len(),
    ensures
        forall|i: int|
            0 <= i < n && #[trigger] devices[i].device_type == DeviceType::Filesystem
                ==> drives_after(served, devices.take(n)).contains(devices[i].device_id),
    decreases n,
{
    if n > 0 {
        lemma_all_served(served, devices, n - 1);
        let front = devices.take(n - 1);
        assert(devices.take(n).drop_last() =~= front);
        let rest = drives_after(served, front);
        let d = devices[n - 1];
        assert forall|i: int|
            0 <= i < n && #[trigger] devices[i].device_type
                == DeviceType::Filesystem implies drives_after(served, devices.take(n)).contains(
            devices[i].device_id,
        ) by {
            let after = rest.push(d.device_id);
            if i < n - 1 {
                let k = choose|k: int| 0 <= k < rest.len() && rest[k] == devices[i].device_id;
                assert(after[k] == devices[i].device_id);
            } else {
                assert(after[rest.len() as int] == d.device_id);
            }
        }
    }
}

proof fn lemma_nothing_new(served: Seq<u32>, devices: Seq<AnnouncedDevice>)
    requires
        forall|i: int|
            0 <= i < devices.len() && #[trigger] devices[i].device_type == DeviceType::Filesystem
                ==> served.contains(devices[i].device_id),
    ensures
        drives_after(served, devices) == served,
        new_drives(served, devices) == Seq::<DeviceAction>::empty(),
    decreases devices.len(),
{
    if devices.len() > 0 {
        let front = devices.drop_last();
        assert forall|i: int|
            0 <= i < front.len() && #[trigger] front[i].device_type
                == DeviceType::Filesystem implies served.contains(front[i].device_id) by {
            assert(devices[i].device_type == DeviceType::Filesystem);
        }
        lemma_nothing_new(served, front);
        let _ = devices[devices.len() - 1].device_type;
    }
}

/// The host name in a buffer that the system filled: what precedes the first zero.
/// `rc` is the system's return code.
pub open spec fn host_bytes(buf: Seq<u8>) -> Seq<u8>
    decreases buf.len(),
{
    if buf.len() == 0 || buf[0] == 0 {
        Seq::empty()
    } else {
        seq![buf[0]] + host_bytes(buf.drop_first())
    }
}

/// The name that the server goes by: the host's, or a fallback where it has none.
pub fn hostname(rc: i32, buf: &[u8]) -> (s: String)
    ensures
        rc != 0 ==> s@ == "macrdp"@,
        rc == 0 ==> s@ == host_or_default(crate::text::lossy_text(host_bytes(buf@))),
        rc == 0 && vstd::utf8::valid_utf8(host_bytes(buf@)) ==> s@ == host_or_default(
            vstd::utf8::decode_utf8(host_bytes(buf@)),
        ),
{
    if rc == 0 {
        let mut end: usize = 0;
        assert(buf@.skip(0) =~= buf@);
        assert(buf@.take(0) + host_bytes(buf@) =~= host_bytes(buf@));
        while end < buf.len() && buf[end] != 0
            invariant
                end <= buf@.len(),
                host_bytes(buf@) == buf@.take(end as int) + host_bytes(buf@.skip(end as int)),
            decreases buf@.len() - end,
        {
            proof {
                assert(buf@.skip(end as int).drop_first() =~= buf@.skip(end + 1));
                assert(buf@.take(end + 1) =~= buf@.take(end as int) + seq![buf@[end as int]]);
                assert(buf@.take(end as int) + (seq![buf@[end as int]] + host_bytes(
                    buf@.skip(end + 1),
                )) =~= buf@.take(end + 1) + host_bytes(buf@.skip(end + 1)));
            }
            end = end + 1;
        }
        assert(buf@.take(end as int) + host_bytes(buf@.skip(end as int)) =~= buf@.subrange(
            0,
            end as int,
        ));
        return host_label(utf8_lossy(vstd::slice::slice_subrange(buf, 0, end)));
    }
    "macrdp".to_owned()
}

/// The name a machine goes by: its own, or where it has none, the program's.
pub open spec fn host_or_default(name: Seq<char>) -> Seq<char> {
    if name.len() > 0 {
        name
    } else {
        "macrdp"@
    }
}

pub fn host_label(name: String) -> (s: String)
    ensures
        s@ == host_or_default(name@),
{
    if !name.as_str().is_empty() {
        return name;
    }
    "macrdp".to_owned()
}

/// Empties the list of mounted volumes and says which to unmount, in order.
pub fn shutdown_cleanup(mounts: &mut surface::LiveMounts) -> (out: Vec<String>)
    ensures
        out@ == old(mounts).paths@,
        final(mounts).paths@.len() == 0,
{
    surface::shutdown_cleanup(mounts)
}

/// The directories that earlier servers left below the temporary directory, by their
/// places in its listing.
pub fn reap_stale<F: Fn(i32) -> bool>(names: &Vec<String>, self_pid: i32, is_alive: F) -> (out: Vec<
    usize,
>)
    requires
        forall|pid: i32| pid > 0 ==> #[trigger] call_requires(is_alive, (pid,)),
    ensures
        exists|alive: Seq<bool>|
            #[trigger] crate::reaper::answers(
                names@,
                "macrdp-rdpdr-"@,
                true,
                self_pid,
                is_alive,
                alive,
            ) && out@ == crate::reaper::stale_positions(
                names@,
                "macrdp-rdpdr-"@,
                true,
                self_pid,
                alive,
            ),
{
    for_each_stale(names, "macrdp-rdpdr-", true, self_pid, is_alive)
}

/// Each status that the client's file system gives for a failure stands for that failure, and
/// any other for a failed transfer.
pub proof fn statuses_stand_for_their_failures(code: u32)
    ensures
        code == 0xC000_0022 ==> failure_of(Some(NtStatus { code })) is Acces,
        code == 0xC000_0035 ==> failure_of(Some(NtStatus { code })) is Exist,
        code == 0xC000_000F ==> failure_of(Some(NtStatus { code })) is NoEnt,
        code == 0xC000_0103 ==> failure_of(Some(NtStatus { code })) is NotDir,
        code == 0xC000_0101 ==> failure_of(Some(NtStatus { code })) is NotEmpty,
        code == 0xC000_00BB ==> failure_of(Some(NtStatus { code })) is NotSupp,
        code == 0xC000_0001 ==> failure_of(Some(NtStatus { code })) is Io,
        code < 0xC000_0000 ==> failure_of(Some(NtStatus { code })) is Io,
        failure_of(None) is Io,
{
}

/// After an announcement exactly the drives that were served and those that were announced
/// are served; no other device is.
pub proof fn announced_drives_are_served(
    served: Seq<u32>,
    devices: Seq<AnnouncedDevice>,
    id: u32,
)
    ensures
        drives_after(served, devices).contains(id) <==> served.contains(id) || exists|i: int|
            0 <= i < devices.len() && (#[trigger] devices[i]).device_id == id && devices[i].device_type
                is Filesystem,
    decreases devices.len(),
{
    if devices.len() > 0 {
        let front = devices.drop_last();
        let d = devices.last();
        let rest = drives_after(served, front);
        announced_drives_are_served(served, front, id);
        if rest.contains(id) {
            let j = choose|j: int| 0 <= j < rest.len() && rest[j] == id;
            assert(drives_after(served, devices)[j] == id);
        }
        if exists|i: int|
            0 <= i < front.len() && (#[trigger] front[i]).device_id == id && front[i].device_type
                is Filesystem {
            let i = choose|i: int|
                0 <= i < front.len() && (#[trigger] front[i]).device_id == id && front[i].device_type
                    is Filesystem;
            assert(devices[i] == front[i]);
        }
        if d.device_type == DeviceType::Filesystem && d.device_id == id {
            let all = drives_after(served, devices);
            if !rest.contains(id) {
                assert(all[all.len() - 1] == id);
            }
            assert(devices[devices.len() - 1] == d);
        }
        if exists|i: int|
            0 <= i < devices.len() && (#[trigger] devices[i]).device_id == id
                && devices[i].device_type is Filesystem {
            let i = choose|i: int|
                0 <= i < devices.len() && (#[trigger] devices[i]).device_id == id
                    && devices[i].device_type is Filesystem;
            if i < front.len() {
                assert(front[i] == devices[i]);
            }
        }
        let all = drives_after(served, devices);
        if all.contains(id) {
            let j = choose|j: int| 0 <= j < all.len() && all[j] == id;
            if j < rest.len() {
                assert(rest[j] == id);
            } else {
                assert(d.device_id == id && devices[devices.len() - 1] == d);
            }
        }
    }
}

/// The first card reader of an announcement is taken, whatever else comes before it.
pub proof fn the_first_reader_is_taken(devices: Seq<AnnouncedDevice>, from: int, i: int)
    requires
        0 <= from <= i <= devices.len(),
        forall|k: int| from <= k < i ==> !((#[trigger] devices[k]).device_type is Smartcard),
    ensures
        i < devices.len() && devices[i].device_type is Smartcard ==> first_reader(devices, from) == Some(
            i,
        ),
        i == devices.len() ==> first_reader(devices, from) is None,
    decreases i - from,
{
    if from < i {
        assert(!(devices[from].device_type is Smartcard));
        the_first_reader_is_taken(devices, from + 1, i);
    }
}

} // verus!
