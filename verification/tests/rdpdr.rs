use macrdp::env::Environment;
use macrdp::rdpdr::smartcard::{
    any_card, find_atr, next_request, port, power_off_reply, power_on_reply, presence_reply,
    transmit_reply, CardError, Parsed, Presence, ReaderState, Request, ScardContext, Session, Step,
    MAX_APDU_LEN, SCARD_STATE_PRESENT,
};
use macrdp::rdpdr::surface::{
    attr, fallback_dir_name, join_remote, mount_options, name_text, pick_mountpoint, read_eof,
    readdir_page, readlink, sanitize_label, symlink, FsCache, LiveMounts, Lookup, RdpEntry,
    ReadStep, ROOT_ID,
};
use macrdp::rdpdr::{
    host_label, hostname, ntstatus_to_nfsstat3, shutdown_cleanup, AnnouncedDevice, DeviceAction, DeviceType,
    MacRdpdr, Nfsstat3, NtStatus, ACCESS_DENIED, DIRECTORY_NOT_EMPTY, NOT_A_DIRECTORY,
    NOT_SUPPORTED, NO_SUCH_FILE, OBJECT_NAME_COLLISION, UNSUCCESSFUL,
};
use macrdp::time::{Duration, Instant};

fn status(code: u32) -> Option<NtStatus> {
    Some(NtStatus { code })
}

#[test]
fn ntstatus_maps_to_expected_nfs_errors() {
    assert!(matches!(ntstatus_to_nfsstat3(status(ACCESS_DENIED)), Nfsstat3::Acces));
    assert!(matches!(ntstatus_to_nfsstat3(status(OBJECT_NAME_COLLISION)), Nfsstat3::Exist));
    assert!(matches!(ntstatus_to_nfsstat3(status(NO_SUCH_FILE)), Nfsstat3::NoEnt));
    assert!(matches!(ntstatus_to_nfsstat3(status(NOT_A_DIRECTORY)), Nfsstat3::NotDir));
    assert!(matches!(ntstatus_to_nfsstat3(status(DIRECTORY_NOT_EMPTY)), Nfsstat3::NotEmpty));
    assert!(matches!(ntstatus_to_nfsstat3(status(NOT_SUPPORTED)), Nfsstat3::NotSupp));
}

#[test]
fn unknown_or_absent_status_falls_back_to_io() {
    assert!(matches!(ntstatus_to_nfsstat3(None), Nfsstat3::Io));
    assert!(matches!(ntstatus_to_nfsstat3(status(UNSUCCESSFUL)), Nfsstat3::Io));
}

fn device(device_id: u32, device_type: DeviceType) -> AnnouncedDevice {
    AnnouncedDevice { device_id, device_type }
}

#[test]
fn announced_devices_are_taken_up_once() {
    let mut h = MacRdpdr::new(true, true).build_backend();
    let devices = vec![
        device(1, DeviceType::Printer),
        device(2, DeviceType::Filesystem),
        device(3, DeviceType::Smartcard),
        device(4, DeviceType::Filesystem),
    ];
    assert_eq!(h.on_devices_announced(&devices), Vec::new());
    h.set_handle();
    assert_eq!(
        h.on_devices_announced(&devices),
        vec![DeviceAction::Mount(1), DeviceAction::Mount(3), DeviceAction::Bridge(2)]
    );
    assert_eq!(h.on_devices_announced(&devices), Vec::new());
}

#[test]
fn what_is_switched_off_is_left_alone() {
    let mut h = MacRdpdr::new(false, true).build_backend();
    h.set_handle();
    let devices = vec![device(2, DeviceType::Filesystem), device(3, DeviceType::Smartcard)];
    assert_eq!(h.on_devices_announced(&devices), vec![DeviceAction::Bridge(1)]);
}

#[test]
fn host_names_end_at_the_first_zero() {
    assert_eq!(hostname(0, b"studio\0rest"), "studio");
    assert_eq!(hostname(-1, b"studio\0"), "macrdp");
    assert_eq!(hostname(0, b"\0studio"), "macrdp");
    assert_eq!(hostname(0, b"a\xffb\0"), "a\u{fffd}b");
    assert_eq!(host_label("x".to_string()), "x");
    assert_eq!(host_label(String::new()), "macrdp");
}

#[test]
fn names_are_read_as_text() {
    assert_eq!(name_text("b\u{e9}b\u{e9}".as_bytes()), "b\u{e9}b\u{e9}");
    assert_eq!(name_text(&[b'x', 0xff]), "x\u{fffd}");
}

#[test]
fn numbers_stay_with_their_path() {
    let mut c = FsCache::new();
    let a = c.intern(ROOT_ID, "\\a", true, 0);
    let b = c.intern(a, "\\a\\b.txt", false, 10);
    assert_ne!(a, b);
    assert_eq!(c.intern(a, "\\a\\b.txt", false, 12), b);
    assert_eq!(c.getattr(7, b).unwrap().size, 12);
    c.forget(b);
    assert_eq!(c.getattr(7, b), Err(Nfsstat3::NoEnt));
    assert!(c.resolve("\\a\\b.txt").is_none());
}

#[test]
fn files_are_looked_up_by_name() {
    let mut c = FsCache::new();
    let (dir, _) = c.created(0, ROOT_ID, "\\docs", true);
    let path = c.child_path(dir, "a.txt").unwrap();
    assert_eq!(path, "\\docs\\a.txt");
    assert!(matches!(c.lookup(dir, b"a.txt"), Ok(Lookup::List(p)) if p == path));
    let (file, _) = c.created(0, dir, &path, false);
    assert!(matches!(c.lookup(dir, b"a.txt"), Ok(Lookup::Found(id)) if id == file));
    assert!(matches!(c.lookup(dir, b"."), Ok(Lookup::Found(id)) if id == dir));
    assert!(matches!(c.lookup(dir, b".."), Ok(Lookup::Found(id)) if id == ROOT_ID));
    assert!(matches!(c.lookup(file, b"x"), Err(Nfsstat3::NotDir)));
    assert_eq!(c.lookup_listed("\\docs\\zzz"), Err(Nfsstat3::NoEnt));
}

#[test]
fn written_files_grow() {
    let mut c = FsCache::new();
    let (file, _) = c.created(0, ROOT_ID, "\\f", false);
    assert!(matches!(c.read(file, 0), Ok(ReadStep::End)));
    assert_eq!(c.write_done(0, file, 5, 10).size, 15);
    assert_eq!(c.write_done(0, file, 0, 3).size, 15);
    assert!(matches!(c.read(file, 14), Ok(ReadStep::Fetch(p, 15)) if p == "\\f"));
    assert!(matches!(c.read(ROOT_ID, 0), Err(Nfsstat3::IsDir)));
    let s = c.setattr(file, Some(4)).unwrap();
    assert_eq!(s.set_len, Some(("\\f".to_string(), 4)));
    c.set_size(file, 4);
    assert_eq!(c.setattr_done(0, file, false).size, 4);
    assert_eq!(c.write(ROOT_ID).err(), Some(Nfsstat3::IsDir));
}

#[test]
fn renamed_files_are_found_at_their_new_place() {
    let mut c = FsCache::new();
    let (file, _) = c.created(0, ROOT_ID, "\\old", false);
    let plan = c.rename(ROOT_ID, b"old", ROOT_ID, b"new").unwrap();
    assert_eq!((plan.from.as_str(), plan.to.as_str()), ("\\old", "\\new"));
    assert_eq!(plan.source.map(|k| (k.id, k.is_dir, k.size)), Some((file, false, 0)));
    c.renamed(file, ROOT_ID, "\\new", false, 3);
    assert!(c.rename(ROOT_ID, b"old", ROOT_ID, b"x").unwrap().source.is_none());
    assert!(matches!(c.rename(99, b"old", ROOT_ID, b"x"), Err(Nfsstat3::NoEnt)));
    assert!(c.resolve("\\old").is_none());
    assert_eq!(c.resolve("\\new").unwrap().size, 3);
}

#[test]
fn removals_name_their_target() {
    let mut c = FsCache::new();
    let (dir, _) = c.created(0, ROOT_ID, "\\d", true);
    assert_eq!(c.create(dir, b"f"), Ok("\\d\\f".to_string()));
    assert_eq!(c.create(99, b"f"), Err(Nfsstat3::NoEnt));
    let unknown = c.remove(dir, b"f").unwrap();
    assert!(unknown.target.is_none());
    assert_eq!(c.target_listed(&unknown.path), Err(Nfsstat3::NoEnt));
    let ids = c.absorb_listing(dir, "\\d", &vec![entry("f")]);
    assert_eq!(c.target_listed(&unknown.path).unwrap().id, ids[0]);
    assert_eq!(c.remove(dir, b"f").unwrap().target.map(|k| (k.id, k.is_dir)), Some((ids[0], false)));
    assert!(c.remove(ROOT_ID, b"d").unwrap().target.unwrap().is_dir);
    assert!(matches!(c.remove(ids[0], b"x"), Err(Nfsstat3::NotDir)));
    c.forget(ids[0]);
    assert!(c.remove(dir, b"f").unwrap().target.is_none());
    assert!(matches!(c.lookup(dir, &[0xff]), Ok(Lookup::List(p)) if p == "\\d\\\u{fffd}"));
}

fn entry(name: &str) -> RdpEntry {
    RdpEntry { name: name.to_string(), is_dir: false, size: 1 }
}

#[test]
fn listings_come_in_pages() {
    let mut c = FsCache::new();
    let entries = vec![entry("a"), entry("b"), entry("c")];
    let ids = c.absorb_listing(ROOT_ID, "\\", &entries);
    let first = readdir_page(0, &ids, &entries, 0, 2);
    assert!(!first.end);
    assert_eq!(first.entries.len(), 2);
    let last = first.entries[1].fileid;
    let second = readdir_page(0, &ids, &entries, last, 2);
    assert!(second.end);
    let names: Vec<&[u8]> = first
        .entries
        .iter()
        .chain(second.entries.iter())
        .map(|e| e.name.as_slice())
        .collect();
    assert_eq!(names, vec![b"a".as_slice(), b"b", b"c"]);
    assert_eq!(c.lookup_listed("\\b"), Ok(ids[1]));
}

#[test]
fn pages_name_every_child_once_however_it_is_listed() {
    let mut c = FsCache::new();
    let names = ["e", "b", "d", "a", "c"];
    let mut told: Vec<u64> = Vec::new();
    let mut start_after = 0;
    for turn in 0..3 {
        let mut order: Vec<&str> = names.to_vec();
        order.rotate_left(turn);
        let entries: Vec<RdpEntry> = order.iter().map(|n| entry(n)).collect();
        let ids = c.absorb_listing(ROOT_ID, "\\", &entries);
        let page = readdir_page(0, &ids, &entries, start_after, 2);
        assert!(page.entries.len() <= 2);
        assert_eq!(page.end, turn == 2);
        told.extend(page.entries.iter().map(|e| e.fileid));
        start_after = *told.last().unwrap();
    }
    assert_eq!(told, vec![2, 3, 4, 5, 6]);
    assert!(readdir_page(0, &Vec::new(), &Vec::new(), 0, 2).end);
}

#[test]
fn numbers_are_never_given_out_twice() {
    let mut c = FsCache::new();
    let a = c.intern(ROOT_ID, "\\a", false, 1);
    c.forget(a);
    let b = c.intern(ROOT_ID, "\\b", false, 1);
    let again = c.intern(ROOT_ID, "\\a", false, 1);
    assert!(a != b && again != a && again != b);
    assert_eq!(c.intern(ROOT_ID, "\\", true, 0), ROOT_ID);
}

#[test]
fn attributes_of_files_and_directories() {
    let f = attr(9, 5, false, 100);
    assert_eq!((f.mode, f.nlink, f.size, f.fileid, f.seconds), (0o644, 1, 100, 5, 9));
    let d = attr(9, 5, true, 0);
    assert_eq!((d.mode, d.nlink, d.size, d.is_dir), (0o755, 2, 4096, true));
    assert!(read_eof(5, 5, 10));
    assert!(!read_eof(5, 4, 10));
}

#[test]
fn links_are_not_offered() {
    assert_eq!(symlink(), Nfsstat3::RoFs);
    assert_eq!(readlink(), Nfsstat3::NotSupp);
}

#[test]
fn paths_are_joined_the_remote_way() {
    assert_eq!(join_remote("\\", "a"), "\\a");
    assert_eq!(join_remote("\\a", "b"), "\\a\\b");
}

#[test]
fn mounts_are_named_and_forgotten() {
    assert_eq!(
        mount_options(4000),
        "nolocks,vers=3,tcp,rsize=262144,wsize=262144,readahead=4,port=4000,mountport=4000,actimeo=5"
    );
    assert_eq!(fallback_dir_name(77), "macrdp-rdpdr-77");
    let taken = |p: &str| p == "/Volumes/C on client" || p.ends_with(" 2");
    let free = pick_mountpoint("x", taken);
    assert!(!taken(&free));
    let mut m = LiveMounts::new();
    m.register_mount("/a".to_string());
    m.register_mount("/b".to_string());
    m.unregister_mount("/a");
    assert_eq!(shutdown_cleanup(&mut m), vec!["/b".to_string()]);
    assert!(m.paths.is_empty());
}

#[test]
fn labels_hold_no_path_separators() {
    assert!(!sanitize_label("C:/x").contains('/'));
    assert!(!sanitize_label("").is_empty());
}

#[test]
fn card_requests_are_read_from_bytes() {
    assert!(matches!(next_request(&[]), Parsed::Incomplete));
    assert!(matches!(next_request(&[4, 9]), Parsed::Request(Request::Presence, 1)));
    assert!(matches!(next_request(&[1]), Parsed::Request(Request::PowerOn, 1)));
    assert!(matches!(next_request(&[2]), Parsed::Request(Request::PowerOff, 1)));
    assert!(matches!(next_request(&[9]), Parsed::Close));
    let bytes = [3, 0, 0, 0, 2, 0xA0, 0xB0, 0, 0, 1, 2, 77];
    match next_request(&bytes) {
        Parsed::Request(Request::Transmit { apdu, recv_len }, n) => {
            assert_eq!(apdu, vec![0xA0, 0xB0]);
            assert_eq!(recv_len, 258);
            assert_eq!(n, 11);
        }
        other => panic!("expected a transmission, got {other:?}"),
    }
    assert!(matches!(next_request(&bytes[..10]), Parsed::Incomplete));
    let mut long = vec![3];
    long.extend_from_slice(&(MAX_APDU_LEN as u32 + 1).to_be_bytes());
    assert!(matches!(next_request(&long), Parsed::Close));
}

#[test]
fn card_replies() {
    assert_eq!(presence_reply(true), vec![1]);
    assert_eq!(presence_reply(false), vec![0]);
    assert_eq!(power_on_reply(Some(&vec![0x3B, 0x00])), vec![0, 2, 0x3B, 0x00]);
    assert_eq!(power_on_reply(None), vec![1]);
    assert_eq!(transmit_reply(Some(&vec![0x90, 0x00])), vec![0, 0, 0, 0, 2, 0x90, 0x00]);
    assert_eq!(transmit_reply(None), vec![1]);
    assert_eq!(power_off_reply(), vec![0]);
}

fn reader(state: u32, atr: &[u8]) -> ReaderState {
    ReaderState { event_state: state, atr_length: atr.len() as u32, atr: atr.to_vec() }
}

#[test]
fn a_conversation_with_a_card() {
    let now = Instant { nanos: 1_000_000_000 };
    let mut s = Session::new();
    assert!(matches!(s.transmit(), Err(CardError::NotConnected)));
    assert!(matches!(s.power_on(), Step::EstablishContext));
    let ctx = ScardContext { value: 5 };
    s.on_context(ctx);
    assert!(matches!(s.power_on(), Step::ListReaders(c) if c == ctx));
    assert_eq!(s.on_readers(&Vec::new()), Err(CardError::NoReaders));
    s.on_readers(&vec!["Reader A".to_string(), "Reader B".to_string()]).unwrap();
    assert!(matches!(s.power_on(), Step::Connect(_, name) if name == "Reader A"));
    s.on_connected(ctx, vec![1, 2], 3);
    assert!(matches!(s.power_on(), Step::GetStatus(_, name) if name == "Reader A"));
    let states = vec![reader(0, &[9]), reader(SCARD_STATE_PRESENT, &[0x3B, 0x01])];
    assert_eq!(s.on_power_status(&states), Ok(vec![0x3B, 0x01]));
    assert_eq!(s.on_power_status(&vec![reader(0, &[9])]), Err(CardError::NoAtr));
    assert!(s.on_presence_status(&states, now));
    assert!(matches!(s.presence(now), Presence::Cached(true)));
    let later = now.checked_add(Duration::from_millis(300)).unwrap();
    assert!(matches!(s.presence(later), Presence::Ask(Step::GetStatus(_, _))));
    let (card, protocol) = s.transmit().unwrap();
    assert_eq!((card.value, protocol), (vec![1, 2], 3));
    assert!(s.power_off().is_some());
    assert!(matches!(s.transmit(), Err(CardError::NotConnected)));
    let (card, context) = s.teardown();
    assert!(card.is_none());
    assert_eq!(context, Some(ctx));
}

#[test]
fn cards_are_found_among_readers() {
    assert!(!any_card(&vec![reader(0x10, &[])]));
    assert!(any_card(&vec![reader(0x10, &[]), reader(0x22, &[])]));
    assert_eq!(find_atr(&vec![reader(0x22, &[]), reader(0x22, &[7])]), Some(vec![7]));
    assert_eq!(port(&Environment::new(Vec::new())), 40242);
}
