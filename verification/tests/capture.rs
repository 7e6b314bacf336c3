use macrdp::capture::{
    adopt_client_size, backing_size, capture_scaling_mode, changed_pixels, click_stamp,
    recently_clicked, rect_update, request_initial_size, select_display, split_strips,
    BitmapUpdate, CaptureError, CaptureLoop, ClickSignal, DesktopSize, DirtyRect, DisplayInfo,
    DisplayUpdate, KeyframeOnChange, PixelFormat, SharedDesktopSize, StubError, StubNext,
    StubUpdates, Turn, MAX_BITMAP_UPDATE_PIXELS,
};
use macrdp::time::{Duration, Instant};
use std::collections::VecDeque;

fn size(width: u16, height: u16) -> DesktopSize {
    DesktopSize { width, height }
}

#[test]
fn shared_desktop_size_roundtrips() {
    let size = SharedDesktopSize::new(1512, 982);
    assert_eq!(size.get(), (1512, 982));
    size.set(1920, 1080);
    assert_eq!(size.get(), (1920, 1080));
    let clone = size.clone();
    clone.set(u16::MAX, 1);
    assert_eq!(size.get(), (u16::MAX, 1));
    size.set_letterbox(true);
    assert!(clone.letterbox());
}

#[test]
fn split_strips_passes_small_rects_through() {
    assert_eq!(split_strips(0, 0, 1280, 720), vec![(0, 0, 1280, 720)]);
    assert_eq!(split_strips(10, 20, 640, 480), vec![(10, 20, 640, 480)]);
    assert_eq!(split_strips(0, 0, 0, 100), Vec::new());
    assert_eq!(split_strips(0, 0, 100, 0), Vec::new());
}

#[test]
fn split_strips_breaks_tall_rects_into_strips() {
    let strips = split_strips(0, 0, 1920, 1080);
    assert!(strips.len() > 1, "oversized rect should split: {strips:?}");
    for &(_, _, w, h) in &strips {
        assert!(u32::from(w) * u32::from(h) <= MAX_BITMAP_UPDATE_PIXELS);
        assert_eq!(w, 1920, "width is preserved; only rows are split");
    }
    assert_eq!(strips.first().unwrap().1, 0);
    let mut next_y = 0u16;
    for &(x, y, _, h) in &strips {
        assert_eq!(x, 0);
        assert_eq!(y, next_y);
        next_y += h;
    }
    assert_eq!(next_y, 1080, "strips cover the whole height");
    assert_eq!(strips[0], (0, 0, 1920, 480));
}

#[test]
fn adopt_client_size_adopts_in_band_change_when_auto() {
    assert_eq!(
        adopt_client_size(true, (1512, 982), size(1920, 1080)),
        Some(size(1920, 1080))
    );
}

#[test]
fn adopt_client_size_refuses_when_disabled_or_unchanged_or_out_of_band() {
    assert_eq!(adopt_client_size(false, (1512, 982), size(1920, 1080)), None);
    assert_eq!(adopt_client_size(true, (1920, 1080), size(1920, 1080)), None);
    assert_eq!(adopt_client_size(true, (1512, 982), size(199, 1080)), None);
    assert_eq!(adopt_client_size(true, (1512, 982), size(1920, 8193)), None);
    assert_eq!(
        adopt_client_size(true, (1512, 982), size(200, 8192)),
        Some(size(200, 8192))
    );
}

#[test]
fn the_served_size_is_adopted_once() {
    let served = request_initial_size(true, size(1512, 982), size(1920, 1080));
    assert_eq!(served, size(1920, 1080));
    assert_eq!(request_initial_size(true, served, size(1920, 1080)), served);
    assert_eq!(
        request_initial_size(false, size(1512, 982), size(1920, 1080)),
        size(1512, 982)
    );
}

#[test]
fn capture_scaling_mode_native_or_backing_is_one_to_one() {
    let native = (1512, 982);
    let backing = (3024, 1964);
    assert_eq!(
        capture_scaling_mode(native, backing, (1512, 982), true, false),
        (false, false)
    );
    assert_eq!(
        capture_scaling_mode(native, backing, (3024, 1964), true, false),
        (false, false)
    );
}

#[test]
fn capture_scaling_mode_letterboxes_when_scaling_on_auto_size() {
    let native = (1512, 982);
    let backing = (3024, 1964);
    assert_eq!(
        capture_scaling_mode(native, backing, (1920, 1080), true, false),
        (true, true)
    );
    assert_eq!(
        capture_scaling_mode(native, backing, (1920, 1080), true, true),
        (true, false)
    );
    assert_eq!(
        capture_scaling_mode(native, backing, (1920, 1080), false, false),
        (true, false)
    );
}

fn row(w: u16) -> DisplayUpdate {
    DisplayUpdate::Bitmap(BitmapUpdate {
        x: 0,
        y: 0,
        width: w,
        height: 1,
        format: PixelFormat::ARgb32,
        data: vec![0u8; usize::from(w) * 4],
        stride: usize::from(w) * 4,
    })
}

#[test]
fn stub_updates_yields_injected_sequence_then_ends() {
    let mut updates = StubUpdates::with_updates(VecDeque::from([row(10), row(20), row(30)]));
    for expected_w in [10u16, 20, 30] {
        match updates.next_update() {
            StubNext::Update(DisplayUpdate::Bitmap(b)) => assert_eq!(b.width, expected_w),
            other => panic!("expected bitmap width {expected_w}, got {other:?}"),
        }
    }
    assert!(matches!(updates.next_update(), StubNext::End));
}

#[test]
fn stub_shows_one_picture_and_waits() {
    let mut updates = StubUpdates::new(4, 2).unwrap();
    match updates.next_update() {
        StubNext::Update(DisplayUpdate::Bitmap(b)) => {
            assert_eq!((b.width, b.height, b.stride), (4, 2, 16));
            assert_eq!(b.data.len(), 32);
        }
        other => panic!("expected a picture, got {other:?}"),
    }
    assert!(matches!(updates.next_update(), StubNext::Idle));
    assert!(matches!(StubUpdates::new(0, 2), Err(StubError::ZeroWidth)));
    assert!(matches!(StubUpdates::new(4, 0), Err(StubError::ZeroHeight)));
}

#[test]
fn clicks_count_for_their_window() {
    let window = Duration::from_millis(400);
    assert_eq!(click_stamp(Duration::from_millis(0)), 1);
    assert_eq!(click_stamp(Duration::from_millis(250)), 250);
    assert!(!recently_clicked(0, Duration::from_millis(10), window));
    assert!(recently_clicked(250, Duration::from_millis(600), window));
    assert!(!recently_clicked(250, Duration::from_millis(900), window));
    let signal = ClickSignal::new();
    assert!(!signal.within(Duration::from_millis(10), window));
    signal.record_click(Duration::from_millis(100));
    assert!(signal.within(Duration::from_millis(200), window));
    assert!(!signal.within(Duration::from_millis(2000), window));
}

#[test]
fn displays_are_picked_by_number() {
    let displays = vec![
        DisplayInfo { id: 1, width: 1512, height: 982 },
        DisplayInfo { id: 7, width: 1920, height: 1080 },
    ];
    assert_eq!(select_display(&displays, None), Ok((1, 1512, 982)));
    assert_eq!(select_display(&displays, Some(7)), Ok((7, 1920, 1080)));
    assert_eq!(select_display(&displays, Some(9)), Err(CaptureError::NoSuchDisplay(9)));
    assert_eq!(select_display(&Vec::new(), None), Err(CaptureError::NoDisplays));
    assert_eq!(
        select_display(&vec![DisplayInfo { id: 1, width: 70000, height: 1 }], None),
        Err(CaptureError::WidthTooLarge)
    );
    assert_eq!(
        select_display(&vec![DisplayInfo { id: 1, width: 1, height: 70000 }], None),
        Err(CaptureError::HeightTooLarge)
    );
}

#[test]
fn backing_sizes_fall_back_to_points() {
    assert_eq!(backing_size(Some((3024, 1964)), (1512, 982)), (3024, 1964));
    assert_eq!(backing_size(None, (1512, 982)), (1512, 982));
}

#[test]
fn rectangles_are_cut_out_of_the_frame() {
    // Three pixels by two, four bytes each.
    let frame: Vec<u8> = (0..24).collect();
    let u = rect_update(&frame, 12, 1, 1, 2, 1).unwrap();
    assert_eq!((u.x, u.y, u.width, u.height), (1, 1, 2, 1));
    assert_eq!(u.data, vec![16, 17, 18, 19, 20, 21, 22, 23]);
    assert!(rect_update(&frame, 12, 0, 0, 0, 1).is_none());
}

#[test]
fn changed_areas_add_up() {
    assert_eq!(changed_pixels(&vec![(10, 10), (2, 3)]), 106);
    assert_eq!(changed_pixels(&Vec::new()), 0);
}

fn policy(enabled: bool) -> KeyframeOnChange {
    KeyframeOnChange {
        enabled,
        change_pct: 20,
        click_pct: 5,
        click_window: Duration::from_millis(400),
    }
}

fn t(millis: u64) -> Instant {
    Instant { nanos: 1_000_000_000_000 }.checked_add(Duration::from_millis(millis)).unwrap()
}

#[test]
fn a_large_change_asks_for_a_keyframe_once() {
    let mut l = CaptureLoop::start(false, true, policy(true), Duration::from_millis(16), 4);
    let first = l.on_frame(100, 100, 5000, false);
    assert!(first.request_keyframe);
    assert!(!l.on_frame(100, 100, 5000, false).request_keyframe);
    assert!(!l.on_frame(100, 100, 0, false).request_keyframe);
    assert!(l.on_frame(100, 100, 5000, false).request_keyframe);
}

#[test]
fn resizing_comes_before_anything_else() {
    let mut l = CaptureLoop::start(false, false, policy(false), Duration::from_millis(66), 4);
    match l.turn(t(0), Some(size(800, 600)), Some(false)) {
        Turn::Deliver(DisplayUpdate::Resize(s)) => assert_eq!(s, size(800, 600)),
        other => panic!("expected a resize, got {other:?}"),
    }
    assert!(matches!(l.turn(t(1), None, Some(false)), Turn::PollCursor));
}

#[test]
fn the_first_bitmap_frame_is_sent_whole() {
    let mut l = CaptureLoop::start(false, false, policy(false), Duration::from_millis(66), 4);
    let frame: Vec<u8> = vec![5; 4 * 4 * 4];
    let dirty = vec![DirtyRect { x: 1, y: 1, w: 1, h: 1 }];
    l.on_bitmap_frame(&frame, 16, 4, 4, Some(&dirty));
    match l.pending.pop_front() {
        Some(DisplayUpdate::Bitmap(b)) => assert_eq!((b.x, b.y, b.width, b.height), (0, 0, 4, 4)),
        other => panic!("expected the whole frame, got {other:?}"),
    }
    l.on_bitmap_frame(&frame, 16, 4, 4, Some(&dirty));
    match l.pending.pop_front() {
        Some(DisplayUpdate::Bitmap(b)) => assert_eq!((b.x, b.y, b.width, b.height), (1, 1, 1, 1)),
        other => panic!("expected one rectangle, got {other:?}"),
    }
}

#[test]
fn pointer_updates_go_out_first_and_in_order() {
    let mut l = CaptureLoop::start(false, false, policy(false), Duration::from_millis(66), 4);
    l.pending.push_back(DisplayUpdate::Resize(size(640, 480)));
    assert!(matches!(l.turn(t(0), None, None), Turn::PollCursor));
    let moves = vec![DisplayUpdate::PointerPosition(1, 2), DisplayUpdate::PointerPosition(3, 4)];
    assert!(matches!(
        l.on_cursor(moves, t(0), None),
        Turn::Deliver(DisplayUpdate::PointerPosition(1, 2))
    ));
    assert!(matches!(
        l.turn(t(1), None, None),
        Turn::Deliver(DisplayUpdate::PointerPosition(3, 4))
    ));
    assert!(matches!(l.turn(t(2), None, None), Turn::Deliver(DisplayUpdate::Resize(_))));
    assert!(matches!(l.turn(t(3), None, None), Turn::AwaitFrame { timeout: None }));
    assert!(matches!(l.turn(t(66), None, None), Turn::PollCursor));
    assert!(matches!(
        l.on_cursor(Vec::new(), t(66), None),
        Turn::AwaitFrame { timeout: None }
    ));
}

#[test]
fn the_last_frame_is_flushed() {
    let interval = Duration::from_millis(16);
    let mut l = CaptureLoop::start(false, true, policy(false), interval, 2);
    assert!(matches!(l.turn(t(0), None, None), Turn::PollCursor));
    l.on_submitted(&[1, 2, 3, 4], 4);
    assert_eq!(l.last_frame, vec![1, 2, 3, 4]);
    match l.turn(t(1), None, None) {
        Turn::AwaitFrame { timeout: Some(d) } => assert_eq!(d, interval),
        other => panic!("expected a timeout, got {other:?}"),
    }
    assert!(l.on_timeout());
    assert!(l.on_timeout());
    assert!(matches!(l.turn(t(2), None, None), Turn::AwaitFrame { timeout: None }));
}

#[test]
fn a_pause_ends_with_a_keyframe() {
    let mut l = CaptureLoop::start(false, true, policy(false), Duration::from_millis(16), 2);
    assert!(matches!(l.turn(t(0), None, Some(true)), Turn::PollCursor));
    assert!(matches!(l.turn(t(1), None, Some(true)), Turn::AwaitFrame { .. }));
    l.on_submitted(&[0; 4], 4);
    assert!(matches!(l.on_cursor(Vec::new(), t(10), Some(true)), Turn::AwaitFrame { .. }));
    assert!(matches!(l.on_cursor(Vec::new(), t(1009), Some(true)), Turn::AwaitFrame { .. }));
    match l.on_cursor(Vec::new(), t(1010), Some(true)) {
        Turn::Sleep(d) => assert_eq!(d, Duration::from_millis(100)),
        other => panic!("expected a pause, got {other:?}"),
    }
    assert!(matches!(
        l.on_cursor(Vec::new(), t(1110), Some(false)),
        Turn::AwaitFrame { timeout: None }
    ));
    let first = l.on_frame(10, 10, 0, false);
    assert!(first.request_keyframe && first.resumed);
    let second = l.on_frame(10, 10, 0, false);
    assert!(!second.request_keyframe && !second.resumed);
}
