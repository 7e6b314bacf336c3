use macrdp::env::Environment;
use macrdp::time::Duration;
use macrdp::virtual_display::{
    shield_keeps_physical_main, take_detach_reenable_failed, Bounds, CapturedPrimary,
    DetachedPrimary, DisplayError, EnableStep, Panel, PanelState, Placement, PrimaryOverride,
    ResizeStep, ShieldedPrimary, ShowStep, VirtualDisplay,
};
use std::collections::HashMap;

fn panel(id: u32, x: i32, y: i32, width: i32) -> Panel {
    Panel { id, bounds: Bounds { x, y, width, height: 1000 } }
}

fn place(id: u32, x: i32, y: i32) -> Placement {
    Placement { id, x, y }
}

fn state(active: bool, width: i32) -> PanelState {
    PanelState { active, width }
}

fn arrange(layout: &mut HashMap<u32, (i32, i32)>, moves: &[Placement]) {
    for m in moves {
        layout.insert(m.id, (m.x, m.y));
    }
}

#[test]
fn a_display_without_a_size_is_not_ready() {
    let zero = Bounds { x: 1, y: 2, width: 0, height: 5 };
    assert!(matches!(VirtualDisplay::new(9, zero), Err(DisplayError::NotActivated { id: 9 })));
    let v = VirtualDisplay::new(9, Bounds { x: 1, y: 2, width: 3, height: 4 }).unwrap();
    assert_eq!(v.display_id(), 9);
    assert_eq!(v.origin_pts(), (1, 2));
    assert_eq!(v.size_pts(), (3, 4));
}

#[test]
fn a_new_size_is_waited_for() {
    let old = Bounds { x: 10, y: 0, width: 800, height: 600 };
    let new = Bounds { x: 20, y: 5, width: 1920, height: 1080 };
    let mut v = VirtualDisplay::new(9, old).unwrap();
    assert_eq!(
        v.resize(1920, 1080, old, Duration::from_millis(100)),
        ResizeStep::Wait(Duration::from_millis(50))
    );
    assert_eq!(v.resize(1920, 1080, old, Duration::from_secs(3)), ResizeStep::TimedOut);
    assert_eq!(v.size_pts(), (800, 600));
    assert_eq!(v.resize(1920, 1080, new, Duration::from_secs(9)), ResizeStep::Done);
    assert_eq!(v.origin_pts(), (20, 5));
    assert_eq!(v.size_pts(), (1920, 1080));
}

#[test]
fn a_display_that_drifted_is_anchored_again() {
    let b = Bounds { x: 0, y: 0, width: 800, height: 600 };
    let mut v = VirtualDisplay::new(9, Bounds { x: 7, ..b }).unwrap();
    assert_eq!(v.reanchor_as_main(b, 9), None);
    assert_eq!(v.reanchor_as_main(b, 1), Some(place(9, 0, 0)));
    assert_eq!(v.reanchor_as_main(Bounds { x: 7, ..b }, 9), Some(place(9, 0, 0)));
    v.on_reanchored();
    assert_eq!(v.origin_pts(), (0, 0));
}

#[test]
fn overriding_the_main_display_can_be_undone() {
    let vd = panel(9, 1512, 0, 1920);
    let main = panel(1, 0, 0, 1512);
    assert!(PrimaryOverride::install(vd, vd).is_none());
    let (o, moves) = PrimaryOverride::install(vd, main).unwrap();
    assert_eq!(moves, vec![place(9, 0, 0), place(1, 1920, 0)]);
    let before = HashMap::from([(1, (0, 0)), (9, (1512, 0)), (5, (-3, -3))]);
    let mut layout = before.clone();
    arrange(&mut layout, &moves);
    assert_ne!(layout, before);
    arrange(&mut layout, &o.restore());
    assert_eq!(layout, before);
}

#[test]
fn detached_displays_stand_side_by_side_and_come_back() {
    let vd = panel(9, 3000, 0, 1920);
    let actives = vec![panel(1, 0, 0, 1512), vd, panel(2, 1512, -50, 1080)];
    let d = DetachedPrimary::install(vd, &actives, &vec![]).unwrap();
    let states = vec![state(true, 1512), state(true, 1080)];
    let moves = d.moves(1920, &states);
    assert_eq!(moves, vec![place(9, 0, 0), place(1, 1920, 0), place(2, 3432, 0)]);
    assert_eq!(d.disables(&states), vec![1, 2]);
    assert_eq!(d.disables(&vec![state(false, 0), state(true, 5)]), vec![2]);
    let before = HashMap::from([(1, (0, 0)), (2, (1512, -50)), (9, (3000, 0))]);
    let mut layout = before.clone();
    arrange(&mut layout, &moves);
    arrange(&mut layout, &d.restore());
    assert_eq!(layout, before);
}

#[test]
fn displays_left_off_are_picked_up_again() {
    let vd = panel(9, 0, 0, 1920);
    let d = DetachedPrimary::install(vd, &vec![vd], &vec![9, 1]).unwrap();
    assert_eq!(d.restore(), vec![place(1, 0, 0), place(9, 0, 0)]);
    assert_eq!(d.moves(1920, &vec![state(false, 1512)]), vec![place(9, 0, 0)]);
    assert!(matches!(
        DetachedPrimary::install(vd, &vec![vd], &vec![9]),
        Err(DisplayError::NoPhysicalDisplay)
    ));
}

#[test]
fn switching_on_again_is_tried_three_times() {
    let mut failed = false;
    let retry = EnableStep::RetryAfter(Duration::from_secs(2));
    assert_eq!(DetachedPrimary::on_enabled(1, false, &mut failed), retry);
    assert_eq!(DetachedPrimary::on_enabled(2, false, &mut failed), retry);
    assert!(!failed);
    assert_eq!(DetachedPrimary::on_enabled(2, true, &mut failed), EnableStep::Reposition);
    assert_eq!(DetachedPrimary::on_enabled(3, false, &mut failed), EnableStep::GiveUp);
    assert!(take_detach_reenable_failed(&mut failed));
    assert!(!take_detach_reenable_failed(&mut failed));
}

#[test]
fn a_refused_display_lets_the_others_go() {
    let vd = panel(9, 0, 0, 1920);
    let actives = vec![panel(1, 0, 0, 10), panel(2, 0, 0, 10), vd];
    let mut c = CapturedPrimary::install(vd, &actives).unwrap();
    assert_eq!(c.next_capture(), Some(1));
    assert!(c.on_capture(true).is_ok());
    assert_eq!(c.next_capture(), Some(2));
    let (e, release) = c.on_capture(false).unwrap_err();
    assert_eq!(e, DisplayError::CaptureRefused { id: 2 });
    assert_eq!(release, vec![1]);
    assert!(c.captured_ids().is_empty());
    assert!(matches!(
        CapturedPrimary::install(vd, &vec![vd]),
        Err(DisplayError::NoPhysicalDisplay)
    ));
}

#[test]
fn captured_displays_are_blackened_and_restored() {
    let vd = panel(9, 100, 0, 1920);
    let mut c = CapturedPrimary::install(vd, &vec![panel(1, 5, 6, 10), vd]).unwrap();
    assert_eq!(c.moves(1920, &vec![state(true, 10)]), vec![place(9, 0, 0), place(1, 1920, 0)]);
    c.on_capture(true).unwrap();
    assert_eq!(c.next_capture(), None);
    assert_eq!(c.captured_ids(), vec![1]);
    assert_eq!(c.reassert_blanking(&vec![true]), 0);
    assert_eq!(c.reassert_blanking(&vec![false]), 1);
    assert_eq!(c.restore(), vec![place(1, 5, 6), place(9, 100, 0)]);
}

#[test]
fn covers_are_raised_over_every_display_or_none() {
    let vd = panel(9, 100, 0, 1920);
    let actives = vec![panel(1, 5, 6, 10), panel(2, 7, 8, 10), vd];
    let s = ShieldedPrimary::install(vd, &actives, &vec![]).unwrap();
    assert!(matches!(s.on_show(0, Some(2)), ShowStep::Raised));
    let waits = [300, 500, 800, 1200, 1600, 2000];
    for (i, ms) in waits.iter().enumerate() {
        match s.on_show(i, Some(1)) {
            ShowStep::RetryAfter(d) => assert_eq!(d, Duration::from_millis(*ms)),
            other => panic!("expected a wait, got {other:?}"),
        }
    }
    match s.on_show(6, None) {
        ShowStep::Refuse { hide, remirror } => {
            assert_eq!(hide, vec![3]);
            assert!(remirror.is_empty());
        }
        other => panic!("expected a refusal, got {other:?}"),
    }
    assert!(matches!(s.on_show(6, Some(2)), ShowStep::Raised));
    assert_eq!(s.show_ids(), vec![9]);
    assert_eq!(s.reassert_blanking(), (0, 9));
}

#[test]
fn mirrors_are_broken_and_made_again() {
    let vd = panel(9, 100, 0, 1920);
    let mut s = ShieldedPrimary::install(vd, &vec![vd], &vec![9, 1, 2]).unwrap();
    assert_eq!(s.break_mirrors(&vec![9, 0]), vec![1]);
    assert_eq!(s.displace(1920, &vec![0]), vec![place(9, 0, 0), place(1, 1920, 0)]);
    assert_eq!(s.remirror(), vec![1]);
    assert_eq!(s.restore(), Vec::new());
    let states = vec![state(true, 10), state(false, 10)];
    assert_eq!(s.moves(true, 1920, &states), None);
    assert_eq!(
        s.moves(false, 1920, &states),
        Some(vec![place(9, 0, 0), place(1, 1920, 0)])
    );
    assert!(s.on_arranged(true).is_none());
    assert_eq!(s.restore(), vec![place(1, 0, 0), place(2, 0, 0), place(9, 100, 0)]);
    let down = s.lower();
    assert_eq!((down.hide, down.remirror), (vec![3], vec![1]));
}

#[test]
fn a_refusal_leaves_no_display_black_or_apart() {
    let vd = panel(9, 100, 0, 1920);
    let mut s = ShieldedPrimary::install(vd, &vec![vd], &vec![9, 1, 2]).unwrap();
    assert_eq!(s.break_mirrors(&vec![9, 9]), vec![1, 2]);
    assert_eq!(s.on_unmirrored(false), Err(DisplayError::StillMirrored));
    assert_eq!(s.on_unmirrored(true), Ok(()));
    match s.on_show(6, Some(1)) {
        ShowStep::Refuse { hide, remirror } => assert_eq!((hide, remirror), (vec![3], vec![1, 2])),
        other => panic!("expected a refusal, got {other:?}"),
    }
    let undo = s.on_arranged(false).unwrap();
    assert_eq!((undo.hide, undo.remirror), (vec![3], vec![1, 2]));
    assert_eq!(s.restore(), Vec::new());
}

#[test]
fn windows_are_gathered_after_a_displacement_only() {
    let vd = panel(9, 100, 0, 1920);
    let mut s = ShieldedPrimary::install(vd, &vec![vd], &vec![9, 1]).unwrap();
    assert!(s.gather().is_none());
    s.on_displaced(false);
    assert!(s.gather().is_none());
    s.on_displaced(true);
    let g = s.gather().unwrap();
    assert_eq!(g.display, 9);
    assert_eq!(g.first_wait, Duration::from_millis(900));
    assert_eq!(g.second_wait, Duration::from_millis(1000));
}

#[test]
fn the_physical_display_stays_main_unless_switched_off() {
    let env = |v: &str| {
        Environment::new(vec![(
            "MACRDP_SHIELD_KEEP_PHYSICAL_MAIN".to_string(),
            v.to_string(),
        )])
    };
    assert!(shield_keeps_physical_main(&Environment::new(Vec::new())));
    assert!(shield_keeps_physical_main(&env("1")));
    assert!(!shield_keeps_physical_main(&env("0")));
    assert!(!shield_keeps_physical_main(&env("False")));
    assert!(!shield_keeps_physical_main(&env("")));
    assert!(shield_keeps_physical_main(&env(" 0")));
}
