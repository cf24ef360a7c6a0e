use img_hotkeys::engine::{
    armed_step, pick_min_down, scan_step, try_arm, ArmedStep, Mode, ScanStep, POLL_INTERVAL_MS,
    SCAN_TICKS, SCAN_TIMEOUT_MS,
};
use img_hotkeys::store::ImageBinds;

#[test]
fn scan_window_matches_timeout() {
    assert_eq!(SCAN_TICKS, SCAN_TIMEOUT_MS / POLL_INTERVAL_MS);
}

#[test]
fn guard_drops_second_attempt() {
    // While an attempt is in flight the guard stays held and no new scan starts.
    assert_eq!(try_arm(true, false), (true, false));
    assert_eq!(try_arm(true, true), (true, false));
    // Once released, arming succeeds again.
    assert_eq!(try_arm(false, false), (true, true));
}

#[test]
fn stale_trigger_aborts_immediately() {
    assert_eq!(try_arm(false, true), (false, false));
}

#[test]
fn armed_step_decisions() {
    assert_eq!(armed_step(false, false, false), ArmedStep::Finish);
    assert_eq!(armed_step(false, true, true), ArmedStep::Finish);
    assert_eq!(armed_step(true, false, false), ArmedStep::Wait);
    assert_eq!(armed_step(true, true, true), ArmedStep::Dispatch(Mode::Record));
    assert_eq!(armed_step(true, true, false), ArmedStep::Dispatch(Mode::Playback));
}

#[test]
fn scan_times_out_after_window() {
    let keys = vec![10, 20];
    let none_down = vec![false, false];
    let some_down = vec![true, false];
    assert_eq!(scan_step(SCAN_TICKS, &keys, &none_down), ScanStep::TimedOut);
    assert_eq!(scan_step(SCAN_TICKS, &keys, &some_down), ScanStep::TimedOut);
    assert_eq!(scan_step(SCAN_TICKS + 1, &keys, &some_down), ScanStep::TimedOut);
    assert_eq!(scan_step(0, &keys, &none_down), ScanStep::Continue);
    assert_eq!(scan_step(SCAN_TICKS - 1, &keys, &none_down), ScanStep::Continue);
}

#[test]
fn scan_with_no_press_changes_nothing() {
    let mut s = ImageBinds::new();
    s.add_img(30, Some(vec![1]));
    let before = s.save();
    let keys = s.get_keys();
    let down = vec![false; keys.len()];
    let mut found = None;
    for tick in 0..=SCAN_TICKS {
        match scan_step(tick, &keys, &down) {
            ScanStep::Found(k) => found = Some(k),
            ScanStep::Continue => {}
            ScanStep::TimedOut => break,
        }
    }
    assert_eq!(found, None);
    assert_eq!(s.save(), before);
}

#[test]
fn scan_picks_lowest_pressed_key() {
    let keys = vec![9, 3, 5];
    assert_eq!(pick_min_down(&keys, &vec![true, true, true]), Some(3));
    assert_eq!(pick_min_down(&keys, &vec![true, false, true]), Some(5));
    assert_eq!(pick_min_down(&keys, &vec![true, false, false]), Some(9));
    assert_eq!(pick_min_down(&keys, &vec![false, false, false]), None);
    assert_eq!(scan_step(0, &keys, &vec![true, true, true]), ScanStep::Found(3));
}

#[test]
fn playback_scan_sees_only_bound_keys() {
    let mut s = ImageBinds::new();
    s.add_img(7, Some(vec![4, 2]));
    // The playback candidate list is a snapshot of the bound keys; a key
    // that was never recorded is not in it, so pressing it cannot be seen.
    let keys = s.get_keys();
    assert_eq!(keys, vec![7]);
    let down = vec![false];
    assert_eq!(scan_step(0, &keys, &down), ScanStep::Continue);
    // And an unbound key looked up directly is a plain miss, not a fault.
    assert_eq!(s.get_img(4), None);
}

#[test]
fn record_then_playback_scenario() {
    // The store starts empty.
    let mut s = ImageBinds::new();
    assert!(s.get_keys().is_empty());

    // The user holds the modifier; no other attempt is in flight and the
    // trigger is up, so the attempt arms.
    let (guard, armed) = try_arm(false, false);
    assert!(guard && armed);
    // The trigger fires while shift is held: record.
    assert_eq!(armed_step(true, true, true), ArmedStep::Dispatch(Mode::Record));
    // Within the window the key for letter A is down; the clipboard holds a
    // bitmap.
    let alphabet: Vec<u64> = (30..56).collect();
    let key_a: u64 = 30;
    let mut down = vec![false; alphabet.len()];
    down[0] = true;
    let picked = match scan_step(3, &alphabet, &down) {
        ScanStep::Found(k) => k,
        other => panic!("expected a found key, got {:?}", other),
    };
    assert_eq!(picked, key_a);
    let bitmap = vec![0x42, 0x4D, 0, 1, 2, 3];
    assert!(s.add_img(picked, Some(bitmap.clone())));
    // The file image is rewritten to reflect the store.
    let file_bytes = s.save();
    let reloaded = ImageBinds::load(&file_bytes);
    assert_eq!(reloaded.get_img(key_a), Some(&bitmap));
    // The attempt finishes and the guard is released.
    assert_eq!(try_arm(true, false), (true, false));

    // Later: modifier held, trigger without shift: playback.
    let (guard, armed) = try_arm(false, false);
    assert!(guard && armed);
    assert_eq!(armed_step(true, true, false), ArmedStep::Dispatch(Mode::Playback));
    // The scan watches only the bound keys; A is down.
    let bound = s.get_keys();
    assert_eq!(bound, vec![key_a]);
    let pressed = vec![true];
    match scan_step(0, &bound, &pressed) {
        ScanStep::Found(k) => {
            // The clipboard is set to the recorded bytes.
            assert_eq!(s.get_img(k), Some(&bitmap));
        }
        other => panic!("expected a found key, got {:?}", other),
    }
}
