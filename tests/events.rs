use breakout::events::{Events, ImmediateEvents, KeyState, RawEvent};

const LEFT: u32 = 37;
const RIGHT: u32 = 39;
const ESCAPE: u32 = 27;
const CLOSED: u32 = 1;
const RESIZED: u32 = 2;

const K_LEFT: usize = 0;
const K_RIGHT: usize = 1;
const K_ESCAPE: usize = 2;
const S_QUIT: usize = 0;

fn down(code: u32) -> RawEvent {
    RawEvent::Keyboard { state: KeyState::Pressed, key: Some(code) }
}

fn up(code: u32) -> RawEvent {
    RawEvent::Keyboard { state: KeyState::Released, key: Some(code) }
}

fn tracker() -> Events {
    Events::new(vec![LEFT, RIGHT, ESCAPE], vec![CLOSED])
}

fn held(e: &Events) -> Vec<bool> {
    (0..e.key_count()).map(|k| e.is_held(k)).collect()
}

fn transitions(e: &Events) -> Vec<Option<bool>> {
    (0..e.key_count()).map(|k| e.now().key(k)).collect()
}

#[test]
fn new_tracker_is_all_released() {
    let e = tracker();
    assert_eq!(e.key_count(), 3);
    assert_eq!(e.signal_count(), 1);
    assert_eq!(held(&e), vec![false, false, false]);
    assert_eq!(transitions(&e), vec![None, None, None]);
    assert!(!e.now().signal(S_QUIT));
}

#[test]
fn three_poll_scenario() {
    let mut e = tracker();
    e.poll(&[down(LEFT)]);
    assert_eq!(held(&e), vec![true, false, false]);
    assert_eq!(transitions(&e), vec![Some(true), None, None]);
    assert!(!e.now().signal(S_QUIT));

    e.poll(&[]);
    assert_eq!(held(&e), vec![true, false, false]);
    assert_eq!(transitions(&e), vec![None, None, None]);
    assert!(!e.now().signal(S_QUIT));

    e.poll(&[up(LEFT), RawEvent::Other { kind: CLOSED }]);
    assert!(!e.is_held(K_LEFT));
    assert_eq!(e.now().key(K_LEFT), Some(false));
    assert!(e.now().signal(S_QUIT));
}

#[test]
fn events_for_other_keys_leave_key_alone() {
    let mut e = tracker();
    e.poll(&[down(RIGHT)]);
    e.poll(&[down(ESCAPE), up(RIGHT), down(99), RawEvent::Other { kind: CLOSED }]);
    assert!(!e.is_held(K_LEFT));
    assert_eq!(e.now().key(K_LEFT), None);
    assert_eq!(e.now().key(K_ESCAPE), Some(true));
    assert_eq!(e.now().key(K_RIGHT), Some(false));
}

#[test]
fn press_of_released_key_triggers() {
    let mut e = tracker();
    e.poll(&[down(RIGHT), down(LEFT), up(RIGHT)]);
    assert!(e.is_held(K_LEFT));
    assert_eq!(e.now().key(K_LEFT), Some(true));
}

#[test]
fn repeated_press_of_held_key_does_not_retrigger() {
    let mut e = tracker();
    e.poll(&[down(LEFT)]);
    e.poll(&[down(LEFT)]);
    assert!(e.is_held(K_LEFT));
    assert_eq!(e.now().key(K_LEFT), None);
}

#[test]
fn double_press_in_one_batch_keeps_first_transition() {
    let mut e = tracker();
    e.poll(&[down(LEFT), down(LEFT)]);
    assert!(e.is_held(K_LEFT));
    assert_eq!(e.now().key(K_LEFT), Some(true));
}

#[test]
fn release_always_records_release() {
    let mut e = tracker();
    e.poll(&[up(LEFT)]);
    assert!(!e.is_held(K_LEFT));
    assert_eq!(e.now().key(K_LEFT), Some(false));

    e.poll(&[down(LEFT)]);
    e.poll(&[up(LEFT)]);
    assert!(!e.is_held(K_LEFT));
    assert_eq!(e.now().key(K_LEFT), Some(false));
}

#[test]
fn press_then_release_in_one_batch_ends_released() {
    let mut e = tracker();
    e.poll(&[down(LEFT), up(LEFT)]);
    assert!(!e.is_held(K_LEFT));
    assert_eq!(e.now().key(K_LEFT), Some(false));
}

#[test]
fn release_then_press_in_one_batch_keeps_release() {
    let mut e = tracker();
    e.poll(&[down(LEFT)]);
    e.poll(&[up(LEFT), down(LEFT)]);
    assert!(e.is_held(K_LEFT));
    assert_eq!(e.now().key(K_LEFT), Some(false));
}

#[test]
fn release_then_press_from_fresh_keeps_release() {
    let mut e = tracker();
    e.poll(&[up(LEFT), down(LEFT)]);
    assert!(e.is_held(K_LEFT));
    assert_eq!(e.now().key(K_LEFT), Some(false));
}

#[test]
fn press_release_press_in_one_batch_keeps_release() {
    let mut e = tracker();
    e.poll(&[down(LEFT), up(LEFT), down(LEFT), down(RIGHT)]);
    assert!(e.is_held(K_LEFT));
    assert_eq!(e.now().key(K_LEFT), Some(false));
    assert_eq!(e.now().key(K_RIGHT), Some(true));
}

#[test]
fn many_presses_of_held_key_do_not_retrigger() {
    let mut e = tracker();
    e.poll(&[down(LEFT)]);
    e.poll(&[down(LEFT), down(RIGHT), down(LEFT), down(LEFT)]);
    assert!(e.is_held(K_LEFT));
    assert_eq!(e.now().key(K_LEFT), None);
}

#[test]
fn empty_poll_clears_transitions_and_keeps_held() {
    let mut e = tracker();
    e.poll(&[down(LEFT), up(RIGHT), RawEvent::Other { kind: CLOSED }]);
    assert!(e.now().signal(S_QUIT));
    e.poll(&[]);
    assert_eq!(held(&e), vec![true, false, false]);
    assert_eq!(transitions(&e), vec![None, None, None]);
    assert!(!e.now().signal(S_QUIT));
}

#[test]
fn untracked_events_are_ignored() {
    let mut e = tracker();
    e.poll(&[
        down(12),
        RawEvent::Keyboard { state: KeyState::Pressed, key: None },
        RawEvent::Other { kind: RESIZED },
    ]);
    assert_eq!(held(&e), vec![false, false, false]);
    assert_eq!(transitions(&e), vec![None, None, None]);
    assert!(!e.now().signal(S_QUIT));
}

#[test]
fn repeated_signal_is_idempotent() {
    let mut e = tracker();
    e.poll(&[RawEvent::Other { kind: CLOSED }, RawEvent::Other { kind: CLOSED }]);
    assert!(e.now().signal(S_QUIT));
}

#[test]
fn out_of_range_indices_read_as_nothing() {
    let mut e = tracker();
    e.poll(&[down(LEFT), RawEvent::Other { kind: CLOSED }]);
    assert!(!e.is_held(3));
    assert_eq!(e.now().key(3), None);
    assert!(!e.now().signal(1));
}

#[test]
fn empty_tables_track_nothing() {
    let mut e = Events::new(vec![], vec![]);
    e.poll(&[down(LEFT), RawEvent::Other { kind: CLOSED }]);
    assert_eq!(e.key_count(), 0);
    assert!(!e.is_held(0));
    assert!(!e.now().signal(0));
}

#[test]
fn key_bound_twice_updates_both_entries() {
    let mut e = Events::new(vec![LEFT, LEFT], vec![]);
    e.poll(&[down(LEFT)]);
    assert_eq!(held(&e), vec![true, true]);
    assert_eq!(transitions(&e), vec![Some(true), Some(true)]);
}

#[test]
fn fresh_immediate_events_are_clear() {
    let now = ImmediateEvents::new(2, 1);
    assert_eq!(now.key(0), None);
    assert_eq!(now.key(1), None);
    assert!(!now.signal(0));
}
