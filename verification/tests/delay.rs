use cutscene_sequence::delay::{Countdown, DelayBridge};
use cutscene_sequence::token::EndToken;

fn token(serial: u64) -> EndToken {
    EndToken { serial }
}

#[test]
fn a_tick_advances_the_countdown() {
    let mut bridge = DelayBridge::new();
    bridge.on_start(10, token(1));
    assert_eq!(bridge.get(0), Some(Countdown { duration: 10, elapsed: 0, token: token(1) }));
    assert!(bridge.tick(4).is_empty());
    assert_eq!(bridge.get(0), Some(Countdown { duration: 10, elapsed: 4, token: token(1) }));
    assert!(bridge.tick(5).is_empty());
    assert_eq!(bridge.get(0), Some(Countdown { duration: 10, elapsed: 9, token: token(1) }));
    assert_eq!(bridge.len(), 1);
}

#[test]
fn the_token_is_delivered_when_the_time_is_up_and_only_once() {
    let mut bridge = DelayBridge::new();
    bridge.on_start(10, token(1));
    assert!(bridge.tick(9).is_empty());
    assert_eq!(bridge.tick(1), vec![token(1)]);
    assert_eq!(bridge.len(), 0);
    assert!(bridge.tick(100).is_empty());
    assert!(bridge.tick(0).is_empty());
}

#[test]
fn a_tick_that_overshoots_ends_the_pause() {
    let mut bridge = DelayBridge::new();
    bridge.on_start(5_000_000_000, token(3));
    assert_eq!(bridge.tick(u64::MAX), vec![token(3)]);
    assert_eq!(bridge.len(), 0);
}

#[test]
fn a_pause_of_no_length_ends_on_the_first_tick() {
    let mut bridge = DelayBridge::new();
    bridge.on_start(0, token(8));
    assert_eq!(bridge.len(), 1);
    assert_eq!(bridge.tick(0), vec![token(8)]);
    assert_eq!(bridge.len(), 0);
}

#[test]
fn an_empty_tick_leaves_a_running_pause_alone() {
    let mut bridge = DelayBridge::new();
    bridge.on_start(1, token(8));
    assert!(bridge.tick(0).is_empty());
    assert_eq!(bridge.get(0), Some(Countdown { duration: 1, elapsed: 0, token: token(8) }));
}

#[test]
fn countdowns_do_not_affect_one_another() {
    let mut bridge = DelayBridge::new();
    bridge.on_start(10, token(1));
    bridge.on_start(3, token(2));
    bridge.on_start(7, token(3));
    assert_eq!(bridge.tick(3), vec![token(2)]);
    assert_eq!(bridge.get(0), Some(Countdown { duration: 10, elapsed: 3, token: token(1) }));
    assert_eq!(bridge.get(1), Some(Countdown { duration: 7, elapsed: 3, token: token(3) }));
    assert_eq!(bridge.get(2), None);
    bridge.on_start(4, token(4));
    assert_eq!(bridge.tick(4), vec![token(3), token(4)]);
    assert_eq!(bridge.tick(3), vec![token(1)]);
    assert_eq!(bridge.len(), 0);
}

#[test]
fn tokens_come_out_in_the_order_the_pauses_began() {
    let mut bridge = DelayBridge::new();
    bridge.on_start(9, token(5));
    bridge.on_start(2, token(6));
    bridge.on_start(4, token(7));
    assert_eq!(bridge.tick(10), vec![token(5), token(6), token(7)]);
}

#[test]
fn a_released_countdown_never_delivers() {
    let mut bridge = DelayBridge::new();
    bridge.on_start(10, token(1));
    bridge.on_start(10, token(2));
    bridge.release(token(1));
    assert_eq!(bridge.len(), 1);
    assert_eq!(bridge.get(0), Some(Countdown { duration: 10, elapsed: 0, token: token(2) }));
    bridge.release(token(1));
    bridge.release(token(9));
    assert_eq!(bridge.len(), 1);
    assert_eq!(bridge.tick(10), vec![token(2)]);
}
