use cutscene_sequence::observer::{Answer, ConditionBridge, ObserverError};
use cutscene_sequence::token::EndToken;

fn token(serial: u64) -> EndToken {
    EndToken { serial }
}

/// A predicate that is satisfied by the fourth event it sees.
fn fourth_time(seen: u32) -> (u32, Answer<String>) {
    let seen = seen + 1;
    (seen, Answer::from_bool(seen >= 4))
}

#[test]
fn an_installed_observer_is_parked() {
    let mut bridge: ConditionBridge<u32> = ConditionBridge::new();
    assert_eq!(bridge.len(), 0);
    bridge.install(7, 0);
    assert_eq!(bridge.len(), 1);
    assert!(bridge.is_parked(7));
    assert!(!bridge.is_listening(7));
    assert!(!bridge.is_parked(8));
    assert_eq!(bridge.handle(7), Some(&0));
    assert_eq!(bridge.handle(8), None);
}

#[test]
fn installing_twice_under_one_key_replaces_the_observer() {
    let mut bridge: ConditionBridge<u32> = ConditionBridge::new();
    bridge.install(7, 1);
    bridge.install(9, 2);
    bridge.enable(7, token(0)).unwrap();
    bridge.install(7, 3);
    assert_eq!(bridge.len(), 2);
    assert!(bridge.is_parked(7));
    assert_eq!(bridge.handle(7), Some(&3));
    assert_eq!(bridge.handle(9), Some(&2));
}

#[test]
fn enable_expects_a_parked_observer() {
    let mut bridge: ConditionBridge<u32> = ConditionBridge::new();
    assert_eq!(bridge.enable(7, token(0)), Err(ObserverError::ExpectedDisabledObserver));
    bridge.install(7, 0);
    assert_eq!(bridge.enable(7, token(0)), Ok(()));
    assert!(bridge.is_listening(7));
    assert_eq!(bridge.enable(7, token(1)), Err(ObserverError::ExpectedDisabledObserver));
    assert_eq!(bridge.disable(7), Ok(Some(token(0))));
}

#[test]
fn disable_expects_an_observer() {
    let mut bridge: ConditionBridge<u32> = ConditionBridge::new();
    assert_eq!(bridge.disable(7), Err(ObserverError::ExpectedObserver));
    assert_eq!(bridge.len(), 0);
    bridge.install(7, 0);
    bridge.enable(7, token(5)).unwrap();
    assert_eq!(bridge.disable(7), Ok(Some(token(5))));
    assert!(bridge.is_parked(7));
    assert_eq!(bridge.disable(8), Err(ObserverError::ExpectedObserver));
}

#[test]
fn disabling_a_parked_observer_is_a_no_op() {
    let mut bridge: ConditionBridge<u32> = ConditionBridge::new();
    bridge.install(7, 3);
    // Parked from the start: nothing to deliver, nothing changes.
    assert_eq!(bridge.disable(7), Ok(None));
    assert!(bridge.is_parked(7));
    assert_eq!(bridge.handle(7), Some(&3));

    bridge.enable(7, token(5)).unwrap();
    assert_eq!(bridge.disable(7), Ok(Some(token(5))));
    // The second removal delivers nothing a second time and is no error.
    assert_eq!(bridge.disable(7), Ok(None));
    assert_eq!(bridge.disable(7), Ok(None));
    assert!(bridge.is_parked(7));
    assert_eq!(bridge.handle(7), Some(&3));
    assert_eq!(bridge.len(), 1);
    // The observer can still be enabled afterwards.
    assert_eq!(bridge.enable(7, token(6)), Ok(()));
    assert_eq!(bridge.disable(7), Ok(Some(token(6))));
}

#[test]
fn satisfaction_delivers_the_token_exactly_once() {
    let mut bridge: ConditionBridge<u32> = ConditionBridge::new();
    bridge.install(1, 0);
    bridge.enable(1, token(3)).unwrap();
    let first: Result<Option<EndToken>, String> = bridge.observe(1, |h| (h, Answer::triggered()));
    assert_eq!(first, Ok(Some(token(3))));
    assert!(bridge.is_parked(1));
    let second: Result<Option<EndToken>, String> = bridge.observe(1, |h| (h, Answer::triggered()));
    assert_eq!(second, Ok(None));
}

#[test]
fn an_unsatisfied_condition_delivers_nothing_and_goes_on_listening() {
    let mut bridge: ConditionBridge<u32> = ConditionBridge::new();
    bridge.install(1, 0);
    bridge.enable(1, token(3)).unwrap();
    for _ in 0..5 {
        let r: Result<Option<EndToken>, String> =
            bridge.observe(1, |h| (h, Answer::from_bool(false)));
        assert_eq!(r, Ok(None));
        assert!(bridge.is_listening(1));
    }
}

#[test]
fn a_failing_predicate_passes_its_error_on_and_goes_on_listening() {
    let mut bridge: ConditionBridge<u32> = ConditionBridge::new();
    bridge.install(1, 0);
    bridge.enable(1, token(3)).unwrap();
    let failed: Result<Option<EndToken>, String> =
        bridge.observe(1, |h| (h + 1, Answer::from_result(Err("no such entity".to_string()))));
    assert_eq!(failed, Err("no such entity".to_string()));
    assert!(bridge.is_listening(1));
    assert_eq!(bridge.handle(1), Some(&1));
    let later: Result<Option<EndToken>, String> =
        bridge.observe(1, |h| (h, Answer::from_result(Ok(true))));
    assert_eq!(later, Ok(Some(token(3))));
}

#[test]
fn the_four_kinds_of_predicate_agree_on_what_they_mean() {
    assert!(matches!(Answer::<()>::from_bool(true), Answer::Satisfied));
    assert!(matches!(Answer::<()>::from_bool(false), Answer::Unsatisfied));
    assert!(matches!(Answer::<()>::triggered(), Answer::Satisfied));
    assert!(matches!(Answer::<u8>::from_result(Ok(true)), Answer::Satisfied));
    assert!(matches!(Answer::<u8>::from_result(Ok(false)), Answer::Unsatisfied));
    assert!(matches!(Answer::<u8>::from_result(Err(3)), Answer::Failed(3)));
    assert!(matches!(Answer::<u8>::from_trigger_result(Ok(())), Answer::Satisfied));
    assert!(matches!(Answer::<u8>::from_trigger_result(Err(4)), Answer::Failed(4)));
}

#[test]
fn a_parked_observer_is_not_run() {
    let mut bridge: ConditionBridge<u32> = ConditionBridge::new();
    bridge.install(1, 0);
    let mut ran = false;
    let r: Result<Option<EndToken>, String> = bridge.observe(1, |h| {
        ran = true;
        (h + 1, Answer::Satisfied)
    });
    assert_eq!(r, Ok(None));
    assert!(!ran);
    assert_eq!(bridge.handle(1), Some(&0));
    let r: Result<Option<EndToken>, String> = bridge.observe(2, |h| (h, Answer::Satisfied));
    assert_eq!(r, Ok(None));
}

#[test]
fn parking_keeps_what_the_predicate_has_accumulated() {
    let mut bridge: ConditionBridge<u32> = ConditionBridge::new();
    bridge.install(1, 0);
    bridge.enable(1, token(10)).unwrap();
    assert_eq!(bridge.observe(1, fourth_time), Ok(None));
    assert_eq!(bridge.observe(1, fourth_time), Ok(None));
    assert_eq!(bridge.handle(1), Some(&2));

    assert!(bridge.park(1));
    assert!(bridge.is_parked(1));
    assert_eq!(bridge.handle(1), Some(&2));
    assert_eq!(bridge.observe(1, fourth_time), Ok(None));
    assert_eq!(bridge.handle(1), Some(&2));
    assert!(!bridge.park(1));

    bridge.enable(1, token(11)).unwrap();
    assert_eq!(bridge.handle(1), Some(&2));
    assert_eq!(bridge.observe(1, fourth_time), Ok(None));
    assert_eq!(bridge.observe(1, fourth_time), Ok(Some(token(11))));
    assert_eq!(bridge.handle(1), Some(&4));
    assert!(bridge.is_parked(1));
}

#[test]
fn observers_under_other_keys_are_left_alone() {
    let mut bridge: ConditionBridge<u32> = ConditionBridge::new();
    bridge.install(1, 10);
    bridge.install(2, 20);
    bridge.install(3, 30);
    bridge.enable(2, token(0)).unwrap();
    bridge.enable(3, token(1)).unwrap();
    let r: Result<Option<EndToken>, String> = bridge.observe(2, |h| (h + 1, Answer::Satisfied));
    assert_eq!(r, Ok(Some(token(0))));
    assert!(bridge.is_parked(1) && bridge.is_parked(2) && bridge.is_listening(3));
    assert_eq!(bridge.handle(1), Some(&10));
    assert_eq!(bridge.handle(2), Some(&21));
    assert_eq!(bridge.handle(3), Some(&30));
}

#[test]
fn removing_an_observer_twice_is_no_error() {
    let mut bridge: ConditionBridge<u32> = ConditionBridge::new();
    bridge.install(1, 10);
    bridge.install(2, 20);
    bridge.enable(2, token(0)).unwrap();
    assert_eq!(bridge.uninstall(2), Some(20));
    assert_eq!(bridge.uninstall(2), None);
    assert_eq!(bridge.uninstall(5), None);
    assert_eq!(bridge.len(), 1);
    assert!(bridge.is_parked(1));
    assert_eq!(bridge.enable(2, token(1)), Err(ObserverError::ExpectedDisabledObserver));
}
