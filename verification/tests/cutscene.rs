use cutscene_sequence::bridges::{Bridges, Effect, Outcome};
use cutscene_sequence::chara::Chara;
use cutscene_sequence::cutscene::Cutscene;
use cutscene_sequence::dialogue::DialogueError;
use cutscene_sequence::fragment::{con, delay, Fragment, FragmentId, Hook, Payload};
use cutscene_sequence::observer::{Answer, ObserverError};
use cutscene_sequence::playback::{Advance, HookCall, Phase, Start};
use cutscene_sequence::scheduler::RootId;
use cutscene_sequence::token::EndToken;

const SECOND: u64 = 1_000_000_000;

fn sound(outcome: Outcome) -> Vec<Effect> {
    assert_eq!(outcome.fault, None);
    outcome.effects
}

fn names(effects: &[Effect]) -> Vec<String> {
    effects
        .iter()
        .map(|effect| match effect {
            Effect::Run(call) => format!("run:{}:{:?}", call.fragment.0, call.hook),
            Effect::SpawnTextbox => "spawn".to_string(),
            Effect::Show(blurb) => format!("show:{}", blurb.text),
            Effect::CloseTextbox => "close".to_string(),
        })
        .collect()
}

fn active<H>(cutscene: &Cutscene<H>, root: RootId) -> Option<(usize, EndToken)> {
    match cutscene.scheduler.phase(root) {
        Some(Phase::LeafActive { leaf, token }) => Some((leaf.0, token)),
        _ => None,
    }
}

#[test]
fn a_new_cutscene_holds_nothing() {
    let cutscene: Cutscene<u32> = Cutscene::new();
    assert_eq!(cutscene.scheduler.roots(), 0);
    assert_eq!(cutscene.scheduler.issued(), 0);
    assert_eq!(cutscene.bridges.delays.len(), 0);
    assert_eq!(cutscene.bridges.conditions.len(), 0);
    assert_eq!(cutscene.bridges.dialogue.pending_tokens(), 0);
    assert!(!cutscene.bridges.dialogue.is_visible());
}

#[test]
fn a_line_goes_to_the_textbox_in_the_main_characters_voice() {
    let mut bridges: Bridges<u32> = Bridges::new();
    let advance = Advance {
        hooks: vec![HookCall { fragment: FragmentId(0), hook: Hook::Character(Chara::Luna) }],
        start: Some(Start {
            fragment: FragmentId(0),
            payload: Payload::Dialog("Dad!".to_string()),
            token: EndToken { serial: 4 },
        }),
    };
    let effects = sound(bridges.on_advance(advance));
    assert_eq!(effects.len(), 3);
    assert!(matches!(effects[0], Effect::Run(call) if call.hook == Hook::Character(Chara::Luna)));
    assert!(matches!(effects[1], Effect::SpawnTextbox));
    match &effects[2] {
        Effect::Show(blurb) => {
            assert_eq!(blurb.text, "Dad!");
            assert_eq!(
                blurb.character.as_ref().map(|s| s.0.as_str()),
                Some("textures/characters/main.png")
            );
            assert_eq!(blurb.glyph.sample, "medium.wav");
        }
        other => panic!("expected the line to be shown, got {:?}", other),
    }
    assert!(bridges.dialogue.is_visible());
    assert_eq!(bridges.dialogue.pending_tokens(), 1);
}

#[test]
fn a_pause_closes_the_textbox_and_starts_its_countdown() {
    let mut cutscene: Cutscene<u32> = Cutscene::new();
    let root = cutscene.scheduler.add(Fragment::sequence(vec![Fragment::dialog("a"), delay(2 * SECOND)]));
    assert_eq!(names(&sound(cutscene.spawn(root))), vec!["spawn", "show:a"]);
    // The line was retained: the textbox stays open after it.
    assert_eq!(names(&sound(cutscene.interact().unwrap())), vec!["close"]);
    assert!(!cutscene.bridges.dialogue.is_visible());
    assert_eq!(cutscene.bridges.delays.len(), 1);
    assert_eq!(cutscene.bridges.delays.get(0).map(|c| (c.duration, c.elapsed)), Some((2 * SECOND, 0)));
    assert_eq!(active(&cutscene, root).map(|a| a.0), Some(2));
}

#[test]
fn a_hook_that_closes_the_textbox_is_noted_by_the_bridge() {
    let mut cutscene: Cutscene<u32> = Cutscene::new();
    let (root, started) = cutscene.spawn_box(Fragment::dialog("a").once());
    assert_eq!(names(&sound(started)), vec!["spawn", "show:a"]);
    assert!(cutscene.bridges.dialogue.is_visible());
    let ended = sound(cutscene.interact().unwrap());
    assert_eq!(names(&ended), vec!["run:0:CloseTextbox"]);
    assert!(!cutscene.bridges.dialogue.is_visible());
    assert_eq!(cutscene.scheduler.phase(root), Some(Phase::Exhausted));
}

#[test]
fn three_lines_play_through_the_textbox_and_a_once_tree_does_not_replay() {
    let mut cutscene: Cutscene<u32> = Cutscene::new();
    let tree = Fragment::sequence(vec![
        Fragment::dialog("Hello, world!"),
        Fragment::dialog("How are you?"),
        Fragment::dialog("Goodbye."),
    ])
    .always()
    .once();
    let (root, started) = cutscene.spawn_box(tree);
    assert_eq!(names(&sound(started)), vec!["spawn", "show:Hello, world!"]);
    assert_eq!(names(&sound(cutscene.interact().unwrap())), vec!["show:How are you?"]);
    assert_eq!(names(&sound(cutscene.interact().unwrap())), vec!["show:Goodbye."]);
    assert_eq!(names(&sound(cutscene.interact().unwrap())), vec!["run:0:CloseTextbox"]);
    assert_eq!(cutscene.scheduler.phase(root), Some(Phase::Exhausted));
    assert_eq!(cutscene.scheduler.issued(), 3);
    assert_eq!(cutscene.bridges.dialogue.pending_tokens(), 0);
    assert!(!cutscene.bridges.dialogue.is_visible());

    assert!(sound(cutscene.spawn(root)).is_empty());
    assert_eq!(cutscene.scheduler.phase(root), Some(Phase::Exhausted));
    assert_eq!(cutscene.scheduler.issued(), 3);
    assert!(!cutscene.bridges.dialogue.is_visible());
}

#[test]
fn interacting_without_a_textbox_is_an_error() {
    let mut cutscene: Cutscene<u32> = Cutscene::new();
    let root = cutscene.scheduler.add(delay(SECOND));
    sound(cutscene.spawn(root));
    let before = active(&cutscene, root);
    assert!(matches!(cutscene.interact(), Err(DialogueError::NoTextbox)));
    assert_eq!(active(&cutscene, root), before);
    assert_eq!(cutscene.bridges.delays.len(), 1);
}

#[test]
fn a_condition_without_an_observer_is_reported_with_the_effects_of_its_hooks() {
    let mut cutscene: Cutscene<u32> = Cutscene::new();
    let root = cutscene.scheduler.add(con(3).on_start(Hook::Call(1)));
    let outcome = cutscene.spawn(root);
    assert_eq!(outcome.fault, Some(ObserverError::ExpectedDisabledObserver));
    // The hook of the leaf has run in the scheduler, so the host still gets it.
    assert_eq!(names(&outcome.effects), vec!["run:0:Call(1)"]);
    assert_eq!(cutscene.bridges.conditions.len(), 0);
    assert_eq!(active(&cutscene, root).map(|a| a.0), Some(0));
}

#[test]
fn a_line_that_ends_before_a_condition_without_an_observer_reports_the_fault() {
    let mut cutscene: Cutscene<u32> = Cutscene::new();
    let root = cutscene.scheduler.add(Fragment::sequence(vec![Fragment::dialog("a"), con(3)]));
    sound(cutscene.spawn(root));
    let outcome = cutscene.interact().unwrap();
    assert_eq!(outcome.fault, Some(ObserverError::ExpectedDisabledObserver));
    assert!(outcome.effects.is_empty());
    // The line has ended all the same, and the condition is the active leaf.
    assert_eq!(active(&cutscene, root).map(|a| a.0), Some(2));
    assert_eq!(cutscene.bridges.dialogue.pending_tokens(), 0);
}

#[test]
fn a_condition_wakes_its_observer_and_ends_when_it_is_satisfied() {
    let mut cutscene: Cutscene<u32> = Cutscene::new();
    cutscene.bridges.conditions.install(3, 0);
    let root = cutscene.scheduler.add(Fragment::sequence(vec![con(3), Fragment::dialog("Found it.")]));
    assert!(sound(cutscene.spawn(root)).is_empty());
    assert!(cutscene.bridges.conditions.is_listening(3));
    let (leaf, token) = active(&cutscene, root).unwrap();
    assert_eq!(leaf, 1);

    let waiting: Result<Option<EndToken>, ()> =
        cutscene.bridges.conditions.observe(3, |h| (h + 1, Answer::from_bool(false)));
    assert_eq!(waiting, Ok(None));
    let found: Result<Option<EndToken>, ()> =
        cutscene.bridges.conditions.observe(3, |h| (h + 1, Answer::from_bool(true)));
    assert_eq!(found, Ok(Some(token)));
    assert!(cutscene.bridges.conditions.is_parked(3));
    assert_eq!(names(&sound(cutscene.deliver(token))), vec!["spawn", "show:Found it."]);
    assert_eq!(active(&cutscene, root).map(|a| a.0), Some(2));
}

#[test]
fn firing_a_satisfied_condition_moves_the_playback_on() {
    let mut cutscene: Cutscene<u32> = Cutscene::new();
    cutscene.bridges.conditions.install(3, 0);
    cutscene.bridges.conditions.install(4, 0);
    let root = cutscene.scheduler.add(Fragment::sequence(vec![con(3), con(4), delay(7)]));
    sound(cutscene.spawn(root));

    // An observer that is not listening is left alone.
    let idle: Result<Outcome, String> = cutscene.fire(4, |h| (h + 1, Answer::Satisfied));
    assert!(sound(idle.unwrap()).is_empty());
    assert_eq!(cutscene.bridges.conditions.handle(4), Some(&0));

    let waiting: Result<Outcome, String> = cutscene.fire(3, |h| (h + 1, Answer::Unsatisfied));
    assert!(sound(waiting.unwrap()).is_empty());
    assert!(cutscene.bridges.conditions.is_listening(3));
    assert_eq!(active(&cutscene, root).map(|a| a.0), Some(1));

    let failed: Result<Outcome, String> =
        cutscene.fire(3, |h| (h + 1, Answer::Failed("lost".to_string())));
    assert!(matches!(failed, Err(e) if e == "lost"));
    assert!(cutscene.bridges.conditions.is_listening(3));
    assert_eq!(active(&cutscene, root).map(|a| a.0), Some(1));

    let found: Result<Outcome, String> = cutscene.fire(3, |h| (h + 1, Answer::Satisfied));
    assert!(sound(found.unwrap()).is_empty());
    assert!(cutscene.bridges.conditions.is_parked(3));
    assert_eq!(cutscene.bridges.conditions.handle(3), Some(&3));
    assert!(cutscene.bridges.conditions.is_listening(4));
    assert_eq!(active(&cutscene, root).map(|a| a.0), Some(2));

    let last: Result<Outcome, String> = cutscene.fire(4, |h| (h, Answer::Satisfied));
    assert_eq!(names(&sound(last.unwrap())), vec!["close"]);
    assert_eq!(cutscene.bridges.delays.len(), 1);
}

#[test]
fn firing_into_a_condition_without_an_observer_reports_the_fault() {
    let mut cutscene: Cutscene<u32> = Cutscene::new();
    cutscene.bridges.conditions.install(3, 0);
    let root = cutscene.scheduler.add(Fragment::sequence(vec![con(3), con(4)]));
    sound(cutscene.spawn(root));
    let fired: Result<Outcome, String> = cutscene.fire(3, |h| (h, Answer::Satisfied));
    let outcome = fired.unwrap();
    assert_eq!(outcome.fault, Some(ObserverError::ExpectedDisabledObserver));
    assert!(outcome.effects.is_empty());
    assert!(cutscene.bridges.conditions.is_parked(3));
    assert_eq!(active(&cutscene, root).map(|a| a.0), Some(2));
}

#[test]
fn delivering_a_stale_token_has_no_effect() {
    let mut cutscene: Cutscene<u32> = Cutscene::new();
    let root = cutscene.scheduler.add(Fragment::sequence(vec![delay(1), delay(2)]));
    sound(cutscene.spawn(root));
    let first = cutscene.bridges.delays.tick(1);
    assert_eq!(first.len(), 1);
    assert_eq!(names(&sound(cutscene.deliver(first[0]))), vec!["close"]);
    let state = (active(&cutscene, root), cutscene.bridges.delays.len(), cutscene.scheduler.issued());
    assert!(sound(cutscene.deliver(first[0])).is_empty());
    assert!(sound(cutscene.deliver(EndToken { serial: 77 })).is_empty());
    assert_eq!(
        (active(&cutscene, root), cutscene.bridges.delays.len(), cutscene.scheduler.issued()),
        state
    );
}

#[test]
fn a_tick_counts_down_then_delivers_then_starts() {
    let mut cutscene: Cutscene<u32> = Cutscene::new();
    let a = cutscene.scheduler.add(Fragment::sequence(vec![delay(2), delay(3), Fragment::dialog("a")]));
    let b = cutscene.scheduler.add(Fragment::sequence(vec![delay(5), delay(1)]).on_end(Hook::Call(8)));
    sound(cutscene.spawn(a));
    sound(cutscene.spawn(b));

    let first = cutscene.tick(1);
    assert!(first.effects.is_empty() && first.fault.is_none());
    assert_eq!(cutscene.bridges.delays.get(0).map(|c| c.elapsed), Some(1));

    // The first pause of `a` runs out; the pause that starts begins at zero,
    // whatever the tick overshot by.
    let second = cutscene.tick(3);
    assert_eq!(names(&second.effects), vec!["close"]);
    assert_eq!(active(&cutscene, a).map(|s| s.0), Some(2));
    let running: Vec<(u64, u64)> =
        (0..2).map(|i| cutscene.bridges.delays.get(i).map(|c| (c.duration, c.elapsed)).unwrap()).collect();
    assert_eq!(running, vec![(5, 4), (3, 0)]);

    // Both roots move in one tick, in the order in which their pauses began.
    let third = cutscene.tick(3);
    assert_eq!(names(&third.effects), vec!["close", "spawn", "show:a"]);
    assert!(third.fault.is_none());
    assert_eq!(active(&cutscene, a).map(|s| s.0), Some(3));
    assert_eq!(active(&cutscene, b).map(|s| s.0), Some(2));
    assert_eq!(cutscene.bridges.delays.len(), 1);
    assert_eq!(cutscene.bridges.delays.get(0).map(|c| (c.duration, c.elapsed)), Some((1, 0)));

    let last = cutscene.tick(1);
    assert_eq!(names(&last.effects), vec!["run:0:Call(8)"]);
    assert_eq!(cutscene.scheduler.phase(b), Some(Phase::Exhausted));
    assert!(cutscene.tick(100).effects.is_empty());
}

#[test]
fn a_tick_reports_a_condition_without_an_observer_and_goes_on() {
    let mut cutscene: Cutscene<u32> = Cutscene::new();
    let broken = cutscene.scheduler.add(Fragment::sequence(vec![delay(1), con(9)]).on_start(Hook::Call(1)));
    let whole = cutscene.scheduler.add(Fragment::sequence(vec![delay(1), Fragment::dialog("b")]));
    sound(cutscene.spawn(broken));
    sound(cutscene.spawn(whole));
    let tick = cutscene.tick(1);
    assert_eq!(tick.fault, Some(ObserverError::ExpectedDisabledObserver));
    assert_eq!(names(&tick.effects), vec!["spawn", "show:b"]);
    assert_eq!(active(&cutscene, broken).map(|s| s.0), Some(2));
    assert_eq!(active(&cutscene, whole).map(|s| s.0), Some(2));
    assert_eq!(cutscene.bridges.delays.len(), 0);
}

#[test]
fn a_fault_does_not_swallow_the_hooks_that_have_run() {
    let mut cutscene: Cutscene<u32> = Cutscene::new();
    let tree = Fragment::sequence(vec![
        Fragment::dialog("a").on_end(Hook::Call(5)),
        con(3).on_start(Hook::Call(6)),
    ]);
    let root = cutscene.scheduler.add(tree);
    sound(cutscene.spawn(root));
    let outcome = cutscene.interact().unwrap();
    assert_eq!(outcome.fault, Some(ObserverError::ExpectedDisabledObserver));
    assert_eq!(names(&outcome.effects), vec!["run:1:Call(5)", "run:2:Call(6)"]);
    assert!(cutscene.scheduler.is_done(root, FragmentId(1)));
}

#[test]
fn removing_a_root_releases_all_that_is_held_for_it() {
    let mut cutscene: Cutscene<u32> = Cutscene::new();
    cutscene.bridges.conditions.install(1, 10);
    cutscene.bridges.conditions.install(2, 20);
    cutscene.bridges.conditions.install(3, 30);
    let gone = cutscene.scheduler.add(Fragment::sequence(vec![con(2), delay(5), con(1), con(8)]));
    let kept = cutscene.scheduler.add(Fragment::sequence(vec![delay(7), con(3)]));
    sound(cutscene.spawn(gone));
    sound(cutscene.spawn(kept));
    assert!(cutscene.bridges.conditions.is_listening(2));
    let stale = active(&cutscene, gone).unwrap().1;

    // The listening observer and the parked one both go; the condition that
    // never had an observer is passed over.
    assert_eq!(cutscene.remove(gone), vec![20, 10]);
    assert_eq!(cutscene.scheduler.phase(gone), Some(Phase::Removed));
    assert_eq!(cutscene.bridges.conditions.len(), 1);
    assert_eq!(cutscene.bridges.conditions.handle(3), Some(&30));
    assert_eq!(cutscene.bridges.conditions.handle(1), None);
    assert_eq!(cutscene.bridges.conditions.handle(2), None);

    // Removing again, or removing what is not there, changes nothing.
    assert!(cutscene.remove(gone).is_empty());
    assert!(cutscene.remove(RootId(9)).is_empty());
    assert_eq!(cutscene.bridges.conditions.len(), 1);

    // A removed root is never spawned again, and its token is stale.
    let again = cutscene.spawn(gone);
    assert!(again.effects.is_empty() && again.fault.is_none());
    assert!(sound(cutscene.deliver(stale)).is_empty());
    assert!(!cutscene.despawn(gone));
    assert_eq!(cutscene.scheduler.phase(gone), Some(Phase::Removed));

    // The other root keeps its handle and plays on.
    assert_eq!(cutscene.bridges.delays.len(), 1);
    sound(cutscene.tick(7));
    assert_eq!(active(&cutscene, kept).map(|a| a.0), Some(2));
    assert!(cutscene.bridges.conditions.is_listening(3));
}

#[test]
fn removing_a_root_drops_its_countdown_and_its_dialogue_token() {
    let mut cutscene: Cutscene<u32> = Cutscene::new();
    let pausing = cutscene.scheduler.add(delay(5));
    let talking = cutscene.scheduler.add(Fragment::dialog("a"));
    sound(cutscene.spawn(pausing));
    sound(cutscene.spawn(talking));
    assert!(cutscene.remove(pausing).is_empty());
    assert_eq!(cutscene.bridges.delays.len(), 0);
    assert!(cutscene.remove(talking).is_empty());
    assert_eq!(cutscene.bridges.dialogue.pending_tokens(), 0);
    assert!(sound(cutscene.tick(10)).is_empty());
}

#[test]
fn uninstalling_a_tree_takes_its_observers_in_playback_order() {
    let mut bridges: Bridges<u32> = Bridges::new();
    bridges.conditions.install(5, 50);
    bridges.conditions.install(6, 60);
    bridges.conditions.install(7, 70);
    let tree = Fragment::sequence(vec![con(7), Fragment::dialog("a"), con(5), con(7)]);
    assert_eq!(bridges.uninstall(&tree), vec![70, 50]);
    assert_eq!(bridges.conditions.len(), 1);
    assert_eq!(bridges.conditions.handle(6), Some(&60));
    assert!(bridges.uninstall(&tree).is_empty());
}

#[test]
fn despawn_releases_what_the_bridges_hold_for_the_root() {
    let mut cutscene: Cutscene<u32> = Cutscene::new();
    cutscene.bridges.conditions.install(1, 0);
    let pausing = cutscene.scheduler.add(delay(5 * SECOND));
    let talking = cutscene.scheduler.add(Fragment::dialog("a"));
    let waiting = cutscene.scheduler.add(con(1));
    let other = cutscene.scheduler.add(delay(SECOND));
    for root in [pausing, talking, waiting, other] {
        sound(cutscene.spawn(root));
    }
    assert_eq!(cutscene.bridges.delays.len(), 2);
    assert_eq!(cutscene.bridges.dialogue.pending_tokens(), 1);
    assert!(cutscene.bridges.conditions.is_listening(1));

    assert!(cutscene.despawn(pausing));
    assert_eq!(cutscene.bridges.delays.len(), 1);
    assert!(cutscene.despawn(talking));
    assert_eq!(cutscene.bridges.dialogue.pending_tokens(), 0);
    assert!(cutscene.despawn(waiting));
    assert!(cutscene.bridges.conditions.is_parked(1));
    assert_eq!(cutscene.bridges.conditions.handle(1), Some(&0));

    assert!(!cutscene.despawn(pausing));
    assert!(!cutscene.despawn(RootId(9)));
    for root in [pausing, talking, waiting] {
        assert_eq!(cutscene.scheduler.phase(root), Some(Phase::Idle));
    }
    // The root that was not despawned plays on.
    let tokens = cutscene.bridges.delays.tick(SECOND);
    assert_eq!(Some(tokens[0]), active(&cutscene, other).map(|a| a.1));
    assert!(sound(cutscene.deliver(tokens[0])).is_empty());
    assert_eq!(cutscene.scheduler.phase(other), Some(Phase::Exhausted));
}

#[test]
fn releasing_by_hand_matches_the_payload() {
    let mut bridges: Bridges<u32> = Bridges::new();
    bridges.delays.on_start(5, EndToken { serial: 1 });
    bridges.dialogue.on_start(
        cutscene_sequence::textbox::TextboxEvent::section(
            cutscene_sequence::textbox::TextBlurb::narrator("a"),
        ),
        EndToken { serial: 1 },
    );
    bridges.release(&Payload::Pause(5), EndToken { serial: 1 });
    assert_eq!(bridges.delays.len(), 0);
    assert_eq!(bridges.dialogue.pending_tokens(), 1);
    bridges.release(&Payload::Dialog("a".to_string()), EndToken { serial: 1 });
    assert_eq!(bridges.dialogue.pending_tokens(), 0);
    bridges.release(&Payload::Condition(3), EndToken { serial: 1 });
    assert_eq!(bridges.conditions.len(), 0);
}
