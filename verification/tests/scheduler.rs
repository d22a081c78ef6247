use cutscene_sequence::fragment::{con, delay, Fragment, FragmentId, Hook, Payload};
use cutscene_sequence::playback::{Advance, HookCall, Phase};
use cutscene_sequence::scheduler::{RootId, Scheduler};
use cutscene_sequence::token::EndToken;
use std::collections::HashSet;

fn call(fragment: usize, id: u64) -> HookCall {
    HookCall { fragment: FragmentId(fragment), hook: Hook::Call(id) }
}

fn started(advance: &Advance) -> Option<(usize, EndToken)> {
    advance.start.as_ref().map(|start| (start.fragment.0, start.token))
}

fn active(scheduler: &Scheduler, root: RootId) -> Option<(usize, EndToken)> {
    match scheduler.phase(root) {
        Some(Phase::LeafActive { leaf, token }) => Some((leaf.0, token)),
        _ => None,
    }
}

/// Plays the root to its end and returns the leaves in the order they started.
fn play_through(scheduler: &mut Scheduler, root: RootId) -> Vec<usize> {
    let mut order = Vec::new();
    let mut advance = scheduler.spawn(root);
    while let Some((leaf, token)) = started(&advance) {
        order.push(leaf);
        advance = scheduler.on_end_event(token);
    }
    order
}

#[test]
fn a_new_scheduler_is_empty() {
    let scheduler = Scheduler::new();
    assert_eq!(scheduler.roots(), 0);
    assert_eq!(scheduler.issued(), 0);
    assert!(scheduler.has_tokens());
    assert_eq!(scheduler.phase(RootId(0)), None);
}

#[test]
fn an_added_root_is_idle_until_it_is_spawned() {
    let mut scheduler = Scheduler::new();
    let root = scheduler.add(Fragment::dialog("a"));
    assert_eq!(root, RootId(0));
    assert_eq!(scheduler.phase(root), Some(Phase::Idle));
    assert_eq!(scheduler.issued(), 0);
    assert_eq!(scheduler.add(Fragment::dialog("b")), RootId(1));
    assert_eq!(scheduler.roots(), 2);
}

#[test]
fn spawn_starts_the_first_leaf_with_its_payload_and_a_token() {
    let mut scheduler = Scheduler::new();
    let root = scheduler.add(Fragment::sequence(vec![Fragment::dialog("Hello?"), delay(9)]));
    let advance = scheduler.spawn(root);
    let start = advance.start.expect("a leaf starts");
    assert_eq!(start.fragment, FragmentId(1));
    assert!(matches!(&start.payload, Payload::Dialog(text) if text == "Hello?"));
    assert_eq!(start.token, EndToken { serial: 0 });
    assert_eq!(
        scheduler.phase(root),
        Some(Phase::LeafActive { leaf: FragmentId(1), token: EndToken { serial: 0 } })
    );
    assert_eq!(scheduler.issued(), 1);
}

#[test]
fn leaves_play_from_left_to_right_and_nesting_does_not_change_the_order() {
    let mut scheduler = Scheduler::new();
    let tree = Fragment::sequence(vec![
        Fragment::dialog("a"),
        Fragment::sequence(vec![
            delay(1),
            Fragment::sequence(vec![Fragment::dialog("b"), con(1)]),
            Fragment::sequence(Vec::new()),
        ]),
        Fragment::dialog("c"),
    ]);
    let root = scheduler.add(tree);
    assert_eq!(play_through(&mut scheduler, root), vec![1, 3, 5, 6, 8]);
    assert_eq!(scheduler.phase(root), Some(Phase::Exhausted));
    for fragment in 0..9 {
        assert!(scheduler.is_done(root, FragmentId(fragment)));
    }
    assert!(!scheduler.is_done(root, FragmentId(9)));
}

#[test]
fn hooks_run_as_fragments_are_entered_and_left() {
    let mut scheduler = Scheduler::new();
    let tree = Fragment::sequence(vec![
        Fragment::dialog("a").on_start(Hook::Call(10)).on_end(Hook::Call(11)),
        Fragment::sequence(vec![delay(1).on_start(Hook::Call(20)).on_end(Hook::Call(21))])
            .on_start(Hook::Call(30))
            .on_end(Hook::Call(31)),
    ])
    .on_start(Hook::Call(1))
    .on_start(Hook::Call(2))
    .on_end(Hook::Call(3));
    let root = scheduler.add(tree);

    let first = scheduler.spawn(root);
    assert_eq!(first.hooks, vec![call(0, 1), call(0, 2), call(1, 10)]);
    let (leaf, token) = started(&first).unwrap();
    assert_eq!(leaf, 1);

    let second = scheduler.on_end_event(token);
    assert_eq!(second.hooks, vec![call(1, 11), call(2, 30), call(3, 20)]);
    let (leaf, token) = started(&second).unwrap();
    assert_eq!(leaf, 3);
    assert!(scheduler.is_done(root, FragmentId(1)));
    assert!(!scheduler.is_done(root, FragmentId(3)));
    assert!(!scheduler.is_done(root, FragmentId(0)));

    let last = scheduler.on_end_event(token);
    assert_eq!(last.hooks, vec![call(3, 21), call(2, 31), call(0, 3)]);
    assert!(last.start.is_none());
    assert_eq!(scheduler.phase(root), Some(Phase::Exhausted));
    assert!(scheduler.is_done(root, FragmentId(0)));
}

#[test]
fn a_composite_without_children_starts_and_ends_back_to_back() {
    let mut scheduler = Scheduler::new();
    let tree = Fragment::sequence(Vec::new()).on_start(Hook::Call(1)).on_end(Hook::Call(2));
    let root = scheduler.add(tree);
    let advance = scheduler.spawn(root);
    assert_eq!(advance.hooks, vec![call(0, 1), call(0, 2)]);
    assert!(advance.start.is_none());
    assert_eq!(scheduler.phase(root), Some(Phase::Exhausted));
    assert!(scheduler.is_done(root, FragmentId(0)));
    assert_eq!(scheduler.issued(), 0);
}

#[test]
fn a_once_leaf_is_skipped_on_replay_and_an_always_leaf_plays_again() {
    let mut scheduler = Scheduler::new();
    let tree = Fragment::sequence(vec![
        Fragment::dialog("once").once(),
        Fragment::dialog("always").always(),
        Fragment::dialog("unmarked"),
    ])
    .always();
    let root = scheduler.add(tree);
    assert_eq!(play_through(&mut scheduler, root), vec![1, 2, 3]);
    assert_eq!(play_through(&mut scheduler, root), vec![2, 3]);
    assert_eq!(play_through(&mut scheduler, root), vec![2, 3]);
    assert_eq!(scheduler.issued(), 7);
}

#[test]
fn a_once_root_plays_once() {
    let mut scheduler = Scheduler::new();
    let tree = Fragment::sequence(vec![Fragment::dialog("a").always(), delay(1).always()])
        .on_start(Hook::Call(1))
        .always()
        .once();
    let root = scheduler.add(tree);
    assert_eq!(play_through(&mut scheduler, root), vec![1, 2]);
    let again = scheduler.spawn(root);
    assert!(again.hooks.is_empty());
    assert!(again.start.is_none());
    assert_eq!(scheduler.phase(root), Some(Phase::Exhausted));
    assert_eq!(scheduler.issued(), 2);
}

#[test]
fn a_once_composite_inside_an_always_root_is_skipped_whole() {
    let mut scheduler = Scheduler::new();
    let tree = Fragment::sequence(vec![
        Fragment::sequence(vec![Fragment::dialog("a").always(), Fragment::dialog("b")])
            .on_start(Hook::Call(5))
            .once(),
        Fragment::dialog("c"),
    ])
    .always();
    let root = scheduler.add(tree);
    assert_eq!(play_through(&mut scheduler, root), vec![2, 3, 4]);
    let replay = scheduler.spawn(root);
    assert!(replay.hooks.is_empty());
    assert_eq!(started(&replay).map(|s| s.0), Some(4));
}

#[test]
fn a_root_whose_leaves_are_all_consumed_still_starts_and_ends() {
    let mut scheduler = Scheduler::new();
    let tree = Fragment::sequence(vec![Fragment::dialog("a").once()])
        .on_start(Hook::Call(1))
        .on_end(Hook::Call(2))
        .always();
    let root = scheduler.add(tree);
    assert_eq!(play_through(&mut scheduler, root), vec![1]);
    let replay = scheduler.spawn(root);
    assert_eq!(replay.hooks, vec![call(0, 1), call(0, 2)]);
    assert!(replay.start.is_none());
    assert_eq!(scheduler.phase(root), Some(Phase::Exhausted));
}

#[test]
fn a_stale_token_changes_nothing() {
    let mut scheduler = Scheduler::new();
    let root = scheduler.add(Fragment::sequence(vec![Fragment::dialog("a"), Fragment::dialog("b")]));
    let first = scheduler.spawn(root);
    let (_, first_token) = started(&first).unwrap();
    let second = scheduler.on_end_event(first_token);
    let (leaf, second_token) = started(&second).unwrap();
    assert_eq!(leaf, 2);

    let stale = scheduler.on_end_event(first_token);
    assert!(stale.hooks.is_empty());
    assert!(stale.start.is_none());
    assert_eq!(active(&scheduler, root), Some((2, second_token)));
    assert_eq!(scheduler.issued(), 2);
    assert!(scheduler.is_done(root, FragmentId(1)));
    assert!(!scheduler.is_done(root, FragmentId(2)));
}

#[test]
fn an_unknown_token_changes_nothing() {
    let mut scheduler = Scheduler::new();
    let root = scheduler.add(Fragment::dialog("a"));
    let before_spawn = scheduler.on_end_event(EndToken { serial: 0 });
    assert!(before_spawn.hooks.is_empty() && before_spawn.start.is_none());
    assert_eq!(scheduler.phase(root), Some(Phase::Idle));
    let (_, token) = started(&scheduler.spawn(root)).unwrap();
    let unknown = scheduler.on_end_event(EndToken { serial: 99 });
    assert!(unknown.hooks.is_empty() && unknown.start.is_none());
    assert_eq!(active(&scheduler, root), Some((0, token)));
    assert_eq!(scheduler.issued(), 1);
}

#[test]
fn a_token_delivered_twice_advances_once() {
    let mut scheduler = Scheduler::new();
    let root = scheduler.add(Fragment::dialog("a").always());
    let (_, token) = started(&scheduler.spawn(root)).unwrap();
    let end = scheduler.on_end_event(token);
    assert!(end.start.is_none());
    assert_eq!(scheduler.phase(root), Some(Phase::Exhausted));
    let twice = scheduler.on_end_event(token);
    assert!(twice.hooks.is_empty() && twice.start.is_none());
    assert_eq!(scheduler.phase(root), Some(Phase::Exhausted));

    let (_, replayed) = started(&scheduler.spawn(root)).unwrap();
    assert_ne!(replayed, token);
    let old = scheduler.on_end_event(token);
    assert!(old.hooks.is_empty() && old.start.is_none());
    assert_eq!(active(&scheduler, root), Some((0, replayed)));
}

#[test]
fn every_activation_gets_a_token_of_its_own() {
    let mut scheduler = Scheduler::new();
    let a = scheduler.add(Fragment::sequence(vec![Fragment::dialog("a"), delay(1)]).always());
    let b = scheduler.add(Fragment::dialog("b").always());
    let mut tokens = Vec::new();
    for _ in 0..5 {
        for root in [a, b] {
            let mut advance = scheduler.spawn(root);
            while let Some((_, token)) = started(&advance) {
                tokens.push(token);
                advance = scheduler.on_end_event(token);
            }
        }
    }
    assert_eq!(tokens.len(), 15);
    let distinct: HashSet<EndToken> = tokens.iter().copied().collect();
    assert_eq!(distinct.len(), 15);
    assert_eq!(scheduler.issued(), 15);
}

#[test]
fn a_root_never_has_more_than_one_leaf_active() {
    let mut scheduler = Scheduler::new();
    let a = scheduler.add(Fragment::sequence(vec![Fragment::dialog("a"), delay(1), con(1)]));
    let b = scheduler.add(Fragment::sequence(vec![delay(2), Fragment::dialog("b")]));
    let (leaf_a, token_a) = started(&scheduler.spawn(a)).unwrap();
    let (leaf_b, token_b) = started(&scheduler.spawn(b)).unwrap();
    assert_eq!((leaf_a, leaf_b), (1, 1));
    assert_ne!(token_a, token_b);

    // A second spawn of a root that is playing does not start a second leaf.
    let again = scheduler.spawn(a);
    assert!(again.hooks.is_empty() && again.start.is_none());
    assert_eq!(active(&scheduler, a), Some((1, token_a)));
    assert_eq!(scheduler.issued(), 2);

    // Ending a leaf of one root moves that root only.
    let next = scheduler.on_end_event(token_b);
    assert_eq!(started(&next).map(|s| s.0), Some(2));
    assert_eq!(active(&scheduler, a), Some((1, token_a)));
    assert_eq!(active(&scheduler, b).map(|s| s.0), Some(2));
}

#[test]
fn a_handle_without_a_root_does_nothing() {
    let mut scheduler = Scheduler::new();
    scheduler.add(Fragment::dialog("a"));
    let advance = scheduler.spawn(RootId(5));
    assert!(advance.hooks.is_empty() && advance.start.is_none());
    assert_eq!(scheduler.despawn(RootId(5)), None);
    assert!(!scheduler.is_done(RootId(5), FragmentId(0)));
    assert_eq!(scheduler.issued(), 0);
    assert_eq!(scheduler.phase(RootId(0)), Some(Phase::Idle));
}

#[test]
fn despawn_stops_the_pass_and_keeps_what_has_completed() {
    let mut scheduler = Scheduler::new();
    let tree = Fragment::sequence(vec![Fragment::dialog("a").once(), Fragment::dialog("b")])
        .on_end(Hook::Call(9));
    let root = scheduler.add(tree);
    assert_eq!(scheduler.despawn(root), None);
    let (_, first) = started(&scheduler.spawn(root)).unwrap();
    let (leaf, second) = started(&scheduler.on_end_event(first)).unwrap();
    assert_eq!(leaf, 2);

    assert_eq!(scheduler.despawn(root), Some((FragmentId(2), second)));
    assert_eq!(scheduler.phase(root), Some(Phase::Idle));
    assert!(scheduler.is_done(root, FragmentId(1)));
    assert!(!scheduler.is_done(root, FragmentId(2)));
    assert!(!scheduler.is_done(root, FragmentId(0)));

    // The token of the cancelled leaf is stale from now on.
    let late = scheduler.on_end_event(second);
    assert!(late.hooks.is_empty() && late.start.is_none());
    assert_eq!(scheduler.phase(root), Some(Phase::Idle));

    // The root can be spawned again; the consumed leaf is passed over.
    let (leaf, third) = started(&scheduler.spawn(root)).unwrap();
    assert_eq!(leaf, 2);
    assert_ne!(third, second);
}

#[test]
fn a_removed_root_is_never_played_again() {
    let mut scheduler = Scheduler::new();
    let gone = scheduler.add(Fragment::sequence(vec![Fragment::dialog("a"), delay(1)]).always());
    let kept = scheduler.add(Fragment::dialog("b"));
    let idle = scheduler.add(Fragment::dialog("c"));
    let (_, first) = started(&scheduler.spawn(gone)).unwrap();
    let (leaf, second) = started(&scheduler.on_end_event(first)).unwrap();
    assert_eq!(leaf, 2);

    assert_eq!(scheduler.remove(gone), Some((FragmentId(2), second)));
    assert_eq!(scheduler.phase(gone), Some(Phase::Removed));
    assert!(scheduler.is_done(gone, FragmentId(1)));
    assert_eq!(scheduler.roots(), 3);

    let spawned = scheduler.spawn(gone);
    assert!(spawned.hooks.is_empty() && spawned.start.is_none());
    let late = scheduler.on_end_event(second);
    assert!(late.hooks.is_empty() && late.start.is_none());
    assert_eq!(scheduler.despawn(gone), None);
    assert_eq!(scheduler.remove(gone), None);
    assert_eq!(scheduler.phase(gone), Some(Phase::Removed));
    assert_eq!(scheduler.issued(), 2);

    // A root that was never spawned can be removed as well.
    assert_eq!(scheduler.remove(idle), None);
    assert_eq!(scheduler.phase(idle), Some(Phase::Removed));
    assert_eq!(scheduler.remove(RootId(7)), None);

    // The handles of the other roots are what they were.
    assert_eq!(started(&scheduler.spawn(kept)).map(|s| s.0), Some(0));
    assert_eq!(scheduler.phase(kept).map(|p| matches!(p, Phase::LeafActive { .. })), Some(true));
}

#[test]
fn spawn_box_closes_the_textbox_when_the_tree_ends() {
    let mut scheduler = Scheduler::new();
    let (root, advance) =
        scheduler.spawn_box(Fragment::sequence(vec![Fragment::dialog("a")]).on_end(Hook::Call(4)));
    assert_eq!(root, RootId(0));
    let (_, token) = started(&advance).unwrap();
    let end = scheduler.on_end_event(token);
    assert_eq!(
        end.hooks,
        vec![call(0, 4), HookCall { fragment: FragmentId(0), hook: Hook::CloseTextbox }]
    );
    assert_eq!(scheduler.tree(root).node(FragmentId(0)).on_end.len(), 2);
}
