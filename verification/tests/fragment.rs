use cutscene_sequence::chara::Chara;
use cutscene_sequence::fragment::{con, delay, Fragment, FragmentId, Hook, Kind, Payload, Policy};

fn kinds(tree: &Fragment) -> Vec<String> {
    (0..tree.len())
        .map(|i| match &tree.node(FragmentId(i)).kind {
            Kind::Leaf(Payload::Dialog(text)) => format!("dialog:{}", text),
            Kind::Leaf(Payload::Pause(nanos)) => format!("pause:{}", nanos),
            Kind::Leaf(Payload::Condition(key)) => format!("con:{}", key),
            Kind::Sequence => "seq".to_string(),
        })
        .collect()
}

fn spans(tree: &Fragment) -> Vec<usize> {
    (0..tree.len()).map(|i| tree.node(FragmentId(i)).span).collect()
}

#[test]
fn dialog_leaf_holds_its_text() {
    let leaf = Fragment::dialog("Hello, world!");
    assert_eq!(leaf.len(), 1);
    let node = leaf.node(FragmentId(0));
    assert!(matches!(&node.kind, Kind::Leaf(Payload::Dialog(text)) if text == "Hello, world!"));
    assert_eq!(node.span, 1);
    assert_eq!(node.policy, Policy::Always);
    assert!(node.on_start.is_empty());
    assert!(node.on_end.is_empty());
}

#[test]
fn delay_leaf_holds_its_length() {
    let leaf = delay(1_500_000_000);
    assert_eq!(kinds(&leaf), vec!["pause:1500000000"]);
    assert_eq!(leaf.node(FragmentId(0)).policy, Policy::Always);
}

#[test]
fn condition_leaf_holds_its_key() {
    let leaf = con(42);
    assert_eq!(kinds(&leaf), vec!["con:42"]);
    assert_eq!(spans(&leaf), vec![1]);
}

#[test]
fn payload_duplicate_is_equal() {
    let payload = Payload::Dialog("Goodbye.".to_string());
    assert!(matches!(payload.duplicate(), Payload::Dialog(text) if text == "Goodbye."));
    assert!(matches!(Payload::Pause(7).duplicate(), Payload::Pause(7)));
    assert!(matches!(Payload::Condition(9).duplicate(), Payload::Condition(9)));
}

#[test]
fn sequence_lays_children_out_in_playback_order() {
    let tree = Fragment::sequence(vec![
        Fragment::dialog("a"),
        Fragment::sequence(vec![delay(1), Fragment::dialog("b")]),
        con(3),
    ]);
    assert_eq!(kinds(&tree), vec!["seq", "dialog:a", "seq", "pause:1", "dialog:b", "con:3"]);
    assert_eq!(spans(&tree), vec![6, 1, 3, 1, 1, 1]);
}

#[test]
fn empty_sequence_spans_itself_alone() {
    let tree = Fragment::sequence(Vec::new());
    assert_eq!(kinds(&tree), vec!["seq"]);
    assert_eq!(spans(&tree), vec![1]);
}

#[test]
fn nested_policies_stay_on_their_own_subtree() {
    let tree = Fragment::sequence(vec![
        Fragment::dialog("a").once(),
        Fragment::sequence(vec![Fragment::dialog("b")]).once(),
        Fragment::dialog("c"),
    ])
    .always();
    let policies: Vec<Policy> = (0..tree.len()).map(|i| tree.node(FragmentId(i)).policy).collect();
    assert_eq!(
        policies,
        vec![Policy::Always, Policy::Once, Policy::Once, Policy::Always, Policy::Always]
    );
}

#[test]
fn the_last_policy_combinator_decides() {
    assert_eq!(Fragment::dialog("a").always().once().node(FragmentId(0)).policy, Policy::Once);
    assert_eq!(Fragment::dialog("a").once().always().node(FragmentId(0)).policy, Policy::Always);
    assert_eq!(Fragment::dialog("a").once().once().node(FragmentId(0)).policy, Policy::Once);
}

#[test]
fn hooks_are_kept_in_the_order_they_were_attached() {
    let tree = Fragment::sequence(vec![Fragment::dialog("a")])
        .on_start(Hook::Call(1))
        .on_end(Hook::Call(2))
        .on_start(Hook::Call(3))
        .on_end(Hook::CloseTextbox);
    let root = tree.node(FragmentId(0));
    assert_eq!(root.on_start, vec![Hook::Call(1), Hook::Call(3)]);
    assert_eq!(root.on_end, vec![Hook::Call(2), Hook::CloseTextbox]);
    assert!(tree.node(FragmentId(1)).on_start.is_empty());
    assert_eq!(tree.len(), 2);
}

#[test]
fn speaker_combinators_announce_their_character() {
    let cases: Vec<(Fragment, Chara)> = vec![
        (Fragment::dialog("x").chara(Chara::Sturgeon), Chara::Sturgeon),
        (Fragment::dialog("x").narrator(), Chara::Narrator),
        (Fragment::dialog("x").distressed_narrator(), Chara::DistressedNarrator1),
        (Fragment::dialog("x").distressed_narrator2(), Chara::DistressedNarrator2),
        (Fragment::dialog("x").father(), Chara::Father),
        (Fragment::dialog("x").luna(), Chara::Luna),
        (Fragment::dialog("x").stranger(), Chara::Stranger),
        (Fragment::dialog("x").shadow(), Chara::Shadow),
    ];
    for (fragment, chara) in cases {
        let node = fragment.node(FragmentId(0));
        assert_eq!(node.on_start, vec![Hook::Character(chara)]);
        assert!(node.on_end.is_empty());
        assert!(matches!(&node.kind, Kind::Leaf(Payload::Dialog(text)) if text == "x"));
    }
}

#[test]
fn combinators_on_a_sequence_touch_only_its_root() {
    let tree = Fragment::sequence(vec![Fragment::dialog("a").father(), delay(5)]).luna().once();
    assert_eq!(tree.node(FragmentId(0)).on_start, vec![Hook::Character(Chara::Luna)]);
    assert_eq!(tree.node(FragmentId(1)).on_start, vec![Hook::Character(Chara::Father)]);
    assert_eq!(tree.node(FragmentId(1)).policy, Policy::Always);
    assert_eq!(kinds(&tree), vec!["seq", "dialog:a", "pause:5"]);
}
