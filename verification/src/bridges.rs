//! Routes what the scheduler asks for to the bridge that serves it.

use crate::delay::{without, Countdown, DelayBridge};
use crate::dialogue::{DialogueBridge, DialogueView};
use crate::fragment::{Fragment, FragmentId, Hook, Kind, KindView, NodeView, Payload, PayloadView};
use crate::observer::{
    after_enable, after_park, after_uninstall_all, distinct_keys, parked, uninstalled_handles,
    ConditionBridge, Installed, ObserverError,
};
use crate::playback::{Advance, HookCall, Start, StartView};
use crate::textbox::{main_line, TextBlurb, TextBlurbView, TextboxEvent};
use crate::token::EndToken;
use vstd::prelude::*;

verus! {

/// Something for the host to carry out.
#[derive(Debug)]
pub enum Effect {
    /// Perform the side effect of a hook.
    Run(HookCall),
    /// Put a textbox on screen.
    SpawnTextbox,
    /// Render this line in the textbox.
    Show(TextBlurb),
    /// Take the textbox off screen.
    CloseTextbox,
}

/// An effect, as contracts see it.
pub enum EffectView {
    Run(HookCall),
    SpawnTextbox,
    Show(TextBlurbView),
    CloseTextbox,
}

impl View for Effect {
    type V = EffectView;

    open spec fn view(&self) -> EffectView {
        match self {
            Effect::Run(call) => EffectView::Run(*call),
            Effect::SpawnTextbox => EffectView::SpawnTextbox,
            Effect::Show(blurb) => EffectView::Show(blurb@),
            Effect::CloseTextbox => EffectView::CloseTextbox,
        }
    }
}

impl DeepView for Effect {
    type V = EffectView;

    open spec fn deep_view(&self) -> EffectView {
        self@
    }
}

/// What an operation asks of the host, and what went wrong on the way.
#[derive(Debug)]
pub struct Outcome {
    /// What the host is to carry out, in order.
    pub effects: Vec<Effect>,
    /// Set if a condition that started found no parked observer under its
    /// key. The effects stand all the same.
    pub fault: Option<ObserverError>,
}

/// The three bridges of a cutscene.
#[derive(Debug)]
pub struct Bridges<H> {
    pub delays: DelayBridge,
    pub dialogue: DialogueBridge,
    pub conditions: ConditionBridge<H>,
}

/// The state of the bridges, as contracts see it.
#[verifier::ext_equal]
pub struct BridgesView<H> {
    pub delays: Seq<Countdown>,
    pub dialogue: DialogueView,
    pub conditions: Seq<Installed<H>>,
}

/// One effect for each hook call, in order.
pub open spec fn run_all(hooks: Seq<HookCall>) -> Seq<EffectView> {
    hooks.map_values(|call: HookCall| EffectView::Run(call))
}

/// Whether one of the hooks closes the textbox.
pub open spec fn closing(hooks: Seq<HookCall>) -> bool {
    exists|i: int| 0 <= i < hooks.len() && (#[trigger] hooks[i]).hook == Hook::CloseTextbox
}

/// The keys of the conditions of a tree, in playback order.
pub open spec fn condition_keys(nodes: Seq<NodeView>) -> Seq<u64>
    decreases nodes.len(),
{
    if nodes.len() == 0 {
        Seq::empty()
    } else {
        match nodes.last().kind {
            KindView::Leaf(PayloadView::Condition(key)) => condition_keys(nodes.drop_last()).push(
                key,
            ),
            _ => condition_keys(nodes.drop_last()),
        }
    }
}

/// The effects that bring a line into the textbox.
pub open spec fn presenting(spawned: bool, line: Option<TextBlurbView>) -> Seq<EffectView> {
    (if spawned {
        seq![EffectView::SpawnTextbox]
    } else {
        Seq::empty()
    }) + (match line {
        Some(blurb) => seq![EffectView::Show(blurb)],
        None => Seq::empty(),
    })
}

impl<H> BridgesView<H> {
    pub open spec fn wf(self) -> bool {
        &&& self.dialogue.wf()
        &&& distinct_keys(self.conditions)
    }

    /// The bridges after the hooks ran: a hook that closes the textbox has
    /// closed it.
    pub open spec fn hooked(self, hooks: Seq<HookCall>) -> BridgesView<H> {
        BridgesView {
            delays: self.delays,
            dialogue: if closing(hooks) {
                self.dialogue.close()
            } else {
                self.dialogue
            },
            conditions: self.conditions,
        }
    }

    /// The bridges after the leaf of `start` was handed to its bridge.
    ///
    /// A line of dialogue is queued for the textbox in the main character's
    /// voice, and the textbox is to stay open after it. A pause begins its
    /// countdown and closes the textbox. A condition wakes its observer, if a
    /// parked one is installed under its key.
    pub open spec fn started(self, start: StartView) -> BridgesView<H> {
        match start.payload {
            PayloadView::Dialog(text) => BridgesView {
                delays: self.delays,
                dialogue: self.dialogue.on_start(seq![main_line(text)], true, start.token),
                conditions: self.conditions,
            },
            PayloadView::Pause(nanos) => BridgesView {
                delays: self.delays.push(
                    Countdown { duration: nanos, elapsed: 0, token: start.token },
                ),
                dialogue: self.dialogue.close(),
                conditions: self.conditions,
            },
            PayloadView::Condition(key) => BridgesView {
                delays: self.delays,
                dialogue: self.dialogue,
                conditions: after_enable(self.conditions, key, start.token),
            },
        }
    }

    /// The effects of handing the leaf of `start` to its bridge.
    pub open spec fn start_effects(self, start: StartView) -> Seq<EffectView> {
        match start.payload {
            PayloadView::Dialog(text) => presenting(
                !self.dialogue.visible,
                self.dialogue.shown(seq![main_line(text)]),
            ),
            PayloadView::Pause(_) => seq![EffectView::CloseTextbox],
            PayloadView::Condition(_) => Seq::empty(),
        }
    }

    /// Whether the leaf of `start` finds its bridge ready. Only a condition
    /// can fail to: it needs a parked observer under its key.
    pub open spec fn accepts(self, start: StartView) -> bool {
        start.payload matches PayloadView::Condition(key) ==> parked(self.conditions, key)
    }

    /// The bridges after one move of the scheduler.
    pub open spec fn advanced(self, hooks: Seq<HookCall>, start: Option<StartView>) -> BridgesView<
        H,
    > {
        match start {
            Some(start) => self.hooked(hooks).started(start),
            None => self.hooked(hooks),
        }
    }

    /// The effects of one move of the scheduler: one for each hook, then
    /// those of handing the leaf to its bridge.
    pub open spec fn effects(self, hooks: Seq<HookCall>, start: Option<StartView>) -> Seq<
        EffectView,
    > {
        match start {
            Some(start) => run_all(hooks) + self.hooked(hooks).start_effects(start),
            None => run_all(hooks),
        }
    }

    /// Whether one move of the scheduler finds the bridges ready.
    pub open spec fn ready(self, hooks: Seq<HookCall>, start: Option<StartView>) -> bool {
        start matches Some(start) ==> self.hooked(hooks).accepts(start)
    }

    /// What goes wrong in one move of the scheduler: a condition that starts
    /// without a parked observer under its key.
    pub open spec fn fault(self, hooks: Seq<HookCall>, start: Option<StartView>) -> Option<
        ObserverError,
    > {
        if self.ready(hooks, start) {
            None
        } else {
            Some(ObserverError::ExpectedDisabledObserver)
        }
    }

    /// The bridges without the observers of the conditions of a tree.
    pub open spec fn uninstalled(self, nodes: Seq<NodeView>) -> BridgesView<H> {
        BridgesView {
            delays: self.delays,
            dialogue: self.dialogue,
            conditions: after_uninstall_all(self.conditions, condition_keys(nodes)),
        }
    }

    /// The bridges after the leaf with `payload` and `token` was called off.
    pub open spec fn released(self, payload: PayloadView, token: EndToken) -> BridgesView<H> {
        match payload {
            PayloadView::Dialog(_) => BridgesView {
                delays: self.delays,
                dialogue: self.dialogue.release(token),
                conditions: self.conditions,
            },
            PayloadView::Pause(_) => BridgesView {
                delays: without(self.delays, token),
                dialogue: self.dialogue,
                conditions: self.conditions,
            },
            PayloadView::Condition(key) => BridgesView {
                delays: self.delays,
                dialogue: self.dialogue,
                conditions: after_park(self.conditions, key),
            },
        }
    }
}

impl<H> View for Bridges<H> {
    type V = BridgesView<H>;

    open spec fn view(&self) -> BridgesView<H> {
        BridgesView { delays: self.delays@, dialogue: self.dialogue@, conditions: self.conditions@ }
    }
}

impl<H> Bridges<H> {
    /// The invariant of the bridges.
    pub open spec fn wf(&self) -> bool {
        self@.wf()
    }

    /// Three bridges that hold nothing.
    pub fn new() -> (bridges: Bridges<H>)
        ensures
            bridges.wf(),
            bridges.delays@ == Seq::<Countdown>::empty(),
            bridges.dialogue@ == DialogueView::initial(),
            bridges.conditions@ == Seq::<Installed<H>>::empty(),
    {
        Bridges {
            delays: DelayBridge::new(),
            dialogue: DialogueBridge::new(),
            conditions: ConditionBridge::new(),
        }
    }

    /// Carries out one move of the scheduler on the bridges.
    ///
    /// Every hook becomes an effect for the host, and one that closes the
    /// textbox is noted by the dialogue bridge. The leaf that starts, if any,
    /// goes to its bridge. A condition without a parked observer is reported
    /// as the fault: the leaf is not served, and the effects of the hooks are
    /// returned all the same, since the scheduler has moved on.
    pub fn on_advance(&mut self, advance: Advance) -> (r: Outcome)
        requires
            old(self).wf(),
        ensures
            final(self).wf(),
            final(self)@ == old(self)@.advanced(advance.hooks@, advance.start.deep_view()),
            r.effects.deep_view() == old(self)@.effects(advance.hooks@, advance.start.deep_view()),
            r.fault == old(self)@.fault(advance.hooks@, advance.start.deep_view()),
    {
        let ghost begun = advance.start.deep_view();
        let Advance { hooks, start } = advance;
        let ghost before = self@;
        let ghost calls = hooks@;
        let mut effects: Vec<Effect> = Vec::new();
        let mut closes = false;
        let mut index: usize = 0;
        proof {
            assert(calls.take(0) =~= Seq::<HookCall>::empty());
            assert(effects.deep_view() =~= run_all(calls.take(0)));
        }
        while index < hooks.len()
            invariant
                hooks@ == calls,
                index <= calls.len(),
                effects.deep_view() == run_all(calls.take(index as int)),
                closes == closing(calls.take(index as int)),
            decreases calls.len() - index,
        {
            let call = hooks[index];
            let ghost sofar = effects.deep_view();
            proof {
                let seen = calls.take(index as int);
                let now = calls.take(index + 1);
                assert(now =~= seen.push(call));
                assert(run_all(now) =~= run_all(seen).push(EffectView::Run(call)));
                if closing(seen) {
                    let w = choose|i: int| 0 <= i < seen.len() && (#[trigger] seen[i]).hook
                        == Hook::CloseTextbox;
                    assert(now[w].hook == Hook::CloseTextbox);
                }
                if call.hook == Hook::CloseTextbox {
                    assert(now[index as int].hook == Hook::CloseTextbox);
                }
                if closing(now) {
                    let w = choose|i: int| 0 <= i < now.len() && (#[trigger] now[i]).hook
                        == Hook::CloseTextbox;
                    if w < index {
                        assert(seen[w].hook == Hook::CloseTextbox);
                    }
                }
            }
            if let Hook::CloseTextbox = call.hook {
                closes = true;
            }
            effects.push(Effect::Run(call));
            proof {
                assert(effects.deep_view() =~= sofar.push(EffectView::Run(call)));
            }
            index = index + 1;
        }
        proof {
            assert(calls.take(index as int) =~= calls);
        }
        if closes {
            self.dialogue.close();
        }
        let ghost hooked = self@;
        proof {
            assert(hooked == before.hooked(calls));
        }
        let start = match start {
            Some(start) => start,
            None => {
                return Outcome { effects, fault: None };
            },
        };
        let ghost leaf = start@;
        let ghost sofar = effects.deep_view();
        let Start { fragment: _, payload, token } = start;
        match payload {
            Payload::Dialog(text) => {
                let blurb = TextBlurb::main_character(text.as_str());
                let shown = self.dialogue.on_start(TextboxEvent::section_retained(blurb), token);
                if shown.spawned {
                    effects.push(Effect::SpawnTextbox);
                }
                let ghost spawned = effects.deep_view();
                proof {
                    assert(spawned =~= sofar + presenting(shown.spawned, None));
                }
                match shown.line {
                    Some(blurb) => {
                        effects.push(Effect::Show(blurb));
                        proof {
                            assert(effects.deep_view() =~= spawned.push(EffectView::Show(blurb@)));
                        }
                    },
                    None => {},
                }
                proof {
                    assert(self@ == hooked.started(leaf));
                    assert(effects.deep_view() =~= sofar + hooked.start_effects(leaf));
                }
                Outcome { effects, fault: None }
            },
            Payload::Pause(nanos) => {
                self.delays.on_start(nanos, token);
                self.dialogue.close();
                effects.push(Effect::CloseTextbox);
                proof {
                    assert(self@ == hooked.started(leaf));
                    assert(effects.deep_view() =~= sofar + hooked.start_effects(leaf));
                }
                Outcome { effects, fault: None }
            },
            Payload::Condition(key) => {
                let enabled = self.conditions.enable(key, token);
                proof {
                    assert(self@ == hooked.started(leaf));
                    assert(effects.deep_view() =~= sofar + hooked.start_effects(leaf));
                }
                match enabled {
                    Ok(_) => Outcome { effects, fault: None },
                    Err(e) => Outcome { effects, fault: Some(e) },
                }
            },
        }
    }

    /// Uninstalls the observers of all conditions of `tree` and returns their
    /// registration data, in playback order: the tree is gone for good. A
    /// condition without an observer is passed over.
    pub fn uninstall(&mut self, tree: &Fragment) -> (handles: Vec<H>)
        requires
            old(self).wf(),
        ensures
            final(self).wf(),
            final(self)@ == old(self)@.uninstalled(tree@),
            handles@ == uninstalled_handles(old(self)@.conditions, condition_keys(tree@)),
    {
        let ghost nodes = tree@;
        let ghost before = self@.conditions;
        let mut handles: Vec<H> = Vec::new();
        let mut index: usize = 0;
        proof {
            assert(nodes.take(0) =~= Seq::<NodeView>::empty());
        }
        while index < tree.len()
            invariant
                self.wf(),
                nodes == tree@,
                index <= nodes.len(),
                self.delays == old(self).delays,
                self.dialogue == old(self).dialogue,
                self.conditions@ == after_uninstall_all(
                    before,
                    condition_keys(nodes.take(index as int)),
                ),
                handles@ == uninstalled_handles(before, condition_keys(nodes.take(index as int))),
            decreases nodes.len() - index,
        {
            let node = tree.node(FragmentId(index));
            proof {
                assert(nodes.take(index + 1).drop_last() =~= nodes.take(index as int));
                assert(nodes.take(index + 1).last() == nodes[index as int]);
            }
            match &node.kind {
                Kind::Leaf(Payload::Condition(key)) => {
                    let ghost keys = condition_keys(nodes.take(index as int));
                    proof {
                        assert(condition_keys(nodes.take(index + 1)) == keys.push(*key));
                        assert(keys.push(*key).drop_last() =~= keys);
                    }
                    match self.conditions.uninstall(*key) {
                        Some(handle) => {
                            handles.push(handle);
                        },
                        None => {},
                    }
                },
                _ => {},
            }
            index = index + 1;
        }
        proof {
            assert(nodes.take(index as int) =~= nodes);
        }
        handles
    }

    /// Lets go of what the bridges hold for a leaf that was called off: the
    /// token of a line leaves the backlog, the countdown of a pause is
    /// dropped, the observer of a condition is parked.
    pub fn release(&mut self, payload: &Payload, token: EndToken)
        requires
            old(self).wf(),
        ensures
            final(self).wf(),
            final(self)@ == old(self)@.released(payload@, token),
    {
        match payload {
            Payload::Dialog(_) => {
                self.dialogue.release(token);
            },
            Payload::Pause(_) => {
                self.delays.release(token);
            },
            Payload::Condition(key) => {
                self.conditions.park(*key);
            },
        }
    }
}

} // verus!
