//! A scheduler and its bridges, moved together.
//!
//! Every operation keeps one order: a bridge resolves first, then the
//! scheduler consumes the token, then the leaf that starts is handed to its
//! bridge. The end of one leaf and the start of the next therefore never
//! meet in a bridge.

use crate::bridges::{Bridges, BridgesView, Effect, EffectView, Outcome};
use crate::delay::{delivered, remaining, Countdown};
use crate::dialogue::{DialogueError, DialogueView, Turn};
use crate::fragment::{Fragment, Kind};
use crate::observer::{
    listening, observed, slot, uninstalled_handles, with_state, Answer, Installed, ObserverError,
    ObserverState,
};
use crate::playback::{payload_of, Phase, PlaybackView};
use crate::scheduler::{boxed, RootId, Scheduler, SchedulerView};
use crate::token::EndToken;
use vstd::prelude::*;

verus! {

/// A scheduler with the bridges that serve its leaves.
#[derive(Debug)]
pub struct Cutscene<H> {
    pub scheduler: Scheduler,
    pub bridges: Bridges<H>,
}

/// The state of a cutscene, as contracts see it.
#[verifier::ext_equal]
pub struct CutsceneView<H> {
    pub scheduler: SchedulerView,
    pub bridges: BridgesView<H>,
}

/// The bridges with `dialogue` in place of their dialogue bridge.
pub open spec fn with_dialogue<H>(bridges: BridgesView<H>, dialogue: DialogueView) -> BridgesView<
    H,
> {
    BridgesView { delays: bridges.delays, dialogue, conditions: bridges.conditions }
}

/// The bridges with `conditions` in place of their observers.
pub open spec fn with_conditions<H>(bridges: BridgesView<H>, conditions: Seq<Installed<H>>)
    -> BridgesView<H> {
    BridgesView { delays: bridges.delays, dialogue: bridges.dialogue, conditions }
}

/// The effect of the textbox closing, if it does.
pub open spec fn closing_effects(closed: bool) -> Seq<EffectView> {
    if closed {
        seq![EffectView::CloseTextbox]
    } else {
        Seq::empty()
    }
}

/// The fault of two steps taken one after the other: the first that occurred.
pub open spec fn first_fault(earlier: Option<ObserverError>, later: Option<ObserverError>)
    -> Option<ObserverError> {
    match earlier {
        Some(fault) => Some(fault),
        None => later,
    }
}

impl<H> CutsceneView<H> {
    /// The state after `root` was spawned and the leaf that started was
    /// handed to its bridge.
    pub open spec fn spawn(self, root: RootId) -> CutsceneView<H> {
        CutsceneView {
            scheduler: self.scheduler.spawn(root),
            bridges: self.bridges.advanced(
                self.scheduler.spawn_hooks(root),
                self.scheduler.spawn_start(root),
            ),
        }
    }

    /// The state after `token` was delivered and the leaf that started was
    /// handed to its bridge.
    pub open spec fn deliver(self, token: EndToken) -> CutsceneView<H> {
        CutsceneView {
            scheduler: self.scheduler.end(token),
            bridges: self.bridges.advanced(
                self.scheduler.end_hooks(token),
                self.scheduler.end_start(token),
            ),
        }
    }

    /// The effects of the delivery of `token`.
    pub open spec fn delivery_effects(self, token: EndToken) -> Seq<EffectView> {
        self.bridges.effects(self.scheduler.end_hooks(token), self.scheduler.end_start(token))
    }

    /// What goes wrong in the delivery of `token`.
    pub open spec fn delivery_fault(self, token: EndToken) -> Option<ObserverError> {
        self.bridges.fault(self.scheduler.end_hooks(token), self.scheduler.end_start(token))
    }

    /// The state after `tokens` were delivered, one after the other.
    pub open spec fn deliver_all(self, tokens: Seq<EndToken>) -> CutsceneView<H>
        decreases tokens.len(),
    {
        if tokens.len() == 0 {
            self
        } else {
            self.deliver_all(tokens.drop_last()).deliver(tokens.last())
        }
    }

    /// The effects of delivering `tokens`, one after the other.
    pub open spec fn all_effects(self, tokens: Seq<EndToken>) -> Seq<EffectView>
        decreases tokens.len(),
    {
        if tokens.len() == 0 {
            Seq::empty()
        } else {
            self.all_effects(tokens.drop_last()) + self.deliver_all(
                tokens.drop_last(),
            ).delivery_effects(tokens.last())
        }
    }

    /// The first fault among the deliveries of `tokens`.
    pub open spec fn all_faults(self, tokens: Seq<EndToken>) -> Option<ObserverError>
        decreases tokens.len(),
    {
        if tokens.len() == 0 {
            None
        } else {
            first_fault(
                self.all_faults(tokens.drop_last()),
                self.deliver_all(tokens.drop_last()).delivery_fault(tokens.last()),
            )
        }
    }

    /// The state with the countdowns advanced by `delta` nanoseconds, before
    /// the tokens of those that ran out are delivered.
    pub open spec fn counted_down(self, delta: u64) -> CutsceneView<H> {
        CutsceneView {
            scheduler: self.scheduler,
            bridges: BridgesView {
                delays: remaining(self.bridges.delays, delta),
                dialogue: self.bridges.dialogue,
                conditions: self.bridges.conditions,
            },
        }
    }

    /// The tokens of the countdowns that `delta` more nanoseconds bring to
    /// their end.
    pub open spec fn due(self, delta: u64) -> Seq<EndToken> {
        delivered(self.bridges.delays, delta)
    }

    /// The state after `delta` nanoseconds have passed: the countdowns have
    /// advanced, and the tokens of those that ran out were delivered in the
    /// order in which their pauses began.
    pub open spec fn tick(self, delta: u64) -> CutsceneView<H> {
        self.counted_down(delta).deliver_all(self.due(delta))
    }

    /// The bridges after they let go of the leaf of `root` that is
    /// outstanding, if there is one.
    pub open spec fn let_go(self, root: RootId) -> BridgesView<H> {
        match self.scheduler.cancelled(root) {
            Some((leaf, token)) => self.bridges.released(
                payload_of(self.scheduler.roots[root.0 as int].nodes[leaf.0 as int]),
                token,
            ),
            None => self.bridges,
        }
    }

    /// The state after `root` was despawned and its bridge let go of the
    /// leaf that was outstanding.
    pub open spec fn despawn(self, root: RootId) -> CutsceneView<H> {
        CutsceneView { scheduler: self.scheduler.despawn(root), bridges: self.let_go(root) }
    }

    /// Whether `root` is a root that has not been removed.
    pub open spec fn holds(self, root: RootId) -> bool {
        self.scheduler.has(root) && !(self.scheduler.roots[root.0 as int].phase is Removed)
    }

    /// The state after `root` was removed for good: its bridge let go of the
    /// leaf that was outstanding, and the observers of all its conditions
    /// were uninstalled.
    pub open spec fn remove(self, root: RootId) -> CutsceneView<H> {
        if self.holds(root) {
            CutsceneView {
                scheduler: self.scheduler.remove(root),
                bridges: self.let_go(root).uninstalled(self.scheduler.roots[root.0 as int].nodes),
            }
        } else {
            self
        }
    }

    /// The registration data of the observers that the removal of `root`
    /// uninstalls.
    pub open spec fn removed_handles(self, root: RootId) -> Seq<H> {
        if self.holds(root) {
            uninstalled_handles(
                self.let_go(root).conditions,
                crate::bridges::condition_keys(self.scheduler.roots[root.0 as int].nodes),
            )
        } else {
            Seq::empty()
        }
    }

    /// The state with the dialogue bridge advanced, before the token that
    /// this may have ended is delivered.
    pub open spec fn acknowledged(self) -> CutsceneView<H> {
        CutsceneView {
            scheduler: self.scheduler,
            bridges: with_dialogue(self.bridges, self.bridges.dialogue.advance()),
        }
    }

    /// The state after the user acknowledged what a visible textbox shows.
    pub open spec fn interact(self) -> CutsceneView<H> {
        match self.bridges.dialogue.ended() {
            Some(token) => self.acknowledged().deliver(token),
            None => self.acknowledged(),
        }
    }

    /// The effects of the user acknowledging what a visible textbox shows:
    /// the next line; or, when the lines have run out, the textbox closing
    /// unless it was asked to stay, and then the effects of the delivery of
    /// the oldest outstanding token.
    pub open spec fn interact_effects(self) -> Seq<EffectView> {
        let dialogue = self.bridges.dialogue;
        if dialogue.lines.len() > 0 {
            seq![EffectView::Show(dialogue.lines[0])]
        } else {
            closing_effects(!dialogue.retained) + (match dialogue.ended() {
                Some(token) => self.acknowledged().delivery_effects(token),
                None => Seq::empty(),
            })
        }
    }

    /// What goes wrong when the user acknowledges what a visible textbox
    /// shows.
    pub open spec fn interact_fault(self) -> Option<ObserverError> {
        match self.bridges.dialogue.ended() {
            Some(token) => self.acknowledged().delivery_fault(token),
            None => None,
        }
    }
}

/// What [`Cutscene::fire`] leaves behind and returns when the predicate of
/// the listening observer under `key` handed back `handle` with `answer`.
///
/// If the condition is satisfied, the observer is parked and the token of
/// its activation is delivered. If it is not, or the predicate failed, the
/// observer goes on listening with what the predicate handed back, and
/// nothing else changes; a failure is passed on.
pub open spec fn fired<H, E>(
    before: CutsceneView<H>,
    key: u64,
    handle: H,
    answer: Answer<E>,
    after: CutsceneView<H>,
    r: Result<Outcome, E>,
) -> bool {
    let observers = before.bridges.conditions;
    let token = observers[slot(observers, key)].state->token;
    match answer {
        Answer::Satisfied => {
            let parked = CutsceneView {
                scheduler: before.scheduler,
                bridges: with_conditions(
                    before.bridges,
                    with_state(observers, key, ObserverState::Dormant { handle }),
                ),
            };
            &&& after == parked.deliver(token)
            &&& r matches Ok(outcome)
            &&& outcome.effects.deep_view() == parked.delivery_effects(token)
            &&& outcome.fault == parked.delivery_fault(token)
        },
        Answer::Unsatisfied => {
            &&& after.scheduler == before.scheduler
            &&& after.bridges == with_conditions(
                before.bridges,
                with_state(observers, key, ObserverState::Active { handle, token }),
            )
            &&& r matches Ok(outcome)
            &&& outcome.effects@.len() == 0
            &&& outcome.fault is None
        },
        Answer::Failed(e) => {
            &&& after.scheduler == before.scheduler
            &&& after.bridges == with_conditions(
                before.bridges,
                with_state(observers, key, ObserverState::Active { handle, token }),
            )
            &&& r matches Err(failure)
            &&& failure == e
        },
    }
}

impl<H> View for Cutscene<H> {
    type V = CutsceneView<H>;

    open spec fn view(&self) -> CutsceneView<H> {
        CutsceneView { scheduler: self.scheduler@, bridges: self.bridges@ }
    }
}

impl<H> Cutscene<H> {
    /// The invariant of a cutscene.
    pub open spec fn wf(&self) -> bool {
        &&& self.scheduler.wf()
        &&& self.bridges.wf()
    }

    /// A cutscene without roots, with empty bridges.
    pub fn new() -> (cutscene: Cutscene<H>)
        ensures
            cutscene.wf(),
            cutscene.scheduler@.issued == 0,
            cutscene.scheduler@.roots == Seq::<PlaybackView>::empty(),
            cutscene.bridges.delays@ == Seq::<Countdown>::empty(),
            cutscene.bridges.dialogue@ == DialogueView::initial(),
            cutscene.bridges.conditions@ == Seq::<Installed<H>>::empty(),
    {
        Cutscene { scheduler: Scheduler::new(), bridges: Bridges::new() }
    }

    /// Spawns `root` and hands the leaf that starts to its bridge.
    pub fn spawn(&mut self, root: RootId) -> (r: Outcome)
        requires
            old(self).wf(),
            old(self).scheduler.can_mint(),
        ensures
            final(self).wf(),
            final(self)@ == old(self)@.spawn(root),
            r.effects.deep_view() == old(self).bridges@.effects(
                old(self).scheduler@.spawn_hooks(root),
                old(self).scheduler@.spawn_start(root),
            ),
            r.fault == old(self).bridges@.fault(
                old(self).scheduler@.spawn_hooks(root),
                old(self).scheduler@.spawn_start(root),
            ),
    {
        let advance = self.scheduler.spawn(root);
        self.bridges.on_advance(advance)
    }

    /// Adds a root for `tree` that closes the textbox when it ends, spawns
    /// it, and hands the leaf that starts to its bridge.
    pub fn spawn_box(&mut self, tree: Fragment) -> (r: (RootId, Outcome))
        requires
            old(self).wf(),
            old(self).scheduler.can_mint(),
            tree.wf(),
        ensures
            final(self).wf(),
            r.0.0 == old(self).scheduler@.roots.len(),
            final(self).scheduler@ == old(self).scheduler@.add(boxed(tree@)).spawn(r.0),
            final(self).bridges@ == old(self).bridges@.advanced(
                old(self).scheduler@.add(boxed(tree@)).spawn_hooks(r.0),
                old(self).scheduler@.add(boxed(tree@)).spawn_start(r.0),
            ),
            r.1.effects.deep_view() == old(self).bridges@.effects(
                old(self).scheduler@.add(boxed(tree@)).spawn_hooks(r.0),
                old(self).scheduler@.add(boxed(tree@)).spawn_start(r.0),
            ),
            r.1.fault == old(self).bridges@.fault(
                old(self).scheduler@.add(boxed(tree@)).spawn_hooks(r.0),
                old(self).scheduler@.add(boxed(tree@)).spawn_start(r.0),
            ),
    {
        let (root, advance) = self.scheduler.spawn_box(tree);
        let outcome = self.bridges.on_advance(advance);
        (root, outcome)
    }

    /// Delivers an end token to the scheduler and hands the leaf that starts
    /// next to its bridge. A token that no root waits for changes nothing.
    pub fn deliver(&mut self, token: EndToken) -> (r: Outcome)
        requires
            old(self).wf(),
            old(self).scheduler.can_mint(),
        ensures
            final(self).wf(),
            final(self)@ == old(self)@.deliver(token),
            r.effects.deep_view() == old(self)@.delivery_effects(token),
            r.fault == old(self)@.delivery_fault(token),
    {
        let advance = self.scheduler.on_end_event(token);
        self.bridges.on_advance(advance)
    }

    /// Lets `delta` nanoseconds pass.
    ///
    /// First the countdowns advance. Then the token of each pause that ran
    /// out is delivered, in the order in which the pauses began, and the leaf
    /// that starts next is handed to its bridge; a pause that starts here
    /// begins to count with the next tick. A condition that starts without a
    /// parked observer is reported as the fault; the other deliveries go on.
    pub fn tick(&mut self, delta: u64) -> (r: Outcome)
        requires
            old(self).wf(),
            old(self).scheduler@.issued + old(self).bridges.delays@.len() <= u64::MAX,
        ensures
            final(self).wf(),
            final(self)@ == old(self)@.tick(delta),
            r.effects.deep_view() == old(self)@.counted_down(delta).all_effects(
                old(self)@.due(delta),
            ),
            r.fault == old(self)@.counted_down(delta).all_faults(old(self)@.due(delta)),
    {
        let ghost due = self@.due(delta);
        proof {
            old(self).bridges.delays@.lemma_filter_len(|c: Countdown| c.runs_out(delta));
        }
        let tokens = self.bridges.delays.tick(delta);
        let ghost start = self@;
        let ghost issued = old(self).scheduler@.issued;
        let mut effects: Vec<Effect> = Vec::new();
        let mut fault: Option<ObserverError> = None;
        let mut index: usize = 0;
        proof {
            assert(start == old(self)@.counted_down(delta));
            assert(due.take(0) =~= Seq::<EndToken>::empty());
            assert(effects.deep_view() =~= start.all_effects(due.take(0)));
        }
        while index < tokens.len()
            invariant
                self.wf(),
                tokens@ == due,
                index <= due.len(),
                issued + due.len() <= u64::MAX,
                self.scheduler@.issued <= issued + index,
                self@ == start.deliver_all(due.take(index as int)),
                effects.deep_view() == start.all_effects(due.take(index as int)),
                fault == start.all_faults(due.take(index as int)),
            decreases due.len() - index,
        {
            let token = tokens[index];
            let ghost sofar = effects.deep_view();
            proof {
                self.scheduler.lemma_wf_view();
                assert(due.take(index + 1).drop_last() =~= due.take(index as int));
                assert(due.take(index + 1).last() == token);
            }
            let Outcome { effects: mut more, fault: failed } = self.deliver(token);
            let ghost raw_head = effects@;
            let ghost raw_tail = more@;
            let ghost tail = more.deep_view();
            effects.append(&mut more);
            proof {
                assert(effects@ =~= raw_head + raw_tail);
                assert(effects.deep_view() =~= sofar + tail);
            }
            if fault.is_none() {
                fault = failed;
            }
            index = index + 1;
        }
        proof {
            assert(due.take(index as int) =~= due);
        }
        Outcome { effects, fault }
    }

    /// The event that the condition under `key` watches has fired.
    ///
    /// If the observer under `key` is listening, `predicate` is run on its
    /// registration data. If the condition is satisfied, the observer is
    /// parked, the token of its activation is delivered, and the leaf that
    /// starts next is handed to its bridge. A parked observer, or none, is
    /// left alone: the predicate is not run and nothing changes.
    pub fn fire<E, F: FnOnce(H) -> (H, Answer<E>)>(&mut self, key: u64, predicate: F) -> (r: Result<
        Outcome,
        E,
    >)
        requires
            old(self).wf(),
            old(self).scheduler.can_mint(),
            listening(old(self).bridges.conditions@, key) ==> call_requires(
                predicate,
                (old(self).bridges.conditions@[slot(
                    old(self).bridges.conditions@,
                    key,
                )].state.handle(),),
            ),
        ensures
            final(self).wf(),
            !listening(old(self).bridges.conditions@, key) ==> {
                &&& final(self)@ == old(self)@
                &&& r matches Ok(outcome)
                &&& outcome.effects@.len() == 0
                &&& outcome.fault is None
            },
            listening(old(self).bridges.conditions@, key) ==> exists|handle: H, answer: Answer<E>|
                {
                    &&& call_ensures(
                        predicate,
                        (old(self).bridges.conditions@[slot(
                            old(self).bridges.conditions@,
                            key,
                        )].state.handle(),),
                        (handle, answer),
                    )
                    &&& #[trigger] fired(old(self)@, key, handle, answer, final(self)@, r)
                },
    {
        let ghost before = self@;
        let ghost observers = self.bridges.conditions@;
        let token = match self.bridges.conditions.observe(key, predicate) {
            Ok(Some(token)) => token,
            Ok(None) => {
                let nothing = Outcome { effects: Vec::new(), fault: None };
                proof {
                    if listening(observers, key) {
                        let (handle, answer) = choose|handle: H, answer: Answer<E>|
                            {
                                &&& call_ensures(
                                    predicate,
                                    (observers[slot(observers, key)].state.handle(),),
                                    (handle, answer),
                                )
                                &&& #[trigger] observed(
                                    observers,
                                    key,
                                    handle,
                                    answer,
                                    self.bridges.conditions@,
                                    Ok::<Option<EndToken>, E>(None),
                                )
                            };
                        assert(fired(before, key, handle, answer, self@, Ok::<Outcome, E>(nothing)))
                            by {
                            assert(answer is Unsatisfied);
                        }
                    }
                }
                return Ok(nothing);
            },
            Err(e) => {
                proof {
                    let (handle, answer) = choose|handle: H, answer: Answer<E>|
                        {
                            &&& call_ensures(
                                predicate,
                                (observers[slot(observers, key)].state.handle(),),
                                (handle, answer),
                            )
                            &&& #[trigger] observed(
                                observers,
                                key,
                                handle,
                                answer,
                                self.bridges.conditions@,
                                Err::<Option<EndToken>, E>(e),
                            )
                        };
                    assert(answer is Failed);
                    assert(fired(before, key, handle, answer, self@, Err::<Outcome, E>(e)));
                }
                return Err(e);
            },
        };
        let ghost (handle, answer) = choose|handle: H, answer: Answer<E>|
            {
                &&& call_ensures(
                    predicate,
                    (observers[slot(observers, key)].state.handle(),),
                    (handle, answer),
                )
                &&& #[trigger] observed(
                    observers,
                    key,
                    handle,
                    answer,
                    self.bridges.conditions@,
                    Ok::<Option<EndToken>, E>(Some(token)),
                )
            };
        proof {
            assert(answer is Satisfied);
        }
        let outcome = self.deliver(token);
        proof {
            assert(fired(before, key, handle, answer, self@, Ok::<Outcome, E>(outcome)));
        }
        Ok(outcome)
    }

    /// Despawns `root` in mid-stream and lets its bridge go of the leaf that
    /// was outstanding. Returns whether there was one.
    ///
    /// The root may be spawned again, so the observers of its conditions
    /// stay installed, parked; [`Cutscene::remove`] takes them away.
    pub fn despawn(&mut self, root: RootId) -> (cancelled: bool)
        requires
            old(self).wf(),
        ensures
            final(self).wf(),
            final(self)@ == old(self)@.despawn(root),
            cancelled == old(self).scheduler@.cancelled(root) is Some,
    {
        proof {
            old(self).scheduler.lemma_wf_view();
        }
        match self.scheduler.despawn(root) {
            Some((leaf, token)) => {
                assert(old(self).scheduler@.roots[root.0 as int].wf());
                let node = self.scheduler.tree(root).node(leaf);
                match &node.kind {
                    Kind::Leaf(payload) => {
                        self.bridges.release(payload, token);
                    },
                    Kind::Sequence => {},
                }
                true
            },
            None => false,
        }
    }

    /// Removes `root` for good and releases all that the bridges hold for
    /// it: the countdown, the token or the listening observer of the leaf
    /// that was outstanding, and the observers of all its conditions, parked
    /// ones among them. Returns the registration data of the observers that
    /// were uninstalled, in playback order.
    ///
    /// A root that is not there, or was removed before, changes nothing.
    pub fn remove(&mut self, root: RootId) -> (handles: Vec<H>)
        requires
            old(self).wf(),
        ensures
            final(self).wf(),
            final(self)@ == old(self)@.remove(root),
            handles@ == old(self)@.removed_handles(root),
    {
        proof {
            old(self).scheduler.lemma_wf_view();
        }
        match self.scheduler.phase(root) {
            None => {
                return Vec::new();
            },
            Some(Phase::Removed) => {
                return Vec::new();
            },
            Some(_) => {},
        }
        let cancelled = self.scheduler.remove(root);
        assert(old(self).scheduler@.roots[root.0 as int].wf());
        match cancelled {
            Some((leaf, token)) => {
                let node = self.scheduler.tree(root).node(leaf);
                match &node.kind {
                    Kind::Leaf(payload) => {
                        self.bridges.release(payload, token);
                    },
                    Kind::Sequence => {},
                }
            },
            None => {},
        }
        assert(self.bridges@ == old(self)@.let_go(root));
        let handles = self.bridges.uninstall(self.scheduler.tree(root));
        handles
    }

    /// The user acknowledges what the textbox shows.
    ///
    /// The next line is shown if one waits. Otherwise the textbox closes,
    /// unless it was asked to stay, and the oldest outstanding dialogue
    /// fragment ends: its token is delivered and the leaf that starts next is
    /// handed to its bridge. Without a textbox this is an error and nothing
    /// changes.
    pub fn interact(&mut self) -> (r: Result<Outcome, DialogueError>)
        requires
            old(self).wf(),
            old(self).scheduler.can_mint(),
        ensures
            final(self).wf(),
            !old(self).bridges.dialogue@.visible ==> {
                &&& r == Err::<Outcome, DialogueError>(DialogueError::NoTextbox)
                &&& final(self)@ == old(self)@
            },
            old(self).bridges.dialogue@.visible ==> {
                &&& final(self)@ == old(self)@.interact()
                &&& r matches Ok(outcome)
                &&& outcome.effects.deep_view() == old(self)@.interact_effects()
                &&& outcome.fault == old(self)@.interact_fault()
            },
    {
        let turn = match self.bridges.dialogue.advance() {
            Ok(turn) => turn,
            Err(e) => {
                return Err(e);
            },
        };
        let ghost between = self@;
        proof {
            assert(between == old(self)@.acknowledged());
        }
        match turn {
            Turn::Line(blurb) => {
                let mut effects: Vec<Effect> = Vec::new();
                effects.push(Effect::Show(blurb));
                proof {
                    assert(effects.deep_view() =~= seq![EffectView::Show(blurb@)]);
                }
                Ok(Outcome { effects, fault: None })
            },
            Turn::Finished { closed, token } => {
                let mut effects: Vec<Effect> = Vec::new();
                if closed {
                    effects.push(Effect::CloseTextbox);
                }
                proof {
                    assert(effects.deep_view() =~= closing_effects(closed));
                }
                let token = match token {
                    Some(token) => token,
                    None => {
                        proof {
                            assert(effects.deep_view() =~= old(self)@.interact_effects());
                        }
                        return Ok(Outcome { effects, fault: None });
                    },
                };
                let ghost head = effects.deep_view();
                let Outcome { effects: mut more, fault } = self.deliver(token);
                let ghost tail = more.deep_view();
                let ghost raw_head = effects@;
                let ghost raw_tail = more@;
                effects.append(&mut more);
                proof {
                    assert(effects@ =~= raw_head + raw_tail);
                    assert(effects.deep_view() =~= head + tail);
                }
                Ok(Outcome { effects, fault })
            },
        }
    }
}

} // verus!
