//! The cursor of one playback root.
//!
//! A playback owns its tree and remembers which fragments have completed.
//! Spawning lays out a pass over the tree; the cursor then rests on one leaf
//! at a time and moves on when that leaf's end token is delivered.

use crate::fragment::{
    well_formed, Fragment, FragmentId, Hook, Kind, KindView, NodeView, Payload, PayloadView,
};
use crate::schedule::{
    consumed, fits, itinerary, left_for_good, lemma_walk_avoids_consumed,
    lemma_walk_fits, lemma_walk_orderly, orderly, plan, unconsumed, Step,
};
use crate::token::{EndToken, TokenMint};
use vstd::prelude::*;

verus! {

/// Where a playback stands.
#[derive(Clone, Copy, Debug, PartialEq, Eq, Structural)]
pub enum Phase {
    /// Not playing, and free to be spawned.
    Idle,
    /// Waiting for the end of `leaf`, which `token` will announce.
    LeafActive { leaf: FragmentId, token: EndToken },
    /// The last pass ran to its end.
    Exhausted,
    /// Removed for good: it is never spawned again.
    Removed,
}

/// A side effect that the host is asked to perform.
#[derive(Clone, Copy, Debug, PartialEq, Eq, Structural)]
pub struct HookCall {
    pub fragment: FragmentId,
    pub hook: Hook,
}

/// The start event of a leaf.
#[derive(Debug)]
pub struct Start {
    pub fragment: FragmentId,
    pub payload: Payload,
    pub token: EndToken,
}

/// A start event, as contracts see it.
pub struct StartView {
    pub fragment: FragmentId,
    pub payload: PayloadView,
    pub token: EndToken,
}

impl View for Start {
    type V = StartView;

    open spec fn view(&self) -> StartView {
        StartView { fragment: self.fragment, payload: self.payload@, token: self.token }
    }
}

impl DeepView for Start {
    type V = StartView;

    open spec fn deep_view(&self) -> StartView {
        self@
    }
}

/// What one move of the cursor asks of the host: side effects to run, in
/// order, and then at most one leaf to start.
#[derive(Debug)]
pub struct Advance {
    pub hooks: Vec<HookCall>,
    pub start: Option<Start>,
}

/// `k` is where the first `Play` of `steps` stands, or their length if they
/// hold none.
pub open spec fn is_first_play(steps: Seq<Step>, k: int) -> bool {
    &&& 0 <= k <= steps.len()
    &&& forall|m: int| 0 <= m < k ==> !(#[trigger] steps[m] is Play)
    &&& (k < steps.len() ==> steps[k] is Play)
}

/// Where the first `Play` of `steps` stands, or their length if they hold
/// none.
pub open spec fn first_play(steps: Seq<Step>) -> int
    decreases steps.len(),
{
    if steps.len() == 0 || steps[0] is Play {
        0
    } else {
        1 + first_play(steps.skip(1))
    }
}

/// The calls that the hooks of fragment `i` amount to.
pub open spec fn calls(i: usize, hooks: Seq<Hook>) -> Seq<HookCall> {
    hooks.map_values(|h: Hook| HookCall { fragment: FragmentId(i), hook: h })
}

/// The side effects of one step: entering runs the start hooks, leaving runs
/// the end hooks.
pub open spec fn step_hooks(nodes: Seq<NodeView>, step: Step) -> Seq<HookCall> {
    match step {
        Step::Enter(i) => calls(i, nodes[i as int].on_start),
        Step::Play(_) => Seq::empty(),
        Step::Exit(i) => calls(i, nodes[i as int].on_end),
    }
}

/// The side effects of `steps`, in order.
pub open spec fn hooks_along(nodes: Seq<NodeView>, steps: Seq<Step>) -> Seq<HookCall>
    decreases steps.len(),
{
    if steps.len() == 0 {
        Seq::empty()
    } else {
        hooks_along(nodes, steps.drop_last()) + step_hooks(nodes, steps.last())
    }
}

/// The completion flags after `steps`: every fragment that was left has
/// completed.
pub open spec fn completed(done: Seq<bool>, steps: Seq<Step>) -> Seq<bool> {
    Seq::new(done.len(), |i: int| done[i] || steps.contains(Step::Exit(i as usize)))
}

/// The payload of a leaf.
pub open spec fn payload_of(node: NodeView) -> PayloadView {
    match node.kind {
        KindView::Leaf(payload) => payload,
        KindView::Sequence => PayloadView::Condition(0),
    }
}

/// The state of a playback, as contracts see it.
#[verifier::ext_equal]
pub struct PlaybackView {
    /// The tree, in playback order.
    pub nodes: Seq<NodeView>,
    /// Which fragments have completed at least once.
    pub done: Seq<bool>,
    /// The steps of the current pass that are still to be taken.
    pub ahead: Seq<Step>,
    pub phase: Phase,
}

impl PlaybackView {
    /// The steps ahead belong to one pass over the tree, none of them
    /// concerns a consumed fragment, and the leaf that is active, if any, is
    /// the one that the next step leaves.
    pub open spec fn wf(self) -> bool {
        &&& well_formed(self.nodes)
        &&& self.done.len() == self.nodes.len()
        &&& fits(self.ahead, self.nodes)
        &&& self.passable(self.ahead)
        &&& (self.phase matches Phase::LeafActive { leaf, .. } ==> {
            &&& leaf.0 < self.nodes.len()
            &&& self.nodes[leaf.0 as int].kind is Leaf
            &&& self.ahead.len() > 0
            &&& self.ahead[0] == Step::Exit(leaf.0)
        })
        &&& (!(self.phase is LeafActive) ==> self.ahead.len() == 0)
    }

    /// Whether `steps` can be taken from here: they are orderly, and they
    /// pass over what is consumed.
    #[verifier::opaque]
    pub open spec fn passable(self, steps: Seq<Step>) -> bool {
        &&& orderly(steps)
        &&& unconsumed(steps, self.nodes, self.done)
    }

    /// No steps can always be taken.
    pub proof fn lemma_nothing_is_passable(self)
        ensures
            self.passable(Seq::empty()),
    {
        reveal(PlaybackView::passable);
    }

    /// The state after taking `steps` up to their first `Play`, which
    /// activates its leaf under `fresh`; with no `Play` among them, all are
    /// taken and the pass is over.
    pub open spec fn settle(self, steps: Seq<Step>, fresh: EndToken) -> PlaybackView {
        let k = first_play(steps);
        PlaybackView {
            nodes: self.nodes,
            done: completed(self.done, steps.take(k)),
            ahead: if k < steps.len() {
                steps.skip(k + 1)
            } else {
                Seq::empty()
            },
            phase: if k < steps.len() {
                Phase::LeafActive { leaf: FragmentId(steps[k].node()), token: fresh }
            } else {
                Phase::Exhausted
            },
        }
    }

    /// The side effects of taking `steps` up to their first `Play`.
    pub open spec fn settle_hooks(self, steps: Seq<Step>) -> Seq<HookCall> {
        hooks_along(self.nodes, steps.take(first_play(steps)))
    }

    /// The start event of the active leaf, if there is one.
    pub open spec fn start(self) -> Option<StartView> {
        match self.phase {
            Phase::LeafActive { leaf, token } => Some(
                StartView { fragment: leaf, payload: payload_of(self.nodes[leaf.0 as int]), token },
            ),
            _ => None,
        }
    }

    /// Whether the playback waits for exactly this token.
    pub open spec fn awaits(self, token: EndToken) -> bool {
        self.phase matches Phase::LeafActive { token: t, .. } && t == token
    }

    /// The leaves whose end is outstanding.
    pub open spec fn outstanding(self) -> Set<FragmentId> {
        match self.phase {
            Phase::LeafActive { leaf, .. } => set![leaf],
            _ => Set::empty(),
        }
    }

    /// Whether a spawn begins a pass: the playback has not been spawned yet,
    /// was stopped, or has run to its end.
    pub open spec fn spawnable(self) -> bool {
        self.phase is Idle || self.phase is Exhausted
    }

    /// The state after a spawn: a playback at rest starts a new pass over
    /// what has not been consumed; one that is playing, or has been removed,
    /// stays as it is.
    pub open spec fn spawn(self, fresh: EndToken) -> PlaybackView {
        if self.spawnable() {
            self.settle(itinerary(self.nodes, self.done), fresh)
        } else {
            self
        }
    }

    /// The side effects of a spawn.
    pub open spec fn spawn_hooks(self) -> Seq<HookCall> {
        if self.spawnable() {
            self.settle_hooks(itinerary(self.nodes, self.done))
        } else {
            Seq::empty()
        }
    }

    /// The start event of a spawn.
    pub open spec fn spawn_start(self, fresh: EndToken) -> Option<StartView> {
        if self.spawnable() {
            self.spawn(fresh).start()
        } else {
            None
        }
    }

    /// The state after `token` was delivered: the pass moves on if the
    /// playback waited for it, and nothing changes otherwise.
    pub open spec fn end(self, token: EndToken, fresh: EndToken) -> PlaybackView {
        if self.awaits(token) {
            self.settle(self.ahead, fresh)
        } else {
            self
        }
    }

    /// The side effects of the delivery of `token`.
    pub open spec fn end_hooks(self, token: EndToken) -> Seq<HookCall> {
        if self.awaits(token) {
            self.settle_hooks(self.ahead)
        } else {
            Seq::empty()
        }
    }

    /// The state after a despawn: the pass is dropped where it stands, and
    /// what has completed stays completed. A playback that was removed stays
    /// removed.
    pub open spec fn despawn(self) -> PlaybackView {
        if self.phase is Removed {
            self
        } else {
            PlaybackView {
                nodes: self.nodes,
                done: self.done,
                ahead: Seq::empty(),
                phase: Phase::Idle,
            }
        }
    }

    /// The state after a removal: the pass is dropped where it stands, and
    /// the playback is never spawned again.
    pub open spec fn remove(self) -> PlaybackView {
        PlaybackView {
            nodes: self.nodes,
            done: self.done,
            ahead: Seq::empty(),
            phase: Phase::Removed,
        }
    }

    /// The leaf and token that are outstanding.
    pub open spec fn cancelled(self) -> Option<(FragmentId, EndToken)> {
        match self.phase {
            Phase::LeafActive { leaf, token } => Some((leaf, token)),
            _ => None,
        }
    }
}

impl Advance {
    /// Asks nothing of the host.
    pub open spec fn is_nothing(&self) -> bool {
        self.hooks@.len() == 0 && self.start is None
    }

    fn nothing() -> (r: Advance)
        ensures
            r.is_nothing(),
    {
        Advance { hooks: Vec::new(), start: None }
    }
}

/// The cursor of one playback root.
#[derive(Debug)]
pub struct Playback {
    tree: Fragment,
    done: Vec<bool>,
    route: Vec<Step>,
    pos: usize,
    phase: Phase,
}

impl View for Playback {
    type V = PlaybackView;

    closed spec fn view(&self) -> PlaybackView {
        PlaybackView {
            nodes: self.tree@,
            done: self.done@,
            ahead: self.route@.skip(self.pos as int),
            phase: self.phase,
        }
    }
}

impl Playback {
    /// The invariant of every playback.
    pub closed spec fn wf(&self) -> bool {
        &&& self@.wf()
        &&& self.pos <= self.route.len()
    }

    /// What [`Playback::wf`] says of the view.
    pub proof fn lemma_wf_view(&self)
        requires
            self.wf(),
        ensures
            self@.wf(),
    {
    }

    /// A playback of `tree` that has not been spawned and has completed
    /// nothing.
    pub fn new(tree: Fragment) -> (p: Playback)
        requires
            tree.wf(),
        ensures
            p.wf(),
            p@.nodes == tree@,
            p@.done == Seq::new(tree@.len(), |i: int| false),
            p@.ahead == Seq::<Step>::empty(),
            p@.phase == Phase::Idle,
    {
        let n = tree.len();
        let mut done: Vec<bool> = Vec::new();
        while done.len() < n
            invariant
                done.len() <= n,
                forall|i: int| 0 <= i < done.len() ==> !done[i],
            decreases n - done.len(),
        {
            done.push(false);
        }
        let p = Playback { tree, done, route: Vec::new(), pos: 0, phase: Phase::Idle };
        proof {
            assert(p@.done =~= Seq::new(tree@.len(), |i: int| false));
            assert(p@.ahead =~= Seq::<Step>::empty());
            p@.lemma_nothing_is_passable();
        }
        p
    }

    /// Where the playback stands.
    pub fn phase(&self) -> (phase: Phase)
        ensures
            phase == self@.phase,
    {
        self.phase
    }

    /// The tree that is played.
    pub fn tree(&self) -> (tree: &Fragment)
        ensures
            tree@ == self@.nodes,
    {
        &self.tree
    }

    /// Whether the fragment has completed at least once.
    pub fn is_done(&self, id: FragmentId) -> (b: bool)
        ensures
            b == (id.0 < self@.done.len() && self@.done[id.0 as int]),
    {
        id.0 < self.done.len() && self.done[id.0]
    }

    /// Number of steps of the current pass that are still to be taken.
    pub fn steps_ahead(&self) -> (n: usize)
        requires
            self.wf(),
        ensures
            n == self@.ahead.len(),
    {
        self.route.len() - self.pos
    }

    fn push_calls(hooks: &mut Vec<HookCall>, i: usize, list: &Vec<Hook>)
        ensures
            final(hooks)@ == old(hooks)@ + calls(i, list@),
    {
        let mut h: usize = 0;
        while h < list.len()
            invariant
                h <= list.len(),
                hooks@ == old(hooks)@ + calls(i, list@.take(h as int)),
            decreases list.len() - h,
        {
            hooks.push(HookCall { fragment: FragmentId(i), hook: list[h] });
            proof {
                assert(list@.take(h + 1) =~= list@.take(h as int).push(list@[h as int]));
                assert(hooks@ =~= old(hooks)@ + calls(i, list@.take(h + 1)));
            }
            h = h + 1;
        }
        proof {
            assert(list@.take(h as int) =~= list@);
        }
    }

    /// Takes the steps ahead up to the first `Play`.
    fn settle(&mut self, mint: &mut TokenMint) -> (r: Advance)
        requires
            well_formed(old(self)@.nodes),
            old(self)@.done.len() == old(self)@.nodes.len(),
            fits(old(self)@.ahead, old(self)@.nodes),
            old(self)@.passable(old(self)@.ahead),
            old(self).pos <= old(self).route.len(),
            !old(mint).exhausted(),
        ensures
            final(self).wf(),
            final(self)@ == old(self)@.settle(old(self)@.ahead, old(mint).upcoming()),
            r.hooks@ == old(self)@.settle_hooks(old(self)@.ahead),
            r.start.deep_view() == final(self)@.start(),
            final(mint).issued() == old(mint).issued() + if r.start is Some {
                1nat
            } else {
                0nat
            },
    {
        let ghost nodes = self@.nodes;
        let ghost done0 = self@.done;
        let ghost ahead = self@.ahead;
        let ghost pos0 = self.pos as int;
        let mut hooks: Vec<HookCall> = Vec::new();
        proof {
            assert(ahead.take(0) =~= Seq::<Step>::empty());
            assert(self.done@ =~= completed(done0, ahead.take(0)));
        }
        while self.pos < self.route.len()
            invariant
                self.tree@ == nodes,
                self.route == old(self).route,
                well_formed(nodes),
                self.done@.len() == nodes.len(),
                ahead == self.route@.skip(pos0),
                fits(ahead, nodes),
                old(self)@.passable(ahead),
                0 <= pos0 <= self.pos <= self.route.len(),
                is_first_play(ahead.take(self.pos - pos0), self.pos - pos0),
                self.done@ == completed(done0, ahead.take(self.pos - pos0)),
                hooks@ == hooks_along(nodes, ahead.take(self.pos - pos0)),
                nodes == old(self)@.nodes,
                done0 == old(self)@.done,
                ahead == old(self)@.ahead,
                *mint == *old(mint),
                !mint.exhausted(),
            decreases self.route.len() - self.pos,
        {
            let ghost k = self.pos - pos0;
            let ghost taken = ahead.take(k);
            let step = self.route[self.pos];
            assert(step == ahead[k]);
            assert(step.node() < nodes.len());
            match step {
                Step::Play(i) => {
                    let token = mint.mint();
                    let payload = match &self.tree.node(FragmentId(i)).kind {
                        Kind::Leaf(payload) => payload.duplicate(),
                        Kind::Sequence => Payload::Condition(0),
                    };
                    self.pos = self.pos + 1;
                    self.phase = Phase::LeafActive { leaf: FragmentId(i), token };
                    proof {
                        assert forall|m: int| 0 <= m < k implies !(#[trigger] ahead[m] is Play) by {
                            assert(taken[m] == ahead[m]);
                        }
                        assert(is_first_play(ahead, k));
                        lemma_first_play(ahead, k);
                        assert(self@.ahead =~= ahead.skip(k + 1));
                        assert(self@ == old(self)@.settle(ahead, old(mint).upcoming()));
                        lemma_settle_keeps_wf(old(self)@, ahead, old(mint).upcoming());
                    }
                    return Advance {
                        hooks,
                        start: Some(Start { fragment: FragmentId(i), payload, token }),
                    };
                },
                Step::Enter(i) => {
                    Playback::push_calls(&mut hooks, i, &self.tree.node(FragmentId(i)).on_start);
                    proof {
                        assert(ahead.take(k + 1) =~= taken.push(step));
                        assert(ahead.take(k + 1).drop_last() =~= taken);
                        assert(self.done@ =~= completed(done0, ahead.take(k + 1))) by {
                            lemma_contains_push(taken, step);
                        }
                    }
                },
                Step::Exit(i) => {
                    Playback::push_calls(&mut hooks, i, &self.tree.node(FragmentId(i)).on_end);
                    self.done.set(i, true);
                    proof {
                        assert(ahead.take(k + 1) =~= taken.push(step));
                        assert(ahead.take(k + 1).drop_last() =~= taken);
                        assert(self.done@ =~= completed(done0, ahead.take(k + 1))) by {
                            lemma_contains_push(taken, step);
                        }
                    }
                },
            }
            self.pos = self.pos + 1;
            proof {
                assert forall|m: int| 0 <= m < k + 1 implies !(#[trigger] ahead.take(k + 1)[m] is Play) by {
                    if m < k {
                        assert(ahead.take(k + 1)[m] == taken[m]);
                    }
                }
            }
        }
        self.phase = Phase::Exhausted;
        proof {
            let k = self.pos - pos0;
            assert(ahead.take(k) =~= ahead);
            lemma_first_play(ahead, k);
            assert(self@.ahead =~= Seq::<Step>::empty());
            assert(self@ == old(self)@.settle(ahead, old(mint).upcoming()));
            lemma_settle_keeps_wf(old(self)@, ahead, old(mint).upcoming());
        }
        Advance { hooks, start: None }
    }

    /// Begins a pass over the tree, unless one is under way.
    ///
    /// The pass takes in every fragment that has not been consumed, runs the
    /// hooks of what it enters and leaves on the way, and comes to rest on
    /// the first leaf it meets, for which it mints a token. Where it meets no
    /// leaf it runs to its end at once.
    pub fn spawn(&mut self, mint: &mut TokenMint) -> (r: Advance)
        requires
            old(self).wf(),
            !old(mint).exhausted(),
        ensures
            final(self).wf(),
            final(self)@ == old(self)@.spawn(old(mint).upcoming()),
            r.hooks@ == old(self)@.spawn_hooks(),
            r.start.deep_view() == old(self)@.spawn_start(old(mint).upcoming()),
            final(mint).issued() == old(mint).issued() + if r.start is Some {
                1nat
            } else {
                0nat
            },
    {
        match self.phase {
            Phase::Idle | Phase::Exhausted => {},
            _ => {
                return Advance::nothing();
            },
        }
        self.route = plan(&self.tree, &self.done);
        self.pos = 0;
        proof {
            assert(self@.ahead =~= itinerary(self@.nodes, self@.done));
            lemma_walk_orderly(self@.nodes, self@.done, 0);
            lemma_walk_avoids_consumed(self@.nodes, self@.done, 0);
            reveal(PlaybackView::passable);
        }
        self.settle(mint)
    }

    /// Delivers an end token.
    ///
    /// If the playback waits for this very token, the active leaf completes
    /// and the pass moves on to the next leaf or to its end. Any other token
    /// is ignored.
    pub fn on_end_event(&mut self, token: EndToken, mint: &mut TokenMint) -> (r: Advance)
        requires
            old(self).wf(),
            !old(mint).exhausted(),
        ensures
            final(self).wf(),
            final(self)@ == old(self)@.end(token, old(mint).upcoming()),
            r.hooks@ == old(self)@.end_hooks(token),
            r.start.deep_view() == if old(self)@.awaits(token) {
                final(self)@.start()
            } else {
                None
            },
            final(mint).issued() == old(mint).issued() + if r.start is Some {
                1nat
            } else {
                0nat
            },
    {
        match self.phase {
            Phase::LeafActive { leaf: _, token: awaited } => {
                if awaited == token {
                    self.settle(mint)
                } else {
                    Advance::nothing()
                }
            },
            _ => Advance::nothing(),
        }
    }

    /// Drops the pass where it stands and returns the leaf and token that
    /// were outstanding, so that their bridge can let go of them.
    pub fn despawn(&mut self) -> (cancelled: Option<(FragmentId, EndToken)>)
        requires
            old(self).wf(),
        ensures
            final(self).wf(),
            final(self)@ == old(self)@.despawn(),
            cancelled == old(self)@.cancelled(),
    {
        let cancelled = match self.phase {
            Phase::LeafActive { leaf, token } => Some((leaf, token)),
            _ => None,
        };
        if let Phase::Removed = self.phase {
            return None;
        }
        self.pos = self.route.len();
        self.phase = Phase::Idle;
        proof {
            assert(self@.ahead =~= Seq::<Step>::empty());
            self@.lemma_nothing_is_passable();
        }
        cancelled
    }

    /// Removes the playback for good and returns the leaf and token that
    /// were outstanding, so that their bridge can let go of them. A removed
    /// playback ignores spawns and tokens alike.
    pub fn remove(&mut self) -> (cancelled: Option<(FragmentId, EndToken)>)
        requires
            old(self).wf(),
        ensures
            final(self).wf(),
            final(self)@ == old(self)@.remove(),
            cancelled == old(self)@.cancelled(),
    {
        let cancelled = match self.phase {
            Phase::LeafActive { leaf, token } => Some((leaf, token)),
            _ => None,
        };
        self.pos = self.route.len();
        self.phase = Phase::Removed;
        proof {
            assert(self@.ahead =~= Seq::<Step>::empty());
            self@.lemma_nothing_is_passable();
        }
        cancelled
    }
}

/// The position that [`is_first_play`] describes is the one that
/// [`first_play`] computes.
pub proof fn lemma_first_play(steps: Seq<Step>, k: int)
    requires
        is_first_play(steps, k),
    ensures
        first_play(steps) == k,
    decreases k,
{
    if k > 0 {
        assert(!(steps[0] is Play));
        let rest = steps.skip(1);
        assert forall|m: int| 0 <= m < k - 1 implies !(#[trigger] rest[m] is Play) by {
            assert(rest[m] == steps[m + 1]);
        }
        lemma_first_play(rest, k - 1);
    }
}

/// [`first_play`] computes the position that [`is_first_play`] describes.
pub proof fn lemma_first_play_is_first(steps: Seq<Step>)
    ensures
        is_first_play(steps, first_play(steps)),
    decreases steps.len(),
{
    if steps.len() == 0 || steps[0] is Play {
    } else {
        let rest = steps.skip(1);
        lemma_first_play_is_first(rest);
        let k = first_play(rest);
        assert forall|m: int| 0 <= m < k + 1 implies !(#[trigger] steps[m] is Play) by {
            if m > 0 {
                assert(steps[m] == rest[m - 1]);
            }
        }
        if k + 1 < steps.len() {
            assert(steps[k + 1] == rest[k]);
        }
    }
}

/// What follows a position in steps that fit the tree fits the tree.
proof fn lemma_rest_fits(steps: Seq<Step>, nodes: Seq<NodeView>, from: int)
    requires
        fits(steps, nodes),
        0 <= from <= steps.len(),
    ensures
        fits(steps.skip(from), nodes),
{
    let rest = steps.skip(from);
    assert forall|m: int| 0 <= m < rest.len() implies {
        &&& (#[trigger] rest[m]).node() < nodes.len()
        &&& (rest[m] is Play ==> nodes[rest[m].node() as int].kind is Leaf)
    } by {
        assert(rest[m] == steps[m + from]);
    }
}

/// What follows a position in orderly steps is orderly.
proof fn lemma_rest_orderly(steps: Seq<Step>, from: int)
    requires
        orderly(steps),
        0 <= from <= steps.len(),
    ensures
        orderly(steps.skip(from)),
{
    let rest = steps.skip(from);
    assert forall|a: int| 0 <= a < rest.len() && (#[trigger] rest[a]) is Play implies a + 1
        < rest.len() && rest[a + 1] == Step::Exit(rest[a].node()) by {
        assert(rest[a] == steps[a + from]);
        assert(steps[a + from] is Play);
        assert(rest[a + 1] == steps[a + from + 1]);
    }
    assert forall|a: int, b: int| 0 <= a < b < rest.len() implies #[trigger] left_for_good(
        rest,
        a,
        b,
    ) by {
        assert(rest[a] == steps[a + from]);
        assert(rest[b] == steps[b + from]);
        assert(left_for_good(steps, a + from, b + from));
    }
}

/// What follows the steps taken does not concern a fragment that they
/// completed.
proof fn lemma_rest_fresh(steps: Seq<Step>, nodes: Seq<NodeView>, done: Seq<bool>, k: int)
    requires
        fits(steps, nodes),
        orderly(steps),
        unconsumed(steps, nodes, done),
        done.len() == nodes.len(),
        0 <= k < steps.len(),
    ensures
        unconsumed(steps.skip(k + 1), nodes, completed(done, steps.take(k))),
{
    let rest = steps.skip(k + 1);
    let taken = steps.take(k);
    let after = completed(done, taken);
    assert forall|m: int| 0 <= m < rest.len() implies !consumed(
        nodes,
        after,
        (#[trigger] rest[m]).node() as int,
    ) by {
        let j = rest[m].node();
        assert(rest[m] == steps[m + k + 1]);
        assert(!consumed(nodes, done, steps[m + k + 1].node() as int));
        if taken.contains(Step::Exit(j)) {
            let a = choose|a: int| 0 <= a < taken.len() && taken[a] == Step::Exit(j);
            assert(steps[a] == Step::Exit(j));
            assert(left_for_good(steps, a, m + k + 1));
        }
    }
}

/// Taking steps that can be taken leaves a playback well formed.
pub proof fn lemma_settle_keeps_wf(v: PlaybackView, steps: Seq<Step>, token: EndToken)
    requires
        well_formed(v.nodes),
        v.done.len() == v.nodes.len(),
        fits(steps, v.nodes),
        v.passable(steps),
    ensures
        v.settle(steps, token).wf(),
{
    reveal(PlaybackView::passable);
    lemma_first_play_is_first(steps);
    let k = first_play(steps);
    let after = v.settle(steps, token);
    if k < steps.len() {
        assert(steps[k] is Play);
        assert(steps[k].node() < v.nodes.len());
        assert(k + 1 < steps.len() && steps[k + 1] == Step::Exit(steps[k].node()));
        assert(after.ahead[0] == steps[k + 1]);
        lemma_rest_fits(steps, v.nodes, k + 1);
        lemma_rest_orderly(steps, k + 1);
        lemma_rest_fresh(steps, v.nodes, v.done, k);
    } else {
        after.lemma_nothing_is_passable();
    }
}

/// What has completed stays completed.
pub proof fn lemma_done_stays_done(v: PlaybackView, steps: Seq<Step>, token: EndToken, i: int)
    requires
        0 <= i < v.done.len(),
        v.done[i],
    ensures
        v.settle(steps, token).done[i],
{
}

/// A leaf whose end token is delivered has completed.
pub proof fn lemma_ended_leaf_is_done(v: PlaybackView, token: EndToken, next: EndToken)
    requires
        v.wf(),
        v.awaits(token),
    ensures
        v.end(token, next).done[v.phase->leaf.0 as int],
{
    let leaf = v.phase->leaf;
    lemma_first_play_is_first(v.ahead);
    let k = first_play(v.ahead);
    assert(k >= 1) by {
        if k == 0 {
            assert(v.ahead[0] is Play);
        }
    }
    assert(v.ahead.take(k)[0] == Step::Exit(leaf.0));
}

/// The leaf that a spawn or a delivery starts is never a consumed one.
pub proof fn lemma_started_leaf_is_not_consumed(v: PlaybackView, steps: Seq<Step>, token: EndToken)
    requires
        v.passable(steps),
        fits(steps, v.nodes),
    ensures
        v.settle(steps, token).start() matches Some(start) ==> !consumed(
            v.nodes,
            v.done,
            start.fragment.0 as int,
        ),
{
    reveal(PlaybackView::passable);
    lemma_first_play_is_first(steps);
}

/// A spawn leaves a playback well formed.
pub proof fn lemma_spawn_keeps_wf(v: PlaybackView, fresh: EndToken)
    requires
        v.wf(),
    ensures
        v.spawn(fresh).wf(),
{
    lemma_walk_fits(v.nodes, v.done, 0);
    lemma_walk_orderly(v.nodes, v.done, 0);
    lemma_walk_avoids_consumed(v.nodes, v.done, 0);
    reveal(PlaybackView::passable);
    lemma_settle_keeps_wf(v, itinerary(v.nodes, v.done), fresh);
}

/// The delivery of a token leaves a playback well formed.
pub proof fn lemma_end_keeps_wf(v: PlaybackView, token: EndToken, fresh: EndToken)
    requires
        v.wf(),
    ensures
        v.end(token, fresh).wf(),
{
    lemma_settle_keeps_wf(v, v.ahead, fresh);
}

/// Something that happens to a playback.
pub enum PlaybackOp {
    /// The root is spawned; `fresh` is the token at hand.
    Spawn { fresh: EndToken },
    /// `token` is delivered; `fresh` is the token at hand.
    End { token: EndToken, fresh: EndToken },
    /// The root is despawned.
    Despawn,
    /// The root is removed for good.
    Remove,
}

impl PlaybackView {
    /// The state after `op`.
    pub open spec fn apply(self, op: PlaybackOp) -> PlaybackView {
        match op {
            PlaybackOp::Spawn { fresh } => self.spawn(fresh),
            PlaybackOp::End { token, fresh } => self.end(token, fresh),
            PlaybackOp::Despawn => self.despawn(),
            PlaybackOp::Remove => self.remove(),
        }
    }

    /// The start event that `op` brings about, if it activates a leaf.
    pub open spec fn activation(self, op: PlaybackOp) -> Option<StartView> {
        match op {
            PlaybackOp::Spawn { fresh } => self.spawn_start(fresh),
            PlaybackOp::End { token, fresh } => if self.awaits(token) {
                self.end(token, fresh).start()
            } else {
                None
            },
            PlaybackOp::Despawn => None,
            PlaybackOp::Remove => None,
        }
    }

    /// The state after `ops`, one after the other.
    pub open spec fn run(self, ops: Seq<PlaybackOp>) -> PlaybackView
        decreases ops.len(),
    {
        if ops.len() == 0 {
            self
        } else {
            self.run(ops.drop_last()).apply(ops.last())
        }
    }
}

/// Whatever happens to a playback leaves it well formed, leaves the tree as
/// it is, and leaves completed what has completed.
pub proof fn lemma_apply_keeps_wf(v: PlaybackView, op: PlaybackOp)
    requires
        v.wf(),
    ensures
        v.apply(op).wf(),
        v.apply(op).nodes == v.nodes,
        forall|i: int| 0 <= i < v.done.len() && v.done[i] ==> #[trigger] v.apply(op).done[i],
{
    match op {
        PlaybackOp::Spawn { fresh } => {
            lemma_spawn_keeps_wf(v, fresh);
        },
        PlaybackOp::End { token, fresh } => {
            lemma_end_keeps_wf(v, token, fresh);
        },
        PlaybackOp::Despawn => {
            if !(v.phase is Removed) {
                v.apply(op).lemma_nothing_is_passable();
            }
        },
        PlaybackOp::Remove => {
            v.apply(op).lemma_nothing_is_passable();
        },
    }
}

/// The leaf that an operation starts is not a consumed one.
pub proof fn lemma_activation_is_not_consumed(v: PlaybackView, op: PlaybackOp)
    requires
        v.wf(),
    ensures
        v.activation(op) matches Some(start) ==> !consumed(v.nodes, v.done, start.fragment.0 as int),
{
    match op {
        PlaybackOp::Spawn { fresh } => {
            lemma_walk_fits(v.nodes, v.done, 0);
            lemma_walk_orderly(v.nodes, v.done, 0);
            lemma_walk_avoids_consumed(v.nodes, v.done, 0);
            reveal(PlaybackView::passable);
            lemma_started_leaf_is_not_consumed(v, itinerary(v.nodes, v.done), fresh);
        },
        PlaybackOp::End { token, fresh } => {
            lemma_started_leaf_is_not_consumed(v, v.ahead, fresh);
        },
        PlaybackOp::Despawn => {},
        PlaybackOp::Remove => {},
    }
}

/// A fragment that plays once and has completed never starts again, whatever
/// is spawned, delivered, despawned or removed from then on.
pub proof fn lemma_consumed_fragment_never_starts(v: PlaybackView, ops: Seq<PlaybackOp>, i: int)
    requires
        v.wf(),
        0 <= i < v.nodes.len(),
        consumed(v.nodes, v.done, i),
    ensures
        v.run(ops).wf(),
        v.run(ops).nodes == v.nodes,
        consumed(v.nodes, v.run(ops).done, i),
        forall|k: int|
            0 <= k < ops.len() ==> (#[trigger] v.run(ops.take(k)).activation(ops[k]) matches Some(
                start,
            ) ==> start.fragment.0 != i),
    decreases ops.len(),
{
    if ops.len() > 0 {
        let head = ops.drop_last();
        lemma_consumed_fragment_never_starts(v, head, i);
        let before = v.run(head);
        lemma_apply_keeps_wf(before, ops.last());
        lemma_activation_is_not_consumed(before, ops.last());
        assert(before.apply(ops.last()).done[i]);
        assert forall|k: int| 0 <= k < ops.len() implies (#[trigger] v.run(ops.take(k)).activation(
            ops[k],
        ) matches Some(start) ==> start.fragment.0 != i) by {
            if k < head.len() {
                assert(ops.take(k) =~= head.take(k));
                assert(ops[k] == head[k]);
            } else {
                assert(ops.take(k) =~= head);
            }
        }
    }
}

/// A playback that was removed stays removed: no spawn begins a pass, no
/// token moves it, and nothing is asked of the host.
pub proof fn lemma_removed_stays_removed(v: PlaybackView, op: PlaybackOp)
    requires
        v.phase is Removed,
    ensures
        v.apply(op).phase is Removed,
        v.apply(op).done == v.done,
        v.activation(op) is None,
        v.spawn_hooks() == Seq::<HookCall>::empty(),
        forall|token: EndToken| #[trigger] v.end_hooks(token) == Seq::<HookCall>::empty(),
{
}

/// At every moment a playback waits for the end of at most one leaf.
pub proof fn lemma_at_most_one_leaf_outstanding(v: PlaybackView)
    ensures
        v.outstanding().finite(),
        v.outstanding().len() <= 1,
        v.outstanding().len() == 1 <==> v.phase is LeafActive,
{
    match v.phase {
        Phase::LeafActive { leaf, .. } => {
            assert(v.outstanding() =~= Set::empty().insert(leaf));
        },
        _ => {},
    }
}

/// Spawning a tree whose root plays once and has completed does nothing: no
/// hook runs, no leaf starts, and what has completed stays as it is.
pub proof fn lemma_consumed_root_does_not_replay(v: PlaybackView, fresh: EndToken)
    requires
        v.wf(),
        v.spawnable(),
        consumed(v.nodes, v.done, 0),
    ensures
        v.spawn(fresh).done == v.done,
        v.spawn(fresh).phase == Phase::Exhausted,
        v.spawn(fresh).start() is None,
        v.spawn_hooks() == Seq::<HookCall>::empty(),
{
    let steps = itinerary(v.nodes, v.done);
    assert(steps =~= Seq::<Step>::empty());
    assert(steps.take(0) =~= Seq::<Step>::empty());
    assert(v.spawn(fresh).done =~= v.done);
}

/// Spawning a tree that is a single leaf which plays always starts that leaf,
/// however often it has completed before.
pub proof fn lemma_always_leaf_replays_on_spawn(v: PlaybackView, fresh: EndToken)
    requires
        v.wf(),
        v.spawnable(),
        v.nodes[0].kind is Leaf,
        v.nodes[0].policy == crate::fragment::Policy::Always,
    ensures
        v.spawn(fresh).phase == (Phase::LeafActive { leaf: FragmentId(0), token: fresh }),
        v.spawn(fresh).done == v.done,
{
    let steps = itinerary(v.nodes, v.done);
    crate::schedule::lemma_always_leaf_replays(v.nodes, v.done, 0);
    assert(steps[0] == Step::Enter(0));
    assert(steps[1] == Step::Play(0));
    assert(is_first_play(steps, 1));
    lemma_first_play(steps, 1);
    assert(steps.take(1) =~= seq![Step::Enter(0)]);
    assert(v.spawn(fresh).done =~= v.done) by {
        assert forall|s: Step| s is Exit implies !(#[trigger] steps.take(1).contains(s)) by {
            if steps.take(1).contains(s) {
                let m = choose|m: int| 0 <= m < steps.take(1).len() && steps.take(1)[m] == s;
                assert(m == 0);
            }
        }
    }
}

proof fn lemma_contains_push(steps: Seq<Step>, last: Step)
    ensures
        forall|s: Step| #[trigger] steps.push(last).contains(s) <==> steps.contains(s) || s == last,
{
    let pushed = steps.push(last);
    assert forall|s: Step| #[trigger] pushed.contains(s) <==> steps.contains(s) || s == last by {
        if steps.contains(s) {
            let m = choose|m: int| 0 <= m < steps.len() && steps[m] == s;
            assert(pushed[m] == s);
        }
        if s == last {
            assert(pushed[steps.len() as int] == s);
        }
    }
}

} // verus!
