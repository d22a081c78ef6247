//! The scheduler: every playback root, and the one mint that serves them.

use crate::fragment::{well_formed, with_end_hook, Fragment, FragmentId, Hook, NodeView};
use crate::playback::{
    lemma_end_keeps_wf, lemma_spawn_keeps_wf, Advance, HookCall, Phase, Playback, PlaybackView,
    StartView,
};
use crate::token::{minted, EndToken, TokenMint};
use vstd::prelude::*;

verus! {

/// Handle of a playback root.
#[derive(Clone, Copy, Debug, PartialEq, Eq, Structural, Hash)]
pub struct RootId(pub usize);

/// The state of a scheduler, as contracts see it.
#[verifier::ext_equal]
pub struct SchedulerView {
    /// Number of tokens minted so far.
    pub issued: nat,
    /// The playback roots, by handle.
    pub roots: Seq<PlaybackView>,
}

impl SchedulerView {
    /// Every root is well formed, every outstanding token has been minted,
    /// and no two roots wait for the same token.
    pub open spec fn wf(self) -> bool {
        &&& self.issued <= u64::MAX
        &&& forall|r: int| 0 <= r < self.roots.len() ==> (#[trigger] self.roots[r]).wf()
        &&& forall|r: int|
            0 <= r < self.roots.len() ==> (#[trigger] self.roots[r].phase matches Phase::LeafActive {
                token,
                ..
            } ==> token.serial < self.issued)
        &&& forall|r: int, q: int|
            0 <= r < self.roots.len() && 0 <= q < self.roots.len() && r != q ==> !(
            #[trigger] self.roots[r].phase is LeafActive && #[trigger] self.roots[q].phase
                is LeafActive && self.roots[r].phase->token == self.roots[q].phase->token)
    }

    /// The token that the next activation gets.
    pub open spec fn fresh(self) -> EndToken {
        EndToken { serial: self.issued as u64 }
    }

    /// Whether `root` is the handle of a root.
    pub open spec fn has(self, root: RootId) -> bool {
        root.0 < self.roots.len()
    }

    /// Whether some root waits for `token`.
    pub open spec fn awaited(self, token: EndToken) -> bool {
        exists|r: int| 0 <= r < self.roots.len() && (#[trigger] self.roots[r]).awaits(token)
    }

    /// The root that waits for `token`.
    pub open spec fn holder(self, token: EndToken) -> int {
        choose|r: int| 0 <= r < self.roots.len() && (#[trigger] self.roots[r]).awaits(token)
    }

    /// The scheduler with root `r` replaced by `after`, and one more token
    /// minted if `after` rests on a leaf that `before` did not.
    pub open spec fn step(self, r: int, after: PlaybackView) -> SchedulerView {
        SchedulerView {
            issued: if after.phase != self.roots[r].phase && after.phase is LeafActive {
                self.issued + 1
            } else {
                self.issued
            },
            roots: self.roots.update(r, after),
        }
    }

    /// The state after a new root was added for `nodes`.
    pub open spec fn add(self, nodes: Seq<NodeView>) -> SchedulerView {
        SchedulerView {
            issued: self.issued,
            roots: self.roots.push(
                PlaybackView {
                    nodes,
                    done: Seq::new(nodes.len(), |i: int| false),
                    ahead: Seq::empty(),
                    phase: Phase::Idle,
                },
            ),
        }
    }

    /// The state after `root` was spawned.
    pub open spec fn spawn(self, root: RootId) -> SchedulerView {
        if self.has(root) {
            self.step(root.0 as int, self.roots[root.0 as int].spawn(self.fresh()))
        } else {
            self
        }
    }

    /// The side effects of spawning `root`.
    pub open spec fn spawn_hooks(self, root: RootId) -> Seq<HookCall> {
        if self.has(root) {
            self.roots[root.0 as int].spawn_hooks()
        } else {
            Seq::empty()
        }
    }

    /// The start event of spawning `root`.
    pub open spec fn spawn_start(self, root: RootId) -> Option<StartView> {
        if self.has(root) {
            self.roots[root.0 as int].spawn_start(self.fresh())
        } else {
            None
        }
    }

    /// The state after `token` was delivered: the root that waited for it
    /// moves on; if none did, nothing changes.
    pub open spec fn end(self, token: EndToken) -> SchedulerView {
        if self.awaited(token) {
            let r = self.holder(token);
            self.step(r, self.roots[r].end(token, self.fresh()))
        } else {
            self
        }
    }

    /// The side effects of the delivery of `token`.
    pub open spec fn end_hooks(self, token: EndToken) -> Seq<HookCall> {
        if self.awaited(token) {
            self.roots[self.holder(token)].end_hooks(token)
        } else {
            Seq::empty()
        }
    }

    /// The start event that follows the delivery of `token`.
    pub open spec fn end_start(self, token: EndToken) -> Option<StartView> {
        if self.awaited(token) {
            let r = self.holder(token);
            self.roots[r].end(token, self.fresh()).start()
        } else {
            None
        }
    }

    /// The state after `root` was despawned.
    pub open spec fn despawn(self, root: RootId) -> SchedulerView {
        if self.has(root) {
            SchedulerView {
                issued: self.issued,
                roots: self.roots.update(root.0 as int, self.roots[root.0 as int].despawn()),
            }
        } else {
            self
        }
    }

    /// The state after `root` was removed for good.
    pub open spec fn remove(self, root: RootId) -> SchedulerView {
        if self.has(root) {
            SchedulerView {
                issued: self.issued,
                roots: self.roots.update(root.0 as int, self.roots[root.0 as int].remove()),
            }
        } else {
            self
        }
    }

    /// The leaf and token of `root` that are outstanding.
    pub open spec fn cancelled(self, root: RootId) -> Option<(FragmentId, EndToken)> {
        if self.has(root) {
            self.roots[root.0 as int].cancelled()
        } else {
            None
        }
    }
}

/// Walks any number of fragment trees, each at most one leaf at a time.
#[derive(Debug)]
pub struct Scheduler {
    mint: TokenMint,
    roots: Vec<Playback>,
}

impl View for Scheduler {
    type V = SchedulerView;

    closed spec fn view(&self) -> SchedulerView {
        SchedulerView {
            issued: self.mint.issued(),
            roots: Seq::new(self.roots@.len(), |r: int| self.roots@[r]@),
        }
    }
}

impl Scheduler {
    /// The invariant of every scheduler.
    pub closed spec fn wf(&self) -> bool {
        &&& self@.wf()
        &&& forall|r: int| 0 <= r < self.roots@.len() ==> (#[trigger] self.roots@[r]).wf()
    }

    /// What [`Scheduler::wf`] says of the view.
    pub proof fn lemma_wf_view(&self)
        requires
            self.wf(),
        ensures
            self@.wf(),
    {
    }

    /// Whether the mint can serve one more activation.
    pub open spec fn can_mint(&self) -> bool {
        self@.issued < u64::MAX
    }

    /// A scheduler without roots that has minted nothing.
    pub fn new() -> (s: Scheduler)
        ensures
            s.wf(),
            s@.issued == 0,
            s@.roots == Seq::<PlaybackView>::empty(),
    {
        let s = Scheduler { mint: TokenMint::new(), roots: Vec::new() };
        proof {
            assert(s@.roots =~= Seq::<PlaybackView>::empty());
        }
        s
    }

    /// Whether the mint has a token left for the next activation.
    pub fn has_tokens(&self) -> (b: bool)
        ensures
            b == self.can_mint(),
    {
        !self.mint.is_exhausted()
    }

    /// Number of tokens minted so far.
    pub fn issued(&self) -> (n: u64)
        ensures
            n == self@.issued,
    {
        self.mint.count()
    }

    /// Number of roots.
    pub fn roots(&self) -> (n: usize)
        ensures
            n == self@.roots.len(),
    {
        self.roots.len()
    }

    /// Where `root` stands, if there is such a root.
    pub fn phase(&self, root: RootId) -> (phase: Option<Phase>)
        ensures
            phase == if self@.has(root) {
                Some(self@.roots[root.0 as int].phase)
            } else {
                None
            },
    {
        if root.0 < self.roots.len() {
            Some(self.roots[root.0].phase())
        } else {
            None
        }
    }

    /// Whether `fragment` of `root` has completed at least once.
    pub fn is_done(&self, root: RootId, fragment: FragmentId) -> (b: bool)
        ensures
            b == (self@.has(root) && fragment.0 < self@.roots[root.0 as int].done.len()
                && self@.roots[root.0 as int].done[fragment.0 as int]),
    {
        root.0 < self.roots.len() && self.roots[root.0].is_done(fragment)
    }

    /// The tree of `root`.
    pub fn tree(&self, root: RootId) -> (tree: &Fragment)
        requires
            self@.has(root),
        ensures
            tree@ == self@.roots[root.0 as int].nodes,
    {
        self.roots[root.0].tree()
    }

    /// Adds a root for `tree` without spawning it.
    pub fn add(&mut self, tree: Fragment) -> (root: RootId)
        requires
            old(self).wf(),
            tree.wf(),
        ensures
            final(self).wf(),
            root.0 == old(self)@.roots.len(),
            final(self)@ == old(self)@.add(tree@),
    {
        let root = RootId(self.roots.len());
        let playback = Playback::new(tree);
        proof {
            playback.lemma_wf_view();
        }
        self.roots.push(playback);
        proof {
            assert(self@.roots =~= old(self)@.add(tree@).roots);
        }
        root
    }

    /// Begins a pass over `root`, unless one is under way or there is no
    /// such root.
    pub fn spawn(&mut self, root: RootId) -> (r: Advance)
        requires
            old(self).wf(),
            old(self).can_mint(),
        ensures
            final(self).wf(),
            final(self)@ == old(self)@.spawn(root),
            r.hooks@ == old(self)@.spawn_hooks(root),
            r.start.deep_view() == old(self)@.spawn_start(root),
    {
        if root.0 >= self.roots.len() {
            return Advance { hooks: Vec::new(), start: None };
        }
        let ghost before = self@;
        let ghost r0 = root.0 as int;
        proof {
            assert(self.roots@[r0].wf());
            assert(self@.roots[r0] == self.roots@[r0]@);
        }
        let r = self.roots[root.0].spawn(&mut self.mint);
        proof {
            self.roots@[r0].lemma_wf_view();
            let after = before.roots[r0].spawn(before.fresh());
            assert(self.roots@[r0]@ == after);
            assert(self@.roots =~= before.roots.update(r0, after));
            assert(self@ == before.step(r0, after));
            lemma_step_keeps_wf(before, r0, after);
        }
        r
    }

    /// Adds a root for `tree` with a hook that closes the textbox when the
    /// tree ends, and spawns it.
    pub fn spawn_box(&mut self, tree: Fragment) -> (r: (RootId, Advance))
        requires
            old(self).wf(),
            old(self).can_mint(),
            tree.wf(),
        ensures
            final(self).wf(),
            r.0.0 == old(self)@.roots.len(),
            final(self)@ == old(self)@.add(boxed(tree@)).spawn(r.0),
            r.1.hooks@ == old(self)@.add(boxed(tree@)).spawn_hooks(r.0),
            r.1.start.deep_view() == old(self)@.add(boxed(tree@)).spawn_start(r.0),
    {
        let root = self.add(tree.on_end(Hook::CloseTextbox));
        let advance = self.spawn(root);
        (root, advance)
    }

    /// Delivers an end token to whichever root waits for it.
    ///
    /// The root's active leaf completes and its pass moves on. A token that
    /// no root waits for, be it stale, repeated or unknown, changes nothing.
    pub fn on_end_event(&mut self, token: EndToken) -> (r: Advance)
        requires
            old(self).wf(),
            old(self).can_mint(),
        ensures
            final(self).wf(),
            final(self)@ == old(self)@.end(token),
            r.hooks@ == old(self)@.end_hooks(token),
            r.start.deep_view() == old(self)@.end_start(token),
    {
        let ghost before = self@;
        let mut index: usize = 0;
        while index < self.roots.len()
            invariant
                *self == *old(self),
                self.wf(),
                self.can_mint(),
                before == self@,
                index <= self.roots.len(),
                forall|r: int| 0 <= r < index ==> !(#[trigger] before.roots[r]).awaits(token),
            decreases self.roots.len() - index,
        {
            let waits = match self.roots[index].phase() {
                Phase::LeafActive { leaf: _, token: awaited } => awaited == token,
                _ => false,
            };
            if waits {
                let ghost r0 = index as int;
                proof {
                    assert(self.roots@[r0].wf());
                    assert(before.roots[r0] == self.roots@[r0]@);
                    assert(before.roots[r0].awaits(token));
                    assert(before.awaited(token));
                    let h = before.holder(token);
                    assert(h == r0) by {
                        if h != r0 {
                            assert(before.roots[h].phase is LeafActive);
                            assert(before.roots[r0].phase is LeafActive);
                        }
                    }
                }
                let r = self.roots[index].on_end_event(token, &mut self.mint);
                proof {
                    self.roots@[r0].lemma_wf_view();
                    let after = before.roots[r0].end(token, before.fresh());
                    assert(self.roots@[r0]@ == after);
                    assert(self@.roots =~= before.roots.update(r0, after));
                    assert(after.phase != before.roots[r0].phase) by {
                        assert(before.roots[r0].phase->token.serial < before.issued);
                    }
                    assert(self@ == before.step(r0, after));
                    lemma_step_keeps_wf(before, r0, after);
                }
                return r;
            }
            index = index + 1;
        }
        proof {
            assert(!before.awaited(token));
        }
        Advance { hooks: Vec::new(), start: None }
    }

    /// Stops the playback of `root` where it stands.
    ///
    /// The leaf and token that were outstanding are returned, so that the
    /// bridge that holds them can let go; what has completed stays completed,
    /// and the root may be spawned again.
    pub fn despawn(&mut self, root: RootId) -> (cancelled: Option<(FragmentId, EndToken)>)
        requires
            old(self).wf(),
        ensures
            final(self).wf(),
            final(self)@ == old(self)@.despawn(root),
            cancelled == old(self)@.cancelled(root),
    {
        if root.0 >= self.roots.len() {
            return None;
        }
        let ghost before = self@;
        let ghost r0 = root.0 as int;
        proof {
            assert(self.roots@[r0].wf());
            assert(before.roots[r0] == self.roots@[r0]@);
        }
        let cancelled = self.roots[root.0].despawn();
        proof {
            self.roots@[r0].lemma_wf_view();
            let after = before.roots[r0].despawn();
            assert(self@.roots =~= before.roots.update(r0, after));
            assert(self@ == before.despawn(root));
            lemma_replace_keeps_wf(before, r0, after, before.issued);
        }
        cancelled
    }

    /// Removes `root` for good.
    ///
    /// The leaf and token that were outstanding are returned, so that the
    /// bridge that holds them can let go. The root keeps its handle, and
    /// the handles of the other roots stay what they were, but it is never
    /// spawned again and no token moves it.
    pub fn remove(&mut self, root: RootId) -> (cancelled: Option<(FragmentId, EndToken)>)
        requires
            old(self).wf(),
        ensures
            final(self).wf(),
            final(self)@ == old(self)@.remove(root),
            cancelled == old(self)@.cancelled(root),
    {
        if root.0 >= self.roots.len() {
            return None;
        }
        let ghost before = self@;
        let ghost r0 = root.0 as int;
        proof {
            assert(self.roots@[r0].wf());
            assert(before.roots[r0] == self.roots@[r0]@);
        }
        let cancelled = self.roots[root.0].remove();
        proof {
            self.roots@[r0].lemma_wf_view();
            let after = before.roots[r0].remove();
            assert(self@.roots =~= before.roots.update(r0, after));
            assert(self@ == before.remove(root));
            lemma_replace_keeps_wf(before, r0, after, before.issued);
        }
        cancelled
    }
}

/// The tree with one more end hook on its root, which closes the textbox.
pub open spec fn boxed(tree: Seq<NodeView>) -> Seq<NodeView> {
    with_end_hook(tree, Hook::CloseTextbox)
}

/// Something that happens to a scheduler.
pub enum Op {
    /// A root is added for a tree.
    Add(Seq<NodeView>),
    /// A root is spawned.
    Spawn(RootId),
    /// An end token is delivered.
    End(EndToken),
    /// A root is despawned.
    Despawn(RootId),
    /// A root is removed for good.
    Remove(RootId),
}

impl SchedulerView {
    /// The state after `op`.
    pub open spec fn apply(self, op: Op) -> SchedulerView {
        match op {
            Op::Add(nodes) => self.add(nodes),
            Op::Spawn(root) => self.spawn(root),
            Op::End(token) => self.end(token),
            Op::Despawn(root) => self.despawn(root),
            Op::Remove(root) => self.remove(root),
        }
    }

    /// The start event that `op` brings about, if it activates a leaf.
    pub open spec fn activation(self, op: Op) -> Option<StartView> {
        match op {
            Op::Spawn(root) => self.spawn_start(root),
            Op::End(token) => self.end_start(token),
            _ => None,
        }
    }

    /// The state after `ops`, one after the other.
    pub open spec fn run(self, ops: Seq<Op>) -> SchedulerView
        decreases ops.len(),
    {
        if ops.len() == 0 {
            self
        } else {
            self.run(ops.drop_last()).apply(ops.last())
        }
    }

    /// The tokens of the activations that `ops` bring about, in order.
    pub open spec fn activations(self, ops: Seq<Op>) -> Seq<EndToken>
        decreases ops.len(),
    {
        if ops.len() == 0 {
            Seq::empty()
        } else {
            let before = self.run(ops.drop_last());
            match before.activation(ops.last()) {
                Some(start) => self.activations(ops.drop_last()).push(start.token),
                None => self.activations(ops.drop_last()),
            }
        }
    }
}

/// Whether `op` is one that a caller of the scheduler can bring about: a
/// root is only ever added for a well-formed tree.
pub open spec fn admissible(op: Op) -> bool {
    op matches Op::Add(nodes) ==> well_formed(nodes)
}

/// Whatever happens to a scheduler leaves it well formed, and an activation
/// takes exactly the next token of the mint.
pub proof fn lemma_apply_keeps_wf(s: SchedulerView, op: Op)
    requires
        s.wf(),
        s.issued < u64::MAX,
        admissible(op),
    ensures
        s.apply(op).wf(),
        match s.activation(op) {
            Some(start) => start.token == s.fresh() && s.apply(op).issued == s.issued + 1,
            None => s.apply(op).issued == s.issued,
        },
{
    match op {
        Op::Add(nodes) => {
            let t = s.add(nodes);
            t.roots[s.roots.len() as int].lemma_nothing_is_passable();
            assert forall|q: int| 0 <= q < t.roots.len() implies (#[trigger] t.roots[q]).wf() by {
                if q < s.roots.len() {
                    assert(t.roots[q] == s.roots[q]);
                }
            }
            assert forall|q: int| 0 <= q < t.roots.len() implies (
            #[trigger] t.roots[q].phase matches Phase::LeafActive { token, .. } ==> token.serial
                < t.issued) by {
                if q < s.roots.len() {
                    assert(t.roots[q] == s.roots[q]);
                }
            }
            assert forall|p: int, q: int|
                0 <= p < t.roots.len() && 0 <= q < t.roots.len() && p != q implies !(
            #[trigger] t.roots[p].phase is LeafActive && #[trigger] t.roots[q].phase is LeafActive
                && t.roots[p].phase->token == t.roots[q].phase->token) by {
                if p < s.roots.len() {
                    assert(t.roots[p] == s.roots[p]);
                }
                if q < s.roots.len() {
                    assert(t.roots[q] == s.roots[q]);
                }
            }
        },
        Op::Spawn(root) => {
            if s.has(root) {
                let r = root.0 as int;
                assert(s.roots[r].wf());
                lemma_spawn_keeps_wf(s.roots[r], s.fresh());
                lemma_step_keeps_wf(s, r, s.roots[r].spawn(s.fresh()));
            }
        },
        Op::End(token) => {
            if s.awaited(token) {
                let r = s.holder(token);
                assert(s.roots[r].wf());
                assert(s.roots[r].phase->token.serial < s.issued);
                lemma_end_keeps_wf(s.roots[r], token, s.fresh());
                lemma_step_keeps_wf(s, r, s.roots[r].end(token, s.fresh()));
            }
        },
        Op::Despawn(root) => {
            if s.has(root) {
                let r = root.0 as int;
                assert(s.roots[r].wf());
                if !(s.roots[r].phase is Removed) {
                    s.roots[r].despawn().lemma_nothing_is_passable();
                }
                lemma_replace_keeps_wf(s, r, s.roots[r].despawn(), s.issued);
            }
        },
        Op::Remove(root) => {
            if s.has(root) {
                let r = root.0 as int;
                assert(s.roots[r].wf());
                s.roots[r].remove().lemma_nothing_is_passable();
                lemma_replace_keeps_wf(s, r, s.roots[r].remove(), s.issued);
            }
        },
    }
}

/// Over any course of events, the tokens of the activations are exactly the
/// tokens that the mint issued meanwhile, in order.
pub proof fn lemma_activations_are_the_minted_tokens(s: SchedulerView, ops: Seq<Op>)
    requires
        s.wf(),
        s.issued + ops.len() <= u64::MAX,
        forall|k: int| 0 <= k < ops.len() ==> admissible(#[trigger] ops[k]),
    ensures
        s.run(ops).wf(),
        s.issued <= s.run(ops).issued <= s.issued + ops.len(),
        s.activations(ops) == minted(s.run(ops).issued).skip(s.issued as int),
    decreases ops.len(),
{
    if ops.len() == 0 {
        assert(s.activations(ops) =~= minted(s.issued).skip(s.issued as int));
    } else {
        let head = ops.drop_last();
        let op = ops.last();
        assert forall|k: int| 0 <= k < head.len() implies admissible(#[trigger] head[k]) by {
            assert(head[k] == ops[k]);
        }
        lemma_activations_are_the_minted_tokens(s, head);
        let before = s.run(head);
        lemma_apply_keeps_wf(before, op);
        let after = before.apply(op);
        assert(s.activations(ops) =~= minted(after.issued).skip(s.issued as int));
    }
}

/// However many leaves are activated, and however often the same leaf is
/// activated again, no two activations share a token: `n` activations carry
/// `n` distinct tokens.
pub proof fn lemma_no_two_activations_share_a_token(s: SchedulerView, ops: Seq<Op>)
    requires
        s.wf(),
        s.issued + ops.len() <= u64::MAX,
        forall|k: int| 0 <= k < ops.len() ==> admissible(#[trigger] ops[k]),
    ensures
        s.activations(ops).no_duplicates(),
        s.activations(ops).to_set().len() == s.activations(ops).len(),
{
    lemma_activations_are_the_minted_tokens(s, ops);
    let tokens = s.activations(ops);
    assert forall|i: int, j: int| 0 <= i < tokens.len() && 0 <= j < tokens.len() && i != j implies tokens[i]
        != tokens[j] by {
        assert(tokens[i].serial == s.issued + i);
        assert(tokens[j].serial == s.issued + j);
    }
    tokens.unique_seq_to_set();
}

/// Over any course of events, every root waits for the end of at most one
/// leaf.
pub proof fn lemma_every_root_has_at_most_one_leaf_active(s: SchedulerView, ops: Seq<Op>, r: int)
    requires
        0 <= r < s.run(ops).roots.len(),
    ensures
        s.run(ops).roots[r].outstanding().finite(),
        s.run(ops).roots[r].outstanding().len() <= 1,
{
    crate::playback::lemma_at_most_one_leaf_outstanding(s.run(ops).roots[r]);
}

/// A token that no root waits for changes nothing when it is delivered: no
/// root moves, no hook runs, no leaf starts, no token is minted.
pub proof fn lemma_stale_delivery_changes_nothing(s: SchedulerView, token: EndToken)
    requires
        !s.awaited(token),
    ensures
        s.end(token) == s,
        s.end_hooks(token) == Seq::<HookCall>::empty(),
        s.end_start(token) is None,
{
}

/// Once a token has been delivered, no root waits for it any more, so
/// delivering it a second time changes nothing.
pub proof fn lemma_second_delivery_changes_nothing(s: SchedulerView, token: EndToken)
    requires
        s.wf(),
        s.issued < u64::MAX,
    ensures
        !s.end(token).awaited(token),
        s.end(token).end(token) == s.end(token),
        s.end(token).end_hooks(token) == Seq::<HookCall>::empty(),
        s.end(token).end_start(token) is None,
{
    let t = s.end(token);
    if s.awaited(token) {
        let r = s.holder(token);
        assert(s.roots[r].phase->token.serial < s.issued);
        assert forall|q: int| 0 <= q < t.roots.len() implies !(#[trigger] t.roots[q]).awaits(
            token,
        ) by {
            if q != r {
                assert(t.roots[q] == s.roots[q]);
                assert(s.roots[r].phase is LeafActive);
            }
        }
    }
}

/// A root that moves, with a fresh token if it comes to rest on a leaf,
/// leaves the scheduler well formed.
proof fn lemma_step_keeps_wf(s: SchedulerView, r: int, after: PlaybackView)
    requires
        s.wf(),
        s.issued < u64::MAX,
        0 <= r < s.roots.len(),
        after.wf(),
        after.phase == s.roots[r].phase || !(after.phase is LeafActive) || after.phase->token
            == s.fresh(),
    ensures
        s.step(r, after).wf(),
{
    lemma_replace_keeps_wf(s, r, after, s.step(r, after).issued);
}

/// One root replaced, the others untouched: the scheduler stays well formed
/// if the token that the root now waits for is the one it waited for before,
/// or one that had not been minted before.
proof fn lemma_replace_keeps_wf(s: SchedulerView, r: int, after: PlaybackView, issued: nat)
    requires
        s.wf(),
        0 <= r < s.roots.len(),
        after.wf(),
        s.issued <= issued <= u64::MAX,
        after.phase matches Phase::LeafActive { token, .. } ==> token.serial < issued && (
        after.phase == s.roots[r].phase || token.serial >= s.issued),
    ensures
        (SchedulerView { issued, roots: s.roots.update(r, after) }).wf(),
{
    let t = SchedulerView { issued, roots: s.roots.update(r, after) };
    assert forall|q: int| 0 <= q < t.roots.len() implies (#[trigger] t.roots[q]).wf() by {
        if q != r {
            assert(t.roots[q] == s.roots[q]);
        }
    }
    assert forall|q: int| 0 <= q < t.roots.len() implies (
    #[trigger] t.roots[q].phase matches Phase::LeafActive { token, .. } ==> token.serial
        < t.issued) by {
        if q != r {
            assert(t.roots[q] == s.roots[q]);
        }
    }
    assert forall|p: int, q: int|
        0 <= p < t.roots.len() && 0 <= q < t.roots.len() && p != q implies !(
    #[trigger] t.roots[p].phase is LeafActive && #[trigger] t.roots[q].phase is LeafActive
        && t.roots[p].phase->token == t.roots[q].phase->token) by {
        assert(s.roots[r].wf());
        if p != r {
            assert(t.roots[p] == s.roots[p]);
        }
        if q != r {
            assert(t.roots[q] == s.roots[q]);
        }
    }
}

} // verus!
