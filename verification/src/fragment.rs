//! Fragment trees and the combinators that build them.
//!
//! A tree is stored flat, in playback order: a fragment comes first, its
//! children follow from left to right, each with all of its own descendants.
//! Every node records how many nodes its subtree spans, itself included, so
//! the position of a node is also its stable id.

use crate::chara::Chara;
use vstd::prelude::*;

verus! {

/// What a leaf carries.
#[derive(Debug)]
pub enum Payload {
    /// A line of dialogue.
    Dialog(String),
    /// A pause, in nanoseconds.
    Pause(u64),
    /// A gate that opens when the condition registered under this key holds.
    Condition(u64),
}

/// Whether a fragment may play again once it has completed.
#[derive(Clone, Copy, Debug, PartialEq, Eq, Structural, Hash)]
pub enum Policy {
    /// Plays on every visit.
    Always,
    /// Plays on the first visit only.
    Once,
}

/// A side effect attached to the start or the end of a fragment.
#[derive(Clone, Copy, Debug, PartialEq, Eq, Structural, Hash)]
pub enum Hook {
    /// Invoke the callback stored under this handle.
    Call(u64),
    /// Announce the speaking character.
    Character(Chara),
    /// Close the textbox.
    CloseTextbox,
}

/// Leaf or composite.
#[derive(Debug)]
pub enum Kind {
    Leaf(Payload),
    Sequence,
}

/// One fragment of a flattened tree.
#[derive(Debug)]
pub struct Node {
    pub kind: Kind,
    /// Number of nodes in this fragment's subtree, itself included.
    pub span: usize,
    pub policy: Policy,
    pub on_start: Vec<Hook>,
    pub on_end: Vec<Hook>,
}

/// Identifies a fragment within its tree by its position in playback order.
#[derive(Clone, Copy, Debug, PartialEq, Eq, Structural, Hash)]
pub struct FragmentId(pub usize);

/// A fragment together with everything below it.
#[derive(Debug)]
pub struct Fragment {
    nodes: Vec<Node>,
}

/// A payload, as contracts see it.
pub enum PayloadView {
    Dialog(Seq<char>),
    Pause(u64),
    Condition(u64),
}

/// The kind of a fragment, as contracts see it.
pub enum KindView {
    Leaf(PayloadView),
    Sequence,
}

/// A node, as contracts see it.
pub struct NodeView {
    pub kind: KindView,
    pub span: usize,
    pub policy: Policy,
    pub on_start: Seq<Hook>,
    pub on_end: Seq<Hook>,
}

impl View for Payload {
    type V = PayloadView;

    open spec fn view(&self) -> PayloadView {
        match self {
            Payload::Dialog(text) => PayloadView::Dialog(text@),
            Payload::Pause(nanos) => PayloadView::Pause(*nanos),
            Payload::Condition(key) => PayloadView::Condition(*key),
        }
    }
}

impl View for Kind {
    type V = KindView;

    open spec fn view(&self) -> KindView {
        match self {
            Kind::Leaf(payload) => KindView::Leaf(payload@),
            Kind::Sequence => KindView::Sequence,
        }
    }
}

impl View for Node {
    type V = NodeView;

    open spec fn view(&self) -> NodeView {
        NodeView {
            kind: self.kind@,
            span: self.span,
            policy: self.policy,
            on_start: self.on_start@,
            on_end: self.on_end@,
        }
    }
}

impl View for Fragment {
    type V = Seq<NodeView>;

    closed spec fn view(&self) -> Seq<NodeView> {
        views(self.nodes@)
    }
}

spec fn views(nodes: Seq<Node>) -> Seq<NodeView> {
    nodes.map_values(|node: Node| node@)
}

impl NodeView {
    /// A leaf as the constructors make it: repeatable, without hooks.
    pub open spec fn leaf(payload: PayloadView) -> NodeView {
        NodeView {
            kind: KindView::Leaf(payload),
            span: 1,
            policy: Policy::Always,
            on_start: Seq::empty(),
            on_end: Seq::empty(),
        }
    }

    /// A composite as the constructor makes it: repeatable, without hooks.
    pub open spec fn composite(span: usize) -> NodeView {
        NodeView {
            kind: KindView::Sequence,
            span,
            policy: Policy::Always,
            on_start: Seq::empty(),
            on_end: Seq::empty(),
        }
    }

    /// This node under another policy.
    pub open spec fn with_policy(self, policy: Policy) -> NodeView {
        NodeView {
            kind: self.kind,
            span: self.span,
            policy,
            on_start: self.on_start,
            on_end: self.on_end,
        }
    }

    /// This node with one more hook to run when it starts.
    pub open spec fn with_start_hook(self, hook: Hook) -> NodeView {
        NodeView {
            kind: self.kind,
            span: self.span,
            policy: self.policy,
            on_start: self.on_start.push(hook),
            on_end: self.on_end,
        }
    }

    /// This node with one more hook to run when it ends.
    pub open spec fn with_end_hook(self, hook: Hook) -> NodeView {
        NodeView {
            kind: self.kind,
            span: self.span,
            policy: self.policy,
            on_start: self.on_start,
            on_end: self.on_end.push(hook),
        }
    }
}

/// Every subtree lies within the sequence, a leaf spans itself alone, and the
/// subtree of a node contains the whole subtree of each node inside it.
pub open spec fn nested(nodes: Seq<NodeView>) -> bool {
    forall|i: int|
        #![trigger nodes[i]]
        0 <= i < nodes.len() ==> {
            &&& 1 <= nodes[i].span
            &&& i + nodes[i].span <= nodes.len()
            &&& (nodes[i].kind is Leaf ==> nodes[i].span == 1)
            &&& forall|j: int|
                #![trigger nodes[j]]
                i < j < i + nodes[i].span ==> j + nodes[j].span <= i + nodes[i].span
        }
}

/// The nodes form exactly one tree, rooted at position 0.
pub open spec fn well_formed(nodes: Seq<NodeView>) -> bool {
    &&& nodes.len() > 0
    &&& nodes[0].span == nodes.len()
    &&& nested(nodes)
}

/// The nodes of all `children`, one child after the other.
pub open spec fn joined(children: Seq<Fragment>) -> Seq<NodeView> {
    children.map_values(|c: Fragment| c@).flatten()
}

/// The tree with its root under another policy.
pub open spec fn with_policy(nodes: Seq<NodeView>, policy: Policy) -> Seq<NodeView> {
    nodes.update(0, nodes[0].with_policy(policy))
}

/// The tree with one more hook to run when its root starts.
pub open spec fn with_start_hook(nodes: Seq<NodeView>, hook: Hook) -> Seq<NodeView> {
    nodes.update(0, nodes[0].with_start_hook(hook))
}

/// The tree with one more hook to run when its root ends.
pub open spec fn with_end_hook(nodes: Seq<NodeView>, hook: Hook) -> Seq<NodeView> {
    nodes.update(0, nodes[0].with_end_hook(hook))
}

impl Payload {
    /// A copy of this payload.
    pub fn duplicate(&self) -> (copy: Payload)
        ensures
            copy@ == self@,
    {
        match self {
            Payload::Dialog(text) => Payload::Dialog(text.clone()),
            Payload::Pause(nanos) => Payload::Pause(*nanos),
            Payload::Condition(key) => Payload::Condition(*key),
        }
    }
}

/// A pause of `nanos` nanoseconds.
///
/// There is one kind of pause: when it starts, it closes the textbox, so that
/// no line stays on screen while time passes.
pub fn delay(nanos: u64) -> (f: Fragment)
    ensures
        f.wf(),
        f@ == seq![NodeView::leaf(PayloadView::Pause(nanos))],
{
    Fragment::leaf(Payload::Pause(nanos))
}

/// A condition: a leaf that waits until the observer installed under `key`
/// finds its predicate satisfied.
pub fn con(key: u64) -> (f: Fragment)
    ensures
        f.wf(),
        f@ == seq![NodeView::leaf(PayloadView::Condition(key))],
{
    Fragment::leaf(Payload::Condition(key))
}

impl Fragment {
    /// The invariant of every fragment that this module hands out.
    pub open spec fn wf(&self) -> bool {
        well_formed(self@)
    }

    fn leaf(payload: Payload) -> (f: Fragment)
        ensures
            f.wf(),
            f@ == seq![NodeView::leaf(payload@)],
    {
        let node = Node {
            kind: Kind::Leaf(payload),
            span: 1,
            policy: Policy::Always,
            on_start: Vec::new(),
            on_end: Vec::new(),
        };
        let mut nodes: Vec<Node> = Vec::new();
        nodes.push(node);
        let f = Fragment { nodes };
        proof {
            assert(f@ =~= seq![NodeView::leaf(payload@)]);
        }
        f
    }

    /// A leaf that shows one line of dialogue.
    pub fn dialog(text: &str) -> (f: Fragment)
        ensures
            f.wf(),
            f@ == seq![NodeView::leaf(PayloadView::Dialog(text@))],
    {
        Fragment::leaf(Payload::Dialog(text.to_owned()))
    }

    /// A composite that plays `children` from left to right. With no
    /// children it is a node that starts and ends at once.
    pub fn sequence(children: Vec<Fragment>) -> (f: Fragment)
        requires
            forall|k: int| 0 <= k < children.len() ==> (#[trigger] children[k]).wf(),
        ensures
            f.wf(),
            f@ == seq![NodeView::composite((joined(children@).len() + 1) as usize)] + joined(
                children@,
            ),
    {
        let header = Node {
            kind: Kind::Sequence,
            span: 1,
            policy: Policy::Always,
            on_start: Vec::new(),
            on_end: Vec::new(),
        };
        let mut nodes: Vec<Node> = Vec::new();
        nodes.push(header);
        let ghost all = children@;
        proof {
            assert(all.take(0) =~= Seq::<Fragment>::empty());
            assert(views(nodes@).skip(1) =~= joined(all.take(0)));
        }
        for child in it: children
            invariant
                it.seq() == all,
                forall|k: int| 0 <= k < all.len() ==> (#[trigger] all[k]).wf(),
                nodes@.len() >= 1,
                nodes@[0]@ == NodeView::composite(1),
                views(nodes@).skip(1) == joined(all.take(it.index() as int)),
                nested(views(nodes@).skip(1)),
        {
            let ghost before = views(nodes@);
            let ghost k = it.index() as int;
            let mut child = child;
            let ghost added = child@;
            proof {
                assert(child == all[k]);
                assert(all[k].wf());
                lemma_nested_concat(before.skip(1), added);
                assert(all.take(k + 1) =~= all.take(k).push(all[k]));
                assert(all.take(k + 1).map_values(|c: Fragment| c@) =~= all.take(k).map_values(
                    |c: Fragment| c@,
                ).push(added));
                all.take(k).map_values(|c: Fragment| c@).lemma_flatten_push(added);
            }
            nodes.append(&mut child.nodes);
            proof {
                assert(views(nodes@) =~= before + added);
                assert(views(nodes@).skip(1) =~= before.skip(1) + added);
            }
        }
        proof {
            assert(all.take(all.len() as int) =~= all);
        }
        let span = nodes.len();
        nodes[0].span = span;
        let f = Fragment { nodes };
        proof {
            assert(f@.skip(1) =~= joined(all));
            assert(f@[0] == NodeView::composite(span));
            assert(f@.len() == joined(all).len() + 1);
            assert(f@ =~= seq![NodeView::composite((joined(all).len() + 1) as usize)] + joined(all));
            lemma_nested_under_header(f@);
        }
        f
    }

    /// Number of fragments in the tree.
    pub fn len(&self) -> (n: usize)
        ensures
            n == self@.len(),
    {
        self.nodes.len()
    }

    /// The fragment stored under `id`.
    pub fn node(&self, id: FragmentId) -> (node: &Node)
        requires
            id.0 < self@.len(),
        ensures
            node@ == self@[id.0 as int],
    {
        &self.nodes[id.0]
    }

    /// Marks the fragment as playing on its first visit only.
    pub fn once(self) -> (f: Fragment)
        requires
            self.wf(),
        ensures
            f.wf(),
            f@ == with_policy(self@, Policy::Once),
    {
        let mut f = self;
        f.nodes[0].policy = Policy::Once;
        proof {
            assert(f@ =~= with_policy(self@, Policy::Once));
            lemma_same_shape(self@, f@);
        }
        f
    }

    /// Marks the fragment as playing on every visit.
    pub fn always(self) -> (f: Fragment)
        requires
            self.wf(),
        ensures
            f.wf(),
            f@ == with_policy(self@, Policy::Always),
    {
        let mut f = self;
        f.nodes[0].policy = Policy::Always;
        proof {
            assert(f@ =~= with_policy(self@, Policy::Always));
            lemma_same_shape(self@, f@);
        }
        f
    }

    /// Adds `hook` to the side effects that run when the fragment starts.
    pub fn on_start(self, hook: Hook) -> (f: Fragment)
        requires
            self.wf(),
        ensures
            f.wf(),
            f@ == with_start_hook(self@, hook),
    {
        let mut f = self;
        f.nodes[0].on_start.push(hook);
        proof {
            assert(f@ =~= with_start_hook(self@, hook));
            lemma_same_shape(self@, f@);
        }
        f
    }

    /// Announces `chara` as the speaker when the fragment starts.
    pub fn chara(self, chara: Chara) -> (f: Fragment)
        requires
            self.wf(),
        ensures
            f.wf(),
            f@ == with_start_hook(self@, Hook::Character(chara)),
    {
        self.on_start(Hook::Character(chara))
    }

    /// Spoken by the narrator.
    pub fn narrator(self) -> (f: Fragment)
        requires
            self.wf(),
        ensures
            f.wf(),
            f@ == with_start_hook(self@, Hook::Character(Chara::Narrator)),
    {
        self.chara(Chara::Narrator)
    }

    /// Spoken by the narrator in distress.
    pub fn distressed_narrator(self) -> (f: Fragment)
        requires
            self.wf(),
        ensures
            f.wf(),
            f@ == with_start_hook(self@, Hook::Character(Chara::DistressedNarrator1)),
    {
        self.chara(Chara::DistressedNarrator1)
    }

    /// Spoken by the narrator in great distress.
    pub fn distressed_narrator2(self) -> (f: Fragment)
        requires
            self.wf(),
        ensures
            f.wf(),
            f@ == with_start_hook(self@, Hook::Character(Chara::DistressedNarrator2)),
    {
        self.chara(Chara::DistressedNarrator2)
    }

    /// Spoken by the father.
    pub fn father(self) -> (f: Fragment)
        requires
            self.wf(),
        ensures
            f.wf(),
            f@ == with_start_hook(self@, Hook::Character(Chara::Father)),
    {
        self.chara(Chara::Father)
    }

    /// Spoken by Luna.
    pub fn luna(self) -> (f: Fragment)
        requires
            self.wf(),
        ensures
            f.wf(),
            f@ == with_start_hook(self@, Hook::Character(Chara::Luna)),
    {
        self.chara(Chara::Luna)
    }

    /// Spoken by the stranger.
    pub fn stranger(self) -> (f: Fragment)
        requires
            self.wf(),
        ensures
            f.wf(),
            f@ == with_start_hook(self@, Hook::Character(Chara::Stranger)),
    {
        self.chara(Chara::Stranger)
    }

    /// Spoken by the shadow.
    pub fn shadow(self) -> (f: Fragment)
        requires
            self.wf(),
        ensures
            f.wf(),
            f@ == with_start_hook(self@, Hook::Character(Chara::Shadow)),
    {
        self.chara(Chara::Shadow)
    }

    /// Adds `hook` to the side effects that run when the fragment ends.
    pub fn on_end(self, hook: Hook) -> (f: Fragment)
        requires
            self.wf(),
        ensures
            f.wf(),
            f@ == with_end_hook(self@, hook),
    {
        let mut f = self;
        f.nodes[0].on_end.push(hook);
        proof {
            assert(f@ =~= with_end_hook(self@, hook));
            lemma_same_shape(self@, f@);
        }
        f
    }
}

/// Two forests laid end to end are a forest.
proof fn lemma_nested_concat(a: Seq<NodeView>, b: Seq<NodeView>)
    requires
        nested(a),
        nested(b),
    ensures
        nested(a + b),
{
    let c = a + b;
    assert forall|i: int| #![trigger c[i]] 0 <= i < c.len() implies {
        &&& 1 <= c[i].span
        &&& i + c[i].span <= c.len()
        &&& (c[i].kind is Leaf ==> c[i].span == 1)
        &&& forall|j: int|
            #![trigger c[j]]
            i < j < i + c[i].span ==> j + c[j].span <= i + c[i].span
    } by {
        if i < a.len() {
            assert(c[i] == a[i]);
            assert forall|j: int| #![trigger c[j]] i < j < i + c[i].span implies j + c[j].span
                <= i + c[i].span by {
                assert(c[j] == a[j]);
            }
        } else {
            assert(c[i] == b[i - a.len()]);
            assert forall|j: int| #![trigger c[j]] i < j < i + c[i].span implies j + c[j].span
                <= i + c[i].span by {
                assert(c[j] == b[j - a.len()]);
            }
        }
    }
}

/// A forest under a header that spans all of it is a tree.
proof fn lemma_nested_under_header(nodes: Seq<NodeView>)
    requires
        nodes.len() >= 1,
        nodes[0].span == nodes.len(),
        nodes[0].kind is Sequence,
        nested(nodes.skip(1)),
    ensures
        well_formed(nodes),
{
    let tail = nodes.skip(1);
    assert forall|i: int| #![trigger nodes[i]] 0 <= i < nodes.len() implies {
        &&& 1 <= nodes[i].span
        &&& i + nodes[i].span <= nodes.len()
        &&& (nodes[i].kind is Leaf ==> nodes[i].span == 1)
        &&& forall|j: int|
            #![trigger nodes[j]]
            i < j < i + nodes[i].span ==> j + nodes[j].span <= i + nodes[i].span
    } by {
        if i == 0 {
            assert forall|j: int| #![trigger nodes[j]] 0 < j < nodes[0].span implies j
                + nodes[j].span <= nodes[0].span by {
                assert(nodes[j] == tail[j - 1]);
            }
        } else {
            assert(nodes[i] == tail[i - 1]);
            assert forall|j: int| #![trigger nodes[j]] i < j < i + nodes[i].span implies j
                + nodes[j].span <= i + nodes[i].span by {
                assert(nodes[j] == tail[j - 1]);
            }
        }
    }
}

/// Well-formedness depends on kinds and spans only.
proof fn lemma_same_shape(a: Seq<NodeView>, b: Seq<NodeView>)
    requires
        well_formed(a),
        a.len() == b.len(),
        forall|i: int|
            #![trigger b[i]]
            0 <= i < a.len() ==> a[i].span == b[i].span && (a[i].kind is Leaf <==> b[i].kind is Leaf),
    ensures
        well_formed(b),
{
    assert forall|i: int| #![trigger b[i]] 0 <= i < b.len() implies {
        &&& 1 <= b[i].span
        &&& i + b[i].span <= b.len()
        &&& (b[i].kind is Leaf ==> b[i].span == 1)
        &&& forall|j: int|
            #![trigger b[j]]
            i < j < i + b[i].span ==> j + b[j].span <= i + b[i].span
    } by {
        assert(a[i].span == b[i].span);
        assert forall|j: int| #![trigger b[j]] i < j < i + b[i].span implies j + b[j].span <= i
            + b[i].span by {
            assert(a[j].span == b[j].span);
        }
    }
}

} // verus!
