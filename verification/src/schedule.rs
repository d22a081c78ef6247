//! The order in which one pass over a tree visits its fragments.

use crate::fragment::{nested, well_formed, Fragment, FragmentId, Kind, NodeView, Policy};
use vstd::prelude::*;

verus! {

/// One event of a pass.
#[derive(Clone, Copy, Debug, PartialEq, Eq, Structural, Hash)]
pub enum Step {
    /// The pass enters a fragment.
    Enter(usize),
    /// The pass activates a leaf and waits for its end.
    Play(usize),
    /// The pass leaves a fragment, which thereby completes.
    Exit(usize),
}

impl Step {
    /// The fragment that the step concerns.
    pub open spec fn node(self) -> usize {
        match self {
            Step::Enter(i) => i,
            Step::Play(i) => i,
            Step::Exit(i) => i,
        }
    }
}

/// A fragment that plays once and has completed: a pass skips it, and with
/// it everything below it.
pub open spec fn consumed(nodes: Seq<NodeView>, done: Seq<bool>, i: int) -> bool {
    nodes[i].policy == Policy::Once && done[i]
}

/// The steps of a pass over the subtree at `i`, given which fragments have
/// completed before.
///
/// A consumed subtree contributes nothing. Any other fragment is entered,
/// then a leaf is played and a composite has its children walked from left to
/// right, then the fragment is left.
pub open spec fn walk(nodes: Seq<NodeView>, done: Seq<bool>, i: int) -> Seq<Step>
    decreases nodes[i].span, 0int,
{
    if !(0 <= i < nodes.len()) || nodes[i].span < 1 || consumed(nodes, done, i) {
        Seq::empty()
    } else if nodes[i].kind is Leaf {
        seq![Step::Enter(i as usize), Step::Play(i as usize), Step::Exit(i as usize)]
    } else {
        seq![Step::Enter(i as usize)] + walk_siblings(nodes, done, i + 1, i + nodes[i].span)
            + seq![Step::Exit(i as usize)]
    }
}

/// The steps of a pass over the subtrees that start at `p` and follow one
/// another up to `end`.
pub open spec fn walk_siblings(nodes: Seq<NodeView>, done: Seq<bool>, p: int, end: int) -> Seq<Step>
    decreases end - p, 1int,
{
    if !(0 <= p < nodes.len()) || p >= end || nodes[p].span < 1 || p + nodes[p].span > end {
        Seq::empty()
    } else {
        walk(nodes, done, p) + walk_siblings(nodes, done, p + nodes[p].span, end)
    }
}

/// The steps of a pass over a whole tree.
pub open spec fn itinerary(nodes: Seq<NodeView>, done: Seq<bool>) -> Seq<Step> {
    walk(nodes, done, 0)
}

/// Every step of `steps` concerns a fragment of `nodes`, and only leaves are
/// played.
pub open spec fn fits(steps: Seq<Step>, nodes: Seq<NodeView>) -> bool {
    forall|k: int|
        0 <= k < steps.len() ==> {
            &&& (#[trigger] steps[k]).node() < nodes.len()
            &&& (steps[k] is Play ==> nodes[steps[k].node() as int].kind is Leaf)
        }
}

/// A walk only names fragments of the tree, and plays only leaves.
pub proof fn lemma_walk_fits(nodes: Seq<NodeView>, done: Seq<bool>, i: int)
    requires
        nested(nodes),
        nodes.len() <= usize::MAX,
    ensures
        fits(walk(nodes, done, i), nodes),
    decreases nodes[i].span, 0int,
{
    let steps = walk(nodes, done, i);
    if !(0 <= i < nodes.len()) || nodes[i].span < 1 || consumed(nodes, done, i) {
    } else if nodes[i].kind is Leaf {
        assert forall|k: int| 0 <= k < steps.len() implies (#[trigger] steps[k]).node() == i by {
            assert(k == 0 || k == 1 || k == 2);
        }
    } else {
        let inner = walk_siblings(nodes, done, i + 1, i + nodes[i].span);
        lemma_walk_siblings_fits(nodes, done, i + 1, i + nodes[i].span);
        assert forall|k: int| 0 <= k < steps.len() implies {
            &&& (#[trigger] steps[k]).node() < nodes.len()
            &&& (steps[k] is Play ==> nodes[steps[k].node() as int].kind is Leaf)
        } by {
            if 1 <= k <= inner.len() {
                assert(steps[k] == inner[k - 1]);
            }
        }
    }
}

/// A walk over siblings only names fragments of the tree, and plays only
/// leaves.
pub proof fn lemma_walk_siblings_fits(nodes: Seq<NodeView>, done: Seq<bool>, p: int, end: int)
    requires
        nested(nodes),
        nodes.len() <= usize::MAX,
    ensures
        fits(walk_siblings(nodes, done, p, end), nodes),
    decreases end - p, 1int,
{
    if !(0 <= p < nodes.len()) || p >= end || nodes[p].span < 1 || p + nodes[p].span > end {
    } else {
        let first = walk(nodes, done, p);
        let rest = walk_siblings(nodes, done, p + nodes[p].span, end);
        lemma_walk_fits(nodes, done, p);
        lemma_walk_siblings_fits(nodes, done, p + nodes[p].span, end);
        assert forall|k: int| 0 <= k < (first + rest).len() implies {
            &&& (#[trigger] (first + rest)[k]).node() < nodes.len()
            &&& ((first + rest)[k] is Play ==> nodes[(first + rest)[k].node() as int].kind is Leaf)
        } by {
            if k < first.len() {
                assert((first + rest)[k] == first[k]);
            } else {
                assert((first + rest)[k] == rest[k - first.len()]);
            }
        }
    }
}

/// Every step of `steps` concerns a fragment from `low` up to, not
/// including, `high`.
pub open spec fn ranged(steps: Seq<Step>, low: int, high: int) -> bool {
    forall|k: int| 0 <= k < steps.len() ==> low <= (#[trigger] steps[k]).node() < high
}

/// If step `k` leaves a fragment, step `m` concerns another.
pub open spec fn left_for_good(steps: Seq<Step>, k: int, m: int) -> bool {
    steps[k] is Exit ==> steps[m].node() != steps[k].node()
}

/// A played leaf is left in the very next step, and a fragment that has been
/// left is not met again.
pub open spec fn orderly(steps: Seq<Step>) -> bool {
    &&& forall|k: int|
        0 <= k < steps.len() && (#[trigger] steps[k]) is Play ==> k + 1 < steps.len() && steps[k
            + 1] == Step::Exit(steps[k].node())
    &&& forall|k: int, m: int| 0 <= k < m < steps.len() ==> #[trigger] left_for_good(steps, k, m)
}

/// None of the fragments that `steps` concern is consumed.
pub open spec fn unconsumed(steps: Seq<Step>, nodes: Seq<NodeView>, done: Seq<bool>) -> bool {
    forall|k: int| 0 <= k < steps.len() ==> !consumed(nodes, done, (#[trigger] steps[k]).node() as int)
}

/// A walk stays within the subtree it covers.
pub proof fn lemma_walk_ranged(nodes: Seq<NodeView>, done: Seq<bool>, i: int)
    requires
        nested(nodes),
        nodes.len() <= usize::MAX,
    ensures
        ranged(walk(nodes, done, i), i, i + nodes[i].span),
    decreases nodes[i].span, 0int,
{
    let steps = walk(nodes, done, i);
    if !(0 <= i < nodes.len()) || nodes[i].span < 1 || consumed(nodes, done, i) {
    } else if nodes[i].kind is Leaf {
        assert forall|k: int| 0 <= k < steps.len() implies (#[trigger] steps[k]).node() == i by {
            assert(k == 0 || k == 1 || k == 2);
        }
    } else {
        let inner = walk_siblings(nodes, done, i + 1, i + nodes[i].span);
        lemma_walk_siblings_ranged(nodes, done, i + 1, i + nodes[i].span);
        assert forall|k: int| 0 <= k < steps.len() implies i <= (#[trigger] steps[k]).node() < i
            + nodes[i].span by {
            if 1 <= k <= inner.len() {
                assert(steps[k] == inner[k - 1]);
            }
        }
    }
}

/// A walk over siblings stays within their subtrees.
pub proof fn lemma_walk_siblings_ranged(nodes: Seq<NodeView>, done: Seq<bool>, p: int, end: int)
    requires
        nested(nodes),
        nodes.len() <= usize::MAX,
    ensures
        ranged(walk_siblings(nodes, done, p, end), p, end),
    decreases end - p, 1int,
{
    if !(0 <= p < nodes.len()) || p >= end || nodes[p].span < 1 || p + nodes[p].span > end {
    } else {
        let first = walk(nodes, done, p);
        let rest = walk_siblings(nodes, done, p + nodes[p].span, end);
        lemma_walk_ranged(nodes, done, p);
        lemma_walk_siblings_ranged(nodes, done, p + nodes[p].span, end);
        assert forall|k: int| 0 <= k < (first + rest).len() implies p <= (#[trigger] (first
            + rest)[k]).node() < end by {
            if k < first.len() {
                assert((first + rest)[k] == first[k]);
            } else {
                assert((first + rest)[k] == rest[k - first.len()]);
            }
        }
    }
}

/// Two orderly runs over separate parts of the tree, one after the other,
/// are orderly.
proof fn lemma_orderly_concat(a: Seq<Step>, b: Seq<Step>, low: int, mid: int, high: int)
    requires
        orderly(a),
        orderly(b),
        ranged(a, low, mid),
        ranged(b, mid, high),
    ensures
        orderly(a + b),
{
    let c = a + b;
    assert forall|k: int| 0 <= k < c.len() && (#[trigger] c[k]) is Play implies k + 1 < c.len()
        && c[k + 1] == Step::Exit(c[k].node()) by {
        if k < a.len() {
            assert(c[k] == a[k]);
            assert(c[k + 1] == a[k + 1]);
        } else {
            assert(c[k] == b[k - a.len()]);
            assert(c[k + 1] == b[k + 1 - a.len()]);
        }
    }
    assert forall|k: int, m: int| 0 <= k < m < c.len() implies #[trigger] left_for_good(
        c,
        k,
        m,
    ) by {
        if k < a.len() {
            assert(c[k] == a[k]);
            if m < a.len() {
                assert(c[m] == a[m]);
                assert(left_for_good(a, k, m));
            } else {
                assert(c[m] == b[m - a.len()]);
            }
        } else {
            assert(c[k] == b[k - a.len()]);
            assert(c[m] == b[m - a.len()]);
            assert(left_for_good(b, k - a.len(), m - a.len()));
        }
    }
}

/// A walk is orderly.
pub proof fn lemma_walk_orderly(nodes: Seq<NodeView>, done: Seq<bool>, i: int)
    requires
        nested(nodes),
        nodes.len() <= usize::MAX,
    ensures
        orderly(walk(nodes, done, i)),
    decreases nodes[i].span, 0int,
{
    let steps = walk(nodes, done, i);
    if !(0 <= i < nodes.len()) || nodes[i].span < 1 || consumed(nodes, done, i) {
    } else if nodes[i].kind is Leaf {
        assert(steps[0] is Enter && steps[1] is Play && steps[2] is Exit);
        assert forall|k: int, m: int| 0 <= k < m < steps.len() implies #[trigger] left_for_good(
            steps,
            k,
            m,
        ) by {
            assert(k == 0 || k == 1);
        }
    } else {
        let inner = walk_siblings(nodes, done, i + 1, i + nodes[i].span);
        lemma_walk_siblings_orderly(nodes, done, i + 1, i + nodes[i].span);
        lemma_walk_siblings_ranged(nodes, done, i + 1, i + nodes[i].span);
        assert forall|k: int| 0 <= k < steps.len() && (#[trigger] steps[k]) is Play implies k + 1
            < steps.len() && steps[k + 1] == Step::Exit(steps[k].node()) by {
            assert(1 <= k <= inner.len());
            assert(steps[k] == inner[k - 1]);
            assert(steps[k + 1] == inner[k]);
        }
        assert forall|k: int, m: int| 0 <= k < m < steps.len() implies #[trigger] left_for_good(
            steps,
            k,
            m,
        ) by {
            if 1 <= k {
                assert(steps[k] == inner[k - 1]);
                if m <= inner.len() {
                    assert(steps[m] == inner[m - 1]);
                    assert(left_for_good(inner, k - 1, m - 1));
                }
            }
        }
    }
}

/// A walk over siblings is orderly.
pub proof fn lemma_walk_siblings_orderly(nodes: Seq<NodeView>, done: Seq<bool>, p: int, end: int)
    requires
        nested(nodes),
        nodes.len() <= usize::MAX,
    ensures
        orderly(walk_siblings(nodes, done, p, end)),
    decreases end - p, 1int,
{
    if !(0 <= p < nodes.len()) || p >= end || nodes[p].span < 1 || p + nodes[p].span > end {
    } else {
        lemma_walk_orderly(nodes, done, p);
        lemma_walk_siblings_orderly(nodes, done, p + nodes[p].span, end);
        lemma_walk_ranged(nodes, done, p);
        lemma_walk_siblings_ranged(nodes, done, p + nodes[p].span, end);
        lemma_orderly_concat(
            walk(nodes, done, p),
            walk_siblings(nodes, done, p + nodes[p].span, end),
            p,
            p + nodes[p].span,
            end,
        );
    }
}

/// A fragment that plays once and has completed is passed over, with
/// everything below it.
pub proof fn lemma_consumed_is_skipped(nodes: Seq<NodeView>, done: Seq<bool>, i: int)
    requires
        consumed(nodes, done, i),
    ensures
        walk(nodes, done, i) == Seq::<Step>::empty(),
{
}

/// A leaf that plays always is played on every visit, whether or not it has
/// completed before.
pub proof fn lemma_always_leaf_replays(nodes: Seq<NodeView>, done: Seq<bool>, i: int)
    requires
        nested(nodes),
        0 <= i < nodes.len(),
        nodes[i].kind is Leaf,
        nodes[i].policy == Policy::Always,
    ensures
        walk(nodes, done, i) == seq![
            Step::Enter(i as usize),
            Step::Play(i as usize),
            Step::Exit(i as usize),
        ],
{
}

/// A composite that is not consumed is entered, has its children walked from
/// left to right, and is left; with no children it is entered and left at
/// once.
pub proof fn lemma_sequence_walks_children(nodes: Seq<NodeView>, done: Seq<bool>, i: int)
    requires
        nested(nodes),
        0 <= i < nodes.len(),
        nodes[i].kind is Sequence,
        !consumed(nodes, done, i),
    ensures
        walk(nodes, done, i) == seq![Step::Enter(i as usize)] + walk_siblings(
            nodes,
            done,
            i + 1,
            i + nodes[i].span,
        ) + seq![Step::Exit(i as usize)],
        nodes[i].span == 1 ==> walk(nodes, done, i) == seq![
            Step::Enter(i as usize),
            Step::Exit(i as usize),
        ],
{
    if nodes[i].span == 1 {
        assert(walk_siblings(nodes, done, i + 1, i + 1) =~= Seq::<Step>::empty());
        assert(walk(nodes, done, i) =~= seq![Step::Enter(i as usize), Step::Exit(i as usize)]);
    }
}

/// Fragment `a` is fragment `i` or one of the composites around it.
pub open spec fn covers(nodes: Seq<NodeView>, a: int, i: int) -> bool {
    0 <= a <= i < a + nodes[a].span
}

/// Neither fragment `i` nor any composite around it is consumed.
pub open spec fn reachable(nodes: Seq<NodeView>, done: Seq<bool>, i: int) -> bool {
    forall|a: int| #[trigger] covers(nodes, a, i) ==> !consumed(nodes, done, a)
}

/// A pass over a subtree plays every leaf in it that can be reached.
pub proof fn lemma_walk_plays_reachable_leaf(nodes: Seq<NodeView>, done: Seq<bool>, a: int, i: int)
    requires
        nested(nodes),
        nodes.len() <= usize::MAX,
        i < nodes.len(),
        covers(nodes, a, i),
        nodes[i].kind is Leaf,
        reachable(nodes, done, i),
    ensures
        walk(nodes, done, a).contains(Step::Play(i as usize)),
    decreases nodes[a].span, 0int,
{
    let steps = walk(nodes, done, a);
    assert(!consumed(nodes, done, a));
    if nodes[a].kind is Leaf {
        assert(a == i);
        assert(steps[1] == Step::Play(i as usize));
    } else {
        let end = a + nodes[a].span;
        let inner = walk_siblings(nodes, done, a + 1, end);
        assert(a != i);
        assert forall|q: int| a + 1 <= q < end implies q + (#[trigger] nodes[q]).span <= end by {}
        lemma_siblings_play_reachable_leaf(nodes, done, a + 1, end, i);
        let k = choose|k: int| 0 <= k < inner.len() && inner[k] == Step::Play(i as usize);
        assert(steps[k + 1] == inner[k]);
    }
}

/// A pass over siblings plays every leaf below them that can be reached.
pub proof fn lemma_siblings_play_reachable_leaf(
    nodes: Seq<NodeView>,
    done: Seq<bool>,
    p: int,
    end: int,
    i: int,
)
    requires
        nested(nodes),
        nodes.len() <= usize::MAX,
        0 <= p <= i < end <= nodes.len(),
        forall|q: int| p <= q < end ==> q + (#[trigger] nodes[q]).span <= end,
        nodes[i].kind is Leaf,
        reachable(nodes, done, i),
    ensures
        walk_siblings(nodes, done, p, end).contains(Step::Play(i as usize)),
    decreases end - p, 1int,
{
    let first = walk(nodes, done, p);
    let rest = walk_siblings(nodes, done, p + nodes[p].span, end);
    assert(nodes[p].span >= 1 && p + nodes[p].span <= end);
    if i < p + nodes[p].span {
        assert(covers(nodes, p, i));
        lemma_walk_plays_reachable_leaf(nodes, done, p, i);
        let k = choose|k: int| 0 <= k < first.len() && first[k] == Step::Play(i as usize);
        assert((first + rest)[k] == first[k]);
    } else {
        lemma_siblings_play_reachable_leaf(nodes, done, p + nodes[p].span, end, i);
        let k = choose|k: int| 0 <= k < rest.len() && rest[k] == Step::Play(i as usize);
        assert((first + rest)[k + first.len()] == rest[k]);
    }
}

/// A leaf that plays always is played by every pass that reaches it: every
/// pass over the tree in which no composite around the leaf is consumed.
pub proof fn lemma_always_leaf_is_played_when_reached(nodes: Seq<NodeView>, done: Seq<bool>, i: int)
    requires
        well_formed(nodes),
        0 <= i < nodes.len(),
        nodes[i].kind is Leaf,
        nodes[i].policy == Policy::Always,
        forall|a: int| #[trigger] covers(nodes, a, i) && a != i ==> !consumed(nodes, done, a),
    ensures
        itinerary(nodes, done).contains(Step::Play(i as usize)),
{
    assert(covers(nodes, 0, i));
    lemma_walk_plays_reachable_leaf(nodes, done, 0, i);
}

/// No pass ever visits a fragment that is consumed.
pub proof fn lemma_walk_avoids_consumed(nodes: Seq<NodeView>, done: Seq<bool>, i: int)
    requires
        nested(nodes),
        nodes.len() <= usize::MAX,
    ensures
        unconsumed(walk(nodes, done, i), nodes, done),
    decreases nodes[i].span, 0int,
{
    let steps = walk(nodes, done, i);
    if !(0 <= i < nodes.len()) || nodes[i].span < 1 || consumed(nodes, done, i) {
    } else if nodes[i].kind is Leaf {
        assert forall|k: int| 0 <= k < steps.len() implies (#[trigger] steps[k]).node() == i by {
            assert(k == 0 || k == 1 || k == 2);
        }
    } else {
        let inner = walk_siblings(nodes, done, i + 1, i + nodes[i].span);
        lemma_walk_siblings_avoid_consumed(nodes, done, i + 1, i + nodes[i].span);
        assert forall|k: int| 0 <= k < steps.len() implies !consumed(
            nodes,
            done,
            (#[trigger] steps[k]).node() as int,
        ) by {
            if 1 <= k <= inner.len() {
                assert(steps[k] == inner[k - 1]);
            }
        }
    }
}

/// No pass over siblings ever visits a fragment that is consumed.
pub proof fn lemma_walk_siblings_avoid_consumed(
    nodes: Seq<NodeView>,
    done: Seq<bool>,
    p: int,
    end: int,
)
    requires
        nested(nodes),
        nodes.len() <= usize::MAX,
    ensures
        unconsumed(walk_siblings(nodes, done, p, end), nodes, done),
    decreases end - p, 1int,
{
    if !(0 <= p < nodes.len()) || p >= end || nodes[p].span < 1 || p + nodes[p].span > end {
    } else {
        let first = walk(nodes, done, p);
        let rest = walk_siblings(nodes, done, p + nodes[p].span, end);
        lemma_walk_avoids_consumed(nodes, done, p);
        lemma_walk_siblings_avoid_consumed(nodes, done, p + nodes[p].span, end);
        assert forall|k: int| 0 <= k < (first + rest).len() implies !consumed(
            nodes,
            done,
            (#[trigger] (first + rest)[k]).node() as int,
        ) by {
            if k < first.len() {
                assert((first + rest)[k] == first[k]);
            } else {
                assert((first + rest)[k] == rest[k - first.len()]);
            }
        }
    }
}

fn walk_into(tree: &Fragment, done: &Vec<bool>, i: usize, out: &mut Vec<Step>)
    requires
        tree.wf(),
        done@.len() == tree@.len(),
        i < tree@.len(),
    ensures
        final(out)@ == old(out)@ + walk(tree@, done@, i as int),
    decreases tree@[i as int].span,
{
    let node = tree.node(FragmentId(i));
    let ghost nodes = tree@;
    assert(nodes[i as int].span >= 1 && i + nodes[i as int].span <= nodes.len());
    if matches!(node.policy, Policy::Once) && done[i] {
        assert(out@ =~= old(out)@ + walk(nodes, done@, i as int));
        return ;
    }
    out.push(Step::Enter(i));
    if matches!(node.kind, Kind::Leaf(_)) {
        out.push(Step::Play(i));
        out.push(Step::Exit(i));
        assert(out@ =~= old(out)@ + walk(nodes, done@, i as int));
        return ;
    }
    let end = i + node.span;
    let mut p = i + 1;
    while p < end
        invariant
            tree.wf(),
            nodes == tree@,
            done@.len() == nodes.len(),
            i < p <= end,
            end == i + nodes[i as int].span,
            end <= nodes.len(),
            old(out)@ + seq![Step::Enter(i)] + walk_siblings(nodes, done@, i + 1, end as int)
                == out@ + walk_siblings(nodes, done@, p as int, end as int),
        decreases end - p,
    {
        let ghost before = out@;
        assert(nodes[p as int].span >= 1 && p + nodes[p as int].span <= end);
        walk_into(tree, done, p, out);
        let span = tree.node(FragmentId(p)).span;
        proof {
            assert(before + walk_siblings(nodes, done@, p as int, end as int) =~= out@
                + walk_siblings(nodes, done@, p + span, end as int));
        }
        p = p + span;
    }
    out.push(Step::Exit(i));
    proof {
        assert(walk_siblings(nodes, done@, p as int, end as int) =~= Seq::<Step>::empty());
        assert(out@ =~= old(out)@ + walk(nodes, done@, i as int));
    }
}

/// Lays out the pass over `tree` that `done` allows.
pub fn plan(tree: &Fragment, done: &Vec<bool>) -> (steps: Vec<Step>)
    requires
        tree.wf(),
        done@.len() == tree@.len(),
    ensures
        steps@ == itinerary(tree@, done@),
        fits(steps@, tree@),
{
    let mut steps: Vec<Step> = Vec::new();
    walk_into(tree, done, 0, &mut steps);
    proof {
        assert(steps@ =~= itinerary(tree@, done@));
        lemma_walk_fits(tree@, done@, 0);
    }
    steps
}

} // verus!
