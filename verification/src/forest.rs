//! When an arena is a forest: every node has a depth, the number of parent
//! links between it and a node without a parent. Re-parenting a node keeps
//! the arena a forest as long as the new parent does not hang below the
//! node, and depths are bounded by the size of the arena.

use crate::tree::{
    ancestor, attached, descends_from, in_arena, lemma_ancestor_via_parent, lemma_distinct_bounded,
    linked, NodeView,
};
use vstd::prelude::*;

verus! {

/// `depth` gives every parentless node zero and every other node one more
/// than its parent.
pub open spec fn ranked<T>(m: Seq<NodeView<T>>, depth: Seq<nat>) -> bool {
    &&& depth.len() == m.len()
    &&& forall|x: int|
        0 <= x < m.len() ==> match #[trigger] m[x].parent {
            Some(p) => p < m.len() && depth[x] == depth[p as int] + 1,
            None => depth[x] == 0,
        }
}

/// The arena is a forest: its parent links form no cycle.
pub open spec fn acyclic<T>(m: Seq<NodeView<T>>) -> bool {
    exists|depth: Seq<nat>| ranked(m, depth)
}

/// The depths after `child`, with all that hangs below it, has moved below
/// `parent`.
pub open spec fn shifted<T>(m: Seq<NodeView<T>>, depth: Seq<nat>, child: usize, parent: usize) -> Seq<
    nat,
> {
    Seq::new(
        m.len(),
        |x: int|
            if descends_from(m, x as usize, child) {
                (depth[x] + depth[parent as int] + 1 - depth[child as int]) as nat
            } else {
                depth[x]
            },
    )
}

/// The sum of what each node lacks to the depth `bound`.
pub open spec fn slack(depth: Seq<nat>, bound: nat) -> nat
    decreases depth.len(),
{
    if depth.len() == 0 {
        0
    } else {
        (slack(depth.drop_last(), bound) + bound - depth.last()) as nat
    }
}

/// Where no depth has shrunk and one has grown, all within `bound`, the
/// slack has shrunk.
pub proof fn lemma_slack_shrinks(before: Seq<nat>, after: Seq<nat>, bound: nat, grown: int)
    requires
        before.len() == after.len(),
        forall|i: int| 0 <= i < before.len() ==> before[i] <= #[trigger] after[i] <= bound,
        0 <= grown < before.len(),
        before[grown] < after[grown],
    ensures
        slack(after, bound) < slack(before, bound),
    decreases before.len(),
{
    lemma_slack_keeps(before.drop_last(), after.drop_last(), bound);
    if grown < before.len() - 1 {
        lemma_slack_shrinks(before.drop_last(), after.drop_last(), bound, grown);
    }
}

/// Where no depth has shrunk, all within `bound`, the slack has not grown.
pub proof fn lemma_slack_keeps(before: Seq<nat>, after: Seq<nat>, bound: nat)
    requires
        before.len() == after.len(),
        forall|i: int| 0 <= i < before.len() ==> before[i] <= #[trigger] after[i] <= bound,
    ensures
        slack(after, bound) <= slack(before, bound),
    decreases before.len(),
{
    if before.len() > 0 {
        lemma_slack_keeps(before.drop_last(), after.drop_last(), bound);
    }
}

/// A climb of `hops` links ends that many levels higher.
pub proof fn lemma_climb_depth<T>(m: Seq<NodeView<T>>, depth: Seq<nat>, node: usize, hops: nat)
    requires
        ranked(m, depth),
        node < m.len(),
    ensures
        ancestor(m, node, hops) matches Some(a) ==> a < m.len() && depth[a as int] + hops
            == depth[node as int],
    decreases hops,
{
    if hops > 0 {
        lemma_climb_depth(m, depth, node, (hops - 1) as nat);
        match ancestor(m, node, (hops - 1) as nat) {
            Some(a) => {
                assert(m[a as int].parent is Some ==> m[a as int].parent.unwrap() < m.len());
            },
            None => {},
        }
    }
}

/// A node of depth `d` has an ancestor at every distance up to `d`.
pub proof fn lemma_climb_exists<T>(m: Seq<NodeView<T>>, depth: Seq<nat>, node: usize, hops: nat)
    requires
        ranked(m, depth),
        node < m.len(),
        hops <= depth[node as int],
    ensures
        ancestor(m, node, hops) matches Some(a) && a < m.len() && depth[a as int] + hops
            == depth[node as int],
    decreases hops,
{
    if hops > 0 {
        lemma_climb_exists(m, depth, node, (hops - 1) as nat);
        let a = ancestor(m, node, (hops - 1) as nat).unwrap();
        assert(m[a as int].parent is Some);
    }
}

/// In a forest no node is deeper than the arena has other nodes.
pub proof fn lemma_depth_bounded<T>(m: Seq<NodeView<T>>, depth: Seq<nat>, node: usize)
    requires
        ranked(m, depth),
        node < m.len(),
    ensures
        depth[node as int] < m.len(),
{
    let d = depth[node as int];
    let chain = Seq::new(d + 1, |j: int| ancestor(m, node, j as nat).unwrap());
    assert forall|j: int| 0 <= j < chain.len() implies (#[trigger] chain[j]) < m.len()
        && depth[chain[j] as int] + j == d by {
        lemma_climb_exists(m, depth, node, j as nat);
    }
    assert(in_arena(chain, m.len()));
    assert(chain.no_duplicates());
    lemma_distinct_bounded(chain, m.len());
}

/// A forest has no node that is its own ancestor.
pub proof fn lemma_forest_off_cycle<T>(m: Seq<NodeView<T>>, node: usize)
    requires
        acyclic(m),
        node < m.len(),
    ensures
        crate::tree::off_cycle(m, node),
{
    let depth = choose|depth: Seq<nat>| ranked(m, depth);
    assert forall|hops: nat| hops >= 1 implies ancestor(m, node, hops) != Some(node) by {
        lemma_climb_depth(m, depth, node, hops);
    }
}

/// Two distinct nodes of one depth do not hang below one another, and no
/// node hangs below a deeper one.
pub proof fn lemma_not_below<T>(m: Seq<NodeView<T>>, depth: Seq<nat>, node: usize, other: usize)
    requires
        ranked(m, depth),
        node < m.len(),
        other < m.len(),
        node != other,
        depth[node as int] <= depth[other as int],
    ensures
        !descends_from(m, node, other),
{
    if descends_from(m, node, other) {
        let hops = choose|hops: nat| ancestor(m, node, hops) == Some(other);
        lemma_climb_depth(m, depth, node, hops);
    }
}

/// Re-parenting `child` below `parent`, which does not hang below `child`,
/// shifts the depths of `child` and of what hangs below it, and keeps the
/// arena a forest.
pub proof fn lemma_reparented_ranked<T>(
    m: Seq<NodeView<T>>,
    depth: Seq<nat>,
    after: Seq<NodeView<T>>,
    child: usize,
    parent: usize,
)
    requires
        ranked(m, depth),
        m.len() <= usize::MAX,
        after.len() == m.len(),
        child < m.len(),
        parent < m.len(),
        after[child as int].parent == Some(parent),
        forall|x: int| 0 <= x < m.len() && x != child ==> after[x].parent == m[x].parent,
        !descends_from(m, parent, child),
    ensures
        ranked(after, shifted(m, depth, child, parent)),
{
    let moved = shifted(m, depth, child, parent);
    assert(ancestor(m, child, 0) == Some(child));
    assert(descends_from(m, child, child));
    assert forall|x: int| 0 <= x < after.len() implies match #[trigger] after[x].parent {
        Some(p) => p < after.len() && moved[x] == moved[p as int] + 1,
        None => moved[x] == 0,
    } by {
        if x != child {
            assert(after[x].parent == m[x].parent);
            assert(x as usize == x);
            lemma_below_with_parent(m, depth, x as usize, child);
            match m[x].parent {
                Some(p) => {
                    assert(moved[p as int] == if descends_from(m, p, child) {
                        (depth[p as int] + depth[parent as int] + 1 - depth[child as int]) as nat
                    } else {
                        depth[p as int]
                    });
                    if p != child {
                        lemma_below_with_parent(m, depth, p, child);
                    }
                },
                None => {},
            }
        } else {
            assert(moved[parent as int] == depth[parent as int]);
        }
    }
}

/// A node other than `top` hangs below `top` exactly when its parent does;
/// without a parent it does not.
pub proof fn lemma_below_with_parent<T>(m: Seq<NodeView<T>>, depth: Seq<nat>, node: usize, top: usize)
    requires
        ranked(m, depth),
        node < m.len(),
        top < m.len(),
        node != top,
    ensures
        match m[node as int].parent {
            Some(p) => descends_from(m, node, top) == descends_from(m, p, top),
            None => !descends_from(m, node, top),
        },
        descends_from(m, node, top) ==> depth[node as int] >= depth[top as int],
{
    if descends_from(m, node, top) {
        let hops = choose|hops: nat| ancestor(m, node, hops) == Some(top);
        lemma_climb_depth(m, depth, node, hops);
        assert(hops > 0);
        match m[node as int].parent {
            Some(p) => {
                lemma_ancestor_via_parent(m, node, (hops - 1) as nat);
                assert(ancestor(m, p, (hops - 1) as nat) == Some(top));
            },
            None => {
                crate::tree::lemma_ancestor_ends(m, node, 0, hops);
            },
        }
    }
    match m[node as int].parent {
        Some(p) => {
            if descends_from(m, p, top) {
                let hops = choose|hops: nat| ancestor(m, p, hops) == Some(top);
                lemma_ancestor_via_parent(m, node, hops);
                assert(ancestor(m, node, hops + 1) == Some(top));
            }
        },
        None => {},
    }
}

/// Where `parent` adopts `child` and does not hang below it, the arena
/// stays a forest with the shifted depths, child lists and parent links
/// still agree, no payload changes, and only `child` has a new parent.
pub proof fn lemma_adopted_ranked<T>(
    m: Seq<NodeView<T>>,
    depth: Seq<nat>,
    parent: usize,
    child: usize,
)
    requires
        linked(m),
        ranked(m, depth),
        m.len() <= usize::MAX,
        child < m.len(),
        parent < m.len(),
        !descends_from(m, parent, child),
    ensures
        ({
            let a = attached(m, child, parent);
            let moved = shifted(m, depth, child, parent);
            &&& a.len() == m.len()
            &&& linked(a)
            &&& ranked(a, moved)
            &&& a[child as int].parent == Some(parent)
            &&& moved[child as int] == depth[parent as int] + 1
            &&& forall|i: int| 0 <= i < m.len() ==> (#[trigger] a[i]).value == m[i].value
            &&& forall|i: int| 0 <= i < m.len() && i != child ==> (#[trigger] a[i]).parent == m[i].parent
            &&& forall|i: int|
                0 <= i < m.len() && i != parent ==> (#[trigger] a[i]).children.len()
                    <= m[i].children.len()
            &&& forall|i: int| 0 <= i < m.len() ==> (#[trigger] moved[i]) < m.len()
        }),
{
    crate::tree::lemma_adopted_is_child(m, parent, child);
    let a = attached(m, child, parent);
    let moved = shifted(m, depth, child, parent);
    lemma_reparented_ranked(m, depth, a, child, parent);
    assert(ancestor(m, child, 0) == Some(child));
    assert(descends_from(m, child, child));
    assert forall|i: int| 0 <= i < m.len() implies (#[trigger] moved[i]) < m.len() by {
        lemma_depth_bounded(a, moved, i as usize);
    }
}

} // verus!
