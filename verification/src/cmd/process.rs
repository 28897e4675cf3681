//! The builders of the containment forest. The shapes are the payloads of
//! the nodes of an arena, each with its index; a builder adds a virtual
//! root, whose index is negative, and re-parents the nodes below it.

use crate::cmd::mirror::{copied, copyable, mirror, scattered};
use crate::cmd::repair::{lemma_mended_forest, mend, mended_upto};
use crate::forest::{
    acyclic, lemma_adopted_ranked, lemma_climb_exists, lemma_depth_bounded,
    lemma_forest_off_cycle, lemma_not_below, lemma_slack_shrinks, ranked, shifted, slack,
};
use crate::geo::Container;
use crate::tree::{
    ancestor, attached, breadth_first, descends_from, in_arena, lemma_ancestor_ends,
    lemma_pushed_linked, linked, model, Node, NodeView,
};
use std::collections::VecDeque;
use vstd::prelude::*;

verus! {

/// Every node that has a parent hangs below a virtual root or below a shape
/// that contains its own.
pub open spec fn nested<T: Container>(m: Seq<NodeView<(isize, T)>>) -> bool {
    forall|c: int|
        0 <= c < m.len() ==> match #[trigger] m[c].parent {
            Some(p) => m[p as int].value.0 < 0 || m[p as int].value.1.encloses(&m[c].value.1),
            None => true,
        }
}

/// The payloads of `before` are those of the first nodes of `after`.
pub open spec fn same_values<T>(before: Seq<NodeView<T>>, after: Seq<NodeView<T>>) -> bool {
    &&& before.len() <= after.len()
    &&& forall|i: int| 0 <= i < before.len() ==> (#[trigger] after[i]).value == before[i].value
}

/// The first child of `parent`, in child-list order, that is neither `node`
/// nor `skip` and whose shape contains that of `node`, looking at the slots
/// from `from` on.
pub open spec fn first_container<T: Container>(
    m: Seq<NodeView<(isize, T)>>,
    parent: usize,
    node: usize,
    skip: usize,
    from: int,
) -> Option<usize>
    decreases m[parent as int].children.len() - from,
{
    let list = m[parent as int].children;
    if from < 0 || from >= list.len() {
        None
    } else if list[from] != node && list[from] != skip && m[list[from] as int].value.1.encloses(
        &m[node as int].value.1,
    ) {
        Some(list[from])
    } else {
        first_container(m, parent, node, skip, from + 1)
    }
}

/// Looks among the children of `parent`, `node` and `skip` left out, for the
/// first whose shape contains that of `node`.
pub fn find_below<T: Container>(
    nodes: &Vec<Node<(isize, T)>>,
    parent: usize,
    node: usize,
    skip: usize,
) -> (found: Option<usize>)
    requires
        linked(model(nodes@)),
        node < nodes.len(),
        parent < nodes.len(),
    ensures
        found == first_container(model(nodes@), parent, node, skip, 0),
        found matches Some(b) ==> {
            &&& b < nodes.len()
            &&& b != node
            &&& b != skip
            &&& nodes[b as int]@.parent == Some(parent)
            &&& nodes[b as int]@.value.1.encloses(&nodes[node as int]@.value.1)
        },
{
    let ghost m = model(nodes@);
    let brothers = nodes[parent].children();
    proof {
        assert(m[parent as int] == nodes[parent as int]@);
    }
    let mut k: usize = 0;
    while k < brothers.len()
        invariant
            m == model(nodes@),
            linked(m),
            node < nodes.len(),
            parent < nodes.len(),
            k <= brothers.len(),
            brothers@ == m[parent as int].children,
            first_container(m, parent, node, skip, 0) == first_container(
                m,
                parent,
                node,
                skip,
                k as int,
            ),
        decreases brothers.len() - k,
    {
        let brother = brothers[k];
        proof {
            assert(m[parent as int].children[k as int] < m.len());
            assert(m[m[parent as int].children[k as int] as int].parent == Some(parent));
            assert(m[brother as int] == nodes[brother as int]@);
            assert(m[node as int] == nodes[node as int]@);
        }
        if brother != node && brother != skip && nodes[brother].value().1.contains(
            &nodes[node].value().1,
        ) {
            return Some(brother);
        }
        k += 1;
    }
    None
}

/// Looks among the siblings of `node`, `skip` left out, for the first whose
/// shape contains that of `node`.
pub fn find_container<T: Container>(nodes: &Vec<Node<(isize, T)>>, node: usize, skip: usize) -> (found:
    Option<usize>)
    requires
        linked(model(nodes@)),
        node < nodes.len(),
        nodes[node as int]@.parent is Some,
    ensures
        found == first_container(model(nodes@), nodes[node as int]@.parent.unwrap(), node, skip, 0),
        found matches Some(b) ==> {
            &&& b < nodes.len()
            &&& b != node
            &&& b != skip
            &&& nodes[b as int]@.parent == nodes[node as int]@.parent
            &&& nodes[b as int]@.value.1.encloses(&nodes[node as int]@.value.1)
        },
{
    proof {
        assert(model(nodes@)[node as int].parent == nodes[node as int]@.parent);
    }
    let parent = nodes[node].parent().unwrap();
    find_below(nodes, parent, node, skip)
}

/// The arena after one placement step on `node`: where a sibling's shape
/// contains that of `node`, the first such sibling has adopted `node`;
/// otherwise nothing has changed.
pub open spec fn placed<T: Container>(m: Seq<NodeView<(isize, T)>>, node: usize) -> Seq<
    NodeView<(isize, T)>,
> {
    match step_target(m, node) {
        Some(b) => attached(m, node, b),
        None => m,
    }
}

/// The sibling that adopts `node` in a placement step, if any does.
pub open spec fn step_target<T: Container>(m: Seq<NodeView<(isize, T)>>, node: usize) -> Option<
    usize,
> {
    match m[node as int].parent {
        Some(p) => first_container(m, p, node, node, 0),
        None => None,
    }
}

/// One placement step: `node` moves below the first of its siblings whose
/// shape contains its own, if there is one. Says whether it moved.
pub fn place<T: Container>(nodes: &mut Vec<Node<(isize, T)>>, node: usize) -> (moved: bool)
    requires
        linked(model(old(nodes)@)),
        node < old(nodes).len(),
    ensures
        model(final(nodes)@) == placed(model(old(nodes)@), node),
        moved == step_target(model(old(nodes)@), node) is Some,
        linked(model(final(nodes)@)),
        final(nodes).len() == old(nodes).len(),
{
    proof {
        assert(model(nodes@)[node as int].parent == nodes[node as int]@.parent);
    }
    if nodes[node].is_root() {
        return false;
    }
    match find_container(nodes, node, node) {
        Some(brother) => {
            Node::adopt(nodes, brother, node);
            true
        },
        None => false,
    }
}

/// What the first container is: a sibling of `node`, not `node` itself,
/// whose shape contains that of `node`.
pub proof fn lemma_first_container<T: Container>(
    m: Seq<NodeView<(isize, T)>>,
    parent: usize,
    node: usize,
    skip: usize,
    from: int,
)
    requires
        linked(m),
        parent < m.len(),
        0 <= from,
    ensures
        first_container(m, parent, node, skip, from) matches Some(b) ==> {
            &&& b < m.len()
            &&& b != node
            &&& b != skip
            &&& m[b as int].parent == Some(parent)
            &&& m[b as int].value.1.encloses(&m[node as int].value.1)
        },
    decreases m[parent as int].children.len() - from,
{
    let list = m[parent as int].children;
    if from < list.len() {
        assert(m[parent as int].children[from] < m.len());
        assert(m[m[parent as int].children[from] as int].parent == Some(parent));
        lemma_first_container(m, parent, node, skip, from + 1);
    }
}

/// A node without a parent hangs below no other node.
pub proof fn lemma_root_not_below<T>(m: Seq<NodeView<T>>, root: usize, other: usize)
    requires
        m[root as int].parent is None,
        root != other,
    ensures
        !descends_from(m, root, other),
{
    if descends_from(m, root, other) {
        let hops = choose|hops: nat| ancestor(m, root, hops) == Some(other);
        assert(ancestor(m, root, 0) == Some(root));
        if hops > 0 {
            lemma_ancestor_ends(m, root, 0, hops);
        }
    }
}

/// The depths after a placement step on `node`.
pub open spec fn placed_depth<T: Container>(
    m: Seq<NodeView<(isize, T)>>,
    depth: Seq<nat>,
    node: usize,
) -> Seq<nat> {
    match step_target(m, node) {
        Some(b) => shifted(m, depth, node, b),
        None => depth,
    }
}

/// A placement step keeps a nested forest a nested forest, changes no
/// payload and no parent link but that of `node`, which keeps having a
/// parent, and where the node moves it takes from the slack.
pub proof fn lemma_placed<T: Container>(
    m: Seq<NodeView<(isize, T)>>,
    depth: Seq<nat>,
    node: usize,
)
    requires
        linked(m),
        ranked(m, depth),
        nested(m),
        m.len() <= usize::MAX,
        node < m.len(),
    ensures
        ({
            let a = placed(m, node);
            let moved = placed_depth(m, depth, node);
            &&& a.len() == m.len()
            &&& linked(a)
            &&& ranked(a, moved)
            &&& nested(a)
            &&& forall|i: int| 0 <= i < m.len() ==> (#[trigger] a[i]).value == m[i].value
            &&& forall|i: int| 0 <= i < m.len() && i != node ==> (#[trigger] a[i]).parent == m[i].parent
            &&& m[node as int].parent is Some ==> a[node as int].parent is Some
            &&& m[node as int].parent is None ==> a == m
            &&& forall|i: int|
                0 <= i < m.len() && m[i].parent is None ==> (#[trigger] a[i]).children.len()
                    <= m[i].children.len()
            &&& step_target(m, node) is Some ==> slack(moved, m.len()) < slack(depth, m.len())
            &&& step_target(m, node) is None ==> a == m && moved == depth
        }),
{
    match step_target(m, node) {
        Some(b) => {
            let p = m[node as int].parent.unwrap();
            assert(m[node as int].parent == Some(p));
            lemma_first_container(m, p, node, node, 0);
            assert(m[b as int].parent == Some(p));
            lemma_not_below(m, depth, b, node);
            lemma_adopted_ranked(m, depth, b, node);
            let a = attached(m, node, b);
            let moved = shifted(m, depth, node, b);
            assert forall|i: int| 0 <= i < m.len() implies depth[i] <= #[trigger] moved[i]
                <= m.len() by {
                lemma_depth_bounded(m, depth, i as usize);
            }
            lemma_slack_shrinks(depth, moved, m.len(), node as int);
            assert forall|c: int| 0 <= c < a.len() implies match #[trigger] a[c].parent {
                Some(q) => a[q as int].value.0 < 0 || a[q as int].value.1.encloses(&a[c].value.1),
                None => true,
            } by {
                if c != node {
                    assert(a[c].parent == m[c].parent);
                    assert(a[c].value == m[c].value);
                    match m[c].parent {
                        Some(q) => {
                            assert(a[q as int].value == m[q as int].value);
                        },
                        None => {},
                    }
                } else {
                    assert(a[b as int].value == m[b as int].value);
                    assert(a[node as int].value == m[node as int].value);
                }
            }
        },
        None => {},
    }
}

/// A fresh node at the end of a nested forest leaves it a nested forest.
pub proof fn lemma_fresh_node<T: Container>(
    m: Seq<NodeView<(isize, T)>>,
    depth: Seq<nat>,
    fresh: NodeView<(isize, T)>,
)
    requires
        linked(m),
        ranked(m, depth),
        nested(m),
        fresh.parent is None,
        fresh.children.len() == 0,
    ensures
        linked(m.push(fresh)),
        ranked(m.push(fresh), depth.push(0)),
        nested(m.push(fresh)),
{
    let a = m.push(fresh);
    lemma_pushed_linked(m, fresh);
    assert forall|x: int| 0 <= x < a.len() implies match #[trigger] a[x].parent {
        Some(p) => p < a.len() && depth.push(0)[x] == depth.push(0)[p as int] + 1,
        None => depth.push(0)[x] == 0,
    } by {
        if x < m.len() {
            assert(a[x].parent == m[x].parent);
        }
    }
    assert forall|c: int| 0 <= c < a.len() implies match #[trigger] a[c].parent {
        Some(p) => a[p as int].value.0 < 0 || a[p as int].value.1.encloses(&a[c].value.1),
        None => true,
    } by {
        if c < m.len() {
            assert(a[c].parent == m[c].parent);
        }
    }
}

/// Where a virtual root without a parent adopts a node, a nested forest
/// stays one; no payload changes, and no parent link but the node's.
pub proof fn lemma_root_adopts<T: Container>(
    m: Seq<NodeView<(isize, T)>>,
    depth: Seq<nat>,
    root: usize,
    node: usize,
)
    requires
        linked(m),
        ranked(m, depth),
        nested(m),
        m.len() <= usize::MAX,
        root < m.len(),
        node < m.len(),
        root != node,
        m[root as int].parent is None,
        m[root as int].value.0 < 0,
    ensures
        ({
            let a = attached(m, node, root);
            &&& a.len() == m.len()
            &&& linked(a)
            &&& ranked(a, shifted(m, depth, node, root))
            &&& nested(a)
            &&& a[node as int].parent == Some(root)
            &&& forall|i: int| 0 <= i < m.len() ==> (#[trigger] a[i]).value == m[i].value
            &&& forall|i: int| 0 <= i < m.len() && i != node ==> (#[trigger] a[i]).parent == m[i].parent
            &&& forall|i: int|
                0 <= i < m.len() && i != root ==> (#[trigger] a[i]).children.len()
                    <= m[i].children.len()
        }),
{
    lemma_root_not_below(m, root, node);
    lemma_adopted_ranked(m, depth, root, node);
    let a = attached(m, node, root);
    assert forall|c: int| 0 <= c < a.len() implies match #[trigger] a[c].parent {
        Some(q) => a[q as int].value.0 < 0 || a[q as int].value.1.encloses(&a[c].value.1),
        None => true,
    } by {
        if c != node {
            assert(a[c].parent == m[c].parent);
            assert(a[c].value == m[c].value);
            match m[c].parent {
                Some(q) => {
                    assert(a[q as int].value == m[q as int].value);
                },
                None => {},
            }
        } else {
            assert(a[root as int].value == m[root as int].value);
        }
    }
}

/// The arena after `root` has adopted the first `upto` of `ids`, one after
/// the other.
pub open spec fn rooted<T>(m: Seq<NodeView<T>>, root: usize, ids: Seq<usize>, upto: nat) -> Seq<
    NodeView<T>,
>
    decreases upto,
{
    if upto == 0 {
        m
    } else {
        attached(rooted(m, root, ids, (upto - 1) as nat), ids[upto - 1], root)
    }
}

/// One turn of the sinking: the node at the front of the queue takes a
/// placement step and, if it moved, goes to the end of the queue. With an
/// empty queue nothing happens.
pub open spec fn sink_step<T: Container>(state: (Seq<NodeView<(isize, T)>>, Seq<usize>)) -> (
    Seq<NodeView<(isize, T)>>,
    Seq<usize>,
) {
    let (m, queue) = state;
    if queue.len() == 0 {
        state
    } else if step_target(m, queue[0]) is Some {
        (placed(m, queue[0]), queue.skip(1).push(queue[0]))
    } else {
        (placed(m, queue[0]), queue.skip(1))
    }
}

/// The arena and the queue after `turns` turns of the sinking.
pub open spec fn sunk<T: Container>(m: Seq<NodeView<(isize, T)>>, queue: Seq<usize>, turns: nat) -> (
    Seq<NodeView<(isize, T)>>,
    Seq<usize>,
)
    decreases turns,
{
    if turns == 0 {
        (m, queue)
    } else {
        sink_step(sunk(m, queue, (turns - 1) as nat))
    }
}

/// `after` is what the sinking makes of `before`: a new virtual root with
/// `root_value` adopts the nodes of `ids` in turn, and then the turns of the
/// sinking, with `ids` as the first queue, have emptied the queue.
pub open spec fn settled<T: Container>(
    before: Seq<NodeView<(isize, T)>>,
    ids: Seq<usize>,
    root_value: T,
    after: Seq<NodeView<(isize, T)>>,
) -> bool {
    let root = before.len() as usize;
    let fresh = NodeView {
        children: Seq::<usize>::empty(),
        index: 0,
        parent: None,
        value: (-1isize, root_value),
    };
    exists|turns: nat|
        #[trigger] sunk(rooted(before.push(fresh), root, ids, ids.len()), ids, turns) == (
            after,
            Seq::<usize>::empty(),
        )
}

/// Once the queue is empty, further turns change nothing.
pub proof fn lemma_sunk_stays<T: Container>(
    m: Seq<NodeView<(isize, T)>>,
    queue: Seq<usize>,
    turns: nat,
    more: nat,
)
    requires
        sunk(m, queue, turns).1.len() == 0,
    ensures
        sunk(m, queue, turns + more) == sunk(m, queue, turns),
    decreases more,
{
    if more > 0 {
        lemma_sunk_stays(m, queue, turns, (more - 1) as nat);
    }
}

/// The sinking has one outcome.
pub proof fn lemma_settled_unique<T: Container>(
    before: Seq<NodeView<(isize, T)>>,
    ids: Seq<usize>,
    root_value: T,
    one: Seq<NodeView<(isize, T)>>,
    other: Seq<NodeView<(isize, T)>>,
)
    requires
        settled(before, ids, root_value, one),
        settled(before, ids, root_value, other),
    ensures
        one == other,
{
    let root = before.len() as usize;
    let fresh = NodeView {
        children: Seq::<usize>::empty(),
        index: 0,
        parent: None,
        value: (-1isize, root_value),
    };
    let hung = rooted(before.push(fresh), root, ids, ids.len());
    let s = choose|turns: nat| #[trigger] sunk(hung, ids, turns) == (one, Seq::<usize>::empty());
    let t = choose|turns: nat| #[trigger] sunk(hung, ids, turns) == (other, Seq::<usize>::empty());
    if s <= t {
        lemma_sunk_stays(hung, ids, s, (t - s) as nat);
    } else {
        lemma_sunk_stays(hung, ids, t, (s - t) as nat);
    }
}

/// Hangs the nodes named by `ids` below a new virtual root, which carries
/// `root_value` and the index -1, and then lets each of them sink: a node is
/// taken from the front of a queue, moves below the first of its siblings
/// whose shape contains its own, and goes back to the end of the queue; a
/// node that no sibling contains stays and leaves the queue. Returns the
/// position of the root.
pub fn build_tree_from_polygons<T: Container>(
    nodes: &mut Vec<Node<(isize, T)>>,
    ids: &Vec<usize>,
    root_value: T,
) -> (root: usize)
    requires
        linked(model(old(nodes)@)),
        acyclic(model(old(nodes)@)),
        nested(model(old(nodes)@)),
        in_arena(ids@, old(nodes)@.len()),
    ensures
        root == old(nodes).len(),
        final(nodes).len() == root + 1,
        linked(model(final(nodes)@)),
        acyclic(model(final(nodes)@)),
        nested(model(final(nodes)@)),
        same_values(model(old(nodes)@), model(final(nodes)@)),
        final(nodes)[root as int]@.parent is None,
        final(nodes)[root as int]@.value == (-1isize, root_value),
        forall|j: int| 0 <= j < ids.len() ==> final(nodes)[#[trigger] ids[j] as int]@.parent is Some,
        forall|x: int|
            0 <= x < root && !ids@.contains(x as usize) ==> (#[trigger] final(nodes)[x])@.parent
                == old(nodes)[x]@.parent,
        forall|x: int|
            0 <= x < root && !ids@.contains(x as usize) && old(nodes)[x]@.parent is None ==> (
            #[trigger] final(nodes)[x])@.children.len() <= old(nodes)[x]@.children.len(),
        settled(model(old(nodes)@), ids@, root_value, model(final(nodes)@)),
{
    let ghost before = model(nodes@);
    let ghost mut depth: Seq<nat> = choose|depth: Seq<nat>| ranked(before, depth);
    let root = nodes.len();
    let fresh = Node::new((-1isize, root_value));
    proof {
        lemma_fresh_node(before, depth, fresh@);
        depth = depth.push(0);
    }
    nodes.push(fresh);
    assert(model(nodes@) =~= before.push(fresh@));
    let ghost planted = model(nodes@);
    let mut placement_queue: VecDeque<usize> = VecDeque::new();
    let mut j: usize = 0;
    while j < ids.len()
        invariant
            j <= ids.len(),
            root == before.len(),
            nodes.len() == root + 1,
            in_arena(ids@, before.len()),
            linked(model(nodes@)),
            ranked(model(nodes@), depth),
            nested(model(nodes@)),
            same_values(before, model(nodes@)),
            nodes[root as int]@.parent is None,
            nodes[root as int]@.value == (-1isize, root_value),
            placement_queue@ == ids@.take(j as int),
            model(nodes@) == rooted(planted, root, ids@, j as nat),
            forall|i: int| 0 <= i < j ==> nodes[#[trigger] ids[i] as int]@.parent is Some,
            forall|x: int|
                0 <= x < root && !ids@.contains(x as usize) ==> (#[trigger] nodes[x])@.parent
                    == before[x].parent,
            forall|x: int|
                0 <= x < root && !ids@.contains(x as usize) && before[x].parent is None ==> (
                #[trigger] nodes[x])@.children.len() <= before[x].children.len(),
        decreases ids.len() - j,
    {
        let id = ids[j];
        let ghost m = model(nodes@);
        proof {
            assert(m[root as int] == nodes[root as int]@);
            lemma_root_adopts(m, depth, root, id);
            depth = shifted(m, depth, id, root);
        }
        Node::adopt(nodes, root, id);
        placement_queue.push_back(id);
        proof {
            let a = model(nodes@);
            assert(ids@.take(j + 1) =~= ids@.take(j as int).push(id));
            assert(a[root as int] == nodes[root as int]@);
            assert forall|i: int| 0 <= i < j + 1 implies nodes[#[trigger] ids[i] as int]@.parent is Some by {
                assert(a[ids[i] as int] == nodes[ids[i] as int]@);
                if ids[i] != id {
                    assert(a[ids[i] as int].parent == m[ids[i] as int].parent);
                }
            }
            assert forall|x: int| 0 <= x < root && !ids@.contains(x as usize) implies (#[trigger] nodes[x])@.parent
                == before[x].parent by {
                assert(ids@[j as int] == id);
                assert(x != id);
                assert(a[x] == nodes[x]@);
                assert(a[x].parent == m[x].parent);
            }
            assert forall|x: int|
                0 <= x < root && !ids@.contains(x as usize) && before[x].parent is None implies (
            #[trigger] nodes[x])@.children.len() <= before[x].children.len() by {
                assert(a[x] == nodes[x]@);
                assert(a[x].children.len() <= m[x].children.len());
            }
            assert forall|i: int| 0 <= i < before.len() implies (#[trigger] a[i]).value
                == before[i].value by {
                assert(a[i].value == m[i].value);
            }
        }
        j += 1;
    }
    assert(placement_queue@ =~= ids@);
    let ghost hung = model(nodes@);
    let ghost mut turns: nat = 0;
    loop
        invariant
            sunk(hung, ids@, turns) == (model(nodes@), placement_queue@),
            root == before.len(),
            nodes.len() == root + 1,
            in_arena(ids@, before.len()),
            linked(model(nodes@)),
            ranked(model(nodes@), depth),
            nested(model(nodes@)),
            same_values(before, model(nodes@)),
            nodes[root as int]@.parent is None,
            nodes[root as int]@.value == (-1isize, root_value),
            forall|i: int| 0 <= i < placement_queue@.len() ==> ids@.contains(#[trigger] placement_queue@[i]),
            forall|i: int| 0 <= i < ids.len() ==> nodes[#[trigger] ids[i] as int]@.parent is Some,
            forall|x: int|
                0 <= x < root && !ids@.contains(x as usize) ==> (#[trigger] nodes[x])@.parent
                    == before[x].parent,
            forall|x: int|
                0 <= x < root && !ids@.contains(x as usize) && before[x].parent is None ==> (
                #[trigger] nodes[x])@.children.len() <= before[x].children.len(),
        ensures
            placement_queue@.len() == 0,
        decreases slack(depth, nodes@.len()), placement_queue@.len(),
    {
        let ghost m = model(nodes@);
        let ghost waiting = placement_queue@;
        match placement_queue.pop_front() {
            Some(selected) => {
                proof {
                    assert(ids@.contains(waiting[0]));
                    assert(m[selected as int] == nodes[selected as int]@);
                    assert(m[root as int] == nodes[root as int]@);
                    lemma_placed(m, depth, selected);
                }
                let moved = place(nodes, selected);
                if moved {
                    placement_queue.push_back(selected);
                }
                proof {
                    let a = model(nodes@);
                    depth = placed_depth(m, depth, selected);
                    turns = turns + 1;
                    assert(waiting[0] == selected);
                    assert(sink_step((m, waiting)) == (a, placement_queue@));
                    assert(a[root as int] == nodes[root as int]@);
                    assert forall|i: int| 0 <= i < placement_queue@.len() implies ids@.contains(
                        #[trigger] placement_queue@[i],
                    ) by {
                        if i < waiting.len() - 1 {
                            assert(placement_queue@[i] == waiting[i + 1]);
                        }
                    }
                    assert forall|i: int| 0 <= i < ids.len() implies nodes[#[trigger] ids[i] as int]@.parent is Some by {
                        assert(a[ids[i] as int] == nodes[ids[i] as int]@);
                        assert(m[ids[i] as int].parent is Some);
                        if ids[i] != selected {
                            assert(a[ids[i] as int].parent == m[ids[i] as int].parent);
                        }
                    }
                    assert forall|x: int| 0 <= x < root && !ids@.contains(x as usize) implies (
                    #[trigger] nodes[x])@.parent == before[x].parent by {
                        assert(x != selected);
                        assert(a[x] == nodes[x]@);
                        assert(a[x].parent == m[x].parent);
                    }
                    assert forall|x: int|
                        0 <= x < root && !ids@.contains(x as usize) && before[x].parent is None implies (
                    #[trigger] nodes[x])@.children.len() <= before[x].children.len() by {
                        assert(a[x] == nodes[x]@);
                        assert(m[x].parent is None);
                        assert(a[x].children.len() <= m[x].children.len());
                    }
                    assert forall|i: int| 0 <= i < before.len() implies (#[trigger] a[i]).value
                        == before[i].value by {
                        assert(a[i].value == m[i].value);
                    }
                }
            },
            None => {
                break ;
            },
        }
    }
    proof {
        let seed = NodeView {
            children: Seq::<usize>::empty(),
            index: 0,
            parent: None,
            value: (-1isize, root_value),
        };
        assert(placement_queue@ =~= Seq::<usize>::empty());
        assert(planted == before.push(seed));
        assert(before.len() as usize == root);
        assert(hung == rooted(before.push(seed), root, ids@, ids@.len()));
        assert(sunk(rooted(before.push(seed), root, ids@, ids@.len()), ids@, turns) == (
            model(nodes@),
            Seq::<usize>::empty(),
        ));
    }
    root
}

/// The naive builder: every node of the arena is hung below a new virtual
/// root and then sinks as far as its siblings take it. Returns the position
/// of the root, which is the last node of the arena.
pub fn process_naive<T: Container + Default>(nodes: &mut Vec<Node<(isize, T)>>) -> (root: usize)
    requires
        linked(model(old(nodes)@)),
        acyclic(model(old(nodes)@)),
        nested(model(old(nodes)@)),
    ensures
        root == old(nodes).len(),
        final(nodes).len() == root + 1,
        linked(model(final(nodes)@)),
        acyclic(model(final(nodes)@)),
        nested(model(final(nodes)@)),
        same_values(model(old(nodes)@), model(final(nodes)@)),
        final(nodes)[root as int]@.parent is None,
        final(nodes)[root as int]@.value.0 == -1,
        forall|x: int| 0 <= x < root ==> (#[trigger] final(nodes)[x])@.parent is Some,
        forall|x: usize| x < root ==> #[trigger] descends_from(model(final(nodes)@), x, root),
        settled(
            model(old(nodes)@),
            positions(old(nodes)@.len()),
            final(nodes)[root as int]@.value.1,
            model(final(nodes)@),
        ),
{
    let ids = all_ids(nodes.len());
    let root_value = T::default();
    proof {
        assert(ids@ =~= positions(nodes@.len()));
    }
    let root = build_tree_from_polygons(nodes, &ids, root_value);
    proof {
        assert forall|x: int| 0 <= x < root implies (#[trigger] nodes[x])@.parent is Some by {
            assert(ids[x] == x);
        }
        lemma_hang_below_root(model(nodes@), nodes@, root);
    }
    root
}

/// Where every node of a forest but the last has a parent, every node hangs
/// below the last.
pub proof fn lemma_hang_below_root<T>(m: Seq<NodeView<T>>, nodes: Seq<Node<T>>, root: usize)
    requires
        m == model(nodes),
        acyclic(m),
        nodes.len() == root + 1,
        forall|x: int| 0 <= x < root ==> (#[trigger] nodes[x])@.parent is Some,
    ensures
        forall|x: usize| x < root ==> #[trigger] descends_from(m, x, root),
{
    assert forall|x: int| 0 <= x < m.len() && x != root implies (#[trigger] m[x].parent) is Some by {
        assert(m[x] == nodes[x]@);
    }
    assert forall|x: usize| x < root implies #[trigger] descends_from(m, x, root) by {
        lemma_all_below_root(m, root, x);
    }
}

/// The positions of an arena of `len` nodes, in order.
pub open spec fn positions(len: nat) -> Seq<usize> {
    Seq::new(len, |i: int| i as usize)
}

/// The positions `0`, `1`, ... up to `len`, in that order.
pub fn all_ids(len: usize) -> (ids: Vec<usize>)
    ensures
        ids@ == positions(len as nat),
        ids@.len() == len,
        forall|i: int| 0 <= i < len ==> ids@[i] == i,
{
    let mut ids: Vec<usize> = Vec::new();
    let mut i: usize = 0;
    while i < len
        invariant
            i <= len,
            ids@.len() == i,
            forall|k: int| 0 <= k < i ==> ids@[k] == k,
        decreases len - i,
    {
        ids.push(i);
        i += 1;
    }
    proof {
        assert(ids@ =~= positions(len as nat));
    }
    ids
}

/// In a forest whose only parentless node is `root`, every node hangs below
/// `root`.
pub proof fn lemma_all_below_root<T>(m: Seq<NodeView<T>>, root: usize, node: usize)
    requires
        acyclic(m),
        root < m.len(),
        node < m.len(),
        forall|x: int| 0 <= x < m.len() && x != root ==> (#[trigger] m[x].parent) is Some,
    ensures
        descends_from(m, node, root),
{
    let depth = choose|depth: Seq<nat>| ranked(m, depth);
    lemma_climb_exists(m, depth, node, depth[node as int]);
    let top = ancestor(m, node, depth[node as int]).unwrap();
    assert(m[top as int].parent is Some ==> depth[top as int] > 0);
}

/// `after` is what copying and mending make of the fresh nodes `before`:
/// some arena `copy` holds the copy of the forest of frames below `from`,
/// with the payloads of `before` and a new root with `root_value`, and
/// `after` is `copy` with the nodes of its breadth-first order, but for the
/// root, mended in turn.
pub open spec fn transposed<R, T: Container>(
    fm: Seq<NodeView<R>>,
    before: Seq<NodeView<(isize, T)>>,
    from: usize,
    root_value: T,
    after: Seq<NodeView<(isize, T)>>,
) -> bool {
    let root = before.len() as usize;
    exists|copy: Seq<NodeView<(isize, T)>>, order: Seq<usize>|
        #![trigger mended_upto(copy, root, order, order.len())]
        {
            &&& copy.len() == before.len() + 1
            &&& copied(fm, copy, from)
            &&& linked(copy)
            &&& same_values(before, copy)
            &&& copy[root as int].value == (-1isize, root_value)
            &&& copy[root as int].index == 0
            &&& forall|x: int|
                0 <= x < before.len() && copy[x].parent is None ==> (#[trigger] copy[x]).index
                    == before[x].index
            &&& breadth_first(copy, root, order)
            &&& after == mended_upto(copy, root, order, order.len())
        }
}

/// Copies the forest of frames below `from` onto the fresh nodes of `nodes`
/// (see `mirror`) and then mends the copy: its nodes, but for the new root,
/// are taken in the breadth-first order of the copy, and each is mended once
/// (see `mend`). Returns the position of the new root.
pub fn transpose_rec_to_any<R, T: Container>(
    frames: &Vec<Node<(isize, R)>>,
    nodes: &mut Vec<Node<(isize, T)>>,
    from: usize,
    root_value: T,
) -> (root: usize)
    requires
        copyable(model(frames@), old(nodes)@.len(), from),
        scattered(model(old(nodes)@)),
    ensures
        root == old(nodes).len(),
        final(nodes).len() == root + 1,
        linked(model(final(nodes)@)),
        acyclic(model(final(nodes)@)),
        same_values(model(old(nodes)@), model(final(nodes)@)),
        final(nodes)[root as int]@.parent is None,
        final(nodes)[root as int]@.value == (-1isize, root_value),
        forall|x: int|
            0 <= x < root ==> ((#[trigger] final(nodes)[x])@.parent is Some <==> frames[x]@.parent is Some
                && descends_from(model(frames@), x as usize, from)),
        transposed(model(frames@), model(old(nodes)@), from, root_value, model(final(nodes)@)),
{
    let ghost fm = model(frames@);
    let ghost before = model(nodes@);
    let root = mirror(frames, nodes, from, root_value);
    let ghost copy = model(nodes@);
    proof {
        lemma_forest_off_cycle(copy, root);
        assert(copy[root as int] == nodes[root as int]@);
        assert forall|x: int| 0 <= x < root implies (#[trigger] nodes[x])@.parent is Some
            <==> frames[x]@.parent is Some && descends_from(fm, x as usize, from) by {
            assert(copy[x] == nodes[x]@);
            assert(fm[x] == frames[x]@);
            assert(copy[x].parent == match fm[x].parent {
                Some(p) => if descends_from(fm, x as usize, from) {
                    Some(crate::cmd::mirror::image(p, from, root))
                } else {
                    None
                },
                None => None,
            });
        }
        assert forall|x: int| 0 <= x < root implies (#[trigger] copy[x]).value == before[x].value by {
            assert(copy[x] == nodes[x]@);
            assert(before[x] == old(nodes)[x]@);
        }
    }
    let order = Node::bfs(nodes, root);
    let mut i: usize = 1;
    proof {
        assert(order@[0] == root);
    }
    while i < order.len()
        invariant
            1 <= i <= order.len(),
            model(nodes@) == mended_upto(copy, root, order@, i as nat),
            nodes.len() == root + 1,
            root == before.len(),
            in_arena(order@, nodes@.len()),
            linked(model(nodes@)),
            acyclic(model(nodes@)),
            same_values(before, model(nodes@)),
            nodes[root as int]@.parent is None,
            nodes[root as int]@.value == (-1isize, root_value),
            forall|x: int|
                0 <= x < root ==> ((#[trigger] nodes[x])@.parent is Some <==> copy[x].parent is Some),
        decreases order.len() - i,
    {
        let node = order[i];
        let ghost m = model(nodes@);
        proof {
            assert(m[root as int] == nodes[root as int]@);
            lemma_mended_forest(m, root, node);
        }
        mend(nodes, root, node);
        proof {
            let f = model(nodes@);
            assert(f[root as int] == nodes[root as int]@);
            assert(f[root as int].value == m[root as int].value);
            if node != root {
                assert(f[root as int].parent == m[root as int].parent);
            }
            assert forall|x: int| 0 <= x < root implies ((#[trigger] nodes[x])@.parent is Some
                <==> copy[x].parent is Some) by {
                assert(f[x] == nodes[x]@);
                assert(m[x].parent is Some <==> copy[x].parent is Some);
                if x != node {
                    assert(f[x].parent == m[x].parent);
                }
            }
            assert forall|x: int| 0 <= x < before.len() implies (#[trigger] f[x]).value
                == before[x].value by {
                assert(f[x].value == m[x].value);
            }
        }
        i += 1;
    }
    proof {
        assert(copy[root as int].value == (-1isize, root_value));
        assert(same_values(before, copy));
        assert(copy[root as int].index == 0);
        assert forall|x: int| 0 <= x < before.len() && copy[x].parent is None implies (
        #[trigger] copy[x]).index == before[x].index by {
            assert(before[x] == old(nodes)[x]@);
        }
        assert(model(nodes@) == mended_upto(copy, root, order@, order@.len()));
    }
    root
}

/// Fresh nodes, one for each frame, each with the index that the node of
/// `m` at the same position carries.
pub open spec fn framed<T, R>(m: Seq<NodeView<(isize, T)>>, frames: Seq<R>) -> Seq<
    NodeView<(isize, R)>,
> {
    Seq::new(
        m.len(),
        |i: int|
            NodeView {
                children: Seq::<usize>::empty(),
                index: 0,
                parent: None,
                value: (m[i].value.0, frames[i]),
            },
    )
}

/// An arena of fresh nodes, one for each frame, each with the index that the
/// node of `nodes` at the same position carries.
pub fn generate_frames<T, R>(nodes: &Vec<Node<(isize, T)>>, frames: Vec<R>) -> (arena: Vec<
    Node<(isize, R)>,
>)
    requires
        frames.len() == nodes.len(),
    ensures
        arena.len() == nodes.len(),
        model(arena@) == framed(model(nodes@), frames@),
        scattered(model(arena@)),
        forall|i: int|
            0 <= i < arena.len() ==> (#[trigger] arena[i])@.value == (nodes[i]@.value.0, frames[i]),
{
    let mut rest = frames;
    let mut stack: Vec<R> = Vec::new();
    while rest.len() > 0
        invariant
            rest.len() + stack.len() == frames.len(),
            rest@ == frames@.take(rest.len() as int),
            forall|i: int| 0 <= i < stack.len() ==> stack[i] == frames[frames.len() - 1 - i],
        decreases rest.len(),
    {
        let ghost shorter = rest.len() - 1;
        let frame = rest.pop().unwrap();
        stack.push(frame);
        proof {
            assert(rest@ =~= frames@.take(shorter));
        }
    }
    let mut arena: Vec<Node<(isize, R)>> = Vec::new();
    while stack.len() > 0
        invariant
            arena.len() + stack.len() == frames.len(),
            frames.len() == nodes.len(),
            forall|i: int| 0 <= i < stack.len() ==> stack[i] == frames[frames.len() - 1 - i],
            forall|i: int|
                0 <= i < arena.len() ==> (#[trigger] arena[i])@.value == (nodes[i]@.value.0, frames[i]),
            forall|i: int|
                0 <= i < arena.len() ==> (#[trigger] arena[i])@ == framed(
                    model(nodes@),
                    frames@,
                )[i],
        decreases stack.len(),
    {
        let index = nodes[arena.len()].value().0;
        let frame = stack.pop().unwrap();
        arena.push(Node::new((index, frame)));
    }
    proof {
        let m = model(arena@);
        assert forall|x: int| 0 <= x < m.len() implies (#[trigger] m[x]).parent is None
            && m[x].children.len() == 0 by {
            assert(m[x] == arena[x]@);
        }
        assert(m =~= framed(model(nodes@), frames@));
    }
    arena
}

/// Nodes without parents and children form a nested forest.
pub proof fn lemma_scattered_forest<T: Container>(m: Seq<NodeView<(isize, T)>>)
    requires
        scattered(m),
    ensures
        linked(m),
        acyclic(m),
        nested(m),
{
    let depth = Seq::new(m.len(), |x: int| 0nat);
    assert forall|x: int| 0 <= x < m.len() implies match #[trigger] m[x].parent {
        Some(p) => p < m.len() && depth[x] == depth[p as int] + 1,
        None => depth[x] == 0,
    } by {
        assert(m[x].parent is None);
    }
    assert(ranked(m, depth));
    assert forall|c: int| 0 <= c < m.len() implies match #[trigger] m[c].parent {
        Some(p) => {
            &&& p < m.len()
            &&& m[c].index < m[p as int].children.len()
            &&& m[p as int].children[m[c].index as int] == c
        },
        None => true,
    } by {
        assert(m[c].parent is None);
    }
    assert forall|c: int| 0 <= c < m.len() implies match #[trigger] m[c].parent {
        Some(p) => m[p as int].value.0 < 0 || m[p as int].value.1.encloses(&m[c].value.1),
        None => true,
    } by {
        assert(m[c].parent is None);
    }
}

/// The builder with the pre-filter: the forest is first built on `frames`,
/// the bounding frames of the shapes of `nodes`, position by position, with
/// the frames' own containment; then it is copied onto `nodes` and mended
/// with the containment of the shapes. Returns the position of the virtual
/// root, which is the last node of the arena.
pub fn process_frames<T: Container + Default, R: Container + Default>(
    nodes: &mut Vec<Node<(isize, T)>>,
    frames: Vec<R>,
) -> (root: usize)
    requires
        scattered(model(old(nodes)@)),
        frames.len() == old(nodes).len(),
    ensures
        root == old(nodes).len(),
        final(nodes).len() == root + 1,
        linked(model(final(nodes)@)),
        acyclic(model(final(nodes)@)),
        same_values(model(old(nodes)@), model(final(nodes)@)),
        final(nodes)[root as int]@.parent is None,
        final(nodes)[root as int]@.value.0 == -1,
        forall|x: int| 0 <= x < root ==> (#[trigger] final(nodes)[x])@.parent is Some,
        forall|x: usize| x < root ==> #[trigger] descends_from(model(final(nodes)@), x, root),
        exists|fm: Seq<NodeView<(isize, R)>>|
            {
                &&& fm.len() == root + 1
                &&& #[trigger] settled(
                    framed(model(old(nodes)@), frames@),
                    positions(root as nat),
                    fm[root as int].value.1,
                    fm,
                )
                &&& transposed(
                    fm,
                    model(old(nodes)@),
                    root,
                    final(nodes)[root as int]@.value.1,
                    model(final(nodes)@),
                )
            },
{
    let mut arena = generate_frames(nodes, frames);
    let ids = all_ids(arena.len());
    proof {
        lemma_scattered_forest(model(arena@));
    }
    let from = build_tree_from_polygons(&mut arena, &ids, R::default());
    proof {
        let fm = model(arena@);
        assert(fm[from as int] == arena[from as int]@);
        assert forall|x: int| 0 <= x < fm.len() && x != from implies (#[trigger] fm[x].parent) is Some by {
            assert(ids[x] == x);
            assert(fm[x] == arena[ids[x] as int]@);
        }
        assert forall|x: usize| x < fm.len() implies #[trigger] descends_from(fm, x, from) by {
            lemma_all_below_root(fm, from, x);
        }
    }
    let root = transpose_rec_to_any(&arena, nodes, from, T::default());
    proof {
        let fm = model(arena@);
        assert forall|x: int| 0 <= x < root implies (#[trigger] nodes[x])@.parent is Some by {
            assert(fm[x] == arena[x]@);
            assert(fm[x].parent is Some);
            assert(descends_from(fm, x as usize, from));
        }
        lemma_hang_below_root(model(nodes@), nodes@, root);
        assert(fm[root as int] == arena[root as int]@);
        assert(settled(
            framed(model(old(nodes)@), frames@),
            positions(root as nat),
            fm[root as int].value.1,
            fm,
        ));
    }
    root
}

} // verus!
