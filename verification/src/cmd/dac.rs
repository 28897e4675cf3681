//! The divide-and-conquer builder. The forest of frames is built half by
//! half: the frames are parted by a line through the middle of the region
//! that holds them, each part gets its own forest, and the two forests are
//! merged. The geometry, which is not this module's business, comes in as
//! two functions: one halves a region, the other tells on which sides of a
//! separator a frame has corners.

use crate::cmd::mirror::scattered;
use crate::cmd::process::{
    all_ids, build_tree_from_polygons, find_below, first_container, framed, generate_frames,
    lemma_first_container, lemma_fresh_node, lemma_hang_below_root, lemma_root_adopts,
    lemma_scattered_forest, nested, positions, same_values, settled, transpose_rec_to_any,
    transposed,
};
use crate::forest::{
    acyclic, lemma_adopted_ranked, lemma_climb_exists, lemma_not_below, ranked, shifted,
};
use crate::geo::Container;
use crate::tree::{ancestor, attached, descends_from, in_arena, linked, model, Node, NodeView};
use vstd::prelude::*;

verus! {

/// Only the first `count` nodes of the arena have parents.
pub open spec fn reals_below<T>(m: Seq<NodeView<T>>, count: nat) -> bool {
    forall|x: int| 0 <= x < m.len() && (#[trigger] m[x].parent) is Some ==> x < count
}

/// The node that takes `child` when it is grafted below `base`: the first
/// child of `base` whose shape contains that of `child`, or else `base`.
pub open spec fn graft_target<T: Container>(m: Seq<NodeView<(isize, T)>>, child: usize, base: usize) -> usize {
    match first_container(m, base, child, child, 0) {
        Some(b) => b,
        None => base,
    }
}

/// Grafts `child` below `base`: the first child of `base` whose shape
/// contains that of `child` adopts it, and where there is none `base` does.
pub fn graft<T: Container>(nodes: &mut Vec<Node<(isize, T)>>, child: usize, base: usize)
    requires
        linked(model(old(nodes)@)),
        child < old(nodes).len(),
        base < old(nodes).len(),
    ensures
        model(final(nodes)@) == attached(
            model(old(nodes)@),
            child,
            graft_target(model(old(nodes)@), child, base),
        ),
        linked(model(final(nodes)@)),
        final(nodes).len() == old(nodes).len(),
{
    match find_below(nodes, base, child, child) {
        Some(host) => Node::adopt(nodes, host, child),
        None => Node::adopt(nodes, base, child),
    }
}

/// Grafting a child of one parentless node below another, a virtual root,
/// keeps a nested forest a nested forest; the first node has one child
/// fewer, no payload changes and no parent link but the child's, which
/// still has a parent.
pub proof fn lemma_grafted<T: Container>(
    m: Seq<NodeView<(isize, T)>>,
    child: usize,
    from: usize,
    base: usize,
)
    requires
        linked(m),
        acyclic(m),
        nested(m),
        m.len() <= usize::MAX,
        child < m.len(),
        from < m.len(),
        base < m.len(),
        from != base,
        m[child as int].parent == Some(from),
        m[from as int].parent is None,
        m[base as int].parent is None,
        m[base as int].value.0 < 0,
    ensures
        ({
            let a = attached(m, child, graft_target(m, child, base));
            &&& a.len() == m.len()
            &&& linked(a)
            &&& acyclic(a)
            &&& nested(a)
            &&& a[from as int].children.len() == m[from as int].children.len() - 1
            &&& a[child as int].parent is Some
            &&& forall|i: int| 0 <= i < m.len() ==> (#[trigger] a[i]).value == m[i].value
            &&& forall|i: int| 0 <= i < m.len() && i != child ==> (#[trigger] a[i]).parent == m[i].parent
            &&& forall|i: int|
                0 <= i < m.len() && i != base && m[i].parent is None ==> (#[trigger] a[i]).children.len()
                    <= m[i].children.len()
        }),
{
    let depth = choose|depth: Seq<nat>| ranked(m, depth);
    let host = graft_target(m, child, base);
    lemma_first_container(m, base, child, child, 0);
    assert(m[child as int].parent == Some(from));
    if host != base {
        assert(m[host as int].parent == Some(base));
    }
    assert(host != child);
    assert(host != from);
    lemma_not_below(m, depth, host, child);
    lemma_adopted_ranked(m, depth, host, child);
    let a = attached(m, child, host);
    assert(ranked(a, shifted(m, depth, child, host)));
    crate::tree::lemma_detached_is_root(m, child);
    let d = crate::tree::detached(m, child);
    assert(a[from as int].children == d[from as int].children);
    assert forall|c: int| 0 <= c < a.len() implies match #[trigger] a[c].parent {
        Some(q) => a[q as int].value.0 < 0 || a[q as int].value.1.encloses(&a[c].value.1),
        None => true,
    } by {
        if c != child {
            assert(a[c].parent == m[c].parent);
            assert(a[c].value == m[c].value);
            match m[c].parent {
                Some(q) => {
                    assert(a[q as int].value == m[q as int].value);
                },
                None => {},
            }
        } else {
            assert(a[host as int].value == m[host as int].value);
            assert(a[child as int].value == m[child as int].value);
        }
    }
}

/// The arena after the first child of `a` has been grafted below `b`,
/// `turns` times over.
pub open spec fn merged<T: Container>(m: Seq<NodeView<(isize, T)>>, a: usize, b: usize, turns: nat) -> Seq<
    NodeView<(isize, T)>,
>
    decreases turns,
{
    if turns == 0 {
        m
    } else {
        let so_far = merged(m, a, b, (turns - 1) as nat);
        let child = so_far[a as int].children[0];
        attached(so_far, child, graft_target(so_far, child, b))
    }
}

/// Merges the forest below `a` into the forest below `b`: as long as `a`
/// has children, its first child is grafted below `b`. Returns `b`.
pub fn conquer<T: Container>(nodes: &mut Vec<Node<(isize, T)>>, a: usize, b: usize) -> (root: usize)
    requires
        linked(model(old(nodes)@)),
        acyclic(model(old(nodes)@)),
        nested(model(old(nodes)@)),
        a < old(nodes).len(),
        b < old(nodes).len(),
        a != b,
        old(nodes)[a as int]@.parent is None,
        old(nodes)[b as int]@.parent is None,
        old(nodes)[b as int]@.value.0 < 0,
    ensures
        root == b,
        final(nodes).len() == old(nodes).len(),
        linked(model(final(nodes)@)),
        acyclic(model(final(nodes)@)),
        nested(model(final(nodes)@)),
        same_values(model(old(nodes)@), model(final(nodes)@)),
        final(nodes)[a as int]@.children.len() == 0,
        forall|x: int|
            0 <= x < old(nodes).len() ==> ((#[trigger] final(nodes)[x])@.parent is Some
                <==> old(nodes)[x]@.parent is Some),
        forall|x: int|
            0 <= x < old(nodes).len() && x != b && old(nodes)[x]@.parent is None ==> (
            #[trigger] final(nodes)[x])@.children.len() <= old(nodes)[x]@.children.len(),
        model(final(nodes)@) == merged(
            model(old(nodes)@),
            a,
            b,
            old(nodes)[a as int]@.children.len(),
        ),
{
    let ghost before = model(nodes@);
    let ghost mut turns: nat = 0;
    proof {
        assert(before[a as int] == nodes[a as int]@);
    }
    while !nodes[a].is_leaf()
        invariant
            model(nodes@) == merged(before, a, b, turns),
            turns + nodes[a as int]@.children.len() == before[a as int].children.len(),
            nodes.len() == before.len(),
            a < nodes.len(),
            b < nodes.len(),
            a != b,
            linked(model(nodes@)),
            acyclic(model(nodes@)),
            nested(model(nodes@)),
            same_values(before, model(nodes@)),
            nodes[a as int]@.parent is None,
            nodes[b as int]@.parent is None,
            nodes[b as int]@.value.0 < 0,
            forall|x: int|
                0 <= x < nodes.len() ==> ((#[trigger] nodes[x])@.parent is Some
                    <==> before[x].parent is Some),
            forall|x: int|
                0 <= x < nodes.len() && x != b && before[x].parent is None ==> (#[trigger] nodes[x])@.children.len()
                    <= before[x].children.len(),
        decreases nodes[a as int]@.children.len(),
    {
        let ghost m = model(nodes@);
        let child = nodes[a].children()[0];
        proof {
            assert(m[a as int] == nodes[a as int]@);
            assert(m[b as int] == nodes[b as int]@);
            assert(m[a as int].children[0] < m.len());
            assert(m[m[a as int].children[0] as int].parent == Some(a));
            lemma_grafted(m, child, a, b);
        }
        graft(nodes, child, b);
        proof {
            let f = model(nodes@);
            turns = turns + 1;
            assert(f[a as int] == nodes[a as int]@);
            assert(f[b as int] == nodes[b as int]@);
            assert(f[a as int].parent == m[a as int].parent);
            assert(f[b as int].parent == m[b as int].parent);
            assert(f[b as int].value == m[b as int].value);
            assert forall|x: int| 0 <= x < nodes.len() implies ((#[trigger] nodes[x])@.parent is Some
                <==> before[x].parent is Some) by {
                assert(f[x] == nodes[x]@);
                assert(m[x].parent is Some <==> before[x].parent is Some);
                if x != child {
                    assert(f[x].parent == m[x].parent);
                }
            }
            assert forall|x: int| 0 <= x < before.len() implies (#[trigger] f[x]).value
                == before[x].value by {
                assert(f[x].value == m[x].value);
            }
            assert forall|x: int| 0 <= x < nodes.len() && x != b && before[x].parent is None implies (
            #[trigger] nodes[x])@.children.len() <= before[x].children.len() by {
                assert(f[x] == nodes[x]@);
                assert(m[x].parent is Some <==> before[x].parent is Some);
                assert(f[x].children.len() <= m[x].children.len());
            }
        }
    }
    b
}

/// Where a node adopts a sibling whose shape its own contains, a nested
/// forest stays one; no payload changes and no parent link but the
/// sibling's, which still has a parent.
pub proof fn lemma_sibling_adopts<T: Container>(
    m: Seq<NodeView<(isize, T)>>,
    host: usize,
    node: usize,
)
    requires
        linked(m),
        acyclic(m),
        nested(m),
        m.len() <= usize::MAX,
        host < m.len(),
        node < m.len(),
        host != node,
        m[host as int].parent is Some,
        m[host as int].parent == m[node as int].parent,
        m[host as int].value.1.encloses(&m[node as int].value.1),
    ensures
        ({
            let a = attached(m, node, host);
            &&& a.len() == m.len()
            &&& linked(a)
            &&& acyclic(a)
            &&& nested(a)
            &&& a[node as int].parent is Some
            &&& forall|i: int| 0 <= i < m.len() ==> (#[trigger] a[i]).value == m[i].value
            &&& forall|i: int| 0 <= i < m.len() && i != node ==> (#[trigger] a[i]).parent == m[i].parent
            &&& forall|i: int|
                0 <= i < m.len() && i != host ==> (#[trigger] a[i]).children.len()
                    <= m[i].children.len()
        }),
{
    let depth = choose|depth: Seq<nat>| ranked(m, depth);
    lemma_not_below(m, depth, host, node);
    lemma_adopted_ranked(m, depth, host, node);
    let a = attached(m, node, host);
    assert(ranked(a, shifted(m, depth, node, host)));
    assert forall|c: int| 0 <= c < a.len() implies match #[trigger] a[c].parent {
        Some(q) => a[q as int].value.0 < 0 || a[q as int].value.1.encloses(&a[c].value.1),
        None => true,
    } by {
        if c != node {
            assert(a[c].parent == m[c].parent);
            assert(a[c].value == m[c].value);
            match m[c].parent {
                Some(q) => {
                    assert(a[q as int].value == m[q as int].value);
                },
                None => {},
            }
        } else {
            assert(a[host as int].value == m[host as int].value);
            assert(a[node as int].value == m[node as int].value);
        }
    }
}

/// Whether a frame with the answer `answer` of the side test belongs to the
/// first part, or else to the second: the first part takes the frames with
/// a corner on the first side, the second part those with a corner on the
/// second side.
pub open spec fn joins(answer: (bool, bool), first: bool) -> bool {
    if first {
        answer.0
    } else {
        answer.1
    }
}

/// The side test puts every frame on a side: it never answers that a frame
/// has corners on neither.
pub open spec fn decisive<R, S, P: Fn(&R, &S) -> (bool, bool)>(side: &P) -> bool {
    forall|r: &R, s: &S, answer: (bool, bool)| #[trigger]
        side.ensures((r, s), answer) ==> answer.0 || answer.1
}

/// `answers` holds, for each of `ids` in turn, an answer of the side test
/// for the frame of that node and the separator.
pub open spec fn answered<R, S, P: Fn(&R, &S) -> (bool, bool)>(
    m: Seq<NodeView<(isize, R)>>,
    ids: Seq<usize>,
    separator: S,
    side: &P,
    answers: Seq<(bool, bool)>,
) -> bool {
    &&& answers.len() == ids.len()
    &&& forall|j: int|
        0 <= j < ids.len() ==> side.ensures(
            (&m[ids[j] as int].value.1, &separator),
            #[trigger] answers[j],
        )
}

/// Those of the first `upto` of `ids` that belong to a part, in order.
pub open spec fn part(ids: Seq<usize>, answers: Seq<(bool, bool)>, first: bool, upto: nat) -> Seq<
    usize,
>
    decreases upto,
{
    if upto == 0 {
        Seq::empty()
    } else if joins(answers[upto - 1], first) {
        part(ids, answers, first, (upto - 1) as nat).push(ids[upto - 1])
    } else {
        part(ids, answers, first, (upto - 1) as nat)
    }
}

/// A part of the first frames does not depend on the answers for later
/// ones.
pub proof fn lemma_part_ignores_later(
    ids: Seq<usize>,
    answers: Seq<(bool, bool)>,
    later: (bool, bool),
    first: bool,
    upto: nat,
)
    requires
        upto <= answers.len(),
    ensures
        part(ids, answers.push(later), first, upto) == part(ids, answers, first, upto),
    decreases upto,
{
    if upto > 0 {
        lemma_part_ignores_later(ids, answers, later, first, (upto - 1) as nat);
    }
}

/// Parts the frames named by `ids` by a separator: the first part holds
/// those with a corner on the first side, the second those with a corner on
/// the second side, each in the order of `ids`. A frame with corners on both
/// sides is in both parts; one with corners on neither is in none.
pub fn split<R, S, P>(
    nodes: &Vec<Node<(isize, R)>>,
    ids: &Vec<usize>,
    separator: &S,
    side: &P,
) -> (parts: (Vec<usize>, Vec<usize>)) where P: Fn(&R, &S) -> (bool, bool)
    requires
        in_arena(ids@, nodes@.len()),
        forall|r: &R, s: &S| side.requires((r, s)),
    ensures
        parts.0.len() <= ids.len(),
        parts.1.len() <= ids.len(),
        forall|i: int| 0 <= i < parts.0.len() ==> ids@.contains(#[trigger] parts.0[i]),
        forall|i: int| 0 <= i < parts.1.len() ==> ids@.contains(#[trigger] parts.1[i]),
        decisive(side) ==> forall|j: int|
            0 <= j < ids.len() ==> parts.0@.contains(#[trigger] ids[j]) || parts.1@.contains(ids[j]),
        parts.0.len() == ids.len() ==> parts.0@ == ids@,
        parts.1.len() == ids.len() ==> parts.1@ == ids@,
        exists|answers: Seq<(bool, bool)>|
            {
                &&& #[trigger] answered(model(nodes@), ids@, *separator, side, answers)
                &&& parts.0@ == part(ids@, answers, true, ids@.len())
                &&& parts.1@ == part(ids@, answers, false, ids@.len())
            },
{
    let mut first: Vec<usize> = Vec::new();
    let mut second: Vec<usize> = Vec::new();
    let ghost mut answers: Seq<(bool, bool)> = Seq::empty();
    let mut j: usize = 0;
    while j < ids.len()
        invariant
            j <= ids.len(),
            in_arena(ids@, nodes@.len()),
            forall|r: &R, s: &S| side.requires((r, s)),
            first.len() <= j,
            second.len() <= j,
            first.len() == j ==> first@ == ids@.take(j as int),
            second.len() == j ==> second@ == ids@.take(j as int),
            answers.len() == j,
            forall|i: int|
                0 <= i < j ==> side.ensures(
                    (&nodes[ids[i] as int]@.value.1, separator),
                    #[trigger] answers[i],
                ),
            first@ == part(ids@, answers, true, j as nat),
            second@ == part(ids@, answers, false, j as nat),
            forall|i: int| 0 <= i < first.len() ==> ids@.contains(#[trigger] first[i]),
            forall|i: int| 0 <= i < second.len() ==> ids@.contains(#[trigger] second[i]),
            decisive(side) ==> forall|i: int|
                0 <= i < j ==> first@.contains(#[trigger] ids[i]) || second@.contains(ids[i]),
        decreases ids.len() - j,
    {
        let id = ids[j];
        let (on_first, on_second) = side(&nodes[id].value().1, separator);
        let ghost first_before = first@;
        let ghost second_before = second@;
        if on_first {
            first.push(id);
        }
        if on_second {
            second.push(id);
        }
        proof {
            lemma_part_ignores_later(ids@, answers, (on_first, on_second), true, j as nat);
            lemma_part_ignores_later(ids@, answers, (on_first, on_second), false, j as nat);
            answers = answers.push((on_first, on_second));
            assert(ids@[j as int] == id);
            assert(ids@.take(j + 1) =~= ids@.take(j as int).push(id));
            assert forall|i: int| decisive(side) && 0 <= i < j + 1 implies first@.contains(
                #[trigger] ids[i],
            ) || second@.contains(ids[i]) by {
                if i < j {
                    if first_before.contains(ids[i]) {
                        let at = choose|at: int| 0 <= at < first_before.len() && first_before[at] == ids[i];
                        assert(first@[at] == ids[i]);
                    } else {
                        let at = choose|at: int|
                            0 <= at < second_before.len() && second_before[at] == ids[i];
                        assert(second@[at] == ids[i]);
                    }
                } else {
                    assert(side.ensures((&nodes[id as int]@.value.1, separator), (on_first, on_second)));
                    if on_first {
                        assert(first@[first@.len() - 1] == id);
                    } else {
                        assert(second@[second@.len() - 1] == id);
                    }
                }
            }
        }
        j += 1;
    }
    proof {
        assert(ids@.take(ids.len() as int) =~= ids@);
        let m = model(nodes@);
        assert forall|j: int| 0 <= j < ids.len() implies side.ensures(
            (&m[ids[j] as int].value.1, separator),
            #[trigger] answers[j],
        ) by {
            assert(m[ids[j] as int] == nodes[ids[j] as int]@);
        }
        assert(answered(m, ids@, *separator, side, answers));
    }
    (first, second)
}

/// What `divide` asks of the arena and keeps: a nested forest in which only
/// the first `count` nodes have parents.
pub open spec fn dividable<T: Container>(m: Seq<NodeView<(isize, T)>>, count: nat) -> bool {
    &&& linked(m)
    &&& acyclic(m)
    &&& nested(m)
    &&& reals_below(m, count)
    &&& count <= m.len()
}

/// What one stage of the builder has done to the arena: it is longer, no
/// payload has changed, and no node has lost its parent.
pub open spec fn grown<T>(before: Seq<NodeView<T>>, after: Seq<NodeView<T>>) -> bool {
    &&& same_values(before, after)
    &&& forall|x: int|
        0 <= x < before.len() && before[x].parent is Some ==> (#[trigger] after[x]).parent is Some
}

/// No virtual node but `root` has gained a child, and each new one but
/// `root` has none.
pub open spec fn calm<T>(before: Seq<NodeView<T>>, after: Seq<NodeView<T>>, count: nat, root: usize) -> bool {
    forall|x: int|
        count <= x < after.len() && x != root ==> (#[trigger] after[x]).children.len() <= (if x
            < before.len() {
            before[x].children.len()
        } else {
            0
        })
}

/// Adds a virtual root, with the index -1, at the end of the arena and
/// returns its position.
fn plant<T: Container + Default>(nodes: &mut Vec<Node<(isize, T)>>, count: usize) -> (root: usize)
    requires
        dividable(model(old(nodes)@), count as nat),
    ensures
        root == old(nodes).len(),
        final(nodes).len() == root + 1,
        model(final(nodes)@) == planted(model(old(nodes)@), final(nodes)[root as int]@.value.1),
        dividable(model(final(nodes)@), count as nat),
        grown(model(old(nodes)@), model(final(nodes)@)),
        calm(model(old(nodes)@), model(final(nodes)@), count as nat, root),
        final(nodes)[root as int]@.parent is None,
        final(nodes)[root as int]@.children.len() == 0,
        final(nodes)[root as int]@.value.0 == -1,
{
    let ghost before = model(nodes@);
    let root = nodes.len();
    let fresh = Node::new((-1isize, T::default()));
    proof {
        let depth = choose|depth: Seq<nat>| ranked(before, depth);
        lemma_fresh_node(before, depth, fresh@);
    }
    nodes.push(fresh);
    proof {
        let after = model(nodes@);
        assert(after =~= before.push(fresh@));
        assert forall|x: int| 0 <= x < after.len() && (#[trigger] after[x].parent) is Some implies x
            < count by {
            assert(before[x].parent is Some);
        }
    }
    root
}

/// The parentless virtual root `root` adopts the node `id`.
fn hang<T: Container>(nodes: &mut Vec<Node<(isize, T)>>, count: usize, root: usize, id: usize)
    requires
        dividable(model(old(nodes)@), count as nat),
        root < old(nodes).len(),
        id < count,
        count <= root,
        old(nodes)[root as int]@.parent is None,
        old(nodes)[root as int]@.value.0 < 0,
    ensures
        final(nodes).len() == old(nodes).len(),
        dividable(model(final(nodes)@), count as nat),
        grown(model(old(nodes)@), model(final(nodes)@)),
        model(final(nodes)@) == attached(model(old(nodes)@), id, root),
        calm(model(old(nodes)@), model(final(nodes)@), count as nat, root),
        final(nodes)[id as int]@.parent == Some(root),
        forall|x: int|
            0 <= x < old(nodes).len() && x != id ==> (#[trigger] final(nodes)[x])@.parent == old(
                nodes,
            )[x]@.parent,
        final(nodes)[root as int]@.value == old(nodes)[root as int]@.value,
{
    let ghost m = model(nodes@);
    proof {
        let depth = choose|depth: Seq<nat>| ranked(m, depth);
        assert(m[root as int] == nodes[root as int]@);
        lemma_root_adopts(m, depth, root, id);
    }
    Node::adopt(nodes, root, id);
    proof {
        let a = model(nodes@);
        assert(a[id as int] == nodes[id as int]@);
        assert(a[root as int] == nodes[root as int]@);
        assert forall|x: int| 0 <= x < a.len() && (#[trigger] a[x].parent) is Some implies x
            < count by {
            if x != id {
                assert(a[x].parent == m[x].parent);
            }
        }
        assert forall|x: int| 0 <= x < m.len() && x != id implies (#[trigger] nodes[x])@.parent
            == old(nodes)[x]@.parent by {
            assert(a[x] == nodes[x]@);
            assert(m[x] == old(nodes)[x]@);
            assert(a[x].parent == m[x].parent);
        }
        assert forall|x: int| 0 <= x < m.len() && m[x].parent is Some implies (#[trigger] a[x]).parent is Some by {
            if x != id {
                assert(a[x].parent == m[x].parent);
            }
        }
    }
}

/// The node `host` adopts `node`, one of its siblings, whose shape its own
/// contains: `node` leaves the child list that the two shared and becomes
/// the last child of `host`.
fn nest<T: Container>(nodes: &mut Vec<Node<(isize, T)>>, count: usize, host: usize, node: usize)
    requires
        dividable(model(old(nodes)@), count as nat),
        host < old(nodes).len(),
        node < old(nodes).len(),
        host != node,
        old(nodes)[host as int]@.parent is Some,
        old(nodes)[host as int]@.parent == old(nodes)[node as int]@.parent,
        old(nodes)[host as int]@.value.1.encloses(&old(nodes)[node as int]@.value.1),
    ensures
        model(final(nodes)@) == attached(model(old(nodes)@), node, host),
        final(nodes)[node as int]@.parent == Some(host),
        final(nodes).len() == old(nodes).len(),
        dividable(model(final(nodes)@), count as nat),
        grown(model(old(nodes)@), model(final(nodes)@)),
        forall|root: usize| calm(model(old(nodes)@), model(final(nodes)@), count as nat, root),
        forall|x: int|
            0 <= x < old(nodes).len() && x != node ==> (#[trigger] final(nodes)[x])@.parent == old(
                nodes,
            )[x]@.parent,
        forall|x: int|
            0 <= x < old(nodes).len() ==> (#[trigger] final(nodes)[x])@.value == old(nodes)[x]@.value,
{
    let ghost m = model(nodes@);
    proof {
        assert(m[host as int] == nodes[host as int]@);
        assert(m[node as int] == nodes[node as int]@);
        lemma_sibling_adopts(m, host, node);
    }
    Node::adopt(nodes, host, node);
    proof {
        let a = model(nodes@);
        crate::tree::lemma_adopted_is_child(m, host, node);
        assert(a[node as int] == nodes[node as int]@);
        assert forall|x: int| 0 <= x < a.len() && (#[trigger] a[x].parent) is Some implies x
            < count by {
            if x != node {
                assert(a[x].parent == m[x].parent);
            } else {
                assert(m[x].parent is Some);
            }
        }
        assert forall|x: int| 0 <= x < m.len() && x != node implies (#[trigger] nodes[x])@.parent
            == old(nodes)[x]@.parent by {
            assert(a[x] == nodes[x]@);
            assert(m[x] == old(nodes)[x]@);
            assert(a[x].parent == m[x].parent);
        }
        assert forall|x: int| 0 <= x < m.len() implies (#[trigger] nodes[x])@.value == old(
            nodes,
        )[x]@.value by {
            assert(a[x] == nodes[x]@);
            assert(m[x] == old(nodes)[x]@);
            assert(a[x].value == m[x].value);
        }
        assert forall|x: int| 0 <= x < m.len() && m[x].parent is Some implies (#[trigger] a[x]).parent is Some by {
            if x != node {
                assert(a[x].parent == m[x].parent);
            }
        }
    }
}

/// Calm stages follow one another.
pub proof fn lemma_calm_twice<T>(
    a: Seq<NodeView<T>>,
    b: Seq<NodeView<T>>,
    c: Seq<NodeView<T>>,
    count: nat,
    root: usize,
)
    requires
        calm(a, b, count, root),
        calm(b, c, count, root),
        a.len() <= b.len() <= c.len(),
    ensures
        calm(a, c, count, root),
{
    assert forall|x: int| count <= x < c.len() && x != root implies (#[trigger] c[x]).children.len() <= (
    if x < a.len() {
        a[x].children.len()
    } else {
        0
    }) by {
        if x < b.len() {
            assert(b[x].children.len() <= (if x < a.len() {
                a[x].children.len()
            } else {
                0
            }));
        }
    }
}

/// Stages follow one another.
pub proof fn lemma_grown_twice<T>(a: Seq<NodeView<T>>, b: Seq<NodeView<T>>, c: Seq<NodeView<T>>)
    requires
        grown(a, b),
        grown(b, c),
    ensures
        grown(a, c),
{
    assert forall|i: int| 0 <= i < a.len() implies (#[trigger] c[i]).value == a[i].value by {
        assert(b[i].value == a[i].value);
    }
    assert forall|x: int| 0 <= x < a.len() && a[x].parent is Some implies (#[trigger] c[x]).parent is Some by {
        assert(b[x].parent is Some);
    }
}

/// The arena with a new virtual root behind it, which carries `value` and
/// the index -1.
pub open spec fn planted<R>(before: Seq<NodeView<(isize, R)>>, value: R) -> Seq<NodeView<(isize, R)>> {
    before.push(
        NodeView {
            children: Seq::<usize>::empty(),
            index: 0,
            parent: None,
            value: (-1isize, value),
        },
    )
}

/// What `divide` makes of at most two frames: the root alone; one frame
/// below the root; or two frames below the root, of which the first is then
/// adopted by the second or the second by the first where the shape of the
/// one contains that of the other.
pub open spec fn few_divided<R: Container>(
    before: Seq<NodeView<(isize, R)>>,
    ids: Seq<usize>,
    after: Seq<NodeView<(isize, R)>>,
    root: usize,
) -> bool {
    let start = planted(before, after[root as int].value.1);
    let one = attached(start, ids[0], root);
    let two = attached(one, ids[1], root);
    &&& root == before.len()
    &&& after.len() == before.len() + 1
    &&& after == if ids.len() == 0 {
        start
    } else if ids.len() == 1 {
        one
    } else if ids[0] != ids[1] && two[ids[0] as int].value.1.encloses(&two[ids[1] as int].value.1) {
        attached(two, ids[1], ids[0])
    } else if ids[0] != ids[1] && two[ids[1] as int].value.1.encloses(&two[ids[0] as int].value.1) {
        attached(two, ids[0], ids[1])
    } else {
        two
    }
}

/// Of two frames, the one whose shape contains the other's hangs below the
/// root with the other below it, the first before the second where each
/// contains the other; where neither contains the other, both hang below
/// the root.
pub proof fn lemma_two_divided<R: Container>(
    before: Seq<NodeView<(isize, R)>>,
    ids: Seq<usize>,
    after: Seq<NodeView<(isize, R)>>,
    root: usize,
)
    requires
        linked(before),
        before.len() < usize::MAX,
        ids.len() == 2,
        ids[0] < before.len(),
        ids[1] < before.len(),
        ids[0] != ids[1],
        few_divided(before, ids, after, root),
    ensures
        ({
            let first = before[ids[0] as int].value.1;
            let second = before[ids[1] as int].value.1;
            if first.encloses(&second) {
                after[ids[0] as int].parent == Some(root) && after[ids[1] as int].parent == Some(ids[0])
            } else if second.encloses(&first) {
                after[ids[1] as int].parent == Some(root) && after[ids[0] as int].parent == Some(ids[1])
            } else {
                after[ids[0] as int].parent == Some(root) && after[ids[1] as int].parent == Some(root)
            }
        }),
        after[root as int].parent is None,
        forall|x: int| 0 <= x < before.len() ==> (#[trigger] after[x]).value == before[x].value,
{
    let a = ids[0];
    let b = ids[1];
    let start = planted(before, after[root as int].value.1);
    crate::tree::lemma_pushed_linked(before, start[root as int]);
    assert(start =~= before.push(start[root as int]));
    crate::tree::lemma_adopted_is_child(start, root, a);
    let one = attached(start, a, root);
    crate::tree::lemma_adopted_is_child(one, root, b);
    let two = attached(one, b, root);
    assert(two[a as int].parent == Some(root));
    assert(two[a as int].value == before[a as int].value) by {
        assert(one[a as int].value == start[a as int].value);
    }
    assert(two[b as int].value == before[b as int].value) by {
        assert(one[b as int].value == start[b as int].value);
    }
    assert(two[root as int].parent is None) by {
        assert(one[root as int].parent == start[root as int].parent);
    }
    assert forall|x: int| 0 <= x < before.len() implies (#[trigger] two[x]).value == before[x].value by {
        assert(one[x].value == start[x].value);
    }
    crate::tree::lemma_adopted_is_child(two, a, b);
    crate::tree::lemma_adopted_is_child(two, b, a);
    let nested_first = attached(two, b, a);
    let nested_second = attached(two, a, b);
    assert forall|x: int| 0 <= x < before.len() implies (#[trigger] after[x]).value == before[x].value by {
        assert(nested_first[x].value == two[x].value);
        assert(nested_second[x].value == two[x].value);
    }
    assert(nested_first[root as int].parent == two[root as int].parent);
    assert(nested_second[root as int].parent == two[root as int].parent);
    assert(nested_first[a as int].parent == two[a as int].parent);
    assert(nested_second[b as int].parent == two[b as int].parent);
}

/// What one stage of `divide` on more than two frames has met on its way:
/// what halving gave and what the side test answered, upright and level,
/// the arena after the forest of the first part was built, the root of that
/// forest, and the arena after the forest of the second part was built.
pub ghost struct Cut<R, S> {
    pub upright: (R, S, R),
    pub upright_answers: Seq<(bool, bool)>,
    pub level: (R, S, R),
    pub level_answers: Seq<(bool, bool)>,
    pub half: Seq<NodeView<(isize, R)>>,
    pub left: usize,
    pub both: Seq<NodeView<(isize, R)>>,
}

/// Holds of every cut; it marks the cut that a stage of `divide` has met.
pub open spec fn chosen<R, S>(cut: Cut<R, S>) -> bool {
    true
}

/// `after` and `root` are what `divide` makes of `before` and the frames
/// named by `ids` in the region `big_frame`.
///
/// At most two frames: see `few_divided`. More: the region is halved
/// upright and the frames are parted by the side test; where one part holds
/// all the frames, the region is halved level and the frames are parted
/// again. Where one part still holds all the frames, `after` is what the
/// sinking makes of that part. Otherwise the first part gets its forest in
/// the first half, then the second part gets its forest in the second half,
/// whose root is `root`, and the forest of the first is merged into that of
/// the second. A frame that is in neither part is not touched.
pub open spec fn divided<R: Container, S, H: Fn(&R, bool) -> (R, S, R), P: Fn(&R, &S) -> (bool, bool)>(
    before: Seq<NodeView<(isize, R)>>,
    ids: Seq<usize>,
    big_frame: R,
    halve: &H,
    side: &P,
    after: Seq<NodeView<(isize, R)>>,
    root: usize,
) -> bool
    decreases ids.len(),
{
    let n = ids.len();
    if n <= 2 {
        few_divided(before, ids, after, root)
    } else {
        exists|cut: Cut<R, S>|
            {
                let stuck = part(ids, cut.upright_answers, true, n).len() == n || part(
                    ids,
                    cut.upright_answers,
                    false,
                    n,
                ).len() == n;
                let answers = if stuck {
                    cut.level_answers
                } else {
                    cut.upright_answers
                };
                let halves = if stuck {
                    cut.level
                } else {
                    cut.upright
                };
                let a = part(ids, answers, true, n);
                let b = part(ids, answers, false, n);
                &&& #[trigger] chosen(cut)
                &&& halve.ensures((&big_frame, true), cut.upright)
                &&& answered(before, ids, cut.upright.1, side, cut.upright_answers)
                &&& stuck ==> halve.ensures((&big_frame, false), cut.level) && answered(
                    before,
                    ids,
                    cut.level.1,
                    side,
                    cut.level_answers,
                )
                &&& if a.len() == n || b.len() == n {
                    &&& root == before.len()
                    &&& after.len() == before.len() + 1
                    &&& settled(
                        before,
                        if a.len() == n {
                            a
                        } else {
                            b
                        },
                        after[root as int].value.1,
                        after,
                    )
                } else {
                    &&& a.len() < n
                    &&& b.len() < n
                    &&& divided(before, a, halves.0, halve, side, cut.half, cut.left)
                    &&& divided(cut.half, b, halves.2, halve, side, cut.both, root)
                    &&& after == merged(
                        cut.both,
                        cut.left,
                        root,
                        cut.both[cut.left as int].children.len(),
                    )
                }
            }
    }
}

/// Builds the forest of the frames named by `ids`, which lie in the region
/// `big_frame`, below a new virtual root and returns the root's position.
///
/// No frame: the root alone. One: it hangs below the root. Two: the one
/// whose shape contains the other's hangs below the root with the other
/// below it; where neither contains the other both hang below the root.
/// More: the region is halved by an upright separator and the frames are
/// parted by it (see `split`); where one part holds all the frames, the
/// same is tried with a level separator. If one part still holds them all,
/// the forest is built from that part by sinking (see
/// `build_tree_from_polygons`). Otherwise each part gets its forest in its
/// half of the region, the first part first, and the forest of the first is
/// merged into that of the second (see `conquer`). A frame with corners on
/// neither side of the separator is in neither part and is not touched.
pub fn divide<R, S, H, P>(
    nodes: &mut Vec<Node<(isize, R)>>,
    count: usize,
    ids: Vec<usize>,
    big_frame: R,
    halve: &H,
    side: &P,
) -> (root: usize) where
    R: Container + Default,
    H: Fn(&R, bool) -> (R, S, R),
    P: Fn(&R, &S) -> (bool, bool),

    requires
        dividable(model(old(nodes)@), count as nat),
        in_arena(ids@, count as nat),
        forall|r: &R, upright: bool| halve.requires((r, upright)),
        forall|r: &R, s: &S| side.requires((r, s)),
    ensures
        old(nodes).len() <= root < final(nodes).len(),
        dividable(model(final(nodes)@), count as nat),
        grown(model(old(nodes)@), model(final(nodes)@)),
        calm(model(old(nodes)@), model(final(nodes)@), count as nat, root),
        final(nodes)[root as int]@.parent is None,
        final(nodes)[root as int]@.value.0 == -1,
        divided(
            model(old(nodes)@),
            ids@,
            big_frame,
            halve,
            side,
            model(final(nodes)@),
            root,
        ),
        decisive(side) ==> forall|j: int|
            0 <= j < ids.len() ==> final(nodes)[#[trigger] ids[j] as int]@.parent is Some,
    decreases ids.len(),
{
    let ghost before = model(nodes@);
    let n = ids.len();
    if n <= 2 {
        return divide_few(nodes, count, &ids);
    }
    let (left_upright, separator, right_upright) = halve(&big_frame, true);
    let ghost up = (left_upright, separator, right_upright);
    let upright = split(nodes, &ids, &separator, side);
    let ghost up_answers = choose|answers: Seq<(bool, bool)>|
        {
            &&& #[trigger] answered(before, ids@, separator, side, answers)
            &&& upright.0@ == part(ids@, answers, true, ids@.len())
            &&& upright.1@ == part(ids@, answers, false, ids@.len())
        };
    let ghost mut lv = up;
    let ghost mut lv_answers = up_answers;
    let stuck = upright.0.len() == n || upright.1.len() == n;
    let (rect_a, rect_b, a, b) = if stuck {
        let (below, level_separator, above) = halve(&big_frame, false);
        let level = split(nodes, &ids, &level_separator, side);
        proof {
            lv = (below, level_separator, above);
            lv_answers = choose|answers: Seq<(bool, bool)>|
                {
                    &&& #[trigger] answered(before, ids@, level_separator, side, answers)
                    &&& level.0@ == part(ids@, answers, true, ids@.len())
                    &&& level.1@ == part(ids@, answers, false, ids@.len())
                };
        }
        (below, above, level.0, level.1)
    } else {
        (left_upright, right_upright, upright.0, upright.1)
    };
    let ghost first = a@;
    let ghost second = b@;
    let ghost first_half = rect_a;
    let ghost second_half = rect_b;
    proof {
        assert forall|i: int| 0 <= i < a.len() implies a[i] < count by {
            let at = choose|at: int| 0 <= at < ids.len() && ids[at] == a[i];
        }
        assert forall|i: int| 0 <= i < b.len() implies b[i] < count by {
            let at = choose|at: int| 0 <= at < ids.len() && ids[at] == b[i];
        }
    }
    if a.len() == n || b.len() == n {
        let whole = if a.len() == n {
            a
        } else {
            b
        };
        assert(whole@ == ids@);
        let root_value = R::default();
        let root = build_tree_from_polygons(nodes, &whole, root_value);
        proof {
            let after = model(nodes@);
            assert(after[root as int] == nodes[root as int]@);
            assert(reals_below(after, count as nat)) by {
                assert forall|x: int| 0 <= x < after.len() && (#[trigger] after[x].parent) is Some implies x
                    < count by {
                    if x < root {
                        assert(after[x] == nodes[x]@);
                        if !whole@.contains(x as usize) {
                            assert(before[x] == old(nodes)[x]@);
                            assert(before[x].parent is Some);
                        } else {
                            let at = choose|at: int| 0 <= at < whole.len() && whole[at] == x;
                        }
                    }
                }
            }
            assert(grown(before, after)) by {
                assert forall|x: int| 0 <= x < before.len() && before[x].parent is Some implies (
                #[trigger] after[x]).parent is Some by {
                    assert(after[x] == nodes[x]@);
                    assert(before[x] == old(nodes)[x]@);
                    if whole@.contains(x as usize) {
                        let at = choose|at: int| 0 <= at < whole.len() && whole[at] == x;
                        assert(nodes[whole[at] as int]@.parent is Some);
                    }
                }
            }
            assert(calm(before, after, count as nat, root)) by {
                assert forall|x: int| count <= x < after.len() && x != root implies (
                #[trigger] after[x]).children.len() <= (if x < before.len() {
                    before[x].children.len()
                } else {
                    0
                }) by {
                    assert(after[x] == nodes[x]@);
                    assert(before[x] == old(nodes)[x]@);
                    assert(before[x].parent is None);
                    if whole@.contains(x as usize) {
                        let at = choose|at: int| 0 <= at < whole.len() && whole[at] == x;
                    }
                }
            }
            assert forall|j: int| 0 <= j < ids.len() implies nodes[#[trigger] ids[j] as int]@.parent is Some by {
                assert(ids[j] == whole[j]);
            }
            let cut = Cut {
                upright: up,
                upright_answers: up_answers,
                level: lv,
                level_answers: lv_answers,
                half: before,
                left: root,
                both: before,
            };
            assert(chosen(cut));
            assert(after[root as int].value.1 == root_value);
            assert(divided(before, ids@, big_frame, halve, side, after, root));
        }
        root
    } else {
        let left = divide(nodes, count, a, rect_a, halve, side);
        let ghost half = model(nodes@);
        let ghost half_nodes = nodes@;
        let right = divide(nodes, count, b, rect_b, halve, side);
        let ghost both = model(nodes@);
        let ghost both_nodes = nodes@;
        proof {
            lemma_grown_twice(before, half, both);
            assert(both[left as int] == nodes[left as int]@);
            assert(both[right as int] == nodes[right as int]@);
            assert(both[left as int].parent is None);
        }
        let root = conquer(nodes, left, right);
        proof {
            let after = model(nodes@);
            assert(after[root as int] == nodes[root as int]@);
            assert forall|x: int| 0 <= x < after.len() implies (after[x].parent is Some
                <==> #[trigger] both[x].parent is Some) by {
                assert(after[x] == nodes[x]@);
                assert(both[x] == both_nodes[x]@);
            }
            assert(grown(both, after));
            lemma_grown_twice(before, both, after);
            assert(reals_below(after, count as nat)) by {
                assert forall|x: int| 0 <= x < after.len() && (#[trigger] after[x].parent) is Some implies x
                    < count by {
                    assert(both[x].parent is Some);
                }
            }
            assert(after[root as int].value == both[root as int].value);
            assert(calm(before, after, count as nat, root)) by {
                assert forall|x: int| count <= x < after.len() && x != root implies (
                #[trigger] after[x]).children.len() <= (if x < before.len() {
                    before[x].children.len()
                } else {
                    0
                }) by {
                    assert(after[x] == nodes[x]@);
                    assert(both[x] == both_nodes[x]@);
                    assert(both[x].parent is None);
                    if x != left {
                        if x < half.len() {
                            assert(half[x].children.len() <= (if x < before.len() {
                                before[x].children.len()
                            } else {
                                0
                            }));
                        }
                    }
                }
            }
            if decisive(side) {
                assert forall|j: int| 0 <= j < ids.len() implies nodes[#[trigger] ids[j] as int]@.parent is Some by {
                    let x = ids[j] as int;
                    assert(after[x] == nodes[x]@);
                    assert(half[x] == half_nodes[x]@);
                    assert(both[x] == both_nodes[x]@);
                    if first.contains(ids[j]) {
                        let at = choose|at: int| 0 <= at < first.len() && first[at] == ids[j];
                        assert(half_nodes[first[at] as int]@.parent is Some);
                        assert(both[x].parent is Some);
                    } else {
                        let at = choose|at: int| 0 <= at < second.len() && second[at] == ids[j];
                        assert(both_nodes[second[at] as int]@.parent is Some);
                    }
                }
            }
            let cut = Cut {
                upright: up,
                upright_answers: up_answers,
                level: lv,
                level_answers: lv_answers,
                half,
                left,
                both,
            };
            assert(chosen(cut));
            assert(both[left as int].children == both_nodes[left as int]@.children);
            assert(divided(before, ids@, big_frame, halve, side, after, root));
        }
        root
    }
}

/// `divide` on at most two frames: see `few_divided`.
fn divide_few<R: Container + Default>(
    nodes: &mut Vec<Node<(isize, R)>>,
    count: usize,
    ids: &Vec<usize>,
) -> (root: usize)
    requires
        dividable(model(old(nodes)@), count as nat),
        in_arena(ids@, count as nat),
        ids.len() <= 2,
    ensures
        root == old(nodes).len(),
        final(nodes).len() == root + 1,
        dividable(model(final(nodes)@), count as nat),
        grown(model(old(nodes)@), model(final(nodes)@)),
        calm(model(old(nodes)@), model(final(nodes)@), count as nat, root),
        final(nodes)[root as int]@.parent is None,
        final(nodes)[root as int]@.value.0 == -1,
        few_divided(model(old(nodes)@), ids@, model(final(nodes)@), root),
        forall|j: int| 0 <= j < ids.len() ==> final(nodes)[#[trigger] ids[j] as int]@.parent is Some,
{
    let ghost before = model(nodes@);
    let n = ids.len();
    let root = plant(nodes, count);
    let ghost start = model(nodes@);
    let ghost seed = nodes[root as int]@.value;
    if n == 0 {
        return root;
    }
    let a = ids[0];
    hang(nodes, count, root, a);
    let ghost one = model(nodes@);
    proof {
        lemma_grown_twice(before, start, one);
        lemma_calm_twice(before, start, one, count as nat, root);
        assert(one[root as int] == nodes[root as int]@);
        assert(start[root as int].value == seed);
    }
    if n == 1 {
        return root;
    }
    let b = ids[1];
    hang(nodes, count, root, b);
    let ghost two = model(nodes@);
    proof {
        lemma_grown_twice(before, one, two);
        lemma_calm_twice(before, one, two, count as nat, root);
        assert(two[a as int] == nodes[a as int]@);
        assert(two[b as int] == nodes[b as int]@);
        assert(two[root as int] == nodes[root as int]@);
        assert(two[a as int].parent == Some(root));
        assert(two[b as int].parent == Some(root));
        assert(two[root as int].value == seed);
    }
    if a != b {
        if nodes[a].value().1.contains(&nodes[b].value().1) {
            nest(nodes, count, a, b);
            proof {
                lemma_grown_twice(before, two, model(nodes@));
                lemma_calm_twice(before, two, model(nodes@), count as nat, root);
            }
        } else if nodes[b].value().1.contains(&nodes[a].value().1) {
            nest(nodes, count, b, a);
            proof {
                lemma_grown_twice(before, two, model(nodes@));
                lemma_calm_twice(before, two, model(nodes@), count as nat, root);
            }
        }
    }
    proof {
        let after = model(nodes@);
        assert(after[root as int] == nodes[root as int]@);
        assert(after[a as int] == nodes[a as int]@);
        assert(after[b as int] == nodes[b as int]@);
        assert(after == two || grown(two, after));
        assert(after[a as int].parent is Some);
        assert(after[b as int].parent is Some);
        assert(after[root as int].value == seed);
        assert(two[root as int].parent is None);
        assert forall|j: int| 0 <= j < ids.len() implies nodes[#[trigger] ids[j] as int]@.parent is Some by {
            assert(ids[j] == a || ids[j] == b);
        }
    }
    root
}

/// The divide-and-conquer builder: the forest is first built on `frames`,
/// the bounding frames of the shapes of `nodes`, position by position, by
/// `divide` in the region `big_frame`; then it is copied onto `nodes` and
/// mended with the containment of the shapes (see `transpose_rec_to_any`).
/// Returns the position of the virtual root, which is the last node of the
/// arena. A node whose frame `divide` left in neither part of a stage ends
/// without a parent; where the side test puts every frame on a side, every
/// node ends below the root.
pub fn process_dac<T, R, S, H, P>(
    nodes: &mut Vec<Node<(isize, T)>>,
    frames: Vec<R>,
    big_frame: R,
    halve: &H,
    side: &P,
) -> (root: usize) where
    T: Container + Default,
    R: Container + Default,
    H: Fn(&R, bool) -> (R, S, R),
    P: Fn(&R, &S) -> (bool, bool),

    requires
        scattered(model(old(nodes)@)),
        frames.len() == old(nodes).len(),
        forall|r: &R, upright: bool| halve.requires((r, upright)),
        forall|r: &R, s: &S| side.requires((r, s)),
    ensures
        root == old(nodes).len(),
        final(nodes).len() == root + 1,
        linked(model(final(nodes)@)),
        acyclic(model(final(nodes)@)),
        same_values(model(old(nodes)@), model(final(nodes)@)),
        final(nodes)[root as int]@.parent is None,
        final(nodes)[root as int]@.value.0 == -1,
        decisive(side) ==> forall|x: int|
            0 <= x < root ==> (#[trigger] final(nodes)[x])@.parent is Some,
        decisive(side) ==> forall|x: usize|
            x < root ==> #[trigger] descends_from(model(final(nodes)@), x, root),
        exists|fm: Seq<NodeView<(isize, R)>>, from: usize|
            {
                &&& divided(
                    framed(model(old(nodes)@), frames@),
                    positions(root as nat),
                    big_frame,
                    halve,
                    side,
                    fm,
                    from,
                )
                &&& #[trigger] transposed(
                    fm,
                    model(old(nodes)@),
                    from,
                    final(nodes)[root as int]@.value.1,
                    model(final(nodes)@),
                )
            },
{
    let mut arena = generate_frames(nodes, frames);
    let count = arena.len();
    let ids = all_ids(count);
    proof {
        let fm = model(arena@);
        lemma_scattered_forest(fm);
        assert forall|x: int| 0 <= x < fm.len() && (#[trigger] fm[x].parent) is Some implies x
            < count by {
            assert(fm[x].parent is None);
        }
        assert(fm == framed(model(nodes@), frames@));
    }
    let ghost scattered_frames = model(arena@);
    let ghost every = ids@;
    let from = divide(&mut arena, count, ids, big_frame, halve, side);
    proof {
        let fm = model(arena@);
        assert(fm[from as int] == arena[from as int]@);
        if decisive(side) {
            assert forall|x: int| 0 <= x < count implies (#[trigger] fm[x].parent) is Some by {
                assert(every[x] == x);
                assert(fm[x] == arena[every[x] as int]@);
            }
            assert forall|x: int| count <= x < fm.len() && x != from implies (#[trigger] fm[x]).children.len()
                == 0 by {
                assert(x >= scattered_frames.len());
            }
            assert forall|x: usize| x < count implies #[trigger] descends_from(fm, x, from) by {
                lemma_real_below_root(fm, count as nat, from, x);
            }
        }
    }
    let root = transpose_rec_to_any(&arena, nodes, from, T::default());
    proof {
        let fm = model(arena@);
        if decisive(side) {
            assert forall|x: int| 0 <= x < root implies (#[trigger] nodes[x])@.parent is Some by {
                assert(fm[x] == arena[x]@);
                assert(fm[x].parent is Some);
                assert(descends_from(fm, x as usize, from));
            }
            lemma_hang_below_root(model(nodes@), nodes@, root);
        }
        assert(transposed(
            fm,
            model(old(nodes)@),
            from,
            nodes[root as int]@.value.1,
            model(nodes@),
        ));
    }
    root
}

/// In a forest in which the first `count` nodes have parents and no later
/// node but `root` has children, each of the first nodes hangs below `root`.
pub proof fn lemma_real_below_root<T>(m: Seq<NodeView<T>>, count: nat, root: usize, node: usize)
    requires
        linked(m),
        acyclic(m),
        node < count <= m.len(),
        forall|x: int| 0 <= x < count ==> (#[trigger] m[x].parent) is Some,
        forall|x: int| count <= x < m.len() && x != root ==> (#[trigger] m[x]).children.len() == 0,
    ensures
        descends_from(m, node, root),
{
    let depth = choose|depth: Seq<nat>| ranked(m, depth);
    let d = depth[node as int];
    assert(m[node as int].parent is Some);
    lemma_climb_exists(m, depth, node, d);
    lemma_climb_exists(m, depth, node, (d - 1) as nat);
    let top = ancestor(m, node, d).unwrap();
    let below = ancestor(m, node, (d - 1) as nat).unwrap();
    assert(m[below as int].parent == Some(top));
    assert(m[top as int].parent is Some ==> depth[top as int] > 0);
    assert(m[top as int].children[m[below as int].index as int] == below);
}

} // verus!
