//! Mending a forest that was built on over-approximations: a node whose
//! parent's shape does not contain its own moves up one level and looks for
//! a better parent there.

use crate::cmd::process::{find_container, first_container, lemma_first_container};
use crate::forest::{acyclic, lemma_adopted_ranked, lemma_not_below, ranked, shifted};
use crate::geo::Container;
use crate::tree::{
    ancestor, attached, grandparent_of, lemma_ancestor_in_arena, linked, model, upgraded, Node,
    NodeView,
};
use vstd::prelude::*;

verus! {

/// `node` hangs below a real parent whose shape does not contain its own.
pub open spec fn misplaced<T: Container>(m: Seq<NodeView<(isize, T)>>, root: usize, node: usize) -> bool {
    m[node as int].parent matches Some(p) && p != root && !m[p as int].value.1.encloses(
        &m[node as int].value.1,
    )
}

/// The arena after `node` has been mended: a misplaced node is upgraded, and
/// then adopted by the first of its new siblings, its former parent left
/// out, whose shape contains its own, if there is one. Any other node stays.
pub open spec fn mended<T: Container>(m: Seq<NodeView<(isize, T)>>, root: usize, node: usize) -> Seq<
    NodeView<(isize, T)>,
> {
    if misplaced(m, root, node) {
        let former = m[node as int].parent.unwrap();
        let u = upgraded(m, node);
        match first_container(u, u[node as int].parent.unwrap(), node, former, 0) {
            Some(b) => attached(u, node, b),
            None => u,
        }
    } else {
        m
    }
}

/// The arena after the entries of `order` behind the first, up to the
/// entry at `upto`, have been mended in turn.
pub open spec fn mended_upto<T: Container>(
    m: Seq<NodeView<(isize, T)>>,
    root: usize,
    order: Seq<usize>,
    upto: nat,
) -> Seq<NodeView<(isize, T)>>
    decreases upto,
{
    if upto <= 1 {
        m
    } else {
        mended(mended_upto(m, root, order, (upto - 1) as nat), root, order[upto - 1])
    }
}

/// Mends `node`: see `mended`.
pub fn mend<T: Container>(nodes: &mut Vec<Node<(isize, T)>>, root: usize, node: usize)
    requires
        linked(model(old(nodes)@)),
        node < old(nodes).len(),
    ensures
        model(final(nodes)@) == mended(model(old(nodes)@), root, node),
        linked(model(final(nodes)@)),
        final(nodes).len() == old(nodes).len(),
{
    let ghost m = model(nodes@);
    proof {
        assert(m[node as int] == nodes[node as int]@);
        assert(m[node as int].parent is Some ==> m[node as int].parent.unwrap() < m.len());
    }
    match nodes[node].parent() {
        Some(former) => {
            proof {
                assert(m[former as int] == nodes[former as int]@);
            }
            if former != root && !nodes[former].value().1.contains(&nodes[node].value().1) {
                proof {
                    lemma_upgraded_has_parent(m, node);
                }
                Node::upgrade(nodes, node);
                proof {
                    assert(model(nodes@)[node as int] == nodes[node as int]@);
                }
                match find_container(nodes, node, former) {
                    Some(brother) => Node::adopt(nodes, brother, node),
                    None => {},
                }
            }
        },
        None => {},
    }
}

/// A node that has a parent has one after an upgrade too.
pub proof fn lemma_upgraded_has_parent<T>(m: Seq<NodeView<T>>, node: usize)
    requires
        linked(m),
        m.len() <= usize::MAX,
        node < m.len(),
        m[node as int].parent is Some,
    ensures
        upgraded(m, node)[node as int].parent is Some,
{
    lemma_ancestor_in_arena(m, node, 2);
    match grandparent_of(m, node) {
        Some(g) => {
            crate::tree::lemma_adopted_is_child(m, g, node);
        },
        None => {},
    }
}

/// An upgrade keeps a forest a forest; no payload changes, and no parent
/// link but that of the node, which keeps having a parent if it had one.
pub proof fn lemma_upgraded_forest<T>(m: Seq<NodeView<T>>, node: usize)
    requires
        linked(m),
        acyclic(m),
        m.len() <= usize::MAX,
        node < m.len(),
    ensures
        ({
            let u = upgraded(m, node);
            &&& u.len() == m.len()
            &&& linked(u)
            &&& acyclic(u)
            &&& forall|i: int| 0 <= i < m.len() ==> (#[trigger] u[i]).value == m[i].value
            &&& forall|i: int| 0 <= i < m.len() && i != node ==> (#[trigger] u[i]).parent == m[i].parent
            &&& m[node as int].parent is Some ==> u[node as int].parent is Some
            &&& m[node as int].parent is None ==> u == m
        }),
{
    reveal_with_fuel(ancestor, 3);
    let depth = choose|depth: Seq<nat>| ranked(m, depth);
    lemma_ancestor_in_arena(m, node, 2);
    match grandparent_of(m, node) {
        Some(g) => {
            let p = m[node as int].parent.unwrap();
            assert(m[node as int].parent == Some(p));
            assert(m[p as int].parent == Some(g));
            lemma_not_below(m, depth, g, node);
            lemma_adopted_ranked(m, depth, g, node);
            assert(ranked(upgraded(m, node), shifted(m, depth, node, g)));
        },
        None => {},
    }
}

/// Mending keeps a forest a forest; no payload changes, and no parent link
/// but that of the node, which keeps having a parent if it had one.
pub proof fn lemma_mended_forest<T: Container>(m: Seq<NodeView<(isize, T)>>, root: usize, node: usize)
    requires
        linked(m),
        acyclic(m),
        m.len() <= usize::MAX,
        node < m.len(),
    ensures
        ({
            let f = mended(m, root, node);
            &&& f.len() == m.len()
            &&& linked(f)
            &&& acyclic(f)
            &&& forall|i: int| 0 <= i < m.len() ==> (#[trigger] f[i]).value == m[i].value
            &&& forall|i: int| 0 <= i < m.len() && i != node ==> (#[trigger] f[i]).parent == m[i].parent
            &&& m[node as int].parent is Some ==> f[node as int].parent is Some
            &&& m[node as int].parent is None ==> f == m
        }),
{
    if misplaced(m, root, node) {
        let former = m[node as int].parent.unwrap();
        lemma_upgraded_forest(m, node);
        let u = upgraded(m, node);
        let depth = choose|depth: Seq<nat>| ranked(u, depth);
        let p = u[node as int].parent.unwrap();
        assert(u[node as int].parent == Some(p));
        match first_container(u, p, node, former, 0) {
            Some(b) => {
                lemma_first_container(u, p, node, former, 0);
                assert(u[b as int].parent == Some(p));
                lemma_not_below(u, depth, b, node);
                lemma_adopted_ranked(u, depth, b, node);
                let f = attached(u, node, b);
                assert(ranked(f, shifted(u, depth, node, b)));
                assert forall|i: int| 0 <= i < m.len() implies (#[trigger] f[i]).value
                    == m[i].value by {
                    assert(u[i].value == m[i].value);
                }
                assert forall|i: int| 0 <= i < m.len() && i != node implies (#[trigger] f[i]).parent
                    == m[i].parent by {
                    assert(u[i].parent == m[i].parent);
                }
            },
            None => {},
        }
    }
}

} // verus!
