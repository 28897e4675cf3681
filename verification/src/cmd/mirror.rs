//! Copying the shape of one forest onto the fresh nodes of another arena.
//! The two arenas name their first nodes alike; the root of the first forest
//! stands for a new virtual root of the second.

use crate::forest::{acyclic, ranked};
use crate::tree::{
    ancestor, appended, attached, descends_from, in_arena, lemma_ancestor_ends,
    lemma_ancestor_via_parent, linked, model, Node, NodeView,
};
use vstd::prelude::*;

verus! {

/// The node of the second arena that stands for node `p` of the first.
pub open spec fn image(p: usize, from: usize, root: usize) -> usize {
    if p == from {
        root
    } else {
        p
    }
}

/// No node has a parent or a child.
pub open spec fn scattered<T>(m: Seq<NodeView<T>>) -> bool {
    forall|x: int| 0 <= x < m.len() ==> (#[trigger] m[x]).parent is None && m[x].children.len() == 0
}

/// What the copy asks of the first arena: it is a forest, `from` is a
/// parentless node behind its first `n` nodes, and only those first nodes
/// have parents.
pub open spec fn copyable<R>(fm: Seq<NodeView<R>>, n: nat, from: usize) -> bool {
    &&& linked(fm)
    &&& acyclic(fm)
    &&& n <= from < fm.len()
    &&& fm[from as int].parent is None
    &&& forall|x: int| 0 <= x < fm.len() && (#[trigger] fm[x].parent) is Some ==> x < n
}

/// How many children of `p` have been copied once the parents
/// `order[..i]` are done and `k` children of `order[i]` are.
pub open spec fn progress<R>(fm: Seq<NodeView<R>>, order: Seq<usize>, i: int, k: int, p: usize) -> int {
    if order.take(i).contains(p) {
        fm[p as int].children.len() as int
    } else if 0 <= i < order.len() && order[i] == p {
        k
    } else {
        0
    }
}

/// The second arena holds the copy as far as it has come.
pub open spec fn mirrored<R, T>(
    fm: Seq<NodeView<R>>,
    nm: Seq<NodeView<T>>,
    order: Seq<usize>,
    i: int,
    k: int,
    from: usize,
) -> bool {
    let root = (nm.len() - 1) as usize;
    &&& nm.len() >= 1
    &&& forall|x: int|
        0 <= x < root ==> #[trigger] nm[x].parent == match fm[x].parent {
            Some(p) => if fm[x].index < progress(fm, order, i, k, p) {
                Some(image(p, from, root))
            } else {
                None
            },
            None => None,
        }
    &&& forall|x: int|
        0 <= x < root ==> #[trigger] nm[x].children == fm[x].children.take(
            progress(fm, order, i, k, x as usize),
        )
    &&& nm[root as int].parent is None
    &&& nm[root as int].children == fm[from as int].children.take(progress(fm, order, i, k, from))
}

/// A node from which a climb reaches `from` is `from` or one of the first
/// `n` nodes.
pub proof fn lemma_below_is_early<R>(fm: Seq<NodeView<R>>, n: nat, from: usize, p: usize)
    requires
        copyable(fm, n, from),
        p < fm.len(),
        descends_from(fm, p, from),
    ensures
        p == from || p < n,
{
    let hops = choose|hops: nat| ancestor(fm, p, hops) == Some(from);
    assert(ancestor(fm, p, 0) == Some(p));
    if hops > 0 && fm[p as int].parent is None {
        lemma_ancestor_ends(fm, p, 0, hops);
    }
}

/// Copying one more child keeps the copy in step.
pub proof fn lemma_mirror_step<R, T>(
    fm: Seq<NodeView<R>>,
    nm: Seq<NodeView<T>>,
    order: Seq<usize>,
    i: int,
    k: int,
    from: usize,
)
    requires
        copyable(fm, (nm.len() - 1) as nat, from),
        nm.len() <= usize::MAX,
        mirrored(fm, nm, order, i, k, from),
        order.no_duplicates(),
        0 <= i < order.len(),
        order[i] < fm.len(),
        order[i] == from || order[i] < nm.len() - 1,
        0 <= k < fm[order[i] as int].children.len(),
    ensures
        ({
            let root = (nm.len() - 1) as usize;
            let c = fm[order[i] as int].children[k];
            let target = image(order[i], from, root);
            &&& c < root
            &&& target < nm.len()
            &&& attached(nm, c, target) == appended(nm, c, target)
            &&& mirrored(fm, appended(nm, c, target), order, i, k + 1, from)
            &&& forall|x: int| 0 <= x < nm.len() ==> (#[trigger] appended(nm, c, target)[x]).value == nm[x].value
            &&& forall|x: int|
                0 <= x < nm.len() && x != c ==> (#[trigger] appended(nm, c, target)[x]).index
                    == nm[x].index && appended(nm, c, target)[x].parent == nm[x].parent
            &&& appended(nm, c, target)[c as int].parent is Some
        }),
{
    let root = (nm.len() - 1) as usize;
    let p = order[i];
    let c = fm[p as int].children[k];
    let target = image(p, from, root);
    let after = appended(nm, c, target);
    assert(fm[fm[p as int].children[k] as int].parent == Some(p));
    assert(fm[c as int].index == k);
    assert(c < root);
    assert(!order.take(i).contains(p)) by {
        if order.take(i).contains(p) {
            let j = choose|j: int| 0 <= j < i && #[trigger] order.take(i)[j] == p;
            assert(order[j] == order[i]);
        }
    }
    assert(progress(fm, order, i, k, p) == k);
    assert(progress(fm, order, i, k + 1, p) == k + 1);
    assert(nm[c as int].parent is None);
    assert(c != p) by {
        let depth = choose|depth: Seq<nat>| ranked(fm, depth);
        assert(fm[c as int].parent == Some(p));
    }
    assert(c != target);
    assert(nm[target as int].children == fm[p as int].children.take(k));
    assert(after[target as int].children =~= fm[p as int].children.take(k + 1));
    assert forall|x: int| 0 <= x < root implies #[trigger] after[x].parent == match fm[x].parent {
        Some(q) => if fm[x].index < progress(fm, order, i, k + 1, q) {
            Some(image(q, from, root))
        } else {
            None
        },
        None => None,
    } by {
        assert(nm[x].parent == match fm[x].parent {
            Some(q) => if fm[x].index < progress(fm, order, i, k, q) {
                Some(image(q, from, root))
            } else {
                None
            },
            None => None,
        });
        match fm[x].parent {
            Some(q) => {
                if q == p {
                    assert(fm[q as int].children[fm[x].index as int] == x);
                } else {
                    assert(progress(fm, order, i, k + 1, q) == progress(fm, order, i, k, q));
                }
            },
            None => {},
        }
    }
    assert forall|x: int| 0 <= x < root implies #[trigger] after[x].children
        == fm[x].children.take(progress(fm, order, i, k + 1, x as usize)) by {
        assert(nm[x].children == fm[x].children.take(progress(fm, order, i, k, x as usize)));
        if x != p {
            assert(progress(fm, order, i, k + 1, x as usize) == progress(
                fm,
                order,
                i,
                k,
                x as usize,
            ));
        }
    }
    if p != from {
        assert(progress(fm, order, i, k + 1, from) == progress(fm, order, i, k, from));
    }
}

/// Once all children of one parent are copied, the copy stands at the start
/// of the next parent.
pub proof fn lemma_mirror_next<R, T>(
    fm: Seq<NodeView<R>>,
    nm: Seq<NodeView<T>>,
    order: Seq<usize>,
    i: int,
    from: usize,
)
    requires
        order.no_duplicates(),
        0 <= i < order.len(),
        mirrored(fm, nm, order, i, fm[order[i] as int].children.len() as int, from),
    ensures
        mirrored(fm, nm, order, i + 1, 0, from),
{
    let full = fm[order[i] as int].children.len() as int;
    assert forall|p: usize| progress(fm, order, i, full, p) == progress(fm, order, i + 1, 0, p) by {
        assert(order.take(i + 1) =~= order.take(i).push(order[i]));
        if order.take(i).contains(p) {
            let j = choose|j: int| 0 <= j < i && #[trigger] order.take(i)[j] == p;
            assert(order.take(i + 1)[j] == p);
        } else if order[i] == p {
            assert(order.take(i + 1)[i] == p);
        } else {
            if order.take(i + 1).contains(p) {
                let j = choose|j: int| 0 <= j < i + 1 && #[trigger] order.take(i + 1)[j] == p;
                assert(order.take(i)[j] == p);
            }
            if i + 1 < order.len() && order[i + 1] == p {
            }
        }
        if order.take(i + 1).contains(p) && i + 1 < order.len() && order[i + 1] == p {
            let j = choose|j: int| 0 <= j < i + 1 && #[trigger] order.take(i + 1)[j] == p;
            assert(order[j] == order[i + 1]);
        }
    }
    let root = (nm.len() - 1) as usize;
    assert forall|x: int| 0 <= x < root implies #[trigger] nm[x].parent == match fm[x].parent {
        Some(p) => if fm[x].index < progress(fm, order, i + 1, 0, p) {
            Some(image(p, from, root))
        } else {
            None
        },
        None => None,
    } by {
        match fm[x].parent {
            Some(p) => {
                assert(progress(fm, order, i, full, p) == progress(fm, order, i + 1, 0, p));
            },
            None => {},
        }
    }
    assert forall|x: int| 0 <= x < root implies #[trigger] nm[x].children == fm[x].children.take(
        progress(fm, order, i + 1, 0, x as usize),
    ) by {
        assert(progress(fm, order, i, full, x as usize) == progress(fm, order, i + 1, 0, x as usize));
    }
    assert(progress(fm, order, i, full, from) == progress(fm, order, i + 1, 0, from));
}

/// The second arena holds the whole copy: below its last node, which
/// stands for `from`, hang the nodes that hang below `from` in the first
/// arena, each with the same children in the same order; the other nodes
/// have neither parent nor child.
pub open spec fn copied<R, T>(fm: Seq<NodeView<R>>, nm: Seq<NodeView<T>>, from: usize) -> bool {
    let root = (nm.len() - 1) as usize;
    &&& nm.len() >= 1
    &&& forall|x: int|
        0 <= x < root ==> #[trigger] nm[x].parent == match fm[x].parent {
            Some(p) => if descends_from(fm, x as usize, from) {
                Some(image(p, from, root))
            } else {
                None
            },
            None => None,
        }
    &&& forall|x: int|
        0 <= x < root ==> #[trigger] nm[x].children == if descends_from(fm, x as usize, from) {
            fm[x].children
        } else {
            Seq::empty()
        }
    &&& nm[root as int].parent is None
    &&& nm[root as int].children == fm[from as int].children
}

/// Where the copy has gone through a whole breadth-first order of the first
/// forest, it is complete, and it is a forest.
pub proof fn lemma_mirror_done<R, T>(
    fm: Seq<NodeView<R>>,
    nm: Seq<NodeView<T>>,
    order: Seq<usize>,
    from: usize,
)
    requires
        copyable(fm, (nm.len() - 1) as nat, from),
        nm.len() <= usize::MAX,
        mirrored(fm, nm, order, order.len() as int, 0, from),
        forall|i: int| 0 <= i < order.len() ==> descends_from(fm, #[trigger] order[i], from),
        forall|x: usize| x < fm.len() && descends_from(fm, x, from) ==> order.contains(x),
    ensures
        copied(fm, nm, from),
        acyclic(nm),
{
    let root = (nm.len() - 1) as usize;
    let depth = choose|depth: Seq<nat>| ranked(fm, depth);
    assert(order.take(order.len() as int) =~= order);
    assert(ancestor(fm, from, 0) == Some(from));
    assert(descends_from(fm, from, from));
    assert forall|p: usize| p < fm.len() implies progress(fm, order, order.len() as int, 0, p) == (
    if descends_from(fm, p, from) {
        fm[p as int].children.len() as int
    } else {
        0
    }) by {
        if order.contains(p) {
            let j = choose|j: int| 0 <= j < order.len() && order[j] == p;
            assert(descends_from(fm, order[j], from));
        }
    }
    assert forall|x: int| 0 <= x < root && descends_from(fm, x as usize, from) implies (
    #[trigger] fm[x].parent) matches Some(p) && descends_from(fm, p, from) by {
        let node = x as usize;
        let hops = choose|hops: nat| ancestor(fm, node, hops) == Some(from);
        assert(ancestor(fm, node, 0) == Some(node));
        assert(hops > 0);
        match fm[x].parent {
            Some(p) => {
                lemma_ancestor_via_parent(fm, node, (hops - 1) as nat);
            },
            None => {
                lemma_ancestor_ends(fm, node, 0, hops);
            },
        }
    }
    assert forall|x: int| 0 <= x < root implies #[trigger] nm[x].parent == match fm[x].parent {
        Some(p) => if descends_from(fm, x as usize, from) {
            Some(image(p, from, root))
        } else {
            None
        },
        None => None,
    } by {
        match fm[x].parent {
            Some(p) => {
                assert(p < fm.len());
                assert(fm[x].index < fm[p as int].children.len());
                if descends_from(fm, p, from) {
                    let hops = choose|hops: nat| ancestor(fm, p, hops) == Some(from);
                    lemma_ancestor_via_parent(fm, x as usize, hops);
                    assert(ancestor(fm, x as usize, hops + 1) == Some(from));
                }
            },
            None => {},
        }
    }
    assert forall|x: int| 0 <= x < root implies #[trigger] nm[x].children == if descends_from(
        fm,
        x as usize,
        from,
    ) {
        fm[x].children
    } else {
        Seq::empty()
    } by {
        assert(fm[x].children.take(fm[x].children.len() as int) =~= fm[x].children);
        assert(fm[x].children.take(0) =~= Seq::<usize>::empty());
    }
    assert(fm[from as int].children.take(fm[from as int].children.len() as int)
        =~= fm[from as int].children);
    let level = Seq::new(
        nm.len(),
        |x: int|
            if x < root && descends_from(fm, x as usize, from) {
                depth[x]
            } else {
                0nat
            },
    );
    assert forall|x: int| 0 <= x < nm.len() implies match #[trigger] nm[x].parent {
        Some(p) => p < nm.len() && level[x] == level[p as int] + 1,
        None => level[x] == 0,
    } by {
        if x < root {
            match fm[x].parent {
                Some(p) => {
                    if descends_from(fm, x as usize, from) {
                        assert(descends_from(fm, p, from));
                        lemma_below_is_early(fm, root as nat, from, p);
                    }
                },
                None => {},
            }
        }
    }
    assert(ranked(nm, level));
}

/// Copies the forest below `from` onto `nodes`, whose nodes have neither
/// parent nor child: a new virtual root with `root_value` and the index -1
/// stands for `from`, and every node below `from` is adopted by what stands
/// for its parent, in the order of the child list it comes from. Returns the
/// position of the new root.
pub fn mirror<R, T>(
    frames: &Vec<Node<(isize, R)>>,
    nodes: &mut Vec<Node<(isize, T)>>,
    from: usize,
    root_value: T,
) -> (root: usize)
    requires
        copyable(model(frames@), old(nodes)@.len(), from),
        scattered(model(old(nodes)@)),
    ensures
        root == old(nodes).len(),
        final(nodes).len() == root + 1,
        copied(model(frames@), model(final(nodes)@), from),
        linked(model(final(nodes)@)),
        acyclic(model(final(nodes)@)),
        final(nodes)[root as int]@.value == (-1isize, root_value),
        final(nodes)[root as int]@.index == 0,
        forall|x: int| 0 <= x < root ==> (#[trigger] final(nodes)[x])@.value == old(nodes)[x]@.value,
        forall|x: int|
            0 <= x < root && final(nodes)[x]@.parent is None ==> (#[trigger] final(nodes)[x])@.index
                == old(nodes)[x]@.index,
{
    let ghost fm = model(frames@);
    let ghost before = model(nodes@);
    let root = nodes.len();
    let fresh = Node::new((-1isize, root_value));
    nodes.push(fresh);
    proof {
        assert forall|hops: nat| hops >= 1 implies ancestor(fm, from, hops) != Some(from) by {
            assert(ancestor(fm, from, 0) == Some(from));
            lemma_ancestor_ends(fm, from, 0, hops);
        }
    }
    let order = Node::bfs(frames, from);
    proof {
        let nm = model(nodes@);
        assert(order@.take(0) =~= Seq::<usize>::empty());
        assert forall|x: int| 0 <= x < nm.len() implies (#[trigger] nm[x]).parent is None
            && nm[x].children.len() == 0 by {
            if x < root {
                assert(nm[x] == before[x]);
            }
        }
        assert forall|x: int| 0 <= x < root implies #[trigger] nm[x].children
            == fm[x].children.take(progress(fm, order@, 0, 0, x as usize)) by {
            assert(nm[x].children.len() == 0);
            assert(nm[x].children =~= fm[x].children.take(0));
        }
        assert(nm[root as int].children =~= fm[from as int].children.take(0));
        assert forall|x: int| 0 <= x < root implies #[trigger] nm[x].parent == match fm[x].parent {
            Some(p) => if fm[x].index < progress(fm, order@, 0, 0, p) {
                Some(image(p, from, root))
            } else {
                None
            },
            None => None,
        } by {
            assert(nm[x].parent is None);
        }
        assert(mirrored(fm, nm, order@, 0, 0, from));
        assert(linked(nm));
    }
    let mut i: usize = 0;
    while i < order.len()
        invariant
            i <= order.len(),
            fm == model(frames@),
            root == before.len(),
            nodes.len() == root + 1,
            copyable(fm, root as nat, from),
            order@.no_duplicates(),
            in_arena(order@, fm.len()),
            forall|j: int| 0 <= j < order.len() ==> descends_from(fm, #[trigger] order[j], from),
            mirrored(fm, model(nodes@), order@, i as int, 0, from),
            linked(model(nodes@)),
            nodes[root as int]@.value == (-1isize, root_value),
            nodes[root as int]@.index == 0,
            forall|x: int| 0 <= x < root ==> (#[trigger] nodes[x])@.value == before[x].value,
            forall|x: int|
                0 <= x < root && nodes[x]@.parent is None ==> (#[trigger] nodes[x])@.index
                    == before[x].index,
        decreases order.len() - i,
    {
        let p = order[i];
        let target = if p == from {
            root
        } else {
            p
        };
        let kids = frames[p].children();
        proof {
            assert(descends_from(fm, order[i as int], from));
            lemma_below_is_early(fm, root as nat, from, p);
            assert(fm[p as int] == frames[p as int]@);
        }
        let mut k: usize = 0;
        while k < kids.len()
            invariant
                k <= kids.len(),
                i < order.len(),
                p == order[i as int],
                p < fm.len(),
                p == from || p < root,
                target == image(p, from, root),
                kids@ == fm[p as int].children,
                root == before.len(),
                nodes.len() == root + 1,
                copyable(fm, root as nat, from),
                order@.no_duplicates(),
                mirrored(fm, model(nodes@), order@, i as int, k as int, from),
                linked(model(nodes@)),
                nodes[root as int]@.value == (-1isize, root_value),
                nodes[root as int]@.index == 0,
                forall|x: int| 0 <= x < root ==> (#[trigger] nodes[x])@.value == before[x].value,
                forall|x: int|
                    0 <= x < root && nodes[x]@.parent is None ==> (#[trigger] nodes[x])@.index
                        == before[x].index,
            decreases kids.len() - k,
        {
            let child = kids[k];
            let ghost nm = model(nodes@);
            proof {
                lemma_mirror_step(fm, nm, order@, i as int, k as int, from);
            }
            Node::adopt(nodes, target, child);
            proof {
                let after = model(nodes@);
                assert(after[root as int] == nodes[root as int]@);
                assert(nm[root as int].value == (-1isize, root_value));
                assert forall|x: int| 0 <= x < root implies (#[trigger] nodes[x])@.value
                    == before[x].value by {
                    assert(after[x] == nodes[x]@);
                    assert(after[x].value == nm[x].value);
                }
                assert(nm[root as int].index == 0);
                assert(after[root as int].index == nm[root as int].index);
                assert forall|x: int| 0 <= x < root && nodes[x]@.parent is None implies (
                #[trigger] nodes[x])@.index == before[x].index by {
                    assert(after[x] == nodes[x]@);
                    if x != child {
                        assert(after[x].index == nm[x].index);
                        assert(after[x].parent == nm[x].parent);
                    }
                }
            }
            k += 1;
        }
        proof {
            lemma_mirror_next(fm, model(nodes@), order@, i as int, from);
        }
        i += 1;
    }
    proof {
        lemma_mirror_done(fm, model(nodes@), order@, from);
    }
    root
}

} // verus!
