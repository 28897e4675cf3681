//! A mutable rooted tree kept in an arena: a node is named by its position
//! in a `Vec<Node<T>>`, its children are a contiguous list of positions and
//! its parent, when it has one, is a position too.

use std::collections::VecDeque;
use vstd::prelude::*;

verus! {

/// One node of the arena.
#[derive(Clone, Debug)]
pub struct Node<T> {
    children: Vec<usize>,
    index: usize,
    parent: Option<usize>,
    value: T,
}

/// What a node holds, as mathematics.
pub ghost struct NodeView<T> {
    /// The positions of the children, in child-list order.
    pub children: Seq<usize>,
    /// The slot that the node filled in its parent's child list when it was
    /// last attached.
    pub index: usize,
    /// The position of the parent, if any.
    pub parent: Option<usize>,
    /// The payload.
    pub value: T,
}

impl<T> View for Node<T> {
    type V = NodeView<T>;

    closed spec fn view(&self) -> NodeView<T> {
        NodeView {
            children: self.children@,
            index: self.index,
            parent: self.parent,
            value: self.value,
        }
    }
}

/// The arena as a sequence of node views.
pub open spec fn model<T>(nodes: Seq<Node<T>>) -> Seq<NodeView<T>> {
    Seq::new(nodes.len(), |i: int| nodes[i]@)
}

/// Every slot of every child list names a node that points back to that
/// very slot.
pub open spec fn children_point_back<T>(m: Seq<NodeView<T>>) -> bool {
    forall|p: int, k: int|
        0 <= p < m.len() && 0 <= k < m[p].children.len() ==> {
            &&& (#[trigger] m[p].children[k]) < m.len()
            &&& m[m[p].children[k] as int].parent matches Some(q) && q == p
            &&& m[m[p].children[k] as int].index == k
        }
}

/// Every parent link names a node whose child list holds the node in the
/// slot that the node records.
pub open spec fn parents_hold_children<T>(m: Seq<NodeView<T>>) -> bool {
    forall|c: int|
        0 <= c < m.len() ==> match #[trigger] m[c].parent {
            Some(p) => {
                &&& p < m.len()
                &&& m[c].index < m[p as int].children.len()
                &&& m[p as int].children[m[c].index as int] == c
            },
            None => true,
        }
}

/// The arena's invariant: child lists and parent links agree.
pub open spec fn linked<T>(m: Seq<NodeView<T>>) -> bool {
    children_point_back(m) && parents_hold_children(m)
}

/// The arena after `child` has left its parent's child list: the last
/// sibling takes the freed slot. A node without a parent stays as it is.
pub open spec fn detached<T>(m: Seq<NodeView<T>>, child: usize) -> Seq<NodeView<T>> {
    let child = child as int;
    match m[child].parent {
        Some(p) => {
            let k = m[child].index;
            let siblings = m[p as int].children;
            let moved = siblings.last();
            let m1 = m.update(moved as int, NodeView { index: k, ..m[moved as int] });
            let m2 = m1.update(
                p as int,
                NodeView { children: siblings.update(k as int, moved).drop_last(), ..m1[p as int] },
            );
            m2.update(child, NodeView { parent: None, ..m2[child] })
        },
        None => m,
    }
}

/// The arena after `child` has left its parent, if it had one, and has been
/// appended to the child list of `parent`.
pub open spec fn attached<T>(m: Seq<NodeView<T>>, child: usize, parent: usize) -> Seq<NodeView<T>> {
    appended(detached(m, child), child, parent)
}

/// The arena after `child` has been put at the end of the child list of
/// `parent` and has recorded its slot and its parent.
pub open spec fn appended<T>(d: Seq<NodeView<T>>, child: usize, parent: usize) -> Seq<NodeView<T>> {
    let d1 = d.update(
        child as int,
        NodeView {
            index: d[parent as int].children.len() as usize,
            parent: Some(parent),
            ..d[child as int]
        },
    );
    d1.update(
        parent as int,
        NodeView { children: d1[parent as int].children.push(child), ..d1[parent as int] },
    )
}

/// The node reached from `node` by `hops` steps along parent links, if the
/// chain is that long.
pub open spec fn ancestor<T>(m: Seq<NodeView<T>>, node: usize, hops: nat) -> Option<usize>
    decreases hops,
{
    if hops == 0 {
        Some(node)
    } else {
        match ancestor(m, node, (hops - 1) as nat) {
            Some(a) => m[a as int].parent,
            None => None,
        }
    }
}

/// The parent of the parent, if both exist.
pub open spec fn grandparent_of<T>(m: Seq<NodeView<T>>, node: usize) -> Option<usize> {
    ancestor(m, node, 2)
}

/// The arena after `node` has been attached to its grandparent; a node
/// without a grandparent stays where it is.
pub open spec fn upgraded<T>(m: Seq<NodeView<T>>, node: usize) -> Seq<NodeView<T>> {
    match grandparent_of(m, node) {
        Some(g) => attached(m, node, g),
        None => m,
    }
}

/// The child lists of the nodes of `order`, one after the other.
pub open spec fn offspring<T>(m: Seq<NodeView<T>>, order: Seq<usize>) -> Seq<usize>
    decreases order.len(),
{
    if order.len() == 0 {
        Seq::empty()
    } else {
        offspring(m, order.drop_last()) + m[order.last() as int].children
    }
}

/// The equation of a breadth-first order below `start`: the order begins
/// with `start`, and what follows is the child list of its first entry, then
/// that of its second, and so on to its last: level by level, left to right
/// within a level.
pub open spec fn level_order<T>(m: Seq<NodeView<T>>, start: usize, order: Seq<usize>) -> bool {
    order == seq![start] + offspring(m, order)
}

/// No walk along parent links leads from `node` back to `node`.
pub open spec fn off_cycle<T>(m: Seq<NodeView<T>>, node: usize) -> bool {
    forall|hops: nat| hops >= 1 ==> ancestor(m, node, hops) != Some(node)
}

/// Some walk along parent links leads from `node` to `start`.
pub open spec fn descends_from<T>(m: Seq<NodeView<T>>, node: usize, start: usize) -> bool {
    exists|hops: nat| ancestor(m, node, hops) == Some(start)
}

/// What holds in the middle of a breadth-first traversal from `start`, of
/// the nodes yielded so far and those that wait.
pub open spec fn traversal<T>(
    m: Seq<NodeView<T>>,
    start: usize,
    done: Seq<usize>,
    waiting: Seq<usize>,
) -> bool {
    let all = done + waiting;
    &&& all == seq![start] + offspring(m, done)
    &&& all.no_duplicates()
    &&& in_arena(all, m.len())
    &&& forall|i: int| 0 <= i < all.len() ==> descends_from(m, #[trigger] all[i], start)
    &&& forall|i: int|
        0 <= i < all.len() ==> (#[trigger] all[i]) == start || (m[all[i] as int].parent matches Some(p)
            && done.contains(p))
}

/// Every entry of `ids` names a node of an arena of `len` nodes.
pub open spec fn in_arena(ids: Seq<usize>, len: nat) -> bool {
    forall|i: int| 0 <= i < ids.len() ==> ids[i] < len
}

impl<T> Node<T> {
    /// A fresh node: no parent, no children.
    pub fn new(value: T) -> (node: Self)
        ensures
            node@ == (NodeView { children: Seq::<usize>::empty(), index: 0, parent: None, value }),
    {
        Node { children: Vec::new(), index: 0, parent: None, value }
    }

    /// The positions of the node's children, in child-list order.
    pub fn children(&self) -> (list: &Vec<usize>)
        ensures
            list@ == self@.children,
    {
        &self.children
    }

    /// Whether the node has no children.
    pub fn is_leaf(&self) -> (leaf: bool)
        ensures
            leaf == (self@.children.len() == 0),
    {
        self.children.len() == 0
    }

    /// Whether the node has no parent.
    pub fn is_root(&self) -> (root: bool)
        ensures
            root == (self@.parent is None),
    {
        self.parent.is_none()
    }

    /// The position of the node's parent, if it has one.
    pub fn parent(&self) -> (parent: Option<usize>)
        ensures
            parent == self@.parent,
    {
        self.parent
    }

    /// Replaces the payload and leaves the links alone.
    pub fn set_value(&mut self, value: T)
        ensures
            final(self)@ == (NodeView { value, ..old(self)@ }),
    {
        self.value = value;
    }

    /// The payload.
    pub fn value(&self) -> (value: &T)
        ensures
            *value == self@.value,
    {
        &self.value
    }

    /// Detaches `child` from its parent, if it has one, and appends it to the
    /// child list of `parent`, where it records its slot.
    pub fn attach(nodes: &mut Vec<Node<T>>, child: usize, parent: usize)
        requires
            linked(model(old(nodes)@)),
            child < old(nodes).len(),
            parent < old(nodes).len(),
        ensures
            model(final(nodes)@) == attached(model(old(nodes)@), child, parent),
            linked(model(final(nodes)@)),
            final(nodes).len() == old(nodes).len(),
    {
        let ghost m = model(nodes@);
        Self::detach(nodes, child);
        proof {
            lemma_detached_linked(m, child);
            lemma_attached_linked(m, child, parent);
        }
        Self::append(nodes, child, parent);
    }

    /// Puts `child` at the end of the child list of `parent` and has it
    /// record its slot and its parent.
    fn append(nodes: &mut Vec<Node<T>>, child: usize, parent: usize)
        requires
            child < old(nodes).len(),
            parent < old(nodes).len(),
        ensures
            model(final(nodes)@) == appended(model(old(nodes)@), child, parent),
    {
        let ghost d = model(nodes@);
        let index = nodes[parent].children.len();
        nodes[child].index = index;
        nodes[child].parent = Some(parent);
        nodes[parent].children.push(child);
        proof {
            assert(d[parent as int].children == old(nodes)[parent as int]@.children);
            assert(model(nodes@) =~= appended(d, child, parent));
        }
    }

    /// `parent` takes `child` as its last child: see `attach`.
    pub fn adopt(nodes: &mut Vec<Node<T>>, parent: usize, child: usize)
        requires
            linked(model(old(nodes)@)),
            child < old(nodes).len(),
            parent < old(nodes).len(),
        ensures
            model(final(nodes)@) == attached(model(old(nodes)@), child, parent),
            linked(model(final(nodes)@)),
            final(nodes).len() == old(nodes).len(),
    {
        Self::attach(nodes, child, parent);
    }

    /// Takes `child` out of its parent's child list; a node without a parent
    /// is left as it is.
    pub fn detach(nodes: &mut Vec<Node<T>>, child: usize)
        requires
            linked(model(old(nodes)@)),
            child < old(nodes).len(),
        ensures
            model(final(nodes)@) == detached(model(old(nodes)@), child),
            linked(model(final(nodes)@)),
            final(nodes).len() == old(nodes).len(),
    {
        match nodes[child].parent {
            Some(parent) => Self::abandon(nodes, parent, child),
            None => {},
        }
    }

    /// The parent of the parent of `node`, if both exist.
    pub fn grandparent(nodes: &Vec<Node<T>>, node: usize) -> (found: Option<usize>)
        requires
            linked(model(nodes@)),
            node < nodes.len(),
        ensures
            found == grandparent_of(model(nodes@), node),
    {
        proof {
            reveal_with_fuel(ancestor, 3);
            assert(model(nodes@)[node as int].parent == nodes[node as int]@.parent);
        }
        match nodes[node].parent {
            Some(parent) => nodes[parent].parent,
            None => None,
        }
    }

    /// Attaches `node` to its grandparent; a node without a grandparent is
    /// left where it is.
    pub fn upgrade(nodes: &mut Vec<Node<T>>, node: usize)
        requires
            linked(model(old(nodes)@)),
            node < old(nodes).len(),
        ensures
            model(final(nodes)@) == upgraded(model(old(nodes)@), node),
            linked(model(final(nodes)@)),
            final(nodes).len() == old(nodes).len(),
    {
        proof {
            lemma_ancestor_in_arena(model(nodes@), node, 2);
        }
        match Self::grandparent(nodes, node) {
            Some(grandparent) => Self::attach(nodes, node, grandparent),
            None => {},
        }
    }

    /// Climbs `n` parent links from `node`. Where the chain is that long the
    /// result is the node reached. Where it is shorter, the result is the
    /// number of links that were left to climb and the parentless node at
    /// which the climb ended; for a node without a parent these are `n` and
    /// nothing.
    pub fn above(nodes: &Vec<Node<T>>, node: usize, n: usize) -> (reached: Result<
        usize,
        (usize, Option<usize>),
    >)
        requires
            linked(model(nodes@)),
            node < nodes.len(),
            n >= 1 || nodes[node as int]@.parent is None,
        ensures
            match reached {
                Ok(a) => ancestor(model(nodes@), node, n as nat) == Some(a),
                Err((left, None)) => left == n && nodes[node as int]@.parent is None,
                Err((left, Some(top))) => {
                    &&& 1 <= left < n
                    &&& ancestor(model(nodes@), node, (n - left) as nat) == Some(top)
                    &&& top < nodes.len()
                    &&& nodes[top as int]@.parent is None
                },
            },
            reached is Ok <==> n >= 1 && ancestor(model(nodes@), node, n as nat) is Some,
    {
        let ghost m = model(nodes@);
        proof {
            reveal_with_fuel(ancestor, 2);
            assert(m[node as int].parent == nodes[node as int]@.parent);
        }
        match nodes[node].parent {
            Some(first) => {
                let mut parent: usize = first;
                let mut i: usize = n - 1;
                let mut grandparent = nodes[parent].parent;
                while grandparent.is_some() && i != 0
                    invariant
                        m == model(nodes@),
                        linked(m),
                        i < n,
                        parent < nodes.len(),
                        ancestor(m, node, (n - i) as nat) == Some(parent),
                        grandparent == m[parent as int].parent,
                    decreases i,
                {
                    proof {
                        assert(ancestor(m, node, (n - i + 1) as nat) == m[parent as int].parent);
                    }
                    parent = grandparent.unwrap();
                    grandparent = nodes[parent].parent;
                    i -= 1;
                }
                if i == 0 {
                    Ok(parent)
                } else {
                    proof {
                        lemma_ancestor_ends(m, node, (n - i) as nat, n as nat);
                    }
                    Err((i, Some(parent)))
                }
            },
            None => {
                proof {
                    if n >= 1 {
                        lemma_ancestor_ends(m, node, 0, n as nat);
                    }
                }
                Err((n, None))
            },
        }
    }

    /// The nodes below and including `node`, breadth first: level by level,
    /// and within a level from left to right.
    pub fn bfs(nodes: &Vec<Node<T>>, node: usize) -> (order: Vec<usize>)
        requires
            linked(model(nodes@)),
            node < nodes.len(),
            off_cycle(model(nodes@), node),
        ensures
            breadth_first(model(nodes@), node, order@),
            forall|x: usize|
                x < nodes.len() && descends_from(model(nodes@), x, node) ==> order@.contains(x),
    {
        let ghost m = model(nodes@);
        let mut iter = Self::bfs_iter(nodes, node);
        let mut order: Vec<usize> = Vec::new();
        proof {
            assert(order@ + iter@ =~= seq![node]);
            assert(offspring(m, order@) =~= Seq::<usize>::empty());
            assert(seq![node] + offspring(m, order@) =~= seq![node]);
            assert(ancestor(m, node, 0) == Some(node));
        }
        loop
            invariant
                m == model(nodes@),
                linked(m),
                node < m.len(),
                off_cycle(m, node),
                traversal(m, node, order@, iter@),
            ensures
                traversal(m, node, order@, iter@),
                iter@.len() == 0,
            decreases m.len() - order@.len(),
        {
            proof {
                if iter@.len() > 0 {
                    lemma_traversal_step(m, node, order@, iter@);
                }
                assert forall|i: int| 0 <= i < iter@.len() implies iter@[i] < nodes@.len() by {
                    assert((order@ + iter@)[order@.len() + i] == iter@[i]);
                }
            }
            match iter.next(nodes) {
                Some(found) => {
                    order.push(found);
                },
                None => {
                    break ;
                },
            }
        }
        proof {
            assert(order@ + iter@ =~= order@);
            assert forall|x: usize| x < nodes.len() && descends_from(m, x, node) implies order@.contains(
                x,
            ) by {
                let hops = choose|hops: nat| ancestor(m, x, hops) == Some(node);
                lemma_level_order_complete(m, node, order@, x, hops);
            }
        }
        order
    }

    /// A breadth-first traversal that is about to yield `node`.
    pub fn bfs_iter(nodes: &Vec<Node<T>>, node: usize) -> (iter: BFSIterator)
        requires
            node < nodes.len(),
        ensures
            iter@ == seq![node],
    {
        BFSIterator::new(node)
    }

    /// Removes `child` from the child list of `parent`, its parent: the last
    /// child of the list takes the freed slot and records its new place.
    pub fn abandon(nodes: &mut Vec<Node<T>>, parent: usize, child: usize)
        requires
            linked(model(old(nodes)@)),
            child < old(nodes).len(),
            old(nodes)[child as int]@.parent == Some(parent),
        ensures
            model(final(nodes)@) == detached(model(old(nodes)@), child),
            linked(model(final(nodes)@)),
            final(nodes).len() == old(nodes).len(),
    {
        let ghost m = model(nodes@);
        proof {
            assert(m[child as int].parent == Some(parent));
            assert(m[parent as int].children == nodes[parent as int]@.children);
        }
        let index = nodes[child].index;
        nodes[child].parent = None;
        nodes[parent].children.swap_remove(index);
        let count = nodes[parent].children.len();
        if index < count {
            let moved = nodes[parent].children[index];
            nodes[moved].index = index;
        }
        proof {
            assert(model(nodes@) =~= detached(m, child));
            lemma_detached_linked(m, child);
        }
    }
}

/// After a node has been adopted its parent link names the adopter, it is
/// the last of the adopter's children, and the slot that it records is its
/// place in that list. No payload changes, and child lists and parent links
/// still agree.
pub proof fn lemma_adopted_is_child<T>(m: Seq<NodeView<T>>, parent: usize, child: usize)
    requires
        linked(m),
        child < m.len(),
        parent < m.len(),
        m.len() <= usize::MAX,
    ensures
        ({
            let a = attached(m, child, parent);
            &&& a.len() == m.len()
            &&& a[child as int].parent == Some(parent)
            &&& a[parent as int].children.contains(child)
            &&& a[parent as int].children.last() == child
            &&& a[child as int].index == a[parent as int].children.len() - 1
            &&& forall|i: int| 0 <= i < m.len() ==> (#[trigger] a[i]).value == m[i].value
            &&& forall|i: int| 0 <= i < m.len() && i != child ==> (#[trigger] a[i]).parent == m[i].parent
            &&& forall|i: int|
                0 <= i < m.len() && i != parent ==> (#[trigger] a[i]).children.len()
                    <= m[i].children.len()
            &&& linked(a)
        }),
{
    lemma_detached_is_root(m, child);
    lemma_attached_linked(m, child, parent);
    let d = detached(m, child);
    lemma_children_distinct(d, parent);
    lemma_appended_shape(d, child, parent);
    let a = appended(d, child, parent);
    assert(a[parent as int].children[d[parent as int].children.len() as int] == child);
    assert forall|i: int| 0 <= i < m.len() implies (#[trigger] a[i]).value == m[i].value by {
        assert(d[i].value == m[i].value);
    }
    assert forall|i: int| 0 <= i < m.len() && i != child implies (#[trigger] a[i]).parent
        == m[i].parent by {
        assert(d[i].parent == m[i].parent);
    }
    assert forall|i: int| 0 <= i < m.len() && i != parent implies (#[trigger] a[i]).children.len()
        <= m[i].children.len() by {
        assert(a[i].children == d[i].children);
        assert(d[i].children.len() <= m[i].children.len());
    }
}

/// What appending changes: the child's parent link and slot and the
/// parent's child list, and nothing else.
proof fn lemma_appended_shape<T>(d: Seq<NodeView<T>>, child: usize, parent: usize)
    requires
        child < d.len(),
        parent < d.len(),
        d[parent as int].children.len() <= usize::MAX,
    ensures
        ({
            let a = appended(d, child, parent);
            &&& a.len() == d.len()
            &&& a[child as int].parent == Some(parent)
            &&& a[child as int].index == d[parent as int].children.len()
            &&& a[parent as int].children == d[parent as int].children.push(child)
            &&& forall|i: int| 0 <= i < d.len() ==> (#[trigger] a[i]).value == d[i].value
            &&& forall|i: int| 0 <= i < d.len() && i != child ==> (#[trigger] a[i]).parent == d[i].parent
            &&& forall|i: int|
                0 <= i < d.len() && i != parent ==> (#[trigger] a[i]).children == d[i].children
        }),
{
}

/// After a node has been detached it has no parent, its former parent has
/// one child fewer and does not list it, the children that stay fill the
/// list without a gap and record their places, and no payload changes.
pub proof fn lemma_detached_is_root<T>(m: Seq<NodeView<T>>, child: usize)
    requires
        linked(m),
        child < m.len(),
    ensures
        ({
            let d = detached(m, child);
            &&& d.len() == m.len()
            &&& d[child as int].parent is None
            &&& m[child as int].parent matches Some(p) ==> {
                &&& d[p as int].children.len() == m[p as int].children.len() - 1
                &&& !d[p as int].children.contains(child)
                &&& forall|k: int|
                    0 <= k < d[p as int].children.len() ==> d[(#[trigger] d[p as int].children[k]) as int].index
                        == k
            }
            &&& forall|i: int| 0 <= i < m.len() ==> (#[trigger] d[i]).value == m[i].value
            &&& forall|i: int| 0 <= i < m.len() && i != child ==> (#[trigger] d[i]).parent == m[i].parent
            &&& forall|i: int|
                0 <= i < m.len() ==> (#[trigger] d[i]).children.len() <= m[i].children.len()
            &&& linked(d)
        }),
{
    lemma_detached_linked(m, child);
    let d = detached(m, child);
    match m[child as int].parent {
        Some(p) => {
            assert(m[p as int].children[m[child as int].index as int] == child);
            if d[p as int].children.contains(child) {
                let k = choose|k: int| 0 <= k < d[p as int].children.len() && d[p as int].children[k] == child;
                assert(d[d[p as int].children[k] as int].parent is Some);
            }
        },
        None => {},
    }
}

/// Upgrading a node that has a grandparent makes the grandparent its parent;
/// upgrading a node without one, such as a child of a parentless node,
/// changes nothing.
pub proof fn lemma_upgraded_moves_up<T>(m: Seq<NodeView<T>>, node: usize)
    requires
        linked(m),
        node < m.len(),
        m.len() <= usize::MAX,
    ensures
        linked(upgraded(m, node)),
        match grandparent_of(m, node) {
            Some(g) => upgraded(m, node)[node as int].parent == Some(g),
            None => upgraded(m, node) == m,
        },
        m[node as int].parent is None ==> upgraded(m, node) == m,
        m[node as int].parent matches Some(p) && m[p as int].parent is None ==> upgraded(m, node)
            == m,
{
    reveal_with_fuel(ancestor, 3);
    lemma_ancestor_in_arena(m, node, 2);
    match grandparent_of(m, node) {
        Some(g) => {
            lemma_adopted_is_child(m, g, node);
        },
        None => {},
    }
}

/// The child lists of the entries of `order` are parts of its offspring.
pub proof fn lemma_offspring_holds<T>(m: Seq<NodeView<T>>, order: Seq<usize>, j: int, k: int)
    requires
        0 <= j < order.len(),
        0 <= k < m[order[j] as int].children.len(),
    ensures
        offspring(m, order).contains(m[order[j] as int].children[k]),
    decreases order.len(),
{
    let front = offspring(m, order.drop_last());
    let kids = m[order.last() as int].children;
    if j == order.len() - 1 {
        assert((front + kids)[front.len() + k] == kids[k]);
    } else {
        lemma_offspring_holds(m, order.drop_last(), j, k);
        let at = choose|at: int| 0 <= at < front.len() && front[at] == m[order[j] as int].children[k];
        assert((front + kids)[at] == front[at]);
    }
}

/// A breadth-first order leaves out no node from which a climb reaches its
/// start.
pub proof fn lemma_level_order_complete<T>(
    m: Seq<NodeView<T>>,
    start: usize,
    order: Seq<usize>,
    node: usize,
    hops: nat,
)
    requires
        linked(m),
        node < m.len(),
        level_order(m, start, order),
        ancestor(m, node, hops) == Some(start),
    ensures
        order.contains(node),
    decreases hops,
{
    if hops == 0 {
        assert(order[0] == start);
    } else {
        match m[node as int].parent {
            Some(p) => {
                lemma_ancestor_via_parent(m, node, (hops - 1) as nat);
                lemma_level_order_complete(m, start, order, p, (hops - 1) as nat);
                let j = choose|j: int| 0 <= j < order.len() && order[j] == p;
                let k = m[node as int].index as int;
                lemma_offspring_holds(m, order, j, k);
                let rest = offspring(m, order);
                let at = choose|at: int| 0 <= at < rest.len() && rest[at] == node;
                assert((seq![start] + rest)[at + 1] == node);
            },
            None => {
                lemma_ancestor_ends(m, node, 0, hops);
            },
        }
    }
}

/// What makes a sequence the breadth-first order below `start`: the
/// equation of `level_order`, no node twice, and only nodes of the arena
/// from which a climb reaches `start`.
pub open spec fn breadth_first<T>(m: Seq<NodeView<T>>, start: usize, order: Seq<usize>) -> bool {
    &&& level_order(m, start, order)
    &&& order.no_duplicates()
    &&& in_arena(order, m.len())
    &&& forall|i: int| 0 <= i < order.len() ==> descends_from(m, #[trigger] order[i], start)
}

/// The offspring of the first entries of an order is the start of the
/// offspring of the whole order.
pub proof fn lemma_offspring_prefix<T>(m: Seq<NodeView<T>>, order: Seq<usize>, k: int)
    requires
        0 <= k <= order.len(),
    ensures
        offspring(m, order.take(k)).len() <= offspring(m, order).len(),
        forall|p: int|
            0 <= p < offspring(m, order.take(k)).len() ==> offspring(m, order)[p] == #[trigger] offspring(
                m,
                order.take(k),
            )[p],
    decreases order.len() - k,
{
    if k < order.len() {
        lemma_offspring_prefix(m, order, k + 1);
        let longer = order.take(k + 1);
        assert(longer.drop_last() =~= order.take(k));
        assert(offspring(m, longer) == offspring(m, order.take(k)) + m[longer.last() as int].children);
        assert forall|p: int| 0 <= p < offspring(m, order.take(k)).len() implies offspring(m, order)[p]
            == #[trigger] offspring(m, order.take(k))[p] by {
            assert(offspring(m, longer)[p] == offspring(m, order.take(k))[p]);
        }
    } else {
        assert(order.take(k) =~= order);
    }
}

/// An entry of the offspring that lies behind the offspring of the first
/// `k` entries of the order is a child of a later entry.
pub proof fn lemma_offspring_source<T>(m: Seq<NodeView<T>>, order: Seq<usize>, k: int, p: int) -> (found:
    (int, int))
    requires
        0 <= k <= order.len(),
        offspring(m, order.take(k)).len() <= p < offspring(m, order).len(),
    ensures
        k <= found.0 < order.len(),
        0 <= found.1 < m[order[found.0] as int].children.len(),
        m[order[found.0] as int].children[found.1] == offspring(m, order)[p],
    decreases order.len(),
{
    if k == order.len() {
        assert(order.take(k) =~= order);
        (0, 0)
    } else {
        let front = offspring(m, order.drop_last());
        if p >= front.len() {
            (order.len() - 1, p - front.len())
        } else {
            assert(order.drop_last().take(k) =~= order.take(k));
            let found = lemma_offspring_source(m, order.drop_last(), k, p);
            found
        }
    }
}

/// Where the first `k` entries of a breadth-first order had fewer than `k`
/// children, every climb from a later entry would stay among the later
/// entries.
proof fn lemma_stays_behind<T>(
    m: Seq<NodeView<T>>,
    start: usize,
    order: Seq<usize>,
    k: int,
    i: int,
    hops: nat,
) -> (j: int)
    requires
        linked(m),
        breadth_first(m, start, order),
        1 <= k <= i < order.len(),
        offspring(m, order.take(k)).len() < k,
    ensures
        k <= j < order.len(),
        ancestor(m, order[i], hops) == Some(order[j]),
    decreases hops,
{
    if hops == 0 {
        i
    } else {
        let below = lemma_stays_behind(m, start, order, k, i, (hops - 1) as nat);
        let rest = offspring(m, order);
        assert(order[below] == (seq![start] + rest)[below]);
        assert(order[below] == rest[below - 1]);
        let found = lemma_offspring_source(m, order, k, below - 1);
        assert(order[found.0] < m.len());
        assert(m[m[order[found.0] as int].children[found.1] as int].parent == Some(order[found.0]));
        found.0
    }
}

/// Before a breadth-first order ends, its first `k` entries have at least
/// `k` children: the traversal has a node waiting.
pub proof fn lemma_some_node_waits<T>(m: Seq<NodeView<T>>, start: usize, order: Seq<usize>, k: int)
    requires
        linked(m),
        breadth_first(m, start, order),
        1 <= k < order.len(),
    ensures
        offspring(m, order.take(k)).len() >= k,
{
    if offspring(m, order.take(k)).len() < k {
        assert(descends_from(m, order[k], start));
        let hops = choose|hops: nat| ancestor(m, order[k], hops) == Some(start);
        let j = lemma_stays_behind(m, start, order, k, k, hops);
        assert(order[0] == start);
        assert(order[j] == order[0]);
    }
}

/// Two breadth-first orders below the same node agree on their first
/// entries.
proof fn lemma_orders_agree<T>(
    m: Seq<NodeView<T>>,
    start: usize,
    a: Seq<usize>,
    b: Seq<usize>,
    k: int,
)
    requires
        linked(m),
        breadth_first(m, start, a),
        breadth_first(m, start, b),
        1 <= k <= a.len(),
        k <= b.len(),
    ensures
        a.take(k) == b.take(k),
    decreases k,
{
    if k == 1 {
        assert(a[0] == start && b[0] == start);
        assert(a.take(1) =~= b.take(1));
    } else {
        lemma_orders_agree(m, start, a, b, k - 1);
        lemma_some_node_waits(m, start, a, k - 1);
        lemma_some_node_waits(m, start, b, k - 1);
        lemma_offspring_prefix(m, a, k - 1);
        lemma_offspring_prefix(m, b, k - 1);
        assert(a[k - 1] == (seq![start] + offspring(m, a))[k - 1]);
        assert(b[k - 1] == (seq![start] + offspring(m, b))[k - 1]);
        assert(a[k - 1] == offspring(m, a.take(k - 1))[k - 2]);
        assert(b[k - 1] == offspring(m, b.take(k - 1))[k - 2]);
        assert(a.take(k) =~= a.take(k - 1).push(a[k - 1]));
        assert(b.take(k) =~= b.take(k - 1).push(b[k - 1]));
    }
}

/// Below a node there is one breadth-first order.
pub proof fn lemma_breadth_first_unique<T>(
    m: Seq<NodeView<T>>,
    start: usize,
    a: Seq<usize>,
    b: Seq<usize>,
)
    requires
        linked(m),
        breadth_first(m, start, a),
        breadth_first(m, start, b),
    ensures
        a == b,
{
    assert(a.len() == 1 + offspring(m, a).len());
    assert(b.len() == 1 + offspring(m, b).len());
    if a.len() < b.len() {
        lemma_orders_agree(m, start, a, b, a.len() as int);
        lemma_some_node_waits(m, start, b, a.len() as int);
        assert(a.take(a.len() as int) =~= a);
    } else if b.len() < a.len() {
        lemma_orders_agree(m, start, a, b, b.len() as int);
        lemma_some_node_waits(m, start, a, b.len() as int);
        assert(b.take(b.len() as int) =~= b);
    } else {
        lemma_orders_agree(m, start, a, b, a.len() as int);
        assert(a.take(a.len() as int) =~= a);
        assert(b.take(b.len() as int) =~= b);
    }
}

/// Climbing from a node is climbing from its parent, one link later.
pub proof fn lemma_ancestor_via_parent<T>(m: Seq<NodeView<T>>, node: usize, hops: nat)
    requires
        m[node as int].parent is Some,
    ensures
        ancestor(m, node, hops + 1) == ancestor(m, m[node as int].parent.unwrap(), hops),
    decreases hops,
{
    reveal_with_fuel(ancestor, 2);
    if hops > 0 {
        lemma_ancestor_via_parent(m, node, (hops - 1) as nat);
    }
}

/// One step of a breadth-first traversal keeps what holds in its middle, and
/// fewer nodes have been yielded than the arena holds.
pub proof fn lemma_traversal_step<T>(
    m: Seq<NodeView<T>>,
    start: usize,
    done: Seq<usize>,
    waiting: Seq<usize>,
)
    requires
        linked(m),
        off_cycle(m, start),
        traversal(m, start, done, waiting),
        waiting.len() > 0,
    ensures
        done.len() < m.len(),
        traversal(
            m,
            start,
            done.push(waiting[0]),
            waiting.skip(1) + m[waiting[0] as int].children,
        ),
{
    let all = done + waiting;
    let x = waiting[0];
    let kids = m[x as int].children;
    let done2 = done.push(x);
    let waiting2 = waiting.skip(1) + kids;
    let all2 = done2 + waiting2;
    assert(all[done.len() as int] == x);
    assert(x < m.len());
    lemma_distinct_bounded(all, m.len());
    lemma_children_distinct(m, x);
    assert(all2 =~= all + kids);
    assert(done2.drop_last() =~= done);
    assert(offspring(m, done2) == offspring(m, done) + kids);
    assert(all2 =~= seq![start] + offspring(m, done2));
    let hx = choose|hops: nat| ancestor(m, x, hops) == Some(start);
    assert(descends_from(m, all[done.len() as int], start));
    assert forall|j: int| 0 <= j < kids.len() implies m[kids[j] as int].parent == Some(x)
        && descends_from(m, #[trigger] kids[j], start) by {
        assert(m[m[x as int].children[j] as int].parent == Some(x));
        lemma_ancestor_via_parent(m, kids[j], hx);
    }
    assert forall|i: int, j: int| 0 <= i < all.len() && 0 <= j < kids.len() implies all[i]
        != kids[j] by {
        if all[i] == kids[j] {
            assert(m[m[x as int].children[j] as int].parent == Some(x));
            if all[i] == start {
                lemma_ancestor_via_parent(m, start, hx);
                assert(ancestor(m, start, hx + 1) == Some(start));
            } else {
                let k = choose|k: int| 0 <= k < done.len() && done[k] == x;
                assert(all[k] == x);
            }
        }
    }
    vstd::seq_lib::lemma_no_dup_in_concat(all, kids);
    assert forall|i: int| 0 <= i < all2.len() implies descends_from(m, #[trigger] all2[i], start) by {
        if i < all.len() {
            assert(all2[i] == all[i]);
        } else {
            assert(all2[i] == kids[i - all.len()]);
        }
    }
    assert forall|i: int| 0 <= i < all2.len() implies (#[trigger] all2[i]) == start || (m[all2[i] as int].parent
        matches Some(p) && done2.contains(p)) by {
        assert(done2[done.len() as int] == x);
        if i < all.len() {
            assert(all2[i] == all[i]);
            if all[i] != start {
                let p = m[all[i] as int].parent.unwrap();
                let k = choose|k: int| 0 <= k < done.len() && done[k] == p;
                assert(done2[k] == p);
            }
        } else {
            assert(all2[i] == kids[i - all.len()]);
        }
    }
    assert forall|i: int| 0 <= i < all2.len() implies all2[i] < m.len() by {
        if i < all.len() {
            assert(all2[i] == all[i]);
        } else {
            assert(all2[i] == kids[i - all.len()]);
        }
    }
}

/// A sequence of distinct numbers below `bound` has at most `bound` entries.
pub proof fn lemma_distinct_bounded(ids: Seq<usize>, bound: nat)
    requires
        ids.no_duplicates(),
        in_arena(ids, bound),
    ensures
        ids.len() <= bound,
{
    let widen = |x: usize| x as int;
    let wide = ids.map_values(widen);
    assert(vstd::relations::injective(widen));
    ids.lemma_no_duplicates_injective(widen);
    wide.unique_seq_to_set();
    vstd::set_lib::lemma_int_range(0, bound as int);
    assert(wide.to_set().subset_of(vstd::set_lib::set_int_range(0, bound as int))) by {
        assert forall|x: int| wide.to_set().contains(x) implies 0 <= x < bound by {
            let i = choose|i: int| 0 <= i < wide.len() && wide[i] == x;
            assert(wide[i] == ids[i] as int);
        }
    }
    vstd::set_lib::lemma_len_subset(wide.to_set(), vstd::set_lib::set_int_range(0, bound as int));
}

/// In a linked arena a child list names distinct nodes of the arena, so it
/// is no longer than the arena.
pub proof fn lemma_children_distinct<T>(m: Seq<NodeView<T>>, parent: usize)
    requires
        linked(m),
        parent < m.len(),
    ensures
        m[parent as int].children.no_duplicates(),
        in_arena(m[parent as int].children, m.len()),
        m[parent as int].children.len() <= m.len(),
{
    let list = m[parent as int].children;
    assert forall|i: int, j: int| 0 <= i < list.len() && 0 <= j < list.len() && i != j implies list[i]
        != list[j] by {
        assert(m[m[parent as int].children[i] as int].index == i);
        assert(m[m[parent as int].children[j] as int].index == j);
    }
    assert forall|i: int| 0 <= i < list.len() implies list[i] < m.len() by {
        assert(m[parent as int].children[i] < m.len());
    }
    lemma_distinct_bounded(list, m.len());
}

/// A node without parent and children at the end of the arena keeps child
/// lists and parent links in agreement.
pub proof fn lemma_pushed_linked<T>(m: Seq<NodeView<T>>, fresh: NodeView<T>)
    requires
        linked(m),
        fresh.parent is None,
        fresh.children.len() == 0,
    ensures
        linked(m.push(fresh)),
{
    let a = m.push(fresh);
    assert forall|p: int, k: int| 0 <= p < a.len() && 0 <= k < a[p].children.len() implies {
        &&& (#[trigger] a[p].children[k]) < a.len()
        &&& a[a[p].children[k] as int].parent matches Some(q) && q == p
        &&& a[a[p].children[k] as int].index == k
    } by {
        assert(a[p].children[k] == m[p].children[k]);
    }
    assert forall|c: int| 0 <= c < a.len() implies match #[trigger] a[c].parent {
        Some(p) => {
            &&& p < a.len()
            &&& a[c].index < a[p as int].children.len()
            &&& a[p as int].children[a[c].index as int] == c
        },
        None => true,
    } by {
        if c < m.len() {
            assert(a[c].parent == m[c].parent);
        }
    }
}

/// Attaching keeps child lists and parent links in agreement.
pub proof fn lemma_attached_linked<T>(m: Seq<NodeView<T>>, child: usize, parent: usize)
    requires
        linked(m),
        child < m.len(),
        parent < m.len(),
        m.len() <= usize::MAX,
    ensures
        linked(attached(m, child, parent)),
        attached(m, child, parent).len() == m.len(),
{
    lemma_detached_linked(m, child);
    let d = detached(m, child);
    lemma_children_distinct(d, parent);
    lemma_appended_linked(d, child, parent);
}

/// Appending a parentless node to a child list keeps child lists and parent
/// links in agreement.
proof fn lemma_appended_linked<T>(d: Seq<NodeView<T>>, child: usize, parent: usize)
    requires
        linked(d),
        child < d.len(),
        parent < d.len(),
        d[child as int].parent is None,
        d[parent as int].children.len() <= usize::MAX,
    ensures
        linked(appended(d, child, parent)),
{
    let a = appended(d, child, parent);
    let slot = d[parent as int].children.len();
    assert(a[parent as int].children == d[parent as int].children.push(child));
    assert(a[child as int].parent == Some(parent));
    assert(a[child as int].index == slot);
    assert forall|q: int, j: int| 0 <= q < a.len() && 0 <= j < a[q].children.len() implies {
        &&& (#[trigger] a[q].children[j]) < a.len()
        &&& a[a[q].children[j] as int].parent matches Some(r) && r == q
        &&& a[a[q].children[j] as int].index == j
    } by {
        if q == parent as int && j == slot {
        } else {
            assert(a[q].children[j] == d[q].children[j]);
            assert(d[q].children[j] != child);
        }
    }
    assert forall|c: int| 0 <= c < a.len() implies match #[trigger] a[c].parent {
        Some(q) => {
            &&& q < a.len()
            &&& a[c].index < a[q as int].children.len()
            &&& a[q as int].children[a[c].index as int] == c
        },
        None => true,
    } by {
        if c != child as int {
            assert(d[c].parent == a[c].parent);
            assert(d[c].index == a[c].index);
        }
    }
}

/// In a linked arena every ancestor is a node of the arena.
pub proof fn lemma_ancestor_in_arena<T>(m: Seq<NodeView<T>>, node: usize, hops: nat)
    requires
        linked(m),
        node < m.len(),
    ensures
        ancestor(m, node, hops) matches Some(a) ==> a < m.len(),
    decreases hops,
{
    if hops > 0 {
        lemma_ancestor_in_arena(m, node, (hops - 1) as nat);
        match ancestor(m, node, (hops - 1) as nat) {
            Some(a) => {
                assert(m[a as int].parent is Some ==> m[a as int].parent.unwrap() < m.len());
            },
            None => {},
        }
    }
}

/// Once a climb has reached a node without a parent, no longer climb from
/// the same node reaches anything.
pub proof fn lemma_ancestor_ends<T>(m: Seq<NodeView<T>>, node: usize, hops: nat, more: nat)
    requires
        hops < more,
        ancestor(m, node, hops) matches Some(top) && m[top as int].parent is None,
    ensures
        ancestor(m, node, more) is None,
    decreases more,
{
    if more > hops + 1 {
        lemma_ancestor_ends(m, node, hops, (more - 1) as nat);
    }
}

/// Detaching keeps child lists and parent links in agreement.
pub proof fn lemma_detached_linked<T>(m: Seq<NodeView<T>>, child: usize)
    requires
        linked(m),
        child < m.len(),
    ensures
        linked(detached(m, child)),
        detached(m, child).len() == m.len(),
        detached(m, child)[child as int].parent is None,
{
    let d = detached(m, child);
    match m[child as int].parent {
        Some(p) => {
            let k = m[child as int].index;
            let siblings = m[p as int].children;
            let moved = siblings.last();
            assert(siblings[siblings.len() - 1] == moved);
            assert(siblings[k as int] == child);
            assert forall|q: int, j: int| 0 <= q < d.len() && 0 <= j < d[q].children.len() implies {
                &&& (#[trigger] d[q].children[j]) < d.len()
                &&& d[d[q].children[j] as int].parent matches Some(r) && r == q
                &&& d[d[q].children[j] as int].index == j
            } by {
                if q == p as int {
                    if j == k as int {
                    } else {
                        assert(d[q].children[j] == siblings[j]);
                    }
                } else {
                    assert(d[q].children[j] == m[q].children[j]);
                }
            }
            assert forall|c: int| 0 <= c < d.len() implies match #[trigger] d[c].parent {
                Some(q) => {
                    &&& q < d.len()
                    &&& d[c].index < d[q as int].children.len()
                    &&& d[q as int].children[d[c].index as int] == c
                },
                None => true,
            } by {
                assert(m[c].parent == d[c].parent || c == child);
            }
        },
        None => {},
    }
}

/// A breadth-first traversal in progress: the nodes that have been reached
/// and not yet yielded, in the order in which they will be.
pub struct BFSIterator {
    unexplored: VecDeque<usize>,
}

impl View for BFSIterator {
    type V = Seq<usize>;

    closed spec fn view(&self) -> Seq<usize> {
        self.unexplored@
    }
}

impl BFSIterator {
    /// A traversal that is about to yield `node`.
    pub fn new(node: usize) -> (iter: Self)
        ensures
            iter@ == seq![node],
    {
        let mut unexplored = VecDeque::new();
        unexplored.push_back(node);
        BFSIterator { unexplored }
    }

    /// Yields the node at the front and queues its children behind the nodes
    /// that wait already; yields nothing once none waits.
    pub fn next<T>(&mut self, nodes: &Vec<Node<T>>) -> (yielded: Option<usize>)
        requires
            in_arena(old(self)@, nodes@.len()),
        ensures
            match yielded {
                Some(node) => {
                    &&& old(self)@.len() > 0
                    &&& node == old(self)@[0]
                    &&& final(self)@ == old(self)@.skip(1) + nodes[node as int]@.children
                },
                None => old(self)@.len() == 0 && final(self)@ == old(self)@,
            },
    {
        match self.unexplored.pop_front() {
            Some(node) => {
                let ghost waiting = self.unexplored@;
                assert(node == old(self)@[0]);
                let children = &nodes[node].children;
                let mut i: usize = 0;
                while i < children.len()
                    invariant
                        i <= children.len(),
                        self.unexplored@ == waiting + children@.take(i as int),
                    decreases children.len() - i,
                {
                    self.unexplored.push_back(children[i]);
                    i += 1;
                    proof {
                        assert(children@.take(i as int) == children@.take(i - 1).push(children[i - 1]));
                    }
                }
                proof {
                    assert(children@.take(i as int) == children@);
                    assert(waiting == old(self)@.skip(1));
                }
                Some(node)
            },
            None => None,
        }
    }
}

} // verus!
