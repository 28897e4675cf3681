use polygon::tree::{BFSIterator, Node};

fn generate_tree() -> (Vec<Node<i32>>, usize, usize)
{
    let mut nodes = Vec::new();

    for value in 0..6 {
        nodes.push(Node::new(value));
    }

    let (a, b, c, d, e, f) = (0, 1, 2, 3, 4, 5);

    Node::adopt(&mut nodes, a, b);
    Node::adopt(&mut nodes, a, c);
    Node::adopt(&mut nodes, a, d);
    Node::adopt(&mut nodes, b, e);
    Node::adopt(&mut nodes, b, f);

    (nodes, a, f)
}

fn values(nodes: &Vec<Node<i32>>, order: &Vec<usize>) -> Vec<i32>
{
    order.iter().map(|&i| *nodes[i].value()).collect()
}

#[test]
fn test_above_correct()
{
    let (nodes, a, f) = generate_tree();

    assert_eq!(Node::above(&nodes, f, 2).unwrap(), a);
}

#[test]
fn test_above_root()
{
    let nodes = vec![Node::new(0)];
    let (n, ancestor) = Node::above(&nodes, 0, 0).err().unwrap();

    assert_eq!(n, 0);
    assert!(ancestor.is_none());
}

#[test]
fn test_above_too_much()
{
    let (nodes, a, f) = generate_tree();

    let (n, ancestor) = Node::above(&nodes, f, 5).err().unwrap();

    assert_eq!(n, 3);
    assert_eq!(a, ancestor.unwrap());
}

#[test]
fn test_adopt()
{
    let mut nodes = vec![Node::new(0), Node::new(1)];
    let (a, b) = (0, 1);

    Node::adopt(&mut nodes, a, b);

    let testing = *nodes[a].children().first().unwrap();

    assert_eq!(nodes[a].children().len(), 1);
    assert_eq!(testing, b);
    assert_eq!(*nodes[testing].value(), 1);
    assert_eq!(nodes[testing].parent().unwrap(), a);
}

#[test]
fn test_bfs()
{
    let (nodes, a, _) = generate_tree();

    for (i, item) in Node::bfs(&nodes, a).iter().enumerate() {
        assert_eq!(*nodes[*item].value(), i as i32);
    }

    assert_eq!(Node::bfs(&nodes, a), vec![0, 1, 2, 3, 4, 5]);
}

#[test]
fn test_detach()
{
    let (mut nodes, a, f) = generate_tree();

    Node::detach(&mut nodes, f);

    let order = Node::bfs(&nodes, a);

    for (i, item) in order.iter().enumerate() {
        assert_eq!(*nodes[*item].value(), i as i32);
    }

    assert_eq!(order.len(), 5);
    assert!(nodes[f].is_root());
}

#[test]
fn test_upgrade()
{
    let (mut nodes, a, f) = generate_tree();

    Node::upgrade(&mut nodes, f);

    let testing = values(&nodes, &Node::bfs(&nodes, a));

    assert_eq!(testing, vec![0, 1, 2, 3, 5, 4]);
    assert_eq!(a, nodes[f].parent().unwrap());
}

#[test]
fn test_above_one_hop_is_parent()
{
    let (nodes, a, f) = generate_tree();

    assert_eq!(Node::above(&nodes, f, 1), Ok(1));
    assert_eq!(Node::above(&nodes, 1, 1), Ok(a));
    assert_eq!(Node::above(&nodes, 1, 2), Err((1, Some(a))));
    assert_eq!(Node::above(&nodes, 1, 7), Err((6, Some(a))));
    assert_eq!(Node::above(&nodes, f, 3), Err((1, Some(a))));
    assert_eq!(Node::above(&nodes, a, 3), Err((3, None)));
}

#[test]
fn test_adopt_records_slot_and_parent()
{
    let (nodes, a, f) = generate_tree();

    assert_eq!(*nodes[a].children(), vec![1, 2, 3]);
    assert_eq!(*nodes[1].children(), vec![4, f]);
    assert_eq!(nodes[f].parent(), Some(1));
    assert_eq!(nodes[4].parent(), Some(1));
    assert!(nodes[a].is_root());
    assert!(!nodes[a].is_leaf());
    assert!(nodes[f].is_leaf());
    assert!(!nodes[f].is_root());
}

#[test]
fn test_adopt_moves_a_child_between_parents()
{
    let (mut nodes, a, f) = generate_tree();

    Node::adopt(&mut nodes, 2, 4);

    assert_eq!(*nodes[1].children(), vec![f]);
    assert_eq!(*nodes[2].children(), vec![4]);
    assert_eq!(nodes[4].parent(), Some(2));
    assert_eq!(Node::bfs(&nodes, a), vec![0, 1, 2, 3, 5, 4]);
}

#[test]
fn test_attach_is_adopt_seen_from_the_child()
{
    let mut nodes = vec![Node::new('p'), Node::new('c')];

    Node::attach(&mut nodes, 1, 0);

    assert_eq!(*nodes[0].children(), vec![1]);
    assert_eq!(nodes[1].parent(), Some(0));
}

#[test]
fn test_detach_moves_last_sibling_into_the_gap()
{
    let (mut nodes, a, _) = generate_tree();

    Node::detach(&mut nodes, 1);

    assert_eq!(*nodes[a].children(), vec![3, 2]);
    assert!(nodes[1].is_root());
    assert_eq!(*nodes[1].children(), vec![4, 5]);

    Node::detach(&mut nodes, 2);

    assert_eq!(*nodes[a].children(), vec![3]);

    Node::adopt(&mut nodes, a, 1);

    assert_eq!(*nodes[a].children(), vec![3, 1]);
    assert_eq!(Node::bfs(&nodes, a), vec![0, 3, 1, 4, 5]);
}

#[test]
fn test_detach_on_root_changes_nothing()
{
    let (mut nodes, a, _) = generate_tree();

    Node::detach(&mut nodes, a);

    assert!(nodes[a].is_root());
    assert_eq!(Node::bfs(&nodes, a), vec![0, 1, 2, 3, 4, 5]);
}

#[test]
fn test_abandon_drops_the_named_child()
{
    let (mut nodes, a, _) = generate_tree();

    Node::abandon(&mut nodes, a, 2);

    assert_eq!(*nodes[a].children(), vec![1, 3]);
    assert_eq!(nodes[2].parent(), None);
}

#[test]
fn test_upgrade_at_depth_one_changes_nothing()
{
    let (mut nodes, a, _) = generate_tree();

    Node::upgrade(&mut nodes, 2);

    assert_eq!(nodes[2].parent(), Some(a));
    assert_eq!(*nodes[a].children(), vec![1, 2, 3]);

    Node::upgrade(&mut nodes, a);

    assert!(nodes[a].is_root());
}

#[test]
fn test_grandparent()
{
    let (nodes, a, f) = generate_tree();

    assert_eq!(Node::grandparent(&nodes, f), Some(a));
    assert_eq!(Node::grandparent(&nodes, 1), None);
    assert_eq!(Node::grandparent(&nodes, a), None);
}

#[test]
fn test_set_value_keeps_links()
{
    let (mut nodes, a, f) = generate_tree();

    nodes[1].set_value(42);

    assert_eq!(*nodes[1].value(), 42);
    assert_eq!(nodes[1].parent(), Some(a));
    assert_eq!(*nodes[1].children(), vec![4, f]);
}

#[test]
fn test_bfs_of_a_subtree_and_of_a_leaf()
{
    let (nodes, _, f) = generate_tree();

    assert_eq!(Node::bfs(&nodes, 1), vec![1, 4, 5]);
    assert_eq!(Node::bfs(&nodes, f), vec![f]);
}

#[test]
fn test_bfs_iter_yields_level_by_level()
{
    let (nodes, a, _) = generate_tree();

    let mut iter = Node::bfs_iter(&nodes, a);
    let mut seen = Vec::new();

    while let Some(node) = iter.next(&nodes) {
        seen.push(node);
    }

    assert_eq!(seen, vec![0, 1, 2, 3, 4, 5]);
    assert_eq!(iter.next(&nodes), None);

    let mut from_leaf = BFSIterator::new(3);

    assert_eq!(from_leaf.next(&nodes), Some(3));
    assert_eq!(from_leaf.next(&nodes), None);
}
