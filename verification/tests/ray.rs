use polygon::geo::ray::{count_crossings, is_inside};

#[test]
fn test_no_edge_no_crossing()
{
    assert_eq!(count_crossings(&vec![], &vec![]), 0);
    assert!(!is_inside(&vec![], &vec![]));
}

#[test]
fn test_edge_met_alone_counts_once()
{
    let hits = vec![false, true, false, false];
    let negative = vec![false, true, true, false];

    assert_eq!(count_crossings(&hits, &negative), 1);
    assert!(is_inside(&hits, &negative));
}

#[test]
fn test_two_separate_edges_count_twice()
{
    let hits = vec![true, false, true, false];
    let negative = vec![false, false, true, true];

    assert_eq!(count_crossings(&hits, &negative), 2);
    assert!(!is_inside(&hits, &negative));
}

#[test]
fn test_crossing_through_a_vertex_counts_once()
{
    // The ray leaves through the vertex between the edges 1 and 2, which lie on opposite sides.
    let hits = vec![false, true, true, false];
    let negative = vec![true, true, false, false];

    assert_eq!(count_crossings(&hits, &negative), 2);
    assert!(!is_inside(&hits, &negative));

    let hits = vec![false, true, true];
    let negative = vec![false, true, false];

    assert_eq!(count_crossings(&hits, &negative), 2);
}

#[test]
fn test_touch_at_a_vertex_counts_for_the_second_edge_only()
{
    // Both edges lie on the same side: the pair adds nothing, the pair after it one.
    let hits = vec![false, true, true, false];
    let negative = vec![false, true, true, false];

    assert_eq!(count_crossings(&hits, &negative), 1);
    assert!(is_inside(&hits, &negative));
}

#[test]
fn test_last_edge_pairs_with_the_first()
{
    let hits = vec![true, false, false, true];
    let negative = vec![true, false, false, true];

    assert_eq!(count_crossings(&hits, &negative), 1);

    let negative = vec![false, false, false, true];

    assert_eq!(count_crossings(&hits, &negative), 2);
    assert!(!is_inside(&hits, &negative));
}

#[test]
fn test_single_edge_pairs_with_itself()
{
    assert_eq!(count_crossings(&vec![true], &vec![false]), 0);
    assert_eq!(count_crossings(&vec![false], &vec![false]), 0);
}
