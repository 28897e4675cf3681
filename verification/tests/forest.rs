use polygon::cmd::dac::{conquer, divide, graft, process_dac, split};
use polygon::cmd::generate::{accept, fits};
use polygon::cmd::mirror::mirror;
use polygon::cmd::process::{
    all_ids, build_tree_from_polygons, find_below, find_container, generate_frames, place,
    process_frames, process_naive, transpose_rec_to_any,
};
use polygon::cmd::repair::mend;
use polygon::geo::{Container, Intersecter, ZeroNormError, SVG};
use polygon::tree::Node;

/// A simple polygon with an even-odd containment test on its first vertex.
#[derive(Clone, Debug, Default, PartialEq)]
struct Shape
{
    points: Vec<(f64, f64)>
}

/// An axis-aligned frame.
#[derive(Clone, Copy, Debug, Default, PartialEq)]
struct Frame
{
    xmin: f64,
    ymin: f64,
    xmax: f64,
    ymax: f64
}

type Separator = ((f64, f64), (f64, f64));

impl Shape {
    fn new(points: &[(f64, f64)]) -> Self { Shape { points: points.to_vec() } }

    fn square(x: f64, y: f64, side: f64) -> Self
    {
        Shape::new(&[(x, y), (x + side, y), (x + side, y + side), (x, y + side)])
    }

    fn frame(&self) -> Frame
    {
        let mut frame = Frame {
            xmin: self.points[0].0,
            ymin: self.points[0].1,
            xmax: self.points[0].0,
            ymax: self.points[0].1
        };

        for &(x, y) in &self.points {
            frame.xmin = frame.xmin.min(x);
            frame.ymin = frame.ymin.min(y);
            frame.xmax = frame.xmax.max(x);
            frame.ymax = frame.ymax.max(y);
        }

        frame
    }

    fn holds(&self, (x, y): (f64, f64)) -> bool
    {
        let n = self.points.len();
        let mut inside = false;

        for i in 0..n {
            let (xa, ya) = self.points[i];
            let (xb, yb) = self.points[(i + 1) % n];

            if (ya > y) != (yb > y) && x < (xb - xa) * (y - ya) / (yb - ya) + xa {
                inside = !inside;
            }
        }

        inside
    }
}

impl Container for Shape {
    fn encloses(&self, other: &Self) -> bool { self.contains(other) }

    fn contains(&self, other: &Self) -> bool
    {
        !self.points.is_empty() && !other.points.is_empty() && self.holds(other.points[0])
    }
}

impl Intersecter for Shape {
    fn crosses(&self, other: &Self) -> bool { self.intersects(other) }

    fn intersects(&self, other: &Self) -> bool
    {
        let (a, b) = (self.frame(), other.frame());

        a.xmin <= b.xmax && b.xmin <= a.xmax && a.ymin <= b.ymax && b.ymin <= a.ymax
    }
}

impl SVG for Frame {
    fn to_svg(&self) -> String
    {
        format!(
            "<rect x=\"{}\" y=\"{}\" width=\"{}\" height=\"{}\" />",
            self.xmin,
            self.ymax,
            self.xmax - self.xmin,
            self.ymax - self.ymin
        )
    }
}

impl Container for Frame {
    fn encloses(&self, other: &Self) -> bool { self.contains(other) }

    fn contains(&self, other: &Self) -> bool
    {
        self.xmin < other.xmin
            && self.ymin < other.ymin
            && self.xmax > other.xmax
            && self.ymax > other.ymax
    }
}

fn halve(frame: &Frame, upright: bool) -> (Frame, Separator, Frame)
{
    if upright {
        let w = (frame.xmax - frame.xmin) / 2.;
        let stop = (frame.xmax - w, frame.ymax);
        let start = (frame.xmin + w, frame.ymin);

        (Frame { xmax: stop.0, ..*frame }, (start, stop), Frame { xmin: start.0, ..*frame })
    } else {
        let h = (frame.ymax - frame.ymin) / 2.;
        let stop = (frame.xmax, frame.ymax - h);
        let start = (frame.xmin, frame.ymin + h);

        (Frame { ymax: stop.1, ..*frame }, (start, stop), Frame { ymin: start.1, ..*frame })
    }
}

fn side(frame: &Frame, separator: &Separator) -> (bool, bool)
{
    let (start, stop) = *separator;
    let u = (stop.0 - start.0, stop.1 - start.1);

    let corners = [
        (frame.xmin, frame.ymin),
        (frame.xmax, frame.ymin),
        (frame.xmax, frame.ymax),
        (frame.xmin, frame.ymax)
    ];

    let dets = corners.map(|(x, y)| u.0 * (y - start.1) - u.1 * (x - start.0));

    (dets.iter().any(|&d| d > 0.), dets.iter().any(|&d| d < 0.))
}

fn arena(shapes: &[Shape]) -> Vec<Node<(isize, Shape)>>
{
    shapes.iter().cloned().enumerate().map(|(i, s)| Node::new((i as isize, s))).collect()
}

fn frames(shapes: &[Shape]) -> Vec<Frame> { shapes.iter().map(Shape::frame).collect() }

fn big_frame(frames: &[Frame]) -> Frame
{
    let mut big = frames[0];

    for f in frames {
        big.xmin = big.xmin.min(f.xmin);
        big.ymin = big.ymin.min(f.ymin);
        big.xmax = big.xmax.max(f.xmax);
        big.ymax = big.ymax.max(f.ymax);
    }

    big
}

fn parents<T>(nodes: &Vec<Node<(isize, T)>>, count: usize) -> Vec<isize>
{
    (0..count).map(|i| nodes[nodes[i].parent().unwrap()].value().0).collect()
}

fn naive(shapes: &[Shape]) -> Vec<isize>
{
    let mut nodes = arena(shapes);
    let root = process_naive(&mut nodes);

    assert_eq!(root, shapes.len());
    assert_eq!(nodes[root].value().0, -1);
    assert!(nodes[root].is_root());

    parents(&nodes, shapes.len())
}

fn with_frames(shapes: &[Shape]) -> Vec<isize>
{
    let mut nodes = arena(shapes);
    let root = process_frames(&mut nodes, frames(shapes));

    assert_eq!(root, shapes.len());
    assert_eq!(nodes[root].value().0, -1);

    parents(&nodes, shapes.len())
}

fn dac(shapes: &[Shape]) -> Vec<isize>
{
    let mut nodes = arena(shapes);
    let all = frames(shapes);
    let big = if all.is_empty() { Frame::default() } else { big_frame(&all) };
    let root = process_dac(&mut nodes, all, big, &halve, &side);

    assert_eq!(root, shapes.len());
    assert_eq!(nodes[root].value().0, -1);

    parents(&nodes, shapes.len())
}

fn nesting() -> Vec<Shape>
{
    vec![
        Shape::new(&[(1., 1.), (5., 1.), (5., 5.), (1., 5.)]),
        Shape::new(&[(0., 0.), (6., 0.), (6., 6.), (0., 6.)]),
        Shape::new(&[(2., 2.), (2., 3.), (3., 2.)]),
        Shape::new(&[(4., 4.), (4., 3.), (3., 4.)]),
    ]
}

fn town() -> Vec<Shape>
{
    let mut shapes = Vec::new();

    for block in 0..4 {
        let x = 100. * (block % 2) as f64;
        let y = 100. * (block / 2) as f64;

        shapes.push(Shape::square(x + 22., y + 22., 6.));
        shapes.push(Shape::square(x + 10., y + 10., 80.));
        shapes.push(Shape::square(x + 20., y + 20., 20.));
        shapes.push(Shape::square(x + 60., y + 60., 20.));
        shapes.push(Shape::square(x + 63., y + 63., 4.));
        shapes.push(Shape::square(x + 70., y + 70., 5.));
    }

    shapes.push(Shape::square(230., 230., 10.));

    shapes
}

#[test]
fn test_nesting_naive() { assert_eq!(naive(&nesting()), vec![1, -1, 0, 0]); }

#[test]
fn test_nesting_frames() { assert_eq!(with_frames(&nesting()), vec![1, -1, 0, 0]); }

#[test]
fn test_nesting_dac() { assert_eq!(dac(&nesting()), vec![1, -1, 0, 0]); }

#[test]
fn test_disjoint_triangles_hang_below_the_root()
{
    let shapes = vec![
        Shape::new(&[(0., 0.), (1., 0.), (0., 1.)]),
        Shape::new(&[(5., 5.), (6., 5.), (5., 6.)]),
    ];

    assert_eq!(naive(&shapes), vec![-1, -1]);
    assert_eq!(with_frames(&shapes), vec![-1, -1]);
    assert_eq!(dac(&shapes), vec![-1, -1]);
}

#[test]
fn test_single_polygon_hangs_below_the_root()
{
    let shapes = vec![Shape::new(&[(0., 0.), (1., 0.), (0., 1.)])];

    assert_eq!(naive(&shapes), vec![-1]);
    assert_eq!(with_frames(&shapes), vec![-1]);
    assert_eq!(dac(&shapes), vec![-1]);
}

#[test]
fn test_no_polygon_leaves_the_root_alone()
{
    let mut nodes = arena(&[]);
    let root = process_naive(&mut nodes);

    assert_eq!(root, 0);
    assert_eq!(nodes.len(), 1);
    assert!(nodes[root].is_leaf());
    assert!(nodes[root].is_root());
    assert_eq!(nodes[root].value().0, -1);

    assert_eq!(with_frames(&[]), Vec::<isize>::new());
    assert_eq!(dac(&[]), Vec::<isize>::new());
}

#[test]
fn test_builders_agree_on_a_town()
{
    let shapes = town();

    let expected = naive(&shapes);

    assert_eq!(&expected[..6], &[2, -1, 1, 1, 3, 3]);
    assert_eq!(expected[24], -1);
    assert_eq!(with_frames(&shapes), expected);
    assert_eq!(dac(&shapes), expected);
}

#[test]
fn test_parent_contains_child_and_no_sibling_does()
{
    let shapes = town();
    let mut nodes = arena(&shapes);
    let root = process_naive(&mut nodes);

    for i in 0..shapes.len() {
        let parent = nodes[i].parent().unwrap();

        if parent != root {
            assert!(shapes[parent].contains(&shapes[i]));
        }

        for &brother in nodes[parent].children() {
            if brother != i {
                assert!(!shapes[brother].contains(&shapes[i]));
            }
        }
    }
}

#[test]
fn test_false_inclusion_is_mended()
{
    // The frame of the L holds the triangle; the L itself does not.
    let shapes = vec![
        Shape::new(&[(0., 0.), (10., 0.), (10., 2.), (2., 2.), (2., 10.), (0., 10.)]),
        Shape::new(&[(6., 6.), (7., 6.), (6., 7.)]),
        Shape::new(&[(0.5, 0.5), (1., 0.5), (0.5, 1.)]),
        Shape::square(-5., -5., 30.),
    ];

    assert_eq!(naive(&shapes), vec![3, 3, 0, -1]);
    assert_eq!(with_frames(&shapes), vec![3, 3, 0, -1]);
    assert_eq!(dac(&shapes), vec![3, 3, 0, -1]);
}

#[test]
fn test_find_container_takes_the_first_sibling_that_contains()
{
    let shapes = vec![
        Shape::square(4., 4., 1.),
        Shape::square(20., 20., 1.),
        Shape::square(0., 0., 10.),
        Shape::square(1., 1., 8.),
    ];

    let mut nodes = arena(&shapes);
    nodes.push(Node::new((-1, Shape::default())));

    for id in 0..4 {
        Node::adopt(&mut nodes, 4, id);
    }

    assert_eq!(find_container(&nodes, 0, 0), Some(2));
    assert_eq!(find_container(&nodes, 0, 2), Some(3));
    assert_eq!(find_container(&nodes, 1, 1), None);
    assert_eq!(find_container(&nodes, 2, 2), None);
    assert_eq!(find_below(&nodes, 4, 3, 3), Some(2));
    assert_eq!(find_below(&nodes, 0, 3, 3), None);
}

#[test]
fn test_place_moves_below_first_container_or_stays()
{
    let shapes = vec![
        Shape::square(4., 4., 1.),
        Shape::square(20., 20., 1.),
        Shape::square(0., 0., 10.),
    ];

    let mut nodes = arena(&shapes);
    nodes.push(Node::new((-1, Shape::default())));

    for id in 0..3 {
        Node::adopt(&mut nodes, 3, id);
    }

    assert!(place(&mut nodes, 0));
    assert_eq!(nodes[0].parent(), Some(2));
    assert_eq!(*nodes[3].children(), vec![2, 1]);
    assert_eq!(*nodes[2].children(), vec![0]);

    assert!(!place(&mut nodes, 1));
    assert_eq!(nodes[1].parent(), Some(3));

    assert!(!place(&mut nodes, 0));
    assert!(!place(&mut nodes, 3));
    assert_eq!(*nodes[3].children(), vec![2, 1]);
}

#[test]
fn test_build_tree_touches_only_the_named_nodes()
{
    let shapes = vec![
        Shape::square(0., 0., 10.),
        Shape::square(1., 1., 2.),
        Shape::square(5., 5., 2.),
    ];

    let mut nodes = arena(&shapes);
    let root = build_tree_from_polygons(&mut nodes, &vec![0, 1], Shape::default());

    assert_eq!(root, 3);
    assert_eq!(*nodes[root].value(), (-1, Shape::default()));
    assert_eq!(nodes[0].parent(), Some(root));
    assert_eq!(nodes[1].parent(), Some(0));
    assert_eq!(nodes[2].parent(), None);
    assert_eq!(*nodes[2].value(), (2, shapes[2].clone()));
}

#[test]
fn test_all_ids_counts_from_zero()
{
    assert_eq!(all_ids(0), Vec::<usize>::new());
    assert_eq!(all_ids(4), vec![0, 1, 2, 3]);
}

#[test]
fn test_generate_frames_keeps_positions_and_indexes()
{
    let shapes = nesting();
    let mut nodes = arena(&shapes);

    nodes[2].set_value((7, shapes[2].clone()));

    let arena = generate_frames(&nodes, frames(&shapes));

    assert_eq!(arena.len(), 4);

    for (i, node) in arena.iter().enumerate() {
        assert!(node.is_root());
        assert!(node.is_leaf());
        assert_eq!(node.value().1, shapes[i].frame());
    }

    assert_eq!(arena[0].value().0, 0);
    assert_eq!(arena[2].value().0, 7);
    assert_eq!(arena[3].value().1, Frame { xmin: 3., ymin: 3., xmax: 4., ymax: 4. });
}

#[test]
fn test_mirror_copies_child_lists_in_order()
{
    let shapes = nesting();
    let mut boxes = generate_frames(&arena(&shapes), frames(&shapes));

    boxes.push(Node::new((-1, Frame::default())));
    Node::adopt(&mut boxes, 4, 1);
    Node::adopt(&mut boxes, 1, 0);
    Node::adopt(&mut boxes, 0, 3);
    Node::adopt(&mut boxes, 0, 2);

    let mut nodes = arena(&shapes);
    let root = mirror(&boxes, &mut nodes, 4, Shape::default());

    assert_eq!(root, 4);
    assert_eq!(*nodes[4].children(), vec![1]);
    assert_eq!(*nodes[1].children(), vec![0]);
    assert_eq!(*nodes[0].children(), vec![3, 2]);
    assert_eq!(nodes[2].parent(), Some(0));
    assert_eq!(nodes[3].parent(), Some(0));
    assert_eq!(nodes[1].parent(), Some(4));
    assert_eq!(*nodes[4].value(), (-1, Shape::default()));
    assert_eq!(nodes[2].value().1, shapes[2]);
}

#[test]
fn test_mirror_leaves_out_what_hangs_elsewhere()
{
    let shapes = nesting();
    let mut boxes = generate_frames(&arena(&shapes), frames(&shapes));

    boxes.push(Node::new((-1, Frame::default())));
    boxes.push(Node::new((-1, Frame::default())));
    Node::adopt(&mut boxes, 4, 1);
    Node::adopt(&mut boxes, 5, 0);
    Node::adopt(&mut boxes, 0, 2);

    let mut nodes = arena(&shapes);
    let root = mirror(&boxes, &mut nodes, 5, Shape::default());

    assert_eq!(*nodes[root].children(), vec![0]);
    assert_eq!(*nodes[0].children(), vec![2]);
    assert_eq!(nodes[1].parent(), None);
    assert_eq!(nodes[3].parent(), None);
    assert!(nodes[1].is_leaf());
}

#[test]
fn test_mend_moves_a_misplaced_node_up_and_below_an_aunt()
{
    let shapes = vec![
        Shape::square(0., 0., 10.),
        Shape::square(20., 20., 10.),
        Shape::square(22., 22., 1.),
        Shape::square(3., 3., 1.),
        Shape::square(50., 50., 1.),
    ];

    let mut nodes = arena(&shapes);
    nodes.push(Node::new((-1, Shape::default())));
    Node::adopt(&mut nodes, 5, 0);
    Node::adopt(&mut nodes, 5, 1);
    Node::adopt(&mut nodes, 0, 2);
    Node::adopt(&mut nodes, 0, 3);
    Node::adopt(&mut nodes, 0, 4);

    mend(&mut nodes, 5, 2);
    assert_eq!(nodes[2].parent(), Some(1));
    assert_eq!(*nodes[0].children(), vec![4, 3]);

    mend(&mut nodes, 5, 3);
    assert_eq!(nodes[3].parent(), Some(0));

    mend(&mut nodes, 5, 4);
    assert_eq!(nodes[4].parent(), Some(5));
    assert_eq!(*nodes[5].children(), vec![0, 1, 4]);

    mend(&mut nodes, 5, 4);
    mend(&mut nodes, 5, 5);
    assert_eq!(nodes[4].parent(), Some(5));
    assert!(nodes[5].is_root());
}

#[test]
fn test_transpose_copies_then_mends()
{
    let shapes = vec![
        Shape::new(&[(0., 0.), (10., 0.), (10., 2.), (2., 2.), (2., 10.), (0., 10.)]),
        Shape::new(&[(6., 6.), (7., 6.), (6., 7.)]),
    ];

    let mut boxes = generate_frames(&arena(&shapes), frames(&shapes));
    boxes.push(Node::new((-1, Frame::default())));
    Node::adopt(&mut boxes, 2, 0);
    Node::adopt(&mut boxes, 0, 1);

    let mut nodes = arena(&shapes);
    let root = transpose_rec_to_any(&boxes, &mut nodes, 2, Shape::default());

    assert_eq!(root, 2);
    assert_eq!(*nodes[root].children(), vec![0, 1]);
    assert!(nodes[0].is_leaf());
    assert_eq!(boxes[1].parent(), Some(0));
}

#[test]
fn test_graft_prefers_a_child_that_contains()
{
    let shapes = vec![
        Shape::square(0., 0., 10.).frame(),
        Shape::square(1., 1., 2.).frame(),
        Shape::square(50., 50., 2.).frame(),
    ];

    let mut boxes: Vec<Node<(isize, Frame)>> =
        shapes.iter().enumerate().map(|(i, f)| Node::new((i as isize, *f))).collect();

    boxes.push(Node::new((-1, Frame::default())));
    boxes.push(Node::new((-1, Frame::default())));
    Node::adopt(&mut boxes, 3, 1);
    Node::adopt(&mut boxes, 3, 2);
    Node::adopt(&mut boxes, 4, 0);

    graft(&mut boxes, 1, 4);
    assert_eq!(boxes[1].parent(), Some(0));

    graft(&mut boxes, 2, 4);
    assert_eq!(boxes[2].parent(), Some(4));
    assert_eq!(*boxes[4].children(), vec![0, 2]);
    assert!(boxes[3].is_leaf());
}

#[test]
fn test_conquer_empties_the_first_forest()
{
    let shapes = vec![
        Shape::square(0., 0., 10.).frame(),
        Shape::square(1., 1., 2.).frame(),
        Shape::square(50., 50., 2.).frame(),
        Shape::square(1.5, 1.5, 1.).frame(),
    ];

    let mut boxes: Vec<Node<(isize, Frame)>> =
        shapes.iter().enumerate().map(|(i, f)| Node::new((i as isize, *f))).collect();

    boxes.push(Node::new((-1, Frame::default())));
    boxes.push(Node::new((-1, Frame::default())));
    Node::adopt(&mut boxes, 4, 1);
    Node::adopt(&mut boxes, 4, 2);
    Node::adopt(&mut boxes, 1, 3);
    Node::adopt(&mut boxes, 5, 0);

    assert_eq!(conquer(&mut boxes, 4, 5), 5);
    assert!(boxes[4].is_leaf());
    assert_eq!(*boxes[5].children(), vec![0, 2]);
    assert_eq!(*boxes[0].children(), vec![1]);
    assert_eq!(*boxes[1].children(), vec![3]);
}

#[test]
fn test_split_puts_a_straddler_in_both_parts()
{
    let shapes = vec![
        Shape::square(0., 0., 2.).frame(),
        Shape::square(8., 0., 2.).frame(),
        Shape::square(4., 0., 2.).frame(),
    ];

    let boxes: Vec<Node<(isize, Frame)>> =
        shapes.iter().enumerate().map(|(i, f)| Node::new((i as isize, *f))).collect();

    let (_, separator, _) = halve(&big_frame(&shapes), true);

    assert_eq!(separator, ((5., 0.), (5., 2.)));

    let (first, second) = split(&boxes, &vec![0, 1, 2], &separator, &side);

    assert_eq!(first, vec![0, 2]);
    assert_eq!(second, vec![1, 2]);
}

#[test]
fn test_split_leaves_out_a_frame_on_the_separator()
{
    let shapes = vec![
        Shape::square(0., 0., 2.).frame(),
        Frame { xmin: 5., ymin: 0., xmax: 5., ymax: 2. },
        Shape::square(8., 0., 2.).frame(),
    ];

    let boxes: Vec<Node<(isize, Frame)>> =
        shapes.iter().enumerate().map(|(i, f)| Node::new((i as isize, *f))).collect();

    let (_, separator, _) = halve(&big_frame(&shapes), true);
    let (first, second) = split(&boxes, &vec![0, 1, 2], &separator, &side);

    assert_eq!(first, vec![0]);
    assert_eq!(second, vec![2]);
}

#[test]
fn test_divide_does_not_touch_a_frame_in_neither_part()
{
    let shapes = vec![
        Shape::square(0., 0., 2.).frame(),
        Frame { xmin: 5., ymin: 0., xmax: 5., ymax: 2. },
        Shape::square(8., 0., 2.).frame(),
    ];

    let mut boxes: Vec<Node<(isize, Frame)>> =
        shapes.iter().enumerate().map(|(i, f)| Node::new((i as isize, *f))).collect();

    let root = divide(&mut boxes, 3, vec![0, 1, 2], big_frame(&shapes), &halve, &side);

    assert_eq!(root, 4);
    assert_eq!(boxes.len(), 5);
    assert_eq!(*boxes[root].children(), vec![2, 0]);
    assert!(boxes[3].is_leaf());
    assert!(boxes[1].is_root());
    assert!(boxes[1].is_leaf());
}

#[test]
fn test_divide_puts_a_straddling_frame_above_both_halves()
{
    let shapes = vec![
        Shape::square(0., 0., 10.).frame(),
        Shape::square(1., 1., 1.).frame(),
        Shape::square(6., 6., 2.).frame(),
    ];

    let mut boxes: Vec<Node<(isize, Frame)>> =
        shapes.iter().enumerate().map(|(i, f)| Node::new((i as isize, *f))).collect();

    let root = divide(&mut boxes, 3, vec![0, 1, 2], big_frame(&shapes), &halve, &side);

    assert_eq!(boxes[root].value().0, -1);
    assert_eq!(parents(&boxes, 3), vec![-1, 0, 0]);
    assert_eq!(boxes[root].children().len(), 1);
    assert_eq!(boxes[0].children().len(), 2);
}

#[test]
fn test_divide_small_cases()
{
    let shapes = vec![Shape::square(1., 1., 2.).frame(), Shape::square(0., 0., 10.).frame()];
    let big = big_frame(&shapes);

    let fresh = || -> Vec<Node<(isize, Frame)>> {
        shapes.iter().enumerate().map(|(i, f)| Node::new((i as isize, *f))).collect()
    };

    let mut boxes = fresh();
    let root = divide(&mut boxes, 2, vec![], big, &halve, &side);
    assert_eq!(root, 2);
    assert!(boxes[root].is_leaf());
    assert_eq!(boxes[root].value().0, -1);

    let mut boxes = fresh();
    let root = divide(&mut boxes, 2, vec![1], big, &halve, &side);
    assert_eq!(*boxes[root].children(), vec![1]);
    assert!(boxes[0].is_root());

    let mut boxes = fresh();
    let root = divide(&mut boxes, 2, vec![0, 1], big, &halve, &side);
    assert_eq!(*boxes[root].children(), vec![1]);
    assert_eq!(*boxes[1].children(), vec![0]);

    let mut boxes = fresh();
    let root = divide(&mut boxes, 2, vec![1, 0], big, &halve, &side);
    assert_eq!(*boxes[root].children(), vec![1]);
    assert_eq!(*boxes[1].children(), vec![0]);
}

#[test]
fn test_divide_falls_back_when_no_separator_parts_the_frames()
{
    let shapes = vec![
        Shape::square(0., 0., 10.).frame(),
        Shape::square(1., 1., 8.).frame(),
        Shape::square(2., 2., 6.).frame(),
    ];

    let mut boxes: Vec<Node<(isize, Frame)>> =
        shapes.iter().enumerate().map(|(i, f)| Node::new((i as isize, *f))).collect();

    let root = divide(&mut boxes, 3, vec![2, 0, 1], big_frame(&shapes), &halve, &side);

    assert_eq!(root, 3);
    assert_eq!(boxes.len(), 4);
    assert_eq!(parents(&boxes, 3), vec![-1, 0, 1]);
}

#[test]
fn test_traits_of_shapes()
{
    let a = Shape::square(0., 0., 2.);
    let b = Shape::square(1., 1., 2.);
    let c = Shape::square(5., 5., 1.);

    assert!(a.intersects(&b));
    assert!(!a.intersects(&c));
    assert_eq!(
        Frame { xmin: -1., ymin: -1., xmax: 2., ymax: 1. }.to_svg(),
        "<rect x=\"-1\" y=\"1\" width=\"3\" height=\"2\" />"
    );
}

#[test]
fn test_accept_takes_what_crosses_nothing()
{
    let mut accepted = Vec::new();

    assert!(fits(&accepted, &Shape::square(0., 0., 2.)));
    assert!(accept(&mut accepted, Shape::square(0., 0., 2.)));
    assert!(!fits(&accepted, &Shape::square(1., 1., 2.)));
    assert!(!accept(&mut accepted, Shape::square(1., 1., 2.)));
    assert_eq!(accepted.len(), 1);
    assert!(accept(&mut accepted, Shape::square(5., 5., 1.)));
    assert!(!accept(&mut accepted, Shape::square(5.5, 5.5, 1.)));
    assert!(accept(&mut accepted, Shape::square(10., 0., 1.)));
    assert_eq!(
        accepted,
        vec![Shape::square(0., 0., 2.), Shape::square(5., 5., 1.), Shape::square(10., 0., 1.)]
    );

    for i in 0..accepted.len() {
        for j in 0..i {
            assert!(!accepted[i].intersects(&accepted[j]));
        }
    }
}

#[test]
fn test_zero_norm_error_message()
{
    assert_eq!(ZeroNormError.message(), "invalid norm value: it cannot be equal to zero");
}
