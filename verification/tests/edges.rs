use polygon::geo::edges::{all_distinct, is_simple};

type Point = (f64, f64);

fn ccw(a: Point, b: Point, c: Point) -> bool
{
    (b.0 - a.0) * (c.1 - a.1) - (b.1 - a.1) * (c.0 - a.0) > 0.
}

fn same(a: Point, b: Point) -> bool
{
    ((a.0 - b.0).powi(2) + (a.1 - b.1).powi(2)).sqrt() < 1e-5
}

fn tables(points: &[Point]) -> (Vec<Vec<bool>>, Vec<Vec<bool>>)
{
    let n = points.len();
    let edge = |i: usize| (points[i], points[(i + 1) % n]);

    let mut shares = vec![vec![false; n]; n];
    let mut meets = vec![vec![false; n]; n];

    for i in 0..n {
        for j in 0..n {
            let ((a, b), (c, d)) = (edge(i), edge(j));

            shares[i][j] = same(a, c) || same(a, d) || same(b, c) || same(b, d);

            meets[i][j] =
                shares[i][j] || ((ccw(a, c, d) != ccw(b, c, d)) && (ccw(a, b, c) != ccw(a, b, d)));
        }
    }

    (shares, meets)
}

fn coinciding(points: &[Point]) -> Vec<Vec<bool>>
{
    points.iter().map(|&a| points.iter().map(|&b| same(a, b)).collect()).collect()
}

fn valid(points: &[Point]) -> bool
{
    let (shares, meets) = tables(points);

    all_distinct(&coinciding(points)) && is_simple(&shares, &meets)
}

#[test]
fn test_triangle_is_simple()
{
    assert!(valid(&[(-1., 0.), (0., 1.), (1., 0.)]));
}

#[test]
fn test_square_is_simple()
{
    assert!(valid(&[(0., 0.), (1., 0.), (1., 1.), (0., 1.)]));
}

#[test]
fn test_fewer_than_three_points_are_no_polygon()
{
    assert!(!valid(&[]));
    assert!(!valid(&[(0., 0.)]));
    assert!(!valid(&[(0., 0.), (1., 1.)]));
}

#[test]
fn test_fewer_than_three_distinct_points_are_no_polygon()
{
    assert!(!valid(&[(0., 0.), (0., 0.)]));
    assert!(!valid(&[(0., 0.), (0., 0.), (1., 1.)]));
    assert!(!valid(&[(0., 0.), (1., 1.), (0., 0.000001)]));
    assert!(!all_distinct(&coinciding(&[(0., 0.), (1., 1.), (2., 0.), (1., 1.)])));
    assert!(all_distinct(&coinciding(&[(0., 0.), (1., 1.), (2., 0.)])));
    assert!(all_distinct(&coinciding(&[])));
}

#[test]
fn test_only_coincidences_in_order_count()
{
    let mut same = vec![vec![true, false, false], vec![true, true, false], vec![true, true, true]];

    assert!(all_distinct(&same));

    same[1][2] = true;
    assert!(!all_distinct(&same));
}

#[test]
fn test_bowtie_is_not_simple()
{
    assert!(!valid(&[(0., 0.), (1., 1.), (1., 0.), (0., 1.)]));
}

#[test]
fn test_only_pairs_in_order_count()
{
    let no = vec![vec![false; 3]; 3];
    let mut meets = vec![vec![false; 3]; 3];

    meets[2][0] = true;
    meets[1][1] = true;
    assert!(is_simple(&no, &meets));

    meets[0][2] = true;
    assert!(!is_simple(&no, &meets));

    let mut shares = vec![vec![false; 3]; 3];

    shares[0][2] = true;
    assert!(is_simple(&shares, &meets));
}
