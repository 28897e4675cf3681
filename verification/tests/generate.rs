use polygon::cmd::generate::{draw_corner_count, CORNERS_MIN};

#[test]
fn test_corner_count_stays_within_bounds()
{
    let mut source = rand::thread_rng();

    for _ in 0..500 {
        let count = draw_corner_count(&mut source, 6).unwrap();

        assert!(3 <= count && count <= 6);
    }
}

#[test]
fn test_corner_count_varies()
{
    let mut source = rand::thread_rng();
    let mut seen = [false; 7];

    for _ in 0..2000 {
        seen[draw_corner_count(&mut source, 6).unwrap()] = true;
    }

    assert_eq!(seen, [false, false, false, true, true, true, true]);
}

#[test]
fn test_corner_count_of_a_triangle_is_three()
{
    assert_eq!(CORNERS_MIN, 3);
    assert_eq!(draw_corner_count(&mut rand::thread_rng(), 3), Some(3));
}

#[test]
fn test_corner_count_needs_three_corners()
{
    let mut source = rand::thread_rng();

    assert_eq!(draw_corner_count(&mut source, 2), None);
    assert_eq!(draw_corner_count(&mut source, 0), None);
}
