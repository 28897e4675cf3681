use polygon::parse::{group_rows, is_white, next_field, parse_number, parse_row, Row, RowError};

fn polygons(text: &str) -> Vec<Vec<(f64, f64)>>
{
    let mut numbers = Vec::new();
    let mut points = Vec::new();

    for line in text.lines() {
        let row = parse_row(line.as_bytes()).unwrap();

        numbers.push(row.polygon);

        points.push(
            (
                line[row.x.0..row.x.1].parse::<f64>().unwrap(),
                line[row.y.0..row.y.1].parse::<f64>().unwrap()
            )
        );
    }

    let mut ret: Vec<Vec<(f64, f64)>> = Vec::new();

    for (point, index) in points.into_iter().zip(group_rows(&numbers)) {
        if index == ret.len() {
            ret.push(Vec::new());
        }

        ret[index].push(point);
    }

    ret
}

#[test]
fn test_parse_from_string()
{
    let testing = "0 1 1\n0 5 1\n0 5 5\n0 1 5\n1 0 0\n1 6 0\n1 6 6\n1 0 6\n2 2 2\n2 2 3\n2 3 2\n\
                   3 4 4\n3 4 3\n3 3 4\n";

    let expected = vec![
        vec![(1.0, 1.0), (5.0, 1.0), (5.0, 5.0), (1.0, 5.0)],
        vec![(0.0, 0.0), (6.0, 0.0), (6.0, 6.0), (0.0, 6.0)],
        vec![(2.0, 2.0), (2.0, 3.0), (3.0, 2.0)],
        vec![(4.0, 4.0), (4.0, 3.0), (3.0, 4.0)],
    ];

    let parsed = polygons(testing);

    assert_eq!(parsed.len(), expected.len());

    for (t, e) in parsed.into_iter().zip(expected) {
        assert_eq!(t, e);
    }
}

#[test]
fn test_parse_row_gives_number_and_field_ranges()
{
    assert_eq!(parse_row(b"12 3.5 -4e2"), Ok(Row { polygon: 12, x: (3, 6), y: (7, 11) }));
    assert_eq!(parse_row(b"  7\t1   2 \r"), Ok(Row { polygon: 7, x: (4, 5), y: (8, 9) }));
    assert_eq!(parse_row(b"+65535 x y"), Ok(Row { polygon: 65535, x: (7, 8), y: (9, 10) }));
    assert_eq!(parse_row(b"0 0 0"), Ok(Row { polygon: 0, x: (2, 3), y: (4, 5) }));
}

#[test]
fn test_parse_row_missing_field()
{
    assert_eq!(parse_row(b""), Err(RowError::MissingField));
    assert_eq!(parse_row(b"   "), Err(RowError::MissingField));
    assert_eq!(parse_row(b"1"), Err(RowError::MissingField));
    assert_eq!(parse_row(b"1 2.0"), Err(RowError::MissingField));
    assert_eq!(parse_row(b"x 2.0 "), Err(RowError::MissingField));
}

#[test]
fn test_parse_row_extra_field()
{
    assert_eq!(parse_row(b"1 2 3 4"), Err(RowError::ExtraField));
    assert_eq!(parse_row(b"x 2 3 4"), Err(RowError::ExtraField));
}

#[test]
fn test_parse_row_bad_number()
{
    assert_eq!(parse_row(b"x 2 3"), Err(RowError::BadNumber));
    assert_eq!(parse_row(b"-1 2 3"), Err(RowError::BadNumber));
    assert_eq!(parse_row(b"65536 2 3"), Err(RowError::BadNumber));
    assert_eq!(parse_row(b"+ 2 3"), Err(RowError::BadNumber));
    assert_eq!(parse_row(b"1.0 2 3"), Err(RowError::BadNumber));
}

#[test]
fn test_parse_number_reads_sixteen_bits()
{
    let line = b"+042 65535 65536 99999999999 4x +";

    assert_eq!(parse_number(line, 0, 4), Some(42));
    assert_eq!(parse_number(line, 1, 4), Some(42));
    assert_eq!(parse_number(line, 5, 10), Some(65535));
    assert_eq!(parse_number(line, 11, 16), None);
    assert_eq!(parse_number(line, 17, 28), None);
    assert_eq!(parse_number(line, 29, 31), None);
    assert_eq!(parse_number(line, 32, 33), None);
    assert_eq!(parse_number(line, 3, 3), None);
    assert_eq!(parse_number(line, 3, 4), Some(2));
}

#[test]
fn test_next_field_skips_white_space_then_takes_a_word()
{
    let line = b"  ab \t cd";

    assert_eq!(next_field(line, 0), (2, 4));
    assert_eq!(next_field(line, 3), (3, 4));
    assert_eq!(next_field(line, 4), (7, 9));
    assert_eq!(next_field(line, 9), (9, 9));
    assert_eq!(next_field(b"", 0), (0, 0));
}

#[test]
fn test_is_white_is_ascii_white_space()
{
    for byte in 0..=255u8 {
        assert_eq!(is_white(byte), byte.is_ascii_whitespace());
    }
}

#[test]
fn test_group_rows_starts_a_polygon_where_the_number_changes()
{
    assert_eq!(group_rows(&vec![]), Vec::<usize>::new());
    assert_eq!(group_rows(&vec![9]), vec![0]);
    assert_eq!(group_rows(&vec![5, 5, 5, 2, 2, 7]), vec![0, 0, 0, 1, 1, 2]);
    assert_eq!(group_rows(&vec![1, 2, 1, 1, 2]), vec![0, 1, 2, 2, 3]);
}
