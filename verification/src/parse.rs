//! The textual polygon format, as far as it is text: a line holds three
//! fields parted by white space, the number of a polygon and the two
//! coordinates of one of its vertices, and consecutive lines with the same
//! number make one polygon. The coordinates stay text here; their fields
//! are handed out as byte ranges of the line.

use vstd::prelude::*;

verus! {

/// ASCII white space: space, tab, line feed, form feed, carriage return.
pub open spec fn is_space(byte: u8) -> bool {
    byte == 32 || byte == 9 || byte == 10 || byte == 12 || byte == 13
}

/// The first position from `from` on that holds no white space, or the
/// length of the line.
pub open spec fn skip_spaces(line: Seq<u8>, from: int) -> int
    decreases line.len() - from,
{
    if from < 0 || from >= line.len() {
        line.len() as int
    } else if is_space(line[from]) {
        skip_spaces(line, from + 1)
    } else {
        from
    }
}

/// The first position from `from` on that holds white space, or the length
/// of the line.
pub open spec fn skip_word(line: Seq<u8>, from: int) -> int
    decreases line.len() - from,
{
    if from < 0 || from >= line.len() {
        line.len() as int
    } else if !is_space(line[from]) {
        skip_word(line, from + 1)
    } else {
        from
    }
}

/// The number that a sequence of decimal digits writes.
pub open spec fn decimal(digits: Seq<u8>) -> nat
    decreases digits.len(),
{
    if digits.len() == 0 {
        0
    } else {
        decimal(digits.drop_last()) * 10 + (digits.last() - 48) as nat
    }
}

/// Every byte is a decimal digit.
pub open spec fn all_digits(digits: Seq<u8>) -> bool {
    forall|i: int| 0 <= i < digits.len() ==> 48 <= #[trigger] digits[i] <= 57
}

/// A field without its plus sign, if it starts with one.
pub open spec fn unsigned(field: Seq<u8>) -> Seq<u8> {
    if field.len() > 0 && field[0] == 43 {
        field.skip(1)
    } else {
        field
    }
}

/// The polygon number that a field writes: an optional plus sign and then
/// one or more decimal digits that make a number of sixteen bits.
pub open spec fn polygon_number(field: Seq<u8>) -> Option<u16> {
    let digits = unsigned(field);
    if digits.len() > 0 && all_digits(digits) && decimal(digits) <= u16::MAX {
        Some(decimal(digits) as u16)
    } else {
        None
    }
}

/// One line of the format.
#[derive(Clone, Copy, Debug, PartialEq, Eq)]
pub struct Row {
    /// The number of the polygon.
    pub polygon: u16,
    /// Where the field of the first coordinate starts and ends in the line.
    pub x: (usize, usize),
    /// Where the field of the second coordinate starts and ends in the line.
    pub y: (usize, usize),
}

/// What is wrong with a line.
#[derive(Clone, Copy, Debug, PartialEq, Eq)]
pub enum RowError {
    /// The line has fewer than three fields.
    MissingField,
    /// The line has more than three fields.
    ExtraField,
    /// The first field is no polygon number.
    BadNumber,
}

/// What a line holds.
pub open spec fn row_of(line: Seq<u8>) -> Result<Row, RowError> {
    let a0 = skip_spaces(line, 0);
    let a1 = skip_word(line, a0);
    let b0 = skip_spaces(line, a1);
    let b1 = skip_word(line, b0);
    let c0 = skip_spaces(line, b1);
    let c1 = skip_word(line, c0);
    if c0 >= line.len() {
        Err(RowError::MissingField)
    } else if skip_spaces(line, c1) < line.len() {
        Err(RowError::ExtraField)
    } else {
        match polygon_number(line.subrange(a0, a1)) {
            Some(polygon) => Ok(
                Row { polygon, x: (b0 as usize, b1 as usize), y: (c0 as usize, c1 as usize) },
            ),
            None => Err(RowError::BadNumber),
        }
    }
}

/// Where the skipping ends: between `from` and the length, past white space
/// only, and on a byte that is none.
pub proof fn lemma_skip_spaces(line: Seq<u8>, from: int)
    requires
        0 <= from <= line.len(),
    ensures
        from <= skip_spaces(line, from) <= line.len(),
        forall|i: int| from <= i < skip_spaces(line, from) ==> is_space(#[trigger] line[i]),
        skip_spaces(line, from) < line.len() ==> !is_space(line[skip_spaces(line, from)]),
    decreases line.len() - from,
{
    if from < line.len() && is_space(line[from]) {
        lemma_skip_spaces(line, from + 1);
    }
}

/// Where a word ends: between `from` and the length, past bytes that are no
/// white space, and on one that is.
pub proof fn lemma_skip_word(line: Seq<u8>, from: int)
    requires
        0 <= from <= line.len(),
    ensures
        from <= skip_word(line, from) <= line.len(),
        forall|i: int| from <= i < skip_word(line, from) ==> !is_space(#[trigger] line[i]),
        skip_word(line, from) < line.len() ==> is_space(line[skip_word(line, from)]),
        from < line.len() && !is_space(line[from]) ==> from < skip_word(line, from),
    decreases line.len() - from,
{
    if from < line.len() && !is_space(line[from]) {
        lemma_skip_word(line, from + 1);
    }
}

/// Whether a byte is ASCII white space.
pub fn is_white(byte: u8) -> (white: bool)
    ensures
        white == is_space(byte),
{
    byte == 32 || byte == 9 || byte == 10 || byte == 12 || byte == 13
}

/// The next field of the line from `from` on: where it starts and where it
/// ends. A field that starts at the length of the line is none.
pub fn next_field(line: &[u8], from: usize) -> (field: (usize, usize))
    requires
        from <= line@.len(),
    ensures
        field.0 == skip_spaces(line@, from as int),
        field.1 == skip_word(line@, field.0 as int),
        from <= field.0 <= field.1 <= line@.len(),
{
    let mut start = from;
    while start < line.len() && is_white(line[start])
        invariant
            from <= start <= line@.len(),
            skip_spaces(line@, from as int) == skip_spaces(line@, start as int),
        decreases line@.len() - start,
    {
        start += 1;
    }
    let mut end = start;
    while end < line.len() && !is_white(line[end])
        invariant
            start <= end <= line@.len(),
            skip_word(line@, start as int) == skip_word(line@, end as int),
        decreases line@.len() - end,
    {
        end += 1;
    }
    (start, end)
}

/// The number written before the last digit is a tenth of the whole, so no
/// prefix of digits writes a greater number than the whole.
pub proof fn lemma_decimal_prefix(digits: Seq<u8>, upto: int)
    requires
        0 <= upto <= digits.len(),
        all_digits(digits),
    ensures
        decimal(digits.take(upto)) <= decimal(digits),
    decreases digits.len() - upto,
{
    if upto < digits.len() {
        lemma_decimal_prefix(digits, upto + 1);
        assert(digits.take(upto + 1).drop_last() =~= digits.take(upto));
    } else {
        assert(digits.take(upto) =~= digits);
    }
}

/// Reads a polygon number from the bytes of the line between `start` and
/// `end`.
pub fn parse_number(line: &[u8], start: usize, end: usize) -> (number: Option<u16>)
    requires
        start <= end <= line@.len(),
    ensures
        number == polygon_number(line@.subrange(start as int, end as int)),
{
    let ghost field = line@.subrange(start as int, end as int);
    let mut at = start;
    if at < end && line[at] == 43 {
        at += 1;
    }
    let ghost digits = unsigned(field);
    assert(digits =~= line@.subrange(at as int, end as int));
    if at == end {
        return None;
    }
    let first = at;
    let mut value: u32 = 0;
    while at < end
        invariant
            first <= at <= end <= line@.len(),
            first < end,
            digits == unsigned(line@.subrange(start as int, end as int)),
            digits == line@.subrange(first as int, end as int),
            all_digits(digits.take(at - first)),
            value == decimal(digits.take(at - first)),
            value <= u16::MAX,
        decreases end - at,
    {
        let byte = line[at];
        if byte < 48 || byte > 57 {
            proof {
                assert(digits[at - first] == byte);
                assert(!all_digits(digits));
            }
            return None;
        }
        let ghost longer = digits.take(at - first + 1);
        proof {
            assert(longer.drop_last() =~= digits.take(at - first));
            assert(longer.last() == byte);
            assert forall|i: int| 0 <= i < longer.len() implies 48 <= #[trigger] longer[i] <= 57 by {
                if i < at - first {
                    assert(digits.take(at - first)[i] == longer[i]);
                }
            }
        }
        value = value * 10 + (byte - 48) as u32;
        assert(value == decimal(longer));
        if value > 65535 {
            proof {
                if all_digits(digits) {
                    lemma_decimal_prefix(digits, at - first + 1);
                    assert(decimal(digits) > u16::MAX);
                }
            }
            return None;
        }
        at += 1;
    }
    proof {
        assert(digits.take(at - first) =~= digits);
    }
    Some(value as u16)
}

/// The fields of a row lie in the line one behind the other, none is empty,
/// and none holds white space.
pub proof fn lemma_row_fields(line: Seq<u8>)
    requires
        line.len() <= usize::MAX,
    ensures
        row_of(line) matches Ok(row) ==> {
            &&& row.x.0 < row.x.1 < row.y.0 < row.y.1 <= line.len()
            &&& forall|i: int| row.x.0 <= i < row.x.1 ==> !is_space(#[trigger] line[i])
            &&& forall|i: int| row.y.0 <= i < row.y.1 ==> !is_space(#[trigger] line[i])
        },
{
    lemma_skip_spaces(line, 0);
    let a0 = skip_spaces(line, 0);
    lemma_skip_word(line, a0);
    let a1 = skip_word(line, a0);
    lemma_skip_spaces(line, a1);
    let b0 = skip_spaces(line, a1);
    lemma_skip_word(line, b0);
    let b1 = skip_word(line, b0);
    lemma_skip_spaces(line, b1);
    let c0 = skip_spaces(line, b1);
    lemma_skip_word(line, c0);
    let c1 = skip_word(line, c0);
    if c0 < line.len() {
        assert(!is_space(line[c0]));
        assert(b0 < line.len());
        assert(!is_space(line[b0]));
        assert(b0 < b1);
        assert(is_space(line[b1]));
        assert(b1 < c0);
        assert(c0 < c1);
    }
}

/// Reads one line: three fields parted by white space, of which the first is
/// a polygon number.
pub fn parse_row(line: &[u8]) -> (row: Result<Row, RowError>)
    ensures
        row == row_of(line@),
        row matches Ok(found) ==> found.x.0 < found.x.1 < found.y.0 < found.y.1 <= line@.len(),
{
    let length = line.len();
    proof {
        lemma_row_fields(line@);
    }
    let a = next_field(line, 0);
    let b = next_field(line, a.1);
    let c = next_field(line, b.1);
    if c.0 >= length {
        return Err(RowError::MissingField);
    }
    let rest = next_field(line, c.1);
    if rest.0 < length {
        return Err(RowError::ExtraField);
    }
    match parse_number(line, a.0, a.1) {
        Some(polygon) => Ok(Row { polygon, x: b, y: c }),
        None => Err(RowError::BadNumber),
    }
}

/// The index of the polygon of row `i`: polygons are counted from zero, and
/// a row starts a new one where its number differs from that of the row
/// before.
pub open spec fn polygon_index(numbers: Seq<u16>, i: int) -> nat
    decreases i,
{
    if i <= 0 {
        0
    } else if numbers[i] != numbers[i - 1] {
        polygon_index(numbers, i - 1) + 1
    } else {
        polygon_index(numbers, i - 1)
    }
}

/// For each row, the index of its polygon: the first row has the index
/// zero, and each later row has the index of the row before it or the next
/// one.
pub fn group_rows(numbers: &Vec<u16>) -> (indexes: Vec<usize>)
    ensures
        indexes.len() == numbers.len(),
        forall|i: int| 0 <= i < indexes.len() ==> indexes[i] == polygon_index(numbers@, i),
        indexes.len() > 0 ==> indexes[0] == 0,
        forall|i: int|
            0 < i < indexes.len() ==> indexes[i - 1] <= #[trigger] indexes[i] <= indexes[i - 1] + 1,
{
    let mut indexes: Vec<usize> = Vec::new();
    let mut i: usize = 0;
    let mut current: usize = 0;
    while i < numbers.len()
        invariant
            i <= numbers.len(),
            indexes.len() == i,
            forall|k: int| 0 <= k < i ==> indexes[k] == polygon_index(numbers@, k),
            i > 0 ==> current == polygon_index(numbers@, i - 1),
            i == 0 ==> current == 0,
            current <= i,
        decreases numbers.len() - i,
    {
        if i > 0 && numbers[i] != numbers[i - 1] {
            current += 1;
        }
        indexes.push(current);
        i += 1;
    }
    indexes
}

} // verus!
