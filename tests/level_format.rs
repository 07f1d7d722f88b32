use breakout_core::level::{parse, read_from_string, LevelGrid, ParseError};

const FIFTEEN_BY_THIRTY: &str = "15:30\n 5, 5, 5, 5, 5, 5, 5, 5, 5, 5, 5, 5, 5, 5, 5,\n 5, 5, 5, 5, 5, 5, 5, 5, 5, 5, 5, 5, 5, 5, 5,\n 4, 4, 4, 4, 4, 0, 0, 0, 0, 0, 4, 4, 4, 4, 4,\n 4, 1, 4, 1, 4, 0, 0, 1, 0, 0, 4, 1, 4, 1, 4,\n 3, 3, 3, 3, 3, 0, 0, 0, 0, 0, 3, 3, 3, 3, 3,\n 3, 3, 1, 3, 3, 3, 3, 3, 3, 3, 3, 3, 1, 3, 3,\n 2, 2, 2, 2, 2, 2, 2, 2, 2, 2, 2, 2, 2, 2, 2,\n";

const SHORT_SECOND_ROW: &str = "15:30\n 5, 5, 5, 5, 5, 5, 5, 5, 5, 5, 5, 5, 5, 5, 5,\n 5, 5, 5, 5, 5, 5, 5, 5, 5, 5, 5, 5, 5, 5,\n 4, 4, 4, 4, 4, 0, 0, 0, 0, 0, 4, 4, 4, 4, 4,\n 4, 1, 4, 1, 4, 0, 0, 1, 0, 0, 4, 1, 4, 1, 4,\n 3, 3, 3, 3, 3, 0, 0, 0, 0, 0, 3, 3, 3, 3, 3,\n 3, 3, 1, 3, 3, 3, 3, 3, 3, 3, 3, 3, 1, 3, 3,\n 2, 2, 2, 2, 2, 2, 2, 2, 2, 2, 2, 2, 2, 2, 2,\n";

const NO_COLON: &str = "1530\n 5, 5, 5, 5, 5, 5, 5, 5, 5, 5, 5, 5, 5, 5, 5,\n 5, 5, 5, 5, 5, 5, 5, 5, 5, 5, 5, 5, 5, 5, 5,\n 4, 4, 4, 4, 4, 0, 0, 0, 0, 0, 4, 4, 4, 4, 4,\n 4, 1, 4, 1, 4, 0, 0, 1, 0, 0, 4, 1, 4, 1, 4,\n 3, 3, 3, 3, 3, 0, 0, 0, 0, 0, 3, 3, 3, 3, 3,\n 3, 3, 1, 3, 3, 3, 3, 3, 3, 3, 3, 3, 1, 3, 3,\n 2, 2, 2, 2, 2, 2, 2, 2, 2, 2, 2, 2, 2, 2, 2,\n";

fn grid(text: &str) -> LevelGrid {
    parse(text).expect("level should parse")
}

#[test]
fn accepts_correct_format() {
    read_from_string(FIFTEEN_BY_THIRTY).expect("Should work");
}

#[test]
#[should_panic]
fn rejects_incorrect_column_widths() {
    read_from_string(SHORT_SECOND_ROW).expect("Should work");
}

#[test]
#[should_panic]
fn rejects_incorrectly_formatted_headers() {
    read_from_string(NO_COLON).expect("Should work");
}

#[test]
fn correct_format_has_width_times_height_cells() {
    let g = grid(FIFTEEN_BY_THIRTY);
    assert_eq!(g.width(), 15);
    assert_eq!(g.height(), 30);
    assert_eq!(g.cells().len(), 15 * 30);
    assert_eq!(&g.cells()[0..3], &[5, 5, 5]);
    assert_eq!(g.cells()[3 * 15 + 1], 1);
    assert!(g.cells()[7 * 15..].iter().all(|&c| c == 0));
}

#[test]
fn short_row_reports_its_index() {
    assert_eq!(
        parse(SHORT_SECOND_ROW).unwrap_err(),
        ParseError::RowWidthMismatch { row_index: 1 }
    );
}

#[test]
fn header_without_colon_is_invalid() {
    assert_eq!(parse(NO_COLON).unwrap_err(), ParseError::InvalidHeader);
    assert_eq!(parse("1530").unwrap_err(), ParseError::InvalidHeader);
    assert_eq!(parse("15 30\n1,2\n").unwrap_err(), ParseError::InvalidHeader);
}

#[test]
fn missing_rows_are_zero_filled() {
    let g = grid("2:3\n1,1,\n");
    assert_eq!(g.cells(), &vec![1, 1, 0, 0, 0, 0]);
    assert_eq!((g.width(), g.height()), (2, 3));
}

#[test]
fn example_level_parses_row_major() {
    let (cells, dims) = read_from_string("2:3\n1, 0,\n0, 2,\n1, 1,\n").unwrap();
    assert_eq!(cells, vec![1, 0, 0, 2, 1, 1]);
    assert_eq!(dims, (2, 3));
}

#[test]
fn rows_beyond_height_are_ignored() {
    let g = grid("2:1\n3,4\nnot,a,row\n");
    assert_eq!(g.cells(), &vec![3, 4]);
}

#[test]
fn last_row_without_newline() {
    let g = grid("2:2\n1,2\n3,4");
    assert_eq!(g.cells(), &vec![1, 2, 3, 4]);
}

#[test]
fn empty_line_counts_as_a_row() {
    assert_eq!(
        parse("2:3\n1,1\n\n1,1\n").unwrap_err(),
        ParseError::RowWidthMismatch { row_index: 1 }
    );
}

#[test]
fn empty_input_is_invalid_header() {
    assert_eq!(parse("").unwrap_err(), ParseError::InvalidHeader);
}

#[test]
fn header_with_three_numbers_is_invalid() {
    assert_eq!(parse("1:2:3\n").unwrap_err(), ParseError::InvalidHeader);
}

#[test]
fn header_with_extra_or_non_numeric_fields_is_invalid() {
    assert_eq!(parse(" 2 : x : 1 \r\n7,8\r\n").unwrap_err(), ParseError::InvalidHeader);
    assert_eq!(parse("1:x:1\n").unwrap_err(), ParseError::InvalidHeader);
    assert_eq!(parse("1:2:\n").unwrap_err(), ParseError::InvalidHeader);
    assert_eq!(parse("x:2\n").unwrap_err(), ParseError::InvalidHeader);
    assert_eq!(parse("2:\n").unwrap_err(), ParseError::InvalidHeader);
}

#[test]
fn header_fields_are_trimmed() {
    let g = grid(" 2 : 1 \r\n7,8\r\n");
    assert_eq!((g.width(), g.height()), (2, 1));
    assert_eq!(g.cells(), &vec![7, 8]);
}

#[test]
fn non_numeric_tokens_are_dropped_before_counting() {
    let g = grid("2:1\n5, x, 6, -1, 4294967296,\n");
    assert_eq!(g.cells(), &vec![5, 6]);
    assert_eq!(
        parse("3:1\n5, x, 6\n").unwrap_err(),
        ParseError::RowWidthMismatch { row_index: 0 }
    );
}

#[test]
fn plus_sign_and_leading_zeros_and_largest_value() {
    let g = grid("3:1\n+7, 007, 4294967295\n");
    assert_eq!(g.cells(), &vec![7, 7, 4294967295]);
}

#[test]
fn unicode_whitespace_is_trimmed() {
    let g = grid("2:1\n\u{3000}7,\u{a0}8\u{2009},\n");
    assert_eq!(g.cells(), &vec![7, 8]);
}

#[test]
fn zero_width_and_zero_height() {
    let g = grid("0:2\n\n\n");
    assert_eq!(g.cells().len(), 0);
    assert_eq!((g.width(), g.height()), (0, 2));
    let g = grid("3:0\n");
    assert_eq!(g.cells().len(), 0);
}

#[test]
fn text_round_trip() {
    let g = grid("3:2\n10, 0, 4294967295,\n 1,2,3\n");
    let text = g.to_text();
    assert_eq!(text, "3:2\n10,0,4294967295,\n1,2,3,\n");
    let again = grid(&text);
    assert_eq!(again.cells(), g.cells());
    assert_eq!((again.width(), again.height()), (3, 2));
}

#[test]
fn text_round_trip_of_padded_level() {
    let g = grid("2:3\n1,1,\n");
    assert_eq!(g.to_text(), "2:3\n1,1,\n0,0,\n0,0,\n");
    let again = grid(&g.to_text());
    assert_eq!(again.cells(), &vec![1, 1, 0, 0, 0, 0]);
}
