use multinomial_nb::error::Error;
use multinomial_nb::matrix::Matrix;
use multinomial_nb::parse::parse_matrix;
use multinomial_nb::render::matrix_to_text;

fn mat(rows: Vec<Vec<u64>>) -> Matrix {
    let cols = if rows.is_empty() { 0 } else { rows[0].len() };
    Matrix::from_rows(rows, cols)
}

fn assert_cells(m: &Matrix, expected: &[&[u64]]) {
    assert_eq!(m.rows(), expected.len());
    for (i, row) in expected.iter().enumerate() {
        assert_eq!(m.cols(), row.len());
        for (j, v) in row.iter().enumerate() {
            assert_eq!(m.get(i, j), *v);
        }
    }
}

#[test]
fn parse_basic() {
    let m = parse_matrix(b"1 2\n3 4").unwrap();
    assert_cells(&m, &[&[1, 2], &[3, 4]]);
}

#[test]
fn parse_whitespace_runs() {
    let m = parse_matrix(b"1 \t 2\r\n3  4").unwrap();
    assert_cells(&m, &[&[1, 2], &[3, 4]]);
}

#[test]
fn parse_trailing_newline() {
    let m = parse_matrix(b"1 2\n3 4\n").unwrap();
    assert_eq!(m.rows(), 2);
    assert_eq!(m.cols(), 2);
}

#[test]
fn parse_empty_file() {
    let m = parse_matrix(b"").unwrap();
    assert_eq!(m.rows(), 0);
    assert_eq!(m.cols(), 0);
}

#[test]
fn parse_blank_line_has_zero_columns() {
    let m = parse_matrix(b" ").unwrap();
    assert_eq!(m.rows(), 1);
    assert_eq!(m.cols(), 0);
}

#[test]
fn parse_ragged_short_row() {
    assert!(matches!(parse_matrix(b"1 2\n3"), Err(Error::RaggedMatrix)));
}

#[test]
fn parse_ragged_long_row() {
    assert!(matches!(parse_matrix(b"1\n2 3"), Err(Error::RaggedMatrix)));
}

#[test]
fn parse_ragged_blank_middle_line() {
    assert!(matches!(parse_matrix(b"1\n\n2"), Err(Error::RaggedMatrix)));
}

#[test]
fn parse_invalid_cell_keeps_token() {
    match parse_matrix(b"1 a2\n3 4") {
        Err(Error::InvalidCell(t)) => assert_eq!(t, b"a2".to_vec()),
        other => panic!("expected InvalidCell, got {:?}", other.map(|m| m.rows())),
    }
}

#[test]
fn parse_invalid_cell_before_ragged_check() {
    // The bad cell sits on a row that is also too short: the cell fails first.
    match parse_matrix(b"1 2\nx") {
        Err(Error::InvalidCell(t)) => assert_eq!(t, b"x".to_vec()),
        other => panic!("expected InvalidCell, got {:?}", other.map(|m| m.rows())),
    }
}

#[test]
fn parse_negative_is_invalid() {
    match parse_matrix(b"-1") {
        Err(Error::InvalidCell(t)) => assert_eq!(t, b"-1".to_vec()),
        other => panic!("expected InvalidCell, got {:?}", other.map(|m| m.rows())),
    }
}

#[test]
fn parse_plus_sign() {
    let m = parse_matrix(b"+5").unwrap();
    assert_cells(&m, &[&[5]]);
}

#[test]
fn parse_bare_plus_is_invalid() {
    assert!(matches!(parse_matrix(b"+"), Err(Error::InvalidCell(_))));
}

#[test]
fn parse_largest_value() {
    let m = parse_matrix(b"18446744073709551615").unwrap();
    assert_cells(&m, &[&[u64::MAX]]);
}

#[test]
fn parse_overflowing_value_is_invalid() {
    match parse_matrix(b"18446744073709551616") {
        Err(Error::InvalidCell(t)) => assert_eq!(t, b"18446744073709551616".to_vec()),
        other => panic!("expected InvalidCell, got {:?}", other.map(|m| m.rows())),
    }
}

#[test]
fn serialize_exact_text() {
    let m = mat(vec![vec![2, 0], vec![0, 3]]);
    assert_eq!(matrix_to_text(&m), b"2 0\n0 3".to_vec());
}

#[test]
fn serialize_single_zero() {
    let m = mat(vec![vec![0]]);
    assert_eq!(matrix_to_text(&m), b"0".to_vec());
}

#[test]
fn round_trip_small() {
    let m = mat(vec![vec![10, 0, 7], vec![18446744073709551615, 1, 200]]);
    let text = matrix_to_text(&m);
    let back = parse_matrix(&text).unwrap();
    assert_cells(&back, &[&[10, 0, 7], &[u64::MAX, 1, 200]]);
}

#[test]
fn round_trip_empty() {
    let m = mat(vec![]);
    let text = matrix_to_text(&m);
    assert_eq!(text, Vec::<u8>::new());
    let back = parse_matrix(&text).unwrap();
    assert_eq!(back.rows(), 0);
    assert_eq!(back.cols(), 0);
}

#[test]
fn matrix_set_and_get() {
    let mut m = Matrix::new_zeros(2, 3);
    m.set(1, 2, 42);
    assert_eq!(m.get(1, 2), 42);
    assert_eq!(m.get(0, 2), 0);
    assert_eq!(m.rows(), 2);
    assert_eq!(m.cols(), 3);
}
