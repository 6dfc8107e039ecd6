use matrix::Matrix;
use matrix::MatrixError;

fn bits(x: f32) -> u32 {
    x.to_bits()
}

fn row_values(m: &Matrix, i: usize) -> Vec<f32> {
    m.row(i).unwrap().iter().map(|b| f32::from_bits(*b)).collect()
}

fn mat() -> Matrix {
    // [ 1 2 3 ]
    // [ 4 5 6 ]
    Matrix::new(
        2,
        3,
        vec![bits(1.0), bits(2.0), bits(3.0), bits(4.0), bits(5.0), bits(6.0)],
    )
}

fn mat2() -> Matrix {
    // [ 1 2 ]
    // [ 3 4 ]
    // [ 5 6 ]
    Matrix::new(
        3,
        2,
        vec![bits(1.0), bits(2.0), bits(3.0), bits(4.0), bits(5.0), bits(6.0)],
    )
}

#[test]
fn indexing() {
    let a = mat();

    assert_eq!(row_values(&a, 1), vec![4.0, 5.0, 6.0]);
    assert_eq!(f32::from_bits(a.row(0).unwrap()[2]), 3.0);
}

#[test]
fn string() {
    let to = "[ 1 2 3 ]\n[ 4 5 6 ]\n";
    let from = "2 3\n1 2 3\n4 5 6\n";
    let a = mat();
    let parsed = Matrix::from_str(from).unwrap();

    assert_eq!(a.to_string(), to);
    assert_eq!(row_values(&parsed, 1), vec![4.0, 5.0, 6.0]);
    assert_eq!(f32::from_bits(parsed.row(0).unwrap()[1]), 2.0);
}

#[test]
fn swap_rows() {
    let a = &mut mat2();
    a.swap_rows(0, 2);

    assert_eq!(row_values(a, 0), vec![5.0, 6.0]);
    assert_eq!(row_values(a, 1), vec![3.0, 4.0]);
    assert_eq!(row_values(a, 2), vec![1.0, 2.0]);
}

#[test]
fn mult_row() {
    let a = &mut mat();
    a.mult_row(0, bits(2.5));

    assert_eq!(row_values(a, 0), vec![2.5, 5.0, 7.5]);
    assert_eq!(row_values(a, 1), vec![4.0, 5.0, 6.0]);
}

#[test]
fn add_row() {
    let a = &mut mat2();
    a.add_row(0, 2);

    assert_eq!(row_values(a, 0), vec![6.0, 8.0]);
    assert_eq!(row_values(a, 1), vec![3.0, 4.0]);
    assert_eq!(row_values(a, 2), vec![5.0, 6.0]);
}

#[test]
fn test_read_matrix() {
    let text = "4 2\n1 2.0 3 4\n5 6\n7 8";
    let res = Matrix::from_str(text);

    assert!(res.is_ok());

    let mat = res.unwrap();
    assert_eq!(mat.rows(), 4);
    assert_eq!(mat.cols(), 2);
    assert_eq!(row_values(&mat, 2), vec![5.0, 6.0]);
}

#[test]
fn swap_rows_same_index_is_noop() {
    let a = &mut mat2();
    a.swap_rows(1, 1);

    assert_eq!(row_values(a, 0), vec![1.0, 2.0]);
    assert_eq!(row_values(a, 1), vec![3.0, 4.0]);
    assert_eq!(row_values(a, 2), vec![5.0, 6.0]);
}

#[test]
fn add_row_to_itself_doubles_it() {
    let a = &mut mat();
    a.add_row(1, 1);

    assert_eq!(row_values(a, 0), vec![1.0, 2.0, 3.0]);
    assert_eq!(row_values(a, 1), vec![8.0, 10.0, 12.0]);
}

#[test]
fn row_out_of_range() {
    let a = mat();

    assert_eq!(a.row(2).unwrap_err(), MatrixError::IndexOutOfRange);
    assert_eq!(a.row(usize::MAX).unwrap_err(), MatrixError::IndexOutOfRange);
}

#[test]
fn parse_malformed_header() {
    assert_eq!(Matrix::from_str("").unwrap_err(), MatrixError::MalformedHeader);
    assert_eq!(Matrix::from_str("2").unwrap_err(), MatrixError::MalformedHeader);
    assert_eq!(Matrix::from_str("x 2 1 2").unwrap_err(), MatrixError::MalformedHeader);
    assert_eq!(Matrix::from_str("2 -3 1 2").unwrap_err(), MatrixError::MalformedHeader);
    assert_eq!(Matrix::from_str("2.5 2 1 2").unwrap_err(), MatrixError::MalformedHeader);
}

#[test]
fn parse_malformed_element() {
    assert_eq!(Matrix::from_str("1 2\n1 zebra").unwrap_err(), MatrixError::MalformedElement);
    assert_eq!(Matrix::from_str("1 1\n--3").unwrap_err(), MatrixError::MalformedElement);
}

#[test]
fn parse_element_count_mismatch() {
    assert_eq!(Matrix::from_str("2 2\n1 2 3").unwrap_err(), MatrixError::ElementCountMismatch);
    assert_eq!(Matrix::from_str("2 2\n1 2 3 4 5").unwrap_err(), MatrixError::ElementCountMismatch);
    assert_eq!(Matrix::from_str("0 0 1").unwrap_err(), MatrixError::ElementCountMismatch);
}

#[test]
fn parse_header_with_plus_and_extra_whitespace() {
    let m = Matrix::from_str(" +1 \t +3 \r\n -1.5  2e1   0.25 ").unwrap();

    assert_eq!(m.rows(), 1);
    assert_eq!(m.cols(), 3);
    assert_eq!(row_values(&m, 0), vec![-1.5, 20.0, 0.25]);
}

#[test]
fn parse_zero_dimensions() {
    let m = Matrix::from_str("0 0").unwrap();

    assert_eq!(m.rows(), 0);
    assert_eq!(m.cols(), 0);
    assert_eq!(m.to_string(), "");

    let n = Matrix::from_str("0 3").unwrap();
    assert_eq!(n.rows(), 0);
    assert_eq!(n.cols(), 3);
}

#[test]
fn format_negative_and_fractional_values() {
    let m = Matrix::new(1, 2, vec![bits(-1.5), bits(0.5)]);

    assert_eq!(m.to_string(), "[ -1.5 0.5 ]\n");
}

#[test]
fn mult_row_rounds_like_hardware() {
    let a = &mut Matrix::new(1, 2, vec![bits(0.1), bits(3.0)]);
    a.mult_row(0, bits(0.2));

    assert_eq!(row_values(a, 0), vec![0.1f32 * 0.2f32, 3.0f32 * 0.2f32]);
}

#[test]
fn add_row_rounds_like_hardware() {
    let a = &mut Matrix::new(2, 2, vec![bits(0.1), bits(1.0e30), bits(0.2), bits(1.0e30)]);
    a.add_row(0, 1);

    assert_eq!(row_values(a, 0), vec![0.1f32 + 0.2f32, 1.0e30f32 + 1.0e30f32]);
    assert_eq!(row_values(a, 1), vec![0.2, 1.0e30]);
}
