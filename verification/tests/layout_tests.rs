use math_lib::{complex_text, Matrix};

fn texts(rows: usize, cols: usize, cells: &[&str]) -> Matrix<String> {
    Matrix::from_entries(rows, cols, cells.iter().map(|s| s.to_string()).collect()).unwrap()
}

#[test]
fn plain_layout_has_one_line_per_row() {
    let m = texts(2, 2, &["1", "2", "3", "4"]);
    assert_eq!(m.plain_layout(), "|1 2|\n|3 4|\n");
}

#[test]
fn latex_layout_is_a_bmatrix() {
    let m = texts(2, 2, &["1", "2", "3", "4"]);
    assert_eq!(m.latex_layout(), "\\begin{bmatrix}1 & 2 \\\\ 3 & 4\\end{bmatrix}");
}

#[test]
fn bracket_layout_separates_rows_by_blank_lines() {
    let m = texts(2, 3, &["1", "2", "3", "4", "5", "6"]);
    assert_eq!(m.bracket_layout(), "[1  2  3]\n\n[4  5  6]\n");
}

#[test]
fn layouts_of_empty_matrices() {
    let m = texts(0, 0, &[]);
    assert_eq!(m.plain_layout(), "");
    assert_eq!(m.latex_layout(), "\\begin{bmatrix}\\end{bmatrix}");
    assert_eq!(m.bracket_layout(), "");
    let rows_only = texts(2, 0, &[]);
    assert_eq!(rows_only.plain_layout(), "||\n||\n");
    assert_eq!(rows_only.bracket_layout(), "[]\n\n[]\n");
}

#[test]
fn layouts_of_formatted_floats() {
    let mut m = Matrix::new(1, 2, 0.0f64);
    m.set(vec![vec![1.5, -2.0]]).unwrap();
    let cells = m.map(|x| format!("{}", x));
    assert_eq!(cells.plain_layout(), "|1.5 -2|\n");
}

#[test]
fn complex_text_places_the_sign() {
    assert_eq!(complex_text("1", "2", true), "1 + 2i");
    assert_eq!(complex_text("1", "-2", false), "1 -2i");
    assert_eq!(complex_text("0", "0", true), "0 + 0i");
}
