use yamlito::ParseError;

#[test]
fn line_col_basic() {
    let src = "ab\ncd\nef";
    assert_eq!(ParseError::new(0, "x").line_col(src), (1, 0));
    assert_eq!(ParseError::new(2, "x").line_col(src), (1, 2));
    assert_eq!(ParseError::new(3, "x").line_col(src), (2, 0));
    assert_eq!(ParseError::new(5, "x").line_col(src), (2, 2));
    assert_eq!(ParseError::new(6, "x").line_col(src), (3, 0));
}

#[test]
fn line_col_past_end_clamps() {
    let src = "abc";
    assert_eq!(ParseError::new(999, "x").line_col(src), (1, 3));
}
