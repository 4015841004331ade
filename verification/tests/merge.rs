use basemerge::rows::{parse_line, parse_lines, render_output, render_rows, sum_group};

fn lines(ls: &[&str]) -> Vec<Vec<u8>> {
    ls.iter().map(|l| l.as_bytes().to_vec()).collect()
}

fn rendered(files: &[&[&str]]) -> Vec<String> {
    let group: Vec<Vec<Vec<u8>>> = files.iter().map(|f| lines(f)).collect();
    let rows = sum_group(&group);
    let out = render_rows(&rows);
    out.into_iter().map(|l| String::from_utf8(l).unwrap()).collect()
}

#[test]
fn two_files_sum_positionally() {
    let out = rendered(&[&["1, t0, 1.0", "2, t1, 2.0"], &["1, t0, 10.0"]]);
    assert_eq!(out, vec!["1, t0, 11".to_string(), "2, t1, 2".to_string()]);
}

#[test]
fn output_file_has_one_line_per_row() {
    let group = vec![
        lines(&["1, t0, 1.0", "2, t1, 2.0"]),
        lines(&["1, t0, 10.0"]),
    ];
    let content = render_output(&sum_group(&group));
    assert_eq!(String::from_utf8(content).unwrap(), "1, t0, 11\n2, t1, 2\n");
}

#[test]
fn first_file_fixes_shape() {
    let out = rendered(&[
        &["a, t0, 1.5", "b, t1, 2.25"],
        &["x, u0, 0.5", "y, u1, 0.25", "z, u2, 100.0"],
        &["p, v0, 1.0"],
    ]);
    assert_eq!(out.len(), 2);
    assert_eq!(out[0], "a, t0, 3");
    assert_eq!(out[1], "b, t1, 2.5");
}

#[test]
fn first_file_with_rows_wins() {
    let out = rendered(&[&[], &["k, s, 4.0"], &["k, s, 5.0"]]);
    assert_eq!(out, vec!["k, s, 9".to_string()]);
}

#[test]
fn empty_group_yields_no_rows() {
    let out = rendered(&[&[], &[]]);
    assert!(out.is_empty());
    let none: Vec<Vec<Vec<u8>>> = Vec::new();
    assert!(sum_group(&none).is_empty());
}

#[test]
fn malformed_lines_do_not_shift_positions() {
    let out = rendered(&[
        &["1, t0, 1.0", "no commas here", "2, t1, x", "3, t2, 3.0"],
        &["0, u, 1.0", "0, u, 2.0"],
    ]);
    assert_eq!(out, vec!["1, t0, 2".to_string(), "3, t2, 5".to_string()]);
}

#[test]
fn wrong_field_count_is_skipped() {
    let rows = parse_lines(&lines(&["a, b", "a, b, c, d", "a, b, 1.0"]));
    assert_eq!(rows.len(), 1);
    assert_eq!(rows[0].index, b"a".to_vec());
}

#[test]
fn non_numeric_value_is_skipped() {
    assert!(parse_line(&b"a, t, not-a-number".to_vec()).is_none());
    assert!(parse_line(&b"a, t, ".to_vec()).is_none());
}

#[test]
fn fields_are_trimmed() {
    let row = parse_line(&b"  1 ,\tt0 ,  1.5 ".to_vec()).unwrap();
    assert_eq!(row.index, b"1".to_vec());
    assert_eq!(row.timestamp, b"t0".to_vec());
    let out = rendered(&[&["  1 ,\tt0 ,  1.5 "]]);
    assert_eq!(out, vec!["1, t0, 1.5".to_string()]);
}

#[test]
fn later_rows_beyond_first_file_are_dropped() {
    let out = rendered(&[&["a, t, 1.0"], &["a, t, 1.0", "b, u, 50.0"]]);
    assert_eq!(out, vec!["a, t, 2".to_string()]);
}

#[test]
fn shorter_later_file_leaves_tail_untouched() {
    let out = rendered(&[&["a, t, 1.0", "b, u, 2.0"], &["a, t, 5.0"]]);
    assert_eq!(out, vec!["a, t, 6".to_string(), "b, u, 2".to_string()]);
}

#[test]
fn negative_and_fractional_values_sum() {
    let out = rendered(&[&["i, t, -2.5"], &["i, t, 1.25"]]);
    assert_eq!(out, vec!["i, t, -1.25".to_string()]);
}
