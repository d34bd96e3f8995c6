use comal::templates::utils::parse_u32_lines;

#[test]
fn array_lines_skip_what_is_not_a_number() {
    let lines: Vec<String> = ["0", "2", "", "x7", "+5", "-1", "4294967295", "4294967296", "3"]
        .iter()
        .map(|s| s.to_string())
        .collect();
    assert_eq!(parse_u32_lines(&lines), vec![0u32, 2, 5, 4294967295, 3]);
}

#[test]
fn arrays_written_by_line_read_back() {
    let values = vec![0u32, 7, 10, 4294967295, 123];
    let lines = comal::templates::utils::format_u32_lines(&values);
    assert_eq!(lines, vec!["0", "7", "10", "4294967295", "123"]);
    assert_eq!(parse_u32_lines(&lines), values);
}
