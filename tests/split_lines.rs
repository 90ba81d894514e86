use insert_split::{emit_statement, scan_tuples, split_line, PrefixMatcher};

fn chars(s: &str) -> Vec<char> {
    s.chars().collect()
}

fn run(line: &str) -> (Vec<String>, bool) {
    let matcher = PrefixMatcher::new().expect("prefix pattern compiles");
    let out = split_line(&matcher, line);
    (out.lines, out.anomaly)
}

#[test]
fn two_tuples_split_one_per_line() {
    let (lines, anomaly) = run("INSERT INTO `t` VALUES (1,'a'),(2,'b');");
    assert_eq!(lines, vec!["INSERT INTO `t` VALUES", "  (1,'a'),", "  (2,'b')", ";"]);
    assert!(!anomaly);
}

#[test]
fn escaped_quote_stays_in_tuple() {
    let (lines, anomaly) = run("INSERT INTO `t` VALUES (1,'it\\'s ok');");
    assert_eq!(lines, vec!["INSERT INTO `t` VALUES", "  (1,'it\\'s ok')", ";"]);
    assert!(!anomaly);
}

#[test]
fn escaped_quote_with_separators_inside() {
    let (lines, _) = run("INSERT INTO `t` VALUES (1,'x\\'),(y;'),(2,'z');");
    assert_eq!(lines, vec!["INSERT INTO `t` VALUES", "  (1,'x\\'),(y;'),", "  (2,'z')", ";"]);
}

#[test]
fn other_line_passes_unchanged() {
    let (lines, anomaly) = run("SELECT 1;");
    assert_eq!(lines, vec!["SELECT 1;"]);
    assert!(!anomaly);
}

#[test]
fn empty_line_passes_unchanged() {
    let (lines, anomaly) = run("");
    assert_eq!(lines, vec![""]);
    assert!(!anomaly);
}

#[test]
fn lowercase_insert_passes_unchanged() {
    let (lines, anomaly) = run("insert into `t` values (1);");
    assert_eq!(lines, vec!["insert into `t` values (1);"]);
    assert!(!anomaly);
}

#[test]
fn unquoted_table_is_anomaly() {
    let (lines, anomaly) = run("INSERT INTO 1bad VALUES (1);");
    assert_eq!(lines, vec!["INSERT INTO 1bad VALUES (1);"]);
    assert!(anomaly);
}

#[test]
fn uppercase_table_is_anomaly() {
    let (lines, anomaly) = run("INSERT INTO `Users` VALUES (1);");
    assert_eq!(lines, vec!["INSERT INTO `Users` VALUES (1);"]);
    assert!(anomaly);
}

#[test]
fn missing_space_before_list_is_anomaly() {
    let (lines, anomaly) = run("INSERT INTO `t` VALUES(1);");
    assert_eq!(lines, vec!["INSERT INTO `t` VALUES(1);"]);
    assert!(anomaly);
}

#[test]
fn doubled_quote_closes_value() {
    // The first quote of `''` closes the value and the second is skipped, so
    // the value's own closing quote opens a new one that runs to the end.
    let (lines, _) = run("INSERT INTO `t` VALUES ('a''b'),(2);");
    assert_eq!(lines, vec!["INSERT INTO `t` VALUES", ";"]);
    let (lines, _) = run("INSERT INTO `t` VALUES ('a'',)'),(2);");
    assert_eq!(lines, vec!["INSERT INTO `t` VALUES", "  ('a'',)'),", "  (2)", ";"]);
}

#[test]
fn unterminated_quote_gives_no_tuples() {
    let (lines, anomaly) = run("INSERT INTO `t` VALUES (1,'abc);");
    assert_eq!(lines, vec!["INSERT INTO `t` VALUES", ";"]);
    assert!(!anomaly);
}

#[test]
fn missing_semicolon_keeps_complete_tuples() {
    let (lines, _) = run("INSERT INTO `t_2` VALUES (1),(2)");
    assert_eq!(lines, vec!["INSERT INTO `t_2` VALUES", "  (1),", ";"]);
}

#[test]
fn whitespace_between_tuples_kept_in_span() {
    let (lines, _) = run("INSERT INTO `t` VALUES (1) , (2) ;");
    assert_eq!(lines, vec!["INSERT INTO `t` VALUES", "  (1) ,", "  (2) ", ";"]);
}

#[test]
fn unicode_values_kept_verbatim() {
    let (lines, _) = run("INSERT INTO `t` VALUES (1,'é;ü'),(2,'日本');");
    assert_eq!(lines, vec!["INSERT INTO `t` VALUES", "  (1,'é;ü'),", "  (2,'日本')", ";"]);
}

#[test]
fn scan_spans_of_remainder() {
    assert_eq!(scan_tuples(&chars("(1,'a'),(2,'b');")), vec![(0, 8), (8, 15)]);
    assert_eq!(scan_tuples(&chars(";(1);")), vec![]);
    assert_eq!(scan_tuples(&chars("")), vec![]);
    assert_eq!(scan_tuples(&chars("(1),;")), vec![(0, 4)]);
}

#[test]
fn k_tuples_give_k_plus_two_lines() {
    let (lines, _) = run("INSERT INTO `t` VALUES (1),(2),(3),(4);");
    assert_eq!(lines.len(), 6);
    assert_eq!(lines[5], ";");
}

#[test]
fn rejoined_tuples_give_same_tuples() {
    let (lines, _) = run("INSERT INTO `t` VALUES (1,'a,b'),  (2,'c\\'d');");
    let tuples: Vec<String> = lines[1..lines.len() - 1]
        .iter()
        .map(|l| l[2..].trim_end_matches(',').to_string())
        .collect();
    let rebuilt = format!("{} {};", lines[0], tuples.join(","));
    let (again, _) = run(&rebuilt);
    let tuples_again: Vec<String> = again[1..again.len() - 1]
        .iter()
        .map(|l| l[2..].trim_end_matches(',').to_string())
        .collect();
    assert_eq!(tuples_again, tuples);
}

#[test]
fn emitter_writes_prefix_tuples_and_semicolon() {
    let out = emit_statement(&chars("P"), &chars("(1),(2)"), &vec![(0, 4), (4, 7)]);
    assert_eq!(out, vec!["P", "  (1),", "  (2)", ";"]);
}
