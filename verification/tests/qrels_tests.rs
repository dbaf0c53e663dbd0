use mycal::qrels::parse_qrels_line;

#[test]
fn qrels_lines_parse() {
    assert_eq!(
        parse_qrels_line("301 0 doc-17 1"),
        Some(("doc-17".to_string(), 1))
    );
    assert_eq!(
        parse_qrels_line("  301\t0\tdoc-18\t-2  trailing"),
        Some(("doc-18".to_string(), -2))
    );
    assert_eq!(parse_qrels_line("# a comment line"), None);
    assert_eq!(parse_qrels_line("301 0 doc-17"), None);
    assert_eq!(parse_qrels_line(""), None);
    assert_eq!(parse_qrels_line("301 0 doc-17 high"), None);
    assert_eq!(parse_qrels_line("301 0 doc-17 99999999999999999999"), None);
}
