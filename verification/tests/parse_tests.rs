use topic_index::parse::parse_edges_text;

fn pairs(text: &str) -> Vec<(String, String)> {
    parse_edges_text(text)
}

#[test]
fn empty_text_has_no_edges() {
    assert_eq!(pairs(""), vec![]);
}

#[test]
fn header_alone_has_no_edges() {
    assert_eq!(pairs("src,dst"), vec![]);
    assert_eq!(pairs("src,dst\n"), vec![]);
}

#[test]
fn first_line_is_discarded_even_when_it_looks_like_an_edge() {
    assert_eq!(
        pairs("A,B\nC,D\n"),
        vec![("C".to_string(), "D".to_string())]
    );
}

#[test]
fn lines_without_a_comma_are_skipped() {
    assert_eq!(
        pairs("header\nno comma here\nA,B\n\nB,C\n"),
        vec![
            ("A".to_string(), "B".to_string()),
            ("B".to_string(), "C".to_string())
        ]
    );
}

#[test]
fn only_first_two_fields_count() {
    assert_eq!(
        pairs("h\nA,B,C,D\n"),
        vec![("A".to_string(), "B".to_string())]
    );
}

#[test]
fn single_trailing_comma_gives_empty_second_field() {
    assert_eq!(pairs("h\nA,\n"), vec![("A".to_string(), "".to_string())]);
}

#[test]
fn carriage_returns_before_line_feeds_are_stripped() {
    assert_eq!(
        pairs("h\r\nA,B\r\nB,C"),
        vec![
            ("A".to_string(), "B".to_string()),
            ("B".to_string(), "C".to_string())
        ]
    );
}

#[test]
fn final_line_needs_no_terminator() {
    assert_eq!(pairs("h\nA,B"), vec![("A".to_string(), "B".to_string())]);
}
