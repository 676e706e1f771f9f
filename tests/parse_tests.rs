use winnie_pooh::graph::Graph;
use winnie_pooh::parser::{ParseErrorKind, Parser};

fn edges_of(text: &str) -> Vec<(u32, u32, i8)> {
    let g = Graph::from_input(text.to_string()).unwrap();
    (0..g.len()).map(|i| {
        let e = g.edge(i);
        (e.u, e.v, e.w)
    }).collect()
}

fn kind_of(text: &str) -> ParseErrorKind {
    Graph::from_input(text.to_string()).unwrap_err().kind
}

#[test]
fn parses_in_input_order() {
    assert_eq!(edges_of("3 1 2 5 2 3 -1 1 3 10"), vec![(1, 2, 5), (2, 3, -1), (1, 3, 10)]);
    assert_eq!(edges_of("\n 3\n\n1\t2  5 \n"), vec![(1, 2, 5)]);
    assert_eq!(edges_of("4999"), vec![]);
    assert_eq!(edges_of("2 1 2 -99 2 1 99"), vec![(1, 2, -99), (2, 1, 99)]);
}

#[test]
fn rejects_bad_vertex_count() {
    assert!(matches!(kind_of(""), ParseErrorKind::VertexCount));
    assert!(matches!(kind_of("0"), ParseErrorKind::VertexCount));
    assert!(matches!(kind_of("5000 1 2 3"), ParseErrorKind::VertexCount));
    assert!(matches!(kind_of("x 1 2 3"), ParseErrorKind::VertexCount));
}

#[test]
fn rejects_bad_vertex() {
    assert!(matches!(kind_of("3 0 1 5"), ParseErrorKind::Vertex));
    assert!(matches!(kind_of("3 1 4 5"), ParseErrorKind::Vertex));
    assert!(matches!(kind_of("3 1"), ParseErrorKind::Vertex));
    assert!(matches!(kind_of("3 -1 2 5"), ParseErrorKind::Vertex));
}

#[test]
fn rejects_bad_weight() {
    assert!(matches!(kind_of("3 1 2 100"), ParseErrorKind::Weight));
    assert!(matches!(kind_of("3 1 2 -100"), ParseErrorKind::Weight));
    assert!(matches!(kind_of("3 1 2"), ParseErrorKind::Weight));
    assert!(matches!(kind_of("3 1 2 5a"), ParseErrorKind::Weight));
}

#[test]
fn error_position() {
    let e = Graph::from_input("3 1 2 5 2 9 1".to_string()).unwrap_err();
    assert_eq!(e.pos, 10);
}

#[test]
fn parser_primitives() {
    let mut p = Parser::new("ab, cd".to_string());
    assert_eq!(p.peek(), 'a');
    assert_eq!(p.next(), 'a');
    assert_eq!(p.next_expect('b').unwrap(), 'b');
    assert_eq!(p.next_expect_options(";,").unwrap(), ',');
    p.consume_whitespace();
    assert!(p.starts_with("cd"));
    assert!(!p.starts_with("cde"));
    assert!(p.next_expect_str("cd").is_ok());
    assert!(p.eof());
    assert_eq!(p.offset(), 6);
}

#[test]
fn parser_errors() {
    let mut p = Parser::new("xyz".to_string());
    let e = p.next_expect('a').unwrap_err();
    assert_eq!(e.pos, 0);
    assert!(matches!(e.kind, ParseErrorKind::Expected { expected: 'a', found: 'x' }));
    let e = p.next_expect_options("ab").unwrap_err();
    assert_eq!(e.pos, 1);
    assert!(matches!(e.kind, ParseErrorKind::ExpectedOneOf { found: 'y', .. }));
    let e = p.next_expect_str("q").unwrap_err();
    assert_eq!(e.pos, 2);
    assert!(matches!(e.kind, ParseErrorKind::ExpectedText { .. }));
    assert_eq!(p.offset(), 2);
    let e = p.parsing_error("bad".to_string());
    assert_eq!(e.pos, 2);
    assert!(matches!(e.kind, ParseErrorKind::Other { .. }));
}

#[test]
fn parser_names_and_while() {
    let mut p = Parser::new("Abc9_rest".to_string());
    assert_eq!(p.parse_name(), "Abc9");
    assert_eq!(p.peek(), '_');
    let mut q = Parser::new("ééa".to_string());
    assert_eq!(q.next_while(|c| c == 'é'), "éé");
    assert_eq!(q.offset(), 2);
}

#[test]
fn error_position_counts_bytes() {
    let mut p = Parser::new("éx".to_string());
    p.next();
    let e = p.next_expect('a').unwrap_err();
    assert_eq!(e.pos, 2);
    let e = Graph::from_input("3\u{3000}1 2 é".to_string()).unwrap_err();
    assert_eq!(e.pos, 8);
    assert!(matches!(e.kind, ParseErrorKind::Weight));
}
