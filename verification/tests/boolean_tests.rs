use std::collections::HashSet;
use zehnyasearch::boolean::{evaluate, extract_terms, format_expr, parse, BoolExpr};
use zehnyasearch::index::InvertedIndex;

#[test]
fn test_parse_simple_and() {
    let expr = parse("tcp AND socket").unwrap();
    assert!(matches!(expr, BoolExpr::And(_, _)));
}

#[test]
fn test_parse_implicit_and() {
    let expr = parse("tcp socket").unwrap();
    // Two adjacent words = implicit AND
    assert!(matches!(expr, BoolExpr::And(_, _)));
}

#[test]
fn test_parse_not() {
    let expr = parse("tcp NOT udp").unwrap();
    if let BoolExpr::And(_, right) = expr {
        assert!(matches!(*right, BoolExpr::Not(_)));
    }
}

#[test]
fn test_parse_parens() {
    let expr = parse("(tcp OR udp) AND socket").unwrap();
    assert!(matches!(expr, BoolExpr::And(_, _)));
}

#[test]
fn parse_formats() {
    assert_eq!(format_expr(&parse("tcp AND socket").unwrap()), "(tcp AND socket)");
    assert_eq!(format_expr(&parse("tcp socket").unwrap()), "(tcp AND socket)");
    assert_eq!(format_expr(&parse("tcp NOT udp").unwrap()), "(tcp AND NOT udp)");
    assert_eq!(format_expr(&parse("(tcp OR udp) AND socket").unwrap()), "((tcp OR udp) AND socket)");
    assert_eq!(format_expr(&parse("a OR b c").unwrap()), "(a OR (b AND c))");
    assert_eq!(format_expr(&parse("tcp -udp").unwrap()), "(tcp AND NOT udp)");
    assert_eq!(format_expr(&parse("Running and Cats").unwrap()), "(run AND cat)");
    assert_eq!(format_expr(&parse("(tcp OR udp").unwrap()), "(tcp OR udp)");
}

#[test]
fn parse_rejects() {
    assert!(parse("").is_none());
    assert!(parse("   ").is_none());
    assert!(parse("AND").is_none());
    assert!(parse("tcp AND").is_none());
    assert!(parse("NOT").is_none());
    assert!(parse(")").is_none());
}

#[test]
fn parse_refuses_unknown_characters() {
    assert!(parse("tcp!").is_none());
    assert!(parse("a + b").is_none());
    assert!(parse("tcp AND socket").is_some());
}

#[test]
fn extract_terms_skips_negated() {
    let e = parse("tcp AND (socket OR stream) NOT udp").unwrap();
    assert_eq!(extract_terms(&e), vec!["tcp".to_string(), "socket".to_string(), "stream".to_string()]);
}

fn sample_index() -> InvertedIndex {
    let mut ix = InvertedIndex::new();
    ix.add_document(0, "tcp socket programming");
    ix.add_document(1, "udp socket datagrams");
    ix.add_document(2, "tcp congestion control");
    ix.add_document(3, "leader election");
    ix
}

fn set(xs: &[u32]) -> HashSet<u32> {
    xs.iter().copied().collect()
}

#[test]
fn evaluate_set_operations() {
    let ix = sample_index();
    assert_eq!(evaluate(&parse("tcp").unwrap(), &ix), set(&[0, 2]));
    assert_eq!(evaluate(&parse("tcp AND socket").unwrap(), &ix), set(&[0]));
    assert_eq!(evaluate(&parse("tcp OR udp").unwrap(), &ix), set(&[0, 1, 2]));
    assert_eq!(evaluate(&parse("socket NOT tcp").unwrap(), &ix), set(&[1]));
    assert_eq!(evaluate(&parse("NOT socket").unwrap(), &ix), set(&[2, 3]));
    assert_eq!(evaluate(&parse("missing").unwrap(), &ix), set(&[]));
}
