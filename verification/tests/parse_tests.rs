use argvtype::parse::{ParseSession, ParsedSource};
use argvtype::span::{SourceFile, SourceId};

fn parse(src: &str) -> ParsedSource {
    let source = SourceFile::new(SourceId(0), "test.sh".into(), src.into());
    let mut session = ParseSession::new();
    session.parse(source).unwrap()
}

#[test]
fn parse_echo_hello() {
    let parsed = parse("echo hello");
    assert_eq!(parsed.root_node().kind(), "program");
    assert!(!parsed.has_errors());
}

#[test]
fn parse_function_def() {
    let parsed = parse("greet() { echo hi; }");
    assert!(!parsed.has_errors());
    let root = parsed.root_node();
    let func = root.child(0).unwrap();
    assert_eq!(func.kind(), "function_definition");
}

#[test]
fn parse_invalid_syntax() {
    let parsed = parse("if then fi ((( )))");
    assert!(parsed.has_errors());
}

// Node texts are the source between their byte offsets.
#[test]
fn node_text_matches_offsets() {
    let parsed = parse("échо x=1");
    let src = parsed.source_text().to_string();
    fn walk(n: &argvtype::syntax::SyntaxNode, src: &str) {
        assert_eq!(n.text, &src[n.start_byte..n.end_byte]);
        for c in &n.children {
            walk(c, src);
        }
    }
    walk(parsed.root_node(), &src);
    assert!(parsed.collect_errors().is_empty());
}
