//! Parsing Bash source with its grammar, and the syntax errors of a tree.
use vstd::prelude::*;
use crate::span::{SourceFile, Span};
use crate::syntax::{SyntaxNode, bash_parser, grammar_tree_ok, is_grammar_tree, node_wf, parse_syntax_tree, tree_size};

verus! {

#[derive(Debug, Clone, Copy, PartialEq, Eq, Structural)]
pub enum ParseError {
    TreeSitterFailed,
    SyntaxError { span: Span },
}

pub struct ParseSession {
    parser: tree_sitter::Parser,
}

impl ParseSession {
    pub fn new() -> ParseSession {
        ParseSession { parser: bash_parser() }
    }

    /// Parses a source file. `Err(TreeSitterFailed)` exactly where the grammar
    /// gives no tree that can be read out; else the grammar's tree of the text.
    pub fn parse(&mut self, source: SourceFile) -> (r: Result<ParsedSource, ParseError>)
        ensures
            r is Ok <==> grammar_tree_ok(source.source@),
            match r {
                Ok(p) => node_wf(p.tree, source.source@) && tree_size(p.tree) <= u32::MAX && p.source.id == source.id
                    && p.source.name@ == source.name@ && p.source.source@ == source.source@
                    && is_grammar_tree(p.tree, source.source@),
                Err(e) => e == ParseError::TreeSitterFailed,
            },
    {
        match parse_syntax_tree(&mut self.parser, source.source.as_str()) {
            Some(tree) => Ok(ParsedSource { tree, source }),
            None => Err(ParseError::TreeSitterFailed),
        }
    }
}

impl Default for ParseSession {
    fn default() -> ParseSession {
        ParseSession::new()
    }
}

pub struct ParsedSource {
    pub tree: SyntaxNode,
    pub source: SourceFile,
}

pub open spec fn node_span_s(n: SyntaxNode) -> Span {
    Span { start: n.start_byte as u32, end: n.end_byte as u32 }
}

/// The syntax errors of a tree, in document order: the error and missing nodes.
pub open spec fn syntax_errors_s(n: SyntaxNode) -> Seq<ParseError>
    decreases n, 1nat,
{
    (if n.is_error || n.is_missing {
        seq![ParseError::SyntaxError { span: node_span_s(n) }]
    } else {
        Seq::empty()
    }) + kids_errors_s(n.children@)
}

pub open spec fn kids_errors_s(s: Seq<SyntaxNode>) -> Seq<ParseError>
    decreases s, 0nat,
{
    if s.len() == 0 {
        Seq::empty()
    } else {
        kids_errors_s(s.drop_last()) + syntax_errors_s(s.last())
    }
}

fn collect_error_nodes(n: &SyntaxNode, errors: &mut Vec<ParseError>)
    ensures
        final(errors)@ == old(errors)@ + syntax_errors_s(*n),
    decreases *n,
{
    let ghost start = errors@;
    if n.is_error || n.is_missing {
        errors.push(ParseError::SyntaxError { span: Span::new(n.start_byte as u32, n.end_byte as u32) });
    }
    let ghost mid = errors@;
    let mut i: usize = 0;
    assert(n.children@.take(0) =~= Seq::<SyntaxNode>::empty());
    assert(mid =~= mid + kids_errors_s(n.children@.take(0)));
    while i < n.children.len()
        invariant
            i <= n.children@.len(),
            errors@ == mid + kids_errors_s(n.children@.take(i as int)),
        decreases n.children.len() - i,
    {
        collect_error_nodes(&n.children[i], errors);
        proof {
            assert(n.children@.take(i + 1).drop_last() =~= n.children@.take(i as int));
            assert(errors@ =~= mid + kids_errors_s(n.children@.take(i + 1)));
        }
        i = i + 1;
    }
    proof {
        assert(n.children@.take(i as int) =~= n.children@);
        assert(errors@ =~= start + syntax_errors_s(*n));
    }
}

impl ParsedSource {
    pub fn root_node(&self) -> (r: &SyntaxNode)
        ensures
            *r == self.tree,
    {
        &self.tree
    }

    pub fn has_errors(&self) -> (b: bool)
        ensures
            b == self.tree.has_error,
    {
        self.tree.has_error
    }

    pub fn source_text(&self) -> (s: &str)
        ensures
            s@ == self.source.source@,
    {
        self.source.source.as_str()
    }

    /// The error and missing nodes of the tree, as `syntax_errors_s` states.
    pub fn collect_errors(&self) -> (r: Vec<ParseError>)
        ensures
            r@ == syntax_errors_s(self.tree),
    {
        let mut errors: Vec<ParseError> = Vec::new();
        collect_error_nodes(&self.tree, &mut errors);
        assert(errors@ =~= syntax_errors_s(self.tree));
        errors
    }
}

} // verus!
