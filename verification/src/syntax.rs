//! The concrete syntax tree that the Bash grammar gives, held as plain values.
//!
//! The tree is read out of `tree_sitter` once, node by node; everything after
//! that works on `SyntaxNode`.
use vstd::prelude::*;
use crate::text::{copy_string, owned, utf8_len_seq};
use vstd::utf8::{is_char_boundary, encode_utf8, decode_utf8};
use vstd::string::StringSliceAdditionalSpecFns;

verus! {

#[verifier::external_type_specification]
#[verifier::external_body]
pub struct ExParser(tree_sitter::Parser);

#[verifier::external_type_specification]
#[verifier::external_body]
pub struct ExTree(tree_sitter::Tree);

#[verifier::external_type_specification]
#[verifier::external_body]
pub struct ExNode<'tree>(tree_sitter::Node<'tree>);

/// A node of the concrete syntax tree.
#[derive(Debug)]
pub struct SyntaxNode {
    /// The grammar's name for the node (`command`, `word`, `"{"`, ...).
    pub kind: String,
    pub start_byte: usize,
    pub end_byte: usize,
    /// The source text that the node spans.
    pub text: String,
    pub is_error: bool,
    pub is_missing: bool,
    /// Whether the node is, or contains, a syntax error.
    pub has_error: bool,
    /// The field by which the parent holds this node, if any.
    pub field_name: Option<String>,
    pub children: Vec<SyntaxNode>,
}

impl SyntaxNode {
    /// The grammar's name for the node.
    pub fn kind(&self) -> (k: &str)
        ensures
            k@ == self.kind@,
    {
        self.kind.as_str()
    }

    /// The `i`-th child, if there is one.
    pub fn child(&self, i: usize) -> (c: Option<&SyntaxNode>)
        ensures
            match c {
                Some(n) => i < self.children@.len() && *n == self.children@[i as int],
                None => i >= self.children@.len(),
            },
    {
        if i < self.children.len() {
            Some(&self.children[i])
        } else {
            None
        }
    }
}

/// The bytes `b[start..end]` of a text whose bytes are `b`, as characters.
pub open spec fn text_between(s: Seq<char>, start: int, end: int) -> Seq<char> {
    decode_utf8(encode_utf8(s).subrange(start, end))
}

/// A node (and all below it) lies within a text of `len` bytes, and its
/// text is that of its byte range.
pub open spec fn node_wf(n: SyntaxNode, src: Seq<char>) -> bool
    decreases n, 1nat,
{
    &&& n.start_byte <= n.end_byte <= encode_utf8(src).len()
    &&& n.text@ == text_between(src, n.start_byte as int, n.end_byte as int)
    &&& kids_wf(n.children@, src)
}

pub open spec fn kids_wf(s: Seq<SyntaxNode>, src: Seq<char>) -> bool
    decreases s, 0nat,
{
    if s.len() == 0 {
        true
    } else {
        kids_wf(s.drop_last(), src) && node_wf(s.last(), src)
    }
}

pub proof fn lemma_kids_wf(s: Seq<SyntaxNode>, src: Seq<char>, i: int)
    requires
        kids_wf(s, src),
        0 <= i < s.len(),
    ensures
        node_wf(s[i], src),
    decreases s.len(),
{
    if i < s.len() - 1 {
        lemma_kids_wf(s.drop_last(), src, i);
    }
}

/// The number of nodes in a tree.
pub open spec fn tree_size(n: SyntaxNode) -> nat
    decreases n, 1nat,
{
    1 + kids_size(n.children@)
}

pub open spec fn kids_size(s: Seq<SyntaxNode>) -> nat
    decreases s, 0nat,
{
    if s.len() == 0 {
        0
    } else {
        kids_size(s.drop_last()) + tree_size(s.last())
    }
}

pub proof fn lemma_kids_size_take(s: Seq<SyntaxNode>, i: int)
    requires
        0 <= i < s.len(),
    ensures
        kids_size(s.take(i + 1)) == kids_size(s.take(i)) + tree_size(s[i]),
        kids_size(s.take(i)) + tree_size(s[i]) <= kids_size(s),
    decreases s.len() - i,
{
    assert(s.take(i + 1).drop_last() =~= s.take(i));
    lemma_kids_size_prefix(s, i + 1);
}

pub proof fn lemma_kids_size_prefix(s: Seq<SyntaxNode>, k: int)
    requires
        0 <= k <= s.len(),
    ensures
        kids_size(s.take(k)) <= kids_size(s),
    decreases s.len() - k,
{
    if k < s.len() {
        assert(s.take(k + 1).drop_last() =~= s.take(k));
        lemma_kids_size_prefix(s, k + 1);
    } else {
        assert(s.take(k) =~= s);
    }
}

// ---------------------------------------------------------------------------
// The grammar's tree
// ---------------------------------------------------------------------------

/// A node of the tree that the Bash grammar gives, as plain values: what
/// tree-sitter reports of the node, and its children in order.
#[derive(Debug)]
pub struct GrammarNode {
    pub kind: String,
    pub start_byte: usize,
    pub end_byte: usize,
    pub is_error: bool,
    pub is_missing: bool,
    pub has_error: bool,
    /// The field by which the parent holds this node, if any.
    pub field_name: Option<String>,
    pub children: Vec<GrammarNode>,
}

/// The tree that tree-sitter's Bash grammar gives for the whole of a text,
/// parsed from scratch by a parser in its initial state; `None` where it
/// gives none.
pub uninterp spec fn bash_tree(src: Seq<char>) -> Option<GrammarNode>;

/// `tree_sitter::Parser::new`: a parser with no language set.
#[verifier::external_body]
fn parser_new() -> tree_sitter::Parser {
    tree_sitter::Parser::new()
}

/// A parse of the whole text with the Bash grammar from a parser put back
/// to its initial state: `tree_sitter::Parser::reset` (no parse left
/// part-way to resume), `tree_sitter::Parser::set_included_ranges` with no
/// ranges (the whole text), `tree_sitter::Parser::set_language` with
/// `tree_sitter_bash`'s grammar (`None` where the grammar cannot be loaded),
/// then `tree_sitter::Parser::parse` with no earlier tree, its nodes
/// converted one for one. None of the parser's earlier state remains, so
/// the result is the grammar's tree of the text.
#[verifier::external_body]
fn parse_bash(parser: &mut tree_sitter::Parser, src: &str) -> (r: Option<GrammarNode>)
    ensures
        r == bash_tree(src@),
{
    parser.reset();
    let _ = parser.set_included_ranges(&[]);
    match parser.set_language(&tree_sitter_bash::LANGUAGE.into()) {
        Ok(()) => match parser.parse(src, None) {
            Some(tree) => Some(grammar_node(tree.root_node(), None)),
            None => None,
        },
        Err(_) => None,
    }
}

/// A `tree_sitter::Node` and the nodes below it as plain values
/// (`kind`, `start_byte`, `end_byte`, `is_error`, `is_missing`, `has_error`,
/// `children`, `field_name_for_child`); `parse_bash` states what the whole
/// conversion gives.
#[verifier::external_body]
fn grammar_node(node: tree_sitter::Node, field: Option<&str>) -> GrammarNode {
    let mut cursor = node.walk();
    let children = node.children(&mut cursor).enumerate().map(|(i, c)| grammar_node(c, node.field_name_for_child(i as u32)));
    GrammarNode {
        kind: node.kind().to_string(),
        start_byte: node.start_byte(),
        end_byte: node.end_byte(),
        is_error: node.is_error(),
        is_missing: node.is_missing(),
        has_error: node.has_error(),
        field_name: field.map(|f| f.to_string()),
        children: children.collect(),
    }
}

pub open spec fn opt_string_view(o: Option<String>) -> Option<Seq<char>> {
    match o {
        Some(s) => Some(s@),
        None => None,
    }
}

/// A grammar node, and all below it, lies within the text of `src`, on
/// character boundaries.
pub open spec fn grammar_ok(g: GrammarNode, src: Seq<char>) -> bool
    decreases g, 1nat,
{
    &&& g.start_byte <= g.end_byte <= encode_utf8(src).len()
    &&& is_char_boundary(encode_utf8(src), g.start_byte as int)
    &&& is_char_boundary(encode_utf8(src), g.end_byte as int)
    &&& grammar_kids_ok(g.children@, src)
}

pub open spec fn grammar_kids_ok(s: Seq<GrammarNode>, src: Seq<char>) -> bool
    decreases s, 0nat,
{
    if s.len() == 0 {
        true
    } else {
        grammar_kids_ok(s.drop_last(), src) && grammar_ok(s.last(), src)
    }
}

pub proof fn lemma_grammar_kids_ok(s: Seq<GrammarNode>, src: Seq<char>, i: int)
    requires
        0 <= i < s.len(),
    ensures
        grammar_kids_ok(s, src) ==> grammar_ok(s[i], src),
        grammar_kids_ok(s.take(i + 1), src) == (grammar_kids_ok(s.take(i), src) && grammar_ok(s[i], src)),
    decreases s.len(),
{
    assert(s.take(i + 1).drop_last() =~= s.take(i));
    if i < s.len() - 1 {
        lemma_grammar_kids_ok(s.drop_last(), src, i);
    }
}

/// The number of nodes of a grammar tree.
pub open spec fn grammar_size(g: GrammarNode) -> nat
    decreases g, 1nat,
{
    1 + grammar_kids_size(g.children@)
}

pub open spec fn grammar_kids_size(s: Seq<GrammarNode>) -> nat
    decreases s, 0nat,
{
    if s.len() == 0 {
        0
    } else {
        grammar_kids_size(s.drop_last()) + grammar_size(s.last())
    }
}

/// `n` is the grammar node `g` read out of the text `src`: the same kind,
/// range, flags and field, the text of its range, and its children read out
/// in order.
pub open spec fn reads_as(n: SyntaxNode, g: GrammarNode, src: Seq<char>) -> bool
    decreases n, 1nat,
{
    &&& n.kind@ == g.kind@
    &&& n.start_byte == g.start_byte
    &&& n.end_byte == g.end_byte
    &&& n.text@ == text_between(src, g.start_byte as int, g.end_byte as int)
    &&& n.is_error == g.is_error
    &&& n.is_missing == g.is_missing
    &&& n.has_error == g.has_error
    &&& opt_string_view(n.field_name) == opt_string_view(g.field_name)
    &&& reads_as_kids(n.children@, g.children@, src)
}

pub open spec fn reads_as_kids(ns: Seq<SyntaxNode>, gs: Seq<GrammarNode>, src: Seq<char>) -> bool
    decreases ns, 0nat,
{
    &&& ns.len() == gs.len()
    &&& (ns.len() == 0 || (reads_as_kids(ns.drop_last(), gs.drop_last(), src) && reads_as(ns.last(), gs.last(), src)))
}

/// A tree read out of a grammar tree has as many nodes.
pub proof fn lemma_reads_as_size(n: SyntaxNode, g: GrammarNode, src: Seq<char>)
    requires
        reads_as(n, g, src),
    ensures
        tree_size(n) == grammar_size(g),
    decreases n, 1nat,
{
    lemma_reads_as_kids_size(n.children@, g.children@, src);
}

pub proof fn lemma_reads_as_kids_size(ns: Seq<SyntaxNode>, gs: Seq<GrammarNode>, src: Seq<char>)
    requires
        reads_as_kids(ns, gs, src),
    ensures
        kids_size(ns) == grammar_kids_size(gs),
    decreases ns, 0nat,
{
    if ns.len() > 0 {
        lemma_reads_as_kids_size(ns.drop_last(), gs.drop_last(), src);
        lemma_reads_as_size(ns.last(), gs.last(), src);
    }
}

/// The characters of `src` between two byte offsets that are character boundaries.
pub fn text_slice(src: &str, start: usize, end: usize) -> (t: String)
    requires
        start <= end <= src.spec_bytes().len(),
        is_char_boundary(src.spec_bytes(), start as int),
        is_char_boundary(src.spec_bytes(), end as int),
    ensures
        t@ == text_between(src@, start as int, end as int),
{
    let (_, tail) = src.split_at(start);
    proof {
        let b = src.spec_bytes();
        vstd::utf8::encode_utf8_valid_utf8(src@);
        vstd::utf8::valid_utf8_split(b, start as int);
        let tb = b.subrange(start as int, b.len() as int);
        assert(tail.spec_bytes() == tb);
        if end - start < tb.len() {
            vstd::utf8::is_char_boundary_iff_not_is_continuation_byte(b, end as int);
            vstd::utf8::is_char_boundary_iff_not_is_continuation_byte(tb, end - start);
            assert(tb[end - start] == b[end as int]);
        } else {
            vstd::utf8::is_char_boundary_start_end_of_seq(tb);
        }
    }
    let (mid, _) = tail.split_at(end - start);
    proof {
        assert(mid.spec_bytes() =~= src.spec_bytes().subrange(start as int, end as int));
        vstd::utf8::encode_utf8_decode_utf8(mid@);
    }
    owned(mid)
}

/// Reads a grammar node and all below it out of the text `src`: `None`
/// where a range leaves the text or splits a character.
pub fn read_node(g: &GrammarNode, src: &str) -> (r: Option<SyntaxNode>)
    ensures
        r is Some <==> grammar_ok(*g, src@),
        r matches Some(n) ==> node_wf(n, src@) && reads_as(n, *g, src@),
    decreases *g,
{
    let start = g.start_byte;
    let end = g.end_byte;
    let len = src.as_bytes().len();
    if !(start <= end && end <= len && src.is_char_boundary(start) && src.is_char_boundary(end)) {
        return None;
    }
    let text = text_slice(src, start, end);
    let mut children: Vec<SyntaxNode> = Vec::new();
    let mut i: usize = 0;
    assert(g.children@.take(0) =~= Seq::<GrammarNode>::empty());
    while i < g.children.len()
        invariant
            i <= g.children@.len(),
            children@.len() == i,
            kids_wf(children@, src@),
            reads_as_kids(children@, g.children@.take(i as int), src@),
            grammar_kids_ok(g.children@.take(i as int), src@),
        decreases g.children.len() - i,
    {
        proof {
            lemma_grammar_kids_ok(g.children@, src@, i as int);
        }
        let c = match read_node(&g.children[i], src) {
            Some(c) => c,
            None => {
                return None;
            },
        };
        let ghost before = children@;
        children.push(c);
        assert(children@.drop_last() =~= before);
        assert(g.children@.take(i + 1).drop_last() =~= g.children@.take(i as int));
        i = i + 1;
    }
    assert(g.children@.take(i as int) =~= g.children@);
    let field_name = match &g.field_name {
        Some(f) => Some(copy_string(f)),
        None => None,
    };
    let n = SyntaxNode {
        kind: copy_string(&g.kind),
        start_byte: start,
        end_byte: end,
        text,
        is_error: g.is_error,
        is_missing: g.is_missing,
        has_error: g.has_error,
        field_name,
        children,
    };
    Some(n)
}

/// What is left of `budget` once each node of `n` has taken one; `None`
/// where `n` has more nodes than that.
fn size_within(n: &SyntaxNode, budget: u64) -> (r: Option<u64>)
    ensures
        match r {
            Some(k) => tree_size(*n) <= budget && k == budget - tree_size(*n),
            None => tree_size(*n) > budget,
        },
    decreases *n,
{
    if budget == 0 {
        return None;
    }
    let mut left: u64 = budget - 1;
    let mut i: usize = 0;
    assert(n.children@.take(0) =~= Seq::<SyntaxNode>::empty());
    while i < n.children.len()
        invariant
            i <= n.children@.len(),
            budget >= 1,
            left + kids_size(n.children@.take(i as int)) == budget - 1,
        decreases n.children.len() - i,
    {
        proof {
            lemma_kids_size_take(n.children@, i as int);
        }
        match size_within(&n.children[i], left) {
            Some(k) => {
                left = k;
            },
            None => {
                proof {
                    lemma_kids_size_prefix(n.children@, i + 1);
                }
                return None;
            },
        }
        i = i + 1;
    }
    assert(n.children@.take(i as int) =~= n.children@);
    Some(left)
}

/// A parser for the Bash grammar; `parse_bash` sets the grammar on it at
/// each parse.
pub(crate) fn bash_parser() -> tree_sitter::Parser {
    parser_new()
}

/// The grammar's tree of `src` reads out of the text, within
/// with no more nodes than `u32` ids can number.
pub open spec fn grammar_tree_ok(src: Seq<char>) -> bool {
    match bash_tree(src) {
        Some(g) => grammar_ok(g, src) && grammar_size(g) <= u32::MAX,
        None => false,
    }
}

/// `n` is the grammar's tree of `src`, read out of the text.
pub open spec fn is_grammar_tree(n: SyntaxNode, src: Seq<char>) -> bool {
    match bash_tree(src) {
        Some(g) => reads_as(n, g, src),
        None => false,
    }
}

/// Parses `src` with the Bash grammar and reads the tree out: `None` exactly
/// where the grammar gives no tree, a range of the tree leaves the text or
/// splits a character, or it has more nodes than a `u32` node id can
/// number.
pub(crate) fn parse_syntax_tree(parser: &mut tree_sitter::Parser, src: &str) -> (r: Option<SyntaxNode>)
    ensures
        r is Some <==> grammar_tree_ok(src@),
        r matches Some(n) ==> node_wf(n, src@) && tree_size(n) <= u32::MAX && is_grammar_tree(n, src@),
{
    let g = match parse_bash(parser, src) {
        Some(g) => g,
        None => return None,
    };
    let n = match read_node(&g, src) {
        Some(n) => n,
        None => return None,
    };
    proof {
        lemma_reads_as_size(n, g, src@);
    }
    match size_within(&n, 0xffff_ffffu64) {
        Some(_) => Some(n),
        None => None,
    }
}

} // verus!
