//! Lowering the concrete syntax tree to the HIR.
use vstd::prelude::*;
use crate::annotation::{
    Annotation, AnnotationError, AnnotationV, annotations_v, annotation_errors_v, lines_ok,
    parse_annotations, spec_parse_annotations,
};
use crate::hir::{ArithExpand, ArrayExpand, ArraySubscript, Assignment, Block, CaseArm, CaseArmV, CaseStatement, Command, CommandSub, DeclKind, ForLoop, Function, IfStatement, Item, List, ListElement, ListElementV, ListOperator, NodeId, ParamExpand, ParamOperator, Pipeline, Redirect, RedirectV, SegmentV, SourceCommand, SourceUnit, Statement, StatementV, SubscriptV, Unmodeled, WhileLoop, Word, WordSegment, WordV, arm_v, arms_v, elements_v, empty_stmt_v, lemma_arms_v_push, lemma_elements_v_push, lemma_redirects_v_add, lemma_redirects_v_push, lemma_segs_have_expansions_prefix, lemma_segs_v_add, lemma_segs_v_push, lemma_stmts_v_push, lemma_strings_v_push, lemma_items_v_push, items_v, ItemV, function_v, lemma_words_v_add, lemma_words_v_push, redirect_v, redirects_v, seg_has_expansions, seg_v, segs_have_expansions, segs_v, stmt_v, stmts_v, strings_v, subscript_v, word_literal, word_v, words_v};
use crate::lower_spec::{ArmAcc, AssignAcc, CaseAcc, CmdAcc, DeclAcc, ExpAcc, ForAcc, IfAcc, LState, ListAcc, LoweringErrorV, RedirAcc, RedirectedAcc, Skip, WhileAcc, arm_loop_s, arm_s, array_expansion_loop, array_expansion_s, assign_loop_s, attach_pending, case_loop_s, case_s, classify_subscript, command_loop_s, command_s, concat_loop_s, decl_loop_s, decl_s, expansion_loop_s, expansion_name_s, expansion_s, for_loop_s, for_s, fresh_id, has_subscript_from, if_loop_s, if_s, is_brace, is_redirect_kind, is_redirect_op, is_source_name, is_test_op, kid, kid_name, list_loop_s, list_s, lit_word, nkids, not_brace, redirect_loop_s, redirect_s, redirected_loop_s, redirected_s, segs_s, skipped, span_of, stmt_s, stmts_except_s, string_loop_s, strip_arith, strip_quotes, subscript_loop, test_args_loop_s, test_args_s, test_loop_s, test_s, trim_braces, var_assign_s, while_loop_s, while_s, with_redirects, word_s, words_except_s, newlines_before, split_before, split_inner, PState, function_s, top_level_s, program_loop_s, program_s, named_field_child, word_child, function_name_s, function_body_loop_s};
use crate::parse::{ParseError, ParseSession, ParsedSource};
use crate::span::{SourceFile, SourceId, Span};
use crate::syntax::{SyntaxNode, grammar_tree_ok, is_grammar_tree, node_wf, kids_size, lemma_kids_size_take, lemma_kids_size_prefix, tree_size};
use vstd::utf8::encode_utf8;
use crate::text::{chars_of, copy_string, owned, str_eq, string_of, utf8_len_seq};

verus! {

#[derive(Debug, Clone)]
pub enum LoweringError {
    UnsupportedSyntax { kind: String, span: Span },
}

pub open spec fn lowering_errors_v(e: Seq<LoweringError>) -> Seq<LoweringErrorV> {
    Seq::new(
        e.len(),
        |i: int|
            match e[i] {
                LoweringError::UnsupportedSyntax { kind, span } => LoweringErrorV { kind: kind@, span },
            },
    )
}

/// The state of a lowering: the next node id and the errors so far.
pub struct Lowerer {
    pub next_id: u32,
    pub errors: Vec<LoweringError>,
}

impl Lowerer {
    pub open spec fn st(&self) -> LState {
        LState { next_id: self.next_id as nat, errors: lowering_errors_v(self.errors@) }
    }
}

fn kind_is(n: &SyntaxNode, k: &str) -> (b: bool)
    ensures
        b == (n.kind@ == k@),
{
    str_eq(n.kind.as_str(), k)
}

fn skips(set: Skip, n: &SyntaxNode) -> (b: bool)
    ensures
        b == skipped(set, n.kind@),
{
    match set {
        Skip::Compound => kind_is(n, "{") || kind_is(n, "}") || kind_is(n, ";") || kind_is(n, "\n")
            || kind_is(n, "comment"),
        Skip::Subshell => kind_is(n, "(") || kind_is(n, ")") || kind_is(n, ";") || kind_is(n, "\n"),
        Skip::Else => kind_is(n, "else") || kind_is(n, ";") || kind_is(n, "\n"),
        Skip::DoGroup => kind_is(n, "do") || kind_is(n, "done") || kind_is(n, ";") || kind_is(n, "\n"),
        Skip::Pipe => kind_is(n, "|") || kind_is(n, "|&"),
        Skip::Negation => kind_is(n, "!"),
        Skip::CommandSub => kind_is(n, "$(") || kind_is(n, ")") || kind_is(n, "`"),
        Skip::ArrayParens => kind_is(n, "(") || kind_is(n, ")"),
        Skip::Unset => kind_is(n, "unset"),
    }
}

fn node_span(n: &SyntaxNode) -> (s: Span)
    ensures
        s == span_of(*n),
{
    Span::new(n.start_byte as u32, n.end_byte as u32)
}

fn literal_word(span: Span, t: String) -> (w: Word)
    ensures
        word_v(w) == lit_word(span, t@),
{
    let mut segments: Vec<WordSegment> = Vec::new();
    segments.push(WordSegment::Literal(t));
    assert(segs_v(segments@) =~= seq![SegmentV::Literal(t@)]);
    Word { span, segments }
}

fn one_segment(s: WordSegment) -> (v: Vec<WordSegment>)
    ensures
        segs_v(v@) == seq![seg_v(s)],
{
    let mut v: Vec<WordSegment> = Vec::new();
    v.push(s);
    assert(segs_v(v@) =~= seq![seg_v(s)]);
    v
}

fn strip_quotes_exec(t: &String) -> (r: String)
    ensures
        r@ == strip_quotes(t@),
{
    let v = chars_of(t.as_str());
    let n = v.len();
    if n >= 2 && v[0] == '\'' && v[n - 1] == '\'' {
        string_of(&v, 1, n - 1)
    } else {
        copy_string(t)
    }
}

fn strip_arith_exec(t: &String) -> (r: String)
    ensures
        r@ == strip_arith(t@),
{
    let v = chars_of(t.as_str());
    let n = v.len();
    if n >= 5 && v[0] == '$' && v[1] == '(' && v[2] == '(' && v[n - 2] == ')' && v[n - 1] == ')' {
        string_of(&v, 3, n - 2)
    } else {
        copy_string(t)
    }
}

fn trim_braces_exec(v: &Vec<char>, lo: usize) -> (r: String)
    requires
        lo <= v@.len(),
    ensures
        r@ == trim_braces(v@.subrange(lo as int, v@.len() as int)),
{
    let ghost s = v@.subrange(lo as int, v@.len() as int);
    let mut a = lo;
    while a < v.len() && (v[a] == '{' || v[a] == '}')
        invariant
            lo <= a <= v@.len(),
            forall|j: int| lo <= j < a ==> is_brace(#[trigger] v@[j]),
        decreases v.len() - a,
    {
        a = a + 1;
    }
    proof {
        assert forall|j: int| 0 <= j < a - lo implies !(#[trigger] not_brace()(s[j])) by {
            assert(s[j] == v@[lo + j]);
        }
        crate::text::lemma_find_pred_unique(s, not_brace(), a - lo);
    }
    if a == v.len() {
        return String::new();
    }
    let mut b = v.len();
    while b > a && (v[b - 1] == '{' || v[b - 1] == '}')
        invariant
            lo <= a < b <= v@.len(),
            !is_brace(v@[a as int]),
            forall|j: int| b <= j < v@.len() ==> is_brace(#[trigger] v@[j]),
        decreases b - a,
    {
        b = b - 1;
    }
    proof {
        assert forall|j: int| b - lo <= j < s.len() implies !(#[trigger] not_brace()(s[j])) by {
            assert(s[j] == v@[lo + j]);
        }
        assert(not_brace()(s[b - lo - 1]));
        crate::text::lemma_rfind_pred_unique(s, not_brace(), b - lo);
        assert(s.subrange(a - lo, b - lo) =~= v@.subrange(a as int, b as int));
    }
    string_of(v, a, b)
}

/// The name in `$x`.
fn extract_expansion_name(n: &SyntaxNode) -> (r: String)
    ensures
        r@ == expansion_name_s(*n),
{
    let mut i: usize = 0;
    while i < n.children.len()
        invariant
            i <= n.children@.len(),
            kid_name(*n, 0) == kid_name(*n, i as int),
        decreases n.children.len() - i,
    {
        let c = &n.children[i];
        if kind_is(c, "variable_name") || kind_is(c, "special_variable_name") {
            return copy_string(&c.text);
        }
        i = i + 1;
    }
    let v = chars_of(n.text.as_str());
    let lo: usize = if v.len() > 0 && v[0] == '$' { 1 } else { 0 };
    proof {
        if lo == 1 {
            assert(v@.subrange(1, v@.len() as int) =~= v@.drop_first());
        } else {
            assert(v@.subrange(0, v@.len() as int) =~= v@);
        }
    }
    trim_braces_exec(&v, lo)
}

fn classify_subscript_exec(t: &String) -> (r: ArraySubscript)
    ensures
        subscript_v(r) == classify_subscript(t@),
{
    if str_eq(t.as_str(), "@") {
        ArraySubscript::At
    } else if str_eq(t.as_str(), "*") {
        ArraySubscript::Star
    } else {
        ArraySubscript::Index(copy_string(t))
    }
}

/// `${arr[@]}` and the like.
fn lower_array_expansion(n: &SyntaxNode) -> (r: WordSegment)
    ensures
        seg_v(r) == array_expansion_s(*n),
{
    let mut name = String::new();
    let mut sub = ArraySubscript::At;
    let ghost target = array_expansion_loop(*n, 0, Seq::empty(), SubscriptV::At);
    let mut i: usize = 0;
    while i < n.children.len()
        invariant
            i <= n.children@.len(),
            target == array_expansion_loop(*n, i as int, name@, subscript_v(sub)),
        decreases n.children.len() - i,
    {
        let c = &n.children[i];
        if kind_is(c, "subscript") {
            let ghost t2 = subscript_loop(*c, 0, name@, subscript_v(sub));
            let mut j: usize = 0;
            while j < c.children.len()
                invariant
                    j <= c.children@.len(),
                    t2 == subscript_loop(*c, j as int, name@, subscript_v(sub)),
                decreases c.children.len() - j,
            {
                let d = &c.children[j];
                if kind_is(d, "variable_name") {
                    name = copy_string(&d.text);
                } else if kind_is(d, "[") || kind_is(d, "]") {
                } else {
                    sub = classify_subscript_exec(&d.text);
                }
                j = j + 1;
            }
        }
        i = i + 1;
    }
    WordSegment::ArrayExpand(ArrayExpand { span: node_span(n), name, subscript: sub })
}

pub open spec fn opt_word_v(w: Option<Word>) -> Option<WordV> {
    match w {
        Some(w) => Some(word_v(w)),
        None => None,
    }
}

} // verus!

verus! {

impl Lowerer {
    fn alloc_id(&mut self) -> (id: NodeId)
        requires
            old(self).next_id < u32::MAX,
        ensures
            (id, final(self).st()) == fresh_id(old(self).st()),
            final(self).next_id == old(self).next_id + 1,
    {
        let id = NodeId(self.next_id);
        self.next_id = self.next_id + 1;
        id
    }

    /// The children of `n`, lowered as statements, except those of the kinds in `set`.
    fn lower_children_except(&mut self, n: &SyntaxNode, set: Skip) -> (r: Vec<Statement>)
        requires
            old(self).next_id + kids_size(n.children@) <= u32::MAX,
        ensures
            (stmts_v(r@), final(self).st()) == stmts_except_s(*n, 0, set, Seq::empty(), old(self).st()),
            final(self).next_id <= old(self).next_id + kids_size(n.children@),
        decreases *n, nkids(*n) + 1,
    {
        let ghost base = self.next_id as int;
        let ghost target = stmts_except_s(*n, 0, set, Seq::empty(), self.st());
        let mut out: Vec<Statement> = Vec::new();
        assert(stmts_v(out@) =~= Seq::<StatementV>::empty());
        let mut i: usize = 0;
        while i < n.children.len()
            invariant
                i <= n.children@.len(),
                base + kids_size(n.children@) <= u32::MAX,
                self.next_id <= base + kids_size(n.children@.take(i as int)),
                target == stmts_except_s(*n, i as int, set, stmts_v(out@), self.st()),
            decreases n.children.len() - i,
        {
            let c = &n.children[i];
            proof {
                lemma_kids_size_take(n.children@, i as int);
            }
            if !skips(set, c) {
                let s = self.lower_statement(c);
                proof {
                    lemma_stmts_v_push(out@, s);
                }
                out.push(s);
            }
            i = i + 1;
        }
        proof {
            assert(n.children@.take(i as int) =~= n.children@);
        }
        out
    }

    /// The children of `n`, lowered as words, except those of the kinds in `set`.
    fn lower_words_except(&mut self, n: &SyntaxNode, set: Skip) -> (r: Vec<Word>)
        requires
            old(self).next_id + kids_size(n.children@) <= u32::MAX,
        ensures
            (words_v(r@), final(self).st()) == words_except_s(*n, 0, set, Seq::empty(), old(self).st()),
            final(self).next_id <= old(self).next_id + kids_size(n.children@),
        decreases *n, nkids(*n) + 1,
    {
        let ghost base = self.next_id as int;
        let ghost target = words_except_s(*n, 0, set, Seq::empty(), self.st());
        let mut out: Vec<Word> = Vec::new();
        assert(words_v(out@) =~= Seq::<WordV>::empty());
        let mut i: usize = 0;
        while i < n.children.len()
            invariant
                i <= n.children@.len(),
                base + kids_size(n.children@) <= u32::MAX,
                self.next_id <= base + kids_size(n.children@.take(i as int)),
                target == words_except_s(*n, i as int, set, words_v(out@), self.st()),
            decreases n.children.len() - i,
        {
            let c = &n.children[i];
            proof {
                lemma_kids_size_take(n.children@, i as int);
            }
            if !skips(set, c) {
                let w = self.lower_word(c);
                proof {
                    lemma_words_v_push(out@, w);
                }
                out.push(w);
            }
            i = i + 1;
        }
        proof {
            assert(n.children@.take(i as int) =~= n.children@);
        }
        out
    }

    fn lower_word(&mut self, n: &SyntaxNode) -> (r: Word)
        requires
            old(self).next_id + tree_size(*n) <= u32::MAX,
        ensures
            (word_v(r), final(self).st()) == word_s(*n, old(self).st()),
            final(self).next_id <= old(self).next_id + tree_size(*n),
        decreases *n, nkids(*n) + 30,
    {
        let segments = self.lower_word_segments(n);
        Word { span: node_span(n), segments }
    }

    fn lower_word_segments(&mut self, n: &SyntaxNode) -> (r: Vec<WordSegment>)
        requires
            old(self).next_id + tree_size(*n) <= u32::MAX,
        ensures
            (segs_v(r@), final(self).st()) == segs_s(*n, old(self).st()),
            final(self).next_id <= old(self).next_id + tree_size(*n),
        decreases *n, nkids(*n) + 25,
    {
        let span = node_span(n);
        if kind_is(n, "word") || kind_is(n, "number") {
            one_segment(WordSegment::Literal(copy_string(&n.text)))
        } else if kind_is(n, "raw_string") {
            one_segment(WordSegment::SingleQuoted(strip_quotes_exec(&n.text)))
        } else if kind_is(n, "string") || kind_is(n, "translated_string") {
            let ghost base = self.next_id as int;
            let ghost target = string_loop_s(*n, 0, Seq::empty(), self.st());
            let mut segs: Vec<WordSegment> = Vec::new();
            assert(segs_v(segs@) =~= Seq::<SegmentV>::empty());
            let mut i: usize = 0;
            while i < n.children.len()
                invariant
                    i <= n.children@.len(),
                    base + tree_size(*n) <= u32::MAX,
                    tree_size(*n) == 1 + kids_size(n.children@),
                    self.next_id <= base + kids_size(n.children@.take(i as int)),
                    target == string_loop_s(*n, i as int, segs_v(segs@), self.st()),
                decreases n.children.len() - i,
            {
                let c = &n.children[i];
                proof {
                    lemma_kids_size_take(n.children@, i as int);
                    lemma_kids_size_prefix(n.children@, i + 1);
                }
                if kind_is(c, "\"") || kind_is(c, "$\"") {
                } else if kind_is(c, "string_content") {
                    let seg = WordSegment::Literal(copy_string(&c.text));
                    proof {
                        lemma_segs_v_push(segs@, seg);
                    }
                    segs.push(seg);
                } else {
                    let mut more = self.lower_word_segments(c);
                    proof {
                        lemma_segs_v_add(segs@, more@);
                    }
                    segs.append(&mut more);
                }
                i = i + 1;
            }
            proof {
                assert(n.children@.take(i as int) =~= n.children@);
            }
            one_segment(WordSegment::DoubleQuoted(segs))
        } else if kind_is(n, "simple_expansion") {
            let name = extract_expansion_name(n);
            one_segment(WordSegment::ParamExpand(ParamExpand { span, name, operator: None, operand: None }))
        } else if kind_is(n, "expansion") {
            self.lower_expansion(n)
        } else if kind_is(n, "command_substitution") {
            let body = self.lower_children_except(n, Skip::CommandSub);
            one_segment(WordSegment::CommandSub(CommandSub { span, body }))
        } else if kind_is(n, "arithmetic_expansion") {
            one_segment(WordSegment::ArithExpand(ArithExpand { span, expression: strip_arith_exec(&n.text) }))
        } else if kind_is(n, "concatenation") {
            let ghost base = self.next_id as int;
            let ghost target = concat_loop_s(*n, 0, Seq::empty(), self.st());
            let mut segs: Vec<WordSegment> = Vec::new();
            assert(segs_v(segs@) =~= Seq::<SegmentV>::empty());
            let mut i: usize = 0;
            while i < n.children.len()
                invariant
                    i <= n.children@.len(),
                    base + tree_size(*n) <= u32::MAX,
                    tree_size(*n) == 1 + kids_size(n.children@),
                    self.next_id <= base + kids_size(n.children@.take(i as int)),
                    target == concat_loop_s(*n, i as int, segs_v(segs@), self.st()),
                decreases n.children.len() - i,
            {
                let c = &n.children[i];
                proof {
                    lemma_kids_size_take(n.children@, i as int);
                    lemma_kids_size_prefix(n.children@, i + 1);
                }
                let mut more = self.lower_word_segments(c);
                proof {
                    lemma_segs_v_add(segs@, more@);
                }
                segs.append(&mut more);
                i = i + 1;
            }
            proof {
                assert(n.children@.take(i as int) =~= n.children@);
            }
            segs
        } else {
            one_segment(WordSegment::Literal(copy_string(&n.text)))
        }
    }

    fn lower_expansion(&mut self, n: &SyntaxNode) -> (r: Vec<WordSegment>)
        requires
            old(self).next_id + tree_size(*n) <= u32::MAX,
        ensures
            (segs_v(r@), final(self).st()) == expansion_s(*n, old(self).st()),
            final(self).next_id <= old(self).next_id + tree_size(*n),
        decreases *n, nkids(*n) + 20,
    {
        let mut k: usize = 0;
        let mut has_subscript = false;
        while k < n.children.len()
            invariant
                k <= n.children@.len(),
                has_subscript_from(*n, 0) == (has_subscript || has_subscript_from(*n, k as int)),
            decreases n.children.len() - k,
        {
            if kind_is(&n.children[k], "subscript") {
                has_subscript = true;
            }
            k = k + 1;
        }
        if has_subscript {
            return one_segment(lower_array_expansion(n));
        }
        let ghost base = self.next_id as int;
        let ghost target = expansion_loop_s(*n, 0, ExpAcc { name: Seq::empty(), operator: None, operand: None, st: self.st() });
        let mut name = String::new();
        let mut operator: Option<ParamOperator> = None;
        let mut operand: Option<Word> = None;
        let mut i: usize = 0;
        while i < n.children.len()
            invariant
                i <= n.children@.len(),
                base + tree_size(*n) <= u32::MAX,
                tree_size(*n) == 1 + kids_size(n.children@),
                self.next_id <= base + kids_size(n.children@.take(i as int)),
                target == expansion_loop_s(*n, i as int, ExpAcc { name: name@, operator, operand: opt_word_v(operand), st: self.st() }),
            decreases n.children.len() - i,
        {
            let c = &n.children[i];
            proof {
                lemma_kids_size_take(n.children@, i as int);
                lemma_kids_size_prefix(n.children@, i + 1);
            }
            if kind_is(c, "${") || kind_is(c, "}") || kind_is(c, "$") {
            } else if kind_is(c, "variable_name") || kind_is(c, "special_variable_name") {
                name = copy_string(&c.text);
            } else if kind_is(c, "#") {
                if name.as_str().is_empty() {
                    operator = Some(ParamOperator::Length);
                }
            } else if kind_is(c, "!") {
                if name.as_str().is_empty() {
                    operator = Some(ParamOperator::Indirect);
                }
            } else if kind_is(c, ":-") {
                operator = Some(ParamOperator::Default);
            } else if kind_is(c, ":=") {
                operator = Some(ParamOperator::Assign);
            } else if kind_is(c, ":?") {
                operator = Some(ParamOperator::Error);
            } else if kind_is(c, ":+") {
                operator = Some(ParamOperator::Alternate);
            } else if kind_is(c, "-") {
                if operator.is_none() {
                    operator = Some(ParamOperator::Default);
                }
            } else if kind_is(c, "=") {
                if operator.is_none() {
                    operator = Some(ParamOperator::Assign);
                }
            } else if kind_is(c, "?") {
                if operator.is_none() {
                    operator = Some(ParamOperator::Error);
                }
            } else if kind_is(c, "+") {
                if operator.is_none() {
                    operator = Some(ParamOperator::Alternate);
                }
            } else if operator.is_some() && operand.is_none() {
                let w = self.lower_word(c);
                operand = Some(w);
            } else if name.as_str().is_empty() {
                name = copy_string(&c.text);
            }
            i = i + 1;
        }
        proof {
            assert(n.children@.take(i as int) =~= n.children@);
        }
        let operand = match operand {
            Some(w) => Some(Box::new(w)),
            None => None,
        };
        one_segment(WordSegment::ParamExpand(ParamExpand { span: node_span(n), name, operator, operand }))
    }

    /// A statement node.
    fn lower_statement(&mut self, n: &SyntaxNode) -> (r: Statement)
        requires
            old(self).next_id + tree_size(*n) <= u32::MAX,
        ensures
            (stmt_v(r), final(self).st()) == stmt_s(*n, old(self).st()),
            final(self).next_id <= old(self).next_id + tree_size(*n),
        decreases *n, nkids(*n) + 20,
    {
        let span = node_span(n);
        if kind_is(n, "command") {
            self.lower_command(n)
        } else if kind_is(n, "variable_assignment") {
            self.lower_variable_assignment(n)
        } else if kind_is(n, "declaration_command") {
            self.lower_declaration(n)
        } else if kind_is(n, "pipeline") {
            let id = self.alloc_id();
            let commands = self.lower_children_except(n, Skip::Pipe);
            Statement::Pipeline(Pipeline { id, span, commands, negated: false })
        } else if kind_is(n, "if_statement") {
            self.lower_if(n, false)
        } else if kind_is(n, "for_statement") {
            self.lower_for(n)
        } else if kind_is(n, "while_statement") {
            self.lower_while(n)
        } else if kind_is(n, "case_statement") {
            self.lower_case(n)
        } else if kind_is(n, "compound_statement") {
            let id = self.alloc_id();
            let body = self.lower_children_except(n, Skip::Compound);
            Statement::Block(Block { id, span, body, subshell: false })
        } else if kind_is(n, "list") {
            self.lower_list(n)
        } else if kind_is(n, "subshell") {
            let id = self.alloc_id();
            let body = self.lower_children_except(n, Skip::Subshell);
            Statement::Block(Block { id, span, body, subshell: true })
        } else if kind_is(n, "redirected_statement") {
            self.lower_redirected_statement(n)
        } else if kind_is(n, "negated_command") {
            let id = self.alloc_id();
            let commands = self.lower_children_except(n, Skip::Negation);
            Statement::Pipeline(Pipeline { id, span, commands, negated: true })
        } else if kind_is(n, "test_command") {
            self.lower_test_command(n)
        } else if kind_is(n, "unset_command") {
            let id = self.alloc_id();
            let args = self.lower_words_except(n, Skip::Unset);
            let name = literal_word(span, owned("unset"));
            let redirects: Vec<Redirect> = Vec::new();
            assert(redirects_v(redirects@) =~= Seq::<RedirectV>::empty());
            Statement::Command(Command { id, span, name, args, redirects })
        } else {
            let id = self.alloc_id();
            let ghost before = self.errors@;
            self.errors.push(LoweringError::UnsupportedSyntax { kind: copy_string(&n.kind), span });
            assert(lowering_errors_v(self.errors@) =~= lowering_errors_v(before).push(LoweringErrorV { kind: n.kind@, span }));
            Statement::Unmodeled(Unmodeled { id, span, kind: copy_string(&n.kind), text: copy_string(&n.text) })
        }
    }
}

} // verus!

verus! {

pub open spec fn assign_acc(name: String, value: Option<Word>, array_value: Option<Vec<Word>>, st: LState) -> AssignAcc {
    AssignAcc {
        name: name@,
        value: opt_word_v(value),
        array_value: match array_value {
            Some(v) => Some(words_v(v@)),
            None => None,
        },
        st,
    }
}

impl Lowerer {
    /// The name, `=` and value or array under an assignment node.
    fn lower_assignment_parts(
        &mut self,
        n: &SyntaxNode,
        name: &mut String,
        value: &mut Option<Word>,
        array_value: &mut Option<Vec<Word>>,
    )
        requires
            old(self).next_id + kids_size(n.children@) <= u32::MAX,
        ensures
            assign_acc(*final(name), *final(value), *final(array_value), final(self).st())
                == assign_loop_s(*n, 0, assign_acc(*old(name), *old(value), *old(array_value), old(self).st())),
            final(self).next_id <= old(self).next_id + kids_size(n.children@),
        decreases *n, nkids(*n) + 2,
    {
        let ghost base = self.next_id as int;
        let ghost target = assign_loop_s(*n, 0, assign_acc(*name, *value, *array_value, self.st()));
        let mut i: usize = 0;
        while i < n.children.len()
            invariant
                i <= n.children@.len(),
                base + kids_size(n.children@) <= u32::MAX,
                self.next_id <= base + kids_size(n.children@.take(i as int)),
                target == assign_loop_s(*n, i as int, assign_acc(*name, *value, *array_value, self.st())),
            decreases n.children.len() - i,
        {
            let c = &n.children[i];
            proof {
                lemma_kids_size_take(n.children@, i as int);
                lemma_kids_size_prefix(n.children@, i + 1);
                assert(tree_size(*c) == 1 + kids_size(c.children@));
            }
            if kind_is(c, "variable_name") {
                *name = copy_string(&c.text);
            } else if kind_is(c, "=") {
            } else if kind_is(c, "array") {
                let ws = self.lower_words_except(c, Skip::ArrayParens);
                *array_value = Some(ws);
            } else {
                let w = self.lower_word(c);
                *value = Some(w);
            }
            i = i + 1;
        }
        proof {
            assert(n.children@.take(i as int) =~= n.children@);
        }
    }

    fn lower_variable_assignment(&mut self, n: &SyntaxNode) -> (r: Statement)
        requires
            old(self).next_id + tree_size(*n) <= u32::MAX,
        ensures
            (stmt_v(r), final(self).st()) == var_assign_s(*n, old(self).st()),
            final(self).next_id <= old(self).next_id + tree_size(*n),
        decreases *n, nkids(*n) + 10,
    {
        let id = self.alloc_id();
        let mut name = String::new();
        let mut value: Option<Word> = None;
        let mut array_value: Option<Vec<Word>> = None;
        self.lower_assignment_parts(n, &mut name, &mut value, &mut array_value);
        let flags: Vec<String> = Vec::new();
        assert(strings_v(flags@) =~= Seq::<Seq<char>>::empty());
        Statement::Assignment(Assignment { id, span: node_span(n), name, value, decl_kind: None, flags, array_value })
    }

    fn lower_declaration(&mut self, n: &SyntaxNode) -> (r: Statement)
        requires
            old(self).next_id + tree_size(*n) <= u32::MAX,
        ensures
            (stmt_v(r), final(self).st()) == decl_s(*n, old(self).st()),
            final(self).next_id <= old(self).next_id + tree_size(*n),
        decreases *n, nkids(*n) + 10,
    {
        let id = self.alloc_id();
        let ghost base = self.next_id as int;
        let mut decl_kind: Option<DeclKind> = None;
        let mut flags: Vec<String> = Vec::new();
        let mut name = String::new();
        let mut value: Option<Word> = None;
        let mut array_value: Option<Vec<Word>> = None;
        assert(strings_v(flags@) =~= Seq::<Seq<char>>::empty());
        let ghost target = decl_loop_s(
            *n,
            0,
            DeclAcc { decl_kind, flags: strings_v(flags@), a: assign_acc(name, value, array_value, self.st()) },
        );
        let mut i: usize = 0;
        while i < n.children.len()
            invariant
                i <= n.children@.len(),
                base + kids_size(n.children@) <= u32::MAX,
                self.next_id <= base + kids_size(n.children@.take(i as int)),
                target == decl_loop_s(
                    *n,
                    i as int,
                    DeclAcc { decl_kind, flags: strings_v(flags@), a: assign_acc(name, value, array_value, self.st()) },
                ),
            decreases n.children.len() - i,
        {
            let c = &n.children[i];
            proof {
                lemma_kids_size_take(n.children@, i as int);
                lemma_kids_size_prefix(n.children@, i + 1);
                assert(tree_size(*c) == 1 + kids_size(c.children@));
            }
            if kind_is(c, "local") {
                decl_kind = Some(DeclKind::Local);
            } else if kind_is(c, "declare") {
                decl_kind = Some(DeclKind::Declare);
            } else if kind_is(c, "export") {
                decl_kind = Some(DeclKind::Export);
            } else if kind_is(c, "readonly") {
                decl_kind = Some(DeclKind::Readonly);
            } else if kind_is(c, "word") {
                let v = chars_of(c.text.as_str());
                if v.len() > 0 && v[0] == '-' {
                    let t = copy_string(&c.text);
                    proof {
                        crate::hir::lemma_strings_v_push(flags@, t);
                    }
                    flags.push(t);
                } else if name.as_str().is_empty() {
                    name = copy_string(&c.text);
                }
            } else if kind_is(c, "variable_name") {
                name = copy_string(&c.text);
            } else if kind_is(c, "variable_assignment") {
                self.lower_assignment_parts(c, &mut name, &mut value, &mut array_value);
            }
            i = i + 1;
        }
        proof {
            assert(n.children@.take(i as int) =~= n.children@);
        }
        Statement::Assignment(Assignment { id, span: node_span(n), name, value, decl_kind, flags, array_value })
    }

    fn lower_redirect(&mut self, n: &SyntaxNode) -> (r: Redirect)
        requires
            old(self).next_id + tree_size(*n) <= u32::MAX,
        ensures
            (redirect_v(r), final(self).st()) == redirect_s(*n, old(self).st()),
            final(self).next_id <= old(self).next_id + tree_size(*n),
        decreases *n, nkids(*n) + 10,
    {
        let span = node_span(n);
        let ghost base = self.next_id as int;
        let mut fd: Option<String> = None;
        let mut op = String::new();
        let mut target = Word { span, segments: Vec::new() };
        assert(word_v(target) == (WordV { span, segments: Seq::empty() })) by {
            assert(segs_v(target.segments@) =~= Seq::<SegmentV>::empty());
        }
        let ghost goal = redirect_loop_s(*n, 0, RedirAcc { fd: None, op: Seq::empty(), target: word_v(target), st: self.st() });
        let mut i: usize = 0;
        while i < n.children.len()
            invariant
                i <= n.children@.len(),
                base + tree_size(*n) <= u32::MAX,
                tree_size(*n) == 1 + kids_size(n.children@),
                self.next_id <= base + kids_size(n.children@.take(i as int)),
                goal == redirect_loop_s(
                    *n,
                    i as int,
                    RedirAcc {
                        fd: match fd {
                            Some(f) => Some(f@),
                            None => None,
                        },
                        op: op@,
                        target: word_v(target),
                        st: self.st(),
                    },
                ),
            decreases n.children.len() - i,
        {
            let c = &n.children[i];
            proof {
                lemma_kids_size_take(n.children@, i as int);
                lemma_kids_size_prefix(n.children@, i + 1);
            }
            if kind_is(c, "file_descriptor") {
                fd = Some(copy_string(&c.text));
            } else if kind_is(c, ">") || kind_is(c, ">>") || kind_is(c, "<") || kind_is(c, "<<") || kind_is(c, "&>")
                || kind_is(c, "&>>") || kind_is(c, "2>") || kind_is(c, "2>>") {
                op = copy_string(&c.text);
            } else {
                target = self.lower_word(c);
            }
            i = i + 1;
        }
        proof {
            assert(n.children@.take(i as int) =~= n.children@);
        }
        if op.as_str().is_empty() {
            op = copy_string(&n.text);
        }
        Redirect { span, fd, op, target }
    }

    fn lower_command(&mut self, n: &SyntaxNode) -> (r: Statement)
        requires
            old(self).next_id + tree_size(*n) <= u32::MAX,
        ensures
            (stmt_v(r), final(self).st()) == command_s(*n, old(self).st()),
            final(self).next_id <= old(self).next_id + tree_size(*n),
        decreases *n, nkids(*n) + 10,
    {
        let id = self.alloc_id();
        let span = node_span(n);
        let ghost base = self.next_id as int;
        let mut name: Option<Word> = None;
        let mut args: Vec<Word> = Vec::new();
        let mut redirects: Vec<Redirect> = Vec::new();
        assert(words_v(args@) =~= Seq::<WordV>::empty());
        assert(redirects_v(redirects@) =~= Seq::<RedirectV>::empty());
        let ghost goal = command_loop_s(*n, 0, CmdAcc { name: None, args: Seq::empty(), redirects: Seq::empty(), st: self.st() });
        let mut i: usize = 0;
        while i < n.children.len()
            invariant
                i <= n.children@.len(),
                base + kids_size(n.children@) <= u32::MAX,
                self.next_id <= base + kids_size(n.children@.take(i as int)),
                goal == command_loop_s(
                    *n,
                    i as int,
                    CmdAcc { name: opt_word_v(name), args: words_v(args@), redirects: redirects_v(redirects@), st: self.st() },
                ),
            decreases n.children.len() - i,
        {
            let c = &n.children[i];
            proof {
                lemma_kids_size_take(n.children@, i as int);
                lemma_kids_size_prefix(n.children@, i + 1);
            }
            if kind_is(c, "command_name") {
                let inner = if c.children.len() > 0 {
                    proof {
                        lemma_kids_size_take(c.children@, 0);
                        assert(c.children@.take(0) =~= Seq::<SyntaxNode>::empty());
                    }
                    &c.children[0]
                } else {
                    c
                };
                let w = self.lower_word(inner);
                name = Some(w);
            } else if kind_is(c, "file_redirect") || kind_is(c, "heredoc_redirect") {
                let r = self.lower_redirect(c);
                proof {
                    lemma_redirects_v_push(redirects@, r);
                }
                redirects.push(r);
            } else if name.is_some() {
                let w = self.lower_word(c);
                proof {
                    lemma_words_v_push(args@, w);
                }
                args.push(w);
            }
            i = i + 1;
        }
        proof {
            assert(n.children@.take(i as int) =~= n.children@);
        }
        let name = match name {
            Some(w) => w,
            None => literal_word(span, copy_string(&n.text)),
        };
        let is_source = match name.literal_str() {
            Some(s) => str_eq(s, "source") || str_eq(s, "."),
            None => false,
        };
        if is_source && args.len() > 0 {
            let path = args.remove(0);
            let dynamic = path.has_expansions();
            Statement::SourceCommand(SourceCommand { id, span, path, dynamic })
        } else {
            Statement::Command(Command { id, span, name, args, redirects })
        }
    }
}

} // verus!

verus! {

pub open spec fn opt_stmts_v(s: Option<Vec<Statement>>) -> Option<Seq<StatementV>> {
    match s {
        Some(v) => Some(stmts_v(v@)),
        None => None,
    }
}

impl Lowerer {
    /// An `if` statement, or (with `elif`) an `elif` clause.
    fn lower_if(&mut self, n: &SyntaxNode, elif: bool) -> (r: Statement)
        requires
            old(self).next_id + tree_size(*n) <= u32::MAX,
        ensures
            (stmt_v(r), final(self).st()) == if_s(*n, old(self).st(), elif),
            final(self).next_id <= old(self).next_id + tree_size(*n),
        decreases *n, nkids(*n) + 10,
    {
        let id = self.alloc_id();
        let ghost base = self.next_id as int;
        let mut condition: Vec<Statement> = Vec::new();
        let mut then_body: Vec<Statement> = Vec::new();
        let mut else_body: Option<Vec<Statement>> = None;
        let mut in_condition = false;
        let mut in_then = false;
        assert(stmts_v(condition@) =~= Seq::<StatementV>::empty());
        assert(stmts_v(then_body@) =~= Seq::<StatementV>::empty());
        let ghost goal = if_loop_s(*n, 0, elif, IfAcc {
            cond: Seq::empty(),
            then_body: Seq::empty(),
            else_body: None,
            in_cond: false,
            in_then: false,
            st: self.st(),
        });
        let mut i: usize = 0;
        while i < n.children.len()
            invariant
                i <= n.children@.len(),
                base + kids_size(n.children@) <= u32::MAX,
                self.next_id <= base + kids_size(n.children@.take(i as int)),
                goal == if_loop_s(*n, i as int, elif, IfAcc {
                    cond: stmts_v(condition@),
                    then_body: stmts_v(then_body@),
                    else_body: opt_stmts_v(else_body),
                    in_cond: in_condition,
                    in_then,
                    st: self.st(),
                }),
            decreases n.children.len() - i,
        {
            let c = &n.children[i];
            proof {
                lemma_kids_size_take(n.children@, i as int);
                lemma_kids_size_prefix(n.children@, i + 1);
                assert(tree_size(*c) == 1 + kids_size(c.children@));
            }
            if (!elif && kind_is(c, "if")) || (elif && kind_is(c, "elif")) {
                in_condition = true;
            } else if kind_is(c, "then") {
                in_condition = false;
                in_then = true;
            } else if kind_is(c, "else_clause") {
                in_then = false;
                else_body = Some(self.lower_children_except(c, Skip::Else));
            } else if kind_is(c, "elif_clause") {
                in_then = false;
                let e = self.lower_if(c, true);
                let mut v: Vec<Statement> = Vec::new();
                v.push(e);
                assert(stmts_v(v@) =~= seq![stmt_v(e)]);
                else_body = Some(v);
            } else if (!elif && kind_is(c, "fi")) || kind_is(c, ";") || kind_is(c, "\n") {
            } else if in_condition {
                let s = self.lower_statement(c);
                proof {
                    lemma_stmts_v_push(condition@, s);
                }
                condition.push(s);
            } else if in_then {
                let s = self.lower_statement(c);
                proof {
                    lemma_stmts_v_push(then_body@, s);
                }
                then_body.push(s);
            }
            i = i + 1;
        }
        proof {
            assert(n.children@.take(i as int) =~= n.children@);
        }
        Statement::If(IfStatement { id, span: node_span(n), condition, then_body, else_body })
    }

    fn lower_for(&mut self, n: &SyntaxNode) -> (r: Statement)
        requires
            old(self).next_id + tree_size(*n) <= u32::MAX,
        ensures
            (stmt_v(r), final(self).st()) == for_s(*n, old(self).st()),
            final(self).next_id <= old(self).next_id + tree_size(*n),
        decreases *n, nkids(*n) + 10,
    {
        let id = self.alloc_id();
        let ghost base = self.next_id as int;
        let mut variable = String::new();
        let mut items: Vec<Word> = Vec::new();
        let mut body: Vec<Statement> = Vec::new();
        let mut in_items = false;
        assert(words_v(items@) =~= Seq::<WordV>::empty());
        assert(stmts_v(body@) =~= Seq::<StatementV>::empty());
        let ghost goal = for_loop_s(*n, 0, ForAcc {
            variable: Seq::empty(),
            items: Seq::empty(),
            body: Seq::empty(),
            in_items: false,
            st: self.st(),
        });
        let mut i: usize = 0;
        while i < n.children.len()
            invariant
                i <= n.children@.len(),
                base + kids_size(n.children@) <= u32::MAX,
                self.next_id <= base + kids_size(n.children@.take(i as int)),
                goal == for_loop_s(*n, i as int, ForAcc {
                    variable: variable@,
                    items: words_v(items@),
                    body: stmts_v(body@),
                    in_items,
                    st: self.st(),
                }),
            decreases n.children.len() - i,
        {
            let c = &n.children[i];
            proof {
                lemma_kids_size_take(n.children@, i as int);
                lemma_kids_size_prefix(n.children@, i + 1);
                assert(tree_size(*c) == 1 + kids_size(c.children@));
            }
            if kind_is(c, "for") {
            } else if kind_is(c, "variable_name") {
                variable = copy_string(&c.text);
            } else if kind_is(c, "in") {
                in_items = true;
            } else if kind_is(c, "do_group") {
                in_items = false;
                body = self.lower_children_except(c, Skip::DoGroup);
            } else if kind_is(c, ";") || kind_is(c, "\n") {
            } else if in_items {
                let w = self.lower_word(c);
                proof {
                    lemma_words_v_push(items@, w);
                }
                items.push(w);
            }
            i = i + 1;
        }
        proof {
            assert(n.children@.take(i as int) =~= n.children@);
        }
        Statement::For(ForLoop { id, span: node_span(n), variable, items, body })
    }

    fn lower_while(&mut self, n: &SyntaxNode) -> (r: Statement)
        requires
            old(self).next_id + tree_size(*n) <= u32::MAX,
        ensures
            (stmt_v(r), final(self).st()) == while_s(*n, old(self).st()),
            final(self).next_id <= old(self).next_id + tree_size(*n),
        decreases *n, nkids(*n) + 10,
    {
        let id = self.alloc_id();
        let ghost base = self.next_id as int;
        let mut condition: Vec<Statement> = Vec::new();
        let mut body: Vec<Statement> = Vec::new();
        let mut in_condition = false;
        assert(stmts_v(condition@) =~= Seq::<StatementV>::empty());
        assert(stmts_v(body@) =~= Seq::<StatementV>::empty());
        let ghost goal = while_loop_s(*n, 0, WhileAcc { cond: Seq::empty(), body: Seq::empty(), in_cond: false, st: self.st() });
        let mut i: usize = 0;
        while i < n.children.len()
            invariant
                i <= n.children@.len(),
                base + kids_size(n.children@) <= u32::MAX,
                self.next_id <= base + kids_size(n.children@.take(i as int)),
                goal == while_loop_s(*n, i as int, WhileAcc {
                    cond: stmts_v(condition@),
                    body: stmts_v(body@),
                    in_cond: in_condition,
                    st: self.st(),
                }),
            decreases n.children.len() - i,
        {
            let c = &n.children[i];
            proof {
                lemma_kids_size_take(n.children@, i as int);
                lemma_kids_size_prefix(n.children@, i + 1);
                assert(tree_size(*c) == 1 + kids_size(c.children@));
            }
            if kind_is(c, "while") || kind_is(c, "until") {
                in_condition = true;
            } else if kind_is(c, "do_group") {
                in_condition = false;
                body = self.lower_children_except(c, Skip::DoGroup);
            } else if kind_is(c, ";") || kind_is(c, "\n") {
            } else if in_condition {
                let s = self.lower_statement(c);
                proof {
                    lemma_stmts_v_push(condition@, s);
                }
                condition.push(s);
            }
            i = i + 1;
        }
        proof {
            assert(n.children@.take(i as int) =~= n.children@);
        }
        Statement::While(WhileLoop { id, span: node_span(n), condition, body })
    }

    fn lower_case_arm(&mut self, n: &SyntaxNode) -> (r: CaseArm)
        requires
            old(self).next_id + tree_size(*n) <= u32::MAX,
        ensures
            (arm_v(r), final(self).st()) == arm_s(*n, old(self).st()),
            final(self).next_id <= old(self).next_id + tree_size(*n),
        decreases *n, nkids(*n) + 10,
    {
        let ghost base = self.next_id as int;
        let mut patterns: Vec<Word> = Vec::new();
        let mut body: Vec<Statement> = Vec::new();
        let mut past_paren = false;
        assert(words_v(patterns@) =~= Seq::<WordV>::empty());
        assert(stmts_v(body@) =~= Seq::<StatementV>::empty());
        let ghost goal = arm_loop_s(*n, 0, ArmAcc { patterns: Seq::empty(), body: Seq::empty(), past: false, st: self.st() });
        let mut i: usize = 0;
        while i < n.children.len()
            invariant
                i <= n.children@.len(),
                base + tree_size(*n) <= u32::MAX,
                tree_size(*n) == 1 + kids_size(n.children@),
                self.next_id <= base + kids_size(n.children@.take(i as int)),
                goal == arm_loop_s(*n, i as int, ArmAcc {
                    patterns: words_v(patterns@),
                    body: stmts_v(body@),
                    past: past_paren,
                    st: self.st(),
                }),
            decreases n.children.len() - i,
        {
            let c = &n.children[i];
            proof {
                lemma_kids_size_take(n.children@, i as int);
                lemma_kids_size_prefix(n.children@, i + 1);
            }
            if kind_is(c, ")") {
                past_paren = true;
            } else if kind_is(c, ";;") || kind_is(c, ";&") || kind_is(c, ";;&") || kind_is(c, "(") {
            } else if past_paren {
                let s = self.lower_statement(c);
                proof {
                    lemma_stmts_v_push(body@, s);
                }
                body.push(s);
            } else {
                let w = self.lower_word(c);
                proof {
                    lemma_words_v_push(patterns@, w);
                }
                patterns.push(w);
            }
            i = i + 1;
        }
        proof {
            assert(n.children@.take(i as int) =~= n.children@);
        }
        CaseArm { span: node_span(n), patterns, body }
    }

    fn lower_case(&mut self, n: &SyntaxNode) -> (r: Statement)
        requires
            old(self).next_id + tree_size(*n) <= u32::MAX,
        ensures
            (stmt_v(r), final(self).st()) == case_s(*n, old(self).st()),
            final(self).next_id <= old(self).next_id + tree_size(*n),
        decreases *n, nkids(*n) + 10,
    {
        let span = node_span(n);
        let id = self.alloc_id();
        let ghost base = self.next_id as int;
        let mut subject = Word { span, segments: Vec::new() };
        let mut arms: Vec<CaseArm> = Vec::new();
        assert(word_v(subject) == (WordV { span, segments: Seq::empty() })) by {
            assert(segs_v(subject.segments@) =~= Seq::<SegmentV>::empty());
        }
        assert(arms_v(arms@) =~= Seq::<CaseArmV>::empty());
        let ghost goal = case_loop_s(*n, 0, CaseAcc { subject: word_v(subject), arms: Seq::empty(), st: self.st() });
        let mut i: usize = 0;
        while i < n.children.len()
            invariant
                i <= n.children@.len(),
                base + kids_size(n.children@) <= u32::MAX,
                self.next_id <= base + kids_size(n.children@.take(i as int)),
                goal == case_loop_s(*n, i as int, CaseAcc { subject: word_v(subject), arms: arms_v(arms@), st: self.st() }),
            decreases n.children.len() - i,
        {
            let c = &n.children[i];
            proof {
                lemma_kids_size_take(n.children@, i as int);
                lemma_kids_size_prefix(n.children@, i + 1);
            }
            if kind_is(c, "case") || kind_is(c, "in") || kind_is(c, "esac") || kind_is(c, ";") || kind_is(c, "\n") {
            } else if kind_is(c, "case_item") {
                let a = self.lower_case_arm(c);
                proof {
                    lemma_arms_v_push(arms@, a);
                }
                arms.push(a);
            } else if subject.segments.len() == 0 {
                subject = self.lower_word(c);
            }
            i = i + 1;
        }
        proof {
            assert(n.children@.take(i as int) =~= n.children@);
        }
        Statement::Case(CaseStatement { id, span, subject, arms })
    }

    fn lower_list(&mut self, n: &SyntaxNode) -> (r: Statement)
        requires
            old(self).next_id + tree_size(*n) <= u32::MAX,
        ensures
            (stmt_v(r), final(self).st()) == list_s(*n, old(self).st()),
            final(self).next_id <= old(self).next_id + tree_size(*n),
        decreases *n, nkids(*n) + 10,
    {
        let id = self.alloc_id();
        let ghost base = self.next_id as int;
        let mut elements: Vec<ListElement> = Vec::new();
        let mut pending_op: Option<ListOperator> = None;
        assert(elements_v(elements@) =~= Seq::<ListElementV>::empty());
        let ghost goal = list_loop_s(*n, 0, ListAcc { elements: Seq::empty(), pending: None, st: self.st() });
        let mut i: usize = 0;
        while i < n.children.len()
            invariant
                i <= n.children@.len(),
                base + kids_size(n.children@) <= u32::MAX,
                self.next_id <= base + kids_size(n.children@.take(i as int)),
                goal == list_loop_s(*n, i as int, ListAcc { elements: elements_v(elements@), pending: pending_op, st: self.st() }),
            decreases n.children.len() - i,
        {
            let c = &n.children[i];
            proof {
                lemma_kids_size_take(n.children@, i as int);
                lemma_kids_size_prefix(n.children@, i + 1);
            }
            if kind_is(c, "&&") {
                pending_op = Some(ListOperator::And);
            } else if kind_is(c, "||") {
                pending_op = Some(ListOperator::Or);
            } else if kind_is(c, ";") {
                pending_op = Some(ListOperator::Semi);
            } else if kind_is(c, "\n") {
            } else {
                let taken = pending_op;
                pending_op = None;
                let ghost before = elements@;
                match taken {
                    Some(op) => {
                        let len = elements.len();
                        if len > 0 {
                            let last = elements.pop().unwrap();
                            elements.push(ListElement { statement: last.statement, operator: Some(op) });
                            proof {
                                assert(elements_v(elements@) =~= attach_pending(elements_v(before), taken));
                            }
                        } else {
                            assert(elements_v(elements@) =~= attach_pending(elements_v(before), taken));
                        }
                    },
                    None => {
                        assert(elements_v(elements@) =~= attach_pending(elements_v(before), taken));
                    },
                }
                let s = self.lower_statement(c);
                let e = ListElement { statement: s, operator: None };
                proof {
                    lemma_elements_v_push(elements@, e);
                }
                elements.push(e);
            }
            i = i + 1;
        }
        proof {
            assert(n.children@.take(i as int) =~= n.children@);
        }
        Statement::List(List { id, span: node_span(n), elements })
    }

    fn lower_redirected_statement(&mut self, n: &SyntaxNode) -> (r: Statement)
        requires
            old(self).next_id + tree_size(*n) <= u32::MAX,
        ensures
            (stmt_v(r), final(self).st()) == redirected_s(*n, old(self).st()),
            final(self).next_id <= old(self).next_id + tree_size(*n),
        decreases *n, nkids(*n) + 10,
    {
        let ghost base = self.next_id as int;
        let mut inner_stmt: Option<Statement> = None;
        let mut redirects: Vec<Redirect> = Vec::new();
        assert(redirects_v(redirects@) =~= Seq::<RedirectV>::empty());
        let ghost goal = redirected_loop_s(*n, 0, RedirectedAcc { inner: None, redirects: Seq::empty(), st: self.st() });
        let mut i: usize = 0;
        while i < n.children.len()
            invariant
                i <= n.children@.len(),
                base + tree_size(*n) <= u32::MAX,
                tree_size(*n) == 1 + kids_size(n.children@),
                self.next_id <= base + kids_size(n.children@.take(i as int)),
                goal == redirected_loop_s(*n, i as int, RedirectedAcc {
                    inner: match inner_stmt {
                        Some(s) => Some(stmt_v(s)),
                        None => None,
                    },
                    redirects: redirects_v(redirects@),
                    st: self.st(),
                }),
            decreases n.children.len() - i,
        {
            let c = &n.children[i];
            proof {
                lemma_kids_size_take(n.children@, i as int);
                lemma_kids_size_prefix(n.children@, i + 1);
            }
            if kind_is(c, "file_redirect") || kind_is(c, "heredoc_redirect") {
                let r = self.lower_redirect(c);
                proof {
                    lemma_redirects_v_push(redirects@, r);
                }
                redirects.push(r);
            } else {
                inner_stmt = Some(self.lower_statement(c));
            }
            i = i + 1;
        }
        proof {
            assert(n.children@.take(i as int) =~= n.children@);
        }
        let stmt = match inner_stmt {
            Some(s) => s,
            None => {
                let id = self.alloc_id();
                Statement::Unmodeled(Unmodeled {
                    id,
                    span: node_span(n),
                    kind: owned("empty_redirected"),
                    text: copy_string(&n.text),
                })
            },
        };
        match stmt {
            Statement::Command(mut cmd) => {
                let ghost before = cmd.redirects@;
                proof {
                    lemma_redirects_v_add(before, redirects@);
                }
                cmd.redirects.append(&mut redirects);
                Statement::Command(cmd)
            },
            other => other,
        }
    }

    /// The words of one expression inside `[[ ... ]]`.
    fn collect_test_args(&mut self, n: &SyntaxNode, args: &mut Vec<Word>)
        requires
            old(self).next_id + tree_size(*n) <= u32::MAX,
        ensures
            ({
                let (ws, s) = test_args_s(*n, old(self).st());
                words_v(final(args)@) == words_v(old(args)@) + ws && final(self).st() == s
            }),
            final(self).next_id <= old(self).next_id + tree_size(*n),
        decreases *n, nkids(*n) + 40,
    {
        let unary = kind_is(n, "unary_expression");
        let binary = !unary && kind_is(n, "binary_expression");
        if unary || binary {
            let ghost base = self.next_id as int;
            let ghost goal = test_args_loop_s(*n, 0, binary, Seq::empty(), self.st());
            let mut out: Vec<Word> = Vec::new();
            assert(words_v(out@) =~= Seq::<WordV>::empty());
            let mut i: usize = 0;
            while i < n.children.len()
                invariant
                    i <= n.children@.len(),
                    base + tree_size(*n) <= u32::MAX,
                    tree_size(*n) == 1 + kids_size(n.children@),
                    self.next_id <= base + kids_size(n.children@.take(i as int)),
                    goal == test_args_loop_s(*n, i as int, binary, words_v(out@), self.st()),
                decreases n.children.len() - i,
            {
                let c = &n.children[i];
                proof {
                    lemma_kids_size_take(n.children@, i as int);
                    lemma_kids_size_prefix(n.children@, i + 1);
                }
                let is_op = kind_is(c, "test_operator") || (binary && (kind_is(c, "==") || kind_is(c, "!=")
                    || kind_is(c, "=~") || kind_is(c, "<") || kind_is(c, ">")));
                let w = if is_op {
                    literal_word(node_span(c), copy_string(&c.text))
                } else {
                    self.lower_word(c)
                };
                proof {
                    lemma_words_v_push(out@, w);
                }
                out.push(w);
                i = i + 1;
            }
            proof {
                assert(n.children@.take(i as int) =~= n.children@);
                lemma_words_v_add(args@, out@);
            }
            args.append(&mut out);
        } else {
            let w = self.lower_word(n);
            proof {
                lemma_words_v_push(args@, w);
                assert(words_v(args@).push(word_v(w)) =~= words_v(args@) + seq![word_v(w)]);
            }
            args.push(w);
        }
    }

    fn lower_test_command(&mut self, n: &SyntaxNode) -> (r: Statement)
        requires
            old(self).next_id + tree_size(*n) <= u32::MAX,
        ensures
            (stmt_v(r), final(self).st()) == test_s(*n, old(self).st()),
            final(self).next_id <= old(self).next_id + tree_size(*n),
        decreases *n, nkids(*n) + 10,
    {
        let span = node_span(n);
        let id = self.alloc_id();
        let ghost base = self.next_id as int;
        let mut args: Vec<Word> = Vec::new();
        assert(words_v(args@) =~= Seq::<WordV>::empty());
        let ghost goal = test_loop_s(*n, 0, Seq::empty(), self.st());
        let mut i: usize = 0;
        while i < n.children.len()
            invariant
                i <= n.children@.len(),
                base + kids_size(n.children@) <= u32::MAX,
                self.next_id <= base + kids_size(n.children@.take(i as int)),
                goal == test_loop_s(*n, i as int, words_v(args@), self.st()),
            decreases n.children.len() - i,
        {
            let c = &n.children[i];
            proof {
                lemma_kids_size_take(n.children@, i as int);
                lemma_kids_size_prefix(n.children@, i + 1);
            }
            if kind_is(c, "[[") || kind_is(c, "]]") || kind_is(c, "[") || kind_is(c, "]") {
            } else {
                self.collect_test_args(c, &mut args);
            }
            i = i + 1;
        }
        proof {
            assert(n.children@.take(i as int) =~= n.children@);
        }
        let name = literal_word(span, owned("[["));
        let redirects: Vec<Redirect> = Vec::new();
        assert(redirects_v(redirects@) =~= Seq::<RedirectV>::empty());
        Statement::Command(Command { id, span, name, args, redirects })
    }
}

} // verus!

verus! {

fn newlines_before_exec(bytes: &[u8], b: usize) -> (r: usize)
    ensures
        r as nat == newlines_before(bytes@, b as int),
{
    if b > bytes.len() {
        return 0;
    }
    let mut count: usize = 0;
    let mut i: usize = 0;
    while i < b
        invariant
            i <= b <= bytes@.len(),
            count <= i,
            count as nat == newlines_before(bytes@, i as int),
        decreases b - i,
    {
        if bytes[i] == 10u8 {
            count = count + 1;
        }
        i = i + 1;
    }
    count
}

/// Moves the annotations that start on a line before `line` out of `pending`, in order.
fn split_before_exec(pending: Vec<Annotation>, bytes: &[u8], line: usize) -> (r: (Vec<Annotation>, Vec<Annotation>))
    ensures
        (annotations_v(r.0@), annotations_v(r.1@)) == split_before(annotations_v(pending@), bytes@, line as nat),
{
    let ghost orig = pending@;
    let mut pending = pending;
    let mut attached: Vec<Annotation> = Vec::new();
    let mut remaining: Vec<Annotation> = Vec::new();
    let ghost mut i: int = 0;
    assert(annotations_v(orig).take(0) =~= Seq::<AnnotationV>::empty());
    assert(annotations_v(attached@) =~= Seq::<AnnotationV>::empty());
    assert(annotations_v(remaining@) =~= Seq::<AnnotationV>::empty());
    while pending.len() > 0
        invariant
            0 <= i <= orig.len(),
            pending@ == orig.skip(i),
            (annotations_v(attached@), annotations_v(remaining@)) == split_before(annotations_v(orig).take(i), bytes@, line as nat),
        decreases pending.len(),
    {
        let a = pending.remove(0);
        proof {
            assert(a == orig[i]);
            assert(annotations_v(orig).take(i + 1).drop_last() =~= annotations_v(orig).take(i));
        }
        let start = a.span.start as usize;
        let ghost ba = attached@;
        let ghost br = remaining@;
        if newlines_before_exec(bytes, start) < line {
            attached.push(a);
            assert(annotations_v(attached@) =~= annotations_v(ba).push(crate::annotation::annotation_v(a)));
        } else {
            remaining.push(a);
            assert(annotations_v(remaining@) =~= annotations_v(br).push(crate::annotation::annotation_v(a)));
        }
        proof {
            i = i + 1;
            assert(pending@ =~= orig.skip(i));
        }
    }
    assert(annotations_v(orig).take(i) =~= annotations_v(orig));
    (attached, remaining)
}

/// Moves the annotations that start before byte `end` out of `pending`, in order.
fn split_inner_exec(pending: Vec<Annotation>, end: usize) -> (r: (Vec<Annotation>, Vec<Annotation>))
    ensures
        (annotations_v(r.0@), annotations_v(r.1@)) == split_inner(annotations_v(pending@), end as int),
{
    let ghost orig = pending@;
    let mut pending = pending;
    let mut inner: Vec<Annotation> = Vec::new();
    let mut remaining: Vec<Annotation> = Vec::new();
    let ghost mut i: int = 0;
    assert(annotations_v(orig).take(0) =~= Seq::<AnnotationV>::empty());
    assert(annotations_v(inner@) =~= Seq::<AnnotationV>::empty());
    assert(annotations_v(remaining@) =~= Seq::<AnnotationV>::empty());
    while pending.len() > 0
        invariant
            0 <= i <= orig.len(),
            pending@ == orig.skip(i),
            (annotations_v(inner@), annotations_v(remaining@)) == split_inner(annotations_v(orig).take(i), end as int),
        decreases pending.len(),
    {
        let a = pending.remove(0);
        proof {
            assert(a == orig[i]);
            assert(annotations_v(orig).take(i + 1).drop_last() =~= annotations_v(orig).take(i));
        }
        let ghost bi = inner@;
        let ghost br = remaining@;
        if (a.span.start as usize) < end {
            inner.push(a);
            assert(annotations_v(inner@) =~= annotations_v(bi).push(crate::annotation::annotation_v(a)));
        } else {
            remaining.push(a);
            assert(annotations_v(remaining@) =~= annotations_v(br).push(crate::annotation::annotation_v(a)));
        }
        proof {
            i = i + 1;
            assert(pending@ =~= orig.skip(i));
        }
    }
    assert(annotations_v(orig).take(i) =~= annotations_v(orig));
    (inner, remaining)
}

/// The lowering of a whole program.
struct LoweringContext {
    lowerer: Lowerer,
    annotations: Vec<Annotation>,
}

impl LoweringContext {
    spec fn ps(&self) -> PState {
        PState { l: self.lowerer.st(), pending: annotations_v(self.annotations@) }
    }

    fn lower_function(&mut self, n: &SyntaxNode, bytes: &[u8]) -> (f: Function)
        requires
            old(self).lowerer.next_id + tree_size(*n) <= u32::MAX,
        ensures
            (function_v(f), final(self).ps()) == function_s(*n, old(self).ps(), bytes@),
            final(self).lowerer.next_id <= old(self).lowerer.next_id + tree_size(*n),
    {
        let id = self.lowerer.alloc_id();
        let ghost base = self.lowerer.next_id as int;
        let line = newlines_before_exec(bytes, n.start_byte);
        let mut pending: Vec<Annotation> = Vec::new();
        std::mem::swap(&mut pending, &mut self.annotations);
        let (mut attached, rest) = split_before_exec(pending, bytes, line);
        let mut name = String::new();
        let mut found = false;
        let mut j: usize = 0;
        while j < n.children.len()
            invariant
                j <= n.children@.len(),
                found ==> named_field_child(*n, 0) == Some(name@),
                !found ==> named_field_child(*n, 0) == named_field_child(*n, j as int),
                !found ==> name@ == Seq::<char>::empty(),
            decreases n.children.len() - j,
        {
            if !found {
                let c = &n.children[j];
                let is_name = match &c.field_name {
                    Some(f) => str_eq(f.as_str(), "name"),
                    None => false,
                };
                if is_name {
                    name = copy_string(&c.text);
                    found = true;
                }
            }
            j = j + 1;
        }
        if !found {
            let mut k: usize = 0;
            while k < n.children.len()
                invariant
                    k <= n.children@.len(),
                    named_field_child(*n, 0) is None,
                    found ==> function_name_s(*n) == name@,
                    !found ==> word_child(*n, 0) == word_child(*n, k as int) && name@ == Seq::<char>::empty(),
                decreases n.children.len() - k,
            {
                if !found && kind_is(&n.children[k], "word") {
                    name = copy_string(&n.children[k].text);
                    found = true;
                }
                k = k + 1;
            }
        }
        let ghost goal = function_body_loop_s(*n, 0, Seq::empty(), self.lowerer.st());
        let mut body: Vec<Statement> = Vec::new();
        assert(stmts_v(body@) =~= Seq::<StatementV>::empty());
        let mut i: usize = 0;
        while i < n.children.len()
            invariant
                i <= n.children@.len(),
                base + kids_size(n.children@) <= u32::MAX,
                self.lowerer.next_id <= base + kids_size(n.children@.take(i as int)),
                goal == function_body_loop_s(*n, i as int, stmts_v(body@), self.lowerer.st()),
            decreases n.children.len() - i,
        {
            let c = &n.children[i];
            proof {
                lemma_kids_size_take(n.children@, i as int);
                lemma_kids_size_prefix(n.children@, i + 1);
                assert(tree_size(*c) == 1 + kids_size(c.children@));
            }
            if kind_is(c, "compound_statement") {
                body = self.lowerer.lower_children_except(c, Skip::Compound);
            }
            i = i + 1;
        }
        proof {
            assert(n.children@.take(i as int) =~= n.children@);
        }
        let (mut inner, rest2) = split_inner_exec(rest, n.end_byte);
        self.annotations = rest2;
        let ghost ba = attached@;
        let ghost bi = inner@;
        attached.append(&mut inner);
        assert(annotations_v(attached@) =~= annotations_v(ba) + annotations_v(bi));
        Function { id, span: node_span(n), name, body, annotations: attached }
    }

    fn lower_program(&mut self, root: &SyntaxNode, bytes: &[u8]) -> (items: Vec<Item>)
        requires
            old(self).lowerer.next_id + tree_size(*root) <= u32::MAX,
        ensures
            (items_v(items@), final(self).ps()) == program_loop_s(*root, 0, Seq::empty(), old(self).ps(), bytes@),
    {
        let ghost base = self.lowerer.next_id as int;
        let ghost goal = program_loop_s(*root, 0, Seq::empty(), self.ps(), bytes@);
        let mut items: Vec<Item> = Vec::new();
        assert(items_v(items@) =~= Seq::<ItemV>::empty());
        let mut i: usize = 0;
        while i < root.children.len()
            invariant
                i <= root.children@.len(),
                base + kids_size(root.children@) <= u32::MAX,
                self.lowerer.next_id <= base + kids_size(root.children@.take(i as int)),
                goal == program_loop_s(*root, i as int, items_v(items@), self.ps(), bytes@),
            decreases root.children.len() - i,
        {
            let c = &root.children[i];
            proof {
                lemma_kids_size_take(root.children@, i as int);
                lemma_kids_size_prefix(root.children@, i + 1);
            }
            if kind_is(c, "function_definition") {
                let f = self.lower_function(c, bytes);
                let it = Item::Function(f);
                proof {
                    lemma_items_v_push(items@, it);
                }
                items.push(it);
            } else if kind_is(c, "\n") || kind_is(c, ";") || kind_is(c, "comment") {
            } else {
                let s = self.lowerer.lower_statement(c);
                let it = Item::Statement(s);
                proof {
                    lemma_items_v_push(items@, it);
                }
                items.push(it);
            }
            i = i + 1;
        }
        items
    }
}


/// What lowering a source file gives: its HIR, and the errors of each stage.
pub struct LowerResult {
    pub source_unit: SourceUnit,
    pub parse_errors: Vec<ParseError>,
    pub annotation_errors: Vec<AnnotationError>,
    pub lowering_errors: Vec<LoweringError>,
    /// The text that was lowered.
    pub source_text: String,
}

impl LowerResult {
    pub fn source_text(&self) -> (s: &str)
        ensures
            s@ == self.source_text@,
    {
        self.source_text.as_str()
    }
}

/// Lowers a parsed tree, given the annotations of its text: the items, the
/// annotations that no function took, and the constructs that could not be
/// lowered, as `program_s` states.
pub fn lower_parsed(parsed: &ParsedSource, annotations: Vec<Annotation>) -> (r: (
    Vec<Item>,
    Vec<Annotation>,
    Vec<LoweringError>,
))
    requires
        tree_size(parsed.tree) <= u32::MAX,
    ensures
        (items_v(r.0@), annotations_v(r.1@), lowering_errors_v(r.2@)) == program_s(
            parsed.tree,
            annotations_v(annotations@),
            encode_utf8(parsed.source.source@),
        ),
{
    let mut ctx = LoweringContext { lowerer: Lowerer { next_id: 0, errors: Vec::new() }, annotations };
    assert(lowering_errors_v(ctx.lowerer.errors@) =~= Seq::<LoweringErrorV>::empty());
    let bytes = parsed.source.source.as_str().as_bytes();
    let items = ctx.lower_program(&parsed.tree, bytes);
    (items, ctx.annotations, ctx.lowerer.errors)
}

/// The result where the grammar gave no tree: the annotations, unattached,
/// and nothing else.
pub open spec fn lowered_without_tree(
    unit: SourceUnit,
    parse_errors: Seq<ParseError>,
    lowering_errors: Seq<LoweringError>,
    src: Seq<char>,
) -> bool {
    &&& parse_errors == seq![ParseError::TreeSitterFailed]
    &&& unit.source_id == SourceId(0)
    &&& annotations_v(unit.annotations@) == spec_parse_annotations(src).0
    &&& unit.items@.len() == 0
    &&& lowering_errors.len() == 0
}

/// The result of lowering the tree `t` of the file `id` with text `src`.
pub open spec fn lowered_from_tree(
    unit: SourceUnit,
    parse_errors: Seq<ParseError>,
    lowering_errors: Seq<LoweringError>,
    t: SyntaxNode,
    id: SourceId,
    src: Seq<char>,
) -> bool {
    let (items, unattached, errors) = program_s(t, spec_parse_annotations(src).0, encode_utf8(src));
    &&& parse_errors == crate::parse::syntax_errors_s(t)
    &&& unit.source_id == id
    &&& items_v(unit.items@) == items
    &&& annotations_v(unit.annotations@) == unattached
    &&& lowering_errors_v(lowering_errors) == errors
}

/// `r` is the lowering of the text `src` of the file `id`: its annotations
/// are those of the text; where the grammar's tree of the text reads out, its
/// program is the lowering of that tree, else the annotations alone with a
/// `TreeSitterFailed` error.
pub open spec fn lowering_of(r: LowerResult, id: SourceId, src: Seq<char>) -> bool {
    &&& r.source_text@ == src
    &&& annotation_errors_v(r.annotation_errors@) == spec_parse_annotations(src).1
    &&& if grammar_tree_ok(src) {
        exists|t: SyntaxNode|
            node_wf(t, src) && is_grammar_tree(t, src) && #[trigger] lowered_from_tree(
                r.source_unit,
                r.parse_errors@,
                r.lowering_errors@,
                t,
                id,
                src,
            )
    } else {
        lowered_without_tree(r.source_unit, r.parse_errors@, r.lowering_errors@, src)
    }
}

/// Parses a source file with the Bash grammar, reads its annotations and
/// lowers the grammar's tree to the HIR.
pub fn parse_and_lower(source: SourceFile) -> (r: LowerResult)
    requires
        utf8_len_seq(source.source@) <= u32::MAX,
        lines_ok(source.source@),
    ensures
        lowering_of(r, source.id, source.source@),
{
    let (annotations, annotation_errors) = parse_annotations(&source);
    let saved = copy_string(&source.source);
    let id = source.id;
    let ghost src = source.source@;
    let mut session = ParseSession::new();
    let parsed = match session.parse(source) {
        Ok(p) => p,
        Err(e) => {
            let r = LowerResult {
                source_unit: SourceUnit { source_id: SourceId(0), annotations, items: Vec::new() },
                parse_errors: vec![e],
                annotation_errors,
                lowering_errors: Vec::new(),
                source_text: saved,
            };
            assert(r.parse_errors@ =~= seq![ParseError::TreeSitterFailed]);
            return r;
        },
    };
    let parse_errors = parsed.collect_errors();
    let (items, unattached, lowering_errors) = lower_parsed(&parsed, annotations);
    let r = LowerResult {
        source_unit: SourceUnit { source_id: parsed.source.id, annotations: unattached, items },
        parse_errors,
        annotation_errors,
        lowering_errors,
        source_text: saved,
    };
    assert(lowered_from_tree(r.source_unit, r.parse_errors@, r.lowering_errors@, parsed.tree, id, src));
    r
}

} // verus!
