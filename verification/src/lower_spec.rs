//! What lowering the concrete syntax tree to the HIR gives, node by node.
//!
//! Lowering threads a state through the tree: the next node id to hand out,
//! and the list of constructs that could not be lowered.
use vstd::prelude::*;
use crate::hir::{
    CaseArmV, DeclKind, ListElementV, ListOperator, NodeId, ParamOperator, RedirectV, SegmentV,
    StatementV, SubscriptV, WordV, segs_have_expansions, word_literal,
};
use crate::span::Span;
use crate::syntax::SyntaxNode;

verus! {

pub struct LoweringErrorV {
    pub kind: Seq<char>,
    pub span: Span,
}

/// The state that lowering threads through the tree.
pub struct LState {
    pub next_id: nat,
    pub errors: Seq<LoweringErrorV>,
}

pub open spec fn span_of(n: SyntaxNode) -> Span {
    Span { start: n.start_byte as u32, end: n.end_byte as u32 }
}

pub open spec fn kid(n: SyntaxNode, i: int) -> SyntaxNode {
    n.children@[i]
}

pub open spec fn nkids(n: SyntaxNode) -> int {
    n.children@.len() as int
}

/// A fresh node id, and the state after handing it out.
pub open spec fn fresh_id(st: LState) -> (NodeId, LState) {
    (NodeId(st.next_id as u32), LState { next_id: st.next_id + 1, errors: st.errors })
}

pub open spec fn lit_word(span: Span, t: Seq<char>) -> WordV {
    WordV { span, segments: seq![SegmentV::Literal(t)] }
}

/// The sets of child kinds that the lowering of a list of children skips.
#[derive(Clone, Copy)]
pub enum Skip {
    Compound,
    Subshell,
    Else,
    DoGroup,
    Pipe,
    Negation,
    CommandSub,
    ArrayParens,
    Unset,
}

pub open spec fn skipped(set: Skip, k: Seq<char>) -> bool {
    match set {
        Skip::Compound => k == "{"@ || k == "}"@ || k == ";"@ || k == "\n"@ || k == "comment"@,
        Skip::Subshell => k == "("@ || k == ")"@ || k == ";"@ || k == "\n"@,
        Skip::Else => k == "else"@ || k == ";"@ || k == "\n"@,
        Skip::DoGroup => k == "do"@ || k == "done"@ || k == ";"@ || k == "\n"@,
        Skip::Pipe => k == "|"@ || k == "|&"@,
        Skip::Negation => k == "!"@,
        Skip::CommandSub => k == "$("@ || k == ")"@ || k == "`"@,
        Skip::ArrayParens => k == "("@ || k == ")"@,
        Skip::Unset => k == "unset"@,
    }
}

pub open spec fn is_redirect_kind(k: Seq<char>) -> bool {
    k == "file_redirect"@ || k == "heredoc_redirect"@
}

pub open spec fn is_redirect_op(k: Seq<char>) -> bool {
    k == ">"@ || k == ">>"@ || k == "<"@ || k == "<<"@ || k == "&>"@ || k == "&>>"@ || k == "2>"@
        || k == "2>>"@
}

pub open spec fn is_test_op(k: Seq<char>, binary: bool) -> bool {
    k == "test_operator"@ || (binary && (k == "=="@ || k == "!="@ || k == "=~"@ || k == "<"@ || k == ">"@))
}

/// A word that names the `source` builtin or its `.` spelling.
pub open spec fn is_source_name(w: WordV) -> bool {
    word_literal(w) == Some("source"@) || word_literal(w) == Some("."@)
}

/// `'text'` without its quotes.
pub open spec fn strip_quotes(t: Seq<char>) -> Seq<char> {
    if t.len() >= 2 && t[0] == '\'' && t.last() == '\'' {
        t.subrange(1, t.len() - 1)
    } else {
        t
    }
}

/// `$((expr))` without its delimiters.
pub open spec fn strip_arith(t: Seq<char>) -> Seq<char> {
    if t.len() >= 5 && t[0] == '$' && t[1] == '(' && t[2] == '(' && t[t.len() - 2] == ')' && t[t.len()
        - 1] == ')' {
        t.subrange(3, t.len() - 2)
    } else {
        t
    }
}

pub open spec fn is_brace(c: char) -> bool {
    c == '{' || c == '}'
}

pub open spec fn not_brace() -> spec_fn(char) -> bool {
    |c: char| !is_brace(c)
}

/// The text with every `{` and `}` taken off both its ends.
pub open spec fn trim_braces(t: Seq<char>) -> Seq<char> {
    match crate::text::find_pred(t, not_brace()) {
        Some(i) => match crate::text::rfind_pred(t, not_brace()) {
            Some(j) => t.subrange(i, j + 1),
            None => Seq::empty(),
        },
        None => Seq::empty(),
    }
}

/// The text of the first `variable_name` or `special_variable_name` child from `i` on.
pub open spec fn kid_name(n: SyntaxNode, i: int) -> Option<Seq<char>>
    decreases nkids(n) - i,
{
    if i < 0 || i >= nkids(n) {
        None
    } else if kid(n, i).kind@ == "variable_name"@ || kid(n, i).kind@ == "special_variable_name"@ {
        Some(kid(n, i).text@)
    } else {
        kid_name(n, i + 1)
    }
}

/// The name in `$x`.
pub open spec fn expansion_name_s(n: SyntaxNode) -> Seq<char> {
    match kid_name(n, 0) {
        Some(t) => t,
        None => {
            let t = n.text@;
            let u = if t.len() > 0 && t[0] == '$' { t.drop_first() } else { t };
            trim_braces(u)
        },
    }
}

/// Whether a child from `i` on is a `subscript`.
pub open spec fn has_subscript_from(n: SyntaxNode, i: int) -> bool
    decreases nkids(n) - i,
{
    if i < 0 || i >= nkids(n) {
        false
    } else {
        kid(n, i).kind@ == "subscript"@ || has_subscript_from(n, i + 1)
    }
}

pub open spec fn classify_subscript(t: Seq<char>) -> SubscriptV {
    if t == "@"@ {
        SubscriptV::At
    } else if t == "*"@ {
        SubscriptV::Star
    } else {
        SubscriptV::Index(t)
    }
}

/// The name and subscript that the children of a `subscript` node from `j` on give.
pub open spec fn subscript_loop(c: SyntaxNode, j: int, name: Seq<char>, sub: SubscriptV) -> (Seq<char>, SubscriptV)
    decreases nkids(c) - j,
{
    if j < 0 || j >= nkids(c) {
        (name, sub)
    } else {
        let d = kid(c, j);
        if d.kind@ == "variable_name"@ {
            subscript_loop(c, j + 1, d.text@, sub)
        } else if d.kind@ == "["@ || d.kind@ == "]"@ {
            subscript_loop(c, j + 1, name, sub)
        } else {
            subscript_loop(c, j + 1, name, classify_subscript(d.text@))
        }
    }
}

pub open spec fn array_expansion_loop(n: SyntaxNode, i: int, name: Seq<char>, sub: SubscriptV) -> (Seq<char>, SubscriptV)
    decreases nkids(n) - i,
{
    if i < 0 || i >= nkids(n) {
        (name, sub)
    } else if kid(n, i).kind@ == "subscript"@ {
        let (nm, sb) = subscript_loop(kid(n, i), 0, name, sub);
        array_expansion_loop(n, i + 1, nm, sb)
    } else {
        array_expansion_loop(n, i + 1, name, sub)
    }
}

/// `${arr[@]}` and the like.
pub open spec fn array_expansion_s(n: SyntaxNode) -> SegmentV {
    let (name, sub) = array_expansion_loop(n, 0, Seq::empty(), SubscriptV::At);
    SegmentV::ArrayExpand { span: span_of(n), name, subscript: sub }
}

// ---------------------------------------------------------------------------
// Accumulators of the loops over children
// ---------------------------------------------------------------------------

pub struct CmdAcc {
    pub name: Option<WordV>,
    pub args: Seq<WordV>,
    pub redirects: Seq<RedirectV>,
    pub st: LState,
}

pub struct RedirAcc {
    pub fd: Option<Seq<char>>,
    pub op: Seq<char>,
    pub target: WordV,
    pub st: LState,
}

pub struct AssignAcc {
    pub name: Seq<char>,
    pub value: Option<WordV>,
    pub array_value: Option<Seq<WordV>>,
    pub st: LState,
}

pub struct DeclAcc {
    pub decl_kind: Option<DeclKind>,
    pub flags: Seq<Seq<char>>,
    pub a: AssignAcc,
}

pub struct IfAcc {
    pub cond: Seq<StatementV>,
    pub then_body: Seq<StatementV>,
    pub else_body: Option<Seq<StatementV>>,
    pub in_cond: bool,
    pub in_then: bool,
    pub st: LState,
}

pub struct ForAcc {
    pub variable: Seq<char>,
    pub items: Seq<WordV>,
    pub body: Seq<StatementV>,
    pub in_items: bool,
    pub st: LState,
}

pub struct WhileAcc {
    pub cond: Seq<StatementV>,
    pub body: Seq<StatementV>,
    pub in_cond: bool,
    pub st: LState,
}

pub struct CaseAcc {
    pub subject: WordV,
    pub arms: Seq<CaseArmV>,
    pub st: LState,
}

pub struct ArmAcc {
    pub patterns: Seq<WordV>,
    pub body: Seq<StatementV>,
    pub past: bool,
    pub st: LState,
}

pub struct ListAcc {
    pub elements: Seq<ListElementV>,
    pub pending: Option<ListOperator>,
    pub st: LState,
}

pub struct RedirectedAcc {
    pub inner: Option<StatementV>,
    pub redirects: Seq<RedirectV>,
    pub st: LState,
}

pub struct ExpAcc {
    pub name: Seq<char>,
    pub operator: Option<ParamOperator>,
    pub operand: Option<WordV>,
    pub st: LState,
}

/// The element list after a `&&`, `||` or `;` that comes before a new element.
pub open spec fn attach_pending(els: Seq<ListElementV>, pending: Option<ListOperator>) -> Seq<ListElementV> {
    match pending {
        Some(op) => if els.len() > 0 {
            els.update(els.len() - 1, ListElementV { statement: els.last().statement, operator: Some(op) })
        } else {
            els
        },
        None => els,
    }
}

pub open spec fn with_redirects(s: StatementV, extra: Seq<RedirectV>) -> StatementV {
    match s {
        StatementV::Command { id, span, name, args, redirects } => StatementV::Command {
            id,
            span,
            name,
            args,
            redirects: redirects + extra,
        },
        other => other,
    }
}

// ---------------------------------------------------------------------------
// The lowering
// ---------------------------------------------------------------------------

/// The children of `n` from `i` on, lowered as statements, except those of the kinds in `set`.
pub open spec fn stmts_except_s(n: SyntaxNode, i: int, set: Skip, acc: Seq<StatementV>, st: LState) -> (Seq<StatementV>, LState)
    decreases n, nkids(n) - i,
{
    if i < 0 || i >= nkids(n) {
        (acc, st)
    } else if skipped(set, kid(n, i).kind@) {
        stmts_except_s(n, i + 1, set, acc, st)
    } else {
        let (s, st2) = stmt_s(kid(n, i), st);
        stmts_except_s(n, i + 1, set, acc.push(s), st2)
    }
}

/// The children of `n` from `i` on, lowered as words, except those of the kinds in `set`.
pub open spec fn words_except_s(n: SyntaxNode, i: int, set: Skip, acc: Seq<WordV>, st: LState) -> (Seq<WordV>, LState)
    decreases n, nkids(n) - i,
{
    if i < 0 || i >= nkids(n) {
        (acc, st)
    } else if skipped(set, kid(n, i).kind@) {
        words_except_s(n, i + 1, set, acc, st)
    } else {
        let (w, st2) = word_s(kid(n, i), st);
        words_except_s(n, i + 1, set, acc.push(w), st2)
    }
}

/// A statement node.
pub open spec fn stmt_s(n: SyntaxNode, st: LState) -> (StatementV, LState)
    decreases n, nkids(n) + 20,
{
    let k = n.kind@;
    let span = span_of(n);
    if k == "command"@ {
        command_s(n, st)
    } else if k == "variable_assignment"@ {
        var_assign_s(n, st)
    } else if k == "declaration_command"@ {
        decl_s(n, st)
    } else if k == "pipeline"@ {
        let (id, s1) = fresh_id(st);
        let (cmds, s2) = stmts_except_s(n, 0, Skip::Pipe, Seq::empty(), s1);
        (StatementV::Pipeline { id, span, commands: cmds, negated: false }, s2)
    } else if k == "if_statement"@ {
        if_s(n, st, false)
    } else if k == "for_statement"@ {
        for_s(n, st)
    } else if k == "while_statement"@ {
        while_s(n, st)
    } else if k == "case_statement"@ {
        case_s(n, st)
    } else if k == "compound_statement"@ {
        let (id, s1) = fresh_id(st);
        let (body, s2) = stmts_except_s(n, 0, Skip::Compound, Seq::empty(), s1);
        (StatementV::Block { id, span, body, subshell: false }, s2)
    } else if k == "list"@ {
        list_s(n, st)
    } else if k == "subshell"@ {
        let (id, s1) = fresh_id(st);
        let (body, s2) = stmts_except_s(n, 0, Skip::Subshell, Seq::empty(), s1);
        (StatementV::Block { id, span, body, subshell: true }, s2)
    } else if k == "redirected_statement"@ {
        redirected_s(n, st)
    } else if k == "negated_command"@ {
        let (id, s1) = fresh_id(st);
        let (cmds, s2) = stmts_except_s(n, 0, Skip::Negation, Seq::empty(), s1);
        (StatementV::Pipeline { id, span, commands: cmds, negated: true }, s2)
    } else if k == "test_command"@ {
        test_s(n, st)
    } else if k == "unset_command"@ {
        let (id, s1) = fresh_id(st);
        let (args, s2) = words_except_s(n, 0, Skip::Unset, Seq::empty(), s1);
        (StatementV::Command { id, span, name: lit_word(span, "unset"@), args, redirects: Seq::empty() }, s2)
    } else {
        let (id, s1) = fresh_id(st);
        (
            StatementV::Unmodeled { id, span, kind: k, text: n.text@ },
            LState { next_id: s1.next_id, errors: s1.errors.push(LoweringErrorV { kind: k, span }) },
        )
    }
}

pub open spec fn command_loop_s(n: SyntaxNode, i: int, acc: CmdAcc) -> CmdAcc
    decreases n, nkids(n) - i,
{
    if i < 0 || i >= nkids(n) {
        acc
    } else {
        let c = kid(n, i);
        let next = if c.kind@ == "command_name"@ {
            let inner = if c.children@.len() > 0 { c.children@[0] } else { c };
            let (w, s) = word_s(inner, acc.st);
            CmdAcc { name: Some(w), st: s, ..acc }
        } else if is_redirect_kind(c.kind@) {
            let (r, s) = redirect_s(c, acc.st);
            CmdAcc { redirects: acc.redirects.push(r), st: s, ..acc }
        } else if acc.name is Some {
            let (w, s) = word_s(c, acc.st);
            CmdAcc { args: acc.args.push(w), st: s, ..acc }
        } else {
            acc
        };
        command_loop_s(n, i + 1, next)
    }
}

/// A simple command; `source path` and `. path` become a `SourceCommand`.
pub open spec fn command_s(n: SyntaxNode, st: LState) -> (StatementV, LState)
    decreases n, nkids(n) + 10,
{
    let span = span_of(n);
    let (id, s1) = fresh_id(st);
    let acc = command_loop_s(n, 0, CmdAcc { name: None, args: Seq::empty(), redirects: Seq::empty(), st: s1 });
    let name = match acc.name {
        Some(w) => w,
        None => lit_word(span, n.text@),
    };
    if is_source_name(name) && acc.args.len() > 0 {
        (
            StatementV::SourceCommand {
                id,
                span,
                path: acc.args[0],
                dynamic: segs_have_expansions(acc.args[0].segments),
            },
            acc.st,
        )
    } else {
        (StatementV::Command { id, span, name, args: acc.args, redirects: acc.redirects }, acc.st)
    }
}

pub open spec fn redirect_loop_s(n: SyntaxNode, i: int, acc: RedirAcc) -> RedirAcc
    decreases n, nkids(n) - i,
{
    if i < 0 || i >= nkids(n) {
        acc
    } else {
        let c = kid(n, i);
        let next = if c.kind@ == "file_descriptor"@ {
            RedirAcc { fd: Some(c.text@), ..acc }
        } else if is_redirect_op(c.kind@) {
            RedirAcc { op: c.text@, ..acc }
        } else {
            let (w, s) = word_s(c, acc.st);
            RedirAcc { target: w, st: s, ..acc }
        };
        redirect_loop_s(n, i + 1, next)
    }
}

pub open spec fn redirect_s(n: SyntaxNode, st: LState) -> (RedirectV, LState)
    decreases n, nkids(n) + 10,
{
    let span = span_of(n);
    let acc = redirect_loop_s(n, 0, RedirAcc { fd: None, op: Seq::empty(), target: WordV { span, segments: Seq::empty() }, st });
    let op = if acc.op.len() == 0 { n.text@ } else { acc.op };
    (RedirectV { span, fd: acc.fd, op, target: acc.target }, acc.st)
}

/// The children of an assignment from `i` on: its name, `=`, and a word or an array.
pub open spec fn assign_loop_s(n: SyntaxNode, i: int, acc: AssignAcc) -> AssignAcc
    decreases n, nkids(n) - i,
{
    if i < 0 || i >= nkids(n) {
        acc
    } else {
        let c = kid(n, i);
        let next = if c.kind@ == "variable_name"@ {
            AssignAcc { name: c.text@, ..acc }
        } else if c.kind@ == "="@ {
            acc
        } else if c.kind@ == "array"@ {
            let (ws, s) = words_except_s(c, 0, Skip::ArrayParens, Seq::empty(), acc.st);
            AssignAcc { array_value: Some(ws), st: s, ..acc }
        } else {
            let (w, s) = word_s(c, acc.st);
            AssignAcc { value: Some(w), st: s, ..acc }
        };
        assign_loop_s(n, i + 1, next)
    }
}

pub open spec fn var_assign_s(n: SyntaxNode, st: LState) -> (StatementV, LState)
    decreases n, nkids(n) + 10,
{
    let (id, s1) = fresh_id(st);
    let acc = assign_loop_s(n, 0, AssignAcc { name: Seq::empty(), value: None, array_value: None, st: s1 });
    (
        StatementV::Assignment {
            id,
            span: span_of(n),
            name: acc.name,
            value: acc.value,
            decl_kind: None,
            flags: Seq::empty(),
            array_value: acc.array_value,
        },
        acc.st,
    )
}

pub open spec fn decl_loop_s(n: SyntaxNode, i: int, acc: DeclAcc) -> DeclAcc
    decreases n, nkids(n) - i,
{
    if i < 0 || i >= nkids(n) {
        acc
    } else {
        let c = kid(n, i);
        let k = c.kind@;
        let t = c.text@;
        let next = if k == "local"@ {
            DeclAcc { decl_kind: Some(DeclKind::Local), ..acc }
        } else if k == "declare"@ {
            DeclAcc { decl_kind: Some(DeclKind::Declare), ..acc }
        } else if k == "export"@ {
            DeclAcc { decl_kind: Some(DeclKind::Export), ..acc }
        } else if k == "readonly"@ {
            DeclAcc { decl_kind: Some(DeclKind::Readonly), ..acc }
        } else if k == "word"@ {
            if t.len() > 0 && t[0] == '-' {
                DeclAcc { flags: acc.flags.push(t), ..acc }
            } else if acc.a.name.len() == 0 {
                DeclAcc { a: AssignAcc { name: t, ..acc.a }, ..acc }
            } else {
                acc
            }
        } else if k == "variable_name"@ {
            DeclAcc { a: AssignAcc { name: t, ..acc.a }, ..acc }
        } else if k == "variable_assignment"@ {
            DeclAcc { a: assign_loop_s(c, 0, acc.a), ..acc }
        } else {
            acc
        };
        decl_loop_s(n, i + 1, next)
    }
}

/// `local`, `declare`, `export` and `readonly`.
pub open spec fn decl_s(n: SyntaxNode, st: LState) -> (StatementV, LState)
    decreases n, nkids(n) + 10,
{
    let (id, s1) = fresh_id(st);
    let acc = decl_loop_s(
        n,
        0,
        DeclAcc {
            decl_kind: None,
            flags: Seq::empty(),
            a: AssignAcc { name: Seq::empty(), value: None, array_value: None, st: s1 },
        },
    );
    (
        StatementV::Assignment {
            id,
            span: span_of(n),
            name: acc.a.name,
            value: acc.a.value,
            decl_kind: acc.decl_kind,
            flags: acc.flags,
            array_value: acc.a.array_value,
        },
        acc.a.st,
    )
}

/// The children of an `if` statement, or of an `elif` clause, from `i` on.
pub open spec fn if_loop_s(n: SyntaxNode, i: int, elif: bool, acc: IfAcc) -> IfAcc
    decreases n, nkids(n) - i,
{
    if i < 0 || i >= nkids(n) {
        acc
    } else {
        let c = kid(n, i);
        let k = c.kind@;
        let next = if (!elif && k == "if"@) || (elif && k == "elif"@) {
            IfAcc { in_cond: true, ..acc }
        } else if k == "then"@ {
            IfAcc { in_cond: false, in_then: true, ..acc }
        } else if k == "else_clause"@ {
            let (b, s) = stmts_except_s(c, 0, Skip::Else, Seq::empty(), acc.st);
            IfAcc { in_then: false, else_body: Some(b), st: s, ..acc }
        } else if k == "elif_clause"@ {
            let (e, s) = if_s(c, acc.st, true);
            IfAcc { in_then: false, else_body: Some(seq![e]), st: s, ..acc }
        } else if (!elif && k == "fi"@) || k == ";"@ || k == "\n"@ {
            acc
        } else if acc.in_cond {
            let (s1, s) = stmt_s(c, acc.st);
            IfAcc { cond: acc.cond.push(s1), st: s, ..acc }
        } else if acc.in_then {
            let (s1, s) = stmt_s(c, acc.st);
            IfAcc { then_body: acc.then_body.push(s1), st: s, ..acc }
        } else {
            acc
        };
        if_loop_s(n, i + 1, elif, next)
    }
}

pub open spec fn if_s(n: SyntaxNode, st: LState, elif: bool) -> (StatementV, LState)
    decreases n, nkids(n) + 10,
{
    let (id, s1) = fresh_id(st);
    let acc = if_loop_s(
        n,
        0,
        elif,
        IfAcc { cond: Seq::empty(), then_body: Seq::empty(), else_body: None, in_cond: false, in_then: false, st: s1 },
    );
    (
        StatementV::If {
            id,
            span: span_of(n),
            condition: acc.cond,
            then_body: acc.then_body,
            else_body: acc.else_body,
        },
        acc.st,
    )
}

pub open spec fn for_loop_s(n: SyntaxNode, i: int, acc: ForAcc) -> ForAcc
    decreases n, nkids(n) - i,
{
    if i < 0 || i >= nkids(n) {
        acc
    } else {
        let c = kid(n, i);
        let k = c.kind@;
        let next = if k == "for"@ {
            acc
        } else if k == "variable_name"@ {
            ForAcc { variable: c.text@, ..acc }
        } else if k == "in"@ {
            ForAcc { in_items: true, ..acc }
        } else if k == "do_group"@ {
            let (b, s) = stmts_except_s(c, 0, Skip::DoGroup, Seq::empty(), acc.st);
            ForAcc { in_items: false, body: b, st: s, ..acc }
        } else if k == ";"@ || k == "\n"@ {
            acc
        } else if acc.in_items {
            let (w, s) = word_s(c, acc.st);
            ForAcc { items: acc.items.push(w), st: s, ..acc }
        } else {
            acc
        };
        for_loop_s(n, i + 1, next)
    }
}

pub open spec fn for_s(n: SyntaxNode, st: LState) -> (StatementV, LState)
    decreases n, nkids(n) + 10,
{
    let (id, s1) = fresh_id(st);
    let acc = for_loop_s(n, 0, ForAcc { variable: Seq::empty(), items: Seq::empty(), body: Seq::empty(), in_items: false, st: s1 });
    (
        StatementV::For { id, span: span_of(n), variable: acc.variable, items: acc.items, body: acc.body },
        acc.st,
    )
}

pub open spec fn while_loop_s(n: SyntaxNode, i: int, acc: WhileAcc) -> WhileAcc
    decreases n, nkids(n) - i,
{
    if i < 0 || i >= nkids(n) {
        acc
    } else {
        let c = kid(n, i);
        let k = c.kind@;
        let next = if k == "while"@ || k == "until"@ {
            WhileAcc { in_cond: true, ..acc }
        } else if k == "do_group"@ {
            let (b, s) = stmts_except_s(c, 0, Skip::DoGroup, Seq::empty(), acc.st);
            WhileAcc { in_cond: false, body: b, st: s, ..acc }
        } else if k == ";"@ || k == "\n"@ {
            acc
        } else if acc.in_cond {
            let (s1, s) = stmt_s(c, acc.st);
            WhileAcc { cond: acc.cond.push(s1), st: s, ..acc }
        } else {
            acc
        };
        while_loop_s(n, i + 1, next)
    }
}

pub open spec fn while_s(n: SyntaxNode, st: LState) -> (StatementV, LState)
    decreases n, nkids(n) + 10,
{
    let (id, s1) = fresh_id(st);
    let acc = while_loop_s(n, 0, WhileAcc { cond: Seq::empty(), body: Seq::empty(), in_cond: false, st: s1 });
    (StatementV::While { id, span: span_of(n), condition: acc.cond, body: acc.body }, acc.st)
}

pub open spec fn arm_loop_s(n: SyntaxNode, i: int, acc: ArmAcc) -> ArmAcc
    decreases n, nkids(n) - i,
{
    if i < 0 || i >= nkids(n) {
        acc
    } else {
        let c = kid(n, i);
        let k = c.kind@;
        let next = if k == ")"@ {
            ArmAcc { past: true, ..acc }
        } else if k == ";;"@ || k == ";&"@ || k == ";;&"@ || k == "("@ {
            acc
        } else if acc.past {
            let (s1, s) = stmt_s(c, acc.st);
            ArmAcc { body: acc.body.push(s1), st: s, ..acc }
        } else {
            let (w, s) = word_s(c, acc.st);
            ArmAcc { patterns: acc.patterns.push(w), st: s, ..acc }
        };
        arm_loop_s(n, i + 1, next)
    }
}

pub open spec fn arm_s(n: SyntaxNode, st: LState) -> (CaseArmV, LState)
    decreases n, nkids(n) + 10,
{
    let acc = arm_loop_s(n, 0, ArmAcc { patterns: Seq::empty(), body: Seq::empty(), past: false, st });
    (CaseArmV { span: span_of(n), patterns: acc.patterns, body: acc.body }, acc.st)
}

pub open spec fn case_loop_s(n: SyntaxNode, i: int, acc: CaseAcc) -> CaseAcc
    decreases n, nkids(n) - i,
{
    if i < 0 || i >= nkids(n) {
        acc
    } else {
        let c = kid(n, i);
        let k = c.kind@;
        let next = if k == "case"@ || k == "in"@ || k == "esac"@ || k == ";"@ || k == "\n"@ {
            acc
        } else if k == "case_item"@ {
            let (a, s) = arm_s(c, acc.st);
            CaseAcc { arms: acc.arms.push(a), st: s, ..acc }
        } else if acc.subject.segments.len() == 0 {
            let (w, s) = word_s(c, acc.st);
            CaseAcc { subject: w, st: s, ..acc }
        } else {
            acc
        };
        case_loop_s(n, i + 1, next)
    }
}

pub open spec fn case_s(n: SyntaxNode, st: LState) -> (StatementV, LState)
    decreases n, nkids(n) + 10,
{
    let span = span_of(n);
    let (id, s1) = fresh_id(st);
    let acc = case_loop_s(n, 0, CaseAcc { subject: WordV { span, segments: Seq::empty() }, arms: Seq::empty(), st: s1 });
    (StatementV::Case { id, span, subject: acc.subject, arms: acc.arms }, acc.st)
}

pub open spec fn list_loop_s(n: SyntaxNode, i: int, acc: ListAcc) -> ListAcc
    decreases n, nkids(n) - i,
{
    if i < 0 || i >= nkids(n) {
        acc
    } else {
        let c = kid(n, i);
        let k = c.kind@;
        let next = if k == "&&"@ {
            ListAcc { pending: Some(ListOperator::And), ..acc }
        } else if k == "||"@ {
            ListAcc { pending: Some(ListOperator::Or), ..acc }
        } else if k == ";"@ {
            ListAcc { pending: Some(ListOperator::Semi), ..acc }
        } else if k == "\n"@ {
            acc
        } else {
            let (s1, s) = stmt_s(c, acc.st);
            ListAcc {
                elements: attach_pending(acc.elements, acc.pending).push(ListElementV { statement: s1, operator: None }),
                pending: None,
                st: s,
            }
        };
        list_loop_s(n, i + 1, next)
    }
}

pub open spec fn list_s(n: SyntaxNode, st: LState) -> (StatementV, LState)
    decreases n, nkids(n) + 10,
{
    let (id, s1) = fresh_id(st);
    let acc = list_loop_s(n, 0, ListAcc { elements: Seq::empty(), pending: None, st: s1 });
    (StatementV::List { id, span: span_of(n), elements: acc.elements }, acc.st)
}

pub open spec fn redirected_loop_s(n: SyntaxNode, i: int, acc: RedirectedAcc) -> RedirectedAcc
    decreases n, nkids(n) - i,
{
    if i < 0 || i >= nkids(n) {
        acc
    } else {
        let c = kid(n, i);
        let next = if is_redirect_kind(c.kind@) {
            let (r, s) = redirect_s(c, acc.st);
            RedirectedAcc { redirects: acc.redirects.push(r), st: s, ..acc }
        } else {
            let (s1, s) = stmt_s(c, acc.st);
            RedirectedAcc { inner: Some(s1), st: s, ..acc }
        };
        redirected_loop_s(n, i + 1, next)
    }
}

/// A statement with redirections, which a command takes over.
pub open spec fn redirected_s(n: SyntaxNode, st: LState) -> (StatementV, LState)
    decreases n, nkids(n) + 10,
{
    let acc = redirected_loop_s(n, 0, RedirectedAcc { inner: None, redirects: Seq::empty(), st });
    let (s, st2) = match acc.inner {
        Some(s) => (s, acc.st),
        None => {
            let (id, s2) = fresh_id(acc.st);
            (StatementV::Unmodeled { id, span: span_of(n), kind: "empty_redirected"@, text: n.text@ }, s2)
        },
    };
    (with_redirects(s, acc.redirects), st2)
}

/// The children of a unary or binary test expression from `j` on.
pub open spec fn test_args_loop_s(c: SyntaxNode, j: int, binary: bool, acc: Seq<WordV>, st: LState) -> (Seq<WordV>, LState)
    decreases c, nkids(c) - j,
{
    if j < 0 || j >= nkids(c) {
        (acc, st)
    } else {
        let d = kid(c, j);
        if is_test_op(d.kind@, binary) {
            test_args_loop_s(c, j + 1, binary, acc.push(lit_word(span_of(d), d.text@)), st)
        } else {
            let (w, s) = word_s(d, st);
            test_args_loop_s(c, j + 1, binary, acc.push(w), s)
        }
    }
}

/// The words of one expression inside `[[ ... ]]`.
pub open spec fn test_args_s(c: SyntaxNode, st: LState) -> (Seq<WordV>, LState)
    decreases c, nkids(c) + 40,
{
    if c.kind@ == "unary_expression"@ {
        test_args_loop_s(c, 0, false, Seq::empty(), st)
    } else if c.kind@ == "binary_expression"@ {
        test_args_loop_s(c, 0, true, Seq::empty(), st)
    } else {
        let (w, s) = word_s(c, st);
        (seq![w], s)
    }
}

pub open spec fn test_loop_s(n: SyntaxNode, i: int, acc: Seq<WordV>, st: LState) -> (Seq<WordV>, LState)
    decreases n, nkids(n) - i,
{
    if i < 0 || i >= nkids(n) {
        (acc, st)
    } else {
        let k = kid(n, i).kind@;
        if k == "[["@ || k == "]]"@ || k == "["@ || k == "]"@ {
            test_loop_s(n, i + 1, acc, st)
        } else {
            let (ws, s) = test_args_s(kid(n, i), st);
            test_loop_s(n, i + 1, acc + ws, s)
        }
    }
}

/// `[[ ... ]]` and `[ ... ]`, as a command named `[[`.
pub open spec fn test_s(n: SyntaxNode, st: LState) -> (StatementV, LState)
    decreases n, nkids(n) + 10,
{
    let span = span_of(n);
    let (id, s1) = fresh_id(st);
    let (args, s2) = test_loop_s(n, 0, Seq::empty(), s1);
    (StatementV::Command { id, span, name: lit_word(span, "[["@), args, redirects: Seq::empty() }, s2)
}

/// A word node.
pub open spec fn word_s(n: SyntaxNode, st: LState) -> (WordV, LState)
    decreases n, nkids(n) + 30,
{
    let (segs, s) = segs_s(n, st);
    (WordV { span: span_of(n), segments: segs }, s)
}

pub open spec fn string_loop_s(n: SyntaxNode, i: int, acc: Seq<SegmentV>, st: LState) -> (Seq<SegmentV>, LState)
    decreases n, nkids(n) - i,
{
    if i < 0 || i >= nkids(n) {
        (acc, st)
    } else {
        let c = kid(n, i);
        let k = c.kind@;
        if k == "\""@ || k == "$\""@ {
            string_loop_s(n, i + 1, acc, st)
        } else if k == "string_content"@ {
            string_loop_s(n, i + 1, acc.push(SegmentV::Literal(c.text@)), st)
        } else {
            let (ss, s) = segs_s(c, st);
            string_loop_s(n, i + 1, acc + ss, s)
        }
    }
}

pub open spec fn concat_loop_s(n: SyntaxNode, i: int, acc: Seq<SegmentV>, st: LState) -> (Seq<SegmentV>, LState)
    decreases n, nkids(n) - i,
{
    if i < 0 || i >= nkids(n) {
        (acc, st)
    } else {
        let (ss, s) = segs_s(kid(n, i), st);
        concat_loop_s(n, i + 1, acc + ss, s)
    }
}

/// The segments of a word node.
pub open spec fn segs_s(n: SyntaxNode, st: LState) -> (Seq<SegmentV>, LState)
    decreases n, nkids(n) + 25,
{
    let k = n.kind@;
    let t = n.text@;
    let span = span_of(n);
    if k == "word"@ || k == "number"@ {
        (seq![SegmentV::Literal(t)], st)
    } else if k == "raw_string"@ {
        (seq![SegmentV::SingleQuoted(strip_quotes(t))], st)
    } else if k == "string"@ || k == "translated_string"@ {
        let (segs, s) = string_loop_s(n, 0, Seq::empty(), st);
        (seq![SegmentV::DoubleQuoted(segs)], s)
    } else if k == "simple_expansion"@ {
        (seq![SegmentV::ParamExpand { span, name: expansion_name_s(n), operator: None, operand: None }], st)
    } else if k == "expansion"@ {
        expansion_s(n, st)
    } else if k == "command_substitution"@ {
        let (body, s) = stmts_except_s(n, 0, Skip::CommandSub, Seq::empty(), st);
        (seq![SegmentV::CommandSub { span, body }], s)
    } else if k == "arithmetic_expansion"@ {
        (seq![SegmentV::ArithExpand { span, expression: strip_arith(t) }], st)
    } else if k == "concatenation"@ {
        concat_loop_s(n, 0, Seq::empty(), st)
    } else {
        (seq![SegmentV::Literal(t)], st)
    }
}

pub open spec fn expansion_loop_s(n: SyntaxNode, i: int, acc: ExpAcc) -> ExpAcc
    decreases n, nkids(n) - i,
{
    if i < 0 || i >= nkids(n) {
        acc
    } else {
        let c = kid(n, i);
        let k = c.kind@;
        let next = if k == "${"@ || k == "}"@ || k == "$"@ {
            acc
        } else if k == "variable_name"@ || k == "special_variable_name"@ {
            ExpAcc { name: c.text@, ..acc }
        } else if k == "#"@ {
            if acc.name.len() == 0 { ExpAcc { operator: Some(ParamOperator::Length), ..acc } } else { acc }
        } else if k == "!"@ {
            if acc.name.len() == 0 { ExpAcc { operator: Some(ParamOperator::Indirect), ..acc } } else { acc }
        } else if k == ":-"@ {
            ExpAcc { operator: Some(ParamOperator::Default), ..acc }
        } else if k == ":="@ {
            ExpAcc { operator: Some(ParamOperator::Assign), ..acc }
        } else if k == ":?"@ {
            ExpAcc { operator: Some(ParamOperator::Error), ..acc }
        } else if k == ":+"@ {
            ExpAcc { operator: Some(ParamOperator::Alternate), ..acc }
        } else if k == "-"@ {
            if acc.operator is None { ExpAcc { operator: Some(ParamOperator::Default), ..acc } } else { acc }
        } else if k == "="@ {
            if acc.operator is None { ExpAcc { operator: Some(ParamOperator::Assign), ..acc } } else { acc }
        } else if k == "?"@ {
            if acc.operator is None { ExpAcc { operator: Some(ParamOperator::Error), ..acc } } else { acc }
        } else if k == "+"@ {
            if acc.operator is None { ExpAcc { operator: Some(ParamOperator::Alternate), ..acc } } else { acc }
        } else if acc.operator is Some && acc.operand is None {
            let (w, s) = word_s(c, acc.st);
            ExpAcc { operand: Some(w), st: s, ..acc }
        } else if acc.name.len() == 0 {
            ExpAcc { name: c.text@, ..acc }
        } else {
            acc
        };
        expansion_loop_s(n, i + 1, next)
    }
}

/// `${...}`: a parameter expansion with its operator, or an array expansion.
pub open spec fn expansion_s(n: SyntaxNode, st: LState) -> (Seq<SegmentV>, LState)
    decreases n, nkids(n) + 20,
{
    if has_subscript_from(n, 0) {
        (seq![array_expansion_s(n)], st)
    } else {
        let acc = expansion_loop_s(n, 0, ExpAcc { name: Seq::empty(), operator: None, operand: None, st });
        (
            seq![SegmentV::ParamExpand {
                span: span_of(n),
                name: acc.name,
                operator: acc.operator,
                operand: match acc.operand {
                    Some(w) => Some(Box::new(w)),
                    None => None,
                },
            }],
            acc.st,
        )
    }
}

} // verus!

verus! {

/// The number of line breaks among the first `b` bytes.
pub open spec fn newlines_before(bytes: Seq<u8>, b: int) -> nat
    decreases b,
{
    if b <= 0 || b > bytes.len() {
        0
    } else {
        newlines_before(bytes, b - 1) + if bytes[b - 1] == 10u8 { 1nat } else { 0nat }
    }
}

/// The annotations that start on a line before `line`, and the others, in order.
pub open spec fn split_before(p: Seq<crate::annotation::AnnotationV>, bytes: Seq<u8>, line: nat) -> (Seq<crate::annotation::AnnotationV>, Seq<crate::annotation::AnnotationV>)
    decreases p.len(),
{
    if p.len() == 0 {
        (Seq::empty(), Seq::empty())
    } else {
        let (a, r) = split_before(p.drop_last(), bytes, line);
        if newlines_before(bytes, p.last().span.start as int) < line {
            (a.push(p.last()), r)
        } else {
            (a, r.push(p.last()))
        }
    }
}

/// The annotations that start before byte `end`, and the others, in order.
pub open spec fn split_inner(p: Seq<crate::annotation::AnnotationV>, end: int) -> (Seq<crate::annotation::AnnotationV>, Seq<crate::annotation::AnnotationV>)
    decreases p.len(),
{
    if p.len() == 0 {
        (Seq::empty(), Seq::empty())
    } else {
        let (a, r) = split_inner(p.drop_last(), end);
        if (p.last().span.start as int) < end {
            (a.push(p.last()), r)
        } else {
            (a, r.push(p.last()))
        }
    }
}

/// The text of the first child from `i` on that its parent holds as `name`.
pub open spec fn named_field_child(n: SyntaxNode, i: int) -> Option<Seq<char>>
    decreases nkids(n) - i,
{
    if i < 0 || i >= nkids(n) {
        None
    } else if match kid(n, i).field_name {
        Some(f) => f@ == "name"@,
        None => false,
    } {
        Some(kid(n, i).text@)
    } else {
        named_field_child(n, i + 1)
    }
}

/// The text of the first `word` child from `i` on.
pub open spec fn word_child(n: SyntaxNode, i: int) -> Option<Seq<char>>
    decreases nkids(n) - i,
{
    if i < 0 || i >= nkids(n) {
        None
    } else if kid(n, i).kind@ == "word"@ {
        Some(kid(n, i).text@)
    } else {
        word_child(n, i + 1)
    }
}

pub open spec fn function_name_s(n: SyntaxNode) -> Seq<char> {
    match named_field_child(n, 0) {
        Some(t) => t,
        None => match word_child(n, 0) {
            Some(t) => t,
            None => Seq::empty(),
        },
    }
}

/// The body of a function: its last `compound_statement` child, lowered.
pub open spec fn function_body_loop_s(n: SyntaxNode, i: int, body: Seq<StatementV>, st: LState) -> (Seq<StatementV>, LState)
    decreases nkids(n) - i,
{
    if i < 0 || i >= nkids(n) {
        (body, st)
    } else if kid(n, i).kind@ == "compound_statement"@ {
        let (b, s) = stmts_except_s(kid(n, i), 0, Skip::Compound, Seq::empty(), st);
        function_body_loop_s(n, i + 1, b, s)
    } else {
        function_body_loop_s(n, i + 1, body, st)
    }
}

/// The state of the lowering of a whole program: that of its statements, and
/// the annotations not yet attached to a function.
pub struct PState {
    pub l: LState,
    pub pending: Seq<crate::annotation::AnnotationV>,
}

/// A top-level function definition, which takes the annotations that precede
/// it and those inside it.
pub open spec fn function_s(n: SyntaxNode, ps: PState, bytes: Seq<u8>) -> (crate::hir::FunctionV, PState) {
    let (id, l1) = fresh_id(ps.l);
    let (before, rest) = split_before(ps.pending, bytes, newlines_before(bytes, n.start_byte as int));
    let (body, l2) = function_body_loop_s(n, 0, Seq::empty(), l1);
    let (inner, rest2) = split_inner(rest, n.end_byte as int);
    (
        crate::hir::FunctionV { id, span: span_of(n), name: function_name_s(n), body, annotations: before + inner },
        PState { l: l2, pending: rest2 },
    )
}

pub open spec fn top_level_s(n: SyntaxNode, ps: PState, bytes: Seq<u8>) -> (Option<crate::hir::ItemV>, PState) {
    let k = n.kind@;
    if k == "function_definition"@ {
        let (f, p) = function_s(n, ps, bytes);
        (Some(crate::hir::ItemV::Function(f)), p)
    } else if k == "\n"@ || k == ";"@ || k == "comment"@ {
        (None, ps)
    } else {
        let (s, l) = stmt_s(n, ps.l);
        (Some(crate::hir::ItemV::Statement(s)), PState { l, pending: ps.pending })
    }
}

pub open spec fn program_loop_s(root: SyntaxNode, i: int, items: Seq<crate::hir::ItemV>, ps: PState, bytes: Seq<u8>) -> (Seq<crate::hir::ItemV>, PState)
    decreases nkids(root) - i,
{
    if i < 0 || i >= nkids(root) {
        (items, ps)
    } else {
        let (it, p) = top_level_s(kid(root, i), ps, bytes);
        let items2 = match it {
            Some(x) => items.push(x),
            None => items,
        };
        program_loop_s(root, i + 1, items2, p, bytes)
    }
}

/// The lowering of a whole tree: its items, the annotations that no function
/// took, and the constructs that could not be lowered.
pub open spec fn program_s(root: SyntaxNode, annotations: Seq<crate::annotation::AnnotationV>, bytes: Seq<u8>)
    -> (Seq<crate::hir::ItemV>, Seq<crate::annotation::AnnotationV>, Seq<LoweringErrorV>)
{
    let (items, ps) = program_loop_s(
        root,
        0,
        Seq::empty(),
        PState { l: LState { next_id: 0, errors: Seq::empty() }, pending: annotations },
        bytes,
    );
    (items, ps.pending, ps.l.errors)
}


/// The statement kinds that lowering models.
pub open spec fn modeled_statement_kind(k: Seq<char>) -> bool {
    k == "command"@ || k == "variable_assignment"@ || k == "declaration_command"@ || k == "pipeline"@ || k
        == "if_statement"@ || k == "for_statement"@ || k == "while_statement"@ || k == "case_statement"@ || k
        == "compound_statement"@ || k == "list"@ || k == "subshell"@ || k == "redirected_statement"@ || k
        == "negated_command"@ || k == "test_command"@ || k == "unset_command"@
}

/// A statement node of any other kind is kept as an `Unmodeled` statement
/// with the node's kind, span and text and a fresh id, and exactly one
/// `UnsupportedSyntax` error with the same kind and span is recorded for it.
pub proof fn lemma_unsupported_statement(n: SyntaxNode, st: LState)
    requires
        !modeled_statement_kind(n.kind@),
    ensures
        stmt_s(n, st) == (
            StatementV::Unmodeled { id: NodeId(st.next_id as u32), span: span_of(n), kind: n.kind@, text: n.text@ },
            LState { next_id: st.next_id + 1, errors: st.errors.push(LoweringErrorV { kind: n.kind@, span: span_of(n) }) },
        ),
{
}


// ---------------------------------------------------------------------------
// Lowering only records errors for what it does not model
// ---------------------------------------------------------------------------

/// From `a` to `b` the errors were kept, and each error added is for a
/// statement kind that lowering does not model.
pub open spec fn errors_extend(a: LState, b: LState) -> bool {
    &&& a.errors.is_prefix_of(b.errors)
    &&& forall|k: int| a.errors.len() <= k < b.errors.len() ==> !modeled_statement_kind(#[trigger] b.errors[k].kind)
}

proof fn lemma_ext_same(a: LState, b: LState)
    requires
        a.errors == b.errors,
    ensures
        errors_extend(a, b),
{
    assert(a.errors =~= b.errors.subrange(0, a.errors.len() as int));
}

proof fn lemma_ext_trans(a: LState, b: LState, c: LState)
    requires
        errors_extend(a, b),
        errors_extend(b, c),
    ensures
        errors_extend(a, c),
{
    assert(a.errors =~= c.errors.subrange(0, a.errors.len() as int)) by {
        assert forall|k: int| 0 <= k < a.errors.len() implies c.errors[k] == a.errors[k] by {
            assert(b.errors.subrange(0, a.errors.len() as int)[k] == b.errors[k]);
            assert(c.errors.subrange(0, b.errors.len() as int)[k] == c.errors[k]);
        }
    }
    assert forall|k: int| a.errors.len() <= k < c.errors.len() implies !modeled_statement_kind(
        #[trigger] c.errors[k].kind,
    ) by {
        if k < b.errors.len() {
            assert(c.errors.subrange(0, b.errors.len() as int)[k] == c.errors[k]);
            assert(!modeled_statement_kind(b.errors[k].kind));
        }
    }
}

proof fn lemma_stmts_except_errors(n: SyntaxNode, i: int, set: Skip, acc: Seq<StatementV>, st: LState)
    ensures
        errors_extend(st, stmts_except_s(n, i, set, acc, st).1),
    decreases n, nkids(n) - i,
{
    if i < 0 || i >= nkids(n) {
        lemma_ext_same(st, st);
    } else if skipped(set, kid(n, i).kind@) {
        lemma_stmts_except_errors(n, i + 1, set, acc, st);
    } else {
        let (s, st2) = stmt_s(kid(n, i), st);
        lemma_stmt_errors(kid(n, i), st);
        lemma_stmts_except_errors(n, i + 1, set, acc.push(s), st2);
        lemma_ext_trans(st, st2, stmts_except_s(n, i + 1, set, acc.push(s), st2).1);
    }
}

proof fn lemma_words_except_errors(n: SyntaxNode, i: int, set: Skip, acc: Seq<WordV>, st: LState)
    ensures
        errors_extend(st, words_except_s(n, i, set, acc, st).1),
    decreases n, nkids(n) - i,
{
    if i < 0 || i >= nkids(n) {
        lemma_ext_same(st, st);
    } else if skipped(set, kid(n, i).kind@) {
        lemma_words_except_errors(n, i + 1, set, acc, st);
    } else {
        let (w, st2) = word_s(kid(n, i), st);
        lemma_word_errors(kid(n, i), st);
        lemma_words_except_errors(n, i + 1, set, acc.push(w), st2);
        lemma_ext_trans(st, st2, words_except_s(n, i + 1, set, acc.push(w), st2).1);
    }
}

proof fn lemma_stmt_errors(n: SyntaxNode, st: LState)
    ensures
        errors_extend(st, stmt_s(n, st).1),
    decreases n, nkids(n) + 20,
{
    let k = n.kind@;
    let (id, s1) = fresh_id(st);
    lemma_ext_same(st, s1);
    if k == "command"@ {
        lemma_command_errors(n, st);
    } else if k == "variable_assignment"@ {
        lemma_var_assign_errors(n, st);
    } else if k == "declaration_command"@ {
        lemma_decl_errors(n, st);
    } else if k == "pipeline"@ {
        lemma_stmts_except_errors(n, 0, Skip::Pipe, Seq::empty(), s1);
        lemma_ext_trans(st, s1, stmts_except_s(n, 0, Skip::Pipe, Seq::empty(), s1).1);
    } else if k == "if_statement"@ {
        lemma_if_errors(n, st, false);
    } else if k == "for_statement"@ {
        lemma_for_errors(n, st);
    } else if k == "while_statement"@ {
        lemma_while_errors(n, st);
    } else if k == "case_statement"@ {
        lemma_case_errors(n, st);
    } else if k == "compound_statement"@ {
        lemma_stmts_except_errors(n, 0, Skip::Compound, Seq::empty(), s1);
        lemma_ext_trans(st, s1, stmts_except_s(n, 0, Skip::Compound, Seq::empty(), s1).1);
    } else if k == "list"@ {
        lemma_list_errors(n, st);
    } else if k == "subshell"@ {
        lemma_stmts_except_errors(n, 0, Skip::Subshell, Seq::empty(), s1);
        lemma_ext_trans(st, s1, stmts_except_s(n, 0, Skip::Subshell, Seq::empty(), s1).1);
    } else if k == "redirected_statement"@ {
        lemma_redirected_errors(n, st);
    } else if k == "negated_command"@ {
        lemma_stmts_except_errors(n, 0, Skip::Negation, Seq::empty(), s1);
        lemma_ext_trans(st, s1, stmts_except_s(n, 0, Skip::Negation, Seq::empty(), s1).1);
    } else if k == "test_command"@ {
        lemma_test_errors(n, st);
    } else if k == "unset_command"@ {
        lemma_words_except_errors(n, 0, Skip::Unset, Seq::empty(), s1);
        lemma_ext_trans(st, s1, words_except_s(n, 0, Skip::Unset, Seq::empty(), s1).1);
    } else {
        let e = stmt_s(n, st).1.errors;
        assert(e == st.errors.push(LoweringErrorV { kind: k, span: span_of(n) }));
        assert(st.errors =~= e.subrange(0, st.errors.len() as int));
    }
}

proof fn lemma_command_loop_errors(n: SyntaxNode, i: int, acc: CmdAcc)
    ensures
        errors_extend(acc.st, command_loop_s(n, i, acc).st),
    decreases n, nkids(n) - i,
{
    if i < 0 || i >= nkids(n) {
        lemma_ext_same(acc.st, acc.st);
    } else {
        let c = kid(n, i);
        if c.kind@ == "command_name"@ {
            let inner = if c.children@.len() > 0 { c.children@[0] } else { c };
            lemma_word_errors(inner, acc.st);
        } else if is_redirect_kind(c.kind@) {
            lemma_redirect_errors(c, acc.st);
        } else if acc.name is Some {
            lemma_word_errors(c, acc.st);
        } else {
            lemma_ext_same(acc.st, acc.st);
        }
        let next = if c.kind@ == "command_name"@ {
            let inner = if c.children@.len() > 0 { c.children@[0] } else { c };
            let (w, s) = word_s(inner, acc.st);
            CmdAcc { name: Some(w), st: s, ..acc }
        } else if is_redirect_kind(c.kind@) {
            let (r, s) = redirect_s(c, acc.st);
            CmdAcc { redirects: acc.redirects.push(r), st: s, ..acc }
        } else if acc.name is Some {
            let (w, s) = word_s(c, acc.st);
            CmdAcc { args: acc.args.push(w), st: s, ..acc }
        } else {
            acc
        };
        lemma_command_loop_errors(n, i + 1, next);
        lemma_ext_trans(acc.st, next.st, command_loop_s(n, i + 1, next).st);
    }
}

proof fn lemma_command_errors(n: SyntaxNode, st: LState)
    ensures
        errors_extend(st, command_s(n, st).1),
    decreases n, nkids(n) + 10,
{
    let (id, s1) = fresh_id(st);
    lemma_ext_same(st, s1);
    let acc = CmdAcc { name: None, args: Seq::empty(), redirects: Seq::empty(), st: s1 };
    lemma_command_loop_errors(n, 0, acc);
    lemma_ext_trans(st, s1, command_loop_s(n, 0, acc).st);
}

proof fn lemma_redirect_loop_errors(n: SyntaxNode, i: int, acc: RedirAcc)
    ensures
        errors_extend(acc.st, redirect_loop_s(n, i, acc).st),
    decreases n, nkids(n) - i,
{
    if i < 0 || i >= nkids(n) {
        lemma_ext_same(acc.st, acc.st);
    } else {
        let c = kid(n, i);
        if c.kind@ == "file_descriptor"@ || is_redirect_op(c.kind@) {
            lemma_ext_same(acc.st, acc.st);
        } else {
            lemma_word_errors(c, acc.st);
        }
        let next = if c.kind@ == "file_descriptor"@ {
            RedirAcc { fd: Some(c.text@), ..acc }
        } else if is_redirect_op(c.kind@) {
            RedirAcc { op: c.text@, ..acc }
        } else {
            let (w, s) = word_s(c, acc.st);
            RedirAcc { target: w, st: s, ..acc }
        };
        lemma_redirect_loop_errors(n, i + 1, next);
        lemma_ext_trans(acc.st, next.st, redirect_loop_s(n, i + 1, next).st);
    }
}

proof fn lemma_redirect_errors(n: SyntaxNode, st: LState)
    ensures
        errors_extend(st, redirect_s(n, st).1),
    decreases n, nkids(n) + 10,
{
    let acc = RedirAcc { fd: None, op: Seq::empty(), target: WordV { span: span_of(n), segments: Seq::empty() }, st };
    lemma_redirect_loop_errors(n, 0, acc);
}

proof fn lemma_assign_loop_errors(n: SyntaxNode, i: int, acc: AssignAcc)
    ensures
        errors_extend(acc.st, assign_loop_s(n, i, acc).st),
    decreases n, nkids(n) - i,
{
    if i < 0 || i >= nkids(n) {
        lemma_ext_same(acc.st, acc.st);
    } else {
        let c = kid(n, i);
        if c.kind@ == "variable_name"@ || c.kind@ == "="@ {
            lemma_ext_same(acc.st, acc.st);
        } else if c.kind@ == "array"@ {
            lemma_words_except_errors(c, 0, Skip::ArrayParens, Seq::empty(), acc.st);
        } else {
            lemma_word_errors(c, acc.st);
        }
        let next = if c.kind@ == "variable_name"@ {
            AssignAcc { name: c.text@, ..acc }
        } else if c.kind@ == "="@ {
            acc
        } else if c.kind@ == "array"@ {
            let (ws, s) = words_except_s(c, 0, Skip::ArrayParens, Seq::empty(), acc.st);
            AssignAcc { array_value: Some(ws), st: s, ..acc }
        } else {
            let (w, s) = word_s(c, acc.st);
            AssignAcc { value: Some(w), st: s, ..acc }
        };
        lemma_assign_loop_errors(n, i + 1, next);
        lemma_ext_trans(acc.st, next.st, assign_loop_s(n, i + 1, next).st);
    }
}

proof fn lemma_var_assign_errors(n: SyntaxNode, st: LState)
    ensures
        errors_extend(st, var_assign_s(n, st).1),
    decreases n, nkids(n) + 10,
{
    let (id, s1) = fresh_id(st);
    lemma_ext_same(st, s1);
    let acc = AssignAcc { name: Seq::empty(), value: None, array_value: None, st: s1 };
    lemma_assign_loop_errors(n, 0, acc);
    lemma_ext_trans(st, s1, assign_loop_s(n, 0, acc).st);
}

proof fn lemma_decl_loop_errors(n: SyntaxNode, i: int, acc: DeclAcc)
    ensures
        errors_extend(acc.a.st, decl_loop_s(n, i, acc).a.st),
    decreases n, nkids(n) - i,
{
    if i < 0 || i >= nkids(n) {
        lemma_ext_same(acc.a.st, acc.a.st);
    } else {
        let c = kid(n, i);
        let k = c.kind@;
        let t = c.text@;
        if k == "variable_assignment"@ {
            lemma_assign_loop_errors(c, 0, acc.a);
        } else {
            lemma_ext_same(acc.a.st, acc.a.st);
        }
        let next = if k == "local"@ {
            DeclAcc { decl_kind: Some(DeclKind::Local), ..acc }
        } else if k == "declare"@ {
            DeclAcc { decl_kind: Some(DeclKind::Declare), ..acc }
        } else if k == "export"@ {
            DeclAcc { decl_kind: Some(DeclKind::Export), ..acc }
        } else if k == "readonly"@ {
            DeclAcc { decl_kind: Some(DeclKind::Readonly), ..acc }
        } else if k == "word"@ {
            if t.len() > 0 && t[0] == '-' {
                DeclAcc { flags: acc.flags.push(t), ..acc }
            } else if acc.a.name.len() == 0 {
                DeclAcc { a: AssignAcc { name: t, ..acc.a }, ..acc }
            } else {
                acc
            }
        } else if k == "variable_name"@ {
            DeclAcc { a: AssignAcc { name: t, ..acc.a }, ..acc }
        } else if k == "variable_assignment"@ {
            DeclAcc { a: assign_loop_s(c, 0, acc.a), ..acc }
        } else {
            acc
        };
        lemma_decl_loop_errors(n, i + 1, next);
        lemma_ext_trans(acc.a.st, next.a.st, decl_loop_s(n, i + 1, next).a.st);
    }
}

proof fn lemma_decl_errors(n: SyntaxNode, st: LState)
    ensures
        errors_extend(st, decl_s(n, st).1),
    decreases n, nkids(n) + 10,
{
    let (id, s1) = fresh_id(st);
    lemma_ext_same(st, s1);
    let acc = DeclAcc {
        decl_kind: None,
        flags: Seq::empty(),
        a: AssignAcc { name: Seq::empty(), value: None, array_value: None, st: s1 },
    };
    lemma_decl_loop_errors(n, 0, acc);
    lemma_ext_trans(st, s1, decl_loop_s(n, 0, acc).a.st);
}

proof fn lemma_if_loop_errors(n: SyntaxNode, i: int, elif: bool, acc: IfAcc)
    ensures
        errors_extend(acc.st, if_loop_s(n, i, elif, acc).st),
    decreases n, nkids(n) - i,
{
    if i < 0 || i >= nkids(n) {
        lemma_ext_same(acc.st, acc.st);
    } else {
        let c = kid(n, i);
        let k = c.kind@;
        if (!elif && k == "if"@) || (elif && k == "elif"@) || k == "then"@ {
            lemma_ext_same(acc.st, acc.st);
        } else if k == "else_clause"@ {
            lemma_stmts_except_errors(c, 0, Skip::Else, Seq::empty(), acc.st);
        } else if k == "elif_clause"@ {
            lemma_if_errors(c, acc.st, true);
        } else if (!elif && k == "fi"@) || k == ";"@ || k == "\n"@ {
            lemma_ext_same(acc.st, acc.st);
        } else if acc.in_cond || acc.in_then {
            lemma_stmt_errors(c, acc.st);
        } else {
            lemma_ext_same(acc.st, acc.st);
        }
        let next = if (!elif && k == "if"@) || (elif && k == "elif"@) {
            IfAcc { in_cond: true, ..acc }
        } else if k == "then"@ {
            IfAcc { in_cond: false, in_then: true, ..acc }
        } else if k == "else_clause"@ {
            let (b, s) = stmts_except_s(c, 0, Skip::Else, Seq::empty(), acc.st);
            IfAcc { in_then: false, else_body: Some(b), st: s, ..acc }
        } else if k == "elif_clause"@ {
            let (e, s) = if_s(c, acc.st, true);
            IfAcc { in_then: false, else_body: Some(seq![e]), st: s, ..acc }
        } else if (!elif && k == "fi"@) || k == ";"@ || k == "\n"@ {
            acc
        } else if acc.in_cond {
            let (s1, s) = stmt_s(c, acc.st);
            IfAcc { cond: acc.cond.push(s1), st: s, ..acc }
        } else if acc.in_then {
            let (s1, s) = stmt_s(c, acc.st);
            IfAcc { then_body: acc.then_body.push(s1), st: s, ..acc }
        } else {
            acc
        };
        lemma_if_loop_errors(n, i + 1, elif, next);
        lemma_ext_trans(acc.st, next.st, if_loop_s(n, i + 1, elif, next).st);
    }
}

proof fn lemma_if_errors(n: SyntaxNode, st: LState, elif: bool)
    ensures
        errors_extend(st, if_s(n, st, elif).1),
    decreases n, nkids(n) + 10,
{
    let (id, s1) = fresh_id(st);
    lemma_ext_same(st, s1);
    let acc = IfAcc { cond: Seq::empty(), then_body: Seq::empty(), else_body: None, in_cond: false, in_then: false, st: s1 };
    lemma_if_loop_errors(n, 0, elif, acc);
    lemma_ext_trans(st, s1, if_loop_s(n, 0, elif, acc).st);
}

proof fn lemma_for_loop_errors(n: SyntaxNode, i: int, acc: ForAcc)
    ensures
        errors_extend(acc.st, for_loop_s(n, i, acc).st),
    decreases n, nkids(n) - i,
{
    if i < 0 || i >= nkids(n) {
        lemma_ext_same(acc.st, acc.st);
    } else {
        let c = kid(n, i);
        let k = c.kind@;
        if k == "for"@ || k == "variable_name"@ || k == "in"@ {
            lemma_ext_same(acc.st, acc.st);
        } else if k == "do_group"@ {
            lemma_stmts_except_errors(c, 0, Skip::DoGroup, Seq::empty(), acc.st);
        } else if k == ";"@ || k == "\n"@ || !acc.in_items {
            lemma_ext_same(acc.st, acc.st);
        } else {
            lemma_word_errors(c, acc.st);
        }
        let next = if k == "for"@ {
            acc
        } else if k == "variable_name"@ {
            ForAcc { variable: c.text@, ..acc }
        } else if k == "in"@ {
            ForAcc { in_items: true, ..acc }
        } else if k == "do_group"@ {
            let (b, s) = stmts_except_s(c, 0, Skip::DoGroup, Seq::empty(), acc.st);
            ForAcc { in_items: false, body: b, st: s, ..acc }
        } else if k == ";"@ || k == "\n"@ {
            acc
        } else if acc.in_items {
            let (w, s) = word_s(c, acc.st);
            ForAcc { items: acc.items.push(w), st: s, ..acc }
        } else {
            acc
        };
        lemma_for_loop_errors(n, i + 1, next);
        lemma_ext_trans(acc.st, next.st, for_loop_s(n, i + 1, next).st);
    }
}

proof fn lemma_for_errors(n: SyntaxNode, st: LState)
    ensures
        errors_extend(st, for_s(n, st).1),
    decreases n, nkids(n) + 10,
{
    let (id, s1) = fresh_id(st);
    lemma_ext_same(st, s1);
    let acc = ForAcc { variable: Seq::empty(), items: Seq::empty(), body: Seq::empty(), in_items: false, st: s1 };
    lemma_for_loop_errors(n, 0, acc);
    lemma_ext_trans(st, s1, for_loop_s(n, 0, acc).st);
}

proof fn lemma_while_loop_errors(n: SyntaxNode, i: int, acc: WhileAcc)
    ensures
        errors_extend(acc.st, while_loop_s(n, i, acc).st),
    decreases n, nkids(n) - i,
{
    if i < 0 || i >= nkids(n) {
        lemma_ext_same(acc.st, acc.st);
    } else {
        let c = kid(n, i);
        let k = c.kind@;
        if k == "while"@ || k == "until"@ {
            lemma_ext_same(acc.st, acc.st);
        } else if k == "do_group"@ {
            lemma_stmts_except_errors(c, 0, Skip::DoGroup, Seq::empty(), acc.st);
        } else if k == ";"@ || k == "\n"@ || !acc.in_cond {
            lemma_ext_same(acc.st, acc.st);
        } else {
            lemma_stmt_errors(c, acc.st);
        }
        let next = if k == "while"@ || k == "until"@ {
            WhileAcc { in_cond: true, ..acc }
        } else if k == "do_group"@ {
            let (b, s) = stmts_except_s(c, 0, Skip::DoGroup, Seq::empty(), acc.st);
            WhileAcc { in_cond: false, body: b, st: s, ..acc }
        } else if k == ";"@ || k == "\n"@ {
            acc
        } else if acc.in_cond {
            let (s1, s) = stmt_s(c, acc.st);
            WhileAcc { cond: acc.cond.push(s1), st: s, ..acc }
        } else {
            acc
        };
        lemma_while_loop_errors(n, i + 1, next);
        lemma_ext_trans(acc.st, next.st, while_loop_s(n, i + 1, next).st);
    }
}

proof fn lemma_while_errors(n: SyntaxNode, st: LState)
    ensures
        errors_extend(st, while_s(n, st).1),
    decreases n, nkids(n) + 10,
{
    let (id, s1) = fresh_id(st);
    lemma_ext_same(st, s1);
    let acc = WhileAcc { cond: Seq::empty(), body: Seq::empty(), in_cond: false, st: s1 };
    lemma_while_loop_errors(n, 0, acc);
    lemma_ext_trans(st, s1, while_loop_s(n, 0, acc).st);
}

proof fn lemma_arm_loop_errors(n: SyntaxNode, i: int, acc: ArmAcc)
    ensures
        errors_extend(acc.st, arm_loop_s(n, i, acc).st),
    decreases n, nkids(n) - i,
{
    if i < 0 || i >= nkids(n) {
        lemma_ext_same(acc.st, acc.st);
    } else {
        let c = kid(n, i);
        let k = c.kind@;
        if k == ")"@ || k == ";;"@ || k == ";&"@ || k == ";;&"@ || k == "("@ {
            lemma_ext_same(acc.st, acc.st);
        } else if acc.past {
            lemma_stmt_errors(c, acc.st);
        } else {
            lemma_word_errors(c, acc.st);
        }
        let next = if k == ")"@ {
            ArmAcc { past: true, ..acc }
        } else if k == ";;"@ || k == ";&"@ || k == ";;&"@ || k == "("@ {
            acc
        } else if acc.past {
            let (s1, s) = stmt_s(c, acc.st);
            ArmAcc { body: acc.body.push(s1), st: s, ..acc }
        } else {
            let (w, s) = word_s(c, acc.st);
            ArmAcc { patterns: acc.patterns.push(w), st: s, ..acc }
        };
        lemma_arm_loop_errors(n, i + 1, next);
        lemma_ext_trans(acc.st, next.st, arm_loop_s(n, i + 1, next).st);
    }
}

proof fn lemma_arm_errors(n: SyntaxNode, st: LState)
    ensures
        errors_extend(st, arm_s(n, st).1),
    decreases n, nkids(n) + 10,
{
    lemma_arm_loop_errors(n, 0, ArmAcc { patterns: Seq::empty(), body: Seq::empty(), past: false, st });
}

proof fn lemma_case_loop_errors(n: SyntaxNode, i: int, acc: CaseAcc)
    ensures
        errors_extend(acc.st, case_loop_s(n, i, acc).st),
    decreases n, nkids(n) - i,
{
    if i < 0 || i >= nkids(n) {
        lemma_ext_same(acc.st, acc.st);
    } else {
        let c = kid(n, i);
        let k = c.kind@;
        if k == "case"@ || k == "in"@ || k == "esac"@ || k == ";"@ || k == "\n"@ {
            lemma_ext_same(acc.st, acc.st);
        } else if k == "case_item"@ {
            lemma_arm_errors(c, acc.st);
        } else if acc.subject.segments.len() == 0 {
            lemma_word_errors(c, acc.st);
        } else {
            lemma_ext_same(acc.st, acc.st);
        }
        let next = if k == "case"@ || k == "in"@ || k == "esac"@ || k == ";"@ || k == "\n"@ {
            acc
        } else if k == "case_item"@ {
            let (a, s) = arm_s(c, acc.st);
            CaseAcc { arms: acc.arms.push(a), st: s, ..acc }
        } else if acc.subject.segments.len() == 0 {
            let (w, s) = word_s(c, acc.st);
            CaseAcc { subject: w, st: s, ..acc }
        } else {
            acc
        };
        lemma_case_loop_errors(n, i + 1, next);
        lemma_ext_trans(acc.st, next.st, case_loop_s(n, i + 1, next).st);
    }
}

proof fn lemma_case_errors(n: SyntaxNode, st: LState)
    ensures
        errors_extend(st, case_s(n, st).1),
    decreases n, nkids(n) + 10,
{
    let (id, s1) = fresh_id(st);
    lemma_ext_same(st, s1);
    let acc = CaseAcc { subject: WordV { span: span_of(n), segments: Seq::empty() }, arms: Seq::empty(), st: s1 };
    lemma_case_loop_errors(n, 0, acc);
    lemma_ext_trans(st, s1, case_loop_s(n, 0, acc).st);
}

proof fn lemma_list_loop_errors(n: SyntaxNode, i: int, acc: ListAcc)
    ensures
        errors_extend(acc.st, list_loop_s(n, i, acc).st),
    decreases n, nkids(n) - i,
{
    if i < 0 || i >= nkids(n) {
        lemma_ext_same(acc.st, acc.st);
    } else {
        let c = kid(n, i);
        let k = c.kind@;
        if k == "&&"@ || k == "||"@ || k == ";"@ || k == "\n"@ {
            lemma_ext_same(acc.st, acc.st);
        } else {
            lemma_stmt_errors(c, acc.st);
        }
        let next = if k == "&&"@ {
            ListAcc { pending: Some(ListOperator::And), ..acc }
        } else if k == "||"@ {
            ListAcc { pending: Some(ListOperator::Or), ..acc }
        } else if k == ";"@ {
            ListAcc { pending: Some(ListOperator::Semi), ..acc }
        } else if k == "\n"@ {
            acc
        } else {
            let (s1, s) = stmt_s(c, acc.st);
            ListAcc {
                elements: attach_pending(acc.elements, acc.pending).push(ListElementV { statement: s1, operator: None }),
                pending: None,
                st: s,
            }
        };
        lemma_list_loop_errors(n, i + 1, next);
        lemma_ext_trans(acc.st, next.st, list_loop_s(n, i + 1, next).st);
    }
}

proof fn lemma_list_errors(n: SyntaxNode, st: LState)
    ensures
        errors_extend(st, list_s(n, st).1),
    decreases n, nkids(n) + 10,
{
    let (id, s1) = fresh_id(st);
    lemma_ext_same(st, s1);
    let acc = ListAcc { elements: Seq::empty(), pending: None, st: s1 };
    lemma_list_loop_errors(n, 0, acc);
    lemma_ext_trans(st, s1, list_loop_s(n, 0, acc).st);
}

proof fn lemma_redirected_loop_errors(n: SyntaxNode, i: int, acc: RedirectedAcc)
    ensures
        errors_extend(acc.st, redirected_loop_s(n, i, acc).st),
    decreases n, nkids(n) - i,
{
    if i < 0 || i >= nkids(n) {
        lemma_ext_same(acc.st, acc.st);
    } else {
        let c = kid(n, i);
        if is_redirect_kind(c.kind@) {
            lemma_redirect_errors(c, acc.st);
        } else {
            lemma_stmt_errors(c, acc.st);
        }
        let next = if is_redirect_kind(c.kind@) {
            let (r, s) = redirect_s(c, acc.st);
            RedirectedAcc { redirects: acc.redirects.push(r), st: s, ..acc }
        } else {
            let (s1, s) = stmt_s(c, acc.st);
            RedirectedAcc { inner: Some(s1), st: s, ..acc }
        };
        lemma_redirected_loop_errors(n, i + 1, next);
        lemma_ext_trans(acc.st, next.st, redirected_loop_s(n, i + 1, next).st);
    }
}

proof fn lemma_redirected_errors(n: SyntaxNode, st: LState)
    ensures
        errors_extend(st, redirected_s(n, st).1),
    decreases n, nkids(n) + 10,
{
    let acc0 = RedirectedAcc { inner: None, redirects: Seq::empty(), st };
    lemma_redirected_loop_errors(n, 0, acc0);
    let acc = redirected_loop_s(n, 0, acc0);
    let (id, s2) = fresh_id(acc.st);
    lemma_ext_same(acc.st, s2);
    lemma_ext_trans(st, acc.st, s2);
}

proof fn lemma_test_args_loop_errors(c: SyntaxNode, j: int, binary: bool, acc: Seq<WordV>, st: LState)
    ensures
        errors_extend(st, test_args_loop_s(c, j, binary, acc, st).1),
    decreases c, nkids(c) - j,
{
    if j < 0 || j >= nkids(c) {
        lemma_ext_same(st, st);
    } else {
        let d = kid(c, j);
        if is_test_op(d.kind@, binary) {
            lemma_test_args_loop_errors(c, j + 1, binary, acc.push(lit_word(span_of(d), d.text@)), st);
        } else {
            let (w, s) = word_s(d, st);
            lemma_word_errors(d, st);
            lemma_test_args_loop_errors(c, j + 1, binary, acc.push(w), s);
            lemma_ext_trans(st, s, test_args_loop_s(c, j + 1, binary, acc.push(w), s).1);
        }
    }
}

proof fn lemma_test_args_errors(c: SyntaxNode, st: LState)
    ensures
        errors_extend(st, test_args_s(c, st).1),
    decreases c, nkids(c) + 40,
{
    if c.kind@ == "unary_expression"@ {
        lemma_test_args_loop_errors(c, 0, false, Seq::empty(), st);
    } else if c.kind@ == "binary_expression"@ {
        lemma_test_args_loop_errors(c, 0, true, Seq::empty(), st);
    } else {
        lemma_word_errors(c, st);
    }
}

proof fn lemma_test_loop_errors(n: SyntaxNode, i: int, acc: Seq<WordV>, st: LState)
    ensures
        errors_extend(st, test_loop_s(n, i, acc, st).1),
    decreases n, nkids(n) - i,
{
    if i < 0 || i >= nkids(n) {
        lemma_ext_same(st, st);
    } else {
        let k = kid(n, i).kind@;
        if k == "[["@ || k == "]]"@ || k == "["@ || k == "]"@ {
            lemma_test_loop_errors(n, i + 1, acc, st);
        } else {
            let (ws, s) = test_args_s(kid(n, i), st);
            lemma_test_args_errors(kid(n, i), st);
            lemma_test_loop_errors(n, i + 1, acc + ws, s);
            lemma_ext_trans(st, s, test_loop_s(n, i + 1, acc + ws, s).1);
        }
    }
}

proof fn lemma_test_errors(n: SyntaxNode, st: LState)
    ensures
        errors_extend(st, test_s(n, st).1),
    decreases n, nkids(n) + 10,
{
    let (id, s1) = fresh_id(st);
    lemma_ext_same(st, s1);
    lemma_test_loop_errors(n, 0, Seq::empty(), s1);
    lemma_ext_trans(st, s1, test_loop_s(n, 0, Seq::empty(), s1).1);
}

proof fn lemma_word_errors(n: SyntaxNode, st: LState)
    ensures
        errors_extend(st, word_s(n, st).1),
    decreases n, nkids(n) + 30,
{
    lemma_segs_errors(n, st);
}

proof fn lemma_string_loop_errors(n: SyntaxNode, i: int, acc: Seq<SegmentV>, st: LState)
    ensures
        errors_extend(st, string_loop_s(n, i, acc, st).1),
    decreases n, nkids(n) - i,
{
    if i < 0 || i >= nkids(n) {
        lemma_ext_same(st, st);
    } else {
        let c = kid(n, i);
        let k = c.kind@;
        if k == "\""@ || k == "$\""@ {
            lemma_string_loop_errors(n, i + 1, acc, st);
        } else if k == "string_content"@ {
            lemma_string_loop_errors(n, i + 1, acc.push(SegmentV::Literal(c.text@)), st);
        } else {
            let (ss, s) = segs_s(c, st);
            lemma_segs_errors(c, st);
            lemma_string_loop_errors(n, i + 1, acc + ss, s);
            lemma_ext_trans(st, s, string_loop_s(n, i + 1, acc + ss, s).1);
        }
    }
}

proof fn lemma_concat_loop_errors(n: SyntaxNode, i: int, acc: Seq<SegmentV>, st: LState)
    ensures
        errors_extend(st, concat_loop_s(n, i, acc, st).1),
    decreases n, nkids(n) - i,
{
    if i < 0 || i >= nkids(n) {
        lemma_ext_same(st, st);
    } else {
        let (ss, s) = segs_s(kid(n, i), st);
        lemma_segs_errors(kid(n, i), st);
        lemma_concat_loop_errors(n, i + 1, acc + ss, s);
        lemma_ext_trans(st, s, concat_loop_s(n, i + 1, acc + ss, s).1);
    }
}

proof fn lemma_segs_errors(n: SyntaxNode, st: LState)
    ensures
        errors_extend(st, segs_s(n, st).1),
    decreases n, nkids(n) + 25,
{
    let k = n.kind@;
    if k == "word"@ || k == "number"@ || k == "raw_string"@ {
        lemma_ext_same(st, st);
    } else if k == "string"@ || k == "translated_string"@ {
        lemma_string_loop_errors(n, 0, Seq::empty(), st);
    } else if k == "simple_expansion"@ {
        lemma_ext_same(st, st);
    } else if k == "expansion"@ {
        lemma_expansion_errors(n, st);
    } else if k == "command_substitution"@ {
        lemma_stmts_except_errors(n, 0, Skip::CommandSub, Seq::empty(), st);
    } else if k == "concatenation"@ {
        lemma_concat_loop_errors(n, 0, Seq::empty(), st);
    } else {
        lemma_ext_same(st, st);
    }
}

proof fn lemma_expansion_loop_errors(n: SyntaxNode, i: int, acc: ExpAcc)
    ensures
        errors_extend(acc.st, expansion_loop_s(n, i, acc).st),
    decreases n, nkids(n) - i,
{
    if i < 0 || i >= nkids(n) {
        lemma_ext_same(acc.st, acc.st);
    } else {
        let c = kid(n, i);
        let k = c.kind@;
        let plain = k == "${"@ || k == "}"@ || k == "$"@ || k == "variable_name"@ || k == "special_variable_name"@ || k
            == "#"@ || k == "!"@ || k == ":-"@ || k == ":="@ || k == ":?"@ || k == ":+"@ || k == "-"@ || k == "="@ || k
            == "?"@ || k == "+"@;
        if !plain && acc.operator is Some && acc.operand is None {
            lemma_word_errors(c, acc.st);
        } else {
            lemma_ext_same(acc.st, acc.st);
        }
        let next = if k == "${"@ || k == "}"@ || k == "$"@ {
            acc
        } else if k == "variable_name"@ || k == "special_variable_name"@ {
            ExpAcc { name: c.text@, ..acc }
        } else if k == "#"@ {
            if acc.name.len() == 0 { ExpAcc { operator: Some(ParamOperator::Length), ..acc } } else { acc }
        } else if k == "!"@ {
            if acc.name.len() == 0 { ExpAcc { operator: Some(ParamOperator::Indirect), ..acc } } else { acc }
        } else if k == ":-"@ {
            ExpAcc { operator: Some(ParamOperator::Default), ..acc }
        } else if k == ":="@ {
            ExpAcc { operator: Some(ParamOperator::Assign), ..acc }
        } else if k == ":?"@ {
            ExpAcc { operator: Some(ParamOperator::Error), ..acc }
        } else if k == ":+"@ {
            ExpAcc { operator: Some(ParamOperator::Alternate), ..acc }
        } else if k == "-"@ {
            if acc.operator is None { ExpAcc { operator: Some(ParamOperator::Default), ..acc } } else { acc }
        } else if k == "="@ {
            if acc.operator is None { ExpAcc { operator: Some(ParamOperator::Assign), ..acc } } else { acc }
        } else if k == "?"@ {
            if acc.operator is None { ExpAcc { operator: Some(ParamOperator::Error), ..acc } } else { acc }
        } else if k == "+"@ {
            if acc.operator is None { ExpAcc { operator: Some(ParamOperator::Alternate), ..acc } } else { acc }
        } else if acc.operator is Some && acc.operand is None {
            let (w, s) = word_s(c, acc.st);
            ExpAcc { operand: Some(w), st: s, ..acc }
        } else if acc.name.len() == 0 {
            ExpAcc { name: c.text@, ..acc }
        } else {
            acc
        };
        lemma_expansion_loop_errors(n, i + 1, next);
        lemma_ext_trans(acc.st, next.st, expansion_loop_s(n, i + 1, next).st);
    }
}

proof fn lemma_expansion_errors(n: SyntaxNode, st: LState)
    ensures
        errors_extend(st, expansion_s(n, st).1),
    decreases n, nkids(n) + 20,
{
    if has_subscript_from(n, 0) {
        lemma_ext_same(st, st);
    } else {
        lemma_expansion_loop_errors(n, 0, ExpAcc { name: Seq::empty(), operator: None, operand: None, st });
    }
}

/// Lowering a statement node keeps the errors recorded before it, and each
/// error it adds is an `UnsupportedSyntax` for a node of a kind that it does
/// not model, so no modeled construct is ever reported as unsupported.
pub proof fn lemma_lowering_errors_unmodeled(n: SyntaxNode, st: LState)
    ensures
        st.errors.is_prefix_of(stmt_s(n, st).1.errors),
        forall|k: int|
            st.errors.len() <= k < stmt_s(n, st).1.errors.len() ==> !modeled_statement_kind(
                #[trigger] stmt_s(n, st).1.errors[k].kind,
            ),
{
    lemma_stmt_errors(n, st);
}


proof fn lemma_function_body_errors(n: SyntaxNode, i: int, body: Seq<StatementV>, st: LState)
    ensures
        errors_extend(st, function_body_loop_s(n, i, body, st).1),
    decreases nkids(n) - i,
{
    if i < 0 || i >= nkids(n) {
        lemma_ext_same(st, st);
    } else if kid(n, i).kind@ == "compound_statement"@ {
        let (b, s) = stmts_except_s(kid(n, i), 0, Skip::Compound, Seq::empty(), st);
        lemma_stmts_except_errors(kid(n, i), 0, Skip::Compound, Seq::empty(), st);
        lemma_function_body_errors(n, i + 1, b, s);
        lemma_ext_trans(st, s, function_body_loop_s(n, i + 1, b, s).1);
    } else {
        lemma_function_body_errors(n, i + 1, body, st);
    }
}

proof fn lemma_program_loop_errors(root: SyntaxNode, i: int, items: Seq<crate::hir::ItemV>, ps: PState, bytes: Seq<u8>)
    ensures
        errors_extend(ps.l, program_loop_s(root, i, items, ps, bytes).1.l),
    decreases nkids(root) - i,
{
    if i < 0 || i >= nkids(root) {
        lemma_ext_same(ps.l, ps.l);
    } else {
        let n = kid(root, i);
        let k = n.kind@;
        if k == "function_definition"@ {
            let (id, l1) = fresh_id(ps.l);
            lemma_ext_same(ps.l, l1);
            lemma_function_body_errors(n, 0, Seq::empty(), l1);
            lemma_ext_trans(ps.l, l1, function_body_loop_s(n, 0, Seq::empty(), l1).1);
        } else if k == "\n"@ || k == ";"@ || k == "comment"@ {
            lemma_ext_same(ps.l, ps.l);
        } else {
            lemma_stmt_errors(n, ps.l);
        }
        let (it, p) = top_level_s(n, ps, bytes);
        let items2 = match it {
            Some(x) => items.push(x),
            None => items,
        };
        lemma_program_loop_errors(root, i + 1, items2, p, bytes);
        lemma_ext_trans(ps.l, p.l, program_loop_s(root, i + 1, items2, p, bytes).1.l);
    }
}

/// Every error that the lowering of a whole tree records is for a node of a
/// kind that lowering does not model.
pub proof fn lemma_program_errors_unmodeled(root: SyntaxNode, annotations: Seq<crate::annotation::AnnotationV>, bytes: Seq<u8>)
    ensures
        forall|k: int|
            0 <= k < program_s(root, annotations, bytes).2.len() ==> !modeled_statement_kind(
                #[trigger] program_s(root, annotations, bytes).2[k].kind,
            ),
{
    let ps = PState { l: LState { next_id: 0, errors: Seq::empty() }, pending: annotations };
    lemma_program_loop_errors(root, 0, Seq::empty(), ps, bytes);
}


// ---------------------------------------------------------------------------
// Every unmodeled statement in the lowered tree has its error
// ---------------------------------------------------------------------------

/// The error that an `Unmodeled` statement of `s` stands for is in `fin`, for
/// each such statement at any depth; the placeholder for a redirection
/// without a statement stands for none.
pub open spec fn stmt_reported(s: StatementV, fin: Seq<LoweringErrorV>) -> bool
    decreases s, 0int,
{
    match s {
        StatementV::Assignment { value, array_value, .. } => (match value {
            Some(w) => word_reported(w, fin),
            None => true,
        }) && (match array_value {
            Some(ws) => words_reported(ws, fin),
            None => true,
        }),
        StatementV::Command { name, args, redirects, .. } => word_reported(name, fin) && words_reported(args, fin)
            && redirects_reported(redirects, fin),
        StatementV::SourceCommand { path, .. } => word_reported(path, fin),
        StatementV::Pipeline { commands, .. } => stmts_reported(commands, fin),
        StatementV::If { condition, then_body, else_body, .. } => stmts_reported(condition, fin) && stmts_reported(
            then_body,
            fin,
        ) && (match else_body {
            Some(e) => stmts_reported(e, fin),
            None => true,
        }),
        StatementV::For { items, body, .. } => words_reported(items, fin) && stmts_reported(body, fin),
        StatementV::While { condition, body, .. } => stmts_reported(condition, fin) && stmts_reported(body, fin),
        StatementV::Case { subject, arms, .. } => word_reported(subject, fin) && arms_reported(arms, fin),
        StatementV::List { elements, .. } => elements_reported(elements, fin),
        StatementV::Block { body, .. } => stmts_reported(body, fin),
        StatementV::Unmodeled { span, kind, .. } => kind == "empty_redirected"@ || fin.contains(
            LoweringErrorV { kind, span },
        ),
    }
}

pub open spec fn stmts_reported(ss: Seq<StatementV>, fin: Seq<LoweringErrorV>) -> bool
    decreases ss, ss.len() + 1,
{
    stmts_reported_from(ss, 0, fin)
}

pub open spec fn stmts_reported_from(ss: Seq<StatementV>, i: int, fin: Seq<LoweringErrorV>) -> bool
    decreases ss, ss.len() - i,
{
    i < 0 || i >= ss.len() || (stmt_reported(ss[i], fin) && stmts_reported_from(ss, i + 1, fin))
}

pub open spec fn word_reported(w: WordV, fin: Seq<LoweringErrorV>) -> bool
    decreases w, 0int,
{
    segs_reported(w.segments, fin)
}

pub open spec fn words_reported(ws: Seq<WordV>, fin: Seq<LoweringErrorV>) -> bool
    decreases ws, ws.len() + 1,
{
    words_reported_from(ws, 0, fin)
}

pub open spec fn words_reported_from(ws: Seq<WordV>, i: int, fin: Seq<LoweringErrorV>) -> bool
    decreases ws, ws.len() - i,
{
    i < 0 || i >= ws.len() || (word_reported(ws[i], fin) && words_reported_from(ws, i + 1, fin))
}

pub open spec fn seg_reported(g: SegmentV, fin: Seq<LoweringErrorV>) -> bool
    decreases g, 0int,
{
    match g {
        SegmentV::DoubleQuoted(inner) => segs_reported(inner, fin),
        SegmentV::ParamExpand { operand, .. } => match operand {
            Some(b) => word_reported(*b, fin),
            None => true,
        },
        SegmentV::CommandSub { body, .. } => stmts_reported(body, fin),
        _ => true,
    }
}

pub open spec fn segs_reported(gs: Seq<SegmentV>, fin: Seq<LoweringErrorV>) -> bool
    decreases gs, gs.len() + 1,
{
    segs_reported_from(gs, 0, fin)
}

pub open spec fn segs_reported_from(gs: Seq<SegmentV>, i: int, fin: Seq<LoweringErrorV>) -> bool
    decreases gs, gs.len() - i,
{
    i < 0 || i >= gs.len() || (seg_reported(gs[i], fin) && segs_reported_from(gs, i + 1, fin))
}

pub open spec fn redirect_reported(r: RedirectV, fin: Seq<LoweringErrorV>) -> bool
    decreases r, 0int,
{
    word_reported(r.target, fin)
}

pub open spec fn redirects_reported(rs: Seq<RedirectV>, fin: Seq<LoweringErrorV>) -> bool
    decreases rs, rs.len() + 1,
{
    redirects_reported_from(rs, 0, fin)
}

pub open spec fn redirects_reported_from(rs: Seq<RedirectV>, i: int, fin: Seq<LoweringErrorV>) -> bool
    decreases rs, rs.len() - i,
{
    i < 0 || i >= rs.len() || (redirect_reported(rs[i], fin) && redirects_reported_from(rs, i + 1, fin))
}

pub open spec fn arm_reported(a: CaseArmV, fin: Seq<LoweringErrorV>) -> bool
    decreases a, 0int,
{
    words_reported(a.patterns, fin) && stmts_reported(a.body, fin)
}

pub open spec fn arms_reported(arms: Seq<CaseArmV>, fin: Seq<LoweringErrorV>) -> bool
    decreases arms, arms.len() + 1,
{
    arms_reported_from(arms, 0, fin)
}

pub open spec fn arms_reported_from(arms: Seq<CaseArmV>, i: int, fin: Seq<LoweringErrorV>) -> bool
    decreases arms, arms.len() - i,
{
    i < 0 || i >= arms.len() || (arm_reported(arms[i], fin) && arms_reported_from(arms, i + 1, fin))
}

pub open spec fn element_reported(e: ListElementV, fin: Seq<LoweringErrorV>) -> bool
    decreases e, 0int,
{
    stmt_reported(e.statement, fin)
}

pub open spec fn elements_reported(es: Seq<ListElementV>, fin: Seq<LoweringErrorV>) -> bool
    decreases es, es.len() + 1,
{
    elements_reported_from(es, 0, fin)
}

pub open spec fn elements_reported_from(es: Seq<ListElementV>, i: int, fin: Seq<LoweringErrorV>) -> bool
    decreases es, es.len() - i,
{
    i < 0 || i >= es.len() || (element_reported(es[i], fin) && elements_reported_from(es, i + 1, fin))
}


proof fn lemma_prefix_trans(a: Seq<LoweringErrorV>, b: Seq<LoweringErrorV>, c: Seq<LoweringErrorV>)
    requires
        a.is_prefix_of(b),
        b.is_prefix_of(c),
    ensures
        a.is_prefix_of(c),
{
    assert forall|k: int| 0 <= k < a.len() implies c[k] == a[k] by {
        assert(b.subrange(0, a.len() as int)[k] == b[k]);
        assert(c.subrange(0, b.len() as int)[k] == c[k]);
    }
    assert(a =~= c.subrange(0, a.len() as int));
}

/// A result whose errors lead on to `fin` within the rest of the lowering.
proof fn lemma_rest(a: LState, b: LState, fin: Seq<LoweringErrorV>)
    requires
        errors_extend(a, b),
        b.errors.is_prefix_of(fin),
    ensures
        a.errors.is_prefix_of(fin),
{
    lemma_prefix_trans(a.errors, b.errors, fin);
}

proof fn lemma_stmts_rep_from(xs: Seq<StatementV>, i: int, fin: Seq<LoweringErrorV>)
    requires
        0 <= i <= xs.len(),
    ensures
        stmts_reported_from(xs, i, fin) <==> forall|j: int| i <= j < xs.len() ==> #[trigger] stmt_reported(xs[j], fin),
    decreases xs.len() - i,
{
    if i < xs.len() {
        lemma_stmts_rep_from(xs, i + 1, fin);
        if stmts_reported_from(xs, i, fin) {
            assert forall|j: int| i <= j < xs.len() implies #[trigger] stmt_reported(xs[j], fin) by {
                if j > i {
                    assert(i + 1 <= j);
                }
            }
        }
        if forall|j: int| i <= j < xs.len() ==> #[trigger] stmt_reported(xs[j], fin) {
            assert(stmt_reported(xs[i], fin));
            assert forall|j: int| i + 1 <= j < xs.len() implies #[trigger] stmt_reported(xs[j], fin) by {
                assert(i <= j);
            }
        }
    }
}

proof fn lemma_stmts_rep_all(xs: Seq<StatementV>, fin: Seq<LoweringErrorV>)
    ensures
        stmts_reported(xs, fin) <==> forall|j: int| 0 <= j < xs.len() ==> #[trigger] stmt_reported(xs[j], fin),
{
    lemma_stmts_rep_from(xs, 0, fin);
}

proof fn lemma_stmts_rep_push(a: Seq<StatementV>, x: StatementV, fin: Seq<LoweringErrorV>)
    requires
        stmts_reported(a, fin),
        stmt_reported(x, fin),
    ensures
        stmts_reported(a.push(x), fin),
{
    lemma_stmts_rep_all(a, fin);
    lemma_stmts_rep_all(a.push(x), fin);
    assert forall|j: int| 0 <= j < a.push(x).len() implies #[trigger] stmt_reported(a.push(x)[j], fin) by {
        if j < a.len() {
            assert(a.push(x)[j] == a[j]);
        } else {
            assert(a.push(x)[j] == x);
        }
    }
}

proof fn lemma_words_rep_from(xs: Seq<WordV>, i: int, fin: Seq<LoweringErrorV>)
    requires
        0 <= i <= xs.len(),
    ensures
        words_reported_from(xs, i, fin) <==> forall|j: int| i <= j < xs.len() ==> #[trigger] word_reported(xs[j], fin),
    decreases xs.len() - i,
{
    if i < xs.len() {
        lemma_words_rep_from(xs, i + 1, fin);
        if words_reported_from(xs, i, fin) {
            assert forall|j: int| i <= j < xs.len() implies #[trigger] word_reported(xs[j], fin) by {
                if j > i {
                    assert(i + 1 <= j);
                }
            }
        }
        if forall|j: int| i <= j < xs.len() ==> #[trigger] word_reported(xs[j], fin) {
            assert(word_reported(xs[i], fin));
            assert forall|j: int| i + 1 <= j < xs.len() implies #[trigger] word_reported(xs[j], fin) by {
                assert(i <= j);
            }
        }
    }
}

proof fn lemma_words_rep_all(xs: Seq<WordV>, fin: Seq<LoweringErrorV>)
    ensures
        words_reported(xs, fin) <==> forall|j: int| 0 <= j < xs.len() ==> #[trigger] word_reported(xs[j], fin),
{
    lemma_words_rep_from(xs, 0, fin);
}

proof fn lemma_words_rep_add(a: Seq<WordV>, b: Seq<WordV>, fin: Seq<LoweringErrorV>)
    requires
        words_reported(a, fin),
        words_reported(b, fin),
    ensures
        words_reported(a + b, fin),
{
    lemma_words_rep_all(a, fin);
    lemma_words_rep_all(b, fin);
    lemma_words_rep_all(a + b, fin);
    assert forall|j: int| 0 <= j < (a + b).len() implies #[trigger] word_reported((a + b)[j], fin) by {
        if j < a.len() {
            assert((a + b)[j] == a[j]);
        } else {
            assert((a + b)[j] == b[j - a.len()]);
        }
    }
}

proof fn lemma_words_rep_push(a: Seq<WordV>, x: WordV, fin: Seq<LoweringErrorV>)
    requires
        words_reported(a, fin),
        word_reported(x, fin),
    ensures
        words_reported(a.push(x), fin),
{
    lemma_words_rep_all(a, fin);
    lemma_words_rep_all(a.push(x), fin);
    assert forall|j: int| 0 <= j < a.push(x).len() implies #[trigger] word_reported(a.push(x)[j], fin) by {
        if j < a.len() {
            assert(a.push(x)[j] == a[j]);
        } else {
            assert(a.push(x)[j] == x);
        }
    }
}

proof fn lemma_segs_rep_from(xs: Seq<SegmentV>, i: int, fin: Seq<LoweringErrorV>)
    requires
        0 <= i <= xs.len(),
    ensures
        segs_reported_from(xs, i, fin) <==> forall|j: int| i <= j < xs.len() ==> #[trigger] seg_reported(xs[j], fin),
    decreases xs.len() - i,
{
    if i < xs.len() {
        lemma_segs_rep_from(xs, i + 1, fin);
        if segs_reported_from(xs, i, fin) {
            assert forall|j: int| i <= j < xs.len() implies #[trigger] seg_reported(xs[j], fin) by {
                if j > i {
                    assert(i + 1 <= j);
                }
            }
        }
        if forall|j: int| i <= j < xs.len() ==> #[trigger] seg_reported(xs[j], fin) {
            assert(seg_reported(xs[i], fin));
            assert forall|j: int| i + 1 <= j < xs.len() implies #[trigger] seg_reported(xs[j], fin) by {
                assert(i <= j);
            }
        }
    }
}

proof fn lemma_segs_rep_all(xs: Seq<SegmentV>, fin: Seq<LoweringErrorV>)
    ensures
        segs_reported(xs, fin) <==> forall|j: int| 0 <= j < xs.len() ==> #[trigger] seg_reported(xs[j], fin),
{
    lemma_segs_rep_from(xs, 0, fin);
}

proof fn lemma_segs_rep_add(a: Seq<SegmentV>, b: Seq<SegmentV>, fin: Seq<LoweringErrorV>)
    requires
        segs_reported(a, fin),
        segs_reported(b, fin),
    ensures
        segs_reported(a + b, fin),
{
    lemma_segs_rep_all(a, fin);
    lemma_segs_rep_all(b, fin);
    lemma_segs_rep_all(a + b, fin);
    assert forall|j: int| 0 <= j < (a + b).len() implies #[trigger] seg_reported((a + b)[j], fin) by {
        if j < a.len() {
            assert((a + b)[j] == a[j]);
        } else {
            assert((a + b)[j] == b[j - a.len()]);
        }
    }
}

proof fn lemma_redirects_rep_from(xs: Seq<RedirectV>, i: int, fin: Seq<LoweringErrorV>)
    requires
        0 <= i <= xs.len(),
    ensures
        redirects_reported_from(xs, i, fin) <==> forall|j: int| i <= j < xs.len() ==> #[trigger] redirect_reported(xs[j], fin),
    decreases xs.len() - i,
{
    if i < xs.len() {
        lemma_redirects_rep_from(xs, i + 1, fin);
        if redirects_reported_from(xs, i, fin) {
            assert forall|j: int| i <= j < xs.len() implies #[trigger] redirect_reported(xs[j], fin) by {
                if j > i {
                    assert(i + 1 <= j);
                }
            }
        }
        if forall|j: int| i <= j < xs.len() ==> #[trigger] redirect_reported(xs[j], fin) {
            assert(redirect_reported(xs[i], fin));
            assert forall|j: int| i + 1 <= j < xs.len() implies #[trigger] redirect_reported(xs[j], fin) by {
                assert(i <= j);
            }
        }
    }
}

proof fn lemma_redirects_rep_all(xs: Seq<RedirectV>, fin: Seq<LoweringErrorV>)
    ensures
        redirects_reported(xs, fin) <==> forall|j: int| 0 <= j < xs.len() ==> #[trigger] redirect_reported(xs[j], fin),
{
    lemma_redirects_rep_from(xs, 0, fin);
}

proof fn lemma_redirects_rep_add(a: Seq<RedirectV>, b: Seq<RedirectV>, fin: Seq<LoweringErrorV>)
    requires
        redirects_reported(a, fin),
        redirects_reported(b, fin),
    ensures
        redirects_reported(a + b, fin),
{
    lemma_redirects_rep_all(a, fin);
    lemma_redirects_rep_all(b, fin);
    lemma_redirects_rep_all(a + b, fin);
    assert forall|j: int| 0 <= j < (a + b).len() implies #[trigger] redirect_reported((a + b)[j], fin) by {
        if j < a.len() {
            assert((a + b)[j] == a[j]);
        } else {
            assert((a + b)[j] == b[j - a.len()]);
        }
    }
}

proof fn lemma_redirects_rep_push(a: Seq<RedirectV>, x: RedirectV, fin: Seq<LoweringErrorV>)
    requires
        redirects_reported(a, fin),
        redirect_reported(x, fin),
    ensures
        redirects_reported(a.push(x), fin),
{
    lemma_redirects_rep_all(a, fin);
    lemma_redirects_rep_all(a.push(x), fin);
    assert forall|j: int| 0 <= j < a.push(x).len() implies #[trigger] redirect_reported(a.push(x)[j], fin) by {
        if j < a.len() {
            assert(a.push(x)[j] == a[j]);
        } else {
            assert(a.push(x)[j] == x);
        }
    }
}

proof fn lemma_arms_rep_from(xs: Seq<CaseArmV>, i: int, fin: Seq<LoweringErrorV>)
    requires
        0 <= i <= xs.len(),
    ensures
        arms_reported_from(xs, i, fin) <==> forall|j: int| i <= j < xs.len() ==> #[trigger] arm_reported(xs[j], fin),
    decreases xs.len() - i,
{
    if i < xs.len() {
        lemma_arms_rep_from(xs, i + 1, fin);
        if arms_reported_from(xs, i, fin) {
            assert forall|j: int| i <= j < xs.len() implies #[trigger] arm_reported(xs[j], fin) by {
                if j > i {
                    assert(i + 1 <= j);
                }
            }
        }
        if forall|j: int| i <= j < xs.len() ==> #[trigger] arm_reported(xs[j], fin) {
            assert(arm_reported(xs[i], fin));
            assert forall|j: int| i + 1 <= j < xs.len() implies #[trigger] arm_reported(xs[j], fin) by {
                assert(i <= j);
            }
        }
    }
}

proof fn lemma_arms_rep_all(xs: Seq<CaseArmV>, fin: Seq<LoweringErrorV>)
    ensures
        arms_reported(xs, fin) <==> forall|j: int| 0 <= j < xs.len() ==> #[trigger] arm_reported(xs[j], fin),
{
    lemma_arms_rep_from(xs, 0, fin);
}

proof fn lemma_arms_rep_push(a: Seq<CaseArmV>, x: CaseArmV, fin: Seq<LoweringErrorV>)
    requires
        arms_reported(a, fin),
        arm_reported(x, fin),
    ensures
        arms_reported(a.push(x), fin),
{
    lemma_arms_rep_all(a, fin);
    lemma_arms_rep_all(a.push(x), fin);
    assert forall|j: int| 0 <= j < a.push(x).len() implies #[trigger] arm_reported(a.push(x)[j], fin) by {
        if j < a.len() {
            assert(a.push(x)[j] == a[j]);
        } else {
            assert(a.push(x)[j] == x);
        }
    }
}

proof fn lemma_elements_rep_from(xs: Seq<ListElementV>, i: int, fin: Seq<LoweringErrorV>)
    requires
        0 <= i <= xs.len(),
    ensures
        elements_reported_from(xs, i, fin) <==> forall|j: int| i <= j < xs.len() ==> #[trigger] element_reported(xs[j], fin),
    decreases xs.len() - i,
{
    if i < xs.len() {
        lemma_elements_rep_from(xs, i + 1, fin);
        if elements_reported_from(xs, i, fin) {
            assert forall|j: int| i <= j < xs.len() implies #[trigger] element_reported(xs[j], fin) by {
                if j > i {
                    assert(i + 1 <= j);
                }
            }
        }
        if forall|j: int| i <= j < xs.len() ==> #[trigger] element_reported(xs[j], fin) {
            assert(element_reported(xs[i], fin));
            assert forall|j: int| i + 1 <= j < xs.len() implies #[trigger] element_reported(xs[j], fin) by {
                assert(i <= j);
            }
        }
    }
}

proof fn lemma_elements_rep_all(xs: Seq<ListElementV>, fin: Seq<LoweringErrorV>)
    ensures
        elements_reported(xs, fin) <==> forall|j: int| 0 <= j < xs.len() ==> #[trigger] element_reported(xs[j], fin),
{
    lemma_elements_rep_from(xs, 0, fin);
}

proof fn lemma_elements_rep_push(a: Seq<ListElementV>, x: ListElementV, fin: Seq<LoweringErrorV>)
    requires
        elements_reported(a, fin),
        element_reported(x, fin),
    ensures
        elements_reported(a.push(x), fin),
{
    lemma_elements_rep_all(a, fin);
    lemma_elements_rep_all(a.push(x), fin);
    assert forall|j: int| 0 <= j < a.push(x).len() implies #[trigger] element_reported(a.push(x)[j], fin) by {
        if j < a.len() {
            assert(a.push(x)[j] == a[j]);
        } else {
            assert(a.push(x)[j] == x);
        }
    }
}

proof fn lemma_elements_rep_attach(es: Seq<ListElementV>, pending: Option<ListOperator>, x: StatementV, fin: Seq<LoweringErrorV>)
    requires
        elements_reported(es, fin),
        stmt_reported(x, fin),
    ensures
        elements_reported(attach_pending(es, pending).push(ListElementV { statement: x, operator: None }), fin),
{
    let a = attach_pending(es, pending);
    lemma_elements_rep_all(es, fin);
    lemma_elements_rep_all(a, fin);
    assert forall|j: int| 0 <= j < a.len() implies #[trigger] element_reported(a[j], fin) by {
        assert(a[j].statement == es[j].statement);
        assert(element_reported(es[j], fin));
    }
    lemma_elements_rep_push(a, ListElementV { statement: x, operator: None }, fin);
}

proof fn lemma_lit_word_rep(span: Span, t: Seq<char>, fin: Seq<LoweringErrorV>)
    ensures
        word_reported(lit_word(span, t), fin),
{
    let w = lit_word(span, t);
    lemma_segs_rep_all(w.segments, fin);
    assert(seg_reported(w.segments[0], fin));
}

proof fn lemma_stmts_except_rep(n: SyntaxNode, i: int, set: Skip, acc: Seq<StatementV>, st: LState, fin: Seq<LoweringErrorV>)
    requires
        stmts_except_s(n, i, set, acc, st).1.errors.is_prefix_of(fin),
        stmts_reported(acc, fin),
    ensures
        stmts_reported(stmts_except_s(n, i, set, acc, st).0, fin),
    decreases n, nkids(n) - i,
{
    if i < 0 || i >= nkids(n) {
    } else if skipped(set, kid(n, i).kind@) {
        lemma_stmts_except_rep(n, i + 1, set, acc, st, fin);
    } else {
        let (s, st2) = stmt_s(kid(n, i), st);
        lemma_stmts_except_errors(n, i + 1, set, acc.push(s), st2);
        lemma_rest(st2, stmts_except_s(n, i + 1, set, acc.push(s), st2).1, fin);
        lemma_stmt_rep(kid(n, i), st, fin);
        lemma_stmts_rep_push(acc, s, fin);
        lemma_stmts_except_rep(n, i + 1, set, acc.push(s), st2, fin);
    }
}

proof fn lemma_words_except_rep(n: SyntaxNode, i: int, set: Skip, acc: Seq<WordV>, st: LState, fin: Seq<LoweringErrorV>)
    requires
        words_except_s(n, i, set, acc, st).1.errors.is_prefix_of(fin),
        words_reported(acc, fin),
    ensures
        words_reported(words_except_s(n, i, set, acc, st).0, fin),
    decreases n, nkids(n) - i,
{
    if i < 0 || i >= nkids(n) {
    } else if skipped(set, kid(n, i).kind@) {
        lemma_words_except_rep(n, i + 1, set, acc, st, fin);
    } else {
        let (w, st2) = word_s(kid(n, i), st);
        lemma_words_except_errors(n, i + 1, set, acc.push(w), st2);
        lemma_rest(st2, words_except_s(n, i + 1, set, acc.push(w), st2).1, fin);
        lemma_word_rep(kid(n, i), st, fin);
        lemma_words_rep_push(acc, w, fin);
        lemma_words_except_rep(n, i + 1, set, acc.push(w), st2, fin);
    }
}

proof fn lemma_stmt_rep(n: SyntaxNode, st: LState, fin: Seq<LoweringErrorV>)
    requires
        stmt_s(n, st).1.errors.is_prefix_of(fin),
    ensures
        stmt_reported(stmt_s(n, st).0, fin),
    decreases n, nkids(n) + 20,
{
    let k = n.kind@;
    let span = span_of(n);
    let (id, s1) = fresh_id(st);
    let e = Seq::<StatementV>::empty();
    assert(stmts_reported(e, fin));
    if k == "command"@ {
        lemma_command_rep(n, st, fin);
    } else if k == "variable_assignment"@ {
        lemma_var_assign_rep(n, st, fin);
    } else if k == "declaration_command"@ {
        lemma_decl_rep(n, st, fin);
    } else if k == "pipeline"@ {
        lemma_stmts_except_rep(n, 0, Skip::Pipe, e, s1, fin);
    } else if k == "if_statement"@ {
        lemma_if_rep(n, st, false, fin);
    } else if k == "for_statement"@ {
        lemma_for_rep(n, st, fin);
    } else if k == "while_statement"@ {
        lemma_while_rep(n, st, fin);
    } else if k == "case_statement"@ {
        lemma_case_rep(n, st, fin);
    } else if k == "compound_statement"@ {
        lemma_stmts_except_rep(n, 0, Skip::Compound, e, s1, fin);
    } else if k == "list"@ {
        lemma_list_rep(n, st, fin);
    } else if k == "subshell"@ {
        lemma_stmts_except_rep(n, 0, Skip::Subshell, e, s1, fin);
    } else if k == "redirected_statement"@ {
        lemma_redirected_rep(n, st, fin);
    } else if k == "negated_command"@ {
        lemma_stmts_except_rep(n, 0, Skip::Negation, e, s1, fin);
    } else if k == "test_command"@ {
        lemma_test_rep(n, st, fin);
    } else if k == "unset_command"@ {
        let ew = Seq::<WordV>::empty();
        assert(words_reported(ew, fin));
        lemma_words_except_rep(n, 0, Skip::Unset, ew, s1, fin);
        lemma_lit_word_rep(span, "unset"@, fin);
        assert(redirects_reported(Seq::<RedirectV>::empty(), fin));
    } else {
        let err = LoweringErrorV { kind: k, span };
        let out = stmt_s(n, st).1.errors;
        assert(out == st.errors.push(err));
        assert(fin.subrange(0, out.len() as int)[st.errors.len() as int] == fin[st.errors.len() as int]);
        assert(fin[st.errors.len() as int] == err);
        assert(fin.contains(err));
    }
}

pub open spec fn opt_word_reported(w: Option<WordV>, fin: Seq<LoweringErrorV>) -> bool {
    match w {
        Some(x) => word_reported(x, fin),
        None => true,
    }
}

pub open spec fn cmd_acc_reported(acc: CmdAcc, fin: Seq<LoweringErrorV>) -> bool {
    opt_word_reported(acc.name, fin) && words_reported(acc.args, fin) && redirects_reported(acc.redirects, fin)
}

proof fn lemma_command_loop_rep(n: SyntaxNode, i: int, acc: CmdAcc, fin: Seq<LoweringErrorV>)
    requires
        command_loop_s(n, i, acc).st.errors.is_prefix_of(fin),
        cmd_acc_reported(acc, fin),
    ensures
        cmd_acc_reported(command_loop_s(n, i, acc), fin),
    decreases n, nkids(n) - i,
{
    if 0 <= i < nkids(n) {
        let c = kid(n, i);
        let next = if c.kind@ == "command_name"@ {
            let inner = if c.children@.len() > 0 { c.children@[0] } else { c };
            let (w, s) = word_s(inner, acc.st);
            CmdAcc { name: Some(w), st: s, ..acc }
        } else if is_redirect_kind(c.kind@) {
            let (r, s) = redirect_s(c, acc.st);
            CmdAcc { redirects: acc.redirects.push(r), st: s, ..acc }
        } else if acc.name is Some {
            let (w, s) = word_s(c, acc.st);
            CmdAcc { args: acc.args.push(w), st: s, ..acc }
        } else {
            acc
        };
        lemma_command_loop_errors(n, i + 1, next);
        lemma_rest(next.st, command_loop_s(n, i + 1, next).st, fin);
        if c.kind@ == "command_name"@ {
            let inner = if c.children@.len() > 0 { c.children@[0] } else { c };
            lemma_word_rep(inner, acc.st, fin);
        } else if is_redirect_kind(c.kind@) {
            let (r, s) = redirect_s(c, acc.st);
            lemma_redirect_rep(c, acc.st, fin);
            lemma_redirects_rep_push(acc.redirects, r, fin);
        } else if acc.name is Some {
            let (w, s) = word_s(c, acc.st);
            lemma_word_rep(c, acc.st, fin);
            lemma_words_rep_push(acc.args, w, fin);
        }
        lemma_command_loop_rep(n, i + 1, next, fin);
    }
}

proof fn lemma_command_rep(n: SyntaxNode, st: LState, fin: Seq<LoweringErrorV>)
    requires
        command_s(n, st).1.errors.is_prefix_of(fin),
    ensures
        stmt_reported(command_s(n, st).0, fin),
    decreases n, nkids(n) + 10,
{
    let span = span_of(n);
    let (id, s1) = fresh_id(st);
    let acc0 = CmdAcc { name: None, args: Seq::empty(), redirects: Seq::empty(), st: s1 };
    assert(words_reported(acc0.args, fin));
    assert(redirects_reported(acc0.redirects, fin));
    lemma_command_loop_rep(n, 0, acc0, fin);
    let acc = command_loop_s(n, 0, acc0);
    lemma_lit_word_rep(span, n.text@, fin);
    if acc.args.len() > 0 {
        lemma_words_rep_all(acc.args, fin);
        assert(word_reported(acc.args[0], fin));
    }
}

proof fn lemma_redirect_loop_rep(n: SyntaxNode, i: int, acc: RedirAcc, fin: Seq<LoweringErrorV>)
    requires
        redirect_loop_s(n, i, acc).st.errors.is_prefix_of(fin),
        word_reported(acc.target, fin),
    ensures
        word_reported(redirect_loop_s(n, i, acc).target, fin),
    decreases n, nkids(n) - i,
{
    if 0 <= i < nkids(n) {
        let c = kid(n, i);
        let next = if c.kind@ == "file_descriptor"@ {
            RedirAcc { fd: Some(c.text@), ..acc }
        } else if is_redirect_op(c.kind@) {
            RedirAcc { op: c.text@, ..acc }
        } else {
            let (w, s) = word_s(c, acc.st);
            RedirAcc { target: w, st: s, ..acc }
        };
        lemma_redirect_loop_errors(n, i + 1, next);
        lemma_rest(next.st, redirect_loop_s(n, i + 1, next).st, fin);
        if !(c.kind@ == "file_descriptor"@ || is_redirect_op(c.kind@)) {
            lemma_word_rep(c, acc.st, fin);
        }
        lemma_redirect_loop_rep(n, i + 1, next, fin);
    }
}

proof fn lemma_redirect_rep(n: SyntaxNode, st: LState, fin: Seq<LoweringErrorV>)
    requires
        redirect_s(n, st).1.errors.is_prefix_of(fin),
    ensures
        redirect_reported(redirect_s(n, st).0, fin),
    decreases n, nkids(n) + 10,
{
    let acc = RedirAcc { fd: None, op: Seq::empty(), target: WordV { span: span_of(n), segments: Seq::empty() }, st };
    assert(segs_reported(acc.target.segments, fin));
    lemma_redirect_loop_rep(n, 0, acc, fin);
}

pub open spec fn assign_acc_reported(acc: AssignAcc, fin: Seq<LoweringErrorV>) -> bool {
    opt_word_reported(acc.value, fin) && match acc.array_value {
        Some(ws) => words_reported(ws, fin),
        None => true,
    }
}

proof fn lemma_assign_loop_rep(n: SyntaxNode, i: int, acc: AssignAcc, fin: Seq<LoweringErrorV>)
    requires
        assign_loop_s(n, i, acc).st.errors.is_prefix_of(fin),
        assign_acc_reported(acc, fin),
    ensures
        assign_acc_reported(assign_loop_s(n, i, acc), fin),
    decreases n, nkids(n) - i,
{
    if 0 <= i < nkids(n) {
        let c = kid(n, i);
        let next = if c.kind@ == "variable_name"@ {
            AssignAcc { name: c.text@, ..acc }
        } else if c.kind@ == "="@ {
            acc
        } else if c.kind@ == "array"@ {
            let (ws, s) = words_except_s(c, 0, Skip::ArrayParens, Seq::empty(), acc.st);
            AssignAcc { array_value: Some(ws), st: s, ..acc }
        } else {
            let (w, s) = word_s(c, acc.st);
            AssignAcc { value: Some(w), st: s, ..acc }
        };
        lemma_assign_loop_errors(n, i + 1, next);
        lemma_rest(next.st, assign_loop_s(n, i + 1, next).st, fin);
        if c.kind@ == "variable_name"@ || c.kind@ == "="@ {
        } else if c.kind@ == "array"@ {
            assert(words_reported(Seq::<WordV>::empty(), fin));
            lemma_words_except_rep(c, 0, Skip::ArrayParens, Seq::empty(), acc.st, fin);
        } else {
            lemma_word_rep(c, acc.st, fin);
        }
        lemma_assign_loop_rep(n, i + 1, next, fin);
    }
}

proof fn lemma_var_assign_rep(n: SyntaxNode, st: LState, fin: Seq<LoweringErrorV>)
    requires
        var_assign_s(n, st).1.errors.is_prefix_of(fin),
    ensures
        stmt_reported(var_assign_s(n, st).0, fin),
    decreases n, nkids(n) + 10,
{
    let (id, s1) = fresh_id(st);
    let acc = AssignAcc { name: Seq::empty(), value: None, array_value: None, st: s1 };
    lemma_assign_loop_rep(n, 0, acc, fin);
}

proof fn lemma_decl_loop_rep(n: SyntaxNode, i: int, acc: DeclAcc, fin: Seq<LoweringErrorV>)
    requires
        decl_loop_s(n, i, acc).a.st.errors.is_prefix_of(fin),
        assign_acc_reported(acc.a, fin),
    ensures
        assign_acc_reported(decl_loop_s(n, i, acc).a, fin),
    decreases n, nkids(n) - i,
{
    if 0 <= i < nkids(n) {
        let c = kid(n, i);
        let k = c.kind@;
        let t = c.text@;
        let next = if k == "local"@ {
            DeclAcc { decl_kind: Some(DeclKind::Local), ..acc }
        } else if k == "declare"@ {
            DeclAcc { decl_kind: Some(DeclKind::Declare), ..acc }
        } else if k == "export"@ {
            DeclAcc { decl_kind: Some(DeclKind::Export), ..acc }
        } else if k == "readonly"@ {
            DeclAcc { decl_kind: Some(DeclKind::Readonly), ..acc }
        } else if k == "word"@ {
            if t.len() > 0 && t[0] == '-' {
                DeclAcc { flags: acc.flags.push(t), ..acc }
            } else if acc.a.name.len() == 0 {
                DeclAcc { a: AssignAcc { name: t, ..acc.a }, ..acc }
            } else {
                acc
            }
        } else if k == "variable_name"@ {
            DeclAcc { a: AssignAcc { name: t, ..acc.a }, ..acc }
        } else if k == "variable_assignment"@ {
            DeclAcc { a: assign_loop_s(c, 0, acc.a), ..acc }
        } else {
            acc
        };
        lemma_decl_loop_errors(n, i + 1, next);
        lemma_rest(next.a.st, decl_loop_s(n, i + 1, next).a.st, fin);
        if k == "local"@ || k == "declare"@ || k == "export"@ || k == "readonly"@ || k == "word"@ || k
            == "variable_name"@ {
        } else if k == "variable_assignment"@ {
            lemma_assign_loop_rep(c, 0, acc.a, fin);
        }
        lemma_decl_loop_rep(n, i + 1, next, fin);
    }
}

proof fn lemma_decl_rep(n: SyntaxNode, st: LState, fin: Seq<LoweringErrorV>)
    requires
        decl_s(n, st).1.errors.is_prefix_of(fin),
    ensures
        stmt_reported(decl_s(n, st).0, fin),
    decreases n, nkids(n) + 10,
{
    let (id, s1) = fresh_id(st);
    let acc = DeclAcc {
        decl_kind: None,
        flags: Seq::empty(),
        a: AssignAcc { name: Seq::empty(), value: None, array_value: None, st: s1 },
    };
    lemma_decl_loop_rep(n, 0, acc, fin);
}

pub open spec fn if_acc_reported(acc: IfAcc, fin: Seq<LoweringErrorV>) -> bool {
    stmts_reported(acc.cond, fin) && stmts_reported(acc.then_body, fin) && match acc.else_body {
        Some(e) => stmts_reported(e, fin),
        None => true,
    }
}

proof fn lemma_if_loop_rep(n: SyntaxNode, i: int, elif: bool, acc: IfAcc, fin: Seq<LoweringErrorV>)
    requires
        if_loop_s(n, i, elif, acc).st.errors.is_prefix_of(fin),
        if_acc_reported(acc, fin),
    ensures
        if_acc_reported(if_loop_s(n, i, elif, acc), fin),
    decreases n, nkids(n) - i,
{
    if 0 <= i < nkids(n) {
        let c = kid(n, i);
        let k = c.kind@;
        let next = if (!elif && k == "if"@) || (elif && k == "elif"@) {
            IfAcc { in_cond: true, ..acc }
        } else if k == "then"@ {
            IfAcc { in_cond: false, in_then: true, ..acc }
        } else if k == "else_clause"@ {
            let (b, s) = stmts_except_s(c, 0, Skip::Else, Seq::empty(), acc.st);
            IfAcc { in_then: false, else_body: Some(b), st: s, ..acc }
        } else if k == "elif_clause"@ {
            let (e, s) = if_s(c, acc.st, true);
            IfAcc { in_then: false, else_body: Some(seq![e]), st: s, ..acc }
        } else if (!elif && k == "fi"@) || k == ";"@ || k == "\n"@ {
            acc
        } else if acc.in_cond {
            let (s1, s) = stmt_s(c, acc.st);
            IfAcc { cond: acc.cond.push(s1), st: s, ..acc }
        } else if acc.in_then {
            let (s1, s) = stmt_s(c, acc.st);
            IfAcc { then_body: acc.then_body.push(s1), st: s, ..acc }
        } else {
            acc
        };
        lemma_if_loop_errors(n, i + 1, elif, next);
        lemma_rest(next.st, if_loop_s(n, i + 1, elif, next).st, fin);
        if (!elif && k == "if"@) || (elif && k == "elif"@) || k == "then"@ {
        } else if k == "else_clause"@ {
            assert(stmts_reported(Seq::<StatementV>::empty(), fin));
            lemma_stmts_except_rep(c, 0, Skip::Else, Seq::empty(), acc.st, fin);
        } else if k == "elif_clause"@ {
            let (e, s) = if_s(c, acc.st, true);
            lemma_if_rep(c, acc.st, true, fin);
            lemma_stmts_rep_push(Seq::<StatementV>::empty(), e, fin);
            assert(Seq::<StatementV>::empty().push(e) =~= seq![e]);
        } else if (!elif && k == "fi"@) || k == ";"@ || k == "\n"@ {
        } else if acc.in_cond {
            let (s1, s) = stmt_s(c, acc.st);
            lemma_stmt_rep(c, acc.st, fin);
            lemma_stmts_rep_push(acc.cond, s1, fin);
        } else if acc.in_then {
            let (s1, s) = stmt_s(c, acc.st);
            lemma_stmt_rep(c, acc.st, fin);
            lemma_stmts_rep_push(acc.then_body, s1, fin);
        }
        lemma_if_loop_rep(n, i + 1, elif, next, fin);
    }
}

proof fn lemma_if_rep(n: SyntaxNode, st: LState, elif: bool, fin: Seq<LoweringErrorV>)
    requires
        if_s(n, st, elif).1.errors.is_prefix_of(fin),
    ensures
        stmt_reported(if_s(n, st, elif).0, fin),
    decreases n, nkids(n) + 10,
{
    let (id, s1) = fresh_id(st);
    let acc = IfAcc { cond: Seq::empty(), then_body: Seq::empty(), else_body: None, in_cond: false, in_then: false, st: s1 };
    assert(stmts_reported(acc.cond, fin));
    lemma_if_loop_rep(n, 0, elif, acc, fin);
}

proof fn lemma_for_loop_rep(n: SyntaxNode, i: int, acc: ForAcc, fin: Seq<LoweringErrorV>)
    requires
        for_loop_s(n, i, acc).st.errors.is_prefix_of(fin),
        words_reported(acc.items, fin),
        stmts_reported(acc.body, fin),
    ensures
        words_reported(for_loop_s(n, i, acc).items, fin),
        stmts_reported(for_loop_s(n, i, acc).body, fin),
    decreases n, nkids(n) - i,
{
    if 0 <= i < nkids(n) {
        let c = kid(n, i);
        let k = c.kind@;
        let next = if k == "for"@ {
            acc
        } else if k == "variable_name"@ {
            ForAcc { variable: c.text@, ..acc }
        } else if k == "in"@ {
            ForAcc { in_items: true, ..acc }
        } else if k == "do_group"@ {
            let (b, s) = stmts_except_s(c, 0, Skip::DoGroup, Seq::empty(), acc.st);
            ForAcc { in_items: false, body: b, st: s, ..acc }
        } else if k == ";"@ || k == "\n"@ {
            acc
        } else if acc.in_items {
            let (w, s) = word_s(c, acc.st);
            ForAcc { items: acc.items.push(w), st: s, ..acc }
        } else {
            acc
        };
        lemma_for_loop_errors(n, i + 1, next);
        lemma_rest(next.st, for_loop_s(n, i + 1, next).st, fin);
        if k == "for"@ || k == "variable_name"@ || k == "in"@ {
        } else if k == "do_group"@ {
            assert(stmts_reported(Seq::<StatementV>::empty(), fin));
            lemma_stmts_except_rep(c, 0, Skip::DoGroup, Seq::empty(), acc.st, fin);
        } else if k == ";"@ || k == "\n"@ {
        } else if acc.in_items {
            let (w, s) = word_s(c, acc.st);
            lemma_word_rep(c, acc.st, fin);
            lemma_words_rep_push(acc.items, w, fin);
        }
        lemma_for_loop_rep(n, i + 1, next, fin);
    }
}

proof fn lemma_for_rep(n: SyntaxNode, st: LState, fin: Seq<LoweringErrorV>)
    requires
        for_s(n, st).1.errors.is_prefix_of(fin),
    ensures
        stmt_reported(for_s(n, st).0, fin),
    decreases n, nkids(n) + 10,
{
    let (id, s1) = fresh_id(st);
    let acc = ForAcc { variable: Seq::empty(), items: Seq::empty(), body: Seq::empty(), in_items: false, st: s1 };
    assert(stmts_reported(acc.body, fin));
    assert(words_reported(acc.items, fin));
    lemma_for_loop_rep(n, 0, acc, fin);
}

proof fn lemma_while_loop_rep(n: SyntaxNode, i: int, acc: WhileAcc, fin: Seq<LoweringErrorV>)
    requires
        while_loop_s(n, i, acc).st.errors.is_prefix_of(fin),
        stmts_reported(acc.cond, fin),
        stmts_reported(acc.body, fin),
    ensures
        stmts_reported(while_loop_s(n, i, acc).cond, fin),
        stmts_reported(while_loop_s(n, i, acc).body, fin),
    decreases n, nkids(n) - i,
{
    if 0 <= i < nkids(n) {
        let c = kid(n, i);
        let k = c.kind@;
        let next = if k == "while"@ || k == "until"@ {
            WhileAcc { in_cond: true, ..acc }
        } else if k == "do_group"@ {
            let (b, s) = stmts_except_s(c, 0, Skip::DoGroup, Seq::empty(), acc.st);
            WhileAcc { in_cond: false, body: b, st: s, ..acc }
        } else if k == ";"@ || k == "\n"@ {
            acc
        } else if acc.in_cond {
            let (s1, s) = stmt_s(c, acc.st);
            WhileAcc { cond: acc.cond.push(s1), st: s, ..acc }
        } else {
            acc
        };
        lemma_while_loop_errors(n, i + 1, next);
        lemma_rest(next.st, while_loop_s(n, i + 1, next).st, fin);
        if k == "while"@ || k == "until"@ {
        } else if k == "do_group"@ {
            assert(stmts_reported(Seq::<StatementV>::empty(), fin));
            lemma_stmts_except_rep(c, 0, Skip::DoGroup, Seq::empty(), acc.st, fin);
        } else if k == ";"@ || k == "\n"@ {
        } else if acc.in_cond {
            let (s1, s) = stmt_s(c, acc.st);
            lemma_stmt_rep(c, acc.st, fin);
            lemma_stmts_rep_push(acc.cond, s1, fin);
        }
        lemma_while_loop_rep(n, i + 1, next, fin);
    }
}

proof fn lemma_while_rep(n: SyntaxNode, st: LState, fin: Seq<LoweringErrorV>)
    requires
        while_s(n, st).1.errors.is_prefix_of(fin),
    ensures
        stmt_reported(while_s(n, st).0, fin),
    decreases n, nkids(n) + 10,
{
    let (id, s1) = fresh_id(st);
    let acc = WhileAcc { cond: Seq::empty(), body: Seq::empty(), in_cond: false, st: s1 };
    assert(stmts_reported(acc.body, fin));
    lemma_while_loop_rep(n, 0, acc, fin);
}

proof fn lemma_arm_loop_rep(n: SyntaxNode, i: int, acc: ArmAcc, fin: Seq<LoweringErrorV>)
    requires
        arm_loop_s(n, i, acc).st.errors.is_prefix_of(fin),
        words_reported(acc.patterns, fin),
        stmts_reported(acc.body, fin),
    ensures
        words_reported(arm_loop_s(n, i, acc).patterns, fin),
        stmts_reported(arm_loop_s(n, i, acc).body, fin),
    decreases n, nkids(n) - i,
{
    if 0 <= i < nkids(n) {
        let c = kid(n, i);
        let k = c.kind@;
        let next = if k == ")"@ {
            ArmAcc { past: true, ..acc }
        } else if k == ";;"@ || k == ";&"@ || k == ";;&"@ || k == "("@ {
            acc
        } else if acc.past {
            let (s1, s) = stmt_s(c, acc.st);
            ArmAcc { body: acc.body.push(s1), st: s, ..acc }
        } else {
            let (w, s) = word_s(c, acc.st);
            ArmAcc { patterns: acc.patterns.push(w), st: s, ..acc }
        };
        lemma_arm_loop_errors(n, i + 1, next);
        lemma_rest(next.st, arm_loop_s(n, i + 1, next).st, fin);
        if k == ")"@ || k == ";;"@ || k == ";&"@ || k == ";;&"@ || k == "("@ {
        } else if acc.past {
            let (s1, s) = stmt_s(c, acc.st);
            lemma_stmt_rep(c, acc.st, fin);
            lemma_stmts_rep_push(acc.body, s1, fin);
        } else {
            let (w, s) = word_s(c, acc.st);
            lemma_word_rep(c, acc.st, fin);
            lemma_words_rep_push(acc.patterns, w, fin);
        }
        lemma_arm_loop_rep(n, i + 1, next, fin);
    }
}

proof fn lemma_arm_rep(n: SyntaxNode, st: LState, fin: Seq<LoweringErrorV>)
    requires
        arm_s(n, st).1.errors.is_prefix_of(fin),
    ensures
        arm_reported(arm_s(n, st).0, fin),
    decreases n, nkids(n) + 10,
{
    let acc = ArmAcc { patterns: Seq::empty(), body: Seq::empty(), past: false, st };
    assert(words_reported(acc.patterns, fin));
    assert(stmts_reported(acc.body, fin));
    lemma_arm_loop_rep(n, 0, acc, fin);
}

proof fn lemma_case_loop_rep(n: SyntaxNode, i: int, acc: CaseAcc, fin: Seq<LoweringErrorV>)
    requires
        case_loop_s(n, i, acc).st.errors.is_prefix_of(fin),
        word_reported(acc.subject, fin),
        arms_reported(acc.arms, fin),
    ensures
        word_reported(case_loop_s(n, i, acc).subject, fin),
        arms_reported(case_loop_s(n, i, acc).arms, fin),
    decreases n, nkids(n) - i,
{
    if 0 <= i < nkids(n) {
        let c = kid(n, i);
        let k = c.kind@;
        let next = if k == "case"@ || k == "in"@ || k == "esac"@ || k == ";"@ || k == "\n"@ {
            acc
        } else if k == "case_item"@ {
            let (a, s) = arm_s(c, acc.st);
            CaseAcc { arms: acc.arms.push(a), st: s, ..acc }
        } else if acc.subject.segments.len() == 0 {
            let (w, s) = word_s(c, acc.st);
            CaseAcc { subject: w, st: s, ..acc }
        } else {
            acc
        };
        lemma_case_loop_errors(n, i + 1, next);
        lemma_rest(next.st, case_loop_s(n, i + 1, next).st, fin);
        if k == "case"@ || k == "in"@ || k == "esac"@ || k == ";"@ || k == "\n"@ {
        } else if k == "case_item"@ {
            let (a, s) = arm_s(c, acc.st);
            lemma_arm_rep(c, acc.st, fin);
            lemma_arms_rep_push(acc.arms, a, fin);
        } else if acc.subject.segments.len() == 0 {
            lemma_word_rep(c, acc.st, fin);
        }
        lemma_case_loop_rep(n, i + 1, next, fin);
    }
}

proof fn lemma_case_rep(n: SyntaxNode, st: LState, fin: Seq<LoweringErrorV>)
    requires
        case_s(n, st).1.errors.is_prefix_of(fin),
    ensures
        stmt_reported(case_s(n, st).0, fin),
    decreases n, nkids(n) + 10,
{
    let (id, s1) = fresh_id(st);
    let acc = CaseAcc { subject: WordV { span: span_of(n), segments: Seq::empty() }, arms: Seq::empty(), st: s1 };
    assert(segs_reported(acc.subject.segments, fin));
    assert(arms_reported(acc.arms, fin));
    lemma_case_loop_rep(n, 0, acc, fin);
}

proof fn lemma_list_loop_rep(n: SyntaxNode, i: int, acc: ListAcc, fin: Seq<LoweringErrorV>)
    requires
        list_loop_s(n, i, acc).st.errors.is_prefix_of(fin),
        elements_reported(acc.elements, fin),
    ensures
        elements_reported(list_loop_s(n, i, acc).elements, fin),
    decreases n, nkids(n) - i,
{
    if 0 <= i < nkids(n) {
        let c = kid(n, i);
        let k = c.kind@;
        let next = if k == "&&"@ {
            ListAcc { pending: Some(ListOperator::And), ..acc }
        } else if k == "||"@ {
            ListAcc { pending: Some(ListOperator::Or), ..acc }
        } else if k == ";"@ {
            ListAcc { pending: Some(ListOperator::Semi), ..acc }
        } else if k == "\n"@ {
            acc
        } else {
            let (s1, s) = stmt_s(c, acc.st);
            ListAcc {
                elements: attach_pending(acc.elements, acc.pending).push(ListElementV { statement: s1, operator: None }),
                pending: None,
                st: s,
            }
        };
        lemma_list_loop_errors(n, i + 1, next);
        lemma_rest(next.st, list_loop_s(n, i + 1, next).st, fin);
        if !(k == "&&"@ || k == "||"@ || k == ";"@ || k == "\n"@) {
            let (s1, s) = stmt_s(c, acc.st);
            lemma_stmt_rep(c, acc.st, fin);
            lemma_elements_rep_attach(acc.elements, acc.pending, s1, fin);
        }
        lemma_list_loop_rep(n, i + 1, next, fin);
    }
}

proof fn lemma_list_rep(n: SyntaxNode, st: LState, fin: Seq<LoweringErrorV>)
    requires
        list_s(n, st).1.errors.is_prefix_of(fin),
    ensures
        stmt_reported(list_s(n, st).0, fin),
    decreases n, nkids(n) + 10,
{
    let (id, s1) = fresh_id(st);
    let acc = ListAcc { elements: Seq::empty(), pending: None, st: s1 };
    assert(elements_reported(acc.elements, fin));
    lemma_list_loop_rep(n, 0, acc, fin);
}

proof fn lemma_redirected_loop_rep(n: SyntaxNode, i: int, acc: RedirectedAcc, fin: Seq<LoweringErrorV>)
    requires
        redirected_loop_s(n, i, acc).st.errors.is_prefix_of(fin),
        redirects_reported(acc.redirects, fin),
        acc.inner is Some ==> stmt_reported(acc.inner.unwrap(), fin),
    ensures
        redirects_reported(redirected_loop_s(n, i, acc).redirects, fin),
        redirected_loop_s(n, i, acc).inner is Some ==> stmt_reported(redirected_loop_s(n, i, acc).inner.unwrap(), fin),
    decreases n, nkids(n) - i,
{
    if 0 <= i < nkids(n) {
        let c = kid(n, i);
        let next = if is_redirect_kind(c.kind@) {
            let (r, s) = redirect_s(c, acc.st);
            RedirectedAcc { redirects: acc.redirects.push(r), st: s, ..acc }
        } else {
            let (s1, s) = stmt_s(c, acc.st);
            RedirectedAcc { inner: Some(s1), st: s, ..acc }
        };
        lemma_redirected_loop_errors(n, i + 1, next);
        lemma_rest(next.st, redirected_loop_s(n, i + 1, next).st, fin);
        if is_redirect_kind(c.kind@) {
            let (r, s) = redirect_s(c, acc.st);
            lemma_redirect_rep(c, acc.st, fin);
            lemma_redirects_rep_push(acc.redirects, r, fin);
        } else {
            lemma_stmt_rep(c, acc.st, fin);
        }
        lemma_redirected_loop_rep(n, i + 1, next, fin);
    }
}

proof fn lemma_redirected_rep(n: SyntaxNode, st: LState, fin: Seq<LoweringErrorV>)
    requires
        redirected_s(n, st).1.errors.is_prefix_of(fin),
    ensures
        stmt_reported(redirected_s(n, st).0, fin),
    decreases n, nkids(n) + 10,
{
    let acc0 = RedirectedAcc { inner: None, redirects: Seq::empty(), st };
    assert(redirects_reported(acc0.redirects, fin));
    let acc = redirected_loop_s(n, 0, acc0);
    let (id, s2) = fresh_id(acc.st);
    assert(acc.st.errors == s2.errors);
    lemma_redirected_loop_rep(n, 0, acc0, fin);
    let s = match acc.inner {
        Some(s) => s,
        None => StatementV::Unmodeled { id, span: span_of(n), kind: "empty_redirected"@, text: n.text@ },
    };
    assert(stmt_reported(s, fin));
    match s {
        StatementV::Command { id, span, name, args, redirects } => {
            lemma_redirects_rep_add(redirects, acc.redirects, fin);
        },
        _ => {},
    }
}

proof fn lemma_test_args_loop_rep(c: SyntaxNode, j: int, binary: bool, acc: Seq<WordV>, st: LState, fin: Seq<LoweringErrorV>)
    requires
        test_args_loop_s(c, j, binary, acc, st).1.errors.is_prefix_of(fin),
        words_reported(acc, fin),
    ensures
        words_reported(test_args_loop_s(c, j, binary, acc, st).0, fin),
    decreases c, nkids(c) - j,
{
    if 0 <= j < nkids(c) {
        let d = kid(c, j);
        if is_test_op(d.kind@, binary) {
            lemma_lit_word_rep(span_of(d), d.text@, fin);
            lemma_words_rep_push(acc, lit_word(span_of(d), d.text@), fin);
            lemma_test_args_loop_rep(c, j + 1, binary, acc.push(lit_word(span_of(d), d.text@)), st, fin);
        } else {
            let (w, s) = word_s(d, st);
            lemma_test_args_loop_errors(c, j + 1, binary, acc.push(w), s);
            lemma_rest(s, test_args_loop_s(c, j + 1, binary, acc.push(w), s).1, fin);
            lemma_word_rep(d, st, fin);
            lemma_words_rep_push(acc, w, fin);
            lemma_test_args_loop_rep(c, j + 1, binary, acc.push(w), s, fin);
        }
    }
}

proof fn lemma_test_args_rep(c: SyntaxNode, st: LState, fin: Seq<LoweringErrorV>)
    requires
        test_args_s(c, st).1.errors.is_prefix_of(fin),
    ensures
        words_reported(test_args_s(c, st).0, fin),
    decreases c, nkids(c) + 40,
{
    let e = Seq::<WordV>::empty();
    assert(words_reported(e, fin));
    if c.kind@ == "unary_expression"@ {
        lemma_test_args_loop_rep(c, 0, false, e, st, fin);
    } else if c.kind@ == "binary_expression"@ {
        lemma_test_args_loop_rep(c, 0, true, e, st, fin);
    } else {
        let (w, s) = word_s(c, st);
        lemma_word_rep(c, st, fin);
        lemma_words_rep_push(e, w, fin);
        assert(e.push(w) =~= seq![w]);
    }
}

proof fn lemma_test_loop_rep(n: SyntaxNode, i: int, acc: Seq<WordV>, st: LState, fin: Seq<LoweringErrorV>)
    requires
        test_loop_s(n, i, acc, st).1.errors.is_prefix_of(fin),
        words_reported(acc, fin),
    ensures
        words_reported(test_loop_s(n, i, acc, st).0, fin),
    decreases n, nkids(n) - i,
{
    if 0 <= i < nkids(n) {
        let k = kid(n, i).kind@;
        if k == "[["@ || k == "]]"@ || k == "["@ || k == "]"@ {
            lemma_test_loop_rep(n, i + 1, acc, st, fin);
        } else {
            let (ws, s) = test_args_s(kid(n, i), st);
            lemma_test_loop_errors(n, i + 1, acc + ws, s);
            lemma_rest(s, test_loop_s(n, i + 1, acc + ws, s).1, fin);
            lemma_test_args_rep(kid(n, i), st, fin);
            lemma_words_rep_add(acc, ws, fin);
            lemma_test_loop_rep(n, i + 1, acc + ws, s, fin);
        }
    }
}

proof fn lemma_test_rep(n: SyntaxNode, st: LState, fin: Seq<LoweringErrorV>)
    requires
        test_s(n, st).1.errors.is_prefix_of(fin),
    ensures
        stmt_reported(test_s(n, st).0, fin),
    decreases n, nkids(n) + 10,
{
    let span = span_of(n);
    let (id, s1) = fresh_id(st);
    assert(words_reported(Seq::<WordV>::empty(), fin));
    lemma_test_loop_rep(n, 0, Seq::empty(), s1, fin);
    lemma_lit_word_rep(span, "[["@, fin);
    assert(redirects_reported(Seq::<RedirectV>::empty(), fin));
}

proof fn lemma_word_rep(n: SyntaxNode, st: LState, fin: Seq<LoweringErrorV>)
    requires
        word_s(n, st).1.errors.is_prefix_of(fin),
    ensures
        word_reported(word_s(n, st).0, fin),
    decreases n, nkids(n) + 30,
{
    lemma_segs_rep(n, st, fin);
}

proof fn lemma_string_loop_rep(n: SyntaxNode, i: int, acc: Seq<SegmentV>, st: LState, fin: Seq<LoweringErrorV>)
    requires
        string_loop_s(n, i, acc, st).1.errors.is_prefix_of(fin),
        segs_reported(acc, fin),
    ensures
        segs_reported(string_loop_s(n, i, acc, st).0, fin),
    decreases n, nkids(n) - i,
{
    if 0 <= i < nkids(n) {
        let c = kid(n, i);
        let k = c.kind@;
        if k == "\""@ || k == "$\""@ {
            lemma_string_loop_rep(n, i + 1, acc, st, fin);
        } else if k == "string_content"@ {
            let one = seq![SegmentV::Literal(c.text@)];
            lemma_segs_rep_all(one, fin);
            assert(seg_reported(one[0], fin));
            lemma_segs_rep_add(acc, one, fin);
            assert(acc + one =~= acc.push(SegmentV::Literal(c.text@)));
            lemma_string_loop_rep(n, i + 1, acc.push(SegmentV::Literal(c.text@)), st, fin);
        } else {
            let (ss, s) = segs_s(c, st);
            lemma_string_loop_errors(n, i + 1, acc + ss, s);
            lemma_rest(s, string_loop_s(n, i + 1, acc + ss, s).1, fin);
            lemma_segs_rep(c, st, fin);
            lemma_segs_rep_add(acc, ss, fin);
            lemma_string_loop_rep(n, i + 1, acc + ss, s, fin);
        }
    }
}

proof fn lemma_concat_loop_rep(n: SyntaxNode, i: int, acc: Seq<SegmentV>, st: LState, fin: Seq<LoweringErrorV>)
    requires
        concat_loop_s(n, i, acc, st).1.errors.is_prefix_of(fin),
        segs_reported(acc, fin),
    ensures
        segs_reported(concat_loop_s(n, i, acc, st).0, fin),
    decreases n, nkids(n) - i,
{
    if 0 <= i < nkids(n) {
        let (ss, s) = segs_s(kid(n, i), st);
        lemma_concat_loop_errors(n, i + 1, acc + ss, s);
        lemma_rest(s, concat_loop_s(n, i + 1, acc + ss, s).1, fin);
        lemma_segs_rep(kid(n, i), st, fin);
        lemma_segs_rep_add(acc, ss, fin);
        lemma_concat_loop_rep(n, i + 1, acc + ss, s, fin);
    }
}

proof fn lemma_segs_rep(n: SyntaxNode, st: LState, fin: Seq<LoweringErrorV>)
    requires
        segs_s(n, st).1.errors.is_prefix_of(fin),
    ensures
        segs_reported(segs_s(n, st).0, fin),
    decreases n, nkids(n) + 25,
{
    let k = n.kind@;
    let r = segs_s(n, st).0;
    let e = Seq::<SegmentV>::empty();
    assert(segs_reported(e, fin));
    lemma_segs_rep_all(r, fin);
    if k == "word"@ || k == "number"@ {
        assert(seg_reported(r[0], fin));
    } else if k == "raw_string"@ {
        assert(seg_reported(r[0], fin));
    } else if k == "string"@ || k == "translated_string"@ {
        lemma_string_loop_rep(n, 0, e, st, fin);
        assert(seg_reported(r[0], fin));
    } else if k == "simple_expansion"@ {
        assert(seg_reported(r[0], fin));
    } else if k == "expansion"@ {
        lemma_expansion_rep(n, st, fin);
    } else if k == "command_substitution"@ {
        assert(stmts_reported(Seq::<StatementV>::empty(), fin));
        lemma_stmts_except_rep(n, 0, Skip::CommandSub, Seq::empty(), st, fin);
        assert(seg_reported(r[0], fin));
    } else if k == "arithmetic_expansion"@ {
        assert(seg_reported(r[0], fin));
    } else if k == "concatenation"@ {
        lemma_concat_loop_rep(n, 0, e, st, fin);
    } else {
        assert(seg_reported(r[0], fin));
    }
}

proof fn lemma_expansion_loop_rep(n: SyntaxNode, i: int, acc: ExpAcc, fin: Seq<LoweringErrorV>)
    requires
        expansion_loop_s(n, i, acc).st.errors.is_prefix_of(fin),
        opt_word_reported(acc.operand, fin),
    ensures
        opt_word_reported(expansion_loop_s(n, i, acc).operand, fin),
    decreases n, nkids(n) - i,
{
    if 0 <= i < nkids(n) {
        let c = kid(n, i);
        let k = c.kind@;
        let next = if k == "${"@ || k == "}"@ || k == "$"@ {
            acc
        } else if k == "variable_name"@ || k == "special_variable_name"@ {
            ExpAcc { name: c.text@, ..acc }
        } else if k == "#"@ {
            if acc.name.len() == 0 { ExpAcc { operator: Some(ParamOperator::Length), ..acc } } else { acc }
        } else if k == "!"@ {
            if acc.name.len() == 0 { ExpAcc { operator: Some(ParamOperator::Indirect), ..acc } } else { acc }
        } else if k == ":-"@ {
            ExpAcc { operator: Some(ParamOperator::Default), ..acc }
        } else if k == ":="@ {
            ExpAcc { operator: Some(ParamOperator::Assign), ..acc }
        } else if k == ":?"@ {
            ExpAcc { operator: Some(ParamOperator::Error), ..acc }
        } else if k == ":+"@ {
            ExpAcc { operator: Some(ParamOperator::Alternate), ..acc }
        } else if k == "-"@ {
            if acc.operator is None { ExpAcc { operator: Some(ParamOperator::Default), ..acc } } else { acc }
        } else if k == "="@ {
            if acc.operator is None { ExpAcc { operator: Some(ParamOperator::Assign), ..acc } } else { acc }
        } else if k == "?"@ {
            if acc.operator is None { ExpAcc { operator: Some(ParamOperator::Error), ..acc } } else { acc }
        } else if k == "+"@ {
            if acc.operator is None { ExpAcc { operator: Some(ParamOperator::Alternate), ..acc } } else { acc }
        } else if acc.operator is Some && acc.operand is None {
            let (w, s) = word_s(c, acc.st);
            ExpAcc { operand: Some(w), st: s, ..acc }
        } else if acc.name.len() == 0 {
            ExpAcc { name: c.text@, ..acc }
        } else {
            acc
        };
        lemma_expansion_loop_errors(n, i + 1, next);
        lemma_rest(next.st, expansion_loop_s(n, i + 1, next).st, fin);
        let plain = k == "${"@ || k == "}"@ || k == "$"@ || k == "variable_name"@ || k == "special_variable_name"@ || k
            == "#"@ || k == "!"@ || k == ":-"@ || k == ":="@ || k == ":?"@ || k == ":+"@ || k == "-"@ || k == "="@ || k
            == "?"@ || k == "+"@;
        if !plain && acc.operator is Some && acc.operand is None {
            lemma_word_rep(c, acc.st, fin);
        }
        lemma_expansion_loop_rep(n, i + 1, next, fin);
    }
}

proof fn lemma_expansion_rep(n: SyntaxNode, st: LState, fin: Seq<LoweringErrorV>)
    requires
        expansion_s(n, st).1.errors.is_prefix_of(fin),
    ensures
        segs_reported(expansion_s(n, st).0, fin),
    decreases n, nkids(n) + 20,
{
    let r = expansion_s(n, st).0;
    if !has_subscript_from(n, 0) {
        let acc = ExpAcc { name: Seq::empty(), operator: None, operand: None, st };
        lemma_expansion_loop_rep(n, 0, acc, fin);
        let a = expansion_loop_s(n, 0, acc);
        match a.operand {
            Some(w) => {
                assert(word_reported(*Box::new(w), fin));
            },
            None => {},
        }
    }
    lemma_segs_rep_all(r, fin);
    assert(seg_reported(r[0], fin));
}

pub open spec fn items_reported(items: Seq<crate::hir::ItemV>, fin: Seq<LoweringErrorV>) -> bool {
    forall|j: int|
        0 <= j < items.len() ==> match #[trigger] items[j] {
            crate::hir::ItemV::Function(f) => stmts_reported(f.body, fin),
            crate::hir::ItemV::Statement(s) => stmt_reported(s, fin),
        }
}

proof fn lemma_function_body_rep(n: SyntaxNode, i: int, body: Seq<StatementV>, st: LState, fin: Seq<LoweringErrorV>)
    requires
        function_body_loop_s(n, i, body, st).1.errors.is_prefix_of(fin),
        stmts_reported(body, fin),
    ensures
        stmts_reported(function_body_loop_s(n, i, body, st).0, fin),
    decreases nkids(n) - i,
{
    if 0 <= i < nkids(n) {
        if kid(n, i).kind@ == "compound_statement"@ {
            let (b, s) = stmts_except_s(kid(n, i), 0, Skip::Compound, Seq::empty(), st);
            lemma_function_body_errors(n, i + 1, b, s);
            lemma_rest(s, function_body_loop_s(n, i + 1, b, s).1, fin);
            assert(stmts_reported(Seq::<StatementV>::empty(), fin));
            lemma_stmts_except_rep(kid(n, i), 0, Skip::Compound, Seq::empty(), st, fin);
            lemma_function_body_rep(n, i + 1, b, s, fin);
        } else {
            lemma_function_body_rep(n, i + 1, body, st, fin);
        }
    }
}

proof fn lemma_program_loop_rep(
    root: SyntaxNode,
    i: int,
    items: Seq<crate::hir::ItemV>,
    ps: PState,
    bytes: Seq<u8>,
    fin: Seq<LoweringErrorV>,
)
    requires
        program_loop_s(root, i, items, ps, bytes).1.l.errors.is_prefix_of(fin),
        items_reported(items, fin),
    ensures
        items_reported(program_loop_s(root, i, items, ps, bytes).0, fin),
    decreases nkids(root) - i,
{
    if 0 <= i < nkids(root) {
        let n = kid(root, i);
        let k = n.kind@;
        let (it, p) = top_level_s(n, ps, bytes);
        let items2 = match it {
            Some(x) => items.push(x),
            None => items,
        };
        lemma_program_loop_errors(root, i + 1, items2, p, bytes);
        lemma_rest(p.l, program_loop_s(root, i + 1, items2, p, bytes).1.l, fin);
        if k == "function_definition"@ {
            let (id, l1) = fresh_id(ps.l);
            assert(stmts_reported(Seq::<StatementV>::empty(), fin));
            lemma_function_body_rep(n, 0, Seq::empty(), l1, fin);
        } else if k == "\n"@ || k == ";"@ || k == "comment"@ {
        } else {
            lemma_stmt_rep(n, ps.l, fin);
        }
        assert(items_reported(items2, fin)) by {
            assert forall|j: int| 0 <= j < items2.len() implies match #[trigger] items2[j] {
                crate::hir::ItemV::Function(f) => stmts_reported(f.body, fin),
                crate::hir::ItemV::Statement(s) => stmt_reported(s, fin),
            } by {
                if j < items.len() {
                    assert(items2[j] == items[j]);
                }
            }
        }
        lemma_program_loop_rep(root, i + 1, items2, p, bytes, fin);
    }
}

/// Every `Unmodeled` statement of a lowered tree, at any depth (in bodies,
/// conditions, arms, list elements and the bodies of command substitutions),
/// comes with an `UnsupportedSyntax` error of the same kind and span among
/// the errors of the lowering; the one exception is the placeholder
/// `empty_redirected` for a redirection without a statement, which is no
/// error.
pub proof fn lemma_unmodeled_statements_reported(root: SyntaxNode, annotations: Seq<crate::annotation::AnnotationV>, bytes: Seq<u8>)
    ensures
        items_reported(program_s(root, annotations, bytes).0, program_s(root, annotations, bytes).2),
{
    let ps = PState { l: LState { next_id: 0, errors: Seq::empty() }, pending: annotations };
    let fin = program_s(root, annotations, bytes).2;
    assert(fin.is_prefix_of(fin)) by {
        assert(fin =~= fin.subrange(0, fin.len() as int));
    }
    assert(items_reported(Seq::<crate::hir::ItemV>::empty(), fin));
    lemma_program_loop_rep(root, 0, Seq::empty(), ps, bytes, fin);
}



// ---------------------------------------------------------------------------
// The operators of a list
// ---------------------------------------------------------------------------

/// The operator that a token between two list elements stands for: `&&`,
/// `||` or `;`.
pub open spec fn token_op(k: Seq<char>) -> Option<ListOperator> {
    if k == "&&"@ {
        Some(ListOperator::And)
    } else if k == "||"@ {
        Some(ListOperator::Or)
    } else if k == ";"@ {
        Some(ListOperator::Semi)
    } else {
        None
    }
}

/// A child of a list node that is one of its statements: neither an
/// operator token nor a newline.
pub open spec fn list_stmt_child(k: Seq<char>) -> bool {
    token_op(k) is None && k != "\n"@
}

/// The number of statements among the children `i..j` of a list node.
pub open spec fn stmt_children(n: SyntaxNode, i: int, j: int) -> nat
    decreases j - i,
{
    if i >= j {
        0
    } else {
        (if list_stmt_child(kid(n, i).kind@) { 1nat } else { 0nat }) + stmt_children(n, i + 1, j)
    }
}

/// After an element is pushed for child `i`, the token `i + 1` and the
/// statement `i + 2` set its operator, and nothing after changes it.
proof fn lemma_list_op_at(n: SyntaxNode, i: int, acc: ListAcc)
    requires
        0 <= i,
        i + 2 < nkids(n),
        token_op(kid(n, i + 1).kind@) is Some,
        list_stmt_child(kid(n, i + 2).kind@),
        acc.elements.len() >= 1,
    ensures
        list_loop_s(n, i + 1, acc).elements[acc.elements.len() - 1].operator == token_op(kid(n, i + 1).kind@),
    decreases nkids(n) - i, 0int,
{
    let len1 = acc.elements.len();
    let k2 = kid(n, i + 1).kind@;
    let next2 = if k2 == "&&"@ {
        ListAcc { pending: Some(ListOperator::And), ..acc }
    } else if k2 == "||"@ {
        ListAcc { pending: Some(ListOperator::Or), ..acc }
    } else {
        ListAcc { pending: Some(ListOperator::Semi), ..acc }
    };
    assert(next2.pending == token_op(k2));
    assert(list_loop_s(n, i + 1, acc) == list_loop_s(n, i + 2, next2));
    let c3 = kid(n, i + 2);
    let (s3, st3) = stmt_s(c3, next2.st);
    let next3 = ListAcc {
        elements: attach_pending(next2.elements, next2.pending).push(ListElementV { statement: s3, operator: None }),
        pending: None,
        st: st3,
    };
    assert(list_loop_s(n, i + 2, next2) == list_loop_s(n, i + 3, next3));
    lemma_list_loop_ops(n, i + 3, next3);
    let att = attach_pending(next2.elements, next2.pending);
    assert(att[len1 - 1].operator == token_op(k2));
    assert(next3.elements[len1 - 1] == att[len1 - 1]);
    assert(next3.elements.len() == len1 + 1);
    assert(list_loop_s(n, i + 3, next3).elements[len1 - 1] == next3.elements[len1 - 1]);
}

proof fn lemma_list_loop_ops(n: SyntaxNode, i: int, acc: ListAcc)
    requires
        0 <= i,
    ensures
        list_loop_s(n, i, acc).elements.len() == acc.elements.len() + stmt_children(n, i, nkids(n)),
        forall|k: int|
            0 <= k < acc.elements.len() - 1 ==> #[trigger] list_loop_s(n, i, acc).elements[k] == acc.elements[k],
        forall|k: int|
            0 <= k < acc.elements.len() ==> (#[trigger] list_loop_s(n, i, acc).elements[k]).statement
                == acc.elements[k].statement,
        forall|p: int|
            i <= p < nkids(n) && list_stmt_child(kid(n, p).kind@) ==> exists|st: LState|
                list_loop_s(n, i, acc).elements[(acc.elements.len() + stmt_children(n, i, p)) as int].statement
                    == (#[trigger] stmt_s(kid(n, p), st)).0,
        forall|p: int|
            i <= p && p + 2 < nkids(n) && list_stmt_child(kid(n, p).kind@) && token_op(kid(n, p + 1).kind@) is Some
                && list_stmt_child(kid(n, p + 2).kind@) ==> (#[trigger] list_loop_s(n, i, acc).elements[(acc.elements.len()
                + stmt_children(n, i, p)) as int]).operator == token_op(kid(n, p + 1).kind@),
    decreases nkids(n) - i, 1int,
{
    if i < nkids(n) {
        let c = kid(n, i);
        let k = c.kind@;
        let next = if k == "&&"@ {
            ListAcc { pending: Some(ListOperator::And), ..acc }
        } else if k == "||"@ {
            ListAcc { pending: Some(ListOperator::Or), ..acc }
        } else if k == ";"@ {
            ListAcc { pending: Some(ListOperator::Semi), ..acc }
        } else if k == "\n"@ {
            acc
        } else {
            let (s1, s) = stmt_s(c, acc.st);
            ListAcc {
                elements: attach_pending(acc.elements, acc.pending).push(ListElementV { statement: s1, operator: None }),
                pending: None,
                st: s,
            }
        };
        lemma_list_loop_ops(n, i + 1, next);
        let r = list_loop_s(n, i, acc);
        assert(r == list_loop_s(n, i + 1, next));
        if list_stmt_child(k) {
            let len1 = acc.elements.len() + 1;
            assert(next.elements.len() == len1);
            assert forall|x: int| 0 <= x < acc.elements.len() - 1 implies next.elements[x] == acc.elements[x] by {}
            assert forall|x: int| 0 <= x < acc.elements.len() implies next.elements[x].statement
                == acc.elements[x].statement by {}
            assert forall|x: int| 0 <= x < acc.elements.len() implies (#[trigger] r.elements[x]).statement
                == acc.elements[x].statement by {
                assert(list_loop_s(n, i + 1, next).elements[x].statement == next.elements[x].statement);
            }
            assert forall|p: int| i <= p < nkids(n) && list_stmt_child(kid(n, p).kind@) implies exists|st: LState|
                r.elements[(acc.elements.len() + stmt_children(n, i, p)) as int].statement == (#[trigger] stmt_s(
                    kid(n, p),
                    st,
                )).0 by {
                if p == i {
                    assert(stmt_children(n, i, p) == 0);
                    assert(next.elements[acc.elements.len() as int].statement == stmt_s(c, acc.st).0);
                    assert(list_loop_s(n, i + 1, next).elements[acc.elements.len() as int].statement
                        == next.elements[acc.elements.len() as int].statement);
                    assert(r.elements[acc.elements.len() as int].statement == stmt_s(c, acc.st).0);
                } else {
                    assert(stmt_children(n, i, p) == 1 + stmt_children(n, i + 1, p));
                    let q = (next.elements.len() + stmt_children(n, i + 1, p)) as int;
                    assert(exists|st: LState| list_loop_s(n, i + 1, next).elements[q].statement == (#[trigger] stmt_s(kid(n, p), st)).0);
                }
            }
            assert forall|p: int|
                i <= p && p + 2 < nkids(n) && list_stmt_child(kid(n, p).kind@) && token_op(kid(n, p + 1).kind@) is Some
                    && list_stmt_child(kid(n, p + 2).kind@) implies (#[trigger] r.elements[(acc.elements.len()
                    + stmt_children(n, i, p)) as int]).operator == token_op(kid(n, p + 1).kind@) by {
                if p == i {
                    assert(stmt_children(n, i, p) == 0);
                    lemma_list_op_at(n, i, next);
                    assert((acc.elements.len() + stmt_children(n, i, p)) as int == len1 - 1);
                } else {
                    assert(stmt_children(n, i, p) == 1 + stmt_children(n, i + 1, p));
                    assert(list_loop_s(n, i + 1, next).elements[(next.elements.len() + stmt_children(n, i + 1, p)) as int].operator
                        == token_op(kid(n, p + 1).kind@));
                }
            }
        } else {
            assert(next.elements == acc.elements);
            assert forall|p: int| i <= p < nkids(n) && list_stmt_child(kid(n, p).kind@) implies exists|st: LState|
                r.elements[(acc.elements.len() + stmt_children(n, i, p)) as int].statement == (#[trigger] stmt_s(
                    kid(n, p),
                    st,
                )).0 by {
                assert(p != i);
                assert(stmt_children(n, i, p) == stmt_children(n, i + 1, p));
                let q = (next.elements.len() + stmt_children(n, i + 1, p)) as int;
                assert(exists|st: LState| list_loop_s(n, i + 1, next).elements[q].statement == (#[trigger] stmt_s(kid(n, p), st)).0);
            }
            assert forall|p: int|
                i <= p && p + 2 < nkids(n) && list_stmt_child(kid(n, p).kind@) && token_op(kid(n, p + 1).kind@) is Some
                    && list_stmt_child(kid(n, p + 2).kind@) implies (#[trigger] r.elements[(acc.elements.len()
                    + stmt_children(n, i, p)) as int]).operator == token_op(kid(n, p + 1).kind@) by {
                assert(p != i);
                assert(stmt_children(n, i, p) == stmt_children(n, i + 1, p));
                assert(list_loop_s(n, i + 1, next).elements[(next.elements.len() + stmt_children(n, i + 1, p)) as int].operator
                    == token_op(kid(n, p + 1).kind@));
            }
        }
    }
}

/// The lowering of a list node has one element per statement among its
/// children, in order, each holding the lowering of that statement; an
/// element whose statement is followed by the token `&&`, `||` or `;` and
/// then by the next statement has the operator `And`, `Or` or `Semi` that
/// the token stands for.
pub proof fn lemma_list_operators(n: SyntaxNode, st: LState)
    ensures
        list_s(n, st).0 is List,
        list_s(n, st).0->List_elements.len() == stmt_children(n, 0, nkids(n)),
        forall|p: int|
            0 <= p < nkids(n) && list_stmt_child(kid(n, p).kind@) ==> exists|st2: LState|
                list_s(n, st).0->List_elements[stmt_children(n, 0, p) as int].statement == (#[trigger] stmt_s(
                    kid(n, p),
                    st2,
                )).0,
        forall|p: int|
            0 <= p && p + 2 < nkids(n) && list_stmt_child(kid(n, p).kind@) && token_op(kid(n, p + 1).kind@) is Some
                && list_stmt_child(kid(n, p + 2).kind@) ==> (#[trigger] list_s(n, st).0->List_elements[stmt_children(
                n,
                0,
                p,
            ) as int]).operator == token_op(kid(n, p + 1).kind@),
{
    let (id, s1) = fresh_id(st);
    let acc = ListAcc { elements: Seq::empty(), pending: None, st: s1 };
    lemma_list_loop_ops(n, 0, acc);
    let r = list_loop_s(n, 0, acc);
    assert(list_s(n, st).0->List_elements == r.elements);
    assert forall|p: int|
        0 <= p && p + 2 < nkids(n) && list_stmt_child(kid(n, p).kind@) && token_op(kid(n, p + 1).kind@) is Some
            && list_stmt_child(kid(n, p + 2).kind@) implies (#[trigger] list_s(n, st).0->List_elements[stmt_children(
            n,
            0,
            p,
        ) as int]).operator == token_op(kid(n, p + 1).kind@) by {
        assert(r.elements[(acc.elements.len() + stmt_children(n, 0, p)) as int].operator == token_op(kid(n, p + 1).kind@));
    }
    assert forall|p: int| 0 <= p < nkids(n) && list_stmt_child(kid(n, p).kind@) implies exists|st2: LState|
        list_s(n, st).0->List_elements[stmt_children(n, 0, p) as int].statement == (#[trigger] stmt_s(kid(n, p), st2)).0 by {
        let q = (acc.elements.len() + stmt_children(n, 0, p)) as int;
        assert(exists|st2: LState| r.elements[q].statement == (#[trigger] stmt_s(kid(n, p), st2)).0);
    }
}

} // verus!
