//! The expansion-aware high-level IR, and its mathematical model.
use vstd::prelude::*;
use crate::annotation::Annotation;
use crate::span::{SourceId, Span};

verus! {

#[derive(Debug, Clone, Copy, PartialEq, Eq, Hash, Structural)]
pub struct NodeId(pub u32);

#[derive(Debug)]
pub struct SourceUnit {
    pub source_id: SourceId,
    pub annotations: Vec<Annotation>,
    pub items: Vec<Item>,
}

#[derive(Debug)]
#[non_exhaustive]
pub enum Item {
    Function(Function),
    Statement(Statement),
}

#[derive(Debug)]
pub struct Function {
    pub id: NodeId,
    pub span: Span,
    pub name: String,
    pub body: Vec<Statement>,
    pub annotations: Vec<Annotation>,
}

#[derive(Debug)]
#[non_exhaustive]
pub enum Statement {
    Assignment(Assignment),
    Command(Command),
    SourceCommand(SourceCommand),
    Pipeline(Pipeline),
    If(IfStatement),
    For(ForLoop),
    While(WhileLoop),
    Case(CaseStatement),
    List(List),
    Block(Block),
    Unmodeled(Unmodeled),
}

#[derive(Debug)]
pub struct Assignment {
    pub id: NodeId,
    pub span: Span,
    pub name: String,
    pub value: Option<Word>,
    pub decl_kind: Option<DeclKind>,
    pub flags: Vec<String>,
    pub array_value: Option<Vec<Word>>,
}

#[derive(Debug, Clone, Copy, PartialEq, Eq, Structural)]
#[non_exhaustive]
pub enum DeclKind {
    Local,
    Declare,
    Export,
    Readonly,
}

#[derive(Debug)]
pub struct Command {
    pub id: NodeId,
    pub span: Span,
    pub name: Word,
    pub args: Vec<Word>,
    pub redirects: Vec<Redirect>,
}

#[derive(Debug)]
pub struct SourceCommand {
    pub id: NodeId,
    pub span: Span,
    pub path: Word,
    pub dynamic: bool,
}

#[derive(Debug)]
pub struct Redirect {
    pub span: Span,
    pub fd: Option<String>,
    pub op: String,
    pub target: Word,
}

#[derive(Debug)]
pub struct Pipeline {
    pub id: NodeId,
    pub span: Span,
    pub commands: Vec<Statement>,
    pub negated: bool,
}

#[derive(Debug)]
pub struct IfStatement {
    pub id: NodeId,
    pub span: Span,
    pub condition: Vec<Statement>,
    pub then_body: Vec<Statement>,
    pub else_body: Option<Vec<Statement>>,
}

#[derive(Debug)]
pub struct ForLoop {
    pub id: NodeId,
    pub span: Span,
    pub variable: String,
    pub items: Vec<Word>,
    pub body: Vec<Statement>,
}

#[derive(Debug)]
pub struct WhileLoop {
    pub id: NodeId,
    pub span: Span,
    pub condition: Vec<Statement>,
    pub body: Vec<Statement>,
}

#[derive(Debug)]
pub struct CaseStatement {
    pub id: NodeId,
    pub span: Span,
    pub subject: Word,
    pub arms: Vec<CaseArm>,
}

#[derive(Debug)]
pub struct CaseArm {
    pub span: Span,
    pub patterns: Vec<Word>,
    pub body: Vec<Statement>,
}

#[derive(Debug)]
pub struct List {
    pub id: NodeId,
    pub span: Span,
    pub elements: Vec<ListElement>,
}

#[derive(Debug)]
pub struct ListElement {
    pub statement: Statement,
    pub operator: Option<ListOperator>,
}

#[derive(Debug, Clone, Copy, PartialEq, Eq, Structural)]
#[non_exhaustive]
pub enum ListOperator {
    And,
    Or,
    Semi,
}

#[derive(Debug)]
pub struct Block {
    pub id: NodeId,
    pub span: Span,
    pub body: Vec<Statement>,
    pub subshell: bool,
}

#[derive(Debug)]
pub struct Unmodeled {
    pub id: NodeId,
    pub span: Span,
    pub kind: String,
    pub text: String,
}

#[derive(Debug)]
pub struct Word {
    pub span: Span,
    pub segments: Vec<WordSegment>,
}

#[derive(Debug)]
#[non_exhaustive]
pub enum WordSegment {
    Literal(String),
    SingleQuoted(String),
    DoubleQuoted(Vec<WordSegment>),
    ParamExpand(ParamExpand),
    CommandSub(CommandSub),
    ArithExpand(ArithExpand),
    ArrayExpand(ArrayExpand),
}

#[derive(Debug)]
pub struct ParamExpand {
    pub span: Span,
    pub name: String,
    pub operator: Option<ParamOperator>,
    pub operand: Option<Box<Word>>,
}

#[derive(Debug, Clone, Copy, PartialEq, Eq, Structural)]
#[non_exhaustive]
pub enum ParamOperator {
    Default,
    Assign,
    Error,
    Alternate,
    Length,
    Indirect,
}

#[derive(Debug)]
pub struct CommandSub {
    pub span: Span,
    pub body: Vec<Statement>,
}

#[derive(Debug)]
pub struct ArithExpand {
    pub span: Span,
    pub expression: String,
}

#[derive(Debug)]
pub struct ArrayExpand {
    pub span: Span,
    pub name: String,
    pub subscript: ArraySubscript,
}

#[derive(Debug)]
#[non_exhaustive]
pub enum ArraySubscript {
    At,
    Star,
    Index(String),
}

// ---------------------------------------------------------------------------
// The mathematical model of the IR: the same tree with sequences and
// character strings in place of vectors and `String`s.
// ---------------------------------------------------------------------------

pub enum SubscriptV {
    At,
    Star,
    Index(Seq<char>),
}

pub struct WordV {
    pub span: Span,
    pub segments: Seq<SegmentV>,
}

pub enum SegmentV {
    Literal(Seq<char>),
    SingleQuoted(Seq<char>),
    DoubleQuoted(Seq<SegmentV>),
    ParamExpand {
        span: Span,
        name: Seq<char>,
        operator: Option<ParamOperator>,
        operand: Option<Box<WordV>>,
    },
    CommandSub { span: Span, body: Seq<StatementV> },
    ArithExpand { span: Span, expression: Seq<char> },
    ArrayExpand { span: Span, name: Seq<char>, subscript: SubscriptV },
}

pub struct RedirectV {
    pub span: Span,
    pub fd: Option<Seq<char>>,
    pub op: Seq<char>,
    pub target: WordV,
}

pub struct CaseArmV {
    pub span: Span,
    pub patterns: Seq<WordV>,
    pub body: Seq<StatementV>,
}

pub struct ListElementV {
    pub statement: StatementV,
    pub operator: Option<ListOperator>,
}

#[allow(inconsistent_fields)]
pub enum StatementV {
    Assignment {
        id: NodeId,
        span: Span,
        name: Seq<char>,
        value: Option<WordV>,
        decl_kind: Option<DeclKind>,
        flags: Seq<Seq<char>>,
        array_value: Option<Seq<WordV>>,
    },
    Command { id: NodeId, span: Span, name: WordV, args: Seq<WordV>, redirects: Seq<RedirectV> },
    SourceCommand { id: NodeId, span: Span, path: WordV, dynamic: bool },
    Pipeline { id: NodeId, span: Span, commands: Seq<StatementV>, negated: bool },
    If {
        id: NodeId,
        span: Span,
        condition: Seq<StatementV>,
        then_body: Seq<StatementV>,
        else_body: Option<Seq<StatementV>>,
    },
    For { id: NodeId, span: Span, variable: Seq<char>, items: Seq<WordV>, body: Seq<StatementV> },
    While { id: NodeId, span: Span, condition: Seq<StatementV>, body: Seq<StatementV> },
    Case { id: NodeId, span: Span, subject: WordV, arms: Seq<CaseArmV> },
    List { id: NodeId, span: Span, elements: Seq<ListElementV> },
    Block { id: NodeId, span: Span, body: Seq<StatementV>, subshell: bool },
    Unmodeled { id: NodeId, span: Span, kind: Seq<char>, text: Seq<char> },
}

/// A placeholder statement, the value of a model outside its sequence's range.
pub open spec fn empty_stmt_v() -> StatementV {
    StatementV::Unmodeled { id: NodeId(0), span: Span { start: 0, end: 0 }, kind: Seq::empty(), text: Seq::empty() }
}

pub open spec fn subscript_v(s: ArraySubscript) -> SubscriptV {
    match s {
        ArraySubscript::At => SubscriptV::At,
        ArraySubscript::Star => SubscriptV::Star,
        ArraySubscript::Index(i) => SubscriptV::Index(i@),
    }
}

pub open spec fn word_v(w: Word) -> WordV
    decreases w,
{
    WordV { span: w.span, segments: segs_v(w.segments@) }
}

pub open spec fn words_v(ws: Seq<Word>) -> Seq<WordV>
    decreases ws,
{
    Seq::new(ws.len(), |i: int| if 0 <= i < ws.len() { word_v(ws[i]) } else { WordV { span: Span { start: 0, end: 0 }, segments: Seq::empty() } })
}

pub open spec fn segs_v(s: Seq<WordSegment>) -> Seq<SegmentV>
    decreases s,
{
    Seq::new(s.len(), |i: int| if 0 <= i < s.len() { seg_v(s[i]) } else { SegmentV::Literal(Seq::empty()) })
}

pub open spec fn seg_v(s: WordSegment) -> SegmentV
    decreases s,
{
    match s {
        WordSegment::Literal(t) => SegmentV::Literal(t@),
        WordSegment::SingleQuoted(t) => SegmentV::SingleQuoted(t@),
        WordSegment::DoubleQuoted(inner) => SegmentV::DoubleQuoted(segs_v(inner@)),
        WordSegment::ParamExpand(p) => SegmentV::ParamExpand {
            span: p.span,
            name: p.name@,
            operator: p.operator,
            operand: match p.operand {
                Some(b) => Some(Box::new(word_v(*b))),
                None => None,
            },
        },
        WordSegment::CommandSub(c) => SegmentV::CommandSub { span: c.span, body: stmts_v(c.body@) },
        WordSegment::ArithExpand(a) => SegmentV::ArithExpand { span: a.span, expression: a.expression@ },
        WordSegment::ArrayExpand(a) => SegmentV::ArrayExpand {
            span: a.span,
            name: a.name@,
            subscript: subscript_v(a.subscript),
        },
    }
}

pub open spec fn stmts_v(s: Seq<Statement>) -> Seq<StatementV>
    decreases s,
{
    Seq::new(s.len(), |i: int| if 0 <= i < s.len() { stmt_v(s[i]) } else { empty_stmt_v() })
}

pub open spec fn strings_v(s: Seq<String>) -> Seq<Seq<char>> {
    Seq::new(s.len(), |i: int| s[i]@)
}

pub open spec fn redirect_v(r: Redirect) -> RedirectV
    decreases r,
{
    RedirectV {
        span: r.span,
        fd: match r.fd {
            Some(f) => Some(f@),
            None => None,
        },
        op: r.op@,
        target: word_v(r.target),
    }
}

pub open spec fn redirects_v(s: Seq<Redirect>) -> Seq<RedirectV>
    decreases s,
{
    Seq::new(s.len(), |i: int| if 0 <= i < s.len() { redirect_v(s[i]) } else { RedirectV { span: Span { start: 0, end: 0 }, fd: None, op: Seq::empty(), target: WordV { span: Span { start: 0, end: 0 }, segments: Seq::empty() } } })
}

pub open spec fn arm_v(a: CaseArm) -> CaseArmV
    decreases a,
{
    CaseArmV { span: a.span, patterns: words_v(a.patterns@), body: stmts_v(a.body@) }
}

pub open spec fn arms_v(s: Seq<CaseArm>) -> Seq<CaseArmV>
    decreases s,
{
    Seq::new(s.len(), |i: int| if 0 <= i < s.len() { arm_v(s[i]) } else { CaseArmV { span: Span { start: 0, end: 0 }, patterns: Seq::empty(), body: Seq::empty() } })
}

pub open spec fn elements_v(s: Seq<ListElement>) -> Seq<ListElementV>
    decreases s,
{
    Seq::new(s.len(), |i: int| if 0 <= i < s.len() { ListElementV { statement: stmt_v(s[i].statement), operator: s[i].operator } } else { ListElementV { statement: empty_stmt_v(), operator: None } })
}

pub open spec fn stmt_v(s: Statement) -> StatementV
    decreases s,
{
    match s {
        Statement::Assignment(a) => StatementV::Assignment {
            id: a.id,
            span: a.span,
            name: a.name@,
            value: match a.value {
                Some(w) => Some(word_v(w)),
                None => None,
            },
            decl_kind: a.decl_kind,
            flags: strings_v(a.flags@),
            array_value: match a.array_value {
                Some(v) => Some(words_v(v@)),
                None => None,
            },
        },
        Statement::Command(c) => StatementV::Command {
            id: c.id,
            span: c.span,
            name: word_v(c.name),
            args: words_v(c.args@),
            redirects: redirects_v(c.redirects@),
        },
        Statement::SourceCommand(c) => StatementV::SourceCommand {
            id: c.id,
            span: c.span,
            path: word_v(c.path),
            dynamic: c.dynamic,
        },
        Statement::Pipeline(p) => StatementV::Pipeline {
            id: p.id,
            span: p.span,
            commands: stmts_v(p.commands@),
            negated: p.negated,
        },
        Statement::If(i) => StatementV::If {
            id: i.id,
            span: i.span,
            condition: stmts_v(i.condition@),
            then_body: stmts_v(i.then_body@),
            else_body: match i.else_body {
                Some(e) => Some(stmts_v(e@)),
                None => None,
            },
        },
        Statement::For(f) => StatementV::For {
            id: f.id,
            span: f.span,
            variable: f.variable@,
            items: words_v(f.items@),
            body: stmts_v(f.body@),
        },
        Statement::While(w) => StatementV::While {
            id: w.id,
            span: w.span,
            condition: stmts_v(w.condition@),
            body: stmts_v(w.body@),
        },
        Statement::Case(c) => StatementV::Case {
            id: c.id,
            span: c.span,
            subject: word_v(c.subject),
            arms: arms_v(c.arms@),
        },
        Statement::List(l) => StatementV::List { id: l.id, span: l.span, elements: elements_v(l.elements@) },
        Statement::Block(b) => StatementV::Block {
            id: b.id,
            span: b.span,
            body: stmts_v(b.body@),
            subshell: b.subshell,
        },
        Statement::Unmodeled(u) => StatementV::Unmodeled {
            id: u.id,
            span: u.span,
            kind: u.kind@,
            text: u.text@,
        },
    }
}

impl View for Word {
    type V = WordV;

    open spec fn view(&self) -> WordV {
        word_v(*self)
    }
}

impl View for Statement {
    type V = StatementV;

    open spec fn view(&self) -> StatementV {
        stmt_v(*self)
    }
}

} // verus!

verus! {

/// The literal text of a word made of one literal or single-quoted segment,
/// or of one double-quoted segment that holds one literal.
pub open spec fn word_literal(w: WordV) -> Option<Seq<char>> {
    if w.segments.len() == 1 {
        match w.segments[0] {
            SegmentV::Literal(s) => Some(s),
            SegmentV::SingleQuoted(s) => Some(s),
            SegmentV::DoubleQuoted(inner) => if inner.len() == 1 {
                match inner[0] {
                    SegmentV::Literal(s) => Some(s),
                    _ => None,
                }
            } else {
                None
            },
            _ => None,
        }
    } else {
        None
    }
}

/// Whether a segment holds a parameter, array, arithmetic or command expansion.
pub open spec fn seg_has_expansions(s: SegmentV) -> bool
    decreases s,
{
    match s {
        SegmentV::Literal(_) => false,
        SegmentV::SingleQuoted(_) => false,
        SegmentV::DoubleQuoted(inner) => segs_have_expansions(inner),
        _ => true,
    }
}

pub open spec fn segs_have_expansions(s: Seq<SegmentV>) -> bool
    decreases s,
{
    if s.len() == 0 {
        false
    } else {
        seg_has_expansions(s.last()) || segs_have_expansions(s.drop_last())
    }
}

impl Word {
    /// Returns the literal string value if this word is a single literal or single-quoted segment.
    pub fn literal_str(&self) -> (r: Option<&str>)
        ensures
            match r {
                Some(s) => word_literal(self@) == Some(s@),
                None => word_literal(self@) is None,
            },
    {
        proof {
            assert(self@.segments == segs_v(self.segments@));
        }
        if self.segments.len() == 1 {
            match &self.segments[0] {
                WordSegment::Literal(s) => Some(s.as_str()),
                WordSegment::SingleQuoted(s) => Some(s.as_str()),
                WordSegment::DoubleQuoted(inner) => {
                    proof {
                        assert(segs_v(inner@).len() == inner@.len());
                        if inner@.len() == 1 {
                            assert(segs_v(inner@)[0] == seg_v(inner@[0]));
                        }
                    }
                    if inner.len() == 1 {
                        match &inner[0] {
                            WordSegment::Literal(s) => Some(s.as_str()),
                            _ => None,
                        }
                    } else {
                        None
                    }
                },
                _ => None,
            }
        } else {
            None
        }
    }

    /// Returns true if this word contains any shell expansions (variables, command subs, etc.).
    pub fn has_expansions(&self) -> (b: bool)
        ensures
            b == segs_have_expansions(self@.segments),
    {
        segments_have_expansions(&self.segments)
    }
}

fn segments_have_expansions(segs: &Vec<WordSegment>) -> (b: bool)
    ensures
        b == segs_have_expansions(segs_v(segs@)),
    decreases segs,
{
    let mut i: usize = 0;
    while i < segs.len()
        invariant
            i <= segs@.len(),
            segs_have_expansions(segs_v(segs@).take(i as int)) == false,
        decreases segs.len() - i,
    {
        let found = match &segs[i] {
            WordSegment::Literal(_) => false,
            WordSegment::SingleQuoted(_) => false,
            WordSegment::DoubleQuoted(inner) => segments_have_expansions(inner),
            _ => true,
        };
        proof {
            let s = segs_v(segs@);
            assert(s.take(i + 1).drop_last() =~= s.take(i as int));
            assert(s[i as int] == seg_v(segs@[i as int]));
            assert(s.take(i + 1).last() == seg_v(segs@[i as int]));
            assert(found == seg_has_expansions(seg_v(segs@[i as int])));
            assert(segs_have_expansions(s.take(i + 1)) == (found || segs_have_expansions(s.take(i as int))));
        }
        if found {
            proof {
                lemma_segs_have_expansions_prefix(segs_v(segs@), i + 1);
            }
            return true;
        }
        i = i + 1;
    }
    assert(segs_v(segs@).take(i as int) =~= segs_v(segs@));
    false
}

pub proof fn lemma_segs_have_expansions_prefix(s: Seq<SegmentV>, k: int)
    requires
        0 <= k <= s.len(),
        segs_have_expansions(s.take(k)),
    ensures
        segs_have_expansions(s),
    decreases s.len() - k,
{
    if k < s.len() {
        assert(s.take(k + 1).drop_last() =~= s.take(k));
        lemma_segs_have_expansions_prefix(s, k + 1);
    } else {
        assert(s.take(k) =~= s);
    }
}

} // verus!

verus! {

pub proof fn lemma_stmts_v_push(v: Seq<Statement>, s: Statement)
    ensures
        stmts_v(v.push(s)) == stmts_v(v).push(stmt_v(s)),
{
    assert(stmts_v(v.push(s)) =~= stmts_v(v).push(stmt_v(s)));
}

pub proof fn lemma_words_v_push(v: Seq<Word>, w: Word)
    ensures
        words_v(v.push(w)) == words_v(v).push(word_v(w)),
{
    assert(words_v(v.push(w)) =~= words_v(v).push(word_v(w)));
}

pub proof fn lemma_words_v_add(v: Seq<Word>, w: Seq<Word>)
    ensures
        words_v(v + w) == words_v(v) + words_v(w),
{
    assert(words_v(v + w) =~= words_v(v) + words_v(w));
}

pub proof fn lemma_segs_v_push(v: Seq<WordSegment>, s: WordSegment)
    ensures
        segs_v(v.push(s)) == segs_v(v).push(seg_v(s)),
{
    assert(segs_v(v.push(s)) =~= segs_v(v).push(seg_v(s)));
}

pub proof fn lemma_segs_v_add(v: Seq<WordSegment>, w: Seq<WordSegment>)
    ensures
        segs_v(v + w) == segs_v(v) + segs_v(w),
{
    assert(segs_v(v + w) =~= segs_v(v) + segs_v(w));
}

pub proof fn lemma_redirects_v_push(v: Seq<Redirect>, r: Redirect)
    ensures
        redirects_v(v.push(r)) == redirects_v(v).push(redirect_v(r)),
{
    assert(redirects_v(v.push(r)) =~= redirects_v(v).push(redirect_v(r)));
}

pub proof fn lemma_redirects_v_add(v: Seq<Redirect>, w: Seq<Redirect>)
    ensures
        redirects_v(v + w) == redirects_v(v) + redirects_v(w),
{
    assert(redirects_v(v + w) =~= redirects_v(v) + redirects_v(w));
}

pub proof fn lemma_arms_v_push(v: Seq<CaseArm>, a: CaseArm)
    ensures
        arms_v(v.push(a)) == arms_v(v).push(arm_v(a)),
{
    assert(arms_v(v.push(a)) =~= arms_v(v).push(arm_v(a)));
}

pub proof fn lemma_strings_v_push(v: Seq<String>, s: String)
    ensures
        strings_v(v.push(s)) == strings_v(v).push(s@),
{
    assert(strings_v(v.push(s)) =~= strings_v(v).push(s@));
}

pub proof fn lemma_elements_v_push(v: Seq<ListElement>, e: ListElement)
    ensures
        elements_v(v.push(e)) == elements_v(v).push(ListElementV { statement: stmt_v(e.statement), operator: e.operator }),
{
    assert(elements_v(v.push(e)) =~= elements_v(v).push(ListElementV { statement: stmt_v(e.statement), operator: e.operator }));
}

} // verus!

verus! {

pub struct FunctionV {
    pub id: NodeId,
    pub span: Span,
    pub name: Seq<char>,
    pub body: Seq<StatementV>,
    pub annotations: Seq<crate::annotation::AnnotationV>,
}

pub enum ItemV {
    Function(FunctionV),
    Statement(StatementV),
}

pub open spec fn function_v(f: Function) -> FunctionV {
    FunctionV {
        id: f.id,
        span: f.span,
        name: f.name@,
        body: stmts_v(f.body@),
        annotations: crate::annotation::annotations_v(f.annotations@),
    }
}

pub open spec fn item_v(i: Item) -> ItemV {
    match i {
        Item::Function(f) => ItemV::Function(function_v(f)),
        Item::Statement(s) => ItemV::Statement(stmt_v(s)),
    }
}

pub open spec fn items_v(s: Seq<Item>) -> Seq<ItemV> {
    Seq::new(s.len(), |i: int| item_v(s[i]))
}

pub proof fn lemma_items_v_push(v: Seq<Item>, x: Item)
    ensures
        items_v(v.push(x)) == items_v(v).push(item_v(x)),
{
    assert(items_v(v.push(x)) =~= items_v(v).push(item_v(x)));
}

} // verus!
