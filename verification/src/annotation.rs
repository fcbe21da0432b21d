//! The `#@` annotation language: directives written in comments.
use vstd::prelude::*;
use crate::span::{SourceFile, Span};
use crate::text::{lemma_find_pred, chars_of, string_of, utf8_len, utf8_len_seq, is_ws, is_whitespace, find_pred, rfind_pred, not_ws, ws, char_is, trim_start_s, trim_end_s, trim_s, find_c, find_pair, trim_start_at, trim_end_at, trim_at, find_char_at, find_ws_at, find_pair_at, range_eq, range_starts_with, push_range, push_str, owned, lemma_subrange_subrange, lemma_utf8_len_split, lemma_utf8_len_concat, lemma_utf8_len_nonneg, utf8_len_range};

verus! {

#[derive(Debug)]
pub struct Annotation {
    pub span: Span,
    pub directive: Directive,
}

#[derive(Debug)]
#[non_exhaustive]
pub enum Directive {
    Sig(SigDirective),
    Bind(BindDirective),
    Type(TypeDirective),
    Module(ModuleDirective),
    Proves(ProvesDirective),
    Unknown { name: String },
}

#[derive(Debug)]
pub struct ProvesDirective {
    /// The parameter reference (e.g., "$1")
    pub param: String,
    /// The refinement established (e.g., "ExistingFile")
    pub refinement: String,
}

#[derive(Debug)]
pub struct SigDirective {
    pub name: String,
    pub params: Vec<Param>,
    pub return_type: Option<TypeExpr>,
    pub effects: Vec<Effect>,
}

#[derive(Debug)]
pub struct Param {
    pub name: String,
    pub type_expr: TypeExpr,
}

#[derive(Debug)]
#[non_exhaustive]
pub enum TypeExpr {
    Named(String),
    Parameterized { name: String, param: Box<TypeExpr> },
    Status(String),
}

#[derive(Debug, Clone)]
pub struct Effect {
    pub name: String,
    pub span: Span,
}

#[derive(Debug, Clone)]
pub struct BindDirective {
    pub positional: String,
    pub name: String,
    pub variadic: bool,
}

#[derive(Debug)]
pub struct TypeDirective {
    pub name: String,
    pub type_expr: TypeExpr,
}

#[derive(Debug, Clone)]
pub struct ModuleDirective {
    pub shell: String,
    pub version_constraint: Option<String>,
}

#[derive(Debug, Clone)]
pub enum AnnotationError {
    Malformed { span: Span, message: String },
}

// ---------------------------------------------------------------------------
// Model
// ---------------------------------------------------------------------------

pub enum TypeExprV {
    Named(Seq<char>),
    Parameterized { name: Seq<char>, param: Box<TypeExprV> },
    Status(Seq<char>),
}

pub struct ParamV {
    pub name: Seq<char>,
    pub type_expr: TypeExprV,
}

pub struct EffectV {
    pub name: Seq<char>,
    pub span: Span,
}

#[allow(inconsistent_fields)]
pub enum DirectiveV {
    Sig { name: Seq<char>, params: Seq<ParamV>, return_type: Option<TypeExprV>, effects: Seq<EffectV> },
    Bind { positional: Seq<char>, name: Seq<char>, variadic: bool },
    Type { name: Seq<char>, type_expr: TypeExprV },
    Module { shell: Seq<char>, version_constraint: Option<Seq<char>> },
    Proves { param: Seq<char>, refinement: Seq<char> },
    Unknown { name: Seq<char> },
}

pub struct AnnotationV {
    pub span: Span,
    pub directive: DirectiveV,
}

pub struct AnnotationErrorV {
    pub span: Span,
    pub message: Seq<char>,
}

pub open spec fn type_expr_v(t: TypeExpr) -> TypeExprV
    decreases t,
{
    match t {
        TypeExpr::Named(n) => TypeExprV::Named(n@),
        TypeExpr::Parameterized { name, param } => TypeExprV::Parameterized {
            name: name@,
            param: Box::new(type_expr_v(*param)),
        },
        TypeExpr::Status(c) => TypeExprV::Status(c@),
    }
}

pub open spec fn opt_type_expr_v(t: Option<TypeExpr>) -> Option<TypeExprV> {
    match t {
        Some(t) => Some(type_expr_v(t)),
        None => None,
    }
}

pub open spec fn params_v(p: Seq<Param>) -> Seq<ParamV> {
    Seq::new(p.len(), |i: int| ParamV { name: p[i].name@, type_expr: type_expr_v(p[i].type_expr) })
}

pub open spec fn effects_v(e: Seq<Effect>) -> Seq<EffectV> {
    Seq::new(e.len(), |i: int| EffectV { name: e[i].name@, span: e[i].span })
}

pub open spec fn directive_v(d: Directive) -> DirectiveV {
    match d {
        Directive::Sig(s) => DirectiveV::Sig {
            name: s.name@,
            params: params_v(s.params@),
            return_type: opt_type_expr_v(s.return_type),
            effects: effects_v(s.effects@),
        },
        Directive::Bind(b) => DirectiveV::Bind {
            positional: b.positional@,
            name: b.name@,
            variadic: b.variadic,
        },
        Directive::Type(t) => DirectiveV::Type { name: t.name@, type_expr: type_expr_v(t.type_expr) },
        Directive::Module(m) => DirectiveV::Module {
            shell: m.shell@,
            version_constraint: match m.version_constraint {
                Some(v) => Some(v@),
                None => None,
            },
        },
        Directive::Proves(p) => DirectiveV::Proves { param: p.param@, refinement: p.refinement@ },
        Directive::Unknown { name } => DirectiveV::Unknown { name: name@ },
    }
}

pub open spec fn annotation_v(a: Annotation) -> AnnotationV {
    AnnotationV { span: a.span, directive: directive_v(a.directive) }
}

pub open spec fn annotations_v(a: Seq<Annotation>) -> Seq<AnnotationV> {
    Seq::new(a.len(), |i: int| annotation_v(a[i]))
}

pub open spec fn annotation_error_v(e: AnnotationError) -> AnnotationErrorV {
    match e {
        AnnotationError::Malformed { span, message } => AnnotationErrorV { span, message: message@ },
    }
}

pub open spec fn annotation_errors_v(e: Seq<AnnotationError>) -> Seq<AnnotationErrorV> {
    Seq::new(e.len(), |i: int| annotation_error_v(e[i]))
}

// ---------------------------------------------------------------------------
// Specification of the grammar
// ---------------------------------------------------------------------------

/// The first word of `s` once trimmed, and the rest with leading space removed.
pub open spec fn split_first_word_s(s: Seq<char>) -> (Seq<char>, Seq<char>) {
    let t = trim_s(s);
    match find_pred(t, ws()) {
        Some(i) => (t.take(i), trim_start_s(t.skip(i))),
        None => (t, Seq::empty()),
    }
}

/// `Status[code]`.
pub open spec fn is_status_s(t: Seq<char>) -> bool {
    t.len() >= 8 && t.take(7) == "Status["@ && t.last() == ']'
}

pub open spec fn type_expr_s(s: Seq<char>) -> Result<TypeExprV, Seq<char>>
    decreases s.len(),
{
    let t = trim_s(s);
    if t.len() == 0 {
        Err("empty type expression"@)
    } else if is_status_s(t) {
        Ok(TypeExprV::Status(t.subrange(7, t.len() - 1)))
    } else {
        match find_c(t, '[') {
            Some(o) => if t.last() == ']' && 0 <= o && o + 1 <= t.len() - 1 && t.len() <= s.len() {
                match type_expr_s(t.subrange(o + 1, t.len() - 1)) {
                    Ok(p) => Ok(TypeExprV::Parameterized { name: trim_s(t.take(o)), param: Box::new(p) }),
                    Err(m) => Err(m),
                }
            } else {
                Ok(TypeExprV::Named(t))
            },
            None => Ok(TypeExprV::Named(t)),
        }
    }
}

/// One parameter `name: Type` of a signature; `None` for an empty part.
pub open spec fn param_s(part: Seq<char>) -> Result<Option<ParamV>, Seq<char>> {
    let p = trim_s(part);
    if p.len() == 0 {
        Ok(None)
    } else {
        match find_c(p, ':') {
            None => Err("expected ':' in parameter '"@ + p + "'"@),
            Some(c) => match type_expr_s(trim_s(p.skip(c + 1))) {
                Ok(t) => Ok(Some(ParamV { name: trim_s(p.take(c)), type_expr: t })),
                Err(m) => Err(m),
            },
        }
    }
}

pub open spec fn opt_cons<A>(x: Option<A>, rest: Seq<A>) -> Seq<A> {
    match x {
        Some(a) => seq![a] + rest,
        None => rest,
    }
}

/// The comma-separated parameters in `s`.
pub open spec fn param_list_s(s: Seq<char>) -> Result<Seq<ParamV>, Seq<char>>
    decreases s.len(),
{
    match find_c(s, ',') {
        Some(i) => if 0 <= i < s.len() {
            match param_s(s.take(i)) {
                Err(m) => Err(m),
                Ok(p) => match param_list_s(s.skip(i + 1)) {
                    Err(m) => Err(m),
                    Ok(r) => Ok(opt_cons(p, r)),
                },
            }
        } else {
            Err(Seq::empty())
        },
        None => match param_s(s) {
            Err(m) => Err(m),
            Ok(p) => Ok(opt_cons(p, Seq::empty())),
        },
    }
}

pub open spec fn params_s(s: Seq<char>) -> Result<Seq<ParamV>, Seq<char>> {
    let t = trim_s(s);
    if t.len() == 0 {
        Ok(Seq::empty())
    } else {
        param_list_s(t)
    }
}

/// The `!effect` words of `s`.
pub open spec fn effects_s(s: Seq<char>, span: Span) -> Seq<EffectV>
    decreases s.len(),
{
    let t = trim_start_s(s);
    if t.len() == 0 || t.len() > s.len() {
        Seq::empty()
    } else {
        let (w, rest) = match find_pred(t, ws()) {
            Some(i) => (t.take(i), t.skip(i)),
            None => (t, Seq::empty()),
        };
        if rest.len() < s.len() {
            let tail = effects_s(rest, span);
            if w.len() > 0 && w[0] == '!' {
                seq![EffectV { name: w.drop_first(), span }] + tail
            } else {
                tail
            }
        } else {
            Seq::empty()
        }
    }
}

/// Whether a signature's `(` comes before its `)`, where both occur.
pub open spec fn sig_brackets_ok(rest: Seq<char>) -> bool {
    match (find_c(rest, '('), find_c(rest, ')')) {
        (Some(po), Some(pc)) => po < pc,
        _ => true,
    }
}

pub open spec fn sig_s(rest: Seq<char>, span: Span) -> Result<DirectiveV, Seq<char>> {
    match find_c(rest, '(') {
        None => Err("expected '(' in sig directive"@),
        Some(po) => {
            let name = trim_s(rest.take(po));
            match find_c(rest, ')') {
                None => Err("expected ')' in sig directive"@),
                Some(pc) => match params_s(rest.subrange(po + 1, pc)) {
                    Err(m) => Err(m),
                    Ok(params) => {
                        let after = trim_s(rest.skip(pc + 1));
                        if after.len() >= 2 && after[0] == '-' && after[1] == '>' {
                            let ar = trim_s(after.skip(2));
                            match find_c(ar, '!') {
                                Some(e) => match type_expr_s(trim_s(ar.take(e))) {
                                    Err(m) => Err(m),
                                    Ok(t) => Ok(DirectiveV::Sig {
                                        name,
                                        params,
                                        return_type: Some(t),
                                        effects: effects_s(ar.skip(e), span),
                                    }),
                                },
                                None => match type_expr_s(ar) {
                                    Err(m) => Err(m),
                                    Ok(t) => Ok(DirectiveV::Sig {
                                        name,
                                        params,
                                        return_type: Some(t),
                                        effects: Seq::empty(),
                                    }),
                                },
                            }
                        } else {
                            Ok(DirectiveV::Sig { name, params, return_type: None, effects: effects_s(after, span) })
                        }
                    },
                },
            }
        },
    }
}

pub open spec fn bind_s(rest: Seq<char>) -> Result<DirectiveV, Seq<char>> {
    let (pr, name) = split_first_word_s(rest);
    if pr.len() == 0 || name.len() == 0 {
        Err("expected '$N name' in bind directive"@)
    } else {
        let variadic = pr.len() >= 2 && pr[pr.len() - 2] == '.' && pr[pr.len() - 1] == '.';
        Ok(DirectiveV::Bind {
            positional: if variadic { pr.take(pr.len() - 2) } else { pr },
            name,
            variadic,
        })
    }
}

pub open spec fn type_directive_s(rest: Seq<char>) -> Result<DirectiveV, Seq<char>> {
    match find_c(rest, ':') {
        None => Err("expected ':' in type directive"@),
        Some(c) => match type_expr_s(trim_s(rest.skip(c + 1))) {
            Err(m) => Err(m),
            Ok(t) => Ok(DirectiveV::Type { name: trim_s(rest.take(c)), type_expr: t }),
        },
    }
}

pub open spec fn proves_s(rest: Seq<char>) -> Result<DirectiveV, Seq<char>> {
    let (param, refinement) = split_first_word_s(rest);
    if param.len() == 0 || refinement.len() == 0 {
        Err("expected '$N RefinementType' in proves directive"@)
    } else {
        Ok(DirectiveV::Proves { param, refinement })
    }
}

pub open spec fn module_s(rest: Seq<char>) -> Result<DirectiveV, Seq<char>> {
    let r = trim_s(rest);
    if r.len() == 0 {
        Err("expected shell name in module directive"@)
    } else {
        let split = match find_pair(r, '>', '=') {
            Some(i) => Some(i),
            None => match find_pair(r, '<', '=') {
                Some(i) => Some(i),
                None => find_c(r, '='),
            },
        };
        match split {
            Some(i) => Ok(DirectiveV::Module { shell: trim_s(r.take(i)), version_constraint: Some(trim_s(r.skip(i))) }),
            None => Ok(DirectiveV::Module { shell: r, version_constraint: None }),
        }
    }
}

/// The directive written in `body` (the text after `#@`).
pub open spec fn directive_s(body: Seq<char>, span: Span) -> Result<DirectiveV, Seq<char>> {
    let (kw, rest) = split_first_word_s(body);
    if kw == "sig"@ {
        sig_s(rest, span)
    } else if kw == "bind"@ {
        bind_s(rest)
    } else if kw == "type"@ {
        type_directive_s(rest)
    } else if kw == "module"@ {
        module_s(rest)
    } else if kw == "proves"@ {
        proves_s(rest)
    } else {
        Ok(DirectiveV::Unknown { name: kw })
    }
}

/// Whether the directive in `body` can be parsed without slicing out of order.
pub open spec fn directive_ok(body: Seq<char>) -> bool {
    let (kw, rest) = split_first_word_s(body);
    kw == "sig"@ ==> sig_brackets_ok(rest)
}

pub open spec fn is_pragma(trimmed: Seq<char>) -> bool {
    trimmed.len() >= 2 && trimmed[0] == '#' && trimmed[1] == '@'
}

/// The annotation, or the error, that `line` holds when it starts at byte `start`.
pub open spec fn line_annotation_s(line: Seq<char>, start: int) -> (Option<AnnotationV>, Option<AnnotationErrorV>) {
    let trimmed = trim_start_s(line);
    if !is_pragma(trimmed) {
        (None, None)
    } else {
        let span = Span {
            start: (start + utf8_len_seq(line) - utf8_len_seq(trimmed)) as u32,
            end: (start + utf8_len_seq(line)) as u32,
        };
        match directive_s(trim_start_s(trimmed.skip(2)), span) {
            Ok(d) => (Some(AnnotationV { span, directive: d }), None),
            Err(m) => (None, Some(AnnotationErrorV { span, message: m })),
        }
    }
}

pub open spec fn line_ok(line: Seq<char>) -> bool {
    let trimmed = trim_start_s(line);
    is_pragma(trimmed) ==> directive_ok(trim_start_s(trimmed.skip(2)))
}

/// The first line of `s` (as `str::lines` gives it) and what follows its end.
pub open spec fn first_line(s: Seq<char>) -> (Seq<char>, Seq<char>) {
    match find_c(s, '\n') {
        Some(i) => (
            if i > 0 && s[i - 1] == '\r' { s.take(i - 1) } else { s.take(i) },
            s.skip(i + 1),
        ),
        None => (s, Seq::empty()),
    }
}

/// The lines of `s`, as `str::lines` splits them.
pub open spec fn lines_s(s: Seq<char>) -> Seq<Seq<char>>
    decreases s.len(),
{
    if s.len() == 0 {
        Seq::empty()
    } else {
        let (line, rest) = first_line(s);
        if rest.len() < s.len() {
            seq![line] + lines_s(rest)
        } else {
            seq![line]
        }
    }
}

/// The annotations and errors of the lines of `s`, where `s` starts at byte `start`.
pub open spec fn annotations_from(s: Seq<char>, start: int) -> (Seq<AnnotationV>, Seq<AnnotationErrorV>)
    decreases s.len(),
{
    if s.len() == 0 {
        (Seq::empty(), Seq::empty())
    } else {
        let (line, rest) = first_line(s);
        let (a, e) = line_annotation_s(line, start);
        if rest.len() < s.len() {
            let (ra, re) = annotations_from(rest, start + utf8_len_seq(line) + 1);
            (opt_cons(a, ra), opt_cons(e, re))
        } else {
            (opt_cons(a, Seq::empty()), opt_cons(e, Seq::empty()))
        }
    }
}

/// Every annotation line of `s` can be parsed.
pub open spec fn lines_ok(s: Seq<char>) -> bool
    decreases s.len(),
{
    if s.len() == 0 {
        true
    } else {
        let (line, rest) = first_line(s);
        line_ok(line) && (rest.len() < s.len() ==> lines_ok(rest))
    }
}

/// The annotations and the errors of a whole source text.
pub open spec fn spec_parse_annotations(s: Seq<char>) -> (Seq<AnnotationV>, Seq<AnnotationErrorV>) {
    annotations_from(s, 0)
}

/// The number of lines of `s` (as `str::lines` gives them) that begin,
/// after blanks, with `#@`.
pub open spec fn pragma_lines(s: Seq<char>) -> nat
    decreases s.len(),
{
    if s.len() == 0 {
        0
    } else {
        let (line, rest) = first_line(s);
        (if is_pragma(trim_start_s(line)) { 1nat } else { 0nat }) + if rest.len() < s.len() {
            pragma_lines(rest)
        } else {
            0nat
        }
    }
}

/// Each `#@` line gives exactly one annotation or one error, and no other
/// line gives either.
pub proof fn lemma_one_per_pragma_line(s: Seq<char>, start: int)
    ensures
        annotations_from(s, start).0.len() + annotations_from(s, start).1.len() == pragma_lines(s),
    decreases s.len(),
{
    if s.len() > 0 {
        let (line, rest) = first_line(s);
        let (a, e) = line_annotation_s(line, start);
        assert(is_pragma(trim_start_s(line)) <==> (a is Some || e is Some));
        assert(!(a is Some && e is Some));
        if rest.len() < s.len() {
            lemma_one_per_pragma_line(rest, start + utf8_len_seq(line) + 1);
        }
    }
}

} // verus!

verus! {

// ---------------------------------------------------------------------------
// The parser
// ---------------------------------------------------------------------------

fn split_first_word(v: &Vec<char>, lo: usize, hi: usize) -> (r: (usize, usize, usize, usize))
    requires
        lo <= hi <= v@.len(),
    ensures
        lo <= r.0 <= r.1 <= hi,
        lo <= r.2 <= r.3 <= hi,
        v@.subrange(r.0 as int, r.1 as int) == split_first_word_s(v@.subrange(lo as int, hi as int)).0,
        v@.subrange(r.2 as int, r.3 as int) == split_first_word_s(v@.subrange(lo as int, hi as int)).1,
{
    let (a, b) = trim_at(v, lo, hi);
    match find_ws_at(v, a, b) {
        Some(i) => {
            let c = trim_start_at(v, a + i, b);
            proof {
                lemma_subrange_subrange(v@, a as int, b as int, 0, i as int);
                lemma_subrange_subrange(v@, a as int, b as int, i as int, b - a);
            }
            (a, a + i, c, b)
        },
        None => {
            assert(v@.subrange(b as int, b as int) =~= Seq::<char>::empty());
            (a, b, b, b)
        },
    }
}

fn parse_type_expr(v: &Vec<char>, lo: usize, hi: usize) -> (r: Result<TypeExpr, String>)
    requires
        lo <= hi <= v@.len(),
    ensures
        match r {
            Ok(t) => type_expr_s(v@.subrange(lo as int, hi as int)) == Ok::<TypeExprV, Seq<char>>(type_expr_v(t)),
            Err(m) => type_expr_s(v@.subrange(lo as int, hi as int)) == Err::<TypeExprV, Seq<char>>(m@),
        },
    decreases hi - lo,
{
    let ghost s = v@.subrange(lo as int, hi as int);
    let (a, b) = trim_at(v, lo, hi);
    let ghost t = v@.subrange(a as int, b as int);
    if a == b {
        return Err(owned("empty type expression"));
    }
    proof {
        reveal_strlit("Status[");
        if b - a >= 8 {
            lemma_subrange_subrange(v@, a as int, b as int, 0, 7);
        }
    }
    if b - a >= 8 && range_starts_with(v, a, b, "Status[") && v[b - 1] == ']' {
        proof {
            lemma_subrange_subrange(v@, a as int, b as int, 0, 7);
            lemma_subrange_subrange(v@, a as int, b as int, 7, b - a - 1);
        }
        return Ok(TypeExpr::Status(string_of(v, a + 7, b - 1)));
    }
    match find_char_at(v, a, b, '[') {
        Some(o) => {
            if v[b - 1] == ']' && o + 1 <= b - a - 1 {
                proof {
                    lemma_subrange_subrange(v@, a as int, b as int, o + 1, b - a - 1);
                    lemma_subrange_subrange(v@, a as int, b as int, 0, o as int);
                }
                match parse_type_expr(v, a + o + 1, b - 1) {
                    Ok(p) => {
                        let (n0, n1) = trim_at(v, a, a + o);
                        Ok(TypeExpr::Parameterized { name: string_of(v, n0, n1), param: Box::new(p) })
                    },
                    Err(m) => Err(m),
                }
            } else {
                Ok(TypeExpr::Named(string_of(v, a, b)))
            }
        },
        None => Ok(TypeExpr::Named(string_of(v, a, b))),
    }
}

fn parse_param(v: &Vec<char>, lo: usize, hi: usize) -> (r: Result<Option<Param>, String>)
    requires
        lo <= hi <= v@.len(),
    ensures
        match r {
            Ok(Some(p)) => param_s(v@.subrange(lo as int, hi as int)) == Ok::<Option<ParamV>, Seq<char>>(
                Some(ParamV { name: p.name@, type_expr: type_expr_v(p.type_expr) })),
            Ok(None) => param_s(v@.subrange(lo as int, hi as int)) == Ok::<Option<ParamV>, Seq<char>>(None),
            Err(m) => param_s(v@.subrange(lo as int, hi as int)) == Err::<Option<ParamV>, Seq<char>>(m@),
        },
{
    let (a, b) = trim_at(v, lo, hi);
    if a == b {
        return Ok(None);
    }
    match find_char_at(v, a, b, ':') {
        None => {
            let mut m = owned("expected ':' in parameter '");
            push_range(&mut m, v, a, b);
            push_str(&mut m, "'");
            Err(m)
        },
        Some(c) => {
            proof {
                lemma_subrange_subrange(v@, a as int, b as int, c + 1, b - a);
                lemma_subrange_subrange(v@, a as int, b as int, 0, c as int);
            }
            let (t0, t1) = trim_at(v, a + c + 1, b);
            match parse_type_expr(v, t0, t1) {
                Ok(t) => {
                    let (n0, n1) = trim_at(v, a, a + c);
                    Ok(Some(Param { name: string_of(v, n0, n1), type_expr: t }))
                },
                Err(m) => Err(m),
            }
        },
    }
}

fn parse_params(v: &Vec<char>, lo: usize, hi: usize) -> (r: Result<Vec<Param>, String>)
    requires
        lo <= hi <= v@.len(),
    ensures
        match r {
            Ok(ps) => params_s(v@.subrange(lo as int, hi as int)) == Ok::<Seq<ParamV>, Seq<char>>(params_v(ps@)),
            Err(m) => params_s(v@.subrange(lo as int, hi as int)) == Err::<Seq<ParamV>, Seq<char>>(m@),
        },
{
    let (a, b) = trim_at(v, lo, hi);
    let mut params: Vec<Param> = Vec::new();
    if a == b {
        assert(params_v(params@) =~= Seq::<ParamV>::empty());
        return Ok(params);
    }
    let ghost whole = v@.subrange(a as int, b as int);
    let mut pos = a;
    loop
        invariant
            a <= pos <= b <= v@.len(),
            whole == v@.subrange(a as int, b as int),
            params_s(v@.subrange(lo as int, hi as int)) == param_list_s(whole),
            param_list_s(whole) == match param_list_s(v@.subrange(pos as int, b as int)) {
                Ok(rest) => Ok::<Seq<ParamV>, Seq<char>>(params_v(params@) + rest),
                Err(m) => Err(m),
            },
        decreases b - pos,
    {
        let ghost s = v@.subrange(pos as int, b as int);
        match find_char_at(v, pos, b, ',') {
            Some(i) => {
                proof {
                    lemma_subrange_subrange(v@, pos as int, b as int, 0, i as int);
                    lemma_subrange_subrange(v@, pos as int, b as int, i + 1, b - pos);
                }
                match parse_param(v, pos, pos + i) {
                    Err(m) => return Err(m),
                    Ok(p) => {
                        let ghost before = params@;
                        let ghost pv = match param_s(s.take(i as int)) {
                            Ok(x) => x,
                            Err(_) => None,
                        };
                        match p {
                            Some(p) => {
                                params.push(p);
                            },
                            None => {},
                        }
                        proof {
                            assert(s.skip(i + 1) == v@.subrange(pos + i + 1, b as int));
                            assert forall|r: Seq<ParamV>| #![auto]
                                params_v(before) + opt_cons(pv, r) == params_v(params@) + r by {
                                assert(params_v(before) + opt_cons(pv, r) =~= params_v(params@) + r);
                            }
                        }
                        pos = pos + i + 1;
                    },
                }
            },
            None => {
                match parse_param(v, pos, b) {
                    Err(m) => return Err(m),
                    Ok(p) => {
                        let ghost before = params@;
                        let ghost pv = match param_s(s) {
                            Ok(x) => x,
                            Err(_) => None,
                        };
                        match p {
                            Some(p) => {
                                params.push(p);
                            },
                            None => {},
                        }
                        assert(params_v(before) + opt_cons(pv, Seq::<ParamV>::empty()) =~= params_v(params@));
                        return Ok(params);
                    },
                }
            },
        }
    }
}

fn parse_effects(v: &Vec<char>, lo: usize, hi: usize, span: Span) -> (r: Vec<Effect>)
    requires
        lo <= hi <= v@.len(),
    ensures
        effects_v(r@) == effects_s(v@.subrange(lo as int, hi as int), span),
{
    let mut effects: Vec<Effect> = Vec::new();
    let mut pos = lo;
    loop
        invariant
            lo <= pos <= hi <= v@.len(),
            effects_s(v@.subrange(lo as int, hi as int), span)
                == effects_v(effects@) + effects_s(v@.subrange(pos as int, hi as int), span),
        decreases hi - pos,
    {
        let ghost s = v@.subrange(pos as int, hi as int);
        let a = trim_start_at(v, pos, hi);
        if a == hi {
            assert(effects_s(s, span) =~= Seq::<EffectV>::empty());
            assert(effects_v(effects@) + Seq::<EffectV>::empty() =~= effects_v(effects@));
            return effects;
        }
        let ghost t = v@.subrange(a as int, hi as int);
        let e = match find_ws_at(v, a, hi) {
            Some(i) => a + i,
            None => hi,
        };
        proof {
            lemma_subrange_subrange(v@, a as int, hi as int, 0, e - a);
            lemma_subrange_subrange(v@, a as int, hi as int, e - a, hi - a);
            crate::text::lemma_find_pred(t, ws());
            crate::text::lemma_find_pred(t, not_ws());
            crate::text::lemma_find_pred(s, not_ws());
        }
        proof {
            assert(t.len() <= s.len());
            assert(!is_ws(t[0]));
            assert(e > a);
            let w = v@.subrange(a as int, e as int);
            let rest = v@.subrange(e as int, hi as int);
            if e == hi {
                assert(rest =~= Seq::<char>::empty());
                assert(w =~= t);
            }
            assert(effects_s(s, span) == (if w.len() > 0 && w[0] == '!' {
                seq![EffectV { name: w.drop_first(), span }]
            } else {
                Seq::<EffectV>::empty()
            }) + effects_s(rest, span));
        }
        let ghost before = effects@;
        if v[a] == '!' {
            effects.push(Effect { name: string_of(v, a + 1, e), span });
            proof {
                lemma_subrange_subrange(v@, a as int, e as int, 1, e - a);
                assert(effects_v(effects@) =~= effects_v(before) + seq![EffectV { name: v@.subrange(a + 1, e as int), span }]);
            }
        }
        assert(effects_v(effects@) + effects_s(v@.subrange(e as int, hi as int), span)
            =~= effects_v(before) + effects_s(s, span));
        pos = e;
    }
}

} // verus!

verus! {

fn parse_sig(v: &Vec<char>, lo: usize, hi: usize, span: Span) -> (r: Result<Directive, String>)
    requires
        lo <= hi <= v@.len(),
        sig_brackets_ok(v@.subrange(lo as int, hi as int)),
    ensures
        match r {
            Ok(d) => sig_s(v@.subrange(lo as int, hi as int), span) == Ok::<DirectiveV, Seq<char>>(directive_v(d)),
            Err(m) => sig_s(v@.subrange(lo as int, hi as int), span) == Err::<DirectiveV, Seq<char>>(m@),
        },
{
    let ghost rest = v@.subrange(lo as int, hi as int);
    let po = match find_char_at(v, lo, hi, '(') {
        Some(po) => po,
        None => return Err(owned("expected '(' in sig directive")),
    };
    let pc = match find_char_at(v, lo, hi, ')') {
        Some(pc) => pc,
        None => return Err(owned("expected ')' in sig directive")),
    };
    proof {
        lemma_subrange_subrange(v@, lo as int, hi as int, 0, po as int);
        lemma_subrange_subrange(v@, lo as int, hi as int, po + 1, pc as int);
        lemma_subrange_subrange(v@, lo as int, hi as int, pc + 1, hi - lo);
    }
    let (n0, n1) = trim_at(v, lo, lo + po);
    let name = string_of(v, n0, n1);
    let params = match parse_params(v, lo + po + 1, lo + pc) {
        Ok(p) => p,
        Err(m) => return Err(m),
    };
    let (a0, a1) = trim_at(v, lo + pc + 1, hi);
    let ghost after = v@.subrange(a0 as int, a1 as int);
    if a1 - a0 >= 2 && v[a0] == '-' && v[a0 + 1] == '>' {
        let (r0, r1) = trim_at(v, a0 + 2, a1);
        proof {
            lemma_subrange_subrange(v@, a0 as int, a1 as int, 2, a1 - a0);
        }
        match find_char_at(v, r0, r1, '!') {
            Some(e) => {
                proof {
                    lemma_subrange_subrange(v@, r0 as int, r1 as int, 0, e as int);
                    lemma_subrange_subrange(v@, r0 as int, r1 as int, e as int, r1 - r0);
                }
                let (t0, t1) = trim_at(v, r0, r0 + e);
                match parse_type_expr(v, t0, t1) {
                    Err(m) => Err(m),
                    Ok(t) => {
                        let effects = parse_effects(v, r0 + e, r1, span);
                        Ok(Directive::Sig(SigDirective { name, params, return_type: Some(t), effects }))
                    },
                }
            },
            None => match parse_type_expr(v, r0, r1) {
                Err(m) => Err(m),
                Ok(t) => {
                    let effects: Vec<Effect> = Vec::new();
                    assert(effects_v(effects@) =~= Seq::<EffectV>::empty());
                    Ok(Directive::Sig(SigDirective { name, params, return_type: Some(t), effects }))
                },
            },
        }
    } else {
        let effects = parse_effects(v, a0, a1, span);
        Ok(Directive::Sig(SigDirective { name, params, return_type: None, effects }))
    }
}

fn parse_bind(v: &Vec<char>, lo: usize, hi: usize) -> (r: Result<Directive, String>)
    requires
        lo <= hi <= v@.len(),
    ensures
        match r {
            Ok(d) => bind_s(v@.subrange(lo as int, hi as int)) == Ok::<DirectiveV, Seq<char>>(directive_v(d)),
            Err(m) => bind_s(v@.subrange(lo as int, hi as int)) == Err::<DirectiveV, Seq<char>>(m@),
        },
{
    let (p0, p1, n0, n1) = split_first_word(v, lo, hi);
    if p0 == p1 || n0 == n1 {
        return Err(owned("expected '$N name' in bind directive"));
    }
    let variadic = p1 - p0 >= 2 && v[p1 - 2] == '.' && v[p1 - 1] == '.';
    let positional = if variadic {
        proof {
            lemma_subrange_subrange(v@, p0 as int, p1 as int, 0, p1 - p0 - 2);
        }
        string_of(v, p0, p1 - 2)
    } else {
        string_of(v, p0, p1)
    };
    Ok(Directive::Bind(BindDirective { positional, name: string_of(v, n0, n1), variadic }))
}

fn parse_type_directive(v: &Vec<char>, lo: usize, hi: usize) -> (r: Result<Directive, String>)
    requires
        lo <= hi <= v@.len(),
    ensures
        match r {
            Ok(d) => type_directive_s(v@.subrange(lo as int, hi as int)) == Ok::<DirectiveV, Seq<char>>(directive_v(d)),
            Err(m) => type_directive_s(v@.subrange(lo as int, hi as int)) == Err::<DirectiveV, Seq<char>>(m@),
        },
{
    match find_char_at(v, lo, hi, ':') {
        None => Err(owned("expected ':' in type directive")),
        Some(c) => {
            proof {
                lemma_subrange_subrange(v@, lo as int, hi as int, 0, c as int);
                lemma_subrange_subrange(v@, lo as int, hi as int, c + 1, hi - lo);
            }
            let (t0, t1) = trim_at(v, lo + c + 1, hi);
            match parse_type_expr(v, t0, t1) {
                Err(m) => Err(m),
                Ok(t) => {
                    let (n0, n1) = trim_at(v, lo, lo + c);
                    Ok(Directive::Type(TypeDirective { name: string_of(v, n0, n1), type_expr: t }))
                },
            }
        },
    }
}

fn parse_proves(v: &Vec<char>, lo: usize, hi: usize) -> (r: Result<Directive, String>)
    requires
        lo <= hi <= v@.len(),
    ensures
        match r {
            Ok(d) => proves_s(v@.subrange(lo as int, hi as int)) == Ok::<DirectiveV, Seq<char>>(directive_v(d)),
            Err(m) => proves_s(v@.subrange(lo as int, hi as int)) == Err::<DirectiveV, Seq<char>>(m@),
        },
{
    let (p0, p1, n0, n1) = split_first_word(v, lo, hi);
    if p0 == p1 || n0 == n1 {
        return Err(owned("expected '$N RefinementType' in proves directive"));
    }
    Ok(Directive::Proves(ProvesDirective { param: string_of(v, p0, p1), refinement: string_of(v, n0, n1) }))
}

fn parse_module(v: &Vec<char>, lo: usize, hi: usize) -> (r: Result<Directive, String>)
    requires
        lo <= hi <= v@.len(),
    ensures
        match r {
            Ok(d) => module_s(v@.subrange(lo as int, hi as int)) == Ok::<DirectiveV, Seq<char>>(directive_v(d)),
            Err(m) => module_s(v@.subrange(lo as int, hi as int)) == Err::<DirectiveV, Seq<char>>(m@),
        },
{
    let (a, b) = trim_at(v, lo, hi);
    if a == b {
        return Err(owned("expected shell name in module directive"));
    }
    let split = match find_pair_at(v, a, b, '>', '=') {
        Some(i) => Some(i),
        None => match find_pair_at(v, a, b, '<', '=') {
            Some(i) => Some(i),
            None => find_char_at(v, a, b, '='),
        },
    };
    match split {
        Some(i) => {
            proof {
                lemma_subrange_subrange(v@, a as int, b as int, 0, i as int);
                lemma_subrange_subrange(v@, a as int, b as int, i as int, b - a);
            }
            let (s0, s1) = trim_at(v, a, a + i);
            let (c0, c1) = trim_at(v, a + i, b);
            Ok(Directive::Module(ModuleDirective {
                shell: string_of(v, s0, s1),
                version_constraint: Some(string_of(v, c0, c1)),
            }))
        },
        None => Ok(Directive::Module(ModuleDirective { shell: string_of(v, a, b), version_constraint: None })),
    }
}

fn parse_directive(v: &Vec<char>, lo: usize, hi: usize, span: Span) -> (r: Result<Directive, String>)
    requires
        lo <= hi <= v@.len(),
        directive_ok(v@.subrange(lo as int, hi as int)),
    ensures
        match r {
            Ok(d) => directive_s(v@.subrange(lo as int, hi as int), span) == Ok::<DirectiveV, Seq<char>>(directive_v(d)),
            Err(m) => directive_s(v@.subrange(lo as int, hi as int), span) == Err::<DirectiveV, Seq<char>>(m@),
        },
{
    let (k0, k1, r0, r1) = split_first_word(v, lo, hi);
    if range_eq(v, k0, k1, "sig") {
        parse_sig(v, r0, r1, span)
    } else if range_eq(v, k0, k1, "bind") {
        parse_bind(v, r0, r1)
    } else if range_eq(v, k0, k1, "type") {
        parse_type_directive(v, r0, r1)
    } else if range_eq(v, k0, k1, "module") {
        parse_module(v, r0, r1)
    } else if range_eq(v, k0, k1, "proves") {
        parse_proves(v, r0, r1)
    } else {
        Ok(Directive::Unknown { name: string_of(v, k0, k1) })
    }
}

/// Whether `#@` on a line of `s`, from character `lo` to `hi`, is a pragma.
fn is_pragma_at(v: &Vec<char>, lo: usize, hi: usize) -> (b: bool)
    requires
        lo <= hi <= v@.len(),
    ensures
        b == is_pragma(v@.subrange(lo as int, hi as int)),
{
    hi - lo >= 2 && v[lo] == '#' && v[lo + 1] == '@'
}

/// The end of the first line of `v[pos..]` (without its line break) and where the next begins.
fn line_bounds(v: &Vec<char>, pos: usize) -> (r: (usize, usize))
    requires
        pos < v@.len(),
    ensures
        pos <= r.0 <= r.1 <= v@.len(),
        r.1 > pos,
        r.1 > r.0 || r.1 == v@.len(),
        v@.subrange(pos as int, r.0 as int) == first_line(v@.skip(pos as int)).0,
        v@.skip(r.1 as int) == first_line(v@.skip(pos as int)).1,
{
    let ghost s = v@.skip(pos as int);
    assert(v@.subrange(pos as int, v@.len() as int) == s);
    match find_char_at(v, pos, v.len(), '\n') {
        Some(i) => {
            let e = if i > 0 && v[pos + i - 1] == '\r' {
                pos + i - 1
            } else {
                pos + i
            };
            assert(v@.subrange(pos as int, e as int) =~= s.take(e - pos));
            assert(v@.skip(pos + i + 1) =~= s.skip(i + 1));
            (e, pos + i + 1)
        },
        None => {
            assert(v@.skip(v@.len() as int) =~= Seq::<char>::empty());
            (v.len(), v.len())
        },
    }
}

/// Whether every annotation line of `source` can be parsed: a `#@sig` line
/// whose first `)` comes before its first `(` cannot.
pub fn annotations_parseable(source: &str) -> (b: bool)
    ensures
        b == lines_ok(source@),
{
    let v = chars_of(source);
    let mut pos: usize = 0;
    assert(v@.skip(0) =~= v@);
    while pos < v.len()
        invariant
            v@ == source@,
            pos <= v@.len(),
            lines_ok(v@) == lines_ok(v@.skip(pos as int)),
        decreases v.len() - pos,
    {
        let ghost s = v@.skip(pos as int);
        let (end, next) = line_bounds(&v, pos);
        let ghost line = v@.subrange(pos as int, end as int);
        let ghost rest = v@.skip(next as int);
        proof {
            assert(lines_ok(s) == (line_ok(line) && (rest.len() < s.len() ==> lines_ok(rest))));
            assert(rest.len() < s.len());
        }
        let t = trim_start_at(&v, pos, end);
        if is_pragma_at(&v, t, end) {
            let b0 = trim_start_at(&v, t + 2, end);
            proof {
                lemma_subrange_subrange(v@, t as int, end as int, 2, end - t);
            }
            let (k0, k1, r0, r1) = split_first_word(&v, b0, end);
            proof {
                assert(line_ok(line) == directive_ok(v@.subrange(b0 as int, end as int)));
            }
            if range_eq(&v, k0, k1, "sig") {
                let po = find_char_at(&v, r0, r1, '(');
                let pc = find_char_at(&v, r0, r1, ')');
                match (po, pc) {
                    (Some(a), Some(b)) => {
                        if a >= b {
                            assert(!sig_brackets_ok(v@.subrange(r0 as int, r1 as int)));
                            assert(!directive_ok(v@.subrange(b0 as int, end as int)));
                            assert(!lines_ok(s));
                            return false;
                        }
                    },
                    _ => {},
                }
            }
        }
        pos = next;
    }
    assert(v@.skip(pos as int) =~= Seq::<char>::empty());
    true
}

/// The annotations of a source text, and the errors of the `#@` lines that
/// could not be parsed, as `spec_parse_annotations` states.
pub fn parse_annotations(source: &SourceFile) -> (r: (Vec<Annotation>, Vec<AnnotationError>))
    requires
        utf8_len_seq(source.source@) <= u32::MAX,
        lines_ok(source.source@),
    ensures
        annotations_v(r.0@) == spec_parse_annotations(source.source@).0,
        annotation_errors_v(r.1@) == spec_parse_annotations(source.source@).1,
{
    let v = chars_of(source.source.as_str());
    let ghost total = utf8_len_seq(v@);
    let mut annotations: Vec<Annotation> = Vec::new();
    let mut errors: Vec<AnnotationError> = Vec::new();
    let mut pos: usize = 0;
    let mut start: u64 = 0;
    assert(v@.skip(0) =~= v@);
    proof {
        crate::text::lemma_utf8_len_nonneg(v@);
    }
    while pos < v.len()
        invariant
            v@ == source.source@,
            total == utf8_len_seq(v@),
            total <= u32::MAX,
            pos <= v@.len(),
            lines_ok(v@.skip(pos as int)),
            pos < v@.len() ==> start as int + utf8_len_seq(v@.skip(pos as int)) <= total,
            start <= total + 1,
            spec_parse_annotations(v@) == ({
                let (ra, re) = annotations_from(v@.skip(pos as int), start as int);
                (annotations_v(annotations@) + ra, annotation_errors_v(errors@) + re)
            }),
        decreases v.len() - pos,
    {
        let ghost s = v@.skip(pos as int);
        let (end, next) = line_bounds(&v, pos);
        let ghost line = v@.subrange(pos as int, end as int);
        let ghost rest = v@.skip(next as int);
        proof {
            assert(s =~= line + v@.subrange(end as int, next as int) + rest);
            lemma_utf8_len_concat(line + v@.subrange(end as int, next as int), rest);
            lemma_utf8_len_concat(line, v@.subrange(end as int, next as int));
            lemma_utf8_len_nonneg(v@.subrange(end as int, next as int));
            lemma_utf8_len_nonneg(line);
            lemma_utf8_len_nonneg(rest);
            if next > end {
                assert(v@.subrange(end as int, next as int).len() >= 1);
            }
        }
        let line_len = utf8_len_range(&v, pos, end);
        let t = trim_start_at(&v, pos, end);
        let ghost before_a = annotations@;
        let ghost before_e = errors@;
        if is_pragma_at(&v, t, end) {
            proof {
                let trimmed = v@.subrange(t as int, end as int);
                assert(line =~= line.take(t - pos) + trimmed);
                assert(line.take(t - pos) =~= v@.subrange(pos as int, t as int));
                lemma_utf8_len_concat(line.take(t - pos), trimmed);
                lemma_utf8_len_nonneg(trimmed);
            }
            let lead = utf8_len_range(&v, pos, t);
            let span = Span::new((start + lead) as u32, (start + line_len) as u32);
            let b0 = trim_start_at(&v, t + 2, end);
            proof {
                lemma_subrange_subrange(v@, t as int, end as int, 2, end - t);
            }
            match parse_directive(&v, b0, end, span) {
                Ok(d) => {
                    annotations.push(Annotation { span, directive: d });
                },
                Err(m) => {
                    errors.push(AnnotationError::Malformed { span, message: m });
                },
            }
        }
        proof {
            let (a, e) = line_annotation_s(line, start as int);
            assert(annotations_v(annotations@) =~= annotations_v(before_a) + opt_cons(a, Seq::empty()));
            assert(annotation_errors_v(errors@) =~= annotation_errors_v(before_e) + opt_cons(e, Seq::empty()));
            if rest.len() < s.len() {
                let (ra, re) = annotations_from(rest, start + utf8_len_seq(line) + 1);
                assert(annotations_v(before_a) + opt_cons(a, ra) =~= annotations_v(annotations@) + ra);
                assert(annotation_errors_v(before_e) + opt_cons(e, re) =~= annotation_errors_v(errors@) + re);
            } else {
                assert(rest.len() == 0);
            }
        }
        start = start + line_len + 1;
        pos = next;
    }
    proof {
        assert(v@.skip(pos as int) =~= Seq::<char>::empty());
        assert(annotations_v(annotations@) + Seq::<AnnotationV>::empty() =~= annotations_v(annotations@));
        assert(annotation_errors_v(errors@) + Seq::<AnnotationErrorV>::empty() =~= annotation_errors_v(errors@));
    }
    (annotations, errors)
}


// ---------------------------------------------------------------------------
// One parameter per comma-separated part
// ---------------------------------------------------------------------------

/// The parts of `s` between commas, in order (a text without commas is one
/// part; `n` commas make `n + 1` parts, empty ones included).
pub open spec fn comma_parts(s: Seq<char>) -> Seq<Seq<char>>
    decreases s.len(),
{
    if s.len() == 0 {
        seq![Seq::empty()]
    } else {
        let p = comma_parts(s.drop_last());
        if s.last() == ',' {
            p.push(Seq::empty())
        } else {
            p.update(p.len() - 1, p.last().push(s.last()))
        }
    }
}

/// The parameter that a part names, if it parses and is not blank.
pub open spec fn named_param(part: Seq<char>) -> Option<ParamV> {
    match param_s(part) {
        Ok(Some(x)) => Some(x),
        _ => None,
    }
}

/// How many of the parts `ps` name a parameter.
pub open spec fn named_parts(ps: Seq<Seq<char>>) -> nat
    decreases ps.len(),
{
    if ps.len() == 0 {
        0
    } else {
        (if named_param(ps[0]) is Some { 1nat } else { 0nat }) + named_parts(ps.drop_first())
    }
}

proof fn lemma_named_split(ps: Seq<Seq<char>>, m: int)
    requires
        0 <= m <= ps.len(),
    ensures
        named_parts(ps) == named_parts(ps.take(m)) + named_parts(ps.skip(m)),
    decreases m,
{
    if m == 0 {
        assert(ps.take(0).len() == 0);
        assert(ps.skip(0) =~= ps);
    } else {
        lemma_named_split(ps.drop_first(), m - 1);
        assert(ps.take(m).drop_first() =~= ps.drop_first().take(m - 1));
        assert(ps.drop_first().skip(m - 1) =~= ps.skip(m));
        assert(ps.take(m)[0] == ps[0]);
    }
}

proof fn lemma_comma_parts_len(s: Seq<char>)
    ensures
        comma_parts(s).len() >= 1,
    decreases s.len(),
{
    if s.len() > 0 {
        lemma_comma_parts_len(s.drop_last());
    }
}

proof fn lemma_comma_parts_plain(s: Seq<char>)
    requires
        forall|j: int| 0 <= j < s.len() ==> s[j] != ',',
    ensures
        comma_parts(s) == seq![s],
    decreases s.len(),
{
    if s.len() == 0 {
        assert(s =~= Seq::<char>::empty());
        assert(comma_parts(s) =~= seq![s]);
    } else {
        lemma_comma_parts_plain(s.drop_last());
        assert(s.drop_last().push(s.last()) =~= s);
        assert(comma_parts(s) =~= seq![s]);
    }
}

proof fn lemma_comma_parts_split(a: Seq<char>, b: Seq<char>)
    ensures
        comma_parts(a + seq![','] + b) == comma_parts(a) + comma_parts(b),
    decreases b.len(),
{
    let x = a + seq![','] + b;
    if b.len() == 0 {
        assert(x.drop_last() =~= a);
        assert(comma_parts(x) =~= comma_parts(a) + comma_parts(b));
    } else {
        let b1 = b.drop_last();
        assert(x.drop_last() =~= a + seq![','] + b1);
        assert(x.last() == b.last());
        lemma_comma_parts_split(a, b1);
        lemma_comma_parts_len(b1);
        let pa = comma_parts(a);
        let pb = comma_parts(b1);
        if b.last() == ',' {
            assert(comma_parts(x) =~= pa + comma_parts(b));
        } else {
            let p = pa + pb;
            assert(p.last() == pb.last());
            assert(p.update(p.len() - 1, p.last().push(b.last())) =~= pa + pb.update(
                pb.len() - 1,
                pb.last().push(b.last()),
            ));
        }
    }
}

/// A parameter list parses exactly when each of its comma-separated parts
/// does; then it holds one parameter per part that is not blank, in the
/// order of the parts.
pub proof fn lemma_params_one_per_part(s: Seq<char>)
    ensures
        param_list_s(s) is Ok <==> forall|k: int| 0 <= k < comma_parts(s).len() ==> #[trigger] param_s(comma_parts(s)[k]) is Ok,
        param_list_s(s) is Ok ==> param_list_s(s)->Ok_0.len() == named_parts(comma_parts(s)),
        param_list_s(s) is Ok ==> forall|k: int|
            0 <= k < comma_parts(s).len() && (#[trigger] named_param(comma_parts(s)[k])) is Some ==> param_list_s(
                s,
            )->Ok_0[named_parts(comma_parts(s).take(k)) as int] == named_param(comma_parts(s)[k])->Some_0,
    decreases s.len(),
{
    let cs = comma_parts(s);
    lemma_find_pred(s, char_is(','));
    match find_c(s, ',') {
        Some(i) => {
            let t = s.take(i);
            let rest = s.skip(i + 1);
            assert(s =~= t + seq![','] + rest);
            lemma_comma_parts_split(t, rest);
            assert forall|j: int| 0 <= j < t.len() implies t[j] != ',' by {
                assert(!char_is(',')(s[j]));
            }
            lemma_comma_parts_plain(t);
            lemma_params_one_per_part(rest);
            let cr = comma_parts(rest);
            assert(cs =~= seq![t] + cr);
            assert(cs[0] == t);
            assert forall|k: int| 1 <= k < cs.len() implies cs[k] == cr[k - 1] by {}
            assert(cs.drop_first() =~= cr);
            if forall|k: int| 0 <= k < cs.len() ==> #[trigger] param_s(cs[k]) is Ok {
                assert(param_s(cs[0]) is Ok);
                assert forall|k: int| 0 <= k < cr.len() implies #[trigger] param_s(cr[k]) is Ok by {
                    assert(param_s(cs[k + 1]) is Ok);
                }
            }
            if param_list_s(s) is Ok {
                assert forall|k: int| 0 <= k < cs.len() implies #[trigger] param_s(cs[k]) is Ok by {
                    if k > 0 {
                        assert(param_s(cr[k - 1]) is Ok);
                    }
                }
            }
            if param_list_s(s) is Ok {
                let p = param_s(t)->Ok_0;
                let r2 = param_list_s(rest)->Ok_0;
                let r = opt_cons(p, r2);
                assert(param_list_s(s) == Ok::<Seq<ParamV>, Seq<char>>(r));
                assert(named_parts(cs) == (if named_param(t) is Some { 1nat } else { 0nat }) + named_parts(cr));
                assert(named_param(t) is Some <==> p is Some);
                if p is Some {
                    assert(r =~= seq![p->Some_0] + r2);
                    assert(r.len() == 1 + r2.len());
                } else {
                    assert(r == r2);
                }
                assert forall|k: int|
                    0 <= k < cs.len() && (#[trigger] named_param(cs[k])) is Some implies r[named_parts(cs.take(k)) as int]
                        == named_param(cs[k])->Some_0 by {
                    if k == 0 {
                        assert(cs.take(0).len() == 0);
                        assert(named_parts(cs.take(0)) == 0);
                        assert(r[0] == p->Some_0);
                    } else {
                        assert(cs.take(k).drop_first() =~= cr.take(k - 1));
                        assert(cs.take(k)[0] == t);
                        assert(cs[k] == cr[k - 1]);
                        assert(named_param(cr[k - 1]) is Some);
                        let j = named_parts(cr.take(k - 1)) as int;
                        assert(named_parts(cs.take(k)) == (if named_param(t) is Some { 1nat } else { 0nat }) + named_parts(
                            cr.take(k - 1),
                        ));
                        assert(r2[j] == named_param(cr[k - 1])->Some_0);
                        lemma_named_split(cr, k - 1);
                        assert(cr.skip(k - 1)[0] == cr[k - 1]);
                        assert(j < r2.len());
                        if p is Some {
                            assert(r[1 + j] == r2[j]);
                        }
                    }
                }
            }
        },
        None => {
            assert forall|j: int| 0 <= j < s.len() implies s[j] != ',' by {
                assert(!char_is(',')(s[j]));
            }
            lemma_comma_parts_plain(s);
            assert(cs[0] == s);
            assert(cs.drop_first().len() == 0);
            assert(named_parts(cs) == (if named_param(s) is Some { 1nat } else { 0nat }) + named_parts(cs.drop_first()));
            if param_list_s(s) is Ok {
                assert forall|k: int|
                    0 <= k < cs.len() && (#[trigger] named_param(cs[k])) is Some implies param_list_s(s)->Ok_0[named_parts(
                        cs.take(k),
                    ) as int] == named_param(cs[k])->Some_0 by {
                    assert(k == 0);
                    assert(cs.take(0).len() == 0);
                }
            }
        },
    }
}

} // verus!
