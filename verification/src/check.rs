//! The checks run over the HIR of one file: BT000 (unmodeled syntax),
//! BT201 (an array expanded as a scalar), BT202 (an unquoted expansion),
//! BT801 (an unquoted expansion given to a destructive command) and BT802
//! (a `cd` whose failure is not handled).
use vstd::prelude::*;
use crate::diagnostic::{Diagnostic, DiagnosticCode, DiagnosticV, Fix, FixV, Severity};
use crate::hir::{
    CaseArm, CaseArmV, Command, Item, ItemV, ListElement, ListElementV, ListOperator, SegmentV, SourceUnit,
    Statement, StatementV, Word, WordSegment, WordV, arm_v, arms_v, elements_v, item_v, items_v,
    seg_v, segs_v, stmt_v, stmts_v, strings_v, word_literal, word_v, words_v,
};
use crate::stdlib::{Destructiveness, command_name, destructiveness_at, destructiveness_rank, lookup_command, sig_matches};
use crate::span::{SourceId, Span};
use crate::text::{copy_string, owned, push_str, str_eq};

verus! {

pub open spec fn bt000_s() -> DiagnosticCode {
    DiagnosticCode { family: "BT", number: 0 }
}

pub open spec fn bt201_s() -> DiagnosticCode {
    DiagnosticCode { family: "BT", number: 201 }
}

pub open spec fn bt202_s() -> DiagnosticCode {
    DiagnosticCode { family: "BT", number: 202 }
}

pub open spec fn bt801_s() -> DiagnosticCode {
    DiagnosticCode { family: "BT", number: 801 }
}

pub open spec fn bt802_s() -> DiagnosticCode {
    DiagnosticCode { family: "BT", number: 802 }
}

/// `BT801`: an unquoted expansion given to a destructive command.
pub fn bt801() -> (c: DiagnosticCode)
    ensures
        c == bt801_s(),
{
    DiagnosticCode { family: "BT", number: 801 }
}

/// `BT802`: a `cd` whose failure is not handled.
pub fn bt802() -> (c: DiagnosticCode)
    ensures
        c == bt802_s(),
{
    DiagnosticCode { family: "BT", number: 802 }
}

/// `BT000`: a construct that is not analyzed.
pub fn bt000() -> (c: DiagnosticCode)
    ensures
        c == bt000_s(),
{
    DiagnosticCode { family: "BT", number: 0 }
}

/// `BT201`: an array expanded as a scalar.
pub fn bt201() -> (c: DiagnosticCode)
    ensures
        c == bt201_s(),
{
    DiagnosticCode { family: "BT", number: 201 }
}

/// `BT202`: an unquoted expansion.
pub fn bt202() -> (c: DiagnosticCode)
    ensures
        c == bt202_s(),
{
    DiagnosticCode { family: "BT", number: 202 }
}

// ---------------------------------------------------------------------------
// What the checks report, over the model of the HIR
// ---------------------------------------------------------------------------

pub open spec fn diags_v(s: Seq<Diagnostic>) -> Seq<DiagnosticV> {
    Seq::new(s.len(), |i: int| s[i]@)
}

/// An assignment declares an array: with `-a` or `-A`, or with an array value.
pub open spec fn is_array_decl_s(flags: Seq<Seq<char>>, has_array_value: bool) -> bool {
    flags.contains("-a"@) || flags.contains("-A"@) || has_array_value
}

/// The names of the array declarations among `ss`, in order.
pub open spec fn array_names_s(ss: Seq<StatementV>) -> Seq<Seq<char>>
    decreases ss.len(),
{
    if ss.len() == 0 {
        Seq::empty()
    } else {
        let rest = array_names_s(ss.drop_last());
        match ss.last() {
            StatementV::Assignment { name, flags, array_value, .. } => if is_array_decl_s(
                flags,
                array_value is Some,
            ) {
                rest.push(name)
            } else {
                rest
            },
            _ => rest,
        }
    }
}

/// The names of the array declarations among the top-level statements.
pub open spec fn top_array_names_s(items: Seq<ItemV>) -> Seq<Seq<char>>
    decreases items.len(),
{
    if items.len() == 0 {
        Seq::empty()
    } else {
        let rest = top_array_names_s(items.drop_last());
        match items.last() {
            ItemV::Statement(StatementV::Assignment { name, flags, array_value, .. }) => if is_array_decl_s(
                flags,
                array_value is Some,
            ) {
                rest.push(name)
            } else {
                rest
            },
            _ => rest,
        }
    }
}

pub open spec fn bt201_diag(name: Seq<char>, span: Span, sid: SourceId) -> DiagnosticV {
    DiagnosticV {
        code: bt201_s(),
        severity: Severity::Error,
        message: "array '"@ + name + "' used in scalar expansion — only first element will be used"@,
        source_id: sid,
        primary_span: span,
        labels: Seq::empty(),
        help: Some("use \"${"@ + name + "[@]}\" to expand all elements"@),
        fix: Some(FixV { description: "Expand as array"@, replacement: Some("\"${"@ + name + "[@]}\""@) }),
        agent_context: None,
    }
}

pub open spec fn bt202_context() -> Seq<char> {
    "Unquoted variable expansions undergo word splitting and pathname expansion. If the variable contains spaces or glob characters, this will produce unexpected arguments."@
}

pub open spec fn bt202_diag(name: Seq<char>, span: Span, sid: SourceId) -> DiagnosticV {
    DiagnosticV {
        code: bt202_s(),
        severity: Severity::Warning,
        message: "unquoted expansion '$"@ + name + "' may undergo word splitting and globbing"@,
        source_id: sid,
        primary_span: span,
        labels: Seq::empty(),
        help: Some("wrap in double quotes: \"$"@ + name + "\""@),
        fix: Some(FixV { description: "Quote the variable"@, replacement: Some("\"$"@ + name + "\""@) }),
        agent_context: Some(bt202_context()),
    }
}

pub open spec fn bt000_diag(kind: Seq<char>, span: Span, sid: SourceId) -> DiagnosticV {
    DiagnosticV {
        code: bt000_s(),
        severity: Severity::Warning,
        message: "unmodeled syntax: "@ + kind,
        source_id: sid,
        primary_span: span,
        labels: Seq::empty(),
        help: Some("this construct is not yet analyzed by argvtype"@),
        fix: None,
        agent_context: None,
    }
}

/// BT201 for a segment: a bare `$name` of a declared array, also inside
/// double quotes.
pub open spec fn seg_bare_s(seg: SegmentV, sid: SourceId, names: Seq<Seq<char>>) -> Seq<DiagnosticV>
    decreases seg, 0int,
{
    match seg {
        SegmentV::ParamExpand { span, name, operator, .. } => if operator is None && names.contains(name) {
            seq![bt201_diag(name, span, sid)]
        } else {
            Seq::empty()
        },
        SegmentV::DoubleQuoted(inner) => segs_bare_s(inner, 0, sid, names),
        _ => Seq::empty(),
    }
}

pub open spec fn segs_bare_s(ss: Seq<SegmentV>, i: int, sid: SourceId, names: Seq<Seq<char>>) -> Seq<DiagnosticV>
    decreases ss, ss.len() - i,
{
    if i < 0 || i >= ss.len() {
        Seq::empty()
    } else {
        seg_bare_s(ss[i], sid, names) + segs_bare_s(ss, i + 1, sid, names)
    }
}

pub open spec fn words_bare_s(ws: Seq<WordV>, i: int, sid: SourceId, names: Seq<Seq<char>>) -> Seq<DiagnosticV>
    decreases ws.len() - i,
{
    if i < 0 || i >= ws.len() {
        Seq::empty()
    } else {
        segs_bare_s(ws[i].segments, 0, sid, names) + words_bare_s(ws, i + 1, sid, names)
    }
}

/// The special parameters that BT202 leaves alone.
pub open spec fn is_special_var_s(name: Seq<char>) -> bool {
    name == "?"@ || name == "#"@ || name == "$"@ || name == "!"@ || name == "-"@ || name == "0"@
}

/// BT202 for a segment: a plain `$name` outside double quotes.
pub open spec fn seg_unquoted_s(seg: SegmentV, sid: SourceId, quoted: bool) -> Seq<DiagnosticV>
    decreases seg, 0int,
{
    match seg {
        SegmentV::ParamExpand { span, name, operator, .. } => if !quoted && operator is None && !is_special_var_s(name) {
            seq![bt202_diag(name, span, sid)]
        } else {
            Seq::empty()
        },
        SegmentV::DoubleQuoted(inner) => segs_unquoted_s(inner, 0, sid, true),
        _ => Seq::empty(),
    }
}

pub open spec fn segs_unquoted_s(ss: Seq<SegmentV>, i: int, sid: SourceId, quoted: bool) -> Seq<DiagnosticV>
    decreases ss, ss.len() - i,
{
    if i < 0 || i >= ss.len() {
        Seq::empty()
    } else {
        seg_unquoted_s(ss[i], sid, quoted) + segs_unquoted_s(ss, i + 1, sid, quoted)
    }
}

pub open spec fn words_unquoted_s(ws: Seq<WordV>, i: int, sid: SourceId) -> Seq<DiagnosticV>
    decreases ws.len() - i,
{
    if i < 0 || i >= ws.len() {
        Seq::empty()
    } else {
        segs_unquoted_s(ws[i].segments, 0, sid, false) + words_unquoted_s(ws, i + 1, sid)
    }
}

/// A command is a test (`[[`, `[` or `test`) when its name begins with that literal.
pub open spec fn is_test_name_s(name: WordV) -> bool {
    name.segments.len() > 0 && match name.segments[0] {
        SegmentV::Literal(s) => s == "[["@ || s == "["@ || s == "test"@,
        _ => false,
    }
}

/// The command of that name in the table is destructive or worse: the first
/// entry of that name has at least `Destructive` for its destructiveness.
pub open spec fn is_destructive_s(cmd: Seq<char>) -> bool {
    exists|i: int|
        0 <= i < 16 && #[trigger] command_name(i) == cmd && (forall|k: int| 0 <= k < i ==> command_name(k) != cmd)
            && destructiveness_rank(destructiveness_at(i)) >= 2
}

pub open spec fn bt801_context() -> Seq<char> {
    "An empty or unset variable, or one holding spaces or glob characters, makes a destructive command act on paths that were never meant."@
}

pub open spec fn bt801_diag(cmd: Seq<char>, name: Seq<char>, span: Span, sid: SourceId) -> DiagnosticV {
    DiagnosticV {
        code: bt801_s(),
        severity: Severity::Error,
        message: "unquoted expansion '$"@ + name + "' passed to destructive command '"@ + cmd + "'"@,
        source_id: sid,
        primary_span: span,
        labels: Seq::empty(),
        help: Some("quote it as \"$"@ + name + "\", or require it to be set with ${"@ + name + ":?}"@),
        fix: Some(FixV { description: "Quote the variable"@, replacement: Some("\"$"@ + name + "\""@) }),
        agent_context: Some(bt801_context()),
    }
}

pub open spec fn bt802_diag(span: Span, sid: SourceId) -> DiagnosticV {
    DiagnosticV {
        code: bt802_s(),
        severity: Severity::Warning,
        message: "'cd' without a guard: if it fails, the commands after it run in the wrong directory"@,
        source_id: sid,
        primary_span: span,
        labels: Seq::empty(),
        help: Some("add '|| exit' (or '|| return' inside a function) after the cd"@),
        fix: None,
        agent_context: None,
    }
}

/// BT801 for the segments of one argument of the destructive command `cmd`:
/// each plain `$name` outside double quotes.
pub open spec fn segs_destructive_s(ss: Seq<SegmentV>, i: int, cmd: Seq<char>, sid: SourceId) -> Seq<DiagnosticV>
    decreases ss.len() - i,
{
    if i < 0 || i >= ss.len() {
        Seq::empty()
    } else {
        (match ss[i] {
            SegmentV::ParamExpand { span, name, operator, .. } => if operator is None && !is_special_var_s(name) {
                seq![bt801_diag(cmd, name, span, sid)]
            } else {
                Seq::empty()
            },
            _ => Seq::empty(),
        }) + segs_destructive_s(ss, i + 1, cmd, sid)
    }
}

pub open spec fn words_destructive_s(ws: Seq<WordV>, i: int, cmd: Seq<char>, sid: SourceId) -> Seq<DiagnosticV>
    decreases ws.len() - i,
{
    if i < 0 || i >= ws.len() {
        Seq::empty()
    } else {
        segs_destructive_s(ws[i].segments, 0, cmd, sid) + words_destructive_s(ws, i + 1, cmd, sid)
    }
}

/// BT801 for a command: its arguments, where its literal name is a
/// destructive command of the table.
pub open spec fn cmd_destructive_s(name: WordV, args: Seq<WordV>, sid: SourceId) -> Seq<DiagnosticV> {
    match word_literal(name) {
        Some(n) => if is_destructive_s(n) {
            words_destructive_s(args, 0, n, sid)
        } else {
            Seq::empty()
        },
        None => Seq::empty(),
    }
}

/// BT802 for a command: a `cd` that is not followed by `||` in a list.
pub open spec fn cmd_cd_s(name: WordV, span: Span, sid: SourceId, guarded: bool) -> Seq<DiagnosticV> {
    if word_literal(name) == Some("cd"@) && !guarded {
        seq![bt802_diag(span, sid)]
    } else {
        Seq::empty()
    }
}

/// What the checks report for one statement, with `names` the arrays in
/// scope, where the statement is not followed by `||`.
pub open spec fn stmt_check_s(s: StatementV, sid: SourceId, names: Seq<Seq<char>>) -> Seq<DiagnosticV>
    decreases s, 1int,
{
    stmt_check_g(s, sid, names, false)
}

/// What the checks report for one statement, with `names` the arrays in
/// scope; `guarded` where a list follows it with `||`.
pub open spec fn stmt_check_g(s: StatementV, sid: SourceId, names: Seq<Seq<char>>, guarded: bool) -> Seq<DiagnosticV>
    decreases s, 0int,
{
    match s {
        StatementV::Command { name, args, span, .. } => segs_bare_s(name.segments, 0, sid, names) + words_bare_s(
            args,
            0,
            sid,
            names,
        ) + (if is_test_name_s(name) {
            Seq::empty()
        } else {
            words_unquoted_s(args, 0, sid)
        }) + cmd_destructive_s(name, args, sid) + cmd_cd_s(name, span, sid, guarded),
        StatementV::Pipeline { commands, .. } => stmts_check_s(commands, 0, sid, names),
        StatementV::If { condition, then_body, else_body, .. } => stmts_check_s(condition, 0, sid, names)
            + stmts_check_s(then_body, 0, sid, names) + match else_body {
            Some(e) => stmts_check_s(e, 0, sid, names),
            None => Seq::empty(),
        },
        StatementV::For { body, .. } => stmts_check_s(body, 0, sid, names),
        StatementV::While { condition, body, .. } => stmts_check_s(condition, 0, sid, names) + stmts_check_s(
            body,
            0,
            sid,
            names,
        ),
        StatementV::List { elements, .. } => elements_check_s(elements, 0, sid, names),
        StatementV::Block { body, .. } => stmts_check_s(body, 0, sid, names),
        StatementV::Case { arms, .. } => arms_check_s(arms, 0, sid, names),
        StatementV::Unmodeled { kind, span, .. } => seq![bt000_diag(kind, span, sid)],
        _ => Seq::empty(),
    }
}

pub open spec fn stmts_check_s(ss: Seq<StatementV>, i: int, sid: SourceId, names: Seq<Seq<char>>) -> Seq<DiagnosticV>
    decreases ss, ss.len() - i,
{
    if i < 0 || i >= ss.len() {
        Seq::empty()
    } else {
        stmt_check_s(ss[i], sid, names) + stmts_check_s(ss, i + 1, sid, names)
    }
}

pub open spec fn elements_check_s(es: Seq<ListElementV>, i: int, sid: SourceId, names: Seq<Seq<char>>) -> Seq<DiagnosticV>
    decreases es, es.len() - i,
{
    if i < 0 || i >= es.len() {
        Seq::empty()
    } else {
        stmt_check_g(es[i].statement, sid, names, es[i].operator == Some(ListOperator::Or)) + elements_check_s(
            es,
            i + 1,
            sid,
            names,
        )
    }
}

pub open spec fn arms_check_s(arms: Seq<CaseArmV>, i: int, sid: SourceId, names: Seq<Seq<char>>) -> Seq<DiagnosticV>
    decreases arms, arms.len() - i,
{
    if i < 0 || i >= arms.len() {
        Seq::empty()
    } else {
        stmts_check_s(arms[i].body, 0, sid, names) + arms_check_s(arms, i + 1, sid, names)
    }
}

/// What `check` reports for the items from `i` on: a function's body with the
/// arrays it declares, a top-level statement with the top-level arrays.
pub open spec fn items_check_s(items: Seq<ItemV>, i: int, sid: SourceId, top: Seq<Seq<char>>) -> Seq<DiagnosticV>
    decreases items.len() - i,
{
    if i < 0 || i >= items.len() {
        Seq::empty()
    } else {
        (match items[i] {
            ItemV::Function(f) => stmts_check_s(f.body, 0, sid, array_names_s(f.body)),
            ItemV::Statement(s) => stmt_check_s(s, sid, top),
        }) + items_check_s(items, i + 1, sid, top)
    }
}

/// Everything `check` reports for a source unit, in order.
pub open spec fn check_s(items: Seq<ItemV>, sid: SourceId) -> Seq<DiagnosticV> {
    items_check_s(items, 0, sid, top_array_names_s(items))
}

// ---------------------------------------------------------------------------
// The checks
// ---------------------------------------------------------------------------

proof fn lemma_diags_push(s: Seq<Diagnostic>, d: Diagnostic)
    ensures
        diags_v(s.push(d)) == diags_v(s).push(d@),
{
    assert(diags_v(s.push(d)) =~= diags_v(s).push(d@));
}

fn contains_name(names: &Vec<String>, name: &String) -> (b: bool)
    ensures
        b == strings_v(names@).contains(name@),
{
    let mut i: usize = 0;
    while i < names.len()
        invariant
            i <= names@.len(),
            forall|j: int| 0 <= j < i ==> names@[j]@ != name@,
        decreases names.len() - i,
    {
        if str_eq(names[i].as_str(), name.as_str()) {
            assert(strings_v(names@)[i as int] == name@);
            return true;
        }
        i = i + 1;
    }
    proof {
        if strings_v(names@).contains(name@) {
            let k = choose|k: int| 0 <= k < strings_v(names@).len() && strings_v(names@)[k] == name@;
            assert(names@[k]@ == name@);
        }
    }
    false
}

pub(crate) fn has_flag(flags: &Vec<String>, f: &str) -> (b: bool)
    ensures
        b == strings_v(flags@).contains(f@),
{
    let mut i: usize = 0;
    while i < flags.len()
        invariant
            i <= flags@.len(),
            forall|j: int| 0 <= j < i ==> flags@[j]@ != f@,
        decreases flags.len() - i,
    {
        if str_eq(flags[i].as_str(), f) {
            assert(strings_v(flags@)[i as int] == f@);
            return true;
        }
        i = i + 1;
    }
    proof {
        if strings_v(flags@).contains(f@) {
            let k = choose|k: int| 0 <= k < strings_v(flags@).len() && strings_v(flags@)[k] == f@;
            assert(flags@[k]@ == f@);
        }
    }
    false
}

fn is_array_decl(a: &crate::hir::Assignment) -> (b: bool)
    ensures
        b == is_array_decl_s(strings_v(a.flags@), a.array_value is Some),
{
    has_flag(&a.flags, "-a") || has_flag(&a.flags, "-A") || a.array_value.is_some()
}

fn bt201_diagnostic(name: &String, span: Span, sid: SourceId) -> (d: Diagnostic)
    ensures
        d@ == bt201_diag(name@, span, sid),
{
    let mut message = owned("array '");
    push_str(&mut message, name.as_str());
    push_str(&mut message, "' used in scalar expansion — only first element will be used");
    let mut help = owned("use \"${");
    push_str(&mut help, name.as_str());
    push_str(&mut help, "[@]}\" to expand all elements");
    let mut replacement = owned("\"${");
    push_str(&mut replacement, name.as_str());
    push_str(&mut replacement, "[@]}\"");
    let fix = Fix { description: owned("Expand as array"), replacement: Some(replacement) };
    let d = Diagnostic::error(bt201(), message.as_str(), sid, span).with_help(help.as_str()).with_fix(fix);
    assert(d@ == bt201_diag(name@, span, sid));
    d
}

fn bt202_diagnostic(name: &String, span: Span, sid: SourceId) -> (d: Diagnostic)
    ensures
        d@ == bt202_diag(name@, span, sid),
{
    let mut message = owned("unquoted expansion '$");
    push_str(&mut message, name.as_str());
    push_str(&mut message, "' may undergo word splitting and globbing");
    let mut help = owned("wrap in double quotes: \"$");
    push_str(&mut help, name.as_str());
    push_str(&mut help, "\"");
    let mut replacement = owned("\"$");
    push_str(&mut replacement, name.as_str());
    push_str(&mut replacement, "\"");
    let fix = Fix { description: owned("Quote the variable"), replacement: Some(replacement) };
    let d = Diagnostic::warning(bt202(), message.as_str(), sid, span).with_help(help.as_str()).with_fix(
        fix,
    ).with_agent_context(
        "Unquoted variable expansions undergo word splitting and pathname expansion. If the variable contains spaces or glob characters, this will produce unexpected arguments.",
    );
    assert(d@ == bt202_diag(name@, span, sid));
    d
}

fn bt801_diagnostic(cmd: &str, name: &String, span: Span, sid: SourceId) -> (d: Diagnostic)
    ensures
        d@ == bt801_diag(cmd@, name@, span, sid),
{
    let mut message = owned("unquoted expansion '$");
    push_str(&mut message, name.as_str());
    push_str(&mut message, "' passed to destructive command '");
    push_str(&mut message, cmd);
    push_str(&mut message, "'");
    let mut help = owned("quote it as \"$");
    push_str(&mut help, name.as_str());
    push_str(&mut help, "\", or require it to be set with ${");
    push_str(&mut help, name.as_str());
    push_str(&mut help, ":?}");
    let mut replacement = owned("\"$");
    push_str(&mut replacement, name.as_str());
    push_str(&mut replacement, "\"");
    let fix = Fix { description: owned("Quote the variable"), replacement: Some(replacement) };
    let d = Diagnostic::error(bt801(), message.as_str(), sid, span).with_help(help.as_str()).with_fix(
        fix,
    ).with_agent_context(
        "An empty or unset variable, or one holding spaces or glob characters, makes a destructive command act on paths that were never meant.",
    );
    assert(d@ == bt801_diag(cmd@, name@, span, sid));
    d
}

fn bt802_diagnostic(span: Span, sid: SourceId) -> (d: Diagnostic)
    ensures
        d@ == bt802_diag(span, sid),
{
    let d = Diagnostic::warning(
        bt802(),
        "'cd' without a guard: if it fails, the commands after it run in the wrong directory",
        sid,
        span,
    ).with_help("add '|| exit' (or '|| return' inside a function) after the cd");
    assert(d@ == bt802_diag(span, sid));
    d
}

/// Whether the command of that name in the table is destructive or worse.
fn is_destructive(cmd: &str) -> (b: bool)
    ensures
        b == is_destructive_s(cmd@),
{
    match lookup_command(cmd) {
        Some(c) => {
            let ghost i = choose|i: int|
                0 <= i < 16 && #[trigger] sig_matches(c, i) && forall|k: int| 0 <= k < i ==> command_name(k) != cmd@;
            let b = c.destructiveness.at_least(&Destructiveness::Destructive);
            proof {
                assert(command_name(i) == cmd@);
                if is_destructive_s(cmd@) {
                    let j = choose|j: int|
                        0 <= j < 16 && #[trigger] command_name(j) == cmd@ && (forall|k: int|
                            0 <= k < j ==> command_name(k) != cmd@) && destructiveness_rank(destructiveness_at(j)) >= 2;
                    if j < i {
                        assert(command_name(j) != cmd@);
                    } else if j > i {
                        assert(command_name(i) != cmd@);
                    }
                }
                if b {
                    assert(command_name(i) == cmd@);
                }
            }
            b
        },
        None => {
            proof {
                if is_destructive_s(cmd@) {
                    let j = choose|j: int|
                        0 <= j < 16 && #[trigger] command_name(j) == cmd@ && (forall|k: int|
                            0 <= k < j ==> command_name(k) != cmd@) && destructiveness_rank(destructiveness_at(j)) >= 2;
                    assert(crate::stdlib::command_names()[j] == cmd@);
                }
            }
            false
        },
    }
}

fn check_word_for_destructive(word: &Word, cmd: &str, sid: SourceId, diagnostics: &mut Vec<Diagnostic>)
    ensures
        diags_v(final(diagnostics)@) == diags_v(old(diagnostics)@) + segs_destructive_s(
            word_v(*word).segments,
            0,
            cmd@,
            sid,
        ),
{
    let ghost start = diags_v(diagnostics@);
    let ghost ss = segs_v(word.segments@);
    let mut i: usize = 0;
    while i < word.segments.len()
        invariant
            i <= word.segments@.len(),
            ss == segs_v(word.segments@),
            start + segs_destructive_s(ss, 0, cmd@, sid) == diags_v(diagnostics@) + segs_destructive_s(
                ss,
                i as int,
                cmd@,
                sid,
            ),
        decreases word.segments.len() - i,
    {
        let ghost before = diags_v(diagnostics@);
        assert(ss[i as int] == seg_v(word.segments@[i as int]));
        if let WordSegment::ParamExpand(pe) = &word.segments[i] {
            if pe.operator.is_none() && !is_special_var(&pe.name) {
                let d = bt801_diagnostic(cmd, &pe.name, pe.span, sid);
                proof {
                    lemma_diags_push(diagnostics@, d);
                }
                diagnostics.push(d);
            }
        }
        assert(diags_v(diagnostics@) + segs_destructive_s(ss, i + 1, cmd@, sid) =~= before + segs_destructive_s(
            ss,
            i as int,
            cmd@,
            sid,
        ));
        i = i + 1;
    }
    assert(segs_destructive_s(ss, i as int, cmd@, sid) =~= Seq::<DiagnosticV>::empty());
    assert(diags_v(diagnostics@) =~= start + segs_destructive_s(ss, 0, cmd@, sid));
}

fn check_words_for_destructive(words: &Vec<Word>, cmd: &str, sid: SourceId, diagnostics: &mut Vec<Diagnostic>)
    ensures
        diags_v(final(diagnostics)@) == diags_v(old(diagnostics)@) + words_destructive_s(
            words_v(words@),
            0,
            cmd@,
            sid,
        ),
{
    let ghost start = diags_v(diagnostics@);
    let ghost ws = words_v(words@);
    let mut i: usize = 0;
    while i < words.len()
        invariant
            i <= words@.len(),
            ws == words_v(words@),
            start + words_destructive_s(ws, 0, cmd@, sid) == diags_v(diagnostics@) + words_destructive_s(
                ws,
                i as int,
                cmd@,
                sid,
            ),
        decreases words.len() - i,
    {
        let ghost before = diags_v(diagnostics@);
        check_word_for_destructive(&words[i], cmd, sid, diagnostics);
        assert(ws[i as int] == word_v(words@[i as int]));
        assert(diags_v(diagnostics@) + words_destructive_s(ws, i + 1, cmd@, sid) =~= before + words_destructive_s(
            ws,
            i as int,
            cmd@,
            sid,
        ));
        i = i + 1;
    }
    assert(words_destructive_s(ws, i as int, cmd@, sid) =~= Seq::<DiagnosticV>::empty());
    assert(diags_v(diagnostics@) =~= start + words_destructive_s(ws, 0, cmd@, sid));
}

fn bt000_diagnostic(kind: &String, span: Span, sid: SourceId) -> (d: Diagnostic)
    ensures
        d@ == bt000_diag(kind@, span, sid),
{
    let mut message = owned("unmodeled syntax: ");
    push_str(&mut message, kind.as_str());
    let d = Diagnostic::warning(bt000(), message.as_str(), sid, span).with_help(
        "this construct is not yet analyzed by argvtype",
    );
    assert(d@ == bt000_diag(kind@, span, sid));
    d
}

fn check_segment_for_bare_array(
    seg: &WordSegment,
    sid: SourceId,
    names: &Vec<String>,
    diagnostics: &mut Vec<Diagnostic>,
)
    ensures
        diags_v(final(diagnostics)@) == diags_v(old(diagnostics)@) + seg_bare_s(seg_v(*seg), sid, strings_v(names@)),
    decreases *seg,
{
    let ghost start = diags_v(diagnostics@);
    match seg {
        WordSegment::ParamExpand(pe) => {
            if pe.operator.is_none() && contains_name(names, &pe.name) {
                let d = bt201_diagnostic(&pe.name, pe.span, sid);
                proof {
                    lemma_diags_push(diagnostics@, d);
                }
                diagnostics.push(d);
                assert(diags_v(diagnostics@) =~= start + seg_bare_s(seg_v(*seg), sid, strings_v(names@)));
            } else {
                assert(diags_v(diagnostics@) =~= start + seg_bare_s(seg_v(*seg), sid, strings_v(names@)));
            }
        },
        WordSegment::DoubleQuoted(inner) => {
            let ghost ss = segs_v(inner@);
            let mut i: usize = 0;
            while i < inner.len()
                invariant
                    i <= inner@.len(),
                    ss == segs_v(inner@),
                    *seg == WordSegment::DoubleQuoted(*inner),
                    start + segs_bare_s(ss, 0, sid, strings_v(names@)) == diags_v(diagnostics@) + segs_bare_s(
                        ss,
                        i as int,
                        sid,
                        strings_v(names@),
                    ),
                decreases inner.len() - i,
            {
                let ghost before = diags_v(diagnostics@);
                proof {
                    assert(decreases_to!(*seg => seg->DoubleQuoted_0));
                    assert(decreases_to!(*inner => inner@));
                    assert(decreases_to!(inner@ => inner@[i as int]));
                }
                check_segment_for_bare_array(&inner[i], sid, names, diagnostics);
                assert(ss[i as int] == seg_v(inner@[i as int]));
                assert(segs_bare_s(ss, i as int, sid, strings_v(names@)) == seg_bare_s(ss[i as int], sid, strings_v(names@))
                    + segs_bare_s(ss, i + 1, sid, strings_v(names@)));
                assert(diags_v(diagnostics@) + segs_bare_s(ss, i + 1, sid, strings_v(names@)) =~= before
                    + segs_bare_s(ss, i as int, sid, strings_v(names@)));
                i = i + 1;
            }
            assert(segs_bare_s(ss, i as int, sid, strings_v(names@)) =~= Seq::<DiagnosticV>::empty());
            assert(diags_v(diagnostics@) =~= start + seg_bare_s(seg_v(*seg), sid, strings_v(names@)));
        },
        _ => {
            assert(diags_v(diagnostics@) =~= start + seg_bare_s(seg_v(*seg), sid, strings_v(names@)));
        },
    }
}

fn check_word_for_bare_array(word: &Word, sid: SourceId, names: &Vec<String>, diagnostics: &mut Vec<Diagnostic>)
    ensures
        diags_v(final(diagnostics)@) == diags_v(old(diagnostics)@) + segs_bare_s(
            word_v(*word).segments,
            0,
            sid,
            strings_v(names@),
        ),
{
    let ghost start = diags_v(diagnostics@);
    let ghost ss = segs_v(word.segments@);
    let mut i: usize = 0;
    while i < word.segments.len()
        invariant
            i <= word.segments@.len(),
            ss == segs_v(word.segments@),
            start + segs_bare_s(ss, 0, sid, strings_v(names@)) == diags_v(diagnostics@) + segs_bare_s(
                ss,
                i as int,
                sid,
                strings_v(names@),
            ),
        decreases word.segments.len() - i,
    {
        let ghost before = diags_v(diagnostics@);
        check_segment_for_bare_array(&word.segments[i], sid, names, diagnostics);
        assert(ss[i as int] == seg_v(word.segments@[i as int]));
        assert(segs_bare_s(ss, i as int, sid, strings_v(names@)) == seg_bare_s(ss[i as int], sid, strings_v(names@))
            + segs_bare_s(ss, i + 1, sid, strings_v(names@)));
        assert(diags_v(diagnostics@) + segs_bare_s(ss, i + 1, sid, strings_v(names@)) =~= before + segs_bare_s(
            ss,
            i as int,
            sid,
            strings_v(names@),
        ));
        i = i + 1;
    }
    assert(segs_bare_s(ss, i as int, sid, strings_v(names@)) =~= Seq::<DiagnosticV>::empty());
    assert(diags_v(diagnostics@) =~= start + segs_bare_s(ss, 0, sid, strings_v(names@)));
}

fn is_special_var(name: &String) -> (b: bool)
    ensures
        b == is_special_var_s(name@),
{
    let s = name.as_str();
    str_eq(s, "?") || str_eq(s, "#") || str_eq(s, "$") || str_eq(s, "!") || str_eq(s, "-") || str_eq(s, "0")
}

fn check_segment_for_unquoted_expansion(
    seg: &WordSegment,
    sid: SourceId,
    diagnostics: &mut Vec<Diagnostic>,
    quoted: bool,
)
    ensures
        diags_v(final(diagnostics)@) == diags_v(old(diagnostics)@) + seg_unquoted_s(seg_v(*seg), sid, quoted),
    decreases *seg,
{
    let ghost start = diags_v(diagnostics@);
    match seg {
        WordSegment::ParamExpand(pe) => {
            if !quoted && pe.operator.is_none() && !is_special_var(&pe.name) {
                let d = bt202_diagnostic(&pe.name, pe.span, sid);
                proof {
                    lemma_diags_push(diagnostics@, d);
                }
                diagnostics.push(d);
                assert(diags_v(diagnostics@) =~= start + seg_unquoted_s(seg_v(*seg), sid, quoted));
            } else {
                assert(diags_v(diagnostics@) =~= start + seg_unquoted_s(seg_v(*seg), sid, quoted));
            }
        },
        WordSegment::DoubleQuoted(inner) => {
            let ghost ss = segs_v(inner@);
            let mut i: usize = 0;
            while i < inner.len()
                invariant
                    i <= inner@.len(),
                    ss == segs_v(inner@),
                    *seg == WordSegment::DoubleQuoted(*inner),
                    start + segs_unquoted_s(ss, 0, sid, true) == diags_v(diagnostics@) + segs_unquoted_s(
                        ss,
                        i as int,
                        sid,
                        true,
                    ),
                decreases inner.len() - i,
            {
                let ghost before = diags_v(diagnostics@);
                proof {
                    assert(decreases_to!(*seg => seg->DoubleQuoted_0));
                    assert(decreases_to!(*inner => inner@));
                    assert(decreases_to!(inner@ => inner@[i as int]));
                }
                check_segment_for_unquoted_expansion(&inner[i], sid, diagnostics, true);
                assert(ss[i as int] == seg_v(inner@[i as int]));
                assert(segs_unquoted_s(ss, i as int, sid, true) == seg_unquoted_s(ss[i as int], sid, true)
                    + segs_unquoted_s(ss, i + 1, sid, true));
                assert(diags_v(diagnostics@) + segs_unquoted_s(ss, i + 1, sid, true) =~= before + segs_unquoted_s(
                    ss,
                    i as int,
                    sid,
                    true,
                ));
                i = i + 1;
            }
            assert(segs_unquoted_s(ss, i as int, sid, true) =~= Seq::<DiagnosticV>::empty());
            assert(diags_v(diagnostics@) =~= start + seg_unquoted_s(seg_v(*seg), sid, quoted));
        },
        _ => {
            assert(diags_v(diagnostics@) =~= start + seg_unquoted_s(seg_v(*seg), sid, quoted));
        },
    }
}

fn check_word_for_unquoted_expansion(word: &Word, sid: SourceId, diagnostics: &mut Vec<Diagnostic>)
    ensures
        diags_v(final(diagnostics)@) == diags_v(old(diagnostics)@) + segs_unquoted_s(
            word_v(*word).segments,
            0,
            sid,
            false,
        ),
{
    let ghost start = diags_v(diagnostics@);
    let ghost ss = segs_v(word.segments@);
    let mut i: usize = 0;
    while i < word.segments.len()
        invariant
            i <= word.segments@.len(),
            ss == segs_v(word.segments@),
            start + segs_unquoted_s(ss, 0, sid, false) == diags_v(diagnostics@) + segs_unquoted_s(
                ss,
                i as int,
                sid,
                false,
            ),
        decreases word.segments.len() - i,
    {
        let ghost before = diags_v(diagnostics@);
        check_segment_for_unquoted_expansion(&word.segments[i], sid, diagnostics, false);
        assert(ss[i as int] == seg_v(word.segments@[i as int]));
        assert(segs_unquoted_s(ss, i as int, sid, false) == seg_unquoted_s(ss[i as int], sid, false)
            + segs_unquoted_s(ss, i + 1, sid, false));
        assert(diags_v(diagnostics@) + segs_unquoted_s(ss, i + 1, sid, false) =~= before + segs_unquoted_s(
            ss,
            i as int,
            sid,
            false,
        ));
        i = i + 1;
    }
    assert(segs_unquoted_s(ss, i as int, sid, false) =~= Seq::<DiagnosticV>::empty());
    assert(diags_v(diagnostics@) =~= start + segs_unquoted_s(ss, 0, sid, false));
}

fn is_test_command(cmd: &Command) -> (b: bool)
    ensures
        b == is_test_name_s(word_v(cmd.name)),
{
    if cmd.name.segments.len() == 0 {
        return false;
    }
    assert(segs_v(cmd.name.segments@)[0] == seg_v(cmd.name.segments@[0]));
    match &cmd.name.segments[0] {
        WordSegment::Literal(s) => str_eq(s.as_str(), "[[") || str_eq(s.as_str(), "[") || str_eq(s.as_str(), "test"),
        _ => false,
    }
}


fn check_stmts(stmts: &Vec<Statement>, sid: SourceId, names: &Vec<String>, diagnostics: &mut Vec<Diagnostic>)
    ensures
        diags_v(final(diagnostics)@) == diags_v(old(diagnostics)@) + stmts_check_s(
            stmts_v(stmts@),
            0,
            sid,
            strings_v(names@),
        ),
    decreases stmts, 1int,
{
    let ghost start = diags_v(diagnostics@);
    let ghost ss = stmts_v(stmts@);
    let ghost nm = strings_v(names@);
    let mut i: usize = 0;
    while i < stmts.len()
        invariant
            i <= stmts@.len(),
            ss == stmts_v(stmts@),
            nm == strings_v(names@),
            start + stmts_check_s(ss, 0, sid, nm) == diags_v(diagnostics@) + stmts_check_s(ss, i as int, sid, nm),
        decreases stmts.len() - i,
    {
        let ghost before = diags_v(diagnostics@);
        proof {
            assert(decreases_to!(*stmts => stmts@));
            assert(decreases_to!(stmts@ => stmts@[i as int]));
        }
        check_statement_with_arrays(&stmts[i], sid, names, diagnostics, false);
        assert(ss[i as int] == stmt_v(stmts@[i as int]));
        assert(stmts_check_s(ss, i as int, sid, nm) == stmt_check_s(ss[i as int], sid, nm) + stmts_check_s(
            ss,
            i + 1,
            sid,
            nm,
        ));
        assert(diags_v(diagnostics@) + stmts_check_s(ss, i + 1, sid, nm) =~= before + stmts_check_s(
            ss,
            i as int,
            sid,
            nm,
        ));
        i = i + 1;
    }
    assert(stmts_check_s(ss, i as int, sid, nm) =~= Seq::<DiagnosticV>::empty());
    assert(diags_v(diagnostics@) =~= start + stmts_check_s(ss, 0, sid, nm));
}

fn check_words_for_bare_array(
    words: &Vec<Word>,
    sid: SourceId,
    names: &Vec<String>,
    diagnostics: &mut Vec<Diagnostic>,
)
    ensures
        diags_v(final(diagnostics)@) == diags_v(old(diagnostics)@) + words_bare_s(
            words_v(words@),
            0,
            sid,
            strings_v(names@),
        ),
{
    let ghost start = diags_v(diagnostics@);
    let ghost ws = words_v(words@);
    let ghost nm = strings_v(names@);
    let mut i: usize = 0;
    while i < words.len()
        invariant
            i <= words@.len(),
            ws == words_v(words@),
            nm == strings_v(names@),
            start + words_bare_s(ws, 0, sid, nm) == diags_v(diagnostics@) + words_bare_s(ws, i as int, sid, nm),
        decreases words.len() - i,
    {
        let ghost before = diags_v(diagnostics@);
        check_word_for_bare_array(&words[i], sid, names, diagnostics);
        assert(ws[i as int] == word_v(words@[i as int]));
        assert(diags_v(diagnostics@) + words_bare_s(ws, i + 1, sid, nm) =~= before + words_bare_s(
            ws,
            i as int,
            sid,
            nm,
        ));
        i = i + 1;
    }
    assert(words_bare_s(ws, i as int, sid, nm) =~= Seq::<DiagnosticV>::empty());
    assert(diags_v(diagnostics@) =~= start + words_bare_s(ws, 0, sid, nm));
}

fn check_words_for_unquoted_expansion(words: &Vec<Word>, sid: SourceId, diagnostics: &mut Vec<Diagnostic>)
    ensures
        diags_v(final(diagnostics)@) == diags_v(old(diagnostics)@) + words_unquoted_s(words_v(words@), 0, sid),
{
    let ghost start = diags_v(diagnostics@);
    let ghost ws = words_v(words@);
    let mut i: usize = 0;
    while i < words.len()
        invariant
            i <= words@.len(),
            ws == words_v(words@),
            start + words_unquoted_s(ws, 0, sid) == diags_v(diagnostics@) + words_unquoted_s(ws, i as int, sid),
        decreases words.len() - i,
    {
        let ghost before = diags_v(diagnostics@);
        check_word_for_unquoted_expansion(&words[i], sid, diagnostics);
        assert(ws[i as int] == word_v(words@[i as int]));
        assert(diags_v(diagnostics@) + words_unquoted_s(ws, i + 1, sid) =~= before + words_unquoted_s(
            ws,
            i as int,
            sid,
        ));
        i = i + 1;
    }
    assert(words_unquoted_s(ws, i as int, sid) =~= Seq::<DiagnosticV>::empty());
    assert(diags_v(diagnostics@) =~= start + words_unquoted_s(ws, 0, sid));
}

/// Runs the checks on one statement, with `names` the arrays in scope;
/// `guarded` where a list follows it with `||`.
#[verifier::spinoff_prover]
#[verifier::rlimit(40)]
fn check_statement_with_arrays(
    stmt: &Statement,
    sid: SourceId,
    names: &Vec<String>,
    diagnostics: &mut Vec<Diagnostic>,
    guarded: bool,
)
    ensures
        diags_v(final(diagnostics)@) == diags_v(old(diagnostics)@) + stmt_check_g(
            stmt_v(*stmt),
            sid,
            strings_v(names@),
            guarded,
        ),
    decreases stmt, 0int,
{
    let ghost start = diags_v(diagnostics@);
    let ghost nm = strings_v(names@);
    match stmt {
        Statement::Command(cmd) => {
            check_word_for_bare_array(&cmd.name, sid, names, diagnostics);
            check_words_for_bare_array(&cmd.args, sid, names, diagnostics);
            let ghost mid = diags_v(diagnostics@);
            if !is_test_command(cmd) {
                check_words_for_unquoted_expansion(&cmd.args, sid, diagnostics);
            }
            let ghost m2 = diags_v(diagnostics@);
            assert(m2 =~= start + segs_bare_s(word_v(cmd.name).segments, 0, sid, nm) + words_bare_s(
                words_v(cmd.args@), 0, sid, nm) + (if is_test_name_s(word_v(cmd.name)) {
                Seq::<DiagnosticV>::empty()
            } else {
                words_unquoted_s(words_v(cmd.args@), 0, sid)
            }));
            match cmd.name.literal_str() {
                Some(n) => {
                    if is_destructive(n) {
                        check_words_for_destructive(&cmd.args, n, sid, diagnostics);
                    } else {
                        assert(diags_v(diagnostics@) =~= m2 + Seq::<DiagnosticV>::empty());
                    }
                    let ghost m3 = diags_v(diagnostics@);
                    assert(m3 == m2 + cmd_destructive_s(word_v(cmd.name), words_v(cmd.args@), sid));
                    if !guarded && str_eq(n, "cd") {
                        let d = bt802_diagnostic(cmd.span, sid);
                        proof {
                            lemma_diags_push(diagnostics@, d);
                        }
                        diagnostics.push(d);
                        assert(diags_v(diagnostics@) =~= m3 + cmd_cd_s(word_v(cmd.name), cmd.span, sid, guarded));
                    } else {
                        assert(diags_v(diagnostics@) =~= m3 + cmd_cd_s(word_v(cmd.name), cmd.span, sid, guarded));
                    }
                },
                None => {
                    assert(diags_v(diagnostics@) =~= m2 + cmd_destructive_s(word_v(cmd.name), words_v(cmd.args@), sid)
                        + cmd_cd_s(word_v(cmd.name), cmd.span, sid, guarded));
                },
            }
            assert(diags_v(diagnostics@) =~= start + stmt_check_g(stmt_v(*stmt), sid, nm, guarded));
        },
        Statement::Pipeline(p) => {
            proof {
                assert(decreases_to!(*stmt => stmt->Pipeline_0));
            }
            check_stmts(&p.commands, sid, names, diagnostics);
        },
        Statement::If(x) => {
            proof {
                assert(decreases_to!(*stmt => stmt->If_0));
            }
            check_stmts(&x.condition, sid, names, diagnostics);
            check_stmts(&x.then_body, sid, names, diagnostics);
            let ghost mid = diags_v(diagnostics@);
            match &x.else_body {
                Some(e) => {
                    proof {
                        assert(decreases_to!(x.else_body => x.else_body->Some_0));
                    }
                    check_stmts(e, sid, names, diagnostics);
                },
                None => {
                    assert(diags_v(diagnostics@) =~= mid + Seq::<DiagnosticV>::empty());
                },
            }
            assert(diags_v(diagnostics@) =~= start + stmt_check_s(stmt_v(*stmt), sid, nm));
        },
        Statement::For(f) => {
            proof {
                assert(decreases_to!(*stmt => stmt->For_0));
            }
            check_stmts(&f.body, sid, names, diagnostics);
        },
        Statement::While(w) => {
            proof {
                assert(decreases_to!(*stmt => stmt->While_0));
            }
            check_stmts(&w.condition, sid, names, diagnostics);
            check_stmts(&w.body, sid, names, diagnostics);
            assert(diags_v(diagnostics@) =~= start + stmt_check_s(stmt_v(*stmt), sid, nm));
        },
        Statement::List(l) => {
            let ghost es = elements_v(l.elements@);
            let mut i: usize = 0;
            while i < l.elements.len()
                invariant
                    i <= l.elements@.len(),
                    *stmt == Statement::List(*l),
                    es == elements_v(l.elements@),
                    nm == strings_v(names@),
                    start + elements_check_s(es, 0, sid, nm) == diags_v(diagnostics@) + elements_check_s(
                        es,
                        i as int,
                        sid,
                        nm,
                    ),
                decreases l.elements.len() - i,
            {
                let ghost before = diags_v(diagnostics@);
                proof {
                    assert(decreases_to!(*stmt => stmt->List_0));
                    assert(decreases_to!(stmt->List_0 => l.elements));
                    assert(decreases_to!(l.elements => l.elements@));
                    assert(decreases_to!(l.elements@ => l.elements@[i as int]));
                    assert(decreases_to!(l.elements@[i as int] => l.elements@[i as int].statement));
                }
                let g = match l.elements[i].operator {
                    Some(ListOperator::Or) => true,
                    _ => false,
                };
                check_statement_with_arrays(&l.elements[i].statement, sid, names, diagnostics, g);
                assert(es[i as int].statement == stmt_v(l.elements@[i as int].statement));
                assert(diags_v(diagnostics@) + elements_check_s(es, i + 1, sid, nm) =~= before + elements_check_s(
                    es,
                    i as int,
                    sid,
                    nm,
                ));
                i = i + 1;
            }
            assert(elements_check_s(es, i as int, sid, nm) =~= Seq::<DiagnosticV>::empty());
            assert(diags_v(diagnostics@) =~= start + stmt_check_s(stmt_v(*stmt), sid, nm));
        },
        Statement::Block(b) => {
            proof {
                assert(decreases_to!(*stmt => stmt->Block_0));
            }
            check_stmts(&b.body, sid, names, diagnostics);
        },
        Statement::Case(c) => {
            let ghost av = arms_v(c.arms@);
            let mut i: usize = 0;
            while i < c.arms.len()
                invariant
                    i <= c.arms@.len(),
                    *stmt == Statement::Case(*c),
                    av == arms_v(c.arms@),
                    nm == strings_v(names@),
                    start + arms_check_s(av, 0, sid, nm) == diags_v(diagnostics@) + arms_check_s(
                        av,
                        i as int,
                        sid,
                        nm,
                    ),
                decreases c.arms.len() - i,
            {
                let ghost before = diags_v(diagnostics@);
                proof {
                    assert(decreases_to!(*stmt => stmt->Case_0));
                    assert(decreases_to!(stmt->Case_0 => c.arms));
                    assert(decreases_to!(c.arms => c.arms@));
                    assert(decreases_to!(c.arms@ => c.arms@[i as int]));
                    assert(decreases_to!(c.arms@[i as int] => c.arms@[i as int].body));
                }
                check_stmts(&c.arms[i].body, sid, names, diagnostics);
                assert(av[i as int] == arm_v(c.arms@[i as int]));
                assert(diags_v(diagnostics@) + arms_check_s(av, i + 1, sid, nm) =~= before + arms_check_s(
                    av,
                    i as int,
                    sid,
                    nm,
                ));
                i = i + 1;
            }
            assert(arms_check_s(av, i as int, sid, nm) =~= Seq::<DiagnosticV>::empty());
            assert(diags_v(diagnostics@) =~= start + stmt_check_s(stmt_v(*stmt), sid, nm));
        },
        Statement::Unmodeled(u) => {
            let d = bt000_diagnostic(&u.kind, u.span, sid);
            proof {
                lemma_diags_push(diagnostics@, d);
            }
            diagnostics.push(d);
            assert(diags_v(diagnostics@) =~= start + stmt_check_s(stmt_v(*stmt), sid, nm));
        },
        _ => {
            assert(diags_v(diagnostics@) =~= start + stmt_check_s(stmt_v(*stmt), sid, nm));
        },
    }
}


proof fn lemma_strings_push(v: Seq<String>, x: String)
    ensures
        strings_v(v.push(x)) == strings_v(v).push(x@),
{
    assert(strings_v(v.push(x)) =~= strings_v(v).push(x@));
}

/// The names of the arrays that `stmts` declare, in order.
fn collect_array_names(stmts: &Vec<Statement>) -> (names: Vec<String>)
    ensures
        strings_v(names@) == array_names_s(stmts_v(stmts@)),
{
    let ghost ss = stmts_v(stmts@);
    let mut names: Vec<String> = Vec::new();
    let mut i: usize = 0;
    assert(strings_v(names@) =~= Seq::<Seq<char>>::empty());
    assert(ss.take(0) =~= Seq::<StatementV>::empty());
    while i < stmts.len()
        invariant
            i <= stmts@.len(),
            ss == stmts_v(stmts@),
            strings_v(names@) == array_names_s(ss.take(i as int)),
        decreases stmts.len() - i,
    {
        assert(ss.take(i + 1).drop_last() =~= ss.take(i as int));
        assert(ss.take(i + 1).last() == stmt_v(stmts@[i as int]));
        if let Statement::Assignment(a) = &stmts[i] {
            if is_array_decl(a) {
                proof {
                    lemma_strings_push(names@, a.name);
                }
                names.push(copy_string(&a.name));
            }
        }
        i = i + 1;
    }
    assert(ss.take(i as int) =~= ss);
    names
}

/// Checks a function body: the arrays it declares are in scope throughout.
fn check_statements(stmts: &Vec<Statement>, sid: SourceId, diagnostics: &mut Vec<Diagnostic>)
    ensures
        diags_v(final(diagnostics)@) == diags_v(old(diagnostics)@) + stmts_check_s(
            stmts_v(stmts@),
            0,
            sid,
            array_names_s(stmts_v(stmts@)),
        ),
{
    let names = collect_array_names(stmts);
    check_stmts(stmts, sid, &names, diagnostics);
}

/// Runs the checks over a source unit: BT201 for arrays expanded as
/// scalars, BT202 for unquoted expansions outside tests, BT801 for unquoted
/// expansions given to destructive commands, BT802 for a `cd` not followed by
/// `||`, BT000 for unmodeled syntax, in the order of the items.
pub fn check(source_unit: &SourceUnit) -> (r: Vec<Diagnostic>)
    ensures
        diags_v(r@) == check_s(items_v(source_unit.items@), source_unit.source_id),
{
    let sid = source_unit.source_id;
    let items = &source_unit.items;
    let ghost iv = items_v(items@);
    let mut top: Vec<String> = Vec::new();
    let mut i: usize = 0;
    assert(strings_v(top@) =~= Seq::<Seq<char>>::empty());
    assert(iv.take(0) =~= Seq::<ItemV>::empty());
    while i < items.len()
        invariant
            i <= items@.len(),
            iv == items_v(items@),
            strings_v(top@) == top_array_names_s(iv.take(i as int)),
        decreases items.len() - i,
    {
        assert(iv.take(i + 1).drop_last() =~= iv.take(i as int));
        assert(iv.take(i + 1).last() == item_v(items@[i as int]));
        if let Item::Statement(Statement::Assignment(a)) = &items[i] {
            if is_array_decl(a) {
                proof {
                    lemma_strings_push(top@, a.name);
                }
                top.push(copy_string(&a.name));
            }
        }
        i = i + 1;
    }
    assert(iv.take(i as int) =~= iv);
    let ghost tn = strings_v(top@);
    let mut diagnostics: Vec<Diagnostic> = Vec::new();
    let mut k: usize = 0;
    assert(diags_v(diagnostics@) =~= Seq::<DiagnosticV>::empty());
    while k < items.len()
        invariant
            k <= items@.len(),
            iv == items_v(items@),
            tn == strings_v(top@),
            tn == top_array_names_s(iv),
            items_check_s(iv, 0, sid, tn) == diags_v(diagnostics@) + items_check_s(iv, k as int, sid, tn),
        decreases items.len() - k,
    {
        let ghost before = diags_v(diagnostics@);
        assert(iv[k as int] == item_v(items@[k as int]));
        match &items[k] {
            Item::Function(f) => {
                check_statements(&f.body, sid, &mut diagnostics);
            },
            Item::Statement(s) => {
                check_statement_with_arrays(s, sid, &top, &mut diagnostics, false);
            },
        }
        assert(diags_v(diagnostics@) + items_check_s(iv, k + 1, sid, tn) =~= before + items_check_s(
            iv,
            k as int,
            sid,
            tn,
        ));
        k = k + 1;
    }
    assert(items_check_s(iv, k as int, sid, tn) =~= Seq::<DiagnosticV>::empty());
    assert(diags_v(diagnostics@) =~= items_check_s(iv, 0, sid, tn));
    diagnostics
}


// ---------------------------------------------------------------------------
// Laws of the checks
// ---------------------------------------------------------------------------

/// A diagnostic of `check` for file `sid`: BT201 and BT801 as errors, BT202,
/// BT802 and BT000 as warnings, each in that file.
pub open spec fn check_diag_ok(d: DiagnosticV, sid: SourceId) -> bool {
    &&& d.source_id == sid
    &&& (d.code == bt201_s() && d.severity == Severity::Error) || (d.code == bt202_s() && d.severity
        == Severity::Warning) || (d.code == bt000_s() && d.severity == Severity::Warning) || (d.code
        == bt801_s() && d.severity == Severity::Error) || (d.code == bt802_s() && d.severity == Severity::Warning)
}

pub open spec fn all_ok(ds: Seq<DiagnosticV>, sid: SourceId) -> bool {
    forall|k: int| 0 <= k < ds.len() ==> check_diag_ok(#[trigger] ds[k], sid)
}

proof fn lemma_all_ok_concat(a: Seq<DiagnosticV>, b: Seq<DiagnosticV>, sid: SourceId)
    requires
        all_ok(a, sid),
        all_ok(b, sid),
    ensures
        all_ok(a + b, sid),
{
    assert forall|k: int| 0 <= k < (a + b).len() implies check_diag_ok(#[trigger] (a + b)[k], sid) by {
        if k < a.len() {
            assert((a + b)[k] == a[k]);
        } else {
            assert((a + b)[k] == b[k - a.len()]);
        }
    }
}

proof fn lemma_seg_bare_ok(seg: SegmentV, sid: SourceId, names: Seq<Seq<char>>)
    ensures
        all_ok(seg_bare_s(seg, sid, names), sid),
    decreases seg, 0int,
{
    if let SegmentV::DoubleQuoted(inner) = seg {
        lemma_segs_bare_ok(inner, 0, sid, names);
    }
}

proof fn lemma_segs_bare_ok(ss: Seq<SegmentV>, i: int, sid: SourceId, names: Seq<Seq<char>>)
    ensures
        all_ok(segs_bare_s(ss, i, sid, names), sid),
    decreases ss, ss.len() - i,
{
    if 0 <= i < ss.len() {
        lemma_seg_bare_ok(ss[i], sid, names);
        lemma_segs_bare_ok(ss, i + 1, sid, names);
        lemma_all_ok_concat(seg_bare_s(ss[i], sid, names), segs_bare_s(ss, i + 1, sid, names), sid);
    }
}

proof fn lemma_words_bare_ok(ws: Seq<WordV>, i: int, sid: SourceId, names: Seq<Seq<char>>)
    ensures
        all_ok(words_bare_s(ws, i, sid, names), sid),
    decreases ws.len() - i,
{
    if 0 <= i < ws.len() {
        lemma_segs_bare_ok(ws[i].segments, 0, sid, names);
        lemma_words_bare_ok(ws, i + 1, sid, names);
        lemma_all_ok_concat(segs_bare_s(ws[i].segments, 0, sid, names), words_bare_s(ws, i + 1, sid, names), sid);
    }
}

proof fn lemma_seg_unquoted_ok(seg: SegmentV, sid: SourceId, quoted: bool)
    ensures
        all_ok(seg_unquoted_s(seg, sid, quoted), sid),
    decreases seg, 0int,
{
    if let SegmentV::DoubleQuoted(inner) = seg {
        lemma_segs_unquoted_ok(inner, 0, sid, true);
    }
}

proof fn lemma_segs_unquoted_ok(ss: Seq<SegmentV>, i: int, sid: SourceId, quoted: bool)
    ensures
        all_ok(segs_unquoted_s(ss, i, sid, quoted), sid),
    decreases ss, ss.len() - i,
{
    if 0 <= i < ss.len() {
        lemma_seg_unquoted_ok(ss[i], sid, quoted);
        lemma_segs_unquoted_ok(ss, i + 1, sid, quoted);
        lemma_all_ok_concat(seg_unquoted_s(ss[i], sid, quoted), segs_unquoted_s(ss, i + 1, sid, quoted), sid);
    }
}

proof fn lemma_words_unquoted_ok(ws: Seq<WordV>, i: int, sid: SourceId)
    ensures
        all_ok(words_unquoted_s(ws, i, sid), sid),
    decreases ws.len() - i,
{
    if 0 <= i < ws.len() {
        lemma_segs_unquoted_ok(ws[i].segments, 0, sid, false);
        lemma_words_unquoted_ok(ws, i + 1, sid);
        lemma_all_ok_concat(segs_unquoted_s(ws[i].segments, 0, sid, false), words_unquoted_s(ws, i + 1, sid), sid);
    }
}

proof fn lemma_segs_destructive_ok(ss: Seq<SegmentV>, i: int, cmd: Seq<char>, sid: SourceId)
    ensures
        all_ok(segs_destructive_s(ss, i, cmd, sid), sid),
    decreases ss.len() - i,
{
    if 0 <= i < ss.len() {
        lemma_segs_destructive_ok(ss, i + 1, cmd, sid);
        let a = match ss[i] {
            SegmentV::ParamExpand { span, name, operator, .. } => if operator is None && !is_special_var_s(name) {
                seq![bt801_diag(cmd, name, span, sid)]
            } else {
                Seq::empty()
            },
            _ => Seq::empty(),
        };
        assert(all_ok(a, sid));
        lemma_all_ok_concat(a, segs_destructive_s(ss, i + 1, cmd, sid), sid);
    }
}

proof fn lemma_words_destructive_ok(ws: Seq<WordV>, i: int, cmd: Seq<char>, sid: SourceId)
    ensures
        all_ok(words_destructive_s(ws, i, cmd, sid), sid),
    decreases ws.len() - i,
{
    if 0 <= i < ws.len() {
        lemma_segs_destructive_ok(ws[i].segments, 0, cmd, sid);
        lemma_words_destructive_ok(ws, i + 1, cmd, sid);
        lemma_all_ok_concat(segs_destructive_s(ws[i].segments, 0, cmd, sid), words_destructive_s(ws, i + 1, cmd, sid), sid);
    }
}

proof fn lemma_stmt_ok(s: StatementV, sid: SourceId, names: Seq<Seq<char>>)
    ensures
        all_ok(stmt_check_s(s, sid, names), sid),
    decreases s, 1int,
{
    lemma_stmt_g_ok(s, sid, names, false);
}

proof fn lemma_stmt_g_ok(s: StatementV, sid: SourceId, names: Seq<Seq<char>>, guarded: bool)
    ensures
        all_ok(stmt_check_g(s, sid, names, guarded), sid),
    decreases s, 0int,
{
    let empty = Seq::<DiagnosticV>::empty();
    assert(all_ok(empty, sid));
    match s {
        StatementV::Command { name, args, span, .. } => {
            lemma_segs_bare_ok(name.segments, 0, sid, names);
            lemma_words_bare_ok(args, 0, sid, names);
            lemma_words_unquoted_ok(args, 0, sid);
            let a = segs_bare_s(name.segments, 0, sid, names);
            let b = words_bare_s(args, 0, sid, names);
            lemma_all_ok_concat(a, b, sid);
            let c = if is_test_name_s(name) {
                empty
            } else {
                words_unquoted_s(args, 0, sid)
            };
            lemma_all_ok_concat(a + b, c, sid);
            if let Some(n) = word_literal(name) {
                lemma_words_destructive_ok(args, 0, n, sid);
            }
            let d = cmd_destructive_s(name, args, sid);
            assert(all_ok(d, sid));
            lemma_all_ok_concat(a + b + c, d, sid);
            let e = cmd_cd_s(name, span, sid, guarded);
            assert(all_ok(e, sid));
            lemma_all_ok_concat(a + b + c + d, e, sid);
        },
        StatementV::Pipeline { commands, .. } => lemma_stmts_ok(commands, 0, sid, names),
        StatementV::If { condition, then_body, else_body, .. } => {
            lemma_stmts_ok(condition, 0, sid, names);
            lemma_stmts_ok(then_body, 0, sid, names);
            let a = stmts_check_s(condition, 0, sid, names);
            let b = stmts_check_s(then_body, 0, sid, names);
            lemma_all_ok_concat(a, b, sid);
            match else_body {
                Some(e) => {
                    lemma_stmts_ok(e, 0, sid, names);
                    lemma_all_ok_concat(a + b, stmts_check_s(e, 0, sid, names), sid);
                },
                None => {
                    lemma_all_ok_concat(a + b, empty, sid);
                },
            }
        },
        StatementV::For { body, .. } => lemma_stmts_ok(body, 0, sid, names),
        StatementV::While { condition, body, .. } => {
            lemma_stmts_ok(condition, 0, sid, names);
            lemma_stmts_ok(body, 0, sid, names);
            lemma_all_ok_concat(stmts_check_s(condition, 0, sid, names), stmts_check_s(body, 0, sid, names), sid);
        },
        StatementV::List { elements, .. } => lemma_elements_ok(elements, 0, sid, names),
        StatementV::Block { body, .. } => lemma_stmts_ok(body, 0, sid, names),
        StatementV::Case { arms, .. } => lemma_arms_ok(arms, 0, sid, names),
        _ => {},
    }
}

proof fn lemma_stmts_ok(ss: Seq<StatementV>, i: int, sid: SourceId, names: Seq<Seq<char>>)
    ensures
        all_ok(stmts_check_s(ss, i, sid, names), sid),
    decreases ss, ss.len() - i,
{
    if 0 <= i < ss.len() {
        lemma_stmt_ok(ss[i], sid, names);
        lemma_stmts_ok(ss, i + 1, sid, names);
        lemma_all_ok_concat(stmt_check_s(ss[i], sid, names), stmts_check_s(ss, i + 1, sid, names), sid);
    }
}

proof fn lemma_elements_ok(es: Seq<ListElementV>, i: int, sid: SourceId, names: Seq<Seq<char>>)
    ensures
        all_ok(elements_check_s(es, i, sid, names), sid),
    decreases es, es.len() - i,
{
    if 0 <= i < es.len() {
        let g = es[i].operator == Some(ListOperator::Or);
        lemma_stmt_g_ok(es[i].statement, sid, names, g);
        lemma_elements_ok(es, i + 1, sid, names);
        lemma_all_ok_concat(stmt_check_g(es[i].statement, sid, names, g), elements_check_s(es, i + 1, sid, names), sid);
    }
}

proof fn lemma_arms_ok(arms: Seq<CaseArmV>, i: int, sid: SourceId, names: Seq<Seq<char>>)
    ensures
        all_ok(arms_check_s(arms, i, sid, names), sid),
    decreases arms, arms.len() - i,
{
    if 0 <= i < arms.len() {
        lemma_stmts_ok(arms[i].body, 0, sid, names);
        lemma_arms_ok(arms, i + 1, sid, names);
        lemma_all_ok_concat(stmts_check_s(arms[i].body, 0, sid, names), arms_check_s(arms, i + 1, sid, names), sid);
    }
}

proof fn lemma_items_ok(items: Seq<ItemV>, i: int, sid: SourceId, top: Seq<Seq<char>>)
    ensures
        all_ok(items_check_s(items, i, sid, top), sid),
    decreases items.len() - i,
{
    if 0 <= i < items.len() {
        match items[i] {
            ItemV::Function(f) => lemma_stmts_ok(f.body, 0, sid, array_names_s(f.body)),
            ItemV::Statement(s) => lemma_stmt_ok(s, sid, top),
        }
        lemma_items_ok(items, i + 1, sid, top);
        let a = match items[i] {
            ItemV::Function(f) => stmts_check_s(f.body, 0, sid, array_names_s(f.body)),
            ItemV::Statement(s) => stmt_check_s(s, sid, top),
        };
        lemma_all_ok_concat(a, items_check_s(items, i + 1, sid, top), sid);
    }
}

/// Every diagnostic that `check` reports belongs to the unit's file, and is
/// BT201 or BT801 as an error, or BT202, BT802 or BT000 as a warning.
pub proof fn lemma_check_diagnostics_ok(items: Seq<ItemV>, sid: SourceId)
    ensures
        all_ok(check_s(items, sid), sid),
{
    lemma_items_ok(items, 0, sid, top_array_names_s(items));
}

/// The BT000 diagnostics among `ds`, in order.
pub open spec fn bt000_of(ds: Seq<DiagnosticV>) -> Seq<DiagnosticV>
    decreases ds.len(),
{
    if ds.len() == 0 {
        Seq::empty()
    } else {
        bt000_of(ds.drop_last()) + if ds.last().code == bt000_s() {
            seq![ds.last()]
        } else {
            Seq::<DiagnosticV>::empty()
        }
    }
}

/// BT000 for each unmodeled statement that the checks visit in `s`, in order.
pub open spec fn stmt_unmodeled_s(s: StatementV, sid: SourceId) -> Seq<DiagnosticV>
    decreases s, 0int,
{
    match s {
        StatementV::Pipeline { commands, .. } => stmts_unmodeled_s(commands, 0, sid),
        StatementV::If { condition, then_body, else_body, .. } => stmts_unmodeled_s(condition, 0, sid)
            + stmts_unmodeled_s(then_body, 0, sid) + match else_body {
            Some(e) => stmts_unmodeled_s(e, 0, sid),
            None => Seq::empty(),
        },
        StatementV::For { body, .. } => stmts_unmodeled_s(body, 0, sid),
        StatementV::While { condition, body, .. } => stmts_unmodeled_s(condition, 0, sid) + stmts_unmodeled_s(
            body,
            0,
            sid,
        ),
        StatementV::List { elements, .. } => elements_unmodeled_s(elements, 0, sid),
        StatementV::Block { body, .. } => stmts_unmodeled_s(body, 0, sid),
        StatementV::Case { arms, .. } => arms_unmodeled_s(arms, 0, sid),
        StatementV::Unmodeled { kind, span, .. } => seq![bt000_diag(kind, span, sid)],
        _ => Seq::empty(),
    }
}

pub open spec fn stmts_unmodeled_s(ss: Seq<StatementV>, i: int, sid: SourceId) -> Seq<DiagnosticV>
    decreases ss, ss.len() - i,
{
    if i < 0 || i >= ss.len() {
        Seq::empty()
    } else {
        stmt_unmodeled_s(ss[i], sid) + stmts_unmodeled_s(ss, i + 1, sid)
    }
}

pub open spec fn elements_unmodeled_s(es: Seq<ListElementV>, i: int, sid: SourceId) -> Seq<DiagnosticV>
    decreases es, es.len() - i,
{
    if i < 0 || i >= es.len() {
        Seq::empty()
    } else {
        stmt_unmodeled_s(es[i].statement, sid) + elements_unmodeled_s(es, i + 1, sid)
    }
}

pub open spec fn arms_unmodeled_s(arms: Seq<CaseArmV>, i: int, sid: SourceId) -> Seq<DiagnosticV>
    decreases arms, arms.len() - i,
{
    if i < 0 || i >= arms.len() {
        Seq::empty()
    } else {
        stmts_unmodeled_s(arms[i].body, 0, sid) + arms_unmodeled_s(arms, i + 1, sid)
    }
}

pub open spec fn items_unmodeled_s(items: Seq<ItemV>, i: int, sid: SourceId) -> Seq<DiagnosticV>
    decreases items.len() - i,
{
    if i < 0 || i >= items.len() {
        Seq::empty()
    } else {
        (match items[i] {
            ItemV::Function(f) => stmts_unmodeled_s(f.body, 0, sid),
            ItemV::Statement(s) => stmt_unmodeled_s(s, sid),
        }) + items_unmodeled_s(items, i + 1, sid)
    }
}

proof fn lemma_bt000_add(a: Seq<DiagnosticV>, b: Seq<DiagnosticV>)
    ensures
        bt000_of(a + b) == bt000_of(a) + bt000_of(b),
    decreases b.len(),
{
    if b.len() == 0 {
        assert(a + b =~= a);
        assert(bt000_of(a) + bt000_of(b) =~= bt000_of(a));
    } else {
        lemma_bt000_add(a, b.drop_last());
        assert((a + b).drop_last() =~= a + b.drop_last());
        assert((a + b).last() == b.last());
        assert(bt000_of(a + b) =~= bt000_of(a) + bt000_of(b));
    }
}

proof fn lemma_bt000_none(ds: Seq<DiagnosticV>)
    requires
        forall|k: int| 0 <= k < ds.len() ==> (#[trigger] ds[k]).code != bt000_s(),
    ensures
        bt000_of(ds) == Seq::<DiagnosticV>::empty(),
    decreases ds.len(),
{
    if ds.len() > 0 {
        lemma_bt000_none(ds.drop_last());
        assert(bt000_of(ds) =~= Seq::<DiagnosticV>::empty());
    }
}

/// No diagnostic of `ds` is BT000.
pub open spec fn no_bt000(ds: Seq<DiagnosticV>) -> bool {
    forall|k: int| 0 <= k < ds.len() ==> (#[trigger] ds[k]).code != bt000_s()
}

proof fn lemma_no_bt000_add(a: Seq<DiagnosticV>, b: Seq<DiagnosticV>)
    requires
        no_bt000(a),
        no_bt000(b),
    ensures
        no_bt000(a + b),
{
    assert forall|k: int| 0 <= k < (a + b).len() implies (#[trigger] (a + b)[k]).code != bt000_s() by {
        if k < a.len() {
            assert((a + b)[k] == a[k]);
        } else {
            assert((a + b)[k] == b[k - a.len()]);
        }
    }
}

proof fn lemma_segs_bare_no_bt000(ss: Seq<SegmentV>, i: int, sid: SourceId, names: Seq<Seq<char>>)
    ensures
        no_bt000(segs_bare_s(ss, i, sid, names)),
    decreases ss, ss.len() - i,
{
    if 0 <= i < ss.len() {
        lemma_segs_bare_no_bt000(ss, i + 1, sid, names);
        if let SegmentV::DoubleQuoted(inner) = ss[i] {
            lemma_segs_bare_no_bt000(inner, 0, sid, names);
        }
        assert(no_bt000(seg_bare_s(ss[i], sid, names)));
        lemma_no_bt000_add(seg_bare_s(ss[i], sid, names), segs_bare_s(ss, i + 1, sid, names));
    }
}

proof fn lemma_words_bare_no_bt000(ws: Seq<WordV>, i: int, sid: SourceId, names: Seq<Seq<char>>)
    ensures
        no_bt000(words_bare_s(ws, i, sid, names)),
    decreases ws.len() - i,
{
    if 0 <= i < ws.len() {
        lemma_segs_bare_no_bt000(ws[i].segments, 0, sid, names);
        lemma_words_bare_no_bt000(ws, i + 1, sid, names);
        lemma_no_bt000_add(segs_bare_s(ws[i].segments, 0, sid, names), words_bare_s(ws, i + 1, sid, names));
    }
}

proof fn lemma_segs_unquoted_no_bt000(ss: Seq<SegmentV>, i: int, sid: SourceId, quoted: bool)
    ensures
        no_bt000(segs_unquoted_s(ss, i, sid, quoted)),
    decreases ss, ss.len() - i,
{
    if 0 <= i < ss.len() {
        lemma_segs_unquoted_no_bt000(ss, i + 1, sid, quoted);
        if let SegmentV::DoubleQuoted(inner) = ss[i] {
            lemma_segs_unquoted_no_bt000(inner, 0, sid, true);
        }
        assert(no_bt000(seg_unquoted_s(ss[i], sid, quoted)));
        lemma_no_bt000_add(seg_unquoted_s(ss[i], sid, quoted), segs_unquoted_s(ss, i + 1, sid, quoted));
    }
}

proof fn lemma_words_unquoted_no_bt000(ws: Seq<WordV>, i: int, sid: SourceId)
    ensures
        no_bt000(words_unquoted_s(ws, i, sid)),
    decreases ws.len() - i,
{
    if 0 <= i < ws.len() {
        lemma_segs_unquoted_no_bt000(ws[i].segments, 0, sid, false);
        lemma_words_unquoted_no_bt000(ws, i + 1, sid);
        lemma_no_bt000_add(segs_unquoted_s(ws[i].segments, 0, sid, false), words_unquoted_s(ws, i + 1, sid));
    }
}

proof fn lemma_segs_destructive_no_bt000(ss: Seq<SegmentV>, i: int, cmd: Seq<char>, sid: SourceId)
    ensures
        no_bt000(segs_destructive_s(ss, i, cmd, sid)),
    decreases ss.len() - i,
{
    if 0 <= i < ss.len() {
        lemma_segs_destructive_no_bt000(ss, i + 1, cmd, sid);
        let a = match ss[i] {
            SegmentV::ParamExpand { span, name, operator, .. } => if operator is None && !is_special_var_s(name) {
                seq![bt801_diag(cmd, name, span, sid)]
            } else {
                Seq::empty()
            },
            _ => Seq::empty(),
        };
        assert(no_bt000(a));
        lemma_no_bt000_add(a, segs_destructive_s(ss, i + 1, cmd, sid));
    }
}

proof fn lemma_words_destructive_no_bt000(ws: Seq<WordV>, i: int, cmd: Seq<char>, sid: SourceId)
    ensures
        no_bt000(words_destructive_s(ws, i, cmd, sid)),
    decreases ws.len() - i,
{
    if 0 <= i < ws.len() {
        lemma_segs_destructive_no_bt000(ws[i].segments, 0, cmd, sid);
        lemma_words_destructive_no_bt000(ws, i + 1, cmd, sid);
        lemma_no_bt000_add(segs_destructive_s(ws[i].segments, 0, cmd, sid), words_destructive_s(ws, i + 1, cmd, sid));
    }
}

proof fn lemma_stmt_bt000(s: StatementV, sid: SourceId, names: Seq<Seq<char>>, guarded: bool)
    ensures
        bt000_of(stmt_check_g(s, sid, names, guarded)) == stmt_unmodeled_s(s, sid),
    decreases s, 0int,
{
    let empty = Seq::<DiagnosticV>::empty();
    match s {
        StatementV::Command { name, args, span, .. } => {
            lemma_segs_bare_no_bt000(name.segments, 0, sid, names);
            lemma_words_bare_no_bt000(args, 0, sid, names);
            lemma_words_unquoted_no_bt000(args, 0, sid);
            let a = segs_bare_s(name.segments, 0, sid, names);
            let b = words_bare_s(args, 0, sid, names);
            let c = if is_test_name_s(name) {
                empty
            } else {
                words_unquoted_s(args, 0, sid)
            };
            if let Some(n) = word_literal(name) {
                lemma_words_destructive_no_bt000(args, 0, n, sid);
            }
            let d = cmd_destructive_s(name, args, sid);
            let e = cmd_cd_s(name, span, sid, guarded);
            assert(no_bt000(c));
            assert(no_bt000(d));
            assert(no_bt000(e));
            lemma_no_bt000_add(a, b);
            lemma_no_bt000_add(a + b, c);
            lemma_no_bt000_add(a + b + c, d);
            lemma_no_bt000_add(a + b + c + d, e);
            lemma_bt000_none(a + b + c + d + e);
        },
        StatementV::Pipeline { commands, .. } => lemma_stmts_bt000(commands, 0, sid, names),
        StatementV::If { condition, then_body, else_body, .. } => {
            lemma_stmts_bt000(condition, 0, sid, names);
            lemma_stmts_bt000(then_body, 0, sid, names);
            let a = stmts_check_s(condition, 0, sid, names);
            let b = stmts_check_s(then_body, 0, sid, names);
            lemma_bt000_add(a, b);
            match else_body {
                Some(e) => {
                    lemma_stmts_bt000(e, 0, sid, names);
                    lemma_bt000_add(a + b, stmts_check_s(e, 0, sid, names));
                },
                None => {
                    lemma_bt000_add(a + b, empty);
                    assert(bt000_of(empty) =~= empty);
                },
            }
        },
        StatementV::For { body, .. } => lemma_stmts_bt000(body, 0, sid, names),
        StatementV::While { condition, body, .. } => {
            lemma_stmts_bt000(condition, 0, sid, names);
            lemma_stmts_bt000(body, 0, sid, names);
            lemma_bt000_add(stmts_check_s(condition, 0, sid, names), stmts_check_s(body, 0, sid, names));
        },
        StatementV::List { elements, .. } => lemma_elements_bt000(elements, 0, sid, names),
        StatementV::Block { body, .. } => lemma_stmts_bt000(body, 0, sid, names),
        StatementV::Case { arms, .. } => lemma_arms_bt000(arms, 0, sid, names),
        StatementV::Unmodeled { kind, span, .. } => {
            let x = seq![bt000_diag(kind, span, sid)];
            assert(x.drop_last() =~= empty);
            assert(bt000_of(empty) =~= empty);
            assert(x.last().code == bt000_s());
            assert(bt000_of(x) =~= x);
        },
        _ => {
            assert(bt000_of(empty) =~= empty);
        },
    }
}

proof fn lemma_stmts_bt000(ss: Seq<StatementV>, i: int, sid: SourceId, names: Seq<Seq<char>>)
    ensures
        bt000_of(stmts_check_s(ss, i, sid, names)) == stmts_unmodeled_s(ss, i, sid),
    decreases ss, ss.len() - i,
{
    if 0 <= i < ss.len() {
        lemma_stmt_bt000(ss[i], sid, names, false);
        lemma_stmts_bt000(ss, i + 1, sid, names);
        lemma_bt000_add(stmt_check_s(ss[i], sid, names), stmts_check_s(ss, i + 1, sid, names));
    } else {
        assert(bt000_of(Seq::<DiagnosticV>::empty()) =~= Seq::<DiagnosticV>::empty());
    }
}

proof fn lemma_elements_bt000(es: Seq<ListElementV>, i: int, sid: SourceId, names: Seq<Seq<char>>)
    ensures
        bt000_of(elements_check_s(es, i, sid, names)) == elements_unmodeled_s(es, i, sid),
    decreases es, es.len() - i,
{
    if 0 <= i < es.len() {
        let g = es[i].operator == Some(ListOperator::Or);
        lemma_stmt_bt000(es[i].statement, sid, names, g);
        lemma_elements_bt000(es, i + 1, sid, names);
        lemma_bt000_add(stmt_check_g(es[i].statement, sid, names, g), elements_check_s(es, i + 1, sid, names));
    } else {
        assert(bt000_of(Seq::<DiagnosticV>::empty()) =~= Seq::<DiagnosticV>::empty());
    }
}

proof fn lemma_arms_bt000(arms: Seq<CaseArmV>, i: int, sid: SourceId, names: Seq<Seq<char>>)
    ensures
        bt000_of(arms_check_s(arms, i, sid, names)) == arms_unmodeled_s(arms, i, sid),
    decreases arms, arms.len() - i,
{
    if 0 <= i < arms.len() {
        lemma_stmts_bt000(arms[i].body, 0, sid, names);
        lemma_arms_bt000(arms, i + 1, sid, names);
        lemma_bt000_add(stmts_check_s(arms[i].body, 0, sid, names), arms_check_s(arms, i + 1, sid, names));
    } else {
        assert(bt000_of(Seq::<DiagnosticV>::empty()) =~= Seq::<DiagnosticV>::empty());
    }
}

proof fn lemma_items_bt000(items: Seq<ItemV>, i: int, sid: SourceId, top: Seq<Seq<char>>)
    ensures
        bt000_of(items_check_s(items, i, sid, top)) == items_unmodeled_s(items, i, sid),
    decreases items.len() - i,
{
    if 0 <= i < items.len() {
        let a = match items[i] {
            ItemV::Function(f) => stmts_check_s(f.body, 0, sid, array_names_s(f.body)),
            ItemV::Statement(s) => stmt_check_s(s, sid, top),
        };
        match items[i] {
            ItemV::Function(f) => lemma_stmts_bt000(f.body, 0, sid, array_names_s(f.body)),
            ItemV::Statement(s) => lemma_stmt_bt000(s, sid, top, false),
        }
        lemma_items_bt000(items, i + 1, sid, top);
        lemma_bt000_add(a, items_check_s(items, i + 1, sid, top));
    } else {
        assert(bt000_of(Seq::<DiagnosticV>::empty()) =~= Seq::<DiagnosticV>::empty());
    }
}

/// The BT000 diagnostics of `check` are, in order, one for each unmodeled
/// statement that it visits (at the top level, in function bodies and in
/// every nested body), with that statement's kind and span; what the
/// words of commands hold does not change them.
pub proof fn lemma_check_bt000_per_unmodeled(items: Seq<ItemV>, sid: SourceId)
    ensures
        bt000_of(check_s(items, sid)) == items_unmodeled_s(items, 0, sid),
{
    lemma_items_bt000(items, 0, sid, top_array_names_s(items));
}

// ---------------------------------------------------------------------------
// Quoting one expansion
// ---------------------------------------------------------------------------

/// How many diagnostics of `ds` have code `c`.
pub open spec fn count_code(ds: Seq<DiagnosticV>, c: DiagnosticCode) -> nat
    decreases ds.len(),
{
    if ds.len() == 0 {
        0
    } else {
        count_code(ds.drop_last(), c) + if ds.last().code == c { 1nat } else { 0nat }
    }
}

proof fn lemma_count_add(a: Seq<DiagnosticV>, b: Seq<DiagnosticV>, c: DiagnosticCode)
    ensures
        count_code(a + b, c) == count_code(a, c) + count_code(b, c),
    decreases b.len(),
{
    if b.len() == 0 {
        assert(a + b =~= a);
    } else {
        lemma_count_add(a, b.drop_last(), c);
        assert((a + b).drop_last() =~= a + b.drop_last());
    }
}

/// Every diagnostic of `ds` has code `x`.
pub open spec fn all_code(ds: Seq<DiagnosticV>, x: DiagnosticCode) -> bool {
    forall|k: int| 0 <= k < ds.len() ==> (#[trigger] ds[k]).code == x
}

proof fn lemma_count_all(ds: Seq<DiagnosticV>, x: DiagnosticCode, c: DiagnosticCode)
    requires
        all_code(ds, x),
    ensures
        count_code(ds, c) == if c == x { ds.len() } else { 0 },
    decreases ds.len(),
{
    if ds.len() > 0 {
        assert(all_code(ds.drop_last(), x)) by {
            assert forall|k: int| 0 <= k < ds.drop_last().len() implies (#[trigger] ds.drop_last()[k]).code == x by {
                assert(ds.drop_last()[k] == ds[k]);
            }
        }
        lemma_count_all(ds.drop_last(), x, c);
    }
}

proof fn lemma_all_code_add(a: Seq<DiagnosticV>, b: Seq<DiagnosticV>, x: DiagnosticCode)
    requires
        all_code(a, x),
        all_code(b, x),
    ensures
        all_code(a + b, x),
{
    assert forall|k: int| 0 <= k < (a + b).len() implies (#[trigger] (a + b)[k]).code == x by {
        if k < a.len() {
            assert((a + b)[k] == a[k]);
        } else {
            assert((a + b)[k] == b[k - a.len()]);
        }
    }
}

proof fn lemma_segs_bare_all(ss: Seq<SegmentV>, i: int, sid: SourceId, names: Seq<Seq<char>>)
    ensures
        all_code(segs_bare_s(ss, i, sid, names), bt201_s()),
    decreases ss, ss.len() - i,
{
    if 0 <= i < ss.len() {
        lemma_segs_bare_all(ss, i + 1, sid, names);
        if let SegmentV::DoubleQuoted(inner) = ss[i] {
            lemma_segs_bare_all(inner, 0, sid, names);
        }
        assert(all_code(seg_bare_s(ss[i], sid, names), bt201_s()));
        lemma_all_code_add(seg_bare_s(ss[i], sid, names), segs_bare_s(ss, i + 1, sid, names), bt201_s());
    }
}

proof fn lemma_words_bare_all(ws: Seq<WordV>, i: int, sid: SourceId, names: Seq<Seq<char>>)
    ensures
        all_code(words_bare_s(ws, i, sid, names), bt201_s()),
    decreases ws.len() - i,
{
    if 0 <= i < ws.len() {
        lemma_segs_bare_all(ws[i].segments, 0, sid, names);
        lemma_words_bare_all(ws, i + 1, sid, names);
        lemma_all_code_add(segs_bare_s(ws[i].segments, 0, sid, names), words_bare_s(ws, i + 1, sid, names), bt201_s());
    }
}

proof fn lemma_segs_unquoted_all(ss: Seq<SegmentV>, i: int, sid: SourceId, quoted: bool)
    ensures
        all_code(segs_unquoted_s(ss, i, sid, quoted), bt202_s()),
    decreases ss, ss.len() - i,
{
    if 0 <= i < ss.len() {
        lemma_segs_unquoted_all(ss, i + 1, sid, quoted);
        if let SegmentV::DoubleQuoted(inner) = ss[i] {
            lemma_segs_unquoted_all(inner, 0, sid, true);
        }
        assert(all_code(seg_unquoted_s(ss[i], sid, quoted), bt202_s()));
        lemma_all_code_add(seg_unquoted_s(ss[i], sid, quoted), segs_unquoted_s(ss, i + 1, sid, quoted), bt202_s());
    }
}

proof fn lemma_words_unquoted_all(ws: Seq<WordV>, i: int, sid: SourceId)
    ensures
        all_code(words_unquoted_s(ws, i, sid), bt202_s()),
    decreases ws.len() - i,
{
    if 0 <= i < ws.len() {
        lemma_segs_unquoted_all(ws[i].segments, 0, sid, false);
        lemma_words_unquoted_all(ws, i + 1, sid);
        lemma_all_code_add(segs_unquoted_s(ws[i].segments, 0, sid, false), words_unquoted_s(ws, i + 1, sid), bt202_s());
    }
}

proof fn lemma_segs_destructive_all(ss: Seq<SegmentV>, i: int, cmd: Seq<char>, sid: SourceId)
    ensures
        all_code(segs_destructive_s(ss, i, cmd, sid), bt801_s()),
    decreases ss.len() - i,
{
    if 0 <= i < ss.len() {
        lemma_segs_destructive_all(ss, i + 1, cmd, sid);
        let a = match ss[i] {
            SegmentV::ParamExpand { span, name, operator, .. } => if operator is None && !is_special_var_s(name) {
                seq![bt801_diag(cmd, name, span, sid)]
            } else {
                Seq::empty()
            },
            _ => Seq::empty(),
        };
        assert(all_code(a, bt801_s()));
        lemma_all_code_add(a, segs_destructive_s(ss, i + 1, cmd, sid), bt801_s());
    }
}

proof fn lemma_words_destructive_all(ws: Seq<WordV>, i: int, cmd: Seq<char>, sid: SourceId)
    ensures
        all_code(words_destructive_s(ws, i, cmd, sid), bt801_s()),
    decreases ws.len() - i,
{
    if 0 <= i < ws.len() {
        lemma_segs_destructive_all(ws[i].segments, 0, cmd, sid);
        lemma_words_destructive_all(ws, i + 1, cmd, sid);
        lemma_all_code_add(segs_destructive_s(ws[i].segments, 0, cmd, sid), words_destructive_s(ws, i + 1, cmd, sid), bt801_s());
    }
}

/// `ss` with its `j`-th segment wrapped in double quotes.
pub open spec fn quote_seg(ss: Seq<SegmentV>, j: int) -> Seq<SegmentV> {
    ss.update(j, SegmentV::DoubleQuoted(seq![ss[j]]))
}

/// `ws` with segment `j` of its `w`-th word wrapped in double quotes.
pub open spec fn quote_in_words(ws: Seq<WordV>, w: int, j: int) -> Seq<WordV> {
    ws.update(w, WordV { segments: quote_seg(ws[w].segments, j), ..ws[w] })
}

/// A plain `$name` that BT202 reports where it is not quoted.
pub open spec fn plain_expansion(seg: SegmentV) -> bool {
    seg matches SegmentV::ParamExpand { name, operator, .. } && operator is None && !is_special_var_s(name)
}

proof fn lemma_quote_seg_counts(ss: Seq<SegmentV>, i: int, j: int, sid: SourceId, names: Seq<Seq<char>>)
    requires
        0 <= i,
        0 <= j < ss.len(),
        plain_expansion(ss[j]),
    ensures
        segs_bare_s(quote_seg(ss, j), i, sid, names) == segs_bare_s(ss, i, sid, names),
        count_code(segs_unquoted_s(quote_seg(ss, j), i, sid, false), bt202_s()) + (if i <= j { 1int } else { 0int })
            == count_code(segs_unquoted_s(ss, i, sid, false), bt202_s()),
    decreases ss.len() - i,
{
    let q = quote_seg(ss, j);
    let x = SegmentV::DoubleQuoted(seq![ss[j]]);
    if i < ss.len() {
        lemma_quote_seg_counts(ss, i + 1, j, sid, names);
        let u1 = segs_unquoted_s(q, i + 1, sid, false);
        let u0 = segs_unquoted_s(ss, i + 1, sid, false);
        lemma_count_add(seg_unquoted_s(q[i], sid, false), u1, bt202_s());
        lemma_count_add(seg_unquoted_s(ss[i], sid, false), u0, bt202_s());
        if i == j {
            let inner = seq![ss[j]];
            assert(segs_bare_s(inner, 1, sid, names) =~= Seq::<DiagnosticV>::empty());
            assert(seg_bare_s(x, sid, names) =~= seg_bare_s(ss[j], sid, names));
            assert(segs_unquoted_s(inner, 1, sid, true) =~= Seq::<DiagnosticV>::empty());
            assert(seg_unquoted_s(ss[j], sid, true) =~= Seq::<DiagnosticV>::empty());
            assert(seg_unquoted_s(x, sid, false) =~= Seq::<DiagnosticV>::empty());
            let d = seg_unquoted_s(ss[j], sid, false);
            assert(d.len() == 1 && d[0].code == bt202_s());
            assert(d.drop_last() =~= Seq::<DiagnosticV>::empty());
            assert(count_code(d, bt202_s()) == 1);
            assert(count_code(Seq::<DiagnosticV>::empty(), bt202_s()) == 0);
        } else {
            assert(q[i] == ss[i]);
        }
    }
}

proof fn lemma_quote_words_counts(ws: Seq<WordV>, i: int, w: int, j: int, sid: SourceId, names: Seq<Seq<char>>)
    requires
        0 <= i,
        0 <= w < ws.len(),
        0 <= j < ws[w].segments.len(),
        plain_expansion(ws[w].segments[j]),
    ensures
        words_bare_s(quote_in_words(ws, w, j), i, sid, names) == words_bare_s(ws, i, sid, names),
        count_code(words_unquoted_s(quote_in_words(ws, w, j), i, sid), bt202_s()) + (if i <= w { 1int } else { 0int })
            == count_code(words_unquoted_s(ws, i, sid), bt202_s()),
    decreases ws.len() - i,
{
    let q = quote_in_words(ws, w, j);
    if i < ws.len() {
        lemma_quote_words_counts(ws, i + 1, w, j, sid, names);
        lemma_count_add(segs_unquoted_s(q[i].segments, 0, sid, false), words_unquoted_s(q, i + 1, sid), bt202_s());
        lemma_count_add(segs_unquoted_s(ws[i].segments, 0, sid, false), words_unquoted_s(ws, i + 1, sid), bt202_s());
        if i == w {
            lemma_quote_seg_counts(ws[w].segments, 0, j, sid, names);
            assert(q[i].segments == quote_seg(ws[w].segments, j));
        } else {
            assert(q[i] == ws[i]);
        }
    }
}

/// Wrapping one plain `$name` argument of a command (other than a test) in
/// double quotes removes exactly one BT202 from what the checks report on
/// it, and changes neither its BT201 nor its BT000 diagnostics.
pub proof fn lemma_quoting_removes_one_bt202(
    s: StatementV,
    w: int,
    j: int,
    sid: SourceId,
    names: Seq<Seq<char>>,
    guarded: bool,
)
    requires
        s is Command,
        !is_test_name_s(s->Command_name),
        0 <= w < s->Command_args.len(),
        0 <= j < s->Command_args[w].segments.len(),
        plain_expansion(s->Command_args[w].segments[j]),
    ensures
        ({
            let s2 = StatementV::Command {
                id: s->Command_id,
                span: s->Command_span,
                name: s->Command_name,
                args: quote_in_words(s->Command_args, w, j),
                redirects: s->Command_redirects,
            };
            &&& count_code(stmt_check_g(s2, sid, names, guarded), bt202_s()) + 1 == count_code(
                stmt_check_g(s, sid, names, guarded),
                bt202_s(),
            )
            &&& count_code(stmt_check_g(s2, sid, names, guarded), bt201_s()) == count_code(
                stmt_check_g(s, sid, names, guarded),
                bt201_s(),
            )
            &&& count_code(stmt_check_g(s2, sid, names, guarded), bt000_s()) == count_code(
                stmt_check_g(s, sid, names, guarded),
                bt000_s(),
            )
        }),
{
    let name = s->Command_name;
    let args = s->Command_args;
    let span = s->Command_span;
    let args2 = quote_in_words(args, w, j);
    let s2 = StatementV::Command { id: s->Command_id, span, name, args: args2, redirects: s->Command_redirects };
    lemma_quote_words_counts(args, 0, w, j, sid, names);
    let a = segs_bare_s(name.segments, 0, sid, names);
    let b = words_bare_s(args, 0, sid, names);
    let c1 = words_unquoted_s(args, 0, sid);
    let c2 = words_unquoted_s(args2, 0, sid);
    let d1 = cmd_destructive_s(name, args, sid);
    let d2 = cmd_destructive_s(name, args2, sid);
    let e = cmd_cd_s(name, span, sid, guarded);
    lemma_segs_bare_all(name.segments, 0, sid, names);
    lemma_words_bare_all(args, 0, sid, names);
    lemma_all_code_add(a, b, bt201_s());
    lemma_words_unquoted_all(args, 0, sid);
    lemma_words_unquoted_all(args2, 0, sid);
    if let Some(n) = word_literal(name) {
        lemma_words_destructive_all(args, 0, n, sid);
        lemma_words_destructive_all(args2, 0, n, sid);
    }
    assert(all_code(d1, bt801_s()));
    assert(all_code(d2, bt801_s()));
    assert(all_code(e, bt802_s()));
    assert(stmt_check_g(s, sid, names, guarded) == a + b + c1 + d1 + e);
    assert(stmt_check_g(s2, sid, names, guarded) == a + b + c2 + d2 + e);
    let cc0 = bt202_s();
    lemma_count_add(a + b + c1 + d1, e, cc0);
    lemma_count_add(a + b + c1, d1, cc0);
    lemma_count_add(a + b, c1, cc0);
    lemma_count_add(a + b + c2 + d2, e, cc0);
    lemma_count_add(a + b + c2, d2, cc0);
    lemma_count_add(a + b, c2, cc0);
    lemma_count_all(a + b, bt201_s(), cc0);
    lemma_count_all(d1, bt801_s(), cc0);
    lemma_count_all(d2, bt801_s(), cc0);
    lemma_count_all(e, bt802_s(), cc0);
    let cc1 = bt201_s();
    lemma_count_add(a + b + c1 + d1, e, cc1);
    lemma_count_add(a + b + c1, d1, cc1);
    lemma_count_add(a + b, c1, cc1);
    lemma_count_add(a + b + c2 + d2, e, cc1);
    lemma_count_add(a + b + c2, d2, cc1);
    lemma_count_add(a + b, c2, cc1);
    lemma_count_all(c1, bt202_s(), cc1);
    lemma_count_all(c2, bt202_s(), cc1);
    lemma_count_all(d1, bt801_s(), cc1);
    lemma_count_all(d2, bt801_s(), cc1);
    lemma_count_all(e, bt802_s(), cc1);
    let cc2 = bt000_s();
    lemma_count_add(a + b + c1 + d1, e, cc2);
    lemma_count_add(a + b + c1, d1, cc2);
    lemma_count_add(a + b, c1, cc2);
    lemma_count_add(a + b + c2 + d2, e, cc2);
    lemma_count_add(a + b + c2, d2, cc2);
    lemma_count_add(a + b, c2, cc2);
    lemma_count_all(a + b, bt201_s(), cc2);
    lemma_count_all(c1, bt202_s(), cc2);
    lemma_count_all(c2, bt202_s(), cc2);
    lemma_count_all(d1, bt801_s(), cc2);
    lemma_count_all(d2, bt801_s(), cc2);
    lemma_count_all(e, bt802_s(), cc2);
}

/// What the checks report for item `it`, with `top` the top-level arrays.
pub open spec fn item_check_s(it: ItemV, sid: SourceId, top: Seq<Seq<char>>) -> Seq<DiagnosticV> {
    match it {
        ItemV::Function(f) => stmts_check_s(f.body, 0, sid, array_names_s(f.body)),
        ItemV::Statement(s) => stmt_check_s(s, sid, top),
    }
}

/// An item that declares no top-level array.
pub open spec fn no_top_array(it: ItemV) -> bool {
    !(it matches ItemV::Statement(StatementV::Assignment { .. }))
}

proof fn lemma_top_names_update(items: Seq<ItemV>, k: int, x: ItemV)
    requires
        0 <= k < items.len(),
        no_top_array(items[k]),
        no_top_array(x),
    ensures
        top_array_names_s(items.update(k, x)) == top_array_names_s(items),
    decreases items.len(),
{
    let u = items.update(k, x);
    if k < items.len() - 1 {
        assert(u.drop_last() =~= items.drop_last().update(k, x));
        lemma_top_names_update(items.drop_last(), k, x);
        assert(u.last() == items.last());
    } else {
        assert(u.drop_last() =~= items.drop_last());
    }
}

proof fn lemma_items_update_counts(
    items: Seq<ItemV>,
    i: int,
    k: int,
    x: ItemV,
    sid: SourceId,
    top: Seq<Seq<char>>,
    c: DiagnosticCode,
)
    requires
        0 <= i,
        0 <= k < items.len(),
    ensures
        count_code(items_check_s(items.update(k, x), i, sid, top), c) + (if i <= k {
            count_code(item_check_s(items[k], sid, top), c) as int
        } else {
            0int
        }) == count_code(items_check_s(items, i, sid, top), c) + (if i <= k {
            count_code(item_check_s(x, sid, top), c) as int
        } else {
            0int
        }),
    decreases items.len() - i,
{
    let u = items.update(k, x);
    if i < items.len() {
        lemma_items_update_counts(items, i + 1, k, x, sid, top, c);
        lemma_count_add(item_check_s(u[i], sid, top), items_check_s(u, i + 1, sid, top), c);
        lemma_count_add(item_check_s(items[i], sid, top), items_check_s(items, i + 1, sid, top), c);
        assert(items_check_s(u, i, sid, top) == item_check_s(u[i], sid, top) + items_check_s(u, i + 1, sid, top));
        assert(items_check_s(items, i, sid, top) == item_check_s(items[i], sid, top) + items_check_s(
            items,
            i + 1,
            sid,
            top,
        ));
    }
}

/// Over a whole file: wrapping one plain `$name` argument of a top-level
/// command (other than a test) in double quotes removes exactly one BT202
/// from what `check` reports, and changes neither its BT201 nor its BT000
/// diagnostics.
pub proof fn lemma_quoting_in_file(items: Seq<ItemV>, k: int, w: int, j: int, sid: SourceId)
    requires
        0 <= k < items.len(),
        items[k] matches ItemV::Statement(s) && s is Command && !is_test_name_s(s->Command_name) && 0 <= w
            < s->Command_args.len() && 0 <= j < s->Command_args[w].segments.len() && plain_expansion(
            s->Command_args[w].segments[j],
        ),
    ensures
        ({
            let s = items[k]->Statement_0;
            let items2 = items.update(
                k,
                ItemV::Statement(
                    StatementV::Command {
                        id: s->Command_id,
                        span: s->Command_span,
                        name: s->Command_name,
                        args: quote_in_words(s->Command_args, w, j),
                        redirects: s->Command_redirects,
                    },
                ),
            );
            &&& count_code(check_s(items2, sid), bt202_s()) + 1 == count_code(check_s(items, sid), bt202_s())
            &&& count_code(check_s(items2, sid), bt201_s()) == count_code(check_s(items, sid), bt201_s())
            &&& count_code(check_s(items2, sid), bt000_s()) == count_code(check_s(items, sid), bt000_s())
        }),
{
    let s = items[k]->Statement_0;
    let s2 = StatementV::Command {
        id: s->Command_id,
        span: s->Command_span,
        name: s->Command_name,
        args: quote_in_words(s->Command_args, w, j),
        redirects: s->Command_redirects,
    };
    let x = ItemV::Statement(s2);
    let items2 = items.update(k, x);
    lemma_top_names_update(items, k, x);
    let top = top_array_names_s(items);
    lemma_quoting_removes_one_bt202(s, w, j, sid, top, false);
    lemma_items_update_counts(items, 0, k, x, sid, top, bt202_s());
    lemma_items_update_counts(items, 0, k, x, sid, top, bt201_s());
    lemma_items_update_counts(items, 0, k, x, sid, top, bt000_s());
}

// ---------------------------------------------------------------------------
// Which expansions give BT201
// ---------------------------------------------------------------------------

/// The diagnostics of `ds` with code `c`, in order.
pub open spec fn code_filter(ds: Seq<DiagnosticV>, c: DiagnosticCode) -> Seq<DiagnosticV>
    decreases ds.len(),
{
    if ds.len() == 0 {
        Seq::empty()
    } else {
        code_filter(ds.drop_last(), c) + if ds.last().code == c {
            seq![ds.last()]
        } else {
            Seq::<DiagnosticV>::empty()
        }
    }
}

proof fn lemma_code_filter_add(a: Seq<DiagnosticV>, b: Seq<DiagnosticV>, c: DiagnosticCode)
    ensures
        code_filter(a + b, c) == code_filter(a, c) + code_filter(b, c),
    decreases b.len(),
{
    if b.len() == 0 {
        assert(a + b =~= a);
        assert(code_filter(a, c) + code_filter(b, c) =~= code_filter(a, c));
    } else {
        lemma_code_filter_add(a, b.drop_last(), c);
        assert((a + b).drop_last() =~= a + b.drop_last());
        assert(code_filter(a + b, c) =~= code_filter(a, c) + code_filter(b, c));
    }
}

proof fn lemma_code_filter_all(ds: Seq<DiagnosticV>, x: DiagnosticCode, c: DiagnosticCode)
    requires
        all_code(ds, x),
    ensures
        code_filter(ds, c) == if c == x { ds } else { Seq::<DiagnosticV>::empty() },
    decreases ds.len(),
{
    if ds.len() == 0 {
        assert(code_filter(ds, c) =~= Seq::<DiagnosticV>::empty());
        assert(ds =~= Seq::<DiagnosticV>::empty());
    } else {
        assert(all_code(ds.drop_last(), x)) by {
            assert forall|k: int| 0 <= k < ds.drop_last().len() implies (#[trigger] ds.drop_last()[k]).code == x by {
                assert(ds.drop_last()[k] == ds[k]);
            }
        }
        lemma_code_filter_all(ds.drop_last(), x, c);
        assert(ds.drop_last().push(ds.last()) =~= ds);
        assert(code_filter(ds, c) =~= if c == x { ds } else { Seq::<DiagnosticV>::empty() });
    }
}

/// BT201 for each bare `$name` of a declared array in the names and
/// arguments of the commands that the checks visit in `s`, in order.
pub open spec fn stmt_bare_s(s: StatementV, sid: SourceId, names: Seq<Seq<char>>) -> Seq<DiagnosticV>
    decreases s, 0int,
{
    match s {
        StatementV::Command { name, args, .. } => segs_bare_s(name.segments, 0, sid, names) + words_bare_s(
            args,
            0,
            sid,
            names,
        ),
        StatementV::Pipeline { commands, .. } => stmts_bare_s(commands, 0, sid, names),
        StatementV::If { condition, then_body, else_body, .. } => stmts_bare_s(condition, 0, sid, names)
            + stmts_bare_s(then_body, 0, sid, names) + match else_body {
            Some(e) => stmts_bare_s(e, 0, sid, names),
            None => Seq::empty(),
        },
        StatementV::For { body, .. } => stmts_bare_s(body, 0, sid, names),
        StatementV::While { condition, body, .. } => stmts_bare_s(condition, 0, sid, names) + stmts_bare_s(
            body,
            0,
            sid,
            names,
        ),
        StatementV::List { elements, .. } => elements_bare_s(elements, 0, sid, names),
        StatementV::Block { body, .. } => stmts_bare_s(body, 0, sid, names),
        StatementV::Case { arms, .. } => arms_bare_s(arms, 0, sid, names),
        _ => Seq::empty(),
    }
}

pub open spec fn stmts_bare_s(ss: Seq<StatementV>, i: int, sid: SourceId, names: Seq<Seq<char>>) -> Seq<DiagnosticV>
    decreases ss, ss.len() - i,
{
    if i < 0 || i >= ss.len() {
        Seq::empty()
    } else {
        stmt_bare_s(ss[i], sid, names) + stmts_bare_s(ss, i + 1, sid, names)
    }
}

pub open spec fn elements_bare_s(es: Seq<ListElementV>, i: int, sid: SourceId, names: Seq<Seq<char>>) -> Seq<DiagnosticV>
    decreases es, es.len() - i,
{
    if i < 0 || i >= es.len() {
        Seq::empty()
    } else {
        stmt_bare_s(es[i].statement, sid, names) + elements_bare_s(es, i + 1, sid, names)
    }
}

pub open spec fn arms_bare_s(arms: Seq<CaseArmV>, i: int, sid: SourceId, names: Seq<Seq<char>>) -> Seq<DiagnosticV>
    decreases arms, arms.len() - i,
{
    if i < 0 || i >= arms.len() {
        Seq::empty()
    } else {
        stmts_bare_s(arms[i].body, 0, sid, names) + arms_bare_s(arms, i + 1, sid, names)
    }
}

/// The BT201 diagnostics of the items from `i` on: a function's with the
/// arrays its body declares, a top-level statement's with the top-level ones.
pub open spec fn items_bare_s(items: Seq<ItemV>, i: int, sid: SourceId, top: Seq<Seq<char>>) -> Seq<DiagnosticV>
    decreases items.len() - i,
{
    if i < 0 || i >= items.len() {
        Seq::empty()
    } else {
        (match items[i] {
            ItemV::Function(f) => stmts_bare_s(f.body, 0, sid, array_names_s(f.body)),
            ItemV::Statement(s) => stmt_bare_s(s, sid, top),
        }) + items_bare_s(items, i + 1, sid, top)
    }
}

proof fn lemma_stmt_bt201(s: StatementV, sid: SourceId, names: Seq<Seq<char>>, guarded: bool)
    ensures
        code_filter(stmt_check_g(s, sid, names, guarded), bt201_s()) == stmt_bare_s(s, sid, names),
    decreases s, 0int,
{
    let empty = Seq::<DiagnosticV>::empty();
    let c = bt201_s();
    assert(code_filter(empty, c) =~= empty);
    match s {
        StatementV::Command { name, args, span, .. } => {
            let a = segs_bare_s(name.segments, 0, sid, names);
            let b = words_bare_s(args, 0, sid, names);
            let cc = if is_test_name_s(name) {
                empty
            } else {
                words_unquoted_s(args, 0, sid)
            };
            let d = cmd_destructive_s(name, args, sid);
            let e = cmd_cd_s(name, span, sid, guarded);
            lemma_segs_bare_all(name.segments, 0, sid, names);
            lemma_words_bare_all(args, 0, sid, names);
            lemma_all_code_add(a, b, c);
            lemma_words_unquoted_all(args, 0, sid);
            assert(all_code(cc, bt202_s()));
            if let Some(n) = word_literal(name) {
                lemma_words_destructive_all(args, 0, n, sid);
            }
            assert(all_code(d, bt801_s()));
            assert(all_code(e, bt802_s()));
            lemma_code_filter_all(a + b, c, c);
            lemma_code_filter_all(cc, bt202_s(), c);
            lemma_code_filter_all(d, bt801_s(), c);
            lemma_code_filter_all(e, bt802_s(), c);
            lemma_code_filter_add(a + b, cc, c);
            lemma_code_filter_add(a + b + cc, d, c);
            lemma_code_filter_add(a + b + cc + d, e, c);
            assert(code_filter(stmt_check_g(s, sid, names, guarded), c) =~= a + b);
        },
        StatementV::Pipeline { commands, .. } => lemma_stmts_bt201(commands, 0, sid, names),
        StatementV::If { condition, then_body, else_body, .. } => {
            lemma_stmts_bt201(condition, 0, sid, names);
            lemma_stmts_bt201(then_body, 0, sid, names);
            let a = stmts_check_s(condition, 0, sid, names);
            let b = stmts_check_s(then_body, 0, sid, names);
            lemma_code_filter_add(a, b, c);
            match else_body {
                Some(e) => {
                    lemma_stmts_bt201(e, 0, sid, names);
                    lemma_code_filter_add(a + b, stmts_check_s(e, 0, sid, names), c);
                },
                None => {
                    lemma_code_filter_add(a + b, empty, c);
                },
            }
        },
        StatementV::For { body, .. } => lemma_stmts_bt201(body, 0, sid, names),
        StatementV::While { condition, body, .. } => {
            lemma_stmts_bt201(condition, 0, sid, names);
            lemma_stmts_bt201(body, 0, sid, names);
            lemma_code_filter_add(stmts_check_s(condition, 0, sid, names), stmts_check_s(body, 0, sid, names), c);
        },
        StatementV::List { elements, .. } => lemma_elements_bt201(elements, 0, sid, names),
        StatementV::Block { body, .. } => lemma_stmts_bt201(body, 0, sid, names),
        StatementV::Case { arms, .. } => lemma_arms_bt201(arms, 0, sid, names),
        StatementV::Unmodeled { kind, span, .. } => {
            let x = seq![bt000_diag(kind, span, sid)];
            assert(x.drop_last() =~= empty);
            assert(code_filter(x, c) =~= empty);
        },
        _ => {},
    }
}

proof fn lemma_stmts_bt201(ss: Seq<StatementV>, i: int, sid: SourceId, names: Seq<Seq<char>>)
    ensures
        code_filter(stmts_check_s(ss, i, sid, names), bt201_s()) == stmts_bare_s(ss, i, sid, names),
    decreases ss, ss.len() - i,
{
    if 0 <= i < ss.len() {
        lemma_stmt_bt201(ss[i], sid, names, false);
        lemma_stmts_bt201(ss, i + 1, sid, names);
        lemma_code_filter_add(stmt_check_s(ss[i], sid, names), stmts_check_s(ss, i + 1, sid, names), bt201_s());
    } else {
        assert(code_filter(Seq::<DiagnosticV>::empty(), bt201_s()) =~= Seq::<DiagnosticV>::empty());
    }
}

proof fn lemma_elements_bt201(es: Seq<ListElementV>, i: int, sid: SourceId, names: Seq<Seq<char>>)
    ensures
        code_filter(elements_check_s(es, i, sid, names), bt201_s()) == elements_bare_s(es, i, sid, names),
    decreases es, es.len() - i,
{
    if 0 <= i < es.len() {
        let g = es[i].operator == Some(ListOperator::Or);
        lemma_stmt_bt201(es[i].statement, sid, names, g);
        lemma_elements_bt201(es, i + 1, sid, names);
        lemma_code_filter_add(stmt_check_g(es[i].statement, sid, names, g), elements_check_s(es, i + 1, sid, names), bt201_s());
    } else {
        assert(code_filter(Seq::<DiagnosticV>::empty(), bt201_s()) =~= Seq::<DiagnosticV>::empty());
    }
}

proof fn lemma_arms_bt201(arms: Seq<CaseArmV>, i: int, sid: SourceId, names: Seq<Seq<char>>)
    ensures
        code_filter(arms_check_s(arms, i, sid, names), bt201_s()) == arms_bare_s(arms, i, sid, names),
    decreases arms, arms.len() - i,
{
    if 0 <= i < arms.len() {
        lemma_stmts_bt201(arms[i].body, 0, sid, names);
        lemma_arms_bt201(arms, i + 1, sid, names);
        lemma_code_filter_add(stmts_check_s(arms[i].body, 0, sid, names), arms_check_s(arms, i + 1, sid, names), bt201_s());
    } else {
        assert(code_filter(Seq::<DiagnosticV>::empty(), bt201_s()) =~= Seq::<DiagnosticV>::empty());
    }
}

proof fn lemma_items_bt201(items: Seq<ItemV>, i: int, sid: SourceId, top: Seq<Seq<char>>)
    ensures
        code_filter(items_check_s(items, i, sid, top), bt201_s()) == items_bare_s(items, i, sid, top),
    decreases items.len() - i,
{
    if 0 <= i < items.len() {
        match items[i] {
            ItemV::Function(f) => lemma_stmts_bt201(f.body, 0, sid, array_names_s(f.body)),
            ItemV::Statement(s) => lemma_stmt_bt201(s, sid, top, false),
        }
        lemma_items_bt201(items, i + 1, sid, top);
        lemma_code_filter_add(item_check_s(items[i], sid, top), items_check_s(items, i + 1, sid, top), bt201_s());
        assert(items_check_s(items, i, sid, top) == item_check_s(items[i], sid, top) + items_check_s(items, i + 1, sid, top));
    } else {
        assert(code_filter(Seq::<DiagnosticV>::empty(), bt201_s()) =~= Seq::<DiagnosticV>::empty());
    }
}

/// The BT201 diagnostics of `check` are, in order, exactly one for each
/// bare `$name` (no operator, also inside double quotes) in the name or an
/// argument of a command that it visits, where `name` is an array that the
/// top-level code declares (for top-level code) or that the same function
/// body declares (for a function): `bt201_diag` with that name and span.
pub proof fn lemma_check_bt201_per_bare_array(items: Seq<ItemV>, sid: SourceId)
    ensures
        code_filter(check_s(items, sid), bt201_s()) == items_bare_s(items, 0, sid, top_array_names_s(items)),
{
    lemma_items_bt201(items, 0, sid, top_array_names_s(items));
}

/// Inside double quotes no expansion is reported as unquoted.
pub proof fn lemma_quoted_not_flagged(ss: Seq<SegmentV>, i: int, sid: SourceId)
    ensures
        segs_unquoted_s(ss, i, sid, true) == Seq::<DiagnosticV>::empty(),
    decreases ss, ss.len() - i,
{
    if 0 <= i < ss.len() {
        lemma_quoted_not_flagged(ss, i + 1, sid);
        match ss[i] {
            SegmentV::DoubleQuoted(inner) => {
                lemma_quoted_not_flagged(inner, 0, sid);
            },
            _ => {},
        }
        assert(seg_unquoted_s(ss[i], sid, true) =~= Seq::<DiagnosticV>::empty());
        assert(segs_unquoted_s(ss, i, sid, true) =~= Seq::<DiagnosticV>::empty());
    }
}

/// The arguments of a test command (`[[`, `[`, `test`) are never reported
/// as unquoted, and an assignment is never reported at all.
pub proof fn lemma_tests_and_assignments_not_flagged(s: StatementV, sid: SourceId, names: Seq<Seq<char>>)
    ensures
        s matches StatementV::Command { name, args, .. } ==> (is_test_name_s(name) ==> stmt_check_s(s, sid, names)
            == segs_bare_s(name.segments, 0, sid, names) + words_bare_s(args, 0, sid, names)),
        s is Assignment ==> stmt_check_s(s, sid, names) == Seq::<DiagnosticV>::empty(),
{
    if let StatementV::Command { name, args, .. } = s {
        if is_test_name_s(name) {
            reveal_strlit("[[");
            reveal_strlit("[");
            reveal_strlit("test");
            reveal_strlit("cd");
            reveal_strlit("rm");
            reveal_strlit("mv");
            reveal_strlit("docker");
            reveal_strlit("kubectl");
            if let Some(n) = word_literal(name) {
                assert(n == "[["@ || n == "["@ || n == "test"@);
                assert(n[0] == '[' || n[0] == 't');
                assert("cd"@[0] == 'c');
                assert(n != "cd"@);
                if is_destructive_s(n) {
                    let j = choose|j: int|
                        0 <= j < 16 && #[trigger] command_name(j) == n && (forall|k: int|
                            0 <= k < j ==> command_name(k) != n) && destructiveness_rank(destructiveness_at(j)) >= 2;
                    assert(j == 11 || j == 12 || j == 14 || j == 15);
                    assert(command_name(j)[0] == 'r' || command_name(j)[0] == 'm' || command_name(j)[0] == 'd'
                        || command_name(j)[0] == 'k');
                    assert(false);
                }
            }
            assert(stmt_check_s(s, sid, names) =~= segs_bare_s(name.segments, 0, sid, names) + words_bare_s(
                args,
                0,
                sid,
                names,
            ));
        }
    }
}


// ---------------------------------------------------------------------------
// Arrays by value are arrays
// ---------------------------------------------------------------------------

proof fn lemma_top_array_names_has(items: Seq<ItemV>, k: int)
    requires
        0 <= k < items.len(),
        items[k] matches ItemV::Statement(StatementV::Assignment { array_value, .. }) && array_value is Some,
    ensures
        top_array_names_s(items).contains(items[k]->Statement_0->Assignment_name),
    decreases items.len(),
{
    let rest = top_array_names_s(items.drop_last());
    if k < items.len() - 1 {
        assert(items.drop_last()[k] == items[k]);
        lemma_top_array_names_has(items.drop_last(), k);
        let x = items[k]->Statement_0->Assignment_name;
        let j = choose|j: int| 0 <= j < rest.len() && rest[j] == x;
        match items.last() {
            ItemV::Statement(StatementV::Assignment { name, flags, array_value, .. }) => {
                if is_array_decl_s(flags, array_value is Some) {
                    assert(top_array_names_s(items) == rest.push(name));
                    assert(rest.push(name)[j] == x);
                }
            },
            _ => {},
        }
    } else {
        let x = items[k]->Statement_0->Assignment_name;
        assert(top_array_names_s(items) == rest.push(x));
        assert(rest.push(x)[rest.len() as int] == x);
    }
}

proof fn lemma_contains_add(a: Seq<DiagnosticV>, b: Seq<DiagnosticV>, d: DiagnosticV)
    ensures
        a.contains(d) ==> (a + b).contains(d),
        b.contains(d) ==> (a + b).contains(d),
{
    if a.contains(d) {
        let j = choose|j: int| 0 <= j < a.len() && a[j] == d;
        assert((a + b)[j] == d);
    }
    if b.contains(d) {
        let j = choose|j: int| 0 <= j < b.len() && b[j] == d;
        assert((a + b)[a.len() + j] == d);
    }
}

proof fn lemma_segs_bare_has(ss: Seq<SegmentV>, i: int, b: int, sid: SourceId, names: Seq<Seq<char>>)
    requires
        0 <= i <= b < ss.len(),
        ss[b] matches SegmentV::ParamExpand { name, operator, .. } && operator is None && names.contains(name),
    ensures
        segs_bare_s(ss, i, sid, names).contains(bt201_diag(ss[b]->ParamExpand_name, ss[b]->ParamExpand_span, sid)),
    decreases ss.len() - i,
{
    let d = bt201_diag(ss[b]->ParamExpand_name, ss[b]->ParamExpand_span, sid);
    if i == b {
        assert(seg_bare_s(ss[b], sid, names) == seq![d]);
        assert(seq![d][0] == d);
        lemma_contains_add(seg_bare_s(ss[i], sid, names), segs_bare_s(ss, i + 1, sid, names), d);
    } else {
        lemma_segs_bare_has(ss, i + 1, b, sid, names);
        lemma_contains_add(seg_bare_s(ss[i], sid, names), segs_bare_s(ss, i + 1, sid, names), d);
    }
}

proof fn lemma_words_bare_has(ws: Seq<WordV>, i: int, a: int, b: int, sid: SourceId, names: Seq<Seq<char>>)
    requires
        0 <= i <= a < ws.len(),
        0 <= b < ws[a].segments.len(),
        ws[a].segments[b] matches SegmentV::ParamExpand { name, operator, .. } && operator is None && names.contains(name),
    ensures
        words_bare_s(ws, i, sid, names).contains(
            bt201_diag(ws[a].segments[b]->ParamExpand_name, ws[a].segments[b]->ParamExpand_span, sid),
        ),
    decreases ws.len() - i,
{
    let d = bt201_diag(ws[a].segments[b]->ParamExpand_name, ws[a].segments[b]->ParamExpand_span, sid);
    if i == a {
        lemma_segs_bare_has(ws[a].segments, 0, b, sid, names);
    } else {
        lemma_words_bare_has(ws, i + 1, a, b, sid, names);
    }
    lemma_contains_add(segs_bare_s(ws[i].segments, 0, sid, names), words_bare_s(ws, i + 1, sid, names), d);
}

proof fn lemma_items_check_has(items: Seq<ItemV>, i: int, m: int, sid: SourceId, top: Seq<Seq<char>>, d: DiagnosticV)
    requires
        0 <= i <= m < items.len(),
        items[m] is Statement,
        stmt_check_s(items[m]->Statement_0, sid, top).contains(d),
    ensures
        items_check_s(items, i, sid, top).contains(d),
    decreases items.len() - i,
{
    let here = match items[i] {
        ItemV::Function(f) => stmts_check_s(f.body, 0, sid, array_names_s(f.body)),
        ItemV::Statement(s) => stmt_check_s(s, sid, top),
    };
    if i < m {
        lemma_items_check_has(items, i + 1, m, sid, top, d);
    }
    lemma_contains_add(here, items_check_s(items, i + 1, sid, top), d);
}

/// A top-level assignment with an array value (`arr=(1 2 3)`, with or
/// without `-a`) declares an array: every bare `$arr` in an argument of a
/// top-level command gets a BT201 at its span.
pub proof fn lemma_array_value_declares_array(items: Seq<ItemV>, k: int, m: int, a: int, b: int, sid: SourceId)
    requires
        0 <= k < items.len(),
        0 <= m < items.len(),
        items[k] matches ItemV::Statement(StatementV::Assignment { array_value, .. }) && array_value is Some,
        items[m] matches ItemV::Statement(StatementV::Command { args, .. }) && (0 <= a < args.len() && 0 <= b
            < args[a].segments.len() && (args[a].segments[b] matches SegmentV::ParamExpand { name, operator, .. } && (operator
            is None && name == items[k]->Statement_0->Assignment_name))),
    ensures
        check_s(items, sid).contains(
            bt201_diag(
                items[k]->Statement_0->Assignment_name,
                items[m]->Statement_0->Command_args[a].segments[b]->ParamExpand_span,
                sid,
            ),
        ),
{
    let top = top_array_names_s(items);
    lemma_top_array_names_has(items, k);
    let s = items[m]->Statement_0;
    let name = s->Command_name;
    let args = s->Command_args;
    let span = s->Command_span;
    let d = bt201_diag(items[k]->Statement_0->Assignment_name, args[a].segments[b]->ParamExpand_span, sid);
    lemma_words_bare_has(args, 0, a, b, sid, top);
    let p1 = segs_bare_s(name.segments, 0, sid, top);
    let p2 = words_bare_s(args, 0, sid, top);
    let p3 = if is_test_name_s(name) {
        Seq::empty()
    } else {
        words_unquoted_s(args, 0, sid)
    };
    lemma_contains_add(p1, p2, d);
    lemma_contains_add(p1 + p2, p3, d);
    lemma_contains_add(p1 + p2 + p3, cmd_destructive_s(name, args, sid), d);
    lemma_contains_add(p1 + p2 + p3 + cmd_destructive_s(name, args, sid), cmd_cd_s(name, span, sid, false), d);
    assert(stmt_check_s(s, sid, top) == p1 + p2 + p3 + cmd_destructive_s(name, args, sid) + cmd_cd_s(name, span, sid, false));
    lemma_items_check_has(items, 0, m, sid, top, d);
}


proof fn lemma_array_names_has(ss: Seq<StatementV>, k: int)
    requires
        0 <= k < ss.len(),
        ss[k] matches StatementV::Assignment { array_value, .. } && array_value is Some,
    ensures
        array_names_s(ss).contains(ss[k]->Assignment_name),
    decreases ss.len(),
{
    let rest = array_names_s(ss.drop_last());
    let x = ss[k]->Assignment_name;
    if k < ss.len() - 1 {
        assert(ss.drop_last()[k] == ss[k]);
        lemma_array_names_has(ss.drop_last(), k);
        let j = choose|j: int| 0 <= j < rest.len() && rest[j] == x;
        match ss.last() {
            StatementV::Assignment { name, flags, array_value, .. } => {
                if is_array_decl_s(flags, array_value is Some) {
                    assert(array_names_s(ss) == rest.push(name));
                    assert(rest.push(name)[j] == x);
                }
            },
            _ => {},
        }
    } else {
        assert(array_names_s(ss) == rest.push(x));
        assert(rest.push(x)[rest.len() as int] == x);
    }
}

proof fn lemma_stmts_check_has(ss: Seq<StatementV>, i: int, q: int, sid: SourceId, names: Seq<Seq<char>>, d: DiagnosticV)
    requires
        0 <= i <= q < ss.len(),
        stmt_check_s(ss[q], sid, names).contains(d),
    ensures
        stmts_check_s(ss, i, sid, names).contains(d),
    decreases ss.len() - i,
{
    if i < q {
        lemma_stmts_check_has(ss, i + 1, q, sid, names, d);
    }
    lemma_contains_add(stmt_check_s(ss[i], sid, names), stmts_check_s(ss, i + 1, sid, names), d);
}

proof fn lemma_items_check_fn_has(items: Seq<ItemV>, i: int, m: int, sid: SourceId, top: Seq<Seq<char>>, d: DiagnosticV)
    requires
        0 <= i <= m < items.len(),
        items[m] is Function,
        stmts_check_s(items[m]->Function_0.body, 0, sid, array_names_s(items[m]->Function_0.body)).contains(d),
    ensures
        items_check_s(items, i, sid, top).contains(d),
    decreases items.len() - i,
{
    let here = match items[i] {
        ItemV::Function(f) => stmts_check_s(f.body, 0, sid, array_names_s(f.body)),
        ItemV::Statement(s) => stmt_check_s(s, sid, top),
    };
    if i < m {
        lemma_items_check_fn_has(items, i + 1, m, sid, top, d);
    }
    lemma_contains_add(here, items_check_s(items, i + 1, sid, top), d);
}

proof fn lemma_command_bt201(s: StatementV, a: int, b: int, sid: SourceId, names: Seq<Seq<char>>)
    requires
        s matches StatementV::Command { args, .. } && (0 <= a < args.len() && 0 <= b < args[a].segments.len() && (
        args[a].segments[b] matches SegmentV::ParamExpand { name, operator, .. } && (operator is None && names.contains(
            name,
        )))),
    ensures
        stmt_check_s(s, sid, names).contains(
            bt201_diag(
                s->Command_args[a].segments[b]->ParamExpand_name,
                s->Command_args[a].segments[b]->ParamExpand_span,
                sid,
            ),
        ),
{
    let name = s->Command_name;
    let args = s->Command_args;
    let span = s->Command_span;
    let d = bt201_diag(args[a].segments[b]->ParamExpand_name, args[a].segments[b]->ParamExpand_span, sid);
    lemma_words_bare_has(args, 0, a, b, sid, names);
    let p1 = segs_bare_s(name.segments, 0, sid, names);
    let p2 = words_bare_s(args, 0, sid, names);
    let p3 = if is_test_name_s(name) {
        Seq::empty()
    } else {
        words_unquoted_s(args, 0, sid)
    };
    lemma_contains_add(p1, p2, d);
    lemma_contains_add(p1 + p2, p3, d);
    lemma_contains_add(p1 + p2 + p3, cmd_destructive_s(name, args, sid), d);
    lemma_contains_add(p1 + p2 + p3 + cmd_destructive_s(name, args, sid), cmd_cd_s(name, span, sid, false), d);
    assert(stmt_check_s(s, sid, names) == p1 + p2 + p3 + cmd_destructive_s(name, args, sid) + cmd_cd_s(
        name,
        span,
        sid,
        false,
    ));
}

/// In a function body, an assignment with an array value (`arr=(1 2 3)`,
/// with or without `-a`) declares an array: every bare `$arr` in an
/// argument of a command of that body gets a BT201 at its span.
pub proof fn lemma_array_value_declares_array_in_function(
    items: Seq<ItemV>,
    m: int,
    k: int,
    q: int,
    a: int,
    b: int,
    sid: SourceId,
)
    requires
        0 <= m < items.len(),
        items[m] is Function,
        0 <= k < items[m]->Function_0.body.len(),
        0 <= q < items[m]->Function_0.body.len(),
        items[m]->Function_0.body[k] matches StatementV::Assignment { array_value, .. } && array_value is Some,
        items[m]->Function_0.body[q] matches StatementV::Command { args, .. } && (0 <= a < args.len() && 0 <= b
            < args[a].segments.len() && (args[a].segments[b] matches SegmentV::ParamExpand { name, operator, .. } && (
        operator is None && name == items[m]->Function_0.body[k]->Assignment_name))),
    ensures
        check_s(items, sid).contains(
            bt201_diag(
                items[m]->Function_0.body[k]->Assignment_name,
                items[m]->Function_0.body[q]->Command_args[a].segments[b]->ParamExpand_span,
                sid,
            ),
        ),
{
    let body = items[m]->Function_0.body;
    let names = array_names_s(body);
    lemma_array_names_has(body, k);
    lemma_command_bt201(body[q], a, b, sid, names);
    let d = bt201_diag(
        body[k]->Assignment_name,
        body[q]->Command_args[a].segments[b]->ParamExpand_span,
        sid,
    );
    lemma_stmts_check_has(body, 0, q, sid, names, d);
    lemma_items_check_fn_has(items, 0, m, sid, top_array_names_s(items), d);
}

} // verus!
