//! The graph of `source`/`.` dependencies between scripts: its edges, the
//! order in which files are analyzed, and the diagnostics of its shape
//! (BT701 for a missing target, BT702 for a cycle).
//!
//! Reading files and resolving paths on disk is left to the caller, which
//! feeds the builder the files it reads.
use vstd::prelude::*;
use crate::diagnostic::{Diagnostic, DiagnosticCode, DiagnosticV, bare_diagnostic};
use crate::hir::{
    Item, ItemV, SourceUnit, Statement, StatementV, WordV, CaseArmV, ListElementV, arm_v, arms_v, elements_v,
    item_v, items_v, stmt_v, stmts_v, word_literal,
};
use crate::lower::{LowerResult, parse_and_lower};
use crate::scope::{Symbol, SymbolTable, build_symbol_table, items_scopes, symbol_v};
use crate::span::{SourceFile, SourceId, Span};
use crate::text::{chars_of, copy_string, owned, push_str, str_eq, string_of};

verus! {

/// A `source` dependency: the file it names, where, and whether the name is
/// computed at run time (then the target is empty).
#[derive(Debug, Clone)]
pub struct SourceEdge {
    pub target: String,
    pub span: Span,
    pub dynamic: bool,
}

pub struct EdgeV {
    pub target: Seq<char>,
    pub span: Span,
    pub dynamic: bool,
}

pub open spec fn edge_v(e: SourceEdge) -> EdgeV {
    EdgeV { target: e.target@, span: e.span, dynamic: e.dynamic }
}

pub open spec fn edges_v(e: Seq<SourceEdge>) -> Seq<EdgeV> {
    Seq::new(e.len(), |i: int| edge_v(e[i]))
}

pub open spec fn targets_v(t: Seq<(String, Span)>) -> Seq<(Seq<char>, Span)> {
    Seq::new(t.len(), |i: int| (t[i].0@, t[i].1))
}

/// The targets and spans of the static edges among `es`, in order.
pub open spec fn static_targets_s(es: Seq<EdgeV>) -> Seq<(Seq<char>, Span)>
    decreases es.len(),
{
    if es.len() == 0 {
        Seq::empty()
    } else {
        static_targets_s(es.drop_last()) + if !es.last().dynamic {
            seq![(es.last().target, es.last().span)]
        } else {
            Seq::<(Seq<char>, Span)>::empty()
        }
    }
}

// ---------------------------------------------------------------------------
// Paths
// ---------------------------------------------------------------------------

/// The directory part of a path: what comes before its last `/` (`/` itself
/// when that is the first character), empty when there is none.
pub open spec fn parent_dir_s(path: Seq<char>) -> Seq<char> {
    match crate::text::rfind_pred(path, crate::text::char_is('/')) {
        Some(k) => if k == 0 {
            seq!['/']
        } else {
            path.take(k)
        },
        None => Seq::empty(),
    }
}

/// `p` taken relative to `dir`: as it is when absolute or when `dir` is empty.
pub open spec fn join_s(dir: Seq<char>, p: Seq<char>) -> Seq<char> {
    if p.len() > 0 && p[0] == '/' {
        p
    } else if dir.len() == 0 {
        p
    } else if dir.last() == '/' {
        dir + p
    } else {
        dir + seq!['/'] + p
    }
}

/// The file name of a path: what comes after its last `/`, or the whole path.
pub open spec fn file_name_s(path: Seq<char>) -> Seq<char> {
    match crate::text::rfind_pred(path, crate::text::char_is('/')) {
        Some(k) => path.skip(k + 1),
        None => path,
    }
}

fn last_slash(v: &Vec<char>) -> (r: Option<usize>)
    ensures
        match r {
            Some(k) => k < v@.len() && crate::text::rfind_pred(v@, crate::text::char_is('/')) == Some(k as int),
            None => crate::text::rfind_pred(v@, crate::text::char_is('/')) is None,
        },
{
    let ghost p = crate::text::char_is('/');
    let mut k: usize = v.len();
    while k > 0
        invariant
            k <= v@.len(),
            p == crate::text::char_is('/'),
            forall|j: int| k <= j < v@.len() ==> !p(#[trigger] v@[j]),
        decreases k,
    {
        if v[k - 1] == '/' {
            proof {
                crate::text::lemma_rfind_pred_unique(v@, p, k as int);
            }
            return Some(k - 1);
        }
        k = k - 1;
    }
    proof {
        crate::text::lemma_rfind_pred_unique(v@, p, 0);
    }
    None
}

/// The directory of a path, as `parent_dir_s` states.
pub fn parent_dir(path: &str) -> (d: String)
    ensures
        d@ == parent_dir_s(path@),
{
    let v = chars_of(path);
    match last_slash(&v) {
        Some(k) => if k == 0 {
            proof {
                reveal_strlit("/");
            }
            let d = owned("/");
            assert(d@ =~= seq!['/']);
            d
        } else {
            let d = string_of(&v, 0, k);
            assert(v@.subrange(0, k as int) =~= v@.take(k as int));
            d
        },
        None => String::new(),
    }
}

/// `p` relative to `dir`, as `join_s` states.
pub fn join_path(dir: &str, p: &str) -> (r: String)
    ensures
        r@ == join_s(dir@, p@),
{
    let pv = chars_of(p);
    let dv = chars_of(dir);
    if pv.len() > 0 && pv[0] == '/' {
        owned(p)
    } else if dv.len() == 0 {
        owned(p)
    } else if dv[dv.len() - 1] == '/' {
        let mut r = owned(dir);
        push_str(&mut r, p);
        r
    } else {
        let mut r = owned(dir);
        r.push('/');
        push_str(&mut r, p);
        r
    }
}

/// The file name of a path, as `file_name_s` states.
pub fn file_name(path: &str) -> (r: String)
    ensures
        r@ == file_name_s(path@),
{
    let v = chars_of(path);
    let n = v.len();
    match last_slash(&v) {
        Some(k) => {
            let r = string_of(&v, k + 1, n);
            assert(v@.subrange(k + 1, v@.len() as int) =~= v@.skip(k + 1));
            r
        },
        None => owned(path),
    }
}

// ---------------------------------------------------------------------------
// The edges of one file
// ---------------------------------------------------------------------------

/// The target of a `source` of the word `path` in a file of directory `dir`:
/// empty when dynamic or not a literal, else the literal joined to `dir`.
pub open spec fn edge_target_s(path: WordV, dynamic: bool, dir: Seq<char>) -> Seq<char> {
    if dynamic {
        Seq::empty()
    } else {
        match word_literal(path) {
            Some(lit) => join_s(dir, lit),
            None => Seq::empty(),
        }
    }
}

/// The `source` commands of a statement, in document order.
pub open spec fn stmt_edges_s(s: StatementV, dir: Seq<char>) -> Seq<EdgeV>
    decreases s, 0int,
{
    match s {
        StatementV::SourceCommand { span, path, dynamic, .. } => seq![
            EdgeV { target: edge_target_s(path, dynamic, dir), span, dynamic },
        ],
        StatementV::If { condition, then_body, else_body, .. } => stmts_edges_s(condition, 0, dir) + stmts_edges_s(
            then_body,
            0,
            dir,
        ) + match else_body {
            Some(e) => stmts_edges_s(e, 0, dir),
            None => Seq::empty(),
        },
        StatementV::For { body, .. } => stmts_edges_s(body, 0, dir),
        StatementV::While { condition, body, .. } => stmts_edges_s(condition, 0, dir) + stmts_edges_s(body, 0, dir),
        StatementV::Case { arms, .. } => arms_edges_s(arms, 0, dir),
        StatementV::List { elements, .. } => elements_edges_s(elements, 0, dir),
        StatementV::Pipeline { commands, .. } => stmts_edges_s(commands, 0, dir),
        StatementV::Block { body, .. } => stmts_edges_s(body, 0, dir),
        _ => Seq::empty(),
    }
}

pub open spec fn stmts_edges_s(ss: Seq<StatementV>, i: int, dir: Seq<char>) -> Seq<EdgeV>
    decreases ss, ss.len() - i,
{
    if i < 0 || i >= ss.len() {
        Seq::empty()
    } else {
        stmt_edges_s(ss[i], dir) + stmts_edges_s(ss, i + 1, dir)
    }
}

pub open spec fn arms_edges_s(arms: Seq<CaseArmV>, i: int, dir: Seq<char>) -> Seq<EdgeV>
    decreases arms, arms.len() - i,
{
    if i < 0 || i >= arms.len() {
        Seq::empty()
    } else {
        stmts_edges_s(arms[i].body, 0, dir) + arms_edges_s(arms, i + 1, dir)
    }
}

pub open spec fn elements_edges_s(es: Seq<ListElementV>, i: int, dir: Seq<char>) -> Seq<EdgeV>
    decreases es, es.len() - i,
{
    if i < 0 || i >= es.len() {
        Seq::empty()
    } else {
        stmt_edges_s(es[i].statement, dir) + elements_edges_s(es, i + 1, dir)
    }
}

pub open spec fn items_edges_s(items: Seq<ItemV>, i: int, dir: Seq<char>) -> Seq<EdgeV>
    decreases items.len() - i,
{
    if i < 0 || i >= items.len() {
        Seq::empty()
    } else {
        (match items[i] {
            ItemV::Function(f) => stmts_edges_s(f.body, 0, dir),
            ItemV::Statement(s) => stmt_edges_s(s, dir),
        }) + items_edges_s(items, i + 1, dir)
    }
}

proof fn lemma_edges_push(s: Seq<SourceEdge>, e: SourceEdge)
    ensures
        edges_v(s.push(e)) == edges_v(s).push(edge_v(e)),
{
    assert(edges_v(s.push(e)) =~= edges_v(s).push(edge_v(e)));
}

fn walk_stmts_for_sources(stmts: &Vec<Statement>, dir: &str, edges: &mut Vec<SourceEdge>)
    ensures
        edges_v(final(edges)@) == edges_v(old(edges)@) + stmts_edges_s(stmts_v(stmts@), 0, dir@),
    decreases stmts, 1int,
{
    let ghost start = edges_v(edges@);
    let ghost ss = stmts_v(stmts@);
    let mut i: usize = 0;
    while i < stmts.len()
        invariant
            i <= stmts@.len(),
            ss == stmts_v(stmts@),
            start + stmts_edges_s(ss, 0, dir@) == edges_v(edges@) + stmts_edges_s(ss, i as int, dir@),
        decreases stmts.len() - i,
    {
        let ghost before = edges_v(edges@);
        proof {
            assert(decreases_to!(*stmts => stmts@));
            assert(decreases_to!(stmts@ => stmts@[i as int]));
        }
        walk_stmt_for_sources(&stmts[i], dir, edges);
        assert(ss[i as int] == stmt_v(stmts@[i as int]));
        assert(edges_v(edges@) + stmts_edges_s(ss, i + 1, dir@) =~= before + stmts_edges_s(ss, i as int, dir@));
        i = i + 1;
    }
    assert(stmts_edges_s(ss, i as int, dir@) =~= Seq::<EdgeV>::empty());
    assert(edges_v(edges@) =~= start + stmts_edges_s(ss, 0, dir@));
}

/// Collects the `source` edges of a statement, as `stmt_edges_s` states.
fn walk_stmt_for_sources(stmt: &Statement, dir: &str, edges: &mut Vec<SourceEdge>)
    ensures
        edges_v(final(edges)@) == edges_v(old(edges)@) + stmt_edges_s(stmt_v(*stmt), dir@),
    decreases stmt, 0int,
{
    let ghost start = edges_v(edges@);
    match stmt {
        Statement::SourceCommand(src) => {
            let target = if src.dynamic {
                String::new()
            } else {
                match src.path.literal_str() {
                    Some(lit) => join_path(dir, lit),
                    None => String::new(),
                }
            };
            let e = SourceEdge { target, span: src.span, dynamic: src.dynamic };
            proof {
                lemma_edges_push(edges@, e);
            }
            edges.push(e);
            assert(edges_v(edges@) =~= start + stmt_edges_s(stmt_v(*stmt), dir@));
        },
        Statement::If(x) => {
            proof {
                assert(decreases_to!(*stmt => stmt->If_0));
            }
            walk_stmts_for_sources(&x.condition, dir, edges);
            walk_stmts_for_sources(&x.then_body, dir, edges);
            let ghost mid = edges_v(edges@);
            match &x.else_body {
                Some(e) => {
                    proof {
                        assert(decreases_to!(x.else_body => x.else_body->Some_0));
                    }
                    walk_stmts_for_sources(e, dir, edges);
                },
                None => {
                    assert(edges_v(edges@) =~= mid + Seq::<EdgeV>::empty());
                },
            }
            assert(edges_v(edges@) =~= start + stmt_edges_s(stmt_v(*stmt), dir@));
        },
        Statement::For(x) => {
            proof {
                assert(decreases_to!(*stmt => stmt->For_0));
            }
            walk_stmts_for_sources(&x.body, dir, edges);
        },
        Statement::While(x) => {
            proof {
                assert(decreases_to!(*stmt => stmt->While_0));
            }
            walk_stmts_for_sources(&x.condition, dir, edges);
            walk_stmts_for_sources(&x.body, dir, edges);
            assert(edges_v(edges@) =~= start + stmt_edges_s(stmt_v(*stmt), dir@));
        },
        Statement::Case(c) => {
            let ghost av = arms_v(c.arms@);
            let mut i: usize = 0;
            while i < c.arms.len()
                invariant
                    i <= c.arms@.len(),
                    *stmt == Statement::Case(*c),
                    av == arms_v(c.arms@),
                    start + arms_edges_s(av, 0, dir@) == edges_v(edges@) + arms_edges_s(av, i as int, dir@),
                decreases c.arms.len() - i,
            {
                let ghost before = edges_v(edges@);
                proof {
                    assert(decreases_to!(*stmt => stmt->Case_0));
                    assert(decreases_to!(stmt->Case_0 => c.arms));
                    assert(decreases_to!(c.arms => c.arms@));
                    assert(decreases_to!(c.arms@ => c.arms@[i as int]));
                    assert(decreases_to!(c.arms@[i as int] => c.arms@[i as int].body));
                }
                walk_stmts_for_sources(&c.arms[i].body, dir, edges);
                assert(av[i as int] == arm_v(c.arms@[i as int]));
                assert(edges_v(edges@) + arms_edges_s(av, i + 1, dir@) =~= before + arms_edges_s(av, i as int, dir@));
                i = i + 1;
            }
            assert(arms_edges_s(av, i as int, dir@) =~= Seq::<EdgeV>::empty());
            assert(edges_v(edges@) =~= start + stmt_edges_s(stmt_v(*stmt), dir@));
        },
        Statement::List(l) => {
            let ghost es = elements_v(l.elements@);
            let mut i: usize = 0;
            while i < l.elements.len()
                invariant
                    i <= l.elements@.len(),
                    *stmt == Statement::List(*l),
                    es == elements_v(l.elements@),
                    start + elements_edges_s(es, 0, dir@) == edges_v(edges@) + elements_edges_s(es, i as int, dir@),
                decreases l.elements.len() - i,
            {
                let ghost before = edges_v(edges@);
                proof {
                    assert(decreases_to!(*stmt => stmt->List_0));
                    assert(decreases_to!(stmt->List_0 => l.elements));
                    assert(decreases_to!(l.elements => l.elements@));
                    assert(decreases_to!(l.elements@ => l.elements@[i as int]));
                    assert(decreases_to!(l.elements@[i as int] => l.elements@[i as int].statement));
                }
                walk_stmt_for_sources(&l.elements[i].statement, dir, edges);
                assert(es[i as int].statement == stmt_v(l.elements@[i as int].statement));
                assert(edges_v(edges@) + elements_edges_s(es, i + 1, dir@) =~= before + elements_edges_s(
                    es,
                    i as int,
                    dir@,
                ));
                i = i + 1;
            }
            assert(elements_edges_s(es, i as int, dir@) =~= Seq::<EdgeV>::empty());
            assert(edges_v(edges@) =~= start + stmt_edges_s(stmt_v(*stmt), dir@));
        },
        Statement::Pipeline(p) => {
            proof {
                assert(decreases_to!(*stmt => stmt->Pipeline_0));
            }
            walk_stmts_for_sources(&p.commands, dir, edges);
        },
        Statement::Block(b) => {
            proof {
                assert(decreases_to!(*stmt => stmt->Block_0));
            }
            walk_stmts_for_sources(&b.body, dir, edges);
        },
        _ => {
            assert(edges_v(edges@) =~= start + stmt_edges_s(stmt_v(*stmt), dir@));
        },
    }
}

/// The `source` edges of a file at `file_path`, in document order, their
/// targets joined to the file's directory, as `items_edges_s` states.
pub fn extract_source_edges(file_path: &str, source_unit: &SourceUnit) -> (r: Vec<SourceEdge>)
    ensures
        edges_v(r@) == items_edges_s(items_v(source_unit.items@), 0, parent_dir_s(file_path@)),
{
    let dir = parent_dir(file_path);
    let items = &source_unit.items;
    let ghost iv = items_v(items@);
    let mut edges: Vec<SourceEdge> = Vec::new();
    assert(edges_v(edges@) =~= Seq::<EdgeV>::empty());
    let mut i: usize = 0;
    while i < items.len()
        invariant
            i <= items@.len(),
            iv == items_v(items@),
            items_edges_s(iv, 0, dir@) == edges_v(edges@) + items_edges_s(iv, i as int, dir@),
        decreases items.len() - i,
    {
        let ghost before = edges_v(edges@);
        assert(iv[i as int] == item_v(items@[i as int]));
        match &items[i] {
            Item::Function(f) => walk_stmts_for_sources(&f.body, dir.as_str(), &mut edges),
            Item::Statement(s) => walk_stmt_for_sources(s, dir.as_str(), &mut edges),
        }
        assert(edges_v(edges@) + items_edges_s(iv, i + 1, dir@) =~= before + items_edges_s(iv, i as int, dir@));
        i = i + 1;
    }
    assert(items_edges_s(iv, i as int, dir@) =~= Seq::<EdgeV>::empty());
    assert(edges_v(edges@) =~= items_edges_s(iv, 0, dir@));
    edges
}


// ---------------------------------------------------------------------------
// The files and their graph
// ---------------------------------------------------------------------------

/// One file of the graph: lowered, with its symbols and its edges.
pub struct SourceNode {
    pub path: String,
    pub source_id: SourceId,
    pub lower_result: LowerResult,
    pub symbols: SymbolTable,
    pub edges: Vec<SourceEdge>,
}

pub open spec fn distinct_paths(nodes: Seq<SourceNode>) -> bool {
    forall|i: int, j: int| 0 <= i < j < nodes.len() ==> nodes[i].path@ != nodes[j].path@
}

fn index_of(nodes: &Vec<SourceNode>, path: &str) -> (r: Option<usize>)
    ensures
        match r {
            Some(i) => i < nodes@.len() && nodes@[i as int].path@ == path@
                && forall|k: int| 0 <= k < i ==> nodes@[k].path@ != path@,
            None => forall|i: int| 0 <= i < nodes@.len() ==> nodes@[i].path@ != path@,
        },
{
    let mut i: usize = 0;
    while i < nodes.len()
        invariant
            i <= nodes@.len(),
            forall|k: int| 0 <= k < i ==> nodes@[k].path@ != path@,
        decreases nodes.len() - i,
    {
        if str_eq(nodes[i].path.as_str(), path) {
            return Some(i);
        }
        i = i + 1;
    }
    None
}

pub open spec fn bt701_s() -> DiagnosticCode {
    DiagnosticCode { family: "BT", number: 701 }
}

pub open spec fn bt702_s() -> DiagnosticCode {
    DiagnosticCode { family: "BT", number: 702 }
}

/// Builds a source graph from the files the caller reads.
pub struct SourceGraphBuilder {
    nodes: Vec<SourceNode>,
    next_id: u32,
    diagnostics: Vec<(String, Diagnostic)>,
}

impl SourceGraphBuilder {
    pub closed spec fn files(&self) -> Seq<SourceNode> {
        self.nodes@
    }

    pub closed spec fn diags(&self) -> Seq<(String, Diagnostic)> {
        self.diagnostics@
    }

    /// Paths are distinct, and the `i`-th file has source id `i`.
    pub closed spec fn wf(&self) -> bool {
        &&& distinct_paths(self.nodes@)
        &&& self.next_id as int == self.nodes@.len()
        &&& forall|i: int| 0 <= i < self.nodes@.len() ==> (#[trigger] self.nodes@[i]).source_id == SourceId(i as u32)
        &&& forall|i: int| 0 <= i < self.nodes@.len() ==> (#[trigger] self.nodes@[i]).symbols.wf()
    }

    pub fn new() -> (b: SourceGraphBuilder)
        ensures
            b.wf(),
            b.files().len() == 0,
            b.diags().len() == 0,
    {
        SourceGraphBuilder { nodes: Vec::new(), next_id: 0, diagnostics: Vec::new() }
    }

    /// Whether a file of that path was added.
    pub fn contains(&self, path: &str) -> (b: bool)
        ensures
            b == exists|i: int| 0 <= i < self.files().len() && self.files()[i].path@ == path@,
    {
        match index_of(&self.nodes, path) {
            Some(i) => {
                assert(self.files()[i as int].path@ == path@);
                true
            },
            None => false,
        }
    }

    pub fn file_count(&self) -> (n: usize)
        ensures
            n == self.files().len(),
    {
        self.nodes.len()
    }

    /// Adds the file read from `path`: lowers it, builds its symbols and
    /// collects its `source` edges, their targets joined to its directory.
    /// `None`, with nothing added, where a file of that path is there already
    /// or its scopes cannot be numbered by `u32` ids; else the file's index,
    /// which is also its source id.
    pub fn add_source(&mut self, path: String, text: String) -> (r: Option<usize>)
        requires
            old(self).wf(),
            old(self).files().len() < u32::MAX,
            crate::text::utf8_len_seq(text@) <= u32::MAX,
            crate::annotation::lines_ok(text@),
        ensures
            final(self).wf(),
            final(self).diags() == old(self).diags(),
            match r {
                Some(i) => {
                    &&& forall|k: int| 0 <= k < old(self).files().len() ==> old(self).files()[k].path@ != path@
                    &&& i == old(self).files().len()
                    &&& final(self).files().drop_last() == old(self).files()
                    &&& final(self).files().last().path@ == path@
                    &&& final(self).files().last().lower_result.source_text@ == text@
                    &&& final(self).files().last().source_id == SourceId(i as u32)
                    &&& final(self).files().last().symbols.tv() == crate::scope::symbol_table_s(
                        items_v(final(self).files().last().lower_result.source_unit.items@),
                        crate::annotation::annotations_v(final(self).files().last().lower_result.source_unit.annotations@),
                    )
                    &&& crate::lower::lowering_of(final(self).files().last().lower_result, SourceId(i as u32), text@)
                    &&& edges_v(final(self).files().last().edges@) == items_edges_s(
                        items_v(final(self).files().last().lower_result.source_unit.items@),
                        0,
                        parent_dir_s(path@),
                    )
                },
                None => {
                    &&& final(self).files() == old(self).files()
                    &&& (exists|k: int| 0 <= k < old(self).files().len() && old(self).files()[k].path@ == path@)
                        || exists|lr: LowerResult|
                        crate::lower::lowering_of(lr, SourceId(old(self).files().len() as u32), text@)
                            && 1 + items_scopes(items_v(#[trigger] lr.source_unit.items@), 0) > u32::MAX
                },
            },
    {
        if self.contains(path.as_str()) {
            return None;
        }
        let source_id = SourceId(self.next_id);
        let source = SourceFile::new(source_id, copy_string(&path), text);
        let lower_result = parse_and_lower(source);
        if !crate::scope::symbol_table_fits(&lower_result.source_unit) {
            assert(crate::lower::lowering_of(lower_result, source_id, text@));
            return None;
        }
        let symbols = build_symbol_table(&lower_result.source_unit);
        let edges = extract_source_edges(path.as_str(), &lower_result.source_unit);
        let i = self.nodes.len();
        let ghost before = self.nodes@;
        self.nodes.push(SourceNode { path, source_id, lower_result, symbols, edges });
        self.next_id = self.next_id + 1;
        proof {
            assert(self.nodes@.drop_last() =~= before);
            assert forall|a: int, b: int| 0 <= a < b < self.nodes@.len() implies self.nodes@[a].path@
                != self.nodes@[b].path@ by {
                if b < before.len() {
                    assert(self.nodes@[a] == before[a] && self.nodes@[b] == before[b]);
                }
            }
        }
        Some(i)
    }
}


/// Edge `j` of file `u` is a `source` of file `t` that was resolved statically.
pub open spec fn static_edge(nodes: Seq<SourceNode>, u: int, j: int, t: int) -> bool {
    &&& 0 <= u < nodes.len()
    &&& 0 <= j < nodes[u].edges@.len()
    &&& !nodes[u].edges@[j].dynamic
    &&& 0 <= t < nodes.len()
    &&& nodes[t].path@ == nodes[u].edges@[j].target@
}

/// Some diagnostic reports a cycle (BT702).
pub open spec fn cycle_reported(diags: Seq<(String, Diagnostic)>) -> bool {
    exists|k: int| 0 <= k < diags.len() && (#[trigger] diags[k]).1.code == bt702_s()
}

pub open spec fn in_order(order: Seq<usize>, t: int) -> bool {
    exists|k: int| 0 <= k < order.len() && order[k] as int == t
}

/// The state of the topological search: `order` holds each finished file
/// once; a file on the stack is not finished; every static edge of a
/// finished file leads to a file finished before it, unless a cycle was reported.
spec fn topo_inv(nodes: Seq<SourceNode>, vis: Seq<bool>, stk: Seq<bool>, order: Seq<usize>, diags: Seq<(String, Diagnostic)>) -> bool {
    &&& vis.len() == nodes.len()
    &&& stk.len() == nodes.len()
    &&& forall|k: int| 0 <= k < order.len() ==> (order[k] as int) < nodes.len()
    &&& forall|k: int, l: int| 0 <= k < l < order.len() ==> order[k] != order[l]
    &&& forall|t: int| 0 <= t < nodes.len() ==> (vis[t] <==> in_order(order, t))
    &&& forall|t: int| 0 <= t < nodes.len() ==> !(vis[t] && stk[t])
    &&& forall|k1: int, j: int, t: int|
        0 <= k1 < order.len() && #[trigger] static_edge(nodes, order[k1] as int, j, t) ==> (exists|k2: int|
            0 <= k2 < k1 && order[k2] as int == t) || (cycle_reported(diags) && reach0(nodes, t, order[k1] as int))
}

/// File `t` lies on a cycle of static edges: a file that `t` reaches
/// sources it.
pub open spec fn on_cycle(nodes: Seq<SourceNode>, t: int) -> bool {
    exists|u: int| reach0(nodes, t, u) && #[trigger] static_step(nodes, u, t)
}

/// The entry is a BT702 on the path of a file that lies on a cycle.
pub open spec fn cycle_entry(nodes: Seq<SourceNode>, d: (String, Diagnostic)) -> bool {
    &&& d.1.code == bt702_s()
    &&& exists|x: int| 0 <= x < nodes.len() && d.0@ == nodes[x].path@ && #[trigger] on_cycle(nodes, x)
}

spec fn unmarked(vis: Seq<bool>, stk: Seq<bool>) -> nat
    decreases vis.len(),
{
    if vis.len() == 0 || stk.len() != vis.len() {
        0
    } else {
        unmarked(vis.drop_last(), stk.drop_last()) + if !vis.last() && !stk.last() {
            1nat
        } else {
            0nat
        }
    }
}

proof fn lemma_unmarked_mono(v1: Seq<bool>, s1: Seq<bool>, v2: Seq<bool>, s2: Seq<bool>)
    requires
        v1.len() == s1.len() == v2.len() == s2.len(),
        forall|i: int| 0 <= i < v1.len() ==> (v1[i] || s1[i]) ==> (v2[i] || s2[i]),
    ensures
        unmarked(v2, s2) <= unmarked(v1, s1),
        (exists|i: int| 0 <= i < v1.len() && !v1[i] && !s1[i] && (v2[i] || s2[i])) ==> unmarked(v2, s2) < unmarked(v1, s1),
    decreases v1.len(),
{
    if v1.len() > 0 {
        lemma_unmarked_mono(v1.drop_last(), s1.drop_last(), v2.drop_last(), s2.drop_last());
        if exists|i: int| 0 <= i < v1.len() && !v1[i] && !s1[i] && (v2[i] || s2[i]) {
            let i = choose|i: int| 0 <= i < v1.len() && !v1[i] && !s1[i] && (v2[i] || s2[i]);
            if i < v1.len() - 1 {
                assert(!v1.drop_last()[i] && !s1.drop_last()[i] && (v2.drop_last()[i] || s2.drop_last()[i]));
            }
        }
    }
}

fn bt702_diagnostic(node: &SourceNode, span: Span) -> (d: Diagnostic)
    ensures
        d@.code == bt702_s(),
        d@.severity == crate::diagnostic::Severity::Error,
        d@.source_id == node.source_id,
        d@.primary_span == span,
{
    let mut message = owned("circular source dependency involving ");
    let name = file_name(node.path.as_str());
    push_str(&mut message, name.as_str());
    let code = DiagnosticCode { family: "BT", number: 702 };
    Diagnostic::error(code, message.as_str(), node.source_id, span).with_help(
        "break the cycle by removing one of the mutual source commands",
    )
}

/// The edge is static and leads to a file on the stack (the first file of
/// that path).
pub open spec fn edge_to_stack(nodes: Seq<SourceNode>, stk: Seq<bool>, e: SourceEdge) -> bool {
    &&& !e.dynamic
    &&& exists|t: int|
        0 <= t < nodes.len() && nodes[t].path@ == e.target@ && #[trigger] stk[t]
            && forall|k: int| 0 <= k < t ==> nodes[k].path@ != e.target@
}

/// The span of the first static edge of `node` to a file on the stack.
fn cycle_span(nodes: &Vec<SourceNode>, i: usize, stk: &Vec<bool>) -> (s: Span)
    requires
        i < nodes@.len(),
        stk@.len() == nodes@.len(),
    ensures
        (exists|j: int|
            0 <= j < nodes@[i as int].edges@.len()
                && edge_to_stack(nodes@, stk@, #[trigger] nodes@[i as int].edges@[j])
                && s == nodes@[i as int].edges@[j].span
                && forall|k: int| 0 <= k < j ==> !edge_to_stack(nodes@, stk@, nodes@[i as int].edges@[k]))
        || ((forall|j: int|
            0 <= j < nodes@[i as int].edges@.len() ==> !edge_to_stack(nodes@, stk@, #[trigger] nodes@[i as int].edges@[j]))
            && s == Span { start: 0, end: 0 }),
{
    let edges = &nodes[i].edges;
    let mut j: usize = 0;
    while j < edges.len()
        invariant
            j <= edges@.len(),
            stk@.len() == nodes@.len(),
            i < nodes@.len(),
            edges@ == nodes@[i as int].edges@,
            forall|k: int| 0 <= k < j ==> !edge_to_stack(nodes@, stk@, #[trigger] edges@[k]),
        decreases edges.len() - j,
    {
        let e = &edges[j];
        if !e.dynamic {
            if let Some(t) = index_of(nodes, e.target.as_str()) {
                if stk[t] {
                    assert(stk@[t as int]);
                    assert(edge_to_stack(nodes@, stk@, edges@[j as int]));
                    return e.span;
                }
                assert forall|t2: int|
                    0 <= t2 < nodes@.len() && nodes@[t2].path@ == e.target@ && #[trigger] stk@[t2] implies exists|k: int|
                    0 <= k < t2 && nodes@[k].path@ == e.target@ by {
                    if t2 > t {
                        assert(0 <= t < t2 && nodes@[t as int].path@ == e.target@);
                    } else if t2 < t {
                        assert(nodes@[t2].path@ != e.target@);
                    }
                }
            }
        }
        assert(!edge_to_stack(nodes@, stk@, edges@[j as int]));
        j = j + 1;
    }
    Span::new(0, 0)
}

fn topo_visit(
    nodes: &Vec<SourceNode>,
    i: usize,
    visited: &mut Vec<bool>,
    in_stack: &mut Vec<bool>,
    order: &mut Vec<usize>,
    diagnostics: &mut Vec<(String, Diagnostic)>,
)
    requires
        i < nodes@.len(),
        distinct_paths(nodes@),
        topo_inv(nodes@, old(visited)@, old(in_stack)@, old(order)@, old(diagnostics)@),
        forall|x: int| 0 <= x < nodes@.len() && old(in_stack)@[x] ==> reach0(nodes@, x, i as int),
        old(in_stack)@[i as int] ==> on_cycle(nodes@, i as int),
    ensures
        topo_inv(nodes@, final(visited)@, final(in_stack)@, final(order)@, final(diagnostics)@),
        final(in_stack)@ == old(in_stack)@,
        forall|t: int| 0 <= t < nodes@.len() && old(visited)@[t] ==> final(visited)@[t],
        forall|t: int| 0 <= t < nodes@.len() && old(in_stack)@[t] ==> final(visited)@[t] == old(visited)@[t],
        final(order)@.len() >= old(order)@.len(),
        final(order)@.take(old(order)@.len() as int) == old(order)@,
        final(diagnostics)@.len() >= old(diagnostics)@.len(),
        final(diagnostics)@.take(old(diagnostics)@.len() as int) == old(diagnostics)@,
        forall|k: int| old(diagnostics)@.len() <= k < final(diagnostics)@.len() ==> cycle_entry(nodes@, #[trigger] final(diagnostics)@[k]),
        final(visited)@[i as int] || cycle_reported(final(diagnostics)@),
        !old(in_stack)@[i as int] ==> final(visited)@[i as int],
    decreases unmarked(old(visited)@, old(in_stack)@),
{
    let ghost ns = nodes@;
    if visited[i] {
        assert(order@.take(order@.len() as int) =~= order@);
        assert(diagnostics@.take(diagnostics@.len() as int) =~= diagnostics@);
        return;
    }
    if in_stack[i] {
        let span = cycle_span(nodes, i, in_stack);
        let d = bt702_diagnostic(&nodes[i], span);
        let ghost d0 = diagnostics@;
        diagnostics.push((copy_string(&nodes[i].path), d));
        proof {
            assert(diagnostics@.take(d0.len() as int) =~= d0);
            assert(diagnostics@[d0.len() as int].1.code == bt702_s());
            assert(diagnostics@[d0.len() as int].0@ == ns[i as int].path@);
            assert(on_cycle(ns, i as int));
            assert(cycle_entry(ns, diagnostics@[d0.len() as int]));
            assert(cycle_reported(diagnostics@));
            assert(order@.take(order@.len() as int) =~= order@);
            assert forall|k1: int, j: int, t: int|
                0 <= k1 < order@.len() && #[trigger] static_edge(ns, order@[k1] as int, j, t) implies (exists|k2: int|
                0 <= k2 < k1 && order@[k2] as int == t) || (cycle_reported(diagnostics@) && reach0(
                ns,
                t,
                order@[k1] as int,
            )) by {}
        }
        return;
    }
    let ghost v0 = visited@;
    let ghost s0 = in_stack@;
    let ghost o0 = order@;
    let ghost g0 = diagnostics@;
    in_stack.set(i, true);
    let ghost s1 = in_stack@;
    proof {
        lemma_unmarked_mono(v0, s0, v0, s1);
        assert(!v0[i as int] && !s0[i as int] && s1[i as int]);
        assert(topo_inv(ns, v0, s1, o0, g0));
        let p0 = seq![i as int];
        assert(static_path(ns, p0));
        assert(reach0(ns, i as int, i as int));
    }
    let edges = &nodes[i].edges;
    let mut j: usize = 0;
    while j < edges.len()
        invariant
            ns == nodes@,
            distinct_paths(ns),
            i < ns.len(),
            *edges == ns[i as int].edges,
            j <= edges@.len(),
            topo_inv(ns, visited@, in_stack@, order@, diagnostics@),
            in_stack@ == s1,
            s1 == s0.update(i as int, true),
            v0 == old(visited)@,
            s0 == old(in_stack)@,
            v0.len() == ns.len(),
            s0.len() == ns.len(),
            !v0[i as int],
            !s0[i as int],
            visited@.len() == v0.len(),
            forall|t: int| 0 <= t < ns.len() && v0[t] ==> visited@[t],
            forall|t: int| 0 <= t < ns.len() && s1[t] ==> visited@[t] == v0[t],
            order@.len() >= o0.len(),
            order@.take(o0.len() as int) == o0,
            diagnostics@.len() >= g0.len(),
            diagnostics@.take(g0.len() as int) == g0,
            forall|k: int| g0.len() <= k < diagnostics@.len() ==> cycle_entry(ns, #[trigger] diagnostics@[k]),
            forall|x: int| 0 <= x < ns.len() && s1[x] ==> reach0(ns, x, i as int),
            forall|jj: int, t: int| 0 <= jj < j && #[trigger] static_edge(ns, i as int, jj, t) ==> visited@[t]
                || (cycle_reported(diagnostics@) && reach0(ns, t, i as int)),
        decreases edges.len() - j,
    {
        let e = &edges[j];
        if !e.dynamic {
            match index_of(nodes, e.target.as_str()) {
                Some(t) => {
                    let ghost vb = visited@;
                    let ghost ob = order@;
                    let ghost gb = diagnostics@;
                    proof {
                        assert(!v0[i as int] && !s0[i as int] && s1[i as int]);
                        lemma_unmarked_mono(v0, s0, vb, s1);
                        assert(unmarked(vb, s1) < unmarked(old(visited)@, old(in_stack)@));
                        assert(static_edge(ns, i as int, j as int, t as int));
                        assert(static_step(ns, i as int, t as int));
                        assert forall|x: int| 0 <= x < ns.len() && s1[x] implies reach0(ns, x, t as int) by {
                            lemma_reach0_step(ns, x, i as int, t as int);
                        }
                        if s1[t as int] {
                            assert(reach0(ns, t as int, i as int));
                            assert(on_cycle(ns, t as int));
                        }
                    }
                    topo_visit(nodes, t, visited, in_stack, order, diagnostics);
                    proof {
                        assert(order@.take(o0.len() as int) =~= order@.take(ob.len() as int).take(o0.len() as int));
                        assert(diagnostics@.take(g0.len() as int) =~= diagnostics@.take(gb.len() as int).take(g0.len() as int));
                        assert forall|k: int| g0.len() <= k < diagnostics@.len() implies cycle_entry(ns, #[trigger] diagnostics@[k]) by {
                            if k < gb.len() {
                                assert(diagnostics@[k] == diagnostics@.take(gb.len() as int)[k]);
                            }
                        }
                        if cycle_reported(gb) {
                            let k = choose|k: int| 0 <= k < gb.len() && (#[trigger] gb[k]).1.code == bt702_s();
                            assert(diagnostics@[k] == diagnostics@.take(gb.len() as int)[k]);
                        }
                        assert forall|jj: int, tt: int| 0 <= jj <= j && #[trigger] static_edge(ns, i as int, jj, tt) implies visited@[tt]
                            || (cycle_reported(diagnostics@) && reach0(ns, tt, i as int)) by {
                            if jj == j {
                                assert(ns[tt].path@ == ns[t as int].path@);
                                assert(tt == t as int);
                                if s1[tt] {
                                    assert(!vb[tt]);
                                }
                            }
                        }
                    }
                },
                None => {
                    assert forall|jj: int, tt: int| 0 <= jj <= j && #[trigger] static_edge(ns, i as int, jj, tt) implies visited@[tt]
                        || (cycle_reported(diagnostics@) && reach0(ns, tt, i as int)) by {
                        if jj == j {
                            assert(ns[tt].path@ == ns[i as int].edges@[j as int].target@);
                        }
                    }
                },
            }
        }
        j = j + 1;
    }
    let ghost vb = visited@;
    let ghost ob = order@;
    in_stack.set(i, false);
    visited.set(i, true);
    order.push(i);
    proof {
        assert(in_stack@ =~= s0);
        let o = order@;
        assert(o.drop_last() == ob);
        assert(!vb[i as int]);
        assert(!in_order(ob, i as int));
        assert forall|k: int, l: int| 0 <= k < l < o.len() implies o[k] != o[l] by {
            if l == o.len() - 1 && o[k] == o[l] {
                assert(ob[k] as int == i as int);
            }
        }
        assert forall|t: int| 0 <= t < ns.len() implies (visited@[t] <==> in_order(o, t)) by {
            if in_order(ob, t) {
                let k = choose|k: int| 0 <= k < ob.len() && ob[k] as int == t;
                assert(o[k] == ob[k]);
            }
            if in_order(o, t) && t != i as int {
                let k = choose|k: int| 0 <= k < o.len() && o[k] as int == t;
                assert(k < ob.len());
                assert(ob[k] == o[k]);
            }
            if t == i as int {
                assert(o[o.len() - 1] as int == t);
            }
        }
        assert forall|k1: int, jj: int, t: int|
            0 <= k1 < o.len() && #[trigger] static_edge(ns, o[k1] as int, jj, t) implies (exists|k2: int|
                0 <= k2 < k1 && o[k2] as int == t) || (cycle_reported(diagnostics@) && reach0(ns, t, o[k1] as int)) by {
            if k1 < ob.len() {
                assert(o[k1] == ob[k1]);
                assert(static_edge(ns, ob[k1] as int, jj, t));
                if exists|k2: int| 0 <= k2 < k1 && ob[k2] as int == t {
                    let k2 = choose|k2: int| 0 <= k2 < k1 && ob[k2] as int == t;
                    assert(o[k2] == ob[k2]);
                }
            } else {
                assert(static_edge(ns, i as int, jj, t));
                if vb[t] {
                    let k2 = choose|k2: int| 0 <= k2 < ob.len() && ob[k2] as int == t;
                    assert(o[k2] == ob[k2]);
                }
            }
        }
        assert(o.take(o0.len() as int) =~= ob.take(o0.len() as int));
    }
}


/// A sequence of distinct indices below `n` that holds each of them has length `n`.
proof fn lemma_permutation_len(order: Seq<usize>, n: nat)
    requires
        forall|k: int| 0 <= k < order.len() ==> (order[k] as int) < n,
        forall|k: int, l: int| 0 <= k < l < order.len() ==> order[k] != order[l],
        forall|t: int| 0 <= t < n ==> in_order(order, t),
    ensures
        order.len() == n,
{
    let s = order.map_values(|x: usize| x as int);
    assert(s.no_duplicates()) by {
        assert forall|k: int, l: int| 0 <= k < s.len() && 0 <= l < s.len() && k != l implies s[k] != s[l] by {
            if k < l {
                assert(order[k] != order[l]);
            } else {
                assert(order[l] != order[k]);
            }
        }
    }
    s.unique_seq_to_set();
    vstd::set_lib::lemma_int_range(0, n as int);
    assert(s.to_set() =~= vstd::set_lib::set_int_range(0, n as int)) by {
        assert forall|t: int| s.to_set().contains(t) <==> vstd::set_lib::set_int_range(0, n as int).contains(t) by {
            broadcast use vstd::seq_lib::group_seq_properties;
            if s.to_set().contains(t) {
                assert(s.contains(t));
                let k = choose|k: int| 0 <= k < s.len() && s[k] == t;
                assert(order[k] as int == t);
            }
            if 0 <= t < n {
                assert(in_order(order, t));
                let k = choose|k: int| 0 <= k < order.len() && order[k] as int == t;
                assert(s[k] == t);
                assert(s.contains(t));
            }
        }
    }
}

/// The source dependency graph of a set of scripts.
pub struct SourceGraph {
    nodes: Vec<SourceNode>,
    /// The files, sourced ones before those that source them.
    topo_order: Vec<String>,
    diagnostics: Vec<(String, Diagnostic)>,
    order: Ghost<Seq<usize>>,
}

impl SourceGraphBuilder {
    /// The edges of the `i`-th file.
    pub fn edges(&self, i: usize) -> (r: &Vec<SourceEdge>)
        requires
            i < self.files().len(),
        ensures
            r@ == self.files()[i as int].edges@,
    {
        &self.nodes[i].edges
    }

    /// The positions of the static edges of the `i`-th file, in order.
    pub fn static_edge_indices(&self, i: usize) -> (r: Vec<usize>)
        requires
            i < self.files().len(),
        ensures
            forall|a: int, b: int| 0 <= a < b < r@.len() ==> r@[a] < r@[b],
            forall|a: int| 0 <= a < r@.len() ==> r@[a] < self.files()[i as int].edges@.len() && !self.files()[
                i as int
            ].edges@[r@[a] as int].dynamic,
            forall|k: int|
                0 <= k < self.files()[i as int].edges@.len() && !self.files()[i as int].edges@[k].dynamic ==> exists|a: int|
                    0 <= a < r@.len() && r@[a] == k,
    {
        let edges = &self.nodes[i].edges;
        let mut r: Vec<usize> = Vec::new();
        let mut k: usize = 0;
        while k < edges.len()
            invariant
                k <= edges@.len(),
                *edges == self.files()[i as int].edges,
                forall|a: int, b: int| 0 <= a < b < r@.len() ==> r@[a] < r@[b],
                forall|a: int| 0 <= a < r@.len() ==> r@[a] < k && !edges@[r@[a] as int].dynamic,
                forall|m: int| 0 <= m < k && !edges@[m].dynamic ==> exists|a: int| 0 <= a < r@.len() && r@[a] == m,
            decreases edges.len() - k,
        {
            if !edges[k].dynamic {
                let ghost r0 = r@;
                r.push(k);
                proof {
                    assert forall|m: int| 0 <= m < k + 1 && !edges@[m].dynamic implies exists|a: int|
                        0 <= a < r@.len() && r@[a] == m by {
                        if m < k {
                            let a = choose|a: int| 0 <= a < r0.len() && r0[a] == m;
                            assert(r@[a] == r0[a]);
                        } else {
                            assert(r@[r0.len() as int] == m);
                        }
                    }
                }
            }
            k = k + 1;
        }
        r
    }

    /// The targets and spans of the static edges of the `i`-th file, in order.
    pub fn static_targets(&self, i: usize) -> (r: Vec<(String, Span)>)
        requires
            i < self.files().len(),
        ensures
            targets_v(r@) == static_targets_s(edges_v(self.files()[i as int].edges@)),
    {
        let edges = &self.nodes[i].edges;
        let ghost ev = edges_v(edges@);
        let mut r: Vec<(String, Span)> = Vec::new();
        let mut k: usize = 0;
        while k < edges.len()
            invariant
                k <= edges@.len(),
                *edges == self.files()[i as int].edges,
                ev == edges_v(edges@),
                targets_v(r@) == static_targets_s(ev.take(k as int)),
            decreases edges.len() - k,
        {
            assert(ev.take(k + 1).drop_last() =~= ev.take(k as int));
            assert(ev.take(k + 1).last() == edge_v(edges@[k as int]));
            let ghost r0 = r@;
            if !edges[k].dynamic {
                r.push((copy_string(&edges[k].target), edges[k].span));
                assert(targets_v(r@) =~= targets_v(r0).push((edges@[k as int].target@, edges@[k as int].span)));
            }
            k = k + 1;
        }
        assert(ev.take(k as int) =~= ev);
        r
    }

    /// Replaces the target of edge `k` of the `i`-th file by `target`, the
    /// form of the path that the file system resolves it to.
    pub fn set_edge_target(&mut self, i: usize, k: usize, target: String)
        requires
            old(self).wf(),
            i < old(self).files().len(),
            k < old(self).files()[i as int].edges@.len(),
        ensures
            final(self).wf(),
            final(self).diags() == old(self).diags(),
            final(self).files().len() == old(self).files().len(),
            forall|m: int| 0 <= m < old(self).files().len() && m != i ==> final(self).files()[m] == old(self).files()[m],
            final(self).files()[i as int].path == old(self).files()[i as int].path,
            final(self).files()[i as int].source_id == old(self).files()[i as int].source_id,
            final(self).files()[i as int].edges@ == old(self).files()[i as int].edges@.update(
                k as int,
                SourceEdge { target, ..old(self).files()[i as int].edges@[k as int] },
            ),
    {
        self.nodes[i].edges[k].target = target;
        proof {
            assert forall|a: int, b: int| 0 <= a < b < self.nodes@.len() implies self.nodes@[a].path@
                != self.nodes@[b].path@ by {
                assert(self.nodes@[a].path == old(self).nodes@[a].path);
                assert(self.nodes@[b].path == old(self).nodes@[b].path);
            }
            assert forall|a: int| 0 <= a < self.nodes@.len() implies (#[trigger] self.nodes@[a]).symbols.wf() by {
                assert(self.nodes@[a].symbols == old(self).nodes@[a].symbols);
            }
            assert(self.nodes@[i as int].edges@ =~= old(self).files()[i as int].edges@.update(
                k as int,
                SourceEdge { target, ..old(self).files()[i as int].edges@[k as int] },
            ));
        }
    }

    /// Reports that edge target `target` of the `i`-th file does not exist (BT701).
    pub fn missing_target(&mut self, i: usize, target: &str, span: Span)
        requires
            old(self).wf(),
            i < old(self).files().len(),
        ensures
            final(self).wf(),
            final(self).files() == old(self).files(),
            final(self).diags().drop_last() == old(self).diags(),
            final(self).diags().last().0@ == old(self).files()[i as int].path@,
            final(self).diags().last().1@ == (DiagnosticV {
                help: Some("the sourced file does not exist or cannot be resolved"@),
                ..bare_diagnostic(
                    bt701_s(),
                    crate::diagnostic::Severity::Warning,
                    "source target not found: "@ + target@,
                    old(self).files()[i as int].source_id,
                    span,
                )
            }),
    {
        let mut message = owned("source target not found: ");
        push_str(&mut message, target);
        let code = DiagnosticCode { family: "BT", number: 701 };
        let d = Diagnostic::warning(code, message.as_str(), self.nodes[i].source_id, span).with_help(
            "the sourced file does not exist or cannot be resolved",
        );
        let path = copy_string(&self.nodes[i].path);
        self.diagnostics.push((path, d));
        assert(self.diagnostics@.drop_last() =~= old(self).diagnostics@);
    }

    /// Orders the files: each after the files it sources, unless that
    /// `source` closes a cycle; a `source` back to a file still being ordered
    /// is reported as BT702 on that file, so each BT702 names a file that
    /// lies on a cycle and a graph without cycles gets none.
    pub fn finish(self) -> (g: SourceGraph)
        requires
            self.wf(),
        ensures
            g.wf(),
            g.files() == self.files(),
            g.diags().len() >= self.diags().len(),
            g.diags().take(self.diags().len() as int) == self.diags(),
            forall|k: int| self.diags().len() <= k < g.diags().len() ==> cycle_entry(g.files(), #[trigger] g.diags()[k]),
            g.topo().len() == g.files().len(),
            g.ord().len() == g.files().len(),
            forall|k: int| 0 <= k < g.ord().len() ==> (g.ord()[k] as int) < g.files().len() && (#[trigger] g.topo()[k])@
                == g.files()[g.ord()[k] as int].path@,
            forall|k: int, l: int| 0 <= k < l < g.ord().len() ==> g.ord()[k] != g.ord()[l],
            forall|t: int| 0 <= t < g.files().len() ==> in_order(g.ord(), t),
            forall|k1: int, j: int, t: int|
                0 <= k1 < g.ord().len() && #[trigger] static_edge(g.files(), g.ord()[k1] as int, j, t) ==> (exists|k2: int|
                    0 <= k2 < k1 && g.ord()[k2] as int == t) || (cycle_reported(g.diags()) && reach0(
                    g.files(),
                    t,
                    g.ord()[k1] as int,
                )),
            topo_sound(g.files(), g.ord(), g.diags()),
    {
        let SourceGraphBuilder { nodes, next_id: _, diagnostics } = self;
        let mut diagnostics = diagnostics;
        let n = nodes.len();
        let mut visited: Vec<bool> = Vec::new();
        let mut in_stack: Vec<bool> = Vec::new();
        let mut i: usize = 0;
        while i < n
            invariant
                i <= n,
                n == nodes@.len(),
                visited@.len() == i,
                in_stack@.len() == i,
                forall|k: int| 0 <= k < i ==> !visited@[k] && !in_stack@[k],
            decreases n - i,
        {
            visited.push(false);
            in_stack.push(false);
            i = i + 1;
        }
        let mut order: Vec<usize> = Vec::new();
        let ghost g0 = diagnostics@;
        assert(topo_inv(nodes@, visited@, in_stack@, order@, diagnostics@));
        let mut i: usize = 0;
        while i < n
            invariant
                i <= n,
                n == nodes@.len(),
                distinct_paths(nodes@),
                topo_inv(nodes@, visited@, in_stack@, order@, diagnostics@),
                forall|k: int| 0 <= k < n ==> !in_stack@[k],
                diagnostics@.len() >= g0.len(),
                diagnostics@.take(g0.len() as int) == g0,
                forall|k: int| g0.len() <= k < diagnostics@.len() ==> cycle_entry(nodes@, #[trigger] diagnostics@[k]),
                forall|k: int| 0 <= k < i ==> visited@[k],
            decreases n - i,
        {
            let ghost gb = diagnostics@;
            let ghost vb = visited@;
            topo_visit(&nodes, i, &mut visited, &mut in_stack, &mut order, &mut diagnostics);
            proof {
                assert(!in_stack@[i as int]);
                assert(diagnostics@.take(g0.len() as int) =~= diagnostics@.take(gb.len() as int).take(g0.len() as int));
                assert forall|k: int| g0.len() <= k < diagnostics@.len() implies cycle_entry(nodes@, #[trigger] diagnostics@[k]) by {
                    if k < gb.len() {
                        assert(diagnostics@[k] == diagnostics@.take(gb.len() as int)[k]);
                    }
                }
                if cycle_reported(gb) {
                    let k = choose|k: int| 0 <= k < gb.len() && (#[trigger] gb[k]).1.code == bt702_s();
                    assert(diagnostics@[k] == diagnostics@.take(gb.len() as int)[k]);
                }
            }
            i = i + 1;
        }
        proof {
            lemma_permutation_len(order@, n as nat);
        }
        let mut topo: Vec<String> = Vec::new();
        let mut k: usize = 0;
        while k < order.len()
            invariant
                k <= order@.len(),
                topo@.len() == k,
                topo_inv(nodes@, visited@, in_stack@, order@, diagnostics@),
                forall|m: int| 0 <= m < k ==> (#[trigger] topo@[m])@ == nodes@[order@[m] as int].path@,
            decreases order.len() - k,
        {
            let ix = order[k];
            topo.push(copy_string(&nodes[ix].path));
            k = k + 1;
        }
        SourceGraph { nodes, topo_order: topo, diagnostics, order: Ghost(order@) }
    }
}

impl SourceGraph {
    pub closed spec fn files(&self) -> Seq<SourceNode> {
        self.nodes@
    }

    /// Paths are distinct and each file's symbol table is well formed.
    pub closed spec fn wf(&self) -> bool {
        &&& distinct_paths(self.nodes@)
        &&& forall|i: int| 0 <= i < self.nodes@.len() ==> (#[trigger] self.nodes@[i]).symbols.wf()
    }

    pub closed spec fn topo(&self) -> Seq<String> {
        self.topo_order@
    }

    /// The files of `topo` by index.
    pub closed spec fn ord(&self) -> Seq<usize> {
        self.order@
    }

    pub closed spec fn diags(&self) -> Seq<(String, Diagnostic)> {
        self.diagnostics@
    }

    /// The files, sourced ones before those that source them.
    pub fn topo_order(&self) -> (r: &[String])
        ensures
            r@ == self.topo(),
    {
        self.topo_order.as_slice()
    }

    /// The file of that path, if it is in the graph.
    pub fn node(&self, path: &str) -> (r: Option<&SourceNode>)
        ensures
            match r {
                Some(n) => exists|i: int| 0 <= i < self.files().len() && self.files()[i] == *n && n.path@ == path@,
                None => forall|i: int| 0 <= i < self.files().len() ==> self.files()[i].path@ != path@,
            },
    {
        match index_of(&self.nodes, path) {
            Some(i) => {
                assert(self.files()[i as int] == self.nodes@[i as int]);
                Some(&self.nodes[i])
            },
            None => None,
        }
    }

    /// The diagnostics of the graph's shape (BT701, BT702), with the file of each.
    pub fn diagnostics(&self) -> (r: &[(String, Diagnostic)])
        ensures
            r@ == self.diags(),
    {
        self.diagnostics.as_slice()
    }
}


// ---------------------------------------------------------------------------
// Imported symbols
// ---------------------------------------------------------------------------

/// File `a` sources file `b` statically.
pub open spec fn static_step(nodes: Seq<SourceNode>, a: int, b: int) -> bool {
    exists|j: int| #[trigger] static_edge(nodes, a, j, b)
}

pub open spec fn static_path(nodes: Seq<SourceNode>, p: Seq<int>) -> bool {
    p.len() >= 1 && 0 <= p[0] < nodes.len() && forall|k: int| 0 <= k < p.len() - 1 ==> #[trigger] static_step(nodes, p[k], p[k + 1])
}

/// File `b` is `a` or is sourced, through static edges, from `a`.
pub open spec fn reach0(nodes: Seq<SourceNode>, a: int, b: int) -> bool {
    exists|p: Seq<int>| #[trigger] static_path(nodes, p) && p[0] == a && p.last() == b
}

/// File `b` is sourced, directly or not, by `a`.
pub open spec fn sourced_from(nodes: Seq<SourceNode>, a: int, b: int) -> bool {
    exists|x: int| reach0(nodes, a, x) && #[trigger] static_step(nodes, x, b)
}

/// The symbols of the root scope of file `t`.
pub open spec fn globals_of(nodes: Seq<SourceNode>, t: int) -> Map<Seq<char>, crate::scope::SymbolV> {
    nodes[t].symbols.scopes_v()[0].symbols
}

/// Every global symbol of file `t` is among `r`.
pub open spec fn holds_globals<'a>(nodes: Seq<SourceNode>, t: int, r: Seq<&'a Symbol>) -> bool {
    forall|n: Seq<char>| #[trigger] globals_of(nodes, t).contains_key(n) ==> exists|k: int|
        0 <= k < r.len() && symbol_v(*r[k]) == globals_of(nodes, t)[n]
}

/// `s` is a global symbol of some file sourced from `start`.
pub open spec fn imported_from(nodes: Seq<SourceNode>, start: int, s: crate::scope::SymbolV) -> bool {
    exists|t: int| #[trigger] sourced_from(nodes, start, t) && globals_of(nodes, t).contains_key(s.name)
        && globals_of(nodes, t)[s.name] == s
}

proof fn lemma_reach0_step(nodes: Seq<SourceNode>, a: int, b: int, c: int)
    requires
        reach0(nodes, a, b),
        static_step(nodes, b, c),
    ensures
        reach0(nodes, a, c),
{
    let p = choose|p: Seq<int>| #[trigger] static_path(nodes, p) && p[0] == a && p.last() == b;
    let q = p.push(c);
    assert forall|k: int| 0 <= k < q.len() - 1 implies #[trigger] static_step(nodes, q[k], q[k + 1]) by {
        if k < p.len() - 1 {
            assert(q[k] == p[k] && q[k + 1] == p[k + 1]);
        }
    }
    assert(static_path(nodes, q));
}

spec fn unvisited_count(v: Seq<bool>) -> nat
    decreases v.len(),
{
    if v.len() == 0 {
        0
    } else {
        unvisited_count(v.drop_last()) + if v.last() { 0nat } else { 1nat }
    }
}

proof fn lemma_unvisited_count_mono(a: Seq<bool>, b: Seq<bool>)
    requires
        a.len() == b.len(),
        forall|i: int| 0 <= i < a.len() && a[i] ==> b[i],
    ensures
        unvisited_count(b) <= unvisited_count(a),
        (exists|i: int| 0 <= i < a.len() && !a[i] && b[i]) ==> unvisited_count(b) < unvisited_count(a),
    decreases a.len(),
{
    if a.len() > 0 {
        lemma_unvisited_count_mono(a.drop_last(), b.drop_last());
        if exists|i: int| 0 <= i < a.len() && !a[i] && b[i] {
            let i = choose|i: int| 0 <= i < a.len() && !a[i] && b[i];
            if i < a.len() - 1 {
                assert(!a.drop_last()[i] && b.drop_last()[i]);
            }
        }
    }
}

/// The state of the collection: visited files are finished or on the stack
/// `gray`; each static target of a finished file is visited and has all its
/// globals in `r`; every visited file is reachable from `start`, and every
/// collected symbol imported from it.
spec fn collect_inv<'a>(nodes: Seq<SourceNode>, start: int, vis: Seq<bool>, gray: Set<int>, r: Seq<&'a Symbol>) -> bool {
    &&& vis.len() == nodes.len()
    &&& forall|i: int| gray.contains(i) ==> 0 <= i < nodes.len() && vis[i]
    &&& forall|x: int, t: int|
        0 <= x < nodes.len() && vis[x] && !gray.contains(x) && #[trigger] static_step(nodes, x, t) ==> vis[t]
            && holds_globals(nodes, t, r)
    &&& forall|x: int| 0 <= x < nodes.len() && vis[x] ==> reach0(nodes, start, x)
    &&& forall|k: int| 0 <= k < r.len() ==> imported_from(nodes, start, symbol_v(*r[k]))
}

proof fn lemma_holds_globals_grow<'a>(nodes: Seq<SourceNode>, t: int, r: Seq<&'a Symbol>, r2: Seq<&'a Symbol>)
    requires
        holds_globals(nodes, t, r),
        r2.len() >= r.len(),
        r2.take(r.len() as int) == r,
    ensures
        holds_globals(nodes, t, r2),
{
    assert forall|n: Seq<char>| #[trigger] globals_of(nodes, t).contains_key(n) implies exists|k: int|
        0 <= k < r2.len() && symbol_v(*r2[k]) == globals_of(nodes, t)[n] by {
        let k = choose|k: int| 0 <= k < r.len() && symbol_v(*r[k]) == globals_of(nodes, t)[n];
        assert(r2[k] == r2.take(r.len() as int)[k]);
    }
}

/// The index of the first file of path `p` from `k` on; -1 where there is none.
pub open spec fn index_s(nodes: Seq<SourceNode>, p: Seq<char>, k: int) -> int
    decreases nodes.len() - k,
{
    if k < 0 || k >= nodes.len() {
        -1
    } else if nodes[k].path@ == p {
        k
    } else {
        index_s(nodes, p, k + 1)
    }
}

proof fn lemma_index_s_found(nodes: Seq<SourceNode>, p: Seq<char>, k: int, t: int)
    requires
        0 <= k <= t < nodes.len(),
        nodes[t].path@ == p,
        forall|m: int| k <= m < t ==> nodes[m].path@ != p,
    ensures
        index_s(nodes, p, k) == t,
    decreases t - k,
{
    if k < t {
        lemma_index_s_found(nodes, p, k + 1, t);
    }
}

proof fn lemma_index_s_none(nodes: Seq<SourceNode>, p: Seq<char>, k: int)
    requires
        0 <= k,
        forall|m: int| k <= m < nodes.len() ==> nodes[m].path@ != p,
    ensures
        index_s(nodes, p, k) == -1,
    decreases nodes.len() - k,
{
    if k < nodes.len() {
        lemma_index_s_none(nodes, p, k + 1);
    }
}

pub open spec fn syms_v<'a>(r: Seq<&'a Symbol>) -> Seq<crate::scope::SymbolV> {
    Seq::new(r.len(), |k: int| symbol_v(*r[k]))
}

/// The global symbols of file `t`, in the fixed order of its table.
pub open spec fn globals_seq(nodes: Seq<SourceNode>, t: int) -> Seq<crate::scope::SymbolV> {
    nodes[t].symbols.scope_entries(0)
}

/// What the walk from file `i` collects, with `vis` the files entered
/// already, and the files entered after it: nothing where `i` was entered
/// already; else, for each static edge of `i` to a file `t`, in order, what
/// the walk from `t` collects, then the globals of `t`. `fuel` bounds the
/// depth of the walk.
pub open spec fn walk_s(nodes: Seq<SourceNode>, i: int, vis: Seq<bool>, fuel: nat) -> (Seq<crate::scope::SymbolV>, Seq<bool>)
    decreases fuel, 0int, 0int,
{
    if i < 0 || i >= nodes.len() || i >= vis.len() || vis[i] || fuel == 0 {
        (Seq::empty(), vis)
    } else {
        edges_walk_s(nodes, i, 0, vis.update(i, true), (fuel - 1) as nat)
    }
}

/// What the walk collects over the edges of file `i` from the `j`-th on.
pub open spec fn edges_walk_s(nodes: Seq<SourceNode>, i: int, j: int, vis: Seq<bool>, fuel: nat) -> (Seq<crate::scope::SymbolV>, Seq<bool>)
    decreases fuel, 1int, nodes[i].edges@.len() - j,
{
    if i < 0 || i >= nodes.len() || j < 0 || j >= nodes[i].edges@.len() {
        (Seq::empty(), vis)
    } else {
        let e = nodes[i].edges@[j];
        let t = index_s(nodes, e.target@, 0);
        if e.dynamic || t < 0 {
            edges_walk_s(nodes, i, j + 1, vis, fuel)
        } else {
            let (a, v2) = walk_s(nodes, t, vis, fuel);
            let (b, v3) = edges_walk_s(nodes, i, j + 1, v2, fuel);
            (a + globals_seq(nodes, t) + b, v3)
        }
    }
}

/// What `imported_symbols` gives for `path`: nothing where no file has that
/// path; else what the walk from that file collects.
pub open spec fn imported_s(nodes: Seq<SourceNode>, path: Seq<char>) -> Seq<crate::scope::SymbolV> {
    let s = index_s(nodes, path, 0);
    if s < 0 {
        Seq::empty()
    } else {
        walk_s(nodes, s, Seq::new(nodes.len(), |k: int| false), nodes.len()).0
    }
}

proof fn lemma_unvisited_count_le(v: Seq<bool>)
    ensures
        unvisited_count(v) <= v.len(),
    decreases v.len(),
{
    if v.len() > 0 {
        lemma_unvisited_count_le(v.drop_last());
    }
}

impl SourceGraph {
    fn collect_imported_symbols<'a>(&'a self, i: usize, result: &mut Vec<&'a Symbol>, visited: &mut Vec<bool>, Ghost(start): Ghost<int>, Ghost(gray): Ghost<Set<int>>, Ghost(fuel): Ghost<nat>)
        requires
            self.wf(),
            i < self.files().len(),
            reach0(self.files(), start, i as int),
            collect_inv(self.files(), start, old(visited)@, gray, old(result)@),
            fuel >= unvisited_count(old(visited)@),
        ensures
            collect_inv(self.files(), start, final(visited)@, gray, final(result)@),
            syms_v(final(result)@) == syms_v(old(result)@) + walk_s(self.files(), i as int, old(visited)@, fuel).0,
            final(visited)@ == walk_s(self.files(), i as int, old(visited)@, fuel).1,
            final(visited)@[i as int],
            forall|t: int| 0 <= t < old(visited)@.len() && old(visited)@[t] ==> final(visited)@[t],
            final(result)@.len() >= old(result)@.len(),
            final(result)@.take(old(result)@.len() as int) == old(result)@,
        decreases unvisited_count(old(visited)@),
    {
        let ghost ns = self.files();
        if visited[i] {
            assert(result@.take(result@.len() as int) =~= result@);
            assert(syms_v(result@) =~= syms_v(result@) + Seq::<crate::scope::SymbolV>::empty());
            return;
        }
        let ghost v0 = visited@;
        let ghost r0 = result@;
        visited.set(i, true);
        let ghost gray2 = gray.insert(i as int);
        let ghost v1 = visited@;
        let ghost f1: nat = (fuel - 1) as nat;
        proof {
            lemma_unvisited_count_mono(v0, v1);
            assert(v1 == v0.update(i as int, true));
            assert(walk_s(ns, i as int, v0, fuel) == edges_walk_s(ns, i as int, 0, v1, f1));
            assert(syms_v(result@) + edges_walk_s(ns, i as int, 0, visited@, f1).0 =~= syms_v(r0)
                + edges_walk_s(ns, i as int, 0, v1, f1).0);
            assert(!v0[i as int] && v1[i as int]);
            assert forall|x: int, t: int|
                0 <= x < ns.len() && v1[x] && !gray2.contains(x) && #[trigger] static_step(ns, x, t) implies v1[t]
                    && holds_globals(ns, t, r0) by {
                assert(v0[x]);
            }
        }
        let edges = &self.nodes[i].edges;
        let mut j: usize = 0;
        while j < edges.len()
            invariant
                self.wf(),
                ns == self.files(),
                i < ns.len(),
                *edges == ns[i as int].edges,
                j <= edges@.len(),
                gray2 == gray.insert(i as int),
                reach0(ns, start, i as int),
                collect_inv(ns, start, visited@, gray2, result@),
                visited@.len() == v0.len(),
                v0 == old(visited)@,
                !v0[i as int],
                forall|t: int| 0 <= t < v0.len() && v1[t] ==> visited@[t],
                forall|t: int| 0 <= t < v0.len() && v0[t] ==> visited@[t],
                v1 == v0.update(i as int, true),
                result@.len() >= r0.len(),
                result@.take(r0.len() as int) == r0,
                forall|jj: int, t: int| 0 <= jj < j && #[trigger] static_edge(ns, i as int, jj, t) ==> visited@[t]
                    && holds_globals(ns, t, result@),
                f1 == (fuel - 1) as nat,
                f1 >= unvisited_count(visited@),
                syms_v(result@) + edges_walk_s(ns, i as int, j as int, visited@, f1).0 == syms_v(r0) + edges_walk_s(
                    ns,
                    i as int,
                    0,
                    v1,
                    f1,
                ).0,
                edges_walk_s(ns, i as int, j as int, visited@, f1).1 == edges_walk_s(ns, i as int, 0, v1, f1).1,
            decreases edges.len() - j,
        {
            let e = &edges[j];
            let ghost vj = visited@;
            let ghost rj = result@;
            if !e.dynamic {
                match index_of(&self.nodes, e.target.as_str()) {
                    Some(t) => {
                        let ghost vb = visited@;
                        let ghost rb = result@;
                        proof {
                            assert(static_edge(ns, i as int, j as int, t as int));
                            assert(static_step(ns, i as int, t as int));
                            lemma_reach0_step(ns, start, i as int, t as int);
                            lemma_unvisited_count_mono(v0, vb);
                            lemma_index_s_found(ns, e.target@, 0, t as int);
                        }
                        self.collect_imported_symbols(t, result, visited, Ghost(start), Ghost(gray2), Ghost(f1));
                        let ghost rc = result@;
                        assert(self.nodes@[t as int].symbols.wf());
                        let globals = self.nodes[t].symbols.global_symbols();
                        let mut m: usize = 0;
                        while m < globals.len()
                            invariant
                                self.wf(),
                                ns == self.files(),
                                (t as int) < ns.len(),
                                sourced_from(ns, start, t as int),
                                m <= globals@.len(),
                                collect_inv(ns, start, visited@, gray2, result@),
                                result@.len() == rc.len() + m,
                                result@.take(rc.len() as int) == rc,
                                forall|q: int| 0 <= q < m ==> result@[rc.len() + q] == globals@[q],
                                forall|q: int| 0 <= q < globals@.len() ==> globals_of(ns, t as int).contains_key(
                                    (#[trigger] globals@[q]).name@,
                                ) && globals_of(ns, t as int)[globals@[q].name@] == symbol_v(*globals@[q]),
                                forall|nm: Seq<char>| #[trigger] globals_of(ns, t as int).contains_key(nm) ==> exists|q: int|
                                    0 <= q < globals@.len() && globals@[q].name@ == nm,
                            decreases globals.len() - m,
                        {
                            let ghost rm = result@;
                            result.push(globals[m]);
                            proof {
                                assert(result@.drop_last() == rm);
                                assert forall|x: int, tt: int|
                                    0 <= x < ns.len() && visited@[x] && !gray2.contains(x) && #[trigger] static_step(ns, x, tt) implies visited@[tt]
                                        && holds_globals(ns, tt, result@) by {
                                    assert(result@.take(rm.len() as int) =~= rm);
                                    lemma_holds_globals_grow(ns, tt, rm, result@);
                                }
                                assert forall|k: int| 0 <= k < result@.len() implies imported_from(ns, start, symbol_v(*result@[k])) by {
                                    if k == result@.len() - 1 {
                                        let g = globals@[m as int];
                                        assert(globals_of(ns, t as int).contains_key(g.name@));
                                        assert(symbol_v(*g).name == g.name@);
                                    } else {
                                        assert(result@[k] == rm[k]);
                                    }
                                }
                                assert(result@.take(rc.len() as int) =~= rm.take(rc.len() as int));
                            }
                            m = m + 1;
                        }
                        proof {
                            let gs = Seq::new(globals@.len(), |q: int| symbol_v(*globals@[q]));
                            assert(gs == globals_seq(ns, t as int));
                            assert(syms_v(result@) =~= syms_v(rc) + gs);
                            let w = walk_s(ns, t as int, vb, f1);
                            let nx = edges_walk_s(ns, i as int, j + 1, w.1, f1);
                            assert(edges_walk_s(ns, i as int, j as int, vb, f1) == (w.0 + globals_seq(ns, t as int) + nx.0, nx.1));
                            assert(syms_v(rc) == syms_v(rb) + w.0);
                            assert(syms_v(result@) + nx.0 =~= syms_v(rb) + edges_walk_s(ns, i as int, j as int, vb, f1).0);
                            lemma_unvisited_count_mono(vb, visited@);
                            assert forall|nm: Seq<char>| #[trigger] globals_of(ns, t as int).contains_key(nm) implies exists|k: int|
                                0 <= k < result@.len() && symbol_v(*result@[k]) == globals_of(ns, t as int)[nm] by {
                                let q = choose|q: int| 0 <= q < globals@.len() && globals@[q].name@ == nm;
                                assert(result@[rc.len() + q] == globals@[q]);
                            }
                            assert(holds_globals(ns, t as int, result@));
                            assert(result@.take(r0.len() as int) =~= result@.take(rb.len() as int).take(r0.len() as int));
                            assert(result@.take(rb.len() as int) =~= rc.take(rb.len() as int));
                            assert forall|jj: int, tt: int| 0 <= jj <= j && #[trigger] static_edge(ns, i as int, jj, tt) implies visited@[tt]
                                && holds_globals(ns, tt, result@) by {
                                if jj == j {
                                    assert(ns[tt].path@ == ns[t as int].path@);
                                    assert(tt == t as int);
                                } else {
                                    assert(result@.take(rb.len() as int) == rb);
                                    lemma_holds_globals_grow(ns, tt, rb, result@);
                                }
                            }
                        }
                    },
                    None => {
                        assert forall|jj: int, tt: int| 0 <= jj <= j && #[trigger] static_edge(ns, i as int, jj, tt) implies visited@[tt]
                            && holds_globals(ns, tt, result@) by {
                            if jj == j {
                                assert(ns[tt].path@ == ns[i as int].edges@[j as int].target@);
                            }
                        }
                        proof {
                            lemma_index_s_none(ns, e.target@, 0);
                            assert(edges_walk_s(ns, i as int, j as int, vj, f1) == edges_walk_s(ns, i as int, j + 1, vj, f1));
                        }
                    },
                }
            } else {
                assert(edges_walk_s(ns, i as int, j as int, vj, f1) == edges_walk_s(ns, i as int, j + 1, vj, f1));
            }
            j = j + 1;
        }
        proof {
            assert(syms_v(result@) =~= syms_v(r0) + edges_walk_s(ns, i as int, 0, v1, f1).0);
            assert forall|x: int, t: int|
                0 <= x < ns.len() && visited@[x] && !gray.contains(x) && #[trigger] static_step(ns, x, t) implies visited@[t]
                    && holds_globals(ns, t, result@) by {
                if x == i as int {
                    let jj = choose|jj: int| #[trigger] static_edge(ns, x, jj, t);
                    assert(static_edge(ns, i as int, jj, t));
                }
            }
        }
    }

    /// The global symbols of the files that `path` sources, directly or
    /// through other files, by static `source` edges: each collected symbol
    /// is one of them, and each of them is collected. In order, as
    /// `imported_s` states: for each static edge, what the sourced file
    /// imports (each file entered once, so cycles end), then its globals.
    pub fn imported_symbols(&self, path: &str) -> (r: Vec<&Symbol>)
        requires
            self.wf(),
        ensures
            forall|s: int| 0 <= s < self.files().len() && self.files()[s].path@ == path@ ==> {
                &&& forall|k: int| 0 <= k < r@.len() ==> imported_from(self.files(), s, symbol_v(*r@[k]))
                &&& forall|t: int| #[trigger] sourced_from(self.files(), s, t) ==> holds_globals(self.files(), t, r@)
            },
            (forall|s: int| 0 <= s < self.files().len() ==> self.files()[s].path@ != path@) ==> r@.len() == 0,
            syms_v(r@) == imported_s(self.files(), path@),
    {
        let ghost ns = self.files();
        let mut result: Vec<&Symbol> = Vec::new();
        let start = match index_of(&self.nodes, path) {
            Some(s) => s,
            None => {
                proof {
                    lemma_index_s_none(ns, path@, 0);
                    assert(syms_v(result@) =~= Seq::<crate::scope::SymbolV>::empty());
                }
                return result;
            },
        };
        proof {
            lemma_index_s_found(ns, path@, 0, start as int);
        }
        let n = self.nodes.len();
        let mut visited: Vec<bool> = Vec::new();
        let mut i: usize = 0;
        while i < n
            invariant
                i <= n,
                n == self.nodes@.len(),
                visited@.len() == i,
                forall|k: int| 0 <= k < i ==> !visited@[k],
            decreases n - i,
        {
            visited.push(false);
            i = i + 1;
        }
        proof {
            let p = seq![start as int];
            assert(static_path(ns, p));
            assert(reach0(ns, start as int, start as int));
        }
        proof {
            assert(visited@ =~= Seq::new(ns.len(), |k: int| false));
            lemma_unvisited_count_le(visited@);
            assert(syms_v(result@) =~= Seq::<crate::scope::SymbolV>::empty());
        }
        self.collect_imported_symbols(
            start,
            &mut result,
            &mut visited,
            Ghost(start as int),
            Ghost(Set::<int>::empty()),
            Ghost(ns.len()),
        );
        assert(syms_v(result@) =~= imported_s(ns, path@));
        proof {
            assert forall|s: int| 0 <= s < ns.len() && ns[s].path@ == path@ implies s == start as int by {
                if s != start as int {
                    assert(ns[s].path@ != ns[start as int].path@);
                }
            }
            assert forall|t: int| #[trigger] sourced_from(ns, start as int, t) implies holds_globals(ns, t, result@) by {
                let x = choose|x: int| reach0(ns, start as int, x) && #[trigger] static_step(ns, x, t);
                let p = choose|p: Seq<int>| #[trigger] static_path(ns, p) && p[0] == start as int && p.last() == x;
                lemma_collect_closed(ns, start as int, visited@, result@, p);
            }
        }
        result
    }
}

proof fn lemma_collect_closed<'a>(nodes: Seq<SourceNode>, start: int, vis: Seq<bool>, r: Seq<&'a Symbol>, p: Seq<int>)
    requires
        collect_inv(nodes, start, vis, Set::empty(), r),
        static_path(nodes, p),
        vis[p[0]],
    ensures
        vis[p.last()],
        forall|t: int| #[trigger] static_step(nodes, p.last(), t) ==> holds_globals(nodes, t, r),
    decreases p.len(),
{
    if p.len() > 1 {
        let q = p.drop_last();
        assert forall|k: int| 0 <= k < q.len() - 1 implies #[trigger] static_step(nodes, q[k], q[k + 1]) by {
            assert(static_step(nodes, p[k], p[k + 1]));
        }
        lemma_collect_closed(nodes, start, vis, r, q);
        let m = p.len() - 2;
        assert(static_step(nodes, p[m], p[m + 1]));
        let j = choose|j: int| #[trigger] static_edge(nodes, p[m], j, p[m + 1]);
        assert(0 <= q.last() < nodes.len());
    }
    assert(0 <= p.last() < nodes.len()) by {
        if p.len() > 1 {
            let m = p.len() - 2;
            assert(static_step(nodes, p[m], p[m + 1]));
        }
    }
}


// ---------------------------------------------------------------------------
// Cycles
// ---------------------------------------------------------------------------

/// What `finish` establishes of its order: it holds each file once, and
/// every static edge leads back in the order, unless it closes a cycle
/// (its target reaches its source) and a cycle was reported.
pub open spec fn topo_sound(files: Seq<SourceNode>, ord: Seq<usize>, diags: Seq<(String, Diagnostic)>) -> bool {
    &&& ord.len() == files.len()
    &&& forall|k: int| 0 <= k < ord.len() ==> (ord[k] as int) < files.len()
    &&& forall|k: int, l: int| 0 <= k < l < ord.len() ==> ord[k] != ord[l]
    &&& forall|t: int| 0 <= t < files.len() ==> in_order(ord, t)
    &&& forall|k1: int, j: int, t: int|
        0 <= k1 < ord.len() && #[trigger] static_edge(files, ord[k1] as int, j, t) ==> (exists|k2: int|
            0 <= k2 < k1 && ord[k2] as int == t) || (cycle_reported(diags) && reach0(files, t, ord[k1] as int))
}

pub open spec fn pos_of(ord: Seq<usize>, t: int) -> int {
    choose|k: int| 0 <= k < ord.len() && ord[k] as int == t
}

proof fn lemma_path_descends(files: Seq<SourceNode>, ord: Seq<usize>, diags: Seq<(String, Diagnostic)>, p: Seq<int>)
    requires
        topo_sound(files, ord, diags),
        !cycle_reported(diags),
        static_path(files, p),
    ensures
        0 <= p.last() < files.len(),
        in_order(ord, p.last()),
        p.len() >= 2 ==> pos_of(ord, p.last()) < pos_of(ord, p[0]),
        0 <= pos_of(ord, p.last()) < ord.len() && ord[pos_of(ord, p.last())] as int == p.last(),
    decreases p.len(),
{
    if p.len() == 1 {
        assert(in_order(ord, p[0]));
    } else {
        let q = p.drop_last();
        assert forall|k: int| 0 <= k < q.len() - 1 implies #[trigger] static_step(files, q[k], q[k + 1]) by {
            assert(static_step(files, p[k], p[k + 1]));
        }
        lemma_path_descends(files, ord, diags, q);
        let m = p.len() - 2;
        assert(static_step(files, p[m], p[m + 1]));
        let j = choose|j: int| #[trigger] static_edge(files, p[m], j, p[m + 1]);
        let u = q.last();
        let t = p.last();
        let k1 = pos_of(ord, u);
        assert(static_edge(files, ord[k1] as int, j, t));
        let k2 = choose|k2: int| 0 <= k2 < k1 && ord[k2] as int == t;
        assert(in_order(ord, t));
        let kt = pos_of(ord, t);
        if kt != k2 {
            if kt < k2 {
                assert(ord[kt] != ord[k2]);
            } else {
                assert(ord[k2] != ord[kt]);
            }
        }
    }
}

/// A file that sources itself, directly or through other files, by static
/// edges is reported as a cycle (BT702) by an order that `finish` built.
pub proof fn lemma_cycle_is_reported(files: Seq<SourceNode>, ord: Seq<usize>, diags: Seq<(String, Diagnostic)>, p: Seq<int>)
    requires
        topo_sound(files, ord, diags),
        static_path(files, p),
        p.len() >= 2,
        p.last() == p[0],
    ensures
        cycle_reported(diags),
{
    if !cycle_reported(diags) {
        lemma_path_descends(files, ord, diags, p);
    }
}


// ---------------------------------------------------------------------------
// One edge per `source` command, in document order
// ---------------------------------------------------------------------------

/// `s` and the statements nested in it, in document order: the conditions
/// and branches of an `if`, the body of a `for`, the condition and body of a
/// `while`, the arms of a `case`, the elements of a list, the commands of a
/// pipeline and the body of a block.
pub open spec fn nested_s(s: StatementV) -> Seq<StatementV>
    decreases s, 0int,
{
    seq![s] + match s {
        StatementV::If { condition, then_body, else_body, .. } => nested_all_s(condition, 0) + nested_all_s(then_body, 0)
            + match else_body {
            Some(e) => nested_all_s(e, 0),
            None => Seq::empty(),
        },
        StatementV::For { body, .. } => nested_all_s(body, 0),
        StatementV::While { condition, body, .. } => nested_all_s(condition, 0) + nested_all_s(body, 0),
        StatementV::Case { arms, .. } => nested_arms_s(arms, 0),
        StatementV::List { elements, .. } => nested_elements_s(elements, 0),
        StatementV::Pipeline { commands, .. } => nested_all_s(commands, 0),
        StatementV::Block { body, .. } => nested_all_s(body, 0),
        _ => Seq::empty(),
    }
}

pub open spec fn nested_all_s(ss: Seq<StatementV>, i: int) -> Seq<StatementV>
    decreases ss, ss.len() - i,
{
    if i < 0 || i >= ss.len() {
        Seq::empty()
    } else {
        nested_s(ss[i]) + nested_all_s(ss, i + 1)
    }
}

pub open spec fn nested_arms_s(arms: Seq<CaseArmV>, i: int) -> Seq<StatementV>
    decreases arms, arms.len() - i,
{
    if i < 0 || i >= arms.len() {
        Seq::empty()
    } else {
        nested_all_s(arms[i].body, 0) + nested_arms_s(arms, i + 1)
    }
}

pub open spec fn nested_elements_s(es: Seq<ListElementV>, i: int) -> Seq<StatementV>
    decreases es, es.len() - i,
{
    if i < 0 || i >= es.len() {
        Seq::empty()
    } else {
        nested_s(es[i].statement) + nested_elements_s(es, i + 1)
    }
}

/// The statements of a file, each with those nested in it, in document order.
pub open spec fn nested_items_s(items: Seq<ItemV>, i: int) -> Seq<StatementV>
    decreases items.len() - i,
{
    if i < 0 || i >= items.len() {
        Seq::empty()
    } else {
        (match items[i] {
            ItemV::Function(f) => nested_all_s(f.body, 0),
            ItemV::Statement(s) => nested_s(s),
        }) + nested_items_s(items, i + 1)
    }
}

/// The edge of each `source` command among `fs`, in order.
pub open spec fn source_commands_edges(fs: Seq<StatementV>, dir: Seq<char>) -> Seq<EdgeV>
    decreases fs.len(),
{
    if fs.len() == 0 {
        Seq::empty()
    } else {
        (match fs[0] {
            StatementV::SourceCommand { span, path, dynamic, .. } => seq![
                EdgeV { target: edge_target_s(path, dynamic, dir), span, dynamic },
            ],
            _ => Seq::empty(),
        }) + source_commands_edges(fs.drop_first(), dir)
    }
}

proof fn lemma_source_commands_edges_add(a: Seq<StatementV>, b: Seq<StatementV>, dir: Seq<char>)
    ensures
        source_commands_edges(a + b, dir) == source_commands_edges(a, dir) + source_commands_edges(b, dir),
    decreases a.len(),
{
    if a.len() == 0 {
        assert(a + b =~= b);
        assert(source_commands_edges(a, dir) + source_commands_edges(b, dir) =~= source_commands_edges(b, dir));
    } else {
        assert((a + b).drop_first() =~= a.drop_first() + b);
        assert((a + b)[0] == a[0]);
        lemma_source_commands_edges_add(a.drop_first(), b, dir);
        let h = source_commands_edges(seq![a[0]], dir);
        assert(source_commands_edges(a + b, dir) =~= source_commands_edges(a, dir) + source_commands_edges(b, dir));
    }
}

#[verifier::spinoff_prover]
#[verifier::rlimit(50)]
proof fn lemma_stmt_edges_nested(s: StatementV, dir: Seq<char>)
    ensures
        stmt_edges_s(s, dir) == source_commands_edges(nested_s(s), dir),
    decreases s, 0int,
{
    let inner = nested_s(s).drop_first();
    assert(nested_s(s) =~= seq![s] + inner);
    lemma_source_commands_edges_add(seq![s], inner, dir);
    assert(seq![s].drop_first() =~= Seq::<StatementV>::empty());
    assert(source_commands_edges(Seq::<StatementV>::empty(), dir) =~= Seq::<EdgeV>::empty());
    if !(s is SourceCommand) {
        assert(source_commands_edges(seq![s], dir) =~= Seq::<EdgeV>::empty());
        assert(source_commands_edges(nested_s(s), dir) =~= source_commands_edges(inner, dir));
    }
    if let StatementV::If { condition, then_body, else_body, .. } = s {
        lemma_stmts_edges_nested(condition, 0, dir);
        lemma_stmts_edges_nested(then_body, 0, dir);
        let ct = nested_all_s(condition, 0) + nested_all_s(then_body, 0);
        lemma_source_commands_edges_add(nested_all_s(condition, 0), nested_all_s(then_body, 0), dir);
        if let Some(e) = else_body {
            lemma_stmts_edges_nested(e, 0, dir);
            lemma_source_commands_edges_add(ct, nested_all_s(e, 0), dir);
            assert(inner == ct + nested_all_s(e, 0));
            assert(source_commands_edges(inner, dir) == stmts_edges_s(condition, 0, dir) + stmts_edges_s(then_body, 0, dir)
                + stmts_edges_s(e, 0, dir));
            assert(stmt_edges_s(s, dir) == stmts_edges_s(condition, 0, dir) + stmts_edges_s(then_body, 0, dir)
                + stmts_edges_s(e, 0, dir));
        } else {
            assert(inner =~= ct);
            assert(source_commands_edges(inner, dir) == stmts_edges_s(condition, 0, dir) + stmts_edges_s(then_body, 0, dir));
            assert(stmt_edges_s(s, dir) =~= stmts_edges_s(condition, 0, dir) + stmts_edges_s(then_body, 0, dir));
        }
        assert(source_commands_edges(seq![s], dir) =~= Seq::<EdgeV>::empty());
        let x = stmt_edges_s(s, dir);
        assert(source_commands_edges(inner, dir) == x);
        assert(source_commands_edges(seq![s] + inner, dir) == source_commands_edges(seq![s], dir) + source_commands_edges(inner, dir));
        assert(Seq::<EdgeV>::empty() + x =~= x);
        assert(source_commands_edges(seq![s] + inner, dir) == x);
        assert(nested_s(s) == seq![s] + inner);
        assert(source_commands_edges(nested_s(s), dir) == x);
    } else {
        match s {
            StatementV::For { body, .. } => {
                lemma_stmts_edges_nested(body, 0, dir);
                assert(inner =~= nested_all_s(body, 0));
                assert(stmt_edges_s(s, dir) == source_commands_edges(nested_s(s), dir));
            },
            StatementV::While { condition, body, .. } => {
                lemma_stmts_edges_nested(condition, 0, dir);
                lemma_stmts_edges_nested(body, 0, dir);
                lemma_source_commands_edges_add(nested_all_s(condition, 0), nested_all_s(body, 0), dir);
                assert(inner =~= nested_all_s(condition, 0) + nested_all_s(body, 0));
                assert(stmt_edges_s(s, dir) == source_commands_edges(nested_s(s), dir));
            },
            StatementV::Case { arms, .. } => {
                lemma_arms_edges_nested(arms, 0, dir);
                assert(inner =~= nested_arms_s(arms, 0));
                assert(stmt_edges_s(s, dir) == source_commands_edges(nested_s(s), dir));
            },
            StatementV::List { elements, .. } => {
                lemma_elements_edges_nested(elements, 0, dir);
                assert(inner =~= nested_elements_s(elements, 0));
                assert(stmt_edges_s(s, dir) == source_commands_edges(nested_s(s), dir));
            },
            StatementV::Pipeline { commands, .. } => {
                lemma_stmts_edges_nested(commands, 0, dir);
                assert(inner =~= nested_all_s(commands, 0));
                assert(stmt_edges_s(s, dir) == source_commands_edges(nested_s(s), dir));
            },
            StatementV::Block { body, .. } => {
                lemma_stmts_edges_nested(body, 0, dir);
                assert(inner =~= nested_all_s(body, 0));
                assert(stmt_edges_s(s, dir) == source_commands_edges(nested_s(s), dir));
            },
            _ => {
                assert(inner.len() == 0);
                assert(nested_s(s) =~= seq![s]);
                assert(seq![s].drop_first() =~= Seq::<StatementV>::empty());
                assert(source_commands_edges(Seq::<StatementV>::empty(), dir) =~= Seq::<EdgeV>::empty());
                assert(stmt_edges_s(s, dir) =~= source_commands_edges(seq![s], dir));
            },
        }
    }
}

proof fn lemma_stmts_edges_nested(ss: Seq<StatementV>, i: int, dir: Seq<char>)
    ensures
        stmts_edges_s(ss, i, dir) == source_commands_edges(nested_all_s(ss, i), dir),
    decreases ss, ss.len() - i,
{
    if 0 <= i < ss.len() {
        lemma_stmt_edges_nested(ss[i], dir);
        lemma_stmts_edges_nested(ss, i + 1, dir);
        lemma_source_commands_edges_add(nested_s(ss[i]), nested_all_s(ss, i + 1), dir);
    }
}

proof fn lemma_arms_edges_nested(arms: Seq<CaseArmV>, i: int, dir: Seq<char>)
    ensures
        arms_edges_s(arms, i, dir) == source_commands_edges(nested_arms_s(arms, i), dir),
    decreases arms, arms.len() - i,
{
    if 0 <= i < arms.len() {
        lemma_stmts_edges_nested(arms[i].body, 0, dir);
        lemma_arms_edges_nested(arms, i + 1, dir);
        lemma_source_commands_edges_add(nested_all_s(arms[i].body, 0), nested_arms_s(arms, i + 1), dir);
    }
}

proof fn lemma_elements_edges_nested(es: Seq<ListElementV>, i: int, dir: Seq<char>)
    ensures
        elements_edges_s(es, i, dir) == source_commands_edges(nested_elements_s(es, i), dir),
    decreases es, es.len() - i,
{
    if 0 <= i < es.len() {
        lemma_stmt_edges_nested(es[i].statement, dir);
        lemma_elements_edges_nested(es, i + 1, dir);
        lemma_source_commands_edges_add(nested_s(es[i].statement), nested_elements_s(es, i + 1), dir);
    }
}

/// The edges of a file are one per `source` command among its statements
/// and those nested in them (in the branches of an `if`, the bodies of
/// loops, the arms of a `case`, list elements, pipelines, blocks and
/// function bodies), in document order.
pub proof fn lemma_one_edge_per_source_command(items: Seq<ItemV>, i: int, dir: Seq<char>)
    ensures
        items_edges_s(items, i, dir) == source_commands_edges(nested_items_s(items, i), dir),
    decreases items.len() - i,
{
    if 0 <= i < items.len() {
        lemma_one_edge_per_source_command(items, i + 1, dir);
        match items[i] {
            ItemV::Function(f) => {
                lemma_stmts_edges_nested(f.body, 0, dir);
                lemma_source_commands_edges_add(nested_all_s(f.body, 0), nested_items_s(items, i + 1), dir);
            },
            ItemV::Statement(s) => {
                lemma_stmt_edges_nested(s, dir);
                lemma_source_commands_edges_add(nested_s(s), nested_items_s(items, i + 1), dir);
            },
        }
    }
}

} // verus!
