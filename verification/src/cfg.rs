//! Control flow graphs of function bodies and top-level scripts.
use vstd::prelude::*;
use crate::hir::{
    CaseArm, CaseArmV, ListElementV, ListOperator, NodeId, SegmentV, Statement, StatementV, Word,
    WordSegment, WordV, arm_v, arms_v, elements_v, seg_v, segs_v, stmt_v, stmts_v, word_v, words_v,
};
use crate::text::str_eq;

verus! {

/// Identifies a basic block: its index in the graph.
#[derive(Debug, Clone, Copy, PartialEq, Eq, Hash, Structural)]
pub struct BlockId(pub u32);

/// The kind of an edge between basic blocks.
#[derive(Debug, Clone, Copy, PartialEq, Eq, Structural)]
#[non_exhaustive]
pub enum EdgeKind {
    /// Fall-through to the next block.
    Unconditional,
    /// Taken when a condition holds (then-branch, loop body, `&&`).
    ConditionalTrue,
    /// Taken when a condition fails (else-branch, loop exit, `||`).
    ConditionalFalse,
    /// Back to a loop header.
    LoopBack,
}

/// A straight-line sequence of HIR nodes with its edges.
#[derive(Debug, Clone)]
pub struct BasicBlock {
    pub id: BlockId,
    /// The statements of the block, in execution order.
    pub nodes: Vec<NodeId>,
    pub successors: Vec<(BlockId, EdgeKind)>,
    pub predecessors: Vec<BlockId>,
}

pub struct BlockV {
    pub id: BlockId,
    pub nodes: Seq<NodeId>,
    pub successors: Seq<(BlockId, EdgeKind)>,
    pub predecessors: Seq<BlockId>,
}

impl View for BasicBlock {
    type V = BlockV;

    open spec fn view(&self) -> BlockV {
        BlockV { id: self.id, nodes: self.nodes@, successors: self.successors@, predecessors: self.predecessors@ }
    }
}

pub open spec fn blocks_v(b: Seq<BasicBlock>) -> Seq<BlockV> {
    Seq::new(b.len(), |i: int| b[i]@)
}

// ---------------------------------------------------------------------------
// The construction, over the model of the HIR
// ---------------------------------------------------------------------------

pub open spec fn empty_block(id: nat) -> BlockV {
    BlockV { id: BlockId(id as u32), nodes: Seq::empty(), successors: Seq::empty(), predecessors: Seq::empty() }
}

/// A new empty block at the end; its index.
pub open spec fn new_block_s(g: Seq<BlockV>) -> (Seq<BlockV>, nat) {
    (g.push(empty_block(g.len())), g.len())
}

/// An edge from `from` to `to`: a successor of `from`, then a predecessor of `to`.
pub open spec fn add_edge_s(g: Seq<BlockV>, from: nat, to: nat, kind: EdgeKind) -> Seq<BlockV> {
    let g1 = g.update(from as int, BlockV { successors: g[from as int].successors.push((BlockId(to as u32), kind)), ..g[from as int] });
    g1.update(to as int, BlockV { predecessors: g1[to as int].predecessors.push(BlockId(from as u32)), ..g1[to as int] })
}

pub open spec fn add_node_s(g: Seq<BlockV>, b: nat, n: NodeId) -> Seq<BlockV> {
    g.update(b as int, BlockV { nodes: g[b as int].nodes.push(n), ..g[b as int] })
}

/// A case arm whose first pattern begins with the literal `*`.
pub open spec fn is_default_pattern(p: WordV) -> bool {
    p.segments.len() > 0 && p.segments[0] == SegmentV::Literal("*"@)
}

pub open spec fn has_default_s(arms: Seq<CaseArmV>) -> bool {
    exists|i: int, j: int|
        0 <= i < arms.len() && 0 <= j < arms[i].patterns.len() && #[trigger] is_default_pattern(arms[i].patterns[j])
}

/// The graph after adding statement `s`, entered from block `cur`, and the
/// block where control leaves it.
pub open spec fn build_stmt_s(s: StatementV, cur: nat, g: Seq<BlockV>) -> (Seq<BlockV>, nat)
    decreases s, 0int,
{
    match s {
        StatementV::Assignment { id, .. } => (add_node_s(g, cur, id), cur),
        StatementV::Command { id, .. } => (add_node_s(g, cur, id), cur),
        StatementV::SourceCommand { id, .. } => (add_node_s(g, cur, id), cur),
        StatementV::Pipeline { id, .. } => (add_node_s(g, cur, id), cur),
        StatementV::Unmodeled { id, .. } => (add_node_s(g, cur, id), cur),
        StatementV::If { condition, then_body, else_body, .. } => {
            let (g1, ce) = build_stmts_s(condition, 0, cur, g);
            let (g2, te) = new_block_s(g1);
            let g3 = add_edge_s(g2, ce, te, EdgeKind::ConditionalTrue);
            let (g4, tx) = build_stmts_s(then_body, 0, te, g3);
            let (g5, join) = new_block_s(g4);
            let g6 = add_edge_s(g5, tx, join, EdgeKind::Unconditional);
            match else_body {
                Some(e) => {
                    let (g7, ee) = new_block_s(g6);
                    let g8 = add_edge_s(g7, ce, ee, EdgeKind::ConditionalFalse);
                    let (g9, ex) = build_stmts_s(e, 0, ee, g8);
                    (add_edge_s(g9, ex, join, EdgeKind::Unconditional), join)
                },
                None => (add_edge_s(g6, ce, join, EdgeKind::ConditionalFalse), join),
            }
        },
        StatementV::For { id, body, .. } => {
            let (g1, h) = new_block_s(g);
            let g2 = add_node_s(g1, h, id);
            let g3 = add_edge_s(g2, cur, h, EdgeKind::Unconditional);
            let (g4, be) = new_block_s(g3);
            let g5 = add_edge_s(g4, h, be, EdgeKind::ConditionalTrue);
            let (g6, bx) = build_stmts_s(body, 0, be, g5);
            let g7 = add_edge_s(g6, bx, h, EdgeKind::LoopBack);
            let (g8, ex) = new_block_s(g7);
            (add_edge_s(g8, h, ex, EdgeKind::ConditionalFalse), ex)
        },
        StatementV::While { condition, body, .. } => {
            let (g1, h) = new_block_s(g);
            let g2 = add_edge_s(g1, cur, h, EdgeKind::Unconditional);
            let (g3, ce) = build_stmts_s(condition, 0, h, g2);
            let (g4, be) = new_block_s(g3);
            let g5 = add_edge_s(g4, ce, be, EdgeKind::ConditionalTrue);
            let (g6, bx) = build_stmts_s(body, 0, be, g5);
            let g7 = add_edge_s(g6, bx, h, EdgeKind::LoopBack);
            let (g8, ex) = new_block_s(g7);
            (add_edge_s(g8, ce, ex, EdgeKind::ConditionalFalse), ex)
        },
        StatementV::Case { id, arms, .. } => {
            let g1 = add_node_s(g, cur, id);
            let (g2, join) = new_block_s(g1);
            let g3 = case_arms_s(arms, 0, cur, join, g2);
            if has_default_s(arms) {
                (g3, join)
            } else {
                (add_edge_s(g3, cur, join, EdgeKind::ConditionalFalse), join)
            }
        },
        StatementV::List { elements, .. } => {
            let (g1, join) = new_block_s(g);
            let (g2, c) = list_s(elements, 0, cur, join, g1);
            (add_edge_s(g2, c, join, EdgeKind::Unconditional), join)
        },
        StatementV::Block { body, .. } => build_stmts_s(body, 0, cur, g),
    }
}

pub open spec fn build_stmts_s(ss: Seq<StatementV>, i: int, cur: nat, g: Seq<BlockV>) -> (Seq<BlockV>, nat)
    decreases ss, ss.len() - i,
{
    if i < 0 || i >= ss.len() {
        (g, cur)
    } else {
        let (g1, c1) = build_stmt_s(ss[i], cur, g);
        build_stmts_s(ss, i + 1, c1, g1)
    }
}

/// Each arm from `i` on: a block entered from `cur` when the arm matches,
/// its body, and an edge to `join`.
pub open spec fn case_arms_s(arms: Seq<CaseArmV>, i: int, cur: nat, join: nat, g: Seq<BlockV>) -> Seq<BlockV>
    decreases arms, arms.len() - i,
{
    if i < 0 || i >= arms.len() {
        g
    } else {
        let (g1, e) = new_block_s(g);
        let g2 = add_edge_s(g1, cur, e, EdgeKind::ConditionalTrue);
        let (g3, x) = build_stmts_s(arms[i].body, 0, e, g2);
        let g4 = add_edge_s(g3, x, join, EdgeKind::Unconditional);
        case_arms_s(arms, i + 1, cur, join, g4)
    }
}

/// The elements of a list from `i` on. After an element followed by `&&`,
/// success goes on to a new block and failure to `join`; after `||` the
/// other way round; otherwise the flow goes on in the same block.
pub open spec fn list_s(es: Seq<ListElementV>, i: int, cur: nat, join: nat, g: Seq<BlockV>) -> (Seq<BlockV>, nat)
    decreases es, es.len() - i,
{
    if i < 0 || i >= es.len() {
        (g, cur)
    } else {
        let (g1, c1) = build_stmt_s(es[i].statement, cur, g);
        if i + 1 < es.len() && es[i].operator == Some(ListOperator::And) {
            let (g2, nx) = new_block_s(g1);
            let g3 = add_edge_s(g2, c1, nx, EdgeKind::ConditionalTrue);
            let g4 = add_edge_s(g3, c1, join, EdgeKind::ConditionalFalse);
            list_s(es, i + 1, nx, join, g4)
        } else if i + 1 < es.len() && es[i].operator == Some(ListOperator::Or) {
            let (g2, nx) = new_block_s(g1);
            let g3 = add_edge_s(g2, c1, nx, EdgeKind::ConditionalFalse);
            let g4 = add_edge_s(g3, c1, join, EdgeKind::ConditionalTrue);
            list_s(es, i + 1, nx, join, g4)
        } else {
            list_s(es, i + 1, c1, join, g1)
        }
    }
}

/// The graph of a statement sequence: entry block 0, exit block 1, the
/// statements from the entry, and an edge from where they end to the exit.
pub open spec fn cfg_s(ss: Seq<StatementV>) -> Seq<BlockV> {
    let (g1, entry) = new_block_s(Seq::empty());
    let (g2, exit) = new_block_s(g1);
    let (g3, last) = build_stmts_s(ss, 0, entry, g2);
    add_edge_s(g3, last, exit, EdgeKind::Unconditional)
}

/// An upper bound on the blocks that a statement adds.
pub open spec fn stmt_weight(s: StatementV) -> nat
    decreases s, 0int,
{
    match s {
        StatementV::If { condition, then_body, else_body, .. } => 3 + stmts_weight(condition, 0) + stmts_weight(
            then_body,
            0,
        ) + match else_body {
            Some(e) => stmts_weight(e, 0),
            None => 0,
        },
        StatementV::For { body, .. } => 3 + stmts_weight(body, 0),
        StatementV::While { condition, body, .. } => 3 + stmts_weight(condition, 0) + stmts_weight(body, 0),
        StatementV::Case { arms, .. } => 1 + arms_weight(arms, 0),
        StatementV::List { elements, .. } => 1 + elements_weight(elements, 0),
        StatementV::Block { body, .. } => stmts_weight(body, 0),
        _ => 0,
    }
}

pub open spec fn stmts_weight(ss: Seq<StatementV>, i: int) -> nat
    decreases ss, ss.len() - i,
{
    if i < 0 || i >= ss.len() {
        0
    } else {
        stmt_weight(ss[i]) + stmts_weight(ss, i + 1)
    }
}

pub open spec fn arms_weight(arms: Seq<CaseArmV>, i: int) -> nat
    decreases arms, arms.len() - i,
{
    if i < 0 || i >= arms.len() {
        0
    } else {
        1 + stmts_weight(arms[i].body, 0) + arms_weight(arms, i + 1)
    }
}

pub open spec fn elements_weight(es: Seq<ListElementV>, i: int) -> nat
    decreases es, es.len() - i,
{
    if i < 0 || i >= es.len() {
        0
    } else {
        1 + stmt_weight(es[i].statement) + elements_weight(es, i + 1)
    }
}

/// The shape that every graph built here has: block `i` has id `i`; every
/// successor and predecessor is a block of the graph; an edge from `a` to
/// `b` is listed among the successors of `a` and `a` among the predecessors
/// of `b`, each side only where the other is, and as many times on each
/// side (`counts_match`).
pub open spec fn graph_wf(g: Seq<BlockV>) -> bool {
    &&& g.len() <= u32::MAX
    &&& forall|b: int| 0 <= b < g.len() ==> (#[trigger] g[b]).id == BlockId(b as u32)
    &&& edges_in_range(g)
    &&& forall|b: int, k: int|
        0 <= b < g.len() && 0 <= k < g[b].predecessors.len() ==> ((#[trigger] g[b].predecessors[k]).0 as int) < g.len()
    &&& forall|b: int, j: int|
        0 <= b < g.len() && 0 <= j < g[b].successors.len() ==> #[trigger] has_pred(g, g[b].successors[j].0.0 as int, b)
    &&& forall|b: int, k: int|
        0 <= b < g.len() && 0 <= k < g[b].predecessors.len() ==> #[trigger] has_edge(g, g[b].predecessors[k].0 as int, b)
    &&& counts_match(g)
}

/// The number of edges to block `v` among `s`.
pub open spec fn count_succ(s: Seq<(BlockId, EdgeKind)>, v: int) -> nat
    decreases s.len(),
{
    if s.len() == 0 {
        0
    } else {
        count_succ(s.drop_last(), v) + if s.last().0.0 == v { 1nat } else { 0nat }
    }
}

/// The number of times block `u` occurs among `s`.
pub open spec fn count_pred(s: Seq<BlockId>, u: int) -> nat
    decreases s.len(),
{
    if s.len() == 0 {
        0
    } else {
        count_pred(s.drop_last(), u) + if s.last().0 == u { 1nat } else { 0nat }
    }
}

/// Block `v` lists `u` among its predecessors as many times as `u` has
/// edges to `v`.
pub open spec fn counts_match(g: Seq<BlockV>) -> bool {
    forall|u: int, v: int|
        0 <= u < g.len() && 0 <= v < g.len() ==> #[trigger] count_succ(g[u].successors, v) == #[trigger] count_pred(
            g[v].predecessors,
            u,
        )
}

proof fn lemma_count_succ_push(s: Seq<(BlockId, EdgeKind)>, x: (BlockId, EdgeKind), v: int)
    ensures
        count_succ(s.push(x), v) == count_succ(s, v) + if x.0.0 == v { 1nat } else { 0nat },
{
    assert(s.push(x).drop_last() =~= s);
}

proof fn lemma_count_pred_push(s: Seq<BlockId>, x: BlockId, u: int)
    ensures
        count_pred(s.push(x), u) == count_pred(s, u) + if x.0 == u { 1nat } else { 0nat },
{
    assert(s.push(x).drop_last() =~= s);
}

proof fn lemma_count_succ_zero(s: Seq<(BlockId, EdgeKind)>, v: int)
    requires
        forall|j: int| 0 <= j < s.len() ==> s[j].0.0 < v,
    ensures
        count_succ(s, v) == 0,
    decreases s.len(),
{
    if s.len() > 0 {
        lemma_count_succ_zero(s.drop_last(), v);
    }
}

proof fn lemma_count_pred_zero(s: Seq<BlockId>, u: int)
    requires
        forall|k: int| 0 <= k < s.len() ==> s[k].0 < u,
    ensures
        count_pred(s, u) == 0,
    decreases s.len(),
{
    if s.len() > 0 {
        lemma_count_pred_zero(s.drop_last(), u);
    }
}

/// Block `a` is listed among the predecessors of block `b`.
pub open spec fn has_pred(g: Seq<BlockV>, b: int, a: int) -> bool {
    0 <= b < g.len() && exists|k: int| 0 <= k < g[b].predecessors.len() && g[b].predecessors[k].0 == a
}

#[verifier::spinoff_prover]
proof fn lemma_new_block_wf(g: Seq<BlockV>)
    requires
        graph_wf(g),
        g.len() < u32::MAX,
    ensures
        graph_wf(new_block_s(g).0),
{
    let g2 = new_block_s(g).0;
    assert forall|b: int, j: int| 0 <= b < g2.len() && 0 <= j < g2[b].successors.len() implies #[trigger] has_pred(
        g2,
        g2[b].successors[j].0.0 as int,
        b,
    ) by {
        let t = g2[b].successors[j].0.0 as int;
        assert(g2[b] == g[b]);
        assert(has_pred(g, t, b));
        let k = choose|k: int| 0 <= k < g[t].predecessors.len() && g[t].predecessors[k].0 == b;
        assert(g2[t] == g[t]);
    }
    assert forall|b: int, k: int| 0 <= b < g2.len() && 0 <= k < g2[b].predecessors.len() implies #[trigger] has_edge(
        g2,
        g2[b].predecessors[k].0 as int,
        b,
    ) by {
        let a = g2[b].predecessors[k].0 as int;
        assert(g2[b] == g[b]);
        assert(has_edge(g, a, b));
        let j = choose|j: int| 0 <= j < g[a].successors.len() && g[a].successors[j].0.0 == b;
        assert(g2[a] == g[a]);
    }
    assert forall|u: int, v: int| 0 <= u < g2.len() && 0 <= v < g2.len() implies #[trigger] count_succ(
        g2[u].successors,
        v,
    ) == #[trigger] count_pred(g2[v].predecessors, u) by {
        let n = g.len() as int;
        if u < n && v < n {
            assert(g2[u] == g[u] && g2[v] == g[v]);
        } else if u == n {
            if v == n {
            } else {
                assert(g2[v] == g[v]);
                assert forall|k: int| 0 <= k < g[v].predecessors.len() implies g[v].predecessors[k].0 < u by {}
                lemma_count_pred_zero(g[v].predecessors, u);
            }
        } else {
            assert(g2[u] == g[u]);
            assert forall|j: int| 0 <= j < g[u].successors.len() implies g[u].successors[j].0.0 < v by {}
            lemma_count_succ_zero(g[u].successors, v);
        }
    }
}

proof fn lemma_add_node_wf(g: Seq<BlockV>, b0: nat, n: NodeId)
    requires
        graph_wf(g),
        b0 < g.len(),
    ensures
        graph_wf(add_node_s(g, b0, n)),
{
    let g2 = add_node_s(g, b0, n);
    assert forall|b: int| 0 <= b < g2.len() implies (#[trigger] g2[b]).id == BlockId(b as u32) by {
        assert(g[b].id == BlockId(b as u32));
    }
    assert forall|b: int, j: int| 0 <= b < g2.len() && 0 <= j < g2[b].successors.len() implies (#[trigger] g2[b].successors[j]).0.0 < g2.len() by {
        assert(g2[b].successors == g[b].successors);
        assert(g[b].successors[j].0.0 < g.len());
    }
    assert forall|b: int, k: int| 0 <= b < g2.len() && 0 <= k < g2[b].predecessors.len() implies ((#[trigger] g2[b].predecessors[k]).0 as int) < g2.len() by {
        assert(g2[b].predecessors == g[b].predecessors);
        assert((g[b].predecessors[k].0 as int) < g.len());
    }
    assert forall|b: int, j: int| 0 <= b < g2.len() && 0 <= j < g2[b].successors.len() implies #[trigger] has_pred(
        g2,
        g2[b].successors[j].0.0 as int,
        b,
    ) by {
        assert(g2[b].successors == g[b].successors);
        let t = g[b].successors[j].0.0 as int;
        assert(has_pred(g, t, b));
        let k = choose|k: int| 0 <= k < g[t].predecessors.len() && g[t].predecessors[k].0 == b;
        assert(g2[t].predecessors == g[t].predecessors);
    }
    assert forall|b: int, k: int| 0 <= b < g2.len() && 0 <= k < g2[b].predecessors.len() implies #[trigger] has_edge(
        g2,
        g2[b].predecessors[k].0 as int,
        b,
    ) by {
        assert(g2[b].predecessors == g[b].predecessors);
        let a = g[b].predecessors[k].0 as int;
        assert(has_edge(g, a, b));
        let j = choose|j: int| 0 <= j < g[a].successors.len() && g[a].successors[j].0.0 == b;
        assert(g2[a].successors == g[a].successors);
    }
    assert forall|u: int, v: int| 0 <= u < g2.len() && 0 <= v < g2.len() implies #[trigger] count_succ(
        g2[u].successors,
        v,
    ) == #[trigger] count_pred(g2[v].predecessors, u) by {
        assert(g2[u].successors == g[u].successors);
        assert(g2[v].predecessors == g[v].predecessors);
    }
}

proof fn lemma_add_edge_wf(g: Seq<BlockV>, from: nat, to: nat, kind: EdgeKind)
    requires
        graph_wf(g),
        from < g.len(),
        to < g.len(),
    ensures
        graph_wf(add_edge_s(g, from, to, kind)),
{
    let g2 = add_edge_s(g, from, to, kind);
    let f = from as int;
    let t0 = to as int;
    assert forall|b: int| 0 <= b < g2.len() implies (#[trigger] g2[b]).id == BlockId(b as u32) by {
        assert(g[b].id == BlockId(b as u32));
    }
    // the successors of each block: unchanged but for `from`, which gains `to` at the end
    assert forall|b: int| 0 <= b < g2.len() implies (#[trigger] g2[b]).successors == if b == f {
        g[b].successors.push((BlockId(to as u32), kind))
    } else {
        g[b].successors
    } by {}
    assert forall|b: int| 0 <= b < g2.len() implies (#[trigger] g2[b]).predecessors == if b == t0 {
        g[b].predecessors.push(BlockId(from as u32))
    } else {
        g[b].predecessors
    } by {}
    assert forall|b: int, j: int| 0 <= b < g2.len() && 0 <= j < g2[b].successors.len() implies (#[trigger] g2[b].successors[j]).0.0 < g2.len() by {
        if b == f && j == g[b].successors.len() {
        } else {
            assert(g2[b].successors[j] == g[b].successors[j]);
            assert(g[b].successors[j].0.0 < g.len());
        }
    }
    assert forall|b: int, k: int| 0 <= b < g2.len() && 0 <= k < g2[b].predecessors.len() implies ((#[trigger] g2[b].predecessors[k]).0 as int) < g2.len() by {
        if b == t0 && k == g[b].predecessors.len() {
        } else {
            assert(g2[b].predecessors[k] == g[b].predecessors[k]);
            assert((g[b].predecessors[k].0 as int) < g.len());
        }
    }
    assert forall|b: int, j: int| 0 <= b < g2.len() && 0 <= j < g2[b].successors.len() implies #[trigger] has_pred(
        g2,
        g2[b].successors[j].0.0 as int,
        b,
    ) by {
        if b == f && j == g[b].successors.len() {
            assert(g2[t0].predecessors[g[t0].predecessors.len() as int].0 == b);
        } else {
            assert(g2[b].successors[j] == g[b].successors[j]);
            let t = g[b].successors[j].0.0 as int;
            assert(has_pred(g, t, b));
            let k = choose|k: int| 0 <= k < g[t].predecessors.len() && g[t].predecessors[k].0 == b;
            assert(g2[t].predecessors[k] == g[t].predecessors[k]);
        }
    }
    assert forall|b: int, k: int| 0 <= b < g2.len() && 0 <= k < g2[b].predecessors.len() implies #[trigger] has_edge(
        g2,
        g2[b].predecessors[k].0 as int,
        b,
    ) by {
        if b == t0 && k == g[b].predecessors.len() {
            assert(g2[f].successors[g[f].successors.len() as int].0.0 == b);
        } else {
            assert(g2[b].predecessors[k] == g[b].predecessors[k]);
            let a = g[b].predecessors[k].0 as int;
            assert(has_edge(g, a, b));
            let j = choose|j: int| 0 <= j < g[a].successors.len() && g[a].successors[j].0.0 == b;
            assert(g2[a].successors[j] == g[a].successors[j]);
        }
    }
    assert forall|u: int, v: int| 0 <= u < g2.len() && 0 <= v < g2.len() implies #[trigger] count_succ(
        g2[u].successors,
        v,
    ) == #[trigger] count_pred(g2[v].predecessors, u) by {
        assert(count_succ(g[u].successors, v) == count_pred(g[v].predecessors, u));
        if u == f {
            lemma_count_succ_push(g[u].successors, (BlockId(to as u32), kind), v);
        }
        if v == t0 {
            lemma_count_pred_push(g[v].predecessors, BlockId(from as u32), u);
        }
    }
}

/// The exit block (block 1) has not been touched: no statement, no edge.
pub open spec fn exit_untouched(g: Seq<BlockV>) -> bool {
    &&& g.len() >= 2
    &&& g[1].nodes.len() == 0
    &&& g[1].successors.len() == 0
    &&& g[1].predecessors.len() == 0
}

// ---------------------------------------------------------------------------
// The builder
// ---------------------------------------------------------------------------

struct CfgBuilder {
    blocks: Vec<BasicBlock>,
}

impl CfgBuilder {
    spec fn g(&self) -> Seq<BlockV> {
        blocks_v(self.blocks@)
    }

    fn new_block(&mut self) -> (id: BlockId)
        requires
            graph_wf(old(self).g()),
            old(self).blocks@.len() < u32::MAX,
        ensures
            graph_wf(final(self).g()),
            (final(self).g(), id.0 as nat) == new_block_s(old(self).g()),
            final(self).blocks@.len() == old(self).blocks@.len() + 1,
            exit_untouched(old(self).g()) ==> exit_untouched(final(self).g()) && id.0 != 1,
            id.0 as int == old(self).blocks@.len(),
    {
        proof {
            lemma_new_block_wf(old(self).g());
        }
        let id = BlockId(self.blocks.len() as u32);
        self.blocks.push(BasicBlock { id, nodes: Vec::new(), successors: Vec::new(), predecessors: Vec::new() });
        assert(self.g() =~= new_block_s(old(self).g()).0);
        id
    }

    fn add_edge(&mut self, from: BlockId, to: BlockId, kind: EdgeKind)
        requires
            graph_wf(old(self).g()),
            (from.0 as int) < old(self).blocks@.len(),
            (to.0 as int) < old(self).blocks@.len(),
        ensures
            graph_wf(final(self).g()),
            final(self).g() == add_edge_s(old(self).g(), from.0 as nat, to.0 as nat, kind),
            final(self).blocks@.len() == old(self).blocks@.len(),
            exit_untouched(old(self).g()) && from.0 != 1 && to.0 != 1 ==> exit_untouched(final(self).g()),
    {
        proof {
            lemma_add_edge_wf(old(self).g(), from.0 as nat, to.0 as nat, kind);
        }
        let f = from.0 as usize;
        let t = to.0 as usize;
        self.blocks[f].successors.push((to, kind));
        let ghost mid = self.g();
        assert(mid =~= old(self).g().update(
            f as int,
            BlockV { successors: old(self).g()[f as int].successors.push((BlockId(to.0), kind)), ..old(self).g()[f as int] },
        ));
        self.blocks[t].predecessors.push(from);
        assert(self.g() =~= add_edge_s(old(self).g(), from.0 as nat, to.0 as nat, kind));
    }

    fn add_node(&mut self, b: BlockId, node: NodeId)
        requires
            graph_wf(old(self).g()),
            (b.0 as int) < old(self).blocks@.len(),
        ensures
            graph_wf(final(self).g()),
            final(self).g() == add_node_s(old(self).g(), b.0 as nat, node),
            final(self).blocks@.len() == old(self).blocks@.len(),
            exit_untouched(old(self).g()) && b.0 != 1 ==> exit_untouched(final(self).g()),
    {
        proof {
            lemma_add_node_wf(old(self).g(), b.0 as nat, node);
        }
        self.blocks[b.0 as usize].nodes.push(node);
        assert(self.g() =~= add_node_s(old(self).g(), b.0 as nat, node));
    }

    fn build_stmts(&mut self, stmts: &Vec<Statement>, current: BlockId) -> (c: BlockId)
        requires
            exit_untouched(old(self).g()),
            current.0 != 1,
            graph_wf(old(self).g()),
            (current.0 as int) < old(self).blocks@.len(),
            old(self).blocks@.len() + stmts_weight(stmts_v(stmts@), 0) < u32::MAX,
        ensures
            exit_untouched(final(self).g()),
            c.0 != 1,
            graph_wf(final(self).g()),
            (final(self).g(), c.0 as nat) == build_stmts_s(stmts_v(stmts@), 0, current.0 as nat, old(self).g()),
            (c.0 as int) < final(self).blocks@.len(),
            old(self).blocks@.len() <= final(self).blocks@.len() <= old(self).blocks@.len() + stmts_weight(stmts_v(stmts@), 0),
        decreases stmts, 2int,
    {
        let ghost ss = stmts_v(stmts@);
        let ghost goal = build_stmts_s(ss, 0, current.0 as nat, self.g());
        let ghost len0 = self.blocks@.len();
        let mut cur = current;
        let mut i: usize = 0;
        while i < stmts.len()
            invariant
                graph_wf(self.g()),
                exit_untouched(self.g()),
                cur.0 != 1,
                i <= stmts@.len(),
                ss == stmts_v(stmts@),
                (cur.0 as int) < self.blocks@.len(),
                len0 <= self.blocks@.len(),
                self.blocks@.len() + stmts_weight(ss, i as int) <= len0 + stmts_weight(ss, 0),
                len0 + stmts_weight(ss, 0) < u32::MAX,
                goal == build_stmts_s(ss, i as int, cur.0 as nat, self.g()),
            decreases stmts.len() - i,
        {
            proof {
                assert(decreases_to!(*stmts => stmts@));
                assert(decreases_to!(stmts@ => stmts@[i as int]));
                assert(ss[i as int] == stmt_v(stmts@[i as int]));
            }
            cur = self.build_stmt(&stmts[i], cur);
            i = i + 1;
        }
        cur
    }

    fn has_default(arms: &Vec<CaseArm>) -> (b: bool)
        ensures
            b == has_default_s(arms_v(arms@)),
    {
        let ghost av = arms_v(arms@);
        let mut i: usize = 0;
        while i < arms.len()
            invariant
                i <= arms@.len(),
                av == arms_v(arms@),
                forall|a: int, j: int|
                    0 <= a < i && 0 <= j < av[a].patterns.len() ==> !#[trigger] is_default_pattern(av[a].patterns[j]),
            decreases arms.len() - i,
        {
            let pats = &arms[i].patterns;
            assert(av[i as int].patterns == words_v(pats@));
            let mut j: usize = 0;
            while j < pats.len()
                invariant
                    j <= pats@.len(),
                    i < arms@.len(),
                    av == arms_v(arms@),
                    *pats == arms@[i as int].patterns,
                    av[i as int].patterns == words_v(pats@),
                    forall|a: int, k: int|
                        0 <= a < i && 0 <= k < av[a].patterns.len() ==> !#[trigger] is_default_pattern(av[a].patterns[k]),
                    forall|k: int| 0 <= k < j ==> !#[trigger] is_default_pattern(av[i as int].patterns[k]),
                decreases pats.len() - j,
            {
                let p = &pats[j];
                assert(av[i as int].patterns[j as int] == word_v(*p));
                if p.segments.len() > 0 {
                    assert(word_v(*p).segments[0] == seg_v(p.segments@[0]));
                    if let WordSegment::Literal(l) = &p.segments[0] {
                        if str_eq(l.as_str(), "*") {
                            assert(is_default_pattern(av[i as int].patterns[j as int]));
                            return true;
                        }
                    }
                }
                j = j + 1;
            }
            i = i + 1;
        }
        false
    }

    fn build_if(&mut self, x: &crate::hir::IfStatement, current: BlockId) -> (c: BlockId)
        requires
            exit_untouched(old(self).g()),
            current.0 != 1,
            graph_wf(old(self).g()),
            (current.0 as int) < old(self).blocks@.len(),
            old(self).blocks@.len() + stmt_weight(stmt_v(Statement::If(*x))) < u32::MAX,
        ensures
            exit_untouched(final(self).g()),
            c.0 != 1,
            graph_wf(final(self).g()),
            (final(self).g(), c.0 as nat) == build_stmt_s(stmt_v(Statement::If(*x)), current.0 as nat, old(self).g()),
            (c.0 as int) < final(self).blocks@.len(),
            old(self).blocks@.len() <= final(self).blocks@.len() <= old(self).blocks@.len() + stmt_weight(
                stmt_v(Statement::If(*x)),
            ),
        decreases x, 0int,
    {
        let cond_exit = self.build_stmts(&x.condition, current);
        let then_entry = self.new_block();
        self.add_edge(cond_exit, then_entry, EdgeKind::ConditionalTrue);
        let then_exit = self.build_stmts(&x.then_body, then_entry);
        let join = self.new_block();
        self.add_edge(then_exit, join, EdgeKind::Unconditional);
        match &x.else_body {
            Some(e) => {
                proof {
                    assert(decreases_to!(x.else_body => x.else_body->Some_0));
                }
                let else_entry = self.new_block();
                self.add_edge(cond_exit, else_entry, EdgeKind::ConditionalFalse);
                let else_exit = self.build_stmts(e, else_entry);
                self.add_edge(else_exit, join, EdgeKind::Unconditional);
            },
            None => {
                self.add_edge(cond_exit, join, EdgeKind::ConditionalFalse);
            },
        }
        join
    }

    fn build_for(&mut self, x: &crate::hir::ForLoop, current: BlockId) -> (c: BlockId)
        requires
            exit_untouched(old(self).g()),
            current.0 != 1,
            graph_wf(old(self).g()),
            (current.0 as int) < old(self).blocks@.len(),
            old(self).blocks@.len() + stmt_weight(stmt_v(Statement::For(*x))) < u32::MAX,
        ensures
            exit_untouched(final(self).g()),
            c.0 != 1,
            graph_wf(final(self).g()),
            (final(self).g(), c.0 as nat) == build_stmt_s(stmt_v(Statement::For(*x)), current.0 as nat, old(self).g()),
            (c.0 as int) < final(self).blocks@.len(),
            old(self).blocks@.len() <= final(self).blocks@.len() <= old(self).blocks@.len() + stmt_weight(
                stmt_v(Statement::For(*x)),
            ),
        decreases x, 0int,
    {
        let header = self.new_block();
        self.add_node(header, x.id);
        self.add_edge(current, header, EdgeKind::Unconditional);
        let body_entry = self.new_block();
        self.add_edge(header, body_entry, EdgeKind::ConditionalTrue);
        let body_exit = self.build_stmts(&x.body, body_entry);
        self.add_edge(body_exit, header, EdgeKind::LoopBack);
        let exit = self.new_block();
        self.add_edge(header, exit, EdgeKind::ConditionalFalse);
        exit
    }

    fn build_while(&mut self, x: &crate::hir::WhileLoop, current: BlockId) -> (c: BlockId)
        requires
            exit_untouched(old(self).g()),
            current.0 != 1,
            graph_wf(old(self).g()),
            (current.0 as int) < old(self).blocks@.len(),
            old(self).blocks@.len() + stmt_weight(stmt_v(Statement::While(*x))) < u32::MAX,
        ensures
            exit_untouched(final(self).g()),
            c.0 != 1,
            graph_wf(final(self).g()),
            (final(self).g(), c.0 as nat) == build_stmt_s(stmt_v(Statement::While(*x)), current.0 as nat, old(self).g()),
            (c.0 as int) < final(self).blocks@.len(),
            old(self).blocks@.len() <= final(self).blocks@.len() <= old(self).blocks@.len() + stmt_weight(
                stmt_v(Statement::While(*x)),
            ),
        decreases x, 0int,
    {
        let header = self.new_block();
        self.add_edge(current, header, EdgeKind::Unconditional);
        let cond_exit = self.build_stmts(&x.condition, header);
        let body_entry = self.new_block();
        self.add_edge(cond_exit, body_entry, EdgeKind::ConditionalTrue);
        let body_exit = self.build_stmts(&x.body, body_entry);
        self.add_edge(body_exit, header, EdgeKind::LoopBack);
        let exit = self.new_block();
        self.add_edge(cond_exit, exit, EdgeKind::ConditionalFalse);
        exit
    }

    fn build_case(&mut self, x: &crate::hir::CaseStatement, current: BlockId) -> (c: BlockId)
        requires
            exit_untouched(old(self).g()),
            current.0 != 1,
            graph_wf(old(self).g()),
            (current.0 as int) < old(self).blocks@.len(),
            old(self).blocks@.len() + stmt_weight(stmt_v(Statement::Case(*x))) < u32::MAX,
        ensures
            exit_untouched(final(self).g()),
            c.0 != 1,
            graph_wf(final(self).g()),
            (final(self).g(), c.0 as nat) == build_stmt_s(stmt_v(Statement::Case(*x)), current.0 as nat, old(self).g()),
            (c.0 as int) < final(self).blocks@.len(),
            old(self).blocks@.len() <= final(self).blocks@.len() <= old(self).blocks@.len() + stmt_weight(
                stmt_v(Statement::Case(*x)),
            ),
        decreases x, 0int,
    {
        let ghost av = arms_v(x.arms@);
        self.add_node(current, x.id);
        let join = self.new_block();
        let ghost len1 = self.blocks@.len();
        let ghost goal = case_arms_s(av, 0, current.0 as nat, join.0 as nat, self.g());
        let mut i: usize = 0;
        while i < x.arms.len()
            invariant
                graph_wf(self.g()),
                exit_untouched(self.g()),
                current.0 != 1,
                join.0 != 1,
                i <= x.arms@.len(),
                av == arms_v(x.arms@),
                (current.0 as int) < self.blocks@.len(),
                (join.0 as int) < self.blocks@.len(),
                len1 <= self.blocks@.len(),
                self.blocks@.len() + arms_weight(av, i as int) <= len1 + arms_weight(av, 0),
                len1 + arms_weight(av, 0) < u32::MAX,
                goal == case_arms_s(av, i as int, current.0 as nat, join.0 as nat, self.g()),
            decreases x.arms.len() - i,
        {
            proof {
                assert(decreases_to!(*x => x.arms));
                assert(decreases_to!(x.arms => x.arms@));
                assert(decreases_to!(x.arms@ => x.arms@[i as int]));
                assert(decreases_to!(x.arms@[i as int] => x.arms@[i as int].body));
                assert(av[i as int] == arm_v(x.arms@[i as int]));
            }
            let arm_entry = self.new_block();
            self.add_edge(current, arm_entry, EdgeKind::ConditionalTrue);
            let arm_exit = self.build_stmts(&x.arms[i].body, arm_entry);
            self.add_edge(arm_exit, join, EdgeKind::Unconditional);
            i = i + 1;
        }
        if !Self::has_default(&x.arms) {
            self.add_edge(current, join, EdgeKind::ConditionalFalse);
        }
        join
    }

    fn build_list(&mut self, x: &crate::hir::List, current: BlockId) -> (c: BlockId)
        requires
            exit_untouched(old(self).g()),
            current.0 != 1,
            graph_wf(old(self).g()),
            (current.0 as int) < old(self).blocks@.len(),
            old(self).blocks@.len() + stmt_weight(stmt_v(Statement::List(*x))) < u32::MAX,
        ensures
            exit_untouched(final(self).g()),
            c.0 != 1,
            graph_wf(final(self).g()),
            (final(self).g(), c.0 as nat) == build_stmt_s(stmt_v(Statement::List(*x)), current.0 as nat, old(self).g()),
            (c.0 as int) < final(self).blocks@.len(),
            old(self).blocks@.len() <= final(self).blocks@.len() <= old(self).blocks@.len() + stmt_weight(
                stmt_v(Statement::List(*x)),
            ),
        decreases x, 0int,
    {
        let ghost es = elements_v(x.elements@);
        let join = self.new_block();
        let ghost len1 = self.blocks@.len();
        let mut cur = current;
        let ghost goal = list_s(es, 0, current.0 as nat, join.0 as nat, self.g());
        let n = x.elements.len();
        let mut i: usize = 0;
        while i < n
            invariant
                graph_wf(self.g()),
                exit_untouched(self.g()),
                cur.0 != 1,
                join.0 != 1,
                i <= n,
                n == x.elements@.len(),
                es == elements_v(x.elements@),
                (cur.0 as int) < self.blocks@.len(),
                (join.0 as int) < self.blocks@.len(),
                len1 <= self.blocks@.len(),
                self.blocks@.len() + elements_weight(es, i as int) <= len1 + elements_weight(es, 0),
                len1 + elements_weight(es, 0) < u32::MAX,
                goal == list_s(es, i as int, cur.0 as nat, join.0 as nat, self.g()),
            decreases n - i,
        {
            proof {
                assert(decreases_to!(*x => x.elements));
                assert(decreases_to!(x.elements => x.elements@));
                assert(decreases_to!(x.elements@ => x.elements@[i as int]));
                assert(decreases_to!(x.elements@[i as int] => x.elements@[i as int].statement));
                assert(es[i as int].statement == stmt_v(x.elements@[i as int].statement));
                assert(es[i as int].operator == x.elements@[i as int].operator);
            }
            let elem = &x.elements[i];
            cur = self.build_stmt(&elem.statement, cur);
            if i + 1 < n {
                match elem.operator {
                    Some(ListOperator::And) => {
                        let next = self.new_block();
                        self.add_edge(cur, next, EdgeKind::ConditionalTrue);
                        self.add_edge(cur, join, EdgeKind::ConditionalFalse);
                        cur = next;
                    },
                    Some(ListOperator::Or) => {
                        let next = self.new_block();
                        self.add_edge(cur, next, EdgeKind::ConditionalFalse);
                        self.add_edge(cur, join, EdgeKind::ConditionalTrue);
                        cur = next;
                    },
                    _ => {},
                }
            }
            i = i + 1;
        }
        self.add_edge(cur, join, EdgeKind::Unconditional);
        join
    }

    fn build_stmt(&mut self, stmt: &Statement, current: BlockId) -> (c: BlockId)
        requires
            exit_untouched(old(self).g()),
            current.0 != 1,
            graph_wf(old(self).g()),
            (current.0 as int) < old(self).blocks@.len(),
            old(self).blocks@.len() + stmt_weight(stmt_v(*stmt)) < u32::MAX,
        ensures
            exit_untouched(final(self).g()),
            c.0 != 1,
            graph_wf(final(self).g()),
            (final(self).g(), c.0 as nat) == build_stmt_s(stmt_v(*stmt), current.0 as nat, old(self).g()),
            (c.0 as int) < final(self).blocks@.len(),
            old(self).blocks@.len() <= final(self).blocks@.len() <= old(self).blocks@.len() + stmt_weight(stmt_v(*stmt)),
        decreases stmt, 1int,
    {
        match stmt {
            Statement::Assignment(a) => {
                self.add_node(current, a.id);
                current
            },
            Statement::Command(c) => {
                self.add_node(current, c.id);
                current
            },
            Statement::SourceCommand(c) => {
                self.add_node(current, c.id);
                current
            },
            Statement::Pipeline(p) => {
                self.add_node(current, p.id);
                current
            },
            Statement::Unmodeled(u) => {
                self.add_node(current, u.id);
                current
            },
            Statement::If(x) => {
                proof {
                    assert(decreases_to!(*stmt => stmt->If_0));
                }
                self.build_if(x, current)
            },
            Statement::For(x) => {
                proof {
                    assert(decreases_to!(*stmt => stmt->For_0));
                }
                self.build_for(x, current)
            },
            Statement::While(x) => {
                proof {
                    assert(decreases_to!(*stmt => stmt->While_0));
                }
                self.build_while(x, current)
            },
            Statement::Case(x) => {
                proof {
                    assert(decreases_to!(*stmt => stmt->Case_0));
                }
                self.build_case(x, current)
            },
            Statement::List(x) => {
                proof {
                    assert(decreases_to!(*stmt => stmt->List_0));
                }
                self.build_list(x, current)
            },
            Statement::Block(b) => {
                proof {
                    assert(decreases_to!(*stmt => stmt->Block_0));
                }
                self.build_stmts(&b.body, current)
            },
        }
    }
}

/// The control flow graph of a function body or a top-level script.
pub struct Cfg {
    blocks: Vec<BasicBlock>,
    pub entry: BlockId,
    pub exit: BlockId,
}

impl Cfg {
    /// The blocks, as values.
    pub closed spec fn graph(&self) -> Seq<BlockV> {
        blocks_v(self.blocks@)
    }

    pub closed spec fn entry_id(&self) -> BlockId {
        self.entry
    }

    pub closed spec fn exit_id(&self) -> BlockId {
        self.exit
    }

    pub fn block(&self, id: BlockId) -> (b: &BasicBlock)
        requires
            (id.0 as int) < self.graph().len(),
        ensures
            b@ == self.graph()[id.0 as int],
    {
        &self.blocks[id.0 as usize]
    }

    pub fn blocks(&self) -> (b: &[BasicBlock])
        ensures
            blocks_v(b@) == self.graph(),
    {
        self.blocks.as_slice()
    }

    pub fn block_count(&self) -> (n: usize)
        ensures
            n == self.graph().len(),
    {
        self.blocks.len()
    }

    /// The entry block.
    pub fn entry_block(&self) -> (b: BlockId)
        ensures
            b == self.entry_id(),
    {
        self.entry
    }

    /// The exit block.
    pub fn exit_block(&self) -> (b: BlockId)
        ensures
            b == self.exit_id(),
    {
        self.exit
    }
}

// ---------------------------------------------------------------------------
// The entry block is never entered again
// ---------------------------------------------------------------------------

/// What the construction keeps of a graph: it only grows, and block 0 gains
/// no predecessor.
pub open spec fn keeps_entry(g: Seq<BlockV>, g2: Seq<BlockV>) -> bool {
    &&& g2.len() >= g.len()
    &&& g2[0].predecessors == g[0].predecessors
}

proof fn lemma_add_edge_keeps_entry(g: Seq<BlockV>, from: nat, to: nat, kind: EdgeKind)
    requires
        g.len() >= 1,
        from < g.len(),
        1 <= to < g.len(),
    ensures
        add_edge_s(g, from, to, kind).len() == g.len(),
        keeps_entry(g, add_edge_s(g, from, to, kind)),
{
}

proof fn lemma_stmt_keeps_entry(s: StatementV, cur: nat, g: Seq<BlockV>)
    requires
        g.len() >= 1,
        cur < g.len(),
    ensures
        keeps_entry(g, build_stmt_s(s, cur, g).0),
        build_stmt_s(s, cur, g).1 < build_stmt_s(s, cur, g).0.len(),
    decreases s, 0int,
{
    match s {
        StatementV::If { condition, then_body, else_body, .. } => {
            lemma_stmts_keeps_entry(condition, 0, cur, g);
            let (g1, ce) = build_stmts_s(condition, 0, cur, g);
            let (g2, te) = new_block_s(g1);
            lemma_add_edge_keeps_entry(g2, ce, te, EdgeKind::ConditionalTrue);
            let g3 = add_edge_s(g2, ce, te, EdgeKind::ConditionalTrue);
            lemma_stmts_keeps_entry(then_body, 0, te, g3);
            let (g4, tx) = build_stmts_s(then_body, 0, te, g3);
            let (g5, join) = new_block_s(g4);
            lemma_add_edge_keeps_entry(g5, tx, join, EdgeKind::Unconditional);
            let g6 = add_edge_s(g5, tx, join, EdgeKind::Unconditional);
            match else_body {
                Some(e) => {
                    let (g7, ee) = new_block_s(g6);
                    lemma_add_edge_keeps_entry(g7, ce, ee, EdgeKind::ConditionalFalse);
                    let g8 = add_edge_s(g7, ce, ee, EdgeKind::ConditionalFalse);
                    lemma_stmts_keeps_entry(e, 0, ee, g8);
                    let (g9, ex) = build_stmts_s(e, 0, ee, g8);
                    lemma_add_edge_keeps_entry(g9, ex, join, EdgeKind::Unconditional);
                },
                None => {
                    lemma_add_edge_keeps_entry(g6, ce, join, EdgeKind::ConditionalFalse);
                },
            }
        },
        StatementV::For { id, body, .. } => {
            let (g1, h) = new_block_s(g);
            let g2 = add_node_s(g1, h, id);
            lemma_add_edge_keeps_entry(g2, cur, h, EdgeKind::Unconditional);
            let g3 = add_edge_s(g2, cur, h, EdgeKind::Unconditional);
            let (g4, be) = new_block_s(g3);
            lemma_add_edge_keeps_entry(g4, h, be, EdgeKind::ConditionalTrue);
            let g5 = add_edge_s(g4, h, be, EdgeKind::ConditionalTrue);
            lemma_stmts_keeps_entry(body, 0, be, g5);
            let (g6, bx) = build_stmts_s(body, 0, be, g5);
            lemma_add_edge_keeps_entry(g6, bx, h, EdgeKind::LoopBack);
            let g7 = add_edge_s(g6, bx, h, EdgeKind::LoopBack);
            let (g8, ex) = new_block_s(g7);
            lemma_add_edge_keeps_entry(g8, h, ex, EdgeKind::ConditionalFalse);
        },
        StatementV::While { condition, body, .. } => {
            let (g1, h) = new_block_s(g);
            lemma_add_edge_keeps_entry(g1, cur, h, EdgeKind::Unconditional);
            let g2 = add_edge_s(g1, cur, h, EdgeKind::Unconditional);
            lemma_stmts_keeps_entry(condition, 0, h, g2);
            let (g3, ce) = build_stmts_s(condition, 0, h, g2);
            let (g4, be) = new_block_s(g3);
            lemma_add_edge_keeps_entry(g4, ce, be, EdgeKind::ConditionalTrue);
            let g5 = add_edge_s(g4, ce, be, EdgeKind::ConditionalTrue);
            lemma_stmts_keeps_entry(body, 0, be, g5);
            let (g6, bx) = build_stmts_s(body, 0, be, g5);
            lemma_add_edge_keeps_entry(g6, bx, h, EdgeKind::LoopBack);
            let g7 = add_edge_s(g6, bx, h, EdgeKind::LoopBack);
            let (g8, ex) = new_block_s(g7);
            lemma_add_edge_keeps_entry(g8, ce, ex, EdgeKind::ConditionalFalse);
        },
        StatementV::Case { id, arms, .. } => {
            let g1 = add_node_s(g, cur, id);
            let (g2, join) = new_block_s(g1);
            lemma_arms_keeps_entry(arms, 0, cur, join, g2);
            let g3 = case_arms_s(arms, 0, cur, join, g2);
            if !has_default_s(arms) {
                lemma_add_edge_keeps_entry(g3, cur, join, EdgeKind::ConditionalFalse);
            }
        },
        StatementV::List { elements, .. } => {
            let (g1, join) = new_block_s(g);
            lemma_list_keeps_entry(elements, 0, cur, join, g1);
            let (g2, c) = list_s(elements, 0, cur, join, g1);
            lemma_add_edge_keeps_entry(g2, c, join, EdgeKind::Unconditional);
        },
        StatementV::Block { body, .. } => {
            lemma_stmts_keeps_entry(body, 0, cur, g);
        },
        _ => {},
    }
}

proof fn lemma_stmts_keeps_entry(ss: Seq<StatementV>, i: int, cur: nat, g: Seq<BlockV>)
    requires
        g.len() >= 1,
        cur < g.len(),
    ensures
        keeps_entry(g, build_stmts_s(ss, i, cur, g).0),
        build_stmts_s(ss, i, cur, g).1 < build_stmts_s(ss, i, cur, g).0.len(),
    decreases ss, ss.len() - i,
{
    if 0 <= i < ss.len() {
        lemma_stmt_keeps_entry(ss[i], cur, g);
        let (g1, c1) = build_stmt_s(ss[i], cur, g);
        lemma_stmts_keeps_entry(ss, i + 1, c1, g1);
    }
}

proof fn lemma_arms_keeps_entry(arms: Seq<CaseArmV>, i: int, cur: nat, join: nat, g: Seq<BlockV>)
    requires
        g.len() >= 1,
        cur < g.len(),
        1 <= join < g.len(),
    ensures
        keeps_entry(g, case_arms_s(arms, i, cur, join, g)),
    decreases arms, arms.len() - i,
{
    if 0 <= i < arms.len() {
        let (g1, e) = new_block_s(g);
        lemma_add_edge_keeps_entry(g1, cur, e, EdgeKind::ConditionalTrue);
        let g2 = add_edge_s(g1, cur, e, EdgeKind::ConditionalTrue);
        lemma_stmts_keeps_entry(arms[i].body, 0, e, g2);
        let (g3, x) = build_stmts_s(arms[i].body, 0, e, g2);
        lemma_add_edge_keeps_entry(g3, x, join, EdgeKind::Unconditional);
        let g4 = add_edge_s(g3, x, join, EdgeKind::Unconditional);
        lemma_arms_keeps_entry(arms, i + 1, cur, join, g4);
    }
}

proof fn lemma_list_keeps_entry(es: Seq<ListElementV>, i: int, cur: nat, join: nat, g: Seq<BlockV>)
    requires
        g.len() >= 1,
        cur < g.len(),
        1 <= join < g.len(),
    ensures
        keeps_entry(g, list_s(es, i, cur, join, g).0),
        list_s(es, i, cur, join, g).1 < list_s(es, i, cur, join, g).0.len(),
    decreases es, es.len() - i,
{
    if 0 <= i < es.len() {
        lemma_stmt_keeps_entry(es[i].statement, cur, g);
        let (g1, c1) = build_stmt_s(es[i].statement, cur, g);
        if i + 1 < es.len() && (es[i].operator == Some(ListOperator::And) || es[i].operator == Some(
            ListOperator::Or,
        )) {
            let (g2, nx) = new_block_s(g1);
            let k1 = if es[i].operator == Some(ListOperator::And) {
                EdgeKind::ConditionalTrue
            } else {
                EdgeKind::ConditionalFalse
            };
            let k2 = if es[i].operator == Some(ListOperator::And) {
                EdgeKind::ConditionalFalse
            } else {
                EdgeKind::ConditionalTrue
            };
            lemma_add_edge_keeps_entry(g2, c1, nx, k1);
            let g3 = add_edge_s(g2, c1, nx, k1);
            lemma_add_edge_keeps_entry(g3, c1, join, k2);
            let g4 = add_edge_s(g3, c1, join, k2);
            lemma_list_keeps_entry(es, i + 1, nx, join, g4);
        } else {
            lemma_list_keeps_entry(es, i + 1, c1, join, g1);
        }
    }
}

/// No edge of a built graph leads back into its entry block.
pub proof fn lemma_entry_has_no_predecessors(ss: Seq<StatementV>)
    ensures
        cfg_s(ss)[0].predecessors.len() == 0,
{
    let (g1, entry) = new_block_s(Seq::empty());
    let (g2, exit) = new_block_s(g1);
    lemma_stmts_keeps_entry(ss, 0, entry, g2);
    let (g3, last) = build_stmts_s(ss, 0, entry, g2);
    lemma_add_edge_keeps_entry(g3, last, exit, EdgeKind::Unconditional);
}

// ---------------------------------------------------------------------------
// Every statement lands in one block
// ---------------------------------------------------------------------------

/// How often `n` occurs in `s`.
pub open spec fn count_node(s: Seq<NodeId>, n: NodeId) -> nat
    decreases s.len(),
{
    if s.len() == 0 {
        0
    } else {
        count_node(s.drop_last(), n) + if s.last() == n { 1nat } else { 0nat }
    }
}

/// How often `n` occurs over the blocks of `g`.
pub open spec fn block_nodes_count(g: Seq<BlockV>, n: NodeId) -> nat
    decreases g.len(),
{
    if g.len() == 0 {
        0
    } else {
        block_nodes_count(g.drop_last(), n) + count_node(g.last().nodes, n)
    }
}

/// The ids of the statements of `s` that a block records, in source order:
/// simple statements, `for` loops and `case` statements, also nested.
pub open spec fn stmt_ids_s(s: StatementV) -> Seq<NodeId>
    decreases s, 0int,
{
    match s {
        StatementV::Assignment { id, .. } => seq![id],
        StatementV::Command { id, .. } => seq![id],
        StatementV::SourceCommand { id, .. } => seq![id],
        StatementV::Pipeline { id, .. } => seq![id],
        StatementV::Unmodeled { id, .. } => seq![id],
        StatementV::If { condition, then_body, else_body, .. } => stmts_ids_s(condition, 0) + stmts_ids_s(
            then_body,
            0,
        ) + match else_body {
            Some(e) => stmts_ids_s(e, 0),
            None => Seq::empty(),
        },
        StatementV::For { id, body, .. } => seq![id] + stmts_ids_s(body, 0),
        StatementV::While { condition, body, .. } => stmts_ids_s(condition, 0) + stmts_ids_s(body, 0),
        StatementV::Case { id, arms, .. } => seq![id] + arms_ids_s(arms, 0),
        StatementV::List { elements, .. } => elements_ids_s(elements, 0),
        StatementV::Block { body, .. } => stmts_ids_s(body, 0),
    }
}

pub open spec fn stmts_ids_s(ss: Seq<StatementV>, i: int) -> Seq<NodeId>
    decreases ss, ss.len() - i,
{
    if i < 0 || i >= ss.len() {
        Seq::empty()
    } else {
        stmt_ids_s(ss[i]) + stmts_ids_s(ss, i + 1)
    }
}

pub open spec fn arms_ids_s(arms: Seq<CaseArmV>, i: int) -> Seq<NodeId>
    decreases arms, arms.len() - i,
{
    if i < 0 || i >= arms.len() {
        Seq::empty()
    } else {
        stmts_ids_s(arms[i].body, 0) + arms_ids_s(arms, i + 1)
    }
}

pub open spec fn elements_ids_s(es: Seq<ListElementV>, i: int) -> Seq<NodeId>
    decreases es, es.len() - i,
{
    if i < 0 || i >= es.len() {
        Seq::empty()
    } else {
        stmt_ids_s(es[i].statement) + elements_ids_s(es, i + 1)
    }
}

proof fn lemma_count_node_single(id: NodeId, n: NodeId)
    ensures
        count_node(seq![id], n) == if id == n { 1nat } else { 0nat },
{
    assert(seq![id].drop_last() =~= Seq::<NodeId>::empty());
    assert(count_node(Seq::<NodeId>::empty(), n) == 0);
}

proof fn lemma_count_node_add(a: Seq<NodeId>, b: Seq<NodeId>, n: NodeId)
    ensures
        count_node(a + b, n) == count_node(a, n) + count_node(b, n),
    decreases b.len(),
{
    if b.len() == 0 {
        assert(a + b =~= a);
    } else {
        lemma_count_node_add(a, b.drop_last(), n);
        assert((a + b).drop_last() =~= a + b.drop_last());
    }
}

proof fn lemma_bnc_same(g: Seq<BlockV>, g2: Seq<BlockV>, n: NodeId)
    requires
        g.len() == g2.len(),
        forall|i: int| 0 <= i < g.len() ==> (#[trigger] g[i]).nodes == g2[i].nodes,
    ensures
        block_nodes_count(g2, n) == block_nodes_count(g, n),
    decreases g.len(),
{
    if g.len() > 0 {
        assert forall|i: int| 0 <= i < g.drop_last().len() implies (#[trigger] g.drop_last()[i]).nodes
            == g2.drop_last()[i].nodes by {
            assert(g[i].nodes == g2[i].nodes);
        }
        lemma_bnc_same(g.drop_last(), g2.drop_last(), n);
        assert(g[g.len() - 1].nodes == g2[g.len() - 1].nodes);
    }
}

proof fn lemma_bnc_new_block(g: Seq<BlockV>, n: NodeId)
    ensures
        block_nodes_count(new_block_s(g).0, n) == block_nodes_count(g, n),
        new_block_s(g).0.len() == g.len() + 1,
{
    let g2 = new_block_s(g).0;
    assert(g2.drop_last() =~= g);
    assert(g2.last().nodes.len() == 0);
}

proof fn lemma_bnc_add_node(g: Seq<BlockV>, b: nat, id: NodeId, n: NodeId)
    requires
        b < g.len(),
    ensures
        block_nodes_count(add_node_s(g, b, id), n) == block_nodes_count(g, n) + if id == n { 1nat } else { 0nat },
        add_node_s(g, b, id).len() == g.len(),
    decreases g.len(),
{
    let g2 = add_node_s(g, b, id);
    if b == g.len() - 1 {
        assert(g2.drop_last() =~= g.drop_last());
        assert(g2.last().nodes == g.last().nodes.push(id));
        assert(g.last().nodes.push(id).drop_last() =~= g.last().nodes);
    } else {
        lemma_bnc_add_node(g.drop_last(), b, id, n);
        assert(g2.drop_last() =~= add_node_s(g.drop_last(), b, id));
        assert(g2.last() == g.last());
    }
}

proof fn lemma_bnc_add_edge(g: Seq<BlockV>, from: nat, to: nat, kind: EdgeKind, n: NodeId)
    requires
        from < g.len(),
        to < g.len(),
    ensures
        block_nodes_count(add_edge_s(g, from, to, kind), n) == block_nodes_count(g, n),
        add_edge_s(g, from, to, kind).len() == g.len(),
{
    let g2 = add_edge_s(g, from, to, kind);
    assert forall|i: int| 0 <= i < g.len() implies (#[trigger] g[i]).nodes == g2[i].nodes by {}
    lemma_bnc_same(g, g2, n);
}

#[verifier::spinoff_prover]
proof fn lemma_stmt_nodes(s: StatementV, cur: nat, g: Seq<BlockV>, n: NodeId)
    requires
        cur < g.len(),
    ensures
        block_nodes_count(build_stmt_s(s, cur, g).0, n) == block_nodes_count(g, n) + count_node(stmt_ids_s(s), n),
        build_stmt_s(s, cur, g).0.len() >= g.len(),
        build_stmt_s(s, cur, g).1 < build_stmt_s(s, cur, g).0.len(),
    decreases s, 0int,
{
    let empty = Seq::<NodeId>::empty();
    match s {
        StatementV::Assignment { id, .. } => {
            lemma_bnc_add_node(g, cur, id, n);
            lemma_count_node_single(id, n);
        },
        StatementV::Command { id, .. } => {
            lemma_bnc_add_node(g, cur, id, n);
            lemma_count_node_single(id, n);
        },
        StatementV::SourceCommand { id, .. } => {
            lemma_bnc_add_node(g, cur, id, n);
            lemma_count_node_single(id, n);
        },
        StatementV::Pipeline { id, .. } => {
            lemma_bnc_add_node(g, cur, id, n);
            lemma_count_node_single(id, n);
        },
        StatementV::Unmodeled { id, .. } => {
            lemma_bnc_add_node(g, cur, id, n);
            lemma_count_node_single(id, n);
        },
        StatementV::If { condition, then_body, else_body, .. } => {
            lemma_stmts_nodes(condition, 0, cur, g, n);
            let (g1, ce) = build_stmts_s(condition, 0, cur, g);
            lemma_bnc_new_block(g1, n);
            let (g2, te) = new_block_s(g1);
            lemma_bnc_add_edge(g2, ce, te, EdgeKind::ConditionalTrue, n);
            let g3 = add_edge_s(g2, ce, te, EdgeKind::ConditionalTrue);
            lemma_stmts_nodes(then_body, 0, te, g3, n);
            let (g4, tx) = build_stmts_s(then_body, 0, te, g3);
            lemma_bnc_new_block(g4, n);
            let (g5, join) = new_block_s(g4);
            lemma_bnc_add_edge(g5, tx, join, EdgeKind::Unconditional, n);
            let g6 = add_edge_s(g5, tx, join, EdgeKind::Unconditional);
            let a = stmts_ids_s(condition, 0);
            let b = stmts_ids_s(then_body, 0);
            lemma_count_node_add(a, b, n);
            match else_body {
                Some(e) => {
                    lemma_bnc_new_block(g6, n);
                    let (g7, ee) = new_block_s(g6);
                    lemma_bnc_add_edge(g7, ce, ee, EdgeKind::ConditionalFalse, n);
                    let g8 = add_edge_s(g7, ce, ee, EdgeKind::ConditionalFalse);
                    lemma_stmts_nodes(e, 0, ee, g8, n);
                    let (g9, ex) = build_stmts_s(e, 0, ee, g8);
                    lemma_bnc_add_edge(g9, ex, join, EdgeKind::Unconditional, n);
                    lemma_count_node_add(a + b, stmts_ids_s(e, 0), n);
                },
                None => {
                    lemma_bnc_add_edge(g6, ce, join, EdgeKind::ConditionalFalse, n);
                    lemma_count_node_add(a + b, empty, n);
                },
            }
        },
        StatementV::For { id, body, .. } => {
            lemma_bnc_new_block(g, n);
            let (g1, h) = new_block_s(g);
            lemma_bnc_add_node(g1, h, id, n);
            let g2 = add_node_s(g1, h, id);
            lemma_bnc_add_edge(g2, cur, h, EdgeKind::Unconditional, n);
            let g3 = add_edge_s(g2, cur, h, EdgeKind::Unconditional);
            lemma_bnc_new_block(g3, n);
            let (g4, be) = new_block_s(g3);
            lemma_bnc_add_edge(g4, h, be, EdgeKind::ConditionalTrue, n);
            let g5 = add_edge_s(g4, h, be, EdgeKind::ConditionalTrue);
            lemma_stmts_nodes(body, 0, be, g5, n);
            let (g6, bx) = build_stmts_s(body, 0, be, g5);
            lemma_bnc_add_edge(g6, bx, h, EdgeKind::LoopBack, n);
            let g7 = add_edge_s(g6, bx, h, EdgeKind::LoopBack);
            lemma_bnc_new_block(g7, n);
            let (g8, ex) = new_block_s(g7);
            lemma_bnc_add_edge(g8, h, ex, EdgeKind::ConditionalFalse, n);
            lemma_count_node_single(id, n);
            lemma_count_node_add(seq![id], stmts_ids_s(body, 0), n);
        },
        StatementV::While { condition, body, .. } => {
            lemma_bnc_new_block(g, n);
            let (g1, h) = new_block_s(g);
            lemma_bnc_add_edge(g1, cur, h, EdgeKind::Unconditional, n);
            let g2 = add_edge_s(g1, cur, h, EdgeKind::Unconditional);
            lemma_stmts_nodes(condition, 0, h, g2, n);
            let (g3, ce) = build_stmts_s(condition, 0, h, g2);
            lemma_bnc_new_block(g3, n);
            let (g4, be) = new_block_s(g3);
            lemma_bnc_add_edge(g4, ce, be, EdgeKind::ConditionalTrue, n);
            let g5 = add_edge_s(g4, ce, be, EdgeKind::ConditionalTrue);
            lemma_stmts_nodes(body, 0, be, g5, n);
            let (g6, bx) = build_stmts_s(body, 0, be, g5);
            lemma_bnc_add_edge(g6, bx, h, EdgeKind::LoopBack, n);
            let g7 = add_edge_s(g6, bx, h, EdgeKind::LoopBack);
            lemma_bnc_new_block(g7, n);
            let (g8, ex) = new_block_s(g7);
            lemma_bnc_add_edge(g8, ce, ex, EdgeKind::ConditionalFalse, n);
            lemma_count_node_add(stmts_ids_s(condition, 0), stmts_ids_s(body, 0), n);
        },
        StatementV::Case { id, arms, .. } => {
            lemma_bnc_add_node(g, cur, id, n);
            let g1 = add_node_s(g, cur, id);
            lemma_bnc_new_block(g1, n);
            let (g2, join) = new_block_s(g1);
            lemma_arms_nodes(arms, 0, cur, join, g2, n);
            let g3 = case_arms_s(arms, 0, cur, join, g2);
            if !has_default_s(arms) {
                lemma_bnc_add_edge(g3, cur, join, EdgeKind::ConditionalFalse, n);
            }
            lemma_count_node_single(id, n);
            lemma_count_node_add(seq![id], arms_ids_s(arms, 0), n);
        },
        StatementV::List { elements, .. } => {
            lemma_bnc_new_block(g, n);
            let (g1, join) = new_block_s(g);
            lemma_list_nodes(elements, 0, cur, join, g1, n);
            let (g2, c) = list_s(elements, 0, cur, join, g1);
            lemma_bnc_add_edge(g2, c, join, EdgeKind::Unconditional, n);
        },
        StatementV::Block { body, .. } => {
            lemma_stmts_nodes(body, 0, cur, g, n);
        },
    }
}

proof fn lemma_stmts_nodes(ss: Seq<StatementV>, i: int, cur: nat, g: Seq<BlockV>, n: NodeId)
    requires
        cur < g.len(),
    ensures
        block_nodes_count(build_stmts_s(ss, i, cur, g).0, n) == block_nodes_count(g, n) + count_node(
            stmts_ids_s(ss, i),
            n,
        ),
        build_stmts_s(ss, i, cur, g).0.len() >= g.len(),
        build_stmts_s(ss, i, cur, g).1 < build_stmts_s(ss, i, cur, g).0.len(),
    decreases ss, ss.len() - i,
{
    if 0 <= i < ss.len() {
        lemma_stmt_nodes(ss[i], cur, g, n);
        let (g1, c1) = build_stmt_s(ss[i], cur, g);
        lemma_stmts_nodes(ss, i + 1, c1, g1, n);
        lemma_count_node_add(stmt_ids_s(ss[i]), stmts_ids_s(ss, i + 1), n);
    }
}

proof fn lemma_arms_nodes(arms: Seq<CaseArmV>, i: int, cur: nat, join: nat, g: Seq<BlockV>, n: NodeId)
    requires
        cur < g.len(),
        join < g.len(),
    ensures
        block_nodes_count(case_arms_s(arms, i, cur, join, g), n) == block_nodes_count(g, n) + count_node(
            arms_ids_s(arms, i),
            n,
        ),
        case_arms_s(arms, i, cur, join, g).len() >= g.len(),
    decreases arms, arms.len() - i,
{
    if 0 <= i < arms.len() {
        lemma_bnc_new_block(g, n);
        let (g1, e) = new_block_s(g);
        lemma_bnc_add_edge(g1, cur, e, EdgeKind::ConditionalTrue, n);
        let g2 = add_edge_s(g1, cur, e, EdgeKind::ConditionalTrue);
        lemma_stmts_nodes(arms[i].body, 0, e, g2, n);
        let (g3, x) = build_stmts_s(arms[i].body, 0, e, g2);
        lemma_bnc_add_edge(g3, x, join, EdgeKind::Unconditional, n);
        let g4 = add_edge_s(g3, x, join, EdgeKind::Unconditional);
        lemma_arms_nodes(arms, i + 1, cur, join, g4, n);
        lemma_count_node_add(stmts_ids_s(arms[i].body, 0), arms_ids_s(arms, i + 1), n);
    }
}

proof fn lemma_list_nodes(es: Seq<ListElementV>, i: int, cur: nat, join: nat, g: Seq<BlockV>, n: NodeId)
    requires
        cur < g.len(),
        join < g.len(),
    ensures
        block_nodes_count(list_s(es, i, cur, join, g).0, n) == block_nodes_count(g, n) + count_node(
            elements_ids_s(es, i),
            n,
        ),
        list_s(es, i, cur, join, g).0.len() >= g.len(),
        list_s(es, i, cur, join, g).1 < list_s(es, i, cur, join, g).0.len(),
    decreases es, es.len() - i,
{
    if 0 <= i < es.len() {
        lemma_stmt_nodes(es[i].statement, cur, g, n);
        let (g1, c1) = build_stmt_s(es[i].statement, cur, g);
        lemma_count_node_add(stmt_ids_s(es[i].statement), elements_ids_s(es, i + 1), n);
        if i + 1 < es.len() && (es[i].operator == Some(ListOperator::And) || es[i].operator == Some(
            ListOperator::Or,
        )) {
            lemma_bnc_new_block(g1, n);
            let (g2, nx) = new_block_s(g1);
            let k1 = if es[i].operator == Some(ListOperator::And) {
                EdgeKind::ConditionalTrue
            } else {
                EdgeKind::ConditionalFalse
            };
            let k2 = if es[i].operator == Some(ListOperator::And) {
                EdgeKind::ConditionalFalse
            } else {
                EdgeKind::ConditionalTrue
            };
            lemma_bnc_add_edge(g2, c1, nx, k1, n);
            let g3 = add_edge_s(g2, c1, nx, k1);
            lemma_bnc_add_edge(g3, c1, join, k2, n);
            let g4 = add_edge_s(g3, c1, join, k2);
            lemma_list_nodes(es, i + 1, nx, join, g4, n);
        } else {
            lemma_list_nodes(es, i + 1, c1, join, g1, n);
        }
    }
}

/// Each statement that a block records (a simple statement, a `for` loop, a
/// `case`) lands in the blocks of the graph as often as its id occurs among
/// the statements: where ids are distinct, in exactly one block.
pub proof fn lemma_each_node_in_one_block(ss: Seq<StatementV>, n: NodeId)
    ensures
        block_nodes_count(cfg_s(ss), n) == count_node(stmts_ids_s(ss, 0), n),
{
    let e = Seq::<BlockV>::empty();
    lemma_bnc_new_block(e, n);
    let (g1, entry) = new_block_s(e);
    lemma_bnc_new_block(g1, n);
    let (g2, exit) = new_block_s(g1);
    lemma_stmts_nodes(ss, 0, entry, g2, n);
    let (g3, last) = build_stmts_s(ss, 0, entry, g2);
    lemma_bnc_add_edge(g3, last, exit, EdgeKind::Unconditional, n);
}

// ---------------------------------------------------------------------------
// Statements keep their order within a block
// ---------------------------------------------------------------------------

/// `a` is a subsequence of `b`: its elements occur in `b` in the same order.
pub open spec fn is_subseq(a: Seq<NodeId>, b: Seq<NodeId>) -> bool
    decreases b.len(),
{
    if a.len() == 0 {
        true
    } else if b.len() == 0 {
        false
    } else if a.last() == b.last() {
        is_subseq(a.drop_last(), b.drop_last())
    } else {
        is_subseq(a, b.drop_last())
    }
}

proof fn lemma_subseq_grow(a: Seq<NodeId>, c: Seq<NodeId>, y: NodeId)
    requires
        is_subseq(a, c),
    ensures
        is_subseq(a, c.push(y)),
    decreases c.len() + 1, 0int,
{
    assert(c.push(y).drop_last() =~= c);
    if a.len() > 0 && a.last() == y {
        lemma_subseq_drop(a, c);
    }
}

proof fn lemma_subseq_drop(a: Seq<NodeId>, b: Seq<NodeId>)
    requires
        is_subseq(a, b),
        a.len() > 0,
    ensures
        is_subseq(a.drop_last(), b),
    decreases b.len(), 1int,
{
    assert(b.drop_last().push(b.last()) =~= b);
    if a.last() == b.last() {
        lemma_subseq_grow(a.drop_last(), b.drop_last(), b.last());
    } else {
        lemma_subseq_drop(a, b.drop_last());
        lemma_subseq_grow(a.drop_last(), b.drop_last(), b.last());
    }
}

proof fn lemma_subseq_push(a: Seq<NodeId>, b: Seq<NodeId>, x: NodeId)
    requires
        is_subseq(a, b),
    ensures
        is_subseq(a, b.push(x)),
        is_subseq(a.push(x), b.push(x)),
{
    assert(b.push(x).drop_last() =~= b);
    assert(a.push(x).drop_last() =~= a);
    lemma_subseq_grow(a, b, x);
}

/// Every block's statements occur in `w` in the same order.
pub open spec fn ordered_by(g: Seq<BlockV>, w: Seq<NodeId>) -> bool {
    forall|x: int| 0 <= x < g.len() ==> is_subseq(#[trigger] g[x].nodes, w)
}

proof fn lemma_ordered_new_block(g: Seq<BlockV>, w: Seq<NodeId>)
    requires
        ordered_by(g, w),
    ensures
        ordered_by(new_block_s(g).0, w),
{
    let g2 = new_block_s(g).0;
    assert forall|x: int| 0 <= x < g2.len() implies is_subseq(#[trigger] g2[x].nodes, w) by {
        if x == g.len() {
            assert(g2[x].nodes.len() == 0);
        } else {
            assert(g2[x] == g[x]);
        }
    }
}

proof fn lemma_ordered_add_edge(g: Seq<BlockV>, w: Seq<NodeId>, from: nat, to: nat, kind: EdgeKind)
    requires
        ordered_by(g, w),
        from < g.len(),
        to < g.len(),
    ensures
        ordered_by(add_edge_s(g, from, to, kind), w),
{
    let g2 = add_edge_s(g, from, to, kind);
    assert forall|x: int| 0 <= x < g2.len() implies is_subseq(#[trigger] g2[x].nodes, w) by {
        assert(g2[x].nodes == g[x].nodes);
    }
}

proof fn lemma_ordered_add_node(g: Seq<BlockV>, w: Seq<NodeId>, b: nat, id: NodeId)
    requires
        ordered_by(g, w),
        b < g.len(),
    ensures
        ordered_by(add_node_s(g, b, id), w.push(id)),
{
    let g2 = add_node_s(g, b, id);
    assert forall|x: int| 0 <= x < g2.len() implies is_subseq(#[trigger] g2[x].nodes, w.push(id)) by {
        lemma_subseq_push(g[x].nodes, w, id);
        if x == b as int {
            assert(g2[x].nodes == g[x].nodes.push(id));
        } else {
            assert(g2[x].nodes == g[x].nodes);
        }
    }
}

proof fn lemma_stmt_order(s: StatementV, cur: nat, g: Seq<BlockV>, w: Seq<NodeId>)
    requires
        cur < g.len(),
        ordered_by(g, w),
    ensures
        ordered_by(build_stmt_s(s, cur, g).0, w + stmt_ids_s(s)),
        build_stmt_s(s, cur, g).1 < build_stmt_s(s, cur, g).0.len(),
        build_stmt_s(s, cur, g).0.len() >= g.len(),
    decreases s, 0int,
{
    let empty = Seq::<NodeId>::empty();
    match s {
        StatementV::Assignment { id, .. } => {
            lemma_ordered_add_node(g, w, cur, id);
            assert(w.push(id) =~= w + seq![id]);
        },
        StatementV::Command { id, .. } => {
            lemma_ordered_add_node(g, w, cur, id);
            assert(w.push(id) =~= w + seq![id]);
        },
        StatementV::SourceCommand { id, .. } => {
            lemma_ordered_add_node(g, w, cur, id);
            assert(w.push(id) =~= w + seq![id]);
        },
        StatementV::Pipeline { id, .. } => {
            lemma_ordered_add_node(g, w, cur, id);
            assert(w.push(id) =~= w + seq![id]);
        },
        StatementV::Unmodeled { id, .. } => {
            lemma_ordered_add_node(g, w, cur, id);
            assert(w.push(id) =~= w + seq![id]);
        },
        StatementV::If { condition, then_body, else_body, .. } => {
            let wa = w + stmts_ids_s(condition, 0);
            lemma_stmts_order(condition, 0, cur, g, w);
            let (g1, ce) = build_stmts_s(condition, 0, cur, g);
            lemma_ordered_new_block(g1, wa);
            let (g2, te) = new_block_s(g1);
            lemma_ordered_add_edge(g2, wa, ce, te, EdgeKind::ConditionalTrue);
            let g3 = add_edge_s(g2, ce, te, EdgeKind::ConditionalTrue);
            let wb = wa + stmts_ids_s(then_body, 0);
            lemma_stmts_order(then_body, 0, te, g3, wa);
            let (g4, tx) = build_stmts_s(then_body, 0, te, g3);
            lemma_ordered_new_block(g4, wb);
            let (g5, join) = new_block_s(g4);
            lemma_ordered_add_edge(g5, wb, tx, join, EdgeKind::Unconditional);
            let g6 = add_edge_s(g5, tx, join, EdgeKind::Unconditional);
            match else_body {
                Some(e) => {
                    lemma_ordered_new_block(g6, wb);
                    let (g7, ee) = new_block_s(g6);
                    lemma_ordered_add_edge(g7, wb, ce, ee, EdgeKind::ConditionalFalse);
                    let g8 = add_edge_s(g7, ce, ee, EdgeKind::ConditionalFalse);
                    lemma_stmts_order(e, 0, ee, g8, wb);
                    let (g9, ex) = build_stmts_s(e, 0, ee, g8);
                    lemma_ordered_add_edge(g9, wb + stmts_ids_s(e, 0), ex, join, EdgeKind::Unconditional);
                    assert(wb + stmts_ids_s(e, 0) =~= w + stmt_ids_s(s));
                },
                None => {
                    lemma_ordered_add_edge(g6, wb, ce, join, EdgeKind::ConditionalFalse);
                    assert(wb =~= w + stmt_ids_s(s));
                },
            }
        },
        StatementV::For { id, body, .. } => {
            lemma_ordered_new_block(g, w);
            let (g1, h) = new_block_s(g);
            lemma_ordered_add_node(g1, w, h, id);
            let g2 = add_node_s(g1, h, id);
            let w1 = w.push(id);
            lemma_ordered_add_edge(g2, w1, cur, h, EdgeKind::Unconditional);
            let g3 = add_edge_s(g2, cur, h, EdgeKind::Unconditional);
            lemma_ordered_new_block(g3, w1);
            let (g4, be) = new_block_s(g3);
            lemma_ordered_add_edge(g4, w1, h, be, EdgeKind::ConditionalTrue);
            let g5 = add_edge_s(g4, h, be, EdgeKind::ConditionalTrue);
            lemma_stmts_order(body, 0, be, g5, w1);
            let (g6, bx) = build_stmts_s(body, 0, be, g5);
            let w2 = w1 + stmts_ids_s(body, 0);
            lemma_ordered_add_edge(g6, w2, bx, h, EdgeKind::LoopBack);
            let g7 = add_edge_s(g6, bx, h, EdgeKind::LoopBack);
            lemma_ordered_new_block(g7, w2);
            let (g8, ex) = new_block_s(g7);
            lemma_ordered_add_edge(g8, w2, h, ex, EdgeKind::ConditionalFalse);
            assert(w2 =~= w + stmt_ids_s(s));
        },
        StatementV::While { condition, body, .. } => {
            lemma_ordered_new_block(g, w);
            let (g1, h) = new_block_s(g);
            lemma_ordered_add_edge(g1, w, cur, h, EdgeKind::Unconditional);
            let g2 = add_edge_s(g1, cur, h, EdgeKind::Unconditional);
            lemma_stmts_order(condition, 0, h, g2, w);
            let (g3, ce) = build_stmts_s(condition, 0, h, g2);
            let wa = w + stmts_ids_s(condition, 0);
            lemma_ordered_new_block(g3, wa);
            let (g4, be) = new_block_s(g3);
            lemma_ordered_add_edge(g4, wa, ce, be, EdgeKind::ConditionalTrue);
            let g5 = add_edge_s(g4, ce, be, EdgeKind::ConditionalTrue);
            lemma_stmts_order(body, 0, be, g5, wa);
            let (g6, bx) = build_stmts_s(body, 0, be, g5);
            let wb = wa + stmts_ids_s(body, 0);
            lemma_ordered_add_edge(g6, wb, bx, h, EdgeKind::LoopBack);
            let g7 = add_edge_s(g6, bx, h, EdgeKind::LoopBack);
            lemma_ordered_new_block(g7, wb);
            let (g8, ex) = new_block_s(g7);
            lemma_ordered_add_edge(g8, wb, ce, ex, EdgeKind::ConditionalFalse);
            assert(wb =~= w + stmt_ids_s(s));
        },
        StatementV::Case { id, arms, .. } => {
            lemma_ordered_add_node(g, w, cur, id);
            let g1 = add_node_s(g, cur, id);
            let w1 = w.push(id);
            lemma_ordered_new_block(g1, w1);
            let (g2, join) = new_block_s(g1);
            lemma_arms_order(arms, 0, cur, join, g2, w1);
            let g3 = case_arms_s(arms, 0, cur, join, g2);
            let w2 = w1 + arms_ids_s(arms, 0);
            if !has_default_s(arms) {
                lemma_ordered_add_edge(g3, w2, cur, join, EdgeKind::ConditionalFalse);
            }
            assert(w2 =~= w + stmt_ids_s(s));
        },
        StatementV::List { elements, .. } => {
            lemma_ordered_new_block(g, w);
            let (g1, join) = new_block_s(g);
            lemma_list_order(elements, 0, cur, join, g1, w);
            let (g2, c) = list_s(elements, 0, cur, join, g1);
            lemma_ordered_add_edge(g2, w + elements_ids_s(elements, 0), c, join, EdgeKind::Unconditional);
        },
        StatementV::Block { body, .. } => {
            lemma_stmts_order(body, 0, cur, g, w);
        },
    }
}

proof fn lemma_stmts_order(ss: Seq<StatementV>, i: int, cur: nat, g: Seq<BlockV>, w: Seq<NodeId>)
    requires
        cur < g.len(),
        ordered_by(g, w),
    ensures
        ordered_by(build_stmts_s(ss, i, cur, g).0, w + stmts_ids_s(ss, i)),
        build_stmts_s(ss, i, cur, g).1 < build_stmts_s(ss, i, cur, g).0.len(),
        build_stmts_s(ss, i, cur, g).0.len() >= g.len(),
    decreases ss, ss.len() - i,
{
    if 0 <= i < ss.len() {
        lemma_stmt_order(ss[i], cur, g, w);
        let (g1, c1) = build_stmt_s(ss[i], cur, g);
        lemma_stmts_order(ss, i + 1, c1, g1, w + stmt_ids_s(ss[i]));
        assert(w + stmt_ids_s(ss[i]) + stmts_ids_s(ss, i + 1) =~= w + stmts_ids_s(ss, i));
    } else {
        assert(w + stmts_ids_s(ss, i) =~= w);
    }
}

proof fn lemma_arms_order(arms: Seq<CaseArmV>, i: int, cur: nat, join: nat, g: Seq<BlockV>, w: Seq<NodeId>)
    requires
        cur < g.len(),
        join < g.len(),
        ordered_by(g, w),
    ensures
        ordered_by(case_arms_s(arms, i, cur, join, g), w + arms_ids_s(arms, i)),
        case_arms_s(arms, i, cur, join, g).len() >= g.len(),
    decreases arms, arms.len() - i,
{
    if 0 <= i < arms.len() {
        lemma_ordered_new_block(g, w);
        let (g1, e) = new_block_s(g);
        lemma_ordered_add_edge(g1, w, cur, e, EdgeKind::ConditionalTrue);
        let g2 = add_edge_s(g1, cur, e, EdgeKind::ConditionalTrue);
        lemma_stmts_order(arms[i].body, 0, e, g2, w);
        let (g3, x) = build_stmts_s(arms[i].body, 0, e, g2);
        let w1 = w + stmts_ids_s(arms[i].body, 0);
        lemma_ordered_add_edge(g3, w1, x, join, EdgeKind::Unconditional);
        let g4 = add_edge_s(g3, x, join, EdgeKind::Unconditional);
        lemma_arms_order(arms, i + 1, cur, join, g4, w1);
        assert(w1 + arms_ids_s(arms, i + 1) =~= w + arms_ids_s(arms, i));
    } else {
        assert(w + arms_ids_s(arms, i) =~= w);
    }
}

proof fn lemma_list_order(es: Seq<ListElementV>, i: int, cur: nat, join: nat, g: Seq<BlockV>, w: Seq<NodeId>)
    requires
        cur < g.len(),
        join < g.len(),
        ordered_by(g, w),
    ensures
        ordered_by(list_s(es, i, cur, join, g).0, w + elements_ids_s(es, i)),
        list_s(es, i, cur, join, g).1 < list_s(es, i, cur, join, g).0.len(),
        list_s(es, i, cur, join, g).0.len() >= g.len(),
    decreases es, es.len() - i,
{
    if 0 <= i < es.len() {
        lemma_stmt_order(es[i].statement, cur, g, w);
        let (g1, c1) = build_stmt_s(es[i].statement, cur, g);
        let w1 = w + stmt_ids_s(es[i].statement);
        assert(w1 + elements_ids_s(es, i + 1) =~= w + elements_ids_s(es, i));
        if i + 1 < es.len() && (es[i].operator == Some(ListOperator::And) || es[i].operator == Some(
            ListOperator::Or,
        )) {
            lemma_ordered_new_block(g1, w1);
            let (g2, nx) = new_block_s(g1);
            let k1 = if es[i].operator == Some(ListOperator::And) {
                EdgeKind::ConditionalTrue
            } else {
                EdgeKind::ConditionalFalse
            };
            let k2 = if es[i].operator == Some(ListOperator::And) {
                EdgeKind::ConditionalFalse
            } else {
                EdgeKind::ConditionalTrue
            };
            lemma_ordered_add_edge(g2, w1, c1, nx, k1);
            let g3 = add_edge_s(g2, c1, nx, k1);
            lemma_ordered_add_edge(g3, w1, c1, join, k2);
            let g4 = add_edge_s(g3, c1, join, k2);
            lemma_list_order(es, i + 1, nx, join, g4, w1);
        } else {
            lemma_list_order(es, i + 1, c1, join, g1, w1);
        }
    } else {
        assert(w + elements_ids_s(es, i) =~= w);
    }
}

/// The statements of each block occur in the same order as in the source:
/// every block's list is a subsequence of the statements' id walk.
pub proof fn lemma_blocks_keep_source_order(ss: Seq<StatementV>)
    ensures
        ordered_by(cfg_s(ss), stmts_ids_s(ss, 0)),
{
    let e = Seq::<BlockV>::empty();
    let w0 = Seq::<NodeId>::empty();
    assert(ordered_by(e, w0));
    lemma_ordered_new_block(e, w0);
    let (g1, entry) = new_block_s(e);
    lemma_ordered_new_block(g1, w0);
    let (g2, exit) = new_block_s(g1);
    lemma_stmts_order(ss, 0, entry, g2, w0);
    let (g3, last) = build_stmts_s(ss, 0, entry, g2);
    assert(w0 + stmts_ids_s(ss, 0) =~= stmts_ids_s(ss, 0));
    lemma_ordered_add_edge(g3, stmts_ids_s(ss, 0), last, exit, EdgeKind::Unconditional);
}

// ---------------------------------------------------------------------------
// The edges of a `case` statement
// ---------------------------------------------------------------------------

/// The id of block `x`.
pub open spec fn block_at(x: nat) -> BlockId {
    BlockId(x as u32)
}

/// From `g` to `g2` the graph only grew; of the blocks of `g`, only block
/// `sx` gained successors, only block `nx` gained statements and only block
/// `px` gained predecessors (-1 for none).
pub open spec fn build_frame(g: Seq<BlockV>, g2: Seq<BlockV>, sx: int, nx: int, px: int) -> bool {
    &&& g2.len() >= g.len()
    &&& forall|x: int| 0 <= x < g.len() && x != sx ==> (#[trigger] g2[x]).successors == g[x].successors
    &&& forall|x: int| 0 <= x < g.len() && x != nx ==> (#[trigger] g2[x]).nodes == g[x].nodes
    &&& forall|x: int| 0 <= x < g.len() && x != px ==> (#[trigger] g2[x]).predecessors == g[x].predecessors
}

/// An exception of an inner frame is one of the outer frame or a new block.
pub open spec fn within(inner: int, outer: int, n: int) -> bool {
    inner == outer || inner >= n || inner < 0
}

proof fn lemma_frame_refl(g: Seq<BlockV>, sx: int, nx: int, px: int)
    ensures
        build_frame(g, g, sx, nx, px),
{
}

proof fn lemma_frame_compose(
    g0: Seq<BlockV>,
    g1: Seq<BlockV>,
    g2: Seq<BlockV>,
    sx: int,
    nx: int,
    px: int,
    sx2: int,
    nx2: int,
    px2: int,
)
    requires
        build_frame(g0, g1, sx, nx, px),
        build_frame(g1, g2, sx2, nx2, px2),
        within(sx2, sx, g0.len() as int),
        within(nx2, nx, g0.len() as int),
        within(px2, px, g0.len() as int),
    ensures
        build_frame(g0, g2, sx, nx, px),
{
    assert forall|x: int| 0 <= x < g0.len() && x != sx implies (#[trigger] g2[x]).successors == g0[x].successors by {
        assert(g1[x].successors == g0[x].successors);
    }
    assert forall|x: int| 0 <= x < g0.len() && x != nx implies (#[trigger] g2[x]).nodes == g0[x].nodes by {
        assert(g1[x].nodes == g0[x].nodes);
    }
    assert forall|x: int| 0 <= x < g0.len() && x != px implies (#[trigger] g2[x]).predecessors == g0[x].predecessors by {
        assert(g1[x].predecessors == g0[x].predecessors);
    }
}

proof fn lemma_frame_new_block(g: Seq<BlockV>)
    ensures
        build_frame(g, new_block_s(g).0, -1, -1, -1),
        new_block_s(g).0.len() == g.len() + 1,
        new_block_s(g).0.last().predecessors.len() == 0,
        new_block_s(g).0.last().successors.len() == 0,
{
}

proof fn lemma_frame_add_edge(g: Seq<BlockV>, from: nat, to: nat, kind: EdgeKind)
    requires
        from < g.len(),
        to < g.len(),
    ensures
        build_frame(g, add_edge_s(g, from, to, kind), from as int, -1, to as int),
        add_edge_s(g, from, to, kind).len() == g.len(),
        add_edge_s(g, from, to, kind)[from as int].successors == g[from as int].successors.push((BlockId(to as u32), kind)),
        add_edge_s(g, from, to, kind)[to as int].predecessors == g[to as int].predecessors.push(BlockId(from as u32)),
{
}

proof fn lemma_frame_add_node(g: Seq<BlockV>, b: nat, id: NodeId)
    requires
        b < g.len(),
    ensures
        build_frame(g, add_node_s(g, b, id), -1, b as int, -1),
        add_node_s(g, b, id).len() == g.len(),
        add_node_s(g, b, id)[b as int].nodes == g[b as int].nodes.push(id),
{
}

proof fn lemma_stmt_frame(s: StatementV, cur: nat, g: Seq<BlockV>)
    requires
        cur < g.len(),
    ensures
        build_frame(g, build_stmt_s(s, cur, g).0, cur as int, cur as int, -1),
        build_stmt_s(s, cur, g).1 == cur || build_stmt_s(s, cur, g).1 >= g.len(),
        build_stmt_s(s, cur, g).1 < build_stmt_s(s, cur, g).0.len(),
    decreases s, 0int,
{
    let c = cur as int;
    let n = g.len() as int;
    match s {
        StatementV::Assignment { id, .. } => {
            lemma_frame_add_node(g, cur, id);
        },
        StatementV::Command { id, .. } => {
            lemma_frame_add_node(g, cur, id);
        },
        StatementV::SourceCommand { id, .. } => {
            lemma_frame_add_node(g, cur, id);
        },
        StatementV::Pipeline { id, .. } => {
            lemma_frame_add_node(g, cur, id);
        },
        StatementV::Unmodeled { id, .. } => {
            lemma_frame_add_node(g, cur, id);
        },
        StatementV::If { condition, then_body, else_body, .. } => {
            lemma_stmts_frame(condition, 0, cur, g);
            let (g1, ce) = build_stmts_s(condition, 0, cur, g);
            lemma_frame_new_block(g1);
            let (g2, te) = new_block_s(g1);
            lemma_frame_compose(g, g1, g2, c, c, -1, -1, -1, -1);
            lemma_frame_add_edge(g2, ce, te, EdgeKind::ConditionalTrue);
            let g3 = add_edge_s(g2, ce, te, EdgeKind::ConditionalTrue);
            lemma_frame_compose(g, g2, g3, c, c, -1, ce as int, -1, te as int);
            lemma_stmts_frame(then_body, 0, te, g3);
            let (g4, tx) = build_stmts_s(then_body, 0, te, g3);
            lemma_frame_compose(g, g3, g4, c, c, -1, te as int, te as int, -1);
            lemma_frame_new_block(g4);
            let (g5, join) = new_block_s(g4);
            lemma_frame_compose(g, g4, g5, c, c, -1, -1, -1, -1);
            lemma_frame_add_edge(g5, tx, join, EdgeKind::Unconditional);
            let g6 = add_edge_s(g5, tx, join, EdgeKind::Unconditional);
            lemma_frame_compose(g, g5, g6, c, c, -1, tx as int, -1, join as int);
            match else_body {
                Some(e) => {
                    lemma_frame_new_block(g6);
                    let (g7, ee) = new_block_s(g6);
                    lemma_frame_compose(g, g6, g7, c, c, -1, -1, -1, -1);
                    lemma_frame_add_edge(g7, ce, ee, EdgeKind::ConditionalFalse);
                    let g8 = add_edge_s(g7, ce, ee, EdgeKind::ConditionalFalse);
                    lemma_frame_compose(g, g7, g8, c, c, -1, ce as int, -1, ee as int);
                    lemma_stmts_frame(e, 0, ee, g8);
                    let (g9, ex) = build_stmts_s(e, 0, ee, g8);
                    lemma_frame_compose(g, g8, g9, c, c, -1, ee as int, ee as int, -1);
                    lemma_frame_add_edge(g9, ex, join, EdgeKind::Unconditional);
                    lemma_frame_compose(
                        g,
                        g9,
                        add_edge_s(g9, ex, join, EdgeKind::Unconditional),
                        c,
                        c,
                        -1,
                        ex as int,
                        -1,
                        join as int,
                    );
                },
                None => {
                    lemma_frame_add_edge(g6, ce, join, EdgeKind::ConditionalFalse);
                    lemma_frame_compose(
                        g,
                        g6,
                        add_edge_s(g6, ce, join, EdgeKind::ConditionalFalse),
                        c,
                        c,
                        -1,
                        ce as int,
                        -1,
                        join as int,
                    );
                },
            }
        },
        StatementV::For { id, body, .. } => {
            lemma_frame_new_block(g);
            let (g1, h) = new_block_s(g);
            lemma_frame_add_node(g1, h, id);
            let g2 = add_node_s(g1, h, id);
            lemma_frame_compose(g, g1, g2, c, c, -1, -1, h as int, -1);
            lemma_frame_add_edge(g2, cur, h, EdgeKind::Unconditional);
            let g3 = add_edge_s(g2, cur, h, EdgeKind::Unconditional);
            lemma_frame_compose(g, g2, g3, c, c, -1, c, -1, h as int);
            lemma_frame_new_block(g3);
            let (g4, be) = new_block_s(g3);
            lemma_frame_compose(g, g3, g4, c, c, -1, -1, -1, -1);
            lemma_frame_add_edge(g4, h, be, EdgeKind::ConditionalTrue);
            let g5 = add_edge_s(g4, h, be, EdgeKind::ConditionalTrue);
            lemma_frame_compose(g, g4, g5, c, c, -1, h as int, -1, be as int);
            lemma_stmts_frame(body, 0, be, g5);
            let (g6, bx) = build_stmts_s(body, 0, be, g5);
            lemma_frame_compose(g, g5, g6, c, c, -1, be as int, be as int, -1);
            lemma_frame_add_edge(g6, bx, h, EdgeKind::LoopBack);
            let g7 = add_edge_s(g6, bx, h, EdgeKind::LoopBack);
            lemma_frame_compose(g, g6, g7, c, c, -1, bx as int, -1, h as int);
            lemma_frame_new_block(g7);
            let (g8, ex) = new_block_s(g7);
            lemma_frame_compose(g, g7, g8, c, c, -1, -1, -1, -1);
            lemma_frame_add_edge(g8, h, ex, EdgeKind::ConditionalFalse);
            lemma_frame_compose(
                g,
                g8,
                add_edge_s(g8, h, ex, EdgeKind::ConditionalFalse),
                c,
                c,
                -1,
                h as int,
                -1,
                ex as int,
            );
        },
        StatementV::While { condition, body, .. } => {
            lemma_frame_new_block(g);
            let (g1, h) = new_block_s(g);
            lemma_frame_add_edge(g1, cur, h, EdgeKind::Unconditional);
            let g2 = add_edge_s(g1, cur, h, EdgeKind::Unconditional);
            lemma_frame_compose(g, g1, g2, c, c, -1, c, -1, h as int);
            lemma_stmts_frame(condition, 0, h, g2);
            let (g3, ce) = build_stmts_s(condition, 0, h, g2);
            lemma_frame_compose(g, g2, g3, c, c, -1, h as int, h as int, -1);
            lemma_frame_new_block(g3);
            let (g4, be) = new_block_s(g3);
            lemma_frame_compose(g, g3, g4, c, c, -1, -1, -1, -1);
            lemma_frame_add_edge(g4, ce, be, EdgeKind::ConditionalTrue);
            let g5 = add_edge_s(g4, ce, be, EdgeKind::ConditionalTrue);
            lemma_frame_compose(g, g4, g5, c, c, -1, ce as int, -1, be as int);
            lemma_stmts_frame(body, 0, be, g5);
            let (g6, bx) = build_stmts_s(body, 0, be, g5);
            lemma_frame_compose(g, g5, g6, c, c, -1, be as int, be as int, -1);
            lemma_frame_add_edge(g6, bx, h, EdgeKind::LoopBack);
            let g7 = add_edge_s(g6, bx, h, EdgeKind::LoopBack);
            lemma_frame_compose(g, g6, g7, c, c, -1, bx as int, -1, h as int);
            lemma_frame_new_block(g7);
            let (g8, ex) = new_block_s(g7);
            lemma_frame_compose(g, g7, g8, c, c, -1, -1, -1, -1);
            lemma_frame_add_edge(g8, ce, ex, EdgeKind::ConditionalFalse);
            lemma_frame_compose(
                g,
                g8,
                add_edge_s(g8, ce, ex, EdgeKind::ConditionalFalse),
                c,
                c,
                -1,
                ce as int,
                -1,
                ex as int,
            );
        },
        StatementV::Case { id, arms, .. } => {
            lemma_frame_add_node(g, cur, id);
            let g1 = add_node_s(g, cur, id);
            lemma_frame_new_block(g1);
            let (g2, join) = new_block_s(g1);
            lemma_frame_compose(g, g1, g2, c, c, -1, -1, -1, -1);
            lemma_arms_frame(arms, 0, cur, join, g2);
            let g3 = case_arms_s(arms, 0, cur, join, g2);
            lemma_frame_compose(g, g2, g3, c, c, -1, c, -1, join as int);
            if !has_default_s(arms) {
                lemma_frame_add_edge(g3, cur, join, EdgeKind::ConditionalFalse);
                lemma_frame_compose(
                    g,
                    g3,
                    add_edge_s(g3, cur, join, EdgeKind::ConditionalFalse),
                    c,
                    c,
                    -1,
                    c,
                    -1,
                    join as int,
                );
            }
        },
        StatementV::List { elements, .. } => {
            lemma_frame_new_block(g);
            let (g1, join) = new_block_s(g);
            lemma_list_frame(elements, 0, cur, join, g1);
            let (g2, cc) = list_s(elements, 0, cur, join, g1);
            lemma_frame_compose(g, g1, g2, c, c, -1, c, c, join as int);
            lemma_frame_add_edge(g2, cc, join, EdgeKind::Unconditional);
            lemma_frame_compose(
                g,
                g2,
                add_edge_s(g2, cc, join, EdgeKind::Unconditional),
                c,
                c,
                -1,
                cc as int,
                -1,
                join as int,
            );
        },
        StatementV::Block { body, .. } => {
            lemma_stmts_frame(body, 0, cur, g);
        },
    }
}

proof fn lemma_stmts_frame(ss: Seq<StatementV>, i: int, cur: nat, g: Seq<BlockV>)
    requires
        cur < g.len(),
    ensures
        build_frame(g, build_stmts_s(ss, i, cur, g).0, cur as int, cur as int, -1),
        build_stmts_s(ss, i, cur, g).1 == cur || build_stmts_s(ss, i, cur, g).1 >= g.len(),
        build_stmts_s(ss, i, cur, g).1 < build_stmts_s(ss, i, cur, g).0.len(),
    decreases ss, ss.len() - i,
{
    if 0 <= i < ss.len() {
        lemma_stmt_frame(ss[i], cur, g);
        let (g1, c1) = build_stmt_s(ss[i], cur, g);
        lemma_stmts_frame(ss, i + 1, c1, g1);
        lemma_frame_compose(
            g,
            g1,
            build_stmts_s(ss, i + 1, c1, g1).0,
            cur as int,
            cur as int,
            -1,
            c1 as int,
            c1 as int,
            -1,
        );
    } else {
        lemma_frame_refl(g, cur as int, cur as int, -1);
    }
}

/// Over the arms from `i` on: `cur` gains one `ConditionalTrue` edge per
/// arm, at the end of its successors; `join` gains one predecessor per arm,
/// a new block with an `Unconditional` edge to `join`; no other block of `g`
/// changes but for new statements in none of them.
proof fn lemma_arms_frame(arms: Seq<CaseArmV>, i: int, cur: nat, join: nat, g: Seq<BlockV>)
    requires
        cur < g.len(),
        join < g.len(),
        cur != join,
        0 <= i <= arms.len(),
    ensures
        build_frame(g, case_arms_s(arms, i, cur, join, g), cur as int, -1, join as int),
        case_arms_s(arms, i, cur, join, g)[cur as int].successors.len() == g[cur as int].successors.len() + arms.len() - i,
        case_arms_s(arms, i, cur, join, g)[cur as int].successors.take(g[cur as int].successors.len() as int)
            == g[cur as int].successors,
        forall|k: int|
            g[cur as int].successors.len() <= k < case_arms_s(arms, i, cur, join, g)[cur as int].successors.len() ==> (
            #[trigger] case_arms_s(arms, i, cur, join, g)[cur as int].successors[k]).1 == EdgeKind::ConditionalTrue
                && exists|x: nat|
                g.len() <= x < case_arms_s(arms, i, cur, join, g).len() && case_arms_s(arms, i, cur, join, g)[cur as int].successors[k].0
                    == #[trigger] block_at(x),
        case_arms_s(arms, i, cur, join, g)[join as int].predecessors.len() == g[join as int].predecessors.len() + arms.len() - i,
        case_arms_s(arms, i, cur, join, g)[join as int].predecessors.take(g[join as int].predecessors.len() as int)
            == g[join as int].predecessors,
        forall|k: int|
            g[join as int].predecessors.len() <= k < case_arms_s(arms, i, cur, join, g)[join as int].predecessors.len()
                ==> exists|x: nat|
                g.len() <= x < case_arms_s(arms, i, cur, join, g).len() && (#[trigger] case_arms_s(
                    arms,
                    i,
                    cur,
                    join,
                    g,
                )[join as int].predecessors[k]) == BlockId(x as u32) && case_arms_s(arms, i, cur, join, g)[x as int].successors.contains(
                (BlockId(join as u32), EdgeKind::Unconditional),
            ),
    decreases arms, arms.len() - i,
{
    let c = cur as int;
    let j = join as int;
    let n0 = g[c].successors.len() as int;
    let p0 = g[j].predecessors.len() as int;
    if i < arms.len() {
        lemma_frame_new_block(g);
        let (g1, e) = new_block_s(g);
        lemma_frame_add_edge(g1, cur, e, EdgeKind::ConditionalTrue);
        let g2 = add_edge_s(g1, cur, e, EdgeKind::ConditionalTrue);
        lemma_frame_compose(g, g1, g2, c, -1, j, c, -1, e as int);
        lemma_stmts_frame(arms[i].body, 0, e, g2);
        let (g3, x) = build_stmts_s(arms[i].body, 0, e, g2);
        lemma_frame_compose(g, g2, g3, c, -1, j, e as int, e as int, -1);
        lemma_frame_add_edge(g3, x, join, EdgeKind::Unconditional);
        let g4 = add_edge_s(g3, x, join, EdgeKind::Unconditional);
        lemma_frame_compose(g, g3, g4, c, -1, j, x as int, -1, j);
        assert(g4[c].successors == g[c].successors.push((BlockId(e as u32), EdgeKind::ConditionalTrue)));
        assert(g4[j].predecessors == g[j].predecessors.push(BlockId(x as u32)));
        assert(g4[x as int].successors.last() == (BlockId(join as u32), EdgeKind::Unconditional));
        lemma_arms_frame(arms, i + 1, cur, join, g4);
        let r = case_arms_s(arms, i + 1, cur, join, g4);
        lemma_frame_compose(g, g4, r, c, -1, j, c, -1, j);
        let s4 = g4[c].successors;
        assert(r[c].successors.take(n0) =~= r[c].successors.take(s4.len() as int).take(n0));
        assert forall|k: int| n0 <= k < r[c].successors.len() implies (#[trigger] r[c].successors[k]).1
            == EdgeKind::ConditionalTrue && exists|y: nat| g.len() <= y < r.len() && r[c].successors[k].0 == #[trigger] block_at(y) by {
            if k < s4.len() {
                assert(r[c].successors[k] == r[c].successors.take(s4.len() as int)[k]);
                assert(r[c].successors[k].0 == block_at(e));
            } else {
                let y = choose|y: nat| g4.len() <= y < r.len() && r[c].successors[k].0 == #[trigger] block_at(y);
            }
        }
        let q4 = g4[j].predecessors;
        assert(r[j].predecessors.take(p0) =~= r[j].predecessors.take(q4.len() as int).take(p0));
        assert(r[x as int].successors == g4[x as int].successors);
        assert(g4[x as int].successors.contains((BlockId(join as u32), EdgeKind::Unconditional))) by {
            assert(g4[x as int].successors[g4[x as int].successors.len() - 1] == (
            BlockId(join as u32), EdgeKind::Unconditional));
        }
        assert forall|k: int| p0 <= k < r[j].predecessors.len() implies exists|y: nat|
            g.len() <= y < r.len() && (#[trigger] r[j].predecessors[k]) == BlockId(y as u32)
                && r[y as int].successors.contains((BlockId(join as u32), EdgeKind::Unconditional)) by {
            if k < q4.len() {
                assert(r[j].predecessors[k] == r[j].predecessors.take(q4.len() as int)[k]);
                assert(r[j].predecessors[k] == BlockId(x as u32));
            } else {
                let y = choose|y: nat|
                    g4.len() <= y < r.len() && r[j].predecessors[k] == BlockId(y as u32)
                        && r[y as int].successors.contains((BlockId(join as u32), EdgeKind::Unconditional));
            }
        }
    } else {
        lemma_frame_refl(g, c, -1, j);
        assert(g[c].successors.take(n0) =~= g[c].successors);
        assert(g[j].predecessors.take(p0) =~= g[j].predecessors);
    }
}

proof fn lemma_list_frame(es: Seq<ListElementV>, i: int, cur: nat, join: nat, g: Seq<BlockV>)
    requires
        cur < g.len(),
        join < g.len(),
    ensures
        build_frame(g, list_s(es, i, cur, join, g).0, cur as int, cur as int, join as int),
        list_s(es, i, cur, join, g).1 == cur || list_s(es, i, cur, join, g).1 >= g.len(),
        list_s(es, i, cur, join, g).1 < list_s(es, i, cur, join, g).0.len(),
    decreases es, es.len() - i,
{
    let c = cur as int;
    let j = join as int;
    if 0 <= i < es.len() {
        lemma_stmt_frame(es[i].statement, cur, g);
        let (g1, c1) = build_stmt_s(es[i].statement, cur, g);
        if i + 1 < es.len() && (es[i].operator == Some(ListOperator::And) || es[i].operator == Some(
            ListOperator::Or,
        )) {
            lemma_frame_new_block(g1);
            let (g2, nx) = new_block_s(g1);
            lemma_frame_compose(g, g1, g2, c, c, j, -1, -1, -1);
            let k1 = if es[i].operator == Some(ListOperator::And) {
                EdgeKind::ConditionalTrue
            } else {
                EdgeKind::ConditionalFalse
            };
            let k2 = if es[i].operator == Some(ListOperator::And) {
                EdgeKind::ConditionalFalse
            } else {
                EdgeKind::ConditionalTrue
            };
            lemma_frame_add_edge(g2, c1, nx, k1);
            let g3 = add_edge_s(g2, c1, nx, k1);
            lemma_frame_compose(g, g2, g3, c, c, j, c1 as int, -1, nx as int);
            lemma_frame_add_edge(g3, c1, join, k2);
            let g4 = add_edge_s(g3, c1, join, k2);
            lemma_frame_compose(g, g3, g4, c, c, j, c1 as int, -1, j);
            lemma_list_frame(es, i + 1, nx, join, g4);
            lemma_frame_compose(g, g4, list_s(es, i + 1, nx, join, g4).0, c, c, j, nx as int, nx as int, j);
        } else {
            lemma_frame_compose(g, g, g1, c, c, j, c, c, -1);
            lemma_list_frame(es, i + 1, c1, join, g1);
            lemma_frame_compose(g, g1, list_s(es, i + 1, c1, join, g1).0, c, c, j, c1 as int, c1 as int, j);
        }
    } else {
        lemma_frame_refl(g, c, c, j);
    }
}

/// A `case` statement entered from `cur` ends in a new join block; the
/// statement's id is appended to `cur`'s statements; `cur` gains one
/// `ConditionalTrue` edge per arm, then, only where no arm has a pattern that
/// begins with `*`, a `ConditionalFalse` edge to the join block; the join
/// block's predecessors are one new block per arm, each with an
/// `Unconditional` edge to it, then `cur` where that last edge was added.
pub proof fn lemma_case_edges(s: StatementV, cur: nat, g: Seq<BlockV>)
    requires
        s is Case,
        cur < g.len(),
        build_stmt_s(s, cur, g).0.len() <= u32::MAX,
    ensures
        build_stmt_s(s, cur, g).1 == g.len(),
        build_stmt_s(s, cur, g).0[cur as int].nodes == g[cur as int].nodes.push(s->Case_id),
        build_stmt_s(s, cur, g).0[cur as int].successors.take(g[cur as int].successors.len() as int)
            == g[cur as int].successors,
        build_stmt_s(s, cur, g).0[cur as int].successors.len() == g[cur as int].successors.len() + s->Case_arms.len()
            + if has_default_s(s->Case_arms) { 0int } else { 1int },
        forall|k: int|
            g[cur as int].successors.len() <= k < g[cur as int].successors.len() + s->Case_arms.len() ==> (
            #[trigger] build_stmt_s(s, cur, g).0[cur as int].successors[k]).1 == EdgeKind::ConditionalTrue
                && g.len() < build_stmt_s(s, cur, g).0[cur as int].successors[k].0.0 < build_stmt_s(s, cur, g).0.len(),
        !has_default_s(s->Case_arms) ==> build_stmt_s(s, cur, g).0[cur as int].successors.last() == (
        BlockId(g.len() as u32), EdgeKind::ConditionalFalse),
        build_stmt_s(s, cur, g).0[g.len() as int].predecessors.len() == s->Case_arms.len() + if has_default_s(
            s->Case_arms,
        ) {
            0int
        } else {
            1int
        },
        forall|k: int|
            0 <= k < s->Case_arms.len() ==> g.len() < (#[trigger] build_stmt_s(s, cur, g).0[g.len() as int].predecessors[k]).0
                && build_stmt_s(s, cur, g).0[build_stmt_s(s, cur, g).0[g.len() as int].predecessors[k].0 as int].successors.contains(
                (BlockId(g.len() as u32), EdgeKind::Unconditional),
            ),
        !has_default_s(s->Case_arms) ==> build_stmt_s(s, cur, g).0[g.len() as int].predecessors.last() == BlockId(
            cur as u32,
        ),
{
    let id = s->Case_id;
    let arms = s->Case_arms;
    {
        let c = cur as int;
        lemma_frame_add_node(g, cur, id);
        let g1 = add_node_s(g, cur, id);
        lemma_frame_new_block(g1);
        let (g2, join) = new_block_s(g1);
        let j = join as int;
        assert(g2[c].successors == g[c].successors);
        assert(g2[c].nodes == g[c].nodes.push(id));
        assert(g2[j].predecessors.len() == 0);
        lemma_arms_frame(arms, 0, cur, join, g2);
        let g3 = case_arms_s(arms, 0, cur, join, g2);
        assert(g3[c].nodes == g2[c].nodes);
        assert forall|k: int| 0 <= k < arms.len() implies exists|x: nat|
            g.len() < x < g3.len() && (#[trigger] g3[j].predecessors[k]) == BlockId(x as u32)
                && g3[x as int].successors.contains((BlockId(join as u32), EdgeKind::Unconditional)) by {
            let x = choose|x: nat|
                g2.len() <= x < g3.len() && g3[j].predecessors[k] == BlockId(x as u32)
                    && g3[x as int].successors.contains((BlockId(join as u32), EdgeKind::Unconditional));
        }
        if !has_default_s(arms) {
            lemma_frame_add_edge(g3, cur, join, EdgeKind::ConditionalFalse);
            let g4 = add_edge_s(g3, cur, join, EdgeKind::ConditionalFalse);
            let n0 = g[c].successors.len() as int;
            assert(g4[c].successors.take(n0) =~= g3[c].successors.take(n0));
            assert forall|k: int| n0 <= k < n0 + arms.len() implies (#[trigger] g4[c].successors[k]).1
                == EdgeKind::ConditionalTrue && g.len() < g4[c].successors[k].0.0 < g4.len() by {
                assert(g4[c].successors[k] == g3[c].successors[k]);
                let x = choose|x: nat| g2.len() <= x < g3.len() && g3[c].successors[k].0 == #[trigger] block_at(x);
            }
            assert forall|k: int| 0 <= k < arms.len() implies exists|x: nat|
                g.len() < x < g4.len() && (#[trigger] g4[j].predecessors[k]) == BlockId(x as u32)
                    && g4[x as int].successors.contains((BlockId(join as u32), EdgeKind::Unconditional)) by {
                let x = choose|x: nat|
                    g.len() < x < g3.len() && g3[j].predecessors[k] == BlockId(x as u32)
                        && g3[x as int].successors.contains((BlockId(join as u32), EdgeKind::Unconditional));
                assert(g4[j].predecessors[k] == g3[j].predecessors[k]);
                assert(x != cur);
                assert(g4[x as int].successors == g3[x as int].successors);
            }
        }
        let r = if has_default_s(arms) {
            g3
        } else {
            add_edge_s(g3, cur, join, EdgeKind::ConditionalFalse)
        };
        assert(build_stmt_s(s, cur, g).0 == r);
        if has_default_s(arms) {
            let n0 = g[c].successors.len() as int;
            assert forall|k: int| n0 <= k < n0 + arms.len() implies (#[trigger] r[c].successors[k]).1
                == EdgeKind::ConditionalTrue && g.len() < r[c].successors[k].0.0 < r.len() by {
                let x = choose|x: nat| g2.len() <= x < g3.len() && g3[c].successors[k].0 == #[trigger] block_at(x);
            }
        }
        assert forall|k: int|
            0 <= k < arms.len() implies g.len() < (#[trigger] r[j].predecessors[k]).0
                && r[r[j].predecessors[k].0 as int].successors.contains((BlockId(join as u32), EdgeKind::Unconditional)) by {
            if has_default_s(arms) {
                let x = choose|x: nat|
                    g.len() < x < g3.len() && g3[j].predecessors[k] == BlockId(x as u32)
                        && g3[x as int].successors.contains((BlockId(join as u32), EdgeKind::Unconditional));
                assert(r[j].predecessors[k].0 == x);
            } else {
                let g4 = add_edge_s(g3, cur, join, EdgeKind::ConditionalFalse);
                assert(r == g4);
                let x = choose|x: nat|
                    g.len() < x < g4.len() && g4[j].predecessors[k] == BlockId(x as u32)
                        && g4[x as int].successors.contains((BlockId(join as u32), EdgeKind::Unconditional));
                assert(r[j].predecessors[k].0 == x);
            }
        }
        assert(join == g.len());
    }
}

// ---------------------------------------------------------------------------
// The edges of `&&` and `||`
// ---------------------------------------------------------------------------

/// The operators of the elements from `i` on that branch: `&&` or `||`,
/// and not the last element.
pub open spec fn branch_ops(es: Seq<ListElementV>, i: int) -> Seq<ListOperator>
    decreases es.len() - i,
{
    if i < 0 || i >= es.len() {
        Seq::empty()
    } else if i + 1 < es.len() && (es[i].operator == Some(ListOperator::And) || es[i].operator == Some(
        ListOperator::Or,
    )) {
        seq![es[i].operator->Some_0] + branch_ops(es, i + 1)
    } else {
        branch_ops(es, i + 1)
    }
}

/// The edge by which an element followed by `op` skips the rest of its
/// list: on success after `||`, on failure after `&&`.
pub open spec fn skip_kind(op: ListOperator) -> EdgeKind {
    if op == ListOperator::Or {
        EdgeKind::ConditionalTrue
    } else {
        EdgeKind::ConditionalFalse
    }
}

/// The edge by which an element followed by `op` goes on to the next one:
/// on failure after `||`, on success after `&&`.
pub open spec fn go_on_kind(op: ListOperator) -> EdgeKind {
    if op == ListOperator::Or {
        EdgeKind::ConditionalFalse
    } else {
        EdgeKind::ConditionalTrue
    }
}

/// Block `p` ends with an edge of kind `go_on_kind(op)` to a block other
/// than `join`, then an edge of kind `skip_kind(op)` to `join`.
pub open spec fn branches_to(g: Seq<BlockV>, p: int, join: nat, op: ListOperator) -> bool {
    let s = g[p].successors;
    &&& 0 <= p < g.len()
    &&& s.len() >= 2
    &&& s[s.len() - 1] == (BlockId(join as u32), skip_kind(op))
    &&& s[s.len() - 2].1 == go_on_kind(op)
    &&& s[s.len() - 2].0 != BlockId(join as u32)
}

proof fn lemma_list_join(es: Seq<ListElementV>, i: int, cur: nat, join: nat, g: Seq<BlockV>)
    requires
        cur < g.len(),
        join < g.len(),
        cur != join,
        0 <= i <= es.len(),
        list_s(es, i, cur, join, g).0.len() <= u32::MAX,
    ensures
        build_frame(g, list_s(es, i, cur, join, g).0, cur as int, cur as int, join as int),
        list_s(es, i, cur, join, g).1 == cur || list_s(es, i, cur, join, g).1 >= g.len(),
        list_s(es, i, cur, join, g).1 < list_s(es, i, cur, join, g).0.len(),
        list_s(es, i, cur, join, g).0[join as int].predecessors.len() == g[join as int].predecessors.len()
            + branch_ops(es, i).len(),
        list_s(es, i, cur, join, g).0[join as int].predecessors.take(g[join as int].predecessors.len() as int)
            == g[join as int].predecessors,
        forall|k: int|
            0 <= k < branch_ops(es, i).len() ==> {
                let p = (#[trigger] list_s(es, i, cur, join, g).0[join as int].predecessors[g[join as int].predecessors.len()
                    + k]).0 as int;
                &&& p < list_s(es, i, cur, join, g).1
                &&& (p == cur || p >= g.len())
                &&& branches_to(list_s(es, i, cur, join, g).0, p, join, branch_ops(es, i)[k])
            },
    decreases es.len() - i,
{
    let c = cur as int;
    let j = join as int;
    lemma_list_frame(es, i, cur, join, g);
    let p0 = g[j].predecessors.len() as int;
    if i < es.len() {
        lemma_stmt_frame(es[i].statement, cur, g);
        let (g1, c1) = build_stmt_s(es[i].statement, cur, g);
        assert(g1[j].predecessors == g[j].predecessors);
        if i + 1 < es.len() && (es[i].operator == Some(ListOperator::And) || es[i].operator == Some(
            ListOperator::Or,
        )) {
            let op = es[i].operator->Some_0;
            let k1 = if es[i].operator == Some(ListOperator::And) {
                EdgeKind::ConditionalTrue
            } else {
                EdgeKind::ConditionalFalse
            };
            let k2 = if es[i].operator == Some(ListOperator::And) {
                EdgeKind::ConditionalFalse
            } else {
                EdgeKind::ConditionalTrue
            };
            assert(k1 == go_on_kind(op) && k2 == skip_kind(op));
            lemma_frame_new_block(g1);
            let (g2, nx) = new_block_s(g1);
            lemma_frame_add_edge(g2, c1, nx, k1);
            let g3 = add_edge_s(g2, c1, nx, k1);
            lemma_frame_add_edge(g3, c1, join, k2);
            let g4 = add_edge_s(g3, c1, join, k2);
            assert(g4[c1 as int].successors == g1[c1 as int].successors.push((BlockId(nx as u32), k1)).push(
                (BlockId(join as u32), k2),
            ));
            assert(g4[j].predecessors == g[j].predecessors.push(BlockId(c1 as u32)));
            let (r, cc) = list_s(es, i + 1, nx, join, g4);
            assert(list_s(es, i, cur, join, g) == (r, cc));
            lemma_list_frame(es, i + 1, nx, join, g4);
            lemma_list_join(es, i + 1, nx, join, g4);
            assert(branch_ops(es, i) == seq![op] + branch_ops(es, i + 1));
            assert(r[c1 as int].successors == g4[c1 as int].successors);
            let q4 = g4[j].predecessors;
            assert(r[j].predecessors.take(p0) =~= r[j].predecessors.take(q4.len() as int).take(p0));
            assert(r[j].predecessors[p0] == r[j].predecessors.take(q4.len() as int)[p0]);
            assert(BlockId(nx as u32) != BlockId(join as u32));
            assert forall|k: int| 0 <= k < branch_ops(es, i).len() implies {
                let p = (#[trigger] r[j].predecessors[p0 + k]).0 as int;
                &&& p < cc
                &&& (p == cur || p >= g.len())
                &&& branches_to(r, p, join, branch_ops(es, i)[k])
            } by {
                if k == 0 {
                    assert(r[j].predecessors[p0].0 as int == c1);
                    assert(branch_ops(es, i)[0] == op);
                } else {
                    assert(branch_ops(es, i)[k] == branch_ops(es, i + 1)[k - 1]);
                    assert(q4.len() + (k - 1) == p0 + k);
                    let p = r[j].predecessors[q4.len() + (k - 1)].0 as int;
                }
            }
        } else {
            let (r, cc) = list_s(es, i + 1, c1, join, g1);
            assert(list_s(es, i, cur, join, g) == (r, cc));
            lemma_list_frame(es, i + 1, c1, join, g1);
            lemma_list_join(es, i + 1, c1, join, g1);
            assert(branch_ops(es, i) == branch_ops(es, i + 1));
        }
    } else {
        assert(g[j].predecessors.take(p0) =~= g[j].predecessors);
    }
}

/// A list entered from `cur` ends in a new join block. For each element
/// followed by `&&` or `||` (but the last), in order, the block where it
/// ends goes on to the next element by one edge and skips to the join block
/// by another: after `&&` on success and failure, after `||` on failure and
/// success; these are the join block's first predecessors, and the last is
/// the block where the last element ends, by an unconditional edge.
pub proof fn lemma_list_edges(s: StatementV, cur: nat, g: Seq<BlockV>)
    requires
        s is List,
        cur < g.len(),
        build_stmt_s(s, cur, g).0.len() <= u32::MAX,
    ensures
        build_stmt_s(s, cur, g).1 == g.len(),
        build_stmt_s(s, cur, g).0[g.len() as int].predecessors.len() == branch_ops(s->List_elements, 0).len() + 1,
        forall|k: int|
            0 <= k < branch_ops(s->List_elements, 0).len() ==> branches_to(
                build_stmt_s(s, cur, g).0,
                (#[trigger] build_stmt_s(s, cur, g).0[g.len() as int].predecessors[k]).0 as int,
                g.len(),
                branch_ops(s->List_elements, 0)[k],
            ),
        ({
            let r = build_stmt_s(s, cur, g).0;
            let p = r[g.len() as int].predecessors.last().0 as int;
            0 <= p < r.len() && r[p].successors.last() == (BlockId(g.len() as u32), EdgeKind::Unconditional)
        }),
{
    let es = s->List_elements;
    lemma_frame_new_block(g);
    let (g1, join) = new_block_s(g);
    let j = join as int;
    assert(g1[j].predecessors.len() == 0);
    let (g2, c) = list_s(es, 0, cur, join, g1);
    lemma_list_frame(es, 0, cur, join, g1);
    lemma_frame_add_edge(g2, c, join, EdgeKind::Unconditional);
    assert(build_stmt_s(s, cur, g).0 == add_edge_s(g2, c, join, EdgeKind::Unconditional));
    lemma_list_join(es, 0, cur, join, g1);
    let r = add_edge_s(g2, c, join, EdgeKind::Unconditional);
    assert(r[j].predecessors == g2[j].predecessors.push(BlockId(c as u32)));
    assert forall|k: int| 0 <= k < branch_ops(es, 0).len() implies branches_to(
        r,
        (#[trigger] r[j].predecessors[k]).0 as int,
        join,
        branch_ops(es, 0)[k],
    ) by {
        let p = g2[j].predecessors[0 + k].0 as int;
        assert(r[j].predecessors[k] == g2[j].predecessors[k]);
        assert(p != c as int);
        assert(r[p].successors == g2[p].successors);
    }
}

/// Builds the control flow graph of a statement sequence, as `cfg_s`
/// states: block 0 is the entry, block 1 the exit.
pub fn build_cfg(stmts: &Vec<Statement>) -> (g: Cfg)
    requires
        stmts_weight(stmts_v(stmts@), 0) + 2 < u32::MAX,
    ensures
        g.graph() == cfg_s(stmts_v(stmts@)),
        g.entry_id() == BlockId(0),
        g.exit_id() == BlockId(1),
        graph_wf(g.graph()),
        g.well_formed(),
        g.graph()[1].successors.len() == 0,
        g.graph()[1].nodes.len() == 0,
        g.graph()[1].predecessors.len() == 1,
        g.graph()[0].predecessors.len() == 0,
        forall|n: NodeId| #[trigger] block_nodes_count(g.graph(), n) == count_node(stmts_ids_s(stmts_v(stmts@), 0), n),
        is_built(g.graph()),
{
    proof {
        lemma_entry_has_no_predecessors(stmts_v(stmts@));
        assert forall|n: NodeId| #[trigger] block_nodes_count(cfg_s(stmts_v(stmts@)), n) == count_node(
            stmts_ids_s(stmts_v(stmts@), 0),
            n,
        ) by {
            lemma_each_node_in_one_block(stmts_v(stmts@), n);
        }
    }
    let mut builder = CfgBuilder { blocks: Vec::new() };
    assert(builder.g() =~= Seq::<BlockV>::empty());
    assert(graph_wf(builder.g()));
    let entry = builder.new_block();
    let exit = builder.new_block();
    let last = builder.build_stmts(stmts, entry);
    builder.add_edge(last, exit, EdgeKind::Unconditional);
    let g = Cfg { blocks: builder.blocks, entry, exit };
    assert(stmts_weight(stmts_v(stmts@), 0) + 2 < u32::MAX && cfg_s(stmts_v(stmts@)) == g.graph());
    g
}


// ---------------------------------------------------------------------------
// Reachability and the depth-first order
// ---------------------------------------------------------------------------

/// Every edge of `g` leads to a block of `g`.
pub open spec fn edges_in_range(g: Seq<BlockV>) -> bool {
    forall|b: int, j: int|
        0 <= b < g.len() && 0 <= j < g[b].successors.len() ==> (#[trigger] g[b].successors[j]).0.0 < g.len()
}

/// `g` has an edge from `a` to `b`.
pub open spec fn has_edge(g: Seq<BlockV>, a: int, b: int) -> bool {
    0 <= a < g.len() && exists|j: int| 0 <= j < g[a].successors.len() && g[a].successors[j].0.0 == b
}

/// `p` is a path of `g`: consecutive blocks joined by edges.
pub open spec fn is_path(g: Seq<BlockV>, p: Seq<int>) -> bool {
    p.len() >= 1 && forall|k: int| 0 <= k < p.len() - 1 ==> #[trigger] has_edge(g, p[k], p[k + 1])
}

/// Block `b` can be reached from block `a`.
pub open spec fn reachable(g: Seq<BlockV>, a: int, b: int) -> bool {
    exists|p: Seq<int>| #[trigger] is_path(g, p) && p[0] == a && p.last() == b
}

pub proof fn lemma_reach_step(g: Seq<BlockV>, a: int, b: int, c: int)
    requires
        reachable(g, a, b),
        has_edge(g, b, c),
    ensures
        reachable(g, a, c),
{
    let p = choose|p: Seq<int>| #[trigger] is_path(g, p) && p[0] == a && p.last() == b;
    let q = p.push(c);
    assert forall|k: int| 0 <= k < q.len() - 1 implies #[trigger] has_edge(g, q[k], q[k + 1]) by {
        if k < p.len() - 1 {
            assert(q[k] == p[k] && q[k + 1] == p[k + 1]);
        }
    }
    assert(is_path(g, q));
}

// ---------------------------------------------------------------------------
// Every block of a built graph can be reached
// ---------------------------------------------------------------------------

/// Every edge of `g` is still an edge of `g2`.
pub open spec fn edges_grow(g: Seq<BlockV>, g2: Seq<BlockV>) -> bool {
    &&& g.len() <= g2.len()
    &&& forall|a: int, b: int| #[trigger] has_edge(g, a, b) ==> has_edge(g2, a, b)
}

/// Every block of `g` but those in `pend` can be reached from block 0; the
/// blocks in `pend` are blocks of `g`.
pub open spec fn reach_but(g: Seq<BlockV>, pend: Set<int>) -> bool {
    &&& forall|b: int| 0 <= b < g.len() && !pend.contains(b) ==> reachable(g, 0, b)
    &&& forall|b: int| pend.contains(b) ==> 0 <= b < g.len()
}

proof fn lemma_grow_trans(g0: Seq<BlockV>, g1: Seq<BlockV>, g2: Seq<BlockV>)
    requires
        edges_grow(g0, g1),
        edges_grow(g1, g2),
    ensures
        edges_grow(g0, g2),
{
    assert forall|a: int, b: int| #[trigger] has_edge(g0, a, b) implies has_edge(g2, a, b) by {
        assert(has_edge(g1, a, b));
    }
}

proof fn lemma_grow_reach(g: Seq<BlockV>, g2: Seq<BlockV>, a: int, b: int)
    requires
        edges_grow(g, g2),
        reachable(g, a, b),
    ensures
        reachable(g2, a, b),
{
    let p = choose|p: Seq<int>| #[trigger] is_path(g, p) && p[0] == a && p.last() == b;
    assert forall|k: int| 0 <= k < p.len() - 1 implies #[trigger] has_edge(g2, p[k], p[k + 1]) by {
        assert(has_edge(g, p[k], p[k + 1]));
    }
    assert(is_path(g2, p));
}

/// Where each block of `g` keeps its successors as a prefix of its new
/// ones, every edge is kept.
proof fn lemma_grow_prefix(g: Seq<BlockV>, g2: Seq<BlockV>)
    requires
        g.len() <= g2.len(),
        forall|x: int| 0 <= x < g.len() ==> g[x].successors.is_prefix_of(#[trigger] g2[x].successors),
    ensures
        edges_grow(g, g2),
{
    assert forall|a: int, b: int| #[trigger] has_edge(g, a, b) implies has_edge(g2, a, b) by {
        let j = choose|j: int| 0 <= j < g[a].successors.len() && g[a].successors[j].0.0 == b;
        assert(g2[a].successors.subrange(0, g[a].successors.len() as int)[j] == g2[a].successors[j]);
    }
}

proof fn lemma_rb_grow(g: Seq<BlockV>, g2: Seq<BlockV>, pend: Set<int>)
    requires
        reach_but(g, pend),
        edges_grow(g, g2),
    ensures
        forall|b: int| 0 <= b < g.len() && !pend.contains(b) ==> reachable(g2, 0, b),
        forall|b: int| pend.contains(b) ==> 0 <= b < g2.len(),
{
    assert forall|b: int| 0 <= b < g.len() && !pend.contains(b) implies reachable(g2, 0, b) by {
        lemma_grow_reach(g, g2, 0, b);
    }
}

/// A new block, not yet reached.
proof fn lemma_rb_new_pending(g: Seq<BlockV>, pend: Set<int>)
    requires
        reach_but(g, pend),
    ensures
        reach_but(new_block_s(g).0, pend.insert(g.len() as int)),
        edges_grow(g, new_block_s(g).0),
{
    let g2 = new_block_s(g).0;
    assert forall|x: int| 0 <= x < g.len() implies g[x].successors.is_prefix_of(#[trigger] g2[x].successors) by {
        assert(g2[x] == g[x]);
        assert(g[x].successors =~= g2[x].successors.subrange(0, g[x].successors.len() as int));
    }
    lemma_grow_prefix(g, g2);
    lemma_rb_grow(g, g2, pend);
}

proof fn lemma_rb_add_edge(g: Seq<BlockV>, from: nat, to: nat, kind: EdgeKind, pend: Set<int>)
    requires
        reach_but(g, pend),
        from < g.len(),
        to < g.len(),
        g.len() <= u32::MAX,
    ensures
        reach_but(add_edge_s(g, from, to, kind), pend),
        edges_grow(g, add_edge_s(g, from, to, kind)),
        has_edge(add_edge_s(g, from, to, kind), from as int, to as int),
{
    let g2 = add_edge_s(g, from, to, kind);
    lemma_frame_add_edge(g, from, to, kind);
    assert forall|x: int| 0 <= x < g.len() implies g[x].successors.is_prefix_of(#[trigger] g2[x].successors) by {
        assert(g[x].successors =~= g2[x].successors.subrange(0, g[x].successors.len() as int));
    }
    lemma_grow_prefix(g, g2);
    lemma_rb_grow(g, g2, pend);
    assert(g2[from as int].successors.last().0.0 == to);
}

proof fn lemma_rb_add_node(g: Seq<BlockV>, b: nat, id: NodeId, pend: Set<int>)
    requires
        reach_but(g, pend),
        b < g.len(),
    ensures
        reach_but(add_node_s(g, b, id), pend),
        edges_grow(g, add_node_s(g, b, id)),
{
    let g2 = add_node_s(g, b, id);
    assert forall|x: int| 0 <= x < g.len() implies g[x].successors.is_prefix_of(#[trigger] g2[x].successors) by {
        assert(g2[x].successors == g[x].successors);
        assert(g[x].successors =~= g2[x].successors.subrange(0, g[x].successors.len() as int));
    }
    lemma_grow_prefix(g, g2);
    lemma_rb_grow(g, g2, pend);
}

/// A pending block that gains an edge from a reached block is reached.
proof fn lemma_rb_link(g: Seq<BlockV>, from: nat, to: nat, kind: EdgeKind, pend: Set<int>)
    requires
        reach_but(g, pend.insert(to as int)),
        !pend.contains(from as int),
        from != to,
        from < g.len(),
        to < g.len(),
        g.len() <= u32::MAX,
    ensures
        reach_but(add_edge_s(g, from, to, kind), pend),
        edges_grow(g, add_edge_s(g, from, to, kind)),
{
    let g2 = add_edge_s(g, from, to, kind);
    lemma_rb_add_edge(g, from, to, kind, pend.insert(to as int));
    assert(!pend.insert(to as int).contains(from as int));
    lemma_reach_step(g2, 0, from as int, to as int);
    assert forall|b: int| 0 <= b < g2.len() && !pend.contains(b) implies reachable(g2, 0, b) by {
        if b != to {
            assert(!pend.insert(to as int).contains(b));
        }
    }
    assert forall|b: int| pend.contains(b) implies 0 <= b < g2.len() by {
        assert(pend.insert(to as int).contains(b));
    }
}

/// A new block entered from a reached block.
proof fn lemma_rb_new_linked(g: Seq<BlockV>, from: nat, kind: EdgeKind, pend: Set<int>)
    requires
        reach_but(g, pend),
        !pend.contains(from as int),
        from < g.len(),
        g.len() < u32::MAX,
    ensures
        reach_but(add_edge_s(new_block_s(g).0, from, g.len(), kind), pend),
        edges_grow(g, add_edge_s(new_block_s(g).0, from, g.len(), kind)),
{
    let (g1, nb) = new_block_s(g);
    lemma_rb_new_pending(g, pend);
    assert(!pend.contains(nb as int));
    lemma_rb_link(g1, from, nb, kind, pend);
    lemma_grow_trans(g, g1, add_edge_s(g1, from, nb, kind));
}

#[verifier::spinoff_prover]
#[verifier::rlimit(60)]
proof fn lemma_stmt_reach(s: StatementV, cur: nat, g: Seq<BlockV>, pend: Set<int>)
    requires
        reach_but(g, pend),
        !pend.contains(cur as int),
        cur < g.len(),
        g.len() + stmt_weight(s) < u32::MAX,
    ensures
        reach_but(build_stmt_s(s, cur, g).0, pend),
        edges_grow(g, build_stmt_s(s, cur, g).0),
        !pend.contains(build_stmt_s(s, cur, g).1 as int),
        build_stmt_s(s, cur, g).1 < build_stmt_s(s, cur, g).0.len(),
        build_stmt_s(s, cur, g).0.len() <= g.len() + stmt_weight(s),
    decreases s, 0int,
{
    match s {
        StatementV::Assignment { id, .. } => {
            lemma_rb_add_node(g, cur, id, pend);
        },
        StatementV::Command { id, .. } => {
            lemma_rb_add_node(g, cur, id, pend);
        },
        StatementV::SourceCommand { id, .. } => {
            lemma_rb_add_node(g, cur, id, pend);
        },
        StatementV::Pipeline { id, .. } => {
            lemma_rb_add_node(g, cur, id, pend);
        },
        StatementV::Unmodeled { id, .. } => {
            lemma_rb_add_node(g, cur, id, pend);
        },
        StatementV::If { condition, then_body, else_body, .. } => {
            lemma_stmts_reach(condition, 0, cur, g, pend);
            let (g1, ce) = build_stmts_s(condition, 0, cur, g);
            lemma_rb_new_linked(g1, ce, EdgeKind::ConditionalTrue, pend);
            let (g2, te) = new_block_s(g1);
            let g3 = add_edge_s(g2, ce, te, EdgeKind::ConditionalTrue);
            lemma_grow_trans(g, g1, g3);
            lemma_stmts_reach(then_body, 0, te, g3, pend);
            let (g4, tx) = build_stmts_s(then_body, 0, te, g3);
            lemma_grow_trans(g, g3, g4);
            lemma_rb_new_linked(g4, tx, EdgeKind::Unconditional, pend);
            let (g5, join) = new_block_s(g4);
            let g6 = add_edge_s(g5, tx, join, EdgeKind::Unconditional);
            lemma_grow_trans(g, g4, g6);
            match else_body {
                Some(e) => {
                    lemma_rb_new_linked(g6, ce, EdgeKind::ConditionalFalse, pend);
                    let (g7, ee) = new_block_s(g6);
                    let g8 = add_edge_s(g7, ce, ee, EdgeKind::ConditionalFalse);
                    lemma_grow_trans(g, g6, g8);
                    lemma_stmts_reach(e, 0, ee, g8, pend);
                    let (g9, ex) = build_stmts_s(e, 0, ee, g8);
                    lemma_grow_trans(g, g8, g9);
                    lemma_rb_add_edge(g9, ex, join, EdgeKind::Unconditional, pend);
                    lemma_grow_trans(g, g9, add_edge_s(g9, ex, join, EdgeKind::Unconditional));
                },
                None => {
                    lemma_rb_add_edge(g6, ce, join, EdgeKind::ConditionalFalse, pend);
                    lemma_grow_trans(g, g6, add_edge_s(g6, ce, join, EdgeKind::ConditionalFalse));
                },
            }
        },
        StatementV::For { id, body, .. } => {
            lemma_rb_new_pending(g, pend);
            let (g1, h) = new_block_s(g);
            lemma_rb_add_node(g1, h, id, pend.insert(h as int));
            let g2 = add_node_s(g1, h, id);
            lemma_rb_link(g2, cur, h, EdgeKind::Unconditional, pend);
            let g3 = add_edge_s(g2, cur, h, EdgeKind::Unconditional);
            lemma_grow_trans(g, g1, g2);
            lemma_grow_trans(g, g2, g3);
            lemma_rb_new_linked(g3, h, EdgeKind::ConditionalTrue, pend);
            let (g4, be) = new_block_s(g3);
            let g5 = add_edge_s(g4, h, be, EdgeKind::ConditionalTrue);
            lemma_grow_trans(g, g3, g5);
            lemma_stmts_reach(body, 0, be, g5, pend);
            let (g6, bx) = build_stmts_s(body, 0, be, g5);
            lemma_grow_trans(g, g5, g6);
            lemma_rb_add_edge(g6, bx, h, EdgeKind::LoopBack, pend);
            let g7 = add_edge_s(g6, bx, h, EdgeKind::LoopBack);
            lemma_grow_trans(g, g6, g7);
            lemma_rb_new_linked(g7, h, EdgeKind::ConditionalFalse, pend);
            let (g8, ex) = new_block_s(g7);
            lemma_grow_trans(g, g7, add_edge_s(g8, h, ex, EdgeKind::ConditionalFalse));
        },
        StatementV::While { condition, body, .. } => {
            lemma_rb_new_linked(g, cur, EdgeKind::Unconditional, pend);
            let (g1, h) = new_block_s(g);
            let g2 = add_edge_s(g1, cur, h, EdgeKind::Unconditional);
            lemma_stmts_reach(condition, 0, h, g2, pend);
            let (g3, ce) = build_stmts_s(condition, 0, h, g2);
            lemma_grow_trans(g, g2, g3);
            lemma_rb_new_linked(g3, ce, EdgeKind::ConditionalTrue, pend);
            let (g4, be) = new_block_s(g3);
            let g5 = add_edge_s(g4, ce, be, EdgeKind::ConditionalTrue);
            lemma_grow_trans(g, g3, g5);
            lemma_stmts_reach(body, 0, be, g5, pend);
            let (g6, bx) = build_stmts_s(body, 0, be, g5);
            lemma_grow_trans(g, g5, g6);
            lemma_rb_add_edge(g6, bx, h, EdgeKind::LoopBack, pend);
            let g7 = add_edge_s(g6, bx, h, EdgeKind::LoopBack);
            lemma_grow_trans(g, g6, g7);
            lemma_rb_new_linked(g7, ce, EdgeKind::ConditionalFalse, pend);
            let (g8, ex) = new_block_s(g7);
            lemma_grow_trans(g, g7, add_edge_s(g8, ce, ex, EdgeKind::ConditionalFalse));
        },
        StatementV::Case { id, arms, .. } => {
            lemma_rb_add_node(g, cur, id, pend);
            let g1 = add_node_s(g, cur, id);
            lemma_rb_new_pending(g1, pend);
            let (g2, join) = new_block_s(g1);
            lemma_grow_trans(g, g1, g2);
            let p2 = pend.insert(join as int);
            lemma_arms_reach(arms, 0, cur, join, g2, p2);
            let g3 = case_arms_s(arms, 0, cur, join, g2);
            lemma_grow_trans(g, g2, g3);
            if has_default_s(arms) {
                assert(arms.len() > 0);
                assert forall|b: int| 0 <= b < g3.len() && !pend.contains(b) implies reachable(g3, 0, b) by {
                    if b != join {
                        assert(!p2.contains(b));
                    }
                }
            } else {
                lemma_rb_link(g3, cur, join, EdgeKind::ConditionalFalse, pend);
                lemma_grow_trans(g, g3, add_edge_s(g3, cur, join, EdgeKind::ConditionalFalse));
            }
        },
        StatementV::List { elements, .. } => {
            lemma_rb_new_pending(g, pend);
            let (g1, join) = new_block_s(g);
            let p2 = pend.insert(join as int);
            lemma_list_reach(elements, 0, cur, join, g1, p2);
            let (g2, c) = list_s(elements, 0, cur, join, g1);
            lemma_grow_trans(g, g1, g2);
            lemma_rb_link(g2, c, join, EdgeKind::Unconditional, pend);
            lemma_grow_trans(g, g2, add_edge_s(g2, c, join, EdgeKind::Unconditional));
        },
        StatementV::Block { body, .. } => {
            lemma_stmts_reach(body, 0, cur, g, pend);
        },
    }
}

proof fn lemma_stmts_reach(ss: Seq<StatementV>, i: int, cur: nat, g: Seq<BlockV>, pend: Set<int>)
    requires
        reach_but(g, pend),
        !pend.contains(cur as int),
        cur < g.len(),
        g.len() + stmts_weight(ss, i) < u32::MAX,
    ensures
        reach_but(build_stmts_s(ss, i, cur, g).0, pend),
        edges_grow(g, build_stmts_s(ss, i, cur, g).0),
        !pend.contains(build_stmts_s(ss, i, cur, g).1 as int),
        build_stmts_s(ss, i, cur, g).1 < build_stmts_s(ss, i, cur, g).0.len(),
        build_stmts_s(ss, i, cur, g).0.len() <= g.len() + stmts_weight(ss, i),
    decreases ss, ss.len() - i,
{
    if 0 <= i < ss.len() {
        lemma_stmt_reach(ss[i], cur, g, pend);
        let (g1, c1) = build_stmt_s(ss[i], cur, g);
        lemma_stmts_reach(ss, i + 1, c1, g1, pend);
        lemma_grow_trans(g, g1, build_stmts_s(ss, i + 1, c1, g1).0);
    } else {
        lemma_grow_refl(g);
    }
}

proof fn lemma_grow_refl(g: Seq<BlockV>)
    ensures
        edges_grow(g, g),
{
}

proof fn lemma_arms_reach(arms: Seq<CaseArmV>, i: int, cur: nat, join: nat, g: Seq<BlockV>, pend: Set<int>)
    requires
        reach_but(g, pend),
        !pend.contains(cur as int),
        cur < g.len(),
        join < g.len(),
        join != cur,
        g.len() + arms_weight(arms, i) < u32::MAX,
    ensures
        reach_but(case_arms_s(arms, i, cur, join, g), pend),
        edges_grow(g, case_arms_s(arms, i, cur, join, g)),
        case_arms_s(arms, i, cur, join, g).len() <= g.len() + arms_weight(arms, i),
        0 <= i < arms.len() ==> reachable(case_arms_s(arms, i, cur, join, g), 0, join as int),
    decreases arms, arms.len() - i,
{
    if 0 <= i < arms.len() {
        lemma_rb_new_linked(g, cur, EdgeKind::ConditionalTrue, pend);
        let (g1, e) = new_block_s(g);
        let g2 = add_edge_s(g1, cur, e, EdgeKind::ConditionalTrue);
        lemma_stmts_reach(arms[i].body, 0, e, g2, pend);
        let (g3, x) = build_stmts_s(arms[i].body, 0, e, g2);
        lemma_grow_trans(g, g2, g3);
        lemma_rb_add_edge(g3, x, join, EdgeKind::Unconditional, pend);
        let g4 = add_edge_s(g3, x, join, EdgeKind::Unconditional);
        lemma_grow_trans(g, g3, g4);
        lemma_reach_step(g4, 0, x as int, join as int);
        lemma_arms_reach(arms, i + 1, cur, join, g4, pend);
        let g5 = case_arms_s(arms, i + 1, cur, join, g4);
        lemma_grow_trans(g, g4, g5);
        lemma_grow_reach(g4, g5, 0, join as int);
    } else {
        lemma_grow_refl(g);
    }
}

proof fn lemma_list_reach(es: Seq<ListElementV>, i: int, cur: nat, join: nat, g: Seq<BlockV>, pend: Set<int>)
    requires
        reach_but(g, pend),
        !pend.contains(cur as int),
        cur < g.len(),
        join < g.len(),
        g.len() + elements_weight(es, i) < u32::MAX,
    ensures
        reach_but(list_s(es, i, cur, join, g).0, pend),
        edges_grow(g, list_s(es, i, cur, join, g).0),
        !pend.contains(list_s(es, i, cur, join, g).1 as int),
        list_s(es, i, cur, join, g).1 < list_s(es, i, cur, join, g).0.len(),
        list_s(es, i, cur, join, g).0.len() <= g.len() + elements_weight(es, i),
    decreases es, es.len() - i,
{
    if 0 <= i < es.len() {
        lemma_stmt_reach(es[i].statement, cur, g, pend);
        let (g1, c1) = build_stmt_s(es[i].statement, cur, g);
        if i + 1 < es.len() && (es[i].operator == Some(ListOperator::And) || es[i].operator == Some(
            ListOperator::Or,
        )) {
            let k1 = if es[i].operator == Some(ListOperator::And) {
                EdgeKind::ConditionalTrue
            } else {
                EdgeKind::ConditionalFalse
            };
            let k2 = if es[i].operator == Some(ListOperator::And) {
                EdgeKind::ConditionalFalse
            } else {
                EdgeKind::ConditionalTrue
            };
            lemma_rb_new_linked(g1, c1, k1, pend);
            let (g2, nx) = new_block_s(g1);
            let g3 = add_edge_s(g2, c1, nx, k1);
            lemma_grow_trans(g, g1, g3);
            lemma_rb_add_edge(g3, c1, join, k2, pend);
            let g4 = add_edge_s(g3, c1, join, k2);
            lemma_grow_trans(g, g3, g4);
            lemma_list_reach(es, i + 1, nx, join, g4, pend);
            lemma_grow_trans(g, g4, list_s(es, i + 1, nx, join, g4).0);
        } else {
            lemma_list_reach(es, i + 1, c1, join, g1, pend);
            lemma_grow_trans(g, g1, list_s(es, i + 1, c1, join, g1).0);
        }
    } else {
        lemma_grow_refl(g);
    }
}

/// Every block of a built graph can be reached from the entry block, so
/// `Cfg::reverse_postorder` of a built graph lists every block.
pub proof fn lemma_every_block_reachable(ss: Seq<StatementV>)
    requires
        stmts_weight(ss, 0) + 2 < u32::MAX,
    ensures
        forall|b: int| 0 <= b < cfg_s(ss).len() ==> reachable(cfg_s(ss), 0, b),
{
    let e = Seq::<BlockV>::empty();
    let (g1, entry) = new_block_s(e);
    let (g2, exit) = new_block_s(g1);
    let pend = Set::<int>::empty().insert(1);
    assert(is_path(g2, seq![0int]));
    assert(reachable(g2, 0, 0));
    assert(reach_but(g2, pend));
    lemma_stmts_reach(ss, 0, entry, g2, pend);
    let (g3, last) = build_stmts_s(ss, 0, entry, g2);
    assert(pend =~= Set::<int>::empty().insert(1));
    lemma_rb_link(g3, last, exit, EdgeKind::Unconditional, Set::<int>::empty());
    let g4 = add_edge_s(g3, last, exit, EdgeKind::Unconditional);
    assert(cfg_s(ss) == g4);
    assert forall|b: int| 0 <= b < g4.len() implies reachable(g4, 0, b) by {
        assert(!Set::<int>::empty().contains(b));
    }
}

// ---------------------------------------------------------------------------
// A loop's body is entered only through its header
// ---------------------------------------------------------------------------

/// The target of edge `j` of block `a`.
pub open spec fn target_of(g: Seq<BlockV>, a: int, j: int) -> int {
    g[a].successors[j].0.0 as int
}

/// Every edge of `g2` that `g` lacks starts at block `c` or at a block that
/// `g` lacks; the blocks of `g` keep their successors as a prefix.
pub open spec fn added_from(g: Seq<BlockV>, g2: Seq<BlockV>, c: int) -> bool {
    &&& g.len() <= g2.len()
    &&& forall|a: int| 0 <= a < g.len() ==> g[a].successors.is_prefix_of(#[trigger] g2[a].successors)
    &&& forall|a: int, j: int| 0 <= a < g2.len() && 0 <= j < g2[a].successors.len() ==> #[trigger] kept_or_from(g, c, a, j)
}

/// Edge `j` of block `a` was an edge of `g`, or starts at `c` or at a block
/// that `g` lacks.
pub open spec fn kept_or_from(g: Seq<BlockV>, c: int, a: int, j: int) -> bool {
    (a < g.len() && j < g[a].successors.len()) || a == c || a >= g.len()
}

/// Every edge into the blocks strictly between `h` and `hi` starts at `h`
/// or at one of those blocks.
pub open spec fn closed(g: Seq<BlockV>, h: int, hi: int) -> bool {
    forall|a: int, j: int|
        0 <= a < g.len() && 0 <= j < g[a].successors.len() && h < #[trigger] target_of(g, a, j) < hi ==> h <= a < hi
}

/// The blocks strictly between `h` and `hi` hold block `x`, are entered only
/// through `h` and hold no block of `avoid`.
pub open spec fn loop_region(g: Seq<BlockV>, x: int, h: int, hi: int, avoid: Set<int>) -> bool {
    &&& 0 <= h < x < hi <= g.len()
    &&& closed(g, h, hi)
    &&& forall|b: int| avoid.contains(b) ==> !(h < b < hi)
}

/// Each `LoopBack` edge `x -> h` of `g` has a region that holds `x`, is
/// entered only through `h`, and holds no block of `avoid`.
pub open spec fn dom_ok(g: Seq<BlockV>, avoid: Set<int>) -> bool {
    forall|x: int, j: int|
        0 <= x < g.len() && 0 <= j < g[x].successors.len() && (#[trigger] g[x].successors[j]).1 == EdgeKind::LoopBack
            ==> exists|hi: int| #[trigger] loop_region(g, x, target_of(g, x, j), hi, avoid)
}

proof fn lemma_added_refl(g: Seq<BlockV>, c: int)
    ensures
        added_from(g, g, c),
{
    assert forall|a: int| 0 <= a < g.len() implies g[a].successors.is_prefix_of(#[trigger] g[a].successors) by {
        assert(g[a].successors =~= g[a].successors.subrange(0, g[a].successors.len() as int));
    }
}

proof fn lemma_added_trans(g0: Seq<BlockV>, g1: Seq<BlockV>, g2: Seq<BlockV>, c0: int, c1: int)
    requires
        added_from(g0, g1, c0),
        added_from(g1, g2, c1),
        c1 == c0 || c1 >= g0.len(),
    ensures
        added_from(g0, g2, c0),
{
    assert forall|a: int| 0 <= a < g0.len() implies g0[a].successors.is_prefix_of(#[trigger] g2[a].successors) by {
        let s0 = g0[a].successors;
        let s1 = g1[a].successors;
        let s2 = g2[a].successors;
        assert(s0.is_prefix_of(s1));
        assert(a < g1.len());
        assert(s1.is_prefix_of(s2));
        assert(s0.len() <= s1.len() <= s2.len());
        assert forall|k: int| 0 <= k < s0.len() implies s2[k] == s0[k] by {
            assert(s1.subrange(0, s0.len() as int)[k] == s1[k]);
            assert(s2.subrange(0, s1.len() as int)[k] == s2[k]);
        }
        assert(s0 =~= s2.subrange(0, s0.len() as int));
    }
    assert forall|a: int, j: int| 0 <= a < g2.len() && 0 <= j < g2[a].successors.len() implies #[trigger] kept_or_from(
        g0,
        c0,
        a,
        j,
    ) by {
        assert(kept_or_from(g1, c1, a, j));
        if a < g1.len() && j < g1[a].successors.len() {
            assert(kept_or_from(g0, c0, a, j));
        }
    }
    assert(g0.len() <= g2.len());
    assert(forall|a: int| 0 <= a < g0.len() ==> g0[a].successors.is_prefix_of(#[trigger] g2[a].successors));
}

/// The edges that `g` had keep their targets in `g2`.
proof fn lemma_added_old_edge(g: Seq<BlockV>, g2: Seq<BlockV>, c: int, a: int, j: int)
    requires
        added_from(g, g2, c),
        0 <= a < g.len(),
        0 <= j < g[a].successors.len(),
    ensures
        g2[a].successors[j] == g[a].successors[j],
        j < g2[a].successors.len(),
{
    assert(g[a].successors.is_prefix_of(g2[a].successors));
    assert(g2[a].successors.subrange(0, g[a].successors.len() as int)[j] == g2[a].successors[j]);
}

proof fn lemma_closed_step(g: Seq<BlockV>, g2: Seq<BlockV>, c: int, h: int, hi: int)
    requires
        closed(g, h, hi),
        added_from(g, g2, c),
        h <= c < hi,
        h < g.len(),
        g2.len() <= hi,
    ensures
        closed(g2, h, hi),
{
    assert forall|a: int, j: int|
        0 <= a < g2.len() && 0 <= j < g2[a].successors.len() && h < #[trigger] target_of(g2, a, j) < hi implies h <= a
            < hi by {
        if a < g.len() && j < g[a].successors.len() {
            lemma_added_old_edge(g, g2, c, a, j);
            assert(target_of(g, a, j) == target_of(g2, a, j));
        } else {
            assert(kept_or_from(g, c, a, j));
        }
    }
}

/// The regions of `g` stay as they were where an edge is added that leads
/// to a block of `avoid`.
proof fn lemma_dom_add_edge(g: Seq<BlockV>, from: nat, to: nat, kind: EdgeKind, avoid: Set<int>)
    requires
        dom_ok(g, avoid),
        edges_in_range(g),
        from < g.len(),
        to < g.len(),
        g.len() <= u32::MAX,
        kind != EdgeKind::LoopBack,
        avoid.contains(to as int),
    ensures
        dom_ok(add_edge_s(g, from, to, kind), avoid),
        edges_in_range(add_edge_s(g, from, to, kind)),
        added_from(g, add_edge_s(g, from, to, kind), from as int),
{
    let g2 = add_edge_s(g, from, to, kind);
    lemma_frame_add_edge(g, from, to, kind);
    lemma_closed_edge_facts(g, from, to, kind);
    assert forall|x: int, j: int|
        0 <= x < g2.len() && 0 <= j < g2[x].successors.len() && (#[trigger] g2[x].successors[j]).1 == EdgeKind::LoopBack
            implies exists|hi: int| #[trigger] loop_region(g2, x, target_of(g2, x, j), hi, avoid) by {
        if x == from as int && j >= g[x].successors.len() {
            assert(g2[x].successors == g[x].successors.push((BlockId(to as u32), kind)));
            assert(g2[x].successors[j].1 == kind);
        }
        assert(j < g[x].successors.len()) by {
            if x != from as int {
                assert(g2[x].successors == g[x].successors);
            }
        }
        lemma_added_old_edge(g, g2, from as int, x, j);
        assert(g[x].successors[j].1 == EdgeKind::LoopBack);
        let h = target_of(g, x, j);
        let hi = choose|hi: int| #[trigger] loop_region(g, x, h, hi, avoid);
        lemma_closed_add_edge(g, from, to, kind, h, hi);
        assert(loop_region(g2, x, h, hi, avoid));
        assert(target_of(g2, x, j) == h);
    }
}

/// What adding an edge does to the edge lists.
proof fn lemma_closed_edge_facts(g: Seq<BlockV>, from: nat, to: nat, kind: EdgeKind)
    requires
        edges_in_range(g),
        from < g.len(),
        to < g.len(),
        g.len() <= u32::MAX,
    ensures
        edges_in_range(add_edge_s(g, from, to, kind)),
        added_from(g, add_edge_s(g, from, to, kind), from as int),
        forall|a: int, j: int|
            0 <= a < g.len() && g[a].successors.len() <= j < add_edge_s(g, from, to, kind)[a].successors.len() ==> a
                == from && #[trigger] target_of(add_edge_s(g, from, to, kind), a, j) == to,
{
    let g2 = add_edge_s(g, from, to, kind);
    lemma_frame_add_edge(g, from, to, kind);
    assert forall|a: int| 0 <= a < g.len() implies g[a].successors.is_prefix_of(#[trigger] g2[a].successors) by {
        if a == from as int {
            assert(g[a].successors =~= g2[a].successors.subrange(0, g[a].successors.len() as int));
        } else {
            assert(g2[a].successors == g[a].successors);
            assert(g[a].successors =~= g2[a].successors.subrange(0, g[a].successors.len() as int));
        }
    }
    assert forall|b: int, j: int| 0 <= b < g2.len() && 0 <= j < g2[b].successors.len() implies (#[trigger] g2[b].successors[j]).0.0
        < g2.len() by {
        if b == from as int && j == g[b].successors.len() {
        } else if b == from as int {
            assert(g2[b].successors[j] == g[b].successors[j]);
        } else {
            assert(g2[b].successors == g[b].successors);
        }
    }
}

proof fn lemma_closed_add_edge(g: Seq<BlockV>, from: nat, to: nat, kind: EdgeKind, h: int, hi: int)
    requires
        closed(g, h, hi),
        edges_in_range(g),
        from < g.len(),
        to < g.len(),
        g.len() <= u32::MAX,
        !(h < to < hi) || h <= from < hi,
    ensures
        closed(add_edge_s(g, from, to, kind), h, hi),
{
    let g2 = add_edge_s(g, from, to, kind);
    lemma_closed_edge_facts(g, from, to, kind);
    assert forall|a: int, j: int|
        0 <= a < g2.len() && 0 <= j < g2[a].successors.len() && h < #[trigger] target_of(g2, a, j) < hi implies h <= a
            < hi by {
        if j < g[a].successors.len() {
            lemma_added_old_edge(g, g2, from as int, a, j);
            assert(target_of(g, a, j) == target_of(g2, a, j));
        } else {
            assert(target_of(g2, a, j) == to);
        }
    }
}

proof fn lemma_dom_new_block(g: Seq<BlockV>, avoid: Set<int>, c: int)
    requires
        dom_ok(g, avoid),
        edges_in_range(g),
    ensures
        dom_ok(new_block_s(g).0, avoid.insert(g.len() as int)),
        edges_in_range(new_block_s(g).0),
        added_from(g, new_block_s(g).0, c),
{
    let g2 = new_block_s(g).0;
    let av2 = avoid.insert(g.len() as int);
    assert forall|a: int| 0 <= a < g.len() implies g[a].successors.is_prefix_of(#[trigger] g2[a].successors) by {
        assert(g2[a] == g[a]);
        assert(g[a].successors =~= g2[a].successors.subrange(0, g[a].successors.len() as int));
    }
    assert forall|b: int, j: int| 0 <= b < g2.len() && 0 <= j < g2[b].successors.len() implies (#[trigger] g2[b].successors[j]).0.0
        < g2.len() by {
        assert(b < g.len());
        assert(g2[b] == g[b]);
    }
    assert forall|x: int, j: int|
        0 <= x < g2.len() && 0 <= j < g2[x].successors.len() && (#[trigger] g2[x].successors[j]).1 == EdgeKind::LoopBack
            implies exists|hi: int| #[trigger] loop_region(g2, x, target_of(g2, x, j), hi, av2) by {
        assert(x < g.len());
        assert(g2[x] == g[x]);
        let h = target_of(g, x, j);
        let hi = choose|hi: int| #[trigger] loop_region(g, x, h, hi, avoid);
        assert forall|a: int, k: int|
            0 <= a < g2.len() && 0 <= k < g2[a].successors.len() && h < #[trigger] target_of(g2, a, k) < hi implies h
                <= a < hi by {
            assert(g2[a] == g[a]);
            assert(target_of(g, a, k) == target_of(g2, a, k));
        }
        assert(loop_region(g2, x, h, hi, av2));
        assert(target_of(g2, x, j) == h);
    }
}

proof fn lemma_dom_add_node(g: Seq<BlockV>, b: nat, id: NodeId, avoid: Set<int>, c: int)
    requires
        dom_ok(g, avoid),
        edges_in_range(g),
        b < g.len(),
    ensures
        dom_ok(add_node_s(g, b, id), avoid),
        edges_in_range(add_node_s(g, b, id)),
        added_from(g, add_node_s(g, b, id), c),
{
    let g2 = add_node_s(g, b, id);
    assert forall|a: int| 0 <= a < g.len() implies g[a].successors.is_prefix_of(#[trigger] g2[a].successors) by {
        assert(g2[a].successors == g[a].successors);
        assert(g[a].successors =~= g2[a].successors.subrange(0, g[a].successors.len() as int));
    }
    assert forall|x: int, j: int| 0 <= x < g2.len() && 0 <= j < g2[x].successors.len() implies (#[trigger] g2[x].successors[j]).0.0
        < g2.len() by {
        assert(g2[x].successors == g[x].successors);
    }
    assert forall|x: int, j: int|
        0 <= x < g2.len() && 0 <= j < g2[x].successors.len() && (#[trigger] g2[x].successors[j]).1 == EdgeKind::LoopBack
            implies exists|hi: int| #[trigger] loop_region(g2, x, target_of(g2, x, j), hi, avoid) by {
        assert(g2[x].successors == g[x].successors);
        let h = target_of(g, x, j);
        let hi = choose|hi: int| #[trigger] loop_region(g, x, h, hi, avoid);
        assert forall|a: int, k: int|
            0 <= a < g2.len() && 0 <= k < g2[a].successors.len() && h < #[trigger] target_of(g2, a, k) < hi implies h
                <= a < hi by {
            assert(g2[a].successors == g[a].successors);
            assert(target_of(g, a, k) == target_of(g2, a, k));
        }
        assert(loop_region(g2, x, h, hi, avoid));
        assert(target_of(g2, x, j) == h);
    }
}

proof fn lemma_dom_weaken(g: Seq<BlockV>, a: Set<int>, b: Set<int>)
    requires
        dom_ok(g, a),
        b.subset_of(a),
    ensures
        dom_ok(g, b),
{
    assert forall|x: int, j: int|
        0 <= x < g.len() && 0 <= j < g[x].successors.len() && (#[trigger] g[x].successors[j]).1 == EdgeKind::LoopBack
            implies exists|hi: int| #[trigger] loop_region(g, x, target_of(g, x, j), hi, b) by {
        let hi = choose|hi: int| #[trigger] loop_region(g, x, target_of(g, x, j), hi, a);
        assert(loop_region(g, x, target_of(g, x, j), hi, b));
    }
}

proof fn lemma_dom_add_loopback(g: Seq<BlockV>, from: nat, to: nat, hi: int, avoid: Set<int>)
    requires
        dom_ok(g, avoid),
        edges_in_range(g),
        from < g.len(),
        to < g.len(),
        g.len() <= u32::MAX,
        avoid.contains(to as int),
        loop_region(add_edge_s(g, from, to, EdgeKind::LoopBack), from as int, to as int, hi, avoid),
    ensures
        dom_ok(add_edge_s(g, from, to, EdgeKind::LoopBack), avoid),
        edges_in_range(add_edge_s(g, from, to, EdgeKind::LoopBack)),
        added_from(g, add_edge_s(g, from, to, EdgeKind::LoopBack), from as int),
{
    let kind = EdgeKind::LoopBack;
    let g2 = add_edge_s(g, from, to, kind);
    lemma_frame_add_edge(g, from, to, kind);
    lemma_closed_edge_facts(g, from, to, kind);
    assert forall|x: int, j: int|
        0 <= x < g2.len() && 0 <= j < g2[x].successors.len() && (#[trigger] g2[x].successors[j]).1 == EdgeKind::LoopBack
            implies exists|h2: int| #[trigger] loop_region(g2, x, target_of(g2, x, j), h2, avoid) by {
        if j < g[x].successors.len() {
            lemma_added_old_edge(g, g2, from as int, x, j);
            let h = target_of(g, x, j);
            let h2 = choose|h2: int| #[trigger] loop_region(g, x, h, h2, avoid);
            lemma_closed_add_edge(g, from, to, kind, h, h2);
            assert(loop_region(g2, x, h, h2, avoid));
            assert(target_of(g2, x, j) == h);
        } else {
            assert(target_of(g2, x, j) == to as int);
            assert(x == from as int);
            assert(loop_region(g2, x, target_of(g2, x, j), hi, avoid));
        }
    }
}

/// The blocks of `avoid` are blocks of `g`.
pub open spec fn avoid_in(g: Seq<BlockV>, avoid: Set<int>) -> bool {
    forall|b: int| avoid.contains(b) ==> 0 <= b < g.len()
}

#[verifier::spinoff_prover]
#[verifier::rlimit(80)]
proof fn lemma_stmt_dom(s: StatementV, cur: nat, g: Seq<BlockV>, avoid: Set<int>)
    requires
        cur < g.len(),
        edges_in_range(g),
        dom_ok(g, avoid),
        avoid_in(g, avoid),
        g.len() + stmt_weight(s) < u32::MAX,
    ensures
        edges_in_range(build_stmt_s(s, cur, g).0),
        dom_ok(build_stmt_s(s, cur, g).0, avoid),
        added_from(g, build_stmt_s(s, cur, g).0, cur as int),
        build_stmt_s(s, cur, g).1 == cur || build_stmt_s(s, cur, g).1 >= g.len(),
        build_stmt_s(s, cur, g).1 < build_stmt_s(s, cur, g).0.len(),
        build_stmt_s(s, cur, g).0.len() <= g.len() + stmt_weight(s),
    decreases s, 0int,
{
    let c = cur as int;
    match s {
        StatementV::Assignment { id, .. } => {
            lemma_dom_add_node(g, cur, id, avoid, c);
        },
        StatementV::Command { id, .. } => {
            lemma_dom_add_node(g, cur, id, avoid, c);
        },
        StatementV::SourceCommand { id, .. } => {
            lemma_dom_add_node(g, cur, id, avoid, c);
        },
        StatementV::Pipeline { id, .. } => {
            lemma_dom_add_node(g, cur, id, avoid, c);
        },
        StatementV::Unmodeled { id, .. } => {
            lemma_dom_add_node(g, cur, id, avoid, c);
        },
        StatementV::If { condition, then_body, else_body, .. } => {
            lemma_stmts_dom(condition, 0, cur, g, avoid);
            let (g1, ce) = build_stmts_s(condition, 0, cur, g);
            lemma_dom_new_block(g1, avoid, ce as int);
            let (g2, te) = new_block_s(g1);
            let a2 = avoid.insert(te as int);
            lemma_dom_add_edge(g2, ce, te, EdgeKind::ConditionalTrue, a2);
            let g3 = add_edge_s(g2, ce, te, EdgeKind::ConditionalTrue);
            lemma_dom_weaken(g3, a2, avoid);
            lemma_added_trans(g1, g2, g3, ce as int, ce as int);
            lemma_added_trans(g, g1, g3, c, ce as int);
            lemma_stmts_dom(then_body, 0, te, g3, avoid);
            let (g4, tx) = build_stmts_s(then_body, 0, te, g3);
            lemma_added_trans(g, g3, g4, c, te as int);
            lemma_dom_new_block(g4, avoid, tx as int);
            let (g5, join) = new_block_s(g4);
            let aj = avoid.insert(join as int);
            lemma_dom_add_edge(g5, tx, join, EdgeKind::Unconditional, aj);
            let g6 = add_edge_s(g5, tx, join, EdgeKind::Unconditional);
            lemma_added_trans(g4, g5, g6, tx as int, tx as int);
            lemma_added_trans(g, g4, g6, c, tx as int);
            match else_body {
                Some(e) => {
                    lemma_dom_new_block(g6, aj, ce as int);
                    let (g7, ee) = new_block_s(g6);
                    let ae = aj.insert(ee as int);
                    lemma_dom_add_edge(g7, ce, ee, EdgeKind::ConditionalFalse, ae);
                    let g8 = add_edge_s(g7, ce, ee, EdgeKind::ConditionalFalse);
                    lemma_dom_weaken(g8, ae, aj);
                    lemma_added_trans(g6, g7, g8, ce as int, ce as int);
                    lemma_added_trans(g, g6, g8, c, ce as int);
                    lemma_stmts_dom(e, 0, ee, g8, aj);
                    let (g9, ex) = build_stmts_s(e, 0, ee, g8);
                    lemma_added_trans(g, g8, g9, c, ee as int);
                    lemma_dom_add_edge(g9, ex, join, EdgeKind::Unconditional, aj);
                    let g10 = add_edge_s(g9, ex, join, EdgeKind::Unconditional);
                    lemma_added_trans(g, g9, g10, c, ex as int);
                    lemma_dom_weaken(g10, aj, avoid);
                },
                None => {
                    lemma_dom_add_edge(g6, ce, join, EdgeKind::ConditionalFalse, aj);
                    let g7 = add_edge_s(g6, ce, join, EdgeKind::ConditionalFalse);
                    lemma_added_trans(g, g6, g7, c, ce as int);
                    lemma_dom_weaken(g7, aj, avoid);
                },
            }
        },
        StatementV::For { id, body, .. } => {
            lemma_dom_new_block(g, avoid, c);
            let (g1, h) = new_block_s(g);
            let ah = avoid.insert(h as int);
            lemma_dom_add_node(g1, h, id, ah, c);
            let g2 = add_node_s(g1, h, id);
            lemma_dom_add_edge(g2, cur, h, EdgeKind::Unconditional, ah);
            let g3 = add_edge_s(g2, cur, h, EdgeKind::Unconditional);
            lemma_added_trans(g, g1, g2, c, c);
            lemma_added_trans(g, g2, g3, c, c);
            lemma_dom_new_block(g3, ah, h as int);
            let (g4, be) = new_block_s(g3);
            let ab = ah.insert(be as int);
            lemma_dom_add_edge(g4, h, be, EdgeKind::ConditionalTrue, ab);
            let g5 = add_edge_s(g4, h, be, EdgeKind::ConditionalTrue);
            lemma_dom_weaken(g5, ab, ah);
            lemma_added_trans(g3, g4, g5, h as int, h as int);
            lemma_added_trans(g, g3, g5, c, h as int);
            lemma_stmts_dom(body, 0, be, g5, ah);
            let (g6, bx) = build_stmts_s(body, 0, be, g5);
            lemma_added_trans(g, g5, g6, c, be as int);
            let hh = h as int;
            let hi = g6.len() as int;
            assert(closed(g3, hh, hi)) by {
                assert forall|a: int, j: int|
                    0 <= a < g3.len() && 0 <= j < g3[a].successors.len() && hh < #[trigger] target_of(g3, a, j) < hi
                        implies hh <= a < hi by {
                    assert(g3[a].successors[j].0.0 < g3.len());
                }
            }
            lemma_closed_step(g3, g5, hh, hh, hi);
            lemma_closed_step(g5, g6, be as int, hh, hi);
            lemma_closed_add_edge(g6, bx, h, EdgeKind::LoopBack, hh, hi);
            let g7 = add_edge_s(g6, bx, h, EdgeKind::LoopBack);
            assert(loop_region(g7, bx as int, hh, hi, ah));
            lemma_dom_add_loopback(g6, bx, h, hi, ah);
            lemma_added_trans(g, g6, g7, c, bx as int);
            lemma_dom_new_block(g7, ah, hh);
            let (g8, ex) = new_block_s(g7);
            let ax = ah.insert(ex as int);
            lemma_dom_add_edge(g8, h, ex, EdgeKind::ConditionalFalse, ax);
            let g9 = add_edge_s(g8, h, ex, EdgeKind::ConditionalFalse);
            lemma_added_trans(g7, g8, g9, hh, hh);
            lemma_added_trans(g, g7, g9, c, hh);
            lemma_dom_weaken(g9, ax, avoid);
        },
        StatementV::While { condition, body, .. } => {
            lemma_dom_new_block(g, avoid, c);
            let (g1, h) = new_block_s(g);
            let ah = avoid.insert(h as int);
            lemma_dom_add_edge(g1, cur, h, EdgeKind::Unconditional, ah);
            let g2 = add_edge_s(g1, cur, h, EdgeKind::Unconditional);
            lemma_added_trans(g, g1, g2, c, c);
            lemma_stmts_dom(condition, 0, h, g2, ah);
            let (g3, ce) = build_stmts_s(condition, 0, h, g2);
            lemma_added_trans(g, g2, g3, c, h as int);
            lemma_dom_new_block(g3, ah, ce as int);
            let (g4, be) = new_block_s(g3);
            let ab = ah.insert(be as int);
            lemma_dom_add_edge(g4, ce, be, EdgeKind::ConditionalTrue, ab);
            let g5 = add_edge_s(g4, ce, be, EdgeKind::ConditionalTrue);
            lemma_dom_weaken(g5, ab, ah);
            lemma_added_trans(g3, g4, g5, ce as int, ce as int);
            lemma_added_trans(g, g3, g5, c, ce as int);
            lemma_stmts_dom(body, 0, be, g5, ah);
            let (g6, bx) = build_stmts_s(body, 0, be, g5);
            lemma_added_trans(g, g5, g6, c, be as int);
            let hh = h as int;
            let hi = g6.len() as int;
            assert(closed(g2, hh, hi)) by {
                assert forall|a: int, j: int|
                    0 <= a < g2.len() && 0 <= j < g2[a].successors.len() && hh < #[trigger] target_of(g2, a, j) < hi
                        implies hh <= a < hi by {
                    assert(g2[a].successors[j].0.0 < g2.len());
                }
            }
            lemma_closed_step(g2, g3, hh, hh, hi);
            lemma_closed_step(g3, g5, ce as int, hh, hi);
            lemma_closed_step(g5, g6, be as int, hh, hi);
            lemma_closed_add_edge(g6, bx, h, EdgeKind::LoopBack, hh, hi);
            let g7 = add_edge_s(g6, bx, h, EdgeKind::LoopBack);
            assert(loop_region(g7, bx as int, hh, hi, ah));
            lemma_dom_add_loopback(g6, bx, h, hi, ah);
            lemma_added_trans(g, g6, g7, c, bx as int);
            lemma_dom_new_block(g7, ah, ce as int);
            let (g8, ex) = new_block_s(g7);
            let ax = ah.insert(ex as int);
            lemma_dom_add_edge(g8, ce, ex, EdgeKind::ConditionalFalse, ax);
            let g9 = add_edge_s(g8, ce, ex, EdgeKind::ConditionalFalse);
            lemma_added_trans(g7, g8, g9, ce as int, ce as int);
            lemma_added_trans(g, g7, g9, c, ce as int);
            lemma_dom_weaken(g9, ax, avoid);
        },
        StatementV::Case { id, arms, .. } => {
            lemma_dom_add_node(g, cur, id, avoid, c);
            let g1 = add_node_s(g, cur, id);
            lemma_dom_new_block(g1, avoid, c);
            let (g2, join) = new_block_s(g1);
            lemma_added_trans(g, g1, g2, c, c);
            let aj = avoid.insert(join as int);
            lemma_arms_dom(arms, 0, cur, join, g2, aj);
            let g3 = case_arms_s(arms, 0, cur, join, g2);
            lemma_added_trans(g, g2, g3, c, c);
            if has_default_s(arms) {
                lemma_dom_weaken(g3, aj, avoid);
            } else {
                lemma_dom_add_edge(g3, cur, join, EdgeKind::ConditionalFalse, aj);
                let g4 = add_edge_s(g3, cur, join, EdgeKind::ConditionalFalse);
                lemma_added_trans(g, g3, g4, c, c);
                lemma_dom_weaken(g4, aj, avoid);
            }
        },
        StatementV::List { elements, .. } => {
            lemma_dom_new_block(g, avoid, c);
            let (g1, join) = new_block_s(g);
            let aj = avoid.insert(join as int);
            lemma_list_dom(elements, 0, cur, join, g1, aj);
            let (g2, e) = list_s(elements, 0, cur, join, g1);
            lemma_added_trans(g, g1, g2, c, c);
            lemma_dom_add_edge(g2, e, join, EdgeKind::Unconditional, aj);
            let g3 = add_edge_s(g2, e, join, EdgeKind::Unconditional);
            lemma_added_trans(g, g2, g3, c, e as int);
            lemma_dom_weaken(g3, aj, avoid);
        },
        StatementV::Block { body, .. } => {
            lemma_stmts_dom(body, 0, cur, g, avoid);
        },
    }
}

proof fn lemma_stmts_dom(ss: Seq<StatementV>, i: int, cur: nat, g: Seq<BlockV>, avoid: Set<int>)
    requires
        cur < g.len(),
        edges_in_range(g),
        dom_ok(g, avoid),
        avoid_in(g, avoid),
        g.len() + stmts_weight(ss, i) < u32::MAX,
    ensures
        edges_in_range(build_stmts_s(ss, i, cur, g).0),
        dom_ok(build_stmts_s(ss, i, cur, g).0, avoid),
        added_from(g, build_stmts_s(ss, i, cur, g).0, cur as int),
        build_stmts_s(ss, i, cur, g).1 == cur || build_stmts_s(ss, i, cur, g).1 >= g.len(),
        build_stmts_s(ss, i, cur, g).1 < build_stmts_s(ss, i, cur, g).0.len(),
        build_stmts_s(ss, i, cur, g).0.len() <= g.len() + stmts_weight(ss, i),
    decreases ss, ss.len() - i,
{
    if 0 <= i < ss.len() {
        lemma_stmt_dom(ss[i], cur, g, avoid);
        let (g1, c1) = build_stmt_s(ss[i], cur, g);
        lemma_stmts_dom(ss, i + 1, c1, g1, avoid);
        lemma_added_trans(g, g1, build_stmts_s(ss, i + 1, c1, g1).0, cur as int, c1 as int);
    } else {
        lemma_added_refl(g, cur as int);
    }
}

proof fn lemma_arms_dom(arms: Seq<CaseArmV>, i: int, cur: nat, join: nat, g: Seq<BlockV>, avoid: Set<int>)
    requires
        cur < g.len(),
        join < g.len(),
        avoid.contains(join as int),
        edges_in_range(g),
        dom_ok(g, avoid),
        avoid_in(g, avoid),
        g.len() + arms_weight(arms, i) < u32::MAX,
    ensures
        edges_in_range(case_arms_s(arms, i, cur, join, g)),
        dom_ok(case_arms_s(arms, i, cur, join, g), avoid),
        added_from(g, case_arms_s(arms, i, cur, join, g), cur as int),
        case_arms_s(arms, i, cur, join, g).len() <= g.len() + arms_weight(arms, i),
    decreases arms, arms.len() - i,
{
    let c = cur as int;
    if 0 <= i < arms.len() {
        lemma_dom_new_block(g, avoid, c);
        let (g1, e) = new_block_s(g);
        let ae = avoid.insert(e as int);
        lemma_dom_add_edge(g1, cur, e, EdgeKind::ConditionalTrue, ae);
        let g2 = add_edge_s(g1, cur, e, EdgeKind::ConditionalTrue);
        lemma_dom_weaken(g2, ae, avoid);
        lemma_added_trans(g, g1, g2, c, c);
        lemma_stmts_dom(arms[i].body, 0, e, g2, avoid);
        let (g3, x) = build_stmts_s(arms[i].body, 0, e, g2);
        lemma_added_trans(g, g2, g3, c, e as int);
        lemma_dom_add_edge(g3, x, join, EdgeKind::Unconditional, avoid);
        let g4 = add_edge_s(g3, x, join, EdgeKind::Unconditional);
        lemma_added_trans(g, g3, g4, c, x as int);
        lemma_arms_dom(arms, i + 1, cur, join, g4, avoid);
        lemma_added_trans(g, g4, case_arms_s(arms, i + 1, cur, join, g4), c, c);
    } else {
        lemma_added_refl(g, c);
    }
}

proof fn lemma_list_dom(es: Seq<ListElementV>, i: int, cur: nat, join: nat, g: Seq<BlockV>, avoid: Set<int>)
    requires
        cur < g.len(),
        join < g.len(),
        avoid.contains(join as int),
        edges_in_range(g),
        dom_ok(g, avoid),
        avoid_in(g, avoid),
        g.len() + elements_weight(es, i) < u32::MAX,
    ensures
        edges_in_range(list_s(es, i, cur, join, g).0),
        dom_ok(list_s(es, i, cur, join, g).0, avoid),
        added_from(g, list_s(es, i, cur, join, g).0, cur as int),
        list_s(es, i, cur, join, g).1 == cur || list_s(es, i, cur, join, g).1 >= g.len(),
        list_s(es, i, cur, join, g).1 < list_s(es, i, cur, join, g).0.len(),
        list_s(es, i, cur, join, g).0.len() <= g.len() + elements_weight(es, i),
    decreases es, es.len() - i,
{
    let c = cur as int;
    if 0 <= i < es.len() {
        lemma_stmt_dom(es[i].statement, cur, g, avoid);
        let (g1, c1) = build_stmt_s(es[i].statement, cur, g);
        if i + 1 < es.len() && (es[i].operator == Some(ListOperator::And) || es[i].operator == Some(
            ListOperator::Or,
        )) {
            let k1 = if es[i].operator == Some(ListOperator::And) {
                EdgeKind::ConditionalTrue
            } else {
                EdgeKind::ConditionalFalse
            };
            let k2 = if es[i].operator == Some(ListOperator::And) {
                EdgeKind::ConditionalFalse
            } else {
                EdgeKind::ConditionalTrue
            };
            lemma_dom_new_block(g1, avoid, c1 as int);
            let (g2, nx) = new_block_s(g1);
            let an = avoid.insert(nx as int);
            lemma_dom_add_edge(g2, c1, nx, k1, an);
            let g3 = add_edge_s(g2, c1, nx, k1);
            lemma_dom_weaken(g3, an, avoid);
            lemma_dom_add_edge(g3, c1, join, k2, avoid);
            let g4 = add_edge_s(g3, c1, join, k2);
            lemma_added_trans(g1, g2, g3, c1 as int, c1 as int);
            lemma_added_trans(g1, g3, g4, c1 as int, c1 as int);
            lemma_added_trans(g, g1, g4, c, c1 as int);
            lemma_list_dom(es, i + 1, nx, join, g4, avoid);
            lemma_added_trans(g, g4, list_s(es, i + 1, nx, join, g4).0, c, nx as int);
        } else {
            lemma_list_dom(es, i + 1, c1, join, g1, avoid);
            lemma_added_trans(g, g1, list_s(es, i + 1, c1, join, g1).0, c, c1 as int);
        }
    } else {
        lemma_added_refl(g, c);
    }
}

/// In a built graph, each `LoopBack` edge `x -> h` has a region that holds
/// `x`, is entered only through `h`, and does not hold the entry block.
pub proof fn lemma_loop_regions(ss: Seq<StatementV>)
    requires
        stmts_weight(ss, 0) + 2 < u32::MAX,
    ensures
        edges_in_range(cfg_s(ss)),
        dom_ok(cfg_s(ss), Set::empty()),
{
    let e = Seq::<BlockV>::empty();
    let none = Set::<int>::empty();
    assert(dom_ok(e, none));
    assert(edges_in_range(e));
    lemma_dom_new_block(e, none, 0);
    let (g1, entry) = new_block_s(e);
    lemma_dom_weaken(g1, none.insert(0), none);
    lemma_dom_new_block(g1, none, 0);
    let (g2, exit) = new_block_s(g1);
    let a1 = none.insert(1);
    lemma_stmts_dom(ss, 0, entry, g2, a1);
    let (g3, last) = build_stmts_s(ss, 0, entry, g2);
    lemma_dom_add_edge(g3, last, exit, EdgeKind::Unconditional, a1);
    let g4 = add_edge_s(g3, last, exit, EdgeKind::Unconditional);
    lemma_dom_weaken(g4, a1, none);
    assert(cfg_s(ss) == g4);
}

// ---------------------------------------------------------------------------
// Edges other than loop-back edges run forward in some ranking
// ---------------------------------------------------------------------------

/// `rk` ranks the blocks of `g` but those of `pend` below `t`; every edge but
/// a loop-back edge starts at a ranked block and leads to a block of `pend`
/// or to a block of higher rank.
pub open spec fn rank_ok(g: Seq<BlockV>, rk: Seq<int>, pend: Set<int>, t: int) -> bool {
    &&& rk.len() == g.len()
    &&& forall|b: int| 0 <= b < g.len() && !pend.contains(b) ==> #[trigger] rk[b] < t
    &&& forall|b: int| pend.contains(b) ==> 0 <= b < g.len()
    &&& forall|a: int, j: int|
        0 <= a < g.len() && 0 <= j < g[a].successors.len() && (#[trigger] g[a].successors[j]).1 != EdgeKind::LoopBack
            ==> !pend.contains(a) && (pend.contains(target_of(g, a, j)) || rk[a] < rk[target_of(g, a, j)])
}

proof fn lemma_rank_new_active(g: Seq<BlockV>, rk: Seq<int>, pend: Set<int>, t: int)
    requires
        rank_ok(g, rk, pend, t),
        edges_in_range(g),
    ensures
        rank_ok(new_block_s(g).0, rk.push(t), pend, t + 1),
{
    let g2 = new_block_s(g).0;
    let r2 = rk.push(t);
    assert forall|b: int| 0 <= b < g2.len() && !pend.contains(b) implies #[trigger] r2[b] < t + 1 by {
        if b < g.len() {
            assert(r2[b] == rk[b]);
        }
    }
    assert forall|a: int, j: int|
        0 <= a < g2.len() && 0 <= j < g2[a].successors.len() && (#[trigger] g2[a].successors[j]).1 != EdgeKind::LoopBack
            implies !pend.contains(a) && (pend.contains(target_of(g2, a, j)) || r2[a] < r2[target_of(g2, a, j)]) by {
        assert(a < g.len());
        assert(g2[a] == g[a]);
        assert(g[a].successors[j].1 != EdgeKind::LoopBack);
        assert(g[a].successors[j].0.0 < g.len());
        assert(r2[a] == rk[a]);
        if !pend.contains(target_of(g, a, j)) {
            assert(r2[target_of(g, a, j)] == rk[target_of(g, a, j)]);
        }
    }
}

proof fn lemma_rank_new_pending(g: Seq<BlockV>, rk: Seq<int>, pend: Set<int>, t: int)
    requires
        rank_ok(g, rk, pend, t),
        edges_in_range(g),
    ensures
        rank_ok(new_block_s(g).0, rk.push(0), pend.insert(g.len() as int), t),
{
    let g2 = new_block_s(g).0;
    let r2 = rk.push(0);
    let p2 = pend.insert(g.len() as int);
    assert forall|b: int| 0 <= b < g2.len() && !p2.contains(b) implies #[trigger] r2[b] < t by {
        assert(b < g.len());
        assert(r2[b] == rk[b]);
    }
    assert forall|a: int, j: int|
        0 <= a < g2.len() && 0 <= j < g2[a].successors.len() && (#[trigger] g2[a].successors[j]).1 != EdgeKind::LoopBack
            implies !p2.contains(a) && (p2.contains(target_of(g2, a, j)) || r2[a] < r2[target_of(g2, a, j)]) by {
        assert(a < g.len());
        assert(g2[a] == g[a]);
        assert(g[a].successors[j].1 != EdgeKind::LoopBack);
        assert(g[a].successors[j].0.0 < g.len());
        assert(r2[a] == rk[a]);
        if !pend.contains(target_of(g, a, j)) {
            assert(r2[target_of(g, a, j)] == rk[target_of(g, a, j)]);
        }
    }
}

proof fn lemma_rank_add_node(g: Seq<BlockV>, b: nat, id: NodeId, rk: Seq<int>, pend: Set<int>, t: int)
    requires
        rank_ok(g, rk, pend, t),
        b < g.len(),
    ensures
        rank_ok(add_node_s(g, b, id), rk, pend, t),
{
    let g2 = add_node_s(g, b, id);
    assert forall|a: int, j: int|
        0 <= a < g2.len() && 0 <= j < g2[a].successors.len() && (#[trigger] g2[a].successors[j]).1 != EdgeKind::LoopBack
            implies !pend.contains(a) && (pend.contains(target_of(g2, a, j)) || rk[a] < rk[target_of(g2, a, j)]) by {
        assert(g2[a].successors == g[a].successors);
        assert(g[a].successors[j].1 != EdgeKind::LoopBack);
    }
}

proof fn lemma_rank_add_edge(g: Seq<BlockV>, from: nat, to: nat, kind: EdgeKind, rk: Seq<int>, pend: Set<int>, t: int)
    requires
        rank_ok(g, rk, pend, t),
        from < g.len(),
        to < g.len(),
        g.len() <= u32::MAX,
        !pend.contains(from as int),
        kind == EdgeKind::LoopBack || pend.contains(to as int) || rk[from as int] < rk[to as int],
    ensures
        rank_ok(add_edge_s(g, from, to, kind), rk, pend, t),
{
    let g2 = add_edge_s(g, from, to, kind);
    lemma_frame_add_edge(g, from, to, kind);
    assert forall|a: int, j: int|
        0 <= a < g2.len() && 0 <= j < g2[a].successors.len() && (#[trigger] g2[a].successors[j]).1 != EdgeKind::LoopBack
            implies !pend.contains(a) && (pend.contains(target_of(g2, a, j)) || rk[a] < rk[target_of(g2, a, j)]) by {
        if a == from as int {
            if j < g[a].successors.len() {
                assert(g2[a].successors[j] == g[a].successors[j]);
                assert(g[a].successors[j].1 != EdgeKind::LoopBack);
            } else {
                assert(g2[a].successors[j] == (BlockId(to as u32), kind));
            }
        } else {
            assert(g2[a].successors == g[a].successors);
            assert(g[a].successors[j].1 != EdgeKind::LoopBack);
        }
    }
}

/// A pending block gets the rank `t`.
proof fn lemma_rank_activate(g: Seq<BlockV>, b: int, rk: Seq<int>, pend: Set<int>, t: int)
    requires
        rank_ok(g, rk, pend, t),
        edges_in_range(g),
        pend.contains(b),
    ensures
        rank_ok(g, rk.update(b, t), pend.remove(b), t + 1),
{
    let r2 = rk.update(b, t);
    let p2 = pend.remove(b);
    assert forall|x: int| 0 <= x < g.len() && !p2.contains(x) implies #[trigger] r2[x] < t + 1 by {
        if x != b {
            assert(r2[x] == rk[x]);
        }
    }
    assert forall|a: int, j: int|
        0 <= a < g.len() && 0 <= j < g[a].successors.len() && (#[trigger] g[a].successors[j]).1 != EdgeKind::LoopBack
            implies !p2.contains(a) && (p2.contains(target_of(g, a, j)) || r2[a] < r2[target_of(g, a, j)]) by {
        let v = target_of(g, a, j);
        assert(g[a].successors[j].0.0 < g.len());
        assert(a != b);
        assert(r2[a] == rk[a]);
        assert(rk[a] < t);
        if v != b {
            assert(r2[v] == rk[v]);
        }
    }
}

#[verifier::spinoff_prover]
#[verifier::rlimit(80)]
proof fn lemma_stmt_rank(s: StatementV, cur: nat, g: Seq<BlockV>, rk: Seq<int>, pend: Set<int>, t: int) -> (r: (
    Seq<int>,
    int,
))
    requires
        rank_ok(g, rk, pend, t),
        edges_in_range(g),
        !pend.contains(cur as int),
        cur < g.len(),
        g.len() + stmt_weight(s) < u32::MAX,
    ensures
        rank_ok(build_stmt_s(s, cur, g).0, r.0, pend, r.1),
        g.len() <= build_stmt_s(s, cur, g).0.len(),
        edges_in_range(build_stmt_s(s, cur, g).0),
        !pend.contains(build_stmt_s(s, cur, g).1 as int),
        build_stmt_s(s, cur, g).1 < build_stmt_s(s, cur, g).0.len(),
        build_stmt_s(s, cur, g).0.len() <= g.len() + stmt_weight(s),
    decreases s, 0int,
{
    let none = Set::<int>::empty();
    match s {
        StatementV::Assignment { id, .. } => {
            lemma_rank_add_node(g, cur, id, rk, pend, t);
            lemma_edges_add_node(g, cur, id);
            (rk, t)
        },
        StatementV::Command { id, .. } => {
            lemma_rank_add_node(g, cur, id, rk, pend, t);
            lemma_edges_add_node(g, cur, id);
            (rk, t)
        },
        StatementV::SourceCommand { id, .. } => {
            lemma_rank_add_node(g, cur, id, rk, pend, t);
            lemma_edges_add_node(g, cur, id);
            (rk, t)
        },
        StatementV::Pipeline { id, .. } => {
            lemma_rank_add_node(g, cur, id, rk, pend, t);
            lemma_edges_add_node(g, cur, id);
            (rk, t)
        },
        StatementV::Unmodeled { id, .. } => {
            lemma_rank_add_node(g, cur, id, rk, pend, t);
            lemma_edges_add_node(g, cur, id);
            (rk, t)
        },
        StatementV::If { condition, then_body, else_body, .. } => {
            let r1 = lemma_stmts_rank(condition, 0, cur, g, rk, pend, t);
            let (g1, ce) = build_stmts_s(condition, 0, cur, g);
            lemma_rank_new_active(g1, r1.0, pend, r1.1);
            lemma_edges_new_block(g1);
            let (g2, te) = new_block_s(g1);
            let rk2 = r1.0.push(r1.1);
            let t2 = r1.1 + 1;
            lemma_rank_add_edge(g2, ce, te, EdgeKind::ConditionalTrue, rk2, pend, t2);
            lemma_edges_add_edge(g2, ce, te, EdgeKind::ConditionalTrue);
            let g3 = add_edge_s(g2, ce, te, EdgeKind::ConditionalTrue);
            let r4 = lemma_stmts_rank(then_body, 0, te, g3, rk2, pend, t2);
            let (g4, tx) = build_stmts_s(then_body, 0, te, g3);
            lemma_rank_new_pending(g4, r4.0, pend, r4.1);
            lemma_edges_new_block(g4);
            let (g5, join) = new_block_s(g4);
            let pj = pend.insert(join as int);
            let rk5 = r4.0.push(0);
            lemma_rank_add_edge(g5, tx, join, EdgeKind::Unconditional, rk5, pj, r4.1);
            lemma_edges_add_edge(g5, tx, join, EdgeKind::Unconditional);
            let g6 = add_edge_s(g5, tx, join, EdgeKind::Unconditional);
            match else_body {
                Some(e) => {
                    lemma_rank_new_active(g6, rk5, pj, r4.1);
                    lemma_edges_new_block(g6);
                    let (g7, ee) = new_block_s(g6);
                    let rk7 = rk5.push(r4.1);
                    let t7 = r4.1 + 1;
                    lemma_rank_add_edge(g7, ce, ee, EdgeKind::ConditionalFalse, rk7, pj, t7);
                    lemma_edges_add_edge(g7, ce, ee, EdgeKind::ConditionalFalse);
                    let g8 = add_edge_s(g7, ce, ee, EdgeKind::ConditionalFalse);
                    let r9 = lemma_stmts_rank(e, 0, ee, g8, rk7, pj, t7);
                    let (g9, ex) = build_stmts_s(e, 0, ee, g8);
                    lemma_rank_add_edge(g9, ex, join, EdgeKind::Unconditional, r9.0, pj, r9.1);
                    lemma_edges_add_edge(g9, ex, join, EdgeKind::Unconditional);
                    let g10 = add_edge_s(g9, ex, join, EdgeKind::Unconditional);
                    lemma_rank_activate(g10, join as int, r9.0, pj, r9.1);
                    assert(pj.remove(join as int) =~= pend);
                    (r9.0.update(join as int, r9.1), r9.1 + 1)
                },
                None => {
                    lemma_rank_add_edge(g6, ce, join, EdgeKind::ConditionalFalse, rk5, pj, r4.1);
                    lemma_edges_add_edge(g6, ce, join, EdgeKind::ConditionalFalse);
                    let g7 = add_edge_s(g6, ce, join, EdgeKind::ConditionalFalse);
                    lemma_rank_activate(g7, join as int, rk5, pj, r4.1);
                    assert(pj.remove(join as int) =~= pend);
                    (rk5.update(join as int, r4.1), r4.1 + 1)
                },
            }
        },
        StatementV::For { id, body, .. } => {
            lemma_rank_new_active(g, rk, pend, t);
            lemma_edges_new_block(g);
            let (g1, h) = new_block_s(g);
            let rk1 = rk.push(t);
            lemma_rank_add_node(g1, h, id, rk1, pend, t + 1);
            lemma_edges_add_node(g1, h, id);
            let g2 = add_node_s(g1, h, id);
            lemma_rank_add_edge(g2, cur, h, EdgeKind::Unconditional, rk1, pend, t + 1);
            lemma_edges_add_edge(g2, cur, h, EdgeKind::Unconditional);
            let g3 = add_edge_s(g2, cur, h, EdgeKind::Unconditional);
            lemma_rank_new_active(g3, rk1, pend, t + 1);
            lemma_edges_new_block(g3);
            let (g4, be) = new_block_s(g3);
            let rk4 = rk1.push(t + 1);
            lemma_rank_add_edge(g4, h, be, EdgeKind::ConditionalTrue, rk4, pend, t + 2);
            lemma_edges_add_edge(g4, h, be, EdgeKind::ConditionalTrue);
            let g5 = add_edge_s(g4, h, be, EdgeKind::ConditionalTrue);
            let r6 = lemma_stmts_rank(body, 0, be, g5, rk4, pend, t + 2);
            let (g6, bx) = build_stmts_s(body, 0, be, g5);
            lemma_rank_add_edge(g6, bx, h, EdgeKind::LoopBack, r6.0, pend, r6.1);
            lemma_edges_add_edge(g6, bx, h, EdgeKind::LoopBack);
            let g7 = add_edge_s(g6, bx, h, EdgeKind::LoopBack);
            lemma_rank_new_active(g7, r6.0, pend, r6.1);
            lemma_edges_new_block(g7);
            let (g8, ex) = new_block_s(g7);
            let rk8 = r6.0.push(r6.1);
            lemma_rank_add_edge(g8, h, ex, EdgeKind::ConditionalFalse, rk8, pend, r6.1 + 1);
            lemma_edges_add_edge(g8, h, ex, EdgeKind::ConditionalFalse);
            (rk8, r6.1 + 1)
        },
        StatementV::While { condition, body, .. } => {
            lemma_rank_new_active(g, rk, pend, t);
            lemma_edges_new_block(g);
            let (g1, h) = new_block_s(g);
            let rk1 = rk.push(t);
            lemma_rank_add_edge(g1, cur, h, EdgeKind::Unconditional, rk1, pend, t + 1);
            lemma_edges_add_edge(g1, cur, h, EdgeKind::Unconditional);
            let g2 = add_edge_s(g1, cur, h, EdgeKind::Unconditional);
            let r3 = lemma_stmts_rank(condition, 0, h, g2, rk1, pend, t + 1);
            let (g3, ce) = build_stmts_s(condition, 0, h, g2);
            lemma_rank_new_active(g3, r3.0, pend, r3.1);
            lemma_edges_new_block(g3);
            let (g4, be) = new_block_s(g3);
            let rk4 = r3.0.push(r3.1);
            lemma_rank_add_edge(g4, ce, be, EdgeKind::ConditionalTrue, rk4, pend, r3.1 + 1);
            lemma_edges_add_edge(g4, ce, be, EdgeKind::ConditionalTrue);
            let g5 = add_edge_s(g4, ce, be, EdgeKind::ConditionalTrue);
            let r6 = lemma_stmts_rank(body, 0, be, g5, rk4, pend, r3.1 + 1);
            let (g6, bx) = build_stmts_s(body, 0, be, g5);
            lemma_rank_add_edge(g6, bx, h, EdgeKind::LoopBack, r6.0, pend, r6.1);
            lemma_edges_add_edge(g6, bx, h, EdgeKind::LoopBack);
            let g7 = add_edge_s(g6, bx, h, EdgeKind::LoopBack);
            lemma_rank_new_active(g7, r6.0, pend, r6.1);
            lemma_edges_new_block(g7);
            let (g8, ex) = new_block_s(g7);
            let rk8 = r6.0.push(r6.1);
            lemma_rank_add_edge(g8, ce, ex, EdgeKind::ConditionalFalse, rk8, pend, r6.1 + 1);
            lemma_edges_add_edge(g8, ce, ex, EdgeKind::ConditionalFalse);
            (rk8, r6.1 + 1)
        },
        StatementV::Case { id, arms, .. } => {
            lemma_rank_add_node(g, cur, id, rk, pend, t);
            lemma_edges_add_node(g, cur, id);
            let g1 = add_node_s(g, cur, id);
            lemma_rank_new_pending(g1, rk, pend, t);
            lemma_edges_new_block(g1);
            let (g2, join) = new_block_s(g1);
            let pj = pend.insert(join as int);
            let rk2 = rk.push(0);
            let r3 = lemma_arms_rank(arms, 0, cur, join, g2, rk2, pj, t);
            let g3 = case_arms_s(arms, 0, cur, join, g2);
            if has_default_s(arms) {
                lemma_rank_activate(g3, join as int, r3.0, pj, r3.1);
                assert(pj.remove(join as int) =~= pend);
                (r3.0.update(join as int, r3.1), r3.1 + 1)
            } else {
                lemma_rank_add_edge(g3, cur, join, EdgeKind::ConditionalFalse, r3.0, pj, r3.1);
                lemma_edges_add_edge(g3, cur, join, EdgeKind::ConditionalFalse);
                let g4 = add_edge_s(g3, cur, join, EdgeKind::ConditionalFalse);
                lemma_rank_activate(g4, join as int, r3.0, pj, r3.1);
                assert(pj.remove(join as int) =~= pend);
                (r3.0.update(join as int, r3.1), r3.1 + 1)
            }
        },
        StatementV::List { elements, .. } => {
            lemma_rank_new_pending(g, rk, pend, t);
            lemma_edges_new_block(g);
            let (g1, join) = new_block_s(g);
            let pj = pend.insert(join as int);
            let rk1 = rk.push(0);
            let r2 = lemma_list_rank(elements, 0, cur, join, g1, rk1, pj, t);
            let (g2, c) = list_s(elements, 0, cur, join, g1);
            lemma_rank_add_edge(g2, c, join, EdgeKind::Unconditional, r2.0, pj, r2.1);
            lemma_edges_add_edge(g2, c, join, EdgeKind::Unconditional);
            let g3 = add_edge_s(g2, c, join, EdgeKind::Unconditional);
            lemma_rank_activate(g3, join as int, r2.0, pj, r2.1);
            assert(pj.remove(join as int) =~= pend);
            (r2.0.update(join as int, r2.1), r2.1 + 1)
        },
        StatementV::Block { body, .. } => lemma_stmts_rank(body, 0, cur, g, rk, pend, t),
    }
}

proof fn lemma_stmts_rank(ss: Seq<StatementV>, i: int, cur: nat, g: Seq<BlockV>, rk: Seq<int>, pend: Set<int>, t: int) -> (r: (
    Seq<int>,
    int,
))
    requires
        rank_ok(g, rk, pend, t),
        edges_in_range(g),
        !pend.contains(cur as int),
        cur < g.len(),
        g.len() + stmts_weight(ss, i) < u32::MAX,
    ensures
        rank_ok(build_stmts_s(ss, i, cur, g).0, r.0, pend, r.1),
        g.len() <= build_stmts_s(ss, i, cur, g).0.len(),
        edges_in_range(build_stmts_s(ss, i, cur, g).0),
        !pend.contains(build_stmts_s(ss, i, cur, g).1 as int),
        build_stmts_s(ss, i, cur, g).1 < build_stmts_s(ss, i, cur, g).0.len(),
        build_stmts_s(ss, i, cur, g).0.len() <= g.len() + stmts_weight(ss, i),
    decreases ss, ss.len() - i,
{
    if 0 <= i < ss.len() {
        let r1 = lemma_stmt_rank(ss[i], cur, g, rk, pend, t);
        let (g1, c1) = build_stmt_s(ss[i], cur, g);
        lemma_stmts_rank(ss, i + 1, c1, g1, r1.0, pend, r1.1)
    } else {
        (rk, t)
    }
}

proof fn lemma_arms_rank(
    arms: Seq<CaseArmV>,
    i: int,
    cur: nat,
    join: nat,
    g: Seq<BlockV>,
    rk: Seq<int>,
    pend: Set<int>,
    t: int,
) -> (r: (Seq<int>, int))
    requires
        rank_ok(g, rk, pend, t),
        edges_in_range(g),
        !pend.contains(cur as int),
        pend.contains(join as int),
        cur < g.len(),
        join < g.len(),
        g.len() + arms_weight(arms, i) < u32::MAX,
    ensures
        rank_ok(case_arms_s(arms, i, cur, join, g), r.0, pend, r.1),
        g.len() <= case_arms_s(arms, i, cur, join, g).len(),
        edges_in_range(case_arms_s(arms, i, cur, join, g)),
        case_arms_s(arms, i, cur, join, g).len() <= g.len() + arms_weight(arms, i),
    decreases arms, arms.len() - i,
{
    if 0 <= i < arms.len() {
        lemma_rank_new_active(g, rk, pend, t);
        lemma_edges_new_block(g);
        let (g1, e) = new_block_s(g);
        let rk1 = rk.push(t);
        lemma_rank_add_edge(g1, cur, e, EdgeKind::ConditionalTrue, rk1, pend, t + 1);
        lemma_edges_add_edge(g1, cur, e, EdgeKind::ConditionalTrue);
        let g2 = add_edge_s(g1, cur, e, EdgeKind::ConditionalTrue);
        let r3 = lemma_stmts_rank(arms[i].body, 0, e, g2, rk1, pend, t + 1);
        let (g3, x) = build_stmts_s(arms[i].body, 0, e, g2);
        lemma_rank_add_edge(g3, x, join, EdgeKind::Unconditional, r3.0, pend, r3.1);
        lemma_edges_add_edge(g3, x, join, EdgeKind::Unconditional);
        let g4 = add_edge_s(g3, x, join, EdgeKind::Unconditional);
        lemma_arms_rank(arms, i + 1, cur, join, g4, r3.0, pend, r3.1)
    } else {
        (rk, t)
    }
}

proof fn lemma_list_rank(
    es: Seq<ListElementV>,
    i: int,
    cur: nat,
    join: nat,
    g: Seq<BlockV>,
    rk: Seq<int>,
    pend: Set<int>,
    t: int,
) -> (r: (Seq<int>, int))
    requires
        rank_ok(g, rk, pend, t),
        edges_in_range(g),
        !pend.contains(cur as int),
        pend.contains(join as int),
        cur < g.len(),
        join < g.len(),
        g.len() + elements_weight(es, i) < u32::MAX,
    ensures
        rank_ok(list_s(es, i, cur, join, g).0, r.0, pend, r.1),
        g.len() <= list_s(es, i, cur, join, g).0.len(),
        edges_in_range(list_s(es, i, cur, join, g).0),
        !pend.contains(list_s(es, i, cur, join, g).1 as int),
        list_s(es, i, cur, join, g).1 < list_s(es, i, cur, join, g).0.len(),
        list_s(es, i, cur, join, g).0.len() <= g.len() + elements_weight(es, i),
    decreases es, es.len() - i,
{
    if 0 <= i < es.len() {
        let r1 = lemma_stmt_rank(es[i].statement, cur, g, rk, pend, t);
        let (g1, c1) = build_stmt_s(es[i].statement, cur, g);
        if i + 1 < es.len() && (es[i].operator == Some(ListOperator::And) || es[i].operator == Some(
            ListOperator::Or,
        )) {
            let k1 = if es[i].operator == Some(ListOperator::And) {
                EdgeKind::ConditionalTrue
            } else {
                EdgeKind::ConditionalFalse
            };
            let k2 = if es[i].operator == Some(ListOperator::And) {
                EdgeKind::ConditionalFalse
            } else {
                EdgeKind::ConditionalTrue
            };
            lemma_rank_new_active(g1, r1.0, pend, r1.1);
            lemma_edges_new_block(g1);
            let (g2, nx) = new_block_s(g1);
            let rk2 = r1.0.push(r1.1);
            lemma_rank_add_edge(g2, c1, nx, k1, rk2, pend, r1.1 + 1);
            lemma_edges_add_edge(g2, c1, nx, k1);
            let g3 = add_edge_s(g2, c1, nx, k1);
            lemma_rank_add_edge(g3, c1, join, k2, rk2, pend, r1.1 + 1);
            lemma_edges_add_edge(g3, c1, join, k2);
            let g4 = add_edge_s(g3, c1, join, k2);
            lemma_list_rank(es, i + 1, nx, join, g4, rk2, pend, r1.1 + 1)
        } else {
            lemma_list_rank(es, i + 1, c1, join, g1, r1.0, pend, r1.1)
        }
    } else {
        (rk, t)
    }
}

proof fn lemma_edges_new_block(g: Seq<BlockV>)
    requires
        edges_in_range(g),
    ensures
        edges_in_range(new_block_s(g).0),
        new_block_s(g).0.len() == g.len() + 1,
{
    let g2 = new_block_s(g).0;
    assert forall|b: int, j: int| 0 <= b < g2.len() && 0 <= j < g2[b].successors.len() implies (#[trigger] g2[b].successors[j]).0.0
        < g2.len() by {
        assert(g2[b] == g[b]);
    }
}

proof fn lemma_edges_add_node(g: Seq<BlockV>, b: nat, id: NodeId)
    requires
        edges_in_range(g),
        b < g.len(),
    ensures
        edges_in_range(add_node_s(g, b, id)),
        add_node_s(g, b, id).len() == g.len(),
{
    let g2 = add_node_s(g, b, id);
    assert forall|x: int, j: int| 0 <= x < g2.len() && 0 <= j < g2[x].successors.len() implies (#[trigger] g2[x].successors[j]).0.0
        < g2.len() by {
        assert(g2[x].successors == g[x].successors);
    }
}

proof fn lemma_edges_add_edge(g: Seq<BlockV>, from: nat, to: nat, kind: EdgeKind)
    requires
        edges_in_range(g),
        from < g.len(),
        to < g.len(),
        g.len() <= u32::MAX,
    ensures
        edges_in_range(add_edge_s(g, from, to, kind)),
        add_edge_s(g, from, to, kind).len() == g.len(),
{
    lemma_closed_edge_facts(g, from, to, kind);
}

/// In a built graph some ranking of the blocks grows along every edge that
/// is not a loop-back edge.
pub proof fn lemma_forward_ranking(ss: Seq<StatementV>) -> (rk: Seq<int>)
    requires
        stmts_weight(ss, 0) + 2 < u32::MAX,
    ensures
        rk.len() == cfg_s(ss).len(),
        forall|a: int, j: int|
            0 <= a < cfg_s(ss).len() && 0 <= j < cfg_s(ss)[a].successors.len() && (#[trigger] cfg_s(ss)[a].successors[j]).1
                != EdgeKind::LoopBack ==> rk[a] < rk[target_of(cfg_s(ss), a, j)],
{
    let e = Seq::<BlockV>::empty();
    let none = Set::<int>::empty();
    assert(rank_ok(e, Seq::<int>::empty(), none, 0));
    assert(edges_in_range(e));
    lemma_rank_new_active(e, Seq::<int>::empty(), none, 0);
    lemma_edges_new_block(e);
    let (g1, entry) = new_block_s(e);
    let rk1 = Seq::<int>::empty().push(0);
    lemma_rank_new_pending(g1, rk1, none, 1);
    lemma_edges_new_block(g1);
    let (g2, exit) = new_block_s(g1);
    let p1 = none.insert(1);
    let rk2 = rk1.push(0);
    let r3 = lemma_stmts_rank(ss, 0, entry, g2, rk2, p1, 1);
    let (g3, last) = build_stmts_s(ss, 0, entry, g2);
    lemma_rank_add_edge(g3, last, exit, EdgeKind::Unconditional, r3.0, p1, r3.1);
    let g4 = add_edge_s(g3, last, exit, EdgeKind::Unconditional);
    lemma_rank_activate(g4, 1, r3.0, p1, r3.1);
    assert(p1.remove(1) =~= none);
    assert(cfg_s(ss) == g4);
    r3.0.update(1, r3.1)
}

// ---------------------------------------------------------------------------
// In a built graph only loop-back edges close cycles
// ---------------------------------------------------------------------------

/// `g` is the graph of some statement sequence whose blocks `u32` ids can
/// number.
pub open spec fn is_built(g: Seq<BlockV>) -> bool {
    exists|ss: Seq<StatementV>| stmts_weight(ss, 0) + 2 < u32::MAX && #[trigger] cfg_s(ss) == g
}

/// Some edge from `a` to `b` is not a loop-back edge.
pub open spec fn forward_step(g: Seq<BlockV>, a: int, b: int) -> bool {
    exists|j: int|
        0 <= j < g[a].successors.len() && #[trigger] target_of(g, a, j) == b && g[a].successors[j].1
            != EdgeKind::LoopBack
}

proof fn lemma_rank_path(g: Seq<BlockV>, rk: Seq<int>, q: Seq<int>)
    requires
        q.len() >= 1,
        forall|a: int, j: int|
            0 <= a < g.len() && 0 <= j < g[a].successors.len() && (#[trigger] g[a].successors[j]).1 != EdgeKind::LoopBack
                ==> rk[a] < rk[target_of(g, a, j)],
        forall|s: int| 0 <= s < q.len() - 1 ==> #[trigger] forward_step(g, q[s], q[s + 1]),
        forall|s: int| 0 <= s < q.len() ==> 0 <= #[trigger] q[s] < g.len(),
    ensures
        rk[q[0]] <= rk[q.last()],
        q.len() >= 2 ==> rk[q[0]] < rk[q.last()],
    decreases q.len(),
{
    if q.len() >= 2 {
        let p = q.drop_last();
        assert forall|s: int| 0 <= s < p.len() - 1 implies #[trigger] forward_step(g, p[s], p[s + 1]) by {
            assert(forward_step(g, q[s], q[s + 1]));
        }
        assert forall|s: int| 0 <= s < p.len() implies 0 <= #[trigger] p[s] < g.len() by {
            assert(0 <= q[s] < g.len());
        }
        lemma_rank_path(g, rk, p);
        let m = q.len() - 2;
        assert(forward_step(g, q[m], q[m + 1]));
        let j = choose|j: int|
            0 <= j < g[q[m]].successors.len() && #[trigger] target_of(g, q[m], j) == q[m + 1] && g[q[m]].successors[j].1
                != EdgeKind::LoopBack;
        assert(0 <= q[m] < g.len());
        assert(g[q[m]].successors[j].1 != EdgeKind::LoopBack);
    }
}

/// A path that starts outside the blocks strictly between `h` and `hi` and
/// ends inside them passes through `h` before its end.
proof fn lemma_enter_region(g: Seq<BlockV>, p: Seq<int>, h: int, hi: int)
    requires
        is_path(g, p),
        !(h < p[0] < hi),
        h < p.last() < hi,
        closed(g, h, hi),
    ensures
        exists|m: int| 0 <= m < p.len() - 1 && p[m] == h,
    decreases p.len(),
{
    let q = p.drop_last();
    if p.len() >= 2 {
        assert forall|k: int| 0 <= k < q.len() - 1 implies #[trigger] has_edge(g, q[k], q[k + 1]) by {
            assert(has_edge(g, p[k], p[k + 1]));
        }
        let m = p.len() - 2;
        assert(has_edge(g, p[m], p[m + 1]));
        let j = choose|j: int| 0 <= j < g[p[m]].successors.len() && g[p[m]].successors[j].0.0 == p[m + 1];
        assert(target_of(g, p[m], j) == p.last());
        if h < q.last() < hi {
            lemma_enter_region(g, q, h, hi);
            let k = choose|k: int| 0 <= k < q.len() - 1 && q[k] == h;
            assert(p[k] == h);
        } else {
            assert(p[m] == h);
        }
    }
}

/// In a built graph no block reached by an edge other than a loop-back edge
/// lies on a path from the entry to that edge's source that visits no block
/// twice: only loop-back edges close cycles that a depth-first search from
/// the entry can find.
pub proof fn lemma_only_loop_back_edges_close_cycles(ss: Seq<StatementV>, u: int, j: int)
    requires
        stmts_weight(ss, 0) + 2 < u32::MAX,
        0 <= u < cfg_s(ss).len(),
        0 <= j < cfg_s(ss)[u].successors.len(),
        cfg_s(ss)[u].successors[j].1 != EdgeKind::LoopBack,
    ensures
        !on_simple_path(cfg_s(ss), 0, target_of(cfg_s(ss), u, j), u),
{
    let g = cfg_s(ss);
    let v = target_of(g, u, j);
    let rk = lemma_forward_ranking(ss);
    lemma_loop_regions(ss);
    if on_simple_path(g, 0, v, u) {
        let p = choose|p: Seq<int>| #[trigger] simple_path(g, 0, u, p) && p.contains(v);
        let i = choose|i: int| 0 <= i < p.len() && p[i] == v;
        let q = p.subrange(i, p.len() as int);
        assert forall|s: int| 0 <= s < p.len() implies 0 <= #[trigger] p[s] < g.len() by {
            if s < p.len() - 1 {
                assert(has_edge(g, p[s], p[s + 1]));
            }
        }
        assert(rk[u] < rk[v]);
        if forall|s: int| 0 <= s < q.len() - 1 ==> #[trigger] forward_step(g, q[s], q[s + 1]) {
            assert forall|s: int| 0 <= s < q.len() implies 0 <= #[trigger] q[s] < g.len() by {
                assert(q[s] == p[i + s]);
            }
            lemma_rank_path(g, rk, q);
            assert(q[0] == v && q.last() == u);
        } else {
            let s = choose|s: int| 0 <= s < q.len() - 1 && !#[trigger] forward_step(g, q[s], q[s + 1]);
            let a = i + s;
            assert(q[s] == p[a] && q[s + 1] == p[a + 1]);
            assert(has_edge(g, p[a], p[a + 1]));
            let jj = choose|jj: int| 0 <= jj < g[p[a]].successors.len() && g[p[a]].successors[jj].0.0 == p[a + 1];
            assert(target_of(g, p[a], jj) == p[a + 1]);
            assert(g[p[a]].successors[jj].1 == EdgeKind::LoopBack);
            let x = p[a];
            let h = p[a + 1];
            let hi = choose|hi: int| #[trigger] loop_region(g, x, h, hi, Set::<int>::empty());
            let pre = p.take(a + 1);
            assert forall|k: int| 0 <= k < pre.len() - 1 implies #[trigger] has_edge(g, pre[k], pre[k + 1]) by {
                assert(has_edge(g, p[k], p[k + 1]));
            }
            assert(is_path(g, pre));
            assert(pre.last() == x);
            lemma_enter_region(g, pre, h, hi);
            let m = choose|m: int| 0 <= m < pre.len() - 1 && pre[m] == h;
            assert(p[m] == h && m < a + 1);
            assert(p.no_duplicates());
        }
    }
}

/// The position of block `x` in `order`, if it is there.
pub open spec fn holds(order: Seq<BlockId>, x: int) -> bool {
    exists|k: int| 0 <= k < order.len() && order[k].0 == x
}

/// The number of unvisited blocks.
spec fn unvisited(v: Seq<bool>) -> nat
    decreases v.len(),
{
    if v.len() == 0 {
        0
    } else {
        unvisited(v.drop_last()) + if v.last() { 0nat } else { 1nat }
    }
}

proof fn lemma_unvisited_mono(a: Seq<bool>, b: Seq<bool>)
    requires
        a.len() == b.len(),
        forall|i: int| 0 <= i < a.len() && a[i] ==> b[i],
    ensures
        unvisited(b) <= unvisited(a),
        (exists|i: int| 0 <= i < a.len() && !a[i] && b[i]) ==> unvisited(b) < unvisited(a),
    decreases a.len(),
{
    if a.len() > 0 {
        lemma_unvisited_mono(a.drop_last(), b.drop_last());
        if exists|i: int| 0 <= i < a.len() && !a[i] && b[i] {
            let i = choose|i: int| 0 <= i < a.len() && !a[i] && b[i];
            if i < a.len() - 1 {
                assert(!a.drop_last()[i] && b.drop_last()[i]);
            }
        }
    }
}

/// `p` is a path of `g` from block `e` to block `u` that visits no block
/// twice.
pub open spec fn simple_path(g: Seq<BlockV>, e: int, u: int, p: Seq<int>) -> bool {
    &&& is_path(g, p)
    &&& p[0] == e
    &&& p.last() == u
    &&& p.no_duplicates()
}

/// Block `v` lies on a path from `e` to `u` that visits no block twice.
pub open spec fn on_simple_path(g: Seq<BlockV>, e: int, v: int, u: int) -> bool {
    exists|p: Seq<int>| #[trigger] simple_path(g, e, u, p) && p.contains(v)
}

/// The successor `v` of the `k`-th block of `order` comes earlier in
/// `order`, or lies on a path from `e` to that block that visits no block
/// twice (and so reaches that block back).
pub open spec fn edge_back_or_cycle(g: Seq<BlockV>, e: int, order: Seq<BlockId>, k: int, v: int) -> bool {
    (exists|l: int| 0 <= l < k && order[l].0 == v) || (reachable(g, v, order[k].0 as int) && on_simple_path(
        g,
        e,
        v,
        order[k].0 as int,
    ))
}

/// The successor `v` of the `x`-th block of `r` comes later in `r`, or lies
/// on a path from `e` to that block that visits no block twice (and so
/// reaches that block back).
pub open spec fn forward_or_cycle(g: Seq<BlockV>, e: int, r: Seq<BlockId>, x: int, v: int) -> bool {
    (exists|y: int| x < y < r.len() && r[y].0 == v) || (reachable(g, v, r[x].0 as int) && on_simple_path(
        g,
        e,
        v,
        r[x].0 as int,
    ))
}

/// `p` is the stack of the search: a path from `e` to `b` that visits no
/// block twice, whose blocks before `b` are those of `gray`.
pub open spec fn stack_ok(g: Seq<BlockV>, e: int, p: Seq<int>, gray: Set<int>, b: int) -> bool {
    &&& simple_path(g, e, b, p)
    &&& forall|i: int| 0 <= i < p.len() - 1 ==> gray.contains(#[trigger] p[i])
    &&& forall|x: int| gray.contains(x) ==> p.contains(x)
}

/// The state of the search: `order` holds distinct blocks, all visited;
/// a visited block is in `order` or on the stack `gray`; the successors of
/// every block in `order` are visited.
spec fn dfs_inv(g: Seq<BlockV>, e: int, vis: Seq<bool>, order: Seq<BlockId>, gray: Set<int>) -> bool {
    &&& vis.len() == g.len()
    &&& forall|k: int| 0 <= k < order.len() ==> (order[k].0 as int) < g.len() && vis[order[k].0 as int]
    &&& forall|k: int, l: int| 0 <= k < l < order.len() ==> order[k] != order[l]
    &&& forall|i: int| 0 <= i < g.len() && vis[i] ==> holds(order, i) || gray.contains(i)
    &&& forall|i: int| gray.contains(i) ==> 0 <= i < g.len() && vis[i] && !holds(order, i)
    &&& forall|k: int, j: int|
        0 <= k < order.len() && 0 <= j < g[order[k].0 as int].successors.len() ==> vis[(#[trigger] g[order[k].0 as int].successors[j]).0.0 as int]
    &&& forall|k: int, j: int|
        0 <= k < order.len() && 0 <= j < g[order[k].0 as int].successors.len() ==> edge_back_or_cycle(
            g,
            e,
            order,
            k,
            (#[trigger] g[order[k].0 as int].successors[j]).0.0 as int,
        )
}

proof fn lemma_closed_reach(g: Seq<BlockV>, e: int, vis: Seq<bool>, order: Seq<BlockId>, p: Seq<int>)
    requires
        dfs_inv(g, e, vis, order, Set::empty()),
        edges_in_range(g),
        is_path(g, p),
        0 <= p[0] < g.len(),
        holds(order, p[0]),
    ensures
        holds(order, p.last()),
    decreases p.len(),
{
    if p.len() > 1 {
        let q = p.drop_last();
        assert forall|k: int| 0 <= k < q.len() - 1 implies #[trigger] has_edge(g, q[k], q[k + 1]) by {
            assert(has_edge(g, p[k], p[k + 1]));
        }
        lemma_closed_reach(g, e, vis, order, q);
        let a = q.last();
        let m = p.len() - 2;
        assert(has_edge(g, p[m], p[m + 1]));
        let j = choose|j: int| 0 <= j < g[a].successors.len() && g[a].successors[j].0.0 == p.last();
        let k = choose|k: int| 0 <= k < order.len() && order[k].0 == a;
        assert(vis[g[order[k].0 as int].successors[j].0.0 as int]);
    }
}

impl Cfg {
    /// The graph is well formed: entry and exit are blocks of it, and every
    /// edge leads to one of its blocks.
    pub open spec fn well_formed(&self) -> bool {
        &&& (self.entry_id().0 as int) < self.graph().len()
        &&& (self.exit_id().0 as int) < self.graph().len()
        &&& edges_in_range(self.graph())
    }

    fn dfs_postorder(
        &self,
        block: BlockId,
        visited: &mut Vec<bool>,
        order: &mut Vec<BlockId>,
        Ghost(gray): Ghost<Set<int>>,
        Ghost(stack): Ghost<Seq<int>>,
    )
        requires
            self.well_formed(),
            (block.0 as int) < self.graph().len(),
            dfs_inv(self.graph(), self.entry_id().0 as int, old(visited)@, old(order)@, gray),
            !old(visited)@[block.0 as int] ==> stack_ok(self.graph(), self.entry_id().0 as int, stack, gray, block.0 as int),
            reachable(self.graph(), self.entry_id().0 as int, block.0 as int),
            forall|x: int| gray.contains(x) ==> reachable(self.graph(), x, block.0 as int),
            forall|k: int| 0 <= k < old(order)@.len() ==> reachable(self.graph(), self.entry_id().0 as int, #[trigger] old(order)@[k].0 as int),
        ensures
            dfs_inv(self.graph(), self.entry_id().0 as int, final(visited)@, final(order)@, gray),
            final(visited)@[block.0 as int],
            forall|i: int| 0 <= i < old(visited)@.len() && old(visited)@[i] ==> final(visited)@[i],
            final(order)@.len() >= old(order)@.len(),
            final(order)@.take(old(order)@.len() as int) == old(order)@,
            old(visited)@[block.0 as int] ==> final(order)@ == old(order)@,
            !old(visited)@[block.0 as int] ==> final(order)@.last() == block,
            forall|k: int| 0 <= k < final(order)@.len() ==> reachable(self.graph(), self.entry_id().0 as int, #[trigger] final(order)@[k].0 as int),
        decreases unvisited(old(visited)@),
    {
        let ghost g = self.graph();
        let ghost entry = self.entry_id().0 as int;
        let b = block.0 as usize;
        if visited[b] {
            assert(order@.take(order@.len() as int) =~= order@);
            return;
        }
        let ghost v0 = visited@;
        let ghost o0 = order@;
        visited[b] = true;
        let ghost gray2 = gray.insert(b as int);
        let ghost v1 = visited@;
        proof {
            assert forall|i: int| 0 <= i < g.len() && v1[i] implies holds(order@, i) || gray2.contains(i) by {
                if i != b {
                    assert(v0[i]);
                }
            }
            assert forall|i: int| gray2.contains(i) implies 0 <= i < g.len() && v1[i] && !holds(order@, i) by {
                if i == b {
                    if holds(order@, i) {
                        let k = choose|k: int| 0 <= k < order@.len() && order@[k].0 == i;
                        assert(v0[order@[k].0 as int]);
                    }
                }
            }
            lemma_unvisited_mono(v0, v1);
            assert(!v0[b as int] && v1[b as int]);
        }
        let succs = &self.blocks[b].successors;
        assert(succs@ == g[b as int].successors);
        let mut j: usize = 0;
        while j < succs.len()
            invariant
                self.well_formed(),
                g == self.graph(),
                entry == self.entry_id().0 as int,
                (b as int) < g.len(),
                b as int == block.0 as int,
                succs@ == g[b as int].successors,
                j <= succs@.len(),
                gray2 == gray.insert(b as int),
                dfs_inv(g, entry, visited@, order@, gray2),
                stack_ok(g, entry, stack, gray, b as int),
                visited@.len() == v1.len(),
                forall|i: int| 0 <= i < v1.len() && v1[i] ==> visited@[i],
                unvisited(v1) < unvisited(v0),
                v0 == old(visited)@,
                order@.len() >= o0.len(),
                order@.take(o0.len() as int) == o0,
                forall|jj: int| 0 <= jj < j ==> visited@[(#[trigger] succs@[jj]).0.0 as int],
                reachable(g, entry, b as int),
                forall|k: int| 0 <= k < order@.len() ==> reachable(g, entry, #[trigger] order@[k].0 as int),
                forall|x: int| gray.contains(x) ==> reachable(g, x, b as int),
            decreases succs.len() - j,
        {
            let next = succs[j].0;
            let ghost vb = visited@;
            let ghost ob = order@;
            proof {
                assert(g[b as int].successors[j as int] == succs@[j as int]);
                assert((next.0 as int) < g.len());
                assert(has_edge(g, b as int, next.0 as int));
                lemma_reach_step(g, entry, b as int, next.0 as int);
                assert forall|x: int| gray2.contains(x) implies reachable(g, x, next.0 as int) by {
                    if x == b as int {
                        let p = seq![x];
                        assert(is_path(g, p));
                        assert(reachable(g, x, x));
                    }
                    lemma_reach_step(g, x, b as int, next.0 as int);
                }
                lemma_unvisited_mono(v1, vb);
                assert(unvisited(vb) < unvisited(old(visited)@));
                let n = next.0 as int;
                let st2 = stack.push(n);
                if !vb[n] {
                    assert(!gray.contains(n));
                    assert(n != b as int);
                    assert(!stack.contains(n)) by {
                        if stack.contains(n) {
                            let i = choose|i: int| 0 <= i < stack.len() && stack[i] == n;
                            if i < stack.len() - 1 {
                                assert(gray.contains(stack[i]));
                            }
                        }
                    }
                    assert forall|k: int| 0 <= k < st2.len() - 1 implies #[trigger] has_edge(g, st2[k], st2[k + 1]) by {
                        if k < stack.len() - 1 {
                            assert(st2[k] == stack[k] && st2[k + 1] == stack[k + 1]);
                            assert(has_edge(g, stack[k], stack[k + 1]));
                        }
                    }
                    assert(st2.no_duplicates()) by {
                        assert forall|x: int, y: int| 0 <= x < y < st2.len() implies st2[x] != st2[y] by {
                            if y == st2.len() - 1 {
                                assert(stack.contains(st2[x]) || x == y);
                            } else {
                                assert(st2[x] == stack[x] && st2[y] == stack[y]);
                            }
                        }
                    }
                    assert(simple_path(g, entry, n, st2));
                    assert forall|i: int| 0 <= i < st2.len() - 1 implies gray2.contains(#[trigger] st2[i]) by {
                        if i < stack.len() - 1 {
                            assert(st2[i] == stack[i]);
                            assert(gray.contains(stack[i]));
                        } else {
                            assert(st2[i] == stack.last());
                        }
                    }
                    assert forall|x: int| gray2.contains(x) implies st2.contains(x) by {
                        if x == b as int {
                            assert(st2[stack.len() - 1] == x);
                        } else {
                            assert(stack.contains(x));
                            let i = choose|i: int| 0 <= i < stack.len() && stack[i] == x;
                            assert(st2[i] == x);
                        }
                    }
                }
            }
            self.dfs_postorder(next, visited, order, Ghost(gray2), Ghost(stack.push(next.0 as int)));
            proof {
                assert forall|jj: int| 0 <= jj <= j implies visited@[(#[trigger] succs@[jj]).0.0 as int] by {
                    if jj < j {
                        assert(vb[succs@[jj].0.0 as int]);
                    }
                }
                assert(order@.take(o0.len() as int) =~= order@.take(ob.len() as int).take(o0.len() as int));
            }
            j = j + 1;
        }
        let ghost ob = order@;
        order.push(block);
        proof {
            let o = order@;
            assert(o.drop_last() == ob);
            assert(!holds(ob, b as int));
            assert forall|k: int, l: int| 0 <= k < l < o.len() implies o[k] != o[l] by {
                if l == o.len() - 1 {
                    if o[k] == o[l] {
                        assert(ob[k].0 == b as int);
                    }
                }
            }
            assert forall|i: int| 0 <= i < g.len() && visited@[i] implies holds(o, i) || gray.contains(i) by {
                if holds(ob, i) {
                    let k = choose|k: int| 0 <= k < ob.len() && ob[k].0 == i;
                    assert(o[k].0 == i);
                } else if i == b {
                    assert(o[o.len() - 1].0 == i);
                }
            }
            assert forall|i: int| gray.contains(i) implies 0 <= i < g.len() && visited@[i] && !holds(o, i) by {
                assert(gray2.contains(i));
                if holds(o, i) {
                    let k = choose|k: int| 0 <= k < o.len() && o[k].0 == i;
                    if k < o.len() - 1 {
                        assert(ob[k].0 == i);
                    }
                }
            }
            assert forall|k: int, jj: int|
                0 <= k < o.len() && 0 <= jj < g[o[k].0 as int].successors.len() implies visited@[(#[trigger] g[o[k].0 as int].successors[jj]).0.0 as int] by {
                if k < o.len() - 1 {
                    assert(o[k] == ob[k]);
                } else {
                    assert(g[o[k].0 as int].successors[jj] == succs@[jj]);
                }
            }
            assert forall|k: int, jj: int|
                0 <= k < o.len() && 0 <= jj < g[o[k].0 as int].successors.len() implies edge_back_or_cycle(
                g,
                entry,
                o,
                k,
                (#[trigger] g[o[k].0 as int].successors[jj]).0.0 as int,
            ) by {
                let v = g[o[k].0 as int].successors[jj].0.0 as int;
                if k < o.len() - 1 {
                    assert(o[k] == ob[k]);
                    assert(edge_back_or_cycle(g, entry, ob, k, v));
                    if exists|l: int| 0 <= l < k && ob[l].0 == v {
                        let l = choose|l: int| 0 <= l < k && ob[l].0 == v;
                        assert(o[l] == ob[l]);
                    }
                } else {
                    assert(g[o[k].0 as int].successors[jj] == succs@[jj]);
                    assert(visited@[v]);
                    if holds(ob, v) {
                        let l = choose|l: int| 0 <= l < ob.len() && ob[l].0 == v;
                        assert(o[l] == ob[l]);
                    } else {
                        assert(gray2.contains(v));
                        if v == b as int {
                            let p = seq![v];
                            assert(is_path(g, p));
                            assert(reachable(g, v, v));
                            assert(stack[stack.len() - 1] == v);
                        } else {
                            assert(gray.contains(v));
                            assert(stack.contains(v));
                        }
                        assert(simple_path(g, entry, b as int, stack));
                        assert(on_simple_path(g, entry, v, b as int));
                    }
                }
            }
            assert(o.take(o0.len() as int) =~= ob.take(o0.len() as int));
        }
    }

    /// The blocks reachable from the entry, each once, in reverse postorder
    /// of a depth-first search: the entry first, and every edge runs forward
    /// in the order unless its target lies on a path from the entry to its
    /// source that visits no block twice (so the edge closes a cycle). In a
    /// graph that `build_cfg` built, every edge but a loop-back edge runs
    /// forward.
    pub fn reverse_postorder(&self) -> (r: Vec<BlockId>)
        requires
            self.well_formed(),
        ensures
            r@.len() >= 1,
            r@[0] == self.entry_id(),
            forall|k: int, l: int| 0 <= k < l < r@.len() ==> r@[k] != r@[l],
            forall|k: int| 0 <= k < r@.len() ==> (r@[k].0 as int) < self.graph().len(),
            forall|b: int| 0 <= b < self.graph().len() ==> (holds(r@, b) <==> reachable(self.graph(), self.entry_id().0 as int, b)),
            forall|x: int, j: int|
                0 <= x < r@.len() && 0 <= j < self.graph()[r@[x].0 as int].successors.len() ==> forward_or_cycle(
                    self.graph(),
                    self.entry_id().0 as int,
                    r@,
                    x,
                    (#[trigger] self.graph()[r@[x].0 as int].successors[j]).0.0 as int,
                ),
            is_built(self.graph()) && self.entry_id() == BlockId(0) ==> forall|x: int, j: int|
                0 <= x < r@.len() && 0 <= j < self.graph()[r@[x].0 as int].successors.len() && (
                #[trigger] self.graph()[r@[x].0 as int].successors[j]).1 != EdgeKind::LoopBack ==> exists|y: int|
                    x < y < r@.len() && r@[y].0 == self.graph()[r@[x].0 as int].successors[j].0.0,
    {
        let ghost g = self.graph();
        let ghost entry = self.entry_id().0 as int;
        let n = self.blocks.len();
        let mut visited: Vec<bool> = Vec::new();
        let mut i: usize = 0;
        while i < n
            invariant
                i <= n,
                n == self.blocks@.len(),
                visited@.len() == i,
                forall|k: int| 0 <= k < i ==> !visited@[k],
            decreases n - i,
        {
            visited.push(false);
            i = i + 1;
        }
        let mut order: Vec<BlockId> = Vec::new();
        proof {
            assert(dfs_inv(g, entry, visited@, order@, Set::empty()));
            let p = seq![entry];
            assert(is_path(g, p));
            assert(reachable(g, entry, entry));
        }
        let ghost st0: Seq<int> = seq![entry];
        proof {
            assert(simple_path(g, entry, entry, st0));
            assert(stack_ok(g, entry, st0, Set::<int>::empty(), entry));
        }
        self.dfs_postorder(self.entry, &mut visited, &mut order, Ghost(Set::<int>::empty()), Ghost(st0));
        proof {
            assert(order@.last() == self.entry_id());
            assert forall|b: int| 0 <= b < g.len() && reachable(g, entry, b) implies holds(order@, b) by {
                let p = choose|p: Seq<int>| #[trigger] is_path(g, p) && p[0] == entry && p.last() == b;
                assert(order@[order@.len() - 1].0 == entry);
                lemma_closed_reach(g, entry, visited@, order@, p);
            }
        }
        let ghost o = order@;
        let mut r: Vec<BlockId> = Vec::new();
        let mut k: usize = order.len();
        while k > 0
            invariant
                k <= o.len(),
                o == order@,
                r@.len() == o.len() - k,
                forall|m: int| 0 <= m < r@.len() ==> r@[m] == o[o.len() - 1 - m],
            decreases k,
        {
            k = k - 1;
            r.push(order[k]);
        }
        proof {
            assert forall|b: int| 0 <= b < g.len() implies (holds(r@, b) <==> holds(o, b)) by {
                if holds(r@, b) {
                    let m = choose|m: int| 0 <= m < r@.len() && r@[m].0 == b;
                    assert(o[o.len() - 1 - m].0 == b);
                }
                if holds(o, b) {
                    let m = choose|m: int| 0 <= m < o.len() && o[m].0 == b;
                    assert(r@[o.len() - 1 - m].0 == b);
                }
            }
            assert forall|b: int| 0 <= b < g.len() && holds(o, b) implies reachable(g, entry, b) by {
                let m = choose|m: int| 0 <= m < o.len() && o[m].0 == b;
                assert(reachable(g, entry, o[m].0 as int));
            }
            assert forall|x: int, y: int| 0 <= x < y < r@.len() implies r@[x] != r@[y] by {
                assert(r@[x] == o[o.len() - 1 - x]);
                assert(r@[y] == o[o.len() - 1 - y]);
            }
            assert forall|x: int| 0 <= x < r@.len() implies (r@[x].0 as int) < g.len() by {
                assert(r@[x] == o[o.len() - 1 - x]);
            }
            assert forall|x: int, j: int|
                0 <= x < r@.len() && 0 <= j < g[r@[x].0 as int].successors.len() implies forward_or_cycle(
                g,
                entry,
                r@,
                x,
                (#[trigger] g[r@[x].0 as int].successors[j]).0.0 as int,
            ) by {
                let k = o.len() - 1 - x;
                assert(r@[x] == o[k]);
                let v = g[o[k].0 as int].successors[j].0.0 as int;
                assert(edge_back_or_cycle(g, entry, o, k, v));
                if exists|l: int| 0 <= l < k && o[l].0 == v {
                    let l = choose|l: int| 0 <= l < k && o[l].0 == v;
                    let y = o.len() - 1 - l;
                    assert(r@[y] == o[l]);
                    assert(x < y < r@.len() && r@[y].0 == v);
                }
            }
            if is_built(g) && entry == 0 {
                let ss = choose|ss: Seq<StatementV>| stmts_weight(ss, 0) + 2 < u32::MAX && #[trigger] cfg_s(ss) == g;
                assert forall|x: int, j: int|
                    0 <= x < r@.len() && 0 <= j < g[r@[x].0 as int].successors.len() && (
                    #[trigger] g[r@[x].0 as int].successors[j]).1 != EdgeKind::LoopBack implies exists|y: int|
                    x < y < r@.len() && r@[y].0 == g[r@[x].0 as int].successors[j].0.0 by {
                    let u = r@[x].0 as int;
                    assert(forward_or_cycle(g, entry, r@, x, g[u].successors[j].0.0 as int));
                    lemma_only_loop_back_edges_close_cycles(ss, u, j);
                    assert(target_of(g, u, j) == g[u].successors[j].0.0 as int);
                }
            }
        }
        r
    }
}

} // verus!
