use argvtype::cfg::{build_cfg, BlockId, Cfg, EdgeKind};
use argvtype::hir::{Item, Statement};
use argvtype::lower::parse_and_lower;
use argvtype::span::{SourceFile, SourceId};

fn build_func_cfg(src: &str) -> Cfg {
    let source = SourceFile::new(SourceId(0), "test.sh".into(), src.into());
    let result = parse_and_lower(source);
    let func = result
        .source_unit
        .items
        .iter()
        .find_map(|item| match item {
            Item::Function(f) => Some(f),
            _ => None,
        })
        .unwrap();
    build_cfg(&func.body)
}

fn build_script_cfg(src: &str) -> Cfg {
    let source = SourceFile::new(SourceId(0), "test.sh".into(), src.into());
    let result = parse_and_lower(source);
    let stmts: Vec<Statement> = result
        .source_unit
        .items
        .into_iter()
        .filter_map(|item| match item {
            Item::Statement(s) => Some(s),
            _ => None,
        })
        .collect();
    build_cfg(&stmts)
}

fn successor_kinds(cfg: &Cfg, block: BlockId) -> Vec<EdgeKind> {
    cfg.block(block).successors.iter().map(|&(_, k)| k).collect()
}

fn has_edge(cfg: &Cfg, from: BlockId, to: BlockId, kind: EdgeKind) -> bool {
    cfg.block(from).successors.iter().any(|&(t, k)| t == to && k == kind)
}

#[test]
fn straight_line_code() {
    let cfg = build_script_cfg("x=hello\necho \"$x\"");
    assert_eq!(cfg.block_count(), 2);
    assert_eq!(cfg.block(cfg.entry).nodes.len(), 2);
    assert!(has_edge(&cfg, cfg.entry, cfg.exit, EdgeKind::Unconditional));
}

#[test]
fn if_else_structure() {
    let cfg = build_func_cfg("foo() {\n  if true; then\n    echo a\n  else\n    echo b\n  fi\n}");
    assert!(cfg.block_count() >= 5);
    let entry = cfg.entry;
    let succs = successor_kinds(&cfg, entry);
    assert!(succs.contains(&EdgeKind::ConditionalTrue));
    assert!(succs.contains(&EdgeKind::ConditionalFalse));
}

#[test]
fn if_no_else() {
    let cfg = build_func_cfg("foo() {\n  if true; then\n    echo a\n  fi\n}");
    let entry = cfg.entry;
    let succs = successor_kinds(&cfg, entry);
    assert!(succs.contains(&EdgeKind::ConditionalTrue));
    assert!(succs.contains(&EdgeKind::ConditionalFalse));
}

#[test]
fn for_loop_has_back_edge() {
    let cfg = build_func_cfg("foo() {\n  for f in *.txt; do\n    echo \"$f\"\n  done\n}");
    let has_loop_back = cfg
        .blocks()
        .iter()
        .any(|b| b.successors.iter().any(|&(_, k)| k == EdgeKind::LoopBack));
    assert!(has_loop_back, "for loop should have a LoopBack edge");
}

#[test]
fn for_loop_structure() {
    let cfg = build_func_cfg("foo() {\n  for f in *.txt; do\n    echo \"$f\"\n  done\n}");
    let header = BlockId(2);
    let succs = successor_kinds(&cfg, header);
    assert!(succs.contains(&EdgeKind::ConditionalTrue));
    assert!(succs.contains(&EdgeKind::ConditionalFalse));
}

#[test]
fn while_loop_has_back_edge() {
    let cfg = build_func_cfg("foo() {\n  while true; do\n    echo loop\n  done\n}");
    let has_loop_back = cfg
        .blocks()
        .iter()
        .any(|b| b.successors.iter().any(|&(_, k)| k == EdgeKind::LoopBack));
    assert!(has_loop_back, "while loop should have a LoopBack edge");
}

#[test]
fn case_with_default_no_false_edge() {
    let cfg = build_func_cfg("foo() {\n  case \"$1\" in\n    a) echo a ;;\n    *) echo default ;;\n  esac\n}");
    let entry = cfg.entry;
    let succs = successor_kinds(&cfg, entry);
    assert!(
        !succs.contains(&EdgeKind::ConditionalFalse),
        "case with default should not have ConditionalFalse edge"
    );
}

#[test]
fn case_without_default_has_false_edge() {
    let cfg = build_func_cfg("foo() {\n  case \"$1\" in\n    a) echo a ;;\n    b) echo b ;;\n  esac\n}");
    let entry = cfg.entry;
    let succs = successor_kinds(&cfg, entry);
    assert!(
        succs.contains(&EdgeKind::ConditionalFalse),
        "case without default should have ConditionalFalse edge for no-match path"
    );
}

#[test]
fn list_and_operator() {
    let cfg = build_script_cfg("cd /tmp && echo ok");
    let entry = cfg.entry;
    let succs = successor_kinds(&cfg, entry);
    assert!(succs.contains(&EdgeKind::ConditionalTrue));
    assert!(succs.contains(&EdgeKind::ConditionalFalse));
}

#[test]
fn list_or_operator() {
    let cfg = build_script_cfg("cd /tmp || exit 1");
    let entry = cfg.entry;
    let succs = successor_kinds(&cfg, entry);
    assert!(succs.contains(&EdgeKind::ConditionalTrue));
    assert!(succs.contains(&EdgeKind::ConditionalFalse));
}

#[test]
fn reverse_postorder_visits_entry_first() {
    let cfg = build_script_cfg("x=1\necho \"$x\"");
    let rpo = cfg.reverse_postorder();
    assert_eq!(rpo[0], cfg.entry);
}

#[test]
fn reverse_postorder_visits_all_reachable() {
    let cfg = build_func_cfg("foo() {\n  if true; then\n    echo a\n  else\n    echo b\n  fi\n}");
    let rpo = cfg.reverse_postorder();
    assert!(rpo.len() >= 5);
}

#[test]
fn nested_if_in_loop() {
    let cfg = build_func_cfg(
        "foo() {\n  for f in *.txt; do\n    if [[ -f \"$f\" ]]; then\n      echo found\n    fi\n  done\n}",
    );
    let has_loop_back = cfg
        .blocks()
        .iter()
        .any(|b| b.successors.iter().any(|&(_, k)| k == EdgeKind::LoopBack));
    let has_conditional = cfg
        .blocks()
        .iter()
        .any(|b| b.successors.iter().any(|&(_, k)| k == EdgeKind::ConditionalTrue));
    assert!(has_loop_back);
    assert!(has_conditional);
}

// Edges are listed on both sides: each successor edge has its predecessor entry.
#[test]
fn edges_mirrored_in_predecessors() {
    let cfg = build_func_cfg("foo() {\n  for f in *.txt; do\n    if true; then\n      a && b || c\n    fi\n  done\n}");
    for b in cfg.blocks() {
        for &(t, _) in &b.successors {
            assert!(cfg.block(t).predecessors.contains(&b.id));
        }
        for &p in &b.predecessors {
            assert!(cfg.block(p).successors.iter().any(|&(t, _)| t == b.id));
        }
    }
    for (i, b) in cfg.blocks().iter().enumerate() {
        assert_eq!(b.id, BlockId(i as u32));
    }
}

// The depth-first order holds each reachable block once, here all of them.
#[test]
fn reverse_postorder_distinct_and_complete() {
    let cfg = build_func_cfg("foo() {\n  while true; do\n    case x in a) echo a ;; esac\n  done\n}");
    let rpo = cfg.reverse_postorder();
    let mut seen = vec![false; cfg.block_count()];
    for b in &rpo {
        assert!(!seen[b.0 as usize]);
        seen[b.0 as usize] = true;
    }
    assert_eq!(rpo.len(), cfg.block_count());
}

// The exact shape of an if/else: entry(0) exit(1) then(2) join(3) else(4).
#[test]
fn if_else_exact_blocks() {
    let cfg = build_func_cfg("foo() {\n  if true; then\n    echo a\n  else\n    echo b\n  fi\n}");
    assert_eq!(cfg.block_count(), 5);
    assert!(has_edge(&cfg, BlockId(0), BlockId(2), EdgeKind::ConditionalTrue));
    assert!(has_edge(&cfg, BlockId(2), BlockId(3), EdgeKind::Unconditional));
    assert!(has_edge(&cfg, BlockId(0), BlockId(4), EdgeKind::ConditionalFalse));
    assert!(has_edge(&cfg, BlockId(4), BlockId(3), EdgeKind::Unconditional));
    assert!(has_edge(&cfg, BlockId(3), BlockId(1), EdgeKind::Unconditional));
}

#[test]
fn empty_body_cfg() {
    let cfg = build_cfg(&Vec::new());
    assert_eq!(cfg.block_count(), 2);
    assert!(has_edge(&cfg, cfg.entry, cfg.exit, EdgeKind::Unconditional));
    assert_eq!(cfg.reverse_postorder(), vec![BlockId(0), BlockId(1)]);
}

// The exit block holds nothing, leads nowhere and is entered once.
#[test]
fn exit_block_shape() {
    for src in ["x=1", "foo() {\n  while true; do a || b; done\n}", "cd /tmp && echo ok"] {
        let cfg = build_script_cfg(src);
        let exit = cfg.block(cfg.exit);
        assert!(exit.successors.is_empty());
        assert!(exit.nodes.is_empty());
        assert_eq!(exit.predecessors.len(), 1);
    }
}

// Every edge that is not a loop's back edge runs forward in the order.
#[test]
fn reverse_postorder_if_else_order() {
    let cfg = build_func_cfg("foo() {\n  if true; then\n    echo a\n  else\n    echo b\n  fi\n}");
    assert_eq!(cfg.reverse_postorder(), vec![BlockId(0), BlockId(4), BlockId(2), BlockId(3), BlockId(1)]);
}

#[test]
fn reverse_postorder_edges_forward_except_loop_back() {
    let cfg = build_func_cfg("foo() {\n  while true; do\n    if x; then echo a; fi\n  done\n  echo b\n}");
    let rpo = cfg.reverse_postorder();
    let pos = |b: BlockId| rpo.iter().position(|&x| x == b).unwrap();
    for &u in &rpo {
        for &(v, k) in &cfg.block(u).successors {
            if k != EdgeKind::LoopBack {
                assert!(pos(u) < pos(v), "edge {:?} -> {:?} runs backward", u, v);
            }
        }
    }
}

fn top_statement_ids(src: &str) -> Vec<argvtype::hir::NodeId> {
    let source = SourceFile::new(SourceId(0), "test.sh".into(), src.into());
    let result = parse_and_lower(source);
    result
        .source_unit
        .items
        .iter()
        .filter_map(|item| match item {
            Item::Statement(Statement::Assignment(a)) => Some(a.id),
            Item::Statement(Statement::Command(c)) => Some(c.id),
            _ => None,
        })
        .collect()
}

#[test]
fn block_nodes_keep_source_order() {
    let src = "a=1\necho one\nb=2\necho two";
    let cfg = build_script_cfg(src);
    let ids = top_statement_ids(src);
    assert_eq!(ids.len(), 4);
    assert_eq!(cfg.block(cfg.entry).nodes, ids);
}

#[test]
fn case_arms_join_after_their_bodies() {
    let cfg = build_func_cfg("foo() {\n  case \"$1\" in\n    a) echo a ;;\n    b) echo b ;;\n  esac\n}");
    let entry = cfg.entry;
    // Two arms and the fall-through edge: one true edge per arm, one false edge.
    let succs = successor_kinds(&cfg, entry);
    assert_eq!(
        succs,
        vec![EdgeKind::ConditionalTrue, EdgeKind::ConditionalTrue, EdgeKind::ConditionalFalse]
    );
    let (join, _) = cfg.block(entry).successors[2];
    assert_eq!(join, BlockId(2));
    let preds = &cfg.block(join).predecessors;
    assert_eq!(preds.len(), 3);
    assert_eq!(preds[2], entry);
    for &p in &preds[..2] {
        assert!(p.0 > 2);
        assert!(has_edge(&cfg, p, join, EdgeKind::Unconditional));
    }
    assert_eq!(cfg.block(entry).nodes.len(), 1);
}

#[test]
fn every_built_block_is_listed_in_reverse_postorder() {
    let cfg = build_func_cfg(
        "foo() {\n  for f in a b; do\n    if x; then a && b || c; else case $f in *) echo d ;; esac; fi\n  done\n  until false; do echo e; done\n}",
    );
    let mut rpo = cfg.reverse_postorder();
    rpo.sort_by_key(|b| b.0);
    let all: Vec<BlockId> = (0..cfg.block_count() as u32).map(BlockId).collect();
    assert_eq!(rpo, all);
}

#[test]
fn entry_and_exit_accessors() {
    let cfg = build_script_cfg("echo a");
    assert_eq!(cfg.entry_block(), BlockId(0));
    assert_eq!(cfg.exit_block(), BlockId(1));
    assert_eq!(cfg.entry_block(), cfg.entry);
    assert_eq!(cfg.exit_block(), cfg.exit);
}
