use argvtype::source_graph::{join_path, parent_dir, file_name, SourceGraph, SourceGraphBuilder};
use argvtype::span::Span;
use std::collections::HashMap;

// An in-memory file system: the graph is built as the command-line driver
// builds it from disk.
fn add_file(b: &mut SourceGraphBuilder, files: &HashMap<String, String>, path: &str) {
    if b.contains(path) {
        return;
    }
    let text = match files.get(path) {
        Some(t) => t.clone(),
        None => return,
    };
    let i = match b.add_source(path.to_string(), text) {
        Some(i) => i,
        None => return,
    };
    let targets: Vec<(String, Span)> =
        b.edges(i).iter().filter(|e| !e.dynamic).map(|e| (e.target.clone(), e.span)).collect();
    for (target, span) in targets {
        if files.contains_key(&target) {
            add_file(b, files, &target);
        } else {
            b.missing_target(i, &target, span);
        }
    }
}

fn build(files: &[(&str, &str)], entries: &[&str]) -> SourceGraph {
    let map: HashMap<String, String> = files.iter().map(|(p, t)| (p.to_string(), t.to_string())).collect();
    let mut b = SourceGraphBuilder::new();
    for e in entries {
        add_file(&mut b, &map, e);
    }
    b.finish()
}

#[test]
fn single_file_no_sources() {
    let graph = build(&[("/tmp/t/main.sh", "echo hello")], &["/tmp/t/main.sh"]);
    assert_eq!(graph.topo_order().len(), 1);
    assert!(graph.diagnostics().is_empty());
}

#[test]
fn simple_source_chain() {
    let lib = "/tmp/t/lib.sh";
    let main = "/tmp/t/main.sh";
    let graph = build(&[(lib, "helper() { echo hi; }"), (main, "source lib.sh\nhelper")], &[main]);
    assert_eq!(graph.topo_order().len(), 2);
    let lib_idx = graph.topo_order().iter().position(|p| p == lib).unwrap();
    let main_idx = graph.topo_order().iter().position(|p| p == main).unwrap();
    assert!(lib_idx < main_idx);
    assert!(graph.diagnostics().is_empty());
}

#[test]
fn dot_source_syntax() {
    let graph = build(&[("/tmp/t/utils.sh", "x=1"), ("/tmp/t/main.sh", ". utils.sh\necho $x")], &["/tmp/t/main.sh"]);
    assert_eq!(graph.topo_order().len(), 2);
    assert!(graph.diagnostics().is_empty());
}

#[test]
fn missing_source_target_emits_bt701() {
    let graph = build(&[("/tmp/t/main.sh", "source nonexistent.sh")], &["/tmp/t/main.sh"]);
    assert_eq!(graph.diagnostics().len(), 1);
    let (_, diag) = &graph.diagnostics()[0];
    assert_eq!(diag.code.number, 701);
}

#[test]
fn circular_dependency_emits_bt702() {
    let graph = build(&[("/tmp/t/a.sh", "source b.sh"), ("/tmp/t/b.sh", "source a.sh")], &["/tmp/t/a.sh"]);
    let bt702 = graph.diagnostics().iter().any(|(_, d)| d.code.number == 702);
    assert!(bt702, "should emit BT702 for circular dependency");
}

#[test]
fn dynamic_source_not_resolved() {
    let graph = build(&[("/tmp/t/main.sh", "source \"$MYLIB\"")], &["/tmp/t/main.sh"]);
    assert_eq!(graph.topo_order().len(), 1);
    let bt701 = graph.diagnostics().iter().any(|(_, d)| d.code.number == 701);
    assert!(!bt701);
}

#[test]
fn transitive_source_chain() {
    let graph = build(
        &[("/tmp/t/c.sh", "z=1"), ("/tmp/t/b.sh", "source c.sh\ny=1"), ("/tmp/t/main.sh", "source b.sh\necho $y $z")],
        &["/tmp/t/main.sh"],
    );
    assert_eq!(graph.topo_order().len(), 3);
}

#[test]
fn imported_symbols_from_sourced_file() {
    let main = "/tmp/t/main.sh";
    let graph = build(&[("/tmp/t/lib.sh", "MY_VAR=hello"), (main, "source lib.sh\necho $MY_VAR")], &[main]);
    let imported = graph.imported_symbols(main);
    assert!(imported.iter().any(|s| s.name == "MY_VAR"));
}

// Transitive imports, in the order of the edges; a file's own globals are not imported.
#[test]
fn imported_symbols_transitive() {
    let main = "/tmp/t/main.sh";
    let graph = build(
        &[("/tmp/t/c.sh", "Z=1"), ("/tmp/t/b.sh", "source c.sh\nY=1"), (main, "source b.sh\nM=1")],
        &[main],
    );
    let names: Vec<String> = graph.imported_symbols(main).iter().map(|s| s.name.clone()).collect();
    assert_eq!(names, vec!["Z".to_string(), "Y".to_string()]);
    assert!(graph.imported_symbols("/tmp/t/nowhere.sh").is_empty());
}

// A BT702 names the file and points at the cyclic `source`.
#[test]
fn cycle_diagnostic_text() {
    let graph = build(&[("/tmp/t/a.sh", "source b.sh"), ("/tmp/t/b.sh", "echo\nsource a.sh")], &["/tmp/t/a.sh"]);
    let (path, d) = graph.diagnostics().iter().find(|(_, d)| d.code.number == 702).unwrap();
    assert_eq!(path, "/tmp/t/a.sh");
    assert_eq!(d.message, "circular source dependency involving a.sh");
    assert_eq!(d.primary_span, Span::new(0, 11));
    assert_eq!(graph.topo_order().len(), 2);
}

#[test]
fn missing_target_message() {
    let graph = build(&[("/tmp/t/main.sh", "source nope.sh")], &["/tmp/t/main.sh"]);
    let (path, d) = &graph.diagnostics()[0];
    assert_eq!(path, "/tmp/t/main.sh");
    assert_eq!(d.message, "source target not found: /tmp/t/nope.sh");
    assert_eq!(d.help.as_deref(), Some("the sourced file does not exist or cannot be resolved"));
}

#[test]
fn path_helpers() {
    assert_eq!(parent_dir("/a/b/c.sh"), "/a/b");
    assert_eq!(parent_dir("/c.sh"), "/");
    assert_eq!(parent_dir("c.sh"), "");
    assert_eq!(join_path("/a/b", "lib.sh"), "/a/b/lib.sh");
    assert_eq!(join_path("/", "lib.sh"), "/lib.sh");
    assert_eq!(join_path("/a", "/abs/x.sh"), "/abs/x.sh");
    assert_eq!(join_path("", "rel.sh"), "rel.sh");
    assert_eq!(file_name("/a/b/c.sh"), "c.sh");
    assert_eq!(file_name("c.sh"), "c.sh");
}

#[test]
fn add_source_twice_is_refused() {
    let mut b = SourceGraphBuilder::new();
    assert_eq!(b.add_source("/tmp/t/a.sh".to_string(), "x=1".to_string()), Some(0));
    assert_eq!(b.add_source("/tmp/t/a.sh".to_string(), "y=2".to_string()), None);
    assert_eq!(b.file_count(), 1);
}

#[test]
fn static_targets_skip_dynamic_edges() {
    let mut b = SourceGraphBuilder::new();
    let i = b.add_source("/tmp/t/m.sh".to_string(), "source a.sh\nsource \"$x\"\n. b.sh\n".to_string()).unwrap();
    let idx = b.static_edge_indices(i);
    assert_eq!(idx, vec![0, 2]);
    let targets: Vec<String> = b.static_targets(i).into_iter().map(|(t, _)| t).collect();
    assert_eq!(targets, vec!["/tmp/t/a.sh".to_string(), "/tmp/t/b.sh".to_string()]);
}

// A file sourced along two paths has its globals collected once per edge
// that reaches it; its own imports are walked once.
#[test]
fn imported_symbols_order_along_edges() {
    let graph = build(
        &[
            ("/tmp/t/a.sh", "source b.sh\nsource c.sh\n"),
            ("/tmp/t/b.sh", "source d.sh\nB=1\n"),
            ("/tmp/t/c.sh", "source d.sh\nC=1\n"),
            ("/tmp/t/d.sh", "D=1\n"),
        ],
        &["/tmp/t/a.sh"],
    );
    let names: Vec<String> = graph.imported_symbols("/tmp/t/a.sh").iter().map(|s| s.name.clone()).collect();
    assert_eq!(names, vec!["D", "B", "D", "C"]);
}

#[test]
fn diamond_without_cycle_has_no_bt702_and_sourced_files_first() {
    let graph = build(
        &[
            ("/p/main.sh", "source a.sh\nsource b.sh\n"),
            ("/p/a.sh", "source c.sh\n"),
            ("/p/b.sh", "source c.sh\n"),
            ("/p/c.sh", "X=1\n"),
        ],
        &["/p/main.sh"],
    );
    assert!(graph.diagnostics().iter().all(|(_, d)| d.code.number != 702));
    let order = graph.topo_order();
    let pos = |p: &str| order.iter().position(|x| x == p).unwrap();
    assert!(pos("/p/c.sh") < pos("/p/a.sh"));
    assert!(pos("/p/c.sh") < pos("/p/b.sh"));
    assert!(pos("/p/a.sh") < pos("/p/main.sh"));
    assert!(pos("/p/b.sh") < pos("/p/main.sh"));
}
