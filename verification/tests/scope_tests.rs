use argvtype::annotation::TypeExpr;
use argvtype::hir::NodeId;
use argvtype::lower::parse_and_lower;
use argvtype::scope::{
    build_symbol_table, infer_type_info, CellKind, DeclScope, ExpansionShape, Presence, ScopeId, ScopeKind, Symbol,
    SymbolTable,
};
use argvtype::span::{SourceFile, SourceId, Span};

fn build(src: &str) -> SymbolTable {
    let source = SourceFile::new(SourceId(0), "test.sh".into(), src.into());
    let result = parse_and_lower(source);
    build_symbol_table(&result.source_unit)
}

#[test]
fn resolve_global_variable() {
    let table = build("x=hello");
    let sym = table.resolve(table.root_scope(), "x").unwrap();
    assert_eq!(sym.name, "x");
    assert_eq!(sym.cell_kind, CellKind::Scalar);
    assert_eq!(sym.decl_scope, DeclScope::Implicit);
}

#[test]
fn resolve_local_shadows_global() {
    let table = build("x=global\nfoo() { local x=local; }");
    let global_sym = table.resolve(table.root_scope(), "x").unwrap();
    assert_eq!(global_sym.decl_scope, DeclScope::Implicit);
    let func_scope = ScopeId(1);
    let local_sym = table.resolve(func_scope, "x").unwrap();
    assert_eq!(local_sym.decl_scope, DeclScope::Local);
}

#[test]
fn resolve_walks_parent_chain() {
    let table = build("x=hello\nfoo() { echo $x; }");
    let func_scope = ScopeId(1);
    let sym = table.resolve(func_scope, "x").unwrap();
    assert_eq!(sym.name, "x");
    assert_eq!(sym.decl_scope, DeclScope::Implicit);
}

#[test]
fn resolve_unknown_returns_none() {
    let table = build("x=hello");
    assert!(table.resolve(table.root_scope(), "nonexistent").is_none());
}

#[test]
fn cell_kind_indexed_array() {
    let table = build("declare -a arr=(1 2 3)");
    let sym = table.resolve(table.root_scope(), "arr").unwrap();
    assert_eq!(sym.cell_kind, CellKind::IndexedArray);
}

#[test]
fn cell_kind_assoc_array() {
    let table = build("declare -A map");
    let sym = table.resolve(table.root_scope(), "map").unwrap();
    assert_eq!(sym.cell_kind, CellKind::AssocArray);
}

#[test]
fn cell_kind_scalar_default() {
    let table = build("x=hello");
    let sym = table.resolve(table.root_scope(), "x").unwrap();
    assert_eq!(sym.cell_kind, CellKind::Scalar);
}

#[test]
fn cell_kind_array_value_without_flag() {
    let table = build("arr=(1 2 3)");
    let sym = table.resolve(table.root_scope(), "arr").unwrap();
    assert_eq!(sym.cell_kind, CellKind::IndexedArray);
}

#[test]
fn function_scope_isolates_locals() {
    let table = build("foo() { local y=bar; }");
    assert!(table.resolve(table.root_scope(), "y").is_none());
    let func_scope = ScopeId(1);
    let sym = table.resolve(func_scope, "y").unwrap();
    assert_eq!(sym.name, "y");
    assert_eq!(sym.decl_scope, DeclScope::Local);
}

#[test]
fn for_loop_variable_defined() {
    let table = build("for f in *.txt; do echo $f; done");
    let sym = table.resolve(table.root_scope(), "f").unwrap();
    assert_eq!(sym.name, "f");
    assert_eq!(sym.cell_kind, CellKind::Scalar);
    assert_eq!(sym.decl_scope, DeclScope::Implicit);
}

#[test]
fn annotation_populates_type() {
    let src = "\
#@sig deploy(cfg: Scalar[ExistingFile]) -> Status[0] !may_exec
deploy() {
  #@bind $1 cfg
  echo done
}";
    let table = build(src);
    let func_scope = ScopeId(1);
    let sym = table.resolve(func_scope, "cfg").unwrap();
    assert!(sym.type_annotation.is_some());
    assert_eq!(sym.cell_kind, CellKind::Scalar);
}

#[test]
fn bind_variadic_creates_array() {
    let src = "\
#@sig process(files: Argv[String]) -> Status[0]
process() {
  #@bind $1.. files
  echo done
}";
    let table = build(src);
    let func_scope = ScopeId(1);
    let sym = table.resolve(func_scope, "files").unwrap();
    assert_eq!(sym.cell_kind, CellKind::IndexedArray);
}

#[test]
fn export_decl_scope() {
    let table = build("export PATH=/usr/bin");
    let sym = table.resolve(table.root_scope(), "PATH").unwrap();
    assert_eq!(sym.decl_scope, DeclScope::Export);
}

#[test]
fn readonly_decl_scope() {
    let table = build("readonly VERSION=1.0");
    let sym = table.resolve(table.root_scope(), "VERSION").unwrap();
    assert_eq!(sym.decl_scope, DeclScope::Readonly);
}

#[test]
fn local_array_in_function() {
    let table = build("foo() { local -a arr=(1 2 3); }");
    let func_scope = ScopeId(1);
    let sym = table.resolve(func_scope, "arr").unwrap();
    assert_eq!(sym.cell_kind, CellKind::IndexedArray);
    assert_eq!(sym.decl_scope, DeclScope::Local);
}

#[test]
fn node_scope_binding() {
    let table = build("x=hello\necho $x");
    let root = table.root_scope();
    assert!(table.scope(root).symbols.contains_key("x"));
}

#[test]
fn infer_type_info_scalar_annotation() {
    let src = "\
#@sig deploy(cfg: Scalar[ExistingFile]) -> Status[0] !may_exec
deploy() {
  #@bind $1 cfg
  echo done
}";
    let table = build(src);
    let func_scope = ScopeId(1);
    let sym = table.resolve(func_scope, "cfg").unwrap();
    assert_eq!(sym.type_info.shape, ExpansionShape::Scalar);
    assert_eq!(sym.type_info.refinement.as_deref(), Some("ExistingFile"));
}

#[test]
fn infer_type_info_argv_annotation() {
    let src = "\
#@sig process(files: Argv[String]) -> Status[0]
process() {
  #@bind $1.. files
  echo done
}";
    let table = build(src);
    let func_scope = ScopeId(1);
    let sym = table.resolve(func_scope, "files").unwrap();
    assert_eq!(sym.type_info.shape, ExpansionShape::Argv);
    assert_eq!(sym.type_info.refinement.as_deref(), Some("String"));
}

#[test]
fn infer_type_info_no_annotation_array() {
    let table = build("declare -a arr=(1 2 3)");
    let sym = table.resolve(table.root_scope(), "arr").unwrap();
    assert_eq!(sym.type_info.shape, ExpansionShape::Argv);
    assert!(sym.type_info.refinement.is_none());
}

#[test]
fn infer_type_info_no_annotation_scalar() {
    let table = build("x=hello");
    let sym = table.resolve(table.root_scope(), "x").unwrap();
    assert_eq!(sym.type_info.shape, ExpansionShape::Scalar);
    assert!(sym.type_info.refinement.is_none());
}

#[test]
fn type_info_from_declare_a() {
    let table = build("foo() { local -a arr=(1 2 3); }");
    let func_scope = ScopeId(1);
    let sym = table.resolve(func_scope, "arr").unwrap();
    assert_eq!(sym.type_info.cell_kind, CellKind::IndexedArray);
    assert_eq!(sym.type_info.shape, ExpansionShape::Argv);
}

#[test]
fn type_info_shape_unknown() {
    let mut table = SymbolTable::new();
    let root = table.root_scope();
    let ti = infer_type_info(CellKind::Unknown, None, Presence::Unknown);
    assert_eq!(ti.shape, ExpansionShape::Unknown);
    table.define(
        root,
        Symbol {
            name: "mystery".into(),
            cell_kind: CellKind::Unknown,
            type_info: ti,
            decl_scope: DeclScope::Implicit,
            decl_span: Span::new(0, 0),
            decl_node: NodeId(0),
            type_annotation: None,
        },
    );
    let sym = table.resolve(root, "mystery").unwrap();
    assert_eq!(sym.type_info.shape, ExpansionShape::Unknown);
}

#[test]
fn presence_set_from_assignment() {
    let table = build("x=hello");
    let sym = table.resolve(table.root_scope(), "x").unwrap();
    assert_eq!(sym.type_info.presence, Presence::IsSet);
}

#[test]
fn presence_unset_from_local_no_value() {
    let table = build("foo() { local x; }");
    let func_scope = ScopeId(1);
    let sym = table.resolve(func_scope, "x").unwrap();
    assert_eq!(sym.type_info.presence, Presence::Unset);
}

#[test]
fn presence_set_from_local_with_value() {
    let table = build("foo() { local x=hello; }");
    let func_scope = ScopeId(1);
    let sym = table.resolve(func_scope, "x").unwrap();
    assert_eq!(sym.type_info.presence, Presence::IsSet);
}

#[test]
fn presence_set_for_loop_var() {
    let table = build("for f in *.txt; do echo \"$f\"; done");
    let sym = table.resolve(table.root_scope(), "f").unwrap();
    assert_eq!(sym.type_info.presence, Presence::IsSet);
}

#[test]
fn presence_maybe_unset_for_sig_param() {
    let src = "\
#@sig deploy(cfg: Scalar[ExistingFile]) -> Status[0] !may_exec
deploy() {
  #@bind $1 cfg
  echo done
}";
    let table = build(src);
    let func_scope = ScopeId(1);
    let sym = table.resolve(func_scope, "cfg").unwrap();
    assert_eq!(sym.type_info.presence, Presence::MaybeUnset);
}

// A definition is what its name resolves to, and replaces an earlier one.
#[test]
fn define_then_resolve_replaces() {
    let mut table = SymbolTable::new();
    let root = table.root_scope();
    let child = table.push_scope(root, ScopeKind::Function);
    assert_eq!(child, ScopeId(1));
    for (i, kind) in [CellKind::Scalar, CellKind::AssocArray].into_iter().enumerate() {
        table.define(
            root,
            Symbol {
                name: "v".into(),
                cell_kind: kind,
                type_info: infer_type_info(kind, None, Presence::IsSet),
                decl_scope: DeclScope::Global,
                decl_span: Span::new(i as u32, i as u32),
                decl_node: NodeId(i as u32),
                type_annotation: None,
            },
        );
    }
    assert_eq!(table.resolve(root, "v").unwrap().cell_kind, CellKind::AssocArray);
    assert_eq!(table.resolve(child, "v").unwrap().decl_node, NodeId(1));
    assert_eq!(table.scope(root).symbols.values().len(), 1);
}

// Subshells open scopes, and a type annotation refines a global.
#[test]
fn subshell_scope_and_top_type_annotation() {
    let table = build("#@type CONF: Scalar[ExistingFile]\nCONF=/etc/x\n( y=1 )");
    let sym = table.resolve(table.root_scope(), "CONF").unwrap();
    assert_eq!(sym.type_info.refinement.as_deref(), Some("ExistingFile"));
    assert!(table.resolve(table.root_scope(), "y").is_none());
    let sub = table.resolve(ScopeId(1), "y").unwrap();
    assert_eq!(sub.name, "y");
    assert_eq!(table.scope(ScopeId(1)).kind, ScopeKind::Subshell);
}

#[test]
fn nodes_bound_to_scopes() {
    let source = SourceFile::new(SourceId(0), "t.sh".into(), "x=1\nf() { echo hi; }".into());
    let result = parse_and_lower(source);
    let table = build_symbol_table(&result.source_unit);
    let mut bound = 0;
    for i in 0..64u32 {
        if let Some(s) = table.scope_of_node(NodeId(i)) {
            assert!(s == ScopeId(0) || s == ScopeId(1));
            bound += 1;
        }
    }
    assert!(bound >= 3);
    let mut count = 0;
    table.for_each_symbol(|_| count += 1);
    assert_eq!(count, 1);
    assert_eq!(table.global_symbols().len(), 1);
}

#[test]
fn parameterized_refinements() {
    let t = TypeExpr::Parameterized {
        name: "Map".into(),
        param: Box::new(TypeExpr::Parameterized { name: "List".into(), param: Box::new(TypeExpr::Named("Int".into())) }),
    };
    let ti = infer_type_info(CellKind::Scalar, Some(&t), Presence::IsSet);
    assert_eq!(ti.refinement.as_deref(), Some("Map[List[Int]]"));
    let st = TypeExpr::Status("0".into());
    assert_eq!(infer_type_info(CellKind::Scalar, Some(&st), Presence::IsSet).refinement.as_deref(), Some("Status"));
    let aa = TypeExpr::Parameterized { name: "AssocArray".into(), param: Box::new(TypeExpr::Status("1".into())) };
    let ti2 = infer_type_info(CellKind::AssocArray, Some(&aa), Presence::Unset);
    assert_eq!(ti2.shape, ExpansionShape::Scalar);
    assert_eq!(ti2.refinement.as_deref(), Some("Status[1]"));
}

// The last assignment of a name, typed by a `#@type` annotation: the
// assignment's kind and presence, with the annotation's shape and refinement.
#[test]
fn type_annotation_on_last_assignment() {
    let table = build("#@type FILES: Argv[String]\nx=1\nlocal -a FILES=(a b)");
    let sym = table.resolve(table.root_scope(), "FILES").unwrap();
    assert_eq!(sym.cell_kind, CellKind::IndexedArray);
    assert_eq!(sym.type_info.presence, Presence::IsSet);
    assert_eq!(sym.type_info.shape, ExpansionShape::Argv);
    assert_eq!(sym.type_info.refinement.as_deref(), Some("String"));
    assert!(sym.type_annotation.is_some());
}
