use argvtype::hir::{DeclKind, Item, Statement, WordSegment};
use argvtype::lower::{parse_and_lower, LowerResult};
use argvtype::parse::ParseError;
use argvtype::span::{SourceFile, SourceId};

fn lower(src: &str) -> LowerResult {
    let source = SourceFile::new(SourceId(0), "test.sh".into(), src.into());
    parse_and_lower(source)
}

#[test]
fn lower_echo_hello() {
    let result = lower("echo hello world");
    assert!(result.parse_errors.is_empty());
    assert!(result.lowering_errors.is_empty());
    assert_eq!(result.source_unit.items.len(), 1);
    match &result.source_unit.items[0] {
        Item::Statement(Statement::Command(cmd)) => {
            assert_eq!(cmd.args.len(), 2);
        }
        other => panic!("expected Command, got {:?}", other),
    }
}

#[test]
fn lower_assignment() {
    let result = lower("FOO=bar");
    assert!(result.lowering_errors.is_empty());
    match &result.source_unit.items[0] {
        Item::Statement(Statement::Assignment(a)) => {
            assert_eq!(a.name, "FOO");
            assert!(a.value.is_some());
        }
        other => panic!("expected Assignment, got {:?}", other),
    }
}

#[test]
fn lower_function() {
    let result = lower("greet() { echo hi; }");
    assert!(result.lowering_errors.is_empty());
    match &result.source_unit.items[0] {
        Item::Function(f) => {
            assert_eq!(f.name, "greet");
            assert_eq!(f.body.len(), 1);
        }
        other => panic!("expected Function, got {:?}", other),
    }
}

#[test]
fn lower_annotated_function() {
    let src = "\
#@sig deploy(cfg: Scalar[ExistingFile]) -> Status[0] !may_exec
deploy() {
  #@bind $1 cfg
  #@bind $2.. manifests
  local cfg=$1
  echo done
}";
    let result = lower(src);
    assert!(result.parse_errors.is_empty());
    assert!(result.annotation_errors.is_empty());
    assert!(result.lowering_errors.is_empty(), "lowering errors: {:?}", result.lowering_errors);
    match &result.source_unit.items[0] {
        Item::Function(f) => {
            assert_eq!(f.name, "deploy");
            assert!(!f.annotations.is_empty());
        }
        other => panic!("expected Function, got {:?}", other),
    }
}

#[test]
fn lower_param_expansion() {
    let src = r#"echo "${x:-default}""#;
    let result = lower(src);
    assert!(result.lowering_errors.is_empty());
}

#[test]
fn lower_array_expansion() {
    let src = r#"echo "${arr[@]}""#;
    let result = lower(src);
    assert!(result.lowering_errors.is_empty());
}

#[test]
fn lower_pipeline() {
    let result = lower("cat file | grep pattern | wc -l");
    assert!(result.lowering_errors.is_empty());
    match &result.source_unit.items[0] {
        Item::Statement(Statement::Pipeline(p)) => {
            assert_eq!(p.commands.len(), 3);
        }
        other => panic!("expected Pipeline, got {:?}", other),
    }
}

#[test]
fn lower_if_statement() {
    let src = "if [[ -f $x ]]; then echo yes; else echo no; fi";
    let result = lower(src);
    assert!(result.lowering_errors.is_empty());
    match &result.source_unit.items[0] {
        Item::Statement(Statement::If(if_stmt)) => {
            assert!(!if_stmt.condition.is_empty());
            assert!(!if_stmt.then_body.is_empty());
            assert!(if_stmt.else_body.is_some());
        }
        other => panic!("expected If, got {:?}", other),
    }
}

#[test]
fn lower_for_loop() {
    let src = r#"for f in *.txt; do echo "$f"; done"#;
    let result = lower(src);
    assert!(result.lowering_errors.is_empty());
    match &result.source_unit.items[0] {
        Item::Statement(Statement::For(for_loop)) => {
            assert_eq!(for_loop.variable, "f");
            assert!(!for_loop.items.is_empty());
            assert!(!for_loop.body.is_empty());
        }
        other => panic!("expected For, got {:?}", other),
    }
}

#[test]
fn lower_local_array() {
    let result = lower("local -a arr=(1 2 3)");
    assert!(result.lowering_errors.is_empty());
    match &result.source_unit.items[0] {
        Item::Statement(Statement::Assignment(a)) => {
            assert_eq!(a.name, "arr");
            assert!(matches!(a.decl_kind, Some(DeclKind::Local)));
            assert!(a.flags.contains(&"-a".to_string()));
            assert!(a.array_value.is_some());
        }
        other => panic!("expected Assignment, got {:?}", other),
    }
}

#[test]
fn unmodeled_does_not_crash() {
    let result = lower("coproc { echo hello; }");
    assert!(!result.source_unit.items.is_empty());
}

// `source` and `.` become source commands, dynamic where the path expands.
#[test]
fn lower_source_commands() {
    let result = lower("source lib.sh\n. ./util.sh\nsource \"$LIB\"");
    let kinds: Vec<(String, bool)> = result
        .source_unit
        .items
        .iter()
        .map(|i| match i {
            Item::Statement(Statement::SourceCommand(s)) => {
                (s.path.literal_str().unwrap_or("").to_string(), s.dynamic)
            }
            other => panic!("expected SourceCommand, got {:?}", other),
        })
        .collect();
    assert_eq!(kinds, vec![("lib.sh".to_string(), false), ("./util.sh".to_string(), false), (String::new(), true)]);
}

// The source text is kept, and syntax errors are reported with their spans.
#[test]
fn lower_keeps_text_and_syntax_errors() {
    let result = lower("if then fi ((( )))");
    assert_eq!(result.source_text(), "if then fi ((( )))");
    assert!(!result.parse_errors.is_empty());
    assert!(result.parse_errors.iter().all(|e| matches!(e, ParseError::SyntaxError { .. })));
}

// Words keep their quoting and expansions.
#[test]
fn lower_expansions_segments() {
    let result = lower("echo \"a${x}b\" 'lit' $(date)");
    match &result.source_unit.items[0] {
        Item::Statement(Statement::Command(cmd)) => {
            assert_eq!(cmd.args.len(), 3);
            assert!(cmd.args[0].has_expansions());
            assert!(!cmd.args[1].has_expansions());
            assert_eq!(cmd.args[1].literal_str(), Some("lit"));
            assert!(matches!(cmd.args[2].segments[0], WordSegment::CommandSub(_)));
        }
        other => panic!("expected Command, got {:?}", other),
    }
}

#[test]
fn unsupported_statement_kept_as_unmodeled_with_one_error() {
    let src = "for ((i = 0; i < 3; i++)); do echo \"$i\"; done";
    let result = lower(src);
    assert_eq!(result.lowering_errors.len(), 1);
    let argvtype::lower::LoweringError::UnsupportedSyntax { kind, span } = &result.lowering_errors[0];
    match &result.source_unit.items[0] {
        Item::Statement(Statement::Unmodeled(u)) => {
            assert_eq!(&u.kind, kind);
            assert_eq!(&u.span, span);
            assert_eq!(u.kind, "c_style_for_statement");
            assert_eq!(u.text, src);
        }
        other => panic!("expected Unmodeled, got {:?}", other),
    }
}

#[test]
fn nested_unmodeled_statements_have_their_errors() {
    let result = lower("f() {\n  for ((i = 0; i < 3; i++)); do echo \"$i\"; done\n}\nx=$(for ((j = 0; j < 1; j++)); do :; done)");
    assert_eq!(result.lowering_errors.len(), 2);
    let kinds: Vec<&str> = result
        .lowering_errors
        .iter()
        .map(|e| {
            let argvtype::lower::LoweringError::UnsupportedSyntax { kind, .. } = e;
            kind.as_str()
        })
        .collect();
    assert_eq!(kinds, vec!["c_style_for_statement", "c_style_for_statement"]);
    match &result.source_unit.items[0] {
        Item::Function(f) => match &f.body[0] {
            Statement::Unmodeled(u) => {
                let argvtype::lower::LoweringError::UnsupportedSyntax { kind, span } = &result.lowering_errors[0];
                assert_eq!(&u.kind, kind);
                assert_eq!(&u.span, span);
            }
            other => panic!("expected Unmodeled, got {:?}", other),
        },
        other => panic!("expected Function, got {:?}", other),
    }
}
