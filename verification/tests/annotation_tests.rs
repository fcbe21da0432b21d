use argvtype::annotation::{annotations_parseable, parse_annotations, Annotation, AnnotationError, Directive, TypeExpr};
use argvtype::span::{SourceFile, SourceId};

fn parse(src: &str) -> (Vec<Annotation>, Vec<AnnotationError>) {
    let source = SourceFile::new(SourceId(0), "test.sh".into(), src.into());
    parse_annotations(&source)
}

#[test]
fn parse_sig_full() {
    let (anns, errs) = parse("#@sig deploy(cfg: Scalar[ExistingFile]) -> Status[0] !may_exec");
    assert!(errs.is_empty(), "errors: {:?}", errs);
    assert_eq!(anns.len(), 1);
    match &anns[0].directive {
        Directive::Sig(sig) => {
            assert_eq!(sig.name, "deploy");
            assert_eq!(sig.params.len(), 1);
            assert_eq!(sig.params[0].name, "cfg");
            assert!(matches!(&sig.params[0].type_expr, TypeExpr::Parameterized { name, .. } if name == "Scalar"));
            assert!(matches!(&sig.return_type, Some(TypeExpr::Status(code)) if code == "0"));
            assert_eq!(sig.effects.len(), 1);
            assert_eq!(sig.effects[0].name, "may_exec");
        }
        other => panic!("expected Sig, got {:?}", other),
    }
}

#[test]
fn parse_bind_simple() {
    let (anns, errs) = parse("#@bind $1 cfg");
    assert!(errs.is_empty());
    assert_eq!(anns.len(), 1);
    match &anns[0].directive {
        Directive::Bind(bind) => {
            assert_eq!(bind.positional, "$1");
            assert_eq!(bind.name, "cfg");
            assert!(!bind.variadic);
        }
        other => panic!("expected Bind, got {:?}", other),
    }
}

#[test]
fn parse_bind_variadic() {
    let (anns, errs) = parse("#@bind $2.. manifests");
    assert!(errs.is_empty());
    match &anns[0].directive {
        Directive::Bind(bind) => {
            assert_eq!(bind.positional, "$2");
            assert_eq!(bind.name, "manifests");
            assert!(bind.variadic);
        }
        other => panic!("expected Bind, got {:?}", other),
    }
}

#[test]
fn parse_type_directive() {
    let (anns, errs) = parse("#@type KUBECONFIG: Scalar[ExistingFile]");
    assert!(errs.is_empty());
    match &anns[0].directive {
        Directive::Type(td) => {
            assert_eq!(td.name, "KUBECONFIG");
            assert!(matches!(&td.type_expr, TypeExpr::Parameterized { name, .. } if name == "Scalar"));
        }
        other => panic!("expected Type, got {:?}", other),
    }
}

#[test]
fn parse_module_directive() {
    let (anns, errs) = parse("#@module bash>=5.2");
    assert!(errs.is_empty());
    match &anns[0].directive {
        Directive::Module(m) => {
            assert_eq!(m.shell, "bash");
            assert_eq!(m.version_constraint.as_deref(), Some(">=5.2"));
        }
        other => panic!("expected Module, got {:?}", other),
    }
}

#[test]
fn unknown_directive() {
    let (anns, errs) = parse("#@foobar something");
    assert!(errs.is_empty());
    assert!(matches!(&anns[0].directive, Directive::Unknown { name } if name == "foobar"));
}

#[test]
fn malformed_sig() {
    let (anns, errs) = parse("#@sig (");
    assert!(anns.is_empty());
    assert_eq!(errs.len(), 1);
    assert!(matches!(&errs[0], AnnotationError::Malformed { .. }));
}

#[test]
fn parse_proves_directive() {
    let (anns, errs) = parse("#@proves $1 ExistingFile");
    assert!(errs.is_empty(), "errors: {:?}", errs);
    assert_eq!(anns.len(), 1);
    match &anns[0].directive {
        Directive::Proves(p) => {
            assert_eq!(p.param, "$1");
            assert_eq!(p.refinement, "ExistingFile");
        }
        other => panic!("expected Proves, got {:?}", other),
    }
}

#[test]
fn parse_proves_malformed() {
    let (anns, errs) = parse("#@proves $1");
    assert!(anns.is_empty());
    assert_eq!(errs.len(), 1);
}

#[test]
fn multi_annotation_file() {
    let src = "\
#!/usr/bin/env bash
#@module bash>=5.2
#@sig deploy(cfg: Scalar[ExistingFile]) -> Status[0] !may_exec
deploy() {
  #@bind $1 cfg
  #@bind $2.. manifests
  echo done
}
";
    let (anns, errs) = parse(src);
    assert!(errs.is_empty(), "errors: {:?}", errs);
    assert_eq!(anns.len(), 4);
    assert!(matches!(&anns[0].directive, Directive::Module(_)));
    assert!(matches!(&anns[1].directive, Directive::Sig(_)));
    assert!(matches!(&anns[2].directive, Directive::Bind(_)));
    assert!(matches!(&anns[3].directive, Directive::Bind(_)));
}

// Annotation spans are byte offsets of their lines.
#[test]
fn annotation_spans_are_line_offsets() {
    let (anns, _) = parse("echo hi\n#@bind $1 x\n");
    assert_eq!(anns.len(), 1);
    assert_eq!(anns[0].span.start, 8);
}

#[test]
fn parseable_check() {
    assert!(annotations_parseable("#@sig f(a: Scalar) -> Status[0]\necho"));
    assert!(annotations_parseable("no annotations here"));
}
