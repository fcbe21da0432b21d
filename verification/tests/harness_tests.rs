use argvtype::harness::{exit_code, has_errors};
use argvtype::harness::check_source;
use argvtype::hir::Item;
use argvtype::span::{SourceFile, SourceId};

#[test]
fn check_source_annotated_function() {
    let src = "#@sig f(a: Scalar) -> Status[0]\nf() {\n  #@bind $1 a\n  echo \"$a\"\n}\n";
    let r = check_source(SourceFile::new(SourceId(0), "a.sh".into(), src.into()));
    assert!(r.lower.parse_errors.is_empty());
    assert!(r.lower.annotation_errors.is_empty());
    assert!(r.lower.source_unit.items.iter().any(|i| matches!(i, Item::Function(f) if !f.annotations.is_empty())));
    assert!(r.diagnostics.is_empty());
}

#[test]
fn check_source_array_misuse() {
    let r = check_source(SourceFile::new(SourceId(0), "b.sh".into(), "declare -a xs=(1 2)\necho $xs\n".into()));
    assert!(r.diagnostics.iter().any(|d| d.code.number == 201));
    assert!(r.diagnostics.iter().any(|d| d.code.number == 202));
}

#[test]
fn destructive_unquoted_produces_bt801() {
    let src = "dir=/tmp/build\nrm -rf $dir\n";
    let r = check_source(SourceFile::new(SourceId(0), "destructive_unquoted.sh".into(), src.into()));
    assert!(r.diagnostics.iter().any(|d| d.code.number == 801), "expected BT801 diagnostic");
}

#[test]
fn cd_without_guard_produces_bt802() {
    let src = "cd /tmp/work\nrm -rf ./build\n";
    let r = check_source(SourceFile::new(SourceId(0), "cd_without_guard.sh".into(), src.into()));
    assert!(r.diagnostics.iter().any(|d| d.code.number == 802), "expected BT802 diagnostic");
}

#[test]
fn guarded_cd_and_quoted_rm_are_not_flagged() {
    let src = "cd /tmp/work || exit 1\nrm -rf \"$dir\"\n";
    let r = check_source(SourceFile::new(SourceId(0), "guarded.sh".into(), src.into()));
    assert!(!r.diagnostics.iter().any(|d| d.code.number == 802 || d.code.number == 801));
}

#[test]
fn bt801_names_the_command_and_variable() {
    let r = check_source(SourceFile::new(SourceId(0), "m.sh".into(), "mv $src /tmp\n".into()));
    let d = r.diagnostics.iter().find(|d| d.code.number == 801).expect("BT801");
    assert_eq!(d.message, "unquoted expansion '$src' passed to destructive command 'mv'");
    assert_eq!(d.severity, argvtype::diagnostic::Severity::Error);
}

#[test]
fn has_errors_and_exit_code() {
    let ok = check_source(SourceFile::new(SourceId(0), "ok.sh".into(), "echo \"$x\"\n".into()));
    assert!(!has_errors(&ok.lower, &ok.diagnostics));
    let bad = check_source(SourceFile::new(SourceId(0), "bad.sh".into(), "rm -rf $dir\n".into()));
    assert!(has_errors(&bad.lower, &bad.diagnostics));
    assert_eq!(exit_code(false), 0);
    assert_eq!(exit_code(true), 1);
}
