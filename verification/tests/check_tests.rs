use argvtype::check::{bt000, bt201, bt202, check};
use argvtype::diagnostic::{Diagnostic, Severity};
use argvtype::lower::parse_and_lower;
use argvtype::span::{SourceFile, SourceId};

fn check_src(src: &str) -> Vec<Diagnostic> {
    let source = SourceFile::new(SourceId(0), "test.sh".into(), src.into());
    let result = parse_and_lower(source);
    check(&result.source_unit)
}

#[test]
fn bare_array_expansion_detected() {
    let diagnostics = check_src("local -a arr=(1 2 3)\necho $arr");
    assert!(!diagnostics.is_empty());
    assert_eq!(diagnostics[0].code, bt201());
}

#[test]
fn proper_array_expansion_ok() {
    let diagnostics = check_src("local -a arr=(1 2 3)\necho \"${arr[@]}\"");
    let bt201s: Vec<_> = diagnostics.iter().filter(|d| d.code == bt201()).collect();
    assert!(bt201s.is_empty());
}

#[test]
fn clean_code_no_diagnostics() {
    let diagnostics = check_src("x=hello\necho \"$x\"");
    assert!(diagnostics.is_empty());
}

#[test]
fn unquoted_expansion_detected() {
    let diagnostics = check_src("x=hello\necho $x");
    let bt202s: Vec<_> = diagnostics.iter().filter(|d| d.code == bt202()).collect();
    assert_eq!(bt202s.len(), 1);
    assert!(bt202s[0].message.contains("unquoted expansion"));
}

#[test]
fn quoted_expansion_ok() {
    let diagnostics = check_src("x=hello\necho \"$x\"");
    let bt202s: Vec<_> = diagnostics.iter().filter(|d| d.code == bt202()).collect();
    assert!(bt202s.is_empty());
}

#[test]
fn assignment_rhs_no_bt202() {
    let diagnostics = check_src("x=hello\ny=$x");
    let bt202s: Vec<_> = diagnostics.iter().filter(|d| d.code == bt202()).collect();
    assert!(bt202s.is_empty());
}

#[test]
fn for_items_no_bt202() {
    let diagnostics = check_src("x=hello\nfor f in $x; do echo \"$f\"; done");
    let bt202s: Vec<_> = diagnostics.iter().filter(|d| d.code == bt202()).collect();
    assert!(bt202s.is_empty());
}

#[test]
fn test_command_no_bt202() {
    let diagnostics = check_src("x=hello\n[[ -f $x ]]");
    let bt202s: Vec<_> = diagnostics.iter().filter(|d| d.code == bt202()).collect();
    assert!(bt202s.is_empty());
}

#[test]
fn special_var_no_bt202() {
    let diagnostics = check_src("echo $?");
    let bt202s: Vec<_> = diagnostics.iter().filter(|d| d.code == bt202()).collect();
    assert!(bt202s.is_empty());
}

#[test]
fn multiple_unquoted_args() {
    let diagnostics = check_src("a=x\nb=y\ncp $a $b");
    let bt202s: Vec<_> = diagnostics.iter().filter(|d| d.code == bt202()).collect();
    assert_eq!(bt202s.len(), 2);
}

#[test]
fn pipeline_unquoted() {
    let diagnostics = check_src("x=hello\ny=world\necho $x | grep $y");
    let bt202s: Vec<_> = diagnostics.iter().filter(|d| d.code == bt202()).collect();
    assert_eq!(bt202s.len(), 2);
}

#[test]
fn bt202_has_fix() {
    let diagnostics = check_src("x=hello\necho $x");
    let bt202s: Vec<_> = diagnostics.iter().filter(|d| d.code == bt202()).collect();
    assert!(bt202s[0].fix.is_some());
    assert_eq!(bt202s[0].fix.as_ref().unwrap().description, "Quote the variable");
}

// The exact texts of BT201 and BT202.
#[test]
fn bt201_exact_text() {
    let diagnostics = check_src("local -a arr=(1 2 3)\necho $arr");
    let d = &diagnostics[0];
    assert_eq!(d.message, "array 'arr' used in scalar expansion — only first element will be used");
    assert_eq!(d.help.as_deref(), Some("use \"${arr[@]}\" to expand all elements"));
    assert_eq!(d.severity, Severity::Error);
    let fix = d.fix.as_ref().unwrap();
    assert_eq!(fix.description, "Expand as array");
    assert_eq!(fix.replacement.as_deref(), Some("\"${arr[@]}\""));
}

#[test]
fn bt202_exact_text() {
    let diagnostics = check_src("x=hello\necho $x");
    let d = diagnostics.iter().find(|d| d.code == bt202()).unwrap();
    assert_eq!(d.message, "unquoted expansion '$x' may undergo word splitting and globbing");
    assert_eq!(d.help.as_deref(), Some("wrap in double quotes: \"$x\""));
    assert_eq!(d.severity, Severity::Warning);
    assert_eq!(d.fix.as_ref().unwrap().replacement.as_deref(), Some("\"$x\""));
    assert!(d.agent_context.as_ref().unwrap().starts_with("Unquoted variable expansions"));
}

// Function bodies see the arrays they declare.
#[test]
fn bare_array_in_function() {
    let diagnostics = check_src("f() {\n  local -a xs=(1 2)\n  echo \"$xs\"\n}");
    assert_eq!(diagnostics.len(), 1);
    assert_eq!(diagnostics[0].code, bt201());
}

// Unmodeled syntax is reported as BT000.
#[test]
fn unmodeled_reported_bt000() {
    let diagnostics = check_src("for ((i = 0; i < 3; i++)); do echo \"$i\"; done");
    assert!(diagnostics.iter().any(|d| d.code == bt000() && d.message.starts_with("unmodeled syntax: ")));
}

// Every diagnostic belongs to the unit's file.
#[test]
fn diagnostics_carry_source_id() {
    let source = SourceFile::new(SourceId(7), "t.sh".into(), "a=1\necho $a $b".into());
    let result = parse_and_lower(source);
    let ds = check(&result.source_unit);
    assert_eq!(ds.len(), 2);
    assert!(ds.iter().all(|d| d.source_id == SourceId(7)));
}
