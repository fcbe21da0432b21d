use argvtype::diagnostic::{report_models, Label, ReportSeverity};
use argvtype::diagnostic::{render_diagnostics, Diagnostic, DiagnosticCode, Fix, Severity};
use argvtype::span::{SourceFile, SourceId, Span};

#[test]
fn diagnostic_code_formatting() {
    let code = DiagnosticCode { family: "BT", number: 201 };
    assert_eq!(code.to_string(), "BT201");

    let code2 = DiagnosticCode { family: "BT", number: 0 };
    assert_eq!(code2.to_string(), "BT000");
}

#[test]
fn construct_and_render_diagnostic() {
    let source = SourceFile::new(SourceId(0), "test.sh".into(), "echo $arr\n".into());
    let diag = Diagnostic::error(
        DiagnosticCode { family: "BT", number: 201 },
        "array used in scalar expansion",
        SourceId(0),
        Span::new(5, 9),
    )
    .with_help("use \"${arr[@]}\" instead");

    let reports = render_diagnostics(&[diag], &source);
    assert_eq!(reports.len(), 1);

    let rendered = format!("{:?}", reports[0]);
    assert!(rendered.contains("BT201"));
    assert!(rendered.contains("array used in scalar expansion"));
}

#[test]
fn code_padding_and_wide_numbers() {
    assert_eq!(DiagnosticCode { family: "BT", number: 7 }.to_string(), "BT007");
    assert_eq!(DiagnosticCode { family: "BT", number: 42 }.to_string(), "BT042");
    assert_eq!(DiagnosticCode { family: "BT", number: 701 }.to_string(), "BT701");
    assert_eq!(DiagnosticCode { family: "X", number: 65535 }.to_string(), "X65535");
}

#[test]
fn builders_set_fields() {
    let d = Diagnostic::warning(DiagnosticCode { family: "BT", number: 202 }, "m", SourceId(3), Span::new(1, 2))
        .with_label(Span::new(0, 1), "here")
        .with_help("h")
        .with_fix(Fix { description: "d".into(), replacement: Some("r".into()) })
        .with_agent_context("ctx");
    assert_eq!(d.severity, Severity::Warning);
    assert_eq!(d.labels.len(), 1);
    assert_eq!(d.labels[0].message, "here");
    assert_eq!(d.help.as_deref(), Some("h"));
    assert_eq!(d.fix.as_ref().unwrap().replacement.as_deref(), Some("r"));
    assert_eq!(d.agent_context.as_deref(), Some("ctx"));
    assert_eq!(d.source_id, SourceId(3));
}

// Only the diagnostics of the rendered file are rendered.
#[test]
fn render_filters_by_source() {
    let source = SourceFile::new(SourceId(1), "a.sh".into(), "echo hi\n".into());
    let code = DiagnosticCode { family: "BT", number: 202 };
    let ds = vec![
        Diagnostic::warning(code, "one", SourceId(1), Span::new(0, 4)),
        Diagnostic::warning(code, "two", SourceId(2), Span::new(0, 4)),
        Diagnostic::error(code, "three", SourceId(1), Span::new(5, 7)).with_label(Span::new(0, 4), "lbl"),
    ];
    let reports = render_diagnostics(&ds, &source);
    assert_eq!(reports.len(), 2);
}

#[test]
fn report_models_follow_the_diagnostics_of_the_source() {
    let source = SourceFile::new(SourceId(0), "test.sh".into(), "echo $arr\n".into());
    let mut d1 = Diagnostic::warning(DiagnosticCode { family: "BT", number: 202 }, "first", SourceId(0), Span::new(5, 9))
        .with_help("quote it");
    d1.labels.push(Label { span: Span::new(0, 4), message: "here".into() });
    let other = Diagnostic::error(DiagnosticCode { family: "BT", number: 201 }, "elsewhere", SourceId(1), Span::new(0, 1));
    let d2 = Diagnostic::error(DiagnosticCode { family: "BT", number: 201 }, "second", SourceId(0), Span::new(1, 3));
    let models = report_models(&[d1, other, d2], &source);
    assert_eq!(models.len(), 2);
    assert_eq!(models[0].code, "BT202");
    assert_eq!(models[0].message, "first");
    assert_eq!(models[0].severity, ReportSeverity::Warning);
    assert_eq!(models[0].help.as_deref(), Some("quote it"));
    assert_eq!(models[0].labels.len(), 2);
    assert_eq!((models[0].labels[0].text.as_str(), models[0].labels[0].offset, models[0].labels[0].len), ("BT202", 5, 4));
    assert_eq!((models[0].labels[1].text.as_str(), models[0].labels[1].offset, models[0].labels[1].len), ("here", 0, 4));
    assert_eq!(models[1].message, "second");
    assert_eq!(models[1].severity, ReportSeverity::Error);
}

#[test]
fn span_offset_len() {
    assert_eq!(Span::new(3, 10).offset_len(), (3, 7));
}
