//! Diagnostics: codes, severities, labels, suggested fixes.
use vstd::prelude::*;
use crate::span::{SourceFile, SourceId, Span};
use crate::text::{copy_string, owned, push_str};

verus! {

/// A diagnostic code such as `BT201`: a family and a number.
#[derive(Debug, Clone, Copy, PartialEq, Eq, Hash)]
pub struct DiagnosticCode {
    pub family: &'static str,
    pub number: u16,
}

/// The decimal digit for `d < 10`.
pub open spec fn digit_char(d: nat) -> char {
    ((d + 48) as u8) as char
}

/// The decimal digits of `n`, most significant first, with no leading zero.
pub open spec fn digits_s(n: nat) -> Seq<char>
    decreases n,
{
    if n < 10 {
        seq![digit_char(n)]
    } else {
        digits_s(n / 10).push(digit_char(n % 10))
    }
}

/// The decimal digits of `n`, padded with zeros on the left to at least three.
pub open spec fn padded3_s(n: nat) -> Seq<char> {
    let d = digits_s(n);
    if d.len() >= 3 {
        d
    } else {
        Seq::new((3 - d.len()) as nat, |i: int| '0') + d
    }
}

/// How a code is written: its family, then its number on at least three digits.
pub open spec fn code_text(c: DiagnosticCode) -> Seq<char> {
    c.family@ + padded3_s(c.number as nat)
}

proof fn lemma_digits_len(n: nat)
    ensures
        digits_s(n).len() >= 1,
        n < 10 ==> digits_s(n).len() == 1,
        10 <= n < 100 ==> digits_s(n).len() == 2,
        n >= 100 ==> digits_s(n).len() >= 3,
    decreases n,
{
    if n >= 10 {
        lemma_digits_len(n / 10);
    }
}

fn digit(d: u16) -> (c: char)
    requires
        d < 10,
    ensures
        c == digit_char(d as nat),
{
    let b: u8 = (d as u8) + 48;
    b as char
}

fn push_digits(s: &mut String, n: u16)
    ensures
        final(s)@ == old(s)@ + digits_s(n as nat),
    decreases n,
{
    if n >= 10 {
        push_digits(s, n / 10);
    }
    s.push(digit(n % 10));
    proof {
        if n >= 10 {
            assert(digits_s(n as nat) == digits_s((n / 10) as nat).push(digit_char((n % 10) as nat)));
        }
    }
}

impl DiagnosticCode {
    /// The code as written, `BT201` for family `BT` and number 201, as
    /// `code_text` states.
    pub fn to_string(&self) -> (s: String)
        ensures
            s@ == code_text(*self),
    {
        let mut s = owned(self.family);
        let ghost f = s@;
        proof {
            lemma_digits_len(self.number as nat);
        }
        if self.number < 10 {
            s.push('0');
            s.push('0');
            assert(Seq::new(2nat, |i: int| '0') =~= seq!['0', '0']);
        } else if self.number < 100 {
            s.push('0');
            assert(Seq::new(1nat, |i: int| '0') =~= seq!['0']);
        }
        let ghost p = s@;
        push_digits(&mut s, self.number);
        assert(s@ =~= f + padded3_s(self.number as nat));
        s
    }
}

#[derive(Debug, Clone, Copy, PartialEq, Eq, Structural)]
#[non_exhaustive]
pub enum Severity {
    Error,
    Warning,
    Info,
    Hint,
}

/// A secondary span with its message.
#[derive(Debug, Clone)]
pub struct Label {
    pub span: Span,
    pub message: String,
}

/// A suggested edit: what it does, and the text that would replace the
/// primary span.
#[derive(Debug, Clone)]
pub struct Fix {
    pub description: String,
    pub replacement: Option<String>,
}

#[derive(Debug, Clone)]
pub struct Diagnostic {
    pub code: DiagnosticCode,
    pub severity: Severity,
    pub message: String,
    pub source_id: SourceId,
    pub primary_span: Span,
    pub labels: Vec<Label>,
    pub help: Option<String>,
    pub fix: Option<Fix>,
    /// A longer explanation for automated consumers.
    pub agent_context: Option<String>,
}

pub struct FixV {
    pub description: Seq<char>,
    pub replacement: Option<Seq<char>>,
}

/// A diagnostic as a mathematical value.
pub struct DiagnosticV {
    pub code: DiagnosticCode,
    pub severity: Severity,
    pub message: Seq<char>,
    pub source_id: SourceId,
    pub primary_span: Span,
    pub labels: Seq<(Span, Seq<char>)>,
    pub help: Option<Seq<char>>,
    pub fix: Option<FixV>,
    pub agent_context: Option<Seq<char>>,
}

pub open spec fn opt_str_v(o: Option<String>) -> Option<Seq<char>> {
    match o {
        Some(s) => Some(s@),
        None => None,
    }
}

pub open spec fn fix_v(f: Fix) -> FixV {
    FixV { description: f.description@, replacement: opt_str_v(f.replacement) }
}

pub open spec fn labels_v(l: Seq<Label>) -> Seq<(Span, Seq<char>)> {
    Seq::new(l.len(), |i: int| (l[i].span, l[i].message@))
}

impl View for Diagnostic {
    type V = DiagnosticV;

    open spec fn view(&self) -> DiagnosticV {
        DiagnosticV {
            code: self.code,
            severity: self.severity,
            message: self.message@,
            source_id: self.source_id,
            primary_span: self.primary_span,
            labels: labels_v(self.labels@),
            help: opt_str_v(self.help),
            fix: match self.fix {
                Some(f) => Some(fix_v(f)),
                None => None,
            },
            agent_context: opt_str_v(self.agent_context),
        }
    }
}

/// A diagnostic with no label, help, fix or context.
pub open spec fn bare_diagnostic(
    code: DiagnosticCode,
    severity: Severity,
    message: Seq<char>,
    source_id: SourceId,
    span: Span,
) -> DiagnosticV {
    DiagnosticV {
        code,
        severity,
        message,
        source_id,
        primary_span: span,
        labels: Seq::empty(),
        help: None,
        fix: None,
        agent_context: None,
    }
}

impl Diagnostic {
    pub fn error(code: DiagnosticCode, message: &str, source_id: SourceId, span: Span) -> (d: Diagnostic)
        ensures
            d@ == bare_diagnostic(code, Severity::Error, message@, source_id, span),
    {
        let d = Diagnostic {
            code,
            severity: Severity::Error,
            message: owned(message),
            source_id,
            primary_span: span,
            labels: Vec::new(),
            help: None,
            fix: None,
            agent_context: None,
        };
        assert(d@.labels =~= Seq::<(Span, Seq<char>)>::empty());
        d
    }

    pub fn warning(code: DiagnosticCode, message: &str, source_id: SourceId, span: Span) -> (d: Diagnostic)
        ensures
            d@ == bare_diagnostic(code, Severity::Warning, message@, source_id, span),
    {
        let d = Diagnostic {
            code,
            severity: Severity::Warning,
            message: owned(message),
            source_id,
            primary_span: span,
            labels: Vec::new(),
            help: None,
            fix: None,
            agent_context: None,
        };
        assert(d@.labels =~= Seq::<(Span, Seq<char>)>::empty());
        d
    }

    /// Adds a secondary label after the existing ones.
    pub fn with_label(self, span: Span, message: &str) -> (d: Diagnostic)
        ensures
            d@ == (DiagnosticV { labels: self@.labels.push((span, message@)), ..self@ }),
    {
        let mut d = self;
        d.labels.push(Label { span, message: owned(message) });
        assert(d@.labels =~= self@.labels.push((span, message@)));
        d
    }

    pub fn with_help(self, help: &str) -> (d: Diagnostic)
        ensures
            d@ == (DiagnosticV { help: Some(help@), ..self@ }),
    {
        let mut d = self;
        d.help = Some(owned(help));
        d
    }

    pub fn with_fix(self, fix: Fix) -> (d: Diagnostic)
        ensures
            d@ == (DiagnosticV { fix: Some(fix_v(fix)), ..self@ }),
    {
        let mut d = self;
        d.fix = Some(fix);
        d
    }

    pub fn with_agent_context(self, context: &str) -> (d: Diagnostic)
        ensures
            d@ == (DiagnosticV { agent_context: Some(context@), ..self@ }),
    {
        let mut d = self;
        d.agent_context = Some(owned(context));
        d
    }
}


// ---------------------------------------------------------------------------
// Rendering with miette
// ---------------------------------------------------------------------------

#[verifier::external_type_specification]
#[verifier::external_body]
pub struct ExMietteDiagnostic(miette::MietteDiagnostic);

#[verifier::external_type_specification]
#[verifier::external_body]
pub struct ExReport(miette::Report);

#[verifier::external_type_specification]
#[verifier::external_body]
pub struct ExSourceSpan(miette::SourceSpan);

/// The `miette::SourceSpan` of a byte offset and a length.
pub uninterp spec fn source_span(offset: usize, len: usize) -> miette::SourceSpan;

/// `miette::SourceSpan` from an offset and a length (`From<(usize, usize)>`),
/// which depends on those two values alone.
#[verifier::external_body]
fn miette_span(offset: usize, len: usize) -> (r: miette::SourceSpan)
    ensures
        r == source_span(offset, len),
{
    (offset, len).into()
}

impl Span {
    /// The span's byte offset and byte length.
    pub fn offset_len(self) -> (r: (usize, usize))
        requires
            self.start <= self.end,
        ensures
            r == (self.start as usize, (self.end - self.start) as usize),
    {
        (self.start as usize, (self.end - self.start) as usize)
    }

    /// The span as a miette offset and length, those of `offset_len`.
    pub fn to_miette(self) -> (r: miette::SourceSpan)
        requires
            self.start <= self.end,
        ensures
            r == source_span(self.start as usize, (self.end - self.start) as usize),
    {
        let (offset, len) = self.offset_len();
        miette_span(offset, len)
    }
}

/// How a report is shown.
#[derive(Debug, Clone, Copy, PartialEq, Eq, Structural)]
pub enum ReportSeverity {
    Error,
    Warning,
    Advice,
}

/// A label of a report: its text, and the byte offset and length it marks.
#[derive(Debug)]
pub struct ReportLabel {
    pub text: String,
    pub offset: usize,
    pub len: usize,
}

/// What a rendered report shows of a diagnostic.
#[derive(Debug)]
pub struct ReportModel {
    pub code: String,
    pub message: String,
    pub severity: ReportSeverity,
    pub labels: Vec<ReportLabel>,
    pub help: Option<String>,
}

pub struct ReportModelV {
    pub code: Seq<char>,
    pub message: Seq<char>,
    pub severity: ReportSeverity,
    pub labels: Seq<(Seq<char>, nat, nat)>,
    pub help: Option<Seq<char>>,
}

pub open spec fn report_labels_v(l: Seq<ReportLabel>) -> Seq<(Seq<char>, nat, nat)> {
    Seq::new(l.len(), |i: int| (l[i].text@, l[i].offset as nat, l[i].len as nat))
}

impl View for ReportModel {
    type V = ReportModelV;

    open spec fn view(&self) -> ReportModelV {
        ReportModelV {
            code: self.code@,
            message: self.message@,
            severity: self.severity,
            labels: report_labels_v(self.labels@),
            help: opt_str_v(self.help),
        }
    }
}

pub open spec fn report_severity_s(s: Severity) -> ReportSeverity {
    match s {
        Severity::Error => ReportSeverity::Error,
        Severity::Warning => ReportSeverity::Warning,
        Severity::Info => ReportSeverity::Advice,
        Severity::Hint => ReportSeverity::Advice,
    }
}

/// A span as (message, offset, length).
pub open spec fn span_label_s(text: Seq<char>, span: Span) -> (Seq<char>, nat, nat) {
    (text, span.start as nat, (span.end - span.start) as nat)
}

/// What the report of a diagnostic shows: its code, message and severity
/// (info and hint shown as advice), the primary span labelled with the code,
/// then each label of the diagnostic, and its help.
pub open spec fn model_s(d: DiagnosticV) -> ReportModelV {
    ReportModelV {
        code: code_text(d.code),
        message: d.message,
        severity: report_severity_s(d.severity),
        labels: seq![span_label_s(code_text(d.code), d.primary_span)] + Seq::new(
            d.labels.len(),
            |i: int| span_label_s(d.labels[i].1, d.labels[i].0),
        ),
        help: d.help,
    }
}

/// The spans of a diagnostic run forward.
pub open spec fn spans_ordered(d: DiagnosticV) -> bool {
    &&& d.primary_span.start <= d.primary_span.end
    &&& forall|i: int| 0 <= i < d.labels.len() ==> (#[trigger] d.labels[i]).0.start <= d.labels[i].0.end
}

/// Whether every span of `d` runs forward, as rendering needs.
pub fn spans_run_forward(d: &Diagnostic) -> (b: bool)
    ensures
        b == spans_ordered(d@),
{
    if d.primary_span.start > d.primary_span.end {
        return false;
    }
    let mut i: usize = 0;
    while i < d.labels.len()
        invariant
            i <= d.labels@.len(),
            forall|k: int| 0 <= k < i ==> (#[trigger] d@.labels[k]).0.start <= d@.labels[k].0.end,
        decreases d.labels.len() - i,
    {
        assert(d@.labels[i as int].0 == d.labels@[i as int].span);
        if d.labels[i].span.start > d.labels[i].span.end {
            return false;
        }
        i = i + 1;
    }
    true
}

/// The diagnostics of `ds` that belong to file `id`, in order.
pub open spec fn diags_for(ds: Seq<Diagnostic>, id: SourceId) -> Seq<DiagnosticV>
    decreases ds.len(),
{
    if ds.len() == 0 {
        Seq::empty()
    } else {
        diags_for(ds.drop_last(), id) + if ds.last().source_id == id {
            seq![ds.last()@]
        } else {
            Seq::<DiagnosticV>::empty()
        }
    }
}

/// The number of diagnostics of `ds` that belong to file `id`.
pub open spec fn count_for(ds: Seq<Diagnostic>, id: SourceId) -> nat {
    diags_for(ds, id).len()
}

/// What the report of `d` shows.
pub fn report_model(d: &Diagnostic) -> (m: ReportModel)
    requires
        spans_ordered(d@),
    ensures
        m@ == model_s(d@),
{
    let code = d.code.to_string();
    let severity = match d.severity {
        Severity::Error => ReportSeverity::Error,
        Severity::Warning => ReportSeverity::Warning,
        Severity::Info => ReportSeverity::Advice,
        Severity::Hint => ReportSeverity::Advice,
    };
    let (offset, len) = d.primary_span.offset_len();
    let mut labels: Vec<ReportLabel> = Vec::new();
    labels.push(ReportLabel { text: d.code.to_string(), offset, len });
    let ghost dl = d@.labels;
    let mut i: usize = 0;
    while i < d.labels.len()
        invariant
            i <= d.labels@.len(),
            spans_ordered(d@),
            dl == d@.labels,
            report_labels_v(labels@) =~= seq![span_label_s(code_text(d.code), d.primary_span)] + Seq::new(
                i as nat,
                |k: int| span_label_s(dl[k].1, dl[k].0),
            ),
        decreases d.labels.len() - i,
    {
        let l = &d.labels[i];
        assert(dl[i as int] == (l.span, l.message@));
        assert(d@.labels[i as int].0.start <= d@.labels[i as int].0.end);
        let (o, n) = l.span.offset_len();
        let ghost before = labels@;
        let lab = ReportLabel { text: copy_string(&l.message), offset: o, len: n };
        labels.push(lab);
        proof {
            assert(report_labels_v(labels@) =~= report_labels_v(before).push(
                (lab.text@, lab.offset as nat, lab.len as nat),
            ));
            assert(Seq::new((i + 1) as nat, |k: int| span_label_s(dl[k].1, dl[k].0)) =~= Seq::new(
                i as nat,
                |k: int| span_label_s(dl[k].1, dl[k].0),
            ).push(span_label_s(dl[i as int].1, dl[i as int].0)));
        }
        i = i + 1;
    }
    let help = match &d.help {
        Some(h) => Some(copy_string(h)),
        None => None,
    };
    let m = ReportModel { code, message: copy_string(&d.message), severity, labels, help };
    assert(m@.labels =~= model_s(d@).labels);
    m
}

/// What the reports of the diagnostics of `diagnostics` that belong to
/// `source` show, in order: one model each.
pub fn report_models(diagnostics: &[Diagnostic], source: &SourceFile) -> (r: Vec<ReportModel>)
    requires
        forall|i: int| 0 <= i < diagnostics@.len() && (#[trigger] diagnostics@[i]).source_id == source.id ==> spans_ordered(
            diagnostics@[i]@,
        ),
    ensures
        r@.len() == diags_for(diagnostics@, source.id).len(),
        forall|k: int| 0 <= k < r@.len() ==> (#[trigger] r@[k])@ == model_s(diags_for(diagnostics@, source.id)[k]),
{
    let mut r: Vec<ReportModel> = Vec::new();
    let mut i: usize = 0;
    while i < diagnostics.len()
        invariant
            i <= diagnostics@.len(),
            r@.len() == diags_for(diagnostics@.take(i as int), source.id).len(),
            forall|k: int| 0 <= k < r@.len() ==> (#[trigger] r@[k])@ == model_s(diags_for(diagnostics@.take(i as int), source.id)[k]),
            forall|k: int| 0 <= k < diagnostics@.len() && (#[trigger] diagnostics@[k]).source_id == source.id ==> spans_ordered(
                diagnostics@[k]@,
            ),
        decreases diagnostics.len() - i,
    {
        assert(diagnostics@.take(i + 1).drop_last() =~= diagnostics@.take(i as int));
        let d = &diagnostics[i];
        let ghost prev = diags_for(diagnostics@.take(i as int), source.id);
        let ghost r0 = r@;
        if d.source_id == source.id {
            let m = report_model(d);
            r.push(m);
            proof {
                let next = diags_for(diagnostics@.take(i + 1), source.id);
                assert(next =~= prev.push(d@));
                assert forall|k: int| 0 <= k < r@.len() implies (#[trigger] r@[k])@ == model_s(next[k]) by {
                    if k < r0.len() {
                        assert(r@[k] == r0[k]);
                    }
                }
            }
        } else {
            assert(diags_for(diagnostics@.take(i + 1), source.id) =~= prev);
        }
        i = i + 1;
    }
    assert(diagnostics@.take(i as int) =~= diagnostics@);
    r
}

/// What a report holds: the model of the diagnostic it shows, the name of
/// the file and the file's text.
pub uninterp spec fn report_parts(r: miette::Report) -> (ReportModelV, Seq<char>, Seq<char>);

/// `miette::Report::new` of a `miette::MietteDiagnostic` built from the model
/// (message, code, severity, labels as `miette::LabeledSpan::new`, help),
/// `with_source_code` a `miette::NamedSource` of the file's name and text:
/// the report holds those and shows them.
#[verifier::external_body]
fn miette_report(m: ReportModel, name: &str, source: String) -> (r: miette::Report)
    ensures
        report_parts(r) == (m@, name@, source@),
{
    let severity = match m.severity {
        ReportSeverity::Error => miette::Severity::Error,
        ReportSeverity::Warning => miette::Severity::Warning,
        ReportSeverity::Advice => miette::Severity::Advice,
    };
    let labels = m.labels.into_iter().map(|l| miette::LabeledSpan::new(Some(l.text), l.offset, l.len));
    let mut d = miette::MietteDiagnostic::new(m.message).with_code(m.code).with_severity(severity).with_labels(labels);
    d.help = m.help;
    miette::Report::new(d).with_source_code(miette::NamedSource::new(name, source))
}

/// The report of `d`, built from its `report_model`.
fn render_one(d: &Diagnostic, source: &SourceFile) -> (r: miette::Report)
    requires
        spans_ordered(d@),
    ensures
        report_parts(r) == (model_s(d@), source.name@, source.source@),
{
    miette_report(report_model(d), source.name.as_str(), copy_string(&source.source))
}

/// Renders, with miette, the diagnostics of `diagnostics` that belong to
/// `source`, in order: one report each, built from the models of
/// `report_models`.
pub fn render_diagnostics(diagnostics: &[Diagnostic], source: &SourceFile) -> (r: Vec<miette::Report>)
    requires
        forall|i: int| 0 <= i < diagnostics@.len() && (#[trigger] diagnostics@[i]).source_id == source.id ==> spans_ordered(
            diagnostics@[i]@,
        ),
    ensures
        r@.len() == count_for(diagnostics@, source.id),
        forall|k: int|
            0 <= k < r@.len() ==> report_parts(#[trigger] r@[k]) == (
                model_s(diags_for(diagnostics@, source.id)[k]),
                source.name@,
                source.source@,
            ),
{
    let mut r: Vec<miette::Report> = Vec::new();
    let mut i: usize = 0;
    while i < diagnostics.len()
        invariant
            i <= diagnostics@.len(),
            r@.len() == count_for(diagnostics@.take(i as int), source.id),
            forall|k: int|
                0 <= k < r@.len() ==> report_parts(#[trigger] r@[k]) == (
                    model_s(diags_for(diagnostics@.take(i as int), source.id)[k]),
                    source.name@,
                    source.source@,
                ),
            forall|k: int| 0 <= k < diagnostics@.len() && (#[trigger] diagnostics@[k]).source_id == source.id ==> spans_ordered(
                diagnostics@[k]@,
            ),
        decreases diagnostics.len() - i,
    {
        assert(diagnostics@.take(i + 1).drop_last() =~= diagnostics@.take(i as int));
        let d = &diagnostics[i];
        let ghost prev = diags_for(diagnostics@.take(i as int), source.id);
        let ghost r0 = r@;
        if d.source_id == source.id {
            let rep = render_one(d, source);
            r.push(rep);
            proof {
                let next = diags_for(diagnostics@.take(i + 1), source.id);
                assert(next =~= prev.push(d@));
                assert forall|k: int| 0 <= k < r@.len() implies report_parts(#[trigger] r@[k]) == (
                    model_s(next[k]),
                    source.name@,
                    source.source@,
                ) by {
                    if k < r0.len() {
                        assert(r@[k] == r0[k]);
                    }
                }
            }
        } else {
            assert(diags_for(diagnostics@.take(i + 1), source.id) =~= prev);
        }
        i = i + 1;
    }
    assert(diagnostics@.take(i as int) =~= diagnostics@);
    r
}

} // verus!
