//! Lowering and checking a file in one step, as the test fixtures are checked.
use vstd::prelude::*;
use crate::annotation::lines_ok;
use crate::check::{check, check_s, diags_v};
use crate::diagnostic::{Diagnostic, Severity};
use crate::hir::items_v;
use crate::lower::{LowerResult, lowering_of, parse_and_lower};
use crate::span::SourceFile;
use crate::text::utf8_len_seq;

verus! {

/// A file lowered, and what the checks report on it.
pub struct FullResult {
    pub lower: LowerResult,
    pub diagnostics: Vec<Diagnostic>,
}

/// A file fails the check where it has a parse or annotation error, or a
/// diagnostic of error severity.
pub open spec fn has_errors_s(lower: LowerResult, diagnostics: Seq<Diagnostic>) -> bool {
    lower.parse_errors@.len() > 0 || lower.annotation_errors@.len() > 0 || exists|i: int|
        0 <= i < diagnostics.len() && (#[trigger] diagnostics[i]).severity == Severity::Error
}

/// Whether a lowered and checked file fails the check.
pub fn has_errors(lower: &LowerResult, diagnostics: &[Diagnostic]) -> (b: bool)
    ensures
        b == has_errors_s(*lower, diagnostics@),
{
    if lower.parse_errors.len() > 0 || lower.annotation_errors.len() > 0 {
        return true;
    }
    let mut i: usize = 0;
    while i < diagnostics.len()
        invariant
            i <= diagnostics@.len(),
            forall|k: int| 0 <= k < i ==> (#[trigger] diagnostics@[k]).severity != Severity::Error,
        decreases diagnostics.len() - i,
    {
        if diagnostics[i].severity == Severity::Error {
            return true;
        }
        i = i + 1;
    }
    false
}

/// The exit status of a check over several files: 1 where any failed, else 0.
pub fn exit_code(any_failed: bool) -> (c: i32)
    ensures
        c == (if any_failed { 1i32 } else { 0i32 }),
{
    if any_failed { 1 } else { 0 }
}

/// Lowers a source file and runs the checks on its HIR.
pub fn check_source(source: SourceFile) -> (r: FullResult)
    requires
        utf8_len_seq(source.source@) <= u32::MAX,
        lines_ok(source.source@),
    ensures
        lowering_of(r.lower, source.id, source.source@),
        diags_v(r.diagnostics@) == check_s(items_v(r.lower.source_unit.items@), r.lower.source_unit.source_id),
{
    let lower = parse_and_lower(source);
    let diagnostics = check(&lower.source_unit);
    FullResult { lower, diagnostics }
}

} // verus!
