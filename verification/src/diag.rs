//! Structured diagnostics accumulated per build or edit cycle.

use vstd::prelude::*;
use crate::range::ByteRange;

verus! {

/// How serious a diagnostic is.
#[derive(Clone, Copy, Debug, PartialEq, Eq, Structural)]
pub enum Severity {
    Error,
    Warning,
    Information,
    Hint,
}

/// What went wrong. Each variant names one failure the pipeline can report.
#[derive(Clone, Copy, Debug, PartialEq, Eq, Structural)]
pub enum DiagnosticKind {
    /// A capture's byte range is inverted or reaches past the document.
    InvalidRange,
    /// A capture's index does not name any capture of the query.
    UnknownCapture,
    /// A capture's name matches no node type of the schema.
    UnknownQueryName,
    /// A capture landed on a parent with no field that accepts its type.
    NoAcceptingField,
    /// A capture targeted a single or optional field that was already filled.
    FieldAlreadyFilled,
    /// A zero-width capture arrived for a type whose schema forbids it.
    ZeroWidthForbidden,
    /// A second top-level capture lies outside the root's range.
    OrphanCapture,
    /// A mandatory single field was left empty when the node was lowered.
    MissingField,
    /// A semantic check on a symbol failed.
    CheckFailed,
}

/// A structured message with a source range and severity.
#[derive(Clone, Copy, Debug, PartialEq, Eq, Structural)]
pub struct Diagnostic {
    pub range: ByteRange,
    pub severity: Severity,
    pub kind: DiagnosticKind,
}

impl Diagnostic {
    pub fn error(range: ByteRange, kind: DiagnosticKind) -> (r: Diagnostic)
        ensures
            r == (Diagnostic { range, severity: Severity::Error, kind }),
    {
        Diagnostic { range, severity: Severity::Error, kind }
    }
}

/// Append `d` unless an equal diagnostic is already present, so that a
/// diagnostic list behaves as a set and repeated passes stay idempotent.
pub fn push_diag(diags: &mut Vec<Diagnostic>, d: Diagnostic)
    ensures
        final(diags)@ == push_diag_spec(old(diags)@, d),
{
    let mut i: usize = 0;
    while i < diags.len()
        invariant
            i <= diags@.len(),
            forall|k: int| 0 <= k < i ==> diags@[k] != d,
        decreases diags@.len() - i,
    {
        if diags[i] == d {
            assert(diags@.contains(d));
            return ;
        }
        i += 1;
    }
    assert(!diags@.contains(d));
    diags.push(d);
}

/// What `push_diag` leaves behind: the list unchanged when `d` is already
/// there, the list with `d` appended otherwise.
pub open spec fn push_diag_spec(diags: Seq<Diagnostic>, d: Diagnostic) -> Seq<Diagnostic> {
    if diags.contains(d) {
        diags
    } else {
        diags.push(d)
    }
}

} // verus!
