//! What the scanner has to say about a source that is not well written.
use vstd::prelude::*;

verus! {

/// What can be wrong with a stretch of source text. None of these stops the
/// scan.
#[derive(Debug, PartialEq, Eq, Clone, Copy, Structural)]
pub enum Fault {
    /// A byte that begins no lexeme.
    IllegalCharacter,
    /// A string literal that is still open where the source ends.
    UnterminatedString,
    /// A block comment that is still open where the source ends.
    UnterminatedComment,
}

/// A complaint about the source, with the line the scanner was on when it
/// raised it.
#[derive(Debug, PartialEq, Eq, Clone, Copy)]
pub struct Diagnostic {
    pub fault: Fault,
    pub line: usize,
}

/// Mathematical model of a [`Diagnostic`].
pub struct DiagnosticView {
    pub fault: Fault,
    pub line: nat,
}

impl View for Diagnostic {
    type V = DiagnosticView;

    open spec fn view(&self) -> DiagnosticView {
        DiagnosticView { fault: self.fault, line: self.line as nat }
    }
}

/// The models of a sequence of diagnostics, in order.
pub open spec fn diagnostic_views(diagnostics: Seq<Diagnostic>) -> Seq<DiagnosticView> {
    diagnostics.map_values(|d: Diagnostic| d@)
}

} // verus!
