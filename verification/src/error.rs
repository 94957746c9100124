//! The structured diagnostic model: a caller-supplied error kind, and a
//! tree-shaped diagnostic value anchored to a source location.
use vstd::prelude::*;

verus! {

/// The extension point for domain-specific error reasons. A kind can be
/// displayed as text and can manufacture an "unexpected end of input"
/// instance, the one structural error the cursor itself produces.
pub trait EOFErrorKind: Sized {
    /// The text this kind shows in a rendered report.
    spec fn describe_spec(&self) -> Seq<char>;

    /// The value `create_eof` manufactures.
    spec fn eof_spec() -> Self;

    /// The display text of this kind.
    fn describe(&self) -> (s: String)
        ensures
            s@ == self.describe_spec(),
    ;

    /// Manufactures the "unexpected end of input" kind.
    fn create_eof() -> (r: Self)
        ensures
            r == Self::eof_spec(),
    ;
}

/// The minimal error kind: it can only say that the input ended too soon.
#[derive(Debug)]
pub struct EOFError;

impl EOFErrorKind for EOFError {
    open spec fn describe_spec(&self) -> Seq<char> {
        "Unexpected EOF"@
    }

    open spec fn eof_spec() -> Self {
        EOFError
    }

    fn describe(&self) -> (s: String) {
        "Unexpected EOF".to_owned()
    }

    fn create_eof() -> (r: Self) {
        EOFError
    }
}

/// A diagnostic node: a parse failure with its location, its domain-specific
/// kind, and the mutually exclusive failures of the alternatives that were
/// tried ("this or that rule failed"). Built once, never mutated; a richer
/// error is a new node with the old ones nested as alternatives.
///
/// Lines are 1-based, columns 0-based; both ranges are half-open, and either
/// bound may carry the sentinel `usize::MAX` meaning "unknown / rest of the
/// line".
#[derive(Debug)]
pub struct Error<'source, Kind> {
    /// First line of the offending span.
    pub line_start: usize,
    /// Line just past the offending span.
    pub line_end: usize,
    /// First column of the offending span.
    pub column_start: usize,
    /// Column just past the offending span.
    pub column_end: usize,
    /// The domain error reason.
    pub kind: Kind,
    /// The display label of the cursor that produced the node.
    pub filename: &'source str,
    /// Sibling failures, in the order the rules were attempted.
    pub suberrors: Vec<Error<'source, Kind>>,
    /// Marks a node worth surfacing even when rendering filters alternatives.
    pub important: bool,
}

impl<'source, Kind: EOFErrorKind> Error<'source, Kind> {
    /// Structural soundness of a diagnostic: its line span is non-empty in
    /// the 1-based sense, and so are those of all nested alternatives.
    pub open spec fn wf(&self) -> bool
        decreases *self,
    {
        &&& 1 <= self.line_start
        &&& self.line_start <= self.line_end
        &&& forall|i: int|
            0 <= i < self.suberrors@.len() ==> (#[trigger] self.suberrors@[i]).wf()
    }
}

} // verus!
