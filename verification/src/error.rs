//! The error type of the library.

use vstd::prelude::*;
use vstd::string::StringExecFns;

verus! {

/// What went wrong.
#[derive(Debug, Clone, Copy, PartialEq, Eq, Structural)]
pub enum ErrorKind {
    /// A `bootstrap` directive has no table line.
    BootstrapTooFewLines,
    /// A `bootstrap` directive names no input.
    BootstrapMissingInput,
    /// A `bootstrap` directive names no output.
    BootstrapNoOutput,
    /// A `bootstrap` directive does not have one table line per output.
    BootstrapTableCount,
    /// A `lincomb` directive does not have exactly two lines.
    LincombLineCount,
    /// A `lincomb` directive names no output.
    LincombNoOutput,
    /// A coefficient of a `lincomb` directive is not an `i8`.
    LincombCoefficient,
    /// A `lincomb` directive does not have one coefficient per input, with at
    /// most one more for the constant.
    LincombCountMismatch,
    /// A name is defined a second time.
    NameAlreadyDefined,
    /// A name is used before any definition of it.
    NameUndefined,
    /// A defined name is neither used by a node nor a declared output.
    DanglingDefinition,
    /// A node's lists do not pair up: inputs with coefficients, or outputs
    /// with tables.
    NodeShape,
    /// A table has more than twice the plaintext modulus entries.
    TableTooLong,
    /// The upper half of a table does not relate to its lower half in one way.
    TableInconsistent,
    /// No value was given for a circuit input.
    MissingInput,
    /// The ciphertext given for a circuit input does not fit the server.
    InputMismatch,
    /// A linear combination is negative.
    NegativeValue,
    /// A linear combination does not fit the value range.
    ValueTooLarge,
    /// A table has no entry for the value looked up.
    TableTooShort,
    /// A declared output is not 0 or 1.
    NotBoolean,
}

/// An error: its kind, and the text it is about (a name, or the text of a
/// directive; empty where the kind says it all).
#[derive(Debug, Clone, PartialEq, Eq)]
pub struct Error {
    pub kind: ErrorKind,
    pub context: String,
}

/// An error as specifications see it.
pub struct ErrorView {
    pub kind: ErrorKind,
    pub context: Seq<char>,
}

impl View for Error {
    type V = ErrorView;

    open spec fn view(&self) -> ErrorView {
        ErrorView { kind: self.kind, context: self.context@ }
    }
}

/// The error view of the given kind about the given text.
pub open spec fn fault(kind: ErrorKind, context: Seq<char>) -> ErrorView {
    ErrorView { kind, context }
}

impl Error {
    /// An error of the given kind about the given text.
    pub fn new(kind: ErrorKind, context: String) -> (e: Error)
        ensures
            e@ == fault(kind, context@),
    {
        Error { kind, context }
    }

    /// An error of the given kind whose kind says it all.
    pub fn bare(kind: ErrorKind) -> (e: Error)
        ensures
            e@ == fault(kind, Seq::empty()),
    {
        Error { kind, context: String::new() }
    }

    /// One line that describes the error: what went wrong, then the text it is
    /// about where there is one.
    pub fn message(&self) -> (m: String)
        ensures
            m@ == kind_text(self.kind)@ + (if self.context@.len() > 0 {
                ": "@ + self.context@
            } else {
                Seq::empty()
            }),
    {
        let mut m = String::from_str(kind_text(self.kind));
        if !self.context.as_str().is_empty() {
            m.append(": ");
            m.append(self.context.as_str());
        }
        m
    }
}

/// The fixed text for each kind of error.
#[verifier::when_used_as_spec(kind_text_spec)]
pub fn kind_text(kind: ErrorKind) -> (t: &'static str)
    ensures
        t == kind_text_spec(kind),
{
    match kind {
        ErrorKind::BootstrapTooFewLines => "bootstrap: expected at least one table line",
        ErrorKind::BootstrapMissingInput => "bootstrap: expected one input",
        ErrorKind::BootstrapNoOutput => "bootstrap: expected at least one output",
        ErrorKind::BootstrapTableCount => "bootstrap: expected one table line per output",
        ErrorKind::LincombLineCount => "lincomb: expected exactly two lines",
        ErrorKind::LincombNoOutput => "lincomb: no output",
        ErrorKind::LincombCoefficient => "lincomb: coefficient is not an 8-bit integer",
        ErrorKind::LincombCountMismatch => "lincomb: inputs and coefficients count mismatch",
        ErrorKind::NameAlreadyDefined => "name already defined",
        ErrorKind::NameUndefined => "name does not exist",
        ErrorKind::DanglingDefinition => "circuit has dangling nodes",
        ErrorKind::NodeShape => "node lists differ in length",
        ErrorKind::TableTooLong => "test vector length is too large",
        ErrorKind::TableInconsistent => "invalid test vector element types",
        ErrorKind::MissingInput => "cannot find input",
        ErrorKind::InputMismatch => "input ciphertext does not fit the server key",
        ErrorKind::NegativeValue => "lincomb output is negative",
        ErrorKind::ValueTooLarge => "lincomb output is too large",
        ErrorKind::TableTooShort => "bootstrap table is too short",
        ErrorKind::NotBoolean => "node value is not boolean, missing bootstrapping?",
    }
}

pub open spec fn kind_text_spec(kind: ErrorKind) -> &'static str {
    match kind {
        ErrorKind::BootstrapTooFewLines => "bootstrap: expected at least one table line",
        ErrorKind::BootstrapMissingInput => "bootstrap: expected one input",
        ErrorKind::BootstrapNoOutput => "bootstrap: expected at least one output",
        ErrorKind::BootstrapTableCount => "bootstrap: expected one table line per output",
        ErrorKind::LincombLineCount => "lincomb: expected exactly two lines",
        ErrorKind::LincombNoOutput => "lincomb: no output",
        ErrorKind::LincombCoefficient => "lincomb: coefficient is not an 8-bit integer",
        ErrorKind::LincombCountMismatch => "lincomb: inputs and coefficients count mismatch",
        ErrorKind::NameAlreadyDefined => "name already defined",
        ErrorKind::NameUndefined => "name does not exist",
        ErrorKind::DanglingDefinition => "circuit has dangling nodes",
        ErrorKind::NodeShape => "node lists differ in length",
        ErrorKind::TableTooLong => "test vector length is too large",
        ErrorKind::TableInconsistent => "invalid test vector element types",
        ErrorKind::MissingInput => "cannot find input",
        ErrorKind::InputMismatch => "input ciphertext does not fit the server key",
        ErrorKind::NegativeValue => "lincomb output is negative",
        ErrorKind::ValueTooLarge => "lincomb output is too large",
        ErrorKind::TableTooShort => "bootstrap table is too short",
        ErrorKind::NotBoolean => "node value is not boolean, missing bootstrapping?",
    }
}

} // verus!
