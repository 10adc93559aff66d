//! Error taxonomy for the codec, binder and introspection components.
//!
//! `NotFound`-style "absent" results are deliberately not errors: lookups
//! return `Option` so clients can tell "no such entry" from a bad request.
use vstd::prelude::*;

verus! {

/// Every failure the codec and binder can report.
///
/// All of these are local, non-retryable request errors; each carries enough
/// context for the caller to correct the request.
#[derive(Debug, Clone, PartialEq, Eq)]
pub enum Error {
    /// A textual type descriptor does not follow the tag grammar.
    MalformedTypeTag,
    /// A canonical binary encoding is truncated, non-canonical, or has
    /// trailing bytes.
    CorruptEncoding,
    /// The caller supplied the wrong number of arguments.
    ArityMismatch { expected: usize, got: usize },
    /// A JSON value's shape disagrees with the target layout.
    TypeMismatch,
    /// A JSON number exceeds the width of the target integer type.
    NumericOverflow,
    /// A struct layout field is absent from the supplied JSON object.
    MissingField { field: Vec<u8> },
    /// A signer layout appeared as a data encode target; signers are only
    /// ever top-level, leading parameters.
    UnexpectedSignerType,
    /// A declared parameter has no value-layout equivalent.
    UnsupportedParameterType,
    /// A stage of table-lookup key construction failed.
    KeyConstructionFailed,
    /// A resolver backend reported a failure.
    ResolverUnavailable,
    /// A legitimate "absent" result: no such function, module or entry.
    /// Distinct from the request errors above so clients can tell
    /// "no such entry" from a bad request.
    NotFound,
}

/// Ghost mirror of [`Error`]; contracts state errors in terms of this view.
pub enum ErrorV {
    MalformedTypeTag,
    CorruptEncoding,
    ArityMismatch { expected: nat, got: nat },
    TypeMismatch,
    NumericOverflow,
    MissingField { field: Seq<u8> },
    UnexpectedSignerType,
    UnsupportedParameterType,
    KeyConstructionFailed,
    ResolverUnavailable,
    NotFound,
}

impl View for Error {
    type V = ErrorV;

    open spec fn view(&self) -> ErrorV {
        match self {
            Error::MalformedTypeTag => ErrorV::MalformedTypeTag,
            Error::CorruptEncoding => ErrorV::CorruptEncoding,
            Error::ArityMismatch { expected, got } => ErrorV::ArityMismatch {
                expected: *expected as nat,
                got: *got as nat,
            },
            Error::TypeMismatch => ErrorV::TypeMismatch,
            Error::NumericOverflow => ErrorV::NumericOverflow,
            Error::MissingField { field } => ErrorV::MissingField { field: field@ },
            Error::UnexpectedSignerType => ErrorV::UnexpectedSignerType,
            Error::UnsupportedParameterType => ErrorV::UnsupportedParameterType,
            Error::KeyConstructionFailed => ErrorV::KeyConstructionFailed,
            Error::ResolverUnavailable => ErrorV::ResolverUnavailable,
            Error::NotFound => ErrorV::NotFound,
        }
    }
}

} // verus!
