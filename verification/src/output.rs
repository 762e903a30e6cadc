//! The output contract shared by every command.
//!
//! Every invocation emits exactly one document on stdout. Success and failure share
//! that channel; a caller distinguishes them by the exit code and by whether the
//! document carries a top-level `error`.
use crate::text;
use vstd::prelude::*;

verus! {

/// Command succeeded.
pub const EXIT_OK: i32 = 0;

/// Command ran but failed; the emitted document carries an `error`.
pub const EXIT_ERROR: i32 = 1;

/// Body of a failure response: a stable machine `code` agents branch on, plus a
/// human-readable `message` for the transcript.
#[derive(Debug, PartialEq, Eq)]
pub struct ErrorBody {
    pub code: String,
    pub message: String,
}

/// The value of an `ErrorBody`.
pub ghost struct ErrorBodyView {
    pub code: Seq<char>,
    pub message: Seq<char>,
}

impl DeepView for ErrorBody {
    type V = ErrorBodyView;

    open spec fn deep_view(&self) -> ErrorBodyView {
        ErrorBodyView {
            code: self.code@,
            message: self.message@,
        }
    }
}

impl View for ErrorBody {
    type V = ErrorBodyView;

    open spec fn view(&self) -> ErrorBodyView {
        self.deep_view()
    }
}

impl Clone for ErrorBody {
    fn clone(&self) -> (r: Self)
        ensures
            r@ == self@,
    {
        ErrorBody {
            code: self.code.clone(),
            message: self.message.clone(),
        }
    }
}

/// Top-level failure document: `{ "error": { "code", "message" } }`.
#[derive(Debug, PartialEq, Eq)]
pub struct ErrorEnvelope {
    pub error: ErrorBody,
}

/// The value of an `ErrorEnvelope`.
pub ghost struct ErrorEnvelopeView {
    pub error: ErrorBodyView,
}

impl DeepView for ErrorEnvelope {
    type V = ErrorEnvelopeView;

    open spec fn deep_view(&self) -> ErrorEnvelopeView {
        ErrorEnvelopeView {
            error: self.error.deep_view(),
        }
    }
}

impl View for ErrorEnvelope {
    type V = ErrorEnvelopeView;

    open spec fn view(&self) -> ErrorEnvelopeView {
        self.deep_view()
    }
}

impl Clone for ErrorEnvelope {
    fn clone(&self) -> (r: Self)
        ensures
            r@ == self@,
    {
        ErrorEnvelope {
            error: self.error.clone(),
        }
    }
}

impl ErrorEnvelope {
    /// A failure document.
    pub fn new(code: &str, message: &str) -> (r: Self)
        ensures
            r@ == (ErrorEnvelopeView { error: ErrorBodyView { code: code@, message: message@ } }),
    {
        ErrorEnvelope { error: ErrorBody { code: text::owned(code), message: text::owned(message) } }
    }
}

/// Query response envelope. `Q` is the interpreted query and `R` a single compact
/// result row; full records are fetched separately. `resolved` carries
/// anchor-resolution metadata and is absent for queries that resolve no anchor.
#[derive(Debug, PartialEq, Eq)]
pub struct QueryEnvelope<Q, R> {
    pub query: Q,
    pub resolved: Option<Resolved>,
    pub results: Vec<R>,
    pub truncated: bool,
    /// How many live results the budget or the limit left out.
    pub elided: usize,
}

/// Confidence that a query's anchor still points at the recorded node.
#[derive(Debug, Clone, Copy, PartialEq, Eq, Structural)]
pub enum Resolution {
    Exact,
    Drifted,
    Relocated,
    FileFallback,
}

impl Resolution {
    /// The name on the wire.
    pub open spec fn name(self) -> Seq<char> {
        match self {
            Resolution::Exact => "exact"@,
            Resolution::Drifted => "drifted"@,
            Resolution::Relocated => "relocated"@,
            Resolution::FileFallback => "file_fallback"@,
        }
    }

    /// The name on the wire.
    pub fn as_str(self) -> (r: &'static str)
        ensures
            r@ == self.name(),
    {
        match self {
            Resolution::Exact => "exact",
            Resolution::Drifted => "drifted",
            Resolution::Relocated => "relocated",
            Resolution::FileFallback => "file_fallback",
        }
    }
}

/// Anchor-resolution metadata surfaced alongside query results.
#[derive(Debug, PartialEq, Eq)]
pub struct Resolved {
    pub node: String,
    pub resolution: Resolution,
}

/// The value of a `Resolved`.
pub ghost struct ResolvedView {
    pub node: Seq<char>,
    pub resolution: Resolution,
}

impl DeepView for Resolved {
    type V = ResolvedView;

    open spec fn deep_view(&self) -> ResolvedView {
        ResolvedView {
            node: self.node@,
            resolution: self.resolution,
        }
    }
}

impl View for Resolved {
    type V = ResolvedView;

    open spec fn view(&self) -> ResolvedView {
        self.deep_view()
    }
}

impl Clone for Resolved {
    fn clone(&self) -> (r: Self)
        ensures
            r@ == self@,
    {
        Resolved {
            node: self.node.clone(),
            resolution: self.resolution,
        }
    }
}

} // verus!
