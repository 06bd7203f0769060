//! Typed, spanned translation diagnostics: the rejects of the translation
//! phase, each carrying the span a caret render needs.

use vstd::prelude::*;

use crate::span::Span;

verus! {

/// A translation-time failure. Every variant carries the span of the
/// offending construct.
#[derive(Clone, PartialEq, Eq, Debug)]
pub enum TranslateError {
    /// An explicit scope was set on a subset (`in`/`=`) signature.
    ScopeOnSubset {
        /// The subset sig's name.
        name: String,
        /// Span of the offending scope entry.
        span: Span,
    },
    /// An explicit scope was set on an `enum` sig.
    ScopeOnEnum {
        /// The enum sig's name.
        name: String,
        /// Span of the offending scope entry.
        span: Span,
    },
    /// A `String` scope was given without `exactly`.
    StringScopeNotExact {
        /// Span of the offending scope entry.
        span: Span,
    },
    /// A `one` sig was scoped to something other than 1.
    OneSigScope {
        /// The sig's name.
        name: String,
        /// The offending scope value.
        scope: u32,
        /// Span of the offending scope entry.
        span: Span,
    },
    /// A `lone` sig was scoped above 1.
    LoneSigScope {
        /// The sig's name.
        name: String,
        /// The offending scope value.
        scope: u32,
        /// Span of the offending scope entry.
        span: Span,
    },
    /// A `some` sig was scoped to 0.
    SomeSigScope {
        /// The sig's name.
        name: String,
        /// Span of the offending scope entry.
        span: Span,
    },
    /// A top-level sig received neither an explicit nor a derivable scope.
    MustSpecifyScope {
        /// The unresolved sig's name.
        name: String,
        /// Span of the command whose scopes are incomplete.
        span: Span,
    },
    /// The requested integer bitwidth exceeds the ceiling of 30.
    BitwidthTooLarge {
        /// The offending bitwidth.
        bitwidth: u32,
        /// Span of the offending scope entry or command.
        span: Span,
    },
    /// The goal contains a temporal operator that cannot be solved yet.
    TemporalUnsupported {
        /// The temporal construct encountered.
        op: &'static str,
        /// Span of the construct.
        span: Span,
    },
    /// A construct that cannot yet be lowered to a sound constraint.
    LoweringUnsupported {
        /// A short description of the unsupported construct.
        what: String,
        /// Span of the construct.
        span: Span,
    },
    /// The goal needs higher-order quantification that could not be
    /// skolemized.
    HigherOrder {
        /// Span of the offending higher-order declaration.
        span: Span,
    },
    /// Encoding the command outgrew the configured effort budget.
    CapacityExceeded {
        /// The effort budget that was exceeded.
        cap: u64,
        /// Span of the goal node being encoded when the budget ran out.
        span: Span,
    },
}

/// The span every variant carries.
pub open spec fn span_of(e: &TranslateError) -> Span {
    match e {
        TranslateError::ScopeOnSubset { span, .. } => *span,
        TranslateError::ScopeOnEnum { span, .. } => *span,
        TranslateError::StringScopeNotExact { span } => *span,
        TranslateError::OneSigScope { span, .. } => *span,
        TranslateError::LoneSigScope { span, .. } => *span,
        TranslateError::SomeSigScope { span, .. } => *span,
        TranslateError::MustSpecifyScope { span, .. } => *span,
        TranslateError::BitwidthTooLarge { span, .. } => *span,
        TranslateError::TemporalUnsupported { span, .. } => *span,
        TranslateError::LoweringUnsupported { span, .. } => *span,
        TranslateError::HigherOrder { span } => *span,
        TranslateError::CapacityExceeded { span, .. } => *span,
    }
}

impl TranslateError {
    /// The primary source span for the caret render.
    pub fn span(&self) -> (s: Span)
        ensures
            s == span_of(self),
    {
        match self {
            TranslateError::ScopeOnSubset { span, .. } => *span,
            TranslateError::ScopeOnEnum { span, .. } => *span,
            TranslateError::StringScopeNotExact { span } => *span,
            TranslateError::OneSigScope { span, .. } => *span,
            TranslateError::LoneSigScope { span, .. } => *span,
            TranslateError::SomeSigScope { span, .. } => *span,
            TranslateError::MustSpecifyScope { span, .. } => *span,
            TranslateError::BitwidthTooLarge { span, .. } => *span,
            TranslateError::TemporalUnsupported { span, .. } => *span,
            TranslateError::LoweringUnsupported { span, .. } => *span,
            TranslateError::HigherOrder { span } => *span,
            TranslateError::CapacityExceeded { span, .. } => *span,
        }
    }
}

} // verus!
