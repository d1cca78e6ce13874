//! The failures that end a traversal.

use vstd::prelude::*;
use vstd::string::StringExecFns;

verus! {

/// A construct of the markup language that a traversal does not handle.
#[derive(Debug, Clone, Copy, PartialEq, Eq, Structural)]
pub enum Feature {
    Comment,
    CData,
    Declaration,
    ProcessingInstruction,
    SelfClosingTag,
}

impl Feature {
    /// The construct in words.
    pub open spec fn spec_name(self) -> Seq<char> {
        match self {
            Feature::Comment => "comments"@,
            Feature::CData => "CDATA sections"@,
            Feature::Declaration => "XML declarations"@,
            Feature::ProcessingInstruction => "processing instructions"@,
            Feature::SelfClosingTag => "self-closing tags"@,
        }
    }

    /// The construct in words.
    pub fn name(self) -> (r: &'static str)
        ensures
            r@ == self.spec_name(),
    {
        match self {
            Feature::Comment => "comments",
            Feature::CData => "CDATA sections",
            Feature::Declaration => "XML declarations",
            Feature::ProcessingInstruction => "processing instructions",
            Feature::SelfClosingTag => "self-closing tags",
        }
    }
}

/// What went wrong, without the details.
#[derive(Debug, Clone, Copy, PartialEq, Eq, Structural)]
pub enum ErrorKind {
    /// An end tag does not name the innermost open element.
    MalformedDocument,
    /// The tokenizer rejected its input.
    TokenizerError,
    /// The document uses a construct that is not handled.
    UnsupportedFeature,
    /// The output could not be written.
    SerializationError,
}

/// A failure of a traversal. Every one is fatal: the traversal it comes
/// from yields nothing more.
#[derive(Debug)]
pub enum TraversalError {
    /// An end tag named `found` at a point where `depth` elements were open,
    /// the innermost of them called `expected`.
    MalformedDocument { depth: usize, expected: Option<String>, found: String },
    /// The tokenizer rejected its input where `depth` elements were open.
    TokenizerError { depth: usize, message: String },
    /// An unhandled construct appeared where `depth` elements were open.
    UnsupportedFeature { depth: usize, feature: Feature },
    /// The output could not be written.
    SerializationError { message: String },
}

/// Mathematical value of a failure.
pub ghost enum TraversalErrorView {
    MalformedDocument { depth: usize, expected: Option<Seq<char>>, found: Seq<char> },
    TokenizerError { depth: usize, message: Seq<char> },
    UnsupportedFeature { depth: usize, feature: Feature },
    SerializationError { message: Seq<char> },
}

impl View for TraversalError {
    type V = TraversalErrorView;

    open spec fn view(&self) -> TraversalErrorView {
        match self {
            TraversalError::MalformedDocument { depth, expected, found } => {
                TraversalErrorView::MalformedDocument {
                    depth: *depth,
                    expected: match expected {
                        Some(name) => Some(name@),
                        None => None,
                    },
                    found: found@,
                }
            },
            TraversalError::TokenizerError { depth, message } => TraversalErrorView::TokenizerError {
                depth: *depth,
                message: message@,
            },
            TraversalError::UnsupportedFeature { depth, feature } => {
                TraversalErrorView::UnsupportedFeature { depth: *depth, feature: *feature }
            },
            TraversalError::SerializationError { message } => {
                TraversalErrorView::SerializationError { message: message@ }
            },
        }
    }
}

impl TraversalErrorView {
    /// The kind of the failure.
    pub open spec fn kind(self) -> ErrorKind {
        match self {
            TraversalErrorView::MalformedDocument { .. } => ErrorKind::MalformedDocument,
            TraversalErrorView::TokenizerError { .. } => ErrorKind::TokenizerError,
            TraversalErrorView::UnsupportedFeature { .. } => ErrorKind::UnsupportedFeature,
            TraversalErrorView::SerializationError { .. } => ErrorKind::SerializationError,
        }
    }
}

/// The value of what a fallible step has come to.
pub open spec fn outcome(r: Result<(), TraversalError>) -> Result<(), TraversalErrorView> {
    match r {
        Ok(()) => Ok(()),
        Err(e) => Err(e@),
    }
}

/// What a failure says of itself.
pub open spec fn message_text(error: TraversalErrorView) -> Seq<char> {
    match error {
        TraversalErrorView::MalformedDocument { expected: Some(name), found, .. } => "end tag `"@
            + found + "` where `"@ + name + "` is open"@,
        TraversalErrorView::MalformedDocument { expected: None, found, .. } => "end tag `"@ + found
            + "` where no element is open"@,
        TraversalErrorView::TokenizerError { message, .. } => message,
        TraversalErrorView::UnsupportedFeature { feature, .. } => feature.spec_name()
            + " are not supported"@,
        TraversalErrorView::SerializationError { message } => message,
    }
}

impl TraversalError {
    /// What the failure says of itself.
    pub fn message(&self) -> (r: String)
        ensures
            r@ == message_text(self@),
    {
        match self {
            TraversalError::MalformedDocument { expected: Some(name), found, .. } => {
                "end tag `".to_owned().concat(found.as_str()).concat("` where `").concat(
                    name.as_str(),
                ).concat("` is open")
            },
            TraversalError::MalformedDocument { expected: None, found, .. } => {
                "end tag `".to_owned().concat(found.as_str()).concat("` where no element is open")
            },
            TraversalError::TokenizerError { message, .. } => message.clone(),
            TraversalError::UnsupportedFeature { feature, .. } => {
                feature.name().to_owned().concat(" are not supported")
            },
            TraversalError::SerializationError { message } => message.clone(),
        }
    }

    pub open spec fn spec_kind(&self) -> ErrorKind {
        match self {
            TraversalError::MalformedDocument { .. } => ErrorKind::MalformedDocument,
            TraversalError::TokenizerError { .. } => ErrorKind::TokenizerError,
            TraversalError::UnsupportedFeature { .. } => ErrorKind::UnsupportedFeature,
            TraversalError::SerializationError { .. } => ErrorKind::SerializationError,
        }
    }

    /// The kind of the failure.
    #[verifier::when_used_as_spec(spec_kind)]
    pub fn kind(&self) -> (r: ErrorKind)
        ensures
            r == self.spec_kind(),
    {
        match self {
            TraversalError::MalformedDocument { .. } => ErrorKind::MalformedDocument,
            TraversalError::TokenizerError { .. } => ErrorKind::TokenizerError,
            TraversalError::UnsupportedFeature { .. } => ErrorKind::UnsupportedFeature,
            TraversalError::SerializationError { .. } => ErrorKind::SerializationError,
        }
    }
}

} // verus!
