//! Failure taxonomy shared by the extraction protocol and surfaced to callers.

use vstd::prelude::*;

verus! {

/// A failure raised while decoding a tag-tree document into a typed value,
/// naming the offending input and, where relevant, the target kind.
#[derive(Debug, Clone, PartialEq, Eq)]
pub enum DecodeError {
    /// A text token that belongs to neither boolean word bucket.
    BoolToken { token: String },
    /// A text token that does not parse as the target integer kind.
    IntToken { token: String, kind: crate::coerce::IntKind },
    /// A text token that is not a well-formed floating-point literal.
    FloatToken { token: String },
    /// A scalar-valued tag that unexpectedly contains a child element.
    UnexpectedChild { name: String },
    /// A sequence tag with a child that is not an `item` wrapper, or with
    /// stray text content; carries the offending child name or text.
    SequenceShape { found: String },
    /// A map entry lacking its `key` or `value` sub-tag; carries the name of
    /// the missing sub-tag.
    EntryShape { missing: String },
    /// A required (non-optional) field tag that is absent.
    MissingField { name: String },
    /// A variant document whose outer tag matches no declared variant;
    /// carries the tag found and every accepted variant name.
    UnknownVariant { found: String, accepted: Vec<String> },
}

/// Images of a list of names, in order.
pub open spec fn strs_of(s: Seq<String>) -> Seq<Seq<char>>
    decreases s,
{
    if s.len() == 0 {
        Seq::empty()
    } else {
        seq![s[0]@] + strs_of(s.skip(1))
    }
}

pub proof fn lemma_strs_of(s: Seq<String>)
    ensures
        strs_of(s).len() == s.len(),
        forall|i: int| 0 <= i < s.len() ==> strs_of(s)[i] == #[trigger] s[i]@,
    decreases s.len(),
{
    if s.len() > 0 {
        lemma_strs_of(s.skip(1));
        assert(forall|i: int| 1 <= i < s.len() ==> s.skip(1)[i - 1] == #[trigger] s[i]);
    }
}

/// The mathematical image of a decode failure.
pub enum DecodeErrModel {
    BoolTokM(Seq<char>),
    IntTokM(Seq<char>, crate::coerce::IntKind),
    FloatTokM(Seq<char>),
    UnexpectedChildM(Seq<char>),
    SequenceShapeM(Seq<char>),
    EntryShapeM(Seq<char>),
    MissingFieldM(Seq<char>),
    UnknownVariantM(Seq<char>, Seq<Seq<char>>),
}

impl DecodeError {
    /// The failure's mathematical image.
    pub open spec fn model(self) -> DecodeErrModel {
        match self {
            DecodeError::BoolToken { token } => DecodeErrModel::BoolTokM(token@),
            DecodeError::IntToken { token, kind } => DecodeErrModel::IntTokM(token@, kind),
            DecodeError::FloatToken { token } => DecodeErrModel::FloatTokM(token@),
            DecodeError::UnexpectedChild { name } => DecodeErrModel::UnexpectedChildM(name@),
            DecodeError::SequenceShape { found } => DecodeErrModel::SequenceShapeM(found@),
            DecodeError::EntryShape { missing } => DecodeErrModel::EntryShapeM(missing@),
            DecodeError::MissingField { name } => DecodeErrModel::MissingFieldM(name@),
            DecodeError::UnknownVariant { found, accepted } => DecodeErrModel::UnknownVariantM(
                found@,
                strs_of(accepted@),
            ),
        }
    }
}

/// A failure observed while requesting structured output from the model.
#[derive(Debug)]
pub enum RequestError {
    /// The transport collaborator failed to execute the completion request;
    /// carries the transport's own diagnostic. Terminal: never retried here.
    ChatRequest(String),
    /// The attempt budget was exhausted; carries every error recorded during
    /// the session, in attempt order.
    RetryLimitExceeded(Vec<RequestError>),
    /// A payload was located but failed the shape or coercion rules; carries
    /// the decoder's diagnostic message.
    XmlDeserialization(String),
    /// The root-tag boundaries could not be located in the response text.
    XmlExtraction(String),
}

impl RequestError {
    /// True for the failures that end a session at once rather than
    /// scheduling a corrective retry round.
    pub fn is_terminal(&self) -> (r: bool)
        ensures
            r == (self is ChatRequest || self is RetryLimitExceeded),
    {
        match self {
            RequestError::ChatRequest(_) => true,
            RequestError::RetryLimitExceeded(_) => true,
            RequestError::XmlDeserialization(_) => false,
            RequestError::XmlExtraction(_) => false,
        }
    }
}

} // verus!
