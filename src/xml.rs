//! Public tokens and the closed error taxonomy of the parser.
use vstd::prelude::*;

verus! {

/// An XML start tag with its attributes, in document order.
#[derive(Debug, PartialEq)]
pub struct StartTag {
    pub name: String,
    pub attrs: Vec<Attr>,
}

/// An XML name/value attribute pair. The value is unquoted and has every
/// reference expanded.
#[derive(Debug, PartialEq)]
pub struct Attr {
    pub name: String,
    pub value: String,
}

/// An XML processing instruction.
#[derive(Debug, PartialEq)]
pub struct ProcInst {
    pub target: String,
    pub inst: String,
}

/// The public tokens handed out by the parser.
#[derive(Debug, PartialEq)]
pub enum Token {
    StartTag(StartTag),
    EndTag(String),
    CharData(String),
    ProcInst(ProcInst),
    EndOfFile,
}

/// Features of XML that are recognized but deliberately not supported.
#[derive(Debug, PartialEq, Eq, Structural, Clone, Copy)]
pub enum Feature {
    ExternalEntities,
    ParameterEntities,
    Notations,
}

/// Declares std's UTF-8 decoding error so that it can be carried unchanged.
#[verifier::external_type_specification]
#[verifier::external_body]
pub struct ExFromUtf8Error(std::string::FromUtf8Error);

/// Parsing errors. Every error is fatal to the parser that produced it.
#[derive(Debug)]
pub enum Error {
    MalformedAttlistDecl,
    MalformedAttValue,
    MalformedByteOrderMark,
    MalformedCData,
    MalformedCharData,
    MalformedCharRef,
    MalformedComment,
    MalformedDoctype,
    MalformedDoctypeEntity,
    MalformedEmptyElemTag,
    MalformedEndTag,
    MalformedEntityDecl,
    MalformedEntityRef,
    MalformedEntityValue,
    MalformedEq,
    MalformedExternalEntity,
    MalformedName,
    MalformedProcInst,
    MalformedStartTag,
    MalformedSystemLiteral,
    MalformedVersionLiteral,
    MalformedXmlDecl,
    MalformedYesNoLiteral,
    MismatchingStartEndTags,
    Utf8Error(std::string::FromUtf8Error),
    UnexpectedEof,
    UnexpectedToken,
    UnmappedEntityRef,
    UnsupportedEncoding,
    UnsupportedFeature(Feature),
}

/// A result whose error is a parsing [`Error`].
pub type Result<T> = std::result::Result<T, Error>;

} // verus!
