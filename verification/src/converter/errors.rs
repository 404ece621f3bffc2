//! Errors of the conversion.
use vstd::prelude::*;
use vstd::string::*;

use crate::markdown::parser::errors::{ParserError, ParserErrorModel, parser_error_message};

verus! {

#[derive(Debug, PartialEq, Eq)]
pub enum ConverterError {
    /// Used when some operation failed unexpectedly
    UnexpectedErr { operation: &'static str },
    /// Used when some operation failed unexpectedly
    FileAlreadyExist { path: &'static str },
    /// Used when parser failed internally
    Parse(ParserError),
}

/// The value of a conversion error.
pub enum ConverterErrorModel {
    UnexpectedErr(Seq<char>),
    FileAlreadyExist(Seq<char>),
    Parse(ParserErrorModel),
}

impl View for ConverterError {
    type V = ConverterErrorModel;

    open spec fn view(&self) -> ConverterErrorModel {
        match self {
            ConverterError::UnexpectedErr { operation } => ConverterErrorModel::UnexpectedErr(
                operation@,
            ),
            ConverterError::FileAlreadyExist { path } => ConverterErrorModel::FileAlreadyExist(
                path@,
            ),
            ConverterError::Parse(e) => ConverterErrorModel::Parse(e@),
        }
    }
}

/// The message that describes a conversion error.
pub open spec fn converter_error_message(e: ConverterErrorModel) -> Seq<char> {
    match e {
        ConverterErrorModel::UnexpectedErr(operation) => "unexpected error happend during "@
            + operation,
        ConverterErrorModel::FileAlreadyExist(path) => "file with the path '"@ + path
            + "' already exists"@,
        ConverterErrorModel::Parse(e) => "failed to parse input: "@ + parser_error_message(e),
    }
}

impl ConverterError {
    /// The error's message, as its `Display` shows it.
    pub fn message(&self) -> (s: String)
        ensures
            s@ == converter_error_message(self@),
    {
        match self {
            ConverterError::UnexpectedErr { operation } => {
                let mut s = String::from_str("unexpected error happend during ");
                s.append(operation);
                s
            },
            ConverterError::FileAlreadyExist { path } => {
                let mut s = String::from_str("file with the path '");
                s.append(path);
                s.append("' already exists");
                s
            },
            ConverterError::Parse(e) => {
                let m = e.message();
                let mut s = String::from_str("failed to parse input: ");
                s.append(m.as_str());
                s
            },
        }
    }
}

impl From<ParserError> for ConverterError {
    fn from(value: ParserError) -> Self {
        ConverterError::Parse(value)
    }
}

impl vstd::std_specs::convert::FromSpecImpl<ParserError> for ConverterError {
    open spec fn obeys_from_spec() -> bool {
        true
    }

    open spec fn from_spec(v: ParserError) -> Self {
        ConverterError::Parse(v)
    }
}

} // verus!
