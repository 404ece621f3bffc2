//! Errors of the Markdown parser.
use vstd::prelude::*;
use vstd::string::*;

verus! {

#[derive(Debug, PartialEq, Eq)]
pub enum ParserError {
    /// Used when a leaf block appeared to be in the place of
    /// a parent for another block
    InvalidContainer { block_type: String },
    /// Used when a block cannot be used as a child for another block.
    ///
    /// Example: a list cannot contain a paragraph as a child;
    /// it can contain only list items.
    InvalidChild { parent: String, child: String },
    /// Used inline content was expected to be raw
    ExpectedRawContent,
}

/// The value of a parser error, its texts as character sequences.
pub enum ParserErrorModel {
    InvalidContainer(Seq<char>),
    InvalidChild(Seq<char>, Seq<char>),
    ExpectedRawContent,
}

impl View for ParserError {
    type V = ParserErrorModel;

    open spec fn view(&self) -> ParserErrorModel {
        match self {
            ParserError::InvalidContainer { block_type } => ParserErrorModel::InvalidContainer(
                block_type@,
            ),
            ParserError::InvalidChild { parent, child } => ParserErrorModel::InvalidChild(
                parent@,
                child@,
            ),
            ParserError::ExpectedRawContent => ParserErrorModel::ExpectedRawContent,
        }
    }
}

/// The message that describes a parser error.
pub open spec fn parser_error_message(e: ParserErrorModel) -> Seq<char> {
    match e {
        ParserErrorModel::InvalidContainer(block_type) => block_type
            + " cannot be used as a contaier block"@,
        ParserErrorModel::InvalidChild(parent, child) => child + " cannot be used as a child of "@
            + parent,
        ParserErrorModel::ExpectedRawContent => "the content must be raw at this point"@,
    }
}

impl ParserError {
    /// The error's message, as its `Display` shows it.
    pub fn message(&self) -> (s: String)
        ensures
            s@ == parser_error_message(self@),
    {
        match self {
            ParserError::InvalidContainer { block_type } => {
                let mut s = String::new();
                s.append(block_type.as_str());
                s.append(" cannot be used as a contaier block");
                s
            },
            ParserError::InvalidChild { parent, child } => {
                let mut s = String::new();
                s.append(child.as_str());
                s.append(" cannot be used as a child of ");
                s.append(parent.as_str());
                s
            },
            ParserError::ExpectedRawContent => String::from_str(
                "the content must be raw at this point",
            ),
        }
    }
}

} // verus!
