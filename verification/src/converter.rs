//! Conversion of a Markdown text into HTML, for the paths of a
//! configuration.
pub mod errors;

use vstd::prelude::*;
use vstd::string::*;

use crate::config::Config;
use crate::markdown::document::{doc_block_ok, doc_html};
use crate::markdown::parser::{block_raw, lemma_parse_ok, lemma_parse_raw, parse, spec_parse};
use errors::{ConverterError, ConverterErrorModel};

verus! {

#[derive(Debug)]
pub struct Converter {
    input: String,
    output: String,
    overwrite: bool,
}

/// The value of a converter: its paths and whether it overwrites.
pub struct ConverterModel {
    pub input: Seq<char>,
    pub output: Seq<char>,
    pub overwrite: bool,
}

impl View for Converter {
    type V = ConverterModel;

    closed spec fn view(&self) -> ConverterModel {
        ConverterModel { input: self.input@, output: self.output@, overwrite: self.overwrite }
    }
}

/// How the output file is opened.
#[derive(Debug, PartialEq, Eq, Structural, Clone, Copy)]
pub enum OutputMode {
    /// Create the file, or truncate it if it exists.
    Overwrite,
    /// Create the file; it must not exist.
    CreateNew,
}

/// The HTML that a Markdown text converts into, or the parse error.
pub open spec fn conversion(text: Seq<char>) -> Result<Seq<char>, ConverterErrorModel> {
    match spec_parse(text) {
        Ok(doc) => Ok(doc_html(doc)),
        Err(e) => Err(ConverterErrorModel::Parse(e)),
    }
}

/// Converting never fails: every Markdown text has its HTML.
pub proof fn lemma_conversion_ok(text: Seq<char>)
    ensures
        conversion(text) is Ok,
{
    lemma_parse_ok(text);
}

impl Converter {
    /// The input path.
    pub fn input(&self) -> (s: &str)
        ensures
            s@ == self@.input,
    {
        self.input.as_str()
    }

    /// The output path.
    pub fn output(&self) -> (s: &str)
        ensures
            s@ == self@.output,
    {
        self.output.as_str()
    }

    /// Converts the Markdown text of the input file into HTML: parses it
    /// and renders the document.
    pub fn convert<'a>(&self, text: &'a str) -> (r: Result<String, ConverterError>)
        ensures
            match conversion(text@) {
                Ok(html) => r matches Ok(s) && s@ == html,
                Err(e) => r matches Err(err) && err@ == e,
            },
    {
        proof {
            lemma_parse_raw(text@);
        }
        let md_doc = match parse(text) {
            Ok(d) => d,
            Err(e) => {
                return Err(ConverterError::from(e));
            },
        };
        proof {
            assert forall|i: int| 0 <= i < md_doc@.len() implies doc_block_ok(
                #[trigger] md_doc@[i],
            ) by {
                assert(block_raw(md_doc@[i]));
            }
        }
        Ok(md_doc.to_html())
    }

    /// How the output file is to be opened: truncated when overwriting,
    /// else created anew.
    pub fn output_mode(&self) -> (m: OutputMode)
        ensures
            (m == OutputMode::Overwrite) == self@.overwrite,
    {
        if self.overwrite {
            OutputMode::Overwrite
        } else {
            OutputMode::CreateNew
        }
    }

    /// The error when the output file cannot be opened.
    pub fn open_error(&self) -> (e: ConverterError)
        ensures
            e@ == ConverterErrorModel::UnexpectedErr(
                if self@.overwrite {
                    "opening output file in overwrite mode"@
                } else {
                    "opening output file"@
                },
            ),
    {
        if self.overwrite {
            ConverterError::UnexpectedErr { operation: "opening output file in overwrite mode" }
        } else {
            ConverterError::UnexpectedErr { operation: "opening output file" }
        }
    }

    /// The error when the output cannot be written.
    pub fn write_error() -> (e: ConverterError)
        ensures
            e@ == ConverterErrorModel::UnexpectedErr("writing outout to the file"@),
    {
        ConverterError::UnexpectedErr { operation: "writing outout to the file" }
    }
}

impl From<Config> for Converter {
    fn from(value: Config) -> Self {
        Converter { input: value.input, output: value.output, overwrite: value.overwrite }
    }
}

impl vstd::std_specs::convert::FromSpecImpl<Config> for Converter {
    open spec fn obeys_from_spec() -> bool {
        true
    }

    closed spec fn from_spec(v: Config) -> Self {
        Converter { input: v.input, output: v.output, overwrite: v.overwrite }
    }
}

/// A converter made from a configuration has its paths and mode.
pub proof fn lemma_converter_from(c: Config)
    ensures
        <Converter as vstd::std_specs::convert::FromSpec<Config>>::from_spec(c)@ == (ConverterModel {
            input: c.input@,
            output: c.output@,
            overwrite: c.overwrite,
        }),
{
}

} // verus!
