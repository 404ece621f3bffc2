//! The configuration that the command line gives: input and output paths.
pub mod errors;
pub mod utils;

use vstd::prelude::*;
use vstd::string::*;

use errors::{ConfigError, ConfigErrorModel, FileType};
use utils::{
    get_extension, html_output_path, is_in_ext_supported, is_out_ext_supported, path_extension,
    file_name_span, lemma_file_name_span_bounds, name_extension, stem_end, supported_input_extension, supported_output_extension,
    timestamped_path, with_html_extension, with_timestamp,
};
use crate::text::{CharClass, lemma_trail_len, str_eq, trail_len};

verus! {

pub struct Config {
    pub input: String,
    pub output: String,
    pub overwrite: bool,
}

/// The output path: the given one, or else the input path with the
/// extension `html`.
pub open spec fn resolved_output(input: Seq<char>, output: Option<Seq<char>>) -> Seq<char> {
    match output {
        Some(o) => o,
        None => html_output_path(input),
    }
}

/// What checking a configuration gives: the first failed check, in order:
/// the input must exist; both paths need an extension; the input's must be
/// `md` or `txt`, the output's `html`; the two must differ. When all pass,
/// the output path to write: the given one, or, when a file exists there
/// and is not to be overwritten, the name with the timestamp added, so
/// that the existing file is kept.
pub open spec fn validation(
    input: Seq<char>,
    output: Seq<char>,
    overwrite: bool,
    input_exists: bool,
    output_exists: bool,
    timestamp: u64,
) -> Result<Seq<char>, ConfigErrorModel> {
    if !input_exists {
        Err(ConfigErrorModel::MissingFile(input))
    } else {
        match (path_extension(input), path_extension(output)) {
            (None, _) => Err(ConfigErrorModel::InvalidExtension(input)),
            (Some(_), None) => Err(ConfigErrorModel::InvalidExtension(output)),
            (Some(ie), Some(oe)) => if !supported_input_extension(ie) {
                Err(ConfigErrorModel::UnsupportedExtension(ie, FileType::Input))
            } else if !supported_output_extension(oe) {
                Err(ConfigErrorModel::UnsupportedExtension(oe, FileType::Output))
            } else if ie == oe {
                Err(ConfigErrorModel::SameExtension)
            } else if output_exists && !overwrite {
                Ok(timestamped_path(output, timestamp))
            } else {
                Ok(output)
            },
        }
    }
}

/// The supported input and output extensions differ, so checking never
/// finds the two extensions equal.
pub proof fn lemma_validation_never_same_extension(
    input: Seq<char>,
    output: Seq<char>,
    overwrite: bool,
    input_exists: bool,
    output_exists: bool,
    timestamp: u64,
)
    ensures
        validation(input, output, overwrite, input_exists, output_exists, timestamp) != Err::<
            Seq<char>,
            ConfigErrorModel,
        >(ConfigErrorModel::SameExtension),
{
    reveal_strlit("md");
    reveal_strlit("txt");
    reveal_strlit("html");
    if let (Some(ie), Some(oe)) = (path_extension(input), path_extension(output)) {
        if supported_input_extension(ie) && supported_output_extension(oe) {
            assert(ie.len() != oe.len());
        }
    }
}

/// A name conflict keeps the existing file: when a file exists at the
/// output path and is not to be overwritten, the output path that checking
/// gives is another path, in the same directory, whose name ends in
/// `.html`.
pub proof fn lemma_conflict_keeps_existing_file(
    input: Seq<char>,
    output: Seq<char>,
    overwrite: bool,
    input_exists: bool,
    output_exists: bool,
    timestamp: u64,
)
    requires
        output_exists,
        !overwrite,
    ensures
        validation(input, output, overwrite, input_exists, output_exists, timestamp) matches Ok(o)
            ==> {
            &&& o != output
            &&& file_name_span(output) matches Some((a, _)) && o.take(a) == output.take(a)
            &&& o.len() >= 5 && o.skip(o.len() - 5) == ".html"@
        },
{
    reveal_strlit("_");
    reveal_strlit(".html");
    if let Ok(o) = validation(input, output, overwrite, input_exists, output_exists, timestamp) {
        lemma_file_name_span_bounds(output);
        let (a, b) = file_name_span(output)->0;
        let name = output.subrange(a, b);
        let after = trail_len(name, CharClass::Except('.'));
        lemma_trail_len(name, CharClass::Except('.'));
        let e = stem_end(output)->0;
        assert(path_extension(output) is Some);
        assert(name_extension(name) is Some);
        assert(after + 1 < name.len());
        assert(e == a + name.len() - after - 1);
        assert(0 <= a < b <= output.len());
        assert(output[e] == name[name.len() - after - 1]);
        assert(output[e] == '.');
        assert(o[e] == '_');
        assert(o.take(a) =~= output.take(a));
        assert(o.skip(o.len() - 5) =~= ".html"@);
    }
}

impl Config {
    /// The configuration of the given arguments, with the output path
    /// resolved.
    pub fn from_args(input: String, output: Option<String>, overwrite: bool) -> (c: Config)
        ensures
            c.input@ == input@,
            c.output@ == resolved_output(
                input@,
                match output {
                    Some(o) => Some(o@),
                    None => None,
                },
            ),
            c.overwrite == overwrite,
    {
        let output = match output {
            Some(o) => o,
            None => with_html_extension(input.as_str()),
        };
        Config { input, output, overwrite }
    }

    /// Builds the configuration of the given arguments and checks it.
    /// `input_exists` and `output_exists` tell whether a file exists at the
    /// input path and at the resolved output path; `timestamp` is the time
    /// that names a new output file when the resolved one exists and is not
    /// to be overwritten.
    pub fn build(
        input: String,
        output: Option<String>,
        overwrite: bool,
        input_exists: bool,
        output_exists: bool,
        timestamp: u64,
    ) -> (r: Result<Self, ConfigError>)
        ensures
            ({
                let out = resolved_output(
                    input@,
                    match output {
                        Some(o) => Some(o@),
                        None => None,
                    },
                );
                match validation(input@, out, overwrite, input_exists, output_exists, timestamp) {
                    Ok(o) => r matches Ok(c) && c.input@ == input@ && c.output@ == o
                        && c.overwrite == overwrite,
                    Err(e) => r matches Err(err) && err@ == e,
                }
            }),
    {
        Self::from_args(input, output, overwrite).validate(input_exists, output_exists, timestamp)
    }

    /// Checks the configuration; `input_exists` and `output_exists` tell
    /// whether a file exists at its input and output paths. A name conflict
    /// at the output, when not overwriting, is resolved by adding
    /// `timestamp` to the output file's name.
    pub fn validate(self, input_exists: bool, output_exists: bool, timestamp: u64) -> (r: Result<
        Self,
        ConfigError,
    >)
        ensures
            match validation(
                self.input@,
                self.output@,
                self.overwrite,
                input_exists,
                output_exists,
                timestamp,
            ) {
                Ok(o) => r matches Ok(c) && c.input == self.input && c.output@ == o && c.overwrite
                    == self.overwrite,
                Err(e) => r matches Err(err) && err@ == e,
            },
    {
        if !input_exists {
            return Err(ConfigError::MissingFile { path: self.input });
        }
        let input_file_ext = get_extension(self.input.as_str())?;
        let output_file_ext = get_extension(self.output.as_str())?;
        if !is_in_ext_supported(input_file_ext) {
            return Err(
                ConfigError::UnsupportedExtension {
                    extension: String::from_str(input_file_ext),
                    file_type: FileType::Input,
                },
            );
        }
        if !is_out_ext_supported(output_file_ext) {
            return Err(
                ConfigError::UnsupportedExtension {
                    extension: String::from_str(output_file_ext),
                    file_type: FileType::Output,
                },
            );
        }
        if str_eq(input_file_ext, output_file_ext) {
            return Err(ConfigError::SameExtension);
        }
        if output_exists && !self.overwrite {
            let output = with_timestamp(self.output.as_str(), timestamp);
            return Ok(Config { input: self.input, output, overwrite: self.overwrite });
        }
        Ok(self)
    }
}

} // verus!
