//! Errors of the command-line configuration.
use vstd::prelude::*;
use vstd::string::*;

verus! {

#[derive(Debug, PartialEq, Eq)]
pub enum ConfigError {
    /// Used when both, input and output files have the same extension -
    /// no-op case
    SameExtension,
    /// Used when the specified file extansion is unsopported for particular
    /// [`FileType`]
    UnsupportedExtension { extension: String, file_type: FileType },
    /// Used when the specified file extansion is missing or invalid
    InvalidExtension { path: String },
    /// Used when [`super::Config::input`] is missing
    MissingFile { path: String },
    /// An output file that exists where the [`super::Config::overwrite`]
    /// parameter is `false`; checking a configuration resolves such a
    /// conflict with a timestamped name instead of returning this error
    FileAlreadyExist { path: String },
    /// Used when some operation failed unexpectedly
    UnexpectedErr { operation: &'static str },
}

#[derive(Debug, PartialEq, Eq, Structural, Clone, Copy)]
pub enum FileType {
    Input,
    Output,
}

/// The value of a configuration error, its texts as character sequences.
pub enum ConfigErrorModel {
    SameExtension,
    UnsupportedExtension(Seq<char>, FileType),
    InvalidExtension(Seq<char>),
    MissingFile(Seq<char>),
    FileAlreadyExist(Seq<char>),
    UnexpectedErr(Seq<char>),
}

impl View for ConfigError {
    type V = ConfigErrorModel;

    open spec fn view(&self) -> ConfigErrorModel {
        match self {
            ConfigError::SameExtension => ConfigErrorModel::SameExtension,
            ConfigError::UnsupportedExtension { extension, file_type } => {
                ConfigErrorModel::UnsupportedExtension(extension@, *file_type)
            },
            ConfigError::InvalidExtension { path } => ConfigErrorModel::InvalidExtension(path@),
            ConfigError::MissingFile { path } => ConfigErrorModel::MissingFile(path@),
            ConfigError::FileAlreadyExist { path } => ConfigErrorModel::FileAlreadyExist(path@),
            ConfigError::UnexpectedErr { operation } => ConfigErrorModel::UnexpectedErr(
                operation@,
            ),
        }
    }
}

/// The name of a file type.
pub open spec fn file_type_name(t: FileType) -> Seq<char> {
    match t {
        FileType::Input => "input"@,
        FileType::Output => "output"@,
    }
}

/// The message that describes a configuration error.
pub open spec fn config_error_message(e: ConfigErrorModel) -> Seq<char> {
    match e {
        ConfigErrorModel::SameExtension => "input and output file must have different extensions"@,
        ConfigErrorModel::UnsupportedExtension(extension, file_type) => "unsupported "@
            + file_type_name(file_type) + " file extension: "@ + extension,
        ConfigErrorModel::InvalidExtension(path) => "failed to read file extension from path: "@
            + path,
        ConfigErrorModel::MissingFile(path) => "file does not exist: "@ + path,
        ConfigErrorModel::FileAlreadyExist(path) => "file does already exist: "@ + path,
        ConfigErrorModel::UnexpectedErr(operation) => "unexpected error happend during "@
            + operation,
    }
}

impl FileType {
    /// The name of the file type, as its `Display` shows it.
    pub fn to_string(&self) -> (s: String)
        ensures
            s@ == file_type_name(*self),
    {
        match self {
            FileType::Input => String::from_str("input"),
            FileType::Output => String::from_str("output"),
        }
    }
}

fn message_with(prefix: &str, text: &str) -> (s: String)
    ensures
        s@ == prefix@ + text@,
{
    let mut s = String::from_str(prefix);
    s.append(text);
    s
}

impl ConfigError {
    /// The error's message, as its `Display` shows it.
    pub fn message(&self) -> (s: String)
        ensures
            s@ == config_error_message(self@),
    {
        match self {
            ConfigError::SameExtension => String::from_str(
                "input and output file must have different extensions",
            ),
            ConfigError::UnsupportedExtension { extension, file_type } => {
                let name = file_type.to_string();
                let mut s = String::from_str("unsupported ");
                s.append(name.as_str());
                s.append(" file extension: ");
                s.append(extension.as_str());
                s
            },
            ConfigError::InvalidExtension { path } => message_with(
                "failed to read file extension from path: ",
                path.as_str(),
            ),
            ConfigError::MissingFile { path } => message_with(
                "file does not exist: ",
                path.as_str(),
            ),
            ConfigError::FileAlreadyExist { path } => message_with(
                "file does already exist: ",
                path.as_str(),
            ),
            ConfigError::UnexpectedErr { operation } => message_with(
                "unexpected error happend during ",
                operation,
            ),
        }
    }
}

} // verus!
