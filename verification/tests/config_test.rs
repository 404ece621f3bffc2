use martes::config::Config;
use martes::config::errors::{ConfigError, FileType};
use martes::config::utils::{
    decimal_string, get_extension, is_in_ext_supported, is_out_ext_supported, with_html_extension,
    with_timestamp,
};
use martes::converter::errors::ConverterError;
use martes::converter::{Converter, OutputMode};
use martes::markdown::parser::errors::ParserError;

#[test]
fn default_output_takes_html_extension() {
    let c = Config::from_args(String::from("/path/file.md"), None, false);
    assert_eq!(c.output, "/path/file.html");
    assert_eq!(c.input, "/path/file.md");
    let c = Config::from_args(String::from("in.md"), Some(String::from("out.html")), true);
    assert_eq!(c.output, "out.html");
    assert!(c.overwrite);
}

#[test]
fn html_extension_of_paths() {
    assert_eq!(with_html_extension("notes.txt"), "notes.html");
    assert_eq!(with_html_extension("a/b.tar.gz"), "a/b.tar.html");
    assert_eq!(with_html_extension(".bashrc"), ".bashrc.html");
    assert_eq!(with_html_extension("a/b.md/"), "a/b.html");
    assert_eq!(with_html_extension("noext"), "noext.html");
    assert_eq!(with_html_extension("a/.."), "a/..");
    assert_eq!(with_html_extension("/"), "/");
    assert_eq!(with_html_extension(""), "");
}

#[test]
fn extensions_of_paths() {
    assert_eq!(get_extension("a/b.md"), Ok("md"));
    assert_eq!(get_extension("foo."), Ok(""));
    assert_eq!(get_extension("x/y.md/."), Ok("md"));
    assert_eq!(get_extension("..a"), Ok("a"));
    assert_eq!(
        get_extension(".bashrc"),
        Err(ConfigError::InvalidExtension { path: String::from(".bashrc") })
    );
    assert_eq!(get_extension("x/.."), Err(ConfigError::InvalidExtension { path: String::from("x/..") }));
    assert_eq!(get_extension(""), Err(ConfigError::InvalidExtension { path: String::new() }));
    assert!(is_in_ext_supported("md"));
    assert!(is_in_ext_supported("txt"));
    assert!(!is_in_ext_supported("html"));
    assert!(is_out_ext_supported("html"));
    assert!(!is_out_ext_supported("htm"));
}

#[test]
fn validation_errors_in_order() {
    let build = |i: &str, o: Option<&str>, ow: bool, ie: bool, oe: bool| {
        Config::build(String::from(i), o.map(String::from), ow, ie, oe, 1700000000)
    };
    assert_eq!(
        build("a.md", None, false, false, true).err(),
        Some(ConfigError::MissingFile { path: String::from("a.md") })
    );
    let renamed = build("a.md", None, false, true, true).unwrap();
    assert_eq!(renamed.output, "a_1700000000.html");
    assert_eq!(renamed.input, "a.md");
    assert!(!renamed.overwrite);
    let renamed = build("in.txt", Some("dir/out.html"), false, true, true).unwrap();
    assert_eq!(renamed.output, "dir/out_1700000000.html");
    assert_eq!(
        build("a.rs", None, false, true, true).err(),
        Some(ConfigError::UnsupportedExtension { extension: String::from("rs"), file_type: FileType::Input })
    );
    assert_eq!(
        build("README", Some("out.html"), false, true, false).err(),
        Some(ConfigError::InvalidExtension { path: String::from("README") })
    );
    assert_eq!(
        build("a.md", Some("out"), false, true, false).err(),
        Some(ConfigError::InvalidExtension { path: String::from("out") })
    );
    assert_eq!(
        build("a.rs", None, false, true, false).err(),
        Some(ConfigError::UnsupportedExtension { extension: String::from("rs"), file_type: FileType::Input })
    );
    assert_eq!(
        build("a.md", Some("b.txt"), false, true, false).err(),
        Some(ConfigError::UnsupportedExtension {
            extension: String::from("txt"),
            file_type: FileType::Output
        })
    );
    let ok = build("a.md", None, true, true, true).unwrap();
    assert_eq!(ok.output, "a.html");
    assert!(ok.overwrite);
}

#[test]
fn config_error_messages() {
    assert_eq!(FileType::Input.to_string(), "input");
    assert_eq!(FileType::Output.to_string(), "output");
    assert_eq!(ConfigError::SameExtension.message(), "input and output file must have different extensions");
    assert_eq!(
        ConfigError::UnsupportedExtension { extension: String::from("rs"), file_type: FileType::Input }
            .message(),
        "unsupported input file extension: rs"
    );
    assert_eq!(
        ConfigError::InvalidExtension { path: String::from("x") }.message(),
        "failed to read file extension from path: x"
    );
    assert_eq!(ConfigError::MissingFile { path: String::from("x") }.message(), "file does not exist: x");
    assert_eq!(
        ConfigError::FileAlreadyExist { path: String::from("x") }.message(),
        "file does already exist: x"
    );
    assert_eq!(
        ConfigError::UnexpectedErr { operation: "reading" }.message(),
        "unexpected error happend during reading"
    );
}

#[test]
fn converter_converts_text() {
    let config = Config::build(String::from("doc.md"), None, false, true, false, 0).unwrap();
    let c = Converter::from(config);
    assert_eq!(c.input(), "doc.md");
    assert_eq!(c.output(), "doc.html");
    assert_eq!(c.output_mode(), OutputMode::CreateNew);
    assert_eq!(c.convert("# T\n\ntext"), Ok(String::from("<h1>T</h1>\n<p>text</p>\n")));
    assert_eq!(c.convert("- # foo\n> q"), Ok(String::new()));
    let err = ConverterError::from(ParserError::InvalidContainer { block_type: String::from("X") });
    assert_eq!(err.message(), "failed to parse input: X cannot be used as a contaier block");
    assert_eq!(c.open_error().message(), "unexpected error happend during opening output file");
    let w = Converter::write_error();
    assert_eq!(w.message(), "unexpected error happend during writing outout to the file");
}

#[test]
fn converter_overwrite_mode() {
    let config = Config::build(String::from("doc.md"), None, true, true, true, 5).unwrap();
    assert_eq!(config.output, "doc.html");
    let c = Converter::from(config);
    assert_eq!(c.output_mode(), OutputMode::Overwrite);
    assert_eq!(
        c.open_error(),
        ConverterError::UnexpectedErr { operation: "opening output file in overwrite mode" }
    );
    assert_eq!(
        ConverterError::from(ParserError::ExpectedRawContent),
        ConverterError::Parse(ParserError::ExpectedRawContent)
    );
    assert_eq!(
        ConverterError::FileAlreadyExist { path: "p" }.message(),
        "file with the path 'p' already exists"
    );
}

#[test]
fn timestamped_output_names() {
    assert_eq!(decimal_string(0), "0");
    assert_eq!(decimal_string(9), "9");
    assert_eq!(decimal_string(10), "10");
    assert_eq!(decimal_string(18446744073709551615), "18446744073709551615");
    assert_eq!(with_timestamp("a/b.html", 42), "a/b_42.html");
    assert_eq!(with_timestamp("b.tar.html", 7), "b.tar_7.html");
    assert_eq!(with_timestamp("a/b.html/", 3), "a/b_3.html");
    let c = Config::from_args(String::from("x.md"), Some(String::from("y.html")), false);
    let v = c.validate(true, true, 12).unwrap();
    assert_eq!(v.output, "y_12.html");
    let c = Config::from_args(String::from("x.md"), Some(String::from("y.html")), false);
    assert_eq!(c.validate(true, false, 12).unwrap().output, "y.html");
    let c = Config::from_args(String::from("x.md"), Some(String::from("y.html")), true);
    assert_eq!(c.validate(true, true, 12).unwrap().output, "y.html");
}
