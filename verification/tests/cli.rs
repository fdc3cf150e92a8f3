use cocoa_archive::archiver::ArchiveFormat;
use cocoa_archive::cli::{output_format, parse_generic_argument, str_equal, Format, GenericArgument};

#[test]
fn format_argument_values() {
    assert!(matches!(
        parse_generic_argument("color", "--format", Some("base64".to_string())),
        Ok(GenericArgument::Format(Format::Base64))
    ));
    assert!(matches!(
        parse_generic_argument("font", "-f", Some("binary".to_string())),
        Ok(GenericArgument::Format(Format::Binary))
    ));
}

#[test]
fn invalid_format_value() {
    match parse_generic_argument("color", "-f", Some("xml".to_string())) {
        Err(message) => assert_eq!(message, "invalid format: xml"),
        Ok(_) => panic!("accepted an invalid format"),
    }
}

#[test]
fn missing_value() {
    match parse_generic_argument("color", "--format", None) {
        Err(message) => assert_eq!(message, "missing value for argument: --format"),
        Ok(_) => panic!("accepted a missing value"),
    }
    match parse_generic_argument("color", "--bogus", None) {
        Err(message) => assert_eq!(message, "missing value for argument: --bogus"),
        Ok(_) => panic!("accepted a missing value"),
    }
}

#[test]
fn unknown_argument() {
    match parse_generic_argument("font", "--weight", Some("bold".to_string())) {
        Err(message) => assert_eq!(message, "unknown argument \"--weight\" for command \"font\""),
        Ok(_) => panic!("accepted an unknown argument"),
    }
}

#[test]
fn str_equal_compares_text() {
    assert!(str_equal("-f", "-f"));
    assert!(!str_equal("-f", "-F"));
    assert!(!str_equal("--format", "--form"));
    assert!(str_equal("", ""));
    assert!(str_equal("é", "é"));
}

#[test]
fn output_format_defaults_to_binary() {
    assert!(matches!(output_format(&[]), ArchiveFormat::Binary));
}

#[test]
fn output_format_takes_the_last_format() {
    let args = [
        GenericArgument::Format(Format::Base64),
        GenericArgument::Format(Format::Binary),
    ];
    assert!(matches!(output_format(&args), ArchiveFormat::Binary));
    let args = [
        GenericArgument::Format(Format::Binary),
        GenericArgument::Format(Format::Base64),
    ];
    assert!(matches!(output_format(&args), ArchiveFormat::Base64));
}
