use grow::cli::{Args, ArgsError};
use std::path::PathBuf;

#[test]
fn test_default_args() {
    let args = Args::try_parse_from(&["grow"]).unwrap();
    assert_eq!(args.port, 8080);
    assert_eq!(args.host, "0.0.0.0");
    assert_eq!(PathBuf::from(&args.directory), PathBuf::from("."));
}

#[test]
fn test_custom_port() {
    let args = Args::try_parse_from(&["grow", "--port", "3000"]).unwrap();
    assert_eq!(args.port, 3000);
}

#[test]
fn test_custom_host() {
    let args = Args::try_parse_from(&["grow", "--host", "127.0.0.1"]).unwrap();
    assert_eq!(args.host, "127.0.0.1");
}

#[test]
fn test_custom_directory() {
    let args = Args::try_parse_from(&["grow", "/tmp"]).unwrap();
    assert_eq!(PathBuf::from(&args.directory), PathBuf::from("/tmp"));
}

#[test]
fn test_all_custom_args() {
    let args = Args::try_parse_from(&["grow", "--port", "9090", "--host", "localhost", "/var/www"]).unwrap();
    assert_eq!(args.port, 9090);
    assert_eq!(args.host, "localhost");
    assert_eq!(PathBuf::from(&args.directory), PathBuf::from("/var/www"));
}

#[test]
fn equals_forms_are_accepted() {
    let args = Args::try_parse_from(&["grow", "--port=65535", "--host=::1"]).unwrap();
    assert_eq!(args.port, 65535);
    assert_eq!(args.host, "::1");
    assert_eq!(args.directory, ".");
}

#[test]
fn double_dash_makes_the_rest_positional() {
    let args = Args::try_parse_from(&["grow", "--", "--port"]).unwrap();
    assert_eq!(args.directory, "--port");
    assert_eq!(args.port, 8080);
}

#[test]
fn port_out_of_range_is_refused() {
    assert!(matches!(Args::try_parse_from(&["grow", "--port", "65536"]), Err(ArgsError::InvalidPort)));
    assert!(matches!(Args::try_parse_from(&["grow", "--port", "80a"]), Err(ArgsError::InvalidPort)));
    assert!(matches!(Args::try_parse_from(&["grow", "--port="]), Err(ArgsError::InvalidPort)));
}

#[test]
fn command_line_errors() {
    assert!(matches!(Args::try_parse_from(&["grow", "--verbose"]), Err(ArgsError::UnknownOption)));
    assert!(matches!(Args::try_parse_from(&["grow", "--port"]), Err(ArgsError::MissingValue)));
    assert!(matches!(
        Args::try_parse_from(&["grow", "--host", "a", "--host", "b"]),
        Err(ArgsError::Repeated)
    ));
    assert!(matches!(Args::try_parse_from(&["grow", "a", "b"]), Err(ArgsError::UnexpectedArgument)));
    assert!(matches!(Args::try_parse_from(&["grow", "-h"]), Err(ArgsError::Help)));
    assert!(matches!(Args::try_parse_from(&["grow", "--help"]), Err(ArgsError::Help)));
}
