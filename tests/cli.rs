use featscan::cli::{read_args, Config, Error as CliError, Mode, Output};

#[test]
fn args() {
    let file_path = "--/file/path";

    let args = [
        "--details",
        "--mode",
        "stats",
        "--verbose",
        "--output",
        "quiet",
        "/wrong/path",
        "",
        "--",
        file_path,
        "--details",
        "--verbose",
    ];

    let config = read_args(&args).unwrap().unwrap();
    assert_eq!(config.file_path(), Some(file_path));
    assert_eq!(config.mode(), Some(Mode::Stats));
    assert_eq!(config.output(), Some(Output::Quiet));
}

#[test]
fn no_args() {
    let args: [&str; 0] = [];
    assert_eq!(read_args(&args).unwrap(), Some(Config::default()));
}

#[test]
fn help() {
    assert_eq!(read_args(&["--details", "foo", "-h", "--foo"]).unwrap(), None);
}

#[test]
fn no_value() {
    assert!(matches!(read_args(&["--mode"]), Err(CliError::NoValue(_))));
}

#[test]
fn invalid_value() {
    assert!(matches!(read_args(&["--mode", "foo"]), Err(CliError::InvalidValue(..))));
}

#[test]
fn unknown_arg() {
    assert!(matches!(read_args(&["--foo"]), Err(CliError::Unknown(_))));
}

#[test]
fn short_options_and_output_values() {
    let config = read_args(&["-s", "-q", "a.out"]).unwrap().unwrap();
    assert_eq!(config.mode(), Some(Mode::Stats));
    assert_eq!(config.output(), Some(Output::Quiet));
    assert_eq!(config.file_path(), Some("a.out"));

    let config = read_args(&["--output", "normal", "-d", "--mode", "detect"]).unwrap().unwrap();
    assert_eq!(config.mode(), Some(Mode::Detect));
    assert_eq!(config.output(), Some(Output::Normal));
    assert_eq!(config.file_path(), None);
}

#[test]
fn error_values_name_the_option() {
    assert_eq!(read_args(&["--output"]), Err(CliError::NoValue("--output".to_string())));
    assert_eq!(
        read_args(&["--output", "loud"]),
        Err(CliError::InvalidValue("--output".to_string(), "loud".to_string()))
    );
    assert_eq!(read_args(&["-"]), Err(CliError::Unknown("-".to_string())));
}

#[test]
fn escape_as_last_argument() {
    let config = read_args(&["x", "--"]).unwrap().unwrap();
    assert_eq!(config.file_path(), Some("x"));
}

#[test]
fn output_levels() {
    assert!(Output::Verbose.shows(Output::Normal));
    assert!(Output::Normal.shows(Output::Normal));
    assert!(!Output::Quiet.shows(Output::Normal));
    assert!(!Output::Normal.shows(Output::Verbose));
}
