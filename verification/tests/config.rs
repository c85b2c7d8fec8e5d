use minigrep::config::{Config, ConfigError};

#[test]
fn config_builds_correctly() {
    let expected_query = "test_query";
    let expected_filename = "test_file.txt";
    let args = vec![
        String::from("minigrep"),
        String::from(expected_query),
        String::from(expected_filename),
    ];

    let config = Config::build(&args, false).unwrap();

    assert_eq!(expected_query, config.get_query());
    assert_eq!(expected_filename, config.get_file_path());
    assert_eq!(false, *config.get_case_insensitive());
}

#[test]
fn config_builds_correctly_with_case_insensitive_flag() {
    let expected_query = "test_query";
    let expected_filename = "test_file.txt";
    let args = vec![
        String::from("minigrep"),
        String::from(expected_query),
        String::from(expected_filename),
    ];

    let config = Config::build(&args, true).unwrap();

    assert_eq!(expected_query, config.get_query());
    assert_eq!(expected_filename, config.get_file_path());
    assert_eq!(true, *config.get_case_insensitive());
}

#[test]
fn config_builds_fails_with_missing_query() {
    let args = vec![String::from("minigrep")];
    let config_res = Config::build(&args, false);
    assert!(config_res.is_err());
    assert_eq!(
        "Please input String you want to find e.g. text",
        config_res.unwrap_err().message(),
    );
}

#[test]
fn config_builds_fails_with_missing_filename() {
    let args = vec![String::from("minigrep"), String::from("test_query")];
    let config_res = Config::build(&args, false);
    assert!(config_res.is_err());
    assert_eq!(
        "Please input a location to file you wanted to grep e.g. file.txt",
        config_res.unwrap_err().message(),
    );
}

#[test]
fn io_error_message_passes_through() {
    let err = ConfigError::Io(String::from("No such file or directory"));
    assert_eq!("No such file or directory", err.message());
}
