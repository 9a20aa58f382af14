use minigrep::{Config, ConfigError};

fn args(list: &[&str]) -> Vec<String> {
    list.iter().map(|arg| arg.to_string()).collect()
}

#[test]
fn no_argument_is_a_missing_query() {
    assert_eq!(Config::new(&args(&[]), false), Err(ConfigError::MissingQuery));
    assert_eq!(Config::new(&args(&[]), true), Err(ConfigError::MissingQuery));
}

#[test]
fn one_argument_is_a_missing_filename() {
    assert_eq!(
        Config::new(&args(&["needle"]), false),
        Err(ConfigError::MissingFilename)
    );
    assert_eq!(
        Config::new(&args(&["--case-insensitive"]), true),
        Err(ConfigError::MissingFilename)
    );
}

#[test]
fn two_arguments_resolve() {
    let config = Config::new(&args(&["needle", "haystack.txt"]), false).unwrap();
    assert_eq!(config.query, "needle");
    assert_eq!(config.filename, "haystack.txt");
    assert!(config.case_sensitive);
}

#[test]
fn environment_switches_case_off() {
    let config = Config::new(&args(&["needle", "haystack.txt"]), true).unwrap();
    assert_eq!(
        config,
        Config {
            query: String::from("needle"),
            filename: String::from("haystack.txt"),
            case_sensitive: false,
        }
    );
}

#[test]
fn flag_switches_case_off() {
    let list = args(&["needle", "haystack.txt", "--case-insensitive"]);
    assert!(!Config::new(&list, false).unwrap().case_sensitive);
    assert!(!Config::new(&list, true).unwrap().case_sensitive);
}

#[test]
fn other_third_argument_is_ignored() {
    for third in ["--case-sensitive", "--case-insensitiv", "--CASE-INSENSITIVE", "", "-i"] {
        let list = args(&["needle", "haystack.txt", third]);
        assert_eq!(
            Config::new(&list, false),
            Config::new(&args(&["needle", "haystack.txt"]), false)
        );
        assert!(Config::new(&list, false).unwrap().case_sensitive);
        assert!(!Config::new(&list, true).unwrap().case_sensitive);
    }
}

#[test]
fn flag_counts_in_third_place_only() {
    let fourth = args(&["needle", "haystack.txt", "other", "--case-insensitive"]);
    assert!(Config::new(&fourth, false).unwrap().case_sensitive);
    let second = args(&["needle", "--case-insensitive"]);
    let config = Config::new(&second, false).unwrap();
    assert_eq!(config.filename, "--case-insensitive");
    assert!(config.case_sensitive);
}

#[test]
fn further_arguments_are_ignored() {
    let three = args(&["needle", "haystack.txt", "--case-insensitive"]);
    let five = args(&["needle", "haystack.txt", "--case-insensitive", "more", "still more"]);
    assert_eq!(Config::new(&five, false), Config::new(&three, false));
    assert_eq!(Config::new(&five, true), Config::new(&three, true));
}

#[test]
fn empty_arguments_are_taken_as_given() {
    let config = Config::new(&args(&["", ""]), false).unwrap();
    assert_eq!(config.query, "");
    assert_eq!(config.filename, "");
    assert!(config.case_sensitive);
}

#[test]
fn error_messages() {
    assert_eq!(ConfigError::MissingQuery.message(), "Didn't get a query string");
    assert_eq!(ConfigError::MissingFilename.message(), "Didn't get a file name");
}
