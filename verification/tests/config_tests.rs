use minigrep::config::ConfigError;
use minigrep::Config;

fn args(list: &[&str]) -> Vec<String> {
    list.iter().map(|s| String::from(*s)).collect()
}

#[test]
fn missing_path_is_reported() {
    let r = Config::new(&args(&["prog"]));
    assert_eq!(r.err(), Some(ConfigError::MissingPath));
    assert_eq!(ConfigError::MissingPath.message(), "Path must be specified");
}

#[test]
fn missing_query_is_reported() {
    let r = Config::new(&args(&["prog", "notes.txt"]));
    assert_eq!(r.err(), Some(ConfigError::MissingQuery));
    assert_eq!(ConfigError::MissingQuery.message(), "Query must be specified");
}

#[test]
fn flags_default_to_off() {
    let c = Config::new(&args(&["prog", "notes.txt", "rust"])).unwrap();
    assert_eq!(c.path, "notes.txt");
    assert_eq!(c.query, "rust");
    assert!(!c.case_sensitive);
    assert!(!c.is_dir);
}

#[test]
fn true_switches_a_flag_on() {
    let c = Config::new(&args(&["prog", "src", "rust", "true", "true"])).unwrap();
    assert!(c.case_sensitive);
    assert!(c.is_dir);
}

#[test]
fn anything_but_true_leaves_a_flag_off() {
    let c = Config::new(&args(&["prog", "src", "rust", "false", "maybe"])).unwrap();
    assert!(!c.case_sensitive);
    assert!(!c.is_dir);
}
