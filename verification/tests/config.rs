use mini_http::config::{directory_from_args, is_flag, ConfigError};

fn args(list: &[&str]) -> Vec<String> {
    list.iter().map(|s| s.to_string()).collect()
}

#[test]
fn the_directory_follows_its_option() {
    assert_eq!(
        directory_from_args(&args(&["server", "--directory", "/tmp/files"])),
        Ok(Some("/tmp/files".to_string()))
    );
    assert_eq!(
        directory_from_args(&args(&["--directory", "a", "b"])),
        Ok(Some("a".to_string()))
    );
}

#[test]
fn without_the_option_there_is_no_directory() {
    assert_eq!(directory_from_args(&args(&["server"])), Ok(None));
    assert_eq!(directory_from_args(&args(&[])), Ok(None));
    assert_eq!(directory_from_args(&args(&["server", "-directory", "x"])), Ok(None));
    assert_eq!(directory_from_args(&args(&["server", "--Directory", "x"])), Ok(None));
}

#[test]
fn the_first_option_decides() {
    assert_eq!(
        directory_from_args(&args(&["server", "--directory", "a", "--directory", "b"])),
        Ok(Some("a".to_string()))
    );
    assert_eq!(
        directory_from_args(&args(&["server", "--directory", "--directory", "b"])),
        Ok(Some("--directory".to_string()))
    );
}

#[test]
fn the_option_in_last_place_is_an_error() {
    assert_eq!(
        directory_from_args(&args(&["server", "--directory"])),
        Err(ConfigError::MissingDirectory)
    );
    assert_eq!(directory_from_args(&args(&["--directory"])), Err(ConfigError::MissingDirectory));
}

#[test]
fn only_the_exact_text_is_the_option() {
    assert!(is_flag(&"--directory".to_string()));
    assert!(!is_flag(&"--directory ".to_string()));
    assert!(!is_flag(&"--dir".to_string()));
    assert!(!is_flag(&"".to_string()));
}
