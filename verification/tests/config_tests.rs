use minigrep::run_search;
use minigrep::Config;
use minigrep::GrepError;

#[test]
fn missing_arguments_with_program_name_only() {
    let args = vec!["prog".to_string()];
    let r = Config::new(&args, false);
    assert!(matches!(r, Err(GrepError::MissingArguments)));
}

#[test]
fn missing_arguments_with_one_argument() {
    let args = vec!["prog".to_string(), "foo".to_string()];
    let r = Config::new(&args, false);
    assert!(matches!(r, Err(GrepError::MissingArguments)));
}

#[test]
fn resolves_query_and_filename() {
    let args = vec!["prog".to_string(), "foo".to_string(), "bar.txt".to_string()];
    let config = Config::new(&args, false).unwrap();
    assert_eq!(config.query, "foo");
    assert_eq!(config.filename, "bar.txt");
    assert!(config.case_sensitive);
}

#[test]
fn extra_arguments_are_ignored() {
    let args = vec![
        "prog".to_string(),
        "foo".to_string(),
        "bar.txt".to_string(),
        "extra".to_string(),
    ];
    let config = Config::new(&args, false).unwrap();
    assert_eq!(config.query, "foo");
    assert_eq!(config.filename, "bar.txt");
}

#[test]
fn environment_flag_disables_case_sensitivity() {
    let args = vec!["prog".to_string(), "foo".to_string(), "bar.txt".to_string()];
    let config = Config::new(&args, true).unwrap();
    assert!(!config.case_sensitive);
}

#[test]
fn missing_arguments_message() {
    assert_eq!(
        GrepError::MissingArguments.message(),
        "expected args length is two"
    );
}

#[test]
fn file_read_error_message_carries_cause() {
    let e = GrepError::FileReadError("No such file or directory".to_string());
    assert_eq!(e.message(), "No such file or directory");
}

#[test]
fn run_search_follows_case_sensitivity() {
    let args = vec!["prog".to_string(), "duct".to_string(), "f.txt".to_string()];
    let contents = "Duct tape.\nproduct";

    let sensitive = Config::new(&args, false).unwrap();
    assert_eq!(vec!["product"], run_search(&sensitive, contents));

    let insensitive = Config::new(&args, true).unwrap();
    assert_eq!(vec!["Duct tape.", "product"], run_search(&insensitive, contents));
}
