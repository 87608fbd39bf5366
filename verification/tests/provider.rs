use window_titles::Connection;
use window_titles::WindowTitleError;

#[test]
fn construction_succeeds() {
    assert!(Connection::new().is_ok());
}

#[test]
fn permission_signature_classifies_the_run() {
    let connection = Connection::new().unwrap();
    let stderr = "123:456: execution error: osascript is not allowed assistive access. (-25211)";
    let stdout = r#"{"ignored even though well-formed"}"#;
    let result = connection.window_titles_from_output(stdout, stderr);
    assert!(matches!(result, Err(WindowTitleError::NoAccessibilityPermission)));
}

#[test]
fn clean_run_returns_parsed_titles() {
    let connection = Connection::new().unwrap();
    let stdout = r#"{{}, {"0"}, {"1", "2"}}"#;
    let titles = connection.window_titles_from_output(stdout, "").unwrap();
    assert_eq!(titles, vec!["0", "1", "2"]);
}

#[test]
fn unrelated_stderr_is_no_permission_failure() {
    let connection = Connection::new().unwrap();
    let titles = connection.window_titles_from_output(r#"{"a"}"#, "some other warning").unwrap();
    assert_eq!(titles, vec!["a"]);
}

#[test]
fn empty_output_is_a_valid_empty_result() {
    let connection = Connection::new().unwrap();
    let titles = connection.window_titles_from_output("", "").unwrap();
    assert_eq!(titles, Vec::<String>::new());
}

#[test]
fn error_messages() {
    assert_eq!(
        WindowTitleError::NoAccessibilityPermission.message(),
        "Permission to use the accessibility API has not been granted"
    );
    assert_eq!(WindowTitleError::ExecuteFailed.message(), "Failed to execute the command");
}
