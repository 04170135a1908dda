use picobench::metadata_target_directory;

#[test]
fn target_directory_is_read_from_the_metadata() {
    let stdout = r#"{"packages":[],"target_directory":"/work/target","version":1}"#;
    assert_eq!(metadata_target_directory(true, stdout), Some("/work/target".to_string()));
}

#[test]
fn failed_command_gives_no_directory() {
    let stdout = r#"{"target_directory":"/work/target"}"#;
    assert_eq!(metadata_target_directory(false, stdout), None);
}

#[test]
fn invalid_json_gives_no_directory() {
    assert_eq!(metadata_target_directory(true, "{\"target_directory\": "), None);
    assert_eq!(metadata_target_directory(true, ""), None);
}

#[test]
fn non_string_member_gives_no_directory() {
    assert_eq!(metadata_target_directory(true, r#"{"target_directory":3}"#), None);
}

#[test]
fn missing_member_gives_no_directory() {
    assert_eq!(metadata_target_directory(true, r#"{"workspace_root":"/work"}"#), None);
}

#[test]
fn non_object_gives_no_directory() {
    assert_eq!(metadata_target_directory(true, r#"["target_directory"]"#), None);
}

#[test]
fn escaped_text_is_decoded() {
    let stdout = r#"{"target_directory":"C:\\build\\target"}"#;
    assert_eq!(metadata_target_directory(true, stdout), Some("C:\\build\\target".to_string()));
}
