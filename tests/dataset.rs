use hazojsondiff::diff_json_strs;
use hazojsondiff::errors::JsonDiffErrorType;

#[test]
fn test_diff_json_strs_no_diff() {
    let a = r#"{"taxons":[],"characters":[],"states":[],"books":[]}"#;
    let b = r#"{"taxons":[],"characters":[],"states":[],"books":[]}"#;
    let mut buf = String::new();
    diff_json_strs(a, b, &mut buf).unwrap();
    assert_eq!(buf, "{\"taxons\":{\"added\":[],\"removed\":[]},\"characters\":{\"added\":[],\"removed\":[]},\"states\":{\"added\":[],\"removed\":[]},\"books\":{\"added\":[],\"removed\":[]}}"
    );
}

#[test]
fn test_diff_json_strs_added_taxon() {
    let a = r#"{"taxons":[],"characters":[],"states":[],"books":[]}"#;
    let b = r#"{"taxons":[{"id":1}],"characters":[],"states":[],"books":[]}"#;
    let mut buf = String::new();
    diff_json_strs(a, b, &mut buf).unwrap();
    assert!(buf.contains("\"taxons\":{\"added\":[{\"id\":1}],\"removed\":[]}"));
}

#[test]
fn test_diff_json_strs_removed_book() {
    let a = r#"{"taxons":[],"characters":[],"states":[],"books":[{"id":42}]}"#;
    let b = r#"{"taxons":[],"characters":[],"states":[],"books":[]}"#;
    let mut buf = String::new();
    diff_json_strs(a, b, &mut buf).unwrap();
    assert!(buf.contains("\"books\":{\"added\":[],\"removed\":[{\"id\":42}]}"));
}

#[test]
fn test_diff_json_strs_modified_state() {
    let a = r#"{"taxons":[],"characters":[],"states":[{"id":1,"name":"A"}],"books":[]}"#;
    let b = r#"{"taxons":[],"characters":[],"states":[{"id":1,"name":"B"}],"books":[]}"#;
    let mut buf = String::new();
    diff_json_strs(a, b, &mut buf).unwrap();
    assert!(buf.contains("\"states\":{\"added\":[],\"removed\":[],\"modified\":[{\"name\":{\"old\":\"A\",\"new\":\"B\"}}]}"));
}

#[test]
fn test_diff_json_strs_missing_property() {
    let a = r#"{"taxons":[],"characters":[],"states":[]}"#;
    let b = r#"{"taxons":[],"characters":[],"states":[],"books":[]}"#;
    let mut buf = String::new();
    let err = diff_json_strs(a, b, &mut buf);
    assert!(err.is_err());
}

#[test]
fn dataset_missing_property_kind_and_no_output() {
    let a = r#"{"taxons":[],"characters":[],"states":[],"books":[]}"#;
    let b = r#"{"taxons":[],"characters":[],"states":[]}"#;
    let mut buf = String::new();
    let err = diff_json_strs(a, b, &mut buf).unwrap_err();
    assert_eq!(err.error_type, JsonDiffErrorType::PropertyMissing);
    assert_eq!(buf, "");
}

#[test]
fn dataset_parse_error_comes_first() {
    let a = r#"{"taxons":[1.2.3],"characters":[],"states":[],"books":[]}"#;
    let b = r#"{"taxons":[]}"#;
    let mut buf = String::new();
    let err = diff_json_strs(a, b, &mut buf).unwrap_err();
    assert_eq!(err.error_type, JsonDiffErrorType::InvalidStructureInvalidNumber);
}

#[test]
fn dataset_object_sections_equal_give_empty_text() {
    let a = r#"{"taxons":{"x":1},"characters":"c","states":null,"books":true}"#;
    let mut buf = String::new();
    diff_json_strs(a, a, &mut buf).unwrap();
    assert_eq!(buf, "");
}

#[test]
fn dataset_only_changed_sections_reported() {
    let a = r#"{"taxons":{"x":1},"characters":"c","states":null,"books":true}"#;
    let b = r#"{"taxons":{"x":2},"characters":"c","states":null,"books":false}"#;
    let mut buf = String::new();
    diff_json_strs(a, b, &mut buf).unwrap();
    assert_eq!(
        buf,
        "{\"taxons\":{\"modified\":{\"x\":{\"old\":1,\"new\":2}}},\"books\":{\"old\":true,\"new\":false}}"
    );
}

#[test]
fn dataset_appends_to_existing_text() {
    let a = r#"{"taxons":[],"characters":[],"states":[],"books":[1]}"#;
    let b = r#"{"taxons":[],"characters":[],"states":[],"books":[]}"#;
    let mut buf = String::from("> ");
    diff_json_strs(a, a, &mut buf).unwrap();
    diff_json_strs(a, b, &mut buf).unwrap();
    assert!(buf.starts_with("> {\"taxons\""));
    assert!(buf.ends_with("\"books\":{\"added\":[],\"removed\":[1]}}"));
}
