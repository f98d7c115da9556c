use hazojsondiff::json::parse_json;
use hazojsondiff::jsondiff::diff_json_value;

fn diff_str(a: &str, b: &str, force: bool) -> String {
    let va = parse_json(a).unwrap();
    let vb = parse_json(b).unwrap();
    let mut buf = String::new();
    diff_json_value(&va, &vb, force, false, &mut buf);
    buf
}

#[test]
fn test_diff_array_no_change_forced() {
    let a = "[1,2,3]";
    let b = "[1,2,3]";
    assert_eq!(diff_str(a, b, true), "{\"added\":[],\"removed\":[]}");
}

#[test]
fn test_diff_array_added_removed() {
    let a = "[1,2]";
    let b = "[1,2,3]";
    assert_eq!(diff_str(a, b, true), "{\"added\":[3],\"removed\":[]}");
    let a = "[1,2,3]";
    let b = "[1,2]";
    assert_eq!(diff_str(a, b, true), "{\"added\":[],\"removed\":[3]}");
}

#[test]
fn test_diff_array_modified() {
    let a = "[1,2,3]";
    let b = "[1,4,3]";
    let expected = "{\"added\":[],\"removed\":[],\"modified\":[{\"old\":2,\"new\":4}]}";
    assert_eq!(diff_str(a, b, true), expected);
}

#[test]
fn test_diff_object_added_removed() {
    let a = "{\"a\":1}";
    let b = "{\"a\":1,\"b\":2}";
    assert_eq!(diff_str(a, b, false), "{\"added\":{\"b\":2}}");
    let a = "{\"a\":1,\"b\":2}";
    let b = "{\"a\":1}";
    assert_eq!(diff_str(a, b, false), "{\"removed\":{\"b\":2}}");
}

#[test]
fn test_diff_object_modified() {
    let a = "{\"a\":1,\"b\":2}";
    let b = "{\"a\":1,\"b\":3}";
    let expected = "{\"modified\":{\"b\":{\"old\":2,\"new\":3}}}";
    assert_eq!(diff_str(a, b, false), expected);
}

#[test]
fn test_diff_scalar() {
    let a = "1";
    let b = "2";
    assert_eq!(diff_str(a, b, false), "{\"old\":1,\"new\":2}");
    let a = "\"foo\"";
    let b = "\"bar\"";
    assert_eq!(diff_str(a, b, false), "{\"old\":\"foo\",\"new\":\"bar\"}");
}

#[test]
fn test_diff_array_no_change_not_forced() {
    let a = "[1,2,3]";
    let b = "[1,2,3]";
    assert_eq!(diff_str(a, b, false), "");
}
