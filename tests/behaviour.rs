use hazojsondiff::buffer::{grown_capacity, ByteBuffer};
use hazojsondiff::errors::{JsonDiffError, JsonDiffErrorType};
use hazojsondiff::json::{parse_json, JsonValue, Token, TokenType, Tokenizer};
use hazojsondiff::jsondiff::{diff_json_value, escape_key, json_escape, json_value_to_string};
use hazojsondiff::number::canonical_number_text;

fn diff_with(a: &str, b: &str, force: bool, flat: bool) -> String {
    let va = parse_json(a).unwrap();
    let vb = parse_json(b).unwrap();
    let mut buf = String::new();
    diff_json_value(&va, &vb, force, flat, &mut buf);
    buf
}

fn parse_error(input: &str) -> JsonDiffErrorType {
    match parse_json(input) {
        Err(JsonDiffError { error_type }) => error_type,
        Ok(v) => panic!("expected an error, got {:?}", v),
    }
}

fn number_text(input: &str) -> String {
    match parse_json(input).unwrap() {
        JsonValue::Number(t) => t,
        other => panic!("expected a number, got {:?}", other),
    }
}

#[test]
fn scalars_parse_to_their_values() {
    assert_eq!(parse_json("\"x\"").unwrap(), JsonValue::String("x".to_string()));
    assert_eq!(parse_json("true").unwrap(), JsonValue::Boolean(true));
    assert_eq!(parse_json("false").unwrap(), JsonValue::Boolean(false));
    assert_eq!(parse_json("null").unwrap(), JsonValue::Null);
    assert_eq!(parse_json("  123.456 ").unwrap(), JsonValue::Number("123.456".to_string()));
}

#[test]
fn arrays_parse_in_order() {
    assert_eq!(parse_json("[]").unwrap(), JsonValue::Array(vec![]));
    assert_eq!(
        parse_json("[1]").unwrap(),
        JsonValue::Array(vec![JsonValue::Number("1".to_string())])
    );
}

#[test]
fn nested_arrays_parse() {
    let v = parse_json("[[1],[],[[2]]]").unwrap();
    assert_eq!(json_value_to_string(&v), "[[1],[],[[2]]]");
    let v = parse_json("{\"a\":{},\"b\":{\"c\":[]}}").unwrap();
    assert_eq!(json_value_to_string(&v), "{\"a\":{},\"b\":{\"c\":[]}}");
}

#[test]
fn unbalanced_brackets_are_unclosed() {
    assert_eq!(parse_error("{\"a\":1"), JsonDiffErrorType::InvalidStructureUnclosed);
    assert_eq!(parse_error("[1, 2"), JsonDiffErrorType::InvalidStructureUnclosed);
    assert_eq!(parse_error("[1]]"), JsonDiffErrorType::InvalidStructureUnclosed);
    assert_eq!(parse_error("{\"a\":1]"), JsonDiffErrorType::InvalidStructureUnclosed);
    assert_eq!(parse_error("[1}"), JsonDiffErrorType::InvalidStructureUnclosed);
}

#[test]
fn empty_and_several_roots_are_unclosed() {
    assert_eq!(parse_error(""), JsonDiffErrorType::InvalidStructureUnclosed);
    assert_eq!(parse_error("1 2"), JsonDiffErrorType::InvalidStructureUnclosed);
    assert_eq!(parse_error("tru"), JsonDiffErrorType::InvalidStructureUnclosed);
}

#[test]
fn non_string_key_is_rejected() {
    assert_eq!(parse_error("{1:2}"), JsonDiffErrorType::InvalidStructureObjectKey);
}

#[test]
fn malformed_numbers_are_rejected() {
    assert_eq!(parse_error("1.2.3"), JsonDiffErrorType::InvalidStructureInvalidNumber);
    assert_eq!(parse_error("-"), JsonDiffErrorType::InvalidStructureInvalidNumber);
    assert_eq!(parse_error("[-x]"), JsonDiffErrorType::InvalidStructureInvalidNumber);
}

#[test]
fn numbers_are_held_in_canonical_form() {
    assert_eq!(number_text("007.50"), "7.5");
    assert_eq!(number_text("1.0"), "1");
    assert_eq!(number_text("1."), "1");
    assert_eq!(number_text("-0.0"), "-0");
    assert_eq!(number_text("-.5"), "-0.5");
    assert_eq!(number_text("0.000"), "0");
    assert_eq!(number_text("120"), "120");
}

#[test]
fn canonical_number_text_of_characters() {
    let t: Vec<char> = "-00012.3400".chars().collect();
    assert_eq!(canonical_number_text(&t), Some("-12.34".to_string()));
    let t: Vec<char> = "12a".chars().collect();
    assert_eq!(canonical_number_text(&t), None);
    let t: Vec<char> = ".".chars().collect();
    assert_eq!(canonical_number_text(&t), None);
}

#[test]
fn object_members_keep_order_and_duplicates() {
    let v = parse_json("{\"b\":1,\"a\":2,\"b\":3}").unwrap();
    assert_eq!(json_value_to_string(&v), "{\"b\":1,\"a\":2,\"b\":3}");
}

#[test]
fn unpaired_last_object_value_is_left_out() {
    let v = parse_json("{\"a\":1,\"b\"}").unwrap();
    assert_eq!(json_value_to_string(&v), "{\"a\":1}");
}

#[test]
fn diff_of_a_value_with_itself_is_empty() {
    let docs = [
        "null",
        "\"text\"",
        "-0.50",
        "[1,[2,{\"a\":[]}],{}]",
        "{\"z\":{\"y\":[1,2]},\"a\":{\"b\":{}},\"a\":1}",
    ];
    for d in docs.iter() {
        assert_eq!(diff_with(d, d, false, false), "");
        assert_eq!(diff_with(d, d, false, true), "");
    }
}

#[test]
fn zero_of_either_sign_is_the_same_number() {
    assert_eq!(diff_with("0", "-0.0", false, false), "");
    assert_eq!(diff_with("1.50", "1.5", false, false), "");
    assert_eq!(diff_with("0", "0.1", false, false), "{\"old\":0,\"new\":0.1}");
}

#[test]
fn array_removed_tail_is_rendered() {
    assert_eq!(
        diff_with("[1,{\"a\":\"x\"}]", "[1]", false, false),
        "{\"added\":[],\"removed\":[{\"a\":\"x\"}]}"
    );
}

#[test]
fn array_object_elements_are_diffed_flat() {
    assert_eq!(
        diff_with("[{\"a\":1,\"b\":1}]", "[{\"a\":2,\"b\":1,\"c\":3}]", false, false),
        "{\"added\":[],\"removed\":[],\"modified\":[{\"added\":{\"c\":3},\"a\":{\"old\":1,\"new\":2}}]}"
    );
}

#[test]
fn array_non_object_elements_compare_by_text() {
    assert_eq!(
        diff_with("[[1],\"s\"]", "[[2],\"s\"]", false, false),
        "{\"added\":[],\"removed\":[],\"modified\":[{\"old\":[1],\"new\":[2]}]}"
    );
}

#[test]
fn object_sections_in_sorted_key_order() {
    assert_eq!(
        diff_with("{\"b\":1,\"a\":1,\"m\":[1]}", "{\"c\":true,\"m\":[2]}", false, false),
        "{\"added\":{\"c\":true},\"removed\":{\"a\":1,\"b\":1},\"modified\":{\"m\":{\"added\":[],\"removed\":[],\"modified\":[{\"old\":1,\"new\":2}]}}}"
    );
}

#[test]
fn object_flat_mode_puts_changes_at_top_level() {
    assert_eq!(
        diff_with("{\"a\":1,\"b\":\"x\"}", "{\"a\":2,\"b\":\"y\"}", false, true),
        "{\"a\":{\"old\":1,\"new\":2},\"b\":{\"old\":\"x\",\"new\":\"y\"}}"
    );
}

#[test]
fn nested_object_change_is_not_flat_below_the_top() {
    assert_eq!(
        diff_with("{\"o\":{\"k\":1}}", "{\"o\":{\"k\":2}}", false, true),
        "{\"o\":{\"modified\":{\"k\":{\"old\":1,\"new\":2}}}}"
    );
}

#[test]
fn mismatched_kinds_report_old_and_new() {
    assert_eq!(diff_with("1", "\"1\"", false, false), "{\"old\":1,\"new\":\"1\"}");
    assert_eq!(diff_with("null", "[]", true, false), "{\"old\":null,\"new\":[]}");
    assert_eq!(diff_with("true", "false", false, false), "{\"old\":true,\"new\":false}");
}

#[test]
fn diff_appends_to_the_buffer() {
    let va = parse_json("1").unwrap();
    let vb = parse_json("2").unwrap();
    let mut buf = String::from("x");
    diff_json_value(&va, &vb, false, false, &mut buf);
    diff_json_value(&va, &va, false, false, &mut buf);
    assert_eq!(buf, "x{\"old\":1,\"new\":2}");
}

#[test]
fn escapes_quote_backslash_and_newline() {
    assert_eq!(json_escape("a\"b\\c\nd\te"), "\"a\\\"b\\\\c\\nd\te\"");
    assert_eq!(escape_key("k\"\\\n"), "k\\\"\\\\\\n");
    assert_eq!(escape_key("é"), "é");
}

#[test]
fn rendering_escapes_strings_and_keys() {
    let v = JsonValue::Object(vec![(
        "k\"".to_string(),
        JsonValue::Array(vec![JsonValue::String("a\nb".to_string()), JsonValue::Null]),
    )]);
    assert_eq!(json_value_to_string(&v), "{\"k\\\"\":[\"a\\nb\",null]}");
}

#[test]
fn tokenizer_hands_out_tokens_one_by_one() {
    let mut t = Tokenizer::new(" \"a\\\"b\" -12.5x");
    assert_eq!(
        t.next_token(),
        Some(Token { start: 1, end: 7, token_type: TokenType::String })
    );
    assert_eq!(
        t.next_token(),
        Some(Token { start: 8, end: 13, token_type: TokenType::Number })
    );
    assert_eq!(t.next_token(), None);
    assert_eq!(t.next_token(), None);
}

#[test]
fn tokenizer_skips_truncated_literals() {
    let mut t = Tokenizer::new("[tru");
    let tokens = t.tokens();
    assert_eq!(tokens.len(), 1);
    assert_eq!(tokens[0].token_type, TokenType::ArrayStart);
}

#[test]
fn error_messages_and_indices() {
    assert_eq!(JsonDiffErrorType::PropertyMissing.message(), "Property missing");
    assert_eq!(
        JsonDiffError { error_type: JsonDiffErrorType::InvalidStructureUnclosed }.message(),
        "Invalid structure: unclosed object or array"
    );
    assert_eq!(JsonDiffErrorType::InvalidStructureObjectKey.index(), 0);
    assert_eq!(JsonDiffErrorType::InvalidStructureInvalidNumber.index(), 4);
}

#[test]
fn string_buffer_push_and_push_str() {
    let mut s = String::new();
    ByteBuffer::push(&mut s, b'{');
    ByteBuffer::push_str(&mut s, "\"é\"");
    ByteBuffer::push(&mut s, b'}');
    assert_eq!(s, "{\"é\"}");
}

#[test]
fn error_sentinels_are_negative_and_distinct() {
    assert_eq!(JsonDiffError { error_type: JsonDiffErrorType::InvalidStructureObjectKey }.sentinel(), -1);
    assert_eq!(JsonDiffError { error_type: JsonDiffErrorType::PropertyMissing }.sentinel(), -2);
    assert_eq!(JsonDiffError { error_type: JsonDiffErrorType::InvalidStructureInvalidNumber }.sentinel(), -5);
}

#[test]
fn grown_capacity_doubles_from_at_least_eight() {
    assert_eq!(grown_capacity(1024, 10), Some(1024));
    assert_eq!(grown_capacity(0, 1), Some(8));
    assert_eq!(grown_capacity(0, 9), Some(16));
    assert_eq!(grown_capacity(10, 11), Some(20));
    assert_eq!(grown_capacity(10, 41), Some(80));
    assert_eq!(grown_capacity(3_000_000_000, 3_000_000_001), None);
    assert_eq!(grown_capacity(2_147_483_648, 2_147_483_649), None);
    assert_eq!(grown_capacity(1_073_741_824, 2_147_483_648), Some(2_147_483_648));
}
