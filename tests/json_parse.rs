use hazojsondiff::errors::{JsonDiffError, JsonDiffErrorType};
use hazojsondiff::json::{parse_json, JsonValue, TokenType, Tokenizer};

#[test]
fn test_tokenize() {
    let input = r#"{"key": "value", "number": 123, "boolean": true, "null_value": null}"#;
    let mut tokenizer = Tokenizer::new(input);
    let tokens = tokenizer.tokens();
    assert_eq!(tokens.len(), 17);
    assert_eq!(tokens[0].token_type, TokenType::ObjectStart);
    assert_eq!(tokens[1].token_type, TokenType::String);
    assert_eq!(tokens[2].token_type, TokenType::Colon);
    assert_eq!(tokens[3].token_type, TokenType::String);
    assert_eq!(tokens[4].token_type, TokenType::Comma);
    assert_eq!(tokens[5].token_type, TokenType::String);
    assert_eq!(tokens[6].token_type, TokenType::Colon);
    assert_eq!(tokens[7].token_type, TokenType::Number);
    assert_eq!(tokens[8].token_type, TokenType::Comma);
    assert_eq!(tokens[9].token_type, TokenType::String);
    assert_eq!(tokens[10].token_type, TokenType::Colon);
    assert_eq!(tokens[11].token_type, TokenType::True);
    assert_eq!(tokens[12].token_type, TokenType::Comma);
    assert_eq!(tokens[13].token_type, TokenType::String);
    assert_eq!(tokens[14].token_type, TokenType::Colon);
    assert_eq!(tokens[15].token_type, TokenType::Null);
    assert_eq!(tokens[16].token_type, TokenType::ObjectEnd);
}

#[test]
fn test_tokenize_nested() {
    let input = r#"{"outer": {"inner": "value"}}"#;
    let mut tokenizer = Tokenizer::new(input);
    let tokens = tokenizer.tokens();
    assert_eq!(tokens.len(), 9);
    assert_eq!(tokens[0].token_type, TokenType::ObjectStart);
    assert_eq!(tokens[1].token_type, TokenType::String);
    assert_eq!(tokens[2].token_type, TokenType::Colon);
    assert_eq!(tokens[3].token_type, TokenType::ObjectStart);
    assert_eq!(tokens[4].token_type, TokenType::String);
    assert_eq!(tokens[5].token_type, TokenType::Colon);
    assert_eq!(tokens[6].token_type, TokenType::String);
    assert_eq!(tokens[7].token_type, TokenType::ObjectEnd);
    assert_eq!(tokens[8].token_type, TokenType::ObjectEnd);
}

#[test]
fn test_parse_json_atoms() {
    let input = r#""string_value""#;
    let json_value = parse_json(input);
    assert!(json_value.is_ok());
    if let JsonValue::String(value) = json_value.unwrap() {
        assert_eq!(value, "string_value");
    } else {
        panic!("Expected JSON value to be a string");
    }

    let input = r#"123.456"#;
    let json_value = parse_json(input);
    assert!(json_value.is_ok());
    if let JsonValue::Number(num) = json_value.unwrap() {
        assert_eq!(num.parse::<f64>().unwrap(), 123.456);
    } else {
        panic!("Expected JSON value to be a number");
    }

    let input = r#"true"#;
    let json_value = parse_json(input);
    assert!(json_value.is_ok());
    if let JsonValue::Boolean(boolean) = json_value.unwrap() {
        assert!(boolean);
    } else {
        panic!("Expected JSON value to be a boolean");
    }

    let input = r#"false"#;
    let json_value = parse_json(input);
    assert!(json_value.is_ok());
    if let JsonValue::Boolean(boolean) = json_value.unwrap() {
        assert!(!boolean);
    } else {
        panic!("Expected JSON value to be a boolean");
    }

    let input = r#"null"#;
    let json_value = parse_json(input);
    assert!(json_value.is_ok());
    if let JsonValue::Null = json_value.unwrap() {
    } else {
        panic!("Expected JSON value to be null");
    }
}

#[test]
fn test_parse_empty_array() {
    let input = r#"[]"#;
    let json_value = parse_json(input);
    assert!(json_value.is_ok());
    if let JsonValue::Array(array) = json_value.unwrap() {
        assert!(array.is_empty());
    } else {
        panic!("Expected JSON value to be an empty array");
    }
}

#[test]
fn test_parse_single_element_array() {
    let input = r#"[1]"#;
    let json_value = parse_json(input);
    assert!(json_value.is_ok());
    if let JsonValue::Array(array) = json_value.unwrap() {
        assert_eq!(array.len(), 1);
        if let JsonValue::Number(value) = &array[0] {
            assert_eq!(value.parse::<f64>().unwrap(), 1.0);
        } else {
            panic!("Expected single element to be a number");
        }
    } else {
        panic!("Expected JSON value to be an array");
    }
}

#[test]
fn test_parse_json_array() {
    let input = r#"[1, "two", true, null]"#;
    let json_value = parse_json(input);
    assert!(json_value.is_ok());
    if let JsonValue::Array(array) = json_value.unwrap() {
        assert_eq!(array.len(), 4);
        if let JsonValue::Number(num) = &array[0] {
            assert_eq!(num.parse::<f64>().unwrap(), 1.0);
        } else {
            panic!("Expected first element to be a number");
        }
        if let JsonValue::String(value) = &array[1] {
            assert_eq!(*value, "two");
        } else {
            panic!("Expected second element to be a string");
        }
        if let JsonValue::Boolean(boolean) = &array[2] {
            assert!(*boolean);
        } else {
            panic!("Expected third element to be a boolean");
        }
        if JsonValue::Null != array[3] {
            panic!("Expected fourth element to be null");
        }
    } else {
        panic!("Expected JSON value to be an array");
    }
}

#[test]
fn test_parse_json() {
    let input = r#"{"key": "value", "number": 123, "boolean": true, "null_value": null}"#;
    let json_value = parse_json(input);
    assert!(json_value.is_ok());
    let json_value = json_value.unwrap();
    if let JsonValue::Object(obj) = json_value {
        assert_eq!(obj.len(), 4);
        assert_eq!(obj[0].0, "key");
        if let JsonValue::String(value) = &obj[0].1 {
            assert_eq!(*value, "value");
        } else {
            panic!("Expected string value for 'key'");
        }
        assert_eq!(obj[1].0, "number");
        if let JsonValue::Number(num) = &obj[1].1 {
            assert_eq!(num.parse::<f64>().unwrap(), 123.0);
        } else {
            panic!("Expected number value for 'number'");
        }
        assert_eq!(obj[2].0, "boolean");
        if let JsonValue::Boolean(boolean) = &obj[2].1 {
            assert!(*boolean);
        } else {
            panic!("Expected boolean value for 'boolean'");
        }
        assert_eq!(obj[3].0, "null_value");
        if let JsonValue::Null = &obj[3].1 {
        } else {
            panic!("Expected null value for 'null_value'");
        }
    } else {
        panic!("Expected JSON value to be an object");
    }
}

#[test]
fn test_invalid_json() {
    let input = r#"{"key": "value", "number": 123, "boolean": true, "null_value": null"#;
    let json_value = parse_json(input);
    assert!(json_value.is_err());
    if let Err(JsonDiffError { error_type }) = json_value {
        match error_type {
            JsonDiffErrorType::InvalidStructureUnclosed => {}
            _ => panic!("Expected InvalidStructure error type"),
        }
    } else {
        panic!("Expected an error for invalid JSON");
    }
}

#[test]
fn test_parse_realistic_json() {
    let input = r#"{
  "id": "Antremaplante61",
  "taxons": [
    {
      "id": "t1",
      "path": [
        "t0"
      ],
      "name": "Acanthaceae",
      "nameEN": "",
      "nameCN": "爵床科",
      "vernacularName": "",
      "detail": "",
      "children": []
    }
  ]
}"#;
    let json_value = parse_json(input);
    if json_value.is_err() {
        println!("Erreur de parsing: {:?}", json_value);
    }
    let json_value = match json_value {
        Ok(v) => v,
        Err(_) => panic!("Parsing failed"),
    };
    let obj = match json_value {
        JsonValue::Object(obj) => obj,
        _ => panic!("Expected JSON value to be an object"),
    };
    assert_eq!(obj[0].0, "id");
    match &obj[0].1 {
        JsonValue::String(val) => assert_eq!(*val, "Antremaplante61"),
        _ => panic!("Expected string value for 'id'"),
    }
    assert_eq!(obj[1].0, "taxons");
    let taxons = match &obj[1].1 {
        JsonValue::Array(taxons) => taxons,
        _ => panic!("Expected array for 'taxons'"),
    };
    assert!(!taxons.is_empty());
    let taxon = match &taxons[0] {
        JsonValue::Object(taxon) => taxon,
        _ => panic!("Expected object in taxons array"),
    };
    assert_eq!(taxon[0].0, "id");
    match &taxon[0].1 {
        JsonValue::String(val) => assert_eq!(*val, "t1"),
        _ => panic!("Expected string value for 'id' in taxon"),
    }
}

#[test]
fn test_parse_quoted_string() {
    let input = r#""\"hello\"""#;

    let result = parse_json(input);
    assert!(result.is_ok(), "Expected JSON to parse successfully, but got error: {:?}", result);

    if let Ok(JsonValue::String(value)) = result {
        assert_eq!(value, "\\\"hello\\\"");
    } else {
        panic!("Expected JSON value to be a string");
    }
}

#[test]
fn test_parse_nested_object() {
    let input = r#"{"outer": {"inner": "value"}}"#;
    let result = parse_json(input);
    assert!(result.is_ok(), "Expected JSON to parse successfully, but got error: {:?}", result);

    if let Ok(JsonValue::Object(obj)) = result {
        assert_eq!(obj.len(), 1);
        assert_eq!(obj[0].0, "outer");
        if let JsonValue::Object(inner_obj) = &obj[0].1 {
            assert_eq!(inner_obj.len(), 1);
            if let JsonValue::String(value) = &inner_obj[0].1 {
                assert_eq!(*value, "value");
            } else {
                panic!("Expected string value for 'inner'");
            }
        } else {
            panic!("Expected object value for 'outer'");
        }
    } else {
        panic!("Expected JSON value to be an object");
    }
}

#[test]
fn test_parse_array_with_objects() {
    let input = r#"[{"key": "value"}, {"key2": "value2"}]"#;
    let result = parse_json(input);
    assert!(result.is_ok(), "Expected JSON to parse successfully, but got error: {:?}", result);

    if let Ok(JsonValue::Array(array)) = result {
        assert_eq!(array.len(), 2);
        if let JsonValue::Object(obj1) = &array[0] {
            assert_eq!(obj1.len(), 1);
            assert_eq!(obj1[0].0, "key");
            if let JsonValue::String(value) = &obj1[0].1 {
                assert_eq!(*value, "value");
            } else {
                panic!("Expected string value for 'key'");
            }
        } else {
            panic!("Expected first element to be an object");
        }

        if let JsonValue::Object(obj2) = &array[1] {
            assert_eq!(obj2.len(), 1);
            assert_eq!(obj2[0].0, "key2");
            if let JsonValue::String(value) = &obj2[0].1 {
                assert_eq!(*value, "value2");
            } else {
                panic!("Expected string value for 'key2'");
            }
        } else {
            panic!("Expected second element to be an object");
        }
    } else {
        panic!("Expected JSON value to be an array");
    }
}
