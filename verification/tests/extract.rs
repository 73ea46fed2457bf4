use extsort::extract::{digest_input, extract_key, extract_sha256, hex_line};

fn text(bytes: Option<Vec<u8>>) -> Option<String> {
    bytes.map(|b| String::from_utf8(b).unwrap())
}

fn keys(names: &[&str]) -> Vec<String> {
    names.iter().map(|n| n.to_string()).collect()
}

#[test]
fn extract_key_gives_string_under_key() {
    let line = r#"{"name":"alice","age":30}"#;
    assert_eq!(extract_key(line, "name"), Some(String::from("alice")));
}

#[test]
fn extract_key_unescapes_the_string() {
    let line = r#"{"k":"a\"b\\c\nd","u":"é"}"#;
    assert_eq!(extract_key(line, "k"), Some(String::from("a\"b\\c\nd")));
    assert_eq!(extract_key(line, "u"), Some(String::from("é")));
}

#[test]
fn extract_key_of_missing_key_is_none() {
    assert_eq!(extract_key(r#"{"name":"alice"}"#, "age"), None);
    assert_eq!(extract_key(r#"{}"#, "name"), None);
}

#[test]
fn extract_key_of_value_that_is_no_string_is_none() {
    let line = r#"{"n":1,"b":true,"z":null,"a":["x"],"o":{"k":"v"}}"#;
    for key in ["n", "b", "z", "a", "o"] {
        assert_eq!(extract_key(line, key), None);
    }
}

#[test]
fn extract_key_of_line_that_is_no_object_is_none() {
    for line in ["", "not json", "[1,2]", "\"name\"", "42", "{\"name\":\"a\"", "{\"name\":\"a\"} x"] {
        assert_eq!(extract_key(line, "name"), None);
    }
}

#[test]
fn extract_key_takes_last_of_repeated_keys() {
    assert_eq!(extract_key(r#"{"k":"first","k":"second"}"#, "k"), Some(String::from("second")));
}

#[test]
fn hex_line_writes_two_digits_for_each_byte() {
    assert_eq!(hex_line(&vec![]), b"0x".to_vec());
    assert_eq!(hex_line(&vec![0x00]), b"0x00".to_vec());
    assert_eq!(hex_line(&vec![0x0a, 0x14, 0x1e]), b"0x0a141e".to_vec());
    assert_eq!(hex_line(&vec![0xff, 0x9a, 0xf0, 0x0f]), b"0xff9af00f".to_vec());
}

#[test]
fn hex_line_agrees_with_format_on_every_byte() {
    for byte in 0..=255u8 {
        assert_eq!(hex_line(&vec![byte]), format!("0x{:02x}", byte).into_bytes());
    }
}

#[test]
fn digest_input_joins_json_texts_in_key_order() {
    let mut object = serde_json::Map::new();
    object.insert(String::from("a"), serde_json::Value::String(String::from("x")));
    object.insert(String::from("b"), serde_json::Value::from(1));
    object.insert(String::from("c"), serde_json::Value::Null);
    assert_eq!(digest_input(&object, &keys(&["a", "b"])), Some(b"\"x\"1".to_vec()));
    assert_eq!(digest_input(&object, &keys(&["b", "a"])), Some(b"1\"x\"".to_vec()));
    assert_eq!(digest_input(&object, &keys(&["c", "c"])), Some(b"nullnull".to_vec()));
    assert_eq!(digest_input(&object, &keys(&[])), Some(Vec::new()));
}

#[test]
fn digest_input_of_missing_key_is_none() {
    let mut object = serde_json::Map::new();
    object.insert(String::from("a"), serde_json::Value::Bool(true));
    assert_eq!(digest_input(&object, &keys(&["a", "z"])), None);
    assert_eq!(digest_input(&object, &keys(&["z", "a"])), None);
    assert_eq!(digest_input(&serde_json::Map::new(), &keys(&["a"])), None);
}

#[test]
fn extract_sha256_hashes_json_text_of_string() {
    let line = r#"{"k":"abc"}"#;
    assert_eq!(
        text(extract_sha256(line, &keys(&["k"]))),
        Some(String::from("0x6cc43f858fbb763301637b5af970e2a46b46f461f27e5a0f41e009c59b827b25"))
    );
}

#[test]
fn extract_sha256_hashes_values_one_after_another() {
    let line = r#"{"b": 1, "a": "x", "c": [3]}"#;
    assert_eq!(
        text(extract_sha256(line, &keys(&["a", "b"]))),
        Some(String::from("0xf685e78b3da195933355453a7ab12c2e658b06ff39c9db4640c62c5452b2aa15"))
    );
}

#[test]
fn extract_sha256_writes_values_in_compact_form() {
    let line = r#"{ "o" : { "n" : 1 } , "a" : [ 1 , 2 ] , "z" : null }"#;
    assert_eq!(
        text(extract_sha256(line, &keys(&["o", "a", "z"]))),
        Some(String::from("0x21d4da385c084dc17a5c3935401015bd478c3a3fa4bd449ebbc8d39221d794a8"))
    );
    let numbers = r#"{"f":1.5,"t":true}"#;
    assert_eq!(
        text(extract_sha256(numbers, &keys(&["f", "t"]))),
        Some(String::from("0x763d1b3a6d198847fe432fda348c6f989dd0e8ff4826047db068f3e8bff68cb7"))
    );
}

#[test]
fn extract_sha256_keeps_text_outside_ascii() {
    let line = "{\"k\":\"\u{e9}\"}";
    assert_eq!(
        text(extract_sha256(line, &keys(&["k"]))),
        Some(String::from("0xf2886017e9c7abacf804b54d64787dce2b611c9544ba21f3affdd126a6e50086"))
    );
}

#[test]
fn extract_sha256_of_no_keys_is_digest_of_nothing() {
    assert_eq!(
        text(extract_sha256("{}", &keys(&[]))),
        Some(String::from("0xe3b0c44298fc1c149afbf4c8996fb92427ae41e4649b934ca495991b7852b855"))
    );
}

#[test]
fn extract_sha256_of_missing_key_is_none() {
    assert_eq!(extract_sha256(r#"{"a":1}"#, &keys(&["a", "b"])), None);
}

#[test]
fn extract_sha256_of_line_that_is_no_object_is_none() {
    for line in ["", "[1]", "nonsense", "\"a\"", "{\"a\":"] {
        assert_eq!(extract_sha256(line, &keys(&[])), None);
        assert_eq!(extract_sha256(line, &keys(&["a"])), None);
    }
}
