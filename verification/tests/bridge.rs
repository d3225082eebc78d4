use app_lifecycle::bridge::{decode, encode};
use app_lifecycle::errors::Error;
use app_lifecycle::fields::{FieldMessages, StructuredErrors};
use app_lifecycle::validation::ModelValidationMessage;

fn entry(code: &str, message: Option<&str>) -> ModelValidationMessage {
    ModelValidationMessage { code: code.to_string(), message: message.map(|m| m.to_string()) }
}

fn group(field: &str, messages: Vec<ModelValidationMessage>) -> FieldMessages {
    FieldMessages { field: field.to_string(), messages }
}

fn opaque(text: &str) -> Error {
    Error::Opaque(text.to_string())
}

#[test]
fn text_of_one_field_is_exact() {
    let errors =
        StructuredErrors::new(vec![group("name", vec![entry("length", Some("too short"))])])
            .unwrap();
    assert_eq!(encode(&errors), "1;4:name1;6:length+9:too short");
}

#[test]
fn text_of_an_absent_message_is_exact() {
    let errors = StructuredErrors::new(vec![group("email", vec![entry("email", None)])]).unwrap();
    assert_eq!(encode(&errors), "1;5:email1;5:email-");
}

#[test]
fn text_of_no_field_is_exact() {
    assert_eq!(encode(&StructuredErrors::empty()), "0;");
}

#[test]
fn text_counts_characters_not_bytes() {
    let errors = StructuredErrors::new(vec![group("prénom", vec![entry("länge", Some("日本語"))])])
        .unwrap();
    assert_eq!(encode(&errors), "1;6:prénom1;5:länge+3:日本語");
}

#[test]
fn text_writes_lengths_of_ten_and_more_in_decimal() {
    let errors = StructuredErrors::new(vec![group(
        "a_long_field_name",
        vec![entry("0123456789", Some(&"x".repeat(123)))],
    )])
    .unwrap();
    let expected = format!("1;17:a_long_field_name1;10:0123456789+123:{}", "x".repeat(123));
    assert_eq!(encode(&errors), expected);
}

#[test]
fn decode_gives_back_what_was_encoded() {
    let errors = StructuredErrors::new(vec![
        group("name", vec![entry("length", Some("too short")), entry("regex", None)]),
        group("age", vec![entry("range", None)]),
        group("", vec![entry("", Some(""))]),
        group("empty", vec![]),
    ])
    .unwrap();
    let text = encode(&errors);
    assert_eq!(decode(&text), Error::Validation(errors));
}

#[test]
fn decode_gives_back_entries_without_message() {
    let errors = StructuredErrors::new(vec![group(
        "email",
        vec![entry("email", None), entry("length", None)],
    )])
    .unwrap();
    match decode(&encode(&errors)) {
        Error::Validation(decoded) => {
            let entries = decoded.get("email").unwrap();
            assert_eq!(entries.len(), 2);
            assert_eq!(entries[0].message, None);
            assert_eq!(entries[1].message, None);
            assert_eq!(entries[0].code, "email");
            assert_eq!(entries[1].code, "length");
        }
        other => panic!("not a validation failure: {:?}", other),
    }
}

#[test]
fn decode_gives_back_texts_that_look_like_the_format() {
    let errors = StructuredErrors::new(vec![
        group("1;4:name", vec![entry("3:abc", Some("+-;:0"))]),
        group("0;", vec![entry("-", Some("+")), entry("12", None)]),
        group("日本語", vec![entry("länge", Some("zu kurz: ≥ 2"))]),
    ])
    .unwrap();
    assert_eq!(decode(&encode(&errors)), Error::Validation(errors));
}

#[test]
fn decode_gives_back_the_empty_failure() {
    assert_eq!(decode("0;"), Error::Validation(StructuredErrors::empty()));
}

#[test]
fn decode_of_a_known_text() {
    match decode("2;3:age1;5:range-4:name1;6:length+9:too short") {
        Error::Validation(decoded) => {
            assert_eq!(decoded.len(), 2);
            assert_eq!(decoded.get("age").unwrap(), &vec![entry("range", None)]);
            assert_eq!(decoded.get("name").unwrap(), &vec![entry("length", Some("too short"))]);
            assert!(decoded.get("zip").is_none());
        }
        other => panic!("not a validation failure: {:?}", other),
    }
}

#[test]
fn decode_keeps_other_texts_unchanged() {
    for text in [
        "",
        " ",
        "connection refused",
        "Model validation failed: name: too short",
        "{\"name\":[{\"code\":\"length\",\"message\":null}]}",
        "0",
        ";",
        "1;",
        "1",
        "-1;",
        "日本語",
        "18446744073709551616;",
        "99999999999999999999999999999999999999;",
    ] {
        assert_eq!(decode(text), opaque(text), "text {:?}", text);
    }
}

#[test]
fn decode_keeps_near_misses_unchanged() {
    let good = "1;4:name1;6:length+9:too short";
    assert!(matches!(decode(good), Error::Validation(_)));
    for text in [
        // something stands behind the last field
        "1;4:name1;6:length+9:too short ",
        "0; ",
        "0;0;",
        // something stands before the count
        " 1;4:name1;6:length+9:too short",
        // numerals that are not canonical
        "01;4:name1;6:length+9:too short",
        "1;04:name1;6:length+9:too short",
        "1;4:name01;6:length+9:too short",
        "1;4:name1;6:length+09:too short",
        "00;",
        "+0;",
        // counts and lengths that do not fit what follows
        "2;4:name1;6:length+9:too short",
        "1;4:name2;6:length+9:too short",
        "1;4:name1;6:length+10:too short",
        "1;4:name1;6:length+8:too short",
        "1;5:name1;6:length+9:too short",
        // a missing or wrong mark
        "1;4:name1;6:length9:too short",
        "1;4:name1;6:length*9:too short",
        "1;4:name1;6:length",
        "1;4;name1;6:length-",
        "1:4:name1;6:length-",
        // cut short
        "1;4:name1;6:length+9:too shor",
        "1;4:na",
        "1;4",
    ] {
        assert_eq!(decode(text), opaque(text), "text {:?}", text);
    }
}

#[test]
fn decode_keeps_texts_with_fields_out_of_order_unchanged() {
    let ordered = "2;1:a0;1:b0;";
    assert!(matches!(decode(ordered), Error::Validation(_)));
    let swapped = "2;1:b0;1:a0;";
    assert_eq!(decode(swapped), opaque(swapped));
    let twice = "2;1:a0;1:a0;";
    assert_eq!(decode(twice), opaque(twice));
}

#[test]
fn decode_never_classifies_as_startup() {
    for text in ["", "0;", "boom", "1;1:a1;1:b-"] {
        assert!(!matches!(decode(text), Error::Startup(_)));
    }
}
