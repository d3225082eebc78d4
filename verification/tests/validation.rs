use app_lifecycle::errors::Error;
use app_lifecycle::bridge::decode;
use app_lifecycle::validation::{
    is_valid_email, wrap_outcome, ModelValidationErrors, ModelValidationMessage, Validatable, Validator,
};
use validator::{ValidateLength, ValidationError, ValidationErrors};

const NAME_MESSAGE: &str = "Name must be at least 2 characters long.";

struct NameRules {
    name: String,
}

impl Validator for NameRules {
    fn validate(&self) -> Result<(), ValidationErrors> {
        let mut errors = ValidationErrors::new();
        if !self.name.validate_length(Some(2u64), None, None) {
            let error = ValidationError::new("length").with_message(NAME_MESSAGE.into());
            errors.add("name", error);
        }
        if errors.is_empty() {
            Ok(())
        } else {
            Err(errors)
        }
    }
}

struct User {
    name: String,
}

impl Validatable for User {
    type Rules = NameRules;

    fn validator(&self) -> NameRules {
        NameRules { name: self.name.clone() }
    }
}

#[test]
fn can_validate_email_accepts_an_address() {
    assert_eq!(is_valid_email("test@example.com").is_ok(), true);
}

#[test]
fn can_validate_email_rejects_a_text_without_at() {
    assert_eq!(is_valid_email("invalid-email").is_ok(), false);
}

#[test]
fn email_edge_cases() {
    assert!(is_valid_email("@").is_ok());
    assert!(is_valid_email("").is_err());
    assert!(is_valid_email("a@").is_ok());
    assert!(is_valid_email("trailing@").is_ok());
    assert!(is_valid_email("no at sign, only \u{ff20}").is_err());
}

#[test]
fn rejected_email_gives_the_invalid_email_failure() {
    let error = is_valid_email("invalid-email").unwrap_err();
    assert_eq!(error.code, "invalid email");
    assert_eq!(error.message, None);
    assert!(error.params.is_empty());
    assert_eq!(error, ValidationError::new("invalid email"));
}

#[test]
fn short_name_yields_one_length_entry_that_survives_the_channel() {
    let user = User { name: "a".to_string() };
    let failure = user.validate().unwrap_err();
    let fields = failure.fields();
    assert_eq!(fields.len(), 1);
    assert_eq!(fields.groups()[0].field, "name");
    assert_eq!(
        fields.groups()[0].messages,
        vec![ModelValidationMessage {
            code: "length".to_string(),
            message: Some(NAME_MESSAGE.to_string()),
        }]
    );

    let narrow = failure.encode();
    match decode(&narrow) {
        Error::Validation(decoded) => {
            assert_eq!(decoded.len(), 1);
            let entries = decoded.get("name").unwrap();
            assert_eq!(
                entries,
                &vec![ModelValidationMessage {
                    code: "length".to_string(),
                    message: Some(NAME_MESSAGE.to_string()),
                }]
            );
            assert_eq!(&decoded, fields);
        }
        other => panic!("not a validation failure: {:?}", other),
    }
}

#[test]
fn valid_model_produces_no_failure() {
    let user = User { name: "ab".to_string() };
    assert!(user.validate().is_ok());
    let longer = User { name: "a longer name".to_string() };
    assert!(longer.validate().is_ok());
}

#[test]
fn wrap_outcome_keeps_success_and_wraps_a_report_unchanged() {
    assert!(wrap_outcome(Ok(())).is_ok());

    let mut errors = ValidationErrors::new();
    errors.add("email", ValidationError::new("email"));
    let wrapped = wrap_outcome(Err(errors.clone())).unwrap_err();
    assert_eq!(wrapped.errors(), &errors);
    assert_eq!(&*wrapped, &errors);
}

#[test]
fn wrapped_report_lists_fields_in_order_with_their_entries() {
    let mut errors = ValidationErrors::new();
    errors.add("zip", ValidationError::new("length"));
    errors.add("name", ValidationError::new("length").with_message("too short".into()));
    errors.add("age", ValidationError::new("range"));
    errors.add("name", ValidationError::new("regex"));
    let wrapped = ModelValidationErrors::new(errors.clone());

    assert_eq!(wrapped.errors(), &errors);
    let groups = wrapped.fields().groups();
    let names: Vec<&str> = groups.iter().map(|g| g.field.as_str()).collect();
    assert_eq!(names, vec!["age", "name", "zip"]);
    assert_eq!(
        groups[1].messages,
        vec![
            ModelValidationMessage {
                code: "length".to_string(),
                message: Some("too short".to_string()),
            },
            ModelValidationMessage { code: "regex".to_string(), message: None },
        ]
    );
    assert_eq!(
        groups[0].messages,
        vec![ModelValidationMessage { code: "range".to_string(), message: None }]
    );
}

#[test]
fn nested_failures_are_not_field_level_failures() {
    let mut inner = ValidationErrors::new();
    inner.add("street", ValidationError::new("length"));
    let mut errors = ValidationErrors::new();
    errors.add("name", ValidationError::new("length"));
    let merged = ValidationErrors::merge(Err(errors), "address", Err(inner)).unwrap_err();
    let wrapped = ModelValidationErrors::new(merged);
    assert_eq!(wrapped.fields().len(), 1);
    assert!(wrapped.fields().get("name").is_some());
    assert!(wrapped.fields().get("address").is_none());
}

#[test]
fn empty_report_has_the_text_of_no_field() {
    let wrapped = ModelValidationErrors::new(ValidationErrors::new());
    assert!(wrapped.fields().is_empty());
    assert_eq!(wrapped.encode(), "0;");
}

#[test]
fn encoded_text_of_a_report_is_exact() {
    let mut errors = ValidationErrors::new();
    errors.add("name", ValidationError::new("length").with_message("too short".into()));
    errors.add("age", ValidationError::new("range"));
    let wrapped = ModelValidationErrors::new(errors);
    assert_eq!(wrapped.encode(), "2;3:age1;5:range-4:name1;6:length+9:too short");
}

#[test]
fn text_of_a_report_does_not_depend_on_the_order_of_its_fields() {
    let mut one = ValidationErrors::new();
    one.add("a", ValidationError::new("x"));
    one.add("b", ValidationError::new("y"));
    one.add("c", ValidationError::new("z"));
    let mut other = ValidationErrors::new();
    other.add("c", ValidationError::new("z"));
    other.add("a", ValidationError::new("x"));
    other.add("b", ValidationError::new("y"));
    let first = ModelValidationErrors::new(one);
    let second = ModelValidationErrors::new(other);
    assert_eq!(first.fields(), second.fields());
    assert_eq!(first.encode(), second.encode());
    assert_eq!(first.encode(), "3;1:a1;1:x-1:b1;1:y-1:c1;1:z-");
}
