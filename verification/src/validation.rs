//! Validation of model values, and the typed error that holds what failed.
//!
//! A model that is [`Validatable`] hands out a [`Validator`] that runs its
//! rules. Where rules fail, [`Validatable::validate`] gives a
//! [`ModelValidationErrors`]: it keeps the failures as the rules reported
//! them, and gives the text that carries them across a channel that holds
//! nothing but text.
use crate::bridge::decode_spec;
use crate::errors::ErrorView;
use crate::fields::{
    canonical, distinct_fields, groups_view, lemma_represents_rearranged, represents, FieldMessages,
    Group, StructuredErrors,
};
use crate::text::chars_of;
use crate::wire::encode_spec;
use validator::{ValidationError, ValidationErrors};
use vstd::pervasive::unreached;
use vstd::prelude::*;

verus! {

/// One failed rule of a field: the rule's code and, where the rule gave
/// one, a message for the user.
#[derive(Debug, Clone, PartialEq, Eq)]
pub struct ModelValidationMessage {
    pub code: String,
    pub message: Option<String>,
}

impl View for ModelValidationMessage {
    type V = (Seq<char>, Option<Seq<char>>);

    open spec fn view(&self) -> (Seq<char>, Option<Seq<char>>) {
        (
            self.code@,
            match self.message {
                Some(m) => Some(m@),
                None => None,
            },
        )
    }
}

/// `validator::ValidationError`, one failed rule as the rules report it.
/// Nothing inside it is seen here.
#[verifier::external_type_specification]
#[verifier::external_body]
pub struct ExValidationError(ValidationError);

/// `validator::ValidationErrors`, the report of all failed rules of one
/// value. What is seen of it here is [`field_errors_of`].
#[verifier::external_type_specification]
#[verifier::external_body]
pub struct ExValidationErrors(ValidationErrors);

/// What `validator::ValidationError::new` gives for a code: the failure
/// with that code, without message and without parameters.
pub uninterp spec fn new_validation_error(code: Seq<char>) -> ValidationError;

/// The field-level failures that a `validator::ValidationErrors` holds:
/// for each field whose own rules failed, the code and message of each
/// failed rule in the order in which they were added. Failures nested
/// under a field (of a struct or of a list in it) are not part of it.
pub uninterp spec fn field_errors_of(errors: ValidationErrors) -> Map<
    Seq<char>,
    Seq<(Seq<char>, Option<Seq<char>>)>,
>;

/// `validator::ValidationError::new`. The failure it gives depends on the
/// code alone. Trusted, not proved.
#[verifier::external_body]
fn new_error(code: &'static str) -> (error: ValidationError)
    ensures
        error == new_validation_error(code@),
{
    ValidationError::new(code)
}

/// `validator::ValidationErrors::field_errors`: the fields whose own rules
/// failed, each once, with the code and message of each of its failures
/// in order. The fields come in no stated order. Trusted, not proved.
#[verifier::external_body]
fn field_errors(errors: &ValidationErrors) -> (out: Vec<FieldMessages>)
    ensures
        distinct_fields(groups_view(out@)),
        represents(groups_view(out@), field_errors_of(*errors)),
{
    errors.field_errors().into_iter().map(|(field, list)| FieldMessages {
        field: field.to_string(),
        messages: list.iter().map(|e| ModelValidationMessage {
            code: e.code.to_string(),
            message: e.message.as_ref().map(|m| m.to_string()),
        }).collect(),
    }).collect()
}

/// Whether `c` occurs in `s`.
fn contains_char(s: &str, c: char) -> (r: bool)
    ensures
        r == s@.contains(c),
{
    let cs = chars_of(s);
    let mut i: usize = 0;
    while i < cs.len()
        invariant
            i <= cs.len(),
            cs@ == s@,
            forall|j: int| 0 <= j < i ==> cs@[j] != c,
        decreases cs.len() - i,
    {
        if cs[i] == c {
            return true;
        }
        i = i + 1;
    }
    false
}

/// Validates an e-mail address: it is accepted exactly when it holds an
/// `@`. A rejected address gives the failure that
/// `validator::ValidationError::new` makes of the code `invalid email`.
pub fn is_valid_email(email: &str) -> (r: Result<(), ValidationError>)
    ensures
        r is Ok <==> email@.contains('@'),
        r matches Err(error) ==> error == new_validation_error("invalid email"@),
{
    if contains_char(email, '@') {
        Ok(())
    } else {
        Err(new_error("invalid email"))
    }
}

/// The failure of a model's validation. It keeps the failures as the
/// rules reported them, and beside them the field-level failures in
/// canonical order, which are what crosses the channel.
#[derive(Debug)]
pub struct ModelValidationErrors {
    errors: ValidationErrors,
    fields: StructuredErrors,
}

impl View for ModelValidationErrors {
    type V = Seq<Group>;

    closed spec fn view(&self) -> Seq<Group> {
        self.fields@
    }
}

impl ModelValidationErrors {
    #[verifier::type_invariant]
    spec fn consistent(&self) -> bool {
        &&& canonical(self.fields@)
        &&& represents(self.fields@, field_errors_of(self.errors))
    }

    /// The failures as the rules reported them.
    pub closed spec fn reported(&self) -> ValidationErrors {
        self.errors
    }

    /// Wraps what the rules reported.
    pub fn new(errors: ValidationErrors) -> (r: ModelValidationErrors)
        ensures
            r.reported() == errors,
            canonical(r@),
            represents(r@, field_errors_of(errors)),
    {
        let raw = field_errors(&errors);
        let ghost listed = groups_view(raw@);
        match StructuredErrors::new(raw) {
            Some(fields) => {
                proof {
                    lemma_represents_rearranged(listed, fields@, field_errors_of(errors));
                }
                ModelValidationErrors { errors, fields }
            },
            None => unreached(),
        }
    }

    /// The failures as the rules reported them.
    pub fn errors(&self) -> (r: &ValidationErrors)
        ensures
            *r == self.reported(),
    {
        &self.errors
    }

    /// The field-level failures in canonical order.
    pub fn fields(&self) -> (r: &StructuredErrors)
        ensures
            r@ == self@,
            canonical(self@),
            represents(self@, field_errors_of(self.reported())),
    {
        proof {
            use_type_invariant(self);
        }
        &self.fields
    }

    /// The text that stands for this failure where only a text can be
    /// handed on. Decoding it gives the field-level failures back.
    pub fn encode(&self) -> (text: String)
        ensures
            text@ == encode_spec(self@),
            decode_spec(text@) == ErrorView::Validation(self@),
    {
        crate::bridge::encode(&self.fields)
    }
}

impl std::ops::Deref for ModelValidationErrors {
    type Target = ValidationErrors;

    fn deref(&self) -> (r: &ValidationErrors)
        ensures
            *r == self.reported(),
    {
        &self.errors
    }
}

/// What [`wrap_outcome`] makes of the outcome of running a model's rules:
/// success stays success, and a report of failures is wrapped unchanged.
pub open spec fn wrapped_outcome(
    outcome: Result<(), ValidationErrors>,
    r: Result<(), ModelValidationErrors>,
) -> bool {
    &&& outcome is Ok <==> r is Ok
    &&& outcome matches Err(errors) ==> r matches Err(wrapped) && wrapped.reported() == errors
        && canonical(wrapped@) && represents(wrapped@, field_errors_of(errors))
}

/// Gives the outcome of running a model's rules the type that callers of
/// [`Validatable::validate`] see.
pub fn wrap_outcome(outcome: Result<(), ValidationErrors>) -> (r: Result<(), ModelValidationErrors>)
    ensures
        wrapped_outcome(outcome, r),
{
    match outcome {
        Ok(()) => Ok(()),
        Err(errors) => Err(ModelValidationErrors::new(errors)),
    }
}

/// The rules of one model value, ready to run.
pub trait Validator {
    /// Runs the rules and reports each that failed.
    fn validate(&self) -> Result<(), ValidationErrors>;
}

/// A model that can be validated before it is saved.
pub trait Validatable {
    /// The kind of rules that this model has.
    type Rules: Validator;

    /// The rules for this value.
    fn validator(&self) -> Self::Rules;

    /// Runs the rules that the model hands out and gives what
    /// [`wrap_outcome`] makes of their outcome: `Ok` where no rule failed,
    /// else the report of the rules, wrapped unchanged, with its
    /// field-level failures in canonical order.
    fn validate(&self) -> (r: Result<(), ModelValidationErrors>)
        default_ensures
            exists|rules: Self::Rules, outcome: Result<(), ValidationErrors>|
                call_ensures(Self::validator, (self,), rules) && #[trigger] call_ensures(
                    <Self::Rules as Validator>::validate,
                    (&rules,),
                    outcome,
                ) && wrapped_outcome(outcome, r),
    {
        let rules = self.validator();
        let outcome = rules.validate();
        wrap_outcome(outcome)
    }
}

} // verus!
