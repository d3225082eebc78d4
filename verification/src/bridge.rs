//! The bridge for validation failures: a structured failure goes into a
//! text where it arises, crosses a channel that holds nothing but text,
//! and is taken out again where a response is made. Any other text on the
//! channel comes out as it went in.
use crate::errors::{Error, ErrorView};
use crate::fields::{canonical, Group, StructuredErrors};
use crate::text::chars_of;
use crate::wire::{
    encode_groups, encode_spec, lemma_encode_injective, lemma_read_text_complete,
    lemma_read_text_sound, parse_text, read_text,
};
use vstd::prelude::*;

verus! {

/// What a text on the channel stands for: the structured failure whose
/// text it is, where there is one, and else the text itself.
pub open spec fn decode_spec(text: Seq<char>) -> ErrorView {
    if exists|gs: Seq<Group>| canonical(gs) && #[trigger] encode_spec(gs) == text {
        ErrorView::Validation(
            choose|gs: Seq<Group>| canonical(gs) && #[trigger] encode_spec(gs) == text,
        )
    } else {
        ErrorView::Opaque(text)
    }
}

/// Decoding the text of a structured failure gives that failure back,
/// whatever its fields, codes and messages hold, and also where a message
/// is absent.
pub proof fn lemma_decode_inverts_encode(gs: Seq<Group>)
    requires
        canonical(gs),
    ensures
        decode_spec(encode_spec(gs)) == ErrorView::Validation(gs),
{
    let text = encode_spec(gs);
    let found = choose|found: Seq<Group>| canonical(found) && #[trigger] encode_spec(found) == text;
    lemma_encode_injective(found, gs);
}

/// Decoding is defined on every text. A text that is the text of no
/// structured failure is classified as opaque and kept unchanged; any
/// other is the text of the failure it decodes to.
pub proof fn lemma_decode_total(text: Seq<char>)
    ensures
        (forall|gs: Seq<Group>| canonical(gs) ==> #[trigger] encode_spec(gs) != text)
            ==> decode_spec(text) == ErrorView::Opaque(text),
        decode_spec(text) matches ErrorView::Validation(gs) ==> canonical(gs) && encode_spec(gs)
            == text,
        decode_spec(text) matches ErrorView::Opaque(kept) ==> kept == text,
        !(decode_spec(text) is Startup),
{
}

/// The reader decides what a text stands for.
proof fn lemma_decode_by_reading(text: Seq<char>)
    ensures
        decode_spec(text) == match read_text(text) {
            Some(gs) => if canonical(gs) {
                ErrorView::Validation(gs)
            } else {
                ErrorView::Opaque(text)
            },
            None => ErrorView::Opaque(text),
        },
{
    assert forall|gs: Seq<Group>| #[trigger] encode_spec(gs) == text implies read_text(text)
        == Some(gs) by {
        lemma_read_text_complete(gs);
    }
    if read_text(text) is Some {
        let gs = read_text(text)->0;
        lemma_read_text_sound(text);
        if canonical(gs) {
            lemma_decode_inverts_encode(gs);
        }
    }
}

/// The text that carries a structured failure across the channel.
pub fn encode(errors: &StructuredErrors) -> (text: String)
    ensures
        text@ == encode_spec(errors@),
        decode_spec(text@) == ErrorView::Validation(errors@),
{
    let groups = errors.groups();
    proof {
        lemma_decode_inverts_encode(errors@);
    }
    encode_groups(groups)
}

/// Classifies a text from the channel. It never fails: a text that
/// carries a structured failure gives that failure, any other text is
/// handed back unchanged as opaque.
pub fn decode(text: &str) -> (r: Error)
    ensures
        r@ == decode_spec(text@),
        r matches Error::Validation(errors) ==> canonical(errors@) && encode_spec(errors@)
            == text@,
        r matches Error::Opaque(kept) ==> kept@ == text@,
        !(r is Startup),
{
    proof {
        lemma_decode_by_reading(text@);
        lemma_decode_total(text@);
    }
    let cs = chars_of(text);
    match parse_text(&cs) {
        None => Error::Opaque(text.to_owned()),
        Some(groups) => match StructuredErrors::from_ordered(groups) {
            None => Error::Opaque(text.to_owned()),
            Some(errors) => Error::Validation(errors),
        },
    }
}

} // verus!
