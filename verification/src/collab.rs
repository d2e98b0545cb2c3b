//! External collaborators of the pipeline: Unicode character-class stripping
//! and lowercasing, the digit-to-diacritic pinyin transform, and the
//! proficiency-level catalog. Each call is wrapped in one trusted function
//! whose contract states what the collaborator's documentation promises.

use vstd::prelude::*;
use crate::text::is_space_char;

verus! {

/// Membership in the Unicode `Nd` (decimal number) category, the class that a
/// digit character class in a pattern matches. The category is too large to
/// enumerate here, so it is left uninterpreted.
pub uninterp spec fn is_decimal_digit_char(c: char) -> bool;

/// Membership in the Unicode `P` (punctuation) category. The category is too
/// large to enumerate here, so it is left uninterpreted.
pub uninterp spec fn is_punctuation_char(c: char) -> bool;

/// The Unicode lowercase conversion of a character sequence, a function of the
/// characters alone.
pub uninterp spec fn lower_of(s: Seq<char>) -> Seq<char>;

/// The diacritic-marked form of a digit-marked pinyin string, a pure function
/// of its input.
pub uninterp spec fn prettified(s: Seq<char>) -> Seq<char>;

/// The proficiency level of a simplified form under the embedded catalog:
/// a pure function of the queried form (0 when the form is not listed).
pub uninterp spec fn hsk_level_of(s: Seq<char>) -> u8;

/// `s` with every whitespace character removed.
pub open spec fn despaced(s: Seq<char>) -> Seq<char> {
    s.filter(|c: char| !is_space_char(c))
}

/// `s` with every whitespace character and every decimal digit removed.
pub open spec fn sans_digits_spaces(s: Seq<char>) -> Seq<char> {
    s.filter(|c: char| !is_space_char(c) && !is_decimal_digit_char(c))
}

/// `s` with every decimal digit and every punctuation character removed.
pub open spec fn sans_digits_punct(s: Seq<char>) -> Seq<char> {
    s.filter(|c: char| !is_decimal_digit_char(c) && !is_punctuation_char(c))
}

/// Relies on `regex`: the pattern `\s` matches exactly one character with the
/// Unicode `White_Space` property per match, so replacing every match with
/// the empty string deletes exactly the whitespace characters.
#[verifier::external_body]
pub(crate) fn remove_whitespace(s: &str) -> (r: String)
    ensures
        r@ == despaced(s@),
{
    let re = regex::Regex::new(r"\s").unwrap();
    re.replace_all(s, "").into_owned()
}

/// Relies on `regex`: the pattern `\d|\s` matches exactly one Unicode decimal
/// digit (`\p{Nd}`) or whitespace (`\p{White_Space}`) character per match, so
/// replacing every match with the empty string deletes exactly those
/// characters.
#[verifier::external_body]
pub(crate) fn remove_digits_and_whitespace(s: &str) -> (r: String)
    ensures
        r@ == sans_digits_spaces(s@),
        forall|i: int| 0 <= i < r@.len() ==> !is_decimal_digit_char(r@[i]),
{
    let re = regex::Regex::new(r"\d|\s").unwrap();
    re.replace_all(s, "").into_owned()
}

/// Relies on `regex`: the pattern `\d|\p{P}` matches exactly one Unicode
/// decimal digit (`\p{Nd}`) or punctuation (`\p{P}`) character per match, so
/// replacing every match with the empty string deletes exactly those
/// characters.
#[verifier::external_body]
pub(crate) fn remove_digits_and_punctuation(s: &str) -> (r: String)
    ensures
        r@ == sans_digits_punct(s@),
        forall|i: int| 0 <= i < r@.len() ==> !is_decimal_digit_char(r@[i]) && !is_punctuation_char(r@[i]),
{
    let re = regex::Regex::new(r"\d|\p{P}").unwrap();
    re.replace_all(s, "").into_owned()
}

/// Relies on `str::to_lowercase`: the result depends on the characters alone.
#[verifier::external_body]
pub(crate) fn lowercase(s: &str) -> (r: String)
    ensures
        r@ == lower_of(s@),
{
    s.to_lowercase()
}

/// Relies on `prettify_pinyin::prettify`: a table-driven rewrite of tone
/// digits into diacritics, a pure function of its input.
#[verifier::external_body]
pub(crate) fn prettify_marks(numbers: &str) -> (r: String)
    ensures
        r@ == prettified(numbers@),
{
    prettify_pinyin::prettify(numbers)
}

#[verifier::external_type_specification]
#[verifier::external_body]
pub struct ExHsk(hsk::Hsk);

/// Relies on `hsk::Hsk::new`: deserializes the catalog embedded in that
/// crate; there is no other constructor, so every `Hsk` value holds the same
/// catalog.
#[verifier::external_body]
pub(crate) fn load_hsk() -> (r: hsk::Hsk) {
    hsk::Hsk::new()
}

/// Relies on `hsk::Hsk::get_hsk`: looks the simplified form up in the
/// catalog and returns 0 when it is absent. Every `Hsk` holds the same
/// embedded catalog (see `load_hsk`), so the level is a function of the
/// queried form alone.
#[verifier::external_body]
pub(crate) fn hsk_level(list: &hsk::Hsk, simplified: &str) -> (r: u8)
    ensures
        r == hsk_level_of(simplified@),
{
    list.get_hsk(simplified)
}

} // verus!
