//! The Unicode character data that the library takes from elsewhere: case
//! properties, case mappings and the alphabetic property from the standard
//! library, and the division of text into user-perceived characters from
//! the `unicode-segmentation` crate.
//!
//! Each table is given a name here, and the function below it hands out the
//! answer under that name. Nothing else about the tables is known to the
//! proofs.

use vstd::prelude::*;

verus! {

/// Whether a character has the Unicode `Uppercase` property.
pub uninterp spec fn is_uppercase(c: char) -> bool;

/// Whether a character has the Unicode `Alphabetic` property.
pub uninterp spec fn is_alphabetic(c: char) -> bool;

/// The uppercase mapping of a character: one or more characters.
pub uninterp spec fn uppercase_of(c: char) -> Seq<char>;

/// The lowercase mapping of a character: one or more characters.
pub uninterp spec fn lowercase_of(c: char) -> Seq<char>;

/// The lowercase form of a whole string. It is not the concatenation of
/// `lowercase_of` over the characters: some mappings depend on the
/// neighbouring characters.
pub uninterp spec fn lowercase(s: Seq<char>) -> Seq<char>;

/// `char::is_uppercase`: answers with the character's `Uppercase` property.
#[verifier::external_body]
pub(crate) fn char_is_uppercase(c: char) -> (b: bool)
    ensures
        b == is_uppercase(c),
{
    c.is_uppercase()
}

/// `char::is_alphabetic`: answers with the character's `Alphabetic` property.
#[verifier::external_body]
pub(crate) fn char_is_alphabetic(c: char) -> (b: bool)
    ensures
        b == is_alphabetic(c),
{
    c.is_alphabetic()
}

/// `char::to_uppercase`, collected into a string: the uppercase mapping.
#[verifier::external_body]
pub(crate) fn char_to_uppercase(c: char) -> (s: String)
    ensures
        s@ == uppercase_of(c),
{
    c.to_uppercase().collect()
}

/// `char::to_lowercase`, collected into a string: the lowercase mapping.
#[verifier::external_body]
pub(crate) fn char_to_lowercase(c: char) -> (s: String)
    ensures
        s@ == lowercase_of(c),
{
    c.to_lowercase().collect()
}

/// `str::to_lowercase`: the lowercase form of the string.
#[verifier::external_body]
pub(crate) fn str_to_lowercase(s: &str) -> (r: String)
    ensures
        r@ == lowercase(s@),
{
    s.to_lowercase()
}

/// The user-perceived characters of a text, in order: its extended grapheme
/// clusters, each a base character with the marks that extend it.
pub uninterp spec fn clusters(text: Seq<char>) -> Seq<Seq<char>>;

/// The contents of a vector of string slices.
pub open spec fn slices_view(v: Seq<&str>) -> Seq<Seq<char>> {
    Seq::new(v.len(), |i: int| v[i]@)
}

/// `UnicodeSegmentation::graphemes` of the `unicode-segmentation` crate, for
/// extended clusters, collected: the user-perceived characters of the text.
#[verifier::external_body]
pub(crate) fn grapheme_clusters<'a>(text: &'a str) -> (parts: Vec<&'a str>)
    ensures
        slices_view(parts@) == clusters(text@),
{
    unicode_segmentation::UnicodeSegmentation::graphemes(text, true).collect()
}

} // verus!
