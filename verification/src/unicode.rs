//! Trusted boundary to the Unicode crates and to the few `std` string
//! operations that vstd leaves unspecified.
//!
//! Each wrapper makes exactly one outside call; results that have no short
//! mathematical description (decomposition, mark classification, grapheme
//! segmentation, lowercasing, the white-space property) are given a name by
//! an uninterpreted spec function, so that callers' contracts can be exact.

use vstd::prelude::*;
use unicode_normalization::UnicodeNormalization;
use unicode_categories::UnicodeCategories;
use unicode_segmentation::UnicodeSegmentation;

verus! {

/// The character sequence that canonical decomposition (NFD) yields for `s`;
/// it depends on the characters alone.
pub uninterp spec fn nfd_of(s: Seq<char>) -> Seq<char>;

/// Whether `c` is in the Unicode "non-spacing mark" category.
pub uninterp spec fn is_nonspacing_mark(c: char) -> bool;

/// The extended grapheme clusters of `s`, in order; they depend on the
/// characters alone.
pub uninterp spec fn graphemes_of(s: Seq<char>) -> Seq<Seq<char>>;

/// The lowercase form of `s` per the Unicode lowercase mapping; it depends on
/// the characters alone.
pub uninterp spec fn lower_of(s: Seq<char>) -> Seq<char>;

/// Whether `c` has the Unicode `White_Space` property.
pub uninterp spec fn is_unicode_white(c: char) -> bool;

/// Relies on `unicode_normalization::UnicodeNormalization::nfd`: yields the
/// canonical decomposition of the input characters.
#[verifier::external_body]
pub fn nfd_chars(s: &str) -> (r: Vec<char>)
    ensures
        r@ == nfd_of(s@),
{
    s.nfd().collect()
}

/// Relies on `unicode_categories::UnicodeCategories::is_mark_nonspacing`:
/// tests membership in the "non-spacing mark" category.
#[verifier::external_body]
pub fn char_is_nonspacing_mark(c: char) -> (r: bool)
    ensures
        r == is_nonspacing_mark(c),
{
    c.is_mark_nonspacing()
}

/// Relies on `unicode_segmentation::UnicodeSegmentation::graphemes` (extended
/// clusters): segmentation partitions the input, so the clusters are
/// non-empty and concatenate back to the input.
#[verifier::external_body]
pub fn grapheme_clusters(s: &str) -> (r: Vec<String>)
    ensures
        r.deep_view() == graphemes_of(s@),
        r.deep_view().flatten() == s@,
        forall|i: int| 0 <= i < r.deep_view().len() ==> r.deep_view()[i].len() > 0,
{
    s.graphemes(true).map(|g| g.to_string()).collect()
}

/// Relies on `str::to_lowercase`: the result depends on the characters alone.
#[verifier::external_body]
pub fn to_lower(s: &str) -> (r: String)
    ensures
        r@ == lower_of(s@),
{
    s.to_lowercase()
}

/// Relies on `char::is_whitespace`: tests the Unicode `White_Space` property.
#[verifier::external_body]
pub fn char_is_white(c: char) -> (r: bool)
    ensures
        r == is_unicode_white(c),
{
    c.is_whitespace()
}

/// Relies on `str::chars`: the characters of a string slice, which are its
/// view in specifications.
#[verifier::external_body]
pub fn chars_of(s: &str) -> (r: Vec<char>)
    ensures
        r@ == s@,
{
    s.chars().collect()
}

/// Relies on `String: FromIterator<char>`: builds the string with exactly the
/// given characters.
#[verifier::external_body]
pub fn string_from_chars(v: &Vec<char>) -> (r: String)
    ensures
        r@ == v@,
{
    v.iter().collect()
}

} // verus!
