//! Character classes used by the tokenizer, and conversions between
//! strings and character vectors.
use vstd::prelude::*;
use vstd::string::StrSliceExecFns;

verus! {

/// How std classifies a character: whitespace, or a glyph that may be
/// alphabetic and/or numeric (letter-number code points are both).
pub enum CharKind {
    Whitespace,
    Glyph { alphabetic: bool, numeric: bool },
}

/// The classification of `c`, left abstract.  One classification
/// stands behind the three std predicates, carrying what their
/// definitions give: a `White_Space` code point lies outside the
/// `Alphabetic` property and the numeric general categories, so a
/// whitespace character is never alphabetic or numeric.
pub uninterp spec fn char_kind(c: char) -> CharKind;

/// Whether `char::is_whitespace` holds of `c`.
pub open spec fn char_whitespace(c: char) -> bool {
    char_kind(c) is Whitespace
}

/// Whether `char::is_numeric` holds of `c`.
pub open spec fn char_numeric(c: char) -> bool {
    match char_kind(c) {
        CharKind::Glyph { alphabetic, numeric } => numeric,
        CharKind::Whitespace => false,
    }
}

/// Whether `char::is_alphabetic` holds of `c`.
pub open spec fn char_alphabetic(c: char) -> bool {
    match char_kind(c) {
        CharKind::Glyph { alphabetic, numeric } => alphabetic,
        CharKind::Whitespace => false,
    }
}

/// `char::is_alphanumeric` is documented as alphabetic-or-numeric.
pub open spec fn char_alphanumeric(c: char) -> bool {
    char_alphabetic(c) || char_numeric(c)
}

/// A whitespace character is neither alphabetic nor numeric: the
/// classes share one classification, which makes this definitional.
pub proof fn lemma_whitespace_disjoint(c: char)
    ensures
        char_whitespace(c) ==> !char_alphabetic(c) && !char_numeric(c),
{
}

/// Relies on `char::is_whitespace`: a pure predicate on the character.
pub assume_specification[ char::is_whitespace ](c: char) -> (r: bool)
    ensures
        r == char_whitespace(c),
        r == (char_kind(c) is Whitespace),
;

/// Relies on `char::is_numeric`: a pure predicate on the character.
pub assume_specification[ char::is_numeric ](c: char) -> (r: bool)
    ensures
        r == char_numeric(c),
;

/// Relies on `char::is_alphabetic`: a pure predicate on the character.
pub assume_specification[ char::is_alphabetic ](c: char) -> (r: bool)
    ensures
        r == char_alphabetic(c),
;

/// Relies on `char::is_alphanumeric`: documented by std as holding
/// exactly when the character is alphabetic or numeric.
pub assume_specification[ char::is_alphanumeric ](c: char) -> (r: bool)
    ensures
        r == (char_alphabetic(c) || char_numeric(c)),
;

/// The ASCII lowercasing of one character: uppercase ASCII letters are
/// shifted to their lowercase forms, all other characters are unchanged.
pub open spec fn lower_char(c: char) -> char {
    if 65 <= c as u32 && c as u32 <= 90 {
        ((c as u32 + 32) as u8) as char
    } else {
        c
    }
}

/// The ASCII lowercasing of a character sequence, character by character.
pub open spec fn lower_seq(s: Seq<char>) -> Seq<char> {
    s.map_values(|c: char| lower_char(c))
}

/// The characters of `s`, in order, as a vector.
pub fn chars_of(s: &str) -> (r: Vec<char>)
    ensures
        r@ == s@,
{
    let n = s.unicode_len();
    let mut v: Vec<char> = Vec::new();
    let mut i: usize = 0;
    while i < n
        invariant
            n == s@.len(),
            i <= n,
            v@ == s@.take(i as int),
        decreases n - i,
    {
        v.push(s.get_char(i));
        i += 1;
        assert(v@ =~= s@.take(i as int));
    }
    assert(v@ =~= s@);
    v
}

/// Relies on `String::from_iter` over characters: the resulting string
/// holds exactly the given characters in order.
#[verifier::external_body]
pub(crate) fn string_from_chars(v: &[char]) -> (r: String)
    ensures
        r@ == v@,
{
    v.iter().collect()
}

/// ASCII-lowercases every character of `s`.
pub fn ascii_lowercase(s: &str) -> (r: String)
    ensures
        r@ == lower_seq(s@),
{
    let cs = chars_of(s);
    let mut out: Vec<char> = Vec::new();
    let mut i: usize = 0;
    while i < cs.len()
        invariant
            i <= cs@.len(),
            cs@ == s@,
            out@ =~= lower_seq(s@).take(i as int),
        decreases cs@.len() - i,
    {
        let c = cs[i];
        let u = c as u32;
        if 65 <= u && u <= 90 {
            out.push(((u + 32) as u8) as char);
        } else {
            out.push(c);
        }
        i += 1;
        assert(out@ =~= lower_seq(s@).take(i as int));
    }
    assert(out@ =~= lower_seq(s@));
    string_from_chars(out.as_slice())
}

} // verus!
