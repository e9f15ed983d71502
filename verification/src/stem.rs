//! Optional term normalization: a pluggable stemming step that may be
//! applied to terms before counting or matching.
use vstd::prelude::*;

verus! {

/// What the English snowball stemmer returns for a term; a pure
/// function of the characters, left abstract.
pub uninterp spec fn stem_of(s: Seq<char>) -> Seq<char>;

/// How terms are normalized: kept as they are, or stemmed.
#[derive(Clone, Copy)]
pub enum Normalizer {
    Plain,
    EnglishStem,
}

/// The normal form of a term under a normalizer.
pub open spec fn normal_form(m: Normalizer, s: Seq<char>) -> Seq<char> {
    match m {
        Normalizer::Plain => s,
        Normalizer::EnglishStem => stem_of(s),
    }
}

/// Relies on `rust_stemmers::Stemmer::create` with the English
/// algorithm and its `stem`: the result is a pure function of the
/// input characters.
#[verifier::external_body]
fn stem_english(s: &str) -> (r: String)
    ensures
        r@ == stem_of(s@),
{
    rust_stemmers::Stemmer::create(rust_stemmers::Algorithm::English).stem(s).into_owned()
}

/// Normalizes one term.
pub fn normalize_term(m: Normalizer, term: &String) -> (r: String)
    ensures
        r@ == normal_form(m, term@),
{
    match m {
        Normalizer::Plain => term.clone(),
        Normalizer::EnglishStem => stem_english(term.as_str()),
    }
}

/// Normalizes every term of a token sequence, keeping the order.
pub fn normalize_tokens(m: Normalizer, toks: &Vec<String>) -> (r: Vec<String>)
    ensures
        r@.len() == toks@.len(),
        forall|i: int| 0 <= i < r@.len() ==> r@[i]@ == normal_form(m, toks@[i]@),
{
    let mut out: Vec<String> = Vec::new();
    let mut k: usize = 0;
    while k < toks.len()
        invariant
            k <= toks@.len(),
            out@.len() == k,
            forall|i: int| 0 <= i < k ==> out@[i]@ == normal_form(m, toks@[i]@),
        decreases toks@.len() - k,
    {
        let t = normalize_term(m, &toks[k]);
        out.push(t);
        k += 1;
    }
    out
}

} // verus!
