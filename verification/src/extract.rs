//! Text extraction from structured documents: the character data of an
//! xml document, joined with spaces, through the xml reader.
use vstd::prelude::*;
use vstd::string::StringExecFns;

verus! {

/// What the xml reader extracts from a document: its character-data
/// runs in order, or nothing when the document is ill-formed.
pub uninterp spec fn xml_extract(s: Seq<char>) -> Option<Seq<Seq<char>>>;

#[verifier::external_type_specification]
#[verifier::external_body]
pub struct ExXmlError(xml::reader::Error);

/// Relies on `xml::reader::EventReader::from_str` and its event
/// iterator: parsing is a pure function of the input string; the
/// `Characters` events are collected in order, and ill-formed input
/// reports an error instead.
#[verifier::external_body]
fn xml_characters(s: &str) -> (r: Result<Vec<String>, xml::reader::Error>)
    ensures
        match r {
            Result::Ok(v) => xml_extract(s@) == Some(v.deep_view()),
            Result::Err(_) => xml_extract(s@) is None,
        },
{
    let mut out: Vec<String> = Vec::new();
    for event in xml::reader::EventReader::from_str(s) {
        match event {
            Ok(xml::reader::XmlEvent::Characters(text)) => out.push(text),
            Ok(_) => {},
            Err(e) => return Err(e),
        }
    }
    Ok(out)
}

/// The texts joined in order, one space after each.
pub open spec fn joined_texts(ts: Seq<Seq<char>>) -> Seq<char>
    decreases ts.len(),
{
    if ts.len() == 0 {
        Seq::empty()
    } else {
        ts[0] + seq![' '] + joined_texts(ts.drop_first())
    }
}

pub proof fn lemma_joined_push(ts: Seq<Seq<char>>, x: Seq<char>)
    ensures
        joined_texts(ts.push(x)) == joined_texts(ts) + x + seq![' '],
    decreases ts.len(),
{
    let p = ts.push(x);
    if ts.len() == 0 {
        assert(p.drop_first() =~= Seq::<Seq<char>>::empty());
        assert(p[0] == x);
        assert(joined_texts(p) == p[0] + seq![' '] + joined_texts(p.drop_first()));
        assert(joined_texts(p) =~= joined_texts(ts) + x + seq![' ']);
    } else {
        assert(p.drop_first() =~= ts.drop_first().push(x));
        assert(p[0] == ts[0]);
        lemma_joined_push(ts.drop_first(), x);
        assert(joined_texts(p) == p[0] + seq![' '] + joined_texts(p.drop_first()));
        assert(joined_texts(p.drop_first()) == joined_texts(ts.drop_first()) + x + seq![' ']);
        assert(joined_texts(p) =~= joined_texts(ts) + x + seq![' ']);
    }
}

/// The extracted text of an xml document: its character-data runs each
/// followed by one space, or nothing when the document is ill-formed.
pub open spec fn extracted_text(x: Seq<char>) -> Option<Seq<char>> {
    match xml_extract(x) {
        Some(ts) => Some(joined_texts(ts)),
        None => None,
    }
}

/// Extracts the plain text of an xml document, or reports that it is
/// ill-formed.
pub fn extract_text(x: &str) -> (r: Option<String>)
    ensures
        match r {
            Option::Some(t) => extracted_text(x@) == Some(t@),
            Option::None => extracted_text(x@) is None,
        },
{
    match xml_characters(x) {
        Result::Err(_) => None,
        Result::Ok(texts) => {
            let ghost all = texts.deep_view();
            let mut out = String::new();
            let mut i: usize = 0;
            while i < texts.len()
                invariant
                    i <= texts@.len(),
                    all == texts.deep_view(),
                    all.len() == texts@.len(),
                    out@ == joined_texts(all.take(i as int)),
                decreases texts@.len() - i,
            {
                let ghost pre = all.take(i as int);
                out.append(texts[i].as_str());
                out.append(" ");
                proof {
                    reveal_strlit(" ");
                    assert(" "@ =~= seq![' ']);
                    assert(all[i as int] == texts@[i as int]@);
                    assert(all.take(i as int + 1) =~= pre.push(all[i as int]));
                    lemma_joined_push(pre, all[i as int]);
                    assert(out@ =~= joined_texts(all.take(i as int + 1)));
                }
                i += 1;
            }
            proof {
                assert(all.take(texts@.len() as int) =~= all);
            }
            Some(out)
        },
    }
}

} // verus!
