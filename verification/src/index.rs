//! The corpus index: a forward map from document identifier to that
//! document's term-frequency table, built one document at a time.
use vstd::prelude::*;
use crate::chars::ascii_lowercase;
use crate::chars::lower_seq;
use crate::extract::extract_text;
use crate::extract::extracted_text;
use crate::lexer::tokens;
use crate::table::counts_positive;
use crate::table::table_count;
use crate::table::table_total;
use crate::table::table_wf;
use crate::table::tally;
use crate::table::term_table;
use crate::table::token_count_of;
use crate::table::TableSpec;
use crate::table::TermTable;

verus! {

/// The mathematical shape of an index: identifiers with their tables,
/// in indexing order.
pub type IndexSpec = Seq<(Seq<char>, TableSpec)>;

/// Whether some document of `s` is identified by `id`.
pub open spec fn has_doc(s: IndexSpec, id: Seq<char>) -> bool {
    exists|i: int| 0 <= i < s.len() && s[i].0 == id
}

/// What the table recorded for a document must hold: nothing when its
/// text could not be extracted, and the tally of the lowercased text's
/// terms when it could.
pub open spec fn doc_table_matches(tbl: TableSpec, text: Option<Seq<char>>) -> bool {
    match text {
        Option::Some(t) => {
            &&& forall|term: Seq<char>| table_count(tbl, term) == tally(tokens(lower_seq(t)), term)
            &&& table_total(tbl) == token_count_of(lower_seq(t))
            &&& counts_positive(tbl)
        },
        Option::None => tbl.len() == 0,
    }
}

/// Identifiers are unique and every table is well formed.
pub open spec fn index_wf_spec(s: IndexSpec) -> bool {
    &&& forall|i: int, j: int| 0 <= i < j < s.len() ==> s[i].0 != s[j].0
    &&& forall|i: int| 0 <= i < s.len() ==> table_wf(#[trigger] s[i].1)
}

/// A forward index over a corpus of documents.
pub struct CorpusIndex {
    docs: Vec<(String, TermTable)>,
}

impl View for CorpusIndex {
    type V = IndexSpec;

    closed spec fn view(&self) -> IndexSpec {
        self.docs@.map_values(|d: (String, TermTable)| (d.0@, d.1@))
    }
}

impl CorpusIndex {
    /// Identifiers are unique and every table is well formed.
    pub open spec fn wf(&self) -> bool {
        index_wf_spec(self@)
    }

    pub fn new() -> (r: Self)
        ensures
            r.wf(),
            r@.len() == 0,
    {
        let r = CorpusIndex { docs: Vec::new() };
        proof {
            assert(r@ =~= Seq::<(Seq<char>, TableSpec)>::empty());
        }
        r
    }

    /// The number of documents.
    pub fn len(&self) -> (r: usize)
        ensures
            r == self@.len(),
    {
        self.docs.len()
    }

    /// The identifier of the document at `i`.
    pub fn doc_id(&self, i: usize) -> (r: String)
        requires
            i < self@.len(),
        ensures
            r@ == self@[i as int].0,
    {
        self.docs[i].0.clone()
    }

    /// Whether a document with this identifier is present.
    pub fn contains_doc(&self, id: &String) -> (r: bool)
        ensures
            r == has_doc(self@, id@),
    {
        let mut k: usize = 0;
        while k < self.docs.len()
            invariant
                k <= self@.len(),
                self@.len() == self.docs@.len(),
                forall|j: int| 0 <= j < k ==> self@[j].0 != id@,
            decreases self@.len() - k,
        {
            if self.docs[k].0 == *id {
                assert(self@[k as int].0 == id@);
                return true;
            }
            assert(self@[k as int].0 != id@);
            k += 1;
        }
        false
    }

    /// The count of `term` in the document at `i`.
    pub fn doc_count(&self, i: usize, term: &String) -> (r: usize)
        requires
            self.wf(),
            i < self@.len(),
        ensures
            r == table_count(self@[i as int].1, term@),
    {
        proof {
            assert(self@[i as int].1 == self.docs@[i as int].1@);
        }
        self.docs[i].1.count(term)
    }

    /// The token total of the document at `i`.
    pub fn doc_total(&self, i: usize) -> (r: usize)
        requires
            self.wf(),
            i < self@.len(),
        ensures
            r == table_total(self@[i as int].1),
    {
        proof {
            assert(self@[i as int].1 == self.docs@[i as int].1@);
        }
        self.docs[i].1.total()
    }

    /// The table of the document at `i`.
    pub fn doc_table(&self, i: usize) -> (r: &TermTable)
        requires
            i < self@.len(),
        ensures
            r@ == self@[i as int].1,
    {
        proof {
            assert(self@[i as int].1 == self.docs@[i as int].1@);
        }
        &self.docs[i].1
    }

    /// Appends a document with an already-built table under a fresh
    /// identifier.
    pub fn insert_table(&mut self, id: String, tbl: TermTable)
        requires
            old(self).wf(),
            !has_doc(old(self)@, id@),
            tbl.wf(),
        ensures
            final(self).wf(),
            final(self)@ == old(self)@.push((id@, tbl@)),
    {
        let ghost s0 = self@;
        let ghost tv = tbl@;
        let ghost idv = id@;
        self.docs.push((id, tbl));
        proof {
            assert(self@ =~= s0.push((idv, tv)));
            assert forall|i: int, j: int| 0 <= i < j < self@.len() implies self@[i].0 != self@[j].0
                by {
                if j == s0.len() as int {
                    assert(self@[i] == s0[i]);
                    assert(!(s0[i].0 == idv));
                }
            }
        }
    }

    /// Records a document: a failed extraction leaves an empty table, a
    /// successful one is lowercased and tallied.
    pub fn add_document(&mut self, id: String, text: Option<&String>)
        requires
            old(self).wf(),
            !has_doc(old(self)@, id@),
        ensures
            final(self).wf(),
            final(self)@.len() == old(self)@.len() + 1,
            forall|j: int| 0 <= j < old(self)@.len() ==> final(self)@[j] == old(self)@[j],
            final(self)@.last().0 == id@,
            doc_table_matches(
                final(self)@.last().1,
                match text {
                    Option::Some(t) => Some(t@),
                    Option::None => None,
                },
            ),
    {
        let ghost s0 = self@;
        let tbl = match text {
            Some(t) => {
                let lowered = ascii_lowercase(t.as_str());
                term_table(lowered.as_str())
            },
            None => TermTable::new(),
        };
        let ghost tv = tbl@;
        self.docs.push((id, tbl));
        proof {
            assert(self@ =~= s0.push((id@, tv)));
            assert(self@.last() == (id@, tv));
            assert forall|i: int, j: int| 0 <= i < j < self@.len() implies self@[i].0 != self@[j].0
                by {
                if j == s0.len() as int {
                    assert(self@[i] == s0[i]);
                    assert(!(s0[i].0 == id@));
                }
            }
            if tv.len() == 0 {
                assert(doc_table_matches(tv, None));
            }
        }
    }
}

/// Indexes a corpus of already-extracted documents: one entry per
/// document, in order; a document whose text is missing gets an empty
/// table.
pub fn index_documents(docs: Vec<(String, Option<String>)>) -> (r: CorpusIndex)
    requires
        forall|i: int, j: int| 0 <= i < j < docs@.len() ==> docs@[i].0@ != docs@[j].0@,
    ensures
        r.wf(),
        r@.len() == docs@.len(),
        forall|j: int| 0 <= j < docs@.len() ==> r@[j].0 == docs@[j].0@,
        forall|j: int|
            0 <= j < docs@.len() ==> doc_table_matches(
                r@[j].1,
                match docs@[j].1 {
                    Option::Some(t) => Some(t@),
                    Option::None => None,
                },
            ),
{
    let mut r = CorpusIndex::new();
    let mut k: usize = 0;
    while k < docs.len()
        invariant
            r.wf(),
            k <= docs@.len(),
            r@.len() == k,
            forall|i: int, j: int| 0 <= i < j < docs@.len() ==> docs@[i].0@ != docs@[j].0@,
            forall|j: int| 0 <= j < k ==> r@[j].0 == docs@[j].0@,
            forall|j: int|
                0 <= j < k ==> doc_table_matches(
                    r@[j].1,
                    match docs@[j].1 {
                        Option::Some(t) => Some(t@),
                        Option::None => None,
                    },
                ),
        decreases docs@.len() - k,
    {
        proof {
            assert(!has_doc(r@, docs@[k as int].0@)) by {
                if has_doc(r@, docs@[k as int].0@) {
                    let i = choose|i: int| 0 <= i < r@.len() && r@[i].0 == docs@[k as int].0@;
                    assert(docs@[i].0@ == docs@[k as int].0@);
                }
            }
        }
        let entry = &docs[k];
        let id = entry.0.clone();
        match &entry.1 {
            Some(t) => {
                r.add_document(id, Some(t));
            },
            None => {
                r.add_document(id, None);
            },
        }
        k += 1;
    }
    r
}

/// Indexes a corpus of raw xml documents: text extraction that fails
/// leaves that document indexed with an empty table, and indexing goes
/// on with the rest.
pub fn index_xml_documents(docs: Vec<(String, String)>) -> (r: CorpusIndex)
    requires
        forall|i: int, j: int| 0 <= i < j < docs@.len() ==> docs@[i].0@ != docs@[j].0@,
    ensures
        r.wf(),
        r@.len() == docs@.len(),
        forall|j: int| 0 <= j < docs@.len() ==> r@[j].0 == docs@[j].0@,
        forall|j: int|
            0 <= j < docs@.len() ==> doc_table_matches(r@[j].1, extracted_text(docs@[j].1@)),
{
    let mut r = CorpusIndex::new();
    let mut k: usize = 0;
    while k < docs.len()
        invariant
            r.wf(),
            k <= docs@.len(),
            r@.len() == k,
            forall|i: int, j: int| 0 <= i < j < docs@.len() ==> docs@[i].0@ != docs@[j].0@,
            forall|j: int| 0 <= j < k ==> r@[j].0 == docs@[j].0@,
            forall|j: int| 0 <= j < k ==> doc_table_matches(r@[j].1, extracted_text(docs@[j].1@)),
        decreases docs@.len() - k,
    {
        proof {
            assert(!has_doc(r@, docs@[k as int].0@)) by {
                if has_doc(r@, docs@[k as int].0@) {
                    let i = choose|i: int| 0 <= i < r@.len() && r@[i].0 == docs@[k as int].0@;
                    assert(docs@[i].0@ == docs@[k as int].0@);
                }
            }
        }
        let entry = &docs[k];
        let id = entry.0.clone();
        match extract_text(entry.1.as_str()) {
            Some(text) => {
                r.add_document(id, Some(&text));
            },
            None => {
                r.add_document(id, None);
            },
        }
        k += 1;
    }
    r
}

} // verus!
