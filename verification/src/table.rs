//! Per-document term-frequency tables: a map from term to occurrence
//! count, built by tallying the terms the tokenizer produces.
use vstd::prelude::*;
use vstd::pervasive::VecAdditionalExecFns;
use crate::lexer::tokens;
use crate::lexer::views_of;

verus! {

/// The mathematical shape of a table: keyed counts, in insertion order.
pub type TableSpec = Seq<(Seq<char>, nat)>;

/// Whether some entry of `t` is keyed by `k`.
pub open spec fn has_key(t: TableSpec, k: Seq<char>) -> bool {
    exists|i: int| 0 <= i < t.len() && t[i].0 == k
}

/// Every stored count is positive: a table never holds an entry for a
/// term that does not occur.
pub open spec fn counts_positive(t: TableSpec) -> bool {
    forall|i: int| 0 <= i < t.len() ==> (#[trigger] t[i]).1 > 0
}

/// The count stored for `term`: the first entry keyed by it, or zero.
pub open spec fn table_count(t: TableSpec, term: Seq<char>) -> nat
    decreases t.len(),
{
    if t.len() == 0 {
        0
    } else if t[0].0 == term {
        t[0].1
    } else {
        table_count(t.drop_first(), term)
    }
}

/// The sum of all counts of `t`.
pub open spec fn table_total(t: TableSpec) -> nat
    decreases t.len(),
{
    if t.len() == 0 {
        0
    } else {
        t[0].1 + table_total(t.drop_first())
    }
}

/// How many elements of `toks` equal `term`.
pub open spec fn tally(toks: Seq<Seq<char>>, term: Seq<char>) -> nat
    decreases toks.len(),
{
    if toks.len() == 0 {
        0
    } else {
        (if toks[0] == term {
            1nat
        } else {
            0nat
        }) + tally(toks.drop_first(), term)
    }
}

pub proof fn lemma_tally_push(toks: Seq<Seq<char>>, x: Seq<char>, term: Seq<char>)
    ensures
        tally(toks.push(x), term) == tally(toks, term) + (if x == term {
            1nat
        } else {
            0nat
        }),
    decreases toks.len(),
{
    if toks.len() == 0 {
        assert(toks.push(x).drop_first() =~= toks);
    } else {
        assert(toks.push(x).drop_first() =~= toks.drop_first().push(x));
        lemma_tally_push(toks.drop_first(), x, term);
    }
}

/// A positive tally means the term occurs, and the other way round.
pub proof fn lemma_tally_positive(toks: Seq<Seq<char>>, term: Seq<char>)
    ensures
        tally(toks, term) > 0 <==> toks.contains(term),
    decreases toks.len(),
{
    if toks.len() > 0 {
        lemma_tally_positive(toks.drop_first(), term);
        if tally(toks, term) > 0 {
            if toks[0] == term {
                assert(toks.contains(term));
            } else {
                let i = choose|i: int| 0 <= i < toks.drop_first().len() && toks.drop_first()[i]
                    == term;
                assert(toks[i + 1] == term);
            }
        }
        if toks.contains(term) {
            let i = choose|i: int| 0 <= i < toks.len() && toks[i] == term;
            if i > 0 {
                assert(toks.drop_first()[i - 1] == term);
            }
        }
    }
}

/// The entry at `k` counts no more than the whole table.
pub proof fn lemma_entry_le_total(t: TableSpec, k: int)
    requires
        0 <= k < t.len(),
    ensures
        t[k].1 <= table_total(t),
    decreases t.len(),
{
    if k > 0 {
        assert(t.drop_first()[k - 1] == t[k]);
        lemma_entry_le_total(t.drop_first(), k - 1);
    }
}

/// Every count is at most the total.
pub proof fn lemma_count_le_total(t: TableSpec, term: Seq<char>)
    ensures
        table_count(t, term) <= table_total(t),
    decreases t.len(),
{
    if t.len() > 0 {
        lemma_count_le_total(t.drop_first(), term);
    }
}

/// With no earlier entry keyed by `term`, the count is the one at `i`.
pub proof fn lemma_count_at(t: TableSpec, i: int, term: Seq<char>)
    requires
        0 <= i < t.len(),
        t[i].0 == term,
        forall|j: int| 0 <= j < i ==> t[j].0 != term,
    ensures
        table_count(t, term) == t[i].1,
    decreases t.len(),
{
    if i > 0 {
        assert forall|j: int| 0 <= j < i - 1 implies t.drop_first()[j].0 != term by {
            assert(t.drop_first()[j] == t[j + 1]);
        }
        lemma_count_at(t.drop_first(), i - 1, term);
    }
}

pub proof fn lemma_count_update(t: TableSpec, i: int, c: nat, x: Seq<char>)
    requires
        0 <= i < t.len(),
        t[i].0 != x,
    ensures
        table_count(t.update(i, (t[i].0, c)), x) == table_count(t, x),
    decreases t.len(),
{
    let u = t.update(i, (t[i].0, c));
    if i == 0 {
        assert(u.drop_first() =~= t.drop_first());
    } else {
        assert(u.drop_first() =~= t.drop_first().update(i - 1, (t[i].0, c)));
        lemma_count_update(t.drop_first(), i - 1, c, x);
    }
}

pub proof fn lemma_total_update(t: TableSpec, i: int, c: nat)
    requires
        0 <= i < t.len(),
    ensures
        table_total(t.update(i, (t[i].0, c))) == table_total(t) - t[i].1 + c,
    decreases t.len(),
{
    let u = t.update(i, (t[i].0, c));
    if i == 0 {
        assert(u.drop_first() =~= t.drop_first());
    } else {
        assert(u.drop_first() =~= t.drop_first().update(i - 1, (t[i].0, c)));
        lemma_total_update(t.drop_first(), i - 1, c);
    }
}

pub proof fn lemma_count_push(t: TableSpec, e: (Seq<char>, nat), x: Seq<char>)
    ensures
        table_count(t.push(e), x) == if has_key(t, x) {
            table_count(t, x)
        } else if x == e.0 {
            e.1
        } else {
            0nat
        },
    decreases t.len(),
{
    if t.len() == 0 {
        assert(t.push(e).drop_first() =~= t);
        assert(t.push(e)[0] == e);
        assert(!has_key(t, x));
        if x == e.0 {
            assert(table_count(t.push(e), x) == e.1);
        } else {
            assert(table_count(t.push(e), x) == table_count(t, x));
        }
    } else {
        assert(t.push(e).drop_first() =~= t.drop_first().push(e));
        assert(t.push(e)[0] == t[0]);
        lemma_count_push(t.drop_first(), e, x);
        if t[0].0 == x {
            assert(has_key(t, x)) by {
                assert(t[0].0 == x);
            }
        } else {
            if has_key(t, x) {
                let i = choose|i: int| 0 <= i < t.len() && t[i].0 == x;
                assert(t.drop_first()[i - 1].0 == x);
                assert(has_key(t.drop_first(), x));
            } else {
                assert(!has_key(t.drop_first(), x)) by {
                    if has_key(t.drop_first(), x) {
                        let i = choose|i: int|
                            0 <= i < t.drop_first().len() && t.drop_first()[i].0 == x;
                        assert(t[i + 1].0 == x);
                    }
                }
            }
        }
    }
}

pub proof fn lemma_total_push(t: TableSpec, e: (Seq<char>, nat))
    ensures
        table_total(t.push(e)) == table_total(t) + e.1,
    decreases t.len(),
{
    if t.len() == 0 {
        assert(t.push(e).drop_first() =~= t);
    } else {
        assert(t.push(e).drop_first() =~= t.drop_first().push(e));
        lemma_total_push(t.drop_first(), e);
    }
}

/// A term-frequency table for one document.
pub struct TermTable {
    entries: Vec<(String, usize)>,
}

impl View for TermTable {
    type V = TableSpec;

    closed spec fn view(&self) -> TableSpec {
        self.entries@.map_values(|e: (String, usize)| (e.0@, e.1 as nat))
    }
}

/// Keys are unique and the total count fits the machine.
pub open spec fn table_wf(t: TableSpec) -> bool {
    &&& forall|i: int, j: int| 0 <= i < j < t.len() ==> t[i].0 != t[j].0
    &&& table_total(t) <= usize::MAX
}

impl TermTable {
    /// Keys are unique and the total count fits the machine.
    pub open spec fn wf(&self) -> bool {
        table_wf(self@)
    }

    pub fn new() -> (r: Self)
        ensures
            r.wf(),
            r@.len() == 0,
    {
        let r = TermTable { entries: Vec::new() };
        proof {
            assert(r@ =~= Seq::<(Seq<char>, nat)>::empty());
        }
        r
    }

    /// The number of entries.
    pub fn len(&self) -> (r: usize)
        ensures
            r == self@.len(),
    {
        self.entries.len()
    }

    /// The term and count of the entry at `i`.
    pub fn entry_at(&self, i: usize) -> (r: (String, usize))
        requires
            i < self@.len(),
        ensures
            (r.0@, r.1 as nat) == self@[i as int],
    {
        let e = &self.entries[i];
        (e.0.clone(), e.1)
    }

    /// The index of the entry keyed by `term`, if any.
    fn find(&self, term: &String) -> (r: Option<usize>)
        ensures
            match r {
                Option::Some(i) => i < self@.len() && self@[i as int].0 == term@ && (forall|j: int|
                    0 <= j < i ==> self@[j].0 != term@),
                Option::None => !has_key(self@, term@),
            },
    {
        let mut k: usize = 0;
        while k < self.entries.len()
            invariant
                k <= self@.len(),
                self@.len() == self.entries@.len(),
                forall|j: int| 0 <= j < k ==> self@[j].0 != term@,
            decreases self@.len() - k,
        {
            if self.entries[k].0 == *term {
                assert(self@[k as int].0 == term@);
                return Some(k);
            }
            assert(self@[k as int].0 != term@);
            k += 1;
        }
        assert(!has_key(self@, term@));
        None
    }

    /// The count recorded for `term`, zero when it is absent.
    pub fn count(&self, term: &String) -> (r: usize)
        requires
            self.wf(),
        ensures
            r == table_count(self@, term@),
    {
        match self.find(term) {
            Some(i) => {
                proof {
                    lemma_count_at(self@, i as int, term@);
                }
                self.entries[i].1
            },
            None => {
                proof {
                    lemma_count_none(self@, term@);
                }
                0
            },
        }
    }

    /// The sum of all counts.
    pub fn total(&self) -> (r: usize)
        requires
            self.wf(),
        ensures
            r == table_total(self@),
    {
        let mut sum: usize = 0;
        let mut k: usize = 0;
        proof {
            lemma_total_take(self@, 0);
        }
        while k < self.entries.len()
            invariant
                self.wf(),
                k <= self@.len(),
                self@.len() == self.entries@.len(),
                sum == table_total(self@.take(k as int)),
            decreases self@.len() - k,
        {
            proof {
                lemma_total_take(self@, k as int + 1);
                lemma_total_prefix_le(self@, k as int + 1);
            }
            sum = sum + self.entries[k].1;
            k += 1;
        }
        proof {
            assert(self@.take(self@.len() as int) =~= self@);
        }
        sum
    }

    /// Whether an entry is keyed by `key`.
    pub fn contains_key(&self, key: &String) -> (r: bool)
        ensures
            r == has_key(self@, key@),
    {
        match self.find(key) {
            Some(_) => {
                assert(has_key(self@, key@));
                true
            },
            None => false,
        }
    }

    /// Appends an entry for a fresh key.
    pub fn push_entry(&mut self, key: String, count: usize)
        requires
            old(self).wf(),
            !has_key(old(self)@, key@),
            table_total(old(self)@) + count <= usize::MAX,
        ensures
            final(self).wf(),
            final(self)@ == old(self)@.push((key@, count as nat)),
    {
        let ghost t0 = self@;
        let ghost kv = key@;
        self.entries.push((key, count));
        proof {
            assert(self@ =~= t0.push((kv, count as nat)));
            lemma_total_push(t0, (kv, count as nat));
            assert forall|i: int, j: int| 0 <= i < j < self@.len() implies self@[i].0 != self@[j].0
                by {
                if j == t0.len() as int {
                    assert(self@[i] == t0[i]);
                    assert(!(t0[i].0 == kv));
                }
            }
        }
    }

    /// Adds one occurrence of `term`.
    pub fn increment(&mut self, term: &String)
        requires
            old(self).wf(),
            table_total(old(self)@) < usize::MAX,
        ensures
            final(self).wf(),
            table_count(final(self)@, term@) == table_count(old(self)@, term@) + 1,
            forall|x: Seq<char>|
                x != term@ ==> table_count(final(self)@, x) == table_count(old(self)@, x),
            table_total(final(self)@) == table_total(old(self)@) + 1,
            counts_positive(old(self)@) ==> counts_positive(final(self)@),
    {
        let ghost t0 = self@;
        match self.find(term) {
            Some(i) => {
                proof {
                    lemma_count_at(t0, i as int, term@);
                    lemma_count_le_total(t0, term@);
                }
                let c = self.entries[i].1;
                let key = self.entries[i].0.clone();
                self.entries.set(i, (key, c + 1));
                proof {
                    assert(self@ =~= t0.update(i as int, (term@, (c + 1) as nat)));
                    lemma_total_update(t0, i as int, (c + 1) as nat);
                    if counts_positive(t0) {
                        assert forall|j: int| 0 <= j < self@.len() implies (#[trigger] self@[j]).1
                            > 0 by {
                            if j != i {
                                assert(self@[j] == t0[j]);
                            }
                        }
                    }
                    assert forall|x: Seq<char>| x != term@ implies table_count(self@, x)
                        == table_count(t0, x) by {
                        lemma_count_update(t0, i as int, (c + 1) as nat, x);
                    }
                    lemma_count_at(self@, i as int, term@);
                }
            },
            None => {
                proof {
                    lemma_count_none(t0, term@);
                }
                self.entries.push((term.clone(), 1));
                proof {
                    assert(self@ =~= t0.push((term@, 1nat)));
                    lemma_total_push(t0, (term@, 1nat));
                    if counts_positive(t0) {
                        assert forall|j: int| 0 <= j < self@.len() implies (#[trigger] self@[j]).1
                            > 0 by {
                            if j < t0.len() {
                                assert(self@[j] == t0[j]);
                            }
                        }
                    }
                    assert forall|x: Seq<char>| x != term@ implies table_count(self@, x)
                        == table_count(t0, x) by {
                        lemma_count_push(t0, (term@, 1nat), x);
                        if !has_key(t0, x) {
                            lemma_count_none(t0, x);
                        }
                    }
                    lemma_count_push(t0, (term@, 1nat), term@);
                }
            },
        }
    }
}

/// A term's frequency is a fraction within the unit interval: its
/// count never exceeds the total, and it is zero when the term is
/// absent or when the document has no tokens at all.
pub proof fn lemma_tf_unit(t: TableSpec, term: Seq<char>)
    ensures
        table_count(t, term) <= table_total(t),
        !has_key(t, term) ==> table_count(t, term) == 0,
        table_total(t) == 0 ==> table_count(t, term) == 0,
{
    lemma_count_le_total(t, term);
    if !has_key(t, term) {
        lemma_count_none(t, term);
    }
}

/// A term with no entry has count zero.
pub proof fn lemma_count_none(t: TableSpec, term: Seq<char>)
    requires
        !has_key(t, term),
    ensures
        table_count(t, term) == 0,
    decreases t.len(),
{
    if t.len() > 0 {
        assert(t[0].0 != term);
        assert(!has_key(t.drop_first(), term)) by {
            if has_key(t.drop_first(), term) {
                let i = choose|i: int| 0 <= i < t.drop_first().len() && t.drop_first()[i].0 == term;
                assert(t[i + 1].0 == term);
            }
        }
        lemma_count_none(t.drop_first(), term);
    }
}

/// The total of one more entry of the prefix adds that entry's count.
pub proof fn lemma_total_take(t: TableSpec, k: int)
    requires
        0 <= k <= t.len(),
    ensures
        k == 0 ==> table_total(t.take(0)) == 0,
        k > 0 ==> table_total(t.take(k)) == table_total(t.take(k - 1)) + t[k - 1].1,
    decreases t.len(),
{
    if k == 0 {
        assert(t.take(0) =~= Seq::<(Seq<char>, nat)>::empty());
    } else {
        assert(t.take(k) =~= t.take(k - 1).push(t[k - 1]));
        lemma_total_push(t.take(k - 1), t[k - 1]);
    }
}

/// A prefix's total is at most the whole total.
pub proof fn lemma_total_prefix_le(t: TableSpec, k: int)
    requires
        0 <= k <= t.len(),
    ensures
        table_total(t.take(k)) <= table_total(t),
    decreases t.len() - k,
{
    if k < t.len() {
        lemma_total_take(t, k + 1);
        lemma_total_prefix_le(t, k + 1);
    } else {
        assert(t.take(k) =~= t);
    }
}

/// Builds the table of a token sequence: each term counted once per
/// occurrence, so the total equals the number of tokens.
pub fn count_tokens(toks: &Vec<String>) -> (r: TermTable)
    ensures
        r.wf(),
        forall|term: Seq<char>| table_count(r@, term) == tally(views_of(toks@), term),
        table_total(r@) == toks@.len(),
        forall|term: Seq<char>| table_count(r@, term) > 0 <==> views_of(toks@).contains(term),
        counts_positive(r@),
{
    let mut r = TermTable::new();
    let mut k: usize = 0;
    while k < toks.len()
        invariant
            r.wf(),
            counts_positive(r@),
            k <= toks@.len(),
            forall|term: Seq<char>|
                table_count(r@, term) == tally(views_of(toks@).take(k as int), term),
            table_total(r@) == k,
        decreases toks@.len() - k,
    {
        let ghost pre = views_of(toks@).take(k as int);
        r.increment(&toks[k]);
        proof {
            assert(views_of(toks@).take(k as int + 1) =~= pre.push(toks@[k as int]@));
            assert forall|term: Seq<char>|
                table_count(r@, term) == tally(views_of(toks@).take(k as int + 1), term) by {
                lemma_tally_push(pre, toks@[k as int]@, term);
            }
        }
        k += 1;
    }
    proof {
        assert(views_of(toks@).take(toks@.len() as int) =~= views_of(toks@));
        assert forall|term: Seq<char>|
            table_count(r@, term) > 0 <==> views_of(toks@).contains(term) by {
            lemma_tally_positive(views_of(toks@), term);
        }
    }
    r
}

/// The table of a text: its tokens, tallied.  The total count equals
/// the text's token count.
pub fn term_table(text: &str) -> (r: TermTable)
    ensures
        r.wf(),
        forall|term: Seq<char>| table_count(r@, term) == tally(tokens(text@), term),
        table_total(r@) == token_count_of(text@),
        counts_positive(r@),
{
    let toks = crate::lexer::tokenize(text);
    count_tokens(&toks)
}

/// The number of terms of a text, named for contracts.
pub open spec fn token_count_of(s: Seq<char>) -> nat {
    tokens(s).len()
}

} // verus!
