//! The ranking engine: scores every document of a corpus against a
//! query and returns the best documents first.
//!
//! Scores are exact rationals `num / den`: the numerator is the
//! weighted sum of the query terms' counts in the document, saturated
//! to the machine range, and the denominator is the document's token
//! total.  The weights are fixed-point inverse-document-frequency
//! values supplied by the caller, one per query term; comparisons
//! between scores are exact cross-multiplications, so ranking is fully
//! deterministic, ties keeping indexing order.
use vstd::prelude::*;
use crate::chars::ascii_lowercase;
use crate::chars::lower_seq;
use crate::index::CorpusIndex;
use crate::index::IndexSpec;
use crate::lexer::tokenize;
use crate::lexer::tokens;
use crate::lexer::views_of;
use crate::table::table_count;
use crate::table::table_total;
use crate::table::TableSpec;

verus! {

/// A document's relevance for a query, as an exact rational
/// `num / den` with a positive denominator.
pub struct Score {
    pub num: i64,
    pub den: u64,
}

/// The strict rational order on scores, by cross-multiplication.
pub open spec fn score_lt(a: Score, b: Score) -> bool {
    (a.num as int) * (b.den as int) < (b.num as int) * (a.den as int)
}

/// The rational order on scores, by cross-multiplication.
pub open spec fn score_le(a: Score, b: Score) -> bool {
    (a.num as int) * (b.den as int) <= (b.num as int) * (a.den as int)
}

/// An integer clamped to the `i128` range.
pub open spec fn clamp_i128(x: int) -> int {
    if x < i128::MIN as int {
        i128::MIN as int
    } else if x > i128::MAX as int {
        i128::MAX as int
    } else {
        x
    }
}

/// An integer clamped to the `i64` range.
pub open spec fn clamp_i64(x: int) -> int {
    if x < i64::MIN as int {
        i64::MIN as int
    } else if x > i64::MAX as int {
        i64::MAX as int
    } else {
        x
    }
}

/// The saturating left-to-right sum of the first `k` weighted counts:
/// each step adds `ws[i] * count(tbl, terms[i])`, clamped.
pub open spec fn weighted_sum_upto(
    terms: Seq<Seq<char>>,
    ws: Seq<i64>,
    tbl: TableSpec,
    k: int,
) -> int
    decreases k,
{
    if k <= 0 {
        0
    } else {
        clamp_i128(
            weighted_sum_upto(terms, ws, tbl, k - 1) + (ws[k - 1] as int) * table_count(
                tbl,
                terms[k - 1],
            ),
        )
    }
}

/// The saturating weighted sum over all query terms.
pub open spec fn weighted_sum(terms: Seq<Seq<char>>, ws: Seq<i64>, tbl: TableSpec) -> int {
    weighted_sum_upto(terms, ws, tbl, terms.len() as int)
}

/// The score of one document: zero for a document without tokens, and
/// otherwise the saturated weighted sum over the token total.
pub open spec fn spec_doc_score(terms: Seq<Seq<char>>, ws: Seq<i64>, tbl: TableSpec) -> Score {
    if table_total(tbl) == 0 {
        Score { num: 0, den: 1 }
    } else {
        Score { num: clamp_i64(weighted_sum(terms, ws, tbl)) as i64, den: table_total(tbl) as u64 }
    }
}

/// When every partial weighted sum stays within the `i64` range, the
/// saturated score numerator is the exact mathematical sum.
pub proof fn lemma_weighted_sum_exact(terms: Seq<Seq<char>>, ws: Seq<i64>, tbl: TableSpec, k: int)
    requires
        forall|j: int|
            0 <= j <= k ==> i64::MIN <= #[trigger] exact_sum_upto(terms, ws, tbl, j) <= i64::MAX,
    ensures
        weighted_sum_upto(terms, ws, tbl, k) == exact_sum_upto(terms, ws, tbl, k),
    decreases k,
{
    if k > 0 {
        lemma_weighted_sum_exact(terms, ws, tbl, k - 1);
    }
}

/// The exact (unsaturated) weighted sum of the first `k` terms.
pub open spec fn exact_sum_upto(terms: Seq<Seq<char>>, ws: Seq<i64>, tbl: TableSpec, k: int) -> int
    decreases k,
{
    if k <= 0 {
        0
    } else {
        exact_sum_upto(terms, ws, tbl, k - 1) + (ws[k - 1] as int) * table_count(tbl, terms[k - 1])
    }
}

proof fn lemma_prod_fits_i128(w: int, c: int)
    by (nonlinear_arith)
    requires
        -0x8000_0000_0000_0000 <= w <= 0x7fff_ffff_ffff_ffff,
        0 <= c <= 0xffff_ffff_ffff_ffff,
    ensures
        -0x8000_0000_0000_0000_0000_0000_0000_0000 <= w * c
            <= 0x7fff_ffff_ffff_ffff_ffff_ffff_ffff_ffff,
{
}

/// Saturating addition on `i128`.
fn sat_add_i128(a: i128, b: i128) -> (r: i128)
    ensures
        r as int == clamp_i128(a as int + b as int),
{
    if b > 0 && a > i128::MAX - b {
        i128::MAX
    } else if b < 0 && a < i128::MIN - b {
        i128::MIN
    } else {
        a + b
    }
}

/// Comparison of two scores as exact rationals.
pub fn score_lt_exec(a: &Score, b: &Score) -> (r: bool)
    ensures
        r == score_lt(*a, *b),
{
    proof {
        lemma_prod_fits_i128(a.num as int, b.den as int);
        lemma_prod_fits_i128(b.num as int, a.den as int);
    }
    let l: i128 = (a.num as i128) * (b.den as i128);
    let rr: i128 = (b.num as i128) * (a.den as i128);
    l < rr
}

/// The score of the document at `i` for the given query terms and
/// weights.
pub fn doc_score_at(ix: &CorpusIndex, i: usize, terms: &Vec<String>, ws: &Vec<i64>) -> (s: Score)
    requires
        ix.wf(),
        i < ix@.len(),
        ws@.len() == terms@.len(),
    ensures
        s == spec_doc_score(views_of(terms@), ws@, ix@[i as int].1),
{
    let ghost tv = views_of(terms@);
    let ghost tbl = ix@[i as int].1;
    let total = ix.doc_total(i);
    if total == 0 {
        return Score { num: 0, den: 1 };
    }
    let mut acc: i128 = 0;
    let mut k: usize = 0;
    while k < terms.len()
        invariant
            ix.wf(),
            i < ix@.len(),
            tv == views_of(terms@),
            tbl == ix@[i as int].1,
            ws@.len() == terms@.len(),
            k <= terms@.len(),
            acc as int == weighted_sum_upto(tv, ws@, tbl, k as int),
        decreases terms@.len() - k,
    {
        let c = ix.doc_count(i, &terms[k]);
        let w = ws[k];
        proof {
            lemma_prod_fits_i128(w as int, c as int);
            assert(tv[k as int] == terms@[k as int]@);
        }
        let prod: i128 = (w as i128) * (c as i128);
        acc = sat_add_i128(acc, prod);
        k += 1;
    }
    let num: i64 = if acc > i64::MAX as i128 {
        i64::MAX
    } else if acc < i64::MIN as i128 {
        i64::MIN
    } else {
        acc as i64
    };
    proof {
        assert(num as int == clamp_i64(weighted_sum(tv, ws@, tbl)));
    }
    Score { num, den: total as u64 }
}

/// The number of documents in which `term` occurs.  The counter is
/// seeded at zero before counting, so the value is exactly the number
/// of documents holding the term; the smoothing in the inverse
/// document frequency adds its one only inside the weight's ratio.
pub open spec fn df_spec(s: IndexSpec, term: Seq<char>) -> nat
    decreases s.len(),
{
    if s.len() == 0 {
        0
    } else {
        (if table_count(s[0].1, term) > 0 {
            1nat
        } else {
            0nat
        }) + df_spec(s.drop_first(), term)
    }
}

pub proof fn lemma_df_push(s: IndexSpec, e: (Seq<char>, TableSpec), term: Seq<char>)
    ensures
        df_spec(s.push(e), term) == df_spec(s, term) + (if table_count(e.1, term) > 0 {
            1nat
        } else {
            0nat
        }),
    decreases s.len(),
{
    let p = s.push(e);
    if s.len() == 0 {
        assert(p.drop_first() =~= s);
        assert(p[0] == e);
    } else {
        assert(p.drop_first() =~= s.drop_first().push(e));
        assert(p[0] == s[0]);
        lemma_df_push(s.drop_first(), e, term);
    }
}

/// The document frequency of `term` over the corpus.
pub fn document_frequency(ix: &CorpusIndex, term: &String) -> (r: usize)
    requires
        ix.wf(),
    ensures
        r == df_spec(ix@, term@),
{
    let mut d: usize = 0;
    let mut k: usize = 0;
    proof {
        assert(ix@.take(0) =~= Seq::<(Seq<char>, TableSpec)>::empty());
    }
    let n = ix.len();
    while k < n
        invariant
            ix.wf(),
            n == ix@.len(),
            k <= n,
            d <= k,
            d == df_spec(ix@.take(k as int), term@),
        decreases n - k,
    {
        let c = ix.doc_count(k, term);
        proof {
            assert(ix@.take(k as int + 1) =~= ix@.take(k as int).push(ix@[k as int]));
            lemma_df_push(ix@.take(k as int), ix@[k as int], term@);
        }
        if c > 0 {
            d += 1;
        }
        k += 1;
    }
    proof {
        assert(ix@.take(n as int) =~= ix@);
    }
    d
}

/// Tokenizes a query (lowercased, like document text) and computes the
/// document frequency of each query term.
pub fn prepare_query(ix: &CorpusIndex, query: &str) -> (r: (Vec<String>, Vec<usize>))
    requires
        ix.wf(),
    ensures
        views_of(r.0@) == tokens(lower_seq(query@)),
        r.1@.len() == r.0@.len(),
        forall|i: int| 0 <= i < r.1@.len() ==> r.1@[i] == df_spec(ix@, r.0@[i]@),
{
    let lowered = ascii_lowercase(query);
    let terms = tokenize(lowered.as_str());
    let mut dfs: Vec<usize> = Vec::new();
    let mut k: usize = 0;
    while k < terms.len()
        invariant
            ix.wf(),
            k <= terms@.len(),
            dfs@.len() == k,
            forall|i: int| 0 <= i < k ==> dfs@[i] == df_spec(ix@, terms@[i]@),
        decreases terms@.len() - k,
    {
        let d = document_frequency(ix, &terms[k]);
        dfs.push(d);
        k += 1;
    }
    (terms, dfs)
}

/// For a fixed document count `d`, the ratio `d / (1 + df)` that the
/// inverse document frequency is taken of does not increase as the
/// document frequency grows: compared as exact rationals by
/// cross-multiplication.
pub proof fn lemma_idf_argument_monotone(d: nat, df1: nat, df2: nat)
    by (nonlinear_arith)
    requires
        df1 <= df2,
    ensures
        d * (1 + df2) >= d * (1 + df1),
{
}

proof fn lemma_rat_trans(an: int, ad: int, bn: int, bd: int, cn: int, cd: int)
    by (nonlinear_arith)
    requires
        ad >= 1,
        bd >= 1,
        cd >= 1,
        an * bd <= bn * ad,
        bn * cd <= cn * bd,
    ensures
        an * cd <= cn * ad,
{
}

/// The rational order on scores is transitive when denominators are
/// positive.
pub proof fn lemma_score_le_trans(a: Score, b: Score, c: Score)
    requires
        a.den >= 1,
        b.den >= 1,
        c.den >= 1,
        score_le(a, b),
        score_le(b, c),
    ensures
        score_le(a, c),
{
    lemma_rat_trans(
        a.num as int,
        a.den as int,
        b.num as int,
        b.den as int,
        c.num as int,
        c.den as int,
    );
}

/// The view of ranked result pairs.
pub open spec fn pairs_view(s: Seq<(String, Score)>) -> Seq<(Seq<char>, Score)> {
    s.map_values(|p: (String, Score)| (p.0@, p.1))
}

/// The scores of all documents of a corpus, in indexing order.
pub open spec fn scored_spec(ixv: IndexSpec, tv: Seq<Seq<char>>, wsv: Seq<i64>) -> Seq<
    (Seq<char>, Score),
> {
    ixv.map_values(|d: (Seq<char>, TableSpec)| (d.0, spec_doc_score(tv, wsv, d.1)))
}

/// The first index holding a maximal score.
pub open spec fn first_max_idx(s: Seq<(Seq<char>, Score)>) -> int
    decreases s.len(),
{
    if s.len() <= 1 {
        0
    } else {
        let r = first_max_idx(s.drop_last());
        if score_lt(s[r].1, s.last().1) {
            s.len() - 1
        } else {
            r
        }
    }
}

pub proof fn lemma_first_max_range(s: Seq<(Seq<char>, Score)>)
    requires
        s.len() > 0,
    ensures
        0 <= first_max_idx(s) < s.len(),
    decreases s.len(),
{
    if s.len() > 1 {
        lemma_first_max_range(s.drop_last());
    }
}

pub proof fn lemma_first_max_is_max(s: Seq<(Seq<char>, Score)>)
    requires
        s.len() > 0,
        forall|i: int| 0 <= i < s.len() ==> (#[trigger] s[i]).1.den >= 1,
    ensures
        forall|j: int| 0 <= j < s.len() ==> score_le(#[trigger] s[j].1, s[first_max_idx(s)].1),
    decreases s.len(),
{
    lemma_first_max_range(s);
    if s.len() == 1 {
    } else {
        let d = s.drop_last();
        assert forall|i: int| 0 <= i < d.len() implies (#[trigger] d[i]).1.den >= 1 by {
            assert(d[i] == s[i]);
        }
        lemma_first_max_is_max(d);
        lemma_first_max_range(d);
        let r = first_max_idx(d);
        let m = first_max_idx(s);
        assert forall|j: int| 0 <= j < s.len() implies score_le(#[trigger] s[j].1, s[m].1) by {
            if score_lt(s[r].1, s.last().1) {
                if j < s.len() - 1 {
                    assert(d[j] == s[j]);
                    assert(d[r] == s[r]);
                    assert(score_le(s[j].1, s[r].1));
                    lemma_score_le_trans(s[j].1, s[r].1, s[m].1);
                }
            } else {
                if j < s.len() - 1 {
                    assert(d[j] == s[j]);
                }
            }
        }
    }
}

/// All documents, best score first; equal scores keep their order.
pub open spec fn ranked_spec(s: Seq<(Seq<char>, Score)>) -> Seq<(Seq<char>, Score)>
    decreases s.len(),
    via ranked_spec_decreases
{
    if s.len() == 0 {
        s
    } else {
        seq![s[first_max_idx(s)]] + ranked_spec(s.remove(first_max_idx(s)))
    }
}

#[via_fn]
proof fn ranked_spec_decreases(s: Seq<(Seq<char>, Score)>) {
    if s.len() > 0 {
        lemma_first_max_range(s);
    }
}

/// The ranked prefix that is returned: at most `k` documents, stopping
/// at the first score that is not positive.
pub open spec fn cut_spec(rs: Seq<(Seq<char>, Score)>, k: nat) -> Seq<(Seq<char>, Score)>
    decreases rs.len(),
{
    if rs.len() == 0 || k == 0 || rs[0].1.num <= 0 {
        Seq::empty()
    } else {
        seq![rs[0]] + cut_spec(rs.drop_first(), (k - 1) as nat)
    }
}

/// What a query returns: at most ten documents with positive score,
/// the best first.
pub open spec fn top_spec(s: Seq<(Seq<char>, Score)>) -> Seq<(Seq<char>, Score)> {
    cut_spec(ranked_spec(s), 10)
}

pub proof fn lemma_ranked_len(s: Seq<(Seq<char>, Score)>)
    ensures
        ranked_spec(s).len() == s.len(),
    decreases s.len(),
{
    if s.len() > 0 {
        lemma_first_max_range(s);
        lemma_ranked_len(s.remove(first_max_idx(s)));
    }
}

/// Everything ranked is a document of the corpus.
pub proof fn lemma_ranked_members(s: Seq<(Seq<char>, Score)>)
    ensures
        forall|i: int| 0 <= i < ranked_spec(s).len() ==> s.contains(#[trigger] ranked_spec(s)[i]),
    decreases s.len(),
{
    if s.len() > 0 {
        let m = first_max_idx(s);
        lemma_first_max_range(s);
        let rem = s.remove(m);
        lemma_ranked_members(rem);
        assert forall|i: int| 0 <= i < ranked_spec(s).len() implies s.contains(
            #[trigger] ranked_spec(s)[i],
        ) by {
            if i == 0 {
                assert(ranked_spec(s)[0] == s[m]);
                assert(s.contains(s[m]));
            } else {
                assert(ranked_spec(s)[i] == ranked_spec(rem)[i - 1]);
                if 0 <= i - 1 < ranked_spec(rem).len() {
                    let x = ranked_spec(rem)[i - 1];
                    assert(rem.contains(x));
                    let j = choose|j: int| 0 <= j < rem.len() && rem[j] == x;
                    if j < m {
                        assert(s[j] == x);
                    } else {
                        assert(s[j + 1] == x);
                    }
                    assert(s.contains(x));
                }
            }
        }
    }
}

/// Ranked documents come in non-increasing score order.
pub proof fn lemma_ranked_sorted(s: Seq<(Seq<char>, Score)>)
    requires
        forall|i: int| 0 <= i < s.len() ==> (#[trigger] s[i]).1.den >= 1,
    ensures
        forall|i: int, j: int|
            0 <= i < j < ranked_spec(s).len() ==> score_le(
                ranked_spec(s)[j].1,
                ranked_spec(s)[i].1,
            ),
    decreases s.len(),
{
    if s.len() > 0 {
        let m = first_max_idx(s);
        lemma_first_max_range(s);
        lemma_first_max_is_max(s);
        let rem = s.remove(m);
        assert forall|i: int| 0 <= i < rem.len() implies (#[trigger] rem[i]).1.den >= 1 by {
            if i < m {
                assert(rem[i] == s[i]);
            } else {
                assert(rem[i] == s[i + 1]);
            }
        }
        lemma_ranked_sorted(rem);
        lemma_ranked_members(rem);
        lemma_ranked_len(rem);
        assert forall|i: int, j: int| 0 <= i < j < ranked_spec(s).len() implies score_le(
            ranked_spec(s)[j].1,
            ranked_spec(s)[i].1,
        ) by {
            if i == 0 {
                assert(ranked_spec(s)[0] == s[m]);
                let x = ranked_spec(rem)[j - 1];
                assert(ranked_spec(s)[j] == x);
                assert(rem.contains(x));
                let jj = choose|jj: int| 0 <= jj < rem.len() && rem[jj] == x;
                if jj < m {
                    assert(s[jj] == x);
                } else {
                    assert(s[jj + 1] == x);
                }
                assert(score_le(x.1, s[m].1));
            } else {
                assert(ranked_spec(s)[i] == ranked_spec(rem)[i - 1]);
                assert(ranked_spec(s)[j] == ranked_spec(rem)[j - 1]);
            }
        }
    }
}

pub proof fn lemma_cut_le(rs: Seq<(Seq<char>, Score)>, k: nat)
    ensures
        cut_spec(rs, k).len() <= k,
        cut_spec(rs, k).len() <= rs.len(),
        forall|i: int| 0 <= i < cut_spec(rs, k).len() ==> #[trigger] cut_spec(rs, k)[i] == rs[i],
        forall|i: int| 0 <= i < cut_spec(rs, k).len() ==> (#[trigger] cut_spec(rs, k)[i]).1.num > 0,
    decreases rs.len(),
{
    if rs.len() == 0 || k == 0 || rs[0].1.num <= 0 {
    } else {
        lemma_cut_le(rs.drop_first(), (k - 1) as nat);
        assert forall|i: int| 0 <= i < cut_spec(rs, k).len() implies #[trigger] cut_spec(rs, k)[i]
            == rs[i] by {
            if i > 0 {
                assert(cut_spec(rs, k)[i] == cut_spec(rs.drop_first(), (k - 1) as nat)[i - 1]);
                assert(rs.drop_first()[i - 1] == rs[i]);
            }
        }
    }
}

/// With every element positive, the cut takes `k` elements or all.
pub proof fn lemma_cut_all_pos(rs: Seq<(Seq<char>, Score)>, k: nat)
    requires
        forall|i: int| 0 <= i < rs.len() ==> (#[trigger] rs[i]).1.num > 0,
    ensures
        cut_spec(rs, k).len() == if k <= rs.len() {
            k as int
        } else {
            rs.len() as int
        },
    decreases rs.len(),
{
    if rs.len() == 0 || k == 0 {
    } else {
        assert(rs[0].1.num > 0);
        assert forall|i: int| 0 <= i < rs.drop_first().len() implies (#[trigger] rs.drop_first()[i]).1.num
            > 0 by {
            assert(rs.drop_first()[i] == rs[i + 1]);
        }
        lemma_cut_all_pos(rs.drop_first(), (k - 1) as nat);
    }
}

/// At most ten documents are ever returned.
pub proof fn lemma_top_le_ten(s: Seq<(Seq<char>, Score)>)
    ensures
        top_spec(s).len() <= 10,
{
    lemma_cut_le(ranked_spec(s), 10);
}

/// Every returned document is a scored document of the corpus, and its
/// score is positive.
pub proof fn lemma_top_members(s: Seq<(Seq<char>, Score)>)
    ensures
        forall|i: int| 0 <= i < top_spec(s).len() ==> s.contains(#[trigger] top_spec(s)[i]),
        forall|i: int| 0 <= i < top_spec(s).len() ==> (#[trigger] top_spec(s)[i]).1.num > 0,
{
    lemma_cut_le(ranked_spec(s), 10);
    lemma_ranked_members(s);
    lemma_ranked_len(s);
}

/// The returned documents come best first.
pub proof fn lemma_top_sorted(s: Seq<(Seq<char>, Score)>)
    requires
        forall|i: int| 0 <= i < s.len() ==> (#[trigger] s[i]).1.den >= 1,
    ensures
        forall|i: int, j: int|
            0 <= i < j < top_spec(s).len() ==> score_le(top_spec(s)[j].1, top_spec(s)[i].1),
{
    lemma_cut_le(ranked_spec(s), 10);
    lemma_ranked_sorted(s);
    lemma_ranked_len(s);
}

/// A query no document scores positively for returns nothing.
pub proof fn lemma_top_empty_when_nonpositive(s: Seq<(Seq<char>, Score)>)
    requires
        forall|i: int| 0 <= i < s.len() ==> (#[trigger] s[i]).1.num <= 0,
    ensures
        top_spec(s).len() == 0,
{
    if s.len() > 0 {
        let m = first_max_idx(s);
        lemma_first_max_range(s);
        assert(ranked_spec(s)[0] == s[m]);
        assert(s[m].1.num <= 0);
    }
}

/// With every document scoring positively, exactly ten documents come
/// back, or all of them when the corpus is smaller.
pub proof fn lemma_top_all_pos_len(s: Seq<(Seq<char>, Score)>)
    requires
        forall|i: int| 0 <= i < s.len() ==> (#[trigger] s[i]).1.num > 0,
    ensures
        top_spec(s).len() == if s.len() >= 10 {
            10int
        } else {
            s.len() as int
        },
{
    lemma_ranked_members(s);
    lemma_ranked_len(s);
    assert forall|i: int| 0 <= i < ranked_spec(s).len() implies (#[trigger] ranked_spec(s)[i]).1.num
        > 0 by {
        let x = ranked_spec(s)[i];
        assert(s.contains(x));
        let j = choose|j: int| 0 <= j < s.len() && s[j] == x;
        assert(s[j].1.num > 0);
    }
    lemma_cut_all_pos(ranked_spec(s), 10);
}

/// The first index holding a maximal score, found by one scan.
fn find_first_max(rem: &Vec<(String, Score)>) -> (m: usize)
    requires
        rem@.len() > 0,
    ensures
        m < rem@.len(),
        m as int == first_max_idx(pairs_view(rem@)),
{
    let ghost sv = pairs_view(rem@);
    let mut m: usize = 0;
    let mut j: usize = 1;
    while j < rem.len()
        invariant
            sv == pairs_view(rem@),
            sv.len() == rem@.len(),
            1 <= j <= rem@.len(),
            m < j,
            m as int == first_max_idx(sv.take(j as int)),
        decreases rem@.len() - j,
    {
        proof {
            assert(sv.take(j as int + 1).drop_last() =~= sv.take(j as int));
            assert(sv.take(j as int + 1).last() == sv[j as int]);
            assert(sv.take(j as int + 1)[m as int] == sv[m as int]);
            assert(sv[m as int].1 == rem@[m as int].1);
            assert(sv[j as int].1 == rem@[j as int].1);
        }
        if score_lt_exec(&rem[m].1, &rem[j].1) {
            m = j;
        }
        j += 1;
    }
    proof {
        assert(sv.take(rem@.len() as int) =~= sv);
    }
    m
}

/// Ranks the whole corpus for the given query terms and weights:
/// documents ordered by score, best first and ties keeping indexing
/// order, truncated to the first ten and to positive scores.
pub fn rank(ix: &CorpusIndex, terms: &Vec<String>, ws: &Vec<i64>) -> (r: Vec<(String, Score)>)
    requires
        ix.wf(),
        ws@.len() == terms@.len(),
    ensures
        pairs_view(r@) == top_spec(scored_spec(ix@, views_of(terms@), ws@)),
{
    let ghost tv = views_of(terms@);
    let ghost orig = scored_spec(ix@, tv, ws@);
    let mut scored: Vec<(String, Score)> = Vec::new();
    let mut i: usize = 0;
    let n = ix.len();
    while i < n
        invariant
            ix.wf(),
            ws@.len() == terms@.len(),
            tv == views_of(terms@),
            orig == scored_spec(ix@, tv, ws@),
            n == ix@.len(),
            i <= n,
            scored@.len() == i,
            pairs_view(scored@) =~= orig.take(i as int),
        decreases n - i,
    {
        let id = ix.doc_id(i);
        let sc = doc_score_at(ix, i, terms, ws);
        scored.push((id, sc));
        proof {
            assert(orig[i as int] == (ix@[i as int].0, spec_doc_score(tv, ws@, ix@[i as int].1)));
            assert(pairs_view(scored@) =~= orig.take(i as int + 1));
        }
        i += 1;
    }
    proof {
        assert(orig.take(n as int) =~= orig);
    }

    let mut rem = scored;
    let mut out: Vec<(String, Score)> = Vec::new();
    let mut budget: usize = 10;
    loop
        invariant
            pairs_view(out@) + cut_spec(ranked_spec(pairs_view(rem@)), budget as nat) =~= top_spec(
                orig,
            ),
        ensures
            pairs_view(out@) =~= top_spec(orig),
        decreases rem@.len(),
    {
        let ghost rv = pairs_view(rem@);
        if budget == 0 {
            proof {
                assert(pairs_view(out@) + cut_spec(ranked_spec(rv), 0) =~= pairs_view(out@));
            }
            break ;
        }
        if rem.len() == 0 {
            proof {
                assert(rv =~= Seq::<(Seq<char>, Score)>::empty());
                assert(pairs_view(out@) + cut_spec(ranked_spec(rv), budget as nat) =~= pairs_view(
                    out@,
                ));
            }
            break ;
        }
        let m = find_first_max(&rem);
        proof {
            lemma_first_max_range(rv);
            assert(ranked_spec(rv)[0] == rv[m as int]);
            assert(rv[m as int].1 == rem@[m as int].1);
        }
        if rem[m].1.num <= 0 {
            proof {
                lemma_ranked_len(rv);
                assert(cut_spec(ranked_spec(rv), budget as nat) =~= Seq::<
                    (Seq<char>, Score),
                >::empty());
                assert(pairs_view(out@) + cut_spec(ranked_spec(rv), budget as nat) =~= pairs_view(
                    out@,
                ));
            }
            break ;
        }
        let e = rem.remove(m);
        let ghost prev_out = out@;
        out.push(e);
        budget = budget - 1;
        proof {
            assert(pairs_view(rem@) =~= rv.remove(m as int));
            lemma_ranked_len(rv.remove(m as int));
            assert(ranked_spec(rv) == seq![rv[m as int]] + ranked_spec(rv.remove(m as int)));
            assert(ranked_spec(rv).drop_first() =~= ranked_spec(rv.remove(m as int)));
            assert(cut_spec(ranked_spec(rv), (budget + 1) as nat) == seq![rv[m as int]] + cut_spec(
                ranked_spec(rv).drop_first(),
                budget as nat,
            ));
            assert(pairs_view(out@) =~= pairs_view(prev_out).push(rv[m as int]));
            assert(pairs_view(out@) + cut_spec(ranked_spec(pairs_view(rem@)), budget as nat)
                =~= top_spec(orig));
        }
    }
    out
}

} // verus!

