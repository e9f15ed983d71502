//! The index store: the text format a corpus index is persisted in,
//! and its loader.
//!
//! The format is a canonical object-of-objects: each document
//! identifier maps to an object of term counts, strings are quoted
//! with `"` and `\` escaped by a backslash, counts are decimal with no
//! leading zeros, and no whitespace stands between tokens.  The loader
//! validates the shape: whatever it accepts is well formed,
//! re-rendering what was loaded reproduces the input text exactly, and
//! the stored text of every well-formed index is accepted.
use vstd::prelude::*;
use crate::chars::chars_of;
use crate::chars::string_from_chars;
use crate::index::has_doc;
use crate::index::index_wf_spec;
use crate::index::CorpusIndex;
use crate::index::IndexSpec;
use crate::table::has_key;
use crate::table::table_total;
use crate::table::table_wf;
use crate::table::TableSpec;
use crate::table::TermTable;

verus! {

/// One character, escaped for a quoted string.
pub open spec fn esc_char(c: char) -> Seq<char> {
    if c == '"' || c == '\\' {
        seq!['\\', c]
    } else {
        seq![c]
    }
}

/// A character sequence, escaped for a quoted string.
pub open spec fn esc(s: Seq<char>) -> Seq<char>
    decreases s.len(),
{
    if s.len() == 0 {
        Seq::empty()
    } else {
        esc_char(s[0]) + esc(s.drop_first())
    }
}

pub proof fn lemma_esc_push(s: Seq<char>, c: char)
    ensures
        esc(s.push(c)) == esc(s) + esc_char(c),
    decreases s.len(),
{
    let p = s.push(c);
    if s.len() == 0 {
        assert(p.drop_first() =~= Seq::<char>::empty());
        assert(p[0] == c);
        assert(esc(p) == esc_char(p[0]) + esc(p.drop_first()));
        assert(esc(p) =~= esc(s) + esc_char(c));
    } else {
        assert(p.drop_first() =~= s.drop_first().push(c));
        assert(p[0] == s[0]);
        lemma_esc_push(s.drop_first(), c);
        assert(esc(p) == esc_char(p[0]) + esc(p.drop_first()));
        assert(esc(p) =~= esc(s) + esc_char(c));
    }
}

/// A string as stored: quoted and escaped.
pub open spec fn render_string(s: Seq<char>) -> Seq<char> {
    seq!['"'] + esc(s) + seq!['"']
}

/// The decimal digit of value `d`.
pub open spec fn digit_char(d: int) -> char {
    if d == 0 {
        '0'
    } else if d == 1 {
        '1'
    } else if d == 2 {
        '2'
    } else if d == 3 {
        '3'
    } else if d == 4 {
        '4'
    } else if d == 5 {
        '5'
    } else if d == 6 {
        '6'
    } else if d == 7 {
        '7'
    } else if d == 8 {
        '8'
    } else {
        '9'
    }
}

/// The digit character of value `d`.
fn digit_char_of(d: usize) -> (c: char)
    requires
        d < 10,
    ensures
        c == digit_char(d as int),
{
    if d == 0 {
        '0'
    } else if d == 1 {
        '1'
    } else if d == 2 {
        '2'
    } else if d == 3 {
        '3'
    } else if d == 4 {
        '4'
    } else if d == 5 {
        '5'
    } else if d == 6 {
        '6'
    } else if d == 7 {
        '7'
    } else if d == 8 {
        '8'
    } else {
        '9'
    }
}

/// The value of a digit character, or nothing for any other character.
fn digit_of(c: char) -> (r: Option<usize>)
    ensures
        match r {
            Option::Some(d) => d < 10 && digit_char(d as int) == c,
            Option::None => forall|d: int| 0 <= d < 10 ==> digit_char(d) != c,
        },
{
    if c == '0' {
        Some(0)
    } else if c == '1' {
        Some(1)
    } else if c == '2' {
        Some(2)
    } else if c == '3' {
        Some(3)
    } else if c == '4' {
        Some(4)
    } else if c == '5' {
        Some(5)
    } else if c == '6' {
        Some(6)
    } else if c == '7' {
        Some(7)
    } else if c == '8' {
        Some(8)
    } else if c == '9' {
        Some(9)
    } else {
        None
    }
}

/// A count in decimal, most significant digit first.
pub open spec fn render_nat(n: nat) -> Seq<char>
    decreases n,
{
    if n < 10 {
        seq![digit_char(n as int)]
    } else {
        render_nat(n / 10) + seq![digit_char((n % 10) as int)]
    }
}

/// One term entry as stored.
pub open spec fn render_tpair(e: (Seq<char>, nat)) -> Seq<char> {
    render_string(e.0) + seq![':'] + render_nat(e.1)
}

/// A table's entries as stored, comma separated.
pub open spec fn render_tpairs(t: TableSpec) -> Seq<char>
    decreases t.len(),
{
    if t.len() == 0 {
        Seq::empty()
    } else if t.len() == 1 {
        render_tpair(t[0])
    } else {
        render_tpair(t[0]) + seq![','] + render_tpairs(t.drop_first())
    }
}

pub proof fn lemma_tpairs_push(t: TableSpec, e: (Seq<char>, nat))
    requires
        t.len() >= 1,
    ensures
        render_tpairs(t.push(e)) == render_tpairs(t) + seq![','] + render_tpair(e),
    decreases t.len(),
{
    let p = t.push(e);
    if t.len() == 1 {
        assert(p.drop_first() =~= seq![e]);
        assert(p[0] == t[0]);
        assert(render_tpairs(seq![e]) == render_tpair(e));
        assert(render_tpairs(p) =~= render_tpairs(t) + seq![','] + render_tpair(e));
    } else {
        assert(p.drop_first() =~= t.drop_first().push(e));
        assert(p[0] == t[0]);
        lemma_tpairs_push(t.drop_first(), e);
        assert(render_tpairs(p) =~= render_tpairs(t) + seq![','] + render_tpair(e));
    }
}

/// One table as stored.
pub open spec fn render_table(t: TableSpec) -> Seq<char> {
    seq!['{'] + render_tpairs(t) + seq!['}']
}

/// One document entry as stored.
pub open spec fn render_ipair(d: (Seq<char>, TableSpec)) -> Seq<char> {
    render_string(d.0) + seq![':'] + render_table(d.1)
}

/// An index's documents as stored, comma separated.
pub open spec fn render_ipairs(s: IndexSpec) -> Seq<char>
    decreases s.len(),
{
    if s.len() == 0 {
        Seq::empty()
    } else if s.len() == 1 {
        render_ipair(s[0])
    } else {
        render_ipair(s[0]) + seq![','] + render_ipairs(s.drop_first())
    }
}

pub proof fn lemma_ipairs_push(s: IndexSpec, d: (Seq<char>, TableSpec))
    requires
        s.len() >= 1,
    ensures
        render_ipairs(s.push(d)) == render_ipairs(s) + seq![','] + render_ipair(d),
    decreases s.len(),
{
    let p = s.push(d);
    if s.len() == 1 {
        assert(p.drop_first() =~= seq![d]);
        assert(p[0] == s[0]);
        assert(render_ipairs(seq![d]) == render_ipair(d));
        assert(render_ipairs(p) =~= render_ipairs(s) + seq![','] + render_ipair(d));
    } else {
        assert(p.drop_first() =~= s.drop_first().push(d));
        assert(p[0] == s[0]);
        lemma_ipairs_push(s.drop_first(), d);
        assert(render_ipairs(p) =~= render_ipairs(s) + seq![','] + render_ipair(d));
    }
}

/// A whole index as stored.
pub open spec fn render_index(s: IndexSpec) -> Seq<char> {
    seq!['{'] + render_ipairs(s) + seq!['}']
}

/// Whether `c` is a decimal digit character.
pub open spec fn is_digit_c(c: char) -> bool {
    ||| c == '0'
    ||| c == '1'
    ||| c == '2'
    ||| c == '3'
    ||| c == '4'
    ||| c == '5'
    ||| c == '6'
    ||| c == '7'
    ||| c == '8'
    ||| c == '9'
}

proof fn lemma_split_eq(p: Seq<char>, q: Seq<char>, r: Seq<char>, s: Seq<char>)
    requires
        p + q == r + s,
        p.len() == r.len(),
    ensures
        p == r,
        q == s,
{
    assert(p =~= (p + q).subrange(0, p.len() as int));
    assert(r =~= (r + s).subrange(0, r.len() as int));
    assert(q =~= (p + q).subrange(p.len() as int, (p + q).len() as int));
    assert(s =~= (r + s).subrange(r.len() as int, (r + s).len() as int));
}

proof fn lemma_render_nat_len(n: nat)
    ensures
        render_nat(n).len() >= 1,
        n >= 10 ==> render_nat(n).len() >= 2,
    decreases n,
{
    if n >= 10 {
        lemma_render_nat_len(n / 10);
    }
}

proof fn lemma_render_nat_digits(n: nat)
    ensures
        forall|k: int| 0 <= k < render_nat(n).len() ==> is_digit_c(#[trigger] render_nat(n)[k]),
    decreases n,
{
    if n >= 10 {
        lemma_render_nat_digits(n / 10);
        assert forall|k: int| 0 <= k < render_nat(n).len() implies is_digit_c(
            #[trigger] render_nat(n)[k],
        ) by {
            if k < render_nat(n / 10).len() {
                assert(render_nat(n)[k] == render_nat(n / 10)[k]);
            } else {
                assert(render_nat(n)[k] == digit_char((n % 10) as int));
            }
        }
    }
}

proof fn lemma_render_nat_injective(n: nat, m: nat)
    requires
        render_nat(n) == render_nat(m),
    ensures
        n == m,
    decreases n,
{
    lemma_render_nat_len(n);
    lemma_render_nat_len(m);
    if n < 10 && m < 10 {
        assert(render_nat(n)[0] == digit_char(n as int));
        assert(render_nat(m)[0] == digit_char(m as int));
    } else if n < 10 && m >= 10 {
        assert(render_nat(n).len() == 1);
        assert(render_nat(m).len() >= 2);
    } else if n >= 10 && m < 10 {
        assert(render_nat(n).len() >= 2);
        assert(render_nat(m).len() == 1);
    } else {
        assert(render_nat(n).last() == digit_char((n % 10) as int));
        assert(render_nat(m).last() == digit_char((m % 10) as int));
        assert(n % 10 == m % 10);
        assert(render_nat(n).drop_last() =~= render_nat(n / 10));
        assert(render_nat(m).drop_last() =~= render_nat(m / 10));
        lemma_render_nat_injective(n / 10, m / 10);
        assert(n == 10 * (n / 10) + n % 10);
        assert(m == 10 * (m / 10) + m % 10);
    }
}

/// Two stored counts followed by non-digits read the same only if they
/// are the same count.
proof fn lemma_nat_unamb(n: nat, m: nat, u: Seq<char>, v: Seq<char>)
    requires
        render_nat(n) + u == render_nat(m) + v,
        u.len() == 0 || !is_digit_c(u[0]),
        v.len() == 0 || !is_digit_c(v[0]),
    ensures
        n == m,
        u == v,
{
    let a = render_nat(n);
    let b = render_nat(m);
    lemma_render_nat_digits(n);
    lemma_render_nat_digits(m);
    if a.len() == b.len() {
        lemma_split_eq(a, u, b, v);
        lemma_render_nat_injective(n, m);
    } else if a.len() < b.len() {
        assert(u.len() > 0);
        assert((a + u)[a.len() as int] == u[0]);
        assert((b + v)[a.len() as int] == b[a.len() as int]);
        assert(is_digit_c(b[a.len() as int]));
    } else {
        assert(v.len() > 0);
        assert((b + v)[b.len() as int] == v[0]);
        assert((a + u)[b.len() as int] == a[b.len() as int]);
        assert(is_digit_c(a[b.len() as int]));
    }
}

/// Two escaped strings closed by their quotes read the same only if
/// they are the same string.
proof fn lemma_esc_unamb(a: Seq<char>, b: Seq<char>, u: Seq<char>, v: Seq<char>)
    requires
        esc(a) + seq!['"'] + u == esc(b) + seq!['"'] + v,
    ensures
        a == b,
        u == v,
    decreases a.len(),
{
    let lhs = esc(a) + seq!['"'] + u;
    if a.len() == 0 {
        assert(lhs[0] == '"');
        if b.len() > 0 {
            assert(esc(b) == esc_char(b[0]) + esc(b.drop_first()));
            assert(lhs[0] == esc_char(b[0])[0]);
            if b[0] == '"' || b[0] == '\\' {
                assert(esc_char(b[0])[0] == '\\');
            } else {
                assert(esc_char(b[0])[0] == b[0]);
            }
            assert(false);
        }
        assert(a =~= b);
        lemma_split_eq(seq!['"'], u, seq!['"'], v);
    } else if b.len() == 0 {
        assert(lhs[0] == '"');
        assert(esc(a) == esc_char(a[0]) + esc(a.drop_first()));
        assert(lhs[0] == esc_char(a[0])[0]);
        if a[0] == '"' || a[0] == '\\' {
            assert(esc_char(a[0])[0] == '\\');
        } else {
            assert(esc_char(a[0])[0] == a[0]);
        }
        assert(false);
    } else {
        assert(esc(a) == esc_char(a[0]) + esc(a.drop_first()));
        assert(esc(b) == esc_char(b[0]) + esc(b.drop_first()));
        assert(lhs =~= esc_char(a[0]) + (esc(a.drop_first()) + seq!['"'] + u));
        assert(esc(b) + seq!['"'] + v =~= esc_char(b[0]) + (esc(b.drop_first()) + seq!['"'] + v));
        let ea = a[0] == '"' || a[0] == '\\';
        let eb = b[0] == '"' || b[0] == '\\';
        if ea != eb {
            assert(lhs[0] == esc_char(a[0])[0]);
            assert(lhs[0] == esc_char(b[0])[0]);
            if ea {
                assert(esc_char(a[0])[0] == '\\');
                assert(esc_char(b[0])[0] == b[0]);
            } else {
                assert(esc_char(b[0])[0] == '\\');
                assert(esc_char(a[0])[0] == a[0]);
            }
            assert(false);
        }
        if ea && eb {
            assert(lhs[1] == esc_char(a[0])[1]);
            assert(lhs[1] == esc_char(b[0])[1]);
            assert(a[0] == b[0]);
        } else {
            assert(lhs[0] == esc_char(a[0])[0]);
            assert(lhs[0] == esc_char(b[0])[0]);
            assert(a[0] == b[0]);
        }
        lemma_split_eq(
            esc_char(a[0]),
            esc(a.drop_first()) + seq!['"'] + u,
            esc_char(b[0]),
            esc(b.drop_first()) + seq!['"'] + v,
        );
        lemma_esc_unamb(a.drop_first(), b.drop_first(), u, v);
        assert(a.len() == b.len());
        assert forall|i: int| 0 <= i < a.len() implies a[i] == b[i] by {
            if i > 0 {
                assert(a[i] == a.drop_first()[i - 1]);
                assert(b[i] == b.drop_first()[i - 1]);
            }
        }
        assert(a =~= b);
    }
}

/// Two stored strings read the same only if they are the same string.
proof fn lemma_string_unamb(a: Seq<char>, b: Seq<char>, u: Seq<char>, v: Seq<char>)
    requires
        render_string(a) + u == render_string(b) + v,
    ensures
        a == b,
        u == v,
{
    assert(render_string(a) + u =~= seq!['"'] + (esc(a) + seq!['"'] + u));
    assert(render_string(b) + v =~= seq!['"'] + (esc(b) + seq!['"'] + v));
    lemma_split_eq(seq!['"'], esc(a) + seq!['"'] + u, seq!['"'], esc(b) + seq!['"'] + v);
    lemma_esc_unamb(a, b, u, v);
}

/// Two stored tables read the same, entry list by entry list, only if
/// they are the same table.
#[verifier::rlimit(100)]
proof fn lemma_tpairs_unamb(t1: TableSpec, t2: TableSpec, u: Seq<char>, v: Seq<char>)
    requires
        render_tpairs(t1) + seq!['}'] + u == render_tpairs(t2) + seq!['}'] + v,
    ensures
        t1 == t2,
        u == v,
    decreases t1.len(),
{
    let lhs = render_tpairs(t1) + seq!['}'] + u;
    if t1.len() == 0 && t2.len() == 0 {
        assert(lhs =~= seq!['}'] + u);
        assert(render_tpairs(t2) + seq!['}'] + v =~= seq!['}'] + v);
        lemma_split_eq(seq!['}'], u, seq!['}'], v);
        assert(t1 =~= t2);
    } else if t1.len() == 0 {
        let e = t2[0];
        assert(render_string(e.0)[0] == '"');
        assert(render_tpair(e)[0] == render_string(e.0)[0]);
        assert(render_tpairs(t2)[0] == render_tpair(e)[0]);
        assert(lhs[0] == '}');
        assert(lhs[0] == render_tpairs(t2)[0]);
        assert(false);
    } else if t2.len() == 0 {
        let e = t1[0];
        assert(render_string(e.0)[0] == '"');
        assert(render_tpair(e)[0] == render_string(e.0)[0]);
        assert(render_tpairs(t1)[0] == render_tpair(e)[0]);
        assert((render_tpairs(t2) + seq!['}'] + v)[0] == '}');
        assert(lhs[0] == render_tpairs(t1)[0]);
        assert(false);
    } else {
        let e1 = t1[0];
        let e2 = t2[0];
        let tail1: Seq<char> = if t1.len() == 1 {
            seq!['}'] + u
        } else {
            seq![','] + render_tpairs(t1.drop_first()) + seq!['}'] + u
        };
        let tail2: Seq<char> = if t2.len() == 1 {
            seq!['}'] + v
        } else {
            seq![','] + render_tpairs(t2.drop_first()) + seq!['}'] + v
        };
        assert(lhs =~= render_string(e1.0) + (seq![':'] + render_nat(e1.1) + tail1));
        assert(render_tpairs(t2) + seq!['}'] + v =~= render_string(e2.0) + (seq![':']
            + render_nat(e2.1) + tail2));
        lemma_string_unamb(
            e1.0,
            e2.0,
            seq![':'] + render_nat(e1.1) + tail1,
            seq![':'] + render_nat(e2.1) + tail2,
        );
        assert(seq![':'] + render_nat(e1.1) + tail1 =~= seq![':'] + (render_nat(e1.1) + tail1));
        assert(seq![':'] + render_nat(e2.1) + tail2 =~= seq![':'] + (render_nat(e2.1) + tail2));
        lemma_split_eq(seq![':'], render_nat(e1.1) + tail1, seq![':'], render_nat(e2.1) + tail2);
        assert(tail1[0] == '}' || tail1[0] == ',');
        assert(tail2[0] == '}' || tail2[0] == ',');
        lemma_nat_unamb(e1.1, e2.1, tail1, tail2);
        assert(e1 == e2) by {
            assert(e1.0 == e2.0 && e1.1 == e2.1);
        }
        if t1.len() == 1 && t2.len() == 1 {
            lemma_split_eq(seq!['}'], u, seq!['}'], v);
            assert(t1 =~= t2);
        } else if t1.len() == 1 {
            assert(tail1[0] == '}');
            assert(tail2[0] == ',');
            assert(false);
        } else if t2.len() == 1 {
            assert(tail1[0] == ',');
            assert(tail2[0] == '}');
            assert(false);
        } else {
            assert(tail1 =~= seq![','] + (render_tpairs(t1.drop_first()) + seq!['}'] + u));
            assert(tail2 =~= seq![','] + (render_tpairs(t2.drop_first()) + seq!['}'] + v));
            lemma_split_eq(
                seq![','],
                render_tpairs(t1.drop_first()) + seq!['}'] + u,
                seq![','],
                render_tpairs(t2.drop_first()) + seq!['}'] + v,
            );
            lemma_tpairs_unamb(t1.drop_first(), t2.drop_first(), u, v);
            assert(t1.len() == t2.len());
            assert forall|i: int| 0 <= i < t1.len() implies t1[i] == t2[i] by {
                if i > 0 {
                    assert(t1[i] == t1.drop_first()[i - 1]);
                    assert(t2[i] == t2.drop_first()[i - 1]);
                }
            }
            assert(t1 =~= t2);
        }
    }
}

/// Two stored tables read the same only if they are the same table.
proof fn lemma_table_unamb(t1: TableSpec, t2: TableSpec, u: Seq<char>, v: Seq<char>)
    requires
        render_table(t1) + u == render_table(t2) + v,
    ensures
        t1 == t2,
        u == v,
{
    assert(render_table(t1) + u =~= seq!['{'] + (render_tpairs(t1) + seq!['}'] + u));
    assert(render_table(t2) + v =~= seq!['{'] + (render_tpairs(t2) + seq!['}'] + v));
    lemma_split_eq(
        seq!['{'],
        render_tpairs(t1) + seq!['}'] + u,
        seq!['{'],
        render_tpairs(t2) + seq!['}'] + v,
    );
    lemma_tpairs_unamb(t1, t2, u, v);
}

/// Two stored document lists read the same only if they are the same
/// list.
#[verifier::rlimit(100)]
proof fn lemma_ipairs_unamb(s1: IndexSpec, s2: IndexSpec, u: Seq<char>, v: Seq<char>)
    requires
        render_ipairs(s1) + seq!['}'] + u == render_ipairs(s2) + seq!['}'] + v,
    ensures
        s1 == s2,
        u == v,
    decreases s1.len(),
{
    let lhs = render_ipairs(s1) + seq!['}'] + u;
    if s1.len() == 0 && s2.len() == 0 {
        assert(lhs =~= seq!['}'] + u);
        assert(render_ipairs(s2) + seq!['}'] + v =~= seq!['}'] + v);
        lemma_split_eq(seq!['}'], u, seq!['}'], v);
        assert(s1 =~= s2);
    } else if s1.len() == 0 {
        let d = s2[0];
        assert(render_string(d.0)[0] == '"');
        assert(render_ipair(d)[0] == render_string(d.0)[0]);
        assert(render_ipairs(s2)[0] == render_ipair(d)[0]);
        assert(lhs[0] == '}');
        assert(lhs[0] == render_ipairs(s2)[0]);
        assert(false);
    } else if s2.len() == 0 {
        let d = s1[0];
        assert(render_string(d.0)[0] == '"');
        assert(render_ipair(d)[0] == render_string(d.0)[0]);
        assert(render_ipairs(s1)[0] == render_ipair(d)[0]);
        assert((render_ipairs(s2) + seq!['}'] + v)[0] == '}');
        assert(lhs[0] == render_ipairs(s1)[0]);
        assert(false);
    } else {
        let d1 = s1[0];
        let d2 = s2[0];
        let tail1: Seq<char> = if s1.len() == 1 {
            seq!['}'] + u
        } else {
            seq![','] + render_ipairs(s1.drop_first()) + seq!['}'] + u
        };
        let tail2: Seq<char> = if s2.len() == 1 {
            seq!['}'] + v
        } else {
            seq![','] + render_ipairs(s2.drop_first()) + seq!['}'] + v
        };
        assert(lhs =~= render_string(d1.0) + (seq![':'] + render_table(d1.1) + tail1));
        assert(render_ipairs(s2) + seq!['}'] + v =~= render_string(d2.0) + (seq![':']
            + render_table(d2.1) + tail2));
        lemma_string_unamb(
            d1.0,
            d2.0,
            seq![':'] + render_table(d1.1) + tail1,
            seq![':'] + render_table(d2.1) + tail2,
        );
        assert(seq![':'] + render_table(d1.1) + tail1 =~= seq![':'] + (render_table(d1.1)
            + tail1));
        assert(seq![':'] + render_table(d2.1) + tail2 =~= seq![':'] + (render_table(d2.1)
            + tail2));
        lemma_split_eq(
            seq![':'],
            render_table(d1.1) + tail1,
            seq![':'],
            render_table(d2.1) + tail2,
        );
        lemma_table_unamb(d1.1, d2.1, tail1, tail2);
        assert(d1 == d2) by {
            assert(d1.0 == d2.0 && d1.1 == d2.1);
        }
        if s1.len() == 1 && s2.len() == 1 {
            lemma_split_eq(seq!['}'], u, seq!['}'], v);
            assert(s1 =~= s2);
        } else if s1.len() == 1 {
            assert(tail1[0] == '}');
            assert(tail2[0] == ',');
            assert(false);
        } else if s2.len() == 1 {
            assert(tail1[0] == ',');
            assert(tail2[0] == '}');
            assert(false);
        } else {
            assert(tail1 =~= seq![','] + (render_ipairs(s1.drop_first()) + seq!['}'] + u));
            assert(tail2 =~= seq![','] + (render_ipairs(s2.drop_first()) + seq!['}'] + v));
            lemma_split_eq(
                seq![','],
                render_ipairs(s1.drop_first()) + seq!['}'] + u,
                seq![','],
                render_ipairs(s2.drop_first()) + seq!['}'] + v,
            );
            lemma_ipairs_unamb(s1.drop_first(), s2.drop_first(), u, v);
            assert(s1.len() == s2.len());
            assert forall|i: int| 0 <= i < s1.len() implies s1[i] == s2[i] by {
                if i > 0 {
                    assert(s1[i] == s1.drop_first()[i - 1]);
                    assert(s2[i] == s2.drop_first()[i - 1]);
                }
            }
            assert(s1 =~= s2);
        }
    }
}

/// The stored form is injective: two indexes with the same stored text
/// are the same mapping.  Together with the loader's contract, the
/// index a stored text loads to is the one that was stored: a
/// serialize-then-deserialize round trip reproduces the index.
pub proof fn lemma_stored_form_injective(a: IndexSpec, b: IndexSpec)
    requires
        render_index(a) == render_index(b),
    ensures
        a == b,
{
    let none: Seq<char> = Seq::empty();
    assert(render_index(a) + none =~= seq!['{'] + (render_ipairs(a) + seq!['}'] + none));
    assert(render_index(b) + none =~= seq!['{'] + (render_ipairs(b) + seq!['}'] + none));
    assert(render_index(a) + none == render_index(b) + none);
    lemma_split_eq(
        seq!['{'],
        render_ipairs(a) + seq!['}'] + none,
        seq!['{'],
        render_ipairs(b) + seq!['}'] + none,
    );
    lemma_ipairs_unamb(a, b, none, none);
}

fn push_digits(v: &mut Vec<char>, n: usize)
    ensures
        final(v)@ == old(v)@ + render_nat(n as nat),
    decreases n,
{
    if n < 10 {
        let c = digit_char_of(n);
        v.push(c);
        proof {
            assert(final(v)@ =~= old(v)@ + render_nat(n as nat));
        }
    } else {
        push_digits(v, n / 10);
        let c = digit_char_of(n % 10);
        v.push(c);
        proof {
            assert(final(v)@ =~= old(v)@ + render_nat(n as nat));
        }
    }
}

fn push_string_rendered(v: &mut Vec<char>, s: &String)
    ensures
        final(v)@ == old(v)@ + render_string(s@),
{
    let cs = chars_of(s.as_str());
    v.push('"');
    let mut k: usize = 0;
    while k < cs.len()
        invariant
            cs@ == s@,
            k <= cs@.len(),
            v@ == old(v)@ + seq!['"'] + esc(s@.take(k as int)),
        decreases cs@.len() - k,
    {
        let ghost pre = s@.take(k as int);
        let c = cs[k];
        if c == '"' || c == '\\' {
            v.push('\\');
            v.push(c);
        } else {
            v.push(c);
        }
        proof {
            assert(s@.take(k as int + 1) =~= pre.push(s@[k as int]));
            lemma_esc_push(pre, s@[k as int]);
            assert(v@ =~= old(v)@ + seq!['"'] + esc(s@.take(k as int + 1)));
        }
        k += 1;
    }
    v.push('"');
    proof {
        assert(s@.take(s@.len() as int) =~= s@);
        assert(final(v)@ =~= old(v)@ + render_string(s@));
    }
}

fn push_table_rendered(v: &mut Vec<char>, t: &TermTable)
    ensures
        final(v)@ == old(v)@ + render_table(t@),
{
    v.push('{');
    let n = t.len();
    let mut k: usize = 0;
    while k < n
        invariant
            n == t@.len(),
            k <= n,
            v@ == old(v)@ + seq!['{'] + render_tpairs(t@.take(k as int)),
        decreases n - k,
    {
        if k > 0 {
            v.push(',');
        }
        let e = t.entry_at(k);
        push_string_rendered(v, &e.0);
        v.push(':');
        push_digits(v, e.1);
        proof {
            assert(t@.take(k as int + 1) =~= t@.take(k as int).push(t@[k as int]));
            assert((e.0@, e.1 as nat) == t@[k as int]);
            if k == 0 {
                assert(t@.take(1) =~= seq![t@[0]]);
                assert(render_tpairs(seq![t@[0]]) == render_tpair(t@[0]));
                assert(v@ =~= old(v)@ + seq!['{'] + render_tpairs(t@.take(k as int + 1)));
            } else {
                lemma_tpairs_push(t@.take(k as int), t@[k as int]);
                assert(v@ =~= old(v)@ + seq!['{'] + render_tpairs(t@.take(k as int + 1)));
            }
        }
        k += 1;
    }
    v.push('}');
    proof {
        assert(t@.take(n as int) =~= t@);
        assert(final(v)@ =~= old(v)@ + render_table(t@));
    }
}

/// Renders a corpus index in its stored text form.
pub fn render_index_str(ix: &CorpusIndex) -> (r: String)
    ensures
        r@ == render_index(ix@),
{
    let mut v: Vec<char> = Vec::new();
    v.push('{');
    let n = ix.len();
    let mut k: usize = 0;
    while k < n
        invariant
            n == ix@.len(),
            k <= n,
            v@ == seq!['{'] + render_ipairs(ix@.take(k as int)),
        decreases n - k,
    {
        if k > 0 {
            v.push(',');
        }
        let id = ix.doc_id(k);
        push_string_rendered(&mut v, &id);
        v.push(':');
        let tbl = ix.doc_table(k);
        push_table_rendered(&mut v, tbl);
        proof {
            assert(ix@.take(k as int + 1) =~= ix@.take(k as int).push(ix@[k as int]));
            assert(id@ == ix@[k as int].0);
            assert(tbl@ == ix@[k as int].1);
            if k == 0 {
                assert(ix@.take(1) =~= seq![ix@[0]]);
                assert(render_ipairs(seq![ix@[0]]) == render_ipair(ix@[0]));
                assert(v@ =~= seq!['{'] + render_ipairs(ix@.take(k as int + 1)));
            } else {
                lemma_ipairs_push(ix@.take(k as int), ix@[k as int]);
                assert(v@ =~= seq!['{'] + render_ipairs(ix@.take(k as int + 1)));
            }
        }
        k += 1;
    }
    v.push('}');
    proof {
        assert(ix@.take(n as int) =~= ix@);
        assert(v@ =~= render_index(ix@));
    }
    string_from_chars(v.as_slice())
}


/// The digit value of a digit character.
pub open spec fn digit_val_c(c: char) -> int {
    if c == '0' {
        0
    } else if c == '1' {
        1
    } else if c == '2' {
        2
    } else if c == '3' {
        3
    } else if c == '4' {
        4
    } else if c == '5' {
        5
    } else if c == '6' {
        6
    } else if c == '7' {
        7
    } else if c == '8' {
        8
    } else if c == '9' {
        9
    } else {
        -1
    }
}

proof fn lemma_digit_exists(c: char)
    requires
        is_digit_c(c),
    ensures
        exists|d: int| 0 <= d < 10 && digit_char(d) == c,
{
    if c == '0' {
        assert(digit_char(0) == c);
    } else if c == '1' {
        assert(digit_char(1) == c);
    } else if c == '2' {
        assert(digit_char(2) == c);
    } else if c == '3' {
        assert(digit_char(3) == c);
    } else if c == '4' {
        assert(digit_char(4) == c);
    } else if c == '5' {
        assert(digit_char(5) == c);
    } else if c == '6' {
        assert(digit_char(6) == c);
    } else if c == '7' {
        assert(digit_char(7) == c);
    } else if c == '8' {
        assert(digit_char(8) == c);
    } else {
        assert(digit_char(9) == c);
    }
}

proof fn lemma_esc_concat(a: Seq<char>, b: Seq<char>)
    ensures
        esc(a + b) == esc(a) + esc(b),
    decreases a.len(),
{
    if a.len() == 0 {
        assert(a + b =~= b);
        assert(esc(a) + esc(b) =~= esc(b));
    } else {
        assert((a + b).drop_first() =~= a.drop_first() + b);
        assert((a + b)[0] == a[0]);
        assert(esc(a + b) == esc_char((a + b)[0]) + esc((a + b).drop_first()));
        lemma_esc_concat(a.drop_first(), b);
        assert(esc(a) == esc_char(a[0]) + esc(a.drop_first()));
        assert(esc(a + b) =~= esc(a) + esc(b));
    }
}

proof fn lemma_render_nat_no_leading_zero(n: nat)
    requires
        n >= 1,
    ensures
        render_nat(n)[0] != '0',
    decreases n,
{
    if n >= 10 {
        lemma_render_nat_no_leading_zero(n / 10);
        lemma_render_nat_len(n / 10);
        assert(render_nat(n)[0] == render_nat(n / 10)[0]);
    }
}

/// A count whose stored digits extend another count's digits is at
/// least ten times the shorter one plus the first extra digit.
proof fn lemma_render_nat_extension(n: nat, m: nat, s: Seq<char>)
    requires
        render_nat(n) == render_nat(m) + s,
        s.len() >= 1,
    ensures
        n >= 10 * m + digit_val_c(s[0]),
        is_digit_c(s[0]),
        digit_val_c(s[0]) >= 0,
    decreases s.len(),
{
    lemma_render_nat_digits(n);
    lemma_render_nat_len(n);
    lemma_render_nat_len(m);
    assert(s[0] == render_nat(n)[render_nat(m).len() as int]);
    assert(is_digit_c(s[0]));
    assert(digit_val_c(s[0]) >= 0);
    assert(n >= 10) by {
        if n < 10 {
            assert(render_nat(n).len() == 1);
        }
    }
    assert(render_nat(n) == render_nat(n / 10) + seq![digit_char((n % 10) as int)]);
    if s.len() == 1 {
        lemma_split_eq(
            render_nat(n / 10),
            seq![digit_char((n % 10) as int)],
            render_nat(m),
            s,
        );
        lemma_render_nat_injective(n / 10, m);
        assert(s[0] == digit_char((n % 10) as int));
        assert(digit_val_c(digit_char((n % 10) as int)) == n % 10);
        assert(n == 10 * (n / 10) + n % 10);
    } else {
        assert(render_nat(n) =~= (render_nat(m) + s.drop_last()) + seq![s.last()]);
        lemma_split_eq(
            render_nat(n / 10),
            seq![digit_char((n % 10) as int)],
            render_nat(m) + s.drop_last(),
            seq![s.last()],
        );
        lemma_render_nat_extension(n / 10, m, s.drop_last());
        assert(s.drop_last()[0] == s[0]);
        assert(n == 10 * (n / 10) + n % 10);
        assert(n / 10 >= 10 * m + digit_val_c(s[0]));
        assert(n >= 10 * (10 * m + digit_val_c(s[0])));
        assert(10 * (10 * m + digit_val_c(s[0])) >= 10 * m + digit_val_c(s[0])) by (nonlinear_arith)
            requires
                m >= 0,
                digit_val_c(s[0]) >= 0,
        ;
    }
}

/// Whether the characters at `i` hold exactly the stored form of `x`.
spec fn str_matches(cs: Seq<char>, i: int, x: Seq<char>) -> bool {
    &&& 0 <= i
    &&& i + render_string(x).len() <= cs.len()
    &&& cs.subrange(i, i + render_string(x).len() as int) == render_string(x)
}

/// What a stored string standing at `i` pins down around position
/// `i + 1 + |esc(x.take(k))|`.
proof fn lemma_str_window(cs: Seq<char>, i: int, x: Seq<char>, k: int)
    requires
        str_matches(cs, i, x),
        0 <= k <= x.len(),
    ensures
        render_string(x).len() == esc(x).len() + 2,
        cs[i] == '"',
        cs[i + 1 + esc(x).len()] == '"',
        forall|t: int| 0 <= t < esc(x).len() ==> cs[i + 1 + t] == #[trigger] esc(x)[t],
        esc(x) == esc(x.take(k)) + esc(x.skip(k)),
        esc(x.take(k)).len() <= esc(x).len(),
        k < x.len() ==> esc(x.skip(k)) == esc_char(x[k]) + esc(x.skip(k + 1)),
        k < x.len() ==> esc(x.take(k)).len() + esc_char(x[k]).len() <= esc(x).len(),
        k == x.len() ==> esc(x.take(k)).len() == esc(x).len(),
{
    let w = render_string(x);
    assert(w.len() == esc(x).len() + 2);
    assert(cs[i] == cs.subrange(i, i + w.len() as int)[0]);
    assert(w[0] == '"');
    assert(cs[i + 1 + esc(x).len()] == cs.subrange(i, i + w.len() as int)[1 + esc(x).len() as int]);
    assert(w[1 + esc(x).len() as int] == '"');
    assert forall|t: int| 0 <= t < esc(x).len() implies cs[i + 1 + t] == #[trigger] esc(x)[t] by {
        assert(cs[i + 1 + t] == cs.subrange(i, i + w.len() as int)[1 + t]);
        assert(w[1 + t] == esc(x)[t]);
    }
    lemma_esc_concat(x.take(k), x.skip(k));
    assert(x.take(k) + x.skip(k) =~= x);
    if k < x.len() {
        assert(x.skip(k)[0] == x[k]);
        assert(x.skip(k).drop_first() =~= x.skip(k + 1));
        assert(esc(x.skip(k)) == esc_char(x.skip(k)[0]) + esc(x.skip(k).drop_first()));
    } else {
        assert(x.take(k) =~= x);
        assert(x.skip(k) =~= Seq::<char>::empty());
    }
}

/// Whether the characters at `i` hold exactly the stored form of `n`,
/// with no further digit following it.
spec fn nat_matches(cs: Seq<char>, i: int, n: nat) -> bool {
    &&& 0 <= i
    &&& i + render_nat(n).len() <= cs.len()
    &&& cs.subrange(i, i + render_nat(n).len() as int) == render_nat(n)
    &&& (i + render_nat(n).len() == cs.len() || !is_digit_c(cs[i + render_nat(n).len()]))
}

/// What a stored count standing at `i` pins down.
proof fn lemma_nat_window(cs: Seq<char>, i: int, n: nat)
    requires
        nat_matches(cs, i, n),
    ensures
        render_nat(n).len() >= 1,
        forall|t: int|
            0 <= t < render_nat(n).len() ==> cs[i + t] == #[trigger] render_nat(n)[t]
                && is_digit_c(cs[i + t]),
{
    lemma_render_nat_len(n);
    lemma_render_nat_digits(n);
    let w = render_nat(n);
    assert forall|t: int|
        0 <= t < w.len() implies cs[i + t] == #[trigger] w[t] && is_digit_c(cs[i + t]) by {
        assert(cs[i + t] == cs.subrange(i, i + w.len() as int)[t]);
    }
}

/// Parses a quoted string.  What was consumed re-renders to the
/// result, and a stored string standing at `i` is read back exactly.
fn parse_string_at(cs: &[char], i: usize) -> (r: Option<(String, usize)>)
    requires
        i <= cs@.len(),
    ensures
        match r {
            Option::Some(p) => {
                &&& i < p.1 <= cs@.len()
                &&& cs@.subrange(i as int, p.1 as int) == render_string(p.0@)
                &&& forall|x: Seq<char>|
                    #[trigger] str_matches(cs@, i as int, x) ==> p.0@ == x && p.1 == i
                        + render_string(x).len()
            },
            Option::None => forall|x: Seq<char>| !str_matches(cs@, i as int, x),
        },
{
    if i >= cs.len() || cs[i] != '"' {
        proof {
            assert forall|x: Seq<char>| !str_matches(cs@, i as int, x) by {
                if str_matches(cs@, i as int, x) {
                    lemma_str_window(cs@, i as int, x, 0);
                    assert(false);
                }
            }
        }
        return None;
    }
    let mut out: Vec<char> = Vec::new();
    let mut pos: usize = i + 1;
    loop
        invariant
            i + 1 <= pos <= cs@.len(),
            i < cs@.len(),
            cs@[i as int] == '"',
            esc(out@) =~= cs@.subrange(i as int + 1, pos as int),
            forall|x: Seq<char>|
                #[trigger] str_matches(cs@, i as int, x) ==> out@.len() <= x.len() && out@
                    == x.take(out@.len() as int),
        ensures
            i + 1 <= pos < cs@.len(),
            esc(out@) =~= cs@.subrange(i as int + 1, pos as int),
            cs@[pos as int] == '"',
            forall|x: Seq<char>|
                #[trigger] str_matches(cs@, i as int, x) ==> out@ == x && pos + 1 == i
                    + render_string(x).len(),
        decreases cs@.len() - pos,
    {
        let ghost out0 = out@;
        let ghost p0 = pos as int;
        if pos >= cs.len() {
            proof {
                assert forall|x: Seq<char>| !str_matches(cs@, i as int, x) by {
                    if str_matches(cs@, i as int, x) {
                        let k = out0.len() as int;
                        lemma_str_window(cs@, i as int, x, k);
                        assert(esc(out0) == esc(x.take(k)));
                        assert(p0 - i - 1 <= esc(x).len());
                        assert(p0 < i + render_string(x).len());
                        assert(false);
                    }
                }
            }
            return None;
        }
        let c = cs[pos];
        if c == '"' {
            proof {
                assert forall|x: Seq<char>|
                    #[trigger] str_matches(cs@, i as int, x) implies out@ == x && pos + 1 == i
                        + render_string(x).len() by {
                    let k = out0.len() as int;
                    lemma_str_window(cs@, i as int, x, k);
                    assert(esc(out0) == esc(x.take(k)));
                    if k < x.len() {
                        assert(p0 - i - 1 < esc(x).len());
                        assert(cs@[p0] == esc(x)[p0 - i - 1]);
                        assert(esc(x)[p0 - i - 1] == esc_char(x[k])[0]);
                        if x[k] == '"' || x[k] == '\\' {
                            assert(esc_char(x[k])[0] == '\\');
                        } else {
                            assert(esc_char(x[k])[0] == x[k]);
                        }
                        assert(false);
                    }
                    assert(x.take(k) =~= x);
                    assert(pos + 1 == i + render_string(x).len());
                }
            }
            break ;
        }
        if c == '\\' {
            if pos + 1 >= cs.len() {
                proof {
                    assert forall|x: Seq<char>| !str_matches(cs@, i as int, x) by {
                        if str_matches(cs@, i as int, x) {
                            let k = out0.len() as int;
                            lemma_str_window(cs@, i as int, x, k);
                            assert(esc(out0) == esc(x.take(k)));
                            if k < x.len() {
                                assert(p0 - i - 1 == esc(x.take(k)).len());
                                assert(cs@[p0] == esc(x)[p0 - i - 1]);
                                assert(esc(x)[p0 - i - 1] == esc_char(x[k])[0]);
                                if x[k] == '"' || x[k] == '\\' {
                                    assert(esc_char(x[k]).len() == 2);
                                    assert(p0 + 1 < i + render_string(x).len());
                                } else {
                                    assert(esc_char(x[k])[0] == x[k]);
                                    assert(false);
                                }
                            } else {
                                assert(x.take(k) =~= x);
                                assert(cs@[p0] == '"');
                                assert(false);
                            }
                            assert(false);
                        }
                    }
                }
                return None;
            }
            let c2 = cs[pos + 1];
            if c2 != '"' && c2 != '\\' {
                proof {
                    assert forall|x: Seq<char>| !str_matches(cs@, i as int, x) by {
                        if str_matches(cs@, i as int, x) {
                            let k = out0.len() as int;
                            lemma_str_window(cs@, i as int, x, k);
                            assert(esc(out0) == esc(x.take(k)));
                            if k < x.len() {
                                assert(p0 - i - 1 == esc(x.take(k)).len());
                                assert(cs@[p0] == esc(x)[p0 - i - 1]);
                                assert(esc(x)[p0 - i - 1] == esc_char(x[k])[0]);
                                if x[k] == '"' || x[k] == '\\' {
                                    assert(cs@[p0 + 1] == esc(x)[p0 - i]);
                                    assert(esc(x)[p0 - i] == esc_char(x[k])[1]);
                                    assert(c2 == x[k]);
                                } else {
                                    assert(esc_char(x[k])[0] == x[k]);
                                }
                            } else {
                                assert(x.take(k) =~= x);
                                assert(cs@[p0] == '"');
                            }
                            assert(false);
                        }
                    }
                }
                return None;
            }
            out.push(c2);
            pos = pos + 2;
            proof {
                assert(out@ =~= out0.push(c2));
                lemma_esc_push(out0, c2);
                assert(esc_char(c2) =~= seq!['\\', c2]);
                assert(esc(out@) =~= cs@.subrange(i as int + 1, pos as int));
                assert forall|x: Seq<char>|
                    #[trigger] str_matches(cs@, i as int, x) implies out@.len() <= x.len() && out@
                        == x.take(out@.len() as int) by {
                    let k = out0.len() as int;
                    lemma_str_window(cs@, i as int, x, k);
                    assert(esc(out0) == esc(x.take(k)));
                    if k == x.len() {
                        assert(x.take(k) =~= x);
                        assert(cs@[p0] == '"');
                        assert(false);
                    }
                    assert(cs@[p0] == esc(x)[p0 - i - 1]);
                    assert(esc(x)[p0 - i - 1] == esc_char(x[k])[0]);
                    if !(x[k] == '"' || x[k] == '\\') {
                        assert(esc_char(x[k])[0] == x[k]);
                        assert(false);
                    }
                    assert(cs@[p0 + 1] == esc(x)[p0 - i]);
                    assert(esc(x)[p0 - i] == esc_char(x[k])[1]);
                    assert(c2 == x[k]);
                    assert(out@ =~= x.take(k + 1));
                }
            }
        } else {
            out.push(c);
            pos = pos + 1;
            proof {
                assert(out@ =~= out0.push(c));
                lemma_esc_push(out0, c);
                assert(esc_char(c) =~= seq![c]);
                assert(esc(out@) =~= cs@.subrange(i as int + 1, pos as int));
                assert forall|x: Seq<char>|
                    #[trigger] str_matches(cs@, i as int, x) implies out@.len() <= x.len() && out@
                        == x.take(out@.len() as int) by {
                    let k = out0.len() as int;
                    lemma_str_window(cs@, i as int, x, k);
                    assert(esc(out0) == esc(x.take(k)));
                    if k == x.len() {
                        assert(x.take(k) =~= x);
                        assert(cs@[p0] == '"');
                        assert(false);
                    }
                    assert(cs@[p0] == esc(x)[p0 - i - 1]);
                    assert(esc(x)[p0 - i - 1] == esc_char(x[k])[0]);
                    if x[k] == '"' || x[k] == '\\' {
                        assert(esc_char(x[k])[0] == '\\');
                        assert(false);
                    }
                    assert(esc_char(x[k])[0] == x[k]);
                    assert(c == x[k]);
                    assert(out@ =~= x.take(k + 1));
                }
            }
        }
    }
    let s = string_from_chars(out.as_slice());
    proof {
        assert(cs@.subrange(i as int, pos as int + 1) =~= seq!['"'] + esc(s@) + seq!['"']);
    }
    Some((s, pos + 1))
}

/// Parses a decimal count with no leading zeros.  What was consumed
/// re-renders to the result, and a stored count standing at `i` whose
/// value fits the machine is read back exactly.
fn parse_nat_at(cs: &[char], i: usize) -> (r: Option<(usize, usize)>)
    requires
        i <= cs@.len(),
    ensures
        match r {
            Option::Some(p) => {
                &&& i < p.1 <= cs@.len()
                &&& cs@.subrange(i as int, p.1 as int) == render_nat(p.0 as nat)
                &&& forall|n: nat|
                    n <= usize::MAX && #[trigger] nat_matches(cs@, i as int, n) ==> p.0 == n && p.1
                        == i + render_nat(n).len()
            },
            Option::None => forall|n: nat| n <= usize::MAX ==> !nat_matches(cs@, i as int, n),
        },
{
    if i >= cs.len() {
        proof {
            assert forall|n: nat| n <= usize::MAX implies !nat_matches(cs@, i as int, n) by {
                if nat_matches(cs@, i as int, n) {
                    lemma_nat_window(cs@, i as int, n);
                    assert(false);
                }
            }
        }
        return None;
    }
    let d0 = match digit_of(cs[i]) {
        Some(d) => d,
        None => {
            proof {
                assert forall|n: nat| n <= usize::MAX implies !nat_matches(cs@, i as int, n) by {
                    if nat_matches(cs@, i as int, n) {
                        lemma_nat_window(cs@, i as int, n);
                        assert(cs@[i as int] == render_nat(n)[0]);
                        assert(is_digit_c(cs@[i as int]));
                        lemma_digit_exists(cs@[i as int]);
                        assert(false);
                    }
                }
            }
            return None;
        },
    };
    if d0 == 0 {
        proof {
            assert(cs@.subrange(i as int, i as int + 1) =~= render_nat(0));
            assert forall|n: nat|
                n <= usize::MAX && #[trigger] nat_matches(cs@, i as int, n) implies 0 == n && i + 1
                    == i + render_nat(n).len() by {
                lemma_nat_window(cs@, i as int, n);
                assert(cs@[i as int] == render_nat(n)[0]);
                assert(cs@[i as int] == digit_char(0));
                if n >= 1 {
                    lemma_render_nat_no_leading_zero(n);
                    assert(false);
                }
            }
        }
        return Some((0, i + 1));
    }
    let mut acc: usize = d0;
    let mut pos: usize = i + 1;
    proof {
        assert(cs@.subrange(i as int, pos as int) =~= render_nat(acc as nat));
    }
    loop
        invariant
            i < pos <= cs@.len(),
            1 <= acc,
            cs@.subrange(i as int, pos as int) =~= render_nat(acc as nat),
            forall|n: nat|
                n <= usize::MAX && #[trigger] nat_matches(cs@, i as int, n) ==> pos - i
                    <= render_nat(n).len(),
        ensures
            i < pos <= cs@.len(),
            cs@.subrange(i as int, pos as int) =~= render_nat(acc as nat),
            forall|n: nat|
                n <= usize::MAX && #[trigger] nat_matches(cs@, i as int, n) ==> acc == n && pos
                    == i + render_nat(n).len(),
        decreases cs@.len() - pos,
    {
        let ghost p0 = pos as int;
        let ghost a0 = acc as nat;
        if pos >= cs.len() {
            proof {
                assert forall|n: nat|
                    n <= usize::MAX && #[trigger] nat_matches(cs@, i as int, n) implies acc == n
                        && pos == i + render_nat(n).len() by {
                    lemma_nat_window(cs@, i as int, n);
                    if p0 - i < render_nat(n).len() {
                        assert(i + render_nat(n).len() <= cs@.len());
                        assert(false);
                    }
                    assert(cs@.subrange(i as int, p0) =~= render_nat(n));
                    lemma_render_nat_injective(a0, n);
                }
            }
            break ;
        }
        let d = match digit_of(cs[pos]) {
            Some(d) => d,
            None => {
                proof {
                    assert forall|n: nat|
                        n <= usize::MAX && #[trigger] nat_matches(cs@, i as int, n) implies acc
                            == n && pos == i + render_nat(n).len() by {
                        lemma_nat_window(cs@, i as int, n);
                        if p0 - i < render_nat(n).len() {
                            assert(cs@[p0] == render_nat(n)[p0 - i]);
                            assert(is_digit_c(cs@[p0]));
                            lemma_digit_exists(cs@[p0]);
                            assert(false);
                        }
                        assert(cs@.subrange(i as int, p0) =~= render_nat(n));
                        lemma_render_nat_injective(a0, n);
                    }
                }
                break ;
            },
        };
        if acc > (usize::MAX - d) / 10 {
            proof {
                assert(10 * acc + d > usize::MAX) by (nonlinear_arith)
                    requires
                        acc > (usize::MAX - d) / 10,
                        0 <= d < 10,
                ;
                assert forall|n: nat| n <= usize::MAX implies !nat_matches(cs@, i as int, n) by {
                    if nat_matches(cs@, i as int, n) {
                        lemma_nat_window(cs@, i as int, n);
                        if p0 - i == render_nat(n).len() {
                            assert(!is_digit_c(cs@[p0]) || i + render_nat(n).len() == cs@.len());
                            assert(digit_char(d as int) == cs@[p0]);
                            assert(is_digit_c(cs@[p0]));
                            assert(false);
                        }
                        assert(render_nat(n).take(p0 - i) =~= cs@.subrange(i as int, p0));
                        assert(render_nat(n) =~= render_nat(a0) + render_nat(n).skip(p0 - i));
                        assert(render_nat(n).skip(p0 - i)[0] == render_nat(n)[p0 - i]);
                        assert(render_nat(n)[p0 - i] == cs@[p0]);
                        lemma_render_nat_extension(n, a0, render_nat(n).skip(p0 - i));
                        assert(digit_val_c(digit_char(d as int)) == d);
                        assert(n >= 10 * a0 + d);
                        assert(false);
                    }
                }
            }
            return None;
        }
        proof {
            assert(acc * 10 + d <= usize::MAX) by (nonlinear_arith)
                requires
                    acc <= (usize::MAX - d) / 10,
                    0 <= d,
            ;
        }
        let next = acc * 10 + d;
        proof {
            assert(next as nat / 10 == acc as nat && next as nat % 10 == d as nat)
                by (nonlinear_arith)
                requires
                    next == acc * 10 + d,
                    0 <= d < 10,
                    1 <= acc,
            ;
            assert(next >= 10);
            assert(render_nat(next as nat) == render_nat(acc as nat) + seq![
                digit_char((next as nat % 10) as int),
            ]);
            assert(cs@.subrange(i as int, pos as int + 1) =~= render_nat(next as nat));
            assert forall|n: nat|
                n <= usize::MAX && #[trigger] nat_matches(cs@, i as int, n) implies p0 + 1 - i
                    <= render_nat(n).len() by {
                lemma_nat_window(cs@, i as int, n);
                if p0 - i == render_nat(n).len() {
                    assert(!is_digit_c(cs@[p0]) || i + render_nat(n).len() == cs@.len());
                    assert(digit_char(d as int) == cs@[p0]);
                    assert(is_digit_c(cs@[p0]));
                    assert(false);
                }
            }
        }
        acc = next;
        pos = pos + 1;
    }
    Some((acc, pos))
}


/// Whether the characters at `i` hold exactly the stored form of `t`.
spec fn table_matches(cs: Seq<char>, i: int, t: TableSpec) -> bool {
    &&& 0 <= i
    &&& i + render_table(t).len() <= cs.len()
    &&& cs.subrange(i, i + render_table(t).len() as int) == render_table(t)
}

/// Whether the characters at `i` hold exactly the stored form of `v`.
spec fn index_matches(cs: Seq<char>, i: int, v: IndexSpec) -> bool {
    &&& 0 <= i
    &&& i + render_index(v).len() <= cs.len()
    &&& cs.subrange(i, i + render_index(v).len() as int) == render_index(v)
}

proof fn lemma_tpairs_decompose(t: TableSpec, k: int)
    requires
        0 <= k < t.len(),
    ensures
        render_tpairs(t) == render_tpairs(t.take(k)) + (if k > 0 {
            seq![',']
        } else {
            Seq::<char>::empty()
        }) + render_tpair(t[k]) + (if k + 1 < t.len() {
            seq![','] + render_tpairs(t.skip(k + 1))
        } else {
            Seq::<char>::empty()
        }),
    decreases k,
{
    let sep: Seq<char> = if k > 0 {
        seq![',']
    } else {
        Seq::<char>::empty()
    };
    let rest: Seq<char> = if k + 1 < t.len() {
        seq![','] + render_tpairs(t.skip(k + 1))
    } else {
        Seq::<char>::empty()
    };
    if k == 0 {
        assert(t.take(0) =~= Seq::<(Seq<char>, nat)>::empty());
        if t.len() == 1 {
            assert(render_tpairs(t) == render_tpair(t[0]));
        } else {
            assert(t.skip(1) =~= t.drop_first());
            assert(render_tpairs(t) == render_tpair(t[0]) + seq![','] + render_tpairs(
                t.drop_first(),
            ));
        }
        assert(render_tpairs(t) =~= render_tpairs(t.take(0)) + sep + render_tpair(t[0]) + rest);
    } else {
        assert(render_tpairs(t) == render_tpair(t[0]) + seq![','] + render_tpairs(t.drop_first()));
        let d = t.drop_first();
        lemma_tpairs_decompose(d, k - 1);
        assert(d.take(k - 1) =~= t.take(k).drop_first());
        assert(d[k - 1] == t[k]);
        assert(d.skip(k) =~= t.skip(k + 1));
        if k == 1 {
            assert(t.take(1) =~= seq![t[0]]);
            assert(render_tpairs(t.take(1)) == render_tpair(t[0]));
            assert(d.take(0) =~= Seq::<(Seq<char>, nat)>::empty());
            assert(render_tpairs(d.take(0)) =~= Seq::<char>::empty());
        } else {
            assert(t.take(k)[0] == t[0]);
            assert(t.take(k).len() == k);
            assert(render_tpairs(t.take(k)) == render_tpair(t.take(k)[0]) + seq![',']
                + render_tpairs(t.take(k).drop_first()));
        }
        assert(render_tpairs(t) =~= render_tpairs(t.take(k)) + sep + render_tpair(t[k]) + rest);
    }
}

proof fn lemma_ipairs_decompose(s: IndexSpec, k: int)
    requires
        0 <= k < s.len(),
    ensures
        render_ipairs(s) == render_ipairs(s.take(k)) + (if k > 0 {
            seq![',']
        } else {
            Seq::<char>::empty()
        }) + render_ipair(s[k]) + (if k + 1 < s.len() {
            seq![','] + render_ipairs(s.skip(k + 1))
        } else {
            Seq::<char>::empty()
        }),
    decreases k,
{
    let sep: Seq<char> = if k > 0 {
        seq![',']
    } else {
        Seq::<char>::empty()
    };
    let rest: Seq<char> = if k + 1 < s.len() {
        seq![','] + render_ipairs(s.skip(k + 1))
    } else {
        Seq::<char>::empty()
    };
    if k == 0 {
        assert(s.take(0) =~= Seq::<(Seq<char>, TableSpec)>::empty());
        if s.len() == 1 {
            assert(render_ipairs(s) == render_ipair(s[0]));
        } else {
            assert(s.skip(1) =~= s.drop_first());
            assert(render_ipairs(s) == render_ipair(s[0]) + seq![','] + render_ipairs(
                s.drop_first(),
            ));
        }
        assert(render_ipairs(s) =~= render_ipairs(s.take(0)) + sep + render_ipair(s[0]) + rest);
    } else {
        assert(render_ipairs(s) == render_ipair(s[0]) + seq![','] + render_ipairs(s.drop_first()));
        let d = s.drop_first();
        lemma_ipairs_decompose(d, k - 1);
        assert(d.take(k - 1) =~= s.take(k).drop_first());
        assert(d[k - 1] == s[k]);
        assert(d.skip(k) =~= s.skip(k + 1));
        if k == 1 {
            assert(s.take(1) =~= seq![s[0]]);
            assert(render_ipairs(s.take(1)) == render_ipair(s[0]));
            assert(d.take(0) =~= Seq::<(Seq<char>, TableSpec)>::empty());
            assert(render_ipairs(d.take(0)) =~= Seq::<char>::empty());
        } else {
            assert(s.take(k)[0] == s[0]);
            assert(s.take(k).len() == k);
            assert(render_ipairs(s.take(k)) == render_ipair(s.take(k)[0]) + seq![',']
                + render_ipairs(s.take(k).drop_first()));
        }
        assert(render_ipairs(s) =~= render_ipairs(s.take(k)) + sep + render_ipair(s[k]) + rest);
    }
}

/// What a stored table standing at `i` pins down for its entry `k`,
/// when the first `k` entries have been read up to position `pos`.
#[verifier::rlimit(100)]
proof fn lemma_table_window(cs: Seq<char>, i: int, t: TableSpec, k: int, pos: int)
    requires
        table_matches(cs, i, t),
        0 <= k < t.len(),
        pos == i + 1 + render_tpairs(t.take(k)).len() + (if k > 0 {
            1int
        } else {
            0int
        }),
    ensures
        i + render_table(t).len() <= cs.len(),
        pos + render_tpair(t[k]).len() < i + render_table(t).len(),
        render_tpair(t[k]).len() == render_string(t[k].0).len() + 1 + render_nat(t[k].1).len(),
        str_matches(cs, pos, t[k].0),
        cs[pos + render_string(t[k].0).len()] == ':',
        nat_matches(cs, pos + render_string(t[k].0).len() + 1, t[k].1),
        k + 1 < t.len() ==> cs[pos + render_tpair(t[k]).len()] == ',',
        k + 1 == t.len() ==> cs[pos + render_tpair(t[k]).len()] == '}' && pos + render_tpair(
            t[k],
        ).len() + 1 == i + render_table(t).len(),
        render_tpairs(t.take(k + 1)) == render_tpairs(t.take(k)) + (if k > 0 {
            seq![',']
        } else {
            Seq::<char>::empty()
        }) + render_tpair(t[k]),
{
    let w = render_table(t);
    let ll = i + w.len() as int;
    lemma_tpairs_decompose(t, k);
    let sep: Seq<char> = if k > 0 {
        seq![',']
    } else {
        Seq::<char>::empty()
    };
    let rest: Seq<char> = if k + 1 < t.len() {
        seq![','] + render_tpairs(t.skip(k + 1))
    } else {
        Seq::<char>::empty()
    };
    let a = seq!['{'] + render_tpairs(t.take(k)) + sep;
    let b = render_tpair(t[k]) + rest + seq!['}'];
    assert(w =~= a + b);
    assert(a.len() == pos - i);
    assert(cs.subrange(i, ll) =~= cs.subrange(i, pos) + cs.subrange(pos, ll));
    lemma_split_eq(cs.subrange(i, pos), cs.subrange(pos, ll), a, b);
    let rs = render_string(t[k].0);
    let rn = render_nat(t[k].1);
    assert(b =~= rs + (seq![':'] + rn + rest + seq!['}']));
    assert(cs.subrange(pos, ll) =~= cs.subrange(pos, pos + rs.len() as int) + cs.subrange(
        pos + rs.len() as int,
        ll,
    ));
    lemma_split_eq(
        cs.subrange(pos, pos + rs.len() as int),
        cs.subrange(pos + rs.len() as int, ll),
        rs,
        seq![':'] + rn + rest + seq!['}'],
    );
    assert(str_matches(cs, pos, t[k].0));
    let q = pos + rs.len() as int;
    assert(cs[q] == cs.subrange(q, ll)[0]);
    assert(cs.subrange(q, ll) =~= cs.subrange(q, q + 1) + cs.subrange(q + 1, ll));
    assert(cs.subrange(q, ll) =~= seq![':'] + (rn + rest + seq!['}']));
    lemma_split_eq(
        cs.subrange(q, q + 1),
        cs.subrange(q + 1, ll),
        seq![':'],
        rn + rest + seq!['}'],
    );
    assert(cs.subrange(q + 1, ll) =~= cs.subrange(q + 1, q + 1 + rn.len() as int) + cs.subrange(
        q + 1 + rn.len() as int,
        ll,
    ));
    assert(cs.subrange(q + 1, ll) =~= rn + (rest + seq!['}']));
    lemma_split_eq(
        cs.subrange(q + 1, q + 1 + rn.len() as int),
        cs.subrange(q + 1 + rn.len() as int, ll),
        rn,
        rest + seq!['}'],
    );
    let pe = q + 1 + rn.len() as int;
    assert(cs[pe] == cs.subrange(pe, ll)[0]);
    assert((rest + seq!['}'])[0] == if k + 1 < t.len() {
        ','
    } else {
        '}'
    });
    assert(!is_digit_c(','));
    assert(!is_digit_c('}'));
    assert(nat_matches(cs, q + 1, t[k].1));
    assert(pe == pos + render_tpair(t[k]).len());
    lemma_tpairs_decompose(t.take(k + 1), k);
    assert(t.take(k + 1).take(k) =~= t.take(k));
    assert(t.take(k + 1)[k] == t[k]);
    assert(render_tpairs(t.take(k + 1)) =~= render_tpairs(t.take(k)) + sep + render_tpair(t[k]));
}

/// What a stored index standing at `i` pins down for its document `k`,
/// when the first `k` documents have been read up to position `pos`.
#[verifier::rlimit(100)]
proof fn lemma_index_window(cs: Seq<char>, i: int, v: IndexSpec, k: int, pos: int)
    requires
        index_matches(cs, i, v),
        0 <= k < v.len(),
        pos == i + 1 + render_ipairs(v.take(k)).len() + (if k > 0 {
            1int
        } else {
            0int
        }),
    ensures
        i + render_index(v).len() <= cs.len(),
        pos + render_ipair(v[k]).len() < i + render_index(v).len(),
        render_ipair(v[k]).len() == render_string(v[k].0).len() + 1 + render_table(v[k].1).len(),
        str_matches(cs, pos, v[k].0),
        cs[pos + render_string(v[k].0).len()] == ':',
        table_matches(cs, pos + render_string(v[k].0).len() + 1, v[k].1),
        k + 1 < v.len() ==> cs[pos + render_ipair(v[k]).len()] == ',',
        k + 1 == v.len() ==> cs[pos + render_ipair(v[k]).len()] == '}' && pos + render_ipair(
            v[k],
        ).len() + 1 == i + render_index(v).len(),
        render_ipairs(v.take(k + 1)) == render_ipairs(v.take(k)) + (if k > 0 {
            seq![',']
        } else {
            Seq::<char>::empty()
        }) + render_ipair(v[k]),
{
    let w = render_index(v);
    let ll = i + w.len() as int;
    lemma_ipairs_decompose(v, k);
    let sep: Seq<char> = if k > 0 {
        seq![',']
    } else {
        Seq::<char>::empty()
    };
    let rest: Seq<char> = if k + 1 < v.len() {
        seq![','] + render_ipairs(v.skip(k + 1))
    } else {
        Seq::<char>::empty()
    };
    let a = seq!['{'] + render_ipairs(v.take(k)) + sep;
    let b = render_ipair(v[k]) + rest + seq!['}'];
    assert(w =~= a + b);
    assert(a.len() == pos - i);
    assert(cs.subrange(i, ll) =~= cs.subrange(i, pos) + cs.subrange(pos, ll));
    lemma_split_eq(cs.subrange(i, pos), cs.subrange(pos, ll), a, b);
    let rs = render_string(v[k].0);
    let rt = render_table(v[k].1);
    assert(b =~= rs + (seq![':'] + rt + rest + seq!['}']));
    assert(cs.subrange(pos, ll) =~= cs.subrange(pos, pos + rs.len() as int) + cs.subrange(
        pos + rs.len() as int,
        ll,
    ));
    lemma_split_eq(
        cs.subrange(pos, pos + rs.len() as int),
        cs.subrange(pos + rs.len() as int, ll),
        rs,
        seq![':'] + rt + rest + seq!['}'],
    );
    assert(str_matches(cs, pos, v[k].0));
    let q = pos + rs.len() as int;
    assert(cs[q] == cs.subrange(q, ll)[0]);
    assert(cs.subrange(q, ll) =~= cs.subrange(q, q + 1) + cs.subrange(q + 1, ll));
    assert(cs.subrange(q, ll) =~= seq![':'] + (rt + rest + seq!['}']));
    lemma_split_eq(
        cs.subrange(q, q + 1),
        cs.subrange(q + 1, ll),
        seq![':'],
        rt + rest + seq!['}'],
    );
    assert(cs.subrange(q + 1, ll) =~= cs.subrange(q + 1, q + 1 + rt.len() as int) + cs.subrange(
        q + 1 + rt.len() as int,
        ll,
    ));
    assert(cs.subrange(q + 1, ll) =~= rt + (rest + seq!['}']));
    lemma_split_eq(
        cs.subrange(q + 1, q + 1 + rt.len() as int),
        cs.subrange(q + 1 + rt.len() as int, ll),
        rt,
        rest + seq!['}'],
    );
    let pe = q + 1 + rt.len() as int;
    assert(cs[pe] == cs.subrange(pe, ll)[0]);
    assert((rest + seq!['}'])[0] == if k + 1 < v.len() {
        ','
    } else {
        '}'
    });
    assert(table_matches(cs, q + 1, v[k].1));
    assert(pe == pos + render_ipair(v[k]).len());
    lemma_ipairs_decompose(v.take(k + 1), k);
    assert(v.take(k + 1).take(k) =~= v.take(k));
    assert(v.take(k + 1)[k] == v[k]);
    assert(render_ipairs(v.take(k + 1)) =~= render_ipairs(v.take(k)) + sep + render_ipair(v[k]));
}

/// Parses one table object, validating that its keys are unique and
/// its total fits the machine; a stored well-formed table standing at
/// `i` is read back exactly.
#[verifier::rlimit(100)]
fn parse_table_at(cs: &[char], i: usize) -> (r: Option<(TermTable, usize)>)
    requires
        i <= cs@.len(),
    ensures
        match r {
            Option::Some(p) => {
                &&& p.0.wf()
                &&& i < p.1 <= cs@.len()
                &&& cs@.subrange(i as int, p.1 as int) == render_table(p.0@)
                &&& forall|t: TableSpec|
                    table_wf(t) && #[trigger] table_matches(cs@, i as int, t) ==> p.0@ == t && p.1
                        == i + render_table(t).len()
            },
            Option::None => forall|t: TableSpec| table_wf(t) ==> !table_matches(cs@, i as int, t),
        },
{
    if i >= cs.len() || cs[i] != '{' {
        proof {
            assert forall|t: TableSpec| table_wf(t) implies !table_matches(cs@, i as int, t) by {
                if table_matches(cs@, i as int, t) {
                    let w = render_table(t);
                    assert(cs@[i as int] == cs@.subrange(i as int, i as int + w.len() as int)[0]);
                    assert(w[0] == '{');
                    assert(false);
                }
            }
        }
        return None;
    }
    let mut tbl = TermTable::new();
    if i + 1 < cs.len() && cs[i + 1] == '}' {
        proof {
            assert(render_tpairs(tbl@) =~= Seq::<char>::empty());
            assert(cs@.subrange(i as int, i as int + 2) =~= render_table(tbl@));
            assert forall|t: TableSpec|
                table_wf(t) && #[trigger] table_matches(cs@, i as int, t) implies tbl@ == t && i
                    + 2 == i + render_table(t).len() by {
                let w = render_table(t);
                if t.len() > 0 {
                    if t.len() == 1 {
                        assert(render_tpairs(t) == render_tpair(t[0]));
                    } else {
                        assert(render_tpairs(t) == render_tpair(t[0]) + seq![','] + render_tpairs(
                            t.drop_first(),
                        ));
                    }
                    assert(render_tpair(t[0])[0] == render_string(t[0].0)[0]);
                    assert(render_string(t[0].0)[0] == '"');
                    assert(w[1] == render_tpairs(t)[0]);
                    assert(cs@[i as int + 1] == cs@.subrange(
                        i as int,
                        i as int + w.len() as int,
                    )[1]);
                    assert(false);
                }
                assert(tbl@ =~= t);
            }
        }
        return Some((tbl, i + 2));
    }
    proof {
        assert forall|t: TableSpec|
            table_wf(t) && #[trigger] table_matches(cs@, i as int, t) implies t.len() > 0 by {
            if t.len() == 0 {
                let w = render_table(t);
                assert(render_tpairs(t) =~= Seq::<char>::empty());
                assert(w =~= seq!['{', '}']);
                assert(cs@[i as int + 1] == cs@.subrange(i as int, i as int + 2)[1]);
                assert(false);
            }
        }
    }
    let mut pos: usize = i + 1;
    loop
        invariant_except_break
            tbl@.len() == 0 ==> pos == i + 1,
            tbl@.len() > 0 ==> cs@.subrange(i as int + 1, pos as int) =~= render_tpairs(tbl@)
                + seq![','],
            forall|t: TableSpec|
                table_wf(t) && #[trigger] table_matches(cs@, i as int, t) ==> tbl@.len() < t.len()
                    && tbl@ == t.take(tbl@.len() as int),
        invariant
            tbl.wf(),
            i < cs@.len(),
            cs@[i as int] == '{',
            i + 1 <= pos <= cs@.len(),
        ensures
            tbl.wf(),
            i < pos <= cs@.len(),
            cs@.subrange(i as int, pos as int) =~= render_table(tbl@),
            forall|t: TableSpec|
                table_wf(t) && #[trigger] table_matches(cs@, i as int, t) ==> tbl@ == t && pos
                    == i + render_table(t).len(),
        decreases cs@.len() - pos,
    {
        let ghost t0 = tbl@;
        let ghost p0 = pos;
        let (key, p2) = match parse_string_at(cs, pos) {
            Some(kp) => kp,
            None => {
                proof {
                    assert forall|t: TableSpec|
                        table_wf(t) implies !table_matches(cs@, i as int, t) by {
                        if table_matches(cs@, i as int, t) {
                        let k = t0.len() as int;
                        assert(t0 == t.take(k));
                        if k == 0 {
                            assert(t.take(0) =~= Seq::<(Seq<char>, nat)>::empty());
                            assert(render_tpairs(t.take(0)) =~= Seq::<char>::empty());
                        } else {
                            assert(render_tpairs(t0) == render_tpairs(t.take(k)));
                        }
                        lemma_table_window(cs@, i as int, t, k, p0 as int);
                            assert(str_matches(cs@, p0 as int, t[k].0));
                            assert(false);
                        }
                    }
                }
                return None;
            },
        };
        if tbl.contains_key(&key) {
            proof {
                assert forall|t: TableSpec| table_wf(t) implies !table_matches(cs@, i as int, t) by {
                    if table_matches(cs@, i as int, t) {
                        let k = t0.len() as int;
                        assert(t0 == t.take(k));
                        if k == 0 {
                            assert(t.take(0) =~= Seq::<(Seq<char>, nat)>::empty());
                            assert(render_tpairs(t.take(0)) =~= Seq::<char>::empty());
                        } else {
                            assert(render_tpairs(t0) == render_tpairs(t.take(k)));
                        }
                        lemma_table_window(cs@, i as int, t, k, p0 as int);
                        assert(key@ == t[k].0);
                        assert(has_key(t0, key@));
                        let j = choose|j: int| 0 <= j < t0.len() && t0[j].0 == key@;
                        assert(t.take(k)[j] == t[j]);
                        assert(t[j].0 == t[k].0);
                        assert(false);
                    }
                }
            }
            return None;
        }
        if p2 >= cs.len() || cs[p2] != ':' {
            proof {
                assert forall|t: TableSpec| table_wf(t) implies !table_matches(cs@, i as int, t) by {
                    if table_matches(cs@, i as int, t) {
                        let k = t0.len() as int;
                        assert(t0 == t.take(k));
                        if k == 0 {
                            assert(t.take(0) =~= Seq::<(Seq<char>, nat)>::empty());
                            assert(render_tpairs(t.take(0)) =~= Seq::<char>::empty());
                        } else {
                            assert(render_tpairs(t0) == render_tpairs(t.take(k)));
                        }
                        lemma_table_window(cs@, i as int, t, k, p0 as int);
                        assert(key@ == t[k].0);
                        assert(p2 == p0 + render_string(t[k].0).len());
                        assert(cs@[p2 as int] == ':');
                        assert(p2 < cs@.len());
                        assert(false);
                    }
                }
            }
            return None;
        }
        let (count, p3) = match parse_nat_at(cs, p2 + 1) {
            Some(np) => np,
            None => {
                proof {
                    assert forall|t: TableSpec|
                        table_wf(t) implies !table_matches(cs@, i as int, t) by {
                        if table_matches(cs@, i as int, t) {
                        let k = t0.len() as int;
                        assert(t0 == t.take(k));
                        if k == 0 {
                            assert(t.take(0) =~= Seq::<(Seq<char>, nat)>::empty());
                            assert(render_tpairs(t.take(0)) =~= Seq::<char>::empty());
                        } else {
                            assert(render_tpairs(t0) == render_tpairs(t.take(k)));
                        }
                        lemma_table_window(cs@, i as int, t, k, p0 as int);
                            assert(key@ == t[k].0);
                            assert(p2 == p0 + render_string(t[k].0).len());
                            assert(nat_matches(cs@, p2 as int + 1, t[k].1));
                            crate::table::lemma_entry_le_total(t, k);
                            assert(t[k].1 <= usize::MAX);
                            assert(false);
                        }
                    }
                }
                return None;
            },
        };
        let total = tbl.total();
        if count > usize::MAX - total {
            proof {
                assert forall|t: TableSpec| table_wf(t) implies !table_matches(cs@, i as int, t) by {
                    if table_matches(cs@, i as int, t) {
                        let k = t0.len() as int;
                        assert(t0 == t.take(k));
                        if k == 0 {
                            assert(t.take(0) =~= Seq::<(Seq<char>, nat)>::empty());
                            assert(render_tpairs(t.take(0)) =~= Seq::<char>::empty());
                        } else {
                            assert(render_tpairs(t0) == render_tpairs(t.take(k)));
                        }
                        lemma_table_window(cs@, i as int, t, k, p0 as int);
                        assert(key@ == t[k].0);
                        assert(p2 == p0 + render_string(t[k].0).len());
                        assert(nat_matches(cs@, p2 as int + 1, t[k].1));
                        crate::table::lemma_entry_le_total(t, k);
                        assert(t[k].1 <= usize::MAX);
                        assert(count == t[k].1);
                        crate::table::lemma_total_take(t, k + 1);
                        crate::table::lemma_total_prefix_le(t, k + 1);
                        assert(table_total(t0) + count <= table_total(t));
                        assert(false);
                    }
                }
            }
            return None;
        }
        tbl.push_entry(key, count);
        proof {
            let e = tbl@.last();
            assert(tbl@ =~= t0.push(e));
            assert(render_tpair(e) =~= cs@.subrange(p0 as int, p3 as int));
            if t0.len() == 0 {
                assert(tbl@ =~= seq![e]);
                assert(render_tpairs(tbl@) == render_tpair(e));
                assert(cs@.subrange(i as int + 1, p3 as int) =~= render_tpairs(tbl@));
            } else {
                lemma_tpairs_push(t0, e);
                assert(cs@.subrange(i as int + 1, p3 as int) =~= render_tpairs(tbl@));
            }
        }
        if p3 < cs.len() && cs[p3] == '}' {
            proof {
                assert(cs@.subrange(i as int, p3 as int + 1) =~= render_table(tbl@));
                assert forall|t: TableSpec|
                    table_wf(t) && #[trigger] table_matches(cs@, i as int, t) implies tbl@ == t
                        && p3 + 1 == i + render_table(t).len() by {
                        let k = t0.len() as int;
                        assert(t0 == t.take(k));
                        if k == 0 {
                            assert(t.take(0) =~= Seq::<(Seq<char>, nat)>::empty());
                            assert(render_tpairs(t.take(0)) =~= Seq::<char>::empty());
                        } else {
                            assert(render_tpairs(t0) == render_tpairs(t.take(k)));
                        }
                        lemma_table_window(cs@, i as int, t, k, p0 as int);
                    assert(key@ == t[k].0);
                    assert(p2 == p0 + render_string(t[k].0).len());
                    assert(nat_matches(cs@, p2 as int + 1, t[k].1));
                    crate::table::lemma_entry_le_total(t, k);
                    assert(count == t[k].1);
                    assert(p3 == p2 + 1 + render_nat(t[k].1).len());
                    assert(p3 == p0 + render_tpair(t[k]).len());
                    if k + 1 < t.len() {
                        assert(cs@[p3 as int] == ',');
                        assert(false);
                    }
                    assert(tbl@ =~= t.take(k + 1));
                    assert(t.take(k + 1) =~= t);
                    assert(p3 + 1 == i + render_table(t).len());
                }
            }
            pos = p3 + 1;
            break ;
        }
        if p3 < cs.len() && cs[p3] == ',' {
            proof {
                assert(cs@.subrange(i as int + 1, p3 as int + 1) =~= render_tpairs(tbl@) + seq![
                    ',',
                ]);
                assert forall|t: TableSpec|
                    table_wf(t) && #[trigger] table_matches(cs@, i as int, t) implies tbl@.len()
                        < t.len() && tbl@ == t.take(tbl@.len() as int) by {
                        let k = t0.len() as int;
                        assert(t0 == t.take(k));
                        if k == 0 {
                            assert(t.take(0) =~= Seq::<(Seq<char>, nat)>::empty());
                            assert(render_tpairs(t.take(0)) =~= Seq::<char>::empty());
                        } else {
                            assert(render_tpairs(t0) == render_tpairs(t.take(k)));
                        }
                        lemma_table_window(cs@, i as int, t, k, p0 as int);
                    assert(key@ == t[k].0);
                    assert(p2 == p0 + render_string(t[k].0).len());
                    assert(nat_matches(cs@, p2 as int + 1, t[k].1));
                    crate::table::lemma_entry_le_total(t, k);
                    assert(count == t[k].1);
                    assert(p3 == p0 + render_tpair(t[k]).len());
                    assert(tbl@ =~= t.take(k + 1));
                    if k + 1 == t.len() {
                        assert(cs@[p3 as int] == '}');
                        assert(false);
                    }
                }
            }
            pos = p3 + 1;
        } else {
            proof {
                assert forall|t: TableSpec| table_wf(t) implies !table_matches(cs@, i as int, t) by {
                    if table_matches(cs@, i as int, t) {
                        let k = t0.len() as int;
                        assert(t0 == t.take(k));
                        if k == 0 {
                            assert(t.take(0) =~= Seq::<(Seq<char>, nat)>::empty());
                            assert(render_tpairs(t.take(0)) =~= Seq::<char>::empty());
                        } else {
                            assert(render_tpairs(t0) == render_tpairs(t.take(k)));
                        }
                        lemma_table_window(cs@, i as int, t, k, p0 as int);
                        assert(key@ == t[k].0);
                        assert(p2 == p0 + render_string(t[k].0).len());
                        assert(nat_matches(cs@, p2 as int + 1, t[k].1));
                        crate::table::lemma_entry_le_total(t, k);
                        assert(count == t[k].1);
                        assert(p3 == p0 + render_tpair(t[k]).len());
                        assert(p3 < cs@.len());
                        if k + 1 < t.len() {
                            assert(cs@[p3 as int] == ',');
                        } else {
                            assert(cs@[p3 as int] == '}');
                        }
                        assert(false);
                    }
                }
            }
            return None;
        }
    }
    Some((tbl, pos))
}

/// Parses a whole stored index, validating its shape: unique document
/// identifiers, unique terms per table, counts within the machine; a
/// stored well-formed index standing at `i` is read back exactly.
#[verifier::rlimit(100)]
fn parse_index_at(cs: &[char], i: usize) -> (r: Option<(CorpusIndex, usize)>)
    requires
        i <= cs@.len(),
    ensures
        match r {
            Option::Some(p) => {
                &&& p.0.wf()
                &&& i < p.1 <= cs@.len()
                &&& cs@.subrange(i as int, p.1 as int) == render_index(p.0@)
                &&& forall|v: IndexSpec|
                    index_wf_spec(v) && #[trigger] index_matches(cs@, i as int, v) ==> p.0@ == v
                        && p.1 == i + render_index(v).len()
            },
            Option::None => forall|v: IndexSpec|
                index_wf_spec(v) ==> !index_matches(cs@, i as int, v),
        },
{
    if i >= cs.len() || cs[i] != '{' {
        proof {
            assert forall|v: IndexSpec|
                index_wf_spec(v) implies !index_matches(cs@, i as int, v) by {
                if index_matches(cs@, i as int, v) {
                    let w = render_index(v);
                    assert(cs@[i as int] == cs@.subrange(i as int, i as int + w.len() as int)[0]);
                    assert(w[0] == '{');
                    assert(false);
                }
            }
        }
        return None;
    }
    let mut ix = CorpusIndex::new();
    if i + 1 < cs.len() && cs[i + 1] == '}' {
        proof {
            assert(render_ipairs(ix@) =~= Seq::<char>::empty());
            assert(cs@.subrange(i as int, i as int + 2) =~= render_index(ix@));
            assert forall|v: IndexSpec|
                index_wf_spec(v) && #[trigger] index_matches(cs@, i as int, v) implies ix@ == v
                    && i + 2 == i + render_index(v).len() by {
                let w = render_index(v);
                if v.len() > 0 {
                    if v.len() == 1 {
                        assert(render_ipairs(v) == render_ipair(v[0]));
                    } else {
                        assert(render_ipairs(v) == render_ipair(v[0]) + seq![','] + render_ipairs(
                            v.drop_first(),
                        ));
                    }
                    assert(render_ipair(v[0])[0] == render_string(v[0].0)[0]);
                    assert(render_string(v[0].0)[0] == '"');
                    assert(w[1] == render_ipairs(v)[0]);
                    assert(cs@[i as int + 1] == cs@.subrange(
                        i as int,
                        i as int + w.len() as int,
                    )[1]);
                    assert(false);
                }
                assert(ix@ =~= v);
            }
        }
        return Some((ix, i + 2));
    }
    proof {
        assert forall|v: IndexSpec|
            index_wf_spec(v) && #[trigger] index_matches(cs@, i as int, v) implies v.len() > 0 by {
            if v.len() == 0 {
                let w = render_index(v);
                assert(render_ipairs(v) =~= Seq::<char>::empty());
                assert(w =~= seq!['{', '}']);
                assert(cs@[i as int + 1] == cs@.subrange(i as int, i as int + 2)[1]);
                assert(false);
            }
        }
    }
    let mut pos: usize = i + 1;
    loop
        invariant_except_break
            ix@.len() == 0 ==> pos == i + 1,
            ix@.len() > 0 ==> cs@.subrange(i as int + 1, pos as int) =~= render_ipairs(ix@)
                + seq![','],
            forall|v: IndexSpec|
                index_wf_spec(v) && #[trigger] index_matches(cs@, i as int, v) ==> ix@.len()
                    < v.len() && ix@ == v.take(ix@.len() as int),
        invariant
            ix.wf(),
            i < cs@.len(),
            cs@[i as int] == '{',
            i + 1 <= pos <= cs@.len(),
        ensures
            ix.wf(),
            i < pos <= cs@.len(),
            cs@.subrange(i as int, pos as int) =~= render_index(ix@),
            forall|v: IndexSpec|
                index_wf_spec(v) && #[trigger] index_matches(cs@, i as int, v) ==> ix@ == v && pos
                    == i + render_index(v).len(),
        decreases cs@.len() - pos,
    {
        let ghost s0 = ix@;
        let ghost p0 = pos;
        let (id, p2) = match parse_string_at(cs, pos) {
            Some(kp) => kp,
            None => {
                proof {
                    assert forall|v: IndexSpec|
                        index_wf_spec(v) implies !index_matches(cs@, i as int, v) by {
                        if index_matches(cs@, i as int, v) {
                        let k = s0.len() as int;
                        assert(s0 == v.take(k));
                        if k == 0 {
                            assert(v.take(0) =~= Seq::<(Seq<char>, TableSpec)>::empty());
                            assert(render_ipairs(v.take(0)) =~= Seq::<char>::empty());
                        } else {
                            assert(render_ipairs(s0) == render_ipairs(v.take(k)));
                        }
                        lemma_index_window(cs@, i as int, v, k, p0 as int);
                            assert(str_matches(cs@, p0 as int, v[k].0));
                            assert(false);
                        }
                    }
                }
                return None;
            },
        };
        if ix.contains_doc(&id) {
            proof {
                assert forall|v: IndexSpec|
                    index_wf_spec(v) implies !index_matches(cs@, i as int, v) by {
                    if index_matches(cs@, i as int, v) {
                        let k = s0.len() as int;
                        assert(s0 == v.take(k));
                        if k == 0 {
                            assert(v.take(0) =~= Seq::<(Seq<char>, TableSpec)>::empty());
                            assert(render_ipairs(v.take(0)) =~= Seq::<char>::empty());
                        } else {
                            assert(render_ipairs(s0) == render_ipairs(v.take(k)));
                        }
                        lemma_index_window(cs@, i as int, v, k, p0 as int);
                        assert(id@ == v[k].0);
                        assert(has_doc(s0, id@));
                        let j = choose|j: int| 0 <= j < s0.len() && s0[j].0 == id@;
                        assert(v.take(k)[j] == v[j]);
                        assert(v[j].0 == v[k].0);
                        assert(false);
                    }
                }
            }
            return None;
        }
        if p2 >= cs.len() || cs[p2] != ':' {
            proof {
                assert forall|v: IndexSpec|
                    index_wf_spec(v) implies !index_matches(cs@, i as int, v) by {
                    if index_matches(cs@, i as int, v) {
                        let k = s0.len() as int;
                        assert(s0 == v.take(k));
                        if k == 0 {
                            assert(v.take(0) =~= Seq::<(Seq<char>, TableSpec)>::empty());
                            assert(render_ipairs(v.take(0)) =~= Seq::<char>::empty());
                        } else {
                            assert(render_ipairs(s0) == render_ipairs(v.take(k)));
                        }
                        lemma_index_window(cs@, i as int, v, k, p0 as int);
                        assert(id@ == v[k].0);
                        assert(p2 == p0 + render_string(v[k].0).len());
                        assert(cs@[p2 as int] == ':');
                        assert(p2 < cs@.len());
                        assert(false);
                    }
                }
            }
            return None;
        }
        let (tbl, p3) = match parse_table_at(cs, p2 + 1) {
            Some(tp) => tp,
            None => {
                proof {
                    assert forall|v: IndexSpec|
                        index_wf_spec(v) implies !index_matches(cs@, i as int, v) by {
                        if index_matches(cs@, i as int, v) {
                        let k = s0.len() as int;
                        assert(s0 == v.take(k));
                        if k == 0 {
                            assert(v.take(0) =~= Seq::<(Seq<char>, TableSpec)>::empty());
                            assert(render_ipairs(v.take(0)) =~= Seq::<char>::empty());
                        } else {
                            assert(render_ipairs(s0) == render_ipairs(v.take(k)));
                        }
                        lemma_index_window(cs@, i as int, v, k, p0 as int);
                            assert(id@ == v[k].0);
                            assert(p2 == p0 + render_string(v[k].0).len());
                            assert(table_matches(cs@, p2 as int + 1, v[k].1));
                            assert(table_wf(v[k].1));
                            assert(false);
                        }
                    }
                }
                return None;
            },
        };
        ix.insert_table(id, tbl);
        proof {
            let d = ix@.last();
            assert(ix@ =~= s0.push(d));
            assert(render_ipair(d) =~= cs@.subrange(p0 as int, p3 as int));
            if s0.len() == 0 {
                assert(ix@ =~= seq![d]);
                assert(render_ipairs(ix@) == render_ipair(d));
                assert(cs@.subrange(i as int + 1, p3 as int) =~= render_ipairs(ix@));
            } else {
                lemma_ipairs_push(s0, d);
                assert(cs@.subrange(i as int + 1, p3 as int) =~= render_ipairs(ix@));
            }
        }
        if p3 < cs.len() && cs[p3] == '}' {
            proof {
                assert(cs@.subrange(i as int, p3 as int + 1) =~= render_index(ix@));
                assert forall|v: IndexSpec|
                    index_wf_spec(v) && #[trigger] index_matches(cs@, i as int, v) implies ix@
                        == v && p3 + 1 == i + render_index(v).len() by {
                        let k = s0.len() as int;
                        assert(s0 == v.take(k));
                        if k == 0 {
                            assert(v.take(0) =~= Seq::<(Seq<char>, TableSpec)>::empty());
                            assert(render_ipairs(v.take(0)) =~= Seq::<char>::empty());
                        } else {
                            assert(render_ipairs(s0) == render_ipairs(v.take(k)));
                        }
                        lemma_index_window(cs@, i as int, v, k, p0 as int);
                    assert(id@ == v[k].0);
                    assert(p2 == p0 + render_string(v[k].0).len());
                    assert(table_matches(cs@, p2 as int + 1, v[k].1));
                    assert(table_wf(v[k].1));
                    assert(tbl@ == v[k].1);
                    assert(p3 == p2 + 1 + render_table(v[k].1).len());
                    assert(p3 == p0 + render_ipair(v[k]).len());
                    if k + 1 < v.len() {
                        assert(cs@[p3 as int] == ',');
                        assert(false);
                    }
                    assert(ix@ =~= v.take(k + 1));
                    assert(v.take(k + 1) =~= v);
                    assert(p3 + 1 == i + render_index(v).len());
                }
            }
            pos = p3 + 1;
            break ;
        }
        if p3 < cs.len() && cs[p3] == ',' {
            proof {
                assert(cs@.subrange(i as int + 1, p3 as int + 1) =~= render_ipairs(ix@) + seq![
                    ',',
                ]);
                assert forall|v: IndexSpec|
                    index_wf_spec(v) && #[trigger] index_matches(cs@, i as int, v) implies ix@.len()
                        < v.len() && ix@ == v.take(ix@.len() as int) by {
                        let k = s0.len() as int;
                        assert(s0 == v.take(k));
                        if k == 0 {
                            assert(v.take(0) =~= Seq::<(Seq<char>, TableSpec)>::empty());
                            assert(render_ipairs(v.take(0)) =~= Seq::<char>::empty());
                        } else {
                            assert(render_ipairs(s0) == render_ipairs(v.take(k)));
                        }
                        lemma_index_window(cs@, i as int, v, k, p0 as int);
                    assert(id@ == v[k].0);
                    assert(p2 == p0 + render_string(v[k].0).len());
                    assert(table_matches(cs@, p2 as int + 1, v[k].1));
                    assert(table_wf(v[k].1));
                    assert(tbl@ == v[k].1);
                    assert(p3 == p0 + render_ipair(v[k]).len());
                    assert(ix@ =~= v.take(k + 1));
                    if k + 1 == v.len() {
                        assert(cs@[p3 as int] == '}');
                        assert(false);
                    }
                }
            }
            pos = p3 + 1;
        } else {
            proof {
                assert forall|v: IndexSpec|
                    index_wf_spec(v) implies !index_matches(cs@, i as int, v) by {
                    if index_matches(cs@, i as int, v) {
                        let k = s0.len() as int;
                        assert(s0 == v.take(k));
                        if k == 0 {
                            assert(v.take(0) =~= Seq::<(Seq<char>, TableSpec)>::empty());
                            assert(render_ipairs(v.take(0)) =~= Seq::<char>::empty());
                        } else {
                            assert(render_ipairs(s0) == render_ipairs(v.take(k)));
                        }
                        lemma_index_window(cs@, i as int, v, k, p0 as int);
                        assert(id@ == v[k].0);
                        assert(p2 == p0 + render_string(v[k].0).len());
                        assert(table_matches(cs@, p2 as int + 1, v[k].1));
                        assert(table_wf(v[k].1));
                        assert(p3 == p0 + render_ipair(v[k]).len());
                        assert(p3 < cs@.len());
                        if k + 1 < v.len() {
                            assert(cs@[p3 as int] == ',');
                        } else {
                            assert(cs@[p3 as int] == '}');
                        }
                        assert(false);
                    }
                }
            }
            return None;
        }
    }
    Some((ix, pos))
}

/// Loads a corpus index from its stored text.  Whatever loads is well
/// formed and rendering it again reproduces the input text exactly;
/// the stored text of every well-formed index loads back to that very
/// index; and text that is no rendered index -- the stored form is
/// canonical, so that includes text with insignificant whitespace --
/// is refused.
pub fn parse_index_str(s: &str) -> (r: Option<CorpusIndex>)
    ensures
        match r {
            Option::Some(ix) => ix.wf() && s@ == render_index(ix@),
            Option::None => true,
        },
        forall|v: IndexSpec|
            index_wf_spec(v) && s@ == render_index(v) ==> r is Some && r.unwrap()@ == v,
        r is None ==> forall|v: IndexSpec| index_wf_spec(v) ==> s@ != render_index(v),
{
    let cs = chars_of(s);
    proof {
        assert forall|v: IndexSpec|
            index_wf_spec(v) && s@ == render_index(v) implies index_matches(cs@, 0, v) by {
            assert(cs@.subrange(0, render_index(v).len() as int) =~= cs@);
        }
    }
    match parse_index_at(cs.as_slice(), 0) {
        Some((ix, j)) => {
            if j == cs.len() {
                proof {
                    assert(cs@.subrange(0, cs@.len() as int) =~= cs@);
                }
                Some(ix)
            } else {
                proof {
                    assert forall|v: IndexSpec|
                        index_wf_spec(v) implies s@ != render_index(v) by {
                        if s@ == render_index(v) {
                            assert(index_matches(cs@, 0, v));
                            assert(j == render_index(v).len());
                            assert(false);
                        }
                    }
                }
                None
            }
        },
        None => {
            proof {
                assert forall|v: IndexSpec| index_wf_spec(v) implies s@ != render_index(v) by {
                    if s@ == render_index(v) {
                        assert(index_matches(cs@, 0, v));
                        assert(false);
                    }
                }
            }
            None
        },
    }
}

} // verus!
