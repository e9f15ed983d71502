//! The tokenizer: splits a character sequence into terms.
//!
//! A term is a maximal run of numeric characters, a maximal run of
//! alphanumeric characters starting with an alphabetic one, or a single
//! character that is neither alphanumeric nor whitespace.  Whitespace
//! separates terms and is never part of one.
use vstd::prelude::*;
use vstd::slice::slice_subrange;
use crate::chars::char_alphabetic;
use crate::chars::char_alphanumeric;
use crate::chars::char_numeric;
use crate::chars::char_whitespace;
use crate::chars::string_from_chars;

verus! {

/// The view of a sequence of strings: each string as its characters.
pub open spec fn views_of(s: Seq<String>) -> Seq<Seq<char>> {
    s.map_values(|x: String| x@)
}

/// The two classes of characters a multi-character term may hold.
#[derive(Clone, Copy)]
pub enum TokenClass {
    Numeric,
    Alphanumeric,
}

/// Whether `c` belongs to the class `k`.
fn class_test(k: TokenClass, c: char) -> (r: bool)
    ensures
        r == class_pred(k)(c),
{
    match k {
        TokenClass::Numeric => c.is_numeric(),
        TokenClass::Alphanumeric => c.is_alphanumeric(),
    }
}

/// The character predicate a token class stands for.
pub open spec fn class_pred(k: TokenClass) -> spec_fn(char) -> bool {
    match k {
        TokenClass::Numeric => numeric_pred(),
        TokenClass::Alphanumeric => alphanumeric_pred(),
    }
}

/// The predicate of numeric characters, as a value.
pub open spec fn numeric_pred() -> spec_fn(char) -> bool {
    |c: char| char_numeric(c)
}

/// The predicate of whitespace characters, as a value.
pub open spec fn whitespace_pred() -> spec_fn(char) -> bool {
    |c: char| char_whitespace(c)
}

/// The predicate of alphanumeric characters, as a value.
pub open spec fn alphanumeric_pred() -> spec_fn(char) -> bool {
    |c: char| char_alphanumeric(c)
}

/// Length of the maximal prefix of `s` whose characters satisfy `p`.
pub open spec fn run_len(s: Seq<char>, p: spec_fn(char) -> bool) -> nat
    decreases s.len(),
{
    if s.len() == 0 || !p(s[0]) {
        0
    } else {
        1 + run_len(s.drop_first(), p)
    }
}

pub proof fn lemma_run_len(s: Seq<char>, p: spec_fn(char) -> bool)
    ensures
        run_len(s, p) <= s.len(),
        forall|i: int| 0 <= i < run_len(s, p) ==> p(s[i]),
        run_len(s, p) < s.len() ==> !p(s[run_len(s, p) as int]),
    decreases s.len(),
{
    if s.len() == 0 || !p(s[0]) {
    } else {
        lemma_run_len(s.drop_first(), p);
        assert forall|i: int| 0 <= i < run_len(s, p) implies p(s[i]) by {
            if i > 0 {
                assert(s.drop_first()[i - 1] == s[i]);
                assert(0 <= i - 1 < run_len(s.drop_first(), p));
            }
        }
        if run_len(s, p) < s.len() {
            assert(s.drop_first()[run_len(s.drop_first(), p) as int] == s[run_len(s, p) as int]);
        }
    }
}

/// A prefix of `n` characters satisfying `p`, ended by the end of `s` or
/// by a character refusing `p`, is exactly the maximal run.
pub proof fn lemma_run_len_exact(s: Seq<char>, p: spec_fn(char) -> bool, n: int)
    requires
        0 <= n <= s.len(),
        forall|i: int| 0 <= i < n ==> p(s[i]),
        n == s.len() || !p(s[n]),
    ensures
        run_len(s, p) == n,
    decreases s.len(),
{
    if n == 0 {
    } else {
        assert(p(s[0]));
        assert forall|i: int| 0 <= i < n - 1 implies p(s.drop_first()[i]) by {
            assert(s.drop_first()[i] == s[i + 1]);
        }
        if n < s.len() {
            assert(s.drop_first()[n - 1] == s[n]);
        }
        lemma_run_len_exact(s.drop_first(), p, n - 1);
    }
}

/// The length of the first term of `s`, for nonempty `s` whose head is
/// not whitespace: a numeric run, an alphanumeric run, or one character.
pub open spec fn first_token_len(s: Seq<char>) -> nat {
    if char_numeric(s[0]) {
        run_len(s, numeric_pred())
    } else if char_alphabetic(s[0]) {
        run_len(s, alphanumeric_pred())
    } else {
        1
    }
}

pub proof fn lemma_first_token_len(s: Seq<char>)
    requires
        s.len() > 0,
        !char_whitespace(s[0]),
    ensures
        1 <= first_token_len(s) <= s.len(),
{
    lemma_run_len(s, numeric_pred());
    lemma_run_len(s, alphanumeric_pred());
    if char_numeric(s[0]) {
        assert(run_len(s, numeric_pred()) >= 1);
    } else if char_alphabetic(s[0]) {
        assert(alphanumeric_pred()(s[0]));
        assert(run_len(s, alphanumeric_pred()) >= 1);
    }
}

/// The sequence of terms of `s`: whitespace is skipped, and each term is
/// taken greedily by `first_token_len`.
pub open spec fn tokens(s: Seq<char>) -> Seq<Seq<char>>
    decreases s.len(),
    via tokens_decreases
{
    if s.len() == 0 {
        Seq::empty()
    } else if char_whitespace(s[0]) {
        tokens(s.drop_first())
    } else {
        seq![s.take(first_token_len(s) as int)] + tokens(s.skip(first_token_len(s) as int))
    }
}

#[via_fn]
proof fn tokens_decreases(s: Seq<char>) {
    if s.len() > 0 && !char_whitespace(s[0]) {
        lemma_first_token_len(s);
    }
}

/// The number of terms of `s`.
pub open spec fn token_count(s: Seq<char>) -> nat {
    tokens(s).len()
}

/// What remains of `s` after its first term: the leading whitespace
/// run and the term itself are gone, nothing more.
pub open spec fn after_first_token(s: Seq<char>) -> Seq<char> {
    let rest = s.skip(run_len(s, whitespace_pred()) as int);
    rest.skip(first_token_len(rest) as int)
}

/// Every term the tokenizer produces is nonempty.
pub proof fn lemma_tokens_nonempty(s: Seq<char>)
    ensures
        forall|i: int| 0 <= i < tokens(s).len() ==> tokens(s)[i].len() > 0,
    decreases s.len(),
{
    if s.len() == 0 {
    } else if char_whitespace(s[0]) {
        lemma_tokens_nonempty(s.drop_first());
    } else {
        lemma_first_token_len(s);
        lemma_tokens_nonempty(s.skip(first_token_len(s) as int));
        assert forall|i: int| 0 <= i < tokens(s).len() implies tokens(s)[i].len() > 0 by {
            if i > 0 {
                assert(tokens(s)[i] == tokens(s.skip(first_token_len(s) as int))[i - 1]);
            }
        }
    }
}

/// The predicate of non-whitespace characters, as a value.
pub open spec fn non_ws_pred() -> spec_fn(char) -> bool {
    |c: char| !char_whitespace(c)
}

/// The text without its whitespace characters.
pub open spec fn sans_whitespace(s: Seq<char>) -> Seq<char> {
    s.filter(non_ws_pred())
}

proof fn lemma_filter_singleton(x: char, p: spec_fn(char) -> bool)
    ensures
        seq![x].filter(p) == if p(x) {
            seq![x]
        } else {
            Seq::<char>::empty()
        },
{
    reveal(Seq::filter);
    assert(seq![x].drop_last() =~= Seq::<char>::empty());
    assert(seq![x].last() == x);
    assert(Seq::<char>::empty().filter(p) =~= Seq::<char>::empty());
    assert(seq![x].drop_last().filter(p) == Seq::<char>::empty());
    if p(x) {
        assert(Seq::<char>::empty().push(x) =~= seq![x]);
    }
}

proof fn lemma_filter_all_kept(s: Seq<char>, p: spec_fn(char) -> bool)
    requires
        forall|i: int| 0 <= i < s.len() ==> p(s[i]),
    ensures
        s.filter(p) == s,
    decreases s.len(),
{
    reveal(Seq::filter);
    if s.len() > 0 {
        assert forall|i: int| 0 <= i < s.drop_last().len() implies p(s.drop_last()[i]) by {
            assert(s.drop_last()[i] == s[i]);
        }
        lemma_filter_all_kept(s.drop_last(), p);
        assert(p(s.last()));
        assert(s.drop_last().push(s.last()) =~= s);
    }
}

/// The terms of a text concatenate to the text with its whitespace
/// removed: every other character stays, verbatim and in order, in
/// exactly one term.
pub proof fn lemma_tokens_concat(s: Seq<char>)
    ensures
        tokens(s).flatten() == sans_whitespace(s),
    decreases s.len(),
{
    let p = non_ws_pred();
    if s.len() == 0 {
        reveal(Seq::filter);
        assert(tokens(s).flatten() =~= Seq::<char>::empty());
        assert(sans_whitespace(s) =~= Seq::<char>::empty());
    } else if char_whitespace(s[0]) {
        lemma_tokens_concat(s.drop_first());
        assert(s =~= seq![s[0]] + s.drop_first());
        Seq::filter_distributes_over_add(seq![s[0]], s.drop_first(), p);
        lemma_filter_singleton(s[0], p);
        assert(!p(s[0]));
        assert(sans_whitespace(s) =~= sans_whitespace(s.drop_first()));
    } else {
        lemma_first_token_len(s);
        let n = first_token_len(s) as int;
        let tok = s.take(n);
        let rest = s.skip(n);
        lemma_tokens_concat(rest);
        assert(tokens(s) == seq![tok] + tokens(rest));
        assert((seq![tok] + tokens(rest)).first() == tok);
        assert((seq![tok] + tokens(rest)).drop_first() =~= tokens(rest));
        assert(tokens(s).flatten() == tok + tokens(rest).flatten());
        assert forall|i: int| 0 <= i < tok.len() implies p(tok[i]) by {
            assert(tok[i] == s[i]);
            if char_numeric(s[0]) {
                lemma_run_len(s, numeric_pred());
                assert(char_numeric(s[i]));
            } else if char_alphabetic(s[0]) {
                lemma_run_len(s, alphanumeric_pred());
                assert(char_alphanumeric(s[i]));
            } else {
                assert(i == 0);
            }
        }
        assert(s =~= tok + rest);
        Seq::filter_distributes_over_add(tok, rest, p);
        lemma_filter_all_kept(tok, p);
        assert(sans_whitespace(s) =~= tok + sans_whitespace(rest));
        assert(tokens(s).flatten() =~= sans_whitespace(s));
    }
}

/// Tokenizing is deterministic: any two term sequences that meet the
/// tokenizer's contract for one text are the same sequence.
pub proof fn lemma_tokenizer_deterministic(s: Seq<char>, r1: Seq<Seq<char>>, r2: Seq<Seq<char>>)
    requires
        r1 == tokens(s),
        r2 == tokens(s),
    ensures
        r1 == r2,
{
}

/// The empty text has no terms.
pub proof fn lemma_tokens_empty()
    ensures
        tokens(Seq::<char>::empty()).len() == 0,
{
}

/// A cursor over a text, handing out its terms in order.
pub struct Lexer<'a> {
    content: &'a [char],
}

impl<'a> Lexer<'a> {
    /// The characters not yet consumed.
    pub closed spec fn view(&self) -> Seq<char> {
        self.content@
    }

    pub fn new(content: &'a [char]) -> (r: Self)
        ensures
            r@ == content@,
    {
        Lexer { content }
    }

    /// Drops exactly the maximal leading whitespace run; the terms of
    /// the text are unchanged.
    pub fn trim_left(&mut self)
        ensures
            final(self)@ == old(self)@.skip(run_len(old(self)@, whitespace_pred()) as int),
            tokens(final(self)@) == tokens(old(self)@),
            final(self)@.len() > 0 ==> !char_whitespace(final(self)@[0]),
            final(self)@.len() <= old(self)@.len(),
    {
        let ghost mut k: int = 0;
        while self.content.len() > 0 && self.content[0].is_whitespace()
            invariant
                0 <= k <= old(self)@.len(),
                self@ == old(self)@.skip(k),
                forall|i: int| 0 <= i < k ==> whitespace_pred()(old(self)@[i]),
                tokens(self@) == tokens(old(self)@),
            decreases self@.len(),
        {
            let rest = slice_subrange(self.content, 1, self.content.len());
            proof {
                assert(rest@ =~= self.content@.drop_first());
                assert(old(self)@[k] == self@[0]);
                k = k + 1;
                assert(rest@ =~= old(self)@.skip(k));
            }
            self.content = rest;
        }
        proof {
            if k < old(self)@.len() {
                assert(old(self)@[k] == self@[0]);
            }
            lemma_run_len_exact(old(self)@, whitespace_pred(), k);
        }
    }

    /// Takes the first `n` characters out of the cursor.
    pub fn chop(&mut self, n: usize) -> (r: &'a [char])
        requires
            n <= old(self)@.len(),
        ensures
            r@ == old(self)@.take(n as int),
            final(self)@ == old(self)@.skip(n as int),
    {
        let token = slice_subrange(self.content, 0, n);
        self.content = slice_subrange(self.content, n, self.content.len());
        token
    }

    /// Takes the maximal prefix of characters of the given class.
    pub fn chop_while(&mut self, class: TokenClass) -> (r: &'a [char])
        ensures
            r@ == old(self)@.take(run_len(old(self)@, class_pred(class)) as int),
            final(self)@ == old(self)@.skip(run_len(old(self)@, class_pred(class)) as int),
    {
        let ghost s0 = self@;
        let ghost p = class_pred(class);
        let mut n: usize = 0;
        while n < self.content.len() && class_test(class, self.content[n])
            invariant
                self@ == s0,
                p == class_pred(class),
                n <= s0.len(),
                forall|i: int| 0 <= i < n ==> p(s0[i]),
            decreases s0.len() - n,
        {
            n += 1;
        }
        proof {
            lemma_run_len_exact(s0, p, n as int);
        }
        self.chop(n)
    }

    /// Hands out the next term as a character slice, or nothing when the
    /// remaining text holds no term.  The cursor advances exactly past
    /// the leading whitespace run and the term handed out.
    pub fn next_token(&mut self) -> (r: Option<&'a [char]>)
        ensures
            match r {
                Option::None => {
                    &&& tokens(old(self)@).len() == 0
                    &&& final(self)@.len() == 0
                    &&& final(self)@ == old(self)@.skip(
                        run_len(old(self)@, whitespace_pred()) as int,
                    )
                },
                Option::Some(t) => {
                    &&& tokens(old(self)@).len() > 0
                    &&& t@ == tokens(old(self)@)[0]
                    &&& tokens(final(self)@) == tokens(old(self)@).drop_first()
                    &&& final(self)@ == after_first_token(old(self)@)
                    &&& final(self)@.len() < old(self)@.len()
                },
            },
    {
        self.trim_left();
        let ghost cur = self@;
        assert(cur == old(self)@.skip(run_len(old(self)@, whitespace_pred()) as int));

        if self.content.len() == 0 {
            return None;
        }
        assert(tokens(cur) =~= seq![cur.take(first_token_len(cur) as int)] + tokens(
            cur.skip(first_token_len(cur) as int),
        ));

        let c0 = *vstd::slice::slice_index_get(self.content, 0);
        if c0.is_numeric() {
            let token = self.chop_while(TokenClass::Numeric);
            proof {
                lemma_first_token_len(cur);
                assert(tokens(self@) =~= tokens(cur).drop_first());
                assert(first_token_len(cur) == run_len(cur, numeric_pred()));
                assert(self@ == after_first_token(old(self)@));
            }
            return Some(token);
        }

        if c0.is_alphabetic() {
            let token = self.chop_while(TokenClass::Alphanumeric);
            proof {
                lemma_first_token_len(cur);
                assert(tokens(self@) =~= tokens(cur).drop_first());
                assert(first_token_len(cur) == run_len(cur, alphanumeric_pred()));
                assert(self@ == after_first_token(old(self)@));
            }
            return Some(token);
        }

        let token = self.chop(1);
        proof {
            lemma_first_token_len(cur);
            assert(tokens(self@) =~= tokens(cur).drop_first());
            assert(first_token_len(cur) == 1);
            assert(self@ == after_first_token(old(self)@));
        }
        Some(token)
    }

    /// Hands out the next term as a string.  The cursor advances
    /// exactly past the leading whitespace run and the term handed out.
    pub fn next(&mut self) -> (r: Option<String>)
        ensures
            match r {
                Option::None => {
                    &&& tokens(old(self)@).len() == 0
                    &&& final(self)@.len() == 0
                    &&& final(self)@ == old(self)@.skip(
                        run_len(old(self)@, whitespace_pred()) as int,
                    )
                },
                Option::Some(t) => {
                    &&& tokens(old(self)@).len() > 0
                    &&& t@ == tokens(old(self)@)[0]
                    &&& tokens(final(self)@) == tokens(old(self)@).drop_first()
                    &&& final(self)@ == after_first_token(old(self)@)
                    &&& final(self)@.len() < old(self)@.len()
                },
            },
    {
        match self.next_token() {
            Some(token) => Some(string_from_chars(token)),
            None => None,
        }
    }
}

/// All the terms of `text`, in order.
pub fn tokenize(text: &str) -> (r: Vec<String>)
    ensures
        views_of(r@) == tokens(text@),
{
    let cs = crate::chars::chars_of(text);
    let mut lx = Lexer::new(cs.as_slice());
    let mut out: Vec<String> = Vec::new();
    loop
        invariant
            views_of(out@) + tokens(lx@) =~= tokens(text@),
        ensures
            views_of(out@) + tokens(lx@) =~= tokens(text@),
            tokens(lx@).len() == 0,
        decreases lx@.len(),
    {
        match lx.next() {
            Some(t) => {
                let ghost prev = out@;
                out.push(t);
                proof {
                    assert(views_of(out@) =~= views_of(prev).push(t@));
                    assert(views_of(out@) + tokens(lx@) =~= tokens(text@));
                }
            },
            None => {
                proof {
                    assert(tokens(lx@).len() == 0);
                }
                break ;
            },
        }
    }
    proof {
        assert(views_of(out@) =~= tokens(text@));
    }
    out
}

} // verus!
