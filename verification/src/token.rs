//! The atomic data representation: a token is an identifier, a punctuation
//! character with an adjacency flag, a literal, or a delimited group holding a
//! nested token sequence. [`Token`] is the executable tree; [`Tok`] is its
//! mathematical model, with character sequences in place of vectors.

use vstd::prelude::*;

verus! {

/// Adjacency of a punctuation character: `Joint` means it is printed directly
/// against the next token (the first half of a compound operator), `Alone`
/// means it stands on its own.
#[derive(Clone, Copy, Debug, PartialEq, Eq, Structural)]
pub enum Spacing {
    Joint,
    Alone,
}

/// The bracket kind of a delimited group. `NoDelim` marks an invisible
/// grouping, as token trees produced by earlier expansions may carry.
#[derive(Clone, Copy, Debug, PartialEq, Eq, Structural)]
pub enum Delimiter {
    Parenthesis,
    Brace,
    Bracket,
    NoDelim,
}

/// One node of a token tree. A rewrite always produces new tokens rather than
/// mutating in place; groups own their contents, so the shape is a tree.
#[derive(Debug, PartialEq, Eq)]
pub enum Token {
    Ident(Vec<char>),
    Punct(char, Spacing),
    Literal(Vec<char>),
    Group(Delimiter, Vec<Token>),
}

/// The mathematical model of a token: the same tagged shape over `Seq`.
pub enum Tok {
    Ident(Seq<char>),
    Punct(char, Spacing),
    Literal(Seq<char>),
    Group(Delimiter, Seq<Tok>),
}

/// The model of one executable token.
pub open spec fn view_token(t: Token) -> Tok
    decreases t,
{
    match t {
        Token::Ident(s) => Tok::Ident(s@),
        Token::Punct(c, sp) => Tok::Punct(c, sp),
        Token::Literal(s) => Tok::Literal(s@),
        Token::Group(d, ts) => Tok::Group(d, view_vec(ts)),
    }
}

/// The model of a vector of tokens.
pub open spec fn view_vec(v: Vec<Token>) -> Seq<Tok>
    decreases v,
{
    view_seq(v@)
}

/// The model of a sequence of executable tokens, element by element.
pub open spec fn view_seq(s: Seq<Token>) -> Seq<Tok>
    decreases s,
{
    if s.len() == 0 {
        Seq::empty()
    } else {
        seq![view_token(s[0])] + view_seq(s.subrange(1, s.len() as int))
    }
}

/// `view_seq` maps `view_token` over the sequence, index by index.
pub broadcast proof fn lemma_view_seq(s: Seq<Token>)
    ensures
        (#[trigger] view_seq(s)).len() == s.len(),
        forall|i: int| 0 <= i < s.len() ==> view_seq(s)[i] == view_token(s[i]),
    decreases s.len(),
{
    if s.len() > 0 {
        let rest = s.subrange(1, s.len() as int);
        lemma_view_seq(rest);
        assert forall|i: int| 0 <= i < s.len() implies view_seq(s)[i] == view_token(s[i]) by {
            if i > 0 {
                assert(view_seq(s)[i] == view_seq(rest)[i - 1]);
                assert(rest[i - 1] == s[i]);
            }
        }
    }
}

/// The model of a sequence extended by one token.
pub proof fn lemma_view_push(v: Seq<Token>, t: Token)
    ensures
        view_seq(v.push(t)) == view_seq(v) + seq![view_token(t)],
{
    lemma_view_seq(v);
    lemma_view_seq(v.push(t));
    assert(view_seq(v.push(t)) =~= view_seq(v) + seq![view_token(t)]);
}

/// The model of a concatenation of token sequences.
pub proof fn lemma_view_append(a: Seq<Token>, b: Seq<Token>)
    ensures
        view_seq(a + b) == view_seq(a) + view_seq(b),
{
    lemma_view_seq(a);
    lemma_view_seq(b);
    lemma_view_seq(a + b);
    assert(view_seq(a + b) =~= view_seq(a) + view_seq(b));
}

/// The model of a subrange of a token sequence.
pub proof fn lemma_view_subrange(v: Seq<Token>, a: int, b: int)
    requires
        0 <= a <= b <= v.len(),
    ensures
        view_seq(v.subrange(a, b)) == view_seq(v).subrange(a, b),
{
    lemma_view_seq(v);
    lemma_view_seq(v.subrange(a, b));
    assert(view_seq(v.subrange(a, b)) =~= view_seq(v).subrange(a, b));
}

/// The size of a token tree: one for the node itself plus the size of a
/// group's contents. It bounds the recursion depth of every pass.
pub open spec fn tok_size(t: Tok) -> nat
    decreases t,
{
    match t {
        Tok::Group(_, ts) => 1 + seq_size(ts),
        _ => 1,
    }
}

/// The summed size of a sequence of token trees.
pub open spec fn seq_size(s: Seq<Tok>) -> nat
    decreases s,
{
    if s.len() == 0 {
        0
    } else {
        tok_size(s[0]) + seq_size(s.subrange(1, s.len() as int))
    }
}

/// Every element of a sequence is at most as large as the whole sequence.
pub proof fn lemma_seq_size_index(s: Seq<Tok>, i: int)
    requires
        0 <= i < s.len(),
    ensures
        tok_size(s[i]) <= seq_size(s),
    decreases s.len(),
{
    if i > 0 {
        let rest = s.subrange(1, s.len() as int);
        lemma_seq_size_index(rest, i - 1);
        assert(rest[i - 1] == s[i]);
    }
}

/// An exact copy of a character vector.
pub fn copy_chars(v: &Vec<char>) -> (r: Vec<char>)
    ensures
        r@ == v@,
{
    let mut r: Vec<char> = Vec::new();
    let mut i: usize = 0;
    while i < v.len()
        invariant
            i <= v.len(),
            r@ == v@.subrange(0, i as int),
        decreases v.len() - i,
    {
        r.push(v[i]);
        i = i + 1;
        proof {
            assert(r@ =~= v@.subrange(0, i as int));
        }
    }
    proof {
        assert(r@ =~= v@);
    }
    r
}

/// A copy of a token tree with the same model.
pub fn copy_token(t: &Token) -> (r: Token)
    ensures
        view_token(r) == view_token(*t),
    decreases tok_size(view_token(*t)), 0nat,
{
    match t {
        Token::Ident(s) => Token::Ident(copy_chars(s)),
        Token::Punct(c, sp) => Token::Punct(*c, *sp),
        Token::Literal(s) => Token::Literal(copy_chars(s)),
        Token::Group(d, ts) => Token::Group(*d, copy_vec(ts)),
    }
}

/// A copy of a token vector with the same model.
pub fn copy_vec(v: &Vec<Token>) -> (r: Vec<Token>)
    ensures
        view_seq(r@) == view_seq(v@),
    decreases seq_size(view_seq(v@)), 1nat,
{
    proof {
        lemma_view_seq(v@);
    }
    let mut r: Vec<Token> = Vec::new();
    let mut i: usize = 0;
    while i < v.len()
        invariant
            i <= v.len(),
            r@.len() == i,
            forall|k: int| 0 <= k < i ==> view_token(r@[k]) == view_token(v@[k]),
        decreases v.len() - i,
    {
        proof {
            lemma_view_seq(v@);
            lemma_seq_size_index(view_seq(v@), i as int);
        }
        r.push(copy_token(&v[i]));
        i = i + 1;
    }
    proof {
        lemma_view_seq(r@);
        lemma_view_seq(v@);
        assert(view_seq(r@) =~= view_seq(v@));
    }
    r
}

} // verus!
