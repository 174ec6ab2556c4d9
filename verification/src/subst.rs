//! The placeholder substitution engine: it rewrites a placeholder marker into
//! the receiver-binding identifier, descending into every nested group. The
//! marker may stand alone as a punctuation token, or inside an identifier's
//! text as a substring; literals are opaque and pass through unchanged.

use vstd::prelude::*;

use crate::engine::MulticallError;
use crate::token::{lemma_seq_size_index, lemma_view_seq, seq_size, tok_size, view_seq,
    view_token, Tok, Token};

verus! {

/// Every non-overlapping occurrence of `from` in `s` replaced by `to`,
/// scanning left to right. An empty pattern replaces nothing.
pub open spec fn replace_all(s: Seq<char>, from: Seq<char>, to: Seq<char>) -> Seq<char>
    decreases s.len(),
{
    if from.len() == 0 || s.len() < from.len() {
        s
    } else if s.subrange(0, from.len() as int) == from {
        to + replace_all(s.subrange(from.len() as int, s.len() as int), from, to)
    } else {
        seq![s[0]] + replace_all(s.subrange(1, s.len() as int), from, to)
    }
}

/// One token with every occurrence of the marker replaced by `to`: a group is
/// rewritten recursively, an identifier by substring replacement, and a
/// punctuation token equal to a single-character marker is replaced wholesale
/// by an identifier. Everything else passes through unchanged.
pub open spec fn subst_tok(t: Tok, from: Seq<char>, to: Seq<char>) -> Tok
    decreases t,
{
    match t {
        Tok::Ident(x) => Tok::Ident(replace_all(x, from, to)),
        Tok::Punct(c, sp) => if from.len() == 1 && c == from[0] {
            Tok::Ident(to)
        } else {
            Tok::Punct(c, sp)
        },
        Tok::Literal(x) => Tok::Literal(x),
        Tok::Group(d, ts) => Tok::Group(d, subst_seq(ts, from, to)),
    }
}

/// Substitution applied to every token of a sequence.
pub open spec fn subst_seq(s: Seq<Tok>, from: Seq<char>, to: Seq<char>) -> Seq<Tok>
    decreases s,
{
    if s.len() == 0 {
        Seq::empty()
    } else {
        seq![subst_tok(s[0], from, to)] + subst_seq(s.subrange(1, s.len() as int), from, to)
    }
}

/// `subst_seq` maps `subst_tok` over the sequence, index by index.
pub broadcast proof fn lemma_subst_seq(s: Seq<Tok>, from: Seq<char>, to: Seq<char>)
    ensures
        (#[trigger] subst_seq(s, from, to)).len() == s.len(),
        forall|i: int| 0 <= i < s.len() ==> subst_seq(s, from, to)[i] == subst_tok(s[i], from, to),
    decreases s.len(),
{
    if s.len() > 0 {
        let rest = s.subrange(1, s.len() as int);
        lemma_subst_seq(rest, from, to);
        assert forall|i: int| 0 <= i < s.len() implies subst_seq(s, from, to)[i] == subst_tok(
            s[i],
            from,
            to,
        ) by {
            if i > 0 {
                assert(subst_seq(s, from, to)[i] == subst_seq(rest, from, to)[i - 1]);
                assert(rest[i - 1] == s[i]);
            }
        }
    }
}

/// Whether the window of `s` starting at `i` equals `from`.
fn window_eq(s: &Vec<char>, from: &Vec<char>, i: usize) -> (b: bool)
    requires
        i + from@.len() <= s@.len(),
    ensures
        b == (s@.subrange(i as int, i + from@.len()) == from@),
{
    let n = s.len();
    let mut k: usize = 0;
    while k < from.len()
        invariant
            k <= from@.len(),
            i + from@.len() <= s@.len(),
            n == s@.len(),
            forall|j: int| 0 <= j < k ==> s@[i + j] == from@[j],
        decreases from@.len() - k,
    {
        if s[i + k] != from[k] {
            proof {
                assert(s@.subrange(i as int, i + from@.len())[k as int] == s@[i + k]);
            }
            return false;
        }
        k = k + 1;
    }
    proof {
        assert(s@.subrange(i as int, i + from@.len()) =~= from@);
    }
    true
}

/// The executable substring replacement matching `replace_all`.
pub fn replace_chars(s: &Vec<char>, from: &Vec<char>, to: &Vec<char>) -> (r: Vec<char>)
    requires
        from@.len() >= 1,
    ensures
        r@ == replace_all(s@, from@, to@),
{
    let mut r: Vec<char> = Vec::new();
    let mut i: usize = 0;
    proof {
        assert(s@.subrange(0, s@.len() as int) =~= s@);
        assert(Seq::<char>::empty() + replace_all(s@, from@, to@) =~= replace_all(
            s@,
            from@,
            to@,
        ));
    }
    while i < s.len()
        invariant
            i <= s@.len(),
            from@.len() >= 1,
            replace_all(s@, from@, to@) == r@ + replace_all(
                s@.subrange(i as int, s@.len() as int),
                from@,
                to@,
            ),
        decreases s@.len() - i,
    {
        let ghost tail = s@.subrange(i as int, s@.len() as int);
        let ghost r0 = r@;
        if s.len() - i >= from.len() && window_eq(s, from, i) {
            proof {
                assert(tail.subrange(0, from@.len() as int) =~= s@.subrange(
                    i as int,
                    i + from@.len(),
                ));
                assert(tail.subrange(from@.len() as int, tail.len() as int) =~= s@.subrange(
                    i + from@.len(),
                    s@.len() as int,
                ));
            }
            let mut k: usize = 0;
            while k < to.len()
                invariant
                    k <= to@.len(),
                    r@ == r0 + to@.subrange(0, k as int),
                decreases to@.len() - k,
            {
                r.push(to[k]);
                k = k + 1;
                proof {
                    assert(r@ =~= r0 + to@.subrange(0, k as int));
                }
            }
            proof {
                assert(to@.subrange(0, to@.len() as int) =~= to@);
                assert(r0 + to@ + replace_all(
                    s@.subrange(i + from@.len(), s@.len() as int),
                    from@,
                    to@,
                ) =~= r0 + (to@ + replace_all(
                    s@.subrange(i + from@.len(), s@.len() as int),
                    from@,
                    to@,
                )));
            }
            i = i + from.len();
        } else {
            proof {
                if s@.len() - i >= from@.len() {
                    assert(tail.subrange(0, from@.len() as int) =~= s@.subrange(
                        i as int,
                        i + from@.len(),
                    ));
                }
                assert(tail.subrange(1, tail.len() as int) =~= s@.subrange(
                    i + 1,
                    s@.len() as int,
                ));
                assert(seq![tail[0]] =~= seq![s@[i as int]]);
                assert(r0 + (seq![s@[i as int]] + replace_all(
                    s@.subrange(i + 1, s@.len() as int),
                    from@,
                    to@,
                )) =~= r0.push(s@[i as int]) + replace_all(
                    s@.subrange(i + 1, s@.len() as int),
                    from@,
                    to@,
                ));
            }
            r.push(s[i]);
            i = i + 1;
        }
    }
    proof {
        assert(s@.subrange(i as int, s@.len() as int) =~= Seq::<char>::empty());
        assert(r@ + Seq::<char>::empty() =~= r@);
    }
    r
}

/// The executable substitution on one token, matching `subst_tok`.
pub fn replace_tok(t: &Token, from: &Vec<char>, to: &Vec<char>) -> (r: Token)
    requires
        from@.len() >= 1,
    ensures
        view_token(r) == subst_tok(view_token(*t), from@, to@),
    decreases tok_size(view_token(*t)), 0nat,
{
    match t {
        Token::Ident(x) => Token::Ident(replace_chars(x, from, to)),
        Token::Punct(c, sp) => {
            if from.len() == 1 && *c == from[0] {
                Token::Ident(crate::token::copy_chars(to))
            } else {
                Token::Punct(*c, *sp)
            }
        },
        Token::Literal(x) => Token::Literal(crate::token::copy_chars(x)),
        Token::Group(d, ts) => Token::Group(*d, replace_vec(ts, from, to)),
    }
}

/// The executable substitution on a token vector, matching `subst_seq`.
pub fn replace_vec(v: &Vec<Token>, from: &Vec<char>, to: &Vec<char>) -> (r: Vec<Token>)
    requires
        from@.len() >= 1,
    ensures
        view_seq(r@) == subst_seq(view_seq(v@), from@, to@),
    decreases seq_size(view_seq(v@)), 1nat,
{
    proof {
        lemma_view_seq(v@);
    }
    let mut r: Vec<Token> = Vec::new();
    let mut i: usize = 0;
    while i < v.len()
        invariant
            i <= v@.len(),
            from@.len() >= 1,
            r@.len() == i,
            forall|k: int| 0 <= k < i ==> view_token(r@[k]) == subst_tok(
                view_token(v@[k]),
                from@,
                to@,
            ),
        decreases v@.len() - i,
    {
        proof {
            lemma_view_seq(v@);
            lemma_seq_size_index(view_seq(v@), i as int);
        }
        r.push(replace_tok(&v[i], from, to));
        i = i + 1;
    }
    proof {
        lemma_view_seq(r@);
        lemma_view_seq(v@);
        lemma_subst_seq(view_seq(v@), from@, to@);
        assert(view_seq(r@) =~= subst_seq(view_seq(v@), from@, to@));
    }
    r
}

/// The substitution engine's public face: replace every occurrence of the
/// marker in one token by the target text, recursively through groups. An
/// empty marker is a configuration fault and is rejected; nothing else fails.
pub fn recursive_replace(token: &Token, from: &Vec<char>, to: &Vec<char>) -> (r: Result<
    Token,
    MulticallError,
>)
    ensures
        from@.len() == 0 ==> r == Err::<Token, MulticallError>(MulticallError::InvalidPlaceholder),
        from@.len() >= 1 ==> (r matches Ok(t) && view_token(t) == subst_tok(
            view_token(*token),
            from@,
            to@,
        )),
{
    if from.len() == 0 {
        return Err(MulticallError::InvalidPlaceholder);
    }
    Ok(replace_tok(token, from, to))
}

/// No character of `s` equals `c`.
pub open spec fn chars_free(s: Seq<char>, c: char) -> bool {
    forall|i: int| 0 <= i < s.len() ==> s[i] != c
}

/// The positions substitution rewrites are free of the marker character:
/// identifier text and punctuation, recursively through groups. Literals are
/// opaque to substitution and are not counted.
pub open spec fn marker_free(t: Tok, c: char) -> bool
    decreases t,
{
    match t {
        Tok::Ident(x) => chars_free(x, c),
        Tok::Punct(cc, _) => cc != c,
        Tok::Literal(_) => true,
        Tok::Group(_, ts) => seq_marker_free(ts, c),
    }
}

/// Every token of the sequence is free of the marker character.
pub open spec fn seq_marker_free(s: Seq<Tok>, c: char) -> bool
    decreases s,
{
    if s.len() == 0 {
        true
    } else {
        marker_free(s[0], c) && seq_marker_free(s.subrange(1, s.len() as int), c)
    }
}

/// Replacement leaves no occurrence of a single-character pattern when the
/// replacement text is itself free of it.
proof fn lemma_replace_all_free(s: Seq<char>, c: char, to: Seq<char>)
    requires
        chars_free(to, c),
    ensures
        chars_free(replace_all(s, seq![c], to), c),
    decreases s.len(),
{
    let from = seq![c];
    if s.len() >= 1 {
        if s.subrange(0, 1) == from {
            lemma_replace_all_free(s.subrange(1, s.len() as int), c, to);
        } else {
            assert(s[0] != c) by {
                if s[0] == c {
                    assert(s.subrange(0, 1) =~= from);
                }
            }
            lemma_replace_all_free(s.subrange(1, s.len() as int), c, to);
        }
    }
}

/// Replacement of a single-character pattern is the identity on text that is
/// already free of it.
proof fn lemma_replace_all_id(s: Seq<char>, c: char, to: Seq<char>)
    requires
        chars_free(s, c),
    ensures
        replace_all(s, seq![c], to) == s,
    decreases s.len(),
{
    let from = seq![c];
    if s.len() >= 1 {
        assert(s.subrange(0, 1) != from) by {
            assert(s.subrange(0, 1)[0] == s[0]);
        }
        let rest = s.subrange(1, s.len() as int);
        assert(chars_free(rest, c));
        lemma_replace_all_id(rest, c, to);
        assert(seq![s[0]] + rest =~= s);
    }
}

/// After one substitution pass with a single-character marker whose target
/// text does not contain the marker, no rewritable position still holds the
/// marker.
pub proof fn lemma_subst_no_residual(t: Tok, c: char, to: Seq<char>)
    requires
        chars_free(to, c),
    ensures
        marker_free(subst_tok(t, seq![c], to), c),
    decreases t,
{
    match t {
        Tok::Ident(x) => {
            lemma_replace_all_free(x, c, to);
        },
        Tok::Punct(cc, sp) => {},
        Tok::Literal(_) => {},
        Tok::Group(d, ts) => {
            lemma_subst_seq_no_residual(ts, c, to);
        },
    }
}

/// The sequence form of `lemma_subst_no_residual`.
pub proof fn lemma_subst_seq_no_residual(s: Seq<Tok>, c: char, to: Seq<char>)
    requires
        chars_free(to, c),
    ensures
        seq_marker_free(subst_seq(s, seq![c], to), c),
    decreases s,
{
    if s.len() > 0 {
        let rest = s.subrange(1, s.len() as int);
        lemma_subst_no_residual(s[0], c, to);
        lemma_subst_seq_no_residual(rest, c, to);
        let out = subst_seq(s, seq![c], to);
        assert(out[0] == subst_tok(s[0], seq![c], to));
        assert(out.subrange(1, out.len() as int) =~= subst_seq(rest, seq![c], to));
    }
}

/// Substitution is the identity on a token that is already free of the marker.
pub proof fn lemma_subst_id(t: Tok, c: char, to: Seq<char>)
    requires
        marker_free(t, c),
    ensures
        subst_tok(t, seq![c], to) == t,
    decreases t,
{
    match t {
        Tok::Ident(x) => {
            lemma_replace_all_id(x, c, to);
        },
        Tok::Punct(cc, sp) => {},
        Tok::Literal(_) => {},
        Tok::Group(d, ts) => {
            lemma_subst_seq_id(ts, c, to);
        },
    }
}

/// The sequence form of `lemma_subst_id`.
pub proof fn lemma_subst_seq_id(s: Seq<Tok>, c: char, to: Seq<char>)
    requires
        seq_marker_free(s, c),
    ensures
        subst_seq(s, seq![c], to) == s,
    decreases s,
{
    if s.len() > 0 {
        let rest = s.subrange(1, s.len() as int);
        lemma_subst_id(s[0], c, to);
        lemma_subst_seq_id(rest, c, to);
        assert(subst_seq(s, seq![c], to) =~= s);
    }
}

/// Law: substitution is idempotent. Running placeholder substitution a second
/// time, with the same single-character marker and the same target text (which
/// does not itself contain the marker), changes nothing: one pass already
/// leaves no rewritable occurrence of the marker behind.
pub proof fn lemma_substitution_idempotent(t: Tok, c: char, to: Seq<char>)
    requires
        chars_free(to, c),
    ensures
        subst_tok(subst_tok(t, seq![c], to), seq![c], to) == subst_tok(t, seq![c], to),
{
    lemma_subst_no_residual(t, c, to);
    lemma_subst_id(subst_tok(t, seq![c], to), c, to);
}

/// Law: substitution is idempotent on whole token sequences.
pub proof fn lemma_substitution_idempotent_seq(s: Seq<Tok>, c: char, to: Seq<char>)
    requires
        chars_free(to, c),
    ensures
        subst_seq(subst_seq(s, seq![c], to), seq![c], to) == subst_seq(s, seq![c], to),
{
    lemma_subst_seq_no_residual(s, c, to);
    lemma_subst_seq_id(subst_seq(s, seq![c], to), c, to);
}

} // verus!
