//! The parser, rewrite state machine and emitter: a header parser that
//! captures the receiver expression and detects mutability, a single
//! left-to-right pass that classifies each top-level statement and decides how
//! to prefix it with the receiver binding, recursive descent into nested
//! sub-blocks, and an emitter that wraps the binding declaration and the
//! rewritten statements in one isolating brace scope.

use vstd::prelude::*;

use crate::subst::{replace_tok, subst_tok};
use crate::token::{copy_token, lemma_seq_size_index, lemma_view_append, lemma_view_push,
    lemma_view_subrange, seq_size, tok_size, view_seq, view_token, Delimiter, Spacing, Tok, Token};

verus! {

broadcast use crate::token::lemma_view_seq;

/// Why an expansion was aborted. Any failure aborts the whole expansion and
/// produces no output.
#[derive(Clone, Copy, Debug, PartialEq, Eq, Structural)]
pub enum MulticallError {
    /// The header scan exhausted its input without finding the top-level
    /// colon that separates the receiver expression from the statements.
    MissingSeparator,
    /// The placeholder marker was configured as the empty string.
    InvalidPlaceholder,
    /// A statement lacks its terminating separator before the input ends.
    UnterminatedStatement,
}

/// The classification state of the single left-to-right pass over one block's
/// body. It is reset to `Awaiting` at each top-level statement separator.
#[derive(Clone, Copy, Debug, PartialEq, Eq, Structural)]
pub enum RState {
    /// At the start of a statement, deciding its shape.
    Awaiting,
    /// Inside a capture statement's left-hand side, before its lone `=`.
    Capturing,
    /// Inside a statement whose shape is decided; tokens pass through with
    /// placeholder substitution only.
    Open,
}

/// The reserved identifier that holds the evaluated receiver of a block.
pub open spec fn binding_name() -> Seq<char> {
    seq!['_', '_', 'm', 'u', 'l', 't', 'i', 'c', 'a', 'l', 'l', '_', 'i', 't', 'e', 'm', '_', '_']
}

/// The capture keyword.
pub open spec fn kw_set() -> Seq<char> {
    seq!['s', 'e', 't']
}

/// The passthrough keyword.
pub open spec fn kw_exec() -> Seq<char> {
    seq!['e', 'x', 'e', 'c']
}

/// The exclusivity marker of a receiver expression.
pub open spec fn kw_mut() -> Seq<char> {
    seq!['m', 'u', 't']
}

/// The keyword that introduces the binding declaration.
pub open spec fn kw_let() -> Seq<char> {
    seq!['l', 'e', 't']
}

/// The placeholder marker: a single reserved punctuation character.
pub open spec fn marker() -> Seq<char> {
    seq!['#']
}

/// A bare, non-adjacent colon: the token that ends a block's header.
pub open spec fn is_colon(t: Tok) -> bool {
    t matches Tok::Punct(':', Spacing::Alone)
}

/// A top-level statement separator.
pub open spec fn is_semi(t: Tok) -> bool {
    t matches Tok::Punct(';', _)
}

/// The lone assignment punctuation that ends a capture statement's left-hand
/// side. An adjacency-joined `=` (the first half of `==` or `=>`, or the inside
/// of a compound operator) passes through; only a non-adjacent `=` flips the
/// state, so of `+=` only the final `=` counts.
pub open spec fn is_eq_punct(t: Tok) -> bool {
    t matches Tok::Punct('=', Spacing::Alone)
}

/// A reference marker.
pub open spec fn is_amp(t: Tok) -> bool {
    t matches Tok::Punct('&', _)
}

/// A delimited group.
pub open spec fn is_group(t: Tok) -> bool {
    t matches Tok::Group(_, _)
}

/// The index of the first top-level header separator, if any.
pub open spec fn find_colon(s: Seq<Tok>) -> Option<int>
    decreases s,
{
    if s.len() == 0 {
        Option::None
    } else if is_colon(s[0]) {
        Option::Some(0)
    } else {
        match find_colon(s.subrange(1, s.len() as int)) {
            Option::None => Option::None,
            Option::Some(i) => Option::Some(i + 1),
        }
    }
}

/// `find_colon` returns the first index whose token is a bare colon.
pub proof fn lemma_find_colon(s: Seq<Tok>)
    ensures
        match find_colon(s) {
            Option::None => forall|j: int| 0 <= j < s.len() ==> !is_colon(s[j]),
            Option::Some(ci) => 0 <= ci < s.len() && is_colon(s[ci]) && forall|j: int|
                0 <= j < ci ==> !is_colon(s[j]),
        },
    decreases s.len(),
{
    if s.len() > 0 && !is_colon(s[0]) {
        let rest = s.subrange(1, s.len() as int);
        lemma_find_colon(rest);
        match find_colon(rest) {
            Option::None => {
                assert forall|j: int| 0 <= j < s.len() implies !is_colon(s[j]) by {
                    if j > 0 {
                        assert(rest[j - 1] == s[j]);
                    }
                }
            },
            Option::Some(ci) => {
                assert(rest[ci] == s[ci + 1]);
                assert forall|j: int| 0 <= j < ci + 1 implies !is_colon(s[j]) by {
                    if j > 0 {
                        assert(rest[j - 1] == s[j]);
                    }
                }
            },
        }
    }
}

/// A first-colon witness pins `find_colon` down.
pub proof fn lemma_find_colon_at(s: Seq<Tok>, k: int)
    requires
        0 <= k < s.len(),
        is_colon(s[k]),
        forall|j: int| 0 <= j < k ==> !is_colon(s[j]),
    ensures
        find_colon(s) == Option::Some(k),
{
    lemma_find_colon(s);
    match find_colon(s) {
        Option::None => {
            assert(false);
        },
        Option::Some(ci) => {
            if ci < k {
                assert(!is_colon(s[ci]));
            }
            if k < ci {
                assert(!is_colon(s[k]));
            }
        },
    }
}

/// Whether a receiver expression asks for an exclusive reference: it begins
/// with a reference marker immediately followed by the exclusivity marker.
pub open spec fn header_mut(h: Seq<Tok>) -> bool {
    h.len() >= 2 && is_amp(h[0]) && h[1] == Tok::Ident(kw_mut())
}

/// The synthesized receiver prefix of a nested sub-block: a reference to a
/// field of the enclosing binding, exclusive exactly when the inherited
/// mutability flag is set.
pub open spec fn nested_prefix(m: bool) -> Seq<Tok> {
    if m {
        seq![
            Tok::Punct('&', Spacing::Alone),
            Tok::Ident(kw_mut()),
            Tok::Ident(binding_name()),
            Tok::Punct('.', Spacing::Alone),
        ]
    } else {
        seq![
            Tok::Punct('&', Spacing::Alone),
            Tok::Ident(binding_name()),
            Tok::Punct('.', Spacing::Alone),
        ]
    }
}

/// The binding declaration that opens every emitted scope:
/// `let <binding> = <receiver expression> ;`.
pub open spec fn decl_tokens(recv: Seq<Tok>) -> Seq<Tok> {
    seq![
        Tok::Ident(kw_let()),
        Tok::Ident(binding_name()),
        Tok::Punct('=', Spacing::Alone),
    ] + recv + seq![Tok::Punct(';', Spacing::Alone)]
}

/// Substitution with the engine's fixed marker and binding.
pub open spec fn subst1(t: Tok) -> Tok {
    subst_tok(t, marker(), binding_name())
}

/// A token sequence prefixed onto the payload of a successful rewrite; an
/// aborted rewrite stays aborted.
pub open spec fn prepend(p: Seq<Tok>, r: Result<Seq<Tok>, MulticallError>) -> Result<
    Seq<Tok>,
    MulticallError,
> {
    match r {
        Ok(s) => Ok(p + s),
        Err(e) => Err(e),
    }
}

/// The rewrite state machine: one forward pass over a block's body. In
/// `Awaiting`, a delimited group becomes a nested sub-block, the capture and
/// passthrough keywords are consumed, and any other token is prefixed with the
/// binding and a field-access marker. In `Capturing`, tokens pass through until
/// a lone assignment punctuation resets the state. A top-level separator resets
/// the state in every mode. Every emitted token is placeholder-substituted. Input
/// that ends outside `Awaiting` lacks its terminating separator.
pub open spec fn rewrite(s: Seq<Tok>, st: RState, m: bool) -> Result<Seq<Tok>, MulticallError>
    decreases s,
{
    if s.len() == 0 {
        if st == RState::Awaiting {
            Ok(Seq::empty())
        } else {
            Err(MulticallError::UnterminatedStatement)
        }
    } else {
        let t = s[0];
        let rest = s.subrange(1, s.len() as int);
        if st == RState::Awaiting && is_group(t) {
            match expand_tok(t, m) {
                Ok(g) => prepend(g, rewrite(rest, RState::Open, m)),
                Err(e) => Err(e),
            }
        } else if is_semi(t) {
            prepend(seq![Tok::Punct(';', Spacing::Alone)], rewrite(rest, RState::Awaiting, m))
        } else if st == RState::Awaiting {
            if t == Tok::Ident(kw_set()) {
                rewrite(rest, RState::Capturing, m)
            } else if t == Tok::Ident(kw_exec()) {
                rewrite(rest, RState::Open, m)
            } else {
                prepend(
                    seq![
                        Tok::Ident(binding_name()),
                        Tok::Punct('.', Spacing::Alone),
                        subst1(t),
                    ],
                    rewrite(rest, RState::Open, m),
                )
            }
        } else if st == RState::Capturing {
            if is_eq_punct(t) {
                prepend(seq![subst1(t)], rewrite(rest, RState::Awaiting, m))
            } else {
                prepend(seq![subst1(t)], rewrite(rest, RState::Capturing, m))
            }
        } else {
            prepend(seq![subst1(t)], rewrite(rest, RState::Open, m))
        }
    }
}

/// The expansion of one nested sub-block token; only ever applied to groups.
pub open spec fn expand_tok(t: Tok, m: bool) -> Result<Seq<Tok>, MulticallError>
    decreases t,
{
    match t {
        Tok::Group(_, ts) => expand_stream(ts, true, m),
        _ => arbitrary(),
    }
}

/// The whole pipeline on one block's token sequence: parse the header up to
/// its separator, derive the receiver expression and the mutability flag (a
/// nested block synthesizes its receiver from the inherited flag and never
/// re-derives it), rewrite the body, and wrap the binding declaration and the
/// rewritten statements in one isolating brace scope.
pub open spec fn expand_stream(inp: Seq<Tok>, nested: bool, m: bool) -> Result<
    Seq<Tok>,
    MulticallError,
>
    decreases inp via expand_stream_decreases
{
    match find_colon(inp) {
        Option::None => Err(MulticallError::MissingSeparator),
        Option::Some(ci) => {
            let hdr = inp.subrange(0, ci);
            let m2 = if nested {
                m
            } else {
                header_mut(hdr)
            };
            let recv = if nested {
                nested_prefix(m) + hdr
            } else {
                hdr
            };
            match rewrite(inp.subrange(ci + 1, inp.len() as int), RState::Awaiting, m2) {
                Err(e) => Err(e),
                Ok(body) => Ok(
                    seq![Tok::Group(Delimiter::Brace, decl_tokens(recv) + body)],
                ),
            }
        },
    }
}

#[via_fn]
proof fn expand_stream_decreases(inp: Seq<Tok>, nested: bool, m: bool) {
    lemma_find_colon(inp);
}

/// The whole pipeline at the top level: no synthesized prefix, mutability
/// derived from the receiver expression itself.
pub open spec fn multicall_spec(inp: Seq<Tok>) -> Result<Seq<Tok>, MulticallError> {
    expand_stream(inp, false, false)
}

/// The reserved binding identifier, as characters.
pub fn binding_chars() -> (r: Vec<char>)
    ensures
        r@ == binding_name(),
{
    let mut v: Vec<char> = Vec::new();
    v.push('_');
    v.push('_');
    v.push('m');
    v.push('u');
    v.push('l');
    v.push('t');
    v.push('i');
    v.push('c');
    v.push('a');
    v.push('l');
    v.push('l');
    v.push('_');
    v.push('i');
    v.push('t');
    v.push('e');
    v.push('m');
    v.push('_');
    v.push('_');
    proof {
        assert(v@ =~= binding_name());
    }
    v
}

/// The placeholder marker, as characters.
pub fn marker_chars() -> (r: Vec<char>)
    ensures
        r@ == marker(),
{
    let mut v: Vec<char> = Vec::new();
    v.push('#');
    proof {
        assert(v@ =~= marker());
    }
    v
}

fn kw_let_chars() -> (r: Vec<char>)
    ensures
        r@ == kw_let(),
{
    let mut v: Vec<char> = Vec::new();
    v.push('l');
    v.push('e');
    v.push('t');
    proof {
        assert(v@ =~= kw_let());
    }
    v
}

fn kw_mut_chars() -> (r: Vec<char>)
    ensures
        r@ == kw_mut(),
{
    let mut v: Vec<char> = Vec::new();
    v.push('m');
    v.push('u');
    v.push('t');
    proof {
        assert(v@ =~= kw_mut());
    }
    v
}

fn is_colon_token(t: &Token) -> (b: bool)
    ensures
        b == is_colon(view_token(*t)),
{
    match t {
        Token::Punct(c, sp) => *c == ':' && *sp == Spacing::Alone,
        _ => false,
    }
}

fn is_amp_token(t: &Token) -> (b: bool)
    ensures
        b == is_amp(view_token(*t)),
{
    match t {
        Token::Punct(c, _) => *c == '&',
        _ => false,
    }
}

fn is_eq_token(t: &Token) -> (b: bool)
    ensures
        b == is_eq_punct(view_token(*t)),
{
    match t {
        Token::Punct(c, sp) => *c == '=' && *sp == Spacing::Alone,
        _ => false,
    }
}

fn is_mut_token(t: &Token) -> (b: bool)
    ensures
        b == (view_token(*t) == Tok::Ident(kw_mut())),
{
    match t {
        Token::Ident(x) => {
            let b = x.len() == 3 && x[0] == 'm' && x[1] == 'u' && x[2] == 't';
            proof {
                if b {
                    assert(x@ =~= kw_mut());
                }
                if x@ == kw_mut() {
                    assert(x@.len() == 3 && x@[0] == 'm' && x@[1] == 'u' && x@[2] == 't');
                }
            }
            b
        },
        _ => false,
    }
}

fn is_set_token(t: &Token) -> (b: bool)
    ensures
        b == (view_token(*t) == Tok::Ident(kw_set())),
{
    match t {
        Token::Ident(x) => {
            let b = x.len() == 3 && x[0] == 's' && x[1] == 'e' && x[2] == 't';
            proof {
                if b {
                    assert(x@ =~= kw_set());
                }
                if x@ == kw_set() {
                    assert(x@.len() == 3 && x@[0] == 's' && x@[1] == 'e' && x@[2] == 't');
                }
            }
            b
        },
        _ => false,
    }
}

fn is_exec_token(t: &Token) -> (b: bool)
    ensures
        b == (view_token(*t) == Tok::Ident(kw_exec())),
{
    match t {
        Token::Ident(x) => {
            let b = x.len() == 4 && x[0] == 'e' && x[1] == 'x' && x[2] == 'e' && x[3] == 'c';
            proof {
                if b {
                    assert(x@ =~= kw_exec());
                }
                if x@ == kw_exec() {
                    assert(x@.len() == 4 && x@[0] == 'e' && x@[1] == 'x' && x@[2] == 'e' && x@[3]
                        == 'c');
                }
            }
            b
        },
        _ => false,
    }
}

/// `prepend` composes: prefixing twice is prefixing the concatenation.
proof fn lemma_prepend_assoc(a: Seq<Tok>, b: Seq<Tok>, r: Result<Seq<Tok>, MulticallError>)
    ensures
        prepend(a, prepend(b, r)) == prepend(a + b, r),
{
    match r {
        Ok(x) => {
            assert(a + (b + x) =~= (a + b) + x);
        },
        Err(_) => {},
    }
}

/// A push whose effect is stated on the model sequence.
fn push_token(v: &mut Vec<Token>, t: Token)
    ensures
        view_seq(final(v)@) == view_seq(old(v)@) + seq![view_token(t)],
{
    proof {
        lemma_view_push(v@, t);
    }
    v.push(t);
}

/// One block's expansion: parse the header up to its separator, declare the
/// binding, rewrite every statement against it, and wrap the result in one
/// isolating brace scope. A nested invocation synthesizes its receiver from
/// the enclosing binding and the inherited mutability flag.
#[verifier::loop_isolation(false)]
#[verifier::rlimit(100)]
pub fn multicall_internal(input: &Vec<Token>, is_recursed: bool, is_mut: bool) -> (r: Result<
    Vec<Token>,
    MulticallError,
>)
    ensures
        match r {
            Ok(v) => expand_stream(view_seq(input@), is_recursed, is_mut) == Ok::<
                Seq<Tok>,
                MulticallError,
            >(view_seq(v@)),
            Err(e) => expand_stream(view_seq(input@), is_recursed, is_mut) == Err::<
                Seq<Tok>,
                MulticallError,
            >(e),
        },
    decreases seq_size(view_seq(input@)),
{
    let ghost s = view_seq(input@);
    let n = input.len();

    // locate the top-level header separator
    let mut ci: usize = 0;
    let mut found = false;
    while !found && ci < n
        invariant
            ci <= n,
            forall|j: int| 0 <= j < ci ==> !is_colon(s[j]),
            found ==> ci < n && is_colon(s[ci as int]),
        decreases n - ci, (if found { 0int } else { 1int }),
    {
        if is_colon_token(&input[ci]) {
            found = true;
        } else {
            ci = ci + 1;
        }
    }
    if !found {
        proof {
            lemma_find_colon(s);
        }
        return Err(MulticallError::MissingSeparator);
    }
    proof {
        lemma_find_colon_at(s, ci as int);
    }
    let ghost hdr = s.subrange(0, ci as int);
    let ghost m2s: bool = if is_recursed {
        is_mut
    } else {
        header_mut(hdr)
    };
    let ghost recv = if is_recursed {
        nested_prefix(is_mut) + hdr
    } else {
        hdr
    };
    let ghost body = s.subrange((ci + 1) as int, s.len() as int);
    proof {
        assert(expand_stream(s, is_recursed, is_mut) == (match rewrite(
            body,
            RState::Awaiting,
            m2s,
        ) {
            Err(e) => Err::<Seq<Tok>, MulticallError>(e),
            Ok(b) => Ok::<Seq<Tok>, MulticallError>(
                seq![Tok::Group(Delimiter::Brace, decl_tokens(recv) + b)],
            ),
        }));
    }

    // the mutability flag: inherited when nested, read from the receiver
    // expression at the top level
    let m2: bool = if is_recursed {
        is_mut
    } else {
        ci >= 2 && is_amp_token(&input[0]) && is_mut_token(&input[1])
    };
    proof {
        assert(m2 == m2s);
    }

    // the binding declaration
    let mut inner: Vec<Token> = Vec::new();
    push_token(&mut inner, Token::Ident(kw_let_chars()));
    push_token(&mut inner, Token::Ident(binding_chars()));
    push_token(&mut inner, Token::Punct('=', Spacing::Alone));
    if is_recursed {
        push_token(&mut inner, Token::Punct('&', Spacing::Alone));
        if is_mut {
            push_token(&mut inner, Token::Ident(kw_mut_chars()));
        }
        push_token(&mut inner, Token::Ident(binding_chars()));
        push_token(&mut inner, Token::Punct('.', Spacing::Alone));
    }
    let ghost pre = seq![
        Tok::Ident(kw_let()),
        Tok::Ident(binding_name()),
        Tok::Punct('=', Spacing::Alone),
    ] + (if is_recursed {
        nested_prefix(is_mut)
    } else {
        Seq::<Tok>::empty()
    });
    proof {
        assert(view_seq(inner@) =~= pre);
    }

    // the receiver expression, verbatim
    let mut k: usize = 0;
    proof {
        assert(view_seq(inner@) =~= pre + view_seq(input@.subrange(0, 0)));
    }
    while k < ci
        invariant
            k <= ci,
            view_seq(inner@) == pre + view_seq(input@.subrange(0, k as int)),
        decreases ci - k,
    {
        push_token(&mut inner, copy_token(&input[k]));
        proof {
            assert(input@.subrange(0, (k + 1) as int) =~= input@.subrange(0, k as int).push(
                input@[k as int],
            ));
            lemma_view_push(input@.subrange(0, k as int), input@[k as int]);
            assert(view_seq(inner@) =~= pre + view_seq(input@.subrange(0, (k + 1) as int)));
        }
        k = k + 1;
    }
    push_token(&mut inner, Token::Punct(';', Spacing::Alone));
    proof {
        lemma_view_subrange(input@, 0, ci as int);
        assert(view_seq(inner@) =~= decl_tokens(recv));
    }

    // the single left-to-right pass over the statements
    let ghost decl = view_seq(inner@);
    let ghost mut emitted: Seq<Tok> = Seq::empty();
    let mut st: RState = RState::Awaiting;
    let mut j: usize = ci + 1;
    proof {
        assert(s.subrange(j as int, n as int) == body);
        match rewrite(body, RState::Awaiting, m2s) {
            Ok(b) => {
                assert(Seq::empty() + b =~= b);
            },
            Err(_) => {},
        }
        assert(rewrite(body, RState::Awaiting, m2s) == prepend(
            emitted,
            rewrite(s.subrange(j as int, n as int), st, m2s),
        ));
    }
    while j < n
        invariant
            ci + 1 <= j <= n,
            view_seq(inner@) == decl + emitted,
            rewrite(body, RState::Awaiting, m2s) == prepend(
                emitted,
                rewrite(s.subrange(j as int, n as int), st, m2s),
            ),
        decreases n - j,
    {
        let ghost rem = s.subrange(j as int, n as int);
        let ghost rest = s.subrange((j + 1) as int, n as int);
        let ghost em0 = emitted;
        proof {
            assert(rem[0] == s[j as int]);
            assert(rem.subrange(1, rem.len() as int) =~= rest);
        }
        match &input[j] {
            Token::Group(d, ts) if st == RState::Awaiting => {
                proof {
                    lemma_seq_size_index(s, j as int);
                    assert(view_token(input@[j as int]) == Tok::Group(*d, view_seq(ts@)));
                }
                let sub = multicall_internal(ts, true, m2);
                match sub {
                    Err(e) => {
                        proof {
                            assert(expand_tok(s[j as int], m2s) == expand_stream(
                                view_seq(ts@),
                                true,
                                m2s,
                            ));
                            assert(rewrite(rem, st, m2s) == Err::<Seq<Tok>, MulticallError>(e));
                        }
                        return Err(e);
                    },
                    Ok(mut v) => {
                        let ghost g = view_seq(v@);
                        let ghost iv0 = inner@;
                        let ghost va = v@;
                        inner.append(&mut v);
                        proof {
                            lemma_view_append(iv0, va);
                            emitted = emitted + g;
                            assert(view_seq(inner@) =~= decl + emitted);
                            assert(expand_tok(s[j as int], m2s) == Ok::<
                                Seq<Tok>,
                                MulticallError,
                            >(g));
                            assert(rewrite(rem, st, m2s) == prepend(
                                g,
                                rewrite(rest, RState::Open, m2s),
                            ));
                            lemma_prepend_assoc(em0, g, rewrite(rest, RState::Open, m2s));
                        }
                        st = RState::Open;
                    },
                }
            },
            Token::Punct(c, _) if *c == ';' => {
                push_token(&mut inner, Token::Punct(';', Spacing::Alone));
                proof {
                    emitted = emitted + seq![Tok::Punct(';', Spacing::Alone)];
                    assert(view_seq(inner@) =~= decl + emitted);
                    assert(is_semi(s[j as int]));
                    lemma_prepend_assoc(
                        em0,
                        seq![Tok::Punct(';', Spacing::Alone)],
                        rewrite(rest, RState::Awaiting, m2s),
                    );
                }
                st = RState::Awaiting;
            },
            _ => {
                proof {
                    assert(!is_semi(s[j as int]));
                    assert(st == RState::Awaiting ==> !is_group(s[j as int]));
                }
                if st == RState::Awaiting && is_set_token(&input[j]) {
                    st = RState::Capturing;
                } else if st == RState::Awaiting && is_exec_token(&input[j]) {
                    st = RState::Open;
                } else if st == RState::Awaiting {
                    let mk = marker_chars();
                    let bd = binding_chars();
                    push_token(&mut inner, Token::Ident(binding_chars()));
                    push_token(&mut inner, Token::Punct('.', Spacing::Alone));
                    push_token(&mut inner, replace_tok(&input[j], &mk, &bd));
                    proof {
                        emitted = emitted + seq![
                            Tok::Ident(binding_name()),
                            Tok::Punct('.', Spacing::Alone),
                            subst1(s[j as int]),
                        ];
                        assert(view_seq(inner@) =~= decl + emitted);
                        lemma_prepend_assoc(
                            em0,
                            seq![
                                Tok::Ident(binding_name()),
                                Tok::Punct('.', Spacing::Alone),
                                subst1(s[j as int]),
                            ],
                            rewrite(rest, RState::Open, m2s),
                        );
                    }
                    st = RState::Open;
                } else if st == RState::Capturing {
                    let flip = is_eq_token(&input[j]);
                    let mk = marker_chars();
                    let bd = binding_chars();
                    push_token(&mut inner, replace_tok(&input[j], &mk, &bd));
                    let ghost st2 = if flip {
                        RState::Awaiting
                    } else {
                        RState::Capturing
                    };
                    proof {
                        emitted = emitted + seq![subst1(s[j as int])];
                        assert(view_seq(inner@) =~= decl + emitted);
                        lemma_prepend_assoc(
                            em0,
                            seq![subst1(s[j as int])],
                            rewrite(rest, st2, m2s),
                        );
                    }
                    if flip {
                        st = RState::Awaiting;
                    }
                } else {
                    let mk = marker_chars();
                    let bd = binding_chars();
                    push_token(&mut inner, replace_tok(&input[j], &mk, &bd));
                    proof {
                        emitted = emitted + seq![subst1(s[j as int])];
                        assert(view_seq(inner@) =~= decl + emitted);
                        lemma_prepend_assoc(
                            em0,
                            seq![subst1(s[j as int])],
                            rewrite(rest, RState::Open, m2s),
                        );
                    }
                }
            },
        }
        j = j + 1;
    }
    proof {
        assert(s.subrange(n as int, n as int) =~= Seq::<Tok>::empty());
    }
    if st != RState::Awaiting {
        return Err(MulticallError::UnterminatedStatement);
    }
    proof {
        assert(rewrite(body, RState::Awaiting, m2s) == Ok::<Seq<Tok>, MulticallError>(emitted))
            by {
            assert(rewrite(s.subrange(n as int, n as int), st, m2s) == Ok::<
                Seq<Tok>,
                MulticallError,
            >(Seq::<Tok>::empty()));
            assert(emitted + Seq::<Tok>::empty() =~= emitted);
        };
    }
    let ghost innerv = view_seq(inner@);
    let mut out: Vec<Token> = Vec::new();
    out.push(Token::Group(Delimiter::Brace, inner));
    proof {
        assert(view_seq(out@) =~= seq![Tok::Group(Delimiter::Brace, innerv)]);
    }
    Ok(out)
}

/// The number of top-level statement separators in a token sequence.
pub open spec fn count_seps(s: Seq<Tok>) -> nat
    decreases s,
{
    if s.len() == 0 {
        0
    } else {
        (if is_semi(s[0]) {
            1nat
        } else {
            0nat
        }) + count_seps(s.subrange(1, s.len() as int))
    }
}

/// Separators are counted piecewise over a concatenation.
proof fn lemma_count_seps_concat(a: Seq<Tok>, b: Seq<Tok>)
    ensures
        count_seps(a + b) == count_seps(a) + count_seps(b),
    decreases a.len(),
{
    if a.len() == 0 {
        assert(a + b =~= b);
    } else {
        let rest = a.subrange(1, a.len() as int);
        lemma_count_seps_concat(rest, b);
        assert((a + b).subrange(1, (a + b).len() as int) =~= rest + b);
        assert((a + b)[0] == a[0]);
    }
}

/// The separator count of a single token.
proof fn lemma_count_seps_single(t: Tok)
    ensures
        count_seps(seq![t]) == if is_semi(t) {
            1nat
        } else {
            0nat
        },
{
    assert(seq![t].subrange(1, 1) =~= Seq::<Tok>::empty());
    assert(count_seps(Seq::<Tok>::empty()) == 0);
}

/// Substitution never turns a non-separator token into a separator.
proof fn lemma_subst1_keeps_non_semi(t: Tok)
    requires
        !is_semi(t),
    ensures
        !is_semi(subst1(t)),
{
}

/// A successful expansion is a single brace group.
proof fn lemma_expand_ok_shape(inp: Seq<Tok>, nested: bool, m: bool)
    ensures
        expand_stream(inp, nested, m) matches Ok(out) ==> out.len() == 1 && is_group(out[0]),
{
}

/// Law: one output separator per input separator. A successful rewrite of a
/// block's body holds exactly as many top-level statement separators as the
/// body it was given, whatever the pass's starting state: statements map one
/// to one.
pub proof fn lemma_separator_preservation(s: Seq<Tok>, st: RState, m: bool)
    ensures
        rewrite(s, st, m) matches Ok(out) ==> count_seps(out) == count_seps(s),
    decreases s,
{
    if s.len() == 0 {
    } else {
        let t = s[0];
        let rest = s.subrange(1, s.len() as int);
        if st == RState::Awaiting && is_group(t) {
            match expand_tok(t, m) {
                Ok(g) => {
                    lemma_separator_preservation(rest, RState::Open, m);
                    match t {
                        Tok::Group(d, ts) => {
                            lemma_expand_ok_shape(ts, true, m);
                        },
                        _ => {},
                    }
                    lemma_count_seps_single(g[0]);
                    assert(g =~= seq![g[0]]);
                    match rewrite(rest, RState::Open, m) {
                        Ok(r) => {
                            lemma_count_seps_concat(g, r);
                        },
                        Err(_) => {},
                    }
                },
                Err(e) => {},
            }
        } else if is_semi(t) {
            lemma_separator_preservation(rest, RState::Awaiting, m);
            match rewrite(rest, RState::Awaiting, m) {
                Ok(r) => {
                    let p = seq![Tok::Punct(';', Spacing::Alone)];
                    lemma_count_seps_concat(p, r);
                    lemma_count_seps_single(p[0]);
                    assert(p =~= seq![p[0]]);
                },
                Err(_) => {},
            }
        } else if st == RState::Awaiting {
            if t == Tok::Ident(kw_set()) {
                lemma_separator_preservation(rest, RState::Capturing, m);
            } else if t == Tok::Ident(kw_exec()) {
                lemma_separator_preservation(rest, RState::Open, m);
            } else {
                lemma_separator_preservation(rest, RState::Open, m);
                match rewrite(rest, RState::Open, m) {
                    Ok(r) => {
                        let p = seq![
                            Tok::Ident(binding_name()),
                            Tok::Punct('.', Spacing::Alone),
                            subst1(t),
                        ];
                        lemma_subst1_keeps_non_semi(t);
                        lemma_count_seps_concat(p, r);
                        lemma_count_seps_concat(
                            seq![Tok::Ident(binding_name())],
                            seq![Tok::Punct('.', Spacing::Alone), subst1(t)],
                        );
                        lemma_count_seps_concat(
                            seq![Tok::Punct('.', Spacing::Alone)],
                            seq![subst1(t)],
                        );
                        assert(seq![Tok::Punct('.', Spacing::Alone)] + seq![subst1(t)] =~= seq![
                            Tok::Punct('.', Spacing::Alone),
                            subst1(t),
                        ]);
                        assert(seq![Tok::Ident(binding_name())] + (seq![
                            Tok::Punct('.', Spacing::Alone),
                        ] + seq![subst1(t)]) =~= p);
                        lemma_count_seps_single(Tok::Ident(binding_name()));
                        lemma_count_seps_single(Tok::Punct('.', Spacing::Alone));
                        lemma_count_seps_single(subst1(t));
                    },
                    Err(_) => {},
                }
            }
        } else {
            let st2 = if st == RState::Capturing {
                if is_eq_punct(t) {
                    RState::Awaiting
                } else {
                    RState::Capturing
                }
            } else {
                RState::Open
            };
            lemma_separator_preservation(rest, st2, m);
            match rewrite(rest, st2, m) {
                Ok(r) => {
                    lemma_subst1_keeps_non_semi(t);
                    lemma_count_seps_concat(seq![subst1(t)], r);
                    lemma_count_seps_single(subst1(t));
                },
                Err(_) => {},
            }
        }
    }
}

/// The separator count of a three-token sequence.
proof fn lemma_count_seps_three(t0: Tok, t1: Tok, t2: Tok)
    ensures
        count_seps(seq![t0, t1, t2]) == (if is_semi(t0) {
            1nat
        } else {
            0nat
        }) + (if is_semi(t1) {
            1nat
        } else {
            0nat
        }) + (if is_semi(t2) {
            1nat
        } else {
            0nat
        }),
{
    assert(seq![t1] + seq![t2] =~= seq![t1, t2]);
    assert(seq![t0] + seq![t1, t2] =~= seq![t0, t1, t2]);
    lemma_count_seps_concat(seq![t1], seq![t2]);
    lemma_count_seps_concat(seq![t0], seq![t1, t2]);
    lemma_count_seps_single(t0);
    lemma_count_seps_single(t1);
    lemma_count_seps_single(t2);
}

/// A synthesized receiver prefix holds no statement separator.
proof fn lemma_nested_prefix_no_seps(m: bool)
    ensures
        count_seps(nested_prefix(m)) == 0,
{
    if m {
        lemma_count_seps_three(
            Tok::Ident(kw_mut()),
            Tok::Ident(binding_name()),
            Tok::Punct('.', Spacing::Alone),
        );
        lemma_count_seps_concat(
            seq![Tok::Punct('&', Spacing::Alone)],
            seq![
                Tok::Ident(kw_mut()),
                Tok::Ident(binding_name()),
                Tok::Punct('.', Spacing::Alone),
            ],
        );
        lemma_count_seps_single(Tok::Punct('&', Spacing::Alone));
        assert(seq![Tok::Punct('&', Spacing::Alone)] + seq![
            Tok::Ident(kw_mut()),
            Tok::Ident(binding_name()),
            Tok::Punct('.', Spacing::Alone),
        ] =~= nested_prefix(m));
    } else {
        lemma_count_seps_three(
            Tok::Punct('&', Spacing::Alone),
            Tok::Ident(binding_name()),
            Tok::Punct('.', Spacing::Alone),
        );
        assert(seq![
            Tok::Punct('&', Spacing::Alone),
            Tok::Ident(binding_name()),
            Tok::Punct('.', Spacing::Alone),
        ] =~= nested_prefix(m));
    }
}

/// Law: the whole-invocation form of separator preservation. A successful
/// expansion is one brace scope whose contents hold exactly one separator more
/// than the whole input: the one that ends the binding declaration.
pub proof fn lemma_expansion_separator_count(inp: Seq<Tok>, nested: bool, m: bool)
    ensures
        expand_stream(inp, nested, m) matches Ok(out) ==> {
            &&& out.len() == 1
            &&& out[0] matches Tok::Group(Delimiter::Brace, inner)
            &&& count_seps(inner) == 1 + count_seps(inp)
        },
{
    match find_colon(inp) {
        Option::None => {},
        Option::Some(ci) => {
            lemma_find_colon(inp);
            let hdr = inp.subrange(0, ci);
            let body = inp.subrange(ci + 1, inp.len() as int);
            let m2 = if nested {
                m
            } else {
                header_mut(hdr)
            };
            let recv = if nested {
                nested_prefix(m) + hdr
            } else {
                hdr
            };
            match rewrite(body, RState::Awaiting, m2) {
                Err(e) => {},
                Ok(bout) => {
                    lemma_separator_preservation(body, RState::Awaiting, m2);
                    // the input splits as header, colon, body
                    assert(hdr + seq![inp[ci]] + body =~= inp);
                    lemma_count_seps_concat(hdr + seq![inp[ci]], body);
                    lemma_count_seps_concat(hdr, seq![inp[ci]]);
                    lemma_count_seps_single(inp[ci]);
                    // the declaration adds exactly one separator to the receiver's own
                    let pre3 = seq![
                        Tok::Ident(kw_let()),
                        Tok::Ident(binding_name()),
                        Tok::Punct('=', Spacing::Alone),
                    ];
                    lemma_count_seps_three(pre3[0], pre3[1], pre3[2]);
                    assert(seq![pre3[0], pre3[1], pre3[2]] =~= pre3);
                    lemma_count_seps_concat(pre3, recv);
                    lemma_count_seps_concat(pre3 + recv, seq![Tok::Punct(';', Spacing::Alone)]);
                    lemma_count_seps_single(Tok::Punct(';', Spacing::Alone));
                    assert((pre3 + recv) + seq![Tok::Punct(';', Spacing::Alone)] =~= decl_tokens(
                        recv,
                    ));
                    if nested {
                        lemma_nested_prefix_no_seps(m);
                        lemma_count_seps_concat(nested_prefix(m), hdr);
                    }
                    lemma_count_seps_concat(decl_tokens(recv), bout);
                },
            }
        },
    }
}

/// Law: an input without a top-level bare colon is rejected with the
/// missing-separator condition and produces no output.
pub proof fn lemma_no_separator_rejected(inp: Seq<Tok>, nested: bool, m: bool)
    requires
        forall|j: int| 0 <= j < inp.len() ==> !is_colon(inp[j]),
    ensures
        expand_stream(inp, nested, m) == Err::<Seq<Tok>, MulticallError>(
            MulticallError::MissingSeparator,
        ),
{
    lemma_find_colon(inp);
    match find_colon(inp) {
        Option::None => {},
        Option::Some(ci) => {
            assert(!is_colon(inp[ci]));
        },
    }
}

/// Law: nested-block mutability propagation. A nested sub-block synthesizes
/// its receiver reference from the inherited flag alone, never from its own
/// header tokens: the emitted declaration is `let <binding> = &` followed by
/// the exclusivity marker exactly when the inherited flag is set, and then the
/// enclosing binding.
pub proof fn lemma_mutability_propagation(inp: Seq<Tok>, m: bool)
    ensures
        expand_stream(inp, true, m) matches Ok(out) ==> {
            &&& out.len() == 1
            &&& out[0] matches Tok::Group(Delimiter::Brace, inner)
            &&& inner.len() >= 5
            &&& inner[0] == Tok::Ident(kw_let())
            &&& inner[1] == Tok::Ident(binding_name())
            &&& inner[2] == Tok::Punct('=', Spacing::Alone)
            &&& inner[3] == Tok::Punct('&', Spacing::Alone)
            &&& (m <==> inner[4] == Tok::Ident(kw_mut()))
            &&& (!m ==> inner[4] == Tok::Ident(binding_name()))
        },
{
    match find_colon(inp) {
        Option::None => {},
        Option::Some(ci) => {
            lemma_find_colon(inp);
            let hdr = inp.subrange(0, ci);
            let recv = nested_prefix(m) + hdr;
            match rewrite(inp.subrange(ci + 1, inp.len() as int), RState::Awaiting, m) {
                Err(e) => {},
                Ok(body) => {
                    let inner = decl_tokens(recv) + body;
                    assert(inner[3] == nested_prefix(m)[0]);
                    assert(inner[4] == nested_prefix(m)[1]);
                    assert(kw_mut().len() == 3 && binding_name().len() == 18);
                },
            }
        },
    }
}

/// Law: the inherited flag is handed unchanged to every sub-block one level
/// down. A delimited group at a statement position expands by re-entering the
/// pipeline on the group's contents with the same flag the enclosing pass was
/// given.
pub proof fn lemma_subblock_inherits_flag(s: Seq<Tok>, m: bool, d: Delimiter, ts: Seq<Tok>)
    requires
        s.len() > 0,
        s[0] == Tok::Group(d, ts),
    ensures
        rewrite(s, RState::Awaiting, m) == (match expand_stream(ts, true, m) {
            Ok(g) => prepend(g, rewrite(s.subrange(1, s.len() as int), RState::Open, m)),
            Err(e) => Err(e),
        }),
{
    let rest = s.subrange(1, s.len() as int);
    assert(is_group(s[0]));
    assert(expand_tok(s[0], m) == expand_stream(ts, true, m));
    assert(rewrite(s, RState::Awaiting, m) == (match expand_tok(s[0], m) {
        Ok(g) => prepend(g, rewrite(rest, RState::Open, m)),
        Err(e) => Err::<Seq<Tok>, MulticallError>(e),
    }));
}

/// The engine's entry point: expand one whole invocation. The receiver
/// expression is everything before the first bare colon; its statements are
/// rewritten against the reserved binding, and the result is one isolating
/// brace scope.
pub fn multicall(input: &Vec<Token>) -> (r: Result<Vec<Token>, MulticallError>)
    ensures
        match r {
            Ok(v) => multicall_spec(view_seq(input@)) == Ok::<Seq<Tok>, MulticallError>(
                view_seq(v@),
            ),
            Err(e) => multicall_spec(view_seq(input@)) == Err::<Seq<Tok>, MulticallError>(e),
        },
{
    multicall_internal(input, false, false)
}

} // verus!
