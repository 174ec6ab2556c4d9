use multicall::{
    multicall, recursive_replace, Delimiter, MulticallError, Spacing, Token,
};

const BIND: &str = "__multicall_item__";

fn chars(s: &str) -> Vec<char> {
    s.chars().collect()
}

fn ident(s: &str) -> Token {
    Token::Ident(chars(s))
}

fn lit(s: &str) -> Token {
    Token::Literal(chars(s))
}

fn punct(c: char) -> Token {
    Token::Punct(c, Spacing::Alone)
}

fn joint(c: char) -> Token {
    Token::Punct(c, Spacing::Joint)
}

fn paren(ts: Vec<Token>) -> Token {
    Token::Group(Delimiter::Parenthesis, ts)
}

fn brace(ts: Vec<Token>) -> Token {
    Token::Group(Delimiter::Brace, ts)
}

fn bracket(ts: Vec<Token>) -> Token {
    Token::Group(Delimiter::Bracket, ts)
}

fn colon() -> Token {
    punct(':')
}

fn semi() -> Token {
    punct(';')
}

fn decl(recv: Vec<Token>) -> Vec<Token> {
    let mut v = vec![ident("let"), ident(BIND), punct('=')];
    v.extend(recv);
    v.push(semi());
    v
}

fn count_top_semis(ts: &[Token]) -> usize {
    ts.iter()
        .filter(|t| matches!(t, Token::Punct(';', _)))
        .count()
}

#[test]
fn implicit_call_is_prefixed() {
    let input = vec![
        ident("obj"),
        colon(),
        ident("foo"),
        paren(vec![lit("1"), punct(','), lit("2")]),
        semi(),
    ];
    let mut inner = decl(vec![ident("obj")]);
    inner.extend(vec![
        ident(BIND),
        punct('.'),
        ident("foo"),
        paren(vec![lit("1"), punct(','), lit("2")]),
        semi(),
    ]);
    assert_eq!(multicall(&input), Ok(vec![brace(inner)]));
}

#[test]
fn set_capture_leaves_target_unprefixed() {
    let input = vec![
        ident("obj"),
        colon(),
        ident("set"),
        ident("x"),
        punct('='),
        ident("foo"),
        paren(vec![]),
        semi(),
    ];
    let mut inner = decl(vec![ident("obj")]);
    inner.extend(vec![
        ident("x"),
        punct('='),
        ident(BIND),
        punct('.'),
        ident("foo"),
        paren(vec![]),
        semi(),
    ]);
    assert_eq!(multicall(&input), Ok(vec![brace(inner)]));
}

#[test]
fn exec_passthrough_adds_no_prefix() {
    let input = vec![
        ident("obj"),
        colon(),
        ident("exec"),
        ident("bar"),
        paren(vec![punct('#')]),
        semi(),
    ];
    let mut inner = decl(vec![ident("obj")]);
    inner.extend(vec![
        ident("bar"),
        paren(vec![ident(BIND)]),
        semi(),
    ]);
    assert_eq!(multicall(&input), Ok(vec![brace(inner)]));
}

#[test]
fn compound_assignment_prefixes_only_after_eq() {
    let input = vec![
        ident("obj"),
        colon(),
        ident("set"),
        ident("x"),
        joint('+'),
        punct('='),
        ident("foo"),
        paren(vec![]),
        semi(),
    ];
    let mut inner = decl(vec![ident("obj")]);
    inner.extend(vec![
        ident("x"),
        joint('+'),
        punct('='),
        ident(BIND),
        punct('.'),
        ident("foo"),
        paren(vec![]),
        semi(),
    ]);
    assert_eq!(multicall(&input), Ok(vec![brace(inner)]));
}

#[test]
fn full_scenario_expands_to_specified_scope() {
    // &mut obj: a = 5; { b: inc(); }; exec print(#.a);
    let input = vec![
        punct('&'),
        ident("mut"),
        ident("obj"),
        colon(),
        ident("a"),
        punct('='),
        lit("5"),
        semi(),
        brace(vec![
            ident("b"),
            colon(),
            ident("inc"),
            paren(vec![]),
            semi(),
        ]),
        semi(),
        ident("exec"),
        ident("print"),
        paren(vec![joint('#'), punct('.'), ident("a")]),
        semi(),
    ];
    let mut nested = decl(vec![
        punct('&'),
        ident("mut"),
        ident(BIND),
        punct('.'),
        ident("b"),
    ]);
    nested.extend(vec![
        ident(BIND),
        punct('.'),
        ident("inc"),
        paren(vec![]),
        semi(),
    ]);
    let mut inner = decl(vec![punct('&'), ident("mut"), ident("obj")]);
    inner.extend(vec![ident(BIND), punct('.'), ident("a"), punct('='), lit("5"), semi()]);
    inner.extend(vec![brace(nested), semi()]);
    inner.extend(vec![
        ident("print"),
        paren(vec![ident(BIND), punct('.'), ident("a")]),
        semi(),
    ]);
    assert_eq!(multicall(&input), Ok(vec![brace(inner)]));
}

#[test]
fn missing_separator_fails_without_output() {
    // obj a = 5;  -- no colon anywhere
    let input = vec![ident("obj"), ident("a"), punct('='), lit("5"), semi()];
    assert_eq!(multicall(&input), Err(MulticallError::MissingSeparator));
}

#[test]
fn unterminated_statement_is_rejected() {
    // obj: a = 5  -- the final separator is missing
    let input = vec![ident("obj"), colon(), ident("a"), punct('='), lit("5")];
    assert_eq!(multicall(&input), Err(MulticallError::UnterminatedStatement));
}

#[test]
fn unterminated_statement_in_nested_block_propagates() {
    // obj: { b: x }; -- the nested statement is unterminated
    let input = vec![
        ident("obj"),
        colon(),
        brace(vec![ident("b"), colon(), ident("x")]),
        semi(),
    ];
    assert_eq!(multicall(&input), Err(MulticallError::UnterminatedStatement));
}

#[test]
fn empty_body_yields_declaration_only() {
    let input = vec![ident("obj"), colon()];
    assert_eq!(multicall(&input), Ok(vec![brace(decl(vec![ident("obj")]))]));
}

#[test]
fn empty_placeholder_marker_is_rejected() {
    let r = recursive_replace(&ident("x"), &vec![], &chars("y"));
    assert_eq!(r, Err(MulticallError::InvalidPlaceholder));
}

#[test]
fn substitution_replaces_marker_and_embedded_marker() {
    let t = paren(vec![joint('#'), ident("pre#post"), lit("#")]);
    let once = recursive_replace(&t, &chars("#"), &chars(BIND)).unwrap();
    assert_eq!(
        once,
        paren(vec![ident(BIND), ident(&format!("pre{}post", BIND)), lit("#")])
    );
}

#[test]
fn substitution_twice_is_substitution_once() {
    let t = paren(vec![joint('#'), ident("pre#post"), lit("#"), punct('+')]);
    let once = recursive_replace(&t, &chars("#"), &chars(BIND)).unwrap();
    let twice = recursive_replace(&once, &chars("#"), &chars(BIND)).unwrap();
    assert_eq!(twice, once);
}

#[test]
fn separator_count_is_preserved() {
    // obj: a;; b;  -- three top-level separators in the body
    let input = vec![
        ident("obj"),
        colon(),
        ident("a"),
        semi(),
        semi(),
        ident("b"),
        semi(),
    ];
    let out = multicall(&input).unwrap();
    let inner = match &out[0] {
        Token::Group(Delimiter::Brace, ts) => ts,
        other => panic!("expected a brace scope, got {:?}", other),
    };
    // one separator ends the binding declaration; the body keeps its three
    assert_eq!(count_top_semis(inner), 1 + 3);
}

#[test]
fn nested_blocks_inherit_the_mutability_flag() {
    // &mut obj: { b: { c: x(); }; };
    let deep = brace(vec![
        ident("c"),
        colon(),
        ident("x"),
        paren(vec![]),
        semi(),
    ]);
    let mid = brace(vec![ident("b"), colon(), deep, semi()]);
    let input = vec![
        punct('&'),
        ident("mut"),
        ident("obj"),
        colon(),
        mid,
        semi(),
    ];
    let mut deep_inner = decl(vec![
        punct('&'),
        ident("mut"),
        ident(BIND),
        punct('.'),
        ident("c"),
    ]);
    deep_inner.extend(vec![
        ident(BIND),
        punct('.'),
        ident("x"),
        paren(vec![]),
        semi(),
    ]);
    let mut mid_inner = decl(vec![
        punct('&'),
        ident("mut"),
        ident(BIND),
        punct('.'),
        ident("b"),
    ]);
    mid_inner.extend(vec![brace(deep_inner), semi()]);
    let mut inner = decl(vec![punct('&'), ident("mut"), ident("obj")]);
    inner.extend(vec![brace(mid_inner), semi()]);
    assert_eq!(multicall(&input), Ok(vec![brace(inner)]));
}

#[test]
fn nested_blocks_without_mut_synthesize_shared_reference() {
    // obj: { b: x(); };
    let input = vec![
        ident("obj"),
        colon(),
        brace(vec![ident("b"), colon(), ident("x"), paren(vec![]), semi()]),
        semi(),
    ];
    let mut nested = decl(vec![punct('&'), ident(BIND), punct('.'), ident("b")]);
    nested.extend(vec![ident(BIND), punct('.'), ident("x"), paren(vec![]), semi()]);
    let mut inner = decl(vec![ident("obj")]);
    inner.extend(vec![brace(nested), semi()]);
    assert_eq!(multicall(&input), Ok(vec![brace(inner)]));
}

#[test]
fn mutability_needs_reference_marker_first() {
    // mut obj: { b: x(); };  -- no reference marker, so the flag stays off
    let input = vec![
        ident("mut"),
        ident("obj"),
        colon(),
        brace(vec![ident("b"), colon(), ident("x"), paren(vec![]), semi()]),
        semi(),
    ];
    let mut nested = decl(vec![punct('&'), ident(BIND), punct('.'), ident("b")]);
    nested.extend(vec![ident(BIND), punct('.'), ident("x"), paren(vec![]), semi()]);
    let mut inner = decl(vec![ident("mut"), ident("obj")]);
    inner.extend(vec![brace(nested), semi()]);
    assert_eq!(multicall(&input), Ok(vec![brace(inner)]));
}

#[test]
fn capture_passes_joined_eq_through_unprefixed() {
    // obj: set x == y;  -- `==` lexes as a joined `=` then a lone `=`.
    // The joined one passes through without ending the target; the lone one
    // ends it, so the token after it is prefixed.
    let input = vec![
        ident("obj"),
        colon(),
        ident("set"),
        ident("x"),
        joint('='),
        punct('='),
        ident("y"),
        semi(),
    ];
    let mut inner = decl(vec![ident("obj")]);
    inner.extend(vec![
        ident("x"),
        joint('='),
        punct('='),
        ident(BIND),
        punct('.'),
        ident("y"),
        semi(),
    ]);
    assert_eq!(multicall(&input), Ok(vec![brace(inner)]));
}

#[test]
fn capture_target_with_fat_arrow_is_not_ended_by_joined_eq() {
    // obj: set m => v = foo();  -- the `=` of `=>` is joined and passes
    // through; the later lone `=` ends the target.
    let input = vec![
        ident("obj"),
        colon(),
        ident("set"),
        ident("m"),
        joint('='),
        punct('>'),
        ident("v"),
        punct('='),
        ident("foo"),
        paren(vec![]),
        semi(),
    ];
    let mut inner = decl(vec![ident("obj")]);
    inner.extend(vec![
        ident("m"),
        joint('='),
        punct('>'),
        ident("v"),
        punct('='),
        ident(BIND),
        punct('.'),
        ident("foo"),
        paren(vec![]),
        semi(),
    ]);
    assert_eq!(multicall(&input), Ok(vec![brace(inner)]));
}

#[test]
fn set_target_may_span_several_tokens() {
    // obj: set arr[0] = foo();
    let input = vec![
        ident("obj"),
        colon(),
        ident("set"),
        ident("arr"),
        bracket(vec![lit("0")]),
        punct('='),
        ident("foo"),
        paren(vec![]),
        semi(),
    ];
    let mut inner = decl(vec![ident("obj")]);
    inner.extend(vec![
        ident("arr"),
        bracket(vec![lit("0")]),
        punct('='),
        ident(BIND),
        punct('.'),
        ident("foo"),
        paren(vec![]),
        semi(),
    ]);
    assert_eq!(multicall(&input), Ok(vec![brace(inner)]));
}

#[test]
fn nested_block_scope_is_always_braced() {
    // obj: [ b: ];  -- a bracketed sub-block still emits a brace scope
    let input = vec![
        ident("obj"),
        colon(),
        bracket(vec![ident("b"), colon()]),
        semi(),
    ];
    let nested = decl(vec![punct('&'), ident(BIND), punct('.'), ident("b")]);
    let mut inner = decl(vec![ident("obj")]);
    inner.extend(vec![brace(nested), semi()]);
    assert_eq!(multicall(&input), Ok(vec![brace(inner)]));
}

#[test]
fn capture_without_assignment_passes_through() {
    // obj: set x;
    let input = vec![ident("obj"), colon(), ident("set"), ident("x"), semi()];
    let mut inner = decl(vec![ident("obj")]);
    inner.extend(vec![ident("x"), semi()]);
    assert_eq!(multicall(&input), Ok(vec![brace(inner)]));
}

#[test]
fn marker_in_implicit_statement_arguments_is_substituted() {
    // obj: push(#);
    let input = vec![
        ident("obj"),
        colon(),
        ident("push"),
        paren(vec![punct('#')]),
        semi(),
    ];
    let mut inner = decl(vec![ident("obj")]);
    inner.extend(vec![
        ident(BIND),
        punct('.'),
        ident("push"),
        paren(vec![ident(BIND)]),
        semi(),
    ]);
    assert_eq!(multicall(&input), Ok(vec![brace(inner)]));
}
