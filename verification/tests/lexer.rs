use fossil::lexer::{raw_lex, raw_lex_lossless, Token};

fn just_kinds(input: &str) -> Vec<Token> {
    raw_lex(input).into_iter().map(|(t, _)| t).collect()
}

#[test]
fn the_prefix_declaration_is_no_longer_one_token_run() {
    let kinds = just_kinds("prefix ex: <https://example.org/>\n");
    let non_trivia: Vec<_> = kinds
        .into_iter()
        .filter(|t| !matches!(t, Token::Whitespace | Token::Newline))
        .collect();
    assert_eq!(
        non_trivia,
        vec![
            Token::Ident,
            Token::Ident,
            Token::Colon,
            Token::Lt,
            Token::Ident,
            Token::Colon,
            Token::Comment,
        ]
    );
}

#[test]
fn lexes_source_def() {
    let kinds = just_kinds(r#"users := io.csv("examples/users.csv")"#);
    assert_eq!(
        kinds,
        vec![
            Token::Ident,
            Token::Whitespace,
            Token::Define,
            Token::Whitespace,
            Token::Ident,
            Token::Dot,
            Token::Ident,
            Token::LParen,
            Token::String,
            Token::RParen,
        ]
    );
}

#[test]
fn a_backtick_is_not_a_token() {
    assert_eq!(just_kinds("`"), vec![]);
    assert_eq!(raw_lex_lossless("`"), vec![(None, 0..1)]);
    assert_eq!(raw_lex_lossless("$"), vec![(None, 0..1)]);
}

#[test]
fn an_absolute_iri_is_not_a_token() {
    let kinds = just_kinds("<a>");
    assert_eq!(kinds, vec![Token::Lt, Token::Ident, Token::Gt]);
}

#[test]
fn from_keyword_distinct_from_ident() {
    let kinds = just_kinds("from users");
    assert_eq!(kinds, vec![Token::KwFrom, Token::Whitespace, Token::Ident]);
}

#[test]
fn pipe_is_not_a_token() {
    assert_eq!(just_kinds("|>"), vec![Token::Gt]);
}

#[test]
fn arrow_and_double_colon_are_not_tokens() {
    assert_eq!(just_kinds("->"), vec![Token::Minus, Token::Gt]);
    assert_eq!(just_kinds("::"), vec![Token::Colon, Token::Colon]);
}

#[test]
fn lexes_eq_and_neq() {
    assert_eq!(just_kinds("=="), vec![Token::Eq]);
    assert_eq!(just_kinds("!="), vec![Token::Neq]);
}

#[test]
fn lexes_comparison_pairs() {
    assert_eq!(just_kinds("<="), vec![Token::Le]);
    assert_eq!(just_kinds(">="), vec![Token::Ge]);
    assert_eq!(just_kinds("<"), vec![Token::Lt]);
    assert_eq!(just_kinds(">"), vec![Token::Gt]);
}

#[test]
fn lexes_arithmetic_operators() {
    assert_eq!(just_kinds("+"), vec![Token::Plus]);
    assert_eq!(just_kinds("-"), vec![Token::Minus]);
    assert_eq!(just_kinds("*"), vec![Token::Star]);
    assert_eq!(just_kinds("/"), vec![Token::Slash]);
    assert_eq!(just_kinds("%"), vec![Token::Percent]);
}

#[test]
fn lexes_question() {
    assert_eq!(just_kinds("?"), vec![Token::Question]);
}

#[test]
fn ampersand_is_not_a_token() {
    assert_eq!(just_kinds("&"), vec![]);
    assert_eq!(raw_lex_lossless("&"), vec![(None, 0..1)]);
}

#[test]
fn unlexable_bytes_keep_their_ranges() {
    assert_eq!(raw_lex_lossless("#"), vec![(None, 0..1)]);
    assert_eq!(raw_lex_lossless("##"), vec![(None, 0..1), (None, 1..2)]);
    assert_eq!(
        raw_lex_lossless("a#b"),
        vec![
            (Some(Token::Ident), 0..1),
            (None, 1..2),
            (Some(Token::Ident), 2..3),
        ]
    );
    assert_eq!(just_kinds("a#b"), vec![Token::Ident, Token::Ident]);
}

#[test]
fn lexes_at_attr() {
    assert_eq!(just_kinds("@dcat"), vec![Token::AtAttr]);
    assert_eq!(just_kinds("@_x"), vec![Token::AtAttr]);
    assert_eq!(just_kinds("@export"), vec![Token::AtAttr]);
}

#[test]
fn lexes_float_vs_integer() {
    assert_eq!(just_kinds("1.5"), vec![Token::Float]);
    assert_eq!(just_kinds("42"), vec![Token::Integer]);
    assert_eq!(just_kinds("1_000.5_5"), vec![Token::Float]);
}

#[test]
fn lexes_new_keywords() {
    assert_eq!(just_kinds("and"), vec![Token::KwAnd]);
    assert_eq!(just_kinds("or"), vec![Token::KwOr]);
    assert_eq!(just_kinds("not"), vec![Token::KwNot]);
}

#[test]
fn true_and_false_are_literals_and_not_identifiers() {
    assert_eq!(just_kinds("true"), vec![Token::True]);
    assert_eq!(just_kinds("false"), vec![Token::False]);
    assert_eq!(just_kinds("truestory"), vec![Token::Ident]);
    assert_eq!(just_kinds("falsey"), vec![Token::Ident]);
    assert_eq!(just_kinds("is_true"), vec![Token::Ident]);
}

#[test]
fn in_use_as_iri_and_prefix_are_ordinary_identifiers() {
    assert_eq!(just_kinds("in"), vec![Token::Ident]);
    assert_eq!(just_kinds("use"), vec![Token::Ident]);
    assert_eq!(just_kinds("as"), vec![Token::Ident]);
    assert_eq!(just_kinds("iri"), vec![Token::Ident]);
    assert_eq!(just_kinds("prefix"), vec![Token::Ident]);
}

#[test]
fn the_twelve_catalogue_words_are_ordinary_identifiers() {
    for word in [
        "where", "select", "join", "on", "io", "str", "seq", "parse", "clean", "validate", "math",
        "anon",
    ] {
        assert_eq!(
            just_kinds(word),
            vec![Token::Ident],
            "`{word}` must lex as an IDENT"
        );
    }
}

#[test]
fn lexes_double_le_correctly() {
    assert_eq!(just_kinds("<<"), vec![Token::Lt, Token::Lt]);
    assert_eq!(just_kinds("<"), vec![Token::Lt]);
    assert_eq!(just_kinds("<="), vec![Token::Le]);
}

#[test]
fn underscore_is_an_ordinary_ident() {
    assert_eq!(just_kinds("_"), vec![Token::Ident]);
    assert_eq!(just_kinds("_foo"), vec![Token::Ident]);
}

#[test]
fn a_chain_of_pipes_lexes_no_pipe_at_all() {
    let kinds = just_kinds("a |> b |> c");
    let non_trivia: Vec<_> = kinds
        .into_iter()
        .filter(|t| !matches!(t, Token::Whitespace))
        .collect();
    assert_eq!(
        non_trivia,
        vec![
            Token::Ident,
            Token::Gt,
            Token::Ident,
            Token::Gt,
            Token::Ident,
        ]
    );
}

#[test]
fn precedence_walk_lexes_every_operator() {
    let kinds = just_kinds("a or b and c == d + e * f");
    let non_trivia: Vec<_> = kinds
        .into_iter()
        .filter(|t| !matches!(t, Token::Whitespace))
        .collect();
    assert_eq!(
        non_trivia,
        vec![
            Token::Ident,
            Token::KwOr,
            Token::Ident,
            Token::KwAnd,
            Token::Ident,
            Token::Eq,
            Token::Ident,
            Token::Plus,
            Token::Ident,
            Token::Star,
            Token::Ident,
        ]
    );
}

// ── own checks ──

#[test]
fn the_lossless_pass_covers_every_byte_in_order() {
    let input = "Usr := io.csv(\"a b\") # é\n  x = 1_0.5_0 >= y";
    let toks = raw_lex_lossless(input);
    let mut at = 0;
    for (_, r) in &toks {
        assert_eq!(r.start, at);
        assert!(r.end > r.start);
        at = r.end;
    }
    assert_eq!(at, input.len());
}

#[test]
fn a_multibyte_character_is_one_unlexable_run_of_its_bytes() {
    assert_eq!(raw_lex_lossless("é"), vec![(None, 0..2)]);
}

#[test]
fn an_unterminated_string_runs_to_the_end() {
    assert_eq!(raw_lex_lossless("\"abc"), vec![(None, 0..4)]);
}

#[test]
fn a_comment_runs_to_the_line_break() {
    assert_eq!(
        raw_lex_lossless("// hi\nx"),
        vec![
            (Some(Token::Comment), 0..5),
            (Some(Token::Newline), 5..6),
            (Some(Token::Ident), 6..7),
        ]
    );
}

#[test]
fn the_longest_operator_wins() {
    assert_eq!(just_kinds(":="), vec![Token::Define]);
    assert_eq!(just_kinds(": ="), vec![Token::Colon, Token::Whitespace, Token::Assign]);
}
