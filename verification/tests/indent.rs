use fossil::indent::{emit_indent_changes, lex_with_indents, token_to_kind};
use fossil::lexer::Token;
use fossil::kind::SyntaxKind;
use fossil::kind::SyntaxKind::{
    INTERP_OPEN, RBRACE, STRING_CLOSE, STRING_OPEN, STRING_TEXT, ASSIGN, AT_ATTR, COMMENT, DEDENT, DEFINE, DOT, ERROR, IDENT, INDENT, LPAREN, NEWLINE, RPAREN,
    STRING, WHITESPACE,
};

fn kinds(input: &str) -> Vec<SyntaxKind> {
    lex_with_indents(input)
        .into_iter()
        .map(|t| t.kind)
        .filter(|k| !matches!(k, WHITESPACE | NEWLINE | COMMENT))
        .collect()
}

#[test]
fn flat_no_indents() {
    let input = "User := io.csv(\"u.csv\")\n";
    assert_eq!(
        kinds(input),
        vec![IDENT, DEFINE, IDENT, DOT, IDENT, LPAREN, STRING, RPAREN]
    );
}

#[test]
fn one_indent_one_dedent() {
    let input = "User\n    @subject = User.id\n";
    assert_eq!(
        kinds(input),
        vec![IDENT, INDENT, AT_ATTR, ASSIGN, IDENT, DOT, IDENT, DEDENT]
    );
}

#[test]
fn unlexable_byte_becomes_an_error_token_carrying_its_text() {
    let out = lex_with_indents("#");
    assert_eq!(out.len(), 1);
    assert_eq!(out[0].kind, ERROR);
    assert_eq!(out[0].text, "#");
    assert_eq!(out[0].range, 0..1);
    let input = "a #\n";
    let rebuilt: String = lex_with_indents(input)
        .iter()
        .map(|t| t.text.as_str())
        .collect();
    assert_eq!(rebuilt, input);
}

#[test]
fn unlexable_byte_at_column_zero_closes_the_block() {
    let input = "User\n    @subject = User.id\n#\n";
    assert_eq!(
        kinds(input),
        vec![IDENT, INDENT, AT_ATTR, ASSIGN, IDENT, DOT, IDENT, DEDENT, ERROR]
    );
}

#[test]
fn nested_indent_double_dedent() {
    let input = "A\n    B\n        C\nD\n";
    assert_eq!(
        kinds(input),
        vec![IDENT, INDENT, IDENT, INDENT, IDENT, DEDENT, DEDENT, IDENT]
    );
}

#[test]
fn blank_line_does_not_affect_stack() {
    let input = "User\n    @subject = User.id\n\n    name = User.n\n";
    assert_eq!(
        kinds(input),
        vec![
            IDENT, INDENT, AT_ATTR, ASSIGN, IDENT, DOT, IDENT, IDENT, ASSIGN, IDENT, DOT, IDENT,
            DEDENT
        ]
    );
}

// ── own checks ──

fn count(input: &str, k: SyntaxKind) -> usize {
    lex_with_indents(input).iter().filter(|t| t.kind == k).count()
}

#[test]
fn the_stream_gives_the_source_back() {
    for input in [
        "A\n    B\n        C\nD\n",
        "x = \"a{b}c{{d}}\"\n  y\n",
        "é # ` $\n\t\tz\n",
        "",
    ] {
        let rebuilt: String = lex_with_indents(input)
            .iter()
            .map(|t| t.text.as_str())
            .collect();
        assert_eq!(rebuilt, input);
    }
}

#[test]
fn indents_and_dedents_balance() {
    for input in [
        "A\n    B\n        C\n",
        "A\n    B\n  C\n",
        "A\n    B\n        C\n    D\nE\n      F",
    ] {
        assert_eq!(count(input, INDENT), count(input, DEDENT), "{input:?}");
    }
}

#[test]
fn an_inconsistent_dedent_is_an_error_token() {
    let out = kinds("A\n    B\n  C\n");
    assert_eq!(out, vec![IDENT, INDENT, IDENT, DEDENT, ERROR, IDENT]);
}

#[test]
fn a_string_with_a_hole_is_carved() {
    let out: Vec<SyntaxKind> = lex_with_indents("\"a{b}c\"").into_iter().map(|t| t.kind).collect();
    assert_eq!(
        out,
        vec![STRING_OPEN, STRING_TEXT, INTERP_OPEN, IDENT, RBRACE, STRING_TEXT, STRING_CLOSE]
    );
    let plain: Vec<SyntaxKind> = lex_with_indents("\"a{{b}}c\"").into_iter().map(|t| t.kind).collect();
    assert_eq!(plain, vec![STRING]);
}

#[test]
fn booleans_share_a_kind_and_other_tokens_do_not() {
    assert_eq!(kinds("true false"), vec![SyntaxKind::BOOL, SyntaxKind::BOOL]);
    assert_eq!(kinds("a : b"), vec![IDENT, SyntaxKind::SHAPE_SEP, IDENT]);
    assert_eq!(kinds("a ? b"), vec![IDENT, SyntaxKind::T_QUESTION, IDENT]);
    assert_eq!(kinds("a == b"), vec![IDENT, SyntaxKind::EQ, IDENT]);
    assert_eq!(kinds("a = b"), vec![IDENT, ASSIGN, IDENT]);
}

#[test]
fn a_dedent_to_an_open_level_pops_exactly_the_deeper_ones() {
    let out = kinds("A\n  B\n    C\n      D\n  E\n");
    assert_eq!(
        out,
        vec![IDENT, INDENT, IDENT, INDENT, IDENT, INDENT, IDENT, DEDENT, DEDENT, IDENT, DEDENT]
    );
    let out = kinds("A\n  B\n    C\n   D\n");
    assert_eq!(out, vec![IDENT, INDENT, IDENT, INDENT, IDENT, DEDENT, ERROR, IDENT, DEDENT]);
}

#[test]
fn the_non_empty_tokens_tile_the_input() {
    for input in ["A\n    B\n  C\n", "x := \"a{b}c\" # c\n", "#$\n  y\n", ""] {
        let toks = lex_with_indents(input);
        let mut at = 0;
        for t in toks.iter().filter(|t| t.range.start < t.range.end) {
            assert_eq!(t.range.start, at, "{input:?}");
            assert_eq!(&input[t.range.start..t.range.end], t.text);
            at = t.range.end;
        }
        assert_eq!(at, input.len(), "{input:?}");
    }
}

#[test]
fn token_kinds_follow_the_lexer() {
    assert_eq!(token_to_kind(Some(Token::True)), SyntaxKind::BOOL);
    assert_eq!(token_to_kind(Some(Token::False)), SyntaxKind::BOOL);
    assert_eq!(token_to_kind(Some(Token::Colon)), SyntaxKind::SHAPE_SEP);
    assert_eq!(token_to_kind(Some(Token::Question)), SyntaxKind::T_QUESTION);
    assert_eq!(token_to_kind(None), ERROR);
}

#[test]
fn an_indent_change_pushes_or_pops_the_stack() {
    let input = "a\n    b\nc";
    let mut out = Vec::new();
    let mut stack: Vec<usize> = vec![0];
    emit_indent_changes(&mut out, &mut stack, 4, 2, input);
    assert_eq!(stack, vec![0, 4]);
    assert_eq!(out.iter().map(|t| t.kind).collect::<Vec<_>>(), vec![INDENT]);
    emit_indent_changes(&mut out, &mut stack, 0, 8, input);
    assert_eq!(stack, vec![0]);
    assert_eq!(out.iter().map(|t| t.kind).collect::<Vec<_>>(), vec![INDENT, DEDENT]);
    emit_indent_changes(&mut out, &mut stack, 0, 8, input);
    assert_eq!(out.len(), 2);
}
