use fossil::diag::{ParseDiagnostic, Severity, Span};
use fossil::kind::SyntaxKind;
use fossil::retired;

#[test]
fn expected_token_renders_message() {
    let d = ParseDiagnostic::ExpectedToken {
        want: SyntaxKind::KW_FROM,
        got: SyntaxKind::IDENT,
        span: Span::new(10, 14),
    };
    let out = d.to_diagnostic();
    assert!(matches!(out.severity, Severity::Error));
    assert!(out.message.contains("KW_FROM"));
    assert!(out.message.contains("IDENT"));
    assert_eq!(out.span.start, 10);
    assert_eq!(out.span.end, 14);
}

#[test]
fn unexpected_token_renders_generic_message() {
    let d = ParseDiagnostic::UnexpectedToken { span: Span::new(0, 1) };
    let out = d.to_diagnostic();
    assert!(out.message.contains("unexpected token"));
}

#[test]
fn unlexable_character_names_the_character() {
    let d = ParseDiagnostic::UnlexableCharacter { text: "#".to_string(), span: Span::new(0, 1) };
    let out = d.to_diagnostic();
    assert!(matches!(out.severity, Severity::Error));
    assert!(out.message.contains('#'), "the character must be in the message: {}", out.message);
    assert_eq!(out.span.start, 0);
    assert_eq!(out.span.end, 1);
}

#[test]
fn a_retired_spelling_keeps_its_message_and_its_span() {
    let d = ParseDiagnostic::RetiredSpelling {
        message: retired::CURIE.to_string(),
        span: Span::new(7, 16),
    };
    let out = d.to_diagnostic();
    assert!(matches!(out.severity, Severity::Error));
    assert_eq!((out.span.start, out.span.end), (7, 16));
    assert!(out.message.contains("bare"), "{}", out.message);
}

#[test]
fn every_retired_message_says_what_to_write_instead() {
    for m in [
        retired::PREFIX_DECL,
        retired::CURIE,
        retired::ABSOLUTE_IRI,
        retired::LEADING_DOT,
        retired::BACKTICK,
    ] {
        assert!(m.contains('`'), "a retired-spelling message must quote the form that replaces it: {m}");
    }
}

#[test]
fn inconsistent_dedent_renders_message() {
    let d = ParseDiagnostic::InconsistentDedent { span: Span::new(20, 20) };
    let out = d.to_diagnostic();
    assert!(out.message.contains("inconsistent indentation"));
}

#[test]
fn the_expected_token_message_is_exact() {
    let d = ParseDiagnostic::ExpectedToken {
        want: SyntaxKind::RPAREN,
        got: SyntaxKind::EOF,
        span: Span::new(1, 1),
    };
    assert_eq!(d.to_diagnostic().message, "expected RPAREN, found EOF");
}
