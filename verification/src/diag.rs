//! Parse diagnostics: what the parser reports, and the public diagnostic each
//! becomes.
//!
//! A retired spelling gets its own variant, because the parser knows both
//! what the author wrote and what to write instead; the messages live in
//! [`crate::retired`].

use vstd::prelude::*;

use crate::kind::SyntaxKind;

verus! {

/// A byte range of the source.
#[derive(Debug, Clone, Copy, PartialEq, Eq, Structural)]
pub struct Span {
    pub start: usize,
    pub end: usize,
}

impl Span {
    pub fn new(start: usize, end: usize) -> (s: Self)
        ensures
            s.start == start,
            s.end == end,
    {
        Span { start, end }
    }
}

/// How serious a diagnostic is.
#[derive(Debug, Clone, Copy, PartialEq, Eq, Structural)]
pub enum Severity {
    Error,
    Warning,
}

/// A diagnostic as the hosts receive it.
#[derive(Debug, Clone, PartialEq, Eq)]
pub struct Diagnostic {
    pub severity: Severity,
    pub message: String,
    pub span: Span,
}

impl Diagnostic {
    pub fn new(severity: Severity, message: String, span: Span) -> (d: Self)
        ensures
            d.severity == severity,
            d.message@ == message@,
            d.span == span,
    {
        Diagnostic { severity, message, span }
    }
}

/// The name a kind is printed by.
pub open spec fn kind_name_of(k: SyntaxKind) -> Seq<char> {
    match k {
        SyntaxKind::WHITESPACE => "WHITESPACE"@,
        SyntaxKind::NEWLINE => "NEWLINE"@,
        SyntaxKind::COMMENT => "COMMENT"@,
        SyntaxKind::IDENT => "IDENT"@,
        SyntaxKind::INTEGER => "INTEGER"@,
        SyntaxKind::FLOAT => "FLOAT"@,
        SyntaxKind::BOOL => "BOOL"@,
        SyntaxKind::STRING => "STRING"@,
        SyntaxKind::STRING_OPEN => "STRING_OPEN"@,
        SyntaxKind::STRING_TEXT => "STRING_TEXT"@,
        SyntaxKind::INTERP_OPEN => "INTERP_OPEN"@,
        SyntaxKind::STRING_CLOSE => "STRING_CLOSE"@,
        SyntaxKind::AT_ATTR => "AT_ATTR"@,
        SyntaxKind::DEFINE => "DEFINE"@,
        SyntaxKind::ASSIGN => "ASSIGN"@,
        SyntaxKind::SHAPE_SEP => "SHAPE_SEP"@,
        SyntaxKind::DOT => "DOT"@,
        SyntaxKind::COMMA => "COMMA"@,
        SyntaxKind::LPAREN => "LPAREN"@,
        SyntaxKind::RPAREN => "RPAREN"@,
        SyntaxKind::LBRACE => "LBRACE"@,
        SyntaxKind::RBRACE => "RBRACE"@,
        SyntaxKind::EQ => "EQ"@,
        SyntaxKind::NEQ => "NEQ"@,
        SyntaxKind::LT => "LT"@,
        SyntaxKind::LE => "LE"@,
        SyntaxKind::GT => "GT"@,
        SyntaxKind::GE => "GE"@,
        SyntaxKind::PLUS => "PLUS"@,
        SyntaxKind::MINUS => "MINUS"@,
        SyntaxKind::STAR => "STAR"@,
        SyntaxKind::SLASH => "SLASH"@,
        SyntaxKind::PERCENT => "PERCENT"@,
        SyntaxKind::T_QUESTION => "T_QUESTION"@,
        SyntaxKind::KW_FROM => "KW_FROM"@,
        SyntaxKind::KW_AND => "KW_AND"@,
        SyntaxKind::KW_OR => "KW_OR"@,
        SyntaxKind::KW_NOT => "KW_NOT"@,
        SyntaxKind::INDENT => "INDENT"@,
        SyntaxKind::DEDENT => "DEDENT"@,
        SyntaxKind::PROGRAM => "PROGRAM"@,
        SyntaxKind::SOURCE_DEF => "SOURCE_DEF"@,
        SyntaxKind::MULTI_SOURCE_DEF => "MULTI_SOURCE_DEF"@,
        SyntaxKind::TYPE_DEF => "TYPE_DEF"@,
        SyntaxKind::POLICY_DEF => "POLICY_DEF"@,
        SyntaxKind::RENAME_ATTR => "RENAME_ATTR"@,
        SyntaxKind::RENAME => "RENAME"@,
        SyntaxKind::MAPPING => "MAPPING"@,
        SyntaxKind::MAPPING_HEADER => "MAPPING_HEADER"@,
        SyntaxKind::MAPPING_BODY => "MAPPING_BODY"@,
        SyntaxKind::PROPERTY => "PROPERTY"@,
        SyntaxKind::PROPERTY_LHS => "PROPERTY_LHS"@,
        SyntaxKind::SHAPE_EXPR => "SHAPE_EXPR"@,
        SyntaxKind::EXPR => "EXPR"@,
        SyntaxKind::INTERP_STRING_EXPR => "INTERP_STRING_EXPR"@,
        SyntaxKind::INTERPOLATION => "INTERPOLATION"@,
        SyntaxKind::LITERAL_EXPR => "LITERAL_EXPR"@,
        SyntaxKind::TERNARY_EXPR => "TERNARY_EXPR"@,
        SyntaxKind::BINARY_EXPR => "BINARY_EXPR"@,
        SyntaxKind::UNARY_EXPR => "UNARY_EXPR"@,
        SyntaxKind::POSTFIX_EXPR => "POSTFIX_EXPR"@,
        SyntaxKind::PAREN_EXPR => "PAREN_EXPR"@,
        SyntaxKind::ARG_LIST => "ARG_LIST"@,
        SyntaxKind::ARG => "ARG"@,
        SyntaxKind::NAMED_ARG => "NAMED_ARG"@,
        SyntaxKind::ALIAS_ARG => "ALIAS_ARG"@,
        SyntaxKind::ERROR => "ERROR"@,
        SyntaxKind::EOF => "EOF"@,
        SyntaxKind::NULL => "NULL"@,
        SyntaxKind::__LAST => "__LAST"@,
    }
}

/// The name a kind is printed by — its variant's name.
pub fn kind_name(k: SyntaxKind) -> (s: &'static str)
    ensures
        s@ == kind_name_of(k),
{
    match k {
            SyntaxKind::WHITESPACE => "WHITESPACE",
            SyntaxKind::NEWLINE => "NEWLINE",
            SyntaxKind::COMMENT => "COMMENT",
            SyntaxKind::IDENT => "IDENT",
            SyntaxKind::INTEGER => "INTEGER",
            SyntaxKind::FLOAT => "FLOAT",
            SyntaxKind::BOOL => "BOOL",
            SyntaxKind::STRING => "STRING",
            SyntaxKind::STRING_OPEN => "STRING_OPEN",
            SyntaxKind::STRING_TEXT => "STRING_TEXT",
            SyntaxKind::INTERP_OPEN => "INTERP_OPEN",
            SyntaxKind::STRING_CLOSE => "STRING_CLOSE",
            SyntaxKind::AT_ATTR => "AT_ATTR",
            SyntaxKind::DEFINE => "DEFINE",
            SyntaxKind::ASSIGN => "ASSIGN",
            SyntaxKind::SHAPE_SEP => "SHAPE_SEP",
            SyntaxKind::DOT => "DOT",
            SyntaxKind::COMMA => "COMMA",
            SyntaxKind::LPAREN => "LPAREN",
            SyntaxKind::RPAREN => "RPAREN",
            SyntaxKind::LBRACE => "LBRACE",
            SyntaxKind::RBRACE => "RBRACE",
            SyntaxKind::EQ => "EQ",
            SyntaxKind::NEQ => "NEQ",
            SyntaxKind::LT => "LT",
            SyntaxKind::LE => "LE",
            SyntaxKind::GT => "GT",
            SyntaxKind::GE => "GE",
            SyntaxKind::PLUS => "PLUS",
            SyntaxKind::MINUS => "MINUS",
            SyntaxKind::STAR => "STAR",
            SyntaxKind::SLASH => "SLASH",
            SyntaxKind::PERCENT => "PERCENT",
            SyntaxKind::T_QUESTION => "T_QUESTION",
            SyntaxKind::KW_FROM => "KW_FROM",
            SyntaxKind::KW_AND => "KW_AND",
            SyntaxKind::KW_OR => "KW_OR",
            SyntaxKind::KW_NOT => "KW_NOT",
            SyntaxKind::INDENT => "INDENT",
            SyntaxKind::DEDENT => "DEDENT",
            SyntaxKind::PROGRAM => "PROGRAM",
            SyntaxKind::SOURCE_DEF => "SOURCE_DEF",
            SyntaxKind::MULTI_SOURCE_DEF => "MULTI_SOURCE_DEF",
            SyntaxKind::TYPE_DEF => "TYPE_DEF",
            SyntaxKind::POLICY_DEF => "POLICY_DEF",
            SyntaxKind::RENAME_ATTR => "RENAME_ATTR",
            SyntaxKind::RENAME => "RENAME",
            SyntaxKind::MAPPING => "MAPPING",
            SyntaxKind::MAPPING_HEADER => "MAPPING_HEADER",
            SyntaxKind::MAPPING_BODY => "MAPPING_BODY",
            SyntaxKind::PROPERTY => "PROPERTY",
            SyntaxKind::PROPERTY_LHS => "PROPERTY_LHS",
            SyntaxKind::SHAPE_EXPR => "SHAPE_EXPR",
            SyntaxKind::EXPR => "EXPR",
            SyntaxKind::INTERP_STRING_EXPR => "INTERP_STRING_EXPR",
            SyntaxKind::INTERPOLATION => "INTERPOLATION",
            SyntaxKind::LITERAL_EXPR => "LITERAL_EXPR",
            SyntaxKind::TERNARY_EXPR => "TERNARY_EXPR",
            SyntaxKind::BINARY_EXPR => "BINARY_EXPR",
            SyntaxKind::UNARY_EXPR => "UNARY_EXPR",
            SyntaxKind::POSTFIX_EXPR => "POSTFIX_EXPR",
            SyntaxKind::PAREN_EXPR => "PAREN_EXPR",
            SyntaxKind::ARG_LIST => "ARG_LIST",
            SyntaxKind::ARG => "ARG",
            SyntaxKind::NAMED_ARG => "NAMED_ARG",
            SyntaxKind::ALIAS_ARG => "ALIAS_ARG",
            SyntaxKind::ERROR => "ERROR",
            SyntaxKind::EOF => "EOF",
            SyntaxKind::NULL => "NULL",
            SyntaxKind::__LAST => "__LAST",
    }
}

/// What the parser reports.
#[derive(Debug, Clone, PartialEq, Eq)]
pub enum ParseDiagnostic {
    /// `expected {want}, found {got}` at `span`.
    ExpectedToken { want: SyntaxKind, got: SyntaxKind, span: Span },
    /// A token consumed during recovery.
    UnexpectedToken { span: Span },
    /// A byte no lexer rule matched, quoted.
    UnlexableCharacter { text: String, span: Span },
    /// An indentation level that matches no open block.
    InconsistentDedent { span: Span },
    /// A retired spelling, with the message naming what replaces it; the span
    /// covers the whole retired form.
    RetiredSpelling { message: String, span: Span },
    /// A form the grammar has, written incompletely.
    Malformed { message: String, span: Span },
}

/// The message a parse diagnostic carries.
pub open spec fn message_of(d: ParseDiagnostic) -> Seq<char> {
    match d {
        ParseDiagnostic::ExpectedToken { want, got, .. } => "expected "@ + kind_name_of(want)
            + ", found "@ + kind_name_of(got),
        ParseDiagnostic::UnexpectedToken { .. } => "unexpected token"@,
        ParseDiagnostic::UnlexableCharacter { text, .. } => "unexpected character `"@ + text@
            + "` — no token starts with it"@,
        ParseDiagnostic::InconsistentDedent { .. } => "inconsistent indentation"@,
        ParseDiagnostic::RetiredSpelling { message, .. } => message@,
        ParseDiagnostic::Malformed { message, .. } => message@,
    }
}

/// The span a parse diagnostic covers.
pub open spec fn span_of(d: ParseDiagnostic) -> Span {
    match d {
        ParseDiagnostic::ExpectedToken { span, .. } => span,
        ParseDiagnostic::UnexpectedToken { span } => span,
        ParseDiagnostic::UnlexableCharacter { span, .. } => span,
        ParseDiagnostic::InconsistentDedent { span } => span,
        ParseDiagnostic::RetiredSpelling { span, .. } => span,
        ParseDiagnostic::Malformed { span, .. } => span,
    }
}

impl ParseDiagnostic {
    /// The public diagnostic: always an error, at the same span, with the
    /// variant's message.
    pub fn to_diagnostic(self) -> (d: Diagnostic)
        ensures
            d.severity == Severity::Error,
            d.message@ == message_of(self),
            d.span == span_of(self),
    {
        match self {
            ParseDiagnostic::ExpectedToken { want, got, span } => {
                let mut m = String::from_str("expected ");
                m.append(kind_name(want));
                m.append(", found ");
                m.append(kind_name(got));
                Diagnostic::new(Severity::Error, m, span)
            },
            ParseDiagnostic::UnexpectedToken { span } => Diagnostic::new(
                Severity::Error,
                String::from_str("unexpected token"),
                span,
            ),
            ParseDiagnostic::UnlexableCharacter { text, span } => {
                let mut m = String::from_str("unexpected character `");
                m.append(text.as_str());
                m.append("` — no token starts with it");
                Diagnostic::new(Severity::Error, m, span)
            },
            ParseDiagnostic::InconsistentDedent { span } => Diagnostic::new(
                Severity::Error,
                String::from_str("inconsistent indentation"),
                span,
            ),
            ParseDiagnostic::RetiredSpelling { message, span } => Diagnostic::new(
                Severity::Error,
                message,
                span,
            ),
            ParseDiagnostic::Malformed { message, span } => Diagnostic::new(
                Severity::Error,
                message,
                span,
            ),
        }
    }
}

} // verus!
