//! The kind tag of every node and token in the Fossil concrete syntax tree.
//!
//! Every variant is a kind the lexer, the indentation pass or the parser
//! produces. The raw `u16` of a kind is its position in the declaration, and
//! [`SyntaxKind::from_raw_value`] is its inverse; the two are proved to undo
//! each other for every kind.

use vstd::prelude::*;

verus! {

/// The kind of a node or token in the concrete syntax tree.
#[allow(non_camel_case_types)]
#[derive(Debug, Clone, Copy, PartialEq, Eq, Structural, PartialOrd, Ord, Hash)]
pub enum SyntaxKind {
    WHITESPACE,
    NEWLINE,
    COMMENT,
    IDENT,
    INTEGER,
    FLOAT,
    BOOL,
    STRING,
    STRING_OPEN,
    STRING_TEXT,
    INTERP_OPEN,
    STRING_CLOSE,
    AT_ATTR,
    DEFINE,
    ASSIGN,
    SHAPE_SEP,
    DOT,
    COMMA,
    LPAREN,
    RPAREN,
    LBRACE,
    RBRACE,
    EQ,
    NEQ,
    LT,
    LE,
    GT,
    GE,
    PLUS,
    MINUS,
    STAR,
    SLASH,
    PERCENT,
    T_QUESTION,
    KW_FROM,
    KW_AND,
    KW_OR,
    KW_NOT,
    INDENT,
    DEDENT,
    PROGRAM,
    SOURCE_DEF,
    MULTI_SOURCE_DEF,
    TYPE_DEF,
    POLICY_DEF,
    RENAME_ATTR,
    RENAME,
    MAPPING,
    MAPPING_HEADER,
    MAPPING_BODY,
    PROPERTY,
    PROPERTY_LHS,
    SHAPE_EXPR,
    EXPR,
    INTERP_STRING_EXPR,
    INTERPOLATION,
    LITERAL_EXPR,
    TERNARY_EXPR,
    BINARY_EXPR,
    UNARY_EXPR,
    POSTFIX_EXPR,
    PAREN_EXPR,
    ARG_LIST,
    ARG,
    NAMED_ARG,
    ALIAS_ARG,
    ERROR,
    EOF,
    NULL,
    __LAST,
}

/// How many kinds there are below the `__LAST` sentinel.
pub const KIND_COUNT: u16 = 69;

impl SyntaxKind {
    /// The raw value of a kind: its position in the declaration.
    pub open spec fn raw(self) -> u16 {
        match self {
            SyntaxKind::WHITESPACE => 0,
            SyntaxKind::NEWLINE => 1,
            SyntaxKind::COMMENT => 2,
            SyntaxKind::IDENT => 3,
            SyntaxKind::INTEGER => 4,
            SyntaxKind::FLOAT => 5,
            SyntaxKind::BOOL => 6,
            SyntaxKind::STRING => 7,
            SyntaxKind::STRING_OPEN => 8,
            SyntaxKind::STRING_TEXT => 9,
            SyntaxKind::INTERP_OPEN => 10,
            SyntaxKind::STRING_CLOSE => 11,
            SyntaxKind::AT_ATTR => 12,
            SyntaxKind::DEFINE => 13,
            SyntaxKind::ASSIGN => 14,
            SyntaxKind::SHAPE_SEP => 15,
            SyntaxKind::DOT => 16,
            SyntaxKind::COMMA => 17,
            SyntaxKind::LPAREN => 18,
            SyntaxKind::RPAREN => 19,
            SyntaxKind::LBRACE => 20,
            SyntaxKind::RBRACE => 21,
            SyntaxKind::EQ => 22,
            SyntaxKind::NEQ => 23,
            SyntaxKind::LT => 24,
            SyntaxKind::LE => 25,
            SyntaxKind::GT => 26,
            SyntaxKind::GE => 27,
            SyntaxKind::PLUS => 28,
            SyntaxKind::MINUS => 29,
            SyntaxKind::STAR => 30,
            SyntaxKind::SLASH => 31,
            SyntaxKind::PERCENT => 32,
            SyntaxKind::T_QUESTION => 33,
            SyntaxKind::KW_FROM => 34,
            SyntaxKind::KW_AND => 35,
            SyntaxKind::KW_OR => 36,
            SyntaxKind::KW_NOT => 37,
            SyntaxKind::INDENT => 38,
            SyntaxKind::DEDENT => 39,
            SyntaxKind::PROGRAM => 40,
            SyntaxKind::SOURCE_DEF => 41,
            SyntaxKind::MULTI_SOURCE_DEF => 42,
            SyntaxKind::TYPE_DEF => 43,
            SyntaxKind::POLICY_DEF => 44,
            SyntaxKind::RENAME_ATTR => 45,
            SyntaxKind::RENAME => 46,
            SyntaxKind::MAPPING => 47,
            SyntaxKind::MAPPING_HEADER => 48,
            SyntaxKind::MAPPING_BODY => 49,
            SyntaxKind::PROPERTY => 50,
            SyntaxKind::PROPERTY_LHS => 51,
            SyntaxKind::SHAPE_EXPR => 52,
            SyntaxKind::EXPR => 53,
            SyntaxKind::INTERP_STRING_EXPR => 54,
            SyntaxKind::INTERPOLATION => 55,
            SyntaxKind::LITERAL_EXPR => 56,
            SyntaxKind::TERNARY_EXPR => 57,
            SyntaxKind::BINARY_EXPR => 58,
            SyntaxKind::UNARY_EXPR => 59,
            SyntaxKind::POSTFIX_EXPR => 60,
            SyntaxKind::PAREN_EXPR => 61,
            SyntaxKind::ARG_LIST => 62,
            SyntaxKind::ARG => 63,
            SyntaxKind::NAMED_ARG => 64,
            SyntaxKind::ALIAS_ARG => 65,
            SyntaxKind::ERROR => 66,
            SyntaxKind::EOF => 67,
            SyntaxKind::NULL => 68,
            SyntaxKind::__LAST => 69,
        }
    }

    /// The kind whose raw value is `v`, for `v` below [`KIND_COUNT`].
    pub open spec fn of_raw(v: u16) -> SyntaxKind {
        match v {
            0 => SyntaxKind::WHITESPACE,
            1 => SyntaxKind::NEWLINE,
            2 => SyntaxKind::COMMENT,
            3 => SyntaxKind::IDENT,
            4 => SyntaxKind::INTEGER,
            5 => SyntaxKind::FLOAT,
            6 => SyntaxKind::BOOL,
            7 => SyntaxKind::STRING,
            8 => SyntaxKind::STRING_OPEN,
            9 => SyntaxKind::STRING_TEXT,
            10 => SyntaxKind::INTERP_OPEN,
            11 => SyntaxKind::STRING_CLOSE,
            12 => SyntaxKind::AT_ATTR,
            13 => SyntaxKind::DEFINE,
            14 => SyntaxKind::ASSIGN,
            15 => SyntaxKind::SHAPE_SEP,
            16 => SyntaxKind::DOT,
            17 => SyntaxKind::COMMA,
            18 => SyntaxKind::LPAREN,
            19 => SyntaxKind::RPAREN,
            20 => SyntaxKind::LBRACE,
            21 => SyntaxKind::RBRACE,
            22 => SyntaxKind::EQ,
            23 => SyntaxKind::NEQ,
            24 => SyntaxKind::LT,
            25 => SyntaxKind::LE,
            26 => SyntaxKind::GT,
            27 => SyntaxKind::GE,
            28 => SyntaxKind::PLUS,
            29 => SyntaxKind::MINUS,
            30 => SyntaxKind::STAR,
            31 => SyntaxKind::SLASH,
            32 => SyntaxKind::PERCENT,
            33 => SyntaxKind::T_QUESTION,
            34 => SyntaxKind::KW_FROM,
            35 => SyntaxKind::KW_AND,
            36 => SyntaxKind::KW_OR,
            37 => SyntaxKind::KW_NOT,
            38 => SyntaxKind::INDENT,
            39 => SyntaxKind::DEDENT,
            40 => SyntaxKind::PROGRAM,
            41 => SyntaxKind::SOURCE_DEF,
            42 => SyntaxKind::MULTI_SOURCE_DEF,
            43 => SyntaxKind::TYPE_DEF,
            44 => SyntaxKind::POLICY_DEF,
            45 => SyntaxKind::RENAME_ATTR,
            46 => SyntaxKind::RENAME,
            47 => SyntaxKind::MAPPING,
            48 => SyntaxKind::MAPPING_HEADER,
            49 => SyntaxKind::MAPPING_BODY,
            50 => SyntaxKind::PROPERTY,
            51 => SyntaxKind::PROPERTY_LHS,
            52 => SyntaxKind::SHAPE_EXPR,
            53 => SyntaxKind::EXPR,
            54 => SyntaxKind::INTERP_STRING_EXPR,
            55 => SyntaxKind::INTERPOLATION,
            56 => SyntaxKind::LITERAL_EXPR,
            57 => SyntaxKind::TERNARY_EXPR,
            58 => SyntaxKind::BINARY_EXPR,
            59 => SyntaxKind::UNARY_EXPR,
            60 => SyntaxKind::POSTFIX_EXPR,
            61 => SyntaxKind::PAREN_EXPR,
            62 => SyntaxKind::ARG_LIST,
            63 => SyntaxKind::ARG,
            64 => SyntaxKind::NAMED_ARG,
            65 => SyntaxKind::ALIAS_ARG,
            66 => SyntaxKind::ERROR,
            67 => SyntaxKind::EOF,
            68 => SyntaxKind::NULL,
            _ => SyntaxKind::__LAST,
        }
    }

    /// The raw value `rowan` stores for this kind.
    pub fn to_raw(self) -> (r: u16)
        ensures
            r == self.raw(),
    {
        match self {
            SyntaxKind::WHITESPACE => 0,
            SyntaxKind::NEWLINE => 1,
            SyntaxKind::COMMENT => 2,
            SyntaxKind::IDENT => 3,
            SyntaxKind::INTEGER => 4,
            SyntaxKind::FLOAT => 5,
            SyntaxKind::BOOL => 6,
            SyntaxKind::STRING => 7,
            SyntaxKind::STRING_OPEN => 8,
            SyntaxKind::STRING_TEXT => 9,
            SyntaxKind::INTERP_OPEN => 10,
            SyntaxKind::STRING_CLOSE => 11,
            SyntaxKind::AT_ATTR => 12,
            SyntaxKind::DEFINE => 13,
            SyntaxKind::ASSIGN => 14,
            SyntaxKind::SHAPE_SEP => 15,
            SyntaxKind::DOT => 16,
            SyntaxKind::COMMA => 17,
            SyntaxKind::LPAREN => 18,
            SyntaxKind::RPAREN => 19,
            SyntaxKind::LBRACE => 20,
            SyntaxKind::RBRACE => 21,
            SyntaxKind::EQ => 22,
            SyntaxKind::NEQ => 23,
            SyntaxKind::LT => 24,
            SyntaxKind::LE => 25,
            SyntaxKind::GT => 26,
            SyntaxKind::GE => 27,
            SyntaxKind::PLUS => 28,
            SyntaxKind::MINUS => 29,
            SyntaxKind::STAR => 30,
            SyntaxKind::SLASH => 31,
            SyntaxKind::PERCENT => 32,
            SyntaxKind::T_QUESTION => 33,
            SyntaxKind::KW_FROM => 34,
            SyntaxKind::KW_AND => 35,
            SyntaxKind::KW_OR => 36,
            SyntaxKind::KW_NOT => 37,
            SyntaxKind::INDENT => 38,
            SyntaxKind::DEDENT => 39,
            SyntaxKind::PROGRAM => 40,
            SyntaxKind::SOURCE_DEF => 41,
            SyntaxKind::MULTI_SOURCE_DEF => 42,
            SyntaxKind::TYPE_DEF => 43,
            SyntaxKind::POLICY_DEF => 44,
            SyntaxKind::RENAME_ATTR => 45,
            SyntaxKind::RENAME => 46,
            SyntaxKind::MAPPING => 47,
            SyntaxKind::MAPPING_HEADER => 48,
            SyntaxKind::MAPPING_BODY => 49,
            SyntaxKind::PROPERTY => 50,
            SyntaxKind::PROPERTY_LHS => 51,
            SyntaxKind::SHAPE_EXPR => 52,
            SyntaxKind::EXPR => 53,
            SyntaxKind::INTERP_STRING_EXPR => 54,
            SyntaxKind::INTERPOLATION => 55,
            SyntaxKind::LITERAL_EXPR => 56,
            SyntaxKind::TERNARY_EXPR => 57,
            SyntaxKind::BINARY_EXPR => 58,
            SyntaxKind::UNARY_EXPR => 59,
            SyntaxKind::POSTFIX_EXPR => 60,
            SyntaxKind::PAREN_EXPR => 61,
            SyntaxKind::ARG_LIST => 62,
            SyntaxKind::ARG => 63,
            SyntaxKind::NAMED_ARG => 64,
            SyntaxKind::ALIAS_ARG => 65,
            SyntaxKind::ERROR => 66,
            SyntaxKind::EOF => 67,
            SyntaxKind::NULL => 68,
            SyntaxKind::__LAST => 69,
        }
    }

    /// Reverse map from a raw `u16` back to the kind.
    ///
    /// A value past the last kind names no kind, and a caller may not pass
    /// one.
    pub fn from_raw_value(v: u16) -> (k: SyntaxKind)
        requires
            v < KIND_COUNT,
        ensures
            k == SyntaxKind::of_raw(v),
            k.raw() == v,
    {
        match v {
            0 => SyntaxKind::WHITESPACE,
            1 => SyntaxKind::NEWLINE,
            2 => SyntaxKind::COMMENT,
            3 => SyntaxKind::IDENT,
            4 => SyntaxKind::INTEGER,
            5 => SyntaxKind::FLOAT,
            6 => SyntaxKind::BOOL,
            7 => SyntaxKind::STRING,
            8 => SyntaxKind::STRING_OPEN,
            9 => SyntaxKind::STRING_TEXT,
            10 => SyntaxKind::INTERP_OPEN,
            11 => SyntaxKind::STRING_CLOSE,
            12 => SyntaxKind::AT_ATTR,
            13 => SyntaxKind::DEFINE,
            14 => SyntaxKind::ASSIGN,
            15 => SyntaxKind::SHAPE_SEP,
            16 => SyntaxKind::DOT,
            17 => SyntaxKind::COMMA,
            18 => SyntaxKind::LPAREN,
            19 => SyntaxKind::RPAREN,
            20 => SyntaxKind::LBRACE,
            21 => SyntaxKind::RBRACE,
            22 => SyntaxKind::EQ,
            23 => SyntaxKind::NEQ,
            24 => SyntaxKind::LT,
            25 => SyntaxKind::LE,
            26 => SyntaxKind::GT,
            27 => SyntaxKind::GE,
            28 => SyntaxKind::PLUS,
            29 => SyntaxKind::MINUS,
            30 => SyntaxKind::STAR,
            31 => SyntaxKind::SLASH,
            32 => SyntaxKind::PERCENT,
            33 => SyntaxKind::T_QUESTION,
            34 => SyntaxKind::KW_FROM,
            35 => SyntaxKind::KW_AND,
            36 => SyntaxKind::KW_OR,
            37 => SyntaxKind::KW_NOT,
            38 => SyntaxKind::INDENT,
            39 => SyntaxKind::DEDENT,
            40 => SyntaxKind::PROGRAM,
            41 => SyntaxKind::SOURCE_DEF,
            42 => SyntaxKind::MULTI_SOURCE_DEF,
            43 => SyntaxKind::TYPE_DEF,
            44 => SyntaxKind::POLICY_DEF,
            45 => SyntaxKind::RENAME_ATTR,
            46 => SyntaxKind::RENAME,
            47 => SyntaxKind::MAPPING,
            48 => SyntaxKind::MAPPING_HEADER,
            49 => SyntaxKind::MAPPING_BODY,
            50 => SyntaxKind::PROPERTY,
            51 => SyntaxKind::PROPERTY_LHS,
            52 => SyntaxKind::SHAPE_EXPR,
            53 => SyntaxKind::EXPR,
            54 => SyntaxKind::INTERP_STRING_EXPR,
            55 => SyntaxKind::INTERPOLATION,
            56 => SyntaxKind::LITERAL_EXPR,
            57 => SyntaxKind::TERNARY_EXPR,
            58 => SyntaxKind::BINARY_EXPR,
            59 => SyntaxKind::UNARY_EXPR,
            60 => SyntaxKind::POSTFIX_EXPR,
            61 => SyntaxKind::PAREN_EXPR,
            62 => SyntaxKind::ARG_LIST,
            63 => SyntaxKind::ARG,
            64 => SyntaxKind::NAMED_ARG,
            65 => SyntaxKind::ALIAS_ARG,
            66 => SyntaxKind::ERROR,
            67 => SyntaxKind::EOF,
            68 => SyntaxKind::NULL,
            _ => SyntaxKind::NULL,
        }
    }

    /// The trivia kinds: whitespace, newlines and comments.
    pub open spec fn is_trivia(self) -> bool {
        self == SyntaxKind::WHITESPACE || self == SyntaxKind::NEWLINE || self == SyntaxKind::COMMENT
    }
}

/// Decoding the raw value of any kind but the sentinel gives the kind back.
pub proof fn lemma_raw_round_trip(k: SyntaxKind)
    requires
        k != SyntaxKind::__LAST,
    ensures
        k.raw() < KIND_COUNT,
        SyntaxKind::of_raw(k.raw()) == k,
{
}

/// Encoding the kind decoded from any raw value below the count gives the value back.
pub proof fn lemma_value_round_trip(v: u16)
    requires
        v < KIND_COUNT,
    ensures
        SyntaxKind::of_raw(v).raw() == v,
        SyntaxKind::of_raw(v) != SyntaxKind::__LAST,
{
}

} // verus!
