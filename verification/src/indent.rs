//! The post-lexer pass: the raw token stream becomes the parser's stream of
//! [`LexedToken`]s, with virtual `INDENT` / `DEDENT` tokens at column changes
//! after newlines, and every string literal that holds a `{…}` hole carved into
//! `STRING_OPEN (STRING_TEXT | INTERP_OPEN <tokens> RBRACE)* STRING_CLOSE`.
//!
//! The indentation algorithm:
//!
//! 1. A stack of indentation columns; the bottom is `0`.
//! 2. After a newline the next token is at line start.
//! 3. The first non-trivia token of a line measures its column: deeper pushes
//!    it and emits `INDENT`; shallower pops, one `DEDENT` per pop, and emits
//!    `ERROR` when no level on the stack matches.
//! 4. Blank lines and comment-only lines leave the stack alone.
//! 5. At the end of input every level above the bottom is closed by a `DEDENT`.
//! 6. A run the lexer matched no rule for becomes an `ERROR` token carrying
//!    its text, and counts as a real token for step 3.
//!
//! Every byte of the input is the text of exactly one token, in order; the
//! virtual tokens carry empty text.

use vstd::prelude::*;
use vstd::string::StringSliceAdditionalSpecFns;
use vstd::utf8::{encode_utf8, valid_utf8};

use crate::indent_laws::{lemma_indent_stack, lemma_indent_tiles, tiled};
use crate::kind::SyntaxKind;
use crate::lexer::{
    lemma_lex_all_on_boundaries, lemma_lex_all_strings, lemma_lex_all_within,
    lex_all, lex_span, spans_view, Token,
};
use crate::text::{lemma_after_ascii, on_boundary, slice_text};

verus! {

broadcast use vstd::utf8::encode_utf8_valid_utf8;

/// One token of the parser-ready stream: kind, source text, byte range.
///
/// Virtual `INDENT` / `DEDENT` tokens, and the `ERROR` of an inconsistent
/// dedent, carry empty text and an empty range at the position where the
/// column change was observed.
#[derive(Debug)]
pub struct LexedToken {
    pub kind: SyntaxKind,
    pub text: String,
    pub range: std::ops::Range<usize>,
}

impl Clone for LexedToken {
    fn clone(&self) -> (c: Self)
        ensures
            c.kind == self.kind,
            c.text@ == self.text@,
            c.range == self.range,
    {
        LexedToken { kind: self.kind, text: self.text.clone(), range: self.range.start..self.range.end }
    }
}

/// A token of the stream as plain values: kind, start, end.
pub type Out = (SyntaxKind, int, int);

pub open spec fn lexed_view(v: Seq<LexedToken>) -> Seq<Out> {
    v.map_values(|t: LexedToken| (t.kind, t.range.start as int, t.range.end as int))
}

/// Each token's text is the bytes of its range.
pub open spec fn texts_match(s: Seq<u8>, v: Seq<LexedToken>) -> bool {
    forall|k: int|
        0 <= k < v.len() ==> #[trigger] v[k].range.start <= v[k].range.end <= s.len()
            && encode_utf8(v[k].text@) == s.subrange(
            v[k].range.start as int,
            v[k].range.end as int,
        )
}

/// The kind a raw token becomes; a run no rule matched becomes `ERROR`.
pub open spec fn kind_of(t: Option<Token>) -> SyntaxKind {
    match t {
        None => SyntaxKind::ERROR,
        Some(t) => match t {
            Token::Whitespace => SyntaxKind::WHITESPACE,
            Token::Newline => SyntaxKind::NEWLINE,
            Token::Comment => SyntaxKind::COMMENT,
            Token::KwFrom => SyntaxKind::KW_FROM,
            Token::KwAnd => SyntaxKind::KW_AND,
            Token::KwOr => SyntaxKind::KW_OR,
            Token::KwNot => SyntaxKind::KW_NOT,
            Token::Ident => SyntaxKind::IDENT,
            Token::Integer => SyntaxKind::INTEGER,
            Token::Float => SyntaxKind::FLOAT,
            Token::True => SyntaxKind::BOOL,
            Token::False => SyntaxKind::BOOL,
            Token::String => SyntaxKind::STRING,
            Token::AtAttr => SyntaxKind::AT_ATTR,
            Token::Define => SyntaxKind::DEFINE,
            Token::Eq => SyntaxKind::EQ,
            Token::Neq => SyntaxKind::NEQ,
            Token::Le => SyntaxKind::LE,
            Token::Ge => SyntaxKind::GE,
            Token::Assign => SyntaxKind::ASSIGN,
            Token::Colon => SyntaxKind::SHAPE_SEP,
            Token::Dot => SyntaxKind::DOT,
            Token::Comma => SyntaxKind::COMMA,
            Token::LParen => SyntaxKind::LPAREN,
            Token::RParen => SyntaxKind::RPAREN,
            Token::LBrace => SyntaxKind::LBRACE,
            Token::RBrace => SyntaxKind::RBRACE,
            Token::Lt => SyntaxKind::LT,
            Token::Gt => SyntaxKind::GT,
            Token::Plus => SyntaxKind::PLUS,
            Token::Minus => SyntaxKind::MINUS,
            Token::Star => SyntaxKind::STAR,
            Token::Slash => SyntaxKind::SLASH,
            Token::Percent => SyntaxKind::PERCENT,
            Token::Question => SyntaxKind::T_QUESTION,
        },
    }
}

/// The token a stream kind stands for, `true` standing for both booleans.
spec fn token_of_kind(k: SyntaxKind) -> Option<Token> {
    match k {
        SyntaxKind::WHITESPACE => Some(Token::Whitespace),
        SyntaxKind::NEWLINE => Some(Token::Newline),
        SyntaxKind::COMMENT => Some(Token::Comment),
        SyntaxKind::KW_FROM => Some(Token::KwFrom),
        SyntaxKind::KW_AND => Some(Token::KwAnd),
        SyntaxKind::KW_OR => Some(Token::KwOr),
        SyntaxKind::KW_NOT => Some(Token::KwNot),
        SyntaxKind::IDENT => Some(Token::Ident),
        SyntaxKind::INTEGER => Some(Token::Integer),
        SyntaxKind::FLOAT => Some(Token::Float),
        SyntaxKind::BOOL => Some(Token::True),
        SyntaxKind::STRING => Some(Token::String),
        SyntaxKind::AT_ATTR => Some(Token::AtAttr),
        SyntaxKind::DEFINE => Some(Token::Define),
        SyntaxKind::EQ => Some(Token::Eq),
        SyntaxKind::NEQ => Some(Token::Neq),
        SyntaxKind::LE => Some(Token::Le),
        SyntaxKind::GE => Some(Token::Ge),
        SyntaxKind::ASSIGN => Some(Token::Assign),
        SyntaxKind::SHAPE_SEP => Some(Token::Colon),
        SyntaxKind::DOT => Some(Token::Dot),
        SyntaxKind::COMMA => Some(Token::Comma),
        SyntaxKind::LPAREN => Some(Token::LParen),
        SyntaxKind::RPAREN => Some(Token::RParen),
        SyntaxKind::LBRACE => Some(Token::LBrace),
        SyntaxKind::RBRACE => Some(Token::RBrace),
        SyntaxKind::LT => Some(Token::Lt),
        SyntaxKind::GT => Some(Token::Gt),
        SyntaxKind::PLUS => Some(Token::Plus),
        SyntaxKind::MINUS => Some(Token::Minus),
        SyntaxKind::STAR => Some(Token::Star),
        SyntaxKind::SLASH => Some(Token::Slash),
        SyntaxKind::PERCENT => Some(Token::Percent),
        SyntaxKind::T_QUESTION => Some(Token::Question),
        _ => None,
    }
}

proof fn lemma_token_of_kind(t: Token)
    ensures
        token_of_kind(kind_of(Some(t))) == Some(if t is False { Token::True } else { t }),
{
}

/// What `token_to_kind` returns: different tokens become different kinds,
/// but for `true` and `false`, which both become `BOOL`; `:` is the shape
/// separator and `?` the ternary's question mark.
pub proof fn lemma_token_kinds_distinct(t1: Token, t2: Token)
    requires
        t1 != t2,
        !(t1 is True && t2 is False),
        !(t1 is False && t2 is True),
    ensures
        kind_of(Some(t1)) != kind_of(Some(t2)),
        kind_of(Some(Token::True)) == SyntaxKind::BOOL,
        kind_of(Some(Token::False)) == SyntaxKind::BOOL,
        kind_of(Some(Token::Colon)) == SyntaxKind::SHAPE_SEP,
        kind_of(Some(Token::Question)) == SyntaxKind::T_QUESTION,
{
    lemma_token_of_kind(t1);
    lemma_token_of_kind(t2);
}

/// No token becomes a kind that only the layout or the string carving makes,
/// nor the kind of a byte no token rule matches.
pub proof fn lemma_token_kind_not_virtual(t: Token)
    ensures
        kind_of(Some(t)) != SyntaxKind::INDENT,
        kind_of(Some(t)) != SyntaxKind::DEDENT,
        kind_of(Some(t)) != SyntaxKind::ERROR,
        kind_of(Some(t)) != SyntaxKind::STRING_OPEN,
        kind_of(Some(t)) != SyntaxKind::STRING_TEXT,
        kind_of(Some(t)) != SyntaxKind::STRING_CLOSE,
        kind_of(Some(t)) != SyntaxKind::INTERP_OPEN,
{
    lemma_token_of_kind(t);
}

/// The raw tokens of a span, as stream tokens.
pub open spec fn raw_to_out(v: Seq<(Option<Token>, int, int)>) -> Seq<Out>
    decreases v.len(),
{
    if v.len() == 0 {
        Seq::empty()
    } else {
        seq![(kind_of(v[0].0), v[0].1, v[0].2)] + raw_to_out(v.drop_first())
    }
}

// ───────────────────────────── indentation ─────────────────────────────

/// The stack holds `0` at the bottom and strictly increasing columns above it.
pub open spec fn stack_wf(st: Seq<usize>) -> bool {
    &&& st.len() >= 1
    &&& st[0] == 0
    &&& forall|j: int, k: int| 0 <= j < k < st.len() ==> st[j] < st[k]
}

/// Pop every level deeper than `col`, one `DEDENT` at `pos` per pop.
pub open spec fn pop_to(st: Seq<usize>, col: usize, pos: int) -> (Seq<Out>, Seq<usize>)
    decreases st.len(),
{
    if st.len() > 0 && st.last() > col {
        let (d, rest) = pop_to(st.drop_last(), col, pos);
        (seq![(SyntaxKind::DEDENT, pos, pos)] + d, rest)
    } else {
        (Seq::empty(), st)
    }
}

/// The tokens and the new stack for a line whose first token is at `col`.
pub open spec fn push_changes(st: Seq<usize>, col: usize, pos: int) -> (Seq<Out>, Seq<usize>) {
    if st.len() > 0 && col > st.last() {
        (seq![(SyntaxKind::INDENT, pos, pos)], st.push(col))
    } else {
        let (d, rest) = pop_to(st, col, pos);
        if rest.len() == 0 || rest.last() != col {
            (d + seq![(SyntaxKind::ERROR, pos, pos)], rest)
        } else {
            (d, rest)
        }
    }
}

/// `n` closing `DEDENT`s at `pos`.
pub open spec fn dedents(n: nat, pos: int) -> Seq<Out> {
    Seq::new(n, |_k: int| (SyntaxKind::DEDENT, pos, pos))
}

/// The stream for the raw tokens `r[k..]`, with stack `st` and the
/// line-start flag `ls`, ending with the closing dedents at `s.len()`.
pub open spec fn indent_from(
    s: Seq<u8>,
    r: Seq<(Option<Token>, int, int)>,
    k: int,
    st: Seq<usize>,
    ls: bool,
) -> Seq<Out>
    decreases r.len() - k,
{
    if !(0 <= k < r.len()) {
        dedents((if st.len() >= 1 { st.len() - 1 } else { 0 }) as nat, s.len() as int)
    } else {
        let (t, a, b) = r[k];
        if t == Some(Token::Newline) {
            seq![(SyntaxKind::NEWLINE, a, b)] + indent_from(s, r, k + 1, st, true)
        } else if t == Some(Token::Whitespace) {
            if ls {
                let quiet = k + 1 >= r.len() || r[k + 1].0 == Some(Token::Newline) || r[k + 1].0
                    == Some(Token::Comment);
                if quiet {
                    seq![(SyntaxKind::WHITESPACE, a, b)] + indent_from(s, r, k + 1, st, true)
                } else {
                    let (d, st2) = push_changes(st, (b - a) as usize, a);
                    seq![(SyntaxKind::WHITESPACE, a, b)] + d + indent_from(s, r, k + 1, st2, false)
                }
            } else {
                seq![(SyntaxKind::WHITESPACE, a, b)] + indent_from(s, r, k + 1, st, false)
            }
        } else if t == Some(Token::Comment) {
            seq![(SyntaxKind::COMMENT, a, b)] + indent_from(s, r, k + 1, st, ls)
        } else {
            let (d, st2) = if ls {
                push_changes(st, 0, a)
            } else {
                (Seq::empty(), st)
            };
            let body = if t == Some(Token::String) && carve(s, a, b).is_some() {
                carve(s, a, b).unwrap()
            } else {
                seq![(kind_of(t), a, b)]
            };
            d + body + indent_from(s, r, k + 1, st2, false)
        }
    }
}

/// The parser-ready stream of a whole source.
pub open spec fn indent_all(s: Seq<u8>) -> Seq<Out> {
    indent_from(s, lex_all(s, 0, s.len() as int), 0, seq![0usize], true)
}

// ───────────────────────────── interpolation ─────────────────────────────

/// The next hole opener `{` in `s[i..e)`, skipping the escape `{{`.
pub open spec fn find_hole(s: Seq<u8>, i: int, e: int) -> Option<int>
    decreases e - i,
{
    if !(0 <= i < e && e <= s.len()) {
        None
    } else if s[i] == 123 && i + 1 < e && s[i + 1] == 123 {
        find_hole(s, i + 2, e)
    } else if s[i] == 123 {
        Some(i)
    } else {
        find_hole(s, i + 1, e)
    }
}

/// Past a quoted string inside a hole, from just after its opening quote:
/// the offset of its closing quote, or an offset at or past `e`.
pub open spec fn skip_quoted(s: Seq<u8>, j: int, e: int) -> int
    decreases e - j,
{
    if !(0 <= j < e && e <= s.len() && s[j] != 34) {
        j
    } else {
        let nx = j + if s[j] == 92 {
            2int
        } else {
            1int
        };
        if nx < e {
            skip_quoted(s, nx, e)
        } else {
            nx
        }
    }
}

/// The offset of the `}` that closes a hole whose body starts at `i`, counting
/// nested braces and skipping quoted strings; `e` when there is none.
pub open spec fn closing_brace(s: Seq<u8>, i: int, e: int, depth: nat) -> int
    decreases e - i,
{
    if !(0 <= i < e && e <= s.len()) {
        e
    } else if s[i] == 34 {
        let j = skip_quoted(s, i + 1, e);
        if i < j < e {
            closing_brace(s, j + 1, e, depth)
        } else {
            e
        }
    } else if s[i] == 123 {
        closing_brace(s, i + 1, e, depth + 1)
    } else if s[i] == 125 {
        if depth == 0 {
            i
        } else {
            closing_brace(s, i + 1, e, (depth - 1) as nat)
        }
    } else {
        closing_brace(s, i + 1, e, depth)
    }
}

/// The carved run of a string literal's inner bytes `[cursor, ie)`, the next
/// hole being at `hole`.
pub open spec fn carve_loop(s: Seq<u8>, ie: int, cursor: int, hole: Option<int>) -> Seq<Out>
    decreases ie - cursor,
{
    match hole {
        None => if cursor < ie {
            seq![(SyntaxKind::STRING_TEXT, cursor, ie)]
        } else {
            Seq::empty()
        },
        Some(at) => if !(0 <= cursor <= at < ie && ie <= s.len()) {
            Seq::empty()
        } else {
            let pre = if at > cursor {
                seq![(SyntaxKind::STRING_TEXT, cursor, at)]
            } else {
                Seq::empty()
            };
            let be = closing_brace(s, at + 1, ie, 0);
            if !(at + 1 <= be <= ie) {
                Seq::empty()
            } else {
                let body = raw_to_out(lex_all(s, at + 1, be));
                let close = if be < ie {
                    seq![(SyntaxKind::RBRACE, be, be + 1)]
                } else {
                    Seq::empty()
                };
                let next = if be < ie {
                    be + 1
                } else {
                    be
                };
                pre + seq![(SyntaxKind::INTERP_OPEN, at, at + 1)] + body + close + carve_loop(
                    s,
                    ie,
                    next,
                    find_hole(s, next, ie),
                )
            }
        },
    }
}

/// The carved run of the string literal `s[a..b)`, or `None` when it holds no
/// hole and stays one `STRING` token.
pub open spec fn carve(s: Seq<u8>, a: int, b: int) -> Option<Seq<Out>> {
    if !(0 <= a && a + 2 <= b <= s.len()) {
        None
    } else {
        match find_hole(s, a + 1, b - 1) {
            None => None,
            Some(first) => Some(
                seq![(SyntaxKind::STRING_OPEN, a, a + 1)] + carve_loop(s, b - 1, a + 1, Some(first))
                    + seq![(SyntaxKind::STRING_CLOSE, b - 1, b)],
            ),
        }
    }
}

// ───────────────────────────── lemmas ─────────────────────────────

pub proof fn lemma_find_hole(s: Seq<u8>, i: int, e: int)
    ensures
        find_hole(s, i, e) matches Some(h) ==> i <= h < e && s[h] == 123,
    decreases e - i,
{
    if 0 <= i < e && e <= s.len() {
        if s[i] == 123 && i + 1 < e && s[i + 1] == 123 {
            lemma_find_hole(s, i + 2, e);
        } else if s[i] != 123 {
            lemma_find_hole(s, i + 1, e);
        }
    }
}

pub proof fn lemma_skip_quoted(s: Seq<u8>, j: int, e: int)
    requires
        0 <= j,
    ensures
        j <= skip_quoted(s, j, e),
        skip_quoted(s, j, e) < e && 0 <= e <= s.len() ==> s[skip_quoted(s, j, e)] == 34,
    decreases e - j,
{
    if 0 <= j < e && e <= s.len() && s[j] != 34 {
        let nx = j + if s[j] == 92 {
            2int
        } else {
            1int
        };
        if nx < e {
            lemma_skip_quoted(s, nx, e);
        }
    }
}

pub proof fn lemma_closing_brace(s: Seq<u8>, i: int, e: int, depth: nat)
    requires
        0 <= i <= e <= s.len(),
    ensures
        i <= closing_brace(s, i, e, depth) <= e,
        closing_brace(s, i, e, depth) < e ==> s[closing_brace(s, i, e, depth)] == 125,
    decreases e - i,
{
    if i < e {
        if s[i] == 34 {
            lemma_skip_quoted(s, i + 1, e);
            let j = skip_quoted(s, i + 1, e);
            if i < j < e {
                lemma_closing_brace(s, j + 1, e, depth);
            }
        } else if s[i] == 123 {
            lemma_closing_brace(s, i + 1, e, depth + 1);
        } else if s[i] == 125 {
            if depth != 0 {
                lemma_closing_brace(s, i + 1, e, (depth - 1) as nat);
            }
        } else {
            lemma_closing_brace(s, i + 1, e, depth);
        }
    }
}



// ───────────────────────────── executable pass ─────────────────────────────

/// The node kind a lexed token becomes (an unlexable run, `None`, becomes
/// `ERROR`): never one of the kinds the layout pass or the string splitter
/// makes.
pub fn token_to_kind(t: Option<Token>) -> (k: SyntaxKind)
    ensures
        k == kind_of(t),
        t matches Some(x) ==> k != SyntaxKind::INDENT && k != SyntaxKind::DEDENT && k
            != SyntaxKind::ERROR && k != SyntaxKind::STRING_OPEN && k != SyntaxKind::STRING_TEXT && k
            != SyntaxKind::STRING_CLOSE && k != SyntaxKind::INTERP_OPEN,
{
    proof {
        if let Some(x) = t {
            lemma_token_kind_not_virtual(x);
        }
    }
    match t {
        None => SyntaxKind::ERROR,
        Some(t) => match t {
            Token::Whitespace => SyntaxKind::WHITESPACE,
            Token::Newline => SyntaxKind::NEWLINE,
            Token::Comment => SyntaxKind::COMMENT,
            Token::KwFrom => SyntaxKind::KW_FROM,
            Token::KwAnd => SyntaxKind::KW_AND,
            Token::KwOr => SyntaxKind::KW_OR,
            Token::KwNot => SyntaxKind::KW_NOT,
            Token::Ident => SyntaxKind::IDENT,
            Token::Integer => SyntaxKind::INTEGER,
            Token::Float => SyntaxKind::FLOAT,
            Token::True => SyntaxKind::BOOL,
            Token::False => SyntaxKind::BOOL,
            Token::String => SyntaxKind::STRING,
            Token::AtAttr => SyntaxKind::AT_ATTR,
            Token::Define => SyntaxKind::DEFINE,
            Token::Eq => SyntaxKind::EQ,
            Token::Neq => SyntaxKind::NEQ,
            Token::Le => SyntaxKind::LE,
            Token::Ge => SyntaxKind::GE,
            Token::Assign => SyntaxKind::ASSIGN,
            Token::Colon => SyntaxKind::SHAPE_SEP,
            Token::Dot => SyntaxKind::DOT,
            Token::Comma => SyntaxKind::COMMA,
            Token::LParen => SyntaxKind::LPAREN,
            Token::RParen => SyntaxKind::RPAREN,
            Token::LBrace => SyntaxKind::LBRACE,
            Token::RBrace => SyntaxKind::RBRACE,
            Token::Lt => SyntaxKind::LT,
            Token::Gt => SyntaxKind::GT,
            Token::Plus => SyntaxKind::PLUS,
            Token::Minus => SyntaxKind::MINUS,
            Token::Star => SyntaxKind::STAR,
            Token::Slash => SyntaxKind::SLASH,
            Token::Percent => SyntaxKind::PERCENT,
            Token::Question => SyntaxKind::T_QUESTION,
        },
    }
}

/// Append the token `kind` with the text of `input[start..end)`.
fn push_simple(
    out: &mut Vec<LexedToken>,
    kind: SyntaxKind,
    input: &str,
    start: usize,
    end: usize,
)
    requires
        start <= end <= input.spec_bytes().len(),
        on_boundary(input.spec_bytes(), start as int),
        on_boundary(input.spec_bytes(), end as int),
        texts_match(input.spec_bytes(), old(out)@),
    ensures
        lexed_view(final(out)@) == lexed_view(old(out)@).push((kind, start as int, end as int)),
        texts_match(input.spec_bytes(), final(out)@),
{
    let text = slice_text(input, start, end);
    let ghost before = out@;
    out.push(LexedToken { kind, text, range: start..end });
    proof {
        assert(lexed_view(out@) =~= lexed_view(before).push((kind, start as int, end as int)));
        assert forall|k: int| 0 <= k < out@.len() implies #[trigger] out@[k].range.start
            <= out@[k].range.end <= input.spec_bytes().len() && encode_utf8(out@[k].text@)
            == input.spec_bytes().subrange(
            out@[k].range.start as int,
            out@[k].range.end as int,
        ) by {
            if k < before.len() {
                assert(out@[k] == before[k]);
            }
        }
    }
}

/// Append a virtual token with empty text at `pos`.
fn push_virtual(out: &mut Vec<LexedToken>, kind: SyntaxKind, input: &str, pos: usize)
    requires
        pos <= input.spec_bytes().len(),
        texts_match(input.spec_bytes(), old(out)@),
    ensures
        lexed_view(final(out)@) == lexed_view(old(out)@).push((kind, pos as int, pos as int)),
        texts_match(input.spec_bytes(), final(out)@),
{
    let ghost before = out@;
    let text = String::new();
    let tok = LexedToken { kind, text, range: pos..pos };
    proof {
        assert(encode_utf8(tok.text@) =~= Seq::<u8>::empty());
        assert(input.spec_bytes().subrange(pos as int, pos as int) =~= Seq::<u8>::empty());
    }
    out.push(tok);
    proof {
        assert(lexed_view(out@) =~= lexed_view(before).push((kind, pos as int, pos as int)));
        let sb = input.spec_bytes();
        assert forall|k: int| 0 <= k < out@.len() implies #[trigger] out@[k].range.start
            <= out@[k].range.end <= sb.len() && encode_utf8(out@[k].text@) == sb.subrange(
            out@[k].range.start as int,
            out@[k].range.end as int,
        ) by {
            if k < before.len() {
                assert(out@[k] == before[k]);
            } else {
                assert(out@[k] == tok);
                assert(tok.range.start == pos && tok.range.end == pos);
                assert(encode_utf8(out@[k].text@) == Seq::<u8>::empty());
                assert(sb.subrange(pos as int, pos as int) =~= Seq::<u8>::empty());
            }
        }
        assert(texts_match(sb, out@));
    }
}

/// One line's indentation against a stack `st` whose bottom is `0` and which
/// rises strictly, giving the stack `st2` and the stream `out2` after `out`.
/// A deeper column pushes it and adds one `INDENT`. Otherwise the stack drops
/// to its longest prefix whose top is at most the column, and the stream
/// gains one `DEDENT` per level dropped, then an `ERROR` if that top is not
/// the column itself. All of them sit at `pos`.
#[verifier::opaque]
pub open spec fn indent_step(
    st: Seq<usize>,
    col: usize,
    pos: int,
    st2: Seq<usize>,
    out: Seq<Out>,
    out2: Seq<Out>,
) -> bool {
    &&& col > st.last() ==> st2 == st.push(col) && out2 == out.push((SyntaxKind::INDENT, pos, pos))
    &&& col <= st.last() ==> {
        let n = st2.len();
        &&& 1 <= n <= st.len()
        &&& st2 == st.take(n as int)
        &&& st2.last() <= col
        &&& forall|j: int| n <= j < st.len() ==> #[trigger] st[j] > col
        &&& out2 == out + dedents((st.len() - n) as nat, pos) + if st2.last() != col {
            seq![(SyntaxKind::ERROR, pos, pos)]
        } else {
            Seq::<Out>::empty()
        }
    }
}

/// Open or close indentation levels for a line whose first token is at `col`.
pub fn emit_indent_changes(
    out: &mut Vec<LexedToken>,
    stack: &mut Vec<usize>,
    col: usize,
    pos: usize,
    input: &str,
)
    requires
        stack_wf(old(stack)@),
        pos <= input.spec_bytes().len(),
        texts_match(input.spec_bytes(), old(out)@),
    ensures
        lexed_view(final(out)@) == lexed_view(old(out)@) + push_changes(
            old(stack)@,
            col,
            pos as int,
        ).0,
        final(stack)@ == push_changes(old(stack)@, col, pos as int).1,
        stack_wf(final(stack)@),
        texts_match(input.spec_bytes(), final(out)@),
        indent_step(
            old(stack)@,
            col,
            pos as int,
            final(stack)@,
            lexed_view(old(out)@),
            lexed_view(final(out)@),
        ),
{
    let top = stack[stack.len() - 1];
    if col > top {
        let ghost before = stack@;
        stack.push(col);
        push_virtual(out, SyntaxKind::INDENT, input, pos);
        proof {
            assert forall|j: int, k: int| 0 <= j < k < stack@.len() implies stack@[j]
                < stack@[k] by {
                if k < before.len() {
                    assert(stack@[j] == before[j] && stack@[k] == before[k]);
                } else {
                    assert(stack@[j] == before[j]);
                    assert(before[j] <= before.last());
                }
            }
            assert(lexed_view(out@) =~= lexed_view(old(out)@) + push_changes(
                before,
                col,
                pos as int,
            ).0);
        }
    } else {
        let ghost st0 = stack@;
        let ghost out0 = lexed_view(out@);
        while stack[stack.len() - 1] > col
            invariant
                stack_wf(stack@),
                pos <= input.spec_bytes().len(),
                texts_match(input.spec_bytes(), out@),
                out0 + pop_to(st0, col, pos as int).0 == lexed_view(out@) + pop_to(
                    stack@,
                    col,
                    pos as int,
                ).0,
                pop_to(st0, col, pos as int).1 == pop_to(stack@, col, pos as int).1,
            decreases stack@.len(),
        {
            let ghost before = stack@;
            let ghost vbefore = lexed_view(out@);
            assert(before.len() >= 2) by {
                if before.len() == 1 {
                    assert(before.last() == before[0]);
                }
            }
            stack.pop();
            push_virtual(out, SyntaxKind::DEDENT, input, pos);
            proof {
                assert(stack@ =~= before.drop_last());
                assert(vbefore + pop_to(before, col, pos as int).0 =~= lexed_view(out@) + pop_to(
                    stack@,
                    col,
                    pos as int,
                ).0);
            }
        }
        proof {
            assert(lexed_view(out@) + pop_to(stack@, col, pos as int).0 =~= lexed_view(out@));
        }
        if stack[stack.len() - 1] != col {
            push_virtual(out, SyntaxKind::ERROR, input, pos);
            proof {
                assert(lexed_view(out@) =~= out0 + push_changes(st0, col, pos as int).0);
            }
        } else {
            proof {
                assert(lexed_view(out@) =~= out0 + push_changes(st0, col, pos as int).0);
            }
        }
    }
    proof {
        lemma_indent_stack(old(stack)@, col, pos as int);
        reveal(indent_step);
        let pc = push_changes(old(stack)@, col, pos as int);
        if col > old(stack)@.last() {
            assert(lexed_view(old(out)@) + pc.0 =~= lexed_view(old(out)@).push(
                (SyntaxKind::INDENT, pos as int, pos as int),
            ));
        } else {
            assert(lexed_view(old(out)@) + pc.0 =~= lexed_view(old(out)@) + dedents(
                (old(stack)@.len() - pc.1.len()) as nat,
                pos as int,
            ) + if pc.1.last() != col {
                seq![(SyntaxKind::ERROR, pos as int, pos as int)]
            } else {
                Seq::<Out>::empty()
            });
        }
    }
}

fn find_hole_exec(s: &[u8], i: usize, e: usize) -> (r: Option<usize>)
    requires
        i <= e <= s@.len(),
    ensures
        r matches Some(h) ==> find_hole(s@, i as int, e as int) == Some(h as int),
        r is None ==> find_hole(s@, i as int, e as int) is None,
{
    let mut j: usize = i;
    while j < e
        invariant
            i <= j <= e <= s@.len(),
            find_hole(s@, i as int, e as int) == find_hole(s@, j as int, e as int),
        decreases e - j,
    {
        if s[j] == 123 && j + 1 < e && s[j + 1] == 123 {
            j = j + 2;
        } else if s[j] == 123 {
            return Some(j);
        } else {
            j = j + 1;
        }
    }
    None
}

fn closing_brace_exec(s: &[u8], i: usize, e: usize) -> (r: usize)
    requires
        i <= e <= s@.len(),
    ensures
        r == closing_brace(s@, i as int, e as int, 0),
{
    let mut j: usize = i;
    let mut depth: usize = 0;
    while j < e
        invariant
            i <= j <= e <= s@.len(),
            depth <= j,
            closing_brace(s@, i as int, e as int, 0) == closing_brace(
                s@,
                j as int,
                e as int,
                depth as nat,
            ),
        decreases e - j,
    {
        if s[j] == 34 {
            let mut k: usize = j + 1;
            while k < e && s[k] != 34
                invariant
                    i <= j < k <= e <= s@.len(),
                    s@[j as int] == 34,
                    closing_brace(s@, i as int, e as int, 0) == closing_brace(
                        s@,
                        j as int,
                        e as int,
                        depth as nat,
                    ),
                    skip_quoted(s@, j + 1, e as int) == skip_quoted(s@, k as int, e as int),
                decreases e - k,
            {
                if s[k] == 92 {
                    if k + 1 < e {
                        k = k + 2;
                    } else {
                        assert(skip_quoted(s@, k as int, e as int) == k + 2);
                        assert(closing_brace(s@, j as int, e as int, depth as nat) == e);
                        return e;
                    }
                } else {
                    k = k + 1;
                }
            }
            if k >= e {
                return e;
            }
            j = k + 1;
        } else if s[j] == 123 {
            depth = depth + 1;
            j = j + 1;
        } else if s[j] == 125 {
            if depth == 0 {
                return j;
            }
            depth = depth - 1;
            j = j + 1;
        } else {
            j = j + 1;
        }
    }
    e
}

/// Append the stream tokens of the raw tokens of `s[lo..hi)`.
fn push_relexed(out: &mut Vec<LexedToken>, input: &str, s: &[u8], lo: usize, hi: usize)
    requires
        s@ == input.spec_bytes(),
        lo <= hi <= s@.len(),
        on_boundary(s@, lo as int),
        on_boundary(s@, hi as int),
        texts_match(s@, old(out)@),
    ensures
        lexed_view(final(out)@) == lexed_view(old(out)@) + raw_to_out(
            lex_all(s@, lo as int, hi as int),
        ),
        texts_match(s@, final(out)@),
{
    let toks = lex_span(s, lo, hi);
    let ghost r = lex_all(s@, lo as int, hi as int);
    let ghost base = lexed_view(out@);
    proof {
        lemma_lex_all_on_boundaries(s@, lo as int, hi as int);
        lemma_lex_all_within(s@, lo as int, hi as int);
        assert(r.subrange(0, r.len() as int) =~= r);
    }
    let mut q: usize = 0;
    while q < toks.len()
        invariant
            s@ == input.spec_bytes(),
            lo <= hi <= s@.len(),
            spans_view(toks@) == r,
            r == lex_all(s@, lo as int, hi as int),
            0 <= q <= toks@.len(),
            forall|k: int|
                0 <= k < r.len() ==> on_boundary(s@, #[trigger] r[k].1) && on_boundary(
                    s@,
                    r[k].2,
                ),
            forall|k: int| 0 <= k < r.len() ==> lo <= #[trigger] r[k].1 < r[k].2 <= hi,
            texts_match(s@, out@),
            base + raw_to_out(r) == lexed_view(out@) + raw_to_out(
                r.subrange(q as int, r.len() as int),
            ),
        decreases toks@.len() - q,
    {
        let t = toks[q].0;
        let a = toks[q].1.start;
        let b = toks[q].1.end;
        assert(r[q as int] == (t, a as int, b as int));
        let kind = token_to_kind(t);
        let ghost vbefore = lexed_view(out@);
        push_simple(out, kind, input, a, b);
        proof {
            let tail = r.subrange(q as int, r.len() as int);
            assert(tail.drop_first() =~= r.subrange(q + 1, r.len() as int));
            assert(raw_to_out(tail) =~= seq![(kind, a as int, b as int)] + raw_to_out(
                tail.drop_first(),
            ));
            assert(vbefore + raw_to_out(tail) =~= lexed_view(out@) + raw_to_out(
                r.subrange(q + 1, r.len() as int),
            ));
        }
        q = q + 1;
    }
    proof {
        assert(r.subrange(q as int, r.len() as int) =~= Seq::<(Option<Token>, int, int)>::empty());
        assert(lexed_view(out@) + raw_to_out(Seq::<(Option<Token>, int, int)>::empty())
            =~= lexed_view(out@));
    }
}

/// Carve the string literal `s[a..b)` into its interpolation run, when it
/// holds at least one hole. Returns whether it carved.
fn carve_interpolations(out: &mut Vec<LexedToken>, input: &str, s: &[u8], a: usize, b: usize) -> (carved: bool)
    requires
        s@ == input.spec_bytes(),
        a + 2 <= b <= s@.len(),
        s@[a as int] == 34,
        s@[b - 1] == 34,
        texts_match(s@, old(out)@),
    ensures
        carved == carve(s@, a as int, b as int).is_some(),
        carved ==> lexed_view(final(out)@) == lexed_view(old(out)@) + carve(
            s@,
            a as int,
            b as int,
        ).unwrap(),
        !carved ==> final(out)@ == old(out)@,
        texts_match(s@, final(out)@),
{
    let ie = b - 1;
    let first = match find_hole_exec(s, a + 1, ie) {
        None => {
            return false;
        },
        Some(h) => h,
    };
    let ghost base = lexed_view(out@);
    let ghost whole = carve(s@, a as int, b as int).unwrap();
    proof {
        assert(valid_utf8(s@));
        lemma_after_ascii(s@, a as int + 1);
        lemma_after_ascii(s@, b as int);
    }
    push_simple(out, SyntaxKind::STRING_OPEN, input, a, a + 1);
    let mut cursor: usize = a + 1;
    let mut hole: Option<usize> = Some(first);
    proof {
        assert(whole =~= seq![(SyntaxKind::STRING_OPEN, a as int, a + 1)] + carve_loop(
            s@,
            ie as int,
            a + 1,
            Some(first as int),
        ) + seq![(SyntaxKind::STRING_CLOSE, ie as int, b as int)]);
    }
    while hole.is_some()
        invariant
            s@ == input.spec_bytes(),
            valid_utf8(s@),
            a + 2 <= b <= s@.len(),
            ie == b - 1,
            s@[ie as int] == 34,
            a + 1 <= cursor <= ie,
            on_boundary(s@, cursor as int),
            hole matches Some(h) ==> find_hole(s@, cursor as int, ie as int) == Some(h as int),
            hole is None ==> find_hole(s@, cursor as int, ie as int) is None,
            texts_match(s@, out@),
            base + whole == lexed_view(out@) + carve_loop(
                s@,
                ie as int,
                cursor as int,
                find_hole(s@, cursor as int, ie as int),
            ) + seq![(SyntaxKind::STRING_CLOSE, ie as int, b as int)],
        decreases ie - cursor,
    {
        let at = match hole {
            Some(h) => h,
            None => cursor,
        };
        proof {
            lemma_find_hole(s@, cursor as int, ie as int);
        }
        let ghost v0 = lexed_view(out@);
        let ghost c0 = cursor as int;
        if at > cursor {
            push_simple(out, SyntaxKind::STRING_TEXT, input, cursor, at);
        }
        proof {
            lemma_after_ascii(s@, at as int + 1);
        }
        push_simple(out, SyntaxKind::INTERP_OPEN, input, at, at + 1);
        let be = closing_brace_exec(s, at + 1, ie);
        proof {
            lemma_closing_brace(s@, at as int + 1, ie as int, 0);
        }
        let ghost v1 = lexed_view(out@);
        push_relexed(out, input, s, at + 1, be);
        let ghost v2 = lexed_view(out@);
        if be < ie {
            proof {
                lemma_after_ascii(s@, be as int + 1);
            }
            push_simple(out, SyntaxKind::RBRACE, input, be, be + 1);
            cursor = be + 1;
        } else {
            cursor = be;
        }
        hole = find_hole_exec(s, cursor, ie);
        proof {
            let pre = if at > c0 {
                seq![(SyntaxKind::STRING_TEXT, c0, at as int)]
            } else {
                Seq::empty()
            };
            let close = if be < ie {
                seq![(SyntaxKind::RBRACE, be as int, be + 1)]
            } else {
                Seq::empty()
            };
            let body = raw_to_out(lex_all(s@, at + 1, be as int));
            assert(carve_loop(s@, ie as int, c0, Some(at as int)) == pre + seq![
                (SyntaxKind::INTERP_OPEN, at as int, at + 1),
            ] + body + close + carve_loop(
                s@,
                ie as int,
                cursor as int,
                find_hole(s@, cursor as int, ie as int),
            ));
            assert(lexed_view(out@) =~= v0 + pre + seq![(SyntaxKind::INTERP_OPEN, at as int, at + 1)]
                + body + close);
        }
    }
    if cursor < ie {
        push_simple(out, SyntaxKind::STRING_TEXT, input, cursor, ie);
    }
    push_simple(out, SyntaxKind::STRING_CLOSE, input, ie, b);
    proof {
        assert(lexed_view(out@) =~= base + whole);
    }
    true
}

/// Run the post-lexer pass over `input`, producing the parser-ready stream.
///
/// The stream holds every byte of `input` as the text of exactly one token, in
/// order: whitespace, newlines and comments as trivia, and a run the lexer had
/// no rule for as an `ERROR` token carrying that text. The tokens with a
/// non-empty range, in order, tile the input: each starts where the one
/// before it ended.
pub fn lex_with_indents(input: &str) -> (out: Vec<LexedToken>)
    ensures
        lexed_view(out@) == indent_all(input.spec_bytes()),
        texts_match(input.spec_bytes(), out@),
        tiled(lexed_view(out@), 0, input.spec_bytes().len() as int),
{
    let s = input.as_bytes();
    let raw = lex_span(s, 0, s.len());
    let ghost r = lex_all(s@, 0, s@.len() as int);
    proof {
        assert(valid_utf8(s@));
        lemma_lex_all_on_boundaries(s@, 0, s@.len() as int);
        lemma_lex_all_within(s@, 0, s@.len() as int);
        lemma_lex_all_strings(s@, 0, s@.len() as int);
    }
    let mut out: Vec<LexedToken> = Vec::new();
    let mut stack: Vec<usize> = Vec::new();
    stack.push(0);
    let mut at_line_start = true;
    let mut i: usize = 0;
    proof {
        assert(stack@ =~= seq![0usize]);
        assert(lexed_view(out@) =~= Seq::<Out>::empty());
    }
    while i < raw.len()
        invariant
            s@ == input.spec_bytes(),
            valid_utf8(s@),
            r == lex_all(s@, 0, s@.len() as int),
            spans_view(raw@) == r,
            0 <= i <= raw@.len(),
            forall|k: int|
                0 <= k < r.len() ==> on_boundary(s@, #[trigger] r[k].1) && on_boundary(
                    s@,
                    r[k].2,
                ),
            forall|k: int| 0 <= k < r.len() ==> 0 <= #[trigger] r[k].1 < r[k].2 <= s@.len(),
            forall|k: int|
                0 <= k < r.len() && #[trigger] r[k].0 == Some(Token::String) ==> s@[r[k].1] == 34
                    && s@[r[k].2 - 1] == 34 && r[k].1 + 2 <= r[k].2,
            stack_wf(stack@),
            texts_match(s@, out@),
            lexed_view(out@) + indent_from(s@, r, i as int, stack@, at_line_start) == indent_all(
                s@,
            ),
        decreases raw@.len() - i,
    {
        let tok = raw[i].0;
        let a = raw[i].1.start;
        let b = raw[i].1.end;
        assert(r[i as int] == (tok, a as int, b as int));
        let ghost v0 = lexed_view(out@);
        let ghost st0 = stack@;
        let ghost ls0 = at_line_start;
        match tok {
            Some(Token::Newline) => {
                push_simple(&mut out, SyntaxKind::NEWLINE, input, a, b);
                at_line_start = true;
                proof {
                    assert(lexed_view(out@) + indent_from(s@, r, i + 1, stack@, at_line_start)
                        =~= v0 + indent_from(s@, r, i as int, st0, ls0));
                }
            },
            Some(Token::Whitespace) => {
                push_simple(&mut out, SyntaxKind::WHITESPACE, input, a, b);
                if at_line_start {
                    let quiet = if i + 1 < raw.len() {
                        match raw[i + 1].0 {
                            Some(Token::Newline) => true,
                            Some(Token::Comment) => true,
                            _ => false,
                        }
                    } else {
                        true
                    };
                    proof {
                        if i + 1 < raw.len() {
                            assert(r[i + 1].0 == raw@[i + 1].0);
                        }
                    }
                    if !quiet {
                        let ghost v1 = lexed_view(out@);
                        emit_indent_changes(&mut out, &mut stack, b - a, a, input);
                        at_line_start = false;
                        proof {
                            assert(lexed_view(out@) + indent_from(
                                s@,
                                r,
                                i + 1,
                                stack@,
                                at_line_start,
                            ) =~= v0 + indent_from(s@, r, i as int, st0, ls0));
                        }
                    } else {
                        proof {
                            assert(lexed_view(out@) + indent_from(
                                s@,
                                r,
                                i + 1,
                                stack@,
                                at_line_start,
                            ) =~= v0 + indent_from(s@, r, i as int, st0, ls0));
                        }
                    }
                } else {
                    proof {
                        assert(lexed_view(out@) + indent_from(s@, r, i + 1, stack@, at_line_start)
                            =~= v0 + indent_from(s@, r, i as int, st0, ls0));
                    }
                }
            },
            Some(Token::Comment) => {
                push_simple(&mut out, SyntaxKind::COMMENT, input, a, b);
                proof {
                    assert(lexed_view(out@) + indent_from(s@, r, i + 1, stack@, at_line_start)
                        =~= v0 + indent_from(s@, r, i as int, st0, ls0));
                }
            },
            _ => {
                if at_line_start {
                    emit_indent_changes(&mut out, &mut stack, 0, a, input);
                    at_line_start = false;
                }
                let ghost v1 = lexed_view(out@);
                let carved = match tok {
                    Some(Token::String) => carve_interpolations(&mut out, input, s, a, b),
                    _ => false,
                };
                if !carved {
                    let kind = token_to_kind(tok);
                    push_simple(&mut out, kind, input, a, b);
                }
                proof {
                    let body = if tok == Some(Token::String) && carve(
                        s@,
                        a as int,
                        b as int,
                    ).is_some() {
                        carve(s@, a as int, b as int).unwrap()
                    } else {
                        seq![(kind_of(tok), a as int, b as int)]
                    };
                    assert(lexed_view(out@) =~= v1 + body);
                    assert(lexed_view(out@) + indent_from(s@, r, i + 1, stack@, at_line_start)
                        =~= v0 + indent_from(s@, r, i as int, st0, ls0));
                }
            },
        }
        i = i + 1;
    }
    let n = s.len();
    while stack.len() > 1
        invariant
            s@ == input.spec_bytes(),
            n == s@.len(),
            stack_wf(stack@),
            texts_match(s@, out@),
            lexed_view(out@) + dedents((stack@.len() - 1) as nat, n as int) == indent_all(s@),
        decreases stack@.len(),
    {
        let ghost v0 = lexed_view(out@);
        let ghost st0 = stack@;
        stack.pop();
        push_virtual(&mut out, SyntaxKind::DEDENT, input, n);
        proof {
            assert(stack@ =~= st0.drop_last());
            assert forall|j: int, k: int| 0 <= j < k < stack@.len() implies stack@[j]
                < stack@[k] by {
                assert(stack@[j] == st0[j] && stack@[k] == st0[k]);
            }
            assert(dedents((st0.len() - 1) as nat, n as int) =~= seq![(SyntaxKind::DEDENT, n as int, n as int)]
                + dedents((stack@.len() - 1) as nat, n as int));
            assert(lexed_view(out@) + dedents((stack@.len() - 1) as nat, n as int) =~= v0 + dedents(
                (st0.len() - 1) as nat,
                n as int,
            ));
        }
    }
    proof {
        assert(dedents(0, n as int) =~= Seq::<Out>::empty());
        assert(lexed_view(out@) + dedents(0, n as int) =~= lexed_view(out@));
        lemma_indent_tiles(s@);
    }
    out
}

} // verus!
