//! The raw lexical layer: one token per terminal of the grammar's lexical
//! layer, found by longest match over the bytes of the source.
//!
//! Whitespace and newlines are real tokens (the indentation pass measures
//! columns with them), and a byte no rule matches is not dropped: the lossless
//! pass reports it as `None` with its range, so every byte of the input lies in
//! exactly one reported range.
//!
//! The rules, in the order they are tried when two match the same length:
//!
//! - `[ \t]+` whitespace, `\n` newline, `//[^\n]*` comment;
//! - the keywords `from`, `and`, `or`, `not` and the literals `true`, `false`,
//!   which win over an identifier of the same length;
//! - `@[A-Za-z_][A-Za-z0-9_]*` attribute marker;
//! - `[0-9][0-9_]*\.[0-9][0-9_]*` float, `[0-9][0-9_]*` integer;
//! - `[A-Za-z_][A-Za-z0-9_]*` identifier;
//! - `"([^"\\]|\\.)*"` string;
//! - `:=`, `==`, `!=`, `<=`, `>=` and the one-byte punctuation.
//!
//! A run no rule matches is one unlexable token: an unterminated string runs
//! to where it can no longer continue, anything else takes one character.

use vstd::prelude::*;
use vstd::string::StringSliceAdditionalSpecFns;
use vstd::utf8::valid_utf8;

use crate::text::{lemma_after_ascii, on_boundary};

verus! {

/// One terminal of the lexical layer.
#[derive(Debug, Clone, Copy, PartialEq, Eq, Structural, Hash)]
pub enum Token {
    Whitespace,
    Newline,
    Comment,
    KwFrom,
    KwAnd,
    KwOr,
    KwNot,
    AtAttr,
    True,
    False,
    Float,
    Integer,
    Ident,
    String,
    Define,
    Eq,
    Neq,
    Le,
    Ge,
    Assign,
    Colon,
    Dot,
    Comma,
    LParen,
    RParen,
    LBrace,
    RBrace,
    Lt,
    Gt,
    Plus,
    Minus,
    Star,
    Slash,
    Percent,
    Question,
}

/// The byte classes the repeating parts of the rules range over.
#[derive(Debug, Clone, Copy, PartialEq, Eq, Structural)]
pub enum ByteClass {
    /// `[ \t]`
    Blank,
    /// `[^\n]`
    NotNewline,
    /// `[0-9_]`
    DigitOrUnderscore,
    /// `[A-Za-z0-9_]`
    IdentContinue,
    /// A UTF-8 continuation byte, `0x80..=0xBF`.
    Continuation,
}

pub open spec fn is_digit(b: u8) -> bool {
    48 <= b <= 57
}

pub open spec fn is_alpha(b: u8) -> bool {
    (65 <= b <= 90) || (97 <= b <= 122)
}

pub open spec fn is_ident_start(b: u8) -> bool {
    is_alpha(b) || b == 95
}

pub open spec fn in_class(c: ByteClass, b: u8) -> bool {
    match c {
        ByteClass::Blank => b == 32 || b == 9,
        ByteClass::NotNewline => b != 10,
        ByteClass::DigitOrUnderscore => is_digit(b) || b == 95,
        ByteClass::IdentContinue => is_ident_start(b) || is_digit(b),
        ByteClass::Continuation => 128 <= b <= 191,
    }
}

/// Length of the longest run of bytes of class `c` in `s[i..e)` starting at `i`.
pub open spec fn run_len(s: Seq<u8>, i: int, e: int, c: ByteClass) -> int
    decreases e - i,
{
    if 0 <= i < e && e <= s.len() && in_class(c, s[i]) {
        1 + run_len(s, i + 1, e, c)
    } else {
        0
    }
}

/// Scanning the body of a string literal from `i` (just past the opening
/// quote) in `s[..e)`: whether a closing quote is reached, and the offset where
/// the scan stops — one past the closing quote, or the first byte that cannot
/// continue the literal (the newline after a backslash, or `e`).
pub open spec fn string_end(s: Seq<u8>, i: int, e: int) -> (bool, int)
    decreases e - i,
{
    if !(0 <= i < e && e <= s.len()) {
        (false, e)
    } else if s[i] == 34 {
        (true, i + 1)
    } else if s[i] == 92 {
        if i + 1 < e && s[i + 1] != 10 {
            string_end(s, i + 2, e)
        } else {
            (false, i + 1)
        }
    } else {
        string_end(s, i + 1, e)
    }
}

/// The keyword or literal a whole identifier-shaped lexeme spells, if any.
pub open spec fn keyword(w: Seq<u8>) -> Option<Token> {
    if w =~= seq![102u8, 114u8, 111u8, 109u8] {
        Some(Token::KwFrom)
    } else if w =~= seq![97u8, 110u8, 100u8] {
        Some(Token::KwAnd)
    } else if w =~= seq![111u8, 114u8] {
        Some(Token::KwOr)
    } else if w =~= seq![110u8, 111u8, 116u8] {
        Some(Token::KwNot)
    } else if w =~= seq![116u8, 114u8, 117u8, 101u8] {
        Some(Token::True)
    } else if w =~= seq![102u8, 97u8, 108u8, 115u8, 101u8] {
        Some(Token::False)
    } else {
        None
    }
}

/// Whether `s[i]` exists below `e` and equals `b`.
pub open spec fn byte_at(s: Seq<u8>, i: int, e: int, b: u8) -> bool {
    0 <= i < e && e <= s.len() && s[i] == b
}

/// The one-byte punctuation tokens.
pub open spec fn single(b: u8) -> Option<Token> {
    if b == 46 {
        Some(Token::Dot)
    } else if b == 44 {
        Some(Token::Comma)
    } else if b == 40 {
        Some(Token::LParen)
    } else if b == 41 {
        Some(Token::RParen)
    } else if b == 123 {
        Some(Token::LBrace)
    } else if b == 125 {
        Some(Token::RBrace)
    } else if b == 43 {
        Some(Token::Plus)
    } else if b == 45 {
        Some(Token::Minus)
    } else if b == 42 {
        Some(Token::Star)
    } else if b == 37 {
        Some(Token::Percent)
    } else if b == 63 {
        Some(Token::Question)
    } else {
        None
    }
}

/// Length of the integer lexeme starting at a digit `s[i]`.
pub open spec fn int_len(s: Seq<u8>, i: int, e: int) -> int {
    1 + run_len(s, i + 1, e, ByteClass::DigitOrUnderscore)
}

/// The token at `s[i]`, reading no further than `e`, and its length in bytes.
/// `None` is a run no rule matches.
pub open spec fn next_token(s: Seq<u8>, i: int, e: int) -> (Option<Token>, int) {
    let b = s[i];
    if b == 32 || b == 9 {
        (Some(Token::Whitespace), run_len(s, i, e, ByteClass::Blank))
    } else if b == 10 {
        (Some(Token::Newline), 1)
    } else if b == 47 {
        if byte_at(s, i + 1, e, 47) {
            (Some(Token::Comment), 2 + run_len(s, i + 2, e, ByteClass::NotNewline))
        } else {
            (Some(Token::Slash), 1)
        }
    } else if b == 64 {
        if i + 1 < e && is_ident_start(s[i + 1]) {
            (Some(Token::AtAttr), 2 + run_len(s, i + 2, e, ByteClass::IdentContinue))
        } else {
            (None, 1)
        }
    } else if is_digit(b) {
        let n = int_len(s, i, e);
        if byte_at(s, i + n, e, 46) && i + n + 1 < e && is_digit(s[i + n + 1]) {
            (Some(Token::Float), n + 2 + run_len(s, i + n + 2, e, ByteClass::DigitOrUnderscore))
        } else {
            (Some(Token::Integer), n)
        }
    } else if is_ident_start(b) {
        let n = 1 + run_len(s, i + 1, e, ByteClass::IdentContinue);
        match keyword(s.subrange(i, i + n)) {
            Some(k) => (Some(k), n),
            None => (Some(Token::Ident), n),
        }
    } else if b == 34 {
        let (closed, end) = string_end(s, i + 1, e);
        if closed {
            (Some(Token::String), end - i)
        } else {
            (None, end - i)
        }
    } else if b == 58 {
        if byte_at(s, i + 1, e, 61) {
            (Some(Token::Define), 2)
        } else {
            (Some(Token::Colon), 1)
        }
    } else if b == 61 {
        if byte_at(s, i + 1, e, 61) {
            (Some(Token::Eq), 2)
        } else {
            (Some(Token::Assign), 1)
        }
    } else if b == 33 {
        if byte_at(s, i + 1, e, 61) {
            (Some(Token::Neq), 2)
        } else {
            (None, 1)
        }
    } else if b == 60 {
        if byte_at(s, i + 1, e, 61) {
            (Some(Token::Le), 2)
        } else {
            (Some(Token::Lt), 1)
        }
    } else if b == 62 {
        if byte_at(s, i + 1, e, 61) {
            (Some(Token::Ge), 2)
        } else {
            (Some(Token::Gt), 1)
        }
    } else {
        match single(b) {
            Some(t) => (Some(t), 1),
            None => (None, 1 + run_len(s, i + 1, e, ByteClass::Continuation)),
        }
    }
}

/// The lossless token stream of `s[i..e)`: every token with its kind (or
/// `None`) and its absolute byte range.
pub open spec fn lex_all(s: Seq<u8>, i: int, e: int) -> Seq<(Option<Token>, int, int)>
    decreases e - i,
{
    if 0 <= i < e && e <= s.len() {
        let (t, n) = next_token(s, i, e);
        if n >= 1 && i + n <= e {
            seq![(t, i, i + n)] + lex_all(s, i + n, e)
        } else {
            Seq::empty()
        }
    } else {
        Seq::empty()
    }
}

/// The plain view of a produced token stream.
pub open spec fn spans_view(v: Seq<(Option<Token>, std::ops::Range<usize>)>) -> Seq<
    (Option<Token>, int, int),
> {
    v.map_values(|t: (Option<Token>, std::ops::Range<usize>)| (t.0, t.1.start as int, t.1.end as int))
}

/// The lossy view: the stream with the unlexable runs dropped.
pub open spec fn drop_unlexable(v: Seq<(Option<Token>, int, int)>) -> Seq<(Token, int, int)>
    decreases v.len(),
{
    if v.len() == 0 {
        Seq::empty()
    } else {
        let rest = drop_unlexable(v.drop_first());
        match v[0].0 {
            Some(t) => seq![(t, v[0].1, v[0].2)] + rest,
            None => rest,
        }
    }
}

pub proof fn lemma_run_len_bounds(s: Seq<u8>, i: int, e: int, c: ByteClass)
    ensures
        0 <= run_len(s, i, e, c),
        0 <= i <= e <= s.len() ==> i + run_len(s, i, e, c) <= e,
    decreases e - i,
{
    if 0 <= i < e && e <= s.len() && in_class(c, s[i]) {
        lemma_run_len_bounds(s, i + 1, e, c);
    }
}

pub proof fn lemma_string_end_bounds(s: Seq<u8>, i: int, e: int)
    requires
        0 <= i <= e <= s.len(),
    ensures
        i <= string_end(s, i, e).1 <= e,
        string_end(s, i, e).0 ==> i < string_end(s, i, e).1,
    decreases e - i,
{
    if i < e && s[i] != 34 {
        if s[i] == 92 {
            if i + 1 < e && s[i + 1] != 10 {
                lemma_string_end_bounds(s, i + 2, e);
            }
        } else {
            lemma_string_end_bounds(s, i + 1, e);
        }
    }
}

/// Every token is at least one byte long and ends within the lexed range.
pub proof fn lemma_next_token_len(s: Seq<u8>, i: int, e: int)
    requires
        0 <= i < e <= s.len(),
    ensures
        1 <= next_token(s, i, e).1,
        i + next_token(s, i, e).1 <= e,
{
    lemma_run_len_bounds(s, i, e, ByteClass::Blank);
    lemma_run_len_bounds(s, i + 2, e, ByteClass::NotNewline);
    lemma_run_len_bounds(s, i + 2, e, ByteClass::IdentContinue);
    lemma_run_len_bounds(s, i + 1, e, ByteClass::IdentContinue);
    lemma_run_len_bounds(s, i + 1, e, ByteClass::DigitOrUnderscore);
    lemma_run_len_bounds(s, i + 1, e, ByteClass::Continuation);
    if is_digit(s[i]) {
        let n = int_len(s, i, e);
        if i + n + 2 <= e {
            lemma_run_len_bounds(s, i + n + 2, e, ByteClass::DigitOrUnderscore);
        }
    }
    if s[i] == 32 || s[i] == 9 {
        assert(run_len(s, i, e, ByteClass::Blank) == 1 + run_len(s, i + 1, e, ByteClass::Blank));
        lemma_run_len_bounds(s, i + 1, e, ByteClass::Blank);
    }
    if s[i] == 34 {
        lemma_string_end_bounds(s, i + 1, e);
    }
}

/// The token stream covers `s[i..e)` exactly: the ranges are contiguous, each
/// non-empty, the first starts at `i` and the last ends at `e`.
pub open spec fn tiles(v: Seq<(Option<Token>, int, int)>, i: int, e: int) -> bool {
    &&& (v.len() == 0 <==> i == e)
    &&& v.len() > 0 ==> v[0].1 == i && v[v.len() - 1].2 == e
    &&& forall|k: int| 0 <= k < v.len() ==> #[trigger] v[k].1 < v[k].2
    &&& forall|k: int| 0 <= k < v.len() - 1 ==> #[trigger] v[k].2 == v[k + 1].1
}

/// Losslessness of the raw layer: the token ranges tile the input.
pub proof fn lemma_lex_all_tiles(s: Seq<u8>, i: int, e: int)
    requires
        0 <= i <= e <= s.len(),
    ensures
        tiles(lex_all(s, i, e), i, e),
    decreases e - i,
{
    if i < e {
        lemma_next_token_len(s, i, e);
        let n = next_token(s, i, e).1;
        lemma_lex_all_tiles(s, i + n, e);
        let rest = lex_all(s, i + n, e);
        let v = lex_all(s, i, e);
        assert(v =~= seq![(next_token(s, i, e).0, i, i + n)] + rest);
        assert forall|k: int| 0 <= k < v.len() implies #[trigger] v[k].1 < v[k].2 by {
            if k > 0 {
                assert(v[k] == rest[k - 1]);
            }
        }
        assert forall|k: int| 0 <= k < v.len() - 1 implies #[trigger] v[k].2 == v[k + 1].1 by {
            if k > 0 {
                assert(v[k] == rest[k - 1]);
                assert(v[k + 1] == rest[k]);
            }
        }
        if rest.len() > 0 {
            assert(v[v.len() - 1] == rest[rest.len() - 1]);
        }
    }
}


pub proof fn lemma_run_end(s: Seq<u8>, i: int, e: int, c: ByteClass)
    requires
        0 <= i <= e <= s.len(),
    ensures
        i + run_len(s, i, e, c) == e || !in_class(c, s[i + run_len(s, i, e, c)]),
        run_len(s, i, e, c) > 0 ==> in_class(c, s[i + run_len(s, i, e, c) - 1]),
    decreases e - i,
{
    if i < e && in_class(c, s[i]) {
        lemma_run_end(s, i + 1, e, c);
    }
}

pub proof fn lemma_string_end_stop(s: Seq<u8>, i: int, e: int)
    requires
        1 <= i <= e <= s.len(),
    ensures
        string_end(s, i, e).0 ==> s[string_end(s, i, e).1 - 1] == 34,
        !string_end(s, i, e).0 ==> string_end(s, i, e).1 == e || s[string_end(s, i, e).1] == 10,
    decreases e - i,
{
    if i < e && s[i] != 34 {
        if s[i] == 92 {
            if i + 1 < e && s[i + 1] != 10 {
                lemma_string_end_stop(s, i + 2, e);
            }
        } else {
            lemma_string_end_stop(s, i + 1, e);
        }
    }
}

/// In UTF-8 text, every token that starts on a character boundary ends on one.
pub proof fn lemma_token_end_on_boundary(s: Seq<u8>, i: int, e: int)
    requires
        valid_utf8(s),
        0 <= i < e <= s.len(),
        on_boundary(s, e),
    ensures
        on_boundary(s, i + next_token(s, i, e).1),
{
    lemma_next_token_len(s, i, e);
    let p = i + next_token(s, i, e).1;
    let b = s[i];
    if p == e {
    } else if b == 32 || b == 9 {
        lemma_run_end(s, i, e, ByteClass::Blank);
        lemma_after_ascii(s, p);
    } else if b == 47 && byte_at(s, i + 1, e, 47) {
        lemma_run_end(s, i + 2, e, ByteClass::NotNewline);
    } else if b == 64 && i + 1 < e && is_ident_start(s[i + 1]) {
        lemma_run_end(s, i + 2, e, ByteClass::IdentContinue);
        lemma_after_ascii(s, p);
    } else if is_digit(b) {
        lemma_run_end(s, i + 1, e, ByteClass::DigitOrUnderscore);
        let n = int_len(s, i, e);
        if byte_at(s, i + n, e, 46) && i + n + 1 < e && is_digit(s[i + n + 1]) {
            lemma_run_end(s, i + n + 2, e, ByteClass::DigitOrUnderscore);
            let m = run_len(s, i + n + 2, e, ByteClass::DigitOrUnderscore);
            assert(p == i + n + 2 + m);
            if m == 0 {
                assert(s[p - 1] == s[i + n + 1]);
            } else {
                let q = i + n + 2;
                assert(0 <= q <= e);
                lemma_run_end(s, q, e, ByteClass::DigitOrUnderscore);
                lemma_run_len_bounds(s, q, e, ByteClass::DigitOrUnderscore);
                assert(run_len(s, q, e, ByteClass::DigitOrUnderscore) == m);
                assert(in_class(ByteClass::DigitOrUnderscore, s[q + m - 1]));
                assert(q + m - 1 == p - 1);
            }
        } else {
            let m = run_len(s, i + 1, e, ByteClass::DigitOrUnderscore);
            assert(p == i + 1 + m);
            if m == 0 {
                assert(s[p - 1] == s[i]);
            } else {
                lemma_run_len_bounds(s, i + 1, e, ByteClass::DigitOrUnderscore);
                assert(in_class(ByteClass::DigitOrUnderscore, s[i + 1 + m - 1]));
            }
        }
        lemma_after_ascii(s, p);
    } else if is_ident_start(b) {
        lemma_run_end(s, i + 1, e, ByteClass::IdentContinue);
        lemma_after_ascii(s, p);
    } else if b == 34 {
        lemma_string_end_stop(s, i + 1, e);
        if string_end(s, i + 1, e).0 {
            lemma_after_ascii(s, p);
        }
    } else if b == 10 || b == 47 || b == 64 || b == 58 || b == 61 || b == 33 || b == 60 || b == 62
        || single(b).is_some() {
        lemma_after_ascii(s, p);
    } else {
        lemma_run_end(s, i + 1, e, ByteClass::Continuation);
    }
}

/// In UTF-8 text, every range of the token stream of a span that starts and
/// ends on character boundaries starts and ends on character boundaries.
pub proof fn lemma_lex_all_on_boundaries(s: Seq<u8>, i: int, e: int)
    requires
        valid_utf8(s),
        0 <= i <= e <= s.len(),
        on_boundary(s, i),
        on_boundary(s, e),
    ensures
        forall|k: int|
            0 <= k < lex_all(s, i, e).len() ==> on_boundary(s, #[trigger] lex_all(s, i, e)[k].1)
                && on_boundary(s, lex_all(s, i, e)[k].2),
    decreases e - i,
{
    if i < e {
        lemma_next_token_len(s, i, e);
        lemma_token_end_on_boundary(s, i, e);
        let n = next_token(s, i, e).1;
        lemma_lex_all_on_boundaries(s, i + n, e);
        let rest = lex_all(s, i + n, e);
        let v = lex_all(s, i, e);
        assert(v =~= seq![(next_token(s, i, e).0, i, i + n)] + rest);
        assert forall|k: int| 0 <= k < v.len() implies on_boundary(s, #[trigger] v[k].1)
            && on_boundary(s, v[k].2) by {
            if k > 0 {
                assert(v[k] == rest[k - 1]);
            }
        }
    }
}

/// Every range of the token stream of `s[i..e)` is a non-empty part of it.
pub proof fn lemma_lex_all_within(s: Seq<u8>, i: int, e: int)
    requires
        0 <= i <= e <= s.len(),
    ensures
        forall|k: int|
            0 <= k < lex_all(s, i, e).len() ==> i <= #[trigger] lex_all(s, i, e)[k].1 < lex_all(
                s,
                i,
                e,
            )[k].2 <= e,
    decreases e - i,
{
    if i < e {
        lemma_next_token_len(s, i, e);
        let n = next_token(s, i, e).1;
        lemma_lex_all_within(s, i + n, e);
        let rest = lex_all(s, i + n, e);
        let v = lex_all(s, i, e);
        assert(v =~= seq![(next_token(s, i, e).0, i, i + n)] + rest);
        assert forall|k: int| 0 <= k < v.len() implies i <= #[trigger] v[k].1 < v[k].2 <= e by {
            if k > 0 {
                assert(v[k] == rest[k - 1]);
            }
        }
    }
}

/// A string token starts and ends with a double quote and spans at least two bytes.
pub proof fn lemma_lex_all_strings(s: Seq<u8>, i: int, e: int)
    requires
        0 <= i <= e <= s.len(),
    ensures
        forall|k: int|
            0 <= k < lex_all(s, i, e).len() && #[trigger] lex_all(s, i, e)[k].0 == Some(
                Token::String,
            ) ==> s[lex_all(s, i, e)[k].1] == 34 && s[lex_all(s, i, e)[k].2 - 1] == 34
                && lex_all(s, i, e)[k].1 + 2 <= lex_all(s, i, e)[k].2,
    decreases e - i,
{
    if i < e {
        lemma_next_token_len(s, i, e);
        let n = next_token(s, i, e).1;
        lemma_lex_all_strings(s, i + n, e);
        let rest = lex_all(s, i + n, e);
        let v = lex_all(s, i, e);
        assert(v =~= seq![(next_token(s, i, e).0, i, i + n)] + rest);
        if next_token(s, i, e).0 == Some(Token::String) {
            lemma_string_end_stop(s, i + 1, e);
            lemma_string_end_bounds(s, i + 1, e);
        }
        assert forall|k: int|
            0 <= k < v.len() && #[trigger] v[k].0 == Some(Token::String) implies s[v[k].1] == 34
            && s[v[k].2 - 1] == 34 && v[k].1 + 2 <= v[k].2 by {
            if k > 0 {
                assert(v[k] == rest[k - 1]);
            }
        }
    }
}

fn run_len_exec(s: &[u8], i: usize, e: usize, c: ByteClass) -> (n: usize)
    requires
        i <= e <= s@.len(),
    ensures
        n == run_len(s@, i as int, e as int, c),
        i + n <= e,
{
    let mut j: usize = i;
    while j < e && class_contains(c, s[j])
        invariant
            i <= j <= e <= s@.len(),
            run_len(s@, i as int, e as int, c) == (j - i) + run_len(s@, j as int, e as int, c),
        decreases e - j,
    {
        j = j + 1;
    }
    proof {
        lemma_run_len_bounds(s@, j as int, e as int, c);
    }
    j - i
}

fn class_contains(c: ByteClass, b: u8) -> (r: bool)
    ensures
        r == in_class(c, b),
{
    match c {
        ByteClass::Blank => b == 32 || b == 9,
        ByteClass::NotNewline => b != 10,
        ByteClass::DigitOrUnderscore => (48 <= b && b <= 57) || b == 95,
        ByteClass::IdentContinue => (65 <= b && b <= 90) || (97 <= b && b <= 122) || b == 95 || (
        48 <= b && b <= 57),
        ByteClass::Continuation => 128 <= b && b <= 191,
    }
}

fn string_end_exec(s: &[u8], i: usize, e: usize) -> (r: (bool, usize))
    requires
        i <= e <= s@.len(),
    ensures
        r.0 == string_end(s@, i as int, e as int).0,
        r.1 == string_end(s@, i as int, e as int).1,
{
    let mut j: usize = i;
    while j < e
        invariant
            i <= j <= e <= s@.len(),
            string_end(s@, i as int, e as int) == string_end(s@, j as int, e as int),
        decreases e - j,
    {
        if s[j] == 34 {
            return (true, j + 1);
        } else if s[j] == 92 {
            if j + 1 < e && s[j + 1] != 10 {
                j = j + 2;
            } else {
                return (false, j + 1);
            }
        } else {
            j = j + 1;
        }
    }
    (false, e)
}

fn byte_at_exec(s: &[u8], i: usize, e: usize, b: u8) -> (r: bool)
    requires
        e <= s@.len(),
    ensures
        r == byte_at(s@, i as int, e as int, b),
{
    i < e && s[i] == b
}

fn keyword_exec(s: &[u8], i: usize, n: usize) -> (r: Option<Token>)
    requires
        i + n <= s@.len(),
    ensures
        r == keyword(s@.subrange(i as int, i + n)),
{
    let ghost w = s@.subrange(i as int, i + n);
    if n == 4 && s[i] == 102 && s[i + 1] == 114 && s[i + 2] == 111 && s[i + 3] == 109 {
        assert(w =~= seq![102u8, 114u8, 111u8, 109u8]);
        Some(Token::KwFrom)
    } else if n == 3 && s[i] == 97 && s[i + 1] == 110 && s[i + 2] == 100 {
        assert(w =~= seq![97u8, 110u8, 100u8]);
        Some(Token::KwAnd)
    } else if n == 2 && s[i] == 111 && s[i + 1] == 114 {
        assert(w =~= seq![111u8, 114u8]);
        Some(Token::KwOr)
    } else if n == 3 && s[i] == 110 && s[i + 1] == 111 && s[i + 2] == 116 {
        assert(w =~= seq![110u8, 111u8, 116u8]);
        Some(Token::KwNot)
    } else if n == 4 && s[i] == 116 && s[i + 1] == 114 && s[i + 2] == 117 && s[i + 3] == 101 {
        assert(w =~= seq![116u8, 114u8, 117u8, 101u8]);
        Some(Token::True)
    } else if n == 5 && s[i] == 102 && s[i + 1] == 97 && s[i + 2] == 108 && s[i + 3] == 115 && s[i
        + 4] == 101 {
        assert(w =~= seq![102u8, 97u8, 108u8, 115u8, 101u8]);
        Some(Token::False)
    } else {
        proof {
            if n == 4 {
                if w =~= seq![102u8, 114u8, 111u8, 109u8] {
                    assert(w[0] == 102u8 && w[1] == 114u8 && w[2] == 111u8 && w[3] == 109u8);
                }
                if w =~= seq![116u8, 114u8, 117u8, 101u8] {
                    assert(w[0] == 116u8 && w[1] == 114u8 && w[2] == 117u8 && w[3] == 101u8);
                }
            }
            if n == 3 {
                if w =~= seq![97u8, 110u8, 100u8] {
                    assert(w[0] == 97u8 && w[1] == 110u8 && w[2] == 100u8);
                }
                if w =~= seq![110u8, 111u8, 116u8] {
                    assert(w[0] == 110u8 && w[1] == 111u8 && w[2] == 116u8);
                }
            }
            if n == 2 {
                if w =~= seq![111u8, 114u8] {
                    assert(w[0] == 111u8 && w[1] == 114u8);
                }
            }
            if n == 5 {
                if w =~= seq![102u8, 97u8, 108u8, 115u8, 101u8] {
                    assert(w[0] == 102u8 && w[1] == 97u8 && w[2] == 108u8 && w[3] == 115u8 && w[4]
                        == 101u8);
                }
            }
        }
        None
    }
}

fn single_exec(b: u8) -> (r: Option<Token>)
    ensures
        r == single(b),
{
    if b == 46 {
        Some(Token::Dot)
    } else if b == 44 {
        Some(Token::Comma)
    } else if b == 40 {
        Some(Token::LParen)
    } else if b == 41 {
        Some(Token::RParen)
    } else if b == 123 {
        Some(Token::LBrace)
    } else if b == 125 {
        Some(Token::RBrace)
    } else if b == 43 {
        Some(Token::Plus)
    } else if b == 45 {
        Some(Token::Minus)
    } else if b == 42 {
        Some(Token::Star)
    } else if b == 37 {
        Some(Token::Percent)
    } else if b == 63 {
        Some(Token::Question)
    } else {
        None
    }
}

/// The token at `s[i]`, reading no further than `e`, and its length.
fn next_token_exec(s: &[u8], i: usize, e: usize) -> (r: (Option<Token>, usize))
    requires
        i < e <= s@.len(),
    ensures
        r.0 == next_token(s@, i as int, e as int).0,
        r.1 == next_token(s@, i as int, e as int).1,
        1 <= r.1,
        i + r.1 <= e,
{
    proof {
        lemma_next_token_len(s@, i as int, e as int);
    }
    let b = s[i];
    if b == 32 || b == 9 {
        (Some(Token::Whitespace), run_len_exec(s, i, e, ByteClass::Blank))
    } else if b == 10 {
        (Some(Token::Newline), 1)
    } else if b == 47 {
        if byte_at_exec(s, i + 1, e, 47) {
            (Some(Token::Comment), 2 + run_len_exec(s, i + 2, e, ByteClass::NotNewline))
        } else {
            (Some(Token::Slash), 1)
        }
    } else if b == 64 {
        if i + 1 < e && ((65 <= s[i + 1] && s[i + 1] <= 90) || (97 <= s[i + 1] && s[i + 1] <= 122)
            || s[i + 1] == 95) {
            (Some(Token::AtAttr), 2 + run_len_exec(s, i + 2, e, ByteClass::IdentContinue))
        } else {
            (None, 1)
        }
    } else if 48 <= b && b <= 57 {
        let n = 1 + run_len_exec(s, i + 1, e, ByteClass::DigitOrUnderscore);
        if byte_at_exec(s, i + n, e, 46) && i + n + 1 < e && 48 <= s[i + n + 1] && s[i + n + 1]
            <= 57 {
            (
                Some(Token::Float),
                n + 2 + run_len_exec(s, i + n + 2, e, ByteClass::DigitOrUnderscore),
            )
        } else {
            (Some(Token::Integer), n)
        }
    } else if (65 <= b && b <= 90) || (97 <= b && b <= 122) || b == 95 {
        let n = 1 + run_len_exec(s, i + 1, e, ByteClass::IdentContinue);
        match keyword_exec(s, i, n) {
            Some(k) => (Some(k), n),
            None => (Some(Token::Ident), n),
        }
    } else if b == 34 {
        let (closed, end) = string_end_exec(s, i + 1, e);
        if closed {
            (Some(Token::String), end - i)
        } else {
            (None, end - i)
        }
    } else if b == 58 {
        if byte_at_exec(s, i + 1, e, 61) {
            (Some(Token::Define), 2)
        } else {
            (Some(Token::Colon), 1)
        }
    } else if b == 61 {
        if byte_at_exec(s, i + 1, e, 61) {
            (Some(Token::Eq), 2)
        } else {
            (Some(Token::Assign), 1)
        }
    } else if b == 33 {
        if byte_at_exec(s, i + 1, e, 61) {
            (Some(Token::Neq), 2)
        } else {
            (None, 1)
        }
    } else if b == 60 {
        if byte_at_exec(s, i + 1, e, 61) {
            (Some(Token::Le), 2)
        } else {
            (Some(Token::Lt), 1)
        }
    } else if b == 62 {
        if byte_at_exec(s, i + 1, e, 61) {
            (Some(Token::Ge), 2)
        } else {
            (Some(Token::Gt), 1)
        }
    } else {
        match single_exec(b) {
            Some(t) => (Some(t), 1),
            None => (None, 1 + run_len_exec(s, i + 1, e, ByteClass::Continuation)),
        }
    }
}

/// Lex the bytes `s[lo..hi)` as a source of their own, `hi` standing for the
/// end of input. Ranges are absolute offsets into `s`.
pub fn lex_span(s: &[u8], lo: usize, hi: usize) -> (out: Vec<(Option<Token>, std::ops::Range<usize>)>)
    requires
        lo <= hi <= s@.len(),
    ensures
        spans_view(out@) == lex_all(s@, lo as int, hi as int),
{
    let mut out: Vec<(Option<Token>, std::ops::Range<usize>)> = Vec::new();
    let mut i: usize = lo;
    while i < hi
        invariant
            lo <= i <= hi <= s@.len(),
            spans_view(out@) + lex_all(s@, i as int, hi as int) == lex_all(
                s@,
                lo as int,
                hi as int,
            ),
        decreases hi - i,
    {
        let (t, n) = next_token_exec(s, i, hi);
        let ghost before = out@;
        out.push((t, i..i + n));
        proof {
            assert(spans_view(out@) =~= spans_view(before).push((t, i as int, (i + n) as int)));
            assert(lex_all(s@, i as int, hi as int) =~= seq![(t, i as int, (i + n) as int)]
                + lex_all(s@, (i + n) as int, hi as int));
        }
        i = i + n;
    }
    proof {
        assert(spans_view(out@) + lex_all(s@, i as int, hi as int) =~= spans_view(out@));
    }
    out
}

/// Raw lex pass — every byte of `input` accounted for.
///
/// A `None` is a run no rule matched, kept with its range rather than
/// discarded, so that the indentation pass can turn it into an error token
/// carrying the offending text.
pub fn raw_lex_lossless(input: &str) -> (out: Vec<(Option<Token>, std::ops::Range<usize>)>)
    ensures
        spans_view(out@) == lex_all(input.spec_bytes(), 0, input.spec_bytes().len() as int),
{
    let s = input.as_bytes();
    lex_span(s, 0, s.len())
}

/// Raw lex pass with the unlexable runs dropped.
pub fn raw_lex(input: &str) -> (out: Vec<(Token, std::ops::Range<usize>)>)
    ensures
        out@.map_values(|t: (Token, std::ops::Range<usize>)| (t.0, t.1.start as int, t.1.end as int))
            == drop_unlexable(lex_all(input.spec_bytes(), 0, input.spec_bytes().len() as int)),
{
    let all = raw_lex_lossless(input);
    let ghost full = spans_view(all@);
    let mut out: Vec<(Token, std::ops::Range<usize>)> = Vec::new();
    let mut k: usize = 0;
    proof {
        assert(full.subrange(0, full.len() as int) =~= full);
        assert(out@.map_values(
            |t: (Token, std::ops::Range<usize>)| (t.0, t.1.start as int, t.1.end as int),
        ) =~= Seq::empty());
    }
    while k < all.len()
        invariant
            0 <= k <= all@.len(),
            full == spans_view(all@),
            out@.map_values(|t: (Token, std::ops::Range<usize>)| (t.0, t.1.start as int, t.1.end as int))
                + drop_unlexable(full.subrange(k as int, full.len() as int)) == drop_unlexable(
                full,
            ),
        decreases all.len() - k,
    {
        let ghost tail = full.subrange(k as int, full.len() as int);
        proof {
            assert(tail.drop_first() =~= full.subrange(k + 1, full.len() as int));
        }
        let t = all[k].0;
        let r = all[k].1.start..all[k].1.end;
        let ghost before = out@;
        match t {
            Some(tok) => {
                out.push((tok, r));
                proof {
                    assert(out@.map_values(
                        |t: (Token, std::ops::Range<usize>)| (t.0, t.1.start as int, t.1.end as int),
                    ) =~= before.map_values(
                        |t: (Token, std::ops::Range<usize>)| (t.0, t.1.start as int, t.1.end as int),
                    ).push((tok, r.start as int, r.end as int)));
                }
            },
            None => {},
        }
        k = k + 1;
    }
    proof {
        assert(full.subrange(k as int, full.len() as int) =~= Seq::empty());
    }
    out
}

} // verus!
