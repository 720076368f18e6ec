//! The Pratt expression parser.
//!
//! | level | operators              | assoc     | lbp | rbp |
//! |-------|------------------------|-----------|-----|-----|
//! | 1     | `? :`                  | right     |   4 |   3 |
//! | 2     | `or`                   | left      |   5 |   6 |
//! | 3     | `and`                  | left      |   7 |   8 |
//! | 4     | `== != < <= > >=`      | non-assoc |   9 |  10 |
//! | 5     | `+ -`                  | left      |  11 |  12 |
//! | 6     | `* / %`                | left      |  13 |  14 |
//! | 7     | unary `-`, `not`       | right     |   — |  15 |
//! | 8     | `.` member, `()` call  | left      |  17 |   — |
//!
//! A primary is a literal, an identifier or a parenthesised expression. Four
//! retired spellings in operand position — the leading `.`, the CURIE
//! `ex:name`, the `<…>` IRI and the backtick — and `|>` in operator position
//! are consumed under an `ERROR` node with a message naming what replaces
//! them.
//!
//! Every production keeps the parse a lossless, well-nested prefix
//! ([`step`]), and each one that reads an operand consumes at least one token
//! where one is left ([`progress`]).

use vstd::prelude::*;

use crate::diag::ParseDiagnostic;
use crate::indent::LexedToken;
use crate::kind::SyntaxKind;
use crate::parser::{
    adds_no_malformed, counts_to, cur, depth, lemma_nm, lemma_no_malformed_same, expect_or_recover, is_trivia, token_ids, lemma_depth_concat, lemma_node_alone, inv, kind_at, lemma_depth_nonneg, lemma_next_real,
    lemma_next_real_here, lemma_push, lemma_step_refl, lemma_step_trans, lemma_tokens_from_push,
    lemma_depth_tokens, lemma_nodes_after_skip, lemma_nodes_error, lemma_nodes_no_start,
    lemma_nodes_node, lemma_wrap, lemma_wrap_at,
    lemma_wrap_at_node, nodes_at, lemma_wrap_node, next_real, node_after, nth_real,
    progress, real_kind, rem, retired_with, skipped, step, tokens_from, wraps, Event, Parser,
    RetiredRun,
};
use crate::retired;
use crate::items::lemma_inside_deeper;

verus! {

pub const TERNARY_LBP: u8 = 4;

pub const TERNARY_RBP: u8 = 3;

/// How an infix operator chains with itself.
#[derive(Debug, Clone, Copy, PartialEq, Eq, Structural)]
pub enum Assoc {
    /// Left or right associative; the binding powers tell which.
    Assoc,
    /// Comparisons: `a < b < c` does not chain.
    Non,
}

/// The binding powers, associativity and node kind of an infix operator.
pub open spec fn infix_of(k: SyntaxKind) -> Option<(u8, u8, Assoc, SyntaxKind)> {
    if k == SyntaxKind::KW_OR {
        Some((5, 6, Assoc::Assoc, SyntaxKind::BINARY_EXPR))
    } else if k == SyntaxKind::KW_AND {
        Some((7, 8, Assoc::Assoc, SyntaxKind::BINARY_EXPR))
    } else if k == SyntaxKind::EQ || k == SyntaxKind::NEQ || k == SyntaxKind::LT || k
        == SyntaxKind::LE || k == SyntaxKind::GT || k == SyntaxKind::GE {
        Some((9, 10, Assoc::Non, SyntaxKind::BINARY_EXPR))
    } else if k == SyntaxKind::PLUS || k == SyntaxKind::MINUS {
        Some((11, 12, Assoc::Assoc, SyntaxKind::BINARY_EXPR))
    } else if k == SyntaxKind::STAR || k == SyntaxKind::SLASH || k == SyntaxKind::PERCENT {
        Some((13, 14, Assoc::Assoc, SyntaxKind::BINARY_EXPR))
    } else {
        None
    }
}

/// An expression of binding power at least `min_bp` can end before the
/// first real token at or after token `i`: there is none, or it is neither
/// a `?` that may open a ternary here nor an infix operator binding at
/// least as tightly, save a comparison, which does not chain.
pub open spec fn stops_after(toks: Seq<LexedToken>, i: int, min_bp: int) -> bool {
    let j = next_real(toks, i);
    j < toks.len() ==> {
        let k = toks[j].kind;
        &&& !(k == SyntaxKind::T_QUESTION && TERNARY_LBP >= min_bp)
        &&& match infix_of(k) {
            Some((lbp, _, assoc, _)) => lbp < min_bp || assoc == Assoc::Non,
            None => true,
        }
    }
}

/// An expression of binding power at least `min_bp` can end at the cursor.
pub open spec fn stops_at(p: Parser, min_bp: u8) -> bool {
    stops_after(p.tokens@, p.pos as int, min_bp as int)
}

/// The index of the last token the events visit; `-1` where there is none.
pub open spec fn last_token(ev: Seq<Event>) -> int
    decreases ev.len(),
{
    if ev.len() == 0 {
        -1
    } else {
        match ev.last() {
            Event::Token(i) => i as int,
            _ => last_token(ev.drop_last()),
        }
    }
}

/// The events open an `ERROR` node.
pub open spec fn has_error(ev: Seq<Event>) -> bool {
    exists|j: int| 0 <= j < ev.len() && #[trigger] ev[j] == Event::Start(SyntaxKind::ERROR)
}

/// The last report refuses a `|>`.
pub open spec fn refused_pipeline(d: Seq<ParseDiagnostic>) -> bool {
    d.last() matches ParseDiagnostic::RetiredSpelling { message: msg, .. } && msg@
        == retired::PIPELINE@
}

/// The infix operator under the cursor, if the token there is one.
pub fn peek_infix(p: &Parser) -> (r: Option<(u8, u8, Assoc, SyntaxKind)>)
    ensures
        r == match cur(*p) {
            Some(k) => infix_of(k),
            None => None,
        },
{
    let k = match p.current() {
        Some(k) => k,
        None => return None,
    };
    if k == SyntaxKind::KW_OR {
        Some((5, 6, Assoc::Assoc, SyntaxKind::BINARY_EXPR))
    } else if k == SyntaxKind::KW_AND {
        Some((7, 8, Assoc::Assoc, SyntaxKind::BINARY_EXPR))
    } else if k == SyntaxKind::EQ || k == SyntaxKind::NEQ || k == SyntaxKind::LT || k
        == SyntaxKind::LE || k == SyntaxKind::GT || k == SyntaxKind::GE {
        Some((9, 10, Assoc::Non, SyntaxKind::BINARY_EXPR))
    } else if k == SyntaxKind::PLUS || k == SyntaxKind::MINUS {
        Some((11, 12, Assoc::Assoc, SyntaxKind::BINARY_EXPR))
    } else if k == SyntaxKind::STAR || k == SyntaxKind::SLASH || k == SyntaxKind::PERCENT {
        Some((13, 14, Assoc::Assoc, SyntaxKind::BINARY_EXPR))
    } else {
        None
    }
}

/// Event `i` opens no operator node.
pub open spec fn opens_operand(ev: Seq<Event>, i: int) -> bool {
    ev[i] != Event::Start(SyntaxKind::BINARY_EXPR) && ev[i] != Event::Start(
        SyntaxKind::TERNARY_EXPR,
    )
}

/// The operator structure of an expression node: its binary and ternary
/// nodes, down through their operands, with the events between them.
pub enum Shape {
    /// A `BINARY_EXPR` node: its left operand, the trivia before the
    /// operator, the operator's token, the trivia after it, the right
    /// operand, and what follows that operand inside the node.
    Binary {
        left: Box<Shape>,
        pre: Seq<Event>,
        op: usize,
        post: Seq<Event>,
        right: Box<Shape>,
        tail: Seq<Event>,
    },
    /// A `TERNARY_EXPR` node: its condition, the trivia before the `?`, the
    /// `?` token, the trivia after it, the branch taken when the condition
    /// holds, what stands between the branches, the other branch, and what
    /// follows it inside the node.
    Ternary {
        cond: Box<Shape>,
        pre: Seq<Event>,
        q: usize,
        post: Seq<Event>,
        then: Box<Shape>,
        mid: Seq<Event>,
        other: Box<Shape>,
        tail: Seq<Event>,
    },
    /// A `PAREN_EXPR` node: the `(` token, the trivia after it, the
    /// expression inside, and what follows that expression: its own tail,
    /// then the `)` or, where it is missing, the `ERROR` node that says so.
    Paren { open: usize, pre: Seq<Event>, inner: Box<Shape>, rest: Seq<Event> },
    /// Any other node, by its events.
    Other(Seq<Event>),
}

/// The events of the node a shape describes.
pub open spec fn events_of(s: Shape) -> Seq<Event>
    decreases s,
{
    match s {
        Shape::Binary { left, pre, op, post, right, tail } => seq![
            Event::Start(SyntaxKind::BINARY_EXPR),
        ] + events_of(*left) + pre + seq![Event::Token(op)] + post + events_of(*right) + tail
            + seq![Event::Finish],
        Shape::Ternary { cond, pre, q, post, then, mid, other, tail } => seq![
            Event::Start(SyntaxKind::TERNARY_EXPR),
        ] + events_of(*cond) + pre + seq![Event::Token(q)] + post + events_of(*then) + mid
            + events_of(*other) + tail + seq![Event::Finish],
        Shape::Paren { open, pre, inner, rest } => seq![
            Event::Start(SyntaxKind::PAREN_EXPR),
            Event::Token(open),
        ] + pre + events_of(*inner) + rest + seq![Event::Finish],
        Shape::Other(ev) => ev,
    }
}

/// Every event is a trivia token of `toks`.
pub open spec fn trivia_events(ev: Seq<Event>, toks: Seq<LexedToken>) -> bool {
    forall|i: int|
        0 <= i < ev.len() ==> (#[trigger] ev[i] matches Event::Token(t) && t < toks.len()
            && is_trivia(toks[t as int].kind))
}

/// The only nodes the events open are `ERROR` nodes.
pub open spec fn errors_only(ev: Seq<Event>) -> bool {
    forall|i: int|
        0 <= i < ev.len() ==> (#[trigger] ev[i] is Start ==> ev[i] == Event::Start(
            SyntaxKind::ERROR,
        ))
}

/// The events end with the `)` token.
pub open spec fn closes_paren(ev: Seq<Event>, toks: Seq<LexedToken>) -> bool {
    &&& ev.len() > 0
    &&& ev.last() matches Event::Token(t) && t < toks.len() && toks[t as int].kind
        == SyntaxKind::RPAREN
}

/// A shape that describes its node: each operand is one node, the operator
/// is the first token after the left operand that is not trivia, and what
/// else stands inside the node opens no node but an `ERROR` node. A
/// parenthesised expression holds `(`, the expression inside with its own
/// sound shape, and then `)` or the `ERROR` node of the missing `)`.
pub open spec fn sound(s: Shape, toks: Seq<LexedToken>) -> bool
    decreases s,
{
    match s {
        Shape::Binary { left, pre, op, post, right, tail } => {
            &&& trivia_events(pre, toks)
            &&& op < toks.len()
            &&& infix_of(toks[op as int].kind) is Some
            &&& trivia_events(post, toks)
            &&& errors_only(tail)
            &&& sound(*left, toks)
            &&& sound(*right, toks)
        },
        Shape::Ternary { cond, pre, q, post, then, mid, other, tail } => {
            &&& trivia_events(pre, toks)
            &&& q < toks.len()
            &&& toks[q as int].kind == SyntaxKind::T_QUESTION
            &&& trivia_events(post, toks)
            &&& errors_only(mid)
            &&& errors_only(tail)
            &&& sound(*cond, toks)
            &&& sound(*then, toks)
            &&& sound(*other, toks)
        },
        Shape::Paren { open, pre, inner, rest } => {
            &&& open < toks.len()
            &&& toks[open as int].kind == SyntaxKind::LPAREN
            &&& trivia_events(pre, toks)
            &&& errors_only(rest)
            &&& closes_paren(rest, toks) || has_error(rest)
            &&& sound(*inner, toks)
        },
        Shape::Other(ev) => {
            &&& node_after(Seq::<Event>::empty(), ev)
            &&& ev[0] != Event::Start(SyntaxKind::BINARY_EXPR)
            &&& ev[0] != Event::Start(SyntaxKind::TERNARY_EXPR)
            &&& ev[0] != Event::Start(SyntaxKind::PAREN_EXPR)
        },
    }
}

/// The precedence table, over a shape parsed with floor `min_bp`: every
/// operator binds at least as tightly as its floor; a left operand or a
/// condition keeps the floor, a right operand takes its operator's right
/// binding power, a ternary's first branch the power just above the
/// ternary's and its other branch the ternary's own. A right operand, and a
/// ternary's other branch, reach as far as they can: the token after the
/// node could not continue them, unless they ended by refusing a `|>`. Inside parentheses the floor is
/// the lowest again.
pub open spec fn prec(s: Shape, toks: Seq<LexedToken>, min_bp: int) -> bool
    decreases s,
{
    match s {
        Shape::Binary { left, pre, op, post, right, tail } => match infix_of(toks[op as int].kind) {
            Some((lbp, rbp, _, _)) => {
                &&& lbp >= min_bp
                &&& prec(*left, toks, min_bp)
                &&& prec(*right, toks, rbp as int)
                &&& stops_after(toks, last_token(events_of(s)) + 1, rbp as int) || has_error(tail)
            },
            None => false,
        },
        Shape::Ternary { cond, pre, q, post, then, mid, other, tail } => {
            &&& TERNARY_LBP >= min_bp
            &&& prec(*cond, toks, min_bp)
            &&& prec(*then, toks, TERNARY_RBP + 1)
            &&& prec(*other, toks, TERNARY_RBP as int)
            &&& stops_after(toks, last_token(events_of(s)) + 1, TERNARY_RBP as int) || has_error(
                tail,
            )
        },
        Shape::Paren { open, pre, inner, rest } => prec(*inner, toks, 0),
        Shape::Other(_) => true,
    }
}

/// How tightly an infix operator binds, by its token alone: `or` loosest,
/// then `and`, the comparisons, `+` and `-`, and `*`, `/` and `%` tightest.
pub open spec fn tightness(k: SyntaxKind) -> int {
    if k == SyntaxKind::KW_OR {
        1
    } else if k == SyntaxKind::KW_AND {
        2
    } else if k == SyntaxKind::EQ || k == SyntaxKind::NEQ || k == SyntaxKind::LT || k
        == SyntaxKind::LE || k == SyntaxKind::GT || k == SyntaxKind::GE {
        3
    } else if k == SyntaxKind::PLUS || k == SyntaxKind::MINUS {
        4
    } else if k == SyntaxKind::STAR || k == SyntaxKind::SLASH || k == SyntaxKind::PERCENT {
        5
    } else {
        0
    }
}

/// Operators keep their precedence and associate to the left: in a tree
/// that keeps the table, the operator at the top of a binary node's right
/// operand binds strictly more tightly than the node's own. So `a - b - c`
/// is `(a - b) - c`, never `a - (b - c)`; `a or b and c` has the `and`
/// under the `or`; and a comparison never stands as the right operand of
/// another.
pub proof fn lemma_right_operand_binds_tighter(s: Shape, toks: Seq<LexedToken>, min_bp: int)
    requires
        prec(s, toks, min_bp),
    ensures
        match s {
            Shape::Binary { op, right, .. } => match *right {
                Shape::Binary { op: op2, .. } => tightness(toks[op2 as int].kind) > tightness(
                    toks[op as int].kind,
                ),
                _ => true,
            },
            _ => true,
        },
{
    if let Shape::Binary { op, right, .. } = s {
        if let Shape::Binary { op: op2, .. } = *right {
            let k1 = toks[op as int].kind;
            let k2 = toks[op2 as int].kind;
            assert(infix_of(k1) is Some);
            let rbp = infix_of(k1).unwrap().1;
            assert(prec(*right, toks, rbp as int));
            assert(infix_of(k2) is Some);
            assert(infix_of(k2).unwrap().0 >= rbp);
        }
    }
}

/// The binding powers follow from how tightly each operator binds: an
/// operator that binds more tightly has the higher left binding power, and
/// every operator's right binding power sits just above its left one, so
/// that the same operator never binds again to its right. Only the
/// comparisons do not chain, every operator builds a `BINARY_EXPR`, and all
/// bind more tightly than the ternary.
pub proof fn lemma_binding_powers(k1: SyntaxKind, k2: SyntaxKind)
    requires
        infix_of(k1) is Some,
        infix_of(k2) is Some,
    ensures
        tightness(k1) >= 1,
        tightness(k1) < tightness(k2) <==> infix_of(k1).unwrap().0 < infix_of(k2).unwrap().0,
        infix_of(k1).unwrap().1 == infix_of(k1).unwrap().0 + 1,
        tightness(k1) < tightness(k2) <==> infix_of(k1).unwrap().1 <= infix_of(k2).unwrap().0,
        infix_of(k1).unwrap().2 == Assoc::Non <==> tightness(k1) == 3,
        infix_of(k1).unwrap().3 == SyntaxKind::BINARY_EXPR,
        infix_of(k1).unwrap().0 > TERNARY_LBP,
{
}

/// The events after `old` are one node, up to event `m`; after it come only
/// tokens and `ERROR` nodes.
pub open spec fn node_then_errors(old: Seq<Event>, new: Seq<Event>, m: int) -> bool {
    &&& old.len() + 2 <= m <= new.len()
    &&& node_after(old, new.take(m))
    &&& forall|j: int|
        m <= j < new.len() ==> (#[trigger] new[j] is Start ==> new[j] == Event::Start(
            SyntaxKind::ERROR,
        ))
}

/// Events appended after `a` that open no node but an `ERROR` node keep
/// `node_then_errors`.
proof fn lemma_then_errors(o: Seq<Event>, a: Seq<Event>, n: Seq<Event>, m: int)
    requires
        node_then_errors(o, a, m),
        a.len() <= n.len(),
        n.take(a.len() as int) == a,
        forall|j: int|
            a.len() <= j < n.len() ==> (#[trigger] n[j] is Start ==> n[j] == Event::Start(
                SyntaxKind::ERROR,
            )),
    ensures
        node_then_errors(o, n, m),
{
    assert(n.take(m) =~= a.take(m));
    assert forall|j: int| m <= j < n.len() implies (#[trigger] n[j] is Start ==> n[j]
        == Event::Start(SyntaxKind::ERROR)) by {
        if j < a.len() {
            assert(n[j] == n.take(a.len() as int)[j]);
        }
    }
}

/// The events after `old` are one expression node up to event `m`, and
/// after it only tokens and `ERROR` nodes; `s` is the node's shape, sound
/// and within the precedence table from the floor `min_bp`.
#[verifier::opaque]
pub open spec fn expression_at(
    old: Seq<Event>,
    new: Seq<Event>,
    toks: Seq<LexedToken>,
    m: int,
    s: Shape,
    min_bp: int,
) -> bool {
    &&& node_then_errors(old, new, m)
    &&& new.take(old.len() as int) == old
    &&& events_of(s) == new.subrange(old.len() as int, m)
    &&& sound(s, toks)
    &&& prec(s, toks, min_bp)
}

/// A finished expression parse from events `old`, leaving `p`: the
/// expression is as `expression_at` says, and it ends where no operator
/// could continue it, unless it ended by refusing a `|>`.
#[verifier::opaque]
pub open spec fn expression_ends(old: Seq<Event>, p: Parser, m: int, s: Shape, min_bp: int) -> bool {
    &&& expression_at(old, p.events@, p.tokens@, m, s, min_bp)
    &&& stops_after(p.tokens@, p.pos as int, min_bp) || has_error(
        p.events@.subrange(m, p.events@.len() as int),
    )
}

proof fn lemma_sub_concat(s: Seq<Event>, a: int, b: int, c: int)
    requires
        0 <= a <= b <= c <= s.len(),
    ensures
        s.subrange(a, b) + s.subrange(b, c) == s.subrange(a, c),
{
    assert(s.subrange(a, b) + s.subrange(b, c) =~= s.subrange(a, c));
}

/// A subrange of a prefix is a subrange of the whole.
proof fn lemma_sub_prefix(s: Seq<Event>, n: Seq<Event>, a: int, b: int)
    requires
        0 <= a <= b <= s.len(),
        s.len() <= n.len(),
        n.take(s.len() as int) == s,
    ensures
        n.subrange(a, b) == s.subrange(a, b),
{
    assert(n.subrange(a, b) =~= s.subrange(a, b)) by {
        assert forall|i: int| 0 <= i < b - a implies n.subrange(a, b)[i] == s.subrange(a, b)[i] by {
            assert(n[a + i] == n.take(s.len() as int)[a + i]);
        }
    }
}

/// The events a node opened at `cp` by insertion, filled and closed hold.
proof fn lemma_wrapped_events(
    e2: Seq<Event>,
    cp: int,
    k: SyntaxKind,
    be: Seq<Event>,
    ce: Seq<Event>,
    de: Seq<Event>,
)
    requires
        0 <= cp <= e2.len(),
        be == e2.insert(cp, Event::Start(k)),
        be.len() <= ce.len(),
        ce.take(be.len() as int) == be,
        de == ce.push(Event::Finish),
    ensures
        de.subrange(cp, de.len() as int) == seq![Event::Start(k)] + e2.subrange(cp, e2.len() as int)
            + ce.subrange(be.len() as int, ce.len() as int) + seq![Event::Finish],
{
    let rhs = seq![Event::Start(k)] + e2.subrange(cp, e2.len() as int) + ce.subrange(
        be.len() as int,
        ce.len() as int,
    ) + seq![Event::Finish];
    assert forall|i: int| 0 <= i < rhs.len() implies de.subrange(cp, de.len() as int)[i] == rhs[i] by {
        if i == 0 {
            assert(de[cp] == ce[cp]);
            assert(ce[cp] == ce.take(be.len() as int)[cp]);
        } else if i <= e2.len() - cp {
            assert(de[cp + i] == ce[cp + i]);
            assert(ce[cp + i] == ce.take(be.len() as int)[cp + i]);
            assert(be[cp + i] == e2[cp + i - 1]);
        } else if i < rhs.len() - 1 {
            assert(de[cp + i] == ce[cp + i]);
        }
    }
    assert(de.subrange(cp, de.len() as int) =~= rhs);
}

/// Events appended after `a` that open no node but an `ERROR` node keep
/// an expression as it was.
proof fn lemma_expr_extend(
    o: Seq<Event>,
    a: Seq<Event>,
    n: Seq<Event>,
    toks: Seq<LexedToken>,
    m: int,
    s: Shape,
    min_bp: int,
)
    requires
        expression_at(o, a, toks, m, s, min_bp),
        a.len() <= n.len(),
        n.take(a.len() as int) == a,
        forall|j: int|
            a.len() <= j < n.len() ==> (#[trigger] n[j] is Start ==> n[j] == Event::Start(
                SyntaxKind::ERROR,
            )),
    ensures
        expression_at(o, n, toks, m, s, min_bp),
{
    reveal(expression_at);
    lemma_then_errors(o, a, n, m);
    lemma_sub_prefix(a, n, o.len() as int, m);
    assert(n.take(o.len() as int) =~= a.take(o.len() as int));
}

/// Trivia after the cursor, emitted, stays trivia after the node.
proof fn lemma_trivia_extend(a: Parser, n: Parser, m: int)
    requires
        inv(a),
        0 <= m <= a.events@.len(),
        trivia_events(a.events@.subrange(m, a.events@.len() as int), a.tokens@),
        n.events@ == a.events@ + tokens_from(a.pos as int, next_real(a.tokens@, a.pos as int)),
        n.tokens@ == a.tokens@,
    ensures
        trivia_events(n.events@.subrange(m, n.events@.len() as int), n.tokens@),
{
    lemma_next_real(a.tokens@, a.pos as int);
    let t = n.events@.subrange(m, n.events@.len() as int);
    assert forall|i: int| 0 <= i < t.len() implies (#[trigger] t[i] matches Event::Token(x) && x
        < n.tokens@.len() && is_trivia(n.tokens@[x as int].kind)) by {
        if m + i < a.events@.len() {
            assert(t[i] == a.events@.subrange(m, a.events@.len() as int)[i]);
        } else {
            let j = m + i - a.events@.len();
            let idx = a.pos + j;
            assert(a.tokens@.len() == a.tokens.len());
            assert(a.pos <= idx < next_real(a.tokens@, a.pos as int));
            assert(t[i] == tokens_from(a.pos as int, next_real(a.tokens@, a.pos as int))[j]);
            assert(t[i] == Event::Token(idx as usize));
            assert(is_trivia(a.tokens@[idx].kind));
        }
    }
}

/// The trivia `skipped` adds after the events of `x`.
pub open spec fn trivia_after(x: Parser) -> Seq<Event> {
    tokens_from(x.pos as int, next_real(x.tokens@, x.pos as int))
}

proof fn lemma_trivia_after(x: Parser)
    requires
        inv(x),
    ensures
        trivia_events(trivia_after(x), x.tokens@),
        skipped(x) == x.events@ + trivia_after(x),
{
    lemma_next_real(x.tokens@, x.pos as int);
    assert forall|i: int| 0 <= i < trivia_after(x).len() implies (#[trigger] trivia_after(x)[i] matches Event::Token(t) && t
        < x.tokens@.len() && is_trivia(x.tokens@[t as int].kind)) by {
        let idx = x.pos + i;
        assert(x.tokens@.len() == x.tokens.len());
        assert(x.pos <= idx < next_real(x.tokens@, x.pos as int));
        assert(trivia_after(x)[i] == Event::Token(idx as usize));
        assert(is_trivia(x.tokens@[idx].kind));
    }
}

proof fn lemma_take_take(n: Seq<Event>, x: Seq<Event>, k: int)
    requires
        0 <= k <= x.len() <= n.len(),
        n.take(x.len() as int) == x,
    ensures
        n.take(k) == x.take(k),
{
    assert forall|i: int| 0 <= i < k implies n.take(k)[i] == x.take(k)[i] by {
        assert(n[i] == n.take(x.len() as int)[i]);
    }
    assert(n.take(k) =~= x.take(k));
}

/// The events of a binary node wrapped at `cp` around what `e2` holds after
/// it, with the operator token and what the right operand's parse emitted.
proof fn lemma_binary_events(
    e2: Seq<Event>,
    cp: int,
    m: int,
    be: Seq<Event>,
    xe: Seq<Event>,
    sx: Seq<Event>,
    ce: Seq<Event>,
    de: Seq<Event>,
    m2: int,
    op: usize,
)
    requires
        0 <= cp <= m <= e2.len(),
        be == e2.insert(cp, Event::Start(SyntaxKind::BINARY_EXPR)),
        xe == be.push(Event::Token(op)),
        xe.len() <= sx.len(),
        sx.take(xe.len() as int) == xe,
        sx.len() <= m2 <= ce.len(),
        ce.take(sx.len() as int) == sx,
        de == ce.push(Event::Finish),
    ensures
        de.subrange(cp, de.len() as int) == seq![Event::Start(SyntaxKind::BINARY_EXPR)]
            + e2.subrange(cp, m) + e2.subrange(m, e2.len() as int) + seq![Event::Token(op)]
            + sx.subrange(xe.len() as int, sx.len() as int) + ce.subrange(sx.len() as int, m2)
            + ce.subrange(m2, ce.len() as int) + seq![Event::Finish],
{
    let bl = be.len() as int;
    let xl = xe.len() as int;
    let sl = sx.len() as int;
    lemma_take_take(sx, xe, bl);
    assert(xe.take(bl) =~= be);
    lemma_take_take(ce, sx, xl);
    lemma_take_take(ce, sx, bl);
    lemma_wrapped_events(e2, cp, SyntaxKind::BINARY_EXPR, be, ce, de);
    assert(ce[bl] == Event::Token(op)) by {
        assert(ce[bl] == ce.take(xl)[bl]);
    }
    assert(ce.subrange(bl, xl) =~= seq![Event::Token(op)]);
    lemma_sub_concat(ce, bl, xl, sl);
    lemma_sub_concat(ce, bl, sl, m2);
    lemma_sub_concat(ce, bl, m2, ce.len() as int);
    lemma_sub_prefix(sx, ce, xl, sl);
    lemma_sub_concat(e2, cp, m, e2.len() as int);
    let lhs = de.subrange(cp, de.len() as int);
    let rhs = seq![Event::Start(SyntaxKind::BINARY_EXPR)] + e2.subrange(cp, m) + e2.subrange(
        m,
        e2.len() as int,
    ) + seq![Event::Token(op)] + sx.subrange(xl, sl) + ce.subrange(sl, m2) + ce.subrange(
        m2,
        ce.len() as int,
    ) + seq![Event::Finish];
    assert(lhs =~= rhs);
}

/// What follows an expression's node, from event `m2` on, opens no node
/// but an `ERROR` node.
proof fn lemma_tail_errors(o: Seq<Event>, ce: Seq<Event>, m2: int)
    requires
        node_then_errors(o, ce, m2),
    ensures
        errors_only(ce.subrange(m2, ce.len() as int)),
{
    let t = ce.subrange(m2, ce.len() as int);
    assert forall|i: int| 0 <= i < t.len() implies (#[trigger] t[i] is Start ==> t[i]
        == Event::Start(SyntaxKind::ERROR)) by {
        assert(t[i] == ce[m2 + i]);
    }
}

proof fn lemma_last_token_ids(ev: Seq<Event>)
    requires
        token_ids(ev).len() > 0,
    ensures
        last_token(ev) == token_ids(ev).last(),
    decreases ev.len(),
{
    if ev.len() > 0 {
        match ev.last() {
            Event::Token(i) => {},
            _ => {
                lemma_last_token_ids(ev.drop_last());
            },
        }
    }
}

proof fn lemma_last_token_suffix(ev: Seq<Event>, k: int, j: int)
    requires
        0 <= k <= j < ev.len(),
        ev[j] is Token,
    ensures
        last_token(ev.subrange(k, ev.len() as int)) == last_token(ev),
    decreases ev.len(),
{
    let s = ev.subrange(k, ev.len() as int);
    assert(s.last() == ev.last());
    match ev.last() {
        Event::Token(i) => {},
        _ => {
            assert(j < ev.len() - 1);
            lemma_last_token_suffix(ev.drop_last(), k, j);
            assert(s.drop_last() =~= ev.drop_last().subrange(k, ev.len() - 1));
        },
    }
}

/// The token after a node closed over the events of `ce` from `cp` on,
/// when one of them is a token, is where the cursor stands.
proof fn lemma_node_stop(ce: Seq<Event>, de: Seq<Event>, cp: int, j: int, pos: int)
    requires
        0 <= cp <= j < ce.len(),
        ce[j] is Token,
        counts_to(token_ids(ce), pos),
        pos >= 1,
        de == ce.push(Event::Finish),
    ensures
        last_token(de.subrange(cp, de.len() as int)) + 1 == pos,
{
    assert(de.subrange(cp, de.len() as int).drop_last() =~= ce.subrange(cp, ce.len() as int));
    lemma_last_token_suffix(ce, cp, j);
    lemma_last_token_ids(ce);
    assert(token_ids(ce)[pos - 1] == pos - 1);
}

/// A binary node wrapped around the expression so far, with the operator
/// at the cursor of `it2` and a right operand parsed from `x`.
proof fn lemma_binary_step(
    s0e: Seq<Event>,
    it2: Parser,
    m: int,
    tree: Shape,
    min_bp: int,
    b: Parser,
    x: Parser,
    c: Parser,
    d: Parser,
    m2: int,
    right: Shape,
    lbp: int,
    rbp: int,
)
    requires
        inv(it2),
        inv(x),
        expression_at(s0e, it2.events@, it2.tokens@, m, tree, min_bp),
        trivia_events(it2.events@.subrange(m, it2.events@.len() as int), it2.tokens@),
        it2.pos < it2.tokens@.len(),
        infix_of(it2.tokens@[it2.pos as int].kind) matches Some((l, r, _, _)) && l == lbp && r == rbp,
        lbp >= min_bp,
        b.events@ == it2.events@.insert(s0e.len() as int, Event::Start(SyntaxKind::BINARY_EXPR)),
        expression_ends(skipped(x), c, m2, right, rbp),
        x.events@ == b.events@.push(Event::Token(it2.pos)),
        x.tokens@ == it2.tokens@,
        c.tokens@ == it2.tokens@,
        inv(c),
        c.pos >= 1,
        d.events@ == c.events@.push(Event::Finish),
        node_after(s0e, d.events@),
        d.events@.take(s0e.len() as int) == s0e,
    ensures
        expression_at(
            s0e,
            d.events@,
            it2.tokens@,
            d.events@.len() as int,
            Shape::Binary {
                left: Box::new(tree),
                pre: it2.events@.subrange(m, it2.events@.len() as int),
                op: it2.pos,
                post: trivia_after(x),
                right: Box::new(right),
                tail: c.events@.subrange(m2, c.events@.len() as int),
            },
            min_bp,
        ),
{
    reveal(expression_at);
    reveal(expression_ends);
    let e2 = it2.events@;
    let sx = skipped(x);
    lemma_trivia_after(x);
    assert(sx.take(x.events@.len() as int) =~= x.events@);
    assert(sx.subrange(x.events@.len() as int, sx.len() as int) =~= trivia_after(x));
    lemma_binary_events(
        e2,
        s0e.len() as int,
        m,
        b.events@,
        x.events@,
        sx,
        c.events@,
        d.events@,
        m2,
        it2.pos,
    );
    lemma_tail_errors(sx, c.events@, m2);
    let dl = d.events@.len() as int;
    assert(d.events@.take(dl) =~= d.events@);
    let bl = b.events@.len() as int;
    assert(c.events@[bl] == Event::Token(it2.pos)) by {
        assert(c.events@.take(x.events@.len() as int) == x.events@);
        assert(c.events@[bl] == c.events@.take(x.events@.len() as int)[bl]);
    }
    lemma_node_stop(c.events@, d.events@, s0e.len() as int, bl, c.pos as int);
}

/// The events of a ternary node wrapped at `cp` around what `e2` holds after
/// it: the `?`, the first branch's parse, what stands before the other
/// branch, and the other branch's parse.
proof fn lemma_ternary_events(
    e2: Seq<Event>,
    cp: int,
    m: int,
    be: Seq<Event>,
    xe: Seq<Event>,
    sx: Seq<Event>,
    we: Seq<Event>,
    m1: int,
    w2e: Seq<Event>,
    w3e: Seq<Event>,
    s3: Seq<Event>,
    ce: Seq<Event>,
    de: Seq<Event>,
    m2: int,
    q: usize,
)
    requires
        0 <= cp <= m <= e2.len(),
        be == e2.insert(cp, Event::Start(SyntaxKind::TERNARY_EXPR)),
        xe == be.push(Event::Token(q)),
        xe.len() <= sx.len(),
        sx.take(xe.len() as int) == xe,
        sx.len() <= m1 <= we.len(),
        we.take(sx.len() as int) == sx,
        we.len() <= w2e.len(),
        w2e.take(we.len() as int) == we,
        forall|j: int| we.len() <= j < w2e.len() ==> #[trigger] w2e[j] is Token,
        w2e.len() <= w3e.len(),
        w3e.take(w2e.len() as int) == w2e,
        forall|j: int|
            w2e.len() <= j < w3e.len() ==> (#[trigger] w3e[j] is Start ==> w3e[j] == Event::Start(
                SyntaxKind::ERROR,
            )),
        w3e.len() <= s3.len(),
        s3.take(w3e.len() as int) == w3e,
        forall|j: int| w3e.len() <= j < s3.len() ==> #[trigger] s3[j] is Token,
        s3.len() <= m2 <= ce.len(),
        ce.take(s3.len() as int) == s3,
        de == ce.push(Event::Finish),
        forall|j: int|
            m1 <= j < we.len() ==> (#[trigger] we[j] is Start ==> we[j] == Event::Start(
                SyntaxKind::ERROR,
            )),
    ensures
        de.subrange(cp, de.len() as int) == seq![Event::Start(SyntaxKind::TERNARY_EXPR)]
            + e2.subrange(cp, m) + e2.subrange(m, e2.len() as int) + seq![Event::Token(q)]
            + sx.subrange(xe.len() as int, sx.len() as int) + ce.subrange(sx.len() as int, m1)
            + ce.subrange(m1, s3.len() as int) + ce.subrange(s3.len() as int, m2) + ce.subrange(
            m2,
            ce.len() as int,
        ) + seq![Event::Finish],
        ce.subrange(sx.len() as int, m1) == we.subrange(sx.len() as int, m1),
        errors_only(ce.subrange(m1, s3.len() as int)),
{
    let bl = be.len() as int;
    let xl = xe.len() as int;
    let sl = sx.len() as int;
    let wl = we.len() as int;
    let w2l = w2e.len() as int;
    let w3l = w3e.len() as int;
    let s3l = s3.len() as int;
    lemma_take_take(ce, s3, w3l);
    assert(s3.take(w3l) == w3e);
    assert(ce.take(w3l) == w3e);
    lemma_take_take(ce, w3e, w2l);
    assert(ce.take(w2l) == w2e);
    lemma_take_take(ce, w2e, wl);
    assert(ce.take(wl) == we);
    lemma_take_take(ce, we, sl);
    assert(ce.take(sl) == sx);
    lemma_take_take(ce, sx, xl);
    assert(ce.take(xl) == xe);
    assert(xe.take(bl) =~= be);
    lemma_take_take(ce, xe, bl);
    lemma_wrapped_events(e2, cp, SyntaxKind::TERNARY_EXPR, be, ce, de);
    assert(ce[bl] == Event::Token(q)) by {
        assert(ce[bl] == ce.take(xl)[bl]);
    }
    assert(ce.subrange(bl, xl) =~= seq![Event::Token(q)]);
    lemma_sub_concat(ce, bl, xl, sl);
    lemma_sub_concat(ce, bl, sl, m1);
    lemma_sub_concat(ce, bl, m1, s3l);
    lemma_sub_concat(ce, bl, s3l, m2);
    lemma_sub_concat(ce, bl, m2, ce.len() as int);
    lemma_sub_prefix(sx, ce, xl, sl);
    lemma_sub_prefix(we, ce, sl, m1);
    lemma_sub_concat(e2, cp, m, e2.len() as int);
    let mid = ce.subrange(m1, s3l);
    assert forall|i: int| 0 <= i < mid.len() implies (#[trigger] mid[i] is Start ==> mid[i]
        == Event::Start(SyntaxKind::ERROR)) by {
        let j = m1 + i;
        assert(mid[i] == ce[j]);
        if j < wl {
            assert(ce[j] == ce.take(wl)[j]);
        } else if j < w2l {
            assert(ce[j] == ce.take(w2l)[j]);
        } else if j < w3l {
            assert(ce[j] == ce.take(w3l)[j]);
        } else {
            assert(ce[j] == ce.take(s3l)[j]);
        }
    }
    let lhs = de.subrange(cp, de.len() as int);
    let rhs = seq![Event::Start(SyntaxKind::TERNARY_EXPR)] + e2.subrange(cp, m) + e2.subrange(
        m,
        e2.len() as int,
    ) + seq![Event::Token(q)] + sx.subrange(xl, sl) + ce.subrange(sl, m1) + ce.subrange(m1, s3l)
        + ce.subrange(s3l, m2) + ce.subrange(m2, ce.len() as int) + seq![Event::Finish];
    assert(lhs =~= rhs);
}

/// A ternary node wrapped around the expression so far, with the `?` at the
/// cursor of `it2`, a first branch parsed from `x1` and the other from `w3`.
#[verifier::rlimit(80)]
proof fn lemma_ternary_step(
    s0e: Seq<Event>,
    it2: Parser,
    m: int,
    tree: Shape,
    min_bp: int,
    b: Parser,
    x: Parser,
    x1: Parser,
    w1: Parser,
    m1: int,
    then: Shape,
    w: Parser,
    w2: Parser,
    w3: Parser,
    c: Parser,
    d: Parser,
    m2: int,
    other: Shape,
)
    requires
        inv(it2),
        inv(x1),
        inv(w),
        inv(w3),
        expression_at(s0e, it2.events@, it2.tokens@, m, tree, min_bp),
        trivia_events(it2.events@.subrange(m, it2.events@.len() as int), it2.tokens@),
        it2.pos < it2.tokens@.len(),
        it2.tokens@[it2.pos as int].kind == SyntaxKind::T_QUESTION,
        TERNARY_LBP >= min_bp,
        b.events@ == it2.events@.insert(s0e.len() as int, Event::Start(SyntaxKind::TERNARY_EXPR)),
        x.events@ == b.events@.push(Event::Token(it2.pos)),
        x1.events@ == x.events@,
        x1.pos == x.pos,
        x1.tokens@ == it2.tokens@,
        expression_ends(skipped(x1), w1, m1, then, TERNARY_RBP + 1),
        w1.tokens@ == it2.tokens@,
        w.events@ == w1.events@,
        w.tokens@ == it2.tokens@,
        w2.events@ == w.events@ + trivia_after(w),
        w2.events@.len() <= w3.events@.len(),
        w3.events@.take(w2.events@.len() as int) == w2.events@,
        forall|j: int|
            w2.events@.len() <= j < w3.events@.len() ==> (#[trigger] w3.events@[j] is Start
                ==> w3.events@[j] == Event::Start(SyntaxKind::ERROR)),
        expression_ends(skipped(w3), c, m2, other, TERNARY_RBP as int),
        inv(c),
        c.pos >= 1,
        c.tokens@ == it2.tokens@,
        step(x1, w1),
        step(w3, c),
        d.events@ == c.events@.push(Event::Finish),
        node_after(s0e, d.events@),
        d.events@.take(s0e.len() as int) == s0e,
    ensures
        expression_at(
            s0e,
            d.events@,
            it2.tokens@,
            d.events@.len() as int,
            Shape::Ternary {
                cond: Box::new(tree),
                pre: it2.events@.subrange(m, it2.events@.len() as int),
                q: it2.pos,
                post: trivia_after(x1),
                then: Box::new(then),
                mid: c.events@.subrange(m1, skipped(w3).len() as int),
                other: Box::new(other),
                tail: c.events@.subrange(m2, c.events@.len() as int),
            },
            min_bp,
        ),
{
    reveal(expression_at);
    reveal(expression_ends);
    let sx = skipped(x1);
    let s3 = skipped(w3);
    lemma_trivia_after(x1);
    lemma_trivia_after(w);
    lemma_trivia_after(w3);
    assert(sx.take(x1.events@.len() as int) =~= x1.events@);
    assert(sx.subrange(x1.events@.len() as int, sx.len() as int) =~= trivia_after(x1));
    assert(w2.events@.take(w.events@.len() as int) =~= w.events@);
    assert forall|j: int| w.events@.len() <= j < w2.events@.len() implies #[trigger] w2.events@[j] is Token by {
        assert(w2.events@[j] == trivia_after(w)[j - w.events@.len()]);
    }
    assert(s3.take(w3.events@.len() as int) =~= w3.events@);
    assert forall|j: int| w3.events@.len() <= j < s3.len() implies #[trigger] s3[j] is Token by {
        assert(s3[j] == trivia_after(w3)[j - w3.events@.len()]);
    }
    lemma_ternary_events(
        it2.events@,
        s0e.len() as int,
        m,
        b.events@,
        x.events@,
        sx,
        w1.events@,
        m1,
        w2.events@,
        w3.events@,
        s3,
        c.events@,
        d.events@,
        m2,
        it2.pos,
    );
    lemma_tail_errors(s3, c.events@, m2);
    let dl = d.events@.len() as int;
    assert(d.events@.take(dl) =~= d.events@);
    let bl = b.events@.len() as int;
    assert(c.events@[bl] == Event::Token(it2.pos)) by {
        assert(c.events@.take(s3.len() as int) == s3);
        lemma_take_take(c.events@, s3, x.events@.len() as int);
        assert(c.events@.take(x.events@.len() as int) == x.events@) by {
            assert(c.events@.take(x.events@.len() as int) =~= x.events@);
        }
        assert(c.events@[bl] == c.events@.take(x.events@.len() as int)[bl]);
    }
    lemma_node_stop(c.events@, d.events@, s0e.len() as int, bl, c.pos as int);
}

/// An `ERROR` node of tokens appended after an expression keeps it as it
/// was.
proof fn lemma_expr_error_node(
    o: Seq<Event>,
    a: Seq<Event>,
    n: Seq<Event>,
    toks: Seq<LexedToken>,
    m: int,
    s: Shape,
    min_bp: int,
    t: Seq<Event>,
)
    requires
        expression_at(o, a, toks, m, s, min_bp),
        n == a + seq![Event::Start(SyntaxKind::ERROR)] + t + seq![Event::Finish],
        forall|i: int| 0 <= i < t.len() ==> #[trigger] t[i] is Token,
    ensures
        expression_at(o, n, toks, m, s, min_bp),
{
    assert(n.take(a.len() as int) =~= a);
    assert forall|j: int| a.len() <= j < n.len() implies (#[trigger] n[j] is Start ==> n[j]
        == Event::Start(SyntaxKind::ERROR)) by {
        if j > a.len() && j < n.len() - 1 {
            assert(n[j] == t[j - a.len() - 1]);
        }
    }
    lemma_expr_extend(o, a, n, toks, m, s, min_bp);
}

/// An expression whose operators all bind at least as tightly as `min_bp`.
/// It is one node, whose operators keep the precedence table from the floor
/// `min_bp`; the white space after it, and a refused `|>` with the tokens it
/// takes, come after that node. It ends only before a token that could not
/// continue it, or after refusing a `|>`.
#[verifier::rlimit(80)]
#[verifier::spinoff_prover]
pub fn parse_expression(p: &mut Parser, min_bp: u8)
    requires
        inv(*old(p)),
    ensures
        adds_no_malformed(old(p).diagnostics@, final(p).diagnostics@),
        step(*old(p), *final(p)),
        progress(*old(p), *final(p)),
        exists|m: int, s: Shape| expression_ends(skipped(*old(p)), *final(p), m, s, min_bp as int),
        stops_at(*final(p), min_bp) || refused_pipeline(final(p).diagnostics@),
    decreases rem(*old(p)), 5nat,
{
    let ghost start = *p;
    p.skip_trivia();
    let ghost s0 = *p;
    let cp = p.checkpoint();
    parse_unary_or_primary(p);
    proof {
        lemma_step_trans(start, s0, *p);
        lemma_next_real_here(start.tokens@, start.pos as int);
        lemma_tokens_from_push(s0.pos as int, s0.pos as int);
        assert(skipped(s0) =~= s0.events@);
        assert(p.events@.take(p.events@.len() as int) =~= p.events@);
        lemma_node_alone(s0.events@, p.events@);
        assert(p.events@.subrange(p.events@.len() as int, p.events@.len() as int) =~= Seq::<
            Event,
        >::empty());
    }
    assert(adds_no_malformed(start.diagnostics@, p.diagnostics@)) by {
        lemma_nm(start, s0, *p);
    }
    let ghost mut m: int = p.events@.len() as int;
    let ghost mut tree: Shape = if p.events@[s0.events@.len() as int] == Event::Start(
        SyntaxKind::PAREN_EXPR,
    ) {
        choose|s: Shape| paren_at(s0.events@, p.events@, p.tokens@, s)
    } else {
        Shape::Other(p.events@.subrange(s0.events@.len() as int, p.events@.len() as int))
    };
    assert(expression_at(s0.events@, p.events@, p.tokens@, m, tree, min_bp as int)) by {
        reveal(expression_at);
    }
    let mut just_consumed_non_assoc: Option<u8> = None;
    loop
        invariant_except_break
            trivia_events(p.events@.subrange(m, p.events@.len() as int), p.tokens@),
        invariant
            step(start, *p),
            step(s0, *p),
            progress(start, *p),
            cp == s0.events@.len(),
            s0.pos >= start.pos,
            step(start, s0),
            start == *old(p),
            s0.events@ == skipped(start),
            s0.events@.len() + 2 <= m <= p.events@.len(),
            adds_no_malformed(start.diagnostics@, p.diagnostics@),
            expression_at(s0.events@, p.events@, p.tokens@, m, tree, min_bp as int),
        ensures
            stops_at(*p, min_bp) || (refused_pipeline(p.diagnostics@) && has_error(
                p.events@.subrange(m, p.events@.len() as int),
            )),
        decreases rem(*p),
    {
        let ghost it = *p;
        p.skip_trivia();
        let ghost it2 = *p;
        proof {
            lemma_nm(start, it, it2);
            lemma_step_trans(s0, it, it2);
            lemma_step_trans(start, it, it2);
            lemma_expr_extend(s0.events@, it.events@, it2.events@, it2.tokens@, m, tree, min_bp as int);
            lemma_trivia_extend(it, it2, m);
            lemma_next_real_here(it.tokens@, it.pos as int);
            assert(real_kind(it2) == cur(it2));
        }
        if p.current() == Some(SyntaxKind::T_QUESTION) && TERNARY_LBP >= min_bp {
            p.start_at(cp, SyntaxKind::TERNARY_EXPR);
            let ghost b = *p;
            p.bump();
            let ghost x = *p;
            p.ternary_then_depth = p.ternary_then_depth + 1;
            let ghost x1 = *p;
            parse_expression(p, TERNARY_RBP + 1);
            let ghost w1 = *p;
            p.ternary_then_depth = p.ternary_then_depth - 1;
            let ghost w = *p;
            assert(step(x, w));
            p.skip_trivia();
            let ghost w2 = *p;
            if p.current() == Some(SyntaxKind::SHAPE_SEP) {
                p.bump();
                proof {
                    assert forall|j: int|
                        w2.events@.len() <= j < p.events@.len() implies (#[trigger] p.events@[j] is Start
                            ==> p.events@[j] == Event::Start(SyntaxKind::ERROR)) by {}
                    assert(p.events@.take(w2.events@.len() as int) =~= w2.events@);
                }
            } else {
                p.start(SyntaxKind::ERROR);
                let ghost opened = *p;
                p.finish();
                proof {
                    lemma_step_refl(opened);
                    lemma_wrap(w2, opened, opened, *p, SyntaxKind::ERROR);
                    assert(p.events@ =~= w2.events@ + seq![
                        Event::Start(SyntaxKind::ERROR),
                        Event::Finish,
                    ]);
                    assert(p.events@.take(w2.events@.len() as int) =~= w2.events@);
                }
            }
            let ghost w3 = *p;
            parse_expression(p, TERNARY_RBP);
            let ghost c = *p;
            assert(step(b, c) && depth(it2.events@) >= 0) by {
                lemma_step_trans(b, x, w);
                lemma_step_trans(b, w, w2);
                lemma_step_trans(b, w2, w3);
                lemma_step_trans(b, w3, c);
                lemma_depth_nonneg(it2.events@);
            }
            p.finish();
            assert(adds_no_malformed(start.diagnostics@, p.diagnostics@)) by {
                lemma_nm(start, it2, b);
                lemma_nm(start, b, x);
                lemma_nm(start, x, x1);
                lemma_nm(start, x1, w1);
                lemma_nm(start, w1, w);
                lemma_nm(start, w, w2);
                lemma_nm(start, w2, w3);
                lemma_nm(start, w3, c);
                lemma_nm(start, c, *p);
            }
            let ghost f1: int = (TERNARY_RBP + 1) as int;
            let ghost f2: int = TERNARY_RBP as int;
            let ghost (m1, s1) = choose|m1: int, s1: Shape|
                #[trigger] expression_ends(skipped(x1), w1, m1, s1, f1);
            let ghost (m2, s2) = choose|m2: int, s2: Shape|
                #[trigger] expression_ends(skipped(w3), c, m2, s2, f2);
            let ghost nt = Shape::Ternary {
                cond: Box::new(tree),
                pre: it2.events@.subrange(m, it2.events@.len() as int),
                q: it2.pos,
                post: trivia_after(x1),
                then: Box::new(s1),
                mid: c.events@.subrange(m1, skipped(w3).len() as int),
                other: Box::new(s2),
                tail: c.events@.subrange(m2, c.events@.len() as int),
            };
            assert(step(start, *p) && step(s0, *p) && expression_at(
                s0.events@,
                p.events@,
                p.tokens@,
                p.events@.len() as int,
                nt,
                min_bp as int,
            )) by {
                lemma_wrap_at(s0, it2, b, c, *p, SyntaxKind::TERNARY_EXPR);
                lemma_wrap_at_node(s0, it2, b, c, *p, SyntaxKind::TERNARY_EXPR);
                lemma_step_trans(start, s0, *p);
                lemma_ternary_step(
                    s0.events@,
                    it2,
                    m,
                    tree,
                    min_bp as int,
                    b,
                    x,
                    x1,
                    w1,
                    m1,
                    s1,
                    w,
                    w2,
                    w3,
                    c,
                    *p,
                    m2,
                    s2,
                );
            }
            proof {
                tree = nt;
                m = p.events@.len() as int;
                assert(p.events@.subrange(m, m) =~= Seq::<Event>::empty());
            }
            just_consumed_non_assoc = None;
            continue;
        }
        if p.current() == Some(SyntaxKind::ERROR) && p.current_text_is("|") && p.peek_kind(1) == Some(
            SyntaxKind::GT,
        ) {
            p.retire(retired::PIPELINE, RetiredRun::Count(2));
            proof {
                lemma_nm(start, it2, *p);
                lemma_step_trans(s0, it2, *p);
                lemma_step_trans(start, it2, *p);
                lemma_tokens_from_push(it2.pos as int, it2.pos as int);
                assert(skipped(it2) =~= it2.events@);
                lemma_expr_error_node(
                    s0.events@,
                    it2.events@,
                    p.events@,
                    p.tokens@,
                    m,
                    tree,
                    min_bp as int,
                    tokens_from(it2.pos as int, p.pos as int),
                );
                let t = p.events@.subrange(m, p.events@.len() as int);
                assert(t[it2.events@.len() - m] == Event::Start(SyntaxKind::ERROR));
            }
            break;
        }
        let (lbp, rbp, assoc, wrapper) = match peek_infix(p) {
            Some(t) => t,
            None => break,
        };
        if lbp < min_bp {
            break;
        }
        if assoc == Assoc::Non && just_consumed_non_assoc == Some(lbp) {
            break;
        }
        p.start_at(cp, wrapper);
        let ghost b = *p;
        p.bump();
        let ghost x = *p;
        parse_expression(p, rbp);
        let ghost c = *p;
        assert(step(b, c) && depth(it2.events@) >= 0) by {
            lemma_step_trans(b, x, c);
            lemma_depth_nonneg(it2.events@);
        }
        p.finish();
        assert(adds_no_malformed(start.diagnostics@, p.diagnostics@)) by {
            lemma_nm(start, it2, b);
            lemma_nm(start, b, x);
            lemma_nm(start, x, c);
            lemma_nm(start, c, *p);
        }
        let ghost f: int = rbp as int;
        let ghost (m2, s2) = choose|m2: int, s2: Shape|
            #[trigger] expression_ends(skipped(x), c, m2, s2, f);
        let ghost nt = Shape::Binary {
            left: Box::new(tree),
            pre: it2.events@.subrange(m, it2.events@.len() as int),
            op: it2.pos,
            post: trivia_after(x),
            right: Box::new(s2),
            tail: c.events@.subrange(m2, c.events@.len() as int),
        };
        assert(step(start, *p) && step(s0, *p) && expression_at(
            s0.events@,
            p.events@,
            p.tokens@,
            p.events@.len() as int,
            nt,
            min_bp as int,
        )) by {
            lemma_wrap_at(s0, it2, b, c, *p, wrapper);
            lemma_wrap_at_node(s0, it2, b, c, *p, wrapper);
            lemma_step_trans(start, s0, *p);
            lemma_binary_step(
                s0.events@,
                it2,
                m,
                tree,
                min_bp as int,
                b,
                x,
                c,
                *p,
                m2,
                s2,
                lbp as int,
                rbp as int,
            );
        }
        proof {
            tree = nt;
            m = p.events@.len() as int;
            assert(p.events@.subrange(m, m) =~= Seq::<Event>::empty());
        }
        just_consumed_non_assoc = if assoc == Assoc::Non {
            Some(lbp)
        } else {
            None
        };
    }
    proof {
        assert(expression_ends(skipped(start), *p, m, tree, min_bp as int)) by {
            reveal(expression_ends);
        }
    }
}

/// A prefix `-` or `not` and its operand, or a postfix expression.
pub fn parse_unary_or_primary(p: &mut Parser)
    requires
        inv(*old(p)),
    ensures
        adds_no_malformed(old(p).diagnostics@, final(p).diagnostics@),
        step(*old(p), *final(p)),
        progress(*old(p), *final(p)),
        real_kind(*old(p)) == Some(SyntaxKind::MINUS) || real_kind(*old(p)) == Some(
            SyntaxKind::KW_NOT,
        ) ==> wraps(skipped(*old(p)), final(p).events@, SyntaxKind::UNARY_EXPR),
        node_after(skipped(*old(p)), final(p).events@),
        opens_operand(final(p).events@, skipped(*old(p)).len() as int),
        final(p).events@[skipped(*old(p)).len() as int] == Event::Start(SyntaxKind::PAREN_EXPR)
            ==> exists|s: Shape| paren_at(skipped(*old(p)), final(p).events@, final(p).tokens@, s),
    decreases rem(*old(p)), 4nat,
{
    let ghost start = *p;
    p.skip_trivia();
    let ghost s0 = *p;
    proof {
        lemma_next_real_here(start.tokens@, start.pos as int);
        lemma_tokens_from_push(s0.pos as int, s0.pos as int);
        assert(skipped(start) =~= s0.events@);
    }
    let k = p.current();
    if k == Some(SyntaxKind::MINUS) || k == Some(SyntaxKind::KW_NOT) {
        p.start(SyntaxKind::UNARY_EXPR);
        let ghost b = *p;
        p.bump();
        let ghost x = *p;
        parse_unary_or_primary(p);
        let ghost c = *p;
        proof {
            lemma_step_trans(b, x, c);
        }
        p.finish();
        proof {
            lemma_wrap(s0, b, c, *p, SyntaxKind::UNARY_EXPR);
            lemma_wrap_node(s0, b, c, *p, SyntaxKind::UNARY_EXPR);
            lemma_step_trans(start, s0, *p);
        }
    } else {
        parse_postfix(p);
        proof {
            lemma_step_trans(start, s0, *p);
        }
    }
}

/// A primary followed by any number of `.name` member accesses and `(…)`
/// calls, each wrapping what came before it.
pub fn parse_postfix(p: &mut Parser)
    requires
        inv(*old(p)),
    ensures
        adds_no_malformed(old(p).diagnostics@, final(p).diagnostics@),
        step(*old(p), *final(p)),
        progress(*old(p), *final(p)),
        next_real(old(p).tokens@, old(p).pos as int) == old(p).pos ==> node_after(
            old(p).events@,
            final(p).events@,
        ) && opens_operand(final(p).events@, old(p).events@.len() as int),
        next_real(old(p).tokens@, old(p).pos as int) == old(p).pos && final(p).events@[old(
            p,
        ).events@.len() as int] == Event::Start(SyntaxKind::PAREN_EXPR) ==> exists|s: Shape|
            paren_at(old(p).events@, final(p).events@, final(p).tokens@, s),
    decreases rem(*old(p)), 3nat,
{
    let ghost start = *p;
    let cp = p.checkpoint();
    parse_primary(p);
    proof {
        lemma_tokens_from_push(start.pos as int, start.pos as int);
        if next_real(start.tokens@, start.pos as int) == start.pos {
            assert(skipped(start) =~= start.events@);
        }
    }
    loop
        invariant
            step(start, *p),
            progress(start, *p),
            cp == start.events@.len(),
            start == *old(p),
            next_real(start.tokens@, start.pos as int) == start.pos ==> node_after(
                start.events@,
                p.events@,
            ) && opens_operand(p.events@, start.events@.len() as int),
            adds_no_malformed(start.diagnostics@, p.diagnostics@),
            next_real(start.tokens@, start.pos as int) == start.pos && p.events@[start.events@.len() as int]
                == Event::Start(SyntaxKind::PAREN_EXPR) ==> exists|s: Shape|
                paren_at(start.events@, p.events@, p.tokens@, s),
        decreases rem(*p),
    {
        let ghost it = *p;
        let k = p.current();
        if k == Some(SyntaxKind::DOT) {
            if p.peek_kind(1) != Some(SyntaxKind::IDENT) {
                break;
            }
            p.start_at(cp, SyntaxKind::POSTFIX_EXPR);
            let ghost b = *p;
            p.bump();
            let ghost x = *p;
            p.expect(SyntaxKind::IDENT);
            let ghost c = *p;
            proof {
                lemma_nm(start, it, b);
                lemma_nm(start, b, x);
                lemma_nm(start, x, c);
                lemma_step_trans(b, x, c);
                lemma_depth_nonneg(it.events@);
            }
            p.finish();
            proof {
                lemma_wrap_at(start, it, b, c, *p, SyntaxKind::POSTFIX_EXPR);
                lemma_wrap_at_node(start, it, b, c, *p, SyntaxKind::POSTFIX_EXPR);
                lemma_nm(start, c, *p);
            }
        } else if k == Some(SyntaxKind::LPAREN) {
            p.start_at(cp, SyntaxKind::POSTFIX_EXPR);
            let ghost b = *p;
            p.bump();
            let ghost x = *p;
            p.skip_trivia();
            let ghost x2 = *p;
            proof {
                lemma_step_trans(b, x, x2);
                lemma_nm(start, it, b);
                lemma_nm(start, b, x);
                lemma_nm(start, x, x2);
            }
            if p.current() != Some(SyntaxKind::RPAREN) {
                parse_arg_list(p);
                proof {
                    lemma_step_trans(b, x2, *p);
                    lemma_nm(start, x2, *p);
                }
            }
            let ghost x3 = *p;
            p.expect(SyntaxKind::RPAREN);
            let ghost c = *p;
            proof {
                lemma_nm(start, x3, c);
                lemma_step_trans(b, x3, c);
                lemma_depth_nonneg(it.events@);
            }
            p.finish();
            proof {
                lemma_wrap_at(start, it, b, c, *p, SyntaxKind::POSTFIX_EXPR);
                lemma_wrap_at_node(start, it, b, c, *p, SyntaxKind::POSTFIX_EXPR);
                lemma_nm(start, c, *p);
            }
        } else {
            break;
        }
    }
}

/// `Arg (COMMA Arg)*`, under an `ARG_LIST` node; a trailing comma before `)`
/// is allowed. Only arguments stand directly under the list.
pub fn parse_arg_list(p: &mut Parser)
    requires
        inv(*old(p)),
    ensures
        adds_no_malformed(old(p).diagnostics@, final(p).diagnostics@),
        step(*old(p), *final(p)),
        wraps(old(p).events@, final(p).events@, SyntaxKind::ARG_LIST),
        nodes_at(
            final(p).events@,
            old(p).events@.len() + 1int,
            depth(old(p).events@) + 1,
            |k: SyntaxKind| is_arg_kind(k),
        ),
    decreases rem(*old(p)), 7nat,
{
    let ghost start = *p;
    p.start(SyntaxKind::ARG_LIST);
    let ghost b = *p;
    let ghost from = b.events@.len() as int;
    let ghost d = depth(b.events@);
    let ghost args = |k: SyntaxKind| is_arg_kind(k);
    parse_arg(p);
    proof {
        lemma_nm(start, b, *p);
        lemma_step_refl(b);
        lemma_nodes_after_skip(b, p.events@, from, d, arg_kind(b), args);
    }
    loop
        invariant
            step(b, *p),
            b.pos == start.pos,
            b.tokens@ == start.tokens@,
            start == *old(p),
            from == b.events@.len(),
            d == depth(b.events@),
            args == |k: SyntaxKind| is_arg_kind(k),
            nodes_at(p.events@, from, d, args),
            adds_no_malformed(start.diagnostics@, p.diagnostics@),
        decreases rem(*p),
    {
        let ghost it = *p;
        p.skip_trivia();
        let ghost it2 = *p;
        proof {
            lemma_nm(start, it, it2);
            lemma_step_trans(b, it, it2);
            lemma_nodes_no_start(it.events@, it2.events@, from, d, args);
        }
        if p.current() != Some(SyntaxKind::COMMA) {
            break;
        }
        p.bump();
        let ghost it3 = *p;
        p.skip_trivia();
        let ghost it4 = *p;
        proof {
            lemma_nm(start, it2, it3);
            lemma_nm(start, it3, it4);
            lemma_step_trans(b, it2, it3);
            lemma_step_trans(b, it3, it4);
            lemma_nodes_no_start(it2.events@, it3.events@, from, d, args);
            lemma_nodes_no_start(it3.events@, it4.events@, from, d, args);
        }
        if p.current() == Some(SyntaxKind::RPAREN) {
            break;
        }
        parse_arg(p);
        proof {
            lemma_nm(start, it4, *p);
            lemma_step_trans(b, it4, *p);
            lemma_nodes_after_skip(it4, p.events@, from, d, arg_kind(it4), args);
        }
    }
    let ghost c = *p;
    p.finish();
    proof {
        lemma_nm(start, c, *p);
        lemma_wrap(start, b, c, *p, SyntaxKind::ARG_LIST);
        lemma_wrap_node(start, b, c, *p, SyntaxKind::ARG_LIST);
        lemma_push(c.events@, Event::Finish);
        lemma_push(start.events@, Event::Start(SyntaxKind::ARG_LIST));
        lemma_nodes_no_start(c.events@, p.events@, from, d, args);
    }
}

/// What may stand directly under an argument list: an argument, plain,
/// named or aliased.
pub open spec fn is_arg_kind(k: SyntaxKind) -> bool {
    k == SyntaxKind::ARG || k == SyntaxKind::NAMED_ARG || k == SyntaxKind::ALIAS_ARG
}

/// The node an argument at the cursor of `p` is: `name = …` is named,
/// `Source as Alias` an alias, anything else a plain argument.
pub open spec fn arg_kind(p: Parser) -> SyntaxKind {
    if kind_at(p, 0) == Some(SyntaxKind::IDENT) && kind_at(p, 1) == Some(SyntaxKind::ASSIGN) {
        SyntaxKind::NAMED_ARG
    } else if kind_at(p, 0) == Some(SyntaxKind::IDENT) && kind_at(p, 1) == Some(SyntaxKind::IDENT)
        && p.tokens@[nth_real(p.tokens@, p.pos as int, 1)].text@ == "as"@ && kind_at(p, 2) == Some(
        SyntaxKind::IDENT,
    ) {
        SyntaxKind::ALIAS_ARG
    } else {
        SyntaxKind::ARG
    }
}

/// `name = expr` (`NAMED_ARG`), `Source as Alias` (`ALIAS_ARG`; `as` is a
/// word only here), or an expression (`ARG`).
pub fn parse_arg(p: &mut Parser)
    requires
        inv(*old(p)),
    ensures
        adds_no_malformed(old(p).diagnostics@, final(p).diagnostics@),
        step(*old(p), *final(p)),
        wraps(skipped(*old(p)), final(p).events@, arg_kind(*old(p))),
        final(p).events@.take(skipped(*old(p)).len() as int) == skipped(*old(p)),
    decreases rem(*old(p)), 6nat,
{
    let ghost start = *p;
    p.skip_trivia();
    let ghost s0 = *p;
    proof {
        lemma_next_real_here(start.tokens@, start.pos as int);
        lemma_tokens_from_push(s0.pos as int, s0.pos as int);
        assert(skipped(start) =~= s0.events@);
        assert(kind_at(s0, 0) == kind_at(start, 0));
        assert(kind_at(s0, 1) == kind_at(start, 1));
        assert(kind_at(s0, 2) == kind_at(start, 2));
        assert(nth_real(s0.tokens@, s0.pos as int, 1) == nth_real(
            start.tokens@,
            start.pos as int,
            1,
        ));
    }
    let first = p.current();
    let second = p.peek_kind(1);
    let is_named = first == Some(SyntaxKind::IDENT) && second == Some(SyntaxKind::ASSIGN);
    let is_alias = first == Some(SyntaxKind::IDENT) && second == Some(SyntaxKind::IDENT)
        && p.peek_text_is(1, "as") && p.peek_kind(2) == Some(SyntaxKind::IDENT);
    let kind = if is_named {
        SyntaxKind::NAMED_ARG
    } else if is_alias {
        SyntaxKind::ALIAS_ARG
    } else {
        SyntaxKind::ARG
    };
    p.start(kind);
    let ghost b = *p;
    proof {
        lemma_step_refl(b);
    }
    if is_named {
        p.bump();
        let ghost x1 = *p;
        p.skip_trivia();
        let ghost x2 = *p;
        p.bump();
        proof {
            lemma_step_trans(b, x1, x2);
            lemma_step_trans(b, x2, *p);
        }
    } else if is_alias {
        p.bump();
        let ghost x1 = *p;
        p.skip_trivia();
        let ghost x2 = *p;
        p.bump();
        let ghost x3 = *p;
        p.skip_trivia();
        let ghost x4 = *p;
        p.bump();
        proof {
            lemma_step_trans(b, x1, x2);
            lemma_step_trans(b, x2, x3);
            lemma_step_trans(b, x3, x4);
            lemma_step_trans(b, x4, *p);
        }
        let ghost c = *p;
        p.finish();
        proof {
            lemma_wrap(s0, b, c, *p, kind);
            lemma_wrap_node(s0, b, c, *p, kind);
            lemma_step_trans(start, s0, *p);
        }
        return;
    }
    let ghost y = *p;
    parse_expression(p, 0);
    let ghost c = *p;
    proof {
        lemma_step_trans(b, y, c);
    }
    p.finish();
    proof {
        lemma_wrap(s0, b, c, *p, kind);
        lemma_wrap_node(s0, b, c, *p, kind);
        lemma_step_trans(start, s0, *p);
    }
}

/// The cursor is at `prefix:Local` outside a ternary's then-branch.
pub open spec fn curie_at(p: Parser) -> bool {
    &&& kind_at(p, 0) == Some(SyntaxKind::IDENT)
    &&& p.ternary_then_depth == 0
    &&& kind_at(p, 1) == Some(SyntaxKind::SHAPE_SEP)
    &&& kind_at(p, 2) == Some(SyntaxKind::IDENT)
}

/// The real token under the cursor is one a literal is made of.
pub open spec fn literal_at(p: Parser) -> bool {
    let k = real_kind(p);
    ||| k == Some(SyntaxKind::INTEGER)
    ||| k == Some(SyntaxKind::FLOAT)
    ||| k == Some(SyntaxKind::BOOL)
    ||| k == Some(SyntaxKind::NULL)
    ||| k == Some(SyntaxKind::STRING)
    ||| (k == Some(SyntaxKind::IDENT) && !curie_at(p))
}

/// A node that holds only tokens is one node.
proof fn lemma_flat_node(o: Seq<Event>, t: Seq<Event>, k: SyntaxKind)
    requires
        forall|i: int| 0 <= i < t.len() ==> #[trigger] t[i] is Token,
    ensures
        node_after(o, o + seq![Event::Start(k)] + t + seq![Event::Finish]),
{
    let n = o + seq![Event::Start(k)] + t + seq![Event::Finish];
    let open = o.push(Event::Start(k));
    assert(n.drop_last() =~= open + t);
    lemma_push(o, Event::Start(k));
    assert forall|i: int| o.len() + 1 <= i <= n.drop_last().len() implies depth(
        #[trigger] n.drop_last().take(i),
    ) >= depth(o) + 1 by {
        let u = t.take(i - o.len() - 1);
        assert(n.drop_last().take(i) =~= open + u);
        lemma_depth_tokens(open, u);
    }
}

/// `s` is the shape of the parenthesised expression whose node the events
/// `n` hold after `o`, sound and within the precedence table.
pub open spec fn paren_at(o: Seq<Event>, n: Seq<Event>, toks: Seq<LexedToken>, s: Shape) -> bool {
    &&& s is Paren
    &&& events_of(s) == n.subrange(o.len() as int, n.len() as int)
    &&& sound(s, toks)
    &&& prec(s, toks, 0)
}

/// A `PAREN_EXPR` node opened after `s0`: `(`, the expression parsed from
/// `x1`, then what `c` adds, closed.
proof fn lemma_paren_shape(
    s0: Parser,
    b: Parser,
    x1: Parser,
    x2: Parser,
    m: int,
    inner: Shape,
    c: Parser,
    d: Parser,
)
    requires
        inv(x1),
        s0.pos < s0.tokens@.len(),
        s0.tokens@[s0.pos as int].kind == SyntaxKind::LPAREN,
        b.events@ == s0.events@.push(Event::Start(SyntaxKind::PAREN_EXPR)),
        x1.events@ == b.events@.push(Event::Token(s0.pos)),
        x1.tokens@ == s0.tokens@,
        x2.tokens@ == s0.tokens@,
        expression_ends(skipped(x1), x2, m, inner, 0),
        x2.events@.len() <= c.events@.len(),
        c.events@.take(x2.events@.len() as int) == x2.events@,
        forall|j: int|
            x2.events@.len() <= j < c.events@.len() ==> (#[trigger] c.events@[j] is Start
                ==> c.events@[j] == Event::Start(SyntaxKind::ERROR)),
        closes_paren(c.events@, s0.tokens@) || has_error(
            c.events@.subrange(x2.events@.len() as int, c.events@.len() as int),
        ),
        d.events@ == c.events@.push(Event::Finish),
    ensures
        paren_at(
            s0.events@,
            d.events@,
            s0.tokens@,
            Shape::Paren {
                open: s0.pos,
                pre: trivia_after(x1),
                inner: Box::new(inner),
                rest: c.events@.subrange(m, c.events@.len() as int),
            },
        ),
{
    reveal(expression_ends);
    reveal(expression_at);
    lemma_trivia_after(x1);
    let toks = s0.tokens@;
    let sk = skipped(x1);
    let x2e = x2.events@;
    let ce = c.events@;
    let rest = ce.subrange(m, ce.len() as int);
    assert(sk.len() + 2 <= m <= x2e.len());
    assert forall|i: int| 0 <= i < rest.len() implies (#[trigger] rest[i] is Start ==> rest[i]
        == Event::Start(SyntaxKind::ERROR)) by {
        let j = m + i;
        assert(rest[i] == ce[j]);
        if j < x2e.len() {
            assert(ce[j] == ce.take(x2e.len() as int)[j]);
        }
    }
    if !closes_paren(ce, toks) {
        let h = ce.subrange(x2e.len() as int, ce.len() as int);
        let k = choose|k: int| 0 <= k < h.len() && #[trigger] h[k] == Event::Start(SyntaxKind::ERROR);
        assert(rest[x2e.len() - m + k] == h[k]);
    } else {
        assert(rest.last() == ce.last());
    }
    let sh = Shape::Paren { open: s0.pos, pre: trivia_after(x1), inner: Box::new(inner), rest };
    let de = d.events@;
    let o = s0.events@.len() as int;
    assert(sk =~= x1.events@ + trivia_after(x1));
    assert forall|i: int| 0 <= i < x2e.len() implies #[trigger] ce[i] == x2e[i] by {
        assert(ce[i] == ce.take(x2e.len() as int)[i]);
    }
    assert forall|i: int| 0 <= i < sk.len() implies #[trigger] x2e[i] == sk[i] by {
        assert(x2e[i] == x2e.take(sk.len() as int)[i]);
    }
    assert(events_of(sh) =~= de.subrange(o, de.len() as int));
}

/// A literal, an identifier, a parenthesised expression, or the refusal of a
/// retired spelling; an `ERROR` node around any other token.
#[verifier::rlimit(40)]
pub fn parse_primary(p: &mut Parser)
    requires
        inv(*old(p)),
    ensures
        adds_no_malformed(old(p).diagnostics@, final(p).diagnostics@),
        step(*old(p), *final(p)),
        progress(*old(p), *final(p)),
        literal_at(*old(p)) ==> final(p).diagnostics@ == old(p).diagnostics@ && final(p).events@
            == skipped(*old(p)) + seq![
            Event::Start(SyntaxKind::LITERAL_EXPR),
            Event::Token(next_real(old(p).tokens@, old(p).pos as int) as usize),
            Event::Finish,
        ],
        real_kind(*old(p)) == Some(SyntaxKind::STRING_OPEN) ==> wraps(
            skipped(*old(p)),
            final(p).events@,
            SyntaxKind::INTERP_STRING_EXPR,
        ) && holes_hold(
            final(p).events@,
            final(p).tokens@,
            skipped(*old(p)).len() + 1int,
            depth(skipped(*old(p))) + 1,
        ),
        real_kind(*old(p)) == Some(SyntaxKind::DOT) ==> retired_with(
            *old(p),
            *final(p),
            retired::LEADING_DOT@,
        ),
        curie_at(*old(p)) ==> retired_with(*old(p), *final(p), retired::CURIE@),
        real_kind(*old(p)) == Some(SyntaxKind::LT) ==> retired_with(
            *old(p),
            *final(p),
            retired::ABSOLUTE_IRI@,
        ),
        real_kind(*old(p)) == Some(SyntaxKind::LPAREN) ==> wraps(
            skipped(*old(p)),
            final(p).events@,
            SyntaxKind::PAREN_EXPR,
        ),
        real_kind(*old(p)) is None ==> final(p).events@ == skipped(*old(p)) + seq![
            Event::Start(SyntaxKind::ERROR),
            Event::Finish,
        ] && final(p).diagnostics@.drop_last() == old(p).diagnostics@,
        real_kind(*old(p)) matches Some(k) && !literal_at(*old(p)) && !curie_at(*old(p)) && k
            != SyntaxKind::STRING_OPEN && k != SyntaxKind::DOT && k != SyntaxKind::LT && k
            != SyntaxKind::LPAREN ==> final(p).events@ == skipped(*old(p)) + seq![
            Event::Start(SyntaxKind::ERROR),
            Event::Token(next_real(old(p).tokens@, old(p).pos as int) as usize),
            Event::Finish,
        ] && final(p).diagnostics@.len() == old(p).diagnostics@.len() + 1
            && final(p).diagnostics@.drop_last() == old(p).diagnostics@,
        node_after(skipped(*old(p)), final(p).events@),
        opens_operand(final(p).events@, skipped(*old(p)).len() as int),
        final(p).events@[skipped(*old(p)).len() as int] == Event::Start(SyntaxKind::PAREN_EXPR)
            ==> exists|s: Shape| paren_at(skipped(*old(p)), final(p).events@, final(p).tokens@, s),
    decreases rem(*old(p)), 2nat,
{
    let ghost start = *p;
    p.skip_trivia();
    let ghost s0 = *p;
    proof {
        lemma_next_real_here(start.tokens@, start.pos as int);
        lemma_next_real(start.tokens@, start.pos as int);
        lemma_tokens_from_push(s0.pos as int, s0.pos as int);
        assert(skipped(s0) =~= skipped(start));
        assert(kind_at(s0, 0) == kind_at(start, 0));
        assert(kind_at(s0, 1) == kind_at(start, 1));
        assert(kind_at(s0, 2) == kind_at(start, 2));
    }
    let k = p.current();
    if k == Some(SyntaxKind::INTEGER) || k == Some(SyntaxKind::FLOAT) || k == Some(SyntaxKind::BOOL)
        || k == Some(SyntaxKind::NULL) || k == Some(SyntaxKind::STRING) {
        parse_literal(p);
        proof {
            lemma_flat_node(s0.events@, seq![Event::Token(s0.pos)], SyntaxKind::LITERAL_EXPR);
            assert(p.events@ =~= s0.events@ + seq![Event::Start(SyntaxKind::LITERAL_EXPR)] + seq![
                Event::Token(s0.pos),
            ] + seq![Event::Finish]);
        }
    } else if k == Some(SyntaxKind::STRING_OPEN) {
        parse_interpolated_string(p);
    } else if k == Some(SyntaxKind::DOT) {
        let run = if p.peek_kind(1) == Some(SyntaxKind::IDENT) {
            RetiredRun::Count(2)
        } else {
            RetiredRun::Count(1)
        };
        p.retire(retired::LEADING_DOT, run);
        proof {
            lemma_flat_node(s0.events@, tokens_from(s0.pos as int, p.pos as int), SyntaxKind::ERROR);
        }
    } else if k == Some(SyntaxKind::IDENT) && !p.in_ternary_then() && p.peek_kind(1) == Some(
        SyntaxKind::SHAPE_SEP,
    ) && p.peek_kind(2) == Some(SyntaxKind::IDENT) {
        p.retire(retired::CURIE, RetiredRun::Count(3));
        proof {
            lemma_flat_node(s0.events@, tokens_from(s0.pos as int, p.pos as int), SyntaxKind::ERROR);
        }
    } else if k == Some(SyntaxKind::IDENT) {
        parse_literal(p);
        proof {
            lemma_flat_node(s0.events@, seq![Event::Token(s0.pos)], SyntaxKind::LITERAL_EXPR);
            assert(p.events@ =~= s0.events@ + seq![Event::Start(SyntaxKind::LITERAL_EXPR)] + seq![
                Event::Token(s0.pos),
            ] + seq![Event::Finish]);
        }
    } else if k == Some(SyntaxKind::LT) {
        p.retire(retired::ABSOLUTE_IRI, RetiredRun::Line);
        proof {
            lemma_flat_node(s0.events@, tokens_from(s0.pos as int, p.pos as int), SyntaxKind::ERROR);
        }
    } else if k == Some(SyntaxKind::LPAREN) {
        p.start(SyntaxKind::PAREN_EXPR);
        let ghost b = *p;
        p.bump();
        let ghost x1 = *p;
        parse_expression(p, 0);
        let ghost x2 = *p;
        p.expect(SyntaxKind::RPAREN);
        let ghost c = *p;
        proof {
            lemma_step_trans(b, x1, x2);
            lemma_step_trans(b, x2, c);
        }
        p.finish();
        proof {
            lemma_wrap(s0, b, c, *p, SyntaxKind::PAREN_EXPR);
            lemma_wrap_node(s0, b, c, *p, SyntaxKind::PAREN_EXPR);
            let f: int = 0;
            let (m, inner) = choose|m: int, inner: Shape| #[trigger] expression_ends(skipped(x1), x2, m, inner, f);
            lemma_next_real(x2.tokens@, x2.pos as int);
            let sk = skipped(x2);
            let t = tokens_from(x2.pos as int, next_real(x2.tokens@, x2.pos as int));
            assert(sk =~= x2.events@ + t);
            assert(c.events@.take(x2.events@.len() as int) == x2.events@);
            assert forall|j: int| x2.events@.len() <= j < c.events@.len() implies (
            #[trigger] c.events@[j] is Start ==> c.events@[j] == Event::Start(SyntaxKind::ERROR)) by {
                if j < sk.len() {
                    assert(c.events@[j] == t[j - x2.events@.len()]);
                }
            }
            if real_kind(x2) != Some(SyntaxKind::RPAREN) {
                let h = c.events@.subrange(x2.events@.len() as int, c.events@.len() as int);
                assert(h[sk.len() - x2.events@.len()] == Event::Start(SyntaxKind::ERROR));
            } else {
                let nr = next_real(x2.tokens@, x2.pos as int);
                assert(x2.tokens@.len() == x2.tokens.len());
                assert(c.events@.last() == Event::Token(nr as usize));
                assert(closes_paren(c.events@, s0.tokens@));
            }
            lemma_paren_shape(s0, b, x1, x2, m, inner, c, *p);
            lemma_tokens_from_push(s0.pos as int, s0.pos as int);
        }
    } else {
        p.bump_as_error();
        proof {
            if s0.pos < s0.tokens@.len() {
                lemma_flat_node(s0.events@, seq![Event::Token(s0.pos)], SyntaxKind::ERROR);
                assert(p.events@ =~= s0.events@ + seq![Event::Start(SyntaxKind::ERROR)] + seq![
                    Event::Token(s0.pos),
                ] + seq![Event::Finish]);
            } else {
                lemma_flat_node(s0.events@, seq![], SyntaxKind::ERROR);
                assert(p.events@ =~= s0.events@ + seq![Event::Start(SyntaxKind::ERROR)] + Seq::<
                    Event,
                >::empty() + seq![Event::Finish]);
            }
        }
    }
    proof {
        lemma_step_trans(start, s0, *p);
    }
}

/// The token under the cursor as a `LITERAL_EXPR` of its own.
pub fn parse_literal(p: &mut Parser)
    requires
        inv(*old(p)),
    ensures
        adds_no_malformed(old(p).diagnostics@, final(p).diagnostics@),
        step(*old(p), *final(p)),
        final(p).diagnostics@ == old(p).diagnostics@,
        old(p).pos < old(p).tokens@.len() ==> final(p).pos == old(p).pos + 1
            && final(p).events@ == old(p).events@ + seq![
            Event::Start(SyntaxKind::LITERAL_EXPR),
            Event::Token(old(p).pos),
            Event::Finish,
        ],
{
    let ghost start = *p;
    p.start(SyntaxKind::LITERAL_EXPR);
    let ghost b = *p;
    p.bump();
    let ghost c = *p;
    p.finish();
    proof {
        lemma_wrap(start, b, c, *p, SyntaxKind::LITERAL_EXPR);
        if start.pos < start.tokens@.len() {
            assert(p.events@ =~= start.events@ + seq![
                Event::Start(SyntaxKind::LITERAL_EXPR),
                Event::Token(start.pos),
                Event::Finish,
            ]);
        }
    }
}

/// The node opened at event `j` is a string hole whose expression opens at
/// event `e1`: its `{` and the trivia after it are tokens up to `e1`, then
/// one expression node, with the errors that expression's parse left after
/// it, up to `e2`.
pub open spec fn hole_with(
    ev: Seq<Event>,
    toks: Seq<LexedToken>,
    j: int,
    e1: int,
    e2: int,
    m: int,
    s: Shape,
) -> bool {
    &&& 0 <= j
    &&& j + 2 <= e1 <= e2 <= ev.len()
    &&& forall|i: int| j + 1 <= i < e1 ==> #[trigger] ev[i] is Token
    &&& expression_at(ev.take(e1), ev.take(e2), toks, m, s, 0)
}

/// The node opened at event `j` is a string hole: its `{`, the trivia after
/// it, then one expression node, with the errors that expression's parse left
/// after it.
#[verifier::opaque]
pub open spec fn hole_at(ev: Seq<Event>, toks: Seq<LexedToken>, j: int) -> bool {
    exists|e1: int, e2: int, m: int, s: Shape| #[trigger] hole_with(ev, toks, j, e1, e2, m, s)
}

/// Every `INTERPOLATION` node opened at depth `d` from event `from` on is a
/// hole holding its expression.
#[verifier::opaque]
pub open spec fn holes_hold(ev: Seq<Event>, toks: Seq<LexedToken>, from: int, d: int) -> bool {
    forall|j: int|
        from <= j < ev.len() && depth(ev.take(j)) == d && #[trigger] ev[j] == Event::Start(
            SyntaxKind::INTERPOLATION,
        ) ==> hole_at(ev, toks, j)
}

proof fn lemma_hole_intro(
    ev: Seq<Event>,
    toks: Seq<LexedToken>,
    j: int,
    e1: int,
    e2: int,
    m: int,
    s: Shape,
)
    requires
        hole_with(ev, toks, j, e1, e2, m, s),
    ensures
        hole_at(ev, toks, j),
{
    reveal(hole_at);
}

/// A hole just parsed: `{` after the node's start, then what the hole's
/// expression parse made of the rest.
proof fn lemma_new_hole(j: int, h1: Parser, h2: Parser, ev: Seq<Event>, toks: Seq<LexedToken>)
    requires
        0 <= j,
        h1.events@.len() == j + 2,
        h1.events@[j + 1] is Token,
        exists|m: int, s: Shape| expression_ends(skipped(h1), h2, m, s, 0),
        h2.events@.len() <= ev.len(),
        ev.take(h2.events@.len() as int) == h2.events@,
        toks == h2.tokens@,
    ensures
        hole_at(ev, toks, j),
{
    reveal(expression_ends);
    reveal(expression_at);
    let (m, sh) = choose|m: int, s: Shape| expression_ends(skipped(h1), h2, m, s, 0);
    let sk1 = skipped(h1);
    let e1 = sk1.len() as int;
    let e2 = h2.events@.len() as int;
    assert(expression_at(sk1, h2.events@, toks, m, sh, 0));
    assert(h2.events@.take(e1) == sk1);
    assert(ev.take(e2) =~= h2.events@);
    assert(ev.take(e1) =~= sk1) by {
        assert forall|k: int| 0 <= k < e1 implies ev[k] == sk1[k] by {
            assert(ev.take(e2)[k] == ev[k]);
            assert(h2.events@.take(e1)[k] == h2.events@[k]);
        }
    }
    assert forall|i: int| j + 1 <= i < e1 implies #[trigger] ev[i] is Token by {
        assert(ev[i] == ev.take(e1)[i]);
        if i >= h1.events@.len() {
            assert(sk1[i] == tokens_from(h1.pos as int, next_real(h1.tokens@, h1.pos as int))[i
                - h1.events@.len()]);
        } else {
            assert(sk1[i] == h1.events@[i]);
        }
    }
    lemma_hole_intro(ev, toks, j, e1, e2, m, sh);
}

proof fn lemma_hole_extend(a: Seq<Event>, n: Seq<Event>, toks: Seq<LexedToken>, j: int)
    requires
        hole_at(a, toks, j),
        a.len() <= n.len(),
        n.take(a.len() as int) == a,
    ensures
        hole_at(n, toks, j),
{
    reveal(hole_at);
    let (e1, e2, m, s) = choose|e1: int, e2: int, m: int, s: Shape|
        #[trigger] hole_with(a, toks, j, e1, e2, m, s);
    assert(e1 <= e2 <= a.len());
    assert forall|k: int| 0 <= k < a.len() implies #[trigger] n[k] == a[k] by {
        assert(n.take(a.len() as int)[k] == n[k]);
    }
    assert(n.take(e1) =~= a.take(e1));
    assert(n.take(e2) =~= a.take(e2));
    assert forall|i: int| j + 1 <= i < e1 implies #[trigger] n[i] is Token by {
        assert(a[i] is Token);
    }
    assert(hole_with(n, toks, j, e1, e2, m, s));
}

proof fn lemma_holes_extend(
    a: Seq<Event>,
    n: Seq<Event>,
    toks: Seq<LexedToken>,
    from: int,
    d: int,
)
    requires
        0 <= from,
        holes_hold(a, toks, from, d),
        a.len() <= n.len(),
        n.take(a.len() as int) == a,
        forall|j: int|
            a.len() <= j < n.len() && depth(n.take(j)) == d && #[trigger] n[j] == Event::Start(
                SyntaxKind::INTERPOLATION,
            ) ==> hole_at(n, toks, j),
    ensures
        holes_hold(n, toks, from, d),
{
    reveal(holes_hold);
    assert forall|j: int|
        from <= j < n.len() && depth(n.take(j)) == d && #[trigger] n[j] == Event::Start(
            SyntaxKind::INTERPOLATION,
        ) implies hole_at(n, toks, j) by {
        if j < a.len() {
            assert(n[j] == n.take(a.len() as int)[j]);
            assert(n.take(j) =~= a.take(j));
            lemma_hole_extend(a, n, toks, j);
        }
    }
}

/// `STRING_OPEN (STRING_TEXT | INTERP_OPEN expr RBRACE)* STRING_CLOSE` under
/// an `INTERP_STRING_EXPR` node, each hole under an `INTERPOLATION` node;
/// beside the holes only a missing close stands there, as an `ERROR` node.
#[verifier::rlimit(60)]
#[verifier::spinoff_prover]
pub fn parse_interpolated_string(p: &mut Parser)
    requires
        inv(*old(p)),
    ensures
        adds_no_malformed(old(p).diagnostics@, final(p).diagnostics@),
        step(*old(p), *final(p)),
        wraps(old(p).events@, final(p).events@, SyntaxKind::INTERP_STRING_EXPR),
        progress(*old(p), *final(p)),
        nodes_at(
            final(p).events@,
            old(p).events@.len() + 1int,
            depth(old(p).events@) + 1,
            |k: SyntaxKind| k == SyntaxKind::INTERPOLATION || k == SyntaxKind::ERROR,
        ),
        holes_hold(
            final(p).events@,
            final(p).tokens@,
            old(p).events@.len() + 1int,
            depth(old(p).events@) + 1,
        ),
    decreases rem(*old(p)), 1nat,
{
    let ghost start = *p;
    p.start(SyntaxKind::INTERP_STRING_EXPR);
    let ghost b = *p;
    let ghost from = b.events@.len() as int;
    let ghost d = depth(b.events@);
    let ghost parts = |k: SyntaxKind| k == SyntaxKind::INTERPOLATION || k == SyntaxKind::ERROR;
    let ghost toks = b.tokens@;
    assert(holes_hold(b.events@, toks, from, d)) by {
        reveal(holes_hold);
    }
    p.bump();
    proof {
        lemma_nm(start, b, *p);
        lemma_next_real(start.tokens@, start.pos as int);
        lemma_nodes_no_start(b.events@, p.events@, from, d, parts);
        lemma_holes_extend(b.events@, p.events@, toks, from, d);
    }
    loop
        invariant
            step(b, *p),
            b.pos == start.pos,
            b.tokens@ == start.tokens@,
            start == *old(p),
            start.pos < start.tokens@.len() ==> p.pos > start.pos,
            from == b.events@.len(),
            d == depth(b.events@),
            parts == |k: SyntaxKind| k == SyntaxKind::INTERPOLATION || k == SyntaxKind::ERROR,
            nodes_at(p.events@, from, d, parts),
            toks == b.tokens@,
            holes_hold(p.events@, toks, from, d),
            adds_no_malformed(start.diagnostics@, p.diagnostics@),
        decreases rem(*p),
    {
        let ghost it = *p;
        let k = p.current();
        if k == Some(SyntaxKind::STRING_TEXT) {
            p.bump();
            proof {
                lemma_nm(start, it, *p);
                lemma_step_trans(b, it, *p);
                lemma_nodes_no_start(it.events@, p.events@, from, d, parts);
                lemma_holes_extend(it.events@, p.events@, toks, from, d);
            }
        } else if k == Some(SyntaxKind::INTERP_OPEN) {
            p.start(SyntaxKind::INTERPOLATION);
            let ghost hb = *p;
            p.bump();
            let ghost h1 = *p;
            parse_interpolation_body(p);
            let ghost h2 = *p;
            let anchors = [SyntaxKind::STRING_CLOSE];
            expect_or_recover(p, SyntaxKind::RBRACE, &anchors);
            let ghost hc = *p;
            proof {
                lemma_nm(start, it, hb);
                lemma_nm(start, hb, h1);
                lemma_nm(start, h1, h2);
                lemma_nm(start, h2, hc);
                lemma_step_trans(hb, h1, h2);
                lemma_step_trans(hb, h2, hc);
            }
            p.finish();
            proof {
                lemma_nm(start, hc, *p);
                lemma_wrap(it, hb, hc, *p, SyntaxKind::INTERPOLATION);
                lemma_wrap_node(it, hb, hc, *p, SyntaxKind::INTERPOLATION);
                lemma_step_trans(b, it, *p);
                lemma_nodes_node(it.events@, p.events@, from, d, SyntaxKind::INTERPOLATION, parts);
                let j0 = it.events@.len() as int;
                assert(p.events@.take(h2.events@.len() as int) =~= h2.events@) by {
                    assert(p.events@.take(hc.events@.len() as int) == hc.events@);
                    assert(hc.events@.take(h2.events@.len() as int) == h2.events@);
                }
                lemma_new_hole(j0, h1, h2, p.events@, toks);
                lemma_inside_deeper(it.events@, p.events@, d, SyntaxKind::INTERPOLATION);
                lemma_holes_extend(it.events@, p.events@, toks, from, d);
            }
        } else if k == Some(SyntaxKind::STRING_CLOSE) {
            p.bump();
            proof {
                lemma_nm(start, it, *p);
                lemma_step_trans(b, it, *p);
                lemma_nodes_no_start(it.events@, p.events@, from, d, parts);
                lemma_holes_extend(it.events@, p.events@, toks, from, d);
            }
            break;
        } else {
            p.expect(SyntaxKind::STRING_CLOSE);
            proof {
                lemma_nm(start, it, *p);
                lemma_step_trans(b, it, *p);
                let sk = skipped(it);
                lemma_depth_tokens(it.events@, tokens_from(it.pos as int, next_real(it.tokens@, it.pos as int)));
                assert(sk.take(it.events@.len() as int) =~= it.events@);
                lemma_nodes_no_start(it.events@, sk, from, d, parts);
                assert(p.events@.take(sk.len() as int) =~= sk);
                if p.events@.len() > sk.len() + 1 {
                    lemma_nodes_error(sk, p.events@, from, d, parts);
                } else {
                    lemma_nodes_no_start(sk, p.events@, from, d, parts);
                }
                let from2 = it.events@.len() as int;
                let errs = |k: SyntaxKind| k == SyntaxKind::ERROR;
                assert(nodes_at(it.events@, from2, d, errs));
                lemma_nodes_no_start(it.events@, sk, from2, d, errs);
                if p.events@.len() > sk.len() + 1 {
                    lemma_nodes_error(sk, p.events@, from2, d, errs);
                } else {
                    lemma_nodes_no_start(sk, p.events@, from2, d, errs);
                }
                lemma_holes_extend(it.events@, p.events@, toks, from, d);
            }
            break;
        }
    }
    let ghost c = *p;
    p.finish();
    proof {
        lemma_nm(start, c, *p);
        lemma_wrap(start, b, c, *p, SyntaxKind::INTERP_STRING_EXPR);
        lemma_wrap_node(start, b, c, *p, SyntaxKind::INTERP_STRING_EXPR);
        lemma_push(c.events@, Event::Finish);
        lemma_nodes_no_start(c.events@, p.events@, from, d, parts);
        lemma_holes_extend(c.events@, p.events@, toks, from, d);
    }
}

/// The expression inside one `{…}` hole.
pub fn parse_interpolation_body(p: &mut Parser)
    requires
        inv(*old(p)),
    ensures
        adds_no_malformed(old(p).diagnostics@, final(p).diagnostics@),
        step(*old(p), *final(p)),
        exists|m: int, s: Shape| expression_ends(skipped(*old(p)), *final(p), m, s, 0),
    decreases rem(*old(p)), 6nat,
{
    let ghost start = *p;
    p.skip_trivia();
    let ghost s0 = *p;
    parse_expression(p, 0);
    proof {
        lemma_step_trans(start, s0, *p);
        lemma_nm(start, s0, *p);
        lemma_next_real_here(start.tokens@, start.pos as int);
        lemma_tokens_from_push(s0.pos as int, s0.pos as int);
        assert(skipped(s0) =~= skipped(start));
        let f: int = 0;
        let (m, s) = choose|m: int, s: Shape| #[trigger] expression_ends(skipped(s0), *p, m, s, f);
        assert(expression_ends(skipped(start), *p, m, s, 0));
    }
}

/// An expression under an `EXPR` node, as items hold their right-hand sides.
/// The expression keeps the precedence table from the lowest floor.
pub fn parse_expr(p: &mut Parser)
    requires
        inv(*old(p)),
    ensures
        adds_no_malformed(old(p).diagnostics@, final(p).diagnostics@),
        step(*old(p), *final(p)),
        wraps(old(p).events@, final(p).events@, SyntaxKind::EXPR),
        progress(*old(p), *final(p)),
        exists|m: int, s: Shape|
            expression_at(
                old(p).events@.push(Event::Start(SyntaxKind::EXPR)) + trivia_after(*old(p)),
                final(p).events@,
                final(p).tokens@,
                m,
                s,
                0,
            ),
{
    let ghost start = *p;
    p.start(SyntaxKind::EXPR);
    let ghost b = *p;
    p.skip_trivia();
    let ghost x = *p;
    parse_expression(p, 0);
    let ghost c = *p;
    proof {
        lemma_step_trans(b, x, c);
        lemma_next_real_here(start.tokens@, start.pos as int);
    }
    p.finish();
    proof {
        lemma_wrap(start, b, c, *p, SyntaxKind::EXPR);
        lemma_wrap_node(start, b, c, *p, SyntaxKind::EXPR);
        let o = start.events@.push(Event::Start(SyntaxKind::EXPR)) + trivia_after(start);
        lemma_next_real_here(x.tokens@, x.pos as int);
        lemma_tokens_from_push(x.pos as int, x.pos as int);
        assert(skipped(x) =~= o);
        let f: int = 0;
        let (m, s) = choose|m: int, s: Shape| #[trigger] expression_ends(o, c, m, s, f);
        assert(expression_at(o, c.events@, c.tokens@, m, s, 0)) by {
            reveal(expression_ends);
        }
        assert(p.events@.take(c.events@.len() as int) =~= c.events@);
        lemma_expr_extend(o, c.events@, p.events@, p.tokens@, m, s, 0);
    }
}

} // verus!
