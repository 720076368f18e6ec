//! The parser's machinery: the event stream a parse produces, the cursor over
//! the token stream, and the recovery helpers.
//!
//! A parse is a flat stream of [`Event`]s — open a node, one token, close a
//! node — that a tree builder replays. Every token of the stream appears in it
//! exactly once and in order (the tree is lossless), and the nodes nest. The
//! item and expression productions live in [`crate::items`] and
//! [`crate::expr`].

use vstd::prelude::*;

use crate::diag::{ParseDiagnostic, Span};
use crate::indent::LexedToken;
use crate::kind::SyntaxKind;
use crate::strings::str_eq;

verus! {

// ───────────────────────────── events ─────────────────────────────

/// One step of building the tree.
#[derive(Debug, Clone, Copy, PartialEq, Eq, Structural)]
pub enum Event {
    /// Open a node of this kind.
    Start(SyntaxKind),
    /// The token at this index of the token stream.
    Token(usize),
    /// Close the innermost open node.
    Finish,
}

pub open spec fn delta(e: Event) -> int {
    match e {
        Event::Start(_) => 1,
        Event::Finish => -1,
        Event::Token(_) => 0,
    }
}

/// How many nodes are open after `ev`.
pub open spec fn depth(ev: Seq<Event>) -> int
    decreases ev.len(),
{
    if ev.len() == 0 {
        0
    } else {
        depth(ev.drop_last()) + delta(ev.last())
    }
}

/// No prefix of `ev` closes a node that was never opened.
pub open spec fn nonneg(ev: Seq<Event>) -> bool {
    forall|i: int| 0 <= i <= ev.len() ==> depth(#[trigger] ev.take(i)) >= 0
}

/// The token indices of `ev`, in order.
pub open spec fn token_ids(ev: Seq<Event>) -> Seq<usize>
    decreases ev.len(),
{
    if ev.len() == 0 {
        Seq::empty()
    } else {
        match ev.last() {
            Event::Token(i) => token_ids(ev.drop_last()).push(i),
            _ => token_ids(ev.drop_last()),
        }
    }
}

/// `s` is `0, 1, …, n - 1`.
pub open spec fn counts_to(s: Seq<usize>, n: int) -> bool {
    &&& s.len() == n
    &&& forall|i: int| 0 <= i < n ==> #[trigger] s[i] == i
}

/// The events of a finished parse: a tree over every token, in order.
pub open spec fn well_formed(ev: Seq<Event>, n: int) -> bool {
    &&& counts_to(token_ids(ev), n)
    &&& nonneg(ev)
    &&& depth(ev) == 0
}

pub proof fn lemma_push(ev: Seq<Event>, e: Event)
    ensures
        depth(ev.push(e)) == depth(ev) + delta(e),
        token_ids(ev.push(e)) == match e {
            Event::Token(i) => token_ids(ev).push(i),
            _ => token_ids(ev),
        },
        nonneg(ev) && depth(ev) + delta(e) >= 0 ==> nonneg(ev.push(e)),
        nonneg(ev) ==> depth(ev) >= 0,
        ev.push(e).take(ev.len() as int) == ev,
        delta(e) >= 0 ==> above(ev.push(e), ev.len() as int, depth(ev)),
{
    assert(ev.take(ev.len() as int) =~= ev);
    assert(ev.push(e).take(ev.len() + 1 as int) =~= ev.push(e));
    assert(ev.push(e).drop_last() =~= ev);
    assert(ev.push(e).take(ev.len() as int) =~= ev);
    if nonneg(ev) && depth(ev) + delta(e) >= 0 {
        assert forall|i: int| 0 <= i <= ev.push(e).len() implies depth(
            #[trigger] ev.push(e).take(i),
        ) >= 0 by {
            if i <= ev.len() {
                assert(ev.push(e).take(i) =~= ev.take(i));
            } else {
                assert(ev.push(e).take(i) =~= ev.push(e));
            }
        }
    }
}

proof fn lemma_insert_counts(ev: Seq<Event>, cp: int, k: SyntaxKind)
    requires
        0 <= cp <= ev.len(),
    ensures
        depth(ev.insert(cp, Event::Start(k))) == depth(ev) + 1,
        token_ids(ev.insert(cp, Event::Start(k))) == token_ids(ev),
    decreases ev.len(),
{
    let ins = ev.insert(cp, Event::Start(k));
    if cp == ev.len() {
        assert(ins =~= ev.push(Event::Start(k)));
        lemma_push(ev, Event::Start(k));
    } else {
        let d = ev.drop_last();
        lemma_insert_counts(d, cp, k);
        assert(ins =~= d.insert(cp, Event::Start(k)).push(ev.last()));
        assert(ev =~= d.push(ev.last()));
        lemma_push(d, ev.last());
        lemma_push(d.insert(cp, Event::Start(k)), ev.last());
    }
}

/// Opening a node at an earlier point keeps every token where it was, adds
/// one level, and leaves the events before the point alone.
pub proof fn lemma_insert_start(ev: Seq<Event>, cp: int, k: SyntaxKind)
    requires
        0 <= cp <= ev.len(),
    ensures
        depth(ev.insert(cp, Event::Start(k))) == depth(ev) + 1,
        token_ids(ev.insert(cp, Event::Start(k))) == token_ids(ev),
        nonneg(ev) ==> nonneg(ev.insert(cp, Event::Start(k))),
        ev.insert(cp, Event::Start(k)).take(cp) == ev.take(cp),
{
    let ins = ev.insert(cp, Event::Start(k));
    lemma_insert_counts(ev, cp, k);
    assert(ins.take(cp) =~= ev.take(cp));
    if nonneg(ev) {
        assert forall|i: int| 0 <= i <= ins.len() implies depth(#[trigger] ins.take(i)) >= 0 by {
            if i <= cp {
                assert(ins.take(i) =~= ev.take(i));
            } else {
                assert(ins.take(i) =~= ev.take(i - 1).insert(cp, Event::Start(k)));
                lemma_insert_counts(ev.take(i - 1), cp, k);
                assert(depth(ev.take(i - 1)) >= 0);
            }
        }
    }
}

// ───────────────────────────── tokens ─────────────────────────────

pub open spec fn is_trivia(k: SyntaxKind) -> bool {
    k == SyntaxKind::WHITESPACE || k == SyntaxKind::NEWLINE || k == SyntaxKind::COMMENT
}

/// The first token at or after `i` that is not trivia; the length where
/// there is none.
pub open spec fn next_real(toks: Seq<LexedToken>, i: int) -> int
    decreases toks.len() - i,
{
    if i < 0 || i >= toks.len() {
        toks.len() as int
    } else if is_trivia(toks[i].kind) {
        next_real(toks, i + 1)
    } else {
        i
    }
}

pub proof fn lemma_next_real(toks: Seq<LexedToken>, i: int)
    requires
        0 <= i <= toks.len(),
    ensures
        i <= next_real(toks, i) <= toks.len(),
        next_real(toks, i) < toks.len() ==> !is_trivia(toks[next_real(toks, i)].kind),
        forall|j: int| i <= j < next_real(toks, i) ==> is_trivia(#[trigger] toks[j].kind),
    decreases toks.len() - i,
{
    if i < toks.len() && is_trivia(toks[i].kind) {
        lemma_next_real(toks, i + 1);
    }
}

/// The index of the `n`-th non-trivia token at or after `i`; the length
/// where there are fewer.
pub open spec fn nth_real(toks: Seq<LexedToken>, i: int, n: nat) -> int
    decreases toks.len() - i, n,
{
    let j = next_real(toks, i);
    if i < 0 || i > toks.len() || j >= toks.len() {
        toks.len() as int
    } else if n == 0 {
        j
    } else {
        if j >= i {
            nth_real(toks, j + 1, (n - 1) as nat)
        } else {
            toks.len() as int
        }
    }
}

pub proof fn lemma_nth_real_step(toks: Seq<LexedToken>, i: int, n: nat)
    requires
        0 <= i <= toks.len(),
    ensures
        i == toks.len() ==> nth_real(toks, i, n) == toks.len(),
        i < toks.len() && is_trivia(toks[i].kind) ==> nth_real(toks, i, n) == nth_real(
            toks,
            i + 1,
            n,
        ),
        i < toks.len() && !is_trivia(toks[i].kind) && n == 0 ==> nth_real(toks, i, n) == i,
        i < toks.len() && !is_trivia(toks[i].kind) && n > 0 ==> nth_real(toks, i, n) == nth_real(
            toks,
            i + 1,
            (n - 1) as nat,
        ),
{
    if i < toks.len() && is_trivia(toks[i].kind) {
        lemma_next_real(toks, i + 1);
        assert(next_real(toks, i) == next_real(toks, i + 1));
    }
}

/// What `retire` consumes.
#[derive(Debug, Clone, Copy, PartialEq, Eq, Structural)]
pub enum RetiredRun {
    /// Exactly this many non-trivia tokens.
    Count(usize),
    /// The rest of the line.
    Line,
}

// ───────────────────────────── the cursor ─────────────────────────────

/// The parser's state: the token stream, the cursor, the events so far and
/// the diagnostics so far.
pub struct Parser {
    pub tokens: Vec<LexedToken>,
    pub pos: usize,
    pub events: Vec<Event>,
    pub diagnostics: Vec<ParseDiagnostic>,
    /// How many ternary then-branches are open above the cursor.
    pub ternary_then_depth: usize,
}

/// The kind of the token under the cursor, trivia included.
pub open spec fn cur(p: Parser) -> Option<SyntaxKind> {
    if p.pos < p.tokens@.len() {
        Some(p.tokens@[p.pos as int].kind)
    } else {
        None
    }
}

/// How many tokens are left.
pub open spec fn rem(p: Parser) -> int {
    p.tokens@.len() - p.pos
}

/// Some node among the events is an `ERROR` node.
pub open spec fn has_error_node(ev: Seq<Event>) -> bool {
    exists|i: int| 0 <= i < ev.len() && #[trigger] ev[i] == Event::Start(SyntaxKind::ERROR)
}

/// How many `ERROR` nodes the events open.
pub open spec fn error_nodes(ev: Seq<Event>) -> nat
    decreases ev.len(),
{
    if ev.len() == 0 {
        0
    } else {
        error_nodes(ev.drop_last()) + if ev.last() == Event::Start(SyntaxKind::ERROR) {
            1nat
        } else {
            0nat
        }
    }
}

/// How many of the reports are not of a malformed form: each of those is
/// made together with an `ERROR` node.
pub open spec fn node_reports(ds: Seq<ParseDiagnostic>) -> nat
    decreases ds.len(),
{
    if ds.len() == 0 {
        0
    } else {
        node_reports(ds.drop_last()) + if ds.last() is Malformed {
            0nat
        } else {
            1nat
        }
    }
}

/// The events open at least one `ERROR` node for each report that is not of
/// a malformed form.
#[verifier::opaque]
pub open spec fn answered(ev: Seq<Event>, ds: Seq<ParseDiagnostic>) -> bool {
    node_reports(ds) <= error_nodes(ev)
}

/// Events appended open no fewer `ERROR` nodes.
pub proof fn lemma_error_nodes_grow(ev: Seq<Event>, ev2: Seq<Event>)
    requires
        ev.len() <= ev2.len(),
        ev2.take(ev.len() as int) == ev,
    ensures
        error_nodes(ev) <= error_nodes(ev2),
    decreases ev2.len(),
{
    if ev2.len() == ev.len() {
        assert(ev2 =~= ev2.take(ev.len() as int));
    } else {
        assert(ev2.drop_last().take(ev.len() as int) =~= ev2.take(ev.len() as int));
        lemma_error_nodes_grow(ev, ev2.drop_last());
    }
}

/// A node opened inside the events opens no fewer `ERROR` nodes.
pub proof fn lemma_error_nodes_insert(ev: Seq<Event>, cp: int, e: Event)
    requires
        0 <= cp <= ev.len(),
    ensures
        error_nodes(ev) <= error_nodes(ev.insert(cp, e)),
    decreases ev.len(),
{
    let ev2 = ev.insert(cp, e);
    if cp == ev.len() {
        assert(ev2.drop_last() =~= ev);
    } else {
        assert(ev2.drop_last() =~= ev.drop_last().insert(cp, e));
        assert(ev2.last() == ev.last());
        lemma_error_nodes_insert(ev.drop_last(), cp, e);
    }
}

/// With no `ERROR` node among the events, they open none.
pub proof fn lemma_no_error_nodes(ev: Seq<Event>)
    requires
        !has_error_node(ev),
    ensures
        error_nodes(ev) == 0,
    decreases ev.len(),
{
    if ev.len() > 0 {
        assert forall|i: int| 0 <= i < ev.drop_last().len() implies #[trigger] ev.drop_last()[i]
            != Event::Start(SyntaxKind::ERROR) by {
            assert(ev.drop_last()[i] == ev[i]);
        }
        lemma_no_error_nodes(ev.drop_last());
        assert(ev[ev.len() - 1] != Event::Start(SyntaxKind::ERROR));
    }
}

/// Where no report is counted, every report is of a malformed form.
pub proof fn lemma_no_node_reports(ds: Seq<ParseDiagnostic>)
    requires
        node_reports(ds) == 0,
    ensures
        forall|q: int| 0 <= q < ds.len() ==> (#[trigger] ds[q]) is Malformed,
    decreases ds.len(),
{
    if ds.len() > 0 {
        lemma_no_node_reports(ds.drop_last());
        assert forall|q: int| 0 <= q < ds.len() implies (#[trigger] ds[q]) is Malformed by {
            if q < ds.len() - 1 {
                assert(ds.drop_last()[q] == ds[q]);
            }
        }
    }
}

/// Events appended keep the reports answered.
pub proof fn lemma_answered_grow(ev: Seq<Event>, ev2: Seq<Event>, ds: Seq<ParseDiagnostic>)
    requires
        answered(ev, ds),
        ev.len() <= ev2.len(),
        ev2.take(ev.len() as int) == ev,
    ensures
        answered(ev2, ds),
{
    reveal(answered);
    lemma_error_nodes_grow(ev, ev2);
}

/// A report of a malformed form keeps the reports answered.
pub proof fn lemma_answered_malformed(ev: Seq<Event>, ds: Seq<ParseDiagnostic>, d: ParseDiagnostic)
    requires
        answered(ev, ds),
        d is Malformed,
    ensures
        answered(ev, ds.push(d)),
{
    reveal(answered);
    assert(ds.push(d).drop_last() =~= ds);
}

/// A report made together with an `ERROR` node opened after `ev0` keeps the
/// reports answered.
pub proof fn lemma_answered_node(
    ev0: Seq<Event>,
    ev: Seq<Event>,
    ds: Seq<ParseDiagnostic>,
    d: ParseDiagnostic,
)
    requires
        answered(ev0, ds),
        ev0.len() < ev.len(),
        ev.take(ev0.len() as int) == ev0,
        ev[ev0.len() as int] == Event::Start(SyntaxKind::ERROR),
    ensures
        answered(ev, ds.push(d)),
{
    reveal(answered);
    let e1 = ev0.push(Event::Start(SyntaxKind::ERROR));
    assert(e1.drop_last() =~= ev0);
    assert(ev.take(e1.len() as int) =~= e1);
    lemma_error_nodes_grow(e1, ev);
    assert(ds.push(d).drop_last() =~= ds);
}

/// The events are a prefix of a tree over the tokens before the cursor, and
/// every report but that of a malformed form is answered by an `ERROR` node.
pub open spec fn inv(p: Parser) -> bool {
    &&& p.pos <= p.tokens@.len()
    &&& p.ternary_then_depth <= p.pos
    &&& counts_to(token_ids(p.events@), p.pos as int)
    &&& nonneg(p.events@)
    &&& answered(p.events@, p.diagnostics@)
}

/// From event `from` on, no prefix of `ev` has fewer than `d` nodes open.
pub open spec fn above(ev: Seq<Event>, from: int, d: int) -> bool {
    forall|i: int| from <= i <= ev.len() ==> depth(#[trigger] ev.take(i)) >= d
}

/// What every production keeps: the same tokens, the cursor only forward, the
/// events before it untouched, as many nodes open as before, and none of the
/// nodes open before it closed on the way.
pub open spec fn step(old: Parser, new: Parser) -> bool {
    &&& inv(new)
    &&& new.tokens@ == old.tokens@
    &&& old.pos <= new.pos
    &&& depth(new.events@) == depth(old.events@)
    &&& old.events@.len() <= new.events@.len()
    &&& new.events@.take(old.events@.len() as int) == old.events@
    &&& above(new.events@, old.events@.len() as int, depth(old.events@))
    &&& new.ternary_then_depth == old.ternary_then_depth
}

/// The diagnostics `b` keep those of `a` and add none that reports a
/// malformed form.
pub open spec fn adds_no_malformed(a: Seq<ParseDiagnostic>, b: Seq<ParseDiagnostic>) -> bool {
    &&& a.len() <= b.len()
    &&& forall|i: int| 0 <= i < a.len() ==> #[trigger] b[i] == a[i]
    &&& forall|i: int| a.len() <= i < b.len() ==> !(#[trigger] b[i] is Malformed)
}

/// The diagnostics `b` keep those of `a`, in place.
pub open spec fn keeps_reports(a: Seq<ParseDiagnostic>, b: Seq<ParseDiagnostic>) -> bool {
    &&& a.len() <= b.len()
    &&& forall|i: int| 0 <= i < a.len() ==> #[trigger] b[i] == a[i]
}

/// Three states in a row, each keeping the reports before it.
pub proof fn lemma_keeps(a: Parser, b: Parser, c: Parser)
    requires
        keeps_reports(a.diagnostics@, b.diagnostics@),
        keeps_reports(b.diagnostics@, c.diagnostics@),
    ensures
        keeps_reports(a.diagnostics@, c.diagnostics@),
{
    assert forall|i: int| 0 <= i < a.diagnostics@.len() implies #[trigger] c.diagnostics@[i]
        == a.diagnostics@[i] by {
        assert(c.diagnostics@[i] == b.diagnostics@[i]);
    }
}

pub proof fn lemma_no_malformed_same(a: Seq<ParseDiagnostic>)
    ensures
        adds_no_malformed(a, a),
{
}

pub proof fn lemma_no_malformed_trans(
    a: Seq<ParseDiagnostic>,
    b: Seq<ParseDiagnostic>,
    c: Seq<ParseDiagnostic>,
)
    requires
        adds_no_malformed(a, b),
        adds_no_malformed(b, c),
    ensures
        adds_no_malformed(a, c),
{
    assert forall|i: int| 0 <= i < a.len() implies #[trigger] c[i] == a[i] by {
        assert(c[i] == b[i]);
    }
    assert forall|i: int| a.len() <= i < c.len() implies !(#[trigger] c[i] is Malformed) by {
        if i < b.len() {
            assert(c[i] == b[i]);
        }
    }
}

/// Three states in a row, each adding no malformed report.
pub proof fn lemma_nm(a: Parser, b: Parser, c: Parser)
    requires
        adds_no_malformed(a.diagnostics@, b.diagnostics@),
        adds_no_malformed(b.diagnostics@, c.diagnostics@),
    ensures
        adds_no_malformed(a.diagnostics@, c.diagnostics@),
{
    lemma_no_malformed_trans(a.diagnostics@, b.diagnostics@, c.diagnostics@);
}

/// Token events for the tokens `a`, `a + 1`, …, `b - 1`.
pub open spec fn tokens_from(a: int, b: int) -> Seq<Event> {
    Seq::new((b - a) as nat, |i: int| Event::Token((a + i) as usize))
}

pub proof fn lemma_tokens_from_push(a: int, b: int)
    requires
        0 <= a <= b,
        b <= usize::MAX,
    ensures
        tokens_from(a, b + 1) == tokens_from(a, b).push(Event::Token(b as usize)),
        tokens_from(a, a) == Seq::<Event>::empty(),
{
    assert(tokens_from(a, b + 1) =~= tokens_from(a, b).push(Event::Token(b as usize)));
    assert(tokens_from(a, a) =~= Seq::<Event>::empty());
}

/// The kind of the first real token at or after the cursor, if any.
pub open spec fn real_kind(p: Parser) -> Option<SyntaxKind> {
    if next_real(p.tokens@, p.pos as int) < p.tokens@.len() {
        Some(p.tokens@[next_real(p.tokens@, p.pos as int)].kind)
    } else {
        None
    }
}

/// The byte offset a diagnostic at the cursor starts at: the current real
/// token's start, or the end of the input.
pub open spec fn span_start(p: Parser) -> usize {
    let j = nth_real(p.tokens@, p.pos as int, 0);
    if j < p.tokens@.len() {
        p.tokens@[j].range.start
    } else if p.tokens@.len() > 0 {
        p.tokens@.last().range.end
    } else {
        0
    }
}

pub proof fn lemma_nth_zero(toks: Seq<LexedToken>, i: int)
    requires
        0 <= i <= toks.len(),
    ensures
        nth_real(toks, i, 0) == next_real(toks, i),
{
    lemma_next_real(toks, i);
}

/// The kind of the `n`-th real token at or after the cursor, if any.
pub open spec fn kind_at(p: Parser, n: nat) -> Option<SyntaxKind> {
    if nth_real(p.tokens@, p.pos as int, n) < p.tokens@.len() {
        Some(p.tokens@[nth_real(p.tokens@, p.pos as int, n)].kind)
    } else {
        None
    }
}

/// `new` is `old` and one more report: the retired spelling `message`.
pub open spec fn reported_retired(
    old: Seq<ParseDiagnostic>,
    new: Seq<ParseDiagnostic>,
    message: Seq<char>,
) -> bool {
    &&& new.len() == old.len() + 1
    &&& new.drop_last() == old
    &&& new.last() matches ParseDiagnostic::RetiredSpelling { message: m, .. } && m@ == message
}

/// From `old` to `new`, the real token under the cursor and the rest of a
/// retired form went under one `ERROR` node, and `message` was reported.
pub open spec fn retired_with(old: Parser, new: Parser, message: Seq<char>) -> bool {
    &&& new.events@ == skipped(old) + seq![Event::Start(SyntaxKind::ERROR)] + tokens_from(
        next_real(old.tokens@, old.pos as int),
        new.pos as int,
    ) + seq![Event::Finish]
    &&& new.diagnostics@.len() == old.diagnostics@.len() + 1
    &&& new.diagnostics@.drop_last() == old.diagnostics@
    &&& new.diagnostics@.last() matches ParseDiagnostic::RetiredSpelling { message: m, .. } && m@
        == message
}

/// The events once the trivia under the cursor is emitted.
pub open spec fn skipped(p: Parser) -> Seq<Event> {
    p.events@ + tokens_from(p.pos as int, next_real(p.tokens@, p.pos as int))
}

/// A kind, or `EOF` where there is none.
pub open spec fn kind_or_eof(k: Option<SyntaxKind>) -> SyntaxKind {
    match k {
        Some(k) => k,
        None => SyntaxKind::EOF,
    }
}

/// The cursor's real token is an anchor, or there is none.
pub open spec fn at_anchor_kind(k: Option<SyntaxKind>, anchors: Seq<SyntaxKind>) -> bool {
    match k {
        None => true,
        Some(k) => anchors.contains(k),
    }
}

/// The report for a token no production claims, under the cursor of `p`:
/// the backtick by the spelling that replaced it, another unlexable run by
/// its text, anything else as unexpected; over the token, or at the end.
pub open spec fn error_report_is(d: ParseDiagnostic, p: Parser) -> bool {
    let here = p.pos < p.tokens@.len();
    let span = Span {
        start: span_start(p),
        end: if here {
            p.tokens@[p.pos as int].range.end
        } else {
            span_start(p)
        },
    };
    if here && p.tokens@[p.pos as int].kind == SyntaxKind::ERROR {
        if p.tokens@[p.pos as int].text@ == "`"@ {
            d matches ParseDiagnostic::RetiredSpelling { message, span: s } && message@
                == crate::retired::BACKTICK@ && s == span
        } else if p.tokens@[p.pos as int].text@.len() > 0 {
            d matches ParseDiagnostic::UnlexableCharacter { text, span: s } && text@
                == p.tokens@[p.pos as int].text@ && s == span
        } else {
            d == ParseDiagnostic::UnexpectedToken { span }
        }
    } else {
        d == ParseDiagnostic::UnexpectedToken { span }
    }
}

/// How many tokens in `[a, b)` a retired run counts: all but white space
/// and comments.
pub open spec fn counted(toks: Seq<LexedToken>, a: int, b: int) -> nat
    decreases b - a,
{
    if b <= a {
        0
    } else {
        counted(toks, a, b - 1) + if toks[b - 1].kind == SyntaxKind::WHITESPACE || toks[b
            - 1].kind == SyntaxKind::COMMENT {
            0nat
        } else {
            1nat
        }
    }
}

proof fn lemma_counted_step(toks: Seq<LexedToken>, a: int, b: int)
    requires
        a <= b,
    ensures
        counted(toks, a, b + 1) == counted(toks, a, b) + if toks[b].kind == SyntaxKind::WHITESPACE
            || toks[b].kind == SyntaxKind::COMMENT {
            0nat
        } else {
            1nat
        },
{
}

/// Where the marked text of `[a, b)` ends: at the end of its last token that
/// is not white space, or at `none` when it has none.
pub open spec fn marked_end(toks: Seq<LexedToken>, a: int, b: int, none: usize) -> usize
    decreases b - a,
{
    if b <= a {
        none
    } else if toks[b - 1].kind == SyntaxKind::WHITESPACE {
        marked_end(toks, a, b - 1, none)
    } else {
        toks[b - 1].range.end
    }
}

/// How many counted tokens a retired run takes at most.
pub open spec fn run_limit(run: RetiredRun) -> nat {
    match run {
        RetiredRun::Count(n) => n as nat,
        RetiredRun::Line => usize::MAX as nat,
    }
}

/// A retired run over `[a, b)`: no line break inside it, at most `limit`
/// counted tokens, and it stops only at the end, at a line break, or where
/// the limit is reached.
pub open spec fn retired_run_is(toks: Seq<LexedToken>, a: int, b: int, limit: nat) -> bool {
    &&& a <= b <= toks.len()
    &&& forall|j: int| a <= j < b ==> #[trigger] toks[j].kind != SyntaxKind::NEWLINE
    &&& counted(toks, a, b) <= limit
    &&& (b == toks.len() || toks[b].kind == SyntaxKind::NEWLINE || counted(toks, a, b) == limit)
}

/// Where a real token is left, the cursor moved past it.
pub open spec fn progress(old: Parser, new: Parser) -> bool {
    next_real(old.tokens@, old.pos as int) < old.tokens@.len() ==> new.pos > old.pos
}

pub proof fn lemma_depth_nonneg(ev: Seq<Event>)
    requires
        nonneg(ev),
    ensures
        depth(ev) >= 0,
{
    assert(ev.take(ev.len() as int) =~= ev);
}

/// At a token that is not trivia, the next real token is that one.
pub proof fn lemma_next_real_here(toks: Seq<LexedToken>, i: int)
    requires
        0 <= i <= toks.len(),
    ensures
        next_real(toks, next_real(toks, i)) == next_real(toks, i),
        i < toks.len() && !is_trivia(toks[i].kind) ==> next_real(toks, i) == i,
{
    lemma_next_real(toks, i);
}

pub proof fn lemma_step_trans(a: Parser, b: Parser, c: Parser)
    requires
        step(a, b),
        step(b, c),
    ensures
        step(a, c),
{
    assert(c.events@.take(a.events@.len() as int) =~= c.events@.take(
        b.events@.len() as int,
    ).take(a.events@.len() as int));
    assert forall|i: int| a.events@.len() <= i <= c.events@.len() implies depth(
        #[trigger] c.events@.take(i),
    ) >= depth(a.events@) by {
        if i <= b.events@.len() {
            assert(c.events@.take(i) =~= b.events@.take(i));
        }
    }
}

pub proof fn lemma_step_same(a: Parser, b: Parser)
    requires
        inv(a),
        b.tokens@ == a.tokens@,
        b.pos == a.pos,
        b.events@ == a.events@,
        b.ternary_then_depth == a.ternary_then_depth,
        answered(b.events@, b.diagnostics@),
    ensures
        step(a, b),
{
    assert(a.events@.take(a.events@.len() as int) =~= a.events@);
}

pub proof fn lemma_step_refl(a: Parser)
    requires
        inv(a),
    ensures
        step(a, a),
{
    assert(a.events@.take(a.events@.len() as int) =~= a.events@);
}


/// A node opened at `cp` (the end of the events of `base`), filled by a
/// production, and closed: everything the production kept, `base` keeps.
pub proof fn lemma_wrap_at(base: Parser, a: Parser, b: Parser, c: Parser, d: Parser, k: SyntaxKind)
    requires
        step(base, a),
        b.events@ == a.events@.insert(base.events@.len() as int, Event::Start(k)),
        b.pos == a.pos,
        b.tokens@ == a.tokens@,
        b.ternary_then_depth == a.ternary_then_depth,
        inv(b),
        step(b, c),
        d.events@ == c.events@.push(Event::Finish),
        d.pos == c.pos,
        d.tokens@ == c.tokens@,
        d.ternary_then_depth == c.ternary_then_depth,
        inv(d),
    ensures
        step(base, d),
{
    let cp = base.events@.len() as int;
    let db = depth(base.events@);
    lemma_insert_start(a.events@, cp, k);
    assert(b.events@.take(cp) == a.events@.take(cp));
    assert(c.events@.take(b.events@.len() as int) == b.events@);
    assert(c.events@.take(cp) =~= c.events@.take(b.events@.len() as int).take(cp));
    lemma_push(c.events@, Event::Finish);
    assert(d.events@.take(cp) =~= c.events@.take(cp));
    assert(a.events@.take(cp) == base.events@);
    assert forall|i: int| cp <= i <= d.events@.len() implies depth(#[trigger] d.events@.take(i))
        >= db by {
        if i == d.events@.len() {
            assert(d.events@.take(i) =~= d.events@);
        } else {
            assert(d.events@.take(i) =~= c.events@.take(i));
            if i > b.events@.len() {
                assert(depth(c.events@.take(i)) >= depth(b.events@));
            } else if i == cp {
                assert(c.events@.take(i) =~= b.events@.take(i));
            } else {
                assert(c.events@.take(i) =~= b.events@.take(i));
                assert(b.events@.take(i) =~= a.events@.take(i - 1).insert(cp, Event::Start(k)));
                lemma_insert_counts(a.events@.take(i - 1), cp, k);
                assert(depth(a.events@.take(i - 1)) >= db);
            }
        }
    }
}

/// The events after `old` form one node of kind `k`: it opens first, closes
/// last, and stays open in between.
pub open spec fn wraps(old: Seq<Event>, new: Seq<Event>, k: SyntaxKind) -> bool {
    &&& new.len() >= old.len() + 2
    &&& new[old.len() as int] == Event::Start(k)
    &&& new.last() == Event::Finish
    &&& above(new.drop_last(), old.len() + 1 as int, depth(old) + 1)
}

/// The events after `old` form one node, of whatever kind: it opens first,
/// closes last, and stays open in between.
pub open spec fn node_after(old: Seq<Event>, new: Seq<Event>) -> bool {
    &&& new.len() >= old.len() + 2
    &&& new[old.len() as int] is Start
    &&& new.last() == Event::Finish
    &&& above(new.drop_last(), old.len() + 1 as int, depth(old) + 1)
}

/// A node opened at `cp` (the end of the events of `base`), filled by a
/// production, and closed is one node over everything after `base`.
pub proof fn lemma_wrap_at_node(
    base: Parser,
    a: Parser,
    b: Parser,
    c: Parser,
    d: Parser,
    k: SyntaxKind,
)
    requires
        step(base, a),
        b.events@ == a.events@.insert(base.events@.len() as int, Event::Start(k)),
        step(b, c),
        d.events@ == c.events@.push(Event::Finish),
    ensures
        wraps(base.events@, d.events@, k),
        node_after(base.events@, d.events@),
{
    let cp = base.events@.len() as int;
    let db = depth(base.events@);
    lemma_insert_start(a.events@, cp, k);
    assert(d.events@.drop_last() =~= c.events@);
    assert(c.events@.take(b.events@.len() as int) == b.events@);
    assert(c.events@[cp] == b.events@[cp]);
    assert forall|i: int| cp + 1 <= i <= c.events@.len() implies depth(
        #[trigger] c.events@.take(i),
    ) >= db + 1 by {
        if i >= b.events@.len() {
            assert(depth(c.events@.take(i)) >= depth(b.events@));
        } else {
            assert(c.events@.take(i) =~= b.events@.take(i));
            assert(b.events@.take(i) =~= a.events@.take(i - 1).insert(cp, Event::Start(k)));
            lemma_insert_counts(a.events@.take(i - 1), cp, k);
            assert(depth(a.events@.take(i - 1)) >= db);
        }
    }
}

/// Every node that opens at depth `d` from event `from` on is of a kind `ok`
/// allows.
pub open spec fn nodes_at(ev: Seq<Event>, from: int, d: int, ok: spec_fn(SyntaxKind) -> bool) -> bool {
    forall|j: int|
        from <= j < ev.len() && depth(ev.take(j)) == d ==> (#[trigger] ev[j] matches Event::Start(
            k,
        ) ==> ok(k))
}

/// Events appended after `a` that open no node keep `nodes_at`.
pub proof fn lemma_nodes_no_start(a: Seq<Event>, n: Seq<Event>, from: int, d: int, ok: spec_fn(SyntaxKind) -> bool)
    requires
        0 <= from,
        nodes_at(a, from, d, ok),
        a.len() <= n.len(),
        n.take(a.len() as int) == a,
        forall|j: int| a.len() <= j < n.len() ==> !(#[trigger] n[j] is Start),
    ensures
        nodes_at(n, from, d, ok),
{
    assert forall|j: int| from <= j < n.len() && depth(n.take(j)) == d implies (
    #[trigger] n[j] matches Event::Start(k) ==> ok(k)) by {
        if j < a.len() {
            assert(n[j] == n.take(a.len() as int)[j]);
            assert(n.take(j) =~= a.take(j));
        }
    }
}

/// One node of a kind `ok` allows, appended after `a` at depth `d`, keeps
/// `nodes_at`.
pub proof fn lemma_nodes_node(
    a: Seq<Event>,
    n: Seq<Event>,
    from: int,
    d: int,
    k: SyntaxKind,
    ok: spec_fn(SyntaxKind) -> bool,
)
    requires
        0 <= from,
        nodes_at(a, from, d, ok),
        depth(a) == d,
        n.take(a.len() as int) == a,
        wraps(a, n, k),
        ok(k),
    ensures
        nodes_at(n, from, d, ok),
{
    assert forall|j: int| from <= j < n.len() && depth(n.take(j)) == d implies (
    #[trigger] n[j] matches Event::Start(k2) ==> ok(k2)) by {
        if j < a.len() {
            assert(n[j] == n.take(a.len() as int)[j]);
            assert(n.take(j) =~= a.take(j));
        } else if j > a.len() && j < n.len() - 1 {
            assert(n.drop_last().take(j) =~= n.take(j));
            assert(depth(n.drop_last().take(j)) >= d + 1);
        }
    }
}

/// An `ERROR` node appended after `a`, with no node inside it, keeps
/// `nodes_at`.
pub proof fn lemma_nodes_error(a: Seq<Event>, n: Seq<Event>, from: int, d: int, ok: spec_fn(SyntaxKind) -> bool)
    requires
        0 <= from,
        nodes_at(a, from, d, ok),
        n.len() >= a.len() + 2,
        n.take(a.len() as int) == a,
        n[a.len() as int] == Event::Start(SyntaxKind::ERROR),
        ok(SyntaxKind::ERROR),
        forall|j: int| a.len() < j < n.len() ==> !(#[trigger] n[j] is Start),
    ensures
        nodes_at(n, from, d, ok),
{
    assert forall|j: int| from <= j < n.len() && depth(n.take(j)) == d implies (
    #[trigger] n[j] matches Event::Start(k) ==> ok(k)) by {
        if j < a.len() {
            assert(n[j] == n.take(a.len() as int)[j]);
            assert(n.take(j) =~= a.take(j));
        }
    }
}

/// Token events leave the depth as it was.
pub proof fn lemma_depth_tokens(a: Seq<Event>, t: Seq<Event>)
    requires
        forall|i: int| 0 <= i < t.len() ==> #[trigger] t[i] is Token,
    ensures
        depth(a + t) == depth(a),
    decreases t.len(),
{
    if t.len() > 0 {
        let u = t.drop_last();
        lemma_depth_tokens(a, u);
        assert(a + t =~= (a + u).push(t.last()));
        assert(t[t.len() - 1] is Token);
        lemma_push(a + u, t.last());
    } else {
        assert(a + t =~= a);
    }
}

/// A node of a kind `ok` allows, opened after the trivia under the cursor
/// of `a`, keeps `nodes_at`.
pub proof fn lemma_nodes_after_skip(
    a: Parser,
    n: Seq<Event>,
    from: int,
    d: int,
    k: SyntaxKind,
    ok: spec_fn(SyntaxKind) -> bool,
)
    requires
        0 <= from,
        inv(a),
        nodes_at(a.events@, from, d, ok),
        depth(a.events@) == d,
        skipped(a).len() <= n.len(),
        n.take(skipped(a).len() as int) == skipped(a),
        wraps(skipped(a), n, k),
        ok(k),
    ensures
        nodes_at(n, from, d, ok),
{
    let t = tokens_from(a.pos as int, next_real(a.tokens@, a.pos as int));
    lemma_depth_tokens(a.events@, t);
    assert(skipped(a).take(a.events@.len() as int) =~= a.events@);
    lemma_nodes_no_start(a.events@, skipped(a), from, d, ok);
    lemma_nodes_node(skipped(a), n, from, d, k, ok);
}

/// Depth adds up over concatenation.
pub proof fn lemma_depth_concat(a: Seq<Event>, b: Seq<Event>)
    ensures
        depth(a + b) == depth(a) + depth(b),
    decreases b.len(),
{
    if b.len() == 0 {
        assert(a + b =~= a);
    } else {
        lemma_depth_concat(a, b.drop_last());
        assert((a + b).drop_last() =~= a + b.drop_last());
        assert((a + b).last() == b.last());
    }
}

/// One node after `o`, read on its own, is one node.
pub proof fn lemma_node_alone(o: Seq<Event>, n: Seq<Event>)
    requires
        node_after(o, n),
        o.len() <= n.len(),
        n.take(o.len() as int) == o,
    ensures
        node_after(Seq::<Event>::empty(), n.subrange(o.len() as int, n.len() as int)),
{
    let e = n.subrange(o.len() as int, n.len() as int);
    assert(depth(Seq::<Event>::empty()) == 0) by {
        assert(Seq::<Event>::empty().len() == 0);
    }
    assert forall|i: int| 1 <= i <= e.drop_last().len() implies depth(
        #[trigger] e.drop_last().take(i),
    ) >= 1 by {
        let j = o.len() + i;
        assert(n.drop_last().take(j) =~= o + e.drop_last().take(i));
        lemma_depth_concat(o, e.drop_last().take(i));
        assert(depth(n.drop_last().take(j)) >= depth(o) + 1);
    }
    assert(e[0] == n[o.len() as int]);
    assert(e.last() == n.last());
}

/// The node the events close ends with a child node of kind `k`, one that
/// opens after event `from` and closes just before the last event.
pub open spec fn ends_with(ev: Seq<Event>, from: int, k: SyntaxKind) -> bool {
    exists|i: int| from < i && #[trigger] wraps(ev.take(i), ev.drop_last(), k)
}

/// A node of kind `k` built after `x`, then the enclosing node closed.
pub proof fn lemma_ends_with(x: Seq<Event>, c: Seq<Event>, d: Seq<Event>, from: int, k: SyntaxKind)
    requires
        from < x.len(),
        wraps(x, c, k),
        x.len() <= c.len(),
        c.take(x.len() as int) == x,
        d == c.push(Event::Finish),
    ensures
        ends_with(d, from, k),
{
    assert(d.take(x.len() as int) =~= x);
    assert(d.drop_last() =~= c);
    assert(wraps(d.take(x.len() as int), d.drop_last(), k));
}

/// A node opened at the end of the events of `a`, filled, and closed, is
/// one node over everything emitted after `a`.
pub proof fn lemma_wrap_node(a: Parser, b: Parser, c: Parser, d: Parser, k: SyntaxKind)
    requires
        inv(a),
        b.events@ == a.events@.push(Event::Start(k)),
        step(b, c),
        d.events@ == c.events@.push(Event::Finish),
    ensures
        wraps(a.events@, d.events@, k),
{
    assert(d.events@.drop_last() =~= c.events@);
    assert(c.events@.take(b.events@.len() as int) == b.events@);
    assert(c.events@[a.events@.len() as int] == b.events@[a.events@.len() as int]);
    lemma_push(a.events@, Event::Start(k));
}

/// A node opened at the end of the events of `a`, filled, and closed.
pub proof fn lemma_wrap(a: Parser, b: Parser, c: Parser, d: Parser, k: SyntaxKind)
    requires
        inv(a),
        b.events@ == a.events@.push(Event::Start(k)),
        b.pos == a.pos,
        b.tokens@ == a.tokens@,
        b.ternary_then_depth == a.ternary_then_depth,
        inv(b),
        step(b, c),
        d.events@ == c.events@.push(Event::Finish),
        d.pos == c.pos,
        d.tokens@ == c.tokens@,
        d.ternary_then_depth == c.ternary_then_depth,
        inv(d),
    ensures
        step(a, d),
{
    lemma_step_refl(a);
    assert(a.events@.insert(a.events@.len() as int, Event::Start(k)) =~= a.events@.push(
        Event::Start(k),
    ));
    lemma_wrap_at(a, a, b, c, d, k);
}

impl Parser {
    /// A parser at the start of `tokens`.
    pub fn new(tokens: Vec<LexedToken>) -> (p: Self)
        ensures
            inv(p),
            p.tokens@ == tokens@,
            p.pos == 0,
            p.events@.len() == 0,
            p.diagnostics@.len() == 0,
            p.ternary_then_depth == 0,
    {
        let p = Parser {
            tokens,
            pos: 0,
            events: Vec::new(),
            diagnostics: Vec::new(),
            ternary_then_depth: 0,
        };
        assert(p.events@.take(0) =~= Seq::<Event>::empty());
        assert(answered(p.events@, p.diagnostics@)) by {
            reveal(answered);
        }
        p
    }

    /// The kind of the token under the cursor, or `None` at the end.
    pub fn current(&self) -> (k: Option<SyntaxKind>)
        ensures
            k == cur(*self),
    {
        if self.pos < self.tokens.len() {
            Some(self.tokens[self.pos].kind)
        } else {
            None
        }
    }

    /// Emit the token under the cursor and advance; nothing at the end.
    pub fn bump(&mut self)
        requires
            inv(*old(self)),
        ensures
            adds_no_malformed(old(self).diagnostics@, final(self).diagnostics@),
            step(*old(self), *final(self)),
            old(self).pos < old(self).tokens@.len() ==> final(self).pos == old(self).pos + 1
                && final(self).events@ == old(self).events@.push(Event::Token(old(self).pos)),
            old(self).pos >= old(self).tokens@.len() ==> final(self).pos == old(self).pos
                && final(self).events@ == old(self).events@,
            final(self).diagnostics@ == old(self).diagnostics@,
    {
        if self.pos < self.tokens.len() {
            proof {
                lemma_push(self.events@, Event::Token(self.pos));
                let s = token_ids(self.events@).push(self.pos);
                assert forall|i: int| 0 <= i < self.pos + 1 implies #[trigger] s[i] == i by {
                    if i < self.pos {
                        assert(s[i] == token_ids(self.events@)[i]);
                    }
                }
            }
            proof {
                lemma_answered_grow(self.events@, self.events@.push(Event::Token(self.pos)), self.diagnostics@);
            }
            self.events.push(Event::Token(self.pos));
            self.pos = self.pos + 1;
        } else {
            proof {
                lemma_step_refl(*self);
            }
        }
    }

    /// Open a node.
    pub fn start(&mut self, kind: SyntaxKind)
        requires
            inv(*old(self)),
        ensures
            adds_no_malformed(old(self).diagnostics@, final(self).diagnostics@),
            inv(*final(self)),
            final(self).tokens@ == old(self).tokens@,
            final(self).pos == old(self).pos,
            final(self).events@ == old(self).events@.push(Event::Start(kind)),
            depth(final(self).events@) == depth(old(self).events@) + 1,
            final(self).diagnostics@ == old(self).diagnostics@,
            final(self).ternary_then_depth == old(self).ternary_then_depth,
    {
        proof {
            lemma_push(self.events@, Event::Start(kind));
            lemma_answered_grow(self.events@, self.events@.push(Event::Start(kind)), self.diagnostics@);
        }
        self.events.push(Event::Start(kind));
    }

    /// Close the innermost open node.
    pub fn finish(&mut self)
        requires
            inv(*old(self)),
            depth(old(self).events@) >= 1,
        ensures
            adds_no_malformed(old(self).diagnostics@, final(self).diagnostics@),
            inv(*final(self)),
            final(self).tokens@ == old(self).tokens@,
            final(self).pos == old(self).pos,
            final(self).events@ == old(self).events@.push(Event::Finish),
            depth(final(self).events@) == depth(old(self).events@) - 1,
            final(self).diagnostics@ == old(self).diagnostics@,
            final(self).ternary_then_depth == old(self).ternary_then_depth,
    {
        proof {
            lemma_push(self.events@, Event::Finish);
            lemma_answered_grow(self.events@, self.events@.push(Event::Finish), self.diagnostics@);
        }
        self.events.push(Event::Finish);
    }

    /// A point a node can later be opened at, wrapping everything after it.
    pub fn checkpoint(&self) -> (cp: usize)
        ensures
            cp == self.events@.len(),
    {
        self.events.len()
    }

    /// Open a node at `cp`, wrapping every event emitted since. The events
    /// before `cp` must be at the current level, as the tree builder asks.
    pub fn start_at(&mut self, cp: usize, kind: SyntaxKind)
        requires
            inv(*old(self)),
            cp <= old(self).events@.len(),
            depth(old(self).events@.take(cp as int)) == depth(old(self).events@),
        ensures
            adds_no_malformed(old(self).diagnostics@, final(self).diagnostics@),
            inv(*final(self)),
            final(self).tokens@ == old(self).tokens@,
            final(self).pos == old(self).pos,
            final(self).events@ == old(self).events@.insert(cp as int, Event::Start(kind)),
            final(self).events@.take(cp as int) == old(self).events@.take(cp as int),
            depth(final(self).events@) == depth(old(self).events@) + 1,
            final(self).diagnostics@ == old(self).diagnostics@,
            final(self).ternary_then_depth == old(self).ternary_then_depth,
    {
        proof {
            lemma_insert_start(self.events@, cp as int, kind);
            reveal(answered);
            lemma_error_nodes_insert(self.events@, cp as int, Event::Start(kind));
        }
        self.events.insert(cp, Event::Start(kind));
    }

    /// Emit the trivia under the cursor.
    pub fn skip_trivia(&mut self)
        requires
            inv(*old(self)),
        ensures
            adds_no_malformed(old(self).diagnostics@, final(self).diagnostics@),
            step(*old(self), *final(self)),
            final(self).pos == next_real(old(self).tokens@, old(self).pos as int),
            final(self).events@ == old(self).events@ + tokens_from(
                old(self).pos as int,
                final(self).pos as int,
            ),
            final(self).diagnostics@ == old(self).diagnostics@,
            span_start(*final(self)) == span_start(*old(self)),
            cur(*final(self)) matches Some(k) ==> !is_trivia(k),
    {
        let ghost start = *self;
        proof {
            lemma_step_refl(*self);
            lemma_tokens_from_push(start.pos as int, start.pos as int);
            assert(start.events@ + tokens_from(start.pos as int, start.pos as int)
                =~= start.events@);
        }
        while self.pos < self.tokens.len() && (self.tokens[self.pos].kind == SyntaxKind::WHITESPACE
            || self.tokens[self.pos].kind == SyntaxKind::NEWLINE || self.tokens[self.pos].kind
            == SyntaxKind::COMMENT)
            invariant
                step(start, *self),
                self.diagnostics@ == start.diagnostics@,
                next_real(self.tokens@, self.pos as int) == next_real(
                    start.tokens@,
                    start.pos as int,
                ),
                self.events@ == start.events@ + tokens_from(start.pos as int, self.pos as int),
            decreases self.tokens@.len() - self.pos,
        {
            let ghost before = *self;
            self.bump();
            proof {
                lemma_step_trans(start, before, *self);
                lemma_tokens_from_push(start.pos as int, before.pos as int);
                assert(self.events@ =~= start.events@ + tokens_from(
                    start.pos as int,
                    self.pos as int,
                ));
            }
        }
        proof {
            lemma_next_real_here(start.tokens@, start.pos as int);
            lemma_nth_zero(start.tokens@, start.pos as int);
            lemma_nth_zero(self.tokens@, self.pos as int);
        }
    }

    /// The index of the `offset`-th non-trivia token at or after the cursor.
    pub fn peek_index(&self, offset: usize) -> (r: Option<usize>)
        requires
            inv(*self),
        ensures
            match r {
                Some(i) => i == nth_real(self.tokens@, self.pos as int, offset as nat) && i
                    < self.tokens@.len(),
                None => nth_real(self.tokens@, self.pos as int, offset as nat)
                    >= self.tokens@.len(),
            },
    {
        let mut depth: usize = 0;
        let mut i = self.pos;
        while i < self.tokens.len()
            invariant
                inv(*self),
                self.pos <= i <= self.tokens@.len(),
                depth <= offset,
                nth_real(self.tokens@, self.pos as int, offset as nat) == nth_real(
                    self.tokens@,
                    i as int,
                    (offset - depth) as nat,
                ),
            decreases self.tokens@.len() - i,
        {
            let k = self.tokens[i].kind;
            proof {
                lemma_nth_real_step(self.tokens@, i as int, (offset - depth) as nat);
            }
            if !(k == SyntaxKind::WHITESPACE || k == SyntaxKind::NEWLINE || k
                == SyntaxKind::COMMENT) {
                if depth == offset {
                    return Some(i);
                }
                depth = depth + 1;
            }
            i = i + 1;
        }
        proof {
            lemma_nth_real_step(self.tokens@, i as int, (offset - depth) as nat);
        }
        None
    }

    /// The kind of the `offset`-th non-trivia token at or after the cursor.
    pub fn peek_kind(&self, offset: usize) -> (k: Option<SyntaxKind>)
        requires
            inv(*self),
        ensures
            k == if nth_real(self.tokens@, self.pos as int, offset as nat) < self.tokens@.len() {
                Some(self.tokens@[nth_real(self.tokens@, self.pos as int, offset as nat)].kind)
            } else {
                None
            },
    {
        match self.peek_index(offset) {
            Some(i) => Some(self.tokens[i].kind),
            None => None,
        }
    }

    /// Whether the `offset`-th non-trivia token's text is `text`.
    pub fn peek_text_is(&self, offset: usize, text: &str) -> (b: bool)
        requires
            inv(*self),
        ensures
            b == (nth_real(self.tokens@, self.pos as int, offset as nat) < self.tokens@.len()
                && self.tokens@[nth_real(self.tokens@, self.pos as int, offset as nat)].text@
                == text@),
    {
        match self.peek_index(offset) {
            Some(i) => str_eq(self.tokens[i].text.as_str(), text),
            None => false,
        }
    }

    /// The text of the `offset`-th non-trivia token at or after the cursor.
    pub fn peek_text(&self, offset: usize) -> (t: Option<&str>)
        requires
            inv(*self),
        ensures
            match t {
                Some(s) => nth_real(self.tokens@, self.pos as int, offset as nat)
                    < self.tokens@.len() && s@ == self.tokens@[nth_real(
                    self.tokens@,
                    self.pos as int,
                    offset as nat,
                )].text@,
                None => nth_real(self.tokens@, self.pos as int, offset as nat)
                    >= self.tokens@.len(),
            },
    {
        match self.peek_index(offset) {
            Some(i) => Some(self.tokens[i].text.as_str()),
            None => None,
        }
    }

    /// Whether the current non-trivia token's text is `text`.
    pub fn current_text_is(&self, text: &str) -> (b: bool)
        requires
            inv(*self),
        ensures
            b == (nth_real(self.tokens@, self.pos as int, 0) < self.tokens@.len()
                && self.tokens@[nth_real(self.tokens@, self.pos as int, 0)].text@ == text@),
    {
        self.peek_text_is(0, text)
    }

    /// The byte offset of the current non-trivia token; the end of the input
    /// where there is none.
    pub fn current_token_span_start(&self) -> (s: usize)
        requires
            inv(*self),
        ensures
            s == span_start(*self),
    {
        match self.peek_index(0) {
            Some(i) => self.tokens[i].range.start,
            None => if self.tokens.len() > 0 {
                self.tokens[self.tokens.len() - 1].range.end
            } else {
                0
            },
        }
    }

    pub fn push_diagnostic(&mut self, d: ParseDiagnostic)
        ensures
            final(self).tokens@ == old(self).tokens@,
            final(self).pos == old(self).pos,
            final(self).events@ == old(self).events@,
            final(self).ternary_then_depth == old(self).ternary_then_depth,
            final(self).diagnostics@ == old(self).diagnostics@.push(d),
    {
        self.diagnostics.push(d);
    }

    /// Whether a `:` under the cursor belongs to a ternary.
    pub fn in_ternary_then(&self) -> (b: bool)
        ensures
            b == (self.ternary_then_depth > 0),
    {
        self.ternary_then_depth > 0
    }

    /// Eat the token if it is `kind`; otherwise report it and wrap it (if any)
    /// in an `ERROR` node.
    pub fn expect(&mut self, kind: SyntaxKind)
        requires
            inv(*old(self)),
        ensures
            adds_no_malformed(old(self).diagnostics@, final(self).diagnostics@),
            step(*old(self), *final(self)),
            next_real(old(self).tokens@, old(self).pos as int) < old(self).tokens@.len()
                ==> final(self).pos > old(self).pos,
            real_kind(*old(self)) == Some(kind) ==> final(self).diagnostics@ == old(self).diagnostics@ && final(self).events@ == skipped(*old(self)).push(
                Event::Token(next_real(old(self).tokens@, old(self).pos as int) as usize),
            ),
            real_kind(*old(self)) != Some(kind) ==> final(self).diagnostics@ == old(self).diagnostics@.push(
                ParseDiagnostic::ExpectedToken {
                    want: kind,
                    got: kind_or_eof(real_kind(*old(self))),
                    span: Span { start: span_start(*old(self)), end: span_start(*old(self)) },
                },
            ) && final(self).events@ == skipped(*old(self)) + if real_kind(*old(self)) is Some {
                seq![
                    Event::Start(SyntaxKind::ERROR),
                    Event::Token(next_real(old(self).tokens@, old(self).pos as int) as usize),
                    Event::Finish,
                ]
            } else {
                seq![Event::Start(SyntaxKind::ERROR), Event::Finish]
            },
    {
        let ghost start = *self;
        self.skip_trivia();
        let ghost mid = *self;
        match self.current() {
            Some(k) => {
                if k == kind {
                    self.bump();
                    proof {
                        lemma_step_trans(start, mid, *self);
                    }
                    return;
                }
            },
            None => {},
        }
        let got = match self.current() {
            Some(k) => k,
            None => SyntaxKind::EOF,
        };
        let at = self.current_token_span_start();
        let ghost mid2 = *self;
        self.start(SyntaxKind::ERROR);
        let ghost opened = *self;
        self.bump();
        let ghost filled = *self;
        self.finish();
        let ghost closed = *self;
        let d = ParseDiagnostic::ExpectedToken { want: kind, got, span: Span::new(at, at) };
        proof {
            lemma_wrap(mid2, opened, filled, closed, SyntaxKind::ERROR);
            lemma_step_trans(start, mid2, closed);
            assert(closed.events@[mid2.events@.len() as int] == Event::Start(SyntaxKind::ERROR)) by {
                assert(filled.events@.take(opened.events@.len() as int) == opened.events@);
                assert(closed.events@[mid2.events@.len() as int] == filled.events@[mid2.events@.len() as int]);
                assert(filled.events@[mid2.events@.len() as int] == filled.events@.take(opened.events@.len() as int)[mid2.events@.len() as int]);
            }
            lemma_answered_node(mid2.events@, closed.events@, closed.diagnostics@, d);
        }
        self.push_diagnostic(d);
        proof {
            lemma_step_same(closed, *self);
            lemma_step_trans(start, closed, *self);
            if mid.pos < mid.tokens@.len() {
                assert(self.events@ =~= skipped(start) + seq![
                    Event::Start(SyntaxKind::ERROR),
                    Event::Token(mid.pos),
                    Event::Finish,
                ]);
            } else {
                assert(self.events@ =~= skipped(start) + seq![
                    Event::Start(SyntaxKind::ERROR),
                    Event::Finish,
                ]);
            }
        }
    }

    /// Consume the token under the cursor (if any) into an `ERROR` node and
    /// report it: a backtick as the retired template, another unlexable run
    /// by its text, anything else as unexpected.
    pub fn bump_as_error(&mut self)
        requires
            inv(*old(self)),
        ensures
            adds_no_malformed(old(self).diagnostics@, final(self).diagnostics@),
            step(*old(self), *final(self)),
            old(self).pos < old(self).tokens@.len() ==> final(self).pos == old(self).pos + 1
                && final(self).events@ == old(self).events@ + seq![
                Event::Start(SyntaxKind::ERROR),
                Event::Token(old(self).pos),
                Event::Finish,
            ],
            old(self).pos >= old(self).tokens@.len() ==> final(self).events@ == old(self).events@ + seq![Event::Start(SyntaxKind::ERROR), Event::Finish],
            final(self).diagnostics@.len() == old(self).diagnostics@.len() + 1,
            final(self).diagnostics@.drop_last() == old(self).diagnostics@,
            error_report_is(final(self).diagnostics@.last(), *old(self)),
    {
        let ghost start = *self;
        let span_start = self.current_token_span_start();
        let span_end = if self.pos < self.tokens.len() {
            self.tokens[self.pos].range.end
        } else {
            span_start
        };
        let span = Span::new(span_start, span_end);
        let d = if self.pos < self.tokens.len() && self.tokens[self.pos].kind == SyntaxKind::ERROR {
            if str_eq(self.tokens[self.pos].text.as_str(), "`") {
                ParseDiagnostic::RetiredSpelling {
                    message: String::from_str(crate::retired::BACKTICK),
                    span,
                }
            } else if self.tokens[self.pos].text.as_str().unicode_len() > 0 {
                ParseDiagnostic::UnlexableCharacter { text: self.tokens[self.pos].text.clone(), span }
            } else {
                ParseDiagnostic::UnexpectedToken { span }
            }
        } else {
            ParseDiagnostic::UnexpectedToken { span }
        };
        let ghost mid = *self;
        self.start(SyntaxKind::ERROR);
        let ghost opened = *self;
        self.bump();
        let ghost filled = *self;
        self.finish();
        let ghost closed = *self;
        proof {
            lemma_step_refl(start);
            lemma_wrap(mid, opened, filled, closed, SyntaxKind::ERROR);
            assert(closed.events@[mid.events@.len() as int] == Event::Start(SyntaxKind::ERROR)) by {
                assert(filled.events@.take(opened.events@.len() as int) == opened.events@);
                assert(closed.events@[mid.events@.len() as int] == filled.events@[mid.events@.len() as int]);
                assert(filled.events@[mid.events@.len() as int] == filled.events@.take(opened.events@.len() as int)[mid.events@.len() as int]);
            }
            lemma_answered_node(mid.events@, closed.events@, closed.diagnostics@, d);
        }
        self.push_diagnostic(d);
        proof {
            lemma_step_same(closed, *self);
            lemma_step_trans(start, closed, *self);
            assert(self.diagnostics@.drop_last() =~= start.diagnostics@);
            if start.pos < start.tokens@.len() {
                assert(self.events@ =~= start.events@ + seq![
                    Event::Start(SyntaxKind::ERROR),
                    Event::Token(start.pos),
                    Event::Finish,
                ]);
            } else {
                assert(self.events@ =~= start.events@ + seq![
                    Event::Start(SyntaxKind::ERROR),
                    Event::Finish,
                ]);
            }
        }
    }

    /// Consume a retired spelling under one `ERROR` node and report it, with
    /// a span over the whole form: `Count(n)` takes `n` non-trivia tokens,
    /// `Line` the rest of the line; a line break ends either, and a comment
    /// is part of the form.
    #[verifier::rlimit(40)]
    pub fn retire(&mut self, message: &str, run: RetiredRun)
        requires
            inv(*old(self)),
        ensures
            adds_no_malformed(old(self).diagnostics@, final(self).diagnostics@),
            step(*old(self), *final(self)),
            next_real(old(self).tokens@, old(self).pos as int) < old(self).tokens@.len() && (
            run matches RetiredRun::Count(n) ==> n > 0) && old(self).tokens@[next_real(
                old(self).tokens@,
                old(self).pos as int,
            )].kind != SyntaxKind::NEWLINE ==> final(self).pos > old(self).pos,
            final(self).events@ == skipped(*old(self)) + seq![Event::Start(SyntaxKind::ERROR)]
                + tokens_from(
                next_real(old(self).tokens@, old(self).pos as int),
                final(self).pos as int,
            ) + seq![Event::Finish],
            final(self).diagnostics@.len() == old(self).diagnostics@.len() + 1,
            final(self).diagnostics@.drop_last() == old(self).diagnostics@,
            final(self).diagnostics@.last() matches ParseDiagnostic::RetiredSpelling {
                message: m,
                span,
            } && m@ == message@ && span.start == span_start(*old(self)) && span.end == marked_end(
                old(self).tokens@,
                next_real(old(self).tokens@, old(self).pos as int),
                final(self).pos as int,
                span_start(*old(self)),
            ),
            retired_run_is(
                old(self).tokens@,
                next_real(old(self).tokens@, old(self).pos as int),
                final(self).pos as int,
                run_limit(run),
            ),
    {
        let ghost start = *self;
        self.skip_trivia();
        let ghost mid = *self;
        let begin = self.current_token_span_start();
        let mut end = begin;
        let mut left: usize = match run {
            RetiredRun::Count(n) => n,
            RetiredRun::Line => usize::MAX,
        };
        let init_left = left;
        self.start(SyntaxKind::ERROR);
        let ghost opened = *self;
        proof {
            lemma_step_refl(opened);
        }
        while left > 0 && self.pos < self.tokens.len()
            && self.tokens[self.pos].kind != SyntaxKind::NEWLINE
            invariant
                step(opened, *self),
                self.diagnostics@ == opened.diagnostics@,
                self.pos == opened.pos ==> left == init_left,
                self.events@ == opened.events@ + tokens_from(opened.pos as int, self.pos as int),
                init_left == run_limit(run),
                left + counted(self.tokens@, opened.pos as int, self.pos as int) == init_left,
                end == marked_end(self.tokens@, opened.pos as int, self.pos as int, begin),
                forall|j: int|
                    opened.pos <= j < self.pos ==> #[trigger] self.tokens@[j].kind
                        != SyntaxKind::NEWLINE,
            decreases self.tokens@.len() - self.pos,
        {
            proof {
                lemma_counted_step(self.tokens@, opened.pos as int, self.pos as int);
            }
            let k = self.tokens[self.pos].kind;
            if k == SyntaxKind::WHITESPACE {
            } else if k == SyntaxKind::COMMENT {
                end = self.tokens[self.pos].range.end;
            } else {
                left = left - 1;
                end = self.tokens[self.pos].range.end;
            }
            let ghost before = *self;
            self.bump();
            proof {
                lemma_step_trans(opened, before, *self);
                lemma_tokens_from_push(opened.pos as int, before.pos as int);
                assert(self.events@ =~= opened.events@ + tokens_from(
                    opened.pos as int,
                    self.pos as int,
                ));
            }
        }
        let ghost looped = *self;
        self.finish();
        let ghost closed = *self;
        proof {
            lemma_wrap(mid, opened, looped, closed, SyntaxKind::ERROR);
            lemma_step_trans(start, mid, closed);
            assert(closed.events@ =~= skipped(start) + seq![Event::Start(SyntaxKind::ERROR)]
                + tokens_from(mid.pos as int, closed.pos as int) + seq![Event::Finish]);
        }
        let d = ParseDiagnostic::RetiredSpelling {
            message: String::from_str(message),
            span: Span::new(begin, end),
        };
        proof {
            assert(closed.events@[mid.events@.len() as int] == Event::Start(SyntaxKind::ERROR)) by {
                assert(looped.events@.take(opened.events@.len() as int) == opened.events@);
                assert(closed.events@[mid.events@.len() as int] == looped.events@[mid.events@.len() as int]);
                assert(looped.events@[mid.events@.len() as int] == looped.events@.take(opened.events@.len() as int)[mid.events@.len() as int]);
            }
            lemma_answered_node(mid.events@, closed.events@, closed.diagnostics@, d);
        }
        self.push_diagnostic(d);
        proof {
            lemma_step_same(closed, *self);
            lemma_step_trans(start, closed, *self);
            assert(self.diagnostics@.drop_last() =~= start.diagnostics@);
        }
    }
}

// ───────────────────────────── recovery ─────────────────────────────

/// Where a top-level recovery stops: an identifier starts the next item.
pub fn top_level_anchors() -> (a: Vec<SyntaxKind>)
    ensures
        a@ == seq![SyntaxKind::IDENT],
{
    let mut a = Vec::new();
    a.push(SyntaxKind::IDENT);
    assert(a@ =~= seq![SyntaxKind::IDENT]);
    a
}

/// Where a recovery in a mapping body stops: its end, or the next property.
pub fn mapping_body_anchors() -> (a: Vec<SyntaxKind>)
    ensures
        a@ == seq![SyntaxKind::DEDENT, SyntaxKind::IDENT],
{
    let mut a = Vec::new();
    a.push(SyntaxKind::DEDENT);
    a.push(SyntaxKind::IDENT);
    assert(a@ =~= seq![SyntaxKind::DEDENT, SyntaxKind::IDENT]);
    a
}

/// The cursor is at the end or at one of `anchors`.
pub open spec fn at_anchor_of(p: Parser, anchors: Seq<SyntaxKind>) -> bool {
    match cur(p) {
        None => true,
        Some(k) => anchors.contains(k),
    }
}

pub fn at_anchor(p: &Parser, anchors: &[SyntaxKind]) -> (b: bool)
    ensures
        b == at_anchor_of(*p, anchors@),
{
    match p.current() {
        None => true,
        Some(k) => {
            let mut i: usize = 0;
            while i < anchors.len()
                invariant
                    Some(k) == cur(*p),
                    i <= anchors@.len(),
                    forall|j: int| 0 <= j < i ==> anchors@[j] != k,
                decreases anchors@.len() - i,
            {
                if anchors[i] == k {
                    assert(anchors@[i as int] == k);
                    return true;
                }
                i = i + 1;
            }
            false
        },
    }
}

/// Skip to the next anchor, wrapping what was skipped in an `ERROR` node and
/// reporting it; nothing when already at one.
pub fn recover_to(p: &mut Parser, anchors: &[SyntaxKind])
    requires
        inv(*old(p)),
    ensures
        adds_no_malformed(old(p).diagnostics@, final(p).diagnostics@),
        step(*old(p), *final(p)),
        at_anchor_of(*final(p), anchors@),
        next_real(old(p).tokens@, old(p).pos as int) < old(p).tokens@.len() && !anchors@.contains(
            old(p).tokens@[next_real(old(p).tokens@, old(p).pos as int)].kind,
        ) ==> final(p).pos > old(p).pos,
        at_anchor_kind(real_kind(*old(p)), anchors@) ==> final(p).events@ == skipped(*old(p))
            && final(p).diagnostics@ == old(p).diagnostics@,
        !at_anchor_kind(real_kind(*old(p)), anchors@) ==> final(p).events@ == skipped(*old(p))
            + seq![Event::Start(SyntaxKind::ERROR)] + tokens_from(
            next_real(old(p).tokens@, old(p).pos as int),
            final(p).pos as int,
        ) + seq![Event::Finish] && final(p).diagnostics@ == old(p).diagnostics@.push(
            ParseDiagnostic::UnexpectedToken {
                span: Span { start: span_start(*old(p)), end: span_start(*final(p)) },
            },
        ),
{
    let ghost start = *p;
    p.skip_trivia();
    let ghost mid = *p;
    proof {
        lemma_next_real_here(start.tokens@, start.pos as int);
    }
    if at_anchor(p, anchors) {
        return;
    }
    let span_start = p.current_token_span_start();
    p.start(SyntaxKind::ERROR);
    let ghost opened = *p;
    proof {
        lemma_step_refl(opened);
        lemma_tokens_from_push(opened.pos as int, opened.pos as int);
        assert(opened.events@ + tokens_from(opened.pos as int, opened.pos as int)
            =~= opened.events@);
    }
    while !at_anchor(p, anchors)
        invariant
            step(opened, *p),
            p.pos > opened.pos || !at_anchor_of(*p, anchors@),
            p.events@ == opened.events@ + tokens_from(opened.pos as int, p.pos as int),
            p.diagnostics@ == opened.diagnostics@,
        decreases p.tokens@.len() - p.pos,
    {
        let ghost before = *p;
        p.bump();
        let ghost bumped = *p;
        p.skip_trivia();
        proof {
            lemma_step_trans(opened, before, bumped);
            lemma_step_trans(opened, bumped, *p);
            lemma_tokens_from_push(opened.pos as int, before.pos as int);
            assert(bumped.events@ =~= opened.events@ + tokens_from(
                opened.pos as int,
                bumped.pos as int,
            ));
            assert(p.events@ =~= opened.events@ + tokens_from(opened.pos as int, p.pos as int));
        }
    }
    let span_end = p.current_token_span_start();
    let ghost looped = *p;
    p.finish();
    let ghost closed = *p;
    proof {
        lemma_wrap(mid, opened, looped, closed, SyntaxKind::ERROR);
        lemma_step_trans(start, mid, closed);
        assert(closed.events@ =~= skipped(start) + seq![Event::Start(SyntaxKind::ERROR)]
            + tokens_from(mid.pos as int, closed.pos as int) + seq![Event::Finish]);
    }
    let d = ParseDiagnostic::UnexpectedToken { span: Span::new(span_start, span_end) };
    proof {
        assert(closed.events@[mid.events@.len() as int] == Event::Start(SyntaxKind::ERROR)) by {
            assert(looped.events@.take(opened.events@.len() as int) == opened.events@);
            assert(closed.events@[mid.events@.len() as int] == looped.events@[mid.events@.len() as int]);
            assert(looped.events@[mid.events@.len() as int] == looped.events@.take(opened.events@.len() as int)[mid.events@.len() as int]);
        }
        lemma_answered_node(mid.events@, closed.events@, closed.diagnostics@, d);
    }
    p.push_diagnostic(d);
    proof {
        lemma_step_same(closed, *p);
        lemma_step_trans(start, closed, *p);
    }
}

/// Eat `want`; otherwise report it, leave an empty `ERROR` node, and recover
/// to an anchor without consuming the token that was there.
pub fn expect_or_recover(p: &mut Parser, want: SyntaxKind, anchors: &[SyntaxKind])
    requires
        inv(*old(p)),
    ensures
        adds_no_malformed(old(p).diagnostics@, final(p).diagnostics@),
        step(*old(p), *final(p)),
        next_real(old(p).tokens@, old(p).pos as int) < old(p).tokens@.len() && (old(
            p,
        ).tokens@[next_real(old(p).tokens@, old(p).pos as int)].kind == want || !anchors@.contains(
            old(p).tokens@[next_real(old(p).tokens@, old(p).pos as int)].kind,
        )) ==> final(p).pos > old(p).pos,
        real_kind(*old(p)) == Some(want) ==> final(p).diagnostics@ == old(p).diagnostics@
            && final(p).events@ == skipped(*old(p)).push(
            Event::Token(next_real(old(p).tokens@, old(p).pos as int) as usize),
        ),
        real_kind(*old(p)) != Some(want) && at_anchor_kind(real_kind(*old(p)), anchors@) ==> final(p).diagnostics@ == old(p).diagnostics@.push(expected_report(*old(p), want))
            && final(p).events@ == skipped(*old(p)) + seq![
            Event::Start(SyntaxKind::ERROR),
            Event::Finish,
        ],
        real_kind(*old(p)) != Some(want) && !at_anchor_kind(real_kind(*old(p)), anchors@) ==> final(p).diagnostics@ == old(p).diagnostics@.push(expected_report(*old(p), want)).push(
            ParseDiagnostic::UnexpectedToken {
                span: Span { start: span_start(*old(p)), end: span_start(*final(p)) },
            },
        ) && final(p).events@ == skipped(*old(p)) + seq![
            Event::Start(SyntaxKind::ERROR),
            Event::Finish,
            Event::Start(SyntaxKind::ERROR),
        ] + tokens_from(next_real(old(p).tokens@, old(p).pos as int), final(p).pos as int)
            + seq![Event::Finish],
{
    let ghost start = *p;
    p.skip_trivia();
    let ghost mid = *p;
    proof {
        lemma_next_real_here(start.tokens@, start.pos as int);
    }
    if p.current() == Some(want) {
        p.bump();
        proof {
            lemma_step_trans(start, mid, *p);
        }
        return;
    }
    let got = match p.current() {
        Some(k) => k,
        None => SyntaxKind::EOF,
    };
    let at = p.current_token_span_start();
    let ghost mid2 = *p;
    p.start(SyntaxKind::ERROR);
    let ghost opened = *p;
    p.finish();
    let ghost closed = *p;
    let d = ParseDiagnostic::ExpectedToken { want, got, span: Span::new(at, at) };
    proof {
        lemma_step_refl(opened);
        lemma_wrap(mid2, opened, opened, closed, SyntaxKind::ERROR);
        lemma_step_trans(start, mid2, closed);
        assert(closed.events@[mid2.events@.len() as int] == Event::Start(SyntaxKind::ERROR));
        lemma_answered_node(mid2.events@, closed.events@, closed.diagnostics@, d);
    }
    p.push_diagnostic(d);
    let ghost mid3 = *p;
    proof {
        lemma_step_same(closed, mid3);
        lemma_step_trans(start, closed, mid3);
    }
    recover_to(p, anchors);
    proof {
        lemma_step_trans(start, mid3, *p);
        lemma_next_real_here(mid3.tokens@, mid3.pos as int);
        lemma_tokens_from_push(mid3.pos as int, mid3.pos as int);
        assert(skipped(mid3) =~= skipped(start) + seq![
            Event::Start(SyntaxKind::ERROR),
            Event::Finish,
        ]);
        assert(span_start(mid3) == span_start(start));
        if !at_anchor_kind(real_kind(start), anchors@) {
            assert(p.events@ =~= skipped(start) + seq![
                Event::Start(SyntaxKind::ERROR),
                Event::Finish,
                Event::Start(SyntaxKind::ERROR),
            ] + tokens_from(mid.pos as int, p.pos as int) + seq![Event::Finish]);
        }
    }
}

/// The report of a missing `want` at the cursor of `p`: zero-width, naming
/// what was there instead.
pub open spec fn expected_report(p: Parser, want: SyntaxKind) -> ParseDiagnostic {
    ParseDiagnostic::ExpectedToken {
        want,
        got: kind_or_eof(real_kind(p)),
        span: Span { start: span_start(p), end: span_start(p) },
    }
}

} // verus!
