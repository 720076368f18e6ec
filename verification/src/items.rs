//! The item parser: a program is a run of top-level items.
//!
//! ```text
//! Program        := TopLevel* EOF
//! TopLevel       := SourceDef | MultiSourceDef | TypeDef | PolicyDef | Mapping
//! SourceDef      := IDENT DEFINE Expression
//! MultiSourceDef := LBRACE IDENT (COMMA IDENT)* RBRACE DEFINE Expression
//! TypeDef        := RenameAttr* 'type' LBRACE IDENT (COMMA IDENT)* RBRACE
//!                   DEFINE Expression
//! PolicyDef      := 'policy' DEFINE STRING
//! RenameAttr     := AT_ATTR LPAREN IDENT (COMMA Rename)+ RPAREN
//! Rename         := STRING 'as' IDENT
//! Mapping        := MappingHeader NEWLINE INDENT MappingBody DEDENT
//! MappingHeader  := IDENT SHAPE_SEP ShapeExpr 'from' Expression
//! ShapeExpr      := IDENT
//! MappingBody    := (SubjectAssign | Property)*
//! SubjectAssign  := AT_ATTR ASSIGN Expression
//! Property       := PropertyLhs ASSIGN Expression
//! PropertyLhs    := IDENT
//! ```
//!
//! `type`, `policy`, `as` and `prefix` are ordinary identifiers, told apart by
//! their text only where the shape of the line asks for them. The vocabulary
//! declaration, the CURIE in a shape or a key, and the `<…>` IRI are refused
//! by name. Every loop here consumes at least one token per round, so the
//! parse ends on every input.

use vstd::prelude::*;

use crate::diag::{message_of, ParseDiagnostic, Span};
use crate::expr::parse_expr;
use crate::indent::LexedToken;
use crate::kind::SyntaxKind;
use crate::parser::{
    lemma_answered_malformed,
    adds_no_malformed, at_anchor_kind, keeps_reports, lemma_keeps, lemma_nm, cur, depth, ends_with, lemma_nodes_error, lemma_nodes_no_start,
    lemma_nodes_node, nodes_at, expect_or_recover, inv, kind_at, lemma_depth_nonneg, lemma_next_real,
    lemma_next_real_here, lemma_nth_zero, lemma_step_refl, lemma_step_same, lemma_step_trans,
    lemma_ends_with, lemma_tokens_from_push, lemma_push, lemma_wrap, lemma_wrap_node, mapping_body_anchors, next_real,
    is_trivia, nth_real, real_kind, recover_to, rem, reported_retired, skipped, step, token_ids, tokens_from,
    top_level_anchors, wraps, error_report_is, expected_report, kind_or_eof, span_start, Event,
    Parser,
    RetiredRun,
};
use crate::retired;

verus! {

/// Above a `type` binding, where no binding follows a `@rename`.
pub const MISSING_TYPE_BINDING: &'static str = "`@rename` renames a predicate of ONE type binding, so a `type { … } := …` has to follow it. It goes in the program and not in the `.shex` because the vocabulary may not be yours.";

/// Follows the quoted attribute name when an attribute other than `@rename`
/// stands above a `type` binding.
pub const WRONG_ATTRIBUTE_TAIL: &'static str = "` is not what goes above a `type` binding: the only attribute in this position is `@rename`. `@subject` is the first line of a MAPPING BODY — it assigns the identity of the rows a mapping writes, and above a type binding there are no rows yet.";

/// A `@rename` with no rename in it.
pub const EMPTY_RENAME: &'static str = "`@rename` needs at least one `\"<predicate IRI>\" as <name>`: it names the type whose predicate is being renamed, and then what to call it.";

/// A rename without its `as`.
pub const RENAME_WITHOUT_AS: &'static str = "a rename is `\"<predicate IRI>\" as <name>` — the `as` is what separates the predicate from the name you want to write instead.";


/// The report of a `type` binding missing under its attributes.
pub open spec fn missing_binding(d: ParseDiagnostic) -> bool {
    d matches ParseDiagnostic::Malformed { message: m, .. } && m@ == MISSING_TYPE_BINDING@
}

/// The diagnostics `b` keep those of `a` and add no report of a missing
/// `type` binding.
pub open spec fn adds_no_missing(a: Seq<ParseDiagnostic>, b: Seq<ParseDiagnostic>) -> bool {
    &&& a.len() <= b.len()
    &&& forall|i: int| 0 <= i < a.len() ==> #[trigger] b[i] == a[i]
    &&& forall|i: int| a.len() <= i < b.len() ==> !missing_binding(#[trigger] b[i])
}

proof fn lemma_no_missing_trans(a: Parser, b: Parser, c: Parser)
    requires
        adds_no_missing(a.diagnostics@, b.diagnostics@),
        adds_no_missing(b.diagnostics@, c.diagnostics@),
    ensures
        adds_no_missing(a.diagnostics@, c.diagnostics@),
{
    assert forall|i: int| 0 <= i < a.diagnostics@.len() implies #[trigger] c.diagnostics@[i]
        == a.diagnostics@[i] by {
        assert(c.diagnostics@[i] == b.diagnostics@[i]);
    }
    assert forall|i: int| a.diagnostics@.len() <= i < c.diagnostics@.len() implies !missing_binding(
        #[trigger] c.diagnostics@[i],
    ) by {
        if i < b.diagnostics@.len() {
            assert(c.diagnostics@[i] == b.diagnostics@[i]);
        }
    }
}

proof fn lemma_no_missing_from(a: Parser, b: Parser)
    requires
        adds_no_malformed(a.diagnostics@, b.diagnostics@),
    ensures
        adds_no_missing(a.diagnostics@, b.diagnostics@),
{
}

/// The other reports of malformed attributes are not the report of a
/// missing binding: their texts end differently.
proof fn lemma_other_reports(found: Seq<char>)
    ensures
        ("`"@ + found) + WRONG_ATTRIBUTE_TAIL@ != MISSING_TYPE_BINDING@,
        EMPTY_RENAME@ != MISSING_TYPE_BINDING@,
        RENAME_WITHOUT_AS@ != MISSING_TYPE_BINDING@,
{
    reveal_strlit("`@rename` renames a predicate of ONE type binding, so a `type { … } := …` has to follow it. It goes in the program and not in the `.shex` because the vocabulary may not be yours.");
    reveal_strlit("` is not what goes above a `type` binding: the only attribute in this position is `@rename`. `@subject` is the first line of a MAPPING BODY — it assigns the identity of the rows a mapping writes, and above a type binding there are no rows yet.");
    reveal_strlit("`@rename` needs at least one `\"<predicate IRI>\" as <name>`: it names the type whose predicate is being renamed, and then what to call it.");
    reveal_strlit("a rename is `\"<predicate IRI>\" as <name>` — the `as` is what separates the predicate from the name you want to write instead.");
    let w = ("`"@ + found) + WRONG_ATTRIBUTE_TAIL@;
    let mm = MISSING_TYPE_BINDING@;
    assert(w[w.len() - 2] == 't');
    assert(mm[mm.len() - 2] == 's');
    assert(EMPTY_RENAME@[EMPTY_RENAME@.len() - 2] == 't');
    assert(RENAME_WITHOUT_AS@[RENAME_WITHOUT_AS@.len() - 2] == 'd');
}

/// The text of the first real token at or after the cursor is `t`.
pub open spec fn real_text_is(p: Parser, t: Seq<char>) -> bool {
    next_real(p.tokens@, p.pos as int) < p.tokens@.len() && p.tokens@[next_real(
        p.tokens@,
        p.pos as int,
    )].text@ == t
}


/// Where a recovery inside a `@rename(…)` stops.
pub fn rename_anchors() -> (a: Vec<SyntaxKind>)
    ensures
        a@ == seq![SyntaxKind::COMMA, SyntaxKind::STRING, SyntaxKind::RPAREN, SyntaxKind::IDENT],
{
    let mut a = Vec::new();
    a.push(SyntaxKind::COMMA);
    a.push(SyntaxKind::STRING);
    a.push(SyntaxKind::RPAREN);
    a.push(SyntaxKind::IDENT);
    assert(a@ =~= seq![
        SyntaxKind::COMMA,
        SyntaxKind::STRING,
        SyntaxKind::RPAREN,
        SyntaxKind::IDENT,
    ]);
    a
}

/// Report a form written incompletely, at the current token and zero-width.
pub fn malformed(p: &mut Parser, message: &str)
    requires
        inv(*old(p)),
    ensures
        step(*old(p), *final(p)),
        final(p).pos == old(p).pos,
        final(p).events@ == old(p).events@,
        final(p).diagnostics@.len() == old(p).diagnostics@.len() + 1,
        final(p).diagnostics@.drop_last() == old(p).diagnostics@,
        final(p).diagnostics@.last() matches ParseDiagnostic::Malformed { message: m, span } && m@
            == message@ && span.start == span.end,
{
    let ghost start = *p;
    let at = p.current_token_span_start();
    let d = ParseDiagnostic::Malformed { message: String::from_str(message), span: Span::new(at, at) };
    proof {
        lemma_answered_malformed(start.events@, start.diagnostics@, d);
    }
    p.push_diagnostic(d);
    proof {
        lemma_step_same(start, *p);
    }
}

/// What may stand directly under the program: an item, or an `ERROR` node
/// around what no item claims.
pub open spec fn item_kind(k: SyntaxKind) -> bool {
    ||| k == SyntaxKind::SOURCE_DEF
    ||| k == SyntaxKind::POLICY_DEF
    ||| k == SyntaxKind::MULTI_SOURCE_DEF
    ||| k == SyntaxKind::TYPE_DEF
    ||| k == SyntaxKind::MAPPING
    ||| k == SyntaxKind::ERROR
}

/// What may stand directly under a mapping body: a property (the subject
/// assignment is one too), or an `ERROR` node around a line neither starts.
pub open spec fn body_kind(k: SyntaxKind) -> bool {
    k == SyntaxKind::PROPERTY || k == SyntaxKind::ERROR
}

/// The kind of the `n`-th real token at or after token `i`, if any.
pub open spec fn kind_from(toks: Seq<LexedToken>, i: int, n: nat) -> Option<SyntaxKind> {
    if nth_real(toks, i, n) < toks.len() {
        Some(toks[nth_real(toks, i, n)].kind)
    } else {
        None
    }
}

/// The node a top-level line starting at token `i` becomes: `@…` or
/// `type {` a type binding, `{` a binding of several sources, `policy :=
/// "…"` a policy, `name :=` a source, `name :` a mapping; anything else is
/// refused under an `ERROR` node.
pub open spec fn item_for(toks: Seq<LexedToken>, i: int) -> SyntaxKind {
    let k0 = kind_from(toks, i, 0);
    let k1 = kind_from(toks, i, 1);
    let k2 = kind_from(toks, i, 2);
    let text = toks[nth_real(toks, i, 0)].text@;
    if k0 == Some(SyntaxKind::AT_ATTR) {
        SyntaxKind::TYPE_DEF
    } else if k0 == Some(SyntaxKind::LBRACE) {
        SyntaxKind::MULTI_SOURCE_DEF
    } else if k0 == Some(SyntaxKind::IDENT) && k1 == Some(SyntaxKind::DEFINE) && text == "policy"@
        && k2 == Some(SyntaxKind::STRING) {
        SyntaxKind::POLICY_DEF
    } else if k0 == Some(SyntaxKind::IDENT) && k1 == Some(SyntaxKind::DEFINE) {
        SyntaxKind::SOURCE_DEF
    } else if k0 == Some(SyntaxKind::IDENT) && k1 == Some(SyntaxKind::SHAPE_SEP) {
        SyntaxKind::MAPPING
    } else if k0 == Some(SyntaxKind::IDENT) && k1 == Some(SyntaxKind::LBRACE) && text == "type"@ {
        SyntaxKind::TYPE_DEF
    } else {
        SyntaxKind::ERROR
    }
}

/// Every node that opens at depth `d` from event `from` on is the item its
/// first token decides: the tokens before the node count to that token.
#[verifier::opaque]
pub open spec fn dispatched(ev: Seq<Event>, from: int, d: int, toks: Seq<LexedToken>) -> bool {
    forall|j: int|
        from <= j < ev.len() && depth(ev.take(j)) == d ==> (#[trigger] ev[j] matches Event::Start(
            k,
        ) ==> k == item_for(toks, token_ids(ev.take(j)).len() as int))
}

proof fn lemma_disp_no_start(a: Seq<Event>, n: Seq<Event>, from: int, d: int, toks: Seq<LexedToken>)
    requires
        0 <= from,
        dispatched(a, from, d, toks),
        a.len() <= n.len(),
        n.take(a.len() as int) == a,
        forall|j: int| a.len() <= j < n.len() ==> !(#[trigger] n[j] is Start),
    ensures
        dispatched(n, from, d, toks),
{
    reveal(dispatched);
    assert forall|j: int| from <= j < n.len() && depth(n.take(j)) == d implies (
    #[trigger] n[j] matches Event::Start(k) ==> k == item_for(toks, token_ids(n.take(j)).len() as int)) by {
        if j < a.len() {
            assert(n[j] == n.take(a.len() as int)[j]);
            assert(n.take(j) =~= a.take(j));
        }
    }
}

proof fn lemma_disp_node(
    a: Seq<Event>,
    n: Seq<Event>,
    from: int,
    d: int,
    toks: Seq<LexedToken>,
    k: SyntaxKind,
)
    requires
        0 <= from,
        dispatched(a, from, d, toks),
        depth(a) == d,
        n.take(a.len() as int) == a,
        wraps(a, n, k),
        k == item_for(toks, token_ids(a).len() as int),
    ensures
        dispatched(n, from, d, toks),
{
    reveal(dispatched);
    assert forall|j: int| from <= j < n.len() && depth(n.take(j)) == d implies (
    #[trigger] n[j] matches Event::Start(k2) ==> k2 == item_for(toks, token_ids(n.take(j)).len() as int)) by {
        if j < a.len() {
            assert(n[j] == n.take(a.len() as int)[j]);
            assert(n.take(j) =~= a.take(j));
        } else if j > a.len() && j < n.len() - 1 {
            assert(n.drop_last().take(j) =~= n.take(j));
            assert(depth(n.drop_last().take(j)) >= d + 1);
        }
    }
}

proof fn lemma_disp_error(a: Seq<Event>, n: Seq<Event>, from: int, d: int, toks: Seq<LexedToken>)
    requires
        0 <= from,
        dispatched(a, from, d, toks),
        n.len() >= a.len() + 2,
        n.take(a.len() as int) == a,
        n[a.len() as int] == Event::Start(SyntaxKind::ERROR),
        item_for(toks, token_ids(a).len() as int) == SyntaxKind::ERROR,
        forall|j: int| a.len() < j < n.len() ==> !(#[trigger] n[j] is Start),
    ensures
        dispatched(n, from, d, toks),
{
    reveal(dispatched);
    assert forall|j: int| from <= j < n.len() && depth(n.take(j)) == d implies (
    #[trigger] n[j] matches Event::Start(k) ==> k == item_for(toks, token_ids(n.take(j)).len() as int)) by {
        if j < a.len() {
            assert(n[j] == n.take(a.len() as int)[j]);
            assert(n.take(j) =~= a.take(j));
        } else if j == a.len() {
            assert(n.take(j) == a);
        }
    }
}

proof fn lemma_disp_items(ev: Seq<Event>, from: int, d: int, toks: Seq<LexedToken>)
    requires
        dispatched(ev, from, d, toks),
    ensures
        nodes_at(ev, from, d, |k: SyntaxKind| item_kind(k)),
{
    reveal(dispatched);
}

/// Event `e` is the token of the keyword `type`.
pub open spec fn keyword_token(e: Event, toks: Seq<LexedToken>) -> bool {
    e matches Event::Token(t) && t < toks.len() && toks[t as int].kind == SyntaxKind::IDENT
        && toks[t as int].text@ == "type"@
}

/// The keyword `type` stands directly under the node opened at event `o`.
pub open spec fn binding_keyword(ev: Seq<Event>, o: int, toks: Seq<LexedToken>) -> bool {
    exists|j: int|
        o < j < ev.len() && depth(ev.take(j)) == depth(ev.take(o)) + 1 && #[trigger] keyword_token(
            ev[j],
            toks,
        )
}

/// Every token directly at depth `d` from event `from` on is trivia.
pub open spec fn direct_trivia(ev: Seq<Event>, from: int, d: int, toks: Seq<LexedToken>) -> bool {
    forall|j: int|
        from <= j < ev.len() && depth(ev.take(j)) == d ==> (#[trigger] ev[j] matches Event::Token(t)
            ==> t < toks.len() && is_trivia(toks[t as int].kind))
}

proof fn lemma_trivia_direct(a: Parser, n: Parser, from: int, d: int)
    requires
        0 <= from,
        inv(a),
        direct_trivia(a.events@, from, d, a.tokens@),
        n.events@ == a.events@ + tokens_from(a.pos as int, next_real(a.tokens@, a.pos as int)),
        n.tokens@ == a.tokens@,
    ensures
        direct_trivia(n.events@, from, d, n.tokens@),
{
    lemma_next_real(a.tokens@, a.pos as int);
    let ne = n.events@;
    assert forall|j: int| from <= j < ne.len() && depth(ne.take(j)) == d implies (
    #[trigger] ne[j] matches Event::Token(t) ==> t < n.tokens@.len() && is_trivia(
        n.tokens@[t as int].kind,
    )) by {
        if j < a.events@.len() {
            assert(ne.take(j) =~= a.events@.take(j));
        } else {
            let k = j - a.events@.len();
            let idx = a.pos + k;
            assert(a.tokens@.len() == a.tokens.len());
            assert(ne[j] == Event::Token(idx as usize));
            assert(is_trivia(a.tokens@[idx].kind));
        }
    }
}

proof fn lemma_node_direct(a: Seq<Event>, n: Seq<Event>, from: int, d: int, toks: Seq<LexedToken>)
    requires
        0 <= from,
        direct_trivia(a, from, d, toks),
        depth(a) == d,
        n.take(a.len() as int) == a,
        wraps(a, n, SyntaxKind::RENAME_ATTR),
    ensures
        direct_trivia(n, from, d, toks),
{
    assert forall|j: int| from <= j < n.len() && depth(n.take(j)) == d implies (
    #[trigger] n[j] matches Event::Token(t) ==> t < toks.len() && is_trivia(toks[t as int].kind)) by {
        if j < a.len() {
            assert(n[j] == n.take(a.len() as int)[j]);
            assert(n.take(j) =~= a.take(j));
        } else if j > a.len() && j < n.len() - 1 {
            assert(n.drop_last().take(j) =~= n.take(j));
            assert(depth(n.drop_last().take(j)) >= d + 1);
        }
    }
}

/// A node closed with only trivia and attributes directly under it holds no
/// `type` keyword directly.
proof fn lemma_no_keyword(
    c: Seq<Event>,
    n: Seq<Event>,
    o: int,
    d: int,
    toks: Seq<LexedToken>,
    old: Seq<Event>,
)
    requires
        0 <= o,
        o + 1 <= c.len(),
        direct_trivia(c, o + 1, d, toks),
        n == c.push(Event::Finish),
        c.take(o) == old,
        depth(old) + 1 == d,
    ensures
        !binding_keyword(n, o, toks),
{
    assert(n.take(o) =~= old);
    assert forall|j: int| o < j < n.len() && depth(n.take(j)) == depth(n.take(o)) + 1 implies !keyword_token(
        #[trigger] n[j],
        toks,
    ) by {
        if j < c.len() {
            assert(n.take(j) =~= c.take(j));
            assert(n[j] == c[j]);
        }
    }
}

/// Token `i` is a byte that no token rule matches (the backtick aside,
/// which is refused by name).
pub open spec fn unlexable(toks: Seq<LexedToken>, i: int) -> bool {
    &&& 0 <= i < toks.len()
    &&& toks[i].kind == SyntaxKind::ERROR
    &&& toks[i].text@ != "`"@
    &&& toks[i].text@.len() > 0
}

/// `d` says token `i` is an unexpected character, at its span.
pub open spec fn unlexable_report(d: ParseDiagnostic, toks: Seq<LexedToken>, i: int) -> bool {
    &&& d matches ParseDiagnostic::UnlexableCharacter { text, span } && text@ == toks[i].text@
        && span == Span { start: toks[i].range.start, end: toks[i].range.end }
    &&& message_of(d) == "unexpected character `"@ + toks[i].text@ + "` — no token starts with it"@
}

/// Every real token is a byte no token rule matches, or a layout token.
pub open spec fn only_unlexable(toks: Seq<LexedToken>) -> bool {
    forall|i: int|
        0 <= i < toks.len() && !is_trivia(#[trigger] toks[i].kind) ==> unlexable(toks, i)
            || toks[i].kind == SyntaxKind::INDENT || toks[i].kind == SyntaxKind::DEDENT
}

/// How many of the first `n` tokens are unlexable bytes.
pub open spec fn unlexable_count(toks: Seq<LexedToken>, n: int) -> nat
    decreases n,
{
    if n <= 0 {
        0
    } else {
        unlexable_count(toks, n - 1) + if unlexable(toks, n - 1) {
            1nat
        } else {
            0nat
        }
    }
}

/// `d` reports one of the unlexable bytes among the first `n` tokens.
pub open spec fn reports_a_byte(d: ParseDiagnostic, toks: Seq<LexedToken>, n: int) -> bool {
    exists|i: int| 0 <= i < n && unlexable(toks, i) && #[trigger] unlexable_report(d, toks, i)
}

/// The reports are one per unlexable byte among the first `n` tokens, and
/// each says which byte, at its span: nothing else is reported.
pub open spec fn reports_only_unlexable(
    ds: Seq<ParseDiagnostic>,
    toks: Seq<LexedToken>,
    n: int,
) -> bool {
    &&& ds.len() == unlexable_count(toks, n)
    &&& forall|q: int| 0 <= q < ds.len() ==> #[trigger] reports_a_byte(ds[q], toks, n)
}

/// Trivia holds no unlexable byte.
proof fn lemma_count_trivia(toks: Seq<LexedToken>, a: int, b: int)
    requires
        0 <= a <= b <= toks.len(),
        forall|j: int| a <= j < b ==> is_trivia(#[trigger] toks[j].kind),
    ensures
        unlexable_count(toks, b) == unlexable_count(toks, a),
    decreases b - a,
{
    if a < b {
        lemma_count_trivia(toks, a, b - 1);
        assert(is_trivia(toks[b - 1].kind));
    }
}

/// Reports kept in place, more tokens read, and what is added reported too.
proof fn lemma_reports_grow(
    ds: Seq<ParseDiagnostic>,
    ds2: Seq<ParseDiagnostic>,
    toks: Seq<LexedToken>,
    n: int,
    n2: int,
)
    requires
        reports_only_unlexable(ds, toks, n),
        n <= n2,
        keeps_reports(ds, ds2),
        ds2.len() == unlexable_count(toks, n2),
        forall|q: int| ds.len() <= q < ds2.len() ==> #[trigger] reports_a_byte(ds2[q], toks, n2),
    ensures
        reports_only_unlexable(ds2, toks, n2),
{
    assert forall|q: int| 0 <= q < ds2.len() implies #[trigger] reports_a_byte(ds2[q], toks, n2) by {
        if q < ds.len() {
            assert(ds2[q] == ds[q]);
            assert(reports_a_byte(ds[q], toks, n));
            let i = choose|i: int| 0 <= i < n && unlexable(toks, i) && #[trigger] unlexable_report(ds[q], toks, i);
            assert(unlexable_report(ds2[q], toks, i));
        }
    }
}


/// Some report says token `i` is an unexpected character, at its span.
pub open spec fn reports_unlexable(ds: Seq<ParseDiagnostic>, toks: Seq<LexedToken>, i: int) -> bool {
    exists|k: int| 0 <= k < ds.len() && unlexable_report(#[trigger] ds[k], toks, i)
}

/// Every node at depth `d` from event `from` on that starts at an
/// unlexable token is reported.
pub open spec fn lines_reported(
    ev: Seq<Event>,
    from: int,
    d: int,
    toks: Seq<LexedToken>,
    ds: Seq<ParseDiagnostic>,
) -> bool {
    forall|j: int|
        from <= j < ev.len() && depth(ev.take(j)) == d && #[trigger] ev[j] is Start && unlexable(
            toks,
            token_ids(ev.take(j)).len() as int,
        ) ==> reports_unlexable(ds, toks, token_ids(ev.take(j)).len() as int)
}

/// One step of the program loop: the events after `a` open, at depth `d`,
/// a node at most where they begin, at token `i`.
proof fn lemma_lines_step(
    a: Seq<Event>,
    n: Seq<Event>,
    ds_a: Seq<ParseDiagnostic>,
    ds_n: Seq<ParseDiagnostic>,
    from: int,
    d: int,
    toks: Seq<LexedToken>,
)
    requires
        0 <= from,
        lines_reported(a, from, d, toks, ds_a),
        keeps_reports(ds_a, ds_n),
        a.len() <= n.len(),
        n.take(a.len() as int) == a,
        forall|j: int| a.len() < j < n.len() && depth(n.take(j)) == d ==> !(#[trigger] n[j] is Start),
        a.len() < n.len() && n[a.len() as int] is Start && unlexable(toks, token_ids(a).len() as int)
            ==> reports_unlexable(ds_n, toks, token_ids(a).len() as int),
    ensures
        lines_reported(n, from, d, toks, ds_n),
{
    assert forall|j: int|
        from <= j < n.len() && depth(n.take(j)) == d && #[trigger] n[j] is Start && unlexable(
            toks,
            token_ids(n.take(j)).len() as int,
        ) implies reports_unlexable(ds_n, toks, token_ids(n.take(j)).len() as int) by {
        if j < a.len() {
            assert(n[j] == n.take(a.len() as int)[j]);
            assert(n.take(j) =~= a.take(j));
            let i = token_ids(a.take(j)).len() as int;
            let k = choose|k: int| 0 <= k < ds_a.len() && unlexable_report(#[trigger] ds_a[k], toks, i);
            assert(ds_n[k] == ds_a[k]);
        } else if j == a.len() {
            assert(n.take(j) == a);
        }
    }
}

/// Tokens appended after `a` keep `lines_reported`.
proof fn lemma_lines_tokens(
    a: Seq<Event>,
    n: Seq<Event>,
    ds_a: Seq<ParseDiagnostic>,
    ds_n: Seq<ParseDiagnostic>,
    from: int,
    d: int,
    toks: Seq<LexedToken>,
)
    requires
        0 <= from,
        lines_reported(a, from, d, toks, ds_a),
        keeps_reports(ds_a, ds_n),
        a.len() <= n.len(),
        n.take(a.len() as int) == a,
        forall|j: int| a.len() <= j < n.len() ==> #[trigger] n[j] is Token,
    ensures
        lines_reported(n, from, d, toks, ds_n),
{
    lemma_lines_step(a, n, ds_a, ds_n, from, d, toks);
}

/// An `ERROR` node of tokens appended at the cursor of `a`, reported as
/// `bump_as_error` reports, keeps `lines_reported`.
proof fn lemma_error_lines(a: Parser, n: Parser, from: int, d: int, toks: Seq<LexedToken>)
    requires
        0 <= from,
        inv(a),
        toks == a.tokens@,
        lines_reported(a.events@, from, d, toks, a.diagnostics@),
        keeps_reports(a.diagnostics@, n.diagnostics@),
        token_ids(a.events@).len() == a.pos,
        next_real(a.tokens@, a.pos as int) == a.pos,
        a.events@.len() < n.events@.len(),
        n.events@.take(a.events@.len() as int) == a.events@,
        n.events@[a.events@.len() as int] == Event::Start(SyntaxKind::ERROR),
        forall|j: int| a.events@.len() < j < n.events@.len() ==> !(#[trigger] n.events@[j] is Start),
        unlexable(toks, a.pos as int) ==> n.diagnostics@.len() > 0 && error_report_is(
            n.diagnostics@.last(),
            a,
        ),
    ensures
        lines_reported(n.events@, from, d, toks, n.diagnostics@),
{
    if unlexable(toks, a.pos as int) {
        lemma_nth_zero(a.tokens@, a.pos as int);
        let k = n.diagnostics@.len() - 1;
        assert(unlexable_report(n.diagnostics@[k], toks, a.pos as int));
    }
    lemma_lines_step(a.events@, n.events@, a.diagnostics@, n.diagnostics@, from, d, toks);
}

/// Inside a node appended after `a`, nothing opens at `a`'s own depth.
pub proof fn lemma_inside_deeper(a: Seq<Event>, n: Seq<Event>, d: int, k: SyntaxKind)
    requires
        depth(a) == d,
        wraps(a, n, k),
    ensures
        forall|j: int| a.len() < j < n.len() && depth(n.take(j)) == d ==> !(#[trigger] n[j] is Start),
{
    assert forall|j: int| a.len() < j < n.len() && depth(n.take(j)) == d implies !(
    #[trigger] n[j] is Start) by {
        if j < n.len() - 1 {
            assert(n.drop_last().take(j) =~= n.take(j));
            assert(depth(n.drop_last().take(j)) >= d + 1);
        }
    }
}

/// An unlexable byte taken as an `ERROR` node adds its own report, and only it.
proof fn lemma_unlexable_step(a: Parser, n: Parser)
    requires
        inv(a),
        a.pos < a.tokens@.len(),
        unlexable(a.tokens@, a.pos as int),
        reports_only_unlexable(a.diagnostics@, a.tokens@, a.pos as int),
        n.pos == a.pos + 1,
        n.diagnostics@.len() == a.diagnostics@.len() + 1,
        n.diagnostics@.drop_last() == a.diagnostics@,
        error_report_is(n.diagnostics@.last(), a),
    ensures
        reports_only_unlexable(n.diagnostics@, a.tokens@, n.pos as int),
{
    let toks = a.tokens@;
    let i = a.pos as int;
    lemma_nth_zero(toks, i);
    lemma_next_real_here(toks, i);
    let q = a.diagnostics@.len() as int;
    assert(n.diagnostics@[q] == n.diagnostics@.last());
    assert(unlexable_report(n.diagnostics@[q], toks, i));
    assert(reports_a_byte(n.diagnostics@[q], toks, i + 1));
    assert forall|x: int| 0 <= x < a.diagnostics@.len() implies #[trigger] n.diagnostics@[x]
        == a.diagnostics@[x] by {
        assert(n.diagnostics@.drop_last()[x] == n.diagnostics@[x]);
    }
    lemma_reports_grow(a.diagnostics@, n.diagnostics@, toks, i, i + 1);
}

/// The whole program under one `PROGRAM` node. Every token is consumed: a
/// token no item claims is wrapped in an `ERROR` node and reported. Directly
/// under the program stand only tokens, items and `ERROR` nodes, and each
/// item is built of its parts. Where every real token is an unlexable byte
/// or a layout token, the reports are one per byte and nothing else.
#[verifier::spinoff_prover]
pub fn parse_program(p: &mut Parser)
    requires
        inv(*old(p)),
    ensures
        step(*old(p), *final(p)),
        final(p).pos == final(p).tokens@.len(),
        wraps(old(p).events@, final(p).events@, SyntaxKind::PROGRAM),
        nodes_at(
            final(p).events@,
            old(p).events@.len() + 1int,
            depth(old(p).events@) + 1,
            |k: SyntaxKind| item_kind(k),
        ),
        dispatched(
            final(p).events@,
            old(p).events@.len() + 1int,
            depth(old(p).events@) + 1,
            final(p).tokens@,
        ),
        lines_reported(
            final(p).events@,
            old(p).events@.len() + 1int,
            depth(old(p).events@) + 1,
            final(p).tokens@,
            final(p).diagnostics@,
        ),
        items_shaped(
            final(p).events@,
            old(p).events@.len() + 1int,
            depth(old(p).events@) + 1,
            final(p).tokens@,
            final(p).diagnostics@,
        ),
        old(p).pos == 0 && old(p).diagnostics@.len() == 0 && only_unlexable(old(p).tokens@)
            ==> reports_only_unlexable(
            final(p).diagnostics@,
            final(p).tokens@,
            final(p).tokens@.len() as int,
        ),
{
    let ghost start = *p;
    let ghost fresh = start.pos == 0 && start.diagnostics@.len() == 0 && only_unlexable(
        start.tokens@,
    );
    p.start(SyntaxKind::PROGRAM);
    let ghost b = *p;
    proof {
        lemma_step_refl(b);
    }
    let ghost from = b.events@.len() as int;
    let ghost d = depth(b.events@);
    let ghost toks = b.tokens@;
    assert(dispatched(p.events@, from, d, toks)) by {
        reveal(dispatched);
    }
    assert(lines_reported(p.events@, from, d, toks, p.diagnostics@));
    assert(items_shaped(p.events@, from, d, toks, p.diagnostics@)) by {
        reveal(items_shaped);
    }
    assert(fresh ==> reports_only_unlexable(p.diagnostics@, toks, p.pos as int));
    loop
        invariant
            step(b, *p),
            from == b.events@.len(),
            d == depth(b.events@),
            toks == b.tokens@,
            toks == start.tokens@,
            fresh == (start.pos == 0 && start.diagnostics@.len() == 0 && only_unlexable(toks)),
            dispatched(p.events@, from, d, toks),
            lines_reported(p.events@, from, d, toks, p.diagnostics@),
            items_shaped(p.events@, from, d, toks, p.diagnostics@),
            fresh ==> reports_only_unlexable(p.diagnostics@, toks, p.pos as int),
        ensures
            step(b, *p),
            p.pos == p.tokens@.len(),
            dispatched(p.events@, from, d, toks),
            lines_reported(p.events@, from, d, toks, p.diagnostics@),
            items_shaped(p.events@, from, d, toks, p.diagnostics@),
            fresh ==> reports_only_unlexable(p.diagnostics@, toks, p.pos as int),
        decreases rem(*p),
    {
        let ghost it = *p;
        p.skip_trivia();
        let ghost it2 = *p;
        proof {
            lemma_step_trans(b, it, it2);
            lemma_next_real_here(it.tokens@, it.pos as int);
            lemma_next_real_here(it2.tokens@, it2.pos as int);
            lemma_nth_zero(it2.tokens@, it2.pos as int);
            lemma_disp_no_start(it.events@, it2.events@, from, d, toks);
            assert(token_ids(it2.events@).len() == it2.pos);
            assert forall|j: int| it.events@.len() <= j < it2.events@.len() implies #[trigger] it2.events@[j] is Token by {
                assert(it2.events@[j] == tokens_from(it.pos as int, it2.pos as int)[j - it.events@.len()]);
            }
            lemma_lines_tokens(it.events@, it2.events@, it.diagnostics@, it2.diagnostics@, from, d, toks);
            lemma_items_no_start(it.events@, it2.events@, it.diagnostics@, it2.diagnostics@, from, d, toks);
            if fresh {
                lemma_next_real(toks, it.pos as int);
                lemma_count_trivia(toks, it.pos as int, it2.pos as int);
                lemma_reports_grow(it.diagnostics@, it2.diagnostics@, toks, it.pos as int, it2.pos as int);
            }
        }
        let k = match p.current() {
            None => break,
            Some(k) => k,
        };
        proof {
            if fresh {
                assert(!is_trivia(toks[it2.pos as int].kind));
            }
        }
        assert(fresh ==> unlexable(toks, it2.pos as int) || k == SyntaxKind::INDENT || k
            == SyntaxKind::DEDENT);
        if k == SyntaxKind::INDENT || k == SyntaxKind::DEDENT {
            p.bump();
            proof {
                if fresh {
                    lemma_reports_grow(it2.diagnostics@, p.diagnostics@, toks, it2.pos as int, p.pos as int);
                }
                lemma_disp_no_start(it2.events@, p.events@, from, d, toks);
                lemma_lines_tokens(it2.events@, p.events@, it2.diagnostics@, p.diagnostics@, from, d, toks);
                lemma_items_no_start(it2.events@, p.events@, it2.diagnostics@, p.diagnostics@, from, d, toks);
            }
        } else if k == SyntaxKind::AT_ATTR {
            parse_type_def(p);
            proof {
                lemma_disp_node(it2.events@, p.events@, from, d, toks, SyntaxKind::TYPE_DEF);
                lemma_type_shaped(it2, *p);
                lemma_items_node(it2.events@, p.events@, it2.diagnostics@, p.diagnostics@, from, d, toks, SyntaxKind::TYPE_DEF);
                lemma_inside_deeper(it2.events@, p.events@, d, SyntaxKind::TYPE_DEF);
                lemma_lines_step(it2.events@, p.events@, it2.diagnostics@, p.diagnostics@, from, d, toks);
            }
        } else if k == SyntaxKind::LBRACE {
            parse_multi_source_def(p);
            proof {
                lemma_disp_node(it2.events@, p.events@, from, d, toks, SyntaxKind::MULTI_SOURCE_DEF);
                lemma_multi_shaped(it2, *p);
                lemma_items_node(it2.events@, p.events@, it2.diagnostics@, p.diagnostics@, from, d, toks, SyntaxKind::MULTI_SOURCE_DEF);
                lemma_inside_deeper(it2.events@, p.events@, d, SyntaxKind::MULTI_SOURCE_DEF);
                lemma_lines_step(it2.events@, p.events@, it2.diagnostics@, p.diagnostics@, from, d, toks);
            }
        } else if k == SyntaxKind::IDENT {
            let second = p.peek_kind(1);
            if second == Some(SyntaxKind::DEFINE) && p.current_text_is("policy") && p.peek_kind(2)
                == Some(SyntaxKind::STRING) {
                parse_policy_def(p);
                proof {
                    lemma_disp_node(it2.events@, p.events@, from, d, toks, SyntaxKind::POLICY_DEF);
                    lemma_policy_shaped(it2, *p);
                    lemma_items_node(it2.events@, p.events@, it2.diagnostics@, p.diagnostics@, from, d, toks, SyntaxKind::POLICY_DEF);
                    lemma_inside_deeper(it2.events@, p.events@, d, SyntaxKind::POLICY_DEF);
                    lemma_lines_step(it2.events@, p.events@, it2.diagnostics@, p.diagnostics@, from, d, toks);
                }
            } else if second == Some(SyntaxKind::DEFINE) {
                parse_source_def(p);
                proof {
                    lemma_disp_node(it2.events@, p.events@, from, d, toks, SyntaxKind::SOURCE_DEF);
                    lemma_source_shaped(it2, *p);
                    lemma_items_node(it2.events@, p.events@, it2.diagnostics@, p.diagnostics@, from, d, toks, SyntaxKind::SOURCE_DEF);
                    lemma_inside_deeper(it2.events@, p.events@, d, SyntaxKind::SOURCE_DEF);
                    lemma_lines_step(it2.events@, p.events@, it2.diagnostics@, p.diagnostics@, from, d, toks);
                }
            } else if second == Some(SyntaxKind::SHAPE_SEP) {
                parse_mapping(p);
                proof {
                    lemma_disp_node(it2.events@, p.events@, from, d, toks, SyntaxKind::MAPPING);
                    lemma_mapping_node(it2, *p);
                    lemma_items_node(it2.events@, p.events@, it2.diagnostics@, p.diagnostics@, from, d, toks, SyntaxKind::MAPPING);
                    lemma_inside_deeper(it2.events@, p.events@, d, SyntaxKind::MAPPING);
                    lemma_lines_step(it2.events@, p.events@, it2.diagnostics@, p.diagnostics@, from, d, toks);
                }
            } else if second == Some(SyntaxKind::LBRACE) && p.current_text_is("type") {
                parse_type_def(p);
                proof {
                    lemma_disp_node(it2.events@, p.events@, from, d, toks, SyntaxKind::TYPE_DEF);
                    lemma_type_shaped(it2, *p);
                    lemma_items_node(it2.events@, p.events@, it2.diagnostics@, p.diagnostics@, from, d, toks, SyntaxKind::TYPE_DEF);
                    lemma_inside_deeper(it2.events@, p.events@, d, SyntaxKind::TYPE_DEF);
                    lemma_lines_step(it2.events@, p.events@, it2.diagnostics@, p.diagnostics@, from, d, toks);
                }
            } else if second == Some(SyntaxKind::IDENT) && p.current_text_is("prefix")
                && p.peek_kind(2) == Some(SyntaxKind::SHAPE_SEP) {
                p.retire(retired::PREFIX_DECL, RetiredRun::Line);
                proof {
                    lemma_tokens_from_push(it2.pos as int, it2.pos as int);
                    assert(skipped(it2) =~= it2.events@);
                    lemma_disp_error(it2.events@, p.events@, from, d, toks);
                    lemma_error_lines(it2, *p, from, d, toks);
                    lemma_items_error(it2.events@, p.events@, it2.diagnostics@, p.diagnostics@, from, d, toks);
                }
            } else {
                p.bump_as_error();
                proof {
                    lemma_disp_error(it2.events@, p.events@, from, d, toks);
                    lemma_error_lines(it2, *p, from, d, toks);
                    lemma_items_error(it2.events@, p.events@, it2.diagnostics@, p.diagnostics@, from, d, toks);
                }
            }
        } else {
            p.bump_as_error();
            proof {
                lemma_disp_error(it2.events@, p.events@, from, d, toks);
                lemma_error_lines(it2, *p, from, d, toks);
                lemma_items_error(it2.events@, p.events@, it2.diagnostics@, p.diagnostics@, from, d, toks);
                if fresh {
                    lemma_unlexable_step(it2, *p);
                }
            }
        }
        proof {
            lemma_step_trans(b, it2, *p);
        }
    }
    let ghost c = *p;
    proof {
        lemma_depth_nonneg(start.events@);
    }
    p.finish();
    proof {
        lemma_wrap(start, b, c, *p, SyntaxKind::PROGRAM);
        lemma_wrap_node(start, b, c, *p, SyntaxKind::PROGRAM);
        lemma_push(c.events@, Event::Finish);
        lemma_push(start.events@, Event::Start(SyntaxKind::PROGRAM));
        lemma_disp_no_start(c.events@, p.events@, from, d, toks);
        lemma_items_no_start(c.events@, p.events@, c.diagnostics@, p.diagnostics@, from, d, toks);
        lemma_lines_step(c.events@, p.events@, c.diagnostics@, p.diagnostics@, from, d, toks);
        lemma_disp_items(p.events@, from, d, toks);
    }
}

/// How a binding opens under a node of kind `k`: the name under the cursor,
/// the trivia after it, and the token after that.
pub open spec fn binding_head(p: Parser, k: SyntaxKind) -> Seq<Event> {
    let q = next_real(p.tokens@, p.pos + 1);
    p.events@ + seq![Event::Start(k), Event::Token(p.pos)] + tokens_from(p.pos + 1, q) + seq![
        Event::Token(q as usize),
    ]
}

/// How a `SOURCE_DEF` opens: its name, then `:=`.
pub open spec fn def_head(p: Parser) -> Seq<Event> {
    binding_head(p, SyntaxKind::SOURCE_DEF)
}

/// `IDENT := Expression`, under a `SOURCE_DEF` node.
pub fn parse_source_def(p: &mut Parser)
    requires
        inv(*old(p)),
    ensures
        keeps_reports(old(p).diagnostics@, final(p).diagnostics@),
        step(*old(p), *final(p)),
        wraps(old(p).events@, final(p).events@, SyntaxKind::SOURCE_DEF),
        old(p).pos < old(p).tokens@.len() ==> final(p).pos > old(p).pos,
        old(p).pos < old(p).tokens@.len() && next_real(old(p).tokens@, old(p).pos + 1)
            < old(p).tokens@.len() ==> def_head(*old(p)).len() < final(p).events@.len()
            && final(p).events@.take(def_head(*old(p)).len() as int) == def_head(*old(p)),
        ends_with(final(p).events@, old(p).events@.len() as int, SyntaxKind::EXPR),
{
    let ghost start = *p;
    p.start(SyntaxKind::SOURCE_DEF);
    let ghost b = *p;
    p.bump();
    let ghost x1 = *p;
    p.skip_trivia();
    let ghost x2 = *p;
    p.bump();
    let ghost x3 = *p;
    parse_expr(p);
    let ghost c = *p;
    proof {
        lemma_step_trans(b, x1, x2);
        lemma_step_trans(b, x2, x3);
        lemma_step_trans(b, x3, c);
    }
    p.finish();
    proof {
        lemma_wrap(start, b, c, *p, SyntaxKind::SOURCE_DEF);
        lemma_wrap_node(start, b, c, *p, SyntaxKind::SOURCE_DEF);
        lemma_ends_with(x3.events@, c.events@, p.events@, start.events@.len() as int, SyntaxKind::EXPR);
        if start.pos < start.tokens@.len() && next_real(start.tokens@, start.pos + 1)
            < start.tokens@.len() {
            assert(x3.events@ =~= def_head(start));
            assert(p.events@.take(x3.events@.len() as int) =~= c.events@.take(x3.events@.len() as int));
        }
    }
}

/// `policy := STRING`, under a `POLICY_DEF` node: three tokens, checked by the
/// caller.
#[verifier::rlimit(60)]
pub fn parse_policy_def(p: &mut Parser)
    requires
        inv(*old(p)),
    ensures
        keeps_reports(old(p).diagnostics@, final(p).diagnostics@),
        step(*old(p), *final(p)),
        wraps(old(p).events@, final(p).events@, SyntaxKind::POLICY_DEF),
        old(p).pos < old(p).tokens@.len() ==> final(p).pos > old(p).pos,
        ({
            let t = old(p).tokens@;
            let q1 = next_real(t, old(p).pos + 1);
            let q2 = next_real(t, q1 + 1);
            old(p).pos < t.len() && q1 < t.len() && q2 < t.len() ==> final(p).events@ == binding_head(
                *old(p),
                SyntaxKind::POLICY_DEF,
            ) + tokens_from(q1 + 1, q2) + seq![Event::Token(q2 as usize), Event::Finish]
        }),
{
    let ghost start = *p;
    p.start(SyntaxKind::POLICY_DEF);
    let ghost b = *p;
    p.bump();
    let ghost x1 = *p;
    p.skip_trivia();
    let ghost x2 = *p;
    p.bump();
    let ghost x3 = *p;
    p.skip_trivia();
    let ghost x4 = *p;
    p.bump();
    let ghost c = *p;
    proof {
        lemma_step_trans(b, x1, x2);
        lemma_step_trans(b, x2, x3);
        lemma_step_trans(b, x3, x4);
        lemma_step_trans(b, x4, c);
    }
    p.finish();
    proof {
        lemma_wrap(start, b, c, *p, SyntaxKind::POLICY_DEF);
        lemma_wrap_node(start, b, c, *p, SyntaxKind::POLICY_DEF);
        let t = start.tokens@;
        let q1 = next_real(t, start.pos + 1);
        let q2 = next_real(t, q1 + 1);
        if start.pos < t.len() && q1 < t.len() && q2 < t.len() {
            assert(x3.events@ =~= binding_head(start, SyntaxKind::POLICY_DEF));
            assert(p.events@ =~= binding_head(start, SyntaxKind::POLICY_DEF) + tokens_from(q1 + 1, q2)
                + seq![Event::Token(q2 as usize), Event::Finish]);
        }
    }
}

/// The "expected `want`" report at token `i`: it names the real token found
/// there (or the end of the input) and sits at that token's start.
pub open spec fn report_at(toks: Seq<LexedToken>, i: int, want: SyntaxKind) -> ParseDiagnostic {
    let r = next_real(toks, i);
    let j = nth_real(toks, i, 0);
    let at: usize = if j < toks.len() {
        toks[j].range.start
    } else if toks.len() > 0 {
        toks.last().range.end
    } else {
        0
    };
    ParseDiagnostic::ExpectedToken {
        want,
        got: kind_or_eof(
            if r < toks.len() {
                Some(toks[r].kind)
            } else {
                None
            },
        ),
        span: Span { start: at, end: at },
    }
}

/// Events `a..c` are the trivia tokens from the cursor at event `a` up to the
/// next real token.
#[verifier::opaque]
pub open spec fn trivia_at(ev: Seq<Event>, toks: Seq<LexedToken>, a: int, c: int) -> bool {
    let i = token_ids(ev.take(a)).len() as int;
    &&& 0 <= a <= c <= ev.len()
    &&& c - a == next_real(toks, i) - i
    &&& forall|x: int| a <= x < c ==> #[trigger] ev[x] == Event::Token((i + (x - a)) as usize)
}

/// Events `a..b` hold, after the trivia, `want`'s token; or in its place an
/// empty `ERROR` node, with the "expected `want`" report among `ds`, and after
/// it, where recovery skipped tokens, an `ERROR` node of them.
#[verifier::opaque]
pub open spec fn slot(
    ev: Seq<Event>,
    toks: Seq<LexedToken>,
    ds: Seq<ParseDiagnostic>,
    a: int,
    b: int,
    want: SyntaxKind,
) -> bool {
    let i = token_ids(ev.take(a)).len() as int;
    let r = next_real(toks, i);
    let c = a + (r - i);
    &&& trivia_at(ev, toks, a, c)
    &&& c < b <= ev.len()
    &&& (b == c + 1 && r < toks.len() && toks[r].kind == want && ev[c] == Event::Token(r as usize))
        || (c + 2 <= b && ev[c] == Event::Start(SyntaxKind::ERROR) && ev[c + 1] == Event::Finish
        && ds.contains(report_at(toks, i, want)) && (b == c + 2 || (c + 4 <= b && ev[c + 2]
        == Event::Start(SyntaxKind::ERROR) && ev[b - 1] == Event::Finish && forall|x: int|
        c + 3 <= x < b - 1 ==> #[trigger] ev[x] is Token)))
}

/// Events `x..y` hold, after the trivia, a `,`, then a name slot; or, where a
/// `}` follows the comma, only the trivia before it.
#[verifier::opaque]
pub open spec fn comma_item(
    ev: Seq<Event>,
    toks: Seq<LexedToken>,
    ds: Seq<ParseDiagnostic>,
    x: int,
    y: int,
) -> bool {
    let i = token_ids(ev.take(x)).len() as int;
    let r = next_real(toks, i);
    let c = x + (r - i);
    &&& trivia_at(ev, toks, x, c)
    &&& c < y <= ev.len()
    &&& r < toks.len() && toks[r].kind == SyntaxKind::COMMA && ev[c] == Event::Token(r as usize)
    &&& slot(ev, toks, ds, c + 1, y, SyntaxKind::IDENT) || (trivia_at(ev, toks, c + 1, y) && {
        let r2 = next_real(toks, token_ids(ev.take(c + 1)).len() as int);
        r2 < toks.len() && toks[r2].kind == SyntaxKind::RBRACE
    })
}

/// A name slot from `bs[0]`, then a comma item between each later pair of
/// bounds.
pub open spec fn names_core(
    ev: Seq<Event>,
    toks: Seq<LexedToken>,
    ds: Seq<ParseDiagnostic>,
    bs: Seq<int>,
) -> bool {
    &&& bs.len() >= 2
    &&& slot(ev, toks, ds, bs[0], bs[1], SyntaxKind::IDENT)
    &&& forall|k: int| 1 <= k < bs.len() - 1 ==> #[trigger] comma_item(ev, toks, ds, bs[k], bs[k + 1])
}

/// Events `a..b` are a list of names split at the bounds `bs`, then the
/// trivia before what follows it.
pub open spec fn names_by(
    ev: Seq<Event>,
    toks: Seq<LexedToken>,
    ds: Seq<ParseDiagnostic>,
    a: int,
    b: int,
    bs: Seq<int>,
) -> bool {
    &&& names_core(ev, toks, ds, bs)
    &&& bs[0] == a
    &&& forall|k: int| 0 <= k < bs.len() ==> #[trigger] bs[k] <= ev.len()
    &&& trivia_at(ev, toks, bs.last(), b)
}

/// Events `a..b` are `IDENT (, IDENT)*` with an optional trailing comma: each
/// name is its token or the "expected `IDENT`" report, each separator a `,`.
#[verifier::opaque]
pub open spec fn name_list(
    ev: Seq<Event>,
    toks: Seq<LexedToken>,
    ds: Seq<ParseDiagnostic>,
    a: int,
    b: int,
) -> bool {
    exists|bs: Seq<int>| #[trigger] names_by(ev, toks, ds, a, b, bs)
}

/// What `expect_or_recover` made of `want` from `m` to `n`, where `m` is `o`
/// with some of the trivia at its cursor taken, is a slot from `o`.
proof fn lemma_slot_from(
    o: Parser,
    m: Parser,
    n: Parser,
    want: SyntaxKind,
    anchors: Seq<SyntaxKind>,
)
    requires
        inv(o),
        inv(m),
        m.tokens@ == o.tokens@,
        n.tokens@ == o.tokens@,
        o.pos <= m.pos,
        next_real(o.tokens@, m.pos as int) == next_real(o.tokens@, o.pos as int),
        m.events@ == o.events@ + tokens_from(o.pos as int, m.pos as int),
        real_kind(m) == Some(want) ==> n.events@ == skipped(m).push(
            Event::Token(next_real(m.tokens@, m.pos as int) as usize),
        ),
        real_kind(m) != Some(want) && at_anchor_kind(real_kind(m), anchors) ==> n.diagnostics@
            == m.diagnostics@.push(expected_report(m, want)) && n.events@ == skipped(m) + seq![
            Event::Start(SyntaxKind::ERROR),
            Event::Finish,
        ],
        real_kind(m) != Some(want) && !at_anchor_kind(real_kind(m), anchors) ==> n.diagnostics@
            == m.diagnostics@.push(expected_report(m, want)).push(
            ParseDiagnostic::UnexpectedToken {
                span: Span { start: span_start(m), end: span_start(n) },
            },
        ) && n.events@ == skipped(m) + seq![
            Event::Start(SyntaxKind::ERROR),
            Event::Finish,
            Event::Start(SyntaxKind::ERROR),
        ] + tokens_from(next_real(m.tokens@, m.pos as int), n.pos as int) + seq![Event::Finish],
    ensures
        slot(n.events@, o.tokens@, n.diagnostics@, o.events@.len() as int, n.events@.len() as int, want),
{
    reveal(slot);
    reveal(trivia_at);
    let toks = o.tokens@;
    let ev = n.events@;
    let a = o.events@.len() as int;
    let i = o.pos as int;
    let r = next_real(toks, i);
    lemma_next_real(toks, i);
    lemma_next_real(toks, m.pos as int);
    lemma_nth_zero(toks, i);
    lemma_nth_zero(toks, m.pos as int);
    let sk = o.events@ + tokens_from(i, r);
    assert(skipped(m) =~= sk);
    assert(ev.take(a) =~= o.events@) by {
        assert(ev.take(sk.len() as int) == sk || ev.len() >= sk.len());
        assert forall|x: int| 0 <= x < a implies ev[x] == o.events@[x] by {
            assert(ev[x] == sk[x]);
        }
    }
    assert(token_ids(o.events@).len() == i);
    let c = a + (r - i);
    assert forall|x: int| a <= x < c implies #[trigger] ev[x] == Event::Token((i + (x - a)) as usize) by {
        assert(ev[x] == sk[x]);
    }
    assert(expected_report(m, want) == report_at(toks, i, want));
    if real_kind(m) == Some(want) {
        assert(ev[c] == Event::Token(r as usize));
    } else if at_anchor_kind(real_kind(m), anchors) {
        assert(n.diagnostics@.last() == report_at(toks, i, want));
        assert(n.diagnostics@.contains(report_at(toks, i, want)));
        assert(ev[c] == Event::Start(SyntaxKind::ERROR));
        assert(ev[c + 1] == Event::Finish);
    } else {
        let d1 = m.diagnostics@.push(expected_report(m, want));
        assert(n.diagnostics@[d1.len() - 1] == report_at(toks, i, want));
        assert(n.diagnostics@.contains(report_at(toks, i, want)));
        assert(ev[c] == Event::Start(SyntaxKind::ERROR));
        assert(ev[c + 1] == Event::Finish);
        assert(ev[c + 2] == Event::Start(SyntaxKind::ERROR));
        let b = ev.len() as int;
        assert forall|x: int| c + 3 <= x < b - 1 implies #[trigger] ev[x] is Token by {
            assert(ev[x] == tokens_from(r, n.pos as int)[x - c - 3]);
        }
    }
}

/// Appending events and reports keeps a slot.
proof fn lemma_slot_extend(
    ev: Seq<Event>,
    ev2: Seq<Event>,
    toks: Seq<LexedToken>,
    ds: Seq<ParseDiagnostic>,
    ds2: Seq<ParseDiagnostic>,
    a: int,
    b: int,
    want: SyntaxKind,
)
    requires
        slot(ev, toks, ds, a, b, want),
        ev.len() <= ev2.len(),
        ev2.take(ev.len() as int) == ev,
        keeps_reports(ds, ds2),
    ensures
        slot(ev2, toks, ds2, a, b, want),
{
    reveal(slot);
    reveal(trivia_at);
    assert forall|x: int| 0 <= x < ev.len() implies #[trigger] ev2[x] == ev[x] by {
        assert(ev2.take(ev.len() as int)[x] == ev2[x]);
    }
    assert(ev2.take(a) =~= ev.take(a));
    let i = token_ids(ev.take(a)).len() as int;
    if ds.contains(report_at(toks, i, want)) {
        let q = choose|q: int| 0 <= q < ds.len() && ds[q] == report_at(toks, i, want);
        assert(ds2[q] == ds[q]);
    }
}

/// Appending events and reports keeps trivia in place.
proof fn lemma_trivia_extend(ev: Seq<Event>, ev2: Seq<Event>, toks: Seq<LexedToken>, a: int, c: int)
    requires
        trivia_at(ev, toks, a, c),
        ev.len() <= ev2.len(),
        ev2.take(ev.len() as int) == ev,
    ensures
        trivia_at(ev2, toks, a, c),
{
    reveal(trivia_at);
    assert forall|x: int| 0 <= x < ev.len() implies #[trigger] ev2[x] == ev[x] by {
        assert(ev2.take(ev.len() as int)[x] == ev2[x]);
    }
    assert(ev2.take(a) =~= ev.take(a));
}

/// Appending events and reports keeps a comma item.
proof fn lemma_comma_extend(
    ev: Seq<Event>,
    ev2: Seq<Event>,
    toks: Seq<LexedToken>,
    ds: Seq<ParseDiagnostic>,
    ds2: Seq<ParseDiagnostic>,
    x: int,
    y: int,
)
    requires
        comma_item(ev, toks, ds, x, y),
        ev.len() <= ev2.len(),
        ev2.take(ev.len() as int) == ev,
        keeps_reports(ds, ds2),
    ensures
        comma_item(ev2, toks, ds2, x, y),
{
    reveal(comma_item);
    reveal(trivia_at);
    assert forall|z: int| 0 <= z < ev.len() implies #[trigger] ev2[z] == ev[z] by {
        assert(ev2.take(ev.len() as int)[z] == ev2[z]);
    }
    assert(ev2.take(x) =~= ev.take(x));
    let i = token_ids(ev.take(x)).len() as int;
    let c = x + (next_real(toks, i) - i);
    lemma_trivia_extend(ev, ev2, toks, x, c);
    assert(ev2.take(c + 1) =~= ev.take(c + 1));
    if slot(ev, toks, ds, c + 1, y, SyntaxKind::IDENT) {
        lemma_slot_extend(ev, ev2, toks, ds, ds2, c + 1, y, SyntaxKind::IDENT);
    } else {
        lemma_trivia_extend(ev, ev2, toks, c + 1, y);
    }
}

/// Appending events and reports keeps a list's slot and comma items.
proof fn lemma_core_extend(
    ev: Seq<Event>,
    ev2: Seq<Event>,
    toks: Seq<LexedToken>,
    ds: Seq<ParseDiagnostic>,
    ds2: Seq<ParseDiagnostic>,
    bs: Seq<int>,
)
    requires
        names_core(ev, toks, ds, bs),
        forall|k: int| 0 <= k < bs.len() ==> #[trigger] bs[k] <= ev.len(),
        ev.len() <= ev2.len(),
        ev2.take(ev.len() as int) == ev,
        keeps_reports(ds, ds2),
    ensures
        names_core(ev2, toks, ds2, bs),
{
    lemma_slot_extend(ev, ev2, toks, ds, ds2, bs[0], bs[1], SyntaxKind::IDENT);
    assert forall|k: int| 1 <= k < bs.len() - 1 implies #[trigger] comma_item(
        ev2,
        toks,
        ds2,
        bs[k],
        bs[k + 1],
    ) by {
        lemma_comma_extend(ev, ev2, toks, ds, ds2, bs[k], bs[k + 1]);
    }
}

/// The trivia `skip_trivia` took from `o` to `m` lies in place in `ev`.
proof fn lemma_trivia_run(o: Parser, m: Parser, ev: Seq<Event>)
    requires
        inv(o),
        m.pos == next_real(o.tokens@, o.pos as int),
        m.events@ == o.events@ + tokens_from(o.pos as int, m.pos as int),
        m.events@.len() <= ev.len(),
        ev.take(m.events@.len() as int) == m.events@,
    ensures
        trivia_at(ev, o.tokens@, o.events@.len() as int, m.events@.len() as int),
{
    reveal(trivia_at);
    lemma_next_real(o.tokens@, o.pos as int);
    let a = o.events@.len() as int;
    assert forall|x: int| 0 <= x < m.events@.len() implies #[trigger] ev[x] == m.events@[x] by {
        assert(ev.take(m.events@.len() as int)[x] == ev[x]);
    }
    assert(ev.take(a) =~= o.events@);
    assert forall|x: int| a <= x < m.events@.len() implies #[trigger] ev[x] == Event::Token(
        (o.pos + (x - a)) as usize,
    ) by {
        assert(m.events@[x] == tokens_from(o.pos as int, m.pos as int)[x - a]);
    }
}

/// Appending events and reports keeps a list of names.
proof fn lemma_names_extend(
    ev: Seq<Event>,
    ev2: Seq<Event>,
    toks: Seq<LexedToken>,
    ds: Seq<ParseDiagnostic>,
    ds2: Seq<ParseDiagnostic>,
    a: int,
    b: int,
)
    requires
        name_list(ev, toks, ds, a, b),
        ev.len() <= ev2.len(),
        ev2.take(ev.len() as int) == ev,
        keeps_reports(ds, ds2),
    ensures
        name_list(ev2, toks, ds2, a, b),
{
    reveal(name_list);
    let bs = choose|bs: Seq<int>| #[trigger] names_by(ev, toks, ds, a, b, bs);
    lemma_core_extend(ev, ev2, toks, ds, ds2, bs);
    lemma_trivia_extend(ev, ev2, toks, bs.last(), b);
    assert(names_by(ev2, toks, ds2, a, b, bs));
}

/// After the `type` keyword at event `k`: the `{` slot, the list of names,
/// the `}` slot, then the `:=` slot.
pub open spec fn type_braces(
    ev: Seq<Event>,
    toks: Seq<LexedToken>,
    ds: Seq<ParseDiagnostic>,
    k: int,
    a1: int,
    a2: int,
    a3: int,
    a4: int,
) -> bool {
    &&& slot(ev, toks, ds, k + 1, a1, SyntaxKind::LBRACE)
    &&& name_list(ev, toks, ds, a1, a2)
    &&& slot(ev, toks, ds, a2, a3, SyntaxKind::RBRACE)
    &&& slot(ev, toks, ds, a3, a4, SyntaxKind::DEFINE)
}

/// At a real token, no trivia lies ahead of the cursor.
proof fn lemma_trivia_none(o: Parser)
    requires
        inv(o),
        cur(o) matches Some(k) && !is_trivia(k),
    ensures
        trivia_at(o.events@, o.tokens@, o.events@.len() as int, o.events@.len() as int),
{
    reveal(trivia_at);
    lemma_next_real_here(o.tokens@, o.pos as int);
    assert(o.events@.take(o.events@.len() as int) =~= o.events@);
}

/// A `,` taken at `it2` (after the trivia from `it`), the trivia after it up
/// to `it4`, then a name slot or the `}` that closes the list: a comma item.
proof fn lemma_comma_from(it: Parser, it2: Parser, it3: Parser, it4: Parser, n: Parser)
    requires
        inv(it),
        inv(it3),
        it2.tokens@ == it.tokens@,
        it3.tokens@ == it.tokens@,
        it4.tokens@ == it.tokens@,
        n.tokens@ == it.tokens@,
        it2.pos == next_real(it.tokens@, it.pos as int),
        it2.events@ == it.events@ + tokens_from(it.pos as int, it2.pos as int),
        it2.pos < it.tokens@.len(),
        it.tokens@[it2.pos as int].kind == SyntaxKind::COMMA,
        it3.events@ == it2.events@.push(Event::Token(it2.pos)),
        it3.pos == it2.pos + 1,
        it4.pos == next_real(it.tokens@, it3.pos as int),
        it4.events@ == it3.events@ + tokens_from(it3.pos as int, it4.pos as int),
        it4.events@.len() <= n.events@.len(),
        n.events@.take(it4.events@.len() as int) == it4.events@,
        (cur(it4) == Some(SyntaxKind::RBRACE) && n.events@ == it4.events@) || slot(
            n.events@,
            it.tokens@,
            n.diagnostics@,
            it3.events@.len() as int,
            n.events@.len() as int,
            SyntaxKind::IDENT,
        ),
    ensures
        comma_item(n.events@, it.tokens@, n.diagnostics@, it.events@.len() as int, n.events@.len() as int),
{
    reveal(comma_item);
    reveal(trivia_at);
    let toks = it.tokens@;
    let ev = n.events@;
    assert forall|x: int| 0 <= x < it4.events@.len() implies #[trigger] ev[x] == it4.events@[x] by {
        assert(ev.take(it4.events@.len() as int)[x] == ev[x]);
    }
    assert(ev.take(it2.events@.len() as int) =~= it2.events@);
    lemma_trivia_run(it, it2, ev);
    lemma_next_real(toks, it.pos as int);
    assert(ev.take(it.events@.len() as int) =~= it.events@);
    assert(token_ids(it.events@).len() == it.pos);
    let c = it2.events@.len() as int;
    assert(c == it.events@.len() + (it2.pos - it.pos));
    assert(ev[c] == it3.events@[c]);
    assert(ev.take(c + 1) =~= it3.events@);
    assert(token_ids(it3.events@).len() == it3.pos);
    if !slot(ev, toks, n.diagnostics@, c + 1, ev.len() as int, SyntaxKind::IDENT) {
        assert(ev.take(it4.events@.len() as int) =~= it4.events@);
        lemma_trivia_run(it3, it4, ev);
        lemma_next_real(toks, it3.pos as int);
        lemma_next_real_here(toks, it4.pos as int);
        assert(toks[it4.pos as int].kind == SyntaxKind::RBRACE);
        assert(it4.events@.len() == ev.len());
    }
}

/// `IDENT (COMMA IDENT)*` with an optional trailing comma, the list inside
/// the braces of a destructuring binding.
pub fn parse_name_list(p: &mut Parser)
    requires
        inv(*old(p)),
    ensures
        adds_no_malformed(old(p).diagnostics@, final(p).diagnostics@),
        step(*old(p), *final(p)),
        name_list(
            final(p).events@,
            final(p).tokens@,
            final(p).diagnostics@,
            old(p).events@.len() as int,
            final(p).events@.len() as int,
        ),
{
    let ghost start = *p;
    let ghost toks = start.tokens@;
    let ghost a = start.events@.len() as int;
    let anchors = [SyntaxKind::COMMA, SyntaxKind::RBRACE];
    expect_or_recover(p, SyntaxKind::IDENT, &anchors);
    proof {
        lemma_slot_from(start, start, *p, SyntaxKind::IDENT, anchors@);
    }
    let ghost mut bs: Seq<int> = seq![a, p.events@.len() as int];
    loop
        invariant_except_break
            bs.last() == p.events@.len(),
        invariant
            step(start, *p),
            adds_no_malformed(start.diagnostics@, p.diagnostics@),
            toks == start.tokens@,
            a == start.events@.len(),
            names_core(p.events@, toks, p.diagnostics@, bs),
            bs[0] == a,
            forall|k: int| 0 <= k < bs.len() ==> #[trigger] bs[k] <= p.events@.len(),
        ensures
            names_by(p.events@, toks, p.diagnostics@, a, p.events@.len() as int, bs),
        decreases rem(*p),
    {
        let ghost it = *p;
        p.skip_trivia();
        let ghost it2 = *p;
        proof {
            lemma_step_trans(start, it, it2);
            lemma_nm(start, it, it2);
            lemma_core_extend(it.events@, it2.events@, toks, it.diagnostics@, it2.diagnostics@, bs);
        }
        if p.current() != Some(SyntaxKind::COMMA) {
            proof {
                assert(it2.events@.take(it2.events@.len() as int) =~= it2.events@);
                lemma_trivia_run(it, it2, it2.events@);
            }
            break;
        }
        p.bump();
        let ghost it3 = *p;
        p.skip_trivia();
        let ghost it4 = *p;
        proof {
            lemma_step_trans(start, it2, it3);
            lemma_step_trans(start, it3, it4);
            lemma_nm(start, it2, it3);
            lemma_nm(start, it3, it4);
        }
        if p.current() == Some(SyntaxKind::RBRACE) {
            proof {
                assert(it4.events@.take(it2.events@.len() as int) =~= it2.events@);
                assert(it4.events@.take(it4.events@.len() as int) =~= it4.events@);
                lemma_core_extend(it2.events@, it4.events@, toks, it2.diagnostics@, it4.diagnostics@, bs);
                lemma_comma_from(it, it2, it3, it4, it4);
                let b0 = bs;
                bs = bs.push(it4.events@.len() as int);
                assert(names_core(p.events@, toks, p.diagnostics@, bs)) by {
                    assert forall|k: int| 1 <= k < bs.len() - 1 implies #[trigger] comma_item(
                        p.events@,
                        toks,
                        p.diagnostics@,
                        bs[k],
                        bs[k + 1],
                    ) by {
                        if k < b0.len() - 1 {
                            assert(bs[k] == b0[k] && bs[k + 1] == b0[k + 1]);
                        }
                    }
                }
                lemma_trivia_none(it4);
            }
            break;
        }
        expect_or_recover(p, SyntaxKind::IDENT, &anchors);
        proof {
            lemma_step_trans(start, it4, *p);
            lemma_nm(start, it4, *p);
            lemma_next_real_here(toks, it3.pos as int);
            lemma_slot_from(it3, it4, *p, SyntaxKind::IDENT, anchors@);
            assert(p.events@.take(it4.events@.len() as int) == it4.events@);
            assert(p.events@.take(it2.events@.len() as int) =~= it2.events@);
            lemma_core_extend(it2.events@, p.events@, toks, it2.diagnostics@, p.diagnostics@, bs);
            lemma_comma_from(it, it2, it3, it4, *p);
            let b0 = bs;
            bs = bs.push(p.events@.len() as int);
            assert(names_core(p.events@, toks, p.diagnostics@, bs)) by {
                assert forall|k: int| 1 <= k < bs.len() - 1 implies #[trigger] comma_item(
                    p.events@,
                    toks,
                    p.diagnostics@,
                    bs[k],
                    bs[k + 1],
                ) by {
                    if k < b0.len() - 1 {
                        assert(bs[k] == b0[k] && bs[k + 1] == b0[k + 1]);
                    }
                }
            }
        }
    }
    proof {
        reveal(name_list);
    }
}

/// After the `{` at event `a1 - 1`: the list of names, the `}` slot, then
/// the `:=` slot.
pub open spec fn source_braces(
    ev: Seq<Event>,
    toks: Seq<LexedToken>,
    ds: Seq<ParseDiagnostic>,
    a1: int,
    a2: int,
    a3: int,
    a4: int,
) -> bool {
    &&& name_list(ev, toks, ds, a1, a2)
    &&& slot(ev, toks, ds, a2, a3, SyntaxKind::RBRACE)
    &&& slot(ev, toks, ds, a3, a4, SyntaxKind::DEFINE)
}

/// `{ A, B, … } := Expression`, under a `MULTI_SOURCE_DEF` node; the cursor
/// is at the `{`. The `{` is taken, then the names split by commas, the `}`
/// and the `:=`, each of them its token or, in its place, the report that it
/// was expected.
#[verifier::rlimit(60)]
#[verifier::spinoff_prover]
pub fn parse_multi_source_def(p: &mut Parser)
    requires
        inv(*old(p)),
    ensures
        keeps_reports(old(p).diagnostics@, final(p).diagnostics@),
        step(*old(p), *final(p)),
        wraps(old(p).events@, final(p).events@, SyntaxKind::MULTI_SOURCE_DEF),
        old(p).pos < old(p).tokens@.len() ==> final(p).pos > old(p).pos && final(p).events@[old(
            p,
        ).events@.len() + 1int] == Event::Token(old(p).pos),
        ends_with(final(p).events@, old(p).events@.len() as int, SyntaxKind::EXPR),
        old(p).pos < old(p).tokens@.len() ==> exists|a2: int, a3: int, a4: int|
            #[trigger] source_braces(
                final(p).events@,
                final(p).tokens@,
                final(p).diagnostics@,
                old(p).events@.len() + 2int,
                a2,
                a3,
                a4,
            ),
{
    let ghost start = *p;
    let top = top_level_anchors();
    p.start(SyntaxKind::MULTI_SOURCE_DEF);
    let ghost b = *p;
    p.bump();
    let ghost x1 = *p;
    parse_name_list(p);
    let ghost x2 = *p;
    expect_or_recover(p, SyntaxKind::RBRACE, top.as_slice());
    let ghost x3 = *p;
    proof {
        assert(x2.events@ + tokens_from(x2.pos as int, x2.pos as int) =~= x2.events@);
        lemma_slot_from(x2, x2, x3, SyntaxKind::RBRACE, top@);
    }
    p.skip_trivia();
    let ghost x4 = *p;
    expect_or_recover(p, SyntaxKind::DEFINE, top.as_slice());
    let ghost x5 = *p;
    proof {
        lemma_next_real_here(x3.tokens@, x3.pos as int);
        lemma_slot_from(x3, x4, x5, SyntaxKind::DEFINE, top@);
    }
    parse_expr(p);
    let ghost c = *p;
    proof {
        lemma_step_trans(b, x1, x2);
        lemma_step_trans(b, x2, x3);
        lemma_step_trans(b, x3, x4);
        lemma_step_trans(b, x4, x5);
        lemma_step_trans(b, x5, c);
    }
    p.finish();
    proof {
        lemma_wrap(start, b, c, *p, SyntaxKind::MULTI_SOURCE_DEF);
        lemma_wrap_node(start, b, c, *p, SyntaxKind::MULTI_SOURCE_DEF);
        lemma_ends_with(x5.events@, c.events@, p.events@, start.events@.len() as int, SyntaxKind::EXPR);
        lemma_step_trans(x2, x3, x4);
        lemma_step_trans(x2, x4, x5);
        lemma_step_trans(x2, x5, c);
        lemma_step_trans(x3, x4, x5);
        lemma_step_trans(x3, x5, c);
        lemma_nm(x2, x3, x4);
        lemma_nm(x2, x4, x5);
        lemma_nm(x2, x5, c);
        lemma_nm(x2, c, *p);
        lemma_nm(x3, x4, x5);
        lemma_nm(x3, x5, c);
        lemma_nm(x3, c, *p);
        lemma_nm(x5, c, *p);
        let ev = p.events@;
        assert(ev.take(x2.events@.len() as int) =~= x2.events@);
        assert(ev.take(x3.events@.len() as int) =~= x3.events@);
        assert(ev.take(x5.events@.len() as int) =~= x5.events@);
        lemma_names_extend(x2.events@, ev, p.tokens@, x2.diagnostics@, p.diagnostics@, x1.events@.len() as int, x2.events@.len() as int);
        lemma_slot_extend(x3.events@, ev, p.tokens@, x3.diagnostics@, p.diagnostics@, x2.events@.len() as int, x3.events@.len() as int, SyntaxKind::RBRACE);
        lemma_slot_extend(x5.events@, ev, p.tokens@, x5.diagnostics@, p.diagnostics@, x3.events@.len() as int, x5.events@.len() as int, SyntaxKind::DEFINE);
        if start.pos < start.tokens@.len() {
            assert(x1.events@.len() == start.events@.len() + 2);
            assert(source_braces(ev, p.tokens@, p.diagnostics@, start.events@.len() + 2int, x2.events@.len() as int, x3.events@.len() as int, x5.events@.len() as int));
            assert(ev[start.events@.len() + 1int] == x1.events@[start.events@.len() + 1int]);
        }
    }
}

/// `RenameAttr* type { A, B, … } := Expression`, under a `TYPE_DEF` node,
/// each `@rename` a child of it. After `type` come the `{`, the names split
/// by commas, the `}` and the `:=`, each of them its token or, in its place,
/// the report that it was expected. Without the `type` after the attributes
/// the binding is reported missing and the node ends there.
#[verifier::rlimit(80)]
#[verifier::spinoff_prover]
pub fn parse_type_def(p: &mut Parser)
    requires
        inv(*old(p)),
    ensures
        keeps_reports(old(p).diagnostics@, final(p).diagnostics@),
        step(*old(p), *final(p)),
        wraps(old(p).events@, final(p).events@, SyntaxKind::TYPE_DEF),
        real_kind(*old(p)) == Some(SyntaxKind::AT_ATTR) || (real_kind(*old(p)) == Some(
            SyntaxKind::IDENT,
        ) && real_text_is(*old(p), "type"@)) ==> final(p).pos > old(p).pos,
        binding_keyword(final(p).events@, old(p).events@.len() as int, final(p).tokens@) ==> ends_with(
            final(p).events@,
            old(p).events@.len() as int,
            SyntaxKind::EXPR,
        ) && adds_no_missing(old(p).diagnostics@, final(p).diagnostics@) && exists|
            k: int,
            a1: int,
            a2: int,
            a3: int,
            a4: int,
        |
            old(p).events@.len() < k && keyword_token(final(p).events@[k], final(p).tokens@) && depth(
                final(p).events@.take(k),
            ) == depth(old(p).events@) + 1 && #[trigger] type_braces(
                final(p).events@,
                final(p).tokens@,
                final(p).diagnostics@,
                k,
                a1,
                a2,
                a3,
                a4,
            ),
        !binding_keyword(final(p).events@, old(p).events@.len() as int, final(p).tokens@) ==> {
            &&& final(p).diagnostics@.len() > old(p).diagnostics@.len()
            &&& missing_binding(final(p).diagnostics@.last())
            &&& adds_no_missing(old(p).diagnostics@, final(p).diagnostics@.drop_last())
            &&& direct_trivia(
                final(p).events@,
                old(p).events@.len() + 1int,
                depth(old(p).events@) + 1,
                final(p).tokens@,
            )
            &&& real_kind(*final(p)) != Some(SyntaxKind::AT_ATTR)
            &&& !(real_kind(*final(p)) == Some(SyntaxKind::IDENT) && real_text_is(*final(p), "type"@))
        },
{
    let ghost start = *p;
    p.start(SyntaxKind::TYPE_DEF);
    let ghost b = *p;
    proof {
        lemma_step_refl(b);
        lemma_next_real_here(start.tokens@, start.pos as int);
    }
    proof {
        lemma_no_missing_from(start, b);
    }
    let ghost o = start.events@.len() as int;
    let ghost dd = depth(b.events@);
    let ghost toks = b.tokens@;
    loop
        invariant
            step(b, *p),
            b.pos == start.pos,
            b.tokens@ == start.tokens@,
            toks == b.tokens@,
            o + 1 == b.events@.len(),
            dd == depth(b.events@),
            direct_trivia(p.events@, o + 1, dd, toks),
            adds_no_missing(start.diagnostics@, p.diagnostics@),
        ensures
            step(b, *p),
            p.pos > start.pos || (p.pos == next_real(start.tokens@, start.pos as int) && cur(*p)
                != Some(SyntaxKind::AT_ATTR)),
            cur(*p) != Some(SyntaxKind::AT_ATTR),
            next_real(p.tokens@, p.pos as int) == p.pos,
            direct_trivia(p.events@, o + 1, dd, toks),
            adds_no_missing(start.diagnostics@, p.diagnostics@),
        decreases rem(*p),
    {
        let ghost it = *p;
        p.skip_trivia();
        let ghost it2 = *p;
        proof {
            lemma_step_trans(b, it, it2);
            lemma_trivia_direct(it, it2, o + 1, dd);
            lemma_no_missing_from(it, it2);
            lemma_no_missing_trans(start, it, it2);
            lemma_next_real_here(it.tokens@, it.pos as int);
        }
        if p.current() != Some(SyntaxKind::AT_ATTR) {
            break;
        }
        parse_rename_attr(p);
        proof {
            lemma_step_trans(b, it2, *p);
            lemma_node_direct(it2.events@, p.events@, o + 1, dd, toks);
            lemma_no_missing_trans(start, it2, *p);
        }
    }
    let ghost y = *p;
    p.skip_trivia();
    let ghost y2 = *p;
    proof {
        lemma_trivia_direct(y, y2, o + 1, dd);
        lemma_no_missing_from(y, y2);
        lemma_no_missing_trans(start, y, y2);
        assert(y2.pos == y.pos);
        lemma_step_trans(b, y, y2);
        lemma_next_real_here(y.tokens@, y.pos as int);
        lemma_nth_zero(y2.tokens@, y2.pos as int);
        lemma_next_real_here(y2.tokens@, y2.pos as int);
    }
    if p.current() == Some(SyntaxKind::IDENT) && p.current_text_is("type") {
        p.bump();
        proof {
            lemma_step_trans(b, y2, *p);
        }
    } else {
        malformed(p, MISSING_TYPE_BINDING);
        let ghost c = *p;
        proof {
            assert(c.events@ == y2.events@);
            lemma_step_trans(b, y2, c);
            lemma_depth_nonneg(start.events@);
        }
        p.finish();
        proof {
            lemma_wrap(start, b, c, *p, SyntaxKind::TYPE_DEF);
            lemma_wrap_node(start, b, c, *p, SyntaxKind::TYPE_DEF);
            lemma_push(c.events@, Event::Finish);
            assert(c.events@.take(o + 1) == b.events@);
            assert(c.events@.take(o) =~= start.events@) by {
                assert(c.events@.take(o) =~= c.events@.take(o + 1).take(o));
                assert(b.events@.take(o) =~= start.events@);
            }
            lemma_no_keyword(c.events@, p.events@, o, dd, toks, start.events@);
            assert forall|j: int| o + 1 <= j < p.events@.len() && depth(p.events@.take(j)) == dd implies (
            #[trigger] p.events@[j] matches Event::Token(t) ==> t < toks.len() && is_trivia(
                toks[t as int].kind,
            )) by {
                if j < c.events@.len() {
                    assert(p.events@.take(j) =~= c.events@.take(j));
                    assert(p.events@[j] == c.events@[j]);
                }
            }
            assert(p.diagnostics@.drop_last() == y2.diagnostics@);
            assert forall|i: int| 0 <= i < start.diagnostics@.len() implies #[trigger] p.diagnostics@[i]
                == start.diagnostics@[i] by {
                assert(p.diagnostics@[i] == p.diagnostics@.drop_last()[i]);
            }
        }
        return;
    }
    let top = top_level_anchors();
    let ghost z0 = *p;
    proof {
        assert(z0.events@ == y2.events@.push(Event::Token(y2.pos)));
    }
    p.skip_trivia();
    let ghost z1 = *p;
    expect_or_recover(p, SyntaxKind::LBRACE, top.as_slice());
    let ghost z2 = *p;
    proof {
        lemma_next_real_here(z0.tokens@, z0.pos as int);
        lemma_slot_from(z0, z1, z2, SyntaxKind::LBRACE, top@);
    }
    parse_name_list(p);
    let ghost z3 = *p;
    expect_or_recover(p, SyntaxKind::RBRACE, top.as_slice());
    let ghost z4 = *p;
    proof {
        assert(z3.events@ + tokens_from(z3.pos as int, z3.pos as int) =~= z3.events@);
        lemma_slot_from(z3, z3, z4, SyntaxKind::RBRACE, top@);
    }
    p.skip_trivia();
    let ghost z5 = *p;
    expect_or_recover(p, SyntaxKind::DEFINE, top.as_slice());
    let ghost z6 = *p;
    proof {
        lemma_next_real_here(z4.tokens@, z4.pos as int);
        lemma_slot_from(z4, z5, z6, SyntaxKind::DEFINE, top@);
    }
    parse_expr(p);
    let ghost c = *p;
    proof {
        lemma_step_trans(b, z0, z1);
        lemma_step_trans(b, z1, z2);
        lemma_step_trans(b, z2, z3);
        lemma_step_trans(b, z3, z4);
        lemma_step_trans(b, z4, z5);
        lemma_step_trans(b, z5, z6);
        lemma_step_trans(b, z6, c);
        lemma_depth_nonneg(start.events@);
    }
    p.finish();
    proof {
        lemma_wrap(start, b, c, *p, SyntaxKind::TYPE_DEF);
        lemma_wrap_node(start, b, c, *p, SyntaxKind::TYPE_DEF);
        lemma_ends_with(z6.events@, c.events@, p.events@, start.events@.len() as int, SyntaxKind::EXPR);
        lemma_nm(y2, z0, z1);
        lemma_nm(y2, z1, z2);
        lemma_nm(y2, z2, z3);
        lemma_nm(y2, z3, z4);
        lemma_nm(y2, z4, z5);
        lemma_nm(y2, z5, z6);
        lemma_nm(y2, z6, c);
        lemma_nm(y2, c, *p);
        lemma_no_missing_from(y2, *p);
        lemma_no_missing_trans(start, y2, *p);
        let j = y2.events@.len() as int;
        assert(p.events@.take(z0.events@.len() as int) == z0.events@);
        assert(p.events@[j] == z0.events@[j]);
        assert(p.events@.take(j) =~= y2.events@) by {
            assert(p.events@.take(j) =~= z0.events@.take(j));
        }
        assert(p.events@.take(o) == start.events@);
        assert(keyword_token(p.events@[j], p.tokens@));
        assert(binding_keyword(p.events@, o, p.tokens@));
        lemma_step_trans(z2, z3, z4);
        lemma_step_trans(z2, z4, z5);
        lemma_step_trans(z2, z5, z6);
        lemma_step_trans(z2, z6, c);
        lemma_step_trans(z3, z4, z5);
        lemma_step_trans(z3, z5, z6);
        lemma_step_trans(z3, z6, c);
        lemma_step_trans(z4, z5, z6);
        lemma_step_trans(z4, z6, c);
        lemma_nm(z2, z3, z4);
        lemma_nm(z2, z4, z5);
        lemma_nm(z2, z5, z6);
        lemma_nm(z2, z6, c);
        lemma_nm(z2, c, *p);
        lemma_nm(z3, z4, z5);
        lemma_nm(z3, z5, z6);
        lemma_nm(z3, z6, c);
        lemma_nm(z3, c, *p);
        lemma_nm(z4, z5, z6);
        lemma_nm(z4, z6, c);
        lemma_nm(z4, c, *p);
        lemma_nm(z6, c, *p);
        let ev = p.events@;
        assert(ev.take(z2.events@.len() as int) =~= z2.events@);
        assert(ev.take(z3.events@.len() as int) =~= z3.events@);
        assert(ev.take(z4.events@.len() as int) =~= z4.events@);
        assert(ev.take(z6.events@.len() as int) =~= z6.events@);
        lemma_slot_extend(z2.events@, ev, p.tokens@, z2.diagnostics@, p.diagnostics@, j + 1, z2.events@.len() as int, SyntaxKind::LBRACE);
        lemma_names_extend(z3.events@, ev, p.tokens@, z3.diagnostics@, p.diagnostics@, z2.events@.len() as int, z3.events@.len() as int);
        lemma_slot_extend(z4.events@, ev, p.tokens@, z4.diagnostics@, p.diagnostics@, z3.events@.len() as int, z4.events@.len() as int, SyntaxKind::RBRACE);
        lemma_slot_extend(z6.events@, ev, p.tokens@, z6.diagnostics@, p.diagnostics@, z4.events@.len() as int, z6.events@.len() as int, SyntaxKind::DEFINE);
        assert(type_braces(ev, p.tokens@, p.diagnostics@, j, z2.events@.len() as int, z3.events@.len() as int, z4.events@.len() as int, z6.events@.len() as int));
    }
}

/// `@rename(Type, "iri" as name, …)`, under a `RENAME_ATTR` node; the cursor
/// is at the attribute. Another attribute name here, or no rename at all, is
/// reported.
pub fn parse_rename_attr(p: &mut Parser)
    requires
        inv(*old(p)),
    ensures
        adds_no_missing(old(p).diagnostics@, final(p).diagnostics@),
        step(*old(p), *final(p)),
        wraps(old(p).events@, final(p).events@, SyntaxKind::RENAME_ATTR),
        old(p).pos < old(p).tokens@.len() ==> final(p).pos > old(p).pos,
{
    let ghost start = *p;
    let rename = rename_anchors();
    let top = top_level_anchors();
    p.start(SyntaxKind::RENAME_ATTR);
    let ghost b = *p;
    proof {
        lemma_step_refl(b);
    }
    if !p.current_text_is("@rename") {
        let found = match p.peek_text(0) {
            Some(t) => String::from_str(t),
            None => String::from_str("@"),
        };
        let mut m = String::from_str("`");
        m.append(found.as_str());
        m.append(WRONG_ATTRIBUTE_TAIL);
        let ghost before = *p;
        malformed(p, m.as_str());
        proof {
            lemma_other_reports(found@);
            assert(p.diagnostics@ == before.diagnostics@.push(p.diagnostics@.last()));
        }
    }
    let ghost x0 = *p;
    proof {
        if x0.diagnostics@ == b.diagnostics@ {
            lemma_no_missing_from(start, x0);
        }
    }
    p.bump();
    let ghost x1 = *p;
    expect_or_recover(p, SyntaxKind::LPAREN, rename.as_slice());
    let ghost x2 = *p;
    expect_or_recover(p, SyntaxKind::IDENT, rename.as_slice());
    let ghost x3 = *p;
    proof {
        lemma_step_trans(b, x0, x1);
        lemma_step_trans(b, x1, x2);
        lemma_step_trans(b, x2, x3);
        lemma_nm(x0, x1, x2);
        lemma_nm(x0, x2, x3);
        lemma_no_missing_from(x0, x3);
        lemma_no_missing_trans(start, x0, x3);
    }
    let mut renames: usize = 0;
    loop
        invariant
            step(b, *p),
            start.pos < start.tokens@.len() ==> p.pos > start.pos,
            b.tokens@ == start.tokens@,
            renames <= p.pos,
            p.pos <= p.tokens@.len(),
            rename@ == seq![
                SyntaxKind::COMMA,
                SyntaxKind::STRING,
                SyntaxKind::RPAREN,
                SyntaxKind::IDENT,
            ],
            adds_no_missing(start.diagnostics@, p.diagnostics@),
        decreases rem(*p),
    {
        let ghost it = *p;
        p.skip_trivia();
        let ghost it2 = *p;
        proof {
            lemma_step_trans(b, it, it2);
            lemma_no_missing_from(it, it2);
            lemma_no_missing_trans(start, it, it2);
        }
        if p.current() != Some(SyntaxKind::COMMA) {
            break;
        }
        p.bump();
        let ghost it3 = *p;
        p.skip_trivia();
        let ghost it4 = *p;
        proof {
            lemma_step_trans(b, it2, it3);
            lemma_step_trans(b, it3, it4);
            lemma_nm(it2, it3, it4);
            lemma_no_missing_from(it2, it4);
            lemma_no_missing_trans(start, it2, it4);
        }
        if p.current() == Some(SyntaxKind::RPAREN) {
            break;
        }
        parse_rename(p);
        proof {
            lemma_step_trans(b, it4, *p);
            lemma_no_missing_trans(start, it4, *p);
        }
        renames = renames + 1;
    }
    if renames == 0 {
        let ghost y = *p;
        malformed(p, EMPTY_RENAME);
        proof {
            lemma_step_trans(b, y, *p);
            lemma_other_reports(Seq::empty());
            assert(p.diagnostics@ == y.diagnostics@.push(p.diagnostics@.last()));
            lemma_no_missing_trans(start, y, *p);
        }
    }
    let ghost y2 = *p;
    expect_or_recover(p, SyntaxKind::RPAREN, top.as_slice());
    let ghost c = *p;
    proof {
        lemma_step_trans(b, y2, c);
        lemma_depth_nonneg(start.events@);
    }
    p.finish();
    proof {
        lemma_nm(y2, c, *p);
        lemma_no_missing_from(y2, *p);
        lemma_no_missing_trans(start, y2, *p);
        lemma_wrap(start, b, c, *p, SyntaxKind::RENAME_ATTR);
        lemma_wrap_node(start, b, c, *p, SyntaxKind::RENAME_ATTR);
    }
}

/// `"iri" as name`, under a `RENAME` node; `as` is told by its text.
pub fn parse_rename(p: &mut Parser)
    requires
        inv(*old(p)),
    ensures
        adds_no_missing(old(p).diagnostics@, final(p).diagnostics@),
        step(*old(p), *final(p)),
        wraps(old(p).events@, final(p).events@, SyntaxKind::RENAME),
{
    let ghost start = *p;
    let rename = rename_anchors();
    p.start(SyntaxKind::RENAME);
    let ghost b = *p;
    expect_or_recover(p, SyntaxKind::STRING, rename.as_slice());
    let ghost x1 = *p;
    p.skip_trivia();
    let ghost x2 = *p;
    proof {
        lemma_step_trans(b, x1, x2);
    }
    proof {
        lemma_nm(start, b, x1);
        lemma_nm(start, x1, x2);
        lemma_no_missing_from(start, x2);
    }
    if p.current() == Some(SyntaxKind::IDENT) && p.current_text_is("as") {
        p.bump();
        proof {
            lemma_no_missing_from(x2, *p);
        }
    } else {
        malformed(p, RENAME_WITHOUT_AS);
        proof {
            lemma_other_reports(Seq::empty());
            assert(p.diagnostics@ == x2.diagnostics@.push(p.diagnostics@.last()));
        }
    }
    let ghost x3 = *p;
    proof {
        lemma_no_missing_trans(start, x2, x3);
    }
    expect_or_recover(p, SyntaxKind::IDENT, rename.as_slice());
    let ghost c = *p;
    proof {
        lemma_step_trans(b, x2, x3);
        lemma_step_trans(b, x3, c);
        lemma_depth_nonneg(start.events@);
    }
    p.finish();
    proof {
        lemma_nm(x3, c, *p);
        lemma_no_missing_from(x3, *p);
        lemma_no_missing_trans(start, x3, *p);
        lemma_wrap(start, b, c, *p, SyntaxKind::RENAME);
        lemma_wrap_node(start, b, c, *p, SyntaxKind::RENAME);
    }
}

/// A mapping built from its header, the trivia after it, and, where an
/// `INDENT` follows, that token and the body: the mapping's parts.
proof fn lemma_mapping_assembled(
    start: Parser,
    b: Parser,
    x1: Parser,
    x2: Parser,
    c: Parser,
    d: Parser,
    yev: Seq<Event>,
    eb: int,
)
    requires
        inv(start),
        b.events@ == start.events@.push(Event::Start(SyntaxKind::MAPPING)),
        inv(x1),
        header_shaped(
            x1.events@,
            x1.tokens@,
            x1.diagnostics@,
            b.events@.len() as int,
            x1.events@.len() as int,
        ),
        x2.pos == next_real(x1.tokens@, x1.pos as int),
        x2.events@ == x1.events@ + tokens_from(x1.pos as int, x2.pos as int),
        x2.tokens@ == x1.tokens@,
        step(x2, c),
        d.tokens@ == x1.tokens@,
        d.events@ == c.events@.push(Event::Finish),
        keeps_reports(x1.diagnostics@, d.diagnostics@),
        wraps(start.events@, d.events@, SyntaxKind::MAPPING),
        d.events@.take(start.events@.len() as int) == start.events@,
        cur(x2) == Some(SyntaxKind::INDENT) ==> yev.len() <= c.events@.len() && c.events@.take(
            yev.len() as int,
        ) == yev && yev[x2.events@.len() as int] == Event::Token(x2.pos) && node_span(
            yev,
            x2.events@.len() + 1int,
            eb,
            SyntaxKind::MAPPING_BODY,
        ) && eb == yev.len() && nodes_at(
            yev,
            x2.events@.len() + 2int,
            depth(yev.take(x2.events@.len() + 1int)) + 1,
            |k: SyntaxKind| body_kind(k),
        ) && lines_dispatched(
            yev,
            x2.events@.len() + 2int,
            depth(yev.take(x2.events@.len() + 1int)) + 1,
            x1.tokens@,
        ) && props_shaped(
            yev,
            x2.events@.len() + 2int,
            depth(yev.take(x2.events@.len() + 1int)) + 1,
            x1.tokens@,
        ),
    ensures
        mapping_shaped(
            d.events@,
            d.tokens@,
            d.diagnostics@,
            start.events@.len() as int,
            d.events@.len() as int,
        ),
{
    let ev = d.events@;
    let toks = x1.tokens@;
    let ds = d.diagnostics@;
    let h = x1.events@.len() as int;
    assert(ev.take(c.events@.len() as int) =~= c.events@);
    assert(ev.take(x2.events@.len() as int) =~= x2.events@) by {
        assert(c.events@.take(x2.events@.len() as int) == x2.events@);
    }
    assert(ev.take(h) =~= x1.events@) by {
        assert(x2.events@.take(h) =~= x1.events@);
    }
    lemma_header_extend(x1.events@, ev, toks, x1.diagnostics@, ds, b.events@.len() as int, h);
    lemma_trivia_run(x1, x2, ev);
    assert(token_ids(ev.take(h)).len() == x1.pos);
    lemma_next_real(toks, x1.pos as int);
    let r = next_real(toks, x1.pos as int);
    if r < toks.len() && toks[r].kind == SyntaxKind::INDENT {
        assert(cur(x2) == Some(SyntaxKind::INDENT));
        assert(ev.take(yev.len() as int) =~= yev) by {
            assert(ev.take(c.events@.len() as int).take(yev.len() as int) =~= ev.take(
                yev.len() as int,
            ));
        }
        assert(ev[x2.events@.len() as int] == yev[x2.events@.len() as int]) by {
            assert(ev.take(yev.len() as int)[x2.events@.len() as int] == ev[x2.events@.len() as int]);
        }
        lemma_span_extend(yev, ev, x2.events@.len() + 1int, eb, SyntaxKind::MAPPING_BODY);
        assert(ev.take(eb) =~= yev);
        assert(ev.take(x2.events@.len() + 1int) =~= yev.take(x2.events@.len() + 1int));
    }
    assert(mapping_parts(ev, toks, ds, start.events@.len() as int, h, eb));
    assert(ev.take(ev.len() as int) =~= ev);
}

/// A header, then an indented body, under a `MAPPING` node: the header's
/// node first, and where an `INDENT` follows its line, that token and the
/// body's node. A missing body or a missing end of it is recovered to the
/// next top-level item.
#[verifier::rlimit(60)]
#[verifier::spinoff_prover]
pub fn parse_mapping(p: &mut Parser)
    requires
        inv(*old(p)),
    ensures
        keeps_reports(old(p).diagnostics@, final(p).diagnostics@),
        step(*old(p), *final(p)),
        wraps(old(p).events@, final(p).events@, SyntaxKind::MAPPING),
        real_kind(*old(p)) == Some(SyntaxKind::IDENT) ==> final(p).pos > old(p).pos,
        final(p).events@[old(p).events@.len() + 1int] == Event::Start(SyntaxKind::MAPPING_HEADER),
        mapping_shaped(
            final(p).events@,
            final(p).tokens@,
            final(p).diagnostics@,
            old(p).events@.len() as int,
            final(p).events@.len() as int,
        ),
{
    let ghost start = *p;
    let top = top_level_anchors();
    p.start(SyntaxKind::MAPPING);
    let ghost b = *p;
    parse_mapping_header(p);
    let ghost x1 = *p;
    p.skip_trivia();
    let ghost x2 = *p;
    proof {
        lemma_step_trans(b, x1, x2);
        lemma_keeps(start, b, x1);
        lemma_keeps(start, x1, x2);
    }
    let ghost mut eb: int = 0;
    let ghost mut yev: Seq<Event> = x2.events@;
    if p.current() == Some(SyntaxKind::INDENT) {
        p.bump();
        let ghost y1 = *p;
        parse_mapping_body(p);
        let ghost y2 = *p;
        proof {
            eb = y2.events@.len() as int;
            yev = y2.events@;
            assert(y2.events@.take(y2.events@.len() as int) =~= y2.events@);
            lemma_span_of(y1.events@, y2.events@, y2.events@, SyntaxKind::MAPPING_BODY);
            assert(y2.events@.take(x2.events@.len() + 1int) =~= y1.events@);
            assert(y2.events@[x2.events@.len() as int] == y2.events@.take(y1.events@.len() as int)[x2.events@.len() as int]);
        }
        p.skip_trivia();
        let ghost y3 = *p;
        proof {
            lemma_step_trans(b, x2, y1);
            lemma_step_trans(b, y1, y2);
            lemma_step_trans(b, y2, y3);
            lemma_keeps(start, x2, y1);
            lemma_keeps(start, y1, y2);
            lemma_keeps(start, y2, y3);
        }
        if p.current() == Some(SyntaxKind::DEDENT) {
            p.bump();
        } else {
            recover_to(p, top.as_slice());
        }
        proof {
            lemma_step_trans(b, y3, *p);
            lemma_keeps(start, y3, *p);
            lemma_step_trans(x2, y1, y2);
            lemma_step_trans(x2, y2, y3);
            lemma_step_trans(x2, y3, *p);
            lemma_step_trans(y2, y3, *p);
            lemma_keeps(x1, x2, y1);
            lemma_keeps(x1, y1, y2);
            lemma_keeps(x1, y2, y3);
            lemma_keeps(x1, y3, *p);
        }
    } else {
        recover_to(p, top.as_slice());
        proof {
            lemma_step_trans(b, x2, *p);
            lemma_keeps(start, x2, *p);
            lemma_keeps(x1, x2, *p);
        }
    }
    let ghost c = *p;
    proof {
        lemma_depth_nonneg(start.events@);
    }
    p.finish();
    proof {
        lemma_wrap(start, b, c, *p, SyntaxKind::MAPPING);
        lemma_wrap_node(start, b, c, *p, SyntaxKind::MAPPING);
        lemma_keeps(start, c, *p);
        lemma_keeps(x1, c, *p);
        lemma_mapping_assembled(start, b, x1, x2, c, *p, yev, eb);
        let n = start.events@.len() + 1int;
        assert(c.events@.take(x1.events@.len() as int) == x1.events@);
        assert(x1.events@[n] == Event::Start(SyntaxKind::MAPPING_HEADER));
        assert(c.events@[n] == c.events@.take(x1.events@.len() as int)[n]);
        assert(p.events@[n] == c.events@[n]);
    }
}

/// Events `j..e` are one node of kind `k`.
pub open spec fn node_span(ev: Seq<Event>, j: int, e: int, k: SyntaxKind) -> bool {
    &&& 0 <= j
    &&& j + 2 <= e <= ev.len()
    &&& wraps(ev.take(j), ev.take(e), k)
}

/// At token `i` stands a shape that is a plain name: neither `prefix:Local`
/// nor an `<…>` IRI.
pub open spec fn shape_named_at(toks: Seq<LexedToken>, i: int) -> bool {
    &&& !(kind_from(toks, i, 0) == Some(SyntaxKind::IDENT) && kind_from(toks, i, 1) == Some(
        SyntaxKind::SHAPE_SEP,
    ) && kind_from(toks, i, 2) == Some(SyntaxKind::IDENT))
    &&& kind_from(toks, i, 0) != Some(SyntaxKind::LT)
}

/// The parts of a mapping header at events `h..e`, split at the bounds
/// given: the name slot, the `:` slot, the trivia and then the shape's node
/// (a name slot inside it where the shape is a plain name); then either the
/// end of the header, where the shape took the line, or the `from` slot and,
/// after its trivia, the source expression's node or nothing more.
pub open spec fn header_parts(
    ev: Seq<Event>,
    toks: Seq<LexedToken>,
    ds: Seq<ParseDiagnostic>,
    h: int,
    e: int,
    a1: int,
    a2: int,
    s: int,
    a3: int,
    a4: int,
    a5: int,
) -> bool {
    &&& slot(ev, toks, ds, h + 1, a1, SyntaxKind::IDENT)
    &&& slot(ev, toks, ds, a1, a2, SyntaxKind::SHAPE_SEP)
    &&& trivia_at(ev, toks, a2, s)
    &&& node_span(ev, s, a3, SyntaxKind::SHAPE_EXPR)
    &&& shape_named_at(toks, token_ids(ev.take(a2)).len() as int) ==> slot(
        ev,
        toks,
        ds,
        s + 1,
        a3 - 1,
        SyntaxKind::IDENT,
    )
    &&& a3 == e - 1 || (slot(ev, toks, ds, a3, a4, SyntaxKind::KW_FROM) && trivia_at(
        ev,
        toks,
        a4,
        a5,
    ) && (a5 == e - 1 || node_span(ev, a5, e - 1, SyntaxKind::EXPR)))
}

/// Events `h..e` are a `MAPPING_HEADER` node made of its parts.
pub open spec fn header_shaped(
    ev: Seq<Event>,
    toks: Seq<LexedToken>,
    ds: Seq<ParseDiagnostic>,
    h: int,
    e: int,
) -> bool {
    &&& node_span(ev, h, e, SyntaxKind::MAPPING_HEADER)
    &&& exists|a1: int, a2: int, s: int, a3: int, a4: int, a5: int|
        #[trigger] header_parts(ev, toks, ds, h, e, a1, a2, s, a3, a4, a5)
}

/// The trivia ahead of the cursor of `o`, emitted, lies in place in `ev`.
proof fn lemma_trivia_skipped(o: Parser, ev: Seq<Event>)
    requires
        inv(o),
        skipped(o).len() <= ev.len(),
        ev.take(skipped(o).len() as int) == skipped(o),
    ensures
        trivia_at(ev, o.tokens@, o.events@.len() as int, skipped(o).len() as int),
{
    reveal(trivia_at);
    let r = next_real(o.tokens@, o.pos as int);
    lemma_next_real(o.tokens@, o.pos as int);
    let a = o.events@.len() as int;
    let m = skipped(o);
    assert forall|x: int| 0 <= x < m.len() implies #[trigger] ev[x] == m[x] by {
        assert(ev.take(m.len() as int)[x] == ev[x]);
    }
    assert(ev.take(a) =~= o.events@);
    assert forall|x: int| a <= x < m.len() implies #[trigger] ev[x] == Event::Token(
        (o.pos + (x - a)) as usize,
    ) by {
        assert(m[x] == tokens_from(o.pos as int, r)[x - a]);
    }
}

/// A node found in `ev` stays where it is when events are appended.
proof fn lemma_span_extend(ev: Seq<Event>, ev2: Seq<Event>, j: int, e: int, k: SyntaxKind)
    requires
        node_span(ev, j, e, k),
        ev.len() <= ev2.len(),
        ev2.take(ev.len() as int) == ev,
    ensures
        node_span(ev2, j, e, k),
{
    assert forall|x: int| 0 <= x < ev.len() implies #[trigger] ev2[x] == ev[x] by {
        assert(ev2.take(ev.len() as int)[x] == ev2[x]);
    }
    assert(ev2.take(e) =~= ev.take(e));
    assert(ev2.take(j) =~= ev.take(j));
}

/// The events of `o` and a node wrapped after them, read in `ev`, are a node
/// span.
proof fn lemma_span_of(o: Seq<Event>, n: Seq<Event>, ev: Seq<Event>, k: SyntaxKind)
    requires
        wraps(o, n, k),
        n.len() <= ev.len(),
        ev.take(n.len() as int) == n,
        o.len() <= n.len(),
        n.take(o.len() as int) == o,
    ensures
        node_span(ev, o.len() as int, n.len() as int, k),
{
    assert(ev.take(o.len() as int) =~= n.take(o.len() as int));
}

/// The parts of a mapping at events `j..`: the header's node at `j + 1`
/// closing at `h`, then the trivia, and where the next real token is an
/// `INDENT`, that token and the body's node, from `c + 1` to `eb`, with only
/// properties and `ERROR` nodes directly under it, each the one its line
/// decides, and each property with its value.
pub open spec fn mapping_parts(
    ev: Seq<Event>,
    toks: Seq<LexedToken>,
    ds: Seq<ParseDiagnostic>,
    j: int,
    h: int,
    eb: int,
) -> bool {
    let i = token_ids(ev.take(h)).len() as int;
    let r = next_real(toks, i);
    let c = h + (r - i);
    &&& header_shaped(ev, toks, ds, j + 1, h)
    &&& trivia_at(ev, toks, h, c)
    &&& r < toks.len() && toks[r].kind == SyntaxKind::INDENT ==> ev[c] == Event::Token(r as usize)
        && node_span(ev, c + 1, eb, SyntaxKind::MAPPING_BODY) && nodes_at(
        ev.take(eb),
        c + 2,
        depth(ev.take(c + 1)) + 1,
        |k: SyntaxKind| body_kind(k),
    ) && lines_dispatched(ev.take(eb), c + 2, depth(ev.take(c + 1)) + 1, toks) && props_shaped(
        ev.take(eb),
        c + 2,
        depth(ev.take(c + 1)) + 1,
        toks,
    )
}

/// Events `j..e` are a `MAPPING` node made of its parts.
pub open spec fn mapping_shaped(
    ev: Seq<Event>,
    toks: Seq<LexedToken>,
    ds: Seq<ParseDiagnostic>,
    j: int,
    e: int,
) -> bool {
    &&& node_span(ev, j, e, SyntaxKind::MAPPING)
    &&& exists|h: int, eb: int| #[trigger] mapping_parts(ev, toks, ds, j, h, eb)
}

/// Appending events and reports keeps a mapping header's parts.
proof fn lemma_header_extend(
    ev: Seq<Event>,
    ev2: Seq<Event>,
    toks: Seq<LexedToken>,
    ds: Seq<ParseDiagnostic>,
    ds2: Seq<ParseDiagnostic>,
    h: int,
    e: int,
)
    requires
        header_shaped(ev, toks, ds, h, e),
        ev.len() <= ev2.len(),
        ev2.take(ev.len() as int) == ev,
        keeps_reports(ds, ds2),
    ensures
        header_shaped(ev2, toks, ds2, h, e),
{
    let (a1, a2, s, a3, a4, a5) = choose|a1: int, a2: int, s: int, a3: int, a4: int, a5: int|
        #[trigger] header_parts(ev, toks, ds, h, e, a1, a2, s, a3, a4, a5);
    lemma_span_extend(ev, ev2, h, e, SyntaxKind::MAPPING_HEADER);
    lemma_slot_extend(ev, ev2, toks, ds, ds2, h + 1, a1, SyntaxKind::IDENT);
    lemma_slot_extend(ev, ev2, toks, ds, ds2, a1, a2, SyntaxKind::SHAPE_SEP);
    lemma_trivia_extend(ev, ev2, toks, a2, s);
    lemma_span_extend(ev, ev2, s, a3, SyntaxKind::SHAPE_EXPR);
    reveal(slot);
    reveal(trivia_at);
    assert forall|x: int| 0 <= x < ev.len() implies #[trigger] ev2[x] == ev[x] by {
        assert(ev2.take(ev.len() as int)[x] == ev2[x]);
    }
    assert(ev2.take(a2) =~= ev.take(a2));
    if shape_named_at(toks, token_ids(ev.take(a2)).len() as int) {
        lemma_slot_extend(ev, ev2, toks, ds, ds2, s + 1, a3 - 1, SyntaxKind::IDENT);
    }
    if a3 != e - 1 {
        lemma_slot_extend(ev, ev2, toks, ds, ds2, a3, a4, SyntaxKind::KW_FROM);
        lemma_trivia_extend(ev, ev2, toks, a4, a5);
        if a5 != e - 1 {
            lemma_span_extend(ev, ev2, a5, e - 1, SyntaxKind::EXPR);
        }
    }
    assert(header_parts(ev2, toks, ds2, h, e, a1, a2, s, a3, a4, a5));
}

/// Appending events and reports keeps a mapping's parts.
#[verifier::rlimit(50)]
#[verifier::spinoff_prover]
pub proof fn lemma_mapping_extend(
    ev: Seq<Event>,
    ev2: Seq<Event>,
    toks: Seq<LexedToken>,
    ds: Seq<ParseDiagnostic>,
    ds2: Seq<ParseDiagnostic>,
    j: int,
    e: int,
)
    requires
        mapping_shaped(ev, toks, ds, j, e),
        ev.len() <= ev2.len(),
        ev2.take(ev.len() as int) == ev,
        keeps_reports(ds, ds2),
    ensures
        mapping_shaped(ev2, toks, ds2, j, e),
{
    let (h, eb) = choose|h: int, eb: int| #[trigger] mapping_parts(ev, toks, ds, j, h, eb);
    lemma_span_extend(ev, ev2, j, e, SyntaxKind::MAPPING);
    lemma_header_extend(ev, ev2, toks, ds, ds2, j + 1, h);
    assert forall|x: int| 0 <= x < ev.len() implies #[trigger] ev2[x] == ev[x] by {
        assert(ev2.take(ev.len() as int)[x] == ev2[x]);
    }
    assert(ev2.take(h) =~= ev.take(h));
    let i = token_ids(ev.take(h)).len() as int;
    let r = next_real(toks, i);
    let c = h + (r - i);
    lemma_trivia_extend(ev, ev2, toks, h, c);
    if r < toks.len() && toks[r].kind == SyntaxKind::INDENT {
        reveal(trivia_at);
        lemma_span_extend(ev, ev2, c + 1, eb, SyntaxKind::MAPPING_BODY);
        assert(ev2.take(eb) =~= ev.take(eb));
        assert(ev2.take(c + 1) =~= ev.take(c + 1));
    }
    assert(mapping_parts(ev2, toks, ds2, j, h, eb));
}

/// How a binding opens under a node of kind `k`: the name at token `i`, the
/// trivia after it, and the token `q` after that.
pub open spec fn head_events(i: int, q: int, k: SyntaxKind) -> Seq<Event> {
    seq![Event::Start(k), Event::Token(i as usize)] + tokens_from(i + 1, q) + seq![
        Event::Token(q as usize),
    ]
}

/// Events `j..e` are a `SOURCE_DEF` node: its name, the trivia, the `:=`,
/// then the source expression's node, last under it.
pub open spec fn source_shaped(ev: Seq<Event>, toks: Seq<LexedToken>, j: int, e: int) -> bool {
    let i = token_ids(ev.take(j)).len() as int;
    let q = next_real(toks, i + 1);
    &&& node_span(ev, j, e, SyntaxKind::SOURCE_DEF)
    &&& ends_with(ev.take(e), j, SyntaxKind::EXPR)
    &&& i < toks.len() && q < toks.len() ==> j + (q - i) + 2 <= e && ev.subrange(
        j,
        j + (q - i) + 2,
    ) == head_events(i, q, SyntaxKind::SOURCE_DEF)
}

/// Events `j..e` are a `POLICY_DEF` node: the name, `:=` and the string,
/// with the trivia between them, and nothing else.
pub open spec fn policy_shaped(ev: Seq<Event>, toks: Seq<LexedToken>, j: int, e: int) -> bool {
    let i = token_ids(ev.take(j)).len() as int;
    let q1 = next_real(toks, i + 1);
    let q2 = next_real(toks, q1 + 1);
    &&& node_span(ev, j, e, SyntaxKind::POLICY_DEF)
    &&& i < toks.len() && q1 < toks.len() && q2 < toks.len() ==> ev.subrange(j, e) == head_events(
        i,
        q1,
        SyntaxKind::POLICY_DEF,
    ) + tokens_from(q1 + 1, q2) + seq![Event::Token(q2 as usize), Event::Finish]
}

/// The `type` keyword at event `k`, directly under the node opened at `j`
/// and closing at `e`, then its braces and `:=`.
pub open spec fn type_parts(
    ev: Seq<Event>,
    toks: Seq<LexedToken>,
    ds: Seq<ParseDiagnostic>,
    j: int,
    e: int,
    k: int,
    a1: int,
    a2: int,
    a3: int,
    a4: int,
) -> bool {
    &&& j < k < e
    &&& keyword_token(ev[k], toks)
    &&& depth(ev.take(k)) == depth(ev.take(j)) + 1
    &&& type_braces(ev, toks, ds, k, a1, a2, a3, a4)
}

/// Events `j..e` are a `TYPE_DEF` node: where the keyword `type` stands
/// under it, its braces, its `:=` and, last, the expression's node; where it
/// does not, the report that the binding is missing is among `ds`.
pub open spec fn type_shaped(
    ev: Seq<Event>,
    toks: Seq<LexedToken>,
    ds: Seq<ParseDiagnostic>,
    j: int,
    e: int,
) -> bool {
    &&& node_span(ev, j, e, SyntaxKind::TYPE_DEF)
    &&& binding_keyword(ev.take(e), j, toks) ==> ends_with(ev.take(e), j, SyntaxKind::EXPR) && exists|
        k: int,
        a1: int,
        a2: int,
        a3: int,
        a4: int,
    | #[trigger] type_parts(ev, toks, ds, j, e, k, a1, a2, a3, a4)
    &&& !binding_keyword(ev.take(e), j, toks) ==> exists|q: int|
        0 <= q < ds.len() && #[trigger] missing_binding(ds[q])
}

/// Events `j..e` are a `MULTI_SOURCE_DEF` node: the `{`, the names, `}` and
/// `:=`, then the expression's node, last under it.
pub open spec fn multi_shaped(
    ev: Seq<Event>,
    toks: Seq<LexedToken>,
    ds: Seq<ParseDiagnostic>,
    j: int,
    e: int,
) -> bool {
    let i = token_ids(ev.take(j)).len() as int;
    &&& node_span(ev, j, e, SyntaxKind::MULTI_SOURCE_DEF)
    &&& ends_with(ev.take(e), j, SyntaxKind::EXPR)
    &&& i < toks.len() ==> ev[j + 1] == Event::Token(i as usize) && exists|a2: int, a3: int, a4: int|
        #[trigger] source_braces(ev, toks, ds, j + 2, a2, a3, a4)
}

/// Events `j..e` are the item the node opened at `j` is, with its parts.
#[verifier::opaque]
pub open spec fn item_node(
    ev: Seq<Event>,
    toks: Seq<LexedToken>,
    ds: Seq<ParseDiagnostic>,
    j: int,
    e: int,
) -> bool {
    if ev[j] == Event::Start(SyntaxKind::MAPPING) {
        mapping_shaped(ev, toks, ds, j, e)
    } else if ev[j] == Event::Start(SyntaxKind::SOURCE_DEF) {
        source_shaped(ev, toks, j, e)
    } else if ev[j] == Event::Start(SyntaxKind::POLICY_DEF) {
        policy_shaped(ev, toks, j, e)
    } else if ev[j] == Event::Start(SyntaxKind::TYPE_DEF) {
        type_shaped(ev, toks, ds, j, e)
    } else if ev[j] == Event::Start(SyntaxKind::MULTI_SOURCE_DEF) {
        multi_shaped(ev, toks, ds, j, e)
    } else {
        false
    }
}

/// A node opened at event `j` other than an `ERROR` node is an item with
/// its parts.
pub open spec fn item_shaped(
    ev: Seq<Event>,
    toks: Seq<LexedToken>,
    ds: Seq<ParseDiagnostic>,
    j: int,
) -> bool {
    ev[j] is Start && ev[j] != Event::Start(SyntaxKind::ERROR) ==> exists|e: int|
        #[trigger] item_node(ev, toks, ds, j, e)
}

/// Every node that opens at depth `d` from event `from` on has the parts of
/// the item it is.
#[verifier::opaque]
pub open spec fn items_shaped(
    ev: Seq<Event>,
    from: int,
    d: int,
    toks: Seq<LexedToken>,
    ds: Seq<ParseDiagnostic>,
) -> bool {
    forall|j: int|
        from <= j < ev.len() && depth(ev.take(j)) == d ==> #[trigger] item_shaped(ev, toks, ds, j)
}

/// Appending events and reports keeps the braces after `type`.
proof fn lemma_braces_extend(
    ev: Seq<Event>,
    ev2: Seq<Event>,
    toks: Seq<LexedToken>,
    ds: Seq<ParseDiagnostic>,
    ds2: Seq<ParseDiagnostic>,
    a1: int,
    a2: int,
    a3: int,
    a4: int,
)
    requires
        source_braces(ev, toks, ds, a1, a2, a3, a4),
        ev.len() <= ev2.len(),
        ev2.take(ev.len() as int) == ev,
        keeps_reports(ds, ds2),
    ensures
        source_braces(ev2, toks, ds2, a1, a2, a3, a4),
{
    lemma_names_extend(ev, ev2, toks, ds, ds2, a1, a2);
    lemma_slot_extend(ev, ev2, toks, ds, ds2, a2, a3, SyntaxKind::RBRACE);
    lemma_slot_extend(ev, ev2, toks, ds, ds2, a3, a4, SyntaxKind::DEFINE);
}

/// Appending events and reports keeps an item and its parts.
proof fn lemma_item_extend(
    ev: Seq<Event>,
    ev2: Seq<Event>,
    toks: Seq<LexedToken>,
    ds: Seq<ParseDiagnostic>,
    ds2: Seq<ParseDiagnostic>,
    j: int,
    e: int,
)
    requires
        item_node(ev, toks, ds, j, e),
        0 <= j < ev.len(),
        ev.len() <= ev2.len(),
        ev2.take(ev.len() as int) == ev,
        keeps_reports(ds, ds2),
    ensures
        item_node(ev2, toks, ds2, j, e),
{
    reveal(item_node);
    assert forall|x: int| 0 <= x < ev.len() implies #[trigger] ev2[x] == ev[x] by {
        assert(ev2.take(ev.len() as int)[x] == ev2[x]);
    }
    assert(ev2[j] == ev[j]);
    if ev[j] == Event::Start(SyntaxKind::MAPPING) {
        lemma_mapping_extend(ev, ev2, toks, ds, ds2, j, e);
    } else {
        let k = ev[j]->Start_0;
        lemma_span_extend(ev, ev2, j, e, k);
        assert(ev2.take(e) =~= ev.take(e));
        assert(ev2.take(j) =~= ev.take(j));
        let i = token_ids(ev.take(j)).len() as int;
        if k == SyntaxKind::SOURCE_DEF {
            assert(source_shaped(ev, toks, j, e));
            let q = next_real(toks, i + 1);
            if i < toks.len() && q < toks.len() {
                let m = j + (q - i) + 2;
                lemma_next_real(toks, i + 1);
                assert forall|y: int| 0 <= y < m - j implies #[trigger] ev2.subrange(j, m)[y]
                    == ev.subrange(j, m)[y] by {
                    assert(ev2[j + y] == ev[j + y]);
                }
                assert(ev2.subrange(j, m) =~= ev.subrange(j, m));
            }
        } else if k == SyntaxKind::POLICY_DEF {
            assert(ev2.subrange(j, e) =~= ev.subrange(j, e));
        } else if k == SyntaxKind::TYPE_DEF {
            if binding_keyword(ev.take(e), j, toks) {
                let (kk, a1, a2, a3, a4) = choose|kk: int, a1: int, a2: int, a3: int, a4: int|
                    #[trigger] type_parts(ev, toks, ds, j, e, kk, a1, a2, a3, a4);
                assert(ev2.take(kk) =~= ev.take(kk));
                lemma_slot_extend(ev, ev2, toks, ds, ds2, kk + 1, a1, SyntaxKind::LBRACE);
                lemma_braces_extend(ev, ev2, toks, ds, ds2, a1, a2, a3, a4);
                assert(type_parts(ev2, toks, ds2, j, e, kk, a1, a2, a3, a4));
            } else {
                let q = choose|q: int| 0 <= q < ds.len() && #[trigger] missing_binding(ds[q]);
                assert(ds2[q] == ds[q]);
            }
        } else if k == SyntaxKind::MULTI_SOURCE_DEF {
            if i < toks.len() {
                let (a2, a3, a4) = choose|a2: int, a3: int, a4: int|
                    #[trigger] source_braces(ev, toks, ds, j + 2, a2, a3, a4);
                lemma_braces_extend(ev, ev2, toks, ds, ds2, j + 2, a2, a3, a4);
            }
        }
    }
}

/// Appending events and reports, where every node that opens at depth `d`
/// in what is appended has the parts of its item, keeps `items_shaped`.
proof fn lemma_items_grow(
    a: Seq<Event>,
    n: Seq<Event>,
    da: Seq<ParseDiagnostic>,
    dn: Seq<ParseDiagnostic>,
    from: int,
    d: int,
    toks: Seq<LexedToken>,
)
    requires
        0 <= from,
        items_shaped(a, from, d, toks, da),
        a.len() <= n.len(),
        n.take(a.len() as int) == a,
        keeps_reports(da, dn),
        forall|j: int|
            a.len() <= j < n.len() && depth(n.take(j)) == d ==> #[trigger] item_shaped(n, toks, dn, j),
    ensures
        items_shaped(n, from, d, toks, dn),
{
    reveal(items_shaped);
    assert forall|j: int| from <= j < n.len() && depth(n.take(j)) == d implies #[trigger] item_shaped(
        n,
        toks,
        dn,
        j,
    ) by {
        if j < a.len() {
            assert(n[j] == n.take(a.len() as int)[j]);
            assert(n.take(j) =~= a.take(j));
            assert(item_shaped(a, toks, da, j));
            if a[j] is Start && a[j] != Event::Start(SyntaxKind::ERROR) {
                let e = choose|e: int| #[trigger] item_node(a, toks, da, j, e);
                lemma_item_extend(a, n, toks, da, dn, j, e);
            }
        }
    }
}

/// Appended events that open no node keep `items_shaped`.
proof fn lemma_items_no_start(
    a: Seq<Event>,
    n: Seq<Event>,
    da: Seq<ParseDiagnostic>,
    dn: Seq<ParseDiagnostic>,
    from: int,
    d: int,
    toks: Seq<LexedToken>,
)
    requires
        0 <= from,
        items_shaped(a, from, d, toks, da),
        a.len() <= n.len(),
        n.take(a.len() as int) == a,
        keeps_reports(da, dn),
        forall|j: int| a.len() <= j < n.len() ==> !(#[trigger] n[j] is Start),
    ensures
        items_shaped(n, from, d, toks, dn),
{
    lemma_items_grow(a, n, da, dn, from, d, toks);
}

/// An `ERROR` node appended, with no node inside it, keeps `items_shaped`.
proof fn lemma_items_error(
    a: Seq<Event>,
    n: Seq<Event>,
    da: Seq<ParseDiagnostic>,
    dn: Seq<ParseDiagnostic>,
    from: int,
    d: int,
    toks: Seq<LexedToken>,
)
    requires
        0 <= from,
        items_shaped(a, from, d, toks, da),
        n.len() >= a.len() + 1,
        n.take(a.len() as int) == a,
        keeps_reports(da, dn),
        n[a.len() as int] == Event::Start(SyntaxKind::ERROR),
        forall|j: int| a.len() < j < n.len() ==> !(#[trigger] n[j] is Start),
    ensures
        items_shaped(n, from, d, toks, dn),
{
    lemma_items_grow(a, n, da, dn, from, d, toks);
}

/// One item node appended at depth `d`, with its parts, keeps
/// `items_shaped`.
proof fn lemma_items_node(
    a: Seq<Event>,
    n: Seq<Event>,
    da: Seq<ParseDiagnostic>,
    dn: Seq<ParseDiagnostic>,
    from: int,
    d: int,
    toks: Seq<LexedToken>,
    k: SyntaxKind,
)
    requires
        0 <= from,
        items_shaped(a, from, d, toks, da),
        depth(a) == d,
        n.take(a.len() as int) == a,
        keeps_reports(da, dn),
        wraps(a, n, k),
        item_node(n, toks, dn, a.len() as int, n.len() as int),
    ensures
        items_shaped(n, from, d, toks, dn),
{
    assert forall|j: int| a.len() <= j < n.len() && depth(n.take(j)) == d implies #[trigger] item_shaped(
        n,
        toks,
        dn,
        j,
    ) by {
        if j > a.len() && j < n.len() - 1 {
            assert(n.drop_last().take(j) =~= n.take(j));
            assert(depth(n.drop_last().take(j)) >= d + 1);
        }
    }
    lemma_items_grow(a, n, da, dn, from, d, toks);
}

/// What `parse_source_def` builds is a source binding with its parts.
proof fn lemma_source_shaped(o: Parser, f: Parser)
    requires
        inv(o),
        o.events@.len() <= f.events@.len(),
        f.events@.take(o.events@.len() as int) == o.events@,
        f.tokens@ == o.tokens@,
        wraps(o.events@, f.events@, SyntaxKind::SOURCE_DEF),
        o.pos < o.tokens@.len() && next_real(o.tokens@, o.pos + 1) < o.tokens@.len() ==> def_head(
            o,
        ).len() < f.events@.len() && f.events@.take(def_head(o).len() as int) == def_head(o),
        ends_with(f.events@, o.events@.len() as int, SyntaxKind::EXPR),
    ensures
        item_node(f.events@, f.tokens@, f.diagnostics@, o.events@.len() as int, f.events@.len() as int),
{
    reveal(item_node);
    let ev = f.events@;
    let j = o.events@.len() as int;
    assert(ev.take(ev.len() as int) =~= ev);
    assert(ev.take(j) == o.events@);
    let i = o.pos as int;
    let q = next_real(o.tokens@, i + 1);
    if i < o.tokens@.len() && q < o.tokens@.len() {
        lemma_next_real(o.tokens@, i + 1);
        let hd = def_head(o);
        let he = head_events(i, q, SyntaxKind::SOURCE_DEF);
        let m = j + (q - i) + 2;
        assert(hd =~= o.events@ + he);
        assert(hd.len() == m);
        assert forall|y: int| 0 <= y < m - j implies #[trigger] ev.subrange(j, m)[y] == he[y] by {
            assert(ev.take(hd.len() as int)[j + y] == ev[j + y]);
            assert(hd[j + y] == he[y]);
        }
        assert(ev.subrange(j, m) =~= he);
    }
    assert(ev[j] == Event::Start(SyntaxKind::SOURCE_DEF));
}

/// What `parse_policy_def` builds is a policy binding with its parts.
proof fn lemma_policy_shaped(o: Parser, f: Parser)
    requires
        inv(o),
        o.events@.len() <= f.events@.len(),
        f.events@.take(o.events@.len() as int) == o.events@,
        f.tokens@ == o.tokens@,
        wraps(o.events@, f.events@, SyntaxKind::POLICY_DEF),
        ({
            let t = o.tokens@;
            let q1 = next_real(t, o.pos + 1);
            let q2 = next_real(t, q1 + 1);
            o.pos < t.len() && q1 < t.len() && q2 < t.len() ==> f.events@ == binding_head(
                o,
                SyntaxKind::POLICY_DEF,
            ) + tokens_from(q1 + 1, q2) + seq![Event::Token(q2 as usize), Event::Finish]
        }),
    ensures
        item_node(f.events@, f.tokens@, f.diagnostics@, o.events@.len() as int, f.events@.len() as int),
{
    reveal(item_node);
    let ev = f.events@;
    let j = o.events@.len() as int;
    assert(ev.take(ev.len() as int) =~= ev);
    assert(ev.take(j) == o.events@);
    let t = o.tokens@;
    let i = o.pos as int;
    let q1 = next_real(t, i + 1);
    let q2 = next_real(t, q1 + 1);
    if i < t.len() && q1 < t.len() && q2 < t.len() {
        let x = head_events(i, q1, SyntaxKind::POLICY_DEF) + tokens_from(q1 + 1, q2) + seq![
            Event::Token(q2 as usize),
            Event::Finish,
        ];
        assert(ev =~= o.events@ + x);
        assert((o.events@ + x).subrange(j, (o.events@ + x).len() as int) =~= x);
    }
    assert(ev[j] == Event::Start(SyntaxKind::POLICY_DEF));
}

/// What `parse_multi_source_def` builds is a binding of several sources
/// with its parts.
proof fn lemma_multi_shaped(o: Parser, f: Parser)
    requires
        inv(o),
        o.events@.len() <= f.events@.len(),
        f.events@.take(o.events@.len() as int) == o.events@,
        f.tokens@ == o.tokens@,
        wraps(o.events@, f.events@, SyntaxKind::MULTI_SOURCE_DEF),
        o.pos < o.tokens@.len() ==> f.events@[o.events@.len() + 1int] == Event::Token(o.pos),
        ends_with(f.events@, o.events@.len() as int, SyntaxKind::EXPR),
        o.pos < o.tokens@.len() ==> exists|a2: int, a3: int, a4: int|
            #[trigger] source_braces(
                f.events@,
                f.tokens@,
                f.diagnostics@,
                o.events@.len() + 2int,
                a2,
                a3,
                a4,
            ),
    ensures
        item_node(f.events@, f.tokens@, f.diagnostics@, o.events@.len() as int, f.events@.len() as int),
{
    reveal(item_node);
    let ev = f.events@;
    let j = o.events@.len() as int;
    assert(ev.take(ev.len() as int) =~= ev);
    assert(ev.take(j) == o.events@);
    assert(ev[j] == Event::Start(SyntaxKind::MULTI_SOURCE_DEF));
}

/// What `parse_type_def` builds is a type binding with its parts.
proof fn lemma_type_shaped(o: Parser, f: Parser)
    requires
        inv(o),
        o.events@.len() <= f.events@.len(),
        f.events@.take(o.events@.len() as int) == o.events@,
        f.tokens@ == o.tokens@,
        wraps(o.events@, f.events@, SyntaxKind::TYPE_DEF),
        binding_keyword(f.events@, o.events@.len() as int, f.tokens@) ==> ends_with(
            f.events@,
            o.events@.len() as int,
            SyntaxKind::EXPR,
        ) && exists|k: int, a1: int, a2: int, a3: int, a4: int|
            o.events@.len() < k && keyword_token(f.events@[k], f.tokens@) && depth(
                f.events@.take(k),
            ) == depth(o.events@) + 1 && #[trigger] type_braces(
                f.events@,
                f.tokens@,
                f.diagnostics@,
                k,
                a1,
                a2,
                a3,
                a4,
            ),
        !binding_keyword(f.events@, o.events@.len() as int, f.tokens@) ==> f.diagnostics@.len()
            > o.diagnostics@.len() && missing_binding(f.diagnostics@.last()),
    ensures
        item_node(f.events@, f.tokens@, f.diagnostics@, o.events@.len() as int, f.events@.len() as int),
{
    reveal(item_node);
    let ev = f.events@;
    let ds = f.diagnostics@;
    let toks = f.tokens@;
    let j = o.events@.len() as int;
    let e = ev.len() as int;
    assert(ev.take(e) =~= ev);
    assert(ev.take(j) == o.events@);
    if binding_keyword(ev, j, toks) {
        let (k, a1, a2, a3, a4) = choose|k: int, a1: int, a2: int, a3: int, a4: int|
            o.events@.len() < k && keyword_token(ev[k], toks) && depth(ev.take(k)) == depth(
                o.events@,
            ) + 1 && #[trigger] type_braces(ev, toks, ds, k, a1, a2, a3, a4);
        assert(k < e) by {
            reveal(slot);
            reveal(trivia_at);
        }
        assert(type_parts(ev, toks, ds, j, e, k, a1, a2, a3, a4));
    } else {
        assert(missing_binding(ds[ds.len() - 1]));
    }
    assert(ev[j] == Event::Start(SyntaxKind::TYPE_DEF));
}

/// What `parse_mapping` builds is a mapping with its parts.
proof fn lemma_mapping_node(o: Parser, f: Parser)
    requires
        mapping_shaped(
            f.events@,
            f.tokens@,
            f.diagnostics@,
            o.events@.len() as int,
            f.events@.len() as int,
        ),
        wraps(o.events@, f.events@, SyntaxKind::MAPPING),
    ensures
        item_node(f.events@, f.tokens@, f.diagnostics@, o.events@.len() as int, f.events@.len() as int),
{
    reveal(item_node);
}

/// `Name : Shape from Expression`, under a `MAPPING_HEADER` node: the name
/// slot, the `:` slot, the shape's node, then the `from` slot and the
/// expression. A shape refused over its whole line ends the header there.
#[verifier::rlimit(100)]
#[verifier::spinoff_prover]
pub fn parse_mapping_header(p: &mut Parser)
    requires
        inv(*old(p)),
    ensures
        keeps_reports(old(p).diagnostics@, final(p).diagnostics@),
        step(*old(p), *final(p)),
        wraps(old(p).events@, final(p).events@, SyntaxKind::MAPPING_HEADER),
        real_kind(*old(p)) == Some(SyntaxKind::IDENT) ==> final(p).pos > old(p).pos,
        header_shaped(
            final(p).events@,
            final(p).tokens@,
            final(p).diagnostics@,
            old(p).events@.len() as int,
            final(p).events@.len() as int,
        ),
{
    let ghost start = *p;
    p.start(SyntaxKind::MAPPING_HEADER);
    let ghost b = *p;
    let a1 = [SyntaxKind::SHAPE_SEP, SyntaxKind::KW_FROM];
    expect_or_recover(p, SyntaxKind::IDENT, &a1);
    let ghost x1 = *p;
    let a2 = [SyntaxKind::KW_FROM, SyntaxKind::INDENT];
    expect_or_recover(p, SyntaxKind::SHAPE_SEP, &a2);
    let ghost x2 = *p;
    let outcome = parse_shape_expr(p);
    let ghost x3 = *p;
    let ghost toks = start.tokens@;
    proof {
        lemma_step_trans(b, x1, x2);
        lemma_step_trans(b, x2, x3);
        lemma_depth_nonneg(start.events@);
        lemma_keeps(start, b, x1);
        lemma_keeps(start, x1, x2);
        lemma_keeps(start, x2, x3);
        lemma_tokens_from_push(b.pos as int, b.pos as int);
        assert(b.events@ + tokens_from(b.pos as int, b.pos as int) =~= b.events@);
        lemma_slot_from(b, b, x1, SyntaxKind::IDENT, a1@);
        lemma_tokens_from_push(x1.pos as int, x1.pos as int);
        assert(x1.events@ + tokens_from(x1.pos as int, x1.pos as int) =~= x1.events@);
        lemma_slot_from(x1, x1, x2, SyntaxKind::SHAPE_SEP, a2@);
        lemma_step_trans(x1, x2, x3);
        lemma_keeps(x1, x2, x3);
        lemma_slot_extend(x1.events@, x3.events@, toks, x1.diagnostics@, x3.diagnostics@,
            b.events@.len() as int, x1.events@.len() as int, SyntaxKind::IDENT);
        lemma_slot_extend(x2.events@, x3.events@, toks, x2.diagnostics@, x3.diagnostics@,
            x1.events@.len() as int, x2.events@.len() as int, SyntaxKind::SHAPE_SEP);
        lemma_trivia_skipped(x2, x3.events@);
        assert(x3.events@.take(x3.events@.len() as int) =~= x3.events@);
        lemma_span_of(skipped(x2), x3.events@, x3.events@, SyntaxKind::SHAPE_EXPR);
        assert(token_ids(x3.events@.take(x2.events@.len() as int)).len() == x2.pos) by {
            assert(x3.events@.take(x2.events@.len() as int) == x2.events@);
        }
    }
    let ghost h = start.events@.len() as int;
    let ghost s1 = skipped(x2).len() as int;
    let ghost a3 = x3.events@.len() as int;
    if outcome == ShapeOutcome::LineConsumed {
        p.finish();
        proof {
            lemma_wrap(start, b, x3, *p, SyntaxKind::MAPPING_HEADER);
            lemma_wrap_node(start, b, x3, *p, SyntaxKind::MAPPING_HEADER);
            lemma_keeps(start, x3, *p);
            let ev = p.events@;
            let ds = p.diagnostics@;
            assert(ev.take(x3.events@.len() as int) =~= x3.events@);
            lemma_slot_extend(x3.events@, ev, toks, x3.diagnostics@, ds, h + 1,
                x1.events@.len() as int, SyntaxKind::IDENT);
            lemma_slot_extend(x3.events@, ev, toks, x3.diagnostics@, ds,
                x1.events@.len() as int, x2.events@.len() as int, SyntaxKind::SHAPE_SEP);
            lemma_trivia_extend(x3.events@, ev, toks, x2.events@.len() as int, s1);
            lemma_span_extend(x3.events@, ev, s1, a3, SyntaxKind::SHAPE_EXPR);
            if shape_named_at(toks, x2.pos as int) {
                lemma_slot_extend(x3.events@, ev, toks, x3.diagnostics@, ds, s1 + 1, a3 - 1,
                    SyntaxKind::IDENT);
            }
            assert(ev.take(x2.events@.len() as int) =~= x3.events@.take(x2.events@.len() as int));
            assert(header_parts(ev, toks, ds, h, ev.len() as int, x1.events@.len() as int,
                x2.events@.len() as int, s1, a3, a3, a3));
            assert(ev.take(h) =~= start.events@);
            assert(ev.take(ev.len() as int) =~= ev);
        }
        return;
    }
    p.skip_trivia();
    let ghost x4 = *p;
    let a3k = [SyntaxKind::INDENT];
    expect_or_recover(p, SyntaxKind::KW_FROM, &a3k);
    let ghost x5 = *p;
    p.skip_trivia();
    let ghost x6 = *p;
    proof {
        lemma_step_trans(b, x3, x4);
        lemma_step_trans(b, x4, x5);
        lemma_step_trans(b, x5, x6);
        lemma_keeps(start, x3, x4);
        lemma_keeps(start, x4, x5);
        lemma_keeps(start, x5, x6);
        lemma_next_real_here(toks, x3.pos as int);
        lemma_slot_from(x3, x4, x5, SyntaxKind::KW_FROM, a3k@);
        assert(x6.events@.take(x6.events@.len() as int) =~= x6.events@);
        lemma_trivia_run(x5, x6, x6.events@);
    }
    let k = p.current();
    if k != Some(SyntaxKind::INDENT) && k.is_some() {
        parse_expr(p);
        proof {
            lemma_step_trans(b, x6, *p);
            lemma_keeps(start, x6, *p);
        }
    }
    let ghost c = *p;
    p.finish();
    proof {
        lemma_wrap(start, b, c, *p, SyntaxKind::MAPPING_HEADER);
        lemma_wrap_node(start, b, c, *p, SyntaxKind::MAPPING_HEADER);
        lemma_keeps(start, c, *p);
        let ev = p.events@;
        let ds = p.diagnostics@;
        assert(ev.take(c.events@.len() as int) =~= c.events@);
        assert(c.events@.take(x3.events@.len() as int) == x3.events@);
        assert(ev.take(x3.events@.len() as int) =~= x3.events@);
        assert(ev.take(x5.events@.len() as int) =~= x5.events@);
        assert(ev.take(x6.events@.len() as int) =~= x6.events@);
        assert(keeps_reports(x3.diagnostics@, ds)) by {
            lemma_keeps(x3, x4, x5);
            lemma_keeps(x3, x5, x6);
            lemma_keeps(x3, x6, c);
            lemma_keeps(x3, c, *p);
        }
        assert(keeps_reports(x5.diagnostics@, ds)) by {
            lemma_keeps(x5, x6, c);
            lemma_keeps(x5, c, *p);
        }
        lemma_slot_extend(x3.events@, ev, toks, x3.diagnostics@, ds, h + 1,
            x1.events@.len() as int, SyntaxKind::IDENT);
        lemma_slot_extend(x3.events@, ev, toks, x3.diagnostics@, ds,
            x1.events@.len() as int, x2.events@.len() as int, SyntaxKind::SHAPE_SEP);
        lemma_trivia_extend(x3.events@, ev, toks, x2.events@.len() as int, s1);
        lemma_span_extend(x3.events@, ev, s1, a3, SyntaxKind::SHAPE_EXPR);
        if shape_named_at(toks, x2.pos as int) {
            lemma_slot_extend(x3.events@, ev, toks, x3.diagnostics@, ds, s1 + 1, a3 - 1,
                SyntaxKind::IDENT);
        }
        lemma_slot_extend(x5.events@, ev, toks, x5.diagnostics@, ds, a3,
            x5.events@.len() as int, SyntaxKind::KW_FROM);
        lemma_trivia_extend(x6.events@, ev, toks, x5.events@.len() as int, x6.events@.len() as int);
        if c.events@.len() > x6.events@.len() {
            lemma_span_of(x6.events@, c.events@, ev, SyntaxKind::EXPR);
        }
        assert(ev.take(x2.events@.len() as int) =~= x3.events@.take(x2.events@.len() as int));
        assert(header_parts(ev, toks, ds, h, ev.len() as int, x1.events@.len() as int,
            x2.events@.len() as int, s1, a3, x5.events@.len() as int, x6.events@.len() as int));
        assert(ev.take(h) =~= start.events@);
        assert(ev.take(ev.len() as int) =~= ev);
    }
}

/// The cursor is at `prefix:Local`, three real tokens.
pub open spec fn shape_curie_at(p: Parser) -> bool {
    &&& kind_at(p, 0) == Some(SyntaxKind::IDENT)
    &&& kind_at(p, 1) == Some(SyntaxKind::SHAPE_SEP)
    &&& kind_at(p, 2) == Some(SyntaxKind::IDENT)
}

/// Whether a shape left the rest of its header line to parse.
#[derive(Debug, Clone, Copy, PartialEq, Eq, Structural)]
pub enum ShapeOutcome {
    /// `from` and the source expression are still to come.
    HeaderContinues,
    /// A retired spelling took the rest of the line.
    LineConsumed,
}

/// The shape's name, under a `SHAPE_EXPR` node; a CURIE is refused over its
/// three tokens and an `<…>` IRI over the rest of its line.
pub fn parse_shape_expr(p: &mut Parser) -> (o: ShapeOutcome)
    requires
        inv(*old(p)),
    ensures
        keeps_reports(old(p).diagnostics@, final(p).diagnostics@),
        step(*old(p), *final(p)),
        wraps(skipped(*old(p)), final(p).events@, SyntaxKind::SHAPE_EXPR),
        (o == ShapeOutcome::LineConsumed) == (real_kind(*old(p)) == Some(SyntaxKind::LT)),
        shape_curie_at(*old(p)) ==> reported_retired(
            old(p).diagnostics@,
            final(p).diagnostics@,
            retired::CURIE@,
        ),
        real_kind(*old(p)) == Some(SyntaxKind::LT) ==> reported_retired(
            old(p).diagnostics@,
            final(p).diagnostics@,
            retired::ABSOLUTE_IRI@,
        ),
        final(p).events@.take(skipped(*old(p)).len() as int) == skipped(*old(p)),
        shape_named_at(old(p).tokens@, old(p).pos as int) ==> slot(
            final(p).events@,
            final(p).tokens@,
            final(p).diagnostics@,
            skipped(*old(p)).len() + 1int,
            final(p).events@.len() - 1int,
            SyntaxKind::IDENT,
        ),
{
    let ghost start = *p;
    p.skip_trivia();
    let ghost s0 = *p;
    p.start(SyntaxKind::SHAPE_EXPR);
    let ghost b = *p;
    proof {
        lemma_depth_nonneg(s0.events@);
        lemma_next_real_here(start.tokens@, start.pos as int);
        lemma_tokens_from_push(s0.pos as int, s0.pos as int);
        assert(skipped(start) =~= s0.events@);
        assert(kind_at(s0, 0) == kind_at(start, 0));
        assert(kind_at(s0, 1) == kind_at(start, 1));
        assert(kind_at(s0, 2) == kind_at(start, 2));
    }
    if p.current() == Some(SyntaxKind::IDENT) && p.peek_kind(1) == Some(SyntaxKind::SHAPE_SEP)
        && p.peek_kind(2) == Some(SyntaxKind::IDENT) {
        p.retire(retired::CURIE, RetiredRun::Count(3));
        let ghost c = *p;
        p.finish();
        proof {
            lemma_wrap(s0, b, c, *p, SyntaxKind::SHAPE_EXPR);
            lemma_wrap_node(s0, b, c, *p, SyntaxKind::SHAPE_EXPR);
            lemma_step_trans(start, s0, *p);
            assert(!shape_named_at(start.tokens@, start.pos as int));
        }
        return ShapeOutcome::HeaderContinues;
    }
    if p.current() == Some(SyntaxKind::LT) {
        p.retire(retired::ABSOLUTE_IRI, RetiredRun::Line);
        let ghost c = *p;
        p.finish();
        proof {
            lemma_wrap(s0, b, c, *p, SyntaxKind::SHAPE_EXPR);
            lemma_wrap_node(s0, b, c, *p, SyntaxKind::SHAPE_EXPR);
            lemma_step_trans(start, s0, *p);
        }
        return ShapeOutcome::LineConsumed;
    }
    let anchors = [
        SyntaxKind::KW_FROM,
        SyntaxKind::ASSIGN,
        SyntaxKind::COMMA,
        SyntaxKind::RBRACE,
        SyntaxKind::INDENT,
        SyntaxKind::DEDENT,
    ];
    expect_or_recover(p, SyntaxKind::IDENT, &anchors);
    let ghost c = *p;
    p.finish();
    proof {
        lemma_wrap(s0, b, c, *p, SyntaxKind::SHAPE_EXPR);
        lemma_wrap_node(s0, b, c, *p, SyntaxKind::SHAPE_EXPR);
        lemma_step_trans(start, s0, *p);
        lemma_tokens_from_push(b.pos as int, b.pos as int);
        assert(b.events@ + tokens_from(b.pos as int, b.pos as int) =~= b.events@);
        lemma_slot_from(b, b, c, SyntaxKind::IDENT, anchors@);
        assert(p.events@.take(c.events@.len() as int) =~= c.events@);
        lemma_slot_extend(
            c.events@,
            p.events@,
            c.tokens@,
            c.diagnostics@,
            p.diagnostics@,
            b.events@.len() as int,
            c.events@.len() as int,
            SyntaxKind::IDENT,
        );
    }
    ShapeOutcome::HeaderContinues
}

/// Events `j..e` are a property whose value is the `EXPR` node last under
/// it; a key in the retired `<…>` form, refused over its line, has none.
pub open spec fn property_shaped(ev: Seq<Event>, toks: Seq<LexedToken>, j: int, e: int) -> bool {
    let i = token_ids(ev.take(j)).len() as int;
    &&& node_span(ev, j, e, SyntaxKind::PROPERTY)
    &&& i < toks.len() && toks[i].kind != SyntaxKind::LT ==> ends_with(ev.take(e), j, SyntaxKind::EXPR)
}

/// Every property that opens at depth `d` from event `from` on has its value.
#[verifier::opaque]
pub open spec fn props_shaped(ev: Seq<Event>, from: int, d: int, toks: Seq<LexedToken>) -> bool {
    forall|j: int|
        from <= j < ev.len() && depth(ev.take(j)) == d && ev[j] == Event::Start(SyntaxKind::PROPERTY)
            ==> exists|e: int| #[trigger] property_shaped(ev, toks, j, e)
}

/// Appended events, where every property opened at depth `d` has its value,
/// keep `props_shaped`.
proof fn lemma_props_grow(a: Seq<Event>, n: Seq<Event>, from: int, d: int, toks: Seq<LexedToken>)
    requires
        0 <= from,
        props_shaped(a, from, d, toks),
        a.len() <= n.len(),
        n.take(a.len() as int) == a,
        forall|j: int|
            a.len() <= j < n.len() && depth(n.take(j)) == d && #[trigger] n[j] == Event::Start(
                SyntaxKind::PROPERTY,
            ) ==> exists|e: int| property_shaped(n, toks, j, e),
    ensures
        props_shaped(n, from, d, toks),
{
    reveal(props_shaped);
    assert forall|j: int|
        from <= j < n.len() && depth(n.take(j)) == d && n[j] == Event::Start(SyntaxKind::PROPERTY)
            implies exists|e: int| #[trigger] property_shaped(n, toks, j, e) by {
        if j < a.len() {
            assert(n[j] == n.take(a.len() as int)[j]);
            assert(n.take(j) =~= a.take(j));
            let e = choose|e: int| #[trigger] property_shaped(a, toks, j, e);
            lemma_span_extend(a, n, j, e, SyntaxKind::PROPERTY);
            assert(n.take(e) =~= a.take(e));
            assert(property_shaped(n, toks, j, e));
        }
    }
}

/// The node a body line starting at token `i` becomes: a line that opens
/// with an attribute, a name or `<` is a property; any other is refused under
/// an `ERROR` node.
pub open spec fn line_for(toks: Seq<LexedToken>, i: int) -> SyntaxKind {
    let k = kind_from(toks, i, 0);
    if k == Some(SyntaxKind::AT_ATTR) || k == Some(SyntaxKind::IDENT) || k == Some(SyntaxKind::LT) {
        SyntaxKind::PROPERTY
    } else {
        SyntaxKind::ERROR
    }
}

/// Every node that opens at depth `d` from event `from` on is what the line
/// it starts decides: the tokens before the node count to that line's first
/// token.
#[verifier::opaque]
pub open spec fn lines_dispatched(ev: Seq<Event>, from: int, d: int, toks: Seq<LexedToken>) -> bool {
    forall|j: int|
        from <= j < ev.len() && depth(ev.take(j)) == d ==> (#[trigger] ev[j] matches Event::Start(
            k,
        ) ==> k == line_for(toks, token_ids(ev.take(j)).len() as int))
}

/// Appended events that open no node at depth `d`, or one node that its line
/// decides, keep the lines dispatched.
proof fn lemma_lines_grow(
    a: Seq<Event>,
    n: Seq<Event>,
    from: int,
    d: int,
    toks: Seq<LexedToken>,
)
    requires
        0 <= from,
        lines_dispatched(a, from, d, toks),
        a.len() <= n.len(),
        n.take(a.len() as int) == a,
        forall|j: int|
            a.len() <= j < n.len() && depth(n.take(j)) == d ==> (#[trigger] n[j] matches Event::Start(
                k,
            ) ==> k == line_for(toks, token_ids(n.take(j)).len() as int)),
    ensures
        lines_dispatched(n, from, d, toks),
{
    reveal(lines_dispatched);
    assert forall|j: int| from <= j < n.len() && depth(n.take(j)) == d implies (
    #[trigger] n[j] matches Event::Start(k) ==> k == line_for(toks, token_ids(n.take(j)).len() as int)) by {
        if j < a.len() {
            assert(n[j] == n.take(a.len() as int)[j]);
            assert(n.take(j) =~= a.take(j));
        }
    }
}

/// One node appended after `a`, of the kind the line at the cursor decides,
/// keeps the lines dispatched.
proof fn lemma_lines_node(
    a: Seq<Event>,
    n: Seq<Event>,
    from: int,
    d: int,
    toks: Seq<LexedToken>,
    k: SyntaxKind,
)
    requires
        0 <= from,
        lines_dispatched(a, from, d, toks),
        depth(a) == d,
        n.take(a.len() as int) == a,
        wraps(a, n, k),
        k == line_for(toks, token_ids(a).len() as int),
    ensures
        lines_dispatched(n, from, d, toks),
{
    assert forall|j: int| a.len() <= j < n.len() && depth(n.take(j)) == d implies (
    #[trigger] n[j] matches Event::Start(k2) ==> k2 == line_for(toks, token_ids(n.take(j)).len() as int)) by {
        if j == a.len() {
            assert(n.take(j) == a);
        } else if j < n.len() - 1 {
            assert(n.drop_last().take(j) =~= n.take(j));
            assert(depth(n.drop_last().take(j)) >= d + 1);
        }
    }
    lemma_lines_grow(a, n, from, d, toks);
}

/// An `ERROR` node appended after `a` with no node inside it, where the line
/// at the cursor is refused, keeps the lines dispatched.
proof fn lemma_lines_error(a: Seq<Event>, n: Seq<Event>, from: int, d: int, toks: Seq<LexedToken>)
    requires
        0 <= from,
        lines_dispatched(a, from, d, toks),
        n.len() >= a.len() + 1,
        n.take(a.len() as int) == a,
        n[a.len() as int] == Event::Start(SyntaxKind::ERROR),
        line_for(toks, token_ids(a).len() as int) == SyntaxKind::ERROR,
        forall|j: int| a.len() < j < n.len() ==> !(#[trigger] n[j] is Start),
    ensures
        lines_dispatched(n, from, d, toks),
{
    assert forall|j: int| a.len() <= j < n.len() && depth(n.take(j)) == d implies (
    #[trigger] n[j] matches Event::Start(k2) ==> k2 == line_for(toks, token_ids(n.take(j)).len() as int)) by {
        if j == a.len() {
            assert(n.take(j) == a);
        }
    }
    lemma_lines_grow(a, n, from, d, toks);
}

/// A property built at the cursor of `a`, its value last under it unless its
/// key is a retired `<…>` form, keeps `props_shaped`.
proof fn lemma_property_node(a: Parser, n: Parser, from: int, d: int)
    requires
        0 <= from,
        inv(a),
        props_shaped(a.events@, from, d, a.tokens@),
        depth(a.events@) == d,
        step(a, n),
        wraps(a.events@, n.events@, SyntaxKind::PROPERTY),
        a.pos < a.tokens@.len() && a.tokens@[a.pos as int].kind != SyntaxKind::LT ==> ends_with(
            n.events@,
            a.events@.len() as int,
            SyntaxKind::EXPR,
        ),
    ensures
        props_shaped(n.events@, from, d, n.tokens@),
{
    let ev = n.events@;
    let j = a.events@.len() as int;
    assert(ev.take(ev.len() as int) =~= ev);
    assert(ev.take(j) == a.events@);
    assert(token_ids(a.events@).len() == a.pos);
    assert(property_shaped(ev, n.tokens@, j, ev.len() as int));
    assert forall|x: int|
        j <= x < ev.len() && depth(ev.take(x)) == d && #[trigger] ev[x] == Event::Start(
            SyntaxKind::PROPERTY,
        ) implies exists|e: int| property_shaped(ev, n.tokens@, x, e) by {
        if x == j {
            assert(property_shaped(ev, n.tokens@, j, ev.len() as int));
        } else if x < ev.len() - 1 {
            assert(ev.drop_last().take(x) =~= ev.take(x));
            assert(depth(ev.drop_last().take(x)) >= d + 1);
        }
    }
    lemma_props_grow(a.events@, ev, from, d, n.tokens@);
}

/// The lines of a mapping body, under a `MAPPING_BODY` node, up to its
/// `DEDENT` or the end. A line that starts with neither an attribute nor a
/// key is recovered to the next one.
#[verifier::rlimit(70)]
pub fn parse_mapping_body(p: &mut Parser)
    requires
        inv(*old(p)),
    ensures
        keeps_reports(old(p).diagnostics@, final(p).diagnostics@),
        step(*old(p), *final(p)),
        wraps(old(p).events@, final(p).events@, SyntaxKind::MAPPING_BODY),
        nodes_at(
            final(p).events@,
            old(p).events@.len() + 1int,
            depth(old(p).events@) + 1,
            |k: SyntaxKind| body_kind(k),
        ),
        lines_dispatched(
            final(p).events@,
            old(p).events@.len() + 1int,
            depth(old(p).events@) + 1,
            final(p).tokens@,
        ),
        props_shaped(
            final(p).events@,
            old(p).events@.len() + 1int,
            depth(old(p).events@) + 1,
            final(p).tokens@,
        ),
{
    let ghost start = *p;
    let anchors = mapping_body_anchors();
    p.start(SyntaxKind::MAPPING_BODY);
    let ghost b = *p;
    proof {
        lemma_step_refl(b);
    }
    let ghost from = b.events@.len() as int;
    let ghost d = depth(b.events@);
    let ghost lines = |k: SyntaxKind| body_kind(k);
    let ghost toks = b.tokens@;
    assert(lines_dispatched(p.events@, from, d, toks)) by {
        reveal(lines_dispatched);
    }
    assert(props_shaped(p.events@, from, d, toks)) by {
        reveal(props_shaped);
    }
    loop
        invariant
            step(b, *p),
            anchors@ == seq![SyntaxKind::DEDENT, SyntaxKind::IDENT],
            from == b.events@.len(),
            d == depth(b.events@),
            lines == |k: SyntaxKind| body_kind(k),
            nodes_at(p.events@, from, d, lines),
            toks == b.tokens@,
            lines_dispatched(p.events@, from, d, toks),
            props_shaped(p.events@, from, d, toks),
            keeps_reports(start.diagnostics@, p.diagnostics@),
        decreases rem(*p),
    {
        let ghost it = *p;
        p.skip_trivia();
        let ghost it2 = *p;
        proof {
            lemma_keeps(start, it, it2);
            lemma_step_trans(b, it, it2);
            lemma_next_real_here(it2.tokens@, it2.pos as int);
            lemma_nodes_no_start(it.events@, it2.events@, from, d, lines);
            assert forall|j: int| it.events@.len() <= j < it2.events@.len() implies !(#[trigger] it2.events@[j] is Start) by {
                assert(it2.events@[j] == tokens_from(it.pos as int, it2.pos as int)[j - it.events@.len()]);
            }
            lemma_lines_grow(it.events@, it2.events@, from, d, toks);
            lemma_props_grow(it.events@, it2.events@, from, d, toks);
            lemma_nth_zero(toks, it2.pos as int);
            assert(token_ids(it2.events@).len() == it2.pos);
        }
        let k = p.current();
        if k.is_none() || k == Some(SyntaxKind::DEDENT) {
            break;
        }
        if k == Some(SyntaxKind::AT_ATTR) {
            parse_subject_assign(p);
            proof {
                lemma_keeps(start, it2, *p);
                lemma_nodes_node(it2.events@, p.events@, from, d, SyntaxKind::PROPERTY, lines);
                lemma_lines_node(it2.events@, p.events@, from, d, toks, SyntaxKind::PROPERTY);
                lemma_property_node(it2, *p, from, d);
            }
        } else if k == Some(SyntaxKind::IDENT) || k == Some(SyntaxKind::LT) {
            parse_property(p);
            proof {
                lemma_keeps(start, it2, *p);
                lemma_nodes_node(it2.events@, p.events@, from, d, SyntaxKind::PROPERTY, lines);
                lemma_lines_node(it2.events@, p.events@, from, d, toks, SyntaxKind::PROPERTY);
                lemma_property_node(it2, *p, from, d);
            }
        } else {
            recover_to(p, anchors.as_slice());
            let ghost r = *p;
            proof {
                lemma_keeps(start, it2, r);
                lemma_tokens_from_push(it2.pos as int, it2.pos as int);
                assert(skipped(it2) =~= it2.events@);
                if at_anchor_kind(real_kind(it2), anchors@) {
                    lemma_nodes_no_start(it2.events@, r.events@, from, d, lines);
                    lemma_lines_grow(it2.events@, r.events@, from, d, toks);
                    lemma_props_grow(it2.events@, r.events@, from, d, toks);
                } else {
                    lemma_nodes_error(it2.events@, r.events@, from, d, lines);
                    lemma_lines_error(it2.events@, r.events@, from, d, toks);
                    lemma_props_grow(it2.events@, r.events@, from, d, toks);
                }
            }
            let k2 = p.current();
            if !(k2.is_none() || k2 == Some(SyntaxKind::DEDENT) || k2 == Some(SyntaxKind::IDENT)) {
                p.bump_as_error();
                proof {
                    lemma_keeps(start, r, *p);
                    lemma_step_trans(it2, r, *p);
                    lemma_nodes_error(r.events@, p.events@, from, d, lines);
                    lemma_lines_error(r.events@, p.events@, from, d, toks);
                    lemma_props_grow(r.events@, p.events@, from, d, toks);
                }
            }
        }
        proof {
            lemma_step_trans(b, it2, *p);
        }
    }
    let ghost c = *p;
    proof {
        lemma_depth_nonneg(start.events@);
    }
    p.finish();
    proof {
        lemma_keeps(start, c, *p);
        lemma_wrap(start, b, c, *p, SyntaxKind::MAPPING_BODY);
        lemma_wrap_node(start, b, c, *p, SyntaxKind::MAPPING_BODY);
        lemma_push(c.events@, Event::Finish);
        lemma_nodes_no_start(c.events@, p.events@, from, d, lines);
        lemma_lines_grow(c.events@, p.events@, from, d, toks);
        lemma_props_grow(c.events@, p.events@, from, d, toks);
    }
}

/// `@subject = Expression`: a `PROPERTY` node whose `PROPERTY_LHS` holds the
/// attribute; the cursor is at it.
pub fn parse_subject_assign(p: &mut Parser)
    requires
        inv(*old(p)),
    ensures
        keeps_reports(old(p).diagnostics@, final(p).diagnostics@),
        step(*old(p), *final(p)),
        wraps(old(p).events@, final(p).events@, SyntaxKind::PROPERTY),
        old(p).pos < old(p).tokens@.len() ==> final(p).pos > old(p).pos,
        old(p).pos < old(p).tokens@.len() ==> final(p).events@.subrange(
            old(p).events@.len() + 1int,
            old(p).events@.len() + 4int,
        ) == seq![
            Event::Start(SyntaxKind::PROPERTY_LHS),
            Event::Token(old(p).pos),
            Event::Finish,
        ],
        ends_with(final(p).events@, old(p).events@.len() as int, SyntaxKind::EXPR),
{
    let ghost start = *p;
    let anchors = mapping_body_anchors();
    p.start(SyntaxKind::PROPERTY);
    let ghost b = *p;
    p.start(SyntaxKind::PROPERTY_LHS);
    let ghost lb = *p;
    p.bump();
    let ghost lc = *p;
    proof {
        lemma_depth_nonneg(start.events@);
    }
    p.finish();
    proof {
        lemma_wrap(b, lb, lc, *p, SyntaxKind::PROPERTY_LHS);
    }
    let ghost x1 = *p;
    expect_or_recover(p, SyntaxKind::ASSIGN, anchors.as_slice());
    let ghost x2 = *p;
    parse_expr(p);
    let ghost c = *p;
    proof {
        lemma_step_trans(b, x1, x2);
        lemma_step_trans(b, x2, c);
    }
    p.finish();
    proof {
        lemma_wrap(start, b, c, *p, SyntaxKind::PROPERTY);
        lemma_wrap_node(start, b, c, *p, SyntaxKind::PROPERTY);
        lemma_ends_with(x2.events@, c.events@, p.events@, start.events@.len() as int, SyntaxKind::EXPR);
        if start.pos < start.tokens@.len() {
            let n = start.events@.len() as int;
            assert(x1.events@.subrange(n + 1, n + 4) =~= seq![
                Event::Start(SyntaxKind::PROPERTY_LHS),
                Event::Token(start.pos),
                Event::Finish,
            ]);
            assert(p.events@.take(x1.events@.len() as int) =~= x1.events@);
            assert(p.events@.subrange(n + 1, n + 4) =~= x1.events@.subrange(n + 1, n + 4));
        }
    }
}

/// `key = Expression`, under a `PROPERTY` node. An `<…>` key takes its whole
/// line, value and all, under the `PROPERTY_LHS`.
pub fn parse_property(p: &mut Parser)
    requires
        inv(*old(p)),
    ensures
        keeps_reports(old(p).diagnostics@, final(p).diagnostics@),
        step(*old(p), *final(p)),
        wraps(old(p).events@, final(p).events@, SyntaxKind::PROPERTY),
        real_kind(*old(p)) == Some(SyntaxKind::IDENT) || real_kind(*old(p)) == Some(
            SyntaxKind::LT,
        ) ==> final(p).pos > old(p).pos,
        real_kind(*old(p)) != Some(SyntaxKind::LT) ==> ends_with(
            final(p).events@,
            old(p).events@.len() as int,
            SyntaxKind::EXPR,
        ),
{
    let ghost start = *p;
    let anchors = mapping_body_anchors();
    p.start(SyntaxKind::PROPERTY);
    let ghost b = *p;
    p.skip_trivia();
    let ghost x0 = *p;
    proof {
        lemma_step_refl(b);
        lemma_step_trans(b, b, x0);
        lemma_depth_nonneg(start.events@);
        lemma_next_real_here(start.tokens@, start.pos as int);
        lemma_next_real(start.tokens@, start.pos as int);
    }
    if p.current() == Some(SyntaxKind::LT) {
        p.start(SyntaxKind::PROPERTY_LHS);
        let ghost lb = *p;
        p.retire(retired::ABSOLUTE_IRI, RetiredRun::Line);
        let ghost lc = *p;
        p.finish();
        proof {
            lemma_wrap(x0, lb, lc, *p, SyntaxKind::PROPERTY_LHS);
            lemma_step_trans(b, x0, *p);
        }
        let ghost c = *p;
        p.finish();
        proof {
            lemma_wrap(start, b, c, *p, SyntaxKind::PROPERTY);
            lemma_wrap_node(start, b, c, *p, SyntaxKind::PROPERTY);
        }
        return;
    }
    parse_property_lhs(p);
    let ghost x1 = *p;
    expect_or_recover(p, SyntaxKind::ASSIGN, anchors.as_slice());
    let ghost x2 = *p;
    parse_expr(p);
    let ghost c = *p;
    proof {
        lemma_step_trans(b, x0, x1);
        lemma_step_trans(b, x1, x2);
        lemma_step_trans(b, x2, c);
    }
    p.finish();
    proof {
        lemma_wrap(start, b, c, *p, SyntaxKind::PROPERTY);
        lemma_wrap_node(start, b, c, *p, SyntaxKind::PROPERTY);
        lemma_ends_with(x2.events@, c.events@, p.events@, start.events@.len() as int, SyntaxKind::EXPR);
    }
}

/// A property key, under a `PROPERTY_LHS` node; a CURIE key is refused over
/// its three tokens.
pub fn parse_property_lhs(p: &mut Parser)
    requires
        inv(*old(p)),
    ensures
        keeps_reports(old(p).diagnostics@, final(p).diagnostics@),
        step(*old(p), *final(p)),
        wraps(old(p).events@, final(p).events@, SyntaxKind::PROPERTY_LHS),
        real_kind(*old(p)) == Some(SyntaxKind::IDENT) ==> final(p).pos > old(p).pos,
        shape_curie_at(*old(p)) ==> reported_retired(
            old(p).diagnostics@,
            final(p).diagnostics@,
            retired::CURIE@,
        ),
        !shape_curie_at(*old(p)) && real_kind(*old(p)) == Some(SyntaxKind::IDENT) ==> final(p).diagnostics@ == old(p).diagnostics@,
{
    let ghost start = *p;
    let anchors = mapping_body_anchors();
    p.start(SyntaxKind::PROPERTY_LHS);
    let ghost b = *p;
    p.skip_trivia();
    let ghost x0 = *p;
    proof {
        assert(kind_at(x0, 0) == kind_at(start, 0));
        assert(kind_at(x0, 1) == kind_at(start, 1));
        assert(kind_at(x0, 2) == kind_at(start, 2));
        lemma_step_refl(b);
        lemma_step_trans(b, b, x0);
        lemma_depth_nonneg(start.events@);
        lemma_next_real_here(start.tokens@, start.pos as int);
        lemma_next_real(start.tokens@, start.pos as int);
    }
    if p.current() == Some(SyntaxKind::IDENT) && p.peek_kind(1) == Some(SyntaxKind::SHAPE_SEP)
        && p.peek_kind(2) == Some(SyntaxKind::IDENT) {
        p.retire(retired::CURIE, RetiredRun::Count(3));
    } else {
        expect_or_recover(p, SyntaxKind::IDENT, anchors.as_slice());
    }
    let ghost c = *p;
    proof {
        lemma_step_trans(b, x0, c);
    }
    p.finish();
    proof {
        lemma_wrap(start, b, c, *p, SyntaxKind::PROPERTY_LHS);
        lemma_wrap_node(start, b, c, *p, SyntaxKind::PROPERTY_LHS);
    }
}

} // verus!
