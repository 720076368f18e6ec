//! Parsing a source text: lex it, lay out its indentation, and parse the
//! tokens into one `PROGRAM` tree that holds every byte of the text.

use vstd::prelude::*;
use vstd::string::StringSliceAdditionalSpecFns;

use crate::diag::ParseDiagnostic;
use crate::indent::{indent_all, lex_with_indents, lexed_view, texts_match, LexedToken, Out};
use crate::indent_laws::{joined, lemma_indent_lossless, piece};
use crate::ast::is_child;
use crate::items::{
    dispatched, item_for, item_kind, item_shaped, items_shaped, only_unlexable, parse_program,
    reports_only_unlexable, reports_unlexable, unlexable,
};
use crate::kind::SyntaxKind;
use crate::parser::{
    above, answered, counts_to, depth, error_nodes, has_error_node, inv, lemma_no_error_nodes,
    lemma_no_node_reports, node_reports, token_ids, well_formed, wraps, Event, Parser,
};

verus! {

/// What a parse produces: the tokens, the events that build the tree over
/// them, and the diagnostics.
pub struct Parse {
    pub tokens: Vec<LexedToken>,
    pub events: Vec<Event>,
    pub diagnostics: Vec<ParseDiagnostic>,
}

/// The events build exactly one node at the top, and it spans all of them.
pub open spec fn one_root(ev: Seq<Event>) -> bool {
    &&& ev.len() >= 2
    &&& ev[0] is Start
    &&& ev.last() is Finish
    &&& depth(ev) == 0
    &&& forall|i: int| 1 <= i < ev.len() ==> depth(#[trigger] ev.take(i)) >= 1
}

/// The nodes directly under the root are items and `ERROR` nodes.
pub open spec fn top_items(ev: Seq<Event>) -> bool {
    forall|j: int| #[trigger] is_child(ev, 0, j) ==> (ev[j] matches Event::Start(k) ==> item_kind(k))
}

/// Each node directly under the root is the item its first token decides:
/// the tokens before the node count to that token.
pub open spec fn items_as_dispatched(ev: Seq<Event>, toks: Seq<LexedToken>) -> bool {
    forall|j: int|
        #[trigger] is_child(ev, 0, j) ==> (ev[j] matches Event::Start(k) ==> k == item_for(
            toks,
            token_ids(ev.take(j)).len() as int,
        ))
}

/// Each node directly under the root other than an `ERROR` node is the item
/// it is, with its parts: a mapping's header (its name, `:`, shape and `from`
/// slots) and, after an `INDENT`, its body, with only properties and `ERROR`
/// nodes directly under it, each the one its line decides and each property
/// with its value; a binding's name, braces, `:=` and expression.
pub open spec fn items_built(ev: Seq<Event>, toks: Seq<LexedToken>, ds: Seq<ParseDiagnostic>) -> bool {
    forall|j: int| #[trigger] is_child(ev, 0, j) ==> item_shaped(ev, toks, ds, j)
}

/// Every report but that of a malformed form is answered by an `ERROR` node
/// in the tree: the tree opens at least as many `ERROR` nodes as there are
/// such reports. Where the tree holds none, every report is of a malformed
/// form, and where there is no such report either, there is none at all.
pub open spec fn reports_answered(ev: Seq<Event>, ds: Seq<ParseDiagnostic>) -> bool {
    &&& node_reports(ds) <= error_nodes(ev)
    &&& !has_error_node(ev) ==> forall|q: int| 0 <= q < ds.len() ==> (#[trigger] ds[q]) is Malformed
}

/// Every node directly under the root that opens at a byte no token rule
/// matches is reported as an unexpected character, at that byte's span.
pub open spec fn unlexable_reported(
    ev: Seq<Event>,
    toks: Seq<LexedToken>,
    ds: Seq<ParseDiagnostic>,
) -> bool {
    forall|j: int|
        #[trigger] is_child(ev, 0, j) && ev[j] is Start && unlexable(
            toks,
            token_ids(ev.take(j)).len() as int,
        ) ==> reports_unlexable(ds, toks, token_ids(ev.take(j)).len() as int)
}

/// Parse a token stream: one `PROGRAM` node over every token, in order, with
/// only items and `ERROR` nodes directly under it, each the item its first
/// token decides and built of its parts. Every report but that of a
/// malformed form is answered by an `ERROR` node in the tree. A node there
/// that opens at a byte no token rule matches is
/// reported as an unexpected character, at that byte's span; where every
/// real token is such a byte or a layout token, those reports, one per byte,
/// are all there is.
pub fn parse_tokens(tokens: Vec<LexedToken>) -> (r: Parse)
    ensures
        r.tokens@ == tokens@,
        well_formed(r.events@, tokens@.len() as int),
        one_root(r.events@),
        r.events@[0] == Event::Start(SyntaxKind::PROGRAM),
        top_items(r.events@),
        items_as_dispatched(r.events@, r.tokens@),
        items_built(r.events@, r.tokens@, r.diagnostics@),
        reports_answered(r.events@, r.diagnostics@),
        unlexable_reported(r.events@, r.tokens@, r.diagnostics@),
        only_unlexable(r.tokens@) ==> reports_only_unlexable(
            r.diagnostics@,
            r.tokens@,
            r.tokens@.len() as int,
        ),
{
    let mut p = Parser::new(tokens);
    let ghost fresh = p;
    parse_program(&mut p);
    proof {
        let ev = p.events@;
        assert(inv(p));
        reveal(answered);
        if !has_error_node(ev) {
            lemma_no_error_nodes(ev);
            lemma_no_node_reports(p.diagnostics@);
        }
        assert(depth(fresh.events@) == 0) by {
            assert(fresh.events@ =~= Seq::<Event>::empty());
        }
        assert(wraps(fresh.events@, ev, SyntaxKind::PROGRAM));
        assert(above(ev.drop_last(), 1, 1));
        assert forall|i: int| 1 <= i < ev.len() implies depth(#[trigger] ev.take(i)) >= 1 by {
            assert(ev.take(i) =~= ev.drop_last().take(i));
        }
        assert(ev.take(0) =~= fresh.events@);
        assert forall|j: int| #[trigger] is_child(ev, 0, j) implies (ev[j] matches Event::Start(k)
            ==> item_kind(k)) by {
            assert(depth(ev.take(j)) == 1);
        }
        assert forall|j: int| #[trigger] is_child(ev, 0, j) implies (ev[j] matches Event::Start(k)
            ==> k == item_for(p.tokens@, token_ids(ev.take(j)).len() as int)) by {
            assert(depth(ev.take(j)) == 1);
            reveal(dispatched);
        }
        assert forall|j: int| #[trigger] is_child(ev, 0, j) implies item_shaped(
            ev,
            p.tokens@,
            p.diagnostics@,
            j,
        ) by {
            assert(depth(ev.take(j)) == 1);
            reveal(items_shaped);
        }
        assert forall|j: int| #[trigger] is_child(ev, 0, j) && ev[j] is Start && unlexable(
            p.tokens@,
            token_ids(ev.take(j)).len() as int,
        ) implies reports_unlexable(p.diagnostics@, p.tokens@, token_ids(ev.take(j)).len() as int) by {
            assert(depth(ev.take(j)) == 1);
        }
    }
    Parse { tokens: p.tokens, events: p.events, diagnostics: p.diagnostics }
}

/// Parse a source text. The tree holds the text: its tokens, read in the
/// order the events visit them, give back every byte. A top-level byte that
/// no token rule matches is reported as an unexpected character, at its span;
/// where every real token is such a byte or a layout token, those reports,
/// one per byte, are all there is.
pub fn parse_text(text: &str) -> (r: Parse)
    ensures
        lexed_view(r.tokens@) == indent_all(text.spec_bytes()),
        texts_match(text.spec_bytes(), r.tokens@),
        well_formed(r.events@, r.tokens@.len() as int),
        one_root(r.events@),
        r.events@[0] == Event::Start(SyntaxKind::PROGRAM),
        top_items(r.events@),
        items_as_dispatched(r.events@, r.tokens@),
        items_built(r.events@, r.tokens@, r.diagnostics@),
        reports_answered(r.events@, r.diagnostics@),
        unlexable_reported(r.events@, r.tokens@, r.diagnostics@),
        only_unlexable(r.tokens@) ==> reports_only_unlexable(
            r.diagnostics@,
            r.tokens@,
            r.tokens@.len() as int,
        ),
        tree_bytes(text.spec_bytes(), r.tokens@, r.events@) == text.spec_bytes(),
{
    let tokens = lex_with_indents(text);
    let r = parse_tokens(tokens);
    proof {
        lemma_parse_lossless(text.spec_bytes(), r.tokens@, r.events@);
    }
    r
}

/// The bytes under a tree's tokens, in the order its events visit them.
pub open spec fn tree_bytes(s: Seq<u8>, toks: Seq<LexedToken>, ev: Seq<Event>) -> Seq<u8>
    decreases ev.len(),
{
    if ev.len() == 0 {
        Seq::empty()
    } else {
        tree_bytes(s, toks, ev.drop_last()) + match ev.last() {
            Event::Token(i) => token_bytes(s, toks, i),
            _ => Seq::empty(),
        }
    }
}

/// The bytes the `i`-th token covers.
pub open spec fn token_bytes(s: Seq<u8>, toks: Seq<LexedToken>, i: usize) -> Seq<u8> {
    if i < toks.len() {
        piece(s, toks[i as int].range.start as int, toks[i as int].range.end as int)
    } else {
        Seq::empty()
    }
}

spec fn ids_bytes(s: Seq<u8>, toks: Seq<LexedToken>, ids: Seq<usize>) -> Seq<u8>
    decreases ids.len(),
{
    if ids.len() == 0 {
        Seq::empty()
    } else {
        ids_bytes(s, toks, ids.drop_last()) + token_bytes(s, toks, ids.last())
    }
}

proof fn lemma_tree_ids(s: Seq<u8>, toks: Seq<LexedToken>, ev: Seq<Event>)
    ensures
        tree_bytes(s, toks, ev) == ids_bytes(s, toks, token_ids(ev)),
    decreases ev.len(),
{
    if ev.len() > 0 {
        lemma_tree_ids(s, toks, ev.drop_last());
        match ev.last() {
            Event::Token(i) => {
                assert(token_ids(ev).drop_last() =~= token_ids(ev.drop_last()));
            },
            _ => {
                assert(tree_bytes(s, toks, ev) =~= tree_bytes(s, toks, ev.drop_last()));
            },
        }
    }
}

proof fn lemma_joined_append(s: Seq<u8>, a: Seq<Out>, b: Seq<Out>)
    ensures
        joined(s, a + b) == joined(s, a) + joined(s, b),
    decreases a.len(),
{
    if a.len() == 0 {
        assert(a + b =~= b);
        assert(joined(s, a) =~= Seq::<u8>::empty());
        assert(joined(s, a) + joined(s, b) =~= joined(s, b));
    } else {
        lemma_joined_append(s, a.drop_first(), b);
        assert((a + b).drop_first() =~= a.drop_first() + b);
        assert((a + b)[0] == a[0]);
        let x = piece(s, a[0].1, a[0].2);
        assert(x + (joined(s, a.drop_first()) + joined(s, b)) =~= (x + joined(s, a.drop_first()))
            + joined(s, b));
    }
}

proof fn lemma_ids_joined(s: Seq<u8>, toks: Seq<LexedToken>, k: int)
    requires
        0 <= k <= toks.len(),
        k <= usize::MAX + 1,
    ensures
        ids_bytes(s, toks, Seq::new(k as nat, |i: int| i as usize)) == joined(
            s,
            lexed_view(toks).take(k),
        ),
    decreases k,
{
    let v = lexed_view(toks);
    let ids = Seq::new(k as nat, |i: int| i as usize);
    if k == 0 {
        assert(v.take(0) =~= Seq::<Out>::empty());
        assert(ids =~= Seq::<usize>::empty());
    } else {
        lemma_ids_joined(s, toks, k - 1);
        assert(ids.drop_last() =~= Seq::new((k - 1) as nat, |i: int| i as usize));
        assert(v.take(k) =~= v.take(k - 1) + seq![v[k - 1]]);
        lemma_joined_append(s, v.take(k - 1), seq![v[k - 1]]);
        let one = seq![v[k - 1]];
        assert(one.len() == 1);
        assert(one[0] == v[k - 1]);
        assert(one.drop_first() =~= Seq::<Out>::empty());
        assert(joined(s, one.drop_first()) =~= Seq::<u8>::empty());
        assert(joined(s, one) =~= piece(s, v[k - 1].1, v[k - 1].2));
        assert(ids.last() == (k - 1) as usize);
    }
}

/// A tree built over the laid-out tokens of a text holds that text: its
/// tokens, read in the order the events visit them, give back every byte.
pub proof fn lemma_parse_lossless(s: Seq<u8>, toks: Seq<LexedToken>, ev: Seq<Event>)
    requires
        lexed_view(toks) == indent_all(s),
        well_formed(ev, toks.len() as int),
    ensures
        tree_bytes(s, toks, ev) == s,
{
    let n = toks.len() as int;
    lemma_tree_ids(s, toks, ev);
    assert(n <= usize::MAX + 1) by {
        assert(counts_to(token_ids(ev), n));
        if n > 0 {
            assert(token_ids(ev)[n - 1] == n - 1);
        }
    }
    assert(token_ids(ev) =~= Seq::new(n as nat, |i: int| i as usize));
    lemma_ids_joined(s, toks, n);
    assert(lexed_view(toks).take(n) =~= lexed_view(toks));
    lemma_indent_lossless(s);
}

} // verus!
