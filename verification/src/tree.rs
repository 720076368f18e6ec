//! The green tree: a parse's events replayed into rowan's builder, which
//! keeps the tree that the syntax layer hands to its readers.

use vstd::prelude::*;
use vstd::utf8::encode_utf8;

use rowan::{GreenNode, GreenNodeBuilder};

use crate::items::{only_unlexable, reports_only_unlexable};
use crate::indent::{indent_all, lexed_view, texts_match, LexedToken};
use crate::parser::{depth, token_ids, well_formed, Event};
use crate::syntax::{items_as_dispatched, items_built, one_root, reports_answered, parse_text, top_items, tree_bytes, unlexable_reported, Parse};
use vstd::string::StringSliceAdditionalSpecFns;

verus! {

#[verifier::external_type_specification]
#[verifier::external_body]
pub struct ExGreenNodeBuilder<'a>(GreenNodeBuilder<'a>);

#[verifier::external_type_specification]
#[verifier::external_body]
pub struct ExGreenNode(GreenNode);

/// One call a builder has taken.
pub enum BuildStep {
    /// `start_node` with this raw kind.
    Open(u16),
    /// `token` with this raw kind and text.
    Leaf(u16, Seq<char>),
    /// `finish_node`.
    Close,
}

/// What a builder holds: the calls it has taken, in order. Its open nodes
/// and finished children are a function of them.
pub uninterp spec fn built(b: GreenNodeBuilder<'static>) -> Seq<BuildStep>;

/// What a green node holds, read back as builder calls: its own kind opened,
/// its children in order (a token by its kind and text, a node in the same
/// way), then closed.
pub uninterp spec fn green_steps(n: GreenNode) -> Seq<BuildStep>;

/// How many nodes a run of builder calls leaves open.
pub open spec fn open_count(s: Seq<BuildStep>) -> int
    decreases s.len(),
{
    if s.len() == 0 {
        0
    } else {
        open_count(s.drop_last()) + match s.last() {
            BuildStep::Open(_) => 1int,
            BuildStep::Close => -1int,
            BuildStep::Leaf(_, _) => 0int,
        }
    }
}

/// How many bytes of text the tokens among the calls hold.
pub open spec fn leaf_bytes(s: Seq<BuildStep>) -> nat
    decreases s.len(),
{
    if s.len() == 0 {
        0
    } else {
        leaf_bytes(s.drop_last()) + match s.last() {
            BuildStep::Leaf(_, t) => encode_utf8(t).len(),
            _ => 0nat,
        }
    }
}

/// The text the tokens among the calls hold, in order, as bytes.
pub open spec fn leaf_text(s: Seq<BuildStep>) -> Seq<u8>
    decreases s.len(),
{
    if s.len() == 0 {
        Seq::empty()
    } else {
        leaf_text(s.drop_last()) + match s.last() {
            BuildStep::Leaf(_, t) => encode_utf8(t),
            _ => Seq::empty(),
        }
    }
}

/// The calls build one node and nothing beside it.
pub open spec fn one_node(s: Seq<BuildStep>) -> bool {
    &&& s.len() >= 2
    &&& s[0] is Open
    &&& s.last() is Close
    &&& open_count(s) == 0
    &&& forall|i: int| 1 <= i < s.len() ==> open_count(#[trigger] s.take(i)) >= 1
}

/// `GreenNodeBuilder::new`: a builder that has taken no call.
#[verifier::external_body]
fn builder_new() -> (b: GreenNodeBuilder<'static>)
    ensures
        built(b) == Seq::<BuildStep>::empty(),
{
    GreenNodeBuilder::new()
}

/// `GreenNodeBuilder::start_node`: opens a node of the raw kind.
#[verifier::external_body]
fn builder_start_node(b: &mut GreenNodeBuilder<'static>, kind: u16)
    ensures
        built(*final(b)) == built(*old(b)).push(BuildStep::Open(kind)),
{
    b.start_node(rowan::SyntaxKind(kind));
}

/// `GreenNodeBuilder::token`: adds a token of the raw kind and text to the
/// open node.
#[verifier::external_body]
fn builder_token(b: &mut GreenNodeBuilder<'static>, kind: u16, text: &str)
    ensures
        built(*final(b)) == built(*old(b)).push(BuildStep::Leaf(kind, text@)),
{
    b.token(rowan::SyntaxKind(kind), text);
}

/// `GreenNodeBuilder::finish_node`: closes the innermost open node. It
/// unwraps the stack of open nodes, so one must be open; and it measures the
/// node's text in a `u32`, so what the tokens hold must fit in one.
#[verifier::external_body]
fn builder_finish_node(b: &mut GreenNodeBuilder<'static>)
    requires
        open_count(built(*old(b))) >= 1,
        leaf_bytes(built(*old(b))) <= u32::MAX,
    ensures
        built(*final(b)) == built(*old(b)).push(BuildStep::Close),
{
    b.finish_node();
}

/// `GreenNodeBuilder::finish`: the finished tree. It asserts that exactly
/// one element was built and that it is a node; that node is the one the
/// calls describe, so read back it gives the calls again.
#[verifier::external_body]
fn builder_finish(b: GreenNodeBuilder<'static>) -> (n: GreenNode)
    requires
        one_node(built(b)),
    ensures
        green_steps(n) == built(b),
{
    b.finish()
}

/// The builder call an event becomes: a node by its raw kind, a token by
/// its raw kind and its text.
pub open spec fn step_of(toks: Seq<LexedToken>, e: Event) -> BuildStep {
    match e {
        Event::Start(k) => BuildStep::Open(k.raw()),
        Event::Token(i) => BuildStep::Leaf(toks[i as int].kind.raw(), toks[i as int].text@),
        Event::Finish => BuildStep::Close,
    }
}

/// The builder calls a run of events becomes.
pub open spec fn replay(toks: Seq<LexedToken>, ev: Seq<Event>) -> Seq<BuildStep> {
    ev.map_values(|e: Event| step_of(toks, e))
}

proof fn lemma_open_count(toks: Seq<LexedToken>, ev: Seq<Event>)
    ensures
        open_count(replay(toks, ev)) == depth(ev),
    decreases ev.len(),
{
    if ev.len() > 0 {
        lemma_open_count(toks, ev.drop_last());
        assert(replay(toks, ev).drop_last() =~= replay(toks, ev.drop_last()));
    }
}

proof fn lemma_replay_take(toks: Seq<LexedToken>, ev: Seq<Event>, i: int)
    requires
        0 <= i <= ev.len(),
    ensures
        replay(toks, ev).take(i) == replay(toks, ev.take(i)),
        open_count(replay(toks, ev).take(i)) == depth(ev.take(i)),
{
    assert(replay(toks, ev).take(i) =~= replay(toks, ev.take(i)));
    lemma_open_count(toks, ev.take(i));
}

/// Every token event names a token of `toks`.
pub open spec fn tokens_within(ev: Seq<Event>, n: int) -> bool {
    forall|j: int| 0 <= j < ev.len() ==> (#[trigger] ev[j] matches Event::Token(t) ==> t < n)
}

/// A finished parse names only tokens it has.
pub proof fn lemma_well_formed_within(ev: Seq<Event>, n: int)
    requires
        well_formed(ev, n),
    ensures
        tokens_within(ev, n),
{
    assert forall|j: int| 0 <= j < ev.len() implies (#[trigger] ev[j] matches Event::Token(t)
        ==> t < n) by {
        if let Event::Token(t) = ev[j] {
            assert(ev.take(j + 1).drop_last() =~= ev.take(j));
            assert(ev.take(j + 1).last() == Event::Token(t));
            assert(token_ids(ev.take(j + 1)) == token_ids(ev.take(j)).push(t));
            lemma_token_ids_prefix(ev, j + 1);
            let ids = token_ids(ev.take(j + 1));
            assert(ids[ids.len() - 1] == t);
            assert(token_ids(ev)[ids.len() - 1] == t);
        }
    }
}

/// The green tree of a run of events: replayed, in order, into a rowan
/// builder, each token with its kind and text.
pub fn green_tree(parse: &Parse) -> (n: GreenNode)
    requires
        tokens_within(parse.events@, parse.tokens@.len() as int),
        one_root(parse.events@),
        leaf_bytes(replay(parse.tokens@, parse.events@)) <= u32::MAX,
    ensures
        green_steps(n) == replay(parse.tokens@, parse.events@),
{
    let ghost toks = parse.tokens@;
    let ghost ev = parse.events@;
    let mut b = builder_new();
    let mut i: usize = 0;
    proof {
        assert(replay(toks, ev.take(0)) =~= Seq::<BuildStep>::empty());
    }
    while i < parse.events.len()
        invariant
            toks == parse.tokens@,
            ev == parse.events@,
            i <= ev.len(),
            tokens_within(ev, toks.len() as int),
            one_root(ev),
            leaf_bytes(replay(toks, ev)) <= u32::MAX,
            built(b) == replay(toks, ev.take(i as int)),
        decreases ev.len() - i,
    {
        proof {
            assert(ev.take(i + 1) =~= ev.take(i as int).push(ev[i as int]));
            assert(replay(toks, ev.take(i + 1)) =~= replay(toks, ev.take(i as int)).push(
                step_of(toks, ev[i as int]),
            ));
        }
        match parse.events[i] {
            Event::Start(k) => {
                builder_start_node(&mut b, k.to_raw());
            },
            Event::Token(t) => {
                proof {
                    assert(ev[i as int] == Event::Token(t));
                }
                builder_token(&mut b, parse.tokens[t].kind.to_raw(), parse.tokens[t].text.as_str());
            },
            Event::Finish => {
                proof {
                    lemma_replay_take(toks, ev, i as int);
                    assert(i >= 1) by {
                        if i == 0 {
                            assert(ev[0] is Start);
                        }
                    }
                    assert(depth(ev.take(i as int)) >= 1);
                    lemma_leaf_bytes_prefix(replay(toks, ev), i as int);
                }
                builder_finish_node(&mut b);
            },
        }
        i = i + 1;
    }
    proof {
        assert(ev.take(ev.len() as int) =~= ev);
        let s = replay(toks, ev);
        lemma_open_count(toks, ev);
        assert forall|j: int| 1 <= j < s.len() implies open_count(#[trigger] s.take(j)) >= 1 by {
            lemma_replay_take(toks, ev, j);
            assert(depth(ev.take(j)) >= 1);
        }
        assert(s[0] == step_of(toks, ev[0]));
        assert(s.last() == step_of(toks, ev.last()));
    }
    builder_finish(b)
}

proof fn lemma_leaf_bytes_prefix(s: Seq<BuildStep>, k: int)
    requires
        0 <= k <= s.len(),
    ensures
        leaf_bytes(s.take(k)) <= leaf_bytes(s),
    decreases s.len() - k,
{
    if k < s.len() {
        lemma_leaf_bytes_prefix(s, k + 1);
        assert(s.take(k + 1).drop_last() =~= s.take(k));
    } else {
        assert(s.take(k) =~= s);
    }
}

/// Over the laid-out tokens of a text, the tokens a run of events visits
/// hold as many bytes as the text those events cover.
proof fn lemma_leaf_bytes_tree(s: Seq<u8>, toks: Seq<LexedToken>, ev: Seq<Event>)
    requires
        texts_match(s, toks),
        tokens_within(ev, toks.len() as int),
    ensures
        leaf_bytes(replay(toks, ev)) == tree_bytes(s, toks, ev).len(),
    decreases ev.len(),
{
    if ev.len() > 0 {
        let d = ev.drop_last();
        assert(tokens_within(d, toks.len() as int)) by {
            assert forall|j: int| 0 <= j < d.len() implies (#[trigger] d[j] matches Event::Token(t)
                ==> t < toks.len()) by {
                assert(d[j] == ev[j]);
            }
        }
        lemma_leaf_bytes_tree(s, toks, d);
        assert(replay(toks, ev).drop_last() =~= replay(toks, d));
        if let Event::Token(t) = ev.last() {
            assert(ev[ev.len() - 1] == ev.last());
            let k = t as int;
            assert(toks[k].range.start <= toks[k].range.end <= s.len());
            assert(encode_utf8(toks[k].text@) == s.subrange(
                toks[k].range.start as int,
                toks[k].range.end as int,
            ));
        }
    }
}

/// Over the laid-out tokens of a text, the tokens a run of events visits
/// hold, in order, the bytes those events cover.
proof fn lemma_leaf_text_tree(s: Seq<u8>, toks: Seq<LexedToken>, ev: Seq<Event>)
    requires
        texts_match(s, toks),
        tokens_within(ev, toks.len() as int),
    ensures
        leaf_text(replay(toks, ev)) == tree_bytes(s, toks, ev),
    decreases ev.len(),
{
    if ev.len() > 0 {
        let d = ev.drop_last();
        assert(tokens_within(d, toks.len() as int)) by {
            assert forall|j: int| 0 <= j < d.len() implies (#[trigger] d[j] matches Event::Token(t)
                ==> t < toks.len()) by {
                assert(d[j] == ev[j]);
            }
        }
        lemma_leaf_text_tree(s, toks, d);
        assert(replay(toks, ev).drop_last() =~= replay(toks, d));
        if let Event::Token(t) = ev.last() {
            assert(ev[ev.len() - 1] == ev.last());
            let k = t as int;
            assert(toks[k].range.start <= toks[k].range.end <= s.len());
            assert(encode_utf8(toks[k].text@) == s.subrange(
                toks[k].range.start as int,
                toks[k].range.end as int,
            ));
        } else {
            assert(leaf_text(replay(toks, ev)) =~= leaf_text(replay(toks, d)));
            assert(tree_bytes(s, toks, ev) =~= tree_bytes(s, toks, d));
        }
    }
}

/// The token indices of a prefix of `ev` are a prefix of those of `ev`.
proof fn lemma_token_ids_prefix(ev: Seq<Event>, k: int)
    requires
        0 <= k <= ev.len(),
    ensures
        token_ids(ev.take(k)).len() <= token_ids(ev).len(),
        forall|j: int|
            0 <= j < token_ids(ev.take(k)).len() ==> #[trigger] token_ids(ev.take(k))[j]
                == token_ids(ev)[j],
    decreases ev.len() - k,
{
    if k < ev.len() {
        lemma_token_ids_prefix(ev, k + 1);
        assert(ev.take(k + 1).drop_last() =~= ev.take(k));
        let a = token_ids(ev.take(k));
        let b = token_ids(ev.take(k + 1));
        assert(b.len() >= a.len());
        assert forall|j: int| 0 <= j < a.len() implies #[trigger] a[j] == token_ids(ev)[j] by {
            assert(b[j] == a[j]);
            assert(b[j] == token_ids(ev)[j]);
        }
    } else {
        assert(ev.take(k) =~= ev);
    }
}

/// The root of a parsed file's tree.
#[derive(Debug)]
pub struct CstRoot {
    green: GreenNode,
}

impl CstRoot {
    /// The tree this root holds.
    pub closed spec fn tree(self) -> GreenNode {
        self.green
    }

    pub fn new(green: GreenNode) -> (r: Self)
        ensures
            r.tree() == green,
    {
        CstRoot { green }
    }

    /// The green tree.
    pub fn green(&self) -> (g: &GreenNode)
        ensures
            *g == self.tree(),
    {
        &self.green
    }
}

/// Parse a source text into its tree. The parse is lossless and holds one
/// `PROGRAM` node over every token, with only items and `ERROR` nodes
/// directly under it, each the one its first token decides and built of its
/// parts (a mapping's header slots and body, a binding's braces, `:=` and
/// expression). Every report but that of a malformed form is answered by an
/// `ERROR` node in the tree. The tree is the
/// one its events build, and the text its tokens hold, in order, is the
/// source text. A top-level byte that no token rule matches is reported as
/// an unexpected character at its span; where every real token is such a
/// byte or a layout token, those reports, one per byte, are all there is.
pub fn parse(text: &str) -> (r: (Parse, CstRoot))
    requires
        text.spec_bytes().len() <= u32::MAX,
    ensures
        lexed_view(r.0.tokens@) == indent_all(text.spec_bytes()),
        well_formed(r.0.events@, r.0.tokens@.len() as int),
        one_root(r.0.events@),
        top_items(r.0.events@),
        items_as_dispatched(r.0.events@, r.0.tokens@),
        items_built(r.0.events@, r.0.tokens@, r.0.diagnostics@),
        reports_answered(r.0.events@, r.0.diagnostics@),
        unlexable_reported(r.0.events@, r.0.tokens@, r.0.diagnostics@),
        only_unlexable(r.0.tokens@) ==> reports_only_unlexable(
            r.0.diagnostics@,
            r.0.tokens@,
            r.0.tokens@.len() as int,
        ),
        tree_bytes(text.spec_bytes(), r.0.tokens@, r.0.events@) == text.spec_bytes(),
        green_steps(r.1.tree()) == replay(r.0.tokens@, r.0.events@),
        leaf_text(green_steps(r.1.tree())) == text.spec_bytes(),
{
    let parsed = parse_text(text);
    proof {
        lemma_well_formed_within(parsed.events@, parsed.tokens@.len() as int);
        lemma_leaf_bytes_tree(text.spec_bytes(), parsed.tokens@, parsed.events@);
        lemma_leaf_text_tree(text.spec_bytes(), parsed.tokens@, parsed.events@);
    }
    let green = green_tree(&parsed);
    (parsed, CstRoot::new(green))
}

} // verus!
