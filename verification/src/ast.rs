//! Typed views over a parse. A node is named by the index of the event that
//! opens it; its children are the nodes and tokens directly under it, in
//! order.

use vstd::prelude::*;

use crate::kind::SyntaxKind;
use crate::parser::{delta, depth, Event};
use crate::syntax::Parse;
use crate::tree::tokens_within;

verus! {

/// How many more nodes are open before event `j` than before event `at`.
pub open spec fn rel_depth(ev: Seq<Event>, at: int, j: int) -> int {
    depth(ev.take(j)) - depth(ev.take(at))
}

/// The node opened at `at` is still open before event `j`.
pub open spec fn open_at(ev: Seq<Event>, at: int, j: int) -> bool {
    forall|m: int| at < m <= j ==> rel_depth(ev, at, m) >= 1
}

/// Event `j` is a child of the node opened at `at`: a node that opens, or a
/// token, directly under it.
pub open spec fn is_child(ev: Seq<Event>, at: int, j: int) -> bool {
    &&& at < j < ev.len()
    &&& open_at(ev, at, j)
    &&& rel_depth(ev, at, j) == 1
    &&& !(ev[j] is Finish)
}

/// `s` is strictly increasing.
pub open spec fn increasing(s: Seq<usize>) -> bool {
    forall|a: int, b: int| 0 <= a < b < s.len() ==> s[a] < s[b]
}

proof fn lemma_depth_step(ev: Seq<Event>, i: int)
    requires
        0 <= i < ev.len(),
    ensures
        depth(ev.take(i + 1)) == depth(ev.take(i)) + delta(ev[i]),
{
    assert(ev.take(i + 1).drop_last() =~= ev.take(i));
}

/// `s` lists exactly the children of the node opened at `at`, in order.
pub open spec fn lists_children(ev: Seq<Event>, at: int, s: Seq<usize>) -> bool {
    &&& increasing(s)
    &&& forall|q: int| 0 <= q < s.len() ==> is_child(ev, at, #[trigger] s[q] as int)
    &&& forall|j: int| #[trigger] is_child(ev, at, j) ==> exists|q: int| 0 <= q < s.len() && s[q] == j
}

/// The children of the node opened at `at`, in order, by the index of the
/// event of each.
pub fn children(ev: &Vec<Event>, at: usize) -> (r: Vec<usize>)
    requires
        at < ev@.len(),
        ev@[at as int] is Start,
    ensures
        lists_children(ev@, at as int, r@),
{
    let n = ev.len();
    let mut out: Vec<usize> = Vec::new();
    let mut d: usize = 1;
    let mut i: usize = at + 1;
    proof {
        lemma_depth_step(ev@, at as int);
    }
    while i < n && d > 0
        invariant
            n == ev@.len(),
            at < i <= n,
            ev@[at as int] is Start,
            d == rel_depth(ev@, at as int, i as int),
            d <= i - at,
            forall|m: int| at < m < i ==> rel_depth(ev@, at as int, m) >= 1,
            increasing(out@),
            forall|q: int| 0 <= q < out@.len() ==> #[trigger] out@[q] < i,
            forall|q: int| 0 <= q < out@.len() ==> is_child(ev@, at as int, #[trigger] out@[q] as int),
            forall|j: int|
                #[trigger] is_child(ev@, at as int, j) && j < i ==> exists|q: int|
                    0 <= q < out@.len() && out@[q] == j,
        decreases n - i,
    {
        proof {
            lemma_depth_step(ev@, i as int);
            assert(open_at(ev@, at as int, i as int));
        }
        let ghost before = out@;
        let e = ev[i];
        let take = d == 1 && !(e == Event::Finish);
        if take {
            out.push(i);
        }
        match e {
            Event::Start(_) => {
                d = d + 1;
            },
            Event::Finish => {
                d = d - 1;
            },
            Event::Token(_) => {},
        }
        proof {
            if take {
                assert(out@ == before.push(i));
                assert(is_child(ev@, at as int, i as int));
                assert(out@[before.len() as int] == i);
            } else {
                assert(out@ == before);
            }
            assert forall|j: int|
                #[trigger] is_child(ev@, at as int, j) && j < i + 1 implies exists|q: int|
                    0 <= q < out@.len() && out@[q] == j by {
                if j < i {
                    let q = choose|q: int| 0 <= q < before.len() && before[q] == j;
                    assert(out@[q] == j);
                } else {
                    assert(j == i);
                    assert(out@[before.len() as int] == i);
                }
            }
        }
        i = i + 1;
    }
    proof {
        assert forall|j: int| #[trigger] is_child(ev@, at as int, j) implies exists|q: int|
            0 <= q < out@.len() && out@[q] == j by {
            if j >= i {
                if i < n {
                    assert(d == 0);
                    assert(rel_depth(ev@, at as int, i as int) >= 1);
                }
            }
        }
    }
    out
}

/// `r` is the first child of the node opened at `at` that is a node of
/// kind `k`, or `None` where it has none.
pub open spec fn first_child_is(ev: Seq<Event>, at: int, k: SyntaxKind, r: Option<usize>) -> bool {
    match r {
        Some(j) => is_child(ev, at, j as int) && ev[j as int] == Event::Start(k) && forall|m: int|
            #![trigger is_child(ev, at, m)]
            at < m < j ==> !(is_child(ev, at, m) && ev[m] == Event::Start(k)),
        None => forall|m: int|
            #![trigger is_child(ev, at, m)]
            !(is_child(ev, at, m) && ev[m] == Event::Start(k)),
    }
}

/// `s` lists exactly the children of the node opened at `at` that are nodes
/// of kind `k`, in order.
pub open spec fn lists_kind_children(ev: Seq<Event>, at: int, k: SyntaxKind, s: Seq<usize>) -> bool {
    &&& increasing(s)
    &&& forall|q: int|
        0 <= q < s.len() ==> is_child(ev, at, #[trigger] s[q] as int) && ev[s[q] as int]
            == Event::Start(k)
    &&& forall|j: int|
        #[trigger] is_child(ev, at, j) && ev[j] == Event::Start(k) ==> exists|q: int|
            0 <= q < s.len() && s[q] == j
}

/// `r` is the text of the first child of the node opened at `at` that is a
/// token of kind `k`, or `None` where it has none.
pub open spec fn first_token_is(parse: &Parse, at: int, k: SyntaxKind, r: Option<String>) -> bool {
    match r {
        Some(t) => exists|j: int|
            #![trigger token_child_of_kind(parse, at, j, k)]
            token_child_of_kind(parse, at, j, k) && parse.tokens@[parse.events@[j]->Token_0 as int].text@
                == t@ && forall|m: int|
                #![trigger token_child_of_kind(parse, at, m, k)]
                at < m < j ==> !token_child_of_kind(parse, at, m, k),
        None => forall|m: int|
            #![trigger token_child_of_kind(parse, at, m, k)]
            !token_child_of_kind(parse, at, m, k),
    }
}

/// The first child of the node opened at `at` that is a node of kind `k`.
pub fn first_child_node(ev: &Vec<Event>, at: usize, k: SyntaxKind) -> (r: Option<usize>)
    requires
        at < ev@.len(),
        ev@[at as int] is Start,
    ensures
        first_child_is(ev@, at as int, k, r),
{
    let kids = children(ev, at);
    let mut i: usize = 0;
    while i < kids.len()
        invariant
            i <= kids@.len(),
            lists_children(ev@, at as int, kids@),
            forall|q: int| 0 <= q < i ==> ev@[#[trigger] kids@[q] as int] != Event::Start(k),
        decreases kids@.len() - i,
    {
        let j = kids[i];
        assert(is_child(ev@, at as int, kids@[i as int] as int));
        if ev[j] == Event::Start(k) {
            proof {
                assert forall|m: int|
                    #![trigger is_child(ev@, at as int, m)]
                    at < m < j implies !(is_child(ev@, at as int, m) && ev@[m] == Event::Start(k)) by {
                    if is_child(ev@, at as int, m) && ev@[m] == Event::Start(k) {
                        let q = choose|q: int| 0 <= q < kids@.len() && kids@[q] == m;
                        if q >= i {
                            if q > i {
                                assert(kids@[i as int] < kids@[q]);
                            }
                        } else {
                            assert(ev@[kids@[q] as int] != Event::Start(k));
                        }
                    }
                }
            }
            return Some(j);
        }
        i = i + 1;
    }
    proof {
        assert forall|m: int|
            #![trigger is_child(ev@, at as int, m)]
            !(is_child(ev@, at as int, m) && ev@[m] == Event::Start(k)) by {
            if is_child(ev@, at as int, m) && ev@[m] == Event::Start(k) {
                let q = choose|q: int| 0 <= q < kids@.len() && kids@[q] == m;
                assert(ev@[kids@[q] as int] != Event::Start(k));
            }
        }
    }
    None
}

/// The children of the node opened at `at` that are nodes of kind `k`, in
/// order.
pub fn child_nodes_of_kind(ev: &Vec<Event>, at: usize, k: SyntaxKind) -> (r: Vec<usize>)
    requires
        at < ev@.len(),
        ev@[at as int] is Start,
    ensures
        lists_kind_children(ev@, at as int, k, r@),
{
    let kids = children(ev, at);
    let mut out: Vec<usize> = Vec::new();
    let mut i: usize = 0;
    while i < kids.len()
        invariant
            i <= kids@.len(),
            lists_children(ev@, at as int, kids@),
            increasing(out@),
            forall|q: int| 0 <= q < out@.len() ==> is_child(ev@, at as int, #[trigger] out@[q] as int)
                && ev@[out@[q] as int] == Event::Start(k),
            i > 0 ==> forall|q: int| 0 <= q < out@.len() ==> #[trigger] out@[q] <= kids@[i - 1],
            i == 0 ==> out@.len() == 0,
            forall|p: int|
                0 <= p < i && ev@[#[trigger] kids@[p] as int] == Event::Start(k) ==> exists|q: int|
                    0 <= q < out@.len() && out@[q] == kids@[p],
        decreases kids@.len() - i,
    {
        let j = kids[i];
        assert(is_child(ev@, at as int, kids@[i as int] as int));
        let ghost before = out@;
        if ev[j] == Event::Start(k) {
            out.push(j);
            proof {
                assert(out@[before.len() as int] == j);
                if i > 0 {
                    assert(kids@[i - 1] < kids@[i as int]);
                }
            }
        }
        proof {
            assert forall|q: int| 0 <= q < out@.len() implies #[trigger] out@[q] <= kids@[i as int] by {
                if q < before.len() {
                    assert(out@[q] == before[q]);
                    assert(i > 0);
                    assert(before[q] <= kids@[i - 1]);
                    assert(kids@[i - 1] < kids@[i as int]);
                }
            }
            assert forall|a: int, b: int| 0 <= a < b < out@.len() implies out@[a] < out@[b] by {
                if b == before.len() {
                    assert(out@[a] == before[a]);
                    assert(i > 0);
                    assert(kids@[i - 1] < kids@[i as int]);
                    assert(before[a] <= kids@[i - 1]);
                } else {
                    assert(out@[a] == before[a]);
                    assert(out@[b] == before[b]);
                }
            }
            assert forall|p: int|
                0 <= p < i + 1 && ev@[#[trigger] kids@[p] as int] == Event::Start(k) implies exists|q: int|
                    0 <= q < out@.len() && out@[q] == kids@[p] by {
                if p < i {
                    let q = choose|q: int| 0 <= q < before.len() && before[q] == kids@[p];
                    assert(out@[q] == kids@[p]);
                } else {
                    assert(out@[before.len() as int] == j);
                }
            }
        }
        i = i + 1;
    }
    proof {
        assert forall|j: int|
            #[trigger] is_child(ev@, at as int, j) && ev@[j] == Event::Start(k) implies exists|q: int|
                0 <= q < out@.len() && out@[q] == j by {
            let p = choose|p: int| 0 <= p < kids@.len() && kids@[p] == j;
            assert(ev@[kids@[p] as int] == Event::Start(k));
        }
    }
    out
}

/// The text of the first child of the node opened at `at` that is a token
/// of kind `k`.
pub fn first_token_text(parse: &Parse, at: usize, k: SyntaxKind) -> (r: Option<String>)
    requires
        at < parse.events@.len(),
        parse.events@[at as int] is Start,
        tokens_within(parse.events@, parse.tokens@.len() as int),
    ensures
        first_token_is(parse, at as int, k, r),
{
    let kids = children(&parse.events, at);
    let mut q: usize = 0;
    while q < kids.len()
        invariant
            q <= kids@.len(),
            tokens_within(parse.events@, parse.tokens@.len() as int),
            lists_children(parse.events@, at as int, kids@),
            forall|p: int| 0 <= p < q ==> !token_child_of_kind(parse, at as int, #[trigger] kids@[p] as int, k),
        decreases kids@.len() - q,
    {
        let j = kids[q];
        assert(is_child(parse.events@, at as int, kids@[q as int] as int));
        match parse.events[j] {
            Event::Token(i) => {
                assert(parse.events@[j as int] == Event::Token(i));
                if parse.tokens[i].kind == k {
                    proof {
                        assert(token_child_of_kind(parse, at as int, j as int, k));
                        assert forall|m: int|
                            #![trigger token_child_of_kind(parse, at as int, m, k)]
                            at < m < j implies !token_child_of_kind(parse, at as int, m, k) by {
                            if token_child_of_kind(parse, at as int, m, k) {
                                let p = choose|p: int| 0 <= p < kids@.len() && kids@[p] == m;
                                if p >= q {
                                    if p > q {
                                        assert(kids@[q as int] < kids@[p]);
                                    }
                                } else {
                                    assert(!token_child_of_kind(parse, at as int, kids@[p] as int, k));
                                }
                            }
                        }
                    }
                    return Some(parse.tokens[i].text.clone());
                }
            },
            _ => {},
        }
        q = q + 1;
    }
    proof {
        assert forall|m: int|
            #![trigger token_child_of_kind(parse, at as int, m, k)]
            !token_child_of_kind(parse, at as int, m, k) by {
            if token_child_of_kind(parse, at as int, m, k) {
                let p = choose|p: int| 0 <= p < kids@.len() && kids@[p] == m;
                assert(!token_child_of_kind(parse, at as int, kids@[p] as int, k));
            }
        }
    }
    None
}

/// Event `m` is a token of kind `k` directly under the node opened at `at`.
pub open spec fn token_child_of_kind(parse: &Parse, at: int, m: int, k: SyntaxKind) -> bool {
    &&& is_child(parse.events@, at, m)
    &&& parse.events@[m] is Token
    &&& parse.events@[m]->Token_0 < parse.tokens@.len()
    &&& parse.tokens@[parse.events@[m]->Token_0 as int].kind == k
}

/// The event at `at` opens a node of kind `k`.
pub open spec fn is_node(parse: &Parse, at: usize, k: SyntaxKind) -> bool {
    at < parse.events@.len() && parse.events@[at as int] == Event::Start(k)
}

/// The node's tokens all belong to the parse.
pub open spec fn sound(parse: &Parse) -> bool {
    tokens_within(parse.events@, parse.tokens@.len() as int)
}

/// The node of kind `k` at `at`, if that is what opens there.
fn cast_at(parse: &Parse, at: usize, k: SyntaxKind) -> (r: bool)
    ensures
        r == is_node(parse, at, k),
{
    at < parse.events.len() && parse.events[at] == Event::Start(k)
}

/// A `SOURCE_DEF` node: `name := expr`.
#[derive(Debug, Clone, Copy, PartialEq, Eq, Structural)]
pub struct SourceDef {
    pub at: usize,
}

/// A `MAPPING` node.
#[derive(Debug, Clone, Copy, PartialEq, Eq, Structural)]
pub struct Mapping {
    pub at: usize,
}

/// A `MAPPING_HEADER` node: `Name : Shape from expr`.
#[derive(Debug, Clone, Copy, PartialEq, Eq, Structural)]
pub struct MappingHeader {
    pub at: usize,
}

/// A `MAPPING_BODY` node.
#[derive(Debug, Clone, Copy, PartialEq, Eq, Structural)]
pub struct MappingBody {
    pub at: usize,
}

/// A `PROPERTY` node, a key or `@subject` and its value.
#[derive(Debug, Clone, Copy, PartialEq, Eq, Structural)]
pub struct Property {
    pub at: usize,
}

/// A `SHAPE_EXPR` node: the shape a mapping writes.
#[derive(Debug, Clone, Copy, PartialEq, Eq, Structural)]
pub struct ShapeExpr {
    pub at: usize,
}

impl SourceDef {
    pub fn cast(parse: &Parse, at: usize) -> (r: Option<Self>)
        ensures
            r == if is_node(parse, at, SyntaxKind::SOURCE_DEF) {
                Some(SourceDef { at })
            } else {
                None
            },
    {
        if cast_at(parse, at, SyntaxKind::SOURCE_DEF) {
            Some(SourceDef { at })
        } else {
            None
        }
    }

    /// The bound name: the first identifier directly under the node.
    pub fn name(&self, parse: &Parse) -> (r: Option<String>)
        requires
            is_node(parse, self.at, SyntaxKind::SOURCE_DEF),
            sound(parse),
        ensures
            first_token_is(parse, self.at as int, SyntaxKind::IDENT, r),
    {
        first_token_text(parse, self.at, SyntaxKind::IDENT)
    }
}

impl Mapping {
    pub fn cast(parse: &Parse, at: usize) -> (r: Option<Self>)
        ensures
            r == if is_node(parse, at, SyntaxKind::MAPPING) {
                Some(Mapping { at })
            } else {
                None
            },
    {
        if cast_at(parse, at, SyntaxKind::MAPPING) {
            Some(Mapping { at })
        } else {
            None
        }
    }

    /// The mapping's header.
    pub fn header(&self, parse: &Parse) -> (r: Option<MappingHeader>)
        requires
            is_node(parse, self.at, SyntaxKind::MAPPING),
        ensures
            first_child_is(
                parse.events@,
                self.at as int,
                SyntaxKind::MAPPING_HEADER,
                match r {
                    Some(h) => Some(h.at),
                    None => None,
                },
            ),
    {
        match first_child_node(&parse.events, self.at, SyntaxKind::MAPPING_HEADER) {
            Some(j) => Some(MappingHeader { at: j }),
            None => None,
        }
    }

    /// The mapping's body.
    pub fn body(&self, parse: &Parse) -> (r: Option<MappingBody>)
        requires
            is_node(parse, self.at, SyntaxKind::MAPPING),
        ensures
            first_child_is(
                parse.events@,
                self.at as int,
                SyntaxKind::MAPPING_BODY,
                match r {
                    Some(b) => Some(b.at),
                    None => None,
                },
            ),
    {
        match first_child_node(&parse.events, self.at, SyntaxKind::MAPPING_BODY) {
            Some(j) => Some(MappingBody { at: j }),
            None => None,
        }
    }
}

impl MappingBody {
    /// The body's properties, `@subject` among them, in order.
    pub fn properties(&self, parse: &Parse) -> (r: Vec<Property>)
        requires
            is_node(parse, self.at, SyntaxKind::MAPPING_BODY),
        ensures
            lists_kind_children(
                parse.events@,
                self.at as int,
                SyntaxKind::PROPERTY,
                r@.map_values(|p: Property| p.at),
            ),
    {
        let idx = child_nodes_of_kind(&parse.events, self.at, SyntaxKind::PROPERTY);
        let mut out: Vec<Property> = Vec::new();
        let mut i: usize = 0;
        while i < idx.len()
            invariant
                i <= idx@.len(),
                out@.map_values(|p: Property| p.at) == idx@.take(i as int),
            decreases idx@.len() - i,
        {
            let ghost before = out@;
            out.push(Property { at: idx[i] });
            proof {
                assert(out@ == before.push(Property { at: idx@[i as int] }));
                assert(out@.map_values(|p: Property| p.at) =~= before.map_values(
                    |p: Property| p.at,
                ).push(idx@[i as int]));
                assert(idx@.take(i + 1) =~= idx@.take(i as int).push(idx@[i as int]));
            }
            i = i + 1;
        }
        proof {
            assert(idx@.take(idx@.len() as int) =~= idx@);
        }
        out
    }
}

impl MappingHeader {
    pub fn cast(parse: &Parse, at: usize) -> (r: Option<Self>)
        ensures
            r == if is_node(parse, at, SyntaxKind::MAPPING_HEADER) {
                Some(MappingHeader { at })
            } else {
                None
            },
    {
        if cast_at(parse, at, SyntaxKind::MAPPING_HEADER) {
            Some(MappingHeader { at })
        } else {
            None
        }
    }

    /// The mapping's name: the first identifier directly under the header.
    pub fn name(&self, parse: &Parse) -> (r: Option<String>)
        requires
            is_node(parse, self.at, SyntaxKind::MAPPING_HEADER),
            sound(parse),
        ensures
            first_token_is(parse, self.at as int, SyntaxKind::IDENT, r),
    {
        first_token_text(parse, self.at, SyntaxKind::IDENT)
    }

    /// The shape the mapping writes.
    pub fn shape_expr(&self, parse: &Parse) -> (r: Option<ShapeExpr>)
        requires
            is_node(parse, self.at, SyntaxKind::MAPPING_HEADER),
        ensures
            first_child_is(
                parse.events@,
                self.at as int,
                SyntaxKind::SHAPE_EXPR,
                match r {
                    Some(s) => Some(s.at),
                    None => None,
                },
            ),
    {
        match first_child_node(&parse.events, self.at, SyntaxKind::SHAPE_EXPR) {
            Some(j) => Some(ShapeExpr { at: j }),
            None => None,
        }
    }

    /// The named-graph clause (`in g`). The grammar has no such clause, so no
    /// header holds one.
    pub fn in_clause(&self, _parse: &Parse) -> (r: Option<usize>)
        ensures
            r is None,
    {
        None
    }

    /// The expression after `from`, by the event that opens its `EXPR` node.
    pub fn source_expr(&self, parse: &Parse) -> (r: Option<usize>)
        requires
            is_node(parse, self.at, SyntaxKind::MAPPING_HEADER),
        ensures
            first_child_is(parse.events@, self.at as int, SyntaxKind::EXPR, r),
    {
        first_child_node(&parse.events, self.at, SyntaxKind::EXPR)
    }
}

impl ShapeExpr {
    pub fn cast(parse: &Parse, at: usize) -> (r: Option<Self>)
        ensures
            r == if is_node(parse, at, SyntaxKind::SHAPE_EXPR) {
                Some(ShapeExpr { at })
            } else {
                None
            },
    {
        if cast_at(parse, at, SyntaxKind::SHAPE_EXPR) {
            Some(ShapeExpr { at })
        } else {
            None
        }
    }

    /// The shape's name: the first identifier directly under the node.
    pub fn name(&self, parse: &Parse) -> (r: Option<String>)
        requires
            is_node(parse, self.at, SyntaxKind::SHAPE_EXPR),
            sound(parse),
        ensures
            first_token_is(parse, self.at as int, SyntaxKind::IDENT, r),
    {
        first_token_text(parse, self.at, SyntaxKind::IDENT)
    }
}

impl Property {
    pub fn cast(parse: &Parse, at: usize) -> (r: Option<Self>)
        ensures
            r == if is_node(parse, at, SyntaxKind::PROPERTY) {
                Some(Property { at })
            } else {
                None
            },
    {
        if cast_at(parse, at, SyntaxKind::PROPERTY) {
            Some(Property { at })
        } else {
            None
        }
    }
}

} // verus!
