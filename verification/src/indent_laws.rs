//! Laws of the post-lexer pass: the stream it produces covers the source
//! byte for byte, and its `INDENT` / `DEDENT` tokens balance.

use vstd::prelude::*;

use crate::indent::{
    carve, carve_loop, closing_brace, dedents, find_hole, indent_all, indent_from, kind_of,
    lemma_closing_brace, lemma_find_hole, pop_to, push_changes, raw_to_out, stack_wf, Out,
};
use crate::kind::SyntaxKind;
use crate::lexer::{
    lemma_lex_all_tiles, lemma_lex_all_within, lemma_next_token_len, lex_all, next_token, tiles,
    Token,
};

verus! {

/// The bytes of `s[a..b)`; nothing for a range that is not part of `s`.
pub open spec fn piece(s: Seq<u8>, a: int, b: int) -> Seq<u8> {
    if 0 <= a <= b <= s.len() {
        s.subrange(a, b)
    } else {
        Seq::empty()
    }
}

/// The bytes of the ranges of `v`, in order.
pub open spec fn joined(s: Seq<u8>, v: Seq<Out>) -> Seq<u8>
    decreases v.len(),
{
    if v.len() == 0 {
        Seq::empty()
    } else {
        piece(s, v[0].1, v[0].2) + joined(s, v.drop_first())
    }
}

/// How many tokens of kind `k` a stream holds.
pub open spec fn count_kind(v: Seq<Out>, k: SyntaxKind) -> int
    decreases v.len(),
{
    if v.len() == 0 {
        0
    } else {
        (if v[0].0 == k {
            1int
        } else {
            0int
        }) + count_kind(v.drop_first(), k)
    }
}

pub proof fn lemma_joined_concat(s: Seq<u8>, v1: Seq<Out>, v2: Seq<Out>)
    ensures
        joined(s, v1 + v2) == joined(s, v1) + joined(s, v2),
    decreases v1.len(),
{
    if v1.len() == 0 {
        assert(v1 + v2 =~= v2);
        assert(joined(s, v1) + joined(s, v2) =~= joined(s, v2));
    } else {
        assert((v1 + v2).drop_first() =~= v1.drop_first() + v2);
        lemma_joined_concat(s, v1.drop_first(), v2);
        assert(joined(s, v1 + v2) =~= joined(s, v1) + joined(s, v2));
    }
}

pub proof fn lemma_count_concat(v1: Seq<Out>, v2: Seq<Out>, k: SyntaxKind)
    ensures
        count_kind(v1 + v2, k) == count_kind(v1, k) + count_kind(v2, k),
    decreases v1.len(),
{
    if v1.len() == 0 {
        assert(v1 + v2 =~= v2);
    } else {
        assert((v1 + v2).drop_first() =~= v1.drop_first() + v2);
        lemma_count_concat(v1.drop_first(), v2, k);
    }
}

pub proof fn lemma_joined_one(s: Seq<u8>, k: SyntaxKind, a: int, b: int)
    requires
        0 <= a <= b <= s.len(),
    ensures
        joined(s, seq![(k, a, b)]) == s.subrange(a, b),
{
    let v: Seq<Out> = seq![(k, a, b)];
    assert(v.drop_first() =~= Seq::<Out>::empty());
    assert(joined(s, Seq::<Out>::empty()) == Seq::<u8>::empty());
    assert(v[0] == (k, a, b));
    assert(piece(s, a, b) == s.subrange(a, b));
    assert(joined(s, v) =~= s.subrange(a, b));
}

pub proof fn lemma_count_one(x: Out, k: SyntaxKind)
    ensures
        count_kind(seq![x], k) == if x.0 == k {
            1int
        } else {
            0int
        },
{
    assert(seq![x].drop_first() =~= Seq::<Out>::empty());
    assert(seq![x][0] == x);
    assert(count_kind(Seq::<Out>::empty(), k) == 0);
}

pub proof fn lemma_subrange_join(s: Seq<u8>, a: int, b: int, c: int)
    requires
        0 <= a <= b <= c <= s.len(),
    ensures
        s.subrange(a, b) + s.subrange(b, c) == s.subrange(a, c),
{
    assert(s.subrange(a, b) + s.subrange(b, c) =~= s.subrange(a, c));
}

/// A stream of virtual tokens: every range is empty.
pub open spec fn all_virtual(v: Seq<Out>) -> bool {
    forall|k: int| 0 <= k < v.len() ==> #[trigger] v[k].1 == v[k].2
}

pub proof fn lemma_joined_virtual(s: Seq<u8>, v: Seq<Out>)
    requires
        all_virtual(v),
    ensures
        joined(s, v) == Seq::<u8>::empty(),
    decreases v.len(),
{
    if v.len() > 0 {
        assert(all_virtual(v.drop_first())) by {
            assert forall|k: int| 0 <= k < v.drop_first().len() implies #[trigger] v.drop_first()[k].1
                == v.drop_first()[k].2 by {
                assert(v.drop_first()[k] == v[k + 1]);
            }
        }
        lemma_joined_virtual(s, v.drop_first());
        assert(v[0].1 == v[0].2);
        assert(piece(s, v[0].1, v[0].2) =~= Seq::<u8>::empty());
        assert(joined(s, v) =~= Seq::<u8>::empty());
    }
}

/// The tokens `pop_to` emits are virtual dedents, as many as it pops.
pub proof fn lemma_pop_to(st: Seq<usize>, col: usize, pos: int)
    ensures
        all_virtual(pop_to(st, col, pos).0),
        count_kind(pop_to(st, col, pos).0, SyntaxKind::INDENT) == 0,
        count_kind(pop_to(st, col, pos).0, SyntaxKind::DEDENT) == st.len() - pop_to(
            st,
            col,
            pos,
        ).1.len(),
        pop_to(st, col, pos).1.len() <= st.len(),
        pop_to(st, col, pos).1 == st.subrange(0, pop_to(st, col, pos).1.len() as int),
    decreases st.len(),
{
    if st.len() > 0 && st.last() > col {
        lemma_pop_to(st.drop_last(), col, pos);
        let (d, rest) = pop_to(st.drop_last(), col, pos);
        let out = seq![(SyntaxKind::DEDENT, pos, pos)] + d;
        assert(out.drop_first() =~= d);
        assert forall|k: int| 0 <= k < out.len() implies #[trigger] out[k].1 == out[k].2 by {
            if k > 0 {
                assert(out[k] == d[k - 1]);
            }
        }
        assert(rest =~= st.subrange(0, rest.len() as int));
    } else {
        assert(st =~= st.subrange(0, st.len() as int));
    }
}

/// The tokens `push_changes` emits are virtual, and the indentation tokens
/// among them change the depth by exactly the change in the stack's height.
pub proof fn lemma_push_changes(st: Seq<usize>, col: usize, pos: int)
    requires
        stack_wf(st),
    ensures
        all_virtual(push_changes(st, col, pos).0),
        count_kind(push_changes(st, col, pos).0, SyntaxKind::INDENT) - count_kind(
            push_changes(st, col, pos).0,
            SyntaxKind::DEDENT,
        ) == push_changes(st, col, pos).1.len() - st.len(),
        stack_wf(push_changes(st, col, pos).1),
{
    if col > st.last() {
        lemma_count_one((SyntaxKind::INDENT, pos, pos), SyntaxKind::INDENT);
        lemma_count_one((SyntaxKind::INDENT, pos, pos), SyntaxKind::DEDENT);
        let st2 = st.push(col);
        assert forall|j: int, k: int| 0 <= j < k < st2.len() implies st2[j] < st2[k] by {
            if k < st.len() {
                assert(st2[j] == st[j] && st2[k] == st[k]);
            } else {
                assert(st2[j] == st[j]);
                assert(st[j] <= st.last());
            }
        }
    } else {
        lemma_pop_to(st, col, pos);
        let (d, rest) = pop_to(st, col, pos);
        // the bottom level `0` is never popped
        assert(rest.len() >= 1) by {
            if rest.len() == 0 {
                lemma_pop_to_keeps_bottom(st, col, pos);
            }
        }
        assert(stack_wf(rest)) by {
            assert forall|j: int, k: int| 0 <= j < k < rest.len() implies rest[j] < rest[k] by {
                assert(rest[j] == st[j] && rest[k] == st[k]);
            }
            assert(rest[0] == st[0]);
        }
        if rest.len() == 0 || rest.last() != col {
            let e = seq![(SyntaxKind::ERROR, pos, pos)];
            lemma_count_concat(d, e, SyntaxKind::INDENT);
            lemma_count_concat(d, e, SyntaxKind::DEDENT);
            lemma_count_one((SyntaxKind::ERROR, pos, pos), SyntaxKind::INDENT);
            lemma_count_one((SyntaxKind::ERROR, pos, pos), SyntaxKind::DEDENT);
            let out = d + e;
            assert forall|k: int| 0 <= k < out.len() implies #[trigger] out[k].1 == out[k].2 by {
                if k < d.len() {
                    assert(out[k] == d[k]);
                }
            }
        }
    }
}

/// `pop_to` pops exactly the levels deeper than `col`, one `DEDENT` each,
/// and stops at the first level at most `col`.
proof fn lemma_pop_to_exact(st: Seq<usize>, col: usize, pos: int)
    ensures
        pop_to(st, col, pos).0 == dedents((st.len() - pop_to(st, col, pos).1.len()) as nat, pos),
        pop_to(st, col, pos).1.len() > 0 ==> pop_to(st, col, pos).1.last() <= col,
        forall|j: int|
            pop_to(st, col, pos).1.len() <= j < st.len() ==> #[trigger] st[j] > col,
    decreases st.len(),
{
    lemma_pop_to(st, col, pos);
    if st.len() > 0 && st.last() > col {
        let t = st.drop_last();
        lemma_pop_to_exact(t, col, pos);
        lemma_pop_to(t, col, pos);
        let (d, rest) = pop_to(t, col, pos);
        let m = (t.len() - rest.len()) as nat;
        assert(seq![(SyntaxKind::DEDENT, pos, pos)] + dedents(m, pos) =~= dedents(m + 1, pos));
        assert forall|j: int| rest.len() <= j < st.len() implies #[trigger] st[j] > col by {
            if j < t.len() {
                assert(t[j] == st[j]);
            }
        }
    } else {
        assert(dedents(0, pos) =~= Seq::<Out>::empty());
    }
}

/// One line's indentation against the stack of open levels, whose bottom is
/// `0` and which rises strictly. A deeper column opens a level and gives one
/// `INDENT`. Otherwise the stack drops to its longest prefix whose top is at
/// most the column, one `DEDENT` per level dropped, then an `ERROR` if that
/// top is not the column itself. All of them sit at `pos`, and the stack
/// keeps its shape.
pub proof fn lemma_indent_stack(st: Seq<usize>, col: usize, pos: int)
    requires
        stack_wf(st),
    ensures
        col > st.last() ==> push_changes(st, col, pos) == (
            seq![(SyntaxKind::INDENT, pos, pos)],
            st.push(col),
        ),
        col <= st.last() ==> {
            let out = push_changes(st, col, pos).0;
            let rest = push_changes(st, col, pos).1;
            &&& 1 <= rest.len() <= st.len()
            &&& rest == st.take(rest.len() as int)
            &&& rest.last() <= col
            &&& forall|j: int| rest.len() <= j < st.len() ==> #[trigger] st[j] > col
            &&& out == dedents((st.len() - rest.len()) as nat, pos) + if rest.last() != col {
                seq![(SyntaxKind::ERROR, pos, pos)]
            } else {
                Seq::<Out>::empty()
            }
        },
        stack_wf(push_changes(st, col, pos).1),
{
    lemma_push_changes(st, col, pos);
    if col <= st.last() {
        lemma_pop_to(st, col, pos);
        lemma_pop_to_exact(st, col, pos);
        lemma_pop_to_keeps_bottom(st, col, pos);
        let (d, rest) = pop_to(st, col, pos);
        assert(rest =~= st.take(rest.len() as int));
        if rest.last() == col {
            assert(d + Seq::<Out>::empty() =~= d);
        }
    }
}

pub proof fn lemma_pop_to_keeps_bottom(st: Seq<usize>, col: usize, pos: int)
    requires
        stack_wf(st),
    ensures
        pop_to(st, col, pos).1.len() >= 1,
    decreases st.len(),
{
    if st.len() > 0 && st.last() > col {
        if st.len() == 1 {
            assert(st.last() == st[0]);
        } else {
            let d = st.drop_last();
            assert(stack_wf(d)) by {
                assert forall|j: int, k: int| 0 <= j < k < d.len() implies d[j] < d[k] by {
                    assert(d[j] == st[j] && d[k] == st[k]);
                }
            }
            lemma_pop_to_keeps_bottom(d, col, pos);
        }
    }
}

pub proof fn lemma_dedents(n: nat, pos: int)
    ensures
        all_virtual(dedents(n, pos)),
        count_kind(dedents(n, pos), SyntaxKind::INDENT) == 0,
        count_kind(dedents(n, pos), SyntaxKind::DEDENT) == n,
    decreases n,
{
    if n > 0 {
        lemma_dedents((n - 1) as nat, pos);
        assert(dedents(n, pos).drop_first() =~= dedents((n - 1) as nat, pos));
    }
}

/// The stream tokens of raw tokens hold no indentation token, and their bytes
/// are the bytes the raw tokens cover.
pub proof fn lemma_raw_to_out(s: Seq<u8>, i: int, e: int)
    requires
        0 <= i <= e <= s.len(),
    ensures
        joined(s, raw_to_out(lex_all(s, i, e))) == s.subrange(i, e),
        count_kind(raw_to_out(lex_all(s, i, e)), SyntaxKind::INDENT) == 0,
        count_kind(raw_to_out(lex_all(s, i, e)), SyntaxKind::DEDENT) == 0,
    decreases e - i,
{
    if i < e {
        lemma_next_token_len(s, i, e);
        let (t, n) = next_token(s, i, e);
        lemma_raw_to_out(s, i + n, e);
        let v = lex_all(s, i, e);
        let tail = lex_all(s, i + n, e);
        assert(v == seq![(t, i, i + n)] + tail);
        assert(v.drop_first() =~= tail);
        let head: Seq<Out> = seq![(kind_of(t), i, i + n)];
        assert(raw_to_out(v) == head + raw_to_out(tail));
        lemma_joined_one(s, kind_of(t), i, i + n);
        lemma_joined_concat(s, head, raw_to_out(tail));
        lemma_count_one((kind_of(t), i, i + n), SyntaxKind::INDENT);
        lemma_count_one((kind_of(t), i, i + n), SyntaxKind::DEDENT);
        lemma_count_concat(head, raw_to_out(tail), SyntaxKind::INDENT);
        lemma_count_concat(head, raw_to_out(tail), SyntaxKind::DEDENT);
        lemma_subrange_join(s, i, i + n, e);
    } else {
        assert(s.subrange(i, e) =~= Seq::<u8>::empty());
    }
}

/// The carved run of a string's inner bytes is lossless and holds no
/// indentation token.
pub proof fn lemma_carve_loop(s: Seq<u8>, ie: int, cursor: int)
    requires
        0 <= cursor <= ie <= s.len(),
    ensures
        joined(s, carve_loop(s, ie, cursor, find_hole(s, cursor, ie))) == s.subrange(cursor, ie),
        count_kind(carve_loop(s, ie, cursor, find_hole(s, cursor, ie)), SyntaxKind::INDENT) == 0,
        count_kind(carve_loop(s, ie, cursor, find_hole(s, cursor, ie)), SyntaxKind::DEDENT) == 0,
    decreases ie - cursor,
{
    lemma_find_hole(s, cursor, ie);
    match find_hole(s, cursor, ie) {
        None => {
            if cursor < ie {
                lemma_joined_one(s, SyntaxKind::STRING_TEXT, cursor, ie);
                lemma_count_one((SyntaxKind::STRING_TEXT, cursor, ie), SyntaxKind::INDENT);
                lemma_count_one((SyntaxKind::STRING_TEXT, cursor, ie), SyntaxKind::DEDENT);
            } else {
                assert(s.subrange(cursor, ie) =~= Seq::<u8>::empty());
            }
        },
        Some(at) => {
            lemma_closing_brace(s, at + 1, ie, 0);
            let be = closing_brace(s, at + 1, ie, 0);
            let pre: Seq<Out> = if at > cursor {
                seq![(SyntaxKind::STRING_TEXT, cursor, at)]
            } else {
                Seq::empty()
            };
            let open: Seq<Out> = seq![(SyntaxKind::INTERP_OPEN, at, at + 1)];
            let body = raw_to_out(lex_all(s, at + 1, be));
            let close: Seq<Out> = if be < ie {
                seq![(SyntaxKind::RBRACE, be, be + 1)]
            } else {
                Seq::empty()
            };
            let next = if be < ie {
                be + 1
            } else {
                be
            };
            let rest = carve_loop(s, ie, next, find_hole(s, next, ie));
            lemma_carve_loop(s, ie, next);
            lemma_raw_to_out(s, at + 1, be);
            // bytes of each piece
            assert(joined(s, pre) == s.subrange(cursor, at)) by {
                if at > cursor {
                    lemma_joined_one(s, SyntaxKind::STRING_TEXT, cursor, at);
                } else {
                    assert(s.subrange(cursor, at) =~= Seq::<u8>::empty());
                }
            }
            lemma_joined_one(s, SyntaxKind::INTERP_OPEN, at, at + 1);
            assert(joined(s, close) == s.subrange(be, next)) by {
                if be < ie {
                    lemma_joined_one(s, SyntaxKind::RBRACE, be, be + 1);
                } else {
                    assert(s.subrange(be, next) =~= Seq::<u8>::empty());
                }
            }
            lemma_joined_concat(s, pre, open);
            lemma_joined_concat(s, pre + open, body);
            lemma_joined_concat(s, pre + open + body, close);
            lemma_joined_concat(s, pre + open + body + close, rest);
            lemma_subrange_join(s, cursor, at, at + 1);
            lemma_subrange_join(s, cursor, at + 1, be);
            lemma_subrange_join(s, cursor, be, next);
            lemma_subrange_join(s, cursor, next, ie);
            // no indentation tokens
            assert(count_kind(pre, SyntaxKind::INDENT) == 0 && count_kind(pre, SyntaxKind::DEDENT)
                == 0) by {
                if at > cursor {
                    lemma_count_one((SyntaxKind::STRING_TEXT, cursor, at), SyntaxKind::INDENT);
                    lemma_count_one((SyntaxKind::STRING_TEXT, cursor, at), SyntaxKind::DEDENT);
                }
            }
            lemma_count_one((SyntaxKind::INTERP_OPEN, at, at + 1), SyntaxKind::INDENT);
            lemma_count_one((SyntaxKind::INTERP_OPEN, at, at + 1), SyntaxKind::DEDENT);
            assert(count_kind(close, SyntaxKind::INDENT) == 0 && count_kind(
                close,
                SyntaxKind::DEDENT,
            ) == 0) by {
                if be < ie {
                    lemma_count_one((SyntaxKind::RBRACE, be, be + 1), SyntaxKind::INDENT);
                    lemma_count_one((SyntaxKind::RBRACE, be, be + 1), SyntaxKind::DEDENT);
                }
            }
            lemma_count_concat(pre, open, SyntaxKind::INDENT);
            lemma_count_concat(pre + open, body, SyntaxKind::INDENT);
            lemma_count_concat(pre + open + body, close, SyntaxKind::INDENT);
            lemma_count_concat(pre + open + body + close, rest, SyntaxKind::INDENT);
            lemma_count_concat(pre, open, SyntaxKind::DEDENT);
            lemma_count_concat(pre + open, body, SyntaxKind::DEDENT);
            lemma_count_concat(pre + open + body, close, SyntaxKind::DEDENT);
            lemma_count_concat(pre + open + body + close, rest, SyntaxKind::DEDENT);
            assert(carve_loop(s, ie, cursor, Some(at)) == pre + open + body + close + rest);
        },
    }
}

/// A string literal's carved run is lossless and holds no indentation token.
pub proof fn lemma_carve(s: Seq<u8>, a: int, b: int)
    requires
        carve(s, a, b).is_some(),
    ensures
        joined(s, carve(s, a, b).unwrap()) == s.subrange(a, b),
        count_kind(carve(s, a, b).unwrap(), SyntaxKind::INDENT) == 0,
        count_kind(carve(s, a, b).unwrap(), SyntaxKind::DEDENT) == 0,
{
    let first = find_hole(s, a + 1, b - 1).unwrap();
    let open: Seq<Out> = seq![(SyntaxKind::STRING_OPEN, a, a + 1)];
    let mid = carve_loop(s, b - 1, a + 1, Some(first));
    let close: Seq<Out> = seq![(SyntaxKind::STRING_CLOSE, b - 1, b)];
    lemma_carve_loop(s, b - 1, a + 1);
    lemma_joined_one(s, SyntaxKind::STRING_OPEN, a, a + 1);
    lemma_joined_one(s, SyntaxKind::STRING_CLOSE, b - 1, b);
    lemma_joined_concat(s, open, mid);
    lemma_joined_concat(s, open + mid, close);
    lemma_subrange_join(s, a, a + 1, b - 1);
    lemma_subrange_join(s, a, b - 1, b);
    lemma_count_one((SyntaxKind::STRING_OPEN, a, a + 1), SyntaxKind::INDENT);
    lemma_count_one((SyntaxKind::STRING_OPEN, a, a + 1), SyntaxKind::DEDENT);
    lemma_count_one((SyntaxKind::STRING_CLOSE, b - 1, b), SyntaxKind::INDENT);
    lemma_count_one((SyntaxKind::STRING_CLOSE, b - 1, b), SyntaxKind::DEDENT);
    lemma_count_concat(open, mid, SyntaxKind::INDENT);
    lemma_count_concat(open + mid, close, SyntaxKind::INDENT);
    lemma_count_concat(open, mid, SyntaxKind::DEDENT);
    lemma_count_concat(open + mid, close, SyntaxKind::DEDENT);
}

/// Raw tokens that cover `s` exactly, in order, each with a non-empty range.
pub open spec fn covers(s: Seq<u8>, r: Seq<(Option<Token>, int, int)>) -> bool {
    &&& tiles(r, 0, s.len() as int)
    &&& forall|k: int| 0 <= k < r.len() ==> 0 <= #[trigger] r[k].1 < r[k].2 <= s.len()
}

/// Where the raw token `r[k]` starts; the end of `s` past the last one.
pub open spec fn start_at(s: Seq<u8>, r: Seq<(Option<Token>, int, int)>, k: int) -> int {
    if 0 <= k < r.len() {
        r[k].1
    } else {
        s.len() as int
    }
}

proof fn lemma_start_next(s: Seq<u8>, r: Seq<(Option<Token>, int, int)>, k: int)
    requires
        covers(s, r),
        0 <= k < r.len(),
    ensures
        start_at(s, r, k) == r[k].1,
        start_at(s, r, k + 1) == r[k].2,
        0 <= r[k].1 < r[k].2 <= s.len(),
{
    assert(0 <= r[k].1 < r[k].2 <= s.len());
    if k + 1 < r.len() {
        assert(r[k].2 == r[k + 1].1);
    }
}

/// A non-trivia raw token that is not a carved string is one stream token.
proof fn lemma_kind_of_plain(t: Option<Token>)
    ensures
        kind_of(t) != SyntaxKind::INDENT,
        kind_of(t) != SyntaxKind::DEDENT,
{
}

/// The stream built from `r[k..]` covers `s` from the start of `r[k]` to the
/// end, and its indentation tokens change the depth by `1 - st.len()`: every
/// level on the stack but the bottom is closed.
proof fn lemma_indent_from(
    s: Seq<u8>,
    r: Seq<(Option<Token>, int, int)>,
    k: int,
    st: Seq<usize>,
    ls: bool,
)
    requires
        covers(s, r),
        0 <= k <= r.len(),
        stack_wf(st),
    ensures
        joined(s, indent_from(s, r, k, st, ls)) == s.subrange(start_at(s, r, k), s.len() as int),
        count_kind(indent_from(s, r, k, st, ls), SyntaxKind::INDENT) - count_kind(
            indent_from(s, r, k, st, ls),
            SyntaxKind::DEDENT,
        ) == 1 - st.len(),
    decreases r.len() - k,
{
    let n = s.len() as int;
    if k == r.len() {
        let v = dedents((st.len() - 1) as nat, n);
        lemma_dedents((st.len() - 1) as nat, n);
        lemma_joined_virtual(s, v);
        assert(s.subrange(n, n) =~= Seq::<u8>::empty());
    } else {
        lemma_start_next(s, r, k);
        let (t, a, b) = r[k];
        let one: Seq<Out> = seq![(kind_of(t), a, b)];
        lemma_subrange_join(s, a, b, n);
        if t == Some(Token::Newline) || t == Some(Token::Comment) || (t == Some(Token::Whitespace)
            && !ls) {
            let ls2 = if t == Some(Token::Newline) {
                true
            } else if t == Some(Token::Comment) {
                ls
            } else {
                false
            };
            lemma_indent_from(s, r, k + 1, st, ls2);
            let rest = indent_from(s, r, k + 1, st, ls2);
            assert(indent_from(s, r, k, st, ls) == one + rest);
            lemma_joined_one(s, kind_of(t), a, b);
            lemma_joined_concat(s, one, rest);
            lemma_kind_of_plain(t);
            lemma_count_one((kind_of(t), a, b), SyntaxKind::INDENT);
            lemma_count_one((kind_of(t), a, b), SyntaxKind::DEDENT);
            lemma_count_concat(one, rest, SyntaxKind::INDENT);
            lemma_count_concat(one, rest, SyntaxKind::DEDENT);
        } else if t == Some(Token::Whitespace) {
            let quiet = k + 1 >= r.len() || r[k + 1].0 == Some(Token::Newline) || r[k + 1].0
                == Some(Token::Comment);
            lemma_joined_one(s, kind_of(t), a, b);
            lemma_kind_of_plain(t);
            lemma_count_one((kind_of(t), a, b), SyntaxKind::INDENT);
            lemma_count_one((kind_of(t), a, b), SyntaxKind::DEDENT);
            if quiet {
                lemma_indent_from(s, r, k + 1, st, true);
                let rest = indent_from(s, r, k + 1, st, true);
                assert(indent_from(s, r, k, st, ls) == one + rest);
                lemma_joined_concat(s, one, rest);
                lemma_count_concat(one, rest, SyntaxKind::INDENT);
                lemma_count_concat(one, rest, SyntaxKind::DEDENT);
            } else {
                let (d, st2) = push_changes(st, (b - a) as usize, a);
                lemma_push_changes(st, (b - a) as usize, a);
                lemma_indent_from(s, r, k + 1, st2, false);
                let rest = indent_from(s, r, k + 1, st2, false);
                assert(indent_from(s, r, k, st, ls) == one + d + rest);
                lemma_joined_virtual(s, d);
                lemma_joined_concat(s, one, d);
                lemma_joined_concat(s, one + d, rest);
                lemma_count_concat(one, d, SyntaxKind::INDENT);
                lemma_count_concat(one, d, SyntaxKind::DEDENT);
                lemma_count_concat(one + d, rest, SyntaxKind::INDENT);
                lemma_count_concat(one + d, rest, SyntaxKind::DEDENT);
            }
        } else {
            let (d, st2) = if ls {
                push_changes(st, 0, a)
            } else {
                (Seq::<Out>::empty(), st)
            };
            if ls {
                lemma_push_changes(st, 0, a);
            } else {
                assert(joined(s, d) == Seq::<u8>::empty());
            }
            assert(all_virtual(d));
            assert(count_kind(d, SyntaxKind::INDENT) - count_kind(d, SyntaxKind::DEDENT) == st2.len()
                - st.len());
            assert(stack_wf(st2));
            let body = if t == Some(Token::String) && carve(s, a, b).is_some() {
                carve(s, a, b).unwrap()
            } else {
                one
            };
            assert(joined(s, body) == s.subrange(a, b) && count_kind(body, SyntaxKind::INDENT) == 0
                && count_kind(body, SyntaxKind::DEDENT) == 0) by {
                if t == Some(Token::String) && carve(s, a, b).is_some() {
                    lemma_carve(s, a, b);
                } else {
                    lemma_joined_one(s, kind_of(t), a, b);
                    lemma_kind_of_plain(t);
                    lemma_count_one((kind_of(t), a, b), SyntaxKind::INDENT);
                    lemma_count_one((kind_of(t), a, b), SyntaxKind::DEDENT);
                }
            }
            lemma_indent_from(s, r, k + 1, st2, false);
            let rest = indent_from(s, r, k + 1, st2, false);
            assert(indent_from(s, r, k, st, ls) == d + body + rest);
            lemma_joined_virtual(s, d);
            lemma_joined_concat(s, d, body);
            lemma_joined_concat(s, d + body, rest);
            lemma_count_concat(d, body, SyntaxKind::INDENT);
            lemma_count_concat(d, body, SyntaxKind::DEDENT);
            lemma_count_concat(d + body, rest, SyntaxKind::INDENT);
            lemma_count_concat(d + body, rest, SyntaxKind::DEDENT);
        }
    }
}

/// The stream is lossless: the source ranges of its tokens, read in order,
/// give back the source byte for byte (virtual tokens cover nothing).
pub proof fn lemma_indent_lossless(s: Seq<u8>)
    ensures
        joined(s, indent_all(s)) == s,
{
    let n = s.len() as int;
    lemma_lex_all_tiles(s, 0, n);
    lemma_lex_all_within(s, 0, n);
    let r = lex_all(s, 0, n);
    assert(covers(s, r));
    lemma_indent_from(s, r, 0, seq![0usize], true);
    assert(s.subrange(start_at(s, r, 0), n) =~= s) by {
        if r.len() == 0 {
            assert(n == 0);
        }
    }
}

/// Indentation balances: the stream holds exactly as many `DEDENT`s as
/// `INDENT`s, since every level opened is closed by the end of input.
pub proof fn lemma_indent_balanced(s: Seq<u8>)
    ensures
        count_kind(indent_all(s), SyntaxKind::INDENT) == count_kind(
            indent_all(s),
            SyntaxKind::DEDENT,
        ),
{
    let n = s.len() as int;
    lemma_lex_all_tiles(s, 0, n);
    lemma_lex_all_within(s, 0, n);
    let r = lex_all(s, 0, n);
    assert(covers(s, r));
    let st = seq![0usize];
    assert(stack_wf(st));
    lemma_indent_from(s, r, 0, st, true);
}

/// Read in order, the tokens with a non-empty range cover `a..b` one after
/// another, each starting where the one before it ended; a token with an
/// empty range stands between them and covers nothing.
pub open spec fn tiled(v: Seq<Out>, a: int, b: int) -> bool
    decreases v.len(),
{
    if v.len() == 0 {
        a == b
    } else if v[0].1 == v[0].2 {
        tiled(v.drop_first(), a, b)
    } else {
        v[0].1 == a && a < v[0].2 && tiled(v.drop_first(), v[0].2, b)
    }
}

proof fn lemma_tiled_concat(v1: Seq<Out>, v2: Seq<Out>, a: int, b: int, c: int)
    requires
        tiled(v1, a, b),
        tiled(v2, b, c),
    ensures
        tiled(v1 + v2, a, c),
    decreases v1.len(),
{
    if v1.len() == 0 {
        assert(v1 + v2 =~= v2);
    } else {
        assert((v1 + v2)[0] == v1[0]);
        assert((v1 + v2).drop_first() =~= v1.drop_first() + v2);
        if v1[0].1 == v1[0].2 {
            lemma_tiled_concat(v1.drop_first(), v2, a, b, c);
        } else {
            lemma_tiled_concat(v1.drop_first(), v2, v1[0].2, b, c);
        }
    }
}

proof fn lemma_tiled_virtual(v: Seq<Out>, x: int)
    requires
        all_virtual(v),
    ensures
        tiled(v, x, x),
    decreases v.len(),
{
    if v.len() > 0 {
        assert(v[0].1 == v[0].2);
        assert forall|k: int| 0 <= k < v.drop_first().len() implies #[trigger] v.drop_first()[k].1
            == v.drop_first()[k].2 by {
            assert(v.drop_first()[k] == v[k + 1]);
        }
        lemma_tiled_virtual(v.drop_first(), x);
    }
}

proof fn lemma_tiled_one(k: SyntaxKind, a: int, b: int)
    requires
        a < b,
    ensures
        tiled(seq![(k, a, b)], a, b),
{
    let v = seq![(k, a, b)];
    assert(v.drop_first() =~= Seq::<Out>::empty());
    assert(tiled(v.drop_first(), b, b));
    assert(v[0] == (k, a, b));
}

proof fn lemma_tiled_raw(s: Seq<u8>, i: int, e: int)
    requires
        0 <= i <= e <= s.len(),
    ensures
        tiled(raw_to_out(lex_all(s, i, e)), i, e),
    decreases e - i,
{
    if i < e {
        lemma_next_token_len(s, i, e);
        let (t, n) = next_token(s, i, e);
        lemma_tiled_raw(s, i + n, e);
        let v = lex_all(s, i, e);
        let tail = lex_all(s, i + n, e);
        assert(v == seq![(t, i, i + n)] + tail);
        assert(v.drop_first() =~= tail);
        let head: Seq<Out> = seq![(kind_of(t), i, i + n)];
        assert(raw_to_out(v) == head + raw_to_out(tail));
        lemma_tiled_one(kind_of(t), i, i + n);
        lemma_tiled_concat(head, raw_to_out(tail), i, i + n, e);
    } else {
        assert(lex_all(s, i, e).len() == 0);
        assert(raw_to_out(lex_all(s, i, e)) =~= Seq::<Out>::empty());
    }
}

proof fn lemma_tiled_carve_loop(s: Seq<u8>, ie: int, cursor: int)
    requires
        0 <= cursor <= ie <= s.len(),
    ensures
        tiled(carve_loop(s, ie, cursor, find_hole(s, cursor, ie)), cursor, ie),
    decreases ie - cursor,
{
    lemma_find_hole(s, cursor, ie);
    match find_hole(s, cursor, ie) {
        None => {
            if cursor < ie {
                lemma_tiled_one(SyntaxKind::STRING_TEXT, cursor, ie);
            }
        },
        Some(at) => {
            lemma_closing_brace(s, at + 1, ie, 0);
            let be = closing_brace(s, at + 1, ie, 0);
            let pre: Seq<Out> = if at > cursor {
                seq![(SyntaxKind::STRING_TEXT, cursor, at)]
            } else {
                Seq::empty()
            };
            let open: Seq<Out> = seq![(SyntaxKind::INTERP_OPEN, at, at + 1)];
            let body = raw_to_out(lex_all(s, at + 1, be));
            let close: Seq<Out> = if be < ie {
                seq![(SyntaxKind::RBRACE, be, be + 1)]
            } else {
                Seq::empty()
            };
            let next = if be < ie {
                be + 1
            } else {
                be
            };
            let rest = carve_loop(s, ie, next, find_hole(s, next, ie));
            lemma_tiled_carve_loop(s, ie, next);
            lemma_tiled_raw(s, at + 1, be);
            if at > cursor {
                lemma_tiled_one(SyntaxKind::STRING_TEXT, cursor, at);
            }
            lemma_tiled_one(SyntaxKind::INTERP_OPEN, at, at + 1);
            if be < ie {
                lemma_tiled_one(SyntaxKind::RBRACE, be, be + 1);
            }
            lemma_tiled_concat(pre, open, cursor, at, at + 1);
            lemma_tiled_concat(pre + open, body, cursor, at + 1, be);
            lemma_tiled_concat(pre + open + body, close, cursor, be, next);
            lemma_tiled_concat(pre + open + body + close, rest, cursor, next, ie);
            assert(carve_loop(s, ie, cursor, Some(at)) == pre + open + body + close + rest);
        },
    }
}

proof fn lemma_tiled_carve(s: Seq<u8>, a: int, b: int)
    requires
        carve(s, a, b).is_some(),
    ensures
        tiled(carve(s, a, b).unwrap(), a, b),
{
    let first = find_hole(s, a + 1, b - 1).unwrap();
    let open: Seq<Out> = seq![(SyntaxKind::STRING_OPEN, a, a + 1)];
    let mid = carve_loop(s, b - 1, a + 1, Some(first));
    let close: Seq<Out> = seq![(SyntaxKind::STRING_CLOSE, b - 1, b)];
    lemma_tiled_carve_loop(s, b - 1, a + 1);
    lemma_tiled_one(SyntaxKind::STRING_OPEN, a, a + 1);
    lemma_tiled_one(SyntaxKind::STRING_CLOSE, b - 1, b);
    lemma_tiled_concat(open, mid, a, a + 1, b - 1);
    lemma_tiled_concat(open + mid, close, a, b - 1, b);
}

proof fn lemma_tiled_from(
    s: Seq<u8>,
    r: Seq<(Option<Token>, int, int)>,
    k: int,
    st: Seq<usize>,
    ls: bool,
)
    requires
        covers(s, r),
        0 <= k <= r.len(),
        stack_wf(st),
    ensures
        tiled(indent_from(s, r, k, st, ls), start_at(s, r, k), s.len() as int),
    decreases r.len() - k,
{
    let n = s.len() as int;
    if k == r.len() {
        let v = dedents((st.len() - 1) as nat, n);
        lemma_dedents((st.len() - 1) as nat, n);
        lemma_tiled_virtual(v, n);
    } else {
        lemma_start_next(s, r, k);
        let (t, a, b) = r[k];
        let one: Seq<Out> = seq![(kind_of(t), a, b)];
        lemma_tiled_one(kind_of(t), a, b);
        if t == Some(Token::Newline) || t == Some(Token::Comment) || (t == Some(Token::Whitespace)
            && !ls) {
            let ls2 = if t == Some(Token::Newline) {
                true
            } else if t == Some(Token::Comment) {
                ls
            } else {
                false
            };
            lemma_tiled_from(s, r, k + 1, st, ls2);
            let rest = indent_from(s, r, k + 1, st, ls2);
            assert(indent_from(s, r, k, st, ls) == one + rest);
            lemma_tiled_concat(one, rest, a, b, n);
        } else if t == Some(Token::Whitespace) {
            let quiet = k + 1 >= r.len() || r[k + 1].0 == Some(Token::Newline) || r[k + 1].0
                == Some(Token::Comment);
            if quiet {
                lemma_tiled_from(s, r, k + 1, st, true);
                let rest = indent_from(s, r, k + 1, st, true);
                assert(indent_from(s, r, k, st, ls) == one + rest);
                lemma_tiled_concat(one, rest, a, b, n);
            } else {
                let (d, st2) = push_changes(st, (b - a) as usize, a);
                lemma_push_changes(st, (b - a) as usize, a);
                lemma_tiled_from(s, r, k + 1, st2, false);
                let rest = indent_from(s, r, k + 1, st2, false);
                assert(indent_from(s, r, k, st, ls) == one + d + rest);
                lemma_tiled_virtual(d, b);
                lemma_tiled_concat(one, d, a, b, b);
                lemma_tiled_concat(one + d, rest, a, b, n);
            }
        } else {
            let (d, st2) = if ls {
                push_changes(st, 0, a)
            } else {
                (Seq::<Out>::empty(), st)
            };
            if ls {
                lemma_push_changes(st, 0, a);
            }
            assert(all_virtual(d));
            assert(stack_wf(st2));
            let body = if t == Some(Token::String) && carve(s, a, b).is_some() {
                carve(s, a, b).unwrap()
            } else {
                one
            };
            assert(tiled(body, a, b)) by {
                if t == Some(Token::String) && carve(s, a, b).is_some() {
                    lemma_tiled_carve(s, a, b);
                }
            }
            lemma_tiled_from(s, r, k + 1, st2, false);
            let rest = indent_from(s, r, k + 1, st2, false);
            assert(indent_from(s, r, k, st, ls) == d + body + rest);
            lemma_tiled_virtual(d, a);
            lemma_tiled_concat(d, body, a, a, b);
            lemma_tiled_concat(d + body, rest, a, b, n);
        }
    }
}

/// The stream tiles the source: its tokens with a non-empty range, in order,
/// cover `0..len` one after another, each starting where the one before it
/// ended (the virtual tokens cover nothing).
pub proof fn lemma_indent_tiles(s: Seq<u8>)
    ensures
        tiled(indent_all(s), 0, s.len() as int),
{
    let n = s.len() as int;
    lemma_lex_all_tiles(s, 0, n);
    lemma_lex_all_within(s, 0, n);
    let r = lex_all(s, 0, n);
    assert(covers(s, r));
    lemma_tiled_from(s, r, 0, seq![0usize], true);
    assert(start_at(s, r, 0) == 0) by {
        if r.len() == 0 {
            assert(n == 0);
        }
    }
}


/// The stream from raw token `k` on depends only on the raw tokens from `k`
/// on, the stack and whether a line starts there.
proof fn lemma_indent_from_suffix(
    s: Seq<u8>,
    r1: Seq<(Option<Token>, int, int)>,
    k1: int,
    r2: Seq<(Option<Token>, int, int)>,
    k2: int,
    st: Seq<usize>,
    ls: bool,
)
    requires
        0 <= k1 <= r1.len(),
        0 <= k2 <= r2.len(),
        r1.skip(k1) == r2.skip(k2),
    ensures
        indent_from(s, r1, k1, st, ls) == indent_from(s, r2, k2, st, ls),
    decreases r1.len() - k1,
{
    assert(r1.skip(k1).len() == r1.len() - k1);
    assert(r2.skip(k2).len() == r2.len() - k2);
    assert(r1.len() - k1 == r2.len() - k2);
    if k1 < r1.len() {
        assert(r1[k1] == r1.skip(k1)[0]);
        assert(r2[k2] == r2.skip(k2)[0]);
        if k1 + 1 < r1.len() {
            assert(r1[k1 + 1] == r1.skip(k1)[1]);
            assert(r2[k2 + 1] == r2.skip(k2)[1]);
        }
        assert(r1.skip(k1 + 1) =~= r2.skip(k2 + 1)) by {
            assert forall|x: int| 0 <= x < r1.skip(k1 + 1).len() implies #[trigger] r1.skip(k1 + 1)[x]
                == r2.skip(k2 + 1)[x] by {
                assert(r1.skip(k1 + 1)[x] == r1.skip(k1)[x + 1]);
                assert(r2.skip(k2 + 1)[x] == r2.skip(k2)[x + 1]);
            }
        }
        let (t, a, b) = r1[k1];
        lemma_indent_from_suffix(s, r1, k1 + 1, r2, k2 + 1, st, true);
        lemma_indent_from_suffix(s, r1, k1 + 1, r2, k2 + 1, st, false);
        lemma_indent_from_suffix(
            s,
            r1,
            k1 + 1,
            r2,
            k2 + 1,
            push_changes(st, (b - a) as usize, a).1,
            false,
        );
        lemma_indent_from_suffix(s, r1, k1 + 1, r2, k2 + 1, push_changes(st, 0, a).1, false);
    }
}

/// A line made only of a comment, after white space or none, ended by its
/// line break.
pub open spec fn comment_line(g: Seq<(Option<Token>, int, int)>) -> bool {
    ||| g.len() == 2 && g[0].0 == Some(Token::Comment) && g[1].0 == Some(Token::Newline)
    ||| g.len() == 3 && g[0].0 == Some(Token::Whitespace) && g[1].0 == Some(Token::Comment)
        && g[2].0 == Some(Token::Newline)
}

/// The trivia tokens of a comment-only line, as it stands in the stream.
pub open spec fn line_trivia(g: Seq<(Option<Token>, int, int)>) -> Seq<Out> {
    g.map_values(
        |t: (Option<Token>, int, int)|
            (
                if t.0 == Some(Token::Whitespace) {
                    SyntaxKind::WHITESPACE
                } else if t.0 == Some(Token::Comment) {
                    SyntaxKind::COMMENT
                } else {
                    SyntaxKind::NEWLINE
                },
                t.1,
                t.2,
            ),
    )
}

/// A comment-only line does not touch the layout: put at the start of a
/// line, however it is indented, it adds its own white space, comment and
/// line break to the stream and nothing more, and the stream after it is the
/// one there was without it. No `INDENT`, `DEDENT` or `ERROR` comes of it,
/// and the lines after it are laid out against the same indentation stack.
pub proof fn lemma_comment_line_quiet(
    s: Seq<u8>,
    r: Seq<(Option<Token>, int, int)>,
    k: int,
    st: Seq<usize>,
    g: Seq<(Option<Token>, int, int)>,
)
    requires
        0 <= k <= r.len(),
        comment_line(g),
    ensures
        indent_from(s, r.take(k) + g + r.skip(k), k, st, true) == line_trivia(g) + indent_from(
            s,
            r,
            k,
            st,
            true,
        ),
{
    let r2 = r.take(k) + g + r.skip(k);
    let n = g.len() as int;
    assert forall|x: int| 0 <= x < n implies #[trigger] r2[k + x] == g[x] by {}
    assert(r2.skip(k + n) =~= r.skip(k));
    lemma_indent_from_suffix(s, r2, k + n, r, k, st, true);
    let rest = indent_from(s, r, k, st, true);
    let lt = line_trivia(g);
    if n == 2 {
        assert(indent_from(s, r2, k + 1, st, true) == seq![(SyntaxKind::NEWLINE, g[1].1, g[1].2)]
            + indent_from(s, r2, k + 2, st, true));
        assert(indent_from(s, r2, k, st, true) == seq![(SyntaxKind::COMMENT, g[0].1, g[0].2)]
            + indent_from(s, r2, k + 1, st, true));
        assert(lt =~= seq![(SyntaxKind::COMMENT, g[0].1, g[0].2), (SyntaxKind::NEWLINE, g[1].1, g[1].2)]);
        assert(indent_from(s, r2, k, st, true) =~= lt + rest);
    } else {
        assert(indent_from(s, r2, k + 2, st, true) == seq![(SyntaxKind::NEWLINE, g[2].1, g[2].2)]
            + indent_from(s, r2, k + 3, st, true));
        assert(indent_from(s, r2, k + 1, st, true) == seq![(SyntaxKind::COMMENT, g[1].1, g[1].2)]
            + indent_from(s, r2, k + 2, st, true));
        assert(indent_from(s, r2, k, st, true) == seq![(SyntaxKind::WHITESPACE, g[0].1, g[0].2)]
            + indent_from(s, r2, k + 1, st, true));
        assert(lt =~= seq![
            (SyntaxKind::WHITESPACE, g[0].1, g[0].2),
            (SyntaxKind::COMMENT, g[1].1, g[1].2),
            (SyntaxKind::NEWLINE, g[2].1, g[2].2),
        ]);
        assert(indent_from(s, r2, k, st, true) =~= lt + rest);
    }
}

} // verus!
