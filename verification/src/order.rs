//! Deterministic ordering: the byte-wise order of strings (the order of
//! `str`'s `Ord`), and a stable sort that returns the order of a list of keys.

use vstd::prelude::*;
use vstd::string::StringSliceAdditionalSpecFns;

verus! {

/// Byte-wise lexicographic order: `a` sorts strictly before `b`.
pub open spec fn bytes_lt(a: Seq<u8>, b: Seq<u8>) -> bool
    decreases a.len(),
{
    if a.len() == 0 {
        b.len() > 0
    } else if b.len() == 0 {
        false
    } else if a[0] != b[0] {
        a[0] < b[0]
    } else {
        bytes_lt(a.drop_first(), b.drop_first())
    }
}

pub proof fn lemma_bytes_lt_irreflexive(a: Seq<u8>)
    ensures
        !bytes_lt(a, a),
    decreases a.len(),
{
    if a.len() > 0 {
        lemma_bytes_lt_irreflexive(a.drop_first());
    }
}

pub proof fn lemma_bytes_lt_transitive(a: Seq<u8>, b: Seq<u8>, c: Seq<u8>)
    requires
        bytes_lt(a, b),
        bytes_lt(b, c),
    ensures
        bytes_lt(a, c),
    decreases a.len(),
{
    if a.len() > 0 && b.len() > 0 && c.len() > 0 && a[0] == b[0] && b[0] == c[0] {
        lemma_bytes_lt_transitive(a.drop_first(), b.drop_first(), c.drop_first());
    }
}

/// Any two different byte strings are ordered one way or the other.
pub proof fn lemma_bytes_lt_total(a: Seq<u8>, b: Seq<u8>)
    ensures
        a == b || bytes_lt(a, b) || bytes_lt(b, a),
    decreases a.len(),
{
    if a.len() > 0 && b.len() > 0 && a[0] == b[0] {
        lemma_bytes_lt_total(a.drop_first(), b.drop_first());
        if a.drop_first() == b.drop_first() {
            assert(a =~= seq![a[0]] + a.drop_first());
            assert(b =~= seq![b[0]] + b.drop_first());
        }
    } else if a.len() == 0 && b.len() == 0 {
        assert(a =~= b);
    }
}

pub proof fn lemma_bytes_lt_asymmetric(a: Seq<u8>, b: Seq<u8>)
    requires
        bytes_lt(a, b),
    ensures
        !bytes_lt(b, a),
        a != b,
{
    lemma_bytes_lt_irreflexive(a);
    if bytes_lt(b, a) {
        lemma_bytes_lt_transitive(a, b, a);
    }
}

/// `a` sorts strictly before `b`, byte-wise.
pub fn bytes_less(a: &[u8], b: &[u8]) -> (r: bool)
    ensures
        r == bytes_lt(a@, b@),
{
    let mut i: usize = 0;
    assert(a@.skip(0) =~= a@ && b@.skip(0) =~= b@);
    while i < a.len() && i < b.len() && a[i] == b[i]
        invariant
            i <= a.len(),
            i <= b.len(),
            bytes_lt(a@, b@) == bytes_lt(a@.skip(i as int), b@.skip(i as int)),
        decreases a.len() - i,
    {
        assert(a@.skip(i as int).drop_first() =~= a@.skip(i + 1));
        assert(b@.skip(i as int).drop_first() =~= b@.skip(i + 1));
        i = i + 1;
    }
    assert(i < a.len() ==> a@.skip(i as int)[0] == a[i as int]);
    assert(i < b.len() ==> b@.skip(i as int)[0] == b[i as int]);
    if i < a.len() && i < b.len() {
        a[i] < b[i]
    } else {
        i == a.len() && i < b.len()
    }
}

/// The string `a` sorts strictly before `b` in `str`'s order.
pub fn str_less(a: &str, b: &str) -> (r: bool)
    ensures
        r == bytes_lt(a.spec_bytes(), b.spec_bytes()),
{
    bytes_less(a.as_bytes(), b.as_bytes())
}

/// Position `i` comes before position `j` when its key is smaller, or the keys
/// are equal and `i` was first.
pub open spec fn before(keys: Seq<Seq<u8>>, i: int, j: int) -> bool {
    bytes_lt(keys[i], keys[j]) || (keys[i] == keys[j] && i < j)
}

/// `p` lists every position of `keys` once, in stable ascending key order.
pub open spec fn is_order(keys: Seq<Seq<u8>>, p: Seq<int>) -> bool {
    &&& p.len() == keys.len()
    &&& forall|k: int| 0 <= k < p.len() ==> 0 <= #[trigger] p[k] < keys.len()
    &&& forall|x: int| 0 <= x < keys.len() ==> #[trigger] p.contains(x)
    &&& forall|j: int, k: int| 0 <= j < k < p.len() ==> before(keys, #[trigger] p[j], #[trigger] p[k])
}

/// The stable ascending order of `keys`.
pub open spec fn sorted_order(keys: Seq<Seq<u8>>) -> Seq<int> {
    choose|p: Seq<int>| is_order(keys, p)
}

proof fn lemma_before_asymmetric(keys: Seq<Seq<u8>>, i: int, j: int)
    requires
        0 <= i < keys.len(),
        0 <= j < keys.len(),
        before(keys, i, j),
    ensures
        !before(keys, j, i),
        i != j,
{
    if bytes_lt(keys[i], keys[j]) {
        lemma_bytes_lt_asymmetric(keys[i], keys[j]);
    } else {
        lemma_bytes_lt_irreflexive(keys[i]);
    }
}

proof fn lemma_before_transitive(keys: Seq<Seq<u8>>, i: int, j: int, k: int)
    requires
        0 <= i < keys.len(),
        0 <= j < keys.len(),
        0 <= k < keys.len(),
        before(keys, i, j),
        before(keys, j, k),
    ensures
        before(keys, i, k),
{
    if bytes_lt(keys[i], keys[j]) && bytes_lt(keys[j], keys[k]) {
        lemma_bytes_lt_transitive(keys[i], keys[j], keys[k]);
    }
}

/// There is exactly one stable ascending order.
pub proof fn lemma_order_unique(keys: Seq<Seq<u8>>, p1: Seq<int>, p2: Seq<int>)
    requires
        is_order(keys, p1),
        is_order(keys, p2),
    ensures
        p1 == p2,
{
    assert forall|k: int| 0 <= k < p1.len() implies p1[k] == p2[k] by {
        lemma_order_agrees_at(keys, p1, p2, k);
    }
    assert(p1 =~= p2);
}

proof fn lemma_order_agrees_at(keys: Seq<Seq<u8>>, p1: Seq<int>, p2: Seq<int>, k: int)
    requires
        is_order(keys, p1),
        is_order(keys, p2),
        0 <= k < p1.len(),
    ensures
        p1[k] == p2[k],
    decreases k,
{
    assert forall|j: int| 0 <= j < k implies p1[j] == p2[j] by {
        lemma_order_agrees_at(keys, p1, p2, j);
    }
    if p1[k] != p2[k] {
        let a = p1[k];
        let b = p2[k];
        assert(p2.contains(a));
        let m = choose|m: int| 0 <= m < p2.len() && p2[m] == a;
        assert(p1.contains(b));
        let m1 = choose|m: int| 0 <= m < p1.len() && p1[m] == b;
        // a sits after position k in p2, and b after position k in p1
        if m < k {
            assert(p1[m] == p2[m]);
            lemma_before_asymmetric(keys, p1[m], p1[k]);
        }
        if m1 < k {
            assert(p2[m1] == p1[m1]);
            lemma_before_asymmetric(keys, p2[m1], p2[k]);
        }
        assert(m > k && m1 > k);
        assert(before(keys, p2[k], p2[m]));
        assert(before(keys, p1[k], p1[m1]));
        lemma_before_asymmetric(keys, b, a);
    }
}

/// Where key `n` goes among the positions `q`, searching from `from`: after
/// every key it does not sort before.
proof fn lemma_insertion_point(keys: Seq<Seq<u8>>, q: Seq<int>, n: int, from: int) -> (pos: int)
    requires
        0 <= n < keys.len(),
        0 <= from <= q.len(),
        forall|k: int| 0 <= k < q.len() ==> 0 <= #[trigger] q[k] < n,
        forall|j: int| 0 <= j < from ==> !bytes_lt(keys[n], keys[#[trigger] q[j]]),
    ensures
        from <= pos <= q.len(),
        forall|j: int| 0 <= j < pos ==> !bytes_lt(keys[n], keys[#[trigger] q[j]]),
        pos < q.len() ==> bytes_lt(keys[n], keys[q[pos]]),
    decreases q.len() - from,
{
    if from == q.len() || bytes_lt(keys[n], keys[q[from]]) {
        from
    } else {
        lemma_insertion_point(keys, q, n, from + 1)
    }
}

/// A stable ascending order of `keys`, built by insertion.
proof fn lemma_some_order(keys: Seq<Seq<u8>>) -> (p: Seq<int>)
    ensures
        is_order(keys, p),
    decreases keys.len(),
{
    if keys.len() == 0 {
        Seq::empty()
    } else {
        let n = keys.len() - 1;
        let kd = keys.drop_last();
        let q = lemma_some_order(kd);
        assert forall|i: int, j: int| 0 <= i < n && 0 <= j < n implies before(kd, i, j) == before(
            keys,
            i,
            j,
        ) by {}
        let pos = lemma_insertion_point(keys, q, n, 0);
        assert forall|j: int| pos <= j < q.len() implies bytes_lt(keys[n], keys[#[trigger] q[j]]) by {
            if j > pos {
                assert(before(kd, q[pos], q[j]));
                if bytes_lt(keys[q[pos]], keys[q[j]]) {
                    lemma_bytes_lt_transitive(keys[n], keys[q[pos]], keys[q[j]]);
                }
            }
        }
        let p = q.insert(pos, n);
        assert forall|j: int| 0 <= j < pos implies before(keys, #[trigger] q[j], n) by {
            lemma_bytes_lt_total(keys[n], keys[q[j]]);
        }
        assert forall|x: int| 0 <= x < keys.len() implies #[trigger] p.contains(x) by {
            if x == n {
                assert(p[pos] == x);
            } else {
                assert(q.contains(x));
                let m = choose|m: int| 0 <= m < q.len() && q[m] == x;
                if m < pos {
                    assert(p[m] == x);
                } else {
                    assert(p[m + 1] == x);
                }
            }
        }
        assert forall|j: int, k: int| 0 <= j < k < p.len() implies before(
            keys,
            #[trigger] p[j],
            #[trigger] p[k],
        ) by {
            if k < pos {
                assert(p[j] == q[j] && p[k] == q[k]);
                assert(before(kd, q[j], q[k]));
            } else if k == pos {
                assert(p[j] == q[j]);
            } else if j < pos {
                assert(p[j] == q[j] && p[k] == q[k - 1]);
                lemma_before_transitive(keys, q[j], n, q[k - 1]);
            } else if j == pos {
                assert(p[k] == q[k - 1]);
            } else {
                assert(p[j] == q[j - 1] && p[k] == q[k - 1]);
                assert(before(kd, q[j - 1], q[k - 1]));
            }
        }
        assert forall|k: int| 0 <= k < p.len() implies 0 <= #[trigger] p[k] < keys.len() by {
            if k < pos {
                assert(p[k] == q[k]);
            } else if k > pos {
                assert(p[k] == q[k - 1]);
            }
        }
        p
    }
}

/// Every list of keys has a stable ascending order, and `sorted_order` is it.
pub proof fn lemma_order_exists(keys: Seq<Seq<u8>>)
    ensures
        is_order(keys, sorted_order(keys)),
{
    let p = lemma_some_order(keys);
    assert(is_order(keys, p));
}

/// Positions as integers.
pub open spec fn as_ints(p: Seq<usize>) -> Seq<int> {
    p.map_values(|y: usize| y as int)
}

/// The stable ascending order of `keys`, as positions.
pub fn sort_order(keys: &Vec<&str>) -> (p: Vec<usize>)
    ensures
        is_order(keys@.map_values(|s: &str| s.spec_bytes()), as_ints(p@)),
        as_ints(p@) == sorted_order(keys@.map_values(|s: &str| s.spec_bytes())),
{
    let ghost kb = keys@.map_values(|s: &str| s.spec_bytes());
    let mut p: Vec<usize> = Vec::new();
    let n = keys.len();
    let mut i: usize = 0;
    while i < n
        invariant
            n == keys.len(),
            kb == keys@.map_values(|s: &str| s.spec_bytes()),
            i <= n,
            p.len() == i,
            forall|k: int| 0 <= k < p.len() ==> #[trigger] p[k] < i,
            forall|x: int| 0 <= x < i ==> #[trigger] as_ints(p@).contains(x),
            forall|j: int, k: int|
                0 <= j < k < p.len() ==> before(kb, #[trigger] p[j] as int, #[trigger] p[k] as int),
        decreases n - i,
    {
        let mut pos: usize = 0;
        while pos < p.len() && !str_less(keys[i], keys[p[pos]])
            invariant
                n == keys.len(),
                kb == keys@.map_values(|s: &str| s.spec_bytes()),
                i < n,
                p.len() == i,
                pos <= p.len(),
                forall|k: int| 0 <= k < p.len() ==> #[trigger] p[k] < i,
                forall|j: int| 0 <= j < pos ==> !bytes_lt(kb[i as int], kb[#[trigger] p[j] as int]),
            decreases p.len() - pos,
        {
            pos = pos + 1;
        }
        let ghost old_p = p@;
        proof {
            assert forall|j: int| pos <= j < p.len() implies bytes_lt(
                kb[i as int],
                kb[#[trigger] p[j] as int],
            ) by {
                assert(bytes_lt(kb[i as int], kb[p[pos as int] as int]));
                if j > pos {
                    assert(before(kb, p[pos as int] as int, p[j] as int));
                    if bytes_lt(kb[p[pos as int] as int], kb[p[j] as int]) {
                        lemma_bytes_lt_transitive(
                            kb[i as int],
                            kb[p[pos as int] as int],
                            kb[p[j] as int],
                        );
                    }
                }
            }
            assert forall|j: int| 0 <= j < pos implies before(kb, #[trigger] p[j] as int, i as int)
                by {
                lemma_bytes_lt_total(kb[i as int], kb[p[j] as int]);
            }
        }
        p.insert(pos, i);
        proof {
            assert(p@ == old_p.insert(pos as int, i));
            assert forall|x: int| 0 <= x < i + 1 implies #[trigger] as_ints(p@).contains(x) by {
                if x == i {
                    assert(as_ints(p@)[pos as int] == x);
                } else {
                    let opi = as_ints(old_p);
                    assert(opi.contains(x));
                    let m = choose|m: int| 0 <= m < opi.len() && #[trigger] opi[m] == x;
                    if m < pos {
                        assert(as_ints(p@)[m] == x);
                    } else {
                        assert(as_ints(p@)[m + 1] == x);
                    }
                }
            }
            assert forall|j: int, k: int| 0 <= j < k < p.len() implies before(
                kb,
                #[trigger] p[j] as int,
                #[trigger] p[k] as int,
            ) by {
                if k < pos {
                    assert(p[j] == old_p[j] && p[k] == old_p[k]);
                } else if k == pos {
                    assert(p[j] == old_p[j]);
                } else if j < pos {
                    assert(p[j] == old_p[j] && p[k] == old_p[k - 1]);
                    lemma_before_transitive(kb, p[j] as int, i as int, p[k] as int);
                } else if j == pos {
                    assert(p[k] == old_p[k - 1]);
                } else {
                    assert(p[j] == old_p[j - 1] && p[k] == old_p[k - 1]);
                }
            }
        }
        i = i + 1;
    }
    proof {
        let pi = as_ints(p@);
        assert(is_order(kb, pi)) by {
            assert forall|j: int, k: int| 0 <= j < k < pi.len() implies before(
                kb,
                #[trigger] pi[j],
                #[trigger] pi[k],
            ) by {
                assert(before(kb, p[j] as int, p[k] as int));
            }
        }
        lemma_order_unique(kb, pi, sorted_order(kb));
    }
    p
}

} // verus!
