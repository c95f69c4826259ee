use vstd::prelude::*;

use crate::deps::{max_of, min_of};
use crate::expression::Expr;
use crate::reference::{CellPointer, Reference};

verus! {

/// Whether a reference reads the cell `k`: the cell itself, a cell of the rectangle, or a
/// cell of the swept columns (rows) from the start row (column) on.
pub open spec fn ref_reads(r: Reference, k: CellPointer) -> bool {
    match r {
        Reference::Single(a) => k == a,
        Reference::BoundedRange(a, b) => min_of(a.0, b.0) <= k.0 <= max_of(a.0, b.0) && min_of(
            a.1,
            b.1,
        ) <= k.1 <= max_of(a.1, b.1),
        Reference::UnboundedColRange(a, c) => a.0 <= k.0 <= c && a.1 <= k.1,
        Reference::UnboundedRowRange(a, w) => a.1 <= k.1 <= w && a.0 <= k.0,
    }
}

/// Whether an expression reads the cell `k` through one of its references.
pub open spec fn expr_reads(e: Expr, k: CellPointer) -> bool
    decreases e, 1int,
{
    match e {
        Expr::Function { inputs, .. } => any_reads(inputs, k),
        Expr::Reference(r) => ref_reads(r, k),
        Expr::Value(_) => false,
    }
}

pub open spec fn any_reads(s: Seq<Expr>, k: CellPointer) -> bool
    decreases s, 0int,
{
    s.len() > 0 && (any_reads(s.drop_last(), k) || expr_reads(s.last(), k))
}

/// An edge of the dependency graph of the cells `m`: cell `a` reads cell `b`.
pub open spec fn edge(m: Map<CellPointer, Expr>, a: CellPointer, b: CellPointer) -> bool {
    m.contains_key(a) && m.contains_key(b) && expr_reads(m[a], b)
}

/// A walk along edges that comes back to where it started.
pub open spec fn is_cycle(m: Map<CellPointer, Expr>, p: Seq<CellPointer>) -> bool {
    &&& p.len() >= 2
    &&& p[0] == p.last()
    &&& forall|j: int| 0 <= j < p.len() - 1 ==> edge(m, #[trigger] p[j], p[j + 1])
}

/// The dependency graph of the cells `m` has no cycle.
pub open spec fn acyclic(m: Map<CellPointer, Expr>) -> bool {
    forall|p: Seq<CellPointer>| !#[trigger] is_cycle(m, p)
}

/// A walk from `k` through the cells `m` in which `root` counts as a cell whose reads are
/// not followed: every step but the last leaves a cell of `m` other than `root`.
pub open spec fn walk_from(m: Map<CellPointer, Expr>, root: CellPointer, k: CellPointer, p: Seq<CellPointer>) -> bool {
    &&& p.len() >= 1
    &&& p[0] == k
    &&& forall|j: int|
        0 <= j < p.len() - 1 ==> m.contains_key(#[trigger] p[j]) && p[j] != root && expr_reads(
            m[p[j]],
            p[j + 1],
        )
    &&& (m.contains_key(p.last()) || p.last() == root)
}

/// No walk from `k` reaches `root`.
pub open spec fn avoids_root(m: Map<CellPointer, Expr>, root: CellPointer, k: CellPointer) -> bool {
    forall|p: Seq<CellPointer>| #[trigger] walk_from(m, root, k, p) ==> p.last() != root
}

/// Storing `e` under `key` would close a cycle through `key`: some cell that `e` reads
/// leads back to `key`.
pub open spec fn closes_cycle(m: Map<CellPointer, Expr>, key: CellPointer, e: Expr) -> bool {
    exists|k: CellPointer|
        (m.contains_key(k) || k == key) && #[trigger] expr_reads(e, k) && !avoids_root(m, key, k)
}

/// A walk from the second element of a walk starts where the first step led.
pub proof fn lemma_walk_tail(m: Map<CellPointer, Expr>, root: CellPointer, k: CellPointer, p: Seq<CellPointer>)
    requires
        walk_from(m, root, k, p),
        p.len() >= 2,
    ensures
        walk_from(m, root, p[1], p.subrange(1, p.len() as int)),
        m.contains_key(k) && k != root && expr_reads(m[k], p[1]),
{
    let t = p.subrange(1, p.len() as int);
    assert(p[0] == k);
    assert forall|j: int| 0 <= j < t.len() - 1 implies m.contains_key(#[trigger] t[j]) && t[j] != root
        && expr_reads(m[t[j]], t[j + 1]) by {
        assert(t[j] == p[j + 1]);
        assert(t[j + 1] == p[j + 2]);
    }
}

/// A walk in `m.insert(key, e)` that ends at `key`, from a point that is a cell of `m` or
/// `key`, yields a walk in `m` from that point to `key`.
proof fn lemma_walk_to_key(
    m: Map<CellPointer, Expr>,
    key: CellPointer,
    e: Expr,
    q: Seq<CellPointer>,
    i: int,
) -> (p: Seq<CellPointer>)
    requires
        1 <= i < q.len(),
        q.last() == key,
        forall|j: int| 0 <= j < q.len() - 1 ==> edge(m.insert(key, e), #[trigger] q[j], q[j + 1]),
        m.contains_key(q[i]) || q[i] == key,
    ensures
        walk_from(m, key, q[i], p),
        p.last() == key,
    decreases q.len() - i,
{
    if q[i] == key {
        let p = seq![key];
        assert(p.last() == key);
        p
    } else {
        assert(i < q.len() - 1);
        assert(edge(m.insert(key, e), q[i], q[i + 1]));
        let rest = lemma_walk_to_key(m, key, e, q, i + 1);
        let p = seq![q[i]] + rest;
        assert forall|j: int| 0 <= j < p.len() - 1 implies m.contains_key(#[trigger] p[j]) && p[j] != key
            && expr_reads(m[p[j]], p[j + 1]) by {
            if j == 0 {
                assert(p[1] == rest[0]);
            } else {
                assert(p[j] == rest[j - 1]);
                assert(p[j + 1] == rest[j]);
            }
        }
        assert(p.last() == rest.last());
        p
    }
}

/// A cycle through `key` turned to start and end at `key`.
proof fn lemma_rotate(m: Map<CellPointer, Expr>, p: Seq<CellPointer>, t: int) -> (q: Seq<CellPointer>)
    requires
        is_cycle(m, p),
        0 <= t < p.len() - 1,
    ensures
        is_cycle(m, q),
        q[0] == p[t],
        q.len() == p.len(),
{
    let n = p.len();
    let a = p.subrange(t, n - 1);
    let b = p.subrange(0, t + 1);
    let q = a + b;
    assert(q[0] == p[t]);
    assert(q.last() == p[t]);
    assert forall|j: int| 0 <= j < q.len() - 1 implies edge(m, #[trigger] q[j], q[j + 1]) by {
        if j < n - 1 - t - 1 {
            assert(q[j] == p[t + j]);
            assert(q[j + 1] == p[t + j + 1]);
        } else if j == n - 1 - t - 1 {
            assert(q[j] == p[n - 2]);
            assert(q[j + 1] == p[0]);
            assert(p[0] == p[n - 1]);
            assert(edge(m, p[n - 2], p[n - 1]));
        } else {
            let k = j - (n - 1 - t);
            assert(q[j] == p[k]);
            assert(q[j + 1] == p[k + 1]);
        }
    }
    q
}

/// Giving `key` the expression `e` keeps an acyclic graph acyclic when no walk from a cell
/// that `e` reads comes back to `key`.
pub proof fn lemma_no_new_cycle(m: Map<CellPointer, Expr>, key: CellPointer, e: Expr)
    requires
        acyclic(m),
        !closes_cycle(m, key, e),
    ensures
        acyclic(m.insert(key, e)),
{
    let m2 = m.insert(key, e);
    assert forall|p: Seq<CellPointer>| !#[trigger] is_cycle(m2, p) by {
        if is_cycle(m2, p) {
            if exists|t: int| 0 <= t < p.len() && p[t] == key {
                let t0 = choose|t: int| 0 <= t < p.len() && p[t] == key;
                let t = if t0 == p.len() - 1 {
                    0
                } else {
                    t0
                };
                let q = lemma_rotate(m2, p, t);
                assert(edge(m2, q[0], q[1]));
                assert(expr_reads(e, q[1]));
                let w = lemma_walk_to_key(m, key, e, q, 1);
                assert(m.contains_key(q[1]) || q[1] == key);
                assert(avoids_root(m, key, q[1]));
                assert(walk_from(m, key, q[1], w));
            } else {
                assert forall|j: int| 0 <= j < p.len() - 1 implies edge(m, #[trigger] p[j], p[j + 1]) by {
                    assert(edge(m2, p[j], p[j + 1]));
                    assert(p[j] != key);
                    assert(p[j + 1] != key);
                }
                assert(is_cycle(m, p));
            }
        }
    }
}

} // verus!
