use vstd::prelude::*;

use crate::reference::CellPointer;

verus! {

/// The pairs that do not name `key` as the dependent.
pub fn without_dependent<K: Copy>(v: &Vec<(K, CellPointer)>, key: CellPointer) -> (r: Vec<
    (K, CellPointer),
>)
    ensures
        forall|p: (K, CellPointer)| #[trigger] r@.contains(p) <==> (v@.contains(p) && p.1 != key),
{
    let mut out: Vec<(K, CellPointer)> = Vec::new();
    let mut i: usize = 0;
    while i < v.len()
        invariant
            i <= v@.len(),
            forall|p: (K, CellPointer)|
                #[trigger] out@.contains(p) <==> (v@.subrange(0, i as int).contains(p) && p.1
                    != key),
        decreases v.len() - i,
    {
        let p = v[i];
        let ghost prev = out@;
        if p.1 != key {
            out.push(p);
        }
        proof {
            assert forall|q: (K, CellPointer)|
                #[trigger] out@.contains(q) <==> (v@.subrange(0, i + 1).contains(q) && q.1
                    != key) by {
                if v@.subrange(0, i + 1).contains(q) {
                    let j = choose|j: int| 0 <= j < i + 1 && #[trigger] v@.subrange(0, i + 1)[j] == q;
                    if j < i {
                        assert(v@.subrange(0, i as int)[j] == q);
                        assert(v@.subrange(0, i as int).contains(q));
                        if q.1 != key {
                            assert(prev.contains(q));
                            let m = choose|m: int| 0 <= m < prev.len() && #[trigger] prev[m] == q;
                            assert(out@[m] == q);
                        }
                    } else if q.1 != key {
                        assert(out@[out@.len() - 1] == q);
                    }
                }
                if out@.contains(q) {
                    let j = choose|j: int| 0 <= j < out@.len() && #[trigger] out@[j] == q;
                    if j < prev.len() {
                        assert(prev[j] == q);
                        assert(prev.contains(q));
                        let m = choose|m: int| 0 <= m < i && #[trigger] v@.subrange(0, i as int)[m] == q;
                        assert(v@.subrange(0, i + 1)[m] == q);
                    } else {
                        assert(q == p);
                        assert(v@.subrange(0, i + 1)[i as int] == q);
                    }
                }
            }
        }
        i += 1;
    }
    assert(v@.subrange(0, v@.len() as int) =~= v@);
    out
}

/// Adds the pair `(x, key)` for every `x` of `anchors`.
pub fn link_all<K: Copy>(v: &mut Vec<(K, CellPointer)>, anchors: &Vec<K>, key: CellPointer)
    ensures
        forall|p: (K, CellPointer)|
            #[trigger] final(v)@.contains(p) <==> (old(v)@.contains(p) || (p.1 == key
                && anchors@.contains(p.0))),
{
    let mut i: usize = 0;
    while i < anchors.len()
        invariant
            i <= anchors@.len(),
            forall|p: (K, CellPointer)|
                #[trigger] v@.contains(p) <==> (old(v)@.contains(p) || (p.1 == key
                    && anchors@.subrange(0, i as int).contains(p.0))),
        decreases anchors.len() - i,
    {
        let x = anchors[i];
        let ghost prev = v@;
        v.push((x, key));
        proof {
            assert forall|q: (K, CellPointer)|
                #[trigger] v@.contains(q) <==> (old(v)@.contains(q) || (q.1 == key
                    && anchors@.subrange(0, i + 1).contains(q.0))) by {
                if v@.contains(q) {
                    let j = choose|j: int| 0 <= j < v@.len() && #[trigger] v@[j] == q;
                    if j < prev.len() {
                        assert(prev[j] == q);
                        assert(prev.contains(q));
                        if !old(v)@.contains(q) {
                            let m = choose|m: int|
                                0 <= m < i && #[trigger] anchors@.subrange(0, i as int)[m] == q.0;
                            assert(anchors@.subrange(0, i + 1)[m] == q.0);
                        }
                    } else {
                        assert(anchors@.subrange(0, i + 1)[i as int] == q.0);
                    }
                }
                if old(v)@.contains(q) {
                    assert(prev.contains(q));
                    let j = choose|j: int| 0 <= j < prev.len() && #[trigger] prev[j] == q;
                    assert(v@[j] == q);
                }
                if q.1 == key && anchors@.subrange(0, i + 1).contains(q.0) {
                    let m = choose|m: int| 0 <= m < i + 1 && #[trigger] anchors@.subrange(0, i + 1)[m] == q.0;
                    if m < i {
                        assert(anchors@.subrange(0, i as int)[m] == q.0);
                        assert(prev.contains(q));
                        let j = choose|j: int| 0 <= j < prev.len() && #[trigger] prev[j] == q;
                        assert(v@[j] == q);
                    } else {
                        assert(q == (x, key));
                        assert(v@[prev.len() as int] == q);
                    }
                }
            }
        }
        i += 1;
    }
    assert(anchors@.subrange(0, anchors@.len() as int) =~= anchors@);
}

/// Adds `key` to `out` unless it is there already.
pub fn push_new(out: &mut Vec<CellPointer>, key: CellPointer)
    ensures
        forall|k: CellPointer| #[trigger] final(out)@.contains(k) <==> (old(out)@.contains(k) || k == key),
{
    let mut i: usize = 0;
    while i < out.len()
        invariant
            i <= out@.len(),
            forall|j: int| 0 <= j < i ==> out@[j] != key,
        decreases out.len() - i,
    {
        if out[i] == key {
            proof {
                assert forall|k: CellPointer| #[trigger] out@.contains(k) <==> (out@.contains(k) || k == key) by {
                    if k == key {
                        assert(out@[i as int] == k);
                    }
                }
            }
            return;
        }
        i += 1;
    }
    let ghost prev = out@;
    out.push(key);
    proof {
        assert forall|k: CellPointer| #[trigger] out@.contains(k) <==> (prev.contains(k) || k == key) by {
            if prev.contains(k) {
                let j = choose|j: int| 0 <= j < prev.len() && #[trigger] prev[j] == k;
                assert(out@[j] == k);
            }
            if k == key {
                assert(out@[prev.len() as int] == k);
            }
            if out@.contains(k) {
                let j = choose|j: int| 0 <= j < out@.len() && #[trigger] out@[j] == k;
                if j < prev.len() {
                    assert(prev[j] == k);
                }
            }
        }
    }
}

/// The dependents recorded under the cell `anchor`, added to `out` without repeats.
pub fn dependents_of_cell(v: &Vec<(CellPointer, CellPointer)>, anchor: CellPointer, out: &mut Vec<CellPointer>)
    ensures
        forall|k: CellPointer|
            #[trigger] final(out)@.contains(k) <==> (old(out)@.contains(k) || v@.contains((anchor, k))),
{
    let mut i: usize = 0;
    while i < v.len()
        invariant
            i <= v@.len(),
            forall|k: CellPointer|
                #[trigger] out@.contains(k) <==> (old(out)@.contains(k) || v@.subrange(0, i as int).contains((anchor, k))),
        decreases v.len() - i,
    {
        let p = v[i];
        if p.0 == anchor {
            push_new(out, p.1);
        }
        proof {
            assert forall|k: CellPointer|
                #[trigger] out@.contains(k) <==> (old(out)@.contains(k) || v@.subrange(0, i + 1).contains((anchor, k))) by {
                if v@.subrange(0, i + 1).contains((anchor, k)) {
                    let j = choose|j: int| 0 <= j < i + 1 && #[trigger] v@.subrange(0, i + 1)[j] == (anchor, k);
                    if j < i {
                        assert(v@.subrange(0, i as int)[j] == (anchor, k));
                    }
                }
                if v@.subrange(0, i as int).contains((anchor, k)) {
                    let j = choose|j: int| 0 <= j < i && #[trigger] v@.subrange(0, i as int)[j] == (anchor, k);
                    assert(v@.subrange(0, i + 1)[j] == (anchor, k));
                }
                if p.0 == anchor && p.1 == k {
                    assert(v@.subrange(0, i + 1)[i as int] == (anchor, k));
                }
            }
        }
        i += 1;
    }
    assert(v@.subrange(0, v@.len() as int) =~= v@);
}

/// The dependents recorded under the column or row `anchor`, added to `out` without repeats.
pub fn dependents_of_line(v: &Vec<(usize, CellPointer)>, anchor: usize, out: &mut Vec<CellPointer>)
    ensures
        forall|k: CellPointer|
            #[trigger] final(out)@.contains(k) <==> (old(out)@.contains(k) || v@.contains((anchor, k))),
{
    let mut i: usize = 0;
    while i < v.len()
        invariant
            i <= v@.len(),
            forall|k: CellPointer|
                #[trigger] out@.contains(k) <==> (old(out)@.contains(k) || v@.subrange(0, i as int).contains((anchor, k))),
        decreases v.len() - i,
    {
        let p = v[i];
        if p.0 == anchor {
            push_new(out, p.1);
        }
        proof {
            assert forall|k: CellPointer|
                #[trigger] out@.contains(k) <==> (old(out)@.contains(k) || v@.subrange(0, i + 1).contains((anchor, k))) by {
                if v@.subrange(0, i + 1).contains((anchor, k)) {
                    let j = choose|j: int| 0 <= j < i + 1 && #[trigger] v@.subrange(0, i + 1)[j] == (anchor, k);
                    if j < i {
                        assert(v@.subrange(0, i as int)[j] == (anchor, k));
                    }
                }
                if v@.subrange(0, i as int).contains((anchor, k)) {
                    let j = choose|j: int| 0 <= j < i && #[trigger] v@.subrange(0, i as int)[j] == (anchor, k);
                    assert(v@.subrange(0, i + 1)[j] == (anchor, k));
                }
                if p.0 == anchor && p.1 == k {
                    assert(v@.subrange(0, i + 1)[i as int] == (anchor, k));
                }
            }
        }
        i += 1;
    }
    assert(v@.subrange(0, v@.len() as int) =~= v@);
}

} // verus!
