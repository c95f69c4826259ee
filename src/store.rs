use vstd::prelude::*;

use crate::deps::{expr_deps, same_deps, Dependencies};
use crate::expression::{Expr, Expression};
use crate::host::HostValue;
use crate::parser::parse_text;
use crate::reference::CellPointer;

verus! {

/// One cell: its raw text, the parsed expression, and the last resolution.
pub struct Cell {
    pub key: CellPointer,
    pub raw_value: String,
    pub parsed_expression: Expression,
    pub resolved_value: Option<HostValue>,
    pub resolved_dependencies: Option<Dependencies>,
}

/// Whether no two cells share a key.
pub open spec fn unique_keys(s: Seq<Cell>) -> bool {
    forall|i: int, j: int| 0 <= i < s.len() && 0 <= j < s.len() && i != j ==> #[trigger] s[i].key != #[trigger] s[j].key
}

pub open spec fn seq_has(s: Seq<Cell>, k: CellPointer) -> bool {
    exists|i: int| 0 <= i < s.len() && #[trigger] s[i].key == k
}

pub open spec fn seq_index(s: Seq<Cell>, k: CellPointer) -> int {
    choose|i: int| 0 <= i < s.len() && #[trigger] s[i].key == k
}

pub open spec fn seq_cell(s: Seq<Cell>, k: CellPointer) -> Cell {
    s[seq_index(s, k)]
}

/// With unique keys, the cell found under a key is the one at its index.
pub proof fn lemma_seq_cell(s: Seq<Cell>, i: int)
    requires
        unique_keys(s),
        0 <= i < s.len(),
    ensures
        seq_has(s, s[i].key),
        seq_index(s, s[i].key) == i,
        seq_cell(s, s[i].key) == s[i],
{
    let k = s[i].key;
    assert(seq_has(s, k));
    let j = seq_index(s, k);
    assert(s[j].key == k);
}

/// Replacing the cell at `i` by one with the same key changes only that key's cell.
pub proof fn lemma_update_frame(s: Seq<Cell>, i: int, c: Cell)
    requires
        unique_keys(s),
        0 <= i < s.len(),
        c.key == s[i].key,
    ensures
        unique_keys(s.update(i, c)),
        forall|k: CellPointer| #[trigger] seq_has(s.update(i, c), k) == seq_has(s, k),
        forall|k: CellPointer|
            seq_has(s, k) ==> #[trigger] seq_cell(s.update(i, c), k) == if k == c.key {
                c
            } else {
                seq_cell(s, k)
            },
{
    let t = s.update(i, c);
    assert forall|k: CellPointer| #[trigger] seq_has(t, k) == seq_has(s, k) by {
        if seq_has(s, k) {
            let j = choose|j: int| 0 <= j < s.len() && s[j].key == k;
            assert(t[j].key == k);
        }
        if seq_has(t, k) {
            let j = choose|j: int| 0 <= j < t.len() && t[j].key == k;
            assert(s[j].key == k);
        }
    }
    assert forall|k: CellPointer|
        seq_has(s, k) implies #[trigger] seq_cell(t, k) == if k == c.key {
            c
        } else {
            seq_cell(s, k)
        } by {
        let j = seq_index(s, k);
        lemma_seq_cell(s, j);
        assert(t[j].key == k);
        lemma_seq_cell(t, j);
    }
}

/// Removing the cell at `i` removes its key and keeps every other cell.
pub proof fn lemma_remove_frame(s: Seq<Cell>, i: int)
    requires
        unique_keys(s),
        0 <= i < s.len(),
    ensures
        unique_keys(s.remove(i)),
        forall|k: CellPointer| #[trigger] seq_has(s.remove(i), k) == (seq_has(s, k) && k != s[i].key),
        forall|k: CellPointer|
            seq_has(s.remove(i), k) ==> #[trigger] seq_cell(s.remove(i), k) == seq_cell(s, k),
{
    let t = s.remove(i);
    assert forall|a: int, b: int|
        0 <= a < t.len() && 0 <= b < t.len() && a != b implies #[trigger] t[a].key != #[trigger] t[b].key by {
        let a2 = if a < i { a } else { a + 1 };
        let b2 = if b < i { b } else { b + 1 };
        assert(t[a] == s[a2]);
        assert(t[b] == s[b2]);
    }
    assert forall|k: CellPointer| #[trigger] seq_has(t, k) == (seq_has(s, k) && k != s[i].key) by {
        if seq_has(s, k) && k != s[i].key {
            let j = choose|j: int| 0 <= j < s.len() && s[j].key == k;
            if j < i {
                assert(t[j] == s[j]);
            } else {
                assert(j > i);
                assert(t[j - 1] == s[j]);
            }
        }
        if seq_has(t, k) {
            let j = choose|j: int| 0 <= j < t.len() && t[j].key == k;
            let j2 = if j < i { j } else { j + 1 };
            assert(s[j2] == t[j]);
        }
    }
    assert forall|k: CellPointer| seq_has(t, k) implies #[trigger] seq_cell(t, k) == seq_cell(s, k) by {
        let j = seq_index(t, k);
        let j2 = if j < i { j } else { j + 1 };
        assert(s[j2] == t[j]);
        lemma_seq_cell(s, j2);
    }
}

/// Appending a cell with a new key adds that key and keeps every other cell.
pub proof fn lemma_push_frame(s: Seq<Cell>, c: Cell)
    requires
        unique_keys(s),
        !seq_has(s, c.key),
    ensures
        unique_keys(s.push(c)),
        forall|k: CellPointer| #[trigger] seq_has(s.push(c), k) == (seq_has(s, k) || k == c.key),
        forall|k: CellPointer|
            seq_has(s.push(c), k) ==> #[trigger] seq_cell(s.push(c), k) == if k == c.key {
                c
            } else {
                seq_cell(s, k)
            },
{
    let t = s.push(c);
    assert forall|a: int, b: int|
        0 <= a < t.len() && 0 <= b < t.len() && a != b implies #[trigger] t[a].key != #[trigger] t[b].key by {
        if a < s.len() && b < s.len() {
            assert(t[a] == s[a] && t[b] == s[b]);
        } else if a < s.len() {
            assert(t[a] == s[a]);
        } else if b < s.len() {
            assert(t[b] == s[b]);
        }
    }
    assert forall|k: CellPointer| #[trigger] seq_has(t, k) == (seq_has(s, k) || k == c.key) by {
        if seq_has(s, k) {
            let j = choose|j: int| 0 <= j < s.len() && s[j].key == k;
            assert(t[j] == s[j]);
        }
        if k == c.key {
            assert(t[s.len() as int] == c);
        }
        if seq_has(t, k) {
            let j = choose|j: int| 0 <= j < t.len() && t[j].key == k;
            if j < s.len() {
                assert(t[j] == s[j]);
            }
        }
    }
    assert forall|k: CellPointer|
        seq_has(t, k) implies #[trigger] seq_cell(t, k) == if k == c.key {
            c
        } else {
            seq_cell(s, k)
        } by {
        if k == c.key {
            assert(t[s.len() as int] == c);
            lemma_seq_cell(t, s.len() as int);
        } else {
            let j = seq_index(s, k);
            lemma_seq_cell(s, j);
            assert(t[j] == s[j]);
            lemma_seq_cell(t, j);
        }
    }
}

/// A cell is well formed when its expression is its parsed raw text, and its recorded
/// dependencies, if any, are those of the expression.
pub open spec fn cell_wf(c: Cell) -> bool {
    &&& parse_text(c.raw_value@, true) == Ok::<Expr, crate::error::ExpressionError>(c.parsed_expression@)
    &&& c.resolved_dependencies matches Some(d) ==> same_deps(d@, expr_deps(c.parsed_expression@))
}

} // verus!
