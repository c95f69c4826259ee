use vstd::prelude::*;

use crate::deps::{expr_deps, max_of, min_of, same_deps, union_deps, Dependencies};
use crate::error::SheetError;
use crate::graph::{
    ref_reads, acyclic, any_reads, avoids_root, closes_cycle, edge, expr_reads, is_cycle, lemma_no_new_cycle,
    lemma_walk_tail, walk_from,
};
use crate::expression::{
    args_of, copy_expr, expr_size, expr_text, inputs_of, lemma_function_view, lemma_input_smaller,
    Expr, Expression,
};
use crate::host::{Host, HostValue, Val};
use crate::index::{dependents_of_cell, dependents_of_line, link_all, push_new, without_dependent};
use crate::parser::parse_text;
use crate::reference::{CellPointer, Reference};
use crate::store::{
    cell_wf, lemma_push_frame, lemma_remove_frame, lemma_seq_cell, lemma_update_frame, seq_cell,
    seq_has, seq_index, unique_keys, Cell,
};
use crate::text::{chars_of, string_of};

verus! {

/// Whether a resolution should be shown: `Update` shows it, `UpdateNext` shows only the
/// cells it propagates to, `Noop` shows nothing.
#[derive(Debug, Clone, Copy, PartialEq, Eq, Structural)]
pub enum ResolveDisplay {
    Update,
    UpdateNext,
    Noop,
}

impl ResolveDisplay {
    /// The display policy for the cells a resolution propagates to.
    pub fn next(self) -> (r: ResolveDisplay)
        ensures
            r == (if self is Noop {
                ResolveDisplay::Noop
            } else {
                ResolveDisplay::Update
            }),
    {
        match self {
            ResolveDisplay::Noop => ResolveDisplay::Noop,
            _ => ResolveDisplay::Update,
        }
    }
}

/// The engine: cells by key, and the reverse indices from what a cell reads to the cell.
pub struct State {
    pub initialized: bool,
    pub sheet_bounds: (usize, usize),
    cells: Vec<Cell>,
    reverse_index_singles: Vec<(CellPointer, CellPointer)>,
    reverse_index_cols: Vec<(usize, CellPointer)>,
    reverse_index_rows: Vec<(usize, CellPointer)>,
    shown: Ghost<Seq<(CellPointer, Val)>>,
    resolutions: Ghost<Seq<CellPointer>>,
    calls: Ghost<Seq<HostCall>>,
    failures: Ghost<Seq<Val>>,
}

/// One call of a host function: its name, the values handed to it, and its answer.
pub struct HostCall {
    pub name: Seq<char>,
    pub args: Seq<Val>,
    pub answer: Result<Val, Val>,
}

impl State {
    /// Whether a cell exists under `k`.
    pub closed spec fn has_cell(&self, k: CellPointer) -> bool {
        seq_has(self.cells@, k)
    }

    /// The cell under `k` (meaningful when it exists).
    pub closed spec fn cell(&self, k: CellPointer) -> Cell {
        seq_cell(self.cells@, k)
    }

    /// The raw text of every cell.
    pub open spec fn raws(&self) -> Map<CellPointer, Seq<char>> {
        Map::new(|k: CellPointer| self.has_cell(k), |k: CellPointer| self.cell(k).raw_value@)
    }

    /// The parsed expression of every cell.
    pub open spec fn exprs(&self) -> Map<CellPointer, Expr> {
        Map::new(|k: CellPointer| self.has_cell(k), |k: CellPointer| self.cell(k).parsed_expression@)
    }

    /// Cell `d` last resolved with a dependency on cell `x`.
    pub open spec fn reads_cell(&self, x: CellPointer, d: CellPointer) -> bool {
        self.has_cell(d) && (self.cell(d).resolved_dependencies matches Some(s) && s@.singles.contains(x))
    }

    /// Cell `d` last resolved with a dependency on column `c`.
    pub open spec fn reads_col(&self, c: usize, d: CellPointer) -> bool {
        self.has_cell(d) && (self.cell(d).resolved_dependencies matches Some(s) && s@.cols.contains(c))
    }

    /// Cell `d` last resolved with a dependency on row `r`.
    pub open spec fn reads_row(&self, r: usize, d: CellPointer) -> bool {
        self.has_cell(d) && (self.cell(d).resolved_dependencies matches Some(s) && s@.rows.contains(r))
    }

    /// Cell `d` last resolved with a dependency on the cell `key`, on its column or on its row.
    pub open spec fn reads_key(&self, key: CellPointer, d: CellPointer) -> bool {
        self.reads_cell(key, d) || self.reads_col(key.0, d) || self.reads_row(key.1, d)
    }

    /// The reverse index of cells holds `d` under `x`.
    pub closed spec fn indexed_cell(&self, x: CellPointer, d: CellPointer) -> bool {
        self.reverse_index_singles@.contains((x, d))
    }

    /// The reverse index of columns holds `d` under `c`.
    pub closed spec fn indexed_col(&self, c: usize, d: CellPointer) -> bool {
        self.reverse_index_cols@.contains((c, d))
    }

    /// The reverse index of rows holds `d` under `r`.
    pub closed spec fn indexed_row(&self, r: usize, d: CellPointer) -> bool {
        self.reverse_index_rows@.contains((r, d))
    }

    /// The store's invariant: keys are unique, every cell is well formed, and the reverse
    /// indices hold exactly the recorded dependencies.
    pub closed spec fn wf(&self) -> bool {
        &&& unique_keys(self.cells@)
        &&& forall|i: int| 0 <= i < self.cells@.len() ==> cell_wf(#[trigger] self.cells@[i])
        &&& forall|x: CellPointer, d: CellPointer|
            #[trigger] self.reverse_index_singles@.contains((x, d)) <==> self.reads_cell(x, d)
        &&& forall|c: usize, d: CellPointer|
            #[trigger] self.reverse_index_cols@.contains((c, d)) <==> self.reads_col(c, d)
        &&& forall|r: usize, d: CellPointer|
            #[trigger] self.reverse_index_rows@.contains((r, d)) <==> self.reads_row(r, d)
    }

    /// The dependency sets recorded at the last resolution of `k`, if any.
    pub closed spec fn recorded_deps(&self, k: CellPointer) -> Option<crate::deps::DepSets> {
        if self.has_cell(k) {
            match self.cell(k).resolved_dependencies {
                Some(d) => Some(d@),
                None => None,
            }
        } else {
            None
        }
    }

    /// Every value handed to the display callback so far, with its key, in order.
    pub closed spec fn shown(&self) -> Seq<(CellPointer, Val)> {
        self.shown@
    }

    /// Every error the display callback answered so far, in order.
    pub closed spec fn failures(&self) -> Seq<Val> {
        self.failures@
    }

    /// Every call of a host function made so far, in order.
    pub closed spec fn calls(&self) -> Seq<HostCall> {
        self.calls@
    }

    /// The key of every resolution made so far, in order.
    pub closed spec fn resolutions(&self) -> Seq<CellPointer> {
        self.resolutions@
    }

    /// The advisory presentation bounds (columns, rows).
    pub closed spec fn bounds(&self) -> (usize, usize) {
        self.sheet_bounds
    }

    /// The value last resolved for `k`, if any.
    pub open spec fn resolved(&self, k: CellPointer) -> Option<Val> {
        if self.has_cell(k) {
            match self.cell(k).resolved_value {
                Some(v) => Some(v@),
                None => None,
            }
        } else {
            None
        }
    }

    /// The same cells, expressions and raw texts.
    pub open spec fn same_cells(&self, other: &State) -> bool {
        self.raws() == other.raws() && self.exprs() == other.exprs()
    }

    /// An empty sheet with the default bounds.
    pub fn new() -> (r: State)
        ensures
            r.wf(),
            r.raws() == Map::<CellPointer, Seq<char>>::empty(),
            r.bounds() == (27usize, 65usize),
    {
        let r = State {
            initialized: true,
            sheet_bounds: (27, 65),
            cells: Vec::new(),
            reverse_index_singles: Vec::new(),
            reverse_index_cols: Vec::new(),
            reverse_index_rows: Vec::new(),
            shown: Ghost(Seq::empty()),
            resolutions: Ghost(Seq::empty()),
            calls: Ghost(Seq::empty()),
            failures: Ghost(Seq::empty()),
        };
        assert(r.raws() =~= Map::<CellPointer, Seq<char>>::empty());
        r
    }

    /// Where the cell under `k` is stored.
    fn find(&self, k: CellPointer) -> (r: Option<usize>)
        requires
            unique_keys(self.cells@),
        ensures
            r matches Some(i) ==> i < self.cells@.len() && self.cells@[i as int].key == k
                && self.has_cell(k) && self.cell(k) == self.cells@[i as int],
            r is None ==> !self.has_cell(k),
    {
        let mut i: usize = 0;
        while i < self.cells.len()
            invariant
                i <= self.cells@.len(),
                unique_keys(self.cells@),
                forall|j: int| 0 <= j < i ==> #[trigger] self.cells@[j].key != k,
            decreases self.cells.len() - i,
        {
            if self.cells[i].key == k {
                proof {
                    lemma_seq_cell(self.cells@, i as int);
                }
                return Some(i);
            }
            i += 1;
        }
        None
    }

    /// The raw text of the cell under `key`.
    pub fn get_cell_raw_value(&self, key: CellPointer) -> (r: Option<String>)
        requires
            self.wf(),
        ensures
            r is Some == self.raws().contains_key(key),
            r matches Some(s) ==> s@ == self.raws()[key],
    {
        match self.find(key) {
            Some(i) => Some(self.cells[i].raw_value.clone()),
            None => None,
        }
    }

    /// The value last resolved for the cell under `key`.
    pub fn get_cell_resolved_value(&self, key: CellPointer) -> (r: Option<HostValue>)
        requires
            self.wf(),
        ensures
            r is Some == self.resolved(key) is Some,
            r matches Some(v) ==> Some(v@) == self.resolved(key),
    {
        match self.find(key) {
            Some(i) => match &self.cells[i].resolved_value {
                Some(v) => Some(v.duplicate()),
                None => None,
            },
            None => None,
        }
    }

    /// Records a new resolution for the cell at `i` and makes the reverse indices hold its new
    /// dependencies in place of the old ones.
    fn set_resolution(&mut self, i: usize, value: HostValue, deps: Dependencies)
        requires
            old(self).wf(),
            i < old(self).cells@.len(),
            same_deps(deps@, expr_deps(old(self).cells@[i as int].parsed_expression@)),
        ensures
            final(self).wf(),
            final(self).same_cells(old(self)),
            final(self).bounds() == old(self).bounds(),
            final(self).cells@.len() == old(self).cells@.len(),
            forall|j: int| 0 <= j < final(self).cells@.len() ==> #[trigger] final(self).cells@[j].key == old(self).cells@[j].key,
            final(self).resolved(old(self).cells@[i as int].key) == Some(value@),
            forall|k: CellPointer| k != old(self).cells@[i as int].key ==> #[trigger] final(self).resolved(k) == old(self).resolved(k),
            final(self).recorded_deps(old(self).cells@[i as int].key) is Some,
            forall|k: CellPointer| k != old(self).cells@[i as int].key ==> #[trigger] final(self).recorded_deps(k) == old(self).recorded_deps(k),
            final(self).shown() == old(self).shown(),
            final(self).calls() == old(self).calls(),
            final(self).resolutions() == old(self).resolutions().push(old(self).cells@[i as int].key),
    {
        let key = self.cells[i].key;
        let ghost pre = *self;
        let mut c = self.cells.remove(i);
        c.resolved_value = Some(value);
        self.reverse_index_singles = without_dependent(&self.reverse_index_singles, key);
        self.reverse_index_cols = without_dependent(&self.reverse_index_cols, key);
        self.reverse_index_rows = without_dependent(&self.reverse_index_rows, key);
        link_all(&mut self.reverse_index_singles, &deps.singles, key);
        link_all(&mut self.reverse_index_cols, &deps.cols, key);
        link_all(&mut self.reverse_index_rows, &deps.rows, key);
        c.resolved_dependencies = Some(deps);
        self.cells.insert(i, c);
        self.resolutions = Ghost(self.resolutions@.push(key));
        proof {
            assert(self.cells@ =~= pre.cells@.update(i as int, c));
            lemma_resolution_wf(pre, *self, i as int, c);
            lemma_update_frame(pre.cells@, i as int, c);
            lemma_seq_cell(self.cells@, i as int);
            assert forall|k: CellPointer| k != key implies #[trigger] self.resolved(k) == pre.resolved(k) by {
                if pre.has_cell(k) {
                    assert(self.cell(k) == pre.cell(k));
                }
            }
            assert forall|k: CellPointer| k != key implies #[trigger] self.recorded_deps(k) == pre.recorded_deps(k) by {
                if pre.has_cell(k) {
                    assert(self.cell(k) == pre.cell(k));
                }
            }
        }
    }

    /// The store after an evaluation: the same cells in the same places, every existing
    /// resolution kept; only cells that had none may have gained one.
    pub closed spec fn kept_by(&self, pre: &State) -> bool {
        &&& self.wf()
        &&& self.same_cells(pre)
        &&& self.bounds() == pre.bounds()
        &&& self.cells@.len() == pre.cells@.len()
        &&& forall|j: int| 0 <= j < self.cells@.len() ==> #[trigger] self.cells@[j].key == pre.cells@[j].key
        &&& forall|k: CellPointer| #[trigger] pre.resolved(k) is Some ==> self.resolved(k) == pre.resolved(k)
        &&& forall|k: CellPointer| #[trigger] self.recorded_deps(k) == pre.recorded_deps(k)
        &&& self.shown() == pre.shown()
        &&& self.resolutions() == pre.resolutions()
        &&& is_prefix(pre.calls(), self.calls())
        &&& forall|k: CellPointer| #[trigger] cell_value(pre, k) is Some ==> cell_value(self, k) == cell_value(pre, k)
    }

    /// Records a value computed on demand for the unresolved cell at `i`.
    fn remember_value(&mut self, i: usize, value: HostValue)
        requires
            old(self).wf(),
            i < old(self).cells@.len(),
            old(self).cells@[i as int].resolved_value is None,
            old(self).cells@[i as int].parsed_expression@ matches Expr::Value(t) ==> value@ == Val::Text(t),
        ensures
            final(self).kept_by(old(self)),
            final(self).resolved(old(self).cells@[i as int].key) == Some(value@),
    {
        let ghost pre = *self;
        let mut c = self.cells.remove(i);
        c.resolved_value = Some(value);
        self.cells.insert(i, c);
        proof {
            assert(self.cells@ =~= pre.cells@.update(i as int, c));
            lemma_remember_wf(pre, *self, i as int, c);
        }
    }

    /// The value of the cell under `k` as a reference sees it: its resolution, or, when it
    /// has none yet, its expression evaluated and remembered; null when there is no such cell.
    fn evaluate_single<H: Host>(&mut self, host: &mut H, k: CellPointer, fuel: usize) -> (r: Result<
        HostValue,
        SheetError,
    >)
        requires
            old(self).wf(),
        ensures
            final(self).kept_by(old(self)),
            !old(self).has_cell(k) ==> (r is Ok && r->Ok_0@ == Val::Null),
            old(self).resolved(k) is Some ==> (r is Ok && Some(r->Ok_0@) == old(self).resolved(k)),
            old(self).resolved(k) is Some || !old(self).has_cell(k) ==> *final(self) == *old(self),
            cell_value(old(self), k) is Some ==> r is Ok && Some(r->Ok_0@) == cell_value(old(self), k),
        decreases fuel, 0int, 0int,
    {
        let ghost pre = *self;
        proof {
            lemma_kept_refl(&pre);
        }
        match self.find(k) {
            None => Ok(HostValue::Null),
            Some(i) => {
                if let Some(v) = &self.cells[i].resolved_value {
                    return Ok(v.duplicate());
                }
                proof {
                    lemma_seq_cell(self.cells@, i as int);
                }
                if let Expression::Value(t) = &self.cells[i].parsed_expression {
                    let v = HostValue::Text(t.clone());
                    self.remember_value(i, v.duplicate());
                    return Ok(v);
                }
                if fuel == 0 {
                    let mut chain: Vec<CellPointer> = Vec::new();
                    chain.push(k);
                    return Err(SheetError::CircularDependency(chain));
                }
                let e = self.cells[i].parsed_expression.duplicate();
                let r = self.evaluate(host, &e, fuel - 1);
                match r {
                    Ok(v) => {
                        let ghost mid = *self;
                        proof {
                            lemma_seq_cell(self.cells@, i as int);
                            assert(self.exprs()[k] == pre.exprs()[k]);
                        }
                        if self.cells[i].resolved_value.is_none() {
                            self.remember_value(i, v.duplicate());
                            proof {
                                lemma_kept_trans(&pre, &mid, &*self);
                            }
                        }
                        Ok(v)
                    },
                    Err(x) => Err(x),
                }
            },
        }
    }

    /// The non-null values of the cells in the columns (or, when `by_row`, the rows) from
    /// `from` to `last`, starting at row (or column) `first`.
    fn evaluate_lines<H: Host>(
        &mut self,
        host: &mut H,
        from: usize,
        last: usize,
        first: usize,
        by_row: bool,
        fuel: usize,
    ) -> (r: Result<Vec<HostValue>, SheetError>)
        requires
            old(self).wf(),
        ensures
            final(self).kept_by(old(self)),
            from > last ==> r is Ok && r->Ok_0@.len() == 0,
            from <= last && lines_part(old(self), from as int, (last - from + 1) as nat, first as int, by_row) is Some
                ==> r is Ok && values_of(r->Ok_0@) == lines_part(old(self), from as int, (last - from + 1) as nat, first as int, by_row)->0,
        decreases fuel, 0int, 1int,
    {
        let ghost pre = *self;
        proof {
            lemma_kept_refl(&pre);
        }
        let mut values: Vec<HostValue> = Vec::new();
        if from > last {
            return Ok(values);
        }
        let mut line = from;
        proof {
            assert(values_of(values@) =~= Seq::<Val>::empty());
        }
        loop
            invariant
                self.kept_by(&pre),
                pre == *old(self),
                from <= line <= last,
                lines_part(&pre, from as int, (line - from) as nat, first as int, by_row) is Some ==> values_of(values@)
                    == lines_part(&pre, from as int, (line - from) as nat, first as int, by_row)->0,
                lines_part(&pre, from as int, (last - from + 1) as nat, first as int, by_row) is Some
                    ==> lines_part(&pre, from as int, (line - from) as nat, first as int, by_row) is Some,
            decreases last - line,
        {
            let ghost start = values@;
            let mut i: usize = 0;
            proof {
                lemma_lines_prefix(&pre, from as int, (line - from) as nat, (last - from + 1) as nat, first as int, by_row);
                lemma_lines_prefix(&pre, from as int, (line - from + 1) as nat, (last - from + 1) as nat, first as int, by_row);
                assert(line_part(&pre, line as int, first as int, by_row, 0) == Some(Seq::<Val>::empty()));
                assert(values_of(values@) =~= values_of(start) + Seq::<Val>::empty());
            }
            while i < self.cells.len()
                invariant
                    self.kept_by(&pre),
                    pre == *old(self),
                    i <= self.cells@.len(),
                    from <= line <= last,
                    lines_part(&pre, from as int, (line - from) as nat, first as int, by_row) is Some ==> values_of(start)
                        == lines_part(&pre, from as int, (line - from) as nat, first as int, by_row)->0,
                    lines_part(&pre, from as int, (line - from + 1) as nat, first as int, by_row) is Some
                        ==> lines_part(&pre, from as int, (line - from) as nat, first as int, by_row) is Some,
                    lines_part(&pre, from as int, (last - from + 1) as nat, first as int, by_row) is Some
                        ==> lines_part(&pre, from as int, (line - from + 1) as nat, first as int, by_row) is Some,
                    (lines_part(&pre, from as int, (line - from) as nat, first as int, by_row) is Some
                        && line_part(&pre, line as int, first as int, by_row, i as nat) is Some) ==> values_of(values@)
                        == values_of(start) + line_part(&pre, line as int, first as int, by_row, i as nat)->0,
                decreases self.cells.len() - i,
            {
                proof {
                    reveal_with_fuel(line_part, 2);
                }
                let k = self.cells[i].key;
                let in_line = if by_row {
                    k.1 == line && k.0 >= first
                } else {
                    k.0 == line && k.1 >= first
                };
                let ghost before_values = values@;
                proof {
                    assert(pre.cells@[i as int].key == k);
                }
                if in_line {
                    let ghost mid = *self;
                    let r = self.evaluate_single(host, k, fuel);
                    proof {
                        lemma_kept_trans(&pre, &mid, &*self);
                    }
                    match r {
                        Ok(v) => {
                            let ghost vv = v@;
                            if !v.is_null() {
                                values.push(v);
                            }
                            proof {
                                if cell_value(&pre, k) is Some {
                                    assert(cell_value(&mid, k) == cell_value(&pre, k));
                                    assert(values_of(values@) =~= keep_value(values_of(before_values), vv));
                                }
                            }
                        },
                        Err(e) => {
                            proof {
                                if lines_part(&pre, from as int, (last - from + 1) as nat, first as int, by_row) is Some {
                                    lemma_line_prefix(&pre, line as int, first as int, by_row, (i + 1) as nat, pre.cells@.len());
                                    assert(line_part(&pre, line as int, first as int, by_row, (i + 1) as nat) is Some);
                                    assert(cell_value(&pre, k) is Some);
                                }
                            }
                            return Err(e);
                        },
                    }
                }
                proof {
                    if lines_part(&pre, from as int, (line - from) as nat, first as int, by_row) is Some
                        && line_part(&pre, line as int, first as int, by_row, (i + 1) as nat) is Some {
                        let a = values_of(start);
                        let b = line_part(&pre, line as int, first as int, by_row, i as nat)->0;
                        if in_line {
                            let v = cell_value(&pre, k)->0;
                            assert(keep_value(a + b, v) =~= a + keep_value(b, v));
                        }
                    }
                }
                i += 1;
            }
            proof {
                let ghost n = pre.cells@.len();
                assert(i == n);
                assert(opt_cat(lines_part(&pre, from as int, (line - from) as nat, first as int, by_row),
                    line_part(&pre, line as int, first as int, by_row, n)) == lines_part(&pre, from as int, (line - from + 1) as nat, first as int, by_row));
            }
            if line == last {
                return Ok(values);
            }
            line = line + 1;
        }
    }

    /// The non-null values of the cells of a rectangle, column by column.
    fn evaluate_rectangle<H: Host>(&mut self, host: &mut H, a: CellPointer, b: CellPointer, fuel: usize) -> (r:
        Result<Vec<HostValue>, SheetError>)
        requires
            old(self).wf(),
        ensures
            final(self).kept_by(old(self)),
            ref_value(old(self), Reference::BoundedRange(a, b)) is Some ==> r is Ok && Some(Val::List(
                values_of(r->Ok_0@),
            )) == ref_value(old(self), Reference::BoundedRange(a, b)),
        decreases fuel, 0int, 1int,
    {
        let ghost pre = *self;
        proof {
            lemma_kept_refl(&pre);
        }
        let c0 = if a.0 <= b.0 { a.0 } else { b.0 };
        let c1 = if a.0 <= b.0 { b.0 } else { a.0 };
        let r0 = if a.1 <= b.1 { a.1 } else { b.1 };
        let r1 = if a.1 <= b.1 { b.1 } else { a.1 };
        let ghost big_m: nat = (c1 - c0 + 1) as nat;
        let ghost big_n: nat = (r1 - r0 + 1) as nat;
        let mut values: Vec<HostValue> = Vec::new();
        let cols: u128 = (c1 - c0) as u128 + 1;
        let rows: u128 = (r1 - r0) as u128 + 1;
        let mut ci: u128 = 0;
        proof {
            assert(values_of(values@) =~= Seq::<Val>::empty());
        }
        while ci < cols
            invariant
                self.kept_by(&pre),
                pre == *old(self),
                cols == big_m,
                rows == big_n,
                ci <= cols,
                c0 + cols - 1 == c1,
                r0 + rows - 1 == r1,
                ref_value(&pre, Reference::BoundedRange(a, b)) == (match rect_part(&pre, c0 as int, big_m, r0 as int, big_n) {
                    Some(x) => Some(Val::List(x)),
                    None => None,
                }),
                rect_part(&pre, c0 as int, ci as nat, r0 as int, big_n) is Some ==> values_of(values@)
                    == rect_part(&pre, c0 as int, ci as nat, r0 as int, big_n)->0,
            decreases cols - ci,
        {
            let c = (c0 as u128 + ci) as usize;
            let ghost start = values@;
            let mut wi: u128 = 0;
            proof {
                assert(values_of(values@) =~= values_of(start) + Seq::<Val>::empty());
                lemma_rect_prefix(&pre, c0 as int, (ci + 1) as nat, big_m, r0 as int, big_n);
                if rect_part(&pre, c0 as int, (ci + 1) as nat, r0 as int, big_n) is Some {
                    assert(column_part(&pre, c as int, r0 as int, big_n) is Some);
                }
            }
            while wi < rows
                invariant
                    self.kept_by(&pre),
                    pre == *old(self),
                    ci < cols,
                    c == c0 + ci,
                    wi <= rows,
                    rows == big_n,
                    r0 + rows - 1 == r1,
                    rect_part(&pre, c0 as int, big_m, r0 as int, big_n) is Some ==> column_part(&pre, c as int, r0 as int, big_n) is Some,
                    (rect_part(&pre, c0 as int, ci as nat, r0 as int, big_n) is Some && column_part(&pre, c as int, r0 as int, wi as nat) is Some)
                        ==> values_of(values@) == values_of(start) + column_part(&pre, c as int, r0 as int, wi as nat)->0,
                    rect_part(&pre, c0 as int, ci as nat, r0 as int, big_n) is Some ==> values_of(start)
                        == rect_part(&pre, c0 as int, ci as nat, r0 as int, big_n)->0,
                    ref_value(&pre, Reference::BoundedRange(a, b)) == (match rect_part(&pre, c0 as int, big_m, r0 as int, big_n) {
                        Some(x) => Some(Val::List(x)),
                        None => None,
                    }),
                decreases rows - wi,
            {
                let w = (r0 as u128 + wi) as usize;
                let ghost before_values = values@;
                let k = CellPointer(c, w);
                let ghost mid = *self;
                let r = self.evaluate_single(host, k, fuel);
                proof {
                    lemma_kept_trans(&pre, &mid, &*self);
                    if rect_part(&pre, c0 as int, big_m, r0 as int, big_n) is Some {
                        lemma_column_prefix(&pre, c as int, r0 as int, (wi + 1) as nat, big_n);
                    }
                    assert(column_part(&pre, c as int, r0 as int, (wi + 1) as nat) == (match (
                        column_part(&pre, c as int, r0 as int, wi as nat),
                        cell_value(&pre, k),
                    ) {
                        (Some(l), Some(v)) => Some(keep_value(l, v)),
                        _ => None,
                    }));
                }
                match r {
                    Ok(v) => {
                        let ghost vv = v@;
                        if !v.is_null() {
                            values.push(v);
                        }
                        proof {
                            if cell_value(&pre, k) is Some && column_part(&pre, c as int, r0 as int, wi as nat) is Some
                                && rect_part(&pre, c0 as int, ci as nat, r0 as int, big_n) is Some {
                                assert(cell_value(&mid, k) == cell_value(&pre, k));
                                assert(values_of(values@) =~= keep_value(values_of(before_values), vv));
                                let x = values_of(start);
                                let y = column_part(&pre, c as int, r0 as int, wi as nat)->0;
                                assert(keep_value(x + y, vv) =~= x + keep_value(y, vv));
                            }
                        }
                    },
                    Err(e) => {
                        return Err(e);
                    },
                }
                wi = wi + 1;
            }
            proof {
                assert(rect_part(&pre, c0 as int, (ci + 1) as nat, r0 as int, big_n) == opt_cat(
                    rect_part(&pre, c0 as int, ci as nat, r0 as int, big_n),
                    column_part(&pre, c as int, r0 as int, big_n),
                ));
            }
            ci = ci + 1;
        }
        Ok(values)
    }

    /// Evaluates an expression against the store. Literals are text, a missing cell is null,
    /// ranges are lists of their non-null values, and functions are the host's. Cells read
    /// before their first resolution are evaluated on demand and keep that value.
    fn evaluate<H: Host>(&mut self, host: &mut H, e: &Expression, fuel: usize) -> (r: Result<
        HostValue,
        SheetError,
    >)
        requires
            old(self).wf(),
        ensures
            final(self).kept_by(old(self)),
            e@ matches Expr::Value(t) ==> (r is Ok && r->Ok_0@ == Val::Text(t)),
            e@ matches Expr::Reference(Reference::Single(k)) ==> (!old(self).has_cell(k) ==> (r is Ok
                && r->Ok_0@ == Val::Null)),
            e@ matches Expr::Reference(Reference::Single(k)) ==> (old(self).resolved(k) is Some ==> (r is Ok
                && Some(r->Ok_0@) == old(self).resolved(k))),
            plain_value(old(self), e@) is Some ==> r is Ok && Some(r->Ok_0@) == plain_value(old(self), e@),
            e@ is Value ==> *final(self) == *old(self),
            e@ matches Expr::Reference(Reference::Single(k)) ==> (old(self).resolved(k) is Some
                || !old(self).has_cell(k) ==> *final(self) == *old(self)),
            r is Ok && e@ is Function ==> answered_last(*old(self), *final(self), e@, r->Ok_0@),
            e@ is Function && args_plain(old(self), e@) ==> final(self).calls().len() > old(self).calls().len()
                && call_on(*old(self), final(self).calls().last(), e@) && (r is Ok ==> final(self).calls().last().answer
                == Ok::<Val, Val>(r->Ok_0@)) && (r is Err ==> r->Err_0 is HostError
                && final(self).calls().last().answer == Err::<Val, Val>(r->Err_0->HostError_0@)),
        decreases fuel, expr_size(e@), 2int,
    {
        let ghost pre = *self;
        proof {
            lemma_kept_refl(&pre);
        }
        match e {
            Expression::Value(t) => Ok(HostValue::Text(t.clone())),
            Expression::Function { name, inputs } => {
                let mut args: Vec<HostValue> = Vec::new();
                let mut i: usize = 0;
                proof {
                    lemma_function_view(e);
                }
                while i < inputs.len()
                    invariant
                        self.kept_by(&pre),
                        pre == *old(self),
                        i <= inputs.len(),
                        *e == (Expression::Function { name: *name, inputs: *inputs }),
                        inputs_of(e@).len() == inputs.len(),
                        forall|j: int| 0 <= j < inputs.len() ==> #[trigger] inputs_of(e@)[j] == inputs@[j]@,
                        args@.len() == i,
                        forall|j: int| 0 <= j < i && plain_value(&pre, #[trigger] inputs_of(e@)[j]) is Some
                            ==> Some(args@[j]@) == plain_value(&pre, inputs_of(e@)[j]),
                        e@ is Function,
                    decreases inputs.len() - i,
                {
                    proof {
                        lemma_input_smaller(e, i as int);
                    }
                    let ghost mid = *self;
                    let r = self.evaluate(host, &inputs[i], fuel);
                    proof {
                        lemma_kept_trans(&pre, &mid, &*self);
                        lemma_plain_kept(&pre, &mid, inputs@[i as int]@);
                    }
                    match r {
                        Ok(v) => args.push(v),
                        Err(x) => {
                            proof {
                                if args_plain(&pre, e@) {
                                    assert(plain_value(&pre, inputs_of(e@)[i as int]) is Some);
                                }
                            }
                            return Err(x);
                        },
                    }
                    i += 1;
                }
                let ghost argv = Seq::new(args@.len(), |j: int| args@[j]@);
                let ghost before_call = *self;
                let answer = host.call_function(name.as_str(), args);
                let ghost ans = if answer is Ok {
                    Ok::<Val, Val>(answer->Ok_0@)
                } else {
                    Err::<Val, Val>(answer->Err_0@)
                };
                self.calls = Ghost(self.calls@.push(HostCall { name: name@, args: argv, answer: ans }));
                proof {
                    lemma_ghost_update(&before_call, &*self);
                    assert(self.calls().subrange(0, before_call.calls().len() as int) =~= before_call.calls());
                    lemma_prefix_trans(pre.calls(), before_call.calls(), self.calls());
                    assert(self.shown() == before_call.shown());
                    assert(self.kept_by(&pre));
                    assert(e@->Function_name == name@);
                    if args_plain(&pre, e@) {
                        assert forall|j: int| 0 <= j < inputs_of(e@).len() implies Some(
                            #[trigger] self.calls().last().args[j]) == plain_value(&pre, inputs_of(e@)[j]) by {
                            assert(plain_value(&pre, inputs_of(e@)[j]) is Some);
                        }
                    }
                }
                match answer {
                    Ok(v) => Ok(v),
                    Err(x) => Err(SheetError::HostError(x)),
                }
            },
            Expression::Reference(reference) => match reference {
                Reference::Single(k) => self.evaluate_single(host, *k, fuel),
                Reference::BoundedRange(a, b) => match self.evaluate_rectangle(host, *a, *b, fuel) {
                    Ok(values) => {
                        proof {
                            lemma_list_view(values);
                        }
                        Ok(HostValue::List(values))
                    },
                    Err(x) => Err(x),
                },
                Reference::UnboundedColRange(a, last) => match self.evaluate_lines(
                    host,
                    a.0,
                    *last,
                    a.1,
                    false,
                    fuel,
                ) {
                    Ok(values) => {
                        proof {
                            lemma_list_view(values);
                            if a.0 > *last {
                                assert(values_of(values@) =~= Seq::<Val>::empty());
                            }
                        }
                        Ok(HostValue::List(values))
                    },
                    Err(x) => Err(x),
                },
                Reference::UnboundedRowRange(a, last) => match self.evaluate_lines(
                    host,
                    a.1,
                    *last,
                    a.0,
                    true,
                    fuel,
                ) {
                    Ok(values) => {
                        proof {
                            lemma_list_view(values);
                            if a.1 > *last {
                                assert(values_of(values@) =~= Seq::<Val>::empty());
                            }
                        }
                        Ok(HostValue::List(values))
                    },
                    Err(x) => Err(x),
                },
            },
        }
    }

    /// Evaluates an expression against the store and adds what it reads to `dependencies`.
    /// Cells read before their first resolution keep the value computed for them.
    pub fn resolve_expression_value_and_dependencies<H: Host>(
        &mut self,
        host: &mut H,
        dependencies: &mut Dependencies,
        expression: &Expression,
    ) -> (r: Result<HostValue, SheetError>)
        requires
            old(self).wf(),
        ensures
            final(self).wf(),
            final(self).same_cells(old(self)),
            final(self).bounds() == old(self).bounds(),
            forall|k: CellPointer| #[trigger] old(self).resolved(k) is Some ==> final(self).resolved(k) == old(self).resolved(k),
            same_deps(final(dependencies)@, union_deps(old(dependencies)@, expr_deps(expression@))),
            expression@ matches Expr::Value(t) ==> (r is Ok && r->Ok_0@ == Val::Text(t)),
            expression@ matches Expr::Reference(Reference::Single(k)) ==> (!old(self).has_cell(k)
                ==> (r is Ok && r->Ok_0@ == Val::Null)),
            expression@ matches Expr::Reference(Reference::Single(k)) ==> (old(self).resolved(k) is Some
                ==> (r is Ok && Some(r->Ok_0@) == old(self).resolved(k))),
            plain_value(old(self), expression@) is Some ==> r is Ok && Some(r->Ok_0@) == plain_value(
                old(self),
                expression@,
            ),
            r is Ok && expression@ is Function ==> answered_last(*old(self), *final(self), expression@, r->Ok_0@),
            is_prefix(old(self).calls(), final(self).calls()),
            final(self).shown() == old(self).shown(),
            expression@ is Value ==> *final(self) == *old(self),
            expression@ matches Expr::Reference(Reference::Single(k)) ==> (old(self).resolved(k) is Some
                || !old(self).has_cell(k) ==> *final(self) == *old(self)),
    {
        dependencies.add_expression(expression);
        let fuel = self.cells.len();
        self.evaluate(host, expression, fuel)
    }
}

/// The last host call between `pre` and `post` is the call of the function `e` on its
/// arguments, and it answered `v`; every argument with a value of its own was handed that
/// value.
pub open spec fn answered_last(pre: State, post: State, e: Expr, v: Val) -> bool {
    &&& post.calls().len() > pre.calls().len()
    &&& post.calls().last().name == e->Function_name
    &&& post.calls().last().answer == Ok::<Val, Val>(v)
    &&& post.calls().last().args.len() == inputs_of(e).len()
    &&& forall|j: int|
        0 <= j < inputs_of(e).len() && plain_value(&pre, #[trigger] inputs_of(e)[j]) is Some ==> Some(
            post.calls().last().args[j],
        ) == plain_value(&pre, inputs_of(e)[j])
}

/// The call `c` is the call of the function `e` on its arguments and answered `v`; every
/// argument with a value of its own in `pre` was handed that value.
pub open spec fn call_of(pre: State, c: HostCall, e: Expr, v: Val) -> bool {
    &&& c.name == e->Function_name
    &&& c.answer == Ok::<Val, Val>(v)
    &&& c.args.len() == inputs_of(e).len()
    &&& forall|j: int|
        0 <= j < inputs_of(e).len() && plain_value(&pre, #[trigger] inputs_of(e)[j]) is Some ==> Some(
            c.args[j],
        ) == plain_value(&pre, inputs_of(e)[j])
}

/// The value `v` of a cell holding the function `e`: the answer of a call of `e` made between
/// `pre` and `post`, or the text of a failed evaluation.
pub open spec fn function_resolved(pre: State, post: State, e: Expr, v: Val) -> bool {
    (exists|n: int| pre.calls().len() <= n < post.calls().len() && #[trigger] call_of(pre, post.calls()[n], e, v))
        || (exists|m: Seq<char>| v == Val::Text(#[trigger] ("resolve error: "@ + m)))
}

/// A function's value stays explained as later calls are added to the log.
proof fn lemma_function_resolved_persists(pre: State, a: State, b: State, e: Expr, v: Val)
    requires
        function_resolved(pre, a, e, v),
        is_prefix(a.calls(), b.calls()),
        pre.calls().len() <= a.calls().len(),
    ensures
        function_resolved(pre, b, e, v),
{
    lemma_prefix_index(a.calls(), b.calls());
    if exists|n: int| pre.calls().len() <= n < a.calls().len() && #[trigger] call_of(pre, a.calls()[n], e, v) {
        let n = choose|n: int| pre.calls().len() <= n < a.calls().len() && #[trigger] call_of(pre, a.calls()[n], e, v);
        assert(b.calls()[n] == a.calls()[n]);
        assert(call_of(pre, b.calls()[n], e, v));
    }
}

/// Every argument of the function `e` has a value of its own in `s`.
pub open spec fn args_plain(s: &State, e: Expr) -> bool {
    forall|j: int| 0 <= j < inputs_of(e).len() ==> (#[trigger] plain_value(s, inputs_of(e)[j])) is Some
}

/// The text that a host error shows after "resolve error: ".
pub open spec fn host_error_text(x: Val) -> Seq<char> {
    match x {
        Val::Text(t) => t,
        _ => "host error"@,
    }
}

/// What is stored for a cell whose function was answered `answer`.
pub open spec fn stored_answer(answer: Result<Val, Val>) -> Val {
    match answer {
        Ok(v) => v,
        Err(x) => Val::Text("resolve error: "@ + host_error_text(x)),
    }
}

/// The call `c` is the call of the function `e` on the values its arguments have in `pre`.
pub open spec fn call_on(pre: State, c: HostCall, e: Expr) -> bool {
    &&& c.name == e->Function_name
    &&& c.args.len() == inputs_of(e).len()
    &&& forall|j: int|
        0 <= j < inputs_of(e).len() ==> Some(#[trigger] c.args[j]) == plain_value(&pre, inputs_of(e)[j])
}

/// The value `v` of a cell holding the function `e`, whose arguments all have values of
/// their own: what a call of `e` on those values, made between `pre` and `post`, answered.
pub open spec fn function_answered(pre: State, post: State, e: Expr, v: Val) -> bool {
    exists|n: int|
        pre.calls().len() <= n < post.calls().len() && #[trigger] call_on(pre, post.calls()[n], e) && v
            == stored_answer(post.calls()[n].answer)
}

proof fn lemma_function_answered_persists(pre: State, a: State, b: State, e: Expr, v: Val)
    requires
        function_answered(pre, a, e, v),
        is_prefix(a.calls(), b.calls()),
    ensures
        function_answered(pre, b, e, v),
{
    lemma_prefix_index(a.calls(), b.calls());
    let n = choose|n: int|
        pre.calls().len() <= n < a.calls().len() && #[trigger] call_on(pre, a.calls()[n], e) && v
            == stored_answer(a.calls()[n].answer);
    assert(b.calls()[n] == a.calls()[n]);
    assert(call_on(pre, b.calls()[n], e));
}

/// A value that needs no host keeps through an evaluation.
proof fn lemma_plain_kept(pre: &State, post: &State, e: Expr)
    requires
        post.kept_by(pre),
    ensures
        plain_value(pre, e) is Some ==> plain_value(post, e) == plain_value(pre, e),
{
    match e {
        Expr::Reference(r) => match r {
            Reference::BoundedRange(a, b) => {
                lemma_rect_kept(pre, post, min_of(a.0, b.0) as int, (max_of(a.0, b.0) - min_of(a.0, b.0) + 1) as nat,
                    min_of(a.1, b.1) as int, (max_of(a.1, b.1) - min_of(a.1, b.1) + 1) as nat);
            },
            Reference::UnboundedColRange(a, last) => {
                if a.0 <= last {
                    lemma_lines_kept(pre, post, a.0 as int, (last - a.0 + 1) as nat, a.1 as int, false);
                }
            },
            Reference::UnboundedRowRange(a, last) => {
                if a.1 <= last {
                    lemma_lines_kept(pre, post, a.1 as int, (last - a.1 + 1) as nat, a.0 as int, true);
                }
            },
            _ => {},
        },
        _ => {},
    }
}

proof fn lemma_column_kept(pre: &State, post: &State, c: int, r0: int, n: nat)
    requires
        post.kept_by(pre),
    ensures
        column_part(pre, c, r0, n) is Some ==> column_part(post, c, r0, n) == column_part(pre, c, r0, n),
    decreases n,
{
    if n > 0 {
        lemma_column_kept(pre, post, c, r0, (n - 1) as nat);
    }
}

proof fn lemma_rect_kept(pre: &State, post: &State, c0: int, m: nat, r0: int, n: nat)
    requires
        post.kept_by(pre),
    ensures
        rect_part(pre, c0, m, r0, n) is Some ==> rect_part(post, c0, m, r0, n) == rect_part(pre, c0, m, r0, n),
    decreases m,
{
    if m > 0 {
        lemma_rect_kept(pre, post, c0, (m - 1) as nat, r0, n);
        lemma_column_kept(pre, post, c0 + m - 1, r0, n);
    }
}

proof fn lemma_line_kept(pre: &State, post: &State, line: int, first: int, by_row: bool, n: nat)
    requires
        post.kept_by(pre),
        n <= pre.cells@.len(),
    ensures
        line_part(pre, line, first, by_row, n) is Some ==> line_part(post, line, first, by_row, n) == line_part(pre, line, first, by_row, n),
    decreases n,
{
    if n > 0 {
        lemma_line_kept(pre, post, line, first, by_row, (n - 1) as nat);
        assert(post.cells@[n - 1].key == pre.cells@[n - 1].key);
    }
}

proof fn lemma_lines_kept(pre: &State, post: &State, from: int, m: nat, first: int, by_row: bool)
    requires
        post.kept_by(pre),
    ensures
        lines_part(pre, from, m, first, by_row) is Some ==> lines_part(post, from, m, first, by_row) == lines_part(pre, from, m, first, by_row),
    decreases m,
{
    if m > 0 {
        lemma_lines_kept(pre, post, from, (m - 1) as nat, first, by_row);
        lemma_line_kept(pre, post, from + m - 1, first, by_row, pre.cells@.len());
    }
}

/// `kept_by` holds of a store and itself.
proof fn lemma_kept_refl(s: &State)
    requires
        s.wf(),
    ensures
        s.kept_by(s),
{
    assert(s.calls().subrange(0, s.calls().len() as int) =~= s.calls());
}

/// `kept_by` composes.
proof fn lemma_kept_trans(a: &State, b: &State, c: &State)
    requires
        b.kept_by(a),
        c.kept_by(b),
    ensures
        c.kept_by(a),
{
    lemma_prefix_trans(a.calls(), b.calls(), c.calls());
}

/// Giving an unresolved cell a value, with nothing else changed, keeps the store well formed.
proof fn lemma_remember_wf(pre: State, post: State, i: int, c: Cell)
    requires
        pre.wf(),
        0 <= i < pre.cells@.len(),
        post.cells@ == pre.cells@.update(i, c),
        c.key == pre.cells@[i].key,
        c.raw_value == pre.cells@[i].raw_value,
        c.parsed_expression == pre.cells@[i].parsed_expression,
        c.resolved_dependencies == pre.cells@[i].resolved_dependencies,
        pre.cells@[i].resolved_value is None,
        post.sheet_bounds == pre.sheet_bounds,
        post.reverse_index_singles == pre.reverse_index_singles,
        post.reverse_index_cols == pre.reverse_index_cols,
        post.reverse_index_rows == pre.reverse_index_rows,
        post.shown == pre.shown,
        post.resolutions == pre.resolutions,
        post.calls == pre.calls,
        c.resolved_value is Some,
        c.parsed_expression@ matches Expr::Value(t) ==> c.resolved_value->0@ == Val::Text(t),
    ensures
        post.kept_by(&pre),
        post.resolved(c.key) == (match c.resolved_value {
            Some(v) => Some(v@),
            None => None,
        }),
{
    assert(post.calls().subrange(0, post.calls().len() as int) =~= pre.calls());
    let key = c.key;
    lemma_update_frame(pre.cells@, i, c);
    lemma_seq_cell(post.cells@, i);
    lemma_seq_cell(pre.cells@, i);
    assert forall|j: int| 0 <= j < post.cells@.len() implies cell_wf(#[trigger] post.cells@[j]) by {
        if j != i {
            assert(post.cells@[j] == pre.cells@[j]);
        }
    }
    assert forall|k: CellPointer| pre.has_cell(k) implies #[trigger] post.cell(k).resolved_dependencies == pre.cell(k).resolved_dependencies
        && post.cell(k).raw_value@ == pre.cell(k).raw_value@
        && post.cell(k).parsed_expression@ == pre.cell(k).parsed_expression@ by {
        if k != key {
            assert(post.cell(k) == pre.cell(k));
        }
    }
    assert forall|x: CellPointer, d: CellPointer|
        #[trigger] post.reverse_index_singles@.contains((x, d)) <==> post.reads_cell(x, d) by {
        if pre.has_cell(d) {
            assert(post.cell(d).resolved_dependencies == pre.cell(d).resolved_dependencies);
        }
    }
    assert forall|x: usize, d: CellPointer|
        #[trigger] post.reverse_index_cols@.contains((x, d)) <==> post.reads_col(x, d) by {
        if pre.has_cell(d) {
            assert(post.cell(d).resolved_dependencies == pre.cell(d).resolved_dependencies);
        }
    }
    assert forall|x: usize, d: CellPointer|
        #[trigger] post.reverse_index_rows@.contains((x, d)) <==> post.reads_row(x, d) by {
        if pre.has_cell(d) {
            assert(post.cell(d).resolved_dependencies == pre.cell(d).resolved_dependencies);
        }
    }
    assert(post.raws() =~= pre.raws());
    assert(post.exprs() =~= pre.exprs());
    assert forall|k: CellPointer| #[trigger] pre.resolved(k) is Some implies post.resolved(k) == pre.resolved(k) by {
        if k != key && pre.has_cell(k) {
            assert(post.cell(k) == pre.cell(k));
        }
    }
    assert forall|k: CellPointer| #[trigger] post.recorded_deps(k) == pre.recorded_deps(k) by {
        if k != key && pre.has_cell(k) {
            assert(post.cell(k) == pre.cell(k));
        }
    }
    assert forall|k: CellPointer| #[trigger] cell_value(&pre, k) is Some implies cell_value(&post, k) == cell_value(&pre, k) by {
        if k != key && pre.has_cell(k) {
            assert(post.cell(k) == pre.cell(k));
        }
    }
}

impl State {
    /// Drops the cell under `key`, if any, with its entries in the reverse indices.
    fn remove_entry(&mut self, key: CellPointer)
        requires
            old(self).wf(),
        ensures
            final(self).wf(),
            !final(self).has_cell(key),
            final(self).raws() == old(self).raws().remove(key),
            final(self).exprs() == old(self).exprs().remove(key),
            final(self).bounds() == old(self).bounds(),
            forall|k: CellPointer| k != key ==> #[trigger] final(self).has_cell(k) == old(self).has_cell(k),
            forall|k: CellPointer|
                k != key && old(self).has_cell(k) ==> #[trigger] final(self).cell(k) == old(self).cell(k),
            forall|k: CellPointer| k != key ==> #[trigger] final(self).resolved(k) == old(self).resolved(k),
            final(self).shown() == old(self).shown(),
            final(self).resolutions() == old(self).resolutions(),
            final(self).calls() == old(self).calls(),
    {
        let ghost pre = *self;
        match self.find(key) {
            None => {
                assert(self.raws() =~= pre.raws().remove(key));
                assert(self.exprs() =~= pre.exprs().remove(key));
            },
            Some(i) => {
                self.reverse_index_singles = without_dependent(&self.reverse_index_singles, key);
                self.reverse_index_cols = without_dependent(&self.reverse_index_cols, key);
                self.reverse_index_rows = without_dependent(&self.reverse_index_rows, key);
                let _ = self.cells.remove(i);
                proof {
                    lemma_remove_wf(pre, *self, i as int);
                }
            },
        }
    }

    /// Adds a cell under a key that has none.
    fn push_cell(&mut self, c: Cell)
        requires
            old(self).wf(),
            !old(self).has_cell(c.key),
            cell_wf(c),
            c.resolved_dependencies is None,
        ensures
            final(self).wf(),
            final(self).raws() == old(self).raws().insert(c.key, c.raw_value@),
            final(self).exprs() == old(self).exprs().insert(c.key, c.parsed_expression@),
            final(self).bounds() == old(self).bounds(),
            forall|k: CellPointer| #[trigger] final(self).has_cell(k) == (old(self).has_cell(k) || k == c.key),
            forall|k: CellPointer| k != c.key ==> #[trigger] final(self).resolved(k) == old(self).resolved(k),
            forall|k: CellPointer| k != c.key && old(self).has_cell(k) ==> #[trigger] final(self).cell(k) == old(self).cell(k),
            final(self).cells@ == old(self).cells@.push(c),
            final(self).resolved(c.key) == (match c.resolved_value {
                Some(v) => Some(v@),
                None => None,
            }),
            final(self).shown() == old(self).shown(),
            final(self).resolutions() == old(self).resolutions(),
            final(self).calls() == old(self).calls(),
    {
        let ghost pre = *self;
        let ghost cc = c;
        self.cells.push(c);
        proof {
            lemma_push_wf(pre, *self, cc);
            lemma_push_frame(pre.cells@, cc);
            assert forall|k: CellPointer| k != cc.key implies #[trigger] self.resolved(k) == pre.resolved(k) by {
                if pre.has_cell(k) {
                    assert(self.cell(k) == pre.cell(k));
                }
            }
            assert forall|k: CellPointer| k != cc.key && pre.has_cell(k) implies #[trigger] self.cell(k) == pre.cell(k) by {
            }
            assert(self.cell(cc.key) == cc);
        }
    }

    /// Puts a parsed cell under `key` in place of any previous one, unresolved.
    fn install(&mut self, key: CellPointer, raw: String, expr: Expression)
        requires
            old(self).wf(),
            parse_text(raw@, true) == Ok::<Expr, crate::error::ExpressionError>(expr@),
        ensures
            final(self).wf(),
            final(self).raws() == old(self).raws().insert(key, raw@),
            final(self).exprs() == old(self).exprs().insert(key, expr@),
            final(self).bounds() == old(self).bounds(),
            final(self).has_cell(key),
            forall|k: CellPointer| k != key ==> #[trigger] final(self).resolved(k) == old(self).resolved(k),
            forall|k: CellPointer| k != key ==> #[trigger] final(self).has_cell(k) == old(self).has_cell(k),
            forall|k: CellPointer| k != key && old(self).has_cell(k) ==> #[trigger] final(self).cell(k) == old(self).cell(k),
            forall|d: CellPointer| d != key ==> #[trigger] final(self).reads_key(key, d) == old(self).reads_key(key, d),
            final(self).resolved(key) is None,
            final(self).shown() == old(self).shown(),
            final(self).resolutions() == old(self).resolutions(),
            final(self).calls() == old(self).calls(),
            final(self).cells@.len() >= old(self).cells@.len(),
            forall|j: int| 0 <= j < old(self).cells@.len() ==> #[trigger] final(self).cells@[j].key == old(self).cells@[j].key,
            final(self).cells@.len() > old(self).cells@.len() ==> final(self).cells@.len() == old(self).cells@.len() + 1
                && final(self).cells@[old(self).cells@.len() as int].key == key,
            installed_from(final(self), old(self), key),
            final(self).recorded_deps(key) is None,
            forall|k: CellPointer| k != key ==> #[trigger] final(self).recorded_deps(k) == old(self).recorded_deps(k),
    {
        let ghost pre = *self;
        let c = Cell {
            key: key,
            raw_value: raw,
            parsed_expression: expr,
            resolved_value: None,
            resolved_dependencies: None,
        };
        match self.find(key) {
            Some(i) => {
                self.reverse_index_singles = without_dependent(&self.reverse_index_singles, key);
                self.reverse_index_cols = without_dependent(&self.reverse_index_cols, key);
                self.reverse_index_rows = without_dependent(&self.reverse_index_rows, key);
                let _ = self.cells.remove(i);
                let ghost cc = c;
                self.cells.insert(i, c);
                proof {
                    assert(self.cells@ =~= pre.cells@.update(i as int, cc));
                    lemma_replace_wf(pre, *self, i as int, cc);
                }
            },
            None => {
                let ghost cc = c;
                self.push_cell(c);
                proof {
                    assert forall|j: int| 0 <= j < pre.cells@.len() implies #[trigger] self.cells@[j].key == pre.cells@[j].key by {
                        assert(self.cells@ == pre.cells@.push(cc));
                    }
                    assert(self.cells@ == pre.cells@.push(cc));
                    assert forall|d: CellPointer| d != key implies #[trigger] self.reads_key(key, d) == pre.reads_key(key, d) by {
                        if pre.has_cell(d) {
                            assert(self.cell(d) == pre.cell(d));
                        }
                    }
                    assert(self.raws() =~= pre.raws().insert(key, cc.raw_value@));
                    assert(self.exprs() =~= pre.exprs().insert(key, cc.parsed_expression@));
                }
            },
        }
    }

    /// Parses `raw` and stores it under `key` without resolving it.
    pub fn insert_cell(&mut self, key: CellPointer, raw: &str) -> (r: Result<(), SheetError>)
        requires
            old(self).wf(),
        ensures
            final(self).wf(),
            final(self).shown() == old(self).shown(),
            final(self).bounds() == old(self).bounds(),
            r matches Err(e) ==> e matches SheetError::BadExpression(k) && parse_text(raw@, true)
                == Err::<Expr, crate::error::ExpressionError>(k) && *final(self) == *old(self),
            r is Ok ==> parse_text(raw@, true) is Ok && final(self).raws() == old(self).raws().insert(
                key,
                raw@,
            ) && final(self).exprs() == old(self).exprs().insert(key, parse_text(raw@, true)->Ok_0),
            r is Ok ==> final(self).resolved(key) is None && final(self).recorded_deps(key) is None,
            forall|k: CellPointer| k != key ==> #[trigger] final(self).resolved(k) == old(self).resolved(k),
            forall|k: CellPointer| k != key ==> #[trigger] final(self).recorded_deps(k) == old(self).recorded_deps(k),
    {
        let expr = match Expression::parse(raw) {
            Ok(e) => e,
            Err(e) => {
                return Err(e);
            },
        };
        let owned = string_of(&chars_of(raw));
        self.install(key, owned, expr);
        Ok(())
    }

    /// Re-evaluates the cell under `key`, records its value and dependencies, shows it as
    /// `display` says, and, when the value changed, re-resolves the cells that read it with
    /// `display.next()`. The cells of `path` are being resolved above this one in the same
    /// propagation and are not resolved again.
    #[verifier::rlimit(100)]
    fn resolve_cell_value_and_dependencies<H: Host>(
        &mut self,
        host: &mut H,
        key: CellPointer,
        display: ResolveDisplay,
        path: &Vec<CellPointer>,
    ) -> (r: Result<HostValue, SheetError>)
        requires
            old(self).wf(),
            path@.no_duplicates(),
            forall|m: int| 0 <= m < path@.len() ==> old(self).has_cell(#[trigger] path@[m]),
            forall|m: int| 0 <= m < path@.len() ==> old(self).resolved(#[trigger] path@[m]) is Some,
            !path@.contains(key),
        ensures
            final(self).wf(),
            final(self).same_cells(old(self)),
            final(self).bounds() == old(self).bounds(),
            final(self).cells@.len() == old(self).cells@.len(),
            display is Noop ==> r is Ok,
            r matches Err(e) ==> e is HostError,
            r matches Err(e) ==> (e matches SheetError::HostError(x) ==> final(self).failures().len() > 0
                && final(self).failures().last() == x@),
            !(display is Update) && (forall|d: CellPointer| d != key && !path@.contains(d) ==> !#[trigger] old(self).reads_key(key, d))
                ==> r is Ok,
            old(self).has_cell(key) ==> final(self).resolved(key) is Some,
            r is Ok && old(self).has_cell(key) ==> final(self).resolved(key) == Some(r->Ok_0@),
            old(self).has_cell(key) && plain_value(old(self), old(self).exprs()[key]) is Some
                ==> final(self).resolved(key) == plain_value(old(self), old(self).exprs()[key]),
            forall|k: CellPointer| #[trigger] old(self).resolved(k) is Some ==> final(self).resolved(k) is Some,
            forall|k: CellPointer| path@.contains(k) ==> #[trigger] final(self).resolved(k) == old(self).resolved(k),
            frame_kept(*old(self), *final(self), key),
            old(self).has_cell(key) ==> final(self).recorded_deps(key) is Some,
            forall|k: CellPointer| #[trigger] old(self).recorded_deps(k) is Some ==> final(self).recorded_deps(k) is Some,
            is_prefix(old(self).shown(), final(self).shown()),
            display is Noop ==> final(self).shown() == old(self).shown(),
            forall|m: int| old(self).shown().len() <= m < final(self).shown().len() ==> !path@.contains(
                #[trigger] final(self).shown()[m].0,
            ),
            forall|m: int| old(self).shown().len() <= m < final(self).shown().len() && #[trigger] final(self).shown()[m].0
                == key ==> display is Update && m == old(self).shown().len(),
            old(self).has_cell(key) && display is Update ==> final(self).shown().len() > old(self).shown().len()
                && final(self).shown()[old(self).shown().len() as int] == (key, final(self).resolved(key)->0),
            is_prefix(old(self).resolutions(), final(self).resolutions()),
            is_prefix(old(self).calls(), final(self).calls()),
            old(self).has_cell(key) && old(self).exprs()[key] is Function ==> function_resolved(
                *old(self),
                *final(self),
                old(self).exprs()[key],
                final(self).resolved(key)->0,
            ),
            old(self).has_cell(key) && old(self).exprs()[key] is Function && args_plain(old(self), old(self).exprs()[key])
                ==> function_answered(*old(self), *final(self), old(self).exprs()[key], final(self).resolved(key)->0),
            old(self).has_cell(key) ==> final(self).resolutions().len() > old(self).resolutions().len()
                && final(self).resolutions()[old(self).resolutions().len() as int] == key,
            r is Ok && old(self).resolved(key) == Some(r->Ok_0@) ==> final(self).resolutions() == old(self).resolutions().push(key)
                && forall|k: CellPointer| k != key && old(self).resolved(k) is Some ==> #[trigger] final(self).resolved(k) == old(self).resolved(k),
            r is Ok && old(self).has_cell(key) && old(self).resolved(key) != Some(r->Ok_0@) ==> forall|d: CellPointer|
                d != key && !path@.contains(d) && (old(self).reads_cell(key, d) || old(self).reads_col(key.0, d)
                    || old(self).reads_row(key.1, d)) ==> #[trigger] reresolved(*old(self), *final(self), d) && (!(display is Noop)
                    ==> was_shown(*old(self), *final(self), d)),
        decreases old(self).cells@.len() - path@.len(),
    {
        let i = match self.find(key) {
            Some(i) => i,
            None => {
                assert(self.shown().subrange(0, self.shown().len() as int) =~= self.shown());
                assert(self.resolutions().subrange(0, self.resolutions().len() as int) =~= self.resolutions());
                assert(self.calls().subrange(0, self.calls().len() as int) =~= self.calls());
                return Ok(HostValue::Null);
            },
        };
        let ghost pre = *self;
        proof {
            let t = path@.push(key);
            assert(t.no_duplicates()) by {
                assert forall|a: int, b: int| 0 <= a < b < t.len() implies t[a] != t[b] by {
                    if b == t.len() - 1 {
                        assert(t[a] == path@[a]);
                    } else {
                        assert(t[a] == path@[a] && t[b] == path@[b]);
                    }
                }
            }
            assert forall|a: int| 0 <= a < t.len() implies seq_has(self.cells@, #[trigger] t[a]) by {
                if a < t.len() - 1 {
                    assert(t[a] == path@[a]);
                    assert(self.has_cell(path@[a]));
                }
            }
            lemma_distinct_keys_fit(self.cells@, t);
        }
        let old_value: Option<HostValue> = match &self.cells[i].resolved_value {
            Some(v) => Some(v.duplicate()),
            None => None,
        };
        let expr = self.cells[i].parsed_expression.duplicate();
        let fuel_here = self.cells.len();
        let evaluated = self.evaluate(host, &expr, fuel_here);
        let ghost after_eval = *self;
        let ghost outcome = if evaluated is Ok {
            Ok::<Val, SheetError>(evaluated->Ok_0@)
        } else {
            Err::<Val, SheetError>(evaluated->Err_0)
        };
        assert(self.kept_by(&pre));
        assert(self.same_cells(&pre));
        let new_value = resolution_of(evaluated);
        let deps = Dependencies::of_expression(&expr);
        proof {
            lemma_seq_cell(pre.cells@, i as int);
            lemma_seq_cell(self.cells@, i as int);
            assert(self.exprs()[key] == pre.exprs()[key]);
        }
        let shown = new_value.duplicate();
        let result = new_value.duplicate();
        assert(pre.exprs()[key] == expr@);
        proof {
            if expr@ is Function {
                if outcome is Ok {
                    assert(answered_last(pre, after_eval, expr@, outcome->Ok_0));
                    let n = after_eval.calls().len() - 1;
                    assert(call_of(pre, after_eval.calls()[n], expr@, result@));
                } else {
                    let m = error_message(outcome->Err_0);
                    assert(result@ == Val::Text("resolve error: "@ + m));
                }
                assert(function_resolved(pre, after_eval, expr@, result@));
                if args_plain(&pre, expr@) {
                    let n = after_eval.calls().len() - 1;
                    assert(call_on(pre, after_eval.calls()[n], expr@));
                    if outcome is Err {
                        let x = outcome->Err_0->HostError_0;
                        assert(after_eval.calls()[n].answer == Err::<Val, Val>(x@));
                        assert(error_message(outcome->Err_0) == host_error_text(x@));
                    }
                    assert(result@ == stored_answer(after_eval.calls()[n].answer));
                    assert(function_answered(pre, after_eval, expr@, result@));
                }
            }
        }
        self.set_resolution(i, new_value, deps);
        let ghost after_set = *self;
        proof {
            assert(self.calls().subrange(0, pre.calls().len() as int) =~= pre.calls());
        }
        assert(self.same_cells(&pre));
        if display == ResolveDisplay::Update {
            self.shown = Ghost(self.shown@.push((key, shown@)));
            proof {
                lemma_ghost_update(&after_set, &*self);
            }
            match host.cell_display_changed(key, &shown) {
                Ok(()) => {},
                Err(x) => {
                    let ghost before_failure = *self;
                    self.failures = Ghost(self.failures@.push(x@));
                    proof {
                        lemma_ghost_update(&before_failure, &*self);
                    }
                    assert(self.shown().subrange(0, pre.shown().len() as int) =~= pre.shown());
                    assert(self.resolutions().subrange(0, pre.resolutions().len() as int) =~= pre.resolutions());
                    assert(!path@.contains(key));
                    assert(is_prefix(pre.shown(), self.shown()));
                    assert(is_prefix(pre.resolutions(), self.resolutions()));
                    assert forall|k: CellPointer| path@.contains(k) implies #[trigger] self.resolved(k) == pre.resolved(k) by {
                        let m = choose|m: int| 0 <= m < path@.len() && path@[m] == k;
                        assert(pre.resolved(path@[m]) is Some);
                    }
                    assert(self.calls().subrange(0, pre.calls().len() as int) =~= pre.calls());
                    assert(self.calls().subrange(0, after_eval.calls().len() as int) =~= after_eval.calls());
                    proof {
                        if expr@ is Function {
                            lemma_function_resolved_persists(pre, after_eval, *self, expr@, result@);
                            if args_plain(&pre, expr@) {
                                lemma_function_answered_persists(pre, after_eval, *self, expr@, result@);
                            }
                        }
                    }
                    return Err(SheetError::HostError(x));
                },
            }
        }
        assert(self.shown().subrange(0, pre.shown().len() as int) =~= pre.shown());
        assert(self.resolutions().subrange(0, pre.resolutions().len() as int) =~= pre.resolutions());
        assert(is_prefix(pre.shown(), self.shown()));
        assert(is_prefix(pre.resolutions(), self.resolutions()));
        assert forall|k: CellPointer| path@.contains(k) implies #[trigger] self.resolved(k) == pre.resolved(k) by {
            let m = choose|m: int| 0 <= m < path@.len() && path@[m] == k;
            assert(pre.resolved(path@[m]) is Some);
        }
        assert(self.calls().subrange(0, pre.calls().len() as int) =~= pre.calls());
        assert(self.calls().subrange(0, after_eval.calls().len() as int) =~= after_eval.calls());
        proof {
            if expr@ is Function {
                lemma_function_resolved_persists(pre, after_eval, *self, expr@, result@);
                if args_plain(&pre, expr@) {
                    lemma_function_answered_persists(pre, after_eval, *self, expr@, result@);
                }
            }
        }
        if let Some(v) = &old_value {
            if v.same_as(&shown) {
                return Ok(result);
            }
        }
        let mut dependents: Vec<CellPointer> = Vec::new();
        dependents_of_cell(&self.reverse_index_singles, key, &mut dependents);
        dependents_of_line(&self.reverse_index_cols, key.0, &mut dependents);
        dependents_of_line(&self.reverse_index_rows, key.1, &mut dependents);
        proof {
            assert(self.resolutions().subrange(0, pre.resolutions().len() as int) =~= pre.resolutions());
        }
        let mut below = copy_keys(path);
        below.push(key);
        let next = display.next();
        let ghost mid = *self;
        proof {
            assert forall|d: CellPointer| d != key && (pre.reads_cell(key, d) || pre.reads_col(key.0, d)
                || pre.reads_row(key.1, d)) implies #[trigger] dependents@.contains(d) by {
                assert(mid.recorded_deps(d) == pre.recorded_deps(d));
                assert(mid.has_cell(d) == pre.has_cell(d)) by {
                    assert(pre.raws().contains_key(d) == mid.raws().contains_key(d));
                }
                assert(mid.reads_cell(key, d) == pre.reads_cell(key, d));
                assert(mid.reads_col(key.0, d) == pre.reads_col(key.0, d));
                assert(mid.reads_row(key.1, d) == pre.reads_row(key.1, d));
            }
            assert forall|d: CellPointer| #[trigger] dependents@.contains(d) implies d == key || pre.reads_cell(key, d)
                || pre.reads_col(key.0, d) || pre.reads_row(key.1, d) by {
                if d != key {
                    assert(mid.recorded_deps(d) == pre.recorded_deps(d));
                    assert(pre.raws().contains_key(d) == mid.raws().contains_key(d));
                }
            }
        }
        proof {
            assert(self.shown().subrange(0, self.shown().len() as int) =~= self.shown());
            assert(self.resolutions().subrange(0, self.resolutions().len() as int) =~= self.resolutions());
            assert(self.calls().subrange(0, self.calls().len() as int) =~= self.calls());
        }
        let mut j: usize = 0;
        while j < dependents.len()
            invariant
                self.wf(),
                self.same_cells(&pre),
                forall|m: int| 0 <= m < below@.len() ==> self.resolved(#[trigger] below@[m]) is Some,
                self.bounds() == pre.bounds(),
                self.cells@.len() == pre.cells@.len(),
                pre == *old(self),
                display is Noop ==> next is Noop,
                next == (if display is Noop { ResolveDisplay::Noop } else { ResolveDisplay::Update }),
                below@ == path@.push(key),
                below@.no_duplicates(),
                forall|m: int| 0 <= m < below@.len() ==> pre.has_cell(#[trigger] below@[m]),
                pre.has_cell(key),
                !path@.contains(key),
                pre.has_cell(key) && plain_value(&pre, pre.exprs()[key]) is Some ==> Some(result@)
                    == plain_value(&pre, pre.exprs()[key]),
                below@.len() <= pre.cells@.len(),
                self.resolved(key) == Some(result@),
                forall|k: CellPointer| #[trigger] pre.resolved(k) is Some ==> self.resolved(k) is Some,
                forall|k: CellPointer| path@.contains(k) ==> #[trigger] self.resolved(k) == pre.resolved(k),
                frame_kept(pre, *self, key),
                self.recorded_deps(key) is Some,
                forall|k: CellPointer| #[trigger] pre.recorded_deps(k) is Some ==> self.recorded_deps(k) is Some,
                is_prefix(mid.shown(), self.shown()),
                is_prefix(pre.shown(), mid.shown()),
                display is Noop ==> self.shown() == pre.shown(),
                display is Noop ==> mid.shown() == pre.shown(),
                forall|m: int| mid.shown().len() <= m < self.shown().len() ==> !below@.contains(
                    #[trigger] self.shown()[m].0,
                ),
                mid.shown().len() == pre.shown().len() || (display is Update && mid.shown().len()
                    == pre.shown().len() + 1 && mid.shown().last().0 == key),
                pre.has_cell(key) && display is Update ==> mid.shown().len() > pre.shown().len()
                    && mid.shown()[pre.shown().len() as int] == (key, result@),
                is_prefix(mid.resolutions(), self.resolutions()),
                mid.resolutions() == pre.resolutions().push(key),
                is_prefix(pre.resolutions(), mid.resolutions()),
                is_prefix(mid.calls(), self.calls()),
                is_prefix(pre.calls(), mid.calls()),
                pre.exprs()[key] == expr@,
                expr@ is Function ==> function_resolved(pre, mid, expr@, result@),
                expr@ is Function && args_plain(&pre, expr@) ==> function_answered(pre, mid, expr@, result@),
                j <= dependents@.len(),
                forall|d: CellPointer| d != key && (pre.reads_cell(key, d) || pre.reads_col(key.0, d)
                    || pre.reads_row(key.1, d)) ==> #[trigger] dependents@.contains(d),
                forall|d: CellPointer| #[trigger] dependents@.contains(d) ==> d == key || pre.reads_cell(key, d)
                    || pre.reads_col(key.0, d) || pre.reads_row(key.1, d),
                forall|m: int| 0 <= m < j && dependents@[m] != key && !path@.contains(#[trigger] dependents@[m])
                    && pre.has_cell(dependents@[m]) ==> reresolved(pre, *self, dependents@[m]) && (next is Update
                    ==> was_shown(pre, *self, dependents@[m])),
            decreases dependents.len() - j,
        {
            let d = dependents[j];
            let ghost before = *self;
            let on_path = contains_key(path, d);
            let present = self.find(d).is_some();
            proof {
                assert(self.raws().contains_key(d) == pre.raws().contains_key(d));
            }
            if d != key && !on_path && present {
                proof {
                    assert(!below@.contains(d)) by {
                        if below@.contains(d) {
                            let m = choose|m: int| 0 <= m < below@.len() && below@[m] == d;
                            if m < path@.len() {
                                assert(path@[m] == d);
                            }
                        }
                    }
                    assert forall|m: int| 0 <= m < below@.len() implies self.has_cell(#[trigger] below@[m]) by {
                        assert(pre.has_cell(below@[m]));
                        assert(pre.raws().contains_key(below@[m]));
                    }
                }
                proof {
                    assert(dependents@[j as int] == d);
                    assert(dependents@.contains(d));
                    assert(pre.reads_cell(key, d) || pre.reads_col(key.0, d) || pre.reads_row(key.1, d));
                    assert(pre.reads_key(key, d));
                }
                let child = self.resolve_cell_value_and_dependencies(host, d, next, &below);
                proof {
                    assert(below@[path@.len() as int] == key);
                    assert(below@.contains(key));
                    assert forall|k: CellPointer| path@.contains(k) implies below@.contains(k) by {
                        let m = choose|m: int| 0 <= m < path@.len() && path@[m] == k;
                        assert(below@[m] == k);
                    }
                    lemma_prefix_trans(mid.shown(), before.shown(), self.shown());
                    lemma_prefix_trans(pre.shown(), mid.shown(), self.shown());
                    lemma_prefix_trans(mid.resolutions(), before.resolutions(), self.resolutions());
                    lemma_prefix_trans(pre.resolutions(), mid.resolutions(), self.resolutions());
                    lemma_prefix_trans(mid.calls(), before.calls(), self.calls());
                    lemma_prefix_trans(pre.calls(), mid.calls(), self.calls());
                    if expr@ is Function {
                        lemma_function_resolved_persists(pre, mid, *self, expr@, result@);
                        if args_plain(&pre, expr@) {
                            lemma_function_answered_persists(pre, mid, *self, expr@, result@);
                        }
                    }
                    assert forall|m: int| mid.shown().len() <= m < self.shown().len() implies !below@.contains(
                        #[trigger] self.shown()[m].0) by {
                        if m < before.shown().len() {
                            assert(self.shown()[m] == before.shown()[m]);
                        }
                    }
                    lemma_close_shown(pre, mid, *self, path@, below@, key, display);
                    lemma_prefix_trans(pre.resolutions(), mid.resolutions(), before.resolutions());
                    let n0 = before.resolutions().len() as int;
                    assert(self.resolutions()[n0] == d);
                    assert(reresolved(pre, *self, d));
                    lemma_frame_step(pre, before, *self, key, d);
                }
                match child {
                    Ok(_) => {},
                    Err(e) => {
                        return Err(e);
                    },
                }
                proof {
                    lemma_prefix_trans(pre.resolutions(), mid.resolutions(), before.resolutions());
                    lemma_prefix_trans(pre.shown(), mid.shown(), before.shown());
                    assert forall|m: int| 0 <= m < j && dependents@[m] != key && !path@.contains(#[trigger] dependents@[m])
                        && pre.has_cell(dependents@[m]) implies reresolved(pre, *self, dependents@[m]) && (next is Update
                        ==> was_shown(pre, *self, dependents@[m])) by {
                        lemma_marks_persist(pre, before, *self, dependents@[m]);
                    }
                    assert(reresolved(pre, *self, d)) by {
                        let n0 = before.resolutions().len() as int;
                        assert(self.resolutions()[n0] == d);
                        assert(pre.resolutions().len() <= n0);
                    }
                    if next is Update {
                        assert(self.has_cell(d));
                        let n0 = before.shown().len() as int;
                        assert(self.shown()[n0].0 == d);
                        assert(pre.shown().len() <= n0);
                        assert(was_shown(pre, *self, d));
                    }
                }
            }
            proof {
                assert(dependents@[j as int] == d);
            }
            j += 1;
        }
        proof {
            lemma_prefix_trans(pre.shown(), mid.shown(), self.shown());
            lemma_prefix_trans(pre.resolutions(), mid.resolutions(), self.resolutions());
            lemma_prefix_trans(pre.calls(), mid.calls(), self.calls());
            if expr@ is Function {
                lemma_function_resolved_persists(pre, mid, *self, expr@, result@);
                if args_plain(&pre, expr@) {
                    lemma_function_answered_persists(pre, mid, *self, expr@, result@);
                }
            }
            lemma_close_shown(pre, mid, *self, path@, below@, key, display);
            lemma_marks_final(pre, *self, dependents@, path@, key, next, display);
        }
        Ok(result)
    }

    /// The expression that a key of the search holds: the candidate for the root, the stored
    /// one for any other cell.
    pub open spec fn owner_expr(&self, root: CellPointer, root_expr: Expr, k: CellPointer) -> Expr {
        if k == root {
            root_expr
        } else {
            self.exprs()[k]
        }
    }

    /// The stack of the search: the root, then distinct cells of the store, each read by the
    /// one before it.
    pub open spec fn chain_ok(&self, root: CellPointer, root_expr: Expr, v: Seq<CellPointer>) -> bool {
        &&& v.len() >= 1
        &&& v[0] == root
        &&& v.no_duplicates()
        &&& forall|i: int| 1 <= i < v.len() ==> self.has_cell(#[trigger] v[i]) && v[i] != root
        &&& forall|i: int|
            0 <= i < v.len() - 1 ==> expr_reads(self.owner_expr(root, root_expr, #[trigger] v[i]), v[i + 1])
    }

    /// A chain reported for a cycle: the stack of the search, then a key it reads that is
    /// already on the stack.
    pub open spec fn is_cycle_chain(&self, root: CellPointer, root_expr: Expr, c: Seq<CellPointer>) -> bool {
        &&& c.len() >= 2
        &&& self.chain_ok(root, root_expr, c.drop_last())
        &&& expr_reads(self.owner_expr(root, root_expr, c[c.len() - 2]), c.last())
        &&& c.drop_last().contains(c.last())
    }

    /// Whether `expression`, stored under `key`, would make `key` reach itself through the
    /// references of the store; the error holds the chain of keys from `key` back to it.
    fn check_circular_dependency(&self, key: CellPointer, expression: &Expression) -> (r: Result<
        (),
        SheetError,
    >)
        requires
            self.wf(),
        ensures
            r matches Err(e) ==> e matches SheetError::CircularDependency(chain) && chain@.len() >= 2
                && chain@[0] == key && self.is_cycle_chain(key, expression@, chain@),
            r is Ok ==> !closes_cycle(self.exprs(), key, expression@),
            r is Err ==> closes_cycle(self.exprs(), key, expression@) || !acyclic(self.exprs()),
    {
        let mut visited: Vec<CellPointer> = Vec::new();
        visited.push(key);
        let ghost root_expr = expression@;
        proof {
            assert(visited@ =~= seq![key]);
            assert(visited@.no_duplicates());
        }
        let r = self.check_expression(key, Ghost(root_expr), expression, &mut visited, self.cells.len());
        proof {
            if r is Ok {
                assert forall|k: CellPointer|
                    (self.exprs().contains_key(k) || k == key) && expr_reads(expression@, k)
                        implies avoids_root(self.exprs(), key, k) by {}
            }
        }
        r
    }

    /// Follows every reference of `e` in the search for a cycle back to the root.
    fn check_expression(
        &self,
        root: CellPointer,
        root_expr: Ghost<Expr>,
        e: &Expression,
        visited: &mut Vec<CellPointer>,
        fuel: usize,
    ) -> (r: Result<(), SheetError>)
        requires
            self.wf(),
            self.chain_ok(root, root_expr@, old(visited)@),
            forall|k: CellPointer| #[trigger] expr_reads(e@, k) ==> expr_reads(
                self.owner_expr(root, root_expr@, old(visited)@.last()),
                k,
            ),
            old(visited)@.len() + fuel == self.cells@.len() + 1,
        ensures
            final(visited)@ == old(visited)@,
            r matches Err(e) ==> e matches SheetError::CircularDependency(chain) && chain@.len() >= 2
                && chain@[0] == root && self.is_cycle_chain(root, root_expr@, chain@),
            r is Ok ==> forall|k: CellPointer|
                (self.exprs().contains_key(k) || k == root) && #[trigger] expr_reads(e@, k)
                    ==> avoids_root(self.exprs(), root, k),
            r is Err ==> closes_cycle(self.exprs(), root, root_expr@) || !acyclic(self.exprs()),
        decreases fuel, expr_size(e@), 2int,
    {
        proof {
            reveal_with_fuel(expr_reads, 2);
        }
        match e {
            Expression::Value(_) => Ok(()),
            Expression::Function { name, inputs } => {
                proof {
                    lemma_function_view(e);
                }
                let mut i: usize = 0;
                while i < inputs.len()
                    invariant
                        self.wf(),
                        i <= inputs.len(),
                        *e == (Expression::Function { name: *name, inputs: *inputs }),
                        inputs_of(e@).len() == inputs.len(),
                        forall|j: int| 0 <= j < inputs.len() ==> #[trigger] inputs_of(e@)[j] == inputs@[j]@,
                        forall|k: CellPointer| #[trigger] expr_reads(e@, k) ==> expr_reads(
                            self.owner_expr(root, root_expr@, old(visited)@.last()),
                            k,
                        ),
                        visited@ == old(visited)@,
                        self.chain_ok(root, root_expr@, visited@),
                        visited@.len() + fuel == self.cells@.len() + 1,
                        forall|j: int, k: CellPointer|
                            0 <= j < i && (self.exprs().contains_key(k) || k == root) && #[trigger] expr_reads(
                                inputs@[j]@,
                                k,
                            ) ==> avoids_root(self.exprs(), root, k),
                    decreases inputs.len() - i,
                {
                    proof {
                        lemma_input_smaller(e, i as int);
                        assert forall|k: CellPointer| #[trigger] expr_reads(inputs@[i as int]@, k) implies expr_reads(
                            self.owner_expr(root, root_expr@, visited@.last()),
                            k,
                        ) by {
                            reveal_with_fuel(expr_reads, 2);
                            assert(inputs_of(e@)[i as int] == inputs@[i as int]@);
                            lemma_any_reads_from_index(inputs_of(e@), i as int, k);
                            assert(expr_reads(e@, k));
                        }
                    }
                    match self.check_expression(root, root_expr, &inputs[i], visited, fuel) {
                        Ok(()) => {},
                        Err(x) => {
                            return Err(x);
                        },
                    }
                    i += 1;
                }
                proof {
                    assert forall|k: CellPointer|
                        (self.exprs().contains_key(k) || k == root) && #[trigger] expr_reads(e@, k)
                            implies avoids_root(self.exprs(), root, k) by {
                        let j = lemma_any_reads_index(inputs_of(e@), k);
                        assert(inputs_of(e@)[j] == inputs@[j]@);
                    }
                }
                Ok(())
            },
            Expression::Reference(reference) => match reference {
                Reference::Single(k) => {
                    assert(expr_reads(e@, *k));
                    self.check_key(root, root_expr, *k, visited, fuel)
                },
                Reference::BoundedRange(a, b) => {
                    let c0 = if a.0 <= b.0 { a.0 } else { b.0 };
                    let c1 = if a.0 <= b.0 { b.0 } else { a.0 };
                    let r0 = if a.1 <= b.1 { a.1 } else { b.1 };
                    let r1 = if a.1 <= b.1 { b.1 } else { a.1 };
                    proof {
                        assert forall|k: CellPointer| c0 <= k.0 <= c1 && r0 <= k.1 <= r1 implies #[trigger] expr_reads(
                            self.owner_expr(root, root_expr@, old(visited)@.last()),
                            k,
                        ) by {
                            assert(expr_reads(e@, k));
                        }
                    }
                    self.check_area(root, root_expr, c0, c1, r0, r1, visited, fuel)
                },
                Reference::UnboundedColRange(a, last) => {
                    proof {
                        assert forall|k: CellPointer| a.0 <= k.0 <= *last && a.1 <= k.1 <= usize::MAX implies #[trigger] expr_reads(
                            self.owner_expr(root, root_expr@, old(visited)@.last()),
                            k,
                        ) by {
                            assert(expr_reads(e@, k));
                        }
                    }
                    self.check_area(root, root_expr, a.0, *last, a.1, usize::MAX, visited, fuel)
                },
                Reference::UnboundedRowRange(a, last) => {
                    proof {
                        assert forall|k: CellPointer| a.0 <= k.0 <= usize::MAX && a.1 <= k.1 <= *last implies #[trigger] expr_reads(
                            self.owner_expr(root, root_expr@, old(visited)@.last()),
                            k,
                        ) by {
                            assert(expr_reads(e@, k));
                        }
                    }
                    self.check_area(root, root_expr, a.0, usize::MAX, a.1, *last, visited, fuel)
                },
            },
        }
    }

    /// Checks every key of the area that names a cell of the store or the root.
    fn check_area(
        &self,
        root: CellPointer,
        root_expr: Ghost<Expr>,
        c0: usize,
        c1: usize,
        r0: usize,
        r1: usize,
        visited: &mut Vec<CellPointer>,
        fuel: usize,
    ) -> (r: Result<(), SheetError>)
        requires
            self.wf(),
            self.chain_ok(root, root_expr@, old(visited)@),
            forall|k: CellPointer|
                c0 <= k.0 <= c1 && r0 <= k.1 <= r1 ==> #[trigger] expr_reads(
                    self.owner_expr(root, root_expr@, old(visited)@.last()),
                    k,
                ),
            old(visited)@.len() + fuel == self.cells@.len() + 1,
        ensures
            final(visited)@ == old(visited)@,
            r matches Err(e) ==> e matches SheetError::CircularDependency(chain) && chain@.len() >= 2
                && chain@[0] == root && self.is_cycle_chain(root, root_expr@, chain@),
            r is Ok ==> forall|k: CellPointer|
                (self.exprs().contains_key(k) || k == root) && c0 <= k.0 <= c1 && r0 <= k.1 <= r1
                    ==> #[trigger] avoids_root(self.exprs(), root, k),
            r is Err ==> closes_cycle(self.exprs(), root, root_expr@) || !acyclic(self.exprs()),
        decreases fuel, 0int, 1int,
    {
        if c0 <= root.0 && root.0 <= c1 && r0 <= root.1 && root.1 <= r1 {
            return self.check_key(root, root_expr, root, visited, fuel);
        }
        let mut i: usize = 0;
        while i < self.cells.len()
            invariant
                self.wf(),
                i <= self.cells@.len(),
                visited@ == old(visited)@,
                self.chain_ok(root, root_expr@, visited@),
                forall|k: CellPointer|
                    c0 <= k.0 <= c1 && r0 <= k.1 <= r1 ==> #[trigger] expr_reads(
                        self.owner_expr(root, root_expr@, visited@.last()),
                        k,
                    ),
                visited@.len() + fuel == self.cells@.len() + 1,
                !(c0 <= root.0 && root.0 <= c1 && r0 <= root.1 && root.1 <= r1),
                forall|m: int|
                    0 <= m < i && c0 <= #[trigger] self.cells@[m].key.0 <= c1 && r0 <= self.cells@[m].key.1
                        <= r1 ==> avoids_root(self.exprs(), root, self.cells@[m].key),
            decreases self.cells.len() - i,
        {
            let k = self.cells[i].key;
            if c0 <= k.0 && k.0 <= c1 && r0 <= k.1 && k.1 <= r1 {
                match self.check_key(root, root_expr, k, visited, fuel) {
                    Ok(()) => {},
                    Err(x) => {
                        return Err(x);
                    },
                }
            }
            i += 1;
        }
        proof {
            assert forall|k: CellPointer|
                (self.exprs().contains_key(k) || k == root) && c0 <= k.0 <= c1 && r0 <= k.1 <= r1
                    implies #[trigger] avoids_root(self.exprs(), root, k) by {
                if k != root {
                    assert(self.has_cell(k));
                    let m = choose|m: int| 0 <= m < self.cells@.len() && #[trigger] self.cells@[m].key == k;
                    assert(self.cells@[m].key == k);
                }
            }
        }
        Ok(())
    }

    /// Follows a reference to `k` in the search for a cycle back to the root.
    fn check_key(
        &self,
        root: CellPointer,
        root_expr: Ghost<Expr>,
        k: CellPointer,
        visited: &mut Vec<CellPointer>,
        fuel: usize,
    ) -> (r: Result<(), SheetError>)
        requires
            self.wf(),
            self.chain_ok(root, root_expr@, old(visited)@),
            expr_reads(self.owner_expr(root, root_expr@, old(visited)@.last()), k),
            old(visited)@.len() + fuel == self.cells@.len() + 1,
        ensures
            final(visited)@ == old(visited)@,
            r matches Err(e) ==> e matches SheetError::CircularDependency(chain) && chain@.len() >= 2
                && chain@[0] == root && self.is_cycle_chain(root, root_expr@, chain@),
            r is Ok ==> avoids_root(self.exprs(), root, k),
            k == root ==> r is Err,
            r is Err ==> closes_cycle(self.exprs(), root, root_expr@) || !acyclic(self.exprs()),
        decreases fuel, 0int, 0int,
    {
        let seen = contains_key(visited, k);
        if seen || k == root {
            proof {
                lemma_repeat_closes(self, root, root_expr@, visited@, k);
            }
            let mut chain = copy_keys(visited);
            chain.push(k);
            proof {
                assert(chain@.drop_last() =~= visited@);
                if k == root {
                    assert(visited@[0] == k);
                }
            }
            return Err(SheetError::CircularDependency(chain));
        }
        match self.find(k) {
            None => {
                proof {
                    assert forall|p: Seq<CellPointer>| #[trigger] walk_from(self.exprs(), root, k, p)
                        implies p.last() != root by {
                        if p.len() >= 2 {
                            assert(self.exprs().contains_key(p[0]));
                        }
                    }
                }
                Ok(())
            },
            Some(i) => {
                if fuel == 0 {
                    proof {
                        let t = visited@.subrange(1, visited@.len() as int).push(k);
                        assert(t.no_duplicates()) by {
                            assert forall|a: int, b: int| 0 <= a < b < t.len() implies t[a] != t[b] by {
                                if b < t.len() - 1 {
                                    assert(t[a] == visited@[a + 1] && t[b] == visited@[b + 1]);
                                } else {
                                    assert(t[a] == visited@[a + 1]);
                                }
                            }
                        }
                        assert forall|a: int| 0 <= a < t.len() implies seq_has(self.cells@, #[trigger] t[a]) by {
                            if a < t.len() - 1 {
                                assert(t[a] == visited@[a + 1]);
                            }
                        }
                        lemma_distinct_keys_fit(self.cells@, t);
                    }
                    let mut chain = copy_keys(visited);
                    chain.push(k);
                    return Err(SheetError::CircularDependency(chain));
                }
                let ghost before = visited@;
                visited.push(k);
                proof {
                    assert(self.exprs()[k] == self.cells@[i as int].parsed_expression@);
                    assert(self.owner_expr(root, root_expr@, k) == self.exprs()[k]);
                    assert(visited@.last() == k);
                    assert(visited@.no_duplicates()) by {
                        assert forall|a: int, b: int| 0 <= a < b < visited@.len() implies visited@[a] != visited@[b] by {
                            if b == visited@.len() - 1 {
                                assert(visited@[b] == k);
                                assert(before[a] == visited@[a]);
                                assert(before.contains(before[a]));
                            } else {
                                assert(before[a] == visited@[a] && before[b] == visited@[b]);
                            }
                        }
                    }
                    assert forall|m: int| 0 <= m < visited@.len() - 1 implies expr_reads(
                        self.owner_expr(root, root_expr@, #[trigger] visited@[m]),
                        visited@[m + 1],
                    ) by {
                        if m < visited@.len() - 2 {
                            assert(visited@[m] == before[m] && visited@[m + 1] == before[m + 1]);
                        } else {
                            assert(visited@[m] == before.last());
                        }
                    }
                    assert forall|m: int| 1 <= m < visited@.len() implies self.has_cell(#[trigger] visited@[m])
                        && visited@[m] != root by {
                        if m < visited@.len() - 1 {
                            assert(visited@[m] == before[m]);
                        }
                    }
                }
                let r = self.check_expression(
                    root,
                    root_expr,
                    &self.cells[i].parsed_expression,
                    visited,
                    fuel - 1,
                );
                visited.pop();
                assert(visited@ =~= before);
                proof {
                    if r is Ok {
                        assert forall|p: Seq<CellPointer>| #[trigger] walk_from(self.exprs(), root, k, p)
                            implies p.last() != root by {
                            if p.len() >= 2 {
                                lemma_walk_tail(self.exprs(), root, k, p);
                                let t = p.subrange(1, p.len() as int);
                                assert(t[0] == p[1]);
                                if t.len() >= 2 {
                                    assert(self.exprs().contains_key(t[0]));
                                }
                                assert(avoids_root(self.exprs(), root, p[1]));
                                assert(t.last() == p.last());
                            }
                        }
                    }
                }
                r
            },
        }
    }

    /// Parses `raw`, stores it under `key` and resolves it, propagating the change to the
    /// cells that read it. Fails, leaving the store as it was, when `raw` does not parse or
    /// would make `key` depend on itself.
    pub fn upsert_cell<H: Host>(&mut self, host: &mut H, key: CellPointer, raw: &str) -> (r: Result<
        HostValue,
        SheetError,
    >)
        requires
            old(self).wf(),
        ensures
            final(self).wf(),
            final(self).bounds() == old(self).bounds(),
            parse_text(raw@, true) is Err ==> (r is Err && r->Err_0 == SheetError::BadExpression(
                parse_text(raw@, true)->Err_0,
            ) && *final(self) == *old(self)),
            r matches Err(e) ==> ((e is BadExpression || e is CircularDependency) ==> *final(self)
                == *old(self)),
            r matches Err(e) ==> e is BadExpression || e is CircularDependency || e is HostError,
            r matches Err(e) ==> (e matches SheetError::HostError(x) ==> final(self).failures().len() > 0
                && final(self).failures().last() == x@),
            (r is Ok || (r is Err && r->Err_0 is HostError)) ==> parse_text(raw@, true) is Ok
                && final(self).raws() == old(self).raws().insert(key, raw@) && final(self).exprs()
                == old(self).exprs().insert(key, parse_text(raw@, true)->Ok_0)
                && final(self).resolved(key) is Some && final(self).recorded_deps(key) is Some,
            (r is Ok || (r is Err && r->Err_0 is HostError)) && acyclic(old(self).exprs()) ==> acyclic(
                final(self).exprs(),
            ),
            (r is Err && r->Err_0 is CircularDependency) ==> parse_text(raw@, true) is Ok && (
            closes_cycle(old(self).exprs(), key, parse_text(raw@, true)->Ok_0) || !acyclic(
                old(self).exprs(),
            )),
            parse_text(raw@, true) is Ok && acyclic(old(self).exprs()) && !closes_cycle(
                old(self).exprs(),
                key,
                parse_text(raw@, true)->Ok_0,
            ) ==> (r is Ok || (r is Err && r->Err_0 is HostError)),
            parse_text(raw@, true) is Ok && acyclic(old(self).exprs()) && !closes_cycle(
                old(self).exprs(),
                key,
                parse_text(raw@, true)->Ok_0,
            ) && (forall|d: CellPointer| d != key ==> !#[trigger] old(self).reads_key(key, d)) ==> r is Ok,
            r matches Err(e) ==> (e is BadExpression ==> parse_text(raw@, true) is Err),
            r matches Err(e) ==> (e matches SheetError::CircularDependency(chain) ==> old(self).is_cycle_chain(
                key,
                parse_text(raw@, true)->Ok_0,
                chain@,
            )),
            r matches Ok(v) ==> final(self).resolved(key) == Some(v@),
            frame_kept(*old(self), *final(self), key),
            (r is Ok || (r is Err && r->Err_0 is HostError)) && plain_value(old(self), parse_text(raw@, true)->Ok_0) is Some
                ==> final(self).resolved(key) == plain_value(old(self), parse_text(raw@, true)->Ok_0),
            is_prefix(old(self).shown(), final(self).shown()),
            forall|m: int| old(self).shown().len() <= m < final(self).shown().len() ==> #[trigger] final(self).shown()[m].0 != key,
            r is Ok ==> forall|d: CellPointer| d != key && #[trigger] old(self).reads_key(key, d) ==> reresolved(
                *old(self),
                *final(self),
                d,
            ) && was_shown(*old(self), *final(self), d),
            (r is Ok || (r is Err && r->Err_0 is HostError)) && parse_text(raw@, true)->Ok_0 is Function
                ==> function_resolved(*old(self), *final(self), parse_text(raw@, true)->Ok_0, final(self).resolved(key)->0),
            (r is Ok || (r is Err && r->Err_0 is HostError)) && parse_text(raw@, true)->Ok_0 is Function
                && args_plain(old(self), parse_text(raw@, true)->Ok_0) ==> function_answered(
                *old(self),
                *final(self),
                parse_text(raw@, true)->Ok_0,
                final(self).resolved(key)->0,
            ),
    {
        let expr = match Expression::parse(raw) {
            Ok(e) => e,
            Err(e) => {
                assert(self.shown().subrange(0, self.shown().len() as int) =~= self.shown());
                return Err(e);
            },
        };
        match self.check_circular_dependency(key, &expr) {
            Ok(()) => {},
            Err(e) => {
                assert(self.shown().subrange(0, self.shown().len() as int) =~= self.shown());
                return Err(e);
            },
        }
        let ghost before = self.exprs();
        let ghost parsed = expr@;
        proof {
            if acyclic(before) {
                lemma_no_new_cycle(before, key, parsed);
            }
        }
        let ghost pre = *self;
        proof {
            match expr@ {
                Expr::Reference(Reference::Single(k)) => {
                    if k == key {
                        assert(walk_from(pre.exprs(), key, key, seq![key]));
                        assert(expr_reads(expr@, key));
                        assert(!avoids_root(pre.exprs(), key, key));
                    }
                },
                _ => {},
            }
        }
        let owned = string_of(&chars_of(raw));
        self.install(key, owned, expr);
        let ghost mid = *self;
        let none: Vec<CellPointer> = Vec::new();
        proof {
            assert(none@.no_duplicates());
            assert(mid.exprs()[key] == parsed);
            assert(installed_from(&mid, &pre, key));
            if expr_reads(parsed, key) {
                assert(walk_from(pre.exprs(), key, key, seq![key]));
                assert(!avoids_root(pre.exprs(), key, key));
            }
            if !(parsed is Function) {
                lemma_plain_installed(&mid, &pre, key, parsed);
            }
            assert(plain_value(&mid, parsed) == plain_value(&pre, parsed));
        }
        proof {
            if parsed is Function {
                assert forall|j: int| 0 <= j < inputs_of(parsed).len() implies plain_value(&mid, #[trigger] inputs_of(parsed)[j])
                    == plain_value(&pre, inputs_of(parsed)[j]) by {
                    if expr_reads(inputs_of(parsed)[j], key) {
                        reveal_with_fuel(expr_reads, 2);
                        lemma_any_reads_from_index(inputs_of(parsed), j, key);
                        assert(expr_reads(parsed, key));
                    }
                    if !(inputs_of(parsed)[j] is Function) {
                        lemma_plain_installed(&mid, &pre, key, inputs_of(parsed)[j]);
                    }
                }
            }
        }
        let r = self.resolve_cell_value_and_dependencies(host, key, ResolveDisplay::UpdateNext, &none);
        proof {
            assert forall|k: CellPointer| k != key && pre.resolved(k) is Some && !reresolved(pre, *self, k)
                implies #[trigger] self.resolved(k) == pre.resolved(k) by {
                assert(mid.resolved(k) == pre.resolved(k));
            }
        }
        proof {
            if parsed is Function && (r is Ok || (r is Err && r->Err_0 is HostError)) {
                let v = self.resolved(key)->0;
                if exists|m: Seq<char>| v == Val::Text(#[trigger] ("resolve error: "@ + m)) {
                } else {
                    let n = choose|n: int| mid.calls().len() <= n < self.calls().len() && #[trigger] call_of(mid, self.calls()[n], parsed, v);
                    assert(call_of(pre, self.calls()[n], parsed, v));
                }
                if args_plain(&pre, parsed) {
                    assert(args_plain(&mid, parsed));
                    let n = choose|n: int|
                        mid.calls().len() <= n < self.calls().len() && #[trigger] call_on(mid, self.calls()[n], parsed) && v
                            == stored_answer(self.calls()[n].answer);
                    assert(call_on(pre, self.calls()[n], parsed));
                }
            }
        }
        proof {
            assert forall|d: CellPointer| d != key && #[trigger] pre.reads_key(key, d) implies reresolved(pre, *self, d)
                == reresolved(mid, *self, d) && was_shown(pre, *self, d) == was_shown(mid, *self, d) by {
                assert(mid.reads_key(key, d));
            }
            assert forall|m: int| pre.shown().len() <= m < self.shown().len() implies #[trigger] self.shown()[m].0 != key by {
                assert(mid.shown().len() == pre.shown().len());
            }
        }
        r
    }

    /// Drops the cell under `key` and re-resolves the cells that read it.
    pub fn remove_cell<H: Host>(&mut self, host: &mut H, key: CellPointer) -> (r: Result<(), SheetError>)
        requires
            old(self).wf(),
        ensures
            final(self).wf(),
            final(self).bounds() == old(self).bounds(),
            final(self).raws() == old(self).raws().remove(key),
            final(self).exprs() == old(self).exprs().remove(key),
            r matches Err(e) ==> e is HostError,
            r matches Err(e) ==> (e matches SheetError::HostError(x) ==> final(self).failures().len() > 0
                && final(self).failures().last() == x@),
            (forall|d: CellPointer| d != key ==> !#[trigger] old(self).reads_key(key, d)) ==> r is Ok,
            frame_kept(*old(self), *final(self), key),
            r is Ok ==> forall|d: CellPointer| d != key && #[trigger] old(self).reads_key(key, d) ==> reresolved(
                *old(self),
                *final(self),
                d,
            ) && was_shown(*old(self), *final(self), d),
    {
        let ghost pre = *self;
        self.remove_entry(key);
        let ghost mid = *self;
        let mut dependents: Vec<CellPointer> = Vec::new();
        dependents_of_cell(&self.reverse_index_singles, key, &mut dependents);
        dependents_of_line(&self.reverse_index_cols, key.0, &mut dependents);
        dependents_of_line(&self.reverse_index_rows, key.1, &mut dependents);
        let none: Vec<CellPointer> = Vec::new();
        proof {
            assert(none@.no_duplicates());
            assert forall|d: CellPointer| d != key && #[trigger] pre.reads_key(key, d) implies dependents@.contains(d) by {
                assert(mid.cell(d) == pre.cell(d));
                assert(mid.reads_key(key, d));
            }
            assert forall|d: CellPointer| #[trigger] dependents@.contains(d) implies d != key && pre.reads_key(key, d) by {
                assert(mid.reads_key(key, d));
                assert(mid.cell(d) == pre.cell(d));
            }
            assert(mid.shown().subrange(0, mid.shown().len() as int) =~= mid.shown());
            assert(mid.resolutions().subrange(0, mid.resolutions().len() as int) =~= mid.resolutions());
        }
        let mut j: usize = 0;
        while j < dependents.len()
            invariant
                self.wf(),
                self.same_cells(&mid),
                self.bounds() == mid.bounds(),
                mid.bounds() == old(self).bounds(),
                mid.raws() == old(self).raws().remove(key),
                mid.exprs() == old(self).exprs().remove(key),
                pre == *old(self),
                mid.shown() == pre.shown(),
                mid.resolutions() == pre.resolutions(),
                is_prefix(mid.shown(), self.shown()),
                is_prefix(mid.resolutions(), self.resolutions()),
                none@ == Seq::<CellPointer>::empty(),
                j <= dependents@.len(),
                forall|d: CellPointer| d != key && #[trigger] pre.reads_key(key, d) ==> dependents@.contains(d),
                forall|d: CellPointer| #[trigger] dependents@.contains(d) ==> d != key && pre.reads_key(key, d),
                forall|m: int| 0 <= m < j && mid.has_cell(#[trigger] dependents@[m]) ==> reresolved(pre, *self, dependents@[m])
                    && was_shown(pre, *self, dependents@[m]),
                frame_kept(pre, *self, key),
                forall|k: CellPointer| #[trigger] pre.resolved(k) is Some && k != key ==> self.resolved(k) is Some,
            decreases dependents.len() - j,
        {
            let d = dependents[j];
            let ghost before = *self;
            proof {
                assert(dependents@[j as int] == d);
                assert(dependents@.contains(d));
                assert(self.raws().contains_key(d) == mid.raws().contains_key(d));
            }
            if self.find(d).is_some() {
                let child = self.resolve_cell_value_and_dependencies(host, d, ResolveDisplay::Update, &none);
                proof {
                    lemma_prefix_trans(mid.shown(), before.shown(), self.shown());
                    lemma_prefix_trans(mid.resolutions(), before.resolutions(), self.resolutions());
                    let n0 = before.resolutions().len() as int;
                    assert(self.resolutions()[n0] == d);
                    assert(reresolved(pre, *self, d));
                    lemma_frame_remove_step(pre, before, *self, key, d);
                }
                match child {
                    Ok(_) => {},
                    Err(e) => {
                        return Err(e);
                    },
                }
                proof {
                    assert forall|m: int| 0 <= m < j && mid.has_cell(#[trigger] dependents@[m]) implies reresolved(
                        pre, *self, dependents@[m]) && was_shown(pre, *self, dependents@[m]) by {
                        lemma_marks_persist(pre, before, *self, dependents@[m]);
                    }
                    let n0 = before.resolutions().len() as int;
                    assert(self.resolutions()[n0] == d);
                    assert(reresolved(pre, *self, d));
                    let n1 = before.shown().len() as int;
                    assert(self.shown()[n1].0 == d);
                    assert(was_shown(pre, *self, d));
                }
            }
            j += 1;
        }
        proof {
            assert forall|d: CellPointer| d != key && #[trigger] pre.reads_key(key, d) implies reresolved(pre, *self, d)
                && was_shown(pre, *self, d) by {
                assert(dependents@.contains(d));
                let m = choose|m: int| 0 <= m < dependents@.len() && dependents@[m] == d;
                assert(mid.cell(d) == pre.cell(d));
                assert(mid.has_cell(dependents@[m]));
            }
        }
        Ok(())
    }

    /// Resolves every cell again, showing each new value.
    pub fn recalculate<H: Host>(&mut self, host: &mut H) -> (r: Result<(), SheetError>)
        requires
            old(self).wf(),
        ensures
            final(self).wf(),
            final(self).same_cells(old(self)),
            final(self).bounds() == old(self).bounds(),
            r matches Err(e) ==> e is HostError,
            r matches Err(e) ==> (e matches SheetError::HostError(x) ==> final(self).failures().len() > 0
                && final(self).failures().last() == x@),
            r is Ok ==> forall|k: CellPointer| #[trigger] final(self).has_cell(k) ==> final(self).resolved(k) is Some,
            old(self).raws() == Map::<CellPointer, Seq<char>>::empty() ==> r is Ok,
            r is Ok ==> forall|k: CellPointer| #[trigger] old(self).has_cell(k) ==> reresolved(*old(self), *final(self), k),
    {
        self.resolve_all(host, ResolveDisplay::Update)
    }

    /// Resolves every cell, in store order, with the given display policy.
    fn resolve_all<H: Host>(&mut self, host: &mut H, display: ResolveDisplay) -> (r: Result<(), SheetError>)
        requires
            old(self).wf(),
        ensures
            final(self).wf(),
            final(self).same_cells(old(self)),
            final(self).bounds() == old(self).bounds(),
            r matches Err(e) ==> e is HostError,
            r matches Err(e) ==> (e matches SheetError::HostError(x) ==> final(self).failures().len() > 0
                && final(self).failures().last() == x@),
            display is Noop ==> r is Ok,
            r is Ok ==> forall|k: CellPointer| #[trigger] final(self).has_cell(k) ==> final(self).resolved(k) is Some,
            old(self).raws() == Map::<CellPointer, Seq<char>>::empty() ==> r is Ok,
            r is Ok ==> forall|k: CellPointer| #[trigger] old(self).has_cell(k) ==> reresolved(*old(self), *final(self), k),
            display is Noop ==> final(self).shown() == old(self).shown(),
            is_prefix(old(self).resolutions(), final(self).resolutions()),
    {
        let mut keys: Vec<CellPointer> = Vec::new();
        let mut i: usize = 0;
        while i < self.cells.len()
            invariant
                i <= self.cells@.len(),
                keys@.len() == i,
                forall|j: int| 0 <= j < i ==> #[trigger] keys@[j] == self.cells@[j].key,
            decreases self.cells.len() - i,
        {
            keys.push(self.cells[i].key);
            i += 1;
        }
        let ghost pre = *self;
        let none: Vec<CellPointer> = Vec::new();
        proof {
            assert(none@.no_duplicates());
            if pre.raws() == Map::<CellPointer, Seq<char>>::empty() && pre.cells@.len() > 0 {
                lemma_seq_cell(pre.cells@, 0);
                assert(pre.raws().contains_key(pre.cells@[0].key));
            }
            assert(pre.resolutions().subrange(0, pre.resolutions().len() as int) =~= pre.resolutions());
        }
        let mut j: usize = 0;
        while j < keys.len()
            invariant
                self.wf(),
                self.same_cells(&pre),
                self.bounds() == pre.bounds(),
                pre == *old(self),
                none@ == Seq::<CellPointer>::empty(),
                j <= keys@.len(),
                keys@.len() == pre.cells@.len(),
                forall|m: int| 0 <= m < keys@.len() ==> #[trigger] keys@[m] == pre.cells@[m].key,
                forall|m: int| 0 <= m < j ==> self.resolved(#[trigger] keys@[m]) is Some,
                forall|m: int| 0 <= m < j ==> reresolved(pre, *self, #[trigger] keys@[m]),
                is_prefix(pre.resolutions(), self.resolutions()),
                display is Noop ==> self.shown() == pre.shown(),
                pre.raws() == Map::<CellPointer, Seq<char>>::empty() ==> keys@.len() == 0,
            decreases keys.len() - j,
        {
            proof {
                let k = keys@[j as int];
                assert(pre.cells@[j as int].key == k);
                assert(pre.has_cell(k));
                assert(pre.raws().contains_key(k));
                assert(self.raws().contains_key(k));
            }
            let ghost before = *self;
            let child = self.resolve_cell_value_and_dependencies(host, keys[j], display, &none);
            proof {
                lemma_prefix_trans(pre.resolutions(), before.resolutions(), self.resolutions());
            }
            match child {
                Ok(_) => {},
                Err(e) => {
                    return Err(e);
                },
            }
            proof {
                assert forall|m: int| 0 <= m < j implies reresolved(pre, *self, #[trigger] keys@[m]) by {
                    lemma_marks_persist(pre, before, *self, keys@[m]);
                }
                let n0 = before.resolutions().len() as int;
                assert(self.resolutions()[n0] == keys@[j as int]);
            }
            j += 1;
        }
        proof {
            assert forall|k: CellPointer| #[trigger] self.has_cell(k) implies self.resolved(k) is Some by {
                assert(self.raws().contains_key(k));
                assert(pre.raws().contains_key(k));
                let m = choose|m: int| 0 <= m < pre.cells@.len() && #[trigger] pre.cells@[m].key == k;
                assert(keys@[m] == k);
            }
            assert forall|k: CellPointer| #[trigger] pre.has_cell(k) implies reresolved(pre, *self, k) by {
                let m = choose|m: int| 0 <= m < pre.cells@.len() && #[trigger] pre.cells@[m].key == k;
                assert(keys@[m] == k);
            }
        }
        Ok(())
    }

    /// The text of the expression of the cell under `from`, shifted by the distance from
    /// `from` to `to`. The store is not changed.
    pub fn copy_cell_expression(&self, from: CellPointer, to: CellPointer) -> (r: Result<
        String,
        SheetError,
    >)
        requires
            self.wf(),
        ensures
            !self.exprs().contains_key(from) ==> r is Err && r->Err_0 is NotFound,
            self.exprs().contains_key(from) && !within_isize(from, to) ==> r is Err
                && r->Err_0 is BadCopy,
            self.exprs().contains_key(from) && within_isize(from, to) ==> match copy_expr(
                self.exprs()[from],
                copy_distance(from, to),
            ) {
                Some(x) => r is Ok && r->Ok_0@ == expr_text(x),
                None => r is Err && r->Err_0 is BadCopy,
            },
    {
        match self.find(from) {
            None => Err(SheetError::NotFound),
            Some(i) => {
                let m = isize::MAX as usize;
                if from.0 > m || from.1 > m || to.0 > m || to.1 > m {
                    return Err(SheetError::BadCopy);
                }
                let distance = from.distance(&to);
                match self.cells[i].parsed_expression.copy_with_distance(distance) {
                    Ok(x) => Ok(x.to_string()),
                    Err(e) => Err(e),
                }
            },
        }
    }

    /// The raw texts of all cells and the sheet bounds.
    pub fn to_serializable_state(&self) -> (r: SerializableState)
        requires
            self.wf(),
        ensures
            pairs_map(r.data@) == self.raws(),
            r.sheet_bounds == self.bounds(),
            forall|i: int| 0 <= i < r.data@.len() ==> #[trigger] self.raws().contains_key(r.data@[i].0)
                && self.raws()[r.data@[i].0] == r.data@[i].1@,
    {
        let mut data: Vec<(CellPointer, String)> = Vec::new();
        let mut i: usize = 0;
        while i < self.cells.len()
            invariant
                self.wf(),
                i <= self.cells@.len(),
                data@.len() == i,
                forall|j: int| 0 <= j < i ==> #[trigger] data@[j].0 == self.cells@[j].key
                    && data@[j].1@ == self.cells@[j].raw_value@,
                pairs_map(data@) == Map::new(
                    |k: CellPointer| key_among(self.cells@, i as int, k),
                    |k: CellPointer| self.cell(k).raw_value@,
                ),
            decreases self.cells.len() - i,
        {
            let ghost prev = data@;
            data.push((self.cells[i].key, self.cells[i].raw_value.clone()));
            proof {
                lemma_seq_cell(self.cells@, i as int);
                assert(data@.drop_last() =~= prev);
                assert forall|k: CellPointer| #[trigger] key_among(self.cells@, i + 1, k)
                    <==> (key_among(self.cells@, i as int, k) || k == self.cells@[i as int].key) by {
                    if key_among(self.cells@, i + 1, k) {
                        let j = choose|j: int| 0 <= j < i + 1 && #[trigger] self.cells@[j].key == k;
                        if j < i {
                            assert(self.cells@[j].key == k);
                        }
                    }
                    if k == self.cells@[i as int].key {
                        assert(self.cells@[i as int].key == k);
                    }
                    if key_among(self.cells@, i as int, k) {
                        let j = choose|j: int| 0 <= j < i && #[trigger] self.cells@[j].key == k;
                        assert(self.cells@[j].key == k);
                    }
                }
                assert(pairs_map(data@) =~= Map::new(
                    |k: CellPointer| key_among(self.cells@, i + 1, k),
                    |k: CellPointer| self.cell(k).raw_value@,
                ));
            }
            i += 1;
        }
        proof {
            assert forall|j: int| 0 <= j < data@.len() implies #[trigger] self.raws().contains_key(data@[j].0)
                && self.raws()[data@[j].0] == data@[j].1@ by {
                lemma_seq_cell(self.cells@, j);
            }
            assert(pairs_map(data@) =~= self.raws()) by {
                assert forall|k: CellPointer| #[trigger] key_among(self.cells@, i as int, k) == self.has_cell(k) by {
                    if self.has_cell(k) {
                        let j = choose|j: int| 0 <= j < self.cells@.len() && #[trigger] self.cells@[j].key == k;
                        assert(self.cells@[j].key == k);
                    }
                    if key_among(self.cells@, i as int, k) {
                        let j = choose|j: int| 0 <= j < i && #[trigger] self.cells@[j].key == k;
                        assert(self.cells@[j].key == k);
                    }
                }
            }
        }
        SerializableState { sheet_bounds: self.sheet_bounds, data }
    }
}

/// The reverse indices of a well-formed store hold exactly what its cells last read: `d` is
/// indexed under a cell, column or row if and only if `d`'s recorded dependencies hold it.
pub proof fn lemma_index_consistency(s: &State, x: CellPointer, c: usize, r: usize, d: CellPointer)
    requires
        s.wf(),
    ensures
        s.indexed_cell(x, d) <==> s.reads_cell(x, d),
        s.indexed_col(c, d) <==> s.reads_col(c, d),
        s.indexed_row(r, d) <==> s.reads_row(r, d),
{
}

/// The dependencies recorded for a cell are those of its expression, so storing the same
/// text again records the same dependencies.
pub proof fn lemma_recorded_deps(s: &State, k: CellPointer)
    requires
        s.wf(),
        s.recorded_deps(k) is Some,
    ensures
        same_deps(s.recorded_deps(k)->0, expr_deps(s.exprs()[k])),
{
    let j = seq_index(s.cells@, k);
    assert(cell_wf(s.cells@[j]));
}

/// Storing the same text under a key twice records the same dependencies for it: in any two
/// well-formed stores where the key holds the same expression, its recorded dependencies agree.
pub proof fn lemma_same_expression_same_deps(s1: &State, s2: &State, k: CellPointer)
    requires
        s1.wf(),
        s2.wf(),
        s1.exprs().contains_key(k),
        s2.exprs().contains_key(k),
        s1.exprs()[k] == s2.exprs()[k],
        s1.recorded_deps(k) is Some,
        s2.recorded_deps(k) is Some,
    ensures
        same_deps(s1.recorded_deps(k)->0, s2.recorded_deps(k)->0),
{
    lemma_recorded_deps(s1, k);
    lemma_recorded_deps(s2, k);
}

/// Every cell of a well-formed store holds the parse of its raw text.
pub proof fn lemma_cells_parse(s: &State, k: CellPointer)
    requires
        s.wf(),
        s.raws().contains_key(k),
    ensures
        parse_text(s.raws()[k], true) == Ok::<Expr, crate::error::ExpressionError>(s.exprs()[k]),
{
    let j = seq_index(s.cells@, k);
    assert(cell_wf(s.cells@[j]));
}

/// Some of the first `n` cells has key `k`.
pub open spec fn key_among(s: Seq<Cell>, n: int, k: CellPointer) -> bool {
    exists|j: int| 0 <= j < n && #[trigger] s[j].key == k
}

/// Both keys have coordinates that fit in `isize`, so that their distance does.
pub open spec fn within_isize(from: CellPointer, to: CellPointer) -> bool {
    from.0 <= isize::MAX && from.1 <= isize::MAX && to.0 <= isize::MAX && to.1 <= isize::MAX
}

/// The signed distance from `from` to `to`.
pub open spec fn copy_distance(from: CellPointer, to: CellPointer) -> (isize, isize) {
    ((to.0 - from.0) as isize, (to.1 - from.1) as isize)
}

/// The map that a list of key and raw-text pairs describes; a later pair wins.
pub open spec fn pairs_map(s: Seq<(CellPointer, String)>) -> Map<CellPointer, Seq<char>>
    decreases s.len(),
{
    if s.len() == 0 {
        Map::empty()
    } else {
        pairs_map(s.drop_last()).insert(s.last().0, s.last().1@)
    }
}

/// The saved form of a sheet: its bounds and the raw text of every cell.
pub struct SerializableState {
    pub sheet_bounds: (usize, usize),
    pub data: Vec<(CellPointer, String)>,
}

impl SerializableState {
    /// Every raw text of the document parses.
    pub open spec fn all_parse(&self) -> bool {
        forall|i: int| 0 <= i < self.data@.len() ==> #[trigger] parse_text(self.data@[i].1@, true) is Ok
    }

    /// Builds the store that the document describes: every cell is inserted, then every cell
    /// is resolved without display.
    pub fn to_memory_state<H: Host>(self, host: &mut H) -> (r: Result<State, SheetError>)
        ensures
            r matches Ok(s) ==> s.wf() && s.bounds() == self.sheet_bounds && s.raws() == pairs_map(self.data@)
                && s.shown() == Seq::<(CellPointer, Val)>::empty()
                && forall|k: CellPointer| #[trigger] s.has_cell(k) ==> s.resolved(k) is Some,
            r matches Err(e) ==> e is BadExpression && !self.all_parse(),
            self.all_parse() ==> r is Ok,
    {
        let mut state = State {
            initialized: true,
            sheet_bounds: self.sheet_bounds,
            cells: Vec::new(),
            reverse_index_singles: Vec::new(),
            reverse_index_cols: Vec::new(),
            reverse_index_rows: Vec::new(),
            shown: Ghost(Seq::empty()),
            resolutions: Ghost(Seq::empty()),
            calls: Ghost(Seq::empty()),
            failures: Ghost(Seq::empty()),
        };
        assert(state.raws() =~= pairs_map(self.data@.subrange(0, 0)));
        let mut i: usize = 0;
        while i < self.data.len()
            invariant
                state.wf(),
                i <= self.data@.len(),
                state.bounds() == self.sheet_bounds,
                state.shown() == Seq::<(CellPointer, Val)>::empty(),
                state.raws() == pairs_map(self.data@.subrange(0, i as int)),
                forall|j: int| 0 <= j < i ==> #[trigger] parse_text(self.data@[j].1@, true) is Ok,
            decreases self.data.len() - i,
        {
            match state.insert_cell(self.data[i].0, self.data[i].1.as_str()) {
                Ok(()) => {},
                Err(e) => {
                    return Err(e);
                },
            }
            proof {
                assert(self.data@.subrange(0, i + 1).drop_last() =~= self.data@.subrange(0, i as int));
            }
            i += 1;
        }
        assert(self.data@.subrange(0, i as int) =~= self.data@);
        match state.resolve_all(host, ResolveDisplay::Noop) {
            Ok(()) => Ok(state),
            Err(e) => Err(e),
        }
    }
}

/// The saved form of a well-formed store loads back: every raw text parses, and the
/// document describes the same raw texts and bounds.
pub proof fn lemma_serialization_round_trip(s: &State, doc: &SerializableState)
    requires
        s.wf(),
        pairs_map(doc.data@) == s.raws(),
        doc.sheet_bounds == s.bounds(),
        forall|i: int| 0 <= i < doc.data@.len() ==> #[trigger] s.raws().contains_key(doc.data@[i].0)
            && s.raws()[doc.data@[i].0] == doc.data@[i].1@,
    ensures
        doc.all_parse(),
{
    assert forall|i: int| 0 <= i < doc.data@.len() implies #[trigger] parse_text(doc.data@[i].1@, true) is Ok by {
        let k = doc.data@[i].0;
        assert(s.raws().contains_key(k));
        let j = seq_index(s.cells@, k);
        assert(cell_wf(s.cells@[j]));
    }
}

/// A function expression reads a cell through one of its arguments.
proof fn lemma_any_reads_index(s: Seq<Expr>, k: CellPointer) -> (j: int)
    requires
        any_reads(s, k),
    ensures
        0 <= j < s.len(),
        expr_reads(s[j], k),
    decreases s.len(),
{
    if any_reads(s.drop_last(), k) {
        let j = lemma_any_reads_index(s.drop_last(), k);
        assert(s.drop_last()[j] == s[j]);
        j
    } else {
        s.len() - 1
    }
}

/// An argument that reads a cell makes its function read it.
proof fn lemma_any_reads_from_index(s: Seq<Expr>, j: int, k: CellPointer)
    requires
        0 <= j < s.len(),
        expr_reads(s[j], k),
    ensures
        any_reads(s, k),
    decreases s.len(),
{
    if j < s.len() - 1 {
        assert(s.drop_last()[j] == s[j]);
        lemma_any_reads_from_index(s.drop_last(), j, k);
    }
}

/// Distinct keys of cells of the store are no more than the cells.
proof fn lemma_distinct_keys_fit(cells: Seq<Cell>, s: Seq<CellPointer>)
    requires
        s.no_duplicates(),
        forall|a: int| 0 <= a < s.len() ==> seq_has(cells, #[trigger] s[a]),
    ensures
        s.len() <= cells.len(),
{
    broadcast use vstd::seq_lib::seq_to_set_is_finite;

    let ks = cells.map_values(|c: Cell| c.key);
    ks.lemma_cardinality_of_set();
    s.unique_seq_to_set();
    assert(s.to_set().subset_of(ks.to_set())) by {
        assert forall|x: CellPointer| s.to_set().contains(x) implies ks.to_set().contains(x) by {
            let a = choose|a: int| 0 <= a < s.len() && s[a] == x;
            assert(seq_has(cells, s[a]));
            let j = choose|j: int| 0 <= j < cells.len() && #[trigger] cells[j].key == x;
            assert(ks[j] == x);
        }
    }
    vstd::set_lib::lemma_len_subset(s.to_set(), ks.to_set());
}

/// Meeting the root or a cell already on the stack of the search closes a cycle: through
/// the candidate expression, or among the stored cells.
proof fn lemma_repeat_closes(st: &State, root: CellPointer, root_expr: Expr, v: Seq<CellPointer>, k: CellPointer)
    requires
        st.wf(),
        st.chain_ok(root, root_expr, v),
        expr_reads(st.owner_expr(root, root_expr, v.last()), k),
        v.contains(k) || k == root,
    ensures
        closes_cycle(st.exprs(), root, root_expr) || !acyclic(st.exprs()),
{
    let m = st.exprs();
    if k == root {
        if v.len() == 1 {
            let w = seq![root];
            assert(walk_from(m, root, root, w));
            assert(expr_reads(root_expr, root));
        } else {
            let w = v.subrange(1, v.len() as int).push(root);
            assert forall|j: int| 0 <= j < w.len() - 1 implies m.contains_key(#[trigger] w[j]) && w[j] != root
                && expr_reads(m[w[j]], w[j + 1]) by {
                assert(w[j] == v[j + 1]);
                assert(st.has_cell(v[j + 1]));
                if j < w.len() - 2 {
                    assert(w[j + 1] == v[j + 2]);
                }
            }
            assert(walk_from(m, root, v[1], w));
            assert(expr_reads(st.owner_expr(root, root_expr, v[0]), v[1]));
            assert(m.contains_key(v[1]));
            assert(expr_reads(root_expr, v[1]));
            assert(!avoids_root(m, root, v[1]));
        }
    } else {
        let i = choose|i: int| 0 <= i < v.len() && v[i] == k;
        assert(i >= 1);
        let p = v.subrange(i, v.len() as int).push(k);
        assert forall|j: int| 0 <= j < p.len() - 1 implies edge(m, #[trigger] p[j], p[j + 1]) by {
            assert(p[j] == v[i + j]);
            assert(st.has_cell(v[i + j]));
            if j < p.len() - 2 {
                assert(p[j + 1] == v[i + j + 1]);
                assert(st.has_cell(v[i + j + 1]));
            } else {
                assert(st.has_cell(k));
            }
        }
        assert(is_cycle(m, p));
    }
}

/// Two stores that differ in their logs only hold the same cells.
proof fn lemma_ghost_update(a: &State, b: &State)
    requires
        a.cells == b.cells,
        a.reverse_index_singles == b.reverse_index_singles,
        a.reverse_index_cols == b.reverse_index_cols,
        a.reverse_index_rows == b.reverse_index_rows,
        a.sheet_bounds == b.sheet_bounds,
        a.resolutions == b.resolutions,
    ensures
        b.resolutions() == a.resolutions(),
        a.calls == b.calls ==> b.calls() == a.calls(),
        a.shown == b.shown ==> b.shown() == a.shown(),
        b.same_cells(a),
        b.bounds() == a.bounds(),
        b.cells@ == a.cells@,
        a.wf() ==> b.wf(),
        forall|k: CellPointer| #[trigger] b.resolved(k) == a.resolved(k),
        forall|k: CellPointer| #[trigger] b.recorded_deps(k) == a.recorded_deps(k),
        forall|k: CellPointer| #[trigger] b.has_cell(k) == a.has_cell(k),
        forall|x: CellPointer, d: CellPointer| #[trigger] b.reads_cell(x, d) == a.reads_cell(x, d),
        forall|x: usize, d: CellPointer| #[trigger] b.reads_col(x, d) == a.reads_col(x, d),
        forall|x: usize, d: CellPointer| #[trigger] b.reads_row(x, d) == a.reads_row(x, d),
{
    assert(b.raws() =~= a.raws());
    assert(b.exprs() =~= a.exprs());
}

/// The display log of a propagation, read from its three stages: before it (`pre`), after the
/// cell's own display (`mid`), and now (`post`).
proof fn lemma_close_shown(
    pre: State,
    mid: State,
    post: State,
    path: Seq<CellPointer>,
    below: Seq<CellPointer>,
    key: CellPointer,
    display: ResolveDisplay,
)
    requires
        below == path.push(key),
        is_prefix(pre.shown(), mid.shown()),
        is_prefix(mid.shown(), post.shown()),
        forall|m: int| mid.shown().len() <= m < post.shown().len() ==> !below.contains(
            #[trigger] post.shown()[m].0,
        ),
        mid.shown().len() == pre.shown().len() || (display is Update && mid.shown().len() == pre.shown().len()
            + 1 && mid.shown().last().0 == key),
        !path.contains(key),
    ensures
        forall|m: int| pre.shown().len() <= m < post.shown().len() ==> !path.contains(
            #[trigger] post.shown()[m].0,
        ),
        forall|m: int| pre.shown().len() <= m < post.shown().len() && #[trigger] post.shown()[m].0
            == key ==> display is Update && m == pre.shown().len(),
        pre.shown().len() < mid.shown().len() ==> post.shown()[pre.shown().len() as int] == mid.shown()[pre.shown().len() as int],
{
    lemma_prefix_index(mid.shown(), post.shown());
    assert(below[path.len() as int] == key);
    assert forall|m: int| pre.shown().len() <= m < post.shown().len() implies !path.contains(
        #[trigger] post.shown()[m].0) by {
        if m < mid.shown().len() {
            assert(post.shown()[m] == mid.shown()[m]);
        } else if path.contains(post.shown()[m].0) {
            let q = choose|q: int| 0 <= q < path.len() && path[q] == post.shown()[m].0;
            assert(below[q] == path[q]);
        }
    }
    assert forall|m: int| pre.shown().len() <= m < post.shown().len() && #[trigger] post.shown()[m].0
        == key implies display is Update && m == pre.shown().len() by {
        if m < mid.shown().len() {
            assert(post.shown()[m] == mid.shown()[m]);
        } else {
            assert(below.contains(key));
        }
    }
}

/// `a` is a prefix of `b`.
pub open spec fn is_prefix<A>(a: Seq<A>, b: Seq<A>) -> bool {
    a.len() <= b.len() && b.subrange(0, a.len() as int) == a
}

proof fn lemma_prefix_index<A>(a: Seq<A>, b: Seq<A>)
    requires
        is_prefix(a, b),
    ensures
        forall|m: int| 0 <= m < a.len() ==> #[trigger] b[m] == a[m],
{
    assert forall|m: int| 0 <= m < a.len() implies #[trigger] b[m] == a[m] by {
        assert(b.subrange(0, a.len() as int)[m] == b[m]);
    }
}

proof fn lemma_prefix_trans<A>(a: Seq<A>, b: Seq<A>, c: Seq<A>)
    requires
        is_prefix(a, b),
        is_prefix(b, c),
    ensures
        is_prefix(a, c),
        forall|m: int| 0 <= m < b.len() ==> #[trigger] c[m] == b[m],
        forall|m: int| 0 <= m < a.len() ==> #[trigger] c[m] == a[m],
{
    assert forall|m: int| 0 <= m < b.len() implies #[trigger] c[m] == b[m] by {
        assert(c.subrange(0, b.len() as int)[m] == c[m]);
    }
    assert forall|m: int| 0 <= m < a.len() implies #[trigger] c[m] == a[m] by {
        assert(b.subrange(0, a.len() as int)[m] == b[m]);
        assert(c[m] == b[m]);
    }
    assert(c.subrange(0, a.len() as int) =~= a);
}

/// The value a cell gets without calling the host: a literal's text, or the value of a
/// single reference to a resolved cell, null for a missing one.
pub open spec fn plain_value(s: &State, e: Expr) -> Option<Val> {
    match e {
        Expr::Value(t) => Some(Val::Text(t)),
        Expr::Reference(r) => ref_value(s, r),
        _ => None,
    }
}

/// A list with `v` added unless it is null.
pub open spec fn keep_value(l: Seq<Val>, v: Val) -> Seq<Val> {
    if v is Null {
        l
    } else {
        l.push(v)
    }
}

/// Two partial lists joined, when both are known.
pub open spec fn opt_cat(a: Option<Seq<Val>>, b: Option<Seq<Val>>) -> Option<Seq<Val>> {
    match (a, b) {
        (Some(x), Some(y)) => Some(x + y),
        _ => None,
    }
}

/// The views of a list of host values.
pub open spec fn values_of(v: Seq<HostValue>) -> Seq<Val> {
    Seq::new(v.len(), |j: int| v[j]@)
}

/// Whether `k` lies on the swept line: its column is `line` and its row at least `first`
/// (with `by_row`, its row is `line` and its column at least `first`).
pub open spec fn in_line(k: CellPointer, line: int, first: int, by_row: bool) -> bool {
    if by_row {
        k.1 == line && k.0 >= first
    } else {
        k.0 == line && k.1 >= first
    }
}

/// The values, in store order, of the first `n` cells of the store that lie on a swept line.
pub closed spec fn line_part(s: &State, line: int, first: int, by_row: bool, n: nat) -> Option<Seq<Val>>
    decreases n,
{
    if n == 0 {
        Some(Seq::empty())
    } else {
        match line_part(s, line, first, by_row, (n - 1) as nat) {
            None => None,
            Some(l) => {
                let k = s.cells@[n - 1].key;
                if in_line(k, line, first, by_row) {
                    match cell_value(s, k) {
                        Some(v) => Some(keep_value(l, v)),
                        None => None,
                    }
                } else {
                    Some(l)
                }
            },
        }
    }
}

/// The values of `m` swept lines from `from` on, line after line.
pub closed spec fn lines_part(s: &State, from: int, m: nat, first: int, by_row: bool) -> Option<Seq<Val>>
    decreases m,
{
    if m == 0 {
        Some(Seq::empty())
    } else {
        opt_cat(
            lines_part(s, from, (m - 1) as nat, first, by_row),
            line_part(s, from + m - 1, first, by_row, s.cells@.len()),
        )
    }
}

/// The values of the rows `r0 .. r0 + n` of column `c`.
pub open spec fn column_part(s: &State, c: int, r0: int, n: nat) -> Option<Seq<Val>>
    decreases n,
{
    if n == 0 {
        Some(Seq::empty())
    } else {
        match (column_part(s, c, r0, (n - 1) as nat), cell_value(s, CellPointer(c as usize, (r0 + n - 1) as usize))) {
            (Some(l), Some(v)) => Some(keep_value(l, v)),
            _ => None,
        }
    }
}

/// The values of the columns `c0 .. c0 + m`, each over the rows `r0 .. r0 + n`.
pub open spec fn rect_part(s: &State, c0: int, m: nat, r0: int, n: nat) -> Option<Seq<Val>>
    decreases m,
{
    if m == 0 {
        Some(Seq::empty())
    } else {
        opt_cat(rect_part(s, c0, (m - 1) as nat, r0, n), column_part(s, c0 + m - 1, r0, n))
    }
}

/// The value of a reference without calling the host: the value of a cell, or the list of
/// the non-null values of a range in sweep order, when every cell read is resolved, missing
/// or a literal.
pub open spec fn ref_value(s: &State, r: Reference) -> Option<Val> {
    let l = match r {
        Reference::Single(k) => None,
        Reference::BoundedRange(a, b) => rect_part(
            s,
            min_of(a.0, b.0) as int,
            (max_of(a.0, b.0) - min_of(a.0, b.0) + 1) as nat,
            min_of(a.1, b.1) as int,
            (max_of(a.1, b.1) - min_of(a.1, b.1) + 1) as nat,
        ),
        Reference::UnboundedColRange(a, last) => if a.0 > last {
            Some(Seq::empty())
        } else {
            lines_part(s, a.0 as int, (last - a.0 + 1) as nat, a.1 as int, false)
        },
        Reference::UnboundedRowRange(a, last) => if a.1 > last {
            Some(Seq::empty())
        } else {
            lines_part(s, a.1 as int, (last - a.1 + 1) as nat, a.0 as int, true)
        },
    };
    match r {
        Reference::Single(k) => cell_value(s, k),
        _ => match l {
            Some(x) => Some(Val::List(x)),
            None => None,
        },
    }
}

/// A prefix of a column that can be read can be read.
proof fn lemma_column_prefix(s: &State, c: int, r0: int, m: nat, total: nat)
    requires
        m <= total,
    ensures
        column_part(s, c, r0, total) is Some ==> column_part(s, c, r0, m) is Some,
    decreases total - m,
{
    if m < total {
        lemma_column_prefix(s, c, r0, (m + 1) as nat, total);
    }
}

/// A prefix of a rectangle that can be read can be read.
proof fn lemma_rect_prefix(s: &State, c0: int, m: nat, total: nat, r0: int, n: nat)
    requires
        m <= total,
    ensures
        rect_part(s, c0, total, r0, n) is Some ==> rect_part(s, c0, m, r0, n) is Some,
    decreases total - m,
{
    if m < total {
        lemma_rect_prefix(s, c0, (m + 1) as nat, total, r0, n);
    }
}

/// A prefix of a sweep of one line that can be read can be read.
proof fn lemma_line_prefix(s: &State, line: int, first: int, by_row: bool, m: nat, total: nat)
    requires
        m <= total,
    ensures
        line_part(s, line, first, by_row, total) is Some ==> line_part(s, line, first, by_row, m) is Some,
    decreases total - m,
{
    if m < total {
        lemma_line_prefix(s, line, first, by_row, (m + 1) as nat, total);
    }
}

/// A prefix of sweeps that can be read is read line by line.
proof fn lemma_lines_prefix(s: &State, from: int, m: nat, total: nat, first: int, by_row: bool)
    requires
        m <= total,
    ensures
        lines_part(s, from, total, first, by_row) is Some ==> lines_part(s, from, m, first, by_row) is Some,
    decreases total - m,
{
    if m < total {
        lemma_lines_prefix(s, from, (m + 1) as nat, total, first, by_row);
    }
}

/// The view of a list value is the list of the views.
proof fn lemma_list_view(v: Vec<HostValue>)
    ensures
        HostValue::List(v)@ == Val::List(values_of(v@)),
{
    assert(HostValue::List(v)@->List_0 =~= values_of(v@));
}

/// The value a reference sees in the cell under `k` without calling the host: its
/// resolution, null for a missing cell, the text of a literal not yet resolved.
pub open spec fn cell_value(s: &State, k: CellPointer) -> Option<Val> {
    if !s.exprs().contains_key(k) {
        Some(Val::Null)
    } else if s.resolved(k) is Some {
        s.resolved(k)
    } else {
        match s.exprs()[k] {
            Expr::Value(t) => Some(Val::Text(t)),
            _ => None,
        }
    }
}

/// Every reader of `key` off the path, marked one by one, is marked.
proof fn lemma_marks_final(
    pre: State,
    post: State,
    dependents: Seq<CellPointer>,
    path: Seq<CellPointer>,
    key: CellPointer,
    next: ResolveDisplay,
    display: ResolveDisplay,
)
    requires
        display is Noop ==> next is Noop,
        !(display is Noop) ==> next is Update,
        forall|d: CellPointer| d != key && (pre.reads_cell(key, d) || pre.reads_col(key.0, d)
            || pre.reads_row(key.1, d)) ==> #[trigger] dependents.contains(d),
        forall|m: int| 0 <= m < dependents.len() && dependents[m] != key && !path.contains(#[trigger] dependents[m])
            && pre.has_cell(dependents[m]) ==> reresolved(pre, post, dependents[m]) && (next is Update
            ==> was_shown(pre, post, dependents[m])),
    ensures
        forall|d: CellPointer| d != key && !path.contains(d) && (pre.reads_cell(key, d)
            || pre.reads_col(key.0, d) || pre.reads_row(key.1, d)) ==> #[trigger] reresolved(pre, post, d)
            && (!(display is Noop) ==> was_shown(pre, post, d)),
{
    assert forall|d: CellPointer| d != key && !path.contains(d) && (pre.reads_cell(key, d)
        || pre.reads_col(key.0, d) || pre.reads_row(key.1, d)) implies #[trigger] reresolved(pre, post, d)
        && (!(display is Noop) ==> was_shown(pre, post, d)) by {
        assert(dependents.contains(d));
        let m = choose|m: int| 0 <= m < dependents.len() && dependents[m] == d;
        assert(pre.has_cell(dependents[m]));
    }
}

/// Every cell other than `key` that had a value and was not resolved again keeps it.
pub open spec fn frame_kept(pre: State, post: State, key: CellPointer) -> bool {
    forall|k: CellPointer|
        k != key && pre.resolved(k) is Some && !reresolved(pre, post, k) ==> #[trigger] post.resolved(k) == pre.resolved(k)
}

/// The frame composes over a resolution of `d` made between `before` and `post`.
proof fn lemma_frame_step(pre: State, before: State, post: State, key: CellPointer, d: CellPointer)
    requires
        frame_kept(pre, before, key),
        frame_kept(before, post, d),
        is_prefix(pre.resolutions(), before.resolutions()),
        is_prefix(before.resolutions(), post.resolutions()),
        reresolved(pre, post, d),
        forall|k: CellPointer| #[trigger] pre.resolved(k) is Some ==> before.resolved(k) is Some,
    ensures
        frame_kept(pre, post, key),
{
    lemma_prefix_index(before.resolutions(), post.resolutions());
    assert forall|k: CellPointer|
        k != key && pre.resolved(k) is Some && !reresolved(pre, post, k) implies #[trigger] post.resolved(k) == pre.resolved(k) by {
        if reresolved(pre, before, k) {
            let m = choose|m: int| pre.resolutions().len() <= m < before.resolutions().len() && #[trigger] before.resolutions()[m] == k;
            assert(post.resolutions()[m] == k);
        }
        if reresolved(before, post, k) {
            let m = choose|m: int| before.resolutions().len() <= m < post.resolutions().len() && #[trigger] post.resolutions()[m] == k;
            assert(pre.resolutions().len() <= m);
        }
    }
}

/// The frame of a removal composes over a resolution of `d`.
proof fn lemma_frame_remove_step(pre: State, before: State, post: State, key: CellPointer, d: CellPointer)
    requires
        frame_kept(pre, before, key),
        frame_kept(before, post, d),
        is_prefix(pre.resolutions(), before.resolutions()),
        is_prefix(before.resolutions(), post.resolutions()),
        reresolved(pre, post, d),
        forall|k: CellPointer| #[trigger] pre.resolved(k) is Some && k != key ==> before.resolved(k) is Some,
        forall|k: CellPointer| #[trigger] before.resolved(k) is Some ==> post.resolved(k) is Some,
    ensures
        frame_kept(pre, post, key),
        forall|k: CellPointer| #[trigger] pre.resolved(k) is Some && k != key ==> post.resolved(k) is Some,
{
    lemma_prefix_index(before.resolutions(), post.resolutions());
    assert forall|k: CellPointer|
        k != key && pre.resolved(k) is Some && !reresolved(pre, post, k) implies #[trigger] post.resolved(k) == pre.resolved(k) by {
        if reresolved(pre, before, k) {
            let m = choose|m: int| pre.resolutions().len() <= m < before.resolutions().len() && #[trigger] before.resolutions()[m] == k;
            assert(post.resolutions()[m] == k);
        }
        if reresolved(before, post, k) {
            let m = choose|m: int| before.resolutions().len() <= m < post.resolutions().len() && #[trigger] post.resolutions()[m] == k;
            assert(pre.resolutions().len() <= m);
        }
    }
}

/// `d` was resolved between `pre` and `post`.
pub open spec fn reresolved(pre: State, post: State, d: CellPointer) -> bool {
    exists|m: int| pre.resolutions().len() <= m < post.resolutions().len() && #[trigger] post.resolutions()[m] == d
}

/// A value of `d` was handed to the display callback between `pre` and `post`.
pub open spec fn was_shown(pre: State, post: State, d: CellPointer) -> bool {
    exists|m: int| pre.shown().len() <= m < post.shown().len() && #[trigger] post.shown()[m].0 == d
}

/// Marks made between `pre` and `mid` stay when the logs of `post` extend those of `mid`.
proof fn lemma_marks_persist(pre: State, mid: State, post: State, d: CellPointer)
    requires
        is_prefix(mid.shown(), post.shown()),
        is_prefix(mid.resolutions(), post.resolutions()),
    ensures
        reresolved(pre, mid, d) ==> reresolved(pre, post, d),
        was_shown(pre, mid, d) ==> was_shown(pre, post, d),
{
    lemma_prefix_index(mid.shown(), post.shown());
    lemma_prefix_index(mid.resolutions(), post.resolutions());
    if reresolved(pre, mid, d) {
        let m = choose|m: int| pre.resolutions().len() <= m < mid.resolutions().len() && #[trigger] mid.resolutions()[m] == d;
        assert(post.resolutions()[m] == d);
    }
    if was_shown(pre, mid, d) {
        let m = choose|m: int| pre.shown().len() <= m < mid.shown().len() && #[trigger] mid.shown()[m].0 == d;
        assert(post.shown()[m] == mid.shown()[m]);
    }
}

/// A copy of a list of keys.
fn copy_keys(v: &Vec<CellPointer>) -> (r: Vec<CellPointer>)
    ensures
        r@ == v@,
{
    let mut out: Vec<CellPointer> = Vec::new();
    let mut i: usize = 0;
    while i < v.len()
        invariant
            i <= v@.len(),
            out@ == v@.subrange(0, i as int),
        decreases v.len() - i,
    {
        out.push(v[i]);
        i += 1;
    }
    assert(out@ =~= v@);
    out
}

/// The message of an error, as the "resolve error: " text shows it.
pub open spec fn error_message(e: SheetError) -> Seq<char> {
    match e {
        SheetError::BadColumnName => "bad column name"@,
        SheetError::BadReference => "bad reference"@,
        SheetError::BadExpression(_) => "bad expression"@,
        SheetError::BadCopy => "bad copy"@,
        SheetError::CircularDependency(_) => "circular dependency"@,
        SheetError::NotFound => "not found"@,
        SheetError::BadSerialization => "bad serialization"@,
        SheetError::HostError(v) => match v {
            HostValue::Text(t) => t@,
            _ => "host error"@,
        },
    }
}

/// The value stored for a cell from the outcome of its evaluation: the value, or the text
/// "resolve error: " followed by the error's message.
pub fn resolution_of(evaluated: Result<HostValue, SheetError>) -> (r: HostValue)
    ensures
        evaluated matches Ok(v) ==> r@ == v@,
        evaluated matches Err(e) ==> r@ == Val::Text("resolve error: "@ + error_message(e)),
{
    match evaluated {
        Ok(v) => v,
        Err(e) => error_value(&e),
    }
}

/// Whether `k` is in `v`.
fn contains_key(v: &Vec<CellPointer>, k: CellPointer) -> (r: bool)
    ensures
        r == v@.contains(k),
{
    let mut i: usize = 0;
    while i < v.len()
        invariant
            i <= v@.len(),
            forall|j: int| 0 <= j < i ==> #[trigger] v@[j] != k,
        decreases v.len() - i,
    {
        if v[i] == k {
            assert(v@[i as int] == k);
            return true;
        }
        i += 1;
    }
    false
}

/// The text shown for a cell whose evaluation failed.
fn error_value(e: &SheetError) -> (r: HostValue)
    ensures
        r@ == Val::Text("resolve error: "@ + error_message(*e)),
{
    let mut out = chars_of("resolve error: ");
    let ghost start = out@;
    let detail: Vec<char> = match e {
        SheetError::BadColumnName => chars_of("bad column name"),
        SheetError::BadReference => chars_of("bad reference"),
        SheetError::BadExpression(_) => chars_of("bad expression"),
        SheetError::BadCopy => chars_of("bad copy"),
        SheetError::CircularDependency(_) => chars_of("circular dependency"),
        SheetError::NotFound => chars_of("not found"),
        SheetError::BadSerialization => chars_of("bad serialization"),
        SheetError::HostError(v) => match v {
            HostValue::Text(t) => chars_of(t.as_str()),
            _ => chars_of("host error"),
        },
    };
    let mut i: usize = 0;
    while i < detail.len()
        invariant
            i <= detail@.len(),
            detail@ == error_message(*e),
            out@ == start + detail@.subrange(0, i as int),
        decreases detail.len() - i,
    {
        out.push(detail[i]);
        i += 1;
        assert(out@ =~= start + detail@.subrange(0, i as int));
    }
    assert(detail@.subrange(0, detail@.len() as int) =~= detail@);
    HostValue::Text(string_of(&out))
}

/// After the cell at `i` is replaced by `c` (same key, raw text and expression, new
/// dependencies) and the reverse indices are relinked for its key, the store is well formed.
proof fn lemma_resolution_wf(pre: State, post: State, i: int, c: Cell)
    requires
        pre.wf(),
        0 <= i < pre.cells@.len(),
        post.cells@ == pre.cells@.update(i, c),
        c.key == pre.cells@[i].key,
        c.raw_value == pre.cells@[i].raw_value,
        c.parsed_expression == pre.cells@[i].parsed_expression,
        c.resolved_dependencies matches Some(d) && same_deps(d@, expr_deps(c.parsed_expression@)),
        forall|x: CellPointer, d: CellPointer| #[trigger] post.reverse_index_singles@.contains((x, d))
            <==> ((pre.reverse_index_singles@.contains((x, d)) && d != c.key) || (d == c.key
            && c.resolved_dependencies->0.singles@.contains(x))),
        forall|x: usize, d: CellPointer| #[trigger] post.reverse_index_cols@.contains((x, d))
            <==> ((pre.reverse_index_cols@.contains((x, d)) && d != c.key) || (d == c.key
            && c.resolved_dependencies->0.cols@.contains(x))),
        forall|x: usize, d: CellPointer| #[trigger] post.reverse_index_rows@.contains((x, d))
            <==> ((pre.reverse_index_rows@.contains((x, d)) && d != c.key) || (d == c.key
            && c.resolved_dependencies->0.rows@.contains(x))),
    ensures
        post.wf(),
        post.same_cells(&pre),
{
    let key = c.key;
    let old_cells = pre.cells@;
    lemma_update_frame(old_cells, i, c);
    lemma_seq_cell(post.cells@, i);
    assert forall|j: int| 0 <= j < post.cells@.len() implies cell_wf(#[trigger] post.cells@[j]) by {
        if j != i {
            assert(post.cells@[j] == old_cells[j]);
        }
    }
    assert forall|x: CellPointer, d: CellPointer|
        #[trigger] post.reverse_index_singles@.contains((x, d)) <==> post.reads_cell(x, d) by {
        if d != key && pre.has_cell(d) {
            assert(post.cell(d) == pre.cell(d));
        }
    }
    assert forall|x: usize, d: CellPointer|
        #[trigger] post.reverse_index_cols@.contains((x, d)) <==> post.reads_col(x, d) by {
        if d != key && pre.has_cell(d) {
            assert(post.cell(d) == pre.cell(d));
        }
    }
    assert forall|x: usize, d: CellPointer|
        #[trigger] post.reverse_index_rows@.contains((x, d)) <==> post.reads_row(x, d) by {
        if d != key && pre.has_cell(d) {
            assert(post.cell(d) == pre.cell(d));
        }
    }
    assert forall|k: CellPointer| post.has_cell(k) implies post.cell(k).raw_value@ == pre.cell(k).raw_value@
        && post.cell(k).parsed_expression@ == pre.cell(k).parsed_expression@ by {
        if k != key {
            assert(post.cell(k) == pre.cell(k));
        }
    }
    assert(post.raws() =~= pre.raws());
    assert(post.exprs() =~= pre.exprs());
}

/// The key of column `c` and row `r`.
pub open spec fn key_at(c: int, r: int) -> CellPointer {
    CellPointer(c as usize, r as usize)
}

/// How the store looks after a cell is put under `key`: the same keys in the same places,
/// perhaps followed by `key`, and every other cell reads the same.
pub closed spec fn installed_from(mid: &State, pre: &State, key: CellPointer) -> bool {
    &&& mid.cells@.len() >= pre.cells@.len()
    &&& forall|j: int| 0 <= j < pre.cells@.len() ==> #[trigger] mid.cells@[j].key == pre.cells@[j].key
    &&& mid.cells@.len() > pre.cells@.len() ==> mid.cells@.len() == pre.cells@.len() + 1
        && mid.cells@[pre.cells@.len() as int].key == key
    &&& forall|k: CellPointer| k != key ==> #[trigger] cell_value(mid, k) == cell_value(pre, k)
}

proof fn lemma_line_installed(mid: &State, pre: &State, key: CellPointer, line: int, first: int, by_row: bool, n: nat)
    requires
        installed_from(mid, pre, key),
        !in_line(key, line, first, by_row),
        n <= pre.cells@.len(),
    ensures
        line_part(mid, line, first, by_row, n) == line_part(pre, line, first, by_row, n),
    decreases n,
{
    if n > 0 {
        lemma_line_installed(mid, pre, key, line, first, by_row, (n - 1) as nat);
        assert(mid.cells@[n - 1].key == pre.cells@[n - 1].key);
    }
}

proof fn lemma_lines_installed(mid: &State, pre: &State, key: CellPointer, from: int, m: nat, first: int, by_row: bool)
    requires
        installed_from(mid, pre, key),
        forall|l: int| from <= l < from + m ==> !#[trigger] in_line(key, l, first, by_row),
    ensures
        lines_part(mid, from, m, first, by_row) == lines_part(pre, from, m, first, by_row),
    decreases m,
{
    if m > 0 {
        lemma_lines_installed(mid, pre, key, from, (m - 1) as nat, first, by_row);
        let line = from + m - 1;
        assert(!in_line(key, line, first, by_row));
        lemma_line_installed(mid, pre, key, line, first, by_row, pre.cells@.len());
        if mid.cells@.len() > pre.cells@.len() {
            reveal_with_fuel(line_part, 2);
            assert(mid.cells@[pre.cells@.len() as int].key == key);
        }
    }
}

proof fn lemma_column_installed(mid: &State, pre: &State, key: CellPointer, c: int, r0: int, n: nat)
    requires
        installed_from(mid, pre, key),
        forall|r: int| r0 <= r < r0 + n ==> #[trigger] key_at(c, r) != key,
    ensures
        column_part(mid, c, r0, n) == column_part(pre, c, r0, n),
    decreases n,
{
    if n > 0 {
        lemma_column_installed(mid, pre, key, c, r0, (n - 1) as nat);
        assert(key_at(c, r0 + n - 1) != key);
    }
}

proof fn lemma_rect_installed(mid: &State, pre: &State, key: CellPointer, c0: int, m: nat, r0: int, n: nat)
    requires
        installed_from(mid, pre, key),
        forall|c: int, r: int| c0 <= c < c0 + m && r0 <= r < r0 + n ==> #[trigger] key_at(c, r) != key,
    ensures
        rect_part(mid, c0, m, r0, n) == rect_part(pre, c0, m, r0, n),
    decreases m,
{
    if m > 0 {
        lemma_rect_installed(mid, pre, key, c0, (m - 1) as nat, r0, n);
        assert forall|r: int| r0 <= r < r0 + n implies #[trigger] key_at(c0 + m - 1, r) != key by {
            assert(c0 <= c0 + m - 1 < c0 + m);
        }
        lemma_column_installed(mid, pre, key, c0 + m - 1, r0, n);
    }
}

/// An expression that does not read `key` has the same value without the host before and
/// after a cell is put under `key`.
proof fn lemma_plain_installed(mid: &State, pre: &State, key: CellPointer, e: Expr)
    requires
        installed_from(mid, pre, key),
        !expr_reads(e, key),
    ensures
        plain_value(mid, e) == plain_value(pre, e),
{
    match e {
        Expr::Reference(r) => match r {
            Reference::Single(k) => {},
            Reference::BoundedRange(a, b) => {
                let c0 = min_of(a.0, b.0) as int;
                let r0 = min_of(a.1, b.1) as int;
                let m = (max_of(a.0, b.0) - min_of(a.0, b.0) + 1) as nat;
                let n = (max_of(a.1, b.1) - min_of(a.1, b.1) + 1) as nat;
                assert forall|c: int, w: int| c0 <= c < c0 + m && r0 <= w < r0 + n implies #[trigger] key_at(c, w) != key by {
                    if key_at(c, w) == key {
                        assert(ref_reads(r, key));
                    }
                }
                lemma_rect_installed(mid, pre, key, c0, m, r0, n);
            },
            Reference::UnboundedColRange(a, last) => {
                if a.0 <= last {
                    assert forall|l: int| a.0 <= l < a.0 + (last - a.0 + 1) implies !#[trigger] in_line(key, l, a.1 as int, false) by {
                        if in_line(key, l, a.1 as int, false) {
                            assert(ref_reads(r, key));
                        }
                    }
                    lemma_lines_installed(mid, pre, key, a.0 as int, (last - a.0 + 1) as nat, a.1 as int, false);
                }
            },
            Reference::UnboundedRowRange(a, last) => {
                if a.1 <= last {
                    assert forall|l: int| a.1 <= l < a.1 + (last - a.1 + 1) implies !#[trigger] in_line(key, l, a.0 as int, true) by {
                        if in_line(key, l, a.0 as int, true) {
                            assert(ref_reads(r, key));
                        }
                    }
                    lemma_lines_installed(mid, pre, key, a.1 as int, (last - a.1 + 1) as nat, a.0 as int, true);
                }
            },
        },
        _ => {},
    }
}

/// Replacing the cell at `i` by an unresolved one under the same key, with its entries in
/// the reverse indices dropped, keeps the store well formed.
proof fn lemma_replace_wf(pre: State, post: State, i: int, c: Cell)
    requires
        pre.wf(),
        0 <= i < pre.cells@.len(),
        post.cells@ == pre.cells@.update(i, c),
        c.key == pre.cells@[i].key,
        cell_wf(c),
        c.resolved_dependencies is None,
        c.resolved_value is None,
        post.sheet_bounds == pre.sheet_bounds,
        post.shown == pre.shown,
        post.resolutions == pre.resolutions,
        post.calls == pre.calls,
        forall|x: CellPointer, d: CellPointer| #[trigger] post.reverse_index_singles@.contains((x, d))
            <==> (pre.reverse_index_singles@.contains((x, d)) && d != c.key),
        forall|x: usize, d: CellPointer| #[trigger] post.reverse_index_cols@.contains((x, d))
            <==> (pre.reverse_index_cols@.contains((x, d)) && d != c.key),
        forall|x: usize, d: CellPointer| #[trigger] post.reverse_index_rows@.contains((x, d))
            <==> (pre.reverse_index_rows@.contains((x, d)) && d != c.key),
    ensures
        post.wf(),
        post.raws() == pre.raws().insert(c.key, c.raw_value@),
        post.exprs() == pre.exprs().insert(c.key, c.parsed_expression@),
        post.bounds() == pre.bounds(),
        post.has_cell(c.key),
        post.resolved(c.key) is None,
        post.shown() == pre.shown(),
        post.resolutions() == pre.resolutions(),
        post.calls() == pre.calls(),
        forall|k: CellPointer| k != c.key ==> #[trigger] post.resolved(k) == pre.resolved(k),
        forall|k: CellPointer| #[trigger] post.has_cell(k) == pre.has_cell(k),
        forall|k: CellPointer| k != c.key && pre.has_cell(k) ==> #[trigger] post.cell(k) == pre.cell(k),
        forall|d: CellPointer| d != c.key ==> #[trigger] post.reads_key(c.key, d) == pre.reads_key(c.key, d),
        post.cells@.len() == pre.cells@.len(),
        forall|j: int| 0 <= j < pre.cells@.len() ==> #[trigger] post.cells@[j].key == pre.cells@[j].key,
{
    let key = c.key;
    lemma_update_frame(pre.cells@, i, c);
    lemma_seq_cell(post.cells@, i);
    assert forall|j: int| 0 <= j < post.cells@.len() implies cell_wf(#[trigger] post.cells@[j]) by {
        if j != i {
            assert(post.cells@[j] == pre.cells@[j]);
        }
    }
    assert forall|x: CellPointer, d: CellPointer|
        #[trigger] post.reverse_index_singles@.contains((x, d)) <==> post.reads_cell(x, d) by {
        if d != key && pre.has_cell(d) {
            assert(post.cell(d) == pre.cell(d));
        }
    }
    assert forall|x: usize, d: CellPointer|
        #[trigger] post.reverse_index_cols@.contains((x, d)) <==> post.reads_col(x, d) by {
        if d != key && pre.has_cell(d) {
            assert(post.cell(d) == pre.cell(d));
        }
    }
    assert forall|x: usize, d: CellPointer|
        #[trigger] post.reverse_index_rows@.contains((x, d)) <==> post.reads_row(x, d) by {
        if d != key && pre.has_cell(d) {
            assert(post.cell(d) == pre.cell(d));
        }
    }
    assert forall|k: CellPointer| k != key implies #[trigger] post.resolved(k) == pre.resolved(k) by {
        if pre.has_cell(k) {
            assert(post.cell(k) == pre.cell(k));
        }
    }
    assert forall|d: CellPointer| d != key implies #[trigger] post.reads_key(key, d) == pre.reads_key(key, d) by {
        if pre.has_cell(d) {
            assert(post.cell(d) == pre.cell(d));
        }
    }
    assert forall|j: int| 0 <= j < pre.cells@.len() implies #[trigger] post.cells@[j].key == pre.cells@[j].key by {
    }
    assert forall|k: CellPointer| post.has_cell(k) implies post.cell(k).raw_value@ == pre.raws().insert(key, c.raw_value@)[k]
        && post.cell(k).parsed_expression@ == pre.exprs().insert(key, c.parsed_expression@)[k] by {
        if k != key {
            assert(post.cell(k) == pre.cell(k));
        }
    }
    assert(post.raws() =~= pre.raws().insert(key, c.raw_value@));
    assert(post.exprs() =~= pre.exprs().insert(key, c.parsed_expression@));
}

/// Dropping the cell at `i` and its reverse-index entries keeps the store well formed.
proof fn lemma_remove_wf(pre: State, post: State, i: int)
    requires
        pre.wf(),
        0 <= i < pre.cells@.len(),
        post.cells@ == pre.cells@.remove(i),
        post.sheet_bounds == pre.sheet_bounds,
        forall|x: CellPointer, d: CellPointer| #[trigger] post.reverse_index_singles@.contains((x, d))
            <==> (pre.reverse_index_singles@.contains((x, d)) && d != pre.cells@[i].key),
        forall|x: usize, d: CellPointer| #[trigger] post.reverse_index_cols@.contains((x, d))
            <==> (pre.reverse_index_cols@.contains((x, d)) && d != pre.cells@[i].key),
        forall|x: usize, d: CellPointer| #[trigger] post.reverse_index_rows@.contains((x, d))
            <==> (pre.reverse_index_rows@.contains((x, d)) && d != pre.cells@[i].key),
    ensures
        post.wf(),
        !post.has_cell(pre.cells@[i].key),
        post.raws() == pre.raws().remove(pre.cells@[i].key),
        post.exprs() == pre.exprs().remove(pre.cells@[i].key),
        forall|k: CellPointer| k != pre.cells@[i].key ==> #[trigger] post.has_cell(k) == pre.has_cell(k),
        forall|k: CellPointer|
            k != pre.cells@[i].key && pre.has_cell(k) ==> #[trigger] post.cell(k) == pre.cell(k),
{
    let key = pre.cells@[i].key;
    lemma_remove_frame(pre.cells@, i);
    assert forall|j: int| 0 <= j < post.cells@.len() implies cell_wf(#[trigger] post.cells@[j]) by {
        let j2 = if j < i { j } else { j + 1 };
        assert(post.cells@[j] == pre.cells@[j2]);
    }
    assert forall|x: CellPointer, d: CellPointer|
        #[trigger] post.reverse_index_singles@.contains((x, d)) <==> post.reads_cell(x, d) by {
        if d != key && pre.has_cell(d) {
            assert(post.cell(d) == pre.cell(d));
        }
    }
    assert forall|x: usize, d: CellPointer|
        #[trigger] post.reverse_index_cols@.contains((x, d)) <==> post.reads_col(x, d) by {
        if d != key && pre.has_cell(d) {
            assert(post.cell(d) == pre.cell(d));
        }
    }
    assert forall|x: usize, d: CellPointer|
        #[trigger] post.reverse_index_rows@.contains((x, d)) <==> post.reads_row(x, d) by {
        if d != key && pre.has_cell(d) {
            assert(post.cell(d) == pre.cell(d));
        }
    }
    assert(post.raws() =~= pre.raws().remove(key));
    assert(post.exprs() =~= pre.exprs().remove(key));
}

/// Appending an unresolved well-formed cell under a new key keeps the store well formed.
proof fn lemma_push_wf(pre: State, post: State, c: Cell)
    requires
        pre.wf(),
        !pre.has_cell(c.key),
        cell_wf(c),
        c.resolved_dependencies is None,
        post.cells@ == pre.cells@.push(c),
        post.sheet_bounds == pre.sheet_bounds,
        post.reverse_index_singles == pre.reverse_index_singles,
        post.reverse_index_cols == pre.reverse_index_cols,
        post.reverse_index_rows == pre.reverse_index_rows,
    ensures
        post.wf(),
        post.raws() == pre.raws().insert(c.key, c.raw_value@),
        post.exprs() == pre.exprs().insert(c.key, c.parsed_expression@),
        forall|k: CellPointer| #[trigger] post.has_cell(k) == (pre.has_cell(k) || k == c.key),
{
    lemma_push_frame(pre.cells@, c);
    assert forall|j: int| 0 <= j < post.cells@.len() implies cell_wf(#[trigger] post.cells@[j]) by {
        if j < pre.cells@.len() {
            assert(post.cells@[j] == pre.cells@[j]);
        }
    }
    assert forall|x: CellPointer, d: CellPointer|
        #[trigger] post.reverse_index_singles@.contains((x, d)) <==> post.reads_cell(x, d) by {
        if d != c.key && pre.has_cell(d) {
            assert(post.cell(d) == pre.cell(d));
        }
    }
    assert forall|x: usize, d: CellPointer|
        #[trigger] post.reverse_index_cols@.contains((x, d)) <==> post.reads_col(x, d) by {
        if d != c.key && pre.has_cell(d) {
            assert(post.cell(d) == pre.cell(d));
        }
    }
    assert forall|x: usize, d: CellPointer|
        #[trigger] post.reverse_index_rows@.contains((x, d)) <==> post.reads_row(x, d) by {
        if d != c.key && pre.has_cell(d) {
            assert(post.cell(d) == pre.cell(d));
        }
    }
    assert forall|k: CellPointer| post.has_cell(k) implies post.cell(k).raw_value@ == pre.raws().insert(
        c.key,
        c.raw_value@,
    )[k] && post.cell(k).parsed_expression@ == pre.exprs().insert(c.key, c.parsed_expression@)[k] by {
    }
    assert(post.raws() =~= pre.raws().insert(c.key, c.raw_value@));
    assert(post.exprs() =~= pre.exprs().insert(c.key, c.parsed_expression@));
}

} // verus!
