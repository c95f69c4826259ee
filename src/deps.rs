use vstd::prelude::*;

use crate::expression::{
    args_of, expr_size, inputs_of, lemma_function_view, lemma_input_smaller, Expr, Expression,
};
use crate::reference::{CellPointer, Reference};

verus! {

/// The cells, columns and rows that an expression reads.
pub struct Dependencies {
    pub singles: Vec<CellPointer>,
    pub cols: Vec<usize>,
    pub rows: Vec<usize>,
}

/// The mathematical form of a dependency set.
pub struct DepSets {
    pub singles: Set<CellPointer>,
    pub cols: Set<usize>,
    pub rows: Set<usize>,
}

impl View for Dependencies {
    type V = DepSets;

    open spec fn view(&self) -> DepSets {
        DepSets {
            singles: Set::new(|k: CellPointer| self.singles@.contains(k)),
            cols: Set::new(|c: usize| self.cols@.contains(c)),
            rows: Set::new(|r: usize| self.rows@.contains(r)),
        }
    }
}

pub open spec fn min_of(a: usize, b: usize) -> usize {
    if a <= b {
        a
    } else {
        b
    }
}

pub open spec fn max_of(a: usize, b: usize) -> usize {
    if a <= b {
        b
    } else {
        a
    }
}

/// The cells a reference reads one by one: the cell itself, or every cell of a rectangle.
pub open spec fn ref_singles(r: Reference) -> Set<CellPointer> {
    match r {
        Reference::Single(k) => set![k],
        Reference::BoundedRange(a, b) => Set::new(
            |k: CellPointer|
                min_of(a.0, b.0) <= k.0 <= max_of(a.0, b.0) && min_of(a.1, b.1) <= k.1 <= max_of(
                    a.1,
                    b.1,
                ),
        ),
        _ => Set::empty(),
    }
}

/// The columns an unbounded column range sweeps.
pub open spec fn ref_cols(r: Reference) -> Set<usize> {
    match r {
        Reference::UnboundedColRange(a, c) => Set::new(|x: usize| a.0 <= x <= c),
        _ => Set::empty(),
    }
}

/// The rows an unbounded row range sweeps.
pub open spec fn ref_rows(r: Reference) -> Set<usize> {
    match r {
        Reference::UnboundedRowRange(a, w) => Set::new(|x: usize| a.1 <= x <= w),
        _ => Set::empty(),
    }
}

/// The dependency sets of an expression: the union over all references in it.
pub open spec fn expr_deps(e: Expr) -> DepSets
    decreases e, 1int,
{
    match e {
        Expr::Function { inputs, .. } => all_deps(inputs),
        Expr::Reference(r) => DepSets { singles: ref_singles(r), cols: ref_cols(r), rows: ref_rows(r) },
        Expr::Value(_) => DepSets { singles: Set::empty(), cols: Set::empty(), rows: Set::empty() },
    }
}

pub open spec fn union_deps(a: DepSets, b: DepSets) -> DepSets {
    DepSets { singles: a.singles + b.singles, cols: a.cols + b.cols, rows: a.rows + b.rows }
}

pub open spec fn all_deps(s: Seq<Expr>) -> DepSets
    decreases s, 0int,
{
    if s.len() == 0 {
        DepSets { singles: Set::empty(), cols: Set::empty(), rows: Set::empty() }
    } else {
        union_deps(all_deps(s.drop_last()), expr_deps(s.last()))
    }
}

pub open spec fn same_deps(a: DepSets, b: DepSets) -> bool {
    a.singles == b.singles && a.cols == b.cols && a.rows == b.rows
}

proof fn lemma_push_contains<A>(s: Seq<A>, x: A)
    ensures
        forall|y: A| #[trigger] s.push(x).contains(y) <==> (s.contains(y) || y == x),
{
    assert forall|y: A| #[trigger] s.push(x).contains(y) <==> (s.contains(y) || y == x) by {
        if s.contains(y) {
            let i = choose|i: int| 0 <= i < s.len() && s[i] == y;
            assert(s.push(x)[i] == y);
        }
        if y == x {
            assert(s.push(x)[s.len() as int] == y);
        }
        if s.push(x).contains(y) {
            let i = choose|i: int| 0 <= i < s.len() + 1 && s.push(x)[i] == y;
            if i < s.len() {
                assert(s[i] == y);
            }
        }
    }
}

impl Dependencies {
    /// Empty sets.
    pub fn new() -> (r: Dependencies)
        ensures
            r@.singles == Set::<CellPointer>::empty(),
            r@.cols == Set::<usize>::empty(),
            r@.rows == Set::<usize>::empty(),
    {
        let r = Dependencies { singles: Vec::new(), cols: Vec::new(), rows: Vec::new() };
        assert(r@.singles =~= Set::<CellPointer>::empty());
        assert(r@.cols =~= Set::<usize>::empty());
        assert(r@.rows =~= Set::<usize>::empty());
        r
    }

    /// Adds one cell.
    fn add_single(&mut self, k: CellPointer)
        ensures
            final(self)@.singles == old(self)@.singles.insert(k),
            final(self)@.cols == old(self)@.cols,
            final(self)@.rows == old(self)@.rows,
    {
        proof {
            lemma_push_contains(self.singles@, k);
        }
        self.singles.push(k);
        assert(self@.singles =~= old(self)@.singles.insert(k));
        assert(self@.cols =~= old(self)@.cols);
        assert(self@.rows =~= old(self)@.rows);
    }

    /// Adds one column.
    fn add_col(&mut self, c: usize)
        ensures
            final(self)@.singles == old(self)@.singles,
            final(self)@.cols == old(self)@.cols.insert(c),
            final(self)@.rows == old(self)@.rows,
    {
        proof {
            lemma_push_contains(self.cols@, c);
        }
        self.cols.push(c);
        assert(self@.singles =~= old(self)@.singles);
        assert(self@.cols =~= old(self)@.cols.insert(c));
        assert(self@.rows =~= old(self)@.rows);
    }

    /// Adds one row.
    fn add_row(&mut self, r: usize)
        ensures
            final(self)@.singles == old(self)@.singles,
            final(self)@.cols == old(self)@.cols,
            final(self)@.rows == old(self)@.rows.insert(r),
    {
        proof {
            lemma_push_contains(self.rows@, r);
        }
        self.rows.push(r);
        assert(self@.singles =~= old(self)@.singles);
        assert(self@.cols =~= old(self)@.cols);
        assert(self@.rows =~= old(self)@.rows.insert(r));
    }

    /// Adds what one reference reads.
    pub fn add_reference(&mut self, r: Reference)
        ensures
            same_deps(
                final(self)@,
                union_deps(
                    old(self)@,
                    DepSets { singles: ref_singles(r), cols: ref_cols(r), rows: ref_rows(r) },
                ),
            ),
    {
        let ghost start = self@;
        match r {
            Reference::Single(k) => {
                self.add_single(k);
                assert(self@.singles =~= start.singles + ref_singles(r));
                assert(self@.cols =~= start.cols + ref_cols(r));
                assert(self@.rows =~= start.rows + ref_rows(r));
            },
            Reference::BoundedRange(a, b) => {
                let c0 = if a.0 <= b.0 { a.0 } else { b.0 };
                let c1 = if a.0 <= b.0 { b.0 } else { a.0 };
                let r0 = if a.1 <= b.1 { a.1 } else { b.1 };
                let r1 = if a.1 <= b.1 { b.1 } else { a.1 };
                let mut c = c0;
                loop
                    invariant_except_break
                        c0 <= c <= c1,
                        self@.singles == start.singles + Set::new(
                            |k: CellPointer| c0 <= k.0 < c && r0 <= k.1 <= r1,
                        ),
                    invariant
                        r == Reference::BoundedRange(a, b),
                        r0 <= r1,
                        c0 <= c1,
                        c0 == min_of(a.0, b.0),
                        c1 == max_of(a.0, b.0),
                        r0 == min_of(a.1, b.1),
                        r1 == max_of(a.1, b.1),
                        self@.cols == start.cols,
                        self@.rows == start.rows,
                    ensures
                        self@.singles == start.singles + ref_singles(r),
                    decreases c1 - c,
                {
                    let mut w = r0;
                    loop
                        invariant_except_break
                            r0 <= w <= r1,
                            self@.singles == start.singles + Set::new(
                                |k: CellPointer|
                                    (c0 <= k.0 < c && r0 <= k.1 <= r1) || (k.0 == c && r0 <= k.1
                                        < w),
                            ),
                        invariant
                            c0 <= c <= c1,
                            r0 <= r1,
                            c0 == min_of(a.0, b.0),
                            c1 == max_of(a.0, b.0),
                            r0 == min_of(a.1, b.1),
                            r1 == max_of(a.1, b.1),
                            self@.cols == start.cols,
                            self@.rows == start.rows,
                        ensures
                            self@.singles == start.singles + Set::new(
                                |k: CellPointer|
                                    (c0 <= k.0 < c && r0 <= k.1 <= r1) || (k.0 == c && r0 <= k.1
                                        <= r1),
                            ),
                        decreases r1 - w,
                    {
                        self.add_single(CellPointer(c, w));
                        if w == r1 {
                            assert(self@.singles =~= start.singles + Set::new(
                                |k: CellPointer| (c0 <= k.0 < c && r0 <= k.1 <= r1) || (k.0 == c
                                    && r0 <= k.1 <= r1),
                            ));
                            break;
                        }
                        w = w + 1;
                        assert(self@.singles =~= start.singles + Set::new(
                            |k: CellPointer|
                                (c0 <= k.0 < c && r0 <= k.1 <= r1) || (k.0 == c && r0 <= k.1 < w),
                        ));
                    }
                    if c == c1 {
                        assert(ref_singles(r) =~= Set::new(
                            |k: CellPointer| c0 <= k.0 <= c1 && r0 <= k.1 <= r1,
                        ));
                        assert(self@.singles =~= start.singles + ref_singles(r));
                        break;
                    }
                    c = c + 1;
                    assert(self@.singles =~= start.singles + Set::new(
                        |k: CellPointer| c0 <= k.0 < c && r0 <= k.1 <= r1,
                    ));
                }
                assert(self@.cols =~= start.cols + ref_cols(r));
                assert(self@.rows =~= start.rows + ref_rows(r));
            },
            Reference::UnboundedColRange(a, last) => {
                if a.0 <= last {
                    let mut c = a.0;
                    loop
                        invariant_except_break
                            a.0 <= c <= last,
                            self@.cols == start.cols + Set::new(|x: usize| a.0 <= x < c),
                        invariant
                            self@.singles == start.singles,
                            self@.rows == start.rows,
                        ensures
                            self@.cols == start.cols + Set::new(|x: usize| a.0 <= x <= last),
                        decreases last - c,
                    {
                        self.add_col(c);
                        if c == last {
                            assert(self@.cols =~= start.cols + Set::new(|x: usize| a.0 <= x <= last));
                            break;
                        }
                        c = c + 1;
                        assert(self@.cols =~= start.cols + Set::new(|x: usize| a.0 <= x < c));
                    }
                }
                assert(self@.singles =~= start.singles + ref_singles(r));
                assert(self@.cols =~= start.cols + ref_cols(r));
                assert(self@.rows =~= start.rows + ref_rows(r));
            },
            Reference::UnboundedRowRange(a, last) => {
                if a.1 <= last {
                    let mut w = a.1;
                    loop
                        invariant_except_break
                            a.1 <= w <= last,
                            self@.rows == start.rows + Set::new(|x: usize| a.1 <= x < w),
                        invariant
                            self@.singles == start.singles,
                            self@.cols == start.cols,
                        ensures
                            self@.rows == start.rows + Set::new(|x: usize| a.1 <= x <= last),
                        decreases last - w,
                    {
                        self.add_row(w);
                        if w == last {
                            assert(self@.rows =~= start.rows + Set::new(|x: usize| a.1 <= x <= last));
                            break;
                        }
                        w = w + 1;
                        assert(self@.rows =~= start.rows + Set::new(|x: usize| a.1 <= x < w));
                    }
                }
                assert(self@.singles =~= start.singles + ref_singles(r));
                assert(self@.cols =~= start.cols + ref_cols(r));
                assert(self@.rows =~= start.rows + ref_rows(r));
            },
        }
    }

    /// Adds what an expression reads.
    pub fn add_expression(&mut self, e: &Expression)
        ensures
            same_deps(final(self)@, union_deps(old(self)@, expr_deps(e@))),
        decreases expr_size(e@),
    {
        let ghost start = self@;
        match e {
            Expression::Function { name, inputs } => {
                proof {
                    lemma_function_view(e);
                }
                let ghost model = inputs_of(e@);
                let mut i: usize = 0;
                proof {
                    let z = all_deps(model.subrange(0, 0));
                    assert(self@.singles =~= start.singles + z.singles);
                    assert(self@.cols =~= start.cols + z.cols);
                    assert(self@.rows =~= start.rows + z.rows);
                }
                while i < inputs.len()
                    invariant
                        i <= inputs.len(),
                        *e == (Expression::Function { name: *name, inputs: *inputs }),
                        model == inputs_of(e@),
                        model.len() == inputs.len(),
                        forall|j: int| 0 <= j < inputs.len() ==> #[trigger] model[j] == inputs[j]@,
                        same_deps(self@, union_deps(start, all_deps(model.subrange(0, i as int)))),
                    decreases inputs.len() - i,
                {
                    proof {
                        lemma_input_smaller(e, i as int);
                        reveal_with_fuel(all_deps, 2);
                        assert(model.subrange(0, i + 1).drop_last() =~= model.subrange(0, i as int));
                    }
                    self.add_expression(&inputs[i]);
                    i += 1;
                    proof {
                        let p = all_deps(model.subrange(0, i - 1));
                        let q = expr_deps(model[i - 1]);
                        assert(model.subrange(0, i as int).last() == model[i - 1]);
                        assert(self@.singles =~= start.singles + (p.singles + q.singles));
                        assert(self@.cols =~= start.cols + (p.cols + q.cols));
                        assert(self@.rows =~= start.rows + (p.rows + q.rows));
                    }
                }
                assert(model.subrange(0, i as int) =~= model);
            },
            Expression::Reference(r) => {
                self.add_reference(*r);
            },
            Expression::Value(_) => {
                assert(self@.singles =~= start.singles + Set::empty());
                assert(self@.cols =~= start.cols + Set::empty());
                assert(self@.rows =~= start.rows + Set::empty());
            },
        }
    }

    /// The dependency sets of an expression.
    pub fn of_expression(e: &Expression) -> (r: Dependencies)
        ensures
            same_deps(r@, expr_deps(e@)),
    {
        let mut d = Dependencies::new();
        d.add_expression(e);
        let ghost x = expr_deps(e@);
        assert(d@.singles =~= x.singles);
        assert(d@.cols =~= x.cols);
        assert(d@.rows =~= x.rows);
        d
    }
}

} // verus!
