use vstd::prelude::*;

use crate::column::{column_name, usize_to_column_name};
use crate::error::SheetError;
use crate::reference::{
    column_letters, display_text, moved, push_column_letters, push_display, CellPointer, Reference,
};
use crate::text::{
    all_digits, chars_of, decimal_text, decimal_value, is_space, is_space_char, lemma_decimal_round_trip,
    parse_decimal, push_decimal, signed_text, slice_chars, string_of,
};

verus! {

broadcast use vstd::std_specs::vec::group_vec_axioms;

/// A parsed formula: `=add(A1, sub(4, 2))`.
#[derive(Debug)]
pub enum Expression {
    Function { name: String, inputs: Vec<Expression> },
    Reference(Reference),
    Value(String),
}

/// The mathematical form of an expression.
pub enum Expr {
    Function { name: Seq<char>, inputs: Seq<Expr> },
    Reference(Reference),
    Value(Seq<char>),
}

impl View for Expression {
    type V = Expr;

    open spec fn view(&self) -> Expr
        decreases self, 0int,
    {
        match self {
            Expression::Function { name, inputs } => Expr::Function {
                name: name@,
                inputs: views(inputs@),
            },
            Expression::Reference(r) => Expr::Reference(*r),
            Expression::Value(v) => Expr::Value(v@),
        }
    }
}

/// The views of a sequence of expressions, one by one.
pub open spec fn views(s: Seq<Expression>) -> Seq<Expr>
    decreases s, 0int,
{
    if s.len() == 0 {
        Seq::empty()
    } else {
        views(s.drop_last()).push(s.last().view())
    }
}

/// Number of nodes of an expression, which bounds the depth of recursion over it.
pub open spec fn expr_size(e: Expr) -> nat
    decreases e,
{
    match e {
        Expr::Function { name, inputs } => 1 + exprs_size(inputs),
        _ => 1,
    }
}

pub open spec fn exprs_size(s: Seq<Expr>) -> nat
    decreases s,
{
    if s.len() == 0 {
        0
    } else {
        exprs_size(s.drop_last()) + expr_size(s.last())
    }
}

pub proof fn lemma_exprs_size(s: Seq<Expr>, i: int)
    requires
        0 <= i < s.len(),
    ensures
        expr_size(s[i]) <= exprs_size(s),
    decreases s.len(),
{
    if i < s.len() - 1 {
        lemma_exprs_size(s.drop_last(), i);
        assert(s.drop_last()[i] == s[i]);
    }
}

/// The arguments of a function expression (empty for other expressions).
pub open spec fn args_of(e: &Expression) -> Seq<Expression> {
    match e {
        Expression::Function { inputs, .. } => inputs@,
        _ => Seq::empty(),
    }
}

/// The arguments of a function model (empty for other models).
pub open spec fn inputs_of(e: Expr) -> Seq<Expr> {
    match e {
        Expr::Function { inputs, .. } => inputs,
        _ => Seq::empty(),
    }
}

pub proof fn lemma_views(s: Seq<Expression>)
    ensures
        views(s).len() == s.len(),
        forall|i: int| 0 <= i < s.len() ==> #[trigger] views(s)[i] == s[i]@,
    decreases s.len(),
{
    reveal_with_fuel(views, 2);
    if s.len() > 0 {
        lemma_views(s.drop_last());
        assert forall|i: int| 0 <= i < s.len() implies #[trigger] views(s)[i] == s[i]@ by {
            if i < s.len() - 1 {
                assert(s.drop_last()[i] == s[i]);
            }
        }
    }
}

/// What the view of a function expression holds, argument by argument.
pub proof fn lemma_function_view(f: &Expression)
    ensures
        inputs_of(f@).len() == args_of(f).len(),
        forall|i: int| 0 <= i < args_of(f).len() ==> #[trigger] inputs_of(f@)[i] == args_of(f)[i]@,
{
    lemma_views(args_of(f));
}

pub proof fn lemma_input_smaller(f: &Expression, i: int)
    requires
        f is Function,
        0 <= i < args_of(f).len(),
    ensures
        expr_size(args_of(f)[i]@) < expr_size(f@),
{
    lemma_function_view(f);
    lemma_exprs_size(inputs_of(f@), i);
}

/// The integer that a text denotes, as `isize` reads it: an optional sign, then decimal
/// digits; `None` for any other text or a number out of range.
pub open spec fn int_of_text(t: Seq<char>) -> Option<int> {
    let v: int = if t.len() > 0 && all_digits(t) {
        decimal_value(t) as int
    } else if t.len() > 1 && t[0] == '+' && all_digits(t.drop_first()) {
        decimal_value(t.drop_first()) as int
    } else if t.len() > 1 && t[0] == '-' && all_digits(t.drop_first()) {
        -(decimal_value(t.drop_first()) as int)
    } else {
        isize::MAX + 1
    };
    if isize::MIN <= v <= isize::MAX {
        Some(v)
    } else {
        None
    }
}

/// A reference moved by a distance; `None` when a coordinate leaves `usize`.
pub open spec fn copy_ref(r: Reference, d: (isize, isize)) -> Option<Reference> {
    match r {
        Reference::Single(k) => match moved(k, d) {
            Some(x) => Some(Reference::Single(x)),
            None => None,
        },
        Reference::BoundedRange(a, b) => match (moved(a, d), moved(b, d)) {
            (Some(x), Some(y)) => Some(Reference::BoundedRange(x, y)),
            _ => None,
        },
        Reference::UnboundedColRange(a, c) => match moved(a, d) {
            Some(x) => if 0 <= c + d.0 <= usize::MAX {
                Some(Reference::UnboundedColRange(x, (c + d.0) as usize))
            } else {
                None
            },
            None => None,
        },
        Reference::UnboundedRowRange(a, w) => match moved(a, d) {
            Some(x) => if 0 <= w + d.1 <= usize::MAX {
                Some(Reference::UnboundedRowRange(x, (w + d.1) as usize))
            } else {
                None
            },
            None => None,
        },
    }
}

/// An expression shifted by a distance: references move, integer literals move by the row
/// distance; `None` when anything leaves its range.
pub open spec fn copy_expr(e: Expr, d: (isize, isize)) -> Option<Expr>
    decreases e, 1int,
{
    match e {
        Expr::Function { name, inputs } => match copy_all(inputs, d) {
            Some(xs) => Some(Expr::Function { name, inputs: xs }),
            None => None,
        },
        Expr::Reference(r) => match copy_ref(r, d) {
            Some(x) => Some(Expr::Reference(x)),
            None => None,
        },
        Expr::Value(t) => match int_of_text(t) {
            Some(v) => if isize::MIN <= v + d.1 <= isize::MAX {
                Some(Expr::Value(signed_text(v + d.1)))
            } else {
                None
            },
            None => Some(Expr::Value(t)),
        },
    }
}

/// Each expression of a sequence shifted by a distance.
pub open spec fn copy_all(s: Seq<Expr>, d: (isize, isize)) -> Option<Seq<Expr>>
    decreases s, 0int,
{
    if s.len() == 0 {
        Some(Seq::empty())
    } else {
        match (copy_all(s.drop_last(), d), copy_expr(s.last(), d)) {
            (Some(a), Some(b)) => Some(a.push(b)),
            _ => None,
        }
    }
}

/// Reads an integer literal the way `isize` does.
fn parse_int(t: &Vec<char>) -> (r: Option<isize>)
    ensures
        r matches Some(v) ==> int_of_text(t@) == Some(v as int),
        r is None ==> int_of_text(t@) is None,
{
    let n = t.len();
    if n == 0 {
        return None;
    }
    if t[0] == '+' || t[0] == '-' {
        if n == 1 {
            return None;
        }
        let rest = slice_chars(t, 1, n);
        assert(rest@ =~= t@.drop_first());
        assert(!all_digits(t@)) by {
            assert(!('0' <= t@[0] && t@[0] <= '9'));
        }
        match parse_decimal(&rest) {
            None => None,
            Some(m) => {
                if t[0] == '+' {
                    if m <= isize::MAX as usize {
                        Some(m as isize)
                    } else {
                        None
                    }
                } else {
                    if m <= isize::MAX as usize {
                        Some(-(m as isize))
                    } else if m == isize::MAX as usize + 1 {
                        Some(isize::MIN)
                    } else {
                        None
                    }
                }
            },
        }
    } else {
        match parse_decimal(t) {
            None => None,
            Some(m) => {
                if m <= isize::MAX as usize {
                    Some(m as isize)
                } else {
                    None
                }
            },
        }
    }
}

/// Appends the decimal form of a signed number.
fn push_signed(out: &mut Vec<char>, v: isize)
    ensures
        final(out)@ == old(out)@ + signed_text(v as int),
{
    if v < 0 {
        out.push('-');
        let m: usize = if v == isize::MIN {
            isize::MAX as usize + 1
        } else {
            (-v) as usize
        };
        push_decimal(out, m);
        assert(out@ =~= old(out)@ + signed_text(v as int));
    } else {
        push_decimal(out, v as usize);
    }
}

impl Expression {
    /// The expression shifted by `distance`, as `copy_expr` says; `BadCopy` when a
    /// coordinate or an integer literal would leave its range.
    pub fn copy_with_distance(&self, distance: (isize, isize)) -> (r: Result<Expression, SheetError>)
        ensures
            r matches Ok(x) ==> copy_expr(self@, distance) == Some(x@),
            r matches Err(e) ==> e is BadCopy && copy_expr(self@, distance) is None,
        decreases expr_size(self@),
    {
        proof {
            reveal_with_fuel(views, 2);
            reveal_with_fuel(copy_all, 2);
        }
        match self {
            Expression::Function { name, inputs } => {
                proof {
                    lemma_function_view(self);
                }
                let ghost model = inputs_of(self@);
                let mut out: Vec<Expression> = Vec::new();
                let mut i: usize = 0;
                while i < inputs.len()
                    invariant
                        i <= inputs.len(),
                        *self == (Expression::Function { name: *name, inputs: *inputs }),
                        model == inputs_of(self@),
                        model.len() == inputs.len(),
                        forall|j: int| 0 <= j < inputs.len() ==> #[trigger] model[j] == inputs[j]@,
                        copy_all(model.subrange(0, i as int), distance) == Some(views(out@)),
                    decreases inputs.len() - i,
                {
                    proof {
                        lemma_input_smaller(self, i as int);
                        reveal_with_fuel(views, 2);
                        reveal_with_fuel(copy_all, 2);
                        assert(model.subrange(0, i + 1).drop_last() =~= model.subrange(0, i as int));
                    }
                    match inputs[i].copy_with_distance(distance) {
                        Ok(x) => {
                            let ghost prev = out@;
                            out.push(x);
                            assert(out@.drop_last() =~= prev);
                        },
                        Err(e) => {
                            assert(copy_all(model, distance) is None) by {
                                lemma_copy_all_prefix(model, i as int + 1, distance);
                            }
                            return Err(e);
                        },
                    }
                    i += 1;
                }
                assert(model.subrange(0, i as int) =~= model);
                let r = Expression::Function { name: name.clone(), inputs: out };
                Ok(r)
            },
            Expression::Reference(reference) => {
                let moved_ref = match reference {
                    Reference::Single(k) => match k.try_add(distance) {
                        Some(x) => Some(Reference::Single(x)),
                        None => None,
                    },
                    Reference::BoundedRange(a, b) => match (a.try_add(distance), b.try_add(distance)) {
                        (Some(x), Some(y)) => Some(Reference::BoundedRange(x, y)),
                        _ => None,
                    },
                    Reference::UnboundedColRange(a, c) => match (a.try_add(distance), c.checked_add_signed(distance.0)) {
                        (Some(x), Some(y)) => Some(Reference::UnboundedColRange(x, y)),
                        _ => None,
                    },
                    Reference::UnboundedRowRange(a, w) => match (a.try_add(distance), w.checked_add_signed(distance.1)) {
                        (Some(x), Some(y)) => Some(Reference::UnboundedRowRange(x, y)),
                        _ => None,
                    },
                };
                match moved_ref {
                    Some(x) => Ok(Expression::Reference(x)),
                    None => Err(SheetError::BadCopy),
                }
            },
            Expression::Value(value) => {
                let chars = chars_of(value.as_str());
                match parse_int(&chars) {
                    Some(v) => match v.checked_add(distance.1) {
                        Some(w) => {
                            let mut out: Vec<char> = Vec::new();
                            push_signed(&mut out, w);
                            Ok(Expression::Value(string_of(&out)))
                        },
                        None => Err(SheetError::BadCopy),
                    },
                    None => Ok(Expression::Value(value.clone())),
                }
            },
        }
    }
}

/// A sequence whose prefix cannot be shifted cannot be shifted.
proof fn lemma_copy_all_prefix(s: Seq<Expr>, i: int, d: (isize, isize))
    requires
        0 <= i <= s.len(),
        copy_all(s.subrange(0, i), d) is None,
    ensures
        copy_all(s, d) is None,
    decreases s.len() - i,
{
    if i < s.len() {
        reveal_with_fuel(copy_all, 2);
        assert(s.subrange(0, i + 1).drop_last() =~= s.subrange(0, i));
        lemma_copy_all_prefix(s, i + 1, d);
    } else {
        assert(s.subrange(0, i) =~= s);
    }
}

/// Whether a literal must be written in double quotes to read back as one argument.
pub open spec fn needs_quotes(t: Seq<char>) -> bool {
    t.len() == 0 || exists|i: int|
        0 <= i < t.len() && (t[i] == ',' || t[i] == '(' || t[i] == ')' || is_space(t[i]))
}

/// The text of a reference in display form (`A1`, `A1:B5`, `A1:A`, `A1:1`).
pub open spec fn ref_text(r: Reference) -> Seq<char> {
    match r {
        Reference::Single(k) => display_text(k),
        Reference::BoundedRange(a, b) => display_text(a) + seq![':'] + display_text(b),
        Reference::UnboundedColRange(a, c) => display_text(a) + seq![':'] + column_letters(c),
        Reference::UnboundedRowRange(a, w) => display_text(a) + seq![':'] + decimal_text(w as nat),
    }
}

/// The text of an expression in argument position.
pub open spec fn inner_text(e: Expr) -> Seq<char>
    decreases e, 1int,
{
    match e {
        Expr::Function { name, inputs } => name + seq!['('] + join_text(inputs) + seq![')'],
        Expr::Reference(r) => ref_text(r),
        Expr::Value(t) => if needs_quotes(t) {
            seq!['"'] + t + seq!['"']
        } else {
            t
        },
    }
}

/// The texts of arguments, separated by commas.
pub open spec fn join_text(s: Seq<Expr>) -> Seq<char>
    decreases s, 0int,
{
    if s.len() == 0 {
        Seq::empty()
    } else if s.len() == 1 {
        inner_text(s[0])
    } else {
        join_text(s.drop_last()) + seq![','] + inner_text(s.last())
    }
}

/// The text of a cell's expression: functions and references after `=`, values as they are.
pub open spec fn expr_text(e: Expr) -> Seq<char> {
    match e {
        Expr::Value(t) => t,
        _ => seq!['='] + inner_text(e),
    }
}

/// Whether a literal must be quoted in argument position.
fn quotes_needed(t: &Vec<char>) -> (r: bool)
    ensures
        r == needs_quotes(t@),
{
    if t.len() == 0 {
        return true;
    }
    let mut i: usize = 0;
    while i < t.len()
        invariant
            i <= t@.len(),
            forall|j: int|
                0 <= j < i ==> !(t@[j] == ',' || t@[j] == '(' || t@[j] == ')' || is_space(
                    #[trigger] t@[j],
                )),
        decreases t.len() - i,
    {
        let c = t[i];
        if c == ',' || c == '(' || c == ')' || is_space_char(c) {
            return true;
        }
        i += 1;
    }
    false
}

/// Appends the characters of `t`.
fn push_chars(out: &mut Vec<char>, t: &Vec<char>)
    ensures
        final(out)@ == old(out)@ + t@,
{
    let ghost start = out@;
    let mut i: usize = 0;
    while i < t.len()
        invariant
            i <= t@.len(),
            out@ == start + t@.subrange(0, i as int),
        decreases t.len() - i,
    {
        out.push(t[i]);
        i += 1;
    }
    assert(t@.subrange(0, t@.len() as int) =~= t@);
}

/// Appends the display form of a reference.
fn push_ref(out: &mut Vec<char>, r: Reference)
    ensures
        final(out)@ == old(out)@ + ref_text(r),
{
    let ghost start = out@;
    match r {
        Reference::Single(k) => push_display(out, k),
        Reference::BoundedRange(a, b) => {
            push_display(out, a);
            out.push(':');
            push_display(out, b);
        },
        Reference::UnboundedColRange(a, c) => {
            push_display(out, a);
            out.push(':');
            push_column_letters(out, c);
        },
        Reference::UnboundedRowRange(a, w) => {
            push_display(out, a);
            out.push(':');
            push_decimal(out, w);
        },
    }
    assert(out@ =~= start + ref_text(r));
}

/// Appends the text of an expression in argument position.
fn push_inner(out: &mut Vec<char>, e: &Expression)
    ensures
        final(out)@ == old(out)@ + inner_text(e@),
    decreases expr_size(e@),
{
    let ghost start = out@;
    match e {
        Expression::Function { name, inputs } => {
            proof {
                lemma_function_view(e);
            }
            let ghost model = inputs_of(e@);
            let name_chars = chars_of(name.as_str());
            push_chars(out, &name_chars);
            out.push('(');
            let ghost mid = out@;
            let mut i: usize = 0;
            while i < inputs.len()
                invariant
                    i <= inputs.len(),
                    *e == (Expression::Function { name: *name, inputs: *inputs }),
                    model == inputs_of(e@),
                    model.len() == inputs.len(),
                    forall|j: int| 0 <= j < inputs.len() ==> #[trigger] model[j] == inputs[j]@,
                    out@ == mid + join_text(model.subrange(0, i as int)),
                decreases inputs.len() - i,
            {
                proof {
                    lemma_input_smaller(e, i as int);
                    reveal_with_fuel(join_text, 2);
                    assert(model.subrange(0, i + 1).drop_last() =~= model.subrange(0, i as int));
                }
                if i > 0 {
                    out.push(',');
                }
                push_inner(out, &inputs[i]);
                i += 1;
                proof {
                    reveal_with_fuel(join_text, 2);
                    let p = model.subrange(0, i as int);
                    if i == 1 {
                        assert(p[0] == model[0]);
                        assert(join_text(p) == inner_text(model[0]));
                    }
                }
                assert(out@ =~= mid + join_text(model.subrange(0, i as int)));
            }
            out.push(')');
            assert(model.subrange(0, i as int) =~= model);
            assert(out@ =~= start + inner_text(e@));
        },
        Expression::Reference(r) => push_ref(out, *r),
        Expression::Value(v) => {
            let chars = chars_of(v.as_str());
            if quotes_needed(&chars) {
                out.push('"');
                push_chars(out, &chars);
                out.push('"');
            } else {
                push_chars(out, &chars);
            }
            assert(out@ =~= start + inner_text(e@));
        },
    }
}

impl Expression {
    /// The text of the expression: functions and references after `=`, literals as they are
    /// at the root and in double quotes in an argument when they hold a separator.
    pub fn to_string(&self) -> (r: String)
        ensures
            r@ == expr_text(self@),
    {
        let mut out: Vec<char> = Vec::new();
        match self {
            Expression::Value(v) => {
                return v.clone();
            },
            _ => {
                out.push('=');
                push_inner(&mut out, self);
            },
        }
        assert(out@ =~= expr_text(self@));
        string_of(&out)
    }
}

/// Every integer literal of the expression is written in its shortest form.
pub open spec fn canonical_values(e: Expr) -> bool
    decreases e, 1int,
{
    match e {
        Expr::Function { inputs, .. } => all_canonical(inputs),
        Expr::Reference(_) => true,
        Expr::Value(t) => match int_of_text(t) {
            Some(v) => t == signed_text(v),
            None => true,
        },
    }
}

pub open spec fn all_canonical(s: Seq<Expr>) -> bool
    decreases s, 0int,
{
    s.len() == 0 || (all_canonical(s.drop_last()) && canonical_values(s.last()))
}

/// The written form of an `isize` reads back as that number.
pub proof fn lemma_signed_round_trip(v: int)
    requires
        isize::MIN <= v <= isize::MAX,
    ensures
        int_of_text(signed_text(v)) == Some(v),
{
    if v < 0 {
        let m = (-v) as nat;
        lemma_decimal_round_trip(m);
        let t = signed_text(v);
        assert(t.drop_first() =~= decimal_text(m));
        assert(!all_digits(t)) by {
            assert(t[0] == '-');
        }
    } else {
        lemma_decimal_round_trip(v as nat);
    }
}

/// Shifting an expression and shifting the result back gives the expression again,
/// when neither step leaves a range and its integer literals are in shortest form.
pub proof fn lemma_copy_round_trip(e: Expr, d: (isize, isize), back: (isize, isize))
    requires
        back.0 == -d.0,
        back.1 == -d.1,
        canonical_values(e),
        copy_expr(e, d) is Some,
        copy_expr(copy_expr(e, d)->0, back) is Some,
    ensures
        copy_expr(copy_expr(e, d)->0, back) == Some(e),
    decreases e, 1int,
{
    reveal_with_fuel(copy_expr, 2);
    match e {
        Expr::Function { name, inputs } => {
            lemma_copy_all_round_trip(inputs, d, back);
        },
        Expr::Reference(r) => {},
        Expr::Value(t) => {
            if let Some(v) = int_of_text(t) {
                lemma_signed_round_trip(v + d.1);
            }
        },
    }
}

/// `lemma_copy_round_trip` for each expression of a sequence.
pub proof fn lemma_copy_all_round_trip(s: Seq<Expr>, d: (isize, isize), back: (isize, isize))
    requires
        back.0 == -d.0,
        back.1 == -d.1,
        all_canonical(s),
        copy_all(s, d) is Some,
        copy_all(copy_all(s, d)->0, back) is Some,
    ensures
        copy_all(copy_all(s, d)->0, back) == Some(s),
    decreases s, 0int,
{
    reveal_with_fuel(copy_all, 2);
    if s.len() > 0 {
        let a = copy_all(s.drop_last(), d)->0;
        let b = copy_expr(s.last(), d)->0;
        let c = a.push(b);
        assert(c.drop_last() =~= a);
        assert(c.last() == b);
        lemma_copy_all_round_trip(s.drop_last(), d, back);
        lemma_copy_round_trip(s.last(), d, back);
        assert(s.drop_last().push(s.last()) =~= s);
    }
}

impl Expression {
    /// Whether two expressions are the same tree.
    pub fn same_as(&self, other: &Expression) -> (r: bool)
        ensures
            r == (self@ == other@),
        decreases expr_size(self@),
    {
        match (self, other) {
            (Expression::Value(a), Expression::Value(b)) => a.eq(b),
            (Expression::Reference(a), Expression::Reference(b)) => *a == *b,
            (
                Expression::Function { name: n1, inputs: a },
                Expression::Function { name: n2, inputs: b },
            ) => {
                proof {
                    lemma_function_view(self);
                    lemma_function_view(other);
                }
                if !n1.eq(n2) || a.len() != b.len() {
                    assert(inputs_of(self@).len() != inputs_of(other@).len() || self@->Function_name != other@->Function_name);
                    return false;
                }
                let mut i: usize = 0;
                while i < a.len()
                    invariant
                        i <= a.len(),
                        a.len() == b.len(),
                        *self == (Expression::Function { name: *n1, inputs: *a }),
                        *other == (Expression::Function { name: *n2, inputs: *b }),
                        inputs_of(self@).len() == a.len(),
                        inputs_of(other@).len() == b.len(),
                        forall|j: int| 0 <= j < a.len() ==> #[trigger] inputs_of(self@)[j] == a[j]@,
                        forall|j: int| 0 <= j < b.len() ==> #[trigger] inputs_of(other@)[j] == b[j]@,
                        forall|j: int| 0 <= j < i ==> a[j]@ == b[j]@,
                    decreases a.len() - i,
                {
                    proof {
                        lemma_input_smaller(self, i as int);
                    }
                    if !a[i].same_as(&b[i]) {
                        assert(inputs_of(self@)[i as int] != inputs_of(other@)[i as int]);
                        return false;
                    }
                    i += 1;
                }
                assert(inputs_of(self@) =~= inputs_of(other@));
                true
            },
            _ => false,
        }
    }
}

impl Expression {
    /// A copy of the tree.
    pub fn duplicate(&self) -> (r: Expression)
        ensures
            r@ == self@,
        decreases expr_size(self@),
    {
        match self {
            Expression::Value(v) => Expression::Value(v.clone()),
            Expression::Reference(r) => Expression::Reference(*r),
            Expression::Function { name, inputs } => {
                proof {
                    lemma_function_view(self);
                }
                let mut out: Vec<Expression> = Vec::new();
                let mut i: usize = 0;
                while i < inputs.len()
                    invariant
                        i <= inputs.len(),
                        *self == (Expression::Function { name: *name, inputs: *inputs }),
                        inputs_of(self@).len() == inputs.len(),
                        forall|j: int| 0 <= j < inputs.len() ==> #[trigger] inputs_of(self@)[j] == inputs[j]@,
                        out@.len() == i,
                        forall|j: int| 0 <= j < i ==> #[trigger] out@[j]@ == inputs[j]@,
                    decreases inputs.len() - i,
                {
                    proof {
                        lemma_input_smaller(self, i as int);
                    }
                    out.push(inputs[i].duplicate());
                    i += 1;
                }
                let r = Expression::Function { name: name.clone(), inputs: out };
                proof {
                    lemma_function_view(&r);
                }
                assert(inputs_of(r@) =~= inputs_of(self@));
                r
            },
        }
    }
}

impl PartialEq for Expression {
    fn eq(&self, other: &Expression) -> (r: bool) {
        self.same_as(other)
    }
}

impl vstd::std_specs::cmp::PartialEqSpecImpl for Expression {
    open spec fn obeys_eq_spec() -> bool {
        true
    }

    open spec fn eq_spec(&self, other: &Expression) -> bool {
        self@ == other@
    }
}

} // verus!
