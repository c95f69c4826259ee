use vstd::prelude::*;

use crate::error::{ExpressionError, SheetError};
use crate::expression::{inputs_of, lemma_function_view, Expr, Expression};
use crate::reference::{reference_of, Reference};
use crate::text::{chars_of, slice_chars, string_of, trim_chars, trimmed};

verus! {

broadcast use vstd::std_specs::vec::group_vec_axioms;

/// The state of the left-to-right scan of a formula.
pub struct ScanState {
    /// How many brackets are open.
    pub depth: nat,
    /// The characters of the current argument or atom.
    pub taken: Seq<char>,
    /// Whether the scan is inside double quotes.
    pub quoting: bool,
    /// The name of the function under construction (once a bracket is open).
    pub name: Seq<char>,
    /// The arguments parsed so far.
    pub args: Seq<Expr>,
}

pub open spec fn initial_scan() -> ScanState {
    ScanState { depth: 0, taken: Seq::empty(), quoting: false, name: Seq::empty(), args: Seq::empty() }
}

pub open spec fn pushed(st: ScanState, c: char) -> ScanState {
    ScanState { taken: st.taken.push(c), ..st }
}

/// A text in double quotes, with no quote inside.
pub open spec fn is_quoted(t: Seq<char>) -> bool {
    &&& t.len() >= 2
    &&& t[0] == '"'
    &&& t.last() == '"'
    &&& forall|i: int| 0 < i < t.len() - 1 ==> #[trigger] t[i] != '"'
}

/// What a bare atom stands for: a quoted literal, a reference, or plain text.
pub open spec fn atom_of(t: Seq<char>) -> Expr {
    if is_quoted(t) {
        Expr::Value(t.subrange(1, t.len() - 1))
    } else {
        match reference_of(t) {
            Some(r) => Expr::Reference(r),
            None => Expr::Value(t),
        }
    }
}

/// The expression a text denotes. At the root, a text without a leading `=` is a literal
/// value; an argument is parsed whether or not it starts with `=`.
pub open spec fn parse_text(s: Seq<char>, root: bool) -> Result<Expr, ExpressionError>
    decreases s.len(), 1int, 0int,
{
    if s.len() > 0 && s[0] == '=' {
        scan(s.drop_first(), 0, initial_scan())
    } else if root {
        Ok(Expr::Value(s))
    } else {
        scan(s, 0, initial_scan())
    }
}

/// The rest of the scan of `s` from position `i` in state `st`.
pub open spec fn scan(s: Seq<char>, i: int, st: ScanState) -> Result<Expr, ExpressionError>
    decreases s.len(), 0int, s.len() - i,
{
    if i < 0 || i >= s.len() {
        if st.depth > 0 {
            Err(ExpressionError::UnclosedFunction)
        } else if st.quoting {
            Err(ExpressionError::UnclosedQuote)
        } else {
            Ok(atom_of(trimmed(st.taken)))
        }
    } else {
        let c = s[i];
        if c == '"' {
            scan(s, i + 1, ScanState { quoting: !st.quoting, ..pushed(st, c) })
        } else if st.quoting {
            scan(s, i + 1, pushed(st, c))
        } else if c == ',' {
            if st.depth == 0 {
                Err(ExpressionError::CommaAtRoot)
            } else if st.depth > 1 {
                scan(s, i + 1, pushed(st, c))
            } else if st.taken.len() == 0 {
                Err(ExpressionError::EmptyArgument)
            } else {
                let t = trimmed(st.taken);
                if t.len() == 0 {
                    scan(s, i + 1, ScanState { taken: Seq::empty(), ..st })
                } else if t.len() < s.len() {
                    match parse_text(t, false) {
                        Err(e) => Err(e),
                        Ok(x) => scan(
                            s,
                            i + 1,
                            ScanState { taken: Seq::empty(), args: st.args.push(x), ..st },
                        ),
                    }
                } else {
                    Err(ExpressionError::EmptyArgument)
                }
            }
        } else if c == '(' {
            if st.depth == 0 {
                scan(
                    s,
                    i + 1,
                    ScanState {
                        depth: 1,
                        taken: Seq::empty(),
                        quoting: false,
                        name: trimmed(st.taken),
                        args: Seq::empty(),
                    },
                )
            } else {
                scan(s, i + 1, ScanState { depth: st.depth + 1, ..pushed(st, c) })
            }
        } else if c == ')' {
            if st.depth == 0 {
                Err(ExpressionError::UnopenedFunction)
            } else if st.depth > 1 {
                scan(s, i + 1, ScanState { depth: (st.depth - 1) as nat, ..pushed(st, c) })
            } else {
                let t = trimmed(st.taken);
                if t.len() == 0 {
                    Ok(Expr::Function { name: st.name, inputs: st.args })
                } else if t.len() < s.len() {
                    match parse_text(t, false) {
                        Err(e) => Err(e),
                        Ok(x) => Ok(Expr::Function { name: st.name, inputs: st.args.push(x) }),
                    }
                } else {
                    Err(ExpressionError::UnclosedFunction)
                }
            }
        } else {
            scan(s, i + 1, pushed(st, c))
        }
    }
}

/// Reads a bare atom.
fn atom(t: &Vec<char>) -> (r: Expression)
    ensures
        r@ == atom_of(t@),
{
    let n = t.len();
    if n >= 2 && t[0] == '"' && t[n - 1] == '"' {
        let mut i: usize = 1;
        while i < n - 1 && t[i] != '"'
            invariant
                1 <= i <= n - 1,
                n == t@.len(),
                forall|j: int| 0 < j < i ==> #[trigger] t@[j] != '"',
            decreases n - i,
        {
            i += 1;
        }
        if i == n - 1 {
            let inner = slice_chars(t, 1, n - 1);
            return Expression::Value(string_of(&inner));
        }
    }
    match Reference::parse_chars(t) {
        Ok(r) => Expression::Reference(r),
        Err(_) => Expression::Value(string_of(t)),
    }
}

/// Parses a formula text; see `parse_text`.
pub fn parse_inner(input: &Vec<char>, root: bool) -> (r: Result<Expression, ExpressionError>)
    ensures
        r matches Ok(e) ==> parse_text(input@, root) == Ok::<Expr, ExpressionError>(e@),
        r matches Err(x) ==> parse_text(input@, root) == Err::<Expr, ExpressionError>(x),
    decreases input@.len(),
{
    let n = input.len();
    let body: Vec<char>;
    if n > 0 && input[0] == '=' {
        body = slice_chars(input, 1, n);
        assert(body@ =~= input@.drop_first());
    } else if root {
        return Ok(Expression::Value(string_of(input)));
    } else {
        body = slice_chars(input, 0, n);
        assert(body@ =~= input@);
    }
    let m = body.len();
    let mut depth: usize = 0;
    let mut taken: Vec<char> = Vec::new();
    let mut quoting = false;
    let mut name: Vec<char> = Vec::new();
    let mut args: Vec<Expression> = Vec::new();
    let ghost model: Seq<Expr> = Seq::empty();
    let mut i: usize = 0;
    while i < m
        invariant
            m == body@.len(),
            m <= input@.len(),
            parse_text(input@, root) == scan(body@, 0, initial_scan()),
            i <= m,
            taken@.len() <= i,
            depth <= i,
            args@.len() == model.len(),
            forall|j: int| 0 <= j < model.len() ==> #[trigger] args@[j]@ == model[j],
            scan(body@, 0, initial_scan()) == scan(
                body@,
                i as int,
                ScanState {
                    depth: depth as nat,
                    taken: taken@,
                    quoting: quoting,
                    name: name@,
                    args: model,
                },
            ),
        decreases m - i,
    {
        let c = body[i];
        if c == '"' {
            quoting = !quoting;
            taken.push(c);
        } else if quoting {
            taken.push(c);
        } else if c == ',' {
            if depth == 0 {
                return Err(ExpressionError::CommaAtRoot);
            }
            if depth > 1 {
                taken.push(c);
            } else {
                if taken.len() == 0 {
                    return Err(ExpressionError::EmptyArgument);
                }
                let t = trim_chars(&taken);
                if t.len() > 0 {
                    let x = match parse_inner(&t, false) {
                        Ok(x) => x,
                        Err(e) => {
                            return Err(e);
                        },
                    };
                    proof {
                        model = model.push(x@);
                    }
                    args.push(x);
                }
                taken = Vec::new();
            }
        } else if c == '(' {
            if depth == 0 {
                name = trim_chars(&taken);
                taken = Vec::new();
                args = Vec::new();
                proof {
                    model = Seq::empty();
                }
                quoting = false;
            } else {
                taken.push(c);
            }
            depth = depth + 1;
        } else if c == ')' {
            if depth == 0 {
                return Err(ExpressionError::UnopenedFunction);
            }
            depth = depth - 1;
            if depth > 0 {
                taken.push(c);
            } else {
                let t = trim_chars(&taken);
                if t.len() > 0 {
                    let x = match parse_inner(&t, false) {
                        Ok(x) => x,
                        Err(e) => {
                            return Err(e);
                        },
                    };
                    proof {
                        model = model.push(x@);
                    }
                    args.push(x);
                }
                let f = Expression::Function { name: string_of(&name), inputs: args };
                proof {
                    lemma_function_view(&f);
                }
                assert(inputs_of(f@) =~= model);
                return Ok(f);
            }
        } else {
            taken.push(c);
        }
        i += 1;
    }
    if depth > 0 {
        return Err(ExpressionError::UnclosedFunction);
    }
    if quoting {
        return Err(ExpressionError::UnclosedQuote);
    }
    let t = trim_chars(&taken);
    Ok(atom(&t))
}

impl Expression {
    /// Parses the raw text of a cell.
    pub fn parse(input: &str) -> (r: Result<Expression, SheetError>)
        ensures
            r matches Ok(e) ==> parse_text(input@, true) == Ok::<Expr, ExpressionError>(e@),
            r matches Err(x) ==> x matches SheetError::BadExpression(k) && parse_text(input@, true)
                == Err::<Expr, ExpressionError>(k),
    {
        let chars = chars_of(input);
        match parse_inner(&chars, true) {
            Ok(e) => Ok(e),
            Err(k) => Err(SheetError::BadExpression(k)),
        }
    }
}

/// Parses the raw text of a cell; the same as `Expression::parse`.
pub fn parse_expression(input: &str) -> (r: Result<Expression, SheetError>)
    ensures
        r matches Ok(e) ==> parse_text(input@, true) == Ok::<Expr, ExpressionError>(e@),
        r matches Err(x) ==> x matches SheetError::BadExpression(k) && parse_text(input@, true)
            == Err::<Expr, ExpressionError>(k),
{
    Expression::parse(input)
}

} // verus!
