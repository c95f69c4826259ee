use vstd::prelude::*;

use crate::reference::CellPointer;

verus! {

broadcast use vstd::std_specs::vec::group_vec_axioms;

/// A value as the host sees it. The engine builds text, null and lists, and passes the rest
/// through unchanged.
#[derive(Debug)]
pub enum HostValue {
    Null,
    Text(String),
    Int(i64),
    Bool(bool),
    List(Vec<HostValue>),
}

/// The mathematical form of a host value.
pub enum Val {
    Null,
    Text(Seq<char>),
    Int(int),
    Bool(bool),
    List(Seq<Val>),
}

impl View for HostValue {
    type V = Val;

    open spec fn view(&self) -> Val
        decreases self,
    {
        match self {
            HostValue::Null => Val::Null,
            HostValue::Text(t) => Val::Text(t@),
            HostValue::Int(i) => Val::Int(*i as int),
            HostValue::Bool(b) => Val::Bool(*b),
            HostValue::List(items) => Val::List(
                Seq::new(
                    items.len() as nat,
                    |i: int|
                        if 0 <= i < items.len() {
                            items[i].view()
                        } else {
                            Val::Null
                        },
                ),
            ),
        }
    }
}

/// Number of nodes of a value, which bounds the depth of recursion over it.
pub open spec fn val_size(v: Val) -> nat
    decreases v,
{
    match v {
        Val::List(items) => 1 + vals_size(items),
        _ => 1,
    }
}

pub open spec fn vals_size(s: Seq<Val>) -> nat
    decreases s,
{
    if s.len() == 0 {
        0
    } else {
        vals_size(s.drop_last()) + val_size(s.last())
    }
}

proof fn lemma_vals_size(s: Seq<Val>, i: int)
    requires
        0 <= i < s.len(),
    ensures
        val_size(s[i]) <= vals_size(s),
    decreases s.len(),
{
    if i < s.len() - 1 {
        lemma_vals_size(s.drop_last(), i);
        assert(s.drop_last()[i] == s[i]);
    }
}

impl HostValue {
    /// Whether the value is null.
    pub fn is_null(&self) -> (r: bool)
        ensures
            r == (self@ is Null),
    {
        match self {
            HostValue::Null => true,
            _ => false,
        }
    }

    /// A copy of the value.
    pub fn duplicate(&self) -> (r: HostValue)
        ensures
            r@ == self@,
        decreases val_size(self@),
    {
        match self {
            HostValue::Null => HostValue::Null,
            HostValue::Text(t) => HostValue::Text(t.clone()),
            HostValue::Int(i) => HostValue::Int(*i),
            HostValue::Bool(b) => HostValue::Bool(*b),
            HostValue::List(items) => {
                let mut out: Vec<HostValue> = Vec::new();
                let mut i: usize = 0;
                while i < items.len()
                    invariant
                        i <= items.len(),
                        out@.len() == i,
                        self@ is List,
                        self@->List_0.len() == items.len(),
                        forall|j: int| 0 <= j < items.len() ==> #[trigger] self@->List_0[j] == items[j]@,
                        val_size(self@) == 1 + vals_size(self@->List_0),
                        forall|j: int| 0 <= j < i ==> #[trigger] out[j]@ == items[j]@,
                    decreases items.len() - i,
                {
                    proof {
                        lemma_vals_size(self@->List_0, i as int);
                    }
                    let v = items[i].duplicate();
                    out.push(v);
                    i += 1;
                }
                let r = HostValue::List(out);
                assert(r@->List_0.len() == out.len());
                assert forall|j: int| 0 <= j < out.len() implies r@->List_0[j] == out[j]@ by {}
                assert(r@->List_0 =~= self@->List_0);
                r
            },
        }
    }

    /// Whether two values are the same, by content.
    pub fn same_as(&self, other: &HostValue) -> (r: bool)
        ensures
            r == (self@ == other@),
        decreases val_size(self@),
    {
        match (self, other) {
            (HostValue::Null, HostValue::Null) => true,
            (HostValue::Text(a), HostValue::Text(b)) => a.eq(b),
            (HostValue::Int(a), HostValue::Int(b)) => *a == *b,
            (HostValue::Bool(a), HostValue::Bool(b)) => *a == *b,
            (HostValue::List(a), HostValue::List(b)) => {
                if a.len() != b.len() {
                    assert(self@->List_0.len() != other@->List_0.len());
                    return false;
                }
                let mut i: usize = 0;
                while i < a.len()
                    invariant
                        i <= a.len(),
                        a.len() == b.len(),
                        self@ is List,
                        other@ is List,
                        self@->List_0.len() == a.len(),
                        other@->List_0.len() == b.len(),
                        forall|j: int| 0 <= j < a.len() ==> #[trigger] self@->List_0[j] == a[j]@,
                        forall|j: int| 0 <= j < b.len() ==> #[trigger] other@->List_0[j] == b[j]@,
                        val_size(self@) == 1 + vals_size(self@->List_0),
                        forall|j: int| 0 <= j < i ==> a[j]@ == b[j]@,
                    decreases a.len() - i,
                {
                    proof {
                        lemma_vals_size(self@->List_0, i as int);
                    }
                    if !a[i].same_as(&b[i]) {
                        assert(self@->List_0[i as int] != other@->List_0[i as int]);
                        return false;
                    }
                    i += 1;
                }
                assert(self@->List_0 =~= other@->List_0);
                true
            },
            _ => false,
        }
    }
}

/// What the engine needs from its host: the functions that formulas call, and a sink for the
/// values that change on display.
pub trait Host {
    /// Calls the host function `name` on the evaluated arguments.
    fn call_function(&mut self, name: &str, args: Vec<HostValue>) -> Result<HostValue, HostValue>;

    /// Tells the host that the value shown for `key` is now `value`.
    fn cell_display_changed(&mut self, key: CellPointer, value: &HostValue) -> Result<(), HostValue>;
}

impl PartialEq for HostValue {
    fn eq(&self, other: &HostValue) -> (r: bool) {
        self.same_as(other)
    }
}

impl vstd::std_specs::cmp::PartialEqSpecImpl for HostValue {
    open spec fn obeys_eq_spec() -> bool {
        true
    }

    open spec fn eq_spec(&self, other: &HostValue) -> bool {
        self@ == other@
    }
}

} // verus!
