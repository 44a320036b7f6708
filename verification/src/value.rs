//! Values that processes exchange: the data of Lyric programs as the
//! runtime sees it. Functions and other runtime-only values are opaque.
use vstd::prelude::*;
use vstd::string::*;

use crate::pid::{PidView, ProcessId};

verus! {

/// Runtime-only values that have no data representation.
#[derive(Debug, Clone, Copy, PartialEq, Eq, Structural)]
pub enum Opaque {
    Lambda,
    NativeFn,
    NativeAsyncFn,
    Bytecode,
    /// The request a process read from its client connection, by number.
    RequestId(u32),
}

/// A value of a Lyric program.
#[derive(Debug, PartialEq)]
pub enum Val {
    Nil,
    Bool(bool),
    Int(i32),
    String(String),
    Symbol(String),
    Keyword(String),
    List(Vec<Val>),
    /// An evaluation error, by its message.
    Error(String),
    /// A unique reference.
    Ref(u64),
    /// A process id.
    Process(ProcessId),
    /// A function or another value that exists only inside a runtime.
    Opaque(Opaque),
}

/// The abstract value of a [Val].
pub enum ValView {
    Nil,
    Bool(bool),
    Int(i32),
    String(Seq<char>),
    Symbol(Seq<char>),
    Keyword(Seq<char>),
    List(Seq<ValView>),
    Error(Seq<char>),
    Ref(u64),
    Process(PidView),
    Opaque(Opaque),
}

/// The view of each value of a list.
pub open spec fn vals_view(s: Seq<Val>) -> Seq<ValView>
    decreases s,
{
    if s.len() == 0 {
        Seq::empty()
    } else {
        vals_view(s.drop_last()).push(val_view(s.last()))
    }
}

/// The view of a value.
pub open spec fn val_view(v: Val) -> ValView
    decreases v,
{
    match v {
        Val::Nil => ValView::Nil,
        Val::Bool(b) => ValView::Bool(b),
        Val::Int(i) => ValView::Int(i),
        Val::String(s) => ValView::String(s@),
        Val::Symbol(s) => ValView::Symbol(s@),
        Val::Keyword(s) => ValView::Keyword(s@),
        Val::List(items) => ValView::List(vals_view(items@)),
        Val::Error(s) => ValView::Error(s@),
        Val::Ref(r) => ValView::Ref(r),
        Val::Process(p) => ValView::Process(p@),
        Val::Opaque(o) => ValView::Opaque(o),
    }
}

impl View for Val {
    type V = ValView;

    open spec fn view(&self) -> ValView {
        val_view(*self)
    }
}

pub proof fn lemma_vals_view(s: Seq<Val>)
    ensures
        vals_view(s).len() == s.len(),
        forall|i: int| 0 <= i < s.len() ==> #[trigger] vals_view(s)[i] == val_view(s[i]),
    decreases s.len(),
{
    if s.len() > 0 {
        lemma_vals_view(s.drop_last());
        assert forall|i: int| 0 <= i < s.len() implies #[trigger] vals_view(s)[i] == val_view(
            s[i],
        ) by {
            if i < s.len() - 1 {
                assert(s.drop_last()[i] == s[i]);
            }
        }
    }
}

pub proof fn lemma_vals_view_push(s: Seq<Val>, v: Val)
    ensures
        vals_view(s.push(v)) == vals_view(s).push(val_view(v)),
{
    assert(s.push(v).drop_last() =~= s);
}

/// A symbol.
pub fn symbol(name: &str) -> (r: Val)
    ensures
        r@ == ValView::Symbol(name@),
{
    Val::Symbol(String::from_str(name))
}

/// A keyword.
pub fn keyword(name: &str) -> (r: Val)
    ensures
        r@ == ValView::Keyword(name@),
{
    Val::Keyword(String::from_str(name))
}

/// A string.
pub fn string(text: &str) -> (r: Val)
    ensures
        r@ == ValView::String(text@),
{
    Val::String(String::from_str(text))
}

impl Val {
    /// A copy of this value.
    pub fn duplicate(&self) -> (r: Val)
        ensures
            r@ == self@,
        decreases self,
    {
        match self {
            Val::Nil => Val::Nil,
            Val::Bool(b) => Val::Bool(*b),
            Val::Int(i) => Val::Int(*i),
            Val::String(s) => Val::String(s.clone()),
            Val::Symbol(s) => Val::Symbol(s.clone()),
            Val::Keyword(s) => Val::Keyword(s.clone()),
            Val::List(items) => Val::List(duplicate_vals(items)),
            Val::Error(s) => Val::Error(s.clone()),
            Val::Ref(r) => Val::Ref(*r),
            Val::Process(p) => Val::Process(p.duplicate()),
            Val::Opaque(o) => Val::Opaque(*o),
        }
    }
}

/// Copies of the values of a list.
pub fn duplicate_vals(items: &Vec<Val>) -> (r: Vec<Val>)
    ensures
        vals_view(r@) == vals_view(items@),
    decreases items,
{
    let mut r: Vec<Val> = Vec::new();
    let mut i: usize = 0;
    while i < items.len()
        invariant
            i <= items.len(),
            vals_view(r@) == vals_view(items@.take(i as int)),
        decreases items.len() - i,
    {
        proof {
            assert(decreases_to!(items => items@[i as int]));
        }
        let v = items[i].duplicate();
        proof {
            lemma_vals_view_push(r@, v);
            assert(items@.take(i + 1).drop_last() =~= items@.take(i as int));
        }
        r.push(v);
        i = i + 1;
    }
    proof {
        assert(items@.take(items.len() as int) =~= items@);
    }
    r
}


impl Val {
    /// Whether both are the same value.
    pub fn same(&self, other: &Val) -> (r: bool)
        ensures
            r == (self@ == other@),
        decreases self,
    {
        match (self, other) {
            (Val::Nil, Val::Nil) => true,
            (Val::Bool(a), Val::Bool(b)) => *a == *b,
            (Val::Int(a), Val::Int(b)) => *a == *b,
            (Val::String(a), Val::String(b)) => *a == *b,
            (Val::Symbol(a), Val::Symbol(b)) => *a == *b,
            (Val::Keyword(a), Val::Keyword(b)) => *a == *b,
            (Val::Error(a), Val::Error(b)) => *a == *b,
            (Val::Ref(a), Val::Ref(b)) => *a == *b,
            (Val::Process(a), Val::Process(b)) => a.same(b),
            (Val::Opaque(a), Val::Opaque(b)) => *a == *b,
            (Val::List(a), Val::List(b)) => same_vals(a, b),
            _ => false,
        }
    }
}

/// Whether both lists hold the same values.
pub fn same_vals(a: &Vec<Val>, b: &Vec<Val>) -> (r: bool)
    ensures
        r == (vals_view(a@) == vals_view(b@)),
    decreases a,
{
    proof {
        lemma_vals_view(a@);
        lemma_vals_view(b@);
    }
    if a.len() != b.len() {
        return false;
    }
    let mut i: usize = 0;
    while i < a.len()
        invariant
            a.len() == b.len(),
            i <= a.len(),
            vals_view(a@).len() == a.len(),
            vals_view(b@).len() == b.len(),
            forall|j: int| 0 <= j < a.len() ==> #[trigger] vals_view(a@)[j] == val_view(a@[j]),
            forall|j: int| 0 <= j < b.len() ==> #[trigger] vals_view(b@)[j] == val_view(b@[j]),
            forall|j: int| 0 <= j < i ==> vals_view(a@)[j] == vals_view(b@)[j],
        decreases a.len() - i,
    {
        proof {
            assert(decreases_to!(a => a@[i as int]));
        }
        if !a[i].same(&b[i]) {
            proof {
                assert(vals_view(a@)[i as int] != vals_view(b@)[i as int]);
            }
            return false;
        }
        i = i + 1;
    }
    proof {
        assert(vals_view(a@) =~= vals_view(b@));
    }
    true
}

/// A list value.
pub fn list(items: Vec<Val>) -> (r: Val)
    ensures
        r@ == ValView::List(vals_view(items@)),
{
    Val::List(items)
}

} // verus!
