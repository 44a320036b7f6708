//! Values as they cross node links: the data subset of [Val], which keeps
//! process addresses and leaves runtime-only values behind.
use vstd::prelude::*;

use crate::pid::{PidView, ProcessId};
use crate::value::{lemma_vals_view, lemma_vals_view_push, val_view, vals_view, Val, ValView};

verus! {

/// A value that can be sent to another node.
#[derive(Debug)]
pub enum WireVal {
    Nil,
    Bool(bool),
    Int(i32),
    String(String),
    Symbol(String),
    Keyword(String),
    List(Vec<WireVal>),
    Error(String),
    Ref(u64),
    Process(ProcessId),
}

/// The abstract value of a [WireVal].
pub enum WireView {
    Nil,
    Bool(bool),
    Int(i32),
    String(Seq<char>),
    Symbol(Seq<char>),
    Keyword(Seq<char>),
    List(Seq<WireView>),
    Error(Seq<char>),
    Ref(u64),
    Process(PidView),
}

/// Why a value cannot cross nodes.
#[derive(Debug, Clone, Copy, PartialEq, Eq, Structural)]
pub enum WireError {
    /// The message holds a function or another runtime-only value.
    CannotCrossNodes,
}

pub open spec fn wires_view(s: Seq<WireVal>) -> Seq<WireView>
    decreases s,
{
    if s.len() == 0 {
        Seq::empty()
    } else {
        wires_view(s.drop_last()).push(wire_view(s.last()))
    }
}

pub open spec fn wire_view(w: WireVal) -> WireView
    decreases w,
{
    match w {
        WireVal::Nil => WireView::Nil,
        WireVal::Bool(b) => WireView::Bool(b),
        WireVal::Int(i) => WireView::Int(i),
        WireVal::String(s) => WireView::String(s@),
        WireVal::Symbol(s) => WireView::Symbol(s@),
        WireVal::Keyword(s) => WireView::Keyword(s@),
        WireVal::List(items) => WireView::List(wires_view(items@)),
        WireVal::Error(s) => WireView::Error(s@),
        WireVal::Ref(r) => WireView::Ref(r),
        WireVal::Process(p) => WireView::Process(p@),
    }
}

impl View for WireVal {
    type V = WireView;

    open spec fn view(&self) -> WireView {
        wire_view(*self)
    }
}

/// `v` holds no runtime-only value, at any depth.
pub open spec fn crosses(v: ValView) -> bool
    decreases v,
{
    match v {
        ValView::List(items) => crosses_all(items),
        ValView::Opaque(_) => false,
        _ => true,
    }
}

pub open spec fn crosses_all(s: Seq<ValView>) -> bool
    decreases s,
{
    if s.len() == 0 {
        true
    } else {
        crosses_all(s.drop_last()) && crosses(s.last())
    }
}

/// The value that a wire value stands for.
pub open spec fn val_of(w: WireView) -> ValView
    decreases w,
{
    match w {
        WireView::Nil => ValView::Nil,
        WireView::Bool(b) => ValView::Bool(b),
        WireView::Int(i) => ValView::Int(i),
        WireView::String(s) => ValView::String(s),
        WireView::Symbol(s) => ValView::Symbol(s),
        WireView::Keyword(s) => ValView::Keyword(s),
        WireView::List(items) => ValView::List(vals_of(items)),
        WireView::Error(s) => ValView::Error(s),
        WireView::Ref(r) => ValView::Ref(r),
        WireView::Process(p) => ValView::Process(p),
    }
}

pub open spec fn vals_of(s: Seq<WireView>) -> Seq<ValView>
    decreases s,
{
    if s.len() == 0 {
        Seq::empty()
    } else {
        vals_of(s.drop_last()).push(val_of(s.last()))
    }
}

proof fn lemma_crosses_all(s: Seq<ValView>)
    ensures
        crosses_all(s) == forall|i: int| 0 <= i < s.len() ==> crosses(#[trigger] s[i]),
    decreases s.len(),
{
    if s.len() > 0 {
        lemma_crosses_all(s.drop_last());
        if crosses_all(s) {
            assert forall|i: int| 0 <= i < s.len() implies crosses(#[trigger] s[i]) by {
                if i < s.len() - 1 {
                    assert(s.drop_last()[i] == s[i]);
                }
            }
        }
        if forall|i: int| 0 <= i < s.len() ==> crosses(#[trigger] s[i]) {
            assert forall|i: int| 0 <= i < s.drop_last().len() implies crosses(
                #[trigger] s.drop_last()[i],
            ) by {
                assert(s.drop_last()[i] == s[i]);
            }
            assert(crosses(s[s.len() - 1]));
        }
    }
}

proof fn lemma_wires_view_push(s: Seq<WireVal>, w: WireVal)
    ensures
        wires_view(s.push(w)) == wires_view(s).push(wire_view(w)),
{
    assert(s.push(w).drop_last() =~= s);
}

proof fn lemma_vals_of_push(s: Seq<WireView>, w: WireView)
    ensures
        vals_of(s.push(w)) == vals_of(s).push(val_of(w)),
{
    assert(s.push(w).drop_last() =~= s);
}

proof fn lemma_crosses_all_push(s: Seq<ValView>, v: ValView)
    ensures
        crosses_all(s.push(v)) == (crosses_all(s) && crosses(v)),
{
    assert(s.push(v).drop_last() =~= s);
}

impl WireVal {
    /// The wire form of `value`; values that hold a function or another
    /// runtime-only value cannot cross nodes.
    pub fn from_val(value: &Val) -> (r: Result<WireVal, WireError>)
        ensures
            r is Ok == crosses(value@),
            r matches Ok(w) ==> val_of(w@) == value@,
            r is Err ==> r == Err::<WireVal, WireError>(WireError::CannotCrossNodes),
        decreases value,
    {
        match value {
            Val::Nil => Ok(WireVal::Nil),
            Val::Bool(b) => Ok(WireVal::Bool(*b)),
            Val::Int(i) => Ok(WireVal::Int(*i)),
            Val::String(s) => Ok(WireVal::String(s.clone())),
            Val::Symbol(s) => Ok(WireVal::Symbol(s.clone())),
            Val::Keyword(s) => Ok(WireVal::Keyword(s.clone())),
            Val::Error(s) => Ok(WireVal::Error(s.clone())),
            Val::Ref(r) => Ok(WireVal::Ref(*r)),
            Val::Process(p) => Ok(WireVal::Process(p.duplicate())),
            Val::Opaque(_) => Err(WireError::CannotCrossNodes),
            Val::List(items) => match WireVal::from_vals(items) {
                Ok(ws) => Ok(WireVal::List(ws)),
                Err(e) => Err(e),
            },
        }
    }

    /// The wire forms of the values of a list.
    pub fn from_vals(items: &Vec<Val>) -> (r: Result<Vec<WireVal>, WireError>)
        ensures
            r is Ok == crosses_all(vals_view(items@)),
            r matches Ok(ws) ==> vals_of(wires_view(ws@)) == vals_view(items@),
            r is Err ==> r == Err::<Vec<WireVal>, WireError>(WireError::CannotCrossNodes),
        decreases items,
    {
        let mut out: Vec<WireVal> = Vec::new();
        let mut i: usize = 0;
        while i < items.len()
            invariant
                i <= items.len(),
                vals_of(wires_view(out@)) == vals_view(items@.take(i as int)),
                crosses_all(vals_view(items@.take(i as int))),
            decreases items.len() - i,
        {
            proof {
                assert(decreases_to!(items => items@[i as int]));
                assert(items@.take(i + 1).drop_last() =~= items@.take(i as int));
                lemma_vals_view_push(items@.take(i as int), items@[i as int]);
                assert(items@.take(i + 1) =~= items@.take(i as int).push(items@[i as int]));
            }
            match WireVal::from_val(&items[i]) {
                Ok(w) => {
                    proof {
                        lemma_wires_view_push(out@, w);
                        lemma_vals_of_push(wires_view(out@), w@);
                        lemma_crosses_all_push(
                            vals_view(items@.take(i as int)),
                            val_view(items@[i as int]),
                        );
                    }
                    out.push(w);
                },
                Err(e) => {
                    proof {
                        lemma_vals_view(items@);
                        lemma_crosses_all(vals_view(items@));
                        assert(!crosses(vals_view(items@)[i as int]));
                    }
                    return Err(e);
                },
            }
            i = i + 1;
        }
        proof {
            assert(items@.take(items.len() as int) =~= items@);
        }
        Ok(out)
    }

    /// The value this wire value stands for.
    pub fn into_val(&self) -> (r: Val)
        ensures
            r@ == val_of(self@),
        decreases self,
    {
        match self {
            WireVal::Nil => Val::Nil,
            WireVal::Bool(b) => Val::Bool(*b),
            WireVal::Int(i) => Val::Int(*i),
            WireVal::String(s) => Val::String(s.clone()),
            WireVal::Symbol(s) => Val::Symbol(s.clone()),
            WireVal::Keyword(s) => Val::Keyword(s.clone()),
            WireVal::Error(s) => Val::Error(s.clone()),
            WireVal::Ref(r) => Val::Ref(*r),
            WireVal::Process(p) => Val::Process(p.duplicate()),
            WireVal::List(items) => Val::List(WireVal::into_vals(items)),
        }
    }

    /// The values that the wire values of a list stand for.
    pub fn into_vals(items: &Vec<WireVal>) -> (r: Vec<Val>)
        ensures
            vals_view(r@) == vals_of(wires_view(items@)),
        decreases items,
    {
        let mut out: Vec<Val> = Vec::new();
        let mut i: usize = 0;
        while i < items.len()
            invariant
                i <= items.len(),
                vals_view(out@) == vals_of(wires_view(items@.take(i as int))),
            decreases items.len() - i,
        {
            proof {
                assert(decreases_to!(items => items@[i as int]));
                assert(items@.take(i + 1).drop_last() =~= items@.take(i as int));
                lemma_wires_view_push(items@.take(i as int), items@[i as int]);
                assert(items@.take(i + 1) =~= items@.take(i as int).push(items@[i as int]));
            }
            let v = items[i].into_val();
            proof {
                lemma_vals_view_push(out@, v);
                lemma_vals_of_push(wires_view(items@.take(i as int)), items@[i as int]@);
            }
            out.push(v);
            i = i + 1;
        }
        proof {
            assert(items@.take(items.len() as int) =~= items@);
        }
        out
    }
}

/// Every value that came across a node link can cross again, and no two
/// wire values stand for the same value: sending a value and reading it
/// back gives the value itself, process addresses included.
pub proof fn law_wire_round_trip(a: WireView, b: WireView)
    ensures
        crosses(val_of(a)),
        val_of(a) == val_of(b) ==> a == b,
    decreases a,
{
    match a {
        WireView::List(items) => {
            lemma_crosses_vals_of(items);
            if val_of(a) == val_of(b) {
                match b {
                    WireView::List(bitems) => {
                        lemma_vals_of_injective(items, bitems);
                    },
                    _ => {},
                }
            }
        },
        _ => {},
    }
}

proof fn lemma_crosses_vals_of(s: Seq<WireView>)
    ensures
        crosses_all(vals_of(s)),
    decreases s,
{
    if s.len() > 0 {
        lemma_crosses_vals_of(s.drop_last());
        law_wire_round_trip(s.last(), s.last());
        lemma_crosses_all_push(vals_of(s.drop_last()), val_of(s.last()));
    }
}

proof fn lemma_vals_of_injective(a: Seq<WireView>, b: Seq<WireView>)
    requires
        vals_of(a) == vals_of(b),
    ensures
        a == b,
    decreases a,
{
    lemma_vals_of_len(a);
    lemma_vals_of_len(b);
    if a.len() > 0 {
        let pa = vals_of(a.drop_last());
        let pb = vals_of(b.drop_last());
        assert(vals_of(a).drop_last() =~= pa);
        assert(vals_of(b).drop_last() =~= pb);
        lemma_vals_of_injective(a.drop_last(), b.drop_last());
        assert(vals_of(a).last() == val_of(a.last()));
        law_wire_round_trip(a.last(), b.last());
        assert(a =~= a.drop_last().push(a.last()));
        assert(b =~= b.drop_last().push(b.last()));
    }
}

proof fn lemma_vals_of_len(s: Seq<WireView>)
    ensures
        vals_of(s).len() == s.len(),
    decreases s.len(),
{
    if s.len() > 0 {
        lemma_vals_of_len(s.drop_last());
    }
}

} // verus!
