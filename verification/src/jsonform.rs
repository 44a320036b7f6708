//! Observation records as ordinary Lyric data. Records are JSON; Lyric has
//! 32-bit integers, so larger numbers travel as decimal strings, and the
//! counters and timestamps among them are read back as numbers. Objects
//! become property lists; arrays become lists.
use vstd::prelude::*;

use crate::text::{decimal, format_u128, lemma_decimal, parse_u64, spec_parse_u64, str_eq};
use crate::value::{
    keyword, lemma_vals_view, lemma_vals_view_push, val_view, vals_view, Val, ValView,
};

verus! {

/// A JSON value. Integers are exact; other numbers are kept by their text.
#[derive(Debug, PartialEq)]
pub enum Json {
    Null,
    Bool(bool),
    Int(i128),
    Float(String),
    String(String),
    Array(Vec<Json>),
    Object(Vec<(String, Json)>),
}

pub enum JsonView {
    Null,
    Bool(bool),
    Int(i128),
    Float(Seq<char>),
    String(Seq<char>),
    Array(Seq<JsonView>),
    Object(Seq<(Seq<char>, JsonView)>),
}

pub open spec fn jsons_view(s: Seq<Json>) -> Seq<JsonView>
    decreases s,
{
    if s.len() == 0 {
        Seq::empty()
    } else {
        jsons_view(s.drop_last()).push(json_view(s.last()))
    }
}

pub open spec fn members_view(s: Seq<(String, Json)>) -> Seq<(Seq<char>, JsonView)>
    decreases s,
{
    if s.len() == 0 {
        Seq::empty()
    } else {
        members_view(s.drop_last()).push((s.last().0@, json_view(s.last().1)))
    }
}

pub open spec fn json_view(j: Json) -> JsonView
    decreases j,
{
    match j {
        Json::Null => JsonView::Null,
        Json::Bool(b) => JsonView::Bool(b),
        Json::Int(n) => JsonView::Int(n),
        Json::Float(t) => JsonView::Float(t@),
        Json::String(s) => JsonView::String(s@),
        Json::Array(items) => JsonView::Array(jsons_view(items@)),
        Json::Object(members) => JsonView::Object(members_view(members@)),
    }
}

impl View for Json {
    type V = JsonView;

    open spec fn view(&self) -> JsonView {
        json_view(*self)
    }
}

pub proof fn lemma_jsons_view(s: Seq<Json>)
    ensures
        jsons_view(s).len() == s.len(),
        forall|i: int| 0 <= i < s.len() ==> #[trigger] jsons_view(s)[i] == json_view(s[i]),
    decreases s.len(),
{
    if s.len() > 0 {
        lemma_jsons_view(s.drop_last());
        assert forall|i: int| 0 <= i < s.len() implies #[trigger] jsons_view(s)[i] == json_view(
            s[i],
        ) by {
            if i < s.len() - 1 {
                assert(s.drop_last()[i] == s[i]);
            }
        }
    }
}

pub proof fn lemma_members_view(s: Seq<(String, Json)>)
    ensures
        members_view(s).len() == s.len(),
        forall|i: int| 0 <= i < s.len() ==> #[trigger] members_view(s)[i] == (s[i].0@, json_view(s[i].1)),
    decreases s.len(),
{
    if s.len() > 0 {
        lemma_members_view(s.drop_last());
        assert forall|i: int| 0 <= i < s.len() implies #[trigger] members_view(s)[i] == (
            s[i].0@,
            json_view(s[i].1),
        ) by {
            if i < s.len() - 1 {
                assert(s.drop_last()[i] == s[i]);
            }
        }
    }
}

/// `n` in decimal, with a minus sign where it is negative.
pub open spec fn signed_decimal(n: int) -> Seq<char> {
    if n < 0 {
        seq!['-'] + decimal((-n) as nat)
    } else {
        decimal(n as nat)
    }
}

/// A JSON value as Lyric data.
pub open spec fn spec_to_form(j: JsonView) -> ValView
    decreases j,
{
    match j {
        JsonView::Null => ValView::Nil,
        JsonView::Bool(b) => ValView::Bool(b),
        JsonView::Int(n) => if i32::MIN <= n <= i32::MAX {
            ValView::Int(n as i32)
        } else {
            ValView::String(signed_decimal(n as int))
        },
        JsonView::Float(t) => ValView::String(t),
        JsonView::String(s) => ValView::String(s),
        JsonView::Array(items) => ValView::List(
            Seq::new(
                items.len(),
                |i: int|
                    if 0 <= i < items.len() {
                        spec_to_form(items[i])
                    } else {
                        ValView::Nil
                    },
            ),
        ),
        JsonView::Object(members) => ValView::List(
            Seq::new(
                2 * members.len(),
                |k: int|
                    if k % 2 == 0 {
                        ValView::Keyword(members[k / 2].0)
                    } else if 0 <= k / 2 < members.len() {
                        spec_to_form(members[k / 2].1)
                    } else {
                        ValView::Nil
                    },
            ),
        ),
    }
}

/// The property list of object members as Lyric data: each key as a
/// keyword, then its value.
pub open spec fn plist(members: Seq<(Seq<char>, JsonView)>) -> Seq<ValView> {
    Seq::new(
        2 * members.len(),
        |k: int|
            if k % 2 == 0 {
                ValView::Keyword(members[k / 2].0)
            } else if 0 <= k / 2 < members.len() {
                spec_to_form(members[k / 2].1)
            } else {
                ValView::Nil
            },
    )
}

/// `n` in decimal, with a minus sign where it is negative.
pub fn format_i128(n: i128) -> (r: String)
    ensures
        r@ == signed_decimal(n as int),
{
    if n < 0 {
        let m: u128 = ((0 - (n + 1)) as u128) + 1;
        let mut s = String::from_str("-");
        let d = format_u128(m);
        proof {
            reveal_strlit("-");
            assert((-n) as nat == m as nat);
        }
        s.append(d.as_str());
        s
    } else {
        format_u128(n as u128)
    }
}

/// A JSON value as Lyric data: integers that fit in 32 bits as integers,
/// other numbers as their decimal text, objects as property lists.
pub fn to_form(j: &Json) -> (r: Val)
    ensures
        r@ == spec_to_form(j@),
    decreases j,
{
    match j {
        Json::Null => Val::Nil,
        Json::Bool(b) => Val::Bool(*b),
        Json::Int(n) => {
            if -2147483648 <= *n && *n <= 2147483647 {
                Val::Int(*n as i32)
            } else {
                Val::String(format_i128(*n))
            }
        },
        Json::Float(t) => Val::String(t.clone()),
        Json::String(s) => Val::String(s.clone()),
        Json::Array(items) => {
            let r = to_form_items(items);
            proof {
                lemma_jsons_view(items@);
                assert(vals_view(r@) =~= Seq::new(
                    jsons_view(items@).len(),
                    |i: int|
                        if 0 <= i < jsons_view(items@).len() {
                            spec_to_form(jsons_view(items@)[i])
                        } else {
                            ValView::Nil
                        },
                ));
                assert(spec_to_form(j@)->List_0 =~= vals_view(r@));
            }
            Val::List(r)
        },
        Json::Object(members) => {
            let r = to_form_members(members);
            proof {
                lemma_members_view(members@);
                assert(vals_view(r@) =~= plist(members_view(members@)));
                assert(spec_to_form(j@)->List_0 =~= plist(members_view(members@)));
            }
            Val::List(r)
        },
    }
}

fn to_form_items(items: &Vec<Json>) -> (r: Vec<Val>)
    ensures
        vals_view(r@) == Seq::new(items.len() as nat, |i: int| spec_to_form(items@[i]@)),
    decreases items,
{
    let mut r: Vec<Val> = Vec::new();
    let mut i: usize = 0;
    while i < items.len()
        invariant
            i <= items.len(),
            vals_view(r@) =~= Seq::new(i as nat, |k: int| spec_to_form(items@[k]@)),
        decreases items.len() - i,
    {
        proof {
            assert(decreases_to!(items => items@[i as int]));
        }
        let v = to_form(&items[i]);
        proof {
            lemma_vals_view_push(r@, v);
        }
        r.push(v);
        i = i + 1;
    }
    r
}

fn to_form_members(members: &Vec<(String, Json)>) -> (r: Vec<Val>)
    ensures
        vals_view(r@) == Seq::new(
            2 * members.len() as nat,
            |k: int|
                if k % 2 == 0 {
                    ValView::Keyword(members@[k / 2].0@)
                } else {
                    spec_to_form(members@[k / 2].1@)
                },
        ),
    decreases members,
{
    let mut r: Vec<Val> = Vec::new();
    let mut i: usize = 0;
    while i < members.len()
        invariant
            i <= members.len(),
            vals_view(r@) =~= Seq::new(
                2 * i as nat,
                |k: int|
                    if k % 2 == 0 {
                        ValView::Keyword(members@[k / 2].0@)
                    } else {
                        spec_to_form(members@[k / 2].1@)
                    },
            ),
        decreases members.len() - i,
    {
        proof {
            assert(decreases_to!(members => members@[i as int]));
            assert(decreases_to!(members@[i as int] => members@[i as int].1));
        }
        let k = keyword(members[i].0.as_str());
        let v = to_form(&members[i].1);
        proof {
            lemma_vals_view_push(r@, k);
            lemma_vals_view_push(r@.push(k), v);
        }
        r.push(k);
        r.push(v);
        i = i + 1;
    }
    r
}

/// Keys whose values are counters or timestamps.
pub open spec fn counter_key(k: Seq<char>) -> bool {
    ||| k == "cursor"@
    ||| k == "sequence"@
    ||| k == "started_ms"@
    ||| k == "elapsed_us"@
    ||| k == "dropped"@
    ||| k == "evicted"@
}

/// A member's value as read back: under a counter key, decimal text that
/// `u64::from_str` accepts is the number again.
pub open spec fn member_value(key: Seq<char>, v: JsonView) -> JsonView {
    match v {
        JsonView::String(s) => if counter_key(key) && spec_parse_u64(s) is Some {
            JsonView::Int(spec_parse_u64(s)->Some_0 as i128)
        } else {
            v
        },
        _ => v,
    }
}

/// Whether Lyric data is plain data: no errors, references, processes or
/// runtime-only values, at any depth.
pub open spec fn form_like(v: ValView) -> bool
    decreases v,
{
    match v {
        ValView::List(items) => forall|i: int| 0 <= i < items.len() ==> form_like(#[trigger] items[i]),
        ValView::Error(_) => false,
        ValView::Ref(_) => false,
        ValView::Process(_) => false,
        ValView::Opaque(_) => false,
        _ => true,
    }
}

/// How many pairs of a keyword and a value a list starts with, counted
/// from pair `p`.
pub open spec fn keyword_pairs(items: Seq<ValView>, p: nat) -> nat
    decreases items.len() - 2 * p,
{
    if 2 * p + 1 < items.len() && items[2 * p as int] is Keyword {
        1 + keyword_pairs(items, p + 1)
    } else {
        0
    }
}

/// The name of a keyword.
pub open spec fn key_name(v: ValView) -> Seq<char> {
    match v {
        ValView::Keyword(k) => k,
        _ => Seq::empty(),
    }
}

/// Whether a list reads back as an object: it starts with a keyword and
/// has an even length.
pub open spec fn is_plist(items: Seq<ValView>) -> bool {
    items.len() > 0 && items[0] is Keyword && items.len() % 2 == 0
}

/// Lyric data as JSON: keywords and symbols as text; a list that starts
/// with a keyword and has an even length as an object of its leading
/// keyword-value pairs; any other list as an array.
pub open spec fn spec_from_form(v: ValView) -> JsonView
    decreases v,
{
    match v {
        ValView::Nil => JsonView::Null,
        ValView::Bool(b) => JsonView::Bool(b),
        ValView::Int(i) => JsonView::Int(i as i128),
        ValView::String(s) => JsonView::String(s),
        ValView::Keyword(k) => JsonView::String(k),
        ValView::Symbol(s) => JsonView::String(s),
        ValView::List(items) => if is_plist(items) {
            JsonView::Object(
                Seq::new(
                    keyword_pairs(items, 0),
                    |q: int|
                        if 0 <= 2 * q + 1 < items.len() {
                            (
                                key_name(items[2 * q]),
                                member_value(key_name(items[2 * q]), spec_from_form(items[2 * q + 1])),
                            )
                        } else {
                            (Seq::empty(), JsonView::Null)
                        },
                ),
            )
        } else {
            JsonView::Array(
                Seq::new(
                    items.len(),
                    |i: int|
                        if 0 <= i < items.len() {
                            spec_from_form(items[i])
                        } else {
                            JsonView::Null
                        },
                ),
            )
        },
        _ => JsonView::Null,
    }
}

fn is_counter_key(k: &str) -> (r: bool)
    ensures
        r == counter_key(k@),
{
    str_eq(k, "cursor") || str_eq(k, "sequence") || str_eq(k, "started_ms") || str_eq(
        k,
        "elapsed_us",
    ) || str_eq(k, "dropped") || str_eq(k, "evicted")
}

fn read_member(key: &str, v: Json) -> (r: Json)
    ensures
        r@ == member_value(key@, v@),
{
    match v {
        Json::String(s) => {
            if is_counter_key(key) {
                match parse_u64(s.as_str()) {
                    Some(n) => Json::Int(n as i128),
                    None => Json::String(s),
                }
            } else {
                Json::String(s)
            }
        },
        other => other,
    }
}

/// Whether Lyric data is plain data (see [form_like]).
pub fn is_form_like(v: &Val) -> (r: bool)
    ensures
        r == form_like(v@),
    decreases v,
{
    match v {
        Val::List(items) => {
            let r = all_form_like(items);
            proof {
                lemma_vals_view(items@);
                if r {
                    assert forall|k: int| 0 <= k < vals_view(items@).len() implies form_like(
                        #[trigger] vals_view(items@)[k],
                    ) by {
                        assert(vals_view(items@)[k] == items@[k]@);
                    }
                } else {
                    let k = choose|k: int| 0 <= k < items.len() && !form_like(#[trigger] items@[k]@);
                    assert(vals_view(items@)[k] == items@[k]@);
                }
            }
            r
        },
        Val::Error(_) => false,
        Val::Ref(_) => false,
        Val::Process(_) => false,
        Val::Opaque(_) => false,
        _ => true,
    }
}

fn all_form_like(items: &Vec<Val>) -> (r: bool)
    ensures
        r == forall|k: int| 0 <= k < items.len() ==> form_like(#[trigger] items@[k]@),
    decreases items,
{
    let mut i: usize = 0;
    while i < items.len()
        invariant
            i <= items.len(),
            forall|k: int| 0 <= k < i ==> form_like(#[trigger] items@[k]@),
        decreases items.len() - i,
    {
        proof {
            assert(decreases_to!(items => items@[i as int]));
        }
        if !is_form_like(&items[i]) {
            return false;
        }
        i = i + 1;
    }
    true
}

/// Lyric data as JSON (see [spec_from_form]).
pub fn from_form(v: &Val) -> (r: Json)
    requires
        form_like(v@),
    ensures
        r@ == spec_from_form(v@),
    decreases v,
{
    match v {
        Val::Nil => Json::Null,
        Val::Bool(b) => Json::Bool(*b),
        Val::Int(i) => Json::Int(*i as i128),
        Val::String(s) => Json::String(s.clone()),
        Val::Keyword(k) => Json::String(k.clone()),
        Val::Symbol(s) => Json::String(s.clone()),
        Val::List(items) => {
            proof {
                lemma_vals_view(items@);
            }
            let ghost iv = vals_view(items@);
            proof {
                assert forall|i: int| 0 <= i < items.len() implies form_like(#[trigger] items@[i]@) by {
                    assert(iv[i] == val_view(items@[i]));
                    assert(form_like(iv[i]));
                }
            }
            let plist = items.len() > 0 && items.len() % 2 == 0 && match &items[0] {
                Val::Keyword(_) => true,
                _ => false,
            };
            proof {
                if items.len() > 0 {
                    assert(iv[0] == val_view(items@[0]));
                }
            }
            if plist {
                let members = from_form_members(items);
                proof {
                    lemma_members_view(members@);
                    assert(spec_from_form(v@)->Object_0 =~= members_view(members@));
                }
                Json::Object(members)
            } else {
                let elems = from_form_items(items);
                proof {
                    lemma_jsons_view(elems@);
                    assert(spec_from_form(v@)->Array_0 =~= jsons_view(elems@));
                }
                Json::Array(elems)
            }
        },
        _ => {
            proof {
                assert(!form_like(v@));
            }
            Json::Null
        },
    }
}

fn from_form_items(items: &Vec<Val>) -> (r: Vec<Json>)
    requires
        forall|i: int| 0 <= i < items.len() ==> form_like(#[trigger] items@[i]@),
    ensures
        r.len() == items.len(),
        forall|i: int| 0 <= i < items.len() ==> (#[trigger] r@[i])@ == spec_from_form(items@[i]@),
    decreases items,
{
    let mut r: Vec<Json> = Vec::new();
    let mut i: usize = 0;
    while i < items.len()
        invariant
            i <= items.len(),
            forall|k: int| 0 <= k < items.len() ==> form_like(#[trigger] items@[k]@),
            r.len() == i,
            forall|k: int| 0 <= k < i ==> (#[trigger] r@[k])@ == spec_from_form(items@[k]@),
        decreases items.len() - i,
    {
        proof {
            assert(decreases_to!(items => items@[i as int]));
        }
        let j = from_form(&items[i]);
        r.push(j);
        i = i + 1;
    }
    r
}

fn from_form_members(items: &Vec<Val>) -> (r: Vec<(String, Json)>)
    requires
        forall|i: int| 0 <= i < items.len() ==> form_like(#[trigger] items@[i]@),
    ensures
        r.len() == keyword_pairs(vals_view(items@), 0),
        forall|q: int| 0 <= q < r.len() ==> 2 * q + 1 < items.len() && (#[trigger] r@[q]).0@ == key_name(
            items@[2 * q]@,
        ) && r@[q].1@ == member_value(key_name(items@[2 * q]@), spec_from_form(items@[2 * q + 1]@)),
    decreases items,
{
    proof {
        lemma_vals_view(items@);
    }
    let ghost iv = vals_view(items@);
    let mut r: Vec<(String, Json)> = Vec::new();
    let mut p: usize = 0;
    loop
        invariant
            iv == vals_view(items@),
            iv.len() == items.len(),
            forall|k: int| 0 <= k < items.len() ==> #[trigger] iv[k] == val_view(items@[k]),
            forall|k: int| 0 <= k < items.len() ==> form_like(#[trigger] items@[k]@),
            2 * p <= items.len(),
            r.len() == p,
            keyword_pairs(iv, 0) == p + keyword_pairs(iv, p as nat),
            forall|q: int| 0 <= q < p ==> 2 * q + 1 < items.len() && (#[trigger] r@[q]).0@ == key_name(
                items@[2 * q]@,
            ) && r@[q].1@ == member_value(key_name(items@[2 * q]@), spec_from_form(items@[2 * q + 1]@)),
        ensures
            keyword_pairs(iv, p as nat) == 0,
        decreases items.len() - 2 * p,
    {
        if 2 * p + 1 >= items.len() {
            break;
        }
        let key = match &items[2 * p] {
            Val::Keyword(k) => k,
            _ => {
                proof {
                    assert(!(iv[2 * p as int] is Keyword));
                }
                break;
            },
        };
        proof {
            assert(iv[2 * p as int] is Keyword);
            assert(decreases_to!(items => items@[2 * p + 1]));
        }
        let value = from_form(&items[2 * p + 1]);
        let member = read_member(key.as_str(), value);
        proof {
            assert(items@[2 * p as int]@ == ValView::Keyword(key@));
        }
        r.push((key.clone(), member));
        p = p + 1;
    }
    r
}

/// Whether a JSON value comes back unchanged from Lyric data: no other
/// numbers than 32-bit integers (outside counters), no empty objects
/// (which read back as empty arrays), and no decimal text under a counter
/// key (which reads back as a number).
pub open spec fn round_trips(j: JsonView) -> bool
    decreases j,
{
    match j {
        JsonView::Null => true,
        JsonView::Bool(_) => true,
        JsonView::Int(n) => i32::MIN <= n <= i32::MAX,
        JsonView::Float(_) => false,
        JsonView::String(_) => true,
        JsonView::Array(items) => forall|i: int| 0 <= i < items.len() ==> round_trips(#[trigger] items[i]),
        JsonView::Object(members) => members.len() > 0 && forall|i: int|
            #![trigger members[i]]
            0 <= i < members.len() ==> if counter_key(members[i].0) {
                match members[i].1 {
                    JsonView::Int(n) => (0 <= n <= u64::MAX) || (i32::MIN <= n <= i32::MAX),
                    JsonView::String(t) => spec_parse_u64(t) is None,
                    _ => round_trips(members[i].1),
                }
            } else {
                round_trips(members[i].1)
            },
    }
}

proof fn lemma_keyword_pairs(members: Seq<(Seq<char>, JsonView)>, items: Seq<ValView>, p: nat)
    requires
        items == plist(members),
        p <= members.len(),
    ensures
        keyword_pairs(items, p) == members.len() - p,
    decreases members.len() - p,
{
    if p < members.len() {
        assert(items[2 * p as int] == ValView::Keyword(members[p as int].0));
        lemma_keyword_pairs(members, items, p + 1);
    }
}

/// Law: JSON that holds nothing Lyric data cannot carry comes back from it
/// unchanged; in particular, a record or a snapshot of records whose
/// counters are 64-bit unsigned numbers does.
pub proof fn law_json_round_trip(j: JsonView)
    requires
        round_trips(j),
    ensures
        spec_from_form(spec_to_form(j)) == j,
    decreases j,
{
    match j {
        JsonView::Array(items) => {
            let f = spec_to_form(j)->List_0;
            assert(f.len() == items.len());
            if items.len() > 0 {
                assert(f[0] == spec_to_form(items[0]));
                assert(!(f[0] is Keyword));
            }
            let back = spec_from_form(spec_to_form(j))->Array_0;
            assert forall|i: int| 0 <= i < items.len() implies back[i] == items[i] by {
                assert(f[i] == spec_to_form(items[i]));
                law_json_round_trip(items[i]);
            }
            assert(back =~= items);
        },
        JsonView::Object(members) => {
            let f = spec_to_form(j)->List_0;
            assert(f =~= plist(members));
            assert(f[0] == ValView::Keyword(members[0].0));
            assert(is_plist(f));
            lemma_keyword_pairs(members, f, 0);
            let back = spec_from_form(spec_to_form(j))->Object_0;
            assert(back.len() == members.len());
            assert forall|q: int| 0 <= q < members.len() implies back[q] == members[q] by {
                let (k, v) = members[q];
                assert(f[2 * q] == ValView::Keyword(k));
                assert(f[2 * q + 1] == spec_to_form(v));
                if counter_key(k) && v is Int && !(i32::MIN <= v->Int_0 <= i32::MAX) {
                    let n = v->Int_0;
                    lemma_decimal(n as nat);
                    assert(signed_decimal(n as int) == decimal(n as nat));
                    assert(spec_parse_u64(decimal(n as nat)) == Some(n as u64)) by {
                        assert(decimal(n as nat)[0] != '+');
                    }
                } else if counter_key(k) && v is Int {
                } else {
                    law_json_round_trip(v);
                }
            }
            assert(back =~= members);
        },
        _ => {},
    }
}

/// Law: counters and timestamps come back from Lyric data as the numbers
/// they were, however large: a member under a counter key holding any
/// 64-bit unsigned number reads back as that number.
pub proof fn law_counters_round_trip(key: Seq<char>, n: u64)
    requires
        counter_key(key),
    ensures
        spec_from_form(spec_to_form(JsonView::Object(seq![(key, JsonView::Int(n as i128))])))
            == JsonView::Object(seq![(key, JsonView::Int(n as i128))]),
{
    let members = seq![(key, JsonView::Int(n as i128))];
    let j = JsonView::Object(members);
    let f = spec_to_form(j);
    let items = f->List_0;
    assert(items.len() == 2);
    assert(items[0] == ValView::Keyword(key));
    assert(items[1] == spec_to_form(JsonView::Int(n as i128)));
    assert(is_plist(items));
    lemma_decimal(n as nat);
    assert(spec_parse_u64(decimal(n as nat)) == Some(n)) by {
        assert(decimal(n as nat)[0] != '+');
    }
    assert(keyword_pairs(items, 1) == 0);
    assert(keyword_pairs(items, 0) == 1);
    let back = spec_from_form(f);
    let value = spec_from_form(items[1]);
    assert(member_value(key, value) == JsonView::Int(n as i128)) by {
        if n <= i32::MAX {
            assert(items[1] == ValView::Int(n as i32));
        } else {
            assert(signed_decimal(n as int) == decimal(n as nat));
            assert(items[1] == ValView::String(decimal(n as nat)));
        }
    }
    assert(back->Object_0[0] == (key, member_value(key, value)));
    assert(back->Object_0 =~= seq![(key, JsonView::Int(n as i128))]);
}

} // verus!
