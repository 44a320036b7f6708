//! Finite sets of texts (topics, names), and counts kept per text.
use vstd::prelude::*;

use crate::text::str_eq;

verus! {

/// The texts of a list of strings.
pub open spec fn texts(s: Seq<String>) -> Set<Seq<char>> {
    Set::new(|t: Seq<char>| exists|i: int| 0 <= i < s.len() && (#[trigger] s[i])@ == t)
}

/// No text occurs twice.
pub open spec fn distinct_texts(s: Seq<String>) -> bool {
    forall|i: int, j: int| 0 <= i < j < s.len() ==> (#[trigger] s[i])@ != (#[trigger] s[j])@
}

/// Where `t` stands among the strings.
fn position(items: &Vec<String>, t: &str) -> (r: Option<usize>)
    ensures
        match r {
            Some(p) => p < items.len() && items@[p as int]@ == t@,
            None => forall|i: int| 0 <= i < items.len() ==> (#[trigger] items@[i])@ != t@,
        },
{
    let mut i: usize = 0;
    while i < items.len()
        invariant
            i <= items.len(),
            forall|j: int| 0 <= j < i ==> (#[trigger] items@[j])@ != t@,
        decreases items.len() - i,
    {
        if str_eq(items[i].as_str(), t) {
            return Some(i);
        }
        i = i + 1;
    }
    None
}

/// A set of texts.
pub struct TextSet {
    items: Vec<String>,
}

impl View for TextSet {
    type V = Set<Seq<char>>;

    closed spec fn view(&self) -> Set<Seq<char>> {
        texts(self.items@)
    }
}

impl TextSet {
    /// No text is held twice.
    pub closed spec fn wf(&self) -> bool {
        distinct_texts(self.items@)
    }

    /// The empty set.
    pub fn new() -> (r: TextSet)
        ensures
            r.wf(),
            r@ == Set::<Seq<char>>::empty(),
    {
        let r = TextSet { items: Vec::new() };
        proof {
            assert(texts(r.items@) =~= Set::<Seq<char>>::empty());
        }
        r
    }

    /// Whether `t` is in the set.
    pub fn contains(&self, t: &str) -> (r: bool)
        ensures
            r == self@.contains(t@),
    {
        let r = position(&self.items, t).is_some();
        proof {
            if self@.contains(t@) {
                let i = choose|i: int| 0 <= i < self.items@.len() && (#[trigger] self.items@[i])@ == t@;
                assert(self.items@[i]@ == t@);
            }
        }
        r
    }

    /// Adds `t`; whether it was new.
    pub fn insert(&mut self, t: String) -> (added: bool)
        requires
            old(self).wf(),
        ensures
            final(self).wf(),
            added == !old(self)@.contains(t@),
            final(self)@ == old(self)@.insert(t@),
    {
        let ghost old_items = self.items@;
        let ghost tv = t@;
        match position(&self.items, t.as_str()) {
            Some(_) => {
                proof {
                    assert(old_items.len() > 0);
                    assert(texts(old_items) =~= texts(old_items).insert(tv));
                }
                false
            },
            None => {
                self.items.push(t);
                proof {
                    let s = self.items@;
                    assert(s[s.len() - 1]@ == tv);
                    assert forall|i: int, j: int| 0 <= i < j < s.len() implies (#[trigger] s[i])@
                        != (#[trigger] s[j])@ by {
                        if j < s.len() - 1 {
                            assert(s[i] == old_items[i] && s[j] == old_items[j]);
                        } else {
                            assert(s[i] == old_items[i]);
                        }
                    }
                    assert forall|x: Seq<char>| texts(s).contains(x) <==> texts(old_items).insert(
                        tv,
                    ).contains(x) by {
                        if texts(s).contains(x) {
                            let i = choose|i: int| 0 <= i < s.len() && (#[trigger] s[i])@ == x;
                            if i < s.len() - 1 {
                                assert(old_items[i]@ == x);
                            }
                        }
                        if texts(old_items).contains(x) {
                            let i = choose|i: int| 0 <= i < old_items.len() && (#[trigger] old_items[i])@ == x;
                            assert(s[i]@ == x);
                        }
                    }
                    assert(texts(s) =~= texts(old_items).insert(tv));
                }
                true
            },
        }
    }

    /// Removes `t`; whether it was there.
    pub fn remove(&mut self, t: &str) -> (removed: bool)
        requires
            old(self).wf(),
        ensures
            final(self).wf(),
            removed == old(self)@.contains(t@),
            final(self)@ == old(self)@.remove(t@),
    {
        let ghost old_items = self.items@;
        match position(&self.items, t) {
            Some(p) => {
                self.items.remove(p);
                proof {
                    let s = self.items@;
                    assert(s =~= old_items.remove(p as int));
                    assert forall|i: int, j: int| 0 <= i < j < s.len() implies (#[trigger] s[i])@
                        != (#[trigger] s[j])@ by {
                        if j < p {
                            assert(s[i] == old_items[i] && s[j] == old_items[j]);
                        } else if i < p {
                            assert(s[i] == old_items[i] && s[j] == old_items[j + 1]);
                        } else {
                            assert(s[i] == old_items[i + 1] && s[j] == old_items[j + 1]);
                        }
                    }
                    assert forall|x: Seq<char>| texts(s).contains(x) <==> texts(old_items).remove(
                        t@,
                    ).contains(x) by {
                        if texts(s).contains(x) {
                            let i = choose|i: int| 0 <= i < s.len() && (#[trigger] s[i])@ == x;
                            if i < p {
                                assert(old_items[i]@ == x);
                                assert(old_items[i]@ != old_items[p as int]@);
                            } else {
                                assert(old_items[i + 1]@ == x);
                                assert(old_items[i + 1]@ != old_items[p as int]@);
                            }
                        }
                        if texts(old_items).contains(x) && x != t@ {
                            let i = choose|i: int| 0 <= i < old_items.len() && (#[trigger] old_items[i])@ == x;
                            if i < p {
                                assert(s[i]@ == x);
                            } else {
                                assert(i != p);
                                assert(s[i - 1]@ == x);
                            }
                        }
                    }
                    assert(texts(s) =~= texts(old_items).remove(t@));
                    assert(texts(old_items).contains(t@));
                }
                true
            },
            None => {
                proof {
                    assert(!texts(old_items).contains(t@));
                    assert(texts(old_items) =~= texts(old_items).remove(t@));
                }
                false
            },
        }
    }
}

/// The counts of a list of (text, count) pairs, by text.
pub open spec fn counts(s: Seq<(String, usize)>) -> Map<Seq<char>, nat> {
    Map::new(
        |t: Seq<char>| exists|i: int| 0 <= i < s.len() && (#[trigger] s[i]).0@ == t,
        |t: Seq<char>|
            {
                let i = choose|i: int| 0 <= i < s.len() && (#[trigger] s[i]).0@ == t;
                s[i].1 as nat
            },
    )
}

/// Where `t` stands among the keys.
fn key_position(items: &Vec<(String, usize)>, t: &str) -> (r: Option<usize>)
    ensures
        match r {
            Some(p) => p < items.len() && items@[p as int].0@ == t@,
            None => forall|i: int| 0 <= i < items.len() ==> (#[trigger] items@[i]).0@ != t@,
        },
{
    let mut i: usize = 0;
    while i < items.len()
        invariant
            i <= items.len(),
            forall|j: int| 0 <= j < i ==> (#[trigger] items@[j]).0@ != t@,
        decreases items.len() - i,
    {
        if str_eq(items[i].0.as_str(), t) {
            return Some(i);
        }
        i = i + 1;
    }
    None
}

/// A positive count per text.
pub struct TextCounts {
    items: Vec<(String, usize)>,
}

impl View for TextCounts {
    type V = Map<Seq<char>, nat>;

    closed spec fn view(&self) -> Map<Seq<char>, nat> {
        counts(self.items@)
    }
}

impl TextCounts {
    /// No text is held twice, and every count is positive.
    pub closed spec fn wf(&self) -> bool {
        &&& forall|i: int, j: int| 0 <= i < j < self.items@.len() ==> (#[trigger] self.items@[i]).0@ != (
        #[trigger] self.items@[j]).0@
        &&& forall|i: int| 0 <= i < self.items@.len() ==> (#[trigger] self.items@[i]).1 > 0
    }

    pub proof fn lemma_wf(&self)
        requires
            self.wf(),
        ensures
            forall|t: Seq<char>| #[trigger] self@.contains_key(t) ==> self@[t] > 0,
    {
        assert forall|t: Seq<char>| #[trigger] self@.contains_key(t) implies self@[t] > 0 by {
            let i = choose|i: int| 0 <= i < self.items@.len() && (#[trigger] self.items@[i]).0@ == t;
            assert(self.items@[i].1 > 0);
        }
    }

    /// No texts.
    pub fn new() -> (r: TextCounts)
        ensures
            r.wf(),
            r@ == Map::<Seq<char>, nat>::empty(),
    {
        let r = TextCounts { items: Vec::new() };
        proof {
            assert(counts(r.items@) =~= Map::<Seq<char>, nat>::empty());
        }
        r
    }

    /// The count of `t`, if it has one.
    pub fn get(&self, t: &str) -> (r: Option<usize>)
        requires
            self.wf(),
        ensures
            match r {
                Some(c) => self@.contains_key(t@) && self@[t@] == c,
                None => !self@.contains_key(t@),
            },
    {
        match key_position(&self.items, t) {
            Some(p) => {
                proof {
                    let i = choose|i: int| 0 <= i < self.items@.len() && (#[trigger] self.items@[i]).0@ == t@;
                    if i != p {
                        assert(self.items@[i].0@ != self.items@[p as int].0@);
                    }
                }
                Some(self.items[p].1)
            },
            None => None,
        }
    }

    /// Counts `t` once more; whether it was new.
    pub fn increment(&mut self, t: String) -> (new: bool)
        requires
            old(self).wf(),
            old(self)@.contains_key(t@) ==> old(self)@[t@] < usize::MAX,
        ensures
            final(self).wf(),
            new == !old(self)@.contains_key(t@),
            final(self)@ == old(self)@.insert(
                t@,
                if new {
                    1nat
                } else {
                    old(self)@[t@] + 1
                },
            ),
    {
        let ghost old_items = self.items@;
        let ghost tv = t@;
        match key_position(&self.items, t.as_str()) {
            Some(p) => {
                let c = self.items[p].1;
                proof {
                    let i = choose|i: int| 0 <= i < old_items.len() && (#[trigger] old_items[i]).0@ == tv;
                    if i != p {
                        assert(old_items[i].0@ != old_items[p as int].0@);
                    }
                    assert(counts(old_items)[tv] == c);
                }
                let key = self.items[p].0.clone();
                self.items.set(p, (key, c + 1));
                proof {
                    let s = self.items@;
                    assert(s =~= old_items.update(p as int, (s[p as int].0, (c + 1) as usize)));
                    assert(s[p as int].0@ == tv);
                    assert forall|t2: Seq<char>| #[trigger] counts(s).contains_key(t2) implies counts(s)[t2] == counts(old_items).insert(tv, (c + 1) as nat)[t2] by {
                        let i = choose|i: int| 0 <= i < s.len() && (#[trigger] s[i]).0@ == t2;
                        if i != p {
                            assert(s[i] == old_items[i]);
                            let j = choose|j: int| 0 <= j < old_items.len() && (#[trigger] old_items[j]).0@ == t2;
                            if j != i {
                                assert(old_items[i].0@ != old_items[j].0@);
                            }
                        }
                    }
                    assert forall|t2: Seq<char>| counts(s).contains_key(t2) <==> counts(old_items).insert(tv, (c + 1) as nat).contains_key(t2) by {
                        if counts(old_items).contains_key(t2) {
                            let i = choose|i: int| 0 <= i < old_items.len() && (#[trigger] old_items[i]).0@ == t2;
                            if i == p {
                                assert(s[p as int].0@ == t2);
                            } else {
                                assert(s[i] == old_items[i]);
                            }
                        }
                        if counts(s).contains_key(t2) {
                            let i = choose|i: int| 0 <= i < s.len() && (#[trigger] s[i]).0@ == t2;
                            if i != p {
                                assert(s[i] == old_items[i]);
                            }
                        }
                    }
                    assert(counts(s) =~= counts(old_items).insert(tv, (c + 1) as nat));
                    assert forall|i: int, j: int| 0 <= i < j < s.len() implies (#[trigger] s[i]).0@ != (#[trigger] s[j]).0@ by {
                        assert(old_items[i].0@ != old_items[j].0@);
                        if i == p {
                            assert(s[i].0@ == old_items[i].0@);
                        }
                        if j == p {
                            assert(s[j].0@ == old_items[j].0@);
                        }
                    }
                }
                false
            },
            None => {
                self.items.push((t, 1));
                proof {
                    let s = self.items@;
                    let n = old_items.len() as int;
                    assert(s[n].0@ == tv);
                    assert forall|t2: Seq<char>| #[trigger] counts(s).contains_key(t2) implies counts(s)[t2] == counts(old_items).insert(tv, 1nat)[t2] by {
                        let i = choose|i: int| 0 <= i < s.len() && (#[trigger] s[i]).0@ == t2;
                        if i < n {
                            assert(s[i] == old_items[i]);
                            let j = choose|j: int| 0 <= j < old_items.len() && (#[trigger] old_items[j]).0@ == t2;
                            if j != i {
                                assert(old_items[i].0@ != old_items[j].0@);
                            }
                        }
                    }
                    assert forall|t2: Seq<char>| counts(s).contains_key(t2) <==> counts(old_items).insert(tv, 1nat).contains_key(t2) by {
                        if counts(old_items).contains_key(t2) {
                            let i = choose|i: int| 0 <= i < old_items.len() && (#[trigger] old_items[i]).0@ == t2;
                            assert(s[i] == old_items[i]);
                        }
                        if counts(s).contains_key(t2) {
                            let i = choose|i: int| 0 <= i < s.len() && (#[trigger] s[i]).0@ == t2;
                            if i < n {
                                assert(s[i] == old_items[i]);
                            }
                        }
                    }
                    assert(counts(s) =~= counts(old_items).insert(tv, 1nat));
                    assert forall|i: int, j: int| 0 <= i < j < s.len() implies (#[trigger] s[i]).0@ != (#[trigger] s[j]).0@ by {
                        if j < n {
                            assert(s[i] == old_items[i] && s[j] == old_items[j]);
                        } else {
                            assert(s[i] == old_items[i]);
                        }
                    }
                    assert forall|i: int| 0 <= i < s.len() implies (#[trigger] s[i]).1 > 0 by {
                        if i < n {
                            assert(s[i] == old_items[i]);
                        }
                    }
                }
                true
            },
        }
    }

    /// Counts `t` once less; whether its count reached zero, in which case
    /// it is dropped.
    pub fn decrement(&mut self, t: &str) -> (gone: bool)
        requires
            old(self).wf(),
            old(self)@.contains_key(t@),
        ensures
            final(self).wf(),
            gone == (old(self)@[t@] == 1),
            final(self)@ == (if gone {
                old(self)@.remove(t@)
            } else {
                old(self)@.insert(t@, (old(self)@[t@] - 1) as nat)
            }),
    {
        let ghost old_items = self.items@;
        let ghost tv = t@;
        proof {
            let i = choose|i: int| 0 <= i < old_items.len() && (#[trigger] old_items[i]).0@ == tv;
            assert(old_items[i].0@ == tv);
        }
        let p = key_position(&self.items, t).unwrap();
        let c = self.items[p].1;
        proof {
            let i = choose|i: int| 0 <= i < old_items.len() && (#[trigger] old_items[i]).0@ == tv;
            if i != p {
                assert(old_items[i].0@ != old_items[p as int].0@);
            }
            assert(counts(old_items)[tv] == c);
            assert(c > 0);
        }
        if c == 1 {
            self.items.remove(p);
            proof {
                let s = self.items@;
                assert(s =~= old_items.remove(p as int));
                assert forall|t2: Seq<char>| #[trigger] counts(s).contains_key(t2) implies counts(s)[t2] == counts(old_items).remove(tv)[t2] by {
                    let i = choose|i: int| 0 <= i < s.len() && (#[trigger] s[i]).0@ == t2;
                    let oi = if i < p { i } else { i + 1 };
                    assert(s[i] == old_items[oi]);
                    assert(oi != p);
                    assert(old_items[oi].0@ != old_items[p as int].0@);
                    let j = choose|j: int| 0 <= j < old_items.len() && (#[trigger] old_items[j]).0@ == t2;
                    if j != oi {
                        assert(old_items[oi].0@ != old_items[j].0@);
                    }
                }
                assert forall|t2: Seq<char>| counts(s).contains_key(t2) <==> counts(old_items).remove(tv).contains_key(t2) by {
                    if counts(s).contains_key(t2) {
                        let i = choose|i: int| 0 <= i < s.len() && (#[trigger] s[i]).0@ == t2;
                        let oi = if i < p { i } else { i + 1 };
                        assert(s[i] == old_items[oi]);
                        assert(old_items[oi].0@ != old_items[p as int].0@);
                    }
                    if counts(old_items).contains_key(t2) && t2 != tv {
                        let i = choose|i: int| 0 <= i < old_items.len() && (#[trigger] old_items[i]).0@ == t2;
                        if i < p {
                            assert(s[i] == old_items[i]);
                        } else {
                            assert(i != p);
                            assert(s[i - 1] == old_items[i]);
                        }
                    }
                }
                assert(counts(s) =~= counts(old_items).remove(tv));
                assert forall|i: int, j: int| 0 <= i < j < s.len() implies (#[trigger] s[i]).0@ != (#[trigger] s[j]).0@ by {
                    let oi = if i < p { i } else { i + 1 };
                    let oj = if j < p { j } else { j + 1 };
                    assert(s[i] == old_items[oi] && s[j] == old_items[oj]);
                }
                assert forall|i: int| 0 <= i < s.len() implies (#[trigger] s[i]).1 > 0 by {
                    let oi = if i < p { i } else { i + 1 };
                    assert(s[i] == old_items[oi]);
                }
            }
            true
        } else {
            let key = self.items[p].0.clone();
            self.items.set(p, (key, c - 1));
            proof {
                let s = self.items@;
                assert(s =~= old_items.update(p as int, (s[p as int].0, (c - 1) as usize)));
                assert(s[p as int].0@ == tv);
                assert forall|t2: Seq<char>| #[trigger] counts(s).contains_key(t2) implies counts(s)[t2] == counts(old_items).insert(tv, (c - 1) as nat)[t2] by {
                    let i = choose|i: int| 0 <= i < s.len() && (#[trigger] s[i]).0@ == t2;
                    if i != p {
                        assert(s[i] == old_items[i]);
                        let j = choose|j: int| 0 <= j < old_items.len() && (#[trigger] old_items[j]).0@ == t2;
                        if j != i {
                            assert(old_items[i].0@ != old_items[j].0@);
                        }
                    }
                }
                assert forall|t2: Seq<char>| counts(s).contains_key(t2) <==> counts(old_items).insert(tv, (c - 1) as nat).contains_key(t2) by {
                    if counts(old_items).contains_key(t2) {
                        let i = choose|i: int| 0 <= i < old_items.len() && (#[trigger] old_items[i]).0@ == t2;
                        if i == p {
                            assert(s[p as int].0@ == t2);
                        } else {
                            assert(s[i] == old_items[i]);
                        }
                    }
                    if counts(s).contains_key(t2) {
                        let i = choose|i: int| 0 <= i < s.len() && (#[trigger] s[i]).0@ == t2;
                        if i != p {
                            assert(s[i] == old_items[i]);
                        }
                    }
                }
                assert(counts(s) =~= counts(old_items).insert(tv, (c - 1) as nat));
                assert forall|i: int, j: int| 0 <= i < j < s.len() implies (#[trigger] s[i]).0@ != (#[trigger] s[j]).0@ by {
                    assert(old_items[i].0@ != old_items[j].0@);
                    if i == p {
                        assert(s[i].0@ == old_items[i].0@);
                    }
                    if j == p {
                        assert(s[j].0@ == old_items[j].0@);
                    }
                }
                assert forall|i: int| 0 <= i < s.len() implies (#[trigger] s[i]).1 > 0 by {
                    if i != p {
                        assert(s[i] == old_items[i]);
                    }
                }
            }
            false
        }
    }
}

} // verus!
