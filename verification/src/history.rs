//! One bounded observation history per runtime. Each observation is
//! numbered by a cursor; an observation of an event already recorded
//! replaces its record in place; otherwise the record is appended, and the
//! oldest record is evicted once the history is full. Observations that
//! find the history busy are not recorded but counted as dropped.
use vstd::prelude::*;

use crate::text::str_eq;

verus! {

/// How many records the history keeps.
pub const CAPACITY: usize = 512;

/// One observation: its number, the process that made it, the identifier
/// of the observed event, and the event (of any type `E`).
pub struct Record<E> {
    pub sequence: u64,
    pub process: String,
    pub id: String,
    pub event: E,
}

pub struct RecordView<E> {
    pub sequence: u64,
    pub process: Seq<char>,
    pub id: Seq<char>,
    pub event: E,
}

impl<E> View for Record<E> {
    type V = RecordView<E>;

    open spec fn view(&self) -> RecordView<E> {
        RecordView { sequence: self.sequence, process: self.process@, id: self.id@, event: self.event }
    }
}

/// The views of records.
pub open spec fn record_views<E>(s: Seq<Record<E>>) -> Seq<RecordView<E>> {
    s.map_values(|r: Record<E>| r@)
}

/// The position of the record of event `id`, or the length where none.
pub open spec fn find_id<E>(s: Seq<RecordView<E>>, id: Seq<char>) -> int
    decreases s.len(),
{
    if s.len() == 0 {
        0
    } else if s[0].id == id {
        0
    } else {
        1 + find_id(s.drop_first(), id)
    }
}

pub proof fn lemma_find_id<E>(s: Seq<RecordView<E>>, id: Seq<char>)
    ensures
        0 <= find_id(s, id) <= s.len(),
        find_id(s, id) < s.len() ==> s[find_id(s, id)].id == id,
        forall|j: int| 0 <= j < find_id(s, id) ==> s[j].id != id,
    decreases s.len(),
{
    if s.len() > 0 && s[0].id != id {
        lemma_find_id(s.drop_first(), id);
        assert forall|j: int| 0 <= j < find_id(s, id) implies s[j].id != id by {
            if j > 0 {
                assert(s.drop_first()[j - 1] == s[j]);
            }
        }
    }
}

/// The records after recording `r`: in place of the record of the same
/// event, if there is one; otherwise appended, after evicting the oldest
/// record of a full history.
pub open spec fn spec_record<E>(s: Seq<RecordView<E>>, r: RecordView<E>) -> Seq<RecordView<E>> {
    let at = find_id(s, r.id);
    if at < s.len() {
        s.update(at, r)
    } else if s.len() == CAPACITY {
        s.drop_first().push(r)
    } else {
        s.push(r)
    }
}

/// The history.
pub struct History<E> {
    cursor: u64,
    evicted: u64,
    dropped: u64,
    records: Vec<Record<E>>,
}

pub struct HistoryView<E> {
    /// The number of the last recorded observation.
    pub cursor: u64,
    /// How many records were evicted.
    pub evicted: u64,
    /// How many observations found the history busy.
    pub dropped: u64,
    /// The records, oldest first.
    pub records: Seq<RecordView<E>>,
}

impl<E> View for History<E> {
    type V = HistoryView<E>;

    closed spec fn view(&self) -> HistoryView<E> {
        HistoryView {
            cursor: self.cursor,
            evicted: self.evicted,
            dropped: self.dropped,
            records: record_views(self.records@),
        }
    }
}

/// What a history holds: at most `CAPACITY` records, one per event, each
/// numbered at most the cursor; and no more evictions than observations.
pub open spec fn history_inv<E>(v: HistoryView<E>) -> bool {
    &&& v.records.len() <= CAPACITY
    &&& forall|i: int, j: int| 0 <= i < j < v.records.len() ==> (#[trigger] v.records[i]).id != (
    #[trigger] v.records[j]).id
    &&& forall|i: int| 0 <= i < v.records.len() ==> 0 < (#[trigger] v.records[i]).sequence <= v.cursor
    &&& v.evicted <= v.cursor
}

impl<E> History<E> {
    pub closed spec fn wf(&self) -> bool {
        history_inv(self@)
    }

    pub proof fn lemma_wf(&self)
        requires
            self.wf(),
        ensures
            history_inv(self@),
    {
    }

    /// An empty history.
    pub fn new() -> (r: History<E>)
        ensures
            r.wf(),
            r@.cursor == 0,
            r@.evicted == 0,
            r@.dropped == 0,
            r@.records == Seq::<RecordView<E>>::empty(),
    {
        let r = History { cursor: 0, evicted: 0, dropped: 0, records: Vec::new() };
        proof {
            assert(record_views(r.records@) =~= Seq::<RecordView<E>>::empty());
        }
        r
    }

    /// How many observations found the history busy.
    pub fn dropped(&self) -> (r: u64)
        ensures
            r == self@.dropped,
    {
        self.dropped
    }

    /// How many records were evicted.
    pub fn evicted(&self) -> (r: u64)
        ensures
            r == self@.evicted,
    {
        self.evicted
    }

    /// The number of the last recorded observation.
    pub fn cursor(&self) -> (r: u64)
        ensures
            r == self@.cursor,
    {
        self.cursor
    }

    /// How many records are kept.
    pub fn len(&self) -> (r: usize)
        ensures
            r == self@.records.len(),
    {
        self.records.len()
    }

    /// The record at `i`, oldest first.
    pub fn record(&self, i: usize) -> (r: &Record<E>)
        requires
            i < self@.records.len(),
        ensures
            r@ == self@.records[i as int],
    {
        &self.records[i]
    }

    /// An observation that found the history busy: counted, not recorded.
    pub fn observe_busy(&mut self)
        requires
            old(self).wf(),
        ensures
            final(self).wf(),
            final(self)@.dropped == (if old(self)@.dropped == u64::MAX {
                0int
            } else {
                old(self)@.dropped + 1
            }),
            final(self)@.cursor == old(self)@.cursor,
            final(self)@.evicted == old(self)@.evicted,
            final(self)@.records == old(self)@.records,
    {
        self.dropped = self.dropped.wrapping_add(1);
    }

    /// Records an observation of event `id` by `process`; returns its number.
    pub fn observe(&mut self, process: String, id: String, event: E) -> (sequence: u64)
        requires
            old(self).wf(),
            old(self)@.cursor < u64::MAX,
        ensures
            final(self).wf(),
            sequence == old(self)@.cursor + 1,
            final(self)@.cursor == sequence,
            final(self)@.dropped == old(self)@.dropped,
            final(self)@.records == spec_record(
                old(self)@.records,
                RecordView { sequence, process: process@, id: id@, event },
            ),
            final(self)@.evicted == (if find_id(old(self)@.records, id@) == old(self)@.records.len()
                && old(self)@.records.len() == CAPACITY {
                old(self)@.evicted + 1
            } else {
                old(self)@.evicted as int
            }),
    {
        let ghost old_v = self@;
        let ghost rs = old_v.records;
        proof {
            lemma_find_id(rs, id@);
        }
        self.cursor = self.cursor + 1;
        let sequence = self.cursor;
        let ghost rv = RecordView { sequence, process: process@, id: id@, event };
        let mut at: usize = 0;
        while at < self.records.len() && !str_eq(self.records[at].id.as_str(), id.as_str())
            invariant
                at <= self.records.len(),
                record_views(self.records@) == rs,
                rs.len() == self.records.len(),
                at <= find_id(rs, id@),
                0 <= find_id(rs, id@) <= rs.len(),
                find_id(rs, id@) < rs.len() ==> rs[find_id(rs, id@)].id == id@,
            decreases self.records.len() - at,
        {
            proof {
                assert(rs[at as int] == self.records@[at as int]@);
            }
            at = at + 1;
        }
        proof {
            if at < rs.len() {
                assert(rs[at as int] == self.records@[at as int]@);
            }
        }
        let record = Record { sequence, process, id, event };
        if at < self.records.len() {
            self.records.set(at, record);
            proof {
                assert(record_views(self.records@) =~= rs.update(at as int, rv));
            }
        } else {
            if self.records.len() == CAPACITY {
                self.records.remove(0);
                self.evicted = self.evicted + 1;
                proof {
                    assert(record_views(self.records@) =~= rs.drop_first());
                }
            }
            let ghost before = record_views(self.records@);
            self.records.push(record);
            proof {
                assert(record_views(self.records@) =~= before.push(rv));
            }
        }
        proof {
            let nv = self@;
            assert(nv.records == spec_record(rs, rv));
            assert forall|i: int, j: int| 0 <= i < j < nv.records.len() implies (
            #[trigger] nv.records[i]).id != (#[trigger] nv.records[j]).id by {
                if find_id(rs, id@) < rs.len() {
                    let p = find_id(rs, id@);
                    if i == p {
                        assert(rs[j].id != rs[p].id);
                    } else if j == p {
                        assert(rs[i].id != rs[p].id);
                    }
                } else if rs.len() == CAPACITY {
                    if j == nv.records.len() - 1 {
                        assert(nv.records[i] == rs[i + 1]);
                        assert(rs[i + 1].id != id@);
                    } else {
                        assert(nv.records[i] == rs[i + 1] && nv.records[j] == rs[j + 1]);
                    }
                } else {
                    if j == nv.records.len() - 1 {
                        assert(nv.records[i] == rs[i]);
                    }
                }
            }
            assert forall|i: int| 0 <= i < nv.records.len() implies 0 < (
            #[trigger] nv.records[i]).sequence <= nv.cursor by {
                if find_id(rs, id@) < rs.len() {
                    if i != find_id(rs, id@) {
                        assert(nv.records[i] == rs[i]);
                    }
                } else if rs.len() == CAPACITY {
                    if i < nv.records.len() - 1 {
                        assert(nv.records[i] == rs[i + 1]);
                    }
                } else {
                    if i < nv.records.len() - 1 {
                        assert(nv.records[i] == rs[i]);
                    }
                }
            }
        }
        sequence
    }
}

} // verus!
