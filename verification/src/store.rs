//! The local store adapter: the contract the sync engine holds against the
//! embedded history database. Inserts are idempotent on `id` (append-only,
//! no update in place), so merging histories is a set union keyed by `id`.

use vstd::prelude::*;
use crate::record::{HistoryRecord, RecordModel};

verus! {

broadcast use vstd::seq_lib::group_seq_lib_default, Seq::lemma_filter_push;

/// Some stored record carries this id.
pub open spec fn rec_has_id(s: Seq<RecordModel>, id: Seq<char>) -> bool {
    exists|k: int| 0 <= k < s.len() && s[k].id == id
}

/// No two stored records share an id.
pub open spec fn rec_ids_unique(s: Seq<RecordModel>) -> bool {
    forall|i: int, j: int| 0 <= i < j < s.len() ==> s[i].id != s[j].id
}

/// A record answers an upload query when its timestamp is past the cursor
/// and it does not originate from the excluded host, if one is given.
pub open spec fn rec_matches(rm: RecordModel, ts: u64, exclude: Option<Seq<char>>) -> bool {
    rm.timestamp > ts && match exclude {
        Some(h) => rm.hostname != h,
        None => true,
    }
}

/// All records past a cursor, in stored order, host-filtered.
pub open spec fn records_after(s: Seq<RecordModel>, ts: u64, exclude: Option<Seq<char>>) -> Seq<
    RecordModel,
> {
    s.filter(|rm: RecordModel| rec_matches(rm, ts, exclude))
}

/// The in-memory local history store the engine reads and fills.
pub struct ClientStore {
    records: Vec<HistoryRecord>,
}

impl View for ClientStore {
    type V = Seq<RecordModel>;

    closed spec fn view(&self) -> Seq<RecordModel> {
        self.records@.map_values(|r: HistoryRecord| r@)
    }
}

impl ClientStore {
    /// The store's invariant: no two records share an id.
    pub open spec fn wf(&self) -> bool {
        rec_ids_unique(self@)
    }

    /// An empty store.
    pub fn new() -> (r: Self)
        ensures
            r.wf(),
            r@ == Seq::<RecordModel>::empty(),
    {
        let r = ClientStore { records: Vec::new() };
        proof {
            assert(r@ =~= Seq::<RecordModel>::empty());
        }
        r
    }

    /// Appends a record unless its `id` is already stored; reports whether
    /// it was inserted. The one write path: inserts are idempotent on `id`.
    pub fn insert_if_absent(&mut self, rec: HistoryRecord) -> (inserted: bool)
        requires
            old(self).wf(),
        ensures
            final(self).wf(),
            inserted == !rec_has_id(old(self)@, rec@.id),
            inserted ==> final(self)@ == old(self)@.push(rec@),
            !inserted ==> final(self)@ == old(self)@,
            rec_has_id(final(self)@, rec@.id),
    {
        let ghost old_model = self@;
        let mut i: usize = 0;
        while i < self.records.len()
            invariant
                0 <= i <= self.records@.len(),
                old_model == self.records@.map_values(|r: HistoryRecord| r@),
                old_model == old(self)@,
                old(self).wf(),
                self == old(self),
                forall|j: int| 0 <= j < i ==> old_model[j].id != rec@.id,
            decreases self.records@.len() - i,
        {
            if string_eq(&self.records[i].id, &rec.id) {
                assert(old_model[i as int].id == rec@.id);
                return false;
            }
            i = i + 1;
        }
        self.records.push(rec);
        proof {
            assert(self@ =~= old_model.push(rec@));
            assert(self@[old_model.len() as int].id == rec@.id);
        }
        true
    }

    /// How many records are stored.
    pub fn count(&self) -> (r: i64)
        requires
            self.wf(),
            self@.len() <= 0x7fff_ffff_ffff_ffff,
        ensures
            r == self@.len() as i64,
            0 <= r,
    {
        self.records.len() as i64
    }

    /// The record stored at an index; with [`Self::count`], lets the
    /// process edge walk and persist the store.
    pub fn record_at(&self, i: usize) -> (r: &HistoryRecord)
        requires
            i < self@.len(),
        ensures
            r@ == self@[i as int],
    {
        proof {
            assert(self@[i as int] == self.records@[i as int]@);
        }
        &self.records[i]
    }

    /// All records with a timestamp after `ts`, skipping those from
    /// `exclude_host` where one is given; in stored order.
    pub fn records_since(&self, ts: u64, exclude_host: Option<&String>) -> (r: Vec<HistoryRecord>)
        ensures
            ({
                let sel = records_after(
                    self@,
                    ts,
                    match exclude_host {
                        Some(h) => Some(h@),
                        None => None,
                    },
                );
                &&& r@.len() == sel.len()
                &&& forall|k: int| 0 <= k < sel.len() ==> (#[trigger] r@[k])@ == sel[k]
            }),
    {
        let ghost ex: Option<Seq<char>> = match exclude_host {
            Some(h) => Some(h@),
            None => None,
        };
        let mut out: Vec<HistoryRecord> = Vec::new();
        let mut i: usize = 0;
        while i < self.records.len()
            invariant
                0 <= i <= self.records@.len(),
                self@ == self.records@.map_values(|r: HistoryRecord| r@),
                ex == (match exclude_host {
                    Some(h) => Some(h@),
                    None => None,
                }),
                ({
                    let sel = records_after(self@.take(i as int), ts, ex);
                    &&& out@.len() == sel.len()
                    &&& forall|k: int| 0 <= k < sel.len() ==> (#[trigger] out@[k])@ == sel[k]
                }),
            decreases self.records@.len() - i,
        {
            let rec = &self.records[i];
            let ghost out_before = out@;
            if rec.timestamp > ts {
                let keep = match exclude_host {
                    Some(h) => !string_eq(&rec.hostname, h),
                    None => true,
                };
                if keep {
                    out.push(clone_record(rec));
                }
            }
            proof {
                let t1 = self@.take(i as int + 1);
                let t0 = self@.take(i as int);
                assert(self@[i as int] == self.records@[i as int]@);
                assert(t1.drop_last() =~= t0);
                assert(t1.last() == self@[i as int]);
                reveal(Seq::filter);
                assert(records_after(t1, ts, ex) == if rec_matches(self@[i as int], ts, ex) {
                    records_after(t0, ts, ex).push(self@[i as int])
                } else {
                    records_after(t0, ts, ex)
                });
                let sel1 = records_after(t1, ts, ex);
                let sel0 = records_after(t0, ts, ex);
                assert(out_before.len() == sel0.len());
                assert(out@.len() == sel1.len());
                assert forall|k: int| 0 <= k < sel1.len() implies (#[trigger] out@[k])@
                    == sel1[k] by {
                    if k < sel0.len() {
                        assert(out@[k] == out_before[k]);
                        assert((out_before[k])@ == sel0[k]);
                    } else {
                        assert(out@[k] == out@[out_before.len() as int]);
                        assert(sel1[k] == self@[i as int]);
                    }
                }
            }
            i = i + 1;
        }
        proof {
            assert(self@.take(self@.len() as int) =~= self@);
        }
        out
    }

    /// The greatest stored timestamp, or zero where the store is empty.
    pub fn max_timestamp(&self) -> (r: u64)
        ensures
            forall|j: int| 0 <= j < self@.len() ==> (#[trigger] self@[j]).timestamp <= r,
            r != 0 ==> exists|j: int| 0 <= j < self@.len() && self@[j].timestamp == r,
    {
        let mut best: u64 = 0;
        let mut i: usize = 0;
        while i < self.records.len()
            invariant
                0 <= i <= self.records@.len(),
                self@ == self.records@.map_values(|r: HistoryRecord| r@),
                forall|j: int| 0 <= j < i ==> (#[trigger] self@[j]).timestamp <= best,
                best != 0 ==> exists|j: int| 0 <= j < i && self@[j].timestamp == best,
            decreases self.records@.len() - i,
        {
            if self.records[i].timestamp > best {
                best = self.records[i].timestamp;
                assert(self@[i as int].timestamp == best);
            }
            i = i + 1;
        }
        best
    }
}

/// String equality for id and host comparisons.
fn string_eq(a: &String, b: &String) -> (r: bool)
    ensures
        r == (a@ == b@),
{
    a.eq(b)
}

/// Clones a record.
fn clone_record(r: &HistoryRecord) -> (out: HistoryRecord)
    ensures
        out@ == r@,
{
    HistoryRecord {
        id: r.id.clone(),
        timestamp: r.timestamp,
        hostname: r.hostname.clone(),
        command: r.command.clone(),
        cwd: r.cwd.clone(),
        exit: r.exit,
        duration: r.duration,
    }
}

} // verus!
