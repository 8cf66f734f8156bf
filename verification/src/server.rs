//! The sync server: a relay that stores encrypted blobs for one user's
//! namespace and serves them back filtered by host and timestamp. It never
//! decrypts and never inspects ciphertext; it indexes only the cleartext
//! `id`, `timestamp` and `hostname` fields of each upload.

use vstd::prelude::*;
use crate::api::{AddHistoryRequest, CountResponse, SyncHistoryRequest, SyncHistoryResponse};

verus! {

broadcast use vstd::seq_lib::group_seq_lib_default, Seq::lemma_filter_push;

/// The fixed page size of `sync_history` responses.
pub const PAGE_SIZE: usize = 100;

/// One stored blob, as the server keeps it.
#[derive(Debug, Clone)]
pub struct StoredBlob {
    /// The upload's deduplication key.
    pub id: String,
    /// The record's creation instant; the range-query key.
    pub timestamp: u64,
    /// The originating host.
    pub hostname: String,
    /// The blob's wire string; opaque here.
    pub data: String,
    /// When the server ingested the blob: its rank in ingestion order.
    pub ingest: u64,
}

/// The mathematical model of a stored blob.
#[verifier::ext_equal]
pub ghost struct ItemModel {
    pub id: Seq<char>,
    pub timestamp: u64,
    pub hostname: Seq<char>,
    pub data: Seq<char>,
    pub ingest: u64,
}

impl View for StoredBlob {
    type V = ItemModel;

    open spec fn view(&self) -> ItemModel {
        ItemModel {
            id: self.id@,
            timestamp: self.timestamp,
            hostname: self.hostname@,
            data: self.data@,
            ingest: self.ingest,
        }
    }
}

/// The item one upload stores, given its ingestion rank.
pub open spec fn item_of_request(id: Seq<char>, timestamp: u64, hostname: Seq<char>, data: Seq<char>, ingest: u64) -> ItemModel {
    ItemModel { id, timestamp, hostname, data, ingest }
}

/// Some stored item carries this id.
pub open spec fn has_id(s: Seq<ItemModel>, id: Seq<char>) -> bool {
    exists|k: int| 0 <= k < s.len() && s[k].id == id
}

/// No two stored items share an id.
pub open spec fn ids_unique(s: Seq<ItemModel>) -> bool {
    forall|i: int, j: int| 0 <= i < j < s.len() ==> s[i].id != s[j].id
}

/// Items are ordered by ascending timestamp.
pub open spec fn sorted_by_ts(s: Seq<ItemModel>) -> bool {
    forall|i: int, j: int| 0 <= i <= j < s.len() ==> s[i].timestamp <= s[j].timestamp
}

/// Every ingestion rank is below the item count (ranks are dense).
pub open spec fn ingests_bounded(s: Seq<ItemModel>) -> bool {
    forall|i: int| 0 <= i < s.len() ==> s[i].ingest < s.len()
}

/// An item answers a sync query when its timestamp is past the cursor, it
/// did not originate from the asking host, and it was ingested before the
/// query's ingestion bound.
pub open spec fn item_matches(it: ItemModel, sync_ts: u64, history_ts: u64, host: Seq<char>) -> bool {
    it.timestamp > history_ts && it.hostname != host && it.ingest < sync_ts
}

/// All items answering a sync query, in stored (ascending) order.
pub open spec fn matching(s: Seq<ItemModel>, sync_ts: u64, history_ts: u64, host: Seq<char>) -> Seq<
    ItemModel,
> {
    s.filter(|it: ItemModel| item_matches(it, sync_ts, history_ts, host))
}

/// The page a sync query is answered with: the first [`PAGE_SIZE`] matching
/// items, or all of them where fewer match.
pub open spec fn page_of(s: Seq<ItemModel>, sync_ts: u64, history_ts: u64, host: Seq<char>) -> Seq<
    ItemModel,
> {
    let m = matching(s, sync_ts, history_ts, host);
    if m.len() <= PAGE_SIZE {
        m
    } else {
        m.take(PAGE_SIZE as int)
    }
}

/// The blob store of one user's namespace. Cross-user queries are impossible
/// by construction: every key includes the user, so one value of this type
/// holds one user's blobs only.
pub struct ServerStore {
    items: Vec<StoredBlob>,
}

impl View for ServerStore {
    type V = Seq<ItemModel>;

    closed spec fn view(&self) -> Seq<ItemModel> {
        self.items@.map_values(|b: StoredBlob| b@)
    }
}

impl ServerStore {
    /// The store's invariant: unique ids, ascending timestamps, dense
    /// ingestion ranks, and a count that fits the count reply.
    pub open spec fn wf(&self) -> bool {
        &&& ids_unique(self@)
        &&& sorted_by_ts(self@)
        &&& ingests_bounded(self@)
    }

    /// An empty store.
    pub fn new() -> (r: Self)
        ensures
            r.wf(),
            r@ == Seq::<ItemModel>::empty(),
    {
        let r = ServerStore { items: Vec::new() };
        proof {
            assert(r@ =~= Seq::<ItemModel>::empty());
        }
        r
    }

    /// Stores one upload keyed by `id`. Re-sending an `id` the store already
    /// holds is an idempotent no-op, never an error and never a duplicate;
    /// a new `id` is inserted in timestamp order with the next ingestion
    /// rank. (Idempotent upload, stated over the model.)
    pub fn add_history(&mut self, req: AddHistoryRequest)
        requires
            old(self).wf(),
        ensures
            final(self).wf(),
            has_id(old(self)@, req.id@) ==> final(self)@ == old(self)@,
            !has_id(old(self)@, req.id@) ==> exists|pos: int|
                0 <= pos <= old(self)@.len() && final(self)@ == #[trigger] old(self)@.insert(
                    pos,
                    item_of_request(
                        req.id@,
                        req.timestamp,
                        req.hostname@,
                        req.data@,
                        old(self)@.len() as u64,
                    ),
                ),
            has_id(final(self)@, req.id@),
            forall|x: ItemModel| old(self)@.contains(x) ==> final(self)@.contains(x),
            forall|x: ItemModel|
                final(self)@.contains(x) ==> old(self)@.contains(x) || x == item_of_request(
                    req.id@,
                    req.timestamp,
                    req.hostname@,
                    req.data@,
                    old(self)@.len() as u64,
                ),
    {
        if contains_id(&self.items, &req.id) {
            return ;
        }
        let pos = find_pos(&self.items, req.timestamp);
        let ingest = self.items.len() as u64;
        let it = StoredBlob {
            id: req.id,
            timestamp: req.timestamp,
            hostname: req.hostname,
            data: req.data,
            ingest,
        };
        let ghost old_model = self@;
        let ghost old_items = self.items@;
        let ghost im = it@;
        self.items.insert(pos, it);
        proof {
            assert(forall|j: int|
                0 <= j < old_model.len() ==> old_model[j] == (#[trigger] old_items[j])@);
            assert(self@ =~= old_model.insert(pos as int, im));
            assert(im == item_of_request(
                req.id@,
                req.timestamp,
                req.hostname@,
                req.data@,
                old_model.len() as u64,
            ));
            assert(self@ == old(self)@.insert(
                pos as int,
                item_of_request(
                    req.id@,
                    req.timestamp,
                    req.hostname@,
                    req.data@,
                    old(self)@.len() as u64,
                ),
            ));
            lemma_insert_preserves(old_model, pos as int, im);
        }
    }

    /// The stored blob at an index; with [`Self::count`], lets the process
    /// edge walk and persist the store.
    pub fn item_at(&self, i: usize) -> (r: &StoredBlob)
        requires
            i < self@.len(),
        ensures
            r@ == self@[i as int],
    {
        proof {
            assert(self@[i as int] == self.items@[i as int]@);
        }
        &self.items[i]
    }

    /// How many blobs the store holds.
    pub fn count(&self) -> (r: CountResponse)
        requires
            self.wf(),
            self@.len() <= 0x7fff_ffff_ffff_ffff,
        ensures
            r.count == self@.len() as i64,
            0 <= r.count,
    {
        CountResponse { count: self.items.len() as i64 }
    }

    /// Answers one page of a sync query: the first [`PAGE_SIZE`] stored
    /// blobs (in ascending timestamp order) with timestamp after
    /// `history_ts`, not from `host`, ingested before `sync_ts`. The reply
    /// carries their wire strings.
    pub fn sync_history(&self, req: &SyncHistoryRequest) -> (r: SyncHistoryResponse)
        requires
            self.wf(),
        ensures
            ({
                let page = page_of(self@, req.sync_ts, req.history_ts, req.host@);
                &&& r.history@.len() == page.len()
                &&& forall|i: int| 0 <= i < page.len() ==> r.history@[i]@ == #[trigger] page[i].data
            }),
    {
        let ghost page = page_of(self@, req.sync_ts, req.history_ts, req.host@);
        let mut out: Vec<String> = Vec::new();
        let mut i: usize = 0;
        while i < self.items.len() && out.len() < PAGE_SIZE
            invariant
                self.wf(),
                0 <= i <= self@.len(),
                out@.len() <= PAGE_SIZE,
                ({
                    let m = matching(self@.take(i as int), req.sync_ts, req.history_ts, req.host@);
                    &&& m.len() == out@.len()
                    &&& forall|j: int| 0 <= j < m.len() ==> out@[j]@ == #[trigger] m[j].data
                }),
            decreases self@.len() - i,
        {
            let ghost m_before = matching(
                self@.take(i as int),
                req.sync_ts,
                req.history_ts,
                req.host@,
            );
            let it = &self.items[i];
            if it.timestamp > req.history_ts && !host_eq(&it.hostname, &req.host) && it.ingest
                < req.sync_ts {
                out.push(clone_string(&it.data));
            }
            proof {
                assert(self@.take(i as int + 1) =~= self@.take(i as int).push(self@[i as int]));
            }
            i = i + 1;
        }
        proof {
            let m_all = matching(self@, req.sync_ts, req.history_ts, req.host@);
            if i == self@.len() {
                assert(self@.take(i as int) =~= self@);
            } else {
                let pre = self@.take(i as int);
                let suf = self@.skip(i as int);
                assert(self@ =~= pre + suf);
                let m_pre = matching(pre, req.sync_ts, req.history_ts, req.host@);
                let m_suf = matching(suf, req.sync_ts, req.history_ts, req.host@);
                assert(m_all == m_pre + m_suf);
                assert(m_all.take(PAGE_SIZE as int) =~= m_pre);
            }
        }
        SyncHistoryResponse { history: out }
    }
}

/// Every element of a filtered sequence is an element of the source.
pub proof fn lemma_filter_elem<A>(s: Seq<A>, pred: spec_fn(A) -> bool, i: int)
    requires
        0 <= i < s.filter(pred).len(),
    ensures
        s.contains(s.filter(pred)[i]),
    decreases s.len(),
{
    reveal(Seq::filter);
    if s.len() > 0 {
        let f = s.filter(pred);
        let fd = s.drop_last().filter(pred);
        if i < fd.len() {
            lemma_filter_elem(s.drop_last(), pred, i);
            let w = choose|w: int| 0 <= w < s.drop_last().len() && s.drop_last()[w] == fd[i];
            assert(s[w] == f[i]);
        } else {
            assert(s[s.len() - 1] == f[i]);
        }
    }
}

/// Idempotent upload: a well-formed store never holds two blobs with one id.
/// Together with `add_history`'s promise that re-adding a stored id leaves
/// the store unchanged, storing the same upload twice leaves exactly one
/// blob for that id.
pub proof fn lemma_idempotent_upload(s: Seq<ItemModel>, id: Seq<char>)
    requires
        ids_unique(s),
    ensures
        s.filter(|it: ItemModel| it.id == id).len() <= 1,
    decreases s.len(),
{
    reveal(Seq::filter);
    if s.len() > 0 {
        let d = s.drop_last();
        assert(ids_unique(d)) by {
            assert(forall|i: int, j: int| 0 <= i < j < d.len() ==> d[i] == s[i] && d[j] == s[j]);
        }
        lemma_idempotent_upload(d, id);
        let fd = d.filter(|it: ItemModel| it.id == id);
        if s.last().id == id {
            if fd.len() > 0 {
                d.lemma_filter_pred(|it: ItemModel| it.id == id, 0);
                lemma_filter_elem(d, |it: ItemModel| it.id == id, 0);
                let w = choose|w: int| 0 <= w < d.len() && d[w] == fd[0];
                assert(s[w].id == s[s.len() - 1].id);
                assert(false);
            }
        }
    }
}

/// Inserting a fresh id at a sorted position preserves the store invariant.
proof fn lemma_insert_preserves(s: Seq<ItemModel>, pos: int, im: ItemModel)
    requires
        ids_unique(s),
        sorted_by_ts(s),
        ingests_bounded(s),
        0 <= pos <= s.len(),
        !has_id(s, im.id),
        im.ingest == s.len(),
        forall|j: int| 0 <= j < pos ==> s[j].timestamp <= im.timestamp,
        forall|j: int| pos <= j < s.len() ==> s[j].timestamp > im.timestamp,
    ensures
        ids_unique(s.insert(pos, im)),
        sorted_by_ts(s.insert(pos, im)),
        ingests_bounded(s.insert(pos, im)),
        s.insert(pos, im).contains(im),
        forall|x: ItemModel| s.contains(x) ==> s.insert(pos, im).contains(x),
        forall|x: ItemModel| s.insert(pos, im).contains(x) ==> s.contains(x) || x == im,
        has_id(s.insert(pos, im), im.id),
{
    let t = s.insert(pos, im);
    assert(forall|j: int| 0 <= j < pos ==> t[j] == s[j]);
    assert(forall|j: int| pos < j < t.len() ==> t[j] == s[j - 1]);
    assert(t[pos] == im);
    assert forall|x: ItemModel| s.contains(x) implies t.contains(x) by {
        let k = choose|k: int| 0 <= k < s.len() && s[k] == x;
        if k < pos {
            assert(t[k] == x);
        } else {
            assert(t[k + 1] == x);
        }
    }
    assert forall|x: ItemModel| t.contains(x) implies s.contains(x) || x == im by {
        let k = choose|k: int| 0 <= k < t.len() && t[k] == x;
        if k < pos {
            assert(s[k] == x);
        } else if k > pos {
            assert(s[k - 1] == x);
        }
    }
    assert(has_id(t, im.id)) by {
        assert(t[pos].id == im.id);
    }
}

/// True when the store already holds this id.
fn contains_id(items: &Vec<StoredBlob>, id: &String) -> (r: bool)
    ensures
        r == has_id(items@.map_values(|b: StoredBlob| b@), id@),
{
    let ghost s = items@.map_values(|b: StoredBlob| b@);
    let mut i: usize = 0;
    while i < items.len()
        invariant
            0 <= i <= items@.len(),
            s == items@.map_values(|b: StoredBlob| b@),
            forall|j: int| 0 <= j < i ==> s[j].id != id@,
        decreases items@.len() - i,
    {
        if host_eq(&items[i].id, id) {
            assert(s[i as int].id == id@);
            return true;
        }
        i = i + 1;
    }
    false
}

/// The insertion point that keeps timestamps ascending: the index of the
/// first stored item with a strictly later timestamp.
fn find_pos(items: &Vec<StoredBlob>, ts: u64) -> (pos: usize)
    requires
        sorted_by_ts(items@.map_values(|b: StoredBlob| b@)),
    ensures
        pos <= items@.len(),
        forall|j: int| 0 <= j < pos ==> (#[trigger] items@[j])@.timestamp <= ts,
        forall|j: int| pos <= j < items@.len() ==> (#[trigger] items@[j])@.timestamp > ts,
{
    let ghost s = items@.map_values(|b: StoredBlob| b@);
    let mut i: usize = 0;
    while i < items.len()
        invariant
            0 <= i <= items@.len(),
            s == items@.map_values(|b: StoredBlob| b@),
            sorted_by_ts(s),
            forall|j: int| 0 <= j < i ==> (#[trigger] items@[j])@.timestamp <= ts,
        decreases items@.len() - i,
    {
        if items[i].timestamp > ts {
            proof {
                let gi = items@;
                assert forall|j: int| i <= j < gi.len() implies (#[trigger] gi[j])@.timestamp
                    > ts by {
                    assert(s[i as int].timestamp > ts);
                    assert(s[i as int].timestamp <= s[j].timestamp);
                    assert(s[j] == gi[j]@);
                }
            }
            return i;
        }
        i = i + 1;
    }
    i
}

/// String equality, used for host and id comparisons.
fn host_eq(a: &String, b: &String) -> (r: bool)
    ensures
        r == (a@ == b@),
{
    a.eq(b)
}

/// Clones a wire string.
fn clone_string(s: &String) -> (r: String)
    ensures
        r@ == s@,
{
    s.clone()
}

} // verus!
