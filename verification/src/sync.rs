//! The sync client: one-shot reconciliation of a local store with the relay
//! server. A run negotiates (count), uploads every local record past the
//! checkpoint, downloads and decrypts remote records page by page until a
//! short page signals exhaustion, inserts them idempotently, and only then
//! advances the checkpoint. A failed run leaves the checkpoint untouched and
//! is safe to retry blindly: every step is idempotent.

use vstd::prelude::*;
use crate::{CryptoError, SyncError};
use crate::api::{AddHistoryRequest, SyncHistoryRequest};
use crate::cipher::{
    decrypt, decrypt_ok, lemma_encrypt_decrypt_round_trip, nonce_of, BlobModel, CipherEngine,
    MAX_PAYLOAD_LEN,
};
use crate::record::{record_payload, HistoryRecord, RecordModel};
use crate::server::{
    has_id, ids_unique, item_matches, lemma_filter_elem, matching, page_of, ItemModel, ServerStore,
    PAGE_SIZE,
};
use crate::store::{rec_has_id, rec_ids_unique, records_after, ClientStore};
use crate::wire::{b64_decoded_of, blob_to_wire, encode_blob, wire_of, wire_to_blob};

verus! {

broadcast use vstd::seq_lib::group_seq_lib_default, Seq::lemma_filter_push;

/// Server item `it` carries blob `bm` on the wire, and `bm` decrypts under
/// `key` to exactly record `rm`, the cleartext index fields agreeing
/// throughout.
pub open spec fn item_blob_record(
    key: Seq<u8>,
    it: ItemModel,
    bm: BlobModel,
    rm: RecordModel,
) -> bool {
    &&& it.data == wire_of(bm)
    &&& bm.nonce.len() == 24
    &&& encode_blob(bm).len() < 0x1_0000_0000_0000_0000
    &&& bm.id == it.id
    &&& bm.timestamp == it.timestamp
    &&& bm.hostname == it.hostname
    &&& decrypt_ok(key, bm, rm)
}

/// The item decrypts under `key` at all.
pub open spec fn item_valid(key: Seq<u8>, it: ItemModel) -> bool {
    exists|bm: BlobModel, rm: RecordModel| item_blob_record(key, it, bm, rm)
}

/// The item's data decodes to the canonical byte form of a well-formed blob
/// that decrypts under `key`: what a download can check of an item. Unlike
/// [`item_valid`], it does not ask the item's cleartext fields to agree with
/// the blob's.
pub open spec fn item_decryptable(key: Seq<u8>, it: ItemModel) -> bool {
    exists|bm: BlobModel, rm: RecordModel|
        #[trigger] decrypt_ok(key, bm, rm) && bm.nonce.len() == 24 && encode_blob(bm).len()
            < 0x1_0000_0000_0000_0000 && b64_decoded_of(it.data) == Some(encode_blob(bm))
}

/// The item's cleartext index fields agree with the blob its data carries:
/// an honest relay stores an upload's fields exactly as stated.
pub open spec fn item_consistent(it: ItemModel) -> bool {
    forall|bm: BlobModel|
        (bm.nonce.len() == 24 && encode_blob(bm).len() < 0x1_0000_0000_0000_0000
            && b64_decoded_of(it.data) == Some(#[trigger] encode_blob(bm))) ==> bm.id == it.id
            && bm.timestamp == it.timestamp && bm.hostname == it.hostname
}

/// Timestamps strictly ascend: no two items share one.
pub open spec fn ts_strictly_sorted(s: Seq<ItemModel>) -> bool {
    forall|i: int, j: int| 0 <= i < j < s.len() ==> s[i].timestamp < s[j].timestamp
}

/// Every matching, decryptable server item's record has landed in `now`, or
/// a record with its id was already stored before the run.
pub open spec fn downloads_done(
    key: Seq<u8>,
    srv: Seq<ItemModel>,
    bound: u64,
    cp0: u64,
    host: Seq<char>,
    upto: u64,
    now: Seq<RecordModel>,
    base: Seq<RecordModel>,
) -> bool {
    forall|j: int, bm: BlobModel, rm: RecordModel|
        (0 <= j < srv.len() && item_matches(srv[j], bound, cp0, host) && srv[j].timestamp <= upto
            && #[trigger] item_blob_record(key, srv[j], bm, rm)) ==> (now.contains(rm)
            || rec_has_id(base, rm.id))
}

/// Filtering keeps timestamps strictly ascending, and the last kept item is
/// no later than the last of the source.
proof fn lemma_filter_strict_sorted(s: Seq<ItemModel>, pred: spec_fn(ItemModel) -> bool)
    requires
        ts_strictly_sorted(s),
    ensures
        ts_strictly_sorted(s.filter(pred)),
        s.filter(pred).len() > 0 ==> s.len() > 0 && s.filter(pred).last().timestamp
            <= s.last().timestamp,
    decreases s.len(),
{
    reveal(Seq::filter);
    if s.len() > 0 {
        let d = s.drop_last();
        assert(ts_strictly_sorted(d)) by {
            assert(forall|i: int, j: int| 0 <= i < j < d.len() ==> d[i] == s[i] && d[j] == s[j]);
        }
        lemma_filter_strict_sorted(d, pred);
        let f = s.filter(pred);
        let fd = d.filter(pred);
        if pred(s.last()) {
            assert(f == fd.push(s.last()));
            assert forall|i: int, j: int| 0 <= i < j < f.len() implies f[i].timestamp
                < f[j].timestamp by {
                if j < fd.len() {
                } else {
                    assert(f[j] == s.last());
                    if fd.len() > 0 {
                        assert(f[i] == fd[i]);
                        assert(fd[i].timestamp <= fd.last().timestamp || i == fd.len() - 1);
                        assert(fd.last().timestamp <= d.last().timestamp);
                        assert(d.last().timestamp < s.last().timestamp);
                    }
                }
            }
        } else {
            assert(f == fd);
        }
    }
}

/// A sequence that contains an item has some index holding it.
proof fn lemma_has_id_from_contains(s: Seq<ItemModel>, x: ItemModel)
    requires
        s.contains(x),
    ensures
        has_id(s, x.id),
{
    let w = choose|w: int| 0 <= w < s.len() && s[w] == x;
    assert(s[w].id == x.id);
}

/// What one sync run reports.
#[derive(Debug, Clone, Copy, PartialEq, Eq, Structural)]
pub struct SyncStats {
    /// Download round trips made (each asks for one page). Always exactly
    /// one more than the number of full pages the downloads filled.
    pub pages: u64,
    /// Records sent to the server.
    pub uploaded: u64,
    /// Blobs received and decrypted.
    pub downloaded: u64,
    /// The cursor the run ended on: the checkpoint after success.
    pub cursor: u64,
}

/// Encrypts and uploads every record in `to_send`; idempotent on the server.
fn upload_all(
    engine: &mut CipherEngine,
    server: &mut ServerStore,
    to_send: &Vec<HistoryRecord>,
) -> (r: Result<(), SyncError>)
    requires
        old(engine).wf(),
        old(server).wf(),
        old(engine).counter_model() + to_send@.len() <= u64::MAX,
    ensures
        final(engine).wf(),
        final(server).wf(),
        final(engine).key_model() == old(engine).key_model(),
        final(engine).prefix_model() == old(engine).prefix_model(),
        final(engine).counter_model() <= old(engine).counter_model() + to_send@.len(),
        final(server)@.len() <= old(server)@.len() + to_send@.len(),
        forall|x: ItemModel| old(server)@.contains(x) ==> final(server)@.contains(x),
        forall|x: ItemModel|
            final(server)@.contains(x) ==> old(server)@.contains(x) || exists|k: int, bm: BlobModel|
                0 <= k < to_send@.len() && #[trigger] item_blob_record(
                    old(engine).key_model(),
                    x,
                    bm,
                    to_send@[k]@,
                ),
        r is Ok ==> forall|k: int|
            0 <= k < to_send@.len() ==> has_id(final(server)@, (#[trigger] to_send@[k])@.id),
        r matches Err(e) ==> e matches SyncError::UploadCrypto {
            error,
            id,
            timestamp,
            hostname,
        } && error == CryptoError::EncodingFailure && exists|k: int|
            0 <= k < to_send@.len() && (#[trigger] to_send@[k])@.id == id@ && to_send@[k]@.timestamp
                == timestamp && to_send@[k]@.hostname == hostname@ && record_payload(
                to_send@[k]@,
            ).len() > MAX_PAYLOAD_LEN,
{
    let ghost key = old(engine).key_model();
    let ghost prefix = old(engine).prefix_model();
    let ghost base_srv = old(server)@;
    let mut k: usize = 0;
    while k < to_send.len()
        invariant
            engine.wf(),
            server.wf(),
            0 <= k <= to_send@.len(),
            engine.key_model() == key,
            engine.prefix_model() == prefix,
            key == old(engine).key_model(),
            prefix == old(engine).prefix_model(),
            base_srv == old(server)@,
            engine.counter_model() + (to_send@.len() - k) <= u64::MAX,
            engine.counter_model() <= old(engine).counter_model() + k,
            server@.len() <= base_srv.len() + k,
            forall|x: ItemModel| base_srv.contains(x) ==> server@.contains(x),
            forall|x: ItemModel|
                server@.contains(x) ==> base_srv.contains(x) || exists|j: int, bm: BlobModel|
                    0 <= j < k && #[trigger] item_blob_record(key, x, bm, to_send@[j]@),
            forall|j: int| 0 <= j < k ==> has_id(server@, (#[trigger] to_send@[j])@.id),
        decreases to_send@.len() - k,
    {
        let rec = &to_send[k];
        let ghost c0 = engine.counter_model();
        let blob = match engine.encrypt(rec) {
            Ok(b) => b,
            Err(_) => {
                return Err(SyncError::UploadCrypto {
                    error: CryptoError::EncodingFailure,
                    id: clone_string(&rec.id),
                    timestamp: rec.timestamp,
                    hostname: clone_string(&rec.hostname),
                });
            },
        };
        let data = blob_to_wire(&blob);
        let ghost bv = blob@;
        let ghost dv = data@;
        proof {
            lemma_encrypt_decrypt_round_trip(key, nonce_of(prefix, c0), rec@);
        }
        let ghost srv_before = server@;
        let req = AddHistoryRequest {
            id: blob.id,
            timestamp: blob.timestamp,
            hostname: blob.hostname,
            data,
        };
        server.add_history(req);
        proof {
            let it = crate::server::item_of_request(
                bv.id,
                bv.timestamp,
                bv.hostname,
                dv,
                srv_before.len() as u64,
            );
            assert(item_blob_record(key, it, bv, rec@));
            assert forall|x: ItemModel| server@.contains(x) implies srv_before.contains(x) || x
                == it by {}
            assert forall|j: int| 0 <= j < k + 1 implies has_id(
                server@,
                (#[trigger] to_send@[j])@.id,
            ) by {
                if j < k {
                    let w = choose|w: int|
                        0 <= w < srv_before.len() && srv_before[w].id == to_send@[j]@.id;
                    assert(srv_before.contains(srv_before[w]));
                    assert(server@.contains(srv_before[w]));
                    lemma_has_id_from_contains(server@, srv_before[w]);
                } else {
                    assert(has_id(server@, it.id));
                }
            }
        }
        k = k + 1;
    }
    Ok(())
}

/// Every matching server item decrypts under `key`.
pub open spec fn all_matching_valid(
    key: Seq<u8>,
    srv: Seq<ItemModel>,
    bound: u64,
    cp0: u64,
    host: Seq<char>,
) -> bool {
    forall|j: int|
        (0 <= j < srv.len() && item_matches(#[trigger] srv[j], bound, cp0, host)) ==> item_valid(
            key,
            srv[j],
        )
}

/// Every matching server item's cleartext fields agree with its blob.
pub open spec fn all_matching_consistent(
    srv: Seq<ItemModel>,
    bound: u64,
    cp0: u64,
    host: Seq<char>,
) -> bool {
    forall|j: int|
        (0 <= j < srv.len() && item_matches(#[trigger] srv[j], bound, cp0, host))
            ==> item_consistent(srv[j])
}

/// The record is the decryption of some well-formed blob under `key`:
/// everything a download inserts is authenticated.
pub open spec fn blob_backed(key: Seq<u8>, x: RecordModel) -> bool {
    exists|bm: BlobModel| bm.nonce.len() == 24 && #[trigger] decrypt_ok(key, bm, x)
}

/// The item decrypts to `x` and to nothing else.
pub open spec fn item_determined(key: Seq<u8>, it: ItemModel, x: RecordModel) -> bool {
    &&& exists|bm: BlobModel| #[trigger] item_blob_record(key, it, bm, x)
    &&& forall|bm: BlobModel, rm: RecordModel|
        #[trigger] item_blob_record(key, it, bm, rm) ==> rm =~= x
}

/// The record is the one decryption of some matching server item.
pub open spec fn from_matching_item(
    key: Seq<u8>,
    srv: Seq<ItemModel>,
    bound: u64,
    cp0: u64,
    host: Seq<char>,
    x: RecordModel,
) -> bool {
    exists|j: int|
        0 <= j < srv.len() && item_matches(#[trigger] srv[j], bound, cp0, host) && item_determined(
            key,
            srv[j],
            x,
        )
}

/// Every matching, decryptable item with a timestamp at or below `upto` has
/// its record in the collected batch.
pub open spec fn collected_done(
    key: Seq<u8>,
    srv: Seq<ItemModel>,
    bound: u64,
    cp0: u64,
    host: Seq<char>,
    upto: u64,
    col: Seq<RecordModel>,
) -> bool {
    forall|j: int, bm: BlobModel, rm: RecordModel|
        (0 <= j < srv.len() && item_matches(srv[j], bound, cp0, host) && srv[j].timestamp <= upto
            && #[trigger] item_blob_record(key, srv[j], bm, rm)) ==> col.contains(rm)
}

/// Where a successful run must land its checkpoint: at the greatest
/// timestamp among the matching server items, or at the starting cursor
/// where none match (the three clauses pin that value exactly).
pub open spec fn checkpoint_exact(
    srv: Seq<ItemModel>,
    bound: u64,
    cp0: u64,
    host: Seq<char>,
    c: u64,
) -> bool {
    &&& c >= cp0
    &&& forall|j: int|
        (0 <= j < srv.len() && item_matches(#[trigger] srv[j], bound, cp0, host))
            ==> srv[j].timestamp <= c
    &&& (c == cp0 || exists|j: int|
        0 <= j < srv.len() && item_matches(#[trigger] srv[j], bound, cp0, host)
            && c == srv[j].timestamp)
}

/// What a failing download names: some matching item does not decrypt, and a
/// decryption failure carries the failing blob's own cleartext fields.
pub open spec fn download_err_ok(
    key: Seq<u8>,
    e: SyncError,
    srv: Seq<ItemModel>,
    bound: u64,
    cp0: u64,
    host: Seq<char>,
) -> bool {
    match e {
        SyncError::Protocol => exists|j: int|
            0 <= j < srv.len() && item_matches(#[trigger] srv[j], bound, cp0, host)
                && !item_valid(key, srv[j]),
        SyncError::DownloadCrypto { error, id, timestamp, hostname } => exists|j: int|
            0 <= j < srv.len() && item_matches(#[trigger] srv[j], bound, cp0, host)
                && !item_valid(key, srv[j]) && (forall|bm: BlobModel|
                (bm.nonce.len() == 24 && encode_blob(bm).len() < 0x1_0000_0000_0000_0000
                    && srv[j].data == wire_of(bm)) ==> bm.id == id@ && bm.timestamp == timestamp
                    && bm.hostname == hostname@),
        SyncError::UploadCrypto { .. } => false,
    }
}

/// Inserts a fully decrypted batch into the local store, idempotently on
/// `id`. Runs only after every blob of the run decrypted, so a failed run
/// never touches the store.
fn insert_batch(
    store: &mut ClientStore,
    batch: Vec<HistoryRecord>,
    Ghost(key): Ghost<Seq<u8>>,
    Ghost(srv): Ghost<Seq<ItemModel>>,
    Ghost(bound): Ghost<u64>,
    Ghost(cp0): Ghost<u64>,
    Ghost(host): Ghost<Seq<char>>,
    Ghost(col): Ghost<Seq<RecordModel>>,
)
    requires
        old(store).wf(),
        ids_unique(srv),
        col.len() == batch@.len(),
        forall|i: int| 0 <= i < col.len() ==> (#[trigger] batch@[i])@ == col[i],
        all_matching_valid(key, srv, bound, cp0, host) ==> forall|i: int|
            0 <= i < col.len() ==> from_matching_item(key, srv, bound, cp0, host, #[trigger] col[i]),
    ensures
        final(store).wf(),
        forall|x: RecordModel| old(store)@.contains(x) ==> final(store)@.contains(x),
        forall|x: RecordModel|
            final(store)@.contains(x) ==> old(store)@.contains(x) || col.contains(x),
        all_matching_valid(key, srv, bound, cp0, host) ==> forall|i: int|
            0 <= i < col.len() ==> final(store)@.contains(#[trigger] col[i]) || rec_has_id(
                old(store)@,
                col[i].id,
            ),
{
    let ghost base = old(store)@;
    let ghost av = all_matching_valid(key, srv, bound, cp0, host);
    let mut k: usize = 0;
    while k < batch.len()
        invariant
            store.wf(),
            base == old(store)@,
            av == all_matching_valid(key, srv, bound, cp0, host),
            ids_unique(srv),
            0 <= k <= batch@.len(),
            col.len() == batch@.len(),
            forall|i: int| 0 <= i < col.len() ==> (#[trigger] batch@[i])@ == col[i],
            av ==> forall|i: int|
                0 <= i < col.len() ==> from_matching_item(
                    key,
                    srv,
                    bound,
                    cp0,
                    host,
                    #[trigger] col[i],
                ),
            forall|x: RecordModel| base.contains(x) ==> store@.contains(x),
            forall|x: RecordModel| store@.contains(x) ==> base.contains(x) || col.contains(x),
            av ==> forall|i: int|
                0 <= i < k ==> store@.contains(#[trigger] col[i]) || rec_has_id(base, col[i].id),
        decreases batch@.len() - k,
    {
        let rec = clone_record(&batch[k]);
        let ghost rv = col[k as int];
        let ghost store_before = store@;
        store.insert_if_absent(rec);
        proof {
            assert forall|x: RecordModel| store_before.contains(x) implies store@.contains(x) by {
                let w = choose|w: int| 0 <= w < store_before.len() && store_before[w] == x;
                assert(store@[w] == x);
            }
            assert(col.contains(rv));
            if av {
                if !store@.contains(rv) {
                    assert(rec_has_id(store_before, rv.id));
                    let w = choose|w: int|
                        0 <= w < store_before.len() && store_before[w].id == rv.id;
                    let wrec = store_before[w];
                    assert(store_before.contains(wrec));
                    if base.contains(wrec) {
                        let wb = choose|wb: int| 0 <= wb < base.len() && base[wb] == wrec;
                        assert(base[wb].id == rv.id);
                        assert(rec_has_id(base, rv.id));
                    } else {
                        assert(col.contains(wrec));
                        let iw = choose|iw: int| 0 <= iw < col.len() && col[iw] == wrec;
                        assert(from_matching_item(key, srv, bound, cp0, host, wrec));
                        assert(from_matching_item(key, srv, bound, cp0, host, rv));
                        let j1 = choose|j1: int|
                            0 <= j1 < srv.len() && item_matches(srv[j1], bound, cp0, host)
                                && item_determined(key, srv[j1], wrec);
                        let j2 = choose|j2: int|
                            0 <= j2 < srv.len() && item_matches(srv[j2], bound, cp0, host)
                                && item_determined(key, srv[j2], rv);
                        let bm1 = choose|bm1: BlobModel| item_blob_record(key, srv[j1], bm1, wrec);
                        let bm2 = choose|bm2: BlobModel| item_blob_record(key, srv[j2], bm2, rv);
                        assert(wrec.id == srv[j1].id && rv.id == srv[j2].id);
                        if j1 != j2 {
                            assert(srv[j1].id != srv[j2].id);
                            assert(false);
                        }
                        assert(item_blob_record(key, srv[j1], bm2, rv));
                        assert(rv =~= wrec);
                        assert(store@.contains(rv));
                    }
                }
            }
        }
        k = k + 1;
    }
}

/// Downloads every page of remote records past `cp0` not from `host`,
/// decrypts each blob, and only once every page has fully decrypted inserts
/// the whole batch idempotently: a failed run leaves the store exactly as it
/// was. Returns the round trips made, the final cursor (the greatest
/// downloaded timestamp) and the blob count received. Completes exactly when
/// a page comes back shorter than [`PAGE_SIZE`].
#[verifier::rlimit(100)]
fn download_all(
    key: &Vec<u8>,
    host: &String,
    store: &mut ClientStore,
    server: &ServerStore,
    cp0: u64,
    bound: u64,
) -> (r: Result<(u64, u64, u64), SyncError>)
    requires
        key@.len() == 32,
        server.wf(),
        old(store).wf(),
    ensures
        final(store).wf(),
        r is Err ==> final(store)@ == old(store)@,
        // Page exhaustion: the run stops on the first short page, so the
        // round trips made are exactly one more than the full pages the
        // received blobs filled.
        r matches Ok(st) ==> st.0 as int == st.2 as int / (PAGE_SIZE as int) + 1,
        forall|x: RecordModel| old(store)@.contains(x) ==> final(store)@.contains(x),
        forall|x: RecordModel|
            final(store)@.contains(x) ==> old(store)@.contains(x) || blob_backed(key@, x),
        all_matching_valid(key@, server@, bound, cp0, host@) ==> forall|x: RecordModel|
            final(store)@.contains(x) ==> old(store)@.contains(x) || exists|j: int, bm: BlobModel|
                0 <= j < server@.len() && item_matches(server@[j], bound, cp0, host@)
                    && #[trigger] item_blob_record(key@, server@[j], bm, x),
        (r is Ok && ts_strictly_sorted(server@) && all_matching_valid(
            key@,
            server@,
            bound,
            cp0,
            host@,
        )) ==> downloads_done(key@, server@, bound, cp0, host@, u64::MAX, final(store)@, old(store)@),
        // A decryption failure is fatal: success is owed only where every
        // matching item decrypted (given strictly ascending timestamps and
        // cleartext fields that agree with the blobs they index).
        (r is Ok && ts_strictly_sorted(server@) && all_matching_consistent(
            server@,
            bound,
            cp0,
            host@,
        )) ==> forall|j: int|
            (0 <= j < server@.len() && item_matches(#[trigger] server@[j], bound, cp0, host@))
                ==> item_decryptable(key@, server@[j]),
        r matches Ok(st) ==> st.1 >= cp0 && st.0 >= 1,
        r matches Ok(st) ==> st.2 <= usize::MAX,
        r matches Ok(st) ==> (all_matching_valid(key@, server@, bound, cp0, host@)
            ==> checkpoint_exact(server@, bound, cp0, host@, st.1)),
        r matches Err(e) ==> download_err_ok(key@, e, server@, bound, cp0, host@),
{
    let ghost srv = server@;
    let ghost base = old(store)@;
    let ghost av = all_matching_valid(key@, srv, bound, cp0, host@);
    let ghost acx = ts_strictly_sorted(srv) && all_matching_consistent(srv, bound, cp0, host@);
    let mut cursor: u64 = cp0;
    let mut pages: u64 = 0;
    let mut batch: Vec<HistoryRecord> = Vec::new();
    let ghost mut col: Seq<RecordModel> = Seq::empty();
    loop
        invariant
            key@.len() == 32,
            server.wf(),
            srv == server@,
            base == old(store)@,
            av == all_matching_valid(key@, srv, bound, cp0, host@),
            acx == (ts_strictly_sorted(srv) && all_matching_consistent(srv, bound, cp0, host@)),
            store.wf(),
            store@ == old(store)@,
            cursor >= cp0,
            acx ==> (cursor == cp0 || exists|j: int|
                0 <= j < srv.len() && item_matches(#[trigger] srv[j], bound, cp0, host@) && cursor
                    == srv[j].timestamp),
            acx ==> forall|j: int|
                (0 <= j < srv.len() && item_matches(#[trigger] srv[j], bound, cp0, host@) && srv[
                j].timestamp <= cursor) ==> item_decryptable(key@, srv[j]),
            col.len() == batch@.len(),
            col.len() == pages as int * (PAGE_SIZE as int),
            forall|i: int| 0 <= i < col.len() ==> (#[trigger] batch@[i])@ == col[i],
            forall|i: int| 0 <= i < col.len() ==> blob_backed(key@, #[trigger] col[i]),
            av ==> forall|i: int|
                0 <= i < col.len() ==> from_matching_item(
                    key@,
                    srv,
                    bound,
                    cp0,
                    host@,
                    #[trigger] col[i],
                ),
            av ==> (cursor == cp0 || exists|j: int|
                0 <= j < srv.len() && item_matches(#[trigger] srv[j], bound, cp0, host@) && cursor
                    == srv[j].timestamp),
            (ts_strictly_sorted(srv) && av) ==> collected_done(
                key@,
                srv,
                bound,
                cp0,
                host@,
                cursor,
                col,
            ),
        decreases u64::MAX - cursor,
    {
        let req = SyncHistoryRequest {
            sync_ts: bound,
            history_ts: cursor,
            host: clone_string(host),
        };
        let resp = server.sync_history(&req);
        proof {
            vstd::std_specs::vec::axiom_spec_len(&batch);
            assert(pages as int * (PAGE_SIZE as int) <= usize::MAX);
            assert(pages < u64::MAX);
        }
        pages = pages.saturating_add(1);
        let cursor_start: u64 = cursor;
        let ghost page = page_of(srv, bound, cursor, host@);
        let ghost cursor0 = cursor_start;
        let mut idx: usize = 0;
        while idx < resp.history.len()
            invariant
                key@.len() == 32,
                server.wf(),
                srv == server@,
                base == old(store)@,
                av == all_matching_valid(key@, srv, bound, cp0, host@),
                acx == (ts_strictly_sorted(srv) && all_matching_consistent(
                    srv,
                    bound,
                    cp0,
                    host@,
                )),
                store.wf(),
                store@ == old(store)@,
                cursor0 >= cp0,
                cursor >= cursor0,
                acx ==> forall|i: int|
                    0 <= i < idx ==> item_decryptable(key@, #[trigger] page[i]),
                acx ==> forall|i: int|
                    0 <= i < idx ==> (#[trigger] page[i]).timestamp <= cursor,
                acx ==> (cursor == cursor0 || exists|i: int|
                    0 <= i < idx && cursor == (#[trigger] page[i]).timestamp),
                acx ==> (cursor0 == cp0 || exists|j: int|
                    0 <= j < srv.len() && item_matches(#[trigger] srv[j], bound, cp0, host@)
                        && cursor0 == srv[j].timestamp),
                acx ==> forall|j: int|
                    (0 <= j < srv.len() && item_matches(#[trigger] srv[j], bound, cp0, host@)
                        && srv[j].timestamp <= cursor0) ==> item_decryptable(key@, srv[j]),
                0 <= idx <= resp.history@.len(),
                pages >= 1,
                page == page_of(srv, bound, cursor0, host@),
                resp.history@.len() == page.len(),
                forall|i: int|
                    0 <= i < page.len() ==> resp.history@[i]@ == (#[trigger] page[i]).data,
                col.len() == batch@.len(),
                col.len() == (pages as int - 1) * (PAGE_SIZE as int) + idx,
                forall|i: int| 0 <= i < col.len() ==> (#[trigger] batch@[i])@ == col[i],
                forall|i: int| 0 <= i < col.len() ==> blob_backed(key@, #[trigger] col[i]),
                av ==> forall|i: int|
                    0 <= i < col.len() ==> from_matching_item(
                        key@,
                        srv,
                        bound,
                        cp0,
                        host@,
                        #[trigger] col[i],
                    ),
                av ==> forall|i: int, bm: BlobModel, rm: RecordModel|
                    (0 <= i < idx && #[trigger] item_blob_record(key@, page[i], bm, rm))
                        ==> col.contains(rm),
                av ==> forall|i: int|
                    0 <= i < idx ==> (#[trigger] page[i]).timestamp <= cursor,
                av ==> (cursor == cursor0 || exists|i: int|
                    0 <= i < idx && cursor == (#[trigger] page[i]).timestamp),
                av ==> (cursor0 == cp0 || exists|j: int|
                    0 <= j < srv.len() && item_matches(#[trigger] srv[j], bound, cp0, host@)
                        && cursor0 == srv[j].timestamp),
                (ts_strictly_sorted(srv) && av) ==> collected_done(
                    key@,
                    srv,
                    bound,
                    cp0,
                    host@,
                    cursor0,
                    col,
                ),
            decreases page.len() - idx,
        {
            let ghost m = matching(srv, bound, cursor0, host@);
            proof {
                assert(page[idx as int] == m[idx as int]);
                lemma_filter_elem(
                    srv,
                    |it: ItemModel| item_matches(it, bound, cursor0, host@),
                    idx as int,
                );
                srv.lemma_filter_pred(
                    |it: ItemModel| item_matches(it, bound, cursor0, host@),
                    idx as int,
                );
            }
            let ghost jj = choose|jj: int| 0 <= jj < srv.len() && srv[jj] == page[idx as int];
            proof {
                assert(item_matches(srv[jj], bound, cp0, host@));
            }
            let data = &resp.history[idx];
            let blob_opt = wire_to_blob(data.as_str());
            let blob = match blob_opt {
                Some(b) => b,
                None => {
                    proof {
                        assert(!item_valid(key@, srv[jj]));
                    }
                    return Err(SyncError::Protocol);
                },
            };
            let ghost bv = blob@;
            let rec = match decrypt(key, &blob) {
                Ok(rc) => rc,
                Err(e) => {
                    proof {
                        assert forall|bm: BlobModel, rm: RecordModel| !item_blob_record(
                            key@,
                            srv[jj],
                            bm,
                            rm,
                        ) by {
                            if item_blob_record(key@, srv[jj], bm, rm) {
                                assert(bm == bv);
                                assert(decrypt_ok(key@, bv, rm));
                            }
                        }
                        assert(!item_valid(key@, srv[jj]));
                        assert forall|bm: BlobModel|
                            (bm.nonce.len() == 24 && encode_blob(bm).len()
                                < 0x1_0000_0000_0000_0000 && srv[jj].data == wire_of(
                                bm,
                            )) implies bm.id == bv.id && bm.timestamp == bv.timestamp
                            && bm.hostname == bv.hostname by {
                            assert(bm == bv);
                        }
                    }
                    return Err(SyncError::DownloadCrypto {
                        error: e,
                        id: blob.id,
                        timestamp: blob.timestamp,
                        hostname: blob.hostname,
                    });
                },
            };
            let ghost rv = rec@;
            if blob.timestamp > cursor {
                cursor = blob.timestamp;
            }
            let ghost col_before = col;
            batch.push(rec);
            proof {
                col = col.push(rv);
                assert(col[col.len() - 1] == rv);
                assert(forall|i: int| 0 <= i < col_before.len() ==> col[i] == col_before[i]);
                assert forall|x: RecordModel| col_before.contains(x) implies col.contains(x) by {
                    let w = choose|w: int| 0 <= w < col_before.len() && col_before[w] == x;
                    assert(col[w] == x);
                }
                assert(bv.nonce.len() == 24 && decrypt_ok(key@, bv, rv));
                assert(blob_backed(key@, rv));
                if av {
                    assert(item_valid(key@, srv[jj]));
                    assert forall|bm: BlobModel, rm: RecordModel| #[trigger] item_blob_record(
                        key@,
                        page[idx as int],
                        bm,
                        rm,
                    ) implies rm =~= rv by {
                        assert(bm == bv);
                    }
                    let (bm3, rm3): (BlobModel, RecordModel) = choose|
                        bm3: BlobModel,
                        rm3: RecordModel,
                    | item_blob_record(key@, srv[jj], bm3, rm3);
                    assert(bm3 == bv);
                    assert(item_blob_record(key@, srv[jj], bv, rv));
                    assert(item_determined(key@, srv[jj], rv));
                    assert(from_matching_item(key@, srv, bound, cp0, host@, rv));
                    assert(page[idx as int].timestamp == bv.timestamp);
                    assert forall|i: int, bm: BlobModel, rm: RecordModel|
                        (0 <= i < idx + 1 && #[trigger] item_blob_record(
                            key@,
                            page[i],
                            bm,
                            rm,
                        )) implies col.contains(rm) by {
                        if i < idx {
                            assert(col_before.contains(rm));
                        } else {
                            assert(rm =~= rv);
                            assert(col.contains(rv));
                        }
                    }
                }
                if acx {
                    assert(b64_decoded_of(page[idx as int].data) == Some(encode_blob(bv)));
                    assert(item_consistent(srv[jj]));
                    assert(bv.timestamp == srv[jj].timestamp);
                    assert(item_decryptable(key@, srv[jj]));
                    assert(page[idx as int].timestamp == bv.timestamp);
                }
            }
            idx = idx + 1;
        }
        proof {
            let m = matching(srv, bound, cursor0, host@);
            if ts_strictly_sorted(srv) && av {
                lemma_filter_strict_sorted(
                    srv,
                    |it: ItemModel| item_matches(it, bound, cursor0, host@),
                );
                assert forall|j: int, bm: BlobModel, rm: RecordModel|
                    (0 <= j < srv.len() && item_matches(srv[j], bound, cp0, host@)
                        && srv[j].timestamp <= cursor && #[trigger] item_blob_record(
                        key@,
                        srv[j],
                        bm,
                        rm,
                    )) implies col.contains(rm) by {
                    if srv[j].timestamp <= cursor0 {
                    } else {
                        assert(item_matches(srv[j], bound, cursor0, host@));
                        assert(m.contains(srv[j])) by {
                            srv.lemma_filter_contains(
                                |it: ItemModel| item_matches(it, bound, cursor0, host@),
                                j,
                            );
                        }
                        let im = choose|im: int| 0 <= im < m.len() && m[im] == srv[j];
                        if im < page.len() {
                            assert(page[im] == srv[j]);
                        } else {
                            assert(page.len() == PAGE_SIZE && m.len() > PAGE_SIZE);
                            assert(m[PAGE_SIZE - 1].timestamp < m[im].timestamp);
                            assert(page[PAGE_SIZE - 1] == m[PAGE_SIZE - 1]);
                            assert(cursor <= m[PAGE_SIZE - 1].timestamp) by {
                                if cursor != cursor0 {
                                    let iw = choose|iw: int|
                                        0 <= iw < page.len() && cursor == (#[trigger] page[iw]).timestamp;
                                    assert(m[iw].timestamp <= m[PAGE_SIZE - 1].timestamp);
                                } else {
                                    assert(item_matches(m[PAGE_SIZE - 1], bound, cursor0, host@))
                                        by {
                                        srv.lemma_filter_pred(
                                            |it: ItemModel| item_matches(it, bound, cursor0, host@),
                                            PAGE_SIZE - 1,
                                        );
                                    }
                                }
                            }
                            assert(false);
                        }
                    }
                }
            }
            if av && cursor != cursor0 {
                let iw = choose|iw: int|
                    0 <= iw < page.len() && cursor == (#[trigger] page[iw]).timestamp;
                lemma_filter_elem(
                    srv,
                    |it: ItemModel| item_matches(it, bound, cursor0, host@),
                    iw,
                );
                srv.lemma_filter_pred(
                    |it: ItemModel| item_matches(it, bound, cursor0, host@),
                    iw,
                );
                let jw = choose|jw: int| 0 <= jw < srv.len() && srv[jw] == page[iw];
                assert(item_matches(srv[jw], bound, cp0, host@) && cursor == srv[jw].timestamp);
            }
            if acx {
                lemma_filter_strict_sorted(
                    srv,
                    |it: ItemModel| item_matches(it, bound, cursor0, host@),
                );
                assert forall|j: int|
                    (0 <= j < srv.len() && item_matches(#[trigger] srv[j], bound, cp0, host@)
                        && srv[j].timestamp <= cursor) implies item_decryptable(key@, srv[j]) by {
                    if srv[j].timestamp <= cursor0 {
                    } else {
                        assert(item_matches(srv[j], bound, cursor0, host@));
                        assert(m.contains(srv[j])) by {
                            srv.lemma_filter_contains(
                                |it: ItemModel| item_matches(it, bound, cursor0, host@),
                                j,
                            );
                        }
                        let im = choose|im: int| 0 <= im < m.len() && m[im] == srv[j];
                        if im < page.len() {
                            assert(page[im] == srv[j]);
                        } else {
                            assert(page.len() == PAGE_SIZE && m.len() > PAGE_SIZE);
                            assert(m[PAGE_SIZE - 1].timestamp < m[im].timestamp);
                            assert(page[PAGE_SIZE - 1] == m[PAGE_SIZE - 1]);
                            assert(cursor <= m[PAGE_SIZE - 1].timestamp) by {
                                if cursor != cursor0 {
                                    let iw = choose|iw: int|
                                        0 <= iw < page.len() && cursor == (#[trigger] page[iw]).timestamp;
                                    assert(m[iw].timestamp <= m[PAGE_SIZE - 1].timestamp);
                                } else {
                                    assert(item_matches(m[PAGE_SIZE - 1], bound, cursor0, host@))
                                        by {
                                        srv.lemma_filter_pred(
                                            |it: ItemModel| item_matches(it, bound, cursor0, host@),
                                            PAGE_SIZE - 1,
                                        );
                                    }
                                }
                            }
                            assert(false);
                        }
                    }
                }
                if cursor != cursor0 {
                    let iw = choose|iw: int|
                        0 <= iw < page.len() && cursor == (#[trigger] page[iw]).timestamp;
                    lemma_filter_elem(
                        srv,
                        |it: ItemModel| item_matches(it, bound, cursor0, host@),
                        iw,
                    );
                    srv.lemma_filter_pred(
                        |it: ItemModel| item_matches(it, bound, cursor0, host@),
                        iw,
                    );
                    let jw = choose|jw: int| 0 <= jw < srv.len() && srv[jw] == page[iw];
                    assert(item_matches(srv[jw], bound, cp0, host@) && cursor == srv[jw].timestamp);
                }
            }
        }
        if resp.history.len() < PAGE_SIZE {
            proof {
                let m = matching(srv, bound, cursor0, host@);
                assert(page == m);
                if ts_strictly_sorted(srv) && av {
                    assert forall|j: int, bm: BlobModel, rm: RecordModel|
                        (0 <= j < srv.len() && item_matches(srv[j], bound, cp0, host@)
                            && #[trigger] item_blob_record(key@, srv[j], bm, rm))
                        implies col.contains(rm) by {
                        if srv[j].timestamp <= cursor0 {
                        } else {
                            assert(item_matches(srv[j], bound, cursor0, host@));
                            assert(m.contains(srv[j])) by {
                                srv.lemma_filter_contains(
                                    |it: ItemModel| item_matches(it, bound, cursor0, host@),
                                    j,
                                );
                            }
                            let im = choose|im: int| 0 <= im < m.len() && m[im] == srv[j];
                            assert(page[im] == srv[j]);
                        }
                    }
                }
                if av {
                    assert forall|j: int|
                        (0 <= j < srv.len() && item_matches(
                            #[trigger] srv[j],
                            bound,
                            cp0,
                            host@,
                        )) implies srv[j].timestamp <= cursor by {
                        if srv[j].timestamp > cursor0 {
                            assert(item_matches(srv[j], bound, cursor0, host@));
                            assert(m.contains(srv[j])) by {
                                srv.lemma_filter_contains(
                                    |it: ItemModel| item_matches(it, bound, cursor0, host@),
                                    j,
                                );
                            }
                            let im = choose|im: int| 0 <= im < m.len() && m[im] == srv[j];
                            assert(page[im] == srv[j]);
                            assert(item_valid(key@, srv[j]));
                        }
                    }
                }
                if acx {
                    assert forall|j: int|
                        (0 <= j < srv.len() && item_matches(
                            #[trigger] srv[j],
                            bound,
                            cp0,
                            host@,
                        )) implies item_decryptable(key@, srv[j]) by {
                        if srv[j].timestamp > cursor0 {
                            assert(item_matches(srv[j], bound, cursor0, host@));
                            assert(m.contains(srv[j])) by {
                                srv.lemma_filter_contains(
                                    |it: ItemModel| item_matches(it, bound, cursor0, host@),
                                    j,
                                );
                            }
                            let im = choose|im: int| 0 <= im < m.len() && m[im] == srv[j];
                            assert(page[im] == srv[j]);
                        }
                    }
                }
            }
            let downloaded = batch.len() as u64;
            proof {
                vstd::std_specs::vec::axiom_spec_len(&batch);
                let p = pages as int;
                let n = resp.history@.len() as int;
                assert(downloaded as int == (p - 1) * (PAGE_SIZE as int) + n);
                assert(((p - 1) * 100 + n) / 100 == p - 1) by (nonlinear_arith)
                    requires
                        0 <= n < 100,
                        p >= 1,
                ;
            }
            let ghost base_before = store@;
            insert_batch(
                store,
                batch,
                Ghost(key@),
                Ghost(srv),
                Ghost(bound),
                Ghost(cp0),
                Ghost(host@),
                Ghost(col),
            );
            proof {
                if ts_strictly_sorted(srv) && av {
                    assert forall|j: int, bm: BlobModel, rm: RecordModel|
                        (0 <= j < srv.len() && item_matches(srv[j], bound, cp0, host@)
                            && srv[j].timestamp <= u64::MAX && #[trigger] item_blob_record(
                            key@,
                            srv[j],
                            bm,
                            rm,
                        )) implies store@.contains(rm) || rec_has_id(base, rm.id) by {
                        assert(col.contains(rm));
                        let ic = choose|ic: int| 0 <= ic < col.len() && col[ic] == rm;
                        assert(store@.contains(col[ic]) || rec_has_id(base, col[ic].id));
                    }
                }
                if av {
                    assert forall|x: RecordModel| store@.contains(x) implies base.contains(x)
                        || exists|j: int, bm: BlobModel|
                        0 <= j < srv.len() && item_matches(srv[j], bound, cp0, host@)
                            && #[trigger] item_blob_record(key@, srv[j], bm, x) by {
                        if !base.contains(x) {
                            assert(col.contains(x));
                            let ic = choose|ic: int| 0 <= ic < col.len() && col[ic] == x;
                            assert(from_matching_item(key@, srv, bound, cp0, host@, x));
                            let j = choose|j: int|
                                0 <= j < srv.len() && item_matches(srv[j], bound, cp0, host@)
                                    && item_determined(key@, srv[j], x);
                            let bm = choose|bm: BlobModel| item_blob_record(key@, srv[j], bm, x);
                            assert(item_blob_record(key@, srv[j], bm, x));
                        }
                    }
                }
                assert forall|x: RecordModel| store@.contains(x) implies base.contains(x)
                    || blob_backed(key@, x) by {
                    if !base.contains(x) {
                        assert(col.contains(x));
                        let ic = choose|ic: int| 0 <= ic < col.len() && col[ic] == x;
                        assert(blob_backed(key@, col[ic]));
                    }
                }
            }
            return Ok((pages, cursor, downloaded));
        }
        proof {
            assert(page.len() == PAGE_SIZE);
        }
        if cursor <= cursor_start {
            proof {
                let m = matching(srv, bound, cursor0, host@);
                let last = page[PAGE_SIZE - 1];
                assert(m[PAGE_SIZE - 1] == last);
                assert(item_matches(last, bound, cursor0, host@)) by {
                    srv.lemma_filter_pred(
                        |it: ItemModel| item_matches(it, bound, cursor0, host@),
                        PAGE_SIZE - 1,
                    );
                }
                lemma_filter_elem(
                    srv,
                    |it: ItemModel| item_matches(it, bound, cursor0, host@),
                    PAGE_SIZE - 1,
                );
                let jj = choose|jj: int| 0 <= jj < srv.len() && srv[jj] == last;
                assert(item_matches(srv[jj], bound, cp0, host@));
                assert(!av) by {
                    if av {
                        assert(page[PAGE_SIZE - 1].timestamp <= cursor);
                        assert(last.timestamp > cursor0);
                    }
                }
                assert(exists|j: int|
                    0 <= j < srv.len() && item_matches(#[trigger] srv[j], bound, cp0, host@)
                        && !item_valid(key@, srv[j]));
            }
            return Err(SyncError::Protocol);
        }
    }
}

/// Clones a record.
fn clone_record(r: &HistoryRecord) -> (out: HistoryRecord)
    ensures
        out@ == r@,
{
    HistoryRecord {
        id: r.id.clone(),
        timestamp: r.timestamp,
        hostname: r.hostname.clone(),
        command: r.command.clone(),
        cwd: r.cwd.clone(),
        exit: r.exit,
        duration: r.duration,
    }
}

/// The cursor a run starts from: the epoch under `force`, else the
/// persisted checkpoint.
pub open spec fn sync_cp0(force: bool, checkpoint: u64) -> u64 {
    if force {
        0
    } else {
        checkpoint
    }
}

/// The server after a run: append-only, and every new item is an upload of
/// one of the run's unsynced local records.
pub open spec fn server_post(
    key: Seq<u8>,
    old_srv: Seq<ItemModel>,
    new_srv: Seq<ItemModel>,
    old_store: Seq<RecordModel>,
    cp0: u64,
) -> bool {
    &&& forall|x: ItemModel| old_srv.contains(x) ==> new_srv.contains(x)
    &&& forall|x: ItemModel|
        new_srv.contains(x) ==> old_srv.contains(x) || exists|bm: BlobModel, rm: RecordModel|
            old_store.contains(rm) && rm.timestamp > cp0 && #[trigger] item_blob_record(
                key,
                x,
                bm,
                rm,
            )
}

/// Upload completeness: every local record past the checkpoint has its id on
/// the server.
pub open spec fn upload_complete_post(
    old_store: Seq<RecordModel>,
    new_srv: Seq<ItemModel>,
    cp0: u64,
) -> bool {
    forall|k: int|
        (0 <= k < old_store.len() && (#[trigger] old_store[k]).timestamp > cp0) ==> has_id(
            new_srv,
            old_store[k].id,
        )
}

/// The local store after a run: it only grows, and every new record carries
/// an authenticated ciphertext sealed under the user's key.
pub open spec fn store_post(
    key: Seq<u8>,
    old_store: Seq<RecordModel>,
    new_store: Seq<RecordModel>,
) -> bool {
    &&& forall|x: RecordModel| old_store.contains(x) ==> new_store.contains(x)
    &&& forall|x: RecordModel|
        new_store.contains(x) ==> old_store.contains(x) || blob_backed(key, x)
}

/// Where every matching remote item decrypts, every new local record is the
/// decryption of a matching remote item: in particular none originates from
/// this host, which the query excludes.
pub open spec fn store_provenance_post(
    key: Seq<u8>,
    new_srv: Seq<ItemModel>,
    old_store: Seq<RecordModel>,
    new_store: Seq<RecordModel>,
    cp0: u64,
    host: Seq<char>,
) -> bool {
    all_matching_valid(key, new_srv, new_srv.len() as u64, cp0, host) ==> forall|x: RecordModel|
        new_store.contains(x) ==> old_store.contains(x) || exists|j: int, bm: BlobModel|
            0 <= j < new_srv.len() && item_matches(new_srv[j], new_srv.len() as u64, cp0, host)
                && #[trigger] item_blob_record(key, new_srv[j], bm, x)
}

/// What a failed run names as its cause, by phase: an upload failure names
/// the unserializable local record, a download failure the matching remote
/// item that does not decrypt (and, for a decryption failure, the failing
/// blob's own cleartext fields).
pub open spec fn sync_err_ok(
    key: Seq<u8>,
    e: SyncError,
    old_store: Seq<RecordModel>,
    new_srv: Seq<ItemModel>,
    cp0: u64,
    host: Seq<char>,
) -> bool {
    match e {
        SyncError::UploadCrypto { error, id, timestamp, hostname } => {
            &&& error == CryptoError::EncodingFailure
            &&& exists|rm: RecordModel|
                #[trigger] old_store.contains(rm) && rm.timestamp > cp0 && rm.id == id@
                    && rm.timestamp == timestamp && rm.hostname == hostname@ && record_payload(
                    rm,
                ).len() > MAX_PAYLOAD_LEN
        },
        _ => download_err_ok(key, e, new_srv, new_srv.len() as u64, cp0, host),
    }
}

/// The item is the upload of some record of one of the two histories.
pub open spec fn item_from_history(
    key: Seq<u8>,
    it: ItemModel,
    a: Seq<RecordModel>,
    b: Seq<RecordModel>,
) -> bool {
    exists|bm: BlobModel, rm: RecordModel|
        #[trigger] item_blob_record(key, it, bm, rm) && (a.contains(rm) || b.contains(rm))
}

/// Sync convergence: two hosts with disjoint local histories that have both
/// fully uploaded to and fully downloaded from one server end with equal
/// stores holding exactly the union of the two histories, and no host
/// re-downloads a record it originated (its own records reach its store only
/// because it already held them).
///
/// The hypotheses are what [`SyncClient::sync`] guarantees of each host's
/// completed runs against a server that holds only the two hosts' uploads,
/// together with one fact about the wire that holds per decryption: one item
/// decrypts to one record.
#[verifier::rlimit(100)]
pub proof fn lemma_sync_convergence(
    key: Seq<u8>,
    host_a: Seq<char>,
    host_b: Seq<char>,
    a: Seq<RecordModel>,
    b: Seq<RecordModel>,
    srv: Seq<ItemModel>,
    sa: Seq<RecordModel>,
    sb: Seq<RecordModel>,
    bound: u64,
)
    requires
        host_a != host_b,
        rec_ids_unique(a),
        rec_ids_unique(b),
        forall|x: RecordModel, y: RecordModel|
            a.contains(x) && b.contains(y) ==> x.id != y.id,
        forall|k: int|
            0 <= k < a.len() ==> (#[trigger] a[k]).hostname == host_a && a[k].timestamp > 0,
        forall|k: int|
            0 <= k < b.len() ==> (#[trigger] b[k]).hostname == host_b && b[k].timestamp > 0,
        // One item decrypts to one record: the wire encoding and the cipher
        // are injective, which each decryption exhibits.
        forall|it: ItemModel, bm1: BlobModel, rm1: RecordModel, bm2: BlobModel, rm2: RecordModel|
            #[trigger] item_blob_record(key, it, bm1, rm1) && #[trigger] item_blob_record(
                key,
                it,
                bm2,
                rm2,
            ) ==> rm1 == rm2,
        // Both hosts uploaded everything (checkpoints started at the epoch).
        upload_complete_post(a, srv, 0),
        upload_complete_post(b, srv, 0),
        // The server holds only the two hosts' uploads, each ingested within
        // the download bound, under unique ids.
        ids_unique(srv),
        forall|j: int| 0 <= j < srv.len() ==> (#[trigger] srv[j]).ingest < bound,
        forall|j: int| 0 <= j < srv.len() ==> item_from_history(key, #[trigger] srv[j], a, b),
        // Both hosts completed their downloads...
        downloads_done(key, srv, bound, 0, host_a, u64::MAX, sa, a),
        downloads_done(key, srv, bound, 0, host_b, u64::MAX, sb, b),
        // ...growing their stores with decryptions of server items only.
        forall|x: RecordModel| a.contains(x) ==> sa.contains(x),
        forall|x: RecordModel| b.contains(x) ==> sb.contains(x),
        forall|x: RecordModel|
            sa.contains(x) ==> a.contains(x) || exists|j: int, bm: BlobModel|
                0 <= j < srv.len() && #[trigger] item_blob_record(key, srv[j], bm, x),
        forall|x: RecordModel|
            sb.contains(x) ==> b.contains(x) || exists|j: int, bm: BlobModel|
                0 <= j < srv.len() && #[trigger] item_blob_record(key, srv[j], bm, x),
    ensures
        forall|x: RecordModel| sa.contains(x) <==> (a.contains(x) || b.contains(x)),
        forall|x: RecordModel| sb.contains(x) <==> (a.contains(x) || b.contains(x)),
        forall|x: RecordModel| sa.contains(x) <==> sb.contains(x),
        // Nothing a host originated reaches it from the server: its own
        // records are in its store because they always were.
        forall|x: RecordModel| sa.contains(x) && x.hostname == host_a ==> a.contains(x),
        forall|x: RecordModel| sb.contains(x) && x.hostname == host_b ==> b.contains(x),
{
    assert forall|x: RecordModel| sa.contains(x) implies (a.contains(x) || b.contains(x)) by {
        if !a.contains(x) {
            let (j, bm) = choose|j: int, bm: BlobModel|
                0 <= j < srv.len() && #[trigger] item_blob_record(key, srv[j], bm, x);
            assert(item_from_history(key, srv[j], a, b));
            let (bm2, rm2) = choose|bm2: BlobModel, rm2: RecordModel|
                #[trigger] item_blob_record(key, srv[j], bm2, rm2) && (a.contains(rm2)
                    || b.contains(rm2));
            assert(x == rm2);
        }
    }
    assert forall|x: RecordModel| sb.contains(x) implies (a.contains(x) || b.contains(x)) by {
        if !b.contains(x) {
            let (j, bm) = choose|j: int, bm: BlobModel|
                0 <= j < srv.len() && #[trigger] item_blob_record(key, srv[j], bm, x);
            assert(item_from_history(key, srv[j], a, b));
            let (bm2, rm2) = choose|bm2: BlobModel, rm2: RecordModel|
                #[trigger] item_blob_record(key, srv[j], bm2, rm2) && (a.contains(rm2)
                    || b.contains(rm2));
            assert(x == rm2);
        }
    }
    lemma_other_host_records_arrive(key, host_a, host_b, a, b, srv, sa, bound);
    assert forall|j: int| 0 <= j < srv.len() implies item_from_history(
        key,
        #[trigger] srv[j],
        b,
        a,
    ) by {
        assert(item_from_history(key, srv[j], a, b));
        let (bm2, rm2) = choose|bm2: BlobModel, rm2: RecordModel|
            #[trigger] item_blob_record(key, srv[j], bm2, rm2) && (a.contains(rm2) || b.contains(
                rm2,
            ));
        assert(item_blob_record(key, srv[j], bm2, rm2) && (b.contains(rm2) || a.contains(rm2)));
    }
    lemma_other_host_records_arrive(key, host_b, host_a, b, a, srv, sb, bound);
}

/// The download half of convergence, for one host: every record of the other
/// host's history reaches this host's store.
proof fn lemma_other_host_records_arrive(
    key: Seq<u8>,
    host_mine: Seq<char>,
    host_other: Seq<char>,
    mine: Seq<RecordModel>,
    other: Seq<RecordModel>,
    srv: Seq<ItemModel>,
    store_final: Seq<RecordModel>,
    bound: u64,
)
    requires
        host_mine != host_other,
        rec_ids_unique(other),
        forall|x: RecordModel, y: RecordModel|
            mine.contains(x) && other.contains(y) ==> x.id != y.id,
        forall|k: int|
            0 <= k < other.len() ==> (#[trigger] other[k]).hostname == host_other
                && other[k].timestamp > 0,
        forall|it: ItemModel, bm1: BlobModel, rm1: RecordModel, bm2: BlobModel, rm2: RecordModel|
            #[trigger] item_blob_record(key, it, bm1, rm1) && #[trigger] item_blob_record(
                key,
                it,
                bm2,
                rm2,
            ) ==> rm1 == rm2,
        upload_complete_post(other, srv, 0),
        ids_unique(srv),
        forall|j: int| 0 <= j < srv.len() ==> (#[trigger] srv[j]).ingest < bound,
        forall|j: int|
            0 <= j < srv.len() ==> item_from_history(key, #[trigger] srv[j], mine, other),
        downloads_done(key, srv, bound, 0, host_mine, u64::MAX, store_final, mine),
    ensures
        forall|x: RecordModel| other.contains(x) ==> store_final.contains(x),
{
    assert forall|x: RecordModel| other.contains(x) implies store_final.contains(x) by {
        let kx = choose|kx: int| 0 <= kx < other.len() && other[kx] == x;
        assert(x.timestamp > 0 && x.hostname == host_other);
        assert(has_id(srv, other[kx].id));
        let j = choose|j: int| 0 <= j < srv.len() && srv[j].id == x.id;
        assert(item_from_history(key, srv[j], mine, other));
        let (bm, rm) = choose|bm: BlobModel, rm: RecordModel|
            #[trigger] item_blob_record(key, srv[j], bm, rm) && (mine.contains(rm)
                || other.contains(rm));
        assert(rm.id == srv[j].id);
        if mine.contains(rm) {
            assert(rm.id != x.id);
            assert(false);
        }
        let ko = choose|ko: int| 0 <= ko < other.len() && other[ko] == rm;
        if ko != kx {
            assert(other[ko].id != other[kx].id);
        }
        assert(rm == x);
        assert(item_matches(srv[j], bound, 0, host_mine)) by {
            assert(srv[j].timestamp == bm.timestamp && bm.timestamp == x.timestamp);
            assert(srv[j].hostname == bm.hostname && bm.hostname == x.hostname);
        }
        assert(store_final.contains(x) || rec_has_id(mine, x.id));
        if rec_has_id(mine, x.id) {
            let km = choose|km: int| 0 <= km < mine.len() && mine[km].id == x.id;
            assert(mine.contains(mine[km]));
            assert(false);
        }
    }
}

/// After uploading every record that a cursor query selected, each new
/// server item is the upload of one selected record: the run's `server_post`.
proof fn lemma_server_post_bridge(
    key: Seq<u8>,
    old_srv: Seq<ItemModel>,
    new_srv: Seq<ItemModel>,
    old_store: Seq<RecordModel>,
    cp0: u64,
    sent: Seq<RecordModel>,
)
    requires
        sent == records_after(old_store, cp0, None::<Seq<char>>),
        forall|x: ItemModel| old_srv.contains(x) ==> new_srv.contains(x),
        forall|x: ItemModel|
            new_srv.contains(x) ==> old_srv.contains(x) || exists|k: int, bm: BlobModel|
                0 <= k < sent.len() && #[trigger] item_blob_record(key, x, bm, sent[k]),
    ensures
        server_post(key, old_srv, new_srv, old_store, cp0),
{
    assert forall|x: ItemModel|
        new_srv.contains(x) implies old_srv.contains(x) || exists|bm: BlobModel, rm: RecordModel|
        old_store.contains(rm) && rm.timestamp > cp0 && #[trigger] item_blob_record(
            key,
            x,
            bm,
            rm,
        ) by {
        if !old_srv.contains(x) {
            let (k, bm) = choose|k: int, bm: BlobModel|
                0 <= k < sent.len() && #[trigger] item_blob_record(key, x, bm, sent[k]);
            lemma_filter_elem(
                old_store,
                |rm: RecordModel| crate::store::rec_matches(rm, cp0, None),
                k,
            );
            old_store.lemma_filter_pred(
                |rm: RecordModel| crate::store::rec_matches(rm, cp0, None),
                k,
            );
            assert(old_store.contains(sent[k]) && sent[k].timestamp > cp0);
        }
    }
}

/// The per-user sync context: the host's name, the key, the cipher engine
/// and the persisted checkpoint, passed in explicitly (no ambient globals).
pub struct SyncClient {
    host: String,
    key: Vec<u8>,
    engine: CipherEngine,
    checkpoint: u64,
}

impl SyncClient {
    /// Structural validity: a 32-byte key shared with the engine.
    pub closed spec fn wf(&self) -> bool {
        &&& self.key@.len() == 32
        &&& self.engine.wf()
        &&& self.engine.key_model() == self.key@
    }

    /// This host's name.
    pub closed spec fn host_model(&self) -> Seq<char> {
        self.host@
    }

    /// The symmetric key the client encrypts and decrypts with.
    pub closed spec fn key_model(&self) -> Seq<u8> {
        self.key@
    }

    /// The checkpoint: the timestamp boundary below which downloads (for
    /// other hosts' records) and uploads (for this host's) are confirmed.
    pub closed spec fn checkpoint_model(&self) -> u64 {
        self.checkpoint
    }

    /// How many encryptions the engine has performed.
    pub closed spec fn counter_model(&self) -> u64 {
        self.engine.counter_model()
    }

    /// Builds a client around the key material the auth gateway supplied.
    pub fn new(host: String, key: Vec<u8>) -> (r: Self)
        requires
            key@.len() == 32,
        ensures
            r.wf(),
            r.host_model() == host@,
            r.key_model() == key@,
            r.checkpoint_model() == 0,
            r.counter_model() == 0,
    {
        let engine = CipherEngine::new(clone_vec_u8(&key));
        SyncClient { host, key, engine, checkpoint: 0 }
    }

    /// The persisted checkpoint value.
    pub fn last_sync_timestamp(&self) -> (r: u64)
        ensures
            r == self.checkpoint_model(),
    {
        self.checkpoint
    }

    /// One sync run: negotiate (count), upload every local record past the
    /// checkpoint, download and decrypt remote pages until exhaustion, and
    /// only once the whole batch has decrypted insert it and advance the
    /// checkpoint to the greatest downloaded timestamp. `force` re-reads
    /// everything by resetting the cursor to the epoch for this run (the one
    /// documented way the checkpoint may decrease). Any failure leaves both
    /// the local store and the checkpoint exactly as they were, names the
    /// phase that failed, and is safe to retry blindly.
    #[verifier::rlimit(100)]
    #[verifier::spinoff_prover]
    pub fn sync(
        &mut self,
        store: &mut ClientStore,
        server: &mut ServerStore,
        force: bool,
    ) -> (r: Result<SyncStats, SyncError>)
        requires
            old(self).wf(),
            old(store).wf(),
            old(server).wf(),
            old(server)@.len() + old(store)@.len() <= 0x7fff_ffff_ffff_ffff,
            old(self).counter_model() + old(store)@.len() <= u64::MAX,
        ensures
            final(self).wf(),
            final(store).wf(),
            final(server).wf(),
            final(self).host_model() == old(self).host_model(),
            final(self).key_model() == old(self).key_model(),
            final(self).counter_model() <= old(self).counter_model() + old(store)@.len(),
            server_post(
                old(self).key_model(),
                old(server)@,
                final(server)@,
                old(store)@,
                sync_cp0(force, old(self).checkpoint_model()),
            ),
            r is Ok ==> upload_complete_post(
                old(store)@,
                final(server)@,
                sync_cp0(force, old(self).checkpoint_model()),
            ),
            store_post(old(self).key_model(), old(store)@, final(store)@),
            store_provenance_post(
                old(self).key_model(),
                final(server)@,
                old(store)@,
                final(store)@,
                sync_cp0(force, old(self).checkpoint_model()),
                old(self).host_model(),
            ),
            (r is Ok && ts_strictly_sorted(final(server)@) && all_matching_valid(
                old(self).key_model(),
                final(server)@,
                final(server)@.len() as u64,
                sync_cp0(force, old(self).checkpoint_model()),
                old(self).host_model(),
            )) ==> downloads_done(
                old(self).key_model(),
                final(server)@,
                final(server)@.len() as u64,
                sync_cp0(force, old(self).checkpoint_model()),
                old(self).host_model(),
                u64::MAX,
                final(store)@,
                old(store)@,
            ),
            r is Ok ==> final(self).checkpoint_model() >= sync_cp0(
                force,
                old(self).checkpoint_model(),
            ),
            (r is Ok && !force) ==> final(self).checkpoint_model() >= old(self).checkpoint_model(),
            // Page exhaustion: downloading stops on the first short page, so
            // the round trips made are exactly one more than the full pages
            // the received blobs filled.
            r matches Ok(st) ==> st.pages as int == st.downloaded as int / (PAGE_SIZE as int) + 1,
            // The report's cursor is the committed checkpoint, and the upload
            // count is exactly how many local records the cursor selected.
            r matches Ok(st) ==> st.cursor == final(self).checkpoint_model(),
            r matches Ok(st) ==> st.uploaded == records_after(
                old(store)@,
                sync_cp0(force, old(self).checkpoint_model()),
                None::<Seq<char>>,
            ).len(),
            // A decryption failure is fatal, never skipped: success is owed
            // only where every matching item decrypted (given strictly
            // ascending timestamps and cleartext fields that agree with the
            // blobs they index).
            (r is Ok && ts_strictly_sorted(final(server)@) && all_matching_consistent(
                final(server)@,
                final(server)@.len() as u64,
                sync_cp0(force, old(self).checkpoint_model()),
                old(self).host_model(),
            )) ==> forall|j: int|
                (0 <= j < final(server)@.len() && item_matches(
                    #[trigger] final(server)@[j],
                    final(server)@.len() as u64,
                    sync_cp0(force, old(self).checkpoint_model()),
                    old(self).host_model(),
                )) ==> item_decryptable(old(self).key_model(), final(server)@[j]),
            // On success, with every matching item decryptable, the
            // checkpoint lands exactly on the greatest matching timestamp
            // (or stays at the starting cursor when nothing matched).
            (r is Ok && all_matching_valid(
                old(self).key_model(),
                final(server)@,
                final(server)@.len() as u64,
                sync_cp0(force, old(self).checkpoint_model()),
                old(self).host_model(),
            )) ==> checkpoint_exact(
                final(server)@,
                final(server)@.len() as u64,
                sync_cp0(force, old(self).checkpoint_model()),
                old(self).host_model(),
                final(self).checkpoint_model(),
            ),
            // A failed run leaves the local store and the checkpoint in
            // their last-known-good state, and names its cause and phase.
            r is Err ==> final(self).checkpoint_model() == old(self).checkpoint_model(),
            r is Err ==> final(store)@ == old(store)@,
            r matches Err(e) ==> sync_err_ok(
                old(self).key_model(),
                e,
                old(store)@,
                final(server)@,
                sync_cp0(force, old(self).checkpoint_model()),
                old(self).host_model(),
            ),
    {
        let ghost key = self.key@;
        let ghost host_g = self.host@;
        let cp0: u64 = if force {
            0
        } else {
            self.checkpoint
        };
        let _hint = server.count();
        let to_send = store.records_since(cp0, None);
        let uploaded = to_send.len() as u64;
        let ghost sel = records_after(old(store)@, cp0, None::<Seq<char>>);
        proof {
            assert(to_send@.len() <= old(store)@.len()) by {
                old(store)@.lemma_filter_len(
                    |rm: RecordModel| crate::store::rec_matches(rm, cp0, None),
                );
            }
        }
        proof {
            assert forall|k: int| 0 <= k < to_send@.len() implies (#[trigger] to_send@[k])@
                == sel[k] by {}
        }
        match upload_all(&mut self.engine, server, &to_send) {
            Ok(()) => {},
            Err(e) => {
                proof {
                    lemma_server_post_bridge(key, old(server)@, server@, old(store)@, cp0, sel);
                    match &e {
                        SyncError::UploadCrypto { error, id, timestamp, hostname } => {
                            let k = choose|k: int|
                                0 <= k < to_send@.len() && (#[trigger] to_send@[k])@.id == id@
                                    && to_send@[k]@.timestamp == timestamp && to_send@[k]@.hostname
                                    == hostname@ && record_payload(to_send@[k]@).len()
                                    > MAX_PAYLOAD_LEN;
                            lemma_filter_elem(
                                old(store)@,
                                |rm: RecordModel| crate::store::rec_matches(rm, cp0, None),
                                k,
                            );
                            old(store)@.lemma_filter_pred(
                                |rm: RecordModel| crate::store::rec_matches(rm, cp0, None),
                                k,
                            );
                            assert(old(store)@.contains(sel[k]) && sel[k].timestamp > cp0);
                            assert(sel[k] == to_send@[k]@);
                        },
                        _ => {
                            assert(false);
                        },
                    }
                }
                return Err(e);
            },
        }
        proof {
            lemma_server_post_bridge(key, old(server)@, server@, old(store)@, cp0, sel);
            assert forall|k: int|
                (0 <= k < old(store)@.len() && (#[trigger] old(store)@[k]).timestamp
                    > cp0) implies has_id(server@, old(store)@[k].id) by {
                old(store)@.lemma_filter_contains(
                    |rm: RecordModel| crate::store::rec_matches(rm, cp0, None),
                    k,
                );
                let w = choose|w: int| 0 <= w < sel.len() && sel[w] == old(store)@[k];
                assert(to_send@[w]@ == old(store)@[k]);
            }
        }
        let bound_resp = server.count();
        let bound = bound_resp.count as u64;
        proof {
            assert(bound == server@.len() as u64);
        }
        let stats = match download_all(&self.key, &self.host, store, server, cp0, bound) {
            Ok(v) => v,
            Err(e) => {
                proof {
                    assert(bound == server@.len() as u64);
                }
                return Err(e);
            },
        };
        self.checkpoint = stats.1;
        Ok(SyncStats { pages: stats.0, uploaded, downloaded: stats.2, cursor: stats.1 })
    }
}

/// Clones a byte vector.
fn clone_vec_u8(v: &Vec<u8>) -> (r: Vec<u8>)
    ensures
        r@ == v@,
{
    v.clone()
}

/// Clones a string.
fn clone_string(s: &String) -> (r: String)
    ensures
        r@ == s@,
{
    s.clone()
}

} // verus!
