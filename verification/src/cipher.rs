//! The cipher engine: authenticated encryption of record payloads.
//!
//! Encryption is XChaCha20-Poly1305 under a per-user 32-byte symmetric key.
//! Nonce uniqueness is enforced by construction, never by convention: each
//! engine draws a random 16-byte prefix once and appends a strictly
//! increasing 64-bit counter, so no two encryptions by one engine can share
//! a nonce (see [`lemma_nonce_uniqueness`]).

use vstd::prelude::*;
use chacha20poly1305::aead::Aead;
use chacha20poly1305::KeyInit;
use crate::CryptoError;
use crate::codec::{le64, lemma_le64_round_trip};
use crate::record::{
    HistoryRecord, RecordModel, record_payload, parse_payload, payload_to_bytes,
    payload_from_bytes, lemma_parse_payload_sound, lemma_parse_payload_complete,
};

verus! {

/// The longest payload the cipher accepts, in bytes; far below the cipher's
/// own plaintext ceiling.
pub const MAX_PAYLOAD_LEN: usize = 0x4000_0000;

/// The wire/storage form of one record: cleartext index fields plus
/// authenticated ciphertext of the payload. The server stores blobs and
/// filters on the cleartext fields; it can never read the payload.
#[derive(Debug, Clone)]
pub struct EncryptedBlob {
    /// Copied from the record: needed server-side for deduplication.
    pub id: String,
    /// Copied from the record: needed server-side for range queries.
    pub timestamp: u64,
    /// Copied from the record: lets a host skip its own uploads.
    pub hostname: String,
    /// Unique per blob; stored alongside the ciphertext, never reused per key.
    pub nonce: Vec<u8>,
    /// Authenticated encryption of the record's serialized payload.
    pub ciphertext: Vec<u8>,
}

/// The mathematical model of a blob.
#[verifier::ext_equal]
pub ghost struct BlobModel {
    pub id: Seq<char>,
    pub timestamp: u64,
    pub hostname: Seq<char>,
    pub nonce: Seq<u8>,
    pub ciphertext: Seq<u8>,
}

impl View for EncryptedBlob {
    type V = BlobModel;

    open spec fn view(&self) -> BlobModel {
        BlobModel {
            id: self.id@,
            timestamp: self.timestamp,
            hostname: self.hostname@,
            nonce: self.nonce@,
            ciphertext: self.ciphertext@,
        }
    }
}

impl EncryptedBlob {
    /// Structural validity: the nonce has the cipher's fixed width.
    pub open spec fn wf(&self) -> bool {
        self@.nonce.len() == 24
    }
}

/// What XChaCha20-Poly1305 sealing yields for a key, nonce and plaintext;
/// a function of those arguments alone.
pub uninterp spec fn sealed_of(key: Seq<u8>, nonce: Seq<u8>, plaintext: Seq<u8>) -> Seq<u8>;

/// Relies on `chacha20poly1305::XChaCha20Poly1305` (`Aead::encrypt`): sealing
/// is deterministic in key, nonce and plaintext, and cannot fail below the
/// cipher's plaintext ceiling.
#[verifier::external_body]
fn aead_seal(key: &[u8], nonce: &[u8], plaintext: &[u8]) -> (r: Vec<u8>)
    requires
        key@.len() == 32,
        nonce@.len() == 24,
        plaintext@.len() <= MAX_PAYLOAD_LEN,
    ensures
        r@ == sealed_of(key@, nonce@, plaintext@),
{
    let key_arr: [u8; 32] = key.try_into().unwrap();
    let nonce_arr: [u8; 24] = nonce.try_into().unwrap();
    let cipher = chacha20poly1305::XChaCha20Poly1305::new(&key_arr.into());
    cipher.encrypt(&nonce_arr.into(), plaintext).unwrap()
}

/// Relies on `chacha20poly1305::XChaCha20Poly1305` (`Aead::decrypt`): opening
/// verifies the authentication tag; it returns the plaintext exactly for the
/// ciphertext that sealing that plaintext under the same key and nonce
/// produces, and fails on every other input.
#[verifier::external_body]
fn aead_open(key: &[u8], nonce: &[u8], ciphertext: &[u8]) -> (r: Option<Vec<u8>>)
    requires
        key@.len() == 32,
        nonce@.len() == 24,
    ensures
        r is Some ==> ciphertext@ == sealed_of(key@, nonce@, r.unwrap()@),
        forall|pt: Seq<u8>|
            ciphertext@ == sealed_of(key@, nonce@, pt) ==> r is Some && r.unwrap()@ == pt,
{
    let key_arr: [u8; 32] = key.try_into().unwrap();
    let nonce_arr: [u8; 24] = nonce.try_into().unwrap();
    let cipher = chacha20poly1305::XChaCha20Poly1305::new(&key_arr.into());
    cipher.decrypt(&nonce_arr.into(), ciphertext).ok()
}

/// Relies on `rand::rng` (`Rng::fill_bytes`) to fill a buffer of the asked
/// length with random bytes; nothing is assumed of their values.
#[verifier::external_body]
pub(crate) fn random_bytes(n: usize) -> (r: Vec<u8>)
    ensures
        r@.len() == n,
{
    let mut buf = vec![0u8; n];
    rand::Rng::fill_bytes(&mut rand::rng(), &mut buf);
    buf
}

/// The nonce an engine uses at a given counter value: its random prefix
/// followed by the little-endian counter.
pub open spec fn nonce_of(prefix: Seq<u8>, counter: u64) -> Seq<u8> {
    prefix + le64(counter)
}

/// The blob that encrypting a record under a key with a given nonce yields.
pub open spec fn spec_encrypt(key: Seq<u8>, nonce: Seq<u8>, r: RecordModel) -> BlobModel {
    BlobModel {
        id: r.id,
        timestamp: r.timestamp,
        hostname: r.hostname,
        nonce: nonce,
        ciphertext: sealed_of(key, nonce, record_payload(r)),
    }
}

/// The conditions under which `decrypt` is owed `Ok(r)`: the blob's
/// ciphertext is exactly the sealing of `r`'s serialized payload under the
/// key and the blob's nonce, and the cleartext fields agree with `r`.
pub open spec fn decrypt_ok(key: Seq<u8>, b: BlobModel, r: RecordModel) -> bool {
    &&& b.ciphertext == sealed_of(key, b.nonce, record_payload(r))
    &&& b.id == r.id
    &&& b.timestamp == r.timestamp
    &&& b.hostname == r.hostname
}

/// Encrypt-then-decrypt round trip: a blob built by encryption under a key
/// satisfies, for the original record, exactly the conditions under which
/// `decrypt` must return that record unchanged.
pub proof fn lemma_encrypt_decrypt_round_trip(key: Seq<u8>, nonce: Seq<u8>, r: RecordModel)
    ensures
        decrypt_ok(key, spec_encrypt(key, nonce, r), r),
{
}

/// Nonce uniqueness: nonces built from one prefix and different counter
/// values always differ, so two encryptions by one engine never share a
/// nonce.
pub proof fn lemma_nonce_uniqueness(prefix: Seq<u8>, c1: u64, c2: u64)
    requires
        c1 != c2,
    ensures
        nonce_of(prefix, c1) != nonce_of(prefix, c2),
{
    if nonce_of(prefix, c1) == nonce_of(prefix, c2) {
        assert(le64(c1) =~= le64(c2)) by {
            let p = prefix.len() as int;
            assert(forall|i: int|
                0 <= i < 8 ==> nonce_of(prefix, c1)[p + i] == #[trigger] le64(c1)[i]);
            assert(forall|i: int|
                0 <= i < 8 ==> nonce_of(prefix, c2)[p + i] == #[trigger] le64(c2)[i]);
        }
        lemma_le64_round_trip(c1);
        lemma_le64_round_trip(c2);
    }
}

/// The per-user cipher engine. It holds the symmetric key (received, never
/// generated or persisted here) and the nonce source.
pub struct CipherEngine {
    key: Vec<u8>,
    nonce_prefix: Vec<u8>,
    counter: u64,
}

impl CipherEngine {
    /// The engine's structural validity.
    pub closed spec fn wf(&self) -> bool {
        self.key@.len() == 32 && self.nonce_prefix@.len() == 16
    }

    /// The key the engine encrypts under.
    pub closed spec fn key_model(&self) -> Seq<u8> {
        self.key@
    }

    /// The engine's random nonce prefix.
    pub closed spec fn prefix_model(&self) -> Seq<u8> {
        self.nonce_prefix@
    }

    /// How many encryptions the engine has performed.
    pub closed spec fn counter_model(&self) -> u64 {
        self.counter
    }

    /// Builds an engine around a 32-byte key, drawing a fresh random nonce
    /// prefix and starting the nonce counter at zero.
    pub fn new(key: Vec<u8>) -> (r: Self)
        requires
            key@.len() == 32,
        ensures
            r.wf(),
            r.key_model() == key@,
            r.counter_model() == 0,
    {
        let nonce_prefix = random_bytes(16);
        CipherEngine { key, nonce_prefix, counter: 0 }
    }

    /// Encrypts one record: serializes its payload, seals it under the
    /// engine's key with the next nonce, and copies the cleartext index
    /// fields. Fails (leaving the engine unchanged) only on a payload above
    /// [`MAX_PAYLOAD_LEN`], the one way serialization can fail.
    pub fn encrypt(&mut self, record: &HistoryRecord) -> (r: Result<EncryptedBlob, CryptoError>)
        requires
            old(self).wf(),
            old(self).counter_model() < u64::MAX,
        ensures
            final(self).wf(),
            final(self).key_model() == old(self).key_model(),
            final(self).prefix_model() == old(self).prefix_model(),
            r is Ok <==> record_payload(record@).len() <= MAX_PAYLOAD_LEN,
            r matches Ok(b) ==> b@ == spec_encrypt(
                old(self).key_model(),
                nonce_of(old(self).prefix_model(), old(self).counter_model()),
                record@,
            ) && b.wf() && final(self).counter_model() == old(self).counter_model() + 1,
            r is Err ==> *final(self) == *old(self) && r == Err::<EncryptedBlob, CryptoError>(
                CryptoError::EncodingFailure,
            ),
    {
        let payload = payload_to_bytes(record);
        if payload.len() > MAX_PAYLOAD_LEN {
            return Err(CryptoError::EncodingFailure);
        }
        let mut nonce = Vec::new();
        nonce.extend_from_slice(self.nonce_prefix.as_slice());
        crate::codec::write_u64(&mut nonce, self.counter);
        let ciphertext = aead_seal(self.key.as_slice(), nonce.as_slice(), payload.as_slice());
        let blob = EncryptedBlob {
            id: self.id_clone(&record.id),
            timestamp: record.timestamp,
            hostname: self.id_clone(&record.hostname),
            nonce,
            ciphertext,
        };
        self.counter = self.counter + 1;
        Ok(blob)
    }

    /// Clones a string field.
    fn id_clone(&self, s: &String) -> (r: String)
        ensures
            r@ == s@,
    {
        s.clone()
    }
}

/// Decrypts one blob under a key. Returns the original record exactly when
/// the ciphertext is the sealing, under the key and the blob's nonce, of that
/// record's serialized payload; fails with `AuthenticationFailure` when the
/// ciphertext is no sealing at all (tampering, wrong key, corruption), and
/// with `EncodingFailure` when the sealed bytes are not a canonical payload.
/// It never returns partial or altered data.
pub fn decrypt(key: &Vec<u8>, blob: &EncryptedBlob) -> (r: Result<HistoryRecord, CryptoError>)
    requires
        key@.len() == 32,
        blob.wf(),
    ensures
        r matches Ok(rec) ==> decrypt_ok(key@, blob@, rec@),
        forall|rm: RecordModel|
            decrypt_ok(key@, blob@, rm) ==> r is Ok && #[trigger] r.unwrap()@ =~= rm,
        r == Err::<HistoryRecord, CryptoError>(CryptoError::AuthenticationFailure) <==> (forall|
            pt: Seq<u8>,
        |
            blob@.ciphertext != sealed_of(key@, blob@.nonce, pt)),
{
    match aead_open(key.as_slice(), blob.nonce.as_slice(), blob.ciphertext.as_slice()) {
        Some(pt) => {
            match payload_from_bytes(pt.as_slice()) {
                Some(p) => {
                    proof {
                        lemma_parse_payload_sound(pt@, p.0@, p.1@, p.2, p.3);
                    }
                    let rec = HistoryRecord {
                        id: blob.id.clone(),
                        timestamp: blob.timestamp,
                        hostname: blob.hostname.clone(),
                        command: p.0,
                        cwd: p.1,
                        exit: p.2,
                        duration: p.3,
                    };
                    proof {
                        assert forall|rm: RecordModel| decrypt_ok(key@, blob@, rm) implies rec@
                            =~= rm by {
                            lemma_parse_payload_complete(rm.command, rm.cwd, rm.exit, rm.duration);
                        }
                    }
                    Ok(rec)
                },
                None => {
                    proof {
                        assert forall|rm: RecordModel| !decrypt_ok(key@, blob@, rm) by {
                            if decrypt_ok(key@, blob@, rm) {
                                lemma_parse_payload_complete(
                                    rm.command,
                                    rm.cwd,
                                    rm.exit,
                                    rm.duration,
                                );
                            }
                        }
                    }
                    Err(CryptoError::EncodingFailure)
                },
            }
        },
        None => Err(CryptoError::AuthenticationFailure),
    }
}

} // verus!
