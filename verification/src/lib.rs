//! An end-to-end encrypted shell-history synchronisation engine.
//!
//! Every command a user runs is captured as an immutable [`record::HistoryRecord`].
//! The cipher engine ([`cipher`]) turns a record into an opaque, authenticated
//! blob that a relay server ([`server`]) stores without ever seeing plaintext.
//! The sync client ([`sync`]) reconciles a local store ([`store`]) with the
//! server: it uploads unsynced local records, downloads and decrypts remote
//! ones page by page, and advances a per-host checkpoint only after a batch
//! has been fully inserted locally.

use vstd::prelude::*;

pub mod api;
pub mod cipher;
pub mod codec;
pub mod record;
pub mod server;
pub mod store;
pub mod sync;
pub mod wire;

verus! {

/// Failures of the cipher engine.
#[derive(Debug, Clone, Copy, PartialEq, Eq, Structural)]
pub enum CryptoError {
    /// The decrypted payload was not a well-formed record serialization,
    /// or a payload could not be serialized.
    EncodingFailure,
    /// The ciphertext/nonce/key triple did not verify: tampering, a wrong
    /// key, or corruption. Never masked; no partial data is returned.
    AuthenticationFailure,
}

/// Failures of a sync run. Each variant names the phase it arose in, and a
/// download failure carries the failing blob's cleartext identity so an
/// operator can diagnose it; the local store and the checkpoint are left in
/// their last-known-good state. Negotiation (the count call) and the stores
/// cannot fail in this engine, and transport failures belong to the process
/// edge that carries requests, so neither has a variant here.
#[derive(Debug, Clone)]
pub enum SyncError {
    /// The upload phase failed: this local record's payload could not be
    /// serialized for encryption.
    UploadCrypto { error: CryptoError, id: String, timestamp: u64, hostname: String },
    /// The download phase failed: this blob did not decrypt under the
    /// session's key (tampering, wrong key, or corruption). Never skipped
    /// silently: the whole run fails, since a key mismatch may affect the
    /// entire batch.
    DownloadCrypto { error: CryptoError, id: String, timestamp: u64, hostname: String },
    /// The download phase failed: the server answered with a string that is
    /// no wire encoding of a blob, or with pages that stop advancing.
    Protocol,
}

} // verus!
