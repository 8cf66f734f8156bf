//! The request and response shapes of the HTTPS JSON transport. They form a
//! closed set of tagged schemas, validated at the transport boundary; the
//! process edge serializes them. Timestamps travel as nanosecond counts.

use vstd::prelude::*;

verus! {

/// Names the user a session belongs to.
#[derive(Debug, Clone)]
pub struct UserResponse {
    pub username: String,
}

/// Creates an account; the reply carries the first session token.
#[derive(Debug, Clone)]
pub struct RegisterRequest {
    pub email: String,
    pub username: String,
    pub password: String,
}

/// The session token a fresh registration yields.
#[derive(Debug, Clone)]
pub struct RegisterResponse {
    pub session: String,
}

/// Opens a session for an existing account.
#[derive(Debug, Clone)]
pub struct LoginRequest {
    pub username: String,
    pub password: String,
}

/// The session token a login yields.
#[derive(Debug, Clone)]
pub struct LoginResponse {
    pub session: String,
}

/// Stores one encrypted blob, keyed by `id`; re-sending an existing `id` is
/// an idempotent no-op so that partial batches are safely retried in full.
#[derive(Debug, Clone)]
pub struct AddHistoryRequest {
    /// The record's unique identifier; the server's deduplication key.
    pub id: String,
    /// The record's creation instant, cleartext for server-side range queries.
    pub timestamp: u64,
    /// The blob's wire string; opaque to the server.
    pub data: String,
    /// The originating host, cleartext so its own uploads can be excluded.
    pub hostname: String,
}

/// How many blobs the server holds for the user; a coarse sync-health hint,
/// never an authoritative cursor.
#[derive(Debug, Clone)]
pub struct CountResponse {
    pub count: i64,
}

/// Asks for blobs recorded before ingestion bound `sync_ts`, with timestamps
/// after `history_ts`, not originating from `host`, ascending, one page.
#[derive(Debug, Clone)]
pub struct SyncHistoryRequest {
    pub sync_ts: u64,
    pub history_ts: u64,
    pub host: String,
}

/// One page of blob wire strings.
#[derive(Debug, Clone)]
pub struct SyncHistoryResponse {
    pub history: Vec<String>,
}

/// The uniform error body of a non-2xx reply.
#[derive(Debug, Clone)]
pub struct ErrorResponse {
    pub reason: String,
}

} // verus!
