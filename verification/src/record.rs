//! History records and the payload serialization that is encrypted.
//!
//! A record is immutable once created: the sync protocol never updates or
//! deletes one, so merging two histories is a set union keyed by `id`. The
//! payload fields (`command`, `cwd`, `exit`, `duration`) are serialized by
//! the codec and then encrypted; `id`, `timestamp` and `hostname` travel in
//! the clear because the server indexes on them.

use vstd::prelude::*;
use crate::codec::{
    bytes_to_string, encode_str, le64, lemma_ascii_decode, lemma_le64_exact,
    lemma_le64_round_trip, lemma_parse_str_complete, lemma_parse_str_sound, parse_str, parse_u64,
    read_str, read_u64, write_str, write_u64,
};

verus! {

/// One executed command, as captured on the originating host.
#[derive(Debug, Clone)]
pub struct HistoryRecord {
    /// Globally unique identifier, assigned at creation; the deduplication key.
    pub id: String,
    /// Creation instant in nanoseconds; ordering and sync-cursor key.
    pub timestamp: u64,
    /// Opaque name of the originating machine; the sync partition key.
    pub hostname: String,
    /// The command line that was run. Payload: never read by the sync layer.
    pub command: String,
    /// The working directory the command ran in. Payload.
    pub cwd: String,
    /// The command's exit code. Payload.
    pub exit: i64,
    /// How long the command ran, in nanoseconds. Payload.
    pub duration: u64,
}

/// The mathematical model of a record.
#[verifier::ext_equal]
pub ghost struct RecordModel {
    pub id: Seq<char>,
    pub timestamp: u64,
    pub hostname: Seq<char>,
    pub command: Seq<char>,
    pub cwd: Seq<char>,
    pub exit: i64,
    pub duration: u64,
}

impl View for HistoryRecord {
    type V = RecordModel;

    open spec fn view(&self) -> RecordModel {
        RecordModel {
            id: self.id@,
            timestamp: self.timestamp,
            hostname: self.hostname@,
            command: self.command@,
            cwd: self.cwd@,
            exit: self.exit,
            duration: self.duration,
        }
    }
}

/// The canonical byte serialization of a record's payload fields.
pub open spec fn encode_payload(command: Seq<char>, cwd: Seq<char>, exit: i64, duration: u64) -> Seq<
    u8,
> {
    encode_str(command) + encode_str(cwd) + le64(exit as u64) + le64(duration)
}

/// The payload of a record model, serialized.
pub open spec fn record_payload(r: RecordModel) -> Seq<u8> {
    encode_payload(r.command, r.cwd, r.exit, r.duration)
}

/// The spec-level parse of a payload serialization. A byte sequence parses
/// exactly when it is the canonical encoding of the returned fields and
/// nothing follows them.
pub open spec fn parse_payload(bytes: Seq<u8>) -> Option<(Seq<char>, Seq<char>, i64, u64)> {
    match parse_str(bytes, 0) {
        Some((c, at1)) => match parse_str(bytes, at1) {
            Some((w, at2)) => match parse_u64(bytes, at2) {
                Some((e, at3)) => match parse_u64(bytes, at3) {
                    Some((d, at4)) => if at4 == bytes.len() {
                        Some((c, w, e as i64, d))
                    } else {
                        None
                    },
                    None => None,
                },
                None => None,
            },
            None => None,
        },
        None => None,
    }
}

/// Casting an exit code through its unsigned wire form loses nothing.
pub proof fn lemma_exit_round_trip(e: i64)
    ensures
        (e as u64) as i64 == e,
{
    assert((e as u64) as i64 == e) by (bit_vector);
}

/// Casting a wire integer through a signed exit code loses nothing.
pub proof fn lemma_exit_wire_round_trip(v: u64)
    ensures
        (v as i64) as u64 == v,
{
    assert((v as i64) as u64 == v) by (bit_vector);
}

/// Parsing a payload yields fields whose canonical encoding is exactly the
/// parsed bytes: the format is canonical.
pub proof fn lemma_parse_payload_sound(bytes: Seq<u8>, c: Seq<char>, w: Seq<char>, e: i64, d: u64)
    requires
        parse_payload(bytes) == Some((c, w, e, d)),
    ensures
        bytes =~= encode_payload(c, w, e, d),
{
    let (c0, at1) = parse_str(bytes, 0).unwrap();
    let (w0, at2) = parse_str(bytes, at1).unwrap();
    let (e0, at3) = parse_u64(bytes, at2).unwrap();
    let (d0, at4) = parse_u64(bytes, at3).unwrap();
    lemma_parse_str_sound(bytes, 0, c0, at1);
    lemma_parse_str_sound(bytes, at1, w0, at2);
    lemma_le64_exact(bytes.subrange(at2, at2 + 8));
    lemma_le64_exact(bytes.subrange(at3, at3 + 8));
    lemma_exit_round_trip(e);
    lemma_exit_wire_round_trip(e0);
    assert(bytes =~= bytes.subrange(0, at1) + bytes.subrange(at1, at2) + bytes.subrange(
        at2,
        at2 + 8,
    ) + bytes.subrange(at3, at3 + 8));
}

/// Every canonical payload encoding parses back to exactly its fields.
pub proof fn lemma_parse_payload_complete(c: Seq<char>, w: Seq<char>, e: i64, d: u64)
    requires
        encode_payload(c, w, e, d).len() < 0x1_0000_0000_0000_0000,
    ensures
        parse_payload(encode_payload(c, w, e, d)) == Some((c, w, e, d)),
{
    let bytes = encode_payload(c, w, e, d);
    let ec = encode_str(c);
    let ew = encode_str(w);
    let at1 = ec.len() as int;
    let at2 = at1 + ew.len() as int;
    let at3 = at2 + 8;
    let at4 = at3 + 8;
    assert(bytes.subrange(0, at1) =~= ec);
    lemma_parse_str_complete(bytes, 0, c);
    assert(bytes.subrange(at1, at2) =~= ew);
    lemma_parse_str_complete(bytes, at1, w);
    assert(bytes.subrange(at2, at3) =~= le64(e as u64));
    assert(bytes.subrange(at3, at4) =~= le64(d));
    lemma_le64_round_trip(e as u64);
    lemma_le64_round_trip(d);
    lemma_exit_round_trip(e);
}

/// Serializes the payload fields of `r`.
pub fn payload_to_bytes(r: &HistoryRecord) -> (out: Vec<u8>)
    ensures
        out@ == record_payload(r@),
{
    let mut out: Vec<u8> = Vec::new();
    write_str(&mut out, r.command.as_str());
    write_str(&mut out, r.cwd.as_str());
    write_u64(&mut out, #[verifier::truncate] (r.exit as u64));
    write_u64(&mut out, r.duration);
    proof {
        assert(out@ =~= record_payload(r@));
    }
    out
}

/// Parses a payload serialization back into its fields; `None` exactly where
/// the spec-level parse fails.
pub fn payload_from_bytes(bytes: &[u8]) -> (r: Option<(String, String, i64, u64)>)
    ensures
        match r {
            Some(p) => parse_payload(bytes@) == Some((p.0@, p.1@, p.2, p.3)),
            None => parse_payload(bytes@) is None,
        },
{
    let step1 = read_str(bytes, 0);
    match step1 {
        Some((command, at1)) => {
            let step2 = read_str(bytes, at1);
            match step2 {
                Some((cwd, at2)) => {
                    if bytes.len() < 16 || at2 > bytes.len() - 16 {
                        return None;
                    }
                    let e = read_u64(bytes, at2);
                    let d = read_u64(bytes, at2 + 8);
                    if at2 + 16 != bytes.len() {
                        return None;
                    }
                    Some((command, cwd, #[verifier::truncate] (e as i64), d))
                },
                None => None,
            }
        },
        None => None,
    }
}

/// The ASCII code of the hex digit for a nibble.
pub open spec fn hex_ascii(n: u8) -> u8
    recommends
        n < 16,
{
    if n < 10 {
        (0x30 + n) as u8
    } else {
        (0x57 + n) as u8
    }
}

/// Sixteen random bytes with the version-4 and variant bits set, the
/// construction a version-4 identifier prescribes.
pub open spec fn uuid_adjust(b: Seq<u8>) -> Seq<u8> {
    b.update(6, (b[6] & 0x0f) | 0x40).update(8, (b[8] & 0x3f) | 0x80)
}

/// The group separator standing before the hex pair of byte `i`.
pub open spec fn uuid_dash(i: int) -> Seq<u8> {
    if i == 4 || i == 6 || i == 8 || i == 10 {
        seq![0x2du8]
    } else {
        Seq::empty()
    }
}

/// The ASCII form of the first `n` bytes of an identifier: hex pairs with
/// the canonical 8-4-4-4-12 group separators.
pub open spec fn uuid_ascii_upto(b: Seq<u8>, n: int) -> Seq<u8>
    decreases n,
{
    if n <= 0 {
        Seq::empty()
    } else {
        uuid_ascii_upto(b, n - 1) + uuid_dash(n - 1) + seq![
            hex_ascii(b[n - 1] >> 4),
            hex_ascii(b[n - 1] & 0x0f),
        ]
    }
}

/// The canonical 36-character ASCII form of a 16-byte identifier.
pub open spec fn uuid_ascii(b: Seq<u8>) -> Seq<u8> {
    uuid_ascii_upto(b, 16)
}

/// The identifier text grows by two hex digits per byte plus one separator
/// before each of the four later groups, and holds only bytes below 0x80.
proof fn lemma_uuid_ascii_shape(b: Seq<u8>, n: int)
    requires
        0 <= n <= 16,
    ensures
        uuid_ascii_upto(b, n).len() == 2 * n + (if n >= 11 {
            4int
        } else if n >= 9 {
            3int
        } else if n >= 7 {
            2int
        } else if n >= 5 {
            1int
        } else {
            0int
        }),
        forall|k: int|
            0 <= k < uuid_ascii_upto(b, n).len() ==> #[trigger] uuid_ascii_upto(b, n)[k] < 0x80,
    decreases n,
{
    if n > 0 {
        lemma_uuid_ascii_shape(b, n - 1);
        let prev = uuid_ascii_upto(b, n - 1);
        let x = b[n - 1];
        assert(x >> 4 < 16 && x & 0x0f < 16) by (bit_vector);
        assert(hex_ascii(x >> 4) < 0x80 && hex_ascii(x & 0x0f) < 0x80);
        assert forall|k: int|
            0 <= k < uuid_ascii_upto(b, n).len() implies #[trigger] uuid_ascii_upto(b, n)[k]
            < 0x80 by {
            if k < prev.len() {
                assert(uuid_ascii_upto(b, n)[k] == prev[k]);
            }
        }
    }
}

/// The ASCII hex digit of a nibble.
fn hex_digit(n: u8) -> (r: u8)
    requires
        n < 16,
    ensures
        r == hex_ascii(n),
{
    if n < 10 {
        0x30 + n
    } else {
        0x57 + n
    }
}

/// Formats sixteen bytes as a version-4 identifier string: hex groups of
/// 8-4-4-4-12 with the version and variant bits set.
pub fn format_uuid(bytes: &Vec<u8>) -> (r: String)
    requires
        bytes@.len() == 16,
    ensures
        ({
            let ascii = uuid_ascii(uuid_adjust(bytes@));
            &&& r@.len() == 36
            &&& ascii.len() == 36
            &&& forall|i: int| 0 <= i < 36 ==> r@[i] == (#[trigger] ascii[i]) as char
        }),
{
    let ghost adj = uuid_adjust(bytes@);
    let mut out: Vec<u8> = Vec::new();
    let mut i: usize = 0;
    while i < 16
        invariant
            bytes@.len() == 16,
            adj == uuid_adjust(bytes@),
            0 <= i <= 16,
            out@ == uuid_ascii_upto(adj, i as int),
        decreases 16 - i,
    {
        let raw = bytes[i];
        let v: u8 = if i == 6 {
            (raw & 0x0f) | 0x40
        } else if i == 8 {
            (raw & 0x3f) | 0x80
        } else {
            raw
        };
        proof {
            assert(v == adj[i as int]);
            let vv = v;
            assert(vv >> 4 < 16 && vv & 0x0f < 16) by (bit_vector);
        }
        if i == 4 || i == 6 || i == 8 || i == 10 {
            out.push(0x2d);
        }
        out.push(hex_digit(v >> 4));
        out.push(hex_digit(v & 0x0f));
        proof {
            assert(out@ =~= uuid_ascii_upto(adj, i as int + 1));
        }
        i = i + 1;
    }
    proof {
        lemma_uuid_ascii_shape(adj, 16);
        lemma_ascii_decode(out@);
    }
    let s = bytes_to_string(out.as_slice());
    s.unwrap()
}

/// A fresh version-4 identifier for a new record: sixteen bytes drawn from
/// the process randomness, version/variant-adjusted and formatted as the
/// canonical 36-character text.
pub fn uuid_v4() -> (r: String)
    ensures
        r@.len() == 36,
        exists|b: Seq<u8>|
            b.len() == 16 && (forall|i: int|
                0 <= i < 36 ==> r@[i] == (#[trigger] uuid_ascii(uuid_adjust(b))[i]) as char),
{
    let bytes = crate::cipher::random_bytes(16);
    let r = format_uuid(&bytes);
    proof {
        let b = bytes@;
        assert(b.len() == 16 && (forall|i: int|
            0 <= i < 36 ==> r@[i] == (uuid_ascii(uuid_adjust(b))[i]) as char));
    }
    r
}

} // verus!
