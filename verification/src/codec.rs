//! The codec: a compact, canonical byte serialization used both for record
//! payloads (the part of a record that is encrypted) and for whole blobs on
//! the wire. Every field is either a little-endian 64-bit integer or a
//! length-prefixed UTF-8 string / byte run, so that decoding is exact: a byte
//! sequence decodes to a value if and only if it is that value's encoding.

use vstd::prelude::*;
use vstd::utf8::*;

verus! {

broadcast use vstd::utf8::encode_utf8_valid_utf8, vstd::utf8::encode_utf8_decode_utf8, vstd::utf8::decode_utf8_encode_utf8;

/// The little-endian eight-byte encoding of a 64-bit integer.
pub open spec fn le64(v: u64) -> Seq<u8> {
    seq![
        (v & 0xff) as u8,
        ((v >> 8) & 0xff) as u8,
        ((v >> 16) & 0xff) as u8,
        ((v >> 24) & 0xff) as u8,
        ((v >> 32) & 0xff) as u8,
        ((v >> 40) & 0xff) as u8,
        ((v >> 48) & 0xff) as u8,
        ((v >> 56) & 0xff) as u8,
    ]
}

/// The 64-bit integer read back from eight little-endian bytes.
pub open spec fn le64_value(b: Seq<u8>) -> u64
    recommends
        b.len() == 8,
{
    (b[0] as u64) | ((b[1] as u64) << 8) | ((b[2] as u64) << 16) | ((b[3] as u64) << 24) | ((
    b[4] as u64) << 32) | ((b[5] as u64) << 40) | ((b[6] as u64) << 48) | ((b[7] as u64) << 56)
}

/// Reading back the little-endian encoding of an integer yields the integer.
pub proof fn lemma_le64_round_trip(v: u64)
    ensures
        le64_value(le64(v)) == v,
{
    assert(((v & 0xff) as u8) as u64 | ((((v >> 8) & 0xff) as u8) as u64) << 8 | ((((v >> 16)
        & 0xff) as u8) as u64) << 16 | ((((v >> 24) & 0xff) as u8) as u64) << 24 | ((((v >> 32)
        & 0xff) as u8) as u64) << 32 | ((((v >> 40) & 0xff) as u8) as u64) << 40 | ((((v >> 48)
        & 0xff) as u8) as u64) << 48 | ((((v >> 56) & 0xff) as u8) as u64) << 56 == v)
        by (bit_vector);
}

/// Re-encoding the integer read from any eight bytes yields those bytes.
pub proof fn lemma_le64_exact(b: Seq<u8>)
    requires
        b.len() == 8,
    ensures
        le64(le64_value(b)) =~= b,
{
    let b0 = b[0];
    let b1 = b[1];
    let b2 = b[2];
    let b3 = b[3];
    let b4 = b[4];
    let b5 = b[5];
    let b6 = b[6];
    let b7 = b[7];
    let v = (b0 as u64) | ((b1 as u64) << 8) | ((b2 as u64) << 16) | ((b3 as u64) << 24) | ((
    b4 as u64) << 32) | ((b5 as u64) << 40) | ((b6 as u64) << 48) | ((b7 as u64) << 56);
    assert((v & 0xff) as u8 == b0 && ((v >> 8) & 0xff) as u8 == b1 && ((v >> 16) & 0xff) as u8 == b2
        && ((v >> 24) & 0xff) as u8 == b3 && ((v >> 32) & 0xff) as u8 == b4 && ((v >> 40)
        & 0xff) as u8 == b5 && ((v >> 48) & 0xff) as u8 == b6 && ((v >> 56) & 0xff) as u8 == b7)
        by (bit_vector)
        requires
            v == (b0 as u64) | ((b1 as u64) << 8) | ((b2 as u64) << 16) | ((b3 as u64) << 24) | ((
            b4 as u64) << 32) | ((b5 as u64) << 40) | ((b6 as u64) << 48) | ((b7 as u64) << 56),
    ;
}

/// A length-prefixed UTF-8 encoding of a character sequence.
pub open spec fn encode_str(s: Seq<char>) -> Seq<u8> {
    le64(encode_utf8(s).len() as u64) + encode_utf8(s)
}

/// A length-prefixed raw byte run.
pub open spec fn encode_bytes(b: Seq<u8>) -> Seq<u8> {
    le64(b.len() as u64) + b
}

/// Appends the little-endian encoding of `v` to `out`.
pub fn write_u64(out: &mut Vec<u8>, v: u64)
    ensures
        final(out)@ == old(out)@ + le64(v),
{
    out.push((v & 0xff) as u8);
    out.push(((v >> 8) & 0xff) as u8);
    out.push(((v >> 16) & 0xff) as u8);
    out.push(((v >> 24) & 0xff) as u8);
    out.push(((v >> 32) & 0xff) as u8);
    out.push(((v >> 40) & 0xff) as u8);
    out.push(((v >> 48) & 0xff) as u8);
    out.push(((v >> 56) & 0xff) as u8);
    proof {
        assert(out@ =~= old(out)@ + le64(v));
    }
}

/// Appends the length-prefixed UTF-8 bytes of `s` to `out`.
pub fn write_str(out: &mut Vec<u8>, s: &str)
    ensures
        final(out)@ == old(out)@ + encode_str(s@),
{
    let bytes = s.as_bytes();
    write_u64(out, bytes.len() as u64);
    out.extend_from_slice(bytes);
    proof {
        assert(out@ =~= old(out)@ + encode_str(s@));
    }
}

/// Appends the length-prefixed byte run `b` to `out`.
pub fn write_bytes(out: &mut Vec<u8>, b: &Vec<u8>)
    ensures
        final(out)@ == old(out)@ + encode_bytes(b@),
{
    write_u64(out, b.len() as u64);
    out.extend_from_slice(b.as_slice());
    proof {
        assert(out@ =~= old(out)@ + encode_bytes(b@));
    }
}

/// Reads the little-endian integer stored at offset `at`.
pub fn read_u64(bytes: &[u8], at: usize) -> (r: u64)
    requires
        at + 8 <= bytes@.len(),
    ensures
        r == le64_value(bytes@.subrange(at as int, at as int + 8)),
{
    let r = (bytes[at] as u64) | ((bytes[at + 1] as u64) << 8) | ((bytes[at + 2] as u64) << 16) | ((
    bytes[at + 3] as u64) << 24) | ((bytes[at + 4] as u64) << 32) | ((bytes[at + 5] as u64) << 40)
        | ((bytes[at + 6] as u64) << 48) | ((bytes[at + 7] as u64) << 56);
    r
}

/// The spec-level parse of a length-prefixed UTF-8 string at offset `at`:
/// the decoded characters and the offset just past them, or `None` where no
/// well-formed string is stored there.
pub open spec fn parse_str(bytes: Seq<u8>, at: int) -> Option<(Seq<char>, int)> {
    if 0 <= at && at + 8 <= bytes.len() {
        let n = le64_value(bytes.subrange(at, at + 8)) as int;
        if at + 8 + n <= bytes.len() {
            let content = bytes.subrange(at + 8, at + 8 + n);
            if valid_utf8(content) {
                Some((decode_utf8(content), at + 8 + n))
            } else {
                None
            }
        } else {
            None
        }
    } else {
        None
    }
}

/// The spec-level parse of a length-prefixed byte run at offset `at`.
pub open spec fn parse_bytes(bytes: Seq<u8>, at: int) -> Option<(Seq<u8>, int)> {
    if 0 <= at && at + 8 <= bytes.len() {
        let n = le64_value(bytes.subrange(at, at + 8)) as int;
        if at + 8 + n <= bytes.len() {
            Some((bytes.subrange(at + 8, at + 8 + n), at + 8 + n))
        } else {
            None
        }
    } else {
        None
    }
}

/// The spec-level parse of a little-endian integer at offset `at`.
pub open spec fn parse_u64(bytes: Seq<u8>, at: int) -> Option<(u64, int)> {
    if 0 <= at && at + 8 <= bytes.len() {
        Some((le64_value(bytes.subrange(at, at + 8)), at + 8))
    } else {
        None
    }
}

/// Whatever a string parse returns came from exactly the canonical encoding
/// of its result: the bytes between `at` and the returned offset are
/// `encode_str` of the returned characters.
pub proof fn lemma_parse_str_sound(bytes: Seq<u8>, at: int, s: Seq<char>, next: int)
    requires
        parse_str(bytes, at) == Some((s, next)),
    ensures
        at + 8 <= next <= bytes.len(),
        bytes.subrange(at, next) =~= encode_str(s),
        encode_utf8(s).len() == next - at - 8,
{
    let prefix = bytes.subrange(at, at + 8);
    let n = le64_value(prefix) as int;
    let content = bytes.subrange(at + 8, at + 8 + n);
    lemma_le64_exact(prefix);
    assert(encode_utf8(s) == content);
    assert(bytes.subrange(at, next) =~= prefix + content);
}

/// A string parse succeeds on every offset where a canonical encoding is
/// stored, and yields exactly the encoded characters.
pub proof fn lemma_parse_str_complete(bytes: Seq<u8>, at: int, s: Seq<char>)
    requires
        0 <= at,
        at + encode_str(s).len() <= bytes.len(),
        bytes.subrange(at, at + encode_str(s).len()) == encode_str(s),
        bytes.len() < 0x1_0000_0000_0000_0000,
    ensures
        parse_str(bytes, at) == Some((s, at + encode_str(s).len())),
{
    let u = encode_utf8(s);
    let prefix = bytes.subrange(at, at + 8);
    assert(prefix =~= le64(u.len() as u64));
    lemma_le64_round_trip(u.len() as u64);
    let n = le64_value(prefix) as int;
    assert(n == u.len());
    let e = encode_str(s);
    assert(forall|i: int|
        0 <= i < n ==> bytes.subrange(at, at + e.len() as int)[8 + i] == #[trigger] bytes[at + 8
            + i]);
    assert(forall|i: int| 0 <= i < n ==> e[8 + i] == u[i]);
    assert(bytes.subrange(at + 8, at + 8 + n) =~= u);
}

/// The byte-run analogue of [`lemma_parse_str_sound`].
pub proof fn lemma_parse_bytes_sound(bytes: Seq<u8>, at: int, b: Seq<u8>, next: int)
    requires
        parse_bytes(bytes, at) == Some((b, next)),
    ensures
        at + 8 <= next <= bytes.len(),
        bytes.subrange(at, next) =~= encode_bytes(b),
        b.len() == next - at - 8,
{
    let prefix = bytes.subrange(at, at + 8);
    lemma_le64_exact(prefix);
    let n = le64_value(prefix) as int;
    assert(bytes.subrange(at, next) =~= prefix + bytes.subrange(at + 8, at + 8 + n));
}

/// The byte-run analogue of [`lemma_parse_str_complete`].
pub proof fn lemma_parse_bytes_complete(bytes: Seq<u8>, at: int, b: Seq<u8>)
    requires
        0 <= at,
        at + encode_bytes(b).len() <= bytes.len(),
        bytes.subrange(at, at + encode_bytes(b).len()) == encode_bytes(b),
        bytes.len() < 0x1_0000_0000_0000_0000,
    ensures
        parse_bytes(bytes, at) == Some((b, at + encode_bytes(b).len())),
{
    let prefix = bytes.subrange(at, at + 8);
    assert(prefix =~= le64(b.len() as u64));
    lemma_le64_round_trip(b.len() as u64);
    let n = le64_value(prefix) as int;
    assert(n == b.len());
    let e = encode_bytes(b);
    assert(forall|i: int|
        0 <= i < n ==> bytes.subrange(at, at + e.len() as int)[8 + i] == #[trigger] bytes[at + 8
            + i]);
    assert(forall|i: int| 0 <= i < n ==> e[8 + i] == b[i]);
    assert(bytes.subrange(at + 8, at + 8 + n) =~= b);
}

/// Reads the length-prefixed UTF-8 string stored at offset `at`, with the
/// offset just past it; `None` exactly where the spec-level parse fails.
pub fn read_str(bytes: &[u8], at: usize) -> (r: Option<(String, usize)>)
    ensures
        match r {
            Some((s, next)) => parse_str(bytes@, at as int) == Some((s@, next as int)),
            None => parse_str(bytes@, at as int) is None,
        },
{
    if bytes.len() < 8 || at > bytes.len() - 8 {
        return None;
    }
    let n = read_u64(bytes, at);
    let rem = bytes.len() - at - 8;
    if n > rem as u64 {
        return None;
    }
    let content = &bytes[at + 8..at + 8 + n as usize];
    match bytes_to_string(content) {
        Some(s) => Some((s, at + 8 + n as usize)),
        None => None,
    }
}

/// Reads the length-prefixed byte run stored at offset `at`.
pub fn read_bytes(bytes: &[u8], at: usize) -> (r: Option<(Vec<u8>, usize)>)
    ensures
        match r {
            Some((b, next)) => parse_bytes(bytes@, at as int) == Some((b@, next as int)),
            None => parse_bytes(bytes@, at as int) is None,
        },
{
    if bytes.len() < 8 || at > bytes.len() - 8 {
        return None;
    }
    let n = read_u64(bytes, at);
    let rem = bytes.len() - at - 8;
    if n > rem as u64 {
        return None;
    }
    let content = vstd::slice::slice_to_vec(&bytes[at + 8..at + 8 + n as usize]);
    Some((content, at + 8 + n as usize))
}

/// Bytes below 0x80 are valid UTF-8 and decode to one character per byte.
pub proof fn lemma_ascii_decode(b: Seq<u8>)
    requires
        forall|i: int| 0 <= i < b.len() ==> b[i] < 0x80,
    ensures
        valid_utf8(b),
        decode_utf8(b).len() == b.len(),
        forall|i: int| 0 <= i < b.len() ==> decode_utf8(b)[i] == b[i] as char,
    decreases b.len(),
{
    if b.len() > 0 {
        assert(is_leading_byte_width_1(b[0]));
        assert(valid_first_scalar(b));
        assert(length_of_first_scalar(b) == 1);
        let rest = pop_first_scalar(b);
        assert(rest =~= b.subrange(1, b.len() as int));
        lemma_ascii_decode(rest);
        let b0 = b[0];
        assert(b0 & 0x7f == b0) by (bit_vector)
            requires
                b0 < 0x80,
        ;
        assert(decode_first_scalar(b) == b[0]);
        assert forall|i: int| 0 <= i < b.len() implies decode_utf8(b)[i] == b[i] as char by {
            if i > 0 {
                assert(decode_utf8(b)[i] == decode_utf8(rest)[i - 1]);
                assert(rest[i - 1] == b[i]);
            }
        }
    }
}

/// Relies on `String::from_utf8`: it succeeds exactly on valid UTF-8 input
/// and returns the string whose characters are the decoding of the bytes.
#[verifier::external_body]
pub(crate) fn bytes_to_string(v: &[u8]) -> (r: Option<String>)
    ensures
        r is Some <==> valid_utf8(v@),
        r is Some ==> r.unwrap()@ == decode_utf8(v@),
{
    String::from_utf8(v.to_vec()).ok()
}

} // verus!
