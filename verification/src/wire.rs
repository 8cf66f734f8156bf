//! The wire form of a blob: its canonical byte serialization, carried as a
//! base64 string inside the JSON transport. Parsing is exact at the byte
//! level; base64 itself is the one step delegated to an outside crate.

use vstd::prelude::*;
use crate::cipher::{BlobModel, EncryptedBlob};
use crate::codec::{
    encode_bytes, encode_str, le64, parse_bytes, parse_str, parse_u64, read_bytes, read_str,
    read_u64, write_bytes, write_str, write_u64, lemma_parse_str_sound, lemma_parse_str_complete,
    lemma_parse_bytes_sound, lemma_parse_bytes_complete, lemma_le64_round_trip, lemma_le64_exact,
};

verus! {

/// What `base64::encode` returns for a byte sequence: a function of the
/// bytes alone (standard alphabet, padded).
pub uninterp spec fn b64_of(bytes: Seq<u8>) -> Seq<char>;

/// What `base64::decode` returns for a string: a function of the characters
/// alone (the decoder is deterministic; it rejects the input or yields one
/// byte sequence).
pub uninterp spec fn b64_decoded_of(s: Seq<char>) -> Option<Seq<u8>>;

/// Relies on `base64::encode` (standard alphabet, padded): the result is a
/// function of the input bytes alone.
#[verifier::external_body]
fn b64_encode(bytes: &[u8]) -> (r: String)
    ensures
        r@ == b64_of(bytes@),
{
    base64::encode(bytes)
}

/// Relies on `base64::decode`: it is deterministic in its input, and it
/// inverts `base64::encode`, so on the encoding of any byte sequence it
/// succeeds and returns those bytes.
#[verifier::external_body]
fn b64_decode(s: &str) -> (r: Option<Vec<u8>>)
    ensures
        forall|b: Seq<u8>| s@ == b64_of(b) ==> r is Some && r.unwrap()@ == b,
        r matches Some(v) ==> b64_decoded_of(s@) == Some(v@),
        r is None ==> b64_decoded_of(s@) is None,
{
    base64::decode(s).ok()
}

/// Encodes a symmetric key (or any byte string) for display and transfer.
pub fn encode_key(key: &Vec<u8>) -> (r: String)
    ensures
        r@ == b64_of(key@),
{
    b64_encode(key.as_slice())
}

/// The canonical byte serialization of a blob.
pub open spec fn encode_blob(b: BlobModel) -> Seq<u8> {
    encode_str(b.id) + le64(b.timestamp) + encode_str(b.hostname) + encode_bytes(b.nonce)
        + encode_bytes(b.ciphertext)
}

/// The wire string a blob travels as.
pub open spec fn wire_of(b: BlobModel) -> Seq<char> {
    b64_of(encode_blob(b))
}

/// The spec-level parse of a blob serialization; succeeds exactly on the
/// canonical encoding of a structurally valid blob with nothing following.
pub open spec fn parse_blob(bytes: Seq<u8>) -> Option<BlobModel> {
    match parse_str(bytes, 0) {
        Some((id, at1)) => match parse_u64(bytes, at1) {
            Some((timestamp, at2)) => match parse_str(bytes, at2) {
                Some((hostname, at3)) => match parse_bytes(bytes, at3) {
                    Some((nonce, at4)) => match parse_bytes(bytes, at4) {
                        Some((ciphertext, at5)) => if at5 == bytes.len() && nonce.len() == 24 {
                            Some(BlobModel { id, timestamp, hostname, nonce, ciphertext })
                        } else {
                            None
                        },
                        None => None,
                    },
                    None => None,
                },
                None => None,
            },
            None => None,
        },
        None => None,
    }
}

/// Whatever a blob parse returns re-encodes to exactly the parsed bytes.
pub proof fn lemma_parse_blob_sound(bytes: Seq<u8>, b: BlobModel)
    requires
        parse_blob(bytes) == Some(b),
    ensures
        bytes =~= encode_blob(b),
        b.nonce.len() == 24,
{
    let (id, at1) = parse_str(bytes, 0).unwrap();
    let (ts, at2) = parse_u64(bytes, at1).unwrap();
    let (hostname, at3) = parse_str(bytes, at2).unwrap();
    let (nonce, at4) = parse_bytes(bytes, at3).unwrap();
    let (ciphertext, at5) = parse_bytes(bytes, at4).unwrap();
    lemma_parse_str_sound(bytes, 0, id, at1);
    lemma_le64_exact(bytes.subrange(at1, at1 + 8));
    lemma_parse_str_sound(bytes, at2, hostname, at3);
    lemma_parse_bytes_sound(bytes, at3, nonce, at4);
    lemma_parse_bytes_sound(bytes, at4, ciphertext, at5);
    assert(bytes =~= bytes.subrange(0, at1) + bytes.subrange(at1, at1 + 8) + bytes.subrange(
        at2,
        at3,
    ) + bytes.subrange(at3, at4) + bytes.subrange(at4, at5));
}

/// Every canonical encoding of a structurally valid blob parses back to
/// exactly that blob.
pub proof fn lemma_parse_blob_complete(b: BlobModel)
    requires
        b.nonce.len() == 24,
        encode_blob(b).len() < 0x1_0000_0000_0000_0000,
    ensures
        parse_blob(encode_blob(b)) == Some(b),
{
    let bytes = encode_blob(b);
    let e1 = encode_str(b.id);
    let e2 = le64(b.timestamp);
    let e3 = encode_str(b.hostname);
    let e4 = encode_bytes(b.nonce);
    let e5 = encode_bytes(b.ciphertext);
    let at1 = e1.len() as int;
    let at2 = at1 + 8;
    let at3 = at2 + e3.len() as int;
    let at4 = at3 + e4.len() as int;
    let at5 = at4 + e5.len() as int;
    assert(bytes.subrange(0, at1) =~= e1);
    lemma_parse_str_complete(bytes, 0, b.id);
    assert(bytes.subrange(at1, at2) =~= e2);
    lemma_le64_round_trip(b.timestamp);
    assert(bytes.subrange(at2, at3) =~= e3);
    lemma_parse_str_complete(bytes, at2, b.hostname);
    assert(bytes.subrange(at3, at4) =~= e4);
    lemma_parse_bytes_complete(bytes, at3, b.nonce);
    assert(bytes.subrange(at4, at5) =~= e5);
    lemma_parse_bytes_complete(bytes, at4, b.ciphertext);
    assert(parse_blob(bytes).unwrap() =~= b);
}

/// Serializes a blob for the wire.
pub fn blob_to_wire(blob: &EncryptedBlob) -> (r: String)
    ensures
        r@ == wire_of(blob@),
        encode_blob(blob@).len() < 0x1_0000_0000_0000_0000,
{
    let mut out: Vec<u8> = Vec::new();
    write_str(&mut out, blob.id.as_str());
    write_u64(&mut out, blob.timestamp);
    write_str(&mut out, blob.hostname.as_str());
    write_bytes(&mut out, &blob.nonce);
    write_bytes(&mut out, &blob.ciphertext);
    proof {
        assert(out@ =~= encode_blob(blob@));
        vstd::std_specs::vec::axiom_spec_len(&out);
    }
    b64_encode(out.as_slice())
}

/// Reads a blob back from its wire string. Returns a structurally valid blob
/// or nothing; on the wire form of any valid blob it returns exactly that
/// blob; whatever comes back is exactly the blob whose canonical byte form
/// the string's base64 decoding is, and nothing comes back where the
/// decoding is no such byte form.
pub fn wire_to_blob(s: &str) -> (r: Option<EncryptedBlob>)
    ensures
        r matches Some(blob) ==> blob.wf() && encode_blob(blob@).len() < 0x1_0000_0000_0000_0000
            && b64_decoded_of(s@) == Some(encode_blob(blob@)),
        r is None ==> forall|bm: BlobModel|
            bm.nonce.len() == 24 ==> b64_decoded_of(s@) != Some(#[trigger] encode_blob(bm)),
        forall|bm: BlobModel|
            (s@ == wire_of(bm) && bm.nonce.len() == 24 && encode_blob(bm).len()
                < 0x1_0000_0000_0000_0000) ==> r is Some && #[trigger] r.unwrap()@ =~= bm,
{
    let bytes = match b64_decode(s) {
        Some(v) => v,
        None => {
            return None;
        },
    };
    let r = parse_blob_exec(bytes.as_slice());
    proof {
        vstd::std_specs::vec::axiom_spec_len(&bytes);
        match &r {
            Some(blob) => {
                lemma_parse_blob_sound(bytes@, blob@);
            },
            None => {
                assert forall|bm: BlobModel| bm.nonce.len() == 24 implies b64_decoded_of(s@)
                    != Some(#[trigger] encode_blob(bm)) by {
                    if b64_decoded_of(s@) == Some(encode_blob(bm)) {
                        assert(bytes@ == encode_blob(bm));
                        lemma_parse_blob_complete(bm);
                    }
                }
            },
        }
        assert forall|bm: BlobModel|
            (s@ == wire_of(bm) && bm.nonce.len() == 24 && encode_blob(bm).len()
                < 0x1_0000_0000_0000_0000) implies r is Some && #[trigger] r.unwrap()@ =~= bm by {
            lemma_parse_blob_complete(bm);
        }
    }
    r
}

/// Parses the canonical byte serialization of a blob; `None` exactly where
/// the spec-level parse fails.
fn parse_blob_exec(bytes: &[u8]) -> (r: Option<EncryptedBlob>)
    ensures
        match r {
            Some(blob) => parse_blob(bytes@) == Some(blob@) && blob.wf(),
            None => parse_blob(bytes@) is None,
        },
{
    let step1 = read_str(bytes, 0);
    let (id, at1) = match step1 {
        Some(v) => v,
        None => {
            return None;
        },
    };
    if bytes.len() < 8 || at1 > bytes.len() - 8 {
        return None;
    }
    let timestamp = read_u64(bytes, at1);
    let step2 = read_str(bytes, at1 + 8);
    let (hostname, at3) = match step2 {
        Some(v) => v,
        None => {
            return None;
        },
    };
    let step3 = read_bytes(bytes, at3);
    let (nonce, at4) = match step3 {
        Some(v) => v,
        None => {
            return None;
        },
    };
    let step4 = read_bytes(bytes, at4);
    let (ciphertext, at5) = match step4 {
        Some(v) => v,
        None => {
            return None;
        },
    };
    if at5 != bytes.len() || nonce.len() != 24 {
        return None;
    }
    Some(EncryptedBlob { id, timestamp, hostname, nonce, ciphertext })
}

} // verus!
