use atuin::cipher::{decrypt, CipherEngine, EncryptedBlob};
use atuin::record::{format_uuid, payload_from_bytes, payload_to_bytes, uuid_v4, HistoryRecord};
use atuin::wire::{blob_to_wire, encode_key, wire_to_blob};
use atuin::CryptoError;
use chacha20poly1305::aead::Aead;
use chacha20poly1305::KeyInit;

fn key() -> Vec<u8> {
    (0u8..32u8).collect()
}

fn record(id: &str, ts: u64, host: &str, cmd: &str) -> HistoryRecord {
    HistoryRecord {
        id: id.to_string(),
        timestamp: ts,
        hostname: host.to_string(),
        command: cmd.to_string(),
        cwd: "/home/user".to_string(),
        exit: -1,
        duration: 123456789,
    }
}

fn assert_records_equal(a: &HistoryRecord, b: &HistoryRecord) {
    assert_eq!(a.id, b.id);
    assert_eq!(a.timestamp, b.timestamp);
    assert_eq!(a.hostname, b.hostname);
    assert_eq!(a.command, b.command);
    assert_eq!(a.cwd, b.cwd);
    assert_eq!(a.exit, b.exit);
    assert_eq!(a.duration, b.duration);
}

#[test]
fn encrypt_decrypt_round_trip() {
    let mut engine = CipherEngine::new(key());
    let rec = record("id-1", 42, "laptop", "cargo build");
    let blob = engine.encrypt(&rec).unwrap();
    let back = decrypt(&key(), &blob).unwrap();
    assert_records_equal(&rec, &back);
}

#[test]
fn round_trip_unicode_and_extremes() {
    let mut engine = CipherEngine::new(key());
    let mut rec = record("id-2", u64::MAX, "наутилус", "echo 'héllo wörld' ∑∫");
    rec.exit = i64::MIN;
    rec.duration = u64::MAX;
    rec.command = String::new();
    let blob = engine.encrypt(&rec).unwrap();
    let back = decrypt(&key(), &blob).unwrap();
    assert_records_equal(&rec, &back);
}

#[test]
fn tamper_detection_ciphertext() {
    let mut engine = CipherEngine::new(key());
    let rec = record("id-3", 7, "laptop", "ls -la");
    let blob = engine.encrypt(&rec).unwrap();
    for byte in 0..blob.ciphertext.len() {
        for bit in 0..8 {
            let mut bad = blob.clone();
            bad.ciphertext[byte] ^= 1u8 << bit;
            match decrypt(&key(), &bad) {
                Err(CryptoError::AuthenticationFailure) => {},
                other => panic!("tampered ciphertext accepted: {:?}", other),
            }
        }
    }
}

#[test]
fn tamper_detection_nonce() {
    let mut engine = CipherEngine::new(key());
    let rec = record("id-4", 7, "laptop", "pwd");
    let blob = engine.encrypt(&rec).unwrap();
    for byte in 0..blob.nonce.len() {
        for bit in 0..8 {
            let mut bad = blob.clone();
            bad.nonce[byte] ^= 1u8 << bit;
            match decrypt(&key(), &bad) {
                Err(CryptoError::AuthenticationFailure) => {},
                other => panic!("tampered nonce accepted: {:?}", other),
            }
        }
    }
}

#[test]
fn wrong_key_fails_authentication() {
    let mut engine = CipherEngine::new(key());
    let rec = record("id-5", 9, "laptop", "whoami");
    let blob = engine.encrypt(&rec).unwrap();
    let other: Vec<u8> = (100u8..132u8).collect();
    assert!(matches!(decrypt(&other, &blob), Err(CryptoError::AuthenticationFailure)));
}

#[test]
fn nonce_uniqueness() {
    let mut engine = CipherEngine::new(key());
    let rec = record("id-6", 10, "laptop", "date");
    let b1 = engine.encrypt(&rec).unwrap();
    let b2 = engine.encrypt(&rec).unwrap();
    assert_ne!(b1.nonce, b2.nonce);
    assert_ne!(b1.ciphertext, b2.ciphertext);
}

#[test]
fn decoding_failure_on_non_canonical_plaintext() {
    let key_arr: [u8; 32] = key().as_slice().try_into().unwrap();
    let nonce = [7u8; 24];
    let cipher = chacha20poly1305::XChaCha20Poly1305::new(&key_arr.into());
    let garbage = b"not a canonical payload";
    let ciphertext = cipher.encrypt((&nonce).into(), garbage.as_slice()).unwrap();
    let blob = EncryptedBlob {
        id: "id-7".to_string(),
        timestamp: 1,
        hostname: "laptop".to_string(),
        nonce: nonce.to_vec(),
        ciphertext,
    };
    assert!(matches!(decrypt(&key(), &blob), Err(CryptoError::EncodingFailure)));
}

#[test]
fn payload_codec_round_trip() {
    let rec = record("id-8", 3, "laptop", "git status");
    let bytes = payload_to_bytes(&rec);
    let (command, cwd, exit, duration) = payload_from_bytes(bytes.as_slice()).unwrap();
    assert_eq!(command, rec.command);
    assert_eq!(cwd, rec.cwd);
    assert_eq!(exit, rec.exit);
    assert_eq!(duration, rec.duration);
}

#[test]
fn payload_codec_exact_bytes() {
    let mut rec = record("id-9", 3, "laptop", "ab");
    rec.command = "ab".to_string();
    rec.cwd = "c".to_string();
    rec.exit = 1;
    rec.duration = 2;
    let bytes = payload_to_bytes(&rec);
    let mut expected: Vec<u8> = Vec::new();
    expected.extend_from_slice(&2u64.to_le_bytes());
    expected.extend_from_slice(b"ab");
    expected.extend_from_slice(&1u64.to_le_bytes());
    expected.extend_from_slice(b"c");
    expected.extend_from_slice(&1u64.to_le_bytes());
    expected.extend_from_slice(&2u64.to_le_bytes());
    assert_eq!(bytes, expected);
}

#[test]
fn payload_codec_rejects_trailing_bytes() {
    let rec = record("id-10", 3, "laptop", "git log");
    let mut bytes = payload_to_bytes(&rec);
    bytes.push(0);
    assert!(payload_from_bytes(bytes.as_slice()).is_none());
    assert!(payload_from_bytes(&[1, 2, 3]).is_none());
}

#[test]
fn wire_round_trip() {
    let mut engine = CipherEngine::new(key());
    let rec = record("id-11", 99, "laptop", "uname -a");
    let blob = engine.encrypt(&rec).unwrap();
    let s = blob_to_wire(&blob);
    let back = wire_to_blob(s.as_str()).unwrap();
    assert_eq!(back.id, blob.id);
    assert_eq!(back.timestamp, blob.timestamp);
    assert_eq!(back.hostname, blob.hostname);
    assert_eq!(back.nonce, blob.nonce);
    assert_eq!(back.ciphertext, blob.ciphertext);
}

#[test]
fn wire_rejects_garbage() {
    assert!(wire_to_blob("@@ not base64 @@").is_none());
    assert!(wire_to_blob("AAAA").is_none());
}

#[test]
fn key_encoding_is_base64() {
    assert_eq!(encode_key(&vec![0, 0, 0]), "AAAA");
    assert_eq!(encode_key(&b"hello".to_vec()), "aGVsbG8=");
}

#[test]
fn uuid_formatting_is_exact() {
    let bytes: Vec<u8> = (0u8..16u8).collect();
    assert_eq!(format_uuid(&bytes), "00010203-0405-4607-8809-0a0b0c0d0e0f");
    let all = vec![0xffu8; 16];
    assert_eq!(format_uuid(&all), "ffffffff-ffff-4fff-bfff-ffffffffffff");
}

#[test]
fn uuid_v4_shape() {
    let a = uuid_v4();
    let b = uuid_v4();
    assert_ne!(a, b);
    for u in [a, b] {
        assert_eq!(u.len(), 36);
        let chars: Vec<char> = u.chars().collect();
        for i in [8, 13, 18, 23] {
            assert_eq!(chars[i], '-');
        }
        assert_eq!(chars[14], '4');
        assert!(matches!(chars[19], '8' | '9' | 'a' | 'b'));
    }
}
