use statediff::codec::{decode, encode, StateDiff, Token};
use statediff::error::Error;
use statediff::store::{Data, MemoryStore};
use std::sync::Arc;

const A: [u8; 16] = [1, 2, 3, 4, 5, 6, 7, 8, 9, 10, 11, 12, 13, 14, 15, 16];
const B: [u8; 16] = [
    0xAA, 0xAA, 0xAA, 0xAA, 0xAA, 0xAA, 0xAA, 0xAA, 0xBB, 0xBB, 0xBB, 0xBB, 0xBB, 0xBB, 0xBB, 0xBB,
];
const C: [u8; 16] = [1, 0, 0, 0, 0, 0, 0, 1, 0xCC, 0xCC, 0xCC, 0xCC, 0xCC, 0xCC, 0xCC, 0xCC];

fn token(bytes: [u8; 16]) -> Token {
    Token {
        bytes: bytes.to_vec(),
    }
}

fn diff(parent: Option<u64>, added: Vec<Token>, removed: Vec<Token>) -> StateDiff {
    StateDiff {
        parent,
        added: Arc::new(added),
        removed: Arc::new(removed),
    }
}

fn has(ts: &[Token], bytes: &[u8; 16]) -> bool {
    ts.iter().any(|t| t.bytes == bytes.to_vec())
}

#[test]
fn empty_diff_is_eight_zero_bytes() {
    let d = diff(None, vec![], vec![]);
    let enc = encode(&d);
    assert_eq!(enc, vec![0u8; 8]);
    let back = decode(&enc).unwrap();
    assert_eq!(back.parent, None);
    assert_eq!(back.added.len(), 0);
    assert_eq!(back.removed.len(), 0);
}

#[test]
fn added_only_layout_and_decode() {
    let d = diff(None, vec![token(A), token(B)], vec![]);
    let enc = encode(&d);
    let mut expected = vec![0u8; 8];
    expected.extend_from_slice(&A);
    expected.extend_from_slice(&B);
    assert_eq!(enc, expected);
    let back = decode(&enc).unwrap();
    assert_eq!(back.parent, None);
    assert_eq!(back.added.len(), 2);
    assert!(has(&back.added, &A));
    assert!(has(&back.added, &B));
    assert_eq!(back.removed.len(), 0);
}

#[test]
fn removed_only_layout_and_decode() {
    let d = diff(Some(5), vec![], vec![token(C)]);
    let enc = encode(&d);
    let mut expected = vec![0, 0, 0, 0, 0, 0, 0, 5];
    expected.extend_from_slice(&[0u8; 8]);
    expected.extend_from_slice(&C);
    assert_eq!(enc, expected);
    let back = decode(&enc).unwrap();
    assert_eq!(back.parent, Some(5));
    assert_eq!(back.added.len(), 0);
    assert_eq!(back.removed.len(), 1);
    assert!(has(&back.removed, &C));
}

#[test]
fn both_regions_layout_and_decode() {
    let d = diff(None, vec![token(A)], vec![token(C)]);
    let enc = encode(&d);
    let mut expected = vec![0u8; 8];
    expected.extend_from_slice(&A);
    expected.extend_from_slice(&[0u8; 8]);
    expected.extend_from_slice(&C);
    assert_eq!(enc, expected);
    let back = decode(&enc).unwrap();
    assert_eq!(back.parent, None);
    assert_eq!(back.added.len(), 1);
    assert!(has(&back.added, &A));
    assert_eq!(back.removed.len(), 1);
    assert!(has(&back.removed, &C));
}

#[test]
fn round_trip_all_emptiness_combinations() {
    let cases: Vec<(Option<u64>, Vec<[u8; 16]>, Vec<[u8; 16]>)> = vec![
        (None, vec![], vec![]),
        (Some(7), vec![A, B], vec![]),
        (Some(u64::MAX), vec![], vec![C]),
        (Some(1), vec![A], vec![B, C]),
    ];
    for (parent, added, removed) in cases {
        let d = diff(
            parent,
            added.iter().map(|b| token(*b)).collect(),
            removed.iter().map(|b| token(*b)).collect(),
        );
        let back = decode(&encode(&d)).unwrap();
        assert_eq!(back.parent, parent);
        assert_eq!(back.added.len(), added.len());
        assert_eq!(back.removed.len(), removed.len());
        for b in &added {
            assert!(has(&back.added, b));
        }
        for b in &removed {
            assert!(has(&back.removed, b));
        }
    }
}

#[test]
fn parent_field_zero_iff_no_parent() {
    let root = encode(&diff(None, vec![token(A)], vec![]));
    assert!(root[0..8].iter().all(|&b| b == 0));
    let child = encode(&diff(Some(5), vec![token(A)], vec![]));
    assert!(!child[0..8].iter().all(|&b| b == 0));
}

#[test]
fn no_marker_window_when_nothing_removed() {
    let enc = encode(&diff(Some(9), vec![token(A), token(B)], vec![]));
    let mut off = 8;
    while off + 16 <= enc.len() {
        assert!(!enc[off..off + 8].iter().all(|&b| b == 0));
        off += 16;
    }
}

#[test]
fn missing_key_fails_with_missing_entry() {
    let store = MemoryStore::new();
    let r = store.get_statediff(99);
    assert!(matches!(r, Err(Error::MissingEntry)));
}

#[test]
fn save_then_get_round_trips() {
    let mut store = MemoryStore::new();
    let d = diff(None, vec![token(A), token(B)], vec![token(C)]);
    assert!(store.save_statediff(1, d).is_ok());
    let back = store.get_statediff(1).unwrap();
    assert_eq!(back.parent, None);
    assert_eq!(back.added.len(), 2);
    assert!(has(&back.added, &A));
    assert!(has(&back.added, &B));
    assert_eq!(back.removed.len(), 1);
    assert!(has(&back.removed, &C));
    assert!(matches!(store.get_statediff(2), Err(Error::MissingEntry)));
}

#[test]
fn save_overwrites_existing_entry() {
    let mut store = MemoryStore::new();
    assert!(store
        .save_statediff(3, diff(None, vec![token(A)], vec![]))
        .is_ok());
    assert!(store
        .save_statediff(3, diff(Some(2), vec![token(B)], vec![]))
        .is_ok());
    let back = store.get_statediff(3).unwrap();
    assert_eq!(back.parent, Some(2));
    assert_eq!(back.added.len(), 1);
    assert!(has(&back.added, &B));
}

#[test]
fn trailing_bytes_are_tolerated() {
    let d = diff(Some(4), vec![token(A)], vec![token(C)]);
    let enc = encode(&d);
    for extra in [vec![0xDE, 0xAD, 0xBE, 0xEF, 0x01], vec![0u8; 15], vec![7u8]] {
        let mut longer = enc.clone();
        longer.extend_from_slice(&extra);
        let back = decode(&longer).unwrap();
        assert_eq!(back.parent, Some(4));
        assert_eq!(back.added.len(), 1);
        assert!(has(&back.added, &A));
        assert_eq!(back.removed.len(), 1);
        assert!(has(&back.removed, &C));
    }
}

#[test]
fn partial_trailing_token_is_dropped() {
    let mut enc = vec![0u8; 8];
    enc.extend_from_slice(&A);
    enc.extend_from_slice(&B[0..10]);
    let back = decode(&enc).unwrap();
    assert_eq!(back.added.len(), 1);
    assert!(has(&back.added, &A));
    assert_eq!(back.removed.len(), 0);
}

#[test]
fn short_blob_is_malformed() {
    assert!(matches!(decode(&vec![]), Err(Error::Malformed)));
    assert!(matches!(decode(&vec![1, 2, 3]), Err(Error::Malformed)));
    assert!(matches!(decode(&vec![0u8; 7]), Err(Error::Malformed)));
    assert!(decode(&vec![0u8; 8]).is_ok());
}

// The zero-upper-half invariant on tokens is assumed, never validated:
// a token colliding with the sentinel is read as the region separator,
// so the round trip silently breaks for it.
#[test]
fn sentinel_collision_silently_misreads() {
    let colliding: [u8; 16] = [0, 0, 0, 0, 0, 0, 0, 0, 9, 9, 9, 9, 9, 9, 9, 9];
    let enc = encode(&diff(None, vec![token(colliding)], vec![]));
    let back = decode(&enc).unwrap();
    assert_eq!(back.added.len(), 0);
    assert_eq!(back.removed.len(), 0);
}

#[test]
fn parent_id_decodes_big_endian() {
    let enc = encode(&diff(Some(0x0102030405060708), vec![], vec![]));
    assert_eq!(enc, vec![1, 2, 3, 4, 5, 6, 7, 8]);
    let back = decode(&enc).unwrap();
    assert_eq!(back.parent, Some(0x0102030405060708));
}
