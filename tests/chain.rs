use alloy_consensus::Header;
use log0_summer::chain::{header_link, verify_headers, verify_links, ChainError, HeaderLink};

fn header(number: u64, parent: [u8; 32]) -> Header {
    Header {
        parent_hash: parent.into(),
        number,
        gas_limit: 30_000_000,
        timestamp: 1_700_000_000 + number,
        ..Default::default()
    }
}

fn enc(h: &Header) -> Vec<u8> {
    alloy_rlp::encode(h)
}

fn hash(h: &Header) -> [u8; 32] {
    h.hash_slow().0
}

#[test]
fn three_linked_headers_commit() {
    let a = header(1, [7u8; 32]);
    let b = header(2, hash(&a));
    let c = header(3, hash(&b));
    let got = verify_headers(&vec![enc(&a), enc(&b), enc(&c)]).ok().unwrap();
    assert_eq!(got.start_hash, [7u8; 32]);
    assert_eq!(got.end_hash, hash(&c));
}

#[test]
fn broken_link_fails_without_commitment() {
    let a = header(1, [7u8; 32]);
    let b = header(2, [9u8; 32]);
    assert_ne!(hash(&a), [9u8; 32]);
    let got = verify_headers(&vec![enc(&a), enc(&b)]);
    assert_eq!(got.err(), Some(ChainError::HashLinkMismatch { index: 1 }));
}

#[test]
fn first_broken_link_is_reported() {
    let a = header(1, [1u8; 32]);
    let b = header(2, hash(&a));
    let c = header(3, [0u8; 32]);
    let d = header(4, [0u8; 32]);
    let got = verify_headers(&vec![enc(&a), enc(&b), enc(&c), enc(&d)]);
    assert_eq!(got.err(), Some(ChainError::HashLinkMismatch { index: 2 }));
}

#[test]
fn single_header_commits_to_itself() {
    let a = header(42, [3u8; 32]);
    let got = verify_headers(&vec![enc(&a)]).ok().unwrap();
    assert_eq!(got.start_hash, [3u8; 32]);
    assert_eq!(got.end_hash, hash(&a));
}

#[test]
fn empty_sequence_is_refused() {
    assert_eq!(verify_headers(&vec![]).err(), Some(ChainError::EmptySequence));
    assert_eq!(verify_links(&vec![]).err(), Some(ChainError::EmptySequence));
}

#[test]
fn malformed_header_is_reported() {
    let a = header(1, [7u8; 32]);
    let b = header(2, hash(&a));
    let mut bad = enc(&b);
    bad.push(0);
    let got = verify_headers(&vec![enc(&a), bad, vec![1, 2, 3]]);
    assert_eq!(got.err(), Some(ChainError::MalformedHeader { index: 1 }));
}

#[test]
fn header_link_reads_parent_and_hash() {
    let a = header(5, [8u8; 32]);
    let l = header_link(&enc(&a)).unwrap();
    assert_eq!(l.parent_hash, [8u8; 32]);
    assert_eq!(l.hash, hash(&a));
    assert_ne!(l.hash, l.parent_hash);
    assert!(header_link(&vec![]).is_none());
}

#[test]
fn links_with_stub_hashes() {
    let links = vec![
        HeaderLink { parent_hash: [0u8; 32], hash: [1u8; 32] },
        HeaderLink { parent_hash: [1u8; 32], hash: [2u8; 32] },
        HeaderLink { parent_hash: [2u8; 32], hash: [3u8; 32] },
    ];
    let got = verify_links(&links).ok().unwrap();
    assert_eq!(got.start_hash, [0u8; 32]);
    assert_eq!(got.end_hash, [3u8; 32]);

    let broken = vec![
        HeaderLink { parent_hash: [0u8; 32], hash: [1u8; 32] },
        HeaderLink { parent_hash: [5u8; 32], hash: [2u8; 32] },
    ];
    assert_eq!(verify_links(&broken).err(), Some(ChainError::HashLinkMismatch { index: 1 }));
}
