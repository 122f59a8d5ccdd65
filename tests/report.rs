use log0_summer::chain::Commitment;
use log0_summer::report::{cycles_per_block, select_mode, Mode};

#[test]
fn commitment_bytes_round_trip() {
    let c = Commitment { start_hash: [1u8; 32], end_hash: [2u8; 32] };
    let b = c.to_bytes();
    assert_eq!(b.len(), 64);
    assert_eq!(&b[..32], &[1u8; 32]);
    assert_eq!(&b[32..], &[2u8; 32]);
    let back = Commitment::from_bytes(&b).unwrap();
    assert_eq!(back.start_hash, [1u8; 32]);
    assert_eq!(back.end_hash, [2u8; 32]);
    assert!(Commitment::from_bytes(&b[..63]).is_none());
}

#[test]
fn commitment_hex() {
    let mut start = [0u8; 32];
    start[0] = 0xab;
    start[31] = 0x0f;
    let c = Commitment { start_hash: start, end_hash: [0xffu8; 32] };
    let s = c.start_hex();
    assert_eq!(s.len(), 64);
    assert!(s.starts_with("ab00"));
    assert!(s.ends_with("000f"));
    assert_eq!(c.end_hex(), "ff".repeat(32));
}

#[test]
fn mode_selection() {
    assert_eq!(select_mode(true, false), Some(Mode::Execute));
    assert_eq!(select_mode(false, true), Some(Mode::Prove));
    assert_eq!(select_mode(false, false), Some(Mode::Prove));
    assert_eq!(select_mode(true, true), None);
}

#[test]
fn cycles_per_block_values() {
    assert_eq!(cycles_per_block(1000, 100, 105), Some(200));
    assert_eq!(cycles_per_block(7, 0, 2), Some(3));
    assert_eq!(cycles_per_block(7, 5, 5), None);
    assert_eq!(cycles_per_block(7, 6, 5), None);
}
