use log0_summer::chunks::{chunks, Chunk, RangeChunks, RangeError};

fn pairs(v: &[Chunk]) -> Vec<(u64, u64)> {
    v.iter().map(|c| (c.lo, c.hi)).collect()
}

#[test]
fn range_100_105_by_2() {
    let got = chunks(100, 105, 2);
    assert_eq!(pairs(&got), vec![(100, 102), (102, 104), (104, 105)]);
}

#[test]
fn empty_range_has_no_chunks() {
    assert!(chunks(7, 7, 3).is_empty());
    let mut it = RangeChunks::new(7, 7, 3);
    assert!(it.next().is_none());
    assert!(it.next().is_none());
}

#[test]
fn chunk_larger_than_range() {
    assert_eq!(pairs(&chunks(10, 13, 1000)), vec![(10, 13)]);
}

#[test]
fn exact_multiple_of_chunk_size() {
    assert_eq!(pairs(&chunks(0, 6, 3)), vec![(0, 3), (3, 6)]);
}

#[test]
fn chunk_size_one() {
    assert_eq!(pairs(&chunks(5, 8, 1)), vec![(5, 6), (6, 7), (7, 8)]);
}

#[test]
fn range_at_top_of_u64() {
    let got = chunks(u64::MAX - 5, u64::MAX, 4);
    assert_eq!(pairs(&got), vec![(u64::MAX - 5, u64::MAX - 1), (u64::MAX - 1, u64::MAX)]);
}

#[test]
fn iterator_walks_the_range_in_order() {
    let mut it = RangeChunks::new(100, 105, 2);
    let a = it.next().unwrap();
    assert_eq!((a.lo, a.hi), (100, 102));
    let b = it.next().unwrap();
    assert_eq!((b.lo, b.hi), (102, 104));
    let c = it.next().unwrap();
    assert_eq!((c.lo, c.hi), (104, 105));
    assert!(it.next().is_none());
}

#[test]
fn chunks_partition_many_ranges() {
    for start in 0u64..12 {
        for len in 0u64..15 {
            for size in 1u64..6 {
                let end = start + len;
                let got = chunks(start, end, size);
                let mut next = start;
                for (i, c) in got.iter().enumerate() {
                    assert_eq!(c.lo, next);
                    assert!(c.lo < c.hi);
                    assert!(c.hi - c.lo <= size);
                    if i + 1 < got.len() {
                        assert_eq!(c.hi - c.lo, size);
                    }
                    next = c.hi;
                }
                assert_eq!(next, end);
                assert_eq!(got.is_empty(), start == end);
            }
        }
    }
}

#[test]
fn checked_refuses_bad_requests() {
    assert_eq!(RangeChunks::checked(5, 4, 1).err(), Some(RangeError::ReversedRange));
    assert_eq!(RangeChunks::checked(4, 5, 0).err(), Some(RangeError::ZeroChunkSize));
    let mut it = RangeChunks::checked(4, 5, 1).ok().unwrap();
    let c = it.next().unwrap();
    assert_eq!((c.lo, c.hi), (4, 5));
}
