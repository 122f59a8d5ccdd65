use crate::header::{decode_hash, decode_parent, encoded_hash, encoded_parent};
use vstd::prelude::*;

verus! {

/// What the chain check reads of one header: the reference it declares to its
/// parent and its own hash.
#[derive(Clone, Copy, Debug)]
pub struct HeaderLink {
    pub parent_hash: [u8; 32],
    pub hash: [u8; 32],
}

/// The public output of a successful check: the hash the chain extends from
/// and the hash of its last header.
#[derive(Clone, Copy, Debug)]
pub struct Commitment {
    pub start_hash: [u8; 32],
    pub end_hash: [u8; 32],
}

#[derive(Clone, Copy, Debug, PartialEq, Eq, Structural)]
pub enum ChainError {
    /// The sequence holds no header.
    EmptySequence,
    /// The header at `index` does not reference the hash of the one before it.
    HashLinkMismatch { index: usize },
    /// The bytes at `index` are not the encoding of one header.
    MalformedHeader { index: usize },
    /// The payload is not a count followed by that many length-prefixed items.
    MalformedPayload,
}

/// Header `i` references the hash of header `i - 1`.
pub open spec fn linked(links: Seq<HeaderLink>, i: int) -> bool {
    links[i].parent_hash == links[i - 1].hash
}

pub open spec fn all_linked(links: Seq<HeaderLink>) -> bool {
    forall|i: int| 1 <= i < links.len() ==> #[trigger] linked(links, i)
}

/// `i` is the first position whose header is not linked to its predecessor.
pub open spec fn is_first_break(links: Seq<HeaderLink>, i: int) -> bool {
    &&& 1 <= i < links.len()
    &&& !linked(links, i)
    &&& forall|j: int| 1 <= j < i ==> #[trigger] linked(links, j)
}

pub open spec fn first_break(links: Seq<HeaderLink>) -> int {
    choose|i: int| is_first_break(links, i)
}

/// The outcome of checking a sequence of header links.
pub open spec fn chain_result(links: Seq<HeaderLink>) -> Result<Commitment, ChainError> {
    if links.len() == 0 {
        Err(ChainError::EmptySequence)
    } else if all_linked(links) {
        Ok(Commitment { start_hash: links[0].parent_hash, end_hash: links.last().hash })
    } else {
        Err(ChainError::HashLinkMismatch { index: first_break(links) as usize })
    }
}

/// Whether two digests are equal.
pub fn same_digest(a: &[u8; 32], b: &[u8; 32]) -> (r: bool)
    ensures
        r == (*a == *b),
{
    let mut i: usize = 0;
    while i < 32
        invariant
            i <= 32,
            forall|k: int| 0 <= k < i ==> a[k] == b[k],
        decreases 32 - i,
    {
        if a[i] != b[i] {
            return false;
        }
        i = i + 1;
    }
    assert(*a =~= *b);
    true
}

/// Checks that each header references the hash of the one before it. On
/// success the commitment holds the first header's parent reference and the
/// last header's hash; otherwise the first broken position is reported.
pub fn verify_links(links: &Vec<HeaderLink>) -> (r: Result<Commitment, ChainError>)
    ensures
        r == chain_result(links@),
{
    if links.len() == 0 {
        return Err(ChainError::EmptySequence);
    }
    let start_hash = links[0].parent_hash;
    let mut running = links[0].hash;
    let mut i: usize = 1;
    while i < links.len()
        invariant
            1 <= i <= links@.len(),
            running == links@[i - 1].hash,
            forall|j: int| 1 <= j < i ==> #[trigger] linked(links@, j),
        decreases links@.len() - i,
    {
        if !same_digest(&links[i].parent_hash, &running) {
            assert(is_first_break(links@, i as int));
            assert(!all_linked(links@));
            let ghost k = first_break(links@);
            assert(k == i) by {
                if k < i {
                    assert(linked(links@, k));
                } else if k > i {
                    assert(linked(links@, i as int));
                }
            }
            return Err(ChainError::HashLinkMismatch { index: i });
        }
        running = links[i].hash;
        i = i + 1;
    }
    Ok(Commitment { start_hash, end_hash: running })
}

/// The link read from one header's encoding, when the bytes are one.
pub open spec fn link_of(b: Seq<u8>) -> Option<HeaderLink> {
    match (encoded_parent(b), encoded_hash(b)) {
        (Some(p), Some(h)) => Some(HeaderLink { parent_hash: p, hash: h }),
        _ => None,
    }
}

pub open spec fn decodes(b: Seq<u8>) -> bool {
    link_of(b) is Some
}

pub open spec fn all_decode(hs: Seq<Seq<u8>>) -> bool {
    forall|i: int| 0 <= i < hs.len() ==> #[trigger] decodes(hs[i])
}

/// `i` is the first position whose bytes are not a header's encoding.
pub open spec fn is_first_malformed(hs: Seq<Seq<u8>>, i: int) -> bool {
    &&& 0 <= i < hs.len()
    &&& !decodes(hs[i])
    &&& forall|j: int| 0 <= j < i ==> #[trigger] decodes(hs[j])
}

/// The byte sequences held in `v`.
pub open spec fn views(v: Seq<Vec<u8>>) -> Seq<Seq<u8>> {
    Seq::new(v.len(), |i: int| v[i]@)
}

/// The links of a sequence of header encodings that all decode.
pub open spec fn links_of(hs: Seq<Seq<u8>>) -> Seq<HeaderLink> {
    Seq::new(hs.len(), |i: int| link_of(hs[i])->Some_0)
}

/// The outcome of checking a sequence of header encodings: every entry must
/// decode, then the decoded headers must form a hash-linked chain.
pub open spec fn headers_result(hs: Seq<Seq<u8>>) -> Result<Commitment, ChainError> {
    if all_decode(hs) {
        chain_result(links_of(hs))
    } else {
        Err(
            ChainError::MalformedHeader {
                index: (choose|i: int| is_first_malformed(hs, i)) as usize,
            },
        )
    }
}

/// Reads the parent reference and the hash of one encoded header.
pub fn header_link(b: &Vec<u8>) -> (r: Option<HeaderLink>)
    ensures
        r == link_of(b@),
{
    let parent = decode_parent(b.as_slice());
    let hash = decode_hash(b.as_slice());
    match (parent, hash) {
        (Some(parent_hash), Some(hash)) => Some(HeaderLink { parent_hash, hash }),
        _ => None,
    }
}

/// Checks a sequence of encoded headers: decodes each, then checks that each
/// header references the hash of the one before it.
pub fn verify_headers(headers: &Vec<Vec<u8>>) -> (r: Result<Commitment, ChainError>)
    ensures
        r == headers_result(views(headers@)),
{
    let ghost hs = views(headers@);
    let mut links: Vec<HeaderLink> = Vec::new();
    let mut i: usize = 0;
    while i < headers.len()
        invariant
            i <= headers@.len(),
            links@.len() == i,
            hs == views(headers@),
            forall|j: int| 0 <= j < i ==> #[trigger] decodes(hs[j]),
            forall|j: int| 0 <= j < i ==> links@[j] == link_of(hs[j])->Some_0,
        decreases headers@.len() - i,
    {
        match header_link(&headers[i]) {
            Some(l) => links.push(l),
            None => {
                assert(is_first_malformed(hs, i as int));
                let ghost k = choose|k: int| is_first_malformed(hs, k);
                assert(k == i) by {
                    if k < i {
                        assert(decodes(hs[k]));
                    } else if k > i {
                        assert(decodes(hs[i as int]));
                    }
                }
                return Err(ChainError::MalformedHeader { index: i });
            },
        }
        i = i + 1;
    }
    assert(links@ =~= links_of(hs));
    verify_links(&links)
}

/// A sequence of one or more decodable headers, each referencing the hash of
/// the header before it, is accepted, and the commitment holds the first
/// header's parent reference and the last header's hash.
pub proof fn lemma_linked_headers_commit(hs: Seq<Seq<u8>>)
    requires
        hs.len() >= 1,
        all_decode(hs),
        forall|i: int|
            1 <= i < hs.len() ==> #[trigger] encoded_parent(hs[i]) == encoded_hash(hs[i - 1]),
    ensures
        headers_result(hs) == Ok::<Commitment, ChainError>(
            Commitment {
                start_hash: encoded_parent(hs[0])->Some_0,
                end_hash: encoded_hash(hs.last())->Some_0,
            },
        ),
{
    let links = links_of(hs);
    assert forall|i: int| 1 <= i < links.len() implies #[trigger] linked(links, i) by {
        assert(decodes(hs[i]));
        assert(decodes(hs[i - 1]));
        assert(encoded_parent(hs[i]) == encoded_hash(hs[i - 1]));
    }
    assert(decodes(hs[0]));
    assert(decodes(hs[hs.len() - 1]));
}

/// A sequence of decodable headers in which some header does not reference
/// the hash of the one before it is rejected, and no commitment comes out: the
/// error names the first such header.
pub proof fn lemma_broken_link_rejected(hs: Seq<Seq<u8>>, k: int)
    requires
        all_decode(hs),
        1 <= k < hs.len(),
        encoded_parent(hs[k]) != encoded_hash(hs[k - 1]),
    ensures
        headers_result(hs) == Err::<Commitment, ChainError>(
            ChainError::HashLinkMismatch { index: first_break(links_of(hs)) as usize },
        ),
        is_first_break(links_of(hs), first_break(links_of(hs))),
        first_break(links_of(hs)) <= k,
{
    let links = links_of(hs);
    assert(decodes(hs[k]));
    assert(decodes(hs[k - 1]));
    assert(!linked(links, k));
    lemma_first_break_exists(links, k);
}

/// Below any unlinked position lies a first one.
proof fn lemma_first_break_exists(links: Seq<HeaderLink>, k: int)
    requires
        1 <= k < links.len(),
        !linked(links, k),
    ensures
        is_first_break(links, first_break(links)),
        first_break(links) <= k,
    decreases k,
{
    if forall|j: int| 1 <= j < k ==> #[trigger] linked(links, j) {
        assert(is_first_break(links, k));
        let f = first_break(links);
        if f < k {
            assert(linked(links, f));
        } else if f > k {
            assert(linked(links, k));
        }
    } else {
        let j = choose|j: int| 1 <= j < k && !#[trigger] linked(links, j);
        lemma_first_break_exists(links, j);
    }
}

/// A single decodable header is accepted with its own parent reference and
/// its own hash as the commitment.
pub proof fn lemma_single_header_commit(h: Seq<u8>)
    requires
        decodes(h),
    ensures
        headers_result(seq![h]) == Ok::<Commitment, ChainError>(
            Commitment {
                start_hash: encoded_parent(h)->Some_0,
                end_hash: encoded_hash(h)->Some_0,
            },
        ),
{
    let hs = seq![h];
    assert(hs[0] == h);
    assert(all_decode(hs));
    assert(all_linked(links_of(hs)));
}

} // verus!
