use crate::chain::{headers_result, verify_headers, views, ChainError, Commitment};
use vstd::prelude::*;

verus! {

/// `n` as four little-endian bytes.
pub open spec fn le32(n: nat) -> Seq<u8> {
    seq![(n % 256) as u8, ((n / 256) % 256) as u8, ((n / 65536) % 256) as u8, ((n / 16777216) % 256) as u8]
}

/// The number held by the first four bytes of `s`, little-endian.
pub open spec fn read_le32(s: Seq<u8>) -> nat {
    (s[0] + 256 * s[1] + 65536 * s[2] + 16777216 * s[3]) as nat
}

/// Each item preceded by its length.
pub open spec fn frames(items: Seq<Seq<u8>>) -> Seq<u8>
    decreases items.len(),
{
    if items.len() == 0 {
        seq![]
    } else {
        frames(items.drop_last()) + le32(items.last().len()) + items.last()
    }
}

/// The payload for a sequence of encoded headers: their count, then each one
/// preceded by its length, all lengths as four little-endian bytes.
pub open spec fn payload_of(items: Seq<Seq<u8>>) -> Seq<u8> {
    le32(items.len()) + frames(items)
}

/// Reads `n` length-prefixed items that fill `s` exactly.
pub open spec fn parse_frames(s: Seq<u8>, n: nat) -> Option<Seq<Seq<u8>>>
    decreases n,
{
    if n == 0 {
        if s.len() == 0 {
            Some(seq![])
        } else {
            None
        }
    } else if s.len() < 4 {
        None
    } else {
        let l = read_le32(s);
        let rest = s.skip(4);
        if rest.len() < l {
            None
        } else {
            match parse_frames(rest.skip(l as int), (n - 1) as nat) {
                Some(t) => Some(seq![rest.take(l as int)] + t),
                None => None,
            }
        }
    }
}

/// Reads a payload back into its items.
pub open spec fn parse_payload_spec(s: Seq<u8>) -> Option<Seq<Seq<u8>>> {
    if s.len() < 4 {
        None
    } else {
        parse_frames(s.skip(4), read_le32(s))
    }
}

proof fn lemma_le32_read(n: nat)
    requires
        n <= u32::MAX,
    ensures
        read_le32(le32(n)) == n,
        le32(n).len() == 4,
{
    let s = le32(n);
    assert(s[0] == n % 256);
    assert(s[1] == (n / 256) % 256);
    assert(s[2] == (n / 65536) % 256);
    assert(s[3] == (n / 16777216) % 256);
    assert((n % 256) + 256 * ((n / 256) % 256) + 65536 * ((n / 65536) % 256) + 16777216 * ((n
        / 16777216) % 256) == n) by (nonlinear_arith)
        requires
            n <= u32::MAX,
    ;
}

fn push_le32(out: &mut Vec<u8>, n: u32)
    ensures
        final(out)@ == old(out)@ + le32(n as nat),
{
    out.push((n % 256) as u8);
    out.push(((n / 256) % 256) as u8);
    out.push(((n / 65536) % 256) as u8);
    out.push(((n / 16777216) % 256) as u8);
    assert(final(out)@ =~= old(out)@ + le32(n as nat));
}

fn get_le32(s: &[u8], pos: usize) -> (r: u32)
    requires
        pos + 4 <= s@.len(),
    ensures
        r as nat == read_le32(s@.skip(pos as int)),
{
    let v: u64 = s[pos] as u64 + 256 * (s[pos + 1] as u64) + 65536 * (s[pos + 2] as u64)
        + 16777216 * (s[pos + 3] as u64);
    assert(v <= u32::MAX);
    v as u32
}

/// What the guest reads: the ordered chain of encoded headers.
pub struct ProgramInput {
    pub header_chain: Vec<Vec<u8>>,
}

/// Builds the payload the guest reads. The empty sequence is refused.
pub fn build_payload(input: &ProgramInput) -> (r: Result<Vec<u8>, ChainError>)
    requires
        input.header_chain@.len() <= u32::MAX,
        forall|i: int|
            0 <= i < input.header_chain@.len() ==> #[trigger] input.header_chain@[i]@.len()
                <= u32::MAX,
    ensures
        input.header_chain@.len() == 0 ==> r == Err::<Vec<u8>, ChainError>(
            ChainError::EmptySequence,
        ),
        input.header_chain@.len() > 0 ==> (r matches Ok(p) && p@ == payload_of(
            views(input.header_chain@),
        )),
{
    let headers = &input.header_chain;
    if headers.len() == 0 {
        return Err(ChainError::EmptySequence);
    }
    let ghost items = views(headers@);
    let mut out: Vec<u8> = Vec::new();
    push_le32(&mut out, headers.len() as u32);
    let mut i: usize = 0;
    while i < headers.len()
        invariant
            i <= headers@.len(),
            items == views(headers@),
            forall|k: int| 0 <= k < headers@.len() ==> #[trigger] headers@[k]@.len() <= u32::MAX,
            out@ == le32(items.len()) + frames(items.take(i as int)),
        decreases headers@.len() - i,
    {
        let h = &headers[i];
        push_le32(&mut out, h.len() as u32);
        let mut j: usize = 0;
        let ghost base = out@;
        while j < h.len()
            invariant
                j <= h@.len(),
                out@ == base + h@.take(j as int),
            decreases h@.len() - j,
        {
            out.push(h[j]);
            j = j + 1;
            assert(out@ =~= base + h@.take(j as int));
        }
        assert(h@.take(h@.len() as int) =~= h@);
        assert(items.take(i + 1).drop_last() =~= items.take(i as int));
        assert(items.take(i + 1).last() == h@);
        i = i + 1;
    }
    assert(items.take(i as int) =~= items);
    Ok(out)
}

/// `acc` in front of what a parse gave, if it gave anything.
pub open spec fn prepend(acc: Seq<Seq<u8>>, o: Option<Seq<Seq<u8>>>) -> Option<Seq<Seq<u8>>> {
    match o {
        Some(t) => Some(acc + t),
        None => None,
    }
}

/// Reads a payload back into the encoded headers it holds; `None` when it is
/// not a count followed by exactly that many length-prefixed items.
pub fn parse_payload(p: &[u8]) -> (r: Option<ProgramInput>)
    ensures
        match r {
            None => parse_payload_spec(p@) is None,
            Some(v) => parse_payload_spec(p@) == Some(views(v.header_chain@)),
        },
{
    if p.len() < 4 {
        return None;
    }
    let count = get_le32(p, 0);
    let mut pos: usize = 4;
    let mut k: u32 = 0;
    let mut out: Vec<Vec<u8>> = Vec::new();
    assert(views(out@) + parse_frames(p@.skip(4), count as nat)->Some_0 =~= parse_frames(
        p@.skip(4),
        count as nat,
    )->Some_0);
    assert(p@.skip(0) =~= p@);
    while k < count
        invariant
            4 <= pos <= p@.len(),
            k <= count,
            count as nat == read_le32(p@),
            parse_payload_spec(p@) == prepend(
                views(out@),
                parse_frames(p@.skip(pos as int), (count - k) as nat),
            ),
        decreases count - k,
    {
        let ghost s = p@.skip(pos as int);
        if p.len() - pos < 4 {
            return None;
        }
        let l = get_le32(p, pos);
        if p.len() - pos - 4 < l as usize {
            assert(s.skip(4).len() < l);
            return None;
        }
        let start = pos + 4;
        let mut item: Vec<u8> = Vec::new();
        let mut j: usize = 0;
        while j < l as usize
            invariant
                start + l <= p@.len(),
                p@.len() <= usize::MAX,
                j <= l,
                item@ == p@.subrange(start as int, start + j),
            decreases l - j,
        {
            assert(start + j < p@.len());
            item.push(p[start + j]);
            j = j + 1;
            assert(item@ =~= p@.subrange(start as int, start + j));
        }
        let ghost prev = views(out@);
        assert(item@ =~= s.skip(4).take(l as int));
        assert(s.skip(4).skip(l as int) =~= p@.skip(start + l));
        out.push(item);
        assert(views(out@) =~= prev.push(item@));
        pos = start + l as usize;
        k = k + 1;
        proof {
            match parse_frames(p@.skip(pos as int), (count - k) as nat) {
                Some(t) => {
                    assert(prev + (seq![item@] + t) =~= views(out@) + t);
                },
                None => {},
            }
        }
    }
    if pos != p.len() {
        return None;
    }
    assert(p@.skip(pos as int) =~= Seq::<u8>::empty());
    assert(views(out@) + Seq::<Seq<u8>>::empty() =~= views(out@));
    Some(ProgramInput { header_chain: out })
}

/// The items of `frames` read from the front: the first item's length and
/// bytes, then the frames of the others.
proof fn lemma_frames_front(items: Seq<Seq<u8>>)
    requires
        items.len() > 0,
    ensures
        frames(items) == le32(items[0].len()) + items[0] + frames(items.drop_first()),
    decreases items.len(),
{
    if items.len() == 1 {
        assert(items.drop_last() =~= Seq::<Seq<u8>>::empty());
        assert(items.drop_first() =~= Seq::<Seq<u8>>::empty());
        assert(frames(items) =~= le32(items[0].len()) + items[0] + frames(items.drop_first()));
    } else {
        let d = items.drop_last();
        lemma_frames_front(d);
        assert(d.drop_first() =~= items.drop_first().drop_last());
        assert(items.drop_first().last() == items.last());
        assert(frames(items) =~= le32(items[0].len()) + items[0] + frames(items.drop_first()));
    }
}

proof fn lemma_parse_frames(items: Seq<Seq<u8>>)
    requires
        forall|i: int| 0 <= i < items.len() ==> #[trigger] items[i].len() <= u32::MAX,
    ensures
        parse_frames(frames(items), items.len()) == Some(items),
    decreases items.len(),
{
    if items.len() == 0 {
        assert(frames(items) =~= Seq::<u8>::empty());
        assert(items =~= Seq::<Seq<u8>>::empty());
    } else {
        let s = frames(items);
        let h = items[0];
        let t = items.drop_first();
        lemma_frames_front(items);
        lemma_parse_frames(t);
        lemma_le32_read(h.len());
        assert(s.skip(4) =~= h + frames(t));
        assert(le32(h.len()) =~= s.take(4));
        assert(read_le32(s) == read_le32(s.take(4)));
        assert(s.skip(4).take(h.len() as int) =~= h);
        assert(s.skip(4).skip(h.len() as int) =~= frames(t));
        assert(seq![h] + t =~= items);
    }
}

/// Reading back the payload built from a sequence of encoded headers gives
/// that sequence.
pub proof fn lemma_payload_round_trip(items: Seq<Seq<u8>>)
    requires
        items.len() <= u32::MAX,
        forall|i: int| 0 <= i < items.len() ==> #[trigger] items[i].len() <= u32::MAX,
    ensures
        parse_payload_spec(payload_of(items)) == Some(items),
{
    let p = payload_of(items);
    lemma_le32_read(items.len());
    assert(p.take(4) =~= le32(items.len()));
    assert(read_le32(p) == read_le32(p.take(4)));
    assert(p.skip(4) =~= frames(items));
    lemma_parse_frames(items);
}

/// The outcome of the guest on a payload.
pub open spec fn guest_result(p: Seq<u8>) -> Result<Commitment, ChainError> {
    match parse_payload_spec(p) {
        None => Err(ChainError::MalformedPayload),
        Some(items) => headers_result(items),
    }
}

/// The guest computation: reads the payload and checks the header chain it
/// holds, giving the commitment or the reason for refusing it.
pub fn run_guest(p: &[u8]) -> (r: Result<Commitment, ChainError>)
    ensures
        r == guest_result(p@),
{
    match parse_payload(p) {
        None => Err(ChainError::MalformedPayload),
        Some(input) => verify_headers(&input.header_chain),
    }
}

} // verus!
