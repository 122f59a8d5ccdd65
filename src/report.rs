use crate::chain::Commitment;
use vstd::prelude::*;

verus! {

/// The lowercase hexadecimal digit for a value below 16.
pub open spec fn hex_digit(n: u8) -> char {
    seq!['0', '1', '2', '3', '4', '5', '6', '7', '8', '9', 'a', 'b', 'c', 'd', 'e', 'f'][n as int]
}

/// Bytes written as two lowercase hexadecimal digits each, high nibble first.
pub open spec fn hex_of(b: Seq<u8>) -> Seq<char> {
    Seq::new(
        2 * b.len(),
        |i: int|
            if i % 2 == 0 {
                hex_digit(b[i / 2] / 16)
            } else {
                hex_digit(b[i / 2] % 16)
            },
    )
}

/// Relies on `hex::encode`: two lowercase hexadecimal digits per byte, high
/// nibble first, in the order of the bytes.
#[verifier::external_body]
fn encode_hex(b: &[u8]) -> (r: String)
    ensures
        r@ == hex_of(b@),
{
    hex::encode(b)
}

/// The 64 bytes of a commitment: the start hash, then the end hash.
pub open spec fn commitment_bytes(c: Commitment) -> Seq<u8> {
    c.start_hash@ + c.end_hash@
}

impl Commitment {
    /// The 64-byte public output.
    pub fn to_bytes(&self) -> (r: Vec<u8>)
        ensures
            r@ == commitment_bytes(*self),
    {
        let mut out: Vec<u8> = Vec::new();
        let mut i: usize = 0;
        while i < 32
            invariant
                i <= 32,
                out@ == self.start_hash@.take(i as int),
            decreases 32 - i,
        {
            out.push(self.start_hash[i]);
            i = i + 1;
            assert(out@ =~= self.start_hash@.take(i as int));
        }
        let mut j: usize = 0;
        while j < 32
            invariant
                j <= 32,
                out@ == self.start_hash@ + self.end_hash@.take(j as int),
            decreases 32 - j,
        {
            out.push(self.end_hash[j]);
            j = j + 1;
            assert(out@ =~= self.start_hash@ + self.end_hash@.take(j as int));
        }
        assert(self.end_hash@.take(32) =~= self.end_hash@);
        out
    }

    /// Reads a commitment back from its 64 bytes; `None` for any other length.
    pub fn from_bytes(out: &[u8]) -> (r: Option<Commitment>)
        ensures
            r is Some <==> out@.len() == 64,
            r matches Some(c) ==> commitment_bytes(c) == out@,
    {
        if out.len() != 64 {
            return None;
        }
        let mut start_hash = [0u8; 32];
        let mut end_hash = [0u8; 32];
        let mut i: usize = 0;
        while i < 32
            invariant
                i <= 32,
                out@.len() == 64,
                forall|k: int| 0 <= k < i ==> start_hash[k] == out@[k],
                forall|k: int| 0 <= k < i ==> end_hash[k] == out@[k + 32],
            decreases 32 - i,
        {
            start_hash[i] = out[i];
            end_hash[i] = out[i + 32];
            i = i + 1;
        }
        let c = Commitment { start_hash, end_hash };
        assert(commitment_bytes(c) =~= out@);
        Some(c)
    }

    /// The start hash in lowercase hexadecimal.
    pub fn start_hex(&self) -> (r: String)
        ensures
            r@ == hex_of(self.start_hash@),
    {
        encode_hex(self.start_hash.as_slice())
    }

    /// The end hash in lowercase hexadecimal.
    pub fn end_hex(&self) -> (r: String)
        ensures
            r@ == hex_of(self.end_hash@),
    {
        encode_hex(self.end_hash.as_slice())
    }
}

/// How the driver runs the check.
#[derive(Clone, Copy, Debug, PartialEq, Eq, Structural)]
pub enum Mode {
    /// Run without a proof; report the output and the cycle count.
    Execute,
    /// Produce a proof, then verify it.
    Prove,
}

/// The mode that the two flags ask for: `None` when both are set, `Execute`
/// when only `execute` is, `Prove` otherwise.
pub fn select_mode(execute: bool, prove: bool) -> (r: Option<Mode>)
    ensures
        r == (if execute && prove {
            None
        } else if execute {
            Some(Mode::Execute)
        } else {
            Some(Mode::Prove)
        }),
{
    if execute && prove {
        None
    } else if execute {
        Some(Mode::Execute)
    } else {
        Some(Mode::Prove)
    }
}

/// Cycles spent per block of `[start, end)`; `None` when the range is empty
/// or reversed.
pub fn cycles_per_block(cycles: u64, start: u64, end: u64) -> (r: Option<u64>)
    ensures
        start < end ==> r == Some((cycles / ((end - start) as u64)) as u64),
        start >= end ==> r is None,
{
    if start < end {
        Some(cycles / (end - start))
    } else {
        None
    }
}

} // verus!
