//! The ping protocol's wire values: the probe payload, and the number of pings the initiator
//! announces as four big-endian bytes.

use vstd::prelude::*;

verus! {

/// Number of bytes in a ping probe.
pub const PING_LENGTH: usize = 32;

/// Number of pings in a run when the initiator asks for zero (a continuous run).
pub const CONTINUOUS_PINGS: u32 = 10;

/// A ping probe: `PING_LENGTH` bytes of one.
pub fn ping_payload() -> (r: Vec<u8>)
    ensures
        r@ == Seq::new(PING_LENGTH as nat, |i: int| 1u8),
{
    let mut r: Vec<u8> = Vec::new();
    let mut i: usize = 0;
    while i < PING_LENGTH
        invariant
            i <= PING_LENGTH,
            r@ == Seq::new(i as nat, |j: int| 1u8),
        decreases PING_LENGTH - i,
    {
        r.push(1);
        assert(r@ =~= Seq::new((i + 1) as nat, |j: int| 1u8));
        i += 1;
    }
    r
}

/// The four big-endian bytes of `n`.
pub open spec fn be32(n: u32) -> Seq<u8> {
    seq![(n / 0x100_0000) as u8, ((n / 0x1_0000) % 0x100) as u8, ((n / 0x100) % 0x100) as u8, (n % 0x100) as u8]
}

/// The number that four big-endian bytes stand for.
pub open spec fn from_be32(b: Seq<u8>) -> u32 {
    (b[0] * 0x100_0000 + b[1] * 0x1_0000 + b[2] * 0x100 + b[3]) as u32
}

/// The announced number of pings (`u32::to_be_bytes`).
pub fn encode_ping_count(count: u32) -> (r: Vec<u8>)
    ensures
        r@ == be32(count),
{
    let mut r: Vec<u8> = Vec::new();
    r.push((count / 0x100_0000) as u8);
    r.push(((count / 0x1_0000) % 0x100) as u8);
    r.push(((count / 0x100) % 0x100) as u8);
    r.push((count % 0x100) as u8);
    assert(r@ =~= be32(count));
    r
}

/// The announced number of pings, read from the first four bytes (`u32::from_be_bytes`);
/// `None` when fewer than four bytes arrived.
pub fn decode_ping_count(buf: &Vec<u8>) -> (r: Option<u32>)
    ensures
        buf@.len() < 4 ==> r is None,
        buf@.len() >= 4 ==> r == Some(from_be32(buf@)),
{
    if buf.len() < 4 {
        return None;
    }
    let v: u32 = (buf[0] as u32) * 0x100_0000 + (buf[1] as u32) * 0x1_0000 + (buf[2] as u32) * 0x100
        + (buf[3] as u32);
    Some(v)
}

/// The announced number of pings reads back as itself.
pub proof fn lemma_ping_count_roundtrip(count: u32)
    ensures
        be32(count).len() == 4,
        from_be32(be32(count)) == count,
{
    let b = be32(count);
    assert(b[0] * 0x100_0000 + b[1] * 0x1_0000 + b[2] * 0x100 + b[3] == count) by (nonlinear_arith)
        requires
            b[0] == count / 0x100_0000,
            b[1] == (count / 0x1_0000) % 0x100,
            b[2] == (count / 0x100) % 0x100,
            b[3] == count % 0x100,
            count <= 0xffff_ffff,
    ;
}

/// How a run of pings goes for an announced count: that many pings with one report at the end,
/// or, for zero, `CONTINUOUS_PINGS` pings reported one by one.
pub fn ping_rounds(count: u32) -> (r: (u32, bool))
    ensures
        count == 0 ==> r == (CONTINUOUS_PINGS, true),
        count != 0 ==> r == (count, false),
{
    if count == 0 {
        (CONTINUOUS_PINGS, true)
    } else {
        (count, false)
    }
}

} // verus!
