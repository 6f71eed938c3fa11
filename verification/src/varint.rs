//! Unsigned varints (unsigned LEB128, as the `unsigned-varint` crate reads and writes them):
//! seven bits per byte, least significant group first, the high bit set on every byte but the
//! last.

use vstd::prelude::*;

verus! {

/// The varint encoding of `v`: the shortest one.
pub open spec fn varint(v: nat) -> Seq<u8>
    decreases v,
{
    if v < 128 {
        seq![v as u8]
    } else {
        seq![((v % 128) + 128) as u8] + varint(v / 128)
    }
}

/// Reads a varint from byte `i` of `buf` on, adding each group of seven bits times `scale` to
/// `acc`; `max_index` is the index of the last byte that may carry a group. Gives the value
/// and the index just past its last byte, or `None` when the input ends first, when the group
/// at `max_index` is not the last, or when a varint longer than one byte ends in a zero byte.
pub open spec fn decode_varint(buf: Seq<u8>, i: nat, acc: nat, scale: nat, max_index: nat) -> Option<
    (nat, nat),
>
    decreases buf.len() - i,
{
    if i >= buf.len() {
        None
    } else {
        let b = buf[i as int];
        let acc2 = (acc + (b % 128) * scale) as nat;
        if b < 128 {
            if b == 0 && i > 0 {
                None
            } else {
                Some((acc2, i + 1))
            }
        } else if i >= max_index {
            None
        } else {
            decode_varint(buf, i + 1, acc2, scale * 128, max_index)
        }
    }
}

/// A varint of a `u32` at the start of `buf`: its value and the number of bytes it takes.
pub open spec fn decoded_u32(buf: Seq<u8>) -> Option<(u32, nat)> {
    match decode_varint(buf, 0, 0, 1, 4) {
        Some((v, k)) => Some(((v % 0x1_0000_0000) as u32, k)),
        None => None,
    }
}

/// A varint of a `usize` at the start of `buf`: its value and the number of bytes it takes.
/// (Ten bytes at most on a 64-bit target, five on a 32-bit one.)
pub open spec fn decoded_usize(buf: Seq<u8>) -> Option<(usize, nat)> {
    let max_index: nat = if usize::BITS == 64 {
        9
    } else {
        4
    };
    match decode_varint(buf, 0, 0, 1, max_index) {
        Some((v, k)) => Some(((v % (usize::MAX as nat + 1)) as usize, k)),
        None => None,
    }
}

#[verifier::external_type_specification]
#[verifier::external_body]
pub struct ExVarintDecodeError(unsigned_varint::decode::Error);

/// `unsigned_varint::encode::u32`: writes the varint of `v`.
#[verifier::external_body]
pub(crate) fn encode_u32(v: u32) -> (r: Vec<u8>)
    ensures
        r@ == varint(v as nat),
{
    let mut tmp = [0u8; 5];
    unsigned_varint::encode::u32(v, &mut tmp).to_vec()
}

/// `unsigned_varint::encode::usize`: writes the varint of `v`.
#[verifier::external_body]
pub(crate) fn encode_usize(v: usize) -> (r: Vec<u8>)
    ensures
        r@ == varint(v as nat),
{
    let mut tmp = unsigned_varint::encode::usize_buffer();
    unsigned_varint::encode::usize(v, &mut tmp).to_vec()
}

/// `unsigned_varint::decode::u32`: reads a varint of at most five bytes (bits beyond the 32nd
/// are dropped) and gives its value and the bytes after it; fails exactly as `decode_varint`.
#[verifier::external_body]
pub(crate) fn decode_u32(buf: &[u8]) -> (r: Result<(u32, &[u8]), unsigned_varint::decode::Error>)
    ensures
        match decoded_u32(buf@) {
            Some((v, k)) => r matches Ok((x, rest)) && x == v && rest@ == buf@.skip(k as int),
            None => r is Err,
        },
{
    unsigned_varint::decode::u32(buf)
}

/// `unsigned_varint::decode::usize`: reads a varint of at most as many bytes as a `usize` needs
/// (bits beyond its width are dropped) and gives its value and the bytes after it; fails exactly as `decode_varint`.
#[verifier::external_body]
pub(crate) fn decode_usize(buf: &[u8]) -> (r: Result<(usize, &[u8]), unsigned_varint::decode::Error>)
    ensures
        match decoded_usize(buf@) {
            Some((v, k)) => r matches Ok((x, rest)) && x == v && rest@ == buf@.skip(k as int),
            None => r is Err,
        },
{
    unsigned_varint::decode::usize(buf)
}

/// Every varint has at least one byte, and one byte more for each seven bits.
pub proof fn lemma_varint_len(v: nat, k: nat)
    requires
        v < vstd::arithmetic::power2::pow2(7 * k),
        k >= 1,
    ensures
        1 <= varint(v).len() <= k,
    decreases v,
{
    vstd::arithmetic::power2::lemma_pow2_unfold(7 * k);
    if v >= 128 {
        assert(k >= 2) by {
            if k == 1 {
                vstd::arithmetic::power2::lemma2_to64();
            }
        }
        let k1 = (k - 1) as nat;
        assert(vstd::arithmetic::power2::pow2(7 * k) == vstd::arithmetic::power2::pow2(7 * k1)
            * 128) by {
            vstd::arithmetic::power2::lemma_pow2_adds(7 * k1, 7);
            vstd::arithmetic::power2::lemma2_to64();
        }
        assert(v / 128 < vstd::arithmetic::power2::pow2(7 * k1)) by (nonlinear_arith)
            requires
                v < vstd::arithmetic::power2::pow2(7 * k1) * 128,
        ;
        lemma_varint_len(v / 128, k1);
    }
}

/// Reading the varint of `v`, placed at byte `i` of a buffer, gives back `v` (times `scale`,
/// added to `acc`) and ends just past it, provided the varint fits before `max_index` and,
/// away from the start, is not the lone zero byte.
pub proof fn lemma_decode_varint(
    pre: Seq<u8>,
    v: nat,
    rest: Seq<u8>,
    acc: nat,
    scale: nat,
    max_index: nat,
)
    requires
        pre.len() > 0 ==> v > 0,
        pre.len() + varint(v).len() <= max_index + 1,
    ensures
        decode_varint(pre + varint(v) + rest, pre.len(), acc, scale, max_index) == Some(
            (acc + scale * v, pre.len() + varint(v).len()),
        ),
    decreases v,
{
    let buf = pre + varint(v) + rest;
    let i = pre.len();
    assert(buf[i as int] == varint(v)[0]);
    if v < 128 {
        assert((v as u8) == v);
        assert(((v as u8) % 128) as nat == v);
        assert(v * scale == scale * v) by (nonlinear_arith);
    } else {
        let b = ((v % 128) + 128) as u8;
        let rest_v = varint(v / 128);
        assert(varint(v).len() == 1 + rest_v.len());
        assert(b % 128 == v % 128);
        let pre2 = pre.push(b);
        assert(pre2 + rest_v + rest =~= buf);
        lemma_decode_varint(pre2, v / 128, rest, (acc + (b % 128) * scale) as nat, scale * 128, max_index);
        assert((v % 128) * scale + scale * 128 * (v / 128) == scale * v) by (nonlinear_arith)
            requires
                v == 128 * (v / 128) + v % 128,
        ;
    }
}

} // verus!
