//! Random linear network coding over GF(2^8): a payload is cut into equal packets,
//! sent as random combinations of them, and recovered by solving the linear system.

use rand::RngExt;
use vstd::prelude::*;
use crate::gf256::gf_mul;
use crate::linalg::{
    combine, eliminated, gauss_jordan, is_identity, keeps_solutions, lemma_identity_system_gives_unknowns,
    lemma_nonsingular_reduces_to_identity, nonsingular, reduced, row_holds, solves,
};

verus! {

/// Number of bytes in each packet that a payload is cut into.
pub const DEFAULT_CHUNK_SIZE: u8 = 5;

/// Number of coded packets generated for each payload.
pub const DEFAULT_ENCODE_SET_LEN: u8 = 10;

/// One coded packet: the coefficients of the combination and the combined bytes,
/// tagged with the id of the payload it belongs to.
#[derive(Debug)]
pub struct EncodedPayload {
    pub coeffs: Vec<u8>,
    pub payload: Vec<u8>,
    pub id: String,
}

/// The bytes of each row.
pub open spec fn rows(s: Seq<Vec<u8>>) -> Seq<Seq<u8>> {
    s.map_values(|v: Vec<u8>| v@)
}

/// The rows, one after the other.
pub open spec fn concat(rows: Seq<Seq<u8>>) -> Seq<u8>
    decreases rows.len(),
{
    if rows.len() == 0 {
        Seq::empty()
    } else {
        concat(rows.drop_last()) + rows.last()
    }
}

/// Number of packets a payload of `len` bytes is cut into.
pub open spec fn packet_count(len: nat) -> nat {
    ((len + 4) / 5) as nat
}

/// The payload followed by zeros, up to a whole number of packets.
pub open spec fn padded(p: Seq<u8>) -> Seq<u8> {
    Seq::new(
        (packet_count(p.len()) * 5) as nat,
        |k: int|
            if k < p.len() {
                p[k]
            } else {
                0u8
            },
    )
}

/// Packet `i` of the payload: bytes `5 i .. 5 i + 5` of the padded payload.
pub open spec fn packet(p: Seq<u8>, i: int) -> Seq<u8> {
    padded(p).subrange(i * 5, i * 5 + 5)
}

/// The packets of a payload.
pub open spec fn packets_of(p: Seq<u8>) -> Seq<Seq<u8>> {
    Seq::new(packet_count(p.len()), |i: int| packet(p, i))
}

/// A coded packet made from the first `n` unknown rows `p`: `n` coefficients, and each byte of
/// the payload the combination of the rows at that position.
pub open spec fn encodes(e: EncodedPayload, p: Seq<Seq<u8>>, n: nat) -> bool {
    &&& e.coeffs@.len() == n
    &&& forall|t: int|
        0 <= t < e.payload@.len() ==> #[trigger] e.payload@[t] == combine(e.coeffs@, p, t, n)
}

/// Laying the packets of a payload one after the other gives back the payload, padded with
/// zeros to a whole number of packets.
pub proof fn lemma_packets_concat_to_padded_payload(x: Seq<u8>)
    ensures
        concat(packets_of(x)) == padded(x),
{
    let c = packet_count(x.len());
    assert forall|i: int| 0 <= i <= c implies #[trigger] concat(packets_of(x).take(i))
        == padded(x).subrange(0, i * 5) by {
        lemma_concat_prefix(x, i);
    }
    assert(packets_of(x).take(c as int) =~= packets_of(x));
    assert(padded(x).subrange(0, (c * 5) as int) =~= padded(x));
}

proof fn lemma_concat_prefix(x: Seq<u8>, i: int)
    requires
        0 <= i <= packet_count(x.len()),
    ensures
        concat(packets_of(x).take(i)) == padded(x).subrange(0, i * 5),
    decreases i,
{
    if i == 0 {
        assert(packets_of(x).take(0) =~= Seq::<Seq<u8>>::empty());
        assert(padded(x).subrange(0, 0) =~= Seq::<u8>::empty());
    } else {
        lemma_concat_prefix(x, i - 1);
        assert(packets_of(x).take(i).drop_last() =~= packets_of(x).take(i - 1));
        assert(padded(x).subrange(0, (i - 1) * 5) + packet(x, i - 1) =~= padded(x).subrange(
            0,
            i * 5,
        ));
    }
}

/// Decoding recovers the payload. Take one coded packet per packet of a payload, put their
/// coefficients and bytes in a linear system, and eliminate it: when the coefficient matrix is
/// nonsingular, elimination leaves the identity, the data rows are the packets, and laid one
/// after the other they are the payload padded with zeros.
pub proof fn lemma_decoding_recovers_payload(
    x: Seq<u8>,
    encoded: Seq<EncodedPayload>,
    m0: Seq<Vec<u8>>,
    d0: Seq<Vec<u8>>,
    m1: Seq<Vec<u8>>,
    d1: Seq<Vec<u8>>,
)
    requires
        encoded.len() == packet_count(x.len()),
        forall|k: int|
            0 <= k < encoded.len() ==> #[trigger] encodes(
                encoded[k],
                packets_of(x),
                packet_count(x.len()),
            ),
        m0.len() == encoded.len(),
        d0.len() == encoded.len(),
        forall|k: int| 0 <= k < encoded.len() ==> #[trigger] m0[k]@ == encoded[k].coeffs@,
        forall|k: int| 0 <= k < encoded.len() ==> #[trigger] d0[k]@ == encoded[k].payload@,
        forall|k: int| 0 <= k < encoded.len() ==> #[trigger] d0[k]@.len() == DEFAULT_CHUNK_SIZE,
        nonsingular(rows(m0), encoded.len()),
        m1.len() == encoded.len(),
        d1.len() == encoded.len(),
        keeps_solutions(m0, d0, m1, d1, encoded.len()),
        keeps_solutions(m1, d1, m0, d0, encoded.len()),
        reduced(m1, encoded.len() as int),
        forall|k: int| 0 <= k < encoded.len() ==> #[trigger] d1[k]@.len() == DEFAULT_CHUNK_SIZE,
    ensures
        is_identity(m1, encoded.len() as int),
        forall|k: int| 0 <= k < encoded.len() ==> #[trigger] d1[k]@ == packet(x, k),
        concat(rows(d1)) == padded(x),
{
    let n = encoded.len();
    let p = packets_of(x);
    assert forall|k: int| 0 <= k < n implies #[trigger] row_holds(m0, d0, p, n, k) by {
        assert(encodes(encoded[k], p, n));
    }
    assert(solves(m0, d0, p, n));
    lemma_nonsingular_reduces_to_identity(m0, d0, m1, d1, n, DEFAULT_CHUNK_SIZE as nat, p);
    lemma_identity_system_gives_unknowns(m1, d1, p, n);
    assert forall|k: int| 0 <= k < n implies #[trigger] d1[k]@ == packet(x, k) by {
        assert(d1[k]@ =~= packet(x, k));
    }
    assert(rows(d1) =~= p);
    lemma_packets_concat_to_padded_payload(x);
}

/// Draws a byte from `rand`'s thread-local generator (`rand::rng().random::<u8>()`).
/// Nothing is promised of its value.
#[verifier::external_body]
fn random_coefficient() -> u8 {
    rand::rng().random::<u8>()
}

impl EncodedPayload {
    /// Cuts a payload into packets of `DEFAULT_CHUNK_SIZE` bytes, padding the last with zeros.
    pub fn split(payload: &[u8]) -> (packets: Vec<Vec<u8>>)
        ensures
            packets@.len() == packet_count(payload@.len()),
            forall|i: int|
                0 <= i < packets@.len() ==> #[trigger] packets@[i]@ == packet(payload@, i),
            rows(packets@) == packets_of(payload@),
    {
        let len = payload.len();
        let mut packets: Vec<Vec<u8>> = Vec::new();
        let mut start: usize = 0;
        while start < len
            invariant
                len == payload@.len(),
                start <= len,
                start as int == if 5 * packets@.len() <= len {
                    5 * packets@.len() as int
                } else {
                    len as int
                },
                5 * packets@.len() < len + 5 || packets@.len() == 0,
                forall|i: int|
                    0 <= i < packets@.len() ==> #[trigger] packets@[i]@ == packet(payload@, i),
            decreases len - start,
        {
            let ghost c = packets@.len();
            let mut p: Vec<u8> = Vec::new();
            let mut j: usize = 0;
            while j < DEFAULT_CHUNK_SIZE as usize
                invariant
                    j <= 5,
                    start == 5 * c,
                    start < len,
                    len == payload@.len(),
                    p@.len() == j,
                    forall|q: int|
                        0 <= q < j ==> #[trigger] p@[q] == if start + q < len {
                            payload@[start + q]
                        } else {
                            0u8
                        },
                decreases 5 - j,
            {
                if j < len - start {
                    p.push(payload[start + j]);
                } else {
                    p.push(0);
                }
                j += 1;
            }
            assert(packet_count(len as nat) >= c + 1);
            assert(p@ =~= packet(payload@, c as int));
            packets.push(p);
            if len - start >= 5 {
                start = start + 5;
            } else {
                start = len;
            }
        }
        assert(rows(packets@) =~= packets_of(payload@));
        packets
    }

    /// Ten coded packets of the same packets, each with fresh random coefficients.
    pub fn generate_encoded_set(packets: &[Vec<u8>], id: String) -> (encoded: Vec<EncodedPayload>)
        requires
            packets@.len() > 0,
            forall|i: int|
                0 <= i < packets@.len() ==> #[trigger] packets@[i]@.len() >= packets@[0]@.len(),
        ensures
            encoded@.len() == DEFAULT_ENCODE_SET_LEN,
            forall|k: int|
                0 <= k < encoded@.len() ==> {
                    &&& encodes(#[trigger] encoded@[k], rows(packets@), packets@.len())
                    &&& encoded@[k].payload@.len() == packets@[0]@.len()
                    &&& encoded@[k].id@ == id@
                },
    {
        let mut encoded: Vec<EncodedPayload> = Vec::new();
        let mut r: u8 = 0;
        while r < DEFAULT_ENCODE_SET_LEN
            invariant
                r <= DEFAULT_ENCODE_SET_LEN,
                encoded@.len() == r,
                packets@.len() > 0,
                forall|i: int|
                    0 <= i < packets@.len() ==> #[trigger] packets@[i]@.len() >= packets@[0]@.len(),
                forall|k: int|
                    0 <= k < encoded@.len() ==> {
                        &&& encodes(#[trigger] encoded@[k], rows(packets@), packets@.len())
                        &&& encoded@[k].payload@.len() == packets@[0]@.len()
                        &&& encoded@[k].id@ == id@
                    },
            decreases DEFAULT_ENCODE_SET_LEN - r,
        {
            encoded.push(EncodedPayload::encode(packets, id.clone()));
            r += 1;
        }
        encoded
    }

    /// One coded packet with random coefficients.
    fn encode(packets: &[Vec<u8>], id: String) -> (e: EncodedPayload)
        requires
            packets@.len() > 0,
            forall|i: int|
                0 <= i < packets@.len() ==> #[trigger] packets@[i]@.len() >= packets@[0]@.len(),
        ensures
            encodes(e, rows(packets@), packets@.len()),
            e.payload@.len() == packets@[0]@.len(),
            e.id == id,
    {
        let n = packets.len();
        let mut coeffs: Vec<u8> = Vec::new();
        let mut i: usize = 0;
        while i < n
            invariant
                i <= n,
                coeffs@.len() == i,
            decreases n - i,
        {
            coeffs.push(random_coefficient());
            i += 1;
        }
        EncodedPayload::encode_with_coefficients(packets, coeffs, id)
    }

    /// The coded packet with the given coefficients: byte `t` of its payload is the sum over the
    /// packets `i` of `coeffs[i] * packets[i][t]`.
    pub fn encode_with_coefficients(packets: &[Vec<u8>], coeffs: Vec<u8>, id: String) -> (e:
        EncodedPayload)
        requires
            packets@.len() > 0,
            coeffs@.len() == packets@.len(),
            forall|i: int|
                0 <= i < packets@.len() ==> #[trigger] packets@[i]@.len() >= packets@[0]@.len(),
        ensures
            encodes(e, rows(packets@), packets@.len()),
            e.coeffs == coeffs,
            e.payload@.len() == packets@[0]@.len(),
            e.id == id,
    {
        let n = packets.len();
        let size = packets[0].len();
        let mut payload: Vec<u8> = Vec::new();
        let mut t: usize = 0;
        while t < size
            invariant
                t <= size,
                payload@.len() == t,
                forall|q: int| 0 <= q < t ==> #[trigger] payload@[q] == 0u8,
            decreases size - t,
        {
            payload.push(0);
            t += 1;
        }
        let mut i: usize = 0;
        while i < n
            invariant
                i <= n,
                n == packets@.len(),
                n == coeffs@.len(),
                size == packets@[0]@.len(),
                payload@.len() == size,
                forall|q: int| 0 <= q < n ==> #[trigger] packets@[q]@.len() >= size,
                forall|q: int|
                    0 <= q < size ==> #[trigger] payload@[q] == combine(
                        coeffs@,
                        rows(packets@),
                        q,
                        i as nat,
                    ),
            decreases n - i,
        {
            let coeff = coeffs[i];
            let mut j: usize = 0;
            while j < size
                invariant
                    i < n,
                    j <= size,
                    n == packets@.len(),
                    n == coeffs@.len(),
                    coeff == coeffs@[i as int],
                    payload@.len() == size,
                    packets@[i as int]@.len() >= size,
                    forall|q: int|
                        0 <= q < j ==> #[trigger] payload@[q] == combine(
                            coeffs@,
                            rows(packets@),
                            q,
                            (i + 1) as nat,
                        ),
                    forall|q: int|
                        j <= q < size ==> #[trigger] payload@[q] == combine(
                            coeffs@,
                            rows(packets@),
                            q,
                            i as nat,
                        ),
                decreases size - j,
            {
                let val = gf_mul(coeff, packets[i][j]);
                let cur = payload[j];
                payload.set(j, cur ^ val);
                j += 1;
            }
            i += 1;
        }
        EncodedPayload { coeffs, payload, id }
    }

    /// The coefficient rows and the payload rows of the coded packets, as a linear system.
    pub fn build_linear_system(encoded_vec: &Vec<EncodedPayload>) -> (r: (Vec<Vec<u8>>, Vec<Vec<u8>>))
        ensures
            r.0@.len() == encoded_vec@.len(),
            r.1@.len() == encoded_vec@.len(),
            forall|k: int| 0 <= k < encoded_vec@.len() ==> #[trigger] r.0@[k]@ == encoded_vec@[k].coeffs@,
            forall|k: int| 0 <= k < encoded_vec@.len() ==> #[trigger] r.1@[k]@ == encoded_vec@[k].payload@,
    {
        let mut matrix: Vec<Vec<u8>> = Vec::new();
        let mut data: Vec<Vec<u8>> = Vec::new();
        let mut k: usize = 0;
        while k < encoded_vec.len()
            invariant
                k <= encoded_vec@.len(),
                matrix@.len() == k,
                data@.len() == k,
                forall|q: int| 0 <= q < k ==> #[trigger] matrix@[q]@ == encoded_vec@[q].coeffs@,
                forall|q: int| 0 <= q < k ==> #[trigger] data@[q]@ == encoded_vec@[q].payload@,
            decreases encoded_vec@.len() - k,
        {
            let pkt = &encoded_vec[k];
            let c = pkt.coeffs.clone();
            let d = pkt.payload.clone();
            assert(c@ =~= pkt.coeffs@);
            assert(d@ =~= pkt.payload@);
            matrix.push(c);
            data.push(d);
            k += 1;
        }
        (matrix, data)
    }

    /// Gauss-Jordan elimination of the square system formed by the first `n` rows and columns
    /// of `matrix` (with `n` its number of rows), applying every row operation to `data` too.
    /// The system after has exactly the solutions of the system before; each column ends either
    /// as a unit column or, when no pivot was found, zero from its diagonal down. The result is
    /// `eliminated`: column by column, the first row from the diagonal down with a non-zero
    /// entry is swapped up, scaled to one, and subtracted from the other rows; a column with no
    /// such row is skipped. Square coefficient rows stay square.
    pub fn gaussian_elimination(matrix: &mut [Vec<u8>], data: &mut [Vec<u8>])
        requires
            old(data)@.len() >= old(matrix)@.len(),
            forall|q: int|
                0 <= q < old(matrix)@.len() ==> #[trigger] old(matrix)@[q]@.len() >= old(
                    matrix,
                )@.len(),
            forall|q: int, r: int|
                0 <= q < old(matrix)@.len() && 0 <= r < old(matrix)@.len() ==> #[trigger] old(
                    data,
                )@[q]@.len() == #[trigger] old(data)@[r]@.len(),
        ensures
            final(matrix)@.len() == old(matrix)@.len(),
            final(data)@.len() == old(data)@.len(),
            forall|q: int|
                0 <= q < old(matrix)@.len() ==> #[trigger] final(matrix)@[q]@.len() >= old(
                    matrix,
                )@.len(),
            forall|q: int|
                0 <= q < old(matrix)@.len() ==> #[trigger] final(data)@[q]@.len() == old(
                    data,
                )@[0]@.len(),
            forall|q: int|
                old(matrix)@.len() <= q < old(data)@.len() ==> #[trigger] final(data)@[q] == old(
                    data,
                )@[q],
            keeps_solutions(old(matrix)@, old(data)@, final(matrix)@, final(data)@, old(matrix)@.len()),
            keeps_solutions(final(matrix)@, final(data)@, old(matrix)@, old(data)@, old(matrix)@.len()),
            reduced(final(matrix)@, old(matrix)@.len() as int),
            (rows(final(matrix)@), rows(final(data)@)) == eliminated(
                rows(old(matrix)@),
                rows(old(data)@),
                old(matrix)@.len() as int,
                old(matrix)@.len() as int,
            ),
            (forall|q: int|
                0 <= q < old(matrix)@.len() ==> #[trigger] old(matrix)@[q]@.len() == old(matrix)@.len())
                ==> (forall|q: int|
                0 <= q < old(matrix)@.len() ==> #[trigger] final(matrix)@[q]@.len() == old(matrix)@.len()),
    {
        gauss_jordan(matrix, data);
    }

    /// The rows, one after the other.
    pub fn reconstruct(data: Vec<Vec<u8>>) -> (result: Vec<u8>)
        ensures
            result@ == concat(rows(data@)),
    {
        let mut result: Vec<u8> = Vec::new();
        let mut i: usize = 0;
        while i < data.len()
            invariant
                i <= data@.len(),
                result@ == concat(rows(data@).take(i as int)),
            decreases data@.len() - i,
        {
            let ghost before = result@;
            let mut j: usize = 0;
            while j < data[i].len()
                invariant
                    i < data@.len(),
                    j <= data@[i as int]@.len(),
                    result@ == before + data@[i as int]@.take(j as int),
                decreases data@[i as int]@.len() - j,
            {
                result.push(data[i][j]);
                assert(data@[i as int]@.take(j + 1) =~= data@[i as int]@.take(j as int).push(data@[i as int]@[j as int]));
                j += 1;
            }
            assert(rows(data@).take(i + 1).drop_last() =~= rows(data@).take(i as int));
            assert(data@[i as int]@.take(data@[i as int]@.len() as int) =~= data@[i as int]@);
            i += 1;
        }
        assert(rows(data@).take(data@.len() as int) =~= rows(data@));
        result
    }
}



} // verus!
