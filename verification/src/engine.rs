//! Reassembly of coded ping payloads: coded packets are gathered by payload id until enough
//! have arrived, then the payload is decoded, and later packets of that id are ignored.

use vstd::prelude::*;
use crate::linalg::{
    eliminated, keeps_solutions, lemma_identity_system_gives_unknowns,
    lemma_nonsingular_reduces_to_identity, nonsingular, reduced, row_holds,
};
use crate::rlnc::{
    concat, encodes, lemma_packets_concat_to_padded_payload, packet_count, packets_of, padded, rows,
    EncodedPayload, DEFAULT_CHUNK_SIZE,
};

verus! {

/// The coded packets gathered so far for each payload id not yet decoded, and the ids of the
/// payloads already decoded.
pub struct PingRLNC {
    cache: Vec<(String, Vec<EncodedPayload>)>,
    seen: Vec<String>,
}

/// The coefficient rows and payload rows of coded packets, as a linear system.
pub open spec fn system_of(v: Seq<EncodedPayload>, m: Seq<Vec<u8>>, d: Seq<Vec<u8>>) -> bool {
    &&& m.len() == v.len()
    &&& d.len() == v.len()
    &&& forall|k: int| 0 <= k < v.len() ==> #[trigger] m[k]@ == v[k].coeffs@
    &&& forall|k: int| 0 <= k < v.len() ==> #[trigger] d[k]@ == v[k].payload@
}

/// `out` is what decoding the coded packets gives: their system, eliminated into one with
/// exactly the same solutions, with its data rows laid one after the other.
pub open spec fn decoded(v: Seq<EncodedPayload>, out: Seq<u8>) -> bool {
    exists|m0: Seq<Vec<u8>>, d0: Seq<Vec<u8>>, m1: Seq<Vec<u8>>, d1: Seq<Vec<u8>>|
        {
            &&& #[trigger] system_of(v, m0, d0)
            &&& m1.len() == v.len()
            &&& d1.len() == v.len()
            &&& #[trigger] keeps_solutions(m0, d0, m1, d1, v.len())
            &&& keeps_solutions(m1, d1, m0, d0, v.len())
            &&& reduced(m1, v.len() as int)
            &&& forall|k: int| 0 <= k < v.len() ==> #[trigger] d1[k]@.len() == v[0].payload@.len()
            &&& out == concat(rows(d1))
        }
}

/// The coefficient rows of coded packets.
pub open spec fn coefficient_rows(v: Seq<EncodedPayload>) -> Seq<Seq<u8>> {
    v.map_values(|e: EncodedPayload| e.coeffs@)
}

/// The payload rows of coded packets.
pub open spec fn payload_rows(v: Seq<EncodedPayload>) -> Seq<Seq<u8>> {
    v.map_values(|e: EncodedPayload| e.payload@)
}

/// The bytes decoding gives: the data rows of the coded packets' system after elimination,
/// one after the other.
pub open spec fn decoding(v: Seq<EncodedPayload>) -> Seq<u8> {
    concat(eliminated(coefficient_rows(v), payload_rows(v), v.len() as int, v.len() as int).1)
}

/// Decoding gives back the unknown rows. When coded packets combine unknown rows `p` (one per
/// packet, each as long as the packets' payloads) and their coefficient matrix is nonsingular,
/// what decoding them gives is those rows, one after the other.
pub proof fn lemma_decoded_is_the_unknowns(v: Seq<EncodedPayload>, out: Seq<u8>, p: Seq<Seq<u8>>)
    requires
        decoded(v, out),
        nonsingular(coefficient_rows(v), v.len()),
        p.len() == v.len(),
        forall|k: int| 0 <= k < v.len() ==> #[trigger] encodes(v[k], p, v.len()),
        forall|k: int| 0 <= k < v.len() ==> #[trigger] v[k].payload@.len() == v[0].payload@.len(),
        forall|j: int| 0 <= j < v.len() ==> #[trigger] p[j].len() == v[0].payload@.len(),
    ensures
        out == concat(p),
{
    let n = v.len();
    let (m0, d0, m1, d1) = choose|m0: Seq<Vec<u8>>, d0: Seq<Vec<u8>>, m1: Seq<Vec<u8>>, d1: Seq<Vec<u8>>|
        {
            &&& #[trigger] system_of(v, m0, d0)
            &&& m1.len() == v.len()
            &&& d1.len() == v.len()
            &&& #[trigger] keeps_solutions(m0, d0, m1, d1, v.len())
            &&& keeps_solutions(m1, d1, m0, d0, v.len())
            &&& reduced(m1, v.len() as int)
            &&& forall|k: int| 0 <= k < v.len() ==> #[trigger] d1[k]@.len() == v[0].payload@.len()
            &&& out == concat(rows(d1))
        };
    if n > 0 && v[0].payload@.len() > 0 {
        let w = v[0].payload@.len();
        assert forall|k: int| 0 <= k < n implies #[trigger] row_holds(m0, d0, p, n, k) by {
            assert(encodes(v[k], p, n));
        }
        assert(rows(m0) =~= coefficient_rows(v));
        lemma_nonsingular_reduces_to_identity(m0, d0, m1, d1, n, w, p);
        lemma_identity_system_gives_unknowns(m1, d1, p, n);
    }
    assert forall|k: int| 0 <= k < n implies #[trigger] rows(d1)[k] == p[k] by {
        assert(rows(d1)[k] =~= p[k]);
    }
    assert(rows(d1) =~= p);
}

/// The ping payload comes back whole. When the coded packets of an entry (the last one that
/// arrived included) are one per packet of a payload, each combining those packets, with a
/// nonsingular coefficient matrix, what decoding them gives is the payload padded with zeros.
pub proof fn lemma_completed_entry_gives_payload(v: Seq<EncodedPayload>, out: Seq<u8>, x: Seq<u8>)
    requires
        decoded(v, out),
        v.len() == packet_count(x.len()),
        forall|k: int| 0 <= k < v.len() ==> #[trigger] encodes(v[k], packets_of(x), v.len()),
        forall|k: int| 0 <= k < v.len() ==> #[trigger] v[k].payload@.len() == DEFAULT_CHUNK_SIZE,
        nonsingular(coefficient_rows(v), v.len()),
    ensures
        out == padded(x),
{
    let p = packets_of(x);
    assert forall|j: int| 0 <= j < v.len() implies #[trigger] p[j].len() == v[0].payload@.len() by {
        assert(v[0].payload@.len() == DEFAULT_CHUNK_SIZE);
    }
    assert forall|k: int| 0 <= k < v.len() implies #[trigger] v[k].payload@.len() == v[0].payload@.len() by {
        assert(v[0].payload@.len() == DEFAULT_CHUNK_SIZE);
        assert(v[k].payload@.len() == DEFAULT_CHUNK_SIZE);
    }
    lemma_decoded_is_the_unknowns(v, out, p);
    lemma_packets_concat_to_padded_payload(x);
}

/// Coded packets that can be decoded together: each with at least as many coefficients as
/// there are packets, and payloads of one length.
pub open spec fn decodable(v: Seq<EncodedPayload>) -> bool {
    &&& forall|k: int| 0 <= k < v.len() ==> #[trigger] v[k].coeffs@.len() >= v.len()
    &&& forall|k: int| 0 <= k < v.len() ==> #[trigger] v[k].payload@.len() == v[0].payload@.len()
}

/// The index of the first of the first `n` entries that is for `id`.
pub open spec fn find_index(cache: Seq<(String, Vec<EncodedPayload>)>, id: Seq<char>, n: nat) -> Option<int>
    decreases n,
{
    if n == 0 {
        None
    } else {
        match find_index(cache, id, (n - 1) as nat) {
            Some(i) => Some(i),
            None => if cache[n - 1].0@ == id {
                Some(n - 1)
            } else {
                None
            },
        }
    }
}

/// The index of the first entry for `id`.
pub open spec fn entry_index(cache: Seq<(String, Vec<EncodedPayload>)>, id: Seq<char>) -> Option<int> {
    find_index(cache, id, cache.len())
}

/// Once found among the first `n` entries, an index stays the one found among more.
pub proof fn lemma_find_prefix(cache: Seq<(String, Vec<EncodedPayload>)>, id: Seq<char>, n: nat, m: nat)
    requires
        n <= m <= cache.len(),
        find_index(cache, id, n) is Some,
    ensures
        find_index(cache, id, m) == find_index(cache, id, n),
    decreases m - n,
{
    if m > n {
        lemma_find_prefix(cache, id, n, (m - 1) as nat);
    }
}

/// The index found is the first entry for `id`; none is found when no entry is for it.
pub proof fn lemma_find_index(cache: Seq<(String, Vec<EncodedPayload>)>, id: Seq<char>, n: nat)
    requires
        n <= cache.len(),
    ensures
        match find_index(cache, id, n) {
            Some(i) => 0 <= i < n && cache[i].0@ == id && forall|j: int|
                0 <= j < i ==> #[trigger] cache[j].0@ != id,
            None => forall|j: int| 0 <= j < n ==> #[trigger] cache[j].0@ != id,
        },
    decreases n,
{
    if n > 0 {
        lemma_find_index(cache, id, (n - 1) as nat);
    }
}

/// Whether coded packets, with one more after them, can be decoded together.
fn is_decodable_with(v: &Vec<EncodedPayload>, extra: &EncodedPayload) -> (r: bool)
    ensures
        r == decodable(v@.push(*extra)),
{
    let ghost s = v@.push(*extra);
    let n = v.len();
    if n == usize::MAX {
        let m = extra.coeffs.len();
        assert(s[n as int] == *extra);
        assert(s[n as int].coeffs@.len() == m);
        return false;
    }
    let first_len = if n > 0 { v[0].payload.len() } else { extra.payload.len() };
    assert(first_len == s[0].payload@.len());
    let mut k: usize = 0;
    while k < n
        invariant
            k <= n,
            n == v@.len(),
            n < usize::MAX,
            s == v@.push(*extra),
            first_len == s[0].payload@.len(),
            forall|q: int| 0 <= q < k ==> #[trigger] s[q].coeffs@.len() >= s.len(),
            forall|q: int| 0 <= q < k ==> #[trigger] s[q].payload@.len() == s[0].payload@.len(),
        decreases n - k,
    {
        assert(s[k as int] == v@[k as int]);
        if v[k].coeffs.len() < n + 1 || v[k].payload.len() != first_len {
            return false;
        }
        k += 1;
    }
    assert(s[n as int] == *extra);
    if extra.coeffs.len() < n + 1 || extra.payload.len() != first_len {
        return false;
    }
    assert forall|q: int| 0 <= q < s.len() implies #[trigger] s[q].coeffs@.len() >= s.len() by {
        if q < n {
        }
    }
    true
}

impl PingRLNC {
    /// The gathered coded packets, by payload id.
    pub closed spec fn cache(&self) -> Seq<(String, Vec<EncodedPayload>)> {
        self.cache@
    }

    /// The ids of the payloads already decoded.
    pub closed spec fn seen(&self) -> Seq<String> {
        self.seen@
    }

    /// Each payload id has at most one entry, and an id already decoded has none.
    pub open spec fn wf(&self) -> bool {
        &&& forall|i: int, j: int|
            #![trigger self.cache()[i], self.cache()[j]]
            0 <= i < j < self.cache().len() ==> self.cache()[i].0@ != self.cache()[j].0@
        &&& forall|i: int, j: int|
            #![trigger self.seen()[i], self.cache()[j]]
            0 <= i < self.seen().len() && 0 <= j < self.cache().len() ==> self.seen()[i]@
                != self.cache()[j].0@
    }

    /// Nothing gathered, nothing decoded.
    pub fn new() -> (r: Self)
        ensures
            r.cache().len() == 0,
            r.seen().len() == 0,
            r.wf(),
    {
        PingRLNC { cache: Vec::new(), seen: Vec::new() }
    }

    /// Whether a payload id was already decoded.
    fn is_seen(&self, id: &String) -> (r: bool)
        ensures
            r == exists|i: int| 0 <= i < self.seen().len() && #[trigger] self.seen()[i]@ == id@,
    {
        let mut i: usize = 0;
        while i < self.seen.len()
            invariant
                i <= self.seen@.len(),
                forall|j: int| 0 <= j < i ==> #[trigger] self.seen@[j]@ != id@,
            decreases self.seen@.len() - i,
        {
            if self.seen[i] == *id {
                assert(self.seen()[i as int]@ == id@);
                return true;
            }
            i += 1;
        }
        false
    }

    /// The index of the entry for a payload id.
    fn find_entry(&self, id: &String) -> (r: Option<usize>)
        ensures
            r is None <==> entry_index(self.cache(), id@) is None,
            r matches Some(k) ==> k < self.cache().len() && entry_index(self.cache(), id@) == Some(
                k as int,
            ),
    {
        let mut i: usize = 0;
        while i < self.cache.len()
            invariant
                i <= self.cache@.len(),
                find_index(self.cache@, id@, i as nat) is None,
            decreases self.cache@.len() - i,
        {
            if self.cache[i].0 == *id {
                assert(find_index(self.cache@, id@, (i + 1) as nat) == Some(i as int));
                proof {
                    lemma_find_prefix(self.cache@, id@, (i + 1) as nat, self.cache@.len());
                }
                return Some(i);
            }
            i += 1;
        }
        None
    }

    /// A coded packet that `handle_incoming` can take: one of a payload already decoded, the
    /// first of its payload, or one with a coefficient that, where it completes its payload,
    /// can be decoded together with the packets gathered before it.
    pub open spec fn can_take(&self, payload: EncodedPayload) -> bool {
        ||| exists|i: int| 0 <= i < self.seen().len() && #[trigger] self.seen()[i]@ == payload.id@
        ||| match entry_index(self.cache(), payload.id@) {
            Some(i) => {
                &&& payload.coeffs@.len() >= 1
                &&& self.cache()[i].1@.len() == payload.coeffs@.len() - 1 ==> decodable(
                    self.cache()[i].1@.push(payload),
                )
            },
            None => true,
        }
    }

    /// Whether `handle_incoming` can take a coded packet.
    pub fn accepts(&self, payload: &EncodedPayload) -> (r: bool)
        ensures
            r == self.can_take(*payload),
            (exists|i: int| 0 <= i < self.seen().len() && #[trigger] self.seen()[i]@ == payload.id@)
                ==> r,
            entry_index(self.cache(), payload.id@) is None ==> r,
    {
        if self.is_seen(&payload.id) {
            return true;
        }
        match self.find_entry(&payload.id) {
            None => true,
            Some(i) => {
                if payload.coeffs.len() < 1 {
                    return false;
                }
                if self.cache[i].1.len() != payload.coeffs.len() - 1 {
                    return true;
                }
                is_decodable_with(&self.cache[i].1, payload)
            },
        }
    }

    /// Takes a coded packet. A packet of a payload already decoded is ignored. The first packet
    /// of a payload starts its entry. When the entry already holds one packet fewer than the
    /// packet has coefficients, the arriving packet completes it: the payload is decoded from
    /// the packets held and the arriving one, the entry is dropped, the id is marked decoded,
    /// and the decoded bytes are returned; otherwise the packet joins its entry.
    pub fn handle_incoming(&mut self, payload: EncodedPayload) -> (r: Option<Vec<u8>>)
        requires
            old(self).can_take(payload),
        ensures
            old(self).wf() ==> final(self).wf(),
            ({
                let id = payload.id@;
                let cache = old(self).cache();
                if exists|i: int| 0 <= i < old(self).seen().len() && #[trigger] old(self).seen()[i]@ == id {
                    r is None && final(self).cache() == cache && final(self).seen() == old(self).seen()
                } else {
                    match entry_index(cache, id) {
                        None => {
                            &&& r is None
                            &&& final(self).seen() == old(self).seen()
                            &&& final(self).cache().len() == cache.len() + 1
                            &&& final(self).cache().take(cache.len() as int) == cache
                            &&& final(self).cache().last().0@ == id
                            &&& final(self).cache().last().1@ == seq![payload]
                        },
                        Some(i) => if cache[i].1@.len() == payload.coeffs@.len() - 1 {
                            &&& r matches Some(out) && decoded(cache[i].1@.push(payload), out@)
                                && out@ == decoding(cache[i].1@.push(payload))
                            &&& final(self).cache() == cache.remove(i)
                            &&& final(self).seen().len() == old(self).seen().len() + 1
                            &&& final(self).seen().take(old(self).seen().len() as int) == old(self).seen()
                            &&& final(self).seen().last()@ == id
                        } else {
                            &&& r is None
                            &&& final(self).seen() == old(self).seen()
                            &&& final(self).cache().len() == cache.len()
                            &&& forall|j: int| 0 <= j < cache.len() && j != i ==> #[trigger] final(self).cache()[j] == cache[j]
                            &&& final(self).cache()[i].0 == cache[i].0
                            &&& final(self).cache()[i].1@ == cache[i].1@.push(payload)
                        },
                    }
                }
            }),
    {
        if self.is_seen(&payload.id) {
            return None;
        }
        proof {
            lemma_find_index(self.cache@, payload.id@, self.cache@.len());
        }
        match self.find_entry(&payload.id) {
            None => {
                let id = payload.id.clone();
                let mut v: Vec<EncodedPayload> = Vec::new();
                v.push(payload);
                self.cache.push((id, v));
                assert(self.cache@.take(old(self).cache@.len() as int) =~= old(self).cache@);
                assert(forall|j: int| 0 <= j < old(self).cache@.len() ==> #[trigger] self.cache@[j] == old(self).cache@[j]);
                None
            },
            Some(i) => {
                if self.cache[i].1.len() == payload.coeffs.len() - 1 {
                    assert(entry_index(old(self).cache(), payload.id@) == Some(i as int));
                    assert(old(self).cache()[i as int].1@.len() == payload.coeffs@.len() - 1);
                    assert(decodable(old(self).cache()[i as int].1@.push(payload)));
                    let id = payload.id.clone();
                    let (_, mut encoded_vec) = self.cache.remove(i);
                    encoded_vec.push(payload);
                    let reconstructed = PingRLNC::reconstruct(&encoded_vec);
                    self.seen.push(id);
                    assert(self.seen@.take(old(self).seen@.len() as int) =~= old(self).seen@);
                    proof {
                        let oc = old(self).cache@;
                        assert(forall|j: int| 0 <= j < self.cache@.len() ==> #[trigger] self.cache@[j] == if j < i {
                            oc[j]
                        } else {
                            oc[j + 1]
                        });
                        assert(forall|q: int| 0 <= q < old(self).seen@.len() ==> #[trigger] self.seen@[q] == old(self).seen@[q]);
                        if old(self).wf() {
                            assert forall|q: int, j: int|
                                0 <= q < self.seen@.len() && 0 <= j < self.cache@.len() implies #[trigger] self.seen@[q]@
                                    != #[trigger] self.cache@[j].0@ by {
                                if q == old(self).seen@.len() {
                                    if j < i {
                                        assert(old(self).cache()[j] == oc[j]);
                                    } else {
                                        assert(old(self).cache()[j + 1] == oc[j + 1]);
                                    }
                                }
                            }
                        }
                    }
                    Some(reconstructed)
                } else {
                    let (id, mut v) = self.cache.remove(i);
                    v.push(payload);
                    self.cache.insert(i, (id, v));
                    assert(forall|j: int| 0 <= j < self.cache@.len() ==> #[trigger] self.cache@[j].0 == old(self).cache@[j].0);
                    None
                }
            },
        }
    }

    /// Cuts a payload into packets and makes a set of coded packets of them, under an id.
    pub fn formulate(payload: &[u8], id: &str) -> (r: Vec<EncodedPayload>)
        requires
            payload@.len() > 0,
        ensures
            r@.len() == crate::rlnc::DEFAULT_ENCODE_SET_LEN,
            forall|k: int|
                0 <= k < r@.len() ==> {
                    &&& encodes(#[trigger] r@[k], packets_of(payload@), packet_count(payload@.len()))
                    &&& r@[k].payload@.len() == crate::rlnc::DEFAULT_CHUNK_SIZE
                    &&& r@[k].id@ == id@
                },
    {
        let packets = EncodedPayload::split(payload);
        EncodedPayload::generate_encoded_set(packets.as_slice(), id.to_owned())
    }

    /// Decodes coded packets: builds their linear system, eliminates it and lays the data rows
    /// one after the other.
    pub fn reconstruct(encoded_vec: &Vec<EncodedPayload>) -> (r: Vec<u8>)
        requires
            decodable(encoded_vec@),
        ensures
            decoded(encoded_vec@, r@),
            r@ == decoding(encoded_vec@),
    {
        let (mut matrix, mut data) = EncodedPayload::build_linear_system(encoded_vec);
        let ghost m0 = matrix@;
        let ghost d0 = data@;
        EncodedPayload::gaussian_elimination(matrix.as_mut_slice(), data.as_mut_slice());
        assert(rows(m0) =~= coefficient_rows(encoded_vec@));
        assert(rows(d0) =~= payload_rows(encoded_vec@));
        let r = EncodedPayload::reconstruct(data);
        assert(system_of(encoded_vec@, m0, d0));
        r
    }
}

/// A coded packet of a payload already decoded is always taken (and then ignored): the sender
/// sends more coded packets than decoding needs, so such packets keep arriving.
pub proof fn lemma_packet_of_decoded_payload_is_taken(e: PingRLNC, payload: EncodedPayload, i: int)
    requires
        0 <= i < e.seen().len(),
        e.seen()[i]@ == payload.id@,
    ensures
        e.can_take(payload),
{
}

/// The first coded packet of a payload not yet decoded is always taken, whatever its
/// coefficients.
pub proof fn lemma_first_packet_is_taken(e: PingRLNC, payload: EncodedPayload)
    requires
        entry_index(e.cache(), payload.id@) is None,
    ensures
        e.can_take(payload),
{
}

} // verus!
