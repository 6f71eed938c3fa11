//! Frames of the mplex stream multiplexer: a varint header carrying the stream id and a
//! three-bit flag, a varint payload length, then the payload.

use vstd::prelude::*;
use vstd::slice::{slice_subrange, slice_to_vec};
use vstd::utf8::{decode_utf8, valid_utf8};
use crate::subscription::string_from_utf8;
use crate::varint::{
    decode_u32, decode_usize, decode_varint, decoded_u32, decoded_usize, encode_u32, encode_usize,
    lemma_decode_varint, lemma_varint_len, varint,
};

verus! {

/// What a frame tells the stream it is addressed to.
#[derive(Debug, Clone, Copy, PartialEq, Eq, Structural)]
pub enum MuxedStreamFlag {
    NewStream,
    Message,
    CloseStream,
    Disconnected,
    HandshakeReq,
    HandshakeRes,
    Liveliness,
}

/// Why a frame header could not be read.
#[derive(Debug, Clone, Copy, PartialEq, Eq, Structural)]
pub enum MuxError {
    /// The header varint is missing, too long or not minimal.
    InvalidVarintHeader,
    /// The length varint is missing, too long or not minimal.
    InvalidLength,
    /// The three flag bits name no flag.
    InvalidMplexFlag,
}

/// The wire number of a flag.
pub open spec fn flag_tag(flag: MuxedStreamFlag) -> u8 {
    match flag {
        MuxedStreamFlag::NewStream => 1,
        MuxedStreamFlag::Message => 2,
        MuxedStreamFlag::CloseStream => 3,
        MuxedStreamFlag::Disconnected => 4,
        MuxedStreamFlag::HandshakeReq => 5,
        MuxedStreamFlag::HandshakeRes => 6,
        MuxedStreamFlag::Liveliness => 7,
    }
}

/// The flag a wire number stands for.
pub open spec fn flag_from_tag(tag: u8) -> Option<MuxedStreamFlag> {
    if tag == 1 {
        Some(MuxedStreamFlag::NewStream)
    } else if tag == 2 {
        Some(MuxedStreamFlag::Message)
    } else if tag == 3 {
        Some(MuxedStreamFlag::CloseStream)
    } else if tag == 4 {
        Some(MuxedStreamFlag::Disconnected)
    } else if tag == 5 {
        Some(MuxedStreamFlag::HandshakeReq)
    } else if tag == 6 {
        Some(MuxedStreamFlag::HandshakeRes)
    } else if tag == 7 {
        Some(MuxedStreamFlag::Liveliness)
    } else {
        None
    }
}

impl MuxedStreamFlag {
    /// The flag's wire number.
    pub fn tag(&self) -> (r: u8)
        ensures
            r == flag_tag(*self),
    {
        match self {
            Self::NewStream => 1,
            Self::Message => 2,
            Self::CloseStream => 3,
            Self::Disconnected => 4,
            Self::HandshakeReq => 5,
            Self::HandshakeRes => 6,
            Self::Liveliness => 7,
        }
    }

    /// The flag a wire number stands for; `None` outside one to seven.
    pub fn from_tag(tag: u8) -> (r: Option<Self>)
        ensures
            r == flag_from_tag(tag),
    {
        match tag {
            1 => Some(Self::NewStream),
            2 => Some(Self::Message),
            3 => Some(Self::CloseStream),
            4 => Some(Self::Disconnected),
            5 => Some(Self::HandshakeReq),
            6 => Some(Self::HandshakeRes),
            7 => Some(Self::Liveliness),
            _ => None,
        }
    }
}

/// A flag's number reads back as the flag, and every number that reads as a flag is its
/// number: the numbers are one to seven.
pub proof fn lemma_flag_tag_roundtrip(flag: MuxedStreamFlag, tag: u8)
    ensures
        flag_from_tag(flag_tag(flag)) == Some(flag),
        1 <= flag_tag(flag) <= 7,
        flag_from_tag(tag) matches Some(f) ==> flag_tag(f) == tag,
        flag_from_tag(tag) is Some <==> 1 <= tag <= 7,
{
}

/// The header value of a frame: the stream id shifted past three flag bits (its top three bits
/// fall out), and the flag's number in them.
pub open spec fn frame_header(stream_id: u32, flag: MuxedStreamFlag) -> u32 {
    (stream_id << 3u32) | (flag_tag(flag) as u32)
}

/// The bytes of a frame.
pub open spec fn frame(stream_id: u32, flag: MuxedStreamFlag, payload: Seq<u8>) -> Seq<u8> {
    varint(frame_header(stream_id, flag) as nat) + varint(payload.len()) + payload
}

/// What the header of `buf` reads as: the stream id, the flag, the length of the header varint
/// and the payload length that follows it.
pub open spec fn parsed_header(buf: Seq<u8>) -> Result<(u32, MuxedStreamFlag, usize, usize), MuxError> {
    match decoded_u32(buf) {
        None => Err(MuxError::InvalidVarintHeader),
        Some((header, k)) => match decoded_usize(buf.skip(k as int)) {
            None => Err(MuxError::InvalidLength),
            Some((len, _)) => match flag_from_tag((header & 7u32) as u8) {
                None => Err(MuxError::InvalidMplexFlag),
                Some(flag) => Ok((header >> 3u32, flag, k as usize, len)),
            },
        },
    }
}

/// A varint ends inside the buffer it is read from.
pub proof fn lemma_decode_varint_within(buf: Seq<u8>, i: nat, acc: nat, scale: nat, max_index: nat)
    ensures
        decode_varint(buf, i, acc, scale, max_index) matches Some((_, k)) ==> i < k <= buf.len(),
    decreases buf.len() - i,
{
    if i < buf.len() {
        let b = buf[i as int];
        if b >= 128 && i < max_index {
            lemma_decode_varint_within(buf, i + 1, (acc + (b % 128) * scale) as nat, scale * 128, max_index);
        }
    }
}

/// Builds a frame.
pub fn build_frame(stream_id: u32, flag: MuxedStreamFlag, payload: &[u8]) -> (buf: Vec<u8>)
    ensures
        buf@ == frame(stream_id, flag, payload@),
{
    let mut buf: Vec<u8> = Vec::new();
    let header_val = (stream_id << 3) | (flag.tag() as u32);
    let mut header_encoded = encode_u32(header_val);
    buf.append(&mut header_encoded);
    let mut len_encoded = encode_usize(payload.len());
    buf.append(&mut len_encoded);
    buf.extend_from_slice(payload);
    assert(buf@ =~= frame(stream_id, flag, payload@));
    buf
}

/// Reads the header of a frame: the stream id, the flag, the length of the header varint and
/// the payload length.
pub fn process_header(buf: &Vec<u8>) -> (r: Result<(u32, MuxedStreamFlag, usize, usize), MuxError>)
    ensures
        r == parsed_header(buf@),
{
    let (header_val, remaining) = match decode_u32(buf.as_slice()) {
        Ok(v) => v,
        Err(_) => {
            return Err(MuxError::InvalidVarintHeader);
        },
    };
    proof {
        lemma_decode_varint_within(buf@, 0, 0, 1, 4);
    }
    let header_len = buf.len() - remaining.len();
    let tag = (header_val & 0b111) as u8;
    let stream_id = header_val >> 3;
    let (payload_len, _) = match decode_usize(remaining) {
        Ok(v) => v,
        Err(_) => {
            return Err(MuxError::InvalidLength);
        },
    };
    let flag = match MuxedStreamFlag::from_tag(tag) {
        Some(f) => f,
        None => {
            return Err(MuxError::InvalidMplexFlag);
        },
    };
    Ok((stream_id, flag, header_len, payload_len))
}

/// Reading the header of a frame gives back the stream id, the flag and the payload length it
/// was built with, for stream ids below 2^29 (the header keeps 29 bits of the id); the payload
/// follows the two varints.
#[verifier::spinoff_prover]
pub proof fn lemma_frame_roundtrip(stream_id: u32, flag: MuxedStreamFlag, payload: Seq<u8>)
    requires
        stream_id < 0x2000_0000,
        payload.len() <= usize::MAX,
    ensures
        parsed_header(frame(stream_id, flag, payload)) == Ok::<
            (u32, MuxedStreamFlag, usize, usize),
            MuxError,
        >(
            (
                stream_id,
                flag,
                varint(frame_header(stream_id, flag) as nat).len() as usize,
                payload.len() as usize,
            ),
        ),
        frame(stream_id, flag, payload).skip(
            (varint(frame_header(stream_id, flag) as nat).len() + varint(payload.len()).len()) as int,
        ) == payload,
{
    let tag = flag_tag(flag);
    let hv = frame_header(stream_id, flag);
    assert(1 <= tag <= 7);
    assert(hv & 7u32 == tag as u32 && hv >> 3u32 == stream_id) by (bit_vector)
        requires
            hv == (stream_id << 3u32) | (tag as u32),
            stream_id < 0x2000_0000,
            1 <= tag <= 7,
    ;
    let hbytes = varint(hv as nat);
    let lbytes = varint(payload.len());
    let buf = hbytes + lbytes + payload;
    vstd::arithmetic::power2::lemma2_to64();
    vstd::arithmetic::power2::lemma_pow2_strictly_increases(35, 70);
    vstd::arithmetic::power2::lemma_pow2_strictly_increases(32, 35);
    vstd::arithmetic::power2::lemma_pow2_strictly_increases(64, 70);
    lemma_varint_len(hv as nat, 5);
    assert(Seq::<u8>::empty() + hbytes + (lbytes + payload) =~= buf);
    lemma_decode_varint(Seq::<u8>::empty(), hv as nat, lbytes + payload, 0, 1, 4);
    assert(decoded_u32(buf) == Some((hv, hbytes.len())));
    assert(buf.skip(hbytes.len() as int) =~= lbytes + payload);
    if usize::BITS == 64 {
        lemma_varint_len(payload.len(), 10);
        assert(Seq::<u8>::empty() + lbytes + payload =~= lbytes + payload);
        lemma_decode_varint(Seq::<u8>::empty(), payload.len(), payload, 0, 1, 9);
    } else {
        lemma_varint_len(payload.len(), 5);
        assert(Seq::<u8>::empty() + lbytes + payload =~= lbytes + payload);
        lemma_decode_varint(Seq::<u8>::empty(), payload.len(), payload, 0, 1, 4);
    }
    assert(buf.skip((hbytes.len() + lbytes.len()) as int) =~= payload);
}

/// A length prefix reads back as the length.
#[verifier::spinoff_prover]
proof fn lemma_length_prefix(payload: Seq<u8>)
    requires
        payload.len() <= usize::MAX,
    ensures
        decoded_usize(varint(payload.len()) + payload) == Some(
            (payload.len() as usize, varint(payload.len()).len()),
        ),
{
    let lbytes = varint(payload.len());
    vstd::arithmetic::power2::lemma2_to64();
    assert(Seq::<u8>::empty() + lbytes + payload =~= lbytes + payload);
    if usize::BITS == 64 {
        vstd::arithmetic::power2::lemma_pow2_strictly_increases(64, 70);
        lemma_varint_len(payload.len(), 10);
        lemma_decode_varint(Seq::<u8>::empty(), payload.len(), payload, 0, 1, 9);
    } else {
        vstd::arithmetic::power2::lemma_pow2_strictly_increases(32, 35);
        lemma_varint_len(payload.len(), 5);
        lemma_decode_varint(Seq::<u8>::empty(), payload.len(), payload, 0, 1, 4);
    }
    vstd::arithmetic::div_mod::lemma_small_mod(payload.len(), (usize::MAX as nat + 1) as nat);
}

/// What a frame carries is what the router hands on: the payload of a frame built for a stream
/// id below 2^29 is the payload it was built with.
#[verifier::spinoff_prover]
pub proof fn lemma_built_frame_payload(stream_id: u32, flag: MuxedStreamFlag, payload: Seq<u8>)
    requires
        stream_id < 0x2000_0000,
        payload.len() <= usize::MAX,
    ensures
        frame_payload(frame(stream_id, flag, payload)) == Some(payload),
{
    lemma_frame_roundtrip(stream_id, flag, payload);
    lemma_length_prefix(payload);
    let buf = frame(stream_id, flag, payload);
    let hbytes = varint(frame_header(stream_id, flag) as nat);
    let lbytes = varint(payload.len());
    let k = hbytes.len();
    let l = lbytes.len();
    assert(buf == hbytes + lbytes + payload);
    assert(buf.skip(k as int) =~= lbytes + payload);
    assert(buf.subrange((k + l) as int, (k + l + payload.len()) as int) =~= payload);
    assert(k <= 5) by {
        vstd::arithmetic::power2::lemma2_to64();
        vstd::arithmetic::power2::lemma_pow2_strictly_increases(32, 35);
        lemma_varint_len(frame_header(stream_id, flag) as nat, 5);
    }
}

/// The bytes "internal-payload": put before a frame that the connection is to act on itself
/// rather than write to the peer.
pub const INTERNAL: [u8; 16] = [
    105,
    110,
    116,
    101,
    114,
    110,
    97,
    108,
    45,
    112,
    97,
    121,
    108,
    111,
    97,
    100,
];

/// The bytes of `INTERNAL`.
pub open spec fn internal_marker() -> Seq<u8> {
    seq![105u8, 110, 116, 101, 114, 110, 97, 108, 45, 112, 97, 121, 108, 111, 97, 100]
}

/// Puts the internal marker before a frame.
pub fn mark_internal(frame: Vec<u8>) -> (r: Vec<u8>)
    ensures
        r@ == internal_marker() + frame@,
{
    let mut r: Vec<u8> = Vec::new();
    let mut i: usize = 0;
    while i < 16
        invariant
            i <= 16,
            r@ == internal_marker().take(i as int),
        decreases 16 - i,
    {
        r.push(INTERNAL[i]);
        assert(internal_marker().take(i + 1) =~= internal_marker().take(i as int).push(
            internal_marker()[i as int],
        ));
        i += 1;
    }
    let mut frame = frame;
    r.append(&mut frame);
    assert(internal_marker().take(16) =~= internal_marker());
    r
}

/// What follows the internal marker, when the data starts with it; `None` for data to be
/// written to the peer as it is.
pub fn strip_internal(data: &Vec<u8>) -> (r: Option<Vec<u8>>)
    ensures
        r is Some <==> data@.len() >= 16 && data@.take(16) == internal_marker(),
        r matches Some(rest) ==> rest@ == data@.skip(16),
{
    if data.len() < 16 {
        return None;
    }
    let mut i: usize = 0;
    while i < 16
        invariant
            i <= 16,
            data@.len() >= 16,
            forall|j: int| 0 <= j < i ==> data@[j] == internal_marker()[j],
        decreases 16 - i,
    {
        if data[i] != INTERNAL[i] {
            assert(data@.take(16)[i as int] != internal_marker()[i as int]);
            return None;
        }
        i += 1;
    }
    assert(data@.take(16) =~= internal_marker());
    let mut rest: Vec<u8> = Vec::new();
    let mut k: usize = 16;
    while k < data.len()
        invariant
            16 <= k <= data@.len(),
            rest@ == data@.subrange(16, k as int),
        decreases data@.len() - k,
    {
        rest.push(data[k]);
        assert(data@.subrange(16, k + 1) =~= data@.subrange(16, k as int).push(data@[k as int]));
        k += 1;
    }
    Some(rest)
}

/// A frame marked internal comes back unmarked.
pub proof fn lemma_internal_roundtrip(frame: Seq<u8>)
    ensures
        (internal_marker() + frame).take(16) == internal_marker(),
        (internal_marker() + frame).skip(16) == frame,
{
    assert((internal_marker() + frame).take(16) =~= internal_marker());
    assert((internal_marker() + frame).skip(16) =~= frame);
}

/// The request a stream sends its connection to close it: an internal close frame.
pub fn close_stream_frame(stream_id: u32) -> (r: Vec<u8>)
    ensures
        r@ == internal_marker() + frame(stream_id, MuxedStreamFlag::CloseStream, Seq::empty()),
{
    let empty: Vec<u8> = Vec::new();
    mark_internal(build_frame(stream_id, MuxedStreamFlag::CloseStream, empty.as_slice()))
}

/// The request to open a new stream for the first protocol: an internal new-stream frame on
/// stream zero, carrying the protocol name.
pub fn new_stream_request(protocols: &Vec<String>) -> (r: Vec<u8>)
    requires
        protocols@.len() > 0,
    ensures
        r@ == internal_marker() + frame(
            0,
            MuxedStreamFlag::NewStream,
            vstd::utf8::encode_utf8(protocols@[0]@),
        ),
{
    mark_internal(build_frame(0, MuxedStreamFlag::NewStream, protocols[0].as_str().as_bytes()))
}

/// The notice that tells a connection its peer is gone: an internal disconnected frame on
/// stream zero carrying `reason`.
pub fn disconnect_notice(reason: &[u8]) -> (r: Vec<u8>)
    ensures
        r@ == internal_marker() + frame(0, MuxedStreamFlag::Disconnected, reason@),
{
    mark_internal(build_frame(0, MuxedStreamFlag::Disconnected, reason))
}

/// What the connection does with a frame that reached it.
#[derive(Debug)]
pub enum MplexAction {
    /// The peer opened a stream: serve it, as the responder of the protocol handshake.
    OpenInbound { stream_id: u32 },
    /// A stream is to be opened here: announce it to the peer, then start the handshake
    /// for `protocol` as the initiator.
    OpenOutbound { stream_id: u32, protocol: Vec<u8>, announce: Vec<u8> },
    /// Hand the payload to the stream (messages and handshake frames).
    Deliver { stream_id: u32, payload: Vec<u8> },
    /// Forget the stream.
    Close { stream_id: u32 },
    /// The peer is gone: close the connection.
    Disconnect,
    /// A liveliness probe or its answer.
    Liveliness { payload: Vec<u8> },
}

/// The payload of a frame: the `len` bytes after the two varints, when there are that many.
pub open spec fn frame_payload(buf: Seq<u8>) -> Option<Seq<u8>> {
    match parsed_header(buf) {
        Err(_) => None,
        Ok((_, _, k, len)) => match decoded_usize(buf.skip(k as int)) {
            None => None,
            Some((_, l)) => if k + l + len <= buf.len() {
                Some(buf.subrange(k + l, k + l + len))
            } else {
                None
            },
        },
    }
}

/// What a frame makes the connection do, given the id of the last stream opened.
pub open spec fn routed(
    counter: u32,
    stream_id: u32,
    flag: MuxedStreamFlag,
    payload: Seq<u8>,
    next: u32,
    action: MplexAction,
) -> bool {
    match flag {
        MuxedStreamFlag::NewStream => if stream_id == 0 {
            &&& next == counter + 1
            &&& action matches MplexAction::OpenOutbound { stream_id: id, protocol, announce }
            &&& id == next
            &&& protocol@ == payload
            &&& announce@ == frame(next, MuxedStreamFlag::NewStream, Seq::empty())
        } else {
            &&& next == stream_id
            &&& action == MplexAction::OpenInbound { stream_id }
        },
        MuxedStreamFlag::Message | MuxedStreamFlag::HandshakeReq | MuxedStreamFlag::HandshakeRes => {
            &&& next == counter
            &&& action matches MplexAction::Deliver { stream_id: id, payload: p }
            &&& id == stream_id
            &&& p@ == payload
        },
        MuxedStreamFlag::CloseStream => next == counter && action == MplexAction::Close {
            stream_id,
        },
        MuxedStreamFlag::Disconnected => next == counter && action == MplexAction::Disconnect,
        MuxedStreamFlag::Liveliness => {
            &&& next == counter
            &&& action matches MplexAction::Liveliness { payload: p }
            &&& p@ == payload
        },
    }
}

/// A frame the router can take: when its header reads, its payload is all there, and a request
/// to open a stream here does not overflow the stream counter.
pub open spec fn routable(counter: u32, buf: Seq<u8>) -> bool {
    parsed_header(buf) matches Ok((stream_id, flag, _, _)) ==> {
        &&& frame_payload(buf) is Some
        &&& (flag == MuxedStreamFlag::NewStream && stream_id == 0) ==> counter < u32::MAX
    }
}

/// Whether the router can take a frame: a frame whose payload is cut short, or a request to
/// open a stream past the last stream id, is one it cannot.
pub fn is_routable(counter: u32, frame: &Vec<u8>) -> (r: bool)
    ensures
        r == routable(counter, frame@),
{
    let (stream_id, flag, header_len, payload_len) = match process_header(frame) {
        Ok(h) => h,
        Err(_) => {
            return true;
        },
    };
    proof {
        lemma_decode_varint_within(frame@, 0, 0, 1, 4);
    }
    let remaining = slice_subrange(frame.as_slice(), header_len, frame.len());
    assert(remaining@ =~= frame@.skip(header_len as int));
    let payload_after_len = match decode_usize(remaining) {
        Ok((_, rest)) => rest,
        Err(_) => {
            return false;
        },
    };
    proof {
        let max_index: nat = if usize::BITS == 64 {
            9
        } else {
            4
        };
        lemma_decode_varint_within(remaining@, 0, 0, 1, max_index);
    }
    if payload_after_len.len() < payload_len {
        return false;
    }
    match flag {
        MuxedStreamFlag::NewStream => stream_id != 0 || counter < u32::MAX,
        _ => true,
    }
}

/// Decides what the connection does with a frame, and the new value of its stream counter
/// (the id of the last stream opened). A frame whose header does not read is an error.
pub fn route_frame(counter: u32, frame: &Vec<u8>) -> (r: Result<(u32, MplexAction), MuxError>)
    requires
        routable(counter, frame@),
    ensures
        match parsed_header(frame@) {
            Err(e) => r == Err::<(u32, MplexAction), MuxError>(e),
            Ok((stream_id, flag, _, _)) => r matches Ok((next, action)) && routed(
                counter,
                stream_id,
                flag,
                frame_payload(frame@).unwrap(),
                next,
                action,
            ),
        },
{
    let (stream_id, flag, header_len, payload_len) = match process_header(frame) {
        Ok(h) => h,
        Err(e) => {
            return Err(e);
        },
    };
    proof {
        lemma_decode_varint_within(frame@, 0, 0, 1, 4);
    }
    let remaining = slice_subrange(frame.as_slice(), header_len, frame.len());
    assert(remaining@ =~= frame@.skip(header_len as int));
    let payload_after_len = match decode_usize(remaining) {
        Ok((_, rest)) => rest,
        Err(_) => {
            return Err(MuxError::InvalidLength);
        },
    };
    proof {
        let max_index: nat = if usize::BITS == 64 {
            9
        } else {
            4
        };
        lemma_decode_varint_within(remaining@, 0, 0, 1, max_index);
    }
    let payload_extracted = slice_to_vec(slice_subrange(payload_after_len, 0, payload_len));
    proof {
        let k = header_len as int;
        let l = (remaining@.len() - payload_after_len@.len()) as int;
        assert(payload_extracted@ =~= frame@.subrange(k + l, k + l + payload_len));
    }
    match flag {
        MuxedStreamFlag::NewStream => {
            if stream_id == 0 {
                let id = counter + 1;
                let empty: Vec<u8> = Vec::new();
                let announce = build_frame(id, MuxedStreamFlag::NewStream, empty.as_slice());
                assert(empty@ =~= Seq::<u8>::empty());
                Ok((id, MplexAction::OpenOutbound { stream_id: id, protocol: payload_extracted, announce }))
            } else {
                Ok((stream_id, MplexAction::OpenInbound { stream_id }))
            }
        },
        MuxedStreamFlag::Message | MuxedStreamFlag::HandshakeReq | MuxedStreamFlag::HandshakeRes => {
            Ok((counter, MplexAction::Deliver { stream_id, payload: payload_extracted }))
        },
        MuxedStreamFlag::CloseStream => Ok((counter, MplexAction::Close { stream_id })),
        MuxedStreamFlag::Disconnected => Ok((counter, MplexAction::Disconnect)),
        MuxedStreamFlag::Liveliness => Ok((counter, MplexAction::Liveliness { payload: payload_extracted })),
    }
}

/// Whether two byte strings are equal.
fn bytes_equal(a: &[u8], b: &[u8]) -> (r: bool)
    ensures
        r == (a@ == b@),
{
    if a.len() != b.len() {
        return false;
    }
    let mut i: usize = 0;
    while i < a.len()
        invariant
            i <= a@.len(),
            a@.len() == b@.len(),
            forall|j: int| 0 <= j < i ==> a@[j] == b@[j],
        decreases a@.len() - i,
    {
        if a[i] != b[i] {
            return false;
        }
        i += 1;
    }
    assert(a@ =~= b@);
    true
}

/// The responder's side of the protocol handshake on a new stream: the protocol the initiator
/// asked for, when it is one of the registered ones; `None` refuses the stream.
pub fn accept_protocol(request: &Vec<u8>, registered: &Vec<String>) -> (r: Option<String>)
    requires
        valid_utf8(request@),
    ensures
        r is Some <==> exists|i: int| 0 <= i < registered@.len() && #[trigger] registered@[i]@
            == decode_utf8(request@),
        r matches Some(p) ==> p@ == decode_utf8(request@),
{
    let protocol = match string_from_utf8(slice_to_vec(request.as_slice())) {
        Some(p) => p,
        None => {
            return None;
        },
    };
    let mut i: usize = 0;
    while i < registered.len()
        invariant
            i <= registered@.len(),
            protocol@ == decode_utf8(request@),
            forall|j: int| 0 <= j < i ==> #[trigger] registered@[j]@ != protocol@,
        decreases registered@.len() - i,
    {
        if registered[i] == protocol {
            return Some(protocol);
        }
        i += 1;
    }
    None
}

/// The initiator's side of the protocol handshake: the protocol it proposed, when the responder
/// echoed it back; `None` when the answer differs.
pub fn confirm_protocol(proposed: Vec<u8>, response: &Vec<u8>) -> (r: Option<String>)
    requires
        proposed@ == response@ ==> valid_utf8(proposed@),
    ensures
        r is Some <==> proposed@ == response@,
        r matches Some(p) ==> p@ == decode_utf8(proposed@),
{
    if !bytes_equal(proposed.as_slice(), response.as_slice()) {
        return None;
    }
    string_from_utf8(proposed)
}

} // verus!
