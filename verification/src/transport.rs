//! The muxer transport: the muxers this node offers, and the negotiation of a name before a
//! connection is multiplexed. A name goes on the wire as bincode writes a string: its length
//! as eight little-endian bytes, then its UTF-8 bytes.

use vstd::bytes::{lemma_auto_spec_u64_to_from_le_bytes, spec_u64_from_le_bytes, spec_u64_to_le_bytes};
use vstd::prelude::*;
use vstd::utf8::{decode_utf8, encode_utf8, encode_utf8_decode_utf8, encode_utf8_valid_utf8, valid_utf8};

verus! {

/// The name of the first negotiation on a new connection.
pub const MULTISELECT_CONNECT: &'static str = "mutilselect/0.0.1";

/// The name of the mplex muxer in negotiation.
pub const MPLEX: &'static str = "rnet/mplex/0.0.1";

/// The muxers a connection may be multiplexed with.
pub struct MuxerTransport {
    pub muxer_opts: Vec<String>,
}

/// Why no muxer could be selected.
#[derive(Debug, Clone, Copy, PartialEq, Eq, Structural)]
pub enum TransportError {
    NegotiationFailed,
}

impl MuxerTransport {
    /// Offers mplex only.
    pub fn new() -> (t: Self)
        ensures
            t.muxer_opts@.len() == 1,
            t.muxer_opts@[0]@ == "mplex"@,
    {
        let muxer_opts = vec!["mplex".to_owned()];
        MuxerTransport { muxer_opts }
    }

    /// Selects the muxer; the one offered is always taken.
    pub fn select_transport(&self) -> (r: Result<(), TransportError>)
        ensures
            r is Ok,
    {
        Ok(())
    }
}

impl Default for MuxerTransport {
    fn default() -> (t: Self)
        ensures
            t.muxer_opts@.len() == 1,
            t.muxer_opts@[0]@ == "mplex"@,
    {
        Self::new()
    }
}

/// Upgrades a connection to a multiplexed one through the muxer transport.
pub struct MuxerUpgrader {
    pub transport: MuxerTransport,
}

impl MuxerUpgrader {
    pub fn new() -> (u: Self)
        ensures
            u.transport.muxer_opts@.len() == 1,
            u.transport.muxer_opts@[0]@ == "mplex"@,
    {
        MuxerUpgrader { transport: MuxerTransport::new() }
    }
}

impl Default for MuxerUpgrader {
    fn default() -> (u: Self)
        ensures
            u.transport.muxer_opts@.len() == 1,
            u.transport.muxer_opts@[0]@ == "mplex"@,
    {
        Self::new()
    }
}


/// The bytes `bincode::serialize` writes for a string: its UTF-8 length as eight
/// little-endian bytes, then the UTF-8 bytes.
pub open spec fn bincode_str(s: Seq<char>) -> Seq<u8> {
    spec_u64_to_le_bytes(encode_utf8(s).len() as u64) + encode_utf8(s)
}

/// The string `bincode::deserialize::<String>` reads from the start of some bytes (bytes after
/// it are ignored); `None` when fewer than eight bytes, fewer bytes than the length says, or
/// bytes that are not UTF-8.
pub open spec fn bincode_string(b: Seq<u8>) -> Option<Seq<char>> {
    if b.len() < 8 {
        None
    } else {
        let n = spec_u64_from_le_bytes(b.subrange(0, 8)) as int;
        if n <= b.len() - 8 && valid_utf8(b.subrange(8, 8 + n)) {
            Some(decode_utf8(b.subrange(8, 8 + n)))
        } else {
            None
        }
    }
}

/// `bincode::deserialize::<String>`: the string at the start of the bytes.
#[verifier::external_body]
pub fn decode_bincode_string(b: &[u8]) -> (r: Option<String>)
    ensures
        match bincode_string(b@) {
            Some(s) => r matches Some(x) && x@ == s,
            None => r is None,
        },
{
    bincode::deserialize::<String>(b).ok()
}

/// `bincode::serialize` of a string (writing to a vector with no size limit cannot fail).
#[verifier::external_body]
pub fn encode_bincode_str(s: &str) -> (r: Vec<u8>)
    requires
        encode_utf8(s@).len() <= u64::MAX,
    ensures
        r@ == bincode_str(s@),
{
    bincode::serialize(s).unwrap_or_default()
}

/// Whether a negotiation message names `proto`: the string it reads as is `proto`.
pub fn selection_accepted(msg: &[u8], proto: &str) -> (r: bool)
    ensures
        r == (bincode_string(msg@) == Some(proto@)),
{
    match decode_bincode_string(msg) {
        Some(x) => x == proto.to_owned(),
        None => false,
    }
}

/// A name written for negotiation reads back as the name, so an echoed proposal is accepted.
pub proof fn lemma_bincode_str_round_trip(s: Seq<char>)
    requires
        encode_utf8(s).len() <= u64::MAX,
    ensures
        bincode_string(bincode_str(s)) == Some(s),
{
    let e = encode_utf8(s);
    let b = bincode_str(s);
    lemma_auto_spec_u64_to_from_le_bytes();
    assert(b.subrange(0, 8) =~= spec_u64_to_le_bytes(e.len() as u64));
    assert(b.subrange(8, 8 + e.len() as int) =~= e);
    encode_utf8_valid_utf8(s);
    encode_utf8_decode_utf8(s);
}

} // verus!
