//! A peer-to-peer networking stack: frame codecs for the stream multiplexer,
//! the floodsub control channel, and random linear network coding over GF(2^8).

pub mod engine;
pub mod events;
pub mod gf256;
pub mod keys;
pub mod linalg;
pub mod liveliness;
pub mod mplex;
pub mod multiaddr;
pub mod ping;
pub mod protocol;
pub mod rlnc;
pub mod subscription;
pub mod transport;
pub mod varint;
