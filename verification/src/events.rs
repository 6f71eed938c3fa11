//! The events that protocols report to the application.

use vstd::prelude::*;
use vstd::utf8::{decode_utf8, valid_utf8};

verus! {

/// A floodsub event: a message received on a topic, or a change of subscription.
#[derive(Debug, Clone)]
pub struct FloodsubEvent {
    pub msg_type: FloodsubMsgType,
    pub source: Option<String>,
    pub msg: Option<Vec<u8>>,
    pub topic: String,
}

#[derive(Debug, Clone, Copy, PartialEq, Eq, Structural)]
pub enum FloodsubMsgType {
    Publish,
    Subscribe,
    Unsubscribe,
}

/// The round-trip times of a run of pings with a peer, in microseconds.
#[derive(Debug)]
pub struct PingEvent {
    pub remote: String,
    pub rtts: Vec<u128>,
    pub count: u128,
}

#[derive(Debug)]
pub enum GlobalEvent {
    Floodsub(FloodsubEvent),
    Ping(PingEvent),
}

/// The characters `String::from_utf8_lossy` makes of some bytes.
pub uninterp spec fn utf8_lossy(bytes: Seq<u8>) -> Seq<char>;

/// `String::from_utf8_lossy(..).to_string()`: the characters the bytes encode, each invalid
/// sequence replaced by U+FFFD. Stated: the result is `utf8_lossy` of the bytes, and on valid
/// UTF-8 it is the decoded text.
#[verifier::external_body]
fn string_from_utf8_lossy(bytes: &[u8]) -> (r: String)
    ensures
        r@ == utf8_lossy(bytes@),
        valid_utf8(bytes@) ==> r@ == decode_utf8(bytes@),
{
    String::from_utf8_lossy(bytes).to_string()
}

/// A floodsub event for a message on `topic` with this payload, from the peer with this id.
pub open spec fn is_publish_event(e: GlobalEvent, topic: String, payload: Vec<u8>, source: Seq<char>) -> bool {
    match e {
        GlobalEvent::Floodsub(f) => {
            &&& f.msg_type == FloodsubMsgType::Publish
            &&& f.topic == topic
            &&& f.msg == Some(payload)
            &&& match f.source {
                Some(s) => s@ == source,
                None => false,
            }
        },
        GlobalEvent::Ping(_) => false,
    }
}

/// The event for a message received on a topic from a peer (whose id arrives as bytes).
pub fn received_message_event(topic: String, payload: Vec<u8>, source_peer: &[u8]) -> (e: GlobalEvent)
    ensures
        is_publish_event(e, topic, payload, utf8_lossy(source_peer@)),
        valid_utf8(source_peer@) ==> is_publish_event(e, topic, payload, decode_utf8(source_peer@)),
{
    let source_peer_id = string_from_utf8_lossy(source_peer);
    GlobalEvent::Floodsub(
        FloodsubEvent {
            msg_type: FloodsubMsgType::Publish,
            source: Some(source_peer_id),
            msg: Some(payload),
            topic,
        },
    )
}

/// The event that reports a run of pings with a peer: its round-trip times and their number.
pub fn ping_summary(remote: String, rtts: Vec<u128>) -> (e: GlobalEvent)
    ensures
        match e {
            GlobalEvent::Ping(p) => p.remote == remote && p.rtts == rtts && p.count == rtts@.len(),
            GlobalEvent::Floodsub(_) => false,
        },
{
    let count = rtts.len() as u128;
    GlobalEvent::Ping(PingEvent { remote, rtts, count })
}

} // verus!
