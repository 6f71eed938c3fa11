//! The protocols a node can run, and when initiating one starts it.

use vstd::prelude::*;

verus! {

/// The name the floodsub handler is registered under.
pub const FLOODSUB: &'static str = "rnet/floodsub/0.0.1";

/// The name the ping handler is registered under.
pub const PING: &'static str = "rnet/ping/0.0.1";

/// A protocol to run on a node.
#[derive(Debug, Clone, Copy, PartialEq, Eq, Structural)]
pub enum InnerProtocolOpt {
    Floodsub,
    Ping { enable_rlnc: bool },
}

impl InnerProtocolOpt {
    /// The name the protocol's stream handler is registered under.
    pub fn protocol_name(&self) -> (r: &'static str)
        ensures
            r@ == (match *self {
                InnerProtocolOpt::Floodsub => FLOODSUB@,
                InnerProtocolOpt::Ping { .. } => PING@,
            }),
    {
        match self {
            InnerProtocolOpt::Floodsub => FLOODSUB,
            InnerProtocolOpt::Ping { .. } => PING,
        }
    }

    /// Whether initiating the protocol starts it: only when that protocol is not running yet
    /// (a second start is refused with a warning).
    pub fn starts(&self, floodsub_running: bool, ping_running: bool) -> (r: bool)
        ensures
            r == would_start(*self, floodsub_running, ping_running),
            *self is Floodsub ==> r == !floodsub_running,
            *self is Ping ==> r == !ping_running,
    {
        match self {
            InnerProtocolOpt::Floodsub => !floodsub_running,
            InnerProtocolOpt::Ping { .. } => !ping_running,
        }
    }
}


/// Whether initiating `opt` starts it, given which protocols run.
pub open spec fn would_start(opt: InnerProtocolOpt, floodsub_running: bool, ping_running: bool) -> bool {
    match opt {
        InnerProtocolOpt::Floodsub => !floodsub_running,
        InnerProtocolOpt::Ping { .. } => !ping_running,
    }
}

/// Which protocols run on a node: each at most once.
#[derive(Debug, Clone, Copy, PartialEq, Eq, Structural)]
pub struct ProtocolSlots {
    pub floodsub: bool,
    pub ping: bool,
}

/// The slots after initiating `opt`: its slot is taken, the other is as it was.
pub open spec fn initiated(s: ProtocolSlots, opt: InnerProtocolOpt) -> ProtocolSlots {
    match opt {
        InnerProtocolOpt::Floodsub => ProtocolSlots { floodsub: true, ping: s.ping },
        InnerProtocolOpt::Ping { .. } => ProtocolSlots { floodsub: s.floodsub, ping: true },
    }
}

impl ProtocolSlots {
    /// No protocol runs.
    pub fn new() -> (r: Self)
        ensures
            !r.floodsub && !r.ping,
    {
        ProtocolSlots { floodsub: false, ping: false }
    }

    /// Initiates a protocol: it starts (and the result is `true`) only when it does not run
    /// yet; either way it runs afterwards.
    pub fn initiate(&mut self, opt: InnerProtocolOpt) -> (started: bool)
        ensures
            started == would_start(opt, old(self).floodsub, old(self).ping),
            *final(self) == initiated(*old(self), opt),
    {
        let started = opt.starts(self.floodsub, self.ping);
        match opt {
            InnerProtocolOpt::Floodsub => {
                self.floodsub = true;
            },
            InnerProtocolOpt::Ping { .. } => {
                self.ping = true;
            },
        }
        started
    }
}

/// Whether initiating a protocol starts it depends on that protocol's own slot alone: it
/// starts exactly when it does not run, whatever the other protocol does.
pub proof fn lemma_start_depends_on_own_slot(floodsub_running: bool, ping_running: bool, enable_rlnc: bool)
    ensures
        would_start(InnerProtocolOpt::Ping { enable_rlnc }, floodsub_running, ping_running) == !ping_running,
        would_start(InnerProtocolOpt::Floodsub, floodsub_running, ping_running) == !floodsub_running,
        would_start(InnerProtocolOpt::Ping { enable_rlnc }, floodsub_running, ping_running)
            == would_start(InnerProtocolOpt::Ping { enable_rlnc }, !floodsub_running, ping_running),
        would_start(InnerProtocolOpt::Floodsub, floodsub_running, ping_running)
            == would_start(InnerProtocolOpt::Floodsub, floodsub_running, !ping_running),
{
}

/// On a node where nothing runs, each protocol starts the first time it is initiated, in
/// either order, and neither starts a second time.
pub proof fn lemma_each_protocol_starts_once(first: InnerProtocolOpt, second: InnerProtocolOpt)
    requires
        (first is Floodsub) != (second is Floodsub),
    ensures
        would_start(first, false, false),
        would_start(second, initiated(ProtocolSlots { floodsub: false, ping: false }, first).floodsub,
            initiated(ProtocolSlots { floodsub: false, ping: false }, first).ping),
        !would_start(first, initiated(initiated(ProtocolSlots { floodsub: false, ping: false }, first), second).floodsub,
            initiated(initiated(ProtocolSlots { floodsub: false, ping: false }, first), second).ping),
        !would_start(second, initiated(initiated(ProtocolSlots { floodsub: false, ping: false }, first), second).floodsub,
            initiated(initiated(ProtocolSlots { floodsub: false, ping: false }, first), second).ping),
{
}

/// Initiating a protocol twice is the same as initiating it once: the second time it does not
/// start again and nothing changes.
pub proof fn lemma_initiate_twice(s: ProtocolSlots, opt: InnerProtocolOpt)
    ensures
        initiated(initiated(s, opt), opt) == initiated(s, opt),
        !would_start(opt, initiated(s, opt).floodsub, initiated(s, opt).ping),
{
}

} // verus!
