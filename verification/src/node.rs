//! The decisions at the edge of distribution: who this runtime is as a node and
//! whether a cookie is strong enough to publish it under, the cap on inbound
//! handshakes in flight, and the rate limit on saying that connections are being
//! shed. The sockets, threads and clocks around them belong to the caller.

use vstd::prelude::*;
use crate::value::Symbol;
use crate::symbols::{decimal, push_decimal};

verus! {

/// The shortest cookie a node accepts, in bytes. The cookie is the whole trust
/// boundary (a holder can evaluate code on the node), so a guessable one is refused.
pub const MIN_COOKIE_LEN: usize = 16;

/// The most inbound handshakes in flight at once.
pub const MAX_IN_FLIGHT_HANDSHAKES: usize = 128;

/// The "never warned" mark for the shed-warning stamp (0 is a real timestamp).
pub const SHED_WARN_NEVER: u64 = 0xFFFF_FFFF_FFFF_FFFFu64;

/// The least gap between two shed warnings, in milliseconds.
pub const SHED_WARN_INTERVAL_MS: u64 = 60_000;

/// This runtime's identity as a distribution node.
pub struct NodeIdentity {
    pub name: Symbol,
    pub cookie: String,
    pub started: bool,
}

/// Why a node could not be started.
#[derive(Clone, Copy, Debug, PartialEq, Eq, Structural)]
pub enum NodeErrorKind {
    /// The request itself is unacceptable.
    InvalidInput,
    /// The runtime already is a node.
    AlreadyExists,
}

/// A refused node start.
#[derive(Clone, Copy, Debug, PartialEq, Eq, Structural)]
pub enum NodeError {
    /// The cookie has fewer than [`MIN_COOKIE_LEN`] bytes; carries its length.
    CookieTooShort(usize),
    /// `node-start` was called a second time.
    AlreadyNode,
}

/// The length in bytes of a cookie, as UTF-8 (what `str::len` reports).
pub open spec fn cookie_len(cookie: Seq<char>) -> usize {
    vstd::utf8::encode_utf8(cookie).len() as usize
}

/// The text of a too-short-cookie refusal for a cookie of `len` bytes.
pub open spec fn short_cookie_text(len: usize) -> Seq<char> {
    "node cookie too short: "@ + decimal(len as u64)
        + " bytes (minimum 16) — a cookie-holder has full remote eval on this node; use the default (node/cookie) or e.g. (rand/token 32)"@
}

impl NodeError {
    /// The kind of the refusal.
    pub fn kind(&self) -> (r: NodeErrorKind)
        ensures
            r == (match *self {
                NodeError::CookieTooShort(_) => NodeErrorKind::InvalidInput,
                NodeError::AlreadyNode => NodeErrorKind::AlreadyExists,
            }),
    {
        match self {
            NodeError::CookieTooShort(_) => NodeErrorKind::InvalidInput,
            NodeError::AlreadyNode => NodeErrorKind::AlreadyExists,
        }
    }

    /// The refusal as a sentence for the user.
    pub fn message(&self) -> (r: String)
        ensures
            match *self {
                NodeError::CookieTooShort(n) => r@ == short_cookie_text(n),
                NodeError::AlreadyNode => r@
                    == "this runtime is already a node (node-start called twice)"@,
            },
    {
        match self {
            NodeError::CookieTooShort(n) => {
                let mut s = String::new();
                s.append("node cookie too short: ");
                push_decimal(&mut s, *n as u64);
                s.append(
                    " bytes (minimum 16) — a cookie-holder has full remote eval on this node; use the default (node/cookie) or e.g. (rand/token 32)",
                );
                proof {
                    assert(s@ =~= short_cookie_text(*n));
                }
                s
            },
            NodeError::AlreadyNode => {
                "this runtime is already a node (node-start called twice)".to_string()
            },
        }
    }
}

impl NodeIdentity {
    /// Not a node.
    pub fn new(name: Symbol) -> (r: NodeIdentity)
        ensures
            !r.started,
            r.name == name,
            r.cookie@ == Seq::<char>::empty(),
    {
        NodeIdentity { name, cookie: String::new(), started: false }
    }
}

/// Publishes this runtime's node identity, the step `node-start` takes before it
/// listens: refuses a cookie of fewer than [`MIN_COOKIE_LEN`] bytes, then refuses
/// a second start; otherwise records the name and cookie and marks the runtime a
/// node. A refusal changes nothing. The caller starts the listener after `Ok`,
/// and calls [`clear_identity`] if that fails, so a corrected start can be retried.
pub fn node_listen(node: &mut NodeIdentity, name: Symbol, cookie: String) -> (r: Result<
    (),
    NodeError,
>)
    ensures
        cookie_len(cookie@) < MIN_COOKIE_LEN ==> r == Err::<(), NodeError>(
            NodeError::CookieTooShort(cookie_len(cookie@)),
        ),
        cookie_len(cookie@) >= MIN_COOKIE_LEN && old(node).started ==> r == Err::<
            (),
            NodeError,
        >(NodeError::AlreadyNode),
        r is Err ==> *final(node) == *old(node),
        r is Ok ==> final(node).started && final(node).name == name && final(node).cookie
            == cookie,
        r is Ok <==> cookie_len(cookie@) >= MIN_COOKIE_LEN && !old(node).started,
{
    let text: &str = cookie.as_str();
    let len = text.len();
    assert(text@ == cookie@);
    if len < MIN_COOKIE_LEN {
        return Err(NodeError::CookieTooShort(len));
    }
    if node.started {
        return Err(NodeError::AlreadyNode);
    }
    node.name = name;
    node.cookie = cookie;
    node.started = true;
    Ok(())
}

/// Rolls a published identity back after the listener failed to start.
pub fn clear_identity(node: &mut NodeIdentity)
    ensures
        !final(node).started,
        final(node).cookie@ == Seq::<char>::empty(),
        final(node).name == old(node).name,
{
    node.started = false;
    node.cookie = String::new();
}

/// The pre-authentication connection gate: a count of handshakes in flight,
/// bounded by [`MAX_IN_FLIGHT_HANDSHAKES`].
pub struct HandshakeGate {
    pub in_flight: usize,
}

impl HandshakeGate {
    /// No handshake in flight.
    pub fn new() -> (r: HandshakeGate)
        ensures
            r.in_flight == 0,
    {
        HandshakeGate { in_flight: 0 }
    }

    /// Takes a slot, or refuses at the cap (the caller sheds the connection); a
    /// refusal leaves the count as it was.
    pub fn try_acquire(&mut self) -> (r: bool)
        ensures
            r == (old(self).in_flight < MAX_IN_FLIGHT_HANDSHAKES),
            r ==> final(self).in_flight == old(self).in_flight + 1,
            !r ==> final(self).in_flight == old(self).in_flight,
    {
        if self.in_flight >= MAX_IN_FLIGHT_HANDSHAKES {
            false
        } else {
            self.in_flight = self.in_flight + 1;
            true
        }
    }

    /// Gives a held slot back.
    pub fn release(&mut self)
        requires
            old(self).in_flight > 0,
        ensures
            final(self).in_flight == old(self).in_flight - 1,
    {
        self.in_flight = self.in_flight - 1;
    }

    /// How many handshakes are in flight.
    pub fn in_flight(&self) -> (r: usize)
        ensures
            r == self.in_flight,
    {
        self.in_flight
    }
}

/// The shed counter and the stamp of the last warning about shedding.
pub struct ShedWarn {
    /// Connections shed so far.
    pub shed: u64,
    /// When the last warning went out ([`SHED_WARN_NEVER`]: never).
    pub last_warn_ms: u64,
}

impl ShedWarn {
    /// Nothing shed, never warned.
    pub fn new() -> (r: ShedWarn)
        ensures
            r.shed == 0,
            r.last_warn_ms == SHED_WARN_NEVER,
    {
        ShedWarn { shed: 0, last_warn_ms: SHED_WARN_NEVER }
    }
}

/// Counts one shed connection at time `now` (milliseconds) and says whether to
/// warn about it: the first shed always warns, afterwards at most once per
/// [`SHED_WARN_INTERVAL_MS`]. Every shed is counted, warned or not.
pub fn note_shed_handshake(w: &mut ShedWarn, now: u64) -> (warn: bool)
    ensures
        final(w).shed == old(w).shed.wrapping_add(1),
        warn == (old(w).last_warn_ms == SHED_WARN_NEVER || now.saturating_sub(old(w).last_warn_ms)
            >= SHED_WARN_INTERVAL_MS),
        warn ==> final(w).last_warn_ms == now,
        !warn ==> final(w).last_warn_ms == old(w).last_warn_ms,
{
    w.shed = w.shed.wrapping_add(1);
    let last = w.last_warn_ms;
    if last != SHED_WARN_NEVER && now.saturating_sub(last) < SHED_WARN_INTERVAL_MS {
        return false;
    }
    w.last_warn_ms = now;
    true
}


/// The handshake gate never admits more than its cap: from a count at or below
/// the cap, an acquire leaves it at or below the cap.
pub proof fn law_gate_stays_within_cap(in_flight: usize)
    requires
        in_flight <= MAX_IN_FLIGHT_HANDSHAKES,
    ensures
        (if in_flight < MAX_IN_FLIGHT_HANDSHAKES {
            in_flight + 1
        } else {
            in_flight as int
        }) <= MAX_IN_FLIGHT_HANDSHAKES,
{
}

/// Shed warnings are rate limited: once one has gone out at `last`, the next one
/// goes out only at least the interval later.
pub proof fn law_shed_warnings_are_spaced(last: u64, now: u64)
    requires
        last != SHED_WARN_NEVER,
        now.saturating_sub(last) >= SHED_WARN_INTERVAL_MS,
    ensures
        now >= last + SHED_WARN_INTERVAL_MS,
{
}
} // verus!
