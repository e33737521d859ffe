use brood_core::node::{
    clear_identity, node_listen, note_shed_handshake, HandshakeGate, NodeError, NodeErrorKind,
    NodeIdentity, ShedWarn, MAX_IN_FLIGHT_HANDSHAKES, SHED_WARN_NEVER,
};

/// The pre-auth connection gate: slots are bounded at the cap, a refused attempt
/// leaves the count as it was, and released slots free capacity again.
#[test]
fn handshake_slot_caps_in_flight_and_releases_on_drop() {
    let mut gate = HandshakeGate::new();
    // Fill every slot.
    for _ in 0..MAX_IN_FLIGHT_HANDSHAKES {
        assert!(gate.try_acquire(), "under the cap");
    }
    assert_eq!(gate.in_flight(), MAX_IN_FLIGHT_HANDSHAKES);

    // One past the cap is shed, and the failed attempt leaves the count alone.
    assert!(!gate.try_acquire(), "cap must shed");
    assert_eq!(
        gate.in_flight(),
        MAX_IN_FLIGHT_HANDSHAKES,
        "a shed attempt must not leak a slot"
    );

    // Releasing every held slot frees them all, and a fresh acquire can take one.
    for _ in 0..MAX_IN_FLIGHT_HANDSHAKES {
        gate.release();
    }
    assert_eq!(gate.in_flight(), 0);
    assert!(gate.try_acquire(), "capacity freed");
    assert_eq!(gate.in_flight(), 1);
    gate.release();
    assert_eq!(gate.in_flight(), 0);
}

/// The first shed warns, an immediately following burst does not, and every shed is
/// counted regardless.
#[test]
fn shedding_counts_every_connection_and_warns_at_most_once_per_interval() {
    let mut w = ShedWarn::new();
    assert_eq!(w.shed, 0);
    let now = 0u64;
    note_shed_handshake(&mut w, now);
    let after_first = w.last_warn_ms;
    assert_ne!(
        after_first, SHED_WARN_NEVER,
        "the first shed must warn, even at timestamp 0"
    );
    for _ in 0..50 {
        note_shed_handshake(&mut w, now);
    }
    assert_eq!(w.shed, 51, "every shed must be counted, warned or not");
    assert_eq!(
        w.last_warn_ms, after_first,
        "a burst must not re-warn inside the interval"
    );
}

/// A weak cookie is refused before anything is published, and the runtime stays a
/// non-node so a corrected start can be retried.
#[test]
fn node_listen_rejects_a_short_cookie() {
    let name = 7u32;
    let mut node = NodeIdentity::new(0);
    for weak in ["", "x", "hunter2", "123456789012345"] {
        let err = node_listen(&mut node, name, weak.to_string())
            .expect_err("a sub-16-byte cookie must be refused");
        assert_eq!(err.kind(), NodeErrorKind::InvalidInput);
        assert!(err.message().contains("cookie too short"), "got: {}", err.message());
    }
    assert!(!node.started, "must stay a non-node");
}

#[test]
fn a_strong_cookie_starts_the_node_once() {
    let mut node = NodeIdentity::new(0);
    let cookie = "0123456789abcdef".to_string();
    assert_eq!(node_listen(&mut node, 9, cookie.clone()), Ok(()));
    assert!(node.started);
    assert_eq!(node.name, 9);
    assert_eq!(node.cookie, cookie);
    let again = node_listen(&mut node, 10, cookie.clone()).unwrap_err();
    assert_eq!(again, NodeError::AlreadyNode);
    assert_eq!(again.kind(), NodeErrorKind::AlreadyExists);
    assert_eq!(node.name, 9, "a refused start changes nothing");
    clear_identity(&mut node);
    assert!(!node.started);
    assert_eq!(node_listen(&mut node, 10, cookie), Ok(()));
}

#[test]
fn the_cookie_length_is_counted_in_bytes() {
    let mut node = NodeIdentity::new(0);
    // Eight two-byte characters: sixteen bytes, enough.
    let err = node_listen(&mut node, 1, "éééééééé".to_string());
    assert_eq!(err, Ok(()));
    let mut other = NodeIdentity::new(0);
    let e = node_listen(&mut other, 1, "ééééééé".to_string()).unwrap_err();
    assert_eq!(e, NodeError::CookieTooShort(14));
    assert_eq!(
        e.message(),
        "node cookie too short: 14 bytes (minimum 16) — a cookie-holder has full remote eval on this node; use the default (node/cookie) or e.g. (rand/token 32)"
    );
}

#[test]
fn a_later_shed_warns_again_once_the_interval_has_passed() {
    let mut w = ShedWarn::new();
    assert!(note_shed_handshake(&mut w, 1_000));
    assert!(!note_shed_handshake(&mut w, 60_999));
    assert!(note_shed_handshake(&mut w, 61_000));
    assert_eq!(w.last_warn_ms, 61_000);
    assert_eq!(w.shed, 3);
}
