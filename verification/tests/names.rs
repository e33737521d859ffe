use brood_core::names::{
    advertised_addr, demonitor_node, monitor_node, note_dropped, unregister_dead_pid, DropWarnings,
    NameRegistry, NodeMonitors, MAX_WARNED_NAMES,
};

#[test]
fn register_whereis_unregister() {
    let mut r = NameRegistry::new();
    r.register(1, 100);
    assert_eq!(r.whereis(1), Some(100));
    assert_eq!(r.whereis(2), None);
    r.register(1, 101);
    assert_eq!(r.whereis(1), Some(101), "a later registration rebinds");
    assert_eq!(r.name_for_pid(101), Some(1));
    assert_eq!(r.name_for_pid(100), None);
    assert!(r.unregister(1));
    assert!(!r.unregister(1));
    assert_eq!(r.whereis(1), None);
}

#[test]
fn a_dead_pid_leaves_the_names_and_the_watchers() {
    let mut r = NameRegistry::new();
    let mut m = NodeMonitors::new();
    r.register(1, 7);
    r.register(2, 7);
    r.register(3, 8);
    assert!(!monitor_node(&mut m, 50, 7, false, true));
    monitor_node(&mut m, 50, 8, false, true);
    monitor_node(&mut m, 51, 7, false, true);
    unregister_dead_pid(&mut r, &mut m, 7);
    assert_eq!(r.whereis(1), None);
    assert_eq!(r.whereis(2), None);
    assert_eq!(r.whereis(3), Some(8));
    assert_eq!(m.watchers.get(&50), Some(&vec![8]));
    assert_eq!(m.watchers.get(&51), None, "an emptied watcher list goes");
}

#[test]
fn named_spawn_reuses_a_live_holder_and_clears_a_dead_one() {
    let mut r = NameRegistry::new();
    r.register(4, 40);
    assert_eq!(r.claim(4, true), Some(40));
    assert_eq!(r.whereis(4), Some(40));
    assert_eq!(r.claim(4, false), None);
    assert_eq!(r.whereis(4), None, "the stale binding is dropped");
    assert_eq!(r.claim(9, true), None);
}

#[test]
fn monitor_registers_once_and_fires_at_once_for_a_down_peer() {
    let mut m = NodeMonitors::new();
    assert!(monitor_node(&mut m, 5, 1, false, false), "no link up: deliver now");
    assert!(monitor_node(&mut m, 5, 1, false, false), "asking again still reports the peer down");
    assert_eq!(m.watchers.get(&5), Some(&vec![1]), "registered once");
    assert!(!monitor_node(&mut m, 6, 1, true, false), "this node is never down");
    demonitor_node(&mut m, 5, 1);
    assert_eq!(m.watchers.get(&5), None);
    demonitor_node(&mut m, 99, 1);
}

#[test]
fn the_advertised_address_prefers_tcp() {
    let a = vec!["unix:/tmp/x".to_string(), "tcp:1.2.3.4:9".to_string(), "tcp:5.6.7.8:1".to_string()];
    assert_eq!(advertised_addr(&a), "tcp:1.2.3.4:9");
    let b = vec!["unix:/tmp/x".to_string()];
    assert_eq!(advertised_addr(&b), "unix:/tmp/x");
    assert_eq!(advertised_addr(&[]), "");
}

#[test]
fn a_dropped_name_warns_once_until_the_set_is_full() {
    let mut w = DropWarnings::new();
    assert!(note_dropped(&mut w, 1));
    assert!(!note_dropped(&mut w, 1));
    for n in 2..(MAX_WARNED_NAMES as u32 + 1) {
        assert!(note_dropped(&mut w, n));
    }
    assert_eq!(w.seen.len(), MAX_WARNED_NAMES);
    assert!(note_dropped(&mut w, 999_999), "past the cap every new name warns");
    assert!(note_dropped(&mut w, 999_999));
    assert_eq!(w.seen.len(), MAX_WARNED_NAMES, "the set stops growing");
    assert!(!note_dropped(&mut w, 1));
}
