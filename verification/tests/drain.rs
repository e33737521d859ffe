use brood_core::heap::Heap;
use brood_core::runtime_code::CodeClosure;
use brood_core::value::{Handle, Value};
use brood_core::vm_cache::VmCacheKey;

fn heap_with_code_in_gen1() -> Heap {
    let mut h = Heap::new(7);
    h.runtime.gen1.closures.push(CodeClosure { refs: Vec::new(), env: None });
    h
}

#[test]
fn a_generation_with_messages_in_flight_is_not_freed() {
    let mut h = heap_with_code_in_gen1();
    h.runtime.gen_inflight[1] = 1;
    assert!(h.gen_has_inflight(1));
    assert!(!h.free_runtime_gen(1, 0), "a queued shared closure pins its generation");
    assert_eq!(h.runtime.gen1.closures.len(), 1);
    h.runtime.gen_inflight[1] = 0;
    assert!(h.free_runtime_gen(1, 0));
    assert!(h.runtime.gen1.closures.is_empty());
}

#[test]
fn the_current_or_an_empty_generation_is_never_freed() {
    let mut h = heap_with_code_in_gen1();
    assert!(!h.free_runtime_gen(0, 0), "generation 0 is current");
    let mut e = Heap::new(8);
    assert!(!e.free_runtime_gen(1, 0), "generation 1 is empty");
}

#[test]
fn the_aging_gate_starts_free_and_admits_one_holder() {
    let mut h = Heap::new(9);
    assert!(h.begin_aging());
    assert!(!h.begin_aging());
    h.end_aging();
    assert!(h.begin_aging());
}

#[test]
fn the_two_cache_key_variants_fold_apart() {
    assert_eq!(VmCacheKey::Runtime(1).shared_bits(), 2);
    assert_eq!(VmCacheKey::Body(1).shared_bits(), 3);
    let rt = Handle::runtime_gen(5, 0).0;
    assert_ne!(VmCacheKey::Runtime(rt).shared_bits(), VmCacheKey::Body(rt).shared_bits());
    let _ = Value::Nil;
}

#[test]
fn a_dirty_report_after_a_rearm_withdraws_the_stale_ack() {
    let mut h = heap_with_code_in_gen1();
    let pid = 42u64;
    h.begin_gen_drain(1);
    h.report_gen_liveness(pid);
    assert!(h.gen_drained(&[pid]), "a clean process acks the drain");
    // A shared closure of the draining generation lands in this process.
    h.roots.push(Value::Fn(Handle::runtime_gen(0, 1)));
    h.rearm_drain_ack();
    h.report_gen_liveness(pid);
    assert!(!h.gen_drained(&[pid]), "the stale clean ack no longer counts");
    assert_eq!(h.drain_acked_count(), 0);
}
