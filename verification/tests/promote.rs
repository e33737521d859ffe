use brood_core::heap::Heap;
use brood_core::value::Value;

fn cur_pairs(h: &Heap) -> usize {
    h.runtime.gen_slabs(h.runtime.cur_gen()).pairs.len()
}

fn cur_vectors(h: &Heap) -> usize {
    h.runtime.gen_slabs(h.runtime.cur_gen()).vectors.len()
}

/// Level 0 is `(1)`; level k is a pair whose car AND cdr are level k-1: n+1
/// distinct cells, but 2^(n+1)-1 if re-copied once per referrer.
#[test]
fn a_self_sharing_pair_dag_promotes_linearly() {
    let mut h = Heap::new(1);
    let n = 16;
    let mut v = h.alloc_pair(Value::Int(1), Value::Nil);
    for _ in 0..n {
        v = h.alloc_pair(v, v);
    }
    let before = cur_pairs(&h);
    let promoted = h.promote(v);
    let grown = cur_pairs(&h) - before;
    assert_eq!(grown, n + 1, "each distinct cell must be promoted exactly once");
    // The promoted graph still reads correctly: car^n reaches the `(1)` leaf.
    let mut cur = promoted;
    for _ in 0..n {
        let Value::Pair(id) = cur else {
            panic!("expected a pair");
        };
        cur = h.pair(id).unwrap().0;
    }
    let Value::Pair(id) = cur else {
        panic!("expected the leaf pair");
    };
    assert!(matches!(h.pair(id).unwrap().0, Value::Int(1)));
}

/// Two lists converging on one spine promote the shared cells once.
#[test]
fn a_shared_list_tail_promotes_once() {
    let mut h = Heap::new(1);
    let mut tail = Value::Nil;
    for i in 0..8 {
        tail = h.alloc_pair(Value::Int(i), tail);
    }
    let a = h.alloc_pair(Value::Int(100), tail);
    let b = h.alloc_pair(Value::Int(200), tail);
    let both = h.alloc_pair(a, b);
    let before = cur_pairs(&h);
    h.promote(both);
    let grown = cur_pairs(&h) - before;
    assert_eq!(grown, 8 + 3, "the 8 shared tail cells + a + b + the outer pair");
}

/// A long shared tail entered twice stays linear.
#[test]
fn a_long_shared_tail_stays_linear_past_the_stride_threshold() {
    let mut h = Heap::new(1);
    let n = 1000;
    let mut tail = Value::Nil;
    for i in 0..n {
        tail = h.alloc_pair(Value::Int(i), tail);
    }
    let a = h.alloc_pair(Value::Int(-1), tail);
    let b = h.alloc_pair(Value::Int(-2), tail);
    let both = h.alloc_pair(a, b);
    let before = cur_pairs(&h);
    h.promote(both);
    let grown = cur_pairs(&h) - before;
    assert!(
        grown <= n as usize + 3 + 8,
        "grown={grown} for a {n}-cell tail shared twice"
    );
}

#[test]
fn a_self_sharing_vector_dag_promotes_linearly() {
    let mut h = Heap::new(1);
    let n = 12;
    let mut v = h.alloc_vector(vec![Value::Int(1)]);
    for _ in 0..n {
        v = h.alloc_vector(vec![v, v]);
    }
    let before = cur_vectors(&h);
    h.promote(v);
    let grown = cur_vectors(&h) - before;
    assert_eq!(grown, n + 1, "each distinct vector must be promoted exactly once");
}

#[test]
fn atoms_and_shared_values_come_back_unchanged() {
    let mut h = Heap::new(1);
    assert_eq!(h.promote(Value::Int(5)), Value::Int(5));
    assert_eq!(h.promote(Value::Nil), Value::Nil);
    let p = h.alloc_pair(Value::Int(1), Value::Nil);
    let shared = h.promote(p);
    let before = cur_pairs(&h);
    assert_eq!(h.promote(shared), shared, "a RUNTIME value is not copied again");
    assert_eq!(cur_pairs(&h), before);
}
