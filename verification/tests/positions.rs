use brood_core::heap::Heap;
use brood_core::runtime_code::Pos;
use brood_core::value::Value;

/// The synthetic mark rides the position record, so promotion carries it.
#[test]
fn the_synthetic_mark_survives_promotion() {
    let mut h = Heap::new(1);
    let pos = Pos { line: 3, col: 7 };
    let generated = h.alloc_pair(Value::Int(1), Value::Nil);
    h.set_form_pos(generated, pos);
    h.mark_synthetic(generated);
    let written = h.alloc_pair(Value::Int(2), Value::Nil);
    h.set_form_pos(written, pos);
    assert!(h.is_synthetic(generated));
    assert!(!h.is_synthetic(written));
    let (rg, rw) = (h.promote(generated), h.promote(written));
    assert_eq!(h.form_pos_only(rg), Some(pos), "the position still travels");
    assert!(h.is_synthetic(rg), "…and so does the mark");
    assert!(!h.is_synthetic(rw), "a form the user wrote stays not-synthetic");
}

fn rt_pair(v: Value) -> (usize, usize) {
    match v {
        Value::Pair(id) => (id.code_gen(), id.index()),
        _ => panic!("expected a RUNTIME pair"),
    }
}

#[test]
fn runtime_form_positions_are_keyed_by_generation() {
    let mut h = Heap::new(1);
    let pos_a = Pos { line: 11, col: 2 };
    let pos_b = Pos { line: 22, col: 4 };

    // A positioned form promoted into the current generation.
    let a = h.alloc_pair(Value::Int(1), Value::Nil);
    h.set_form_pos(a, pos_a);
    let ra = h.promote(a);
    assert_eq!(h.form_pos_only(ra), Some(pos_a));

    // Age: subsequent promotes land in the other generation, whose slab indices
    // restart at 0 and therefore collide with the retained generation's.
    assert!(h.age_runtime(), "the other generation slot should be empty");
    let b = h.alloc_pair(Value::Int(2), Value::Nil);
    h.set_form_pos(b, pos_b);
    let rb = h.promote(b);

    let ((gen_a, idx_a), (gen_b, idx_b)) = (rt_pair(ra), rt_pair(rb));
    assert_ne!(gen_a, gen_b, "the two forms must be in different generations");
    assert_eq!(
        idx_a, idx_b,
        "the test only proves anything if the slab indices actually collide",
    );

    assert_eq!(h.form_pos_only(rb), Some(pos_b), "new-generation position");
    assert_eq!(
        h.form_pos_only(ra),
        Some(pos_a),
        "a promote into the fresh generation overwrote a live old-generation position",
    );
}
