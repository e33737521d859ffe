use brood_core::heap::Heap;
use brood_core::value::{Handle, Value};

fn handle(v: Value) -> Handle {
    match v {
        Value::Mapping(h) => h,
        _ => panic!("expected a map"),
    }
}

#[test]
fn assoc_get_dissoc_and_size_agree() {
    let mut h = Heap::new(1);
    let empty = handle(h.alloc_empty_map());
    assert_eq!(h.map_size(empty), 0);
    let mut m = empty;
    for i in 0..200 {
        m = handle(h.map_assoc(m, Value::Int(i), Value::Int(i * 10)));
    }
    assert_eq!(h.map_size(m), 200);
    for i in 0..200 {
        assert_eq!(h.map_get(m, Value::Int(i)), Some(Value::Int(i * 10)));
    }
    assert_eq!(h.map_get(m, Value::Int(200)), None);
    let m2 = handle(h.map_dissoc(m, Value::Int(7)));
    assert_eq!(h.map_size(m2), 199);
    assert_eq!(h.map_get(m2, Value::Int(7)), None);
    assert_eq!(h.map_get(m2, Value::Int(8)), Some(Value::Int(80)));
    // The old map is untouched: maps are values.
    assert_eq!(h.map_get(m, Value::Int(7)), Some(Value::Int(70)));
    assert_eq!(h.map_size(m), 200);
    assert_eq!(h.map_size(empty), 0);
}

#[test]
fn rebinding_a_key_keeps_the_size() {
    let mut h = Heap::new(1);
    let m = handle(h.map_from_pairs(vec![(Value::Sym(1), Value::Int(1)), (Value::Sym(2), Value::Int(2))]));
    let m2 = handle(h.map_assoc(m, Value::Sym(1), Value::Nil));
    assert_eq!(h.map_size(m2), 2);
    assert_eq!(h.map_get(m2, Value::Sym(1)), Some(Value::Nil));
    assert_eq!(h.map_get(m, Value::Sym(1)), Some(Value::Int(1)));
}

#[test]
fn dissoc_of_a_fresh_assoc_gives_back_the_map() {
    let mut h = Heap::new(1);
    let m = handle(h.map_from_pairs(vec![(Value::Int(1), Value::Int(1))]));
    let m2 = handle(h.map_assoc(m, Value::Int(2), Value::Int(2)));
    let m3 = handle(h.map_dissoc(m2, Value::Int(2)));
    let mut e = h.map_entries(m3);
    e.sort_by_key(|(k, _)| match k { Value::Int(i) => *i, _ => 0 });
    assert_eq!(e, vec![(Value::Int(1), Value::Int(1))]);
}

#[test]
fn int_add_counts_from_zero_and_accumulates() {
    let mut h = Heap::new(1);
    let m = handle(h.alloc_empty_map());
    let a = handle(h.map_int_add(m, Value::Sym(9), 5));
    assert_eq!(h.map_get(a, Value::Sym(9)), Some(Value::Int(5)));
    let b = handle(h.map_int_add(a, Value::Sym(9), -2));
    assert_eq!(h.map_get(b, Value::Sym(9)), Some(Value::Int(3)));
    let c = handle(h.map_int_add(m, Value::Sym(9), 3));
    assert_eq!(h.map_get(c, Value::Sym(9)), h.map_get(b, Value::Sym(9)));
}

#[test]
fn entries_list_every_binding_once() {
    let mut h = Heap::new(1);
    let pairs: Vec<(Value, Value)> = (0..100).map(|i| (Value::Int(i * 7), Value::Int(i))).collect();
    let m = handle(h.map_from_pairs(pairs.clone()));
    let mut e = h.map_entries(m);
    assert_eq!(e.len(), 100);
    e.sort_by_key(|(k, _)| match k { Value::Int(i) => *i, _ => 0 });
    assert_eq!(e, pairs);
    let set = handle(h.set_from_elems(vec![Value::Int(3), Value::Int(4), Value::Int(3)]));
    let mut elems = h.set_elems(set);
    elems.sort_by_key(|k| match k { Value::Int(i) => *i, _ => 0 });
    assert_eq!(elems, vec![Value::Int(3), Value::Int(4)]);
    assert_eq!(h.map_get(set, Value::Int(4)), Some(Value::Bool(true)));
}

#[test]
fn a_later_pair_for_the_same_key_wins() {
    let mut h = Heap::new(1);
    let m = handle(h.map_from_pairs(vec![(Value::Int(1), Value::Int(1)), (Value::Int(1), Value::Int(2))]));
    assert_eq!(h.map_size(m), 1);
    assert_eq!(h.map_get(m, Value::Int(1)), Some(Value::Int(2)));
}

#[test]
fn lists_are_built_from_the_back() {
    let mut h = Heap::new(1);
    let l = h.list(vec![Value::Int(1), Value::Int(2), Value::Int(3)]);
    let mut items = Vec::new();
    let mut cur = l;
    while let Value::Pair(id) = cur {
        let (car, cdr) = h.pair(id).unwrap();
        items.push(car);
        cur = cdr;
    }
    assert_eq!(items, vec![Value::Int(1), Value::Int(2), Value::Int(3)]);
    assert_eq!(cur, Value::Nil);
    let dotted = h.list_with_tail(vec![Value::Int(1)], Value::Int(9));
    let Value::Pair(id) = dotted else { panic!("a pair") };
    assert_eq!(h.pair(id), Some((Value::Int(1), Value::Int(9))));
    assert_eq!(h.list(vec![]), Value::Nil);
    let s = h.list_from_slice(&[Value::Bool(true)]);
    let Value::Pair(id) = s else { panic!("a pair") };
    assert_eq!(h.pair(id), Some((Value::Bool(true), Value::Nil)));
}
