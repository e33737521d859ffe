use brood_core::heap::Heap;
use brood_core::symbols::{intern, SymbolTable};
use brood_core::value::Value;

fn map_of(h: &mut Heap, pairs: Vec<(Value, Value)>) -> Value {
    h.map_from_pairs(pairs)
}

#[test]
fn dispatch_resolves_the_id_then_the_default_then_nil() {
    let mut table = SymbolTable::new();
    let ability = intern(&mut table, "Show");
    let op = intern(&mut table, "show");
    let int_kw = intern(&mut table, "int");
    let str_kw = intern(&mut table, "str");
    let other_kw = intern(&mut table, "other");
    let default_kw = intern(&mut table, "default");
    let mut h = Heap::new(1);
    let op_key = h.alloc_vector(vec![Value::Sym(ability), Value::Sym(op)]);
    let f_int = Value::Int(1001);
    let f_default = Value::Int(1002);
    let methods = map_of(
        &mut h,
        vec![(Value::Keyword(int_kw), f_int), (Value::Keyword(default_kw), f_default)],
    );
    let impls = map_of(&mut h, vec![(op_key, methods)]);
    assert_eq!(h.vm_dispatch(&table, impls, op_key, Value::Keyword(int_kw)), f_int);
    assert_eq!(h.vm_dispatch(&table, impls, op_key, Value::Keyword(str_kw)), f_default);
    // A second call hits the cache and agrees.
    assert_eq!(h.vm_dispatch(&table, impls, op_key, Value::Keyword(int_kw)), f_int);
    assert_eq!(h.vm_dispatch(&table, impls, op_key, Value::Keyword(other_kw)), f_default);
    // No entry for the op at all: nil.
    let empty = map_of(&mut h, vec![]);
    assert_eq!(h.vm_dispatch(&table, empty, Value::Int(3), Value::Keyword(int_kw)), Value::Nil);
    // A cached op answers from its entry without reading the impls map.
    assert_eq!(h.vm_dispatch(&table, Value::Nil, op_key, Value::Keyword(int_kw)), f_int);
    h.runtime.version += 1;
    assert_eq!(h.vm_dispatch(&table, Value::Nil, op_key, Value::Keyword(int_kw)), Value::Nil);
}

#[test]
fn a_cached_answer_stands_until_the_epoch_moves() {
    let mut table = SymbolTable::new();
    let a = intern(&mut table, "A");
    let b = intern(&mut table, "b");
    let k = intern(&mut table, "k");
    let mut h = Heap::new(1);
    let op_key = h.alloc_vector(vec![Value::Sym(a), Value::Sym(b)]);
    let m1 = map_of(&mut h, vec![(Value::Keyword(k), Value::Int(1))]);
    let impls1 = map_of(&mut h, vec![(op_key, m1)]);
    let m2 = map_of(&mut h, vec![(Value::Keyword(k), Value::Int(2))]);
    let impls2 = map_of(&mut h, vec![(op_key, m2)]);
    assert_eq!(h.vm_dispatch(&table, impls1, op_key, Value::Keyword(k)), Value::Int(1));
    // Same epoch: the cached impl answers even for another impls map.
    assert_eq!(h.vm_dispatch(&table, impls2, op_key, Value::Keyword(k)), Value::Int(1));
    // A new binding epoch invalidates the entry.
    h.runtime.version += 1;
    assert_eq!(h.vm_dispatch(&table, impls2, op_key, Value::Keyword(k)), Value::Int(2));
}

#[test]
fn five_ids_evict_round_robin() {
    let mut table = SymbolTable::new();
    let a = intern(&mut table, "A");
    let b = intern(&mut table, "b");
    let ids: Vec<u32> = ["i0", "i1", "i2", "i3", "i4"].iter().map(|s| intern(&mut table, s)).collect();
    let mut h = Heap::new(1);
    let op_key = h.alloc_vector(vec![Value::Sym(a), Value::Sym(b)]);
    let pairs: Vec<(Value, Value)> =
        ids.iter().enumerate().map(|(n, &s)| (Value::Keyword(s), Value::Int(n as i64))).collect();
    let methods = map_of(&mut h, pairs);
    let impls = map_of(&mut h, vec![(op_key, methods)]);
    for (n, &s) in ids.iter().enumerate() {
        assert_eq!(h.vm_dispatch(&table, impls, op_key, Value::Keyword(s)), Value::Int(n as i64));
    }
    let key = ((a as u64) << 32) | (b as u64);
    let e = h.dispatch_ics.get(&key).copied().unwrap();
    assert_eq!(e.len, 4);
    assert_eq!(e.ids, [ids[4], ids[1], ids[2], ids[3]], "the fifth id evicted the oldest way");
    assert_eq!(e.cursor, 1);
}
