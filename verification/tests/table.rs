use brood_core::heap::Heap;
use brood_core::table::{
    check_key, count, create, delete, drop_table, get, has, incr, put, slot_dec, slot_enc,
    snapshot, TableError, Tables, DENSE_KEY_MAX,
};
use brood_core::value::{Handle, Tag, Value};

#[test]
fn a_dense_word_round_trips_its_scalar() {
    for v in [
        Value::Nil,
        Value::Bool(true),
        Value::Bool(false),
        Value::Int(0),
        Value::Int(-1),
        Value::Int(42),
        Value::Int((1i64 << 60) - 1),
        Value::Int(-(1i64 << 60)),
    ] {
        let w = slot_enc(v).expect("a scalar fits a dense word");
        assert_eq!(slot_dec(w), Some(v));
    }
    assert_eq!(slot_enc(Value::Int(1i64 << 60)), None);
    assert_eq!(slot_enc(Value::Sym(3)), None);
    assert_eq!(slot_dec(0), None, "an empty slot holds nothing");
    assert_eq!(slot_enc(Value::Int(5)), Some((5 << 3) | 4));
}

#[test]
fn put_then_get_gives_back_the_value() {
    let mut t = Tables::new();
    let id = create(&mut t);
    assert_eq!(id, 1, "handles start at 1");
    assert_eq!(put(&mut t, id, Value::Int(3), Value::Int(30)), Ok(id));
    assert_eq!(get(&t, id, Value::Int(3), Value::Nil), Ok(Value::Int(30)));
    assert_eq!(get(&t, id, Value::Int(4), Value::Bool(false)), Ok(Value::Bool(false)));
    assert_eq!(has(&t, id, Value::Int(3)), Ok(true));
    assert_eq!(has(&t, id, Value::Int(4)), Ok(false));
    assert_eq!(count(&t, id), Ok(1));
    // Overwrite.
    put(&mut t, id, Value::Int(3), Value::Nil).unwrap();
    assert_eq!(get(&t, id, Value::Int(3), Value::Int(9)), Ok(Value::Nil), "a stored nil is not absent");
    assert_eq!(count(&t, id), Ok(1));
}

#[test]
fn an_out_of_shape_key_or_value_migrates_and_keeps_everything() {
    let mut t = Tables::new();
    let id = create(&mut t);
    for i in 0..10 {
        put(&mut t, id, Value::Int(i), Value::Int(i * i)).unwrap();
    }
    assert!(t.stores.get(0).unwrap().dense);
    put(&mut t, id, Value::Sym(77), Value::Int(1)).unwrap();
    assert!(!t.stores.get(0).unwrap().dense, "a symbol key leaves the dense form");
    for i in 0..10 {
        assert_eq!(get(&t, id, Value::Int(i), Value::Nil), Ok(Value::Int(i * i)));
    }
    assert_eq!(get(&t, id, Value::Sym(77), Value::Nil), Ok(Value::Int(1)));
    assert_eq!(count(&t, id), Ok(11));
    // A key beyond the dense range and a value beyond the tagged range also work.
    put(&mut t, id, Value::Int(DENSE_KEY_MAX), Value::Int(i64::MAX)).unwrap();
    assert_eq!(get(&t, id, Value::Int(DENSE_KEY_MAX), Value::Nil), Ok(Value::Int(i64::MAX)));
    assert_eq!(count(&t, id), Ok(12));
    delete(&mut t, id, Value::Int(4)).unwrap();
    assert_eq!(has(&t, id, Value::Int(4)), Ok(false));
    assert_eq!(count(&t, id), Ok(11));
}

#[test]
fn a_big_value_migrates_a_dense_table() {
    let mut t = Tables::new();
    let id = create(&mut t);
    put(&mut t, id, Value::Int(1), Value::Int(1)).unwrap();
    put(&mut t, id, Value::Int(2), Value::Int(1i64 << 61)).unwrap();
    assert!(!t.stores.get(0).unwrap().dense);
    assert_eq!(get(&t, id, Value::Int(2), Value::Nil), Ok(Value::Int(1i64 << 61)));
    assert_eq!(get(&t, id, Value::Int(1), Value::Nil), Ok(Value::Int(1)));
}

#[test]
fn delete_removes_only_its_key() {
    let mut t = Tables::new();
    let id = create(&mut t);
    put(&mut t, id, Value::Int(1), Value::Bool(true)).unwrap();
    put(&mut t, id, Value::Int(2), Value::Bool(false)).unwrap();
    assert_eq!(delete(&mut t, id, Value::Int(1)), Ok(id));
    assert_eq!(has(&t, id, Value::Int(1)), Ok(false));
    assert_eq!(has(&t, id, Value::Int(2)), Ok(true));
    assert_eq!(count(&t, id), Ok(1));
    // Deleting an absent key, or one the dense form cannot hold, is a no-op.
    assert_eq!(delete(&mut t, id, Value::Int(99)), Ok(id));
    assert_eq!(delete(&mut t, id, Value::Sym(1)), Ok(id));
    assert_eq!(count(&t, id), Ok(1));
}

#[test]
fn incr_counts_from_zero_and_reports_bad_values() {
    let mut t = Tables::new();
    let id = create(&mut t);
    assert_eq!(incr(&mut t, id, Value::Int(5), 1), Ok(1));
    assert_eq!(incr(&mut t, id, Value::Int(5), 41), Ok(42));
    assert_eq!(incr(&mut t, id, Value::Int(5), -50), Ok(-8));
    assert_eq!(get(&t, id, Value::Int(5), Value::Nil), Ok(Value::Int(-8)));
    put(&mut t, id, Value::Int(6), Value::Bool(true)).unwrap();
    assert_eq!(incr(&mut t, id, Value::Int(6), 1), Err(TableError::NotAnInteger));
    assert_eq!(get(&t, id, Value::Int(6), Value::Nil), Ok(Value::Bool(true)), "a failed incr changes nothing");
    put(&mut t, id, Value::Int(7), Value::Int(i64::MAX)).unwrap();
    assert_eq!(incr(&mut t, id, Value::Int(7), 1), Err(TableError::IncrOverflow));
    assert_eq!(get(&t, id, Value::Int(7), Value::Nil), Ok(Value::Int(i64::MAX)));
    // A symbol key increments on the hashed form.
    assert_eq!(incr(&mut t, id, Value::Sym(2), 3), Ok(3));
    assert_eq!(incr(&mut t, id, Value::Sym(2), 3), Ok(6));
    let h = Handle::local(0);
    put(&mut t, id, Value::Sym(3), Value::BigInt(h)).unwrap();
    assert_eq!(incr(&mut t, id, Value::Sym(3), 1), Err(TableError::IntegerOutOfRange));
}

#[test]
fn two_increments_add_up() {
    let mut t = Tables::new();
    let id = create(&mut t);
    incr(&mut t, id, Value::Int(0), 7).unwrap();
    incr(&mut t, id, Value::Int(0), 5).unwrap();
    let mut u = Tables::new();
    let uid = create(&mut u);
    incr(&mut u, uid, Value::Int(0), 12).unwrap();
    assert_eq!(get(&t, id, Value::Int(0), Value::Nil), get(&u, uid, Value::Int(0), Value::Nil));
}

#[test]
fn an_unknown_or_dropped_handle_is_a_clean_error() {
    let mut t = Tables::new();
    assert_eq!(count(&t, 0), Err(TableError::NoSuchTable(0)));
    assert_eq!(count(&t, 5), Err(TableError::Dropped(5)));
    let id = create(&mut t);
    put(&mut t, id, Value::Int(1), Value::Int(1)).unwrap();
    assert!(drop_table(&mut t, id));
    assert!(!drop_table(&mut t, id), "dropping twice is a no-op");
    assert!(!drop_table(&mut t, 0));
    assert_eq!(get(&t, id, Value::Int(1), Value::Nil), Err(TableError::Dropped(id)));
    assert_eq!(put(&mut t, id, Value::Int(1), Value::Nil), Err(TableError::Dropped(id)));
    assert_eq!(incr(&mut t, id, Value::Int(1), 1), Err(TableError::Dropped(id)));
    // Handles are never reused.
    assert_eq!(create(&mut t), 2);
}

#[test]
fn a_snapshot_is_the_whole_table_and_does_not_follow_later_writes() {
    let mut h = Heap::new(1);
    let mut t = Tables::new();
    let id = create(&mut t);
    for i in 0..20 {
        put(&mut t, id, Value::Int(i), Value::Int(100 + i)).unwrap();
    }
    put(&mut t, id, Value::Keyword(4), Value::Bool(true)).unwrap();
    let snap = snapshot(&mut h, &t, id).unwrap();
    let Value::Mapping(m) = snap else { panic!("a map") };
    assert_eq!(h.map_size(m), 21);
    for i in 0..20 {
        assert_eq!(h.map_get(m, Value::Int(i)), Some(Value::Int(100 + i)));
    }
    assert_eq!(h.map_get(m, Value::Keyword(4)), Some(Value::Bool(true)));
    put(&mut t, id, Value::Int(0), Value::Nil).unwrap();
    delete(&mut t, id, Value::Int(1)).unwrap();
    assert_eq!(h.map_get(m, Value::Int(0)), Some(Value::Int(100)));
    assert_eq!(h.map_get(m, Value::Int(1)), Some(Value::Int(101)));
}

#[test]
fn a_dense_snapshot_holds_every_set_slot() {
    let mut h = Heap::new(1);
    let mut t = Tables::new();
    let id = create(&mut t);
    put(&mut t, id, Value::Int(10), Value::Bool(false)).unwrap();
    put(&mut t, id, Value::Int(3), Value::Nil).unwrap();
    let Value::Mapping(m) = snapshot(&mut h, &t, id).unwrap() else { panic!("a map") };
    assert_eq!(h.map_size(m), 2);
    assert_eq!(h.map_get(m, Value::Int(10)), Some(Value::Bool(false)));
    assert_eq!(h.map_get(m, Value::Int(3)), Some(Value::Nil));
    assert_eq!(h.map_get(m, Value::Int(4)), None);
}

#[test]
fn identity_and_nan_keys_are_refused() {
    let h = Handle::local(1);
    assert_eq!(check_key(Value::Fn(h)), Err(TableError::IdentityKey(Tag::Fn)));
    assert_eq!(check_key(Value::Macro(h)), Err(TableError::IdentityKey(Tag::Macro)));
    assert_eq!(check_key(Value::Native(h)), Err(TableError::IdentityKey(Tag::Native)));
    assert_eq!(check_key(Value::Float(f64::NAN.to_bits())), Err(TableError::NanKey));
    assert_eq!(check_key(Value::Float(1.5f64.to_bits())), Ok(()));
    assert_eq!(check_key(Value::Float(f64::INFINITY.to_bits())), Ok(()));
    assert_eq!(check_key(Value::Int(1)), Ok(()));
    assert_eq!(check_key(Value::Pair(h)), Ok(()));
}
