use brood_core::runtime_code::{NameMeta, RuntimeCode};
use brood_core::value::{Handle, Value};

#[test]
fn seeding_reserves_code_but_not_data() {
    let f = Value::Fn(Handle::local(0));
    let m = Value::Macro(Handle::local(1));
    let n = Value::Native(Handle::local(2));
    let bindings = vec![(1u32, f), (2, m), (3, n), (4, Value::Int(7)), (4, Value::Int(8))];
    let meta = NameMeta { since: Some("0.1".to_string()), deprecated: None, use_instead: None, beta: None };
    let rt = RuntimeCode::seeded(&bindings, &[2, 9], &[(1, meta)], 77);
    assert_eq!(rt.globals.get(&1), Some(&f));
    assert_eq!(rt.globals.get(&4), Some(&Value::Int(8)), "a later binding of a name wins");
    assert!(rt.sealed.contains(&1) && rt.sealed.contains(&2) && rt.sealed.contains(&3));
    assert!(!rt.sealed.contains(&4), "a data global stays rebindable");
    assert!(rt.private.contains(&2) && rt.private.contains(&9));
    assert_eq!(rt.meta.get(&1).and_then(|m| m.since.clone()), Some("0.1".to_string()));
    assert_eq!(rt.runtime_tag, 77);
    assert_eq!(rt.current_gen, 0);
    assert!(rt.gen0.is_empty() && rt.gen1.is_empty());
}
