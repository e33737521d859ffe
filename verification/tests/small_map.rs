use brood_core::small_map::SmallMap;

type M = SmallMap<u32>;

#[test]
fn one_entry_costs_one_entry_and_growth_is_exact() {
    let mut m = M::new();
    assert_eq!(m.capacity(), 0);
    m.insert(1, 10);
    assert_eq!(m.capacity(), 1, "a first entry allocates exactly one slot");
    m.insert(2, 20);
    assert_eq!(m.capacity(), 2);
    m.insert(3, 30);
    assert_eq!(m.capacity(), 4);
    for k in 4..=8 {
        m.insert(k, k as u32 * 10);
    }
    assert!(m.is_inline(), "eight entries stay inline");
    assert_eq!(m.capacity(), 8);
    m.insert(9, 90);
    assert!(!m.is_inline(), "the ninth spills");
    for k in 1..=9u64 {
        assert_eq!(m.get(&k), Some(&(k as u32 * 10)));
    }
    assert_eq!(m.len(), 9);
}

#[test]
fn insert_overwrites_and_reports_the_previous_value_in_both_shapes() {
    let mut m = M::new();
    assert_eq!(m.insert(7, 1), None);
    assert_eq!(m.insert(7, 2), Some(1));
    assert_eq!(m.len(), 1);
    for k in 10..30 {
        m.insert(k, 0);
    }
    assert!(!m.is_inline());
    assert_eq!(m.insert(7, 3), Some(2));
    assert_eq!(m.get(&7), Some(&3));
    m.insert(7, 4);
    assert_eq!(m.get(&7), Some(&4));
}

#[test]
fn retain_clear_and_values_agree_across_the_spill() {
    for n in [3usize, 20] {
        let mut m = M::new();
        for k in 0..n as u64 {
            m.insert(k, k as u32);
        }
        m.retain(|k, _| k % 2 == 0);
        let mut vals: Vec<u32> = m.values();
        vals.sort();
        assert_eq!(
            vals,
            (0..n as u32).filter(|k| k % 2 == 0).collect::<Vec<_>>()
        );
        m.clear();
        assert_eq!(m.len(), 0);
        assert_eq!(m.capacity(), 0, "a cleared map holds no storage");
        assert!(m.is_inline());
    }
}

#[test]
fn a_missing_key_reads_as_none_in_both_shapes() {
    let mut m = M::new();
    assert_eq!(m.get(&5), None);
    m.insert(1, 1);
    assert_eq!(m.get(&5), None);
    for k in 0..20 {
        m.insert(k, 7);
    }
    assert_eq!(m.get(&99), None);
    assert_eq!(m.len(), 20);
}

#[test]
fn retain_keeps_the_shape() {
    let mut m = M::new();
    for k in 0..12 {
        m.insert(k, 1);
    }
    m.retain(|k, _| *k < 2);
    assert_eq!(m.len(), 2);
    assert!(!m.is_inline());
}
