use brood_core::champ::{rank, slot_at, slot_mask};

#[test]
fn slot_at_consumes_4_bits_per_level() {
    let h = 0xFEDC_BA98_7654_3210u64;
    assert_eq!(slot_at(h, 0), 0x0);
    assert_eq!(slot_at(h, 1), 0x1);
    assert_eq!(slot_at(h, 15), 0xF);
}

#[test]
fn rank_counts_lower_bits() {
    // bits 0, 2, 5 set
    let bm = 0b00100101u16;
    assert_eq!(rank(bm, 0), 0); // first
    assert_eq!(rank(bm, 2), 1); // second
    assert_eq!(rank(bm, 5), 2); // third
}

#[test]
fn slot_mask_isolates_one_bit() {
    assert_eq!(slot_mask(0), 1);
    assert_eq!(slot_mask(5), 0b100000);
    assert_eq!(slot_mask(15), 0x8000);
}

#[test]
fn rank_of_a_full_bitmap_is_the_slot() {
    for s in 0..16u8 {
        assert_eq!(rank(0xFFFF, s), s as usize);
    }
    assert_eq!(rank(0, 9), 0);
}

#[test]
fn empty_node_is_branch_with_no_entries() {
    let n = brood_core::champ_map::MapNode::default();
    assert!(!n.is_collision);
    assert_eq!(n.size, 0);
    assert_eq!(n.data_map, 0);
    assert_eq!(n.node_map, 0);
    assert_eq!(n.direct_len(), 0);
    assert_eq!(n.child_len(), 0);
}
