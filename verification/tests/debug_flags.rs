use brood_core::debug_flags::{catalogue, group_order};

#[test]
fn every_group_is_in_the_print_order() {
    let order = group_order();
    let mut orphans: Vec<&str> = catalogue()
        .iter()
        .map(|f| f.group)
        .filter(|g| !order.contains(g))
        .collect();
    orphans.sort_unstable();
    orphans.dedup();
    assert!(
        orphans.is_empty(),
        "group(s) not in GROUP_ORDER, so their flags never print: {orphans:?}"
    );
}

#[test]
fn catalogue_has_no_duplicates() {
    let flags = catalogue();
    let mut names: Vec<&str> = flags.iter().map(|f| f.name).collect();
    names.sort_unstable();
    let before = names.len();
    names.dedup();
    assert_eq!(before, names.len(), "duplicate flag in the catalogue");
}
