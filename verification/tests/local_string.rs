use brood_core::local_string::{
    CharIndex, LocalString, SharedBlob, StrAux, CHAR_INDEX_MIN_CHARS, CHAR_INDEX_STRIDE,
    SHARED_BLOB_THRESHOLD,
};
use std::sync::OnceLock;

/// The conversion the index replaces: the byte offset of char `ci`, walking.
fn walk_char_to_byte(s: &str, ci: usize) -> usize {
    s.char_indices().nth(ci).map_or(s.len(), |(b, _)| b)
}

#[test]
fn the_index_is_built_only_where_it_pays() {
    let long_ascii = LocalString::inline("a".repeat(CHAR_INDEX_MIN_CHARS * 2));
    assert!(long_ascii.char_index().is_none(), "ASCII needs no index");

    let short = LocalString::inline("é".repeat(CHAR_INDEX_MIN_CHARS - 1));
    assert!(short.char_index().is_none(), "a short string walks");

    let long = LocalString::inline("é".repeat(CHAR_INDEX_MIN_CHARS * 2));
    let ix = long
        .char_index()
        .expect("long multi-byte string is indexed");
    assert_eq!(
        ix.marks.len(),
        (CHAR_INDEX_MIN_CHARS * 2 - 1) / CHAR_INDEX_STRIDE,
        "one mark per whole stride, none for the end"
    );
    // Marks are byte offsets of the stride-th chars, in order.
    assert_eq!(ix.marks[0] as usize, CHAR_INDEX_STRIDE * 2);
    assert!(ix.marks.windows(2).all(|w| w[0] < w[1]), "marks ascend");
}

#[test]
fn the_slot_stays_small() {
    let n = std::mem::size_of::<LocalString>();
    assert!(n <= 56, "LocalString grew to {} bytes", n);
    assert_eq!(
        std::mem::size_of::<OnceLock<Box<StrAux>>>(),
        16,
        "the aux cell is one boxed pointer"
    );
}

#[test]
fn a_shared_blob_slot_is_indexed_too() {
    let s = "aé漢🙂x".repeat(CHAR_INDEX_MIN_CHARS);
    assert!(s.len() > SHARED_BLOB_THRESHOLD);
    let e = LocalString::shared(SharedBlob::new(s.as_bytes()));
    assert!(e.char_index().is_some());
    for ci in [0, 1, 31, 32, 33, 500, e.char_len() - 1, e.char_len()] {
        assert_eq!(e.char_to_byte(ci), walk_char_to_byte(&s, ci), "char {}", ci);
    }
}

#[test]
fn conversions_agree_with_the_walk_at_every_index() {
    for s in ["aé漢🙂x".repeat(3), "x".repeat(40) + "é", "é".repeat(300)] {
        let e = LocalString::inline(s.clone());
        assert_eq!(e.char_len(), s.chars().count());
        for ci in 0..=e.char_len() + 2 {
            let want = walk_char_to_byte(&s, ci);
            assert_eq!(e.char_to_byte(ci), want);
            assert_eq!(e.byte_to_char(want), ci.min(e.char_len()));
        }
    }
}

#[test]
fn ascii_is_the_char_count_equalling_the_byte_count() {
    assert!(LocalString::inline("plain".to_string()).is_ascii());
    assert!(!LocalString::inline("café".to_string()).is_ascii());
    assert_eq!(LocalString::inline("café".to_string()).as_str(), "café");
}

#[test]
fn floor_points_come_from_the_marks() {
    let s = "é".repeat(CHAR_INDEX_MIN_CHARS);
    let ix: CharIndex = CharIndex::build(&s, CHAR_INDEX_MIN_CHARS);
    assert_eq!(ix.floor_char(0), (0, 0));
    assert_eq!(ix.floor_char(31), (0, 0));
    assert_eq!(ix.floor_char(32), (32, 64));
    assert_eq!(ix.floor_char(70), (64, 128));
    assert_eq!(ix.floor_byte(63), (0, 0));
    assert_eq!(ix.floor_byte(64), (32, 64));
    assert_eq!(ix.floor_byte(130), (64, 128));
}
