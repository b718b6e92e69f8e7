use cubby::kv::{committed_bitmap, local_id_matches};
use roaring::RoaringTreemap;

fn set(v: &[u64]) -> RoaringTreemap {
    v.iter().copied().collect()
}

#[test]
fn committed_bitmap_adds_and_removes() {
    let r = committed_bitmap(&set(&[1, 2, 3]), &set(&[10, 11]), &set(&[2, 11]));
    let got: Vec<u64> = r.expect("non-empty").iter().collect();
    assert_eq!(got, vec![1, 3, 10]);
}

#[test]
fn committed_bitmap_empty_means_no_row() {
    assert!(committed_bitmap(&set(&[4]), &set(&[]), &set(&[4])).is_none());
    assert!(committed_bitmap(&set(&[]), &set(&[]), &set(&[])).is_none());
}

#[test]
fn local_id_check() {
    assert!(local_id_matches(None, b"abcd1234"));
    assert!(local_id_matches(Some(b"abcd1234"), b"abcd1234"));
    assert!(!local_id_matches(Some(b"abcd1235"), b"abcd1234"));
    assert!(!local_id_matches(Some(b"abc"), b"abcd1234"));
}
