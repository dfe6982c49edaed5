use byteserver::index::{load_index, save_index, Index};
use byteserver::util::p64;

#[test]
fn index_works() {
    let mut index = Index::new();
    for i in 0..10u64 {
        index.insert(i, i * 999);
    }
    let segment_size = 9999u64;
    let start = p64(1);
    let end = p64(1234567890);

    let bytes = save_index(&index, segment_size, &start, &end);
    let (loaded, seg, s, e) = load_index(&bytes).unwrap();
    assert_eq!((seg, s, e), (segment_size, start, end));
    assert_eq!(loaded.len(), 10);
    for i in 0..10u64 {
        assert_eq!(loaded.get(i), Some(i * 999));
    }
    assert_eq!(&bytes[0..4], b"fs2i");
    assert_eq!(bytes.len(), 36 + 16 * 10);
}

#[test]
fn index_insert_replaces_and_orders() {
    let mut index = Index::new();
    assert_eq!(index.insert(5, 50), None);
    assert_eq!(index.insert(1, 10), None);
    assert_eq!(index.insert(5, 55), Some(50));
    assert_eq!(index.get(5), Some(55));
    assert_eq!(index.get(2), None);
    assert_eq!(index.keys(), vec![1, 5]);
    assert_eq!(index.len(), 2);
}

#[test]
fn load_index_rejects_bad_input() {
    assert!(load_index(&vec![0u8; 10]).is_err());
    let mut bytes = save_index(&Index::new(), 1, &p64(0), &p64(0));
    bytes[3] = b'x';
    assert!(load_index(&bytes).is_err());
    // An entry count larger than what follows.
    let mut short = save_index(&Index::new(), 1, &p64(0), &p64(0));
    short[11] = 1;
    assert!(load_index(&short).is_err());
}
