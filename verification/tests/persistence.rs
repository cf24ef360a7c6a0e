use img_hotkeys::store::ImageBinds;

fn le8(x: u64) -> Vec<u8> {
    x.to_le_bytes().to_vec()
}

#[test]
fn round_trip_empty_store() {
    let s = ImageBinds::new();
    let bytes = s.save();
    assert_eq!(bytes, le8(0));
    let r = ImageBinds::load(&bytes);
    assert!(r.get_keys().is_empty());
}

#[test]
fn round_trip_entries_and_zero_length_blob() {
    let mut s = ImageBinds::new();
    s.binds_insert(5, vec![0x42, 0x4D, 1, 2, 3]);
    s.binds_insert(2, vec![]);
    s.binds_insert(9, vec![255]);
    let bytes = s.save();
    let r = ImageBinds::load(&bytes);
    assert_eq!(r.get_keys(), vec![2, 5, 9]);
    assert_eq!(r.get_img(2), Some(&vec![]));
    assert_eq!(r.get_img(5), Some(&vec![0x42, 0x4D, 1, 2, 3]));
    assert_eq!(r.get_img(9), Some(&vec![255]));
    assert_eq!(r.get_img(7), None);
}

#[test]
fn save_writes_exact_bytes() {
    let mut s = ImageBinds::new();
    s.binds_insert(1, vec![7]);
    let mut expected = le8(1);
    expected.extend(le8(1));
    expected.extend(le8(1));
    expected.push(7);
    assert_eq!(s.save(), expected);
}

#[test]
fn overwrite_keeps_only_second_image() {
    let mut s = ImageBinds::new();
    assert!(s.add_img(4, Some(vec![1, 2, 3])));
    assert!(s.add_img(4, Some(vec![9, 9])));
    assert_eq!(s.get_keys(), vec![4]);
    assert_eq!(s.get_img(4), Some(&vec![9, 9]));
    let r = ImageBinds::load(&s.save());
    assert_eq!(r.get_keys(), vec![4]);
    assert_eq!(r.get_img(4), Some(&vec![9, 9]));
}

#[test]
fn decode_rejects_truncated_bytes() {
    assert!(ImageBinds::decode(&vec![]).is_none());
    assert!(ImageBinds::decode(&vec![1, 2, 3]).is_none());
    // Count says one entry, but no entry follows.
    assert!(ImageBinds::decode(&le8(1)).is_none());
    // Entry header promises more image bytes than are present.
    let mut bytes = le8(1);
    bytes.extend(le8(3));
    bytes.extend(le8(10));
    bytes.extend(vec![1, 2, 3]);
    assert!(ImageBinds::decode(&bytes).is_none());
}

#[test]
fn decode_rejects_trailing_bytes() {
    let mut s = ImageBinds::new();
    s.binds_insert(3, vec![1]);
    let mut bytes = s.save();
    assert!(ImageBinds::decode(&bytes).is_some());
    bytes.push(0);
    assert!(ImageBinds::decode(&bytes).is_none());
}

#[test]
fn decode_rejects_out_of_order_keys() {
    let mut bytes = le8(2);
    bytes.extend(le8(8));
    bytes.extend(le8(0));
    bytes.extend(le8(3));
    bytes.extend(le8(0));
    assert!(ImageBinds::decode(&bytes).is_none());
    // The same two entries in ascending order are accepted.
    let mut sorted = le8(2);
    sorted.extend(le8(3));
    sorted.extend(le8(0));
    sorted.extend(le8(8));
    sorted.extend(le8(0));
    assert!(ImageBinds::decode(&sorted).is_some());
    // A repeated key is not ascending either.
    let mut dup = le8(2);
    dup.extend(le8(3));
    dup.extend(le8(0));
    dup.extend(le8(3));
    dup.extend(le8(0));
    assert!(ImageBinds::decode(&dup).is_none());
}

#[test]
fn load_falls_back_to_empty_store() {
    let r = ImageBinds::load(&vec![0xDE, 0xAD]);
    assert!(r.get_keys().is_empty());
    assert_eq!(r.get_img(0), None);
}

#[test]
fn failed_clipboard_read_leaves_store_identical() {
    let mut s = ImageBinds::new();
    s.add_img(6, Some(vec![8, 8, 8]));
    let before = s.save();
    assert!(!s.add_img(7, None));
    assert!(!s.add_img(6, None));
    assert_eq!(s.save(), before);
    assert_eq!(s.get_keys(), vec![6]);
}
