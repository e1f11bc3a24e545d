use std::sync::Arc;

use kestrel::{AsBytes, StrippedBoxedSlice};

#[test]
fn stripped_slice_hides_its_prefix() {
    let stripped = StrippedBoxedSlice::new(vec![1u8, 2, 3, 4, 5].into_boxed_slice(), 2);
    assert_eq!(stripped.as_slice(), &[3u8, 4, 5]);
    let (data, strip) = stripped.into_box();
    assert_eq!(data.as_ref(), &[1u8, 2, 3, 4, 5]);
    assert_eq!(strip, 2);
}

#[test]
fn stripped_slice_may_hide_nothing_or_everything() {
    let nothing = StrippedBoxedSlice::new(vec![1u8, 2].into_boxed_slice(), 0);
    assert_eq!(nothing.as_slice(), &[1u8, 2]);
    let everything = StrippedBoxedSlice::new(vec![1u8, 2].into_boxed_slice(), 2);
    assert_eq!(everything.as_slice().len(), 0);
    let empty: StrippedBoxedSlice<u16> = StrippedBoxedSlice::new(Vec::new().into_boxed_slice(), 0);
    assert_eq!(empty.as_slice().len(), 0);
}

#[test]
fn stripped_slice_holds_any_element_type() {
    let words = StrippedBoxedSlice::new(vec!["a", "b", "c"].into_boxed_slice(), 1);
    assert_eq!(words.as_slice(), &["b", "c"]);
}

#[test]
fn as_bytes_gives_the_bytes_of_each_holder() {
    let slice: &[u8] = &[1, 2, 3];
    assert_eq!(slice.as_bytes(), &[1u8, 2, 3]);
    let boxed: Box<[u8]> = Box::new([4, 5]);
    assert_eq!(boxed.as_bytes(), &[4u8, 5]);
    let shared: Arc<[u8]> = Arc::new([6]);
    assert_eq!(shared.as_bytes(), &[6u8]);
    let vector: Vec<u8> = vec![7, 8, 9];
    assert_eq!(vector.as_bytes(), &[7u8, 8, 9]);
    let stripped = StrippedBoxedSlice::new(vec![0u8, 0, 1].into_boxed_slice(), 2);
    assert_eq!(stripped.as_bytes(), &[1u8]);
}

#[test]
fn stripped_slice_as_ref_is_its_slice() {
    let stripped = StrippedBoxedSlice::new(vec![9u8, 8, 7, 6].into_boxed_slice(), 3);
    let seen: &[u8] = stripped.as_ref();
    assert_eq!(seen, &[6u8]);
    assert_eq!(seen, stripped.as_slice());
}
