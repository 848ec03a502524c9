use kiwi::blobvec::BlobVec;

#[test]
fn blob_new_u32() {
    let blob = BlobVec::new(4, false);
    assert_eq!(blob.stride(), 4);
    assert_eq!(blob.len(), 0);
    assert!(blob.as_bytes().is_empty());
}

#[test]
fn blob_new_foo() {
    let blob = BlobVec::new(8, false);
    assert_eq!(blob.stride(), 8);
    assert_eq!(blob.len(), 0);
    assert!(blob.as_bytes().is_empty());
}

#[test]
fn blob_push_u32() {
    let mut blob = BlobVec::new(4, false);

    blob.push_from_slice(&vec![32, 0, 0, 0]);
    assert_eq!(blob.len(), 1);
    assert_eq!(blob.as_bytes(), &vec![32, 0, 0, 0]);
    assert_eq!(blob.get_as_byte_slice(0), vec![32, 0, 0, 0]);

    blob.push_from_slice(&vec![69, 0, 0, 0]);
    assert_eq!(blob.len(), 2);
    assert_eq!(blob.as_bytes(), &vec![32, 0, 0, 0, 69, 0, 0, 0]);
    assert_eq!(blob.get_as_byte_slice(1), vec![69, 0, 0, 0]);

    blob.push_empty();
    assert_eq!(blob.len(), 3);
    assert_eq!(blob.as_bytes(), &vec![32, 0, 0, 0, 69, 0, 0, 0, 0, 0, 0, 0]);
    assert_eq!(blob.get_as_byte_slice(2), vec![0, 0, 0, 0]);
}

#[test]
fn blob_push_foo() {
    let mut blob = BlobVec::new(8, false);

    blob.push_from_slice(&vec![69, 0, 0, 0, 6, 9, 1, 0]);
    assert_eq!(blob.len(), 1);
    assert_eq!(blob.as_bytes(), &vec![69, 0, 0, 0, 6, 9, 1, 0]);

    blob.push_from_slice(&vec![11, 0, 0, 0, 1, 1, 0, 0]);
    assert_eq!(blob.len(), 2);
    assert_eq!(blob.as_bytes(), &vec![69, 0, 0, 0, 6, 9, 1, 0, 11, 0, 0, 0, 1, 1, 0, 0]);
    assert_eq!(blob.get_as_byte_slice(1), vec![11, 0, 0, 0, 1, 1, 0, 0]);

    blob.push_empty();
    assert_eq!(blob.len(), 3);
    assert_eq!(
        blob.as_bytes(),
        &vec![69, 0, 0, 0, 6, 9, 1, 0, 11, 0, 0, 0, 1, 1, 0, 0, 0, 0, 0, 0, 0, 0, 0, 0]
    );
}

#[test]
fn blob_overwrite_u32() {
    let mut blob = BlobVec::new(4, false);

    blob.push_from_slice(&vec![0, 0, 0, 0]);
    blob.push_from_slice(&vec![32, 0, 0, 0]);
    assert_eq!(blob.as_bytes(), &vec![0, 0, 0, 0, 32, 0, 0, 0]);

    blob.overwrite_from_slice(1, &vec![69, 0, 0, 0]);
    assert_eq!(blob.len(), 2);
    assert_eq!(blob.as_bytes(), &vec![0, 0, 0, 0, 69, 0, 0, 0]);

    blob.overwrite_from_slice(0, &vec![11, 0, 0, 0]);
    assert_eq!(blob.len(), 2);
    assert_eq!(blob.as_bytes(), &vec![11, 0, 0, 0, 69, 0, 0, 0]);
}

#[test]
fn blob_overwrite_foo() {
    let mut blob = BlobVec::new(8, false);

    blob.push_from_slice(&vec![69, 0, 0, 0, 6, 9, 1, 0]);
    blob.push_from_slice(&vec![32, 0, 0, 0, 3, 2, 0, 0]);
    assert_eq!(blob.len(), 2);
    assert_eq!(blob.as_bytes(), &vec![69, 0, 0, 0, 6, 9, 1, 0, 32, 0, 0, 0, 3, 2, 0, 0]);

    blob.overwrite_from_slice(1, &vec![11, 0, 0, 0, 1, 1, 1, 0]);
    assert_eq!(blob.len(), 2);
    assert_eq!(blob.as_bytes(), &vec![69, 0, 0, 0, 6, 9, 1, 0, 11, 0, 0, 0, 1, 1, 1, 0]);

    blob.overwrite_from_slice(0, &vec![22, 0, 0, 0, 2, 2, 0, 0]);
    assert_eq!(blob.len(), 2);
    assert_eq!(blob.as_bytes(), &vec![22, 0, 0, 0, 2, 2, 0, 0, 11, 0, 0, 0, 1, 1, 1, 0]);
}

#[test]
fn blob_get_and_push_from_slice() {
    let mut blob = BlobVec::new(8, false);

    blob.push_from_slice(&vec![1, 0, 0, 0, 6, 9, 1, 0]);

    let val_as_slice = blob.get_as_byte_slice(0);
    assert_eq!(&val_as_slice, blob.as_bytes());
    assert_eq!(val_as_slice.len(), 8);

    let mut new_blob = BlobVec::new(8, false);
    new_blob.push_from_slice(&val_as_slice);
    assert_eq!(new_blob.as_bytes(), blob.as_bytes());
}

#[test]
fn blob_get_as_byte_slice_u32() {
    let mut blob = BlobVec::new(4, false);

    for index in 0u8..4 {
        blob.push_from_slice(&vec![index, 0, 0, 0]);
    }
    for index in 0u8..4 {
        assert_eq!(blob.get_as_byte_slice(index as usize), vec![index, 0, 0, 0]);
    }
}

#[test]
fn blob_get_as_byte_slice_foo() {
    let mut blob = BlobVec::new(8, false);

    for index in 0u8..4 {
        blob.push_from_slice(&vec![index, 0, 0, 0, index, index, 0, 0]);
    }
    for index in 0u8..4 {
        assert_eq!(
            blob.get_as_byte_slice(index as usize),
            vec![index, 0, 0, 0, index, index, 0, 0]
        );
    }
}

#[test]
fn blob_swap() {
    let mut blob = BlobVec::new(4, false);
    blob.push_from_slice(&vec![1, 0, 0, 0]);
    blob.push_from_slice(&vec![2, 0, 0, 0]);

    let prior = blob.swap(0, vec![9, 0, 0, 0]);
    assert_eq!(prior, vec![1, 0, 0, 0]);
    assert_eq!(blob.as_bytes(), &vec![9, 0, 0, 0, 2, 0, 0, 0]);
}

#[test]
fn blob_drop_at() {
    let mut blob = BlobVec::new(4, true);
    blob.push_from_slice(&vec![1, 0, 0, 0]);
    blob.push_from_slice(&vec![2, 0, 0, 0]);
    assert_eq!(blob.drop_count(), 0);

    blob.drop_at(0);
    assert_eq!(blob.drop_count(), 1);
    blob.drop_at(1);
    assert_eq!(blob.drop_count(), 2);

    let mut plain = BlobVec::new(4, false);
    plain.push_from_slice(&vec![1, 0, 0, 0]);
    plain.drop_at(0);
    assert_eq!(plain.drop_count(), 0);
}
