use milli::codec::{decode_ids, decode_key, encode_ids, encode_key, normalize_ids, IndexError};
use milli::store::{collect_documents, dictionary_bytes, load_dictionary, number_of_attributes, number_of_documents};

#[test]
fn key_round_trip() {
    let k = encode_key(&b"fox".to_vec(), 0x01020304);
    assert_eq!(k, vec![b'f', b'o', b'x', 1, 2, 3, 4]);
    assert_eq!(decode_key(&k), Ok((b"fox".to_vec(), 0x01020304)));
    assert_eq!(decode_key(&vec![1, 2, 3]), Err(IndexError::CorruptData));
}

#[test]
fn keys_order_by_position_within_a_word() {
    let a = encode_key(&b"fox".to_vec(), 255);
    let b = encode_key(&b"fox".to_vec(), 256);
    assert!(a < b);
}

#[test]
fn id_set_round_trip() {
    let ids = vec![1, 300, 70000];
    let bytes = encode_ids(&ids);
    assert_eq!(bytes, vec![0, 0, 0, 1, 0, 0, 1, 44, 0, 1, 17, 112]);
    assert_eq!(decode_ids(&bytes), Ok(ids));
    assert_eq!(decode_ids(&vec![0, 0, 1]), Err(IndexError::CorruptData));
    assert_eq!(decode_ids(&vec![0, 0, 0, 2, 0, 0, 0, 1]), Err(IndexError::CorruptData));
}

#[test]
fn documents_fail_on_missing_id() {
    let ids = vec![4, 9];
    let ok = collect_documents(&ids, &vec![Some(b"a".to_vec()), Some(b"b".to_vec())]);
    assert_eq!(ok, Ok(vec![(4, b"a".to_vec()), (9, b"b".to_vec())]));
    let missing = collect_documents(&ids, &vec![Some(b"a".to_vec()), None]);
    assert_eq!(missing, Err(IndexError::NotFound(9)));
}

#[test]
fn counts_documents() {
    assert_eq!(number_of_documents(Some(&encode_ids(&vec![1, 2, 3]))), Ok(3));
    assert_eq!(number_of_documents(None), Err(IndexError::MissingEntry));
    assert_eq!(number_of_documents(Some(&vec![1])), Err(IndexError::CorruptData));
}

#[test]
fn counts_attributes() {
    assert_eq!(number_of_attributes(Some(&b"id,title,body\n".to_vec())), Ok(Some(3)));
    assert_eq!(number_of_attributes(None), Ok(None));
    assert_eq!(number_of_attributes(Some(&b"a,b".to_vec())), Ok(Some(2)));
    assert_eq!(number_of_attributes(Some(&b"a,b,c,d".to_vec())), Ok(Some(4)));
    assert_eq!(number_of_attributes(Some(&b"\xff\xfe".to_vec())), Err(IndexError::CorruptData));
}

#[test]
fn loads_dictionary() {
    let set = fst::Set::from_iter(vec!["a", "b"]).unwrap();
    let bytes = dictionary_bytes(&vec![b"a".to_vec(), b"b".to_vec()]).unwrap();
    assert_eq!(bytes, set.as_fst().as_bytes().to_vec());
    assert_eq!(dictionary_bytes(&vec![b"b".to_vec(), b"a".to_vec()]), Err(IndexError::CorruptData));
    let loaded = load_dictionary(Some(bytes)).unwrap().unwrap();
    assert!(loaded.contains("b"));
    assert!(load_dictionary(None).unwrap().is_none());
    assert_eq!(load_dictionary(Some(vec![1, 2, 3])).err(), Some(IndexError::CorruptData));
    assert_eq!(load_dictionary(Some(b"abc".to_vec())).err(), Some(IndexError::CorruptData));
    let mut damaged = set.as_fst().as_bytes().to_vec();
    let at = damaged.len() / 2;
    damaged[at] ^= 0xff;
    assert_eq!(load_dictionary(Some(damaged)).err(), Some(IndexError::CorruptData));
}

#[test]
fn normalizes_ids() {
    assert_eq!(normalize_ids(&vec![5, 1, 5, 3, 1]), vec![1, 3, 5]);
    assert_eq!(normalize_ids(&vec![]), Vec::<u32>::new());
}
