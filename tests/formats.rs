use safe_idata::client::{Client, MemoryClient};
use safe_idata::data_map::{
    deserialise_data_map, deserialise_encoding, serialise_data_map, serialise_encoding, DataMap,
    DataTypeEncoding,
};
use safe_idata::envelope::{open_envelope, seal_envelope, Nonce, SymmetricKey};
use safe_idata::error::CoreError;
use safe_idata::idata::{ImmutableData, MAX_IMMUTABLE_DATA_SIZE_IN_BYTES};
use safe_idata::self_encryptor::{decode_layer, encode_layer};
use safe_idata::wire::{read_blob, read_tag, read_u64};

#[test]
fn inline_data_map_bytes() {
    let bytes = serialise_data_map(&DataMap::Content(vec![7, 8]));
    assert_eq!(bytes, vec![0, 0, 0, 0, 2, 0, 0, 0, 0, 0, 0, 0, 7, 8]);
    match deserialise_data_map(&bytes).unwrap() {
        DataMap::Content(b) => assert_eq!(b, vec![7, 8]),
        DataMap::Chunks { .. } => panic!("expected inline content"),
    }
}

#[test]
fn chunked_data_map_bytes() {
    let dm = DataMap::Chunks { encrypted_map: vec![9], chunk_names: vec![vec![1, 2], vec![3]] };
    let bytes = serialise_data_map(&dm);
    let mut expected = vec![1, 0, 0, 0];
    expected.extend_from_slice(&[1, 0, 0, 0, 0, 0, 0, 0, 9]);
    expected.extend_from_slice(&[2, 0, 0, 0, 0, 0, 0, 0]);
    expected.extend_from_slice(&[2, 0, 0, 0, 0, 0, 0, 0, 1, 2]);
    expected.extend_from_slice(&[1, 0, 0, 0, 0, 0, 0, 0, 3]);
    assert_eq!(bytes, expected);
    match deserialise_data_map(&bytes).unwrap() {
        DataMap::Chunks { encrypted_map, chunk_names } => {
            assert_eq!(encrypted_map, vec![9]);
            assert_eq!(chunk_names, vec![vec![1, 2], vec![3]]);
        }
        DataMap::Content(_) => panic!("expected chunks"),
    }
}

#[test]
fn data_map_with_trailing_bytes_is_refused() {
    let mut bytes = serialise_data_map(&DataMap::Content(vec![7]));
    bytes.push(0);
    assert!(matches!(deserialise_data_map(&bytes), Err(CoreError::DecodeFailure)));
    assert!(matches!(deserialise_data_map(&[5, 0, 0, 0]), Err(CoreError::DecodeFailure)));
    assert!(matches!(deserialise_data_map(&[]), Err(CoreError::DecodeFailure)));
}

#[test]
fn encoding_bytes() {
    let bytes = serialise_encoding(&DataTypeEncoding::Serialised(vec![5]));
    assert_eq!(bytes, vec![0, 0, 0, 0, 1, 0, 0, 0, 0, 0, 0, 0, 5]);
    let nested = serialise_encoding(&DataTypeEncoding::DataMap(DataMap::Content(vec![])));
    assert_eq!(nested, vec![1, 0, 0, 0, 0, 0, 0, 0, 0, 0, 0, 0, 0, 0, 0, 0]);
    match deserialise_encoding(&nested).unwrap() {
        DataTypeEncoding::DataMap(DataMap::Content(b)) => assert!(b.is_empty()),
        _ => panic!("expected an inline data map"),
    }
    assert!(matches!(deserialise_encoding(&[2, 0, 0, 0]), Err(CoreError::DecodeFailure)));
}

#[test]
fn wire_readers() {
    let s = [3u8, 0, 0, 0, 2, 0, 0, 0, 0, 0, 0, 0, 8, 9];
    assert_eq!(read_tag(&s, 0), Some((3, 4)));
    assert_eq!(read_u64(&s, 4), Some((2, 12)));
    assert_eq!(read_blob(&s, 4), Some((vec![8, 9], 14)));
    assert_eq!(read_blob(&s, 0), None);
    assert_eq!(read_tag(&s, 12), None);
}

#[test]
fn immutable_data_size_and_bytes() {
    let d = ImmutableData::new(vec![1, 2, 3]);
    assert_eq!(d.serialised_size(), 11);
    assert_eq!(d.serialise(), vec![3, 0, 0, 0, 0, 0, 0, 0, 1, 2, 3]);
    let back = ImmutableData::deserialise(&d.serialise()).unwrap();
    assert_eq!(back.value(), &vec![1, 2, 3]);
    assert_eq!(back.name(), d.name());
    assert!(ImmutableData::deserialise(&[3, 0, 0, 0, 0, 0, 0, 0, 1, 2]).is_none());
}

#[test]
fn size_limit_boundary() {
    let max = MAX_IMMUTABLE_DATA_SIZE_IN_BYTES as usize;
    assert_eq!(max, 4 * 1024 * 1024 + 10 * 1024);
    assert!(ImmutableData::new(vec![0; max - 8]).validate_size());
    assert!(!ImmutableData::new(vec![0; max - 7]).validate_size());
}

#[test]
fn name_is_a_digest_of_the_value() {
    let v = vec![42u8; 32];
    let a = ImmutableData::new(v.clone());
    let b = ImmutableData::new(v.clone());
    let c = ImmutableData::new(vec![43u8; 32]);
    assert_eq!(a.name().len(), 32);
    assert_ne!(a.name(), &v);
    assert_eq!(a.name(), b.name());
    assert_ne!(a.name(), c.name());
}

#[test]
fn envelope_layout_and_opening() {
    let key = SymmetricKey([5u8; 32]);
    let nonce = Nonce([6u8; 24]);
    let sealed = seal_envelope(&[1, 2, 3], &key, &nonce).unwrap();
    assert_eq!(sealed.len(), 4 + 24 + 8 + 3 + 16);
    assert_eq!(&sealed[..4], &[2, 0, 0, 0]);
    assert_eq!(&sealed[4..28], &[6u8; 24]);
    assert_eq!(&sealed[28..36], &[19, 0, 0, 0, 0, 0, 0, 0]);
    assert_ne!(&sealed[36..39], &[1, 2, 3]);
    assert_eq!(open_envelope(&sealed, &key), Ok(vec![1, 2, 3]));
    assert_eq!(open_envelope(&sealed, &SymmetricKey([4u8; 32])), Err(CoreError::CryptoFailure));
    let plain = serialise_data_map(&DataMap::Content(vec![1]));
    assert_eq!(open_envelope(&plain, &key), Err(CoreError::DecodeFailure));
}

#[test]
fn encode_layer_stores_encrypted_chunks() {
    let value: Vec<u8> = (0..3000u32).map(|i| (i % 251) as u8).collect();
    let mut client = MemoryClient::new();
    let dm = encode_layer(&mut client, &value).unwrap();
    match &dm {
        DataMap::Chunks { encrypted_map, chunk_names } => {
            assert_ne!(encrypted_map, &value);
            assert_eq!(chunk_names.len(), 3);
            for n in chunk_names {
                let chunk = client.get_idata(n).unwrap();
                assert_ne!(chunk.value(), &value);
                assert_eq!(chunk.name(), n);
            }
        }
        DataMap::Content(_) => panic!("expected chunks"),
    }
    assert_eq!(decode_layer(&client, &dm), Ok(value));
}

#[test]
fn put_keeps_the_first_payload_under_a_name() {
    let mut client = MemoryClient::new();
    client.put_idata(ImmutableData::new(vec![1])).unwrap();
    client.put_idata(ImmutableData::new(vec![1])).unwrap();
    client.put_idata(ImmutableData::new(vec![2])).unwrap();
    assert_eq!(client.len(), 2);
}
