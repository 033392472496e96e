use rand::RngCore;
use safe_idata::client::{Client, MemoryClient};
use safe_idata::data_map::{
    deserialise_data_map, deserialise_encoding, serialise_data_map, serialise_encoding, DataMap,
    DataTypeEncoding,
};
use safe_idata::envelope::SymmetricKey;
use safe_idata::error::CoreError;
use safe_idata::idata::ImmutableData;
use safe_idata::idata::MAX_IMMUTABLE_DATA_SIZE_IN_BYTES;
use safe_idata::immutable_data::{create, extract_value, get_value, pack, unpack};
use safe_idata::self_encryptor::store_chunks;

fn random_bytes(size: usize) -> Vec<u8> {
    let mut v = vec![0u8; size];
    rand::thread_rng().fill_bytes(&mut v);
    v
}

/// The data map that the root of a create carries, when the root holds it
/// directly (no packing layer in between).
fn direct_data_map(root: &ImmutableData) -> DataMap {
    match deserialise_encoding(root.value()).unwrap() {
        DataTypeEncoding::Serialised(s) => deserialise_data_map(&s).unwrap(),
        DataTypeEncoding::DataMap(_) => panic!("root was packed"),
    }
}

#[test]
fn round_trip_without_key() {
    let value = random_bytes(5000);
    let mut client = MemoryClient::new();
    let root = create(&mut client, &value, None).unwrap();
    assert_eq!(extract_value(&client, &root, None).unwrap(), value);
}

#[test]
fn round_trip_with_key() {
    let value = random_bytes(5000);
    let key = SymmetricKey(rand::random());
    let mut client = MemoryClient::new();
    let root = create(&mut client, &value, Some(key)).unwrap();
    assert_eq!(extract_value(&client, &root, Some(key)).unwrap(), value);
}

#[test]
fn plain_data_read_with_key_fails_to_decode() {
    let value = random_bytes(5000);
    let mut client = MemoryClient::new();
    let root = create(&mut client, &value, None).unwrap();
    let key = SymmetricKey(rand::random());
    assert_eq!(extract_value(&client, &root, Some(key)), Err(CoreError::DecodeFailure));
}

#[test]
fn sealed_data_read_without_key_fails_to_decode() {
    let value = random_bytes(5000);
    let key = SymmetricKey(rand::random());
    let mut client = MemoryClient::new();
    let root = create(&mut client, &value, Some(key)).unwrap();
    assert_eq!(extract_value(&client, &root, None), Err(CoreError::DecodeFailure));
}

#[test]
fn empty_payload_is_kept_inline() {
    let mut client = MemoryClient::new();
    let root = create(&mut client, &[], None).unwrap();
    match direct_data_map(&root) {
        DataMap::Content(b) => assert!(b.is_empty()),
        DataMap::Chunks { .. } => panic!("expected inline content"),
    }
    assert_eq!(client.len(), 0);
    assert_eq!(extract_value(&client, &root, None).unwrap(), Vec::<u8>::new());
}

#[test]
fn two_byte_payload_is_kept_inline() {
    let mut client = MemoryClient::new();
    let root = create(&mut client, &[4, 2], None).unwrap();
    match direct_data_map(&root) {
        DataMap::Content(b) => assert_eq!(b, vec![4, 2]),
        DataMap::Chunks { .. } => panic!("expected inline content"),
    }
    assert_eq!(extract_value(&client, &root, None).unwrap(), vec![4, 2]);
}

#[test]
fn one_kib_root_holds_its_data_map_directly() {
    let value = random_bytes(1024);
    let mut client = MemoryClient::new();
    let root = create(&mut client, &value, None).unwrap();
    match direct_data_map(&root) {
        DataMap::Chunks { encrypted_map, chunk_names } => {
            assert_ne!(encrypted_map, value);
            assert_eq!(chunk_names.len(), 3);
            for n in &chunk_names {
                assert_eq!(n.len(), 32);
            }
        }
        DataMap::Content(_) => panic!("expected chunks"),
    }
    assert_eq!(client.len(), 3);
    assert_eq!(extract_value(&client, &root, None).unwrap(), value);
}

#[test]
fn one_mib_has_one_layer_of_at_least_three_chunks() {
    let value = random_bytes(1024 * 1024);
    let mut client = MemoryClient::new();
    let root = create(&mut client, &value, None).unwrap();
    match direct_data_map(&root) {
        DataMap::Chunks { chunk_names, .. } => assert!(chunk_names.len() >= 3),
        DataMap::Content(_) => panic!("expected chunks"),
    }
    assert!(root.validate_size());
    assert_eq!(extract_value(&client, &root, None).unwrap(), value);
}

#[test]
fn two_mib_with_key_round_trips_and_fails_without() {
    let value = random_bytes(2 * 1024 * 1024);
    let key = SymmetricKey(rand::random());
    let mut client = MemoryClient::new();
    let root = create(&mut client, &value, Some(key)).unwrap();
    assert_eq!(extract_value(&client, &root, Some(key)).unwrap(), value);
    assert_eq!(extract_value(&client, &root, None), Err(CoreError::DecodeFailure));
}

#[test]
fn ten_mib_round_trips() {
    let value = random_bytes(10 * 1024 * 1024);
    let mut client = MemoryClient::new();
    let root = create(&mut client, &value, None).unwrap();
    assert!(root.validate_size());
    assert_eq!(extract_value(&client, &root, None).unwrap(), value);
}

#[test]
fn oversized_value_is_packed_through_a_data_map_layer() {
    let value = random_bytes(5 * 1024 * 1024);
    let encoded = serialise_encoding(&DataTypeEncoding::Serialised(value.clone()));
    let mut client = MemoryClient::new();
    let root = pack(&mut client, encoded).unwrap();
    assert!(root.validate_size());
    match deserialise_encoding(root.value()).unwrap() {
        DataTypeEncoding::DataMap(DataMap::Chunks { chunk_names, .. }) => {
            assert!(chunk_names.len() >= 3)
        }
        _ => panic!("expected a data map layer"),
    }
    assert_eq!(unpack(&client, &root).unwrap(), value);
}

#[test]
fn small_value_is_packed_as_it_is() {
    let mut client = MemoryClient::new();
    let root = pack(&mut client, vec![1, 2, 3]).unwrap();
    assert_eq!(root.value(), &vec![1, 2, 3]);
    assert_eq!(client.len(), 0);
}

#[test]
fn cross_mode_read_with_random_key_fails() {
    let value = random_bytes(64 * 1024);
    let mut client = MemoryClient::new();
    let root = create(&mut client, &value, None).unwrap();
    let name = root.name().clone();
    client.put_idata(root).unwrap();
    let key = SymmetricKey(rand::random());
    assert_eq!(get_value(&client, &name, Some(key)), Err(CoreError::DecodeFailure));
}

#[test]
fn wrong_key_fails_to_authenticate() {
    let value = random_bytes(4096);
    let mut client = MemoryClient::new();
    let root = create(&mut client, &value, Some(SymmetricKey([1u8; 32]))).unwrap();
    assert_eq!(
        extract_value(&client, &root, Some(SymmetricKey([2u8; 32]))),
        Err(CoreError::CryptoFailure)
    );
}

#[test]
fn create_is_deterministic_for_a_fixed_key() {
    let value = random_bytes(100_000);
    let key = SymmetricKey([7u8; 32]);
    let mut a = MemoryClient::new();
    let mut b = MemoryClient::new();
    let ra = create(&mut a, &value, Some(key)).unwrap();
    let rb = create(&mut b, &value, Some(key)).unwrap();
    assert_eq!(ra.value(), rb.value());
    assert_eq!(ra.name(), rb.name());
    let pa = create(&mut a, &value, None).unwrap();
    let pb = create(&mut b, &value, None).unwrap();
    assert_eq!(pa.name(), pb.name());
    assert_ne!(pa.name(), ra.name());
}

#[test]
fn sealing_under_another_key_gives_another_root() {
    let value = random_bytes(10_000);
    let mut client = MemoryClient::new();
    let ra = create(&mut client, &value, Some(SymmetricKey([1u8; 32]))).unwrap();
    let rb = create(&mut client, &value, Some(SymmetricKey([2u8; 32]))).unwrap();
    assert_ne!(ra.name(), rb.name());
}

#[test]
fn creating_twice_with_a_key_stores_nothing_new() {
    let value = random_bytes(100_000);
    let key = SymmetricKey(rand::random());
    let mut client = MemoryClient::new();
    let first = create(&mut client, &value, Some(key)).unwrap();
    let stored = client.len();
    let second = create(&mut client, &value, Some(key)).unwrap();
    assert_eq!(client.len(), stored);
    assert_eq!(first.name(), second.name());
}

#[test]
fn oversized_chunk_is_refused() {
    let mut client = MemoryClient::new();
    let max = MAX_IMMUTABLE_DATA_SIZE_IN_BYTES as usize;
    let res = store_chunks(&mut client, vec![1, 2, 3], vec![vec![0u8; 16], vec![0u8; max - 7]]);
    assert!(matches!(res, Err(CoreError::SelfEncryptionFailure)));
    assert_eq!(client.len(), 0);
    let ok = store_chunks(&mut client, vec![1, 2, 3], vec![vec![0u8; 16], vec![0u8; max - 8]]);
    assert!(ok.is_ok());
    assert_eq!(client.len(), 2);
}

#[test]
fn creating_twice_stores_nothing_new() {
    let value = random_bytes(100_000);
    let mut client = MemoryClient::new();
    let first = create(&mut client, &value, None).unwrap();
    let stored = client.len();
    assert_eq!(stored, 3);
    let second = create(&mut client, &value, None).unwrap();
    assert_eq!(client.len(), stored);
    assert_eq!(first.name(), second.name());
}

#[test]
fn roots_fit_one_chunk_across_sizes() {
    for size in [0usize, 1, 3, 4096, 1024 * 1024 + 1] {
        let value = random_bytes(size);
        let mut client = MemoryClient::new();
        let root = create(&mut client, &value, None).unwrap();
        assert!(root.validate_size());
        assert_eq!(extract_value(&client, &root, None).unwrap(), value);
    }
}

#[test]
fn unknown_root_is_not_found() {
    let client = MemoryClient::new();
    assert_eq!(get_value(&client, &vec![0u8; 32], None), Err(CoreError::ChunkNotFound));
}

#[test]
fn missing_chunk_is_not_found() {
    let value = random_bytes(4096);
    let mut writer = MemoryClient::new();
    let root = create(&mut writer, &value, None).unwrap();
    let reader = MemoryClient::new();
    assert_eq!(extract_value(&reader, &root, None), Err(CoreError::ChunkNotFound));
}

#[test]
fn garbage_root_fails_to_decode() {
    let client = MemoryClient::new();
    let root = ImmutableData::new(vec![9, 9, 9]);
    assert_eq!(extract_value(&client, &root, None), Err(CoreError::DecodeFailure));
}

#[test]
fn unreadable_self_encryption_map_fails() {
    let client = MemoryClient::new();
    let dm = DataMap::Chunks { encrypted_map: vec![1, 2, 3], chunk_names: vec![] };
    let map_bytes = serialise_data_map(&dm);
    let root = ImmutableData::new(serialise_encoding(&DataTypeEncoding::Serialised(map_bytes)));
    assert_eq!(extract_value(&client, &root, None), Err(CoreError::SelfEncryptionFailure));
}

/// A root wrapped in `layers` inline data map layers around the payload `[5]`.
fn layered_root(layers: usize) -> ImmutableData {
    let inner = ImmutableData::new(serialise_encoding(&DataTypeEncoding::Serialised(vec![5])));
    let mut cur = inner.serialise();
    for _ in 0..layers {
        let enc = serialise_encoding(&DataTypeEncoding::DataMap(DataMap::Content(cur)));
        cur = ImmutableData::new(enc).serialise();
    }
    ImmutableData::deserialise(&cur).unwrap()
}

#[test]
fn too_many_data_map_layers_fail() {
    let client = MemoryClient::new();
    assert_eq!(unpack(&client, &layered_root(5)), Err(CoreError::SelfEncryptionFailure));
}

#[test]
fn data_map_layers_within_the_bound_unwrap() {
    let client = MemoryClient::new();
    assert_eq!(unpack(&client, &layered_root(4)), Ok(vec![5]));
}

#[test]
fn disconnected_client_reports_network_unavailable() {
    let value = random_bytes(4096);
    let mut client = MemoryClient::new();
    let root = create(&mut client, &value, None).unwrap();
    let name = root.name().clone();
    client.put_idata(root).unwrap();
    client.simulate_network_disconnect(true);
    assert_eq!(get_value(&client, &name, None), Err(CoreError::NetworkUnavailable));
    assert_eq!(
        create(&mut client, &random_bytes(4096), None).err(),
        Some(CoreError::NetworkUnavailable)
    );
    let inline = create(&mut client, &[1, 2], None).unwrap();
    assert_eq!(unpack(&client, &inline).is_ok(), true);
    assert_eq!(extract_value(&client, &inline, None).unwrap(), vec![1, 2]);
    client.simulate_network_disconnect(false);
    assert_eq!(get_value(&client, &name, None).unwrap(), value);
}

#[test]
fn disconnected_client_still_creates_inline_data() {
    let mut client = MemoryClient::new();
    client.simulate_network_disconnect(true);
    let root = create(&mut client, &[1, 2], None).unwrap();
    assert_eq!(extract_value(&client, &root, None).unwrap(), vec![1, 2]);
}
