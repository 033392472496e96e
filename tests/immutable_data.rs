use rand::RngCore;
use safe_idata::client::{Client, MemoryClient};
use safe_idata::envelope::SymmetricKey;
use safe_idata::immutable_data::{create, get_value};

fn random_bytes(size: usize) -> Vec<u8> {
    let mut v = vec![0u8; size];
    rand::thread_rng().fill_bytes(&mut v);
    v
}

fn create_and_retrieve(size: usize) {
    let value = random_bytes(size);

    // Unencrypted
    let mut plain_client = MemoryClient::new();
    let data_before = create(&mut plain_client, &value, None).unwrap();
    let plain_name = data_before.name().clone();
    plain_client.put_idata(data_before).unwrap();
    let value_after = get_value(&plain_client, &plain_name, None).unwrap();
    assert_eq!(value_after, value);

    // Encrypted
    let mut sealed_client = MemoryClient::new();
    let key = SymmetricKey(rand::random());
    let data_before = create(&mut sealed_client, &value, Some(key)).unwrap();
    let sealed_name = data_before.name().clone();
    sealed_client.put_idata(data_before).unwrap();
    let value_after = get_value(&sealed_client, &sealed_name, Some(key)).unwrap();
    assert_eq!(value_after, value);

    // Put unencrypted Retrieve encrypted - Should fail
    // (the data put above without a key, read with a fresh key)
    let other_key = SymmetricKey(rand::random());
    let res = get_value(&plain_client, &plain_name, Some(other_key));
    assert!(res.is_err());

    // Put encrypted Retrieve unencrypted - Should fail
    // (the data put above under a key, read without one)
    let res = get_value(&sealed_client, &sealed_name, None);
    assert!(res.is_err());
}

// Test creating and retrieving a 1kb idata.
#[test]
fn create_and_retrieve_1kb() {
    create_and_retrieve(1024)
}

// Test creating and retrieving a 1mb idata.
#[test]
fn create_and_retrieve_1mb() {
    create_and_retrieve(1024 * 1024)
}

// Test creating and retrieving a 2mb idata.
#[test]
fn create_and_retrieve_2mb() {
    create_and_retrieve(2 * 1024 * 1024)
}

// Test creating and retrieving a 10mb idata.
#[test]
fn create_and_retrieve_10mb() {
    create_and_retrieve(10 * 1024 * 1024)
}
