use cykel::crypto::CryptoError;
use cykel::storage::{data_exists, load, save, wipe, StorageError, VaultFile};

#[test]
fn a_place_without_a_file_has_no_data() {
    let file = VaultFile { contents: None };
    assert!(!data_exists(&file));
}

#[test]
fn saved_data_loads_again() {
    let mut file = VaultFile { contents: None };
    save("pass", b"{\"cycles\":[]}", &mut file).unwrap();
    assert!(data_exists(&file));
    assert_eq!(file.contents.as_ref().unwrap().len(), 13 + 68);
    assert_eq!(load("pass", &file).unwrap(), b"{\"cycles\":[]}");
}

#[test]
fn save_overwrites_what_was_there() {
    let mut file = VaultFile { contents: Some(vec![1, 2, 3]) };
    save("pass", b"new", &mut file).unwrap();
    assert_eq!(load("pass", &file).unwrap(), b"new");
}

#[test]
fn load_without_a_file_is_an_io_error() {
    let file = VaultFile { contents: None };
    match load("pass", &file) {
        Err(StorageError::Io(cause)) => assert_eq!(cause, "vault file not found"),
        other => panic!("unexpected outcome: {:?}", other),
    }
}

#[test]
fn load_of_a_short_file_is_a_format_error() {
    let file = VaultFile { contents: Some(vec![0u8; 10]) };
    assert!(matches!(load("pass", &file), Err(StorageError::Crypto(CryptoError::InvalidFormat))));
}

#[test]
fn load_with_another_passphrase_is_a_decryption_error() {
    let mut file = VaultFile { contents: None };
    save("pass", b"payload", &mut file).unwrap();
    assert!(matches!(load("word", &file), Err(StorageError::Crypto(CryptoError::Decryption))));
}

#[test]
fn wipe_removes_the_file_and_can_be_repeated() {
    let mut file = VaultFile { contents: Some(vec![1, 2, 3]) };
    wipe(&mut file);
    assert!(!data_exists(&file));
    wipe(&mut file);
    assert!(!data_exists(&file));
}

#[test]
fn storage_errors_in_words() {
    assert_eq!(
        StorageError::Crypto(CryptoError::InvalidFormat).message(),
        "crypto error: invalid data format"
    );
    assert_eq!(StorageError::Io("disk full".to_string()).message(), "io error: disk full");
    assert_eq!(
        StorageError::Serialization("expected value".to_string()).message(),
        "serialization error: expected value"
    );
    assert_eq!(StorageError::NoDataDir.message(), "data directory not found");
}
