//! The vault file: one encrypted container at one fixed place.
//!
//! The library works on an image of that place, a [`VaultFile`] that holds
//! the file's bytes or says that there is no file. Reading the image from
//! disk and writing it back is the caller's part; what goes into the file and
//! what comes out of it is decided here.

use vstd::prelude::*;
use vstd::string::{StringExecFns, StringSliceAdditionalSpecFns};
use crate::crypto::{
    can_seal,
    decrypt,
    encrypt,
    opened_container,
    sealed_container,
    CryptoError,
    KDF_MAX_INPUT_LEN,
    MAGIC_LEN,
    NONCE_LEN,
    SALT_LEN,
    TAG_LEN,
};

verus! {

/// What is at the vault's place: the bytes of the file, or nothing.
#[derive(Debug, Clone)]
pub struct VaultFile {
    pub contents: Option<Vec<u8>>,
}

/// What can go wrong between the vault and the disk. `Io` and
/// `Serialization` carry the cause in words.
#[derive(Debug, Clone)]
pub enum StorageError {
    Crypto(CryptoError),
    Io(String),
    Serialization(String),
    NoDataDir,
}

impl StorageError {
    /// The error in words.
    pub open spec fn message_text(self) -> Seq<char> {
        match self {
            StorageError::Crypto(e) => "crypto error: "@ + e.message_text(),
            StorageError::Io(cause) => "io error: "@ + cause@,
            StorageError::Serialization(cause) => "serialization error: "@ + cause@,
            StorageError::NoDataDir => "data directory not found"@,
        }
    }

    /// The error in words.
    pub fn message(&self) -> (text: String)
        ensures
            text@ == self.message_text(),
    {
        match self {
            StorageError::Crypto(e) => {
                let mut text = "crypto error: ".to_owned();
                text.append(e.message().as_str());
                text
            },
            StorageError::Io(cause) => {
                let mut text = "io error: ".to_owned();
                text.append(cause.as_str());
                text
            },
            StorageError::Serialization(cause) => {
                let mut text = "serialization error: ".to_owned();
                text.append(cause.as_str());
                text
            },
            StorageError::NoDataDir => "data directory not found".to_owned(),
        }
    }
}

/// Whether `outcome` is the failure to read a vault file that is not there.
pub open spec fn is_missing_file(outcome: Result<Vec<u8>, StorageError>) -> bool {
    outcome matches Err(StorageError::Io(cause)) && cause@ == "vault file not found"@
}

/// Whether there is a vault file.
pub fn data_exists(file: &VaultFile) -> (present: bool)
    ensures
        present == file.contents is Some,
{
    file.contents.is_some()
}

/// Seals `serialized` under `passphrase` and puts the container in place of
/// whatever the vault file held.
///
/// The file then opens under the same passphrase to the same bytes. Where
/// sealing fails the file is left as it was.
pub fn save(passphrase: &str, serialized: &[u8], file: &mut VaultFile) -> (outcome: Result<
    (),
    StorageError,
>)
    ensures
        outcome is Ok ==> (final(file).contents matches Some(container) && {
            &&& container@.len() == SALT_LEN + NONCE_LEN + MAGIC_LEN + serialized@.len() + TAG_LEN
            &&& opened_container(passphrase.spec_bytes(), container@) == Ok::<Seq<u8>, CryptoError>(
                serialized@,
            )
            &&& exists|salt: Seq<u8>, nonce: Seq<u8>|
                salt.len() == SALT_LEN && nonce.len() == NONCE_LEN && #[trigger] sealed_container(
                    passphrase.spec_bytes(),
                    serialized@,
                    salt,
                    nonce,
                ) == Ok::<Seq<u8>, CryptoError>(container@)
        }),
        outcome is Ok <==> can_seal(passphrase.spec_bytes(), serialized@),
        outcome matches Err(e) ==> *final(file) == *old(file) && e == StorageError::Crypto(
            if passphrase.spec_bytes().len() > KDF_MAX_INPUT_LEN {
                CryptoError::KeyDerivation
            } else {
                CryptoError::Encryption
            },
        ),
{
    match encrypt(passphrase, serialized) {
        Ok(container) => {
            file.contents = Some(container);
            Ok(())
        },
        Err(e) => Err(StorageError::Crypto(e)),
    }
}

/// Opens the vault file under `passphrase` and hands back the bytes that
/// were sealed in it.
///
/// Without a file the read fails; a file that does not open gives the
/// envelope's error.
pub fn load(passphrase: &str, file: &VaultFile) -> (outcome: Result<Vec<u8>, StorageError>)
    ensures
        match file.contents {
            None => is_missing_file(outcome),
            Some(container) => match opened_container(passphrase.spec_bytes(), container@) {
                Ok(serialized) => outcome matches Ok(bytes) && bytes@ == serialized,
                Err(e) => outcome == Err::<Vec<u8>, StorageError>(StorageError::Crypto(e)),
            },
        },
{
    match &file.contents {
        None => Err(StorageError::Io("vault file not found".to_owned())),
        Some(container) => match decrypt(passphrase, container.as_slice()) {
            Ok(serialized) => Ok(serialized),
            Err(e) => Err(StorageError::Crypto(e)),
        },
    }
}

/// Removes the vault file. Where there is none, nothing happens.
pub fn wipe(file: &mut VaultFile)
    ensures
        final(file).contents is None,
{
    file.contents = None;
}

} // verus!
