//! The encrypted envelope: key derivation, sealing and opening of a container.
//!
//! A container is `salt (32 bytes) || nonce (12 bytes) || ciphertext`, where the
//! ciphertext is the AES-256-GCM encryption, tag included, of an 8-byte marker
//! followed by the payload. The key comes from the passphrase and the salt by
//! Argon2id.

use vstd::prelude::*;
use vstd::slice::{slice_subrange, slice_to_vec};
use vstd::string::StringSliceAdditionalSpecFns;

verus! {

/// Length of the salt, in bytes.
pub const SALT_LEN: usize = 32;

/// Length of the nonce, in bytes.
pub const NONCE_LEN: usize = 12;

/// Length of the key, in bytes.
pub const KEY_LEN: usize = 32;

/// Length of the marker, in bytes.
pub const MAGIC_LEN: usize = 8;

/// Length of the authentication tag, in bytes.
pub const TAG_LEN: usize = 16;

/// Memory cost of the key derivation, in KiB.
pub const KDF_MEMORY_KIB: u32 = 65536;

/// Number of passes of the key derivation.
pub const KDF_PASSES: u32 = 3;

/// Degree of parallelism of the key derivation.
pub const KDF_LANES: u32 = 1;

/// The longest password and the longest salt, in bytes, that the key
/// derivation takes.
pub const KDF_MAX_INPUT_LEN: u64 = 0xffff_ffff;

/// The shortest salt, in bytes, that the key derivation takes.
pub const KDF_MIN_SALT_LEN: usize = 8;

/// The longest plaintext, in bytes, that the cipher takes.
pub const AEAD_MAX_PLAINTEXT_LEN: u64 = 0x10_0000_0000;

/// What can go wrong in the envelope.
#[derive(Debug, Clone, Copy, PartialEq, Eq, Structural)]
pub enum CryptoError {
    KeyDerivation,
    Encryption,
    Decryption,
    InvalidFormat,
}

impl CryptoError {
    /// The error in words.
    pub open spec fn message_text(self) -> Seq<char> {
        match self {
            CryptoError::KeyDerivation => "key derivation failed"@,
            CryptoError::Encryption => "encryption failed"@,
            CryptoError::Decryption => "decryption failed — wrong passphrase or corrupted data"@,
            CryptoError::InvalidFormat => "invalid data format"@,
        }
    }

    /// The error in words.
    pub fn message(&self) -> (text: String)
        ensures
            text@ == self.message_text(),
    {
        match self {
            CryptoError::KeyDerivation => "key derivation failed".to_owned(),
            CryptoError::Encryption => "encryption failed".to_owned(),
            CryptoError::Decryption => "decryption failed — wrong passphrase or corrupted data".to_owned(),
            CryptoError::InvalidFormat => "invalid data format".to_owned(),
        }
    }
}

/// The marker that precedes every payload before it is encrypted: the bytes
/// of `CYKEL_V1`.
pub open spec fn magic() -> Seq<u8> {
    seq![0x43u8, 0x59u8, 0x4bu8, 0x45u8, 0x4cu8, 0x5fu8, 0x56u8, 0x31u8]
}

/// The key that Argon2id (version 0x13) derives from a password and a salt
/// under the given costs, or `None` where it refuses its inputs.
pub uninterp spec fn argon2id_key(
    password: Seq<u8>,
    salt: Seq<u8>,
    memory_kib: u32,
    passes: u32,
    lanes: u32,
    key_len: usize,
) -> Option<Seq<u8>>;

/// The ciphertext, tag included, that AES-256-GCM gives for a plaintext under
/// a key and a nonce, with no associated data, or `None` where it refuses.
pub uninterp spec fn aes_gcm_seal(key: Seq<u8>, nonce: Seq<u8>, plaintext: Seq<u8>) -> Option<Seq<u8>>;

/// The plaintext that AES-256-GCM recovers from a ciphertext under a key and
/// a nonce, with no associated data, or `None` where authentication fails.
pub uninterp spec fn aes_gcm_open(key: Seq<u8>, nonce: Seq<u8>, sealed: Seq<u8>) -> Option<Seq<u8>>;

/// Whether Argon2 takes these costs and this key length: at least one lane
/// and one pass, at least 8 KiB of memory for each lane, and a key of 4 to
/// 64 bytes.
pub open spec fn kdf_costs_valid(memory_kib: u32, passes: u32, lanes: u32, key_len: usize) -> bool {
    &&& 1 <= lanes <= 0x00ff_ffff
    &&& memory_kib >= 8 * lanes
    &&& passes >= 1
    &&& 4 <= key_len <= 64
}

/// Whether Argon2 takes this password and this salt: neither is longer than
/// [`KDF_MAX_INPUT_LEN`], and the salt has at least [`KDF_MIN_SALT_LEN`]
/// bytes.
pub open spec fn kdf_inputs_valid(password: Seq<u8>, salt: Seq<u8>) -> bool {
    &&& password.len() <= KDF_MAX_INPUT_LEN
    &&& KDF_MIN_SALT_LEN <= salt.len() <= KDF_MAX_INPUT_LEN
}

/// Builds `argon2::Params` from the costs, an `argon2::Argon2` for Argon2id in
/// version 0x13 from them, and calls its `hash_password_into` on a buffer of
/// `key_len` bytes.
///
/// The contract names the key and says that it has the length asked for. It
/// also says when there is a key: with costs that `Params::new` accepts and a
/// key of at most 64 bytes, `hash_password_into` fails on nothing but the
/// lengths of the password and the salt.
#[verifier::external_body]
fn argon2id(
    password: &[u8],
    salt: &[u8],
    memory_kib: u32,
    passes: u32,
    lanes: u32,
    key_len: usize,
) -> (key: Option<Vec<u8>>)
    requires
        lanes <= 0x00ff_ffff,
    ensures
        key is Some <==> argon2id_key(password@, salt@, memory_kib, passes, lanes, key_len) is Some,
        key matches Some(k) ==> k@.len() == key_len && Some(k@) == argon2id_key(
            password@,
            salt@,
            memory_kib,
            passes,
            lanes,
            key_len,
        ),
        kdf_costs_valid(memory_kib, passes, lanes, key_len) ==> (key is Some <==> kdf_inputs_valid(
            password@,
            salt@,
        )),
{
    let params = argon2::Params::new(memory_kib, passes, lanes, Some(key_len)).ok()?;
    let hasher = argon2::Argon2::new(argon2::Algorithm::Argon2id, argon2::Version::V0x13, params);
    let mut key = vec![0u8; key_len];
    hasher.hash_password_into(password, salt, &mut key).ok()?;
    Some(key)
}

/// Makes an `aes_gcm::Aes256Gcm` from the key and calls its `encrypt` with the
/// nonce.
///
/// The contract names the ciphertext and states what the cipher's code
/// shows. It refuses a key that is not 32 bytes long and a plaintext longer
/// than [`AEAD_MAX_PLAINTEXT_LEN`], and nothing else. The ciphertext is the
/// plaintext's length plus a 16-byte tag. Opening it under the same key and
/// nonce gives the plaintext back.
#[verifier::external_body]
fn aes_gcm_encrypt(key: &[u8], nonce: &[u8], plaintext: &[u8]) -> (sealed: Option<Vec<u8>>)
    requires
        nonce@.len() == NONCE_LEN,
    ensures
        sealed is Some <==> aes_gcm_seal(key@, nonce@, plaintext@) is Some,
        sealed is Some <==> (key@.len() == KEY_LEN && plaintext@.len() <= AEAD_MAX_PLAINTEXT_LEN),
        sealed matches Some(c) ==> Some(c@) == aes_gcm_seal(key@, nonce@, plaintext@)
            && c@.len() == plaintext@.len() + TAG_LEN
            && aes_gcm_open(key@, nonce@, c@) == Some(plaintext@),
{
    let cipher = <aes_gcm::Aes256Gcm as aes_gcm::KeyInit>::new_from_slice(key).ok()?;
    aes_gcm::aead::Aead::encrypt(&cipher, aes_gcm::Nonce::from_slice(nonce), plaintext).ok()
}

/// Makes an `aes_gcm::Aes256Gcm` from the key and calls its `decrypt` with the
/// nonce.
///
/// The contract names the plaintext and states what the cipher's code
/// shows of lengths: a key that is not 32 bytes long is refused, so is an
/// input shorter than the 16-byte tag, and a plaintext is the input's
/// length less the tag. When the tag is found right is left to the name.
#[verifier::external_body]
fn aes_gcm_decrypt(key: &[u8], nonce: &[u8], sealed: &[u8]) -> (plaintext: Option<Vec<u8>>)
    requires
        nonce@.len() == NONCE_LEN,
    ensures
        plaintext is Some <==> aes_gcm_open(key@, nonce@, sealed@) is Some,
        plaintext matches Some(p) ==> Some(p@) == aes_gcm_open(key@, nonce@, sealed@),
        plaintext is Some ==> key@.len() == KEY_LEN && sealed@.len() >= TAG_LEN,
        plaintext matches Some(p) ==> p@.len() + TAG_LEN == sealed@.len(),
{
    let cipher = <aes_gcm::Aes256Gcm as aes_gcm::KeyInit>::new_from_slice(key).ok()?;
    aes_gcm::aead::Aead::decrypt(&cipher, aes_gcm::Nonce::from_slice(nonce), sealed).ok()
}

/// Fills a fresh buffer of `len` bytes by `rand::RngCore::fill_bytes` on
/// `rand::thread_rng()`. Only the length is promised: the bytes are random.
#[verifier::external_body]
fn random_bytes(len: usize) -> (bytes: Vec<u8>)
    ensures
        bytes@.len() == len,
{
    let mut bytes = vec![0u8; len];
    rand::RngCore::fill_bytes(&mut rand::thread_rng(), &mut bytes);
    bytes
}

/// Calls `zeroize::Zeroize::zeroize` on the buffer, which overwrites its
/// bytes with zeros and then empties it.
#[verifier::external_body]
fn wipe_bytes(buffer: &mut Vec<u8>)
    ensures
        final(buffer)@.len() == 0,
{
    zeroize::Zeroize::zeroize(buffer);
}

/// The key for a passphrase, given as its bytes, and a salt.
pub open spec fn derived_key(password: Seq<u8>, salt: Seq<u8>) -> Option<Seq<u8>> {
    argon2id_key(password, salt, KDF_MEMORY_KIB, KDF_PASSES, KDF_LANES, KEY_LEN)
}

/// The container that sealing `plaintext` gives under a passphrase, a salt
/// and a nonce.
pub open spec fn sealed_container(
    password: Seq<u8>,
    plaintext: Seq<u8>,
    salt: Seq<u8>,
    nonce: Seq<u8>,
) -> Result<Seq<u8>, CryptoError> {
    match derived_key(password, salt) {
        None => Err(CryptoError::KeyDerivation),
        Some(key) => match aes_gcm_seal(key, nonce, magic() + plaintext) {
            None => Err(CryptoError::Encryption),
            Some(ciphertext) => Ok(salt + nonce + ciphertext),
        },
    }
}

/// What opening `container` gives under a passphrase: the payload, or the
/// reason why there is none.
pub open spec fn opened_container(password: Seq<u8>, container: Seq<u8>) -> Result<
    Seq<u8>,
    CryptoError,
> {
    if container.len() < SALT_LEN + NONCE_LEN + MAGIC_LEN {
        Err(CryptoError::InvalidFormat)
    } else {
        let salt = container.subrange(0, SALT_LEN as int);
        let nonce = container.subrange(SALT_LEN as int, SALT_LEN + NONCE_LEN);
        let ciphertext = container.subrange(SALT_LEN + NONCE_LEN, container.len() as int);
        match derived_key(password, salt) {
            None => Err(CryptoError::KeyDerivation),
            Some(key) => match aes_gcm_open(key, nonce, ciphertext) {
                None => Err(CryptoError::Decryption),
                Some(marked) => if marked.len() >= MAGIC_LEN && marked.subrange(0, MAGIC_LEN as int)
                    == magic() {
                    Ok(marked.subrange(MAGIC_LEN as int, marked.len() as int))
                } else {
                    Err(CryptoError::Decryption)
                },
            },
        }
    }
}

/// A result with its bytes taken as a sequence.
pub open spec fn bytes_of(outcome: Result<Vec<u8>, CryptoError>) -> Result<Seq<u8>, CryptoError> {
    match outcome {
        Ok(bytes) => Ok(bytes@),
        Err(e) => Err(e),
    }
}

/// The marker, as bytes.
fn magic_bytes() -> (marker: Vec<u8>)
    ensures
        marker@ == magic(),
{
    let marker = vec![0x43u8, 0x59u8, 0x4bu8, 0x45u8, 0x4cu8, 0x5fu8, 0x56u8, 0x31u8];
    assert(marker@ =~= magic());
    marker
}

/// Whether `buffer` begins with the marker.
fn has_magic(buffer: &Vec<u8>) -> (found: bool)
    ensures
        found == (buffer@.len() >= MAGIC_LEN && buffer@.subrange(0, MAGIC_LEN as int) == magic()),
{
    if buffer.len() < MAGIC_LEN {
        return false;
    }
    let marker = magic_bytes();
    let mut i: usize = 0;
    while i < MAGIC_LEN
        invariant
            i <= MAGIC_LEN,
            marker@ == magic(),
            buffer@.len() >= MAGIC_LEN,
            forall|j: int| 0 <= j < i ==> buffer@[j] == magic()[j],
        decreases MAGIC_LEN - i,
    {
        if buffer[i] != marker[i] {
            assert(buffer@.subrange(0, MAGIC_LEN as int)[i as int] != magic()[i as int]);
            return false;
        }
        i += 1;
    }
    assert(buffer@.subrange(0, MAGIC_LEN as int) =~= magic());
    true
}

/// Derives the 32-byte key for a passphrase and a salt.
///
/// The same passphrase and salt always give the same key. There is a key
/// unless the passphrase or the salt is too long or the salt too short.
pub fn derive_key(passphrase: &str, salt: &[u8]) -> (key: Result<Vec<u8>, CryptoError>)
    ensures
        match derived_key(passphrase.spec_bytes(), salt@) {
            Some(k) => bytes_of(key) == Ok::<Seq<u8>, CryptoError>(k),
            None => key == Err::<Vec<u8>, CryptoError>(CryptoError::KeyDerivation),
        },
        key is Ok <==> kdf_inputs_valid(passphrase.spec_bytes(), salt@),
        key matches Ok(k) ==> k@.len() == KEY_LEN,
{
    match argon2id(passphrase.as_bytes(), salt, KDF_MEMORY_KIB, KDF_PASSES, KDF_LANES, KEY_LEN) {
        Some(key) => Ok(key),
        None => Err(CryptoError::KeyDerivation),
    }
}

/// Whether a payload of this length can be sealed under this passphrase:
/// the passphrase is no longer than [`KDF_MAX_INPUT_LEN`], and marker and
/// payload together are no longer than [`AEAD_MAX_PLAINTEXT_LEN`].
pub open spec fn can_seal(password: Seq<u8>, plaintext: Seq<u8>) -> bool {
    &&& password.len() <= KDF_MAX_INPUT_LEN
    &&& MAGIC_LEN + plaintext.len() <= AEAD_MAX_PLAINTEXT_LEN
}

/// Seals `plaintext` under `passphrase` with the given salt and nonce.
///
/// The container that comes back opens under the same passphrase to the same
/// plaintext.
pub fn encrypt_with(passphrase: &str, plaintext: &[u8], salt: &[u8], nonce: &[u8]) -> (container:
    Result<Vec<u8>, CryptoError>)
    requires
        salt@.len() == SALT_LEN,
        nonce@.len() == NONCE_LEN,
    ensures
        bytes_of(container) == sealed_container(passphrase.spec_bytes(), plaintext@, salt@, nonce@),
        container is Ok <==> can_seal(passphrase.spec_bytes(), plaintext@),
        container matches Err(e) ==> e == if passphrase.spec_bytes().len() > KDF_MAX_INPUT_LEN {
            CryptoError::KeyDerivation
        } else {
            CryptoError::Encryption
        },
        container matches Ok(c) ==> c@.len() == SALT_LEN + NONCE_LEN + MAGIC_LEN + plaintext@.len()
            + TAG_LEN,
        container matches Ok(c) ==> opened_container(passphrase.spec_bytes(), c@) == Ok::<
            Seq<u8>,
            CryptoError,
        >(plaintext@),
{
    let mut key = match derive_key(passphrase, salt) {
        Ok(key) => key,
        Err(e) => {
            return Err(e);
        },
    };
    let mut payload = magic_bytes();
    payload.extend_from_slice(plaintext);
    assert(payload@ =~= magic() + plaintext@);
    let sealed = aes_gcm_encrypt(key.as_slice(), nonce, payload.as_slice());
    wipe_bytes(&mut key);
    wipe_bytes(&mut payload);
    match sealed {
        None => Err(CryptoError::Encryption),
        Some(ciphertext) => {
            let mut output: Vec<u8> = Vec::new();
            output.extend_from_slice(salt);
            output.extend_from_slice(nonce);
            output.extend_from_slice(ciphertext.as_slice());
            proof {
                let c = output@;
                assert(c =~= salt@ + nonce@ + ciphertext@);
                assert(c.subrange(0, SALT_LEN as int) =~= salt@);
                assert(c.subrange(SALT_LEN as int, SALT_LEN + NONCE_LEN) =~= nonce@);
                assert(c.subrange(SALT_LEN + NONCE_LEN, c.len() as int) =~= ciphertext@);
                let marked = magic() + plaintext@;
                assert(marked.subrange(0, MAGIC_LEN as int) =~= magic());
                assert(marked.subrange(MAGIC_LEN as int, marked.len() as int) =~= plaintext@);
            }
            Ok(output)
        },
    }
}

/// Seals `plaintext` under `passphrase` with a fresh random salt and a fresh
/// random nonce.
///
/// Whatever salt and nonce were drawn, the container that comes back opens
/// under the same passphrase to the same plaintext.
pub fn encrypt(passphrase: &str, plaintext: &[u8]) -> (container: Result<Vec<u8>, CryptoError>)
    ensures
        exists|salt: Seq<u8>, nonce: Seq<u8>|
            salt.len() == SALT_LEN && nonce.len() == NONCE_LEN && bytes_of(container)
                == #[trigger] sealed_container(passphrase.spec_bytes(), plaintext@, salt, nonce),
        container matches Ok(c) ==> c@.len() == SALT_LEN + NONCE_LEN + MAGIC_LEN + plaintext@.len()
            + TAG_LEN,
        container matches Ok(c) ==> opened_container(passphrase.spec_bytes(), c@) == Ok::<
            Seq<u8>,
            CryptoError,
        >(plaintext@),
        container is Ok <==> can_seal(passphrase.spec_bytes(), plaintext@),
        container matches Err(e) ==> e == if passphrase.spec_bytes().len() > KDF_MAX_INPUT_LEN {
            CryptoError::KeyDerivation
        } else {
            CryptoError::Encryption
        },
{
    let salt = random_bytes(SALT_LEN);
    let nonce = random_bytes(NONCE_LEN);
    encrypt_with(passphrase, plaintext, salt.as_slice(), nonce.as_slice())
}

/// The length of the shortest container that opens: salt, nonce, marker and
/// tag, around an empty payload.
pub const MIN_CONTAINER_LEN: usize = 68;

/// Opens a container under `passphrase`.
///
/// A container shorter than salt, nonce and marker together is refused as
/// malformed before any key is derived. A passphrase too long for the key
/// derivation gives its error. Every other failure gives the same error: a
/// failed authentication, a wrong marker, and a container too short to hold
/// marker and tag. A payload is the container's length less
/// [`MIN_CONTAINER_LEN`].
pub fn decrypt(passphrase: &str, encrypted: &[u8]) -> (plaintext: Result<Vec<u8>, CryptoError>)
    ensures
        bytes_of(plaintext) == opened_container(passphrase.spec_bytes(), encrypted@),
        encrypted@.len() < SALT_LEN + NONCE_LEN + MAGIC_LEN ==> plaintext == Err::<
            Vec<u8>,
            CryptoError,
        >(CryptoError::InvalidFormat),
        plaintext matches Ok(payload) ==> payload@.len() + MIN_CONTAINER_LEN == encrypted@.len(),
        plaintext matches Err(e) ==> e == if encrypted@.len() < SALT_LEN + NONCE_LEN + MAGIC_LEN {
            CryptoError::InvalidFormat
        } else if passphrase.spec_bytes().len() > KDF_MAX_INPUT_LEN {
            CryptoError::KeyDerivation
        } else {
            CryptoError::Decryption
        },
        encrypted@.len() < MIN_CONTAINER_LEN ==> plaintext is Err,
{
    if encrypted.len() < SALT_LEN + NONCE_LEN + MAGIC_LEN {
        return Err(CryptoError::InvalidFormat);
    }
    let salt = slice_subrange(encrypted, 0, SALT_LEN);
    let nonce = slice_subrange(encrypted, SALT_LEN, SALT_LEN + NONCE_LEN);
    let ciphertext = slice_subrange(encrypted, SALT_LEN + NONCE_LEN, encrypted.len());
    let mut key = match derive_key(passphrase, salt) {
        Ok(key) => key,
        Err(e) => {
            return Err(e);
        },
    };
    let opened = aes_gcm_decrypt(key.as_slice(), nonce, ciphertext);
    wipe_bytes(&mut key);
    match opened {
        None => Err(CryptoError::Decryption),
        Some(mut decrypted) => {
            if !has_magic(&decrypted) {
                wipe_bytes(&mut decrypted);
                return Err(CryptoError::Decryption);
            }
            let payload = slice_to_vec(slice_subrange(decrypted.as_slice(), MAGIC_LEN, decrypted.len()));
            wipe_bytes(&mut decrypted);
            Ok(payload)
        },
    }
}

} // verus!
