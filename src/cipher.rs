use crate::error::StoreError;
use vstd::prelude::*;

verus! {

/// Length in bytes of an AES-256 key.
pub const KEY_LEN: usize = 32;

/// Length in bytes of a CBC initialization vector for AES.
pub const IV_LEN: usize = 16;

/// Length in bytes of an AES block.
pub const BLOCK_LEN: usize = 16;

/// The longest input the cipher takes in one call: its output, at most one
/// block longer, must fit in a C `int`.
pub const MAX_CIPHER_INPUT: usize = 2147483647 - BLOCK_LEN;

/// The longest plaintext `encrypt` takes: its ciphertext, one block longer at
/// most, must still be accepted by `decrypt`.
pub const MAX_PLAINTEXT_LEN: usize = MAX_CIPHER_INPUT - BLOCK_LEN;

/// The length of the ciphertext of `n` bytes: padded up to the next whole
/// block, a full block of padding where `n` already is one.
pub open spec fn padded_len(n: nat) -> nat {
    (n / BLOCK_LEN as nat + 1) * BLOCK_LEN as nat
}

#[verifier::external_type_specification]
#[verifier::external_body]
pub struct ExErrorStack(openssl::error::ErrorStack);

/// What AES-256-CBC with PKCS#7 padding makes of `data` under `key` and `iv`:
/// `None` where the cipher reports an error.
pub uninterp spec fn aes256_cbc_sealed(key: Seq<u8>, iv: Seq<u8>, data: Seq<u8>) -> Option<Seq<u8>>;

/// What AES-256-CBC decryption with PKCS#7 padding makes of `data` under `key`
/// and `iv`: `None` where the cipher rejects it (a length that is not a whole
/// number of blocks, bad padding).
pub uninterp spec fn aes256_cbc_opened(key: Seq<u8>, iv: Seq<u8>, data: Seq<u8>) -> Option<Seq<u8>>;

/// Relies on `openssl::symm::encrypt` with `Cipher::aes_256_cbc()`: PKCS#7
/// padding is enabled, so the output is the data padded to whole blocks; it
/// depends on key, IV and data alone, and decrypting it with the same key and
/// IV gives the data back. Inputs whose output would not fit in a C `int`
/// make `Crypter::update` panic, so they are left out.
#[verifier::external_body]
fn openssl_encrypt(key: &[u8], iv: &[u8], data: &[u8]) -> (r: Result<
    Vec<u8>,
    openssl::error::ErrorStack,
>)
    requires
        key@.len() == KEY_LEN,
        iv@.len() == IV_LEN,
        data@.len() <= MAX_CIPHER_INPUT,
    ensures
        match r {
            Ok(c) => aes256_cbc_sealed(key@, iv@, data@) == Some(c@),
            Err(_) => aes256_cbc_sealed(key@, iv@, data@) is None,
        },
        r is Ok ==> aes256_cbc_opened(key@, iv@, r->Ok_0@) == Some(data@),
        r is Ok ==> r->Ok_0@.len() == padded_len(data@.len()),
{
    openssl::symm::encrypt(openssl::symm::Cipher::aes_256_cbc(), key, Some(iv), data)
}

/// Relies on `openssl::symm::decrypt` with `Cipher::aes_256_cbc()`: PKCS#7
/// padding is checked and stripped, so input that is empty or not a whole
/// number of blocks fails, and what it accepts is exactly what encryption
/// under the same key and IV makes of its result. The outcome depends on key,
/// IV and data alone. Inputs longer than a C `int` allows make
/// `Crypter::update` panic, so they are left out.
#[verifier::external_body]
fn openssl_decrypt(key: &[u8], iv: &[u8], data: &[u8]) -> (r: Result<
    Vec<u8>,
    openssl::error::ErrorStack,
>)
    requires
        key@.len() == KEY_LEN,
        iv@.len() == IV_LEN,
        data@.len() <= MAX_CIPHER_INPUT,
    ensures
        match r {
            Ok(p) => aes256_cbc_opened(key@, iv@, data@) == Some(p@),
            Err(_) => aes256_cbc_opened(key@, iv@, data@) is None,
        },
        data@.len() == 0 || data@.len() % BLOCK_LEN as nat != 0 ==> r is Err,
        r is Ok ==> aes256_cbc_sealed(key@, iv@, r->Ok_0@) == Some(data@),
        r is Ok ==> data@.len() == padded_len(r->Ok_0@.len()),
{
    openssl::symm::decrypt(openssl::symm::Cipher::aes_256_cbc(), key, Some(iv), data)
}

/// The process-wide key material: a 256-bit key and a 128-bit IV, fixed for
/// the lifetime of a store.
pub struct CipherConfig {
    key: Vec<u8>,
    iv: Vec<u8>,
}

impl CipherConfig {
    /// The key bytes.
    pub closed spec fn key_view(&self) -> Seq<u8> {
        self.key@
    }

    /// The IV bytes.
    pub closed spec fn iv_view(&self) -> Seq<u8> {
        self.iv@
    }

    /// The key and IV have the lengths the cipher takes.
    pub open spec fn wf(&self) -> bool {
        self.key_view().len() == KEY_LEN && self.iv_view().len() == IV_LEN
    }

    /// The ciphertext this configuration makes of `data`.
    pub open spec fn seal_spec(&self, data: Seq<u8>) -> Option<Seq<u8>> {
        aes256_cbc_sealed(self.key_view(), self.iv_view(), data)
    }

    /// The plaintext this configuration recovers from `data`.
    pub open spec fn open_spec(&self, data: Seq<u8>) -> Option<Seq<u8>> {
        aes256_cbc_opened(self.key_view(), self.iv_view(), data)
    }

    /// Builds the configuration from key material; `None` unless the key is
    /// 32 bytes and the IV 16 bytes.
    pub fn new(key: Vec<u8>, iv: Vec<u8>) -> (r: Option<CipherConfig>)
        ensures
            match r {
                Some(c) => c.wf() && c.key_view() == key@ && c.iv_view() == iv@,
                None => key@.len() != KEY_LEN || iv@.len() != IV_LEN,
            },
    {
        if key.len() == KEY_LEN && iv.len() == IV_LEN {
            Some(CipherConfig { key, iv })
        } else {
            None
        }
    }

    /// Encrypts `data`. The result depends on the key material and the data
    /// alone, so equal inputs give equal ciphertext; it is the data padded to
    /// whole blocks, short enough for `decrypt`, and decrypts back to `data`.
    /// Data longer than `MAX_PLAINTEXT_LEN`, or a cipher failure, is a
    /// `DecodeError`.
    pub fn encrypt(&self, data: &[u8]) -> (r: Result<Vec<u8>, StoreError>)
        requires
            self.wf(),
        ensures
            data@.len() > MAX_PLAINTEXT_LEN ==> r == Err::<Vec<u8>, StoreError>(
                StoreError::DecodeError,
            ),
            data@.len() <= MAX_PLAINTEXT_LEN ==> match r {
                Ok(c) => {
                    &&& self.seal_spec(data@) == Some(c@)
                    &&& self.open_spec(c@) == Some(data@)
                    &&& c@.len() == padded_len(data@.len())
                    &&& c@.len() <= MAX_CIPHER_INPUT
                },
                Err(e) => self.seal_spec(data@) is None && e == StoreError::DecodeError,
            },
    {
        if data.len() > MAX_PLAINTEXT_LEN {
            return Err(StoreError::DecodeError);
        }
        match openssl_encrypt(self.key.as_slice(), self.iv.as_slice(), data) {
            Ok(c) => Ok(c),
            Err(_) => Err(StoreError::DecodeError),
        }
    }

    /// Decrypts `data`, checking and stripping the padding. Input that is
    /// empty, not a whole number of blocks, longer than `MAX_CIPHER_INPUT`, or
    /// whose padding is wrong, is a `DecodeError`; what is accepted is exactly
    /// the ciphertext of what comes back, and so its padded length.
    pub fn decrypt(&self, data: &[u8]) -> (r: Result<Vec<u8>, StoreError>)
        requires
            self.wf(),
        ensures
            data@.len() > MAX_CIPHER_INPUT ==> r == Err::<Vec<u8>, StoreError>(
                StoreError::DecodeError,
            ),
            data@.len() <= MAX_CIPHER_INPUT ==> match r {
                Ok(p) => self.open_spec(data@) == Some(p@),
                Err(e) => self.open_spec(data@) is None && e == StoreError::DecodeError,
            },
            data@.len() == 0 || data@.len() % BLOCK_LEN as nat != 0 ==> r == Err::<
                Vec<u8>,
                StoreError,
            >(StoreError::DecodeError),
            r is Ok ==> self.seal_spec(r->Ok_0@) == Some(data@),
            r is Ok ==> data@.len() == padded_len(r->Ok_0@.len()),
    {
        if data.len() > MAX_CIPHER_INPUT {
            return Err(StoreError::DecodeError);
        }
        match openssl_decrypt(self.key.as_slice(), self.iv.as_slice(), data) {
            Ok(p) => Ok(p),
            Err(_) => Err(StoreError::DecodeError),
        }
    }
}

/// Encrypting the same data twice under the same key material gives the same
/// ciphertext: what `encrypt` returns is `seal_spec` of its input.
pub proof fn lemma_encrypt_deterministic(
    cfg: CipherConfig,
    data: Seq<u8>,
    first: Seq<u8>,
    second: Seq<u8>,
)
    requires
        cfg.seal_spec(data) == Some(first),
        cfg.seal_spec(data) == Some(second),
    ensures
        first == second,
{
}

} // verus!
