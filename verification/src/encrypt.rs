//! The encryption helper of encrypted sources.
//!
//! An [`Encrypter`] holds an RSA private key, loaded from — or generated
//! and stored into — the OS credential store under a configurable entry
//! name. Serialised configuration bytes are encrypted chunk by chunk with
//! PKCS#1 v1.5 padding: a plaintext chunk of `key_bytes − 11` bytes (the
//! padding takes 11 bytes of each modulus) becomes one ciphertext chunk of
//! `key_bytes` bytes, and decryption cuts the ciphertext back into chunks
//! of `key_bytes` bytes. The chunking is verified; the RSA primitives, the
//! credential store and the key encoding stand behind trusted wrappers.

use vstd::prelude::*;

use crate::error::ConfigError;

verus! {

#[verifier::external_type_specification]
#[verifier::external_body]
pub struct ExRsaPrivateKey(rsa::RsaPrivateKey);

#[verifier::external_type_specification]
#[verifier::external_body]
pub struct ExKeyringEntry(keyring::Entry);

/// What fetching a password from the OS credential store yielded.
pub enum PasswordFetch {
    /// The entry exists and holds this password.
    Found(String),
    /// The store answered: no such entry.
    Missing,
    /// The store could not be asked.
    Failed,
}

/// Relies on keyring::Entry::new: open the credential-store entry of this
/// service and user.
#[verifier::external_body]
fn keyring_entry(service: &str, user: &str) -> (r: Result<keyring::Entry, ConfigError>) {
    keyring::Entry::new(service, user).map_err(|_| ConfigError::KeyringError)
}

/// Relies on keyring::Entry::get_password, telling its `NoEntry` error
/// apart from the rest; what is found depends on the store's state.
#[verifier::external_body]
fn keyring_get_password(entry: &keyring::Entry) -> (r: PasswordFetch) {
    match entry.get_password() {
        Ok(p) => PasswordFetch::Found(p),
        Err(keyring::Error::NoEntry) => PasswordFetch::Missing,
        Err(_) => PasswordFetch::Failed,
    }
}

/// Relies on keyring::Entry::set_password.
#[verifier::external_body]
fn keyring_set_password(entry: &keyring::Entry, password: &str) -> (r: Result<
    (),
    ConfigError,
>) {
    entry.set_password(password).map_err(|_| ConfigError::KeyringError)
}

/// Relies on rsa::RsaPrivateKey::new: generate a fresh private key of
/// `bits` bits; the key depends on the thread's random number generator,
/// and a refusal (a size too small to find primes in) is mapped to the
/// encryption error.
#[verifier::external_body]
fn generate_key(bits: usize) -> (r: Result<rsa::RsaPrivateKey, ConfigError>)
    ensures
        r matches Err(e) ==> e == ConfigError::EncryptionError,
{
    let mut rng = rand::thread_rng();
    rsa::RsaPrivateKey::new(&mut rng, bits).map_err(|_| ConfigError::EncryptionError)
}

/// Relies on rsa::traits::PublicKeyParts::size: the byte length of the
/// key's modulus.
#[verifier::external_body]
fn key_size(key: &rsa::RsaPrivateKey) -> (n: usize) {
    rsa::traits::PublicKeyParts::size(key)
}

/// Relies on serde_json::to_string and rsa's serde support: encode the
/// private key as JSON text.
#[verifier::external_body]
fn encode_key(key: &rsa::RsaPrivateKey) -> (r: Result<String, ConfigError>) {
    serde_json::to_string(key).map_err(|_| ConfigError::SerdeError)
}

/// Whether serde_json::from_str decodes this text into an RSA private
/// key. Decoding is a function of the text alone, so the outcome can be
/// named; [`decode_key`]'s contract ties the name to the call.
pub uninterp spec fn decodes_to_key(s: Seq<char>) -> bool;

/// Relies on serde_json::from_str and rsa's serde support: decode a
/// private key from its JSON text. Whether the text decodes depends on
/// the text alone; a text that does not is refused with the decode error.
#[verifier::external_body]
fn decode_key(text: &str) -> (r: Result<rsa::RsaPrivateKey, ConfigError>)
    ensures
        (r is Ok) == decodes_to_key(text@),
        r matches Err(e) ==> e == ConfigError::LoadEncrypterFailed,
{
    serde_json::from_str(text).map_err(|_| ConfigError::LoadEncrypterFailed)
}

/// The encryption helper: an RSA private key together with the byte
/// length of its modulus.
pub struct Encrypter {
    priv_key: rsa::RsaPrivateKey,
    key_bytes: usize,
}

impl Encrypter {
    /// The byte length of the key's modulus.
    pub closed spec fn key_bytes_spec(&self) -> usize {
        self.key_bytes
    }

    /// The modulus leaves room beside the 11 bytes PKCS#1 v1.5 padding
    /// takes. [`Encrypter::build`] establishes this.
    pub open spec fn wf(&self) -> bool {
        self.key_bytes_spec() >= 12
    }

    /// The byte length of the key's modulus.
    pub fn key_bytes(&self) -> (n: usize)
        ensures
            n == self.key_bytes_spec(),
    {
        self.key_bytes
    }

    /// The length of the ciphertext of a plaintext of `len` bytes: one
    /// modulus of `modulus` bytes per started chunk of `chunk` bytes.
    pub open spec fn ciphertext_len(len: nat, chunk: nat, modulus: nat) -> nat
        recommends
            chunk > 0,
    {
        (((len + chunk - 1) as int / chunk as int) * modulus as int) as nat
    }

    /// The longest plaintext a ciphertext of `len` bytes can unpad to:
    /// `modulus − 11` bytes per started chunk of `modulus` bytes.
    pub open spec fn plaintext_cap(len: nat, modulus: nat) -> nat
        recommends
            modulus >= 12,
    {
        (((len + modulus - 1) as int / modulus as int) * (modulus - 11) as int) as nat
    }

    /// Relies on rsa::RsaPublicKey::from and rsa::RsaPublicKey::encrypt
    /// with Pkcs1v15Encrypt: a chunk is only accepted when it leaves the
    /// 11 bytes of padding room in one modulus, and the ciphertext of an
    /// accepted chunk is exactly one modulus — `key_bytes` holds that
    /// length by construction. (A chunk that fits can still be refused:
    /// a key decoded from the credential store is not revalidated.) The
    /// ciphertext's bytes depend on the thread's random number generator.
    #[verifier::external_body]
    fn encrypt_chunk(&self, chunk: &[u8]) -> (r: Result<Vec<u8>, ConfigError>)
        ensures
            r matches Ok(c) ==> chunk@.len() + 11 <= self.key_bytes_spec() && c@.len()
                == self.key_bytes_spec(),
    {
        let mut rng = rand::thread_rng();
        let pub_key = rsa::RsaPublicKey::from(&self.priv_key);
        pub_key.encrypt(&mut rng, rsa::Pkcs1v15Encrypt, chunk).map_err(
            |_| ConfigError::EncryptionError,
        )
    }

    /// Relies on rsa::RsaPrivateKey::decrypt with Pkcs1v15Encrypt: a
    /// decrypted and unpadded chunk of one modulus is at least 11 bytes
    /// shorter than the modulus; an invalid ciphertext is refused.
    #[verifier::external_body]
    fn decrypt_chunk(&self, chunk: &[u8]) -> (r: Result<Vec<u8>, ConfigError>)
        ensures
            r matches Ok(p) ==> p@.len() + 11 <= self.key_bytes_spec(),
    {
        self.priv_key.decrypt(rsa::Pkcs1v15Encrypt, chunk).map_err(
            |_| ConfigError::EncryptionError,
        )
    }

    /// Decide what a credential-store fetch means for the encrypter:
    /// found text is decoded into the stored key; a missing entry asks
    /// for a fresh key of `bits` bits; a store failure is refused with
    /// the keyring error. Either way, a key too small to leave the
    /// padding any room is refused with the encryption error.
    pub fn build_from_fetch(fetch: PasswordFetch, bits: usize) -> (r: Result<
        Encrypter,
        ConfigError,
    >)
        ensures
            r matches Ok(e) ==> e.wf(),
            (r matches Err(e) && e == ConfigError::KeyringError) <==> fetch is Failed,
            match fetch {
                PasswordFetch::Found(text) => {
                    &&& ((r matches Err(e) && e == ConfigError::LoadEncrypterFailed)
                        <==> !decodes_to_key(text@))
                    &&& decodes_to_key(text@) ==> (r is Ok || (r matches Err(e) && e
                        == ConfigError::EncryptionError))
                },
                PasswordFetch::Missing => r is Ok || (r matches Err(e) && e
                    == ConfigError::EncryptionError),
                PasswordFetch::Failed => true,
            },
    {
        let priv_key = match fetch {
            PasswordFetch::Found(text) => match decode_key(text.as_str()) {
                Ok(k) => k,
                Err(e) => {
                    return Err(e);
                },
            },
            PasswordFetch::Missing => match generate_key(bits) {
                Ok(k) => k,
                Err(e) => {
                    return Err(e);
                },
            },
            PasswordFetch::Failed => {
                return Err(ConfigError::KeyringError);
            },
        };
        let kb = key_size(&priv_key);
        if kb < 12 {
            return Err(ConfigError::EncryptionError);
        }
        Ok(Encrypter { priv_key, key_bytes: kb })
    }

    /// Load the encrypter stored under `entry_name` for `user` in the OS
    /// credential store; if none is stored yet, generate a key of `bits`
    /// bits, store it and use it. What the fetch outcome means is decided
    /// by [`Encrypter::build_from_fetch`]; this function only opens the
    /// entry, fetches, and stores a freshly generated key back.
    pub fn build(entry_name: &str, user: &str, bits: usize) -> (r: Result<Encrypter, ConfigError>)
        ensures
            r matches Ok(e) ==> e.wf(),
    {
        let entry = match keyring_entry(entry_name, user) {
            Ok(e) => e,
            Err(e) => {
                return Err(e);
            },
        };
        let fetch = keyring_get_password(&entry);
        let fresh = matches!(fetch, PasswordFetch::Missing);
        let enc = match Self::build_from_fetch(fetch, bits) {
            Ok(enc) => enc,
            Err(e) => {
                return Err(e);
            },
        };
        if fresh {
            let text = match encode_key(&enc.priv_key) {
                Ok(t) => t,
                Err(e) => {
                    return Err(e);
                },
            };
            match keyring_set_password(&entry, text.as_str()) {
                Ok(_) => {},
                Err(e) => {
                    return Err(e);
                },
            }
        }
        Ok(enc)
    }

    /// Encrypt already-serialised bytes: the plaintext is cut into chunks
    /// of `key_bytes − 11` bytes — the room the padding leaves in one
    /// modulus — and each chunk becomes one modulus of ciphertext,
    /// concatenated in chunk order.
    pub fn encrypt_serded(&self, origin: &[u8]) -> (r: Result<Vec<u8>, ConfigError>)
        requires
            self.wf(),
        ensures
            origin@.len() == 0 ==> (r matches Ok(c) && c@.len() == 0),
            r matches Ok(c) ==> c@.len() == Self::ciphertext_len(
                origin@.len(),
                (self.key_bytes_spec() - 11) as nat,
                self.key_bytes_spec() as nat,
            ),
    {
        let kb = self.key_bytes();
        let chunk = kb - 11;
        let n = origin.len();
        let mut out: Vec<u8> = Vec::new();
        let mut pos: usize = 0;
        let ghost mut m: nat = 0nat;
        while pos < n
            invariant
                self.wf(),
                chunk + 11 == self.key_bytes_spec(),
                kb == self.key_bytes_spec(),
                chunk >= 1,
                n == origin@.len(),
                pos <= n,
                out@.len() == m * kb,
                pos < n ==> pos == m * chunk,
                pos == m * chunk || (pos == n && m >= 1 && (m - 1) * chunk < n && n <= m
                    * chunk),
            decreases n - pos,
        {
            let end = if n - pos > chunk {
                pos + chunk
            } else {
                n
            };
            let piece = vstd::slice::slice_subrange(origin, pos, end);
            match self.encrypt_chunk(piece) {
                Ok(mut c) => {
                    out.append(&mut c);
                    proof {
                        let m0 = m;
                        m = m + 1;
                        assert((m0 + 1) * chunk == m0 * chunk + chunk) by (nonlinear_arith);
                        assert((m0 + 1) * kb == m0 * kb + kb) by (nonlinear_arith);
                    }
                },
                Err(e) => {
                    return Err(e);
                },
            }
            pos = end;
        }
        proof {
            let c = chunk as nat;
            let k = kb as nat;
            assert(pos == n);
            if pos == m * chunk {
                if n == 0 {
                    assert(m == 0) by (nonlinear_arith)
                        requires
                            0 == m * c,
                            c >= 1,
                    ;
                    assert(Self::ciphertext_len(0, c, k) == 0) by (nonlinear_arith)
                        requires
                            c >= 1,
                    ;
                } else {
                    assert(Self::ciphertext_len(n as nat, c, k) == m * k) by (nonlinear_arith)
                        requires
                            n == m * c,
                            c >= 1,
                            n > 0,
                    ;
                }
            } else {
                assert(m >= 1 && (m - 1) * chunk < n && n <= m * chunk);
                assert(Self::ciphertext_len(n as nat, c, k) == m * k) by (nonlinear_arith)
                    requires
                        c >= 1,
                        m >= 1,
                        (m - 1) * c < n,
                        n <= m * c,
                ;
            }
        }
        Ok(out)
    }

    /// Decrypt bytes produced by [`Encrypter::encrypt_serded`]: the
    /// ciphertext is cut into chunks of one modulus, each chunk is
    /// decrypted and unpadded, and the plaintexts are concatenated in
    /// chunk order. Refused when any chunk is not a valid ciphertext
    /// under this key.
    pub fn decrypt(&self, encrypted: &[u8]) -> (r: Result<Vec<u8>, ConfigError>)
        requires
            self.wf(),
        ensures
            encrypted@.len() == 0 ==> (r matches Ok(p) && p@.len() == 0),
            r matches Ok(p) ==> p@.len() <= Self::plaintext_cap(
                encrypted@.len(),
                self.key_bytes_spec() as nat,
            ),
    {
        let kb = self.key_bytes();
        let n = encrypted.len();
        let mut out: Vec<u8> = Vec::new();
        let mut pos: usize = 0;
        let ghost mut m: nat = 0nat;
        while pos < n
            invariant
                self.wf(),
                kb == self.key_bytes_spec(),
                n == encrypted@.len(),
                pos <= n,
                out@.len() <= m * (kb - 11),
                pos < n ==> pos == m * kb,
                pos == m * kb || (pos == n && m >= 1 && (m - 1) * kb < n && n <= m * kb),
            decreases n - pos,
        {
            let end = if n - pos > kb {
                pos + kb
            } else {
                n
            };
            let piece = vstd::slice::slice_subrange(encrypted, pos, end);
            match self.decrypt_chunk(piece) {
                Ok(mut p) => {
                    out.append(&mut p);
                    proof {
                        let m0 = m;
                        m = m + 1;
                        assert((m0 + 1) * kb == m0 * kb + kb) by (nonlinear_arith);
                        assert((m0 + 1) * (kb - 11) == m0 * (kb - 11) + (kb - 11))
                            by (nonlinear_arith);
                    }
                },
                Err(e) => {
                    return Err(e);
                },
            }
            pos = end;
        }
        proof {
            let k = kb as nat;
            assert(pos == n);
            if pos == m * kb {
                if n == 0 {
                    assert(m == 0) by (nonlinear_arith)
                        requires
                            0 == m * k,
                            k >= 12,
                    ;
                } else {
                    assert(m * (k - 11) <= Self::plaintext_cap(n as nat, k))
                        by (nonlinear_arith)
                        requires
                            k >= 12,
                            m >= 1 || n == m * k,
                            n == m * k,
                            n > 0,
                    ;
                }
            } else {
                assert(m >= 1 && (m - 1) * kb < n && n <= m * kb);
                assert(m * (k - 11) <= Self::plaintext_cap(n as nat, k)) by (nonlinear_arith)
                    requires
                        k >= 12,
                        m >= 1,
                        (m - 1) * k < n,
                        n <= m * k,
                ;
            }
        }
        Ok(out)
    }
}

} // verus!
