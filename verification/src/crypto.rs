//! Key derivation, authenticated encryption, checksums and generated
//! passwords. The cryptographic work itself is done by the crates that
//! `primitives` wraps; what is proved here is how their results are put
//! together and when each operation fails.

use vstd::prelude::*;
use vstd::string::StringSliceAdditionalSpecFns;
use vstd::utf8::encode_utf8;

use crate::error::BunkerError;
use crate::primitives::{
    aead_accepts, aead_open, aead_seal, argon2_accepts, argon2_derive, argon2_hash_text,
    argon2_verify_text, argon2id_hash, base64_encode, base64_text, chacha_open, chacha_seal,
    costs_accepted, fill_random, fresh_nonce, fresh_salt_text, hex_encode, hex_lower,
    hash_lanes, is_alphanumeric, lanes_named, lanes_taken, param_views, phc_check, phc_params,
    phc_params_of, random_alphanumeric, random_below, sha256, sha256_digest, text_of,
    zeroize_bytes, Costs, MAX_LANES,
};
use crate::text::{append_chars, chars_of};
use crate::types::{
    EncryptedValue, EncryptedValueView, EncryptionConfig, GenerateOptions, MasterKey, KEY_SIZE,
    NONCE_SIZE, SALT_SIZE,
};

verus! {

/// Whether a character is easily taken for another one.
pub open spec fn is_ambiguous(c: char) -> bool {
    c == '0' || c == 'O' || c == 'o' || c == 'l' || c == '1' || c == 'I'
}

/// The test that keeps the characters that are not ambiguous.
pub open spec fn unambiguous() -> spec_fn(char) -> bool {
    |c: char| !is_ambiguous(c)
}

/// The lowercase letters.
pub open spec fn lowercase_letters() -> Seq<char> {
    "abcdefghijklmnopqrstuvwxyz"@
}

/// The uppercase letters.
pub open spec fn uppercase_letters() -> Seq<char> {
    "ABCDEFGHIJKLMNOPQRSTUVWXYZ"@
}

/// The digits.
pub open spec fn digits() -> Seq<char> {
    "0123456789"@
}

/// The symbols.
pub open spec fn symbols() -> Seq<char> {
    "!@#$%^&*()_+-=[]{}|;:,.<>?"@
}

/// The characters that a session password is made of: the letters and
/// the digits.
pub open spec fn session_charset() -> Seq<char> {
    "abcdefghijklmnopqrstuvwxyzABCDEFGHIJKLMNOPQRSTUVWXYZ0123456789"@
}

/// The characters of the classes that the options switch on, class by class.
pub open spec fn class_alphabet(options: GenerateOptions) -> Seq<char> {
    (if options.use_lowercase {
        lowercase_letters()
    } else {
        Seq::empty()
    }) + (if options.use_uppercase {
        uppercase_letters()
    } else {
        Seq::empty()
    }) + (if options.use_numbers {
        digits()
    } else {
        Seq::empty()
    }) + (if options.use_symbols {
        symbols()
    } else {
        Seq::empty()
    })
}

/// The characters that the options ask for: the custom set as it stands, or
/// else the classes, without the ambiguous characters where those are
/// excluded.
pub open spec fn requested_alphabet(options: GenerateOptions) -> Seq<char> {
    match options.custom_charset {
        Some(custom) => custom@,
        None => if options.exclude_ambiguous {
            class_alphabet(options).filter(unambiguous())
        } else {
            class_alphabet(options)
        },
    }
}

/// Whether a password made under these options may hold this character: it
/// is one that the options ask for or, where they ask for none, an ASCII
/// letter or digit.
pub open spec fn in_alphabet(options: GenerateOptions, c: char) -> bool {
    if requested_alphabet(options).len() == 0 {
        exists|b: u8| is_alphanumeric(b) && c == b as char
    } else {
        requested_alphabet(options).contains(c)
    }
}

/// The costs that a key is derived at where no others are given: 64 MiB
/// of memory, three passes and two lanes.
pub open spec fn default_costs() -> Costs {
    Costs { memory: 65536, passes: 3, lanes: 2 }
}

/// The costs that the settings of a vault ask for.
pub open spec fn costs_of(memory: u32, passes: u32, lanes: u32) -> Costs {
    Costs { memory, passes, lanes }
}

/// What deriving a key from a password and a salt at given costs gives:
/// the hash, or nothing where Argon2 refuses the costs or the lengths.
pub open spec fn derived_key_at(password: Seq<char>, salt: Seq<u8>, costs: Costs) -> Option<
    Seq<u8>,
> {
    if costs_accepted(costs) && argon2_accepts(encode_utf8(password), salt) {
        Some(
            argon2id_hash(encode_utf8(password), salt, costs.memory, costs.passes, costs.lanes),
        )
    } else {
        None
    }
}

/// What deriving a key from a password and a salt gives, at the default
/// costs.
pub open spec fn derived_key(password: Seq<char>, salt: Seq<u8>) -> Option<Seq<u8>> {
    derived_key_at(password, salt, default_costs())
}

/// Whether `value` is an encryption of `data` under `key`: a nonce of the
/// right length, the ciphertext that the cipher makes under it, and a salt.
pub open spec fn seals(value: EncryptedValueView, key: Seq<u8>, data: Seq<u8>) -> bool {
    &&& value.nonce.len() == NONCE_SIZE
    &&& value.salt.len() == SALT_SIZE
    &&& value.ciphertext == aead_seal(key, value.nonce, data)
    &&& value.ciphertext.len() == data.len() + 16
    &&& aead_open(key, value.nonce, value.ciphertext) == Some(data)
}

/// What decrypting `value` under `key` gives, if the tag is the right one.
pub open spec fn opened(value: EncryptedValueView, key: Seq<u8>) -> Option<Seq<u8>> {
    aead_open(key, value.nonce, value.ciphertext)
}

/// What decrypting with a password gives: the key derivation may fail, and
/// then the opening of the ciphertext under the derived key.
pub open spec fn opened_with_password(
    ciphertext: Seq<u8>,
    nonce: Seq<u8>,
    salt: Seq<u8>,
    password: Seq<char>,
) -> Result<Seq<u8>, BunkerError> {
    match derived_key(password, salt) {
        None => Err(BunkerError::KdfFailure),
        Some(key) => match aead_open(key, nonce, ciphertext) {
            None => Err(BunkerError::DecryptFailure),
            Some(data) => Ok(data),
        },
    }
}

/// The view of the outcome of an operation that gives bytes.
pub open spec fn bytes_outcome(r: Result<Vec<u8>, BunkerError>) -> Result<Seq<u8>, BunkerError> {
    match r {
        Ok(bytes) => Ok(bytes@),
        Err(e) => Err(e),
    }
}

/// Whether a password hash string is one, and if so whether the password
/// matches it: what Argon2 finds, but for a string that names more lanes
/// than Argon2 takes, which matches no password.
pub open spec fn password_check(password: Seq<u8>, hash: Seq<char>) -> Option<bool> {
    if lanes_taken(hash) {
        phc_check(password, hash)
    } else {
        Some(false)
    }
}

/// The cryptographic operations of a vault.
pub struct Crypto;

impl Crypto {
    /// Derives a key from a password and a salt with Argon2id at the costs
    /// that the settings name. The key depends on the password, the salt
    /// and the costs alone. Fails with `KdfFailure` where Argon2 refuses
    /// the costs, the salt is shorter than 8 bytes, or the password or the
    /// salt is longer than Argon2 takes.
    pub fn derive_key_with(password: &str, salt: &[u8], settings: &EncryptionConfig) -> (r: Result<
        MasterKey,
        BunkerError,
    >)
        ensures
            match r {
                Ok(key) => derived_key_at(
                    password@,
                    salt@,
                    costs_of(
                        settings.kdf_memory,
                        settings.kdf_iterations,
                        settings.kdf_parallelism,
                    ),
                ) == Some(key@) && key.wf(),
                Err(e) => derived_key_at(
                    password@,
                    salt@,
                    costs_of(
                        settings.kdf_memory,
                        settings.kdf_iterations,
                        settings.kdf_parallelism,
                    ),
                ) is None && e == BunkerError::KdfFailure,
            },
    {
        let costs = Costs {
            memory: settings.kdf_memory,
            passes: settings.kdf_iterations,
            lanes: settings.kdf_parallelism,
        };
        match Self::derive_at(password, salt, costs) {
            Ok(key) => Ok(MasterKey::new(key)),
            Err(e) => Err(e),
        }
    }

    /// Derives 32 bytes from a password and a salt at given costs.
    fn derive_at(password: &str, salt: &[u8], costs: Costs) -> (r: Result<Vec<u8>, BunkerError>)
        ensures
            match r {
                Ok(key) => derived_key_at(password@, salt@, costs) == Some(key@) && key@.len()
                    == KEY_SIZE,
                Err(e) => derived_key_at(password@, salt@, costs) is None && e
                    == BunkerError::KdfFailure,
            },
    {
        if costs.lanes > 0xFF_FFFF {
            return Err(BunkerError::KdfFailure);
        }
        let mut key: Vec<u8> = zeros(KEY_SIZE);
        if argon2_derive(password.as_bytes(), salt, costs, &mut key) {
            Ok(key)
        } else {
            Err(BunkerError::KdfFailure)
        }
    }

    /// Derives a key from a password and a salt with Argon2id at the
    /// default costs. The key depends on the two alone. Fails with
    /// `KdfFailure` where the salt is shorter than 8 bytes or one of the
    /// two is longer than Argon2 takes.
    pub fn derive_key(password: &str, salt: &[u8]) -> (r: Result<MasterKey, BunkerError>)
        ensures
            match r {
                Ok(key) => derived_key(password@, salt@) == Some(key@) && key.wf(),
                Err(e) => derived_key(password@, salt@) is None && e == BunkerError::KdfFailure,
            },
    {
        match Self::derive_session_key(password, salt) {
            Ok(key) => Ok(MasterKey::new(key)),
            Err(e) => Err(e),
        }
    }

    /// A fresh random salt of `SALT_SIZE` bytes.
    pub fn generate_salt() -> (salt: Vec<u8>)
        ensures
            salt@.len() == SALT_SIZE,
    {
        let mut salt: Vec<u8> = zeros(SALT_SIZE);
        fill_random(&mut salt);
        salt
    }

    /// Encrypts `data` under `key` with a fresh nonce and a fresh salt.
    /// Fails with `EncryptFailure` exactly where the data is longer than
    /// the cipher takes.
    pub fn encrypt(data: &[u8], key: &MasterKey) -> (r: Result<EncryptedValue, BunkerError>)
        requires
            key.wf(),
        ensures
            match r {
                Ok(value) => aead_accepts(data@.len()) && seals(value@, key@, data@),
                Err(e) => !aead_accepts(data@.len()) && e == BunkerError::EncryptFailure,
            },
    {
        let nonce = fresh_nonce();
        let salt = Self::generate_salt();
        match chacha_seal(key.key.as_slice(), nonce.as_slice(), data) {
            Some(ciphertext) => Ok(EncryptedValue { nonce, ciphertext, salt }),
            None => Err(BunkerError::EncryptFailure),
        }
    }

    /// Decrypts `encrypted` under `key`. Fails with `DecryptFailure` where
    /// the tag does not match: the value was changed or the key is another.
    pub fn decrypt(encrypted: &EncryptedValue, key: &MasterKey) -> (r: Result<
        Vec<u8>,
        BunkerError,
    >)
        requires
            key.wf(),
            encrypted.nonce@.len() == NONCE_SIZE,
        ensures
            match r {
                Ok(data) => opened(encrypted@, key@) == Some(data@),
                Err(e) => opened(encrypted@, key@) is None && e == BunkerError::DecryptFailure,
            },
    {
        match chacha_open(
            key.key.as_slice(),
            encrypted.nonce.as_slice(),
            encrypted.ciphertext.as_slice(),
        ) {
            Some(data) => Ok(data),
            None => Err(BunkerError::DecryptFailure),
        }
    }

    /// What `hash_password` returns for what the hasher made.
    pub fn verifier_from(hashed: Option<String>) -> (r: Result<String, BunkerError>)
        ensures
            match hashed {
                Some(h) => r == Ok::<String, BunkerError>(h),
                None => r == Err::<String, BunkerError>(BunkerError::KdfFailure),
            },
    {
        match hashed {
            Some(h) => Ok(h),
            None => Err(BunkerError::KdfFailure),
        }
    }

    /// Hashes a password under a fresh salt into a password hash string.
    /// The password verifies against the string that comes back.
    pub fn hash_password(password: &str) -> (r: Result<String, BunkerError>)
        ensures
            match r {
                Ok(hash) => password_check(encode_utf8(password@), hash@) == Some(true),
                Err(e) => e == BunkerError::KdfFailure,
            },
    {
        let salt = fresh_salt_text();
        Self::verifier_from(argon2_hash_text(password.as_bytes(), salt.as_str()))
    }

    /// The number of lanes that a password hash string names: the number
    /// of its last parameter `p` that has one. There is none where the
    /// text is no password hash string or names no lanes.
    pub fn named_lanes(hash: &str) -> (r: Option<u32>)
        ensures
            r == hash_lanes(hash@),
    {
        let params = match phc_params(hash) {
            None => {
                return None;
            },
            Some(params) => params,
        };
        let mut lanes: Option<u32> = None;
        let mut i: usize = 0;
        assert(param_views(params@).take(0) =~= Seq::empty());
        while i < params.len()
            invariant
                i <= params.len(),
                phc_params_of(hash@) == Some(param_views(params@)),
                lanes == lanes_named(param_views(params@).take(i as int)),
            decreases params.len() - i,
        {
            proof {
                let all = param_views(params@);
                assert(all.take(i + 1).drop_last() =~= all.take(i as int));
                assert(all.take(i + 1).last() == (params@[i as int].0@, params@[i as int].1));
                reveal_strlit("p");
                assert("p"@ =~= seq!['p']);
            }
            if crate::text::chars_equal(params[i].0.as_str(), "p") {
                match params[i].1 {
                    Some(n) => {
                        lanes = Some(n);
                    },
                    None => {},
                }
            }
            i += 1;
        }
        assert(param_views(params@).take(params@.len() as int) =~= param_views(params@));
        lanes
    }

    /// Whether a password matches a password hash string. Fails where the
    /// string is none. A string that names more lanes than Argon2 takes
    /// matches no password.
    pub fn verify_password(password: &str, hash: &str) -> (r: Result<bool, BunkerError>)
        ensures
            match password_check(encode_utf8(password@), hash@) {
                Some(matches) => r == Ok::<bool, BunkerError>(matches),
                None => r matches Err(BunkerError::Other(m)) && m@ == "Invalid password hash"@,
            },
    {
        match Self::named_lanes(hash) {
            Some(lanes) => {
                if lanes > MAX_LANES {
                    return Ok(false);
                }
            },
            None => {},
        }
        match argon2_verify_text(password.as_bytes(), hash) {
            Some(matches) => Ok(matches),
            None => Err(BunkerError::Other("Invalid password hash".to_string())),
        }
    }

    /// The characters that the options ask for, as `requested_alphabet`
    /// defines them.
    pub fn charset(options: &GenerateOptions) -> (r: Vec<char>)
        ensures
            r@ == requested_alphabet(*options),
    {
        match &options.custom_charset {
            Some(custom) => chars_of(custom.as_str()),
            None => {
                let mut all: Vec<char> = Vec::new();
                if options.use_lowercase {
                    append_chars(&mut all, "abcdefghijklmnopqrstuvwxyz");
                }
                if options.use_uppercase {
                    append_chars(&mut all, "ABCDEFGHIJKLMNOPQRSTUVWXYZ");
                }
                if options.use_numbers {
                    append_chars(&mut all, "0123456789");
                }
                if options.use_symbols {
                    append_chars(&mut all, "!@#$%^&*()_+-=[]{}|;:,.<>?");
                }
                assert(all@ =~= class_alphabet(*options));
                if options.exclude_ambiguous {
                    without_ambiguous(&all)
                } else {
                    all
                }
            },
        }
    }

    /// A random password of `options.length` characters, each drawn on its
    /// own from the characters that the options ask for, or from the ASCII
    /// letters and digits where they ask for none.
    pub fn generate_password(options: &GenerateOptions) -> (password: String)
        ensures
            password@.len() == options.length,
            forall|i: int| 0 <= i < password@.len() ==> in_alphabet(*options, #[trigger] password@[i]),
    {
        let charset = Self::charset(options);
        let mut chars: Vec<char> = Vec::new();
        let mut i: usize = 0;
        while i < options.length
            invariant
                i <= options.length,
                chars@.len() == i,
                charset@ == requested_alphabet(*options),
                forall|k: int| 0 <= k < i ==> in_alphabet(*options, #[trigger] chars@[k]),
            decreases options.length - i,
        {
            let c: char = if charset.len() == 0 {
                random_alphanumeric() as char
            } else {
                let at: usize = random_below(charset.len());
                charset[at]
            };
            chars.push(c);
            i += 1;
        }
        text_of(&chars)
    }

    /// The SHA-256 digest of `data` in lowercase hexadecimal.
    pub fn checksum(data: &[u8]) -> (r: String)
        ensures
            r@ == hex_lower(sha256(data@)),
            r@.len() == 64,
    {
        let digest = sha256_digest(data);
        proof {
            lemma_hex_lower_len(digest@);
        }
        hex_encode(digest.as_slice())
    }

    /// Encrypts `data` under a key derived from `password` and a fresh
    /// salt, and returns the ciphertext, which is 16 bytes longer than the
    /// data, the nonce and the salt. Fails with
    /// `KdfFailure` exactly where the password is longer than Argon2
    /// takes, and else with `EncryptFailure` exactly where the data is
    /// longer than the cipher takes.
    pub fn encrypt_with_password(data: &[u8], password: &str) -> (r: Result<
        (Vec<u8>, Vec<u8>, Vec<u8>),
        BunkerError,
    >)
        ensures
            match r {
                Ok((ciphertext, nonce, salt)) => {
                    &&& encode_utf8(password@).len() <= 0xFFFF_FFFF
                    &&& aead_accepts(data@.len())
                    &&& salt@.len() == SALT_SIZE
                    &&& nonce@.len() == NONCE_SIZE
                    &&& ciphertext@.len() == data@.len() + 16
                    &&& opened_with_password(ciphertext@, nonce@, salt@, password@) == Ok::<
                        Seq<u8>,
                        BunkerError,
                    >(data@)
                },
                Err(e) => if encode_utf8(password@).len() > 0xFFFF_FFFF {
                    e == BunkerError::KdfFailure
                } else {
                    !aead_accepts(data@.len()) && e == BunkerError::EncryptFailure
                },
            },
    {
        let salt = Self::generate_salt();
        match Self::derive_key(password, salt.as_slice()) {
            Err(e) => Err(e),
            Ok(key) => match Self::encrypt(data, &key) {
                Err(e) => Err(e),
                Ok(encrypted) => Ok((encrypted.ciphertext, encrypted.nonce, salt)),
            },
        }
    }

    /// Decrypts what `encrypt_with_password` made. Fails with `KdfFailure`
    /// where the key cannot be derived and with `DecryptFailure` where the
    /// tag does not match.
    pub fn decrypt_with_password(
        ciphertext: &[u8],
        nonce: &[u8],
        salt: &[u8],
        password: &str,
    ) -> (r: Result<Vec<u8>, BunkerError>)
        requires
            nonce@.len() == NONCE_SIZE,
        ensures
            bytes_outcome(r) == opened_with_password(ciphertext@, nonce@, salt@, password@),
    {
        match Self::derive_key(password, salt) {
            Err(e) => Err(e),
            Ok(key) => match chacha_open(key.key.as_slice(), nonce, ciphertext) {
                Some(data) => Ok(data),
                None => Err(BunkerError::DecryptFailure),
            },
        }
    }

    /// A random token: `length` ASCII letters and digits, in base 64.
    pub fn generate_token(length: usize) -> (token: String)
        ensures
            exists|raw: Seq<u8>|
                {
                    &&& raw.len() == length
                    &&& forall|i: int| 0 <= i < raw.len() ==> is_alphanumeric(#[trigger] raw[i])
                    &&& token@ == base64_text(raw)
                },
    {
        let mut raw: Vec<u8> = Vec::new();
        let mut i: usize = 0;
        while i < length
            invariant
                i <= length,
                raw@.len() == i,
                forall|k: int| 0 <= k < i ==> is_alphanumeric(#[trigger] raw@[k]),
            decreases length - i,
        {
            raw.push(random_alphanumeric());
            i += 1;
        }
        base64_encode(raw.as_slice())
    }

    /// A random password for a session: 32 characters, each a letter or a
    /// digit.
    pub fn generate_session_password() -> (password: String)
        ensures
            password@.len() == 32,
            forall|i: int|
                0 <= i < password@.len() ==> session_charset().contains(#[trigger] password@[i]),
    {
        let charset = chars_of("abcdefghijklmnopqrstuvwxyzABCDEFGHIJKLMNOPQRSTUVWXYZ0123456789");
        let mut chars: Vec<char> = Vec::new();
        proof {
            reveal_strlit("abcdefghijklmnopqrstuvwxyzABCDEFGHIJKLMNOPQRSTUVWXYZ0123456789");
        }
        let mut i: usize = 0;
        while i < 32
            invariant
                i <= 32,
                chars@.len() == i,
                charset@ == session_charset(),
                charset@.len() > 0,
                forall|k: int| 0 <= k < i ==> session_charset().contains(#[trigger] chars@[k]),
            decreases 32 - i,
        {
            let at: usize = random_below(charset.len());
            chars.push(charset[at]);
            i += 1;
        }
        text_of(&chars)
    }

    /// Overwrites a buffer with zeros and gives it up.
    pub fn secure_clear(data: Vec<u8>) {
        let mut data = data;
        zeroize_bytes(&mut data);
    }

    /// Derives the key that wraps a master key for a session. It is the key
    /// that `derive_key` derives from the same input and salt.
    pub fn derive_session_key(user_input: &str, salt: &[u8]) -> (r: Result<Vec<u8>, BunkerError>)
        ensures
            match r {
                Ok(key) => derived_key(user_input@, salt@) == Some(key@) && key@.len() == KEY_SIZE,
                Err(e) => derived_key(user_input@, salt@) is None && e == BunkerError::KdfFailure,
            },
    {
        Self::derive_at(user_input, salt, Costs { memory: 65536, passes: 3, lanes: 2 })
    }

    /// Encrypts a master key under a session key with a fresh nonce, and
    /// returns the ciphertext and the nonce. The master key comes back from
    /// them under the same session key.
    pub fn encrypt_master_key_for_session(master_key: &MasterKey, session_key: &[u8]) -> (r: Result<
        (Vec<u8>, Vec<u8>),
        BunkerError,
    >)
        requires
            session_key@.len() == KEY_SIZE,
        ensures
            match r {
                Ok((ciphertext, nonce)) => {
                    &&& aead_accepts(master_key@.len())
                    &&& nonce@.len() == NONCE_SIZE
                    &&& ciphertext@.len() == master_key@.len() + 16
                    &&& ciphertext@ == aead_seal(session_key@, nonce@, master_key@)
                    &&& aead_open(session_key@, nonce@, ciphertext@) == Some(master_key@)
                },
                Err(e) => !aead_accepts(master_key@.len()) && e == BunkerError::EncryptFailure,
            },
    {
        let nonce = fresh_nonce();
        match chacha_seal(session_key, nonce.as_slice(), master_key.key.as_slice()) {
            Some(ciphertext) => Ok((ciphertext, nonce)),
            None => Err(BunkerError::EncryptFailure),
        }
    }

    /// Recovers a master key from what `encrypt_master_key_for_session`
    /// made. Fails with `DecryptFailure` where the tag does not match.
    pub fn decrypt_master_key_from_session(
        ciphertext: &[u8],
        nonce: &[u8],
        session_key: &[u8],
    ) -> (r: Result<MasterKey, BunkerError>)
        requires
            session_key@.len() == KEY_SIZE,
            nonce@.len() == NONCE_SIZE,
        ensures
            match r {
                Ok(key) => aead_open(session_key@, nonce@, ciphertext@) == Some(key@),
                Err(e) => aead_open(session_key@, nonce@, ciphertext@) is None && e
                    == BunkerError::DecryptFailure,
            },
    {
        match chacha_open(session_key, nonce, ciphertext) {
            Some(key) => Ok(MasterKey::new(key)),
            None => Err(BunkerError::DecryptFailure),
        }
    }
}

/// A vector of `len` zero bytes.
pub fn zeros(len: usize) -> (r: Vec<u8>)
    ensures
        r@.len() == len,
        forall|i: int| 0 <= i < len ==> r@[i] == 0,
{
    let mut out: Vec<u8> = Vec::new();
    let mut i: usize = 0;
    while i < len
        invariant
            i <= len,
            out@.len() == i,
            forall|k: int| 0 <= k < i ==> out@[k] == 0,
        decreases len - i,
    {
        out.push(0);
        i += 1;
    }
    out
}

/// The characters of `chars` that are not ambiguous, in order.
pub fn without_ambiguous(chars: &Vec<char>) -> (r: Vec<char>)
    ensures
        r@ == chars@.filter(unambiguous()),
{
    let mut out: Vec<char> = Vec::new();
    let mut i: usize = 0;
    assert(chars@.take(0) =~= Seq::empty());
    while i < chars.len()
        invariant
            i <= chars.len(),
            out@ == chars@.take(i as int).filter(unambiguous()),
        decreases chars.len() - i,
    {
        let c: char = chars[i];
        proof {
            let head = chars@.take(i as int);
            assert(chars@.take(i + 1) =~= head.push(c));
            head.lemma_filter_push(c, unambiguous());
            assert(chars@.take((i + 1) as int) == head.push(c));
        }
        if !(c == '0' || c == 'O' || c == 'o' || c == 'l' || c == '1' || c == 'I') {
            out.push(c);
        }
        i += 1;
    }
    assert(chars@.take(chars.len() as int) =~= chars@);
    out
}

/// A byte string in hexadecimal has two characters for each byte.
pub proof fn lemma_hex_lower_len(bytes: Seq<u8>)
    ensures
        hex_lower(bytes).len() == 2 * bytes.len(),
    decreases bytes.len(),
{
    if bytes.len() > 0 {
        lemma_hex_lower_len(bytes.drop_last());
    }
}

/// Different digits below sixteen have different characters.
pub proof fn lemma_hex_digits_differ(i: int, j: int)
    requires
        0 <= i < 16,
        0 <= j < 16,
        crate::primitives::hex_digits()[i] == crate::primitives::hex_digits()[j],
    ensures
        i == j,
{
    let d = crate::primitives::hex_digits();
    assert(d[0] == '0' && d[1] == '1' && d[2] == '2' && d[3] == '3' && d[4] == '4' && d[5] == '5'
        && d[6] == '6' && d[7] == '7' && d[8] == '8' && d[9] == '9' && d[10] == 'a' && d[11]
        == 'b' && d[12] == 'c' && d[13] == 'd' && d[14] == 'e' && d[15] == 'f');
}

/// Different byte strings have different hexadecimal forms.
pub proof fn lemma_hex_lower_injective(a: Seq<u8>, b: Seq<u8>)
    requires
        hex_lower(a) == hex_lower(b),
    ensures
        a == b,
    decreases a.len(),
{
    lemma_hex_lower_len(a);
    lemma_hex_lower_len(b);
    if a.len() > 0 {
        let x = hex_lower(a);
        let y = hex_lower(b);
        lemma_hex_lower_len(a.drop_last());
        lemma_hex_lower_len(b.drop_last());
        let n = hex_lower(a.drop_last()).len() as int;
        assert(x[n] == crate::primitives::hex_digits()[a.last() as int / 16]);
        assert(x[n + 1] == crate::primitives::hex_digits()[a.last() as int % 16]);
        assert(y[n] == crate::primitives::hex_digits()[b.last() as int / 16]);
        assert(y[n + 1] == crate::primitives::hex_digits()[b.last() as int % 16]);
        lemma_hex_digits_differ(a.last() as int / 16, b.last() as int / 16);
        lemma_hex_digits_differ(a.last() as int % 16, b.last() as int % 16);
        assert(a.last() == b.last());
        assert(hex_lower(a.drop_last()) =~= x.take(n));
        assert(hex_lower(b.drop_last()) =~= y.take(n));
        lemma_hex_lower_injective(a.drop_last(), b.drop_last());
        assert(a =~= a.drop_last().push(a.last()));
        assert(b =~= b.drop_last().push(b.last()));
    } else {
        assert(a =~= b);
    }
}

/// Decrypting what encryption made, under the same key, gives the data
/// back.
pub proof fn lemma_decrypt_inverts_encrypt(value: EncryptedValueView, key: Seq<u8>, data: Seq<u8>)
    requires
        seals(value, key, data),
    ensures
        opened(value, key) == Some(data),
{
}

/// A derived key is a function of the password and the salt: two
/// derivations from equal inputs give equal keys.
pub proof fn lemma_derive_key_deterministic(
    password1: Seq<char>,
    salt1: Seq<u8>,
    password2: Seq<char>,
    salt2: Seq<u8>,
)
    requires
        password1 == password2,
        salt1 == salt2,
    ensures
        derived_key(password1, salt1) == derived_key(password2, salt2),
{
}

/// Whether the options switch a class on.
pub open spec fn some_class(options: GenerateOptions) -> bool {
    options.use_lowercase || options.use_uppercase || options.use_numbers || options.use_symbols
}

/// Where no custom set is given and a class is switched on, the options
/// ask for some character: each class holds one that is not ambiguous.
pub proof fn lemma_classes_not_empty(options: GenerateOptions)
    requires
        options.custom_charset is None,
        some_class(options),
    ensures
        requested_alphabet(options).len() > 0,
{
    reveal_strlit("abcdefghijklmnopqrstuvwxyz");
    reveal_strlit("ABCDEFGHIJKLMNOPQRSTUVWXYZ");
    reveal_strlit("0123456789");
    reveal_strlit("!@#$%^&*()_+-=[]{}|;:,.<>?");
    let all = class_alphabet(options);
    let at: int = if options.use_lowercase {
        0
    } else if options.use_uppercase {
        0
    } else if options.use_numbers {
        2
    } else {
        0
    };
    assert(0 <= at < all.len());
    let c = all[at];
    assert(c == 'a' || c == 'A' || c == '2' || c == '!');
    if options.exclude_ambiguous {
        assert(unambiguous()(c));
        all.lemma_filter_contains(unambiguous(), at);
    }
}

/// Where ambiguous characters are excluded, no custom set is given and a
/// class is switched on, no character that a password may hold is
/// ambiguous.
pub proof fn lemma_no_ambiguous(options: GenerateOptions, c: char)
    requires
        options.exclude_ambiguous,
        options.custom_charset is None,
        some_class(options),
        in_alphabet(options, c),
    ensures
        !is_ambiguous(c),
{
    lemma_classes_not_empty(options);
    let i = choose|i: int|
        0 <= i < requested_alphabet(options).len() && requested_alphabet(options)[i] == c;
    class_alphabet(options).lemma_filter_pred(unambiguous(), i);
}

/// Where a single class is switched on and no custom set is given, every
/// character that a password may hold is one of that class.
pub proof fn lemma_single_class(options: GenerateOptions, c: char)
    requires
        options.custom_charset is None,
        some_class(options),
        in_alphabet(options, c),
    ensures
        options.use_lowercase && !options.use_uppercase && !options.use_numbers
            && !options.use_symbols ==> lowercase_letters().contains(c),
        !options.use_lowercase && options.use_uppercase && !options.use_numbers
            && !options.use_symbols ==> uppercase_letters().contains(c),
        !options.use_lowercase && !options.use_uppercase && options.use_numbers
            && !options.use_symbols ==> digits().contains(c),
        !options.use_lowercase && !options.use_uppercase && !options.use_numbers
            && options.use_symbols ==> symbols().contains(c),
{
    lemma_classes_not_empty(options);
    let all = class_alphabet(options);
    if options.exclude_ambiguous {
        all.lemma_filter_contains_rev(unambiguous(), c);
    }
    assert(all.contains(c));
    let e = Seq::<char>::empty();
    assert(lowercase_letters() + e + e + e =~= lowercase_letters());
    assert(e + uppercase_letters() + e + e =~= uppercase_letters());
    assert(e + e + digits() + e =~= digits());
    assert(e + e + e + symbols() =~= symbols());
}

} // verus!
