use bunker::crypto::Crypto;
use bunker::error::BunkerError;
use bunker::types::{EncryptedValue, EncryptionConfig, GenerateOptions, MasterKey};

fn options(length: usize) -> GenerateOptions {
    GenerateOptions {
        length,
        use_uppercase: false,
        use_lowercase: false,
        use_numbers: false,
        use_symbols: false,
        exclude_ambiguous: false,
        custom_charset: None,
    }
}

#[test]
fn test_encrypt_decrypt() {
    let password = "test_password";
    let salt = Crypto::generate_salt();
    let key = Crypto::derive_key(password, &salt).unwrap();

    let plaintext = b"secret data";
    let encrypted = Crypto::encrypt(plaintext, &key).unwrap();
    let decrypted = Crypto::decrypt(&encrypted, &key).unwrap();

    assert_eq!(plaintext.to_vec(), decrypted);
}

#[test]
fn test_password_generation() {
    let options = GenerateOptions::default();
    let password = Crypto::generate_password(&options);

    assert_eq!(password.len(), options.length);
    assert!(!password.is_empty());
}

#[test]
fn encrypt_gives_sizes_of_the_format() {
    let key = MasterKey::new(vec![7u8; 32]);
    let value = Crypto::encrypt(b"hunter2", &key).unwrap();
    assert_eq!(value.nonce.len(), 12);
    assert_eq!(value.salt.len(), 32);
    assert_eq!(value.ciphertext.len(), 7 + 16);
    assert_ne!(&value.ciphertext[..7], b"hunter2");
}

#[test]
fn encrypt_twice_gives_different_nonces() {
    let key = MasterKey::new(vec![7u8; 32]);
    let a = Crypto::encrypt(b"same", &key).unwrap();
    let b = Crypto::encrypt(b"same", &key).unwrap();
    assert_ne!(a.nonce, b.nonce);
    assert_ne!(a.ciphertext, b.ciphertext);
}

#[test]
fn decrypt_inverts_encrypt_for_empty_and_long_data() {
    let key = MasterKey::new(vec![1u8; 32]);
    for data in [Vec::new(), vec![0u8; 1], vec![0xabu8; 5000]] {
        let value = Crypto::encrypt(&data, &key).unwrap();
        assert_eq!(Crypto::decrypt(&value, &key).unwrap(), data);
    }
}

#[test]
fn decrypt_with_another_key_fails() {
    let key = MasterKey::new(vec![1u8; 32]);
    let other = MasterKey::new(vec![2u8; 32]);
    let value = Crypto::encrypt(b"secret data", &key).unwrap();
    assert_eq!(Crypto::decrypt(&value, &other), Err(BunkerError::DecryptFailure));
}

#[test]
fn decrypt_of_a_changed_ciphertext_fails() {
    let key = MasterKey::new(vec![1u8; 32]);
    let mut value = Crypto::encrypt(b"secret data", &key).unwrap();
    value.ciphertext[0] ^= 1;
    assert_eq!(Crypto::decrypt(&value, &key), Err(BunkerError::DecryptFailure));
}

#[test]
fn decrypt_of_less_than_a_tag_fails() {
    let key = MasterKey::new(vec![1u8; 32]);
    let value = EncryptedValue { nonce: vec![0u8; 12], ciphertext: vec![0u8; 15], salt: Vec::new() };
    assert_eq!(Crypto::decrypt(&value, &key), Err(BunkerError::DecryptFailure));
}

#[test]
fn decrypt_of_a_known_ciphertext() {
    // ChaCha20-Poly1305 of the empty message under the zero key and nonce
    // is the tag alone.
    let key = MasterKey::new(vec![0u8; 32]);
    let value = EncryptedValue {
        nonce: vec![0u8; 12],
        ciphertext: vec![
            0x4e, 0xb9, 0x72, 0xc9, 0xa8, 0xfb, 0x3a, 0x1b, 0x38, 0x2b, 0xb4, 0xd3, 0x6f, 0x5f,
            0xfa, 0xd1,
        ],
        salt: Vec::new(),
    };
    assert_eq!(Crypto::decrypt(&value, &key), Ok(Vec::new()));
}

#[test]
fn derive_key_is_deterministic() {
    let salt = [9u8; 16];
    let a = Crypto::derive_key("correct horse", &salt).unwrap();
    let b = Crypto::derive_key("correct horse", &salt).unwrap();
    assert_eq!(a.key, b.key);
    assert_eq!(a.key.len(), 32);
    assert!(a.is_well_formed());
}

#[test]
fn derive_key_depends_on_the_salt() {
    let a = Crypto::derive_key("correct horse", &[9u8; 16]).unwrap();
    let b = Crypto::derive_key("correct horse", &[8u8; 16]).unwrap();
    assert_ne!(a.key, b.key);
    assert_ne!(a.key, vec![0u8; 32]);
}

#[test]
fn derive_key_depends_on_the_password() {
    let a = Crypto::derive_key("correct horse", &[9u8; 16]).unwrap();
    let c = Crypto::derive_key("correct horsf", &[9u8; 16]).unwrap();
    assert_ne!(a.key, c.key);
}

#[test]
fn derive_key_runs_at_the_default_costs() {
    let key = Crypto::derive_key("password", b"somesalt").unwrap();
    assert_eq!(key.key.len(), 32);
    let settings = EncryptionConfig::default();
    let with = Crypto::derive_key_with("password", b"somesalt", &settings).unwrap();
    assert_eq!(key.key, with.key);
}

#[test]
fn the_session_key_is_derived_as_a_master_key_is() {
    let key = Crypto::derive_key("password", b"somesalt").unwrap();
    let again = Crypto::derive_session_key("password", b"somesalt").unwrap();
    assert_eq!(key.key, again);
}

#[test]
fn derive_key_depends_on_the_costs() {
    let mut settings = EncryptionConfig::default();
    settings.kdf_memory = 64;
    settings.kdf_iterations = 1;
    settings.kdf_parallelism = 1;
    let a = Crypto::derive_key_with("password", b"somesalt", &settings).unwrap();
    settings.kdf_iterations = 2;
    let b = Crypto::derive_key_with("password", b"somesalt", &settings).unwrap();
    settings.kdf_memory = 65;
    let c = Crypto::derive_key_with("password", b"somesalt", &settings).unwrap();
    settings.kdf_parallelism = 2;
    let d = Crypto::derive_key_with("password", b"somesalt", &settings).unwrap();
    assert_ne!(a.key, b.key);
    assert_ne!(b.key, c.key);
    assert_ne!(c.key, d.key);
}

#[test]
fn derive_key_refuses_costs_that_argon2_does_not_take() {
    let costs = |memory: u32, passes: u32, lanes: u32| {
        let mut settings = EncryptionConfig::default();
        settings.kdf_memory = memory;
        settings.kdf_iterations = passes;
        settings.kdf_parallelism = lanes;
        Crypto::derive_key_with("password", b"somesalt", &settings)
    };
    assert!(costs(8, 1, 1).is_ok());
    assert!(costs(16, 1, 2).is_ok());
    assert!(matches!(costs(7, 1, 1), Err(BunkerError::KdfFailure)));
    assert!(matches!(costs(15, 1, 2), Err(BunkerError::KdfFailure)));
    assert!(matches!(costs(64, 0, 1), Err(BunkerError::KdfFailure)));
    assert!(matches!(costs(64, 1, 0), Err(BunkerError::KdfFailure)));
    assert!(matches!(costs(u32::MAX, 1, 0x100_0000), Err(BunkerError::KdfFailure)));
    assert!(matches!(costs(u32::MAX, 1, u32::MAX), Err(BunkerError::KdfFailure)));
}

#[test]
fn derive_key_refuses_a_short_salt() {
    assert!(matches!(Crypto::derive_key("pw", &[1u8; 7]), Err(BunkerError::KdfFailure)));
    assert!(Crypto::derive_key("pw", &[1u8; 8]).is_ok());
    assert_eq!(Crypto::derive_session_key("pw", &[]), Err(BunkerError::KdfFailure));
}

#[test]
fn generate_salt_has_the_size_of_the_format() {
    let a = Crypto::generate_salt();
    let b = Crypto::generate_salt();
    assert_eq!(a.len(), 32);
    assert_ne!(a, b);
}

#[test]
fn checksum_of_known_data() {
    assert_eq!(
        Crypto::checksum(b""),
        "e3b0c44298fc1c149afbf4c8996fb92427ae41e4649b934ca495991b7852b855"
    );
    assert_eq!(
        Crypto::checksum(b"abc"),
        "ba7816bf8f01cfea414140de5dae2223b00361a396177a9cb410ff61f20015ad"
    );
}

#[test]
fn password_round_trip() {
    let (ciphertext, nonce, salt) = Crypto::encrypt_with_password(b"bundle", "exp-pw").unwrap();
    assert_eq!(nonce.len(), 12);
    assert_eq!(salt.len(), 32);
    assert_eq!(
        Crypto::decrypt_with_password(&ciphertext, &nonce, &salt, "exp-pw"),
        Ok(b"bundle".to_vec())
    );
    assert_eq!(
        Crypto::decrypt_with_password(&ciphertext, &nonce, &[0u8; 3], "exp-pw"),
        Err(BunkerError::KdfFailure)
    );
}

#[test]
fn another_password_does_not_decrypt() {
    let (ciphertext, nonce, salt) = Crypto::encrypt_with_password(b"bundle", "exp-pw").unwrap();
    assert_eq!(
        Crypto::decrypt_with_password(&ciphertext, &nonce, &salt, "other"),
        Err(BunkerError::DecryptFailure)
    );
}

#[test]
fn hash_and_verify_password() {
    let hash = Crypto::hash_password("s3ssion").unwrap();
    assert!(hash.starts_with("$argon2id$"));
    assert_eq!(Crypto::verify_password("s3ssion", &hash), Ok(true));
    assert_eq!(Crypto::verify_password("other", &hash), Ok(false));
    assert_eq!(
        Crypto::verify_password("s3ssion", "no hash"),
        Err(BunkerError::Other("Invalid password hash".to_string()))
    );
    assert_eq!(Crypto::verifier_from(None), Err(BunkerError::KdfFailure));
    assert_eq!(Crypto::verifier_from(Some("h".to_string())), Ok("h".to_string()));
}

#[test]
fn session_key_round_trip() {
    let master = MasterKey::new(vec![5u8; 32]);
    let session_key = vec![6u8; 32];
    let (ciphertext, nonce) =
        Crypto::encrypt_master_key_for_session(&master, &session_key).unwrap();
    assert_eq!(nonce.len(), 12);
    assert_eq!(ciphertext.len(), 48);
    let back = Crypto::decrypt_master_key_from_session(&ciphertext, &nonce, &session_key).unwrap();
    assert_eq!(back.key, master.key);
    assert!(matches!(
        Crypto::decrypt_master_key_from_session(&ciphertext, &nonce, &[7u8; 32]),
        Err(BunkerError::DecryptFailure)
    ));
}

#[test]
fn generate_token_is_base64_of_letters_and_digits() {
    let token = Crypto::generate_token(9);
    // Nine bytes make twelve characters of base 64 without padding.
    assert_eq!(token.len(), 12);
    assert!(!token.contains('='));
    assert_eq!(Crypto::generate_token(0), "");
    assert_eq!(Crypto::generate_token(1).len(), 4);
    assert!(Crypto::generate_token(1).ends_with("=="));
}

#[test]
fn secure_clear_takes_any_buffer() {
    Crypto::secure_clear(vec![1, 2, 3]);
    Crypto::secure_clear(Vec::new());
}

#[test]
fn generated_password_has_the_asked_length() {
    for length in [0usize, 1, 20, 257] {
        let mut o = GenerateOptions::default();
        o.length = length;
        assert_eq!(Crypto::generate_password(&o).chars().count(), length);
    }
}

#[test]
fn generated_password_without_ambiguous_characters() {
    let mut o = GenerateOptions::default();
    o.length = 20;
    for _ in 0..50 {
        let password = Crypto::generate_password(&o);
        assert_eq!(password.len(), 20);
        assert!(!password.chars().any(|c| "0Oo1lI".contains(c)));
    }
}

#[test]
fn generated_password_of_a_single_class() {
    let mut lower = options(200);
    lower.use_lowercase = true;
    assert!(Crypto::generate_password(&lower).chars().all(|c| c.is_ascii_lowercase()));
    let mut upper = options(200);
    upper.use_uppercase = true;
    assert!(Crypto::generate_password(&upper).chars().all(|c| c.is_ascii_uppercase()));
    let mut numbers = options(200);
    numbers.use_numbers = true;
    assert!(Crypto::generate_password(&numbers).chars().all(|c| c.is_ascii_digit()));
    let mut symbols = options(200);
    symbols.use_symbols = true;
    assert!(Crypto::generate_password(&symbols)
        .chars()
        .all(|c| "!@#$%^&*()_+-=[]{}|;:,.<>?".contains(c)));
}

#[test]
fn generated_password_from_a_custom_set() {
    let mut o = options(64);
    o.custom_charset = Some("xy0".to_string());
    o.exclude_ambiguous = true;
    o.use_lowercase = true;
    let password = Crypto::generate_password(&o);
    assert_eq!(password.len(), 64);
    assert!(password.chars().all(|c| c == 'x' || c == 'y' || c == '0'));
}

#[test]
fn generated_password_falls_back_to_letters_and_digits() {
    let password = Crypto::generate_password(&options(300));
    assert_eq!(password.len(), 300);
    assert!(password.chars().all(|c| c.is_ascii_alphanumeric()));
    let mut o = options(30);
    o.custom_charset = Some(String::new());
    assert!(Crypto::generate_password(&o).chars().all(|c| c.is_ascii_alphanumeric()));
}

#[test]
fn charset_follows_the_options() {
    let mut o = options(1);
    o.use_numbers = true;
    assert_eq!(Crypto::charset(&o), "0123456789".chars().collect::<Vec<char>>());
    o.exclude_ambiguous = true;
    assert_eq!(Crypto::charset(&o), "23456789".chars().collect::<Vec<char>>());
    o.use_lowercase = true;
    assert_eq!(
        Crypto::charset(&o),
        "abcdefghijkmnpqrstuvwxyz23456789".chars().collect::<Vec<char>>()
    );
    let all = GenerateOptions::default();
    assert_eq!(Crypto::charset(&all).len(), 24 + 24 + 8 + 26);
}

#[test]
fn a_session_password_has_32_letters_and_digits() {
    let a = Crypto::generate_session_password();
    let b = Crypto::generate_session_password();
    assert_eq!(a.len(), 32);
    assert!(a.chars().all(|c| c.is_ascii_alphanumeric()));
    assert_ne!(a, b);
}

#[test]
fn a_ciphertext_under_a_password_is_a_tag_longer_than_the_data() {
    let (ciphertext, nonce, salt) = Crypto::encrypt_with_password(b"", "exp-pw").unwrap();
    assert_eq!((ciphertext.len(), nonce.len(), salt.len()), (16, 12, 32));
    let (ciphertext, _, _) = Crypto::encrypt_with_password(&[7u8; 1000], "exp-pw").unwrap();
    assert_eq!(ciphertext.len(), 1016);
}

#[test]
fn a_hash_that_names_too_many_lanes_matches_no_password() {
    let tail = "$c29tZXNhbHQ$RdescudvJCsgt3ub+b+dWRWJTmaaJObG";
    for lanes in ["536870912", "4294967295", "16777216", "16777215"] {
        let hash = format!("$argon2id$v=19$m=8,t=1,p={}{}", lanes, tail);
        assert_eq!(Crypto::verify_password("password", &hash), Ok(false));
    }
    let hash = format!("$argon2id$v=19$m=4294967295,t=1,p=536870912{}", tail);
    assert_eq!(Crypto::verify_password("password", &hash), Ok(false));
    let hash = format!("$argon2id$v=19$m=8,t=1,p=1,p=1073741824{}", tail);
    assert_eq!(Crypto::verify_password("password", &hash), Ok(false));
}

#[test]
fn the_lanes_that_a_hash_names() {
    let tail = "$c29tZXNhbHQ$RdescudvJCsgt3ub+b+dWRWJTmaaJObG";
    let named = |params: &str| Crypto::named_lanes(&format!("$argon2id$v=19${}{}", params, tail));
    assert_eq!(named("m=8,t=1,p=536870912"), Some(536870912));
    assert_eq!(named("m=8,t=1,p=3"), Some(3));
    assert_eq!(named("p=1,m=8,p=2"), Some(2));
    assert_eq!(named("p=7,p=x"), Some(7));
    assert_eq!(named("p=01"), None);
    assert_eq!(named("p=4294967296"), None);
    assert_eq!(named("m=8,t=1"), None);
    assert_eq!(named("pp=5,P=6"), None);
    assert_eq!(Crypto::named_lanes("no hash"), None);
    assert_eq!(Crypto::named_lanes(""), None);
    assert_eq!(Crypto::named_lanes("$argon2id"), None);
    let hash = Crypto::hash_password("s3ssion").unwrap();
    assert!(hash.contains("$m=19456,t=2,p=1$"));
    assert_eq!(Crypto::named_lanes(&hash), Some(1));
}

#[test]
fn the_last_number_of_lanes_is_the_one_that_counts() {
    let hash = Crypto::hash_password("s3ssion").unwrap();
    let early = hash.replace(",p=1$", ",p=536870912,p=1$");
    assert_ne!(early, hash);
    assert_eq!(Crypto::named_lanes(&early), Some(1));
    assert_eq!(Crypto::verify_password("s3ssion", &early), Ok(true));
    assert_eq!(Crypto::verify_password("other", &early), Ok(false));
    let late = hash.replace(",p=1$", ",p=1,p=536870912$");
    assert_eq!(Crypto::named_lanes(&late), Some(536870912));
    assert_eq!(Crypto::verify_password("s3ssion", &late), Ok(false));
}
