use bunker::crypto::Crypto;
use bunker::error::BunkerError;
use bunker::session::PERMANENT_SECS;
use bunker::storage::Storage;
use bunker::tree::FileTree;
use bunker::types::{EncryptionConfig, MasterKey, Session, Timestamp, VaultConfig};

fn config(name: &str) -> VaultConfig {
    VaultConfig {
        id: [0, 1, 2, 3, 4, 5, 6, 7, 8, 9, 10, 11, 12, 13, 14, 15],
        name: name.to_string(),
        created_at: Timestamp { secs: 1, nanos: 0 },
        last_modified: Timestamp { secs: 2, nanos: 0 },
        encryption: EncryptionConfig::default(),
        git_remote: None,
        auto_sync: true,
        auto_lock_minutes: Some(15),
    }
}

fn now() -> Timestamp {
    Timestamp { secs: 1_700_000_000, nanos: 123 }
}

fn plain_session() -> Session {
    Session {
        id: [1u8; 16],
        vault_name: "v".to_string(),
        created_at: now(),
        expires_at: Timestamp { secs: now().secs + 315_360_000, nanos: 123 },
        key_hash: String::new(),
        encrypted_master_key: vec![0u8; 48],
        nonce: vec![0u8; 12],
        salt: vec![0u8; 32],
    }
}

#[test]
fn the_master_key_comes_back_from_its_session() {
    let storage = Storage::new(Some("v".to_string()), None).unwrap();
    let master = MasterKey::new((0u8..32).collect());
    let session = storage.store_master_key_permanently(&master, &config("v"), now()).unwrap();
    let back = storage.load_master_key_permanently(&session, &config("v")).unwrap();
    assert_eq!(back.key, master.key);
}

#[test]
fn a_permanent_session_lasts_ten_years() {
    let storage = Storage::new(Some("v".to_string()), None).unwrap();
    let master = MasterKey::new(vec![1u8; 32]);
    let session = storage.store_master_key_permanently(&master, &config("v"), now()).unwrap();
    assert_eq!(PERMANENT_SECS, 365 * 10 * 24 * 60 * 60);
    assert_eq!(session.vault_name, "v");
    assert_eq!(session.created_at, now());
    assert_eq!(session.expires_at, Timestamp { secs: 1_700_000_000 + 315_360_000, nanos: 123 });
    assert_eq!(session.key_hash, "00010203-0405-0607-0809-0a0b0c0d0e0f");
    assert_eq!(session.salt.len(), 32);
    assert_eq!(session.nonce.len(), 12);
    assert_eq!(session.encrypted_master_key.len(), 48);
    assert_ne!(&session.encrypted_master_key[..32], &master.key[..]);
}

#[test]
fn two_sessions_differ_in_identifier_and_salt() {
    let storage = Storage::new(Some("v".to_string()), None).unwrap();
    let master = MasterKey::new(vec![1u8; 32]);
    let a = storage.store_master_key_permanently(&master, &config("v"), now()).unwrap();
    let b = storage.store_master_key_permanently(&master, &config("v"), now()).unwrap();
    assert_ne!(a.id, b.id);
    assert_ne!(a.salt, b.salt);
}

#[test]
fn a_session_of_another_vault_does_not_unwrap() {
    let storage = Storage::new(Some("v".to_string()), None).unwrap();
    let master = MasterKey::new(vec![1u8; 32]);
    let session = storage.store_master_key_permanently(&master, &config("v"), now()).unwrap();
    let mut other = config("v");
    other.id[0] = 0xff;
    assert!(matches!(
        storage.load_master_key_permanently(&session, &other),
        Err(BunkerError::DecryptFailure)
    ));
}

#[test]
fn a_changed_session_does_not_unwrap() {
    let storage = Storage::new(Some("v".to_string()), None).unwrap();
    let master = MasterKey::new(vec![1u8; 32]);
    let good = storage.store_master_key_permanently(&master, &config("v"), now()).unwrap();
    let mut changed = good.clone();
    changed.encrypted_master_key[0] ^= 1;
    assert!(matches!(
        storage.load_master_key_permanently(&changed, &config("v")),
        Err(BunkerError::DecryptFailure)
    ));
    let mut short_salt = good.clone();
    short_salt.salt.truncate(7);
    assert!(matches!(
        storage.load_master_key_permanently(&short_salt, &config("v")),
        Err(BunkerError::KdfFailure)
    ));
}

#[test]
fn a_session_with_a_short_nonce_does_not_unwrap() {
    let storage = Storage::new(Some("v".to_string()), None).unwrap();
    let session = Session {
        id: [1u8; 16],
        vault_name: "v".to_string(),
        created_at: now(),
        expires_at: now(),
        key_hash: String::new(),
        encrypted_master_key: vec![0u8; 48],
        nonce: vec![0u8; 11],
        salt: vec![0u8; 32],
    };
    assert!(matches!(
        storage.load_master_key_permanently(&session, &config("v")),
        Err(BunkerError::DecryptFailure)
    ));
}

#[test]
fn check_session_passes_what_has_not_expired() {
    let storage = Storage::new(Some("v".to_string()), None).unwrap();
    let session = plain_session();
    let mut fs = FileTree::new();
    storage.store_session(&mut fs, b"s".to_vec()).unwrap();
    let later = Timestamp { secs: now().secs + 1000, nanos: 0 };
    assert_eq!(storage.check_session(&mut fs, session.clone(), &later), Ok(session.clone()));
    let at_expiry = session.expires_at;
    assert_eq!(storage.check_session(&mut fs, session.clone(), &at_expiry), Ok(session.clone()));
    assert_eq!(storage.load_session(&fs), Ok(b"s".to_vec()));
}

#[test]
fn check_session_removes_what_has_expired() {
    let storage = Storage::new(Some("v".to_string()), None).unwrap();
    let session = plain_session();
    let mut fs = FileTree::new();
    storage.store_session(&mut fs, b"s".to_vec()).unwrap();
    let after = Timestamp { secs: session.expires_at.secs, nanos: session.expires_at.nanos + 1 };
    assert_eq!(
        storage.check_session(&mut fs, session.clone(), &after),
        Err(BunkerError::SessionExpired)
    );
    assert_eq!(storage.load_session(&fs), Err(BunkerError::NoSession));
    assert!(matches!(
        storage.check_session(&mut fs, session, &after),
        Err(BunkerError::IoError(_))
    ));
}

#[test]
fn timestamps_compare_by_seconds_then_nanoseconds() {
    let a = Timestamp { secs: 5, nanos: 9 };
    assert!(a.is_before(&Timestamp { secs: 6, nanos: 0 }));
    assert!(a.is_before(&Timestamp { secs: 5, nanos: 10 }));
    assert!(!a.is_before(&a));
    assert!(!a.is_before(&Timestamp { secs: 4, nanos: 999 }));
    assert!(Timestamp { secs: -1, nanos: 0 }.is_before(&Timestamp { secs: 0, nanos: 0 }));
}

#[test]
fn a_session_bound_to_a_password() {
    let storage = Storage::new(Some("v".to_string()), None).unwrap();
    let master = MasterKey::new(vec![8u8; 32]);
    let salt = Crypto::generate_salt();
    let wrapping = Crypto::derive_session_key("s3ssion", &salt).unwrap();
    let (wrapped, nonce) = Crypto::encrypt_master_key_for_session(&master, &wrapping).unwrap();
    let session = Session {
        id: [1u8; 16],
        vault_name: "v".to_string(),
        created_at: now(),
        expires_at: now(),
        key_hash: Crypto::hash_password("s3ssion").unwrap(),
        encrypted_master_key: wrapped,
        nonce,
        salt,
    };
    let back = storage.load_master_key_from_session(&session, "s3ssion").unwrap();
    assert_eq!(back.key, master.key);
    assert!(matches!(
        storage.load_master_key_from_session(&session, "wrong"),
        Err(BunkerError::InvalidPassword)
    ));
    let mut broken = session.clone();
    broken.key_hash = "x".to_string();
    assert!(matches!(
        storage.load_master_key_from_session(&broken, "s3ssion"),
        Err(BunkerError::Other(_))
    ));
}

#[test]
fn lock_then_read_finds_no_session_and_unlock_makes_it_again() {
    let storage = Storage::new(Some("v".to_string()), None).unwrap();
    let mut fs = FileTree::new();
    let mut cfg = config("v");
    cfg.encryption.kdf_memory = 8;
    cfg.encryption.kdf_iterations = 1;
    cfg.encryption.kdf_parallelism = 1;
    let (master, _) = storage.unlock_with_password("correct horse", &cfg, now()).unwrap();
    storage.store_session(&mut fs, b"rendered".to_vec()).unwrap();
    storage.clear_session(&mut fs).unwrap();
    assert_eq!(storage.load_session(&fs), Err(BunkerError::NoSession));
    let (again, renewed) = storage.unlock_with_password("correct horse", &cfg, now()).unwrap();
    assert_eq!(again.key, master.key);
    storage.store_session(&mut fs, b"rendered again".to_vec()).unwrap();
    assert_eq!(storage.load_session(&fs), Ok(b"rendered again".to_vec()));
    assert_eq!(storage.load_master_key_permanently(&renewed, &cfg).unwrap().key, master.key);
}

#[test]
fn unlocking_with_the_password_derives_the_key_from_the_vault_id() {
    let storage = Storage::new(Some("v".to_string()), None).unwrap();
    let cfg = config("v");
    let (master, session) = storage.unlock_with_password("correct horse", &cfg, now()).unwrap();
    assert_eq!(master.key, Crypto::derive_key("correct horse", &cfg.id).unwrap().key);
    assert_eq!(session.key_hash, "00010203-0405-0607-0809-0a0b0c0d0e0f");
    assert_eq!(session.vault_name, "v");
}

#[test]
fn unlocking_runs_at_the_costs_of_the_vault() {
    let storage = Storage::new(Some("v".to_string()), None).unwrap();
    let mut cheap = config("v");
    cheap.encryption.kdf_memory = 8;
    cheap.encryption.kdf_iterations = 1;
    cheap.encryption.kdf_parallelism = 1;
    let (one_pass, session) = storage.unlock_with_password("correct horse", &cheap, now()).unwrap();
    assert_eq!(
        one_pass.key,
        Crypto::derive_key_with("correct horse", &cheap.id, &cheap.encryption).unwrap().key
    );
    assert_eq!(storage.load_master_key_permanently(&session, &cheap).unwrap().key, one_pass.key);
    cheap.encryption.kdf_iterations = 2;
    let two_passes =
        Crypto::derive_key_with("correct horse", &cheap.id, &cheap.encryption).unwrap();
    assert_ne!(one_pass.key, two_passes.key);
    cheap.encryption.kdf_iterations = 0;
    assert!(matches!(
        storage.unlock_with_password("correct horse", &cheap, now()),
        Err(BunkerError::KdfFailure)
    ));
}

#[test]
fn a_session_whose_verifier_names_too_many_lanes_is_refused() {
    let storage = Storage::new(Some("v".to_string()), None).unwrap();
    let session = Session {
        id: [1u8; 16],
        vault_name: "v".to_string(),
        created_at: now(),
        expires_at: now(),
        key_hash: "$argon2id$v=19$m=8,t=1,p=536870912$c29tZXNhbHQ$RdescudvJCsgt3ub+b+dWRWJTmaaJObG"
            .to_string(),
        encrypted_master_key: vec![0u8; 48],
        nonce: vec![0u8; 12],
        salt: vec![0u8; 32],
    };
    assert!(matches!(
        storage.load_master_key_from_session(&session, "s3ssion"),
        Err(BunkerError::InvalidPassword)
    ));
}
