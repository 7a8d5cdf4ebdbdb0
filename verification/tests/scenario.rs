use bunker::codec::{decode, encode};
use bunker::crypto::Crypto;
use bunker::error::BunkerError;
use bunker::storage::Storage;
use bunker::tree::FileTree;
use bunker::types::{
    EncryptionConfig, Entry, EntryMetadata, MasterKey, Session, Timestamp, VaultConfig,
};

fn config() -> VaultConfig {
    VaultConfig {
        id: [0x11; 16],
        name: "v".to_string(),
        created_at: Timestamp { secs: 1_700_000_000, nanos: 0 },
        last_modified: Timestamp { secs: 1_700_000_000, nanos: 0 },
        encryption: EncryptionConfig::default(),
        git_remote: None,
        auto_sync: true,
        auto_lock_minutes: Some(15),
    }
}

fn entry(key: &str, secret: &str, master: &MasterKey) -> Entry {
    Entry {
        id: [0x22; 16],
        key: key.to_string(),
        value: Crypto::encrypt(secret.as_bytes(), master).unwrap(),
        metadata: EntryMetadata::empty(),
        created_at: Timestamp { secs: 1_700_000_001, nanos: 0 },
        updated_at: Timestamp { secs: 1_700_000_001, nanos: 0 },
        accessed_at: None,
    }
}

/// Stores an entry; the document of the stored value stands for the
/// document of the entry.
fn add(storage: &Storage, fs: &mut FileTree, e: &Entry, master: &MasterKey) {
    let sealed = Storage::seal_entry(e, master).unwrap();
    storage.store_entry(fs, &e.key, encode(&sealed.value)).unwrap();
}

fn get(storage: &Storage, fs: &FileTree, like: &Entry, master: &MasterKey) -> Result<String, BunkerError> {
    let document = storage.load_entry(fs, &like.key)?;
    let mut stored = like.clone();
    stored.value = decode(&document).unwrap();
    let opened = Storage::open_entry(&stored, master)?;
    Storage::reveal_secret(&opened, master)
}

#[test]
fn a_stored_secret_is_read_back_after_a_relaunch() {
    let now = Timestamp { secs: 1_700_000_000, nanos: 0 };
    let mut fs = FileTree::new();
    let mut kept: Option<Session> = None;
    let template;
    {
        let storage = Storage::new(Some("v".to_string()), None).unwrap();
        storage.init_vault(&mut fs, b"record".to_vec()).unwrap();
        let (master, session) = storage.unlock_with_password("correct horse", &config(), now).unwrap();
        storage.store_session(&mut fs, b"session".to_vec()).unwrap();
        kept = kept.or(Some(session));
        let e = entry("email/gmail", "hunter2", &master);
        add(&storage, &mut fs, &e, &master);
        assert_eq!(get(&storage, &fs, &e, &master), Ok("hunter2".to_string()));
        template = e;
    }
    // A new run: the master key comes from the session, without the password.
    let storage = Storage::new(None, Some("v".to_string())).unwrap();
    assert!(storage.vault_exists(&fs));
    assert_eq!(storage.load_session(&fs), Ok(b"session".to_vec()));
    let session = storage
        .check_session(&mut fs, kept.unwrap(), &Timestamp { secs: now.secs + 86_400, nanos: 0 })
        .unwrap();
    let master = storage.load_master_key_permanently(&session, &config()).unwrap();
    assert_eq!(get(&storage, &fs, &template, &master), Ok("hunter2".to_string()));
    assert_eq!(storage.list_entries(&fs), Ok(vec!["email/gmail".to_string()]));
}

#[test]
fn a_secret_does_not_open_under_the_key_of_another_password() {
    let mut fs = FileTree::new();
    let storage = Storage::new(Some("v".to_string()), None).unwrap();
    storage.init_vault(&mut fs, b"record".to_vec()).unwrap();
    let master = MasterKey::new(vec![1u8; 32]);
    let other = MasterKey::new(vec![2u8; 32]);
    let e = entry("email/gmail", "hunter2", &master);
    add(&storage, &mut fs, &e, &master);
    assert_eq!(get(&storage, &fs, &e, &other), Err(BunkerError::DecryptFailure));
    assert_eq!(
        get(&storage, &fs, &entry("missing", "", &master), &master),
        Err(BunkerError::EntryNotFound("missing".to_string()))
    );
}
