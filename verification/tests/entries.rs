use bunker::codec::encode;
use bunker::crypto::Crypto;
use bunker::entries::{opt_text_holds, text_holds};
use bunker::error::BunkerError;
use bunker::storage::Storage;
use bunker::types::{EncryptedValue, Entry, EntryMetadata, EntryType, MasterKey, Timestamp};

fn key() -> MasterKey {
    MasterKey::new(vec![3u8; 32])
}

fn entry(name: &str, secret: &str, master: &MasterKey) -> Entry {
    Entry {
        id: [7u8; 16],
        key: name.to_string(),
        value: Crypto::encrypt(secret.as_bytes(), master).unwrap(),
        metadata: EntryMetadata::empty(),
        created_at: Timestamp { secs: 1_700_000_000, nanos: 5 },
        updated_at: Timestamp { secs: 1_700_000_001, nanos: 0 },
        accessed_at: None,
    }
}

fn stored(name: &str, secret: &str, master: &MasterKey) -> (String, Entry) {
    (name.to_string(), Storage::seal_entry(&entry(name, secret, master), master).unwrap())
}

fn chars(s: &str) -> Vec<char> {
    s.chars().collect()
}

#[test]
fn open_inverts_seal() {
    let master = key();
    let mut e = entry("email/gmail", "hunter2", &master);
    e.metadata.entry_type = EntryType::Custom("token".to_string());
    e.metadata.tags = vec!["mail".to_string()];
    e.metadata.notes = Some("n".to_string());
    e.metadata.custom_fields = vec![("pin".to_string(), "1234".to_string())];
    e.accessed_at = Some(Timestamp { secs: 3, nanos: 4 });
    let sealed = Storage::seal_entry(&e, &master).unwrap();
    assert_ne!(sealed.value, e.value);
    assert_eq!(sealed.key, e.key);
    assert_eq!(sealed.metadata, e.metadata);
    let opened = Storage::open_entry(&sealed, &master).unwrap();
    assert_eq!(opened, e);
    assert_eq!(Storage::reveal_secret(&opened, &master), Ok("hunter2".to_string()));
}

#[test]
fn the_stored_value_hides_the_document_of_the_value() {
    let master = key();
    let e = entry("k", "v", &master);
    let sealed = Storage::seal_entry(&e, &master).unwrap();
    assert_eq!(Crypto::decrypt(&sealed.value, &master), Ok(encode(&e.value)));
    assert_eq!(sealed.value.nonce.len(), 12);
}

#[test]
fn open_with_another_key_fails() {
    let master = key();
    let sealed = Storage::seal_entry(&entry("k", "v", &master), &master).unwrap();
    let other = MasterKey::new(vec![4u8; 32]);
    assert_eq!(Storage::open_entry(&sealed, &other), Err(BunkerError::DecryptFailure));
}

#[test]
fn open_of_a_bad_nonce_or_document_fails() {
    let master = key();
    let mut sealed = Storage::seal_entry(&entry("k", "v", &master), &master).unwrap();
    sealed.value.nonce.push(0);
    assert_eq!(Storage::open_entry(&sealed, &master), Err(BunkerError::DecryptFailure));
    let mut plain = entry("k", "v", &master);
    plain.value = Crypto::encrypt(b"no document", &master).unwrap();
    assert_eq!(
        Storage::open_entry(&plain, &master),
        Err(BunkerError::SerializationError("stored value is malformed".to_string()))
    );
}

#[test]
fn reveal_secret_fails_on_what_is_no_text() {
    let master = key();
    let mut e = entry("k", "v", &master);
    e.value = Crypto::encrypt(&[0xff, 0xfe], &master).unwrap();
    assert_eq!(
        Storage::reveal_secret(&e, &master),
        Err(BunkerError::Other("secret is not valid UTF-8".to_string()))
    );
    e.value = EncryptedValue { nonce: vec![0; 11], ciphertext: vec![], salt: vec![] };
    assert_eq!(Storage::reveal_secret(&e, &master), Err(BunkerError::DecryptFailure));
}

#[test]
fn a_query_matches_any_field_without_regard_to_case() {
    let master = key();
    let mut e = entry("Email/Gmail", "Hunter2", &master);
    e.metadata.username = Some("Alice".to_string());
    e.metadata.notes = Some("Main account".to_string());
    e.metadata.url = Some("https://mail.example".to_string());
    e.metadata.tags = vec!["Personal".to_string(), "Mail".to_string()];
    e.metadata.custom_fields = vec![("pin".to_string(), "Secret-99".to_string())];
    for q in [
        "gmail", "EMAIL", "hunter", "alice", "MAIN", "example", "personal", "mail", "secret-9", "",
    ] {
        assert!(Storage::entry_matches("Email/Gmail", &e, "Hunter2", q));
    }
    for q in ["pin", "bob", "hunter3", "gmailx"] {
        assert!(!Storage::entry_matches("Email/Gmail", &e, "Hunter2", q));
    }
}

#[test]
fn lowercase_is_taken_before_the_comparison() {
    assert!(text_holds("ÄPFEL", &chars("äpf")));
    assert!(!text_holds("apfel", &chars("APF")));
    assert!(opt_text_holds(&Some("Abc".to_string()), &chars("bc")));
    assert!(!opt_text_holds(&None, &chars("")));
}

#[test]
fn search_gives_the_matches_in_the_order_of_the_list() {
    let master = key();
    let list = vec![
        stored("a/mail", "one", &master),
        stored("b/bank", "two", &master),
        stored("c/mailbox", "three", &master),
        stored("d/other", "my MAIL password", &master),
    ];
    let found = Storage::search_entries("mail", &master, &list).unwrap();
    let keys: Vec<&str> = found.iter().map(|(k, _)| k.as_str()).collect();
    assert_eq!(keys, vec!["a/mail", "c/mailbox", "d/other"]);
    assert_eq!(Storage::reveal_secret(&found[2].1, &master), Ok("my MAIL password".to_string()));
    assert_eq!(Storage::search_entries("nothing", &master, &list), Ok(Vec::new()));
    assert_eq!(Storage::search_entries("x", &master, &Vec::new()), Ok(Vec::new()));
}

#[test]
fn search_fails_on_what_does_not_open() {
    let master = key();
    let other = MasterKey::new(vec![9u8; 32]);
    let list = vec![stored("a/mail", "one", &other), stored("b/mail", "two", &master)];
    assert_eq!(
        Storage::search_entries("mail", &master, &list),
        Err(BunkerError::DecryptFailure)
    );
    assert_eq!(
        Storage::search_entries("nothing at all", &other, &list),
        Err(BunkerError::DecryptFailure)
    );
    let own = vec![stored("b/mail", "two", &master)];
    assert_eq!(Storage::search_entries("", &other, &own), Err(BunkerError::DecryptFailure));
    assert_eq!(Storage::search_entries("mail", &master, &own).unwrap().len(), 1);
}

#[test]
fn search_fails_on_a_stored_value_that_is_no_document() {
    let master = key();
    let mut plain = entry("c", "x", &master);
    plain.value = Crypto::encrypt(b"no document", &master).unwrap();
    let list = vec![stored("a", "one", &master), ("c".to_string(), plain)];
    assert_eq!(
        Storage::search_entries("a", &master, &list),
        Err(BunkerError::SerializationError("stored value is malformed".to_string()))
    );
}

#[test]
fn search_fails_on_a_secret_that_cannot_be_read() {
    let master = key();
    let mut bad = entry("b", "x", &master);
    bad.value = Crypto::encrypt(&[0xff], &master).unwrap();
    let list = vec![
        stored("a", "one", &master),
        ("b".to_string(), Storage::seal_entry(&bad, &master).unwrap()),
    ];
    assert_eq!(
        Storage::search_entries("a", &master, &list),
        Err(BunkerError::Other("secret is not valid UTF-8".to_string()))
    );
}

#[test]
fn custom_fields_keep_one_value_for_a_name() {
    let mut m = EntryMetadata::empty();
    assert_eq!(m.custom_field("pin"), None);
    assert!(!m.remove_custom_field("pin"));
    m.set_custom_field("pin".to_string(), "1234".to_string());
    m.set_custom_field("otp".to_string(), "abc".to_string());
    assert_eq!(m.custom_field("pin"), Some(&"1234".to_string()));
    m.set_custom_field("pin".to_string(), "9999".to_string());
    assert_eq!(
        m.custom_fields,
        vec![("otp".to_string(), "abc".to_string()), ("pin".to_string(), "9999".to_string())]
    );
    assert_eq!(m.custom_field("pin"), Some(&"9999".to_string()));
    assert_eq!(m.custom_field("Pin"), None);
    assert!(m.remove_custom_field("otp"));
    assert!(!m.remove_custom_field("otp"));
    assert_eq!(m.custom_fields, vec![("pin".to_string(), "9999".to_string())]);
}

#[test]
fn the_lines_that_explain_a_match() {
    let master = key();
    let mut e = entry("k", "v", &master);
    e.metadata.username = Some("Alice Mail".to_string());
    e.metadata.notes = Some(format!("{}mail", "x".repeat(48)));
    e.metadata.url = Some("https://example.org".to_string());
    e.metadata.tags = vec!["Mail".to_string(), "work".to_string(), "e-mail".to_string()];
    e.metadata.custom_fields = vec![
        ("backup".to_string(), "mail@example.org".to_string()),
        ("pin".to_string(), "1234".to_string()),
    ];
    assert_eq!(
        Storage::matching_fields(&e, "MAIL"),
        vec![
            "username: Alice Mail".to_string(),
            format!("notes: {}ma", "x".repeat(48)),
            "backup: mail@example.org".to_string(),
            "tag: Mail".to_string(),
            "tag: e-mail".to_string(),
        ]
    );
    assert_eq!(Storage::matching_fields(&e, "example"), vec![
        "backup: mail@example.org".to_string(),
        "url: https://example.org".to_string(),
    ]);
    assert_eq!(Storage::matching_fields(&e, "nothing"), Vec::<String>::new());
}

#[test]
fn a_pattern_is_matched_against_the_fields() {
    let master = key();
    let mut e = entry("web/github", "hunter2", &master);
    e.metadata.username = Some("alice42".to_string());
    e.metadata.url = Some("https://github.com".to_string());
    let hit = |a: &str, b: &str| (a.to_string(), b.to_string());
    assert_eq!(
        Storage::grep_entry("web/github", &e, "hunter2", "git"),
        Some(vec![hit("key", "web/github"), hit("url", "https://github.com")])
    );
    assert_eq!(
        Storage::grep_entry("web/github", &e, "hunter2", r"^[a-z]+\d+$"),
        Some(vec![hit("value", "hunter2"), hit("username", "alice42")])
    );
    assert_eq!(Storage::grep_entry("web/github", &e, "hunter2", "HUNTER"), Some(Vec::new()));
    assert_eq!(
        Storage::grep_entry("web/github", &e, "hunter2", &Storage::pattern_for("HUNTER", true)),
        Some(vec![hit("value", "hunter2")])
    );
    assert_eq!(Storage::grep_entry("web/github", &e, "hunter2", "("), None);
    assert_eq!(Storage::pattern_for("a.b", false), "a.b");
    assert_eq!(Storage::pattern_for("a.b", true), "(?i)a.b");
    assert_eq!(Storage::check_pattern("a+"), Ok(()));
    assert_eq!(
        Storage::check_pattern("a{"),
        Err(BunkerError::Other("Invalid pattern".to_string()))
    );
}

#[test]
fn a_new_entry_knows_its_kind_and_its_time() {
    let master = key();
    let value = Crypto::encrypt(b"v", &master).unwrap();
    let now = Timestamp { secs: 9, nanos: 8 };
    let e = Entry::new([4; 16], "k".to_string(), value.clone(), EntryType::Note, now);
    let mut metadata = EntryMetadata::empty();
    metadata.entry_type = EntryType::Note;
    assert_eq!(
        e,
        Entry {
            id: [4; 16],
            key: "k".to_string(),
            value,
            metadata,
            created_at: now,
            updated_at: now,
            accessed_at: None,
        }
    );
}
