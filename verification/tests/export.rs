use base64::Engine;
use bunker::crypto::Crypto;
use bunker::error::BunkerError;
use bunker::export::{keys_ascend, ImportedVault};
use bunker::json::{find_member, JsonMember};
use bunker::storage::Storage;
use bunker::tree::FileTree;
use bunker::types::{Entry, EntryMetadata, MasterKey, Timestamp};

const CONFIG: &str = r#"{"id":"00010203-0405-0607-0809-0a0b0c0d0e0f","name":"v","auto_sync":true}"#;

fn path(names: &[&str]) -> Vec<String> {
    names.iter().map(|n| n.to_string()).collect()
}

fn source() -> (Storage, FileTree) {
    let storage = Storage::new(Some("v".to_string()), None).unwrap();
    let mut fs = FileTree::new();
    storage.init_vault(&mut fs, CONFIG.as_bytes().to_vec()).unwrap();
    storage.store_entry(&mut fs, "email/gmail", b"{\n  \"key\": \"email/gmail\"\n}".to_vec()).unwrap();
    storage.store_entry(&mut fs, "bank", b"{\"quote\":\"\\\"\"}".to_vec()).unwrap();
    storage.store_entry(&mut fs, "email/work", "ünïcode \u{1F510}".as_bytes().to_vec()).unwrap();
    (storage, fs)
}

fn member(envelope: &serde_json::Value, name: &str) -> String {
    envelope.get(name).unwrap().as_str().unwrap().to_string()
}

fn with_member(envelope: &serde_json::Value, name: &str, value: serde_json::Value) -> Vec<u8> {
    let mut map = envelope.as_object().unwrap().clone();
    map.insert(name.to_string(), value);
    serde_json::to_vec(&serde_json::Value::Object(map)).unwrap()
}

fn pairs(list: &[(&str, &str)]) -> Vec<(String, String)> {
    list.iter().map(|(k, v)| (k.to_string(), v.to_string())).collect()
}

#[test]
fn the_envelope_has_the_members_of_the_format() {
    let (storage, fs) = source();
    let bytes = storage.export_vault(&fs, "exp-pw", CONFIG, "2024-01-02T03:04:05Z").unwrap();
    let envelope: serde_json::Value = serde_json::from_slice(&bytes).unwrap();
    assert_eq!(envelope.as_object().unwrap().len(), 6);
    assert_eq!(envelope.get("bunker_export"), Some(&serde_json::Value::Bool(true)));
    assert_eq!(member(&envelope, "version"), "1.0");
    let standard = base64::engine::general_purpose::STANDARD;
    let ciphertext = standard.decode(member(&envelope, "encrypted_data")).unwrap();
    assert_eq!(standard.decode(member(&envelope, "nonce")).unwrap().len(), 12);
    assert_eq!(standard.decode(member(&envelope, "salt")).unwrap().len(), 32);
    assert_eq!(member(&envelope, "checksum"), Crypto::checksum(&ciphertext));
    assert!(bytes.starts_with(b"{\n  \"bunker_export\": true,\n  \"checksum\": \""));
}

#[test]
fn the_bundle_has_the_members_of_the_format() {
    let (storage, fs) = source();
    let bytes = storage.export_vault(&fs, "exp-pw", CONFIG, "2024-01-02T03:04:05Z").unwrap();
    let envelope: serde_json::Value = serde_json::from_slice(&bytes).unwrap();
    let standard = base64::engine::general_purpose::STANDARD;
    let bundle = Crypto::decrypt_with_password(
        &standard.decode(member(&envelope, "encrypted_data")).unwrap(),
        &standard.decode(member(&envelope, "nonce")).unwrap(),
        &standard.decode(member(&envelope, "salt")).unwrap(),
        "exp-pw",
    )
    .unwrap();
    let inner: serde_json::Value = serde_json::from_slice(&bundle).unwrap();
    assert_eq!(inner.as_object().unwrap().len(), 4);
    assert_eq!(member(&inner, "version"), "1.0");
    assert_eq!(member(&inner, "exported_at"), "2024-01-02T03:04:05Z");
    assert_eq!(
        inner.get("vault_config"),
        Some(&serde_json::from_str::<serde_json::Value>(CONFIG).unwrap())
    );
    let entries = inner.get("entries").unwrap().as_object().unwrap();
    assert_eq!(entries.len(), 3);
    assert_eq!(entries.get("bank").unwrap().as_str(), Some("{\"quote\":\"\\\"\"}"));
    assert_eq!(entries.get("email/work").unwrap().as_str(), Some("ünïcode \u{1F510}"));
}

#[test]
fn import_gives_back_what_export_took() {
    let (storage, fs) = source();
    let bytes = storage.export_vault(&fs, "exp-pw", CONFIG, "2024-01-02T03:04:05Z").unwrap();
    let opened = Storage::open_export(&bytes, "exp-pw").unwrap();
    assert_eq!(
        serde_json::from_str::<serde_json::Value>(&opened.config_json).unwrap(),
        serde_json::from_str::<serde_json::Value>(CONFIG).unwrap()
    );
    assert_eq!(opened.entries, storage.collect_entries(&fs).unwrap());
    assert_eq!(
        opened.entries,
        pairs(&[
            ("bank", "{\"quote\":\"\\\"\"}"),
            ("email/gmail", "{\n  \"key\": \"email/gmail\"\n}"),
            ("email/work", "ünïcode \u{1F510}"),
        ])
    );

    let target = Storage::new(Some("v2".to_string()), None).unwrap();
    let mut fs2 = FileTree::new();
    assert_eq!(target.import_vault(&mut fs2, b"renamed".to_vec(), &opened.entries), Ok(()));
    assert!(target.vault_exists(&fs2));
    assert_eq!(target.load_config(&fs2), Ok(b"renamed".to_vec()));
    assert_eq!(target.list_entries(&fs2), storage.list_entries(&fs));
    for key in storage.list_entries(&fs).unwrap() {
        assert_eq!(target.load_entry(&fs2, &key), storage.load_entry(&fs, &key));
    }
}

#[test]
fn imported_entries_decrypt_with_the_original_master_password() {
    let storage = Storage::new(Some("v".to_string()), None).unwrap();
    let mut fs = FileTree::new();
    storage.init_vault(&mut fs, CONFIG.as_bytes().to_vec()).unwrap();
    let id = [0u8, 1, 2, 3, 4, 5, 6, 7, 8, 9, 10, 11, 12, 13, 14, 15];
    let master = MasterKey::new(id.iter().chain(id.iter()).copied().collect());
    let entry = Entry {
        id: [1u8; 16],
        key: "email/gmail".to_string(),
        value: Crypto::encrypt(b"hunter2", &master).unwrap(),
        metadata: EntryMetadata::empty(),
        created_at: Timestamp { secs: 1, nanos: 0 },
        updated_at: Timestamp { secs: 1, nanos: 0 },
        accessed_at: None,
    };
    let sealed = Storage::seal_entry(&entry, &master).unwrap();
    // The document of an entry is rendered outside; here the value's
    // ciphertext stands for it.
    storage.store_entry(&mut fs, "email/gmail", sealed.value.ciphertext.iter().map(|b| b'a' + b % 26).collect()).unwrap();
    let bytes = storage.export_vault(&fs, "exp-pw", CONFIG, "t").unwrap();
    let opened = Storage::open_export(&bytes, "exp-pw").unwrap();
    let target = Storage::new(Some("v2".to_string()), None).unwrap();
    let mut fs2 = FileTree::new();
    target.import_vault(&mut fs2, CONFIG.as_bytes().to_vec(), &opened.entries).unwrap();
    assert_eq!(target.load_entry(&fs2, "email/gmail"), storage.load_entry(&fs, "email/gmail"));
    let again: MasterKey = MasterKey::new(master.key.clone());
    let back = Storage::open_entry(&sealed, &again).unwrap();
    assert_eq!(Storage::reveal_secret(&back, &again), Ok("hunter2".to_string()));
}

#[test]
fn a_changed_ciphertext_fails_the_checksum() {
    let (storage, fs) = source();
    let bytes = storage.export_vault(&fs, "exp-pw", CONFIG, "t").unwrap();
    let envelope: serde_json::Value = serde_json::from_slice(&bytes).unwrap();
    let standard = base64::engine::general_purpose::STANDARD;
    let mut ciphertext = standard.decode(member(&envelope, "encrypted_data")).unwrap();
    ciphertext[3] ^= 0x40;
    let corrupt = with_member(
        &envelope,
        "encrypted_data",
        serde_json::Value::String(standard.encode(&ciphertext)),
    );
    assert_eq!(Storage::open_export(&corrupt, "exp-pw"), Err(BunkerError::ChecksumMismatch));
    assert!(Storage::open_export(&bytes, "exp-pw").is_ok());
}

#[test]
fn a_wrong_password_fails_to_decrypt() {
    let (storage, fs) = source();
    let bytes = storage.export_vault(&fs, "exp-pw", CONFIG, "t").unwrap();
    assert_eq!(Storage::open_export(&bytes, "other"), Err(BunkerError::DecryptFailure));
}

#[test]
fn what_is_no_export_is_refused() {
    assert_eq!(
        Storage::open_export(b"not json", "pw"),
        Err(BunkerError::SerializationError("Invalid JSON".to_string()))
    );
    for text in ["[1]", "{}", r#"{"bunker_export":false}"#, r#"{"bunker_export":"true"}"#] {
        assert_eq!(
            Storage::open_export(text.as_bytes(), "pw"),
            Err(BunkerError::ImportError("not a bunker export".to_string()))
        );
    }
}

#[test]
fn missing_members_are_named() {
    let cases = [
        (r#"{"bunker_export":true}"#, "Missing encrypted data"),
        (r#"{"bunker_export":true,"encrypted_data":7}"#, "Missing encrypted data"),
        (r#"{"bunker_export":true,"encrypted_data":"%%"}"#, "Invalid base64"),
        (r#"{"bunker_export":true,"encrypted_data":"AAAA"}"#, "Missing nonce"),
        (r#"{"bunker_export":true,"encrypted_data":"AAAA","nonce":"AAAA"}"#, "Missing salt"),
        (
            r#"{"bunker_export":true,"encrypted_data":"AAAA","nonce":"AAAA","salt":"AAAA"}"#,
            "Missing checksum",
        ),
    ];
    for (text, message) in cases {
        assert_eq!(
            Storage::open_export(text.as_bytes(), "pw"),
            Err(BunkerError::ImportError(message.to_string()))
        );
    }
}

#[test]
fn a_nonce_of_the_wrong_length_fails_to_decrypt() {
    let checksum = Crypto::checksum(&[0, 0, 0]);
    let text = format!(
        r#"{{"bunker_export":true,"encrypted_data":"AAAA","nonce":"AAAA","salt":"AAAA","checksum":"{}"}}"#,
        checksum
    );
    assert_eq!(Storage::open_export(text.as_bytes(), "pw"), Err(BunkerError::DecryptFailure));
    let wrong = text.replace(&checksum, "00");
    assert_eq!(Storage::open_export(wrong.as_bytes(), "pw"), Err(BunkerError::ChecksumMismatch));
}

#[test]
fn a_bundle_is_read_as_far_as_it_goes() {
    assert_eq!(
        Storage::read_bundle(br#"{"vault_config":{"a":1},"entries":{"k":"v","n":5}}"#),
        Ok(ImportedVault { config_json: r#"{"a":1}"#.to_string(), entries: pairs(&[("k", "v"), ("n", "")]) })
    );
    assert_eq!(
        Storage::read_bundle(br#"{"vault_config":{},"entries":[1]}"#),
        Ok(ImportedVault { config_json: "{}".to_string(), entries: Vec::new() })
    );
    assert_eq!(
        Storage::read_bundle(br#"{"vault_config":null}"#),
        Ok(ImportedVault { config_json: "null".to_string(), entries: Vec::new() })
    );
    for text in [r#"{"entries":{}}"#, r#"{"vault_config":"x"}"#, r#"{"vault_config":true}"#] {
        assert_eq!(
            Storage::read_bundle(text.as_bytes()),
            Err(BunkerError::SerializationError("Invalid vault configuration".to_string()))
        );
    }
    for text in ["", "[]", "3"] {
        assert_eq!(
            Storage::read_bundle(text.as_bytes()),
            Err(BunkerError::SerializationError("Invalid export contents".to_string()))
        );
    }
}

#[test]
fn seal_export_refuses_keys_out_of_order_and_a_bad_record() {
    assert!(matches!(
        Storage::seal_export(&pairs(&[("b", "1"), ("a", "2")]), "pw", "{}", "t"),
        Err(BunkerError::ExportError(_))
    ));
    assert!(matches!(
        Storage::seal_export(&pairs(&[("a", "1"), ("a", "2")]), "pw", "{}", "t"),
        Err(BunkerError::ExportError(_))
    ));
    assert!(matches!(
        Storage::seal_export(&pairs(&[("a", "1")]), "pw", "{not json", "t"),
        Err(BunkerError::SerializationError(_))
    ));
    assert!(keys_ascend(&pairs(&[("a", ""), ("a/b", ""), ("b", "")])));
    assert!(keys_ascend(&Vec::new()));
    assert!(!keys_ascend(&pairs(&[("a", ""), ("A", "")])));
}

#[test]
fn export_of_an_empty_vault() {
    let storage = Storage::new(Some("v".to_string()), None).unwrap();
    let mut fs = FileTree::new();
    storage.init_vault(&mut fs, b"{}".to_vec()).unwrap();
    let bytes = storage.export_vault(&fs, "pw", "{}", "t").unwrap();
    let opened = Storage::open_export(&bytes, "pw").unwrap();
    assert_eq!(opened, ImportedVault { config_json: "{}".to_string(), entries: Vec::new() });
}

#[test]
fn export_fails_on_a_document_that_is_no_text() {
    let storage = Storage::new(Some("v".to_string()), None).unwrap();
    let mut fs = FileTree::new();
    storage.init_vault(&mut fs, b"{}".to_vec()).unwrap();
    storage.store_entry(&mut fs, "a", vec![0xff]).unwrap();
    assert!(matches!(storage.export_vault(&fs, "pw", "{}", "t"), Err(BunkerError::IoError(_))));
    assert!(matches!(storage.collect_entries(&fs), Err(BunkerError::IoError(_))));
}

#[test]
fn import_into_an_existing_vault_changes_nothing() {
    let (storage, mut fs) = source();
    let before = fs.len();
    assert_eq!(
        storage.import_vault(&mut fs, vec![], &pairs(&[("new", "x")])),
        Err(BunkerError::VaultExists("v".to_string()))
    );
    assert_eq!(fs.len(), before);
    assert_eq!(storage.entry_exists(&fs, "new"), Ok(false));
}

#[test]
fn import_stops_at_an_entry_that_cannot_be_stored() {
    let target = Storage::new(Some("t".to_string()), None).unwrap();
    let mut fs = FileTree::new();
    let r = target.import_vault(&mut fs, vec![], &pairs(&[("a", "1"), ("../b", "2"), ("c", "3")]));
    assert!(matches!(r, Err(BunkerError::IoError(_))));
    assert_eq!(target.list_entries(&fs), Ok(vec!["a".to_string()]));
    assert!(!fs.contains(&path(&["vaults", "b.json"])));
}

#[test]
fn renaming_a_record_keeps_its_identifier() {
    let config = bunker::types::VaultConfig {
        id: [9u8; 16],
        name: "old".to_string(),
        created_at: Timestamp { secs: 1, nanos: 2 },
        last_modified: Timestamp { secs: 3, nanos: 4 },
        encryption: bunker::types::EncryptionConfig::default(),
        git_remote: Some("r".to_string()),
        auto_sync: false,
        auto_lock_minutes: None,
    };
    let renamed = config.clone().renamed("new");
    assert_eq!(renamed.name, "new");
    assert_eq!(renamed.id, config.id);
    let mut expected = config;
    expected.name = "new".to_string();
    assert_eq!(renamed, expected);
}

#[test]
fn the_members_of_an_object_are_found_by_name() {
    let members = vec![
        ("a".to_string(), JsonMember::Text("QUJD".to_string())),
        ("b".to_string(), JsonMember::Flag(true)),
        ("a".to_string(), JsonMember::Text("second".to_string())),
        ("c".to_string(), JsonMember::Raw("[1]".to_string())),
    ];
    assert_eq!(find_member(&members, "a"), Some(&JsonMember::Text("QUJD".to_string())));
    assert_eq!(find_member(&members, "b"), Some(&JsonMember::Flag(true)));
    assert_eq!(find_member(&members, "d"), None);
    assert_eq!(Storage::member_bytes(&members, "a", "Missing a"), Ok(b"ABC".to_vec()));
    assert_eq!(
        Storage::member_bytes(&members, "b", "Missing b"),
        Err(BunkerError::ImportError("Missing b".to_string()))
    );
    assert_eq!(
        Storage::member_bytes(&members, "d", "Missing d"),
        Err(BunkerError::ImportError("Missing d".to_string()))
    );
    assert_eq!(
        Storage::entry_documents(&members),
        pairs(&[("a", "QUJD"), ("b", ""), ("a", "second"), ("c", "")])
    );
}

#[test]
fn unusual_keys_and_documents_come_back_as_they_were() {
    let entries = pairs(&[
        ("", "empty key"),
        ("\"quoted\"", "line\nbreak\ttab \u{1} control \\ backslash \" quote"),
        ("a/b", "{\"nested\":{\"json\":[1,2,3]}}"),
        ("z", ""),
        ("é", "ünïcode"),
        ("\u{FFFF}", "last of the plane"),
        ("\u{10000}", "first beyond it \u{1F510}"),
    ]);
    assert!(keys_ascend(&entries));
    let bytes = Storage::seal_export(&entries, "pw", "{\"id\":1}", "now").unwrap();
    let opened = Storage::open_export(&bytes, "pw").unwrap();
    assert_eq!(opened.entries, entries);
    assert_eq!(opened.config_json, "{\"id\":1}");
}

#[test]
fn seal_export_hands_out_only_what_can_be_opened() {
    let entries = pairs(&[("a", "1")]);
    for record in ["true", "\"x\"", "", "{"] {
        assert_eq!(
            Storage::seal_export(&entries, "pw", record, "t"),
            Err(BunkerError::SerializationError("Invalid vault configuration".to_string()))
        );
    }
    let nested = |depth: usize| format!("{}{}", "[".repeat(depth), "]".repeat(depth));
    assert!(serde_json::from_str::<serde_json::Value>(&nested(127)).is_ok());
    assert_eq!(
        Storage::seal_export(&entries, "pw", &nested(127), "t"),
        Err(BunkerError::SerializationError("Invalid vault configuration".to_string()))
    );
    assert_eq!(
        Storage::seal_export(&entries, "pw", &nested(500), "t"),
        Err(BunkerError::SerializationError("Invalid vault configuration".to_string()))
    );
    let export = Storage::seal_export(&entries, "pw", &nested(100), "t").unwrap();
    let opened = Storage::open_export(&export, "pw").unwrap();
    assert_eq!(opened, ImportedVault { config_json: nested(100), entries });
}

#[test]
fn the_record_comes_back_as_json_prints_it() {
    let record = r#" { "name" : "v", "id": "0001", "n": [1, 2.5, null, {"z":true,"a":"é"}] } "#;
    let printed = "{\"id\":\"0001\",\"n\":[1,2.5,null,{\"a\":\"\u{e9}\",\"z\":true}],\"name\":\"v\"}";
    let value: serde_json::Value = serde_json::from_str(record).unwrap();
    assert_eq!(value.to_string(), printed);
    let entries = pairs(&[("a", "1")]);
    let export = Storage::seal_export(&entries, "pw", record, "t").unwrap();
    let opened = Storage::open_export(&export, "pw").unwrap();
    assert_eq!(opened, ImportedVault { config_json: printed.to_string(), entries });
}

#[test]
fn a_fraction_in_the_record_comes_back_as_it_is_printed_or_the_export_fails() {
    let entries = pairs(&[("a", "1")]);
    for record in ["[0.9780471664246129]", "{\"f\":0.24344803366185586}"] {
        let value: serde_json::Value = serde_json::from_str(record).unwrap();
        let printed = value.to_string();
        let again: serde_json::Value = serde_json::from_str(&printed).unwrap();
        let sealed = Storage::seal_export(&entries, "pw", record, "t");
        if again.to_string() == printed {
            let opened = Storage::open_export(&sealed.unwrap(), "pw").unwrap();
            assert_eq!(opened.config_json, printed);
        } else {
            assert_eq!(
                sealed,
                Err(BunkerError::SerializationError("Invalid vault configuration".to_string()))
            );
        }
    }
}
