use bunker::config::{ensure_config_dir, Config};
use bunker::error::BunkerError;
use bunker::git::{ChangeFlags, Git, HistoryStep};
use bunker::tree::FileTree;
use bunker::types::{EncryptionConfig, EntryType, Theme};
use bunker::utils::{command_args, env_var_name, find_char, make_stars, mask_password, parse_key_value};

fn strings(list: &[&str]) -> Vec<String> {
    list.iter().map(|s| s.to_string()).collect()
}

#[test]
fn mask_shows_the_ends() {
    assert_eq!(mask_password("password123", 3), "pas*****123");
    assert_eq!(mask_password("abcdefg", 3), "abc*efg");
    assert_eq!(mask_password("hunter2", 2), "hu***r2");
    assert_eq!(mask_password("hunter2", 0), "*******");
}

#[test]
fn mask_hides_all_of_a_short_password() {
    assert_eq!(mask_password("abcdef", 3), "******");
    assert_eq!(mask_password("ab", 3), "**");
    assert_eq!(mask_password("", 3), "");
    assert_eq!(mask_password("", 0), "");
}

#[test]
fn mask_counts_bytes() {
    // Two bytes for each of the letters with an accent.
    assert_eq!(mask_password("éé", 2), "****");
    assert_eq!(mask_password("éabcé", 2), "é***é");
    assert_eq!(make_stars(3), "***");
}

#[test]
fn key_value_is_split_at_the_first_equals_sign() {
    assert_eq!(parse_key_value("a=b"), Ok(("a".to_string(), "b".to_string())));
    assert_eq!(parse_key_value("  user = alice smith \n"), Ok(("user".to_string(), "alice smith".to_string())));
    assert_eq!(parse_key_value("k=v=w"), Ok(("k".to_string(), "v=w".to_string())));
    assert_eq!(parse_key_value("="), Ok((String::new(), String::new())));
    assert_eq!(parse_key_value("k="), Ok(("k".to_string(), String::new())));
    assert_eq!(
        parse_key_value("no separator"),
        Err(BunkerError::Other("Invalid format. Expected: key=value".to_string()))
    );
    assert!(parse_key_value("").is_err());
    let chars: Vec<char> = "a=b=c".chars().collect();
    assert_eq!(find_char(&chars, '='), Some(1));
    assert_eq!(find_char(&chars, 'x'), None);
}

#[test]
fn the_name_of_the_variable_for_a_key() {
    assert_eq!(env_var_name("email/my-gmail"), "EMAIL_MY_GMAIL");
    assert_eq!(env_var_name("api_key"), "API_KEY");
    assert_eq!(env_var_name(""), "");
    assert_eq!(env_var_name("straße"), "STRASSE");
}

#[test]
fn the_secret_takes_the_place_of_the_arguments_that_stand_for_it() {
    let command = strings(&["curl", "-u", "{}", "$PASSWORD", "{} ", "x"]);
    assert_eq!(command_args(&command, "pw", false), strings(&["-u", "pw", "pw", "{} ", "x"]));
    assert_eq!(command_args(&command, "pw", true), strings(&["-u", "{}", "$PASSWORD", "{} ", "x"]));
    assert_eq!(command_args(&strings(&["ls"]), "pw", false), Vec::<String>::new());
}

#[test]
fn the_defaults_of_the_settings() {
    let config = Config::default();
    assert_eq!(config.default_vault, "default");
    assert_eq!(config.editor, None);
    assert!(!config.auto_sync);
    assert_eq!(config.auto_lock_minutes, Some(15));
    assert_eq!(config.clipboard_timeout, 45);
    assert!(config.theme.use_colors && config.theme.use_icons);
    assert_eq!(Config::config_path(), strings(&["config.toml"]));
}

#[test]
fn the_editor_is_chosen_in_order() {
    let mut config = Config::default();
    let e = Some("nano".to_string());
    let v = Some("code".to_string());
    assert_eq!(config.editor(e.clone(), v.clone(), false), "nano");
    assert_eq!(config.editor(None, v.clone(), false), "code");
    assert_eq!(config.editor(None, None, false), "vi");
    assert_eq!(config.editor(None, None, true), "notepad");
    config.editor = Some("emacs".to_string());
    assert_eq!(config.editor(e, v, true), "emacs");
}

#[test]
fn the_base_directories_are_made() {
    let mut fs = FileTree::new();
    assert_eq!(ensure_config_dir(&mut fs), Ok(()));
    for name in ["vaults", "sessions", "backups"] {
        assert!(fs.is_dir(&strings(&[name])));
    }
    assert_eq!(fs.len(), 3);
    assert_eq!(ensure_config_dir(&mut fs), Ok(()));
    assert_eq!(fs.len(), 3);
    let mut blocked = FileTree::new();
    blocked.write(&strings(&["sessions"]), vec![]).unwrap();
    assert!(matches!(ensure_config_dir(&mut blocked), Err(BunkerError::IoError(_))));
}

#[test]
fn the_defaults_of_the_types() {
    assert_eq!(EntryType::default(), EntryType::Password);
    let e = EncryptionConfig::default();
    assert_eq!(e.algorithm, "chacha20poly1305");
    assert_eq!(e.kdf, "argon2id");
    assert_eq!((e.kdf_iterations, e.kdf_memory, e.kdf_parallelism), (3, 65536, 2));
    assert_eq!(e.duplicate(), e);
    let t = Theme::default();
    assert_eq!(t.success_prefix, "✓");
    assert_eq!(t.error_prefix, "✗");
    assert_eq!(t.warning_prefix, "⚠");
    assert_eq!(t.info_prefix, "→");
    assert_eq!(t.tree_chars.vertical, "│");
    assert_eq!(t.tree_chars.horizontal, "─");
    assert_eq!(t.tree_chars.branch, "├──");
    assert_eq!(t.tree_chars.last_branch, "└──");
}

#[test]
fn what_is_asked_of_the_history_store() {
    assert_eq!(Git::after_change(false, true, true), HistoryStep::Nothing);
    assert_eq!(Git::after_change(true, true, true), HistoryStep::CommitAndPush);
    assert_eq!(Git::after_change(true, true, false), HistoryStep::Commit);
    assert_eq!(Git::after_change(true, false, true), HistoryStep::Commit);
    assert_eq!(Git::after_change(true, false, false), HistoryStep::Commit);
}

#[test]
fn the_line_for_a_change() {
    let flags = |n: bool, m: bool, d: bool| ChangeFlags { is_new: n, is_modified: m, is_deleted: d };
    assert_eq!(Git::status_line(flags(true, true, true), "store/a.json"), "A store/a.json");
    assert_eq!(Git::status_line(flags(false, true, true), "x"), "M x");
    assert_eq!(Git::status_line(flags(false, false, true), "x"), "D x");
    assert_eq!(Git::status_line(flags(false, false, false), ""), "? ");
}

#[test]
fn the_short_form_of_a_hash_and_the_file_of_an_entry() {
    assert_eq!(Git::short_hash("0123456789abcdef"), "01234567");
    assert_eq!(Git::short_hash("01234567"), "01234567");
    assert_eq!(Git::short_hash("abc"), "abc");
    assert_eq!(Git::short_hash(""), "");
    assert_eq!(Git::entry_file("email/gmail"), "store/email/gmail.json");
}

#[test]
fn the_messages_of_the_errors() {
    assert_eq!(BunkerError::VaultNotFound("v".to_string()).message(), "Vault not found: v");
    assert_eq!(BunkerError::EntryNotFound("a/b".to_string()).message(), "Entry not found: a/b");
    assert_eq!(BunkerError::VaultExists("v".to_string()).message(), "Vault already exists: v");
    assert_eq!(BunkerError::InvalidPassword.message(), BunkerError::DecryptFailure.message());
    assert_eq!(BunkerError::SessionExpired.message(), "Session expired");
    assert_eq!(BunkerError::NoSession.message(), "No active session");
    assert_eq!(BunkerError::EncryptFailure.message(), "Encryption failed");
    assert_eq!(BunkerError::KdfFailure.message(), "Key derivation failed");
    assert_eq!(BunkerError::IoError("x".to_string()).message(), "IO error: x");
    assert_eq!(BunkerError::SerializationError("x".to_string()).message(), "Serialization error: x");
    assert_eq!(BunkerError::ConfigError("x".to_string()).message(), "Configuration error: x");
    assert_eq!(BunkerError::ChecksumMismatch.message(), "Checksum verification failed");
    assert_eq!(BunkerError::ImportError("x".to_string()).message(), "Import error: x");
    assert_eq!(BunkerError::ExportError("x".to_string()).message(), "Export error: x");
    assert_eq!(BunkerError::HistoryStoreError("x".to_string()).message(), "History store error: x");
    assert_eq!(BunkerError::ClipboardError("x".to_string()).message(), "Clipboard error: x");
    assert_eq!(BunkerError::Other("plain".to_string()).message(), "plain");
}

#[test]
fn the_default_vault_is_adopted_and_kept() {
    let mut config = Config::default();
    assert!(config.may_delete("work"));
    assert!(!config.may_delete("default"));
    assert!(!config.adopt("default"));
    assert_eq!(config.default_vault, "default");
    assert!(config.adopt("work"));
    assert_eq!(config.default_vault, "work");
    assert!(!config.adopt("home"));
    assert_eq!(config.default_vault, "work");
    assert!(!config.may_delete("work"));
    assert!(!config.may_delete("default"));
    assert!(config.may_delete("home"));
    assert_eq!(config.clipboard_timeout, 45);
}

#[test]
fn the_record_of_a_new_vault() {
    let now = bunker::types::Timestamp { secs: 7, nanos: 1 };
    let config = bunker::types::VaultConfig::new([3; 16], "v".to_string(), now);
    assert_eq!(config.id, [3; 16]);
    assert_eq!(config.name, "v");
    assert_eq!(config.created_at, now);
    assert_eq!(config.last_modified, now);
    assert_eq!(config.encryption, EncryptionConfig::default());
    assert_eq!(config.git_remote, None);
    assert!(config.auto_sync);
    assert_eq!(config.auto_lock_minutes, Some(15));
}
