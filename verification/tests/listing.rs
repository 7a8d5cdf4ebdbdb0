use bunker::listing::{top_directories, tree_rows, TreeRow};
use bunker::transfer::{
    export_entry, filter_prefix, import_entry, options_from_flags, parse_csv, parse_csv_line,
    parse_tags, render_csv_line, render_pass_block, starts_with,
};
use bunker::types::{
    EncryptedValue, Entry, EntryMetadata, EntryType, ExportEntry, Timestamp,
};

fn strings(list: &[&str]) -> Vec<String> {
    list.iter().map(|s| s.to_string()).collect()
}

fn row(prefix: &str, connector: &str, label: &str, is_dir: bool) -> TreeRow {
    TreeRow {
        prefix: prefix.to_string(),
        connector: connector.to_string(),
        label: label.to_string(),
        is_dir,
    }
}

fn export(key: &str, value: &str) -> ExportEntry {
    ExportEntry {
        key: key.to_string(),
        value: value.to_string(),
        username: None,
        url: None,
        notes: None,
        tags: Vec::new(),
        created_at: Timestamp { secs: 1, nanos: 0 },
        updated_at: Timestamp { secs: 2, nanos: 0 },
    }
}

#[test]
fn a_tree_of_keys() {
    let rows = tree_rows(&strings(&["web/github", "bank", "web/mail/work", "web/mail/home", "zed"]), "");
    assert_eq!(
        rows,
        vec![
            row("", "├──", "bank", false),
            row("", "├──", "zed", false),
            row("", "└──", "web", true),
            row("    ", "├──", "github", false),
            row("    ", "└──", "mail", true),
            row("        ", "└──", "work", false),
            row("        ", "└──", "home", false),
        ]
    );
}

#[test]
fn a_tree_with_a_prefix_and_a_directory_that_is_not_last() {
    let rows = tree_rows(&strings(&["a/x", "b/y"]), "> ");
    assert_eq!(
        rows,
        vec![
            row("> ", "├──", "a", true),
            row("> │   ", "└──", "x", false),
            row("> ", "└──", "b", true),
            row(">     ", "└──", "y", false),
        ]
    );
}

#[test]
fn a_tree_of_nothing_and_of_plain_keys() {
    assert_eq!(tree_rows(&Vec::new(), ""), Vec::new());
    assert_eq!(
        tree_rows(&strings(&["b", "a"]), ""),
        vec![row("", "└──", "b", false), row("", "└──", "a", false)]
    );
    assert_eq!(
        tree_rows(&strings(&["Z/k", "a/k"]), ""),
        vec![
            row("", "├──", "Z", true),
            row("│   ", "└──", "k", false),
            row("", "└──", "a", true),
            row("    ", "└──", "k", false),
        ]
    );
}

#[test]
fn csv_and_pass_lines() {
    let mut e = export("email/gmail", "hunter2");
    assert_eq!(
        render_csv_line(&e, "2024-01-01 00:00:00 UTC", "2024-01-02 00:00:00 UTC"),
        "email/gmail,hunter2,,,,,2024-01-01 00:00:00 UTC,2024-01-02 00:00:00 UTC\n"
    );
    assert_eq!(render_pass_block(&e), "email/gmail:\nhunter2\n\n");
    assert_eq!(
        bunker::transfer::render_csv_header(),
        "key,value,username,url,notes,tags,created_at,updated_at\n"
    );
    e.username = Some("alice".to_string());
    e.url = Some("https://x".to_string());
    e.notes = Some("n".to_string());
    e.tags = strings(&["a", "b"]);
    assert_eq!(render_csv_line(&e, "c", "u"), "email/gmail,hunter2,alice,https://x,n,a;b,c,u\n");
    assert_eq!(
        render_pass_block(&e),
        "email/gmail:\nhunter2\nusername: alice\nurl: https://x\n\n"
    );
}

#[test]
fn csv_is_read_line_by_line() {
    let now = Timestamp { secs: 9, nanos: 1 };
    let content = "key,value,username,url,notes,tags\nk1,v1,alice,,note,a;b\r\nshort\nk2,v2\n\n";
    let entries = parse_csv(content, now);
    assert_eq!(entries.len(), 2);
    assert_eq!(
        entries[0],
        ExportEntry {
            key: "k1".to_string(),
            value: "v1".to_string(),
            username: Some("alice".to_string()),
            url: None,
            notes: Some("note".to_string()),
            tags: strings(&["a", "b"]),
            created_at: now,
            updated_at: now,
        }
    );
    assert_eq!(entries[1].key, "k2");
    assert_eq!(entries[1].tags, Vec::<String>::new());
    assert_eq!(parse_csv("", now), Vec::new());
    assert_eq!(parse_csv("header only", now), Vec::new());
    assert_eq!(parse_csv_line("one", now), None);
    assert_eq!(parse_csv_line(",", now).unwrap().key, "");
}

#[test]
fn entries_in_the_clear() {
    let mut metadata = EntryMetadata::empty();
    metadata.username = Some("u".to_string());
    metadata.notes = Some("n".to_string());
    metadata.tags = strings(&["t"]);
    let entry = Entry {
        id: [1; 16],
        key: "k".to_string(),
        value: EncryptedValue { nonce: vec![], ciphertext: vec![], salt: vec![] },
        metadata,
        created_at: Timestamp { secs: 1, nanos: 0 },
        updated_at: Timestamp { secs: 2, nanos: 0 },
        accessed_at: None,
    };
    let with = export_entry(&entry, "v".to_string(), true);
    assert_eq!(with.notes, Some("n".to_string()));
    assert_eq!(with.tags, strings(&["t"]));
    assert_eq!(with.username, Some("u".to_string()));
    let without = export_entry(&entry, "v".to_string(), false);
    assert_eq!(without.notes, None);
    assert_eq!(without.tags, Vec::<String>::new());
    assert_eq!(without.username, Some("u".to_string()));
    assert_eq!(without.value, "v");
    let value = EncryptedValue { nonce: vec![1], ciphertext: vec![2], salt: vec![3] };
    let back = import_entry(with, [7; 16], value.clone(), Timestamp { secs: 5, nanos: 0 });
    assert_eq!(back.id, [7; 16]);
    assert_eq!(back.value, value);
    assert_eq!(back.metadata.entry_type, EntryType::Password);
    assert_eq!(back.metadata.tags, strings(&["t"]));
    assert_eq!(back.created_at, Timestamp { secs: 1, nanos: 0 });
    assert_eq!(back.updated_at, Timestamp { secs: 5, nanos: 0 });
    assert_eq!(back.accessed_at, None);
}

#[test]
fn tags_and_prefixes() {
    assert_eq!(parse_tags(" a, b ,,c "), strings(&["a", "b", "c"]));
    assert_eq!(parse_tags(" , "), Vec::<String>::new());
    assert_eq!(parse_tags(""), Vec::<String>::new());
    let keys = strings(&["web/a", "bank", "web/b", "we"]);
    assert_eq!(filter_prefix(&keys, "web"), strings(&["web/a", "web/b"]));
    assert_eq!(filter_prefix(&keys, ""), keys);
    assert_eq!(filter_prefix(&keys, "x"), Vec::<String>::new());
    let prefix: Vec<char> = "we".chars().collect();
    assert!(starts_with("we", &prefix));
    assert!(!starts_with("w", &prefix));
}

#[test]
fn options_from_the_flags_of_the_command() {
    let o = options_from_flags(12, true, false, true);
    assert_eq!(o.length, 12);
    assert!(o.use_lowercase && o.use_numbers && o.exclude_ambiguous);
    assert!(!o.use_symbols && !o.use_uppercase);
    assert_eq!(o.custom_charset, None);
}

#[test]
fn the_directories_with_the_most_keys_come_first() {
    let keys = strings(&["web/a", "bank", "web/b", "mail/x", "web/c", "mail/y", "zed", "a/b/c"]);
    let count = |name: &str, n: usize| (name.to_string(), n);
    assert_eq!(
        top_directories(&keys, 10),
        vec![count("web", 3), count("mail", 2), count("a", 1), count("bank", 1), count("zed", 1)]
    );
    assert_eq!(top_directories(&keys, 2), vec![count("web", 3), count("mail", 2)]);
    assert_eq!(top_directories(&keys, 0), Vec::new());
    assert_eq!(top_directories(&Vec::new(), 5), Vec::new());
    assert_eq!(top_directories(&strings(&["/x", ""]), 5), vec![count("", 2)]);
}

#[test]
fn csv_lines_end_at_line_feeds() {
    let now = Timestamp { secs: 1, nanos: 0 };
    let keys = |content: &str| -> Vec<(String, String)> {
        parse_csv(content, now).into_iter().map(|e| (e.key, e.value)).collect()
    };
    let pair = |k: &str, v: &str| (k.to_string(), v.to_string());
    assert_eq!(keys("h\nk,v"), vec![pair("k", "v")]);
    assert_eq!(keys("h\nk,v\n"), vec![pair("k", "v")]);
    assert_eq!(keys("h\r\nk,v\r\n"), vec![pair("k", "v")]);
    assert_eq!(keys("h\nk,v\r"), vec![pair("k", "v\r")]);
    assert_eq!(keys("h\nk,v\r\r\n"), vec![pair("k", "v\r")]);
    assert_eq!(keys("h\nk,v\rw\n"), vec![pair("k", "v\rw")]);
    assert_eq!(keys("h\n\n\nk,v\n\n"), vec![pair("k", "v")]);
    assert_eq!(keys("\nk,v"), vec![pair("k", "v")]);
    assert_eq!(keys("\n"), Vec::new());
    assert_eq!(keys("k,v"), Vec::new());
    for content in ["a,b\r\nc,d\ne,f\r", "\r\n\r\n", "x,y\n\r", "\r", "p,q\n\nr,s"] {
        let lines: Vec<&str> = content.lines().collect();
        let expected: Vec<(String, String)> = lines
            .iter()
            .skip(1)
            .filter(|l| l.contains(','))
            .map(|l| {
                let fields: Vec<&str> = l.split(',').collect();
                pair(fields[0], fields[1])
            })
            .collect();
        assert_eq!(keys(content), expected);
    }
}
