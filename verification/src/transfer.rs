//! Entries in the clear as they are handed out and taken in: lines of
//! comma-separated fields, blocks in the format of the password store, and
//! small helpers of the commands that work on lists of keys and tags.

use vstd::prelude::*;

use crate::primitives::{lines, text_of, trim, trimmed};
use crate::text::{append_chars, chars_of, join, join_texts, lines_of, split, split_text};
use crate::types::{
    opt_text, texts, EncryptedValue, Entry, EntryMetadata, EntryMetadataView, EntryType,
    EntryTypeView, EntryView, ExportEntry, GenerateOptions, Timestamp,
};

verus! {

/// The mathematical value of an [`ExportEntry`].
pub struct ExportEntryView {
    pub key: Seq<char>,
    pub value: Seq<char>,
    pub username: Option<Seq<char>>,
    pub url: Option<Seq<char>>,
    pub notes: Option<Seq<char>>,
    pub tags: Seq<Seq<char>>,
    pub created_at: Timestamp,
    pub updated_at: Timestamp,
}

impl View for ExportEntry {
    type V = ExportEntryView;

    open spec fn view(&self) -> ExportEntryView {
        ExportEntryView {
            key: self.key@,
            value: self.value@,
            username: opt_text(self.username),
            url: opt_text(self.url),
            notes: opt_text(self.notes),
            tags: texts(self.tags@),
            created_at: self.created_at,
            updated_at: self.updated_at,
        }
    }
}

/// An optional text, or the empty text where there is none.
pub open spec fn or_empty(text: Option<Seq<char>>) -> Seq<char> {
    match text {
        Some(t) => t,
        None => Seq::empty(),
    }
}

/// The first line of a file of comma-separated entries.
pub open spec fn csv_header() -> Seq<char> {
    "key,value,username,url,notes,tags,created_at,updated_at\n"@
}

/// The line of one entry in a file of comma-separated entries: its eight
/// fields with commas between them, the tags with semicolons between them,
/// and the two instants as the texts given.
pub open spec fn csv_line(entry: ExportEntryView, created_at: Seq<char>, updated_at: Seq<char>) -> Seq<
    char,
> {
    entry.key + seq![','] + entry.value + seq![','] + or_empty(entry.username) + seq![',']
        + or_empty(entry.url) + seq![','] + or_empty(entry.notes) + seq![','] + join(
        entry.tags,
        ';',
    ) + seq![','] + created_at + seq![','] + updated_at + seq!['\n']
}

/// The block of one entry in the format of the password store: the key
/// with a colon, the secret, the user name and the address where there
/// are any, and an empty line.
pub open spec fn pass_block(entry: ExportEntryView) -> Seq<char> {
    entry.key + ":\n"@ + entry.value + seq!['\n'] + (match entry.username {
        Some(t) => "username: "@ + t + seq!['\n'],
        None => Seq::empty(),
    }) + (match entry.url {
        Some(t) => "url: "@ + t + seq!['\n'],
        None => Seq::empty(),
    }) + seq!['\n']
}

/// An entry in the clear, as it is handed out: the notes and the tags go
/// with it only where the metadata is asked for.
pub open spec fn exported(entry: EntryView, value: Seq<char>, include_metadata: bool) -> (r:
    ExportEntryView) {
    ExportEntryView {
        key: entry.key,
        value,
        username: entry.metadata.username,
        url: entry.metadata.url,
        notes: if include_metadata {
            entry.metadata.notes
        } else {
            None
        },
        tags: if include_metadata {
            entry.metadata.tags
        } else {
            Seq::empty()
        },
        created_at: entry.created_at,
        updated_at: entry.updated_at,
    }
}

/// The entry that is made of an entry in the clear that comes in: a
/// password entry with the fields that came, made when it says and
/// updated `now`.
pub open spec fn imported_entry(
    import: ExportEntryView,
    id: Seq<u8>,
    value: crate::types::EncryptedValueView,
    now: Timestamp,
) -> EntryView {
    EntryView {
        id,
        key: import.key,
        value,
        metadata: EntryMetadataView {
            entry_type: EntryTypeView::Password,
            tags: import.tags,
            notes: import.notes,
            url: import.url,
            username: import.username,
            custom_fields: Seq::empty(),
            expires_at: None,
            auto_type: None,
        },
        created_at: import.created_at,
        updated_at: now,
        accessed_at: None,
    }
}

/// The field in place `i` of a line, where the line has that many fields
/// and the field is not empty.
pub open spec fn field_at(fields: Seq<Seq<char>>, i: int) -> Option<Seq<char>> {
    if i < fields.len() && fields[i].len() > 0 {
        Some(fields[i])
    } else {
        None
    }
}

/// The entry that a line of comma-separated fields stands for, read at
/// `now`; none where the line has fewer than two fields.
pub open spec fn csv_entry(line: Seq<char>, now: Timestamp) -> Option<ExportEntryView> {
    let fields = split(line, ',');
    if fields.len() >= 2 {
        Some(
            ExportEntryView {
                key: fields[0],
                value: fields[1],
                username: field_at(fields, 2),
                url: field_at(fields, 3),
                notes: field_at(fields, 4),
                tags: match field_at(fields, 5) {
                    Some(tags) => split(tags, ';'),
                    None => Seq::empty(),
                },
                created_at: now,
                updated_at: now,
            },
        )
    } else {
        None
    }
}

/// The entries that the first `n` lines stand for, the first line apart,
/// which is the header.
pub open spec fn csv_entries_upto(lines: Seq<Seq<char>>, now: Timestamp, n: int) -> Seq<
    ExportEntryView,
>
    decreases n,
{
    if n <= 1 {
        Seq::empty()
    } else {
        match csv_entry(lines[n - 1], now) {
            Some(entry) => csv_entries_upto(lines, now, n - 1).push(entry),
            None => csv_entries_upto(lines, now, n - 1),
        }
    }
}

/// The entries that a file of comma-separated entries holds, read at
/// `now`.
pub open spec fn csv_entries(content: Seq<char>, now: Timestamp) -> Seq<ExportEntryView> {
    csv_entries_upto(lines_of(content), now, lines_of(content).len() as int)
}

/// The views of a list of entries in the clear, in order.
pub open spec fn export_views(list: Seq<ExportEntry>) -> Seq<ExportEntryView> {
    list.map_values(|e: ExportEntry| e@)
}

/// The tags that a text names: its parts between the commas, without the
/// white space around them, those left out that are then empty.
pub open spec fn tags_of(input: Seq<char>) -> Seq<Seq<char>> {
    split(input, ',').map_values(|t: Seq<char>| trimmed(t)).filter(not_empty())
}

/// The texts of a list that begin with `prefix`, in order.
pub open spec fn with_prefix(list: Seq<Seq<char>>, prefix: Seq<char>) -> Seq<Seq<char>> {
    list.filter(begins_with(prefix))
}

/// The test for a text that begins with `prefix`.
pub open spec fn begins_with(prefix: Seq<char>) -> spec_fn(Seq<char>) -> bool {
    |t: Seq<char>| t.len() >= prefix.len() && t.take(prefix.len() as int) == prefix
}

/// The test for a text that is not empty.
pub open spec fn not_empty() -> spec_fn(Seq<char>) -> bool {
    |t: Seq<char>| t.len() > 0
}

/// Appends an optional text.
fn append_opt(out: &mut Vec<char>, text: &Option<String>)
    ensures
        final(out)@ == old(out)@ + or_empty(opt_text(*text)),
{
    match text {
        Some(t) => append_chars(out, t.as_str()),
        None => {
            assert(out@ + Seq::<char>::empty() =~= out@);
        },
    }
}

/// The first line of a file of comma-separated entries.
pub fn render_csv_header() -> (r: String)
    ensures
        r@ == csv_header(),
{
    "key,value,username,url,notes,tags,created_at,updated_at\n".to_string()
}

/// The line of one entry in a file of comma-separated entries.
pub fn render_csv_line(entry: &ExportEntry, created_at: &str, updated_at: &str) -> (r: String)
    ensures
        r@ == csv_line(entry@, created_at@, updated_at@),
{
    let mut out = chars_of(entry.key.as_str());
    out.push(',');
    append_chars(&mut out, entry.value.as_str());
    out.push(',');
    append_opt(&mut out, &entry.username);
    out.push(',');
    append_opt(&mut out, &entry.url);
    out.push(',');
    append_opt(&mut out, &entry.notes);
    out.push(',');
    let tags = join_texts(&entry.tags, ';');
    let tags_text = text_of(&tags);
    append_chars(&mut out, tags_text.as_str());
    out.push(',');
    append_chars(&mut out, created_at);
    out.push(',');
    append_chars(&mut out, updated_at);
    out.push('\n');
    assert(out@ =~= csv_line(entry@, created_at@, updated_at@));
    text_of(&out)
}

/// The block of one entry in the format of the password store.
pub fn render_pass_block(entry: &ExportEntry) -> (r: String)
    ensures
        r@ == pass_block(entry@),
{
    let mut out = chars_of(entry.key.as_str());
    append_chars(&mut out, ":\n");
    append_chars(&mut out, entry.value.as_str());
    out.push('\n');
    match &entry.username {
        Some(t) => {
            append_chars(&mut out, "username: ");
            append_chars(&mut out, t.as_str());
            out.push('\n');
        },
        None => {},
    }
    match &entry.url {
        Some(t) => {
            append_chars(&mut out, "url: ");
            append_chars(&mut out, t.as_str());
            out.push('\n');
        },
        None => {},
    }
    out.push('\n');
    assert(out@ =~= pass_block(entry@));
    text_of(&out)
}

/// An entry in the clear, as it is handed out.
pub fn export_entry(entry: &Entry, value: String, include_metadata: bool) -> (r: ExportEntry)
    ensures
        r@ == exported(entry@, value@, include_metadata),
{
    let r = ExportEntry {
        key: entry.key.clone(),
        value,
        username: crate::types::duplicate_opt_text(&entry.metadata.username),
        url: crate::types::duplicate_opt_text(&entry.metadata.url),
        notes: if include_metadata {
            crate::types::duplicate_opt_text(&entry.metadata.notes)
        } else {
            None
        },
        tags: if include_metadata {
            crate::types::duplicate_texts(&entry.metadata.tags)
        } else {
            Vec::new()
        },
        created_at: entry.created_at,
        updated_at: entry.updated_at,
    };
    assert(texts(Seq::<String>::empty()) =~= Seq::empty());
    r
}

/// The entry that is made of an entry in the clear that comes in.
pub fn import_entry(import: ExportEntry, id: [u8; 16], value: EncryptedValue, now: Timestamp) -> (r:
    Entry)
    ensures
        r@ == imported_entry(import@, id@, value@, now),
{
    let metadata = EntryMetadata {
        entry_type: EntryType::Password,
        tags: import.tags,
        notes: import.notes,
        url: import.url,
        username: import.username,
        custom_fields: Vec::new(),
        expires_at: None,
        auto_type: None,
    };
    assert(crate::types::text_pairs(metadata.custom_fields@) =~= Seq::empty());
    Entry {
        id,
        key: import.key,
        value,
        metadata,
        created_at: import.created_at,
        updated_at: now,
        accessed_at: None,
    }
}

/// The field in place `i` of a line, where there is one that is not
/// empty.
fn take_field(fields: &Vec<String>, i: usize) -> (r: Option<String>)
    ensures
        opt_text(r) == field_at(texts(fields@), i as int),
{
    if i < fields.len() {
        assert(texts(fields@)[i as int] == fields@[i as int]@);
        let chars = chars_of(fields[i].as_str());
        if chars.len() > 0 {
            return Some(fields[i].clone());
        }
    }
    None
}

/// The entry that a line of comma-separated fields stands for.
pub fn parse_csv_line(line: &str, now: Timestamp) -> (r: Option<ExportEntry>)
    ensures
        match r {
            Some(entry) => csv_entry(line@, now) == Some(entry@),
            None => csv_entry(line@, now) is None,
        },
{
    let fields = split_text(line, ',');
    if fields.len() < 2 {
        return None;
    }
    assert(texts(fields@)[0] == fields@[0]@);
    assert(texts(fields@)[1] == fields@[1]@);
    let tags = match take_field(&fields, 5) {
        Some(tags) => split_text(tags.as_str(), ';'),
        None => {
            assert(texts(Seq::<String>::empty()) =~= Seq::empty());
            Vec::new()
        },
    };
    Some(
        ExportEntry {
            key: fields[0].clone(),
            value: fields[1].clone(),
            username: take_field(&fields, 2),
            url: take_field(&fields, 3),
            notes: take_field(&fields, 4),
            tags,
            created_at: now,
            updated_at: now,
        },
    )
}

/// The entries that a file of comma-separated entries holds: one for each
/// line behind the header that has two fields or more.
pub fn parse_csv(content: &str, now: Timestamp) -> (r: Vec<ExportEntry>)
    ensures
        export_views(r@) == csv_entries(content@, now),
{
    let all = lines(content);
    let mut out: Vec<ExportEntry> = Vec::new();
    let mut i: usize = 1;
    assert(export_views(out@) =~= Seq::empty());
    while i < all.len()
        invariant
            1 <= i,
            texts(all@) == lines_of(content@),
            i <= all.len() ==> export_views(out@) == csv_entries_upto(
                lines_of(content@),
                now,
                i as int,
            ),
            i > all.len() ==> all.len() == 0 && out@.len() == 0,
        decreases all.len() - i,
    {
        assert(texts(all@)[i as int] == all@[i as int]@);
        let ghost before = out@;
        match parse_csv_line(all[i].as_str(), now) {
            Some(entry) => {
                out.push(entry);
                assert(export_views(out@) =~= export_views(before).push(entry@));
            },
            None => {},
        }
        i += 1;
    }
    assert(export_views(out@) =~= csv_entries(content@, now)) by {
        if all.len() == 0 {
            assert(export_views(out@) =~= Seq::empty());
        }
    }
    out
}

/// The tags that a text names.
pub fn parse_tags(input: &str) -> (r: Vec<String>)
    ensures
        texts(r@) == tags_of(input@),
{
    let parts = split_text(input, ',');
    let ghost trimmed_parts = split(input@, ',').map_values(|t: Seq<char>| trimmed(t));
    let mut out: Vec<String> = Vec::new();
    let mut i: usize = 0;
    assert(trimmed_parts.take(0) =~= Seq::empty());
    assert(texts(out@) =~= Seq::empty());
    while i < parts.len()
        invariant
            i <= parts.len(),
            texts(parts@) == split(input@, ','),
            trimmed_parts == split(input@, ',').map_values(|t: Seq<char>| trimmed(t)),
            texts(out@) == trimmed_parts.take(i as int).filter(not_empty()),
        decreases parts.len() - i,
    {
        assert(texts(parts@)[i as int] == parts@[i as int]@);
        let tag = trim(parts[i].as_str());
        let chars = chars_of(tag);
        proof {
            let head = trimmed_parts.take(i as int);
            assert(trimmed_parts.take(i + 1) =~= head.push(trimmed_parts[i as int]));
            head.lemma_filter_push(trimmed_parts[i as int], not_empty());
        }
        if chars.len() > 0 {
            let ghost before = out@;
            out.push(tag.to_string());
            assert(texts(out@) =~= texts(before).push(tag@));
        }
        i += 1;
    }
    assert(trimmed_parts.take(parts.len() as int) =~= trimmed_parts);
    out
}

/// Whether `text` begins with `prefix`.
pub fn starts_with(text: &str, prefix: &Vec<char>) -> (r: bool)
    ensures
        r == begins_with(prefix@)(text@),
{
    let chars = chars_of(text);
    if chars.len() < prefix.len() {
        return false;
    }
    let mut i: usize = 0;
    while i < prefix.len()
        invariant
            i <= prefix.len() <= chars.len(),
            chars@ == text@,
            forall|k: int| 0 <= k < i ==> chars@[k] == prefix@[k],
        decreases prefix.len() - i,
    {
        if chars[i] != prefix[i] {
            assert(text@.take(prefix@.len() as int)[i as int] != prefix@[i as int]);
            return false;
        }
        i += 1;
    }
    assert(text@.take(prefix@.len() as int) =~= prefix@);
    true
}

/// The keys of a list that begin with `prefix`, in order.
pub fn filter_prefix(list: &Vec<String>, prefix: &str) -> (r: Vec<String>)
    ensures
        texts(r@) == with_prefix(texts(list@), prefix@),
{
    let wanted = chars_of(prefix);
    let mut out: Vec<String> = Vec::new();
    let mut i: usize = 0;
    assert(texts(list@).take(0) =~= Seq::empty());
    assert(texts(out@) =~= Seq::empty());
    while i < list.len()
        invariant
            i <= list.len(),
            wanted@ == prefix@,
            texts(out@) == texts(list@).take(i as int).filter(begins_with(prefix@)),
        decreases list.len() - i,
    {
        proof {
            let head = texts(list@).take(i as int);
            assert(texts(list@).take(i + 1) =~= head.push(list@[i as int]@));
            head.lemma_filter_push(list@[i as int]@, begins_with(prefix@));
        }
        if starts_with(list[i].as_str(), &wanted) {
            let ghost before = out@;
            out.push(list[i].clone());
            assert(texts(out@) =~= texts(before).push(list@[i as int]@));
        }
        i += 1;
    }
    assert(texts(list@).take(list.len() as int) =~= texts(list@));
    out
}

/// The options for a password of `length` characters with lowercase
/// letters and without ambiguous characters, and with each of the other
/// classes unless it is switched off.
pub fn options_from_flags(length: usize, no_symbols: bool, no_numbers: bool, no_uppercase: bool) -> (r:
    GenerateOptions)
    ensures
        r.length == length,
        r.use_uppercase == !no_uppercase,
        r.use_lowercase,
        r.use_numbers == !no_numbers,
        r.use_symbols == !no_symbols,
        r.exclude_ambiguous,
        r.custom_charset is None,
{
    GenerateOptions {
        length,
        use_uppercase: !no_uppercase,
        use_lowercase: true,
        use_numbers: !no_numbers,
        use_symbols: !no_symbols,
        exclude_ambiguous: true,
        custom_charset: None,
    }
}

} // verus!
