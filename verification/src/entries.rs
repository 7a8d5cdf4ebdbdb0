//! Entries as they are stored and as they are used: sealing an entry
//! before it is written, opening it after it is read, and the search
//! through the opened entries of a vault.

use vstd::prelude::*;

use crate::codec::{decode, decode_value, encode, encode_value};
use crate::crypto::{opened, seals, Crypto};
use crate::error::{BunkerError, BunkerErrorView};
use crate::primitives::{
    aead_accepts, lowercase, regex_find, regex_found, to_lowercase, utf8_text,
};
use crate::storage::Storage;
use crate::text::{chars_of, contains_text, occurs_in};
use crate::types::{EncryptedValueView, Entry, EntryView, MasterKey, NONCE_SIZE};

verus! {

/// The view of the outcome of an operation that gives an entry.
pub open spec fn entry_outcome(r: Result<Entry, BunkerError>) -> Result<EntryView, BunkerErrorView> {
    match r {
        Ok(entry) => Ok(entry@),
        Err(e) => Err(e@),
    }
}

/// The message of the error for a decrypted value that is no document of
/// an encrypted value.
pub open spec fn bad_value_message() -> Seq<char> {
    "stored value is malformed"@
}

/// The message of the error for a secret that is no text.
pub open spec fn bad_text_message() -> Seq<char> {
    "secret is not valid UTF-8"@
}

/// What opening a stored entry under `key` gives: the entry with the value
/// that the stored value hides. There is none where the nonce has the
/// wrong length or the tag does not match (`DecryptFailure`), or where what
/// comes out is no document of an encrypted value (`SerializationError`).
pub open spec fn opened_entry(stored: EntryView, key: Seq<u8>) -> Result<EntryView, BunkerErrorView> {
    if stored.value.nonce.len() != NONCE_SIZE {
        Err(BunkerErrorView::DecryptFailure)
    } else {
        match opened(stored.value, key) {
            None => Err(BunkerErrorView::DecryptFailure),
            Some(document) => match decode_value(document) {
                None => Err(BunkerErrorView::SerializationError(bad_value_message())),
                Some(value) => Ok(stored.with_value(value)),
            },
        }
    }
}

/// The secret of an entry as text: its value decrypted under `key`. There
/// is none where the nonce has the wrong length or the tag does not match
/// (`DecryptFailure`), or where the secret is no valid UTF-8 (`Other`).
pub open spec fn secret_text(value: EncryptedValueView, key: Seq<u8>) -> Result<
    Seq<char>,
    BunkerErrorView,
> {
    if value.nonce.len() != NONCE_SIZE {
        Err(BunkerErrorView::DecryptFailure)
    } else {
        match opened(value, key) {
            None => Err(BunkerErrorView::DecryptFailure),
            Some(secret) => if vstd::utf8::valid_utf8(secret) {
                Ok(vstd::utf8::decode_utf8(secret))
            } else {
                Err(BunkerErrorView::Other(bad_text_message()))
            },
        }
    }
}

/// Whether `text` holds `needle` when its case is ignored; `needle` is in
/// lowercase already.
pub open spec fn holds(text: Seq<char>, needle: Seq<char>) -> bool {
    occurs_in(needle, lowercase(text))
}

/// Whether an optional text holds `needle` when its case is ignored.
pub open spec fn opt_holds(text: Option<Seq<char>>, needle: Seq<char>) -> bool {
    match text {
        Some(t) => holds(t, needle),
        None => false,
    }
}

/// Whether an entry matches a query: the query occurs, case ignored, in
/// the logical key, the secret, the user name, the notes, the address, one
/// of the tags or the value of one of the custom fields.
pub open spec fn matches_query(
    entry_key: Seq<char>,
    entry: EntryView,
    secret: Seq<char>,
    query: Seq<char>,
) -> bool {
    let needle = lowercase(query);
    ||| holds(entry_key, needle)
    ||| holds(secret, needle)
    ||| opt_holds(entry.metadata.username, needle)
    ||| opt_holds(entry.metadata.notes, needle)
    ||| opt_holds(entry.metadata.url, needle)
    ||| exists|i: int|
        0 <= i < entry.metadata.tags.len() && holds(#[trigger] entry.metadata.tags[i], needle)
    ||| exists|i: int|
        0 <= i < entry.metadata.custom_fields.len() && holds(
            (#[trigger] entry.metadata.custom_fields[i]).1,
            needle,
        )
}

/// The views of a list of keys with their entries, in order.
pub open spec fn keyed(list: Seq<(String, Entry)>) -> Seq<(Seq<char>, EntryView)> {
    list.map_values(|p: (String, Entry)| (p.0@, p.1@))
}

/// What a search gives for the stored entries of a vault, in their order:
/// those that match the query, opened under `key`. The search fails at the
/// first entry that does not open or whose secret cannot be read, with the
/// error of opening or reading it: a failure of the cipher is handed on
/// at once.
pub open spec fn search_result(
    query: Seq<char>,
    key: Seq<u8>,
    stored: Seq<(Seq<char>, EntryView)>,
) -> Result<Seq<(Seq<char>, EntryView)>, BunkerErrorView>
    decreases stored.len(),
{
    if stored.len() == 0 {
        Ok(Seq::empty())
    } else {
        match search_result(query, key, stored.drop_last()) {
            Err(e) => Err(e),
            Ok(found) => match opened_entry(stored.last().1, key) {
                Err(e) => Err(e),
                Ok(entry) => match secret_text(entry.value, key) {
                    Err(e) => Err(e),
                    Ok(secret) => if matches_query(stored.last().0, entry, secret, query) {
                        Ok(found.push((stored.last().0, entry)))
                    } else {
                        Ok(found)
                    },
                },
            },
        }
    }
}

/// The view of the outcome of a search.
pub open spec fn search_outcome(r: Result<Vec<(String, Entry)>, BunkerError>) -> Result<
    Seq<(Seq<char>, EntryView)>,
    BunkerErrorView,
> {
    match r {
        Ok(found) => Ok(keyed(found@)),
        Err(e) => Err(e@),
    }
}

/// Whether `text` holds `needle` when its case is ignored.
pub fn text_holds(text: &str, needle: &Vec<char>) -> (r: bool)
    ensures
        r == holds(text@, needle@),
{
    let lower = to_lowercase(text);
    let hay = chars_of(lower.as_str());
    contains_text(&hay, needle)
}

/// Whether an optional text holds `needle` when its case is ignored.
pub fn opt_text_holds(text: &Option<String>, needle: &Vec<char>) -> (r: bool)
    ensures
        r == opt_holds(crate::types::opt_text(*text), needle@),
{
    match text {
        Some(t) => text_holds(t.as_str(), needle),
        None => false,
    }
}

/// Whether one of the tags holds `needle` when its case is ignored.
fn tags_hold(tags: &Vec<String>, needle: &Vec<char>) -> (r: bool)
    ensures
        r == exists|i: int|
            0 <= i < crate::types::texts(tags@).len() && holds(
                #[trigger] crate::types::texts(tags@)[i],
                needle@,
            ),
{
    let mut i: usize = 0;
    while i < tags.len()
        invariant
            i <= tags.len(),
            forall|k: int| 0 <= k < i ==> !holds(#[trigger] crate::types::texts(tags@)[k], needle@),
        decreases tags.len() - i,
    {
        if text_holds(tags[i].as_str(), needle) {
            assert(holds(crate::types::texts(tags@)[i as int], needle@));
            return true;
        }
        i += 1;
    }
    false
}

/// Whether the value of one of the fields holds `needle` when its case is
/// ignored.
fn fields_hold(fields: &Vec<(String, String)>, needle: &Vec<char>) -> (r: bool)
    ensures
        r == exists|i: int|
            0 <= i < crate::types::text_pairs(fields@).len() && holds(
                (#[trigger] crate::types::text_pairs(fields@)[i]).1,
                needle@,
            ),
{
    let mut i: usize = 0;
    while i < fields.len()
        invariant
            i <= fields.len(),
            forall|k: int|
                0 <= k < i ==> !holds((#[trigger] crate::types::text_pairs(fields@)[k]).1, needle@),
        decreases fields.len() - i,
    {
        if text_holds(fields[i].1.as_str(), needle) {
            assert(holds(crate::types::text_pairs(fields@)[i as int].1, needle@));
            return true;
        }
        i += 1;
    }
    false
}

/// The test for a field whose value holds `needle`.
pub open spec fn field_holds(needle: Seq<char>) -> spec_fn((Seq<char>, Seq<char>)) -> bool {
    |f: (Seq<char>, Seq<char>)| holds(f.1, needle)
}

/// The test for a text that holds `needle`.
pub open spec fn text_holding(needle: Seq<char>) -> spec_fn(Seq<char>) -> bool {
    |t: Seq<char>| holds(t, needle)
}

/// A line for an optional text that holds `needle`: the label and the
/// first `most` characters of the text. No line where there is no text or
/// it does not hold `needle`.
pub open spec fn labelled_if_holds(
    label: Seq<char>,
    text: Option<Seq<char>>,
    needle: Seq<char>,
    most: nat,
) -> Seq<Seq<char>> {
    match text {
        Some(t) => if holds(t, needle) {
            seq![label + (if t.len() <= most {
                t
            } else {
                t.take(most as int)
            })]
        } else {
            Seq::empty()
        },
        None => Seq::empty(),
    }
}

/// The lines that say where an entry matches a query, apart from its key
/// and its secret: the user name, the first fifty characters of the notes,
/// the custom fields, the address and the tags that hold the query, in
/// this order.
pub open spec fn matching_lines(entry: EntryView, query: Seq<char>) -> Seq<Seq<char>> {
    let needle = lowercase(query);
    labelled_if_holds("username: "@, entry.metadata.username, needle, usize::MAX as nat)
        + labelled_if_holds("notes: "@, entry.metadata.notes, needle, 50)
        + entry.metadata.custom_fields.filter(field_holds(needle)).map_values(
        |f: (Seq<char>, Seq<char>)| f.0 + ": "@ + f.1,
    ) + labelled_if_holds("url: "@, entry.metadata.url, needle, usize::MAX as nat)
        + entry.metadata.tags.filter(text_holding(needle)).map_values(
        |t: Seq<char>| "tag: "@ + t,
    )
}

/// Appends a line for an optional text that holds `needle`.
fn push_if_holds(
    out: &mut Vec<String>,
    label: &str,
    text: &Option<String>,
    needle: &Vec<char>,
    most: usize,
)
    ensures
        crate::types::texts(final(out)@) == crate::types::texts(old(out)@) + labelled_if_holds(
            label@,
            crate::types::opt_text(*text),
            needle@,
            most as nat,
        ),
{
    let ghost before = out@;
    match text {
        Some(t) => {
            if text_holds(t.as_str(), needle) {
                let mut line = chars_of(label);
                let mut shown = chars_of(t.as_str());
                if shown.len() > most {
                    shown.truncate(most);
                }
                let mut k: usize = 0;
                while k < shown.len()
                    invariant
                        k <= shown.len(),
                        line@ == label@ + shown@.take(k as int),
                    decreases shown.len() - k,
                {
                    line.push(shown[k]);
                    assert(shown@.take(k + 1) =~= shown@.take(k as int).push(shown@[k as int]));
                    k += 1;
                }
                assert(shown@.take(shown.len() as int) =~= shown@);
                let text_line = crate::primitives::text_of(&line);
                out.push(text_line);
                assert(crate::types::texts(out@) =~= crate::types::texts(before) + seq![
                    text_line@,
                ]);
                return;
            }
        },
        None => {},
    }
    assert(crate::types::texts(out@) + Seq::<Seq<char>>::empty() =~= crate::types::texts(out@));
}

/// The pattern that is searched for: the pattern given, with the mark
/// that makes it ignore the case before it where that is asked for.
pub open spec fn grep_pattern(pattern: Seq<char>, ignore_case: bool) -> Seq<char> {
    if ignore_case {
        "(?i)"@ + pattern
    } else {
        pattern
    }
}

/// Whether a pattern matches an optional text; it matches no text that is
/// not there.
pub open spec fn opt_found(pattern: Seq<char>, text: Option<Seq<char>>) -> Option<bool> {
    match text {
        Some(t) => regex_found(pattern, t),
        None => Some(false),
    }
}

/// One line where it is wanted.
pub open spec fn line_if(wanted: bool, label: Seq<char>, text: Seq<char>) -> Seq<
    (Seq<char>, Seq<char>),
> {
    if wanted {
        seq![(label, text)]
    } else {
        Seq::empty()
    }
}

/// One line for an optional text where it is wanted.
pub open spec fn opt_line_if(wanted: bool, label: Seq<char>, text: Option<Seq<char>>) -> Seq<
    (Seq<char>, Seq<char>),
> {
    match text {
        Some(t) => line_if(wanted, label, t),
        None => Seq::empty(),
    }
}

/// The places where a pattern matches an entry, each with its name and
/// its text: the key, the secret, the user name, the address and the
/// notes, in this order. There are none where the pattern is no regular
/// expression.
pub open spec fn grep_hits(
    entry_key: Seq<char>,
    entry: EntryView,
    secret: Seq<char>,
    pattern: Seq<char>,
) -> Option<Seq<(Seq<char>, Seq<char>)>> {
    match (
        regex_found(pattern, entry_key),
        regex_found(pattern, secret),
        opt_found(pattern, entry.metadata.username),
        opt_found(pattern, entry.metadata.url),
        opt_found(pattern, entry.metadata.notes),
    ) {
        (Some(in_key), Some(in_secret), Some(in_username), Some(in_url), Some(in_notes)) => Some(
            line_if(in_key, "key"@, entry_key) + line_if(in_secret, "value"@, secret)
                + opt_line_if(in_username, "username"@, entry.metadata.username) + opt_line_if(
                in_url,
                "url"@,
                entry.metadata.url,
            ) + opt_line_if(in_notes, "notes"@, entry.metadata.notes),
        ),
        _ => None,
    }
}

/// Whether a pattern matches an optional text.
fn find_in_opt(pattern: &str, text: &Option<String>) -> (r: Option<bool>)
    ensures
        r == opt_found(pattern@, crate::types::opt_text(*text)),
{
    match text {
        Some(t) => regex_find(pattern, t.as_str()),
        None => Some(false),
    }
}

/// Appends one line where it is wanted.
fn push_line_if(out: &mut Vec<(String, String)>, wanted: bool, label: &str, text: &str)
    ensures
        crate::types::text_pairs(final(out)@) == crate::types::text_pairs(old(out)@) + line_if(
            wanted,
            label@,
            text@,
        ),
{
    let ghost before = out@;
    if wanted {
        out.push((label.to_string(), text.to_string()));
        assert(crate::types::text_pairs(out@) =~= crate::types::text_pairs(before) + seq![
            (label@, text@),
        ]);
    } else {
        assert(crate::types::text_pairs(out@) + Seq::<(Seq<char>, Seq<char>)>::empty()
            =~= crate::types::text_pairs(out@));
    }
}

/// Appends one line for an optional text where it is wanted.
fn push_opt_line_if(
    out: &mut Vec<(String, String)>,
    wanted: bool,
    label: &str,
    text: &Option<String>,
)
    ensures
        crate::types::text_pairs(final(out)@) == crate::types::text_pairs(old(out)@) + opt_line_if(
            wanted,
            label@,
            crate::types::opt_text(*text),
        ),
{
    match text {
        Some(t) => push_line_if(out, wanted, label, t.as_str()),
        None => {
            assert(crate::types::text_pairs(out@) + Seq::<(Seq<char>, Seq<char>)>::empty()
                =~= crate::types::text_pairs(out@));
        },
    }
}

/// The view of optional lines.
pub open spec fn opt_lines(lines: Option<Vec<(String, String)>>) -> Option<
    Seq<(Seq<char>, Seq<char>)>,
> {
    match lines {
        Some(l) => Some(crate::types::text_pairs(l@)),
        None => None,
    }
}

impl Storage {
    /// The entry as it is stored: its value is replaced by the encryption,
    /// under `key`, of the document that stands for the value. Fails with
    /// `EncryptFailure` exactly where that document is longer than the
    /// cipher takes.
    pub fn seal_entry(entry: &Entry, key: &MasterKey) -> (r: Result<Entry, BunkerError>)
        requires
            key.wf(),
        ensures
            match r {
                Ok(stored) => aead_accepts(encode_value(entry@.value).len()) && stored@
                    == entry@.with_value(stored@.value) && seals(
                    stored@.value,
                    key@,
                    encode_value(entry@.value),
                ),
                Err(e) => !aead_accepts(encode_value(entry@.value).len()) && e
                    == BunkerError::EncryptFailure,
            },
    {
        let document = encode(&entry.value);
        match Crypto::encrypt(document.as_slice(), key) {
            Err(e) => Err(e),
            Ok(value) => Ok(
                Entry {
                    id: entry.id,
                    key: entry.key.clone(),
                    value,
                    metadata: entry.metadata.duplicate(),
                    created_at: entry.created_at,
                    updated_at: entry.updated_at,
                    accessed_at: entry.accessed_at,
                },
            ),
        }
    }

    /// The entry that a stored entry hides: its value is replaced by the
    /// value whose document the stored value encrypts.
    pub fn open_entry(stored: &Entry, key: &MasterKey) -> (r: Result<Entry, BunkerError>)
        requires
            key.wf(),
        ensures
            entry_outcome(r) == opened_entry(stored@, key@),
    {
        if stored.value.nonce.len() != NONCE_SIZE {
            return Err(BunkerError::DecryptFailure);
        }
        let document = match Crypto::decrypt(&stored.value, key) {
            Err(e) => {
                return Err(e);
            },
            Ok(document) => document,
        };
        match decode(document.as_slice()) {
            None => Err(BunkerError::SerializationError("stored value is malformed".to_string())),
            Some(value) => Ok(
                Entry {
                    id: stored.id,
                    key: stored.key.clone(),
                    value,
                    metadata: stored.metadata.duplicate(),
                    created_at: stored.created_at,
                    updated_at: stored.updated_at,
                    accessed_at: stored.accessed_at,
                },
            ),
        }
    }

    /// The secret of an entry as text.
    pub fn reveal_secret(entry: &Entry, key: &MasterKey) -> (r: Result<String, BunkerError>)
        requires
            key.wf(),
        ensures
            match r {
                Ok(text) => secret_text(entry@.value, key@) == Ok::<Seq<char>, BunkerErrorView>(
                    text@,
                ),
                Err(e) => secret_text(entry@.value, key@) == Err::<Seq<char>, BunkerErrorView>(e@),
            },
    {
        if entry.value.nonce.len() != NONCE_SIZE {
            return Err(BunkerError::DecryptFailure);
        }
        let secret = match Crypto::decrypt(&entry.value, key) {
            Err(e) => {
                return Err(e);
            },
            Ok(secret) => secret,
        };
        match utf8_text(secret) {
            Some(text) => Ok(text),
            None => Err(BunkerError::Other("secret is not valid UTF-8".to_string())),
        }
    }

    /// Whether an entry matches a query.
    pub fn entry_matches(entry_key: &str, entry: &Entry, secret: &str, query: &str) -> (r: bool)
        ensures
            r == matches_query(entry_key@, entry@, secret@, query@),
    {
        let lower = to_lowercase(query);
        let needle = chars_of(lower.as_str());
        let in_key = text_holds(entry_key, &needle);
        let in_secret = text_holds(secret, &needle);
        let in_username = opt_text_holds(&entry.metadata.username, &needle);
        let in_notes = opt_text_holds(&entry.metadata.notes, &needle);
        let in_url = opt_text_holds(&entry.metadata.url, &needle);
        let in_tags = tags_hold(&entry.metadata.tags, &needle);
        let in_fields = fields_hold(&entry.metadata.custom_fields, &needle);
        proof {
            assert(needle@ == lowercase(query@));
            assert(entry@.metadata.tags == crate::types::texts(entry.metadata.tags@));
            assert(entry@.metadata.custom_fields == crate::types::text_pairs(
                entry.metadata.custom_fields@,
            ));
        }
        in_key || in_secret || in_username || in_notes || in_url || in_tags || in_fields
    }

    /// The pattern that is searched for.
    pub fn pattern_for(pattern: &str, ignore_case: bool) -> (r: String)
        ensures
            r@ == grep_pattern(pattern@, ignore_case),
    {
        if ignore_case {
            crate::text::concat("(?i)", pattern)
        } else {
            pattern.to_string()
        }
    }

    /// Whether a pattern is a regular expression. Fails with `Other` where
    /// it is none.
    pub fn check_pattern(pattern: &str) -> (r: Result<(), BunkerError>)
        ensures
            match r {
                Ok(()) => regex_found(pattern@, Seq::empty()) is Some,
                Err(e) => regex_found(pattern@, Seq::empty()) is None && (e matches BunkerError::Other(
                    m,
                ) && m@ == "Invalid pattern"@),
            },
    {
        match regex_find(pattern, "") {
            Some(_) => {
                proof {
                    reveal_strlit("");
                    assert(""@ =~= Seq::<char>::empty());
                }
                Ok(())
            },
            None => {
                proof {
                    reveal_strlit("");
                    assert(""@ =~= Seq::<char>::empty());
                }
                Err(BunkerError::Other("Invalid pattern".to_string()))
            },
        }
    }

    /// The places where a pattern matches an entry.
    pub fn grep_entry(entry_key: &str, entry: &Entry, secret: &str, pattern: &str) -> (r: Option<
        Vec<(String, String)>,
    >)
        ensures
            opt_lines(r) == grep_hits(entry_key@, entry@, secret@, pattern@),
    {
        let in_key = regex_find(pattern, entry_key)?;
        let in_secret = regex_find(pattern, secret)?;
        let in_username = find_in_opt(pattern, &entry.metadata.username)?;
        let in_url = find_in_opt(pattern, &entry.metadata.url)?;
        let in_notes = find_in_opt(pattern, &entry.metadata.notes)?;
        let mut out: Vec<(String, String)> = Vec::new();
        assert(crate::types::text_pairs(out@) =~= Seq::empty());
        push_line_if(&mut out, in_key, "key", entry_key);
        push_line_if(&mut out, in_secret, "value", secret);
        push_opt_line_if(&mut out, in_username, "username", &entry.metadata.username);
        push_opt_line_if(&mut out, in_url, "url", &entry.metadata.url);
        push_opt_line_if(&mut out, in_notes, "notes", &entry.metadata.notes);
        assert(crate::types::text_pairs(out@) =~= grep_hits(
            entry_key@,
            entry@,
            secret@,
            pattern@,
        )->0);
        Some(out)
    }

    /// The lines that say where an entry matches a query, apart from its
    /// key and its secret.
    pub fn matching_fields(entry: &Entry, query: &str) -> (r: Vec<String>)
        ensures
            crate::types::texts(r@) == matching_lines(entry@, query@),
    {
        let lower = to_lowercase(query);
        let needle = chars_of(lower.as_str());
        let mut out: Vec<String> = Vec::new();
        assert(crate::types::texts(out@) =~= Seq::empty());
        push_if_holds(&mut out, "username: ", &entry.metadata.username, &needle, usize::MAX);
        push_if_holds(&mut out, "notes: ", &entry.metadata.notes, &needle, 50);
        let ghost head = crate::types::texts(out@);
        let ghost fields = entry@.metadata.custom_fields;
        let ghost keep = field_holds(needle@);
        let ghost line = |f: (Seq<char>, Seq<char>)| f.0 + ": "@ + f.1;
        let mut i: usize = 0;
        assert(fields.take(0) =~= Seq::empty());
        assert(head + fields.take(0).filter(keep).map_values(line) =~= head);
        while i < entry.metadata.custom_fields.len()
            invariant
                i <= entry.metadata.custom_fields.len(),
                fields == entry@.metadata.custom_fields,
                keep == field_holds(needle@),
                line == (|f: (Seq<char>, Seq<char>)| f.0 + ": "@ + f.1),
                crate::types::texts(out@) == head + fields.take(i as int).filter(keep).map_values(
                    line,
                ),
            decreases entry.metadata.custom_fields.len() - i,
        {
            let field = &entry.metadata.custom_fields[i];
            proof {
                let seen = fields.take(i as int);
                assert(fields[i as int] == (field.0@, field.1@));
                assert(fields.take(i + 1) =~= seen.push(fields[i as int]));
                seen.lemma_filter_push(fields[i as int], keep);
            }
            if text_holds(field.1.as_str(), &needle) {
                let ghost before = out@;
                let with_colon = crate::text::concat(field.0.as_str(), ": ");
                let text_line = crate::text::concat(with_colon.as_str(), field.1.as_str());
                out.push(text_line);
                proof {
                    let kept = fields.take(i as int).filter(keep);
                    assert(crate::types::texts(out@) =~= crate::types::texts(before).push(
                        text_line@,
                    ));
                    assert(kept.push(fields[i as int]).map_values(line) =~= kept.map_values(
                        line,
                    ).push(line(fields[i as int])));
                }
            }
            i += 1;
        }
        assert(fields.take(fields.len() as int) =~= fields);
        push_if_holds(&mut out, "url: ", &entry.metadata.url, &needle, usize::MAX);
        let ghost head = crate::types::texts(out@);
        let ghost tags = entry@.metadata.tags;
        let ghost keep = text_holding(needle@);
        let ghost line = |t: Seq<char>| "tag: "@ + t;
        let mut i: usize = 0;
        assert(tags.take(0) =~= Seq::empty());
        assert(head + tags.take(0).filter(keep).map_values(line) =~= head);
        while i < entry.metadata.tags.len()
            invariant
                i <= entry.metadata.tags.len(),
                tags == entry@.metadata.tags,
                keep == text_holding(needle@),
                line == (|t: Seq<char>| "tag: "@ + t),
                crate::types::texts(out@) == head + tags.take(i as int).filter(keep).map_values(
                    line,
                ),
            decreases entry.metadata.tags.len() - i,
        {
            let tag = &entry.metadata.tags[i];
            proof {
                let seen = tags.take(i as int);
                assert(tags[i as int] == tag@);
                assert(tags.take(i + 1) =~= seen.push(tags[i as int]));
                seen.lemma_filter_push(tags[i as int], keep);
            }
            if text_holds(tag.as_str(), &needle) {
                let ghost before = out@;
                let text_line = crate::text::concat("tag: ", tag.as_str());
                out.push(text_line);
                proof {
                    let kept = tags.take(i as int).filter(keep);
                    assert(crate::types::texts(out@) =~= crate::types::texts(before).push(
                        text_line@,
                    ));
                    assert(kept.push(tags[i as int]).map_values(line) =~= kept.map_values(
                        line,
                    ).push(line(tags[i as int])));
                }
            }
            i += 1;
        }
        assert(tags.take(tags.len() as int) =~= tags);
        out
    }

    /// Searches the stored entries of a vault, given with their keys in
    /// the order of the listing, for a query.
    pub fn search_entries(query: &str, key: &MasterKey, stored: &Vec<(String, Entry)>) -> (r: Result<
        Vec<(String, Entry)>,
        BunkerError,
    >)
        requires
            key.wf(),
        ensures
            search_outcome(r) == search_result(query@, key@, keyed(stored@)),
    {
        let mut found: Vec<(String, Entry)> = Vec::new();
        let mut i: usize = 0;
        assert(keyed(found@) =~= Seq::empty());
        assert(keyed(stored@).take(0) =~= Seq::empty());
        while i < stored.len()
            invariant
                i <= stored.len(),
                key.wf(),
                search_result(query@, key@, keyed(stored@).take(i as int)) == Ok::<
                    Seq<(Seq<char>, EntryView)>,
                    BunkerErrorView,
                >(keyed(found@)),
            decreases stored.len() - i,
        {
            let ghost next = keyed(stored@).take(i + 1);
            proof {
                assert(next.drop_last() =~= keyed(stored@).take(i as int));
                assert(next.last() == (stored@[i as int].0@, stored@[i as int].1@));
            }
            match Self::open_entry(&stored[i].1, key) {
                Err(e) => {
                    proof {
                        assert(keyed(stored@).take(next.len() as int) =~= next);
                        lemma_search_stays_failed(query@, key@, next, keyed(stored@));
                    }
                    return Err(e);
                },
                Ok(entry) => {
                    let secret = match Self::reveal_secret(&entry, key) {
                        Err(e) => {
                            proof {
                                assert(keyed(stored@).take(next.len() as int) =~= next);
                                lemma_search_stays_failed(query@, key@, next, keyed(stored@));
                            }
                            return Err(e);
                        },
                        Ok(secret) => secret,
                    };
                    if Self::entry_matches(
                        stored[i].0.as_str(),
                        &entry,
                        secret.as_str(),
                        query,
                    ) {
                        let ghost before = found@;
                        let entry_key = stored[i].0.clone();
                        found.push((entry_key, entry));
                        assert(keyed(found@) =~= keyed(before).push((entry_key@, entry@)));
                    }
                },
            }
            i += 1;
        }
        assert(keyed(stored@).take(stored.len() as int) =~= keyed(stored@));
        Ok(found)
    }
}

/// A search that has failed on the first entries of a list fails in the
/// same way on the whole list.
pub proof fn lemma_search_stays_failed(
    query: Seq<char>,
    key: Seq<u8>,
    head: Seq<(Seq<char>, EntryView)>,
    all: Seq<(Seq<char>, EntryView)>,
)
    requires
        head.len() <= all.len(),
        all.take(head.len() as int) == head,
        search_result(query, key, head) is Err,
    ensures
        search_result(query, key, all) == search_result(query, key, head),
    decreases all.len(),
{
    if head.len() < all.len() {
        assert(all.drop_last().take(head.len() as int) =~= head);
        lemma_search_stays_failed(query, key, head, all.drop_last());
    } else {
        assert(all =~= head);
    }
}

/// Opening what sealing made, under the same key, gives the entry back.
pub proof fn lemma_open_inverts_seal(entry: EntryView, stored: EntryView, key: Seq<u8>)
    requires
        stored == entry.with_value(stored.value),
        seals(stored.value, key, encode_value(entry.value)),
    ensures
        opened_entry(stored, key) == Ok::<EntryView, BunkerErrorView>(entry),
{
    crate::codec::lemma_decode_encode(entry.value);
}

} // verus!
