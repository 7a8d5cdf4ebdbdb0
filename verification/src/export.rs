//! The export of a whole vault: an envelope in JSON around the encrypted
//! bundle of the vault's record and the documents of its entries, with a
//! checksum of the ciphertext; and the import of such an export.

use vstd::prelude::*;
use vstd::string::{StrSliceExecFns, StringSliceAdditionalSpecFns};
use vstd::utf8::encode_utf8;

use crate::crypto::{opened_with_password, Crypto};
use crate::error::{BunkerError, BunkerErrorView};
use crate::json::{
    as_text_members, compact_json_of, find_member, first_texts, json_compact, json_members,
    json_members_of, json_pretty, json_print, json_printed, member_named, members_view, names_of,
    pretty_json_of, read_back,
    DocumentView, JsonDocument, JsonMember, MemberView, Members,
};
use crate::primitives::{
    base64_bytes, base64_decode, base64_encode, base64_text, hex_lower, sha256, utf8_text,
};
use crate::storage::{
    entry_file, lists_picked, marker_file, pick_entry, store_dir, Storage,
};
use crate::text::{ascending, chars_equal, chars_of, text_le};
use crate::tree::{exists_at, is_file, FileTree, NodeView, TreeView};
use crate::types::{text_pairs, NONCE_SIZE};

verus! {

/// What an export holds once it is opened: the record of the vault as
/// JSON text, and the documents of the entries under their logical keys.
#[derive(Clone, Debug, PartialEq, Eq)]
pub struct ImportedVault {
    pub config_json: String,
    pub entries: Vec<(String, String)>,
}

/// The mathematical value of an [`ImportedVault`].
pub struct ImportedView {
    pub config_json: Seq<char>,
    pub entries: Seq<(Seq<char>, Seq<char>)>,
}

impl View for ImportedVault {
    type V = ImportedView;

    open spec fn view(&self) -> ImportedView {
        ImportedView { config_json: self.config_json@, entries: text_pairs(self.entries@) }
    }
}

/// The members of the envelope around a ciphertext: the mark of an export,
/// the checksum of the ciphertext, the ciphertext, the nonce and the salt
/// in base 64, and the version.
pub open spec fn envelope_members(ciphertext: Seq<u8>, nonce: Seq<u8>, salt: Seq<u8>) -> Members {
    seq![
        ("bunker_export"@, MemberView::Flag(true)),
        ("checksum"@, MemberView::Text(hex_lower(sha256(ciphertext)))),
        ("encrypted_data"@, MemberView::Text(base64_text(ciphertext))),
        ("nonce"@, MemberView::Text(base64_text(nonce))),
        ("salt"@, MemberView::Text(base64_text(salt))),
        ("version"@, MemberView::Text("1.0"@)),
    ]
}

/// The members of what an export encrypts: the documents of the entries
/// under their keys, the time of the export, the record of the vault, and
/// the version.
pub open spec fn bundle_members(
    config_json: Seq<char>,
    entries: Seq<(Seq<char>, Seq<char>)>,
    exported_at: Seq<char>,
) -> Members {
    seq![
        ("entries"@, MemberView::Texts(entries)),
        ("exported_at"@, MemberView::Text(exported_at)),
        ("vault_config"@, MemberView::Raw(config_json)),
        ("version"@, MemberView::Text("1.0"@)),
    ]
}

/// The text of the member with this name, where it is a string.
pub open spec fn text_named(members: Members, name: Seq<char>) -> Option<Seq<char>> {
    match member_named(members, name) {
        Some(MemberView::Text(text)) => Some(text),
        _ => None,
    }
}

/// The bytes that the member with this name holds in base 64: an error
/// with `missing` as its message where there is no such string, and
/// another where the string is no base 64.
pub open spec fn bytes_named(members: Members, name: Seq<char>, missing: Seq<char>) -> Result<
    Seq<u8>,
    BunkerErrorView,
> {
    match text_named(members, name) {
        None => Err(BunkerErrorView::ImportError(missing)),
        Some(text) => match base64_bytes(text) {
            None => Err(BunkerErrorView::ImportError("Invalid base64"@)),
            Some(bytes) => Ok(bytes),
        },
    }
}

/// The entries that a member of a bundle holds: the members of the object
/// that it is, each with its string, or with the empty text where it is
/// none; no entries where the member is no object.
pub open spec fn entries_of(member: Option<MemberView>) -> Seq<(Seq<char>, Seq<char>)> {
    match member {
        Some(MemberView::Raw(text)) => match json_members_of(encode_utf8(text)) {
            DocumentView::Object(members) => members.map_values(
                |m: (Seq<char>, MemberView)|
                    (
                        m.0,
                        match m.1 {
                            MemberView::Text(document) => document,
                            _ => Seq::empty(),
                        },
                    ),
            ),
            _ => Seq::empty(),
        },
        _ => Seq::empty(),
    }
}

/// What reading a decrypted bundle gives. It fails with
/// `SerializationError` where the bundle is no JSON object or holds no
/// record of a vault.
pub open spec fn read_bundle(bundle: Seq<u8>) -> Result<ImportedView, BunkerErrorView> {
    match json_members_of(bundle) {
        DocumentView::Object(members) => match member_named(members, "vault_config"@) {
            Some(MemberView::Raw(config_json)) => Ok(
                ImportedView {
                    config_json,
                    entries: entries_of(member_named(members, "entries"@)),
                },
            ),
            _ => Err(BunkerErrorView::SerializationError("Invalid vault configuration"@)),
        },
        _ => Err(BunkerErrorView::SerializationError("Invalid export contents"@)),
    }
}

/// What opening an export with a password gives. In this order it fails
/// with `SerializationError` where the export is no JSON; with
/// `ImportError` where it does not bear the mark of an export, or the
/// ciphertext, the nonce, the salt or the checksum is missing or no base
/// 64; with `ChecksumMismatch` where the checksum is not that of the
/// ciphertext; with `DecryptFailure` where the nonce has the wrong length;
/// with what decrypting with the password fails with; and with what
/// reading the bundle fails with.
pub open spec fn opened_export(data: Seq<u8>, password: Seq<char>) -> Result<
    ImportedView,
    BunkerErrorView,
> {
    match json_members_of(data) {
        DocumentView::Malformed => Err(BunkerErrorView::SerializationError("Invalid JSON"@)),
        DocumentView::Other => Err(BunkerErrorView::ImportError("not a bunker export"@)),
        DocumentView::Object(members) => if member_named(members, "bunker_export"@) != Some(
            MemberView::Flag(true),
        ) {
            Err(BunkerErrorView::ImportError("not a bunker export"@))
        } else {
            match bytes_named(members, "encrypted_data"@, "Missing encrypted data"@) {
                Err(e) => Err(e),
                Ok(ciphertext) => match bytes_named(members, "nonce"@, "Missing nonce"@) {
                    Err(e) => Err(e),
                    Ok(nonce) => match bytes_named(members, "salt"@, "Missing salt"@) {
                        Err(e) => Err(e),
                        Ok(salt) => match text_named(members, "checksum"@) {
                            None => Err(BunkerErrorView::ImportError("Missing checksum"@)),
                            Some(checksum) => if hex_lower(sha256(ciphertext)) != checksum {
                                Err(BunkerErrorView::ChecksumMismatch)
                            } else if nonce.len() != NONCE_SIZE {
                                Err(BunkerErrorView::DecryptFailure)
                            } else {
                                match opened_with_password(ciphertext, nonce, salt, password) {
                                    Err(e) => Err(e@),
                                    Ok(bundle) => read_bundle(bundle),
                                }
                            },
                        },
                    },
                },
            }
        },
    }
}

/// Whether `document` is the envelope around `ciphertext`, `nonce` and
/// `salt`, which decrypt with `password` to `bundle`, the bundle of these
/// entries with this record of the vault; each part reads back as it was
/// written, and the bundle reads as one whose record is the record that
/// was given, as JSON prints it.
pub open spec fn export_parts(
    document: Seq<u8>,
    password: Seq<char>,
    config_json: Seq<char>,
    exported_at: Seq<char>,
    entries: Seq<(Seq<char>, Seq<char>)>,
    ciphertext: Seq<u8>,
    nonce: Seq<u8>,
    salt: Seq<u8>,
    bundle: Seq<u8>,
) -> bool {
    &&& nonce.len() == NONCE_SIZE
    &&& salt.len() == crate::types::SALT_SIZE
    &&& ciphertext.len() == bundle.len() + 16
    &&& pretty_json_of(envelope_members(ciphertext, nonce, salt)) == Some(document)
    &&& json_members_of(document) == DocumentView::Object(
        envelope_members(ciphertext, nonce, salt),
    )
    &&& base64_bytes(base64_text(ciphertext)) == Some(ciphertext)
    &&& base64_bytes(base64_text(nonce)) == Some(nonce)
    &&& base64_bytes(base64_text(salt)) == Some(salt)
    &&& opened_with_password(ciphertext, nonce, salt, password) == Ok::<Seq<u8>, BunkerError>(
        bundle,
    )
    &&& compact_json_of(bundle_members(config_json, entries, exported_at)) == Some(bundle)
    &&& read_bundle(bundle) matches Ok(read) && Some(read.config_json) == json_printed(config_json)
    &&& json_members_of(bundle) matches DocumentView::Object(read) && read_back(
        read,
        bundle_members(config_json, entries, exported_at),
    )
}

/// Whether `document` is an export, under `password`, of these entries
/// with this record of the vault: it reads as the envelope around a
/// ciphertext that decrypts, with the password, to the bundle of the
/// entries and the record.
pub open spec fn is_export(
    document: Seq<u8>,
    password: Seq<char>,
    config_json: Seq<char>,
    exported_at: Seq<char>,
    entries: Seq<(Seq<char>, Seq<char>)>,
) -> bool {
    exists|ciphertext: Seq<u8>, nonce: Seq<u8>, salt: Seq<u8>, bundle: Seq<u8>|
        export_parts(
            document,
            password,
            config_json,
            exported_at,
            entries,
            ciphertext,
            nonce,
            salt,
            bundle,
        )
}

/// Whether `entries` are the documents of these keys in a tree, as text:
/// a file stands where the entry with each key is kept, and holds the
/// document in UTF-8.
pub open spec fn holds_documents(
    tree: TreeView,
    vault: crate::tree::Path,
    entries: Seq<(Seq<char>, Seq<char>)>,
) -> bool {
    forall|i: int|
        0 <= i < entries.len() ==> {
            &&& is_file(tree, entry_file(vault, (#[trigger] entries[i]).0))
            &&& tree[entry_file(vault, entries[i].0)] == NodeView::File(encode_utf8(entries[i].1))
        }
}

/// Whether a bundle reads as one whose record is the record that was
/// given, as JSON prints it.
pub open spec fn record_reads_back(bundle: Seq<u8>, config_json: Seq<char>) -> bool {
    read_bundle(bundle) matches Ok(read) && Some(read.config_json) == json_printed(config_json)
}

/// Whether `r` is what sealing an export of these entries gives: an
/// export of them; or `ExportError` where their keys are not ascending;
/// else `SerializationError` where the bundle cannot be printed, which is
/// where the record of the vault is no JSON, or where the bundle does not
/// read again as one with that record; else `KdfFailure` where the
/// password is longer than Argon2 takes; else `EncryptFailure` where the
/// bundle is longer than the cipher takes.
pub open spec fn seal_outcome(
    entries: Seq<(Seq<char>, Seq<char>)>,
    password: Seq<char>,
    config_json: Seq<char>,
    exported_at: Seq<char>,
    r: Result<Seq<u8>, BunkerErrorView>,
) -> bool {
    if !ascending(first_texts(entries)) {
        r is Err && r->Err_0 is ExportError
    } else {
        match compact_json_of(bundle_members(config_json, entries, exported_at)) {
            None => r is Err && r->Err_0 is SerializationError,
            Some(bundle) => if !record_reads_back(bundle, config_json) {
                r is Err && r->Err_0 is SerializationError
            } else if encode_utf8(password).len() > 0xFFFF_FFFF {
                r == Err::<Seq<u8>, BunkerErrorView>(BunkerErrorView::KdfFailure)
            } else if !crate::primitives::aead_accepts(bundle.len()) {
                r == Err::<Seq<u8>, BunkerErrorView>(BunkerErrorView::EncryptFailure)
            } else {
                r matches Ok(document) && is_export(
                    document,
                    password,
                    config_json,
                    exported_at,
                    entries,
                )
            },
        }
    }
}

/// The view of the outcome of an operation that gives a document.
pub open spec fn document_outcome(r: Result<Vec<u8>, BunkerError>) -> Result<
    Seq<u8>,
    BunkerErrorView,
> {
    match r {
        Ok(document) => Ok(document@),
        Err(e) => Err(e@),
    }
}

/// Whether the entry with this key has no document that is text: no file
/// stands where the entry is kept, or what it holds is no valid UTF-8.
pub open spec fn lacks_document(tree: TreeView, vault: crate::tree::Path, key: Seq<char>) -> bool {
    !(is_file(tree, entry_file(vault, key)) && vstd::utf8::valid_utf8(
        tree[entry_file(vault, key)]->File_0,
    ))
}

/// Whether the documents of the entries of a vault cannot be collected: a
/// file stands in the place of the directory that holds the entries, or an
/// entry that is listed has no document that is text.
pub open spec fn collect_blocked(tree: TreeView, vault: crate::tree::Path) -> bool {
    exists_at(tree, store_dir(vault)) && (!crate::tree::is_dir(tree, store_dir(vault)) || exists|
        path: crate::tree::Path,
    |
        #[trigger] tree.dom().contains(path) && pick_entry(store_dir(vault))(path, tree[path])
            is Some && lacks_document(
            tree,
            vault,
            pick_entry(store_dir(vault))(path, tree[path])->0,
        ))
}

/// Whether `entries` are the documents of the entries of a vault in a
/// tree, listed in the order of the dictionary.
pub open spec fn collected(
    entries: Seq<(Seq<char>, Seq<char>)>,
    fs: &FileTree,
    vault: crate::tree::Path,
) -> bool {
    &&& holds_documents(fs@, vault, entries)
    &&& if exists_at(fs@, store_dir(vault)) {
        lists_picked(first_texts(entries), fs@, pick_entry(store_dir(vault)))
    } else {
        entries.len() == 0
    }
}

/// The keys of the documents collected from a vault are in strict order:
/// none stands twice.
pub proof fn lemma_collected_ascending(
    entries: Seq<(Seq<char>, Seq<char>)>,
    fs: &FileTree,
    vault: crate::tree::Path,
)
    requires
        collected(entries, fs, vault),
    ensures
        ascending(first_texts(entries)),
{
}

/// The keys of the documents collected from a vault can be stored: each
/// part on the way is the name of a directory that stands, and the last
/// is not empty.
pub proof fn lemma_collected_keys(
    entries: Seq<(Seq<char>, Seq<char>)>,
    fs: &FileTree,
    vault: crate::tree::Path,
)
    requires
        fs.wf(),
        collected(entries, fs, vault),
    ensures
        forall|i: int|
            0 <= i < entries.len() ==> crate::storage::valid_key((#[trigger] entries[i]).0),
{
    fs.lemma_wf();
    let store = store_dir(vault);
    let pick = pick_entry(store);
    assert forall|i: int| 0 <= i < entries.len() implies crate::storage::valid_key(
        (#[trigger] entries[i]).0,
    ) by {
        let key = entries[i].0;
        let file = entry_file(vault, key);
        let parts = crate::text::split(key, '/');
        crate::text::lemma_split_nonempty(key, '/');
        assert(fs@.dom().contains(file));
        assert(crate::tree::plain_path(file));
        assert forall|j: int| 0 <= j < parts.len() - 1 implies crate::storage::valid_name(
            #[trigger] parts[j],
        ) by {
            assert(file[store.len() + j] == parts[j]);
        }
        let keys = first_texts(entries);
        assert(keys[i] == key);
        assert(keys.contains(key));
        let path = choose|path: crate::tree::Path|
            #[trigger] fs@.dom().contains(path) && pick(path, fs@[path]) == Some(key);
        crate::storage::lemma_key_of_ends(store, path);
    }
}

/// The view of the outcome of opening an export.
pub open spec fn import_outcome(r: Result<ImportedVault, BunkerError>) -> Result<
    ImportedView,
    BunkerErrorView,
> {
    match r {
        Ok(vault) => Ok(vault@),
        Err(e) => Err(e@),
    }
}

/// The names of the members of an envelope are ascending.
pub proof fn lemma_envelope_names(ciphertext: Seq<u8>, nonce: Seq<u8>, salt: Seq<u8>)
    ensures
        ascending(names_of(envelope_members(ciphertext, nonce, salt))),
        crate::json::flat(envelope_members(ciphertext, nonce, salt)),
{
    reveal_strlit("bunker_export");
    reveal_strlit("checksum");
    reveal_strlit("encrypted_data");
    reveal_strlit("nonce");
    reveal_strlit("salt");
    reveal_strlit("version");
    let names = names_of(envelope_members(ciphertext, nonce, salt));
    assert(names =~= seq![
        "bunker_export"@,
        "checksum"@,
        "encrypted_data"@,
        "nonce"@,
        "salt"@,
        "version"@,
    ]);
    assert forall|i: int, j: int| 0 <= i < j < names.len() implies crate::text::lex_le(
        #[trigger] names[i],
        #[trigger] names[j],
    ) && names[i] != names[j] by {
        assert(names[i][0] != names[j][0]);
        assert((names[i][0] as u32) < (names[j][0] as u32));
    }
}

/// The names of the members of a bundle are ascending.
pub proof fn lemma_bundle_names(
    config_json: Seq<char>,
    entries: Seq<(Seq<char>, Seq<char>)>,
    exported_at: Seq<char>,
)
    ensures
        ascending(names_of(bundle_members(config_json, entries, exported_at))),
{
    reveal_strlit("entries");
    reveal_strlit("exported_at");
    reveal_strlit("vault_config");
    reveal_strlit("version");
    reveal_with_fuel(crate::text::lex_le, 3);
    let names = names_of(bundle_members(config_json, entries, exported_at));
    assert(names =~= seq!["entries"@, "exported_at"@, "vault_config"@, "version"@]);
    let a = "entries"@;
    let b = "exported_at"@;
    let c = "vault_config"@;
    let d = "version"@;
    assert(a.drop_first()[0] == 'n' && b.drop_first()[0] == 'x');
    assert(crate::text::lex_le(a, b) && a != b);
    assert(c.drop_first()[0] == 'a' && d.drop_first()[0] == 'e');
    assert(crate::text::lex_le(c, d) && c != d);
    assert(crate::text::lex_le(a, c) && a != c);
    assert(crate::text::lex_le(a, d) && a != d);
    assert(crate::text::lex_le(b, c) && b != c);
    assert(crate::text::lex_le(b, d) && b != d);
}

/// Whether each key comes strictly before the next in the order of the
/// dictionary.
pub fn keys_ascend(entries: &Vec<(String, String)>) -> (r: bool)
    ensures
        r == ascending(first_texts(text_pairs(entries@))),
{
    let mut i: usize = 1;
    while i < entries.len()
        invariant
            1 <= i,
            forall|k: int|
                1 <= k < i && k < entries@.len() ==> crate::text::lex_le(
                    #[trigger] entries@[k - 1].0@,
                    entries@[k].0@,
                ) && entries@[k - 1].0@ != entries@[k].0@,
        decreases entries.len() - i,
    {
        let a = chars_of(entries[i - 1].0.as_str());
        let b = chars_of(entries[i].0.as_str());
        if !text_le(&a, &b) || text_le(&b, &a) {
            proof {
                let names = first_texts(text_pairs(entries@));
                assert(names[i - 1] == entries@[i - 1].0@);
                assert(names[i as int] == entries@[i as int].0@);
                if crate::text::lex_le(a@, b@) && crate::text::lex_le(b@, a@) {
                    crate::text::lemma_lex_antisym(a@, b@);
                }
            }
            return false;
        }
        proof {
            if a@ == b@ {
                assert(crate::text::lex_le(b@, a@));
            }
        }
        i += 1;
    }
    proof {
        let names = first_texts(text_pairs(entries@));
        assert forall|x: int, y: int| 0 <= x < y < names.len() implies crate::text::lex_le(
            #[trigger] names[x],
            #[trigger] names[y],
        ) && names[x] != names[y] by {
            lemma_chain(names, x, y);
        }
    }
    true
}

/// In a list whose neighbours ascend, any two texts ascend.
pub proof fn lemma_chain(names: Seq<Seq<char>>, x: int, y: int)
    requires
        0 <= x < y < names.len(),
        forall|k: int|
            1 <= k < names.len() ==> crate::text::lex_le(#[trigger] names[k - 1], names[k])
                && names[k - 1] != names[k],
    ensures
        crate::text::lex_le(names[x], names[y]),
        names[x] != names[y],
    decreases y - x,
{
    assert(crate::text::lex_le(names[y - 1], names[y]) && names[y - 1] != names[y]);
    if x < y - 1 {
        lemma_chain(names, x, y - 1);
        crate::text::lemma_lex_trans(names[x], names[y - 1], names[y]);
        if names[x] == names[y] {
            crate::text::lemma_lex_antisym(names[y - 1], names[y]);
        }
    }
}

/// The envelope around a ciphertext, as members.
fn envelope(ciphertext: &Vec<u8>, nonce: &Vec<u8>, salt: &Vec<u8>) -> (r: Vec<(String, JsonMember)>)
    ensures
        members_view(r@) == envelope_members(ciphertext@, nonce@, salt@),
        base64_bytes(base64_text(ciphertext@)) == Some(ciphertext@),
        base64_bytes(base64_text(nonce@)) == Some(nonce@),
        base64_bytes(base64_text(salt@)) == Some(salt@),
{
    let mut members: Vec<(String, JsonMember)> = Vec::new();
    members.push(("bunker_export".to_string(), JsonMember::Flag(true)));
    members.push(
        ("checksum".to_string(), JsonMember::Text(Crypto::checksum(ciphertext.as_slice()))),
    );
    members.push(
        ("encrypted_data".to_string(), JsonMember::Text(base64_encode(ciphertext.as_slice()))),
    );
    members.push(("nonce".to_string(), JsonMember::Text(base64_encode(nonce.as_slice()))));
    members.push(("salt".to_string(), JsonMember::Text(base64_encode(salt.as_slice()))));
    members.push(("version".to_string(), JsonMember::Text("1.0".to_string())));
    assert(members_view(members@) =~= envelope_members(ciphertext@, nonce@, salt@));
    members
}

impl Storage {
    /// Seals entries and the record of a vault into an export under a
    /// password. Fails with `ExportError` where the keys of the entries
    /// are not ascending; else with `SerializationError` where the record
    /// is no JSON or the bundle with it does not read again as a bundle
    /// with that record, so that what is handed out can be opened and
    /// gives the record back; else with
    /// `KdfFailure` where the password is longer than Argon2 takes; else
    /// with `EncryptFailure` where the bundle is longer than the cipher
    /// takes.
    pub fn seal_export(
        entries: &Vec<(String, String)>,
        password: &str,
        config_json: &str,
        exported_at: &str,
    ) -> (r: Result<Vec<u8>, BunkerError>)
        ensures
            seal_outcome(
                text_pairs(entries@),
                password@,
                config_json@,
                exported_at@,
                document_outcome(r),
            ),
    {
        if !keys_ascend(entries) {
            return Err(BunkerError::ExportError("Entry keys are not in order".to_string()));
        }
        let mut members: Vec<(String, JsonMember)> = Vec::new();
        members.push(
            ("entries".to_string(), JsonMember::Texts(crate::types::duplicate_text_pairs(entries))),
        );
        members.push(("exported_at".to_string(), JsonMember::Text(exported_at.to_string())));
        members.push(("vault_config".to_string(), JsonMember::Raw(config_json.to_string())));
        members.push(("version".to_string(), JsonMember::Text("1.0".to_string())));
        assert(members_view(members@) =~= bundle_members(
            config_json@,
            text_pairs(entries@),
            exported_at@,
        ));
        let bundle = match json_compact(&members) {
            None => {
                return Err(
                    BunkerError::SerializationError("Invalid vault configuration".to_string()),
                );
            },
            Some(bundle) => bundle,
        };
        let kept: bool = match (Self::read_bundle(bundle.as_slice()), json_print(config_json)) {
            (Ok(read), Some(record)) => chars_equal(read.config_json.as_str(), record.as_str()),
            _ => false,
        };
        if !kept {
            return Err(BunkerError::SerializationError("Invalid vault configuration".to_string()));
        }
        let (ciphertext, nonce, salt) = match Crypto::encrypt_with_password(
            bundle.as_slice(),
            password,
        ) {
            Err(e) => {
                return Err(e);
            },
            Ok(sealed) => sealed,
        };
        let outer = envelope(&ciphertext, &nonce, &salt);
        proof {
            lemma_envelope_names(ciphertext@, nonce@, salt@);
            lemma_bundle_names(config_json@, text_pairs(entries@), exported_at@);
            assert(crate::json::no_raw(envelope_members(ciphertext@, nonce@, salt@)));
        }
        match json_pretty(&outer) {
            None => Err(BunkerError::SerializationError("Invalid export envelope".to_string())),
            Some(document) => {
                proof {
                    assert(export_parts(
                        document@,
                        password@,
                        config_json@,
                        exported_at@,
                        text_pairs(entries@),
                        ciphertext@,
                        nonce@,
                        salt@,
                        bundle@,
                    ));
                }
                Ok(document)
            },
        }
    }

    /// The documents of the entries of the vault as text, under their keys,
    /// in the order of the listing. Fails with `IoError` where a file
    /// stands in the place of the directory that holds the entries, where
    /// a document is no valid UTF-8 or a directory stands in its place,
    /// and with `EntryNotFound` where nothing stands where a listed entry
    /// is kept.
    pub fn collect_entries(&self, fs: &FileTree) -> (r: Result<Vec<(String, String)>, BunkerError>)
        requires
            fs.wf(),
        ensures
            match r {
                Ok(entries) => !collect_blocked(fs@, self.dir()) && collected(
                    text_pairs(entries@),
                    fs,
                    self.dir(),
                ),
                Err(e) => collect_blocked(fs@, self.dir()) && (e is IoError || e is EntryNotFound),
            },
    {
        let keys = match self.list_entries(fs) {
            Err(e) => {
                return Err(e);
            },
            Ok(keys) => keys,
        };
        if !fs.contains(&self.store_path()) {
            proof {
                assert(first_texts(text_pairs(Seq::<(String, String)>::empty())) =~= Seq::empty());
                assert(text_pairs(Seq::<(String, String)>::empty()) =~= Seq::empty());
            }
            return Ok(Vec::new());
        }
        let ghost store = store_dir(self.dir());
        let ghost pick = pick_entry(store);
        let mut entries: Vec<(String, String)> = Vec::new();
        let mut i: usize = 0;
        while i < keys.len()
            invariant
                i <= keys.len(),
                fs.wf(),
                store == store_dir(self.dir()),
                pick == pick_entry(store),
                crate::tree::is_dir(fs@, store),
                lists_picked(crate::types::texts(keys@), fs@, pick),
                entries@.len() == i,
                forall|k: int| 0 <= k < i ==> (#[trigger] entries@[k]).0@ == keys@[k]@,
                holds_documents(fs@, self.dir(), text_pairs(entries@)),
            decreases keys.len() - i,
        {
            proof {
                let key = keys@[i as int]@;
                assert(crate::types::texts(keys@)[i as int] == key);
                assert(crate::types::texts(keys@).contains(key));
            }
            let document = match self.load_entry(fs, keys[i].as_str()) {
                Err(e) => {
                    return Err(e);
                },
                Ok(document) => document,
            };
            let ghost bytes = document@;
            let text = match utf8_text(document) {
                None => {
                    return Err(BunkerError::IoError("document is not valid UTF-8".to_string()));
                },
                Some(text) => text,
            };
            proof {
                vstd::utf8::decode_utf8_encode_utf8(bytes);
            }
            let ghost before = entries@;
            entries.push((keys[i].clone(), text));
            proof {
                assert forall|k: int| 0 <= k < text_pairs(entries@).len() implies {
                    &&& is_file(fs@, entry_file(self.dir(), (#[trigger] text_pairs(entries@)[k]).0))
                    &&& fs@[entry_file(self.dir(), text_pairs(entries@)[k].0)] == NodeView::File(
                        encode_utf8(text_pairs(entries@)[k].1),
                    )
                } by {
                    if k < i {
                        assert(text_pairs(entries@)[k] == text_pairs(before)[k]);
                    }
                }
            }
            i += 1;
        }
        proof {
            let listed = first_texts(text_pairs(entries@));
            assert(listed =~= crate::types::texts(keys@));
            assert(!collect_blocked(fs@, self.dir())) by {
                if collect_blocked(fs@, self.dir()) {
                    let path = choose|path: crate::tree::Path|
                        #[trigger] fs@.dom().contains(path) && pick(path, fs@[path]) is Some
                            && lacks_document(fs@, self.dir(), pick(path, fs@[path])->0);
                    let key = pick(path, fs@[path])->0;
                    assert(listed.contains(key));
                    let k = choose|k: int| 0 <= k < listed.len() && listed[k] == key;
                    assert(text_pairs(entries@)[k].0 == key);
                    vstd::utf8::encode_utf8_valid_utf8(text_pairs(entries@)[k].1);
                }
            }
        }
        Ok(entries)
    }

    /// An export of the vault under a password: the envelope around the
    /// encrypted bundle of the documents of the entries and the record of
    /// the vault, which is given as JSON text. Fails where the documents
    /// cannot be collected, and else as sealing them does; never with
    /// `ExportError`, since the keys of a vault are listed in strict order.
    pub fn export_vault(
        &self,
        fs: &FileTree,
        password: &str,
        config_json: &str,
        exported_at: &str,
    ) -> (r: Result<Vec<u8>, BunkerError>)
        requires
            fs.wf(),
        ensures
            if collect_blocked(fs@, self.dir()) {
                r is Err && (r->Err_0 is IoError || r->Err_0 is EntryNotFound)
            } else {
                exists|entries: Seq<(Seq<char>, Seq<char>)>|
                    #[trigger] collected(entries, fs, self.dir()) && seal_outcome(
                        entries,
                        password@,
                        config_json@,
                        exported_at@,
                        document_outcome(r),
                    )
            },
            r matches Err(e) ==> !(e is ExportError),
    {
        let entries = match self.collect_entries(fs) {
            Err(e) => {
                return Err(e);
            },
            Ok(entries) => entries,
        };
        proof {
            lemma_collected_ascending(text_pairs(entries@), fs, self.dir());
        }
        Self::seal_export(&entries, password, config_json, exported_at)
    }

    /// Makes the vault from what an export held: the vault itself, with
    /// `document` in the file that makes it one, and then the document of
    /// each entry in its file, in the order given. Fails as `init_vault`
    /// does, and then changes nothing: with `VaultExists` where the file
    /// that makes a vault stands already, else with `IoError` where a file
    /// stands where a directory has to be made. Fails with `IoError` at
    /// the first entry that cannot be stored, with the entries before it
    /// stored.
    pub fn import_vault(
        &self,
        fs: &mut FileTree,
        document: Vec<u8>,
        entries: &Vec<(String, String)>,
    ) -> (r: Result<(), BunkerError>)
        requires
            old(fs).wf(),
        ensures
            final(fs).wf(),
            final(fs).base() == old(fs).base(),
            match r {
                Ok(()) => {
                    &&& self.can_init(old(fs)@)
                    &&& self.importable(
                        self.initialized(old(fs)@, document@),
                        text_pairs(entries@),
                        entries@.len() as int,
                    )
                    &&& final(fs)@ == self.imported(
                        self.initialized(old(fs)@, document@),
                        text_pairs(entries@),
                        entries@.len() as int,
                    )
                },
                Err(e) => if self.can_init(old(fs)@) {
                    exists|n: int|
                        0 <= n < entries@.len() && final(fs)@ == #[trigger] self.imported(
                            self.initialized(old(fs)@, document@),
                            text_pairs(entries@),
                            n,
                        ) && !self.can_store(final(fs)@, text_pairs(entries@)[n].0) && e is IoError
                } else {
                    &&& final(fs)@ == old(fs)@
                    &&& if exists_at(old(fs)@, marker_file(self.dir())) {
                        e matches BunkerError::VaultExists(name) && name@ == self.name()
                    } else {
                        e is IoError
                    }
                },
            },
    {
        match self.init_vault(fs, document) {
            Err(e) => {
                return Err(e);
            },
            Ok(()) => {},
        }
        let mut i: usize = 0;
        while i < entries.len()
            invariant
                i <= entries.len(),
                fs.wf(),
                fs.base() == old(fs).base(),
                self.can_init(old(fs)@),
                self.importable(
                    self.initialized(old(fs)@, document@),
                    text_pairs(entries@),
                    i as int,
                ),
                fs@ == self.imported(
                    self.initialized(old(fs)@, document@),
                    text_pairs(entries@),
                    i as int,
                ),
            decreases entries.len() - i,
        {
            let bytes = entries[i].1.as_str().as_bytes_vec();
            match self.store_entry(fs, entries[i].0.as_str(), bytes) {
                Err(e) => {
                    return Err(e);
                },
                Ok(()) => {},
            }
            i += 1;
        }
        Ok(())
    }

    /// Whether the vault can be made in `tree`.
    pub open spec fn can_init(&self, tree: TreeView) -> bool {
        !exists_at(tree, marker_file(self.dir())) && crate::tree::can_create_dirs(
            tree,
            store_dir(self.dir()),
        )
    }

    /// The tree after the vault is made in it with `document` as its
    /// record.
    pub open spec fn initialized(&self, tree: TreeView, document: Seq<u8>) -> TreeView {
        crate::tree::with_dirs(
            tree,
            store_dir(self.dir()),
            store_dir(self.dir()).len() as int,
        ).insert(marker_file(self.dir()), NodeView::File(document))
    }

    /// Whether each of the first `n` of the entries can be stored after
    /// the ones before it.
    pub open spec fn importable(
        &self,
        tree: TreeView,
        entries: Seq<(Seq<char>, Seq<char>)>,
        n: int,
    ) -> bool
        decreases n,
    {
        n <= 0 || (self.importable(tree, entries, n - 1) && self.can_store(
            self.imported(tree, entries, n - 1),
            entries[n - 1].0,
        ))
    }

    /// The tree after the first `n` of the entries are stored in it.
    pub open spec fn imported(
        &self,
        tree: TreeView,
        entries: Seq<(Seq<char>, Seq<char>)>,
        n: int,
    ) -> TreeView
        decreases n,
    {
        if n <= 0 {
            tree
        } else {
            self.stored(
                self.imported(tree, entries, n - 1),
                entries[n - 1].0,
                encode_utf8(entries[n - 1].1),
            )
        }
    }

    /// Opens an export with a password.
    pub fn open_export(data: &[u8], password: &str) -> (r: Result<ImportedVault, BunkerError>)
        ensures
            import_outcome(r) == opened_export(data@, password@),
    {
        let members = match json_members(data) {
            JsonDocument::Malformed => {
                return Err(BunkerError::SerializationError("Invalid JSON".to_string()));
            },
            JsonDocument::Other => {
                return Err(BunkerError::ImportError("not a bunker export".to_string()));
            },
            JsonDocument::Object(members) => members,
        };
        let marked: bool = match find_member(&members, "bunker_export") {
            Some(JsonMember::Flag(flag)) => *flag,
            _ => false,
        };
        if !marked {
            return Err(BunkerError::ImportError("not a bunker export".to_string()));
        }
        let ciphertext = match Self::member_bytes(
            &members,
            "encrypted_data",
            "Missing encrypted data",
        ) {
            Err(e) => {
                return Err(e);
            },
            Ok(bytes) => bytes,
        };
        let nonce = match Self::member_bytes(&members, "nonce", "Missing nonce") {
            Err(e) => {
                return Err(e);
            },
            Ok(bytes) => bytes,
        };
        let salt = match Self::member_bytes(&members, "salt", "Missing salt") {
            Err(e) => {
                return Err(e);
            },
            Ok(bytes) => bytes,
        };
        let checksum = match find_member(&members, "checksum") {
            Some(JsonMember::Text(text)) => text,
            _ => {
                return Err(BunkerError::ImportError("Missing checksum".to_string()));
            },
        };
        let actual = Crypto::checksum(ciphertext.as_slice());
        if !chars_equal(actual.as_str(), checksum.as_str()) {
            return Err(BunkerError::ChecksumMismatch);
        }
        if nonce.len() != NONCE_SIZE {
            return Err(BunkerError::DecryptFailure);
        }
        let bundle = match Crypto::decrypt_with_password(
            ciphertext.as_slice(),
            nonce.as_slice(),
            salt.as_slice(),
            password,
        ) {
            Err(e) => {
                return Err(e);
            },
            Ok(bundle) => bundle,
        };
        Self::read_bundle(bundle.as_slice())
    }

    /// The bytes that the member with this name holds in base 64.
    pub fn member_bytes(members: &Vec<(String, JsonMember)>, name: &str, missing: &str) -> (r: Result<
        Vec<u8>,
        BunkerError,
    >)
        ensures
            match r {
                Ok(bytes) => bytes_named(members_view(members@), name@, missing@) == Ok::<
                    Seq<u8>,
                    BunkerErrorView,
                >(bytes@),
                Err(e) => bytes_named(members_view(members@), name@, missing@) == Err::<
                    Seq<u8>,
                    BunkerErrorView,
                >(e@),
            },
    {
        let text = match find_member(members, name) {
            Some(JsonMember::Text(text)) => text,
            _ => {
                return Err(BunkerError::ImportError(missing.to_string()));
            },
        };
        match base64_decode(text.as_str()) {
            Some(bytes) => Ok(bytes),
            None => Err(BunkerError::ImportError("Invalid base64".to_string())),
        }
    }

    /// Reads a decrypted bundle.
    pub fn read_bundle(bundle: &[u8]) -> (r: Result<ImportedVault, BunkerError>)
        ensures
            import_outcome(r) == read_bundle(bundle@),
    {
        let members = match json_members(bundle) {
            JsonDocument::Object(members) => members,
            _ => {
                return Err(BunkerError::SerializationError("Invalid export contents".to_string()));
            },
        };
        let config_json = match find_member(&members, "vault_config") {
            Some(JsonMember::Raw(text)) => text.clone(),
            _ => {
                return Err(
                    BunkerError::SerializationError("Invalid vault configuration".to_string()),
                );
            },
        };
        let entries = match find_member(&members, "entries") {
            Some(JsonMember::Raw(text)) => match json_members(text.as_str().as_bytes()) {
                JsonDocument::Object(listed) => Self::entry_documents(&listed),
                _ => Vec::new(),
            },
            _ => Vec::new(),
        };
        proof {
            assert(text_pairs(Seq::<(String, String)>::empty()) =~= Seq::empty());
        }
        Ok(ImportedVault { config_json, entries })
    }

    /// The documents of the entries in the members of an object: the
    /// string of each member, or the empty text where it is none.
    pub fn entry_documents(listed: &Vec<(String, JsonMember)>) -> (r: Vec<(String, String)>)
        ensures
            text_pairs(r@) == members_view(listed@).map_values(
                |m: (Seq<char>, MemberView)|
                    (
                        m.0,
                        match m.1 {
                            MemberView::Text(document) => document,
                            _ => Seq::empty(),
                        },
                    ),
            ),
    {
        let mut out: Vec<(String, String)> = Vec::new();
        let mut i: usize = 0;
        while i < listed.len()
            invariant
                i <= listed.len(),
                out@.len() == i,
                forall|k: int|
                    0 <= k < i ==> out@[k].0@ == listed@[k].0@ && out@[k].1@ == (match listed@[k].1@ {
                        MemberView::Text(document) => document,
                        _ => Seq::empty(),
                    }),
            decreases listed.len() - i,
        {
            let document = match &listed[i].1 {
                JsonMember::Text(text) => text.clone(),
                _ => String::new(),
            };
            out.push((listed[i].0.clone(), document));
            i += 1;
        }
        assert(text_pairs(out@) =~= members_view(listed@).map_values(
            |m: (Seq<char>, MemberView)|
                (
                    m.0,
                    match m.1 {
                        MemberView::Text(document) => document,
                        _ => Seq::empty(),
                    },
                ),
        ));
        out
    }
}

/// Opening an export with the password it was sealed under goes through
/// and gives the entries that were sealed, and the record that was
/// sealed, as JSON prints it.
pub proof fn lemma_import_reads_export(
    document: Seq<u8>,
    password: Seq<char>,
    config_json: Seq<char>,
    exported_at: Seq<char>,
    entries: Seq<(Seq<char>, Seq<char>)>,
)
    requires
        is_export(document, password, config_json, exported_at, entries),
        ascending(first_texts(entries)),
    ensures
        opened_export(document, password) matches Ok(vault) && vault.entries == entries && Some(
            vault.config_json,
        ) == json_printed(config_json),
{
    let (ciphertext, nonce, salt, bundle) = choose|
        ciphertext: Seq<u8>,
        nonce: Seq<u8>,
        salt: Seq<u8>,
        bundle: Seq<u8>,
    |
        export_parts(
            document,
            password,
            config_json,
            exported_at,
            entries,
            ciphertext,
            nonce,
            salt,
            bundle,
        );
    let outer = envelope_members(ciphertext, nonce, salt);
    reveal_strlit("bunker_export");
    reveal_strlit("checksum");
    reveal_strlit("encrypted_data");
    reveal_strlit("nonce");
    reveal_strlit("salt");
    reveal_strlit("version");
    reveal_with_fuel(member_named, 7);
    assert(outer.drop_first()[0] == outer[1]);
    assert(outer.drop_first().drop_first()[0] == outer[2]);
    assert(outer.drop_first().drop_first().drop_first()[0] == outer[3]);
    assert(outer.drop_first().drop_first().drop_first().drop_first()[0] == outer[4]);
    assert(member_named(outer, "bunker_export"@) == Some(MemberView::Flag(true)));
    assert(member_named(outer, "checksum"@) == Some(outer[1].1)) by {
        assert("bunker_export"@[0] != "checksum"@[0]);
    }
    assert(member_named(outer, "encrypted_data"@) == Some(outer[2].1)) by {
        assert("bunker_export"@[0] != "encrypted_data"@[0]);
        assert("checksum"@[0] != "encrypted_data"@[0]);
    }
    assert(member_named(outer, "nonce"@) == Some(outer[3].1)) by {
        assert("bunker_export"@[0] != "nonce"@[0]);
        assert("checksum"@[0] != "nonce"@[0]);
        assert("encrypted_data"@[0] != "nonce"@[0]);
    }
    assert(member_named(outer, "salt"@) == Some(outer[4].1)) by {
        assert("bunker_export"@[0] != "salt"@[0]);
        assert("checksum"@[0] != "salt"@[0]);
        assert("encrypted_data"@[0] != "salt"@[0]);
        assert("nonce"@[0] != "salt"@[0]);
    }
    match json_members_of(bundle) {
        DocumentView::Object(read) => {
            let inner = bundle_members(config_json, entries, exported_at);
            assert(read_back(read, inner));
            reveal_strlit("entries");
            reveal_strlit("exported_at");
            reveal_strlit("vault_config");
            assert(read[0].0 == inner[0].0 && read[1].0 == inner[1].0 && read[2].0 == inner[2].0
                && read[3].0 == inner[3].0);
            assert(read.drop_first()[0] == read[1]);
            assert(read.drop_first().drop_first()[0] == read[2]);
            assert(member_named(read, "entries"@) == Some(read[0].1));
            assert(inner[0].1 is Texts);
            assert(inner[0].1->Texts_0 == entries);
            assert(read[0].1 is Raw);
            match member_named(read, "vault_config"@) {
                Some(MemberView::Raw(c)) => {
                    let text = read[0].1->Raw_0;
                    assert(json_members_of(encode_utf8(text)) == DocumentView::Object(
                        as_text_members(entries),
                    ));
                    assert(entries_of(Some(read[0].1)) =~= entries);
                },
                _ => {},
            }
        },
        _ => {},
    }
}

/// Making directories adds no file and takes none away.
pub proof fn lemma_with_dirs_files(
    tree: TreeView,
    path: crate::tree::Path,
    upto: int,
    other: crate::tree::Path,
)
    requires
        0 <= upto <= path.len(),
        crate::tree::can_create_dirs(tree, path),
    ensures
        is_file(crate::tree::with_dirs(tree, path, upto), other) == is_file(tree, other),
        is_file(tree, other) ==> crate::tree::with_dirs(tree, path, upto)[other] == tree[other],
    decreases upto,
{
    if upto > 0 {
        lemma_with_dirs_files(tree, path, upto - 1, other);
    }
}

impl Storage {
    /// After entries with different keys are imported, each has its
    /// document in its file.
    pub proof fn lemma_imported_holds(
        &self,
        tree: TreeView,
        entries: Seq<(Seq<char>, Seq<char>)>,
        n: int,
    )
        requires
            0 <= n <= entries.len(),
            self.importable(tree, entries, n),
            forall|i: int, j: int| 0 <= i < j < n ==> entries[i].0 != entries[j].0,
        ensures
            holds_documents(self.imported(tree, entries, n), self.dir(), entries.take(n)),
        decreases n,
    {
        if n > 0 {
            self.lemma_imported_holds(tree, entries, n - 1);
            let before = self.imported(tree, entries, n - 1);
            let after = self.imported(tree, entries, n);
            let key = entries[n - 1].0;
            let file = entry_file(self.dir(), key);
            assert forall|i: int| 0 <= i < entries.take(n).len() implies {
                &&& is_file(after, entry_file(self.dir(), (#[trigger] entries.take(n)[i]).0))
                &&& after[entry_file(self.dir(), entries.take(n)[i].0)] == NodeView::File(
                    encode_utf8(entries.take(n)[i].1),
                )
            } by {
                if i < n - 1 {
                    let other = entry_file(self.dir(), entries[i].0);
                    assert(entries.take(n - 1)[i] == entries[i]);
                    assert(is_file(before, other));
                    if other == file {
                        crate::storage::lemma_entry_file_key(self.dir(), entries[i].0, key);
                    }
                    lemma_with_dirs_files(before, file.drop_last(), file.len() - 1, other);
                }
            }
        }
    }

    /// Importing leaves each file as it is that is not the file of an
    /// entry.
    pub proof fn lemma_imported_keeps(
        &self,
        tree: TreeView,
        entries: Seq<(Seq<char>, Seq<char>)>,
        n: int,
        path: crate::tree::Path,
    )
        requires
            0 <= n <= entries.len(),
            self.importable(tree, entries, n),
            is_file(tree, path),
            forall|i: int| 0 <= i < n ==> path != entry_file(self.dir(), (#[trigger] entries[i]).0),
        ensures
            is_file(self.imported(tree, entries, n), path),
            self.imported(tree, entries, n)[path] == tree[path],
        decreases n,
    {
        if n > 0 {
            self.lemma_imported_keeps(tree, entries, n - 1, path);
            let before = self.imported(tree, entries, n - 1);
            let file = entry_file(self.dir(), entries[n - 1].0);
            assert(path != file);
            lemma_with_dirs_files(before, file.drop_last(), file.len() - 1, path);
        }
    }

    /// Importing adds no file but the files of the entries.
    pub proof fn lemma_imported_files(
        &self,
        tree: TreeView,
        entries: Seq<(Seq<char>, Seq<char>)>,
        n: int,
        path: crate::tree::Path,
    )
        requires
            0 <= n <= entries.len(),
            self.importable(tree, entries, n),
            is_file(self.imported(tree, entries, n), path),
        ensures
            is_file(tree, path) || exists|i: int|
                0 <= i < n && path == entry_file(self.dir(), (#[trigger] entries[i]).0),
        decreases n,
    {
        if n > 0 {
            let before = self.imported(tree, entries, n - 1);
            let file = entry_file(self.dir(), entries[n - 1].0);
            if path != file {
                lemma_with_dirs_files(before, file.drop_last(), file.len() - 1, path);
                self.lemma_imported_files(tree, entries, n - 1, path);
            }
        }
    }

    /// After an import into a tree with no file below the directory for
    /// the entries, the keys of the files that hold entries there are the
    /// keys that were imported.
    pub proof fn lemma_imported_keys(
        &self,
        tree: TreeView,
        entries: Seq<(Seq<char>, Seq<char>)>,
        key: Seq<char>,
    )
        requires
            self.importable(tree, entries, entries.len() as int),
            forall|i: int, j: int| 0 <= i < j < entries.len() ==> entries[i].0 != entries[j].0,
            forall|p: crate::tree::Path|
                crate::tree::is_below(p, store_dir(self.dir())) ==> !is_file(tree, p),
        ensures
            (exists|p: crate::tree::Path|
                is_file(#[trigger] self.imported(tree, entries, entries.len() as int), p)
                    && crate::storage::key_of(store_dir(self.dir()), p) == Some(key)) <==> (
            exists|i: int| 0 <= i < entries.len() && (#[trigger] entries[i]).0 == key),
    {
        let n = entries.len() as int;
        let after = self.imported(tree, entries, n);
        let store = store_dir(self.dir());
        if exists|p: crate::tree::Path|
            is_file(after, p) && crate::storage::key_of(store, p) == Some(key) {
            let p = choose|p: crate::tree::Path|
                is_file(after, p) && crate::storage::key_of(store, p) == Some(key);
            self.lemma_imported_files(tree, entries, n, p);
            let i = choose|i: int|
                0 <= i < n && p == entry_file(self.dir(), (#[trigger] entries[i]).0);
            self.lemma_importable_at(tree, entries, n, i);
            crate::text::lemma_split_nonempty(entries[i].0, '/');
            crate::storage::lemma_key_of_entry_file(self.dir(), entries[i].0);
        }
        if exists|i: int| 0 <= i < entries.len() && (#[trigger] entries[i]).0 == key {
            let i = choose|i: int| 0 <= i < entries.len() && (#[trigger] entries[i]).0 == key;
            self.lemma_imported_holds(tree, entries, n);
            assert(entries.take(n) =~= entries);
            self.lemma_importable_at(tree, entries, n, i);
            crate::text::lemma_split_nonempty(key, '/');
            crate::storage::lemma_key_of_entry_file(self.dir(), key);
            assert(is_file(after, entry_file(self.dir(), entries[i].0)));
        }
    }

    /// Where the entries can be imported, each can be stored after the
    /// ones before it: the import stops at none.
    pub proof fn lemma_importable_each(
        &self,
        tree: TreeView,
        entries: Seq<(Seq<char>, Seq<char>)>,
        n: int,
        i: int,
    )
        requires
            0 <= i < n <= entries.len(),
            self.importable(tree, entries, n),
        ensures
            self.importable(tree, entries, i),
            self.can_store(self.imported(tree, entries, i), entries[i].0),
        decreases n,
    {
        if i < n - 1 {
            self.lemma_importable_each(tree, entries, n - 1, i);
        }
    }

    /// Each entry of an import that went through had a key that can be
    /// stored.
    pub proof fn lemma_importable_at(
        &self,
        tree: TreeView,
        entries: Seq<(Seq<char>, Seq<char>)>,
        n: int,
        i: int,
    )
        requires
            0 <= i < n <= entries.len(),
            self.importable(tree, entries, n),
        ensures
            crate::storage::valid_key(entries[i].0),
            split_last_nonempty(entries[i].0),
        decreases n,
    {
        if i < n - 1 {
            self.lemma_importable_at(tree, entries, n - 1, i);
        } else {
            crate::text::lemma_split_nonempty(entries[i].0, '/');
            let parts = crate::text::split(entries[i].0, '/');
        }
    }
}

/// One path lies below another where both stand behind the same
/// beginning exactly where it does without that beginning.
pub proof fn lemma_below_behind(start: crate::tree::Path, a: crate::tree::Path, b: crate::tree::Path)
    ensures
        crate::tree::is_below(start + a, start + b) == crate::tree::is_below(a, b),
{
    let n = start.len() as int;
    if crate::tree::is_below(a, b) {
        assert((start + a).take(n + b.len()) =~= start + a.take(b.len() as int));
    }
    if crate::tree::is_below(start + a, start + b) {
        assert(a.take(b.len() as int) =~= b) by {
            assert forall|i: int| 0 <= i < b.len() implies a[i] == b[i] by {
                assert((start + a).take(n + b.len())[n + i] == (start + b)[n + i]);
            }
        }
    }
}

/// The file of one entry lies below the file of another in one vault
/// exactly where it does in every other.
pub proof fn lemma_entry_files_below(
    one: crate::tree::Path,
    other: crate::tree::Path,
    a: Seq<char>,
    b: Seq<char>,
)
    ensures
        crate::tree::is_below(entry_file(one, a), entry_file(one, b)) == crate::tree::is_below(
            entry_file(other, a),
            entry_file(other, b),
        ),
{
    lemma_below_behind(store_dir(one), crate::storage::entry_names(a), crate::storage::entry_names(b));
    lemma_below_behind(
        store_dir(other),
        crate::storage::entry_names(a),
        crate::storage::entry_names(b),
    );
}

impl Storage {
    /// Importing adds no directory but those on the way to the files of
    /// the entries.
    pub proof fn lemma_imported_dirs(
        &self,
        tree: TreeView,
        entries: Seq<(Seq<char>, Seq<char>)>,
        n: int,
        path: crate::tree::Path,
    )
        requires
            0 <= n <= entries.len(),
            self.importable(tree, entries, n),
            self.imported(tree, entries, n).dom().contains(path),
            self.imported(tree, entries, n)[path] is Dir,
        ensures
            (tree.dom().contains(path) && tree[path] is Dir) || exists|i: int|
                0 <= i < n && crate::tree::is_below(
                    entry_file(self.dir(), (#[trigger] entries[i]).0),
                    path,
                ),
        decreases n,
    {
        if n > 0 {
            let before = self.imported(tree, entries, n - 1);
            let file = entry_file(self.dir(), entries[n - 1].0);
            let dir = file.drop_last();
            let m = file.len() - 1;
            let mid = crate::tree::with_dirs(before, dir, m);
            assert(path != file);
            assert(mid.dom().contains(path) && mid[path] is Dir);
            if exists|k: int| 1 <= k <= m && path == #[trigger] dir.take(k) {
                let k = choose|k: int| 1 <= k <= m && path == #[trigger] dir.take(k);
                assert(dir.take(k) =~= file.take(k));
                assert(crate::tree::is_below(entry_file(self.dir(), entries[n - 1].0), path));
            } else {
                crate::storage::lemma_with_dirs_keeps(before, dir, m, path);
                self.lemma_imported_dirs(tree, entries, n - 1, path);
                if !(tree.dom().contains(path) && tree[path] is Dir) {
                    let i = choose|i: int|
                        0 <= i < n - 1 && crate::tree::is_below(
                            entry_file(self.dir(), (#[trigger] entries[i]).0),
                            path,
                        );
                    assert(0 <= i < n);
                }
            }
        }
    }

    /// What stands in a tree after a vault is made in it stood there
    /// before, or is the file that makes the vault, or a directory on the
    /// way to the directory for its entries.
    pub proof fn lemma_initialized(&self, into: TreeView, record: Seq<u8>, path: crate::tree::Path)
        requires
            self.can_init(into),
            self.initialized(into, record).dom().contains(path),
        ensures
            path == marker_file(self.dir()) || path.len() <= store_dir(self.dir()).len() || (
            into.dom().contains(path) && self.initialized(into, record)[path] == into[path]),
    {
        let store = store_dir(self.dir());
        if path != marker_file(self.dir()) && path.len() > store.len() {
            assert forall|k: int| 1 <= k <= store.len() implies path != #[trigger] store.take(k) by {
                assert(store.take(k).len() != path.len());
            }
            crate::storage::lemma_with_dirs_keeps(into, store, store.len() as int, path);
        }
    }

    /// The entries of a vault can be imported into a tree in which a vault
    /// can be made and nothing stands below the directory for its
    /// entries. That holds where the entries have their files in a rooted
    /// tree, as those of every vault have, and keys that can be stored.
    pub proof fn lemma_collected_importable(
        &self,
        source: crate::tree::Path,
        from: TreeView,
        into: TreeView,
        entries: Seq<(Seq<char>, Seq<char>)>,
        record: Seq<u8>,
        n: int,
    )
        requires
            crate::tree::rooted(from),
            holds_documents(from, source, entries),
            forall|i: int|
                0 <= i < entries.len() ==> crate::storage::valid_key((#[trigger] entries[i]).0),
            self.can_init(into),
            forall|p: crate::tree::Path|
                crate::tree::is_below(p, store_dir(self.dir())) ==> !into.dom().contains(p),
            0 <= n <= entries.len(),
        ensures
            self.importable(self.initialized(into, record), entries, n),
        decreases n,
    {
        if n > 0 {
            self.lemma_collected_importable(source, from, into, entries, record, n - 1);
            let begun = self.initialized(into, record);
            let before = self.imported(begun, entries, n - 1);
            let store = store_dir(self.dir());
            let key = entries[n - 1].0;
            let file = entry_file(self.dir(), key);
            let dir = file.drop_last();
            let here = entry_file(source, key);
            crate::text::lemma_split_nonempty(key, '/');
            assert(file.len() > store.len());
            assert(file.take(store.len() as int) =~= store);
            assert(is_file(from, here));
            assert(crate::tree::plain_path(store)) by {
                assert(crate::tree::can_create_dirs(into, store));
            }
            crate::storage::lemma_entry_file_plain(self.dir(), key);
            assert(!crate::tree::is_dir(before, file)) by {
                if crate::tree::is_dir(before, file) {
                    self.lemma_imported_dirs(begun, entries, n - 1, file);
                    if begun.dom().contains(file) {
                        self.lemma_initialized(into, record, file);
                        assert(marker_file(self.dir()).len() == store.len());
                        assert(crate::tree::is_below(file, store));
                    } else {
                        let i = choose|i: int|
                            0 <= i < n - 1 && crate::tree::is_below(
                                entry_file(self.dir(), (#[trigger] entries[i]).0),
                                file,
                            );
                        lemma_entry_files_below(self.dir(), source, entries[i].0, key);
                        assert(is_file(from, entry_file(source, entries[i].0)));
                        crate::tree::lemma_nothing_below_a_file(
                            from,
                            here,
                            entry_file(source, entries[i].0),
                        );
                    }
                }
            }
            assert(crate::tree::can_create_dirs(before, dir)) by {
                assert forall|j: int| 0 <= j < dir.len() implies crate::tree::plain_name(
                    #[trigger] dir[j],
                ) by {
                    assert(dir[j] == file[j]);
                }
                assert forall|k: int| 1 <= k <= dir.len() implies !is_file(
                    before,
                    #[trigger] dir.take(k),
                ) by {
                    let q = dir.take(k);
                    assert(q =~= file.take(k));
                    if is_file(before, q) {
                        self.lemma_imported_files(begun, entries, n - 1, q);
                        if is_file(begun, q) {
                            if k <= store.len() {
                                assert(q =~= store.take(k));
                                lemma_with_dirs_files(into, store, store.len() as int, q);
                                if q == marker_file(self.dir()) {
                                    assert(store.take(k) =~= store);
                                    reveal_strlit("store");
                                    reveal_strlit(".vault");
                                    assert(store.last().len() != marker_file(
                                        self.dir(),
                                    ).last().len());
                                }
                            } else {
                                self.lemma_initialized(into, record, q);
                                assert(marker_file(self.dir()).len() == store.len());
                                assert(q.take(store.len() as int) =~= store);
                                assert(crate::tree::is_below(q, store));
                            }
                        } else {
                            let i = choose|i: int|
                                0 <= i < n - 1 && q == entry_file(
                                    self.dir(),
                                    (#[trigger] entries[i]).0,
                                );
                            assert(crate::tree::is_below(file, entry_file(self.dir(), entries[i].0)));
                            lemma_entry_files_below(self.dir(), source, key, entries[i].0);
                            assert(is_file(from, entry_file(source, entries[i].0)));
                            crate::tree::lemma_nothing_below_a_file(
                                from,
                                entry_file(source, entries[i].0),
                                here,
                            );
                        }
                    }
                }
            }
        }
    }
}

/// The way of an export from one vault into another. Where `entries` are
/// the documents collected from the vault `source` in the tree `from`,
/// `document` is an export of them under `password`, and a vault can be
/// made for `target` in the tree `into`, in
/// which nothing stands below the directory for the entries of `target`:
/// then opening the export with that password goes through and gives the
/// entries that were collected and the record that was sealed, as JSON
/// prints it; importing the entries for `target` goes through; the vault
/// of `target` then stands, with the record that it was made with; its
/// keys are listed as the keys of `source` are; and each of its entries
/// holds the document that it holds in `source`.
pub proof fn lemma_export_import(
    source: &Storage,
    target: &Storage,
    from: &FileTree,
    into: TreeView,
    document: Seq<u8>,
    password: Seq<char>,
    config_json: Seq<char>,
    exported_at: Seq<char>,
    entries: Seq<(Seq<char>, Seq<char>)>,
    record: Seq<u8>,
)
    requires
        from.wf(),
        collected(entries, from, source.dir()),
        is_export(document, password, config_json, exported_at, entries),
        target.can_init(into),
        forall|p: crate::tree::Path|
            crate::tree::is_below(p, store_dir(target.dir())) ==> !into.dom().contains(p),
    ensures
        opened_export(document, password) matches Ok(vault) && vault.entries == entries && Some(
            vault.config_json,
        ) == json_printed(config_json),
        target.importable(target.initialized(into, record), entries, entries.len() as int),
        target.imported(target.initialized(into, record), entries, entries.len() as int)[marker_file(
            target.dir(),
        )] == NodeView::File(record),
        is_file(
            target.imported(target.initialized(into, record), entries, entries.len() as int),
            marker_file(target.dir()),
        ),
        lists_picked(
            first_texts(entries),
            target.imported(target.initialized(into, record), entries, entries.len() as int),
            pick_entry(store_dir(target.dir())),
        ),
        forall|i: int|
            0 <= i < entries.len() ==> {
                &&& is_file(from@, entry_file(source.dir(), (#[trigger] entries[i]).0))
                &&& target.imported(
                    target.initialized(into, record),
                    entries,
                    entries.len() as int,
                )[entry_file(target.dir(), entries[i].0)] == from@[entry_file(
                    source.dir(),
                    entries[i].0,
                )]
            },
{
    let n = entries.len() as int;
    let begun = target.initialized(into, record);
    let after = target.imported(begun, entries, n);
    let store = store_dir(target.dir());
    let pick = pick_entry(store);
    let keys = first_texts(entries);
    lemma_collected_ascending(entries, from, source.dir());
    lemma_import_reads_export(document, password, config_json, exported_at, entries);
    from.lemma_wf();
    lemma_collected_keys(entries, from, source.dir());
    target.lemma_collected_importable(source.dir(), from@, into, entries, record, n);
    assert forall|i: int, j: int| 0 <= i < j < n implies entries[i].0 != entries[j].0 by {
        assert(keys[i] == entries[i].0 && keys[j] == entries[j].0);
    }
    assert forall|p: crate::tree::Path| crate::tree::is_below(p, store) implies !is_file(
        begun,
        p,
    ) by {
        lemma_with_dirs_files(into, store, store.len() as int, p);
        assert(marker_file(target.dir()).len() == store.len());
    }
    target.lemma_imported_holds(begun, entries, n);
    assert(entries.take(n) =~= entries);
    assert forall|i: int| 0 <= i < n implies marker_file(target.dir()) != entry_file(
        target.dir(),
        (#[trigger] entries[i]).0,
    ) by {
        crate::text::lemma_split_nonempty(entries[i].0, '/');
        assert(entry_file(target.dir(), entries[i].0).len() > marker_file(target.dir()).len());
    }
    target.lemma_imported_keeps(begun, entries, n, marker_file(target.dir()));
    assert forall|text: Seq<char>|
        keys.contains(text) <==> exists|path: crate::tree::Path|
            #[trigger] after.dom().contains(path) && pick(path, after[path]) == Some(
                text,
            ) by {
        target.lemma_imported_keys(begun, entries, text);
        if keys.contains(text) {
            let i = choose|i: int| 0 <= i < keys.len() && keys[i] == text;
            assert(entries[i].0 == text);
            let p = choose|p: crate::tree::Path|
                is_file(after, p) && crate::storage::key_of(store, p) == Some(text);
            assert(after.dom().contains(p) && pick(p, after[p]) == Some(text));
        }
        if exists|path: crate::tree::Path|
            #[trigger] after.dom().contains(path) && pick(path, after[path]) == Some(text) {
            let path = choose|path: crate::tree::Path|
                #[trigger] after.dom().contains(path) && pick(path, after[path]) == Some(text);
            assert(is_file(after, path) && crate::storage::key_of(store, path) == Some(text));
            let i = choose|i: int| 0 <= i < entries.len() && (#[trigger] entries[i]).0 == text;
            assert(keys[i] == text);
        }
    }
}

/// Whether a key does not end in a slash.
pub open spec fn split_last_nonempty(key: Seq<char>) -> bool {
    crate::text::split(key, '/').last().len() > 0
}

/// An export whose checksum is not that of its ciphertext is refused with
/// `ChecksumMismatch`, whatever the password. This is so where the
/// checksum is that of another ciphertext with another digest: where the
/// ciphertext was changed after the export was made.
pub proof fn lemma_checksum_guards_import(
    data: Seq<u8>,
    password: Seq<char>,
    members: Members,
    ciphertext: Seq<u8>,
    nonce: Seq<u8>,
    salt: Seq<u8>,
    checksum: Seq<char>,
    sealed: Seq<u8>,
)
    requires
        json_members_of(data) == DocumentView::Object(members),
        member_named(members, "bunker_export"@) == Some(MemberView::Flag(true)),
        bytes_named(members, "encrypted_data"@, "Missing encrypted data"@) == Ok::<
            Seq<u8>,
            BunkerErrorView,
        >(ciphertext),
        bytes_named(members, "nonce"@, "Missing nonce"@) == Ok::<Seq<u8>, BunkerErrorView>(nonce),
        bytes_named(members, "salt"@, "Missing salt"@) == Ok::<Seq<u8>, BunkerErrorView>(salt),
        text_named(members, "checksum"@) == Some(checksum),
        checksum != hex_lower(sha256(ciphertext)) || (checksum == hex_lower(sha256(sealed))
            && sha256(sealed) != sha256(ciphertext)),
    ensures
        opened_export(data, password) == Err::<ImportedView, BunkerErrorView>(
            BunkerErrorView::ChecksumMismatch,
        ),
{
    if checksum == hex_lower(sha256(ciphertext)) {
        crate::crypto::lemma_hex_lower_injective(sha256(sealed), sha256(ciphertext));
    }
}

} // verus!
