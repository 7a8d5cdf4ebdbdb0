//! The data of a vault: entries with their metadata, the record of a
//! vault, sessions, keys and options, each with its mathematical value.

use vstd::prelude::*;

verus! {

/// Length in bytes of a master key and of every derived key.
pub const KEY_SIZE: usize = 32;

/// Length in bytes of the nonce that the cipher takes.
pub const NONCE_SIZE: usize = 12;

/// Length in bytes of a freshly generated salt.
pub const SALT_SIZE: usize = 32;

/// The views of a list of strings, in order.
pub open spec fn texts(list: Seq<String>) -> Seq<Seq<char>> {
    list.map_values(|s: String| s@)
}

/// The view of an optional string.
pub open spec fn opt_text(text: Option<String>) -> Option<Seq<char>> {
    match text {
        Some(s) => Some(s@),
        None => None,
    }
}

/// The views of a list of name and value pairs, in order.
pub open spec fn text_pairs(list: Seq<(String, String)>) -> Seq<(Seq<char>, Seq<char>)> {
    list.map_values(|p: (String, String)| (p.0@, p.1@))
}

/// An instant in UTC: whole seconds since the Unix epoch and the nanoseconds
/// that have passed within that second.
#[derive(Clone, Copy, Debug, PartialEq, Eq)]
pub struct Timestamp {
    pub secs: i64,
    pub nanos: u32,
}

impl Timestamp {
    /// Whether `self` lies strictly before `other`.
    pub open spec fn before(self, other: Timestamp) -> bool {
        self.secs < other.secs || (self.secs == other.secs && self.nanos < other.nanos)
    }

    /// Whether `self` lies strictly before `other`.
    pub fn is_before(&self, other: &Timestamp) -> (r: bool)
        ensures
            r == self.before(*other),
    {
        self.secs < other.secs || (self.secs == other.secs && self.nanos < other.nanos)
    }
}

/// What the cipher produced for one plaintext: the nonce it ran under, the
/// ciphertext with its tag, and a salt kept beside them.
#[derive(Clone, Debug, PartialEq, Eq)]
pub struct EncryptedValue {
    pub nonce: Vec<u8>,
    pub ciphertext: Vec<u8>,
    pub salt: Vec<u8>,
}

/// The mathematical value of an [`EncryptedValue`].
pub struct EncryptedValueView {
    pub nonce: Seq<u8>,
    pub ciphertext: Seq<u8>,
    pub salt: Seq<u8>,
}

impl View for EncryptedValue {
    type V = EncryptedValueView;

    open spec fn view(&self) -> EncryptedValueView {
        EncryptedValueView { nonce: self.nonce@, ciphertext: self.ciphertext@, salt: self.salt@ }
    }
}

impl EncryptedValue {
    /// A copy with the same three byte strings.
    pub fn duplicate(&self) -> (r: Self)
        ensures
            r@ == self@,
    {
        EncryptedValue {
            nonce: self.nonce.clone(),
            ciphertext: self.ciphertext.clone(),
            salt: self.salt.clone(),
        }
    }
}

/// The kind of secret that an entry holds.
#[derive(Clone, Debug, PartialEq, Eq)]
pub enum EntryType {
    Password,
    Note,
    Card,
    Identity,
    SecureFile,
    ApiKey,
    SshKey,
    Database,
    Custom(String),
}

/// The mathematical value of an [`EntryType`].
pub enum EntryTypeView {
    Password,
    Note,
    Card,
    Identity,
    SecureFile,
    ApiKey,
    SshKey,
    Database,
    Custom(Seq<char>),
}

impl View for EntryType {
    type V = EntryTypeView;

    open spec fn view(&self) -> EntryTypeView {
        match self {
            EntryType::Password => EntryTypeView::Password,
            EntryType::Note => EntryTypeView::Note,
            EntryType::Card => EntryTypeView::Card,
            EntryType::Identity => EntryTypeView::Identity,
            EntryType::SecureFile => EntryTypeView::SecureFile,
            EntryType::ApiKey => EntryTypeView::ApiKey,
            EntryType::SshKey => EntryTypeView::SshKey,
            EntryType::Database => EntryTypeView::Database,
            EntryType::Custom(name) => EntryTypeView::Custom(name@),
        }
    }
}

impl Default for EntryType {
    fn default() -> (r: Self)
        ensures
            r == EntryType::Password,
    {
        EntryType::Password
    }
}

impl EntryType {
    /// A copy of the same kind, with the same name where it is a custom one.
    pub fn duplicate(&self) -> (r: Self)
        ensures
            r@ == self@,
    {
        match self {
            EntryType::Password => EntryType::Password,
            EntryType::Note => EntryType::Note,
            EntryType::Card => EntryType::Card,
            EntryType::Identity => EntryType::Identity,
            EntryType::SecureFile => EntryType::SecureFile,
            EntryType::ApiKey => EntryType::ApiKey,
            EntryType::SshKey => EntryType::SshKey,
            EntryType::Database => EntryType::Database,
            EntryType::Custom(name) => EntryType::Custom(name.clone()),
        }
    }
}

/// What is stored about an entry beside its secret.
#[derive(Clone, Debug, PartialEq, Eq)]
pub struct EntryMetadata {
    pub entry_type: EntryType,
    pub tags: Vec<String>,
    pub notes: Option<String>,
    pub url: Option<String>,
    pub username: Option<String>,
    /// Custom fields as name and value pairs; a name occurs once.
    pub custom_fields: Vec<(String, String)>,
    pub expires_at: Option<Timestamp>,
    pub auto_type: Option<String>,
}

/// The mathematical value of an [`EntryMetadata`].
pub struct EntryMetadataView {
    pub entry_type: EntryTypeView,
    pub tags: Seq<Seq<char>>,
    pub notes: Option<Seq<char>>,
    pub url: Option<Seq<char>>,
    pub username: Option<Seq<char>>,
    pub custom_fields: Seq<(Seq<char>, Seq<char>)>,
    pub expires_at: Option<Timestamp>,
    pub auto_type: Option<Seq<char>>,
}

impl View for EntryMetadata {
    type V = EntryMetadataView;

    open spec fn view(&self) -> EntryMetadataView {
        EntryMetadataView {
            entry_type: self.entry_type@,
            tags: texts(self.tags@),
            notes: opt_text(self.notes),
            url: opt_text(self.url),
            username: opt_text(self.username),
            custom_fields: text_pairs(self.custom_fields@),
            expires_at: self.expires_at,
            auto_type: opt_text(self.auto_type),
        }
    }
}

/// Whether no name occurs twice in a list of fields.
pub open spec fn distinct_names(fields: Seq<(Seq<char>, Seq<char>)>) -> bool {
    forall|i: int, j: int| 0 <= i < j < fields.len() ==> fields[i].0 != fields[j].0
}

/// The value of the field with this name, if there is one: that of the
/// first where there are several.
pub open spec fn field_value(fields: Seq<(Seq<char>, Seq<char>)>, name: Seq<char>) -> Option<
    Seq<char>,
>
    decreases fields.len(),
{
    if fields.len() == 0 {
        None
    } else if fields[0].0 == name {
        Some(fields[0].1)
    } else {
        field_value(fields.drop_first(), name)
    }
}

/// The fields without those of this name.
pub open spec fn without_field(fields: Seq<(Seq<char>, Seq<char>)>, name: Seq<char>) -> Seq<
    (Seq<char>, Seq<char>),
> {
    fields.filter(other_name(name))
}

/// The test for a field of another name.
pub open spec fn other_name(name: Seq<char>) -> spec_fn((Seq<char>, Seq<char>)) -> bool {
    |f: (Seq<char>, Seq<char>)| f.0 != name
}

impl EntryMetadataView {
    /// No name of a custom field occurs twice.
    pub open spec fn wf(self) -> bool {
        distinct_names(self.custom_fields)
    }
}

/// The value of a name in a list with one more field at its end: the
/// value that the list had for it, else that of the new field where that
/// has the name.
pub proof fn lemma_field_value_push(
    fields: Seq<(Seq<char>, Seq<char>)>,
    field: (Seq<char>, Seq<char>),
    name: Seq<char>,
)
    ensures
        field_value(fields.push(field), name) == match field_value(fields, name) {
            Some(value) => Some(value),
            None => if field.0 == name {
                Some(field.1)
            } else {
                None
            },
        },
    decreases fields.len(),
{
    reveal_with_fuel(field_value, 3);
    if fields.len() > 0 {
        assert(fields.push(field)[0] == fields[0]);
        assert(fields.push(field).drop_first() =~= fields.drop_first().push(field));
        lemma_field_value_push(fields.drop_first(), field, name);
    } else {
        assert(fields.push(field)[0] == field);
        assert(fields.push(field).drop_first() =~= Seq::empty());
    }
}

/// The fields without those of a name have no value for that name, and
/// hold no name twice where the fields held none twice; the other names
/// keep their values.
pub proof fn lemma_without_field(fields: Seq<(Seq<char>, Seq<char>)>, name: Seq<char>)
    ensures
        field_value(without_field(fields, name), name) is None,
        distinct_names(fields) ==> distinct_names(without_field(fields, name)),
        forall|other: Seq<char>|
            other != name ==> #[trigger] field_value(without_field(fields, name), other)
                == field_value(fields, other),
    decreases fields.len(),
{
    reveal(Seq::filter);
    let keep = other_name(name);
    if fields.len() > 0 {
        let init = fields.drop_last();
        lemma_without_field(init, name);
        init.lemma_filter_push(fields.last(), keep);
        assert(init.push(fields.last()) =~= fields);
        let rest = without_field(init, name);
        if keep(fields.last()) {
            lemma_field_value_push(rest, fields.last(), name);
        }
        assert forall|other: Seq<char>| other != name implies #[trigger] field_value(
            without_field(fields, name),
            other,
        ) == field_value(fields, other) by {
            lemma_field_value_push(init, fields.last(), other);
            if keep(fields.last()) {
                lemma_field_value_push(rest, fields.last(), other);
            }
        }
        if distinct_names(fields) {
            assert(distinct_names(init)) by {
                assert forall|i: int, j: int| 0 <= i < j < init.len() implies init[i].0
                    != init[j].0 by {
                    assert(init[i] == fields[i] && init[j] == fields[j]);
                }
            }
            if keep(fields.last()) {
                let out = rest.push(fields.last());
                assert forall|i: int, j: int| 0 <= i < j < out.len() implies out[i].0
                    != out[j].0 by {
                    if j == rest.len() {
                        init.lemma_filter_contains_rev(keep, rest[i]);
                        let k = choose|k: int| 0 <= k < init.len() && init[k] == rest[i];
                        assert(fields[k] == init[k]);
                    }
                }
            }
        }
    }
}

/// A copy of an optional string.
pub fn duplicate_opt_text(text: &Option<String>) -> (r: Option<String>)
    ensures
        opt_text(r) == opt_text(*text),
{
    match text {
        Some(s) => Some(s.clone()),
        None => None,
    }
}

/// A copy of a list of strings.
pub fn duplicate_texts(list: &Vec<String>) -> (r: Vec<String>)
    ensures
        texts(r@) == texts(list@),
{
    let mut out: Vec<String> = Vec::new();
    let mut i: usize = 0;
    while i < list.len()
        invariant
            i <= list.len(),
            out@.len() == i,
            forall|k: int| 0 <= k < i ==> out@[k]@ == list@[k]@,
        decreases list.len() - i,
    {
        out.push(list[i].clone());
        i += 1;
    }
    assert(texts(out@) =~= texts(list@));
    out
}

/// A copy of a list of name and value pairs.
pub fn duplicate_text_pairs(list: &Vec<(String, String)>) -> (r: Vec<(String, String)>)
    ensures
        text_pairs(r@) == text_pairs(list@),
{
    let mut out: Vec<(String, String)> = Vec::new();
    let mut i: usize = 0;
    while i < list.len()
        invariant
            i <= list.len(),
            out@.len() == i,
            forall|k: int| 0 <= k < i ==> out@[k].0@ == list@[k].0@ && out@[k].1@ == list@[k].1@,
        decreases list.len() - i,
    {
        out.push((list[i].0.clone(), list[i].1.clone()));
        i += 1;
    }
    assert(text_pairs(out@) =~= text_pairs(list@));
    out
}

impl EntryMetadata {
    /// The value of the custom field with this name, if there is one.
    pub fn custom_field(&self, name: &str) -> (r: Option<&String>)
        ensures
            match r {
                Some(value) => field_value(self@.custom_fields, name@) == Some(value@),
                None => field_value(self@.custom_fields, name@) is None,
            },
    {
        let mut i: usize = 0;
        assert(self@.custom_fields.skip(0) =~= self@.custom_fields);
        while i < self.custom_fields.len()
            invariant
                i <= self.custom_fields.len(),
                field_value(self@.custom_fields, name@) == field_value(
                    self@.custom_fields.skip(i as int),
                    name@,
                ),
            decreases self.custom_fields.len() - i,
        {
            proof {
                let rest = self@.custom_fields.skip(i as int);
                assert(rest[0] == (self.custom_fields@[i as int].0@, self.custom_fields@[i as int].1@));
                assert(rest.drop_first() =~= self@.custom_fields.skip(i + 1));
            }
            if crate::text::chars_equal(self.custom_fields[i].0.as_str(), name) {
                return Some(&self.custom_fields[i].1);
            }
            i += 1;
        }
        None
    }

    /// Takes the custom fields with this name away, and says whether
    /// there was one.
    pub fn remove_custom_field(&mut self, name: &str) -> (found: bool)
        ensures
            final(self)@ == (EntryMetadataView {
                custom_fields: without_field(old(self)@.custom_fields, name@),
                ..old(self)@
            }),
            found == (field_value(old(self)@.custom_fields, name@) is Some),
            old(self)@.wf() ==> final(self)@.wf(),
            field_value(final(self)@.custom_fields, name@) is None,
    {
        let mut kept: Vec<(String, String)> = Vec::new();
        let mut found: bool = false;
        let mut i: usize = 0;
        let ghost all = self@.custom_fields;
        assert(all.take(0) =~= Seq::empty());
        assert(text_pairs(kept@) =~= Seq::empty());
        while i < self.custom_fields.len()
            invariant
                i <= self.custom_fields.len(),
                *self == *old(self),
                all == text_pairs(self.custom_fields@),
                text_pairs(kept@) == all.take(i as int).filter(other_name(name@)),
                found == (field_value(all.take(i as int), name@) is Some),
            decreases self.custom_fields.len() - i,
        {
            proof {
                let head = all.take(i as int);
                assert(all.take(i + 1) =~= head.push(all[i as int]));
                head.lemma_filter_push(all[i as int], other_name(name@));
                lemma_field_value_push(head, all[i as int], name@);
            }
            if crate::text::chars_equal(self.custom_fields[i].0.as_str(), name) {
                found = true;
            } else {
                let ghost before = kept@;
                kept.push((self.custom_fields[i].0.clone(), self.custom_fields[i].1.clone()));
                assert(text_pairs(kept@) =~= text_pairs(before).push(all[i as int]));
            }
            i += 1;
        }
        proof {
            assert(all.take(all.len() as int) =~= all);
            lemma_without_field(all, name@);
        }
        self.custom_fields = kept;
        found
    }

    /// Sets the custom field with this name to a value, in the place of
    /// the field of that name where there is one.
    pub fn set_custom_field(&mut self, name: String, value: String)
        ensures
            final(self)@ == (EntryMetadataView {
                custom_fields: without_field(old(self)@.custom_fields, name@).push(
                    (name@, value@),
                ),
                ..old(self)@
            }),
            old(self)@.wf() ==> final(self)@.wf(),
            field_value(final(self)@.custom_fields, name@) == Some(value@),
    {
        let _ = self.remove_custom_field(name.as_str());
        let ghost before = self.custom_fields@;
        proof {
            let rest = without_field(old(self)@.custom_fields, name@);
            lemma_without_field(old(self)@.custom_fields, name@);
            lemma_field_value_push(rest, (name@, value@), name@);
            assert(distinct_names(rest) ==> distinct_names(rest.push((name@, value@)))) by {
                if distinct_names(rest) {
                    assert forall|i: int, j: int|
                        0 <= i < j < rest.push((name@, value@)).len() implies rest.push(
                        (name@, value@),
                    )[i].0 != rest.push((name@, value@))[j].0 by {
                        if j == rest.len() {
                            old(self)@.custom_fields.lemma_filter_pred(other_name(name@), i);
                        }
                    }
                }
            }
        }
        self.custom_fields.push((name, value));
        assert(text_pairs(self.custom_fields@) =~= text_pairs(before).push((name@, value@)));
    }

    /// Metadata of a password entry with nothing else set.
    pub fn empty() -> (r: Self)
        ensures
            r@ == (EntryMetadataView {
                entry_type: EntryTypeView::Password,
                tags: Seq::empty(),
                notes: None,
                url: None,
                username: None,
                custom_fields: Seq::empty(),
                expires_at: None,
                auto_type: None,
            }),
    {
        let r = EntryMetadata {
            entry_type: EntryType::Password,
            tags: Vec::new(),
            notes: None,
            url: None,
            username: None,
            custom_fields: Vec::new(),
            expires_at: None,
            auto_type: None,
        };
        assert(texts(r.tags@) =~= Seq::empty());
        assert(text_pairs(r.custom_fields@) =~= Seq::empty());
        r
    }

    /// A copy with the same contents.
    pub fn duplicate(&self) -> (r: Self)
        ensures
            r@ == self@,
    {
        EntryMetadata {
            entry_type: self.entry_type.duplicate(),
            tags: duplicate_texts(&self.tags),
            notes: duplicate_opt_text(&self.notes),
            url: duplicate_opt_text(&self.url),
            username: duplicate_opt_text(&self.username),
            custom_fields: duplicate_text_pairs(&self.custom_fields),
            expires_at: self.expires_at,
            auto_type: duplicate_opt_text(&self.auto_type),
        }
    }
}

/// One stored secret with what is known about it.
#[derive(Clone, Debug, PartialEq, Eq)]
pub struct Entry {
    pub id: [u8; 16],
    /// The logical key: a path whose parts are separated by `/`.
    pub key: String,
    pub value: EncryptedValue,
    pub metadata: EntryMetadata,
    pub created_at: Timestamp,
    pub updated_at: Timestamp,
    pub accessed_at: Option<Timestamp>,
}

/// The mathematical value of an [`Entry`].
pub struct EntryView {
    pub id: Seq<u8>,
    pub key: Seq<char>,
    pub value: EncryptedValueView,
    pub metadata: EntryMetadataView,
    pub created_at: Timestamp,
    pub updated_at: Timestamp,
    pub accessed_at: Option<Timestamp>,
}

impl View for Entry {
    type V = EntryView;

    open spec fn view(&self) -> EntryView {
        EntryView {
            id: self.id@,
            key: self.key@,
            value: self.value@,
            metadata: self.metadata@,
            created_at: self.created_at,
            updated_at: self.updated_at,
            accessed_at: self.accessed_at,
        }
    }
}

impl EntryView {
    /// The same entry with another value.
    pub open spec fn with_value(self, value: EncryptedValueView) -> EntryView {
        EntryView { value, ..self }
    }
}

impl Entry {
    /// An entry of a kind, made at `now`, with nothing else known of it.
    pub fn new(
        id: [u8; 16],
        key: String,
        value: EncryptedValue,
        entry_type: EntryType,
        now: Timestamp,
    ) -> (r: Self)
        ensures
            r@ == (EntryView {
                id: id@,
                key: key@,
                value: value@,
                metadata: EntryMetadataView {
                    entry_type: entry_type@,
                    tags: Seq::empty(),
                    notes: None,
                    url: None,
                    username: None,
                    custom_fields: Seq::empty(),
                    expires_at: None,
                    auto_type: None,
                },
                created_at: now,
                updated_at: now,
                accessed_at: None,
            }),
    {
        let mut metadata = EntryMetadata::empty();
        metadata.entry_type = entry_type;
        Entry { id, key, value, metadata, created_at: now, updated_at: now, accessed_at: None }
    }

    /// A copy with the same contents.
    pub fn duplicate(&self) -> (r: Self)
        ensures
            r@ == self@,
    {
        Entry {
            id: self.id,
            key: self.key.clone(),
            value: self.value.duplicate(),
            metadata: self.metadata.duplicate(),
            created_at: self.created_at,
            updated_at: self.updated_at,
            accessed_at: self.accessed_at,
        }
    }
}

/// The settings of the cipher and of the key derivation of a vault.
#[derive(Clone, Debug, PartialEq, Eq)]
pub struct EncryptionConfig {
    pub algorithm: String,
    pub kdf: String,
    pub kdf_iterations: u32,
    pub kdf_memory: u32,
    pub kdf_parallelism: u32,
}

/// The mathematical value of an [`EncryptionConfig`].
pub struct EncryptionConfigView {
    pub algorithm: Seq<char>,
    pub kdf: Seq<char>,
    pub kdf_iterations: u32,
    pub kdf_memory: u32,
    pub kdf_parallelism: u32,
}

impl View for EncryptionConfig {
    type V = EncryptionConfigView;

    open spec fn view(&self) -> EncryptionConfigView {
        EncryptionConfigView {
            algorithm: self.algorithm@,
            kdf: self.kdf@,
            kdf_iterations: self.kdf_iterations,
            kdf_memory: self.kdf_memory,
            kdf_parallelism: self.kdf_parallelism,
        }
    }
}

impl Default for EncryptionConfig {
    /// ChaCha20-Poly1305 under Argon2id with three passes, 64 MiB and two lanes.
    fn default() -> (r: Self)
        ensures
            r@ == (EncryptionConfigView {
                algorithm: "chacha20poly1305"@,
                kdf: "argon2id"@,
                kdf_iterations: 3,
                kdf_memory: 65536,
                kdf_parallelism: 2,
            }),
    {
        EncryptionConfig {
            algorithm: "chacha20poly1305".to_string(),
            kdf: "argon2id".to_string(),
            kdf_iterations: 3,
            kdf_memory: 65536,
            kdf_parallelism: 2,
        }
    }
}

impl EncryptionConfig {
    /// A copy with the same contents.
    pub fn duplicate(&self) -> (r: Self)
        ensures
            r@ == self@,
    {
        EncryptionConfig {
            algorithm: self.algorithm.clone(),
            kdf: self.kdf.clone(),
            kdf_iterations: self.kdf_iterations,
            kdf_memory: self.kdf_memory,
            kdf_parallelism: self.kdf_parallelism,
        }
    }
}

/// The record that makes a directory a vault.
#[derive(Clone, Debug, PartialEq, Eq)]
pub struct VaultConfig {
    /// Made once and never changed: it is the salt of the master key.
    pub id: [u8; 16],
    pub name: String,
    pub created_at: Timestamp,
    pub last_modified: Timestamp,
    pub encryption: EncryptionConfig,
    pub git_remote: Option<String>,
    pub auto_sync: bool,
    pub auto_lock_minutes: Option<u64>,
}

/// The mathematical value of a [`VaultConfig`].
pub struct VaultConfigView {
    pub id: Seq<u8>,
    pub name: Seq<char>,
    pub created_at: Timestamp,
    pub last_modified: Timestamp,
    pub encryption: EncryptionConfigView,
    pub git_remote: Option<Seq<char>>,
    pub auto_sync: bool,
    pub auto_lock_minutes: Option<u64>,
}

impl View for VaultConfig {
    type V = VaultConfigView;

    open spec fn view(&self) -> VaultConfigView {
        VaultConfigView {
            id: self.id@,
            name: self.name@,
            created_at: self.created_at,
            last_modified: self.last_modified,
            encryption: self.encryption@,
            git_remote: opt_text(self.git_remote),
            auto_sync: self.auto_sync,
            auto_lock_minutes: self.auto_lock_minutes,
        }
    }
}

impl VaultConfig {
    /// The record of a vault that is made at `now`: the default settings
    /// for encryption, no remote, synchronising switched on, and a lock
    /// after 15 minutes.
    pub fn new(id: [u8; 16], name: String, now: Timestamp) -> (r: Self)
        ensures
            r@ == (VaultConfigView {
                id: id@,
                name: name@,
                created_at: now,
                last_modified: now,
                encryption: EncryptionConfigView {
                    algorithm: "chacha20poly1305"@,
                    kdf: "argon2id"@,
                    kdf_iterations: 3,
                    kdf_memory: 65536,
                    kdf_parallelism: 2,
                },
                git_remote: None,
                auto_sync: true,
                auto_lock_minutes: Some(15u64),
            }),
    {
        VaultConfig {
            id,
            name,
            created_at: now,
            last_modified: now,
            encryption: EncryptionConfig::default(),
            git_remote: None,
            auto_sync: true,
            auto_lock_minutes: Some(15),
        }
    }

    /// The same record under another name. The identifier stays: it is
    /// the salt of the master key.
    pub fn renamed(self, name: &str) -> (r: Self)
        ensures
            r@ == self@.with_name(name@),
    {
        let mut config = self;
        config.name = name.to_string();
        config
    }
}

impl VaultConfigView {
    /// The same record under another name.
    pub open spec fn with_name(self, name: Seq<char>) -> VaultConfigView {
        VaultConfigView { name, ..self }
    }
}

/// The record that carries a wrapped master key from one run to the next.
#[derive(Clone, Debug, PartialEq, Eq)]
pub struct Session {
    pub id: [u8; 16],
    pub vault_name: String,
    pub created_at: Timestamp,
    pub expires_at: Timestamp,
    /// The verifier: the vault's identifier as text, or a password hash.
    pub key_hash: String,
    pub encrypted_master_key: Vec<u8>,
    pub nonce: Vec<u8>,
    pub salt: Vec<u8>,
}

/// The mathematical value of a [`Session`].
pub struct SessionView {
    pub id: Seq<u8>,
    pub vault_name: Seq<char>,
    pub created_at: Timestamp,
    pub expires_at: Timestamp,
    pub key_hash: Seq<char>,
    pub encrypted_master_key: Seq<u8>,
    pub nonce: Seq<u8>,
    pub salt: Seq<u8>,
}

impl View for Session {
    type V = SessionView;

    open spec fn view(&self) -> SessionView {
        SessionView {
            id: self.id@,
            vault_name: self.vault_name@,
            created_at: self.created_at,
            expires_at: self.expires_at,
            key_hash: self.key_hash@,
            encrypted_master_key: self.encrypted_master_key@,
            nonce: self.nonce@,
            salt: self.salt@,
        }
    }
}

/// The symmetric key that protects every entry of a vault.
#[derive(Clone, Debug)]
pub struct MasterKey {
    pub key: Vec<u8>,
}

impl View for MasterKey {
    type V = Seq<u8>;

    open spec fn view(&self) -> Seq<u8> {
        self.key@
    }
}

impl Drop for MasterKey {
    /// Overwrites the key with zeros before the memory is given back.
    fn drop(&mut self)
        opens_invariants none
        no_unwind
    {
        crate::primitives::zeroize_bytes(&mut self.key);
    }
}

impl MasterKey {
    pub fn new(key: Vec<u8>) -> (r: Self)
        ensures
            r.key == key,
    {
        Self { key }
    }

    /// Whether the key has the length that the cipher takes.
    pub open spec fn wf(&self) -> bool {
        self.key@.len() == KEY_SIZE
    }

    /// Whether the key has the length that the cipher takes.
    pub fn is_well_formed(&self) -> (r: bool)
        ensures
            r == self.wf(),
    {
        self.key.len() == KEY_SIZE
    }
}

/// An export of a vault as one record: the record of the vault beside the
/// encrypted entries, the salt and the nonce of their encryption, and the
/// checksum of the ciphertext.
#[derive(Clone, Debug, PartialEq, Eq)]
pub struct VaultExport {
    pub version: String,
    pub vault_config: VaultConfig,
    pub encrypted_data: Vec<u8>,
    pub salt: Vec<u8>,
    pub nonce: Vec<u8>,
    pub checksum: String,
    pub exported_at: Timestamp,
}

/// One entry in the clear, as it is written to and read from exchange files.
#[derive(Clone, Debug, PartialEq, Eq)]
pub struct ExportEntry {
    pub key: String,
    pub value: String,
    pub username: Option<String>,
    pub url: Option<String>,
    pub notes: Option<String>,
    pub tags: Vec<String>,
    pub created_at: Timestamp,
    pub updated_at: Timestamp,
}

/// What happened to an entry in one step of its history.
#[derive(Clone, Copy, Debug, PartialEq, Eq)]
pub enum HistoryAction {
    Created,
    Updated,
    Deleted,
    Renamed,
}

/// One step in the history of an entry.
#[derive(Clone, Debug, PartialEq, Eq)]
pub struct HistoryEntry {
    pub commit_hash: String,
    pub key: String,
    pub action: HistoryAction,
    pub timestamp: Timestamp,
    pub message: String,
}

/// The strokes that a tree of keys is drawn with.
#[derive(Clone, Debug, PartialEq, Eq)]
pub struct TreeChars {
    pub vertical: String,
    pub horizontal: String,
    pub branch: String,
    pub last_branch: String,
}

/// The marks that messages begin with, and the strokes of a tree.
#[derive(Clone, Debug, PartialEq, Eq)]
pub struct Theme {
    pub success_prefix: String,
    pub error_prefix: String,
    pub warning_prefix: String,
    pub info_prefix: String,
    pub tree_chars: TreeChars,
}

impl Default for Theme {
    fn default() -> (r: Self)
        ensures
            r.success_prefix@ == "✓"@,
            r.error_prefix@ == "✗"@,
            r.warning_prefix@ == "⚠"@,
            r.info_prefix@ == "→"@,
            r.tree_chars.vertical@ == "│"@,
            r.tree_chars.horizontal@ == "─"@,
            r.tree_chars.branch@ == "├──"@,
            r.tree_chars.last_branch@ == "└──"@,
    {
        Theme {
            success_prefix: "✓".to_string(),
            error_prefix: "✗".to_string(),
            warning_prefix: "⚠".to_string(),
            info_prefix: "→".to_string(),
            tree_chars: TreeChars {
                vertical: "│".to_string(),
                horizontal: "─".to_string(),
                branch: "├──".to_string(),
                last_branch: "└──".to_string(),
            },
        }
    }
}

/// What a generated password is made of.
#[derive(Clone, Debug, PartialEq, Eq)]
pub struct GenerateOptions {
    pub length: usize,
    pub use_uppercase: bool,
    pub use_lowercase: bool,
    pub use_numbers: bool,
    pub use_symbols: bool,
    pub exclude_ambiguous: bool,
    pub custom_charset: Option<String>,
}

impl Default for GenerateOptions {
    /// Twenty characters from all four classes, without the ambiguous ones.
    fn default() -> (r: Self)
        ensures
            r.length == 20,
            r.use_uppercase,
            r.use_lowercase,
            r.use_numbers,
            r.use_symbols,
            r.exclude_ambiguous,
            r.custom_charset is None,
    {
        GenerateOptions {
            length: 20,
            use_uppercase: true,
            use_lowercase: true,
            use_numbers: true,
            use_symbols: true,
            exclude_ambiguous: true,
            custom_charset: None,
        }
    }
}

} // verus!
