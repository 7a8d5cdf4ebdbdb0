//! The session that carries the master key of a vault from one run of the
//! program to the next: the master key is wrapped under a key derived from
//! the vault's identifier and kept in the session file.

use vstd::prelude::*;
use vstd::utf8::encode_utf8;

use crate::crypto::{derived_key, Crypto};
use crate::error::BunkerError;
use crate::primitives::{aead_accepts, aead_open, fresh_id, hyphenated, id_text};
use crate::storage::{session_file, Storage};
use crate::tree::{is_file, FileTree};
use crate::types::{MasterKey, Session, SessionView, Timestamp, VaultConfig, NONCE_SIZE, SALT_SIZE};

verus! {

/// The seconds that a permanent session lasts: ten years of 365 days.
pub const PERMANENT_SECS: i64 = 315_360_000;

/// The instant `PERMANENT_SECS` after `now`.
pub open spec fn permanent_expiry(now: Timestamp) -> Timestamp {
    Timestamp { secs: (now.secs + PERMANENT_SECS) as i64, nanos: now.nanos }
}

/// The master key of a vault: what is derived from its password with its
/// identifier as the salt, at the costs that its settings name.
pub open spec fn master_key_of(password: Seq<char>, config: crate::types::VaultConfigView) -> Option<
    Seq<u8>,
> {
    crate::crypto::derived_key_at(
        password,
        config.id,
        crate::crypto::costs_of(
            config.encryption.kdf_memory,
            config.encryption.kdf_iterations,
            config.encryption.kdf_parallelism,
        ),
    )
}

/// What unwrapping the master key of a session gives, where the wrapping
/// key is derived from `secret` and the session's salt. There is none
/// where the key cannot be derived (`KdfFailure`), or where the nonce has
/// the wrong length or the tag does not match (`DecryptFailure`).
pub open spec fn recovered_key(session: SessionView, secret: Seq<char>) -> Result<
    Seq<u8>,
    BunkerError,
> {
    match derived_key(secret, session.salt) {
        None => Err(BunkerError::KdfFailure),
        Some(wrapping) => if session.nonce.len() != NONCE_SIZE {
            Err(BunkerError::DecryptFailure)
        } else {
            match aead_open(wrapping, session.nonce, session.encrypted_master_key) {
                None => Err(BunkerError::DecryptFailure),
                Some(key) => Ok(key),
            }
        },
    }
}

/// Whether `session` is a permanent session of the vault with this name
/// and identifier, made at `now`, that wraps `master_key`: the verifier is
/// the identifier as text, the wrapped key is the master key and a tag of
/// 16 bytes long, and the master key comes back from the session under a
/// wrapping key derived from that text.
pub open spec fn is_permanent_session(
    session: SessionView,
    master_key: Seq<u8>,
    vault_name: Seq<char>,
    vault_id: Seq<u8>,
    now: Timestamp,
) -> bool {
    &&& session.vault_name == vault_name
    &&& session.created_at == now
    &&& session.expires_at == permanent_expiry(now)
    &&& session.key_hash == hyphenated(vault_id)
    &&& session.salt.len() == SALT_SIZE
    &&& session.nonce.len() == NONCE_SIZE
    &&& session.encrypted_master_key.len() == master_key.len() + 16
    &&& recovered_key(session, hyphenated(vault_id)) == Ok::<Seq<u8>, BunkerError>(master_key)
}

/// The view of the outcome of an operation that gives a master key.
pub open spec fn key_outcome(r: Result<MasterKey, BunkerError>) -> Result<Seq<u8>, BunkerError> {
    match r {
        Ok(key) => Ok(key@),
        Err(e) => Err(e),
    }
}

/// What unlocking a session with a password gives: the password has to
/// match the session's verifier, and the master key is then unwrapped
/// under a key derived from the password. There is none where the
/// verifier is no password hash (`Other`) or the password does not match
/// it (`InvalidPassword`).
pub open spec fn unlocked_key(session: SessionView, password: Seq<char>) -> Result<
    Seq<u8>,
    crate::error::BunkerErrorView,
> {
    match crate::crypto::password_check(encode_utf8(password), session.key_hash) {
        None => Err(crate::error::BunkerErrorView::Other("Invalid password hash"@)),
        Some(false) => Err(crate::error::BunkerErrorView::InvalidPassword),
        Some(true) => match recovered_key(session, password) {
            Ok(key) => Ok(key),
            Err(e) => Err(e@),
        },
    }
}

impl Storage {
    /// Wraps the master key for the session file: the wrapping key is
    /// derived from the vault's identifier as text and a fresh salt, and
    /// the session that comes back lasts ten years from `now`. Fails with
    /// `EncryptFailure` exactly where the master key is longer than the
    /// cipher takes.
    pub fn store_master_key_permanently(
        &self,
        master_key: &MasterKey,
        config: &VaultConfig,
        now: Timestamp,
    ) -> (r: Result<Session, BunkerError>)
        requires
            now.secs + PERMANENT_SECS <= i64::MAX,
        ensures
            match r {
                Ok(session) => aead_accepts(master_key@.len()) && is_permanent_session(
                    session@,
                    master_key@,
                    self.name(),
                    config@.id,
                    now,
                ),
                Err(e) => e == BunkerError::EncryptFailure && !aead_accepts(master_key@.len()),
            },
    {
        let salt = Crypto::generate_salt();
        let verifier = id_text(&config.id);
        proof {
            lemma_hyphenated_len(config.id@);
            lemma_utf8_len(hyphenated(config.id@));
        }
        let wrapping = match Crypto::derive_key(verifier.as_str(), salt.as_slice()) {
            Err(e) => {
                return Err(e);
            },
            Ok(wrapping) => wrapping,
        };
        let (encrypted_master_key, nonce) = match Crypto::encrypt_master_key_for_session(
            master_key,
            wrapping.key.as_slice(),
        ) {
            Err(e) => {
                return Err(e);
            },
            Ok(wrapped) => wrapped,
        };
        Ok(
            Session {
                id: fresh_id(),
                vault_name: self.get_vault_name().to_string(),
                created_at: now,
                expires_at: Timestamp { secs: now.secs + PERMANENT_SECS, nanos: now.nanos },
                key_hash: verifier,
                encrypted_master_key,
                nonce,
                salt,
            },
        )
    }

    /// Derives the master key of the vault from its password, with the
    /// vault's identifier as the salt and at the costs that the vault's
    /// settings name, and wraps it into a permanent session made at `now`.
    /// Fails with `KdfFailure` exactly where Argon2 refuses the costs or
    /// the password is longer than it takes.
    pub fn unlock_with_password(&self, password: &str, config: &VaultConfig, now: Timestamp) -> (r:
        Result<(MasterKey, Session), BunkerError>)
        requires
            now.secs + PERMANENT_SECS <= i64::MAX,
        ensures
            match r {
                Ok((master_key, session)) => {
                    &&& master_key_of(password@, config@) == Some(master_key@)
                    &&& master_key.wf()
                    &&& is_permanent_session(
                        session@,
                        master_key@,
                        self.name(),
                        config@.id,
                        now,
                    )
                },
                Err(e) => e == BunkerError::KdfFailure && master_key_of(password@, config@)
                    is None,
            },
    {
        let master_key = match Crypto::derive_key_with(
            password,
            config.id.as_slice(),
            &config.encryption,
        ) {
            Err(e) => {
                return Err(e);
            },
            Ok(master_key) => master_key,
        };
        match self.store_master_key_permanently(&master_key, config, now) {
            Err(e) => Err(e),
            Ok(session) => Ok((master_key, session)),
        }
    }

    /// Unwraps the master key of a permanent session: the wrapping key is
    /// derived from the vault's identifier as text and the session's salt.
    pub fn load_master_key_permanently(&self, session: &Session, config: &VaultConfig) -> (r: Result<
        MasterKey,
        BunkerError,
    >)
        ensures
            key_outcome(r) == recovered_key(session@, hyphenated(config@.id)),
    {
        let secret = id_text(&config.id);
        Self::unwrap_master_key(session, secret.as_str())
    }

    /// Unwraps the master key of a session under a wrapping key derived
    /// from `secret` and the session's salt.
    pub fn unwrap_master_key(session: &Session, secret: &str) -> (r: Result<MasterKey, BunkerError>)
        ensures
            key_outcome(r) == recovered_key(session@, secret@),
    {
        let wrapping = match Crypto::derive_session_key(secret, session.salt.as_slice()) {
            Err(e) => {
                return Err(e);
            },
            Ok(wrapping) => wrapping,
        };
        if session.nonce.len() != NONCE_SIZE {
            return Err(BunkerError::DecryptFailure);
        }
        Crypto::decrypt_master_key_from_session(
            session.encrypted_master_key.as_slice(),
            session.nonce.as_slice(),
            wrapping.as_slice(),
        )
    }

    /// Unwraps the master key of a session that is bound to a password.
    pub fn load_master_key_from_session(&self, session: &Session, session_password: &str) -> (r:
        Result<MasterKey, BunkerError>)
        ensures
            match r {
                Ok(key) => unlocked_key(session@, session_password@) == Ok::<
                    Seq<u8>,
                    crate::error::BunkerErrorView,
                >(key@),
                Err(e) => unlocked_key(session@, session_password@) == Err::<
                    Seq<u8>,
                    crate::error::BunkerErrorView,
                >(e@),
            },
    {
        match Crypto::verify_password(session_password, session.key_hash.as_str()) {
            Err(e) => Err(e),
            Ok(false) => Err(BunkerError::InvalidPassword),
            Ok(true) => Self::unwrap_master_key(session, session_password),
        }
    }

    /// Passes a session that was read from its file where it has not
    /// expired at `now`. Where it has, the file is removed and the check
    /// fails with `SessionExpired`; where no file stands there to remove,
    /// it fails with `IoError`.
    pub fn check_session(&self, fs: &mut FileTree, session: Session, now: &Timestamp) -> (r: Result<
        Session,
        BunkerError,
    >)
        requires
            old(fs).wf(),
        ensures
            final(fs).wf(),
            final(fs).base() == old(fs).base(),
            match r {
                Ok(passed) => !session.expires_at.before(*now) && passed == session && final(fs)@
                    == old(fs)@,
                Err(e) => session.expires_at.before(*now) && if is_file(
                    old(fs)@,
                    session_file(self.name()),
                ) {
                    e == BunkerError::SessionExpired && final(fs)@ == old(fs)@.remove(
                        session_file(self.name()),
                    )
                } else {
                    e is IoError && final(fs)@ == old(fs)@
                },
            },
    {
        if session.expires_at.is_before(now) {
            match fs.remove_file(&self.session_path()) {
                Ok(()) => Err(BunkerError::SessionExpired),
                Err(e) => Err(e),
            }
        } else {
            Ok(session)
        }
    }
}

/// A text in UTF-8 has at most four bytes for each character.
pub proof fn lemma_utf8_len(text: Seq<char>)
    ensures
        encode_utf8(text).len() <= 4 * text.len(),
    decreases text.len(),
{
    if text.len() > 0 {
        lemma_utf8_len(text.drop_first());
    }
}

/// An identifier of sixteen bytes has 36 characters as text.
pub proof fn lemma_hyphenated_len(id: Seq<u8>)
    requires
        id.len() == 16,
    ensures
        hyphenated(id).len() == 36,
{
    crate::crypto::lemma_hex_lower_len(id.subrange(0, 4));
    crate::crypto::lemma_hex_lower_len(id.subrange(4, 6));
    crate::crypto::lemma_hex_lower_len(id.subrange(6, 8));
    crate::crypto::lemma_hex_lower_len(id.subrange(8, 10));
    crate::crypto::lemma_hex_lower_len(id.subrange(10, 16));
}

/// The master key comes back from the permanent session that was made for
/// it.
pub proof fn lemma_session_round_trip(
    session: SessionView,
    master_key: Seq<u8>,
    vault_name: Seq<char>,
    vault_id: Seq<u8>,
    now: Timestamp,
)
    requires
        is_permanent_session(session, master_key, vault_name, vault_id, now),
    ensures
        recovered_key(session, hyphenated(vault_id)) == Ok::<Seq<u8>, BunkerError>(master_key),
{
}

} // verus!
