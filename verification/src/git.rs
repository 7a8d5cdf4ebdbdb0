//! The decisions around the history store of a vault. The history store
//! itself is kept by the program around the library.

use vstd::prelude::*;

use crate::primitives::text_of;
use crate::text::chars_of;
use crate::types::Timestamp;

verus! {

/// One revision in the history of a vault.
#[derive(Clone, Debug, PartialEq, Eq)]
pub struct CommitInfo {
    pub hash: String,
    pub message: String,
    pub author: String,
    pub timestamp: Timestamp,
}

/// What is asked of the history store after an entry has changed.
#[derive(Clone, Copy, Debug, PartialEq, Eq)]
pub enum HistoryStep {
    /// Nothing: the vault keeps no history.
    Nothing,
    /// Record the change.
    Commit,
    /// Record the change and send it to the remote.
    CommitAndPush,
}

/// How a path in the working tree differs from the last revision.
#[derive(Clone, Copy, Debug, PartialEq, Eq)]
pub struct ChangeFlags {
    pub is_new: bool,
    pub is_modified: bool,
    pub is_deleted: bool,
}

/// The letter that stands for a change: `A` where the path is new, else
/// `M` where it is modified, else `D` where it is deleted, else `?`.
pub open spec fn change_tag(flags: ChangeFlags) -> char {
    if flags.is_new {
        'A'
    } else if flags.is_modified {
        'M'
    } else if flags.is_deleted {
        'D'
    } else {
        '?'
    }
}

/// What the history store is asked to do after a change: nothing where
/// the vault is no repository, else to record the change, and to send it
/// on where the vault synchronises by itself and has a remote.
pub open spec fn step_after_change(is_repo: bool, auto_sync: bool, has_remote: bool) -> HistoryStep {
    if !is_repo {
        HistoryStep::Nothing
    } else if auto_sync && has_remote {
        HistoryStep::CommitAndPush
    } else {
        HistoryStep::Commit
    }
}

/// The decisions around the history store of a vault.
pub struct Git;

impl Git {
    /// What the history store is asked to do after an entry has changed.
    pub fn after_change(is_repo: bool, auto_sync: bool, has_remote: bool) -> (r: HistoryStep)
        ensures
            r == step_after_change(is_repo, auto_sync, has_remote),
    {
        if !is_repo {
            HistoryStep::Nothing
        } else if auto_sync && has_remote {
            HistoryStep::CommitAndPush
        } else {
            HistoryStep::Commit
        }
    }

    /// The line that reports a change: its letter, a blank and the path.
    pub fn status_line(flags: ChangeFlags, path: &str) -> (r: String)
        ensures
            r@ == seq![change_tag(flags), ' '] + path@,
    {
        let tag: char = if flags.is_new {
            'A'
        } else if flags.is_modified {
            'M'
        } else if flags.is_deleted {
            'D'
        } else {
            '?'
        };
        let mut line: Vec<char> = Vec::new();
        line.push(tag);
        line.push(' ');
        crate::text::append_chars(&mut line, path);
        assert(line@ =~= seq![change_tag(flags), ' '] + path@);
        text_of(&line)
    }

    /// The first eight characters of a hash, or all of it where it has
    /// fewer.
    pub fn short_hash(hash: &str) -> (r: String)
        ensures
            r@ == hash@.take(if hash@.len() < 8 {
                hash@.len() as int
            } else {
                8
            }),
    {
        let mut chars = chars_of(hash);
        if chars.len() > 8 {
            chars.truncate(8);
        }
        assert(chars@ =~= hash@.take(if hash@.len() < 8 {
            hash@.len() as int
        } else {
            8
        }));
        text_of(&chars)
    }

    /// The path, below the directory of a vault, of the file of the entry
    /// with this key, as the history store names it.
    pub fn entry_file(key: &str) -> (r: String)
        ensures
            r@ == "store/"@ + key@ + crate::storage::json_suffix(),
    {
        let mut chars = chars_of("store/");
        crate::text::append_chars(&mut chars, key);
        let ending = crate::storage::json_ending();
        let mut i: usize = 0;
        while i < ending.len()
            invariant
                i <= ending.len(),
                chars@ == "store/"@ + key@ + ending@.take(i as int),
            decreases ending.len() - i,
        {
            chars.push(ending[i]);
            assert(ending@.take(i + 1) =~= ending@.take(i as int).push(ending@[i as int]));
            i += 1;
        }
        assert(ending@.take(ending.len() as int) =~= ending@);
        text_of(&chars)
    }
}

} // verus!
