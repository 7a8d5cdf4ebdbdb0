//! The settings that hold for all vaults of a user, and the directories
//! that always stand below the base directory.

use vstd::prelude::*;

use crate::error::BunkerError;
use crate::tree::{with_dirs, FileTree};
use crate::types::{opt_text, texts};

verus! {

/// How messages are shown.
#[derive(Clone, Debug, PartialEq, Eq)]
pub struct Theme {
    pub use_colors: bool,
    pub use_icons: bool,
}

/// The settings that hold for all vaults of a user.
#[derive(Clone, Debug, PartialEq, Eq)]
pub struct Config {
    pub default_vault: String,
    pub editor: Option<String>,
    pub auto_sync: bool,
    pub auto_lock_minutes: Option<u64>,
    pub clipboard_timeout: u64,
    pub theme: Theme,
}

impl Default for Config {
    /// The vault `default`, no editor, no synchronising, a lock after 15
    /// minutes, a clipboard that is cleared after 45 seconds, and colours
    /// and icons.
    fn default() -> (r: Self)
        ensures
            r.default_vault@ == "default"@,
            r.editor is None,
            !r.auto_sync,
            r.auto_lock_minutes == Some(15u64),
            r.clipboard_timeout == 45,
            r.theme.use_colors,
            r.theme.use_icons,
    {
        Config {
            default_vault: "default".to_string(),
            editor: None,
            auto_sync: false,
            auto_lock_minutes: Some(15),
            clipboard_timeout: 45,
            theme: Theme { use_colors: true, use_icons: true },
        }
    }
}

/// The editor to run: the configured one, else the one that `EDITOR`
/// names, else the one that `VISUAL` names, else `notepad` on Windows and
/// `vi` elsewhere.
pub open spec fn chosen_editor(
    configured: Option<Seq<char>>,
    editor_var: Option<Seq<char>>,
    visual_var: Option<Seq<char>>,
    on_windows: bool,
) -> Seq<char> {
    match configured {
        Some(editor) => editor,
        None => match editor_var {
            Some(editor) => editor,
            None => match visual_var {
                Some(editor) => editor,
                None => if on_windows {
                    "notepad"@
                } else {
                    "vi"@
                },
            },
        },
    }
}

/// Whether a vault may be deleted: it is neither the vault `default` nor
/// the default that is configured.
pub open spec fn deletable(name: Seq<char>, default_vault: Seq<char>) -> bool {
    name != "default"@ && name != default_vault
}

/// The default vault after a vault is made: the new vault where the
/// default was still `default` and the new vault has another name, else
/// the default as it was.
pub open spec fn default_after(default_vault: Seq<char>, made: Seq<char>) -> Seq<char> {
    if default_vault == "default"@ && made != "default"@ {
        made
    } else {
        default_vault
    }
}

impl Config {
    /// Whether the vault with this name may be deleted.
    pub fn may_delete(&self, name: &str) -> (r: bool)
        ensures
            r == deletable(name@, self.default_vault@),
    {
        !crate::text::chars_equal(name, "default") && !crate::text::chars_equal(
            name,
            self.default_vault.as_str(),
        )
    }

    /// Takes note of a vault that was made: it becomes the default where
    /// the default was still `default`. Says whether the settings changed.
    pub fn adopt(&mut self, made: &str) -> (changed: bool)
        ensures
            final(self).default_vault@ == default_after(old(self).default_vault@, made@),
            final(self).editor == old(self).editor,
            final(self).auto_sync == old(self).auto_sync,
            final(self).auto_lock_minutes == old(self).auto_lock_minutes,
            final(self).clipboard_timeout == old(self).clipboard_timeout,
            final(self).theme == old(self).theme,
            changed == (old(self).default_vault@ == "default"@ && made@ != "default"@),
    {
        if crate::text::chars_equal(self.default_vault.as_str(), "default")
            && !crate::text::chars_equal(made, "default") {
            self.default_vault = made.to_string();
            true
        } else {
            false
        }
    }

    /// The file of these settings, below the base directory.
    pub fn config_path() -> (r: Vec<String>)
        ensures
            texts(r@) == seq!["config.toml"@],
    {
        let mut path: Vec<String> = Vec::new();
        path.push("config.toml".to_string());
        assert(texts(path@) =~= seq!["config.toml"@]);
        path
    }

    /// The editor to run, given what the variables `EDITOR` and `VISUAL`
    /// hold and whether the system is Windows.
    pub fn editor(
        &self,
        editor_var: Option<String>,
        visual_var: Option<String>,
        on_windows: bool,
    ) -> (r: String)
        ensures
            r@ == chosen_editor(
                opt_text(self.editor),
                opt_text(editor_var),
                opt_text(visual_var),
                on_windows,
            ),
    {
        match &self.editor {
            Some(editor) => editor.clone(),
            None => match editor_var {
                Some(editor) => editor,
                None => match visual_var {
                    Some(editor) => editor,
                    None => if on_windows {
                        "notepad".to_string()
                    } else {
                        "vi".to_string()
                    },
                },
            },
        }
    }
}

/// The directories that always stand below the base directory.
pub open spec fn has_base_dirs(tree: crate::tree::TreeView) -> bool {
    &&& crate::tree::is_dir(tree, seq!["vaults"@])
    &&& crate::tree::is_dir(tree, seq!["sessions"@])
    &&& crate::tree::is_dir(tree, seq!["backups"@])
}

/// Whether a file stands in the place of one of the directories that
/// always stand below the base directory.
pub open spec fn base_dirs_blocked(tree: crate::tree::TreeView) -> bool {
    ||| crate::tree::is_file(tree, seq!["vaults"@])
    ||| crate::tree::is_file(tree, seq!["sessions"@])
    ||| crate::tree::is_file(tree, seq!["backups"@])
}

/// The tree after the directories for vaults, sessions and backups are
/// made in this order, as far as no file stands in the place of one.
pub open spec fn with_base_dirs(tree: crate::tree::TreeView) -> crate::tree::TreeView {
    if crate::tree::is_file(tree, seq!["vaults"@]) {
        tree
    } else if crate::tree::is_file(tree, seq!["sessions"@]) {
        tree.insert(seq!["vaults"@], crate::tree::NodeView::Dir)
    } else if crate::tree::is_file(tree, seq!["backups"@]) {
        tree.insert(seq!["vaults"@], crate::tree::NodeView::Dir).insert(
            seq!["sessions"@],
            crate::tree::NodeView::Dir,
        )
    } else {
        tree.insert(seq!["vaults"@], crate::tree::NodeView::Dir).insert(
            seq!["sessions"@],
            crate::tree::NodeView::Dir,
        ).insert(seq!["backups"@], crate::tree::NodeView::Dir)
    }
}

/// Makes the directories for vaults, sessions and backups. Fails with
/// `IoError` exactly where a file stands in the place of one of them; the
/// ones before it are then made.
pub fn ensure_config_dir(fs: &mut FileTree) -> (r: Result<(), BunkerError>)
    requires
        old(fs).wf(),
    ensures
        final(fs).wf(),
        final(fs).base() == old(fs).base(),
        final(fs)@ == with_base_dirs(old(fs)@),
        match r {
            Ok(()) => !base_dirs_blocked(old(fs)@) && has_base_dirs(final(fs)@),
            Err(e) => base_dirs_blocked(old(fs)@) && e is IoError,
        },
{
    let mut vaults: Vec<String> = Vec::new();
    vaults.push("vaults".to_string());
    let mut sessions: Vec<String> = Vec::new();
    sessions.push("sessions".to_string());
    let mut backups: Vec<String> = Vec::new();
    backups.push("backups".to_string());
    proof {
        assert(texts(vaults@) =~= seq!["vaults"@]);
        assert(texts(sessions@) =~= seq!["sessions"@]);
        assert(texts(backups@) =~= seq!["backups"@]);
        assert(seq!["vaults"@].take(1) =~= seq!["vaults"@]);
        assert(seq!["sessions"@].take(1) =~= seq!["sessions"@]);
        assert(seq!["backups"@].take(1) =~= seq!["backups"@]);
        reveal_with_fuel(with_dirs, 2);
        reveal_strlit("vaults");
        reveal_strlit("sessions");
        reveal_strlit("backups");
        assert(seq!["vaults"@] != seq!["sessions"@]) by {
            assert(seq!["vaults"@][0].len() != seq!["sessions"@][0].len());
        }
        assert(seq!["vaults"@] != seq!["backups"@]) by {
            assert(seq!["vaults"@][0].len() != seq!["backups"@][0].len());
        }
        assert(seq!["sessions"@] != seq!["backups"@]) by {
            assert(seq!["sessions"@][0].len() != seq!["backups"@][0].len());
        }
        crate::storage::lemma_layout_names();
        assert(crate::tree::plain_path(seq!["vaults"@])) by {
            assert forall|i: int| 0 <= i < seq!["vaults"@].len() implies crate::tree::plain_name(
                #[trigger] seq!["vaults"@][i],
            ) by {
                assert(seq!["vaults"@][i] == "vaults"@);
            }
        }
        assert(crate::tree::plain_path(seq!["sessions"@])) by {
            assert forall|i: int| 0 <= i < seq!["sessions"@].len() implies crate::tree::plain_name(
                #[trigger] seq!["sessions"@][i],
            ) by {
                assert(seq!["sessions"@][i] == "sessions"@);
            }
        }
        assert(crate::tree::plain_path(seq!["backups"@])) by {
            assert forall|i: int| 0 <= i < seq!["backups"@].len() implies crate::tree::plain_name(
                #[trigger] seq!["backups"@][i],
            ) by {
                assert(seq!["backups"@][i] == "backups"@);
            }
        }
    }
    match fs.create_dir_all(&vaults) {
        Err(e) => {
            return Err(e);
        },
        Ok(()) => {},
    }
    match fs.create_dir_all(&sessions) {
        Err(e) => {
            return Err(e);
        },
        Ok(()) => {},
    }
    match fs.create_dir_all(&backups) {
        Err(e) => {
            return Err(e);
        },
        Ok(()) => {},
    }
    Ok(())
}

} // verus!
