//! The store of one vault in an image of the base directory: where the
//! vault, its entries and its session lie, and the operations that make,
//! list, read, write and delete them.

use vstd::prelude::*;

use crate::error::BunkerError;
use crate::primitives::text_of;
use crate::text::{
    ascending, chars_of, has_suffix, join, join_texts, rows, sort_texts, sorted, split, split_text,
};
use crate::tree::{
    can_create_dirs, exists_at, has_children, is_below, is_dir, is_file, path_prefix, plain_name,
    plain_path, rooted, same_path, well_named, with_dirs, FileTree, Node, NodeView, Path, TreeView,
};
use crate::types::texts;

verus! {

/// The ending of the name of an entry's file.
pub open spec fn json_suffix() -> Seq<char> {
    seq!['.', 'j', 's', 'o', 'n']
}

/// The ending of the name of a session's file.
pub open spec fn session_suffix() -> Seq<char> {
    seq!['.', 's', 'e', 's', 's', 'i', 'o', 'n']
}

/// Whether a text can be the name of a vault or of a directory on the way
/// to an entry: it is a proper name, that is, it is not empty, holds no
/// `/`, and is neither `.` nor `..`.
pub open spec fn valid_name(name: Seq<char>) -> bool {
    plain_name(name)
}

/// Whether a logical key can be stored: each of its parts between the
/// slashes but the last can be the name of a directory, and the last is
/// not empty. With the ending of a file behind it the last part names a
/// file whatever it is, `.` and `..` too.
pub open spec fn valid_key(key: Seq<char>) -> bool {
    &&& forall|i: int|
        0 <= i < split(key, '/').len() - 1 ==> valid_name(#[trigger] split(key, '/')[i])
    &&& split(key, '/').last().len() > 0
}

/// The directory of the vault with this name.
pub open spec fn vault_dir(name: Seq<char>) -> Path {
    seq!["vaults"@, name]
}

/// The file that makes the directory `vault` a vault.
pub open spec fn marker_file(vault: Path) -> Path {
    vault.push(".vault"@)
}

/// The directory that holds the entries of the vault in `vault`.
pub open spec fn store_dir(vault: Path) -> Path {
    vault.push("store"@)
}

/// The names below the store on the way to the file of the entry with this
/// key: the parts of the key, the last one with the ending of a file.
pub open spec fn entry_names(key: Seq<char>) -> Path {
    let parts = split(key, '/');
    parts.drop_last().push(parts.last() + json_suffix())
}

/// The file of the entry with this key in the vault in `vault`.
pub open spec fn entry_file(vault: Path, key: Seq<char>) -> Path {
    store_dir(vault) + entry_names(key)
}

/// The file of the session of the vault with this name.
pub open spec fn session_file(name: Seq<char>) -> Path {
    seq!["sessions"@, name + session_suffix()]
}

/// Whether a file with this name holds an entry: the name ends in `.json`
/// and has something before that.
pub open spec fn is_entry_name(name: Seq<char>) -> bool {
    name.len() > json_suffix().len() && name.skip(name.len() - json_suffix().len())
        == json_suffix()
}

/// The logical key of the file at `path`, where it lies below `store` and
/// holds an entry: the names below the store, the last one without its
/// ending, with `/` between them.
pub open spec fn key_of(store: Path, path: Path) -> Option<Seq<char>> {
    if is_below(path, store) && is_entry_name(path.last()) {
        let names = path.skip(store.len() as int);
        Some(
            join(
                names.drop_last().push(
                    names.last().take(names.last().len() - json_suffix().len()),
                ),
                '/',
            ),
        )
    } else {
        None
    }
}

/// The vault's name where one is given, else the default that is
/// configured, else `default`.
pub open spec fn chosen_name(given: Option<String>, configured: Option<String>) -> Seq<char> {
    match given {
        Some(name) => name@,
        None => match configured {
            Some(name) => name@,
            None => "default"@,
        },
    }
}

/// The tree after the directories from `dir` upwards that have nothing in
/// them are removed, as far as `keep` names deep. Where no directory
/// stands at a place on the way, nothing above it is touched; in a rooted
/// tree one stands at each.
pub open spec fn pruned(tree: TreeView, dir: Path, keep: nat) -> TreeView
    decreases dir.len(),
{
    if dir.len() <= keep || !is_dir(tree, dir) {
        tree
    } else if has_children(tree, dir) {
        pruned(tree, dir.drop_last(), keep)
    } else {
        pruned(tree.remove(dir), dir.drop_last(), keep)
    }
}

/// The texts that `pick` gives for the nodes in the first `n` places of a
/// tree, in the order of the places.
pub open spec fn picked(
    fs: &FileTree,
    pick: spec_fn(Path, NodeView) -> Option<Seq<char>>,
    n: int,
) -> Seq<Seq<char>>
    decreases n,
{
    if n <= 0 {
        Seq::empty()
    } else {
        let path = fs.spec_path_at(n - 1);
        match pick(path, fs@[path]) {
            Some(text) => picked(fs, pick, n - 1).push(text),
            None => picked(fs, pick, n - 1),
        }
    }
}

/// The key of a node, where it is a file that holds an entry below `store`.
pub open spec fn pick_entry(store: Path) -> spec_fn(Path, NodeView) -> Option<Seq<char>> {
    |path: Path, node: NodeView|
        if node is File {
            key_of(store, path)
        } else {
            None
        }
}

/// The name of a node, where it is the directory of a vault in `tree`.
pub open spec fn pick_vault(tree: TreeView) -> spec_fn(Path, NodeView) -> Option<Seq<char>> {
    |path: Path, node: NodeView|
        if node is Dir && path.len() == 2 && path[0] == "vaults"@ && exists_at(
            tree,
            marker_file(path),
        ) {
            Some(path[1])
        } else {
            None
        }
}

/// A text is picked exactly where `pick` gives it for a node in one of the
/// places.
pub proof fn lemma_picked(
    fs: &FileTree,
    pick: spec_fn(Path, NodeView) -> Option<Seq<char>>,
    n: int,
    text: Seq<char>,
)
    ensures
        picked(fs, pick, n).contains(text) <==> exists|i: int|
            0 <= i < n && pick(#[trigger] fs.spec_path_at(i), fs@[fs.spec_path_at(i)]) == Some(
                text,
            ),
    decreases n,
{
    if n > 0 {
        lemma_picked(fs, pick, n - 1, text);
        let path = fs.spec_path_at(n - 1);
        let prev = picked(fs, pick, n - 1);
        match pick(path, fs@[path]) {
            Some(t) => {
                if t == text {
                    assert(prev.push(t)[prev.len() as int] == text);
                }
                if prev.contains(text) {
                    let k = choose|k: int| 0 <= k < prev.len() && prev[k] == text;
                    assert(prev.push(t)[k] == text);
                }
                if prev.push(t).contains(text) {
                    let k = choose|k: int| 0 <= k < prev.push(t).len() && prev.push(t)[k] == text;
                    if k < prev.len() {
                        assert(prev[k] == text);
                    }
                }
            },
            None => {},
        }
    }
}

/// Whether `pick` gives no text for two nodes of a tree.
pub open spec fn picks_once(tree: TreeView, pick: spec_fn(Path, NodeView) -> Option<Seq<char>>) -> bool {
    forall|p: Path, q: Path|
        #![trigger tree.dom().contains(p), tree.dom().contains(q)]
        tree.dom().contains(p) && tree.dom().contains(q) && pick(p, tree[p]) is Some && pick(
            p,
            tree[p],
        ) == pick(q, tree[q]) ==> p == q
}

/// Whether a list holds exactly the texts that `pick` gives for the nodes
/// of a tree, each once, in the strict order of the dictionary.
pub open spec fn lists_picked(
    list: Seq<Seq<char>>,
    tree: TreeView,
    pick: spec_fn(Path, NodeView) -> Option<Seq<char>>,
) -> bool {
    &&& ascending(list)
    &&& forall|text: Seq<char>|
        list.contains(text) <==> exists|path: Path|
            #[trigger] tree.dom().contains(path) && pick(path, tree[path]) == Some(text)
}

/// Two lists of what `pick` gives for the nodes of a tree are the same
/// list: a listing depends on the tree alone, not on the order of its
/// places.
pub proof fn lemma_one_listing(
    a: Seq<Seq<char>>,
    b: Seq<Seq<char>>,
    tree: TreeView,
    pick: spec_fn(Path, NodeView) -> Option<Seq<char>>,
)
    requires
        lists_picked(a, tree, pick),
        lists_picked(b, tree, pick),
    ensures
        a == b,
{
    crate::text::lemma_ascending_one(a, b);
}

/// Where `pick` gives no text for two nodes, the texts picked from the
/// places of a tree hold none twice.
pub proof fn lemma_picked_once(
    fs: &FileTree,
    pick: spec_fn(Path, NodeView) -> Option<Seq<char>>,
    n: int,
)
    requires
        fs.wf(),
        picks_once(fs@, pick),
        0 <= n <= fs.spec_len(),
    ensures
        picked(fs, pick, n).no_duplicates(),
    decreases n,
{
    if n > 0 {
        lemma_picked_once(fs, pick, n - 1);
        fs.lemma_wf();
        let path = fs.spec_path_at(n - 1);
        let prev = picked(fs, pick, n - 1);
        match pick(path, fs@[path]) {
            Some(text) => {
                lemma_picked(fs, pick, n - 1, text);
                if prev.contains(text) {
                    let i = choose|i: int|
                        0 <= i < n - 1 && pick(
                            #[trigger] fs.spec_path_at(i),
                            fs@[fs.spec_path_at(i)],
                        ) == Some(text);
                    assert(fs@.dom().contains(fs.spec_path_at(i)));
                    assert(fs@.dom().contains(path));
                    assert(fs.spec_path_at(i) == path);
                }
                let all = prev.push(text);
                assert forall|i: int, j: int|
                    0 <= i < all.len() && 0 <= j < all.len() && i != j implies all[i] != all[j] by {
                    if i < prev.len() && j < prev.len() {
                        assert(all[i] == prev[i] && all[j] == prev[j]);
                    } else if i < prev.len() {
                        assert(all[i] == prev[i]);
                        assert(prev.contains(prev[i]));
                    } else {
                        assert(all[j] == prev[j]);
                        assert(prev.contains(prev[j]));
                    }
                }
            },
            None => {},
        }
    }
}

/// A sorted list that holds no text twice is in strict order.
pub proof fn lemma_sorted_distinct(list: Seq<Seq<char>>)
    requires
        sorted(list),
        list.no_duplicates(),
    ensures
        ascending(list),
{
}

/// The names that the layout of the base directory uses are proper
/// names, and the endings of its files hold no `/`.
pub proof fn lemma_layout_names()
    ensures
        plain_name("vaults"@),
        plain_name("store"@),
        plain_name(".vault"@),
        plain_name("sessions"@),
        plain_name("backups"@),
        !json_suffix().contains('/'),
        json_suffix().len() == 5,
        !session_suffix().contains('/'),
        session_suffix().len() == 8,
{
    assert(plain_name("vaults"@)) by {
        reveal_strlit("vaults");
        assert("vaults"@.len() == 6);
        if "vaults"@.contains('/') {
            let i = choose|i: int| 0 <= i < "vaults"@.len() && "vaults"@[i] == '/';
            assert("vaults"@[i] != '/');
        }
        lemma_long_name("vaults"@);
    }
    assert(plain_name("store"@)) by {
        reveal_strlit("store");
        assert("store"@.len() == 5);
        if "store"@.contains('/') {
            let i = choose|i: int| 0 <= i < "store"@.len() && "store"@[i] == '/';
            assert("store"@[i] != '/');
        }
        lemma_long_name("store"@);
    }
    assert(plain_name(".vault"@)) by {
        reveal_strlit(".vault");
        assert(".vault"@.len() == 6);
        if ".vault"@.contains('/') {
            let i = choose|i: int| 0 <= i < ".vault"@.len() && ".vault"@[i] == '/';
            assert(".vault"@[i] != '/');
        }
        lemma_long_name(".vault"@);
    }
    assert(plain_name("sessions"@)) by {
        reveal_strlit("sessions");
        assert("sessions"@.len() == 8);
        if "sessions"@.contains('/') {
            let i = choose|i: int| 0 <= i < "sessions"@.len() && "sessions"@[i] == '/';
            assert("sessions"@[i] != '/');
        }
        lemma_long_name("sessions"@);
    }
    assert(plain_name("backups"@)) by {
        reveal_strlit("backups");
        assert("backups"@.len() == 7);
        if "backups"@.contains('/') {
            let i = choose|i: int| 0 <= i < "backups"@.len() && "backups"@[i] == '/';
            assert("backups"@[i] != '/');
        }
        lemma_long_name("backups"@);
    }
    assert(!json_suffix().contains('/')) by {
        if json_suffix().contains('/') {
            let i = choose|i: int| 0 <= i < json_suffix().len() && json_suffix()[i] == '/';
            assert(json_suffix()[i] != '/');
        }
    }
    assert(!session_suffix().contains('/')) by {
        if session_suffix().contains('/') {
            let i = choose|i: int| 0 <= i < session_suffix().len() && session_suffix()[i] == '/';
            assert(session_suffix()[i] != '/');
        }
    }
}

/// A text of three characters or more without `/` is a proper name.
pub proof fn lemma_long_name(name: Seq<char>)
    requires
        name.len() >= 3,
        !name.contains('/'),
    ensures
        plain_name(name),
{
    assert(seq!['.'].len() == 1);
    assert(seq!['.', '.'].len() == 2);
}

/// A text without `/` with an ending of three characters or more behind
/// it, which holds no `/` either, is a proper name.
pub proof fn lemma_plain_concat(a: Seq<char>, b: Seq<char>)
    requires
        !a.contains('/'),
        !b.contains('/'),
        b.len() >= 3,
    ensures
        plain_name(a + b),
{
    assert((a + b).len() >= 3);
    if (a + b).contains('/') {
        let i = choose|i: int| 0 <= i < (a + b).len() && (a + b)[i] == '/';
        if i < a.len() {
            assert(a[i] == '/');
        } else {
            assert(b[i - a.len()] == '/');
        }
    }
}

/// The path of the file of an entry whose key can be stored is made of
/// proper names, where the path of the directory for the entries is.
pub proof fn lemma_entry_file_plain(vault: Path, key: Seq<char>)
    requires
        plain_path(store_dir(vault)),
        valid_key(key),
    ensures
        plain_path(entry_file(vault, key)),
{
    let parts = split(key, '/');
    crate::text::lemma_split_nonempty(key, '/');
    lemma_layout_names();
    let file = entry_file(vault, key);
    let store = store_dir(vault);
    assert forall|i: int| 0 <= i < file.len() implies plain_name(#[trigger] file[i]) by {
        if i < store.len() {
            assert(file[i] == store[i]);
        } else if i < file.len() - 1 {
            assert(file[i] == parts[i - store.len()]);
            assert(valid_name(parts[i - store.len()]));
        } else {
            assert(file[i] == parts.last() + json_suffix());
            crate::text::lemma_split_parts(key, '/');
            assert(!parts[parts.len() - 1].contains('/'));
            lemma_plain_concat(parts.last(), json_suffix());
        }
    }
}

/// Different files below the directory for the entries stand for
/// different keys, where their paths are made of proper names.
pub proof fn lemma_key_of_once(store: Path, a: Path, b: Path)
    requires
        plain_path(a),
        plain_path(b),
        key_of(store, a) is Some,
        key_of(store, a) == key_of(store, b),
    ensures
        a == b,
{
    let suffix = json_suffix().len();
    let na = a.skip(store.len() as int);
    let nb = b.skip(store.len() as int);
    let sa = na.last().take(na.last().len() - suffix);
    let sb = nb.last().take(nb.last().len() - suffix);
    let pa = na.drop_last().push(sa);
    let pb = nb.drop_last().push(sb);
    assert(na.last() == a.last() && nb.last() == b.last());
    assert forall|i: int| 0 <= i < pa.len() implies !(#[trigger] pa[i]).contains('/') by {
        if i < pa.len() - 1 {
            assert(pa[i] == a[store.len() + i]);
        } else {
            if sa.contains('/') {
                let k = choose|k: int| 0 <= k < sa.len() && sa[k] == '/';
                assert(a.last()[k] == '/');
                assert(a[a.len() - 1].contains('/'));
            }
        }
    }
    assert forall|i: int| 0 <= i < pb.len() implies !(#[trigger] pb[i]).contains('/') by {
        if i < pb.len() - 1 {
            assert(pb[i] == b[store.len() + i]);
        } else {
            if sb.contains('/') {
                let k = choose|k: int| 0 <= k < sb.len() && sb[k] == '/';
                assert(b.last()[k] == '/');
                assert(b[b.len() - 1].contains('/'));
            }
        }
    }
    crate::text::lemma_split_join(pa, '/');
    crate::text::lemma_split_join(pb, '/');
    assert(pa == pb);
    assert(sa == pa.last() && sb == pb.last());
    assert(a.last() =~= sa + json_suffix()) by {
        assert(a.last().skip(a.last().len() - suffix) == json_suffix());
    }
    assert(b.last() =~= sb + json_suffix()) by {
        assert(b.last().skip(b.last().len() - suffix) == json_suffix());
    }
    assert(a =~= b) by {
        assert(a.len() == b.len());
        assert forall|i: int| 0 <= i < a.len() implies a[i] == b[i] by {
            if i < store.len() {
                assert(a.take(store.len() as int)[i] == b.take(store.len() as int)[i]);
            } else if i < a.len() - 1 {
                assert(pa[i - store.len()] == a[i]);
                assert(pb[i - store.len()] == b[i]);
            }
        }
    }
}

/// The key of a file below the directory for the entries does not end in
/// a slash, where the path of the file is made of proper names.
pub proof fn lemma_key_of_ends(store: Path, path: Path)
    requires
        plain_path(path),
        key_of(store, path) is Some,
    ensures
        split(key_of(store, path)->0, '/').last().len() > 0,
{
    let suffix = json_suffix().len();
    let names = path.skip(store.len() as int);
    let stem = names.last().take(names.last().len() - suffix);
    let parts = names.drop_last().push(stem);
    assert(names.last() == path.last());
    assert forall|i: int| 0 <= i < parts.len() implies !(#[trigger] parts[i]).contains('/') by {
        if i < parts.len() - 1 {
            assert(parts[i] == path[store.len() + i]);
        } else {
            if stem.contains('/') {
                let k = choose|k: int| 0 <= k < stem.len() && stem[k] == '/';
                assert(path.last()[k] == '/');
                assert(path[path.len() - 1].contains('/'));
            }
        }
    }
    crate::text::lemma_split_join(parts, '/');
    assert(parts.last() == stem);
}

/// No two files of a tree stand for the same key.
pub proof fn lemma_entries_once(tree: TreeView, store: Path)
    requires
        well_named(tree),
    ensures
        picks_once(tree, pick_entry(store)),
{
    let pick = pick_entry(store);
    assert forall|p: Path, q: Path|
        #![trigger tree.dom().contains(p), tree.dom().contains(q)]
        tree.dom().contains(p) && tree.dom().contains(q) && pick(p, tree[p]) is Some && pick(
            p,
            tree[p],
        ) == pick(q, tree[q]) implies p == q by {
        lemma_key_of_once(store, p, q);
    }
}

/// No two directories of a tree stand for the same vault.
pub proof fn lemma_vaults_once(tree: TreeView)
    ensures
        picks_once(tree, pick_vault(tree)),
{
    let pick = pick_vault(tree);
    assert forall|p: Path, q: Path|
        #![trigger tree.dom().contains(p), tree.dom().contains(q)]
        tree.dom().contains(p) && tree.dom().contains(q) && pick(p, tree[p]) is Some && pick(
            p,
            tree[p],
        ) == pick(q, tree[q]) implies p == q by {
        assert(p =~= q);
    }
}

/// Whether a text can be the name of a vault or of a directory on the way
/// to an entry.
pub fn is_valid_name(name: &str) -> (r: bool)
    ensures
        r == valid_name(name@),
{
    crate::tree::is_plain_name(name)
}

/// A path with one more name at its end.
pub fn child_path(dir: &Vec<String>, name: String) -> (r: Vec<String>)
    ensures
        texts(r@) == texts(dir@).push(name@),
{
    let mut out = path_prefix(dir, dir.len());
    assert(texts(dir@).take(dir@.len() as int) =~= texts(dir@));
    let ghost before = out@;
    out.push(name);
    assert(texts(out@) =~= texts(before).push(name@));
    out
}

/// A text with another one behind it.
pub fn with_ending(text: &str, ending: &Vec<char>) -> (r: String)
    ensures
        r@ == text@ + ending@,
{
    let mut chars = chars_of(text);
    let mut i: usize = 0;
    while i < ending.len()
        invariant
            i <= ending.len(),
            chars@ == text@ + ending@.take(i as int),
        decreases ending.len() - i,
    {
        chars.push(ending[i]);
        assert(ending@.take(i + 1) =~= ending@.take(i as int).push(ending@[i as int]));
        i += 1;
    }
    assert(ending@.take(ending.len() as int) =~= ending@);
    text_of(&chars)
}

/// The characters `.json`.
pub fn json_ending() -> (r: Vec<char>)
    ensures
        r@ == json_suffix(),
{
    let mut out: Vec<char> = Vec::new();
    out.push('.');
    out.push('j');
    out.push('s');
    out.push('o');
    out.push('n');
    assert(out@ =~= json_suffix());
    out
}

/// The characters `.session`.
pub fn session_ending() -> (r: Vec<char>)
    ensures
        r@ == session_suffix(),
{
    let mut out: Vec<char> = Vec::new();
    out.push('.');
    out.push('s');
    out.push('e');
    out.push('s');
    out.push('s');
    out.push('i');
    out.push('o');
    out.push('n');
    assert(out@ =~= session_suffix());
    out
}

/// The texts in the order of the dictionary, as strings.
fn sorted_strings(fs: &FileTree, found: Vec<Vec<char>>, Ghost(pick): Ghost<
    spec_fn(Path, NodeView) -> Option<Seq<char>>,
>) -> (r: Vec<String>)
    requires
        fs.wf(),
        picks_once(fs@, pick),
        rows(found@) == picked(fs, pick, fs.spec_len() as int),
    ensures
        lists_picked(texts(r@), fs@, pick),
{
    // The places of the tree are known from here on.
    let _ = fs.len();
    let ordered = sort_texts(found);
    let mut out: Vec<String> = Vec::new();
    let mut i: usize = 0;
    while i < ordered.len()
        invariant
            i <= ordered.len(),
            out@.len() == i,
            forall|k: int| 0 <= k < i ==> out@[k]@ == ordered@[k]@,
        decreases ordered.len() - i,
    {
        out.push(text_of(&ordered[i]));
        i += 1;
    }
    proof {
        let list = texts(out@);
        assert(list =~= rows(ordered@));
        let all = picked(fs, pick, fs.spec_len() as int);
        lemma_picked_once(fs, pick, fs.spec_len() as int);
        all.lemma_multiset_has_no_duplicates();
        list.lemma_multiset_has_no_duplicates_conv();
        lemma_sorted_distinct(list);
        assert forall|text: Seq<char>|
            list.contains(text) <==> exists|path: Path|
                #[trigger] fs@.dom().contains(path) && pick(path, fs@[path]) == Some(text) by {
            broadcast use vstd::seq_lib::group_to_multiset_ensures;

            let all = picked(fs, pick, fs.spec_len() as int);
            assert(list.contains(text) <==> all.contains(text)) by {
                assert(list.to_multiset().count(text) == all.to_multiset().count(text));
            }
            lemma_picked(fs, pick, fs.spec_len() as int, text);
            if all.contains(text) {
                let i = choose|i: int|
                    0 <= i < fs.spec_len() && pick(
                        #[trigger] fs.spec_path_at(i),
                        fs@[fs.spec_path_at(i)],
                    ) == Some(text);
                assert(fs@.dom().contains(fs.spec_path_at(i)));
            }
            if exists|path: Path|
                #[trigger] fs@.dom().contains(path) && pick(path, fs@[path]) == Some(text) {
                let path = choose|path: Path|
                    #[trigger] fs@.dom().contains(path) && pick(path, fs@[path]) == Some(text);
                let i = choose|i: int| 0 <= i < fs.spec_len() && #[trigger] fs.spec_path_at(i) == path;
                assert(pick(fs.spec_path_at(i), fs@[fs.spec_path_at(i)]) == Some(text));
            }
        }
    }
    out
}

/// The store of one vault: where it lies below the base directory, and the
/// operations on what it holds.
pub struct Storage {
    pub(crate) vault_path: Vec<String>,
    pub(crate) vault_name: String,
}

impl Storage {
    /// The name of the vault.
    pub closed spec fn name(&self) -> Seq<char> {
        self.vault_name@
    }

    /// The directory of the vault.
    pub closed spec fn dir(&self) -> Path {
        texts(self.vault_path@)
    }

    /// Whether the store is well formed: the name can be the name of a
    /// directory, and the directory is the one of a vault with that name.
    pub open spec fn wf(&self) -> bool {
        valid_name(self.name()) && self.dir() == vault_dir(self.name())
    }

    /// The store of the vault with the given name or, where none is given,
    /// with the configured default or, where there is none either, of the
    /// vault `default`. Fails with `ConfigError` where the name cannot be
    /// the name of a directory.
    pub fn new(vault_name: Option<String>, default_vault: Option<String>) -> (r: Result<
        Self,
        BunkerError,
    >)
        ensures
            match r {
                Ok(storage) => storage.wf() && storage.name() == chosen_name(
                    vault_name,
                    default_vault,
                ),
                Err(e) => !valid_name(chosen_name(vault_name, default_vault)) && e is ConfigError,
            },
    {
        let vault_name = match vault_name {
            Some(name) => name,
            None => match default_vault {
                Some(name) => name,
                None => "default".to_string(),
            },
        };
        match Self::vault_path(vault_name.as_str()) {
            Ok(vault_path) => Ok(Storage { vault_path, vault_name }),
            Err(e) => Err(e),
        }
    }

    /// The directory of the vault with this name. Fails with `ConfigError`
    /// where the name cannot be the name of a directory.
    pub fn vault_path(vault_name: &str) -> (r: Result<Vec<String>, BunkerError>)
        ensures
            match r {
                Ok(path) => valid_name(vault_name@) && texts(path@) == vault_dir(vault_name@),
                Err(e) => !valid_name(vault_name@) && e is ConfigError,
            },
    {
        if !is_valid_name(vault_name) {
            return Err(BunkerError::ConfigError("invalid vault name".to_string()));
        }
        let mut path: Vec<String> = Vec::new();
        path.push("vaults".to_string());
        path.push(vault_name.to_string());
        assert(texts(path@) =~= vault_dir(vault_name@));
        Ok(path)
    }

    /// The directory of this vault.
    pub fn get_vault_path(&self) -> (r: &Vec<String>)
        ensures
            texts(r@) == self.dir(),
    {
        &self.vault_path
    }

    /// The name of this vault.
    pub fn get_vault_name(&self) -> (r: &str)
        ensures
            r@ == self.name(),
    {
        self.vault_name.as_str()
    }

    /// The file that makes the directory a vault.
    pub fn marker_path(&self) -> (r: Vec<String>)
        ensures
            texts(r@) == marker_file(self.dir()),
    {
        child_path(&self.vault_path, ".vault".to_string())
    }

    /// The directory that holds the entries.
    pub fn store_path(&self) -> (r: Vec<String>)
        ensures
            texts(r@) == store_dir(self.dir()),
    {
        child_path(&self.vault_path, "store".to_string())
    }

    /// The file of the entry with this key.
    pub fn entry_path(&self, key: &str) -> (r: Vec<String>)
        ensures
            texts(r@) == entry_file(self.dir(), key@),
            r@.len() == self.dir().len() + 1 + split(key@, '/').len(),
    {
        let mut parts = split_text(key, '/');
        let ghost names = texts(parts@);
        let last = parts.pop().unwrap();
        assert(texts(parts@) =~= names.drop_last());
        let file = with_ending(last.as_str(), &json_ending());
        let mut path = self.store_path();
        let ghost store = texts(path@);
        let mut i: usize = 0;
        while i < parts.len()
            invariant
                i <= parts.len(),
                texts(path@) == store + texts(parts@).take(i as int),
            decreases parts.len() - i,
        {
            let ghost before = path@;
            path.push(parts[i].clone());
            assert(texts(path@) =~= texts(before).push(parts@[i as int]@));
            assert(texts(parts@).take(i + 1) =~= texts(parts@).take(i as int).push(
                parts@[i as int]@,
            ));
            i += 1;
        }
        let ghost before = path@;
        path.push(file);
        assert(texts(path@) =~= texts(before).push(file@));
        assert(texts(parts@).take(parts.len() as int) =~= texts(parts@));
        assert(texts(path@) =~= entry_file(self.dir(), key@));
        path
    }

    /// The file of this vault's session.
    pub fn session_path(&self) -> (r: Vec<String>)
        ensures
            texts(r@) == session_file(self.name()),
    {
        let mut path: Vec<String> = Vec::new();
        path.push("sessions".to_string());
        path.push(with_ending(self.vault_name.as_str(), &session_ending()));
        assert(texts(path@) =~= session_file(self.name()));
        path
    }

    /// Whether the vault exists: its directory stands and holds the file
    /// that makes it a vault.
    pub fn vault_exists(&self, fs: &FileTree) -> (r: bool)
        requires
            fs.wf(),
        ensures
            r == (is_dir(fs@, self.dir()) && exists_at(fs@, marker_file(self.dir()))),
    {
        fs.is_dir(&self.vault_path) && fs.contains(&self.marker_path())
    }

    /// Whether something stands where the entry with this key is kept.
    pub fn entry_exists(&self, fs: &FileTree, key: &str) -> (r: Result<bool, BunkerError>)
        requires
            fs.wf(),
        ensures
            r == Ok::<bool, BunkerError>(exists_at(fs@, entry_file(self.dir(), key@))),
    {
        Ok(fs.contains(&self.entry_path(key)))
    }
    /// Makes a vault: its directory with the directory for the entries in
    /// it, and the file that makes it a vault, which holds `document`.
    /// Fails with `VaultExists`, and changes nothing, where that file
    /// stands already; fails with `IoError`, and changes nothing, where a
    /// file stands where a directory has to be made.
    pub fn init_vault(&self, fs: &mut FileTree, document: Vec<u8>) -> (r: Result<(), BunkerError>)
        requires
            old(fs).wf(),
        ensures
            final(fs).wf(),
            final(fs).base() == old(fs).base(),
            match r {
                Ok(()) => {
                    &&& !exists_at(old(fs)@, marker_file(self.dir()))
                    &&& can_create_dirs(old(fs)@, store_dir(self.dir()))
                    &&& final(fs)@ == with_dirs(
                        old(fs)@,
                        store_dir(self.dir()),
                        store_dir(self.dir()).len() as int,
                    ).insert(marker_file(self.dir()), NodeView::File(document@))
                },
                Err(e) => {
                    &&& final(fs)@ == old(fs)@
                    &&& if exists_at(old(fs)@, marker_file(self.dir())) {
                        e matches BunkerError::VaultExists(name) && name@ == self.name()
                    } else {
                        e is IoError && !can_create_dirs(old(fs)@, store_dir(self.dir()))
                    }
                },
            },
    {
        let marker = self.marker_path();
        if fs.contains(&marker) {
            return Err(BunkerError::VaultExists(self.vault_name.clone()));
        }
        let store = self.store_path();
        match fs.create_dir_all(&store) {
            Ok(()) => {},
            Err(e) => {
                return Err(e);
            },
        }
        proof {
            reveal_strlit("store");
            reveal_strlit(".vault");
            let dir = self.dir();
            let n = store_dir(dir).len() as int;
            assert(store_dir(dir).take(n - 1) =~= dir);
            assert(marker_file(dir).drop_last() =~= dir);
            assert(is_dir(fs@, dir)) by {
                if dir.len() > 0 {
                    lemma_with_dirs_adds(old(fs)@, store_dir(dir), n, n - 1);
                }
            }
            assert(marker_file(dir) != store_dir(dir)) by {
                assert(marker_file(dir).last().len() != store_dir(dir).last().len());
            }
            assert forall|k: int| 1 <= k <= n implies marker_file(dir) != #[trigger] store_dir(
                dir,
            ).take(k) by {
                if k < n {
                    assert(store_dir(dir).take(k).len() != marker_file(dir).len());
                } else {
                    assert(store_dir(dir).take(k) =~= store_dir(dir));
                }
            }
            lemma_with_dirs_keeps(old(fs)@, store_dir(dir), n, marker_file(dir));
            lemma_layout_names();
            assert(plain_path(store_dir(dir)));
            assert(plain_path(marker_file(dir))) by {
                assert forall|i: int| 0 <= i < marker_file(dir).len() implies plain_name(
                    #[trigger] marker_file(dir)[i],
                ) by {
                    if i < n - 1 {
                        assert(marker_file(dir)[i] == store_dir(dir)[i]);
                    } else {
                        assert(marker_file(dir)[i] == ".vault"@);
                    }
                }
            }
            assert(!is_dir(fs@, marker_file(dir)));
            assert(crate::tree::can_write(fs@, marker_file(dir)));
        }
        match fs.write(&marker, document) {
            Ok(()) => Ok(()),
            Err(e) => Err(e),
        }
    }

    /// The document in the file that makes the directory a vault. Fails
    /// with `VaultNotFound` where no such file stands.
    pub fn load_config(&self, fs: &FileTree) -> (r: Result<Vec<u8>, BunkerError>)
        requires
            fs.wf(),
        ensures
            match r {
                Ok(document) => is_file(fs@, marker_file(self.dir())) && fs@[marker_file(
                    self.dir(),
                )] == NodeView::File(document@),
                Err(e) => !is_file(fs@, marker_file(self.dir())) && (e matches BunkerError::VaultNotFound(
                    name,
                ) && name@ == self.name()),
            },
    {
        match fs.read(&self.marker_path()) {
            Some(document) => Ok(document),
            None => Err(BunkerError::VaultNotFound(self.vault_name.clone())),
        }
    }

    /// Puts `document` into the file that makes the directory a vault.
    /// Fails with `IoError`, and changes nothing, where the directory of
    /// the vault does not stand or a directory stands in the file's place.
    pub fn save_config(&self, fs: &mut FileTree, document: Vec<u8>) -> (r: Result<(), BunkerError>)
        requires
            old(fs).wf(),
        ensures
            final(fs).wf(),
            final(fs).base() == old(fs).base(),
            match r {
                Ok(()) => crate::tree::can_write(old(fs)@, marker_file(self.dir())) && final(fs)@
                    == old(fs)@.insert(marker_file(self.dir()), NodeView::File(document@)),
                Err(e) => !crate::tree::can_write(old(fs)@, marker_file(self.dir())) && final(fs)@
                    == old(fs)@ && e is IoError,
            },
    {
        fs.write(&self.marker_path(), document)
    }

    /// Whether a logical key can be stored.
    pub fn is_valid_key(key: &str) -> (r: bool)
        ensures
            r == valid_key(key@),
    {
        let parts = split_text(key, '/');
        proof {
            crate::text::lemma_split_nonempty(key@, '/');
        }
        let last: usize = parts.len() - 1;
        let mut i: usize = 0;
        while i < last
            invariant
                i <= last,
                last == parts.len() - 1,
                texts(parts@) == split(key@, '/'),
                forall|k: int| 0 <= k < i ==> valid_name(#[trigger] split(key@, '/')[k]),
            decreases last - i,
        {
            if !is_valid_name(parts[i].as_str()) {
                assert(texts(parts@)[i as int] == parts@[i as int]@);
                return false;
            }
            assert(texts(parts@)[i as int] == parts@[i as int]@);
            i += 1;
        }
        assert(texts(parts@)[last as int] == parts@[last as int]@);
        assert(texts(parts@).last() == parts@[last as int]@);
        parts[last].as_str().unicode_len() > 0
    }

    /// Puts `document` into the file of the entry with this key, and makes
    /// the directories on the way to it. Fails with `IoError`, and changes
    /// nothing, where the key cannot be stored, a directory stands in the
    /// file's place, or a file stands where a directory has to be made.
    pub fn store_entry(&self, fs: &mut FileTree, key: &str, document: Vec<u8>) -> (r: Result<
        (),
        BunkerError,
    >)
        requires
            old(fs).wf(),
        ensures
            final(fs).wf(),
            final(fs).base() == old(fs).base(),
            match r {
                Ok(()) => {
                    &&& self.can_store(old(fs)@, key@)
                    &&& final(fs)@ == self.stored(old(fs)@, key@, document@)
                },
                Err(e) => !self.can_store(old(fs)@, key@) && final(fs)@ == old(fs)@ && e is IoError,
            },
    {
        if !Self::is_valid_key(key) {
            return Err(BunkerError::IoError("invalid key".to_string()));
        }
        let path = self.entry_path(key);
        if fs.is_dir(&path) {
            return Err(BunkerError::IoError("is a directory".to_string()));
        }
        let parent = path_prefix(&path, path.len() - 1);
        proof {
            assert(texts(path@).take(path@.len() - 1) =~= texts(path@).drop_last());
        }
        match fs.create_dir_all(&parent) {
            Ok(()) => {},
            Err(e) => {
                return Err(e);
            },
        }
        proof {
            let file = texts(path@);
            let dir = file.drop_last();
            let n = dir.len() as int;
            if n > 0 {
                lemma_with_dirs_adds(old(fs)@, dir, n, n);
                assert(dir.take(n) =~= dir);
            }
            assert(plain_path(store_dir(self.dir()))) by {
                crate::text::lemma_split_nonempty(key@, '/');
                assert forall|i: int| 0 <= i < store_dir(self.dir()).len() implies plain_name(
                    #[trigger] store_dir(self.dir())[i],
                ) by {
                    assert(store_dir(self.dir())[i] == dir[i]);
                }
            }
            lemma_entry_file_plain(self.dir(), key@);
            lemma_with_dirs_keeps(old(fs)@, dir, n, file);
            assert forall|k: int| 1 <= k <= n implies file != #[trigger] dir.take(k) by {
                assert(dir.take(k).len() != file.len());
            }
        }
        match fs.write(&path, document) {
            Ok(()) => Ok(()),
            Err(e) => Err(e),
        }
    }

    /// Whether the entry with this key can be stored in `tree`.
    pub open spec fn can_store(&self, tree: TreeView, key: Seq<char>) -> bool {
        &&& valid_key(key)
        &&& !is_dir(tree, entry_file(self.dir(), key))
        &&& can_create_dirs(tree, entry_file(self.dir(), key).drop_last())
    }

    /// The tree after `document` is stored under this key.
    pub open spec fn stored(&self, tree: TreeView, key: Seq<char>, document: Seq<u8>) -> TreeView {
        let file = entry_file(self.dir(), key);
        with_dirs(tree, file.drop_last(), file.len() - 1).insert(file, NodeView::File(document))
    }

    /// The document in the file of the entry with this key. Fails with
    /// `EntryNotFound` where nothing stands there, and with `IoError` where
    /// a directory does.
    pub fn load_entry(&self, fs: &FileTree, key: &str) -> (r: Result<Vec<u8>, BunkerError>)
        requires
            fs.wf(),
        ensures
            match r {
                Ok(document) => is_file(fs@, entry_file(self.dir(), key@)) && fs@[entry_file(
                    self.dir(),
                    key@,
                )] == NodeView::File(document@),
                Err(e) => !is_file(fs@, entry_file(self.dir(), key@)) && if exists_at(
                    fs@,
                    entry_file(self.dir(), key@),
                ) {
                    e is IoError
                } else {
                    e matches BunkerError::EntryNotFound(k) && k@ == key@
                },
            },
    {
        let path = self.entry_path(key);
        if !fs.contains(&path) {
            return Err(BunkerError::EntryNotFound(key.to_string()));
        }
        match fs.read(&path) {
            Some(document) => Ok(document),
            None => Err(BunkerError::IoError("is a directory".to_string())),
        }
    }

    /// Removes the file of the entry with this key, and then each
    /// directory on the way up from it that has nothing in it any more, as
    /// far as the directory that holds the entries, which stays. It goes
    /// through wherever the file stands. Fails with `EntryNotFound`, and
    /// changes nothing, where nothing stands in the file's place; and with
    /// `IoError`, and changes nothing, where a directory stands there.
    pub fn delete_entry(&self, fs: &mut FileTree, key: &str) -> (r: Result<(), BunkerError>)
        requires
            self.wf(),
            old(fs).wf(),
        ensures
            final(fs).wf(),
            final(fs).base() == old(fs).base(),
            match r {
                Ok(()) => is_file(old(fs)@, entry_file(self.dir(), key@)) && final(fs)@
                    == self.deleted(old(fs)@, key@),
                Err(e) => !is_file(old(fs)@, entry_file(self.dir(), key@)) && final(fs)@ == old(
                    fs,
                )@ && if !exists_at(old(fs)@, entry_file(self.dir(), key@)) {
                    e matches BunkerError::EntryNotFound(k) && k@ == key@
                } else {
                    e is IoError
                },
            },
    {
        let path = self.entry_path(key);
        if !fs.contains(&path) {
            return Err(BunkerError::EntryNotFound(key.to_string()));
        }
        match fs.remove_file(&path) {
            Ok(()) => {},
            Err(e) => {
                return Err(e);
            },
        }
        let keep: usize = self.vault_path.len() + 1;
        let mut dir = path_prefix(&path, path.len() - 1);
        proof {
            assert(texts(path@).take(path@.len() - 1) =~= texts(path@).drop_last());
            old(fs).lemma_wf();
            assert(is_dir(old(fs)@, texts(dir@)));
        }
        while dir.len() > keep
            invariant
                fs.wf(),
                fs.base() == old(fs).base(),
                keep == self.dir().len() + 1,
                is_file(old(fs)@, entry_file(self.dir(), key@)),
                is_dir(fs@, texts(dir@)),
                pruned(fs@, texts(dir@), keep as nat) == self.deleted(old(fs)@, key@),
            decreases dir.len(),
        {
            let ghost before = texts(dir@);
            let ghost tree = fs@;
            proof {
                fs.lemma_wf();
                assert(tree.dom().contains(before));
                assert(is_dir(tree, before.drop_last()));
            }
            if !fs.has_children(&dir) {
                match fs.remove_dir(&dir) {
                    Ok(()) => {},
                    Err(e) => {
                        return Err(e);
                    },
                }
            }
            let _ = dir.pop();
            assert(texts(dir@) =~= before.drop_last());
        }
        Ok(())
    }

    /// The tree after the entry with this key is deleted.
    pub open spec fn deleted(&self, tree: TreeView, key: Seq<char>) -> TreeView {
        let file = entry_file(self.dir(), key);
        pruned(tree.remove(file), file.drop_last(), self.dir().len() + 1)
    }

    /// The logical keys of the entries of the vault, in the strict order of
    /// the dictionary, so that none stands twice: one for each file below
    /// the directory that holds the entries whose name ends in `.json`. There are none where that
    /// directory does not exist. Fails with `IoError` where a file stands
    /// in its place.
    pub fn list_entries(&self, fs: &FileTree) -> (r: Result<Vec<String>, BunkerError>)
        requires
            fs.wf(),
        ensures
            match r {
                Ok(keys) => if exists_at(fs@, store_dir(self.dir())) {
                    is_dir(fs@, store_dir(self.dir())) && lists_picked(
                        texts(keys@),
                        fs@,
                        pick_entry(store_dir(self.dir())),
                    )
                } else {
                    keys@.len() == 0
                },
                Err(e) => exists_at(fs@, store_dir(self.dir())) && !is_dir(
                    fs@,
                    store_dir(self.dir()),
                ) && e is IoError,
            },
    {
        let store = self.store_path();
        if !fs.contains(&store) {
            return Ok(Vec::new());
        }
        if !fs.is_dir(&store) {
            return Err(BunkerError::IoError("not a directory".to_string()));
        }
        let ghost pick = pick_entry(texts(store@));
        let ending = json_ending();
        let mut found: Vec<Vec<char>> = Vec::new();
        let n = fs.len();
        let mut i: usize = 0;
        assert(rows(found@) =~= picked(fs, pick, 0));
        while i < n
            invariant
                i <= n,
                n == fs.spec_len(),
                fs.wf(),
                ending@ == json_suffix(),
                pick == pick_entry(texts(store@)),
                rows(found@) == picked(fs, pick, i as int),
            decreases n - i,
        {
            let path = fs.path_at(i);
            let node = fs.node_at(i);
            let ghost before = found@;
            match Self::entry_key(&store, path, node, &ending) {
                Some(key) => {
                    found.push(key);
                    assert(rows(found@) =~= rows(before).push(key@));
                },
                None => {},
            }
            i += 1;
        }
        proof {
            fs.lemma_wf();
            lemma_entries_once(fs@, texts(store@));
        }
        Ok(sorted_strings(fs, found, Ghost(pick)))
    }

    /// The key of a node, where it is a file that holds an entry below
    /// `store`.
    fn entry_key(store: &Vec<String>, path: &Vec<String>, node: &Node, ending: &Vec<char>) -> (r:
        Option<Vec<char>>)
        requires
            ending@ == json_suffix(),
        ensures
            match r {
                Some(key) => pick_entry(texts(store@))(texts(path@), node@) == Some(key@),
                None => pick_entry(texts(store@))(texts(path@), node@) is None,
            },
    {
        match node {
            Node::Dir => {
                return None;
            },
            Node::File(_) => {},
        }
        if path.len() <= store.len() {
            return None;
        }
        let head = path_prefix(path, store.len());
        if !same_path(&head, store) {
            return None;
        }
        let name = chars_of(path[path.len() - 1].as_str());
        assert(texts(path@).last() == name@);
        if !(name.len() > ending.len() && has_suffix(&name, ending)) {
            return None;
        }
        let mut names: Vec<String> = Vec::new();
        let mut i: usize = store.len();
        assert(texts(path@).skip(store@.len() as int).take(0) =~= texts(names@));
        while i < path.len() - 1
            invariant
                store.len() <= i <= path.len() - 1,
                texts(names@) == texts(path@).skip(store@.len() as int).take(i - store@.len()),
            decreases path.len() - i,
        {
            let ghost before = names@;
            names.push(path[i].clone());
            proof {
                let rel = texts(path@).skip(store@.len() as int);
                assert(texts(names@) =~= texts(before).push(path@[i as int]@));
                assert(rel.take(i + 1 - store@.len()) =~= rel.take(i - store@.len()).push(
                    path@[i as int]@,
                ));
            }
            i += 1;
        }
        let mut stem = name;
        stem.truncate(stem.len() - ending.len());
        let ghost before = names@;
        let stem_text = text_of(&stem);
        names.push(stem_text);
        proof {
            let rel = texts(path@).skip(store@.len() as int);
            assert(rel.take(rel.len() - 1) =~= rel.drop_last());
            assert(rel.last() == texts(path@).last());
            assert(stem@ =~= rel.last().take(rel.last().len() - json_suffix().len()));
            assert(texts(names@) =~= rel.drop_last().push(stem@));
        }
        Some(join_texts(&names, '/'))
    }

    /// The names of the vaults in a tree, in the strict order of the
    /// dictionary, so that none stands twice:
    /// the directories directly below `vaults` that hold the file that
    /// makes them a vault.
    pub fn list_vaults(fs: &FileTree) -> (r: Result<Vec<String>, BunkerError>)
        requires
            fs.wf(),
        ensures
            r matches Ok(names) && lists_picked(texts(names@), fs@, pick_vault(fs@)),
    {
        let ghost pick = pick_vault(fs@);
        let mut found: Vec<Vec<char>> = Vec::new();
        let n = fs.len();
        let mut i: usize = 0;
        assert(rows(found@) =~= picked(fs, pick, 0));
        while i < n
            invariant
                i <= n,
                n == fs.spec_len(),
                fs.wf(),
                pick == pick_vault(fs@),
                rows(found@) == picked(fs, pick, i as int),
            decreases n - i,
        {
            let path = fs.path_at(i);
            let node = fs.node_at(i);
            let ghost before = found@;
            let is_vault: bool = match node {
                Node::Dir => path.len() == 2 && crate::text::chars_equal(path[0].as_str(), "vaults")
                    && fs.contains(&child_path(path, ".vault".to_string())),
                Node::File(_) => false,
            };
            assert(texts(path@).len() == path@.len());
            if is_vault {
                assert(texts(path@)[0] == path@[0]@);
                assert(texts(path@)[1] == path@[1]@);
                let name = chars_of(path[1].as_str());
                found.push(name);
                assert(rows(found@) =~= rows(before).push(name@));
            } else {
                if path.len() == 2 {
                    assert(texts(path@)[0] == path@[0]@);
                }
            }
            i += 1;
        }
        proof {
            lemma_vaults_once(fs@);
        }
        Ok(sorted_strings(fs, found, Ghost(pick)))
    }

    /// Puts `document` into the file of this vault's session, and makes the
    /// directory for sessions. Fails with `IoError`, and changes nothing,
    /// where a file stands in that directory's place or a directory in the
    /// file's.
    pub fn store_session(&self, fs: &mut FileTree, document: Vec<u8>) -> (r: Result<(), BunkerError>)
        requires
            self.wf(),
            old(fs).wf(),
        ensures
            final(fs).wf(),
            final(fs).base() == old(fs).base(),
            match r {
                Ok(()) => self.can_store_session(old(fs)@) && final(fs)@ == old(fs)@.insert(
                    seq!["sessions"@],
                    NodeView::Dir,
                ).insert(session_file(self.name()), NodeView::File(document@)),
                Err(e) => !self.can_store_session(old(fs)@) && final(fs)@ == old(fs)@
                    && e is IoError,
            },
    {
        let path = self.session_path();
        if fs.is_dir(&path) {
            return Err(BunkerError::IoError("is a directory".to_string()));
        }
        let dir = path_prefix(&path, 1);
        proof {
            lemma_layout_names();
            lemma_plain_concat(self.name(), session_suffix());
            assert(plain_path(session_file(self.name()))) by {
                assert forall|i: int| 0 <= i < session_file(self.name()).len() implies plain_name(
                    #[trigger] session_file(self.name())[i],
                ) by {
                    if i == 0 {
                        assert(session_file(self.name())[i] == "sessions"@);
                    } else {
                        assert(session_file(self.name())[i] == self.name() + session_suffix());
                    }
                }
            }
            assert(plain_path(seq!["sessions"@])) by {
                assert forall|i: int| 0 <= i < seq!["sessions"@].len() implies plain_name(
                    #[trigger] seq!["sessions"@][i],
                ) by {
                    assert(seq!["sessions"@][i] == "sessions"@);
                }
            }
            assert(texts(dir@) =~= seq!["sessions"@]);
            assert(texts(dir@).take(1) =~= texts(dir@));
            assert(session_file(self.name()).drop_last() =~= seq!["sessions"@]);
        }
        match fs.create_dir_all(&dir) {
            Ok(()) => {},
            Err(e) => {
                return Err(e);
            },
        }
        proof {
            reveal_with_fuel(with_dirs, 2);
            assert(seq!["sessions"@].take(1) =~= seq!["sessions"@]);
        }
        match fs.write(&path, document) {
            Ok(()) => Ok(()),
            Err(e) => Err(e),
        }
    }

    /// Whether the session of this vault can be stored in `tree`.
    pub open spec fn can_store_session(&self, tree: TreeView) -> bool {
        !is_file(tree, seq!["sessions"@]) && !is_dir(tree, session_file(self.name()))
    }

    /// The document in the file of this vault's session. Fails with
    /// `NoSession` where nothing stands there, and with `IoError` where a
    /// directory does.
    pub fn load_session(&self, fs: &FileTree) -> (r: Result<Vec<u8>, BunkerError>)
        requires
            fs.wf(),
        ensures
            match r {
                Ok(document) => is_file(fs@, session_file(self.name())) && fs@[session_file(
                    self.name(),
                )] == NodeView::File(document@),
                Err(e) => !is_file(fs@, session_file(self.name())) && if exists_at(
                    fs@,
                    session_file(self.name()),
                ) {
                    e is IoError
                } else {
                    e == BunkerError::NoSession
                },
            },
    {
        let path = self.session_path();
        if !fs.contains(&path) {
            return Err(BunkerError::NoSession);
        }
        match fs.read(&path) {
            Some(document) => Ok(document),
            None => Err(BunkerError::IoError("is a directory".to_string())),
        }
    }

    /// Removes the file of this vault's session, where one stands. Fails
    /// with `IoError`, and changes nothing, where a directory stands in its
    /// place.
    pub fn clear_session(&self, fs: &mut FileTree) -> (r: Result<(), BunkerError>)
        requires
            old(fs).wf(),
        ensures
            final(fs).wf(),
            final(fs).base() == old(fs).base(),
            match r {
                Ok(()) => !is_dir(old(fs)@, session_file(self.name())) && final(fs)@ == old(
                    fs,
                )@.remove(session_file(self.name())),
                Err(e) => is_dir(old(fs)@, session_file(self.name())) && final(fs)@ == old(fs)@
                    && e is IoError,
            },
    {
        let path = self.session_path();
        if !fs.contains(&path) {
            assert(fs@.remove(texts(path@)) =~= fs@);
            return Ok(());
        }
        fs.remove_file(&path)
    }
}

/// After `create_dir_all`, a directory stands at each place on the way.
pub proof fn lemma_with_dirs_adds(tree: TreeView, path: Path, upto: int, k: int)
    requires
        1 <= k <= upto <= path.len(),
    ensures
        is_dir(with_dirs(tree, path, upto), path.take(k)),
    decreases upto,
{
    if k < upto {
        lemma_with_dirs_adds(tree, path, upto - 1, k);
        assert(path.take(k) != path.take(upto)) by {
            assert(path.take(k).len() != path.take(upto).len());
        }
    }
}

/// `create_dir_all` changes nothing at a path that is not on the way.
pub proof fn lemma_with_dirs_keeps(tree: TreeView, path: Path, upto: int, other: Path)
    requires
        0 <= upto <= path.len(),
        forall|k: int| 1 <= k <= upto ==> other != #[trigger] path.take(k),
    ensures
        with_dirs(tree, path, upto).dom().contains(other) == tree.dom().contains(other),
        tree.dom().contains(other) ==> with_dirs(tree, path, upto)[other] == tree[other],
    decreases upto,
{
    if upto > 0 {
        lemma_with_dirs_keeps(tree, path, upto - 1, other);
    }
}

/// What pruning does to a tree: nothing is added or changed, and what is
/// removed is a directory on the way from `dir` up, more than `keep` names
/// deep.
pub proof fn lemma_pruned(tree: TreeView, dir: Path, keep: nat)
    ensures
        forall|p: Path|
            #![trigger pruned(tree, dir, keep).dom().contains(p)]
            pruned(tree, dir, keep).dom().contains(p) ==> tree.dom().contains(p) && pruned(
                tree,
                dir,
                keep,
            )[p] == tree[p],
        forall|p: Path|
            #![trigger tree.dom().contains(p)]
            tree.dom().contains(p) && !pruned(tree, dir, keep).dom().contains(p) ==> keep
                < p.len() <= dir.len() && p == dir.take(p.len() as int) && tree[p] is Dir,
    decreases dir.len(),
{
    if dir.len() > keep && is_dir(tree, dir) {
        let up = dir.drop_last();
        let next = if has_children(tree, dir) {
            tree
        } else {
            tree.remove(dir)
        };
        let after = pruned(next, up, keep);
        lemma_pruned(next, up, keep);
        assert(pruned(tree, dir, keep) == pruned(next, up, keep));
        assert(dir.take(dir.len() as int) =~= dir);
        assert forall|p: Path|
            #![trigger tree.dom().contains(p)]
            tree.dom().contains(p) && !after.dom().contains(p) implies keep < p.len() <= dir.len()
            && p == dir.take(p.len() as int) && tree[p] is Dir by {
            if next.dom().contains(p) {
                assert(up.take(p.len() as int) =~= dir.take(p.len() as int));
            }
        }
    }
}

/// Pruning a rooted tree from a directory that stands leaves a rooted
/// tree, in which each directory on the way that remains has something
/// in it.
pub proof fn lemma_pruned_rooted(tree: TreeView, dir: Path, keep: nat)
    requires
        rooted(tree),
        is_dir(tree, dir),
    ensures
        rooted(pruned(tree, dir, keep)),
        forall|k: int|
            keep < k <= dir.len() && pruned(tree, dir, keep).dom().contains(
                #[trigger] dir.take(k),
            ) ==> has_children(pruned(tree, dir, keep), dir.take(k)),
    decreases dir.len(),
{
    if dir.len() > keep {
        let up = dir.drop_last();
        let next = if has_children(tree, dir) {
            tree
        } else {
            tree.remove(dir)
        };
        let after = pruned(next, up, keep);
        assert(tree.dom().contains(dir));
        assert(is_dir(tree, up));
        if !has_children(tree, dir) {
            crate::tree::lemma_rooted_remove(tree, dir);
        }
        assert(is_dir(next, up)) by {
            assert(up.len() != dir.len());
        }
        lemma_pruned_rooted(next, up, keep);
        lemma_pruned(next, up, keep);
        assert(pruned(tree, dir, keep) == after);
        assert(dir.take(dir.len() as int) =~= dir);
        assert forall|k: int|
            keep < k <= dir.len() && after.dom().contains(
                #[trigger] dir.take(k),
            ) implies has_children(after, dir.take(k)) by {
            if k < dir.len() {
                assert(up.take(k) =~= dir.take(k));
            } else {
                assert(next.dom().contains(dir));
                assert(has_children(tree, dir));
                let child = choose|c: Path| #[trigger]
                    tree.dom().contains(c) && c.len() > 0 && c.drop_last() == dir;
                assert(next.dom().contains(child));
                assert(after.dom().contains(child)) by {
                    if !after.dom().contains(child) {
                        assert(child.len() <= up.len());
                    }
                }
            }
        }
    }
}

/// The file of an entry determines its key.
pub proof fn lemma_entry_file_key(vault: Path, a: Seq<char>, b: Seq<char>)
    requires
        entry_file(vault, a) == entry_file(vault, b),
    ensures
        a == b,
{
    let pa = split(a, '/');
    let pb = split(b, '/');
    crate::text::lemma_split_nonempty(a, '/');
    crate::text::lemma_split_nonempty(b, '/');
    let na = entry_names(a);
    let nb = entry_names(b);
    assert(na =~= entry_file(vault, a).skip(store_dir(vault).len() as int));
    assert(nb =~= entry_file(vault, b).skip(store_dir(vault).len() as int));
    assert(na == nb);
    assert(pa.len() == pb.len());
    assert(na.last() == pa.last() + json_suffix());
    assert(nb.last() == pb.last() + json_suffix());
    assert(pa.last() =~= na.last().take(na.last().len() - json_suffix().len()));
    assert(pb.last() =~= nb.last().take(nb.last().len() - json_suffix().len()));
    assert(pa =~= pb) by {
        assert forall|i: int| 0 <= i < pa.len() implies pa[i] == pb[i] by {
            if i < pa.len() - 1 {
                assert(pa[i] == na[i]);
                assert(pb[i] == nb[i]);
            }
        }
    }
    crate::text::lemma_join_split(a, '/');
    crate::text::lemma_join_split(b, '/');
}

/// The key of the file of an entry is the key of the entry, where the
/// key does not end in a slash.
pub proof fn lemma_key_of_entry_file(vault: Path, key: Seq<char>)
    requires
        split(key, '/').last().len() > 0,
    ensures
        key_of(store_dir(vault), entry_file(vault, key)) == Some(key),
{
    let parts = split(key, '/');
    crate::text::lemma_split_nonempty(key, '/');
    crate::text::lemma_join_split(key, '/');
    let store = store_dir(vault);
    let file = entry_file(vault, key);
    let names = file.skip(store.len() as int);
    assert(names =~= entry_names(key));
    assert(file.take(store.len() as int) =~= store);
    let last = parts.last() + json_suffix();
    assert(file.last() == last);
    assert(last.skip(last.len() - json_suffix().len()) =~= json_suffix());
    assert(last.take(last.len() - json_suffix().len()) =~= parts.last());
    assert(names.last() == last);
    assert(names.drop_last() =~= parts.drop_last());
    assert(names.drop_last().push(parts.last()) =~= parts);
    assert(is_below(file, store));
    assert(is_entry_name(file.last()));
}

impl Storage {
    /// After an entry is stored, its file holds the document.
    pub proof fn lemma_load_after_store(&self, tree: TreeView, key: Seq<char>, document: Seq<u8>)
        ensures
            is_file(self.stored(tree, key, document), entry_file(self.dir(), key)),
            self.stored(tree, key, document)[entry_file(self.dir(), key)] == NodeView::File(
                document,
            ),
    {
    }

    /// After the session is cleared, none stands in its place.
    pub proof fn lemma_no_session_after_clear(&self, tree: TreeView)
        ensures
            !exists_at(tree.remove(session_file(self.name())), session_file(self.name())),
    {
    }

    /// What deleting an entry does to a tree: the file of the entry is
    /// gone; apart from it only directories on the way up from it, below
    /// the directory that holds the entries, are gone; nothing else is
    /// changed; and in a rooted tree in which the file stood, the
    /// directories on the way that remain have something in them.
    pub proof fn lemma_deleted(&self, tree: TreeView, key: Seq<char>)
        requires
            self.wf(),
        ensures
            !self.deleted(tree, key).dom().contains(entry_file(self.dir(), key)),
            forall|p: Path|
                #![trigger self.deleted(tree, key).dom().contains(p)]
                self.deleted(tree, key).dom().contains(p) ==> tree.dom().contains(p)
                    && self.deleted(tree, key)[p] == tree[p],
            forall|p: Path|
                #![trigger tree.dom().contains(p)]
                tree.dom().contains(p) && !self.deleted(tree, key).dom().contains(p) ==> p
                    == entry_file(self.dir(), key) || (is_below(p, store_dir(self.dir()))
                    && is_below(entry_file(self.dir(), key), p) && tree[p] is Dir),
            rooted(tree) && is_file(tree, entry_file(self.dir(), key)) ==> forall|p: Path|
                #![trigger self.deleted(tree, key).dom().contains(p)]
                is_below(p, store_dir(self.dir())) && is_below(entry_file(self.dir(), key), p)
                    && self.deleted(tree, key).dom().contains(p) ==> has_children(
                    self.deleted(tree, key),
                    p,
                ),
    {
        let file = entry_file(self.dir(), key);
        let store = store_dir(self.dir());
        let dir = file.drop_last();
        let keep = (self.dir().len() + 1) as nat;
        let start = tree.remove(file);
        let after = self.deleted(tree, key);
        crate::text::lemma_split_nonempty(key, '/');
        lemma_pruned(start, dir, keep);
        assert(store.len() == keep);
        assert(file.len() == keep + split(key, '/').len());
        assert(file.take(keep as int) =~= store);
        assert forall|p: Path|
            #![trigger tree.dom().contains(p)]
            tree.dom().contains(p) && !after.dom().contains(p) implies p == file || (is_below(
                p,
                store,
            ) && is_below(file, p) && tree[p] is Dir) by {
            if p != file {
                assert(start.dom().contains(p));
                assert(p == dir.take(p.len() as int));
                assert(dir.take(p.len() as int) =~= file.take(p.len() as int));
                assert(p.take(keep as int) =~= file.take(keep as int));
            }
        }
        if rooted(tree) && is_file(tree, file) {
            crate::tree::lemma_file_has_no_children(tree, file);
            crate::tree::lemma_rooted_remove(tree, file);
            assert(is_dir(start, dir)) by {
                assert(is_dir(tree, file.drop_last()));
                assert(dir.len() != file.len());
            }
            lemma_pruned_rooted(start, dir, keep);
            assert forall|p: Path|
                #![trigger after.dom().contains(p)]
                is_below(p, store) && is_below(file, p) && after.dom().contains(
                    p,
                ) implies has_children(after, p) by {
                assert(dir.take(p.len() as int) =~= file.take(p.len() as int));
                assert(after.dom().contains(dir.take(p.len() as int)));
            }
        }
    }
}

} // verus!
