//! An image of the files and directories below the base directory. The
//! operations behave as those of a file system do, and every change is
//! recorded so that it can be made on disk afterwards.

use vstd::prelude::*;

use crate::error::BunkerError;
use crate::types::texts;

verus! {

/// A path below the base directory: the names of the directories on the way
/// and of the file or directory itself. The empty path is the base
/// directory.
pub type Path = Seq<Seq<char>>;

/// What stands at a path: a file with its contents, or a directory.
#[derive(Debug, PartialEq, Eq)]
pub enum Node {
    File(Vec<u8>),
    Dir,
}

/// The mathematical value of a [`Node`].
pub enum NodeView {
    File(Seq<u8>),
    Dir,
}

impl View for Node {
    type V = NodeView;

    open spec fn view(&self) -> NodeView {
        match self {
            Node::File(content) => NodeView::File(content@),
            Node::Dir => NodeView::Dir,
        }
    }
}

/// One change to the tree, as it has to be made to the disk.
#[derive(Debug, PartialEq, Eq)]
pub enum FsOp {
    CreateDir(Vec<String>),
    Write(Vec<String>, Vec<u8>),
    RemoveFile(Vec<String>),
    RemoveDir(Vec<String>),
}

/// The mathematical value of an [`FsOp`].
pub enum OpView {
    CreateDir(Path),
    Write(Path, Seq<u8>),
    RemoveFile(Path),
    RemoveDir(Path),
}

impl View for FsOp {
    type V = OpView;

    open spec fn view(&self) -> OpView {
        match self {
            FsOp::CreateDir(path) => OpView::CreateDir(texts(path@)),
            FsOp::Write(path, content) => OpView::Write(texts(path@), content@),
            FsOp::RemoveFile(path) => OpView::RemoveFile(texts(path@)),
            FsOp::RemoveDir(path) => OpView::RemoveDir(texts(path@)),
        }
    }
}

/// The views of a list of changes, in order.
pub open spec fn op_views(ops: Seq<FsOp>) -> Seq<OpView> {
    ops.map_values(|op: FsOp| op@)
}

/// What a tree holds: the node at each path that exists. The base directory
/// itself is not listed; it always exists.
pub type TreeView = Map<Path, NodeView>;

/// Whether a text is a proper name, one that a file or a directory can
/// have: it is not empty, holds no `/`, and is neither `.` nor `..`.
pub open spec fn plain_name(name: Seq<char>) -> bool {
    &&& name.len() > 0
    &&& !name.contains('/')
    &&& name != seq!['.']
    &&& name != seq!['.', '.']
}

/// Whether each name of a path is a proper name.
pub open spec fn plain_path(path: Path) -> bool {
    forall|i: int| 0 <= i < path.len() ==> plain_name(#[trigger] path[i])
}

/// Whether each path that stands in a tree is made of proper names.
pub open spec fn well_named(tree: TreeView) -> bool {
    forall|path: Path| #[trigger] tree.dom().contains(path) ==> plain_path(path)
}

/// Whether each path that stands in a tree stands in a directory: the
/// base directory, or a directory that stands in the tree.
pub open spec fn rooted(tree: TreeView) -> bool {
    forall|path: Path| #[trigger]
        tree.dom().contains(path) ==> path.len() > 0 && is_dir(tree, path.drop_last())
}

/// Whether a file stands at `path`.
pub open spec fn is_file(tree: TreeView, path: Path) -> bool {
    tree.dom().contains(path) && tree[path] is File
}

/// Whether a directory stands at `path`.
pub open spec fn is_dir(tree: TreeView, path: Path) -> bool {
    path.len() == 0 || (tree.dom().contains(path) && tree[path] is Dir)
}

/// Whether anything stands at `path`.
pub open spec fn exists_at(tree: TreeView, path: Path) -> bool {
    path.len() == 0 || tree.dom().contains(path)
}

/// Whether something stands directly inside the directory `dir`.
pub open spec fn has_children(tree: TreeView, dir: Path) -> bool {
    exists|p: Path| #[trigger] tree.dom().contains(p) && p.len() > 0 && p.drop_last() == dir
}

/// Whether `path` lies inside `dir`, at any depth.
pub open spec fn is_below(path: Path, dir: Path) -> bool {
    path.len() > dir.len() && path.take(dir.len() as int) == dir
}

/// The tree after `create_dir_all` on `path`, taken `upto` names deep: each
/// of the directories on the way stands.
pub open spec fn with_dirs(tree: TreeView, path: Path, upto: int) -> TreeView
    decreases upto,
{
    if upto <= 0 {
        tree
    } else {
        with_dirs(tree, path, upto - 1).insert(path.take(upto), NodeView::Dir)
    }
}

/// Whether `create_dir_all` on `path` succeeds: each name of the path is
/// a proper name, and no file stands on the way.
pub open spec fn can_create_dirs(tree: TreeView, path: Path) -> bool {
    &&& plain_path(path)
    &&& forall|k: int| 1 <= k <= path.len() ==> !is_file(tree, #[trigger] path.take(k))
}

/// Whether a file can be written at `path`: each name of the path is a
/// proper name, its directory stands, and no directory stands at the path
/// itself.
pub open spec fn can_write(tree: TreeView, path: Path) -> bool {
    &&& plain_path(path)
    &&& path.len() > 0
    &&& is_dir(tree, path.drop_last())
    &&& !is_dir(tree, path)
}

/// A tree stays rooted where a node is put into a directory that stands,
/// unless a file is put where a directory stood.
pub proof fn lemma_rooted_insert(tree: TreeView, path: Path, node: NodeView)
    requires
        rooted(tree),
        path.len() > 0,
        is_dir(tree, path.drop_last()),
        node is File ==> !is_dir(tree, path),
    ensures
        rooted(tree.insert(path, node)),
{
    let after = tree.insert(path, node);
    assert forall|p: Path| #[trigger] after.dom().contains(p) implies p.len() > 0 && is_dir(
        after,
        p.drop_last(),
    ) by {
        if p != path {
            assert(tree.dom().contains(p));
        }
    }
}

/// A tree stays rooted where a node is taken out that has nothing in it.
pub proof fn lemma_rooted_remove(tree: TreeView, path: Path)
    requires
        rooted(tree),
        !has_children(tree, path),
    ensures
        rooted(tree.remove(path)),
{
    let after = tree.remove(path);
    assert forall|p: Path| #[trigger] after.dom().contains(p) implies p.len() > 0 && is_dir(
        after,
        p.drop_last(),
    ) by {
        assert(tree.dom().contains(p));
    }
}

/// In a rooted tree nothing stands in a file.
pub proof fn lemma_file_has_no_children(tree: TreeView, path: Path)
    requires
        rooted(tree),
        is_file(tree, path),
    ensures
        !has_children(tree, path),
{
    if has_children(tree, path) {
        let p = choose|p: Path| #[trigger]
            tree.dom().contains(p) && p.len() > 0 && p.drop_last() == path;
        assert(is_dir(tree, p.drop_last()));
    }
}

/// In a rooted tree a directory stands at each place on the way to a
/// path that stands.
pub proof fn lemma_rooted_ancestors(tree: TreeView, path: Path, k: int)
    requires
        rooted(tree),
        tree.dom().contains(path),
        1 <= k < path.len(),
    ensures
        tree.dom().contains(path.take(k)),
        tree[path.take(k)] is Dir,
    decreases path.len() - k,
{
    if k == path.len() - 1 {
        assert(path.take(k) =~= path.drop_last());
    } else {
        lemma_rooted_ancestors(tree, path, k + 1);
        assert(path.take(k + 1).drop_last() =~= path.take(k));
    }
}

/// In a rooted tree a file does not stand on the way to anything.
pub proof fn lemma_nothing_below_a_file(tree: TreeView, file: Path, other: Path)
    requires
        rooted(tree),
        is_file(tree, file),
        tree.dom().contains(other),
    ensures
        !is_below(other, file),
{
    if is_below(other, file) {
        lemma_rooted_ancestors(tree, other, file.len() as int);
    }
}

/// The tree after one change is made to it.
pub open spec fn applied(tree: TreeView, op: OpView) -> TreeView {
    match op {
        OpView::CreateDir(path) => with_dirs(tree, path, path.len() as int),
        OpView::Write(path, content) => tree.insert(path, NodeView::File(content)),
        OpView::RemoveFile(path) => tree.remove(path),
        OpView::RemoveDir(path) => tree.remove(path),
    }
}

/// The tree after changes are made to it, one after the other.
pub open spec fn replayed(tree: TreeView, ops: Seq<OpView>) -> TreeView
    decreases ops.len(),
{
    if ops.len() == 0 {
        tree
    } else {
        applied(replayed(tree, ops.drop_last()), ops.last())
    }
}

struct Slot {
    path: Vec<String>,
    node: Node,
}

/// The view of the slots of a tree as a map, later slots over earlier ones.
spec fn slots_view(slots: Seq<Slot>) -> TreeView
    decreases slots.len(),
{
    if slots.len() == 0 {
        Map::empty()
    } else {
        slots_view(slots.drop_last()).insert(texts(slots.last().path@), slots.last().node@)
    }
}

/// No two slots hold the same path.
spec fn distinct(slots: Seq<Slot>) -> bool {
    forall|i: int, j: int|
        0 <= i < j < slots.len() ==> texts(#[trigger] slots[i].path@) != texts(
            #[trigger] slots[j].path@,
        )
}

/// Each slot holds a path of proper names.
spec fn named(slots: Seq<Slot>) -> bool {
    forall|i: int| 0 <= i < slots.len() ==> plain_path(texts(#[trigger] slots[i].path@))
}

proof fn lemma_slots_named(slots: Seq<Slot>)
    requires
        named(slots),
    ensures
        well_named(slots_view(slots)),
{
    assert forall|path: Path| #[trigger] slots_view(slots).dom().contains(path) implies plain_path(
        path,
    ) by {
        lemma_slots_dom(slots, path);
        let i = choose|i: int| 0 <= i < slots.len() && texts(#[trigger] slots[i].path@) == path;
    }
}

proof fn lemma_slots_dom(slots: Seq<Slot>, path: Path)
    ensures
        slots_view(slots).dom().contains(path) <==> exists|i: int|
            0 <= i < slots.len() && texts(#[trigger] slots[i].path@) == path,
    decreases slots.len(),
{
    if slots.len() > 0 {
        let init = slots.drop_last();
        lemma_slots_dom(init, path);
        if slots_view(slots).dom().contains(path) {
            if texts(slots.last().path@) == path {
                assert(texts(slots[slots.len() - 1].path@) == path);
            } else {
                let i = choose|i: int| 0 <= i < init.len() && texts(#[trigger] init[i].path@) == path;
                assert(texts(slots[i].path@) == path);
            }
        }
        if exists|i: int| 0 <= i < slots.len() && texts(#[trigger] slots[i].path@) == path {
            let i = choose|i: int| 0 <= i < slots.len() && texts(#[trigger] slots[i].path@) == path;
            if i < slots.len() - 1 {
                assert(texts(init[i].path@) == path);
            }
        }
    }
}

proof fn lemma_slots_at(slots: Seq<Slot>, i: int)
    requires
        distinct(slots),
        0 <= i < slots.len(),
    ensures
        slots_view(slots).dom().contains(texts(slots[i].path@)),
        slots_view(slots)[texts(slots[i].path@)] == slots[i].node@,
    decreases slots.len(),
{
    let init = slots.drop_last();
    if i < slots.len() - 1 {
        assert(distinct(init)) by {
            assert forall|a: int, b: int| 0 <= a < b < init.len() implies texts(
                #[trigger] init[a].path@,
            ) != texts(#[trigger] init[b].path@) by {
                assert(init[a] == slots[a] && init[b] == slots[b]);
            }
        }
        lemma_slots_at(init, i);
        assert(init[i] == slots[i]);
        assert(texts(slots[i].path@) != texts(slots[slots.len() - 1].path@));
    }
}

proof fn lemma_slots_push(slots: Seq<Slot>, slot: Slot)
    ensures
        slots_view(slots.push(slot)) == slots_view(slots).insert(texts(slot.path@), slot.node@),
{
    assert(slots.push(slot).drop_last() =~= slots);
}

proof fn lemma_slots_update(slots: Seq<Slot>, i: int, slot: Slot)
    requires
        distinct(slots),
        0 <= i < slots.len(),
        texts(slot.path@) == texts(slots[i].path@),
    ensures
        distinct(slots.update(i, slot)),
        slots_view(slots.update(i, slot)) =~= slots_view(slots).insert(
            texts(slot.path@),
            slot.node@,
        ),
    decreases slots.len(),
{
    let updated = slots.update(i, slot);
    assert(distinct(updated)) by {
        assert forall|a: int, b: int| 0 <= a < b < updated.len() implies texts(
            #[trigger] updated[a].path@,
        ) != texts(#[trigger] updated[b].path@) by {
            assert(texts(updated[a].path@) == texts(slots[a].path@));
            assert(texts(updated[b].path@) == texts(slots[b].path@));
        }
    }
    let init = slots.drop_last();
    if i == slots.len() - 1 {
        assert(updated.drop_last() =~= init);
    } else {
        assert(distinct(init)) by {
            assert forall|a: int, b: int| 0 <= a < b < init.len() implies texts(
                #[trigger] init[a].path@,
            ) != texts(#[trigger] init[b].path@) by {
                assert(init[a] == slots[a] && init[b] == slots[b]);
            }
        }
        lemma_slots_update(init, i, slot);
        assert(updated.drop_last() =~= init.update(i, slot));
        assert(updated.last() == slots.last());
        assert(texts(slots[i].path@) != texts(slots[slots.len() - 1].path@));
    }
}

proof fn lemma_slots_remove(slots: Seq<Slot>, i: int)
    requires
        distinct(slots),
        0 <= i < slots.len(),
    ensures
        distinct(slots.remove(i)),
        slots_view(slots.remove(i)) =~= slots_view(slots).remove(texts(slots[i].path@)),
    decreases slots.len(),
{
    let removed = slots.remove(i);
    assert(distinct(removed)) by {
        assert forall|a: int, b: int| 0 <= a < b < removed.len() implies texts(
            #[trigger] removed[a].path@,
        ) != texts(#[trigger] removed[b].path@) by {
            let a0 = if a < i { a } else { a + 1 };
            let b0 = if b < i { b } else { b + 1 };
            assert(removed[a] == slots[a0] && removed[b] == slots[b0]);
        }
    }
    let init = slots.drop_last();
    assert(distinct(init)) by {
        assert forall|a: int, b: int| 0 <= a < b < init.len() implies texts(
            #[trigger] init[a].path@,
        ) != texts(#[trigger] init[b].path@) by {
            assert(init[a] == slots[a] && init[b] == slots[b]);
        }
    }
    if i == slots.len() - 1 {
        assert(removed =~= init);
        lemma_slots_dom(init, texts(slots[i].path@));
        if slots_view(init).dom().contains(texts(slots[i].path@)) {
            let k = choose|k: int|
                0 <= k < init.len() && texts(#[trigger] init[k].path@) == texts(slots[i].path@);
            assert(init[k] == slots[k]);
        }
    } else {
        lemma_slots_remove(init, i);
        assert(removed.drop_last() =~= init.remove(i));
        assert(removed.last() == slots.last());
        assert(texts(slots[i].path@) != texts(slots[slots.len() - 1].path@));
    }
}

/// Whether two paths have the same names.
pub fn same_path(a: &Vec<String>, b: &Vec<String>) -> (r: bool)
    ensures
        r == (texts(a@) == texts(b@)),
{
    if a.len() != b.len() {
        assert(texts(a@).len() != texts(b@).len());
        return false;
    }
    let mut i: usize = 0;
    while i < a.len()
        invariant
            i <= a.len(),
            a.len() == b.len(),
            forall|k: int| 0 <= k < i ==> a@[k]@ == b@[k]@,
        decreases a.len() - i,
    {
        if a[i] != b[i] {
            assert(texts(a@)[i as int] != texts(b@)[i as int]);
            return false;
        }
        i += 1;
    }
    assert(texts(a@) =~= texts(b@));
    true
}

/// A copy of the first `len` names of a path.
pub fn path_prefix(path: &Vec<String>, len: usize) -> (r: Vec<String>)
    requires
        len <= path.len(),
    ensures
        texts(r@) == texts(path@).take(len as int),
{
    let mut out: Vec<String> = Vec::new();
    let mut i: usize = 0;
    while i < len
        invariant
            i <= len <= path.len(),
            out@.len() == i,
            forall|k: int| 0 <= k < i ==> out@[k]@ == path@[k]@,
        decreases len - i,
    {
        out.push(path[i].clone());
        i += 1;
    }
    assert(texts(out@) =~= texts(path@).take(len as int));
    out
}

/// Whether a text is a proper name.
pub fn is_plain_name(name: &str) -> (r: bool)
    ensures
        r == plain_name(name@),
{
    let chars = crate::text::chars_of(name);
    if chars.len() == 0 {
        return false;
    }
    if chars.len() == 1 && chars[0] == '.' {
        assert(chars@ =~= seq!['.']);
        return false;
    }
    if chars.len() == 2 && chars[0] == '.' && chars[1] == '.' {
        assert(chars@ =~= seq!['.', '.']);
        return false;
    }
    let mut i: usize = 0;
    while i < chars.len()
        invariant
            i <= chars.len(),
            chars@ == name@,
            forall|k: int| 0 <= k < i ==> chars@[k] != '/',
        decreases chars.len() - i,
    {
        if chars[i] == '/' {
            assert(chars@[i as int] == '/');
            return false;
        }
        i += 1;
    }
    true
}

/// Whether each name of a path is a proper name.
pub fn is_plain_path(path: &Vec<String>) -> (r: bool)
    ensures
        r == plain_path(texts(path@)),
{
    let mut i: usize = 0;
    while i < path.len()
        invariant
            i <= path.len(),
            forall|k: int| 0 <= k < i ==> plain_name(#[trigger] texts(path@)[k]),
        decreases path.len() - i,
    {
        assert(texts(path@)[i as int] == path@[i as int]@);
        if !is_plain_name(path[i].as_str()) {
            return false;
        }
        i += 1;
    }
    true
}

/// An image of the files and directories below the base directory, with a
/// record of the changes made to it.
pub struct FileTree {
    slots: Vec<Slot>,
    journal: Vec<FsOp>,
    base: Ghost<TreeView>,
}

/// The mathematical value of a tree is what stands at each path. The
/// record of the changes is not part of it: `journal` gives the changes,
/// `base` what they started from, and a well-formed tree is what the one
/// makes of the other.
impl View for FileTree {
    type V = TreeView;

    closed spec fn view(&self) -> TreeView {
        slots_view(self.slots@)
    }
}

impl FileTree {
    /// No path stands in the tree twice, and each is made of proper
    /// names.
    spec fn tidy(&self) -> bool {
        distinct(self.slots@) && named(self.slots@)
    }

    /// What the tree held when the record of changes was last taken.
    pub closed spec fn base(&self) -> TreeView {
        self.base@
    }

    /// The changes made since the record was last taken, oldest first.
    pub closed spec fn journal(&self) -> Seq<OpView> {
        op_views(self.journal@)
    }

    /// Whether the tree is well formed: no path stands in it twice, each
    /// path is made of proper names and stands in a directory, and
    /// the tree holds what the recorded changes make of what it held when
    /// the record was last taken. Every tree that the functions of this
    /// type hand out is.
    pub closed spec fn wf(&self) -> bool {
        self.tidy() && rooted(self@) && self@ == replayed(self.base(), self.journal())
    }

    /// What holds of every well-formed tree: it is what the recorded
    /// changes make of what it held when the record was last taken; its
    /// paths are made of proper names, and each stands in a
    /// directory; and each path that exists stands in one place, and no
    /// path in two.
    pub proof fn lemma_wf(&self)
        requires
            self.wf(),
        ensures
            self@ == replayed(self.base(), self.journal()),
            well_named(self@),
            rooted(self@),
            forall|p: Path|
                self@.dom().contains(p) <==> exists|i: int|
                    0 <= i < self.spec_len() && #[trigger] self.spec_path_at(i) == p,
            forall|i: int, j: int|
                0 <= i < j < self.spec_len() ==> #[trigger] self.spec_path_at(i)
                    != #[trigger] self.spec_path_at(j),
    {
        lemma_slots_named(self.slots@);
        assert forall|p: Path|
            self@.dom().contains(p) <==> exists|i: int|
                0 <= i < self.spec_len() && #[trigger] self.spec_path_at(i) == p by {
            lemma_slots_dom(self.slots@, p);
            if self@.dom().contains(p) {
                let i = choose|i: int|
                    0 <= i < self.slots@.len() && texts(#[trigger] self.slots@[i].path@) == p;
                assert(self.spec_path_at(i) == p);
            }
            if exists|i: int| 0 <= i < self.spec_len() && #[trigger] self.spec_path_at(i) == p {
                let i = choose|i: int|
                    0 <= i < self.spec_len() && #[trigger] self.spec_path_at(i) == p;
                assert(texts(self.slots@[i].path@) == p);
            }
        }
    }

    /// A tree that holds nothing but the base directory.
    pub fn new() -> (r: Self)
        ensures
            r.wf(),
            r@ == Map::<Path, NodeView>::empty(),
            r.base() == Map::<Path, NodeView>::empty(),
            r.journal() == Seq::<OpView>::empty(),
    {
        let r = FileTree { slots: Vec::new(), journal: Vec::new(), base: Ghost(Map::empty()) };
        assert(r.journal() =~= Seq::<OpView>::empty());
        r
    }

    /// Records a change that has been made.
    fn record(&mut self, op: FsOp, Ghost(before): Ghost<TreeView>)
        requires
            old(self).tidy(),
            rooted(old(self)@),
            before == replayed(old(self).base(), old(self).journal()),
            old(self)@ == applied(before, op@),
        ensures
            final(self).wf(),
            final(self)@ == old(self)@,
            final(self).base() == old(self).base(),
            final(self).journal() == old(self).journal().push(op@),
    {
        let ghost ops = self.journal();
        self.journal.push(op);
        proof {
            assert(self.journal() =~= ops.push(op@));
            assert(ops.push(op@).drop_last() =~= ops);
        }
    }

    fn find(&self, path: &Vec<String>) -> (r: Option<usize>)
        requires
            self.tidy(),
        ensures
            match r {
                Some(i) => i < self.slots@.len() && texts(self.slots@[i as int].path@) == texts(
                    path@,
                ) && self@.dom().contains(texts(path@)) && self@[texts(path@)]
                    == self.slots@[i as int].node@,
                None => !self@.dom().contains(texts(path@)),
            },
    {
        proof {
            lemma_slots_dom(self.slots@, texts(path@));
        }
        let mut i: usize = 0;
        while i < self.slots.len()
            invariant
                i <= self.slots@.len(),
                distinct(self.slots@),
                forall|k: int| 0 <= k < i ==> texts(#[trigger] self.slots@[k].path@) != texts(path@),
            decreases self.slots.len() - i,
        {
            if same_path(&self.slots[i].path, path) {
                proof {
                    lemma_slots_at(self.slots@, i as int);
                }
                return Some(i);
            }
            i += 1;
        }
        None
    }

    /// Whether a file stands at `path`.
    pub fn is_file(&self, path: &Vec<String>) -> (r: bool)
        requires
            self.wf(),
        ensures
            r == is_file(self@, texts(path@)),
    {
        match self.find(path) {
            Some(i) => match &self.slots[i].node {
                Node::File(_) => true,
                Node::Dir => false,
            },
            None => false,
        }
    }

    /// Whether a directory stands at `path`.
    pub fn is_dir(&self, path: &Vec<String>) -> (r: bool)
        requires
            self.wf(),
        ensures
            r == is_dir(self@, texts(path@)),
    {
        if path.len() == 0 {
            return true;
        }
        match self.find(path) {
            Some(i) => match &self.slots[i].node {
                Node::File(_) => false,
                Node::Dir => true,
            },
            None => false,
        }
    }

    /// Whether anything stands at `path`.
    pub fn contains(&self, path: &Vec<String>) -> (r: bool)
        requires
            self.wf(),
        ensures
            r == exists_at(self@, texts(path@)),
    {
        path.len() == 0 || self.find(path).is_some()
    }

    /// The contents of the file at `path`, if one stands there.
    pub fn read(&self, path: &Vec<String>) -> (r: Option<Vec<u8>>)
        requires
            self.wf(),
        ensures
            match r {
                Some(content) => is_file(self@, texts(path@)) && self@[texts(path@)]
                    == NodeView::File(content@),
                None => !is_file(self@, texts(path@)),
            },
    {
        match self.find(path) {
            Some(i) => match &self.slots[i].node {
                Node::File(content) => Some(content.clone()),
                Node::Dir => None,
            },
            None => None,
        }
    }

    /// Whether something stands directly inside the directory `dir`.
    pub fn has_children(&self, dir: &Vec<String>) -> (r: bool)
        requires
            self.wf(),
        ensures
            r == has_children(self@, texts(dir@)),
    {
        let mut i: usize = 0;
        while i < self.slots.len()
            invariant
                i <= self.slots@.len(),
                distinct(self.slots@),
                forall|k: int|
                    0 <= k < i ==> !(texts(#[trigger] self.slots@[k].path@).len() > 0 && texts(
                        self.slots@[k].path@,
                    ).drop_last() == texts(dir@)),
            decreases self.slots.len() - i,
        {
            let n: usize = self.slots[i].path.len();
            if n > 0 {
                let parent = path_prefix(&self.slots[i].path, n - 1);
                proof {
                    let p = texts(self.slots@[i as int].path@);
                    assert(p.take(n - 1) =~= p.drop_last());
                }
                if same_path(&parent, dir) {
                    proof {
                        lemma_slots_at(self.slots@, i as int);
                    }
                    return true;
                }
            }
            i += 1;
        }
        proof {
            if has_children(self@, texts(dir@)) {
                let p = choose|p: Path| #[trigger]
                    self@.dom().contains(p) && p.len() > 0 && p.drop_last() == texts(dir@);
                lemma_slots_dom(self.slots@, p);
            }
        }
        false
    }

    #[verifier::spinoff_prover]
    fn put(&mut self, path: Vec<String>, node: Node)
        requires
            old(self).tidy(),
            plain_path(texts(path@)),
        ensures
            final(self).tidy(),
            final(self)@ == old(self)@.insert(texts(path@), node@),
            final(self).journal == old(self).journal,
            final(self).base == old(self).base,
    {
        match self.find(&path) {
            Some(i) => {
                let slot = Slot { path, node };
                proof {
                    lemma_slots_update(self.slots@, i as int, slot);
                    assert(named(self.slots@.update(i as int, slot)));
                }
                self.slots.set(i, slot);
            },
            None => {
                let slot = Slot { path, node };
                proof {
                    lemma_slots_push(self.slots@, slot);
                    lemma_slots_dom(self.slots@, texts(slot.path@));
                    assert(distinct(self.slots@.push(slot))) by {
                        let pushed = self.slots@.push(slot);
                        assert forall|a: int, b: int| 0 <= a < b < pushed.len() implies texts(
                            #[trigger] pushed[a].path@,
                        ) != texts(#[trigger] pushed[b].path@) by {
                            assert(pushed[a] == self.slots@[a]);
                            if b < self.slots@.len() {
                                assert(pushed[b] == self.slots@[b]);
                            } else {
                                assert(pushed[b] == slot);
                                assert(texts(self.slots@[a].path@) != texts(slot.path@));
                            }
                        }
                    }
                    assert(named(self.slots@.push(slot)));
                }
                self.slots.push(slot);
            },
        }
    }

    fn take(&mut self, path: &Vec<String>)
        requires
            old(self).tidy(),
        ensures
            final(self).tidy(),
            final(self)@ == old(self)@.remove(texts(path@)),
            final(self).journal == old(self).journal,
            final(self).base == old(self).base,
    {
        match self.find(path) {
            Some(i) => {
                proof {
                    lemma_slots_remove(self.slots@, i as int);
                    assert(named(self.slots@.remove(i as int))) by {
                        let removed = self.slots@.remove(i as int);
                        assert forall|k: int| 0 <= k < removed.len() implies plain_path(
                            texts(#[trigger] removed[k].path@),
                        ) by {
                            let k0 = if k < i { k } else { k + 1 };
                            assert(removed[k] == self.slots@[k0]);
                        }
                    }
                }
                let _ = self.slots.remove(i);
            },
            None => {
                assert(self@.remove(texts(path@)) =~= self@);
            },
        }
    }

    /// Makes the directory at `path` and every directory on the way to it.
    /// Fails, and changes nothing, where a name of the path is no proper
    /// name or a file stands on the way.
    pub fn create_dir_all(&mut self, path: &Vec<String>) -> (r: Result<(), BunkerError>)
        requires
            old(self).wf(),
        ensures
            final(self).wf(),
            match r {
                Ok(()) => can_create_dirs(old(self)@, texts(path@)) && final(self)@ == with_dirs(
                    old(self)@,
                    texts(path@),
                    path@.len() as int,
                ) && final(self).journal() == old(self).journal().push(
                    OpView::CreateDir(texts(path@)),
                ),
                Err(e) => !can_create_dirs(old(self)@, texts(path@)) && final(self)@ == old(self)@
                    && final(self).journal() == old(self).journal() && e is IoError,
            },
            final(self).base() == old(self).base(),
    {
        if !is_plain_path(path) {
            return Err(BunkerError::IoError("not a name".to_string()));
        }
        let mut k: usize = 0;
        while k < path.len()
            invariant
                k <= path.len(),
                self.wf(),
                self@ == old(self)@,
                forall|j: int| 1 <= j <= k ==> !is_file(self@, #[trigger] texts(path@).take(j)),
            decreases path.len() - k,
        {
            let prefix = path_prefix(path, k + 1);
            if self.is_file(&prefix) {
                return Err(BunkerError::IoError("a file stands in the way".to_string()));
            }
            k += 1;
        }
        let mut k: usize = 0;
        while k < path.len()
            invariant
                k <= path.len(),
                self.tidy(),
                plain_path(texts(path@)),
                self.journal == old(self).journal,
                self.base == old(self).base,
                self@ == with_dirs(old(self)@, texts(path@), k as int),
                rooted(self@),
                k > 0 ==> is_dir(self@, texts(path@).take(k as int)),
            decreases path.len() - k,
        {
            let prefix = path_prefix(path, k + 1);
            proof {
                assert(texts(path@).take(k + 1).drop_last() =~= texts(path@).take(k as int));
                lemma_rooted_insert(self@, texts(path@).take(k + 1), NodeView::Dir);
            }
            self.put(prefix, Node::Dir);
            k += 1;
        }
        proof {
            assert(texts(path@).take(path@.len() as int) =~= texts(path@));
        }
        self.record(FsOp::CreateDir(path_prefix(path, path.len())), Ghost(old(self)@));
        Ok(())
    }

    /// Writes a file at `path`, over the one that stands there if any.
    /// Fails, and changes nothing, where the path is empty, a name of it
    /// is no proper name, its directory does not stand, or a directory
    /// stands at the path.
    pub fn write(&mut self, path: &Vec<String>, content: Vec<u8>) -> (r: Result<(), BunkerError>)
        requires
            old(self).wf(),
        ensures
            final(self).wf(),
            match r {
                Ok(()) => can_write(old(self)@, texts(path@)) && final(self)@ == old(self)@.insert(
                    texts(path@),
                    NodeView::File(content@),
                ) && final(self).journal() == old(self).journal().push(
                    OpView::Write(texts(path@), content@),
                ),
                Err(e) => !can_write(old(self)@, texts(path@)) && final(self)@ == old(self)@
                    && final(self).journal() == old(self).journal() && e is IoError,
            },
            final(self).base() == old(self).base(),
    {
        if path.len() == 0 {
            return Err(BunkerError::IoError("no file name".to_string()));
        }
        if !is_plain_path(path) {
            return Err(BunkerError::IoError("not a name".to_string()));
        }
        let parent = path_prefix(path, path.len() - 1);
        proof {
            assert(texts(path@).take(path@.len() - 1) =~= texts(path@).drop_last());
        }
        if !self.is_dir(&parent) {
            return Err(BunkerError::IoError("no such directory".to_string()));
        }
        if self.is_dir(path) {
            return Err(BunkerError::IoError("is a directory".to_string()));
        }
        proof {
            assert(texts(path@).take(path@.len() as int) =~= texts(path@));
        }
        let op = FsOp::Write(path_prefix(path, path.len()), content.clone());
        proof {
            lemma_rooted_insert(self@, texts(path@), NodeView::File(content@));
        }
        self.put(path_prefix(path, path.len()), Node::File(content));
        self.record(op, Ghost(old(self)@));
        Ok(())
    }

    /// Removes the file at `path`. Fails, and changes nothing, where no
    /// file stands there.
    pub fn remove_file(&mut self, path: &Vec<String>) -> (r: Result<(), BunkerError>)
        requires
            old(self).wf(),
        ensures
            final(self).wf(),
            match r {
                Ok(()) => is_file(old(self)@, texts(path@)) && final(self)@ == old(self)@.remove(
                    texts(path@),
                ) && final(self).journal() == old(self).journal().push(
                    OpView::RemoveFile(texts(path@)),
                ),
                Err(e) => !is_file(old(self)@, texts(path@)) && final(self)@ == old(self)@
                    && final(self).journal() == old(self).journal() && e is IoError,
            },
            final(self).base() == old(self).base(),
    {
        if !self.is_file(path) {
            return Err(BunkerError::IoError("no such file".to_string()));
        }
        proof {
            assert(texts(path@).take(path@.len() as int) =~= texts(path@));
            lemma_file_has_no_children(self@, texts(path@));
            lemma_rooted_remove(self@, texts(path@));
        }
        self.take(path);
        self.record(FsOp::RemoveFile(path_prefix(path, path.len())), Ghost(old(self)@));
        Ok(())
    }

    /// Removes the directory at `path`. Fails, and changes nothing, where
    /// the path is empty, no directory stands there, or something stands in
    /// it.
    pub fn remove_dir(&mut self, path: &Vec<String>) -> (r: Result<(), BunkerError>)
        requires
            old(self).wf(),
        ensures
            final(self).wf(),
            match r {
                Ok(()) => path@.len() > 0 && is_dir(old(self)@, texts(path@)) && !has_children(
                    old(self)@,
                    texts(path@),
                ) && final(self)@ == old(self)@.remove(texts(path@)) && final(self).journal()
                    == old(self).journal().push(OpView::RemoveDir(texts(path@))),
                Err(e) => !(path@.len() > 0 && is_dir(old(self)@, texts(path@)) && !has_children(
                    old(self)@,
                    texts(path@),
                )) && final(self)@ == old(self)@ && final(self).journal() == old(self).journal()
                    && e is IoError,
            },
            final(self).base() == old(self).base(),
    {
        if path.len() == 0 || !self.is_dir(path) {
            return Err(BunkerError::IoError("no such directory".to_string()));
        }
        if self.has_children(path) {
            return Err(BunkerError::IoError("directory not empty".to_string()));
        }
        proof {
            assert(texts(path@).take(path@.len() as int) =~= texts(path@));
            lemma_rooted_remove(self@, texts(path@));
        }
        self.take(path);
        self.record(FsOp::RemoveDir(path_prefix(path, path.len())), Ghost(old(self)@));
        Ok(())
    }

    /// How many nodes the tree holds. Every path that exists stands in
    /// one place below that number, and no path in two.
    pub fn len(&self) -> (n: usize)
        requires
            self.wf(),
        ensures
            n == self.spec_len(),
            forall|p: Path|
                self@.dom().contains(p) <==> exists|i: int|
                    0 <= i < self.spec_len() && #[trigger] self.spec_path_at(i) == p,
            forall|i: int, j: int|
                0 <= i < j < self.spec_len() ==> #[trigger] self.spec_path_at(i)
                    != #[trigger] self.spec_path_at(j),
    {
        proof {
            assert forall|p: Path|
                self@.dom().contains(p) <==> exists|i: int|
                    0 <= i < self.spec_len() && #[trigger] self.spec_path_at(i) == p by {
                lemma_slots_dom(self.slots@, p);
                if self@.dom().contains(p) {
                    let i = choose|i: int|
                        0 <= i < self.slots@.len() && texts(#[trigger] self.slots@[i].path@) == p;
                    assert(self.spec_path_at(i) == p);
                }
                if exists|i: int| 0 <= i < self.spec_len() && #[trigger] self.spec_path_at(i) == p {
                    let i = choose|i: int|
                        0 <= i < self.spec_len() && #[trigger] self.spec_path_at(i) == p;
                    assert(texts(self.slots@[i].path@) == p);
                }
            }
        }
        self.slots.len()
    }

    /// How many nodes the tree holds.
    pub closed spec fn spec_len(&self) -> nat {
        self.slots@.len()
    }

    /// The path of the node in place `i`. Each path that exists stands in
    /// one place.
    pub closed spec fn spec_path_at(&self, i: int) -> Path {
        texts(self.slots@[i].path@)
    }

    /// The path of the node in place `i`.
    pub fn path_at(&self, i: usize) -> (r: &Vec<String>)
        requires
            self.wf(),
            i < self.spec_len(),
        ensures
            texts(r@) == self.spec_path_at(i as int),
            self@.dom().contains(texts(r@)),
    {
        proof {
            lemma_slots_at(self.slots@, i as int);
        }
        &self.slots[i].path
    }

    /// The node in place `i`.
    pub fn node_at(&self, i: usize) -> (r: &Node)
        requires
            self.wf(),
            i < self.spec_len(),
        ensures
            self@.dom().contains(self.spec_path_at(i as int)),
            r@ == self@[self.spec_path_at(i as int)],
    {
        proof {
            lemma_slots_at(self.slots@, i as int);
        }
        &self.slots[i].node
    }

    /// The changes made since the record was last taken, oldest first; the
    /// record is then empty. Made one after the other to what the tree
    /// held when the record was last taken, they give what it holds now.
    pub fn take_journal(&mut self) -> (ops: Vec<FsOp>)
        requires
            old(self).wf(),
        ensures
            final(self).wf(),
            final(self)@ == old(self)@,
            op_views(ops@) == old(self).journal(),
            replayed(old(self).base(), op_views(ops@)) == old(self)@,
            final(self).base() == old(self)@,
            final(self).journal() == Seq::<OpView>::empty(),
    {
        let mut ops: Vec<FsOp> = Vec::new();
        std::mem::swap(&mut ops, &mut self.journal);
        self.base = Ghost(self@);
        assert(self.journal() =~= Seq::<OpView>::empty());
        ops
    }
}

} // verus!
