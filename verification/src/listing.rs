//! The tree of the keys of a vault, line by line.

use vstd::prelude::*;

use crate::primitives::text_of;
use crate::text::{chars_of, join, join_texts, lex_le, split, split_text, text_le};
use crate::types::texts;

verus! {

/// One line of a tree of keys.
#[derive(Clone, Debug, PartialEq, Eq)]
pub struct TreeRow {
    /// What stands before the connector: the strokes of the levels above.
    pub prefix: String,
    /// The stroke that leads to the label.
    pub connector: String,
    /// The name of the directory or the key of the entry.
    pub label: String,
    /// Whether the line stands for a directory.
    pub is_dir: bool,
}

/// The mathematical value of a [`TreeRow`].
pub struct RowView {
    pub prefix: Seq<char>,
    pub connector: Seq<char>,
    pub label: Seq<char>,
    pub is_dir: bool,
}

impl View for TreeRow {
    type V = RowView;

    open spec fn view(&self) -> RowView {
        RowView {
            prefix: self.prefix@,
            connector: self.connector@,
            label: self.label@,
            is_dir: self.is_dir,
        }
    }
}

/// The views of a list of rows, in order.
pub open spec fn row_views(rows: Seq<TreeRow>) -> Seq<RowView> {
    rows.map_values(|r: TreeRow| r@)
}

/// The keys that were found below one directory, in the order in which
/// they came.
pub type Group = (Seq<char>, Seq<Seq<char>>);

/// The directory that a key lies in at the top: what stands before its
/// first slash, or the empty text where it has none.
pub open spec fn group_key(entry: Seq<char>) -> Seq<char> {
    let parts = split(entry, '/');
    if parts.len() == 1 {
        Seq::empty()
    } else {
        parts[0]
    }
}

/// A key as it is called inside its directory: what stands behind its
/// first slash, or all of it where it has none.
pub open spec fn child_of(entry: Seq<char>) -> Seq<char> {
    let parts = split(entry, '/');
    if parts.len() == 1 {
        entry
    } else {
        join(parts.skip(1), '/')
    }
}

/// The groups with one more key in the group of `key`, which is made in
/// its place in the order of the dictionary where it is not there.
pub open spec fn add_to_groups(groups: Seq<Group>, key: Seq<char>, child: Seq<char>) -> Seq<Group>
    decreases groups.len(),
{
    if groups.len() == 0 {
        seq![(key, seq![child])]
    } else if groups[0].0 == key {
        groups.update(0, (key, groups[0].1.push(child)))
    } else if lex_le(key, groups[0].0) {
        seq![(key, seq![child])] + groups
    } else {
        seq![groups[0]] + add_to_groups(groups.drop_first(), key, child)
    }
}

/// The keys by the directory that they lie in at the top, the directories
/// in the order of the dictionary.
pub open spec fn grouped(entries: Seq<Seq<char>>) -> Seq<Group>
    decreases entries.len(),
{
    if entries.len() == 0 {
        Seq::empty()
    } else {
        add_to_groups(
            grouped(entries.drop_last()),
            group_key(entries.last()),
            child_of(entries.last()),
        )
    }
}

/// The stroke that leads to the last of its level.
pub open spec fn last_connector() -> Seq<char> {
    "└──"@
}

/// The stroke that leads to one that others follow.
pub open spec fn branch_connector() -> Seq<char> {
    "├──"@
}

/// The stroke for a level, by whether it is that of the last group.
pub open spec fn connector(last: bool) -> Seq<char> {
    if last {
        last_connector()
    } else {
        branch_connector()
    }
}

/// What the lines below a directory begin with, by whether the directory
/// is the last of its level.
pub open spec fn indent(last: bool) -> Seq<char> {
    if last {
        "    "@
    } else {
        "│   "@
    }
}

/// The lines for entries that lie in no directory.
pub open spec fn leaf_rows(children: Seq<Seq<char>>, prefix: Seq<char>, stroke: Seq<char>) -> Seq<
    RowView,
> {
    children.map_values(
        |c: Seq<char>| RowView { prefix, connector: stroke, label: c, is_dir: false },
    )
}

/// The lines of the tree of these keys, each beginning with `prefix`, as
/// far as `depth` directories deep.
pub open spec fn tree(entries: Seq<Seq<char>>, prefix: Seq<char>, depth: nat) -> Seq<RowView>
    decreases depth, 1nat, 0nat,
{
    group_rows(grouped(entries), prefix, depth, 0)
}

/// The lines for the groups from place `i` on: for the keys without a
/// directory a line each, and for a directory a line and then the tree of
/// the keys in it.
pub open spec fn group_rows(groups: Seq<Group>, prefix: Seq<char>, depth: nat, i: nat) -> Seq<
    RowView,
>
    decreases depth, 0nat, groups.len() - i,
{
    if i >= groups.len() {
        Seq::empty()
    } else {
        let last = i == groups.len() - 1;
        let here = if groups[i as int].0.len() == 0 {
            leaf_rows(groups[i as int].1, prefix, connector(last))
        } else {
            seq![
                RowView {
                    prefix,
                    connector: connector(last),
                    label: groups[i as int].0,
                    is_dir: true,
                },
            ] + (if depth == 0 {
                Seq::empty()
            } else {
                tree(groups[i as int].1, prefix + indent(last), (depth - 1) as nat)
            })
        };
        here + group_rows(groups, prefix, depth, i + 1)
    }
}

/// How many slashes a key has.
pub open spec fn slashes(entry: Seq<char>) -> nat {
    (split(entry, '/').len() - 1) as nat
}

/// The largest number of slashes among the first `n` keys.
pub open spec fn most_slashes(entries: Seq<Seq<char>>, n: int) -> nat
    decreases n,
{
    if n <= 0 {
        0
    } else if slashes(entries[n - 1]) > most_slashes(entries, n - 1) {
        slashes(entries[n - 1])
    } else {
        most_slashes(entries, n - 1)
    }
}

/// The lines of the tree of these keys.
pub open spec fn tree_of(entries: Seq<Seq<char>>, prefix: Seq<char>) -> Seq<RowView> {
    tree(entries, prefix, most_slashes(entries, entries.len() as int))
}

/// One group as it is held while the keys are sorted into groups.
struct Bucket {
    key: String,
    children: Vec<String>,
}

/// The views of the buckets, in order.
spec fn buckets_view(buckets: Seq<Bucket>) -> Seq<Group> {
    buckets.map_values(|b: Bucket| (b.key@, texts(b.children@)))
}

/// Puts one more key into the group of `key`.
fn add_to_buckets(buckets: &mut Vec<Bucket>, key: String, child: String)
    ensures
        buckets_view(final(buckets)@) == add_to_groups(buckets_view(old(buckets)@), key@, child@),
{
    let key_chars = chars_of(key.as_str());
    let ghost start = buckets_view(buckets@);
    let mut i: usize = 0;
    assert(start.skip(0) =~= start);
    while i < buckets.len()
        invariant
            i <= buckets.len(),
            buckets@ == old(buckets)@,
            start == buckets_view(buckets@),
            key_chars@ == key@,
            add_to_groups(start, key@, child@) == start.take(i as int) + add_to_groups(
                start.skip(i as int),
                key@,
                child@,
            ),
        decreases buckets.len() - i,
    {
        let ghost rest = start.skip(i as int);
        proof {
            assert(rest[0] == start[i as int]);
            assert(start[i as int] == (buckets@[i as int].key@, texts(buckets@[i as int].children@)));
            assert(rest.drop_first() =~= start.skip(i + 1));
            assert(start.take(i + 1) =~= start.take(i as int) + seq![rest[0]]);
        }
        let here = chars_of(buckets[i].key.as_str());
        if crate::text::chars_equal(buckets[i].key.as_str(), key.as_str()) {
            let mut bucket = buckets.remove(i);
            let ghost before = bucket.children@;
            bucket.children.push(child);
            proof {
                assert(texts(bucket.children@) =~= texts(before).push(child@));
            }
            buckets.insert(i, bucket);
            proof {
                assert(buckets_view(buckets@) =~= start.take(i as int) + rest.update(
                    0,
                    (key@, rest[0].1.push(child@)),
                ));
            }
            return;
        }
        if text_le(&key_chars, &here) {
            let mut children: Vec<String> = Vec::new();
            children.push(child);
            assert(texts(children@) =~= seq![child@]);
            buckets.insert(i, Bucket { key, children });
            proof {
                assert(buckets_view(buckets@) =~= start.take(i as int) + (seq![
                    (key@, seq![child@]),
                ] + rest));
            }
            return;
        }
        proof {
            assert(start.take(i as int) + (seq![rest[0]] + add_to_groups(
                rest.drop_first(),
                key@,
                child@,
            )) =~= start.take(i + 1) + add_to_groups(start.skip(i + 1), key@, child@));
        }
        i += 1;
    }
    let mut children: Vec<String> = Vec::new();
    children.push(child);
    assert(texts(children@) =~= seq![child@]);
    proof {
        assert(start.skip(buckets@.len() as int) =~= Seq::empty());
        assert(start.take(buckets@.len() as int) =~= start);
    }
    buckets.push(Bucket { key, children });
    proof {
        assert(buckets_view(buckets@) =~= start + seq![(key@, seq![child@])]);
    }
}

/// The directory that a key lies in at the top, the key as it is called
/// inside it, and how many slashes the key has.
fn split_entry(entry: &str) -> (r: (String, String, usize))
    ensures
        r.0@ == group_key(entry@),
        r.1@ == child_of(entry@),
        r.2 == slashes(entry@),
{
    let mut parts = split_text(entry, '/');
    let count: usize = parts.len() - 1;
    if parts.len() == 1 {
        return (String::new(), entry.to_string(), count);
    }
    let ghost all = texts(parts@);
    let first = parts.remove(0);
    assert(texts(parts@) =~= all.skip(1));
    let rest = join_texts(&parts, '/');
    (first, text_of(&rest), count)
}

/// The keys by the directory that they lie in at the top, and the largest
/// number of slashes among them.
fn group_entries(entries: &Vec<String>) -> (r: (Vec<Bucket>, usize))
    ensures
        buckets_view(r.0@) == grouped(texts(entries@)),
        r.1 == most_slashes(texts(entries@), entries@.len() as int),
{
    let mut buckets: Vec<Bucket> = Vec::new();
    let mut most: usize = 0;
    let mut i: usize = 0;
    assert(texts(entries@).take(0) =~= Seq::empty());
    assert(buckets_view(buckets@) =~= Seq::empty());
    while i < entries.len()
        invariant
            i <= entries.len(),
            buckets_view(buckets@) == grouped(texts(entries@).take(i as int)),
            most == most_slashes(texts(entries@), i as int),
        decreases entries.len() - i,
    {
        proof {
            let next = texts(entries@).take(i + 1);
            assert(next.drop_last() =~= texts(entries@).take(i as int));
            assert(next.last() == entries@[i as int]@);
            assert(texts(entries@)[i as int] == entries@[i as int]@);
        }
        let (key, child, count) = split_entry(entries[i].as_str());
        add_to_buckets(&mut buckets, key, child);
        if count > most {
            most = count;
        }
        i += 1;
    }
    assert(texts(entries@).take(entries.len() as int) =~= texts(entries@));
    (buckets, most)
}

/// Appends the lines of the tree of these keys.
fn append_tree(out: &mut Vec<TreeRow>, entries: &Vec<String>, prefix: &str, depth: usize)
    ensures
        row_views(final(out)@) == row_views(old(out)@) + tree(
            texts(entries@),
            prefix@,
            depth as nat,
        ),
    decreases depth,
{
    let (buckets, _) = group_entries(entries);
    let ghost groups = buckets_view(buckets@);
    let ghost start = row_views(out@);
    let mut i: usize = 0;
    proof {
        assert(start + group_rows(groups, prefix@, depth as nat, 0) =~= start + tree(
            texts(entries@),
            prefix@,
            depth as nat,
        ));
    }
    while i < buckets.len()
        invariant
            i <= buckets.len(),
            groups == buckets_view(buckets@),
            row_views(out@) + group_rows(groups, prefix@, depth as nat, i as nat) == start + tree(
                texts(entries@),
                prefix@,
                depth as nat,
            ),
        decreases buckets.len() - i,
    {
        let last: bool = i == buckets.len() - 1;
        let stroke: &str = if last {
            "└──"
        } else {
            "├──"
        };
        let ghost before = row_views(out@);
        let ghost group = groups[i as int];
        assert(group == (buckets@[i as int].key@, texts(buckets@[i as int].children@)));
        let key_chars = chars_of(buckets[i].key.as_str());
        if key_chars.len() == 0 {
            let children = &buckets[i].children;
            let mut k: usize = 0;
            assert(leaf_rows(group.1, prefix@, connector(last)).take(0) =~= Seq::empty());
            assert(before + Seq::<RowView>::empty() =~= before);
            while k < children.len()
                invariant
                    k <= children.len(),
                    texts(children@) == group.1,
                    stroke@ == connector(last),
                    row_views(out@) == before + leaf_rows(group.1, prefix@, connector(last)).take(
                        k as int,
                    ),
                decreases children.len() - k,
            {
                let ghost rows_before = out@;
                let row = TreeRow {
                    prefix: prefix.to_string(),
                    connector: stroke.to_string(),
                    label: children[k].clone(),
                    is_dir: false,
                };
                out.push(row);
                proof {
                    let leaves = leaf_rows(group.1, prefix@, connector(last));
                    assert(texts(children@)[k as int] == children@[k as int]@);
                    assert(row_views(out@) =~= row_views(rows_before).push(row@));
                    assert(leaves.take(k + 1) =~= leaves.take(k as int).push(leaves[k as int]));
                    assert(row@ == leaves[k as int]);
                }
                k += 1;
            }
            proof {
                let leaves = leaf_rows(group.1, prefix@, connector(last));
                assert(leaves.take(children@.len() as int) =~= leaves);
            }
        } else {
            let ghost rows_before = out@;
            let row = TreeRow {
                prefix: prefix.to_string(),
                connector: stroke.to_string(),
                label: buckets[i].key.clone(),
                is_dir: true,
            };
            out.push(row);
            proof {
                assert(row_views(out@) =~= row_views(rows_before).push(row@));
            }
            if depth > 0 {
                let below = crate::text::concat(prefix, if last {
                    "    "
                } else {
                    "│   "
                });
                append_tree(out, &buckets[i].children, below.as_str(), depth - 1);
            }
            proof {
                let sub = if depth == 0 {
                    Seq::<RowView>::empty()
                } else {
                    tree(group.1, prefix@ + indent(last), (depth - 1) as nat)
                };
                assert(row_views(out@) =~= before + (seq![row@] + sub));
            }
        }
        proof {
            let here = if group.0.len() == 0 {
                leaf_rows(group.1, prefix@, connector(last))
            } else {
                seq![
                    RowView {
                        prefix: prefix@,
                        connector: connector(last),
                        label: group.0,
                        is_dir: true,
                    },
                ] + (if depth == 0 {
                    Seq::<RowView>::empty()
                } else {
                    tree(group.1, prefix@ + indent(last), (depth - 1) as nat)
                })
            };
            assert(row_views(out@) == before + here);
            assert(group_rows(groups, prefix@, depth as nat, i as nat) == here + group_rows(
                groups,
                prefix@,
                depth as nat,
                (i + 1) as nat,
            ));
            assert((before + here) + group_rows(groups, prefix@, depth as nat, (i + 1) as nat)
                =~= before + group_rows(groups, prefix@, depth as nat, i as nat));
        }
        i += 1;
    }
    proof {
        assert(group_rows(groups, prefix@, depth as nat, buckets@.len() as nat) =~= Seq::empty());
        assert(row_views(out@) + Seq::<RowView>::empty() =~= row_views(out@));
    }
}

/// The lines of the tree of these keys, each beginning with `prefix`: the
/// keys are put together by the directory that they lie in at the top,
/// the directories in the order of the dictionary; the keys without a
/// directory get a line each; a directory gets a line, and below it the
/// tree of the keys in it, further in.
pub fn tree_rows(entries: &Vec<String>, prefix: &str) -> (r: Vec<TreeRow>)
    ensures
        row_views(r@) == tree_of(texts(entries@), prefix@),
{
    let (_, depth) = group_entries(entries);
    let mut out: Vec<TreeRow> = Vec::new();
    assert(row_views(out@) =~= Seq::empty());
    append_tree(&mut out, entries, prefix, depth);
    assert(Seq::<RowView>::empty() + tree_of(texts(entries@), prefix@) =~= tree_of(
        texts(entries@),
        prefix@,
    ));
    out
}

/// What stands before the first slash of a key, or all of it where it has
/// none.
pub open spec fn first_part(entry: Seq<char>) -> Seq<char> {
    split(entry, '/')[0]
}

/// The keys by what stands before their first slash, in the order of the
/// dictionary.
pub open spec fn grouped_by_first(entries: Seq<Seq<char>>) -> Seq<Group>
    decreases entries.len(),
{
    if entries.len() == 0 {
        Seq::empty()
    } else {
        add_to_groups(
            grouped_by_first(entries.drop_last()),
            first_part(entries.last()),
            entries.last(),
        )
    }
}

/// A list of names with numbers, with one more put in behind the last
/// whose number is not smaller.
pub open spec fn insert_by_count(list: Seq<(Seq<char>, nat)>, item: (Seq<char>, nat)) -> Seq<
    (Seq<char>, nat),
>
    decreases list.len(),
{
    if list.len() == 0 {
        seq![item]
    } else if list[0].1 < item.1 {
        seq![item] + list
    } else {
        seq![list[0]] + insert_by_count(list.drop_first(), item)
    }
}

/// The first `n` groups as names with the number of their keys, the
/// largest number first; where two have the same number, the one whose
/// name comes first in the dictionary.
pub open spec fn by_count(groups: Seq<Group>, n: int) -> Seq<(Seq<char>, nat)>
    decreases n,
{
    if n <= 0 {
        Seq::empty()
    } else {
        insert_by_count(by_count(groups, n - 1), (groups[n - 1].0, groups[n - 1].1.len()))
    }
}

/// The directories at the top of a list of keys with the number of keys in
/// each, the largest number first, and at most `limit` of them.
pub open spec fn top_directories_of(entries: Seq<Seq<char>>, limit: nat) -> Seq<(Seq<char>, nat)> {
    let all = by_count(grouped_by_first(entries), grouped_by_first(entries).len() as int);
    if all.len() <= limit {
        all
    } else {
        all.take(limit as int)
    }
}

/// The views of a list of names with numbers, in order.
pub open spec fn count_views(list: Seq<(String, usize)>) -> Seq<(Seq<char>, nat)> {
    list.map_values(|c: (String, usize)| (c.0@, c.1 as nat))
}

/// Puts a name with its number into a list, behind the last whose number
/// is not smaller.
fn insert_count(list: &mut Vec<(String, usize)>, name: String, count: usize)
    ensures
        count_views(final(list)@) == insert_by_count(
            count_views(old(list)@),
            (name@, count as nat),
        ),
{
    let ghost start = count_views(list@);
    let ghost item = (name@, count as nat);
    let mut i: usize = 0;
    assert(start.skip(0) =~= start);
    assert(start.take(0) + insert_by_count(start, item) =~= insert_by_count(start, item));
    while i < list.len() && list[i].1 >= count
        invariant
            i <= list.len(),
            list@ == old(list)@,
            start == count_views(list@),
            item == (name@, count as nat),
            insert_by_count(start, item) == start.take(i as int) + insert_by_count(
                start.skip(i as int),
                item,
            ),
        decreases list.len() - i,
    {
        proof {
            let rest = start.skip(i as int);
            assert(rest[0] == start[i as int]);
            assert(start[i as int] == (list@[i as int].0@, list@[i as int].1 as nat));
            assert(rest.drop_first() =~= start.skip(i + 1));
            assert(start.take(i + 1) =~= start.take(i as int) + seq![rest[0]]);
            assert(rest.len() > 0 && rest[0].1 >= item.1);
            assert(insert_by_count(rest, item) == seq![rest[0]] + insert_by_count(
                rest.drop_first(),
                item,
            ));
            assert(start.take(i as int) + (seq![rest[0]] + insert_by_count(
                rest.drop_first(),
                item,
            )) =~= start.take(i + 1) + insert_by_count(start.skip(i + 1), item));
        }
        i += 1;
    }
    proof {
        let rest = start.skip(i as int);
        if i < list@.len() {
            assert(rest[0] == start[i as int]);
            assert(start[i as int] == (list@[i as int].0@, list@[i as int].1 as nat));
            assert(insert_by_count(rest, item) == seq![item] + rest);
        } else {
            assert(rest =~= Seq::empty());
        }
        assert(start.take(i as int) + (seq![item] + rest) =~= start.insert(i as int, item));
    }
    list.insert(i, (name, count));
    assert(count_views(list@) =~= start.insert(i as int, item));
}

/// The directories at the top of a list of keys with the number of keys in
/// each, the largest number first, and at most `limit` of them.
pub fn top_directories(entries: &Vec<String>, limit: usize) -> (r: Vec<(String, usize)>)
    ensures
        count_views(r@) == top_directories_of(texts(entries@), limit as nat),
{
    let mut buckets: Vec<Bucket> = Vec::new();
    let mut i: usize = 0;
    assert(texts(entries@).take(0) =~= Seq::empty());
    assert(buckets_view(buckets@) =~= Seq::empty());
    while i < entries.len()
        invariant
            i <= entries.len(),
            buckets_view(buckets@) == grouped_by_first(texts(entries@).take(i as int)),
        decreases entries.len() - i,
    {
        proof {
            let next = texts(entries@).take(i + 1);
            assert(next.drop_last() =~= texts(entries@).take(i as int));
            assert(next.last() == entries@[i as int]@);
        }
        let mut parts = split_text(entries[i].as_str(), '/');
        let ghost all = texts(parts@);
        let first = parts.swap_remove(0);
        assert(first@ == all[0]);
        add_to_buckets(&mut buckets, first, entries[i].clone());
        i += 1;
    }
    assert(texts(entries@).take(entries.len() as int) =~= texts(entries@));
    let ghost groups = buckets_view(buckets@);
    let mut counted: Vec<(String, usize)> = Vec::new();
    let mut k: usize = 0;
    assert(count_views(counted@) =~= Seq::empty());
    while k < buckets.len()
        invariant
            k <= buckets.len(),
            groups == buckets_view(buckets@),
            count_views(counted@) == by_count(groups, k as int),
        decreases buckets.len() - k,
    {
        assert(groups[k as int] == (buckets@[k as int].key@, texts(buckets@[k as int].children@)));
        insert_count(&mut counted, buckets[k].key.clone(), buckets[k].children.len());
        k += 1;
    }
    if counted.len() > limit {
        let ghost before = count_views(counted@);
        counted.truncate(limit);
        assert(count_views(counted@) =~= before.take(limit as int));
    }
    counted
}

} // verus!
