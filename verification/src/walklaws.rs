//! Which lines a dumpfile has, and in which order, whatever the tree is.

use vstd::prelude::*;
use crate::bytemap::{rank, rank_facts, value_at};
use crate::bytestr::{has_byte, lex_lt, lex_lt_irreflexive, split, split_last, split_whole};
use crate::dumpfile::{
    directory_fields, dump, hardlink_fields, leaf_fields, leaves_of, record_fields, records_text, spaced,
    walk_directory, walk_entries, walk_leaf, walk_tree, write_dumpfile, Leaves, Record, Walk,
};
use crate::dumplaws::{ids_not_empty, names_valid, names_valid_push, split_extend, text_child, text_of};
use crate::error::Error;
use crate::fsverity::FsVerityHashValue;
use crate::io::ByteSink;
use crate::linelaws::record_plain;
use crate::path::slashed;
use crate::tree::{
    entries_sorted, ids_below, links_in, subdirs, tree_wf, ContentModel, FileSystem, FileSystemModel,
    LeafContent, NodeModel, RegularFile,
};
use crate::treelaws::{last_or_before, node_in, node_in_last, node_of, sorted_before};

verus! {

/// An absolute path: a slash before each name, and a lone slash where there is none.
pub open spec fn spelled(names: Seq<Seq<u8>>) -> Seq<u8> {
    if names.len() == 0 {
        seq![47u8]
    } else {
        spelled_names(names)
    }
}

/// Names with a slash before each.
pub open spec fn spelled_names(names: Seq<Seq<u8>>) -> Seq<u8>
    decreases names.len(),
{
    if names.len() == 0 {
        seq![]
    } else {
        spelled_names(names.drop_last()) + seq![47u8] + names.last()
    }
}

/// The number, as far as the machine counts.
pub open spec fn capped(n: nat) -> usize {
    if n > usize::MAX {
        usize::MAX
    } else {
        n as usize
    }
}

/// A path comes before another where it is a part of the way to it, or where the first name that
/// differs comes before the other.
pub open spec fn comes_before(a: Seq<Seq<u8>>, b: Seq<Seq<u8>>) -> bool
    decreases a.len(),
{
    if b.len() == 0 {
        false
    } else if a.len() == 0 {
        true
    } else if a[0] != b[0] {
        lex_lt(a[0], b[0])
    } else {
        comes_before(a.drop_first(), b.drop_first())
    }
}

/// The line at an index is the right one, where `paths` are those of all lines: that of the directory
/// that its path leads to, with two names and one for each directory in it; that of the leaf, with all
/// of its names counted, where no line before it is for the same leaf; and otherwise one that leads to
/// the path of the first line for the leaf.
pub open spec fn line_is_right(fs: FileSystemModel, paths: Seq<Seq<Seq<u8>>>, i: int, line: Seq<u8>) -> bool {
    match node_of(fs.root, paths[i]) {
        Some(NodeModel::Directory(d)) => line == spaced(
            directory_fields(spelled(paths[i]), d.stat, capped(2 + subdirs(d.entries))),
        ),
        Some(NodeModel::Leaf(id)) => {
            &&& (forall|j: int| 0 <= j < i ==> node_of(fs.root, #[trigger] paths[j]) != Some(NodeModel::Leaf(id)))
                ==> line == spaced(
                leaf_fields(
                    spelled(paths[i]),
                    fs.leaves[id].stat,
                    fs.leaves[id].content,
                    capped(links_in(fs.root.entries, id)),
                ),
            )
            &&& forall|j: int|
                0 <= j < i && node_of(fs.root, #[trigger] paths[j]) == Some(NodeModel::Leaf(id)) && (forall|k: int|
                    0 <= k < j ==> node_of(fs.root, #[trigger] paths[k]) != Some(NodeModel::Leaf(id))) ==> line
                    == spaced(hardlink_fields(spelled(paths[i]), spelled(paths[j])))
        },
        None => false,
    }
}

/// A text has a line for each path in the tree, in order, and nothing else.
pub open spec fn tells_tree(text: Seq<u8>, fs: FileSystemModel, paths: Seq<Seq<Seq<u8>>>) -> bool {
    let lines = split(text, 10);
    &&& lines.len() == paths.len() + 1
    &&& lines.last().len() == 0
    &&& paths.len() > 0 && paths[0].len() == 0
    &&& forall|i: int, j: int| 0 <= i < j < paths.len() ==> comes_before(#[trigger] paths[i], #[trigger] paths[j])
    &&& forall|names: Seq<Seq<u8>>| (#[trigger] node_of(fs.root, names) is Some <==> paths.contains(names))
    &&& forall|i: int| 0 <= i < paths.len() ==> line_is_right(fs, paths, i, #[trigger] lines[i])
}

/// All that stands below some entries, with its path: each entry before what is in it.
spec fn listing(at: Seq<Seq<u8>>, entries: Seq<(Seq<u8>, NodeModel)>) -> Seq<(Seq<Seq<u8>>, NodeModel)>
    decreases entries,
{
    if entries.len() == 0 {
        seq![]
    } else {
        let path = at.push(entries.last().0);
        listing(at, entries.drop_last()).push((path, entries.last().1)) + match entries.last().1 {
            NodeModel::Directory(d) => listing(path, d.entries),
            NodeModel::Leaf(_) => seq![],
        }
    }
}

/// The lines of some listed nodes.
spec fn walk_list(walk: Walk, list: Seq<(Seq<Seq<u8>>, NodeModel)>, all: Leaves) -> Walk
    decreases list.len(),
{
    if list.len() == 0 {
        walk
    } else {
        let before = walk_list(walk, list.drop_last(), all);
        match list.last().1 {
            NodeModel::Directory(d) => walk_directory(text_of(list.last().0), d, before),
            NodeModel::Leaf(id) => walk_leaf(text_of(list.last().0), id, all, before),
        }
    }
}

proof fn walk_list_append(
    walk: Walk,
    a: Seq<(Seq<Seq<u8>>, NodeModel)>,
    b: Seq<(Seq<Seq<u8>>, NodeModel)>,
    all: Leaves,
)
    ensures
        walk_list(walk, a + b, all) == walk_list(walk_list(walk, a, all), b, all),
    decreases b.len(),
{
    if b.len() == 0 {
        assert(a + b =~= a);
    } else {
        walk_list_append(walk, a, b.drop_last(), all);
        assert((a + b).drop_last() =~= a + b.drop_last());
    }
}

/// Walking through entries is walking through what is listed of them.
proof fn walk_is_listed(at: Seq<Seq<u8>>, entries: Seq<(Seq<u8>, NodeModel)>, all: Leaves, walk: Walk)
    requires
        names_valid(at),
        entries_sorted(entries),
    ensures
        walk_entries(text_of(at), entries, all, walk) == walk_list(walk, listing(at, entries), all),
    decreases entries,
{
    if entries.len() > 0 {
        sorted_before(entries);
        let front = entries.drop_last();
        let (name, node) = entries.last();
        let path = at.push(name);
        walk_is_listed(at, front, all, walk);
        text_child(at, name);
        names_valid_push(at, name);
        let head = listing(at, front).push((path, node));
        assert(head.drop_last() =~= listing(at, front));
        if let NodeModel::Directory(d) = node {
            let before = walk_list(walk, head, all);
            walk_is_listed(path, d.entries, all, before);
            walk_list_append(walk, head, listing(path, d.entries), all);
        } else {
            assert(head + Seq::<(Seq<Seq<u8>>, NodeModel)>::empty() =~= head);
        }
    }
}

/// The listed paths start with the path of the directory, and lead where the names after that lead.
proof fn listed_is_there(at: Seq<Seq<u8>>, entries: Seq<(Seq<u8>, NodeModel)>, i: int)
    requires
        entries_sorted(entries),
        0 <= i < listing(at, entries).len(),
    ensures
        ({
            let (path, node) = listing(at, entries)[i];
            &&& path.len() > at.len()
            &&& path.take(at.len() as int) == at
            &&& node_in(entries, path.skip(at.len() as int)) == Some(node)
        }),
    decreases entries,
{
    sorted_before(entries);
    let front = entries.drop_last();
    let (name, node) = entries.last();
    let below = at.push(name);
    let n = listing(at, front).len() as int;
    let (path, found) = listing(at, entries)[i];
    last_or_before(entries, name);
    if i < n {
        listed_is_there(at, front, i);
        assert(listing(at, entries)[i] == listing(at, front)[i]);
        let rest = path.skip(at.len() as int);
        node_in_last(entries, rest);
        assert(rest[0] != name) by {
            if rest[0] == name {
                assert(value_at(front, name) is None);
            }
        }
    } else if i == n {
        let rest = path.skip(at.len() as int);
        assert(path == below);
        assert(path.take(at.len() as int) =~= at);
        assert(rest =~= seq![name]);
        node_in_last(entries, rest);
    } else if let NodeModel::Directory(d) = node {
        listed_is_there(below, d.entries, i - n - 1);
        assert(listing(at, entries)[i] == listing(below, d.entries)[i - n - 1]);
        let rest = path.skip(at.len() as int);
        assert(path.take(at.len() as int) =~= path.take(below.len() as int).take(at.len() as int));
        assert(path.take(at.len() as int) =~= at);
        assert(path.take(below.len() as int)[at.len() as int] == name);
        assert(rest[0] == name);
        assert(rest.drop_first() =~= path.skip(below.len() as int));
        node_in_last(entries, rest);
    }
}

/// Whatever names lead to is listed.
proof fn there_is_listed(at: Seq<Seq<u8>>, entries: Seq<(Seq<u8>, NodeModel)>, names: Seq<Seq<u8>>) -> (i: int)
    requires
        entries_sorted(entries),
        node_in(entries, names) is Some,
    ensures
        0 <= i < listing(at, entries).len(),
        listing(at, entries)[i] == (at + names, node_in(entries, names)->0),
    decreases entries,
{
    if entries.len() == 0 {
        rank_facts(entries, names[0]);
        0
    } else {
        sorted_before(entries);
        let front = entries.drop_last();
        let (name, node) = entries.last();
        let n = listing(at, front).len() as int;
        node_in_last(entries, names);
        if names[0] != name {
            let i = there_is_listed(at, front, names);
            assert(listing(at, entries)[i] == listing(at, front)[i]);
            i
        } else if names.len() == 1 {
            assert(at + names =~= at.push(name));
            n
        } else {
            let d = node->Directory_0;
            let i = there_is_listed(at.push(name), d.entries, names.drop_first());
            assert(at.push(name) + names.drop_first() =~= at + names);
            assert(listing(at, entries)[n + 1 + i] == listing(at.push(name), d.entries)[i]);
            n + 1 + i
        }
    }
}

/// Paths with the same start compare as what follows.
proof fn same_start_compares(start: Seq<Seq<u8>>, a: Seq<Seq<u8>>, b: Seq<Seq<u8>>)
    ensures
        comes_before(start + a, start + b) == comes_before(a, b),
    decreases start.len(),
{
    if start.len() == 0 {
        assert(start + a =~= a);
        assert(start + b =~= b);
    } else {
        same_start_compares(start.drop_first(), a, b);
        assert((start + a).drop_first() =~= start.drop_first() + a);
        assert((start + b).drop_first() =~= start.drop_first() + b);
    }
}

/// What is listed stands in order.
proof fn listed_in_order(at: Seq<Seq<u8>>, entries: Seq<(Seq<u8>, NodeModel)>, i: int, j: int)
    requires
        entries_sorted(entries),
        0 <= i < j < listing(at, entries).len(),
    ensures
        comes_before(listing(at, entries)[i].0, listing(at, entries)[j].0),
    decreases entries,
{
    sorted_before(entries);
    let front = entries.drop_last();
    let (name, node) = entries.last();
    let below = at.push(name);
    let all = listing(at, entries);
    let n = listing(at, front).len() as int;
    if j < n {
        listed_in_order(at, front, i, j);
        assert(all[i] == listing(at, front)[i] && all[j] == listing(at, front)[j]);
    } else {
        listed_is_there(at, entries, i);
        listed_is_there(at, entries, j);
        let a = all[i].0.skip(at.len() as int);
        let b = all[j].0.skip(at.len() as int);
        assert(all[i].0 =~= at + a);
        assert(all[j].0 =~= at + b);
        same_start_compares(at, a, b);
        assert(b[0] == name) by {
            if j == n {
                assert(all[j].0 == below);
            } else {
                let d = node->Directory_0;
                listed_is_there(below, d.entries, j - n - 1);
                assert(all[j] == listing(below, d.entries)[j - n - 1]);
                assert(all[j].0.take(below.len() as int)[at.len() as int] == name);
            }
        }
        if i < n {
            listed_is_there(at, front, i);
            assert(all[i] == listing(at, front)[i]);
            let k = rank(front, a[0]) as int;
            rank_facts(front, a[0]);
            assert(front[k].0 == a[0]);
            assert(k < front.len() && front[k] == entries[k]);
            assert(entries[entries.len() - 1].0 == name);
            assert(lex_lt(a[0], name));
            lex_lt_irreflexive(name);
            assert(comes_before(a, b));
        } else if i == n {
            assert(all[i].0 == below);
            assert(a =~= seq![name]);
            let d = node->Directory_0;
            listed_is_there(below, d.entries, j - n - 1);
            assert(all[j] == listing(below, d.entries)[j - n - 1]);
            assert(b.len() > 1);
            assert(a.drop_first() =~= Seq::<Seq<u8>>::empty());
            assert(comes_before(a.drop_first(), b.drop_first()));
            assert(comes_before(a, b));
        } else {
            let d = node->Directory_0;
            listed_in_order(below, d.entries, i - n - 1, j - n - 1);
            assert(all[i] == listing(below, d.entries)[i - n - 1]);
            assert(all[j] == listing(below, d.entries)[j - n - 1]);
        }
    }
}

/// How often a leaf is listed.
spec fn listed(list: Seq<(Seq<Seq<u8>>, NodeModel)>, id: int) -> nat
    decreases list.len(),
{
    if list.len() == 0 {
        0
    } else {
        listed(list.drop_last(), id) + (if list.last().1 == NodeModel::Leaf(id) {
            1nat
        } else {
            0nat
        })
    }
}

proof fn listed_append(a: Seq<(Seq<Seq<u8>>, NodeModel)>, b: Seq<(Seq<Seq<u8>>, NodeModel)>, id: int)
    ensures
        listed(a + b, id) == listed(a, id) + listed(b, id),
    decreases b.len(),
{
    if b.len() == 0 {
        assert(a + b =~= a);
    } else {
        listed_append(a, b.drop_last(), id);
        assert((a + b).drop_last() =~= a + b.drop_last());
    }
}

/// A leaf is listed once for each of its names.
proof fn listed_by_names(at: Seq<Seq<u8>>, entries: Seq<(Seq<u8>, NodeModel)>, id: int)
    ensures
        listed(listing(at, entries), id) == links_in(entries, id),
    decreases entries,
{
    if entries.len() > 0 {
        let front = entries.drop_last();
        let (name, node) = entries.last();
        let path = at.push(name);
        listed_by_names(at, front, id);
        let head = listing(at, front).push((path, node));
        assert(head.drop_last() =~= listing(at, front));
        if let NodeModel::Directory(d) = node {
            listed_by_names(path, d.entries, id);
            listed_append(head, listing(path, d.entries), id);
        } else {
            assert(head + Seq::<(Seq<Seq<u8>>, NodeModel)>::empty() =~= head);
        }
    }
}

/// A leaf that is listed in some places is listed as often.
proof fn listed_in_places(list: Seq<(Seq<Seq<u8>>, NodeModel)>, id: int, i: int, j: int)
    requires
        0 <= i < j < list.len(),
        list[i].1 == NodeModel::Leaf(id),
        list[j].1 == NodeModel::Leaf(id),
    ensures
        listed(list, id) >= 2,
    decreases list.len(),
{
    let front = list.drop_last();
    if j < front.len() {
        listed_in_places(front, id, i, j);
    } else {
        listed_once(front, id, i);
    }
}

proof fn listed_once(list: Seq<(Seq<Seq<u8>>, NodeModel)>, id: int, i: int)
    requires
        0 <= i < list.len(),
        list[i].1 == NodeModel::Leaf(id),
    ensures
        listed(list, id) >= 1,
    decreases list.len(),
{
    if i < list.len() - 1 {
        listed_once(list.drop_last(), id, i);
    }
}

/// The first of `n` listed nodes that is the leaf, or a negative number where none is.
spec fn first_listed(list: Seq<(Seq<Seq<u8>>, NodeModel)>, id: int, n: int) -> int
    decreases n,
{
    if n <= 0 {
        -1
    } else {
        let before = first_listed(list, id, n - 1);
        if before >= 0 {
            before
        } else if list[n - 1].1 == NodeModel::Leaf(id) {
            n - 1
        } else {
            -1
        }
    }
}

proof fn first_listed_facts(list: Seq<(Seq<Seq<u8>>, NodeModel)>, id: int, n: int)
    requires
        0 <= n <= list.len(),
    ensures
        first_listed(list, id, n) < n || n == 0,
        first_listed(list, id, n) >= 0 ==> list[first_listed(list, id, n)].1 == NodeModel::Leaf(id),
        first_listed(list, id, n) >= 0 ==> forall|j: int|
            0 <= j < first_listed(list, id, n) ==> (#[trigger] list[j]).1 != NodeModel::Leaf(id),
        first_listed(list, id, n) < 0 ==> forall|j: int| 0 <= j < n ==> (#[trigger] list[j]).1 != NodeModel::Leaf(id),
    decreases n,
{
    if n > 0 {
        first_listed_facts(list, id, n - 1);
    }
}

/// The record at an index of a list.
spec fn record_at(list: Seq<(Seq<Seq<u8>>, NodeModel)>, all: Leaves, i: int) -> Record {
    match list[i].1 {
        NodeModel::Directory(d) => Record::Directory {
            path: text_of(list[i].0),
            stat: d.stat,
            nlink: capped(2 + subdirs(d.entries)),
        },
        NodeModel::Leaf(id) => if first_listed(list, id, i) >= 0 {
            Record::Hardlink { path: text_of(list[i].0), target: text_of(list[first_listed(list, id, i)].0) }
        } else {
            Record::Leaf { path: text_of(list[i].0), leaf: all.leaves[id], nlink: all.counts[id] }
        },
    }
}

/// What was seen of the leaf `id` after `n` listed nodes.
spec fn seen_at(list: Seq<(Seq<Seq<u8>>, NodeModel)>, id: int, n: int) -> Option<Seq<u8>> {
    if first_listed(list, id, n) >= 0 {
        Some(text_of(list[first_listed(list, id, n)].0))
    } else {
        None
    }
}

/// Walking through the first `n` listed nodes gives their records.
proof fn list_walked(list: Seq<(Seq<Seq<u8>>, NodeModel)>, all: Leaves, start: Walk, n: int)
    requires
        0 <= n <= list.len(),
        start.records.len() == 0,
        start.seen.len() == all.leaves.len(),
        all.counts.len() == all.leaves.len(),
        forall|id: int| 0 <= id < start.seen.len() ==> #[trigger] start.seen[id] is None,
        forall|i: int|
            0 <= i < list.len() ==> ((#[trigger] list[i]).1 matches NodeModel::Leaf(id) ==> 0 <= id < all.leaves.len()),
        forall|id: int| 0 <= id < all.leaves.len() ==> #[trigger] all.counts[id] == capped(listed(list, id)),
    ensures
        ({
            let walk = walk_list(start, list.take(n), all);
            &&& walk.records.len() == n
            &&& walk.seen.len() == all.leaves.len()
            &&& forall|id: int|
                0 <= id < all.leaves.len() && all.counts[id] > 1 ==> #[trigger] walk.seen[id] == seen_at(list, id, n)
            &&& forall|i: int| 0 <= i < n ==> #[trigger] walk.records[i] == record_at(list, all, i)
        }),
    decreases n,
{
    if n == 0 {
        assert(list.take(0) =~= seq![]);
    } else {
        list_walked(list, all, start, n - 1);
        assert(list.take(n).drop_last() =~= list.take(n - 1));
        let before = walk_list(start, list.take(n - 1), all);
        let after = walk_list(start, list.take(n), all);
        let i = n - 1;
        assert(list.take(n).last() == list[i]);
        if let NodeModel::Leaf(id) = list[i].1 {
            first_listed_facts(list, id, i);
            let first = first_listed(list, id, i);
            if first >= 0 {
                listed_in_places(list, id, first, i);
                assert(all.counts[id] > 1);
            }
            assert(all.counts[id] > 1 ==> before.seen[id] == seen_at(list, id, i));
            assert(after.records[i] == record_at(list, all, i));
            assert forall|x: int| 0 <= x < all.leaves.len() && all.counts[x] > 1 implies #[trigger] after.seen[x]
                == seen_at(list, x, n) by {
                assert(before.seen[x] == seen_at(list, x, i));
            }
        } else {
            assert(after.records[i] == record_at(list, all, i));
            assert forall|x: int| 0 <= x < all.leaves.len() && all.counts[x] > 1 implies #[trigger] after.seen[x]
                == seen_at(list, x, n) by {
                assert(before.seen[x] == seen_at(list, x, i));
            }
        }
        assert forall|k: int| 0 <= k < n implies #[trigger] after.records[k] == record_at(list, all, k) by {
            if k < i {
                assert(after.records[k] == before.records[k]);
            }
        }
    }
}

/// A path is written as it is spelled.
proof fn written_as_spelled(names: Seq<Seq<u8>>)
    ensures
        text_of(names) == spelled(names),
        slashed(names) == spelled_names(names),
    decreases names.len(),
{
    if names.len() > 0 {
        written_as_spelled(names.drop_last());
    }
}

/// The leaves that are listed are there.
proof fn listed_ids(at: Seq<Seq<u8>>, entries: Seq<(Seq<u8>, NodeModel)>, count: nat, i: int)
    requires
        ids_below(entries, count),
        0 <= i < listing(at, entries).len(),
    ensures
        listing(at, entries)[i].1 matches NodeModel::Leaf(id) ==> 0 <= id < count,
    decreases entries,
{
    let front = entries.drop_last();
    let (name, node) = entries.last();
    let n = listing(at, front).len() as int;
    assert(entries[entries.len() - 1] == entries.last());
    assert(ids_below(front, count)) by {
        assert forall|k: int| 0 <= k < front.len() implies match (#[trigger] front[k]).1 {
            NodeModel::Directory(d) => ids_below(d.entries, count),
            NodeModel::Leaf(id) => 0 <= id < count,
        } by {
            assert(front[k] == entries[k]);
        }
    }
    if i < n {
        listed_ids(at, front, count, i);
        assert(listing(at, entries)[i] == listing(at, front)[i]);
    } else if i > n {
        if let NodeModel::Directory(d) = node {
            listed_ids(at.push(name), d.entries, count, i - n - 1);
            assert(listing(at, entries)[i] == listing(at.push(name), d.entries)[i - n - 1]);
        }
    }
}

/// The lines of some records, each without its end.
spec fn lines_for(records: Seq<Record>) -> Seq<Seq<u8>> {
    Seq::new(records.len(), |i: int| spaced(record_fields(records[i])))
}

/// The record does not hold an empty object identifier.
spec fn fit_to_print(record: Record) -> bool {
    record matches Record::Leaf { leaf, .. } ==> (leaf.content matches ContentModel::External(id, _) ==> id.len() > 0)
}

/// The text of records comes apart into their lines.
proof fn text_in_lines(records: Seq<Record>)
    requires
        forall|i: int| 0 <= i < records.len() ==> fit_to_print(#[trigger] records[i]),
    ensures
        split(records_text(records), 10) == lines_for(records).push(seq![]),
    decreases records.len(),
{
    let none = Seq::<u8>::empty();
    if records.len() == 0 {
        split_whole(none, 10);
        assert(lines_for(records).push(none) =~= seq![none]);
    } else {
        let front = records.drop_last();
        let line = spaced(record_fields(records.last()));
        assert forall|i: int| 0 <= i < front.len() implies fit_to_print(#[trigger] front[i]) by {
            assert(front[i] == records[i]);
        }
        assert(fit_to_print(records[records.len() - 1]));
        text_in_lines(front);
        record_plain(records.last());
        let text = records_text(front);
        assert(!has_byte(line, 10));
        split_extend(text, 10, line);
        split_last(text + line, 10, none);
        assert(records_text(records) =~= text + line + seq![10u8] + none);
        assert(none + line =~= line);
        assert(lines_for(front).push(none).drop_last() =~= lines_for(front));
        assert(lines_for(front).push(line) =~= lines_for(records));
        assert(lines_for(records) + seq![none] =~= lines_for(records).push(none));
    }
}

/// The dumpfile of a tree has one line for each path in it, whatever is there: the root first, each
/// directory before what is in it, and names in their order. It has no other lines.
pub proof fn every_path_has_its_line(fs: FileSystemModel)
    requires
        tree_wf(fs),
        ids_not_empty(fs.leaves),
    ensures
        exists|paths: Seq<Seq<Seq<u8>>>| #[trigger] tells_tree(dump(fs), fs, paths),
{
    let none = Seq::<Seq<u8>>::empty();
    let all = leaves_of(fs);
    let root = seq![(none, NodeModel::Directory(fs.root))];
    let below = listing(none, fs.root.entries);
    let list = root + below;
    let start = Walk { records: seq![], seen: Seq::new(fs.leaves.len(), |id: int| None) };
    let walk = walk_tree(fs);
    written_as_spelled(none);
    assert(walk_list(start, root, all) == walk_directory(text_of(none), fs.root, start)) by {
        assert(root.drop_last() =~= seq![]);
        assert(root.last() == (none, NodeModel::Directory(fs.root)));
        assert(walk_list(start, root.drop_last(), all) == start);
    }
    walk_is_listed(none, fs.root.entries, all, walk_list(start, root, all));
    walk_list_append(start, root, below, all);
    assert(walk == walk_list(start, list, all));
    assert forall|id: int| 0 <= id < all.leaves.len() implies #[trigger] all.counts[id] == capped(listed(list, id)) by {
        listed_append(root, below, id);
        listed_by_names(none, fs.root.entries, id);
        assert(root.drop_last() =~= seq![]);
        assert(listed(root.drop_last(), id) == 0);
        assert(listed(root, id) == 0);
    }
    assert forall|i: int| 0 <= i < list.len() implies ((#[trigger] list[i]).1 matches NodeModel::Leaf(id) ==> 0 <= id
        < all.leaves.len()) by {
        if i > 0 {
            listed_ids(none, fs.root.entries, fs.leaves.len(), i - 1);
            assert(list[i] == below[i - 1]);
        }
    }
    list_walked(list, all, start, list.len() as int);
    assert(list.take(list.len() as int) =~= list);
    assert forall|i: int| 0 <= i < walk.records.len() implies fit_to_print(#[trigger] walk.records[i]) by {
        assert(walk.records[i] == record_at(list, all, i));
        assert(list[i] == list[i]);
    }
    text_in_lines(walk.records);
    let paths = Seq::new(list.len(), |i: int| list[i].0);
    assert forall|i: int| 0 <= i < list.len() implies node_of(fs.root, #[trigger] paths[i]) == Some(list[i].1) by {
        if i > 0 {
            listed_is_there(none, fs.root.entries, i - 1);
            assert(list[i] == below[i - 1]);
            assert(paths[i].skip(0) =~= paths[i]);
        }
    }
    assert forall|i: int, j: int| 0 <= i < j < paths.len() implies comes_before(
        #[trigger] paths[i],
        #[trigger] paths[j],
    ) by {
        listed_is_there(none, fs.root.entries, j - 1);
        assert(list[j] == below[j - 1]);
        if i > 0 {
            listed_in_order(none, fs.root.entries, i - 1, j - 1);
            assert(list[i] == below[i - 1]);
        }
    }
    assert forall|names: Seq<Seq<u8>>| (#[trigger] node_of(fs.root, names) is Some <==> paths.contains(names)) by {
        if node_of(fs.root, names) is Some {
            if names.len() == 0 {
                assert(names =~= none);
                assert(paths[0] == names);
            } else {
                let i = there_is_listed(none, fs.root.entries, names);
                assert(none + names =~= names);
                assert(list[i + 1] == below[i]);
                assert(paths[i + 1] == names);
            }
        }
        if paths.contains(names) {
            let i = choose|i: int| 0 <= i < paths.len() && paths[i] == names;
            assert(node_of(fs.root, paths[i]) == Some(list[i].1));
        }
    }
    let lines = split(dump(fs), 10);
    assert(lines == lines_for(walk.records).push(seq![]));
    assert forall|i: int| 0 <= i < paths.len() implies line_is_right(fs, paths, i, #[trigger] lines[i]) by {
        assert(lines[i] == spaced(record_fields(walk.records[i])));
        assert(walk.records[i] == record_at(list, all, i));
        assert(node_of(fs.root, paths[i]) == Some(list[i].1));
        written_as_spelled(paths[i]);
        if let NodeModel::Leaf(id) = list[i].1 {
            first_listed_facts(list, id, i);
            let first = first_listed(list, id, i);
            assert forall|j: int| 0 <= j < i implies (node_of(fs.root, #[trigger] paths[j]) == Some(
                NodeModel::Leaf(id),
            ) <==> list[j].1 == NodeModel::Leaf(id)) by {
                assert(node_of(fs.root, paths[j]) == Some(list[j].1));
            }
            if first >= 0 {
                written_as_spelled(paths[first]);
                assert(node_of(fs.root, paths[first]) == Some(NodeModel::Leaf(id)));
                assert forall|j: int|
                    0 <= j < i && node_of(fs.root, #[trigger] paths[j]) == Some(NodeModel::Leaf(id)) && (forall|k: int|
                        0 <= k < j ==> node_of(fs.root, #[trigger] paths[k]) != Some(NodeModel::Leaf(id))) implies j
                    == first by {
                    if first < j {
                        assert(node_of(fs.root, paths[first]) != Some(NodeModel::Leaf(id)));
                    } else if j < first {
                        assert(list[j].1 != NodeModel::Leaf(id));
                    }
                }
            } else {
                assert forall|j: int| 0 <= j < i implies node_of(fs.root, #[trigger] paths[j]) != Some(
                    NodeModel::Leaf(id),
                ) by {
                    assert(list[j].1 != NodeModel::Leaf(id));
                }
            }
        }
    }
    assert(tells_tree(dump(fs), fs, paths));
}

/// What is written of a file system is a line for each path in it, after what was there.
pub proof fn tree_is_written<W: ByteSink, ObjectID: FsVerityHashValue>(
    writer: &mut W,
    fs: &FileSystem<ObjectID>,
    r: Result<(), Error>,
)
    requires
        fs.wf(),
        old(writer).reliable(),
        call_ensures(write_dumpfile::<W, ObjectID>, (writer, fs), r),
    ensures
        r is Ok,
        exists|text: Seq<u8>, paths: Seq<Seq<Seq<u8>>>|
            final(writer).written() == old(writer).written() + text && #[trigger] tells_tree(text, fs@, paths),
{
    ObjectID::size_bounds();
    assert forall|i: int| 0 <= i < fs@.leaves.len() implies ((#[trigger] fs@.leaves[i]).content matches
    ContentModel::External(id, _) ==> id.len() > 0) by {
        if let LeafContent::Regular(RegularFile::External(id, _)) = fs.leaves@[i].content {
            id.bytes_size();
        }
    }
    every_path_has_its_line(fs@);
    let paths = choose|paths: Seq<Seq<Seq<u8>>>| #[trigger] tells_tree(dump(fs@), fs@, paths);
    assert(tells_tree(dump(fs@), fs@, paths));
}

/// Printing a file system makes up the metadata of its root first, and then writes it.
pub proof fn tree_is_printed<W: ByteSink, ObjectID: FsVerityHashValue>(
    fs: &mut FileSystem<ObjectID>,
    output: &mut W,
    r: Result<(), Error>,
)
    requires
        old(fs).wf(),
        old(output).reliable(),
        call_ensures(FileSystem::<ObjectID>::print_dumpfile::<W>, (fs, output), r),
    ensures
        r is Ok,
        exists|text: Seq<u8>, paths: Seq<Seq<Seq<u8>>>|
            final(output).written() == old(output).written() + text && #[trigger] tells_tree(text, final(fs)@, paths),
{
    ObjectID::size_bounds();
    let after = *final(fs);
    assert forall|i: int| 0 <= i < after@.leaves.len() implies ((#[trigger] after@.leaves[i]).content matches
    ContentModel::External(id, _) ==> id.len() > 0) by {
        if let LeafContent::Regular(RegularFile::External(id, _)) = after.leaves@[i].content {
            id.bytes_size();
        }
    }
    every_path_has_its_line(after@);
    let paths = choose|paths: Seq<Seq<Seq<u8>>>| #[trigger] tells_tree(dump(after@), after@, paths);
    assert(tells_tree(dump(after@), after@, paths));
}

} // verus!
