//! What paths lead to in a tree, and what changes there.

use vstd::prelude::*;
use crate::bytemap::{has_key, in_order, put_facts, put_last, rank, rank_at, rank_facts, rank_is, value_at};
use crate::bytestr::lex_lt;
use crate::error::Error;
use crate::fsverity::FsVerityHashValue;
use crate::maplaws::found_where_it_stands;
use crate::path::{dotdot, parts_of, valid_name};
use crate::tree::{
    dir_at, dir_sorted, entries_sorted, ids_below, later, links_in, newest_in, subdirs, with_dir_at, ContentModel, DirModel, Directory,
    FileSystem, Inode, LeafContent, LeafModel, NodeModel, RegularFile, Stat,
};

verus! {

/// What some names, from the first on, lead to among some entries.
pub open spec fn node_in(entries: Seq<(Seq<u8>, NodeModel)>, names: Seq<Seq<u8>>) -> Option<NodeModel>
    decreases names.len(),
{
    if names.len() == 0 {
        None
    } else if names.len() == 1 {
        value_at(entries, names[0])
    } else {
        match value_at(entries, names[0]) {
            Some(NodeModel::Directory(d)) => node_in(d.entries, names.drop_first()),
            _ => None,
        }
    }
}

/// What some names lead to from a directory: from none of them the directory itself.
pub open spec fn node_of(dir: DirModel, names: Seq<Seq<u8>>) -> Option<NodeModel> {
    if names.len() == 0 {
        Some(NodeModel::Directory(dir))
    } else {
        node_in(dir.entries, names)
    }
}

/// The step from a directory to what a name in it leads to.
proof fn node_of_step(dir: DirModel, names: Seq<Seq<u8>>)
    requires
        names.len() > 0,
    ensures
        node_of(dir, names) == (match value_at(dir.entries, names[0]) {
            Some(NodeModel::Directory(d)) => node_of(d, names.drop_first()),
            Some(NodeModel::Leaf(id)) => if names.len() == 1 {
                Some(NodeModel::Leaf(id))
            } else {
                None
            },
            None => None,
        }),
{
}

/// A directory is reached by names where they lead to a directory, without a way up among them; it is
/// an error of its own where they do not, where something else is in the way, and where there is a way
/// up.
pub proof fn directory_reached(dir: DirModel, names: Seq<Seq<u8>>)
    ensures
        match dir_at(dir, names) {
            Ok(d) => !names.contains(dotdot()) && node_of(dir, names) == Some(NodeModel::Directory(d)),
            Err(e) => {
                ||| e == Error::InvalidFilename && names.contains(dotdot())
                ||| e == Error::NotFound && exists|n: int|
                    0 < n <= names.len() && #[trigger] node_of(dir, names.take(n)) is None && node_of(
                        dir,
                        names.take(n - 1),
                    ) matches Some(NodeModel::Directory(_))
                ||| e == Error::NotADirectory && exists|n: int|
                    0 < n <= names.len() && #[trigger] node_of(dir, names.take(n)) matches Some(NodeModel::Leaf(_))
            },
        },
    decreases names.len(),
{
    if names.len() > 0 {
        let more = names.drop_first();
        node_of_step(dir, names);
        assert(names[0] == names.take(1)[0]);
        if names[0] == dotdot() {
            assert(names.contains(dotdot()));
        } else {
            node_of_step(dir, names.take(1));
            assert(names.take(1).drop_first() =~= Seq::<Seq<u8>>::empty());
            assert(names.take(0) =~= Seq::<Seq<u8>>::empty());
            match value_at(dir.entries, names[0]) {
                Some(NodeModel::Directory(d)) => {
                    directory_reached(d, more);
                    if names.contains(dotdot()) {
                        let i = choose|i: int| 0 <= i < names.len() && names[i] == dotdot();
                        assert(more[i - 1] == dotdot());
                    }
                    if more.contains(dotdot()) {
                        let i = choose|i: int| 0 <= i < more.len() && more[i] == dotdot();
                        assert(names[i + 1] == dotdot());
                    }
                    assert forall|n: int| 0 <= n <= more.len() implies node_of(dir, names.take(n + 1)) == node_of(
                        d,
                        #[trigger] more.take(n),
                    ) by {
                        let t = names.take(n + 1);
                        node_of_step(dir, t);
                        assert(t.drop_first() =~= more.take(n));
                        assert(t[0] == names[0]);
                    }
                    match dir_at(d, more) {
                        Err(Error::NotFound) => {
                            if !more.contains(dotdot()) {
                                let n = choose|n: int|
                                    0 < n <= more.len() && #[trigger] node_of(d, more.take(n)) is None && node_of(
                                        d,
                                        more.take(n - 1),
                                    ) matches Some(NodeModel::Directory(_));
                                assert(node_of(dir, names.take(n + 1)) is None);
                                assert(node_of(dir, names.take(n)) == node_of(d, more.take(n - 1)));
                            }
                        },
                        Err(Error::NotADirectory) => {
                            let n = choose|n: int|
                                0 < n <= more.len() && #[trigger] node_of(d, more.take(n)) matches Some(
                                    NodeModel::Leaf(_),
                                );
                            assert(node_of(dir, names.take(n + 1)) == node_of(d, more.take(n)));
                        },
                        _ => {},
                    }
                },
                Some(NodeModel::Leaf(_)) => {
                    assert(node_of(dir, names.take(1)) matches Some(NodeModel::Leaf(_)));
                },
                None => {
                    assert(node_of(dir, names.take(1)) is None);
                    assert(node_of(dir, names.take(0)) == Some(NodeModel::Directory(dir)));
                },
            }
        }
    }
}

/// What is found among entries in order: the last of them, or something among those before it.
pub proof fn last_or_before(entries: Seq<(Seq<u8>, NodeModel)>, key: Seq<u8>)
    requires
        in_order(entries),
        entries.len() > 0,
    ensures
        in_order(entries.drop_last()),
        value_at(entries, key) == (if key == entries.last().0 {
            Some(entries.last().1)
        } else {
            value_at(entries.drop_last(), key)
        }),
        value_at(entries.drop_last(), entries.last().0) is None,
{
    let front = entries.drop_last();
    let last = entries.last();
    assert forall|i: int, j: int| 0 <= i < j < front.len() implies lex_lt(
        #[trigger] front[i].0,
        #[trigger] front[j].0,
    ) by {
        assert(front[i] == entries[i] && front[j] == entries[j]);
    }
    assert forall|i: int| 0 <= i < front.len() implies lex_lt(#[trigger] front[i].0, last.0) by {
        assert(front[i] == entries[i]);
        assert(entries[entries.len() - 1] == last);
    }
    put_last(front, last.0, last.1);
    assert(front.push((last.0, last.1)) =~= entries);
    put_facts(front, last.0, last.1);
    rank_is(front, last.0, front.len() as int);
}

/// The same of what names lead to.
pub proof fn node_in_last(entries: Seq<(Seq<u8>, NodeModel)>, names: Seq<Seq<u8>>)
    requires
        in_order(entries),
        entries.len() > 0,
        names.len() > 0,
    ensures
        node_in(entries, names) == (if names[0] == entries.last().0 {
            if names.len() == 1 {
                Some(entries.last().1)
            } else {
                match entries.last().1 {
                    NodeModel::Directory(d) => node_in(d.entries, names.drop_first()),
                    NodeModel::Leaf(_) => None,
                }
            }
        } else {
            node_in(entries.drop_last(), names)
        }),
{
    last_or_before(entries, names[0]);
}

/// Entries in order, but for the last, are in order at any depth.
pub proof fn sorted_before(entries: Seq<(Seq<u8>, NodeModel)>)
    requires
        entries_sorted(entries),
        entries.len() > 0,
    ensures
        entries_sorted(entries.drop_last()),
        in_order(entries),
        entries.last().1 matches NodeModel::Directory(d) ==> entries_sorted(d.entries) && in_order(d.stat.xattrs),
        valid_name(entries.last().0),
{
    let front = entries.drop_last();
    last_or_before(entries, entries.last().0);
    assert forall|i: int| 0 <= i < front.len() implies valid_name((#[trigger] front[i]).0) && match front[i].1 {
        NodeModel::Directory(d) => in_order(d.stat.xattrs) && entries_sorted(d.entries),
        NodeModel::Leaf(_) => true,
    } by {
        assert(front[i] == entries[i]);
    }
    assert(entries[entries.len() - 1] == entries.last());
}

/// Where a directory is replaced, names that go another way lead where they led.
pub proof fn other_ways_kept(dir: DirModel, names: Seq<Seq<u8>>, new: DirModel, other: Seq<Seq<u8>>, n: int)
    requires
        dir_sorted(dir),
        dir_at(dir, names) is Ok,
        0 <= n < names.len(),
        n < other.len(),
        names[n] != other[n],
        names.take(n) == other.take(n),
    ensures
        node_of(with_dir_at(dir, names, new), other) == node_of(dir, other),
    decreases names.len(),
{
    let d = value_at(dir.entries, names[0])->Some_0->Directory_0;
    let below = with_dir_at(d, names.drop_first(), new);
    let after = with_dir_at(dir, names, new);
    put_facts(dir.entries, names[0], NodeModel::Directory(below));
    node_of_step(dir, other);
    node_of_step(after, other);
    if n > 0 {
        assert(names.take(n)[0] == other.take(n)[0]);
        rank_facts(dir.entries, names[0]);
        assert(names.drop_first().take(n - 1) =~= names.take(n).drop_first());
        assert(other.drop_first().take(n - 1) =~= other.take(n).drop_first());
        other_ways_kept(d, names.drop_first(), new, other.drop_first(), n - 1);
    }
}

/// Where a directory is replaced, names that go on from it lead on from the new one.
pub proof fn way_goes_on(dir: DirModel, names: Seq<Seq<u8>>, new: DirModel, more: Seq<Seq<u8>>)
    requires
        dir_sorted(dir),
        dir_at(dir, names) is Ok,
    ensures
        node_of(with_dir_at(dir, names, new), names + more) == node_of(new, more),
    decreases names.len(),
{
    if names.len() == 0 {
        assert(names + more =~= more);
    } else {
        let d = value_at(dir.entries, names[0])->Some_0->Directory_0;
        let below = with_dir_at(d, names.drop_first(), new);
        put_facts(dir.entries, names[0], NodeModel::Directory(below));
        rank_facts(dir.entries, names[0]);
        node_of_step(with_dir_at(dir, names, new), names + more);
        assert((names + more).drop_first() =~= names.drop_first() + more);
        way_goes_on(d, names.drop_first(), new, more);
    }
}

/// Where a directory is replaced, those on the way to it keep their metadata.
pub proof fn way_keeps_metadata(dir: DirModel, names: Seq<Seq<u8>>, new: DirModel, n: int)
    requires
        dir_sorted(dir),
        dir_at(dir, names) is Ok,
        0 <= n < names.len(),
    ensures
        node_of(dir, names.take(n)) matches Some(NodeModel::Directory(before)) && node_of(
            with_dir_at(dir, names, new),
            names.take(n),
        ) matches Some(NodeModel::Directory(after)) && after.stat == before.stat,
    decreases names.len(),
{
    if n > 0 {
        let d = value_at(dir.entries, names[0])->Some_0->Directory_0;
        let below = with_dir_at(d, names.drop_first(), new);
        let t = names.take(n);
        put_facts(dir.entries, names[0], NodeModel::Directory(below));
        rank_facts(dir.entries, names[0]);
        node_of_step(dir, t);
        node_of_step(with_dir_at(dir, names, new), t);
        assert(t[0] == names[0]);
        assert(t.drop_first() =~= names.drop_first().take(n - 1));
        way_keeps_metadata(d, names.drop_first(), new, n - 1);
    } else {
        assert(names.take(0) =~= Seq::<Seq<u8>>::empty());
    }
}

/// The time of a node.
pub open spec fn time_of(node: NodeModel, leaves: Seq<LeafModel>) -> i64 {
    match node {
        NodeModel::Directory(d) => d.stat.mtime,
        NodeModel::Leaf(id) => leaves[id].stat.mtime,
    }
}

/// The newest time is that of no name that is later than it, and is the start or that of some name.
pub proof fn newest_is_latest(entries: Seq<(Seq<u8>, NodeModel)>, leaves: Seq<LeafModel>, start: i64)
    requires
        entries_sorted(entries),
    ensures
        newest_in(entries, leaves, start) >= start,
        forall|names: Seq<Seq<u8>>|
            (#[trigger] node_in(entries, names) matches Some(node) ==> time_of(node, leaves) <= newest_in(
                entries,
                leaves,
                start,
            )),
        newest_in(entries, leaves, start) == start || exists|names: Seq<Seq<u8>>|
            #[trigger] node_in(entries, names) matches Some(node) && time_of(node, leaves) == newest_in(
                entries,
                leaves,
                start,
            ),
    decreases entries,
{
    let r = newest_in(entries, leaves, start);
    if entries.len() == 0 {
        assert forall|names: Seq<Seq<u8>>| #[trigger] node_in(entries, names) is None by {
            if names.len() > 0 {
                rank_facts(entries, names[0]);
            }
        }
    } else {
        sorted_before(entries);
        let front = entries.drop_last();
        let (name, node) = entries.last();
        let before = newest_in(front, leaves, start);
        newest_is_latest(front, leaves, start);
        last_or_before(entries, name);
        let one = seq![name];
        node_in_last(entries, one);
        assert(one[0] == name);
        if let NodeModel::Directory(d) = node {
            newest_is_latest(d.entries, leaves, later(before, d.stat.mtime));
        }
        assert forall|names: Seq<Seq<u8>>|
            (#[trigger] node_in(entries, names) matches Some(found) ==> time_of(found, leaves) <= r) by {
            if names.len() > 0 {
                node_in_last(entries, names);
                if names[0] == name && names.len() > 1 {
                    if let NodeModel::Directory(d) = node {
                        assert(node_in(entries, names) == node_in(d.entries, names.drop_first()));
                    }
                } else if names[0] != name {
                    assert(node_in(entries, names) == node_in(front, names));
                }
            }
        }
        if r != start {
            if r == before {
                let names = choose|names: Seq<Seq<u8>>|
                    #[trigger] node_in(front, names) matches Some(found) && time_of(found, leaves) == before;
                node_in_last(entries, names);
                assert(names[0] != name) by {
                    if names[0] == name {
                        assert(value_at(front, name) is None);
                    }
                }
                assert(node_in(entries, names) matches Some(found) && time_of(found, leaves) == r);
            } else if r == time_of(node, leaves) {
                assert(node_in(entries, one) == Some(node));
            } else if let NodeModel::Directory(d) = node {
                let names = choose|names: Seq<Seq<u8>>|
                    #[trigger] node_in(d.entries, names) matches Some(found) && time_of(found, leaves) == r;
                let longer = seq![name] + names;
                node_in_last(entries, longer);
                assert(longer.drop_first() =~= names);
                assert(node_in(entries, longer) matches Some(found) && time_of(found, leaves) == r);
            }
        }
    }
}

/// A further entry adds its own name to the names of a leaf where it leads to it, and all names below
/// it where it is a directory.
pub proof fn names_are_counted(entries: Seq<(Seq<u8>, NodeModel)>, name: Seq<u8>, node: NodeModel, id: int)
    ensures
        links_in(Seq::empty(), id) == 0,
        links_in(entries.push((name, node)), id) == links_in(entries, id) + match node {
            NodeModel::Directory(d) => links_in(d.entries, id),
            NodeModel::Leaf(leaf) => if leaf == id {
                1nat
            } else {
                0nat
            },
        },
{
    assert(entries.push((name, node)).drop_last() =~= entries);
}

/// A further entry is one more directory where it is one.
pub proof fn directories_are_counted(entries: Seq<(Seq<u8>, NodeModel)>, name: Seq<u8>, node: NodeModel)
    ensures
        subdirs(Seq::empty()) == 0,
        subdirs(entries.push((name, node))) == subdirs(entries) + (if node is Directory {
            1nat
        } else {
            0nat
        }),
{
    assert(entries.push((name, node)).drop_last() =~= entries);
}

/// The metadata of a root that was set stays. Where it was not, the root can be read and searched by
/// all, and has the newest time of the tree; all else stays.
pub proof fn root_metadata_made_up<ObjectID: FsVerityHashValue>(fs: &mut FileSystem<ObjectID>)
    requires
        old(fs).wf(),
        call_ensures(FileSystem::<ObjectID>::ensure_root_stat, (fs,), ()),
    ensures
        final(fs)@.root.entries == old(fs)@.root.entries,
        final(fs)@.leaves == old(fs)@.leaves,
        final(fs)@.have_root_stat,
        old(fs)@.have_root_stat ==> final(fs)@.root.stat == old(fs)@.root.stat,
        !old(fs)@.have_root_stat ==> {
            let before = old(fs)@.root.stat;
            let after = final(fs)@.root.stat;
            let entries = old(fs)@.root.entries;
            &&& after.mode == 0o555
            &&& after.uid == before.uid
            &&& after.gid == before.gid
            &&& after.xattrs == before.xattrs
            &&& after.mtime >= before.mtime
            &&& forall|names: Seq<Seq<u8>>|
                (#[trigger] node_in(entries, names) matches Some(node) ==> time_of(node, old(fs)@.leaves)
                    <= after.mtime)
            &&& after.mtime == before.mtime || exists|names: Seq<Seq<u8>>|
                #[trigger] node_in(entries, names) matches Some(node) && time_of(node, old(fs)@.leaves) == after.mtime
        },
{
    newest_is_latest(old(fs)@.root.entries, old(fs)@.leaves, old(fs)@.root.stat.mtime);
}

/// A directory is found by a path where its names lead to one, and not where the path starts with a
/// dot or goes up.
pub proof fn directory_found(dir: &Directory, path: &[u8], r: Result<&Directory, Error>)
    requires
        dir_sorted(dir@),
        call_ensures(Directory::get_directory, (dir, path), r),
    ensures
        match r {
            Ok(d) => {
                &&& !parts_of(path@).dot
                &&& !parts_of(path@).names.contains(dotdot())
                &&& node_of(dir@, parts_of(path@).names) == Some(NodeModel::Directory(d@))
            },
            Err(e) => {
                ||| e == Error::InvalidFilename && (parts_of(path@).dot || parts_of(path@).names.contains(dotdot()))
                ||| (e == Error::NotFound || e == Error::NotADirectory) && !(node_of(dir@, parts_of(path@).names) matches
                    Some(NodeModel::Directory(_)))
            },
        },
{
    let names = parts_of(path@).names;
    directory_reached(dir@, names);
    if let Err(e) = r {
        if !parts_of(path@).dot && e != Error::InvalidFilename {
            let n = if e == Error::NotFound {
                choose|n: int|
                    0 < n <= names.len() && #[trigger] node_of(dir@, names.take(n)) is None && node_of(
                        dir@,
                        names.take(n - 1),
                    ) matches Some(NodeModel::Directory(_))
            } else {
                choose|n: int|
                    0 < n <= names.len() && #[trigger] node_of(dir@, names.take(n)) matches Some(NodeModel::Leaf(_))
            };
            no_way_on(dir@, names, n);
        }
    }
}

/// Names lead to nothing where some of them, from the first on, do not lead to a directory.
proof fn no_way_on(dir: DirModel, names: Seq<Seq<u8>>, n: int)
    requires
        0 < n <= names.len(),
        !(node_of(dir, names.take(n)) matches Some(NodeModel::Directory(_))),
    ensures
        !(node_of(dir, names) matches Some(NodeModel::Directory(_))),
    decreases names.len(),
{
    node_of_step(dir, names);
    node_of_step(dir, names.take(n));
    assert(names.take(n)[0] == names[0]);
    if let Some(NodeModel::Directory(d)) = value_at(dir.entries, names[0]) {
        let more = names.drop_first();
        assert(names.take(n).drop_first() =~= more.take(n - 1));
        if n > 1 {
            no_way_on(d, more, n - 1);
        } else {
            assert(more.take(0) =~= Seq::<Seq<u8>>::empty());
        }
    }
}

/// A name is looked up as what it stands for in the directory.
pub proof fn name_looked_up(dir: &Directory, name: &[u8], r: Option<&Inode>)
    requires
        in_order(dir@.entries),
        call_ensures(Directory::lookup, (dir, name), r),
    ensures
        match r {
            Some(inode) => dir@.entries.contains((name@, inode.view())),
            None => forall|i: int| 0 <= i < dir@.entries.len() ==> (#[trigger] dir@.entries[i]).0 != name@,
        },
{
    found_where_it_stands(dir@.entries, name@);
}

/// A name that is given a meaning has it, all other names keep theirs, and the metadata stays.
pub proof fn name_given_meaning(dir: &mut Directory, name: Vec<u8>, inode: Inode, other: Seq<u8>)
    requires
        in_order(old(dir)@.entries),
        call_ensures(Directory::insert, (dir, name, inode), ()),
    ensures
        in_order(final(dir)@.entries),
        value_at(final(dir)@.entries, name@) == Some(inode.view()),
        other != name@ ==> value_at(final(dir)@.entries, other) == value_at(old(dir)@.entries, other),
        final(dir)@.stat == old(dir)@.stat,
{
    put_facts(old(dir)@.entries, name@, inode.view());
}

/// A file is found by a name in the root that leads to a regular file, and by no other.
pub proof fn file_found<ObjectID: FsVerityHashValue>(
    fs: &FileSystem<ObjectID>,
    name: &[u8],
    r: Result<&RegularFile<ObjectID>, Error>,
)
    requires
        fs.wf(),
        call_ensures(FileSystem::<ObjectID>::get_file, (fs, name), r),
    ensures
        match value_at(fs@.root.entries, name@) {
            Some(NodeModel::Leaf(id)) => match fs.leaves@[id].content {
                LeafContent::Regular(file) => r matches Ok(found) && *found == file,
                _ => r matches Err(e) && e == Error::NotAFile,
            },
            Some(NodeModel::Directory(_)) => r matches Err(e) && e == Error::NotAFile,
            None => r matches Err(e) && e == Error::NotFound,
        },
{
}

/// The names of each leaf are counted.
pub proof fn links_counted<ObjectID: FsVerityHashValue>(fs: &FileSystem<ObjectID>, r: Vec<usize>)
    requires
        fs.wf(),
        call_ensures(FileSystem::<ObjectID>::link_counts, (fs,), r),
    ensures
        r@.len() == fs.leaves@.len(),
        forall|id: int|
            0 <= id < r@.len() && links_in(fs@.root.entries, id) <= usize::MAX ==> #[trigger] r@[id] == links_in(
                fs@.root.entries,
                id,
            ),
{
}

/// The metadata of the root is set as it is given, and nothing else changes.
pub proof fn root_metadata_set<ObjectID: FsVerityHashValue>(fs: &mut FileSystem<ObjectID>, stat: Stat)
    requires
        call_ensures(FileSystem::<ObjectID>::set_root_stat, (fs, stat), ()),
    ensures
        final(fs)@.root.stat == stat@,
        final(fs)@.root.entries == old(fs)@.root.entries,
        final(fs)@.leaves == old(fs)@.leaves,
        final(fs)@.have_root_stat,
{
}

/// A new directory has the given metadata and nothing in it.
pub proof fn directory_made(stat: Stat, r: Directory)
    requires
        call_ensures(Directory::new, (stat,), r),
    ensures
        r@.stat == stat@,
        r@.entries.len() == 0,
{
}

/// A file system is well formed where the names of every directory are valid and in order, every name
/// leads to a directory or to a leaf that is there, and the attributes of all are in order.
pub proof fn well_formed_told<ObjectID: FsVerityHashValue>(fs: &FileSystem<ObjectID>, names: Seq<Seq<u8>>, r: bool)
    requires
        call_ensures(FileSystem::<ObjectID>::is_well_formed, (fs,), r),
        r,
    ensures
        match node_of(fs@.root, names) {
            Some(NodeModel::Directory(d)) => in_order(d.entries) && in_order(d.stat.xattrs) && forall|i: int|
                0 <= i < d.entries.len() ==> valid_name((#[trigger] d.entries[i]).0),
            Some(NodeModel::Leaf(id)) => 0 <= id < fs@.leaves.len() && in_order(fs@.leaves[id].stat.xattrs),
            None => true,
        },
{
    below_well_formed(fs@.root, names, fs@.leaves.len());
    if let Some(NodeModel::Leaf(id)) = node_of(fs@.root, names) {
        assert(in_order(fs@.leaves[id].stat.xattrs));
    }
}

proof fn below_well_formed(dir: DirModel, names: Seq<Seq<u8>>, count: nat)
    requires
        dir_sorted(dir),
        ids_below(dir.entries, count),
    ensures
        match node_of(dir, names) {
            Some(NodeModel::Directory(d)) => in_order(d.entries) && in_order(d.stat.xattrs) && forall|i: int|
                0 <= i < d.entries.len() ==> valid_name((#[trigger] d.entries[i]).0),
            Some(NodeModel::Leaf(id)) => 0 <= id < count,
            None => true,
        },
    decreases names.len(),
{
    if names.len() > 0 {
        node_of_step(dir, names);
        rank_facts(dir.entries, names[0]);
        let k = rank(dir.entries, names[0]) as int;
        if has_key(dir.entries, names[0]) {
            assert(dir.entries[k].0 == names[0]);
            if let NodeModel::Directory(d) = dir.entries[k].1 {
                below_well_formed(d, names.drop_first(), count);
            }
        }
    }
}

/// A directory that is found to be changed is the one that the names of the path lead to, and what it
/// is changed to is what they lead to afterwards. Names that go another way lead where they led.
pub proof fn directory_found_to_change(
    dir: &mut Directory,
    path: &[u8],
    r: Result<&mut Directory, Error>,
    other: Seq<Seq<u8>>,
    n: int,
)
    requires
        dir_sorted(old(dir)@),
        call_ensures(Directory::get_directory_mut, (dir, path), r),
        0 <= n < parts_of(path@).names.len(),
        n < other.len(),
        parts_of(path@).names[n] != other[n],
        parts_of(path@).names.take(n) == other.take(n),
    ensures
        match r {
            Ok(d) => {
                let names = parts_of(path@).names;
                &&& node_of(old(dir)@, names) == Some(NodeModel::Directory(d@))
                &&& node_of(final(dir)@, names) == Some(NodeModel::Directory(final(d)@))
                &&& node_of(final(dir)@, other) == node_of(old(dir)@, other)
            },
            Err(_) => final(dir)@ == old(dir)@,
        },
{
    let names = parts_of(path@).names;
    if let Ok(d) = r {
        directory_reached(old(dir)@, names);
        other_ways_kept(old(dir)@, names, final(d)@, other, n);
        let none = Seq::<Seq<u8>>::empty();
        way_goes_on(old(dir)@, names, final(d)@, none);
        assert(names + none =~= names);
    }
}

/// All that is in a file system is among its values: each entry with its name, each attribute with its
/// name and value, each leaf, and the metadata.
pub proof fn values_are_all_there<ObjectID: FsVerityHashValue>(
    fs: FileSystem<ObjectID>,
    dir: Directory,
    stat: Stat,
    inode: Inode,
)
    ensures
        fs@.root == fs.root@,
        fs@.have_root_stat == fs.have_root_stat,
        fs@.leaves.len() == fs.leaves@.len(),
        forall|i: int|
            0 <= i < fs.leaves@.len() ==> (#[trigger] fs@.leaves[i]).stat == fs.leaves@[i].stat@ && match fs.leaves@[i].content {
                LeafContent::Regular(RegularFile::Inline(data)) => fs@.leaves[i].content == ContentModel::Inline(data@),
                LeafContent::Regular(RegularFile::External(id, size)) => fs@.leaves[i].content
                    == ContentModel::External(id.bytes(), size),
                LeafContent::BlockDevice(rdev) => fs@.leaves[i].content == ContentModel::BlockDevice(rdev),
                LeafContent::CharacterDevice(rdev) => fs@.leaves[i].content == ContentModel::CharacterDevice(rdev),
                LeafContent::Fifo => fs@.leaves[i].content == ContentModel::Fifo,
                LeafContent::Socket => fs@.leaves[i].content == ContentModel::Socket,
                LeafContent::Symlink(target) => fs@.leaves[i].content == ContentModel::Symlink(target@),
            },
        dir@.stat == dir.stat@,
        dir@.entries.len() == dir.entries.entries@.len(),
        forall|i: int|
            0 <= i < dir.entries.entries@.len() ==> (#[trigger] dir@.entries[i]).0 == dir.entries.entries@[i].0@
                && dir@.entries[i].1 == dir.entries.entries@[i].1.view(),
        match inode {
            Inode::Directory(d) => inode.view() == NodeModel::Directory(d.view()),
            Inode::Leaf(id) => inode.view() == NodeModel::Leaf(id as int),
        },
        stat@.mode == stat.st_mode,
        stat@.uid == stat.st_uid,
        stat@.gid == stat.st_gid,
        stat@.mtime == stat.st_mtim_sec,
        stat@.xattrs.len() == stat.xattrs.entries@.len(),
        forall|i: int|
            0 <= i < stat.xattrs.entries@.len() ==> (#[trigger] stat@.xattrs[i]).0 == stat.xattrs.entries@[i].0@
                && stat@.xattrs[i].1 == stat.xattrs.entries@[i].1@,
{
}

/// What a path leads to is fit to be there.
pub open spec fn is_fit(node: Option<NodeModel>, leaves: Seq<LeafModel>) -> bool {
    match node {
        Some(NodeModel::Directory(d)) => in_order(d.entries) && in_order(d.stat.xattrs) && forall|i: int|
            0 <= i < d.entries.len() ==> valid_name((#[trigger] d.entries[i]).0),
        Some(NodeModel::Leaf(id)) => 0 <= id < leaves.len(),
        None => true,
    }
}

/// A file system is told to be well formed where all that paths lead to is fit to be there, and all
/// leaves have their attributes in order.
pub proof fn fit_is_well_formed<ObjectID: FsVerityHashValue>(fs: &FileSystem<ObjectID>, r: bool)
    requires
        forall|names: Seq<Seq<u8>>| is_fit(#[trigger] node_of(fs@.root, names), fs@.leaves),
        forall|i: int| 0 <= i < fs@.leaves.len() ==> in_order((#[trigger] fs@.leaves[i]).stat.xattrs),
        call_ensures(FileSystem::<ObjectID>::is_well_formed, (fs,), r),
    ensures
        r,
{
    fit_is_sorted(fs@.root, fs@.leaves);
}

proof fn fit_is_sorted(dir: DirModel, leaves: Seq<LeafModel>)
    requires
        forall|names: Seq<Seq<u8>>| is_fit(#[trigger] node_of(dir, names), leaves),
    ensures
        dir_sorted(dir),
        ids_below(dir.entries, leaves.len()),
    decreases dir,
{
    let none = Seq::<Seq<u8>>::empty();
    assert(is_fit(node_of(dir, none), leaves));
    assert forall|i: int| 0 <= i < dir.entries.len() implies match (#[trigger] dir.entries[i]).1 {
        NodeModel::Directory(d) => dir_sorted(d) && ids_below(d.entries, leaves.len()),
        NodeModel::Leaf(id) => 0 <= id < leaves.len(),
    } by {
        let (name, node) = dir.entries[i];
        rank_at(dir.entries, i);
        assert(is_fit(node_of(dir, seq![name]), leaves));
        if let NodeModel::Directory(d) = node {
            assert forall|names: Seq<Seq<u8>>| is_fit(#[trigger] node_of(d, names), leaves) by {
                let longer = seq![name] + names;
                node_of_step(dir, longer);
                assert(longer.drop_first() =~= names);
                assert(is_fit(node_of(dir, longer), leaves));
            }
            fit_is_sorted(d, leaves);
        }
    }
    assert(entries_sorted(dir.entries));
    assert(ids_below(dir.entries, leaves.len()));
}

/// A file system starts with an empty root that nothing is known of.
pub proof fn file_system_starts_empty<ObjectID: FsVerityHashValue>(fs: FileSystem<ObjectID>)
    requires
        call_ensures(FileSystem::<ObjectID>::default, (), fs),
    ensures
        fs@.root.entries.len() == 0,
        fs@.leaves.len() == 0,
        !fs@.have_root_stat,
        fs@.root.stat.uid == 0,
        fs@.root.stat.gid == 0,
        fs@.root.stat.mtime == 0,
        fs@.root.stat.xattrs.len() == 0,
{
}

} // verus!
