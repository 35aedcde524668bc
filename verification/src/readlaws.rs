//! What a line that is read makes of a file system.

use vstd::prelude::*;
use crate::bytemap::{in_order, put, put_facts, rank_facts, value_at, ByteMap};
use crate::dumpfile_parse::{parse_line, Entry, EntryModel, Item, ItemModel};
use crate::dumpfile_read::{
    add_entry, add_entry_to_filesystem, add_lines, entry_stat, is_blank, links_wf, place, xattr_map,
    xattr_map_in_order, Building, LineError,
};
use crate::error::Error;
use crate::fsverity::{hex_bytes, FsVerityHashValue};
use crate::path::{dotdot, parts_of, path_key, path_text, PathParts};
use crate::tree::{dir_at, dir_sorted, ContentModel, DirModel, FileSystem, FileSystemModel, NodeModel, StatModel};
use crate::treelaws::{node_of, other_ways_kept, way_goes_on, way_keeps_metadata};

verus! {

/// The metadata is what the line says: the permission bits of the mode, the owner and group, the
/// time, and for each name the last extended attribute with it.
pub open spec fn stat_as_told(stat: StatModel, entry: EntryModel) -> bool {
    &&& stat.mode == entry.mode & 0o7777
    &&& stat.uid == entry.uid
    &&& stat.gid == entry.gid
    &&& stat.mtime == entry.mtime.sec as i64
    &&& in_order(stat.xattrs)
    &&& forall|i: int|
        0 <= i < entry.xattrs.len() && #[trigger] last_of_name(entry.xattrs, i) ==> value_at(
            stat.xattrs,
            entry.xattrs[i].0,
        ) == Some(entry.xattrs[i].1)
    &&& forall|key: Seq<u8>| #[trigger] not_named(entry.xattrs, key) ==> value_at(stat.xattrs, key) is None
}

/// No attribute after this one has the same name.
pub open spec fn last_of_name(xattrs: Seq<(Seq<u8>, Seq<u8>)>, i: int) -> bool {
    forall|j: int| i < j < xattrs.len() ==> (#[trigger] xattrs[j]).0 != xattrs[i].0
}

/// No attribute has the name.
pub open spec fn not_named(xattrs: Seq<(Seq<u8>, Seq<u8>)>, key: Seq<u8>) -> bool {
    forall|i: int| 0 <= i < xattrs.len() ==> (#[trigger] xattrs[i]).0 != key
}

/// The last attribute of a name counts.
proof fn last_counts(xattrs: Seq<(Seq<u8>, Seq<u8>)>, i: int)
    requires
        0 <= i < xattrs.len(),
        last_of_name(xattrs, i),
    ensures
        value_at(xattr_map(xattrs), xattrs[i].0) == Some(xattrs[i].1),
    decreases xattrs.len(),
{
    let front = xattrs.drop_last();
    let (name, value) = xattrs.last();
    xattr_map_in_order(front);
    put_facts(xattr_map(front), name, value);
    if i < front.len() {
        assert(xattrs[xattrs.len() - 1] == xattrs.last());
        assert(front[i] == xattrs[i]);
        assert forall|j: int| i < j < front.len() implies (#[trigger] front[j]).0 != front[i].0 by {
            assert(front[j] == xattrs[j]);
        }
        last_counts(front, i);
    }
}

/// A name that does not occur has no attribute.
proof fn none_counts(xattrs: Seq<(Seq<u8>, Seq<u8>)>, key: Seq<u8>)
    requires
        not_named(xattrs, key),
    ensures
        value_at(xattr_map(xattrs), key) is None,
    decreases xattrs.len(),
{
    if xattrs.len() == 0 {
        rank_facts(xattr_map(xattrs), key);
    } else {
        let front = xattrs.drop_last();
        assert(xattrs[xattrs.len() - 1] == xattrs.last());
        assert forall|i: int| 0 <= i < front.len() implies (#[trigger] front[i]).0 != key by {
            assert(front[i] == xattrs[i]);
        }
        none_counts(front, key);
        xattr_map_in_order(front);
        put_facts(xattr_map(front), xattrs.last().0, xattrs.last().1);
    }
}

/// The metadata that is taken from a line is what the line says.
pub proof fn metadata_as_told(entry: EntryModel)
    ensures
        stat_as_told(entry_stat(entry), entry),
{
    let stat = entry_stat(entry);
    xattr_map_in_order(entry.xattrs);
    assert forall|i: int| 0 <= i < entry.xattrs.len() && #[trigger] last_of_name(entry.xattrs, i) implies value_at(
        stat.xattrs,
        entry.xattrs[i].0,
    ) == Some(entry.xattrs[i].1) by {
        last_counts(entry.xattrs, i);
    }
    assert forall|key: Seq<u8>| #[trigger] not_named(entry.xattrs, key) implies value_at(stat.xattrs, key) is None by {
        none_counts(entry.xattrs, key);
    }
}

/// Nothing but what is at `names`, or below, is another than before: names that go another way lead
/// where they led, and the directories on the way keep their metadata.
pub open spec fn only_changed_at(before: DirModel, after: DirModel, names: Seq<Seq<u8>>) -> bool {
    &&& forall|other: Seq<Seq<u8>>, n: int|
        0 <= n < names.len() && n < other.len() && names[n] != other[n] && names.take(n) == #[trigger] other.take(n)
            ==> node_of(after, other) == node_of(before, other)
    &&& forall|n: int|
        0 <= n < names.len() ==> (node_of(before, #[trigger] names.take(n)) matches Some(NodeModel::Directory(old))
            && node_of(after, names.take(n)) matches Some(NodeModel::Directory(new)) && new.stat == old.stat)
}

/// Names that go on from a directory lead on from it.
proof fn way_on(dir: DirModel, names: Seq<Seq<u8>>, more: Seq<Seq<u8>>)
    requires
        dir_at(dir, names) is Ok,
    ensures
        node_of(dir, names + more) == node_of(dir_at(dir, names)->Ok_0, more),
    decreases names.len(),
{
    if names.len() == 0 {
        assert(names + more =~= more);
    } else {
        let d = value_at(dir.entries, names[0])->Some_0->Directory_0;
        way_on(d, names.drop_first(), more);
        let all = names + more;
        assert(all[0] == names[0]);
        assert(all.drop_first() =~= names.drop_first() + more);
        assert(node_of(dir, all) == node_of(d, all.drop_first()));
    }
}

/// A node that is placed at a path is there, and nothing else changes.
proof fn placed_alone(fs: FileSystemModel, names: Seq<Seq<u8>>, node: NodeModel)
    requires
        dir_sorted(fs.root),
        names.len() > 0,
        dir_at(fs.root, names.drop_last()) is Ok,
    ensures
        node_of(place(fs, names, node).root, names) == Some(node),
        only_changed_at(fs.root, place(fs, names, node).root, names),
        place(fs, names, node).leaves == fs.leaves,
        place(fs, names, node).have_root_stat == fs.have_root_stat,
        place(fs, names, node).root.stat == fs.root.stat,
{
    let up = names.drop_last();
    let last = names.last();
    let parent = dir_at(fs.root, up)->Ok_0;
    let new = DirModel { entries: put(parent.entries, last, node), ..parent };
    let after = place(fs, names, node).root;
    dir_at_sorted(fs.root, up);
    put_facts(parent.entries, last, node);
    way_goes_on(fs.root, up, new, seq![last]);
    assert(up + seq![last] =~= names);
    assert(node_of(new, seq![last]) == Some(node));
    assert forall|other: Seq<Seq<u8>>, n: int|
        0 <= n < names.len() && n < other.len() && names[n] != other[n] && names.take(n) == #[trigger] other.take(
            n,
        ) implies node_of(after, other) == node_of(fs.root, other) by {
        if n < up.len() {
            assert(up.take(n) =~= names.take(n));
            other_ways_kept(fs.root, up, new, other, n);
        } else {
            assert(names.take(n) =~= up);
            let more = other.skip(n);
            assert(up + more =~= other);
            way_goes_on(fs.root, up, new, more);
            way_on(fs.root, up, more);
            assert(more[0] == other[n]);
            assert(value_at(new.entries, more[0]) == value_at(parent.entries, more[0]));
        }
    }
    assert forall|n: int| 0 <= n < names.len() implies (node_of(fs.root, #[trigger] names.take(n)) matches Some(
        NodeModel::Directory(d),
    ) && node_of(after, names.take(n)) matches Some(NodeModel::Directory(e)) && e.stat == d.stat) by {
        if n < up.len() {
            assert(up.take(n) =~= names.take(n));
            way_keeps_metadata(fs.root, up, new, n);
        } else {
            assert(names.take(n) =~= up);
            let none = Seq::<Seq<u8>>::empty();
            assert(up + none =~= up);
            way_goes_on(fs.root, up, new, none);
            way_on(fs.root, up, none);
        }
    }
    if up.len() > 0 {
        way_keeps_metadata(fs.root, up, new, 0);
        assert(up.take(0) =~= Seq::<Seq<u8>>::empty());
    }
}

/// A directory that is reached from one in order is in order.
proof fn dir_at_sorted(dir: DirModel, names: Seq<Seq<u8>>)
    requires
        dir_sorted(dir),
        dir_at(dir, names) is Ok,
    ensures
        dir_sorted(dir_at(dir, names)->Ok_0),
    decreases names.len(),
{
    if names.len() > 0 {
        rank_facts(dir.entries, names[0]);
        dir_at_sorted(value_at(dir.entries, names[0])->Some_0->Directory_0, names.drop_first());
    }
}

/// The line of the root sets its metadata, whatever else it says, and nothing else.
pub proof fn root_line_read<ObjectID: FsVerityHashValue>(
    fs: &mut FileSystem<ObjectID>,
    entry: Entry,
    hardlinks: &mut ByteMap<usize>,
    r: Result<(), LineError>,
)
    requires
        old(fs).wf(),
        links_wf(old(hardlinks).pairs(), old(fs)@.leaves.len()),
        parts_of(entry.path@).absolute,
        parts_of(entry.path@).names.len() == 0,
        call_ensures(add_entry_to_filesystem::<ObjectID>, (fs, entry, hardlinks), r),
    ensures
        r is Ok,
        stat_as_told(final(fs)@.root.stat, entry@),
        final(fs)@.root.entries == old(fs)@.root.entries,
        final(fs)@.leaves == old(fs)@.leaves,
        final(fs)@.have_root_stat,
        final(hardlinks).pairs() == old(hardlinks).pairs(),
{
    metadata_as_told(entry@);
}

/// A line with a path to a name in a directory that is there.
pub open spec fn has_place(fs: FileSystemModel, entry: EntryModel) -> bool {
    let path = parts_of(entry.path);
    &&& path.names.len() > 0
    &&& path.names.last() != dotdot()
    &&& !path.dot
    &&& dir_at(fs.root, path.names.drop_last()) is Ok
}

/// The line of a directory puts an empty directory with the metadata of the line, whatever size and
/// number of names it tells, at its path, and changes nothing else.
pub proof fn directory_line_read<ObjectID: FsVerityHashValue>(
    fs: &mut FileSystem<ObjectID>,
    entry: Entry,
    hardlinks: &mut ByteMap<usize>,
    r: Result<(), LineError>,
)
    requires
        old(fs).wf(),
        links_wf(old(hardlinks).pairs(), old(fs)@.leaves.len()),
        has_place(old(fs)@, entry@),
        entry.item is Directory,
        call_ensures(add_entry_to_filesystem::<ObjectID>, (fs, entry, hardlinks), r),
    ensures
        r is Ok,
        node_of(final(fs)@.root, parts_of(entry.path@).names) matches Some(NodeModel::Directory(d))
            && d.entries.len() == 0 && stat_as_told(d.stat, entry@),
        only_changed_at(old(fs)@.root, final(fs)@.root, parts_of(entry.path@).names),
        final(fs)@.root.stat == old(fs)@.root.stat,
        final(fs)@.leaves == old(fs)@.leaves,
        final(fs)@.have_root_stat == old(fs)@.have_root_stat,
        final(hardlinks).pairs() == old(hardlinks).pairs(),
{
    metadata_as_told(entry@);
    let dir = DirModel { stat: entry_stat(entry@), entries: seq![] };
    placed_alone(old(fs)@, parts_of(entry.path@).names, NodeModel::Directory(dir));
}

/// The content of a leaf is what the line says.
pub open spec fn content_as_told(content: ContentModel, entry: EntryModel) -> bool {
    match entry.item {
        ItemModel::RegularInline { content: data, .. } => content == ContentModel::Inline(data),
        ItemModel::Regular { size, fsverity_digest, .. } => fsverity_digest matches Some(text) && hex_bytes(text)
            matches Some(id) && content == ContentModel::External(id, size),
        ItemModel::Device { rdev, .. } => content == (if entry.mode & 0o170000 == 0o60000 {
            ContentModel::BlockDevice(rdev)
        } else {
            ContentModel::CharacterDevice(rdev)
        }),
        ItemModel::Symlink { target, .. } => content == ContentModel::Symlink(target),
        ItemModel::Fifo { .. } => content == ContentModel::Fifo,
        _ => false,
    }
}

/// The line of a leaf adds a leaf with the metadata and the content of the line, puts it at its path,
/// notes the path for further names, and changes nothing else. It is refused only where it tells of an
/// object without a digest, or with one that is not the hexadecimal form of an identifier.
pub proof fn leaf_line_read<ObjectID: FsVerityHashValue>(
    fs: &mut FileSystem<ObjectID>,
    entry: Entry,
    hardlinks: &mut ByteMap<usize>,
    r: Result<(), LineError>,
)
    requires
        old(fs).wf(),
        old(fs)@.leaves.len() < usize::MAX,
        links_wf(old(hardlinks).pairs(), old(fs)@.leaves.len()),
        has_place(old(fs)@, entry@),
        !(entry.item is Directory),
        !(entry.item is Hardlink),
        call_ensures(add_entry_to_filesystem::<ObjectID>, (fs, entry, hardlinks), r),
    ensures
        r matches Err(e) ==> entry@.item matches ItemModel::Regular { fsverity_digest, .. } && match fsverity_digest {
            None => e.error == Error::MissingDigest,
            Some(text) => e.error == Error::InvalidDigest && (hex_bytes(text) matches Some(id) ==> id.len()
                != ObjectID::size()),
        },
        r is Ok ==> {
            let count = old(fs)@.leaves.len() as int;
            &&& final(fs)@.leaves.len() == count + 1
            &&& forall|i: int| 0 <= i < count ==> #[trigger] final(fs)@.leaves[i] == old(fs)@.leaves[i]
            &&& stat_as_told(final(fs)@.leaves[count].stat, entry@)
            &&& content_as_told(final(fs)@.leaves[count].content, entry@)
            &&& node_of(final(fs)@.root, parts_of(entry.path@).names) == Some(NodeModel::Leaf(count))
            &&& only_changed_at(old(fs)@.root, final(fs)@.root, parts_of(entry.path@).names)
            &&& final(fs)@.root.stat == old(fs)@.root.stat
            &&& final(fs)@.have_root_stat == old(fs)@.have_root_stat
            &&& value_at(final(hardlinks).pairs(), path_key(entry.path@)) == Some(count as usize)
            &&& forall|key: Seq<u8>|
                key != path_key(entry.path@) ==> #[trigger] value_at(final(hardlinks).pairs(), key) == value_at(
                    old(hardlinks).pairs(),
                    key,
                )
        },
        r is Err ==> final(fs)@ == old(fs)@ && final(hardlinks).pairs() == old(hardlinks).pairs(),
{
    metadata_as_told(entry@);
    let names = parts_of(entry.path@).names;
    let count = old(fs)@.leaves.len();
    if r is Ok {
        let grown = FileSystemModel { leaves: final(fs)@.leaves, ..old(fs)@ };
        placed_alone(grown, names, NodeModel::Leaf(count as int));
        put_facts(old(hardlinks).pairs(), path_key(entry.path@), count as usize);
    }
}

/// A line for a further name puts the leaf that was noted for the target at its path, and notes the
/// path too. It is refused where none was noted. No leaf is added.
pub proof fn hardlink_line_read<ObjectID: FsVerityHashValue>(
    fs: &mut FileSystem<ObjectID>,
    entry: Entry,
    target: Vec<u8>,
    hardlinks: &mut ByteMap<usize>,
    r: Result<(), LineError>,
)
    requires
        old(fs).wf(),
        links_wf(old(hardlinks).pairs(), old(fs)@.leaves.len()),
        has_place(old(fs)@, entry@),
        entry.item == (Item::Hardlink { target }),
        call_ensures(add_entry_to_filesystem::<ObjectID>, (fs, entry, hardlinks), r),
    ensures
        final(fs)@.leaves == old(fs)@.leaves,
        match value_at(old(hardlinks).pairs(), path_key(target@)) {
            Some(id) => {
                &&& r is Ok
                &&& node_of(final(fs)@.root, parts_of(entry.path@).names) == Some(NodeModel::Leaf(id as int))
                &&& only_changed_at(old(fs)@.root, final(fs)@.root, parts_of(entry.path@).names)
                &&& final(fs)@.root.stat == old(fs)@.root.stat
                &&& final(fs)@.have_root_stat == old(fs)@.have_root_stat
                &&& value_at(final(hardlinks).pairs(), path_key(entry.path@)) == Some(id)
                &&& forall|key: Seq<u8>|
                    key != path_key(entry.path@) ==> #[trigger] value_at(final(hardlinks).pairs(), key) == value_at(
                        old(hardlinks).pairs(),
                        key,
                    )
            },
            None => {
                &&& r matches Err(e) && e.error == Error::HardlinkTargetNotFound && e.subject@ == target@
                &&& final(fs)@ == old(fs)@
                &&& final(hardlinks).pairs() == old(hardlinks).pairs()
            },
        },
{
    let names = parts_of(entry.path@).names;
    if let Some(id) = value_at(old(hardlinks).pairs(), path_key(target@)) {
        placed_alone(old(fs)@, names, NodeModel::Leaf(id as int));
        put_facts(old(hardlinks).pairs(), path_key(entry.path@), id);
    }
}

/// A line that has no place is refused, for want of a name or for want of a directory to put it in,
/// and changes nothing.
pub proof fn line_without_place_refused<ObjectID: FsVerityHashValue>(
    fs: &mut FileSystem<ObjectID>,
    entry: Entry,
    hardlinks: &mut ByteMap<usize>,
    r: Result<(), LineError>,
)
    requires
        old(fs).wf(),
        links_wf(old(hardlinks).pairs(), old(fs)@.leaves.len()),
        !has_place(old(fs)@, entry@),
        !(parts_of(entry.path@).absolute && parts_of(entry.path@).names.len() == 0),
        call_ensures(add_entry_to_filesystem::<ObjectID>, (fs, entry, hardlinks), r),
    ensures
        r matches Err(e) && (if parts_of(entry.path@).names.len() == 0 || parts_of(entry.path@).names.last()
            == dotdot() {
            e.error == Error::NoFilename && e.subject@ == entry.path@
        } else {
            let up = PathParts { names: parts_of(entry.path@).names.drop_last(), ..parts_of(entry.path@) };
            &&& e.error == Error::ParentNotFound
            &&& e.subject@ == path_text(up)
            &&& up.dot ==> e.cause == Some(Error::InvalidFilename)
            &&& !up.dot ==> (dir_at(old(fs)@.root, up.names) matches Err(cause) && e.cause == Some(cause))
        }),
        final(fs)@ == old(fs)@,
        final(hardlinks).pairs() == old(hardlinks).pairs(),
{
}

/// Lines are read one after the other: what more lines make of a file system is what they make of
/// what the lines before them made of it, and nothing is read after a line that is refused.
pub proof fn lines_read_in_turn(b: Building, first: Seq<Seq<u8>>, more: Seq<Seq<u8>>, size: nat)
    ensures
        add_lines(b, first + more, size) == (match add_lines(b, first, size) {
            Ok(after) => add_lines(after, more, size),
            Err(e) => Err(e),
        }),
    decreases more.len(),
{
    if more.len() == 0 {
        assert(first + more =~= first);
    } else {
        lines_read_in_turn(b, first, more.drop_last(), size);
        assert((first + more).drop_last() =~= first + more.drop_last());
    }
}

/// A blank line changes nothing, one that is no entry is refused, and any other is read as an entry.
pub proof fn one_line_read(b: Building, line: Seq<u8>, size: nat)
    ensures
        is_blank(line) ==> add_lines(b, seq![line], size) == Ok::<Building, Error>(b),
        !is_blank(line) ==> add_lines(b, seq![line], size) == (match parse_line(line) {
            Some(entry) => add_entry(b, entry, size),
            None => Err(Error::InvalidLine),
        }),
        add_lines(b, Seq::empty(), size) == Ok::<Building, Error>(b),
{
    let one = seq![line];
    assert(one.drop_last() =~= Seq::<Seq<u8>>::empty());
    assert(add_lines(b, one.drop_last(), size) == Ok::<Building, Error>(b));
    assert(one.last() == line);
}

} // verus!
