//! Building a file system tree from the lines of a dumpfile.

use vstd::prelude::*;
use vstd::string::StringSliceAdditionalSpecFns;
use crate::bytemap::{
    has_key, in_order, map_each, map_each_facts, put, put_facts, rank, rank_facts, value_at, ByteMap,
};
use crate::bytestr::{copy, same_bytes, split, split_at, split_parts_clean};
use crate::dumpfile_parse::{parse_line, xattr_models, Entry, EntryModel, Item, ItemModel, Xattr, S_IFBLK, S_IFMT};
use crate::error::Error;
use crate::fsverity::{hex_bytes, FsVerityHashValue};
use crate::path::{
    components, dotdot, each_bytes, names_clean, parts_of, path_key, path_text, valid_name, Components, PathParts,
};
use crate::tree::{
    default_stat, dir_at, dir_at_path, ids_below, put_wf, tree_wf, with_dir_at, with_dir_at_facts,
    with_root_stat, ContentModel, DirModel, Directory, FileSystem, FileSystemModel, Inode, Leaf, LeafContent,
    LeafModel, NodeModel, RegularFile, Stat, StatModel,
};

verus! {

/// The permission bits of a mode, with those for set-user-ID, set-group-ID and sticky.
pub const PERMISSIONS: u32 = 0o7777;

/// Extended attributes by name: the last of those with one name counts.
pub open spec fn xattr_map(xattrs: Seq<(Seq<u8>, Seq<u8>)>) -> Seq<(Seq<u8>, Seq<u8>)>
    decreases xattrs.len(),
{
    if xattrs.len() == 0 {
        seq![]
    } else {
        put(xattr_map(xattrs.drop_last()), xattrs.last().0, xattrs.last().1)
    }
}

/// The metadata that a line gives.
pub open spec fn entry_stat(entry: EntryModel) -> StatModel {
    StatModel {
        mode: entry.mode & PERMISSIONS,
        uid: entry.uid,
        gid: entry.gid,
        mtime: entry.mtime.sec as i64,
        xattrs: xattr_map(entry.xattrs),
    }
}

/// What the leaf of a line holds, where object identifiers have `size` bytes.
pub open spec fn entry_content(entry: EntryModel, size: nat) -> Result<ContentModel, Error> {
    match entry.item {
        ItemModel::RegularInline { content, .. } => Ok(ContentModel::Inline(content)),
        ItemModel::Regular { size: length, fsverity_digest, .. } => match fsverity_digest {
            None => Err(Error::MissingDigest),
            Some(text) => match hex_bytes(text) {
                Some(id) if id.len() == size => Ok(ContentModel::External(id, length)),
                _ => Err(Error::InvalidDigest),
            },
        },
        ItemModel::Device { rdev, .. } => if entry.mode & S_IFMT == S_IFBLK {
            Ok(ContentModel::BlockDevice(rdev))
        } else {
            Ok(ContentModel::CharacterDevice(rdev))
        },
        ItemModel::Symlink { target, .. } => Ok(ContentModel::Symlink(target)),
        _ => Ok(ContentModel::Fifo),
    }
}

/// A file system that is being built, and the leaves in it by their paths.
pub struct Building {
    /// The file system.
    pub fs: FileSystemModel,
    /// The number of the leaf that was stored at a path.
    pub links: Seq<(Seq<u8>, usize)>,
}

/// The file system with a node at a path.
pub open spec fn place(fs: FileSystemModel, names: Seq<Seq<u8>>, node: NodeModel) -> FileSystemModel {
    let parent = dir_at(fs.root, names.drop_last())->Ok_0;
    FileSystemModel {
        root: with_dir_at(
            fs.root,
            names.drop_last(),
            DirModel { entries: put(parent.entries, names.last(), node), ..parent },
        ),
        ..fs
    }
}

/// What a line makes of a file system, where object identifiers have `size` bytes.
pub open spec fn add_entry(b: Building, entry: EntryModel, size: nat) -> Result<Building, Error> {
    let path = parts_of(entry.path);
    if path.absolute && path.names.len() == 0 {
        Ok(
            Building {
                fs: FileSystemModel {
                    root: DirModel { stat: entry_stat(entry), ..b.fs.root },
                    have_root_stat: true,
                    ..b.fs
                },
                ..b
            },
        )
    } else if path.names.len() == 0 || path.names.last() == dotdot() {
        Err(Error::NoFilename)
    } else if dir_at_path(b.fs.root, PathParts { names: path.names.drop_last(), ..path }) is Err {
        Err(Error::ParentNotFound)
    } else {
        match entry.item {
            ItemModel::Directory { .. } => {
                let dir = DirModel { stat: entry_stat(entry), entries: seq![] };
                Ok(Building { fs: place(b.fs, path.names, NodeModel::Directory(dir)), ..b })
            },
            ItemModel::Hardlink { target } => match value_at(b.links, path_key(target)) {
                Some(id) => Ok(
                    Building {
                        fs: place(b.fs, path.names, NodeModel::Leaf(id as int)),
                        links: put(b.links, path_key(entry.path), id),
                    },
                ),
                None => Err(Error::HardlinkTargetNotFound),
            },
            _ => match entry_content(entry, size) {
                Ok(content) => {
                    let leaf = LeafModel { stat: entry_stat(entry), content };
                    let id = b.fs.leaves.len();
                    let fs = FileSystemModel { leaves: b.fs.leaves.push(leaf), ..b.fs };
                    Ok(
                        Building {
                            fs: place(fs, path.names, NodeModel::Leaf(id as int)),
                            links: put(b.links, path_key(entry.path), id as usize),
                        },
                    )
                },
                Err(e) => Err(e),
            },
        }
    }
}

/// The leaves by path lead to leaves that are there.
pub open spec fn links_wf(links: Seq<(Seq<u8>, usize)>, count: nat) -> bool {
    &&& in_order(links)
    &&& forall|i: int| 0 <= i < links.len() ==> (#[trigger] links[i]).1 < count
}

/// The file system that is being built is well formed.
pub open spec fn building_wf(b: Building) -> bool {
    tree_wf(b.fs) && links_wf(b.links, b.fs.leaves.len())
}

/// Extended attributes by name are in order.
pub proof fn xattr_map_in_order(xattrs: Seq<(Seq<u8>, Seq<u8>)>)
    ensures
        in_order(xattr_map(xattrs)),
    decreases xattrs.len(),
{
    if xattrs.len() > 0 {
        xattr_map_in_order(xattrs.drop_last());
        put_facts(xattr_map(xattrs.drop_last()), xattrs.last().0, xattrs.last().1);
    }
}

/// More leaves than are named do no harm.
proof fn ids_below_more(entries: Seq<(Seq<u8>, NodeModel)>, count: nat, more: nat)
    requires
        ids_below(entries, count),
        count <= more,
    ensures
        ids_below(entries, more),
    decreases entries,
{
    assert forall|i: int| 0 <= i < entries.len() implies match (#[trigger] entries[i]).1 {
        NodeModel::Directory(d) => ids_below(d.entries, more),
        NodeModel::Leaf(id) => 0 <= id < more,
    } by {
        match entries[i].1 {
            NodeModel::Directory(d) => {
                ids_below_more(d.entries, count, more);
            },
            NodeModel::Leaf(_) => {},
        }
    }
}

/// Storing a leaf's number by a path keeps all numbers in bounds.
proof fn links_put_wf(links: Seq<(Seq<u8>, usize)>, key: Seq<u8>, id: usize, count: nat)
    requires
        links_wf(links, count),
        id < count,
    ensures
        links_wf(put(links, key, id), count),
{
    put_facts(links, key, id);
    rank_facts(links, key);
    let t = put(links, key, id);
    assert forall|i: int| 0 <= i < t.len() implies (#[trigger] t[i]).1 < count by {
        let n = rank(links, key) as int;
        if i != n {
            let j = if has_key(links, key) || i < n {
                i
            } else {
                i - 1
            };
            assert(t[i] == links[j]);
        }
    }
}

/// A node that is placed in a well formed file system leaves it well formed.
proof fn place_wf(fs: FileSystemModel, names: Seq<Seq<u8>>, node: NodeModel)
    requires
        tree_wf(fs),
        names.len() > 0,
        valid_name(names.last()),
        dir_at(fs.root, names.drop_last()) is Ok,
        match node {
            NodeModel::Directory(d) => in_order(d.stat.xattrs) && d.entries.len() == 0,
            NodeModel::Leaf(id) => 0 <= id < fs.leaves.len(),
        },
    ensures
        tree_wf(place(fs, names, node)),
{
    let parent = dir_at(fs.root, names.drop_last())->Ok_0;
    let new = DirModel { entries: put(parent.entries, names.last(), node), ..parent };
    with_dir_at_facts(fs.root, names.drop_last(), new, fs.leaves.len());
    put_wf(parent.entries, names.last(), node, fs.leaves.len());
}

/// A line that is accepted leaves the file system well formed.
pub proof fn add_entry_wf(b: Building, entry: EntryModel, size: nat)
    requires
        building_wf(b),
        b.fs.leaves.len() <= usize::MAX,
    ensures
        add_entry(b, entry, size) matches Ok(after) ==> building_wf(after) && b.fs.leaves.len()
            <= after.fs.leaves.len() <= b.fs.leaves.len() + 1,
{
    xattr_map_in_order(entry.xattrs);
    if let Ok(after) = add_entry(b, entry, size) {
        let path = parts_of(entry.path);
        names_clean(entry.path);
        if path.absolute && path.names.len() == 0 {
        } else {
            assert(valid_name(path.names[path.names.len() - 1]));
            match entry.item {
                ItemModel::Directory { .. } => {
                    let dir = DirModel { stat: entry_stat(entry), entries: seq![] };
                    place_wf(b.fs, path.names, NodeModel::Directory(dir));
                },
                ItemModel::Hardlink { target } => {
                    rank_facts(b.links, path_key(target));
                    let id = value_at(b.links, path_key(target))->Some_0;
                    place_wf(b.fs, path.names, NodeModel::Leaf(id as int));
                    links_put_wf(b.links, path_key(entry.path), id, b.fs.leaves.len());
                },
                _ => {
                    let content = entry_content(entry, size)->Ok_0;
                    let leaf = LeafModel { stat: entry_stat(entry), content };
                    let id = b.fs.leaves.len();
                    let fs = FileSystemModel { leaves: b.fs.leaves.push(leaf), ..b.fs };
                    ids_below_more(b.fs.root.entries, id, id + 1);
                    assert(tree_wf(fs)) by {
                        assert forall|i: int| 0 <= i < fs.leaves.len() implies in_order(
                            (#[trigger] fs.leaves[i]).stat.xattrs,
                        ) by {
                            if i < id {
                                assert(fs.leaves[i] == b.fs.leaves[i]);
                            }
                        }
                    }
                    place_wf(fs, path.names, NodeModel::Leaf(id as int));
                    links_put_wf(b.links, path_key(entry.path), id as usize, id + 1);
                },
            }
        }
    }
}

/// A key that two paths share where they are the same path.
fn key_of(path: &[u8]) -> (r: Vec<u8>)
    ensures
        r@ == path_key(path@),
{
    components(path).text()
}

/// The metadata that a line gives.
fn entry_to_stat(entry: &Entry) -> (r: Stat)
    ensures
        r@ == entry_stat(entry@),
{
    let ghost all = xattr_models(entry.xattrs@);
    let ghost f = |v: Vec<u8>| v@;
    let mut xattrs: ByteMap<Vec<u8>> = ByteMap::new();
    let mut i: usize = 0;
    assert(map_each(xattrs.pairs(), f) =~= xattr_map(all.take(0)));
    while i < entry.xattrs.len()
        invariant
            i <= entry.xattrs@.len(),
            all == xattr_models(entry.xattrs@),
            f == (|v: Vec<u8>| v@),
            xattrs.wf(),
            map_each(xattrs.pairs(), f) == xattr_map(all.take(i as int)),
        decreases entry.xattrs@.len() - i,
    {
        let xattr: &Xattr = &entry.xattrs[i];
        let key: Vec<u8> = copy(xattr.key.as_slice());
        let value: Vec<u8> = copy(xattr.value.as_slice());
        proof {
            assert(all.take(i + 1).drop_last() =~= all.take(i as int));
            map_each_facts(xattrs.pairs(), f, key@, value);
        }
        xattrs.insert(key, value);
        i = i + 1;
    }
    assert(all.take(i as int) =~= all);
    Stat {
        st_mode: entry.mode & PERMISSIONS,
        st_uid: entry.uid,
        st_gid: entry.gid,
        st_mtim_sec: entry.mtime.sec as i64,
        xattrs,
    }
}

/// What the leaf of a line holds.
fn entry_to_content<ObjectID: FsVerityHashValue>(entry: &Entry) -> (r: Result<LeafContent<ObjectID>, Error>)
    ensures
        match r {
            Ok(content) => entry_content(entry@, ObjectID::size()) == Ok::<ContentModel, Error>(content@),
            Err(e) => entry_content(entry@, ObjectID::size()) == Err::<ContentModel, Error>(e),
        },
{
    match &entry.item {
        Item::RegularInline { content, .. } => Ok(
            LeafContent::Regular(RegularFile::Inline(copy(content.as_slice()))),
        ),
        Item::Regular { size, fsverity_digest, .. } => match fsverity_digest {
            None => Err(Error::MissingDigest),
            Some(digest) => match ObjectID::from_hex(digest.as_slice()) {
                Ok(id) => {
                    proof {
                        id.bytes_size();
                    }
                    Ok(LeafContent::Regular(RegularFile::External(id, *size)))
                },
                Err(e) => Err(e),
            },
        },
        Item::Device { rdev, .. } => if entry.mode & S_IFMT == S_IFBLK {
            Ok(LeafContent::BlockDevice(*rdev))
        } else {
            Ok(LeafContent::CharacterDevice(*rdev))
        },
        Item::Symlink { target, .. } => Ok(LeafContent::Symlink(copy(target.as_slice()))),
        _ => Ok(LeafContent::Fifo),
    }
}

/// Why a line was not accepted.
#[derive(Debug, PartialEq, Eq)]
pub struct LineError {
    /// What went wrong.
    pub error: Error,
    /// What it went wrong with: the path that has no file name, the directory that was not found,
    /// the target of the hard link that was not found, or the line that is not an entry. Nothing
    /// for other errors.
    pub subject: Vec<u8>,
    /// Why the directory was not found.
    pub cause: Option<Error>,
}

impl LineError {
    /// An error that is about nothing but the line.
    fn plain(error: Error) -> (r: Self)
        ensures
            r.error == error,
            r.subject@ == Seq::<u8>::empty(),
            r.cause is None,
    {
        LineError { error, subject: Vec::new(), cause: None }
    }

    /// An error that is about `subject`.
    fn about(error: Error, subject: &[u8]) -> (r: Self)
        ensures
            r.error == error,
            r.subject@ == subject@,
            r.cause is None,
    {
        LineError { error, subject: copy(subject), cause: None }
    }
}

/// The path of the directory that an entry belongs in.
pub open spec fn parent_parts(entry: EntryModel) -> PathParts {
    let path = parts_of(entry.path);
    PathParts { names: path.names.drop_last(), ..path }
}

/// What `e` says of an entry that was not accepted into `b` is so.
pub open spec fn entry_refused(b: Building, entry: EntryModel, size: nat, e: LineError) -> bool {
    &&& add_entry(b, entry, size) == Err::<Building, Error>(e.error)
    &&& e.subject@ == match e.error {
        Error::NoFilename => entry.path,
        Error::ParentNotFound => path_text(parent_parts(entry)),
        Error::HardlinkTargetNotFound => entry.item->Hardlink_target,
        _ => seq![],
    }
    &&& match e.cause {
        Some(cause) => e.error == Error::ParentNotFound && dir_at_path(b.fs.root, parent_parts(entry)) == Err::<
            DirModel,
            Error,
        >(cause),
        None => e.error != Error::ParentNotFound,
    }
}

/// What `e` says of a line that was not accepted into `b` is so.
pub open spec fn line_refused(b: Building, line: Seq<u8>, size: nat, e: LineError) -> bool {
    match parse_line(line) {
        Some(entry) => entry_refused(b, entry, size, e),
        None => e.error == Error::InvalidLine && e.subject@ == line && e.cause is None,
    }
}

/// What `e` says of the first of some lines that was not accepted, after `b`, is so.
pub open spec fn lines_refused(b: Building, lines: Seq<Seq<u8>>, size: nat, e: LineError) -> bool {
    exists|i: int|
        0 <= i < lines.len() && (add_lines(b, lines.take(i), size) matches Ok(before) && !is_blank(lines[i])
            && line_refused(before, #[trigger] lines[i], size, e))
}

/// Puts what a line says into a file system. `hardlinks` holds the leaves by their paths.
pub fn add_entry_to_filesystem<ObjectID: FsVerityHashValue>(
    fs: &mut FileSystem<ObjectID>,
    entry: Entry,
    hardlinks: &mut ByteMap<usize>,
) -> (r: Result<(), LineError>)
    requires
        old(fs).wf(),
        links_wf(old(hardlinks).pairs(), old(fs)@.leaves.len()),
    ensures
        final(fs).wf(),
        links_wf(final(hardlinks).pairs(), final(fs)@.leaves.len()),
        ({
            let before = Building { fs: old(fs)@, links: old(hardlinks).pairs() };
            let after = Building { fs: final(fs)@, links: final(hardlinks).pairs() };
            match r {
                Ok(_) => add_entry(before, entry@, ObjectID::size()) == Ok::<Building, Error>(after),
                Err(e) => entry_refused(before, entry@, ObjectID::size(), e) && after == before,
            }
        }),
{
    let ghost before = Building { fs: fs@, links: hardlinks.pairs() };
    proof {
        assert(before.fs.leaves.len() == fs.leaves.len());
        add_entry_wf(before, entry@, ObjectID::size());
    }
    let mut path: Components = components(entry.path.as_slice());
    let ghost parts = path@;
    if path.absolute && path.names.len() == 0 {
        fs.set_root_stat(entry_to_stat(&entry));
        return Ok(());
    }
    let filename: Vec<u8> = match path.names.pop() {
        Some(name) => name,
        None => {
            return Err(LineError::about(Error::NoFilename, entry.path.as_slice()));
        },
    };
    let up: [u8; 2] = [46u8, 46u8];
    proof {
        assert(up@ =~= dotdot());
        assert(parts.names.last() == filename@);
        assert(path@.names =~= parts.names.drop_last());
    }
    if same_bytes(filename.as_slice(), up.as_slice()) {
        return Err(LineError::about(Error::NoFilename, entry.path.as_slice()));
    }
    if path.dot {
        let cause = Some(Error::InvalidFilename);
        return Err(LineError { error: Error::ParentNotFound, subject: path.text(), cause });
    }
    if let Err(e) = fs.root.descend(&path.names) {
        return Err(LineError { error: Error::ParentNotFound, subject: path.text(), cause: Some(e) });
    }
    let inode: Inode = match &entry.item {
        Item::Directory { .. } => Inode::Directory(Box::new(Directory::new(entry_to_stat(&entry)))),
        Item::Hardlink { target } => {
            let key: Vec<u8> = key_of(target.as_slice());
            match hardlinks.get(key.as_slice()) {
                Some(id) => Inode::Leaf(*id),
                None => {
                    return Err(LineError::about(Error::HardlinkTargetNotFound, target.as_slice()));
                },
            }
        },
        _ => {
            let content: LeafContent<ObjectID> = match entry_to_content(&entry) {
                Ok(content) => content,
                Err(e) => {
                    return Err(LineError::plain(e));
                },
            };
            let id: usize = fs.leaves.len();
            let leaf = Leaf { stat: entry_to_stat(&entry), content };
            fs.leaves.push(leaf);
            proof {
                assert(fs@.leaves =~= before.fs.leaves.push(leaf@));
            }
            Inode::Leaf(id)
        },
    };
    if let Inode::Leaf(id) = &inode {
        hardlinks.insert(key_of(entry.path.as_slice()), *id);
    }
    proof {
        assert(each_bytes(path.names@).skip(0) =~= path@.names);
    }
    match fs.root.descend_mut(&path.names, 0) {
        Ok(dir) => {
            dir.insert(filename, inode);
        },
        Err(_) => {},
    }
    Ok(())
}

/// The number of bytes of the white space character that `s` starts with, in UTF-8: none where
/// it starts with something else.
pub open spec fn white_space_len(s: Seq<u8>) -> nat {
    if s.len() == 0 {
        0
    } else if 9 <= s[0] <= 13 || s[0] == 32 {
        1
    } else if s.len() >= 2 && s[0] == 0xc2 && (s[1] == 0x85 || s[1] == 0xa0) {
        2
    } else if s.len() >= 3 && ((s[0] == 0xe1 && s[1] == 0x9a && s[2] == 0x80) || (s[0] == 0xe2 && s[1] == 0x80
        && (0x80 <= s[2] <= 0x8a || s[2] == 0xa8 || s[2] == 0xa9 || s[2] == 0xaf)) || (s[0] == 0xe2 && s[1]
        == 0x81 && s[2] == 0x9f) || (s[0] == 0xe3 && s[1] == 0x80 && s[2] == 0x80)) {
        3
    } else {
        0
    }
}

/// There is nothing but white space.
pub open spec fn is_blank(s: Seq<u8>) -> bool
    decreases s.len(),
{
    s.len() == 0 || (white_space_len(s) > 0 && is_blank(s.skip(white_space_len(s) as int)))
}

/// A line without a carriage return at its end.
pub open spec fn without_return(line: Seq<u8>) -> Seq<u8> {
    if line.len() > 0 && line.last() == 13 {
        line.drop_last()
    } else {
        line
    }
}

/// What a line of text makes of a file system: nothing where it is blank.
pub open spec fn add_line(b: Building, line: Seq<u8>, size: nat) -> Result<Building, Error> {
    if is_blank(line) {
        Ok(b)
    } else {
        match parse_line(line) {
            Some(entry) => add_entry(b, entry, size),
            None => Err(Error::InvalidLine),
        }
    }
}

/// What the lines of a text make of a file system, up to the first that is not accepted.
pub open spec fn add_lines(b: Building, lines: Seq<Seq<u8>>, size: nat) -> Result<Building, Error>
    decreases lines.len(),
{
    if lines.len() == 0 {
        Ok(b)
    } else {
        match add_lines(b, lines.drop_last(), size) {
            Ok(before) => add_line(before, lines.last(), size),
            Err(e) => Err(e),
        }
    }
}

/// The lines of a text. What follows the last line end is a line too, where it is not empty.
pub open spec fn lines_of(text: Seq<u8>) -> Seq<Seq<u8>> {
    let parts = split(text, 10);
    let ended = Seq::new((parts.len() - 1) as nat, |i: int| without_return(parts[i]));
    if parts.last().len() == 0 {
        ended
    } else {
        ended.push(parts.last())
    }
}

/// Nothing is built yet.
pub open spec fn empty_building() -> Building {
    Building {
        fs: FileSystemModel {
            root: DirModel { stat: default_stat(), entries: seq![] },
            leaves: seq![],
            have_root_stat: false,
        },
        links: seq![],
    }
}

/// The file system that a dumpfile describes, where object identifiers have `size` bytes.
pub open spec fn parse_dump(text: Seq<u8>, size: nat) -> Result<FileSystemModel, Error> {
    match add_lines(empty_building(), lines_of(text), size) {
        Ok(b) => Ok(with_root_stat(b.fs)),
        Err(e) => Err(e),
    }
}

/// Lines are not accepted where some of them, from the first on, are not.
proof fn lines_prefix(b: Building, lines: Seq<Seq<u8>>, n: int, size: nat)
    requires
        0 <= n <= lines.len(),
        add_lines(b, lines.take(n), size) is Err,
    ensures
        add_lines(b, lines, size) == add_lines(b, lines.take(n), size),
    decreases lines.len(),
{
    if n < lines.len() {
        assert(lines.drop_last().take(n) =~= lines.take(n));
        lines_prefix(b, lines.drop_last(), n, size);
    } else {
        assert(lines.take(n) =~= lines);
    }
}

/// Whether there is nothing but white space.
fn blank(line: &[u8]) -> (r: bool)
    ensures
        r == is_blank(line@),
{
    let mut i: usize = 0;
    assert(line@.skip(0) =~= line@);
    while i < line.len()
        invariant
            i <= line@.len(),
            is_blank(line@) == is_blank(line@.skip(i as int)),
        decreases line@.len() - i,
    {
        let ghost rest = line@.skip(i as int);
        let left: usize = line.len() - i;
        let a: u8 = line[i];
        let b: u8 = if left >= 2 {
            line[i + 1]
        } else {
            0
        };
        let c: u8 = if left >= 3 {
            line[i + 2]
        } else {
            0
        };
        let n: usize = if (9 <= a && a <= 13) || a == 32 {
            1
        } else if a == 0xc2 && (b == 0x85 || b == 0xa0) {
            2
        } else if (a == 0xe1 && b == 0x9a && c == 0x80) || (a == 0xe2 && b == 0x80 && ((0x80 <= c && c <= 0x8a) || c
            == 0xa8 || c == 0xa9 || c == 0xaf)) || (a == 0xe2 && b == 0x81 && c == 0x9f) || (a == 0xe3 && b == 0x80
            && c == 0x80) {
            3
        } else {
            0
        };
        assert(n == white_space_len(rest));
        if n == 0 {
            return false;
        }
        assert(rest.skip(n as int) =~= line@.skip(i + n));
        i = i + n;
    }
    true
}

/// The lines of a text.
fn lines(text: &[u8]) -> (r: Vec<Vec<u8>>)
    ensures
        each_bytes(r@) == lines_of(text@),
{
    let mut parts: Vec<Vec<u8>> = split_at(text, 10);
    let ghost all = split(text@, 10);
    proof {
        split_parts_clean(text@, 10);
    }
    let last: Vec<u8> = match parts.pop() {
        Some(last) => last,
        None => Vec::new(),
    };
    let ghost ended = Seq::new((all.len() - 1) as nat, |i: int| without_return(all[i]));
    let mut r: Vec<Vec<u8>> = Vec::new();
    let mut i: usize = 0;
    while i < parts.len()
        invariant
            i <= parts@.len(),
            parts@.len() == ended.len(),
            ended == Seq::new((all.len() - 1) as nat, |i: int| without_return(all[i])),
            forall|j: int| 0 <= j < parts@.len() ==> #[trigger] parts@[j]@ == all[j],
            each_bytes(r@) == ended.take(i as int),
        decreases parts@.len() - i,
    {
        let ghost before = r@;
        let mut line: Vec<u8> = copy(parts[i].as_slice());
        if line.len() > 0 && line[line.len() - 1] == 13 {
            line.pop();
        }
        assert(line@ =~= ended[i as int]);
        r.push(line);
        assert(each_bytes(r@) =~= each_bytes(before).push(ended[i as int]));
        assert(ended.take(i as int).push(ended[i as int]) =~= ended.take(i + 1));
        i = i + 1;
    }
    assert(ended.take(i as int) =~= ended);
    if last.len() > 0 {
        let ghost before = r@;
        r.push(last);
        assert(each_bytes(r@) =~= each_bytes(before).push(last@));
    }
    r
}

/// Builds the file system that a dumpfile describes.
pub fn dumpfile_to_filesystem<ObjectID: FsVerityHashValue>(dumpfile: &str) -> (r: Result<
    FileSystem<ObjectID>,
    LineError,
>)
    ensures
        match r {
            Ok(fs) => parse_dump(dumpfile.spec_bytes(), ObjectID::size()) == Ok::<FileSystemModel, Error>(fs@)
                && fs.wf(),
            Err(e) => {
                &&& parse_dump(dumpfile.spec_bytes(), ObjectID::size()) == Err::<FileSystemModel, Error>(e.error)
                &&& lines_refused(empty_building(), lines_of(dumpfile.spec_bytes()), ObjectID::size(), e)
            },
        },
{
    let mut fs: FileSystem<ObjectID> = FileSystem::default();
    let mut hardlinks: ByteMap<usize> = ByteMap::new();
    let text: Vec<Vec<u8>> = lines(dumpfile.as_bytes());
    let ghost all = lines_of(dumpfile.spec_bytes());
    let ghost size = ObjectID::size();
    let mut i: usize = 0;
    assert(all.take(0) =~= seq![]);
    while i < text.len()
        invariant
            i <= text@.len(),
            each_bytes(text@) == all,
            all == lines_of(dumpfile.spec_bytes()),
            size == ObjectID::size(),
            fs.wf(),
            links_wf(hardlinks.pairs(), fs@.leaves.len()),
            add_lines(empty_building(), all.take(i as int), size) == Ok::<Building, Error>(
                Building { fs: fs@, links: hardlinks.pairs() },
            ),
        decreases text@.len() - i,
    {
        let line: &[u8] = text[i].as_slice();
        let ghost before = Building { fs: fs@, links: hardlinks.pairs() };
        proof {
            assert(all.take(i + 1).drop_last() =~= all.take(i as int));
            assert(all.take(i + 1).last() == line@);
        }
        if !blank(line) {
            let entry: Entry = match Entry::parse(line) {
                Ok(entry) => entry,
                Err(e) => {
                    proof {
                        lines_prefix(empty_building(), all, i + 1, size);
                    }
                    let refused = LineError::about(e, line);
                    assert(line_refused(before, all[i as int], size, refused));
                    return Err(refused);
                },
            };
            if let Err(e) = add_entry_to_filesystem(&mut fs, entry, &mut hardlinks) {
                proof {
                    lines_prefix(empty_building(), all, i + 1, size);
                    assert(line_refused(before, all[i as int], size, e));
                }
                return Err(e);
            }
        }
        i = i + 1;
    }
    assert(all.take(i as int) =~= all);
    fs.ensure_root_stat();
    Ok(fs)
}

} // verus!
