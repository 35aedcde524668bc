//! Reading and writing the composefs dumpfile format.
//!
//! A dumpfile is the text form of a file system tree: a line for each name in it, with the
//! metadata and the extended attributes. A further name of a file that has a line already is
//! written as a hard link.

use vstd::prelude::*;
use crate::bytestr::{append, copy};
use crate::dumpfile_parse::{maybe_bytes, S_IFBLK, S_IFCHR, S_IFDIR, S_IFIFO, S_IFLNK, S_IFREG};
use crate::error::Error;
use crate::fsverity::{hex_text, object_pathname, FsVerityHashValue};
use crate::io::ByteSink;
use crate::path::child_path;
use crate::text::{digits, escape, signed_digits, write_empty, write_escaped, write_number, write_signed};
use crate::tree::{
    ids_below, leaf_models, links_in, saturated, subdirs, ContentModel, DirModel, Directory, FileSystem,
    FileSystemModel, Inode, Leaf, LeafContent, LeafModel, NodeModel, RegularFile, Stat, StatModel,
};

pub use crate::dumpfile_read::{add_entry_to_filesystem, dumpfile_to_filesystem, LineError};

verus! {

/// The type of a socket.
pub const S_IFSOCK: u32 = 0o140000;

/// The type of a file.
#[derive(Clone, Copy, Debug, PartialEq, Eq, Structural)]
pub enum FileType {
    /// A regular file.
    RegularFile,
    /// A directory.
    Directory,
    /// A symbolic link.
    Symlink,
    /// A named pipe.
    Fifo,
    /// A socket.
    Socket,
    /// A character device.
    CharacterDevice,
    /// A block device.
    BlockDevice,
}

impl FileType {
    /// The bits of a mode that stand for it.
    pub open spec fn raw_mode(self) -> u32 {
        match self {
            FileType::RegularFile => S_IFREG,
            FileType::Directory => S_IFDIR,
            FileType::Symlink => S_IFLNK,
            FileType::Fifo => S_IFIFO,
            FileType::Socket => S_IFSOCK,
            FileType::CharacterDevice => S_IFCHR,
            FileType::BlockDevice => S_IFBLK,
        }
    }
}

/// Calls `rustix::fs::FileType::as_raw_mode`, which gives the `S_IF` constant of a file type.
#[verifier::external_body]
fn as_raw_mode(ifmt: FileType) -> (r: u32)
    ensures
        r == ifmt.raw_mode(),
{
    match ifmt {
        FileType::RegularFile => rustix::fs::FileType::RegularFile.as_raw_mode(),
        FileType::Directory => rustix::fs::FileType::Directory.as_raw_mode(),
        FileType::Symlink => rustix::fs::FileType::Symlink.as_raw_mode(),
        FileType::Fifo => rustix::fs::FileType::Fifo.as_raw_mode(),
        FileType::Socket => rustix::fs::FileType::Socket.as_raw_mode(),
        FileType::CharacterDevice => rustix::fs::FileType::CharacterDevice.as_raw_mode(),
        FileType::BlockDevice => rustix::fs::FileType::BlockDevice.as_raw_mode(),
    }
}

/// Fields with a space between each two.
pub open spec fn spaced(fields: Seq<Seq<u8>>) -> Seq<u8>
    decreases fields.len(),
{
    if fields.len() == 0 {
        seq![]
    } else if fields.len() == 1 {
        fields[0]
    } else {
        spaced(fields.drop_last()) + seq![32u8] + fields.last()
    }
}

/// The field of an extended attribute.
pub open spec fn xattr_field(xattr: (Seq<u8>, Seq<u8>)) -> Seq<u8> {
    escape(xattr.0) + seq![61u8] + escape(xattr.1)
}

/// The fields of extended attributes.
pub open spec fn xattr_fields(xattrs: Seq<(Seq<u8>, Seq<u8>)>) -> Seq<Seq<u8>> {
    Seq::new(xattrs.len(), |i: int| xattr_field(xattrs[i]))
}

/// The fields of the line of a file.
pub open spec fn entry_fields(
    path: Seq<u8>,
    stat: StatModel,
    ifmt: FileType,
    size: u64,
    nlink: usize,
    rdev: u64,
    payload: Seq<u8>,
    content: Seq<u8>,
    digest: Option<Seq<u8>>,
) -> Seq<Seq<u8>> {
    seq![
        escape(path),
        digits(size as nat, 10),
        digits((stat.mode | ifmt.raw_mode()) as nat, 8),
        digits(nlink as nat, 10),
        digits(stat.uid as nat, 10),
        digits(stat.gid as nat, 10),
        digits(rdev as nat, 10),
        signed_digits(stat.mtime as int) + seq![46u8, 48u8],
        escape(payload),
        escape(content),
        match digest {
            Some(id) => id,
            None => seq![45u8],
        },
    ] + xattr_fields(stat.xattrs)
}

/// The fields of the line of a directory.
pub open spec fn directory_fields(path: Seq<u8>, stat: StatModel, nlink: usize) -> Seq<Seq<u8>> {
    entry_fields(path, stat, FileType::Directory, 0, nlink, 0, seq![], seq![], None)
}

/// The fields of the line of a leaf.
pub open spec fn leaf_fields(path: Seq<u8>, stat: StatModel, content: ContentModel, nlink: usize) -> Seq<Seq<u8>> {
    match content {
        ContentModel::Inline(data) => entry_fields(
            path,
            stat,
            FileType::RegularFile,
            data.len() as u64,
            nlink,
            0,
            seq![],
            data,
            None,
        ),
        ContentModel::External(id, size) => entry_fields(
            path,
            stat,
            FileType::RegularFile,
            size,
            nlink,
            0,
            object_pathname(id),
            seq![],
            Some(hex_text(id)),
        ),
        ContentModel::BlockDevice(rdev) => entry_fields(
            path,
            stat,
            FileType::BlockDevice,
            0,
            nlink,
            rdev,
            seq![],
            seq![],
            None,
        ),
        ContentModel::CharacterDevice(rdev) => entry_fields(
            path,
            stat,
            FileType::CharacterDevice,
            0,
            nlink,
            rdev,
            seq![],
            seq![],
            None,
        ),
        ContentModel::Fifo => entry_fields(path, stat, FileType::Fifo, 0, nlink, 0, seq![], seq![], None),
        ContentModel::Socket => entry_fields(path, stat, FileType::Socket, 0, nlink, 0, seq![], seq![], None),
        ContentModel::Symlink(target) => entry_fields(
            path,
            stat,
            FileType::Symlink,
            target.len() as u64,
            nlink,
            0,
            target,
            seq![],
            None,
        ),
    }
}

/// A field that is left out.
pub open spec fn dash() -> Seq<u8> {
    seq![45u8]
}

/// The fields of the line of a further name of a file.
pub open spec fn hardlink_fields(path: Seq<u8>, target: Seq<u8>) -> Seq<Seq<u8>> {
    seq![
        escape(path),
        seq![48u8],
        seq![64u8, 49u8, 50u8, 48u8, 48u8, 48u8, 48u8],
        dash(),
        dash(),
        dash(),
        dash(),
        seq![48u8, 46u8, 48u8],
        escape(target),
        dash(),
        dash(),
    ]
}

/// What a further field makes of a line.
proof fn field_added(start: Seq<u8>, fields: Seq<Seq<u8>>, field: Seq<u8>, before: Seq<u8>, after: Seq<u8>)
    requires
        fields.len() > 0,
        before == start + spaced(fields),
        after == before + seq![32u8] + field,
    ensures
        after == start + spaced(fields.push(field)),
{
    assert(fields.push(field).drop_last() =~= fields);
    assert(after =~= start + (spaced(fields) + seq![32u8] + field));
}

/// A line of eleven fields that is written after `start`.
proof fn eleven_fields(start: Seq<u8>, f: Seq<Seq<u8>>)
    requires
        f.len() == 11,
    ensures
        start + spaced(f) == start + f[0] + seq![32u8] + f[1] + seq![32u8] + f[2] + seq![32u8] + f[3] + seq![32u8]
            + f[4] + seq![32u8] + f[5] + seq![32u8] + f[6] + seq![32u8] + f[7] + seq![32u8] + f[8] + seq![32u8]
            + f[9] + seq![32u8] + f[10],
{
    let w0 = start + f[0];
    let w1 = w0 + seq![32u8] + f[1];
    field_added(start, f.take(1), f[1], w0, w1);
    assert(f.take(1).push(f[1]) =~= f.take(2));
    let w2 = w1 + seq![32u8] + f[2];
    field_added(start, f.take(2), f[2], w1, w2);
    assert(f.take(2).push(f[2]) =~= f.take(3));
    let w3 = w2 + seq![32u8] + f[3];
    field_added(start, f.take(3), f[3], w2, w3);
    assert(f.take(3).push(f[3]) =~= f.take(4));
    let w4 = w3 + seq![32u8] + f[4];
    field_added(start, f.take(4), f[4], w3, w4);
    assert(f.take(4).push(f[4]) =~= f.take(5));
    let w5 = w4 + seq![32u8] + f[5];
    field_added(start, f.take(5), f[5], w4, w5);
    assert(f.take(5).push(f[5]) =~= f.take(6));
    let w6 = w5 + seq![32u8] + f[6];
    field_added(start, f.take(6), f[6], w5, w6);
    assert(f.take(6).push(f[6]) =~= f.take(7));
    let w7 = w6 + seq![32u8] + f[7];
    field_added(start, f.take(7), f[7], w6, w7);
    assert(f.take(7).push(f[7]) =~= f.take(8));
    let w8 = w7 + seq![32u8] + f[8];
    field_added(start, f.take(8), f[8], w7, w8);
    assert(f.take(8).push(f[8]) =~= f.take(9));
    let w9 = w8 + seq![32u8] + f[9];
    field_added(start, f.take(9), f[9], w8, w9);
    assert(f.take(9).push(f[9]) =~= f.take(10));
    let w10 = w9 + seq![32u8] + f[10];
    field_added(start, f.take(10), f[10], w9, w10);
    assert(f.take(10).push(f[10]) =~= f.take(11));
    assert(f.take(11) =~= f);
}

/// Adds a number to a line.
fn write_number_field(writer: &mut Vec<u8>, n: u64, radix: u64)
    requires
        2 <= radix <= 10,
    ensures
        final(writer)@ == old(writer)@ + seq![32u8] + digits(n as nat, radix as nat),
{
    writer.push(32);
    assert(writer@ =~= old(writer)@ + seq![32u8]);
    write_number(writer, n, radix);
}

/// Adds a modification time to a line.
fn write_mtime_field(writer: &mut Vec<u8>, sec: i64)
    ensures
        final(writer)@ == old(writer)@ + seq![32u8] + (signed_digits(sec as int) + seq![46u8, 48u8]),
{
    writer.push(32);
    write_signed(writer, sec);
    writer.push(46);
    writer.push(48);
    assert(writer@ =~= old(writer)@ + seq![32u8] + (signed_digits(sec as int) + seq![46u8, 48u8]));
}

/// Adds escaped bytes to a line.
fn write_escaped_field(writer: &mut Vec<u8>, bytes: &[u8])
    ensures
        final(writer)@ == old(writer)@ + seq![32u8] + escape(bytes@),
{
    writer.push(32);
    assert(writer@ =~= old(writer)@ + seq![32u8]);
    write_escaped(writer, bytes);
}

/// Adds the dash that stands for nothing to a line.
fn write_empty_field(writer: &mut Vec<u8>)
    ensures
        final(writer)@ == old(writer)@ + seq![32u8] + dash(),
{
    writer.push(32);
    assert(writer@ =~= old(writer)@ + seq![32u8]);
    write_empty(writer);
}

/// Adds bytes to a line as they are.
fn write_plain_field(writer: &mut Vec<u8>, bytes: &[u8])
    ensures
        final(writer)@ == old(writer)@ + seq![32u8] + bytes@,
{
    writer.push(32);
    assert(writer@ =~= old(writer)@ + seq![32u8]);
    append(writer, bytes);
}

/// Writes the line of a file, without the end of the line.
fn write_entry(
    writer: &mut Vec<u8>,
    path: &[u8],
    stat: &Stat,
    ifmt: FileType,
    size: u64,
    nlink: usize,
    rdev: u64,
    payload: &[u8],
    content: &[u8],
    digest: Option<&[u8]>,
)
    ensures
        final(writer)@ == old(writer)@ + spaced(
            entry_fields(
                path@,
                stat@,
                ifmt,
                size,
                nlink,
                rdev,
                payload@,
                content@,
                match digest {
                    Some(id) => Some(id@),
                    None => None,
                },
            ),
        ),
{
    let mode: u32 = stat.st_mode | as_raw_mode(ifmt);
    let ghost start = writer@;
    write_escaped(writer, path);
    write_number_field(writer, size, 10);
    write_number_field(writer, mode as u64, 8);
    write_number_field(writer, nlink as u64, 10);
    write_number_field(writer, stat.st_uid as u64, 10);
    write_number_field(writer, stat.st_gid as u64, 10);
    write_number_field(writer, rdev, 10);
    write_mtime_field(writer, stat.st_mtim_sec);
    write_escaped_field(writer, payload);
    write_escaped_field(writer, content);
    match digest {
        Some(id) => write_plain_field(writer, id),
        None => write_empty_field(writer),
    }
    let ghost fields = entry_fields(
        path@,
        stat@,
        ifmt,
        size,
        nlink,
        rdev,
        payload@,
        content@,
        match digest {
            Some(id) => Some(id@),
            None => None,
        },
    );
    let ghost f10 = fields.take(11);
    proof {
        eleven_fields(start, f10);
    }
    let ghost xattrs = stat@.xattrs;
    let mut i: usize = 0;
    assert(f10 + xattr_fields(xattrs).take(0) =~= f10);
    while i < stat.xattrs.len()
        invariant
            i <= stat.xattrs.entries@.len(),
            f10.len() == 11,
            xattrs == stat@.xattrs,
            writer@ == start + spaced(f10 + xattr_fields(xattrs).take(i as int)),
        decreases stat.xattrs.entries@.len() - i,
    {
        let ghost w = writer@;
        let ghost all = xattr_fields(xattrs);
        writer.push(32);
        write_escaped(writer, stat.xattrs.entries[i].0.as_slice());
        writer.push(61);
        write_escaped(writer, stat.xattrs.entries[i].1.as_slice());
        proof {
            assert(writer@ =~= w + seq![32u8] + all[i as int]);
            field_added(start, f10 + all.take(i as int), all[i as int], w, writer@);
            assert((f10 + all.take(i as int)).push(all[i as int]) =~= f10 + all.take(i + 1));
        }
        i = i + 1;
    }
    assert(f10 + xattr_fields(xattrs).take(i as int) =~= fields);
}

/// Writes the line of a directory, without the end of the line.
pub fn write_directory(writer: &mut Vec<u8>, path: &[u8], stat: &Stat, nlink: usize)
    ensures
        final(writer)@ == old(writer)@ + spaced(directory_fields(path@, stat@, nlink)),
{
    let none: Vec<u8> = Vec::new();
    write_entry(
        writer,
        path,
        stat,
        FileType::Directory,
        0,
        nlink,
        0,
        none.as_slice(),
        none.as_slice(),
        None,
    );
}

/// Writes the line of a leaf, without the end of the line.
pub fn write_leaf<ObjectID: FsVerityHashValue>(
    writer: &mut Vec<u8>,
    path: &[u8],
    stat: &Stat,
    content: &LeafContent<ObjectID>,
    nlink: usize,
)
    ensures
        final(writer)@ == old(writer)@ + spaced(leaf_fields(path@, stat@, content@, nlink)),
{
    let no_bytes: Vec<u8> = Vec::new();
    let none: &[u8] = no_bytes.as_slice();
    assert(none@ =~= seq![]);
    match content {
        LeafContent::Regular(RegularFile::Inline(data)) => write_entry(
            writer,
            path,
            stat,
            FileType::RegularFile,
            data.len() as u64,
            nlink,
            0,
            none,
            data.as_slice(),
            None,
        ),
        LeafContent::Regular(RegularFile::External(id, size)) => {
            let pathname: Vec<u8> = id.to_object_pathname();
            let hex: Vec<u8> = id.to_hex();
            write_entry(
                writer,
                path,
                stat,
                FileType::RegularFile,
                *size,
                nlink,
                0,
                pathname.as_slice(),
                none,
                Some(hex.as_slice()),
            )
        },
        LeafContent::BlockDevice(rdev) => write_entry(
            writer,
            path,
            stat,
            FileType::BlockDevice,
            0,
            nlink,
            *rdev,
            none,
            none,
            None,
        ),
        LeafContent::CharacterDevice(rdev) => write_entry(
            writer,
            path,
            stat,
            FileType::CharacterDevice,
            0,
            nlink,
            *rdev,
            none,
            none,
            None,
        ),
        LeafContent::Fifo => write_entry(writer, path, stat, FileType::Fifo, 0, nlink, 0, none, none, None),
        LeafContent::Socket => write_entry(
            writer,
            path,
            stat,
            FileType::Socket,
            0,
            nlink,
            0,
            none,
            none,
            None,
        ),
        LeafContent::Symlink(target) => write_entry(
            writer,
            path,
            stat,
            FileType::Symlink,
            target.len() as u64,
            nlink,
            0,
            target.as_slice(),
            none,
            None,
        ),
    }
}

/// Writes the line of a further name of the file at `target`, without the end of the line.
pub fn write_hardlink(writer: &mut Vec<u8>, path: &[u8], target: &[u8])
    ensures
        final(writer)@ == old(writer)@ + spaced(hardlink_fields(path@, target@)),
{
    let ghost start = writer@;
    let mode: [u8; 7] = [64, 49, 50, 48, 48, 48, 48];
    let mtime: [u8; 3] = [48, 46, 48];
    write_escaped(writer, path);
    write_number_field(writer, 0, 10);
    write_plain_field(writer, mode.as_slice());
    write_empty_field(writer);
    write_empty_field(writer);
    write_empty_field(writer);
    write_empty_field(writer);
    write_plain_field(writer, mtime.as_slice());
    write_escaped_field(writer, target);
    write_empty_field(writer);
    write_empty_field(writer);
    proof {
        let f = hardlink_fields(path@, target@);
        eleven_fields(start, f);
        assert(mode@ =~= f[2]);
        assert(mtime@ =~= f[7]);
        assert(digits(0, 10) =~= f[1]);
    }
}

/// A line of a dumpfile.
pub enum Record {
    /// A directory.
    Directory { path: Seq<u8>, stat: StatModel, nlink: usize },
    /// The first name of a leaf, or its only one.
    Leaf { path: Seq<u8>, leaf: LeafModel, nlink: usize },
    /// A further name of a leaf.
    Hardlink { path: Seq<u8>, target: Seq<u8> },
}

/// The fields of a line.
pub open spec fn record_fields(record: Record) -> Seq<Seq<u8>> {
    match record {
        Record::Directory { path, stat, nlink } => directory_fields(path, stat, nlink),
        Record::Leaf { path, leaf, nlink } => leaf_fields(path, leaf.stat, leaf.content, nlink),
        Record::Hardlink { path, target } => hardlink_fields(path, target),
    }
}

/// The text of a line, with its end.
pub open spec fn record_text(record: Record) -> Seq<u8> {
    spaced(record_fields(record)) + seq![10u8]
}

/// The text of some lines.
pub open spec fn records_text(records: Seq<Record>) -> Seq<u8>
    decreases records.len(),
{
    if records.len() == 0 {
        seq![]
    } else {
        records_text(records.drop_last()) + record_text(records.last())
    }
}

/// How far a walk through a tree has come.
pub struct Walk {
    /// The lines so far.
    pub records: Seq<Record>,
    /// For each leaf that has more than one name, the name that was met first.
    pub seen: Seq<Option<Seq<u8>>>,
}

/// What a walk knows of all leaves of a file system.
pub struct Leaves {
    /// The leaves.
    pub leaves: Seq<LeafModel>,
    /// The number of names of each.
    pub counts: Seq<usize>,
}

/// The line of a directory: it has two names, and one more for each directory in it.
pub open spec fn walk_directory(path: Seq<u8>, dir: DirModel, walk: Walk) -> Walk {
    Walk {
        records: walk.records.push(
            Record::Directory { path, stat: dir.stat, nlink: saturated(2 + subdirs(dir.entries)) },
        ),
        ..walk
    }
}

/// The line of a name of a leaf: the first name has all of it, and the others lead to that one.
pub open spec fn walk_leaf(path: Seq<u8>, id: int, all: Leaves, walk: Walk) -> Walk {
    let record = Record::Leaf { path, leaf: all.leaves[id], nlink: all.counts[id] };
    if all.counts[id] > 1 {
        match walk.seen[id] {
            Some(target) => Walk { records: walk.records.push(Record::Hardlink { path, target }), ..walk },
            None => Walk { records: walk.records.push(record), seen: walk.seen.update(id, Some(path)) },
        }
    } else {
        Walk { records: walk.records.push(record), ..walk }
    }
}

/// The lines of the entries of the directory at `path`, in order, each directory before what is
/// in it.
pub open spec fn walk_entries(
    path: Seq<u8>,
    entries: Seq<(Seq<u8>, NodeModel)>,
    all: Leaves,
    walk: Walk,
) -> Walk
    decreases entries,
{
    if entries.len() == 0 {
        walk
    } else {
        let before = walk_entries(path, entries.drop_last(), all, walk);
        let child = child_path(path, entries.last().0);
        match entries.last().1 {
            NodeModel::Directory(d) => walk_entries(child, d.entries, all, walk_directory(child, d, before)),
            NodeModel::Leaf(id) => walk_leaf(child, id, all, before),
        }
    }
}

/// What is known of the leaves of a file system.
pub open spec fn leaves_of(fs: FileSystemModel) -> Leaves {
    Leaves {
        leaves: fs.leaves,
        counts: Seq::new(fs.leaves.len(), |id: int| saturated(links_in(fs.root.entries, id))),
    }
}

/// The walk through a whole file system.
pub open spec fn walk_tree(fs: FileSystemModel) -> Walk {
    let start = Walk { records: seq![], seen: Seq::new(fs.leaves.len(), |id: int| None) };
    walk_entries(seq![47u8], fs.root.entries, leaves_of(fs), walk_directory(seq![47u8], fs.root, start))
}

/// The dumpfile of a file system.
pub open spec fn dump(fs: FileSystemModel) -> Seq<u8> {
    records_text(walk_tree(fs).records)
}

/// A walk that starts in the middle goes on as it would from the beginning.
proof fn walk_from(path: Seq<u8>, entries: Seq<(Seq<u8>, NodeModel)>, all: Leaves, walk: Walk)
    ensures
        ({
            let new = walk_entries(path, entries, all, Walk { records: seq![], ..walk });
            walk_entries(path, entries, all, walk) == Walk { records: walk.records + new.records, ..new }
        }),
    decreases entries,
{
    let fresh = Walk { records: seq![], ..walk };
    if entries.len() == 0 {
        assert(walk.records + fresh.records =~= walk.records);
    } else {
        walk_from(path, entries.drop_last(), all, walk);
        let before = walk_entries(path, entries.drop_last(), all, walk);
        let since = walk_entries(path, entries.drop_last(), all, fresh);
        let child = child_path(path, entries.last().0);
        match entries.last().1 {
            NodeModel::Directory(d) => {
                let a = walk_directory(child, d, before);
                let b = walk_directory(child, d, since);
                walk_from(child, d.entries, all, a);
                walk_from(child, d.entries, all, b);
                let inner = walk_entries(child, d.entries, all, Walk { records: seq![], ..a });
                assert(a.records + inner.records =~= walk.records + (b.records + inner.records));
            },
            NodeModel::Leaf(id) => {
                assert(walk_leaf(child, id, all, before).records =~= walk.records + walk_leaf(
                    child,
                    id,
                    all,
                    since,
                ).records);
            },
        }
    }
}

/// The text of lines in a row.
proof fn records_text_concat(a: Seq<Record>, b: Seq<Record>)
    ensures
        records_text(a + b) == records_text(a) + records_text(b),
    decreases b.len(),
{
    if b.len() == 0 {
        assert(a + b =~= a);
        assert(records_text(a) + records_text(b) =~= records_text(a));
    } else {
        records_text_concat(a, b.drop_last());
        assert((a + b).drop_last() =~= a + b.drop_last());
        assert(records_text(a) + (records_text(b.drop_last()) + record_text(b.last())) =~= records_text(a)
            + records_text(b.drop_last()) + record_text(b.last()));
    }
}

/// The lines of one entry.
spec fn walk_entry(path: Seq<u8>, entry: (Seq<u8>, NodeModel), all: Leaves, walk: Walk) -> Walk {
    let child = child_path(path, entry.0);
    match entry.1 {
        NodeModel::Directory(d) => walk_entries(child, d.entries, all, walk_directory(child, d, walk)),
        NodeModel::Leaf(id) => walk_leaf(child, id, all, walk),
    }
}

/// A walk goes on with the lines of one more entry.
proof fn walk_step(path: Seq<u8>, entries: Seq<(Seq<u8>, NodeModel)>, i: int, all: Leaves, first: Walk)
    requires
        0 <= i < entries.len(),
    ensures
        ({
            let before = walk_entries(path, entries.take(i), all, first);
            let after = walk_entries(path, entries.take(i + 1), all, first);
            let new = walk_entry(path, entries[i], all, Walk { records: seq![], ..before });
            &&& records_text(after.records) == records_text(before.records) + records_text(new.records)
            &&& after.seen == new.seen
        }),
{
    assert(entries.take(i + 1).drop_last() =~= entries.take(i));
    let before = walk_entries(path, entries.take(i), all, first);
    let after = walk_entries(path, entries.take(i + 1), all, first);
    let fresh = Walk { records: seq![], ..before };
    let new = walk_entry(path, entries[i], all, fresh);
    let child = child_path(path, entries[i].0);
    match entries[i].1 {
        NodeModel::Directory(d) => {
            let a = walk_directory(child, d, before);
            let b = walk_directory(child, d, fresh);
            walk_from(child, d.entries, all, a);
            walk_from(child, d.entries, all, b);
            let inner = walk_entries(child, d.entries, all, fresh).records;
            assert(a.records + inner =~= before.records + (b.records + inner));
        },
        NodeModel::Leaf(id) => {
            assert(after.records =~= before.records + new.records);
        },
    }
    records_text_concat(before.records, new.records);
}

/// Writes a line and its end.
fn writeln_fmt<W: ByteSink>(writer: &mut W, line: Vec<u8>) -> (r: Result<(), Error>)
    ensures
        match r {
            Ok(_) => final(writer).written() == old(writer).written() + (line@ + seq![10u8]),
            Err(e) => e == Error::Io,
        },
        old(writer).reliable() ==> r is Ok && final(writer).reliable(),
{
    let mut line: Vec<u8> = line;
    let ghost text = line@;
    line.push(10);
    assert(line@ =~= text + seq![10u8]);
    writer.write_all(line.as_slice())
}

/// The names that were seen, as values.
spec fn seen_models(seen: Seq<Option<Vec<u8>>>) -> Seq<Option<Seq<u8>>> {
    Seq::new(seen.len(), |i: int| maybe_bytes(seen[i]))
}

/// The path of the entry `name` of the directory at `path`.
fn child_of(path: &[u8], name: &[u8]) -> (r: Vec<u8>)
    ensures
        r@ == child_path(path@, name@),
{
    let mut r: Vec<u8> = copy(path);
    let root: bool = path.len() == 1 && path[0] == 47;
    proof {
        if root {
            assert(path@ =~= seq![47u8]);
        }
    }
    if !root {
        r.push(47);
    }
    append(&mut r, name);
    assert(r@ =~= child_path(path@, name@));
    r
}

/// The text of a single line.
proof fn one_record(record: Record)
    ensures
        records_text(Seq::<Record>::empty().push(record)) == record_text(record),
{
    let one = Seq::<Record>::empty().push(record);
    assert(one.drop_last() =~= Seq::<Record>::empty());
    assert(records_text(one.drop_last()) =~= Seq::<u8>::empty());
    assert(records_text(one) =~= record_text(record));
}

/// Writes the lines of a tree.
struct DumpfileWriter {
    hardlinks: Vec<Option<Vec<u8>>>,
    counts: Vec<usize>,
}

impl DumpfileWriter {
    /// The walk that starts here.
    spec fn walk(self) -> Walk {
        Walk { records: seq![], seen: seen_models(self.hardlinks@) }
    }

    /// A writer that no name of a leaf was met by yet.
    fn new<ObjectID: FsVerityHashValue>(fs: &FileSystem<ObjectID>) -> (r: Self)
        requires
            fs.wf(),
        ensures
            r.counts@ == leaves_of(fs@).counts,
            r.hardlinks@.len() == fs@.leaves.len(),
            r.walk() == (Walk { records: seq![], seen: Seq::new(fs@.leaves.len(), |id: int| None) }),
    {
        let mut hardlinks: Vec<Option<Vec<u8>>> = Vec::new();
        let mut i: usize = 0;
        while i < fs.leaves.len()
            invariant
                i <= fs.leaves@.len(),
                hardlinks@.len() == i,
                forall|j: int| 0 <= j < i ==> hardlinks@[j] is None,
            decreases fs.leaves@.len() - i,
        {
            hardlinks.push(None);
            i = i + 1;
        }
        let counts: Vec<usize> = fs.link_counts();
        let r = DumpfileWriter { hardlinks, counts };
        assert(counts@ =~= leaves_of(fs@).counts);
        assert(r.walk().seen =~= Seq::new(fs@.leaves.len(), |id: int| None));
        r
    }

    /// Writes the line of a name of a leaf.
    fn write_leaf<W: ByteSink, ObjectID: FsVerityHashValue>(
        &mut self,
        writer: &mut W,
        path: &Vec<u8>,
        leaves: &Vec<Leaf<ObjectID>>,
        id: usize,
    ) -> (r: Result<(), Error>)
        requires
            id < leaves@.len(),
            old(self).counts@.len() == leaves@.len(),
            old(self).hardlinks@.len() == leaves@.len(),
        ensures
            ({
                let all = Leaves { leaves: leaf_models(leaves@), counts: old(self).counts@ };
                let w = walk_leaf(path@, id as int, all, old(self).walk());
                match r {
                    Ok(_) => {
                        &&& final(writer).written() == old(writer).written() + records_text(w.records)
                        &&& seen_models(final(self).hardlinks@) == w.seen
                    },
                    Err(e) => e == Error::Io,
                }
            }),
            final(self).counts@ == old(self).counts@,
            final(self).hardlinks@.len() == old(self).hardlinks@.len(),
            old(writer).reliable() ==> r is Ok && final(writer).reliable(),
    {
        let nlink: usize = self.counts[id];
        let mut line: Vec<u8> = Vec::new();
        let ghost before = self.walk();
        if nlink > 1 {
            if let Some(target) = &self.hardlinks[id] {
                write_hardlink(&mut line, path.as_slice(), target.as_slice());
                proof {
                    let record = Record::Hardlink { path: path@, target: target@ };
                    one_record(record);
                    assert(line@ + seq![10u8] =~= record_text(record));
                }
                return writeln_fmt(writer, line);
            }
            self.hardlinks[id] = Some(copy(path.as_slice()));
            assert(seen_models(self.hardlinks@) =~= before.seen.update(id as int, Some(path@)));
        }
        write_leaf(&mut line, path.as_slice(), &leaves[id].stat, &leaves[id].content, nlink);
        proof {
            let record = Record::Leaf { path: path@, leaf: leaf_models(leaves@)[id as int], nlink };
            one_record(record);
            assert(line@ + seq![10u8] =~= record_text(record));
        }
        writeln_fmt(writer, line)
    }

    /// Writes the lines of a directory and of all that is in it.
    fn write_dir<W: ByteSink, ObjectID: FsVerityHashValue>(
        &mut self,
        writer: &mut W,
        path: &Vec<u8>,
        dir: &Directory,
        leaves: &Vec<Leaf<ObjectID>>,
    ) -> (r: Result<(), Error>)
        requires
            ids_below(dir@.entries, leaves@.len()),
            old(self).counts@.len() == leaves@.len(),
            old(self).hardlinks@.len() == leaves@.len(),
        ensures
            ({
                let all = Leaves { leaves: leaf_models(leaves@), counts: old(self).counts@ };
                let w = walk_entries(path@, dir@.entries, all, walk_directory(path@, dir@, old(self).walk()));
                match r {
                    Ok(_) => {
                        &&& final(writer).written() == old(writer).written() + records_text(w.records)
                        &&& seen_models(final(self).hardlinks@) == w.seen
                    },
                    Err(e) => e == Error::Io,
                }
            }),
            final(self).counts@ == old(self).counts@,
            final(self).hardlinks@.len() == old(self).hardlinks@.len(),
            old(writer).reliable() ==> r is Ok && final(writer).reliable(),
        decreases dir,
    {
        let ghost all = Leaves { leaves: leaf_models(leaves@), counts: self.counts@ };
        let ghost start = writer.written();
        let ghost first = walk_directory(path@, dir@, self.walk());
        let ghost entries = dir@.entries;
        let mut nlink: usize = 2;
        let mut i: usize = 0;
        assert(entries.take(0) =~= seq![]);
        while i < dir.entries.len()
            invariant
                i <= dir.entries.entries@.len(),
                entries == dir@.entries,
                entries.len() == dir.entries.entries@.len(),
                nlink == saturated(2 + subdirs(entries.take(i as int))),
            decreases dir.entries.entries@.len() - i,
        {
            assert(entries.take(i + 1).drop_last() =~= entries.take(i as int));
            if let Inode::Directory(_) = &dir.entries.entries[i].1 {
                nlink = nlink.saturating_add(1);
            }
            i = i + 1;
        }
        assert(entries.take(i as int) =~= entries);
        let mut line: Vec<u8> = Vec::new();
        write_directory(&mut line, path.as_slice(), &dir.stat, nlink);
        proof {
            one_record(first.records[0]);
            assert(line@ + seq![10u8] =~= record_text(first.records[0]));
        }
        writeln_fmt(writer, line)?;
        i = 0;
        while i < dir.entries.len()
            invariant
                i <= dir.entries.entries@.len(),
                entries == dir@.entries,
                entries.len() == dir.entries.entries@.len(),
                ids_below(entries, leaves@.len()),
                all == (Leaves { leaves: leaf_models(leaves@), counts: self.counts@ }),
                self.counts@ == old(self).counts@,
                self.counts@.len() == leaves@.len(),
                self.hardlinks@.len() == leaves@.len(),
                old(self).hardlinks@.len() == leaves@.len(),
                first == walk_directory(path@, dir@, old(self).walk()),
                ({
                    let w = walk_entries(path@, entries.take(i as int), all, first);
                    &&& writer.written() == start + records_text(w.records)
                    &&& seen_models(self.hardlinks@) == w.seen
                }),
                start == old(writer).written(),
                old(writer).reliable() ==> writer.reliable(),
            decreases dir.entries.entries@.len() - i,
        {
            proof {
                walk_step(path@, entries, i as int, all, first);
            }
            let child: Vec<u8> = child_of(path.as_slice(), dir.entries.entries[i].0.as_slice());
            match &dir.entries.entries[i].1 {
                Inode::Directory(d) => {
                    self.write_dir(writer, &child, d, leaves)?;
                },
                Inode::Leaf(id) => {
                    self.write_leaf(writer, &child, leaves, *id)?;
                },
            }
            assert(writer.written() =~= start + records_text(
                walk_entries(path@, entries.take(i + 1), all, first).records,
            ));
            i = i + 1;
        }
        assert(entries.take(i as int) =~= entries);
        Ok(())
    }
}

/// Writes a whole file system tree to the composefs dumpfile format.
///
/// The entries of each directory come in the order of their names, and each further name of a
/// leaf is a hard link to the name that was written first.
pub fn write_dumpfile<W: ByteSink, ObjectID: FsVerityHashValue>(
    writer: &mut W,
    fs: &FileSystem<ObjectID>,
) -> (r: Result<(), Error>)
    requires
        fs.wf(),
    ensures
        match r {
            Ok(_) => final(writer).written() == old(writer).written() + dump(fs@),
            Err(e) => e == Error::Io,
        },
        old(writer).reliable() ==> r is Ok && final(writer).reliable(),
{
    let mut dfw: DumpfileWriter = DumpfileWriter::new(fs);
    let mut path: Vec<u8> = Vec::new();
    path.push(47);
    assert(path@ =~= seq![47u8]);
    dfw.write_dir(writer, &path, &fs.root, &fs.leaves)
}

} // verus!
