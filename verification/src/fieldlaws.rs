//! What stands in the fields of a line of a dumpfile, whatever the line tells of.

use vstd::prelude::*;
use crate::bytestr::split;
use crate::dumpfile::{
    directory_fields, entry_fields, hardlink_fields, leaf_fields, spaced, write_directory, write_hardlink, write_leaf,
    FileType,
};
use crate::fsverity::{hex_text, hex_text_plain, object_pathname, FsVerityHashValue};
use crate::linelaws::{all_plain, entry_plain, escape_plain, plain, spaced_split};
use crate::text::{digits, escape};
use crate::tree::{LeafContent, RegularFile, Stat};

verus! {

/// The number of bytes of a leaf that a line tells: the length of inline content and of the target of
/// a symbolic link, the size of an object, and nothing for the others.
pub open spec fn told_size<ObjectID: FsVerityHashValue>(content: LeafContent<ObjectID>) -> nat {
    match content {
        LeafContent::Regular(RegularFile::Inline(data)) => data@.len(),
        LeafContent::Regular(RegularFile::External(_, size)) => size as nat,
        LeafContent::Symlink(target) => target@.len(),
        _ => 0,
    }
}

/// The bits of a mode that tell the type of a leaf.
pub open spec fn told_type<ObjectID: FsVerityHashValue>(content: LeafContent<ObjectID>) -> u32 {
    match content {
        LeafContent::Regular(_) => 0o100000,
        LeafContent::BlockDevice(_) => 0o60000,
        LeafContent::CharacterDevice(_) => 0o20000,
        LeafContent::Fifo => 0o10000,
        LeafContent::Socket => 0o140000,
        LeafContent::Symlink(_) => 0o120000,
    }
}

/// The device that a line tells.
pub open spec fn told_device<ObjectID: FsVerityHashValue>(content: LeafContent<ObjectID>) -> u64 {
    match content {
        LeafContent::BlockDevice(rdev) => rdev,
        LeafContent::CharacterDevice(rdev) => rdev,
        _ => 0,
    }
}

/// What a line leads to: the place of an object, or the target of a symbolic link.
pub open spec fn told_payload<ObjectID: FsVerityHashValue>(content: LeafContent<ObjectID>) -> Seq<u8> {
    match content {
        LeafContent::Regular(RegularFile::External(id, _)) => object_pathname(id.bytes()),
        LeafContent::Symlink(target) => target@,
        _ => seq![],
    }
}

/// The content that a line holds.
pub open spec fn told_content<ObjectID: FsVerityHashValue>(content: LeafContent<ObjectID>) -> Seq<u8> {
    match content {
        LeafContent::Regular(RegularFile::Inline(data)) => data@,
        _ => seq![],
    }
}

/// The digest that a line holds: an identifier in hexadecimal, or a dash.
pub open spec fn told_digest<ObjectID: FsVerityHashValue>(content: LeafContent<ObjectID>) -> Seq<u8> {
    match content {
        LeafContent::Regular(RegularFile::External(id, _)) => hex_text(id.bytes()),
        _ => seq![45u8],
    }
}

/// The fields of a line, between the spaces, are these, and then the extended attributes, with `=`
/// between the name and the value of each.
pub open spec fn line_tells(
    line: Seq<u8>,
    path: Seq<u8>,
    size: nat,
    mode: u32,
    nlink: usize,
    rdev: u64,
    payload: Seq<u8>,
    content: Seq<u8>,
    digest: Seq<u8>,
    stat: Stat,
) -> bool {
    let f = split(line, 32);
    &&& f.len() == 11 + stat.xattrs.entries@.len()
    &&& f[0] == escape(path)
    &&& f[1] == digits(size, 10)
    &&& f[2] == digits(mode as nat, 8)
    &&& f[3] == digits(nlink as nat, 10)
    &&& f[4] == digits(stat.st_uid as nat, 10)
    &&& f[5] == digits(stat.st_gid as nat, 10)
    &&& f[6] == digits(rdev as nat, 10)
    &&& f[7] == (if stat.st_mtim_sec >= 0 {
        digits(stat.st_mtim_sec as nat, 10)
    } else {
        seq![45u8] + digits((-stat.st_mtim_sec) as nat, 10)
    }) + seq![46u8, 48u8]
    &&& f[8] == escape(payload)
    &&& f[9] == escape(content)
    &&& f[10] == digest
    &&& forall|i: int|
        0 <= i < stat.xattrs.entries@.len() ==> f[11 + i] == escape((#[trigger] stat.xattrs.entries@[i]).0@)
            + seq![61u8] + escape(stat.xattrs.entries@[i].1@)
}

/// What the fields of a line tell, in general.
proof fn fields_tell(
    path: Seq<u8>,
    stat: Stat,
    ifmt: FileType,
    size: u64,
    nlink: usize,
    rdev: u64,
    payload: Seq<u8>,
    content: Seq<u8>,
    digest: Option<Seq<u8>>,
)
    requires
        digest matches Some(id) ==> plain(id),
    ensures
        line_tells(
            spaced(entry_fields(path, stat@, ifmt, size, nlink, rdev, payload, content, digest)),
            path,
            size as nat,
            stat.st_mode | ifmt.raw_mode(),
            nlink,
            rdev,
            payload,
            content,
            match digest {
                Some(id) => id,
                None => seq![45u8],
            },
            stat,
        ),
{
    let fields = entry_fields(path, stat@, ifmt, size, nlink, rdev, payload, content, digest);
    entry_plain(path, stat@, ifmt, size, nlink, rdev, payload, content, digest);
    spaced_split(fields);
    assert(fields.len() == 11 + stat.xattrs.entries@.len());
    assert forall|i: int| 0 <= i < stat.xattrs.entries@.len() implies fields[11 + i] == escape(
        (#[trigger] stat.xattrs.entries@[i]).0@,
    ) + seq![61u8] + escape(stat.xattrs.entries@[i].1@) by {
        assert(stat@.xattrs[i] == (stat.xattrs.entries@[i].0@, stat.xattrs.entries@[i].1@));
    }
}

/// The line of a leaf tells its path, its size, its mode with its type, its names, its owner and
/// group, its device, its time, where it leads, its content, its digest and its attributes, each in
/// its field, whatever they are and however long.
pub proof fn leaf_line_tells_all<ObjectID: FsVerityHashValue>(
    writer: &mut Vec<u8>,
    path: &[u8],
    stat: &Stat,
    content: &LeafContent<ObjectID>,
    nlink: usize,
    line: Seq<u8>,
)
    requires
        told_size(*content) <= u64::MAX,
        call_ensures(write_leaf::<ObjectID>, (writer, path, stat, content, nlink), ()),
        line == final(writer)@.skip(old(writer)@.len() as int),
    ensures
        final(writer)@ == old(writer)@ + line,
        line_tells(
            line,
            path@,
            told_size(*content),
            stat.st_mode | told_type(*content),
            nlink,
            told_device(*content),
            told_payload(*content),
            told_content(*content),
            told_digest(*content),
            *stat,
        ),
{
    let text = spaced(leaf_fields(path@, stat@, content@, nlink));
    assert(line =~= text);
    let none = Seq::<u8>::empty();
    match *content {
        LeafContent::Regular(RegularFile::Inline(data)) => {
            fields_tell(path@, *stat, FileType::RegularFile, data@.len() as u64, nlink, 0, none, data@, None);
        },
        LeafContent::Regular(RegularFile::External(id, size)) => {
            ObjectID::size_bounds();
            id.bytes_size();
            hex_text_plain(id.bytes());
            assert(plain(hex_text(id.bytes())));
            let place = object_pathname(id.bytes());
            fields_tell(
                path@,
                *stat,
                FileType::RegularFile,
                size,
                nlink,
                0,
                place,
                none,
                Some(hex_text(id.bytes())),
            );
        },
        LeafContent::BlockDevice(rdev) => {
            fields_tell(path@, *stat, FileType::BlockDevice, 0, nlink, rdev, none, none, None);
        },
        LeafContent::CharacterDevice(rdev) => {
            fields_tell(path@, *stat, FileType::CharacterDevice, 0, nlink, rdev, none, none, None);
        },
        LeafContent::Fifo => {
            fields_tell(path@, *stat, FileType::Fifo, 0, nlink, 0, none, none, None);
        },
        LeafContent::Socket => {
            fields_tell(path@, *stat, FileType::Socket, 0, nlink, 0, none, none, None);
        },
        LeafContent::Symlink(target) => {
            fields_tell(path@, *stat, FileType::Symlink, target@.len() as u64, nlink, 0, target@, none, None);
        },
    }
}

/// The line of a directory tells its path, its mode, its names, its owner and group, its time and its
/// attributes, each in its field, and that it has no size, no device, no content and no digest.
pub proof fn directory_line_tells_all(
    writer: &mut Vec<u8>,
    path: &[u8],
    stat: &Stat,
    nlink: usize,
    line: Seq<u8>,
)
    requires
        call_ensures(write_directory, (writer, path, stat, nlink), ()),
        line == final(writer)@.skip(old(writer)@.len() as int),
    ensures
        final(writer)@ == old(writer)@ + line,
        line_tells(line, path@, 0, stat.st_mode | 0o40000, nlink, 0, seq![], seq![], seq![45u8], *stat),
{
    assert(line =~= spaced(directory_fields(path@, stat@, nlink)));
    fields_tell(path@, *stat, FileType::Directory, 0, nlink, 0, seq![], seq![], None);
}

/// The line of a further name tells its path, that it is one, and its target, and nothing else.
pub proof fn hardlink_line_tells_all(writer: &mut Vec<u8>, path: &[u8], target: &[u8], line: Seq<u8>)
    requires
        call_ensures(write_hardlink, (writer, path, target), ()),
        line == final(writer)@.skip(old(writer)@.len() as int),
    ensures
        final(writer)@ == old(writer)@ + line,
        ({
            let f = split(line, 32);
            &&& f.len() == 11
            &&& f[0] == escape(path@)
            &&& f[1] == digits(0, 10)
            &&& f[2] == seq![64u8] + digits(0o120000, 8)
            &&& f[3] == seq![45u8] && f[4] == seq![45u8] && f[5] == seq![45u8] && f[6] == seq![45u8]
            &&& f[7] == digits(0, 10) + seq![46u8, 48u8]
            &&& f[8] == escape(target@)
            &&& f[9] == seq![45u8] && f[10] == seq![45u8]
        }),
{
    let fields = hardlink_fields(path@, target@);
    assert(line =~= spaced(fields));
    escape_plain(path@);
    escape_plain(target@);
    assert(all_plain(fields)) by {
        assert forall|i: int| 0 <= i < fields.len() implies plain(#[trigger] fields[i]) by {
            assert(i == 0 || i == 1 || i == 2 || i == 3 || i == 4 || i == 5 || i == 6 || i == 7 || i == 8 || i == 9 || i
                == 10);
        }
    }
    spaced_split(fields);
    reveal_with_fuel(digits, 7);
    assert(digits(0, 10) =~= seq![48u8]);
    assert(digits(0o120000, 8) =~= seq![49u8, 50u8, 48u8, 48u8, 48u8, 48u8]);
    assert(seq![64u8] + digits(0o120000, 8) =~= fields[2]);
    assert(digits(0, 10) + seq![46u8, 48u8] =~= fields[7]);
}

} // verus!
