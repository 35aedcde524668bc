//! Parsing the lines of a dumpfile.

use vstd::prelude::*;
use crate::bytestr::{copy, split, split_at, until, until_is};
use crate::error::Error;
use crate::path::{canonical, components, each_bytes, Components};
use crate::text::{number_upto, read_escaped, read_number, unescape};

verus! {

/// The bits of a mode that tell the type of a file.
pub const S_IFMT: u32 = 0o170000;

/// The type of a directory.
pub const S_IFDIR: u32 = 0o040000;

/// The type of a regular file.
pub const S_IFREG: u32 = 0o100000;

/// The type of a symbolic link.
pub const S_IFLNK: u32 = 0o120000;

/// The type of a block device.
pub const S_IFBLK: u32 = 0o060000;

/// The type of a character device.
pub const S_IFCHR: u32 = 0o020000;

/// The type of a named pipe.
pub const S_IFIFO: u32 = 0o010000;

/// What kind of file a line is about, as values.
pub enum ItemModel {
    /// A file with its content.
    RegularInline { nlink: u32, content: Seq<u8> },
    /// A file whose content is kept at a path.
    Regular { size: u64, nlink: u32, path: Seq<u8>, fsverity_digest: Option<Seq<u8>> },
    /// A device.
    Device { nlink: u32, rdev: u64 },
    /// A symbolic link.
    Symlink { nlink: u32, target: Seq<u8> },
    /// Another name for the file at a path.
    Hardlink { target: Seq<u8> },
    /// A named pipe.
    Fifo { nlink: u32 },
    /// A directory.
    Directory { size: u64, nlink: u32 },
}

/// A line, as values.
pub struct EntryModel {
    /// The path.
    pub path: Seq<u8>,
    /// The owner.
    pub uid: u32,
    /// The group.
    pub gid: u32,
    /// The type and the permission bits.
    pub mode: u32,
    /// The modification time.
    pub mtime: Mtime,
    /// The kind of file.
    pub item: ItemModel,
    /// The extended attributes, as they stand in the line.
    pub xattrs: Seq<(Seq<u8>, Seq<u8>)>,
}

/// A field, or nothing where it is a dash.
pub open spec fn optional(field: Seq<u8>) -> Option<Seq<u8>> {
    if field == seq![45u8] {
        None
    } else {
        Some(field)
    }
}

/// A mode in octal, and whether the sign of a hardlink stands before it.
pub open spec fn parse_mode(field: Seq<u8>) -> Option<(bool, u32)> {
    let hardlink = field.len() > 0 && field[0] == 64;
    let text = if hardlink {
        field.skip(1)
    } else {
        field
    };
    match number_upto(text, 8, u32::MAX as u64) {
        Some(mode) => Some((hardlink, mode as u32)),
        None => None,
    }
}

/// Seconds, a point, and nanoseconds.
pub open spec fn parse_mtime(field: Seq<u8>) -> Option<Mtime> {
    let n = until(field, 46) as int;
    if n >= field.len() {
        None
    } else {
        match (
            number_upto(field.take(n), 10, u64::MAX),
            number_upto(field.skip(n + 1), 10, u64::MAX),
        ) {
            (Some(sec), Some(nsec)) => Some(Mtime { sec, nsec }),
            _ => None,
        }
    }
}

/// The name of an extended attribute, `=`, and its value.
pub open spec fn parse_xattr(field: Seq<u8>) -> Option<(Seq<u8>, Seq<u8>)> {
    let n = until(field, 61) as int;
    if n >= field.len() {
        None
    } else {
        match (unescape(field.take(n)), unescape(field.skip(n + 1))) {
            (Some(key), Some(value)) => Some((key, value)),
            _ => None,
        }
    }
}

/// A row of extended attributes.
pub open spec fn parse_xattrs(fields: Seq<Seq<u8>>) -> Option<Seq<(Seq<u8>, Seq<u8>)>>
    decreases fields.len(),
{
    if fields.len() == 0 {
        Some(seq![])
    } else {
        match (parse_xattrs(fields.drop_last()), parse_xattr(fields.last())) {
            (Some(xattrs), Some(xattr)) => Some(xattrs.push(xattr)),
            _ => None,
        }
    }
}

/// An escaped path in canonical form.
pub open spec fn parse_path(field: Seq<u8>) -> Option<Seq<u8>> {
    match unescape(field) {
        Some(path) => canonical(path),
        None => None,
    }
}

/// The kind of file that the fields of a line tell of.
pub open spec fn parse_item(
    mode: u32,
    size: u64,
    nlink: u32,
    rdev: u64,
    payload: Option<Seq<u8>>,
    content: Option<Seq<u8>>,
    digest: Option<Seq<u8>>,
) -> Option<ItemModel> {
    let kind = mode & S_IFMT;
    let bare = content is None && digest is None;
    if kind == S_IFREG && rdev == 0 {
        match payload {
            Some(text) => match unescape(text) {
                Some(path) => Some(ItemModel::Regular { size, nlink, path, fsverity_digest: digest }),
                None => None,
            },
            None => match content {
                Some(text) => match unescape(text) {
                    Some(data) if digest is None => Some(ItemModel::RegularInline { nlink, content: data }),
                    _ => None,
                },
                None if digest is None => Some(ItemModel::RegularInline { nlink, content: seq![] }),
                _ => None,
            },
        }
    } else if kind == S_IFLNK && bare && rdev == 0 {
        match payload {
            Some(text) => match unescape(text) {
                Some(target) => Some(ItemModel::Symlink { nlink, target }),
                None => None,
            },
            None => None,
        }
    } else if kind == S_IFIFO && bare && rdev == 0 {
        Some(ItemModel::Fifo { nlink })
    } else if (kind == S_IFCHR || kind == S_IFBLK) && bare {
        Some(ItemModel::Device { nlink, rdev })
    } else if kind == S_IFDIR && bare && rdev == 0 {
        Some(ItemModel::Directory { size, nlink })
    } else {
        None
    }
}

/// A line that gives a file another name: of the fields after the mode only the target counts.
pub open spec fn parse_hardlink(fields: Seq<Seq<u8>>, path: Seq<u8>, mode: u32) -> Option<EntryModel> {
    if fields.len() < 9 || mode & S_IFMT == S_IFDIR {
        None
    } else {
        match optional(fields[8]) {
            Some(text) => match parse_path(text) {
                Some(target) => Some(
                    EntryModel {
                        path,
                        uid: 0,
                        gid: 0,
                        mode,
                        mtime: Mtime { sec: 0, nsec: 0 },
                        item: ItemModel::Hardlink { target },
                        xattrs: seq![],
                    },
                ),
                None => None,
            },
            None => None,
        }
    }
}

/// A line that tells all of a file.
pub open spec fn parse_file(fields: Seq<Seq<u8>>, path: Seq<u8>, size: u64, mode: u32) -> Option<EntryModel> {
    if fields.len() < 11 {
        None
    } else {
        match (
            number_upto(fields[3], 10, u32::MAX as u64),
            number_upto(fields[4], 10, u32::MAX as u64),
            number_upto(fields[5], 10, u32::MAX as u64),
            number_upto(fields[6], 10, u64::MAX),
            parse_mtime(fields[7]),
            parse_xattrs(fields.skip(11)),
        ) {
            (Some(nlink), Some(uid), Some(gid), Some(rdev), Some(mtime), Some(xattrs)) => match parse_item(
                mode,
                size,
                nlink as u32,
                rdev,
                optional(fields[8]),
                optional(fields[9]),
                optional(fields[10]),
            ) {
                Some(item) => Some(
                    EntryModel { path, uid: uid as u32, gid: gid as u32, mode, mtime, item, xattrs },
                ),
                None => None,
            },
            _ => None,
        }
    }
}

/// What a line of a dumpfile says.
pub open spec fn parse_line(line: Seq<u8>) -> Option<EntryModel> {
    let fields = split(line, 32);
    if fields.len() < 3 {
        None
    } else {
        match (parse_path(fields[0]), number_upto(fields[1], 10, u64::MAX), parse_mode(fields[2])) {
            (Some(path), Some(size), Some((hardlink, mode))) => if hardlink {
                parse_hardlink(fields, path, mode)
            } else {
                parse_file(fields, path, size, mode)
            },
            _ => None,
        }
    }
}

/// A modification time.
#[derive(Clone, Copy, Debug, PartialEq, Eq, Structural)]
pub struct Mtime {
    /// Seconds.
    pub sec: u64,
    /// Nanoseconds.
    pub nsec: u64,
}

/// An extended attribute.
pub struct Xattr {
    /// Its name.
    pub key: Vec<u8>,
    /// Its value.
    pub value: Vec<u8>,
}

/// What kind of file a line is about.
pub enum Item {
    /// A file with its content.
    RegularInline { nlink: u32, content: Vec<u8> },
    /// A file whose content is kept at a path.
    Regular { size: u64, nlink: u32, path: Vec<u8>, fsverity_digest: Option<Vec<u8>> },
    /// A device.
    Device { nlink: u32, rdev: u64 },
    /// A symbolic link.
    Symlink { nlink: u32, target: Vec<u8> },
    /// Another name for the file at a path.
    Hardlink { target: Vec<u8> },
    /// A named pipe.
    Fifo { nlink: u32 },
    /// A directory.
    Directory { size: u64, nlink: u32 },
}

/// The bytes of a string that may be missing.
pub open spec fn maybe_bytes(v: Option<Vec<u8>>) -> Option<Seq<u8>> {
    match v {
        Some(v) => Some(v@),
        None => None,
    }
}

impl Item {
    /// The values in it.
    pub open spec fn view(self) -> ItemModel {
        match self {
            Item::RegularInline { nlink, content } => ItemModel::RegularInline { nlink, content: content@ },
            Item::Regular { size, nlink, path, fsverity_digest } => ItemModel::Regular {
                size,
                nlink,
                path: path@,
                fsverity_digest: maybe_bytes(fsverity_digest),
            },
            Item::Device { nlink, rdev } => ItemModel::Device { nlink, rdev },
            Item::Symlink { nlink, target } => ItemModel::Symlink { nlink, target: target@ },
            Item::Hardlink { target } => ItemModel::Hardlink { target: target@ },
            Item::Fifo { nlink } => ItemModel::Fifo { nlink },
            Item::Directory { size, nlink } => ItemModel::Directory { size, nlink },
        }
    }
}

/// The values of some extended attributes.
pub open spec fn xattr_models(xattrs: Seq<Xattr>) -> Seq<(Seq<u8>, Seq<u8>)> {
    Seq::new(xattrs.len(), |i: int| (xattrs[i].key@, xattrs[i].value@))
}

/// What a line says.
pub struct Entry {
    /// The path.
    pub path: Vec<u8>,
    /// The owner.
    pub uid: u32,
    /// The group.
    pub gid: u32,
    /// The type and the permission bits.
    pub mode: u32,
    /// The modification time.
    pub mtime: Mtime,
    /// The kind of file.
    pub item: Item,
    /// The extended attributes, as they stand in the line.
    pub xattrs: Vec<Xattr>,
}

fn read_optional(field: &[u8]) -> (r: Option<&[u8]>)
    ensures
        match r {
            Some(s) => optional(field@) == Some(s@),
            None => optional(field@) is None,
        },
{
    if field.len() == 1 && field[0] == 45 {
        assert(field@ =~= seq![45u8]);
        None
    } else {
        Some(field)
    }
}

fn read_mode(field: &[u8]) -> (r: Option<(bool, u32)>)
    ensures
        r == parse_mode(field@),
{
    let hardlink: bool = field.len() > 0 && field[0] == 64;
    let mut text: Vec<u8> = copy(field);
    if hardlink {
        text.remove(0);
        assert(text@ =~= field@.skip(1));
    }
    match read_number(text.as_slice(), 8, u32::MAX as u64) {
        Some(mode) => Some((hardlink, mode as u32)),
        None => None,
    }
}

/// The bytes before the first `sep`, and those after it.
fn split_once(s: &[u8], sep: u8) -> (r: Option<(Vec<u8>, Vec<u8>)>)
    ensures
        match r {
            Some((a, b)) => {
                &&& until(s@, sep) < s@.len()
                &&& a@ == s@.take(until(s@, sep) as int)
                &&& b@ == s@.skip(until(s@, sep) as int + 1)
            },
            None => until(s@, sep) >= s@.len(),
        },
{
    let mut a: Vec<u8> = Vec::new();
    let mut i: usize = 0;
    while i < s.len() && s[i] != sep
        invariant
            i <= s@.len(),
            a@ == s@.take(i as int),
            forall|j: int| 0 <= j < i ==> s@[j] != sep,
        decreases s@.len() - i,
    {
        a.push(s[i]);
        i = i + 1;
        assert(a@ =~= s@.take(i as int));
    }
    proof {
        until_is(s@, sep, i as nat);
    }
    if i >= s.len() {
        return None;
    }
    let start: usize = i + 1;
    let mut b: Vec<u8> = Vec::new();
    i = start;
    while i < s.len()
        invariant
            start <= i <= s@.len(),
            b@ == s@.subrange(start as int, i as int),
        decreases s@.len() - i,
    {
        b.push(s[i]);
        i = i + 1;
        assert(b@ =~= s@.subrange(start as int, i as int));
    }
    assert(b@ =~= s@.skip(start as int));
    Some((a, b))
}

fn read_mtime(field: &[u8]) -> (r: Option<Mtime>)
    ensures
        r == parse_mtime(field@),
{
    match split_once(field, 46) {
        Some((sec, nsec)) => match (
            read_number(sec.as_slice(), 10, u64::MAX),
            read_number(nsec.as_slice(), 10, u64::MAX),
        ) {
            (Some(sec), Some(nsec)) => Some(Mtime { sec, nsec }),
            _ => None,
        },
        None => None,
    }
}

fn read_xattrs(fields: &Vec<Vec<u8>>, from: usize) -> (r: Option<Vec<Xattr>>)
    requires
        from <= fields@.len(),
    ensures
        match r {
            Some(xattrs) => parse_xattrs(each_bytes(fields@).skip(from as int)) == Some(
                xattr_models(xattrs@),
            ),
            None => parse_xattrs(each_bytes(fields@).skip(from as int)) is None,
        },
{
    let ghost all = each_bytes(fields@).skip(from as int);
    let mut r: Vec<Xattr> = Vec::new();
    let mut i: usize = from;
    assert(xattr_models(r@) =~= seq![]);
    while i < fields.len()
        invariant
            from <= i <= fields@.len(),
            all == each_bytes(fields@).skip(from as int),
            parse_xattrs(all.take(i - from)) == Some(xattr_models(r@)),
        decreases fields@.len() - i,
    {
        let ghost p = all.take(i + 1 - from);
        assert(p.drop_last() =~= all.take(i - from));
        assert(p.last() == fields@[i as int]@);
        let ghost before = r@;
        let parsed: Option<(Vec<u8>, Vec<u8>)> = match split_once(fields[i].as_slice(), 61) {
            Some((key, value)) => match (read_escaped(key.as_slice()), read_escaped(value.as_slice())) {
                (Some(key), Some(value)) => Some((key, value)),
                _ => None,
            },
            None => None,
        };
        match parsed {
            Some((key, value)) => {
                r.push(Xattr { key, value });
                assert(xattr_models(r@) =~= xattr_models(before).push((key@, value@)));
            },
            None => {
                proof {
                    assert(parse_xattrs(p) is None);
                    xattrs_prefix(all, i + 1 - from);
                }
                return None;
            },
        }
        i = i + 1;
    }
    assert(all.take(i - from) =~= all);
    Some(r)
}

/// A row of extended attributes is refused where a part of it is.
proof fn xattrs_prefix(fields: Seq<Seq<u8>>, n: int)
    requires
        0 <= n <= fields.len(),
        parse_xattrs(fields.take(n)) is None,
    ensures
        parse_xattrs(fields) is None,
    decreases fields.len(),
{
    if n < fields.len() {
        assert(fields.drop_last().take(n) =~= fields.take(n));
        xattrs_prefix(fields.drop_last(), n);
    } else {
        assert(fields.take(n) =~= fields);
    }
}

fn read_path(field: &[u8]) -> (r: Option<Vec<u8>>)
    ensures
        match r {
            Some(path) => parse_path(field@) == Some(path@),
            None => parse_path(field@) is None,
        },
{
    match read_escaped(field) {
        Some(path) => {
            let parts: Components = components(path.as_slice());
            if parts.absolute && !parts.goes_up() {
                Some(parts.text())
            } else {
                None
            }
        },
        None => None,
    }
}

fn read_item(
    mode: u32,
    size: u64,
    nlink: u32,
    rdev: u64,
    payload: &[u8],
    content: &[u8],
    digest: &[u8],
) -> (r: Option<Item>)
    ensures
        ({
            let item = parse_item(mode, size, nlink, rdev, optional(payload@), optional(content@), optional(digest@));
            match r {
                Some(i) => item == Some(i@),
                None => item is None,
            }
        }),
{
    let payload: Option<&[u8]> = read_optional(payload);
    let content: Option<&[u8]> = read_optional(content);
    let digest: Option<&[u8]> = read_optional(digest);
    let kind: u32 = mode & S_IFMT;
    let bare: bool = content.is_none() && digest.is_none();
    if kind == S_IFREG && rdev == 0 {
        match payload {
            Some(text) => match read_escaped(text) {
                Some(path) => {
                    let fsverity_digest: Option<Vec<u8>> = match digest {
                        Some(d) => Some(copy(d)),
                        None => None,
                    };
                    Some(Item::Regular { size, nlink, path, fsverity_digest })
                },
                None => None,
            },
            None => {
                if digest.is_some() {
                    return None;
                }
                match content {
                    Some(text) => match read_escaped(text) {
                        Some(content) => Some(Item::RegularInline { nlink, content }),
                        None => None,
                    },
                    None => {
                        let content: Vec<u8> = Vec::new();
                        assert(content@ =~= seq![]);
                        Some(Item::RegularInline { nlink, content })
                    },
                }
            },
        }
    } else if kind == S_IFLNK && bare && rdev == 0 {
        match payload {
            Some(text) => match read_escaped(text) {
                Some(target) => Some(Item::Symlink { nlink, target }),
                None => None,
            },
            None => None,
        }
    } else if kind == S_IFIFO && bare && rdev == 0 {
        Some(Item::Fifo { nlink })
    } else if (kind == S_IFCHR || kind == S_IFBLK) && bare {
        Some(Item::Device { nlink, rdev })
    } else if kind == S_IFDIR && bare && rdev == 0 {
        Some(Item::Directory { size, nlink })
    } else {
        None
    }
}

fn read_hardlink(fields: &Vec<Vec<u8>>, path: Vec<u8>, mode: u32) -> (r: Option<Entry>)
    ensures
        match r {
            Some(e) => parse_hardlink(each_bytes(fields@), path@, mode) == Some(e@),
            None => parse_hardlink(each_bytes(fields@), path@, mode) is None,
        },
{
    if fields.len() < 9 || mode & S_IFMT == S_IFDIR {
        return None;
    }
    match read_optional(fields[8].as_slice()) {
        Some(text) => match read_path(text) {
            Some(target) => {
                let r = Entry {
                    path,
                    uid: 0,
                    gid: 0,
                    mode,
                    mtime: Mtime { sec: 0, nsec: 0 },
                    item: Item::Hardlink { target },
                    xattrs: Vec::new(),
                };
                assert(r@.xattrs =~= seq![]);
                Some(r)
            },
            None => None,
        },
        None => None,
    }
}

fn read_file(fields: &Vec<Vec<u8>>, path: Vec<u8>, size: u64, mode: u32) -> (r: Option<Entry>)
    ensures
        match r {
            Some(e) => parse_file(each_bytes(fields@), path@, size, mode) == Some(e@),
            None => parse_file(each_bytes(fields@), path@, size, mode) is None,
        },
{
    if fields.len() < 11 {
        return None;
    }
    match (
        read_number(fields[3].as_slice(), 10, u32::MAX as u64),
        read_number(fields[4].as_slice(), 10, u32::MAX as u64),
        read_number(fields[5].as_slice(), 10, u32::MAX as u64),
        read_number(fields[6].as_slice(), 10, u64::MAX),
        read_mtime(fields[7].as_slice()),
        read_xattrs(fields, 11),
    ) {
        (Some(nlink), Some(uid), Some(gid), Some(rdev), Some(mtime), Some(xattrs)) => {
            match read_item(
                mode,
                size,
                nlink as u32,
                rdev,
                fields[8].as_slice(),
                fields[9].as_slice(),
                fields[10].as_slice(),
            ) {
                Some(item) => Some(
                    Entry { path, uid: uid as u32, gid: gid as u32, mode, mtime, item, xattrs },
                ),
                None => None,
            }
        },
        _ => None,
    }
}

impl Entry {
    /// The values in it.
    pub open spec fn view(self) -> EntryModel {
        EntryModel {
            path: self.path@,
            uid: self.uid,
            gid: self.gid,
            mode: self.mode,
            mtime: self.mtime,
            item: self.item@,
            xattrs: xattr_models(self.xattrs@),
        }
    }

    /// Reads a line of a dumpfile.
    pub fn parse(line: &[u8]) -> (r: Result<Entry, Error>)
        ensures
            match r {
                Ok(entry) => parse_line(line@) == Some(entry@),
                Err(e) => e == Error::InvalidLine && parse_line(line@) is None,
            },
    {
        let fields: Vec<Vec<u8>> = split_at(line, 32);
        assert(each_bytes(fields@) =~= split(line@, 32));
        if fields.len() < 3 {
            return Err(Error::InvalidLine);
        }
        match (
            read_path(fields[0].as_slice()),
            read_number(fields[1].as_slice(), 10, u64::MAX),
            read_mode(fields[2].as_slice()),
        ) {
            (Some(path), Some(size), Some((hardlink, mode))) => {
                let entry: Option<Entry> = if hardlink {
                    read_hardlink(&fields, path, mode)
                } else {
                    read_file(&fields, path, size, mode)
                };
                match entry {
                    Some(entry) => Ok(entry),
                    None => Err(Error::InvalidLine),
                }
            },
            _ => Err(Error::InvalidLine),
        }
    }
}

} // verus!
