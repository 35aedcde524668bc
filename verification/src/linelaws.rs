//! What is written to a line of a dumpfile is read back from it.

use vstd::prelude::*;
use crate::bytemap::{in_order, put_last};
use crate::bytestr::{has_byte, lex_lt, split, split_last, split_whole, until_is};
use crate::dumpfile::{
    dash, entry_fields, hardlink_fields, leaf_fields, record_fields, spaced, xattr_field, xattr_fields,
    FileType, Record,
};
use crate::dumpfile_parse::{
    optional, parse_item, parse_line, parse_mode, parse_mtime, parse_path, parse_xattr, parse_xattrs,
    EntryModel, ItemModel, Mtime, S_IFMT,
};
use crate::dumpfile_read::{entry_content, entry_stat, is_blank, xattr_map, PERMISSIONS};
use crate::error::Error;
use crate::fsverity::{hex_read_back, hex_text, hex_text_plain, object_pathname};
use crate::path::{canonical, parts_of};
use crate::text::{
    digits, digits_read_back, escape, escape_bytes_plain, is_digit, number, number_upto, signed_digits,
    unescape, unescape_undoes_escape,
};
use crate::tree::{ContentModel, LeafModel, StatModel};

verus! {

/// A field of printable characters.
pub open spec fn plain(field: Seq<u8>) -> bool {
    field.len() > 0 && forall|i: int| 0 <= i < field.len() ==> 33 <= #[trigger] field[i] <= 126
}

/// All fields are printable.
pub open spec fn all_plain(fields: Seq<Seq<u8>>) -> bool {
    forall|i: int| 0 <= i < fields.len() ==> plain(#[trigger] fields[i])
}

/// A line comes apart into its fields.
pub proof fn spaced_split(fields: Seq<Seq<u8>>)
    requires
        fields.len() > 0,
        all_plain(fields),
    ensures
        split(spaced(fields), 32) == fields,
    decreases fields.len(),
{
    let last = fields.last();
    assert(plain(fields[fields.len() - 1]));
    assert(!has_byte(last, 32));
    if fields.len() == 1 {
        split_whole(last, 32);
        assert(fields =~= seq![last]);
    } else {
        let front = fields.drop_last();
        assert forall|i: int| 0 <= i < front.len() implies plain(#[trigger] front[i]) by {
            assert(front[i] == fields[i]);
        }
        spaced_split(front);
        split_last(spaced(front), 32, last);
        assert(front + seq![last] =~= fields);
    }
}

/// A line holds nothing but printable characters and spaces, and starts with no space.
pub proof fn spaced_plain(fields: Seq<Seq<u8>>)
    requires
        fields.len() > 0,
        all_plain(fields),
    ensures
        spaced(fields).len() > 0,
        forall|i: int| 0 <= i < spaced(fields).len() ==> 32 <= #[trigger] spaced(fields)[i] <= 126,
        spaced(fields)[0] != 32,
    decreases fields.len(),
{
    let last = fields.last();
    let s = spaced(fields);
    assert(plain(fields[fields.len() - 1]));
    if fields.len() > 1 {
        let front = fields.drop_last();
        assert forall|i: int| 0 <= i < front.len() implies plain(#[trigger] front[i]) by {
            assert(front[i] == fields[i]);
        }
        spaced_plain(front);
        let n = spaced(front).len() as int;
        assert forall|i: int| 0 <= i < s.len() implies 32 <= #[trigger] s[i] <= 126 by {
            if i < n {
                assert(s[i] == spaced(front)[i]);
            } else if i > n {
                assert(s[i] == last[i - n - 1]);
            }
        }
        assert(s[0] == spaced(front)[0]);
    }
}

/// Escaped bytes are printable.
pub proof fn escape_plain(s: Seq<u8>)
    ensures
        plain(escape(s)),
        s.len() > 0 ==> unescape(escape(s)) == Some(s),
        s.len() == 0 ==> optional(escape(s)) is None,
        s.len() > 0 && s != seq![45u8] ==> optional(escape(s)) == Some(escape(s)),
{
    escape_bytes_plain(s);
    unescape_undoes_escape(s);
}

/// A number is printable, and read back where it fits.
proof fn digits_plain(n: nat, radix: nat, max: u64)
    requires
        2 <= radix <= 10,
    ensures
        plain(digits(n, radix)),
        n <= max ==> number_upto(digits(n, radix), radix, max) == Some(n as u64),
{
    digits_read_back(n, radix);
    let s = digits(n, radix);
    assert forall|i: int| 0 <= i < s.len() implies 33 <= #[trigger] s[i] <= 126 by {
        assert(is_digit(s[i], radix));
    }
}

/// A mode is read back.
proof fn mode_read_back(mode: u32)
    ensures
        plain(digits(mode as nat, 8)),
        parse_mode(digits(mode as nat, 8)) == Some((false, mode)),
{
    digits_plain(mode as nat, 8, u32::MAX as u64);
    digits_read_back(mode as nat, 8);
    let s = digits(mode as nat, 8);
    assert(is_digit(s[0], 8));
}

/// A modification time is read back.
proof fn mtime_read_back(sec: i64)
    requires
        sec >= 0,
    ensures
        ({
            let field = signed_digits(sec as int) + seq![46u8, 48u8];
            plain(field) && parse_mtime(field) == Some(Mtime { sec: sec as u64, nsec: 0 })
        }),
{
    let d = digits(sec as nat, 10);
    let field = signed_digits(sec as int) + seq![46u8, 48u8];
    digits_plain(sec as nat, 10, u64::MAX);
    digits_read_back(sec as nat, 10);
    assert forall|i: int| 0 <= i < field.len() implies 33 <= #[trigger] field[i] <= 126 by {
        if i < d.len() {
            assert(field[i] == d[i]);
        }
    }
    assert forall|i: int| 0 <= i < d.len() implies field[i] != 46 by {
        assert(is_digit(d[i], 10));
        assert(field[i] == d[i]);
    }
    until_is(field, 46, d.len());
    assert(field.take(d.len() as int) =~= d);
    assert(field.skip(d.len() as int + 1) =~= seq![48u8]);
    digits_read_back(0, 10);
    assert(digits(0, 10) =~= seq![48u8]);
}

/// An extended attribute is read back.
proof fn xattr_read_back(xattr: (Seq<u8>, Seq<u8>))
    requires
        xattr.0.len() > 0,
        xattr.1.len() > 0,
    ensures
        plain(xattr_field(xattr)),
        parse_xattr(xattr_field(xattr)) == Some(xattr),
{
    let key = escape(xattr.0);
    let value = escape(xattr.1);
    let field = xattr_field(xattr);
    escape_plain(xattr.0);
    escape_plain(xattr.1);
    escape_bytes_plain(xattr.0);
    assert forall|i: int| 0 <= i < field.len() implies 33 <= #[trigger] field[i] <= 126 by {
        if i < key.len() {
            assert(field[i] == key[i]);
        } else if i > key.len() {
            assert(field[i] == value[i - key.len() - 1]);
        }
    }
    assert forall|i: int| 0 <= i < key.len() implies field[i] != 61 by {
        assert(field[i] == key[i]);
    }
    until_is(field, 61, key.len());
    assert(field.take(key.len() as int) =~= key);
    assert(field.skip(key.len() as int + 1) =~= value);
}

/// All extended attributes have names and values.
pub open spec fn xattrs_readable(xattrs: Seq<(Seq<u8>, Seq<u8>)>) -> bool {
    forall|i: int| 0 <= i < xattrs.len() ==> (#[trigger] xattrs[i]).0.len() > 0 && xattrs[i].1.len() > 0
}

/// Extended attributes are read back.
proof fn xattrs_read_back(xattrs: Seq<(Seq<u8>, Seq<u8>)>)
    requires
        xattrs_readable(xattrs),
    ensures
        all_plain(xattr_fields(xattrs)),
        parse_xattrs(xattr_fields(xattrs)) == Some(xattrs),
    decreases xattrs.len(),
{
    let fields = xattr_fields(xattrs);
    if xattrs.len() == 0 {
        assert(xattrs =~= seq![]);
    } else {
        let front = xattrs.drop_last();
        assert forall|i: int| 0 <= i < front.len() implies (#[trigger] front[i]).0.len() > 0 && front[i].1.len()
            > 0 by {
            assert(front[i] == xattrs[i]);
        }
        xattrs_read_back(front);
        assert(fields.drop_last() =~= xattr_fields(front));
        assert(xattrs[xattrs.len() - 1] == xattrs.last());
        xattr_read_back(xattrs.last());
        assert forall|i: int| 0 <= i < fields.len() implies plain(#[trigger] fields[i]) by {
            if i < front.len() {
                assert(fields[i] == xattr_fields(front)[i]);
            }
        }
        assert(front.push(xattrs.last()) =~= xattrs);
    }
}

/// Extended attributes that are in order stay as they are.
pub proof fn xattr_map_same(xattrs: Seq<(Seq<u8>, Seq<u8>)>)
    requires
        in_order(xattrs),
    ensures
        xattr_map(xattrs) == xattrs,
    decreases xattrs.len(),
{
    if xattrs.len() == 0 {
        assert(xattrs =~= seq![]);
    } else {
        let front = xattrs.drop_last();
        xattr_map_same(front);
        assert forall|i: int| 0 <= i < front.len() implies lex_lt(
            #[trigger] front[i].0,
            xattrs.last().0,
        ) by {
            assert(lex_lt(xattrs[i].0, xattrs[xattrs.len() - 1].0));
        }
        put_last(front, xattrs.last().0, xattrs.last().1);
        assert(front.push(xattrs.last()) =~= xattrs);
    }
}

/// A path in canonical form.
pub open spec fn path_readable(path: Seq<u8>) -> bool {
    canonical(path) == Some(path)
}

/// Metadata that a line can hold: no bits but those of the permissions, no time before the
/// epoch, and no extended attribute with an empty name or value.
pub open spec fn stat_readable(stat: StatModel) -> bool {
    stat.mode <= PERMISSIONS && stat.mtime >= 0 && in_order(stat.xattrs) && xattrs_readable(stat.xattrs)
}

/// A path is read back.
proof fn path_read_back(path: Seq<u8>)
    requires
        path_readable(path),
    ensures
        parse_path(escape(path)) == Some(path),
        optional(escape(path)) == Some(escape(path)),
        plain(escape(path)),
{
    assert(parts_of(path).absolute);
    escape_plain(path);
}

/// The permission bits and the type of a mode do not mix.
pub proof fn mode_parts(mode: u32, ifmt: FileType)
    requires
        mode <= PERMISSIONS,
    ensures
        (mode | ifmt.raw_mode()) & PERMISSIONS == mode,
        (mode | ifmt.raw_mode()) & S_IFMT == ifmt.raw_mode(),
{
    let raw = ifmt.raw_mode();
    assert(raw & 0o7777u32 == 0 && raw & 0o170000u32 == raw) by (bit_vector)
        requires
            raw == 0o100000u32 || raw == 0o040000u32 || raw == 0o120000u32 || raw == 0o010000u32 || raw
                == 0o140000u32 || raw == 0o020000u32 || raw == 0o060000u32,
    ;
    assert((mode | raw) & 0o7777u32 == mode && (mode | raw) & 0o170000u32 == raw) by (bit_vector)
        requires
            mode <= 0o7777u32,
            raw & 0o7777u32 == 0,
            raw & 0o170000u32 == raw,
    ;
}

/// A line of a file is read back up to the kind of file, which is told from the last fields.
proof fn entry_read_back(
    path: Seq<u8>,
    stat: StatModel,
    ifmt: FileType,
    size: u64,
    nlink: usize,
    rdev: u64,
    payload: Seq<u8>,
    content: Seq<u8>,
    digest: Option<Seq<u8>>,
)
    requires
        path_readable(path),
        stat_readable(stat),
        nlink <= u32::MAX,
        digest matches Some(id) ==> plain(id),
    ensures
        ({
            let fields = entry_fields(path, stat, ifmt, size, nlink, rdev, payload, content, digest);
            let mode = stat.mode | ifmt.raw_mode();
            let last = match digest {
                Some(id) => optional(id),
                None => None,
            };
            &&& all_plain(fields)
            &&& parse_line(spaced(fields)) == match parse_item(
                mode,
                size,
                nlink as u32,
                rdev,
                optional(escape(payload)),
                optional(escape(content)),
                last,
            ) {
                Some(item) => Some(
                    EntryModel {
                        path,
                        uid: stat.uid,
                        gid: stat.gid,
                        mode,
                        mtime: Mtime { sec: stat.mtime as u64, nsec: 0 },
                        item,
                        xattrs: stat.xattrs,
                    },
                ),
                None => None,
            }
        }),
{
    let fields = entry_fields(path, stat, ifmt, size, nlink, rdev, payload, content, digest);
    let mode = stat.mode | ifmt.raw_mode();
    path_read_back(path);
    digits_plain(size as nat, 10, u64::MAX);
    mode_read_back(mode);
    digits_plain(nlink as nat, 10, u32::MAX as u64);
    digits_plain(stat.uid as nat, 10, u32::MAX as u64);
    digits_plain(stat.gid as nat, 10, u32::MAX as u64);
    digits_plain(rdev as nat, 10, u64::MAX);
    mtime_read_back(stat.mtime);
    escape_plain(payload);
    escape_plain(content);
    xattrs_read_back(stat.xattrs);
    assert forall|i: int| 0 <= i < fields.len() implies plain(#[trigger] fields[i]) by {
        if i >= 11 {
            assert(fields[i] == xattr_fields(stat.xattrs)[i - 11]);
        }
    }
    assert(fields.skip(11) =~= xattr_fields(stat.xattrs));
    spaced_split(fields);
}

/// The fields of the line of a file are printable, whatever they hold.
pub proof fn entry_plain(
    path: Seq<u8>,
    stat: StatModel,
    ifmt: FileType,
    size: u64,
    nlink: usize,
    rdev: u64,
    payload: Seq<u8>,
    content: Seq<u8>,
    digest: Option<Seq<u8>>,
)
    requires
        digest matches Some(id) ==> plain(id),
    ensures
        all_plain(entry_fields(path, stat, ifmt, size, nlink, rdev, payload, content, digest)),
{
    let fields = entry_fields(path, stat, ifmt, size, nlink, rdev, payload, content, digest);
    escape_plain(path);
    digits_plain(size as nat, 10, u64::MAX);
    digits_plain((stat.mode | ifmt.raw_mode()) as nat, 8, u64::MAX);
    digits_plain(nlink as nat, 10, u64::MAX);
    digits_plain(stat.uid as nat, 10, u64::MAX);
    digits_plain(stat.gid as nat, 10, u64::MAX);
    digits_plain(rdev as nat, 10, u64::MAX);
    let mtime = stat.mtime as int;
    let d = signed_digits(mtime);
    if mtime < 0 {
        digits_plain((-mtime) as nat, 10, u64::MAX);
    } else {
        digits_plain(mtime as nat, 10, u64::MAX);
    }
    assert(plain(d)) by {
        assert forall|i: int| 0 <= i < d.len() implies 33 <= #[trigger] d[i] <= 126 by {
            if mtime < 0 && i > 0 {
                assert(d[i] == digits((-mtime) as nat, 10)[i - 1]);
            }
        }
    }
    assert(plain(fields[7])) by {
        assert forall|i: int| 0 <= i < fields[7].len() implies 33 <= #[trigger] fields[7][i] <= 126 by {
            if i < d.len() {
                assert(fields[7][i] == d[i]);
            }
        }
    }
    escape_plain(payload);
    escape_plain(content);
    assert forall|i: int| 0 <= i < fields.len() implies plain(#[trigger] fields[i]) by {
        if i >= 11 {
            let xattr = stat.xattrs[i - 11];
            let field = xattr_field(xattr);
            assert(fields[i] == field);
            escape_plain(xattr.0);
            escape_plain(xattr.1);
            let n = escape(xattr.0).len() as int;
            assert forall|j: int| 0 <= j < field.len() implies 33 <= #[trigger] field[j] <= 126 by {
                if j < n {
                    assert(field[j] == escape(xattr.0)[j]);
                } else if j > n {
                    assert(field[j] == escape(xattr.1)[j - n - 1]);
                }
            }
        }
    }
}

/// A line holds nothing but printable characters and spaces, whatever it tells of, where no
/// object identifier is empty.
pub proof fn record_plain(record: Record)
    requires
        record matches Record::Leaf { leaf, .. } ==> (leaf.content matches ContentModel::External(id, _) ==> id.len()
            > 0),
    ensures
        forall|i: int|
            0 <= i < spaced(record_fields(record)).len() ==> 32 <= #[trigger] spaced(record_fields(record))[i] <= 126,
{
    let none = Seq::<u8>::empty();
    match record {
        Record::Directory { path, stat, nlink } => {
            entry_plain(path, stat, FileType::Directory, 0, nlink, 0, none, none, None);
        },
        Record::Leaf { path, leaf, nlink } => {
            let stat = leaf.stat;
            match leaf.content {
                ContentModel::Inline(data) => {
                    entry_plain(path, stat, FileType::RegularFile, data.len() as u64, nlink, 0, none, data, None);
                },
                ContentModel::External(id, size) => {
                    hex_text_plain(id);
                    assert(plain(hex_text(id)));
                    entry_plain(
                        path,
                        stat,
                        FileType::RegularFile,
                        size,
                        nlink,
                        0,
                        object_pathname(id),
                        none,
                        Some(hex_text(id)),
                    );
                },
                ContentModel::BlockDevice(rdev) => {
                    entry_plain(path, stat, FileType::BlockDevice, 0, nlink, rdev, none, none, None);
                },
                ContentModel::CharacterDevice(rdev) => {
                    entry_plain(path, stat, FileType::CharacterDevice, 0, nlink, rdev, none, none, None);
                },
                ContentModel::Fifo => {
                    entry_plain(path, stat, FileType::Fifo, 0, nlink, 0, none, none, None);
                },
                ContentModel::Socket => {
                    entry_plain(path, stat, FileType::Socket, 0, nlink, 0, none, none, None);
                },
                ContentModel::Symlink(target) => {
                    entry_plain(path, stat, FileType::Symlink, target.len() as u64, nlink, 0, target, none, None);
                },
            }
        },
        Record::Hardlink { path, target } => {
            escape_plain(path);
            escape_plain(target);
            assert(all_plain(hardlink_fields(path, target)));
        },
    }
    spaced_plain(record_fields(record));
}

/// Content that a line can hold, where object identifiers have `size` bytes: not a lone dash,
/// which stands for nothing, no empty target, and no socket.
pub open spec fn content_readable(content: ContentModel, size: nat) -> bool {
    match content {
        ContentModel::Inline(data) => data != dash(),
        ContentModel::External(id, _) => id.len() == size && size > 0,
        ContentModel::Symlink(target) => target.len() > 0 && target != dash(),
        ContentModel::Socket => false,
        _ => true,
    }
}

/// A line that can be read back, where object identifiers have `size` bytes.
pub open spec fn record_readable(record: Record, size: nat) -> bool {
    match record {
        Record::Directory { path, stat, nlink } => path_readable(path) && stat_readable(stat) && nlink <= u32::MAX,
        Record::Leaf { path, leaf, nlink } => path_readable(path) && stat_readable(leaf.stat) && content_readable(
            leaf.content,
            size,
        ) && nlink <= u32::MAX,
        Record::Hardlink { path, target } => path_readable(path) && path_readable(target),
    }
}

/// The type of a leaf.
pub open spec fn content_type(content: ContentModel) -> FileType {
    match content {
        ContentModel::Inline(_) => FileType::RegularFile,
        ContentModel::External(_, _) => FileType::RegularFile,
        ContentModel::BlockDevice(_) => FileType::BlockDevice,
        ContentModel::CharacterDevice(_) => FileType::CharacterDevice,
        ContentModel::Fifo => FileType::Fifo,
        ContentModel::Socket => FileType::Socket,
        ContentModel::Symlink(_) => FileType::Symlink,
    }
}

/// The kind of file that is read from the line of a leaf.
pub open spec fn content_item(content: ContentModel, nlink: u32) -> ItemModel {
    match content {
        ContentModel::Inline(data) => ItemModel::RegularInline { nlink, content: data },
        ContentModel::External(id, size) => ItemModel::Regular {
            size,
            nlink,
            path: object_pathname(id),
            fsverity_digest: Some(hex_text(id)),
        },
        ContentModel::BlockDevice(rdev) => ItemModel::Device { nlink, rdev },
        ContentModel::CharacterDevice(rdev) => ItemModel::Device { nlink, rdev },
        ContentModel::Symlink(target) => ItemModel::Symlink { nlink, target },
        _ => ItemModel::Fifo { nlink },
    }
}

/// What is read from a line.
pub open spec fn record_entry(record: Record) -> EntryModel {
    match record {
        Record::Directory { path, stat, nlink } => EntryModel {
            path,
            uid: stat.uid,
            gid: stat.gid,
            mode: stat.mode | FileType::Directory.raw_mode(),
            mtime: Mtime { sec: stat.mtime as u64, nsec: 0 },
            item: ItemModel::Directory { size: 0, nlink: nlink as u32 },
            xattrs: stat.xattrs,
        },
        Record::Leaf { path, leaf, nlink } => EntryModel {
            path,
            uid: leaf.stat.uid,
            gid: leaf.stat.gid,
            mode: leaf.stat.mode | content_type(leaf.content).raw_mode(),
            mtime: Mtime { sec: leaf.stat.mtime as u64, nsec: 0 },
            item: content_item(leaf.content, nlink as u32),
            xattrs: leaf.stat.xattrs,
        },
        Record::Hardlink { path, target } => EntryModel {
            path,
            uid: 0,
            gid: 0,
            mode: FileType::Symlink.raw_mode(),
            mtime: Mtime { sec: 0, nsec: 0 },
            item: ItemModel::Hardlink { target },
            xattrs: seq![],
        },
    }
}

/// The line of a further name is read back.
proof fn hardlink_read_back(path: Seq<u8>, target: Seq<u8>)
    requires
        path_readable(path),
        path_readable(target),
    ensures
        all_plain(hardlink_fields(path, target)),
        parse_line(spaced(hardlink_fields(path, target))) == Some(record_entry(Record::Hardlink { path, target })),
{
    let fields = hardlink_fields(path, target);
    path_read_back(path);
    path_read_back(target);
    digits_plain(0, 10, u64::MAX);
    assert(digits(0, 10) =~= fields[1]);
    let mode = 0o120000u32;
    digits_read_back(mode as nat, 8);
    assert(fields[2].skip(1) =~= digits(mode as nat, 8)) by {
        reveal_with_fuel(digits, 6);
    }
    assert(0o120000u32 & 0o170000u32 == 0o120000u32) by (bit_vector);
    assert(all_plain(fields));
    spaced_split(fields);
}

/// The line of a leaf is read back.
proof fn leaf_read_back(path: Seq<u8>, stat: StatModel, content: ContentModel, nlink: usize, size: nat)
    requires
        path_readable(path),
        stat_readable(stat),
        content_readable(content, size),
        nlink <= u32::MAX,
    ensures
        all_plain(leaf_fields(path, stat, content, nlink)),
        parse_line(spaced(leaf_fields(path, stat, content, nlink))) == Some(
            record_entry(Record::Leaf { path, leaf: LeafModel { stat, content }, nlink }),
        ),
{
    let none = Seq::<u8>::empty();
    let ifmt = content_type(content);
    mode_parts(stat.mode, ifmt);
    escape_plain(none);
    match content {
        ContentModel::Inline(data) => {
            entry_read_back(path, stat, ifmt, data.len() as u64, nlink, 0, none, data, None);
            escape_plain(data);
            if data.len() == 0 {
                assert(data =~= none);
            }
        },
        ContentModel::External(id, length) => {
            let pathname = object_pathname(id);
            hex_text_plain(id);
            assert(plain(hex_text(id)));
            assert(hex_text(id) != dash()) by {
                assert(hex_text(id).len() == 2 * id.len());
            }
            entry_read_back(path, stat, ifmt, length, nlink, 0, pathname, none, Some(hex_text(id)));
            escape_plain(pathname);
            assert(pathname.len() > 1 && pathname[0] == hex_text(id.take(1))[0]);
            assert(pathname.len() != dash().len());
        },
        ContentModel::BlockDevice(rdev) => {
            entry_read_back(path, stat, ifmt, 0, nlink, rdev, none, none, None);
        },
        ContentModel::CharacterDevice(rdev) => {
            entry_read_back(path, stat, ifmt, 0, nlink, rdev, none, none, None);
        },
        ContentModel::Fifo => {
            entry_read_back(path, stat, ifmt, 0, nlink, 0, none, none, None);
        },
        ContentModel::Socket => {},
        ContentModel::Symlink(target) => {
            entry_read_back(path, stat, ifmt, target.len() as u64, nlink, 0, target, none, None);
            escape_plain(target);
        },
    }
}

/// What is written to a line is read back from it. The line is printable, so it is neither blank
/// nor more than one line.
pub proof fn record_read_back(record: Record, size: nat)
    requires
        record_readable(record, size),
    ensures
        parse_line(spaced(record_fields(record))) == Some(record_entry(record)),
        !is_blank(spaced(record_fields(record))),
        forall|i: int|
            0 <= i < spaced(record_fields(record)).len() ==> 32 <= #[trigger] spaced(record_fields(record))[i] <= 126,
{
    let fields = record_fields(record);
    match record {
        Record::Directory { path, stat, nlink } => {
            let none = Seq::<u8>::empty();
            mode_parts(stat.mode, FileType::Directory);
            escape_plain(none);
            entry_read_back(path, stat, FileType::Directory, 0, nlink, 0, none, none, None);
        },
        Record::Leaf { path, leaf, nlink } => {
            leaf_read_back(path, leaf.stat, leaf.content, nlink, size);
        },
        Record::Hardlink { path, target } => {
            hardlink_read_back(path, target);
        },
    }
    spaced_plain(fields);
}

/// The metadata of a line is read back.
pub proof fn stat_read_back(stat: StatModel, ifmt: FileType, entry: EntryModel)
    requires
        stat_readable(stat),
        entry.uid == stat.uid,
        entry.gid == stat.gid,
        entry.mode == stat.mode | ifmt.raw_mode(),
        entry.mtime.sec == stat.mtime as u64,
        entry.xattrs == stat.xattrs,
    ensures
        entry_stat(entry) == stat,
{
    mode_parts(stat.mode, ifmt);
    xattr_map_same(stat.xattrs);
}

/// What a leaf holds is read back.
pub proof fn content_read_back(record: Record, size: nat)
    requires
        record_readable(record, size),
        record is Leaf,
    ensures
        entry_content(record_entry(record), size) == Ok::<ContentModel, Error>(record->leaf.content),
{
    let leaf = record->leaf;
    mode_parts(leaf.stat.mode, content_type(leaf.content));
    if let ContentModel::External(id, _) = leaf.content {
        hex_read_back(id);
    }
}

} // verus!
