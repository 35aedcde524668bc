//! What the text of a dumpfile says.

use vstd::prelude::*;
use vstd::string::StringSliceAdditionalSpecFns;
use crate::bytestr::{has_byte, split, split_first, split_parts_clean, split_whole, until, until_facts, until_is};
use crate::dumpfile_parse::{parse_item, parse_line, parse_xattr, parse_xattrs, Entry, EntryModel, Item, ItemModel};
use crate::dumpfile_read::{
    add_lines, dumpfile_to_filesystem, empty_building, is_blank, line_refused, lines_of, white_space_len, LineError,
};
use crate::error::Error;
use crate::fsverity::FsVerityHashValue;
use crate::path::canonical;
use crate::text::{number, unescape};
use crate::tree::{entries_sorted, FileSystem};
use crate::treelaws::{newest_is_latest, node_in, time_of};

verus! {

/// The lines of a text are its first line, without the line end and a carriage return before that,
/// and then those of the rest.
pub proof fn first_line_and_rest(line: Seq<u8>, rest: Seq<u8>)
    requires
        forall|i: int| 0 <= i < line.len() ==> #[trigger] line[i] != 10,
    ensures
        lines_of(line + seq![10u8] + rest) == seq![
            if line.len() > 0 && line.last() == 13 {
                line.drop_last()
            } else {
                line
            },
        ] + lines_of(rest),
{
    assert(!has_byte(line, 10));
    split_first(line, 10, rest);
    split_parts_clean(rest, 10);
    let all = split(line + seq![10u8] + rest, 10);
    let parts = split(rest, 10);
    assert(all =~= seq![line] + parts);
    assert(all.last() == parts.last());
    assert(lines_of(line + seq![10u8] + rest) =~= seq![
        if line.len() > 0 && line.last() == 13 {
            line.drop_last()
        } else {
            line
        },
    ] + lines_of(rest));
}

/// A text without a line end is a line as it is, but an empty one is none.
pub proof fn last_line(line: Seq<u8>)
    requires
        forall|i: int| 0 <= i < line.len() ==> #[trigger] line[i] != 10,
    ensures
        line.len() > 0 ==> lines_of(line) == seq![line],
        line.len() == 0 ==> lines_of(line).len() == 0,
{
    assert(!has_byte(line, 10));
    split_whole(line, 10);
    assert(split(line, 10).last() == line);
    if line.len() > 0 {
        assert(lines_of(line) =~= seq![line]);
    }
}

/// A space, a tabulator and the other white space of ASCII in front do not make a line more or less
/// blank. Any other character of ASCII does, and no text is blank.
pub proof fn blank_in_ascii(c: u8, rest: Seq<u8>)
    requires
        c < 128,
    ensures
        is_blank(seq![c] + rest) <==> ((9 <= c <= 13 || c == 32) && is_blank(rest)),
        is_blank(Seq::empty()),
{
    let s = seq![c] + rest;
    assert(s[0] == c);
    assert(s.skip(1) =~= rest);
}

/// White space beyond ASCII, in UTF-8.
pub open spec fn is_wide_space(w: Seq<u8>) -> bool {
    ||| w == seq![0xc2u8, 0x85u8]
    ||| w == seq![0xc2u8, 0xa0u8]
    ||| w == seq![0xe1u8, 0x9au8, 0x80u8]
    ||| w.len() == 3 && w[0] == 0xe2 && w[1] == 0x80 && (0x80 <= w[2] <= 0x8a || w[2] == 0xa8 || w[2] == 0xa9 || w[2]
        == 0xaf)
    ||| w == seq![0xe2u8, 0x81u8, 0x9fu8]
    ||| w == seq![0xe3u8, 0x80u8, 0x80u8]
}

/// White space beyond ASCII in front does not make a line more or less blank, and nothing else beyond
/// ASCII stands at the start of a blank line.
pub proof fn blank_beyond_ascii(s: Seq<u8>)
    requires
        s.len() > 0,
        s[0] >= 128,
    ensures
        is_blank(s) <==> ((s.len() >= 2 && is_wide_space(s.take(2)) && is_blank(s.skip(2))) || (s.len() >= 3
            && is_wide_space(s.take(3)) && is_blank(s.skip(3)))),
{
    if s.len() >= 2 {
        let w = s.take(2);
        assert(w[0] == s[0] && w[1] == s[1]);
        if is_wide_space(w) {
            assert(w == seq![0xc2u8, 0x85u8] || w == seq![0xc2u8, 0xa0u8]);
            assert(white_space_len(s) == 2);
        }
        if white_space_len(s) == 2 {
            assert(w =~= seq![0xc2u8, s[1]]);
        }
    }
    if s.len() >= 3 {
        let w = s.take(3);
        assert(w[0] == s[0] && w[1] == s[1] && w[2] == s[2]);
        if white_space_len(s) == 3 {
            assert(w =~= seq![s[0], s[1], s[2]]);
            assert(is_wide_space(w));
        }
        if is_wide_space(w) {
            assert(w[0] != 0xc2);
            assert(white_space_len(s) == 3);
        }
    }
}

/// Each attribute is read from its field.
proof fn attributes_in_turn(fields: Seq<Seq<u8>>)
    ensures
        match parse_xattrs(fields) {
            Some(xattrs) => xattrs.len() == fields.len() && forall|i: int|
                0 <= i < fields.len() ==> parse_xattr(#[trigger] fields[i]) == Some(xattrs[i]),
            None => exists|i: int| 0 <= i < fields.len() && parse_xattr(#[trigger] fields[i]) is None,
        },
    decreases fields.len(),
{
    if fields.len() > 0 {
        let front = fields.drop_last();
        attributes_in_turn(front);
        assert(fields[fields.len() - 1] == fields.last());
        if let Some(xattrs) = parse_xattrs(fields) {
            assert forall|i: int| 0 <= i < fields.len() implies parse_xattr(#[trigger] fields[i]) == Some(xattrs[i]) by {
                if i < front.len() {
                    assert(front[i] == fields[i]);
                }
            }
        } else if parse_xattrs(front) is None {
            let i = choose|i: int| 0 <= i < front.len() && parse_xattr(#[trigger] front[i]) is None;
            assert(fields[i] == front[i]);
        }
    }
}

/// The field has a number of this kind.
pub open spec fn tells(field: Seq<u8>, radix: nat, n: nat) -> bool {
    number(field, radix) == Some(n)
}

/// The text before and after the first byte `c` of a field that has one.
pub open spec fn in_two(field: Seq<u8>, c: u8, before: Seq<u8>, after: Seq<u8>) -> bool {
    field == before + seq![c] + after && forall|i: int| 0 <= i < before.len() ==> #[trigger] before[i] != c
}

/// What a field holds: nothing where it is a dash.
pub open spec fn held(field: Seq<u8>) -> Option<Seq<u8>> {
    if field == seq![45u8] {
        None
    } else {
        Some(field)
    }
}

/// The kind of file is what the fields of a line say.
pub open spec fn item_as_told(f: Seq<Seq<u8>>, mode: u32, item: ItemModel) -> bool {
    let kind = mode & 0o170000;
    match item {
        ItemModel::Regular { size, nlink, path, fsverity_digest } => {
            &&& kind == 0o100000
            &&& tells(f[1], 10, size as nat)
            &&& tells(f[3], 10, nlink as nat)
            &&& tells(f[6], 10, 0)
            &&& held(f[8]) matches Some(text) && unescape(text) == Some(path)
            &&& fsverity_digest == held(f[10])
        },
        ItemModel::RegularInline { nlink, content } => {
            &&& kind == 0o100000
            &&& tells(f[3], 10, nlink as nat)
            &&& tells(f[6], 10, 0)
            &&& held(f[8]) is None
            &&& held(f[10]) is None
            &&& match held(f[9]) {
                Some(text) => unescape(text) == Some(content),
                None => content.len() == 0,
            }
        },
        ItemModel::Symlink { nlink, target } => {
            &&& kind == 0o120000
            &&& tells(f[3], 10, nlink as nat)
            &&& tells(f[6], 10, 0)
            &&& held(f[8]) matches Some(text) && unescape(text) == Some(target)
            &&& held(f[9]) is None && held(f[10]) is None
        },
        ItemModel::Fifo { nlink } => {
            &&& kind == 0o10000
            &&& tells(f[3], 10, nlink as nat)
            &&& tells(f[6], 10, 0)
            &&& held(f[9]) is None && held(f[10]) is None
        },
        ItemModel::Device { nlink, rdev } => {
            &&& kind == 0o20000 || kind == 0o60000
            &&& tells(f[3], 10, nlink as nat)
            &&& tells(f[6], 10, rdev as nat)
            &&& held(f[9]) is None && held(f[10]) is None
        },
        ItemModel::Directory { size, nlink } => {
            &&& kind == 0o40000
            &&& tells(f[1], 10, size as nat)
            &&& tells(f[3], 10, nlink as nat)
            &&& tells(f[6], 10, 0)
            &&& held(f[9]) is None && held(f[10]) is None
        },
        ItemModel::Hardlink { .. } => false,
    }
}

/// The attribute is what its field says: the name before the first `=`, and the value after it.
pub open spec fn attribute_as_told(field: Seq<u8>, xattr: (Seq<u8>, Seq<u8>)) -> bool {
    exists|key: Seq<u8>, value: Seq<u8>| #[trigger]
        in_two(field, 61, key, value) && unescape(key) == Some(xattr.0) && unescape(value) == Some(xattr.1)
}

/// The entry is what the fields of a line say, each in its place.
pub open spec fn entry_as_told(f: Seq<Seq<u8>>, e: EntryModel) -> bool {
    &&& f.len() >= 3
    &&& unescape(f[0]) matches Some(path) && canonical(path) == Some(e.path)
    &&& number(f[1], 10) matches Some(size) && size <= u64::MAX
    &&& if f[2].len() > 0 && f[2][0] == 64 {
        &&& f.len() >= 9
        &&& tells(f[2].skip(1), 8, e.mode as nat)
        &&& e.mode & 0o170000 != 0o40000
        &&& held(f[8]) matches Some(text) && unescape(text) matches Some(path) && canonical(path) matches Some(target)
            && e.item == (ItemModel::Hardlink { target })
        &&& e.uid == 0 && e.gid == 0 && e.mtime.sec == 0 && e.mtime.nsec == 0 && e.xattrs.len() == 0
    } else {
        &&& f.len() >= 11
        &&& tells(f[2], 8, e.mode as nat)
        &&& tells(f[4], 10, e.uid as nat)
        &&& tells(f[5], 10, e.gid as nat)
        &&& exists|sec: Seq<u8>, nsec: Seq<u8>| #[trigger]
            in_two(f[7], 46, sec, nsec) && tells(sec, 10, e.mtime.sec as nat) && tells(nsec, 10, e.mtime.nsec as nat)
        &&& item_as_told(f, e.mode, e.item)
        &&& e.xattrs.len() == f.len() - 11
        &&& forall|i: int| 0 <= i < e.xattrs.len() ==> attribute_as_told(f[11 + i], #[trigger] e.xattrs[i])
    }
}

/// A field comes apart at the first byte of a kind.
proof fn comes_in_two(field: Seq<u8>, c: u8)
    ensures
        until(field, c) < field.len() ==> in_two(
            field,
            c,
            field.take(until(field, c) as int),
            field.skip(until(field, c) as int + 1),
        ),
{
    until_facts(field, c);
    let n = until(field, c) as int;
    if n < field.len() {
        assert(field =~= field.take(n) + seq![c] + field.skip(n + 1));
    }
}

/// Where a line is read as an entry, the entry is what its fields say.
pub proof fn entry_from_fields(line: &[u8], r: Result<Entry, Error>)
    requires
        call_ensures(Entry::parse, (line,), r),
    ensures
        match r {
            Ok(entry) => entry_as_told(split(line@, 32), entry@),
            Err(e) => e == Error::InvalidLine,
        },
{
    if let Ok(entry) = r {
        line_as_told(line@);
    }
}

/// The same of the entry that a line is taken for.
pub proof fn line_as_told(line: Seq<u8>)
    ensures
        parse_line(line) matches Some(e) ==> entry_as_told(split(line, 32), e),
{
    let f = split(line, 32);
    if let Some(e) = parse_line(line) {
        if !(f[2].len() > 0 && f[2][0] == 64) {
            comes_in_two(f[7], 46);
            let rest = f.skip(11);
            attributes_in_turn(rest);
            assert forall|i: int| 0 <= i < e.xattrs.len() implies attribute_as_told(f[11 + i], #[trigger] e.xattrs[i]) by {
                assert(rest[i] == f[11 + i]);
                assert(parse_xattr(rest[i]) == Some(e.xattrs[i]));
                comes_in_two(f[11 + i], 61);
                let n = until(f[11 + i], 61) as int;
                assert(in_two(f[11 + i], 61, f[11 + i].take(n), f[11 + i].skip(n + 1)));
            }
            assert(item_as_told(f, e.mode, e.item));
            let n = until(f[7], 46) as int;
            assert(in_two(f[7], 46, f[7].take(n), f[7].skip(n + 1)));
            assert(tells(f[7].take(n), 10, e.mtime.sec as nat));
            assert(tells(f[7].skip(n + 1), 10, e.mtime.nsec as nat));
            assert(e.xattrs.len() == f.len() - 11);
        } else {
            assert(e.xattrs.len() == 0);
        }
    }
}

/// A line of a file whose fields say what an entry can be is read as an entry.
pub proof fn entry_accepted(line: &[u8], e: EntryModel, r: Result<Entry, Error>)
    requires
        entry_as_told(split(line@, 32), e),
        call_ensures(Entry::parse, (line,), r),
    ensures
        r matches Ok(entry) && entry@ == e,
{
    let f = split(line@, 32);
    if f[2].len() > 0 && f[2][0] == 64 {
        assert(e.xattrs =~= seq![]);
    } else {
        let (sec, nsec) = choose|sec: Seq<u8>, nsec: Seq<u8>| #[trigger]
            in_two(f[7], 46, sec, nsec) && tells(sec, 10, e.mtime.sec as nat) && tells(
                nsec,
                10,
                e.mtime.nsec as nat,
            );
        parted_at(f[7], 46, sec, nsec);
        let rest = f.skip(11);
        attributes_in_turn(rest);
        assert forall|i: int| 0 <= i < rest.len() implies parse_xattr(#[trigger] rest[i]) == Some(e.xattrs[i]) by {
            assert(rest[i] == f[11 + i]);
            let x = e.xattrs[i];
            let (key, value) = choose|key: Seq<u8>, value: Seq<u8>| #[trigger]
                in_two(f[11 + i], 61, key, value) && unescape(key) == Some(x.0) && unescape(value) == Some(x.1);
            parted_at(f[11 + i], 61, key, value);
        }
        assert(parse_xattrs(rest) is Some);
        let xattrs = parse_xattrs(rest)->0;
        assert forall|i: int| 0 <= i < xattrs.len() implies xattrs[i] == e.xattrs[i] by {
            assert(parse_xattr(rest[i]) == Some(xattrs[i]));
        }
        assert(xattrs =~= e.xattrs);
        item_accepted(f, e.mode, e.item);
    }
}

/// Where a field comes apart.
proof fn parted_at(field: Seq<u8>, c: u8, before: Seq<u8>, after: Seq<u8>)
    requires
        in_two(field, c, before, after),
    ensures
        until(field, c) == before.len(),
        until(field, c) < field.len(),
        field.take(until(field, c) as int) == before,
        field.skip(until(field, c) as int + 1) == after,
{
    assert forall|i: int| 0 <= i < before.len() implies field[i] != c by {
        assert(field[i] == before[i]);
    }
    assert(field[before.len() as int] == c);
    until_is(field, c, before.len());
    assert(field.take(before.len() as int) =~= before);
    assert(field.skip(before.len() as int + 1) =~= after);
}

/// A kind of file that the fields say is accepted.
proof fn item_accepted(f: Seq<Seq<u8>>, mode: u32, item: ItemModel)
    requires
        f.len() >= 11,
        item_as_told(f, mode, item),
        number(f[1], 10) matches Some(size) && size <= u64::MAX,
    ensures
        ({
            let size = number(f[1], 10)->0 as u64;
            let nlink = number(f[3], 10)->0 as u32;
            let rdev = number(f[6], 10)->0 as u64;
            number(f[3], 10) is Some && number(f[3], 10)->0 <= u32::MAX && number(f[6], 10) is Some && number(
                f[6],
                10,
            )->0 <= u64::MAX && parse_item(mode, size, nlink, rdev, held(f[8]), held(f[9]), held(f[10])) == Some(item)
        }),
{
    if let ItemModel::RegularInline { content, .. } = item {
        assert(content.len() == 0 ==> content =~= seq![]);
    }
}

/// Reading a dumpfile reads its lines in turn into a file system with nothing in it. The metadata of
/// the root is made up where no line sets it. A line that is refused is an error.
pub proof fn dumpfile_is_read<ObjectID: FsVerityHashValue>(text: &str, r: Result<FileSystem<ObjectID>, LineError>)
    requires
        call_ensures(dumpfile_to_filesystem::<ObjectID>, (text,), r),
    ensures
        match add_lines(empty_building(), lines_of(text.spec_bytes()), ObjectID::size()) {
            Ok(b) => r matches Ok(fs) && {
                let before = b.fs.root.stat;
                let after = fs@.root.stat;
                &&& fs@.root.entries == b.fs.root.entries
                &&& fs@.leaves == b.fs.leaves
                &&& fs@.have_root_stat
                &&& b.fs.have_root_stat ==> after == before
                &&& !b.fs.have_root_stat ==> after.mode == 0o555 && after.uid == before.uid && after.gid == before.gid
                    && after.xattrs == before.xattrs && after.mtime >= before.mtime
                &&& !b.fs.have_root_stat ==> forall|names: Seq<Seq<u8>>|
                    (#[trigger] node_in(b.fs.root.entries, names) matches Some(node) ==> time_of(node, b.fs.leaves)
                        <= after.mtime)
                &&& !b.fs.have_root_stat ==> after.mtime == before.mtime || exists|names: Seq<Seq<u8>>|
                    #[trigger] node_in(b.fs.root.entries, names) matches Some(node) && time_of(node, b.fs.leaves)
                        == after.mtime
            },
            Err(e) => r matches Err(refused) && refused.error == e,
        },
        empty_building().fs.root.entries.len() == 0,
        empty_building().fs.leaves.len() == 0,
        empty_building().links.len() == 0,
        !empty_building().fs.have_root_stat,
        empty_building().fs.root.stat.mtime == 0,
        empty_building().fs.root.stat.uid == 0,
        empty_building().fs.root.stat.gid == 0,
        empty_building().fs.root.stat.xattrs.len() == 0,
{
    if let Ok(b) = add_lines(empty_building(), lines_of(text.spec_bytes()), ObjectID::size()) {
        if let Ok(fs) = r {
            assert(entries_sorted(fs@.root.entries));
            newest_is_latest(b.fs.root.entries, b.fs.leaves, b.fs.root.stat.mtime);
        }
    }
}

/// All that is in an entry is among its values.
pub proof fn entry_values_are_all_there(entry: Entry)
    ensures
        entry@.path == entry.path@,
        entry@.uid == entry.uid && entry@.gid == entry.gid && entry@.mode == entry.mode && entry@.mtime == entry.mtime,
        entry@.xattrs.len() == entry.xattrs@.len(),
        forall|i: int|
            0 <= i < entry.xattrs@.len() ==> #[trigger] entry@.xattrs[i] == (
                entry.xattrs@[i].key@,
                entry.xattrs@[i].value@,
            ),
        match entry.item {
            Item::RegularInline { nlink, content } => entry@.item == (ItemModel::RegularInline {
                nlink,
                content: content@,
            }),
            Item::Regular { size, nlink, path, fsverity_digest } => entry@.item == (ItemModel::Regular {
                size,
                nlink,
                path: path@,
                fsverity_digest: match fsverity_digest {
                    Some(text) => Some(text@),
                    None => None,
                },
            }),
            Item::Device { nlink, rdev } => entry@.item == (ItemModel::Device { nlink, rdev }),
            Item::Symlink { nlink, target } => entry@.item == (ItemModel::Symlink { nlink, target: target@ }),
            Item::Hardlink { target } => entry@.item == (ItemModel::Hardlink { target: target@ }),
            Item::Fifo { nlink } => entry@.item == (ItemModel::Fifo { nlink }),
            Item::Directory { size, nlink } => entry@.item == (ItemModel::Directory { size, nlink }),
        },
{
}

/// The error tells of the line at an index, after lines that are accepted.
pub open spec fn refused_at(lines: Seq<Seq<u8>>, i: int, size: nat, e: LineError) -> bool {
    &&& 0 <= i < lines.len()
    &&& add_lines(empty_building(), lines.take(i), size) is Ok
    &&& !is_blank(lines[i])
    &&& parse_line(lines[i]) is None <==> e.error == Error::InvalidLine
    &&& e.error == Error::InvalidLine ==> e.subject@ == lines[i]
}

/// Where a dumpfile is refused, the error tells of the first line that is refused: of the line itself
/// where it is no entry.
pub proof fn refused_line_named<ObjectID: FsVerityHashValue>(text: &str, r: Result<FileSystem<ObjectID>, LineError>)
    requires
        call_ensures(dumpfile_to_filesystem::<ObjectID>, (text,), r),
    ensures
        r matches Err(e) ==> exists|i: int| #[trigger]
            refused_at(lines_of(text.spec_bytes()), i, ObjectID::size(), e),
{
    if let Err(e) = r {
        let lines = lines_of(text.spec_bytes());
        let size = ObjectID::size();
        let i = choose|i: int|
            0 <= i < lines.len() && (add_lines(empty_building(), lines.take(i), size) matches Ok(before) && !is_blank(
                lines[i],
            ) && line_refused(before, #[trigger] lines[i], size, e));
        assert(add_lines(empty_building(), lines.take(i), size) is Ok);
        let before = add_lines(empty_building(), lines.take(i), size)->Ok_0;
        assert(line_refused(before, lines[i], size, e));
        assert(refused_at(lines, i, size, e));
    }
}

} // verus!
