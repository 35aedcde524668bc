//! A file system tree that is written to a dumpfile is read back from it.

use vstd::prelude::*;
use crate::bytemap::{has_key, in_order, put, put_facts, put_last, rank, rank_at, rank_facts, value_at};
use crate::bytestr::{
    has_byte, lex_lt, lex_lt_irreflexive, split, split_last, split_parts_clean, split_whole, until,
    until_facts, until_is,
};
use crate::dumpfile::{
    dump, leaves_of, record_fields, records_text, spaced, walk_directory, walk_entries, walk_leaf, walk_tree,
    FileType, Leaves, Record, Walk,
};
use crate::dumpfile_parse::{EntryModel, ItemModel};
use crate::dumpfile_read::{
    add_entry, add_entry_wf, add_lines, building_wf, empty_building, lines_of, parse_dump, place,
    without_return, Building,
};
use crate::error::Error;
use crate::linelaws::{
    content_read_back, content_readable, content_type, path_readable, record_entry, record_plain, record_read_back,
    record_readable, stat_read_back, stat_readable,
};
use crate::path::{
    child_path, dotdot, parts_of, path_key, path_text, slashed, slashed_canonical, valid_name, PathParts,
};
use crate::tree::{
    dir_at, dir_sorted, entries_sorted, ids_below, links_in, saturated, subdirs, tree_wf, with_dir_at,
    with_dir_at_facts, ContentModel, DirModel, FileSystemModel, LeafModel, NodeModel,
};

verus! {

/// Some names are all valid.
pub open spec fn names_valid(names: Seq<Seq<u8>>) -> bool {
    forall|i: int| 0 <= i < names.len() ==> valid_name(#[trigger] names[i])
}

/// The absolute path of some names.
pub open spec fn text_of(names: Seq<Seq<u8>>) -> Seq<u8> {
    path_text(PathParts { absolute: true, dot: false, names })
}

/// The path of an entry is that of the directory and the name.
pub proof fn text_child(names: Seq<Seq<u8>>, name: Seq<u8>)
    requires
        names_valid(names),
    ensures
        child_path(text_of(names), name) == text_of(names.push(name)),
{
    let more = names.push(name);
    assert(more.drop_last() =~= names);
    if names.len() == 0 {
        assert(slashed(names) =~= seq![]);
        assert(slashed(more) =~= seq![47u8] + name);
    } else {
        assert(valid_name(names[names.len() - 1]));
        assert(slashed(names).len() > 1);
    }
}

/// Names that are valid, and one more.
pub proof fn names_valid_push(names: Seq<Seq<u8>>, name: Seq<u8>)
    requires
        names_valid(names),
        valid_name(name),
    ensures
        names_valid(names.push(name)),
{
    let more = names.push(name);
    assert forall|i: int| 0 <= i < more.len() implies valid_name(#[trigger] more[i]) by {
        if i < names.len() {
            assert(more[i] == names[i]);
        }
    }
}

/// Of two directories that are put in the same place the second stays.
proof fn with_dir_at_twice(dir: DirModel, names: Seq<Seq<u8>>, a: DirModel, b: DirModel)
    requires
        dir_sorted(dir),
        dir_at(dir, names) is Ok,
    ensures
        with_dir_at(with_dir_at(dir, names, a), names, b) == with_dir_at(dir, names, b),
    decreases names.len(),
{
    if names.len() > 0 {
        let rest = names.drop_first();
        rank_facts(dir.entries, names[0]);
        let d = value_at(dir.entries, names[0])->Some_0->Directory_0;
        with_dir_at_twice(d, rest, a, b);
        let x = NodeModel::Directory(with_dir_at(d, rest, a));
        let y = NodeModel::Directory(with_dir_at(d, rest, b));
        let once = put(dir.entries, names[0], x);
        put_facts(dir.entries, names[0], x);
        assert(has_key(once, names[0]));
        let n = rank(dir.entries, names[0]) as int;
        rank_at(once, n);
        assert(put(once, names[0], y) =~= put(dir.entries, names[0], y));
    }
}

/// What is reached by one more name.
proof fn dir_at_child(dir: DirModel, names: Seq<Seq<u8>>, name: Seq<u8>)
    requires
        dir_at(dir, names) is Ok,
        name != dotdot(),
    ensures
        dir_at(dir, names.push(name)) == match value_at((dir_at(dir, names)->Ok_0).entries, name) {
            Some(NodeModel::Directory(d)) => Ok::<DirModel, Error>(d),
            Some(NodeModel::Leaf(_)) => Err(Error::NotADirectory),
            None => Err(Error::NotFound),
        },
    decreases names.len(),
{
    let more = names.push(name);
    if names.len() == 0 {
        assert(more.drop_first() =~= seq![]);
        if let Some(NodeModel::Directory(d)) = value_at(dir.entries, name) {
            assert(dir_at(d, more.drop_first()) == Ok::<DirModel, Error>(d));
        }
    } else {
        let d = value_at(dir.entries, names[0])->Some_0->Directory_0;
        assert(more.drop_first() =~= names.drop_first().push(name));
        dir_at_child(d, names.drop_first(), name);
    }
}

/// To change a directory is to change the one that it is in.
proof fn with_dir_at_child(dir: DirModel, names: Seq<Seq<u8>>, name: Seq<u8>, new: DirModel)
    requires
        dir_at(dir, names) is Ok,
        value_at((dir_at(dir, names)->Ok_0).entries, name) matches Some(NodeModel::Directory(_)),
    ensures
        ({
            let d = dir_at(dir, names)->Ok_0;
            with_dir_at(dir, names.push(name), new) == with_dir_at(
                dir,
                names,
                DirModel { entries: put(d.entries, name, NodeModel::Directory(new)), ..d },
            )
        }),
    decreases names.len(),
{
    let more = names.push(name);
    if names.len() == 0 {
        assert(more.drop_first() =~= seq![]);
        let d = value_at(dir.entries, name)->Some_0->Directory_0;
        assert(with_dir_at(d, more.drop_first(), new) == new);
    } else {
        let d = value_at(dir.entries, names[0])->Some_0->Directory_0;
        assert(more.drop_first() =~= names.drop_first().push(name));
        with_dir_at_child(d, names.drop_first(), name, new);
    }
}

/// The entries with other numbers for the leaves.
pub open spec fn renumbered(entries: Seq<(Seq<u8>, NodeModel)>, numbers: Map<int, int>) -> Seq<(Seq<u8>, NodeModel)>
    decreases entries,
{
    if entries.len() == 0 {
        seq![]
    } else {
        renumbered(entries.drop_last(), numbers).push(
            (
                entries.last().0,
                match entries.last().1 {
                    NodeModel::Directory(d) => NodeModel::Directory(
                        DirModel { entries: renumbered(d.entries, numbers), ..d },
                    ),
                    NodeModel::Leaf(id) => NodeModel::Leaf(numbers[id]),
                },
            ),
        )
    }
}

/// All leaves among the entries, at any depth, have a number.
pub open spec fn covered(entries: Seq<(Seq<u8>, NodeModel)>, numbers: Map<int, int>) -> bool
    decreases entries,
{
    entries.len() == 0 || (covered(entries.drop_last(), numbers) && match entries.last().1 {
        NodeModel::Directory(d) => covered(d.entries, numbers),
        NodeModel::Leaf(id) => numbers.contains_key(id),
    })
}

/// New numbers keep the names.
proof fn renumbered_names(entries: Seq<(Seq<u8>, NodeModel)>, numbers: Map<int, int>)
    ensures
        renumbered(entries, numbers).len() == entries.len(),
        forall|i: int| 0 <= i < entries.len() ==> #[trigger] renumbered(entries, numbers)[i].0 == entries[i].0,
    decreases entries.len(),
{
    if entries.len() > 0 {
        let front = entries.drop_last();
        renumbered_names(front, numbers);
        assert forall|i: int| 0 <= i < entries.len() implies #[trigger] renumbered(entries, numbers)[i].0
            == entries[i].0 by {
            if i < front.len() {
                assert(renumbered(entries, numbers)[i] == renumbered(front, numbers)[i]);
                assert(front[i] == entries[i]);
            }
        }
    }
}

/// More numbers than are needed make no difference.
proof fn renumbered_same(entries: Seq<(Seq<u8>, NodeModel)>, a: Map<int, int>, b: Map<int, int>)
    requires
        covered(entries, a),
        a.submap_of(b),
    ensures
        covered(entries, b),
        renumbered(entries, a) == renumbered(entries, b),
    decreases entries,
{
    if entries.len() > 0 {
        renumbered_same(entries.drop_last(), a, b);
        match entries.last().1 {
            NodeModel::Directory(d) => {
                renumbered_same(d.entries, a, b);
            },
            NodeModel::Leaf(id) => {
                assert(b.contains_key(id) && a[id] == b[id]);
            },
        }
    }
}

/// All that stands below some entries can be read back from a dumpfile, where object identifiers
/// have `size` bytes.
pub open spec fn entries_readable(entries: Seq<(Seq<u8>, NodeModel)>, leaves: Seq<LeafModel>, size: nat) -> bool
    decreases entries,
{
    entries.len() == 0 || (entries_readable(entries.drop_last(), leaves, size) && match entries.last().1 {
        NodeModel::Directory(d) => stat_readable(d.stat) && 2 + subdirs(d.entries) <= u32::MAX
            && entries_readable(d.entries, leaves, size),
        NodeModel::Leaf(id) => stat_readable(leaves[id].stat) && content_readable(leaves[id].content, size),
    })
}

/// What is read from some lines.
pub open spec fn read_records(records: Seq<Record>, size: nat) -> Result<Building, Error>
    decreases records.len(),
{
    if records.len() == 0 {
        Ok(empty_building())
    } else {
        match read_records(records.drop_last(), size) {
            Ok(b) => add_entry(b, record_entry(records.last()), size),
            Err(e) => Err(e),
        }
    }
}

/// All of some lines can be read back.
pub open spec fn records_readable(records: Seq<Record>, size: nat) -> bool {
    forall|i: int| 0 <= i < records.len() ==> record_readable(#[trigger] records[i], size)
}

/// A line that can be read back, after lines that can.
proof fn one_more_readable(records: Seq<Record>, more: Seq<Record>, size: nat)
    requires
        records_readable(records, size),
        more.len() > 0,
        more.drop_last() == records,
        record_readable(more.last(), size),
    ensures
        records_readable(more, size),
{
    assert forall|i: int| 0 <= i < more.len() implies record_readable(#[trigger] more[i], size) by {
        if i < records.len() {
            assert(more[i] == records[i]);
        }
    }
}

/// The leaves that were read so far.
pub struct Told {
    /// The number that each leaf has where it is read.
    pub numbers: Map<int, int>,
    /// For each leaf with more than one name, the names on the path that it was read at.
    pub homes: Map<int, Seq<Seq<u8>>>,
}

/// `path` is the entry `name` of the directory at `dir`, or lies below it.
pub open spec fn under(dir: Seq<Seq<u8>>, name: Seq<u8>, path: Seq<Seq<u8>>) -> bool {
    path.len() > dir.len() && path.take(dir.len() as int) == dir && path[dir.len() as int] == name
}

/// What writing and reading have in common so far: `met` is how often each leaf was met.
spec fn in_step(
    seen: Seq<Option<Seq<u8>>>,
    b: Building,
    told: Told,
    all: Leaves,
    met: spec_fn(int) -> nat,
) -> bool {
    let n = all.leaves.len();
    &&& building_wf(b)
    &&& n <= usize::MAX
    &&& all.counts.len() == n
    &&& seen.len() == n
    &&& told.numbers.dom().finite()
    &&& told.numbers.dom().len() == b.fs.leaves.len()
    &&& b.fs.leaves.len() <= n
    &&& forall|id: int| #[trigger]
        told.numbers.contains_key(id) ==> 0 <= id < n && 0 <= told.numbers[id] < b.fs.leaves.len()
            && b.fs.leaves[told.numbers[id]] == all.leaves[id] && met(id) >= 1
    &&& forall|i: int, j: int|
        #![trigger told.numbers[i], told.numbers[j]]
        told.numbers.contains_key(i) && told.numbers.contains_key(j) && told.numbers[i] == told.numbers[j] ==> i
            == j
    &&& forall|id: int|
        0 <= id < n ==> (#[trigger] seen[id] matches Some(path) ==> {
            &&& told.numbers.contains_key(id)
            &&& names_valid(told.homes[id])
            &&& path == text_of(told.homes[id])
            &&& value_at(b.links, path) == Some(told.numbers[id] as usize)
        })
    &&& forall|id: int|
        0 <= id < n && all.counts[id] > 1 && told.numbers.contains_key(id) ==> #[trigger] seen[id] is Some
}

/// No leaf was met at or below one of some names yet.
spec fn unmet(dir: Seq<Seq<u8>>, name: Seq<u8>, seen: Seq<Option<Seq<u8>>>, told: Told) -> bool {
    forall|id: int| 0 <= id < seen.len() && #[trigger] seen[id] is Some ==> !under(dir, name, told.homes[id])
}

/// A name that comes after all others is placed at the end.
proof fn placed(fs: FileSystemModel, names: Seq<Seq<u8>>, name: Seq<u8>, node: NodeModel)
    requires
        dir_at(fs.root, names) is Ok,
        forall|i: int|
            0 <= i < (dir_at(fs.root, names)->Ok_0).entries.len() ==> lex_lt(
                #[trigger] (dir_at(fs.root, names)->Ok_0).entries[i].0,
                name,
            ),
    ensures
        ({
            let d = dir_at(fs.root, names)->Ok_0;
            place(fs, names.push(name), node) == FileSystemModel {
                root: with_dir_at(fs.root, names, DirModel { entries: d.entries.push((name, node)), ..d }),
                ..fs
            }
        }),
{
    let d = dir_at(fs.root, names)->Ok_0;
    assert(names.push(name).drop_last() =~= names);
    put_last(d.entries, name, node);
}

/// The path of an entry, and what is read from it.
proof fn entry_path(names: Seq<Seq<u8>>, name: Seq<u8>)
    requires
        names_valid(names),
        valid_name(name),
    ensures
        ({
            let path = text_of(names.push(name));
            &&& names_valid(names.push(name))
            &&& child_path(text_of(names), name) == path
            &&& path_readable(path)
            &&& path_key(path) == path
            &&& parts_of(path) == PathParts { absolute: true, dot: false, names: names.push(name) }
        }),
{
    names_valid_push(names, name);
    text_child(names, name);
    slashed_canonical(names.push(name));
}

/// Two paths of names are the same only where the names are.
proof fn text_of_injective(a: Seq<Seq<u8>>, b: Seq<Seq<u8>>)
    requires
        names_valid(a),
        names_valid(b),
        text_of(a) == text_of(b),
    ensures
        a == b,
{
    slashed_canonical(a);
    slashed_canonical(b);
}

/// There is room for the number of one more leaf.
proof fn number_fits(told: Told, n: nat, id: int)
    requires
        told.numbers.dom().finite(),
        forall|i: int| #[trigger] told.numbers.contains_key(i) ==> 0 <= i < n,
        0 <= id < n,
        !told.numbers.contains_key(id),
    ensures
        told.numbers.dom().len() < n,
{
    let range = vstd::set_lib::set_int_range(0, n as int);
    vstd::set_lib::lemma_int_range(0, n as int);
    let more = told.numbers.dom().insert(id);
    assert(more.subset_of(range)) by {
        assert forall|i: int| more.contains(i) implies range.contains(i) by {
            if i != id {
                assert(told.numbers.contains_key(i));
            }
        }
    }
    vstd::set_lib::lemma_len_subset(more, range);
}

/// One more time that a leaf is met.
spec fn met_more(met: spec_fn(int) -> nat, id: int) -> spec_fn(int) -> nat {
    |x: int| met(x) + if x == id {
        1nat
    } else {
        0nat
    }
}

/// The paths that leaves were read at still lead to them when another path is added.
proof fn links_kept(seen: Seq<Option<Seq<u8>>>, b: Building, told: Told, dir: Seq<Seq<u8>>, name: Seq<u8>, id: usize)
    requires
        in_order(b.links),
        names_valid(dir),
        valid_name(name),
        unmet(dir, name, seen, told),
    ensures
        value_at(put(b.links, text_of(dir.push(name)), id), text_of(dir.push(name))) == Some(id),
        forall|j: int|
            0 <= j < seen.len() && #[trigger] seen[j] is Some && names_valid(told.homes[j]) ==> value_at(
                put(b.links, text_of(dir.push(name)), id),
                text_of(told.homes[j]),
            ) == value_at(b.links, text_of(told.homes[j])),
{
    let path = text_of(dir.push(name));
    put_facts(b.links, path, id);
    names_valid_push(dir, name);
    assert forall|j: int|
        0 <= j < seen.len() && #[trigger] seen[j] is Some && names_valid(told.homes[j]) implies value_at(
        put(b.links, path, id),
        text_of(told.homes[j]),
    ) == value_at(b.links, text_of(told.homes[j])) by {
        if text_of(told.homes[j]) == path {
            text_of_injective(told.homes[j], dir.push(name));
            assert(dir.push(name).take(dir.len() as int) =~= dir);
            assert(under(dir, name, told.homes[j]));
        }
    }
}

/// Reading the line of a name of a leaf.
proof fn read_leaf(
    names: Seq<Seq<u8>>,
    name: Seq<u8>,
    id: int,
    total: nat,
    all: Leaves,
    walk: Walk,
    b: Building,
    told: Told,
    met: spec_fn(int) -> nat,
    size: nat,
) -> (r: (Building, Told))
    requires
        in_step(walk.seen, b, told, all, met),
        names_valid(names),
        valid_name(name),
        dir_at(b.fs.root, names) is Ok,
        forall|i: int|
            0 <= i < (dir_at(b.fs.root, names)->Ok_0).entries.len() ==> lex_lt(
                #[trigger] (dir_at(b.fs.root, names)->Ok_0).entries[i].0,
                name,
            ),
        0 <= id < all.leaves.len(),
        stat_readable(all.leaves[id].stat),
        content_readable(all.leaves[id].content, size),
        total <= u32::MAX,
        all.counts[id] == saturated(total),
        met(id) + 1 <= total,
        read_records(walk.records, size) == Ok::<Building, Error>(b),
        records_readable(walk.records, size),
        unmet(names, name, walk.seen, told),
    ensures
        ({
            let after = walk_leaf(text_of(names.push(name)), id, all, walk);
            let d = dir_at(b.fs.root, names)->Ok_0;
            &&& in_step(after.seen, r.0, r.1, all, met_more(met, id))
            &&& read_records(after.records, size) == Ok::<Building, Error>(r.0)
            &&& records_readable(after.records, size)
            &&& r.0.fs.root == with_dir_at(
                b.fs.root,
                names,
                DirModel { entries: d.entries.push((name, NodeModel::Leaf(r.1.numbers[id]))), ..d },
            )
            &&& r.0.fs.have_root_stat == b.fs.have_root_stat
            &&& told.numbers.submap_of(r.1.numbers)
            &&& r.1.numbers.contains_key(id)
            &&& forall|j: int|
                0 <= j < walk.seen.len() && #[trigger] walk.seen[j] is Some ==> after.seen[j] == walk.seen[j]
                    && r.1.homes[j] == told.homes[j]
            &&& forall|j: int|
                0 <= j < walk.seen.len() && #[trigger] after.seen[j] is Some && walk.seen[j] is None ==> under(
                    names,
                    name,
                    r.1.homes[j],
                )
        }),
{
    let path = text_of(names.push(name));
    let after = walk_leaf(path, id, all, walk);
    let record = after.records.last();
    let n = all.leaves.len();
    entry_path(names, name);
    assert(after.records.drop_last() =~= walk.records);
    add_entry_wf(b, record_entry(record), size);
    assert(names.push(name).drop_last() =~= names);
    if all.counts[id] > 1 && walk.seen[id] is Some {
        let target = walk.seen[id]->Some_0;
        let number = told.numbers[id] as usize;
        slashed_canonical(told.homes[id]);
        assert(told.numbers.contains_key(id));
        placed(b.fs, names, name, NodeModel::Leaf(number as int));
        links_kept(walk.seen, b, told, names, name, number);
        let next = add_entry(b, record_entry(record), size)->Ok_0;
        assert(add_entry(b, record_entry(record), size) is Ok);
        one_more_readable(walk.records, after.records, size);
        (next, told)
    } else {
        assert(!told.numbers.contains_key(id));
        number_fits(told, n, id);
        let number = b.fs.leaves.len();
        let leaf = all.leaves[id];
        let fs = FileSystemModel { leaves: b.fs.leaves.push(leaf), ..b.fs };
        placed(fs, names, name, NodeModel::Leaf(number as int));
        links_kept(walk.seen, b, told, names, name, number as usize);
        assert(record_readable(record, size));
        content_read_back(record, size);
        stat_read_back(leaf.stat, content_type(leaf.content), record_entry(record));
        let next = add_entry(b, record_entry(record), size)->Ok_0;
        assert(add_entry(b, record_entry(record), size) is Ok);
        let more = Told {
            numbers: told.numbers.insert(id, number as int),
            homes: told.homes.insert(id, names.push(name)),
        };
        one_more_readable(walk.records, after.records, size);
        assert(names.push(name).take(names.len() as int) =~= names);
        (next, more)
    }
}

/// Reading the line of a directory.
proof fn read_directory(
    names: Seq<Seq<u8>>,
    name: Seq<u8>,
    dir: DirModel,
    all: Leaves,
    walk: Walk,
    b: Building,
    told: Told,
    met: spec_fn(int) -> nat,
    size: nat,
) -> (r: Building)
    requires
        in_step(walk.seen, b, told, all, met),
        names_valid(names),
        valid_name(name),
        dir_at(b.fs.root, names) is Ok,
        forall|i: int|
            0 <= i < (dir_at(b.fs.root, names)->Ok_0).entries.len() ==> lex_lt(
                #[trigger] (dir_at(b.fs.root, names)->Ok_0).entries[i].0,
                name,
            ),
        stat_readable(dir.stat),
        2 + subdirs(dir.entries) <= u32::MAX,
        read_records(walk.records, size) == Ok::<Building, Error>(b),
        records_readable(walk.records, size),
    ensures
        ({
            let after = walk_directory(text_of(names.push(name)), dir, walk);
            let d = dir_at(b.fs.root, names)->Ok_0;
            let empty = DirModel { stat: dir.stat, entries: seq![] };
            &&& in_step(after.seen, r, told, all, met)
            &&& read_records(after.records, size) == Ok::<Building, Error>(r)
            &&& records_readable(after.records, size)
            &&& r.fs.root == with_dir_at(
                b.fs.root,
                names,
                DirModel { entries: d.entries.push((name, NodeModel::Directory(empty))), ..d },
            )
            &&& r.fs.have_root_stat == b.fs.have_root_stat
        }),
{
    let path = text_of(names.push(name));
    let after = walk_directory(path, dir, walk);
    let record = after.records.last();
    let empty = DirModel { stat: dir.stat, entries: seq![] };
    entry_path(names, name);
    assert(after.records.drop_last() =~= walk.records);
    add_entry_wf(b, record_entry(record), size);
    assert(names.push(name).drop_last() =~= names);
    placed(b.fs, names, name, NodeModel::Directory(empty));
    stat_read_back(dir.stat, FileType::Directory, record_entry(record));
    let next = add_entry(b, record_entry(record), size)->Ok_0;
    assert(add_entry(b, record_entry(record), size) is Ok);
    one_more_readable(walk.records, after.records, size);
    next
}

/// As many more times that leaves are met as they stand below some entries.
spec fn met_below(met: spec_fn(int) -> nat, entries: Seq<(Seq<u8>, NodeModel)>) -> spec_fn(int) -> nat {
    |x: int| met(x) + links_in(entries, x)
}

/// What is to hold before the lines of some entries are read into an empty directory.
spec fn before_entries(
    names: Seq<Seq<u8>>,
    entries: Seq<(Seq<u8>, NodeModel)>,
    total: spec_fn(int) -> nat,
    all: Leaves,
    walk: Walk,
    b: Building,
    told: Told,
    met: spec_fn(int) -> nat,
    size: nat,
) -> bool {
    &&& in_step(walk.seen, b, told, all, met)
    &&& names_valid(names)
    &&& entries_sorted(entries)
    &&& ids_below(entries, all.leaves.len())
    &&& entries_readable(entries, all.leaves, size)
    &&& forall|id: int|
        0 <= id < all.leaves.len() ==> #[trigger] all.counts[id] == saturated(total(id)) && total(id) <= u32::MAX
            && met(id) + links_in(entries, id) <= total(id)
    &&& dir_at(b.fs.root, names) matches Ok(d) && d.entries.len() == 0
    &&& read_records(walk.records, size) == Ok::<Building, Error>(b)
    &&& records_readable(walk.records, size)
    &&& forall|i: int| 0 <= i < entries.len() ==> unmet(names, #[trigger] entries[i].0, walk.seen, told)
}

/// What holds after the lines of some entries were read into an empty directory.
spec fn after_entries(
    names: Seq<Seq<u8>>,
    entries: Seq<(Seq<u8>, NodeModel)>,
    all: Leaves,
    walk: Walk,
    b: Building,
    told: Told,
    met: spec_fn(int) -> nat,
    size: nat,
    r: (Building, Told),
) -> bool {
    let after = walk_entries(text_of(names), entries, all, walk);
    let d = dir_at(b.fs.root, names)->Ok_0;
    &&& in_step(after.seen, r.0, r.1, all, met_below(met, entries))
    &&& read_records(after.records, size) == Ok::<Building, Error>(r.0)
    &&& records_readable(after.records, size)
    &&& covered(entries, r.1.numbers)
    &&& r.0.fs.root == with_dir_at(
        b.fs.root,
        names,
        DirModel { entries: renumbered(entries, r.1.numbers), ..d },
    )
    &&& r.0.fs.have_root_stat == b.fs.have_root_stat
    &&& told.numbers.submap_of(r.1.numbers)
    &&& forall|j: int|
        0 <= j < walk.seen.len() && #[trigger] walk.seen[j] is Some ==> after.seen[j] == walk.seen[j]
            && r.1.homes[j] == told.homes[j]
    &&& forall|j: int|
        0 <= j < walk.seen.len() && #[trigger] after.seen[j] is Some && walk.seen[j] is None ==> exists|i: int|
            0 <= i < entries.len() && under(names, #[trigger] entries[i].0, r.1.homes[j])
}

/// What holds before all entries are read holds before all but the last are read.
proof fn before_front(
    names: Seq<Seq<u8>>,
    entries: Seq<(Seq<u8>, NodeModel)>,
    total: spec_fn(int) -> nat,
    all: Leaves,
    walk: Walk,
    b: Building,
    told: Told,
    met: spec_fn(int) -> nat,
    size: nat,
)
    requires
        entries.len() > 0,
        before_entries(names, entries, total, all, walk, b, told, met, size),
    ensures
        before_entries(names, entries.drop_last(), total, all, walk, b, told, met, size),
{
    let front = entries.drop_last();
    assert(entries_sorted(front)) by {
        assert forall|i: int, j: int| 0 <= i < j < front.len() implies lex_lt(
            #[trigger] front[i].0,
            #[trigger] front[j].0,
        ) by {
            assert(lex_lt(entries[i].0, entries[j].0));
        }
        assert(in_order(front));
        assert forall|i: int| 0 <= i < front.len() implies valid_name((#[trigger] front[i]).0) && match front[i].1 {
            NodeModel::Directory(d) => in_order(d.stat.xattrs) && entries_sorted(d.entries),
            NodeModel::Leaf(_) => true,
        } by {
            assert(front[i] == entries[i]);
            assert(valid_name(entries[i].0));
        }
    }
    assert(ids_below(front, all.leaves.len())) by {
        assert forall|i: int| 0 <= i < front.len() implies match (#[trigger] front[i]).1 {
            NodeModel::Directory(d) => ids_below(d.entries, all.leaves.len()),
            NodeModel::Leaf(id) => 0 <= id < all.leaves.len(),
        } by {
            assert(front[i] == entries[i]);
        }
    }
    assert forall|i: int| 0 <= i < front.len() implies unmet(names, #[trigger] front[i].0, walk.seen, told) by {
        assert(unmet(names, entries[i].0, walk.seen, told));
    }
    assert forall|id: int| 0 <= id < all.leaves.len() implies #[trigger] all.counts[id] == saturated(total(id))
        && total(id) <= u32::MAX && met(id) + links_in(front, id) <= total(id) by {}
}

/// A directory that is put where it stands changes nothing.
proof fn with_dir_at_same(dir: DirModel, names: Seq<Seq<u8>>)
    requires
        dir_at(dir, names) is Ok,
    ensures
        with_dir_at(dir, names, dir_at(dir, names)->Ok_0) == dir,
    decreases names.len(),
{
    if names.len() > 0 {
        rank_facts(dir.entries, names[0]);
        let d = value_at(dir.entries, names[0])->Some_0->Directory_0;
        with_dir_at_same(d, names.drop_first());
        assert(put(dir.entries, names[0], NodeModel::Directory(d)) =~= dir.entries);
    }
}

/// What was read before leaves the last name free.
proof fn last_unmet(
    names: Seq<Seq<u8>>,
    entries: Seq<(Seq<u8>, NodeModel)>,
    seen: Seq<Option<Seq<u8>>>,
    told: Told,
    now: Seq<Option<Seq<u8>>>,
    more: Told,
)
    requires
        entries.len() > 0,
        in_order(entries),
        seen.len() == now.len(),
        unmet(names, entries.last().0, seen, told),
        forall|j: int|
            0 <= j < seen.len() && #[trigger] seen[j] is Some ==> now[j] == seen[j] && more.homes[j]
                == told.homes[j],
        forall|j: int|
            0 <= j < seen.len() && #[trigger] now[j] is Some && seen[j] is None ==> exists|i: int|
                0 <= i < entries.drop_last().len() && under(
                    names,
                    #[trigger] entries.drop_last()[i].0,
                    more.homes[j],
                ),
    ensures
        unmet(names, entries.last().0, now, more),
{
    let front = entries.drop_last();
    assert forall|j: int| 0 <= j < now.len() && #[trigger] now[j] is Some implies !under(
        names,
        entries.last().0,
        more.homes[j],
    ) by {
        if seen[j] is None {
            let i = choose|i: int|
                0 <= i < front.len() && under(names, #[trigger] front[i].0, more.homes[j]);
            assert(lex_lt(entries[i].0, entries[entries.len() - 1].0));
            lex_lt_irreflexive(front[i].0);
        }
    }
}

/// Numbers that are kept twice are kept.
proof fn numbers_kept(a: Map<int, int>, b: Map<int, int>, c: Map<int, int>)
    requires
        a.submap_of(b),
        b.submap_of(c),
    ensures
        a.submap_of(c),
{
    assert forall|k: int| #[trigger] a.dom().contains(k) implies c.dom().contains(k) && a[k] == c[k] by {
        assert(b.dom().contains(k));
    }
}

/// All that was read before and for the last name lies at or below one of the names.
proof fn homes_after(
    names: Seq<Seq<u8>>,
    entries: Seq<(Seq<u8>, NodeModel)>,
    seen: Seq<Option<Seq<u8>>>,
    told: Told,
    seen1: Seq<Option<Seq<u8>>>,
    told1: Told,
    seen2: Seq<Option<Seq<u8>>>,
    told2: Told,
)
    requires
        entries.len() > 0,
        seen.len() == seen1.len() == seen2.len(),
        forall|j: int|
            0 <= j < seen.len() && #[trigger] seen[j] is Some ==> seen1[j] == seen[j] && told1.homes[j]
                == told.homes[j],
        forall|j: int|
            0 <= j < seen.len() && #[trigger] seen1[j] is Some && seen[j] is None ==> exists|i: int|
                0 <= i < entries.drop_last().len() && under(
                    names,
                    #[trigger] entries.drop_last()[i].0,
                    told1.homes[j],
                ),
        forall|j: int|
            0 <= j < seen.len() && #[trigger] seen1[j] is Some ==> seen2[j] == seen1[j] && told2.homes[j]
                == told1.homes[j],
        forall|j: int|
            0 <= j < seen.len() && #[trigger] seen2[j] is Some && seen1[j] is None ==> under(
                names,
                entries.last().0,
                told2.homes[j],
            ),
    ensures
        forall|j: int|
            0 <= j < seen.len() && #[trigger] seen[j] is Some ==> seen2[j] == seen[j] && told2.homes[j]
                == told.homes[j],
        forall|j: int|
            0 <= j < seen.len() && #[trigger] seen2[j] is Some && seen[j] is None ==> exists|i: int|
                0 <= i < entries.len() && under(names, #[trigger] entries[i].0, told2.homes[j]),
{
    let front = entries.drop_last();
    assert forall|j: int| 0 <= j < seen.len() && #[trigger] seen[j] is Some implies seen2[j] == seen[j]
        && told2.homes[j] == told.homes[j] by {
        assert(seen1[j] is Some);
    }
    assert forall|j: int| 0 <= j < seen.len() && #[trigger] seen2[j] is Some && seen[j] is None implies exists|i: int|
        0 <= i < entries.len() && under(names, #[trigger] entries[i].0, told2.homes[j]) by {
        if seen1[j] is Some {
            let i = choose|i: int|
                0 <= i < front.len() && under(names, #[trigger] front[i].0, told1.homes[j]);
            assert(under(names, entries[i].0, told2.homes[j]));
        } else {
            assert(under(names, entries[entries.len() - 1].0, told2.homes[j]));
        }
    }
}

/// What lies below a directory in a directory lies below the latter.
proof fn under_child(dir: Seq<Seq<u8>>, name: Seq<u8>, below: Seq<u8>, path: Seq<Seq<u8>>)
    requires
        under(dir.push(name), below, path),
    ensures
        under(dir, name, path),
{
    let n = dir.len() as int;
    assert(path.take(n) =~= path.take(n + 1).take(n));
    assert(dir.push(name).take(n) =~= dir);
    assert(path[n] == path.take(n + 1)[n]);
}

/// How things stand when all entries but the last were read.
proof fn at_last(
    names: Seq<Seq<u8>>,
    entries: Seq<(Seq<u8>, NodeModel)>,
    total: spec_fn(int) -> nat,
    all: Leaves,
    walk: Walk,
    b: Building,
    told: Told,
    met: spec_fn(int) -> nat,
    size: nat,
    front: (Building, Told),
)
    requires
        entries.len() > 0,
        before_entries(names, entries, total, all, walk, b, told, met, size),
        after_entries(names, entries.drop_last(), all, walk, b, told, met, size, front),
    ensures
        ({
            let d = dir_at(b.fs.root, names)->Ok_0;
            let d1 = DirModel { entries: renumbered(entries.drop_last(), front.1.numbers), ..d };
            let w1 = walk_entries(text_of(names), entries.drop_last(), all, walk);
            let name = entries.last().0;
            &&& dir_at(front.0.fs.root, names) == Ok::<DirModel, Error>(d1)
            &&& d1.entries.len() == entries.len() - 1
            &&& forall|i: int| 0 <= i < d1.entries.len() ==> lex_lt(#[trigger] d1.entries[i].0, name)
            &&& unmet(names, name, w1.seen, front.1)
            &&& valid_name(name)
            &&& names_valid(names)
            &&& child_path(text_of(names), name) == text_of(names.push(name))
        }),
{
    let d = dir_at(b.fs.root, names)->Ok_0;
    let rest = entries.drop_last();
    let name = entries.last().0;
    let w1 = walk_entries(text_of(names), rest, all, walk);
    let d1 = DirModel { entries: renumbered(rest, front.1.numbers), ..d };
    assert(entries[entries.len() - 1] == entries.last());
    with_dir_at_facts(b.fs.root, names, d1, b.fs.leaves.len());
    renumbered_names(rest, front.1.numbers);
    assert forall|i: int| 0 <= i < d1.entries.len() implies lex_lt(#[trigger] d1.entries[i].0, name) by {
        assert(rest[i] == entries[i]);
        assert(lex_lt(entries[i].0, entries[entries.len() - 1].0));
    }
    assert(unmet(names, entries[entries.len() - 1].0, walk.seen, told));
    last_unmet(names, entries, walk.seen, told, w1.seen, front.1);
    assert(valid_name(entries[entries.len() - 1].0));
    text_child(names, name);
}

/// Reading the last entry where it is a leaf.
proof fn last_leaf(
    names: Seq<Seq<u8>>,
    entries: Seq<(Seq<u8>, NodeModel)>,
    total: spec_fn(int) -> nat,
    all: Leaves,
    walk: Walk,
    b: Building,
    told: Told,
    met: spec_fn(int) -> nat,
    size: nat,
    front: (Building, Told),
    id: int,
) -> (r: (Building, Told))
    requires
        entries.len() > 0,
        before_entries(names, entries, total, all, walk, b, told, met, size),
        after_entries(names, entries.drop_last(), all, walk, b, told, met, size, front),
        entries.last().1 == NodeModel::Leaf(id),
    ensures
        after_entries(names, entries, all, walk, b, told, met, size, r),
{
    let rest = entries.drop_last();
    let name = entries.last().0;
    let d = dir_at(b.fs.root, names)->Ok_0;
    let w1 = walk_entries(text_of(names), rest, all, walk);
    let met1 = met_below(met, rest);
    let after = walk_entries(text_of(names), entries, all, walk);
    at_last(names, entries, total, all, walk, b, told, met, size, front);
    assert(entries[entries.len() - 1] == entries.last());
    assert(all.counts[id] == saturated(total(id)));
    let r = read_leaf(names, name, id, total(id), all, w1, front.0, front.1, met1, size);
    renumbered_same(rest, front.1.numbers, r.1.numbers);
    let d1 = DirModel { entries: renumbered(rest, front.1.numbers), ..d };
    let d2 = DirModel { entries: renumbered(entries, r.1.numbers), ..d };
    with_dir_at_twice(b.fs.root, names, d1, d2);
    assert(met_more(met1, id) =~= met_below(met, entries));
    numbers_kept(told.numbers, front.1.numbers, r.1.numbers);
    homes_after(names, entries, walk.seen, told, w1.seen, front.1, after.seen, r.1);
    r
}

/// Reading the line of the last entry where it is a directory.
proof fn last_directory(
    names: Seq<Seq<u8>>,
    entries: Seq<(Seq<u8>, NodeModel)>,
    total: spec_fn(int) -> nat,
    all: Leaves,
    walk: Walk,
    b: Building,
    told: Told,
    met: spec_fn(int) -> nat,
    size: nat,
    front: (Building, Told),
    sub: DirModel,
) -> (r: Building)
    requires
        entries.len() > 0,
        before_entries(names, entries, total, all, walk, b, told, met, size),
        after_entries(names, entries.drop_last(), all, walk, b, told, met, size, front),
        entries.last().1 == NodeModel::Directory(sub),
    ensures
        ({
            let d = dir_at(b.fs.root, names)->Ok_0;
            let name = entries.last().0;
            let d1 = DirModel { entries: renumbered(entries.drop_last(), front.1.numbers), ..d };
            let empty = DirModel { stat: sub.stat, entries: seq![] };
            let d2 = DirModel { entries: d1.entries.push((name, NodeModel::Directory(empty))), ..d };
            let w1 = walk_entries(text_of(names), entries.drop_last(), all, walk);
            let w2 = walk_directory(text_of(names.push(name)), sub, w1);
            &&& r.fs.root == with_dir_at(front.0.fs.root, names, d2)
            &&& dir_at(r.fs.root, names) == Ok::<DirModel, Error>(d2)
            &&& dir_sorted(d2)
            &&& r.fs.have_root_stat == b.fs.have_root_stat
            &&& dir_at(r.fs.root, names.push(name)) == Ok::<DirModel, Error>(empty)
            &&& before_entries(
                names.push(name),
                sub.entries,
                total,
                all,
                w2,
                r,
                front.1,
                met_below(met, entries.drop_last()),
                size,
            )
        }),
{
    let rest = entries.drop_last();
    let name = entries.last().0;
    let d = dir_at(b.fs.root, names)->Ok_0;
    let w1 = walk_entries(text_of(names), rest, all, walk);
    let met1 = met_below(met, rest);
    at_last(names, entries, total, all, walk, b, told, met, size, front);
    assert(entries[entries.len() - 1] == entries.last());
    let r = read_directory(names, name, sub, all, w1, front.0, front.1, met1, size);
    let w2 = walk_directory(text_of(names.push(name)), sub, w1);
    let d1 = DirModel { entries: renumbered(rest, front.1.numbers), ..d };
    let empty = DirModel { stat: sub.stat, entries: seq![] };
    let d2 = DirModel { entries: d1.entries.push((name, NodeModel::Directory(empty))), ..d };
    with_dir_at_facts(front.0.fs.root, names, d2, front.0.fs.leaves.len());
    with_dir_at_facts(r.fs.root, names, d2, r.fs.leaves.len());
    rank_at(d2.entries, d1.entries.len() as int);
    dir_at_child(r.fs.root, names, name);
    assert forall|i: int| 0 <= i < sub.entries.len() implies unmet(
        names.push(name),
        #[trigger] sub.entries[i].0,
        w2.seen,
        front.1,
    ) by {
        assert forall|j: int| 0 <= j < w2.seen.len() && #[trigger] w2.seen[j] is Some implies !under(
            names.push(name),
            sub.entries[i].0,
            front.1.homes[j],
        ) by {
            if under(names.push(name), sub.entries[i].0, front.1.homes[j]) {
                under_child(names, name, sub.entries[i].0, front.1.homes[j]);
            }
        }
    }
    assert forall|id: int| 0 <= id < all.leaves.len() implies #[trigger] all.counts[id] == saturated(total(id))
        && total(id) <= u32::MAX && met1(id) + links_in(sub.entries, id) <= total(id) by {
        assert(all.counts[id] == saturated(total(id)));
        assert(links_in(entries, id) == links_in(rest, id) + links_in(sub.entries, id));
        assert(met1(id) == met(id) + links_in(rest, id));
    }
    names_valid_push(names, name);
    r
}

/// How things stand when what is in the last entry, a directory, was read.
proof fn after_directory(
    names: Seq<Seq<u8>>,
    entries: Seq<(Seq<u8>, NodeModel)>,
    total: spec_fn(int) -> nat,
    all: Leaves,
    walk: Walk,
    b: Building,
    told: Told,
    met: spec_fn(int) -> nat,
    size: nat,
    front: (Building, Told),
    sub: DirModel,
    b2: Building,
    r: (Building, Told),
)
    requires
        entries.len() > 0,
        before_entries(names, entries, total, all, walk, b, told, met, size),
        after_entries(names, entries.drop_last(), all, walk, b, told, met, size, front),
        entries.last().1 == NodeModel::Directory(sub),
        ({
            let d = dir_at(b.fs.root, names)->Ok_0;
            let name = entries.last().0;
            let d1 = DirModel { entries: renumbered(entries.drop_last(), front.1.numbers), ..d };
            let empty = DirModel { stat: sub.stat, entries: seq![] };
            let d2 = DirModel { entries: d1.entries.push((name, NodeModel::Directory(empty))), ..d };
            let w1 = walk_entries(text_of(names), entries.drop_last(), all, walk);
            let w2 = walk_directory(text_of(names.push(name)), sub, w1);
            &&& b2.fs.root == with_dir_at(front.0.fs.root, names, d2)
            &&& dir_at(b2.fs.root, names) == Ok::<DirModel, Error>(d2)
            &&& dir_sorted(d2)
            &&& b2.fs.have_root_stat == b.fs.have_root_stat
            &&& dir_at(b2.fs.root, names.push(name)) == Ok::<DirModel, Error>(empty)
            &&& after_entries(
                names.push(name),
                sub.entries,
                all,
                w2,
                b2,
                front.1,
                met_below(met, entries.drop_last()),
                size,
                r,
            )
        }),
    ensures
        after_entries(names, entries, all, walk, b, told, met, size, r),
{
    let rest = entries.drop_last();
    let name = entries.last().0;
    let d = dir_at(b.fs.root, names)->Ok_0;
    let w1 = walk_entries(text_of(names), rest, all, walk);
    let met1 = met_below(met, rest);
    let after = walk_entries(text_of(names), entries, all, walk);
    at_last(names, entries, total, all, walk, b, told, met, size, front);
    let d1 = DirModel { entries: renumbered(rest, front.1.numbers), ..d };
    let empty = DirModel { stat: sub.stat, entries: seq![] };
    let d2 = DirModel { entries: d1.entries.push((name, NodeModel::Directory(empty))), ..d };
    let full = DirModel { stat: sub.stat, entries: renumbered(sub.entries, r.1.numbers) };
    let d3 = DirModel { entries: renumbered(entries, r.1.numbers), ..d };
    rank_at(d2.entries, d1.entries.len() as int);
    with_dir_at_child(b2.fs.root, names, name, full);
    renumbered_same(rest, front.1.numbers, r.1.numbers);
    assert(put(d2.entries, name, NodeModel::Directory(full)) =~= d3.entries);
    with_dir_at_twice(front.0.fs.root, names, d2, d3);
    with_dir_at_twice(b.fs.root, names, d1, d3);
    assert(met_below(met1, sub.entries) =~= met_below(met, entries));
    assert forall|j: int|
        0 <= j < walk.seen.len() && #[trigger] after.seen[j] is Some && w1.seen[j] is None implies under(
        names,
        name,
        r.1.homes[j],
    ) by {
        let i = choose|i: int|
            0 <= i < sub.entries.len() && under(names.push(name), #[trigger] sub.entries[i].0, r.1.homes[j]);
        under_child(names, name, sub.entries[i].0, r.1.homes[j]);
    }
    numbers_kept(told.numbers, front.1.numbers, r.1.numbers);
    homes_after(names, entries, walk.seen, told, w1.seen, front.1, after.seen, r.1);
}

/// Reading the lines of some entries.
proof fn read_entries(
    names: Seq<Seq<u8>>,
    entries: Seq<(Seq<u8>, NodeModel)>,
    total: spec_fn(int) -> nat,
    all: Leaves,
    walk: Walk,
    b: Building,
    told: Told,
    met: spec_fn(int) -> nat,
    size: nat,
) -> (r: (Building, Told))
    requires
        before_entries(names, entries, total, all, walk, b, told, met, size),
    ensures
        after_entries(names, entries, all, walk, b, told, met, size, r),
    decreases entries,
{
    if entries.len() == 0 {
        let d = dir_at(b.fs.root, names)->Ok_0;
        with_dir_at_same(b.fs.root, names);
        assert(d.entries =~= renumbered(entries, told.numbers));
        assert(met_below(met, entries) =~= met);
        (b, told)
    } else {
        let rest = entries.drop_last();
        before_front(names, entries, total, all, walk, b, told, met, size);
        let front = read_entries(names, rest, total, all, walk, b, told, met, size);
        match entries.last().1 {
            NodeModel::Leaf(id) => last_leaf(names, entries, total, all, walk, b, told, met, size, front, id),
            NodeModel::Directory(sub) => {
                let name = entries.last().0;
                let w1 = walk_entries(text_of(names), rest, all, walk);
                let w2 = walk_directory(text_of(names.push(name)), sub, w1);
                let b2 = last_directory(names, entries, total, all, walk, b, told, met, size, front, sub);
                let r = read_entries(
                    names.push(name),
                    sub.entries,
                    total,
                    all,
                    w2,
                    b2,
                    front.1,
                    met_below(met, rest),
                    size,
                );
                after_directory(names, entries, total, all, walk, b, told, met, size, front, sub, b2, r);
                r
            },
        }
    }
}

/// More bytes without a separator go to the last part.
pub proof fn split_extend(s: Seq<u8>, sep: u8, more: Seq<u8>)
    requires
        !has_byte(more, sep),
    ensures
        split(s + more, sep) == split(s, sep).drop_last().push(split(s, sep).last() + more),
    decreases s.len(),
{
    until_facts(s, sep);
    let n = until(s, sep) as int;
    if n >= s.len() {
        assert(!has_byte(s + more, sep)) by {
            assert forall|i: int| 0 <= i < (s + more).len() implies (s + more)[i] != sep by {
                if i >= s.len() {
                    assert((s + more)[i] == more[i - s.len()]);
                }
            }
        }
        split_whole(s, sep);
        split_whole(s + more, sep);
        assert(split(s + more, sep) =~= split(s, sep).drop_last().push(split(s, sep).last() + more));
    } else {
        let rest = s.skip(n + 1);
        split_extend(rest, sep, more);
        until_is(s + more, sep, n as nat);
        assert((s + more).take(n) =~= s.take(n));
        assert((s + more).skip(n + 1) =~= rest + more);
        split_parts_clean(rest, sep);
        assert(split(s + more, sep) =~= split(s, sep).drop_last().push(split(s, sep).last() + more));
    }
}

/// The lines of some records, without their ends.
spec fn record_lines(records: Seq<Record>) -> Seq<Seq<u8>> {
    Seq::new(records.len(), |i: int| spaced(record_fields(records[i])))
}

/// The text of lines comes apart into the lines.
proof fn records_split(records: Seq<Record>, size: nat)
    requires
        records_readable(records, size),
    ensures
        split(records_text(records), 10) == record_lines(records).push(seq![]),
    decreases records.len(),
{
    let none = Seq::<u8>::empty();
    if records.len() == 0 {
        split_whole(none, 10);
        assert(record_lines(records).push(none) =~= seq![none]);
    } else {
        let front = records.drop_last();
        let line = spaced(record_fields(records.last()));
        assert forall|i: int| 0 <= i < front.len() implies record_readable(#[trigger] front[i], size) by {
            assert(front[i] == records[i]);
        }
        assert(record_readable(records[records.len() - 1], size));
        records_split(front, size);
        record_read_back(records.last(), size);
        let text = records_text(front);
        assert(!has_byte(line, 10));
        split_extend(text, 10, line);
        split_last(text + line, 10, none);
        assert(records_text(records) =~= text + line + seq![10u8] + none);
        assert(none + line =~= line);
        assert(record_lines(front).push(none).drop_last() =~= record_lines(front));
        assert(record_lines(front).push(line) =~= record_lines(records));
        assert(record_lines(records) + seq![none] =~= record_lines(records).push(none));
    }
}

/// The lines of the text of some lines are these lines.
proof fn records_lines(records: Seq<Record>, size: nat)
    requires
        records_readable(records, size),
    ensures
        lines_of(records_text(records)) == record_lines(records),
{
    records_split(records, size);
    let lines = record_lines(records);
    assert forall|i: int| 0 <= i < lines.len() implies without_return(#[trigger] lines[i]) == lines[i] by {
        record_read_back(records[i], size);
    }
    assert(lines_of(records_text(records)) =~= lines);
}

/// Reading lines is reading what they say.
proof fn lines_read(records: Seq<Record>, size: nat)
    requires
        records_readable(records, size),
    ensures
        add_lines(empty_building(), record_lines(records), size) == read_records(records, size),
    decreases records.len(),
{
    if records.len() > 0 {
        let front = records.drop_last();
        assert forall|i: int| 0 <= i < front.len() implies record_readable(#[trigger] front[i], size) by {
            assert(front[i] == records[i]);
        }
        assert(record_readable(records[records.len() - 1], size));
        lines_read(front, size);
        record_read_back(records.last(), size);
        assert(record_lines(records).drop_last() =~= record_lines(front));
    }
}

/// All of a file system can be read back from a dumpfile, where object identifiers have `size`
/// bytes: no file has more names, and no directory more directories, than a line can tell.
pub open spec fn dump_readable(fs: FileSystemModel, size: nat) -> bool {
    &&& stat_readable(fs.root.stat)
    &&& 2 + subdirs(fs.root.entries) <= u32::MAX
    &&& entries_readable(fs.root.entries, fs.leaves, size)
    &&& forall|id: int| 0 <= id < fs.leaves.len() ==> #[trigger] links_in(fs.root.entries, id) <= u32::MAX
}

/// `got` has the tree of `fs`, with other numbers for the leaves: each leaf of `got` is one that
/// has a name in `fs`, and two names lead to the same leaf in one where they do in the other.
pub open spec fn same_tree(got: FileSystemModel, fs: FileSystemModel, numbers: Map<int, int>) -> bool {
    &&& got.root == DirModel { entries: renumbered(fs.root.entries, numbers), ..fs.root }
    &&& covered(fs.root.entries, numbers)
    &&& numbers.dom().finite()
    &&& numbers.dom().len() == got.leaves.len()
    &&& forall|id: int| #[trigger]
        numbers.contains_key(id) ==> 0 <= id < fs.leaves.len() && 0 <= numbers[id] < got.leaves.len()
            && got.leaves[numbers[id]] == fs.leaves[id]
    &&& forall|i: int, j: int|
        #![trigger numbers[i], numbers[j]]
        numbers.contains_key(i) && numbers.contains_key(j) && numbers[i] == numbers[j] ==> i == j
}

/// A file system that is written to a dumpfile is read back from it: all names and metadata, and
/// which names lead to the same leaf.
pub proof fn dump_read_back(fs: FileSystemModel, size: nat)
    requires
        tree_wf(fs),
        fs.leaves.len() <= usize::MAX,
        dump_readable(fs, size),
    ensures
        parse_dump(dump(fs), size) matches Ok(got) && got.have_root_stat && exists|numbers: Map<int, int>| #[trigger]
            same_tree(got, fs, numbers),
{
    let names = Seq::<Seq<u8>>::empty();
    let all = leaves_of(fs);
    let start = Walk { records: seq![], seen: Seq::new(fs.leaves.len(), |id: int| None) };
    let walk = walk_directory(seq![47u8], fs.root, start);
    let record = walk.records.last();
    let root = DirModel { stat: fs.root.stat, entries: seq![] };
    slashed_canonical(names);
    assert(text_of(names) == seq![47u8]);
    assert(walk.records.drop_last() =~= seq![]);
    assert(read_records(walk.records.drop_last(), size) == Ok::<Building, Error>(empty_building()));
    stat_read_back(fs.root.stat, FileType::Directory, record_entry(record));
    let b = add_entry(empty_building(), record_entry(record), size)->Ok_0;
    assert(read_records(walk.records, size) == Ok::<Building, Error>(b));
    assert(b.fs.root == root);
    let told = Told { numbers: Map::empty(), homes: Map::empty() };
    let met = |id: int| 0nat;
    let total = |id: int| links_in(fs.root.entries, id);
    assert(in_step(walk.seen, b, told, all, met));
    assert(records_readable(walk.records, size));
    assert(dir_at(b.fs.root, names) == Ok::<DirModel, Error>(root));
    assert forall|id: int| 0 <= id < all.leaves.len() implies #[trigger] all.counts[id] == saturated(total(id))
        && total(id) <= u32::MAX && met(id) + links_in(fs.root.entries, id) <= total(id) by {
        assert(links_in(fs.root.entries, id) <= u32::MAX);
    }
    assert forall|i: int| 0 <= i < fs.root.entries.len() implies unmet(
        names,
        #[trigger] fs.root.entries[i].0,
        walk.seen,
        told,
    ) by {}
    let r = read_entries(names, fs.root.entries, total, all, walk, b, told, met, size);
    let records = walk_tree(fs).records;
    records_lines(records, size);
    lines_read(records, size);
    assert(same_tree(r.0.fs, fs, r.1.numbers));
}

/// No two leaves have the same new number.
spec fn one_to_one(numbers: Map<int, int>) -> bool {
    forall|i: int, j: int|
        #![trigger numbers[i], numbers[j]]
        numbers.contains_key(i) && numbers.contains_key(j) && numbers[i] == numbers[j] ==> i == j
}

/// New numbers change neither the number of names of a leaf nor that of directories.
proof fn renumbered_counts(entries: Seq<(Seq<u8>, NodeModel)>, numbers: Map<int, int>, id: int)
    requires
        covered(entries, numbers),
        one_to_one(numbers),
        numbers.contains_key(id),
    ensures
        links_in(renumbered(entries, numbers), numbers[id]) == links_in(entries, id),
    decreases entries,
{
    if entries.len() > 0 {
        let front = entries.drop_last();
        renumbered_counts(front, numbers, id);
        assert(renumbered(entries, numbers).drop_last() =~= renumbered(front, numbers));
        match entries.last().1 {
            NodeModel::Directory(d) => {
                renumbered_counts(d.entries, numbers, id);
            },
            NodeModel::Leaf(i) => {
                assert(numbers[i] == numbers[id] ==> i == id);
            },
        }
    }
}

/// New numbers do not change how many directories there are.
proof fn renumbered_subdirs(entries: Seq<(Seq<u8>, NodeModel)>, numbers: Map<int, int>)
    ensures
        subdirs(renumbered(entries, numbers)) == subdirs(entries),
    decreases entries.len(),
{
    if entries.len() > 0 {
        renumbered_subdirs(entries.drop_last(), numbers);
        assert(renumbered(entries, numbers).drop_last() =~= renumbered(entries.drop_last(), numbers));
    }
}

/// Two walks that are equal up to the numbers of the leaves.
spec fn alike(a: Walk, b: Walk, numbers: Map<int, int>) -> bool {
    &&& a.records == b.records
    &&& forall|id: int| #[trigger]
        numbers.contains_key(id) ==> 0 <= id < a.seen.len() && 0 <= numbers[id] < b.seen.len() && a.seen[id]
            == b.seen[numbers[id]]
}

/// Walks through trees that are equal up to the numbers of the leaves give the same lines.
proof fn walk_renumbered(
    path: Seq<u8>,
    entries: Seq<(Seq<u8>, NodeModel)>,
    numbers: Map<int, int>,
    all: Leaves,
    other: Leaves,
    walk: Walk,
    walk2: Walk,
)
    requires
        covered(entries, numbers),
        one_to_one(numbers),
        alike(walk, walk2, numbers),
        forall|id: int| #[trigger]
            numbers.contains_key(id) ==> other.leaves[numbers[id]] == all.leaves[id] && other.counts[numbers[id]]
                == all.counts[id],
    ensures
        alike(
            walk_entries(path, entries, all, walk),
            walk_entries(path, renumbered(entries, numbers), other, walk2),
            numbers,
        ),
    decreases entries,
{
    if entries.len() > 0 {
        let front = entries.drop_last();
        walk_renumbered(path, front, numbers, all, other, walk, walk2);
        assert(renumbered(entries, numbers).drop_last() =~= renumbered(front, numbers));
        let a = walk_entries(path, front, all, walk);
        let b = walk_entries(path, renumbered(front, numbers), other, walk2);
        let child = child_path(path, entries.last().0);
        match entries.last().1 {
            NodeModel::Directory(d) => {
                let d2 = DirModel { entries: renumbered(d.entries, numbers), ..d };
                renumbered_subdirs(d.entries, numbers);
                walk_renumbered(
                    child,
                    d.entries,
                    numbers,
                    all,
                    other,
                    walk_directory(child, d, a),
                    walk_directory(child, d2, b),
                );
            },
            NodeModel::Leaf(id) => {
                assert(numbers.contains_key(id));
                let a2 = walk_leaf(child, id, all, a);
                let b2 = walk_leaf(child, numbers[id], other, b);
                assert forall|j: int| #[trigger] numbers.contains_key(j) implies 0 <= j < a2.seen.len() && 0
                    <= numbers[j] < b2.seen.len() && a2.seen[j] == b2.seen[numbers[j]] by {
                    assert(numbers[j] == numbers[id] ==> j == id);
                }
            },
        }
    }
}

/// Trees that are equal up to the numbers of the leaves have the same dumpfile.
pub proof fn same_tree_same_dump(got: FileSystemModel, fs: FileSystemModel, numbers: Map<int, int>)
    requires
        same_tree(got, fs, numbers),
    ensures
        dump(got) == dump(fs),
{
    let all = leaves_of(fs);
    let other = leaves_of(got);
    let start = Walk { records: seq![], seen: Seq::new(fs.leaves.len(), |id: int| None) };
    let start2 = Walk { records: seq![], seen: Seq::new(got.leaves.len(), |id: int| None) };
    assert forall|id: int| #[trigger] numbers.contains_key(id) implies other.leaves[numbers[id]] == all.leaves[id]
        && other.counts[numbers[id]] == all.counts[id] by {
        renumbered_counts(fs.root.entries, numbers, id);
    }
    renumbered_subdirs(fs.root.entries, numbers);
    walk_renumbered(
        seq![47u8],
        fs.root.entries,
        numbers,
        all,
        other,
        walk_directory(seq![47u8], fs.root, start),
        walk_directory(seq![47u8], got.root, start2),
    );
}

/// Reading a dumpfile and writing it again gives the same text.
pub proof fn dump_is_stable(fs: FileSystemModel, size: nat)
    requires
        tree_wf(fs),
        fs.leaves.len() <= usize::MAX,
        dump_readable(fs, size),
    ensures
        parse_dump(dump(fs), size) matches Ok(got) && dump(got) == dump(fs),
{
    dump_read_back(fs, size);
    let got = parse_dump(dump(fs), size)->Ok_0;
    let numbers = choose|numbers: Map<int, int>| #[trigger] same_tree(got, fs, numbers);
    same_tree_same_dump(got, fs, numbers);
}

/// No object identifier is empty.
pub open spec fn ids_not_empty(leaves: Seq<LeafModel>) -> bool {
    forall|i: int|
        0 <= i < leaves.len() ==> ((#[trigger] leaves[i]).content matches ContentModel::External(id, _) ==> id.len()
            > 0)
}

/// A line is printable.
spec fn printable(record: Record) -> bool {
    record matches Record::Leaf { leaf, .. } ==> (leaf.content matches ContentModel::External(id, _) ==> id.len() > 0)
}

/// All lines are printable.
spec fn all_printable(records: Seq<Record>) -> bool {
    forall|i: int| 0 <= i < records.len() ==> printable(#[trigger] records[i])
}

/// A walk gives printable lines.
proof fn walk_printable(path: Seq<u8>, entries: Seq<(Seq<u8>, NodeModel)>, all: Leaves, walk: Walk)
    requires
        ids_not_empty(all.leaves),
        ids_below(entries, all.leaves.len()),
        all_printable(walk.records),
    ensures
        all_printable(walk_entries(path, entries, all, walk).records),
    decreases entries,
{
    if entries.len() > 0 {
        let front = entries.drop_last();
        assert(ids_below(front, all.leaves.len())) by {
            assert forall|i: int| 0 <= i < front.len() implies match (#[trigger] front[i]).1 {
                NodeModel::Directory(d) => ids_below(d.entries, all.leaves.len()),
                NodeModel::Leaf(id) => 0 <= id < all.leaves.len(),
            } by {
                assert(front[i] == entries[i]);
            }
        }
        walk_printable(path, front, all, walk);
        let before = walk_entries(path, front, all, walk);
        let child = child_path(path, entries.last().0);
        assert(entries[entries.len() - 1] == entries.last());
        match entries.last().1 {
            NodeModel::Directory(d) => {
                let next = walk_directory(child, d, before);
                assert forall|i: int| 0 <= i < next.records.len() implies printable(#[trigger] next.records[i]) by {
                    if i < before.records.len() {
                        assert(next.records[i] == before.records[i]);
                    }
                }
                assert(all_printable(next.records));
                walk_printable(child, d.entries, all, next);
            },
            NodeModel::Leaf(id) => {
                let next = walk_leaf(child, id, all, before);
                assert forall|i: int| 0 <= i < next.records.len() implies printable(#[trigger] next.records[i]) by {
                    if i < before.records.len() {
                        assert(next.records[i] == before.records[i]);
                    }
                }
                assert(all_printable(next.records));
            },
        }
    }
}

/// The text of printable lines.
proof fn records_text_printable(records: Seq<Record>)
    requires
        all_printable(records),
    ensures
        forall|i: int|
            0 <= i < records_text(records).len() ==> (#[trigger] records_text(records)[i] == 10 || 32
                <= records_text(records)[i] <= 126),
    decreases records.len(),
{
    if records.len() > 0 {
        let front = records.drop_last();
        let line = spaced(record_fields(records.last()));
        assert forall|i: int| 0 <= i < front.len() implies printable(#[trigger] front[i]) by {
            assert(front[i] == records[i]);
        }
        records_text_printable(front);
        assert(printable(records[records.len() - 1]));
        record_plain(records.last());
        let text = records_text(records);
        let n = records_text(front).len() as int;
        assert forall|i: int| 0 <= i < text.len() implies (#[trigger] text[i] == 10 || 32 <= text[i] <= 126) by {
            if i < n {
                assert(text[i] == records_text(front)[i]);
            } else if i < n + line.len() {
                assert(text[i] == line[i - n]);
            }
        }
    }
}

/// A dumpfile holds nothing but printable characters, spaces and line ends, whatever the names and
/// the content of the files are.
pub proof fn dump_is_printable(fs: FileSystemModel)
    requires
        ids_below(fs.root.entries, fs.leaves.len()),
        ids_not_empty(fs.leaves),
    ensures
        forall|i: int| 0 <= i < dump(fs).len() ==> (#[trigger] dump(fs)[i] == 10 || 32 <= dump(fs)[i] <= 126),
{
    let start = Walk { records: seq![], seen: Seq::new(fs.leaves.len(), |id: int| None) };
    walk_printable(
        seq![47u8],
        fs.root.entries,
        leaves_of(fs),
        walk_directory(seq![47u8], fs.root, start),
    );
    records_text_printable(walk_tree(fs).records);
}

/// What a path with a name at its end stands for.
pub open spec fn node_at(root: DirModel, path: Seq<u8>) -> Option<NodeModel> {
    let names = parts_of(path).names;
    match dir_at(root, names.drop_last()) {
        Ok(d) => value_at(d.entries, names.last()),
        Err(_) => None,
    }
}

/// The line of a leaf, and then a line that makes its path the target of a hard link: the new path
/// leads to the same leaf, and there is no further leaf.
pub proof fn hardlink_leads_to_target(b: Building, entry: EntryModel, link: EntryModel, size: nat)
    requires
        building_wf(b),
        b.fs.leaves.len() < usize::MAX,
        !(entry.item is Directory || entry.item is Hardlink),
        parts_of(entry.path).names.len() > 0,
        parts_of(link.path).names.len() > 0,
        link.item matches ItemModel::Hardlink { target } && path_key(target) == path_key(entry.path),
    ensures
        add_entry(b, entry, size) matches Ok(first) ==> {
            &&& node_at(first.fs.root, entry.path) == Some(NodeModel::Leaf(b.fs.leaves.len() as int))
            &&& add_entry(first, link, size) matches Ok(second) ==> {
                &&& node_at(second.fs.root, link.path) == Some(NodeModel::Leaf(b.fs.leaves.len() as int))
                &&& second.fs.leaves == first.fs.leaves
            }
        },
{
    if let Ok(first) = add_entry(b, entry, size) {
        let id = b.fs.leaves.len();
        add_entry_wf(b, entry, size);
        put_facts(b.links, path_key(entry.path), id as usize);
        let leaves = first.fs.leaves;
        let grown = FileSystemModel { leaves, ..b.fs };
        placed_node(grown, parts_of(entry.path).names, NodeModel::Leaf(id as int), id);
        if add_entry(first, link, size) is Ok {
            placed_node(first.fs, parts_of(link.path).names, NodeModel::Leaf(id as int), leaves.len());
        }
    }
}

/// What is placed at a path is found there.
proof fn placed_node(fs: FileSystemModel, names: Seq<Seq<u8>>, node: NodeModel, count: nat)
    requires
        dir_sorted(fs.root),
        ids_below(fs.root.entries, count),
        names.len() > 0,
        dir_at(fs.root, names.drop_last()) is Ok,
    ensures
        dir_at(place(fs, names, node).root, names.drop_last()) matches Ok(d) && value_at(d.entries, names.last())
            == Some(node),
{
    let d = dir_at(fs.root, names.drop_last())->Ok_0;
    let new = DirModel { entries: put(d.entries, names.last(), node), ..d };
    with_dir_at_facts(fs.root, names.drop_last(), new, count);
    put_facts(d.entries, names.last(), node);
}

} // verus!
