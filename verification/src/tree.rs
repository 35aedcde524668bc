//! File system trees.

use vstd::prelude::*;
use crate::bytemap::{
    has_key, in_order, map_each, map_each_facts, put, put_facts, rank, rank_facts, value_at, ByteMap,
};
use crate::bytestr::same_bytes;
use crate::error::Error;
use crate::fsverity::FsVerityHashValue;
use crate::path::{components, dotdot, each_bytes, is_valid_name, parts_of, valid_name, Components, PathParts};

verus! {

/// File metadata, as values.
pub struct StatModel {
    /// The permission bits.
    pub mode: u32,
    /// The owner.
    pub uid: u32,
    /// The group.
    pub gid: u32,
    /// The modification time in seconds.
    pub mtime: i64,
    /// The extended attributes, in the order of their names.
    pub xattrs: Seq<(Seq<u8>, Seq<u8>)>,
}

/// What a leaf holds, as values.
pub enum ContentModel {
    /// A file with its content.
    Inline(Seq<u8>),
    /// A file whose content is an object, with its size.
    External(Seq<u8>, u64),
    /// A block device.
    BlockDevice(u64),
    /// A character device.
    CharacterDevice(u64),
    /// A named pipe.
    Fifo,
    /// A socket.
    Socket,
    /// A symbolic link with its target.
    Symlink(Seq<u8>),
}

/// A leaf, as values.
pub struct LeafModel {
    /// Its metadata.
    pub stat: StatModel,
    /// What it holds.
    pub content: ContentModel,
}

/// A directory, as values.
pub struct DirModel {
    /// Its metadata.
    pub stat: StatModel,
    /// Its entries, in the order of their names.
    pub entries: Seq<(Seq<u8>, NodeModel)>,
}

/// What a name in a directory stands for.
pub enum NodeModel {
    /// A directory.
    Directory(DirModel),
    /// The leaf with this number.
    Leaf(int),
}

/// A file system, as values.
pub struct FileSystemModel {
    /// The root directory.
    pub root: DirModel,
    /// The leaves, by number.
    pub leaves: Seq<LeafModel>,
    /// The metadata of the root was set.
    pub have_root_stat: bool,
}

/// All entries, at any depth, have valid names in order, and metadata in order.
pub open spec fn entries_sorted(entries: Seq<(Seq<u8>, NodeModel)>) -> bool
    decreases entries,
{
    &&& in_order(entries)
    &&& forall|i: int|
        0 <= i < entries.len() ==> valid_name((#[trigger] entries[i]).0) && match entries[i].1 {
            NodeModel::Directory(d) => in_order(d.stat.xattrs) && entries_sorted(d.entries),
            NodeModel::Leaf(_) => true,
        }
}

/// All entries that are leaves, at any depth, have numbers under `count`.
pub open spec fn ids_below(entries: Seq<(Seq<u8>, NodeModel)>, count: nat) -> bool
    decreases entries,
{
    forall|i: int|
        0 <= i < entries.len() ==> match (#[trigger] entries[i]).1 {
            NodeModel::Directory(d) => ids_below(d.entries, count),
            NodeModel::Leaf(id) => 0 <= id < count,
        }
}

/// The directory and all below it are in order.
pub open spec fn dir_sorted(dir: DirModel) -> bool {
    in_order(dir.stat.xattrs) && entries_sorted(dir.entries)
}

/// The file system is well formed.
pub open spec fn tree_wf(fs: FileSystemModel) -> bool {
    &&& dir_sorted(fs.root)
    &&& ids_below(fs.root.entries, fs.leaves.len())
    &&& forall|i: int| 0 <= i < fs.leaves.len() ==> in_order((#[trigger] fs.leaves[i]).stat.xattrs)
}

/// The directory that is reached from `dir` by `names`, or why there is none.
pub open spec fn dir_at(dir: DirModel, names: Seq<Seq<u8>>) -> Result<DirModel, Error>
    decreases names.len(),
{
    if names.len() == 0 {
        Ok(dir)
    } else if names[0] == dotdot() {
        Err(Error::InvalidFilename)
    } else {
        match value_at(dir.entries, names[0]) {
            Some(NodeModel::Directory(d)) => dir_at(d, names.drop_first()),
            Some(NodeModel::Leaf(_)) => Err(Error::NotADirectory),
            None => Err(Error::NotFound),
        }
    }
}

/// The directory that is reached from `dir` by a path, or why there is none.
pub open spec fn dir_at_path(dir: DirModel, path: PathParts) -> Result<DirModel, Error> {
    if path.dot {
        Err(Error::InvalidFilename)
    } else {
        dir_at(dir, path.names)
    }
}

/// `dir` with `new` in place of the directory that is reached by `names`.
pub open spec fn with_dir_at(dir: DirModel, names: Seq<Seq<u8>>, new: DirModel) -> DirModel
    decreases names.len(),
{
    if names.len() == 0 {
        new
    } else {
        match value_at(dir.entries, names[0]) {
            Some(NodeModel::Directory(d)) => DirModel {
                entries: put(
                    dir.entries,
                    names[0],
                    NodeModel::Directory(with_dir_at(d, names.drop_first(), new)),
                ),
                ..dir
            },
            _ => dir,
        }
    }
}

/// The later of two times.
pub open spec fn later(a: i64, b: i64) -> i64 {
    if a < b {
        b
    } else {
        a
    }
}

/// The latest of `start` and the modification times of all entries, at any depth.
pub open spec fn newest_in(entries: Seq<(Seq<u8>, NodeModel)>, leaves: Seq<LeafModel>, start: i64) -> i64
    decreases entries,
{
    if entries.len() == 0 {
        start
    } else {
        let before = newest_in(entries.drop_last(), leaves, start);
        match entries.last().1 {
            NodeModel::Directory(d) => newest_in(d.entries, leaves, later(before, d.stat.mtime)),
            NodeModel::Leaf(id) => later(before, leaves[id].stat.mtime),
        }
    }
}

/// The number of names that lead to the leaf `id`, at any depth.
pub open spec fn links_in(entries: Seq<(Seq<u8>, NodeModel)>, id: int) -> nat
    decreases entries,
{
    if entries.len() == 0 {
        0
    } else {
        links_in(entries.drop_last(), id) + match entries.last().1 {
            NodeModel::Directory(d) => links_in(d.entries, id),
            NodeModel::Leaf(i) => if i == id {
                1nat
            } else {
                0nat
            },
        }
    }
}

/// The number of directories among some entries.
pub open spec fn subdirs(entries: Seq<(Seq<u8>, NodeModel)>) -> nat
    decreases entries.len(),
{
    if entries.len() == 0 {
        0
    } else {
        subdirs(entries.drop_last()) + if entries.last().1 is Directory {
            1nat
        } else {
            0nat
        }
    }
}

/// The metadata of a directory that nothing is known of.
pub open spec fn default_stat() -> StatModel {
    StatModel { mode: 0o555, uid: 0, gid: 0, mtime: 0, xattrs: seq![] }
}

/// The file system with the metadata of its root made up where none was set: the newest time in it.
pub open spec fn with_root_stat(fs: FileSystemModel) -> FileSystemModel {
    if fs.have_root_stat {
        fs
    } else {
        FileSystemModel {
            root: DirModel {
                stat: StatModel {
                    mode: 0o555,
                    mtime: newest_in(fs.root.entries, fs.leaves, fs.root.stat.mtime),
                    ..fs.root.stat
                },
                ..fs.root
            },
            have_root_stat: true,
            ..fs
        }
    }
}

/// File metadata.
pub struct Stat {
    /// The permission bits.
    pub st_mode: u32,
    /// The owner.
    pub st_uid: u32,
    /// The group.
    pub st_gid: u32,
    /// The modification time in seconds.
    pub st_mtim_sec: i64,
    /// The extended attributes.
    pub xattrs: ByteMap<Vec<u8>>,
}

impl Stat {
    /// The values in it.
    pub open spec fn view(self) -> StatModel {
        StatModel {
            mode: self.st_mode,
            uid: self.st_uid,
            gid: self.st_gid,
            mtime: self.st_mtim_sec,
            xattrs: map_each(self.xattrs.pairs(), |v: Vec<u8>| v@),
        }
    }
}

impl Stat {
    /// Whether the extended attributes are in order.
    fn is_in_order(&self) -> (r: bool)
        ensures
            r == in_order(self@.xattrs),
    {
        proof {
            map_each_facts(self.xattrs.pairs(), |v: Vec<u8>| v@, seq![], arbitrary());
        }
        self.xattrs.is_in_order()
    }
}

/// The content of a regular file.
pub enum RegularFile<ObjectID: FsVerityHashValue> {
    /// The content itself.
    Inline(Vec<u8>),
    /// The object that is the content, and its size.
    External(ObjectID, u64),
}

/// What a leaf holds.
pub enum LeafContent<ObjectID: FsVerityHashValue> {
    /// A regular file.
    Regular(RegularFile<ObjectID>),
    /// A block device.
    BlockDevice(u64),
    /// A character device.
    CharacterDevice(u64),
    /// A named pipe.
    Fifo,
    /// A socket.
    Socket,
    /// A symbolic link with its target.
    Symlink(Vec<u8>),
}

impl<ObjectID: FsVerityHashValue> LeafContent<ObjectID> {
    /// The values in it.
    pub open spec fn view(self) -> ContentModel {
        match self {
            LeafContent::Regular(RegularFile::Inline(data)) => ContentModel::Inline(data@),
            LeafContent::Regular(RegularFile::External(id, size)) => ContentModel::External(id.bytes(), size),
            LeafContent::BlockDevice(rdev) => ContentModel::BlockDevice(rdev),
            LeafContent::CharacterDevice(rdev) => ContentModel::CharacterDevice(rdev),
            LeafContent::Fifo => ContentModel::Fifo,
            LeafContent::Socket => ContentModel::Socket,
            LeafContent::Symlink(target) => ContentModel::Symlink(target@),
        }
    }
}

/// A file that is not a directory.
pub struct Leaf<ObjectID: FsVerityHashValue> {
    /// Its metadata.
    pub stat: Stat,
    /// What it holds.
    pub content: LeafContent<ObjectID>,
}

impl<ObjectID: FsVerityHashValue> Leaf<ObjectID> {
    /// The values in it.
    pub open spec fn view(self) -> LeafModel {
        LeafModel { stat: self.stat@, content: self.content@ }
    }
}

/// What a name in a directory stands for.
pub enum Inode {
    /// A directory.
    Directory(Box<Directory>),
    /// The leaf with this number in the file system. More than one name can lead to it.
    Leaf(usize),
}

/// A directory.
pub struct Directory {
    /// Its metadata.
    pub stat: Stat,
    /// Its entries.
    pub entries: ByteMap<Inode>,
}

impl Inode {
    /// The values in it.
    pub open spec fn view(self) -> NodeModel
        decreases self,
    {
        match self {
            Inode::Directory(d) => NodeModel::Directory(d.view()),
            Inode::Leaf(id) => NodeModel::Leaf(id as int),
        }
    }
}

impl Directory {
    /// The values in it.
    pub open spec fn view(self) -> DirModel
        decreases self,
    {
        DirModel {
            stat: self.stat@,
            entries: Seq::new(
                self.entries.entries@.len(),
                |i: int|
                    if 0 <= i < self.entries.entries@.len() {
                        (self.entries.entries@[i].0@, self.entries.entries@[i].1.view())
                    } else {
                        arbitrary()
                    },
            ),
        }
    }

    /// The entries of the view are those of the map.
    pub proof fn view_entries(self)
        ensures
            self@.entries == map_each(self.entries.pairs(), |n: Inode| n.view()),
            in_order(self@.entries) == self.entries.wf(),
            forall|key: Seq<u8>| #[trigger] has_key(self@.entries, key) == has_key(self.entries.pairs(), key),
            forall|key: Seq<u8>| #[trigger] rank(self@.entries, key) == rank(self.entries.pairs(), key),
    {
        let f = |n: Inode| n.view();
        assert(self@.entries =~= map_each(self.entries.pairs(), f));
        assert forall|key: Seq<u8>|
            #[trigger] has_key(self@.entries, key) == has_key(self.entries.pairs(), key) && rank(
                self@.entries,
                key,
            ) == rank(self.entries.pairs(), key) by {
            map_each_facts(self.entries.pairs(), f, key, arbitrary());
        }
        assert forall|key: Seq<u8>| #[trigger] rank(self@.entries, key) == rank(self.entries.pairs(), key) by {
            assert(has_key(self@.entries, key) == has_key(self.entries.pairs(), key));
        }
        map_each_facts(self.entries.pairs(), f, seq![], arbitrary());
    }

    /// An empty directory.
    pub fn new(stat: Stat) -> (r: Self)
        ensures
            r@ == (DirModel { stat: stat@, entries: seq![] }),
    {
        let r = Directory { stat, entries: ByteMap::new() };
        proof {
            r.view_entries();
            assert(r@.entries =~= seq![]);
        }
        r
    }

    /// What `name` stands for.
    pub fn lookup(&self, name: &[u8]) -> (r: Option<&Inode>)
        requires
            in_order(self@.entries),
        ensures
            match r {
                Some(n) => value_at(self@.entries, name@) == Some(n.view()),
                None => value_at(self@.entries, name@) is None,
            },
    {
        proof {
            self.view_entries();
            rank_facts(self.entries.pairs(), name@);
        }
        self.entries.get(name)
    }

    /// The directory at a path, seen from this one.
    pub fn get_directory(&self, path: &[u8]) -> (r: Result<&Directory, Error>)
        requires
            dir_sorted(self@),
        ensures
            match r {
                Ok(d) => dir_at_path(self@, parts_of(path@)) == Ok::<DirModel, Error>(d@) && dir_sorted(d@),
                Err(e) => dir_at_path(self@, parts_of(path@)) == Err::<DirModel, Error>(e),
            },
    {
        let parts: Components = components(path);
        if parts.dot {
            return Err(Error::InvalidFilename);
        }
        self.descend(&parts.names)
    }

    /// The directory that is reached by some names.
    pub(crate) fn descend(&self, names: &Vec<Vec<u8>>) -> (r: Result<&Directory, Error>)
        requires
            dir_sorted(self@),
        ensures
            match r {
                Ok(d) => dir_at(self@, each_bytes(names@)) == Ok::<DirModel, Error>(d@) && dir_sorted(d@),
                Err(e) => dir_at(self@, each_bytes(names@)) == Err::<DirModel, Error>(e),
            },
    {
        let up: [u8; 2] = [46u8, 46u8];
        assert(up@ =~= dotdot());
        let ghost all = each_bytes(names@);
        let mut dir: &Directory = self;
        let mut i: usize = 0;
        assert(all.skip(0) =~= all);
        while i < names.len()
            invariant
                i <= names@.len(),
                all == each_bytes(names@),
                up@ == dotdot(),
                dir_sorted(dir@),
                dir_at(self@, all) == dir_at(dir@, all.skip(i as int)),
            decreases names@.len() - i,
        {
            let name: &Vec<u8> = &names[i];
            let ghost rest = all.skip(i as int);
            assert(rest.drop_first() =~= all.skip(i + 1));
            assert(rest[0] == name@);
            if same_bytes(name.as_slice(), up.as_slice()) {
                return Err(Error::InvalidFilename);
            }
            proof {
                rank_facts(dir@.entries, name@);
            }
            match dir.lookup(name.as_slice()) {
                Some(Inode::Directory(d)) => {
                    dir = &**d;
                },
                Some(Inode::Leaf(_)) => {
                    return Err(Error::NotADirectory);
                },
                None => {
                    return Err(Error::NotFound);
                },
            }
            i = i + 1;
        }
        Ok(dir)
    }

    /// The directory at the names from `from` on.
    pub(crate) fn descend_mut(&mut self, names: &Vec<Vec<u8>>, from: usize) -> (r: Result<&mut Directory, Error>)
        requires
            dir_sorted(old(self)@),
            from <= names@.len(),
        ensures
            match r {
                Ok(d) => {
                    &&& dir_at(old(self)@, each_bytes(names@).skip(from as int)) == Ok::<DirModel, Error>(d@)
                    &&& dir_sorted(d@)
                    &&& final(self)@ == with_dir_at(old(self)@, each_bytes(names@).skip(from as int), final(d)@)
                },
                Err(e) => {
                    &&& dir_at(old(self)@, each_bytes(names@).skip(from as int)) == Err::<DirModel, Error>(e)
                    &&& final(self)@ == old(self)@
                },
            },
        decreases names@.len() - from,
    {
        let ghost rest = each_bytes(names@).skip(from as int);
        if from >= names.len() {
            return Ok(self);
        }
        let up: [u8; 2] = [46u8, 46u8];
        assert(up@ =~= dotdot());
        let name: &[u8] = names[from].as_slice();
        assert(rest.drop_first() =~= each_bytes(names@).skip(from + 1));
        assert(rest[0] == name@);
        if same_bytes(name, up.as_slice()) {
            return Err(Error::InvalidFilename);
        }
        let ghost before = *self;
        let ghost after = *final(self);
        proof {
            before.view_entries();
            rank_facts(self@.entries, name@);
        }
        match self.entries.search(name) {
            Ok(i) => {
                match &mut self.entries.entries[i].1 {
                    Inode::Directory(d) => {
                        let r = d.descend_mut(names, from + 1);
                        proof {
                            let b = before@.entries;
                            if r is Ok {
                                assert(after@.entries =~= put(
                                    b,
                                    name@,
                                    NodeModel::Directory(
                                        with_dir_at(
                                            b[i as int].1->Directory_0,
                                            rest.drop_first(),
                                            final(r->Ok_0)@,
                                        ),
                                    ),
                                ));
                            } else {
                                assert(after@.entries =~= b);
                            }
                        }
                        r
                    },
                    Inode::Leaf(_) => {
                        assert(after@.entries =~= before@.entries);
                        Err(Error::NotADirectory)
                    },
                }
            },
            Err(_) => Err(Error::NotFound),
        }
    }

    /// The directory at a path, seen from this one, to be changed.
    pub fn get_directory_mut(&mut self, path: &[u8]) -> (r: Result<&mut Directory, Error>)
        requires
            dir_sorted(old(self)@),
        ensures
            match r {
                Ok(d) => {
                    &&& dir_at_path(old(self)@, parts_of(path@)) == Ok::<DirModel, Error>(d@)
                    &&& dir_sorted(d@)
                    &&& final(self)@ == with_dir_at(old(self)@, parts_of(path@).names, final(d)@)
                },
                Err(e) => {
                    &&& dir_at_path(old(self)@, parts_of(path@)) == Err::<DirModel, Error>(e)
                    &&& final(self)@ == old(self)@
                },
            },
    {
        let parts: Components = components(path);
        if parts.dot {
            return Err(Error::InvalidFilename);
        }
        assert(each_bytes(parts.names@).skip(0) =~= parts@.names);
        self.descend_mut(&parts.names, 0)
    }

    /// Gives a name a new meaning, whether it had one or not.
    pub fn insert(&mut self, name: Vec<u8>, inode: Inode)
        requires
            in_order(old(self)@.entries),
        ensures
            final(self)@ == (DirModel { entries: put(old(self)@.entries, name@, inode.view()), ..old(self)@ }),
    {
        let ghost before = *self;
        proof {
            before.view_entries();
            map_each_facts(before.entries.pairs(), |n: Inode| n.view(), name@, inode);
        }
        self.entries.insert(name, inode);
        proof {
            self.view_entries();
        }
    }

    /// Whether this directory and all below it are in order, and lead to leaves under `count`.
    fn is_in_order(&self, count: usize) -> (r: bool)
        ensures
            r == (dir_sorted(self@) && ids_below(self@.entries, count as nat)),
        decreases self,
    {
        let ghost all = self@.entries;
        proof {
            self.view_entries();
        }
        if !self.stat.is_in_order() || !self.entries.is_in_order() {
            return false;
        }
        let mut i: usize = 0;
        while i < self.entries.len()
            invariant
                i <= self.entries.entries@.len(),
                all == self@.entries,
                all.len() == self.entries.entries@.len(),
                in_order(self@.stat.xattrs),
                in_order(all),
                forall|j: int|
                    0 <= j < i ==> valid_name((#[trigger] all[j]).0) && match all[j].1 {
                        NodeModel::Directory(d) => dir_sorted(d) && ids_below(d.entries, count as nat),
                        NodeModel::Leaf(id) => 0 <= id < count,
                    },
            decreases self.entries.entries@.len() - i,
        {
            let entry: &(Vec<u8>, Inode) = &self.entries.entries[i];
            assert(all[i as int] == (entry.0@, entry.1.view()));
            if !is_valid_name(entry.0.as_slice()) {
                return false;
            }
            match &entry.1 {
                Inode::Directory(d) => {
                    if !d.is_in_order(count) {
                        return false;
                    }
                },
                Inode::Leaf(id) => {
                    if *id >= count {
                        return false;
                    }
                },
            }
            i = i + 1;
        }
        assert(entries_sorted(all));
        assert(ids_below(all, count as nat));
        true
    }

    /// The latest of `start` and the modification times of all entries, at any depth.
    fn newest<ObjectID: FsVerityHashValue>(&self, leaves: &Vec<Leaf<ObjectID>>, start: i64) -> (r: i64)
        requires
            ids_below(self@.entries, leaves@.len()),
        ensures
            r == newest_in(self@.entries, leaf_models(leaves@), start),
        decreases self,
    {
        let ghost all = self@.entries;
        let mut r: i64 = start;
        let mut i: usize = 0;
        assert(all.take(0) =~= seq![]);
        while i < self.entries.len()
            invariant
                i <= self.entries.entries@.len(),
                all == self@.entries,
                all.len() == self.entries.entries@.len(),
                ids_below(all, leaves@.len()),
                r == newest_in(all.take(i as int), leaf_models(leaves@), start),
            decreases self.entries.entries@.len() - i,
        {
            assert(all.take(i + 1).drop_last() =~= all.take(i as int));
            assert(all.take(i + 1).last() == all[i as int]);
            match &self.entries.entries[i].1 {
                Inode::Directory(d) => {
                    let before: i64 = if r < d.stat.st_mtim_sec {
                        d.stat.st_mtim_sec
                    } else {
                        r
                    };
                    r = d.newest(leaves, before);
                },
                Inode::Leaf(id) => {
                    let mtime: i64 = leaves[*id].stat.st_mtim_sec;
                    if r < mtime {
                        r = mtime;
                    }
                },
            }
            i = i + 1;
        }
        assert(all.take(i as int) =~= all);
        r
    }

    /// Adds the number of names that lead to each leaf.
    fn count_links(&self, counts: &mut Vec<usize>)
        requires
            ids_below(self@.entries, old(counts)@.len()),
        ensures
            final(counts)@.len() == old(counts)@.len(),
            forall|id: int|
                0 <= id < final(counts)@.len() ==> #[trigger] final(counts)@[id] == saturated(
                    (old(counts)@[id] + links_in(self@.entries, id)) as nat,
                ),
        decreases self,
    {
        let ghost all = self@.entries;
        let mut i: usize = 0;
        assert(all.take(0) =~= seq![]);
        while i < self.entries.len()
            invariant
                i <= self.entries.entries@.len(),
                all == self@.entries,
                all.len() == self.entries.entries@.len(),
                counts@.len() == old(counts)@.len(),
                ids_below(all, old(counts)@.len()),
                forall|id: int|
                    0 <= id < counts@.len() ==> #[trigger] counts@[id] == saturated(
                        (old(counts)@[id] + links_in(all.take(i as int), id)) as nat,
                    ),
            decreases self.entries.entries@.len() - i,
        {
            assert(all.take(i + 1).drop_last() =~= all.take(i as int));
            assert(all.take(i + 1).last() == all[i as int]);
            match &self.entries.entries[i].1 {
                Inode::Directory(d) => {
                    d.count_links(counts);
                },
                Inode::Leaf(id) => {
                    let count: usize = counts[*id];
                    counts[*id] = count.saturating_add(1);
                },
            }
            i = i + 1;
        }
        assert(all.take(i as int) =~= all);
    }
}

/// The number, or the greatest there is.
pub open spec fn saturated(n: nat) -> usize {
    if n > usize::MAX {
        usize::MAX
    } else {
        n as usize
    }
}

/// The values in some leaves.
pub open spec fn leaf_models<ObjectID: FsVerityHashValue>(leaves: Seq<Leaf<ObjectID>>) -> Seq<LeafModel> {
    Seq::new(leaves.len(), |i: int| leaves[i].view())
}

/// A file system.
pub struct FileSystem<ObjectID: FsVerityHashValue> {
    /// The root directory.
    pub root: Directory,
    /// The leaves, by number.
    pub leaves: Vec<Leaf<ObjectID>>,
    /// The metadata of the root was set.
    pub have_root_stat: bool,
}

impl<ObjectID: FsVerityHashValue> FileSystem<ObjectID> {
    /// The values in it.
    pub open spec fn view(self) -> FileSystemModel {
        FileSystemModel {
            root: self.root@,
            leaves: leaf_models(self.leaves@),
            have_root_stat: self.have_root_stat,
        }
    }

    /// The file system is well formed.
    pub open spec fn wf(self) -> bool {
        tree_wf(self@)
    }

    /// Whether the file system is well formed: names and extended attributes are in order, and all
    /// leaves that are named are there.
    pub fn is_well_formed(&self) -> (r: bool)
        ensures
            r == self.wf(),
    {
        if !self.root.is_in_order(self.leaves.len()) {
            return false;
        }
        let mut i: usize = 0;
        while i < self.leaves.len()
            invariant
                i <= self.leaves@.len(),
                forall|j: int| 0 <= j < i ==> in_order((#[trigger] self@.leaves[j]).stat.xattrs),
            decreases self.leaves@.len() - i,
        {
            assert(self@.leaves[i as int] == self.leaves@[i as int].view());
            if !self.leaves[i].stat.is_in_order() {
                return false;
            }
            i = i + 1;
        }
        true
    }

    /// Sets the metadata of the root.
    pub fn set_root_stat(&mut self, stat: Stat)
        ensures
            final(self)@ == (FileSystemModel {
                root: DirModel { stat: stat@, ..old(self)@.root },
                have_root_stat: true,
                ..old(self)@
            }),
    {
        self.root.stat = stat;
        self.have_root_stat = true;
        assert(self.root@.entries =~= old(self).root@.entries);
    }

    /// Makes up the metadata of the root where none was set: its time is the newest in the tree.
    pub fn ensure_root_stat(&mut self)
        requires
            old(self).wf(),
        ensures
            final(self).wf(),
            final(self)@ == with_root_stat(old(self)@),
    {
        if !self.have_root_stat {
            let newest: i64 = self.root.newest(&self.leaves, self.root.stat.st_mtim_sec);
            self.root.stat.st_mtim_sec = newest;
            self.root.stat.st_mode = 0o555;
            self.have_root_stat = true;
            assert(self.root@.entries =~= old(self).root@.entries);
        }
    }

    /// The number of names that lead to each leaf.
    pub fn link_counts(&self) -> (r: Vec<usize>)
        requires
            self.wf(),
        ensures
            r@.len() == self@.leaves.len(),
            forall|id: int|
                0 <= id < r@.len() ==> #[trigger] r@[id] == saturated(links_in(self@.root.entries, id)),
    {
        let mut r: Vec<usize> = Vec::new();
        let mut i: usize = 0;
        while i < self.leaves.len()
            invariant
                i <= self.leaves@.len(),
                r@.len() == i,
                forall|j: int| 0 <= j < i ==> r@[j] == 0,
            decreases self.leaves@.len() - i,
        {
            r.push(0);
            i = i + 1;
        }
        self.root.count_links(&mut r);
        r
    }

    /// The regular file with a name in the root directory.
    pub fn get_file(&self, name: &[u8]) -> (r: Result<&RegularFile<ObjectID>, Error>)
        requires
            self.wf(),
        ensures
            match value_at(self@.root.entries, name@) {
                None => r matches Err(e) && e == Error::NotFound,
                Some(NodeModel::Directory(_)) => r matches Err(e) && e == Error::NotAFile,
                Some(NodeModel::Leaf(id)) => match self.leaves@[id].content {
                    LeafContent::Regular(file) => r matches Ok(f) && *f == file,
                    _ => r matches Err(e) && e == Error::NotAFile,
                },
            },
    {
        proof {
            rank_facts(self.root@.entries, name@);
        }
        match self.root.lookup(name) {
            None => Err(Error::NotFound),
            Some(Inode::Directory(_)) => Err(Error::NotAFile),
            Some(Inode::Leaf(id)) => match &self.leaves[*id].content {
                LeafContent::Regular(file) => Ok(file),
                _ => Err(Error::NotAFile),
            },
        }
    }
}

impl<ObjectID: FsVerityHashValue> Default for FileSystem<ObjectID> {
    /// An empty file system.
    fn default() -> (r: Self)
        ensures
            r.wf(),
            r@ == (FileSystemModel {
                root: DirModel { stat: default_stat(), entries: seq![] },
                leaves: seq![],
                have_root_stat: false,
            }),
    {
        let stat = Stat { st_mode: 0o555, st_uid: 0, st_gid: 0, st_mtim_sec: 0, xattrs: ByteMap::new() };
        assert(stat@.xattrs =~= seq![]);
        let r = FileSystem { root: Directory::new(stat), leaves: Vec::new(), have_root_stat: false };
        assert(r@.leaves =~= seq![]);
        r
    }
}

/// What replacing a directory does to what is reached by its path, and what it keeps.
pub proof fn with_dir_at_facts(dir: DirModel, names: Seq<Seq<u8>>, new: DirModel, count: nat)
    requires
        dir_sorted(dir),
        ids_below(dir.entries, count),
        dir_at(dir, names) is Ok,
    ensures
        dir_at(with_dir_at(dir, names, new), names) == Ok::<DirModel, Error>(new),
        dir_sorted(dir_at(dir, names)->Ok_0),
        ids_below((dir_at(dir, names)->Ok_0).entries, count),
        dir_sorted(new) ==> dir_sorted(with_dir_at(dir, names, new)),
        ids_below(new.entries, count) ==> ids_below(with_dir_at(dir, names, new).entries, count),
    decreases names.len(),
{
    if names.len() > 0 {
        rank_facts(dir.entries, names[0]);
        let d = value_at(dir.entries, names[0])->Some_0->Directory_0;
        with_dir_at_facts(d, names.drop_first(), new, count);
        put_wf(
            dir.entries,
            names[0],
            NodeModel::Directory(with_dir_at(d, names.drop_first(), new)),
            count,
        );
        put_facts(
            dir.entries,
            names[0],
            NodeModel::Directory(with_dir_at(d, names.drop_first(), new)),
        );
    }
}

/// Storing a node in some entries keeps them well formed.
pub proof fn put_wf(entries: Seq<(Seq<u8>, NodeModel)>, name: Seq<u8>, node: NodeModel, count: nat)
    requires
        entries_sorted(entries),
        ids_below(entries, count),
        valid_name(name),
    ensures
        (node matches NodeModel::Directory(d) ==> dir_sorted(d)) ==> entries_sorted(put(entries, name, node)),
        (match node {
            NodeModel::Directory(d) => ids_below(d.entries, count),
            NodeModel::Leaf(id) => 0 <= id < count,
        }) ==> ids_below(put(entries, name, node), count),
{
    let t = put(entries, name, node);
    let n = rank(entries, name) as int;
    put_facts(entries, name, node);
    rank_facts(entries, name);
    let from = |i: int| if has_key(entries, name) || i < n {
        i
    } else {
        i - 1
    };
    assert forall|i: int| 0 <= i < t.len() && i != n implies #[trigger] t[i] == entries[from(i)] by {}
    let sorted = node matches NodeModel::Directory(d) ==> dir_sorted(d);
    let below = match node {
        NodeModel::Directory(d) => ids_below(d.entries, count),
        NodeModel::Leaf(id) => 0 <= id < count,
    };
    if sorted {
        assert forall|i: int| 0 <= i < t.len() implies valid_name((#[trigger] t[i]).0) && match t[i].1 {
            NodeModel::Directory(d) => in_order(d.stat.xattrs) && entries_sorted(d.entries),
            NodeModel::Leaf(_) => true,
        } by {
            if i != n {
                assert(t[i] == entries[from(i)]);
                assert(valid_name(entries[from(i)].0));
            } else {
                assert(t[i] == (name, node));
            }
        }
        assert(in_order(t));
        assert(entries_sorted(t));
    }
    if below {
        assert forall|i: int| 0 <= i < t.len() implies match (#[trigger] t[i]).1 {
            NodeModel::Directory(d) => ids_below(d.entries, count),
            NodeModel::Leaf(id) => 0 <= id < count,
        } by {
            if i != n {
                assert(t[i] == entries[from(i)]);
            } else {
                assert(t[i] == (name, node));
            }
        }
        assert(ids_below(t, count));
    }
}

} // verus!
