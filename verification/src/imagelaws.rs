//! What is made an image of, and what is done with it.

use vstd::prelude::*;
use crate::error::Error;
use crate::fsverity::FsVerityHashValue;
use crate::tree::FileSystem;
use crate::treelaws::{newest_is_latest, node_in, time_of};

verus! {

/// The metadata of the root was set, or is made up: it can be read and searched by all, and has the
/// newest time of the tree. All else is as before.
pub open spec fn root_is_set<ObjectID: FsVerityHashValue>(
    before: FileSystem<ObjectID>,
    after: FileSystem<ObjectID>,
) -> bool {
    let old_stat = before@.root.stat;
    let new_stat = after@.root.stat;
    &&& after@.have_root_stat
    &&& after@.root.entries == before@.root.entries
    &&& after@.leaves == before@.leaves
    &&& before@.have_root_stat ==> new_stat == old_stat
    &&& !before@.have_root_stat ==> {
        &&& new_stat.mode == 0o555
        &&& new_stat.uid == old_stat.uid
        &&& new_stat.gid == old_stat.gid
        &&& new_stat.xattrs == old_stat.xattrs
        &&& new_stat.mtime >= old_stat.mtime
        &&& forall|names: Seq<Seq<u8>>|
            (#[trigger] node_in(before@.root.entries, names) matches Some(node) ==> time_of(node, before@.leaves)
                <= new_stat.mtime)
    }
}

/// Committing a file system sets the metadata of its root, makes the image of that, hands it to the
/// store under the given name, and gives what comes of that.
pub proof fn image_is_committed<
    ObjectID: FsVerityHashValue,
    M: Fn(&FileSystem<ObjectID>) -> Vec<u8>,
    W: Fn(Option<&str>, &Vec<u8>) -> Result<ObjectID, Error>,
>(
    fs: &mut FileSystem<ObjectID>,
    image_name: Option<&str>,
    mkfs_erofs: M,
    write_image: W,
    r: Result<ObjectID, Error>,
)
    requires
        old(fs).wf(),
        call_ensures(FileSystem::<ObjectID>::commit_image::<M, W>, (fs, image_name, mkfs_erofs, write_image), r),
    ensures
        root_is_set(*old(fs), *final(fs)),
        exists|image: Vec<u8>| #[trigger]
            call_ensures(mkfs_erofs, (&*final(fs),), image) && call_ensures(write_image, (image_name, &image), r),
{
    newest_is_latest(old(fs)@.root.entries, old(fs)@.leaves, old(fs)@.root.stat.mtime);
}

/// Computing the identifier of a file system sets the metadata of its root, makes the image of that,
/// and gives the identifier of the image.
pub proof fn image_is_measured<
    ObjectID: FsVerityHashValue,
    M: Fn(&FileSystem<ObjectID>) -> Vec<u8>,
    V: Fn(&Vec<u8>) -> ObjectID,
>(fs: &mut FileSystem<ObjectID>, mkfs_erofs: M, compute_verity: V, r: ObjectID)
    requires
        old(fs).wf(),
        call_ensures(FileSystem::<ObjectID>::compute_image_id::<M, V>, (fs, mkfs_erofs, compute_verity), r),
    ensures
        root_is_set(*old(fs), *final(fs)),
        exists|image: Vec<u8>| #[trigger]
            call_ensures(mkfs_erofs, (&*final(fs),), image) && call_ensures(compute_verity, (&image,), r),
{
    newest_is_latest(old(fs)@.root.entries, old(fs)@.leaves, old(fs)@.root.stat.mtime);
}

} // verus!
