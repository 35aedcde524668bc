//! Operations on whole file systems.

use vstd::prelude::*;
use crate::dumpfile::{dump, write_dumpfile};
use crate::error::Error;
use crate::fsverity::FsVerityHashValue;
use crate::io::ByteSink;
use crate::tree::{with_root_stat, FileSystem};

verus! {

/// Storing the image of a file system under a name can come to `r`.
pub open spec fn image_stored<
    ObjectID: FsVerityHashValue,
    M: Fn(&FileSystem<ObjectID>) -> Vec<u8>,
    W: Fn(Option<&str>, &Vec<u8>) -> Result<ObjectID, Error>,
>(mkfs_erofs: M, write_image: W, fs: &FileSystem<ObjectID>, name: Option<&str>, r: Result<ObjectID, Error>) -> bool {
    exists|image: Vec<u8>| #[trigger]
        call_ensures(mkfs_erofs, (fs,), image) && call_ensures(write_image, (name, &image), r)
}

/// The identifier of the image of a file system can be `id`.
pub open spec fn image_measured<
    ObjectID: FsVerityHashValue,
    M: Fn(&FileSystem<ObjectID>) -> Vec<u8>,
    V: Fn(&Vec<u8>) -> ObjectID,
>(mkfs_erofs: M, compute_verity: V, fs: &FileSystem<ObjectID>, id: ObjectID) -> bool {
    exists|image: Vec<u8>| #[trigger]
        call_ensures(mkfs_erofs, (fs,), image) && call_ensures(compute_verity, (&image,), id)
}

/// Equal file systems have equal images.
pub open spec fn one_image<ObjectID: FsVerityHashValue, M: Fn(&FileSystem<ObjectID>) -> Vec<u8>>(
    mkfs_erofs: M,
) -> bool {
    forall|a: &FileSystem<ObjectID>, b: &FileSystem<ObjectID>, i: Vec<u8>, j: Vec<u8>|
        #![trigger call_ensures(mkfs_erofs, (a,), i), call_ensures(mkfs_erofs, (b,), j)]
        a@ == b@ && call_ensures(mkfs_erofs, (a,), i) && call_ensures(mkfs_erofs, (b,), j) ==> i@ == j@
}

/// Equal images have equal identifiers.
pub open spec fn one_identifier<ObjectID: FsVerityHashValue, V: Fn(&Vec<u8>) -> ObjectID>(compute_verity: V) -> bool {
    forall|i: &Vec<u8>, j: &Vec<u8>, x: ObjectID, y: ObjectID|
        #![trigger call_ensures(compute_verity, (i,), x), call_ensures(compute_verity, (j,), y)]
        i@ == j@ && call_ensures(compute_verity, (i,), x) && call_ensures(compute_verity, (j,), y) ==> x.bytes()
            == y.bytes()
}

/// An image that is stored, under whatever name, is stored under its identifier.
pub open spec fn stored_under_identifier<
    ObjectID: FsVerityHashValue,
    W: Fn(Option<&str>, &Vec<u8>) -> Result<ObjectID, Error>,
    V: Fn(&Vec<u8>) -> ObjectID,
>(write_image: W, compute_verity: V) -> bool {
    forall|name: Option<&str>, i: &Vec<u8>, j: &Vec<u8>, r: Result<ObjectID, Error>, id: ObjectID|
        #![trigger call_ensures(write_image, (name, i), r), call_ensures(compute_verity, (j,), id)]
        i@ == j@ && call_ensures(write_image, (name, i), r) && call_ensures(compute_verity, (j,), id) ==> (
        r matches Ok(stored) ==> stored.bytes() == id.bytes())
}

/// Storing a file system as an image gives the identifier that is computed for an equal one,
/// whatever the name. The metadata of its root is set then, and nothing is changed where it was
/// set before: see `FileSystem::commit_image` and `FileSystem::compute_image_id`.
pub proof fn committed_is_computed<
    ObjectID: FsVerityHashValue,
    M: Fn(&FileSystem<ObjectID>) -> Vec<u8>,
    W: Fn(Option<&str>, &Vec<u8>) -> Result<ObjectID, Error>,
    V: Fn(&Vec<u8>) -> ObjectID,
>(
    f: FileSystem<ObjectID>,
    g: FileSystem<ObjectID>,
    f_after: FileSystem<ObjectID>,
    g_after: FileSystem<ObjectID>,
    name: Option<&str>,
    mkfs_erofs: M,
    write_image: W,
    compute_verity: V,
    r: Result<ObjectID, Error>,
    id: ObjectID,
)
    requires
        f@ == g@,
        f_after@ == with_root_stat(f@),
        g_after@ == with_root_stat(g@),
        image_stored(mkfs_erofs, write_image, &f_after, name, r),
        image_measured(mkfs_erofs, compute_verity, &g_after, id),
        one_image(mkfs_erofs),
        stored_under_identifier(write_image, compute_verity),
    ensures
        r matches Ok(stored) ==> stored.bytes() == id.bytes(),
        f_after@.have_root_stat,
        f@.have_root_stat ==> f_after@ == f@,
{
}

/// Computing the identifier of a file system a second time gives it again and changes nothing.
pub proof fn computed_again<
    ObjectID: FsVerityHashValue,
    M: Fn(&FileSystem<ObjectID>) -> Vec<u8>,
    V: Fn(&Vec<u8>) -> ObjectID,
>(
    fs: FileSystem<ObjectID>,
    once: FileSystem<ObjectID>,
    twice: FileSystem<ObjectID>,
    mkfs_erofs: M,
    compute_verity: V,
    first: ObjectID,
    second: ObjectID,
)
    requires
        once@ == with_root_stat(fs@),
        image_measured(mkfs_erofs, compute_verity, &once, first),
        twice@ == with_root_stat(once@),
        image_measured(mkfs_erofs, compute_verity, &twice, second),
        one_image(mkfs_erofs),
        one_identifier(compute_verity),
    ensures
        once@.have_root_stat,
        twice@ == once@,
        first.bytes() == second.bytes(),
{
}

impl<ObjectID: FsVerityHashValue> FileSystem<ObjectID> {
    /// Stores this file system as an image, and gives the identifier of the image.
    ///
    /// Makes sure of the metadata of the root directory first. `mkfs_erofs` makes the image, and
    /// `write_image` stores it under the name, where there is one.
    pub fn commit_image<
        M: Fn(&FileSystem<ObjectID>) -> Vec<u8>,
        W: Fn(Option<&str>, &Vec<u8>) -> Result<ObjectID, Error>,
    >(&mut self, image_name: Option<&str>, mkfs_erofs: M, write_image: W) -> (r: Result<ObjectID, Error>)
        requires
            old(self).wf(),
            forall|fs: &FileSystem<ObjectID>| fs.wf() ==> call_requires(mkfs_erofs, (fs,)),
            forall|name: Option<&str>, image: &Vec<u8>| call_requires(write_image, (name, image)),
        ensures
            final(self).wf(),
            final(self)@ == with_root_stat(old(self)@),
            image_stored(mkfs_erofs, write_image, final(self), image_name, r),
    {
        self.ensure_root_stat();
        let image: Vec<u8> = mkfs_erofs(self);
        write_image(image_name, &image)
    }

    /// The identifier that the image of this file system has, without storing it.
    ///
    /// Makes sure of the metadata of the root directory first. `mkfs_erofs` makes the image, and
    /// `compute_verity` gives the identifier.
    pub fn compute_image_id<M: Fn(&FileSystem<ObjectID>) -> Vec<u8>, V: Fn(&Vec<u8>) -> ObjectID>(
        &mut self,
        mkfs_erofs: M,
        compute_verity: V,
    ) -> (r: ObjectID)
        requires
            old(self).wf(),
            forall|fs: &FileSystem<ObjectID>| fs.wf() ==> call_requires(mkfs_erofs, (fs,)),
            forall|image: &Vec<u8>| call_requires(compute_verity, (image,)),
        ensures
            final(self).wf(),
            final(self)@ == with_root_stat(old(self)@),
            image_measured(mkfs_erofs, compute_verity, final(self), r),
    {
        self.ensure_root_stat();
        let image: Vec<u8> = mkfs_erofs(self);
        compute_verity(&image)
    }

    /// Writes this file system in dumpfile format.
    ///
    /// Makes sure of the metadata of the root directory first.
    pub fn print_dumpfile<W: ByteSink>(&mut self, output: &mut W) -> (r: Result<(), Error>)
        requires
            old(self).wf(),
        ensures
            final(self).wf(),
            final(self)@ == with_root_stat(old(self)@),
            match r {
                Ok(_) => final(output).written() == old(output).written() + dump(final(self)@),
                Err(e) => e == Error::Io,
            },
            old(output).reliable() ==> r is Ok && final(output).reliable(),
    {
        self.ensure_root_stat();
        write_dumpfile(output, self)
    }
}

} // verus!
