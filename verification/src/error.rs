//! What can go wrong.

use vstd::prelude::*;

verus! {

/// Why an operation failed.
#[derive(Clone, Copy, Debug, PartialEq, Eq, Structural)]
pub enum Error {
    /// The data ended in the middle of something.
    UnexpectedEof,
    /// A source, a sink, the compression library or an object store failed.
    Io,
    /// A split stream has a reference where inline content has to stand.
    UnexpectedReference,
    /// A split stream has less inline content in a row than is asked for.
    SmallInline,
    /// The digest map of a split stream does not hold the content hash.
    ReferenceNotFound,
    /// What was written to a split stream does not have the SHA-256 digest it should have.
    ContentMismatch,
    /// A line of a dumpfile is not an entry.
    InvalidLine,
    /// A path ends in something other than a file name.
    NoFilename,
    /// The directory that an entry belongs in is not there.
    ParentNotFound,
    /// A path names nothing.
    NotFound,
    /// A path goes through something that is not a directory.
    NotADirectory,
    /// A path names something that is not a regular file.
    NotAFile,
    /// A path that may not be followed.
    InvalidFilename,
    /// A hard link to a path that no leaf was stored at.
    HardlinkTargetNotFound,
    /// An external file without an fs-verity digest.
    MissingDigest,
    /// Text that is not the hexadecimal form of an object identifier.
    InvalidDigest,
    /// A downloaded object does not have the fs-verity digest that it was asked for by.
    ObjectMismatch,
    /// Two splitstreams refer to a third by different content hashes.
    BodyHashMismatch,
    /// A splitstream refers to the splitstream that is being downloaded.
    RecursiveStream,
    /// A text is not a URL, or cannot be followed from one.
    InvalidUrl,
    /// The content of a downloaded splitstream does not have the checksum it should have.
    ChecksumMismatch,
}

impl Error {
    /// The error in words.
    pub fn message(&self) -> (r: &'static str)
        ensures
            r@ == self.text(),
    {
        match self {
            Error::UnexpectedEof => "unexpected end of file",
            Error::Io => "input/output error",
            Error::UnexpectedReference => "Unexpected external reference when parsing splitstream",
            Error::SmallInline => "Unexpectedly small inline content when parsing splitstream",
            Error::ReferenceNotFound => "Reference is not found in splitstream",
            Error::ContentMismatch => "Content doesn't have expected SHA256 hash value!",
            Error::InvalidLine => "Failed to parse dumpfile line",
            Error::NoFilename => "Path has no filename",
            Error::ParentNotFound => "Parent directory not found",
            Error::NotFound => "Not found",
            Error::NotADirectory => "Not a directory",
            Error::NotAFile => "Not a regular file",
            Error::InvalidFilename => "Invalid filename",
            Error::HardlinkTargetNotFound => "Hardlink target not found",
            Error::MissingDigest => "External file missing fsverity digest",
            Error::InvalidDigest => "Invalid object identifier",
            Error::ObjectMismatch => "Downloaded object has another fs-verity digest",
            Error::BodyHashMismatch => "Splitstream has different body hashes",
            Error::RecursiveStream => "Splitstream attempts to contain itself recursively",
            Error::InvalidUrl => "Invalid URL",
            Error::ChecksumMismatch => "Splitstream has another checksum than it should have",
        }
    }

    /// The error in words.
    pub open spec fn text(self) -> Seq<char> {
        match self {
            Error::UnexpectedEof => "unexpected end of file"@,
            Error::Io => "input/output error"@,
            Error::UnexpectedReference => "Unexpected external reference when parsing splitstream"@,
            Error::SmallInline => "Unexpectedly small inline content when parsing splitstream"@,
            Error::ReferenceNotFound => "Reference is not found in splitstream"@,
            Error::ContentMismatch => "Content doesn't have expected SHA256 hash value!"@,
            Error::InvalidLine => "Failed to parse dumpfile line"@,
            Error::NoFilename => "Path has no filename"@,
            Error::ParentNotFound => "Parent directory not found"@,
            Error::NotFound => "Not found"@,
            Error::NotADirectory => "Not a directory"@,
            Error::NotAFile => "Not a regular file"@,
            Error::InvalidFilename => "Invalid filename"@,
            Error::HardlinkTargetNotFound => "Hardlink target not found"@,
            Error::MissingDigest => "External file missing fsverity digest"@,
            Error::InvalidDigest => "Invalid object identifier"@,
            Error::ObjectMismatch => "Downloaded object has another fs-verity digest"@,
            Error::BodyHashMismatch => "Splitstream has different body hashes"@,
            Error::RecursiveStream => "Splitstream attempts to contain itself recursively"@,
            Error::InvalidUrl => "Invalid URL"@,
            Error::ChecksumMismatch => "Splitstream has another checksum than it should have"@,
        }
    }
}

} // verus!
