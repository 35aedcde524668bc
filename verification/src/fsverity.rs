//! Object identifiers: the fs-verity digests that objects are stored under.

use vstd::prelude::*;
use crate::bytestr::{append, same_bytes};
use crate::error::Error;
use crate::text::{hex_digit, hex_value};

verus! {

/// The bytes of `s` in hexadecimal, two lower case digits each.
pub open spec fn hex_text(s: Seq<u8>) -> Seq<u8> {
    Seq::new(
        2 * s.len(),
        |i: int|
            if i % 2 == 0 {
                hex_digit(s[i / 2] as int / 16)
            } else {
                hex_digit(s[i / 2] as int % 16)
            },
    )
}

/// The bytes that hexadecimal text stands for: an even number of digits, and nothing else.
pub open spec fn hex_bytes(t: Seq<u8>) -> Option<Seq<u8>> {
    if t.len() % 2 == 0 && (forall|i: int| 0 <= i < t.len() ==> hex_value(#[trigger] t[i]) is Some) {
        Some(
            Seq::new(
                t.len() / 2,
                |i: int| (16 * hex_value(t[2 * i])->0 + hex_value(t[2 * i + 1])->0) as u8,
            ),
        )
    } else {
        None
    }
}

/// Bytes written in hexadecimal are read back.
pub proof fn hex_read_back(s: Seq<u8>)
    ensures
        hex_bytes(hex_text(s)) == Some(s),
{
    let t = hex_text(s);
    assert forall|i: int| 0 <= i < t.len() implies hex_value(#[trigger] t[i]) is Some by {
        let c = s[i / 2];
        assert(0 <= c as int / 16 < 16 && 0 <= c as int % 16 < 16);
    }
    let r = hex_bytes(t)->0;
    assert(r.len() == s.len());
    assert forall|i: int| 0 <= i < s.len() implies r[i] == s[i] by {
        let c = s[i];
        assert((2 * i) / 2 == i && (2 * i + 1) / 2 == i && (2 * i) % 2 == 0 && (2 * i + 1) % 2 == 1);
        assert(t[2 * i] == hex_digit(c as int / 16));
        assert(t[2 * i + 1] == hex_digit(c as int % 16));
        assert(hex_value(t[2 * i]) == Some(c as int / 16));
        assert(hex_value(t[2 * i + 1]) == Some(c as int % 16));
    }
    assert(r =~= s);
}

/// Hexadecimal text of two strings in a row is that of the whole.
pub proof fn hex_text_concat(a: Seq<u8>, b: Seq<u8>)
    ensures
        hex_text(a + b) == hex_text(a) + hex_text(b),
{
    let whole = hex_text(a + b);
    let parts = hex_text(a) + hex_text(b);
    assert forall|i: int| 0 <= i < whole.len() implies whole[i] == parts[i] by {
        if i >= 2 * a.len() {
            let j = i - 2 * a.len();
            assert(j / 2 == i / 2 - a.len() && j % 2 == i % 2);
            assert((a + b)[i / 2] == b[j / 2]);
        } else {
            assert((a + b)[i / 2] == a[i / 2]);
        }
    }
    assert(whole =~= parts);
}

/// Hexadecimal text holds neither a space nor a dash nor a line end.
pub proof fn hex_text_plain(s: Seq<u8>)
    ensures
        forall|i: int| 0 <= i < hex_text(s).len() ==> 48 <= #[trigger] hex_text(s)[i] <= 102,
{
    assert forall|i: int| 0 <= i < hex_text(s).len() implies 48 <= #[trigger] hex_text(s)[i] <= 102 by {
        let c = s[i / 2];
        assert(0 <= c as int / 16 < 16 && 0 <= c as int % 16 < 16);
    }
}

/// Where an object is kept below the directory of objects: the first byte of its identifier in
/// hexadecimal, a slash, and the others.
pub open spec fn object_pathname(id: Seq<u8>) -> Seq<u8> {
    hex_text(id.take(1)) + seq![47u8] + hex_text(id.skip(1))
}

/// The identifier of `size` bytes that a path ends in, in the form of `object_pathname`.
pub open spec fn pathname_object(path: Seq<u8>, size: nat) -> Option<Seq<u8>> {
    let n = 2 * size + 1;
    if path.len() < n {
        None
    } else {
        let t = path.skip(path.len() - n);
        if t[2] == 47 {
            hex_bytes(t.take(2) + t.skip(3))
        } else {
            None
        }
    }
}

/// The path of an object leads back to its identifier, below whatever directory it stands.
pub proof fn pathname_read_back(dir: Seq<u8>, id: Seq<u8>)
    requires
        id.len() >= 1,
    ensures
        pathname_object(dir + object_pathname(id), id.len()) == Some(id),
{
    let path = dir + object_pathname(id);
    let t = path.skip(path.len() - (2 * id.len() + 1));
    assert(t =~= object_pathname(id));
    assert(id.take(1) + id.skip(1) =~= id);
    hex_text_concat(id.take(1), id.skip(1));
    assert(t.take(2) =~= hex_text(id.take(1)));
    assert(t.skip(3) =~= hex_text(id.skip(1)));
    hex_read_back(id);
}

/// The error of hexadecimal decoding.
#[verifier::external_type_specification]
#[verifier::external_body]
pub struct ExFromHexError(hex::FromHexError);

/// Calls `hex::encode`, which writes each byte as two hexadecimal digits in lower case, the
/// upper half first; the text comes as bytes.
#[verifier::external_body]
pub(crate) fn hex_encode(data: &[u8]) -> (r: Vec<u8>)
    ensures
        r@ == hex_text(data@),
{
    hex::encode(data).into_bytes()
}

/// Calls `hex::decode`, which takes digits of either case in pairs, and refuses an odd number of
/// them and any other character.
#[verifier::external_body]
pub(crate) fn hex_decode(text: &[u8]) -> (r: Result<Vec<u8>, hex::FromHexError>)
    ensures
        match r {
            Ok(v) => hex_bytes(text@) == Some(v@),
            Err(_) => hex_bytes(text@) is None,
        },
{
    hex::decode(text)
}

/// An object identifier.
pub trait FsVerityHashValue: Sized {
    /// The number of bytes of every identifier of this kind.
    spec fn size() -> nat;

    /// The bytes of this identifier.
    spec fn bytes(&self) -> Seq<u8>;

    /// Identifiers have some bytes, and not many.
    proof fn size_bounds()
        ensures
            1 <= Self::size() <= 64,
    ;

    /// Each identifier has the number of bytes of its kind.
    proof fn bytes_size(&self)
        ensures
            self.bytes().len() == Self::size(),
    ;

    /// The number of bytes of every identifier of this kind.
    fn byte_len() -> (r: usize)
        ensures
            r == Self::size(),
    ;

    /// The bytes of this identifier.
    fn as_bytes(&self) -> (r: &[u8])
        ensures
            r@ == self.bytes(),
    ;

    /// The identifier with the given bytes.
    fn from_bytes(data: &[u8]) -> (r: Self)
        requires
            data@.len() == Self::size(),
        ensures
            r.bytes() == data@,
    ;

    /// The same identifier once more.
    fn duplicate(&self) -> (r: Self)
        ensures
            r.bytes() == self.bytes(),
    {
        proof {
            self.bytes_size();
        }
        Self::from_bytes(self.as_bytes())
    }

    /// Whether two identifiers are the same.
    fn same(&self, other: &Self) -> (r: bool)
        ensures
            r == (self.bytes() == other.bytes()),
    {
        same_bytes(self.as_bytes(), other.as_bytes())
    }

    /// The identifier that hexadecimal text stands for.
    fn from_hex(text: &[u8]) -> (r: Result<Self, Error>)
        ensures
            match r {
                Ok(id) => hex_bytes(text@) == Some(id.bytes()),
                Err(e) => e == Error::InvalidDigest && (hex_bytes(text@) matches Some(b) ==> b.len()
                    != Self::size()),
            },
    {
        match hex_decode(text) {
            Ok(v) => {
                if v.len() == Self::byte_len() {
                    Ok(Self::from_bytes(v.as_slice()))
                } else {
                    Err(Error::InvalidDigest)
                }
            },
            Err(_) => Err(Error::InvalidDigest),
        }
    }

    /// The identifier in hexadecimal.
    fn to_hex(&self) -> (r: Vec<u8>)
        ensures
            r@ == hex_text(self.bytes()),
    {
        hex_encode(self.as_bytes())
    }

    /// The path of the object below the directory of objects.
    fn to_object_pathname(&self) -> (r: Vec<u8>)
        ensures
            r@ == object_pathname(self.bytes()),
    {
        proof {
            self.bytes_size();
            Self::size_bounds();
        }
        let b: &[u8] = self.as_bytes();
        let mut r: Vec<u8> = hex_encode(vstd::slice::slice_subrange(b, 0, 1));
        r.push(47);
        let rest: Vec<u8> = hex_encode(vstd::slice::slice_subrange(b, 1, b.len()));
        append(&mut r, rest.as_slice());
        proof {
            assert(b@.subrange(0, 1) =~= b@.take(1));
            assert(b@.subrange(1, b@.len() as int) =~= b@.skip(1));
            assert(r@ =~= object_pathname(self.bytes()));
        }
        r
    }

    /// The identifier of the object that a path leads to.
    fn from_object_pathname(path: &[u8]) -> (r: Result<Self, Error>)
        ensures
            match r {
                Ok(id) => pathname_object(path@, Self::size()) == Some(id.bytes()),
                Err(e) => e == Error::InvalidDigest && pathname_object(path@, Self::size()) is None,
            },
    {
        proof {
            Self::size_bounds();
        }
        let n: usize = 2 * Self::byte_len() + 1;
        if path.len() < n {
            return Err(Error::InvalidDigest);
        }
        let start: usize = path.len() - n;
        let ghost t = path@.skip(start as int);
        if path[start + 2] != 47 {
            assert(t[2] == path@[start + 2]);
            return Err(Error::InvalidDigest);
        }
        let mut text: Vec<u8> = Vec::new();
        append(&mut text, vstd::slice::slice_subrange(path, start, start + 2));
        append(&mut text, vstd::slice::slice_subrange(path, start + 3, path.len()));
        proof {
            assert(text@ =~= t.take(2) + t.skip(3));
            assert(t[2] == path@[start + 2]);
        }
        match hex_decode(text.as_slice()) {
            Ok(v) => Ok(Self::from_bytes(v.as_slice())),
            Err(_) => Err(Error::InvalidDigest),
        }
    }
}

/// The fs-verity digest of an object under SHA-256.
#[derive(Clone, Copy, Debug, PartialEq, Eq, Hash)]
pub struct Sha256HashValue(pub [u8; 32]);

/// The fs-verity digest of an object under SHA-512.
#[derive(Clone, Copy, Debug, PartialEq, Eq, Hash)]
pub struct Sha512HashValue(pub [u8; 64]);

impl FsVerityHashValue for Sha256HashValue {
    open spec fn size() -> nat {
        32
    }

    open spec fn bytes(&self) -> Seq<u8> {
        self.0@
    }

    proof fn size_bounds() {
    }

    proof fn bytes_size(&self) {
        assert(<Self as FsVerityHashValue>::size() == 32);
    }

    fn byte_len() -> (r: usize) {
        32
    }

    fn as_bytes(&self) -> (r: &[u8]) {
        self.0.as_slice()
    }

    fn from_bytes(data: &[u8]) -> (r: Self) {
        assert(<Self as FsVerityHashValue>::size() == 32);
        let mut a: [u8; 32] = [0u8; 32];
        let mut i: usize = 0;
        while i < 32
            invariant
                i <= 32,
                data@.len() == 32,
                forall|j: int| 0 <= j < i ==> a@[j] == data@[j],
            decreases 32 - i,
        {
            a[i] = data[i];
            i = i + 1;
        }
        assert(a@ =~= data@);
        Sha256HashValue(a)
    }
}

impl FsVerityHashValue for Sha512HashValue {
    open spec fn size() -> nat {
        64
    }

    open spec fn bytes(&self) -> Seq<u8> {
        self.0@
    }

    proof fn size_bounds() {
    }

    proof fn bytes_size(&self) {
        assert(<Self as FsVerityHashValue>::size() == 64);
    }

    fn byte_len() -> (r: usize) {
        64
    }

    fn as_bytes(&self) -> (r: &[u8]) {
        self.0.as_slice()
    }

    fn from_bytes(data: &[u8]) -> (r: Self) {
        assert(<Self as FsVerityHashValue>::size() == 64);
        let mut a: [u8; 64] = [0u8; 64];
        let mut i: usize = 0;
        while i < 64
            invariant
                i <= 64,
                data@.len() == 64,
                forall|j: int| 0 <= j < i ==> a@[j] == data@[j],
            decreases 64 - i,
        {
            a[i] = data[i];
            i = i + 1;
        }
        assert(a@ =~= data@);
        Sha512HashValue(a)
    }
}

} // verus!
