//! Paths, names and hexadecimal identifiers.

use vstd::prelude::*;
use crate::bytestr::{has_byte, split, split_first, split_whole, until, until_facts};
use crate::error::Error;
use crate::fsverity::{
    hex_bytes, hex_read_back, hex_text, hex_text_concat, FsVerityHashValue, Sha256HashValue, Sha512HashValue,
};
use crate::path::{
    canonical, components, dotdot, is_valid_name, named, parts_of, path_key, path_text, slashed, Components, PathParts,
};
use crate::text::hex_value;
use crate::walklaws::spelled_names;

verus! {

/// Names in a row are those of the parts.
proof fn named_in_turn(a: Seq<Seq<u8>>, b: Seq<Seq<u8>>)
    ensures
        named(a + b) == named(a) + named(b),
    decreases b.len(),
{
    if b.len() == 0 {
        assert(a + b =~= a);
        assert(named(a) + named(b) =~= named(a));
    } else {
        named_in_turn(a, b.drop_last());
        assert((a + b).drop_last() =~= a + b.drop_last());
        assert(named(a + b) =~= named(a) + named(b));
    }
}

/// What is split before a separator, and after it.
proof fn split_in_two(a: Seq<u8>, b: Seq<u8>, sep: u8)
    ensures
        split(a + seq![sep] + b, sep) == split(a, sep) + split(b, sep),
    decreases a.len(),
{
    until_facts(a, sep);
    let n = until(a, sep) as int;
    if n >= a.len() {
        split_first(a, sep, b);
        split_whole(a, sep);
    } else {
        let head = a.take(n);
        let rest = a.skip(n + 1);
        assert(!has_byte(head, sep));
        assert(a =~= head + seq![sep] + rest);
        split_first(head, sep, rest);
        assert(a + seq![sep] + b =~= head + seq![sep] + (rest + seq![sep] + b));
        split_first(head, sep, rest + seq![sep] + b);
        split_in_two(rest, b, sep);
        assert(seq![head] + (split(rest, sep) + split(b, sep)) =~= (seq![head] + split(rest, sep)) + split(b, sep));
    }
}

/// The names of a path are those before a slash in it, and then those after it.
pub proof fn names_on_both_sides(a: Seq<u8>, b: Seq<u8>)
    ensures
        parts_of(a + seq![47u8] + b).names == parts_of(a).names + parts_of(b).names,
{
    split_in_two(a, b, 47);
    named_in_turn(split(a, 47), split(b, 47));
}

/// A path without a slash is a single name, but for one that is empty and one that is a dot, which
/// have none.
pub proof fn name_of_its_own(path: Seq<u8>)
    requires
        forall|i: int| 0 <= i < path.len() ==> #[trigger] path[i] != 47,
    ensures
        path.len() == 0 || path == seq![46u8] ==> parts_of(path).names.len() == 0,
        path.len() > 0 && path != seq![46u8] ==> parts_of(path).names == seq![path],
{
    assert(!has_byte(path, 47));
    split_whole(path, 47);
    let one = seq![path];
    assert(one.drop_last() =~= Seq::<Seq<u8>>::empty());
    assert(named(one.drop_last()) =~= seq![]);
    assert(one.last() == path);
    if path.len() > 0 && path != seq![46u8] {
        assert(named(one) =~= seq![path]);
    }
}

/// A path is absolute where it starts with a slash, and starts with a dot where it is one, or has one
/// before its first slash.
pub proof fn starts_of_paths(path: Seq<u8>)
    ensures
        parts_of(path).absolute <==> (path.len() > 0 && path[0] == 47),
        parts_of(path).dot <==> (path == seq![46u8] || (path.len() >= 2 && path[0] == 46 && path[1] == 47)),
{
    until_facts(path, 47);
    let n = until(path, 47) as int;
    let first = split(path, 47)[0];
    if n >= path.len() {
        assert(first == path);
    } else {
        assert(first == path.take(n));
        if n == 1 && path[0] == 46 {
            assert(first =~= seq![46u8]);
        }
        if first == seq![46u8] {
            assert(path.take(n).len() == 1 && path.take(n)[0] == 46);
        }
    }
    if path.len() >= 2 && path[0] == 46 && path[1] == 47 {
        assert(n == 1);
    }
}

/// Taking a path apart gives its parts.
pub proof fn path_taken_apart(path: &[u8], r: Components)
    requires
        call_ensures(components, (path,), r),
    ensures
        r.absolute == parts_of(path@).absolute,
        r.dot == parts_of(path@).dot,
        r.names@.len() == parts_of(path@).names.len(),
        forall|i: int| 0 <= i < r.names@.len() ==> (#[trigger] r.names@[i])@ == parts_of(path@).names[i],
{
    assert(r.view().names.len() == r.names@.len());
    assert forall|i: int| 0 <= i < r.names@.len() implies (#[trigger] r.names@[i])@ == parts_of(path@).names[i] by {
        assert(r.view().names[i] == r.names@[i]@);
    }
}

/// Slashes before names.
proof fn slashed_as_spelled(names: Seq<Seq<u8>>)
    ensures
        slashed(names) == spelled_names(names),
    decreases names.len(),
{
    if names.len() > 0 {
        slashed_as_spelled(names.drop_last());
    }
}

/// A path is put together from its parts: a slash before each name, but for the first of one that is
/// neither absolute nor starts with a dot.
pub proof fn path_put_together(path: PathParts)
    ensures
        path.absolute && path.names.len() == 0 ==> path_text(path) == seq![47u8],
        path.absolute && path.names.len() > 0 ==> path_text(path) == spelled_names(path.names),
        !path.absolute && path.dot ==> path_text(path) == seq![46u8] + spelled_names(path.names),
        !path.absolute && !path.dot && path.names.len() > 0 ==> seq![47u8] + path_text(path) == spelled_names(
            path.names,
        ),
        !path.absolute && !path.dot && path.names.len() == 0 ==> path_text(path).len() == 0,
    decreases path.names.len(),
{
    slashed_as_spelled(path.names);
    if path.names.len() > 0 {
        starts_with_slash(path.names);
        let s = slashed(path.names);
        assert(seq![47u8] + s.skip(1) =~= s);
    }
}

proof fn starts_with_slash(names: Seq<Seq<u8>>)
    requires
        names.len() > 0,
    ensures
        slashed(names).len() > 0,
        slashed(names)[0] == 47,
    decreases names.len(),
{
    if names.len() > 1 {
        starts_with_slash(names.drop_last());
    } else {
        assert(slashed(names.drop_last()) =~= seq![]);
    }
}

/// A path is accepted in a line where it is absolute and no name in it goes up, and is then the path
/// put together from its parts.
pub proof fn accepted_path(path: Seq<u8>)
    ensures
        match canonical(path) {
            Some(text) => {
                &&& path.len() > 0 && path[0] == 47
                &&& forall|i: int|
                    0 <= i < parts_of(path).names.len() ==> #[trigger] parts_of(path).names[i] != seq![46u8, 46u8]
                &&& text == path_text(parts_of(path))
            },
            None => path.len() == 0 || path[0] != 47 || exists|i: int|
                0 <= i < parts_of(path).names.len() && #[trigger] parts_of(path).names[i] == seq![46u8, 46u8],
        },
{
    let names = parts_of(path).names;
    if names.contains(dotdot()) {
        let i = choose|i: int| 0 <= i < names.len() && names[i] == dotdot();
        assert(names[i] == seq![46u8, 46u8]);
    }
    if exists|i: int| 0 <= i < names.len() && #[trigger] names[i] == seq![46u8, 46u8] {
        let i = choose|i: int| 0 <= i < names.len() && #[trigger] names[i] == seq![46u8, 46u8];
        assert(names[i] == dotdot());
    }
}

/// A name can stand in a directory where it is not empty, is neither one dot nor two, and has no
/// slash.
pub proof fn name_for_an_entry(name: &[u8], r: bool)
    requires
        call_ensures(is_valid_name, (name,), r),
    ensures
        r <==> (name@.len() > 0 && name@ != seq![46u8] && name@ != seq![46u8, 46u8] && forall|i: int|
            0 <= i < name@.len() ==> #[trigger] name@[i] != 47),
{
}

/// What a hexadecimal digit stands for, in either case.
pub open spec fn digit_value(c: u8) -> int {
    if 48 <= c <= 57 {
        c - 48
    } else if 97 <= c <= 102 {
        c - 97 + 10
    } else if 65 <= c <= 70 {
        c - 65 + 10
    } else {
        -1
    }
}

/// Two hexadecimal digits stand for a byte, the upper half first; anything else in their place for
/// nothing.
pub proof fn two_digits(h: u8, l: u8)
    ensures
        digit_value(h) >= 0 && digit_value(l) >= 0 ==> hex_bytes(seq![h, l]) == Some(
            seq![(16 * digit_value(h) + digit_value(l)) as u8],
        ),
        digit_value(h) < 0 || digit_value(l) < 0 ==> hex_bytes(seq![h, l]) is None,
        hex_bytes(Seq::empty()) == Some(Seq::<u8>::empty()),
{
    let t = seq![h, l];
    assert(t[0] == h && t[1] == l);
    assert(hex_bytes(Seq::<u8>::empty())->0 =~= Seq::<u8>::empty());
    if digit_value(h) >= 0 && digit_value(l) >= 0 {
        assert forall|i: int| 0 <= i < t.len() implies hex_value(#[trigger] t[i]) is Some by {
            assert(i == 0 || i == 1);
        }
        assert(hex_bytes(t)->0 =~= seq![(16 * digit_value(h) + digit_value(l)) as u8]);
    } else {
        assert(hex_value(t[0]) is None || hex_value(t[1]) is None);
    }
}

/// Hexadecimal text stands for what its first two digits and the rest stand for. A single digit
/// stands for nothing.
pub proof fn digits_in_pairs(h: u8, l: u8, rest: Seq<u8>)
    ensures
        hex_bytes(seq![h, l] + rest) == (match (hex_bytes(seq![h, l]), hex_bytes(rest)) {
            (Some(first), Some(more)) => Some(first + more),
            _ => None,
        }),
        hex_bytes(seq![h]) is None,
{
    let t = seq![h, l];
    let s = t + rest;
    assert(s[0] == h && s[1] == l && t[0] == h && t[1] == l);
    assert(s.len() % 2 == rest.len() % 2);
    if hex_bytes(s) is Some {
        assert forall|i: int| 0 <= i < rest.len() implies hex_value(#[trigger] rest[i]) is Some by {
            assert(s[i + 2] == rest[i]);
        }
        assert(hex_value(s[0]) is Some && hex_value(s[1]) is Some);
        assert forall|i: int| 0 <= i < t.len() implies hex_value(#[trigger] t[i]) is Some by {
            assert(i == 0 || i == 1);
        }
    }
    if hex_bytes(t) is Some && hex_bytes(rest) is Some {
        assert(hex_value(t[0]) is Some && hex_value(t[1]) is Some);
        assert forall|i: int| 0 <= i < s.len() implies hex_value(#[trigger] s[i]) is Some by {
            if i >= 2 {
                assert(s[i] == rest[i - 2]);
            }
        }
        let a = hex_bytes(s)->0;
        let b = hex_bytes(t)->0 + hex_bytes(rest)->0;
        assert(a.len() == b.len());
        assert forall|i: int| 0 <= i < a.len() implies a[i] == b[i] by {
            if i > 0 {
                assert(s[2 * i] == rest[2 * (i - 1)] && s[2 * i + 1] == rest[2 * (i - 1) + 1]);
            }
        }
        assert(a =~= b);
    }
}

/// An identifier is read from its hexadecimal form, where that has the right length, and from nothing
/// else.
pub proof fn identifier_read<ObjectID: FsVerityHashValue>(text: &[u8], r: Result<ObjectID, Error>)
    requires
        call_ensures(ObjectID::from_hex, (text,), r),
    ensures
        match hex_bytes(text@) {
            Some(bytes) => if bytes.len() == ObjectID::size() {
                r matches Ok(id) && id.bytes() == bytes
            } else {
                r matches Err(e) && e == Error::InvalidDigest
            },
            None => r matches Err(e) && e == Error::InvalidDigest,
        },
{
    if let Ok(id) = r {
        id.bytes_size();
    }
}

/// The place of an object has the first byte of its identifier in hexadecimal, a slash, and the rest.
pub proof fn place_of_object<ObjectID: FsVerityHashValue>(id: &ObjectID, r: Vec<u8>)
    requires
        call_ensures(ObjectID::to_object_pathname, (id,), r),
    ensures
        r@.len() == 2 * ObjectID::size() + 1,
        r@[2] == 47,
        r@.take(2) + r@.skip(3) == hex_text(id.bytes()),
{
    ObjectID::size_bounds();
    id.bytes_size();
    let b = id.bytes();
    assert(b.take(1) + b.skip(1) =~= b);
    hex_text_concat(b.take(1), b.skip(1));
    assert(r@.take(2) =~= hex_text(b.take(1)));
    assert(r@.skip(3) =~= hex_text(b.skip(1)));
}

/// An identifier is read from the end of a path, with a slash behind its first two digits, whatever
/// stands before.
pub proof fn object_from_path<ObjectID: FsVerityHashValue>(path: &[u8], r: Result<ObjectID, Error>)
    requires
        call_ensures(ObjectID::from_object_pathname, (path,), r),
    ensures
        ({
            let n = 2 * ObjectID::size() + 1;
            let t = path@.skip(path@.len() - n);
            match r {
                Ok(id) => path@.len() >= n && t[2] == 47 && hex_bytes(t.take(2) + t.skip(3)) == Some(id.bytes()),
                Err(e) => e == Error::InvalidDigest && (path@.len() < n || t[2] != 47 || hex_bytes(
                    t.take(2) + t.skip(3),
                ) is None),
            }
        }),
{
}

/// Identifiers have as many bytes as the digest that they are.
pub proof fn sizes_of_identifiers()
    ensures
        <Sha256HashValue as FsVerityHashValue>::size() == 32,
        <Sha512HashValue as FsVerityHashValue>::size() == 64,
        forall|id: Sha256HashValue| (#[trigger] id.bytes()) == id.0@,
        forall|id: Sha512HashValue| (#[trigger] id.bytes()) == id.0@,
{
}

/// The text of a path that was taken apart is put together from its parts, and it goes up where one of
/// its names is two dots.
pub proof fn parts_in_text(parts: &Components, text: Vec<u8>, up: bool)
    requires
        call_ensures(Components::text, (parts,), text),
        call_ensures(Components::goes_up, (parts,), up),
    ensures
        text@ == path_text(parts.view()),
        up <==> exists|i: int| 0 <= i < parts.names@.len() && (#[trigger] parts.names@[i])@ == seq![46u8, 46u8],
{
    let names = parts.view().names;
    if names.contains(dotdot()) {
        let i = choose|i: int| 0 <= i < names.len() && names[i] == dotdot();
        assert(parts.names@[i]@ == seq![46u8, 46u8]);
    }
    if exists|i: int| 0 <= i < parts.names@.len() && (#[trigger] parts.names@[i])@ == seq![46u8, 46u8] {
        let i = choose|i: int| 0 <= i < parts.names@.len() && (#[trigger] parts.names@[i])@ == seq![46u8, 46u8];
        assert(names[i] == dotdot());
    }
}

/// An identifier in hexadecimal has two digits for each byte.
pub proof fn identifier_written<ObjectID: FsVerityHashValue>(id: &ObjectID, r: Vec<u8>)
    requires
        call_ensures(ObjectID::to_hex, (id,), r),
    ensures
        r@ == hex_text(id.bytes()),
        hex_bytes(r@) == Some(id.bytes()),
{
    hex_read_back(id.bytes());
}

/// Two paths are the same where they have the same parts.
pub proof fn same_path(path: Seq<u8>)
    ensures
        path_key(path) == path_text(parts_of(path)),
{
}

} // verus!
