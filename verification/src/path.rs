//! Paths, as byte strings.

use vstd::prelude::*;
use crate::bytestr::{
    append, copy, has_byte, same_bytes, split, split_at, split_first, split_last, split_parts_clean,
    split_whole,
};

verus! {

/// A path taken apart.
pub struct PathParts {
    /// It starts at the root.
    pub absolute: bool,
    /// It is relative and starts with a dot.
    pub dot: bool,
    /// The names in it, `..` among them, without empty parts and other dots.
    pub names: Seq<Seq<u8>>,
}

/// The part is a name: not empty, and not a dot.
pub open spec fn is_named(part: Seq<u8>) -> bool {
    part.len() > 0 && part != seq![46u8]
}

/// The parts that are names.
pub open spec fn named(parts: Seq<Seq<u8>>) -> Seq<Seq<u8>>
    decreases parts.len(),
{
    if parts.len() == 0 {
        seq![]
    } else if is_named(parts.last()) {
        named(parts.drop_last()).push(parts.last())
    } else {
        named(parts.drop_last())
    }
}

/// A path taken apart.
pub open spec fn parts_of(path: Seq<u8>) -> PathParts {
    let parts = split(path, 47);
    let absolute = path.len() > 0 && path[0] == 47;
    PathParts { absolute, dot: !absolute && parts[0] == seq![46u8], names: named(parts) }
}

/// The way up.
pub open spec fn dotdot() -> Seq<u8> {
    seq![46u8, 46u8]
}

/// Each name with a slash before it.
pub open spec fn slashed(names: Seq<Seq<u8>>) -> Seq<u8>
    decreases names.len(),
{
    if names.len() == 0 {
        seq![]
    } else {
        slashed(names.drop_last()) + seq![47u8] + names.last()
    }
}

/// The shortest way to write a path.
pub open spec fn path_text(path: PathParts) -> Seq<u8> {
    if path.absolute {
        if path.names.len() == 0 {
            seq![47u8]
        } else {
            slashed(path.names)
        }
    } else if path.dot {
        seq![46u8] + slashed(path.names)
    } else if path.names.len() == 0 {
        seq![]
    } else {
        slashed(path.names).skip(1)
    }
}

/// What two paths have in common where they are the same path.
pub open spec fn path_key(path: Seq<u8>) -> Seq<u8> {
    path_text(parts_of(path))
}

/// An absolute path without `..`, written in the shortest way.
pub open spec fn canonical(path: Seq<u8>) -> Option<Seq<u8>> {
    let p = parts_of(path);
    if p.absolute && !p.names.contains(dotdot()) {
        Some(path_text(p))
    } else {
        None
    }
}

/// A name that an entry of a directory can have.
pub open spec fn valid_name(name: Seq<u8>) -> bool {
    is_named(name) && name != dotdot() && !has_byte(name, 47)
}

/// Whether an entry of a directory can have a name.
pub fn is_valid_name(name: &[u8]) -> (r: bool)
    ensures
        r == valid_name(name@),
{
    let mut slash: bool = false;
    let mut i: usize = 0;
    while i < name.len()
        invariant
            i <= name@.len(),
            slash == (exists|j: int| 0 <= j < i && name@[j] == 47),
        decreases name@.len() - i,
    {
        if name[i] == 47 {
            slash = true;
        }
        i = i + 1;
    }
    let lone: [u8; 1] = [46u8];
    let up: [u8; 2] = [46u8, 46u8];
    assert(lone@ =~= seq![46u8]);
    assert(up@ =~= dotdot());
    name.len() > 0 && !same_bytes(name, lone.as_slice()) && !same_bytes(name, up.as_slice()) && !slash
}

/// The path of the entry `name` of the directory at `path`.
pub open spec fn child_path(path: Seq<u8>, name: Seq<u8>) -> Seq<u8> {
    if path == seq![47u8] {
        path + name
    } else {
        path + seq![47u8] + name
    }
}

/// The names in a path are named and hold no slash.
pub proof fn names_clean(path: Seq<u8>)
    ensures
        forall|i: int|
            0 <= i < parts_of(path).names.len() ==> is_named(#[trigger] parts_of(path).names[i]) && !has_byte(
                parts_of(path).names[i],
                47,
            ),
{
    split_parts_clean(path, 47);
    named_clean(split(path, 47));
}

proof fn named_clean(parts: Seq<Seq<u8>>)
    requires
        forall|i: int| 0 <= i < parts.len() ==> !has_byte(#[trigger] parts[i], 47),
    ensures
        forall|i: int|
            0 <= i < named(parts).len() ==> is_named(#[trigger] named(parts)[i]) && !has_byte(named(parts)[i], 47),
    decreases parts.len(),
{
    if parts.len() > 0 {
        let front = parts.drop_last();
        assert forall|i: int| 0 <= i < front.len() implies !has_byte(#[trigger] front[i], 47) by {
            assert(front[i] == parts[i]);
        }
        named_clean(front);
        let n = named(parts);
        assert(parts[parts.len() - 1] == parts.last());
        assert forall|i: int| 0 <= i < n.len() implies is_named(#[trigger] n[i]) && !has_byte(n[i], 47) by {
            if i < named(front).len() {
                assert(n[i] == named(front)[i]);
            }
        }
    }
}

/// A path that is written the shortest way comes apart into its names.
pub proof fn slashed_parts(names: Seq<Seq<u8>>)
    requires
        forall|i: int| 0 <= i < names.len() ==> valid_name(#[trigger] names[i]),
    ensures
        split(slashed(names), 47) == seq![Seq::<u8>::empty()] + names,
        named(seq![Seq::<u8>::empty()] + names) == names,
    decreases names.len(),
{
    let none = Seq::<u8>::empty();
    let all = seq![none] + names;
    if names.len() == 0 {
        split_whole(none, 47);
        assert(slashed(names) =~= none);
        assert(all =~= seq![none]);
        assert(all.drop_last() =~= Seq::<Seq<u8>>::empty());
        assert(named(all.drop_last()) =~= names);
        assert(named(all) =~= names);
    } else {
        let front = names.drop_last();
        let last = names.last();
        assert(names[names.len() - 1] == last);
        assert forall|i: int| 0 <= i < front.len() implies valid_name(#[trigger] front[i]) by {
            assert(front[i] == names[i]);
        }
        slashed_parts(front);
        split_last(slashed(front), 47, last);
        assert(seq![none] + front + seq![last] =~= all);
        assert(all.drop_last() =~= seq![none] + front);
        assert(named(all) =~= names);
    }
}

/// The path of valid names is canonical already.
pub proof fn slashed_canonical(names: Seq<Seq<u8>>)
    requires
        forall|i: int| 0 <= i < names.len() ==> valid_name(#[trigger] names[i]),
    ensures
        ({
            let text = path_text(PathParts { absolute: true, dot: false, names });
            &&& parts_of(text) == PathParts { absolute: true, dot: false, names }
            &&& path_key(text) == text
            &&& canonical(text) == Some(text)
        }),
{
    let none = Seq::<u8>::empty();
    let text = path_text(PathParts { absolute: true, dot: false, names });
    slashed_parts(names);
    if names.len() == 0 {
        split_whole(none, 47);
        split_first(none, 47, none);
        assert(none + seq![47u8] + none =~= text);
        let parts = split(text, 47);
        assert(parts =~= seq![none, none]);
        assert(parts.drop_last() =~= seq![none]);
        assert(seq![none].drop_last() =~= Seq::<Seq<u8>>::empty());
        assert(named(seq![none].drop_last()) =~= names);
        assert(named(seq![none]) =~= names);
        assert(named(parts) =~= names);
    } else {
        slashed_starts(names);
    }
    if names.contains(dotdot()) {
        let i = choose|i: int| 0 <= i < names.len() && names[i] == dotdot();
        assert(valid_name(names[i]));
    }
    assert(parts_of(text) == PathParts { absolute: true, dot: false, names });
}

proof fn slashed_starts(names: Seq<Seq<u8>>)
    requires
        names.len() > 0,
    ensures
        slashed(names).len() > 0,
        slashed(names)[0] == 47,
    decreases names.len(),
{
    if names.len() > 1 {
        slashed_starts(names.drop_last());
    } else {
        assert(slashed(names.drop_last()) =~= Seq::<u8>::empty());
    }
}

/// A path taken apart.
pub struct Components {
    /// It starts at the root.
    pub absolute: bool,
    /// It is relative and starts with a dot.
    pub dot: bool,
    /// The names in it.
    pub names: Vec<Vec<u8>>,
}

/// The bytes of each of some strings.
pub open spec fn each_bytes(v: Seq<Vec<u8>>) -> Seq<Seq<u8>> {
    Seq::new(v.len(), |i: int| v[i]@)
}

impl Components {
    /// The path taken apart.
    pub open spec fn view(self) -> PathParts {
        PathParts { absolute: self.absolute, dot: self.dot, names: each_bytes(self.names@) }
    }

    /// The shortest way to write the path.
    pub fn text(&self) -> (r: Vec<u8>)
        ensures
            r@ == path_text(self.view()),
    {
        let mut r: Vec<u8> = Vec::new();
        let mut i: usize = 0;
        let ghost names = each_bytes(self.names@);
        if self.absolute && self.names.len() == 0 {
            r.push(47);
            assert(r@ =~= seq![47u8]);
            return r;
        }
        if !self.absolute && self.dot {
            r.push(46);
        }
        let ghost start = r@;
        let bare: bool = !self.absolute && !self.dot;
        assert(start + slashed(names.take(0)) =~= start);
        while i < self.names.len()
            invariant
                i <= self.names@.len(),
                names == each_bytes(self.names@),
                bare ==> start.len() == 0,
                !bare ==> r@ == start + slashed(names.take(i as int)),
                bare ==> (i == 0 ==> r@.len() == 0) && (i > 0 ==> slashed(names.take(i as int)) == seq![47u8] + r@),
            decreases self.names@.len() - i,
        {
            let ghost prev = r@;
            let ghost p = names.take(i + 1);
            assert(p.drop_last() =~= names.take(i as int));
            assert(p.last() == self.names@[i as int]@);
            if !bare || i > 0 {
                r.push(47);
            }
            append(&mut r, self.names[i].as_slice());
            proof {
                if bare {
                    if i == 0 {
                        assert(slashed(names.take(0)) =~= Seq::<u8>::empty());
                        assert(slashed(p) =~= seq![47u8] + r@);
                    } else {
                        assert(slashed(p) =~= seq![47u8] + r@);
                    }
                } else {
                    assert(r@ =~= start + slashed(p));
                }
            }
            i = i + 1;
        }
        proof {
            assert(names.take(i as int) =~= names);
            if bare {
                if names.len() > 0 {
                    assert(slashed(names).skip(1) =~= r@);
                } else {
                    assert(r@ =~= seq![]);
                }
            } else if self.absolute {
                assert(start + slashed(names) =~= slashed(names));
            }
        }
        r
    }

    /// Whether one of the names is `..`.
    pub fn goes_up(&self) -> (r: bool)
        ensures
            r == self.view().names.contains(dotdot()),
    {
        let up: [u8; 2] = [46u8, 46u8];
        let ghost names = self.view().names;
        assert(up@ =~= dotdot());
        let mut i: usize = 0;
        while i < self.names.len()
            invariant
                i <= self.names@.len(),
                up@ == dotdot(),
                names == each_bytes(self.names@),
                forall|j: int| 0 <= j < i ==> #[trigger] names[j] != dotdot(),
            decreases self.names@.len() - i,
        {
            if same_bytes(self.names[i].as_slice(), up.as_slice()) {
                assert(names[i as int] == dotdot());
                return true;
            }
            i = i + 1;
        }
        false
    }
}

/// Takes a path apart.
pub fn components(path: &[u8]) -> (r: Components)
    ensures
        r.view() == parts_of(path@),
{
    let parts: Vec<Vec<u8>> = split_at(path, 47);
    let ghost all = split(path@, 47);
    proof {
        split_parts_clean(path@, 47);
    }
    let absolute: bool = path.len() > 0 && path[0] == 47;
    let lone: [u8; 1] = [46u8];
    assert(lone@ =~= seq![46u8]);
    let dot: bool = !absolute && same_bytes(parts[0].as_slice(), lone.as_slice());
    let mut names: Vec<Vec<u8>> = Vec::new();
    let mut i: usize = 0;
    assert(each_bytes(names@) =~= named(all.take(0)));
    while i < parts.len()
        invariant
            i <= parts@.len(),
            lone@ == seq![46u8],
            parts@.len() == all.len(),
            forall|j: int| 0 <= j < parts@.len() ==> #[trigger] parts@[j]@ == all[j],
            each_bytes(names@) == named(all.take(i as int)),
        decreases parts@.len() - i,
    {
        let ghost p = all.take(i + 1);
        let ghost prev = names@;
        assert(p.drop_last() =~= all.take(i as int));
        assert(p.last() == parts@[i as int]@);
        if parts[i].len() > 0 && !same_bytes(parts[i].as_slice(), lone.as_slice()) {
            names.push(copy(parts[i].as_slice()));
            assert(each_bytes(names@) =~= each_bytes(prev).push(all[i as int]));
        }
        i = i + 1;
    }
    assert(all.take(i as int) =~= all);
    Components { absolute, dot, names }
}

} // verus!
