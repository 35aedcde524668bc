//! The map from content hashes to object identifiers that a split stream starts with.

use vstd::prelude::*;
use crate::bytemap::{has_key, in_order, put, put_facts, rank, rank_at, rank_is, value_at};
use crate::bytestr::{lex_less, lex_lt, lex_lt_irreflexive, lex_lt_total, lex_lt_transitive, same_bytes};
use crate::fsverity::FsVerityHashValue;
use crate::hash::Sha256Digest;

verus! {

/// A single entry of the digest map.
#[derive(Debug)]
pub struct DigestMapEntry<ObjectID: FsVerityHashValue> {
    /// The SHA-256 hash of the content.
    pub body: Sha256Digest,
    /// The identifier of the object.
    pub verity: ObjectID,
}

/// A map from content hashes to object identifiers, in the order of the hashes.
#[derive(Debug)]
pub struct DigestMap<ObjectID: FsVerityHashValue> {
    /// The entries.
    pub map: Vec<DigestMapEntry<ObjectID>>,
}

impl<ObjectID: FsVerityHashValue> DigestMap<ObjectID> {
    /// The content hashes with the object identifiers.
    pub open spec fn entries(self) -> Seq<(Seq<u8>, Seq<u8>)> {
        Seq::new(self.map@.len(), |i: int| (self.map@[i].body@, self.map@[i].verity.bytes()))
    }

    /// The entries are in order. One that was read from a stream need not be.
    pub open spec fn wf(self) -> bool {
        in_order(self.entries())
    }

    /// Some entry is for the content hash.
    pub open spec fn mentions(self, body: Seq<u8>) -> bool {
        exists|i: int| 0 <= i < self.entries().len() && (#[trigger] self.entries()[i]).0 == body
    }

    /// An empty map.
    pub fn new() -> (r: Self)
        ensures
            r.wf(),
            r.entries() == Seq::<(Seq<u8>, Seq<u8>)>::empty(),
    {
        let r = DigestMap { map: Vec::new() };
        assert(r.entries() =~= Seq::<(Seq<u8>, Seq<u8>)>::empty());
        r
    }

    /// Looks for an entry by halving. The place is the right one where the entries are in order.
    fn search(&self, body: &Sha256Digest) -> (r: Result<usize, usize>)
        ensures
            match r {
                Ok(i) => i < self.map@.len() && self.map@[i as int].body@ == body@,
                Err(i) => i <= self.map@.len(),
            },
            self.wf() ==> match r {
                Ok(i) => has_key(self.entries(), body@) && i == rank(self.entries(), body@),
                Err(i) => !has_key(self.entries(), body@) && i == rank(self.entries(), body@),
            },
    {
        let ghost s = self.entries();
        let mut lo: usize = 0;
        let mut hi: usize = self.map.len();
        while lo < hi
            invariant
                s == self.entries(),
                lo <= hi <= s.len(),
                s.len() == self.map@.len(),
                in_order(s) ==> forall|i: int| 0 <= i < lo ==> lex_lt(#[trigger] s[i].0, body@),
                in_order(s) ==> forall|i: int| hi <= i < s.len() ==> lex_lt(body@, #[trigger] s[i].0),
            decreases hi - lo,
        {
            let mid: usize = lo + (hi - lo) / 2;
            assert(s[mid as int].0 == self.map@[mid as int].body@);
            if lex_less(self.map[mid].body.as_slice(), body.as_slice()) {
                proof {
                    if in_order(s) {
                        assert forall|i: int| 0 <= i <= mid implies lex_lt(#[trigger] s[i].0, body@) by {
                            if i < mid {
                                lex_lt_transitive(s[i].0, s[mid as int].0, body@);
                            }
                        }
                    }
                }
                lo = mid + 1;
            } else if same_bytes(self.map[mid].body.as_slice(), body.as_slice()) {
                proof {
                    if in_order(s) {
                        rank_at(s, mid as int);
                    }
                }
                return Ok(mid);
            } else {
                proof {
                    lex_lt_total(s[mid as int].0, body@);
                    if in_order(s) {
                        assert forall|i: int| mid <= i < s.len() implies lex_lt(body@, #[trigger] s[i].0) by {
                            if i > mid {
                                lex_lt_transitive(body@, s[mid as int].0, s[i].0);
                            }
                        }
                    }
                }
                hi = mid;
            }
        }
        proof {
            if in_order(s) {
                if lo < s.len() {
                    lex_lt_irreflexive(body@);
                    if lex_lt(s[lo as int].0, body@) {
                        lex_lt_transitive(body@, s[lo as int].0, body@);
                    }
                }
                rank_is(s, body@, lo as int);
            }
        }
        Err(lo)
    }

    /// Looks up an object identifier by its content hash.
    pub fn lookup(&self, body: &Sha256Digest) -> (r: Option<&ObjectID>)
        ensures
            self.wf() ==> match r {
                Some(id) => value_at(self.entries(), body@) == Some(id.bytes()),
                None => value_at(self.entries(), body@) is None,
            },
            r matches Some(id) ==> self.entries().contains((body@, id.bytes())),
    {
        match self.search(body) {
            Ok(i) => {
                assert(self.entries()[i as int] == (body@, self.map@[i as int].verity.bytes()));
                Some(&self.map[i].verity)
            },
            Err(_) => None,
        }
    }

    /// Adds an entry, and keeps the order. A content hash that is there already has to have the
    /// same object identifier.
    pub fn insert(&mut self, body: &Sha256Digest, verity: &ObjectID)
        requires
            forall|i: int|
                0 <= i < old(self).entries().len() && (#[trigger] old(self).entries()[i]).0 == body@
                    ==> old(self).entries()[i].1 == verity.bytes(),
        ensures
            old(self).wf() ==> {
                &&& final(self).wf()
                &&& final(self).entries() == put(old(self).entries(), body@, verity.bytes())
            },
            (final(self).entries() == old(self).entries() && old(self).mentions(body@)) || (exists|i: int|
                0 <= i <= old(self).entries().len() && final(self).entries() == #[trigger] old(
                    self,
                ).entries().insert(i, (body@, verity.bytes()))),
    {
        let ghost s = self.entries();
        proof {
            if in_order(s) {
                put_facts(s, body@, verity.bytes());
            }
        }
        match self.search(body) {
            Ok(i) => {
                assert(s[i as int].0 == body@);
                assert(s.update(i as int, (body@, verity.bytes())) =~= s);
            },
            Err(i) => {
                self.map.insert(i, DigestMapEntry { body: *body, verity: verity.duplicate() });
                assert(self.entries() =~= s.insert(i as int, (body@, verity.bytes())));
            },
        }
    }
}

impl<ObjectID: FsVerityHashValue> Default for DigestMap<ObjectID> {
    fn default() -> (r: Self)
        ensures
            r.wf(),
            r.entries() == Seq::<(Seq<u8>, Seq<u8>)>::empty(),
    {
        Self::new()
    }
}

/// After an insertion, the content hash is looked up as the identifier it was inserted with, and
/// every other one as before.
pub proof fn lookup_after_insert(s: Seq<(Seq<u8>, Seq<u8>)>, body: Seq<u8>, verity: Seq<u8>)
    requires
        in_order(s),
    ensures
        value_at(put(s, body, verity), body) == Some(verity),
        forall|other: Seq<u8>| other != body ==> #[trigger] value_at(put(s, body, verity), other) == value_at(s, other),
        in_order(put(s, body, verity)),
{
    put_facts(s, body, verity);
}

} // verus!
