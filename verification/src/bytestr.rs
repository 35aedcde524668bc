//! Byte strings: the order that names and digests are kept in, and cutting at a separator.

use vstd::prelude::*;

verus! {

/// `a` comes before `b` in the order of byte strings: the first byte that differs decides, and a
/// proper prefix comes first.
pub open spec fn lex_lt(a: Seq<u8>, b: Seq<u8>) -> bool
    decreases a.len(),
{
    if b.len() == 0 {
        false
    } else if a.len() == 0 {
        true
    } else if a[0] != b[0] {
        a[0] < b[0]
    } else {
        lex_lt(a.drop_first(), b.drop_first())
    }
}

/// No byte string comes before itself.
pub proof fn lex_lt_irreflexive(a: Seq<u8>)
    ensures
        !lex_lt(a, a),
    decreases a.len(),
{
    if a.len() > 0 {
        lex_lt_irreflexive(a.drop_first());
    }
}

/// Byte order is transitive.
pub proof fn lex_lt_transitive(a: Seq<u8>, b: Seq<u8>, c: Seq<u8>)
    requires
        lex_lt(a, b),
        lex_lt(b, c),
    ensures
        lex_lt(a, c),
    decreases a.len(),
{
    if a.len() > 0 && a[0] == b[0] && b[0] == c[0] {
        lex_lt_transitive(a.drop_first(), b.drop_first(), c.drop_first());
    }
}

/// Of two different byte strings one comes before the other.
pub proof fn lex_lt_total(a: Seq<u8>, b: Seq<u8>)
    ensures
        a == b || lex_lt(a, b) || lex_lt(b, a),
    decreases a.len(),
{
    if a.len() > 0 && b.len() > 0 && a[0] == b[0] {
        lex_lt_total(a.drop_first(), b.drop_first());
        if a.drop_first() == b.drop_first() {
            assert(a =~= seq![a[0]] + a.drop_first());
            assert(b =~= seq![b[0]] + b.drop_first());
        }
    } else if a.len() == 0 && b.len() == 0 {
        assert(a =~= b);
    }
}

/// Whether `a` comes before `b`.
pub fn lex_less(a: &[u8], b: &[u8]) -> (r: bool)
    ensures
        r == lex_lt(a@, b@),
{
    let mut i: usize = 0;
    assert(a@.skip(0) =~= a@ && b@.skip(0) =~= b@);
    while i < a.len() && i < b.len()
        invariant
            i <= a@.len(),
            i <= b@.len(),
            lex_lt(a@, b@) == lex_lt(a@.skip(i as int), b@.skip(i as int)),
        decreases a@.len() - i,
    {
        if a[i] != b[i] {
            return a[i] < b[i];
        }
        assert(a@.skip(i as int).drop_first() =~= a@.skip(i + 1));
        assert(b@.skip(i as int).drop_first() =~= b@.skip(i + 1));
        i = i + 1;
    }
    i < b.len()
}

/// Whether two byte strings hold the same bytes.
pub fn same_bytes(a: &[u8], b: &[u8]) -> (r: bool)
    ensures
        r == (a@ == b@),
{
    if a.len() != b.len() {
        return false;
    }
    let mut i: usize = 0;
    while i < a.len()
        invariant
            i <= a@.len(),
            a@.len() == b@.len(),
            forall|j: int| 0 <= j < i ==> a@[j] == b@[j],
        decreases a@.len() - i,
    {
        if a[i] != b[i] {
            return false;
        }
        i = i + 1;
    }
    assert(a@ =~= b@);
    true
}

/// Adds `data` at the end of `v`.
pub fn append(v: &mut Vec<u8>, data: &[u8])
    ensures
        final(v)@ == old(v)@ + data@,
{
    v.extend_from_slice(data);
    assert(v@ =~= old(v)@ + data@);
}

/// A copy of `data`.
pub fn copy(data: &[u8]) -> (r: Vec<u8>)
    ensures
        r@ == data@,
{
    let mut r: Vec<u8> = Vec::new();
    append(&mut r, data);
    assert(r@ =~= data@);
    r
}

/// Whether `sep` occurs in `s`.
pub open spec fn has_byte(s: Seq<u8>, sep: u8) -> bool {
    exists|i: int| 0 <= i < s.len() && s[i] == sep
}

/// The number of bytes of `s` before the first `sep`: all of them where there is none.
pub open spec fn until(s: Seq<u8>, sep: u8) -> nat
    decreases s.len(),
{
    if s.len() == 0 || s[0] == sep {
        0
    } else {
        1 + until(s.drop_first(), sep)
    }
}

/// What `until` counts: nothing before it is `sep`, and `sep` stands there unless the end does.
pub proof fn until_facts(s: Seq<u8>, sep: u8)
    ensures
        until(s, sep) <= s.len(),
        forall|i: int| 0 <= i < until(s, sep) ==> s[i] != sep,
        until(s, sep) < s.len() ==> s[until(s, sep) as int] == sep,
        has_byte(s, sep) == (until(s, sep) < s.len()),
    decreases s.len(),
{
    if s.len() > 0 && s[0] != sep {
        let t = s.drop_first();
        until_facts(t, sep);
        assert forall|i: int| 0 <= i < until(s, sep) implies s[i] != sep by {
            if i > 0 {
                assert(t[i - 1] == s[i]);
            }
        }
        if until(s, sep) < s.len() {
            assert(t[until(t, sep) as int] == s[until(s, sep) as int]);
        }
    }
}

/// The place of a `sep` with none before it is what `until` counts.
pub proof fn until_is(s: Seq<u8>, sep: u8, n: nat)
    requires
        n <= s.len(),
        forall|i: int| 0 <= i < n ==> s[i] != sep,
        n < s.len() ==> s[n as int] == sep,
    ensures
        until(s, sep) == n,
{
    until_facts(s, sep);
    let u = until(s, sep);
    if u < n {
        assert(s[u as int] != sep);
    }
    if n < u {
        assert(s[n as int] != sep);
    }
}

/// The parts of `s` between the separators, in order: one more than there are separators.
pub open spec fn split(s: Seq<u8>, sep: u8) -> Seq<Seq<u8>>
    decreases s.len(),
{
    let n = until(s, sep);
    if n >= s.len() {
        seq![s]
    } else {
        seq![s.take(n as int)] + split(s.skip(n as int + 1), sep)
    }
}

/// A first part without the separator is cut off whole.
pub proof fn split_first(a: Seq<u8>, sep: u8, rest: Seq<u8>)
    requires
        !has_byte(a, sep),
    ensures
        split(a + seq![sep] + rest, sep) == seq![a] + split(rest, sep),
{
    let s = a + seq![sep] + rest;
    assert(s[a.len() as int] == sep);
    until_is(s, sep, a.len());
    assert(s.take(a.len() as int) =~= a);
    assert(s.skip(a.len() as int + 1) =~= rest);
}

/// A string without the separator is its own only part.
pub proof fn split_whole(a: Seq<u8>, sep: u8)
    requires
        !has_byte(a, sep),
    ensures
        split(a, sep) == seq![a],
{
    until_is(a, sep, a.len());
}

/// The parts between separators hold no separator.
pub proof fn split_parts_clean(s: Seq<u8>, sep: u8)
    ensures
        split(s, sep).len() >= 1,
        forall|i: int| 0 <= i < split(s, sep).len() ==> !has_byte(#[trigger] split(s, sep)[i], sep),
    decreases s.len(),
{
    until_facts(s, sep);
    let n = until(s, sep) as int;
    if n < s.len() {
        let rest = s.skip(n + 1);
        split_parts_clean(rest, sep);
        let parts = split(s, sep);
        assert forall|i: int| 0 <= i < parts.len() implies !has_byte(#[trigger] parts[i], sep) by {
            if i > 0 {
                assert(parts[i] == split(rest, sep)[i - 1]);
            } else {
                assert(parts[0] == s.take(n));
            }
        }
    }
}

/// A last part without the separator is cut off whole.
pub proof fn split_last(s: Seq<u8>, sep: u8, last: Seq<u8>)
    requires
        !has_byte(last, sep),
    ensures
        split(s + seq![sep] + last, sep) == split(s, sep) + seq![last],
    decreases s.len(),
{
    until_facts(s, sep);
    let n = until(s, sep) as int;
    if n >= s.len() {
        split_first(s, sep, last);
        split_whole(last, sep);
    } else {
        let head = s.take(n);
        let rest = s.skip(n + 1);
        split_last(rest, sep, last);
        assert(s + seq![sep] + last =~= head + seq![sep] + (rest + seq![sep] + last));
        split_first(head, sep, rest + seq![sep] + last);
        assert(seq![head] + (split(rest, sep) + seq![last]) =~= split(s, sep) + seq![last]);
    }
}

/// Cuts `s` at every `sep`.
pub fn split_at(s: &[u8], sep: u8) -> (r: Vec<Vec<u8>>)
    ensures
        r@.len() == split(s@, sep).len(),
        forall|i: int| 0 <= i < r@.len() ==> #[trigger] r@[i]@ == split(s@, sep)[i],
{
    let mut r: Vec<Vec<u8>> = Vec::new();
    let mut part: Vec<u8> = Vec::new();
    let mut i: usize = 0;
    let ghost mut start: int = 0;
    let ghost mut done: Seq<Seq<u8>> = seq![];
    assert(s@.skip(0) =~= s@);
    assert(done + split(s@.skip(start), sep) =~= split(s@, sep));
    while i < s.len()
        invariant
            0 <= start <= i <= s@.len(),
            part@ == s@.subrange(start, i as int),
            forall|j: int| start <= j < i ==> s@[j] != sep,
            done + split(s@.skip(start), sep) == split(s@, sep),
            r@.len() == done.len(),
            forall|j: int| 0 <= j < r@.len() ==> #[trigger] r@[j]@ == done[j],
        decreases s@.len() - i,
    {
        if s[i] == sep {
            proof {
                let rest = s@.skip(start);
                until_is(rest, sep, (i - start) as nat);
                assert(rest.take(i - start) =~= part@);
                assert(rest.skip(i - start + 1) =~= s@.skip(i + 1));
                let next = done.push(part@);
                assert(next + split(s@.skip(i + 1), sep) =~= done + (seq![part@] + split(
                    s@.skip(i + 1),
                    sep,
                )));
                done = next;
                start = i + 1;
            }
            r.push(part);
            part = Vec::new();
            assert(part@ =~= s@.subrange(start, i + 1));
        } else {
            part.push(s[i]);
            assert(part@ =~= s@.subrange(start, i + 1));
        }
        i = i + 1;
    }
    proof {
        let rest = s@.skip(start);
        assert(rest =~= part@);
        until_is(rest, sep, rest.len());
        assert(done + seq![part@] =~= done.push(part@));
    }
    r.push(part);
    r
}

} // verus!
