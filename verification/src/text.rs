//! The text of a dumpfile field: numbers, and byte strings with their special bytes escaped.

use vstd::prelude::*;

verus! {

/// `n` in the given base, most significant digit first, without leading zeros.
pub open spec fn digits(n: nat, radix: nat) -> Seq<u8>
    decreases n,
{
    if radix < 2 || n < radix {
        seq![(48 + n) as u8]
    } else {
        proof {
            assert(n / radix < n) by (nonlinear_arith)
                requires
                    n >= radix,
                    radix >= 2,
            ;
        }
        digits(n / radix, radix).push((48 + n % radix) as u8)
    }
}

/// `n` in decimal, with a minus sign where it is negative.
pub open spec fn signed_digits(n: int) -> Seq<u8> {
    if n < 0 {
        seq![45u8] + digits((-n) as nat, 10)
    } else {
        digits(n as nat, 10)
    }
}

/// `c` is a digit of the given base.
pub open spec fn is_digit(c: u8, radix: nat) -> bool {
    48 <= c < 48 + radix
}

/// What a row of digits amounts to.
pub open spec fn value(s: Seq<u8>, radix: nat) -> nat
    decreases s.len(),
{
    if s.len() == 0 {
        0
    } else {
        value(s.drop_last(), radix) * radix + (s.last() - 48) as nat
    }
}

/// The number that `s` writes out: at least one digit, and nothing else.
pub open spec fn number(s: Seq<u8>, radix: nat) -> Option<nat> {
    if s.len() > 0 && (forall|i: int| 0 <= i < s.len() ==> is_digit(#[trigger] s[i], radix)) {
        Some(value(s, radix))
    } else {
        None
    }
}

/// The number that `s` writes out, where it is at most `max`.
pub open spec fn number_upto(s: Seq<u8>, radix: nat, max: u64) -> Option<u64> {
    match number(s, radix) {
        Some(v) if v <= max => Some(v as u64),
        _ => None,
    }
}

/// A number that is written out is read back, and its text holds nothing but digits.
pub proof fn digits_read_back(n: nat, radix: nat)
    requires
        2 <= radix <= 10,
    ensures
        number(digits(n, radix), radix) == Some(n),
        digits(n, radix).len() > 0,
        forall|i: int| 0 <= i < digits(n, radix).len() ==> is_digit(#[trigger] digits(n, radix)[i], radix),
    decreases n,
{
    let s = digits(n, radix);
    if n < radix {
        assert(s.drop_last() =~= Seq::<u8>::empty());
        assert(value(s.drop_last(), radix) == 0);
        assert(0 * radix == 0);
        assert(value(s, radix) == n);
    } else {
        assert(n / radix < n && n % radix < radix && n == (n / radix) * radix + n % radix) by (nonlinear_arith)
            requires
                n >= radix,
                radix >= 2,
        ;
        digits_read_back(n / radix, radix);
        let p = digits(n / radix, radix);
        assert(s.drop_last() =~= p);
        assert forall|i: int| 0 <= i < s.len() implies is_digit(#[trigger] s[i], radix) by {
            if i < p.len() {
                assert(s[i] == p[i]);
            }
        }
    }
}

/// Longer rows of digits amount to no less.
proof fn value_grows(s: Seq<u8>, n: int, radix: nat)
    requires
        radix >= 1,
        0 <= n <= s.len(),
        forall|i: int| 0 <= i < s.len() ==> is_digit(#[trigger] s[i], radix),
    ensures
        value(s.take(n), radix) <= value(s, radix),
    decreases s.len(),
{
    if n < s.len() {
        let t = s.drop_last();
        assert forall|i: int| 0 <= i < t.len() implies is_digit(#[trigger] t[i], radix) by {
            assert(t[i] == s[i]);
        }
        value_grows(t, n, radix);
        assert(t.take(n) =~= s.take(n));
        assert(value(t, radix) <= value(t, radix) * radix) by (nonlinear_arith)
            requires
                radix >= 1,
        ;
    } else {
        assert(s.take(n) =~= s);
    }
}

/// Writes `n` in the given base.
pub fn write_number(out: &mut Vec<u8>, n: u64, radix: u64)
    requires
        2 <= radix <= 10,
    ensures
        final(out)@ == old(out)@ + digits(n as nat, radix as nat),
    decreases n,
{
    if n < radix {
        out.push(48 + n as u8);
        assert(out@ =~= old(out)@ + digits(n as nat, radix as nat));
    } else {
        assert(n / radix < n && n % radix < radix) by (nonlinear_arith)
            requires
                n >= radix,
                radix >= 2,
        ;
        write_number(out, n / radix, radix);
        out.push(48 + (n % radix) as u8);
        assert(out@ =~= old(out)@ + digits(n as nat, radix as nat));
    }
}

/// Writes `n` in decimal.
pub fn write_signed(out: &mut Vec<u8>, n: i64)
    ensures
        final(out)@ == old(out)@ + signed_digits(n as int),
{
    if n < 0 {
        out.push(45);
        let m: u64 = (-(n + 1)) as u64 + 1;
        write_number(out, m, 10);
        assert(out@ =~= old(out)@ + signed_digits(n as int));
    } else {
        write_number(out, n as u64, 10);
    }
}

/// Reads a number in the given base that is at most `max`.
pub fn read_number(s: &[u8], radix: u64, max: u64) -> (r: Option<u64>)
    requires
        2 <= radix <= 10,
    ensures
        r == number_upto(s@, radix as nat, max),
{
    if s.len() == 0 {
        return None;
    }
    let mut v: u64 = 0;
    let mut i: usize = 0;
    assert(s@.take(0) =~= Seq::<u8>::empty());
    while i < s.len()
        invariant
            2 <= radix <= 10,
            i <= s@.len(),
            v <= max,
            v == value(s@.take(i as int), radix as nat),
            forall|j: int| 0 <= j < i ==> is_digit(#[trigger] s@[j], radix as nat),
        decreases s@.len() - i,
    {
        let c: u8 = s[i];
        if c < 48 || (c as u64) >= 48 + radix {
            assert(!is_digit(s@[i as int], radix as nat));
            return None;
        }
        let ghost p = s@.take(i as int + 1);
        assert(p.drop_last() =~= s@.take(i as int));
        assert(v as int * radix as int <= u64::MAX as int * 10) by (nonlinear_arith)
            requires
                0 <= v <= u64::MAX,
                2 <= radix <= 10,
        ;
        let t: u128 = (v as u128) * (radix as u128) + ((c - 48) as u128);
        assert(t == value(p, radix as nat));
        if t > max as u128 {
            proof {
                if number(s@, radix as nat) is Some {
                    value_grows(s@, i as int + 1, radix as nat);
                }
            }
            return None;
        }
        v = t as u64;
        i = i + 1;
    }
    assert(s@.take(i as int) =~= s@);
    Some(v)
}

/// A hexadecimal digit, in lower case.
pub open spec fn hex_digit(n: int) -> u8 {
    if n < 10 {
        (48 + n) as u8
    } else {
        (87 + n) as u8
    }
}

/// What a hexadecimal digit, in either case, stands for.
pub open spec fn hex_value(c: u8) -> Option<int> {
    if 48 <= c <= 57 {
        Some(c - 48)
    } else if 97 <= c <= 102 {
        Some(c - 87)
    } else if 65 <= c <= 70 {
        Some(c - 55)
    } else {
        None
    }
}

/// The bytes that are escaped: those that are not printable ASCII, the space, `=` and the
/// backslash.
pub open spec fn is_special(c: u8) -> bool {
    c < 33 || c == 61 || c == 92 || c > 126
}

/// One byte as it is written: itself, or `\x` and its two hexadecimal digits.
pub open spec fn escape_byte(c: u8) -> Seq<u8> {
    if is_special(c) {
        seq![92u8, 120u8, hex_digit(c as int / 16), hex_digit(c as int % 16)]
    } else {
        seq![c]
    }
}

/// The bytes of `s` as they are written.
pub open spec fn escape_bytes(s: Seq<u8>) -> Seq<u8>
    decreases s.len(),
{
    if s.len() == 0 {
        seq![]
    } else {
        escape_bytes(s.drop_last()) + escape_byte(s.last())
    }
}

/// A field: the bytes as they are written, or a dash where there are none.
pub open spec fn escape(s: Seq<u8>) -> Seq<u8> {
    if s.len() == 0 {
        seq![45u8]
    } else {
        escape_bytes(s)
    }
}

/// What the escapes in `s` stand for, where each of them is one that the format has.
pub open spec fn unescape(s: Seq<u8>) -> Option<Seq<u8>>
    decreases s.len(),
{
    if s.len() == 0 {
        Some(seq![])
    } else if s[0] != 92 {
        prefixed(s[0], unescape(s.skip(1)))
    } else if s.len() < 2 {
        None
    } else if s[1] == 92 {
        prefixed(92, unescape(s.skip(2)))
    } else if s[1] == 110 {
        prefixed(10, unescape(s.skip(2)))
    } else if s[1] == 114 {
        prefixed(13, unescape(s.skip(2)))
    } else if s[1] == 116 {
        prefixed(9, unescape(s.skip(2)))
    } else if s[1] == 120 && s.len() >= 4 {
        match (hex_value(s[2]), hex_value(s[3])) {
            (Some(h), Some(l)) => prefixed((16 * h + l) as u8, unescape(s.skip(4))),
            _ => None,
        }
    } else {
        None
    }
}

/// `c` and then the bytes of `rest`.
pub open spec fn prefixed(c: u8, rest: Option<Seq<u8>>) -> Option<Seq<u8>> {
    match rest {
        Some(r) => Some(seq![c] + r),
        None => None,
    }
}

/// One written byte is read back, whatever follows it.
proof fn escape_byte_read_back(c: u8, rest: Seq<u8>)
    ensures
        unescape(escape_byte(c) + rest) == prefixed(c, unescape(rest)),
{
    let e = escape_byte(c);
    let s = e + rest;
    if is_special(c) {
        assert(hex_value(hex_digit(c as int / 16)) == Some(c as int / 16));
        assert(hex_value(hex_digit(c as int % 16)) == Some(c as int % 16));
        assert(s[0] == 92 && s[1] == 120 && s[2] == e[2] && s[3] == e[3]);
        assert(s.skip(4) =~= rest);
    } else {
        assert(s[0] == c);
        assert(s.skip(1) =~= rest);
    }
}

/// Written bytes are read back, whatever follows them.
proof fn escape_bytes_read_back(s: Seq<u8>, rest: Seq<u8>)
    ensures
        unescape(escape_bytes(s) + rest) == (match unescape(rest) {
            Some(r) => Some(s + r),
            None => None,
        }),
    decreases s.len(),
{
    if s.len() == 0 {
        assert(escape_bytes(s) + rest =~= rest);
        if let Some(r) = unescape(rest) {
            assert(s + r =~= r);
        }
    } else {
        let tail = escape_byte(s.last()) + rest;
        escape_bytes_read_back(s.drop_last(), tail);
        assert(escape_bytes(s) + rest =~= escape_bytes(s.drop_last()) + tail);
        escape_byte_read_back(s.last(), rest);
        if let Some(r) = unescape(rest) {
            assert(s.drop_last() + (seq![s.last()] + r) =~= s + r);
        }
    }
}

/// Escaping loses nothing: what is written for some bytes is read back as those bytes.
pub proof fn unescape_undoes_escape(s: Seq<u8>)
    ensures
        unescape(escape_bytes(s)) == Some(s),
{
    let none = Seq::<u8>::empty();
    escape_bytes_read_back(s, none);
    assert(escape_bytes(s) + none =~= escape_bytes(s));
    assert(s + none =~= s);
}

/// What is written holds no special byte but the backslash, and is a lone dash only for a lone
/// dash.
pub proof fn escape_bytes_plain(s: Seq<u8>)
    ensures
        forall|i: int|
            0 <= i < escape_bytes(s).len() ==> 33 <= #[trigger] escape_bytes(s)[i] <= 126 && escape_bytes(s)[i]
                != 61,
        s.len() <= escape_bytes(s).len(),
        escape_bytes(s) == seq![45u8] ==> s == seq![45u8],
    decreases s.len(),
{
    if s.len() > 0 {
        escape_bytes_plain(s.drop_last());
        let p = escape_bytes(s.drop_last());
        let e = escape_byte(s.last());
        assert forall|i: int| 0 <= i < escape_bytes(s).len() implies 33 <= #[trigger] escape_bytes(s)[i] <= 126
            && escape_bytes(s)[i] != 61 by {
            if i < p.len() {
                assert(escape_bytes(s)[i] == p[i]);
            } else {
                assert(escape_bytes(s)[i] == e[i - p.len()]);
            }
        }
        if escape_bytes(s) == seq![45u8] {
            assert(escape_bytes(s).len() == p.len() + e.len() && escape_bytes(s).len() == 1);
            assert(p.len() == 0 && s.len() == 1);
            assert(escape_bytes(s) =~= e);
            assert(e[0] == 45);
            assert(s =~= seq![45u8]);
        }
    }
}

/// Writes the dash that stands for nothing.
pub fn write_empty(out: &mut Vec<u8>)
    ensures
        final(out)@ == old(out)@ + escape(Seq::<u8>::empty()),
{
    out.push(45);
    assert(out@ =~= old(out)@ + escape(Seq::<u8>::empty()));
}

fn push_hex_digit(out: &mut Vec<u8>, n: u8)
    requires
        n < 16,
    ensures
        final(out)@ == old(out)@.push(hex_digit(n as int)),
{
    if n < 10 {
        out.push(48 + n);
    } else {
        out.push(87 + n);
    }
}

/// Writes `bytes` as a field.
pub fn write_escaped(out: &mut Vec<u8>, bytes: &[u8])
    ensures
        final(out)@ == old(out)@ + escape(bytes@),
{
    if bytes.len() == 0 {
        assert(bytes@ =~= Seq::<u8>::empty());
        write_empty(out);
        return;
    }
    let mut i: usize = 0;
    assert(out@ =~= old(out)@ + escape_bytes(bytes@.take(0)));
    while i < bytes.len()
        invariant
            i <= bytes@.len(),
            out@ == old(out)@ + escape_bytes(bytes@.take(i as int)),
        decreases bytes@.len() - i,
    {
        let c: u8 = bytes[i];
        let ghost before = out@;
        let ghost p = bytes@.take(i as int + 1);
        assert(p.drop_last() =~= bytes@.take(i as int));
        assert(p.last() == c);
        if c < 33 || c == 61 || c == 92 || c > 126 {
            out.push(92);
            out.push(120);
            push_hex_digit(out, c / 16);
            push_hex_digit(out, c % 16);
        } else {
            out.push(c);
        }
        assert(out@ =~= before + escape_byte(c));
        assert(out@ =~= old(out)@ + escape_bytes(p));
        i = i + 1;
    }
    assert(bytes@.take(i as int) =~= bytes@);
}

fn read_hex_digit(c: u8) -> (r: Option<u8>)
    ensures
        match r {
            Some(v) => hex_value(c) == Some(v as int) && v < 16,
            None => hex_value(c) is None,
        },
{
    if 48 <= c && c <= 57 {
        Some(c - 48)
    } else if 97 <= c && c <= 102 {
        Some(c - 87)
    } else if 65 <= c && c <= 70 {
        Some(c - 55)
    } else {
        None
    }
}

/// Reads a field's bytes.
pub fn read_escaped(s: &[u8]) -> (r: Option<Vec<u8>>)
    ensures
        match r {
            Some(v) => unescape(s@) == Some(v@),
            None => unescape(s@) is None,
        },
{
    let mut out: Vec<u8> = Vec::new();
    let mut i: usize = 0;
    assert(s@.skip(0) =~= s@);
    proof {
        if let Some(r) = unescape(s@) {
            assert(out@ + r =~= r);
        }
    }
    while i < s.len()
        invariant
            i <= s@.len(),
            unescape(s@) == (match unescape(s@.skip(i as int)) {
                Some(r) => Some(out@ + r),
                None => None,
            }),
        decreases s@.len() - i,
    {
        let ghost before = out@;
        let ghost rest = s@.skip(i as int);
        let ghost from = i as int;
        let c: u8 = s[i];
        assert(rest[0] == c);
        let b: u8;
        let used: usize;
        if c != 92 {
            b = c;
            used = 1;
        } else {
            if s.len() - i < 2 {
                return None;
            }
            let k: u8 = s[i + 1];
            assert(rest[1] == k);
            if k == 92 {
                b = 92;
                used = 2;
            } else if k == 110 {
                b = 10;
                used = 2;
            } else if k == 114 {
                b = 13;
                used = 2;
            } else if k == 116 {
                b = 9;
                used = 2;
            } else if k == 120 && s.len() - i >= 4 {
                assert(rest[2] == s@[i + 2] && rest[3] == s@[i + 3]);
                match (read_hex_digit(s[i + 2]), read_hex_digit(s[i + 3])) {
                    (Some(h), Some(l)) => {
                        b = 16 * h + l;
                        used = 4;
                    },
                    _ => {
                        return None;
                    },
                }
            } else {
                return None;
            }
        }
        out.push(b);
        i = i + used;
        proof {
            assert(rest.skip(used as int) =~= s@.skip(i as int));
            assert(unescape(rest) == prefixed(b, unescape(s@.skip(i as int))));
            if let Some(r) = unescape(s@.skip(i as int)) {
                assert(before + (seq![b] + r) =~= out@ + r);
            }
        }
    }
    assert(s@.skip(i as int) =~= Seq::<u8>::empty());
    assert(out@ + Seq::<u8>::empty() =~= out@);
    Some(out)
}

} // verus!
