//! Numbers and escapes in text.

use vstd::prelude::*;
use crate::bytestr::lex_lt;
use crate::error::Error;
use crate::fsverity::{hex_bytes, hex_text};
use crate::text::{
    digits, digits_read_back, escape, escape_byte, escape_bytes, hex_value, is_digit, number, read_escaped, read_number, unescape, value,
    write_empty, write_escaped, write_number, write_signed,
};

verus! {

/// A single digit stands for its value, no other byte and no empty text for any.
pub proof fn number_of_one(c: u8, radix: nat)
    requires
        2 <= radix <= 10,
    ensures
        number(seq![c], radix) == (if 48 <= c < 48 + radix {
            Some((c - 48) as nat)
        } else {
            None
        }),
        number(Seq::empty(), radix) is None,
{
    let s = seq![c];
    assert(s.drop_last() =~= Seq::<u8>::empty());
    assert(value(s.drop_last(), radix) == 0);
    assert(0 * radix == 0);
    assert(s[0] == c);
}

/// A digit behind a number makes it as many times greater as the base is, and adds its value. With
/// any other byte behind it, or behind what is no number, there is no number.
pub proof fn number_of_more(s: Seq<u8>, c: u8, radix: nat)
    requires
        2 <= radix <= 10,
        s.len() > 0,
    ensures
        number(s.push(c), radix) == (match number(s, radix) {
            Some(n) if 48 <= c < 48 + radix => Some((n * radix + (c - 48)) as nat),
            _ => None,
        }),
{
    let t = s.push(c);
    assert(t.drop_last() =~= s);
    assert(t[s.len() as int] == c);
    assert forall|i: int| 0 <= i < s.len() implies t[i] == s[i] by {}
    if number(t, radix) is Some {
        assert forall|i: int| 0 <= i < s.len() implies is_digit(#[trigger] s[i], radix) by {
            assert(t[i] == s[i]);
        }
    }
    if number(s, radix) is Some && 48 <= c < 48 + radix {
        assert forall|i: int| 0 <= i < t.len() implies is_digit(#[trigger] t[i], radix) by {
            if i < s.len() {
                assert(t[i] == s[i]);
            }
        }
    }
}

/// The digits of a number have no zero in front.
proof fn no_leading_zero(n: nat, radix: nat)
    requires
        2 <= radix <= 10,
        n > 0,
    ensures
        digits(n, radix)[0] != 48,
    decreases n,
{
    if n >= radix {
        assert(0 < n / radix < n) by (nonlinear_arith)
            requires
                n >= radix,
                radix >= 2,
        ;
        no_leading_zero(n / radix, radix);
        digits_read_back(n / radix, radix);
        assert(digits(n, radix)[0] == digits(n / radix, radix)[0]);
    }
}

/// A number that is written is the number that its digits make, with no zero in front but where it is
/// zero. It is written after what was there.
pub proof fn number_written(out: &mut Vec<u8>, n: u64, radix: u64, text: Seq<u8>)
    requires
        2 <= radix <= 10,
        call_ensures(write_number, (out, n, radix), ()),
        text == digits(n as nat, radix as nat),
    ensures
        final(out)@ == old(out)@ + text,
        number(text, radix as nat) == Some(n as nat),
        n > 0 ==> text[0] != 48,
        n == 0 ==> text == seq![48u8],
{
    digits_read_back(n as nat, radix as nat);
    if n > 0 {
        no_leading_zero(n as nat, radix as nat);
    }
}

/// A number below zero is written with a minus sign before its amount.
pub proof fn signed_number_written(out: &mut Vec<u8>, n: i64)
    requires
        call_ensures(write_signed, (out, n), ()),
    ensures
        n >= 0 ==> final(out)@ == old(out)@ + digits(n as nat, 10),
        n < 0 ==> final(out)@ == old(out)@ + (seq![45u8] + digits((-n) as nat, 10)),
{
}

/// A number is read where the whole text is one and it is within the limit, and only there.
pub proof fn number_is_read(s: &[u8], radix: u64, max: u64, r: Option<u64>)
    requires
        2 <= radix <= 10,
        call_ensures(read_number, (s, radix, max), r),
    ensures
        match number(s@, radix as nat) {
            Some(n) => if n <= max {
                r == Some(n as u64)
            } else {
                r is None
            },
            None => r is None,
        },
{
}

/// A printable character other than `=` and the backslash is written as it is, and any other byte
/// as `\x` and two hexadecimal digits in lower case.
pub proof fn byte_escaped(c: u8)
    ensures
        (33 <= c <= 126 && c != 61 && c != 92) ==> escape_bytes(seq![c]) == seq![c],
        !(33 <= c <= 126 && c != 61 && c != 92) ==> escape_bytes(seq![c]) == seq![92u8, 120u8] + hex_text(seq![c]),
{
    let s = seq![c];
    assert(s.drop_last() =~= Seq::<u8>::empty());
    assert(escape_bytes(s.drop_last()) =~= Seq::<u8>::empty());
    assert(escape_bytes(s) =~= escape_byte(c));
    if !(33 <= c <= 126 && c != 61 && c != 92) {
        let t = hex_text(s);
        assert(0int / 2 == 0 && 1int / 2 == 0 && 0int % 2 == 0 && 1int % 2 == 1);
        assert(escape_byte(c) =~= seq![92u8, 120u8] + t);
    }
}

/// What is written of bytes in a row is written of each in turn.
pub proof fn escaped_in_turn(a: Seq<u8>, b: Seq<u8>)
    ensures
        escape_bytes(a + b) == escape_bytes(a) + escape_bytes(b),
    decreases b.len(),
{
    if b.len() == 0 {
        assert(a + b =~= a);
        assert(escape_bytes(a) + escape_bytes(b) =~= escape_bytes(a));
    } else {
        escaped_in_turn(a, b.drop_last());
        assert((a + b).drop_last() =~= a + b.drop_last());
        assert(escape_bytes(a + b) =~= escape_bytes(a) + escape_bytes(b));
    }
}

/// A field is written as its bytes escaped, and as a dash where it has none.
pub proof fn field_written(out: &mut Vec<u8>, bytes: &[u8])
    requires
        call_ensures(write_escaped, (out, bytes), ()),
    ensures
        final(out)@ == old(out)@ + escape(bytes@),
        bytes@.len() > 0 ==> escape(bytes@) == escape_bytes(bytes@),
        bytes@.len() == 0 ==> escape(bytes@) == seq![45u8],
{
}

/// Any byte but a backslash stands for itself, whatever follows, and no text for no bytes.
pub proof fn byte_unescaped(c: u8, rest: Seq<u8>)
    requires
        c != 92,
    ensures
        unescape(seq![c] + rest) == (match unescape(rest) {
            Some(bytes) => Some(seq![c] + bytes),
            None => None,
        }),
        unescape(Seq::empty()) == Some(Seq::<u8>::empty()),
{
    let s = seq![c] + rest;
    assert(s[0] == c);
    assert(s.skip(1) =~= rest);
}

/// The escapes of one letter: a backslash, and the ends of lines and the tabulator.
pub proof fn letter_unescaped(c: u8, rest: Seq<u8>)
    ensures
        c != 120 ==> unescape(seq![92u8, c] + rest) == (match (
            if c == 92 {
                Some(92u8)
            } else if c == 110 {
                Some(10u8)
            } else if c == 114 {
                Some(13u8)
            } else if c == 116 {
                Some(9u8)
            } else {
                None
            },
            unescape(rest),
        ) {
            (Some(byte), Some(bytes)) => Some(seq![byte] + bytes),
            _ => None,
        }),
        unescape(seq![92u8]) is None,
{
    let s = seq![92u8, c] + rest;
    assert(s[0] == 92 && s[1] == c);
    assert(s.skip(2) =~= rest);
    let one = seq![92u8];
    assert(one[0] == 92);
}

/// The escape of two hexadecimal digits, in either case.
pub proof fn hexadecimal_unescaped(h: u8, l: u8, rest: Seq<u8>)
    ensures
        unescape(seq![92u8, 120u8, h, l] + rest) == (match (hex_bytes(seq![h, l]), unescape(rest)) {
            (Some(byte), Some(bytes)) => Some(byte + bytes),
            _ => None,
        }),
{
    let s = seq![92u8, 120u8, h, l] + rest;
    let t = seq![h, l];
    assert(s[0] == 92 && s[1] == 120 && s[2] == h && s[3] == l);
    assert(s.skip(4) =~= rest);
    assert(t[0] == h && t[1] == l);
    if let Some(byte) = hex_bytes(t) {
        assert(hex_value(t[0]) is Some && hex_value(t[1]) is Some);
        assert(byte =~= seq![byte[0]]);
    } else if hex_value(h) is Some && hex_value(l) is Some {
        assert forall|i: int| 0 <= i < t.len() implies hex_value(#[trigger] t[i]) is Some by {
            assert(i == 0 || i == 1);
        }
    }
}

/// Too few digits after `\x` make no escape.
pub proof fn short_hexadecimal_refused(s: Seq<u8>)
    requires
        2 <= s.len() < 4,
        s[0] == 92,
        s[1] == 120,
    ensures
        unescape(s) is None,
{
}

/// Escaped text is read as the bytes that it stands for, and only where it is escaped text.
pub proof fn escaped_is_read(s: &[u8], r: Option<Vec<u8>>)
    requires
        call_ensures(read_escaped, (s,), r),
    ensures
        match unescape(s@) {
            Some(bytes) => r matches Some(v) && v@ == bytes,
            None => r is None,
        },
{
}

/// Hexadecimal digits: those of a byte are its upper and its lower half, in lower case.
pub proof fn byte_in_hexadecimal(c: u8)
    ensures
        hex_text(seq![c]).len() == 2,
        c / 16 < 10 ==> hex_text(seq![c])[0] == 48 + c / 16,
        c / 16 >= 10 ==> hex_text(seq![c])[0] == 97 + (c / 16 - 10),
        c % 16 < 10 ==> hex_text(seq![c])[1] == 48 + c % 16,
        c % 16 >= 10 ==> hex_text(seq![c])[1] == 97 + (c % 16 - 10),
{
    assert(0int / 2 == 0 && 1int / 2 == 0 && 0int % 2 == 0 && 1int % 2 == 1);
    assert(seq![c][0] == c);
}

/// The first byte that differs decides the order of two byte strings, whatever is before and after.
pub proof fn first_difference_decides(same: Seq<u8>, a: u8, b: u8, s: Seq<u8>, t: Seq<u8>)
    requires
        a != b,
    ensures
        lex_lt(same + (seq![a] + s), same + (seq![b] + t)) <==> a < b,
    decreases same.len(),
{
    let x = same + (seq![a] + s);
    let y = same + (seq![b] + t);
    if same.len() > 0 {
        first_difference_decides(same.drop_first(), a, b, s, t);
        assert(x.drop_first() =~= same.drop_first() + (seq![a] + s));
        assert(y.drop_first() =~= same.drop_first() + (seq![b] + t));
    } else {
        assert(x[0] == a && y[0] == b);
    }
}

/// A byte string comes before each that it is a proper start of.
pub proof fn start_comes_first(same: Seq<u8>, more: Seq<u8>)
    requires
        more.len() > 0,
    ensures
        lex_lt(same, same + more),
        !lex_lt(same + more, same),
    decreases same.len(),
{
    if same.len() > 0 {
        start_comes_first(same.drop_first(), more);
        assert((same + more).drop_first() =~= same.drop_first() + more);
    } else {
        assert(same + more =~= more);
    }
}

/// Errors are told in these words.
pub proof fn errors_told(e: Error, r: &'static str)
    requires
        call_ensures(Error::message, (&e,), r),
    ensures
        e == Error::UnexpectedReference ==> r@ == "Unexpected external reference when parsing splitstream"@,
        e == Error::SmallInline ==> r@ == "Unexpectedly small inline content when parsing splitstream"@,
        e == Error::ReferenceNotFound ==> r@ == "Reference is not found in splitstream"@,
        e == Error::ContentMismatch ==> r@ == "Content doesn't have expected SHA256 hash value!"@,
        e == Error::InvalidLine ==> r@ == "Failed to parse dumpfile line"@,
        e == Error::NoFilename ==> r@ == "Path has no filename"@,
        e == Error::ParentNotFound ==> r@ == "Parent directory not found"@,
        e == Error::HardlinkTargetNotFound ==> r@ == "Hardlink target not found"@,
        e == Error::MissingDigest ==> r@ == "External file missing fsverity digest"@,
{
}

/// A field with nothing in it is a dash.
pub proof fn empty_field_written(out: &mut Vec<u8>)
    requires
        call_ensures(write_empty, (out,), ()),
    ensures
        final(out)@ == old(out)@ + seq![45u8],
{
}

} // verus!
