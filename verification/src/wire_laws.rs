//! What the wire format promises, stated in bytes: which first byte each
//! kind of frame carries, how an integer is spelled, and that the check
//! accepts every frame the parser reads.

use crate::frame::{
    all_digits, crlf, digits_value, encodable, is_digit, lemma_get_line_progress,
    lemma_get_line_written, lemma_parse_serialize, lemma_spec_digits, spec_check, spec_check_n,
    spec_decimal, spec_digits, spec_get_line, spec_parse, spec_parse_n, spec_serialize, SpecFrame,
    CR, LF,
};
use vstd::prelude::*;
use vstd::utf8::{decode_utf8_encode_utf8, encode_utf8};

verus! {

/// The check accepts whatever the parser reads: where a frame is parsed
/// from `pos`, checking from `pos` succeeds and stops where parsing did.
pub proof fn law_parse_then_check(buf: Seq<u8>, pos: int)
    requires
        0 <= pos <= buf.len(),
        spec_parse(buf, pos).0 is Ok,
    ensures
        spec_check(buf, pos) == (Ok::<(), crate::frame::Error>(()), spec_parse(buf, pos).1),
    decreases buf.len() - pos, 0int, 0int,
{
    let first = buf[pos];
    lemma_get_line_progress(buf, pos + 1);
    if first == 42 {
        if let (Ok(size), p) = crate::frame::spec_get_decimal(buf, pos + 1) {
            if size >= 0 {
                law_parse_then_check_n(buf, p, size as nat);
            }
        }
    }
}

/// The same for `n` frames one after another.
pub proof fn law_parse_then_check_n(buf: Seq<u8>, pos: int, n: nat)
    requires
        0 <= pos <= buf.len(),
        spec_parse_n(buf, pos, n).0 is Ok,
    ensures
        spec_check_n(buf, pos, n) == (Ok::<(), crate::frame::Error>(()), spec_parse_n(buf, pos, n).1),
    decreases buf.len() - pos, 1int, n,
{
    if n > 0 {
        let p = spec_parse(buf, pos).1;
        law_parse_then_check(buf, pos);
        law_parse_then_check_n(buf, p, (n - 1) as nat);
    }
}

/// A whole frame that can travel, written at `pos`, passes the check, and
/// the check stops right after its bytes, whatever follows them.
pub proof fn law_check_accepts_written(f: SpecFrame, buf: Seq<u8>, pos: int)
    requires
        encodable(f),
        0 <= pos,
        pos + spec_serialize(f).len() <= buf.len(),
        buf.subrange(pos, pos + spec_serialize(f).len()) == spec_serialize(f),
    ensures
        spec_check(buf, pos) == (Ok::<(), crate::frame::Error>(()), pos + spec_serialize(f).len()),
{
    lemma_parse_serialize(f, buf, pos);
    law_parse_then_check(buf, pos);
}

/// Which kind of frame is read is told by its first byte alone: '+' gives
/// a simple string and only '+' does, '-' an error and only '-', ':' an
/// integer and only ':', '$' a bulk string or null, '*' an array or null.
/// A simple string or an error holds exactly the text of its line, which
/// ends in "\r\n".
pub proof fn law_parse_kind(buf: Seq<u8>, pos: int)
    requires
        0 <= pos <= buf.len(),
        spec_parse(buf, pos).0 is Ok,
    ensures
        ({
            let f = spec_parse(buf, pos).0->Ok_0;
            let p = spec_parse(buf, pos).1;
            &&& pos < buf.len()
            &&& (f is Simple <==> buf[pos] == 43)
            &&& (f is Error <==> buf[pos] == 45)
            &&& (f is Integer <==> buf[pos] == 58)
            &&& (f is Bulk ==> buf[pos] == 36)
            &&& (f is Array ==> buf[pos] == 42)
            &&& (f is Null ==> buf[pos] == 36 || buf[pos] == 42)
            &&& (f matches SpecFrame::Simple(s) ==> text_line_at(buf, pos, p, s))
            &&& (f matches SpecFrame::Error(s) ==> text_line_at(buf, pos, p, s))
        }),
{
    let first = buf[pos];
    if first == 43 || first == 45 {
        let (line_r, p) = spec_get_line(buf, pos + 1);
        if let Ok(line) = line_r {
            lemma_line_ends(buf, pos + 1);
            decode_utf8_encode_utf8(line);
        }
    }
}

/// Whether the bytes from `pos` to `end` are one byte, the UTF-8 bytes of
/// `s`, and "\r\n".
pub open spec fn text_line_at(buf: Seq<u8>, pos: int, end: int, s: Seq<char>) -> bool {
    &&& pos + 3 <= end <= buf.len()
    &&& buf.subrange(pos + 1, end - 2) == encode_utf8(s)
    &&& buf[end - 2] == CR
    &&& buf[end - 1] == LF
}

/// A line that was read ends in "\r\n", and its bytes are those before it.
proof fn lemma_line_ends(buf: Seq<u8>, pos: int)
    requires
        0 <= pos <= buf.len(),
        spec_get_line(buf, pos).0 is Ok,
    ensures
        ({
            let (r, p) = spec_get_line(buf, pos);
            &&& pos + 2 <= p <= buf.len()
            &&& r == Ok::<Seq<u8>, crate::frame::Error>(buf.subrange(pos, p - 2))
            &&& buf[p - 2] == CR
            &&& buf[p - 1] == LF
        }),
{
    crate::frame::lemma_find_cr_bounds(buf, pos);
    lemma_get_line_progress(buf, pos);
    lemma_find_cr_is_cr(buf, pos);
}

/// Where `find_cr` stops before the end, it stops at a carriage return.
proof fn lemma_find_cr_is_cr(buf: Seq<u8>, i: int)
    requires
        0 <= i <= buf.len(),
    ensures
        crate::frame::find_cr(buf, i) < buf.len() ==> buf[crate::frame::find_cr(buf, i)] == CR,
    decreases buf.len() - i,
{
    if i < buf.len() && buf[i] != CR {
        lemma_find_cr_is_cr(buf, i + 1);
    }
}

/// The first byte written for each kind of frame: '+' for a simple string,
/// '-' for an error, ':' for an integer, '$' for a bulk string, '*' for an
/// array; a simple string or an error is that byte, its text and "\r\n",
/// and a null is "$-1\r\n".
pub proof fn law_serialize_kind(f: SpecFrame)
    ensures
        ({
            let b = spec_serialize(f);
            &&& b.len() >= 3
            &&& (f is Simple ==> b[0] == 43)
            &&& (f is Error ==> b[0] == 45)
            &&& (f is Integer ==> b[0] == 58)
            &&& (f is Bulk ==> b[0] == 36)
            &&& (f is Array ==> b[0] == 42)
            &&& (f matches SpecFrame::Simple(s) ==> text_line_at(b, 0, b.len() as int, s))
            &&& (f matches SpecFrame::Error(s) ==> text_line_at(b, 0, b.len() as int, s))
            &&& (f is Null ==> b == seq![36u8, 45u8, 49u8, CR, LF])
        }),
{
    let b = spec_serialize(f);
    match f {
        SpecFrame::Simple(s) => {
            assert(b.subrange(1, b.len() - 2) =~= encode_utf8(s));
        },
        SpecFrame::Error(s) => {
            assert(b.subrange(1, b.len() - 2) =~= encode_utf8(s));
        },
        SpecFrame::Integer(n) => {
            crate::frame::lemma_decimal_roundtrip(n as int);
        },
        _ => {},
    }
}

/// The digits of a positive number do not start with '0'.
proof fn lemma_digits_lead(n: nat)
    requires
        n > 0,
    ensures
        spec_digits(n)[0] != 48,
        spec_digits(n).len() >= 1,
    decreases n,
{
    if n >= 10 {
        lemma_digits_lead(n / 10);
    }
}

/// An integer is written as ':', then its decimal digits without leading
/// zeros, with a '-' in front exactly when it is negative, then "\r\n".
pub proof fn law_integer_written(n: i64)
    ensures
        ({
            let b = spec_serialize(SpecFrame::Integer(n));
            let m = b.subrange(1, b.len() - 2);
            &&& b.len() >= 4
            &&& b[0] == 58
            &&& b[b.len() - 2] == CR
            &&& b[b.len() - 1] == LF
            &&& (n >= 0 ==> {
                &&& all_digits(m)
                &&& digits_value(m) == n
                &&& (m.len() > 1 ==> m[0] != 48)
            })
            &&& (n < 0 ==> {
                &&& m.len() >= 2
                &&& m[0] == 45
                &&& all_digits(m.drop_first())
                &&& digits_value(m.drop_first()) == -n
                &&& m[1] != 48
            })
        }),
{
    let b = spec_serialize(SpecFrame::Integer(n));
    let m = b.subrange(1, b.len() - 2);
    crate::frame::lemma_decimal_roundtrip(n as int);
    assert(m =~= spec_decimal(n as int));
    if n < 0 {
        let k = (-n) as nat;
        lemma_spec_digits(k);
        lemma_digits_lead(k);
        assert(m.drop_first() =~= spec_digits(k));
    } else {
        lemma_spec_digits(n as nat);
        if n > 0 {
            lemma_digits_lead(n as nat);
        } else {
            assert(spec_digits(0).len() == 1);
        }
    }
}

/// A line of ':' and decimal digits, with or without a '-' in front, then
/// "\r\n", is read as the integer those digits spell, negated when the
/// '-' is there, as long as it fits an `i64`; reading stops after the line.
pub proof fn law_parse_integer_line(buf: Seq<u8>, pos: int, negative: bool, digits: Seq<u8>)
    requires
        all_digits(digits),
        digits.len() >= 1,
        i64::MIN <= (if negative { -digits_value(digits) } else { digits_value(digits) }) <= i64::MAX,
        0 <= pos,
        ({
            let line = if negative { seq![45u8] + digits } else { digits };
            &&& pos + line.len() + 3 <= buf.len()
            &&& buf.subrange(pos, pos + line.len() + 3) == seq![58u8] + line + crlf()
        }),
    ensures
        ({
            let line = if negative { seq![45u8] + digits } else { digits };
            let v = if negative { -digits_value(digits) } else { digits_value(digits) };
            spec_parse(buf, pos) == (
                Ok::<SpecFrame, crate::frame::Error>(SpecFrame::Integer(v as i64)),
                pos + line.len() + 3,
            )
        }),
{
    let line = if negative { seq![45u8] + digits } else { digits };
    let whole = seq![58u8] + line + crlf();
    assert(buf[pos] == whole[0]);
    assert(buf.subrange(pos + 1, pos + 1 + line.len() + 2) =~= whole.subrange(1, whole.len() as int));
    assert(whole.subrange(1, whole.len() as int) =~= line + crlf());
    assert forall|i: int| 0 <= i < line.len() implies line[i] != CR by {
        if negative {
            if i > 0 {
                assert(line[i] == digits[i - 1]);
                assert(is_digit(digits[i - 1]));
            }
        } else {
            assert(is_digit(digits[i]));
        }
    }
    lemma_get_line_written(buf, pos + 1, line);
    crate::frame::lemma_digits_value_nonneg(digits);
    if negative {
        assert(line.drop_first() =~= digits);
    } else {
        assert(is_digit(digits[0]));
    }
}

} // verus!
