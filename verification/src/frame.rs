use crate::byte_buf::{bytes_as_slice, bytes_copy_from_slice, bytes_view};
use crate::cursor::Cursor;
use crate::text::utf8_to_string;
use bytes::Bytes;
use vstd::prelude::*;
use vstd::utf8::{decode_utf8, encode_utf8, valid_utf8};

verus! {

/// Why a frame could not be read.
#[derive(Debug, PartialEq, Eq)]
pub enum Error {
    /// The bytes end before the frame does.
    Incomplete,
    /// The bytes do not form a frame.
    Other(&'static str),
}

impl Error {
    /// The text that describes the error.
    pub fn to_string(&self) -> (s: String)
        ensures
            s@ == self.message()@,
    {
        match self {
            Error::Incomplete => "stream ended early".to_owned(),
            Error::Other(msg) => (*msg).to_owned(),
        }
    }

    /// The text that describes the error, as a spec value.
    pub open spec fn message(&self) -> &'static str {
        match self {
            Error::Incomplete => "stream ended early",
            Error::Other(msg) => *msg,
        }
    }
}

/// Carriage return.
pub const CR: u8 = 13;

/// Line feed.
pub const LF: u8 = 10;

/// The first index at or after `i` that holds a carriage return, or the
/// length of `buf` where there is none.
pub open spec fn find_cr(buf: Seq<u8>, i: int) -> int
    decreases buf.len() - i,
{
    if i >= buf.len() {
        buf.len() as int
    } else if buf[i] == CR {
        i
    } else {
        find_cr(buf, i + 1)
    }
}

/// Reading one line that starts at `pos`: its bytes before "\r\n" and the
/// position after the "\r\n"; on an error the position stays at `pos`.
pub open spec fn spec_get_line(buf: Seq<u8>, pos: int) -> (Result<Seq<u8>, Error>, int) {
    let cr = find_cr(buf, pos);
    if cr + 1 >= buf.len() {
        (Err(Error::Incomplete), pos)
    } else if buf[cr + 1] == LF {
        (Ok(buf.subrange(pos, cr)), cr + 2)
    } else {
        (Err(Error::Other("Wrong message: '\r' not followed by '\n'")), pos)
    }
}


/// Whether `b` is an ASCII decimal digit.
pub open spec fn is_digit(b: u8) -> bool {
    48 <= b <= 57
}

/// Whether every byte of `s` is an ASCII decimal digit.
pub open spec fn all_digits(s: Seq<u8>) -> bool {
    forall|i: int| 0 <= i < s.len() ==> is_digit(#[trigger] s[i])
}

/// The number that the decimal digits `s` spell.
pub open spec fn digits_value(s: Seq<u8>) -> int
    decreases s.len(),
{
    if s.len() == 0 {
        0
    } else {
        digits_value(s.drop_last()) * 10 + (s.last() - 48)
    }
}

/// The integer that a whole line spells: an optional '-' and at least one
/// decimal digit, within the range of `i64`.
pub open spec fn decimal_value(line: Seq<u8>) -> Result<i64, Error> {
    if line.len() == 0 {
        Err(Error::Other("Wrong message: Empty line"))
    } else if line[0] == 45 {
        let digits = line.drop_first();
        if digits.len() == 0 || !all_digits(digits) {
            Err(Error::Other("Wrong message: Not a number"))
        } else if digits_value(digits) > 9223372036854775808 {
            Err(Error::Other("Wrong message: Number out of range"))
        } else {
            Ok((-digits_value(digits)) as i64)
        }
    } else if is_digit(line[0]) {
        if !all_digits(line) {
            Err(Error::Other("Wrong message: Not a number"))
        } else if digits_value(line) > i64::MAX {
            Err(Error::Other("Wrong message: Number out of range"))
        } else {
            Ok(digits_value(line) as i64)
        }
    } else {
        Err(Error::Other("Wrong message: Not a number"))
    }
}

/// Reading one line at `pos` as a decimal integer; the position moves past
/// the line whenever a whole line was there.
pub open spec fn spec_get_decimal(buf: Seq<u8>, pos: int) -> (Result<i64, Error>, int) {
    match spec_get_line(buf, pos) {
        (Ok(line), p) => (decimal_value(line), p),
        (Err(e), p) => (Err(e), p),
    }
}

/// A spelled number is never negative.
pub proof fn lemma_digits_value_nonneg(s: Seq<u8>)
    requires
        all_digits(s),
    ensures
        digits_value(s) >= 0,
    decreases s.len(),
{
    if s.len() > 0 {
        lemma_digits_value_nonneg(s.drop_last());
    }
}

/// Appending a digit multiplies by ten and adds the digit.
pub proof fn lemma_digits_value_step(s: Seq<u8>, i: int)
    requires
        0 <= i < s.len(),
    ensures
        digits_value(s.take(i + 1)) == digits_value(s.take(i)) * 10 + (s[i] - 48),
{
    assert(s.take(i + 1).drop_last() =~= s.take(i));
}

/// A prefix of a run of digits spells no more than the whole run.
pub proof fn lemma_digits_value_prefix(s: Seq<u8>, i: int)
    requires
        all_digits(s),
        0 <= i <= s.len(),
    ensures
        digits_value(s.take(i)) <= digits_value(s),
    decreases s.len() - i,
{
    if i == s.len() {
        assert(s.take(i) =~= s);
    } else {
        lemma_digits_value_prefix(s, i + 1);
        lemma_digits_value_step(s, i);
        lemma_digits_value_nonneg(s.take(i));
    }
}


/// Whether a line was read from `pos` onward: then the position moved on.
pub proof fn lemma_get_line_progress(buf: Seq<u8>, pos: int)
    requires
        0 <= pos <= buf.len(),
    ensures
        pos <= spec_get_line(buf, pos).1 <= buf.len(),
        spec_get_line(buf, pos).0 is Ok ==> pos + 2 <= spec_get_line(buf, pos).1,
{
    lemma_find_cr_bounds(buf, pos);
}

/// Checking one frame that starts at `pos`: whether the bytes from `pos`
/// hold a whole, well-formed frame, and where the check stopped.
pub open spec fn spec_check(buf: Seq<u8>, pos: int) -> (Result<(), Error>, int)
    decreases buf.len() - pos, 0int, 0int,
{
    if pos < 0 || pos >= buf.len() {
        (Err(Error::Incomplete), pos)
    } else {
        let first = buf[pos];
        let p1 = pos + 1;
        if first == 43 || first == 45 || first == 58 {
            match spec_get_line(buf, p1) {
                (Ok(_), p) => (Ok(()), p),
                (Err(e), p) => (Err(e), p),
            }
        } else if first == 36 {
            match spec_get_decimal(buf, p1) {
                (Err(e), p) => (Err(e), p),
                (Ok(length), p) => {
                    if length == -1 {
                        (Ok(()), p)
                    } else if length >= 0 {
                        if length > usize::MAX {
                            (Err(Error::Other("Wrong message: Length overflow")), p)
                        } else if buf.len() - p < length {
                            (Err(Error::Incomplete), p)
                        } else {
                            let q = p + length;
                            if q >= buf.len() {
                                (Err(Error::Incomplete), q)
                            } else if buf[q] != CR {
                                (Err(Error::Other("Wrong message: Invalid ending for bulk string")), q + 1)
                            } else if q + 1 >= buf.len() {
                                (Err(Error::Incomplete), q + 1)
                            } else if buf[q + 1] != LF {
                                (Err(Error::Other("Wrong message: Invalid ending for bulk string")), q + 2)
                            } else {
                                (Ok(()), q + 2)
                            }
                        }
                    } else {
                        (Err(Error::Other("Wrong message: Invalid length for bulk string")), p)
                    }
                },
            }
        } else if first == 42 {
            match spec_get_decimal(buf, p1) {
                (Err(e), p) => (Err(e), p),
                (Ok(size), p) => {
                    if size == -1 {
                        (Ok(()), p)
                    } else if size >= 0 {
                        if p <= pos || p > buf.len() {
                            (Err(Error::Incomplete), p)
                        } else {
                            spec_check_n(buf, p, size as nat)
                        }
                    } else {
                        (Err(Error::Other("Wrong message: Invalid size for array")), p)
                    }
                },
            }
        } else {
            (Err(Error::Other("Wrong message: Invalid first byte")), p1)
        }
    }
}

/// Checking `n` frames one after another from `pos`.
pub open spec fn spec_check_n(buf: Seq<u8>, pos: int, n: nat) -> (Result<(), Error>, int)
    decreases buf.len() - pos, 1int, n,
{
    if n == 0 {
        (Ok(()), pos)
    } else {
        match spec_check(buf, pos) {
            (Ok(()), p) => {
                if pos < p <= buf.len() {
                    spec_check_n(buf, p, (n - 1) as nat)
                } else {
                    (Err(Error::Incomplete), p)
                }
            },
            (Err(e), p) => (Err(e), p),
        }
    }
}

/// Parsing one frame that starts at `pos`: the frame's value and the
/// position after it, or the error and where parsing stopped.
pub open spec fn spec_parse(buf: Seq<u8>, pos: int) -> (Result<SpecFrame, Error>, int)
    decreases buf.len() - pos, 0int, 0int,
{
    if pos < 0 || pos >= buf.len() {
        (Err(Error::Incomplete), pos)
    } else {
        let first = buf[pos];
        let p1 = pos + 1;
        if first == 43 || first == 45 {
            match spec_get_line(buf, p1) {
                (Ok(line), p) => {
                    if valid_utf8(line) {
                        if first == 43 {
                            (Ok(SpecFrame::Simple(decode_utf8(line))), p)
                        } else {
                            (Ok(SpecFrame::Error(decode_utf8(line))), p)
                        }
                    } else {
                        (Err(Error::Other("Wrong message: Invalid UTF-8")), p)
                    }
                },
                (Err(e), p) => (Err(e), p),
            }
        } else if first == 58 {
            match spec_get_decimal(buf, p1) {
                (Ok(n), p) => (Ok(SpecFrame::Integer(n)), p),
                (Err(e), p) => (Err(e), p),
            }
        } else if first == 36 {
            match spec_get_decimal(buf, p1) {
                (Err(e), p) => (Err(e), p),
                (Ok(length), p) => {
                    if length >= 0 {
                        if length > usize::MAX {
                            (Err(Error::Other("Wrong message: Length overflow")), p)
                        } else if buf.len() - p < length {
                            (Err(Error::Incomplete), p)
                        } else {
                            let q = p + length;
                            if q >= buf.len() {
                                (Err(Error::Incomplete), q)
                            } else if buf[q] != CR {
                                (Err(Error::Other("Wrong message: Invalid ending for bulk string")), q + 1)
                            } else if q + 1 >= buf.len() {
                                (Err(Error::Incomplete), q + 1)
                            } else if buf[q + 1] != LF {
                                (Err(Error::Other("Wrong message: Invalid ending for bulk string")), q + 2)
                            } else {
                                (Ok(SpecFrame::Bulk(buf.subrange(p, q))), q + 2)
                            }
                        }
                    } else {
                        if length == -1 {
                            (Ok(SpecFrame::Null), p)
                        } else {
                            (Err(Error::Other("Wrong message: Invalid length for bulk string")), p)
                        }
                    }
                },
            }
        } else if first == 42 {
            match spec_get_decimal(buf, p1) {
                (Err(e), p) => (Err(e), p),
                (Ok(size), p) => {
                    if size >= 0 {
                        if size > usize::MAX {
                            (Err(Error::Other("Wrong message: Length overflow")), p)
                        } else if size >= 1024 {
                            (Err(Error::Other("Wrong message: size out of memory")), p)
                        } else if p <= pos || p > buf.len() {
                            (Err(Error::Incomplete), p)
                        } else {
                            match spec_parse_n(buf, p, size as nat) {
                                (Ok(frames), q) => (Ok(SpecFrame::Array(frames)), q),
                                (Err(e), q) => (Err(e), q),
                            }
                        }
                    } else {
                        if size == -1 {
                            (Ok(SpecFrame::Null), p)
                        } else {
                            (Err(Error::Other("Wrong message: Invalid size for array")), p)
                        }
                    }
                },
            }
        } else {
            (Err(Error::Other("Wrong message: Invalid first byte")), p1)
        }
    }
}

/// Parsing `n` frames one after another from `pos`.
pub open spec fn spec_parse_n(buf: Seq<u8>, pos: int, n: nat) -> (Result<Seq<SpecFrame>, Error>, int)
    decreases buf.len() - pos, 1int, n,
{
    if n == 0 {
        (Ok(Seq::empty()), pos)
    } else {
        match spec_parse(buf, pos) {
            (Ok(f), p) => {
                if pos < p <= buf.len() {
                    prepend_frames(seq![f], spec_parse_n(buf, p, (n - 1) as nat))
                } else {
                    (Err(Error::Incomplete), p)
                }
            },
            (Err(e), p) => (Err(e), p),
        }
    }
}

/// Puts `done` in front of the frames of a successful outcome.
pub open spec fn prepend_frames(
    done: Seq<SpecFrame>,
    rest: (Result<Seq<SpecFrame>, Error>, int),
) -> (Result<Seq<SpecFrame>, Error>, int) {
    match rest {
        (Ok(frames), q) => (Ok(done + frames), q),
        (Err(e), q) => (Err(e), q),
    }
}

/// The bytes "\r\n".
pub open spec fn crlf() -> Seq<u8> {
    seq![CR, LF]
}

/// The decimal digits of `n`, most significant first, without leading zeros.
pub open spec fn spec_digits(n: nat) -> Seq<u8>
    decreases n,
{
    if n < 10 {
        seq![(48 + n) as u8]
    } else {
        spec_digits(n / 10).push((48 + n % 10) as u8)
    }
}

/// The decimal spelling of `n`, with a '-' in front when it is negative.
pub open spec fn spec_decimal(n: int) -> Seq<u8> {
    if n < 0 {
        seq![45u8] + spec_digits((-n) as nat)
    } else {
        spec_digits(n as nat)
    }
}

/// The bytes that stand for a frame on the wire.
pub open spec fn spec_serialize(f: SpecFrame) -> Seq<u8>
    decreases f,
{
    match f {
        SpecFrame::Simple(s) => seq![43u8] + encode_utf8(s) + crlf(),
        SpecFrame::Error(s) => seq![45u8] + encode_utf8(s) + crlf(),
        SpecFrame::Integer(n) => seq![58u8] + spec_decimal(n as int) + crlf(),
        SpecFrame::Bulk(b) => seq![36u8] + spec_decimal(b.len() as int) + crlf() + b + crlf(),
        SpecFrame::Array(frames) => seq![42u8] + spec_decimal(frames.len() as int) + crlf()
            + spec_serialize_all(frames),
        SpecFrame::Null => seq![36u8, 45u8, 49u8, CR, LF],
    }
}

/// The bytes of several frames, one after another.
pub open spec fn spec_serialize_all(frames: Seq<SpecFrame>) -> Seq<u8>
    decreases frames,
{
    if frames.len() == 0 {
        Seq::empty()
    } else {
        spec_serialize_all(frames.drop_last()) + spec_serialize(frames.last())
    }
}

/// Every line that `find_cr` finds lies within the buffer.
pub proof fn lemma_find_cr_bounds(buf: Seq<u8>, i: int)
    requires
        0 <= i <= buf.len(),
    ensures
        i <= find_cr(buf, i) <= buf.len(),
        find_cr(buf, i) < buf.len() ==> buf[find_cr(buf, i)] == CR,
        forall|j: int| i <= j < find_cr(buf, i) ==> buf[j] != CR,
    decreases buf.len() - i,
{
    if i < buf.len() && buf[i] != CR {
        lemma_find_cr_bounds(buf, i + 1);
    }
}

/// One value of the wire protocol.
#[derive(Debug, PartialEq)]
pub enum Frame {
    Simple(String),
    Error(String),
    Integer(i64),
    Bulk(Bytes),
    Array(Vec<Frame>),
    Null,
}

/// The mathematical value of a frame.
pub enum SpecFrame {
    Simple(Seq<char>),
    Error(Seq<char>),
    Integer(i64),
    Bulk(Seq<u8>),
    Array(Seq<SpecFrame>),
    Null,
}

/// The value of a frame.
pub open spec fn frame_view(f: Frame) -> SpecFrame
    decreases f,
{
    match f {
        Frame::Simple(s) => SpecFrame::Simple(s@),
        Frame::Error(s) => SpecFrame::Error(s@),
        Frame::Integer(n) => SpecFrame::Integer(n),
        Frame::Bulk(b) => SpecFrame::Bulk(bytes_view(b)),
        Frame::Array(v) => {
            proof {
                assert(decreases_to!(f => v));
                assert(decreases_to!(v => v@));
            }
            SpecFrame::Array(frames_view(v@))
        },
        Frame::Null => SpecFrame::Null,
    }
}

/// The values of a sequence of frames.
pub open spec fn frames_view(s: Seq<Frame>) -> Seq<SpecFrame>
    decreases s,
{
    if s.len() == 0 {
        Seq::empty()
    } else {
        frames_view(s.drop_last()).push(frame_view(s.last()))
    }
}

impl View for Frame {
    type V = SpecFrame;

    open spec fn view(&self) -> SpecFrame {
        frame_view(*self)
    }
}

/// The values of a sequence of frames are as many as the frames.
pub proof fn lemma_frames_view_len(s: Seq<Frame>)
    ensures
        frames_view(s).len() == s.len(),
        forall|i: int| 0 <= i < s.len() ==> #[trigger] frames_view(s)[i] == s[i]@,
    decreases s.len(),
{
    if s.len() > 0 {
        lemma_frames_view_len(s.drop_last());
    }
}

/// Appends every byte of `data` to `out`.
fn extend_bytes(out: &mut Vec<u8>, data: &[u8])
    ensures
        final(out)@ == old(out)@ + data@,
{
    let ghost start = out@;
    let mut i: usize = 0;
    while i < data.len()
        invariant
            i <= data.len(),
            out@ == start + data@.take(i as int),
        decreases data.len() - i,
    {
        out.push(data[i]);
        assert(data@.take(i + 1) =~= data@.take(i as int).push(data@[i as int]));
        i = i + 1;
    }
    assert(data@.take(data.len() as int) =~= data@);
}

/// Appends the decimal digits of `n` to `out`.
fn write_digits(n: u128, out: &mut Vec<u8>)
    ensures
        final(out)@ == old(out)@ + spec_digits(n as nat),
    decreases n,
{
    if n >= 10 {
        write_digits(n / 10, out);
    }
    out.push((48 + n % 10) as u8);
}

/// Appends the decimal spelling of `n` to `out`.
fn write_decimal(n: i128, out: &mut Vec<u8>)
    requires
        -0x1_0000_0000_0000_0000 <= n <= 0x1_0000_0000_0000_0000,
    ensures
        final(out)@ == old(out)@ + spec_decimal(n as int),
{
    if n < 0 {
        out.push(45);
        write_digits((0 - n) as u128, out);
    } else {
        write_digits(n as u128, out);
    }
}

impl Frame {
    /// Reads one line ending in "\r\n" from `src` and returns its bytes
    /// without the "\r\n", leaving `src` after it.
    ///
    /// # Errors
    /// `Error::Incomplete` when no "\r\n" follows yet, `Error::Other` when a
    /// '\r' is followed by another byte; `src` does not move on an error.
    pub fn get_line<'a>(src: &mut Cursor<'a>) -> (r: Result<&'a [u8], Error>)
        ensures
            final(src)@.0 == old(src)@.0,
            ({
                let (res, p) = spec_get_line(old(src)@.0, old(src)@.1);
                &&& final(src)@.1 == p
                &&& match r {
                    Ok(line) => res == Ok::<Seq<u8>, Error>(line@),
                    Err(e) => res == Err::<Seq<u8>, Error>(e),
                }
            }),
    {
        src.check_bounds();
        let ghost buf = src@.0;
        let ghost pos = src@.1;
        let line = src.chunk();
        let len = line.len();
        let mut index: usize = 0;
        while index < len && line[index] != CR
            invariant
                0 <= pos <= buf.len(),
                line@ == buf.subrange(pos, buf.len() as int),
                len == line@.len(),
                index <= len,
                find_cr(buf, pos) == find_cr(buf, pos + index),
            decreases len - index,
        {
            assert(find_cr(buf, pos + index) == find_cr(buf, pos + index + 1));
            index = index + 1;
        }
        assert(find_cr(buf, pos) == pos + index);
        if index >= len || index + 1 >= len {
            return Err(Error::Incomplete);
        }
        if line[index + 1] != LF {
            return Err(Error::Other("Wrong message: '\r' not followed by '\n'"));
        }
        let result = &line[0..index];
        assert(result@ == buf.subrange(pos, pos + index));
        src.advance(index + 2);
        Ok(result)
    }

    /// Checks whether `src` holds a whole frame from its position on, and
    /// leaves `src` where the check stopped.
    ///
    /// # Errors
    /// `Error::Incomplete` when the bytes end before the frame does,
    /// `Error::Other` when they cannot begin a frame.
    #[verifier::loop_isolation(false)]
    pub fn check(src: &mut Cursor<'_>) -> (r: Result<(), Error>)
        ensures
            final(src)@.0 == old(src)@.0,
            (r, final(src)@.1) == spec_check(old(src)@.0, old(src)@.1),
            r is Ok ==> old(src)@.1 < final(src)@.1,
        decreases old(src)@.0.len() - old(src)@.1,
    {
        src.check_bounds();
        let ghost buf = src@.0;
        let ghost pos = src@.1;
        if !src.has_remaining() {
            return Err(Error::Incomplete);
        }
        let first = src.get_u8();
        if first == 43 || first == 45 || first == 58 {
            let _line = Frame::get_line(src)?;
            proof {
                lemma_get_line_progress(buf, pos + 1);
            }
            return Ok(());
        }
        if first == 36 {
            let length = Frame::get_decimal(src)?;
            proof {
                lemma_get_line_progress(buf, pos + 1);
            }
            if length == -1 {
                return Ok(());
            }
            if length >= 0 {
                if length as u64 > usize::MAX as u64 {
                    return Err(Error::Other("Wrong message: Length overflow"));
                }
                let length_u = length as usize;
                if src.remaining() >= length_u {
                    src.advance(length_u);
                    if !src.has_remaining() {
                        return Err(Error::Incomplete);
                    }
                    if src.get_u8() != CR {
                        return Err(Error::Other("Wrong message: Invalid ending for bulk string"));
                    }
                    if !src.has_remaining() {
                        return Err(Error::Incomplete);
                    }
                    if src.get_u8() != LF {
                        return Err(Error::Other("Wrong message: Invalid ending for bulk string"));
                    }
                    return Ok(());
                }
                return Err(Error::Incomplete);
            }
            return Err(Error::Other("Wrong message: Invalid length for bulk string"));
        }
        if first == 42 {
            let size = Frame::get_decimal(src)?;
            proof {
                lemma_get_line_progress(buf, pos + 1);
            }
            if size == -1 {
                return Ok(());
            }
            if size >= 0 {
                src.check_bounds();
                let mut i: i64 = 0;
                while i < size
                    invariant
                        0 <= i <= size,
                        src@.0 == buf,
                        pos < src@.1 <= buf.len(),
                        spec_check(buf, pos) == spec_check_n(buf, src@.1, (size - i) as nat),
                    decreases size - i,
                {
                    let ghost cur = src@.1;
                    match Frame::check(src) {
                        Ok(()) => {},
                        Err(e) => {
                            return Err(e);
                        },
                    }
                    src.check_bounds();
                    i = i + 1;
                }
                return Ok(());
            }
            return Err(Error::Other("Wrong message: Invalid size for array"));
        }
        Err(Error::Other("Wrong message: Invalid first byte"))
    }

    /// Parses one frame from `src`, leaving `src` after it.
    ///
    /// # Errors
    /// `Error::Incomplete` when the bytes end before the frame does,
    /// `Error::Other` when they do not form a frame the parser accepts.
    #[verifier::loop_isolation(false)]
    pub fn parse(src: &mut Cursor<'_>) -> (r: Result<Frame, Error>)
        ensures
            final(src)@.0 == old(src)@.0,
            ({
                let (res, p) = spec_parse(old(src)@.0, old(src)@.1);
                &&& final(src)@.1 == p
                &&& match r {
                    Ok(f) => res == Ok::<SpecFrame, Error>(f@),
                    Err(e) => res == Err::<SpecFrame, Error>(e),
                }
            }),
            r is Ok ==> old(src)@.1 < final(src)@.1,
        decreases old(src)@.0.len() - old(src)@.1,
    {
        src.check_bounds();
        let ghost buf = src@.0;
        let ghost pos = src@.1;
        if !src.has_remaining() {
            return Err(Error::Incomplete);
        }
        let first = src.get_u8();
        if first == 43 || first == 45 {
            let content = Frame::get_line(src)?;
            proof {
                lemma_get_line_progress(buf, pos + 1);
            }
            let text = match utf8_to_string(vstd::slice::slice_to_vec(content)) {
                Some(t) => t,
                None => {
                    return Err(Error::Other("Wrong message: Invalid UTF-8"));
                },
            };
            if first == 43 {
                return Ok(Frame::Simple(text));
            } else {
                return Ok(Frame::Error(text));
            }
        }
        if first == 58 {
            let n = Frame::get_decimal(src)?;
            proof {
                lemma_get_line_progress(buf, pos + 1);
            }
            return Ok(Frame::Integer(n));
        }
        if first == 36 {
            let length = Frame::get_decimal(src)?;
            proof {
                lemma_get_line_progress(buf, pos + 1);
            }
            if length >= 0 {
                if length as u64 > usize::MAX as u64 {
                    return Err(Error::Other("Wrong message: Length overflow"));
                }
                let length_u = length as usize;
                let rest = src.chunk();
                if rest.len() < length_u {
                    return Err(Error::Incomplete);
                }
                let piece = &rest[0..length_u];
                assert(piece@ =~= buf.subrange(src@.1, src@.1 + length));
                src.advance(length_u);
                if !src.has_remaining() {
                    return Err(Error::Incomplete);
                }
                if src.get_u8() != CR {
                    return Err(Error::Other("Wrong message: Invalid ending for bulk string"));
                }
                if !src.has_remaining() {
                    return Err(Error::Incomplete);
                }
                if src.get_u8() != LF {
                    return Err(Error::Other("Wrong message: Invalid ending for bulk string"));
                }
                let data = bytes_copy_from_slice(piece);
                return Ok(Frame::Bulk(data));
            }
            if length == -1 {
                return Ok(Frame::Null);
            }
            return Err(Error::Other("Wrong message: Invalid length for bulk string"));
        }
        if first == 42 {
            let size = Frame::get_decimal(src)?;
            proof {
                lemma_get_line_progress(buf, pos + 1);
            }
            if size >= 0 {
                if size as u64 > usize::MAX as u64 {
                    return Err(Error::Other("Wrong message: Length overflow"));
                }
                let size_u = size as usize;
                if size_u >= 1024 {
                    return Err(Error::Other("Wrong message: size out of memory"));
                }
                src.check_bounds();
                let ghost start = src@.1;
                let mut result: Vec<Frame> = Vec::with_capacity(size_u);
                let mut i: usize = 0;
                proof {
                    if let (Ok(frames), _) = spec_parse_n(buf, start, size as nat) {
                        assert(Seq::<SpecFrame>::empty() + frames =~= frames);
                    }
                }
                while i < size_u
                    invariant
                        0 <= i <= size_u,
                        size_u == size,
                        src@.0 == buf,
                        pos < start <= src@.1 <= buf.len(),
                        spec_parse_n(buf, start, size as nat) == prepend_frames(
                            frames_view(result@),
                            spec_parse_n(buf, src@.1, (size - i) as nat),
                        ),
                    decreases size_u - i,
                {
                    let ghost cur = src@.1;
                    let ghost done = frames_view(result@);
                    let ghost k = (size - i) as nat;
                    let frame = match Frame::parse(src) {
                        Ok(f) => f,
                        Err(e) => {
                            return Err(e);
                        },
                    };
                    src.check_bounds();
                    let ghost p = src@.1;
                    proof {
                        let rest = spec_parse_n(buf, p, (k - 1) as nat);
                        assert(spec_parse_n(buf, cur, k) == prepend_frames(seq![frame@], rest));
                        match rest {
                            (Ok(frames), q) => {
                                assert(done + (seq![frame@] + frames) =~= done.push(frame@) + frames);
                            },
                            (Err(e), q) => {},
                        }
                    }
                    let ghost old_result = result@;
                    let ghost fv = frame@;
                    result.push(frame);
                    proof {
                        assert(result@.drop_last() =~= old_result);
                        assert(frames_view(result@) == done.push(fv));
                    }
                    i = i + 1;
                }
                return Ok(Frame::Array(result));
            }
            if size == -1 {
                return Ok(Frame::Null);
            }
            return Err(Error::Other("Wrong message: Invalid size for array"));
        }
        Err(Error::Other("Wrong message: Invalid first byte"))
    }

    /// The bytes that stand for this frame on the wire.
    pub fn encode(&self) -> (out: Vec<u8>)
        ensures
            out@ == spec_serialize(self@),
    {
        let mut out: Vec<u8> = Vec::new();
        self.write_to(&mut out);
        assert(out@ =~= Seq::<u8>::empty() + spec_serialize(self@));
        out
    }

    /// Appends the bytes that stand for this frame to `out`.
    pub fn write_to(&self, out: &mut Vec<u8>)
        ensures
            final(out)@ == old(out)@ + spec_serialize(self@),
        decreases self,
    {
        let ghost start = out@;
        match self {
            Frame::Simple(text) => {
                out.push(43);
                extend_bytes(out, text.as_str().as_bytes());
                out.push(CR);
                out.push(LF);
                assert(out@ =~= start + spec_serialize(self@));
            },
            Frame::Error(text) => {
                out.push(45);
                extend_bytes(out, text.as_str().as_bytes());
                out.push(CR);
                out.push(LF);
                assert(out@ =~= start + spec_serialize(self@));
            },
            Frame::Integer(n) => {
                out.push(58);
                write_decimal(*n as i128, out);
                out.push(CR);
                out.push(LF);
                assert(out@ =~= start + spec_serialize(self@));
            },
            Frame::Bulk(data) => {
                let slice = bytes_as_slice(data);
                out.push(36);
                write_decimal(slice.len() as i128, out);
                out.push(CR);
                out.push(LF);
                extend_bytes(out, slice);
                out.push(CR);
                out.push(LF);
                assert(out@ =~= start + spec_serialize(self@));
            },
            Frame::Array(frames) => {
                out.push(42);
                write_decimal(frames.len() as i128, out);
                out.push(CR);
                out.push(LF);
                let ghost header = out@;
                let mut i: usize = 0;
                assert(frames@.take(0) =~= Seq::<Frame>::empty());
                assert(header =~= header + spec_serialize_all(frames_view(frames@.take(0))));
                while i < frames.len()
                    invariant
                        i <= frames.len(),
                        out@ == header + spec_serialize_all(frames_view(frames@.take(i as int))),
                        *self == Frame::Array(*frames),
                    decreases frames.len() - i,
                {
                    let item = &frames[i];
                    proof {
                        assert(*self == Frame::Array(*frames));
                        assert(decreases_to!(*self => self->Array_0));
                        assert(decreases_to!(self->Array_0 => frames@));
                        assert(decreases_to!(frames@ => frames@[i as int]));
                    }
                    item.write_to(out);
                    proof {
                        let next = frames@.take(i + 1);
                        assert(next.drop_last() =~= frames@.take(i as int));
                        assert(frames_view(next) == frames_view(frames@.take(i as int)).push(frames@[i as int]@));
                        assert(frames_view(next).drop_last() =~= frames_view(frames@.take(i as int)));
                    }
                    i = i + 1;
                }
                assert(frames@.take(frames.len() as int) =~= frames@);
                proof { lemma_frames_view_len(frames@); }
                assert(out@ =~= start + spec_serialize(self@));
            },
            Frame::Null => {
                out.push(36);
                out.push(45);
                out.push(49);
                out.push(CR);
                out.push(LF);
                assert(out@ =~= start + spec_serialize(self@));
            },
        }
    }

    /// Reads one line from `src` as a decimal integer.
    ///
    /// # Errors
    /// The errors of `get_line`, or those of `decimal_of_line` with `src`
    /// left after the line.
    pub fn get_decimal(src: &mut Cursor<'_>) -> (r: Result<i64, Error>)
        ensures
            final(src)@.0 == old(src)@.0,
            (r, final(src)@.1) == spec_get_decimal(old(src)@.0, old(src)@.1),
    {
        let line = Frame::get_line(src)?;
        Frame::decimal_of_line(line)
    }

    /// The integer that a whole line spells.
    ///
    /// # Errors
    /// `Error::Other` when the line is empty, is not an optional '-'
    /// followed by at least one digit, or spells a number outside the range
    /// of `i64`.
    pub fn decimal_of_line(line: &[u8]) -> (r: Result<i64, Error>)
        ensures
            r == decimal_value(line@),
    {
        let len = line.len();
        if len == 0 {
            return Err(Error::Other("Wrong message: Empty line"));
        }
        let negative = line[0] == 45;
        if !negative && !(48 <= line[0] && line[0] <= 57) {
            return Err(Error::Other("Wrong message: Not a number"));
        }
        if negative && len == 1 {
            return Err(Error::Other("Wrong message: Not a number"));
        }
        let start: usize = if negative { 1 } else { 0 };
        let ghost digits = line@.subrange(start as int, len as int);
        assert(negative ==> digits =~= line@.drop_first());
        assert(!negative ==> digits =~= line@);
        let mut i: usize = start;
        while i < len
            invariant
                start <= i <= len,
                len == line@.len(),
                digits == line@.subrange(start as int, len as int),
                len >= 1,
                negative == (line@[0] == 45),
                start == (if negative { 1usize } else { 0usize }),
                negative ==> digits == line@.drop_first() && digits.len() > 0,
                !negative ==> digits == line@ && is_digit(line@[0]),
                forall|j: int| 0 <= j < i - start ==> is_digit(#[trigger] digits[j]),
            decreases len - i,
        {
            if !(48 <= line[i] && line[i] <= 57) {
                assert(!is_digit(digits[i - start]));
                return Err(Error::Other("Wrong message: Not a number"));
            }
            i = i + 1;
        }
        assert(all_digits(digits));
        let limit: u128 = if negative { 9223372036854775808 } else { 9223372036854775807 };
        let mut magnitude: u128 = 0;
        i = start;
        assert(digits.take(0) =~= Seq::<u8>::empty());
        while i < len
            invariant
                start <= i <= len,
                len == line@.len(),
                digits == line@.subrange(start as int, len as int),
                len >= 1,
                negative == (line@[0] == 45),
                start == (if negative { 1usize } else { 0usize }),
                negative ==> digits == line@.drop_first() && digits.len() > 0,
                !negative ==> digits == line@ && is_digit(line@[0]),
                all_digits(digits),
                magnitude == digits_value(digits.take(i - start)),
                magnitude <= limit,
                limit <= 9223372036854775808,
                limit == (if negative { 9223372036854775808u128 } else { 9223372036854775807u128 }),
            decreases len - i,
        {
            proof {
                lemma_digits_value_step(digits, i - start);
                assert(is_digit(digits[i - start]));
            }
            magnitude = magnitude * 10 + (line[i] - 48) as u128;
            if magnitude > limit {
                proof {
                    lemma_digits_value_prefix(digits, i - start + 1);
                }
                return Err(Error::Other("Wrong message: Number out of range"));
            }
            i = i + 1;
        }
        assert(digits.take(len - start) =~= digits);
        if negative {
            Ok((0i128 - magnitude as i128) as i64)
        } else {
            Ok(magnitude as i64)
        }
    }
}

} // verus!

verus! {

/// Whether a frame can travel over the wire and be read back: its simple
/// and error strings hold no '\r', its bulk strings fit a length the reader
/// accepts, and its arrays hold fewer than 1024 frames that can travel too.
pub open spec fn encodable(f: SpecFrame) -> bool
    decreases f,
{
    match f {
        SpecFrame::Simple(s) => !encode_utf8(s).contains(CR),
        SpecFrame::Error(s) => !encode_utf8(s).contains(CR),
        SpecFrame::Integer(_) => true,
        SpecFrame::Bulk(b) => b.len() <= i64::MAX && b.len() <= usize::MAX,
        SpecFrame::Array(frames) => frames.len() < 1024 && forall|i: int|
            0 <= i < frames.len() ==> encodable(#[trigger] frames[i]),
        SpecFrame::Null => true,
    }
}

/// The first carriage return from `i` on is at `j` when none comes before.
pub proof fn lemma_find_cr_at(buf: Seq<u8>, i: int, j: int)
    requires
        0 <= i <= j < buf.len(),
        buf[j] == CR,
        forall|k: int| i <= k < j ==> buf[k] != CR,
    ensures
        find_cr(buf, i) == j,
    decreases j - i,
{
    if i < j {
        lemma_find_cr_at(buf, i + 1, j);
    }
}

/// A line written as `line` followed by "\r\n", with no '\r' inside, is read
/// back whole.
pub proof fn lemma_get_line_written(buf: Seq<u8>, pos: int, line: Seq<u8>)
    requires
        0 <= pos,
        pos + line.len() + 2 <= buf.len(),
        buf.subrange(pos, pos + line.len() + 2) == line + crlf(),
        !line.contains(CR),
    ensures
        spec_get_line(buf, pos) == (Ok::<Seq<u8>, Error>(line), pos + line.len() + 2),
{
    let end = pos + line.len();
    assert forall|k: int| pos <= k < end implies buf[k] != CR by {
        assert(buf[k] == buf.subrange(pos, end + 2)[k - pos]);
        assert(buf[k] == line[k - pos]);
        if buf[k] == CR {
            assert(line.contains(CR));
        }
    }
    assert(buf[end] == buf.subrange(pos, end + 2)[end - pos]);
    assert(buf[end + 1] == buf.subrange(pos, end + 2)[end + 1 - pos]);
    lemma_find_cr_at(buf, pos, end);
    assert(buf.subrange(pos, end) =~= buf.subrange(pos, end + 2).subrange(0, line.len() as int));
    assert((line + crlf()).subrange(0, line.len() as int) =~= line);
}

/// The digits of a number are digits, spell that number, and are not empty.
pub proof fn lemma_spec_digits(n: nat)
    ensures
        all_digits(spec_digits(n)),
        digits_value(spec_digits(n)) == n,
        spec_digits(n).len() >= 1,
    decreases n,
{
    if n >= 10 {
        lemma_spec_digits(n / 10);
        let d = spec_digits(n);
        assert(d.drop_last() =~= spec_digits(n / 10));
        assert(d.last() == (48 + n % 10) as u8);
        assert(((48 + n % 10) as u8) as int == 48 + n % 10);
        assert((n / 10) * 10 + n % 10 == n) by (nonlinear_arith);
        assert(digits_value(d) == digits_value(d.drop_last()) * 10 + (d.last() - 48));
        assert forall|i: int| 0 <= i < d.len() implies is_digit(#[trigger] d[i]) by {
            if i < d.len() - 1 {
                assert(d[i] == spec_digits(n / 10)[i]);
            }
        }
    } else {
        assert(spec_digits(n).drop_last() =~= Seq::<u8>::empty());
        assert(((48 + n) as u8) as int == 48 + n);
        assert(digits_value(Seq::<u8>::empty()) == 0);
        assert(digits_value(spec_digits(n)) == digits_value(spec_digits(n).drop_last()) * 10 + (spec_digits(n).last() - 48));
    }
}

/// A spelled decimal holds no '\r' and reads back as the same number.
pub proof fn lemma_decimal_roundtrip(n: int)
    requires
        i64::MIN <= n <= i64::MAX,
    ensures
        decimal_value(spec_decimal(n)) == Ok::<i64, Error>(n as i64),
        !spec_decimal(n).contains(CR),
        spec_decimal(n).len() >= 1,
{
    if n < 0 {
        let m = (-n) as nat;
        lemma_spec_digits(m);
        let line = spec_decimal(n);
        assert(line.drop_first() =~= spec_digits(m));
        assert forall|i: int| 0 <= i < line.len() implies line[i] != CR by {
            if i > 0 {
                assert(line[i] == spec_digits(m)[i - 1]);
                assert(is_digit(spec_digits(m)[i - 1]));
            }
        }
    } else {
        lemma_spec_digits(n as nat);
        let line = spec_decimal(n);
        assert forall|i: int| 0 <= i < line.len() implies line[i] != CR by {
            assert(is_digit(line[i]));
        }
        assert(is_digit(line[0]));
    }
}

/// A decimal written with its "\r\n" at `pos` is read back as that number.
pub proof fn lemma_get_decimal_written(buf: Seq<u8>, pos: int, n: int)
    requires
        i64::MIN <= n <= i64::MAX,
        0 <= pos,
        pos + spec_decimal(n).len() + 2 <= buf.len(),
        buf.subrange(pos, pos + spec_decimal(n).len() + 2) == spec_decimal(n) + crlf(),
    ensures
        spec_get_decimal(buf, pos) == (Ok::<i64, Error>(n as i64), pos + spec_decimal(n).len() + 2),
{
    lemma_decimal_roundtrip(n);
    lemma_get_line_written(buf, pos, spec_decimal(n));
}

/// The bytes of several frames are the first frame's bytes and then the rest.
pub proof fn lemma_serialize_all_first(frames: Seq<SpecFrame>)
    requires
        frames.len() > 0,
    ensures
        spec_serialize_all(frames) == spec_serialize(frames[0]) + spec_serialize_all(frames.drop_first()),
    decreases frames.len(),
{
    if frames.len() == 1 {
        assert(frames.drop_last() =~= Seq::<SpecFrame>::empty());
        assert(frames.drop_first() =~= Seq::<SpecFrame>::empty());
        assert(spec_serialize_all(Seq::<SpecFrame>::empty()) =~= Seq::<u8>::empty());
        assert(spec_serialize_all(frames) =~= spec_serialize(frames[0]));
    } else {
        lemma_serialize_all_first(frames.drop_last());
        assert(frames.drop_last().drop_first() =~= frames.drop_first().drop_last());
        assert(frames.drop_last()[0] == frames[0]);
        assert(frames.drop_first().last() == frames.last());
    }
}

/// Reading back what was written: a frame that can travel, written at `pos`,
/// is parsed as the same frame, and parsing stops right after its bytes.
#[verifier::rlimit(60)]
pub proof fn lemma_parse_serialize(f: SpecFrame, buf: Seq<u8>, pos: int)
    requires
        encodable(f),
        0 <= pos,
        pos + spec_serialize(f).len() <= buf.len(),
        buf.subrange(pos, pos + spec_serialize(f).len()) == spec_serialize(f),
    ensures
        spec_parse(buf, pos) == (Ok::<SpecFrame, Error>(f), pos + spec_serialize(f).len()),
    decreases f,
{
    let ser = spec_serialize(f);
    let p1 = pos + 1;
    assert(buf[pos] == ser[0]);
    match f {
        SpecFrame::Simple(s) => {
            let line = encode_utf8(s);
            assert(buf.subrange(p1, p1 + line.len() as int + 2) =~= ser.subrange(1, ser.len() as int));
            assert(ser.subrange(1, ser.len() as int) =~= line + crlf());
            lemma_get_line_written(buf, p1, line);
            vstd::utf8::encode_utf8_valid_utf8(s);
            vstd::utf8::encode_utf8_decode_utf8(s);
        },
        SpecFrame::Error(s) => {
            let line = encode_utf8(s);
            assert(buf.subrange(p1, p1 + line.len() as int + 2) =~= ser.subrange(1, ser.len() as int));
            assert(ser.subrange(1, ser.len() as int) =~= line + crlf());
            lemma_get_line_written(buf, p1, line);
            vstd::utf8::encode_utf8_valid_utf8(s);
            vstd::utf8::encode_utf8_decode_utf8(s);
        },
        SpecFrame::Integer(n) => {
            let line = spec_decimal(n as int);
            assert(buf.subrange(p1, p1 + line.len() as int + 2) =~= ser.subrange(1, ser.len() as int));
            assert(ser.subrange(1, ser.len() as int) =~= line + crlf());
            lemma_get_decimal_written(buf, p1, n as int);
        },
        SpecFrame::Bulk(b) => {
            let line = spec_decimal(b.len() as int);
            let p = p1 + line.len() as int + 2;
            assert(buf.subrange(p1, p) =~= ser.subrange(1, 1 + line.len() as int + 2));
            assert(ser.subrange(1, 1 + line.len() as int + 2) =~= line + crlf());
            lemma_get_decimal_written(buf, p1, b.len() as int);
            assert(buf.subrange(p, p + b.len()) =~= ser.subrange(p - pos, p - pos + b.len()));
            assert(ser.subrange(p - pos, p - pos + b.len()) =~= b);
            let q = p + b.len();
            assert(ser.len() == q - pos + 2);
            assert(buf[q] == ser[q - pos]);
            assert(buf[q + 1] == ser[q - pos + 1]);
            assert(ser[q - pos] == CR);
            assert(ser[q - pos + 1] == LF);
        },
        SpecFrame::Array(frames) => {
            let line = spec_decimal(frames.len() as int);
            let p = p1 + line.len() as int + 2;
            assert(buf.subrange(p1, p) =~= ser.subrange(1, 1 + line.len() as int + 2));
            assert(ser.subrange(1, 1 + line.len() as int + 2) =~= line + crlf());
            lemma_get_decimal_written(buf, p1, frames.len() as int);
            let body = spec_serialize_all(frames);
            assert(buf.subrange(p, p + body.len()) =~= ser.subrange(p - pos, ser.len() as int));
            assert(ser.subrange(p - pos, ser.len() as int) =~= body);
            lemma_parse_serialize_all(frames, buf, p);
        },
        SpecFrame::Null => {
            let line = seq![45u8, 49u8];
            assert(buf.subrange(p1, p1 + 4) =~= ser.subrange(1, 5));
            assert(spec_decimal(-1) =~= line);
            assert(ser.subrange(1, 5) =~= spec_decimal(-1) + crlf());
            lemma_get_decimal_written(buf, p1, -1);
        },
    }
}

/// Frames that can travel, written one after another at `pos`, are parsed
/// back in order.
pub proof fn lemma_parse_serialize_all(frames: Seq<SpecFrame>, buf: Seq<u8>, pos: int)
    requires
        forall|i: int| 0 <= i < frames.len() ==> encodable(#[trigger] frames[i]),
        0 <= pos,
        pos + spec_serialize_all(frames).len() <= buf.len(),
        buf.subrange(pos, pos + spec_serialize_all(frames).len()) == spec_serialize_all(frames),
    ensures
        spec_parse_n(buf, pos, frames.len()) == (
            Ok::<Seq<SpecFrame>, Error>(frames),
            pos + spec_serialize_all(frames).len(),
        ),
    decreases frames,
{
    if frames.len() > 0 {
        lemma_serialize_all_first(frames);
        let first = frames[0];
        let rest = frames.drop_first();
        let a = spec_serialize(first);
        let all = spec_serialize_all(frames);
        assert(encodable(first));
        assert(buf.subrange(pos, pos + a.len()) =~= all.subrange(0, a.len() as int));
        assert(all.subrange(0, a.len() as int) =~= a);
        lemma_parse_serialize(first, buf, pos);
        assert forall|i: int| 0 <= i < rest.len() implies encodable(#[trigger] rest[i]) by {
            assert(rest[i] == frames[i + 1]);
        }
        let q = pos + a.len();
        assert(buf.subrange(q, q + spec_serialize_all(rest).len()) =~= all.subrange(
            a.len() as int,
            all.len() as int,
        ));
        assert(all.subrange(a.len() as int, all.len() as int) =~= spec_serialize_all(rest));
        lemma_serialize_nonempty(first);
        lemma_parse_serialize_all(rest, buf, q);
        assert(seq![first] + rest =~= frames);
    } else {
        assert(frames =~= Seq::<SpecFrame>::empty());
    }
}

/// Every frame is written with at least one byte.
pub proof fn lemma_serialize_nonempty(f: SpecFrame)
    ensures
        spec_serialize(f).len() >= 1,
{
}

} // verus!

verus! {

/// A frame that passes `check` is parsed up to the same position; when the
/// parser refuses it instead, it is for a reason the check does not look at
/// (text that is not UTF-8, an integer line that is not a number, an array
/// of 1024 frames or more), never for want of bytes or for its first byte.
pub proof fn law_check_then_parse(buf: Seq<u8>, pos: int)
    requires
        0 <= pos <= buf.len(),
        spec_check(buf, pos).0 is Ok,
    ensures
        spec_parse(buf, pos).0 is Ok ==> spec_parse(buf, pos).1 == spec_check(buf, pos).1,
        spec_parse(buf, pos).0 matches Err(e) ==> e is Other && e != Error::Other(
            "Wrong message: Invalid first byte",
        ),
    decreases buf.len() - pos, 0int, 0int,
{
    if pos < buf.len() {
        let first = buf[pos];
        lemma_get_line_progress(buf, pos + 1);
        if first == 42 {
            let (size_r, p) = spec_get_decimal(buf, pos + 1);
            if let Ok(size) = size_r {
                if size >= 0 && pos < p <= buf.len() {
                    law_check_then_parse_n(buf, p, size as nat);
                }
            }
        }
    }
}

/// The same for `n` frames one after another.
pub proof fn law_check_then_parse_n(buf: Seq<u8>, pos: int, n: nat)
    requires
        0 <= pos <= buf.len(),
        spec_check_n(buf, pos, n).0 is Ok,
    ensures
        spec_parse_n(buf, pos, n).0 is Ok ==> spec_parse_n(buf, pos, n).1 == spec_check_n(buf, pos, n).1,
        spec_parse_n(buf, pos, n).0 matches Err(e) ==> e is Other && e != Error::Other(
            "Wrong message: Invalid first byte",
        ),
    decreases buf.len() - pos, 1int, n,
{
    if n > 0 {
        law_check_then_parse(buf, pos);
        let p = spec_check(buf, pos).1;
        if pos < p <= buf.len() {
            law_check_then_parse_n(buf, p, (n - 1) as nat);
        }
    }
}

} // verus!

verus! {

/// Where the bytes stop before a line and its "\r\n" are complete, reading
/// the line is incomplete.
pub proof fn lemma_get_line_cut(buf: Seq<u8>, pos: int, line: Seq<u8>)
    requires
        0 <= pos <= buf.len(),
        buf.len() < pos + line.len() + 2,
        buf.subrange(pos, buf.len() as int) == (line + crlf()).take(buf.len() - pos),
        !line.contains(CR),
    ensures
        spec_get_line(buf, pos) == (Err::<Seq<u8>, Error>(Error::Incomplete), pos),
{
    let end = if buf.len() < pos + line.len() {
        buf.len() as int
    } else {
        pos + line.len()
    };
    assert forall|k: int| pos <= k < end implies buf[k] != CR by {
        assert(buf[k] == buf.subrange(pos, buf.len() as int)[k - pos]);
        assert(buf[k] == line[k - pos]);
        if buf[k] == CR {
            assert(line.contains(CR));
        }
    }
    if end == buf.len() {
        lemma_find_cr_none(buf, pos);
    } else {
        assert(buf[end] == buf.subrange(pos, buf.len() as int)[end - pos]);
        lemma_find_cr_at(buf, pos, end);
    }
}

/// Where the bytes from `pos` are the start of `ser`, the bytes from
/// `pos + off` are the start of the part of `ser` that begins at `off`.
pub proof fn lemma_prefix_window(buf: Seq<u8>, pos: int, ser: Seq<u8>, off: int, part: Seq<u8>)
    requires
        0 <= pos,
        0 <= off,
        pos + off <= buf.len(),
        buf.len() - pos <= ser.len(),
        buf.subrange(pos, buf.len() as int) == ser.take(buf.len() - pos),
        off + part.len() <= ser.len(),
        ser.subrange(off, off + part.len()) == part,
    ensures
        buf.len() < pos + off + part.len() ==> buf.subrange(pos + off, buf.len() as int) == part.take(
            buf.len() - pos - off,
        ),
        buf.len() >= pos + off + part.len() ==> buf.subrange(pos + off, pos + off + part.len())
            == part,
{
    let n = if buf.len() < pos + off + part.len() {
        buf.len() - pos - off
    } else {
        part.len() as int
    };
    assert forall|k: int| 0 <= k < n implies buf[pos + off + k] == part[k] by {
        assert(buf[pos + off + k] == buf.subrange(pos, buf.len() as int)[off + k]);
        assert(ser.take(buf.len() - pos)[off + k] == ser[off + k]);
        assert(ser[off + k] == ser.subrange(off, off + part.len())[k]);
    }
    if buf.len() < pos + off + part.len() {
        assert(buf.subrange(pos + off, buf.len() as int) =~= part.take(buf.len() - pos - off));
    } else {
        assert(buf.subrange(pos + off, pos + off + part.len()) =~= part);
    }
}

/// Where no carriage return follows `i`, `find_cr` gives the length.
pub proof fn lemma_find_cr_none(buf: Seq<u8>, i: int)
    requires
        0 <= i <= buf.len(),
        forall|k: int| i <= k < buf.len() ==> buf[k] != CR,
    ensures
        find_cr(buf, i) == buf.len(),
    decreases buf.len() - i,
{
    if i < buf.len() {
        lemma_find_cr_none(buf, i + 1);
    }
}

/// Waiting for the rest: when the bytes from `pos` stop before a frame that
/// can travel is complete, parsing reports that the frame is incomplete.
pub proof fn law_parse_cut_frame(f: SpecFrame, buf: Seq<u8>, pos: int)
    requires
        encodable(f),
        0 <= pos <= buf.len(),
        buf.len() < pos + spec_serialize(f).len(),
        buf.subrange(pos, buf.len() as int) == spec_serialize(f).take(buf.len() - pos),
    ensures
        spec_parse(buf, pos).0 == Err::<SpecFrame, Error>(Error::Incomplete),
    decreases f,
{
    if pos < buf.len() {
        let ser = spec_serialize(f);
        let p1 = pos + 1;
        assert(buf[pos] == buf.subrange(pos, buf.len() as int)[0]);
        let (line, body) = match f {
            SpecFrame::Simple(s) => (encode_utf8(s), Seq::<u8>::empty()),
            SpecFrame::Error(s) => (encode_utf8(s), Seq::<u8>::empty()),
            SpecFrame::Integer(n) => (spec_decimal(n as int), Seq::<u8>::empty()),
            SpecFrame::Bulk(b) => (spec_decimal(b.len() as int), b + crlf()),
            SpecFrame::Array(frames) => (spec_decimal(frames.len() as int), spec_serialize_all(frames)),
            SpecFrame::Null => (spec_decimal(-1), Seq::<u8>::empty()),
        };
        assert(f is Null ==> ser =~= seq![36u8] + spec_decimal(-1) + crlf()) by {
            if f is Null {
                assert(spec_decimal(-1) =~= seq![45u8, 49u8]);
            }
        }
        assert(ser =~= seq![ser[0]] + (line + crlf()) + body);
        match f {
            SpecFrame::Integer(n) => lemma_decimal_roundtrip(n as int),
            SpecFrame::Bulk(b) => lemma_decimal_roundtrip(b.len() as int),
            SpecFrame::Array(frames) => lemma_decimal_roundtrip(frames.len() as int),
            SpecFrame::Null => lemma_decimal_roundtrip(-1),
            _ => {},
        }
        let header_end = p1 + line.len() as int + 2;
        assert(ser.subrange(1, 1 + line.len() as int + 2) =~= line + crlf());
        lemma_prefix_window(buf, pos, ser, 1, line + crlf());
        if buf.len() < header_end {
            lemma_get_line_cut(buf, p1, line);
        } else {
            lemma_get_line_written(buf, p1, line);
            assert(ser.subrange(1 + line.len() as int + 2, ser.len() as int) =~= body);
            lemma_prefix_window(buf, pos, ser, 1 + line.len() as int + 2, body);
            match f {
                SpecFrame::Array(frames) => {
                    lemma_parse_cut_all(frames, buf, header_end);
                },
                SpecFrame::Bulk(b) => {
                    let q = header_end + b.len();
                    if q < buf.len() {
                        assert(buf[q] == buf.subrange(pos, buf.len() as int)[q - pos]);
                        assert(ser[q - pos] == body[b.len() as int]);
                        assert(body[b.len() as int] == CR);
                    }
                },
                _ => {},
            }
        }
    }
}

/// The same for frames written one after another: when the bytes stop
/// before the last of them is complete, parsing them is incomplete.
pub proof fn lemma_parse_cut_all(frames: Seq<SpecFrame>, buf: Seq<u8>, pos: int)
    requires
        forall|i: int| 0 <= i < frames.len() ==> encodable(#[trigger] frames[i]),
        0 <= pos <= buf.len(),
        buf.len() < pos + spec_serialize_all(frames).len(),
        buf.subrange(pos, buf.len() as int) == spec_serialize_all(frames).take(buf.len() - pos),
    ensures
        spec_parse_n(buf, pos, frames.len()).0 == Err::<Seq<SpecFrame>, Error>(Error::Incomplete),
    decreases frames,
{
    if frames.len() == 0 {
        assert(spec_serialize_all(frames) =~= Seq::<u8>::empty());
    } else {
        lemma_serialize_all_first(frames);
        let first = frames[0];
        let rest = frames.drop_first();
        let a = spec_serialize(first);
        let all = spec_serialize_all(frames);
        assert(encodable(first));
        assert(all.subrange(0, a.len() as int) =~= a);
        lemma_prefix_window(buf, pos, all, 0, a);
        if buf.len() < pos + a.len() {
            law_parse_cut_frame(first, buf, pos);
        } else {
            lemma_parse_serialize(first, buf, pos);
            lemma_serialize_nonempty(first);
            assert forall|i: int| 0 <= i < rest.len() implies encodable(#[trigger] rest[i]) by {
                assert(rest[i] == frames[i + 1]);
            }
            let q = pos + a.len();
            assert(all.subrange(a.len() as int, all.len() as int) =~= spec_serialize_all(rest));
            lemma_prefix_window(buf, pos, all, a.len() as int, spec_serialize_all(rest));
            lemma_parse_cut_all(rest, buf, q);
        }
    }
}

} // verus!

verus! {

/// A carriage return found before the end stays the first one when bytes
/// are appended.
pub proof fn lemma_find_cr_extend(buf: Seq<u8>, extra: Seq<u8>, i: int)
    requires
        0 <= i <= buf.len(),
        find_cr(buf, i) < buf.len(),
    ensures
        find_cr(buf + extra, i) == find_cr(buf, i),
    decreases buf.len() - i,
{
    assert((buf + extra)[i] == buf[i]);
    if buf[i] != CR {
        lemma_find_cr_extend(buf, extra, i + 1);
    }
}

/// A line that was decided (read or refused) stays so when bytes are
/// appended.
pub proof fn lemma_get_line_extend(buf: Seq<u8>, extra: Seq<u8>, pos: int)
    requires
        0 <= pos <= buf.len(),
        spec_get_line(buf, pos).0 != Err::<Seq<u8>, Error>(Error::Incomplete),
    ensures
        spec_get_line(buf + extra, pos) == spec_get_line(buf, pos),
{
    let cr = find_cr(buf, pos);
    lemma_find_cr_bounds(buf, pos);
    lemma_find_cr_extend(buf, extra, pos);
    assert((buf + extra)[cr + 1] == buf[cr + 1]);
    assert((buf + extra).subrange(pos, cr) =~= buf.subrange(pos, cr));
}

/// A decided decimal line stays so when bytes are appended.
pub proof fn lemma_get_decimal_extend(buf: Seq<u8>, extra: Seq<u8>, pos: int)
    requires
        0 <= pos <= buf.len(),
        spec_get_decimal(buf, pos).0 != Err::<i64, Error>(Error::Incomplete),
    ensures
        spec_get_decimal(buf + extra, pos) == spec_get_decimal(buf, pos),
{
    lemma_get_line_extend(buf, extra, pos);
}

/// Bytes after a decided check never change it: a check that succeeded, or
/// failed for a reason other than missing bytes, gives the same verdict and
/// stops at the same position when more bytes follow.
pub proof fn law_check_extend(buf: Seq<u8>, extra: Seq<u8>, pos: int)
    requires
        0 <= pos <= buf.len(),
        spec_check(buf, pos).0 != Err::<(), Error>(Error::Incomplete),
    ensures
        spec_check(buf + extra, pos) == spec_check(buf, pos),
    decreases buf.len() - pos, 0int, 0int,
{
    let b2 = buf + extra;
    assert(b2[pos] == buf[pos]);
    let first = buf[pos];
    let p1 = pos + 1;
    lemma_get_line_progress(buf, p1);
    if first == 43 || first == 45 || first == 58 {
        lemma_get_line_extend(buf, extra, p1);
    } else if first == 36 || first == 42 {
        lemma_get_decimal_extend(buf, extra, p1);
        let (r, p) = spec_get_decimal(buf, p1);
        if let Ok(n) = r {
            if first == 36 && n >= 0 && n <= usize::MAX && buf.len() - p >= n {
                let q = p + n;
                if q < buf.len() {
                    assert(b2[q] == buf[q]);
                    if q + 1 < buf.len() {
                        assert(b2[q + 1] == buf[q + 1]);
                    }
                }
            }
            if first == 42 && n >= 0 && pos < p <= buf.len() {
                law_check_n_extend(buf, extra, p, n as nat);
            }
        }
    }
}

/// The same for `n` checks one after another.
pub proof fn law_check_n_extend(buf: Seq<u8>, extra: Seq<u8>, pos: int, n: nat)
    requires
        0 <= pos <= buf.len(),
        spec_check_n(buf, pos, n).0 != Err::<(), Error>(Error::Incomplete),
    ensures
        spec_check_n(buf + extra, pos, n) == spec_check_n(buf, pos, n),
    decreases buf.len() - pos, 1int, n,
{
    if n > 0 {
        law_check_extend(buf, extra, pos);
        let p = spec_check(buf, pos).1;
        if spec_check(buf, pos).0 is Ok && pos < p <= buf.len() {
            law_check_n_extend(buf, extra, p, (n - 1) as nat);
        }
    }
}

/// Bytes after a decided parse never change it: a frame that was read, or
/// refused for a reason other than missing bytes, is read or refused the
/// same way, up to the same position, when more bytes follow.
pub proof fn law_parse_extend(buf: Seq<u8>, extra: Seq<u8>, pos: int)
    requires
        0 <= pos <= buf.len(),
        spec_parse(buf, pos).0 != Err::<SpecFrame, Error>(Error::Incomplete),
    ensures
        spec_parse(buf + extra, pos) == spec_parse(buf, pos),
    decreases buf.len() - pos, 0int, 0int,
{
    let b2 = buf + extra;
    assert(b2[pos] == buf[pos]);
    let first = buf[pos];
    let p1 = pos + 1;
    lemma_get_line_progress(buf, p1);
    if first == 43 || first == 45 {
        lemma_get_line_extend(buf, extra, p1);
    } else if first == 58 || first == 36 || first == 42 {
        lemma_get_decimal_extend(buf, extra, p1);
        let (r, p) = spec_get_decimal(buf, p1);
        if let Ok(n) = r {
            if first == 36 && n >= 0 && n <= usize::MAX && buf.len() - p >= n + 2 {
                assert(b2.subrange(p, p + n) =~= buf.subrange(p, p + n));
            }
            if first == 42 && 0 <= n < 1024 && pos < p <= buf.len() {
                law_parse_n_extend(buf, extra, p, n as nat);
            }
        }
    }
}

/// The same for `n` frames one after another.
pub proof fn law_parse_n_extend(buf: Seq<u8>, extra: Seq<u8>, pos: int, n: nat)
    requires
        0 <= pos <= buf.len(),
        spec_parse_n(buf, pos, n).0 != Err::<Seq<SpecFrame>, Error>(Error::Incomplete),
    ensures
        spec_parse_n(buf + extra, pos, n) == spec_parse_n(buf, pos, n),
    decreases buf.len() - pos, 1int, n,
{
    if n > 0 {
        law_parse_extend(buf, extra, pos);
        let p = spec_parse(buf, pos).1;
        if spec_parse(buf, pos).0 is Ok && pos < p <= buf.len() {
            law_parse_n_extend(buf, extra, p, (n - 1) as nat);
        }
    }
}

/// Parsing from `pos` stops within the bytes.
pub proof fn lemma_parse_bounds(buf: Seq<u8>, pos: int)
    requires
        0 <= pos <= buf.len(),
    ensures
        pos <= spec_parse(buf, pos).1 <= buf.len(),
    decreases buf.len() - pos, 0int, 0int,
{
    if pos < buf.len() {
        let first = buf[pos];
        let p1 = pos + 1;
        lemma_get_line_progress(buf, p1);
        if first == 42 {
            let (r, p) = spec_get_decimal(buf, p1);
            if let Ok(n) = r {
                if 0 <= n < 1024 && pos < p <= buf.len() {
                    lemma_parse_n_bounds(buf, p, n as nat);
                }
            }
        }
    }
}

/// The same for `n` frames one after another.
pub proof fn lemma_parse_n_bounds(buf: Seq<u8>, pos: int, n: nat)
    requires
        0 <= pos <= buf.len(),
    ensures
        pos <= spec_parse_n(buf, pos, n).1 <= buf.len(),
    decreases buf.len() - pos, 1int, n,
{
    if n > 0 {
        lemma_parse_bounds(buf, pos);
        let p = spec_parse(buf, pos).1;
        if spec_parse(buf, pos).0 is Ok && pos < p <= buf.len() {
            lemma_parse_n_bounds(buf, p, (n - 1) as nat);
        }
    }
}

/// Waiting for the rest: any bytes that stop before the end of a frame the
/// parser reads parse as incomplete.
pub proof fn law_parse_prefix_incomplete(buf: Seq<u8>, k: int)
    requires
        spec_parse(buf, 0).0 is Ok,
        0 <= k < spec_parse(buf, 0).1,
    ensures
        spec_parse(buf.take(k), 0).0 == Err::<SpecFrame, Error>(Error::Incomplete),
{
    lemma_parse_bounds(buf, 0);
    let head = buf.take(k);
    if spec_parse(head, 0).0 != Err::<SpecFrame, Error>(Error::Incomplete) {
        lemma_parse_bounds(head, 0);
        law_parse_extend(head, buf.skip(k), 0);
        assert(head + buf.skip(k) =~= buf);
    }
}

} // verus!

verus! {

/// Whether a frame can be written and read back, said of its text: simple
/// and error strings hold no '\r', bulk strings and arrays have lengths a
/// reader accepts, and arrays hold fewer than 1024 frames of that kind.
pub open spec fn sendable(f: SpecFrame) -> bool
    decreases f,
{
    match f {
        SpecFrame::Simple(s) => !s.contains('\r'),
        SpecFrame::Error(s) => !s.contains('\r'),
        SpecFrame::Integer(_) => true,
        SpecFrame::Bulk(b) => b.len() <= i64::MAX && b.len() <= usize::MAX,
        SpecFrame::Array(frames) => frames.len() < 1024 && forall|i: int|
            0 <= i < frames.len() ==> sendable(#[trigger] frames[i]),
        SpecFrame::Null => true,
    }
}

/// No character but '\r' is written with a carriage-return byte.
pub proof fn lemma_scalar_no_cr(v: u32)
    requires
        v != 13,
    ensures
        !vstd::utf8::encode_scalar(v).contains(CR),
{
    let e = vstd::utf8::encode_scalar(v);
    assert(v <= 0x7F && v != 13 ==> (v & 0x7F) as u8 != 13) by (bit_vector);
    assert((0xC0u8 | (((v >> 6) & 0x1F) as u8)) != 13u8) by (bit_vector);
    assert((0xE0u8 | (((v >> 12) & 0x0F) as u8)) != 13u8) by (bit_vector);
    assert((0xF0u8 | (((v >> 18) & 0x7) as u8)) != 13u8) by (bit_vector);
    assert((0x80u8 | ((v & 0x3F) as u8)) != 13u8) by (bit_vector);
    assert((0x80u8 | (((v >> 6) & 0x3F) as u8)) != 13u8) by (bit_vector);
    assert((0x80u8 | (((v >> 12) & 0x3F) as u8)) != 13u8) by (bit_vector);
    assert forall|i: int| 0 <= i < e.len() implies e[i] != CR by {}
}

/// Text without '\r' is written without a carriage-return byte.
pub proof fn lemma_encode_no_cr(s: Seq<char>)
    requires
        !s.contains('\r'),
    ensures
        !encode_utf8(s).contains(CR),
    decreases s.len(),
{
    if s.len() > 0 {
        assert(s[0] != '\r');
        let c = s[0];
        assert((c as u32) != 13) by {
            if (c as u32) == 13 {
                vstd::utf8::char_u32_cast(c, 13);
                assert(('\r' as u32) == 13);
                vstd::utf8::char_u32_cast('\r', 13);
            }
        }
        lemma_scalar_no_cr(s[0] as u32);
        assert forall|c: char| s.drop_first().contains(c) implies c != '\r' by {
            let i = choose|i: int| 0 <= i < s.drop_first().len() && s.drop_first()[i] == c;
            assert(s[i + 1] == c);
        }
        lemma_encode_no_cr(s.drop_first());
        let head = vstd::utf8::encode_scalar(s[0] as u32);
        let tail = encode_utf8(s.drop_first());
        assert forall|i: int| 0 <= i < (head + tail).len() implies (head + tail)[i] != CR by {
            if i < head.len() {
                assert((head + tail)[i] == head[i]);
            } else {
                assert((head + tail)[i] == tail[i - head.len()]);
            }
        }
    }
}

/// A frame that is sendable in its text can travel.
pub proof fn lemma_sendable_encodable(f: SpecFrame)
    requires
        sendable(f),
    ensures
        encodable(f),
    decreases f,
{
    match f {
        SpecFrame::Simple(s) => lemma_encode_no_cr(s),
        SpecFrame::Error(s) => lemma_encode_no_cr(s),
        SpecFrame::Array(frames) => {
            assert forall|i: int| 0 <= i < frames.len() implies encodable(#[trigger] frames[i]) by {
                lemma_sendable_encodable(frames[i]);
            }
        },
        _ => {},
    }
}

/// Reading back what was written, said of the frame's text: the bytes of a
/// sendable frame parse to the same frame and end where it ends.
pub proof fn law_sendable_roundtrip(f: SpecFrame)
    requires
        sendable(f),
    ensures
        spec_parse(spec_serialize(f), 0) == (Ok::<SpecFrame, Error>(f), spec_serialize(f).len() as int),
{
    lemma_sendable_encodable(f);
    let bytes = spec_serialize(f);
    assert(bytes.subrange(0, bytes.len() as int) =~= bytes);
    lemma_parse_serialize(f, bytes, 0);
}

} // verus!
