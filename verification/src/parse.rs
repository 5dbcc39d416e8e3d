use crate::byte_buf::{bytes_as_slice, bytes_from_string, bytes_view};
use crate::frame::{frames_view, lemma_frames_view_len, Frame, SpecFrame};
use crate::text::utf8_to_string;
use bytes::Bytes;
use vstd::prelude::*;
use vstd::utf8::{decode_utf8, encode_utf8, valid_utf8};

verus! {

/// Why the parts of a command could not be read.
#[derive(Debug, PartialEq)]
pub enum Error {
    /// No part is left.
    EndOfStream,
    /// The part is not what the command needs.
    Other(&'static str),
}

impl Error {
    /// The text that describes the error.
    pub fn to_string(&self) -> (s: String)
        ensures
            s@ == self.message()@,
    {
        match self {
            Error::EndOfStream => "command ended early".to_owned(),
            Error::Other(msg) => (*msg).to_owned(),
        }
    }

    /// The text that describes the error, as a spec value.
    pub open spec fn message(&self) -> &'static str {
        match self {
            Error::EndOfStream => "command ended early",
            Error::Other(msg) => *msg,
        }
    }
}

/// Taking the next part as bytes: a bulk string's bytes or a simple
/// string's UTF-8 bytes; the part is used up either way.
pub open spec fn spec_next_bytes(parts: Seq<SpecFrame>) -> (Result<Seq<u8>, Error>, Seq<SpecFrame>) {
    if parts.len() == 0 {
        (Err(Error::EndOfStream), parts)
    } else {
        let rest = parts.drop_first();
        match parts[0] {
            SpecFrame::Bulk(b) => (Ok(b), rest),
            SpecFrame::Simple(s) => (Ok(encode_utf8(s)), rest),
            _ => (Err(Error::Other("Wrong message: Invalid command, Frame::Bulk expected")), rest),
        }
    }
}

/// Taking the next part as text: its bytes, which must be valid UTF-8.
pub open spec fn spec_next_string(parts: Seq<SpecFrame>) -> (Result<Seq<char>, Error>, Seq<SpecFrame>) {
    match spec_next_bytes(parts) {
        (Ok(b), rest) => {
            if valid_utf8(b) {
                (Ok(decode_utf8(b)), rest)
            } else {
                (Err(Error::Other("Wrong message: Invalid command, UTF-8 incompatible")), rest)
            }
        },
        (Err(e), rest) => (Err(e), rest),
    }
}

/// Whether no part is left.
pub open spec fn spec_finish(parts: Seq<SpecFrame>) -> Result<(), Error> {
    if parts.len() == 0 {
        Ok(())
    } else {
        Err(Error::Other("Wrong message: Invalid command, too many parts"))
    }
}

/// The parts of a command frame, read one at a time from the front.
#[derive(Debug)]
pub struct Parse {
    /// The parts that are left, the next one last.
    parts: Vec<Frame>,
}

impl View for Parse {
    /// The values of the parts that are left, the next one first.
    type V = Seq<SpecFrame>;

    closed spec fn view(&self) -> Seq<SpecFrame> {
        Seq::new(self.parts@.len(), |i: int| self.parts@[self.parts@.len() - 1 - i]@)
    }
}

impl Parse {
    /// Starts reading the parts of an array frame.
    ///
    /// # Errors
    /// `Error::Other` when the frame is not an array.
    pub fn new(frame: Frame) -> (r: Result<Parse, Error>)
        ensures
            match frame@ {
                SpecFrame::Array(parts) => r matches Ok(p) && p@ == parts,
                _ => r == Err::<Parse, Error>(
                    Error::Other("Wrong message: Invalid command, Frame::Array expected"),
                ),
            },
    {
        match frame {
            Frame::Array(mut items) => {
                let ghost all = items@;
                let n = items.len();
                let mut parts: Vec<Frame> = Vec::new();
                while items.len() > 0
                    invariant
                        items@.len() + parts@.len() == n,
                        n == all.len(),
                        items@ == all.take(items@.len() as int),
                        forall|j: int| 0 <= j < parts@.len() ==> #[trigger] parts@[j] == all[n - 1 - j],
                    decreases items@.len(),
                {
                    let item = items.pop().unwrap();
                    parts.push(item);
                    assert(items@ =~= all.take(items@.len() as int));
                }
                let p = Parse { parts };
                proof {
                    lemma_frames_view_len(all);
                    assert(p@ =~= frames_view(all));
                }
                Ok(p)
            },
            _ => Err(Error::Other("Wrong message: Invalid command, Frame::Array expected")),
        }
    }

    /// Takes the next part as bytes.
    ///
    /// # Errors
    /// `Error::EndOfStream` when no part is left, `Error::Other` when the
    /// part is neither a bulk nor a simple string.
    pub fn next_bytes(&mut self) -> (r: Result<Bytes, Error>)
        ensures
            final(self)@ == spec_next_bytes(old(self)@).1,
            match r {
                Ok(b) => spec_next_bytes(old(self)@).0 == Ok::<Seq<u8>, Error>(bytes_view(b)),
                Err(e) => spec_next_bytes(old(self)@).0 == Err::<Seq<u8>, Error>(e),
            },
    {
        let ghost before = self@;
        let frame = match self.parts.pop() {
            Some(f) => f,
            None => {
                return Err(Error::EndOfStream);
            },
        };
        assert(self@ =~= before.drop_first());
        assert(frame@ == before[0]);
        match frame {
            Frame::Bulk(b) => Ok(b),
            Frame::Simple(s) => Ok(bytes_from_string(s)),
            _ => Err(Error::Other("Wrong message: Invalid command, Frame::Bulk expected")),
        }
    }

    /// Takes the next part as text.
    ///
    /// # Errors
    /// Those of `next_bytes`, or `Error::Other` when the bytes are not
    /// UTF-8.
    pub fn next_string(&mut self) -> (r: Result<String, Error>)
        ensures
            final(self)@ == spec_next_string(old(self)@).1,
            match r {
                Ok(s) => spec_next_string(old(self)@).0 == Ok::<Seq<char>, Error>(s@),
                Err(e) => spec_next_string(old(self)@).0 == Err::<Seq<char>, Error>(e),
            },
    {
        let bytes = self.next_bytes()?;
        let raw = vstd::slice::slice_to_vec(bytes_as_slice(&bytes));
        match utf8_to_string(raw) {
            Some(s) => Ok(s),
            None => Err(Error::Other("Wrong message: Invalid command, UTF-8 incompatible")),
        }
    }

    /// Confirms that no part is left.
    ///
    /// # Errors
    /// `Error::Other` when some part is left.
    pub fn finish(&self) -> (r: Result<(), Error>)
        ensures
            r == spec_finish(self@),
    {
        if self.parts.len() == 0 {
            Ok(())
        } else {
            Err(Error::Other("Wrong message: Invalid command, too many parts"))
        }
    }
}

} // verus!
