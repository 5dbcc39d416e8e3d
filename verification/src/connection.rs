use crate::byte_buf::{
    bytes_mut_advance, bytes_mut_as_slice, bytes_mut_extend_from_slice, bytes_mut_view,
    bytes_mut_with_capacity,
};
use crate::config::{INITIAL_READ_BUFFER_CAPACITY, MAX_BUFFERED_BYTES};
use crate::cursor::Cursor;
use crate::frame::{self, law_parse_extend, spec_parse, Frame};
use bytes::BytesMut;
use vstd::prelude::*;

verus! {

/// Why no frame could be read from a connection.
#[derive(Debug, PartialEq, Eq)]
pub enum ReadError {
    /// The buffered bytes do not form a frame.
    Invalid(&'static str),
    /// The buffer is full and still holds no whole frame.
    BufferLimit,
    /// The peer closed the connection in the middle of a frame.
    Disconnected,
}

impl ReadError {
    /// The text that describes the error, as a spec value.
    pub open spec fn message(&self) -> &'static str {
        match self {
            ReadError::Invalid(msg) => *msg,
            ReadError::BufferLimit => "Frame cannot fit within the buffer limit.",
            ReadError::Disconnected => "Network Error! Failed to fetch network data.",
        }
    }

    /// The text that describes the error.
    pub fn to_string(&self) -> (s: String)
        ensures
            s@ == self.message()@,
    {
        match self {
            ReadError::Invalid(msg) => (*msg).to_owned(),
            ReadError::BufferLimit => "Frame cannot fit within the buffer limit.".to_owned(),
            ReadError::Disconnected => "Network Error! Failed to fetch network data.".to_owned(),
        }
    }
}

/// The bytes a connection has received and not yet turned into frames.
///
/// It never holds more than `MAX_BUFFERED_BYTES` bytes.
#[derive(Debug)]
pub struct FrameBuffer {
    buffer: BytesMut,
}

impl View for FrameBuffer {
    type V = Seq<u8>;

    closed spec fn view(&self) -> Seq<u8> {
        bytes_mut_view(self.buffer)
    }
}

impl FrameBuffer {
    #[verifier::type_invariant]
    spec fn within_limit(&self) -> bool {
        bytes_mut_view(self.buffer).len() <= MAX_BUFFERED_BYTES
    }

    /// An empty buffer.
    pub fn new() -> (b: FrameBuffer)
        ensures
            b@ == Seq::<u8>::empty(),
    {
        FrameBuffer { buffer: bytes_mut_with_capacity(INITIAL_READ_BUFFER_CAPACITY) }
    }

    /// The buffered bytes.
    pub fn buffered(&self) -> (s: &[u8])
        ensures
            s@ == self@,
            s@.len() <= MAX_BUFFERED_BYTES,
    {
        proof {
            use_type_invariant(self);
        }
        bytes_mut_as_slice(&self.buffer)
    }

    /// Takes one frame from the front of the buffer.
    ///
    /// Returns `Ok(Some(frame))` and drops exactly that frame's bytes when a
    /// whole frame is there; `Ok(None)` when more bytes are needed.
    ///
    /// # Errors
    /// `ReadError::Invalid` when the bytes do not form a frame. The buffer
    /// is left unchanged whenever no frame is returned.
    pub fn parse_frame(&mut self) -> (r: Result<Option<Frame>, ReadError>)
        ensures
            match spec_parse(old(self)@, 0) {
                (Ok(f), p) => r matches Ok(Some(frame)) && frame@ == f && final(self)@ == old(
                    self,
                )@.skip(p),
                (Err(frame::Error::Incomplete), _) => r == Ok::<Option<Frame>, ReadError>(None)
                    && final(self)@ == old(self)@,
                (Err(frame::Error::Other(m)), _) => r == Err::<Option<Frame>, ReadError>(
                    ReadError::Invalid(m),
                ) && final(self)@ == old(self)@,
            },
    {
        proof {
            use_type_invariant(&*self);
        }
        let data = bytes_mut_as_slice(&self.buffer);
        let mut cursor = Cursor::new(data);
        match Frame::parse(&mut cursor) {
            Ok(frame) => {
                cursor.check_bounds();
                let consumed = cursor.position() as usize;
                let mut buffer = bytes_mut_with_capacity(0);
                std::mem::swap(&mut buffer, &mut self.buffer);
                bytes_mut_advance(&mut buffer, consumed);
                self.buffer = buffer;
                Ok(Some(frame))
            },
            Err(frame::Error::Incomplete) => Ok(None),
            Err(frame::Error::Other(m)) => Err(ReadError::Invalid(m)),
        }
    }

    /// How many more bytes may be read into the buffer.
    ///
    /// # Errors
    /// `ReadError::BufferLimit` when the buffer is full.
    pub fn read_budget(&self) -> (r: Result<usize, ReadError>)
        ensures
            self@.len() >= MAX_BUFFERED_BYTES ==> r == Err::<usize, ReadError>(ReadError::BufferLimit),
            self@.len() < MAX_BUFFERED_BYTES ==> r == Ok::<usize, ReadError>(
                (MAX_BUFFERED_BYTES - self@.len()) as usize,
            ),
    {
        proof {
            use_type_invariant(self);
        }
        let len = bytes_mut_as_slice(&self.buffer).len();
        if len >= MAX_BUFFERED_BYTES {
            return Err(ReadError::BufferLimit);
        }
        Ok(MAX_BUFFERED_BYTES - len)
    }

    /// Appends bytes read from the peer, within the read budget.
    pub fn receive(&mut self, data: &[u8])
        requires
            old(self)@.len() + data@.len() <= MAX_BUFFERED_BYTES,
        ensures
            final(self)@ == old(self)@ + data@,
    {
        proof {
            use_type_invariant(&*self);
        }
        let mut buffer = bytes_mut_with_capacity(0);
        std::mem::swap(&mut buffer, &mut self.buffer);
        bytes_mut_extend_from_slice(&mut buffer, data);
        self.buffer = buffer;
    }

    /// What reading gives once the peer has closed its side: nothing when
    /// the buffer is empty.
    ///
    /// # Errors
    /// `ReadError::Disconnected` when bytes of an unfinished frame remain.
    pub fn end_of_stream(&self) -> (r: Result<Option<Frame>, ReadError>)
        ensures
            self@.len() == 0 ==> r == Ok::<Option<Frame>, ReadError>(None),
            self@.len() > 0 ==> r == Err::<Option<Frame>, ReadError>(ReadError::Disconnected),
    {
        if bytes_mut_as_slice(&self.buffer).len() == 0 {
            Ok(None)
        } else {
            Err(ReadError::Disconnected)
        }
    }
}

/// A buffer that holds one whole frame and then more bytes yields that
/// frame from `parse_frame`, which keeps exactly the bytes after it, in
/// order.
pub proof fn law_parse_frame_takes_one(frame_bytes: Seq<u8>, rest: Seq<u8>)
    requires
        spec_parse(frame_bytes, 0).0 is Ok,
        spec_parse(frame_bytes, 0).1 == frame_bytes.len(),
    ensures
        spec_parse(frame_bytes + rest, 0) == spec_parse(frame_bytes, 0),
        (frame_bytes + rest).skip(frame_bytes.len() as int) == rest,
{
    law_parse_extend(frame_bytes, rest, 0);
    assert((frame_bytes + rest).skip(frame_bytes.len() as int) =~= rest);
}

} // verus!
