//! The read side of a connection: bytes as they arrive, and the frames that
//! are cut from their front.
use crate::cursor::Cursor;
use crate::frame::{
    client_diagnostic, decode_client, invalid_type_text, ClientFrames, Decoded, Error,
};
use crate::wire::{buf_advance, buf_as_slice, buf_bytes, buf_put_slice, buf_with_capacity};
use bytes::BytesMut;
use vstd::prelude::*;
use vstd::string::StringExecFns;

verus! {

/// The room that a new buffer is made with, in bytes.
pub const INITIAL_CAPACITY: usize = 4096;

/// The bytes that have arrived and are not yet read as frames.
pub struct ReadBuffer {
    buffer: BytesMut,
}

impl View for ReadBuffer {
    type V = Seq<u8>;

    closed spec fn view(&self) -> Seq<u8> {
        buf_bytes(self.buffer)
    }
}

impl ReadBuffer {
    /// A buffer without bytes.
    pub fn new() -> (b: ReadBuffer)
        ensures
            b@ == Seq::<u8>::empty(),
    {
        ReadBuffer { buffer: buf_with_capacity(INITIAL_CAPACITY) }
    }

    /// How many bytes wait.
    pub fn len(&self) -> (n: usize)
        ensures
            n == self@.len(),
    {
        buf_as_slice(&self.buffer).len()
    }

    /// Adds bytes that have arrived behind those that wait. Together they
    /// must not be more than one allocation can hold.
    pub fn extend(&mut self, bytes: &[u8])
        requires
            old(self)@.len() + bytes@.len() <= isize::MAX,
        ensures
            final(self)@ == old(self)@ + bytes@,
    {
        buf_put_slice(&mut self.buffer, bytes);
    }

    /// Adds bytes that have arrived behind those that wait, unless together
    /// they are more than one allocation can hold; tells whether it did.
    pub fn try_extend(&mut self, bytes: &[u8]) -> (taken: bool)
        ensures
            taken == (old(self)@.len() + bytes@.len() <= isize::MAX),
            final(self)@ == if taken {
                old(self)@ + bytes@
            } else {
                old(self)@
            },
    {
        let waiting: usize = self.len();
        let most: usize = isize::MAX as usize;
        if waiting <= most && bytes.len() <= most - waiting {
            self.extend(bytes);
            true
        } else {
            false
        }
    }

    /// Whether no bytes wait.
    pub fn is_empty(&self) -> (b: bool)
        ensures
            b == (self@.len() == 0),
    {
        buf_as_slice(&self.buffer).len() == 0
    }

    /// Cuts one frame from the front of the buffer, if a whole one is there.
    /// Where more bytes are needed nothing is returned, and where the bytes
    /// cannot be a frame an error is; the buffer then stays as it was.
    pub fn parse_frame(&mut self) -> (r: Result<Option<ClientFrames>, Error>)
        ensures
            match decode_client(old(self)@) {
                Decoded::Frame { frame, len } => r matches Ok(Some(f)) && f@ == frame && final(self)@ == old(self)@.skip(len as int),
                Decoded::Incomplete => r matches Ok(None) && final(self)@ == old(self)@,
                Decoded::Malformed => r matches Err(Error::Other(text)) && text@
                    == client_diagnostic(old(self)@) && final(self)@ == old(self)@,
            },
    {
        let slice = buf_as_slice(&self.buffer);
        let mut src = Cursor::new(slice);
        assert(src.rest() =~= self@);
        match ClientFrames::check(&mut src) {
            Ok(_) => {
                let len: usize = src.position();
                src.set_position(0);
                assert(src.rest() =~= self@);
                match ClientFrames::parse(&mut src) {
                    Ok(frame) => {
                        buf_advance(&mut self.buffer, len);
                        Ok(Some(frame))
                    },
                    Err(Error::Incomplete) => Ok(None),
                    Err(e) => Err(e),
                }
            },
            Err(Error::Incomplete) => Ok(None),
            Err(e) => Err(e),
        }
    }

    /// Cuts one message of the price protocol from the front of the buffer,
    /// if a whole one is there. Where more bytes are needed nothing is
    /// returned, and where the bytes cannot be a message an error is; the
    /// buffer then stays as it was.
    pub fn parse_price_frame(&mut self) -> (r: Result<
        Option<crate::prices::Frame>,
        crate::prices::Error,
    >)
        ensures
            match crate::prices::decode_frame(old(self)@) {
                Decoded::Frame { frame, len } => r matches Ok(Some(f)) && f == frame && final(self)@ == old(self)@.skip(len as int),
                Decoded::Incomplete => r matches Ok(None) && final(self)@ == old(self)@,
                Decoded::Malformed => r matches Err(crate::prices::Error::Other(text)) && text@
                    == invalid_type_text(old(self)@[0]) && final(self)@ == old(self)@,
            },
    {
        let slice = buf_as_slice(&self.buffer);
        let mut src = Cursor::new(slice);
        assert(src.rest() =~= self@);
        match crate::prices::Frame::parse(&mut src) {
            Ok(frame) => {
                let len: usize = src.position();
                buf_advance(&mut self.buffer, len);
                Ok(Some(frame))
            },
            Err(crate::prices::Error::Incomplete) => Ok(None),
            Err(e) => Err(e),
        }
    }

    /// What the end of the stream means: a clean end where no bytes wait, and
    /// a broken frame where some do.
    pub fn end_of_stream(&self) -> (r: Result<(), Error>)
        ensures
            self@.len() == 0 ==> r is Ok,
            self@.len() != 0 ==> (r matches Err(Error::Other(text)) && text@
                == "connection reset by peer"@),
    {
        if self.is_empty() {
            Ok(())
        } else {
            Err(Error::Other(String::from_str("connection reset by peer")))
        }
    }
}

} // verus!
