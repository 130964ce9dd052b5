//! The buffered connection core: a read buffer accumulating unconsumed
//! input bytes and a scratch buffer for staging outgoing frames. The
//! transport itself stays outside; whatever feeds bytes in and carries
//! bytes out gets exact contracts to lean on.

use vstd::prelude::*;

use crate::frame::{dec, Frame, Scan};
use crate::frame;

verus! {

/// The two per-connection buffers. Leftover bytes after a frame is
/// consumed stay for the next one, which is what lets pipelined requests
/// be parsed one at a time.
pub struct Connection {
    read_buffer: Vec<u8>,
    write_buffer: Vec<u8>,
}

/// Connection failure: a transport fault, a protocol violation on the
/// stream, or the peer's clean close.
#[derive(Debug)]
pub enum Error {
    IO(String),
    Other(String),
    PeerClosed,
}

impl Connection {
    /// The input bytes received but not yet consumed as frames.
    pub closed spec fn pending_input(&self) -> Seq<u8> {
        self.read_buffer@
    }

    /// The scratch buffer is drained by every staging call.
    pub closed spec fn scratch_empty(&self) -> bool {
        self.write_buffer@.len() == 0
    }

    /// A connection with empty buffers.
    pub fn new() -> (c: Connection)
        ensures
            c.pending_input() == Seq::<u8>::empty(),
            c.scratch_empty(),
    {
        Connection { read_buffer: Vec::new(), write_buffer: Vec::new() }
    }

    /// Hands the connection more bytes read from the transport.
    pub fn feed(&mut self, chunk: &[u8])
        ensures
            final(self).pending_input() == old(self).pending_input() + chunk@,
            final(self).scratch_empty() == old(self).scratch_empty(),
    {
        let mut i: usize = 0;
        while i < chunk.len()
            invariant
                i <= chunk@.len(),
                self.read_buffer@ == old(self).read_buffer@ + chunk@.take(i as int),
                self.write_buffer@ == old(self).write_buffer@,
            decreases chunk@.len() - i,
        {
            let b = chunk[i];
            self.read_buffer.push(b);
            proof {
                assert(old(self).read_buffer@ + chunk@.take(i + 1) =~= (old(self).read_buffer@
                    + chunk@.take(i as int)).push(b));
            }
            i = i + 1;
        }
        proof {
            assert(chunk@.take(chunk@.len() as int) =~= chunk@);
        }
    }

    /// Tries to take one complete frame off the front of the read buffer.
    /// `Ok(Some(..))` consumes exactly that frame's bytes and keeps the
    /// rest; `Ok(None)` means more bytes are needed and nothing changed;
    /// an error is a hard protocol violation on the stream.
    pub fn try_read_frame(&mut self) -> (r: Result<Option<Frame>, Error>)
        ensures
            match r {
                Ok(Some(f)) => {
                    &&& dec(old(self).pending_input(), 0) matches Scan::Done(v, end) && v == f@
                        && final(self).pending_input() == old(self).pending_input().skip(end)
                },
                Ok(None) => {
                    &&& dec(old(self).pending_input(), 0) is Short
                    &&& final(self).pending_input() == old(self).pending_input()
                },
                Err(e) => {
                    &&& e is Other
                    &&& dec(old(self).pending_input(), 0) is Bad
                    &&& final(self).pending_input() == old(self).pending_input()
                },
            },
            final(self).scratch_empty() == old(self).scratch_empty(),
    {
        let mut pos: usize = 0;
        match Frame::check(self.read_buffer.as_slice(), &mut pos) {
            Err(frame::Error::Incomplete) => Ok(None),
            Err(frame::Error::Other(msg)) => Err(Error::Other(msg)),
            Ok(_) => {
                let mut dpos: usize = 0;
                match Frame::decode(self.read_buffer.as_slice(), &mut dpos) {
                    Ok(f) => {
                        let rest = copy_tail(&self.read_buffer, dpos);
                        self.read_buffer = rest;
                        Ok(Some(f))
                    },
                    Err(_) => {
                        // check accepted the buffer, so decode cannot fail
                        proof {
                            assert(false);
                        }
                        Ok(None)
                    },
                }
            },
        }
    }

    /// Stages a frame in the scratch buffer and hands its bytes back for
    /// the transport to carry, leaving the scratch buffer drained again:
    /// the whole frame goes out in one piece or not at all.
    pub fn write_frame(&mut self, frame: &Frame) -> (out: Vec<u8>)
        ensures
            out@ == frame::enc(frame@),
            final(self).pending_input() == old(self).pending_input(),
            final(self).scratch_empty(),
    {
        self.write_buffer.clear();
        let _n = frame.encode(&mut self.write_buffer);
        let mut out: Vec<u8> = Vec::new();
        core::mem::swap(&mut out, &mut self.write_buffer);
        proof {
            assert(Seq::<u8>::empty() + frame::enc(frame@) =~= frame::enc(frame@));
        }
        out
    }

    /// The verdict when the peer closes the stream: a clean close if no
    /// partial frame is pending, a truncated connection otherwise.
    pub fn end_of_stream(&self) -> (r: Error)
        ensures
            self.pending_input().len() == 0 ==> r is PeerClosed,
            self.pending_input().len() > 0 ==> r is IO,
    {
        if self.read_buffer.is_empty() {
            Error::PeerClosed
        } else {
            Error::IO("connection failure".to_owned())
        }
    }
}

/// Copies the bytes of `v` from position `from` on.
fn copy_tail(v: &Vec<u8>, from: usize) -> (r: Vec<u8>)
    requires
        from <= v@.len(),
    ensures
        r@ == v@.skip(from as int),
{
    let r = crate::frame::copy_range(v.as_slice(), from, v.len());
    proof {
        assert(v@.subrange(from as int, v@.len() as int) =~= v@.skip(from as int));
    }
    r
}

} // verus!
