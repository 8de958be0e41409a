use vstd::prelude::*;
use crate::server::Frame;

verus! {

/// Where a connection is in its request/response cycle.
#[derive(PartialEq, Eq, Structural, Clone, Copy, Debug)]
pub enum State {
    Req,  // currently reading a request
    Res,  // currently writing a response
    End,  // done, close this connection
}

/// What one `read` or `write` on a connection's socket came to.
pub enum Io {
    /// This many bytes were moved.
    Bytes(usize),
    /// The peer closed the connection (a read of 0 bytes).
    Closed,
    /// A signal interrupted the call; it can be retried at once.
    Interrupted,
    /// Nothing can be moved right now; wait for the poll.
    WouldBlock,
    /// Any other error.
    Failed,
}

/// What a connection waits for on its socket.
#[derive(PartialEq, Eq, Structural, Clone, Copy, Debug)]
pub enum Interest {
    /// Bytes to read.
    Read,
    /// Room to write.
    Write,
}

// every client gets one of these
pub struct Conn {
    pub fd: i32,
    pub state: State,
    pub rbuf: Vec<u8>,  // incoming bytes, grows as the data arrives
    pub wbuf: Vec<u8>,  // the response waiting to be sent
    pub wbuf_sent: usize,  // how many bytes of wbuf are already sent
}

impl Conn {
    pub fn new(fd: i32) -> (c: Self)
        ensures
            c.fd == fd,
            c.state == State::Req,
            c.rbuf@ == Seq::<u8>::empty(),
            c.wbuf@ == Seq::<u8>::empty(),
            c.wbuf_sent == 0,
    {
        Conn { fd, state: State::Req, rbuf: Vec::new(), wbuf: Vec::new(), wbuf_sent: 0 }
    }

    /// What to poll the socket for: room to write while a response is
    /// being sent, bytes to read otherwise.
    pub fn interest(&self) -> (i: Interest)
        ensures
            i == (if self.state == State::Res { Interest::Write } else { Interest::Read }),
    {
        match self.state {
            State::Res => Interest::Write,
            _ => Interest::Read,
        }
    }

    /// Whether the connection is done and can be closed.
    pub fn is_done(&self) -> (done: bool)
        ensures
            done == (self.state == State::End),
    {
        match self.state {
            State::End => true,
            _ => false,
        }
    }

    /// Takes in what a read into `buf` came to, and says whether to read
    /// again: read bytes go to the end of `rbuf`; an interrupted read is
    /// retried; a read that would block ends the reading for now; a closed
    /// or failed connection is done.
    pub fn after_read(&mut self, io: Io, buf: &[u8]) -> (again: bool)
        requires
            io matches Io::Bytes(n) ==> n <= buf@.len(),
        ensures
            final(self).fd == old(self).fd,
            final(self).wbuf@ == old(self).wbuf@,
            final(self).wbuf_sent == old(self).wbuf_sent,
            match io {
                Io::Bytes(n) => {
                    &&& again
                    &&& final(self).state == old(self).state
                    &&& final(self).rbuf@ == old(self).rbuf@ + buf@.subrange(0, n as int)
                },
                Io::Interrupted => {
                    &&& again
                    &&& final(self).state == old(self).state
                    &&& final(self).rbuf@ == old(self).rbuf@
                },
                Io::WouldBlock => {
                    &&& !again
                    &&& final(self).state == old(self).state
                    &&& final(self).rbuf@ == old(self).rbuf@
                },
                _ => {
                    &&& !again
                    &&& final(self).state == State::End
                    &&& final(self).rbuf@ == old(self).rbuf@
                },
            },
    {
        match io {
            Io::Bytes(n) => {
                // append the data to the buffer
                self.rbuf.extend_from_slice(&buf[0..n]);
                proof {
                    assert(final(self).rbuf@ =~= old(self).rbuf@ + buf@.subrange(0, n as int));
                }
                true
            },
            Io::Interrupted => true,  // not our fault and not a real error: retry
            Io::WouldBlock => false,  // no more data right now, poll() will tell us
            _ => {
                self.state = State::End;
                false
            },
        }
    }

    /// Takes in what `parse_frame` found at the front of `rbuf`: a whole
    /// request is handed out with the number of bytes it takes; a request
    /// that is too long or malformed ends the connection; an incomplete one
    /// leaves everything as it is, to wait for more bytes.
    pub fn on_frame(&mut self, f: Frame) -> (req: Option<(Vec<String>, usize)>)
        ensures
            match f {
                Frame::Request(cmd, n) => req == Some((cmd, n)) && *final(self) == *old(self),
                Frame::Incomplete => req is None && *final(self) == *old(self),
                _ => {
                    &&& req is None
                    &&& final(self).state == State::End
                    &&& final(self).fd == old(self).fd
                    &&& final(self).rbuf == old(self).rbuf
                    &&& final(self).wbuf == old(self).wbuf
                    &&& final(self).wbuf_sent == old(self).wbuf_sent
                },
            },
    {
        match f {
            Frame::Request(cmd, n) => Some((cmd, n)),
            Frame::Incomplete => None,  // not enough data yet, come back later
            _ => {
                // too long or malformed: this connection is done
                self.state = State::End;
                None
            },
        }
    }

    /// Queues `reply` for sending in place of the request at the front of
    /// `rbuf`, which takes `used` bytes, and switches to responding.
    pub fn queue_reply(&mut self, reply: Vec<u8>, used: usize)
        requires
            used <= old(self).rbuf@.len(),
        ensures
            final(self).fd == old(self).fd,
            final(self).state == State::Res,
            final(self).wbuf@ == reply@,
            final(self).wbuf_sent == 0,
            final(self).rbuf@ == old(self).rbuf@.skip(used as int),
    {
        self.wbuf = reply;
        self.wbuf_sent = 0;
        // remove this request from the rbuf
        let rest = self.rbuf.split_off(used);
        self.rbuf = rest;
        self.state = State::Res;
        proof {
            assert(final(self).rbuf@ =~= old(self).rbuf@.skip(used as int));
        }
    }

    /// The bytes of the response not sent yet.
    pub fn unsent(&self) -> (rest: &[u8])
        requires
            self.wbuf_sent <= self.wbuf@.len(),
        ensures
            rest@ == self.wbuf@.skip(self.wbuf_sent as int),
    {
        let n = self.wbuf.len();
        let rest = &self.wbuf.as_slice()[self.wbuf_sent..n];
        proof {
            assert(rest@ =~= self.wbuf@.skip(self.wbuf_sent as int));
        }
        rest
    }

    /// Everything is sent: back to reading requests.
    pub fn finish_reply(&mut self)
        ensures
            final(self).fd == old(self).fd,
            final(self).state == State::Req,
            final(self).rbuf@ == old(self).rbuf@,
            final(self).wbuf@ == Seq::<u8>::empty(),
            final(self).wbuf_sent == 0,
    {
        self.state = State::Req;
        self.wbuf.clear();
        self.wbuf_sent = 0;
    }

    /// Takes in what a write of the unsent bytes came to, and says whether
    /// to write again: written bytes count as sent; an interrupted write is
    /// retried; a write that would block ends the writing for now; a failed
    /// connection is done.
    pub fn after_write(&mut self, io: Io) -> (again: bool)
        requires
            old(self).wbuf_sent <= old(self).wbuf@.len(),
            io matches Io::Bytes(n) ==> old(self).wbuf_sent + n <= old(self).wbuf@.len(),
        ensures
            final(self).fd == old(self).fd,
            final(self).rbuf@ == old(self).rbuf@,
            final(self).wbuf@ == old(self).wbuf@,
            match io {
                Io::Bytes(n) => {
                    &&& again
                    &&& final(self).state == old(self).state
                    &&& final(self).wbuf_sent == old(self).wbuf_sent + n
                },
                Io::Interrupted => {
                    &&& again
                    &&& final(self).state == old(self).state
                    &&& final(self).wbuf_sent == old(self).wbuf_sent
                },
                Io::WouldBlock => {
                    &&& !again
                    &&& final(self).state == old(self).state
                    &&& final(self).wbuf_sent == old(self).wbuf_sent
                },
                _ => {
                    &&& !again
                    &&& final(self).state == State::End
                    &&& final(self).wbuf_sent == old(self).wbuf_sent
                },
            },
    {
        match io {
            Io::Bytes(n) => {
                let total = self.wbuf.len();
                proof {
                    assert(self.wbuf_sent + n <= total);
                }
                self.wbuf_sent = self.wbuf_sent + n;
                true
            },
            Io::Interrupted => true,
            Io::WouldBlock => false,  // kernel write buffer is full, poll() will wake us
            _ => {
                self.state = State::End;
                false
            },
        }
    }
}

} // verus!
