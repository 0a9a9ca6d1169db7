//! Per-connection state: resizable read/write byte buffers, the TLS
//! handshake state, and the poll token.
//!
//! The byte stream itself (plain or TLS) lives outside; its owner drains
//! bytes into the read buffer and flushes the write buffer back out.

use vstd::prelude::*;

verus! {

/// The handshake state of a connection.
#[derive(Clone, Copy, PartialEq, Eq, Structural, Debug)]
pub enum State {
    /// TLS handshaking is still in progress; I/O yields to the underlying
    /// layer until it signals completion.
    Handshaking,
    /// The connection is ready for requests.
    Established,
}

/// The readiness events a session waits for.
#[derive(Clone, Copy, PartialEq, Eq, Structural, Debug)]
pub enum Interest {
    /// Only readable events.
    Readable,
    /// Readable and writable events: the write buffer holds pending bytes.
    ReadableWritable,
}

/// A growable byte buffer consumed from the front.
pub struct Buffer {
    /// The pending bytes, oldest first.
    pub data: Vec<u8>,
}

impl Buffer {
    /// An empty buffer.
    pub fn new() -> (r: Buffer)
        ensures
            r.data@.len() == 0,
    {
        Buffer { data: Vec::new() }
    }

    /// Number of pending bytes.
    pub fn pending(&self) -> (r: usize)
        ensures
            r == self.data@.len(),
    {
        self.data.len()
    }

    /// Append `buf` at the tail; returns how many bytes were written (all).
    pub fn write(&mut self, buf: &[u8]) -> (r: usize)
        ensures
            final(self).data@ == old(self).data@ + buf@,
            r == buf@.len(),
    {
        crate::response::extend_bytes(&mut self.data, buf);
        buf.len()
    }

    /// Drop the first `n` bytes.
    pub fn consume(&mut self, n: usize)
        requires
            n <= old(self).data@.len(),
        ensures
            final(self).data@ == old(self).data@.skip(n as int),
    {
        let rest = vstd::slice::slice_to_vec(
            vstd::slice::slice_subrange(self.data.as_slice(), n, self.data.len()),
        );
        proof {
            assert(rest@ =~= self.data@.skip(n as int));
        }
        self.data = rest;
    }

    /// The pending bytes.
    pub fn as_slice(&self) -> (r: &[u8])
        ensures
            r@ == self.data@,
    {
        self.data.as_slice()
    }
}

/// The complete state of one connection, minus its byte stream.
pub struct Session {
    /// The poll token the owning event loop registered for this session.
    pub token: usize,
    /// The handshake state.
    pub state: State,
    /// Bytes received and not yet parsed.
    pub read_buffer: Buffer,
    /// Bytes composed and not yet flushed to the stream.
    pub write_buffer: Buffer,
}

impl Session {
    /// A fresh session in the given handshake state with empty buffers.
    pub fn new(state: State) -> (r: Session)
        ensures
            r.state == state,
            r.token == 0,
            r.read_buffer.data@.len() == 0,
            r.write_buffer.data@.len() == 0,
    {
        Session { token: 0, state, read_buffer: Buffer::new(), write_buffer: Buffer::new() }
    }

    /// Set the poll token.
    pub fn set_token(&mut self, token: usize)
        ensures
            *final(self) == (Session { token, ..*old(self) }),
    {
        self.token = token;
    }

    /// Set the handshake state.
    pub fn set_state(&mut self, state: State)
        ensures
            *final(self) == (Session { state, ..*old(self) }),
    {
        self.state = state;
    }

    /// Whether the session is still handshaking.
    pub fn is_handshaking(&self) -> (r: bool)
        ensures
            r == (self.state == State::Handshaking),
    {
        matches!(self.state, State::Handshaking)
    }

    /// Record the outcome the TLS layer signalled: once the handshake has
    /// completed, the session is established; before that it stays
    /// handshaking.
    pub fn do_handshake(&mut self, completed: bool)
        ensures
            final(self).state == (if old(self).state == State::Handshaking && !completed {
                State::Handshaking
            } else {
                State::Established
            }),
            final(self).token == old(self).token,
            final(self).read_buffer == old(self).read_buffer,
            final(self).write_buffer == old(self).write_buffer,
    {
        if matches!(self.state, State::Handshaking) {
            if completed {
                self.state = State::Established;
            }
        } else {
            self.state = State::Established;
        }
    }

    /// Append response bytes for this connection.
    pub fn write(&mut self, buf: &[u8]) -> (r: usize)
        ensures
            final(self).write_buffer.data@ == old(self).write_buffer.data@ + buf@,
            final(self).read_buffer == old(self).read_buffer,
            final(self).state == old(self).state,
            final(self).token == old(self).token,
            r == buf@.len(),
    {
        self.write_buffer.write(buf)
    }

    /// The readiness events to register: writable interest exactly while
    /// response bytes are pending.
    pub fn readiness(&self) -> (r: Interest)
        ensures
            r == (if self.write_buffer.data@.len() > 0 {
                Interest::ReadableWritable
            } else {
                Interest::Readable
            }),
    {
        if self.write_buffer.pending() > 0 {
            Interest::ReadableWritable
        } else {
            Interest::Readable
        }
    }
}

} // verus!
