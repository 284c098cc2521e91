//! Connection-side protocol state: the output buffer of pending encoded
//! commands (pipelining), the count of replies still owed, the terminal
//! `Broken` flag, and the reader that parses whatever the transport
//! delivers. All decisions live here and are verified; the blocking socket
//! work itself (connect, write, read) belongs to the caller, who performs
//! each write or read and hands the outcome back to these methods.

use vstd::prelude::*;
use crate::reply::Reply;
use crate::codec::{cmd_encoding, encode_command};
use crate::reader::{Reader, ParseStep, parse_at, MAX_DEPTH, DEFAULT_MAX_BULK};

verus! {

/// The connection-level failure taxonomy: `Protocol` for malformed RESP
/// input or a `receive` with no reply owed, `Io` for any operation refused
/// because the connection is broken, `Encoding` for a command with no
/// arguments.
#[derive(Clone, Copy, PartialEq, Eq, Structural, Debug)]
pub enum ClientError {
    Protocol,
    Io,
    Encoding,
}

/// The protocol state of one connection. The transport handle itself lives
/// with the caller; this type owns everything the protocol decides on.
pub struct Redis {
    reader: Reader,
    obuf: Vec<u8>,
    pending: u64,
    broken: bool,
}

impl Redis {
    /// Encoded commands appended but not yet flushed to the transport.
    pub closed spec fn out_buffer(&self) -> Seq<u8> {
        self.obuf@
    }

    /// Replies still owed to the caller: incremented per command sent,
    /// decremented per reply delivered.
    pub closed spec fn pending_count(&self) -> u64 {
        self.pending
    }

    /// Whether a fatal transport error has put the connection into its
    /// terminal `Broken` state.
    pub closed spec fn is_broken(&self) -> bool {
        self.broken
    }

    /// Transport bytes fed to the reader and not yet consumed.
    pub closed spec fn in_buffer(&self) -> Seq<u8> {
        self.reader.buffer()
    }

    /// Whether the reader is in its failed state after a protocol error.
    pub closed spec fn in_failed(&self) -> bool {
        self.reader.is_failed()
    }

    /// The reader's configured bulk-length ceiling.
    pub closed spec fn in_max_bulk(&self) -> int {
        self.reader.max_bulk()
    }

    pub closed spec fn wf(&self) -> bool {
        self.reader.wf()
    }

    /// What the next attempt to take a reply out of the input buffer is
    /// bound to produce.
    pub open spec fn next_outcome(&self) -> ParseStep {
        parse_at(self.in_buffer(), 0, MAX_DEPTH as nat, self.in_max_bulk())
    }

    /// A fresh connection state: nothing buffered, nothing owed, not broken.
    pub fn new() -> (c: Redis)
        ensures
            c.wf(),
            !c.is_broken(),
            c.pending_count() == 0,
            c.out_buffer() == Seq::<u8>::empty(),
            c.in_buffer() == Seq::<u8>::empty(),
            !c.in_failed(),
            c.in_max_bulk() == DEFAULT_MAX_BULK as int,
    {
        Redis { reader: Reader::new(), obuf: Vec::new(), pending: 0, broken: false }
    }

    /// Encodes a command and appends it to the output buffer without
    /// flushing, so several commands can be pipelined before any is written;
    /// one more reply becomes owed. Refused with `Io` on a broken
    /// connection and with `Encoding` when `args` is empty.
    pub fn send(&mut self, args: &Vec<Vec<u8>>) -> (r: Result<(), ClientError>)
        requires
            old(self).wf(),
            old(self).pending_count() < u64::MAX,
        ensures
            final(self).wf(),
            old(self).is_broken() ==> r == Err::<(), ClientError>(ClientError::Io)
                && *final(self) == *old(self),
            !old(self).is_broken() && args@.len() == 0
                ==> r == Err::<(), ClientError>(ClientError::Encoding)
                && *final(self) == *old(self),
            !old(self).is_broken() && args@.len() > 0 ==> r is Ok
                && final(self).out_buffer()
                    == old(self).out_buffer() + cmd_encoding(args.deep_view())
                && final(self).pending_count() == old(self).pending_count() + 1
                && final(self).is_broken() == old(self).is_broken()
                && final(self).in_buffer() == old(self).in_buffer()
                && final(self).in_failed() == old(self).in_failed()
                && final(self).in_max_bulk() == old(self).in_max_bulk(),
    {
        if self.broken {
            return Err(ClientError::Io);
        }
        match encode_command(args) {
            Err(_) => Err(ClientError::Encoding),
            Ok(bytes) => {
                let mut i: usize = 0;
                while i < bytes.len()
                    invariant
                        i <= bytes@.len(),
                        self.obuf@ == old(self).out_buffer() + bytes@.subrange(0, i as int),
                        self.pending == old(self).pending_count(),
                        self.broken == old(self).is_broken(),
                        self.reader == old(self).reader,
                        bytes@ == cmd_encoding(args.deep_view()),
                    decreases bytes@.len() - i,
                {
                    self.obuf.push(bytes[i]);
                    proof {
                        assert(bytes@.subrange(0, i + 1)
                            =~= bytes@.subrange(0, i as int).push(bytes@[i as int]));
                    }
                    i = i + 1;
                }
                proof {
                    assert(bytes@.subrange(0, bytes@.len() as int) =~= bytes@);
                }
                self.pending = self.pending + 1;
                Ok(())
            },
        }
    }

    /// Appends a command to the output buffer without flushing: an alias of
    /// `send` for callers that phrase pipelining as appending.
    pub fn append_command(&mut self, args: &Vec<Vec<u8>>) -> (r: Result<(), ClientError>)
        requires
            old(self).wf(),
            old(self).pending_count() < u64::MAX,
        ensures
            final(self).wf(),
            old(self).is_broken() ==> r == Err::<(), ClientError>(ClientError::Io)
                && *final(self) == *old(self),
            !old(self).is_broken() && args@.len() == 0
                ==> r == Err::<(), ClientError>(ClientError::Encoding)
                && *final(self) == *old(self),
            !old(self).is_broken() && args@.len() > 0 ==> r is Ok
                && final(self).out_buffer()
                    == old(self).out_buffer() + cmd_encoding(args.deep_view())
                && final(self).pending_count() == old(self).pending_count() + 1
                && final(self).is_broken() == old(self).is_broken()
                && final(self).in_buffer() == old(self).in_buffer()
                && final(self).in_failed() == old(self).in_failed()
                && final(self).in_max_bulk() == old(self).in_max_bulk(),
    {
        self.send(args)
    }

    /// Hands the caller everything waiting to be written, emptying the
    /// output buffer; the caller writes it to the transport (retrying
    /// partial writes) and reports a fatal failure through `mark_broken`.
    pub fn take_output(&mut self) -> (out: Vec<u8>)
        ensures
            out@ == old(self).out_buffer(),
            final(self).out_buffer() == Seq::<u8>::empty(),
            final(self).pending_count() == old(self).pending_count(),
            final(self).is_broken() == old(self).is_broken(),
            final(self).in_buffer() == old(self).in_buffer(),
            final(self).in_failed() == old(self).in_failed(),
            final(self).in_max_bulk() == old(self).in_max_bulk(),
            final(self).wf() == old(self).wf(),
    {
        let mut out: Vec<u8> = Vec::new();
        core::mem::swap(&mut out, &mut self.obuf);
        out
    }

    /// Records a fatal transport failure: the connection enters its
    /// terminal `Broken` state and refuses every further operation.
    pub fn mark_broken(&mut self)
        ensures
            final(self).is_broken(),
            final(self).out_buffer() == old(self).out_buffer(),
            final(self).pending_count() == old(self).pending_count(),
            final(self).in_buffer() == old(self).in_buffer(),
            final(self).in_failed() == old(self).in_failed(),
            final(self).in_max_bulk() == old(self).in_max_bulk(),
            final(self).wf() == old(self).wf(),
    {
        self.broken = true;
    }

    /// Appends bytes the transport delivered to the reader's buffer.
    /// Refused on a broken connection or a failed reader.
    pub fn feed_input(&mut self, bytes: &Vec<u8>) -> (r: Result<(), ClientError>)
        ensures
            old(self).is_broken() ==> r == Err::<(), ClientError>(ClientError::Io)
                && *final(self) == *old(self),
            !old(self).is_broken() && old(self).in_failed()
                ==> r == Err::<(), ClientError>(ClientError::Protocol)
                && *final(self) == *old(self),
            !old(self).is_broken() && !old(self).in_failed() ==> r is Ok
                && final(self).in_buffer() == old(self).in_buffer() + bytes@
                && !final(self).in_failed()
                && final(self).in_max_bulk() == old(self).in_max_bulk()
                && final(self).out_buffer() == old(self).out_buffer()
                && final(self).pending_count() == old(self).pending_count()
                && final(self).is_broken() == old(self).is_broken()
                && final(self).wf() == old(self).wf(),
    {
        if self.broken {
            return Err(ClientError::Io);
        }
        match self.reader.feed(bytes) {
            Ok(()) => Ok(()),
            Err(_) => Err(ClientError::Protocol),
        }
    }

    /// Attempts to deliver one owed reply from the buffered input.
    /// `Ok(Some(_))` delivers it and decrements the owed count; `Ok(None)`
    /// asks the caller to read more transport bytes; calling with no reply
    /// owed is a caller contract violation reported as `Protocol`; a parse
    /// failure is a protocol error that puts the reader into its failed
    /// state.
    pub fn try_get_reply(&mut self) -> (r: Result<Option<Reply>, ClientError>)
        requires
            old(self).wf(),
        ensures
            final(self).wf(),
            final(self).in_max_bulk() == old(self).in_max_bulk(),
            old(self).is_broken() ==> r == Err::<Option<Reply>, ClientError>(ClientError::Io)
                && *final(self) == *old(self),
            !old(self).is_broken() && old(self).pending_count() == 0
                ==> r == Err::<Option<Reply>, ClientError>(ClientError::Protocol)
                && *final(self) == *old(self),
            !old(self).is_broken() && old(self).pending_count() > 0 && old(self).in_failed()
                ==> r == Err::<Option<Reply>, ClientError>(ClientError::Protocol)
                && *final(self) == *old(self),
            !old(self).is_broken() && old(self).pending_count() > 0 && !old(self).in_failed()
                ==> final(self).out_buffer() == old(self).out_buffer()
                && final(self).is_broken() == old(self).is_broken()
                && match old(self).next_outcome() {
                    ParseStep::Done(ar, n) => (r matches Ok(Some(rep)) && rep@ == ar)
                        && final(self).in_buffer() == old(self).in_buffer()
                            .subrange(n, old(self).in_buffer().len() as int)
                        && !final(self).in_failed()
                        && final(self).pending_count() == old(self).pending_count() - 1,
                    ParseStep::Incomplete => r == Ok::<Option<Reply>, ClientError>(None)
                        && *final(self) == *old(self),
                    ParseStep::Fail => r == Err::<Option<Reply>, ClientError>(
                        ClientError::Protocol)
                        && final(self).in_failed()
                        && final(self).in_buffer() == old(self).in_buffer()
                        && final(self).pending_count() == old(self).pending_count(),
                },
    {
        if self.broken {
            return Err(ClientError::Io);
        }
        if self.pending == 0 {
            return Err(ClientError::Protocol);
        }
        match self.reader.get_reply() {
            Err(_) => Err(ClientError::Protocol),
            Ok(None) => Ok(None),
            Ok(Some(rep)) => {
                self.pending = self.pending - 1;
                Ok(Some(rep))
            },
        }
    }

    /// Clears the reader for a fresh stream after a protocol error; what
    /// was owed on the failed stream is no longer counted.
    pub fn reset_reader(&mut self)
        ensures
            final(self).in_buffer() == Seq::<u8>::empty(),
            !final(self).in_failed(),
            final(self).pending_count() == 0,
            final(self).in_max_bulk() == old(self).in_max_bulk(),
            final(self).out_buffer() == old(self).out_buffer(),
            final(self).is_broken() == old(self).is_broken(),
            final(self).wf() == old(self).wf(),
    {
        self.reader.reset();
        self.pending = 0;
    }

    /// How many replies are still owed.
    pub fn pending_replies(&self) -> (n: u64)
        ensures
            n == self.pending_count(),
    {
        self.pending
    }

    /// Whether the connection is in its terminal `Broken` state.
    pub fn broken(&self) -> (b: bool)
        ensures
            b == self.is_broken(),
    {
        self.broken
    }
}

} // verus!
