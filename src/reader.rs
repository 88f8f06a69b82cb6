//! Incremental framing of a byte stream.
//!
//! A `FrameReader` holds the bytes received but not yet decoded. The caller
//! owns the stream: it asks `parse_frame` for a frame, and when more bytes are
//! needed it reads at most `spare` bytes and hands them to `on_read`.
use vstd::prelude::*;
use bytes::{Buf, BytesMut};
use crate::frame::{
    check, decode_spec, encodable, encoding, lemma_prefix_incomplete, lemma_round_trip, parse,
    Frame, FrameError, FrameView,
};

verus! {

#[verifier::external_type_specification]
#[verifier::external_body]
pub struct ExBytesMut(BytesMut);

/// The bytes that a `BytesMut` holds.
pub uninterp spec fn buffer_contents(b: BytesMut) -> Seq<u8>;

/// Relies on `BytesMut::with_capacity`: the new buffer holds no bytes.
#[verifier::external_body]
fn buffer_with_capacity(capacity: usize) -> (r: BytesMut)
    ensures
        buffer_contents(r) == Seq::<u8>::empty(),
{
    BytesMut::with_capacity(capacity)
}

/// Relies on `BytesMut`'s `Deref` to `[u8]`: the slice is the bytes it holds.
#[verifier::external_body]
fn buffer_bytes(b: &BytesMut) -> (r: &[u8])
    ensures
        r@ == buffer_contents(*b),
{
    &b[..]
}

/// Relies on `BytesMut::extend_from_slice`: appends the bytes; it panics
/// only when the new length exceeds `isize::MAX`.
#[verifier::external_body]
fn buffer_extend(b: &mut BytesMut, data: &[u8])
    requires
        buffer_contents(*old(b)).len() + data@.len() <= isize::MAX,
    ensures
        buffer_contents(*final(b)) == buffer_contents(*old(b)) + data@,
{
    b.extend_from_slice(data)
}

/// Relies on `Buf::advance` for `BytesMut`: drops the first `n` bytes; it
/// panics only when `n` exceeds the length.
#[verifier::external_body]
fn buffer_advance(b: &mut BytesMut, n: usize)
    requires
        n <= buffer_contents(*old(b)).len(),
    ensures
        buffer_contents(*final(b)) == buffer_contents(*old(b)).subrange(
            n as int,
            buffer_contents(*old(b)).len() as int,
        ),
{
    b.advance(n)
}

/// Capacity of a new reader's buffer.
pub const INITIAL_CAPACITY: usize = 4096;

/// The largest capacity: no buffer may exceed `isize::MAX` bytes.
pub const MAX_CAPACITY: usize = isize::MAX as usize;

/// The capacity after growing a full buffer of capacity `c`: it doubles,
/// up to `MAX_CAPACITY`.
pub open spec fn grown(c: nat) -> nat {
    if c * 2 <= MAX_CAPACITY {
        c * 2
    } else {
        MAX_CAPACITY as nat
    }
}

/// What a read of the stream meant.
#[derive(Debug, Clone, Copy, PartialEq, Eq, Structural)]
pub enum Progress {
    /// Bytes arrived; try to decode again.
    Continue,
    /// The stream ended cleanly, between frames.
    EndOfStream,
}

/// Bytes received from a stream and not yet decoded, and the room for more.
pub struct FrameReader {
    buffer: BytesMut,
    capacity: usize,
}

impl FrameReader {
    /// The bytes received and not yet decoded.
    pub closed spec fn pending(&self) -> Seq<u8> {
        buffer_contents(self.buffer)
    }

    /// How many bytes the buffer may hold before it grows.
    pub closed spec fn capacity(&self) -> nat {
        self.capacity as nat
    }

    pub closed spec fn wf(&self) -> bool {
        buffer_contents(self.buffer).len() <= self.capacity && 0 < self.capacity <= MAX_CAPACITY
    }

    pub fn new() -> (r: FrameReader)
        ensures
            r.wf(),
            r.pending() == Seq::<u8>::empty(),
            r.capacity() == INITIAL_CAPACITY,
    {
        FrameReader { buffer: buffer_with_capacity(INITIAL_CAPACITY), capacity: INITIAL_CAPACITY }
    }

    /// How many more bytes the buffer takes before it must grow.
    pub fn spare(&self) -> (r: usize)
        requires
            self.wf(),
        ensures
            r == self.capacity() - self.pending().len(),
    {
        self.capacity - buffer_bytes(&self.buffer).len()
    }

    /// Decodes the frame at the front of the pending bytes and removes its
    /// bytes. Where more bytes are needed it returns `Ok(None)`, and grows a
    /// full buffer first so that the next read has room.
    pub fn parse_frame(&mut self) -> (r: Result<Option<Frame>, FrameError>)
        requires
            old(self).wf(),
        ensures
            final(self).wf(),
            match decode_spec(old(self).pending()) {
                Ok((f, n)) => {
                    &&& r is Ok
                    &&& r->Ok_0 is Some
                    &&& r->Ok_0->Some_0@ == f
                    &&& final(self).pending() == old(self).pending().subrange(
                        n,
                        old(self).pending().len() as int,
                    )
                    &&& final(self).capacity() == old(self).capacity()
                },
                Err(FrameError::Incomplete) => {
                    &&& r == Ok::<Option<Frame>, FrameError>(None)
                    &&& final(self).pending() == old(self).pending()
                    &&& final(self).capacity() == if old(self).pending().len()
                        == old(self).capacity() {
                        grown(old(self).capacity())
                    } else {
                        old(self).capacity()
                    }
                    &&& old(self).capacity() < MAX_CAPACITY ==> final(self).pending().len()
                        < final(self).capacity()
                },
                Err(e) => {
                    &&& r == Err::<Option<Frame>, FrameError>(e)
                    &&& final(self).pending() == old(self).pending()
                    &&& final(self).capacity() == old(self).capacity()
                },
            },
    {
        let pending = buffer_bytes(&self.buffer);
        match check(pending) {
            Ok(n) => match parse(pending) {
                Ok(frame) => {
                    buffer_advance(&mut self.buffer, n);
                    Ok(Some(frame))
                },
                Err(e) => Err(e),
            },
            Err(FrameError::Incomplete) => {
                if pending.len() == self.capacity {
                    if self.capacity <= MAX_CAPACITY / 2 {
                        self.capacity = self.capacity * 2;
                    } else {
                        self.capacity = MAX_CAPACITY;
                    }
                }
                Ok(None)
            },
            Err(e) => Err(e),
        }
    }

    /// Takes the bytes of one read of the stream. No bytes means the peer
    /// closed it: cleanly where nothing is pending, else in the middle of a
    /// frame.
    pub fn on_read(&mut self, data: &[u8]) -> (r: Result<Progress, FrameError>)
        requires
            old(self).wf(),
            data@.len() <= old(self).capacity() - old(self).pending().len(),
        ensures
            final(self).wf(),
            final(self).capacity() == old(self).capacity(),
            data@.len() == 0 ==> final(self).pending() == old(self).pending() && r == if old(
                self,
            ).pending().len() == 0 {
                Ok::<Progress, FrameError>(Progress::EndOfStream)
            } else {
                Err::<Progress, FrameError>(FrameError::ConnectionReset)
            },
            data@.len() > 0 ==> final(self).pending() == old(self).pending() + data@ && r == Ok::<
                Progress,
                FrameError,
            >(Progress::Continue),
    {
        if data.len() == 0 {
            if buffer_bytes(&self.buffer).len() == 0 {
                return Ok(Progress::EndOfStream);
            } else {
                return Err(FrameError::ConnectionReset);
            }
        }
        buffer_extend(&mut self.buffer, data);
        Ok(Progress::Continue)
    }
}

/// However the bytes of an encoded frame are split into reads, what
/// `parse_frame` decodes depends only on the bytes received so far: before
/// the last byte of the frame it asks for more, and once the whole frame is
/// pending, whatever follows it, it yields exactly that frame.
pub proof fn lemma_chunked_reads(f: FrameView, k: int, rest: Seq<u8>)
    requires
        encodable(f),
        0 <= k < encoding(f).len(),
    ensures
        decode_spec(encoding(f).subrange(0, k)) == Err::<(FrameView, int), FrameError>(
            FrameError::Incomplete,
        ),
        decode_spec(encoding(f) + rest) == Ok::<(FrameView, int), FrameError>(
            (f, encoding(f).len() as int),
        ),
{
    lemma_prefix_incomplete(f, k);
    lemma_round_trip(f, rest);
}

} // verus!
