//! Byte sources that are read strictly forward.

use crate::error::Error;
use crate::nand::append_bytes;
use vstd::prelude::*;

verus! {

/// A source of bytes that is read strictly forward, to its end.
///
/// The model of a source is the bytes that it has yet to deliver.
pub trait ReadExt {
    /// The implementation's own consistency condition. An implementation
    /// that states none has none, and no contract speaks of it.
    open spec fn sound(&self) -> bool {
        false
    }

    /// The bytes that the source has yet to deliver.
    open spec fn pending(&self) -> Seq<u8> {
        Seq::empty()
    }

    /// Whether the source promises never to fail.
    open spec fn unfailing(&self) -> bool {
        false
    }

    /// Tries to read exactly `read_len` bytes, and is forgiving of an
    /// unexpected end of the source.
    ///
    /// The vector has exactly `read_len` bytes appended, unless the source
    /// ended, in which case it has all that was left appended, which is
    /// less. After an error the vector still begins with what it held.
    fn read_to_vec(&mut self, vec: &mut Vec<u8>, read_len: usize) -> (r: Result<(), Error>)
        requires
            old(self).sound(),
        ensures
            final(self).sound(),
            r is Ok ==> final(vec)@ == old(vec)@ + old(self).pending().take(
                taken(old(self).pending(), read_len),
            ),
            r is Ok ==> final(self).pending() == old(self).pending().skip(
                taken(old(self).pending(), read_len),
            ),
            r is Err ==> final(vec)@.len() >= old(vec)@.len() && final(vec)@.take(
                old(vec)@.len() as int,
            ) == old(vec)@,
            final(self).unfailing() == old(self).unfailing(),
            old(self).unfailing() ==> r is Ok,
    ;
}

/// How many bytes a read of `read_len` bytes takes from a source that has
/// `pending` left.
pub open spec fn taken(pending: Seq<u8>, read_len: usize) -> int {
    if read_len <= pending.len() {
        read_len as int
    } else {
        pending.len() as int
    }
}

/// A byte slice is a source that delivers its bytes and never fails.
impl<'a> ReadExt for &'a [u8] {
    open spec fn sound(&self) -> bool {
        true
    }

    open spec fn pending(&self) -> Seq<u8> {
        (*self)@
    }

    open spec fn unfailing(&self) -> bool {
        true
    }

    fn read_to_vec(&mut self, vec: &mut Vec<u8>, read_len: usize) -> (r: Result<(), Error>)
        ensures
            r is Ok,
    {
        let n = if read_len <= self.len() {
            read_len
        } else {
            self.len()
        };
        let (head, tail) = self.split_at(n);
        append_bytes(vec, head);
        *self = tail;
        Ok(())
    }
}

/// The buffer of a reader that is fed by a receiver of byte chunks: what
/// a chunk holds beyond the read that asked for it is kept for the reads to
/// come.
pub struct ReceiverReader {
    buffer: Vec<u8>,
}

impl View for ReceiverReader {
    type V = Seq<u8>;

    /// The bytes that are kept.
    closed spec fn view(&self) -> Seq<u8> {
        self.buffer@
    }
}

impl ReceiverReader {
    /// A reader that keeps nothing yet.
    pub fn new() -> (r: Self)
        ensures
            r@ == Seq::<u8>::empty(),
    {
        Self { buffer: Vec::new() }
    }

    /// Keep `data` behind what is kept already.
    pub fn push_to_buffer(&mut self, data: &[u8])
        ensures
            final(self)@ == old(self)@ + data@,
    {
        append_bytes(&mut self.buffer, data);
    }

    /// Move kept bytes to the front of `read_buf`, as many as there are
    /// and as it takes; the result is their number.
    pub fn take_buffered_bytes(&mut self, read_buf: &mut [u8]) -> (len: usize)
        ensures
            len == if old(self)@.len() <= old(read_buf)@.len() {
                old(self)@.len()
            } else {
                old(read_buf)@.len()
            },
            final(read_buf)@ == crate::nand::patched(
                old(read_buf)@,
                0,
                old(self)@.take(len as int),
            ),
            final(self)@ == old(self)@.skip(len as int),
    {
        let len = if self.buffer.len() <= read_buf.len() {
            self.buffer.len()
        } else {
            read_buf.len()
        };
        let ghost kept = self.buffer@;
        let ghost room = read_buf@;
        let mut i: usize = 0;
        assert(read_buf@ =~= crate::nand::patched(room, 0, kept.take(0)));
        while i < len
            invariant
                i <= len,
                len <= kept.len(),
                len <= room.len(),
                self.buffer@ == kept,
                read_buf@.len() == room.len(),
                read_buf@ == crate::nand::patched(room, 0, kept.take(i as int)),
            decreases len - i,
        {
            read_buf[i] = self.buffer[i];
            i += 1;
            assert(read_buf@ =~= crate::nand::patched(room, 0, kept.take(i as int)));
        }
        let mut rest: Vec<u8> = Vec::new();
        append_bytes(&mut rest, vstd::slice::slice_subrange(self.buffer.as_slice(), len, self.buffer.len()));
        self.buffer = rest;
        assert(self.buffer@ =~= kept.skip(len as int));
        len
    }

    /// Take a chunk that was received for a read into `read_buf` which is
    /// filled up to `position`: what fits goes into `read_buf`, the rest
    /// is kept. The result is the position up to which `read_buf` is
    /// filled then.
    pub fn accept(&mut self, read_buf: &mut [u8], position: usize, received: &[u8]) -> (filled: usize)
        requires
            position <= old(read_buf)@.len(),
        ensures
            filled == if received@.len() <= old(read_buf)@.len() - position {
                position + received@.len()
            } else {
                old(read_buf)@.len() as int
            },
            final(read_buf)@ == crate::nand::patched(
                old(read_buf)@,
                position as int,
                received@.take(filled - position),
            ),
            final(self)@ == old(self)@ + received@.skip(filled - position),
    {
        let total = read_buf.len();
        let room = total - position;
        let count = if received.len() <= room {
            received.len()
        } else {
            room
        };
        let ghost before = read_buf@;
        let mut i: usize = 0;
        assert(read_buf@ =~= crate::nand::patched(before, position as int, received@.take(0)));
        while i < count
            invariant
                i <= count,
                count <= received@.len(),
                position + count <= before.len(),
                total == before.len(),
                read_buf@.len() == before.len(),
                read_buf@ == crate::nand::patched(before, position as int, received@.take(i as int)),
            decreases count - i,
        {
            read_buf[position + i] = received[i];
            i += 1;
            assert(read_buf@ =~= crate::nand::patched(
                before,
                position as int,
                received@.take(i as int),
            ));
        }
        if count < received.len() {
            self.push_to_buffer(vstd::slice::slice_subrange(received, count, received.len()));
        } else {
            assert(received@.skip(count as int) =~= Seq::<u8>::empty());
            assert(self@ + Seq::<u8>::empty() =~= self@);
        }
        position + count
    }

    /// What a read that was filled up to `position` returns when the
    /// receiver fails: the bytes that it has, or the failure if it has none.
    pub fn after_failure(position: usize) -> (r: Option<usize>)
        ensures
            r == if position == 0 {
                None::<usize>
            } else {
                Some(position)
            },
    {
        if position == 0 {
            None
        } else {
            Some(position)
        }
    }
}

} // verus!
