use vstd::prelude::*;

verus! {

/// The mathematical value of a reader: the whole buffer and the cursor
/// position, which never lies past the end of the buffer.
pub ghost struct PacketReaderView {
    pub buffer: Seq<u8>,
    pub cursor: int,
}

/// The unsigned 16-bit value that two bytes spell in big-endian order.
pub open spec fn u16_from_be_bytes(hi: u8, lo: u8) -> u16 {
    (hi * 256 + lo) as u16
}

/// A cursor over a received packet's byte buffer, exposing sequential
/// big-endian integer reads and position control. Every read that would
/// run past the end of the buffer fails closed and leaves the reader
/// unchanged.
pub struct PacketReader {
    buffer: Vec<u8>,
    cursor: usize,
}

impl View for PacketReader {
    type V = PacketReaderView;

    closed spec fn view(&self) -> PacketReaderView {
        PacketReaderView { buffer: self.buffer@, cursor: self.cursor as int }
    }
}

impl PacketReader {
    /// True of every reader this module hands out: the cursor stays
    /// inside the buffer, at most one past its last byte.
    pub open spec fn wf(self) -> bool {
        0 <= self@.cursor <= self@.buffer.len()
    }

    pub fn new(buffer: Vec<u8>) -> (r: PacketReader)
        ensures
            r@.buffer == buffer@,
            r@.cursor == 0,
            r.wf(),
    {
        PacketReader { buffer, cursor: 0 }
    }

    /// The cursor position, counted in bytes from the start of the buffer.
    pub fn position(&self) -> (p: usize)
        ensures
            p == self@.cursor,
    {
        self.cursor
    }

    /// The length of the whole buffer.
    pub fn buffer_len(&self) -> (n: usize)
        ensures
            n == self@.buffer.len(),
    {
        self.buffer.len()
    }

    /// Moves the cursor to an absolute position inside the buffer.
    pub fn set_position(&mut self, pos: usize)
        requires
            pos <= old(self)@.buffer.len(),
        ensures
            final(self)@.buffer == old(self)@.buffer,
            final(self)@.cursor == pos,
            final(self).wf(),
    {
        self.cursor = pos;
    }

    /// Reads one byte and advances the cursor past it; fails when the
    /// cursor already stands at the end of the buffer.
    pub fn read_u8(&mut self) -> (r: Option<u8>)
        requires
            old(self).wf(),
        ensures
            final(self)@.buffer == old(self)@.buffer,
            final(self).wf(),
            r matches Some(b) ==> old(self)@.cursor < old(self)@.buffer.len() && b == old(
                self,
            )@.buffer[old(self)@.cursor] && final(self)@.cursor == old(self)@.cursor + 1,
            r is None <==> old(self)@.cursor == old(self)@.buffer.len(),
            r is None ==> final(self)@ == old(self)@,
    {
        if self.cursor < self.buffer.len() {
            let b = self.buffer[self.cursor];
            self.cursor = self.cursor + 1;
            Some(b)
        } else {
            None
        }
    }

    /// Reads a big-endian unsigned 16-bit integer and advances the cursor
    /// past its two bytes; fails when fewer than two bytes remain.
    pub fn read_u16_be(&mut self) -> (r: Option<u16>)
        requires
            old(self).wf(),
        ensures
            final(self)@.buffer == old(self)@.buffer,
            final(self).wf(),
            r matches Some(v) ==> old(self)@.cursor + 2 <= old(self)@.buffer.len() && v
                == u16_from_be_bytes(
                old(self)@.buffer[old(self)@.cursor],
                old(self)@.buffer[old(self)@.cursor + 1],
            ) && final(self)@.cursor == old(self)@.cursor + 2,
            r is None <==> old(self)@.cursor + 2 > old(self)@.buffer.len(),
            r is None ==> final(self)@ == old(self)@,
    {
        if self.cursor < self.buffer.len() && self.buffer.len() - self.cursor >= 2 {
            let hi = self.buffer[self.cursor];
            let lo = self.buffer[self.cursor + 1];
            self.cursor = self.cursor + 2;
            Some((hi as u16) * 256 + (lo as u16))
        } else {
            None
        }
    }

    /// Reads exactly `count` bytes as an owned payload and advances the
    /// cursor past them; fails when fewer than `count` bytes remain.
    pub fn read_bytes(&mut self, count: usize) -> (r: Option<Vec<u8>>)
        requires
            old(self).wf(),
        ensures
            final(self)@.buffer == old(self)@.buffer,
            final(self).wf(),
            r matches Some(payload) ==> old(self)@.cursor + count <= old(self)@.buffer.len()
                && payload@ == old(self)@.buffer.subrange(
                old(self)@.cursor,
                old(self)@.cursor + count,
            ) && final(self)@.cursor == old(self)@.cursor + count,
            r is None <==> old(self)@.cursor + count > old(self)@.buffer.len(),
            r is None ==> final(self)@ == old(self)@,
    {
        if count <= self.buffer.len() && self.cursor <= self.buffer.len() - count {
            let mut payload: Vec<u8> = Vec::new();
            let mut i: usize = 0;
            while i < count
                invariant
                    0 <= i <= count,
                    self.cursor + count <= self.buffer.len(),
                    payload@ == self.buffer@.subrange(
                        self.cursor as int,
                        self.cursor + i as int,
                    ),
                decreases count - i,
            {
                payload.push(self.buffer[self.cursor + i]);
                proof {
                    assert(payload@ =~= self.buffer@.subrange(
                        self.cursor as int,
                        self.cursor + (i + 1) as int,
                    ));
                }
                i = i + 1;
            }
            self.cursor = self.cursor + count;
            Some(payload)
        } else {
            None
        }
    }
}

} // verus!
