//! A packet-sized byte buffer with a cursor, and bounds-checked access to it.

use crate::error::CodecError;
use vstd::prelude::*;
use vstd::slice::slice_subrange;

verus! {

/// Number of bytes a packet buffer holds: the payload limit of a DNS message
/// carried over UDP.
pub const PACKET_TRANSPORT_LIMIT: usize = 512;

/// A fixed-size byte region together with the offset of the next sequential
/// read or write.
pub struct BytePacketBuffer {
    pub buffer: [u8; PACKET_TRANSPORT_LIMIT],
    pub position: usize,
}

/// The mathematical content of a packet buffer.
pub struct PacketView {
    /// The stored bytes; always `PACKET_TRANSPORT_LIMIT` of them.
    pub bytes: Seq<u8>,
    /// The cursor. Nothing keeps it inside the storage: an access checks it.
    pub cursor: nat,
}

impl PacketView {
    /// Whether this is the content of a buffer: the storage has its size.
    pub open spec fn wf(self) -> bool {
        self.bytes.len() == PACKET_TRANSPORT_LIMIT
    }

    /// Whether the cursor stands in the storage or at its end.
    pub open spec fn in_bounds(self) -> bool {
        self.cursor <= PACKET_TRANSPORT_LIMIT
    }

    /// How many bytes a sequential read or write can still reach.
    pub open spec fn room(self) -> nat {
        if self.cursor >= PACKET_TRANSPORT_LIMIT {
            0
        } else {
            (PACKET_TRANSPORT_LIMIT - self.cursor) as nat
        }
    }

    /// The byte at offset `k` from the cursor.
    pub open spec fn ahead(self, k: nat) -> u8 {
        self.bytes[(self.cursor + k) as int]
    }

    /// How many of `wanted` bytes a sequential access gets through before
    /// the storage ends.
    pub open spec fn reach(self, wanted: nat) -> nat {
        if wanted <= self.room() {
            wanted
        } else {
            self.room()
        }
    }

    /// The buffer after the cursor went over the bytes that a sequential
    /// read of `wanted` bytes reaches.
    pub open spec fn consumed(self, wanted: nat) -> PacketView {
        PacketView { bytes: self.bytes, cursor: self.cursor + self.reach(wanted) }
    }

    /// The buffer after a sequential write of `data`: the bytes that fit are
    /// stored from the cursor on, in order, and the cursor stands behind them.
    pub open spec fn written(self, data: Seq<u8>) -> PacketView {
        PacketView {
            bytes: Seq::new(
                self.bytes.len(),
                |i: int|
                    if self.cursor <= i < self.cursor + self.reach(data.len()) {
                        data[i - self.cursor]
                    } else {
                        self.bytes[i]
                    },
            ),
            cursor: self.cursor + self.reach(data.len()),
        }
    }
}

/// The number that two bytes spell in network byte order.
pub open spec fn be16(b0: u8, b1: u8) -> int {
    b0 * 0x100 + b1
}

/// The number that four bytes spell in network byte order.
pub open spec fn be32(b0: u8, b1: u8, b2: u8, b3: u8) -> int {
    b0 * 0x100_0000 + b1 * 0x1_0000 + b2 * 0x100 + b3
}

/// The two bytes of `value` in network byte order.
pub open spec fn be16_bytes(value: u16) -> Seq<u8> {
    seq![(value / 0x100) as u8, (value % 0x100) as u8]
}

/// The four bytes of `value` in network byte order.
pub open spec fn be32_bytes(value: u32) -> Seq<u8> {
    seq![
        (value / 0x100_0000) as u8,
        (value / 0x1_0000 % 0x100) as u8,
        (value / 0x100 % 0x100) as u8,
        (value % 0x100) as u8,
    ]
}

/// The bytes of a 16-bit number spell that number.
pub proof fn lemma_be16_of_bytes(value: u16)
    ensures
        be16(be16_bytes(value)[0], be16_bytes(value)[1]) == value,
{
}

/// The bytes of a 32-bit number spell that number.
pub proof fn lemma_be32_of_bytes(value: u32)
    ensures
        be32(
            be32_bytes(value)[0],
            be32_bytes(value)[1],
            be32_bytes(value)[2],
            be32_bytes(value)[3],
        ) == value,
{
}

/// Reading and writing in sequence never take the cursor out of the storage:
/// only `seek` and `step` can put it beyond the end.
pub proof fn lemma_sequential_in_bounds(v: PacketView, wanted: nat, data: Seq<u8>)
    requires
        v.in_bounds(),
    ensures
        v.consumed(wanted).in_bounds(),
        v.written(data).in_bounds(),
{
}

/// Writing `first` and then `second` is writing their concatenation.
pub proof fn lemma_written_twice(v: PacketView, first: Seq<u8>, second: Seq<u8>)
    ensures
        v.written(first).written(second) == v.written(first + second),
{
    let a = v.written(first).written(second);
    let b = v.written(first + second);
    assert(a.cursor == b.cursor);
    assert(a.bytes =~= b.bytes);
}

/// A write that finds no room changes nothing.
pub proof fn lemma_written_without_room(v: PacketView, data: Seq<u8>)
    ensures
        v.room() == 0 ==> v.written(data) == v,
{
    if v.room() == 0 {
        assert(v.written(data).bytes =~= v.bytes);
    }
}

/// Once a write has used the room up, nothing written behind it arrives.
pub proof fn lemma_written_full(v: PacketView, data: Seq<u8>, more: Seq<u8>)
    ensures
        v.written(data).room() == 0 ==> v.written(data + more) == v.written(data),
{
    lemma_written_twice(v, data, more);
    lemma_written_without_room(v.written(data), more);
}

impl View for BytePacketBuffer {
    type V = PacketView;

    open spec fn view(&self) -> PacketView {
        PacketView { bytes: self.buffer@, cursor: self.position as nat }
    }
}

impl BytePacketBuffer {
    /// A zero-filled buffer with the cursor at its start.
    pub fn new() -> (b: BytePacketBuffer)
        ensures
            b@.bytes == Seq::new(PACKET_TRANSPORT_LIMIT as nat, |i: int| 0u8),
            b@.cursor == 0,
    {
        BytePacketBuffer { buffer: [0; PACKET_TRANSPORT_LIMIT], position: 0 }
    }

    /// The cursor.
    pub fn position(&self) -> (p: usize)
        ensures
            p == self@.cursor,
    {
        self.position
    }

    /// Moves the cursor forward by `steps` without touching the storage, to
    /// skip what need not be read. Like `seek` it does not ask where the
    /// cursor comes to stand; the sum must fit the cursor's type.
    pub fn step(&mut self, steps: usize) -> (r: Result<(), CodecError>)
        requires
            old(self)@.cursor + steps <= usize::MAX,
        ensures
            r is Ok,
            final(self)@.cursor == old(self)@.cursor + steps,
            final(self)@.bytes == old(self)@.bytes,
    {
        self.position += steps;
        Ok(())
    }

    /// Puts the cursor at `position`, wherever that is: a position outside
    /// the storage is refused by the next access, not here.
    pub fn seek(&mut self, position: usize) -> (r: Result<(), CodecError>)
        ensures
            r is Ok,
            final(self)@.cursor == position,
            final(self)@.bytes == old(self)@.bytes,
    {
        self.position = position;
        Ok(())
    }

    /// Reads the byte under the cursor and moves the cursor past it. A
    /// cursor outside the storage is refused and stays where it is.
    pub fn read(&mut self) -> (r: Result<u8, CodecError>)
        ensures
            final(self)@ == old(self)@.consumed(1),
            r == if old(self)@.room() >= 1 {
                Ok::<u8, CodecError>(old(self)@.ahead(0))
            } else {
                Err::<u8, CodecError>(CodecError::BufferOverrun)
            },
    {
        if self.position >= PACKET_TRANSPORT_LIMIT {
            return Err(CodecError::BufferOverrun);
        }
        let result = self.buffer[self.position];
        self.position += 1;
        Ok(result)
    }

    /// The byte at `position`, which must lie in the storage; the cursor
    /// stays where it is.
    pub fn get(&mut self, position: usize) -> (r: Result<u8, CodecError>)
        ensures
            *final(self) == *old(self),
            r == if position < PACKET_TRANSPORT_LIMIT {
                Ok::<u8, CodecError>(old(self)@.bytes[position as int])
            } else {
                Err::<u8, CodecError>(CodecError::BufferOverrun)
            },
    {
        if position >= PACKET_TRANSPORT_LIMIT {
            return Err(CodecError::BufferOverrun);
        }
        Ok(self.buffer[position])
    }

    /// The `length` bytes that start at `start`; the cursor stays where it
    /// is. The range must end before the last byte of the storage: one that
    /// takes in the last byte is refused like one that goes beyond it.
    pub fn get_range(&mut self, start: usize, length: usize) -> (r: Result<&[u8], CodecError>)
        ensures
            *final(self) == *old(self),
            start + length < PACKET_TRANSPORT_LIMIT ==> r is Ok && r->Ok_0@
                == old(self)@.bytes.subrange(start as int, start + length),
            start + length >= PACKET_TRANSPORT_LIMIT ==> r == Err::<&[u8], CodecError>(
                CodecError::BufferOverrun,
            ),
    {
        if start >= PACKET_TRANSPORT_LIMIT || length >= PACKET_TRANSPORT_LIMIT - start {
            return Err(CodecError::BufferOverrun);
        }
        let result = slice_subrange(self.buffer.as_slice(), start, start + length);
        Ok(result)
    }

    /// Reads two bytes as a number in network byte order. The bytes are read
    /// one by one: where the storage ends after the first, the cursor stays
    /// behind that byte.
    pub fn read_u16(&mut self) -> (r: Result<u16, CodecError>)
        ensures
            final(self)@ == old(self)@.consumed(2),
            old(self)@.room() >= 2 ==> r == Ok::<u16, CodecError>(
                be16(old(self)@.ahead(0), old(self)@.ahead(1)) as u16,
            ),
            old(self)@.room() < 2 ==> r == Err::<u16, CodecError>(CodecError::BufferOverrun),
    {
        let b0 = self.read()?;
        let b1 = self.read()?;
        let result = ((b0 as u16) << 8) | (b1 as u16);
        assert(((b0 as u16) << 8) | (b1 as u16) == b0 * 0x100 + b1) by (bit_vector);
        Ok(result)
    }

    /// Reads four bytes as a number in network byte order, one by one as
    /// `read_u16` does.
    pub fn read_u32(&mut self) -> (r: Result<u32, CodecError>)
        ensures
            final(self)@ == old(self)@.consumed(4),
            old(self)@.room() >= 4 ==> r == Ok::<u32, CodecError>(
                be32(
                    old(self)@.ahead(0),
                    old(self)@.ahead(1),
                    old(self)@.ahead(2),
                    old(self)@.ahead(3),
                ) as u32,
            ),
            old(self)@.room() < 4 ==> r == Err::<u32, CodecError>(CodecError::BufferOverrun),
    {
        let b0 = self.read()?;
        let b1 = self.read()?;
        let b2 = self.read()?;
        let b3 = self.read()?;
        let result = ((b0 as u32) << 24) | ((b1 as u32) << 16) | ((b2 as u32) << 8) | ((b3 as u32)
            << 0);
        assert(((b0 as u32) << 24) | ((b1 as u32) << 16) | ((b2 as u32) << 8) | ((b3 as u32) << 0)
            == b0 * 0x100_0000 + b1 * 0x1_0000 + b2 * 0x100 + b3) by (bit_vector);
        Ok(result)
    }

    /// Stores `value` under the cursor and moves the cursor past it.
    pub fn write(&mut self, value: u8) -> (r: Result<(), CodecError>)
        ensures
            final(self)@ == old(self)@.written(seq![value]),
            r == if old(self)@.room() >= 1 {
                Ok::<(), CodecError>(())
            } else {
                Err::<(), CodecError>(CodecError::BufferOverrun)
            },
    {
        if self.position >= PACKET_TRANSPORT_LIMIT {
            assert(self@.bytes =~= old(self)@.written(seq![value]).bytes);
            return Err(CodecError::BufferOverrun);
        }
        self.buffer[self.position] = value;
        self.position += 1;
        assert(self@.bytes =~= old(self)@.written(seq![value]).bytes);
        Ok(())
    }

    /// Stores one byte, as `write` does.
    pub fn write_u8(&mut self, value: u8) -> (r: Result<(), CodecError>)
        ensures
            final(self)@ == old(self)@.written(seq![value]),
            r == if old(self)@.room() >= 1 {
                Ok::<(), CodecError>(())
            } else {
                Err::<(), CodecError>(CodecError::BufferOverrun)
            },
    {
        self.write(value)?;
        Ok(())
    }

    /// Stores `value` in network byte order. The bytes are written one by
    /// one: those that fit are stored even where the call fails.
    pub fn write_u16(&mut self, value: u16) -> (r: Result<(), CodecError>)
        ensures
            final(self)@ == old(self)@.written(be16_bytes(value)),
            r == if old(self)@.room() >= 2 {
                Ok::<(), CodecError>(())
            } else {
                Err::<(), CodecError>(CodecError::BufferOverrun)
            },
    {
        assert(value >> 8 == value / 0x100 && value & 0xFF == value % 0x100) by (bit_vector);
        let b0 = (value >> 8) as u8;
        let b1 = (value & 0xFF) as u8;
        proof {
            assert(seq![b0] + seq![b1] =~= be16_bytes(value));
            lemma_written_twice(self@, seq![b0], seq![b1]);
            lemma_written_without_room(self@.written(seq![b0]), seq![b1]);
        }
        self.write(b0)?;
        self.write(b1)?;
        Ok(())
    }

    /// Stores `value` in network byte order, byte by byte as `write_u16`
    /// does.
    pub fn write_u32(&mut self, value: u32) -> (r: Result<(), CodecError>)
        ensures
            final(self)@ == old(self)@.written(be32_bytes(value)),
            r == if old(self)@.room() >= 4 {
                Ok::<(), CodecError>(())
            } else {
                Err::<(), CodecError>(CodecError::BufferOverrun)
            },
    {
        assert((value >> 24) & 0xFF == value / 0x100_0000 && (value >> 16) & 0xFF == value
            / 0x1_0000 % 0x100 && (value >> 8) & 0xFF == value / 0x100 % 0x100 && (value >> 0)
            & 0xFF == value % 0x100) by (bit_vector);
        let b0 = ((value >> 24) & 0xFF) as u8;
        let b1 = ((value >> 16) & 0xFF) as u8;
        let b2 = ((value >> 8) & 0xFF) as u8;
        let b3 = ((value >> 0) & 0xFF) as u8;
        proof {
            let v0 = self@;
            let v1 = v0.written(seq![b0]);
            let v2 = v1.written(seq![b1]);
            let v3 = v2.written(seq![b2]);
            assert(seq![b0] + seq![b1] + seq![b2] + seq![b3] =~= be32_bytes(value));
            lemma_written_twice(v0, seq![b0], seq![b1]);
            lemma_written_twice(v0, seq![b0] + seq![b1], seq![b2]);
            lemma_written_twice(v0, seq![b0] + seq![b1] + seq![b2], seq![b3]);
            lemma_written_without_room(v1, seq![b1]);
            lemma_written_without_room(v2, seq![b2]);
            lemma_written_without_room(v3, seq![b3]);
        }
        self.write(b0)?;
        self.write(b1)?;
        self.write(b2)?;
        self.write(b3)?;
        Ok(())
    }
}

} // verus!
