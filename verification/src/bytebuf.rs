//! An owned read/write message buffer: the same positioned reads and
//! appending writes as the borrowing reader and the builder, over a byte
//! vector the buffer owns. Handy where a datagram is decoded and a reply
//! built in place.

use vstd::prelude::*;

use crate::buffer::{
    spec_read_bytes, spec_read_name, spec_read_u16, spec_read_u32, spec_read_u8, u16_bytes,
    u32_bytes, DnsReadBuffer, DnsWriteBuffer, NAME_HOP_LIMIT,
};
use crate::name::{spec_name_bytes, valid_name, DnsName};

verus! {

/// Errors of owned-buffer reads and writes.
#[derive(Debug, Clone, Copy, PartialEq, Eq, Structural)]
pub enum BufferError {
    /// A read ran past the end of the buffer.
    EndOfBuffer,
    /// A name was malformed.
    InvalidName,
    /// A label of more than 63 bytes was handed to the writer.
    LabelTooLong,
}

/// An owned byte buffer with a read cursor; writes append at the end.
#[derive(Debug)]
pub struct Buffer {
    data: Vec<u8>,
    index: usize,
}

impl View for Buffer {
    type V = (Seq<u8>, int);

    closed spec fn view(&self) -> (Seq<u8>, int) {
        (self.data@, self.index as int)
    }
}

impl Buffer {
    /// A buffer over the given bytes, with the cursor at the start.
    pub fn new(buffer: Vec<u8>) -> (r: Self)
        ensures
            r@ == (buffer@, 0int),
    {
        Buffer { data: buffer, index: 0 }
    }

    /// The bytes held.
    pub fn get_data(&self) -> (r: &Vec<u8>)
        ensures
            r@ == self@.0,
    {
        &self.data
    }

    /// The cursor position.
    pub fn get_index(&self) -> (r: usize)
        ensures
            r == self@.1,
    {
        self.index
    }

    /// Moves the cursor. Fails if the offset lies past the end.
    pub fn set_index(&mut self, off: usize) -> (r: Result<(), BufferError>)
        ensures
            final(self)@.0 == old(self)@.0,
            off <= old(self)@.0.len() ==> r is Ok && final(self)@.1 == off,
            off > old(self)@.0.len() ==> r == Err::<(), BufferError>(BufferError::EndOfBuffer)
                && final(self)@.1 == old(self)@.1,
    {
        if off > self.data.len() {
            return Err(BufferError::EndOfBuffer);
        }
        self.index = off;
        Ok(())
    }

    /// Reads one byte and advances the cursor.
    pub fn read_u8(&mut self) -> (r: Result<u8, BufferError>)
        ensures
            final(self)@.0 == old(self)@.0,
            match spec_read_u8(old(self)@.0, old(self)@.1) {
                Ok((v, j)) => r == Ok::<u8, BufferError>(v) && final(self)@.1 == j,
                Err(_) => r == Err::<u8, BufferError>(BufferError::EndOfBuffer) && final(self)@.1
                    == old(self)@.1,
            },
    {
        if self.index >= self.data.len() {
            return Err(BufferError::EndOfBuffer);
        }
        let b = self.data[self.index];
        self.index = self.index + 1;
        Ok(b)
    }

    /// Reads a big-endian 16-bit value and advances the cursor.
    pub fn read_u16(&mut self) -> (r: Result<u16, BufferError>)
        ensures
            final(self)@.0 == old(self)@.0,
            match spec_read_u16(old(self)@.0, old(self)@.1) {
                Ok((v, j)) => r == Ok::<u16, BufferError>(v) && final(self)@.1 == j,
                Err(_) => r == Err::<u16, BufferError>(BufferError::EndOfBuffer) && final(self)@.1
                    == old(self)@.1,
            },
    {
        if self.data.len() < 2 || self.index > self.data.len() - 2 {
            return Err(BufferError::EndOfBuffer);
        }
        let hi = self.data[self.index];
        let lo = self.data[self.index + 1];
        self.index = self.index + 2;
        Ok((hi as u16) * 256 + (lo as u16))
    }

    /// Reads a big-endian 32-bit value and advances the cursor.
    pub fn read_u32(&mut self) -> (r: Result<u32, BufferError>)
        ensures
            final(self)@.0 == old(self)@.0,
            match spec_read_u32(old(self)@.0, old(self)@.1) {
                Ok((v, j)) => r == Ok::<u32, BufferError>(v) && final(self)@.1 == j,
                Err(_) => r == Err::<u32, BufferError>(BufferError::EndOfBuffer) && final(self)@.1
                    == old(self)@.1,
            },
    {
        if self.data.len() < 4 || self.index > self.data.len() - 4 {
            return Err(BufferError::EndOfBuffer);
        }
        let b0 = self.data[self.index];
        let b1 = self.data[self.index + 1];
        let b2 = self.data[self.index + 2];
        let b3 = self.data[self.index + 3];
        self.index = self.index + 4;
        Ok((b0 as u32) * 0x1000000 + (b1 as u32) * 0x10000 + (b2 as u32) * 0x100 + (b3 as u32))
    }

    /// Reads `n` bytes as a fresh vector and advances the cursor.
    pub fn read_n_bytes(&mut self, n: usize) -> (r: Result<Vec<u8>, BufferError>)
        ensures
            final(self)@.0 == old(self)@.0,
            match spec_read_bytes(old(self)@.0, old(self)@.1, n as int) {
                Ok((bytes, j)) => r matches Ok(v) && v@ == bytes && final(self)@.1 == j,
                Err(_) => r == Err::<Vec<u8>, BufferError>(BufferError::EndOfBuffer)
                    && final(self)@.1 == old(self)@.1,
            },
    {
        if n > self.data.len() || self.index > self.data.len() - n {
            return Err(BufferError::EndOfBuffer);
        }
        let s = vstd::slice::slice_subrange(self.data.as_slice(), self.index, self.index + n);
        let v = vstd::slice::slice_to_vec(s);
        self.index = self.index + n;
        Ok(v)
    }

    /// Reads a possibly-compressed domain name starting at the cursor and
    /// leaves the cursor just past the first compression pointer, or past
    /// the terminating zero octet if the name had none.
    pub fn read_str(&mut self) -> (r: Result<DnsName, BufferError>)
        ensures
            final(self)@.0 == old(self)@.0,
            match r {
                Ok(name) => {
                    &&& spec_read_name(old(self)@.0, old(self)@.1, 0, NAME_HOP_LIMIT as int)
                        == Ok::<_, crate::buffer::DnsBufferError>((name@, final(self)@.1))
                    &&& valid_name(name@)
                },
                Err(e) => {
                    &&& (match spec_read_name(
                        old(self)@.0,
                        old(self)@.1,
                        0,
                        NAME_HOP_LIMIT as int,
                    ) {
                        Ok(_) => false,
                        Err(inner) => e == (match inner {
                            crate::buffer::DnsBufferError::EndOfBuffer => BufferError::EndOfBuffer,
                            crate::buffer::DnsBufferError::InvalidName => BufferError::InvalidName,
                            crate::buffer::DnsBufferError::LabelTooLong => BufferError::LabelTooLong,
                        }),
                    })
                    &&& final(self)@.1 == old(self)@.1
                },
            },
    {
        match DnsReadBuffer::read_name_at(self.data.as_slice(), self.index) {
            Ok((name, end)) => {
                proof {
                    crate::buffer::lemma_spec_read_name_valid(
                        self.data@,
                        self.index as int,
                        0,
                        NAME_HOP_LIMIT as int,
                    );
                }
                self.index = end;
                Ok(name)
            },
            Err(e) => {
                match e {
                    crate::buffer::DnsBufferError::EndOfBuffer => Err(BufferError::EndOfBuffer),
                    crate::buffer::DnsBufferError::InvalidName => Err(BufferError::InvalidName),
                    crate::buffer::DnsBufferError::LabelTooLong => Err(BufferError::LabelTooLong),
                }
            },
        }
    }

    /// Appends one byte.
    pub fn write_u8(&mut self, value: u8)
        ensures
            final(self)@.0 == old(self)@.0.push(value),
            final(self)@.1 == old(self)@.1,
    {
        self.data.push(value);
    }

    /// Appends a 16-bit value, big-endian.
    pub fn write_u16(&mut self, value: u16)
        ensures
            final(self)@.0 == old(self)@.0 + u16_bytes(value),
            final(self)@.1 == old(self)@.1,
    {
        let ghost before = self.data@;
        self.data.push((value / 256) as u8);
        self.data.push((value % 256) as u8);
        proof {
            assert(self.data@ =~= before + u16_bytes(value));
        }
    }

    /// Appends a 32-bit value, big-endian.
    pub fn write_u32(&mut self, value: u32)
        ensures
            final(self)@.0 == old(self)@.0 + u32_bytes(value),
            final(self)@.1 == old(self)@.1,
    {
        let ghost before = self.data@;
        self.data.push((value / 0x1000000) as u8);
        self.data.push(((value / 0x10000) % 256) as u8);
        self.data.push(((value / 0x100) % 256) as u8);
        self.data.push((value % 256) as u8);
        proof {
            assert(self.data@ =~= before + u32_bytes(value));
        }
    }

    /// Appends raw bytes.
    pub fn write_bytes(&mut self, bytes: &[u8])
        ensures
            final(self)@.0 == old(self)@.0 + bytes@,
            final(self)@.1 == old(self)@.1,
    {
        let ghost before = self.data@;
        let mut i: usize = 0;
        while i < bytes.len()
            invariant
                i <= bytes@.len(),
                self.data@ == before + bytes@.subrange(0, i as int),
                self.index == old(self).index,
            decreases bytes@.len() - i,
        {
            self.data.push(bytes[i]);
            i = i + 1;
            proof {
                assert(before + bytes@.subrange(0, i - 1) + seq![bytes@[i - 1]] =~= before
                    + bytes@.subrange(0, i as int));
            }
        }
        proof {
            assert(before + bytes@.subrange(0, bytes@.len() as int) =~= before + bytes@);
        }
    }

    /// Appends a domain name in uncompressed wire form. Fails, writing
    /// nothing, if a label is longer than 63 bytes.
    pub fn write_str(&mut self, name: &DnsName) -> (r: Result<(), BufferError>)
        ensures
            final(self)@.1 == old(self)@.1,
            (forall|i: int| 0 <= i < name@.len() ==> #[trigger] name@[i].len() <= 63) <==> r
                is Ok,
            r is Ok ==> final(self)@.0 == old(self)@.0 + spec_name_bytes(name@),
            r is Err ==> final(self)@.0 == old(self)@.0 && r == Err::<(), BufferError>(
                BufferError::LabelTooLong,
            ),
    {
        let mut w = DnsWriteBuffer::new();
        match w.write_str(name) {
            Ok(_) => {
                let bytes = w.into_inner();
                self.write_bytes(bytes.as_slice());
                proof {
                    assert(old(self)@.0 + (Seq::<u8>::empty() + spec_name_bytes(name@))
                        =~= old(self)@.0 + spec_name_bytes(name@));
                }
                Ok(())
            },
            Err(_) => Err(BufferError::LabelTooLong),
        }
    }
}

} // verus!