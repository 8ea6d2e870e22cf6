//! Positioned, bounds-checked readers and an append-only writer over DNS
//! message bytes, including the compression-aware domain-name codec.
//!
//! Every read is specified against a pure function of the underlying bytes,
//! so the message codec can be proved against byte-level parsing functions.

use vstd::prelude::*;

use crate::name::{
    is_utf8, is_utf8_exec, labels_view, spec_labels_bytes, spec_name_bytes, total_label_len,
    valid_label, valid_name, DnsName,
};

verus! {

/// Errors of buffer reads and writes.
#[derive(Debug, Clone, Copy, PartialEq, Eq, Structural)]
pub enum DnsBufferError {
    /// A read ran past the end of the buffer.
    EndOfBuffer,
    /// A name was malformed: a reserved length tag, a bad compression
    /// pointer, too many pointer hops, over-long label data, or a label
    /// that is not valid UTF-8.
    InvalidName,
    /// A label of more than 63 bytes was handed to the writer.
    LabelTooLong,
}

/// How many compression-pointer hops one name may take before it is
/// rejected as a pointer loop.
pub const NAME_HOP_LIMIT: u32 = 32;

/// The 16-bit value that two big-endian bytes spell.
pub open spec fn u16_of(hi: u8, lo: u8) -> u16 {
    ((hi as int) * 256 + (lo as int)) as u16
}

/// The high byte of a 16-bit value.
pub open spec fn u16_hi(v: u16) -> u8 {
    ((v as int) / 256) as u8
}

/// The low byte of a 16-bit value.
pub open spec fn u16_lo(v: u16) -> u8 {
    ((v as int) % 256) as u8
}

/// The 32-bit value that four big-endian bytes spell.
pub open spec fn u32_of(b0: u8, b1: u8, b2: u8, b3: u8) -> u32 {
    ((b0 as int) * 0x1000000 + (b1 as int) * 0x10000 + (b2 as int) * 0x100 + (b3 as int)) as u32
}

/// The big-endian bytes of a 16-bit value.
pub open spec fn u16_bytes(v: u16) -> Seq<u8> {
    seq![u16_hi(v), u16_lo(v)]
}

/// The big-endian bytes of a 32-bit value.
pub open spec fn u32_bytes(v: u32) -> Seq<u8> {
    seq![
        ((v as int) / 0x1000000) as u8,
        (((v as int) / 0x10000) % 256) as u8,
        (((v as int) / 0x100) % 256) as u8,
        ((v as int) % 256) as u8,
    ]
}

/// Big-endian byte composition inverts byte extraction.
pub proof fn lemma_u16_bytes_of(v: u16)
    by (nonlinear_arith)
    ensures
        u16_of(u16_hi(v), u16_lo(v)) == v,
{
}

/// Byte extraction inverts big-endian byte composition.
pub proof fn lemma_u16_of_bytes(hi: u8, lo: u8)
    by (nonlinear_arith)
    ensures
        u16_hi(u16_of(hi, lo)) == hi,
        u16_lo(u16_of(hi, lo)) == lo,
{
}

/// Reading four bytes of a 32-bit value gives the value back.
pub proof fn lemma_u32_bytes_of(v: u32)
    by (nonlinear_arith)
    ensures
        u32_of(u32_bytes(v)[0], u32_bytes(v)[1], u32_bytes(v)[2], u32_bytes(v)[3]) == v,
{
}

/// Writing the four bytes read as a 32-bit value gives the bytes back.
pub proof fn lemma_u32_of_bytes(b0: u8, b1: u8, b2: u8, b3: u8)
    by (nonlinear_arith)
    ensures
        u32_bytes(u32_of(b0, b1, b2, b3)) =~= seq![b0, b1, b2, b3],
{
}

/// One byte read at a position: the byte and the next position.
pub open spec fn spec_read_u8(data: Seq<u8>, i: int) -> Result<(u8, int), DnsBufferError> {
    if 0 <= i && i + 1 <= data.len() {
        Ok((data[i], i + 1))
    } else {
        Err(DnsBufferError::EndOfBuffer)
    }
}

/// A big-endian 16-bit read at a position.
pub open spec fn spec_read_u16(data: Seq<u8>, i: int) -> Result<(u16, int), DnsBufferError> {
    if 0 <= i && i + 2 <= data.len() {
        Ok((u16_of(data[i], data[i + 1]), i + 2))
    } else {
        Err(DnsBufferError::EndOfBuffer)
    }
}

/// A big-endian 32-bit read at a position.
pub open spec fn spec_read_u32(data: Seq<u8>, i: int) -> Result<(u32, int), DnsBufferError> {
    if 0 <= i && i + 4 <= data.len() {
        Ok((u32_of(data[i], data[i + 1], data[i + 2], data[i + 3]), i + 4))
    } else {
        Err(DnsBufferError::EndOfBuffer)
    }
}

/// An `n`-byte read at a position.
pub open spec fn spec_read_bytes(data: Seq<u8>, i: int, n: int) -> Result<
    (Seq<u8>, int),
    DnsBufferError,
> {
    if 0 <= i && 0 <= n && i + n <= data.len() {
        Ok((data.subrange(i, i + n), i + n))
    } else {
        Err(DnsBufferError::EndOfBuffer)
    }
}

/// A possibly-compressed domain name read at a position.
///
/// Reads one length octet at a time. A tag with both high bits set is a
/// compression pointer: the name continues at the pointed-to offset and the
/// name's end position is fixed just past the first pointer. A zero octet
/// ends the name. Any other high-bit pattern is reserved and rejected.
/// `total` carries the label bytes already read (at most 255 in all) and
/// `hops` the pointer hops still allowed.
pub open spec fn spec_read_name(data: Seq<u8>, idx: int, total: int, hops: int) -> Result<
    (Seq<Seq<u8>>, int),
    DnsBufferError,
>
    decreases hops, data.len() - idx,
{
    if idx < 0 || idx >= data.len() {
        Err(DnsBufferError::EndOfBuffer)
    } else {
        let tag = data[idx];
        if tag & 0xC0 == 0xC0 {
            if idx + 2 > data.len() {
                Err(DnsBufferError::EndOfBuffer)
            } else {
                let ptr = ((tag & 0x3F) as int) * 256 + data[idx + 1] as int;
                if ptr >= data.len() {
                    Err(DnsBufferError::InvalidName)
                } else if hops <= 0 {
                    Err(DnsBufferError::InvalidName)
                } else {
                    match spec_read_name(data, ptr, total, hops - 1) {
                        Ok((labels, _)) => Ok((labels, idx + 2)),
                        Err(e) => Err(e),
                    }
                }
            }
        } else if tag == 0 {
            Ok((Seq::empty(), idx + 1))
        } else if tag & 0xC0 != 0 {
            Err(DnsBufferError::InvalidName)
        } else {
            if idx + 1 + tag > data.len() {
                Err(DnsBufferError::EndOfBuffer)
            } else if total + tag > 255 {
                Err(DnsBufferError::InvalidName)
            } else {
                let label = data.subrange(idx + 1, idx + 1 + tag);
                if !is_utf8(label) {
                    Err(DnsBufferError::InvalidName)
                } else {
                    match spec_read_name(data, idx + 1 + tag, total + tag, hops) {
                        Ok((labels, end)) => Ok((seq![label] + labels, end)),
                        Err(e) => Err(e),
                    }
                }
            }
        }
    }
}

/// A name the reader returns is valid: every label 1 to 63 bytes of UTF-8,
/// at most `255 - total` label bytes in all, and the end position inside
/// the buffer, past the start.
pub proof fn lemma_spec_read_name_valid(data: Seq<u8>, idx: int, total: int, hops: int)
    requires
        0 <= total <= 255,
        spec_read_name(data, idx, total, hops) is Ok,
    ensures
        ({
            let (labels, end) = spec_read_name(data, idx, total, hops)->Ok_0;
            &&& forall|i: int| 0 <= i < labels.len() ==> valid_label(#[trigger] labels[i])
            &&& total + total_label_len(labels) <= 255
            &&& idx < end <= data.len()
        }),
    decreases hops, data.len() - idx,
{
    let tag = data[idx];
    let (labels, end) = spec_read_name(data, idx, total, hops)->Ok_0;
    if tag & 0xC0 == 0xC0 {
        let ptr = ((tag & 0x3F) as int) * 256 + data[idx + 1] as int;
        lemma_spec_read_name_valid(data, ptr, total, hops - 1);
        let (inner, _) = spec_read_name(data, ptr, total, hops - 1)->Ok_0;
        assert(labels == inner);
    } else if tag == 0 {
        assert(total_label_len(labels) == 0);
    } else {
        assert(tag & 0xC0 == 0 ==> tag < 64) by (bit_vector);
        let label = data.subrange(idx + 1, idx + 1 + tag);
        lemma_spec_read_name_valid(data, idx + 1 + tag, total + tag, hops);
        let (tail, _) = spec_read_name(data, idx + 1 + tag, total + tag, hops)->Ok_0;
        assert(labels == seq![label] + tail);
        assert(labels.skip(1) =~= tail);
        assert(labels[0] == label);
        assert(total_label_len(labels) == label.len() + total_label_len(tail));
        assert forall|i: int| 0 <= i < labels.len() implies valid_label(#[trigger] labels[i]) by {
            if i == 0 {
                assert(labels[0] == label);
            } else {
                assert(labels[i] == tail[i - 1]);
            }
        }
    }
}

/// A read-only view over DNS message bytes with a cursor.
#[derive(Debug)]
pub struct DnsReadBuffer<'a> {
    /// The message bytes.
    pub data: &'a [u8],
    /// The cursor: the position of the next read.
    pub index: usize,
}

impl<'a> DnsReadBuffer<'a> {
    /// A reader over the given bytes, positioned at the start.
    pub fn new(data: &'a [u8]) -> (r: Self)
        ensures
            r.data@ == data@,
            r.index == 0,
    {
        Self { data, index: 0 }
    }

    /// The cursor position.
    pub fn get_index(&self) -> (r: usize)
        ensures
            r == self.index,
    {
        self.index
    }

    /// Moves the cursor. Fails if the offset lies past the end of the data.
    pub fn set_index(&mut self, off: usize) -> (r: Result<(), DnsBufferError>)
        ensures
            final(self).data@ == old(self).data@,
            off <= old(self).data@.len() ==> r is Ok && final(self).index == off,
            off > old(self).data@.len() ==> r == Err::<(), DnsBufferError>(
                DnsBufferError::EndOfBuffer,
            ) && final(self).index == old(self).index,
    {
        if off > self.data.len() {
            return Err(DnsBufferError::EndOfBuffer);
        }
        self.index = off;
        Ok(())
    }

    /// Reads one byte and advances the cursor.
    pub fn read_u8(&mut self) -> (r: Result<u8, DnsBufferError>)
        ensures
            final(self).data@ == old(self).data@,
            match spec_read_u8(old(self).data@, old(self).index as int) {
                Ok((v, j)) => r == Ok::<u8, DnsBufferError>(v) && final(self).index == j,
                Err(e) => r == Err::<u8, DnsBufferError>(e) && final(self).index == old(
                    self,
                ).index,
            },
    {
        if self.index >= self.data.len() {
            return Err(DnsBufferError::EndOfBuffer);
        }
        let b = self.data[self.index];
        self.index = self.index + 1;
        Ok(b)
    }

    /// Reads a big-endian 16-bit value and advances the cursor.
    pub fn read_u16(&mut self) -> (r: Result<u16, DnsBufferError>)
        ensures
            final(self).data@ == old(self).data@,
            match spec_read_u16(old(self).data@, old(self).index as int) {
                Ok((v, j)) => r == Ok::<u16, DnsBufferError>(v) && final(self).index == j,
                Err(e) => r == Err::<u16, DnsBufferError>(e) && final(self).index == old(
                    self,
                ).index,
            },
    {
        if self.data.len() < 2 || self.index > self.data.len() - 2 {
            return Err(DnsBufferError::EndOfBuffer);
        }
        let hi = self.data[self.index];
        let lo = self.data[self.index + 1];
        self.index = self.index + 2;
        Ok((hi as u16) * 256 + (lo as u16))
    }

    /// Reads a big-endian 32-bit value and advances the cursor.
    pub fn read_u32(&mut self) -> (r: Result<u32, DnsBufferError>)
        ensures
            final(self).data@ == old(self).data@,
            match spec_read_u32(old(self).data@, old(self).index as int) {
                Ok((v, j)) => r == Ok::<u32, DnsBufferError>(v) && final(self).index == j,
                Err(e) => r == Err::<u32, DnsBufferError>(e) && final(self).index == old(
                    self,
                ).index,
            },
    {
        if self.data.len() < 4 || self.index > self.data.len() - 4 {
            return Err(DnsBufferError::EndOfBuffer);
        }
        let b0 = self.data[self.index];
        let b1 = self.data[self.index + 1];
        let b2 = self.data[self.index + 2];
        let b3 = self.data[self.index + 3];
        self.index = self.index + 4;
        Ok((b0 as u32) * 0x1000000 + (b1 as u32) * 0x10000 + (b2 as u32) * 0x100 + (b3 as u32))
    }

    /// Reads `n` bytes as a slice and advances the cursor.
    pub fn read_n_bytes(&mut self, n: usize) -> (r: Result<&'a [u8], DnsBufferError>)
        ensures
            final(self).data@ == old(self).data@,
            match spec_read_bytes(old(self).data@, old(self).index as int, n as int) {
                Ok((bytes, j)) => r matches Ok(s) && s@ == bytes && final(self).index == j,
                Err(e) => r == Err::<&'a [u8], DnsBufferError>(e) && final(self).index == old(
                    self,
                ).index,
            },
    {
        if n > self.data.len() || self.index > self.data.len() - n {
            return Err(DnsBufferError::EndOfBuffer);
        }
        let s = vstd::slice::slice_subrange(self.data, self.index, self.index + n);
        self.index = self.index + n;
        Ok(s)
    }

    /// Reads a possibly-compressed domain name starting at the cursor and
    /// leaves the cursor just past the first compression pointer, or past
    /// the terminating zero octet if the name had none.
    pub fn read_str(&mut self) -> (r: Result<DnsName, DnsBufferError>)
        ensures
            final(self).data@ == old(self).data@,
            match r {
                Ok(name) => {
                    &&& spec_read_name(
                        old(self).data@,
                        old(self).index as int,
                        0,
                        NAME_HOP_LIMIT as int,
                    ) == Ok::<_, DnsBufferError>((name@, final(self).index as int))
                    &&& valid_name(name@)
                    &&& old(self).index < final(self).index <= old(self).data@.len()
                },
                Err(e) => {
                    &&& spec_read_name(
                        old(self).data@,
                        old(self).index as int,
                        0,
                        NAME_HOP_LIMIT as int,
                    ) == Err::<(Seq<Seq<u8>>, int), DnsBufferError>(e)
                    &&& final(self).index == old(self).index
                },
            },
    {
        match Self::read_name_at(self.data, self.index) {
            Ok((name, end)) => {
                proof {
                    lemma_spec_read_name_valid(
                        self.data@,
                        self.index as int,
                        0,
                        NAME_HOP_LIMIT as int,
                    );
                }
                self.index = end;
                Ok(name)
            },
            Err(e) => Err(e),
        }
    }

    /// Reads a domain name at the given position of the given bytes.
    ///
    /// The returned position is the one just past the first compression
    /// pointer if the name had one, and just past the terminating zero
    /// octet otherwise. Compression is followed iteratively, with the
    /// pointer-hop budget and the 255-byte name bound keeping adversarial
    /// pointer chains (and loops) from running forever.
    pub fn read_name_at(data: &[u8], start: usize) -> (r: Result<(DnsName, usize), DnsBufferError>)
        ensures
            match r {
                Ok((name, end)) => {
                    &&& spec_read_name(data@, start as int, 0, NAME_HOP_LIMIT as int) == Ok::<
                        _,
                        DnsBufferError,
                    >((name@, end as int))
                    &&& valid_name(name@)
                },
                Err(e) => spec_read_name(data@, start as int, 0, NAME_HOP_LIMIT as int) == Err::<
                    (Seq<Seq<u8>>, int),
                    DnsBufferError,
                >(e),
            },
    {
        let ghost whole = spec_read_name(data@, start as int, 0, NAME_HOP_LIMIT as int);
        let mut labels_vec: Vec<Vec<u8>> = Vec::new();
        let mut idx: usize = start;
        let mut total: usize = 0;
        let mut hops: u32 = NAME_HOP_LIMIT;
        let mut jumped: bool = false;
        let mut jump_idx: usize = 0;
        proof {
            assert(labels_view(labels_vec@) =~= Seq::<Seq<u8>>::empty());
            assert(whole == (match spec_read_name(data@, idx as int, total as int, hops as int) {
                Ok((ls, e)) => Ok::<_, DnsBufferError>(
                    (
                        labels_view(labels_vec@) + ls,
                        if jumped {
                            jump_idx as int
                        } else {
                            e
                        },
                    ),
                ),
                Err(er) => Err(er),
            }));
        }
        loop
            invariant
                total <= 255,
                whole == (match spec_read_name(data@, idx as int, total as int, hops as int) {
                    Ok((ls, e)) => Ok::<_, DnsBufferError>(
                        (
                            labels_view(labels_vec@) + ls,
                            if jumped {
                                jump_idx as int
                            } else {
                                e
                            },
                        ),
                    ),
                    Err(er) => Err(er),
                }),
                whole == spec_read_name(data@, start as int, 0, NAME_HOP_LIMIT as int),
                jumped ==> jump_idx <= data@.len(),
            decreases hops, data@.len() - idx,
        {
            if idx >= data.len() {
                return Err(DnsBufferError::EndOfBuffer);
            }
            let tag = data[idx];
            if tag & 0xC0 == 0xC0 {
                if idx + 1 >= data.len() {
                    return Err(DnsBufferError::EndOfBuffer);
                }
                let b2 = data[idx + 1];
                let ptr = ((tag & 0x3F) as usize) * 256 + (b2 as usize);
                if ptr >= data.len() {
                    return Err(DnsBufferError::InvalidName);
                }
                if hops == 0 {
                    return Err(DnsBufferError::InvalidName);
                }
                if !jumped {
                    jump_idx = idx + 2;
                    jumped = true;
                }
                hops = hops - 1;
                idx = ptr;
            } else if tag == 0 {
                let end = if jumped {
                    jump_idx
                } else {
                    idx + 1
                };
                proof {
                    assert(labels_view(labels_vec@) + Seq::<Seq<u8>>::empty() =~= labels_view(
                        labels_vec@,
                    ));
                    lemma_spec_read_name_valid(data@, start as int, 0, NAME_HOP_LIMIT as int);
                }
                let name = DnsName { labels: labels_vec };
                return Ok((name, end));
            } else if tag & 0xC0 != 0 {
                return Err(DnsBufferError::InvalidName);
            } else {
                assert(tag < 64) by (bit_vector)
                    requires
                        tag & 0xC0 == 0 && tag != 0,
                ;
                if data.len() - idx - 1 < tag as usize {
                    return Err(DnsBufferError::EndOfBuffer);
                }
                if total + (tag as usize) > 255 {
                    return Err(DnsBufferError::InvalidName);
                }
                let label_slice = vstd::slice::slice_subrange(
                    data,
                    idx + 1,
                    idx + 1 + (tag as usize),
                );
                let label = vstd::slice::slice_to_vec(label_slice);
                if !is_utf8_exec(&label) {
                    return Err(DnsBufferError::InvalidName);
                }
                let ghost prev_labels = labels_view(labels_vec@);
                labels_vec.push(label);
                total = total + (tag as usize);
                idx = idx + 1 + (tag as usize);
                proof {
                    let lab = data@.subrange(idx - tag, idx as int);
                    assert(labels_view(labels_vec@) =~= prev_labels.push(lab));
                    match spec_read_name(data@, idx as int, total as int, hops as int) {
                        Ok((ls, e)) => {
                            assert(prev_labels + (seq![lab] + ls) =~= labels_view(labels_vec@)
                                + ls);
                        },
                        Err(_) => {},
                    }
                }
            }
        }
    }
}

/// An append-only byte builder for DNS messages.
#[derive(Debug)]
pub struct DnsWriteBuffer {
    /// The bytes written so far.
    pub data: Vec<u8>,
}

impl DnsWriteBuffer {
    /// An empty builder.
    pub fn new() -> (r: Self)
        ensures
            r.data@ == Seq::<u8>::empty(),
    {
        let r = Self { data: Vec::new() };
        proof {
            assert(r.data@ =~= Seq::<u8>::empty());
        }
        r
    }

    /// Appends one byte.
    pub fn write_u8(&mut self, value: u8)
        ensures
            final(self).data@ == old(self).data@.push(value),
    {
        self.data.push(value);
    }

    /// Appends a 16-bit value, big-endian.
    pub fn write_u16(&mut self, value: u16)
        ensures
            final(self).data@ == old(self).data@ + u16_bytes(value),
    {
        let ghost before = self.data@;
        self.data.push((value / 256) as u8);
        self.data.push((value % 256) as u8);
        proof {
            assert(self.data@ =~= before + u16_bytes(value));
        }
    }

    /// Appends a 32-bit value, big-endian.
    pub fn write_u32(&mut self, value: u32)
        ensures
            final(self).data@ == old(self).data@ + u32_bytes(value),
    {
        let ghost before = self.data@;
        self.data.push((value / 0x1000000) as u8);
        self.data.push(((value / 0x10000) % 256) as u8);
        self.data.push(((value / 0x100) % 256) as u8);
        self.data.push((value % 256) as u8);
        proof {
            assert(self.data@ =~= before + u32_bytes(value));
        }
    }

    /// Appends raw bytes.
    pub fn write_bytes(&mut self, bytes: &[u8])
        ensures
            final(self).data@ == old(self).data@ + bytes@,
    {
        let ghost before = self.data@;
        let mut i: usize = 0;
        while i < bytes.len()
            invariant
                i <= bytes@.len(),
                self.data@ == before + bytes@.subrange(0, i as int),
            decreases bytes@.len() - i,
        {
            self.data.push(bytes[i]);
            i = i + 1;
            proof {
                assert(before + bytes@.subrange(0, i - 1) + seq![bytes@[i - 1]] =~= before
                    + bytes@.subrange(0, i as int));
            }
        }
        proof {
            assert(before + bytes@.subrange(0, bytes@.len() as int) =~= before + bytes@);
        }
    }

    /// Hands back the bytes built.
    pub fn into_inner(self) -> (r: Vec<u8>)
        ensures
            r@ == self.data@,
    {
        self.data
    }

    /// Appends a domain name in uncompressed wire form: each non-empty
    /// label preceded by its length, then a zero octet. Fails, writing
    /// nothing, if a label is longer than 63 bytes.
    pub fn write_str(&mut self, name: &DnsName) -> (r: Result<(), DnsBufferError>)
        ensures
            final(self).data@ == old(self).data@ || r is Ok,
            (forall|i: int| 0 <= i < name@.len() ==> #[trigger] name@[i].len() <= 63) <==> r is Ok,
            r is Ok ==> final(self).data@ == old(self).data@ + spec_name_bytes(name@),
            r is Err ==> final(self).data@ == old(self).data@ && r == Err::<(), DnsBufferError>(
                DnsBufferError::LabelTooLong,
            ),
    {
        let n = name.labels.len();
        let mut i: usize = 0;
        while i < n
            invariant
                i <= n,
                n == name.labels@.len(),
                forall|k: int| 0 <= k < i ==> #[trigger] name@[k].len() <= 63,
            decreases n - i,
        {
            if name.labels[i].len() > 63 {
                proof {
                    assert(name@[i as int].len() == name.labels@[i as int]@.len());
                }
                return Err(DnsBufferError::LabelTooLong);
            }
            proof {
                assert(name@[i as int].len() == name.labels@[i as int]@.len());
            }
            i = i + 1;
        }
        let ghost before = self.data@;
        let mut i: usize = 0;
        while i < n
            invariant
                i <= n,
                n == name.labels@.len(),
                forall|k: int| 0 <= k < n ==> #[trigger] name@[k].len() <= 63,
                self.data@ == before + spec_labels_bytes(name@.take(i as int)),
            decreases n - i,
        {
            let ghost mid = self.data@;
            let len = name.labels[i].len();
            if len > 0 {
                self.write_u8(len as u8);
                let label = &name.labels[i];
                self.write_bytes(label.as_slice());
            }
            i = i + 1;
            proof {
                let nv = name@;
                lemma_labels_bytes_take_step(nv, i - 1);
                if nv[i - 1].len() == 0 {
                    assert(self.data@ =~= before + spec_labels_bytes(nv.take(i as int)));
                } else {
                    assert(mid + seq![nv[i - 1].len() as u8] + nv[i - 1] =~= before
                        + spec_labels_bytes(nv.take(i as int)));
                }
            }
        }
        let ghost pre_zero = self.data@;
        self.write_u8(0);
        proof {
            assert(name@.take(n as int) =~= name@);
            assert(pre_zero.push(0u8) =~= before + spec_name_bytes(name@));
        }
        Ok(())
    }
}

/// The wire bytes of one more label step: taking one more label appends
/// that label's chunk.
pub proof fn lemma_labels_bytes_take_step(name: Seq<Seq<u8>>, i: int)
    requires
        0 <= i < name.len(),
        name[i].len() <= 63,
    ensures
        name[i].len() == 0 ==> spec_labels_bytes(name.take(i + 1)) == spec_labels_bytes(
            name.take(i),
        ),
        name[i].len() != 0 ==> spec_labels_bytes(name.take(i + 1)) == spec_labels_bytes(
            name.take(i),
        ) + seq![name[i].len() as u8] + name[i],
    decreases i,
{
    if i == 0 {
        assert(spec_labels_bytes(Seq::<Seq<u8>>::empty()) == Seq::<u8>::empty());
        assert(name.take(0) =~= Seq::<Seq<u8>>::empty());
        let one = name.take(1);
        assert(one.len() == 1 && one[0] == name[0]);
        assert(one.skip(1) =~= Seq::<Seq<u8>>::empty());
        if name[0].len() == 0 {
            assert(spec_labels_bytes(one) == spec_labels_bytes(one.skip(1)));
        } else {
            assert(spec_labels_bytes(one) == seq![name[0].len() as u8] + name[0]
                + spec_labels_bytes(Seq::<Seq<u8>>::empty()));
            assert(seq![name[0].len() as u8] + name[0] + Seq::<u8>::empty() =~= Seq::<u8>::empty()
                + seq![name[0].len() as u8] + name[0]);
        }
    } else {
        let t1 = name.take(i + 1);
        let t0 = name.take(i);
        let sub = name.skip(1);
        assert(t1.skip(1) =~= sub.take(i));
        assert(t0.skip(1) =~= sub.take(i - 1));
        assert(sub[i - 1] == name[i]);
        lemma_labels_bytes_take_step(sub, i - 1);
        assert(t1[0] == name[0] && t0[0] == name[0]);
        if name[0].len() == 0 {
            assert(spec_labels_bytes(t1) == spec_labels_bytes(sub.take(i)));
            assert(spec_labels_bytes(t0) == spec_labels_bytes(sub.take(i - 1)));
        } else {
            if name[i].len() != 0 {
                assert(seq![t1[0].len() as u8] + t1[0] + (spec_labels_bytes(sub.take(i - 1))
                    + seq![name[i].len() as u8] + name[i]) =~= (seq![t0[0].len() as u8] + t0[0]
                    + spec_labels_bytes(sub.take(i - 1))) + seq![name[i].len() as u8] + name[i]);
            }
        }
    }
}

} // verus!
