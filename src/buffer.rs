//! A growable byte buffer with separate read and write cursors, for
//! encoding and decoding fixed-width integers, strings and single bits.
use vstd::prelude::*;

use crate::bit::{bit_of, byte_bit, with_byte_bit, Bit};
use crate::codec::{
    be_bytes, be_value, byte_range, le_bytes, lemma_be_round_trip, lemma_bytes_len,
    lemma_le_round_trip, le_value, read_u16_be, read_u16_le, read_u32_be, read_u32_le,
    read_u64_be, read_u64_le, write_u16_be, write_u16_le, write_u32_be, write_u32_le, write_u64_be,
    write_u64_le,
};
use crate::error::DBError;
use vstd::arithmetic::power2::{lemma2_to64, lemma_pow2_strictly_increases, lemma_pow2_unfold, pow2};
use vstd::utf8::{
    decode_utf8, encode_utf8, encode_utf8_decode_utf8, encode_utf8_valid_utf8, is_ascii_chars, is_ascii_chars_encode_utf8,
    valid_utf8,
};
use vstd::string::StringSliceAdditionalSpecFns;

verus! {

/// The byte order of the integers in a `ByteBuffer`.
#[derive(Debug, Copy, Clone, PartialEq, Eq, Structural)]
pub enum Endian {
    Big,
    Little,
}

/// The value of the bytes `s` in byte order `e`.
pub open spec fn endian_value(e: Endian, s: Seq<u8>) -> nat {
    match e {
        Endian::Big => be_value(s),
        Endian::Little => le_value(s),
    }
}

/// The `k` low-order bytes of `n` in byte order `e`.
pub open spec fn endian_bytes(e: Endian, n: nat, k: nat) -> Seq<u8> {
    match e {
        Endian::Big => be_bytes(n, k),
        Endian::Little => le_bytes(n, k),
    }
}

/// `data` with `bytes` written from position `pos`, zero-filled first up to
/// `pos + bytes.len()` where it is shorter.
pub open spec fn put_bytes(data: Seq<u8>, pos: int, bytes: Seq<u8>) -> Seq<u8> {
    let end = pos + bytes.len();
    let len = if data.len() < end {
        end
    } else {
        data.len() as int
    };
    Seq::new(
        len as nat,
        |i: int|
            if pos <= i < end {
                bytes[i - pos]
            } else if i < data.len() {
                data[i]
            } else {
                0u8
            },
    )
}

/// The abstract state of a `ByteBuffer`.
pub struct BufferView {
    pub data: Seq<u8>,
    /// Next byte to write, and next bit within it.
    pub w_pos: nat,
    pub w_bit: nat,
    /// Next byte to read, and next bit within it.
    pub r_pos: nat,
    pub r_bit: nat,
    pub endian: Endian,
}

impl BufferView {
    pub open spec fn wf(self) -> bool {
        &&& self.w_pos <= self.data.len()
        &&& self.r_pos <= self.data.len()
        &&& self.w_bit < 8
        &&& self.r_bit < 8
        &&& self.w_bit > 0 ==> self.w_pos < self.data.len()
        &&& self.r_bit > 0 ==> self.r_pos < self.data.len()
    }

    /// The state after a partly written or read byte is given up: each
    /// cursor moves past it.
    pub open spec fn flushed(self) -> BufferView {
        BufferView {
            data: self.data,
            w_pos: if self.w_bit > 0 {
                self.w_pos + 1
            } else {
                self.w_pos
            },
            w_bit: 0,
            r_pos: if self.r_bit > 0 {
                self.r_pos + 1
            } else {
                self.r_pos
            },
            r_bit: 0,
            endian: self.endian,
        }
    }

    /// The state after `bytes` are written at the write cursor.
    pub open spec fn written(self, bytes: Seq<u8>) -> BufferView {
        let f = self.flushed();
        BufferView {
            data: put_bytes(f.data, f.w_pos as int, bytes),
            w_pos: f.w_pos + bytes.len(),
            ..f
        }
    }

    /// `n` bytes remain after the read cursor.
    pub open spec fn can_read(self, n: nat) -> bool {
        self.flushed().r_pos + n <= self.data.len()
    }

    /// The `n` bytes after the read cursor.
    pub open spec fn next_bytes(self, n: nat) -> Seq<u8> {
        let f = self.flushed();
        f.data.subrange(f.r_pos as int, (f.r_pos + n) as int)
    }

    /// The state after `n` bytes are read.
    pub open spec fn advanced(self, n: nat) -> BufferView {
        let f = self.flushed();
        BufferView { r_pos: f.r_pos + n, ..f }
    }

    /// The state after one bit `x` is written at the bit write cursor.
    pub open spec fn bit_written(self, x: bool) -> BufferView {
        let data = if self.w_pos == self.data.len() {
            self.data.push(0u8)
        } else {
            self.data
        };
        let data = data.update(
            self.w_pos as int,
            with_byte_bit(data[self.w_pos as int], self.w_bit as u32, x),
        );
        BufferView {
            data,
            w_pos: if self.w_bit == 7 {
                self.w_pos + 1
            } else {
                self.w_pos
            },
            w_bit: if self.w_bit == 7 {
                0
            } else {
                self.w_bit + 1
            },
            ..self
        }
    }

    /// The state after the `n` low bits of `value` are written, the highest
    /// first.
    pub open spec fn bits_written(self, value: u64, n: nat) -> BufferView
        decreases n,
    {
        if n == 0 {
            self
        } else {
            self.bit_written((value >> ((n - 1) as u64)) & 1u64 == 1u64).bits_written(
                value,
                (n - 1) as nat,
            )
        }
    }

    /// The bit under the bit read cursor.
    pub open spec fn next_bit(self) -> bool {
        byte_bit(self.data[self.r_pos as int], self.r_bit as u32)
    }

    /// The state after one bit is read.
    pub open spec fn bit_read(self) -> BufferView {
        BufferView {
            r_pos: if self.r_bit == 7 {
                self.r_pos + 1
            } else {
                self.r_pos
            },
            r_bit: if self.r_bit == 7 {
                0
            } else {
                self.r_bit + 1
            },
            ..self
        }
    }

    /// `n` bits remain after the bit read cursor.
    pub open spec fn can_read_bits(self, n: nat) -> bool {
        8 * self.r_pos + self.r_bit + n <= 8 * self.data.len()
    }

    /// The value of the next `n` bits, the first read the most significant.
    pub open spec fn next_bits(self, n: nat) -> nat
        decreases n,
    {
        if n == 0 {
            0
        } else {
            let first = if self.next_bit() {
                1nat
            } else {
                0nat
            };
            first * pow2((n - 1) as nat) + self.bit_read().next_bits((n - 1) as nat)
        }
    }

    /// The state after `n` bits are read.
    pub open spec fn bits_read(self, n: nat) -> BufferView
        decreases n,
    {
        if n == 0 {
            self
        } else {
            self.bit_read().bits_read((n - 1) as nat)
        }
    }
}

/// A value written as `k` bytes in the buffer's byte order is read back
/// unchanged by a reader that stands where it was written.
pub proof fn lemma_write_then_read(v: BufferView, n: nat, k: nat)
    requires
        v.wf(),
        n < byte_range(k),
        v.flushed().r_pos == v.flushed().w_pos,
    ensures
        ({
            let w = v.written(endian_bytes(v.endian, n, k));
            &&& w.can_read(k)
            &&& w.next_bytes(k) == endian_bytes(v.endian, n, k)
            &&& endian_value(v.endian, w.next_bytes(k)) == n
        }),
{
    lemma_bytes_len(n, k);
    let b = endian_bytes(v.endian, n, k);
    let w = v.written(b);
    assert(w.next_bytes(k) =~= b);
    match v.endian {
        Endian::Big => lemma_be_round_trip(n, k),
        Endian::Little => lemma_le_round_trip(n, k),
    }
}

/// A string written by `write_string` is read back unchanged by
/// `read_string` from where it was written.
pub proof fn lemma_string_round_trip(v: BufferView, text: Seq<char>)
    requires
        v.wf(),
        encode_utf8(text).len() < byte_range(4),
        v.flushed().r_pos == v.flushed().w_pos,
    ensures
        ({
            let bytes = encode_utf8(text);
            let w = v.written(endian_bytes(v.endian, bytes.len(), 4)).written(bytes);
            let after = w.advanced(4);
            &&& w.can_read(4)
            &&& endian_value(v.endian, w.next_bytes(4)) == bytes.len()
            &&& after.can_read(bytes.len())
            &&& valid_utf8(after.next_bytes(bytes.len()))
            &&& decode_utf8(after.next_bytes(bytes.len())) == text
        }),
{
    let bytes = encode_utf8(text);
    let len = bytes.len();
    lemma_write_then_read(v, len, 4);
    lemma_bytes_len(len, 4);
    let w1 = v.written(endian_bytes(v.endian, len, 4));
    let w = w1.written(bytes);
    assert(w.next_bytes(4) =~= w1.next_bytes(4));
    let after = w.advanced(4);
    assert(after.next_bytes(len) =~= bytes);
    encode_utf8_valid_utf8(text);
    encode_utf8_decode_utf8(text);
}

/// The lower-case hexadecimal digit of `d`.
pub open spec fn hex_digit(d: u8) -> char {
    if d < 10 {
        ((48 + d) as u8) as char
    } else {
        ((87 + d) as u8) as char
    }
}

/// Byte `b` written as `0x` and two hexadecimal digits.
pub open spec fn hex_byte(b: u8) -> Seq<char> {
    seq!['0', 'x', hex_digit(b / 16), hex_digit(b % 16)]
}

/// The bytes of `data` written in hexadecimal, separated by single spaces.
pub open spec fn hex_dump(data: Seq<u8>) -> Seq<char>
    decreases data.len(),
{
    if data.len() == 0 {
        Seq::empty()
    } else if data.len() == 1 {
        hex_byte(data[0])
    } else {
        hex_dump(data.drop_last()) + seq![' '] + hex_byte(data.last())
    }
}

/// The ASCII code of the hexadecimal digit of `d`.
fn hex_digit_code(d: u8) -> (r: u8)
    requires
        d < 16,
    ensures
        r as char == hex_digit(d),
        r < 128,
{
    if d < 10 {
        48 + d
    } else {
        87 + d
    }
}

/// Relies on `String::from_utf8`: it succeeds exactly on valid UTF-8, and
/// then holds the characters the bytes encode.
#[verifier::external_body]
fn string_from_utf8(bytes: Vec<u8>) -> (r: Option<String>)
    ensures
        r is Some <==> valid_utf8(bytes@),
        r matches Some(s) ==> s@ == decode_utf8(bytes@),
{
    String::from_utf8(bytes).ok()
}

/// A byte buffer for reading and writing binary values.
pub struct ByteBuffer {
    data: Vec<u8>,
    w_pos: usize,
    r_pos: usize,
    w_bit: usize,
    r_bit: usize,
    endian: Endian,
}

impl View for ByteBuffer {
    type V = BufferView;

    closed spec fn view(&self) -> BufferView {
        BufferView {
            data: self.data@,
            w_pos: self.w_pos as nat,
            w_bit: self.w_bit as nat,
            r_pos: self.r_pos as nat,
            r_bit: self.r_bit as nat,
            endian: self.endian,
        }
    }
}

impl ByteBuffer {
    /// An empty buffer, big-endian.
    pub fn new() -> (r: Self)
        ensures
            r@.wf(),
            r@.data == Seq::<u8>::empty(),
            r@.w_pos == 0 && r@.w_bit == 0 && r@.r_pos == 0 && r@.r_bit == 0,
            r@.endian == Endian::Big,
    {
        ByteBuffer { data: Vec::new(), w_pos: 0, r_pos: 0, w_bit: 0, r_bit: 0, endian: Endian::Big }
    }

    /// A big-endian buffer holding `bytes`, its write cursor at the end and
    /// its read cursor at the start.
    pub fn from_bytes(bytes: &[u8]) -> (r: Self)
        ensures
            r@.wf(),
            r@.data == bytes@,
            r@.w_pos == bytes@.len() && r@.w_bit == 0 && r@.r_pos == 0 && r@.r_bit == 0,
            r@.endian == Endian::Big,
    {
        let mut buf = ByteBuffer::new();
        let n = bytes.len();
        assert(bytes@.len() == n);
        buf.write_bytes(bytes);
        proof {
            assert(buf@.data =~= bytes@);
        }
        buf
    }

    /// Number of bytes in the buffer.
    pub fn len(&self) -> (r: usize)
        ensures
            r == self@.data.len(),
    {
        self.data.len()
    }

    /// Whether the buffer holds no byte.
    pub fn is_empty(&self) -> (r: bool)
        ensures
            r == (self@.data.len() == 0),
    {
        self.data.len() == 0
    }

    /// Empties the buffer and moves both cursors to the start.
    pub fn clear(&mut self)
        ensures
            final(self)@.wf(),
            final(self)@ == (BufferView {
                data: Seq::empty(),
                w_pos: 0,
                w_bit: 0,
                r_pos: 0,
                r_bit: 0,
                endian: old(self)@.endian,
            }),
    {
        self.data.clear();
        self.w_pos = 0;
        self.r_pos = 0;
        self.w_bit = 0;
        self.r_bit = 0;
    }

    /// Grows the buffer to `size` bytes with zeros; a buffer is never
    /// shrunk.
    pub fn resize(&mut self, size: usize)
        requires
            old(self)@.wf(),
        ensures
            final(self)@.wf(),
            final(self)@ == (BufferView {
                data: if size > old(self)@.data.len() {
                    old(self)@.data + Seq::new((size - old(self)@.data.len()) as nat, |i: int| 0u8)
                } else {
                    old(self)@.data
                },
                ..old(self)@
            }),
    {
        let ghost start = self.data@;
        if size > self.data.len() {
            let old_len = self.data.len();
            while self.data.len() < size
                invariant
                    self@ == (BufferView { data: self.data@, ..old(self)@ }),
                    old(self)@.wf(),
                    old_len <= self.data@.len() <= size,
                    self.data@ == start + Seq::new((self.data@.len() - old_len) as nat, |i: int| 0u8),
                    start.len() == old_len,
                decreases size - self.data@.len(),
            {
                self.data.push(0u8);
                proof {
                    assert(self.data@ =~= start + Seq::new(
                        (self.data@.len() - old_len) as nat,
                        |i: int| 0u8,
                    ));
                }
            }
        }
    }

    /// Sets the byte order of the integers read and written next.
    pub fn set_endian(&mut self, endian: Endian)
        ensures
            final(self)@ == (BufferView { endian, ..old(self)@ }),
    {
        self.endian = endian;
    }

    /// The byte order of the buffer.
    pub fn endian(&self) -> (r: Endian)
        ensures
            r == self@.endian,
    {
        self.endian
    }

    /// Writes `bytes` at the write cursor, growing the buffer as needed.
    pub fn write_bytes(&mut self, bytes: &[u8])
        requires
            old(self)@.wf(),
            old(self)@.flushed().w_pos + bytes@.len() <= usize::MAX,
        ensures
            final(self)@.wf(),
            final(self)@ == old(self)@.written(bytes@),
    {
        self.flush_bit();
        let ghost f = self@;
        let start = self.w_pos;
        let size = bytes.len() + self.w_pos;
        if size > self.data.len() {
            self.resize(size);
        }
        let ghost padded = self.data@;
        let mut i: usize = 0;
        while i < bytes.len()
            invariant
                f.wf(),
                self.w_pos == start + i,
                start == f.w_pos,
                i <= bytes@.len(),
                self.data@.len() == padded.len(),
                padded.len() >= start + bytes@.len(),
                padded.len() <= usize::MAX,
                forall|j: int|
                    0 <= j < padded.len() ==> #[trigger] self.data@[j] == if start <= j < start + i {
                        bytes@[j - start]
                    } else {
                        padded[j]
                    },
                forall|j: int|
                    0 <= j < padded.len() ==> #[trigger] padded[j] == if j < f.data.len() {
                        f.data[j]
                    } else {
                        0u8
                    },
                self.r_pos == f.r_pos,
                self.w_bit == 0,
                self.r_bit == 0,
                self.endian == f.endian,
            decreases bytes@.len() - i,
        {
            self.data[self.w_pos] = bytes[i];
            self.w_pos = self.w_pos + 1;
            i = i + 1;
        }
        proof {
            assert(self@.data =~= put_bytes(f.data, start as int, bytes@));
        }
    }

    /// Writes one byte.
    pub fn write_u8(&mut self, val: u8)
        requires
            old(self)@.wf(),
            old(self)@.flushed().w_pos + 1 <= usize::MAX,
        ensures
            final(self)@.wf(),
            final(self)@ == old(self)@.written(seq![val]),
    {
        let b: [u8; 1] = [val];
        self.write_bytes(&b);
        proof {
            assert(b@ =~= seq![val]);
        }
    }

    /// Writes one signed byte, as its two's complement.
    pub fn write_i8(&mut self, val: i8)
        requires
            old(self)@.wf(),
            old(self)@.flushed().w_pos + 1 <= usize::MAX,
        ensures
            final(self)@.wf(),
            final(self)@ == old(self)@.written(seq![val as u8]),
    {
        self.write_u8(val as u8);
    }

    /// Writes a 16-bit value in the buffer's byte order.
    pub fn write_u16(&mut self, val: u16)
        requires
            old(self)@.wf(),
            old(self)@.flushed().w_pos + 2 <= usize::MAX,
        ensures
            final(self)@.wf(),
            final(self)@ == old(self)@.written(endian_bytes(old(self)@.endian, val as nat, 2)),
    {
        let mut b: [u8; 2] = [0; 2];
        match self.endian {
            Endian::Big => write_u16_be(&mut b, val),
            Endian::Little => write_u16_le(&mut b, val),
        }
        proof {
            assert(b@ =~= endian_bytes(self@.endian, val as nat, 2));
        }
        self.write_bytes(&b);
    }

    /// Writes a signed 16-bit value, as its two's complement.
    pub fn write_i16(&mut self, val: i16)
        requires
            old(self)@.wf(),
            old(self)@.flushed().w_pos + 2 <= usize::MAX,
        ensures
            final(self)@.wf(),
            final(self)@ == old(self)@.written(endian_bytes(old(self)@.endian, val as u16 as nat, 2)),
    {
        self.write_u16(val as u16);
    }

    /// Writes a 32-bit value in the buffer's byte order.
    pub fn write_u32(&mut self, val: u32)
        requires
            old(self)@.wf(),
            old(self)@.flushed().w_pos + 4 <= usize::MAX,
        ensures
            final(self)@.wf(),
            final(self)@ == old(self)@.written(endian_bytes(old(self)@.endian, val as nat, 4)),
    {
        let mut b: [u8; 4] = [0; 4];
        match self.endian {
            Endian::Big => write_u32_be(&mut b, val),
            Endian::Little => write_u32_le(&mut b, val),
        }
        proof {
            assert(b@ =~= endian_bytes(self@.endian, val as nat, 4));
        }
        self.write_bytes(&b);
    }

    /// Writes a signed 32-bit value, as its two's complement.
    pub fn write_i32(&mut self, val: i32)
        requires
            old(self)@.wf(),
            old(self)@.flushed().w_pos + 4 <= usize::MAX,
        ensures
            final(self)@.wf(),
            final(self)@ == old(self)@.written(endian_bytes(old(self)@.endian, val as u32 as nat, 4)),
    {
        self.write_u32(val as u32);
    }

    /// Writes a 64-bit value in the buffer's byte order.
    pub fn write_u64(&mut self, val: u64)
        requires
            old(self)@.wf(),
            old(self)@.flushed().w_pos + 8 <= usize::MAX,
        ensures
            final(self)@.wf(),
            final(self)@ == old(self)@.written(endian_bytes(old(self)@.endian, val as nat, 8)),
    {
        let mut b: [u8; 8] = [0; 8];
        match self.endian {
            Endian::Big => write_u64_be(&mut b, val),
            Endian::Little => write_u64_le(&mut b, val),
        }
        proof {
            assert(b@ =~= endian_bytes(self@.endian, val as nat, 8));
        }
        self.write_bytes(&b);
    }

    /// Writes a signed 64-bit value, as its two's complement.
    pub fn write_i64(&mut self, val: i64)
        requires
            old(self)@.wf(),
            old(self)@.flushed().w_pos + 8 <= usize::MAX,
        ensures
            final(self)@.wf(),
            final(self)@ == old(self)@.written(endian_bytes(old(self)@.endian, val as u64 as nat, 8)),
    {
        self.write_u64(val as u64);
    }

    /// Writes a string as its length in bytes (a 32-bit value in the
    /// buffer's byte order) followed by its UTF-8 bytes.
    pub fn write_string(&mut self, val: &str)
        requires
            old(self)@.wf(),
            val.spec_bytes().len() <= u32::MAX,
            old(self)@.flushed().w_pos + 4 + val.spec_bytes().len() <= usize::MAX,
        ensures
            final(self)@.wf(),
            final(self)@ == old(self)@.written(
                endian_bytes(old(self)@.endian, val.spec_bytes().len(), 4),
            ).written(val.spec_bytes()),
    {
        let bytes = val.as_bytes();
        proof {
            lemma_bytes_len(bytes@.len(), 4);
        }
        self.write_u32(bytes.len() as u32);
        self.write_bytes(bytes);
    }

    /// Reads `size` bytes, or fails with `BufferUnderflow` when fewer remain.
    pub fn read_bytes(&mut self, size: usize) -> (r: Result<Vec<u8>, DBError>)
        requires
            old(self)@.wf(),
        ensures
            final(self)@.wf(),
            old(self)@.can_read(size as nat) ==> r is Ok && r->Ok_0@ == old(self)@.next_bytes(
                size as nat,
            ) && final(self)@ == old(self)@.advanced(size as nat),
            !old(self)@.can_read(size as nat) ==> r == Err::<Vec<u8>, DBError>(
                DBError::BufferUnderflow,
            ) && final(self)@ == old(self)@.flushed(),
    {
        self.flush_bit();
        if size > self.data.len() - self.r_pos {
            return Err(DBError::BufferUnderflow);
        }
        let out = vstd::slice::slice_to_vec(
            vstd::slice::slice_subrange(self.data.as_slice(), self.r_pos, self.r_pos + size),
        );
        self.r_pos = self.r_pos + size;
        Ok(out)
    }

    /// Reads one byte, or fails with `BufferUnderflow` when none remains.
    pub fn read_u8(&mut self) -> (r: Result<u8, DBError>)
        requires
            old(self)@.wf(),
        ensures
            final(self)@.wf(),
            old(self)@.can_read(1) ==> r == Ok::<u8, DBError>(old(self)@.next_bytes(1)[0])
                && final(self)@ == old(self)@.advanced(1),
            !old(self)@.can_read(1) ==> r == Err::<u8, DBError>(DBError::BufferUnderflow) && final(self)@ == old(self)@.flushed(),
    {
        self.flush_bit();
        if self.r_pos >= self.data.len() {
            return Err(DBError::BufferUnderflow);
        }
        let pos = self.r_pos;
        self.r_pos = self.r_pos + 1;
        Ok(self.data[pos])
    }

    /// Reads one signed byte, as its two's complement.
    pub fn read_i8(&mut self) -> (r: Result<i8, DBError>)
        requires
            old(self)@.wf(),
        ensures
            final(self)@.wf(),
            old(self)@.can_read(1) ==> r == Ok::<i8, DBError>(old(self)@.next_bytes(1)[0] as i8)
                && final(self)@ == old(self)@.advanced(1),
            !old(self)@.can_read(1) ==> r == Err::<i8, DBError>(DBError::BufferUnderflow) && final(self)@ == old(self)@.flushed(),
    {
        match self.read_u8() {
            Ok(v) => Ok(v as i8),
            Err(e) => Err(e),
        }
    }

    /// Reads a 16-bit value in the buffer's byte order.
    pub fn read_u16(&mut self) -> (r: Result<u16, DBError>)
        requires
            old(self)@.wf(),
        ensures
            final(self)@.wf(),
            old(self)@.can_read(2) ==> r == Ok::<u16, DBError>(
                endian_value(old(self)@.endian, old(self)@.next_bytes(2)) as u16,
            ) && final(self)@ == old(self)@.advanced(2),
            !old(self)@.can_read(2) ==> r == Err::<u16, DBError>(DBError::BufferUnderflow) && final(self)@ == old(self)@.flushed(),
    {
        self.flush_bit();
        if 2 > self.data.len() - self.r_pos {
            return Err(DBError::BufferUnderflow);
        }
        let bytes = vstd::slice::slice_subrange(self.data.as_slice(), self.r_pos, self.r_pos + 2);
        proof {
            assert(bytes@.subrange(0, 2) =~= bytes@);
        }
        let v = match self.endian {
            Endian::Big => read_u16_be(bytes),
            Endian::Little => read_u16_le(bytes),
        };
        self.r_pos = self.r_pos + 2;
        Ok(v)
    }

    /// Reads a signed 16-bit value, as its two's complement.
    pub fn read_i16(&mut self) -> (r: Result<i16, DBError>)
        requires
            old(self)@.wf(),
        ensures
            final(self)@.wf(),
            old(self)@.can_read(2) ==> r == Ok::<i16, DBError>(
                endian_value(old(self)@.endian, old(self)@.next_bytes(2)) as u16 as i16,
            ) && final(self)@ == old(self)@.advanced(2),
            !old(self)@.can_read(2) ==> r == Err::<i16, DBError>(DBError::BufferUnderflow) && final(self)@ == old(self)@.flushed(),
    {
        match self.read_u16() {
            Ok(v) => Ok(v as i16),
            Err(e) => Err(e),
        }
    }

    /// Reads a 32-bit value in the buffer's byte order.
    pub fn read_u32(&mut self) -> (r: Result<u32, DBError>)
        requires
            old(self)@.wf(),
        ensures
            final(self)@.wf(),
            old(self)@.can_read(4) ==> r == Ok::<u32, DBError>(
                endian_value(old(self)@.endian, old(self)@.next_bytes(4)) as u32,
            ) && final(self)@ == old(self)@.advanced(4),
            !old(self)@.can_read(4) ==> r == Err::<u32, DBError>(DBError::BufferUnderflow) && final(self)@ == old(self)@.flushed(),
    {
        self.flush_bit();
        if 4 > self.data.len() - self.r_pos {
            return Err(DBError::BufferUnderflow);
        }
        let bytes = vstd::slice::slice_subrange(self.data.as_slice(), self.r_pos, self.r_pos + 4);
        proof {
            assert(bytes@.subrange(0, 4) =~= bytes@);
        }
        let v = match self.endian {
            Endian::Big => read_u32_be(bytes),
            Endian::Little => read_u32_le(bytes),
        };
        self.r_pos = self.r_pos + 4;
        Ok(v)
    }

    /// Reads a signed 32-bit value, as its two's complement.
    pub fn read_i32(&mut self) -> (r: Result<i32, DBError>)
        requires
            old(self)@.wf(),
        ensures
            final(self)@.wf(),
            old(self)@.can_read(4) ==> r == Ok::<i32, DBError>(
                endian_value(old(self)@.endian, old(self)@.next_bytes(4)) as u32 as i32,
            ) && final(self)@ == old(self)@.advanced(4),
            !old(self)@.can_read(4) ==> r == Err::<i32, DBError>(DBError::BufferUnderflow) && final(self)@ == old(self)@.flushed(),
    {
        match self.read_u32() {
            Ok(v) => Ok(v as i32),
            Err(e) => Err(e),
        }
    }

    /// Reads a 64-bit value in the buffer's byte order.
    pub fn read_u64(&mut self) -> (r: Result<u64, DBError>)
        requires
            old(self)@.wf(),
        ensures
            final(self)@.wf(),
            old(self)@.can_read(8) ==> r == Ok::<u64, DBError>(
                endian_value(old(self)@.endian, old(self)@.next_bytes(8)) as u64,
            ) && final(self)@ == old(self)@.advanced(8),
            !old(self)@.can_read(8) ==> r == Err::<u64, DBError>(DBError::BufferUnderflow) && final(self)@ == old(self)@.flushed(),
    {
        self.flush_bit();
        if 8 > self.data.len() - self.r_pos {
            return Err(DBError::BufferUnderflow);
        }
        let bytes = vstd::slice::slice_subrange(self.data.as_slice(), self.r_pos, self.r_pos + 8);
        proof {
            assert(bytes@.subrange(0, 8) =~= bytes@);
        }
        let v = match self.endian {
            Endian::Big => read_u64_be(bytes),
            Endian::Little => read_u64_le(bytes),
        };
        self.r_pos = self.r_pos + 8;
        Ok(v)
    }

    /// Reads a signed 64-bit value, as its two's complement.
    pub fn read_i64(&mut self) -> (r: Result<i64, DBError>)
        requires
            old(self)@.wf(),
        ensures
            final(self)@.wf(),
            old(self)@.can_read(8) ==> r == Ok::<i64, DBError>(
                endian_value(old(self)@.endian, old(self)@.next_bytes(8)) as u64 as i64,
            ) && final(self)@ == old(self)@.advanced(8),
            !old(self)@.can_read(8) ==> r == Err::<i64, DBError>(DBError::BufferUnderflow) && final(self)@ == old(self)@.flushed(),
    {
        match self.read_u64() {
            Ok(v) => Ok(v as i64),
            Err(e) => Err(e),
        }
    }

    /// Reads a string written by `write_string`: a 32-bit length in the
    /// buffer's byte order, then that many bytes of UTF-8. Fails with
    /// `BufferUnderflow` when the buffer ends first and with `InvalidUtf8`
    /// when the bytes are not UTF-8.
    pub fn read_string(&mut self) -> (r: Result<String, DBError>)
        requires
            old(self)@.wf(),
        ensures
            final(self)@.wf(),
            !old(self)@.can_read(4) ==> r == Err::<String, DBError>(DBError::BufferUnderflow)
                && final(self)@ == old(self)@.flushed(),
            old(self)@.can_read(4) ==> ({
                let n = endian_value(old(self)@.endian, old(self)@.next_bytes(4)) as u32 as nat;
                let after = old(self)@.advanced(4);
                &&& !after.can_read(n) ==> r == Err::<String, DBError>(DBError::BufferUnderflow)
                    && final(self)@ == after
                &&& after.can_read(n) && !valid_utf8(after.next_bytes(n)) ==> r == Err::<
                    String,
                    DBError,
                >(DBError::InvalidUtf8) && final(self)@ == after.advanced(n)
                &&& after.can_read(n) && valid_utf8(after.next_bytes(n)) ==> r is Ok && r->Ok_0@
                    == decode_utf8(after.next_bytes(n)) && final(self)@ == after.advanced(n)
            }),
    {
        let size = match self.read_u32() {
            Ok(size) => size,
            Err(e) => {
                return Err(e);
            },
        };
        let bytes = match self.read_bytes(size as usize) {
            Ok(bytes) => bytes,
            Err(e) => {
                return Err(e);
            },
        };
        match string_from_utf8(bytes) {
            Some(s) => Ok(s),
            None => Err(DBError::InvalidUtf8),
        }
    }

    /// Writes one bit at the bit write cursor, growing the buffer by a byte
    /// when the cursor stands at its end.
    pub fn write_bit(&mut self, bit: Bit)
        requires
            old(self)@.wf(),
            old(self)@.data.len() < usize::MAX,
        ensures
            final(self)@.wf(),
            final(self)@ == old(self)@.bit_written(bit == Bit::One),
    {
        if self.w_pos == self.data.len() {
            self.data.push(0u8);
        }
        let b = self.data[self.w_pos];
        match Bit::set_bit_u8(&b, self.w_bit as u32, bit) {
            Ok(nb) => {
                self.data[self.w_pos] = nb;
            },
            Err(_) => {},
        }
        if self.w_bit == 7 {
            self.w_bit = 0;
            self.w_pos = self.w_pos + 1;
        } else {
            self.w_bit = self.w_bit + 1;
        }
        proof {
            assert(self@.data =~= old(self)@.bit_written(bit == Bit::One).data);
        }
    }

    /// Writes the `n` low bits of `value`, the highest first.
    pub fn write_bits(&mut self, value: u64, n: u8)
        requires
            old(self)@.wf(),
            n <= 64,
            old(self)@.data.len() + n < usize::MAX,
        ensures
            final(self)@.wf(),
            final(self)@ == old(self)@.bits_written(value, n as nat),
    {
        let mut k: u8 = n;
        while k > 0
            invariant
                self@.wf(),
                k <= n <= 64,
                self@.data.len() + k < usize::MAX,
                old(self)@.bits_written(value, n as nat) == self@.bits_written(value, k as nat),
            decreases k,
        {
            let x = (value >> ((k - 1) as u64)) & 1u64 == 1u64;
            let bit = if x {
                Bit::One
            } else {
                Bit::Zero
            };
            self.write_bit(bit);
            k = k - 1;
        }
    }

    /// Reads one bit at the bit read cursor, or fails with
    /// `BufferUnderflow` when the buffer is exhausted.
    pub fn read_bit(&mut self) -> (r: Result<Bit, DBError>)
        requires
            old(self)@.wf(),
        ensures
            final(self)@.wf(),
            old(self)@.r_pos < old(self)@.data.len() ==> r == Ok::<Bit, DBError>(
                bit_of(old(self)@.next_bit()),
            ) && final(self)@ == old(self)@.bit_read(),
            old(self)@.r_pos >= old(self)@.data.len() ==> r == Err::<Bit, DBError>(
                DBError::BufferUnderflow,
            ) && final(self)@ == old(self)@,
    {
        if self.r_pos >= self.data.len() {
            return Err(DBError::BufferUnderflow);
        }
        let b = self.data[self.r_pos];
        let r = Bit::get_bit_u8(&b, self.r_bit as u32);
        if self.r_bit == 7 {
            self.r_bit = 0;
            self.r_pos = self.r_pos + 1;
        } else {
            self.r_bit = self.r_bit + 1;
        }
        r
    }

    /// Reads `n` bits, the first read the most significant, or fails with
    /// `BufferUnderflow`, reading nothing, when fewer than `n` remain.
    pub fn read_bits(&mut self, n: u8) -> (r: Result<u64, DBError>)
        requires
            old(self)@.wf(),
            n <= 64,
        ensures
            final(self)@.wf(),
            old(self)@.can_read_bits(n as nat) ==> r == Ok::<u64, DBError>(
                old(self)@.next_bits(n as nat) as u64,
            ) && final(self)@ == old(self)@.bits_read(n as nat),
            !old(self)@.can_read_bits(n as nat) ==> r == Err::<u64, DBError>(
                DBError::BufferUnderflow,
            ) && final(self)@ == old(self)@,
    {
        let avail = self.data.len() - self.r_pos;
        let need = (n as usize + self.r_bit + 7) / 8;
        proof {
            let t = n + self.r_bit;
            assert(avail >= need <==> 8 * avail >= t) by (nonlinear_arith)
                requires
                    need == (t + 7) / 8,
                    t >= 0,
                    avail >= 0,
            ;
        }
        if avail < need {
            return Err(DBError::BufferUnderflow);
        }
        let mut acc: u64 = 0;
        let mut k: u8 = n;
        proof {
            lemma2_to64();
        }
        while k > 0
            invariant
                self@.wf(),
                k <= n <= 64,
                self@.can_read_bits(k as nat),
                old(self)@.bits_read(n as nat) == self@.bits_read(k as nat),
                old(self)@.next_bits(n as nat) == acc * pow2(k as nat) + self@.next_bits(k as nat),
                acc < pow2((n - k) as nat),
                pow2(64) == 0x10000000000000000,
            decreases k,
        {
            let bit = match self.read_bit() {
                Ok(bit) => bit,
                Err(_) => Bit::Zero,
            };
            let one: u64 = if bit == Bit::One {
                1
            } else {
                0
            };
            proof {
                lemma_pow2_unfold(k as nat);
                lemma_pow2_unfold((n - k + 1) as nat);
                if n - k + 1 < 64 {
                    lemma_pow2_strictly_increases((n - k + 1) as nat, 64);
                }
                assert(acc * pow2(k as nat) == 2 * acc * pow2((k - 1) as nat)) by (nonlinear_arith)
                    requires
                        pow2(k as nat) == 2 * pow2((k - 1) as nat),
                ;
                assert((2 * acc + one) * pow2((k - 1) as nat) == 2 * acc * pow2((k - 1) as nat)
                    + one * pow2((k - 1) as nat)) by (nonlinear_arith);
            }
            acc = 2 * acc + one;
            k = k - 1;
        }
        proof {
            assert(pow2(0) == 1);
            assert(self@.bits_read(0) == self@);
            assert(self@.next_bits(0) == 0);
            assert(acc * pow2(0) == acc);
        }
        Ok(acc)
    }

    /// The buffer's bytes in hexadecimal, as `0x01 0xff`.
    pub fn to_string(&self) -> (r: String)
        requires
            self@.data.len() <= usize::MAX / 5,
        ensures
            r@ == hex_dump(self@.data),
    {
        let mut out: Vec<u8> = Vec::new();
        let mut i: usize = 0;
        while i < self.data.len()
            invariant
                i <= self@.data.len() <= usize::MAX / 5,
                out@.map_values(|x: u8| x as char) == hex_dump(self@.data.subrange(0, i as int)),
                out@.len() <= 5 * i,
                forall|k: int| 0 <= k < out@.len() ==> #[trigger] out@[k] < 128,
            decreases self@.data.len() - i,
        {
            let ghost before = out@;
            let b = self.data[i];
            if i > 0 {
                out.push(32u8);
            }
            out.push(48u8);
            out.push(120u8);
            out.push(hex_digit_code(b / 16));
            out.push(hex_digit_code(b % 16));
            proof {
                let d = self@.data.subrange(0, i + 1);
                assert(d.drop_last() =~= self@.data.subrange(0, i as int));
                assert(d.last() == b);
                let sep: Seq<char> = if i > 0 {
                    seq![' ']
                } else {
                    Seq::empty()
                };
                if i == 0 {
                    assert(d.len() == 1);
                }
                assert(out@.map_values(|x: u8| x as char) =~= before.map_values(|x: u8| x as char)
                    + sep + hex_byte(b));
            }
            i = i + 1;
        }
        let ghost chars = hex_dump(self@.data);
        proof {
            assert(self@.data.subrange(0, self@.data.len() as int) =~= self@.data);
            assert(is_ascii_chars(chars)) by {
                assert forall|k: int| 0 <= k < chars.len() implies '\0' <= #[trigger] chars[k]
                    <= '\u{7f}' by {
                    assert(chars[k] == out@[k] as char);
                    assert(out@[k] < 128);
                }
            }
            is_ascii_chars_encode_utf8(chars);
            assert forall|k: int| 0 <= k < out@.len() implies out@[k] == #[trigger] encode_utf8(
                chars,
            )[k] by {
                assert(chars[k] == out@[k] as char);
            }
            assert(out@ =~= encode_utf8(chars));
            encode_utf8_decode_utf8(chars);
            encode_utf8_valid_utf8(chars);
        }
        match string_from_utf8(out) {
            Some(text) => text,
            None => String::new(),
        }
    }

    /// A copy of the buffer's bytes.
    pub fn to_bytes(&self) -> (r: Vec<u8>)
        ensures
            r@ == self@.data,
    {
        vstd::slice::slice_to_vec(self.data.as_slice())
    }

    /// The read cursor.
    pub fn get_r_pos(&self) -> (r: usize)
        ensures
            r == self@.r_pos,
    {
        self.r_pos
    }

    /// Moves the read cursor to byte `r_pos`, or to the end of the buffer
    /// when `r_pos` lies past it.
    pub fn set_r_pos(&mut self, r_pos: usize)
        requires
            old(self)@.wf(),
        ensures
            final(self)@.wf(),
            final(self)@ == (BufferView {
                r_pos: if r_pos <= old(self)@.data.len() {
                    r_pos as nat
                } else {
                    old(self)@.data.len()
                },
                r_bit: 0,
                ..old(self)@
            }),
    {
        self.r_pos = if r_pos <= self.data.len() {
            r_pos
        } else {
            self.data.len()
        };
        self.r_bit = 0;
    }

    /// The write cursor.
    pub fn get_w_pos(&self) -> (r: usize)
        ensures
            r == self@.w_pos,
    {
        self.w_pos
    }

    /// Moves the write cursor to byte `w_pos`, or to the end of the buffer
    /// when `w_pos` lies past it.
    pub fn set_w_pos(&mut self, w_pos: usize)
        requires
            old(self)@.wf(),
        ensures
            final(self)@.wf(),
            final(self)@ == (BufferView {
                w_pos: if w_pos <= old(self)@.data.len() {
                    w_pos as nat
                } else {
                    old(self)@.data.len()
                },
                w_bit: 0,
                ..old(self)@
            }),
    {
        self.w_pos = if w_pos <= self.data.len() {
            w_pos
        } else {
            self.data.len()
        };
        self.w_bit = 0;
    }

    /// Moves a cursor that stands within a byte past that byte.
    pub fn flush_bit(&mut self)
        requires
            old(self)@.wf(),
        ensures
            final(self)@.wf(),
            final(self)@ == old(self)@.flushed(),
    {
        self.flush_r_bit();
        self.flush_w_bit();
    }

    fn flush_w_bit(&mut self)
        requires
            old(self)@.wf(),
        ensures
            final(self)@.wf(),
            final(self)@ == (BufferView { w_pos: old(self)@.flushed().w_pos, w_bit: 0, ..old(self)@ }),
    {
        if self.w_bit > 0 && self.w_pos < self.data.len() {
            self.w_pos = self.w_pos + 1;
            self.w_bit = 0;
        }
    }

    fn flush_r_bit(&mut self)
        requires
            old(self)@.wf(),
        ensures
            final(self)@.wf(),
            final(self)@ == (BufferView { r_pos: old(self)@.flushed().r_pos, r_bit: 0, ..old(self)@ }),
    {
        if self.r_bit > 0 && self.r_pos < self.data.len() {
            self.r_pos = self.r_pos + 1;
            self.r_bit = 0;
        }
    }
}

} // verus!
