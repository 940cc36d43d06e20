//! A cursor over a byte buffer, and the big-endian numbers read through it.

use byteorder::{BigEndian, ReadBytesExt};
use vstd::prelude::*;
use vstd::slice::slice_subrange;

verus! {

/// The error type of `std::io`, carried through as it comes.
#[verifier::external_type_specification]
#[verifier::external_body]
pub struct ExIoError(std::io::Error);

/// The number that `bytes` spell when read as base-256 digits, the most
/// significant first.
pub open spec fn be_nat(bytes: Seq<u8>) -> nat
    decreases bytes.len(),
{
    if bytes.len() == 0 {
        0
    } else {
        be_nat(bytes.drop_last()) * 256 + bytes.last() as nat
    }
}

/// The signed reading of `value` in two's complement, where `modulus` is two
/// to the number of bits.
pub open spec fn twos_complement(value: nat, modulus: int) -> int {
    if 2 * value >= modulus {
        value - modulus
    } else {
        value as int
    }
}

/// The `width` bytes of `data` that start at `pos`.
pub open spec fn field(data: Seq<u8>, pos: int, width: int) -> Seq<u8> {
    data.subrange(pos, pos + width)
}

/// The signed big-endian number held in the `width` bytes at `pos`.
pub open spec fn be_int(data: Seq<u8>, pos: int, width: int) -> int {
    twos_complement(be_nat(field(data, pos, width)), pow256(width as nat))
}

/// 256 to the power `n`.
pub open spec fn pow256(n: nat) -> int
    decreases n,
{
    if n == 0 {
        1
    } else {
        256 * pow256((n - 1) as nat)
    }
}

/// byteorder's `ReadBytesExt::read_u8`, with a byte slice as the reader.
///
/// Succeeds exactly when the slice holds a byte, and then returns the first
/// one; on an empty slice it returns the reader's error.
#[verifier::external_body]
fn slice_read_u8(source: &[u8]) -> (r: Result<u8, std::io::Error>)
    ensures
        r is Ok <==> source@.len() >= 1,
        r matches Ok(v) ==> v == source@[0],
{
    let mut rest = source;
    rest.read_u8()
}

/// byteorder's `ReadBytesExt::read_i8`, with a byte slice as the reader.
///
/// Succeeds exactly when the slice holds a byte, and then returns the first
/// one read as a signed number in two's complement.
#[verifier::external_body]
fn slice_read_i8(source: &[u8]) -> (r: Result<i8, std::io::Error>)
    ensures
        r is Ok <==> source@.len() >= 1,
        r matches Ok(v) ==> v as int == be_int(source@, 0, 1),
{
    let mut rest = source;
    rest.read_i8()
}

/// byteorder's `ReadBytesExt::read_u16` in big-endian order, with a byte
/// slice as the reader.
///
/// Succeeds exactly when the slice holds two bytes, and then returns the
/// number that the first two spell, the high byte first.
#[verifier::external_body]
fn slice_read_u16(source: &[u8]) -> (r: Result<u16, std::io::Error>)
    ensures
        r is Ok <==> source@.len() >= 2,
        r matches Ok(v) ==> v as nat == be_nat(field(source@, 0, 2)),
{
    let mut rest = source;
    rest.read_u16::<BigEndian>()
}

/// byteorder's `ReadBytesExt::read_i16` in big-endian order, with a byte
/// slice as the reader.
///
/// Succeeds exactly when the slice holds two bytes, and then returns the
/// first two read as a signed big-endian number.
#[verifier::external_body]
fn slice_read_i16(source: &[u8]) -> (r: Result<i16, std::io::Error>)
    ensures
        r is Ok <==> source@.len() >= 2,
        r matches Ok(v) ==> v as int == be_int(source@, 0, 2),
{
    let mut rest = source;
    rest.read_i16::<BigEndian>()
}

/// byteorder's `ReadBytesExt::read_i32` in big-endian order, with a byte
/// slice as the reader.
///
/// Succeeds exactly when the slice holds four bytes, and then returns the
/// first four read as a signed big-endian number.
#[verifier::external_body]
fn slice_read_i32(source: &[u8]) -> (r: Result<i32, std::io::Error>)
    ensures
        r is Ok <==> source@.len() >= 4,
        r matches Ok(v) ==> v as int == be_int(source@, 0, 4),
{
    let mut rest = source;
    rest.read_i32::<BigEndian>()
}

/// byteorder's `ReadBytesExt::read_i64` in big-endian order, with a byte
/// slice as the reader.
///
/// Succeeds exactly when the slice holds eight bytes, and then returns the
/// first eight read as a signed big-endian number.
#[verifier::external_body]
fn slice_read_i64(source: &[u8]) -> (r: Result<i64, std::io::Error>)
    ensures
        r is Ok <==> source@.len() >= 8,
        r matches Ok(v) ==> v as int == be_int(source@, 0, 8),
{
    let mut rest = source;
    rest.read_i64::<BigEndian>()
}

/// A read position in a borrowed byte buffer.
pub struct ByteReader<'a> {
    data: &'a [u8],
    pos: usize,
}

impl<'a> ByteReader<'a> {
    /// The whole buffer.
    pub closed spec fn data(&self) -> Seq<u8> {
        self.data@
    }

    /// The index of the next byte to read.
    pub closed spec fn position(&self) -> int {
        self.pos as int
    }

    /// The position lies within the buffer, or at its end.
    pub open spec fn wf(&self) -> bool {
        0 <= self.position() <= self.data().len()
    }

    /// Whether `width` more bytes can be read.
    pub open spec fn has(&self, width: int) -> bool {
        self.position() + width <= self.data().len()
    }

    /// Whether `next` is this reader moved forward by `width` bytes.
    pub open spec fn advanced(&self, next: &ByteReader<'a>, width: int) -> bool {
        &&& next.data() == self.data()
        &&& next.position() == self.position() + width
    }

    /// A buffer is never longer than the address space.
    pub proof fn lemma_data_fits(&self)
        ensures
            self.data().len() <= usize::MAX,
    {
        assert(self.data.len() == self.data@.len());
    }

    /// A reader at the start of `data`.
    pub fn new(data: &'a [u8]) -> (reader: ByteReader<'a>)
        ensures
            reader.wf(),
            reader.data() == data@,
            reader.position() == 0,
    {
        ByteReader { data, pos: 0 }
    }

    /// The number of bytes that are left to read.
    pub fn remaining(&self) -> (n: usize)
        requires
            self.wf(),
        ensures
            n == self.data().len() - self.position(),
    {
        self.data.len() - self.pos
    }

    fn rest(&self) -> (rest: &'a [u8])
        requires
            self.wf(),
        ensures
            rest@ == self.data().subrange(self.position(), self.data().len() as int),
            self.data().len() <= usize::MAX,
    {
        slice_subrange(self.data, self.pos, self.data.len())
    }

    /// Moves forward by `count` bytes, which must be left to read.
    pub fn advance(&mut self, count: usize)
        requires
            old(self).wf(),
            old(self).has(count as int),
        ensures
            final(self).wf(),
            old(self).advanced(final(self), count as int),
    {
        proof {
            self.lemma_data_fits();
        }
        self.pos = self.pos + count;
    }

    /// Reads one byte. Fails, without moving, where none is left.
    pub fn read_u8(&mut self) -> (r: Result<u8, std::io::Error>)
        requires
            old(self).wf(),
        ensures
            final(self).wf(),
            r is Ok <==> old(self).has(1),
            r is Ok ==> old(self).advanced(final(self), 1),
            r is Err ==> old(self).advanced(final(self), 0),
            r matches Ok(v) ==> v == old(self).data()[old(self).position()],
    {
        let rest = self.rest();
        let r = slice_read_u8(rest);
        if r.is_ok() {
            self.pos = self.pos + 1;
        }
        r
    }

    /// Reads one byte as a signed number. Fails, without moving, where none
    /// is left.
    pub fn read_i8(&mut self) -> (r: Result<i8, std::io::Error>)
        requires
            old(self).wf(),
        ensures
            final(self).wf(),
            r is Ok <==> old(self).has(1),
            r is Ok ==> old(self).advanced(final(self), 1),
            r is Err ==> old(self).advanced(final(self), 0),
            r matches Ok(v) ==> v as int == be_int(old(self).data(), old(self).position(), 1),
    {
        let rest = self.rest();
        let r = slice_read_i8(rest);
        proof {
            if self.has(1) {
                assert(field(rest@, 0, 1) =~= field(self.data(), self.position(), 1));
            }
        }
        if r.is_ok() {
            self.pos = self.pos + 1;
        }
        r
    }

    /// Reads an unsigned big-endian number of two bytes. Fails, without
    /// moving, where fewer are left.
    pub fn read_u16(&mut self) -> (r: Result<u16, std::io::Error>)
        requires
            old(self).wf(),
        ensures
            final(self).wf(),
            r is Ok <==> old(self).has(2),
            r is Ok ==> old(self).advanced(final(self), 2),
            r is Err ==> old(self).advanced(final(self), 0),
            r matches Ok(v) ==> v as nat == be_nat(
                field(old(self).data(), old(self).position(), 2),
            ),
    {
        let rest = self.rest();
        let r = slice_read_u16(rest);
        proof {
            if self.has(2) {
                assert(field(rest@, 0, 2) =~= field(self.data(), self.position(), 2));
            }
        }
        if r.is_ok() {
            self.pos = self.pos + 2;
        }
        r
    }

    /// Reads a signed big-endian number of two bytes. Fails, without moving,
    /// where fewer are left.
    pub fn read_i16(&mut self) -> (r: Result<i16, std::io::Error>)
        requires
            old(self).wf(),
        ensures
            final(self).wf(),
            r is Ok <==> old(self).has(2),
            r is Ok ==> old(self).advanced(final(self), 2),
            r is Err ==> old(self).advanced(final(self), 0),
            r matches Ok(v) ==> v as int == be_int(old(self).data(), old(self).position(), 2),
    {
        let rest = self.rest();
        let r = slice_read_i16(rest);
        proof {
            if self.has(2) {
                assert(field(rest@, 0, 2) =~= field(self.data(), self.position(), 2));
            }
        }
        if r.is_ok() {
            self.pos = self.pos + 2;
        }
        r
    }

    /// Reads a signed big-endian number of four bytes. Fails, without moving,
    /// where fewer are left.
    pub fn read_i32(&mut self) -> (r: Result<i32, std::io::Error>)
        requires
            old(self).wf(),
        ensures
            final(self).wf(),
            r is Ok <==> old(self).has(4),
            r is Ok ==> old(self).advanced(final(self), 4),
            r is Err ==> old(self).advanced(final(self), 0),
            r matches Ok(v) ==> v as int == be_int(old(self).data(), old(self).position(), 4),
    {
        let rest = self.rest();
        let r = slice_read_i32(rest);
        proof {
            if self.has(4) {
                assert(field(rest@, 0, 4) =~= field(self.data(), self.position(), 4));
            }
        }
        if r.is_ok() {
            self.pos = self.pos + 4;
        }
        r
    }

    /// Reads a signed big-endian number of eight bytes. Fails, without
    /// moving, where fewer are left.
    pub fn read_i64(&mut self) -> (r: Result<i64, std::io::Error>)
        requires
            old(self).wf(),
        ensures
            final(self).wf(),
            r is Ok <==> old(self).has(8),
            r is Ok ==> old(self).advanced(final(self), 8),
            r is Err ==> old(self).advanced(final(self), 0),
            r matches Ok(v) ==> v as int == be_int(old(self).data(), old(self).position(), 8),
    {
        let rest = self.rest();
        let r = slice_read_i64(rest);
        proof {
            if self.has(8) {
                assert(field(rest@, 0, 8) =~= field(self.data(), self.position(), 8));
            }
        }
        if r.is_ok() {
            self.pos = self.pos + 8;
        }
        r
    }

    /// Copies the next thirteen bytes, which must be left to read, into
    /// `buffer`, and moves past them.
    pub fn read_exact(&mut self, buffer: &mut [u8; 13])
        requires
            old(self).wf(),
            old(self).has(13),
        ensures
            final(self).wf(),
            old(self).advanced(final(self), 13),
            final(buffer)@ == field(old(self).data(), old(self).position(), 13),
    {
        proof {
            self.lemma_data_fits();
        }
        let mut i: usize = 0;
        while i < 13
            invariant
                i <= 13,
                self.pos + 13 <= self.data@.len() <= usize::MAX,
                self.pos == old(self).pos,
                self.data == old(self).data,
                forall|j: int| 0 <= j < i ==> buffer@[j] == self.data@[self.pos + j],
            decreases 13 - i,
        {
            buffer[i] = self.data[self.pos + i];
            i = i + 1;
        }
        proof {
            assert(buffer@ =~= field(self.data(), self.position(), 13));
        }
        self.pos = self.pos + 13;
    }
}

} // verus!
