//! Bit streams: a reader over a byte slice and a growable writer.
use vstd::prelude::*;

use crate::error::Error;
use crate::bits::{
    bit_at, bit_or_zero, bits_of, byte_bit, bytes_for, lemma_bit_or, lemma_bit_shl, lemma_bit_shr,
    lemma_bit_zero, lemma_byte_ext, lemma_pack_byte, lemma_pack_bits, lemma_pack_bits_ext, pack_bits, pack_byte, source_bits,
};

verus! {

/// A number of bits.
pub type BitSize = usize;

/// A value that a bit stream reads as whole bytes, least significant first.
pub trait ReadSafe: Sized {
    /// The number of bytes read.
    spec fn read_size() -> nat;

    /// The value that the bytes `b` stand for.
    spec fn from_bytes(b: Seq<u8>) -> Self;

    fn size_in_bytes() -> (r: usize)
        ensures
            r == Self::read_size(),
            1 <= r <= 8,
    ;

    fn from_stream_bytes(b: &[u8]) -> (r: Self)
        requires
            b@.len() == Self::read_size(),
        ensures
            r == Self::from_bytes(b@),
    ;
}

/// A value that a bit stream writes as whole bytes, least significant first.
pub trait WriteSafe: Sized {
    /// The number of bytes written.
    spec fn write_size() -> nat;

    /// The bytes written for the value.
    spec fn to_bytes(&self) -> Seq<u8>;

    fn stream_bytes(&self) -> (r: Vec<u8>)
        ensures
            r@ == self.to_bytes(),
            r@.len() == Self::write_size(),
            1 <= Self::write_size() <= 8,
    ;
}

/// A value that is read back as it was written.
pub trait Wire: ReadSafe + WriteSafe {
    /// Reading the bytes of a value gives the value back.
    proof fn lemma_wire_round_trip(v: Self)
        ensures
            Self::read_size() == Self::write_size(),
            v.to_bytes().len() == Self::write_size(),
            Self::from_bytes(v.to_bytes()) == v,
    ;
}

/// A value that a bit stream writes in fewer bits than its bytes hold: the low
/// `num_bits()` bits of one byte.
pub trait Bits: Sized {
    /// The number of bits written.
    spec fn num_bits() -> nat;

    /// The byte whose low bits are written.
    spec fn bits_byte(&self) -> u8;

    /// The value that the byte `b`, of which only the low bits may be set, stands for.
    spec fn from_bits_byte(b: u8) -> Self;

    fn num() -> (r: usize)
        ensures
            r == Self::num_bits(),
            1 <= r < 8,
    ;

    fn to_bits(&self) -> (r: u8)
        ensures
            r == self.bits_byte(),
    ;

    fn from_bits(b: u8) -> (r: Self)
        requires
            (b as int) < pow2_u8(Self::num_bits()),
        ensures
            r == Self::from_bits_byte(b),
    ;

    /// A byte read from the stream stands for a value that writes that byte back.
    proof fn lemma_bits_round_trip(b: u8)
        requires
            (b as int) < pow2_u8(Self::num_bits()),
        ensures
            Self::from_bits_byte(b).bits_byte() == b,
    ;
}

/// `2` to the power `n`, for the widths of a byte.
pub open spec fn pow2_u8(n: nat) -> int
    decreases n,
{
    if n == 0 {
        1
    } else {
        2 * pow2_u8((n - 1) as nat)
    }
}

impl ReadSafe for u8 {
    open spec fn read_size() -> nat {
        1
    }

    open spec fn from_bytes(b: Seq<u8>) -> u8 {
        b[0]
    }

    fn size_in_bytes() -> (r: usize) {
        1
    }

    fn from_stream_bytes(b: &[u8]) -> (r: u8) {
        b[0]
    }
}

impl WriteSafe for u8 {
    open spec fn write_size() -> nat {
        1
    }

    open spec fn to_bytes(&self) -> Seq<u8> {
        seq![*self]
    }

    fn stream_bytes(&self) -> (r: Vec<u8>) {
        let r = vec![*self];
        assert(r@ =~= seq![*self]);
        r
    }
}

impl Wire for u8 {
    proof fn lemma_wire_round_trip(v: u8) {
    }
}

impl ReadSafe for u16 {
    open spec fn read_size() -> nat {
        2
    }

    open spec fn from_bytes(b: Seq<u8>) -> u16 {
        vstd::bytes::spec_u16_from_le_bytes(b)
    }

    fn size_in_bytes() -> (r: usize) {
        2
    }

    fn from_stream_bytes(b: &[u8]) -> (r: u16) {
        vstd::bytes::u16_from_le_bytes(b)
    }
}

impl WriteSafe for u16 {
    open spec fn write_size() -> nat {
        2
    }

    open spec fn to_bytes(&self) -> Seq<u8> {
        vstd::bytes::spec_u16_to_le_bytes(*self)
    }

    fn stream_bytes(&self) -> (r: Vec<u8>) {
        vstd::bytes::u16_to_le_bytes(*self)
    }
}

impl Wire for u16 {
    proof fn lemma_wire_round_trip(v: u16) {
        vstd::bytes::lemma_auto_spec_u16_to_from_le_bytes();
    }
}

impl ReadSafe for u32 {
    open spec fn read_size() -> nat {
        4
    }

    open spec fn from_bytes(b: Seq<u8>) -> u32 {
        vstd::bytes::spec_u32_from_le_bytes(b)
    }

    fn size_in_bytes() -> (r: usize) {
        4
    }

    fn from_stream_bytes(b: &[u8]) -> (r: u32) {
        vstd::bytes::u32_from_le_bytes(b)
    }
}

impl WriteSafe for u32 {
    open spec fn write_size() -> nat {
        4
    }

    open spec fn to_bytes(&self) -> Seq<u8> {
        vstd::bytes::spec_u32_to_le_bytes(*self)
    }

    fn stream_bytes(&self) -> (r: Vec<u8>) {
        vstd::bytes::u32_to_le_bytes(*self)
    }
}

impl Wire for u32 {
    proof fn lemma_wire_round_trip(v: u32) {
        vstd::bytes::lemma_auto_spec_u32_to_from_le_bytes();
    }
}

impl ReadSafe for u64 {
    open spec fn read_size() -> nat {
        8
    }

    open spec fn from_bytes(b: Seq<u8>) -> u64 {
        vstd::bytes::spec_u64_from_le_bytes(b)
    }

    fn size_in_bytes() -> (r: usize) {
        8
    }

    fn from_stream_bytes(b: &[u8]) -> (r: u64) {
        vstd::bytes::u64_from_le_bytes(b)
    }
}

impl WriteSafe for u64 {
    open spec fn write_size() -> nat {
        8
    }

    open spec fn to_bytes(&self) -> Seq<u8> {
        vstd::bytes::spec_u64_to_le_bytes(*self)
    }

    fn stream_bytes(&self) -> (r: Vec<u8>) {
        vstd::bytes::u64_to_le_bytes(*self)
    }
}

impl Wire for u64 {
    proof fn lemma_wire_round_trip(v: u64) {
        vstd::bytes::lemma_auto_spec_u64_to_from_le_bytes();
    }
}

/// The bit that a read of `n` bits from `bits` places at bit `i` of its output:
/// whole bytes as they come, then, where `n` is not a multiple of 8, the last
/// `n % 8` bits in the low bits of the next byte; zeros elsewhere.
pub open spec fn placed_bit(bits: Seq<bool>, n: int, i: int) -> bool {
    if i < n / 8 * 8 {
        bits[i]
    } else if i < n / 8 * 8 + 8 && n % 8 != 0 && i % 8 >= 8 - n % 8 {
        bits[i - (8 - n % 8)]
    } else {
        false
    }
}

/// The `len` bytes that a read of `n` bits from `bits` leaves in its output.
pub open spec fn place_bits(bits: Seq<bool>, n: int, len: nat) -> Seq<u8> {
    pack_bits(|i: int| placed_bit(bits, n, i), len)
}

/// The outcome of a compressed read of a value of `len` bytes, from byte `cb`
/// down, from the bits `bits`: the value's bytes, least significant first, or
/// `None` where the bits run out; and the number of bits consumed either way.
pub open spec fn compressed_read(bits: Seq<bool>, cb: int, len: nat) -> (Option<Seq<u8>>, nat)
    decreases cb,
{
    if bits.len() == 0 {
        (None, 0)
    } else if cb > 0 {
        if bits[0] {
            let r = compressed_read(bits.drop_first(), cb - 1, len);
            (r.0, r.1 + 1)
        } else if bits.len() < 1 + 8 * (cb + 1) {
            (None, 1)
        } else {
            (Some(place_bits(bits.drop_first(), 8 * (cb + 1), len)), (1 + 8 * (cb + 1)) as nat)
        }
    } else {
        let n = if bits[0] {
            4int
        } else {
            8int
        };
        if bits.len() < 1 + n {
            (None, 1)
        } else {
            (Some(place_bits(bits.drop_first(), n, len)), (1 + n) as nat)
        }
    }
}

/// A stream of bits read from the front of a byte slice.
pub struct BitStreamRead<'a> {
    number_of_bits_used: BitSize,
    read_offset: BitSize,
    data: &'a [u8],
}

impl<'a> View for BitStreamRead<'a> {
    type V = Seq<bool>;

    /// The bits not read yet.
    open spec fn view(&self) -> Seq<bool> {
        if self.offset() <= self.bits_used() {
            bits_of(self.bytes(), self.offset() as int, self.bits_used() as int)
        } else {
            Seq::empty()
        }
    }
}

impl<'a> BitStreamRead<'a> {
    /// The bytes read from.
    pub closed spec fn bytes(&self) -> Seq<u8> {
        self.data@
    }

    /// The number of bits of the bytes that the stream holds.
    pub closed spec fn bits_used(&self) -> nat {
        self.number_of_bits_used as nat
    }

    /// The number of bits read.
    pub closed spec fn offset(&self) -> nat {
        self.read_offset as nat
    }

    pub open spec fn wf(&self) -> bool {
        &&& self.bits_used() <= 8 * self.bytes().len()
        &&& self.offset() <= 8 * self.bytes().len()
        &&& 8 * self.bytes().len() <= usize::MAX
    }

    /// A stream of the first `number_of_bits_used` bits of `data`.
    pub fn with_size(data: &'a [u8], number_of_bits_used: BitSize) -> (r: Self)
        requires
            8 * data@.len() <= usize::MAX,
            number_of_bits_used <= 8 * data@.len(),
        ensures
            r.bytes() == data@,
            r.bits_used() == number_of_bits_used,
            r.offset() == 0,
            r.wf(),
            r@ == bits_of(data@, 0, number_of_bits_used as int),
    {
        Self { number_of_bits_used, read_offset: 0, data }
    }

    /// A stream of all the bits of `data`.
    pub fn new(data: &'a [u8]) -> (r: Self)
        requires
            8 * data@.len() <= usize::MAX,
        ensures
            r.bytes() == data@,
            r.bits_used() == 8 * data@.len(),
            r.offset() == 0,
            r.wf(),
            r@ == bits_of(data@, 0, (8 * data@.len()) as int),
    {
        Self { data, number_of_bits_used: data.len() * 8, read_offset: 0 }
    }

    /// A second stream over the same bytes, at the same place.
    pub(crate) fn duplicate(&self) -> (r: Self)
        ensures
            r.bytes() == self.bytes(),
            r.bits_used() == self.bits_used(),
            r.offset() == self.offset(),
    {
        Self {
            number_of_bits_used: self.number_of_bits_used,
            read_offset: self.read_offset,
            data: self.data,
        }
    }

    /// Skips `number_of_bits` bits; fails, skipping none, where fewer are left.
    pub fn ignore_bits(&mut self, number_of_bits: BitSize) -> (r: Result<(), Error>)
        requires
            old(self).wf(),
        ensures
            final(self).bytes() == old(self).bytes(),
            final(self).bits_used() == old(self).bits_used(),
            final(self).wf(),
            r is Err <==> old(self).offset() + number_of_bits > old(self).bits_used(),
            r is Err ==> r == Err::<(), Error>(Error::BitStreamEos) && final(self).offset()
                == old(self).offset(),
            r is Ok ==> final(self).offset() == old(self).offset() + number_of_bits && final(self)@ == old(self)@.skip(number_of_bits as int),
    {
        if self.read_offset > self.number_of_bits_used || number_of_bits
            > self.number_of_bits_used - self.read_offset {
            Err(Error::BitStreamEos)
        } else {
            self.read_offset = self.read_offset + number_of_bits;
            proof {
                assert(self@ =~= old(self)@.skip(number_of_bits as int));
            }
            Ok(())
        }
    }

    /// The number of bits not read yet.
    pub fn get_number_of_unread_bits(&self) -> (r: BitSize)
        requires
            self.offset() <= self.bits_used(),
        ensures
            r == self.bits_used() - self.offset(),
            r == self@.len(),
    {
        self.number_of_bits_used - self.read_offset
    }

    /// Reads the next bit of the bytes, whether or not the stream holds it.
    pub fn read_bit(&mut self) -> (r: bool)
        requires
            old(self).wf(),
            old(self).offset() < 8 * old(self).bytes().len(),
        ensures
            r == bit_at(old(self).bytes(), old(self).offset() as int),
            final(self).bytes() == old(self).bytes(),
            final(self).bits_used() == old(self).bits_used(),
            final(self).offset() == old(self).offset() + 1,
            final(self).wf(),
    {
        let m = (self.read_offset % 8) as u8;
        let result = (self.data[self.read_offset / 8] & (0x80u8 >> m)) != 0;
        proof {
            lemma_test_bit(self.data@[(self.read_offset / 8) as int], m);
        }
        self.read_offset = self.read_offset + 1;
        result
    }

    /// Reads one bit; fails, reading none, where none is left.
    pub fn read_bool(&mut self) -> (r: Result<bool, Error>)
        requires
            old(self).wf(),
        ensures
            final(self).bytes() == old(self).bytes(),
            final(self).bits_used() == old(self).bits_used(),
            final(self).wf(),
            r is Err <==> old(self).offset() + 1 > old(self).bits_used(),
            r is Err ==> r == Err::<bool, Error>(Error::BitStreamEos) && final(self).offset()
                == old(self).offset(),
            r matches Ok(b) ==> b == old(self)@[0] && final(self).offset() == old(self).offset()
                + 1 && final(self)@ == old(self)@.drop_first(),
    {
        if self.read_offset >= self.number_of_bits_used {
            return Err(Error::BitStreamEos);
        }
        let m = (self.read_offset % 8) as u8;
        let var = (self.data[self.read_offset / 8] & (0x80u8 >> m)) != 0;
        proof {
            lemma_test_bit(self.data@[(self.read_offset / 8) as int], m);
        }
        self.read_offset = self.read_offset + 1;
        proof {
            assert(self@ =~= old(self)@.drop_first());
        }
        Ok(var)
    }

    /// Reads `number_of_bits_to_read` bits into `output`, which is first
    /// cleared: see `place_bits`. Fails, reading none, where fewer are left.
    fn _read_bits(&mut self, output: &mut Vec<u8>, number_of_bits_to_read: usize) -> (r: Result<
        (),
        Error,
    >)
        requires
            old(self).wf(),
            old(self).offset() + number_of_bits_to_read <= old(self).bits_used() ==> old(
                output,
            )@.len() >= bytes_for(number_of_bits_to_read as int),
        ensures
            final(self).bytes() == old(self).bytes(),
            final(self).bits_used() == old(self).bits_used(),
            final(self).wf(),
            r is Err <==> old(self).offset() + number_of_bits_to_read > old(self).bits_used(),
            r is Err ==> r == Err::<(), Error>(Error::BitStreamEos) && final(self).offset()
                == old(self).offset() && final(output)@ == old(output)@,
            r is Ok ==> final(self).offset() == old(self).offset() + number_of_bits_to_read
                && final(self)@ == old(self)@.skip(number_of_bits_to_read as int) && final(output)@ == place_bits(
                old(self)@,
                number_of_bits_to_read as int,
                old(output)@.len(),
            ),
    {
        if self.read_offset > self.number_of_bits_used || number_of_bits_to_read
            > self.number_of_bits_used - self.read_offset {
            return Err(Error::BitStreamEos);
        }
        let ghost bits = old(self)@;
        let ghost n0 = number_of_bits_to_read as int;
        let ghost ro0 = old(self).offset() as int;
        let ghost len = output@.len();
        let ghost data = self.bytes();
        let read_offset_mod_8: BitSize = self.read_offset % 8;
        let mut i: usize = 0;
        while i < output.len()
            invariant
                output@.len() == len,
                forall|b: int| 0 <= b < i ==> #[trigger] output@[b] == 0u8,
            decreases len - i,
        {
            output.set(i, 0);
            i = i + 1;
        }
        let mut number_of_bits_to_read = number_of_bits_to_read;
        let mut offset: BitSize = 0;
        while number_of_bits_to_read > 0
            invariant
                self.wf(),
                self.bytes() == data,
                self.bits_used() == old(self).bits_used(),
                bits == bits_of(data, ro0, self.bits_used() as int),
                ro0 + n0 <= self.bits_used(),
                0 <= ro0,
                read_offset_mod_8 == ro0 % 8,
                output@.len() == len,
                len >= bytes_for(n0),
                self.offset() + number_of_bits_to_read == ro0 + n0,
                number_of_bits_to_read > 0 ==> self.offset() == ro0 + 8 * offset,
                number_of_bits_to_read == 0 ==> offset == bytes_for(n0),
                offset <= bytes_for(n0),
                forall|b: int| 0 <= b < offset ==> #[trigger] output@[b] == place_bits(bits, n0, len)[b],
                forall|b: int| offset <= b < len ==> #[trigger] output@[b] == 0u8,
            decreases number_of_bits_to_read,
        {
            let ghost ro = self.offset() as int;
            let ghost cnt = if number_of_bits_to_read >= 8 {
                8int
            } else {
                number_of_bits_to_read as int
            };
            let index = self.read_offset / 8;
            let mut byte: u8 = self.data[index] << (read_offset_mod_8 as u8);
            if read_offset_mod_8 > 0 && number_of_bits_to_read > 8 - read_offset_mod_8 {
                byte = byte | (self.data[index + 1] >> ((8 - read_offset_mod_8) as u8));
            }
            if number_of_bits_to_read >= 8 {
                number_of_bits_to_read = number_of_bits_to_read - 8;
                self.read_offset = self.read_offset + 8;
            } else {
                // A partial last byte is aligned to the right.
                byte = byte >> ((8 - number_of_bits_to_read) as u8);
                self.read_offset = self.read_offset + number_of_bits_to_read;
                number_of_bits_to_read = 0;
            }
            proof {
                lemma_gather_byte(data, ro, cnt, byte);
                lemma_placed_byte(bits, data, ro0, n0, offset as int, cnt, byte, len);
            }
            output.set(offset, byte);
            offset = offset + 1;
        }
        proof {
            assert(self@ =~= old(self)@.skip(n0));
            lemma_place_bits_tail(bits, n0, len);
            assert(output@ =~= place_bits(bits, n0, len));
        }
        Ok(())
    }
    /// Reads a value of `T::read_size()` bytes, least significant first.
    pub fn read<T: ReadSafe>(&mut self) -> (r: Result<T, Error>)
        requires
            old(self).wf(),
        ensures
            final(self).bytes() == old(self).bytes(),
            final(self).bits_used() == old(self).bits_used(),
            final(self).wf(),
            r is Err <==> old(self).offset() + 8 * T::read_size() > old(self).bits_used(),
            r is Err ==> r == Err::<T, Error>(Error::BitStreamEos) && final(self).offset()
                == old(self).offset(),
            r matches Ok(v) ==> v == T::from_bytes(
                place_bits(old(self)@, (8 * T::read_size()) as int, T::read_size()),
            ) && final(self).offset() == old(self).offset() + 8 * T::read_size() && final(self)@
                == old(self)@.skip((8 * T::read_size()) as int),
    {
        let size = T::size_in_bytes();
        let mut bytes: Vec<u8> = vec![0u8; size];
        self._read_bits(&mut bytes, size * 8)?;
        Ok(T::from_stream_bytes(bytes.as_slice()))
    }

    /// Reads a value of `T::num_bits()` bits.
    pub fn read_bits<T: Bits>(&mut self) -> (r: Result<T, Error>)
        requires
            old(self).wf(),
        ensures
            final(self).bytes() == old(self).bytes(),
            final(self).bits_used() == old(self).bits_used(),
            final(self).wf(),
            r is Err <==> old(self).offset() + T::num_bits() > old(self).bits_used(),
            r is Err ==> r == Err::<T, Error>(Error::BitStreamEos) && final(self).offset()
                == old(self).offset(),
            r matches Ok(v) ==> v == T::from_bits_byte(
                place_bits(old(self)@, T::num_bits() as int, 1)[0],
            ) && final(self).offset() == old(self).offset() + T::num_bits() && final(self)@
                == old(self)@.skip(T::num_bits() as int),
    {
        let n = T::num();
        let mut buffer: Vec<u8> = vec![0u8; 1];
        self._read_bits(&mut buffer, n)?;
        proof {
            lemma_placed_low_bits(old(self)@, n as int);
        }
        Ok(T::from_bits(buffer[0]))
    }

    /// Reads a value of `T::read_size()` bytes written compressed: see
    /// `compressed_read`. Where the bits run out the read fails, having consumed
    /// the bits that `compressed_read` counts.
    pub fn read_compressed<T: ReadSafe>(&mut self) -> (r: Result<T, Error>)
        requires
            old(self).wf(),
        ensures
            final(self).bytes() == old(self).bytes(),
            final(self).bits_used() == old(self).bits_used(),
            final(self).wf(),
            ({
                let (res, used) = compressed_read(old(self)@, T::read_size() - 1, T::read_size());
                &&& r is Err <==> res is None
                &&& r is Err ==> r == Err::<T, Error>(Error::BitStreamEos)
                &&& r matches Ok(v) ==> res matches Some(b) && v == T::from_bytes(b)
                &&& final(self).offset() == old(self).offset() + used
                &&& final(self)@ == old(self)@.skip(used as int)
            }),
    {
        let size = T::size_in_bytes();
        let mut buf: Vec<u8> = vec![0u8; size];
        self._read_compressed(&mut buf, size * 8)?;
        Ok(T::from_stream_bytes(buf.as_slice()))
    }

    /// Moves the read position to the next byte boundary.
    fn _align_read_to_byte_boundary(&mut self)
        requires
            old(self).wf(),
        ensures
            final(self).bytes() == old(self).bytes(),
            final(self).bits_used() == old(self).bits_used(),
            final(self).offset() == 8 * bytes_for(old(self).offset() as int),
            final(self).wf(),
    {
        proof {
            lemma_bytes_for_le(self.offset() as int, self.bytes().len() as int);
        }
        if self.read_offset > 0 {
            self.read_offset = self.read_offset + (8 - ((self.read_offset - 1) % 8 + 1));
        }
    }

    /// Reads `number_of_bytes_to_read` bytes from the next byte boundary on.
    /// Fails where none are asked for, and, having moved to the boundary,
    /// where fewer are left.
    pub fn read_aligned_bytes(&mut self, number_of_bytes_to_read: usize) -> (r: Result<
        &'a [u8],
        Error,
    >)
        requires
            old(self).wf(),
        ensures
            final(self).bytes() == old(self).bytes(),
            final(self).bits_used() == old(self).bits_used(),
            final(self).wf(),
            ({
                let aligned = 8 * bytes_for(old(self).offset() as int);
                &&& r is Err <==> number_of_bytes_to_read == 0 || aligned + 8
                    * number_of_bytes_to_read > old(self).bits_used()
                &&& r is Err ==> r == Err::<&'a [u8], Error>(Error::BitStreamEos)
                &&& number_of_bytes_to_read == 0 ==> final(self).offset() == old(self).offset()
                &&& number_of_bytes_to_read > 0 && r is Err ==> final(self).offset() == aligned
                &&& r matches Ok(s) ==> s@ == old(self).bytes().subrange(
                    aligned / 8,
                    aligned / 8 + number_of_bytes_to_read,
                ) && final(self).offset() == aligned + 8 * number_of_bytes_to_read
            }),
    {
        if number_of_bytes_to_read == 0 {
            return Err(Error::BitStreamEos);
        }
        self._align_read_to_byte_boundary();
        if self.read_offset > self.number_of_bits_used || number_of_bytes_to_read > (
        self.number_of_bits_used - self.read_offset) / 8 {
            return Err(Error::BitStreamEos);
        }
        let start = self.read_offset / 8;
        let slice = vstd::slice::slice_subrange(self.data, start, start + number_of_bytes_to_read);
        self.read_offset = self.read_offset + number_of_bytes_to_read * 8;
        Ok(slice)
    }

    /// Reads the bytes of a value of `size` bits written compressed into
    /// `output`: see `compressed_read`.
    #[verifier::rlimit(40)]
    fn _read_compressed(&mut self, output: &mut Vec<u8>, size: usize) -> (r: Result<(), Error>)
        requires
            old(self).wf(),
            1 <= old(output)@.len() <= 8,
            size == 8 * old(output)@.len(),
        ensures
            final(self).bytes() == old(self).bytes(),
            final(self).bits_used() == old(self).bits_used(),
            final(self).wf(),
            final(output)@.len() == old(output)@.len(),
            ({
                let (res, used) = compressed_read(
                    old(self)@,
                    old(output)@.len() - 1,
                    old(output)@.len(),
                );
                &&& r is Err <==> res is None
                &&& r is Err ==> r == Err::<(), Error>(Error::BitStreamEos)
                &&& r is Ok ==> res == Some(final(output)@)
                &&& final(self).offset() == old(self).offset() + used
                &&& final(self)@ == old(self)@.skip(used as int)
            }),
    {
        let ghost len = output@.len();
        let ghost bits0 = old(self)@;
        let mut current_byte: usize = size / 8 - 1;
        while current_byte > 0
            invariant
                self.wf(),
                self.bytes() == old(self).bytes(),
                self.bits_used() == old(self).bits_used(),
                output@.len() == len,
                len == old(output)@.len(),
                bits0 == old(self)@,
                1 <= len <= 8,
                current_byte < len,
                self.offset() >= old(self).offset(),
                self@ == bits0.skip(self.offset() - old(self).offset()),
                ({
                    let (res, used) = compressed_read(self@, current_byte as int, len);
                    compressed_read(bits0, len - 1, len) == (res, (used + self.offset() - old(
                        self,
                    ).offset()) as nat)
                }),
            decreases current_byte,
        {
            let ghost before = self@;
            let ghost off_before = self.offset();
            let bit = self.read_bool();
            match bit {
                Err(e) => {
                    proof {
                        assert(before.len() == 0);
                    }
                    return Err(e);
                },
                Ok(true) => {
                    output.set(current_byte, 0);
                    proof {
                        assert(before.len() > 0 && before[0]);
                        assert(self@ == before.drop_first());
                        assert(self.offset() == off_before + 1);
                        assert(self@ =~= bits0.skip(self.offset() - old(self).offset()));
                    }
                    current_byte = current_byte - 1;
                },
                Ok(false) => {
                    let res = self._read_bits(output, (current_byte + 1) * 8);
                    proof {
                        assert(before.len() > 0 && !before[0]);
                        assert(self@ =~= bits0.skip(self.offset() - old(self).offset()));
                        assert(before.drop_first().len() == before.len() - 1);
                    }
                    return res;
                },
            }
        }
        if self.read_offset >= self.number_of_bits_used {
            proof {
                assert(self@.len() == 0);
            }
            return Err(Error::BitStreamEos);
        }
        let ghost before = self@;
        let b = self.read_bool()?;
        proof {
            assert(self@ =~= bits0.skip(self.offset() - old(self).offset()));
        }
        if b {
            let res = self._read_bits(output, 4);
            proof {
                assert(self@ =~= bits0.skip(self.offset() - old(self).offset()));
            }
            res
        } else {
            let res = self._read_bits(output, 8);
            proof {
                assert(self@ =~= bits0.skip(self.offset() - old(self).offset()));
            }
            res
        }
    }
}

/// What a write of `bits` at bit `start` of the buffer `old` leaves at bit `i`:
/// the bits before `start` as they were, then `bits`, then zeros to the end of
/// the last byte written, then the old bytes (zeros past their end).
pub open spec fn written_bit(old: Seq<u8>, start: int, bits: Seq<bool>, i: int) -> bool {
    if i < start {
        bit_or_zero(old, i)
    } else if i < start + bits.len() {
        bits[i - start]
    } else if i < 8 * bytes_for(start + bits.len()) {
        false
    } else {
        bit_or_zero(old, i)
    }
}

/// The buffer length, in bytes, after the writer made room for `needed` bits in a
/// buffer of `len` bytes: where the buffer is too short it grows to hold twice
/// the bits needed, but at most 1048576 bits more than needed.
pub open spec fn grown_len(len: int, needed: int) -> int {
    if needed > 0 && len <= (needed - 1) / 8 {
        if needed > 1048576 {
            bytes_for(needed + 1048576)
        } else {
            bytes_for(2 * needed)
        }
    } else {
        len
    }
}

/// The buffer after a write of `bits` at bit `start` of `old`.
pub open spec fn put_bits(old: Seq<u8>, start: int, bits: Seq<bool>) -> Seq<u8> {
    pack_bits(
        |i: int| written_bit(old, start, bits, i),
        grown_len(old.len() as int, start + bits.len()) as nat,
    )
}

/// A buffer of bytes `raw` of which the first `n` bits are used is well formed:
/// the bits hold in it and the rest of the last byte used is zero.
pub open spec fn stream_wf(raw: Seq<u8>, n: int) -> bool {
    &&& 0 <= n <= 8 * raw.len()
    &&& forall|i: int| n <= i < 8 * bytes_for(n) ==> !#[trigger] bit_at(raw, i)
}

/// A stream of `n` bits can take `k` more bits without its size arithmetic
/// leaving `usize`.
pub open spec fn can_grow(n: int, k: int) -> bool {
    2 * (n + k) + 7 <= usize::MAX
}

/// A growable stream of bits that is written from the front.
#[derive(Debug, Clone)]
pub struct BitStreamWrite {
    number_of_bits_used: usize,
    data: Vec<u8>,
}

impl Default for BitStreamWrite {
    /// An empty stream.
    fn default() -> (r: Self)
        ensures
            r.raw() == Seq::<u8>::empty(),
            r.bit_len() == 0,
            r.wf(),
    {
        Self::new()
    }
}

impl View for BitStreamWrite {
    type V = Seq<bool>;

    /// The bits written so far.
    open spec fn view(&self) -> Seq<bool> {
        bits_of(self.raw(), 0, self.bit_len() as int)
    }
}

impl BitStreamWrite {
    /// The buffer, including the bytes past the bits used.
    pub closed spec fn raw(&self) -> Seq<u8> {
        self.data@
    }

    /// The number of bits used.
    pub closed spec fn bit_len(&self) -> nat {
        self.number_of_bits_used as nat
    }

    pub open spec fn wf(&self) -> bool {
        stream_wf(self.raw(), self.bit_len() as int)
    }

    /// An empty stream.
    pub fn new() -> (r: Self)
        ensures
            r.raw() == Seq::<u8>::empty(),
            r.bit_len() == 0,
            r.wf(),
            r@ == Seq::<bool>::empty(),
    {
        let r = Self { number_of_bits_used: 0, data: Vec::new() };
        assert(r@ =~= Seq::<bool>::empty());
        r
    }

    /// An empty stream; the capacity of its buffer is a hint only.
    pub fn with_capacity(bits: usize) -> (r: Self)
        ensures
            r.raw() == Seq::<u8>::empty(),
            r.bit_len() == 0,
            r.wf(),
            r@ == Seq::<bool>::empty(),
    {
        let r = Self { data: Vec::with_capacity(bits / 8 + if bits % 8 == 0 { 0 } else { 1 }), number_of_bits_used: 0 };
        assert(r@ =~= Seq::<bool>::empty());
        r
    }

    /// The number of bits written.
    pub fn num_bits(&self) -> (r: usize)
        ensures
            r == self.bit_len(),
    {
        self.number_of_bits_used
    }

    /// The bytes that hold the bits written.
    pub fn data(&self) -> (r: &[u8])
        requires
            self.wf(),
        ensures
            r@ == self.raw().subrange(0, bytes_for(self.bit_len() as int)),
    {
        proof {
            lemma_bytes_for_le(self.bit_len() as int, self.raw().len() as int);
        }
        let n = self.number_of_bits_used / 8 + if self.number_of_bits_used % 8 == 0 {
            0
        } else {
            1
        };
        vstd::slice::slice_subrange(self.data.as_slice(), 0, n)
    }

    /// Grows the buffer where it cannot hold `number_of_bits_to_write` more bits.
    fn add_bits_and_reallocate(&mut self, number_of_bits_to_write: usize)
        requires
            old(self).wf(),
            can_grow(old(self).bit_len() as int, number_of_bits_to_write as int),
        ensures
            final(self).bit_len() == old(self).bit_len(),
            final(self).raw().len() == grown_len(
                old(self).raw().len() as int,
                old(self).bit_len() + number_of_bits_to_write,
            ),
            final(self).raw().len() >= old(self).raw().len(),
            final(self).raw().subrange(0, old(self).raw().len() as int) == old(self).raw(),
            forall|b: int|
                old(self).raw().len() <= b < final(self).raw().len() ==> #[trigger] final(self).raw()[b]
                    == 0u8,
    {
        proof {
            lemma_grown_len_no_growth(old(self).raw().len() as int, old(self).bit_len() as int);
        }
        if number_of_bits_to_write == 0 {
            assert(self.raw().subrange(0, self.raw().len() as int) =~= self.raw());
            return ;
        }
        let mut new_number_of_bits_allocated: BitSize = number_of_bits_to_write
            + self.number_of_bits_used;
        if new_number_of_bits_allocated > 0 && self.data.len() <= (new_number_of_bits_allocated
            - 1) / 8 {
            new_number_of_bits_allocated = (number_of_bits_to_write + self.number_of_bits_used)
                * 2;
            if new_number_of_bits_allocated - (number_of_bits_to_write + self.number_of_bits_used)
                > 1048576 {
                new_number_of_bits_allocated = number_of_bits_to_write + self.number_of_bits_used
                    + 1048576;
            }
            let amount_to_allocate: BitSize = (new_number_of_bits_allocated + 7) / 8;
            let ghost old_len = self.data.len();
            self.data.resize(amount_to_allocate, 0);
            assert forall|b: int| old_len <= b < self.raw().len() implies #[trigger] self.raw()[b]
                == 0u8 by {
                assert(cloned::<u8>(0u8, self.data@[b]));
            }
        } else {
            assert(self.raw().subrange(0, self.raw().len() as int) =~= self.raw());
        }
    }

    /// Writes the `number_of_bits_to_write` bits `source_bits(input, n)`: the
    /// whole bytes of `input`, then the low bits of a last partial byte.
    #[verifier::rlimit(40)]
    fn _write_bits(&mut self, input: &[u8], number_of_bits_to_write: usize)
        requires
            old(self).wf(),
            input@.len() >= bytes_for(number_of_bits_to_write as int),
            can_grow(old(self).bit_len() as int, number_of_bits_to_write as int),
        ensures
            final(self).raw() == put_bits(
                old(self).raw(),
                old(self).bit_len() as int,
                source_bits(input@, number_of_bits_to_write as int),
            ),
            final(self).bit_len() == old(self).bit_len() + number_of_bits_to_write,
            final(self).wf(),
            final(self)@ == old(self)@ + source_bits(input@, number_of_bits_to_write as int),
    {
        let ghost raw0 = old(self).raw();
        let ghost start = old(self).bit_len() as int;
        let ghost src = source_bits(input@, number_of_bits_to_write as int);
        if number_of_bits_to_write == 0 {
            proof {
                lemma_put_nothing(raw0, start);
                assert(src =~= Seq::<bool>::empty());
            }
            assert(old(self)@ + src =~= old(self)@);
            return ;
        }
        self.add_bits_and_reallocate(number_of_bits_to_write);
        let ghost len = self.raw().len() as int;
        proof {
            lemma_grown_len_holds(raw0.len() as int, start + number_of_bits_to_write);
            lemma_write_start(raw0, start, self.raw());
            assert(src.take(0) =~= Seq::<bool>::empty());
        }
        let mut number_of_bits_to_write = number_of_bits_to_write;
        let mut offset: BitSize = 0;
        let number_of_bits_used_mod_8: BitSize = self.number_of_bits_used % 8;
        while number_of_bits_to_write > 0
            invariant
                self.raw().len() == len,
                len == grown_len(raw0.len() as int, start + src.len()),
                stream_wf(raw0, start),
                0 <= start,
                src.len() > 0,
                8 * len >= start + src.len(),
                src == source_bits(input@, src.len() as int),
                input@.len() >= bytes_for(src.len() as int),
                can_grow(start, src.len() as int),
                number_of_bits_used_mod_8 == start % 8,
                self.bit_len() + number_of_bits_to_write == start + src.len(),
                self.bit_len() >= start,
                number_of_bits_to_write > 0 ==> self.bit_len() == start + 8 * offset,
                forall|i: int|
                    0 <= i < 8 * len ==> #[trigger] bit_at(self.raw(), i) == written_bit(
                        raw0,
                        start,
                        src.take(self.bit_len() - start),
                        i,
                    ),
            decreases number_of_bits_to_write,
        {
            let ghost w = 8 * offset as int;
            let ghost cnt = if number_of_bits_to_write >= 8 {
                8int
            } else {
                number_of_bits_to_write as int
            };
            let ghost k = (start + w) / 8;
            let ghost old_raw = self.raw();
            let mut data_byte: u8 = input[offset];
            if number_of_bits_to_write < 8 {
                data_byte = data_byte << ((8 - number_of_bits_to_write) as u8);
            }
            proof {
                lemma_source_byte(input@, src.len() as int, offset as int, data_byte, cnt);
            }
            let index = self.number_of_bits_used / 8;
            if number_of_bits_used_mod_8 == 0 {
                self.data.set(index, data_byte);
            } else {
                let first = self.data[index] | (data_byte >> (number_of_bits_used_mod_8 as u8));
                self.data.set(index, first);
                if 8 - number_of_bits_used_mod_8 < 8 && 8 - number_of_bits_used_mod_8
                    < number_of_bits_to_write {
                    self.data.set(
                        index + 1,
                        data_byte << ((8 - number_of_bits_used_mod_8) as u8),
                    );
                }
            }
            proof {
                lemma_write_byte_step(
                    raw0,
                    start,
                    src,
                    w,
                    cnt,
                    old_raw,
                    self.raw(),
                    data_byte,
                );
            }
            if number_of_bits_to_write >= 8 {
                self.number_of_bits_used = self.number_of_bits_used + 8;
                number_of_bits_to_write = number_of_bits_to_write - 8;
            } else {
                self.number_of_bits_used = self.number_of_bits_used + number_of_bits_to_write;
                number_of_bits_to_write = 0;
            }
            offset = offset + 1;
        }
        proof {
            assert(src.take(src.len() as int) =~= src);
            lemma_write_finish(raw0, start, src, self.raw());
        }
    }

    /// Writes a 0 bit.
    pub fn write_0(&mut self)
        requires
            old(self).wf(),
            can_grow(old(self).bit_len() as int, 1),
        ensures
            final(self).raw() == put_bits(old(self).raw(), old(self).bit_len() as int, seq![false]),
            final(self).bit_len() == old(self).bit_len() + 1,
            final(self).wf(),
            final(self)@ == old(self)@.push(false),
    {
        let ghost raw0 = old(self).raw();
        let ghost start = old(self).bit_len() as int;
        let ghost src = seq![false];
        self.add_bits_and_reallocate(1);
        proof {
            lemma_grown_len_holds(raw0.len() as int, start + 1);
            lemma_write_start(raw0, start, self.raw());
            assert(src.take(0) =~= Seq::<bool>::empty());
            lemma_bit_zero();
        }
        let ghost before = self.raw();
        // A new byte is zeroed; in a partial byte the bit is already 0.
        if self.number_of_bits_used % 8 == 0 {
            let index = self.number_of_bits_used / 8;
            self.data.set(index, 0);
        } else {
            proof {
                lemma_or_zero_shr(before[start / 8], (start % 8) as u8);
            }
        }
        proof {
            lemma_write_byte_step(raw0, start, src, 0, 1, before, self.raw(), 0u8);
            assert(src.take(1) =~= src);
        }
        self.number_of_bits_used = self.number_of_bits_used + 1;
        proof {
            lemma_write_finish(raw0, start, src, self.raw());
            assert(old(self)@ + src =~= old(self)@.push(false));
        }
    }

    /// Writes a 1 bit.
    pub fn write_1(&mut self)
        requires
            old(self).wf(),
            can_grow(old(self).bit_len() as int, 1),
        ensures
            final(self).raw() == put_bits(old(self).raw(), old(self).bit_len() as int, seq![true]),
            final(self).bit_len() == old(self).bit_len() + 1,
            final(self).wf(),
            final(self)@ == old(self)@.push(true),
    {
        let ghost raw0 = old(self).raw();
        let ghost start = old(self).bit_len() as int;
        let ghost src = seq![true];
        self.add_bits_and_reallocate(1);
        proof {
            lemma_grown_len_holds(raw0.len() as int, start + 1);
            lemma_write_start(raw0, start, self.raw());
            assert(src.take(0) =~= Seq::<bool>::empty());
            lemma_top_bit();
        }
        let ghost before = self.raw();
        let number_of_bits_mod_8: BitSize = self.number_of_bits_used % 8;
        let index = self.number_of_bits_used / 8;
        if number_of_bits_mod_8 == 0 {
            self.data.set(index, 0x80);
        } else {
            let b = self.data[index] | (0x80u8 >> (number_of_bits_mod_8 as u8));
            self.data.set(index, b);
        }
        proof {
            lemma_write_byte_step(raw0, start, src, 0, 1, before, self.raw(), 0x80u8);
            assert(src.take(1) =~= src);
        }
        self.number_of_bits_used = self.number_of_bits_used + 1;
        proof {
            lemma_write_finish(raw0, start, src, self.raw());
            assert(old(self)@ + src =~= old(self)@.push(true));
        }
    }

    /// Writes the bit `value`.
    pub fn write_bool(&mut self, value: bool)
        requires
            old(self).wf(),
            can_grow(old(self).bit_len() as int, 1),
        ensures
            final(self).raw() == put_bits(old(self).raw(), old(self).bit_len() as int, seq![value]),
            final(self).bit_len() == old(self).bit_len() + 1,
            final(self).wf(),
            final(self)@ == old(self)@.push(value),
    {
        match value {
            true => self.write_1(),
            false => self.write_0(),
        }
    }

    /// Writes the bytes of `data`, least significant first.
    #[verifier::rlimit(40)]
    pub fn write<T: WriteSafe>(&mut self, data: T)
        requires
            old(self).wf(),
            can_grow(old(self).bit_len() as int, (8 * T::write_size()) as int),
        ensures
            final(self).raw() == put_bits(
                old(self).raw(),
                old(self).bit_len() as int,
                bits_of(data.to_bytes(), 0, (8 * T::write_size()) as int),
            ),
            final(self).bit_len() == old(self).bit_len() + 8 * T::write_size(),
            final(self).wf(),
            final(self)@ == old(self)@ + bits_of(data.to_bytes(), 0, (8 * T::write_size()) as int),
    {
        let input = data.stream_bytes();
        let n = input.len() * 8;
        proof {
            lemma_source_whole_bytes(input@, input@.len() as int);
        }
        self._write_bits(input.as_slice(), n);
    }

    /// Writes the low `T::num_bits()` bits of `value`.
    pub fn write_bits<T: Bits>(&mut self, value: T)
        requires
            old(self).wf(),
            can_grow(old(self).bit_len() as int, T::num_bits() as int),
        ensures
            final(self).raw() == put_bits(
                old(self).raw(),
                old(self).bit_len() as int,
                source_bits(seq![value.bits_byte()], T::num_bits() as int),
            ),
            final(self).bit_len() == old(self).bit_len() + T::num_bits(),
            final(self).wf(),
            final(self)@ == old(self)@ + source_bits(
                seq![value.bits_byte()],
                T::num_bits() as int,
            ),
    {
        let input = vec![value.to_bits()];
        assert(input@ =~= seq![value.bits_byte()]);
        self._write_bits(input.as_slice(), T::num());
    }

    /// Writes `data` compressed: see `compressed_groups`.
    pub fn write_compressed<T: WriteSafe>(&mut self, data: T)
        requires
            old(self).wf(),
            can_grow(old(self).bit_len() as int, (9 * T::write_size()) as int),
        ensures
            final(self).raw() == put_groups(
                old(self).raw(),
                old(self).bit_len() as int,
                compressed_groups(data.to_bytes(), T::write_size() - 1),
            ),
            final(self).bit_len() == old(self).bit_len() + compressed_groups(
                data.to_bytes(),
                T::write_size() - 1,
            ).flatten().len(),
            final(self).wf(),
            final(self)@ == old(self)@ + compressed_groups(
                data.to_bytes(),
                T::write_size() - 1,
            ).flatten(),
    {
        let input = data.stream_bytes();
        self._write_compressed(input.as_slice());
    }

    /// Writes the first `number_of_bytes` bytes of `input`. Where the bits used
    /// end on a byte boundary, the whole of `input` is appended to the buffer,
    /// past any bytes it holds beyond the bits used.
    #[verifier::rlimit(40)]
    #[verifier::spinoff_prover]
    pub fn write_bytes(&mut self, input: &[u8], number_of_bytes: usize)
        requires
            old(self).wf(),
            number_of_bytes <= input@.len(),
            can_grow(old(self).bit_len() as int, 8 * number_of_bytes),
        ensures
            number_of_bytes == 0 ==> *final(self) == *old(self),
            number_of_bytes > 0 && old(self).bit_len() % 8 == 0 ==> final(self).raw() == old(
                self,
            ).raw().subrange(0, (old(self).bit_len() / 8) as int) + input@,
            number_of_bytes > 0 && old(self).bit_len() % 8 != 0 ==> final(self).raw()
                == put_bits(
                old(self).raw(),
                old(self).bit_len() as int,
                bits_of(input@, 0, 8 * number_of_bytes),
            ),
            final(self).bit_len() == old(self).bit_len() + 8 * number_of_bytes,
            final(self).wf(),
            final(self)@ == old(self)@ + bits_of(input@, 0, 8 * number_of_bytes),
    {
        if number_of_bytes == 0 {
            proof {
                assert(old(self)@ + bits_of(input@, 0, 0) =~= old(self)@);
            }
            return ;
        }
        if self.number_of_bits_used % 8 == 0 {
            let keep = self.number_of_bits_used / 8;
            proof {
                lemma_bytes_for_le(old(self).bit_len() as int, old(self).raw().len() as int);
            }
            self.data.truncate(keep);
            self.data.extend_from_slice(input);
            self.number_of_bits_used = self.number_of_bits_used + number_of_bytes * 8;
            proof {
                let n = old(self).bit_len() as int;
                let pre = old(self).raw().subrange(0, n / 8);
                assert(self.raw() =~= pre + input@);
                assert forall|i: int| 0 <= i < n implies #[trigger] bit_at(self.raw(), i) == bit_at(
                    old(self).raw(),
                    i,
                ) by {
                    assert(i / 8 < n / 8);
                }
                assert forall|i: int|
                    n <= i < n + 8 * number_of_bytes implies #[trigger] bit_at(self.raw(), i)
                    == bit_at(input@, i - n) by {
                    assert(i / 8 >= n / 8);
                    assert((i - n) / 8 == i / 8 - n / 8);
                    assert((i - n) % 8 == i % 8);
                }
                assert(self@ =~= old(self)@ + bits_of(input@, 0, 8 * number_of_bytes));
            }
        } else {
            proof {
                lemma_source_whole_bytes(input@, number_of_bytes as int);
            }
            self._write_bits(input, number_of_bytes * 8);
        }
    }

    /// Moves the end of the bits used to the next byte boundary.
    fn align_write_to_byte_boundary(&mut self)
        requires
            old(self).wf(),
            8 * bytes_for(old(self).bit_len() as int) <= usize::MAX,
        ensures
            final(self).raw() == old(self).raw(),
            final(self).bit_len() == 8 * bytes_for(old(self).bit_len() as int),
            final(self).wf(),
            final(self)@ == old(self)@ + Seq::new(
                (8 * bytes_for(old(self).bit_len() as int) - old(self).bit_len()) as nat,
                |i: int| false,
            ),
    {
        proof {
            lemma_bytes_for_le(self.bit_len() as int, self.raw().len() as int);
        }
        if self.number_of_bits_used > 0 {
            self.number_of_bits_used = self.number_of_bits_used + (8 - ((
            self.number_of_bits_used - 1) % 8 + 1));
        }
        proof {
            let n = old(self).bit_len() as int;
            assert(self@ =~= old(self)@ + Seq::new(
                (8 * bytes_for(n) - n) as nat,
                |i: int| false,
            )) by {
                assert forall|i: int| n <= i < 8 * bytes_for(n) implies !#[trigger] bit_at(
                    self.raw(),
                    i,
                ) by {}
            }
        }
    }

    /// Writes `bytes` from the next byte boundary on: the buffer keeps the bytes
    /// that hold the bits used, and `bytes` follow them.
    #[verifier::rlimit(40)]
    #[verifier::spinoff_prover]
    pub fn write_aligned_bytes(&mut self, bytes: &[u8])
        requires
            old(self).wf(),
            8 * bytes_for(old(self).bit_len() as int) + 8 * bytes@.len() <= usize::MAX,
        ensures
            final(self).raw() == old(self).raw().subrange(0, bytes_for(old(self).bit_len() as int))
                + bytes@,
            final(self).bit_len() == 8 * bytes_for(old(self).bit_len() as int) + 8 * bytes@.len(),
            final(self).wf(),
            final(self)@ == old(self)@ + Seq::new(
                (8 * bytes_for(old(self).bit_len() as int) - old(self).bit_len()) as nat,
                |i: int| false,
            ) + bits_of(bytes@, 0, (8 * bytes@.len()) as int),
    {
        self.align_write_to_byte_boundary();
        let ghost mid = self@;
        let keep = self.number_of_bits_used / 8;
        proof {
            lemma_bytes_for_le(old(self).bit_len() as int, old(self).raw().len() as int);
        }
        self.data.truncate(keep);
        self.data.extend_from_slice(bytes);
        self.number_of_bits_used = self.number_of_bits_used + bytes.len() * 8;
        proof {
            let n = (8 * bytes_for(old(self).bit_len() as int)) as int;
            let pre = old(self).raw().subrange(0, n / 8);
            assert(self.raw() =~= pre + bytes@);
            assert forall|i: int| 0 <= i < n implies #[trigger] bit_at(self.raw(), i) == bit_at(
                old(self).raw(),
                i,
            ) by {
                assert(i / 8 < n / 8);
            }
            assert forall|i: int|
                n <= i < n + 8 * bytes@.len() implies #[trigger] bit_at(self.raw(), i) == bit_at(
                bytes@,
                i - n,
            ) by {
                assert(i / 8 >= n / 8);
                assert((i - n) / 8 == i / 8 - n / 8);
                assert((i - n) % 8 == i % 8);
            }
            assert(mid =~= bits_of(old(self).raw(), 0, n));
            assert(self@ =~= mid + bits_of(bytes@, 0, (8 * bytes@.len()) as int));
        }
    }

    /// Writes `input`, a value's bytes least significant first, compressed.
    #[verifier::rlimit(40)]
    fn _write_compressed(&mut self, input: &[u8])
        requires
            old(self).wf(),
            1 <= input@.len() <= 8,
            can_grow(old(self).bit_len() as int, (9 * input@.len()) as int),
        ensures
            final(self).raw() == put_groups(
                old(self).raw(),
                old(self).bit_len() as int,
                compressed_groups(input@, input@.len() - 1),
            ),
            final(self).bit_len() == old(self).bit_len() + compressed_groups(
                input@,
                input@.len() - 1,
            ).flatten().len(),
            final(self).wf(),
            final(self)@ == old(self)@ + compressed_groups(input@, input@.len() - 1).flatten(),
    {
        let ghost raw0 = old(self).raw();
        let ghost start = old(self).bit_len() as int;
        let ghost all = compressed_groups(input@, input@.len() - 1);
        proof {
            lemma_compressed_len(input@, input@.len() - 1);
            lemma_put_groups(raw0, start, all);
        }
        let mut current_byte: BitSize = input.len() - 1;
        while current_byte > 0
            invariant
                1 <= input@.len() <= 8,
                current_byte < input@.len(),
                self.wf(),
                self.bit_len() + compressed_groups(input@, current_byte as int).flatten().len()
                    == start + all.flatten().len(),
                compressed_groups(input@, current_byte as int).flatten().len() <= 9 * (
                current_byte + 1),
                can_grow(start, (9 * input@.len()) as int),
                all == compressed_groups(input@, input@.len() - 1),
                raw0 == old(self).raw(),
                start == old(self).bit_len(),
                all.flatten().len() <= 9 * input@.len(),
                self.bit_len() >= start,
                put_groups(self.raw(), self.bit_len() as int, compressed_groups(input@, current_byte as int))
                    == put_groups(raw0, start, all),
                self@ + compressed_groups(input@, current_byte as int).flatten() == old(self)@ + all.flatten(),
            decreases current_byte,
        {
            let ghost rest = compressed_groups(input@, current_byte as int);
            proof {
                lemma_compressed_len(input@, current_byte as int);
            }
            let ghost old_raw = self.raw();
            let ghost old_len = self.bit_len() as int;
            if input[current_byte] == 0 {
                self.write_1();
                proof {
                    lemma_compressed_len(input@, current_byte - 1);
                    let tail = compressed_groups(input@, current_byte - 1);
                    assert(rest == seq![seq![true]] + tail);
                    assert((seq![seq![true]] + tail).drop_first() =~= tail);
                    lemma_flatten_cons(seq![true], tail);
                    assert(rest[0] == seq![true]);
                }
            } else {
                self.write_0();
                proof {
                    lemma_source_whole_bytes(input@, current_byte + 1);
                    let bits = source_bits(input@, 8 * (current_byte + 1));
                    assert(rest == seq![seq![false], bits]);
                    assert(rest.drop_first() =~= seq![bits]);
                    assert(rest.drop_first().drop_first() =~= Seq::<Seq<bool>>::empty());
                    lemma_flatten_cons(seq![false], seq![bits]);
                    lemma_flatten_cons(bits, Seq::<Seq<bool>>::empty());
                }
                let ghost mid = self.raw();
                self._write_bits(input, (current_byte + 1) * 8);
                proof {
                    lemma_put_groups_two(old_raw, old_len, seq![false], source_bits(input@, 8 * (current_byte + 1)));
                    assert(seq![false] + source_bits(input@, 8 * (current_byte + 1)) =~= rest.flatten());
                    assert(old(self)@ + all.flatten() =~= self@);
                }
                return ;
            }
            current_byte = current_byte - 1;
        }
        let ghost rest = compressed_groups(input@, 0);
        let ghost old_raw = self.raw();
        let ghost old_len = self.bit_len() as int;
        proof {
            lemma_compressed_len(input@, 0);
        }
        let ghost first = if input@[0] & 0xF0u8 == 0 {
            seq![true]
        } else {
            seq![false]
        };
        let ghost bits = if input@[0] & 0xF0u8 == 0 {
            source_bits(input@, 4)
        } else {
            source_bits(input@, 8)
        };
        proof {
            assert(rest == seq![first, bits]);
            assert(rest.drop_first() =~= seq![bits]);
            assert(rest.drop_first().drop_first() =~= Seq::<Seq<bool>>::empty());
            lemma_flatten_cons(first, seq![bits]);
            lemma_flatten_cons(bits, Seq::<Seq<bool>>::empty());
            assert(seq![first] + seq![bits] =~= rest);
            assert(seq![bits] =~= seq![bits] + Seq::<Seq<bool>>::empty());
            assert(first + bits =~= rest.flatten());
            lemma_put_groups_two(old_raw, old_len, first, bits);
        }
        if input[current_byte] & 0xF0 == 0 {
            self.write_1();
            self._write_bits(input, 4);
        } else {
            self.write_0();
            self._write_bits(input, 8);
        }
        proof {
            assert(old(self)@ + all.flatten() =~= self@);
        }
    }
}

/// The groups of bits that a compressed write of the bytes `input` (least
/// significant first) writes, from byte `cb` down: a 1 for each high byte that
/// is zero; at the first one that is not, a 0 and the bytes `0 ..= cb`;
/// where all high bytes are zero, a 1 and the low 4 bits of byte 0 if its high
/// 4 bits are zero, else a 0 and byte 0.
pub open spec fn compressed_groups(input: Seq<u8>, cb: int) -> Seq<Seq<bool>>
    decreases cb,
{
    if cb > 0 {
        if input[cb] == 0 {
            seq![seq![true]] + compressed_groups(input, cb - 1)
        } else {
            seq![seq![false], source_bits(input, 8 * (cb + 1))]
        }
    } else if input[0] & 0xF0u8 == 0 {
        seq![seq![true], source_bits(input, 4)]
    } else {
        seq![seq![false], source_bits(input, 8)]
    }
}

/// The buffer after the groups of bits `groups` are written one after the
/// other at bit `start` of `raw`.
pub open spec fn put_groups(raw: Seq<u8>, start: int, groups: Seq<Seq<bool>>) -> Seq<u8>
    decreases groups.len(),
{
    if groups.len() == 0 {
        raw
    } else {
        put_groups(put_bits(raw, start, groups[0]), start + groups[0].len(), groups.drop_first())
    }
}

/// Writing groups of bits one after the other leaves a well-formed buffer
/// whose bits are the old ones followed by all the groups.
pub proof fn lemma_put_groups(raw: Seq<u8>, start: int, groups: Seq<Seq<bool>>)
    requires
        stream_wf(raw, start),
    ensures
        stream_wf(put_groups(raw, start, groups), start + groups.flatten().len()),
        bits_of(put_groups(raw, start, groups), 0, start + groups.flatten().len()) == bits_of(
            raw,
            0,
            start,
        ) + groups.flatten(),
    decreases groups.len(),
{
    if groups.len() > 0 {
        let next = put_bits(raw, start, groups[0]);
        lemma_put_bits(raw, start, groups[0]);
        lemma_put_groups(next, start + groups[0].len(), groups.drop_first());
        assert(bits_of(raw, 0, start) + groups.flatten() =~= bits_of(raw, 0, start) + groups[0]
            + groups.drop_first().flatten());
    } else {
        assert(bits_of(raw, 0, start) + groups.flatten() =~= bits_of(raw, 0, start));
    }
}

/// Writing the groups `a + b` is writing `a`, then `b`.
pub proof fn lemma_put_groups_append(raw: Seq<u8>, start: int, a: Seq<Seq<bool>>, b: Seq<Seq<bool>>)
    ensures
        put_groups(raw, start, a + b) == put_groups(
            put_groups(raw, start, a),
            start + a.flatten().len(),
            b,
        ),
    decreases a.len(),
{
    if a.len() == 0 {
        assert(a + b =~= b);
    } else {
        assert((a + b).drop_first() =~= a.drop_first() + b);
        assert((a + b)[0] == a[0]);
        lemma_put_groups_append(put_bits(raw, start, a[0]), start + a[0].len(), a.drop_first(), b);
    }
}

/// A write of bits at the end of a well-formed buffer leaves it well formed,
/// with the bits appended.
pub proof fn lemma_put_bits(raw: Seq<u8>, start: int, bits: Seq<bool>)
    requires
        stream_wf(raw, start),
    ensures
        stream_wf(put_bits(raw, start, bits), start + bits.len()),
        bits_of(put_bits(raw, start, bits), 0, start + bits.len()) == bits_of(raw, 0, start)
            + bits,
        put_bits(raw, start, bits).len() == grown_len(raw.len() as int, start + bits.len()),
{
    let len = grown_len(raw.len() as int, start + bits.len());
    lemma_grown_len_holds(raw.len() as int, start + bits.len());
    let data = put_bits(raw, start, bits);
    lemma_pack_bits(|i: int| written_bit(raw, start, bits, i), len as nat);
    lemma_write_finish(raw, start, bits, data);
}

/// Writing two groups of bits is writing one, then the other.
pub proof fn lemma_put_groups_two(raw: Seq<u8>, start: int, a: Seq<bool>, b: Seq<bool>)
    ensures
        put_groups(raw, start, seq![a, b]) == put_bits(put_bits(raw, start, a), start + a.len(), b),
{
    let g = seq![a, b];
    assert(g.drop_first() =~= seq![b]);
    assert(g.drop_first().drop_first() =~= Seq::<Seq<bool>>::empty());
    let r1 = put_bits(raw, start, a);
    assert(put_groups(r1, start + a.len(), seq![b]) == put_groups(
        put_bits(r1, start + a.len(), b),
        start + a.len() + b.len(),
        Seq::<Seq<bool>>::empty(),
    ));
}

/// A sequence of one or two groups flattens to their concatenation.
pub proof fn lemma_flatten_small(a: Seq<bool>, b: Seq<bool>)
    ensures
        seq![a].flatten() == a,
        seq![a, b].flatten() == a + b,
{
    let e = Seq::<Seq<bool>>::empty();
    lemma_flatten_cons(a, e);
    lemma_flatten_cons(b, e);
    lemma_flatten_cons(a, seq![b]);
    assert(seq![a] =~= seq![a] + e);
    assert(seq![b] =~= seq![b] + e);
    assert(seq![a, b] =~= seq![a] + seq![b]);
    assert(a + e.flatten() =~= a);
    assert(b + e.flatten() =~= b);
}

pub proof fn lemma_flatten_cons(first: Seq<bool>, rest: Seq<Seq<bool>>)
    ensures
        (seq![first] + rest).flatten() == first + rest.flatten(),
{
    let s = seq![first] + rest;
    assert(s.len() > 0);
    assert(s.first() == first);
    assert(s.drop_first() =~= rest);
}

/// A compressed write of a value's bytes writes at most 9 bits per byte.
pub proof fn lemma_compressed_len(input: Seq<u8>, cb: int)
    requires
        0 <= cb < input.len(),
    ensures
        1 <= compressed_groups(input, cb).flatten().len() <= 9 * (cb + 1),
        cb > 0 && input[cb] == 0 ==> compressed_groups(input, cb) == seq![seq![true]]
            + compressed_groups(input, cb - 1),
    decreases cb,
{
    let g = compressed_groups(input, cb);
    if cb > 0 {
        if input[cb] == 0 {
            lemma_compressed_len(input, cb - 1);
            lemma_flatten_cons(seq![true], compressed_groups(input, cb - 1));
        } else {
            lemma_flatten_cons(seq![false], seq![source_bits(input, 8 * (cb + 1))]);
            lemma_flatten_cons(source_bits(input, 8 * (cb + 1)), Seq::<Seq<bool>>::empty());
            assert(seq![seq![false]] + seq![source_bits(input, 8 * (cb + 1))] =~= g);
            assert(seq![source_bits(input, 8 * (cb + 1))] =~= seq![source_bits(input, 8 * (cb + 1))] + Seq::<Seq<bool>>::empty());
        }
    } else {
        let b = if input[0] & 0xF0u8 == 0 { seq![true] } else { seq![false] };
        let n = if input[0] & 0xF0u8 == 0 { 4int } else { 8int };
        lemma_flatten_cons(b, seq![source_bits(input, n)]);
        lemma_flatten_cons(source_bits(input, n), Seq::<Seq<bool>>::empty());
        assert(seq![b] + seq![source_bits(input, n)] =~= g);
        assert(seq![source_bits(input, n)] =~= seq![source_bits(input, n)] + Seq::<Seq<bool>>::empty());
    }
}

/// The bits of whole bytes are taken as they stand.
pub proof fn lemma_source_whole_bytes(input: Seq<u8>, k: int)
    requires
        0 <= k <= input.len(),
    ensures
        source_bits(input, 8 * k) == bits_of(input, 0, 8 * k),
{
    assert(source_bits(input, 8 * k) =~= bits_of(input, 0, 8 * k));
}

proof fn lemma_test_bit_bv(b: u8, m: u8)
    by (bit_vector)
    requires
        m < 8,
    ensures
        ((b & (0x80u8 >> m)) != 0u8) == ((b >> ((7 - m) as u8)) & 1u8 == 1u8),
{
}

/// Testing a byte against `0x80 >> m` reads its bit `m`.
proof fn lemma_test_bit(b: u8, m: u8)
    requires
        m < 8,
    ensures
        ((b & (0x80u8 >> m)) != 0u8) == byte_bit(b, m as int),
{
    lemma_test_bit_bv(b, m);
}

/// The byte that one step of a read assembles from bit `ro` on holds the next
/// `cnt` bits: all 8 in order, or the `cnt` of a last partial byte in its low bits.
proof fn lemma_gather_byte(data: Seq<u8>, ro: int, cnt: int, x: u8)
    requires
        0 <= ro,
        0 < cnt <= 8,
        ro + cnt <= 8 * data.len(),
        ({
            let k = ro / 8;
            let m = ro % 8;
            let a = data[k] << (m as u8);
            let b = if m > 0 && cnt > 8 - m {
                a | (data[k + 1] >> ((8 - m) as u8))
            } else {
                a
            };
            x == if cnt < 8 {
                b >> ((8 - cnt) as u8)
            } else {
                b
            }
        }),
    ensures
        forall|t: int|
            0 <= t < 8 ==> #[trigger] byte_bit(x, t) == if cnt == 8 {
                bit_at(data, ro + t)
            } else {
                t >= 8 - cnt && bit_at(data, ro + t - (8 - cnt))
            },
{
    let k = ro / 8;
    let m = ro % 8;
    let a = data[k] << (m as u8);
    lemma_bit_shl(data[k], m as u8);
    let b = if m > 0 && cnt > 8 - m {
        lemma_bit_or(a, data[k + 1] >> ((8 - m) as u8));
        lemma_bit_shr(data[k + 1], (8 - m) as u8);
        a | (data[k + 1] >> ((8 - m) as u8))
    } else {
        a
    };
    assert forall|t: int| 0 <= t < cnt implies #[trigger] byte_bit(b, t) == bit_at(data, ro + t)
        by {
        if t + m < 8 {
            assert((ro + t) / 8 == k && (ro + t) % 8 == t + m);
        } else {
            assert((ro + t) / 8 == k + 1 && (ro + t) % 8 == t + m - 8);
        }
    }
    if cnt < 8 {
        lemma_bit_shr(b, (8 - cnt) as u8);
    }
}

/// The byte a read step assembles is the one `place_bits` puts at that place.
proof fn lemma_placed_byte(
    bits: Seq<bool>,
    data: Seq<u8>,
    ro0: int,
    n0: int,
    b: int,
    cnt: int,
    x: u8,
    len: nat,
)
    requires
        0 <= ro0,
        0 <= b,
        0 < cnt <= 8,
        8 * b + cnt <= n0,
        cnt < 8 ==> 8 * b + cnt == n0,
        b < len,
        bits.len() >= n0,
        forall|k: int| 0 <= k < n0 ==> #[trigger] bits[k] == bit_at(data, ro0 + k),
        forall|t: int|
            0 <= t < 8 ==> #[trigger] byte_bit(x, t) == if cnt == 8 {
                bit_at(data, ro0 + 8 * b + t)
            } else {
                t >= 8 - cnt && bit_at(data, ro0 + 8 * b + t - (8 - cnt))
            },
    ensures
        place_bits(bits, n0, len)[b] == x,
{
    let f = |i: int| placed_bit(bits, n0, i);
    let g = |j: int| f(8 * b + j);
    lemma_pack_byte(g);
    assert forall|t: int| 0 <= t < 8 implies byte_bit(pack_byte(g), t) == byte_bit(x, t) by {
        let i = 8 * b + t;
        assert(i % 8 == t);
        if cnt == 8 {
            assert(i < n0 / 8 * 8);
        } else {
            assert(n0 / 8 == b && n0 % 8 == cnt);
        }
    }
    lemma_byte_ext(pack_byte(g), x);
}

/// Past the bits read, `place_bits` holds zero bytes.
proof fn lemma_place_bits_tail(bits: Seq<bool>, n: int, len: nat)
    requires
        0 <= n,
    ensures
        forall|b: int| bytes_for(n) <= b < len ==> #[trigger] place_bits(bits, n, len)[b] == 0u8,
{
    assert forall|b: int| bytes_for(n) <= b < len implies #[trigger] place_bits(bits, n, len)[b]
        == 0u8 by {
        let g = |j: int| placed_bit(bits, n, 8 * b + j);
        lemma_pack_byte(g);
        lemma_bit_zero();
        assert forall|t: int| 0 <= t < 8 implies byte_bit(pack_byte(g), t) == byte_bit(0u8, t) by {
            assert(8 * b + t >= n / 8 * 8 + 8 || (n % 8 == 0 && 8 * b + t >= n / 8 * 8));
        }
        lemma_byte_ext(pack_byte(g), 0u8);
    }
}

/// A read of fewer than 8 bits leaves them in the low bits of its byte.
proof fn lemma_placed_low_bits(bits: Seq<bool>, n: int)
    requires
        0 < n < 8,
    ensures
        (place_bits(bits, n, 1)[0] as int) < pow2_u8(n as nat),
{
    let x = place_bits(bits, n, 1)[0];
    let g = |j: int| placed_bit(bits, n, j);
    lemma_pack_byte(g);
    assert(x == pack_byte(g));
    assert forall|t: int| 0 <= t < 8 - n implies !byte_bit(x, t) by {
        assert(placed_bit(bits, n, t) == false);
    }
    lemma_low_bits_bound(x, n);
}

proof fn lemma_low_bits_bound(x: u8, n: int)
    requires
        0 < n < 8,
        forall|t: int| 0 <= t < 8 - n ==> !byte_bit(x, t),
    ensures
        (x as int) < pow2_u8(n as nat),
{
    reveal_with_fuel(pow2_u8, 8);
    assert(!byte_bit(x, 0));
    if n < 7 {
        assert(!byte_bit(x, 1));
    }
    if n < 6 {
        assert(!byte_bit(x, 2));
    }
    if n < 5 {
        assert(!byte_bit(x, 3));
    }
    if n < 4 {
        assert(!byte_bit(x, 4));
    }
    if n < 3 {
        assert(!byte_bit(x, 5));
    }
    if n < 2 {
        assert(!byte_bit(x, 6));
    }
    lemma_low_bits_bound_bv(x, n as u8);
}

proof fn lemma_low_bits_bound_bv(x: u8, n: u8)
    by (bit_vector)
    requires
        0 < n < 8,
        (x >> 7u8) & 1u8 != 1u8,
        n < 7 ==> (x >> 6u8) & 1u8 != 1u8,
        n < 6 ==> (x >> 5u8) & 1u8 != 1u8,
        n < 5 ==> (x >> 4u8) & 1u8 != 1u8,
        n < 4 ==> (x >> 3u8) & 1u8 != 1u8,
        n < 3 ==> (x >> 2u8) & 1u8 != 1u8,
        n < 2 ==> (x >> 1u8) & 1u8 != 1u8,
    ensures
        n == 1 ==> x < 2,
        n == 2 ==> x < 4,
        n == 3 ==> x < 8,
        n == 4 ==> x < 16,
        n == 5 ==> x < 32,
        n == 6 ==> x < 64,
        n == 7 ==> x < 128,
{
}

proof fn lemma_or_zero_shr_bv(b: u8, m: u8)
    by (bit_vector)
    requires
        m < 8,
    ensures
        b | (0u8 >> m) == b,
{
}

/// Or-ing in the shifted zero byte changes nothing.
proof fn lemma_or_zero_shr(b: u8, m: u8)
    requires
        m < 8,
    ensures
        b | (0u8 >> m) == b,
{
    lemma_or_zero_shr_bv(b, m);
}

/// The byte 0x80 has exactly its top bit set.
proof fn lemma_top_bit()
    ensures
        forall|t: int| 0 <= t < 8 ==> #[trigger] byte_bit(0x80u8, t) == (t == 0),
{
    assert forall|t: int| 0 <= t < 8 implies #[trigger] byte_bit(0x80u8, t) == (t == 0) by {
        lemma_bit_shr(0x80u8, 0);
        lemma_top_bit_bv((7 - t) as u8);
    }
}

proof fn lemma_top_bit_bv(s: u8)
    by (bit_vector)
    requires
        s < 8,
    ensures
        ((0x80u8 >> s) & 1u8 == 1u8) == (s == 7),
{
}

/// Before a write: the buffer grown from a well-formed `raw0` holds, bit for bit,
/// what a write of no bits leaves.
proof fn lemma_write_start(raw0: Seq<u8>, start: int, data: Seq<u8>)
    requires
        stream_wf(raw0, start),
        data.len() >= raw0.len(),
        data.subrange(0, raw0.len() as int) == raw0,
        forall|b: int| raw0.len() <= b < data.len() ==> #[trigger] data[b] == 0u8,
    ensures
        forall|i: int|
            0 <= i < 8 * data.len() ==> #[trigger] bit_at(data, i) == written_bit(
                raw0,
                start,
                Seq::<bool>::empty(),
                i,
            ),
{
    lemma_bytes_for_le(start, raw0.len() as int);
    lemma_bit_zero();
    assert forall|i: int| 0 <= i < 8 * data.len() implies #[trigger] bit_at(data, i)
        == written_bit(raw0, start, Seq::<bool>::empty(), i) by {
        if i < 8 * raw0.len() {
            assert(data[i / 8] == data.subrange(0, raw0.len() as int)[i / 8]);
            assert(bit_at(data, i) == bit_at(raw0, i));
            if start <= i < 8 * bytes_for(start) {
                assert(!bit_at(raw0, i));
            }
        } else {
            assert(data[i / 8] == 0u8);
            assert(i >= 8 * bytes_for(start));
        }
    }
}

/// After a write: a buffer of the grown length that holds, bit for bit, what
/// the write of `bits` leaves is `put_bits`, well formed, and its bits are the
/// old ones followed by `bits`.
proof fn lemma_write_finish(raw0: Seq<u8>, start: int, bits: Seq<bool>, data: Seq<u8>)
    requires
        stream_wf(raw0, start),
        data.len() == grown_len(raw0.len() as int, start + bits.len()),
        forall|i: int|
            0 <= i < 8 * data.len() ==> #[trigger] bit_at(data, i) == written_bit(
                raw0,
                start,
                bits,
                i,
            ),
    ensures
        data == put_bits(raw0, start, bits),
        stream_wf(data, start + bits.len()),
        bits_of(data, 0, start + bits.len()) == bits_of(raw0, 0, start) + bits,
{
    lemma_grown_len_holds(raw0.len() as int, start + bits.len());
    lemma_bytes_for_le(start, raw0.len() as int);
    lemma_pack_bits_ext(|i: int| written_bit(raw0, start, bits, i), data);
    if bits.len() == 0 {
        lemma_grown_len_no_growth(raw0.len() as int, start);
    }
    assert(bits_of(data, 0, start + bits.len()) =~= bits_of(raw0, 0, start) + bits);
}

/// Writing no bits leaves a well-formed buffer as it is.
proof fn lemma_put_nothing(raw: Seq<u8>, start: int)
    requires
        stream_wf(raw, start),
    ensures
        put_bits(raw, start, Seq::<bool>::empty()) == raw,
{
    lemma_grown_len_no_growth(raw.len() as int, start);
    lemma_bytes_for_le(start, raw.len() as int);
    lemma_pack_bits_ext(|i: int| written_bit(raw, start, Seq::<bool>::empty(), i), raw);
}

/// The byte that a write of the bits `src` takes at byte `offset` of `input`
/// holds, from its top, the `cnt` bits `src[8 * offset ..]` and then zeros.
proof fn lemma_source_byte(input: Seq<u8>, n: int, offset: int, d: u8, cnt: int)
    requires
        0 <= offset,
        0 < cnt <= 8,
        8 * offset + cnt <= n,
        cnt < 8 ==> 8 * offset + cnt == n,
        input.len() >= bytes_for(n),
        cnt == 8 ==> d == input[offset],
        cnt < 8 ==> d == input[offset] << ((8 - cnt) as u8),
    ensures
        forall|t: int|
            0 <= t < 8 ==> #[trigger] byte_bit(d, t) == (t < cnt && source_bits(input, n)[8
                * offset + t]),
{
    let src = source_bits(input, n);
    assert forall|t: int| 0 <= t < 8 implies #[trigger] byte_bit(d, t) == (t < cnt && src[8
        * offset + t]) by {
        let i = 8 * offset + t;
        assert(i / 8 == offset && i % 8 == t);
        if cnt == 8 {
            assert(i < n / 8 * 8);
        } else {
            lemma_bit_shl(input[offset], (8 - cnt) as u8);
            assert(n / 8 == offset && n % 8 == cnt);
            if t < cnt {
                assert(i >= n / 8 * 8);
            }
        }
    }
}

/// One step of a write: the byte holding bit `start + w` takes the `cnt` bits
/// `src[w ..]` (and, where they do not fit, the next byte the rest).
proof fn lemma_write_byte_step(
    raw0: Seq<u8>,
    start: int,
    src: Seq<bool>,
    w: int,
    cnt: int,
    old: Seq<u8>,
    new: Seq<u8>,
    d: u8,
)
    requires
        0 <= start,
        0 <= w,
        w % 8 == 0,
        0 < cnt <= 8,
        w + cnt <= src.len(),
        cnt < 8 ==> w + cnt == src.len(),
        8 * old.len() >= start + src.len(),
        new.len() == old.len(),
        forall|t: int| 0 <= t < 8 ==> #[trigger] byte_bit(d, t) == (t < cnt && src[w + t]),
        forall|i: int|
            0 <= i < 8 * old.len() ==> #[trigger] bit_at(old, i) == written_bit(
                raw0,
                start,
                src.take(w),
                i,
            ),
        ({
            let k = (start + w) / 8;
            let m = start % 8;
            &&& forall|b: int| 0 <= b < new.len() && b != k && b != k + 1 ==> new[b] == old[b]
            &&& m == 0 ==> new[k] == d && (k + 1 < new.len() ==> new[k + 1] == old[k + 1])
            &&& m != 0 ==> new[k] == old[k] | (d >> (m as u8))
            &&& m != 0 && 8 - m < cnt ==> new[k + 1] == d << ((8 - m) as u8)
            &&& m != 0 && !(8 - m < cnt) && k + 1 < new.len() ==> new[k + 1] == old[k + 1]
        }),
    ensures
        forall|i: int|
            0 <= i < 8 * new.len() ==> #[trigger] bit_at(new, i) == written_bit(
                raw0,
                start,
                src.take(w + cnt),
                i,
            ),
{
    let k = (start + w) / 8;
    let m = start % 8;
    let s1 = src.take(w);
    let s2 = src.take(w + cnt);
    assert((start + w) % 8 == m);
    assert forall|i: int| 0 <= i < 8 * new.len() implies #[trigger] bit_at(new, i)
        == written_bit(raw0, start, s2, i) by {
        let b = i / 8;
        let t = i % 8;
        assert(i == 8 * b + t);
        if b != k && b != k + 1 {
            assert(new[b] == old[b]);
            assert(bit_at(new, i) == bit_at(old, i));
            if b < k {
                assert(i < start + w);
            } else {
                assert(i >= 8 * bytes_for(start + w + cnt));
                assert(i >= 8 * bytes_for(start + w));
            }
        } else if b == k {
            if m == 0 {
                assert(byte_bit(new[k], t) == byte_bit(d, t));
            } else {
                lemma_bit_or(old[k], d >> (m as u8));
                lemma_bit_shr(d, m as u8);
                assert(bit_at(old, 8 * k + t) == byte_bit(old[k], t));
                if t < m {
                    assert(8 * k + t < start + w);
                } else {
                    assert(8 * k + t >= start + w);
                    assert(8 * k + t < 8 * bytes_for(start + w));
                }
            }
        } else {
            if m != 0 && 8 - m < cnt {
                lemma_bit_shl(d, (8 - m) as u8);
            } else {
                assert(new[b] == old[b]);
                assert(bit_at(new, i) == bit_at(old, i));
                assert(i >= 8 * bytes_for(start + w + cnt));
                assert(i >= 8 * bytes_for(start + w));
            }
        }
    }
}

/// A buffer holds the bytes for the bits it uses.
pub proof fn lemma_bytes_for_le(n: int, len: int)
    requires
        0 <= n <= 8 * len,
    ensures
        bytes_for(n) <= len,
        n / 8 + (if n % 8 == 0 {
            0int
        } else {
            1int
        }) == bytes_for(n),
{
}

/// Making room for no more bits leaves a well-formed buffer as it is.
proof fn lemma_grown_len_no_growth(len: int, n: int)
    requires
        0 <= n <= 8 * len,
    ensures
        grown_len(len, n) == len,
{
}

/// A grown buffer holds the bits needed.
proof fn lemma_grown_len_holds(len: int, needed: int)
    requires
        0 <= len,
        0 <= needed,
    ensures
        grown_len(len, needed) >= len,
        8 * grown_len(len, needed) >= needed,
        needed > 0 ==> grown_len(len, needed) >= bytes_for(needed),
{
}

/// A reader over the bytes that a writer hands out, limited to the bits it
/// wrote, reads the bits written.
pub proof fn lemma_read_what_was_written(raw: Seq<u8>, n: int)
    requires
        stream_wf(raw, n),
    ensures
        bytes_for(n) <= raw.len(),
        bits_of(raw.subrange(0, bytes_for(n)), 0, n) == bits_of(raw, 0, n),
{
    lemma_bytes_for_le(n, raw.len() as int);
    let d = raw.subrange(0, bytes_for(n));
    assert forall|i: int| 0 <= i < n implies #[trigger] bit_at(d, i) == bit_at(raw, i) by {
        assert(i / 8 < bytes_for(n));
    }
    assert(bits_of(d, 0, n) =~= bits_of(raw, 0, n));
}

/// After groups of bits are written to a stream of `n` bits held in `raw`, a
/// reader over the bytes that hold the stream's bits sees, from bit `n` to the
/// end, the bits written.
pub proof fn lemma_written_groups_read_back(raw: Seq<u8>, n: int, groups: Seq<Seq<bool>>)
    requires
        stream_wf(raw, n),
    ensures
        ({
            let m = n + groups.flatten().len();
            let out = put_groups(raw, n, groups);
            bits_of(out.subrange(0, bytes_for(m)), n, m) == groups.flatten()
        }),
{
    let m = n + groups.flatten().len();
    let out = put_groups(raw, n, groups);
    lemma_put_groups(raw, n, groups);
    lemma_read_what_was_written(out, m);
    let d = out.subrange(0, bytes_for(m));
    assert forall|k: int| 0 <= k < m - n implies #[trigger] bits_of(d, n, m)[k]
        == groups.flatten()[k] by {
        assert(bits_of(d, 0, m)[n + k] == bits_of(out, 0, m)[n + k]);
        assert((bits_of(raw, 0, n) + groups.flatten())[n + k] == groups.flatten()[k]);
    }
    assert(bits_of(d, n, m) =~= groups.flatten());
}

/// After bits are written to a stream of `n` bits held in `raw`, a reader over
/// the bytes that hold the stream's bits sees, from bit `n` to the end, the
/// bits written.
pub proof fn lemma_written_bits_read_back(raw: Seq<u8>, n: int, bits: Seq<bool>)
    requires
        stream_wf(raw, n),
    ensures
        ({
            let m = n + bits.len();
            bits_of(put_bits(raw, n, bits).subrange(0, bytes_for(m)), n, m) == bits
        }),
{
    let m = n + bits.len();
    let out = put_bits(raw, n, bits);
    lemma_put_bits(raw, n, bits);
    lemma_read_what_was_written(out, m);
    let d = out.subrange(0, bytes_for(m));
    assert forall|k: int| 0 <= k < m - n implies #[trigger] bits_of(d, n, m)[k] == bits[k] by {
        assert(bits_of(d, 0, m)[n + k] == bits_of(out, 0, m)[n + k]);
        assert((bits_of(raw, 0, n) + bits)[n + k] == bits[k]);
    }
    assert(bits_of(d, n, m) =~= bits);
}

/// What `BitStreamWrite::write` writes, `BitStreamRead::read` reads back: a
/// reader over the stream's bytes, at the bit where the write began, reads the
/// value written and nothing more.
pub proof fn lemma_read_reads_write<T: Wire>(raw: Seq<u8>, n: int, v: T)
    requires
        stream_wf(raw, n),
    ensures
        ({
            let m = n + 8 * T::write_size();
            let out = put_bits(raw, n, bits_of(v.to_bytes(), 0, (8 * T::write_size()) as int));
            let view = bits_of(out.subrange(0, bytes_for(m)), n, m);
            &&& view.len() == 8 * T::read_size()
            &&& T::from_bytes(place_bits(view, (8 * T::read_size()) as int, T::read_size())) == v
        }),
{
    T::lemma_wire_round_trip(v);
    let b = bits_of(v.to_bytes(), 0, (8 * T::write_size()) as int);
    lemma_written_bits_read_back(raw, n, b);
    lemma_read_value_back::<T>(v, Seq::empty());
    assert(b + Seq::<bool>::empty() =~= b);
}

/// What `BitStreamWrite::write_compressed` writes, `read_compressed` reads
/// back: a reader over the stream's bytes, at the bit where the write began,
/// reads the value's bytes and consumes exactly the bits written.
pub proof fn lemma_read_compressed_reads_write_compressed<T: Wire>(raw: Seq<u8>, n: int, v: T)
    requires
        stream_wf(raw, n),
        1 <= T::write_size() <= 8,
    ensures
        ({
            let g = compressed_groups(v.to_bytes(), T::write_size() - 1);
            let m = n + g.flatten().len();
            let view = bits_of(put_groups(raw, n, g).subrange(0, bytes_for(m)), n, m);
            &&& compressed_read(view, T::read_size() - 1, T::read_size()) == (
                Some(v.to_bytes()),
                g.flatten().len(),
            )
            &&& T::from_bytes(v.to_bytes()) == v
        }),
{
    T::lemma_wire_round_trip(v);
    let g = compressed_groups(v.to_bytes(), T::write_size() - 1);
    lemma_written_groups_read_back(raw, n, g);
    lemma_read_compressed_back(v.to_bytes(), Seq::empty());
    assert(g.flatten() + Seq::<bool>::empty() =~= g.flatten());
}

/// What `BitStreamWrite::write_aligned_bytes` writes, `read_aligned_bytes`
/// reads back: the stream's bytes hold, from the byte boundary after the bits
/// that were there, the bytes written, which end the stream's bits.
pub proof fn lemma_read_aligned_reads_write_aligned(raw: Seq<u8>, n: int, bytes: Seq<u8>)
    requires
        stream_wf(raw, n),
    ensures
        ({
            let k = bytes_for(n);
            let out = raw.subrange(0, k) + bytes;
            let m = 8 * k + 8 * bytes.len();
            &&& out.subrange(0, bytes_for(m)) == out
            &&& out.subrange(k, k + bytes.len()) == bytes
        }),
{
    lemma_bytes_for_le(n, raw.len() as int);
    let k = bytes_for(n);
    let out = raw.subrange(0, k) + bytes;
    let m = 8 * k + 8 * bytes.len();
    assert(bytes_for(m) == k + bytes.len());
    assert(out.subrange(0, bytes_for(m)) =~= out);
    assert(out.subrange(k, k + bytes.len()) =~= bytes);
}

/// Reading whole bytes back from the bits they were written as gives them back,
/// whatever follows.
pub proof fn lemma_read_bytes_back(b: Seq<u8>, rest: Seq<bool>)
    ensures
        place_bits(bits_of(b, 0, (8 * b.len()) as int) + rest, (8 * b.len()) as int, b.len()) == b,
{
    let n = (8 * b.len()) as int;
    let bits = bits_of(b, 0, n) + rest;
    assert forall|i: int| 0 <= i < 8 * b.len() implies placed_bit(bits, n, i) == bit_at(b, i) by {
        assert(n / 8 * 8 == n);
    }
    lemma_pack_bits_ext(|i: int| placed_bit(bits, n, i), b);
}

/// A value read from the bits it was written as is the value written.
pub proof fn lemma_read_value_back<T: Wire>(v: T, rest: Seq<bool>)
    ensures
        T::from_bytes(
            place_bits(
                bits_of(v.to_bytes(), 0, (8 * T::write_size()) as int) + rest,
                (8 * T::read_size()) as int,
                T::read_size(),
            ),
        ) == v,
{
    T::lemma_wire_round_trip(v);
    lemma_read_bytes_back(v.to_bytes(), rest);
}

/// Fewer than 8 bits read back from the low bits of a byte give the byte back,
/// where its other bits are zero.
pub proof fn lemma_read_low_bits_back(x: u8, n: int, rest: Seq<bool>)
    requires
        0 < n < 8,
        forall|t: int| 0 <= t < 8 - n ==> !#[trigger] byte_bit(x, t),
    ensures
        place_bits(source_bits(seq![x], n) + rest, n, 1) == seq![x],
{
    let bits = source_bits(seq![x], n) + rest;
    assert forall|i: int| 0 <= i < 8 implies placed_bit(bits, n, i) == bit_at(seq![x], i) by {
        assert(i / 8 == 0 && i % 8 == i);
        assert(n / 8 == 0 && n % 8 == n);
        if i >= 8 - n {
            assert(bits[i - (8 - n)] == byte_bit(x, 8 - n + (i - (8 - n)) % 8));
        }
    }
    lemma_pack_bits_ext(|i: int| placed_bit(bits, n, i), seq![x]);
}

/// A compressed read of the bits that a compressed write of the bytes `b`
/// wrote gives the bytes back and consumes those bits, whatever follows them.
pub proof fn lemma_read_compressed_back(b: Seq<u8>, rest: Seq<bool>)
    requires
        1 <= b.len() <= 8,
    ensures
        compressed_read(
            compressed_groups(b, b.len() - 1).flatten() + rest,
            b.len() - 1,
            b.len(),
        ) == (Some(b), compressed_groups(b, b.len() - 1).flatten().len()),
{
    lemma_read_compressed_from(b, b.len() - 1, rest);
}

proof fn lemma_read_compressed_from(b: Seq<u8>, cb: int, rest: Seq<bool>)
    requires
        1 <= b.len() <= 8,
        0 <= cb < b.len(),
        forall|j: int| cb < j < b.len() ==> #[trigger] b[j] == 0u8,
    ensures
        compressed_read(compressed_groups(b, cb).flatten() + rest, cb, b.len()) == (
        Some(b),
        compressed_groups(b, cb).flatten().len(),
        ),
    decreases cb,
{
    let g = compressed_groups(b, cb);
    let bits = g.flatten() + rest;
    lemma_compressed_len(b, cb);
    lemma_bit_zero();
    if cb > 0 {
        if b[cb] == 0 {
            let tail = compressed_groups(b, cb - 1);
            lemma_flatten_cons(seq![true], tail);
            assert(bits.drop_first() =~= tail.flatten() + rest);
            lemma_read_compressed_from(b, cb - 1, rest);
        } else {
            let src = source_bits(b, 8 * (cb + 1));
            lemma_flatten_cons(seq![false], seq![src]);
            lemma_flatten_cons(src, Seq::<Seq<bool>>::empty());
            assert(seq![seq![false]] + seq![src] =~= g);
            assert(seq![src] =~= seq![src] + Seq::<Seq<bool>>::empty());
            assert(bits.drop_first() =~= src + rest);
            lemma_placed_whole_bytes(b, cb + 1, rest);
        }
    } else {
        let n = if b[0] & 0xF0u8 == 0 {
            4int
        } else {
            8int
        };
        let first = if b[0] & 0xF0u8 == 0 {
            seq![true]
        } else {
            seq![false]
        };
        let src = source_bits(b, n);
        lemma_flatten_cons(first, seq![src]);
        lemma_flatten_cons(src, Seq::<Seq<bool>>::empty());
        assert(seq![first] + seq![src] =~= g);
        assert(seq![src] =~= seq![src] + Seq::<Seq<bool>>::empty());
        assert(bits.drop_first() =~= src + rest);
        if n == 8 {
            lemma_placed_whole_bytes(b, 1, rest);
        } else {
            lemma_high_nibble_zero(b[0]);
            lemma_placed_nibble(b, rest);
        }
    }
}

/// Reading the bits of the first `k` bytes of `b` into `b.len()` bytes gives
/// `b` back, where its other bytes are zero.
proof fn lemma_placed_whole_bytes(b: Seq<u8>, k: int, rest: Seq<bool>)
    requires
        1 <= k <= b.len(),
        forall|j: int| k <= j < b.len() ==> #[trigger] b[j] == 0u8,
    ensures
        place_bits(source_bits(b, 8 * k) + rest, 8 * k, b.len()) == b,
{
    let bits = source_bits(b, 8 * k) + rest;
    lemma_bit_zero();
    assert forall|i: int| 0 <= i < 8 * b.len() implies placed_bit(bits, 8 * k, i) == bit_at(b, i) by {
        assert((8 * k) / 8 * 8 == 8 * k);
        if i >= 8 * k {
            assert(b[i / 8] == 0u8);
        }
    }
    lemma_pack_bits_ext(|i: int| placed_bit(bits, 8 * k, i), b);
}

/// Reading the low 4 bits of byte 0 of `b` into `b.len()` bytes gives `b`
/// back, where the high 4 bits of byte 0 and the other bytes are zero.
proof fn lemma_placed_nibble(b: Seq<u8>, rest: Seq<bool>)
    requires
        1 <= b.len(),
        forall|j: int| 1 <= j < b.len() ==> #[trigger] b[j] == 0u8,
        forall|t: int| 0 <= t < 4 ==> !#[trigger] byte_bit(b[0], t),
    ensures
        place_bits(source_bits(b, 4) + rest, 4, b.len()) == b,
{
    let bits = source_bits(b, 4) + rest;
    lemma_bit_zero();
    assert forall|i: int| 0 <= i < 8 * b.len() implies placed_bit(bits, 4, i) == bit_at(b, i) by {
        if i < 8 {
            assert(i / 8 == 0 && i % 8 == i);
            if i >= 4 {
                assert(bits[i - 4] == byte_bit(b[0], 4 + (i - 4) % 8));
            }
        } else {
            assert(b[i / 8] == 0u8);
        }
    }
    lemma_pack_bits_ext(|i: int| placed_bit(bits, 4, i), b);
}

proof fn lemma_high_nibble_zero_bv(x: u8, s: u8)
    by (bit_vector)
    requires
        x & 0xF0u8 == 0u8,
        4 <= s < 8,
    ensures
        (x >> s) & 1u8 != 1u8,
{
}

/// A byte whose high 4 bits are zero has none of its top 4 bits set.
proof fn lemma_high_nibble_zero(x: u8)
    requires
        x & 0xF0u8 == 0u8,
    ensures
        forall|t: int| 0 <= t < 4 ==> !#[trigger] byte_bit(x, t),
{
    assert forall|t: int| 0 <= t < 4 implies !#[trigger] byte_bit(x, t) by {
        lemma_high_nibble_zero_bv(x, (7 - t) as u8);
    }
}

} // verus!
