//! The read side: a cursor over a borrowed byte buffer.
use vstd::prelude::*;

use crate::bytes::{le_value, lemma_byte_range_mono, lemma_byte_range_values, lemma_le_value_bound, lemma_le_value_step};
use crate::error::Error;
use crate::repr::{lemma_modulus_values, Repr};

verus! {

/// A cursor over a borrowed byte buffer. Reads start at the cursor and move
/// it forward; a read that fails for want of bytes leaves it where it was.
pub struct Reader<'a> {
    data: &'a [u8],
    offset: usize,
}

impl<'a> Reader<'a> {
    #[verifier::type_invariant]
    spec fn inv(&self) -> bool {
        self.offset <= self.data@.len()
    }

    /// The whole buffer.
    pub closed spec fn data(&self) -> Seq<u8> {
        self.data@
    }

    /// The cursor: the offset of the next byte to read.
    pub closed spec fn pos(&self) -> nat {
        self.offset as nat
    }

    /// The bytes from the cursor to the end of the buffer.
    pub open spec fn rest(&self) -> Seq<u8> {
        self.data().skip(self.pos() as int)
    }

    /// A reader at the start of `data`.
    pub fn new(data: &'a [u8]) -> (r: Reader<'a>)
        ensures
            r.data() == data@,
            r.pos() == 0,
    {
        Reader { data, offset: 0 }
    }

    /// The cursor.
    pub fn position(&self) -> (r: usize)
        ensures
            r == self.pos(),
            r <= self.data().len(),
    {
        proof {
            use_type_invariant(self);
        }
        self.offset
    }

    /// Fills `buffer` with the next `buffer.len()` bytes and moves the cursor
    /// past them; fails with `Overflow`, reading nothing, where fewer remain.
    pub fn read_bytes(&mut self, buffer: &mut [u8]) -> (r: Result<(), Error>)
        ensures
            final(self).data() == old(self).data(),
            old(self).pos() <= old(self).data().len(),
            final(self).pos() <= final(self).data().len(),
            old(self).rest().len() < old(buffer)@.len() ==> {
                &&& r == Err::<(), Error>(Error::Overflow)
                &&& final(self).pos() == old(self).pos()
                &&& final(buffer)@ == old(buffer)@
            },
            old(self).rest().len() >= old(buffer)@.len() ==> {
                &&& r == Ok::<(), Error>(())
                &&& final(self).pos() == old(self).pos() + old(buffer)@.len()
                &&& final(buffer)@ == old(self).rest().take(old(buffer)@.len() as int)
            },
    {
        proof {
            use_type_invariant(&*self);
        }
        let n = buffer.len();
        let len = self.data.len();
        if len - self.offset < n {
            return Err(Error::Overflow);
        }
        let mut i: usize = 0;
        while i < n
            invariant
                n == buffer@.len(),
                len == self.data@.len(),
                self.offset + n <= len,
                i <= n,
                forall|j: int| 0 <= j < i ==> buffer@[j] == self.data@[self.offset + j],
            decreases n - i,
        {
            buffer[i] = self.data[self.offset + i];
            i = i + 1;
        }
        assert(buffer@ =~= self.data@.skip(self.offset as int).take(n as int));
        self.offset = self.offset + n;
        Ok(())
    }

    /// Decodes a `T` at the cursor.
    pub fn read<T: Decode>(&mut self) -> (r: Result<T, Error>)
        ensures
            final(self).data() == old(self).data(),
            r == T::spec_decode(old(self).rest()).0,
            final(self).pos() == old(self).pos() + T::spec_decode(old(self).rest()).1,
    {
        T::decode(self)
    }

    /// Decodes a `T` at the absolute `offset`, leaving this reader's cursor
    /// alone: a temporary cursor at `offset` reads it. An offset past the end
    /// of the buffer is an `Overflow`; a cursor at the very end is valid, and
    /// reads a value that takes no bytes.
    pub fn read_at<T: Decode>(&self, offset: usize) -> (r: Result<T, Error>)
        ensures
            offset > self.data().len() ==> r == Err::<T, Error>(Error::Overflow),
            offset <= self.data().len() ==> r == T::spec_decode(self.data().skip(offset as int)).0,
    {
        if offset > self.data.len() {
            return Err(Error::Overflow);
        }
        let mut reader = Reader { data: self.data, offset };
        reader.read()
    }

    /// Decodes a value of the integer type `repr` at the cursor.
    pub fn read_int(&mut self, repr: Repr) -> (r: Result<i128, Error>)
        ensures
            final(self).data() == old(self).data(),
            final(self).pos() <= final(self).data().len(),
            match repr.decoding(old(self).rest()).0 {
                Ok(v) => r == Ok::<i128, Error>(v as i128) && repr.in_range(v),
                Err(e) => r == Err::<i128, Error>(e),
            },
            final(self).pos() == old(self).pos() + repr.decoding(old(self).rest()).1,
            r matches Ok(v) ==> repr.in_range(v as int),
    {
        proof {
            use_type_invariant(&*self);
            lemma_modulus_values(repr);
            lemma_byte_range_values();
        }
        let n = repr.size();
        let len = self.data.len();
        if len - self.offset < n {
            return Err(Error::Overflow);
        }
        let ghost s = self.data@;
        let ghost start = self.offset as int;
        let mut acc: u64 = 0;
        let mut i: usize = n;
        while i > 0
            invariant
                n == repr.width(),
                1 <= n <= 8,
                s == self.data@,
                start == self.offset,
                len == s.len(),
                start + n <= len,
                i <= n,
                acc == le_value(s.subrange(start + i, start + n)),
            decreases i,
        {
            proof {
                assert(s.subrange(start + i, start + n).len() == n - i);
                lemma_le_value_bound(s.subrange(start + i, start + n));
                lemma_byte_range_mono((n - i) as nat, 7);
                lemma_byte_range_values();
                assert(acc < 0x100_0000_0000_0000);
                lemma_le_value_step(s, start + i - 1, start + n);
            }
            i = i - 1;
            acc = acc * 256 + self.data[self.offset + i] as u64;
        }
        assert(s.subrange(start, start + n) =~= s.skip(start).take(n as int));
        proof {
            assert(s.subrange(start, start + n).len() == n);
            lemma_le_value_bound(s.subrange(start, start + n));
            lemma_decoding_value(repr, acc as nat);
        }
        self.offset = self.offset + n;
        let m = repr.count() as i128;
        let v = acc as i128;
        if repr.is_signed() && v >= m / 2 {
            Ok(v - m)
        } else {
            Ok(v)
        }
    }
}

proof fn lemma_decoding_value(repr: Repr, b: nat)
    requires
        b < repr.modulus(),
    ensures
        repr.in_range(repr.value_of(b)),
{
    lemma_modulus_values(repr);
}

/// Values that can be decoded from a `Reader`.
pub trait Decode: Sized {
    /// Decoding a value from the front of `bytes`: the result, and how many
    /// bytes the cursor moves.
    spec fn spec_decode(bytes: Seq<u8>) -> (Result<Self, Error>, nat);

    fn decode(reader: &mut Reader) -> (r: Result<Self, Error>)
        ensures
            final(reader).data() == old(reader).data(),
            r == Self::spec_decode(old(reader).rest()).0,
            final(reader).pos() == old(reader).pos() + Self::spec_decode(old(reader).rest()).1,
    ;

    /// Decodes a value from the start of `data`.
    fn decode_in_place(data: &[u8]) -> (r: Result<Self, Error>)
        ensures
            r == Self::spec_decode(data@).0,
    {
        let mut reader = Reader::new(data);
        assert(reader.rest() =~= data@);
        Self::decode(&mut reader)
    }
}

} // verus!
