//! The write side: a writer that owns a growable byte buffer.
use vstd::prelude::*;

use crate::bytes::le_bytes;
use crate::repr::{lemma_modulus_values, Repr};

verus! {

/// `data` written over `buf` from `offset` on; a gap between the old end
/// and `offset` is filled with zeros.
pub open spec fn overlay(buf: Seq<u8>, data: Seq<u8>, offset: nat) -> Seq<u8> {
    let len = if buf.len() > offset + data.len() {
        buf.len()
    } else {
        offset + data.len()
    };
    Seq::new(
        len,
        |j: int|
            if offset <= j < offset + data.len() {
                data[j - offset]
            } else if j < buf.len() {
                buf[j]
            } else {
                0u8
            },
    )
}

/// A writer that appends to a byte buffer it owns until `finish` hands the
/// buffer over.
pub struct Writer {
    data: Vec<u8>,
}

impl View for Writer {
    type V = Seq<u8>;

    closed spec fn view(&self) -> Seq<u8> {
        self.data@
    }
}

impl Writer {
    /// A writer with an empty buffer.
    pub fn new() -> (r: Writer)
        ensures
            r@ == Seq::<u8>::empty(),
    {
        Writer { data: Vec::new() }
    }

    /// A writer with an empty buffer that has room for `capacity` bytes.
    pub fn with_capacity(capacity: usize) -> (r: Writer)
        ensures
            r@ == Seq::<u8>::empty(),
    {
        Writer { data: Vec::with_capacity(capacity) }
    }

    /// Appends `data` to the buffer.
    pub fn write_bytes(&mut self, data: &[u8])
        ensures
            final(self)@ == old(self)@ + data@,
    {
        let mut i: usize = 0;
        while i < data.len()
            invariant
                i <= data@.len(),
                self@ == old(self)@ + data@.take(i as int),
            decreases data@.len() - i,
        {
            self.data.push(data[i]);
            i = i + 1;
            assert(self@ =~= old(self)@ + data@.take(i as int));
        }
        assert(data@.take(data@.len() as int) =~= data@);
    }

    /// Writes `data` at `offset`, over what is there; where the buffer is
    /// shorter than `offset`, the gap is filled with zeros. The end of the
    /// buffer, where `write` appends, moves only if the bytes reach past it.
    pub fn write_bytes_at(&mut self, data: &[u8], offset: usize)
        requires
            offset + data@.len() <= usize::MAX,
        ensures
            final(self)@ == overlay(old(self)@, data@, offset as nat),
    {
        let end = offset + data.len();
        while self.data.len() < end
            invariant
                end == offset + data@.len(),
                self@.len() <= if old(self)@.len() > end { old(self)@.len() } else { end as nat },
                self@.len() >= old(self)@.len(),
                forall|j: int| 0 <= j < self@.len() ==> #[trigger] self@[j] == if j < old(self)@.len() {
                    old(self)@[j]
                } else {
                    0u8
                },
            decreases end - self@.len(),
        {
            self.data.push(0);
        }
        let mut i: usize = 0;
        while i < data.len()
            invariant
                end == offset + data@.len(),
                i <= data@.len(),
                self@.len() == if old(self)@.len() > end { old(self)@.len() } else { end as nat },
                forall|j: int| 0 <= j < self@.len() ==> #[trigger] self@[j] == if offset <= j < offset + i {
                    data@[j - offset]
                } else if j < old(self)@.len() {
                    old(self)@[j]
                } else {
                    0u8
                },
            decreases data@.len() - i,
        {
            self.data.set(offset + i, data[i]);
            i = i + 1;
        }
        assert(self@ =~= overlay(old(self)@, data@, offset as nat));
    }

    /// Encodes `data` and writes it at `offset` as `write_bytes_at` does.
    pub fn write_at<T: Encode>(&mut self, data: T, offset: usize)
        requires
            offset + data.spec_encode().len() <= usize::MAX,
        ensures
            final(self)@ == overlay(old(self)@, data.spec_encode(), offset as nat),
    {
        let mut writer = Writer { data: Vec::new() };
        writer.write(data);
        self.write_bytes_at(writer.data.as_slice(), offset);
    }

    /// Appends the encoding of `data`.
    pub fn write<T: Encode>(&mut self, data: T)
        ensures
            final(self)@ == old(self)@ + data.spec_encode(),
    {
        data.encode(self);
    }

    /// Appends the wire bytes of `value`, a value of the integer type `repr`.
    pub fn write_int(&mut self, repr: Repr, value: i128)
        requires
            repr.in_range(value as int),
        ensures
            final(self)@ == old(self)@ + repr.encoding(value as int),
    {
        proof {
            lemma_modulus_values(repr);
        }
        let n = repr.size();
        let m = repr.count();
        let bits: u64 = if value < 0 {
            (value + m as i128) as u64
        } else {
            value as u64
        };
        assert(bits as nat == repr.bits_of(value as int));
        let mut x: u64 = bits;
        let mut i: usize = 0;
        while i < n
            invariant
                i <= n,
                n == repr.width(),
                self@ + le_bytes(x as nat, (n - i) as nat) == old(self)@ + le_bytes(bits as nat, n as nat),
            decreases n - i,
        {
            let b = (x % 256) as u8;
            let ghost before = self@;
            self.data.push(b);
            proof {
                let k = (n - i) as nat;
                assert(le_bytes(x as nat, k) == seq![b] + le_bytes((x / 256) as nat, (k - 1) as nat));
                assert(before + le_bytes(x as nat, k) =~= self@ + le_bytes((x / 256) as nat, (k - 1) as nat));
            }
            x = x / 256;
            i = i + 1;
        }
        assert(le_bytes(x as nat, 0) =~= Seq::<u8>::empty());
        assert(self@ =~= old(self)@ + le_bytes(bits as nat, n as nat));
    }

    /// The bytes written so far.
    pub fn data(&self) -> (r: &[u8])
        ensures
            r@ == self@,
    {
        self.data.as_slice()
    }

    /// Hands over the buffer.
    pub fn finish(self) -> (r: Vec<u8>)
        ensures
            r@ == self@,
    {
        self.data
    }

    /// Empties the buffer; its allocation is kept for reuse.
    pub fn clear(&mut self)
        ensures
            final(self)@ == Seq::<u8>::empty(),
    {
        self.data.clear();
    }
}

/// Values that can be written to a `Writer`.
pub trait Encode: Sized {
    /// The wire bytes of the value.
    spec fn spec_encode(&self) -> Seq<u8>;

    fn encode(self, writer: &mut Writer)
        ensures
            final(writer)@ == old(writer)@ + self.spec_encode(),
    ;

    /// The wire bytes of the value, in a buffer of their own.
    fn encode_in_place(self) -> (r: Vec<u8>)
        ensures
            r@ == self.spec_encode(),
    {
        let mut writer = Writer::new();
        self.encode(&mut writer);
        assert(writer@ =~= self.spec_encode());
        writer.finish()
    }
}

} // verus!
