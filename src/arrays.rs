//! Fixed-length arrays: their elements in ascending index order, with no
//! padding between them.
use vstd::prelude::*;

use crate::decode::{Decode, Reader};
use crate::encode::{Encode, Writer};
use crate::error::Error;
use crate::size::{Codec, Size};

verus! {

/// The encodings of the items of `s`, one after the other.
pub open spec fn encode_all<T: Encode>(s: Seq<T>) -> Seq<u8>
    decreases s.len(),
{
    if s.len() == 0 {
        Seq::empty()
    } else {
        encode_all(s.drop_last()) + s.last().spec_encode()
    }
}

/// Decoding `n` values of `T` one after the other from the front of `bytes`:
/// the first failure ends it, and the bytes consumed up to it stay consumed.
pub open spec fn decode_n<T: Decode>(bytes: Seq<u8>, n: nat) -> (Result<Seq<T>, Error>, nat)
    decreases n,
{
    if n == 0 {
        (Ok(Seq::empty()), 0)
    } else {
        let (r, k) = decode_n::<T>(bytes, (n - 1) as nat);
        match r {
            Err(e) => (Err(e), k),
            Ok(s) => {
                let (r2, k2) = T::spec_decode(bytes.skip(k as int));
                match r2 {
                    Err(e) => (Err(e), k + k2),
                    Ok(x) => (Ok(s.push(x)), k + k2),
                }
            },
        }
    }
}

/// The array whose items are `s`.
pub open spec fn array_of<T, const N: usize>(s: Seq<T>) -> [T; N] {
    choose|a: [T; N]| a@ == s
}

impl<T: Encode + Copy, const N: usize> Encode for [T; N] {
    open spec fn spec_encode(&self) -> Seq<u8> {
        encode_all(self@)
    }

    fn encode(self, writer: &mut Writer) {
        let mut i: usize = 0;
        while i < N
            invariant
                i <= N,
                self@.len() == N,
                writer@ == old(writer)@ + encode_all(self@.take(i as int)),
            decreases N - i,
        {
            writer.write(self[i]);
            assert(self@.take(i + 1).drop_last() =~= self@.take(i as int));
            i = i + 1;
            assert(writer@ =~= old(writer)@ + encode_all(self@.take(i as int)));
        }
        assert(self@.take(N as int) =~= self@);
    }
}

impl<T: Decode + Copy + Default, const N: usize> Decode for [T; N] {
    open spec fn spec_decode(bytes: Seq<u8>) -> (Result<[T; N], Error>, nat) {
        let (r, k) = decode_n::<T>(bytes, N as nat);
        (
            match r {
                Ok(s) => Ok(array_of::<T, N>(s)),
                Err(e) => Err(e),
            },
            k,
        )
    }

    fn decode(reader: &mut Reader) -> (r: Result<[T; N], Error>) {
        let ghost start = old(reader).rest();
        let ghost begin = old(reader).pos();
        let mut data = [T::default(); N];
        let mut i: usize = 0;
        assert(data@.take(0) =~= Seq::<T>::empty());
        assert(start.skip(0) =~= start);
        while i < N
            invariant
                i <= N,
                data@.len() == N,
                reader.data() == old(reader).data(),
                start == old(reader).rest(),
                begin == old(reader).pos(),
                begin <= reader.pos(),
                reader.rest() == start.skip(reader.pos() - begin),
                decode_n::<T>(start, i as nat) == (
                    Ok::<Seq<T>, Error>(data@.take(i as int)),
                    (reader.pos() - begin) as nat,
                ),
            decreases N - i,
        {
            let ghost prev = data@.take(i as int);
            // `position` also tells the proof that the cursor is within the buffer.
            reader.position();
            match reader.read::<T>() {
                Ok(x) => {
                    reader.position();
                    assert(reader.rest() =~= start.skip(reader.pos() - begin));
                    data[i] = x;
                    assert(data@.take(i + 1) =~= prev.push(x));
                    assert(decode_n::<T>(start, (i + 1) as nat) == (
                        Ok::<Seq<T>, Error>(prev.push(x)),
                        (reader.pos() - begin) as nat,
                    ));
                    i = i + 1;
                },
                Err(e) => {
                    proof {
                        lemma_decode_n_failure_stays::<T>(start, (i + 1) as nat, N as nat);
                    }
                    return Err(e);
                },
            }
        }
        assert(data@.take(N as int) =~= data@);
        assert(array_of::<T, N>(data@) =~= data);
        Ok(data)
    }
}

impl<T: Size, const N: usize> Size for [T; N] {
    open spec fn spec_size() -> nat {
        (N * T::spec_size()) as nat
    }

    fn size() -> (r: usize) {
        if N == 0 {
            return 0;
        }
        assert(T::spec_size() <= N * T::spec_size()) by (nonlinear_arith)
            requires
                N >= 1,
        ;
        N * T::size()
    }
}

/// Encoding a sequence of values and decoding as many gives them back,
/// whatever follows.
pub proof fn lemma_all_round_trip<T: Codec>(s: Seq<T>, rest: Seq<u8>)
    ensures
        encode_all(s).len() == s.len() * T::spec_size(),
        decode_n::<T>(encode_all(s) + rest, s.len()) == (
            Ok::<Seq<T>, Error>(s),
            s.len() * T::spec_size(),
        ),
    decreases s.len(),
{
    if s.len() > 0 {
        let init = s.drop_last();
        let x = s.last();
        let ex = x.spec_encode();
        lemma_all_round_trip(init, ex + rest);
        T::lemma_codec(x, rest);
        let all = encode_all(s) + rest;
        assert(all =~= encode_all(init) + (ex + rest));
        assert(all.skip(encode_all(init).len() as int) =~= ex + rest);
        assert(init.push(x) =~= s);
        assert((s.len() - 1) * T::spec_size() + T::spec_size() == s.len() * T::spec_size())
            by (nonlinear_arith)
            requires
                s.len() >= 1,
        ;
    } else {
        assert(s =~= Seq::<T>::empty());
    }
}

/// Once decoding `i` values has failed, decoding more fails the same way.
pub proof fn lemma_decode_n_failure_stays<T: Decode>(bytes: Seq<u8>, i: nat, j: nat)
    requires
        i <= j,
        decode_n::<T>(bytes, i).0 is Err,
    ensures
        decode_n::<T>(bytes, j) == decode_n::<T>(bytes, i),
    decreases j,
{
    if i < j {
        lemma_decode_n_failure_stays::<T>(bytes, i, (j - 1) as nat);
    }
}

impl<T: Codec + Copy + Default, const N: usize> Codec for [T; N] {
    proof fn lemma_codec(v: [T; N], rest: Seq<u8>) {
        lemma_all_round_trip(v@, rest);
        assert(array_of::<T, N>(v@) =~= v);
    }
}

} // verus!
