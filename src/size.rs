//! Statically known wire sizes, and the law that ties encoding, decoding and
//! size together.
use vstd::prelude::*;

use crate::decode::Decode;
use crate::encode::Encode;
use crate::error::Error;

verus! {

/// Types whose values all take the same, statically known number of bytes.
pub trait Size: Sized {
    spec fn spec_size() -> nat;

    fn size() -> (r: usize)
        requires
            Self::spec_size() <= usize::MAX,
        ensures
            r == Self::spec_size(),
    ;
}

/// A type whose encode, decode and size agree: every value encodes to exactly
/// `spec_size` bytes, and decoding those bytes, whatever follows them, gives
/// the value back and consumes exactly them.
pub trait Codec: Encode + Decode + Size {
    proof fn lemma_codec(v: Self, rest: Seq<u8>)
        ensures
            v.spec_encode().len() == Self::spec_size(),
            Self::spec_decode(v.spec_encode() + rest) == (Ok::<Self, Error>(v), Self::spec_size()),
    ;
}

} // verus!
