//! The codecs of the eight fixed-width integer types: little-endian two's
//! complement, as wide as the type.
use vstd::prelude::*;

use crate::decode::{Decode, Reader};
use crate::encode::{Encode, Writer};
use crate::error::Error;
use crate::repr::{lemma_encoding_len, lemma_int_round_trip, lemma_modulus_values, Repr};
use crate::size::{Codec, Size};

verus! {

impl Encode for i8 {
    open spec fn spec_encode(&self) -> Seq<u8> {
        Repr::I8.encoding(*self as int)
    }

    fn encode(self, writer: &mut Writer) {
        proof {
            lemma_modulus_values(Repr::I8);
        }
        writer.write_int(Repr::I8, self as i128);
    }
}

impl Decode for i8 {
    open spec fn spec_decode(bytes: Seq<u8>) -> (Result<i8, Error>, nat) {
        let (r, n) = Repr::I8.decoding(bytes);
        (
            match r {
                Ok(v) => Ok(v as i8),
                Err(e) => Err(e),
            },
            n,
        )
    }

    fn decode(reader: &mut Reader) -> (r: Result<i8, Error>) {
        proof {
            lemma_modulus_values(Repr::I8);
        }
        match reader.read_int(Repr::I8) {
            Ok(v) => Ok(v as i8),
            Err(e) => Err(e),
        }
    }
}

impl Size for i8 {
    open spec fn spec_size() -> nat {
        Repr::I8.width()
    }

    fn size() -> (r: usize) {
        Repr::I8.size()
    }
}

impl Codec for i8 {
    proof fn lemma_codec(v: i8, rest: Seq<u8>) {
        lemma_modulus_values(Repr::I8);
        lemma_encoding_len(Repr::I8, v as int);
        lemma_int_round_trip(Repr::I8, v as int, rest);
    }
}

impl Encode for u8 {
    open spec fn spec_encode(&self) -> Seq<u8> {
        Repr::U8.encoding(*self as int)
    }

    fn encode(self, writer: &mut Writer) {
        proof {
            lemma_modulus_values(Repr::U8);
        }
        writer.write_int(Repr::U8, self as i128);
    }
}

impl Decode for u8 {
    open spec fn spec_decode(bytes: Seq<u8>) -> (Result<u8, Error>, nat) {
        let (r, n) = Repr::U8.decoding(bytes);
        (
            match r {
                Ok(v) => Ok(v as u8),
                Err(e) => Err(e),
            },
            n,
        )
    }

    fn decode(reader: &mut Reader) -> (r: Result<u8, Error>) {
        proof {
            lemma_modulus_values(Repr::U8);
        }
        match reader.read_int(Repr::U8) {
            Ok(v) => Ok(v as u8),
            Err(e) => Err(e),
        }
    }
}

impl Size for u8 {
    open spec fn spec_size() -> nat {
        Repr::U8.width()
    }

    fn size() -> (r: usize) {
        Repr::U8.size()
    }
}

impl Codec for u8 {
    proof fn lemma_codec(v: u8, rest: Seq<u8>) {
        lemma_modulus_values(Repr::U8);
        lemma_encoding_len(Repr::U8, v as int);
        lemma_int_round_trip(Repr::U8, v as int, rest);
    }
}

impl Encode for i16 {
    open spec fn spec_encode(&self) -> Seq<u8> {
        Repr::I16.encoding(*self as int)
    }

    fn encode(self, writer: &mut Writer) {
        proof {
            lemma_modulus_values(Repr::I16);
        }
        writer.write_int(Repr::I16, self as i128);
    }
}

impl Decode for i16 {
    open spec fn spec_decode(bytes: Seq<u8>) -> (Result<i16, Error>, nat) {
        let (r, n) = Repr::I16.decoding(bytes);
        (
            match r {
                Ok(v) => Ok(v as i16),
                Err(e) => Err(e),
            },
            n,
        )
    }

    fn decode(reader: &mut Reader) -> (r: Result<i16, Error>) {
        proof {
            lemma_modulus_values(Repr::I16);
        }
        match reader.read_int(Repr::I16) {
            Ok(v) => Ok(v as i16),
            Err(e) => Err(e),
        }
    }
}

impl Size for i16 {
    open spec fn spec_size() -> nat {
        Repr::I16.width()
    }

    fn size() -> (r: usize) {
        Repr::I16.size()
    }
}

impl Codec for i16 {
    proof fn lemma_codec(v: i16, rest: Seq<u8>) {
        lemma_modulus_values(Repr::I16);
        lemma_encoding_len(Repr::I16, v as int);
        lemma_int_round_trip(Repr::I16, v as int, rest);
    }
}

impl Encode for u16 {
    open spec fn spec_encode(&self) -> Seq<u8> {
        Repr::U16.encoding(*self as int)
    }

    fn encode(self, writer: &mut Writer) {
        proof {
            lemma_modulus_values(Repr::U16);
        }
        writer.write_int(Repr::U16, self as i128);
    }
}

impl Decode for u16 {
    open spec fn spec_decode(bytes: Seq<u8>) -> (Result<u16, Error>, nat) {
        let (r, n) = Repr::U16.decoding(bytes);
        (
            match r {
                Ok(v) => Ok(v as u16),
                Err(e) => Err(e),
            },
            n,
        )
    }

    fn decode(reader: &mut Reader) -> (r: Result<u16, Error>) {
        proof {
            lemma_modulus_values(Repr::U16);
        }
        match reader.read_int(Repr::U16) {
            Ok(v) => Ok(v as u16),
            Err(e) => Err(e),
        }
    }
}

impl Size for u16 {
    open spec fn spec_size() -> nat {
        Repr::U16.width()
    }

    fn size() -> (r: usize) {
        Repr::U16.size()
    }
}

impl Codec for u16 {
    proof fn lemma_codec(v: u16, rest: Seq<u8>) {
        lemma_modulus_values(Repr::U16);
        lemma_encoding_len(Repr::U16, v as int);
        lemma_int_round_trip(Repr::U16, v as int, rest);
    }
}

impl Encode for i32 {
    open spec fn spec_encode(&self) -> Seq<u8> {
        Repr::I32.encoding(*self as int)
    }

    fn encode(self, writer: &mut Writer) {
        proof {
            lemma_modulus_values(Repr::I32);
        }
        writer.write_int(Repr::I32, self as i128);
    }
}

impl Decode for i32 {
    open spec fn spec_decode(bytes: Seq<u8>) -> (Result<i32, Error>, nat) {
        let (r, n) = Repr::I32.decoding(bytes);
        (
            match r {
                Ok(v) => Ok(v as i32),
                Err(e) => Err(e),
            },
            n,
        )
    }

    fn decode(reader: &mut Reader) -> (r: Result<i32, Error>) {
        proof {
            lemma_modulus_values(Repr::I32);
        }
        match reader.read_int(Repr::I32) {
            Ok(v) => Ok(v as i32),
            Err(e) => Err(e),
        }
    }
}

impl Size for i32 {
    open spec fn spec_size() -> nat {
        Repr::I32.width()
    }

    fn size() -> (r: usize) {
        Repr::I32.size()
    }
}

impl Codec for i32 {
    proof fn lemma_codec(v: i32, rest: Seq<u8>) {
        lemma_modulus_values(Repr::I32);
        lemma_encoding_len(Repr::I32, v as int);
        lemma_int_round_trip(Repr::I32, v as int, rest);
    }
}

impl Encode for u32 {
    open spec fn spec_encode(&self) -> Seq<u8> {
        Repr::U32.encoding(*self as int)
    }

    fn encode(self, writer: &mut Writer) {
        proof {
            lemma_modulus_values(Repr::U32);
        }
        writer.write_int(Repr::U32, self as i128);
    }
}

impl Decode for u32 {
    open spec fn spec_decode(bytes: Seq<u8>) -> (Result<u32, Error>, nat) {
        let (r, n) = Repr::U32.decoding(bytes);
        (
            match r {
                Ok(v) => Ok(v as u32),
                Err(e) => Err(e),
            },
            n,
        )
    }

    fn decode(reader: &mut Reader) -> (r: Result<u32, Error>) {
        proof {
            lemma_modulus_values(Repr::U32);
        }
        match reader.read_int(Repr::U32) {
            Ok(v) => Ok(v as u32),
            Err(e) => Err(e),
        }
    }
}

impl Size for u32 {
    open spec fn spec_size() -> nat {
        Repr::U32.width()
    }

    fn size() -> (r: usize) {
        Repr::U32.size()
    }
}

impl Codec for u32 {
    proof fn lemma_codec(v: u32, rest: Seq<u8>) {
        lemma_modulus_values(Repr::U32);
        lemma_encoding_len(Repr::U32, v as int);
        lemma_int_round_trip(Repr::U32, v as int, rest);
    }
}

impl Encode for i64 {
    open spec fn spec_encode(&self) -> Seq<u8> {
        Repr::I64.encoding(*self as int)
    }

    fn encode(self, writer: &mut Writer) {
        proof {
            lemma_modulus_values(Repr::I64);
        }
        writer.write_int(Repr::I64, self as i128);
    }
}

impl Decode for i64 {
    open spec fn spec_decode(bytes: Seq<u8>) -> (Result<i64, Error>, nat) {
        let (r, n) = Repr::I64.decoding(bytes);
        (
            match r {
                Ok(v) => Ok(v as i64),
                Err(e) => Err(e),
            },
            n,
        )
    }

    fn decode(reader: &mut Reader) -> (r: Result<i64, Error>) {
        proof {
            lemma_modulus_values(Repr::I64);
        }
        match reader.read_int(Repr::I64) {
            Ok(v) => Ok(v as i64),
            Err(e) => Err(e),
        }
    }
}

impl Size for i64 {
    open spec fn spec_size() -> nat {
        Repr::I64.width()
    }

    fn size() -> (r: usize) {
        Repr::I64.size()
    }
}

impl Codec for i64 {
    proof fn lemma_codec(v: i64, rest: Seq<u8>) {
        lemma_modulus_values(Repr::I64);
        lemma_encoding_len(Repr::I64, v as int);
        lemma_int_round_trip(Repr::I64, v as int, rest);
    }
}

impl Encode for u64 {
    open spec fn spec_encode(&self) -> Seq<u8> {
        Repr::U64.encoding(*self as int)
    }

    fn encode(self, writer: &mut Writer) {
        proof {
            lemma_modulus_values(Repr::U64);
        }
        writer.write_int(Repr::U64, self as i128);
    }
}

impl Decode for u64 {
    open spec fn spec_decode(bytes: Seq<u8>) -> (Result<u64, Error>, nat) {
        let (r, n) = Repr::U64.decoding(bytes);
        (
            match r {
                Ok(v) => Ok(v as u64),
                Err(e) => Err(e),
            },
            n,
        )
    }

    fn decode(reader: &mut Reader) -> (r: Result<u64, Error>) {
        proof {
            lemma_modulus_values(Repr::U64);
        }
        match reader.read_int(Repr::U64) {
            Ok(v) => Ok(v as u64),
            Err(e) => Err(e),
        }
    }
}

impl Size for u64 {
    open spec fn spec_size() -> nat {
        Repr::U64.width()
    }

    fn size() -> (r: usize) {
        Repr::U64.size()
    }
}

impl Codec for u64 {
    proof fn lemma_codec(v: u64, rest: Seq<u8>) {
        lemma_modulus_values(Repr::U64);
        lemma_encoding_len(Repr::U64, v as int);
        lemma_int_round_trip(Repr::U64, v as int, rest);
    }
}

} // verus!
