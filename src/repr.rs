//! The fixed-width integer types: their widths, ranges and wire encodings.
use vstd::prelude::*;

use crate::bytes::{byte_range, le_bytes, le_value, lemma_byte_range_values, lemma_le_bytes_len, lemma_le_round_trip};
use crate::error::Error;

verus! {

/// One of the eight fixed-width integer primitives; also the declared tag
/// type of an enum.
#[derive(Clone, Copy, Debug, PartialEq, Eq, Structural)]
pub enum Repr {
    I8,
    U8,
    I16,
    U16,
    I32,
    U32,
    I64,
    U64,
}

/// Why a tag type declaration was not accepted.
#[derive(Clone, Copy, Debug, PartialEq, Eq, Structural)]
pub enum ReprError {
    /// The enum declares no tag type.
    Missing,
    /// The declared tag type is not one of the eight integer primitives.
    Invalid,
}

impl ReprError {
    pub open spec fn message_spec(self) -> Seq<char> {
        match self {
            ReprError::Missing => "no repr attribute has been found"@,
            ReprError::Invalid => "invalid repr attribute"@,
        }
    }

    /// A short human-readable description of the error.
    pub fn message(&self) -> (r: &'static str)
        ensures
            r@ == self.message_spec(),
    {
        match self {
            ReprError::Missing => "no repr attribute has been found",
            ReprError::Invalid => "invalid repr attribute",
        }
    }
}

/// The tag type that a declaration names, if it names one.
pub open spec fn repr_named(name: Seq<char>) -> Option<Repr> {
    if name == "i8"@ {
        Some(Repr::I8)
    } else if name == "u8"@ {
        Some(Repr::U8)
    } else if name == "i16"@ {
        Some(Repr::I16)
    } else if name == "u16"@ {
        Some(Repr::U16)
    } else if name == "i32"@ {
        Some(Repr::I32)
    } else if name == "u32"@ {
        Some(Repr::U32)
    } else if name == "i64"@ {
        Some(Repr::I64)
    } else if name == "u64"@ {
        Some(Repr::U64)
    } else {
        None
    }
}

proof fn lemma_names_distinct()
    ensures
        "i8"@ != "u8"@,
        "i16"@ != "i8"@ && "i16"@ != "u8"@,
        "u16"@ != "i8"@ && "u16"@ != "u8"@ && "u16"@ != "i16"@,
        "i32"@ != "i8"@ && "i32"@ != "u8"@ && "i32"@ != "i16"@ && "i32"@ != "u16"@,
        "u32"@ != "i8"@ && "u32"@ != "u8"@ && "u32"@ != "i16"@ && "u32"@ != "u16"@ && "u32"@
            != "i32"@,
        "i64"@ != "i8"@ && "i64"@ != "u8"@ && "i64"@ != "i16"@ && "i64"@ != "u16"@ && "i64"@
            != "i32"@ && "i64"@ != "u32"@,
        "u64"@ != "i8"@ && "u64"@ != "u8"@ && "u64"@ != "i16"@ && "u64"@ != "u16"@ && "u64"@
            != "i32"@ && "u64"@ != "u32"@ && "u64"@ != "i64"@,
{
    reveal_strlit("i8");
    reveal_strlit("u8");
    reveal_strlit("i16");
    reveal_strlit("u16");
    reveal_strlit("i32");
    reveal_strlit("u32");
    reveal_strlit("i64");
    reveal_strlit("u64");
    assert("i8"@[0] != "u8"@[0]);
    assert("i16"@.len() != "i8"@.len());
    assert("i16"@.len() != "u8"@.len());
    assert("u16"@.len() != "i8"@.len());
    assert("u16"@.len() != "u8"@.len());
    assert("u16"@[0] != "i16"@[0]);
    assert("i32"@.len() != "i8"@.len());
    assert("i32"@.len() != "u8"@.len());
    assert("i32"@[1] != "i16"@[1]);
    assert("i32"@[0] != "u16"@[0]);
    assert("u32"@.len() != "i8"@.len());
    assert("u32"@.len() != "u8"@.len());
    assert("u32"@[0] != "i16"@[0]);
    assert("u32"@[1] != "u16"@[1]);
    assert("u32"@[0] != "i32"@[0]);
    assert("i64"@.len() != "i8"@.len());
    assert("i64"@.len() != "u8"@.len());
    assert("i64"@[1] != "i16"@[1]);
    assert("i64"@[0] != "u16"@[0]);
    assert("i64"@[1] != "i32"@[1]);
    assert("i64"@[0] != "u32"@[0]);
    assert("u64"@.len() != "i8"@.len());
    assert("u64"@.len() != "u8"@.len());
    assert("u64"@[0] != "i16"@[0]);
    assert("u64"@[1] != "u16"@[1]);
    assert("u64"@[0] != "i32"@[0]);
    assert("u64"@[1] != "u32"@[1]);
    assert("u64"@[0] != "i64"@[0]);
}

fn same_chars(s: &str, lit: &str) -> (r: bool)
    ensures
        r == (s@ == lit@),
{
    let n = s.unicode_len();
    if n != lit.unicode_len() {
        return false;
    }
    let mut i: usize = 0;
    while i < n
        invariant
            n == s@.len() == lit@.len(),
            i <= n,
            forall|j: int| 0 <= j < i ==> s@[j] == lit@[j],
        decreases n - i,
    {
        if s.get_char(i) != lit.get_char(i) {
            return false;
        }
        i = i + 1;
    }
    assert(s@ =~= lit@);
    true
}

impl Repr {
    /// Number of bytes on the wire.
    pub open spec fn width(self) -> nat {
        match self {
            Repr::I8 | Repr::U8 => 1,
            Repr::I16 | Repr::U16 => 2,
            Repr::I32 | Repr::U32 => 4,
            Repr::I64 | Repr::U64 => 8,
        }
    }

    pub open spec fn signed(self) -> bool {
        match self {
            Repr::I8 | Repr::I16 | Repr::I32 | Repr::I64 => true,
            _ => false,
        }
    }

    /// Number of distinct values of the type.
    pub open spec fn modulus(self) -> nat {
        byte_range(self.width())
    }

    pub open spec fn min_value(self) -> int {
        if self.signed() {
            -(self.modulus() / 2)
        } else {
            0
        }
    }

    pub open spec fn max_value(self) -> int {
        if self.signed() {
            self.modulus() / 2 - 1
        } else {
            self.modulus() - 1
        }
    }

    pub open spec fn in_range(self, v: int) -> bool {
        self.min_value() <= v <= self.max_value()
    }

    /// Two's complement bit pattern of `v`, as an unsigned number.
    pub open spec fn bits_of(self, v: int) -> nat {
        if v < 0 {
            (v + self.modulus()) as nat
        } else {
            v as nat
        }
    }

    /// The value that a bit pattern denotes in this type.
    pub open spec fn value_of(self, b: nat) -> int {
        if self.signed() && b >= self.modulus() / 2 {
            b - self.modulus()
        } else {
            b as int
        }
    }

    /// The wire bytes of `v`: its bit pattern, little-endian.
    pub open spec fn encoding(self, v: int) -> Seq<u8> {
        le_bytes(self.bits_of(v), self.width())
    }

    /// Decoding a value of this type from the front of `bytes`: the result,
    /// and how many bytes were consumed.
    pub open spec fn decoding(self, bytes: Seq<u8>) -> (Result<int, Error>, nat) {
        if bytes.len() < self.width() {
            (Err(Error::Overflow), 0)
        } else {
            (Ok(self.value_of(le_value(bytes.take(self.width() as int)))), self.width())
        }
    }

    /// Reads the tag type that a declaration names; `None` stands for a
    /// declaration that is absent.
    pub fn parse(name: Option<&str>) -> (r: Result<Repr, ReprError>)
        ensures
            name is None ==> r == Err::<Repr, ReprError>(ReprError::Missing),
            name matches Some(s) ==> match repr_named(s@) {
                Some(t) => r == Ok::<Repr, ReprError>(t),
                None => r == Err::<Repr, ReprError>(ReprError::Invalid),
            },
    {
        let s = match name {
            None => return Err(ReprError::Missing),
            Some(s) => s,
        };
        proof {
            reveal_strlit("i8");
            reveal_strlit("u8");
            reveal_strlit("i16");
            reveal_strlit("u16");
            reveal_strlit("i32");
            reveal_strlit("u32");
            reveal_strlit("i64");
            reveal_strlit("u64");
        }
        if same_chars(s, "i8") {
            Ok(Repr::I8)
        } else if same_chars(s, "u8") {
            Ok(Repr::U8)
        } else if same_chars(s, "i16") {
            Ok(Repr::I16)
        } else if same_chars(s, "u16") {
            Ok(Repr::U16)
        } else if same_chars(s, "i32") {
            Ok(Repr::I32)
        } else if same_chars(s, "u32") {
            Ok(Repr::U32)
        } else if same_chars(s, "i64") {
            Ok(Repr::I64)
        } else if same_chars(s, "u64") {
            Ok(Repr::U64)
        } else {
            Err(ReprError::Invalid)
        }
    }

    /// The name of the type, as a declaration writes it; `parse` reads it
    /// back to this type.
    pub fn name(&self) -> (r: &'static str)
        ensures
            repr_named(r@) == Some(*self),
    {
        proof {
            lemma_names_distinct();
        }
        match self {
            Repr::I8 => "i8",
            Repr::U8 => "u8",
            Repr::I16 => "i16",
            Repr::U16 => "u16",
            Repr::I32 => "i32",
            Repr::U32 => "u32",
            Repr::I64 => "i64",
            Repr::U64 => "u64",
        }
    }

    /// Number of bytes on the wire.
    pub fn size(&self) -> (r: usize)
        ensures
            r == self.width(),
    {
        match self {
            Repr::I8 | Repr::U8 => 1,
            Repr::I16 | Repr::U16 => 2,
            Repr::I32 | Repr::U32 => 4,
            Repr::I64 | Repr::U64 => 8,
        }
    }

    pub fn is_signed(&self) -> (r: bool)
        ensures
            r == self.signed(),
    {
        match self {
            Repr::I8 | Repr::I16 | Repr::I32 | Repr::I64 => true,
            _ => false,
        }
    }

    /// Number of distinct values of the type.
    pub fn count(&self) -> (r: u128)
        ensures
            r == self.modulus(),
    {
        proof {
            lemma_byte_range_values();
        }
        match self {
            Repr::I8 | Repr::U8 => 0x100,
            Repr::I16 | Repr::U16 => 0x1_0000,
            Repr::I32 | Repr::U32 => 0x1_0000_0000,
            Repr::I64 | Repr::U64 => 0x1_0000_0000_0000_0000,
        }
    }

    /// Whether `v` is a value of this type.
    pub fn contains(&self, v: i128) -> (r: bool)
        ensures
            r == self.in_range(v as int),
    {
        proof {
            lemma_modulus_values(*self);
        }
        let m = self.count() as i128;
        if self.is_signed() {
            -(m / 2) <= v && v < m / 2
        } else {
            0 <= v && v < m
        }
    }
}

pub proof fn lemma_modulus_values(r: Repr)
    ensures
        r.width() == 1 ==> r.modulus() == 0x100,
        r.width() == 2 ==> r.modulus() == 0x1_0000,
        r.width() == 4 ==> r.modulus() == 0x1_0000_0000,
        r.width() == 8 ==> r.modulus() == 0x1_0000_0000_0000_0000,
        1 <= r.width() <= 8,
{
    lemma_byte_range_values();
}

/// The encoding of a value of the type is as wide as the type.
pub proof fn lemma_encoding_len(r: Repr, v: int)
    ensures
        r.encoding(v).len() == r.width(),
{
    lemma_le_bytes_len(r.bits_of(v), r.width());
}

/// Decoding the encoding of any value of the type gives the value back,
/// whatever follows it.
pub proof fn lemma_int_round_trip(r: Repr, v: int, rest: Seq<u8>)
    requires
        r.in_range(v),
    ensures
        r.decoding(r.encoding(v) + rest) == (Ok::<int, Error>(v), r.width()),
{
    lemma_modulus_values(r);
    lemma_encoding_len(r, v);
    let e = r.encoding(v);
    assert((e + rest).take(r.width() as int) =~= e);
    lemma_le_round_trip(r.bits_of(v), r.width());
}

} // verus!
