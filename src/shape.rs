//! What the generator accepts: records of any fields, and enums whose
//! variants carry no data and each have an explicit discriminant, under a
//! declared integer tag type.
use vstd::prelude::*;

use crate::repr::{repr_named, Repr, ReprError};
use crate::schema::Schema;

verus! {

/// One field of a record declaration: named (`x: T`) or positional (`T`).
/// Only the field's place in the declaration reaches the wire.
pub struct Field {
    pub name: Option<String>,
    pub schema: Schema,
}

/// One variant of an enum declaration.
pub struct Variant {
    /// Whether the variant carries data.
    pub has_fields: bool,
    /// The literal discriminant, where one is written.
    pub discriminant: Option<i128>,
}

/// A type declaration as the generator receives it.
pub enum Shape {
    /// A record: its fields in declared order.
    Struct(Vec<Field>),
    /// An enum: its variants in declared order.
    Enum(Vec<Variant>),
    /// A union, which has no codec.
    Union,
}

/// Why a declaration gets no codec.
#[derive(Clone, Copy, Debug, PartialEq, Eq, Structural)]
pub enum ShapeError {
    /// Only records and enums have codecs.
    Union,
    /// The enum's tag type declaration is missing or names no integer type.
    Repr(ReprError),
    /// An enum variant carries data.
    VariantWithFields,
    /// An enum variant has no explicit discriminant.
    MissingDiscriminant,
    /// A discriminant is not a value of the tag type.
    DiscriminantOutOfRange,
    /// Two variants have the same discriminant.
    DuplicateDiscriminant,
}

impl ShapeError {
    pub fn message(&self) -> (r: &'static str)
        ensures
            *self == ShapeError::Union ==> r@ == "only structs and enums have codecs"@,
            *self == ShapeError::VariantWithFields ==> r@ == "enum fields must not contain any data"@,
            *self == ShapeError::MissingDiscriminant ==> r@ == "enums must have explicit discriminants"@,
            *self == ShapeError::DiscriminantOutOfRange ==> r@ == "discriminant does not fit the tag type"@,
            *self == ShapeError::DuplicateDiscriminant ==> r@ == "discriminants must be distinct"@,
            *self == ShapeError::Repr(ReprError::Missing) ==> r@ == ReprError::Missing.message_spec(),
            *self == ShapeError::Repr(ReprError::Invalid) ==> r@ == ReprError::Invalid.message_spec(),
    {
        match self {
            ShapeError::Union => "only structs and enums have codecs",
            ShapeError::Repr(e) => e.message(),
            ShapeError::VariantWithFields => "enum fields must not contain any data",
            ShapeError::MissingDiscriminant => "enums must have explicit discriminants",
            ShapeError::DiscriminantOutOfRange => "discriminant does not fit the tag type",
            ShapeError::DuplicateDiscriminant => "discriminants must be distinct",
        }
    }
}

/// Whether some variant carries data.
pub open spec fn any_with_fields(vs: Seq<Variant>) -> bool {
    exists|i: int| 0 <= i < vs.len() && vs[i].has_fields
}

/// Whether some variant lacks an explicit discriminant.
pub open spec fn any_without_discriminant(vs: Seq<Variant>) -> bool {
    exists|i: int| 0 <= i < vs.len() && vs[i].discriminant is None
}

/// Whether some variant's discriminant is not a value of the tag type `t`.
pub open spec fn any_out_of_range(vs: Seq<Variant>, t: Repr) -> bool {
    exists|i: int|
        0 <= i < vs.len() && #[trigger] vs[i].discriminant is Some && !t.in_range(
            vs[i].discriminant->Some_0 as int,
        )
}

/// Whether two variants have the same discriminant.
pub open spec fn any_repeated(vs: Seq<Variant>) -> bool {
    exists|i: int, j: int|
        0 <= i < vs.len() && 0 <= j < vs.len() && i != j && #[trigger] vs[i].discriminant is Some
            && vs[i].discriminant == #[trigger] vs[j].discriminant
}

/// Whether every discriminant is a value of `t`.
fn all_in_range(ds: &Vec<i128>, t: Repr) -> (r: bool)
    ensures
        r == forall|i: int| 0 <= i < ds@.len() ==> t.in_range(#[trigger] ds@[i] as int),
{
    let mut i: usize = 0;
    while i < ds.len()
        invariant
            i <= ds@.len(),
            forall|j: int| 0 <= j < i ==> t.in_range(#[trigger] ds@[j] as int),
        decreases ds@.len() - i,
    {
        if !t.contains(ds[i]) {
            return false;
        }
        i = i + 1;
    }
    true
}

/// Whether the discriminants are pairwise distinct.
fn all_distinct(ds: &Vec<i128>) -> (r: bool)
    ensures
        r == ds@.no_duplicates(),
{
    let mut i: usize = 0;
    while i < ds.len()
        invariant
            i <= ds@.len(),
            forall|a: int, b: int| 0 <= a < i && 0 <= b < ds@.len() && a != b ==> ds@[a] != ds@[b],
        decreases ds@.len() - i,
    {
        let mut j: usize = 0;
        while j < ds.len()
            invariant
                i < ds@.len(),
                j <= ds@.len(),
                forall|a: int, b: int| 0 <= a < i && 0 <= b < ds@.len() && a != b ==> ds@[a] != ds@[b],
                forall|b: int| 0 <= b < j && b != i ==> ds@[i as int] != ds@[b],
            decreases ds@.len() - j,
        {
            if j != i && ds[i] == ds[j] {
                return false;
            }
            j = j + 1;
        }
        i = i + 1;
    }
    true
}

fn with_fields(vs: &Vec<Variant>) -> (r: bool)
    ensures
        r == any_with_fields(vs@),
{
    let mut i: usize = 0;
    while i < vs.len()
        invariant
            i <= vs@.len(),
            forall|j: int| 0 <= j < i ==> !vs@[j].has_fields,
        decreases vs@.len() - i,
    {
        if vs[i].has_fields {
            return true;
        }
        i = i + 1;
    }
    false
}

/// The variants' discriminants in declared order, if each has one.
fn discriminants(vs: &Vec<Variant>) -> (r: Option<Vec<i128>>)
    ensures
        r is None <==> any_without_discriminant(vs@),
        r matches Some(ds) ==> ds@.len() == vs@.len() && forall|i: int|
            0 <= i < vs@.len() ==> vs@[i].discriminant == Some(#[trigger] ds@[i]),
{
    let mut ds: Vec<i128> = Vec::new();
    let mut i: usize = 0;
    while i < vs.len()
        invariant
            i <= vs@.len(),
            ds@.len() == i,
            forall|j: int| 0 <= j < i ==> vs@[j].discriminant == Some(#[trigger] ds@[j]),
        decreases vs@.len() - i,
    {
        match vs[i].discriminant {
            Some(d) => ds.push(d),
            None => return None,
        }
        i = i + 1;
    }
    assert forall|j: int| 0 <= j < vs@.len() implies !(vs@[j].discriminant is None) by {
        assert(vs@[j].discriminant == Some(ds@[j]));
    }
    Some(ds)
}

/// The fields' schemas in declared order; their names are dropped.
fn field_schemas(fields: Vec<Field>) -> (r: Vec<Schema>)
    ensures
        r@.len() == fields@.len(),
        forall|i: int| 0 <= i < fields@.len() ==> #[trigger] r@[i] == fields@[i].schema,
{
    let ghost orig = fields@;
    let mut fields = fields;
    let mut out: Vec<Schema> = Vec::new();
    while fields.len() > 0
        invariant
            out@.len() + fields@.len() == orig.len(),
            forall|j: int| 0 <= j < out@.len() ==> #[trigger] out@[j] == orig[j].schema,
            forall|j: int| 0 <= j < fields@.len() ==> #[trigger] fields@[j] == orig[out@.len() + j],
        decreases fields@.len(),
    {
        let f = fields.remove(0);
        out.push(f.schema);
    }
    out
}

impl Schema {
    /// The schema of a declaration; `repr` is the enum's declared tag type,
    /// `None` where it declares none. A record's schema is its fields', in
    /// declared order, whether they are named or positional; an
    /// enum's is its tag type and its discriminants in declared order.
    /// Checked in this order: a union, the tag type, a variant with data, a
    /// variant without a discriminant, a discriminant that is no value of the
    /// tag type, two variants with the same discriminant.
    pub fn generate(shape: Shape, repr: Option<&str>) -> (r: Result<Schema, ShapeError>)
        ensures
            shape is Union ==> r == Err::<Schema, ShapeError>(ShapeError::Union),
            shape matches Shape::Struct(fs) ==> r matches Ok(Schema::Struct(gs)) && gs@.len()
                == fs@.len() && forall|i: int| 0 <= i < fs@.len() ==> #[trigger] gs@[i] == fs@[i].schema,
            shape matches Shape::Enum(vs) ==> {
                let named = match repr {
                    None => Err(ReprError::Missing),
                    Some(s) => match repr_named(s@) {
                        Some(t) => Ok(t),
                        None => Err(ReprError::Invalid),
                    },
                };
                if named is Err {
                    r == Err::<Schema, ShapeError>(ShapeError::Repr(named->Err_0))
                } else if any_with_fields(vs@) {
                    r == Err::<Schema, ShapeError>(ShapeError::VariantWithFields)
                } else if any_without_discriminant(vs@) {
                    r == Err::<Schema, ShapeError>(ShapeError::MissingDiscriminant)
                } else if any_out_of_range(vs@, named->Ok_0) {
                    r == Err::<Schema, ShapeError>(ShapeError::DiscriminantOutOfRange)
                } else if any_repeated(vs@) {
                    r == Err::<Schema, ShapeError>(ShapeError::DuplicateDiscriminant)
                } else {
                    r matches Ok(Schema::Enum(t, ds)) && Ok::<Repr, ReprError>(t) == named && ds@.len()
                        == vs@.len() && forall|i: int|
                        0 <= i < vs@.len() ==> vs@[i].discriminant == Some(#[trigger] ds@[i])
                }
            },
    {
        match shape {
            Shape::Union => Err(ShapeError::Union),
            Shape::Struct(fs) => Ok(Schema::Struct(field_schemas(fs))),
            Shape::Enum(vs) => {
                let tag = match Repr::parse(repr) {
                    Ok(t) => t,
                    Err(e) => return Err(ShapeError::Repr(e)),
                };
                if with_fields(&vs) {
                    return Err(ShapeError::VariantWithFields);
                }
                let ds = match discriminants(&vs) {
                    Some(ds) => ds,
                    None => return Err(ShapeError::MissingDiscriminant),
                };
                proof {
                    assert forall|i: int| 0 <= i < vs@.len() implies #[trigger] vs@[i].discriminant == Some(
                        ds@[i],
                    ) by {
                        assert(vs@[i].discriminant == Some(ds@[i]));
                    }
                }
                if !all_in_range(&ds, tag) {
                    proof {
                        let i = choose|i: int| 0 <= i < ds@.len() && !tag.in_range(#[trigger] ds@[i] as int);
                        assert(vs@[i].discriminant == Some(ds@[i]));
                    }
                    return Err(ShapeError::DiscriminantOutOfRange);
                }
                proof {
                    if any_out_of_range(vs@, tag) {
                        let i = choose|i: int|
                            0 <= i < vs@.len() && #[trigger] vs@[i].discriminant is Some && !tag.in_range(
                                vs@[i].discriminant->Some_0 as int,
                            );
                        assert(vs@[i].discriminant == Some(ds@[i]));
                        assert(tag.in_range(ds@[i] as int));
                    }
                }
                if !all_distinct(&ds) {
                    proof {
                        let (i, j) = choose|i: int, j: int|
                            0 <= i < ds@.len() && 0 <= j < ds@.len() && i != j && ds@[i] == ds@[j];
                        assert(vs@[i].discriminant == Some(ds@[i]));
                        assert(vs@[j].discriminant == Some(ds@[j]));
                    }
                    return Err(ShapeError::DuplicateDiscriminant);
                }
                proof {
                    if any_repeated(vs@) {
                        let (i, j) = choose|i: int, j: int|
                            0 <= i < vs@.len() && 0 <= j < vs@.len() && i != j && #[trigger] vs@[i].discriminant is Some
                                && vs@[i].discriminant == #[trigger] vs@[j].discriminant;
                        assert(vs@[i].discriminant == Some(ds@[i]));
                        assert(vs@[j].discriminant == Some(ds@[j]));
                        assert(ds@[i] != ds@[j]);
                    }
                }
                Ok(Schema::Enum(tag, ds))
            },
        }
    }
}

} // verus!
