//! What holds of every schema: encoding, decoding and size agree.
use vstd::prelude::*;

use crate::error::Error;
use crate::repr::{lemma_modulus_values, Repr};
use crate::template::{template_layout, template_layout_of, Template};
use crate::schema::{layout, leaf_admits, lemma_leaves_round_trip, lemma_single_leaf, lemma_single_leaf_decode, Leaf, Schema};

verus! {

/// For every schema and every value of it, the encoding is exactly
/// `spec_size` bytes long, whichever values (and enum variants) it holds;
/// and decoding the encoding, whatever follows it, gives back the same
/// values in the same order and consumes exactly the encoding.
pub proof fn lemma_schema_round_trip(s: Schema, values: Seq<i128>, rest: Seq<u8>)
    requires
        s.spec_admits(values),
    ensures
        s.spec_encode(values).len() == s.spec_size(),
        s.spec_decode(s.spec_encode(values) + rest) == (Ok::<Seq<i128>, Error>(values), s.spec_size()),
{
    lemma_leaves_round_trip(layout(s), values, rest);
}

/// A record with no fields encodes to no bytes, has size zero, and decodes
/// from any bytes without consuming any.
pub proof fn lemma_unit_struct(s: Schema, bytes: Seq<u8>)
    requires
        s matches Schema::Struct(fs) && fs@.len() == 0,
    ensures
        s.spec_size() == 0,
        s.spec_admits(Seq::empty()),
        s.spec_encode(Seq::empty()) == Seq::<u8>::empty(),
        s.spec_decode(bytes) == (Ok::<Seq<i128>, Error>(Seq::empty()), 0nat),
{
    assert(layout(s) =~= Seq::empty());
}

/// An enum encodes as its tag alone, and its size is the tag's width. A tag
/// that is a declared discriminant decodes to itself; any other tag is an
/// `InvalidVariant` that consumes the tag.
pub proof fn lemma_enum_tag(s: Schema, d: i128, bytes: Seq<u8>)
    requires
        s matches Schema::Enum(r, ds) && r.in_range(d as int),
    ensures
        s matches Schema::Enum(r, ds) && {
            &&& s.spec_size() == r.width()
            &&& ds@.contains(d) ==> s.spec_admits(seq![d]) && s.spec_encode(seq![d]) == r.encoding(d as int)
            &&& bytes.len() >= r.width() ==> {
                let t = r.decoding(bytes).0->Ok_0;
                &&& ds@.contains(t as i128) ==> s.spec_decode(bytes) == (Ok::<Seq<i128>, Error>(seq![t as i128]), r.width())
                &&& !ds@.contains(t as i128) ==> s.spec_decode(bytes) == (Err::<Seq<i128>, Error>(Error::InvalidVariant), r.width())
            }
        },
{
    if let Schema::Enum(r, ds) = s {
        lemma_single_leaf(s, seq![d]);
        lemma_single_leaf_decode(s, bytes);
        lemma_modulus_values(r);
        if ds@.contains(d) {
            assert(leaf_admits(layout(s)[0], d as int));
        }
    }
}

/// Decoding an integer from fewer bytes than its width fails with
/// `Overflow` and consumes nothing, so the same bytes are there for the next
/// attempt; the same holds of a schema that is that integer.
pub proof fn lemma_int_overflow(r: Repr, bytes: Seq<u8>)
    requires
        bytes.len() < r.width(),
    ensures
        r.decoding(bytes) == (Err::<int, Error>(Error::Overflow), 0nat),
        Schema::Int(r).spec_decode(bytes) == (Err::<Seq<i128>, Error>(Error::Overflow), 0nat),
{
    lemma_single_leaf_decode(Schema::Int(r), bytes);
}

/// A generic record whose one field has the type of its parameter,
/// instantiated with any schema, has that schema's leaves: so the same size,
/// the same encoding, and the same decoding.
pub proof fn lemma_generic_wrapper(t: Template, arg: Schema)
    requires
        t matches Template::Struct(ts) && ts@.len() == 1 && ts@[0] == Template::Param(0),
    ensures
        template_layout(t, seq![arg]) == layout(arg),
{
    let args = seq![arg];
    assert(args[0] == arg);
    assert(template_layout_of(Template::Param(0), args, 0) == layout(arg));
    assert(template_layout_of(t, args, 0) == Seq::<Leaf>::empty());
    assert(template_layout_of(t, args, 1) == template_layout_of(t, args, 0) + layout(arg));
    assert(Seq::<Leaf>::empty() + layout(arg) =~= layout(arg));
}

} // verus!
