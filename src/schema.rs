//! The schema-driven codec: a type's shape, walked at run time, gives its
//! encoding, decoding and size by composing the integer codecs.
//!
//! A value of a schema is held as the sequence of its primitive leaves in
//! declared order (depth first): one integer per integer field, and for an
//! enum its discriminant.
use vstd::prelude::*;

use crate::decode::Reader;
use crate::encode::Writer;
use crate::error::Error;
use crate::repr::{lemma_encoding_len, lemma_int_round_trip, Repr};

verus! {

/// The shape of a type.
pub enum Schema {
    /// One of the eight integer primitives.
    Int(Repr),
    /// A record: its fields' shapes in declared order. A record with no
    /// fields is a unit struct.
    Struct(Vec<Schema>),
    /// A tag-only enum: its tag type and each variant's discriminant, in
    /// declared order.
    Enum(Repr, Vec<i128>),
    /// A fixed-length array of elements of one shape.
    Array(Box<Schema>, usize),
}

/// A primitive slot of a flattened schema.
pub enum Leaf {
    /// An integer of the given type.
    Int(Repr),
    /// An enum tag of the given type, with the declared discriminants.
    Tag(Repr, Seq<i128>),
}

/// The number of components of a record or an array; zero for the others.
pub open spec fn arity(s: Schema) -> nat {
    match s {
        Schema::Struct(fs) => fs@.len(),
        Schema::Array(_, n) => n as nat,
        _ => 0,
    }
}

/// The leaves of the first `k` components of a record or an array, in order;
/// the one leaf of an integer or an enum.
pub open spec fn layout_of(s: Schema, k: nat) -> Seq<Leaf>
    decreases s, k,
{
    match s {
        Schema::Int(r) => seq![Leaf::Int(r)],
        Schema::Enum(r, ds) => seq![Leaf::Tag(r, ds@)],
        Schema::Struct(fs) => {
            if k == 0 || k > fs@.len() {
                Seq::empty()
            } else {
                layout_of(s, (k - 1) as nat) + layout_of(fs@[k - 1], arity(fs@[k - 1]))
            }
        },
        Schema::Array(e, n) => {
            if k == 0 || k > n {
                Seq::empty()
            } else {
                layout_of(s, (k - 1) as nat) + layout_of(*e, arity(*e))
            }
        },
    }
}

/// All leaves of a schema, in wire order.
pub open spec fn layout(s: Schema) -> Seq<Leaf> {
    layout_of(s, arity(s))
}

pub open spec fn leaf_width(l: Leaf) -> nat {
    match l {
        Leaf::Int(r) => r.width(),
        Leaf::Tag(r, _) => r.width(),
    }
}

/// Whether `v` may stand in the slot `l`.
pub open spec fn leaf_admits(l: Leaf, v: int) -> bool {
    match l {
        Leaf::Int(r) => r.in_range(v),
        Leaf::Tag(r, ds) => r.in_range(v) && ds.contains(v as i128),
    }
}

pub open spec fn leaf_encode(l: Leaf, v: int) -> Seq<u8> {
    match l {
        Leaf::Int(r) => r.encoding(v),
        Leaf::Tag(r, _) => r.encoding(v),
    }
}

/// Decoding one slot: an enum tag that is no declared discriminant is an
/// `InvalidVariant`, with the tag's bytes consumed.
pub open spec fn leaf_decode(l: Leaf, bytes: Seq<u8>) -> (Result<int, Error>, nat) {
    match l {
        Leaf::Int(r) => r.decoding(bytes),
        Leaf::Tag(r, ds) => {
            let (res, n) = r.decoding(bytes);
            match res {
                Ok(t) => if ds.contains(t as i128) {
                    (Ok(t), n)
                } else {
                    (Err(Error::InvalidVariant), n)
                },
                Err(e) => (Err(e), n),
            }
        },
    }
}

/// The summed widths of the slots.
pub open spec fn layout_size(ls: Seq<Leaf>) -> nat
    decreases ls.len(),
{
    if ls.len() == 0 {
        0
    } else {
        layout_size(ls.drop_last()) + leaf_width(ls.last())
    }
}

/// Whether `vs` fills the slots `ls`, one value each.
pub open spec fn admits(ls: Seq<Leaf>, vs: Seq<i128>) -> bool {
    &&& vs.len() == ls.len()
    &&& forall|i: int| 0 <= i < ls.len() ==> leaf_admits(#[trigger] ls[i], vs[i] as int)
}

/// The encodings of the values in their slots, one after the other.
pub open spec fn encode_leaves(ls: Seq<Leaf>, vs: Seq<i128>) -> Seq<u8>
    decreases ls.len(),
{
    if ls.len() == 0 || vs.len() == 0 {
        Seq::empty()
    } else {
        encode_leaves(ls.drop_last(), vs.drop_last()) + leaf_encode(ls.last(), vs.last() as int)
    }
}

/// Decoding the slots one after the other from the front of `bytes`; the
/// first failure ends it, with the bytes consumed up to and in it.
pub open spec fn decode_leaves(ls: Seq<Leaf>, bytes: Seq<u8>) -> (Result<Seq<i128>, Error>, nat)
    decreases ls.len(),
{
    if ls.len() == 0 {
        (Ok(Seq::empty()), 0)
    } else {
        let (r, k) = decode_leaves(ls.drop_last(), bytes);
        match r {
            Err(e) => (Err(e), k),
            Ok(vs) => {
                let (r2, k2) = leaf_decode(ls.last(), bytes.skip(k as int));
                match r2 {
                    Err(e) => (Err(e), k + k2),
                    Ok(v) => (Ok(vs.push(v as i128)), k + k2),
                }
            },
        }
    }
}

/// The leaves of the first `j` components come first among those of the
/// first `k`.
pub proof fn lemma_layout_prefix(s: Schema, j: nat, k: nat)
    requires
        j <= k <= arity(s),
    ensures
        layout_of(s, j).len() <= layout_of(s, k).len(),
        layout_of(s, k).take(layout_of(s, j).len() as int) == layout_of(s, j),
    decreases k,
{
    if j < k {
        lemma_layout_prefix(s, j, (k - 1) as nat);
        let p = layout_of(s, (k - 1) as nat);
        assert(layout_of(s, k).take(p.len() as int) =~= p);
        assert(layout_of(s, k).take(layout_of(s, j).len() as int) =~= p.take(
            layout_of(s, j).len() as int,
        ));
    } else {
        assert(layout_of(s, k).take(layout_of(s, k).len() as int) =~= layout_of(s, k));
    }
}

pub proof fn lemma_size_concat(a: Seq<Leaf>, b: Seq<Leaf>)
    ensures
        layout_size(a + b) == layout_size(a) + layout_size(b),
    decreases b.len(),
{
    if b.len() == 0 {
        assert(a + b =~= a);
    } else {
        lemma_size_concat(a, b.drop_last());
        assert((a + b).drop_last() =~= a + b.drop_last());
    }
}

pub proof fn lemma_encode_concat(a: Seq<Leaf>, b: Seq<Leaf>, vs: Seq<i128>)
    requires
        vs.len() == a.len() + b.len(),
    ensures
        encode_leaves(a + b, vs) == encode_leaves(a, vs.take(a.len() as int)) + encode_leaves(
            b,
            vs.skip(a.len() as int),
        ),
    decreases b.len(),
{
    if b.len() == 0 {
        assert(a + b =~= a);
        assert(vs.take(a.len() as int) =~= vs);
        assert(encode_leaves(a, vs) + Seq::<u8>::empty() =~= encode_leaves(a, vs));
    } else {
        lemma_encode_concat(a, b.drop_last(), vs.drop_last());
        assert((a + b).drop_last() =~= a + b.drop_last());
        assert(vs.drop_last().take(a.len() as int) =~= vs.take(a.len() as int));
        assert(vs.drop_last().skip(a.len() as int) =~= vs.skip(a.len() as int).drop_last());
        let ea = encode_leaves(a, vs.take(a.len() as int));
        let eb = encode_leaves(b.drop_last(), vs.skip(a.len() as int).drop_last());
        let el = leaf_encode(b.last(), vs.last() as int);
        assert(ea + eb + el =~= ea + (eb + el));
    }
}

/// Decoding never consumes more bytes than there are.
pub proof fn lemma_decode_consumes(ls: Seq<Leaf>, bytes: Seq<u8>)
    ensures
        decode_leaves(ls, bytes).1 <= bytes.len(),
    decreases ls.len(),
{
    if ls.len() > 0 {
        lemma_decode_consumes(ls.drop_last(), bytes);
    }
}

/// Decoding `a` then `b` from where `a` stopped.
pub open spec fn decode_then(
    first: (Result<Seq<i128>, Error>, nat),
    b: Seq<Leaf>,
    bytes: Seq<u8>,
) -> (Result<Seq<i128>, Error>, nat) {
    let (r, n) = first;
    match r {
        Err(e) => (Err(e), n),
        Ok(xs) => {
            let (r2, m) = decode_leaves(b, bytes.skip(n as int));
            match r2 {
                Err(e) => (Err(e), n + m),
                Ok(ys) => (Ok(xs + ys), n + m),
            }
        },
    }
}

pub proof fn lemma_decode_concat(a: Seq<Leaf>, b: Seq<Leaf>, bytes: Seq<u8>)
    ensures
        decode_leaves(a + b, bytes) == decode_then(decode_leaves(a, bytes), b, bytes),
    decreases b.len(),
{
    lemma_decode_consumes(a, bytes);
    let (ra, n) = decode_leaves(a, bytes);
    if b.len() == 0 {
        assert(a + b =~= a);
        if let Ok(xs) = ra {
            assert(xs + Seq::<i128>::empty() =~= xs);
        }
    } else {
        let b0 = b.drop_last();
        lemma_decode_concat(a, b0, bytes);
        assert((a + b).drop_last() =~= a + b0);
        assert((a + b).last() == b.last());
        if let Ok(xs) = ra {
            let rest = bytes.skip(n as int);
            lemma_decode_consumes(b0, rest);
            let (r2, m) = decode_leaves(b0, rest);
            assert(rest.skip(m as int) =~= bytes.skip((n + m) as int));
            if let Ok(ys) = r2 {
                let (r3, k3) = leaf_decode(b.last(), bytes.skip((n + m) as int));
                if let Ok(v) = r3 {
                    assert((xs + ys).push(v as i128) =~= xs + ys.push(v as i128));
                }
            }
        }
    }
}

/// Admissible values for two layouts, side by side, are admissible for the
/// two joined; and admissibility for a layout holds for each part of it.
pub proof fn lemma_admits_concat(a: Seq<Leaf>, b: Seq<Leaf>, vs: Seq<i128>)
    requires
        vs.len() == a.len() + b.len(),
    ensures
        admits(a + b, vs) <==> admits(a, vs.take(a.len() as int)) && admits(
            b,
            vs.skip(a.len() as int),
        ),
{
    let x = vs.take(a.len() as int);
    let y = vs.skip(a.len() as int);
    if admits(a, x) && admits(b, y) {
        assert forall|i: int| 0 <= i < (a + b).len() implies leaf_admits(#[trigger] (a + b)[i], vs[i] as int) by {
            if i < a.len() {
                assert(leaf_admits(a[i], x[i] as int));
            } else {
                assert(leaf_admits(b[i - a.len()], y[i - a.len()] as int));
            }
        }
    }
    if admits(a + b, vs) {
        assert forall|i: int| 0 <= i < a.len() implies leaf_admits(#[trigger] a[i], x[i] as int) by {
            assert(leaf_admits((a + b)[i], vs[i] as int));
        }
        assert forall|i: int| 0 <= i < b.len() implies leaf_admits(#[trigger] b[i], y[i] as int) by {
            assert(leaf_admits((a + b)[a.len() + i], vs[a.len() + i] as int));
        }
    }
}

/// Within admissible values for a whole schema, those of component `i` are
/// admissible for it.
proof fn lemma_admits_part(s: Schema, i: nat, values: Seq<i128>, start: int)
    requires
        i < arity(s),
        0 <= start,
        start + layout(s).len() <= values.len(),
        admits(layout(s), values.subrange(start, start + layout(s).len())),
    ensures
        ({
            let idx = start + layout_of(s, i).len();
            let b = layout(component(s, i as int));
            &&& idx + b.len() <= start + layout(s).len()
            &&& admits(b, values.subrange(idx, idx + b.len()))
        }),
{
    let all = layout(s);
    let a = layout_of(s, i);
    let b = layout(component(s, i as int));
    lemma_layout_step(s, i);
    lemma_layout_prefix(s, i + 1, arity(s));
    let c = all.skip((a + b).len() as int);
    assert(all =~= (a + b) + c);
    let vs = values.subrange(start, start + all.len());
    let w = vs.take((a + b).len() as int);
    lemma_admits_concat(a + b, c, vs);
    lemma_admits_concat(a, b, w);
    let idx = start + a.len();
    assert(w.skip(a.len() as int) =~= values.subrange(idx, idx + b.len()));
}

/// Admissible values for the first `i` components followed by admissible
/// values for component `i` are admissible for the first `i + 1`.
proof fn lemma_admits_extend(s: Schema, i: nat, values: Seq<i128>, start: int, next: int)
    requires
        i < arity(s),
        0 <= start,
        start + layout_of(s, i).len() + layout(component(s, i as int)).len() == next,
        next <= values.len(),
        admits(layout_of(s, i), values.subrange(start, start + layout_of(s, i).len())),
        admits(
            layout(component(s, i as int)),
            values.subrange(start + layout_of(s, i).len(), next),
        ),
    ensures
        next == start + layout_of(s, i + 1).len(),
        admits(layout_of(s, i + 1), values.subrange(start, next)),
{
    let a = layout_of(s, i);
    let b = layout(component(s, i as int));
    lemma_layout_step(s, i);
    let vs = values.subrange(start, next);
    assert(vs.take(a.len() as int) =~= values.subrange(start, start + a.len()));
    assert(vs.skip(a.len() as int) =~= values.subrange(start + a.len(), next));
    lemma_admits_concat(a, b, vs);
}

/// An admissible value in its slot decodes back from its encoding.
pub proof fn lemma_leaf_round_trip(l: Leaf, v: int, rest: Seq<u8>)
    requires
        leaf_admits(l, v),
    ensures
        leaf_encode(l, v).len() == leaf_width(l),
        leaf_decode(l, leaf_encode(l, v) + rest) == (Ok::<int, Error>(v), leaf_width(l)),
{
    match l {
        Leaf::Int(r) => {
            lemma_encoding_len(r, v);
            lemma_int_round_trip(r, v, rest);
        },
        Leaf::Tag(r, ds) => {
            lemma_encoding_len(r, v);
            lemma_int_round_trip(r, v, rest);
        },
    }
}

/// Encoding admissible values is as long as the layout's size, and decoding
/// it, whatever follows, gives the values back and consumes exactly it.
pub proof fn lemma_leaves_round_trip(ls: Seq<Leaf>, vs: Seq<i128>, rest: Seq<u8>)
    requires
        admits(ls, vs),
    ensures
        encode_leaves(ls, vs).len() == layout_size(ls),
        decode_leaves(ls, encode_leaves(ls, vs) + rest) == (Ok::<Seq<i128>, Error>(vs), layout_size(ls)),
    decreases ls.len(),
{
    if ls.len() == 0 {
        assert(vs =~= Seq::<i128>::empty());
    } else {
        let l0 = ls.drop_last();
        let v0 = vs.drop_last();
        let el = leaf_encode(ls.last(), vs.last() as int);
        assert(admits(l0, v0)) by {
            assert forall|i: int| 0 <= i < l0.len() implies leaf_admits(#[trigger] l0[i], v0[i] as int) by {
                assert(l0[i] == ls[i]);
            }
        }
        assert(leaf_admits(ls[ls.len() - 1], vs[ls.len() - 1] as int));
        lemma_leaves_round_trip(l0, v0, el + rest);
        lemma_leaf_round_trip(ls.last(), vs.last() as int, rest);
        let e0 = encode_leaves(l0, v0);
        let all = encode_leaves(ls, vs) + rest;
        assert(all =~= e0 + (el + rest));
        assert(all.skip(e0.len() as int) =~= el + rest);
        assert(v0.push(vs.last()) =~= vs);
        assert(vs.last() as int as i128 == vs.last());
    }
}

/// The component `i` of a record or an array.
pub open spec fn component(s: Schema, i: int) -> Schema {
    match s {
        Schema::Struct(fs) => fs@[i],
        Schema::Array(e, _) => *e,
        _ => s,
    }
}

pub proof fn lemma_layout_step(s: Schema, i: nat)
    requires
        i < arity(s),
    ensures
        layout_of(s, i + 1) == layout_of(s, i) + layout(component(s, i as int)),
{
}

/// An integer or an enum is one slot.
pub proof fn lemma_single_leaf(s: Schema, vs: Seq<i128>)
    requires
        s is Int || s is Enum,
        vs.len() == 1,
    ensures
        layout(s).len() == 1,
        layout(s).drop_last() =~= Seq::<Leaf>::empty(),
        layout_size(layout(s)) == leaf_width(layout(s)[0]),
        leaf_width(layout(s)[0]) == match s {
            Schema::Int(r) => r.width(),
            Schema::Enum(r, _) => r.width(),
            _ => 0,
        },
        encode_leaves(layout(s), vs) == leaf_encode(layout(s)[0], vs[0] as int),
        admits(layout(s), vs) ==> match s {
            Schema::Int(r) => r.in_range(vs[0] as int),
            Schema::Enum(r, _) => r.in_range(vs[0] as int),
            _ => true,
        },
        leaf_encode(layout(s)[0], vs[0] as int) == match s {
            Schema::Int(r) => r.encoding(vs[0] as int),
            Schema::Enum(r, _) => r.encoding(vs[0] as int),
            _ => Seq::empty(),
        },
{
    let l = layout(s);
    assert(l.drop_last() =~= Seq::<Leaf>::empty());
    assert(layout_size(l.drop_last()) == 0);
    assert(encode_leaves(l.drop_last(), vs.drop_last()) == Seq::<u8>::empty());
    assert(Seq::<u8>::empty() + leaf_encode(l[0], vs[0] as int) =~= leaf_encode(l[0], vs[0] as int));
    if admits(l, vs) {
        assert(leaf_admits(l[0], vs[0] as int));
    }
}

/// Whether `v` is one of the discriminants `ds`, tested in declared order.
fn declares(ds: &Vec<i128>, v: i128) -> (r: bool)
    ensures
        r == ds@.contains(v),
{
    let mut j: usize = 0;
    while j < ds.len()
        invariant
            j <= ds@.len(),
            forall|q: int| 0 <= q < j ==> ds@[q] != v,
        decreases ds@.len() - j,
    {
        if ds[j] == v {
            return true;
        }
        j = j + 1;
    }
    false
}

/// Adding component `i` to the first `i`: its leaves follow theirs, and
/// they all come before the rest of the schema's.
proof fn lemma_part(s: Schema, i: nat, bytes: Seq<u8>)
    requires
        i < arity(s),
    ensures
        layout_of(s, i + 1) == layout_of(s, i) + layout(component(s, i as int)),
        layout_size(layout_of(s, i + 1)) == layout_size(layout_of(s, i)) + layout_size(
            layout(component(s, i as int)),
        ),
        layout_size(layout_of(s, i + 1)) <= layout_size(layout(s)),
        decode_leaves(layout_of(s, i + 1), bytes) == decode_then(
            decode_leaves(layout_of(s, i), bytes),
            layout(component(s, i as int)),
            bytes,
        ),
        decode_leaves(layout_of(s, i + 1), bytes).0 is Err ==> decode_leaves(layout(s), bytes)
            == decode_leaves(layout_of(s, i + 1), bytes),
{
    let a = layout_of(s, i);
    let b = layout(component(s, i as int));
    let all = layout(s);
    lemma_layout_step(s, i);
    lemma_size_concat(a, b);
    lemma_decode_concat(a, b, bytes);
    lemma_layout_prefix(s, i + 1, arity(s));
    let c = all.skip((a + b).len() as int);
    assert(all =~= (a + b) + c);
    lemma_size_concat(a + b, c);
    lemma_decode_concat(a + b, c, bytes);
}

/// Decoding an integer or an enum is decoding its one slot.
pub proof fn lemma_single_leaf_decode(s: Schema, bytes: Seq<u8>)
    requires
        s is Int || s is Enum,
    ensures
        decode_leaves(layout(s), bytes) == match leaf_decode(layout(s)[0], bytes) {
            (Ok(v), n) => (Ok::<Seq<i128>, Error>(seq![v as i128]), n),
            (Err(e), n) => (Err::<Seq<i128>, Error>(e), n),
        },
{
    let l = layout(s);
    assert(l.drop_last() =~= Seq::<Leaf>::empty());
    assert(decode_leaves(l.drop_last(), bytes) == (Ok::<Seq<i128>, Error>(Seq::empty()), 0nat));
    assert(bytes.skip(0) =~= bytes);
    assert(l.last() == l[0]);
    let (r, n) = leaf_decode(l[0], bytes);
    if r is Ok {
        let w = (r->Ok_0) as i128;
        assert(Seq::<i128>::empty().push(w) =~= seq![w]);
    }
}

impl Schema {
    /// The number of bytes that every value of the schema takes.
    pub open spec fn spec_size(self) -> nat {
        layout_size(layout(self))
    }

    /// The wire bytes of `values`.
    pub open spec fn spec_encode(self, values: Seq<i128>) -> Seq<u8> {
        encode_leaves(layout(self), values)
    }

    /// Decoding a value from the front of `bytes`: the result, and how many
    /// bytes the cursor moves.
    pub open spec fn spec_decode(self, bytes: Seq<u8>) -> (Result<Seq<i128>, Error>, nat) {
        decode_leaves(layout(self), bytes)
    }

    /// Whether `values` is a value of the schema: one admissible integer per
    /// leaf.
    pub open spec fn spec_admits(self, values: Seq<i128>) -> bool {
        admits(layout(self), values)
    }

    fn arity_of(&self) -> (r: usize)
        ensures
            r == arity(*self),
    {
        match self {
            Schema::Struct(fs) => fs.len(),
            Schema::Array(_, n) => *n,
            _ => 0,
        }
    }

    fn encode_from(&self, values: &Vec<i128>, start: usize, writer: &mut Writer) -> (next: usize)
        requires
            start + layout(*self).len() <= values@.len(),
            admits(layout(*self), values@.subrange(start as int, start + layout(*self).len())),
        ensures
            next == start + layout(*self).len(),
            final(writer)@ == old(writer)@ + encode_leaves(
                layout(*self),
                values@.subrange(start as int, next as int),
            ),
        decreases *self,
    {
        match self {
            Schema::Int(r) | Schema::Enum(r, _) => {
                proof {
                    lemma_single_leaf(*self, values@.subrange(start as int, start + 1));
                    // a `Vec`'s length is a `usize`, so the next index fits
                    assert(start + 1 <= values.len());
                }
                writer.write_int(*r, values[start]);
                start + 1
            },
            _ => {
                let n = self.arity_of();
                let ghost all = layout(*self);
                let ghost vals = values@.subrange(start as int, start + all.len());
                let mut idx = start;
                let mut i: usize = 0;
                assert(values@.subrange(start as int, start as int) =~= Seq::<i128>::empty());
                assert(writer@ =~= old(writer)@ + encode_leaves(layout_of(*self, 0), Seq::<i128>::empty()));
                while i < n
                    invariant
                        n == arity(*self),
                        all == layout(*self),
                        self is Struct || self is Array,
                        start + all.len() <= values@.len(),
                        vals == values@.subrange(start as int, start + all.len()),
                        admits(all, vals),
                        i <= n,
                        idx == start + layout_of(*self, i as nat).len(),
                        idx <= start + all.len(),
                        writer@ == old(writer)@ + encode_leaves(
                            layout_of(*self, i as nat),
                            values@.subrange(start as int, idx as int),
                        ),
                    decreases n - i,
                {
                    let part: &Schema = match self {
                        Schema::Struct(fs) => &fs[i],
                        Schema::Array(e, _) => e,
                        _ => self,
                    };
                    let ghost a = layout_of(*self, i as nat);
                    let ghost b = layout(*part);
                    proof {
                        assert(*part == component(*self, i as int));
                        lemma_layout_step(*self, i as nat);
                        lemma_admits_part(*self, i as nat, values@, start as int);
                    }
                    let next = part.encode_from(values, idx, writer);
                    proof {
                        let vs = values@.subrange(start as int, next as int);
                        lemma_encode_concat(a, b, vs);
                        assert(vs.take(a.len() as int) =~= values@.subrange(start as int, idx as int));
                        assert(vs.skip(a.len() as int) =~= values@.subrange(idx as int, next as int));
                    }
                    idx = next;
                    i = i + 1;
                }
                idx
            },
        }
    }

    /// Appends the encoding of `values`: each leaf's integer, little-endian,
    /// in declared field order, with no padding.
    pub fn encode(&self, values: &Vec<i128>, writer: &mut Writer)
        requires
            self.spec_admits(values@),
        ensures
            final(writer)@ == old(writer)@ + self.spec_encode(values@),
    {
        self.encode_from(values, 0, writer);
        assert(values@.subrange(0, values@.len() as int) =~= values@);
    }

    fn decode_into(&self, reader: &mut Reader, out: &mut Vec<i128>) -> (r: Result<(), Error>)
        ensures
            final(reader).data() == old(reader).data(),
            final(reader).pos() == old(reader).pos() + self.spec_decode(old(reader).rest()).1,
            match self.spec_decode(old(reader).rest()).0 {
                Ok(vs) => r is Ok && final(out)@ == old(out)@ + vs,
                Err(e) => r == Err::<(), Error>(e),
            },
        decreases *self,
    {
        match self {
            Schema::Int(r) => {
                proof {
                    lemma_single_leaf_decode(*self, old(reader).rest());
                }
                let v = reader.read_int(*r)?;
                out.push(v);
                Ok(())
            },
            Schema::Enum(r, ds) => {
                proof {
                    lemma_single_leaf_decode(*self, old(reader).rest());
                }
                let v = reader.read_int(*r)?;
                if declares(ds, v) {
                    out.push(v);
                    Ok(())
                } else {
                    Err(Error::InvalidVariant)
                }
            },
            _ => {
                let n = self.arity_of();
                let ghost all = layout(*self);
                let ghost start = old(reader).rest();
                let ghost begin = old(reader).pos();
                let ghost o0 = old(out)@;
                // `position` also tells the proof that the cursor is within the buffer.
                reader.position();
                assert(start.skip(0) =~= start);
                assert(out@.skip(o0.len() as int) =~= Seq::<i128>::empty());
                let mut i: usize = 0;
                while i < n
                    invariant
                        n == arity(*self),
                        all == layout(*self),
                        self is Struct || self is Array,
                        i <= n,
                        reader.data() == old(reader).data(),
                        start == old(reader).rest(),
                        begin == old(reader).pos(),
                        begin <= reader.pos() <= reader.data().len(),
                        reader.rest() == start.skip(reader.pos() - begin),
                        o0 == old(out)@,
                        o0.len() <= out@.len(),
                        out@.take(o0.len() as int) == o0,
                        decode_leaves(layout_of(*self, i as nat), start) == (
                            Ok::<Seq<i128>, Error>(out@.skip(o0.len() as int)),
                            (reader.pos() - begin) as nat,
                        ),
                    decreases n - i,
                {
                    let part: &Schema = match self {
                        Schema::Struct(fs) => &fs[i],
                        Schema::Array(e, _) => e,
                        _ => self,
                    };
                    let ghost a = layout_of(*self, i as nat);
                    let ghost b = layout(*part);
                    let ghost before = out@;
                    let ghost k = (reader.pos() - begin) as nat;
                    proof {
                        assert(*part == component(*self, i as int));
                        lemma_part(*self, i as nat, start);
                    }
                    let res = part.decode_into(reader, out);
                    reader.position();
                    match res {
                        Ok(()) => {
                            proof {
                                let ys = out@.skip(before.len() as int);
                                assert(out@ =~= before + ys);
                                let rb = decode_leaves(b, start.skip(k as int)).0;
                                assert(rb is Ok);
                                let vs = rb->Ok_0;
                                assert(out@ == before + vs);
                                assert(ys =~= vs);
                                assert(out@.take(o0.len() as int) =~= o0);
                                assert(out@.skip(o0.len() as int) =~= before.skip(o0.len() as int) + ys);
                                assert(reader.rest() =~= start.skip(reader.pos() - begin));
                            }
                            i = i + 1;
                        },
                        Err(e) => {
                            return Err(e);
                        },
                    }
                }
                assert(layout_of(*self, n as nat) == all);
                Ok(())
            },
        }
    }

    /// Decodes a value at the reader's cursor: each leaf in declared order,
    /// stopping at the first failure. An enum tag that matches no declared
    /// discriminant is an `InvalidVariant`, with the tag consumed; a leaf
    /// with too few bytes left is an `Overflow` that consumes nothing.
    pub fn decode(&self, reader: &mut Reader) -> (r: Result<Vec<i128>, Error>)
        ensures
            final(reader).data() == old(reader).data(),
            final(reader).pos() == old(reader).pos() + self.spec_decode(old(reader).rest()).1,
            match self.spec_decode(old(reader).rest()).0 {
                Ok(vs) => r matches Ok(out) && out@ == vs,
                Err(e) => r == Err::<Vec<i128>, Error>(e),
            },
    {
        let mut out: Vec<i128> = Vec::new();
        match self.decode_into(reader, &mut out) {
            Ok(()) => {
                assert(out@ =~= Seq::<i128>::empty() + out@);
                Ok(out)
            },
            Err(e) => Err(e),
        }
    }

    /// The number of bytes that every value of the schema takes.
    pub fn size(&self) -> (r: usize)
        requires
            self.spec_size() <= usize::MAX,
        ensures
            r == self.spec_size(),
        decreases *self,
    {
        match self {
            Schema::Int(r) => {
                proof {
                    lemma_single_leaf(*self, seq![0i128]);
                }
                r.size()
            },
            Schema::Enum(r, _) => {
                proof {
                    lemma_single_leaf(*self, seq![0i128]);
                }
                r.size()
            },
            _ => {
                let n = self.arity_of();
                let ghost all = layout(*self);
                let mut total: usize = 0;
                let mut i: usize = 0;
                while i < n
                    invariant
                        n == arity(*self),
                        all == layout(*self),
                        layout_size(all) <= usize::MAX,
                        self is Struct || self is Array,
                        i <= n,
                        total == layout_size(layout_of(*self, i as nat)),
                    decreases n - i,
                {
                    let part: &Schema = match self {
                        Schema::Struct(fs) => &fs[i],
                        Schema::Array(e, _) => e,
                        _ => self,
                    };
                    proof {
                        assert(*part == component(*self, i as int));
                        lemma_part(*self, i as nat, Seq::empty());
                    }
                    total = total + part.size();
                    i = i + 1;
                }
                total
            },
        }
    }

    fn admits_from(&self, values: &Vec<i128>, start: usize) -> (r: Option<usize>)
        requires
            start <= values@.len(),
        ensures
            r is Some <==> start + layout(*self).len() <= values@.len() && admits(
                layout(*self),
                values@.subrange(start as int, start + layout(*self).len()),
            ),
            r matches Some(next) ==> next == start + layout(*self).len(),
        decreases *self,
    {
        match self {
            Schema::Int(r) => {
                if start >= values.len() {
                    return None;
                }
                proof {
                    lemma_single_leaf(*self, values@.subrange(start as int, start + 1));
                    assert(admits(layout(*self), values@.subrange(start as int, start + 1))
                        <== r.in_range(values@[start as int] as int));
                }
                if r.contains(values[start]) {
                    Some(start + 1)
                } else {
                    None
                }
            },
            Schema::Enum(r, ds) => {
                if start >= values.len() {
                    return None;
                }
                proof {
                    lemma_single_leaf(*self, values@.subrange(start as int, start + 1));
                    let l = layout(*self);
                    assert(admits(l, values@.subrange(start as int, start + 1)) <==> leaf_admits(
                        l[0],
                        values@[start as int] as int,
                    ));
                }
                let v = values[start];
                if r.contains(v) && declares(ds, v) {
                    Some(start + 1)
                } else {
                    None
                }
            },
            _ => {
                let n = self.arity_of();
                let ghost all = layout(*self);
                let mut idx = start;
                let mut i: usize = 0;
                assert(values@.subrange(start as int, start as int) =~= Seq::<i128>::empty());
                while i < n
                    invariant
                        n == arity(*self),
                        all == layout(*self),
                        self is Struct || self is Array,
                        start <= values@.len(),
                        i <= n,
                        idx == start + layout_of(*self, i as nat).len(),
                        idx <= values@.len(),
                        admits(layout_of(*self, i as nat), values@.subrange(start as int, idx as int)),
                    decreases n - i,
                {
                    let part: &Schema = match self {
                        Schema::Struct(fs) => &fs[i],
                        Schema::Array(e, _) => e,
                        _ => self,
                    };
                    proof {
                        assert(*part == component(*self, i as int));
                    }
                    match part.admits_from(values, idx) {
                        Some(next) => {
                            proof {
                                lemma_admits_extend(*self, i as nat, values@, start as int, next as int);
                            }
                            idx = next;
                            i = i + 1;
                        },
                        None => {
                            proof {
                                if start + all.len() <= values@.len() && admits(
                                    all,
                                    values@.subrange(start as int, start + all.len()),
                                ) {
                                    lemma_admits_part(*self, i as nat, values@, start as int);
                                }
                            }
                            return None;
                        },
                    }
                }
                Some(idx)
            },
        }
    }

    /// Whether `values` is a value of the schema: one integer per leaf, each
    /// in its type's range, and each enum leaf a declared discriminant. This
    /// is what `encode` requires.
    pub fn admits(&self, values: &Vec<i128>) -> (r: bool)
        ensures
            r == self.spec_admits(values@),
    {
        let r = self.admits_from(values, 0);
        assert(values@.subrange(0, values@.len() as int) =~= values@);
        match r {
            Some(next) => next == values.len(),
            None => false,
        }
    }
}

} // verus!
