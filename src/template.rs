//! Generic types: a template is a schema with holes for type parameters,
//! and instantiating it puts a schema into each hole, recursively.
use vstd::prelude::*;

use crate::repr::Repr;
use crate::schema::{arity, component, layout, layout_of, lemma_layout_step, Leaf, Schema};

verus! {

/// The shape of a generic type.
pub enum Template {
    Int(Repr),
    Struct(Vec<Template>),
    Enum(Repr, Vec<i128>),
    Array(Box<Template>, usize),
    /// The type parameter with this index.
    Param(usize),
}

pub open spec fn template_arity(t: Template) -> nat {
    match t {
        Template::Struct(ts) => ts@.len(),
        Template::Array(_, n) => n as nat,
        _ => 0,
    }
}

/// The leaves that the first `k` components of `t` have once each parameter
/// `i` is `args[i]`.
pub open spec fn template_layout_of(t: Template, args: Seq<Schema>, k: nat) -> Seq<Leaf>
    decreases t, k,
{
    match t {
        Template::Int(r) => seq![Leaf::Int(r)],
        Template::Enum(r, ds) => seq![Leaf::Tag(r, ds@)],
        Template::Param(i) => if i < args.len() {
            layout(args[i as int])
        } else {
            Seq::empty()
        },
        Template::Struct(ts) => {
            if k == 0 || k > ts@.len() {
                Seq::empty()
            } else {
                template_layout_of(t, args, (k - 1) as nat) + template_layout_of(
                    ts@[k - 1],
                    args,
                    template_arity(ts@[k - 1]),
                )
            }
        },
        Template::Array(e, n) => {
            if k == 0 || k > n {
                Seq::empty()
            } else {
                template_layout_of(t, args, (k - 1) as nat) + template_layout_of(
                    *e,
                    args,
                    template_arity(*e),
                )
            }
        },
    }
}

pub open spec fn template_layout(t: Template, args: Seq<Schema>) -> Seq<Leaf> {
    template_layout_of(t, args, template_arity(t))
}

/// Whether every parameter of `t` is below `n`.
pub open spec fn params_below(t: Template, n: nat) -> bool
    decreases t,
{
    match t {
        Template::Param(i) => i < n,
        Template::Struct(ts) => forall|j: int| 0 <= j < ts@.len() ==> params_below(#[trigger] ts@[j], n),
        Template::Array(e, _) => params_below(*e, n),
        _ => true,
    }
}

/// Two records or arrays whose components have the same leaves have the same
/// leaves.
proof fn lemma_same_layout(s1: Schema, s2: Schema, k: nat)
    requires
        s1 is Struct || s1 is Array,
        s2 is Struct || s2 is Array,
        k <= arity(s1),
        k <= arity(s2),
        forall|j: int| 0 <= j < k ==> layout(component(s1, j)) == layout(component(s2, j)),
    ensures
        layout_of(s1, k) == layout_of(s2, k),
    decreases k,
{
    if k > 0 {
        lemma_same_layout(s1, s2, (k - 1) as nat);
        lemma_layout_step(s1, (k - 1) as nat);
        lemma_layout_step(s2, (k - 1) as nat);
    }
}

/// A copy of a list of discriminants.
fn copy_discriminants(ds: &Vec<i128>) -> (r: Vec<i128>)
    ensures
        r@ == ds@,
{
    let mut copy: Vec<i128> = Vec::new();
    let mut i: usize = 0;
    while i < ds.len()
        invariant
            i <= ds@.len(),
            copy@ == ds@.take(i as int),
        decreases ds@.len() - i,
    {
        copy.push(ds[i]);
        i = i + 1;
        assert(copy@ =~= ds@.take(i as int));
    }
    assert(copy@ =~= ds@);
    copy
}

/// A copy of a schema, with the same leaves.
fn duplicate(s: &Schema) -> (r: Schema)
    ensures
        layout(r) == layout(*s),
    decreases *s,
{
    match s {
        Schema::Int(r) => Schema::Int(*r),
        Schema::Enum(r, ds) => {
            Schema::Enum(*r, copy_discriminants(ds))
        },
        Schema::Struct(fs) => {
            let mut gs: Vec<Schema> = Vec::new();
            let mut i: usize = 0;
            while i < fs.len()
                invariant
                    *s == Schema::Struct(*fs),
                    i <= fs@.len(),
                    gs@.len() == i,
                    forall|j: int| 0 <= j < i ==> layout(#[trigger] gs@[j]) == layout(fs@[j]),
                decreases fs@.len() - i,
            {
                let part: &Schema = match s {
                    Schema::Struct(fs) => &fs[i],
                    _ => s,
                };
                let g = duplicate(part);
                gs.push(g);
                i = i + 1;
            }
            let r = Schema::Struct(gs);
            proof {
                assert forall|j: int| 0 <= j < fs@.len() implies layout(component(r, j)) == layout(
                    component(*s, j),
                ) by {
                    assert(layout(gs@[j]) == layout(fs@[j]));
                }
                lemma_same_layout(r, *s, fs@.len());
            }
            r
        },
        Schema::Array(e, n) => {
            let r = Schema::Array(Box::new(duplicate(e)), *n);
            proof {
                lemma_same_layout(r, *s, *n as nat);
            }
            r
        },
    }
}

/// Adding component `i` of a template to the first `i`.
proof fn lemma_template_step(t: Template, args: Seq<Schema>, i: nat)
    requires
        i < template_arity(t),
    ensures
        template_layout_of(t, args, i + 1) == template_layout_of(t, args, i) + match t {
            Template::Struct(ts) => template_layout(ts@[i as int], args),
            Template::Array(e, _) => template_layout(*e, args),
            _ => Seq::empty(),
        },
{
}

impl Template {
    /// The schema of the generic type with each parameter `i` being
    /// `args[i]`; `None` where the template uses a parameter that `args` does
    /// not give.
    pub fn instantiate(&self, args: &Vec<Schema>) -> (r: Option<Schema>)
        ensures
            r is Some <==> params_below(*self, args@.len()),
            r matches Some(s) ==> layout(s) == template_layout(*self, args@),
        decreases *self,
    {
        match self {
            Template::Int(r) => Some(Schema::Int(*r)),
            Template::Enum(r, ds) => {
                Some(Schema::Enum(*r, copy_discriminants(ds)))
            },
            Template::Param(i) => {
                if *i < args.len() {
                    Some(duplicate(&args[*i]))
                } else {
                    None
                }
            },
            Template::Struct(ts) => {
                let mut gs: Vec<Schema> = Vec::new();
                let mut i: usize = 0;
                while i < ts.len()
                    invariant
                        *self == Template::Struct(*ts),
                        i <= ts@.len(),
                        gs@.len() == i,
                        forall|j: int| 0 <= j < i ==> params_below(#[trigger] ts@[j], args@.len()),
                        forall|j: int|
                            0 <= j < i ==> layout(#[trigger] gs@[j]) == template_layout(ts@[j], args@),
                    decreases ts@.len() - i,
                {
                    let part: &Template = match self {
                        Template::Struct(ts) => &ts[i],
                        _ => self,
                    };
                    match part.instantiate(args) {
                        Some(g) => gs.push(g),
                        None => return None,
                    }
                    i = i + 1;
                }
                let r = Schema::Struct(gs);
                proof {
                    lemma_template_matches(r, *self, args@, ts@.len());
                }
                Some(r)
            },
            Template::Array(e, n) => {
                match e.instantiate(args) {
                    Some(g) => {
                        let r = Schema::Array(Box::new(g), *n);
                        proof {
                            lemma_template_matches(r, *self, args@, *n as nat);
                        }
                        Some(r)
                    },
                    None => None,
                }
            },
        }
    }
}

/// A record or array whose components have the leaves of the template's
/// instantiated components has the template's leaves.
proof fn lemma_template_matches(s: Schema, t: Template, args: Seq<Schema>, k: nat)
    requires
        s is Struct || s is Array,
        t is Struct || t is Array,
        k <= arity(s),
        k <= template_arity(t),
        forall|j: int|
            0 <= j < k ==> layout(#[trigger] component(s, j)) == match t {
                Template::Struct(ts) => template_layout(ts@[j], args),
                Template::Array(e, _) => template_layout(*e, args),
                _ => Seq::empty(),
            },
    ensures
        layout_of(s, k) == template_layout_of(t, args, k),
    decreases k,
{
    if k > 0 {
        lemma_template_matches(s, t, args, (k - 1) as nat);
        lemma_layout_step(s, (k - 1) as nat);
        lemma_template_step(t, args, (k - 1) as nat);
        assert(layout(component(s, k - 1)) == match t {
            Template::Struct(ts) => template_layout(ts@[k - 1], args),
            Template::Array(e, _) => template_layout(*e, args),
            _ => Seq::empty(),
        });
    }
}

} // verus!
