//! Nominal type identities and semantic types.

use crate::text::{own, put};
use vstd::prelude::*;

verus! {

/// Identity of a nominal type: the context instance that declares it, and its name.
#[derive(Debug)]
pub struct TypeId {
    /// The declaring context instance.
    pub ctx: String,
    /// The declared name.
    pub name: String,
}

/// The mathematical content of a [`TypeId`].
pub ghost struct Tid {
    pub ctx: Seq<char>,
    pub name: Seq<char>,
}

impl View for TypeId {
    type V = Tid;

    open spec fn view(&self) -> Tid {
        Tid { ctx: self.ctx@, name: self.name@ }
    }
}

impl Clone for TypeId {
    fn clone(&self) -> (r: TypeId)
        ensures
            r@ == self@,
    {
        TypeId { ctx: self.ctx.clone(), name: self.name.clone() }
    }
}

/// The printed form of a type identity: bare for the prelude, qualified otherwise.
pub open spec fn tid_text(t: Tid) -> Seq<char> {
    if t.ctx == "prelude"@ {
        t.name
    } else {
        t.ctx + "!"@ + t.name
    }
}

impl TypeId {
    /// Whether two identities are the same.
    pub fn same(&self, o: &TypeId) -> (r: bool)
        ensures
            r == (self@ == o@),
    {
        self.ctx == o.ctx && self.name == o.name
    }

    /// The printed form.
    pub fn text(&self) -> (r: String)
        ensures
            r@ == tid_text(self@),
    {
        if self.ctx == own("prelude") {
            self.name.clone()
        } else {
            let mut out = self.ctx.clone();
            put(&mut out, "!");
            put(&mut out, self.name.as_str());
            out
        }
    }
}



/// A semantic type: a type up to its predicates. Numeric types are all one type.
#[derive(Debug)]
pub enum SemType {
    Bool,
    /// Every numeric type.
    Number,
    /// An enumeration.
    Scalar(TypeId),
    /// A datatype.
    Datatype(TypeId),
    /// A type without a definition.
    Uninterp(TypeId),
    /// An array, from its index type to its element type.
    Array(Box<SemType>, Box<SemType>),
    /// A function, from its domain to its range.
    Fun(Box<SemType>, Box<SemType>),
    Tuple(Vec<SemType>),
    /// A record, its fields sorted by name.
    Record(Vec<(String, SemType)>),
    /// The states of a module.
    State,
    /// Compatible with every type.
    Any,
}

/// The mathematical content of a [`SemType`].
pub ghost enum ST {
    Bool,
    Number,
    Scalar(Tid),
    Datatype(Tid),
    Uninterp(Tid),
    Array(Box<ST>, Box<ST>),
    Fun(Box<ST>, Box<ST>),
    Tuple(Seq<ST>),
    Record(Seq<(Seq<char>, ST)>),
    State,
    Any,
}

impl SemType {
    /// The content.
    pub open spec fn model(&self) -> ST
        decreases self,
    {
        match self {
            SemType::Bool => ST::Bool,
            SemType::Number => ST::Number,
            SemType::Scalar(t) => ST::Scalar(t@),
            SemType::Datatype(t) => ST::Datatype(t@),
            SemType::Uninterp(t) => ST::Uninterp(t@),
            SemType::Array(a, b) => ST::Array(Box::new(a.model()), Box::new(b.model())),
            SemType::Fun(a, b) => ST::Fun(Box::new(a.model()), Box::new(b.model())),
            SemType::Tuple(v) => ST::Tuple(sem_models(v@)),
            SemType::Record(v) => ST::Record(sem_fields(v@)),
            SemType::State => ST::State,
            SemType::Any => ST::Any,
        }
    }
}

/// The contents of types.
pub open spec fn sem_models(v: Seq<SemType>) -> Seq<ST>
    decreases v,
{
    Seq::new(
        v.len(),
        |i: int|
            if 0 <= i < v.len() {
                v[i].model()
            } else {
                arbitrary()
            },
    )
}

/// The contents of fields.
pub open spec fn sem_fields(v: Seq<(String, SemType)>) -> Seq<(Seq<char>, ST)>
    decreases v,
{
    Seq::new(
        v.len(),
        |i: int|
            if 0 <= i < v.len() {
                (v[i].0@, v[i].1.model())
            } else {
                arbitrary()
            },
    )
}

/// Two types are compatible: they agree, where `Any` agrees with every type and an array with the
/// function from its index type to its element type.
pub open spec fn agrees(a: ST, b: ST) -> bool
    decreases a,
{
    match (a, b) {
        (ST::Any, _) => true,
        (_, ST::Any) => true,
        (ST::Bool, ST::Bool) => true,
        (ST::Number, ST::Number) => true,
        (ST::Scalar(x), ST::Scalar(y)) => x == y,
        (ST::Datatype(x), ST::Datatype(y)) => x == y,
        (ST::Uninterp(x), ST::Uninterp(y)) => x == y,
        (ST::Array(i, e), ST::Array(j, f)) => agrees(*i, *j) && agrees(*e, *f),
        (ST::Array(i, e), ST::Fun(j, f)) => agrees(*i, *j) && agrees(*e, *f),
        (ST::Fun(i, e), ST::Array(j, f)) => agrees(*i, *j) && agrees(*e, *f),
        (ST::Fun(i, e), ST::Fun(j, f)) => agrees(*i, *j) && agrees(*e, *f),
        (ST::Tuple(x), ST::Tuple(y)) => agree_from(x, y, 0),
        (ST::Record(x), ST::Record(y)) => agree_fields_from(x, y, 0),
        (ST::State, ST::State) => true,
        _ => false,
    }
}

/// The types from `k` on are as many and agree one by one.
pub open spec fn agree_from(x: Seq<ST>, y: Seq<ST>, k: int) -> bool
    decreases x, x.len() - k,
{
    if k < 0 || x.len() != y.len() {
        false
    } else if k >= x.len() {
        true
    } else {
        agrees(x[k], y[k]) && agree_from(x, y, k + 1)
    }
}

/// The fields from `k` on are as many, and agree one by one in name and type.
pub open spec fn agree_fields_from(x: Seq<(Seq<char>, ST)>, y: Seq<(Seq<char>, ST)>, k: int) -> bool
    decreases x, x.len() - k,
{
    if k < 0 || x.len() != y.len() {
        false
    } else if k >= x.len() {
        true
    } else {
        x[k].0 == y[k].0 && agrees(x[k].1, y[k].1) && agree_fields_from(x, y, k + 1)
    }
}

/// Every type agrees with itself.
pub proof fn agrees_reflexive(a: ST)
    ensures
        agrees(a, a),
    decreases a,
{
    match a {
        ST::Array(i, e) => {
            agrees_reflexive(*i);
            agrees_reflexive(*e);
        },
        ST::Fun(i, e) => {
            agrees_reflexive(*i);
            agrees_reflexive(*e);
        },
        ST::Tuple(x) => {
            reflexive_from(x, 0);
        },
        ST::Record(x) => {
            reflexive_fields_from(x, 0);
        },
        _ => {},
    }
}

proof fn reflexive_from(x: Seq<ST>, k: int)
    requires
        0 <= k <= x.len(),
    ensures
        agree_from(x, x, k),
    decreases x, x.len() - k,
{
    if k < x.len() {
        agrees_reflexive(x[k]);
        reflexive_from(x, k + 1);
    }
}

proof fn reflexive_fields_from(x: Seq<(Seq<char>, ST)>, k: int)
    requires
        0 <= k <= x.len(),
    ensures
        agree_fields_from(x, x, k),
    decreases x, x.len() - k,
{
    if k < x.len() {
        agrees_reflexive(x[k].1);
        reflexive_fields_from(x, k + 1);
    }
}

/// Whether two types agree does not depend on their order.
pub proof fn agrees_symmetric(a: ST, b: ST)
    ensures
        agrees(a, b) == agrees(b, a),
    decreases a,
{
    match (a, b) {
        (ST::Array(i, e), ST::Array(j, f)) => {
            agrees_symmetric(*i, *j);
            agrees_symmetric(*e, *f);
        },
        (ST::Array(i, e), ST::Fun(j, f)) => {
            agrees_symmetric(*i, *j);
            agrees_symmetric(*e, *f);
        },
        (ST::Fun(i, e), ST::Array(j, f)) => {
            agrees_symmetric(*i, *j);
            agrees_symmetric(*e, *f);
        },
        (ST::Fun(i, e), ST::Fun(j, f)) => {
            agrees_symmetric(*i, *j);
            agrees_symmetric(*e, *f);
        },
        (ST::Tuple(x), ST::Tuple(y)) => {
            symmetric_from(x, y, 0);
        },
        (ST::Record(x), ST::Record(y)) => {
            symmetric_fields_from(x, y, 0);
        },
        _ => {},
    }
}

proof fn symmetric_from(x: Seq<ST>, y: Seq<ST>, k: int)
    requires
        0 <= k,
    ensures
        agree_from(x, y, k) == agree_from(y, x, k),
    decreases x, x.len() - k,
{
    if k < x.len() && x.len() == y.len() {
        agrees_symmetric(x[k], y[k]);
        symmetric_from(x, y, k + 1);
    }
}

proof fn symmetric_fields_from(x: Seq<(Seq<char>, ST)>, y: Seq<(Seq<char>, ST)>, k: int)
    requires
        0 <= k,
    ensures
        agree_fields_from(x, y, k) == agree_fields_from(y, x, k),
    decreases x, x.len() - k,
{
    if k < x.len() && x.len() == y.len() {
        agrees_symmetric(x[k].1, y[k].1);
        symmetric_fields_from(x, y, k + 1);
    }
}

/// The printed form of a type.
pub open spec fn sem_text(a: ST) -> Seq<char>
    decreases a,
{
    match a {
        ST::Bool => "bool"@,
        ST::Number => "number"@,
        ST::Scalar(t) => tid_text(t),
        ST::Datatype(t) => tid_text(t),
        ST::Uninterp(t) => tid_text(t),
        ST::Array(i, e) => "ARRAY "@ + sem_text(*i) + " OF "@ + sem_text(*e),
        ST::Fun(d, r) => "["@ + sem_text(*d) + " -> "@ + sem_text(*r) + "]"@,
        ST::Tuple(v) => "["@ + sem_list(v, 0) + "]"@,
        ST::Record(v) => "[# "@ + sem_field_list(v, 0) + " #]"@,
        ST::State => "STATE_TYPE"@,
        ST::Any => "any"@,
    }
}

/// The printed types from `k` on, each but the first with a comma before it.
pub open spec fn sem_list(v: Seq<ST>, k: int) -> Seq<char>
    decreases v, v.len() - k,
{
    if k < 0 || k >= v.len() {
        Seq::empty()
    } else {
        (if k > 0 {
            ", "@
        } else {
            Seq::empty()
        }) + sem_text(v[k]) + sem_list(v, k + 1)
    }
}

/// The printed fields from `k` on, each but the first with a comma before it.
pub open spec fn sem_field_list(v: Seq<(Seq<char>, ST)>, k: int) -> Seq<char>
    decreases v, v.len() - k,
{
    if k < 0 || k >= v.len() {
        Seq::empty()
    } else {
        (if k > 0 {
            ", "@
        } else {
            Seq::empty()
        }) + v[k].0 + ": "@ + sem_text(v[k].1) + sem_field_list(v, k + 1)
    }
}

impl SemType {
    /// Whether the types are compatible.
    pub fn compatible(&self, other: &SemType) -> (r: bool)
        ensures
            r == agrees(self.model(), other.model()),
        decreases self,
    {
        match (self, other) {
            (SemType::Any, _) => true,
            (_, SemType::Any) => true,
            (SemType::Bool, SemType::Bool) => true,
            (SemType::Number, SemType::Number) => true,
            (SemType::Scalar(x), SemType::Scalar(y)) => x.same(y),
            (SemType::Datatype(x), SemType::Datatype(y)) => x.same(y),
            (SemType::Uninterp(x), SemType::Uninterp(y)) => x.same(y),
            (SemType::Array(i, e), SemType::Array(j, f)) => i.compatible(j) && e.compatible(f),
            (SemType::Array(i, e), SemType::Fun(j, f)) => i.compatible(j) && e.compatible(f),
            (SemType::Fun(i, e), SemType::Array(j, f)) => i.compatible(j) && e.compatible(f),
            (SemType::Fun(i, e), SemType::Fun(j, f)) => i.compatible(j) && e.compatible(f),
            (SemType::Tuple(x), SemType::Tuple(y)) => {
                proof {
                    assert(sem_models(x@).len() == x@.len() && sem_models(y@).len() == y@.len());
                    assert(self.model() == ST::Tuple(sem_models(x@)));
                    assert(other.model() == ST::Tuple(sem_models(y@)));
                }
                if x.len() != y.len() {
                    assert(!agree_from(sem_models(x@), sem_models(y@), 0));
                    return false;
                }
                let mut k: usize = 0;
                while k < x.len()
                    invariant
                        k <= x@.len() == y@.len(),
                        decreases_to!(*self => x@),
                        self.model() == ST::Tuple(sem_models(x@)),
                        other.model() == ST::Tuple(sem_models(y@)),
                        agree_from(sem_models(x@), sem_models(y@), k as int) == agree_from(
                            sem_models(x@),
                            sem_models(y@),
                            0,
                        ),
                    decreases x.len() - k,
                {
                    proof {
                        assert(sem_models(x@)[k as int] == x@[k as int].model());
                        assert(sem_models(y@)[k as int] == y@[k as int].model());
                    }
                    if !x[k].compatible(&y[k]) {
                        return false;
                    }
                    k += 1;
                }
                true
            },
            (SemType::Record(x), SemType::Record(y)) => {
                proof {
                    assert(sem_fields(x@).len() == x@.len() && sem_fields(y@).len() == y@.len());
                    assert(self.model() == ST::Record(sem_fields(x@)));
                    assert(other.model() == ST::Record(sem_fields(y@)));
                }
                if x.len() != y.len() {
                    assert(!agree_fields_from(sem_fields(x@), sem_fields(y@), 0));
                    return false;
                }
                let mut k: usize = 0;
                while k < x.len()
                    invariant
                        k <= x@.len() == y@.len(),
                        decreases_to!(*self => x@),
                        self.model() == ST::Record(sem_fields(x@)),
                        other.model() == ST::Record(sem_fields(y@)),
                        agree_fields_from(sem_fields(x@), sem_fields(y@), k as int) == agree_fields_from(
                            sem_fields(x@),
                            sem_fields(y@),
                            0,
                        ),
                    decreases x.len() - k,
                {
                    proof {
                        assert(sem_fields(x@)[k as int] == (x@[k as int].0@, x@[k as int].1.model()));
                        assert(sem_fields(y@)[k as int] == (y@[k as int].0@, y@[k as int].1.model()));
                    }
                    if !(x[k].0 == y[k].0) || !x[k].1.compatible(&y[k].1) {
                        return false;
                    }
                    k += 1;
                }
                true
            },
            (SemType::State, SemType::State) => true,
            _ => false,
        }
    }

    /// The printed form.
    pub fn text(&self) -> (r: String)
        ensures
            r@ == sem_text(self.model()),
    {
        let mut out = String::new();
        self.print(&mut out);
        assert(Seq::<char>::empty() + sem_text(self.model()) =~= sem_text(self.model()));
        out
    }

    fn print(&self, out: &mut String)
        ensures
            final(out)@ == old(out)@ + sem_text(self.model()),
        decreases self,
    {
        let ghost o = out@;
        match self {
            SemType::Bool => put(out, "bool"),
            SemType::Number => put(out, "number"),
            SemType::Scalar(t) => put(out, t.text().as_str()),
            SemType::Datatype(t) => put(out, t.text().as_str()),
            SemType::Uninterp(t) => put(out, t.text().as_str()),
            SemType::Array(i, e) => {
                put(out, "ARRAY ");
                i.print(out);
                put(out, " OF ");
                e.print(out);
                assert(out@ =~= o + sem_text(self.model()));
            },
            SemType::Fun(d, r) => {
                put(out, "[");
                d.print(out);
                put(out, " -> ");
                r.print(out);
                put(out, "]");
                assert(out@ =~= o + sem_text(self.model()));
            },
            SemType::Tuple(v) => {
                put(out, "[");
                let mut k: usize = 0;
                while k < v.len()
                    invariant
                        k <= v@.len(),
                        decreases_to!(*self => v@),
                        out@ + sem_list(sem_models(v@), k as int) == o + "["@ + sem_list(sem_models(v@), 0),
                    decreases v.len() - k,
                {
                    let ghost b = out@;
                    let ghost ms = sem_models(v@);
                    proof {
                        assert(ms[k as int] == v@[k as int].model());
                    }
                    if k > 0 {
                        put(out, ", ");
                    }
                    v[k].print(out);
                    proof {
                        assert(out@ + sem_list(ms, k + 1) =~= b + sem_list(ms, k as int));
                    }
                    k += 1;
                }
                put(out, "]");
                assert(out@ =~= o + sem_text(self.model()));
            },
            SemType::Record(v) => {
                put(out, "[# ");
                let mut k: usize = 0;
                while k < v.len()
                    invariant
                        k <= v@.len(),
                        decreases_to!(*self => v@),
                        out@ + sem_field_list(sem_fields(v@), k as int) == o + "[# "@ + sem_field_list(
                            sem_fields(v@),
                            0,
                        ),
                    decreases v.len() - k,
                {
                    let ghost b = out@;
                    let ghost ms = sem_fields(v@);
                    proof {
                        assert(ms[k as int] == (v@[k as int].0@, v@[k as int].1.model()));
                    }
                    if k > 0 {
                        put(out, ", ");
                    }
                    put(out, v[k].0.as_str());
                    put(out, ": ");
                    v[k].1.print(out);
                    proof {
                        assert(out@ + sem_field_list(ms, k + 1) =~= b + sem_field_list(ms, k as int));
                    }
                    k += 1;
                }
                put(out, " #]");
                assert(out@ =~= o + sem_text(self.model()));
            },
            SemType::State => put(out, "STATE_TYPE"),
            SemType::Any => put(out, "any"),
        }
    }
}

impl Clone for SemType {
    fn clone(&self) -> (r: SemType)
        ensures
            r.model() == self.model(),
        decreases self,
    {
        match self {
            SemType::Bool => SemType::Bool,
            SemType::Number => SemType::Number,
            SemType::Scalar(t) => SemType::Scalar(t.clone()),
            SemType::Datatype(t) => SemType::Datatype(t.clone()),
            SemType::Uninterp(t) => SemType::Uninterp(t.clone()),
            SemType::Array(a, b) => SemType::Array(
                Box::new(SemType::clone(a)),
                Box::new(SemType::clone(b)),
            ),
            SemType::Fun(a, b) => SemType::Fun(Box::new(SemType::clone(a)), Box::new(SemType::clone(b))),
            SemType::Tuple(v) => {
                let mut out: Vec<SemType> = Vec::new();
                let mut k: usize = 0;
                while k < v.len()
                    invariant
                        k <= v@.len(),
                        decreases_to!(*self => v@),
                        out@.len() == k,
                        forall|i: int| 0 <= i < k ==> (#[trigger] out@[i]).model() == v@[i].model(),
                    decreases v.len() - k,
                {
                    out.push(SemType::clone(&v[k]));
                    k += 1;
                }
                assert(sem_models(out@) =~= sem_models(v@));
                SemType::Tuple(out)
            },
            SemType::Record(v) => {
                let mut out: Vec<(String, SemType)> = Vec::new();
                let mut k: usize = 0;
                while k < v.len()
                    invariant
                        k <= v@.len(),
                        decreases_to!(*self => v@),
                        out@.len() == k,
                        forall|i: int|
                            0 <= i < k ==> (#[trigger] out@[i]).1.model() == v@[i].1.model() && out@[i].0@
                                == v@[i].0@,
                    decreases v.len() - k,
                {
                    out.push((v[k].0.clone(), SemType::clone(&v[k].1)));
                    k += 1;
                }
                assert(sem_fields(out@) =~= sem_fields(v@));
                SemType::Record(out)
            },
            SemType::State => SemType::State,
            SemType::Any => SemType::Any,
        }
    }
}

} // verus!
