//! Ground values.

use crate::num::{dec, Int, Rat, Q};
use crate::text::{joined, own, put, same};
use crate::types::{Tid, TypeId};
use vstd::prelude::*;

verus! {

/// A ground value.
#[derive(Debug)]
pub enum Value {
    /// A truth value.
    Bool(bool),
    /// A number.
    Num(Rat),
    /// An element of a scalar type: the type and the element's index.
    Scalar(TypeId, usize),
    /// A datatype value: the type, the constructor and its arguments.
    Data(TypeId, String, Vec<Value>),
    /// A tuple.
    Tuple(Vec<Value>),
    /// A record; the fields are sorted by name.
    Record(Vec<(String, Value)>),
    /// An array or finite function: element `i` belongs to the `i`-th value of the index type.
    Array(Vec<Value>),
}

/// The mathematical content of a [`Value`].
pub ghost enum Val {
    Bool(bool),
    Num(Q),
    Scalar(Tid, nat),
    Data(Tid, Seq<char>, Seq<Val>),
    Tuple(Seq<Val>),
    Record(Seq<(Seq<char>, Val)>),
    Array(Seq<Val>),
}

impl Value {
    /// The content of the value.
    pub open spec fn model(&self) -> Val
        decreases self,
    {
        match self {
            Value::Bool(b) => Val::Bool(*b),
            Value::Num(n) => Val::Num(n@),
            Value::Scalar(t, i) => Val::Scalar(t@, *i as nat),
            Value::Data(t, c, args) => Val::Data(t@, c@, models(args@)),
            Value::Tuple(vs) => Val::Tuple(models(vs@)),
            Value::Record(fs) => Val::Record(field_models(fs@)),
            Value::Array(vs) => Val::Array(models(vs@)),
        }
    }
}

/// The contents of several values.
pub open spec fn models(vs: Seq<Value>) -> Seq<Val>
    decreases vs,
{
    Seq::new(
        vs.len(),
        |i: int|
            if 0 <= i < vs.len() {
                vs[i].model()
            } else {
                arbitrary()
            },
    )
}

/// The contents of record fields.
pub open spec fn field_models(fs: Seq<(String, Value)>) -> Seq<(Seq<char>, Val)>
    decreases fs,
{
    Seq::new(
        fs.len(),
        |i: int|
            if 0 <= i < fs.len() {
                (fs[i].0@, fs[i].1.model())
            } else {
                arbitrary()
            },
    )
}

/// Copies of several values.
pub fn clone_values(vs: &Vec<Value>) -> (r: Vec<Value>)
    ensures
        models(r@) == models(vs@),
    decreases vs,
{
    let mut out: Vec<Value> = Vec::new();
    let mut i: usize = 0;
    while i < vs.len()
        invariant
            i <= vs.len(),
            out.len() == i,
            forall|k: int| 0 <= k < i ==> out@[k].model() == vs@[k].model(),
        decreases vs.len() - i,
    {
        out.push(vs[i].clone());
        i += 1;
    }
    assert(models(out@) =~= models(vs@));
    out
}

impl Clone for Value {
    fn clone(&self) -> (r: Value)
        ensures
            r.model() == self.model(),
        decreases self,
    {
        match self {
            Value::Bool(b) => Value::Bool(*b),
            Value::Num(n) => Value::Num(n.clone()),
            Value::Scalar(t, i) => Value::Scalar(t.clone(), *i),
            Value::Data(t, c, args) => Value::Data(t.clone(), c.clone(), clone_values(args)),
            Value::Tuple(vs) => Value::Tuple(clone_values(vs)),
            Value::Record(fs) => {
                let mut out: Vec<(String, Value)> = Vec::new();
                let mut i: usize = 0;
                while i < fs.len()
                    invariant
                        i <= fs.len(),
                        out.len() == i,
                        decreases_to!(self => fs),
                        forall|k: int|
                            0 <= k < i ==> out@[k].0@ == fs@[k].0@ && out@[k].1.model()
                                == fs@[k].1.model(),
                    decreases fs.len() - i,
                {
                    let n = fs[i].0.clone();
                    out.push((n, fs[i].1.clone()));
                    i += 1;
                }
                assert(field_models(out@) =~= field_models(fs@));
                Value::Record(out)
            },
            Value::Array(vs) => Value::Array(clone_values(vs)),
        }
    }
}

/// Whether two lists hold the same values.
pub fn same_values(a: &Vec<Value>, b: &Vec<Value>) -> (r: bool)
    ensures
        r == (models(a@) == models(b@)),
    decreases a,
{
    if a.len() != b.len() {
        assert(models(a@).len() != models(b@).len());
        return false;
    }
    let mut i: usize = 0;
    while i < a.len()
        invariant
            i <= a.len(),
            a.len() == b.len(),
            forall|k: int| 0 <= k < i ==> a@[k].model() == b@[k].model(),
        decreases a.len() - i,
    {
        if !a[i].same(&b[i]) {
            assert(models(a@)[i as int] != models(b@)[i as int]);
            return false;
        }
        i += 1;
    }
    assert(models(a@) =~= models(b@));
    true
}

impl Value {
    /// Equality of values.
    pub fn same(&self, o: &Value) -> (r: bool)
        ensures
            r == (self.model() == o.model()),
        decreases self,
    {
        match (self, o) {
            (Value::Bool(a), Value::Bool(b)) => *a == *b,
            (Value::Num(a), Value::Num(b)) => a.same(b),
            (Value::Scalar(t, i), Value::Scalar(u, j)) => t.same(u) && *i == *j,
            (Value::Data(t, c, x), Value::Data(u, d, y)) => t.same(u) && *c == *d && same_values(
                x,
                y,
            ),
            (Value::Tuple(x), Value::Tuple(y)) => same_values(x, y),
            (Value::Record(x), Value::Record(y)) => {
                if x.len() != y.len() {
                    assert(field_models(x@).len() != field_models(y@).len());
                    return false;
                }
                let mut i: usize = 0;
                while i < x.len()
                    invariant
                        i <= x.len(),
                        x.len() == y.len(),
                        decreases_to!(self => x),
                        self.model() == Val::Record(field_models(x@)),
                        o.model() == Val::Record(field_models(y@)),
                        forall|k: int|
                            0 <= k < i ==> x@[k].0@ == y@[k].0@ && x@[k].1.model()
                                == y@[k].1.model(),
                    decreases x.len() - i,
                {
                    if x[i].0 != y[i].0 || !x[i].1.same(&y[i].1) {
                        assert(field_models(x@)[i as int] != field_models(y@)[i as int]);
                        return false;
                    }
                    i += 1;
                }
                assert(field_models(x@) =~= field_models(y@));
                true
            },
            (Value::Array(x), Value::Array(y)) => same_values(x, y),
            _ => false,
        }
    }

    /// The number `i`.
    pub fn integer(i: i64) -> (r: Value)
        ensures
            r.model() == Val::Num(Q::whole(i as int)),
    {
        Value::Num(Rat::from_integer(Int::from_i64(i)))
    }

    /// The truth value, if it is one.
    pub fn as_bool(&self) -> (r: Option<bool>)
        ensures
            r == (match self.model() {
                Val::Bool(b) => Some(b),
                _ => None,
            }),
    {
        match self {
            Value::Bool(b) => Some(*b),
            _ => None,
        }
    }

    /// The number, if it is one.
    pub fn as_num(&self) -> (r: Option<&Rat>)
        ensures
            match r {
                Some(n) => self.model() == Val::Num(n@),
                None => !(self.model() is Num),
            },
    {
        match self {
            Value::Num(n) => Some(n),
            _ => None,
        }
    }

    /// The value as a machine size, if it is a whole number that fits.
    pub fn as_usize(&self) -> (r: Option<usize>)
        ensures
            match r {
                Some(k) => self.model() == Val::Num(Q::whole(k as int)),
                None => forall|k: usize| self.model() != Val::Num(Q::whole(k as int)),
            },
    {
        match self {
            Value::Num(n) => if n.is_integer() {
                match n.numer().to_u64() {
                    Some(k) => if k <= usize::MAX as u64 {
                        Some(k as usize)
                    } else {
                        None
                    },
                    None => None,
                }
            } else {
                None
            },
            _ => None,
        }
    }

    /// The value as an integer, if it is a whole number.
    pub fn as_bigint(&self) -> (r: Option<Int>)
        ensures
            match r {
                Some(k) => self.model() == Val::Num(Q::whole(k@)),
                None => forall|k: int| self.model() != Val::Num(Q::whole(k)),
            },
    {
        match self {
            Value::Num(n) => if n.is_integer() {
                Some(n.numer().clone())
            } else {
                None
            },
            _ => None,
        }
    }

    /// Whether the value is a whole number.
    pub fn is_integer(&self) -> (r: bool)
        ensures
            r == (self.model() is Num && self.model()->Num_0.is_int()),
    {
        match self {
            Value::Num(n) => n.is_integer(),
            _ => false,
        }
    }

    /// The value of a number.
    pub fn num(n: Rat) -> (r: Value)
        ensures
            r.model() == Val::Num(n@),
    {
        Value::Num(n)
    }

    /// The number zero.
    pub fn zero() -> (r: Value)
        ensures
            r.model() == Val::Num(Q::whole(0)),
    {
        Value::Num(Rat::zero())
    }

    /// The printed form.
    pub fn text(&self) -> (r: String)
        ensures
            r@ == val_text(self.model()),
        decreases self,
    {
        match self {
            Value::Bool(b) => if *b {
                own("true")
            } else {
                own("false")
            },
            Value::Num(n) => num_text_of(n),
            Value::Scalar(_, i) => {
                let mut out = own("#");
                put(&mut out, Int::from_u64(*i as u64).text().as_str());
                out
            },
            Value::Data(_, c, args) => {
                let mut out = c.clone();
                if args.len() > 0 {
                    put(&mut out, "(");
                    put(&mut out, texts_joined(args).as_str());
                    put(&mut out, ")");
                }
                out
            },
            Value::Tuple(vs) => {
                let mut out = own("(");
                put(&mut out, texts_joined(vs).as_str());
                put(&mut out, ")");
                out
            },
            Value::Record(fs) => {
                let mut parts: Vec<String> = Vec::new();
                let mut i: usize = 0;
                while i < fs.len()
                    invariant
                        i <= fs.len(),
                        parts.len() == i,
                        decreases_to!(self => fs),
                        forall|k: int|
                            0 <= k < i ==> parts@[k]@ == field_text(
                                fs@[k].0@,
                                val_text(fs@[k].1.model()),
                            ),
                    decreases fs.len() - i,
                {
                    let mut p = fs[i].0.clone();
                    put(&mut p, " := ");
                    put(&mut p, fs[i].1.text().as_str());
                    parts.push(p);
                    i += 1;
                }
                let mut out = own("(# ");
                put(&mut out, crate::text::join(&parts, ", ").as_str());
                put(&mut out, " #)");
                assert(crate::text::views(parts@) =~= field_texts(field_models(fs@)));
                out
            },
            Value::Array(vs) => {
                let mut out = own("[");
                put(&mut out, texts_joined(vs).as_str());
                put(&mut out, "]");
                out
            },
        }
    }
}

/// The printed form of a number: a numeral, or numerator and denominator.
pub open spec fn num_text(q: Q) -> Seq<char> {
    if q.is_int() {
        dec(q.n)
    } else {
        dec(q.n) + "/"@ + dec(q.d)
    }
}

/// The printed form of a number.
pub fn num_text_of(n: &Rat) -> (r: String)
    ensures
        r@ == num_text(n@),
{
    if n.is_integer() {
        n.numer().text()
    } else {
        let mut out = n.numer().text();
        put(&mut out, "/");
        put(&mut out, n.denom().text().as_str());
        out
    }
}

/// The printed form of a record field.
pub open spec fn field_text(name: Seq<char>, v: Seq<char>) -> Seq<char> {
    name + " := "@ + v
}

/// The printed form of a value.
pub open spec fn val_text(v: Val) -> Seq<char>
    decreases v,
{
    match v {
        Val::Bool(b) => if b {
            "true"@
        } else {
            "false"@
        },
        Val::Num(q) => num_text(q),
        Val::Scalar(_, i) => "#"@ + dec(i as int),
        Val::Data(_, c, args) => if args.len() == 0 {
            c
        } else {
            c + "("@ + joined(val_texts(args), ", "@) + ")"@
        },
        Val::Tuple(vs) => "("@ + joined(val_texts(vs), ", "@) + ")"@,
        Val::Record(fs) => "(# "@ + joined(field_texts(fs), ", "@) + " #)"@,
        Val::Array(vs) => "["@ + joined(val_texts(vs), ", "@) + "]"@,
    }
}

/// The printed forms of values.
pub open spec fn val_texts(vs: Seq<Val>) -> Seq<Seq<char>>
    decreases vs,
{
    Seq::new(
        vs.len(),
        |i: int|
            if 0 <= i < vs.len() {
                val_text(vs[i])
            } else {
                arbitrary()
            },
    )
}

/// The printed forms of record fields.
pub open spec fn field_texts(fs: Seq<(Seq<char>, Val)>) -> Seq<Seq<char>>
    decreases fs,
{
    Seq::new(
        fs.len(),
        |i: int|
            if 0 <= i < fs.len() {
                field_text(fs[i].0, val_text(fs[i].1))
            } else {
                arbitrary()
            },
    )
}

fn texts_joined(vs: &Vec<Value>) -> (r: String)
    ensures
        r@ == joined(val_texts(models(vs@)), ", "@),
    decreases vs,
{
    let mut parts: Vec<String> = Vec::new();
    let mut i: usize = 0;
    while i < vs.len()
        invariant
            i <= vs.len(),
            parts.len() == i,
            forall|k: int| 0 <= k < i ==> parts@[k]@ == val_text(vs@[k].model()),
        decreases vs.len() - i,
    {
        parts.push(vs[i].text());
        i += 1;
    }
    assert(crate::text::views(parts@) =~= val_texts(models(vs@)));
    crate::text::join(&parts, ", ")
}

} // verus!
