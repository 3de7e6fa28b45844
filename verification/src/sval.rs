//! Symbolic values: ground values, expressions over the leaves, aggregates of them, functions, sets
//! and formulas.

use crate::ast::{Expr, ExprV};
use crate::ctype::{position, values, CType, CT};
use crate::fexpr::{
    all_hold, and_meaning, eq_meaning, fe_and, fe_bool, fe_eq, fe_ite, fe_models, holds, ite_meaning, sem, sems,
    FExpr, LeafType, Leaves, FE, LT,
};
use crate::formula::{tf_ite, TFormula, TF};
use crate::prime::{prime, primed};
use crate::text::{own, views};
use crate::types::{Tid, TypeId};
use crate::value::{models, Val, Value};
use vstd::prelude::*;

verus! {

/// A symbolic value.
pub enum SVal {
    Ground(Value),
    /// An expression of a scalar type.
    Sym(FExpr, LeafType),
    Tuple(Vec<SVal>),
    /// Fields sorted by name.
    Record(Vec<(String, SVal)>),
    /// The elements of an array or function, in the order of the values of its index type.
    Array(Box<CType>, Vec<SVal>),
    /// A function.
    Fun(Closure),
    /// A set.
    Among(SetRepr),
    /// A temporal formula.
    Formula(TFormula),
}

/// A function.
pub enum Closure {
    /// A lambda: its parameters, its body, the instance in which it is written, and the variables there.
    Lambda(Vec<String>, Expr, usize, Vec<(String, SVal)>),
    /// A constructor: the datatype, its name, and the number of its arguments.
    Ctor(TypeId, String, usize),
    /// The test for a constructor.
    Recognizer(String),
    /// An accessor: the constructor, and the number of the argument.
    Accessor(String, usize),
    /// A function of the prelude.
    Builtin(String),
}

/// A set.
pub enum SetRepr {
    /// Those that a predicate holds of: the instance and the variables where it is written, the
    /// variable that it speaks of, and the predicate.
    Pred(usize, Vec<(String, SVal)>, String, Expr),
    /// The listed elements.
    List(Vec<SVal>),
    /// The numbers on one side of a bound.
    Bound(BoundKind, FExpr),
}

/// A side of a bound.
#[derive(Debug, Clone, Copy, PartialEq, Eq, Structural)]
pub enum BoundKind {
    UpTo,
    Below,
    Above,
}

/// The content of a symbolic value.
pub ghost enum SV {
    Ground(Val),
    Sym(FE, LT),
    Tuple(Seq<SV>),
    Record(Seq<(Seq<char>, SV)>),
    Array(CT, Seq<SV>),
    Fun(ClosureV),
    Among(SetV),
    Formula(TF),
}

/// The content of a function.
pub ghost enum ClosureV {
    Lambda(Seq<Seq<char>>, ExprV, nat, Seq<(Seq<char>, SV)>),
    Ctor(Tid, Seq<char>, nat),
    Recognizer(Seq<char>),
    Accessor(Seq<char>, nat),
    Builtin(Seq<char>),
}

/// The content of a set.
pub ghost enum SetV {
    Pred(nat, Seq<(Seq<char>, SV)>, Seq<char>, ExprV),
    List(Seq<SV>),
    Bound(BoundKind, FE),
}

impl SVal {
    /// The content.
    pub open spec fn model(&self) -> SV
        decreases self,
    {
        match self {
            SVal::Ground(v) => SV::Ground(v.model()),
            SVal::Sym(e, t) => SV::Sym(e.model(), t@),
            SVal::Tuple(v) => SV::Tuple(sv_models(v@)),
            SVal::Record(v) => SV::Record(sv_fields(v@)),
            SVal::Array(t, v) => SV::Array(t.model(), sv_models(v@)),
            SVal::Fun(c) => SV::Fun(c.model()),
            SVal::Among(s) => SV::Among(s.model()),
            SVal::Formula(f) => SV::Formula(f.model()),
        }
    }
}

impl Closure {
    /// The content.
    pub open spec fn model(&self) -> ClosureV
        decreases self,
    {
        match self {
            Closure::Lambda(ps, b, i, l) => ClosureV::Lambda(views(ps@), b.model(), *i as nat, sv_fields(l@)),
            Closure::Ctor(t, c, n) => ClosureV::Ctor(t@, c@, *n as nat),
            Closure::Recognizer(c) => ClosureV::Recognizer(c@),
            Closure::Accessor(c, n) => ClosureV::Accessor(c@, *n as nat),
            Closure::Builtin(b) => ClosureV::Builtin(b@),
        }
    }
}

impl SetRepr {
    /// The content.
    pub open spec fn model(&self) -> SetV
        decreases self,
    {
        match self {
            SetRepr::Pred(i, l, v, p) => SetV::Pred(*i as nat, sv_fields(l@), v@, p.model()),
            SetRepr::List(vs) => SetV::List(sv_models(vs@)),
            SetRepr::Bound(k, b) => SetV::Bound(*k, b.model()),
        }
    }
}

/// The contents of symbolic values.
pub open spec fn sv_models(v: Seq<SVal>) -> Seq<SV>
    decreases v,
{
    Seq::new(
        v.len(),
        |i: int|
            if 0 <= i < v.len() {
                v[i].model()
            } else {
                arbitrary()
            },
    )
}

/// The contents of fields.
pub open spec fn sv_fields(v: Seq<(String, SVal)>) -> Seq<(Seq<char>, SV)>
    decreases v,
{
    Seq::new(
        v.len(),
        |i: int|
            if 0 <= i < v.len() {
                (v[i].0@, v[i].1.model())
            } else {
                arbitrary()
            },
    )
}

/// The value that a symbolic value has, given values of the leaves. A function, a set or a formula
/// has none.
pub open spec fn mean(v: SV, env: Leaves) -> Option<Val>
    decreases v,
{
    match v {
        SV::Ground(x) => Some(x),
        SV::Sym(e, _t) => sem(e, env),
        SV::Tuple(vs) => match all_of(means(vs, env)) {
            Some(s) => Some(Val::Tuple(s)),
            None => None,
        },
        SV::Record(fs) => match all_of(field_means(fs, env)) {
            Some(s) => Some(Val::Record(Seq::new(fs.len(), |i: int| (fs[i].0, s[i])))),
            None => None,
        },
        SV::Array(_t, vs) => match all_of(means(vs, env)) {
            Some(s) => Some(Val::Array(s)),
            None => None,
        },
        _ => None,
    }
}

/// The values that symbolic values have.
pub open spec fn means(vs: Seq<SV>, env: Leaves) -> Seq<Option<Val>>
    decreases vs,
{
    Seq::new(
        vs.len(),
        |i: int|
            if 0 <= i < vs.len() {
                mean(vs[i], env)
            } else {
                arbitrary()
            },
    )
}

/// The values that fields have.
pub open spec fn field_means(fs: Seq<(Seq<char>, SV)>, env: Leaves) -> Seq<Option<Val>>
    decreases fs,
{
    Seq::new(
        fs.len(),
        |i: int|
            if 0 <= i < fs.len() {
                mean(fs[i].1, env)
            } else {
                arbitrary()
            },
    )
}

/// The values, if there are all of them.
pub open spec fn all_of(os: Seq<Option<Val>>) -> Option<Seq<Val>> {
    if forall|i: int| 0 <= i < os.len() ==> (#[trigger] os[i]) is Some {
        Some(Seq::new(os.len(), |i: int| os[i]->0))
    } else {
        None
    }
}

/// A truth value, a number or an element, ground or not.
pub open spec fn scalar(v: SV) -> bool {
    match v {
        SV::Ground(x) => x is Bool || x is Num || x is Scalar,
        SV::Sym(_e, _t) => true,
        _ => false,
    }
}

/// The expression of a scalar value.
pub open spec fn scalar_fe(v: SV) -> FE {
    match v {
        SV::Ground(x) => FE::Const(x),
        SV::Sym(e, _t) => e,
        _ => arbitrary(),
    }
}

/// The condition that two symbolic values are the same, where they are ground, or aggregates of one
/// shape, or scalar.
pub open spec fn sv_eq(a: SV, b: SV) -> Option<FE>
    decreases a,
{
    match (a, b) {
        (SV::Ground(x), SV::Ground(y)) => Some(fe_bool(x == y)),
        (SV::Tuple(x), SV::Tuple(y)) => conjoined(sv_eqs(x, y, 0, Seq::empty())),
        (SV::Record(x), SV::Record(y)) => conjoined(field_eqs(x, y, 0, Seq::empty())),
        (SV::Array(_t, x), SV::Array(_u, y)) => conjoined(sv_eqs(x, y, 0, Seq::empty())),
        _ => if scalar(a) && scalar(b) {
            Some(fe_eq(scalar_fe(a), scalar_fe(b)))
        } else {
            None
        },
    }
}

/// All conditions, where there are some.
pub open spec fn conjoined(es: Option<Seq<FE>>) -> Option<FE> {
    match es {
        Some(v) => Some(fe_and(v)),
        None => None,
    }
}

/// The conditions that symbolic values are the same, one by one, from `i` on.
pub open spec fn sv_eqs(x: Seq<SV>, y: Seq<SV>, i: int, acc: Seq<FE>) -> Option<Seq<FE>>
    decreases x, x.len() - i,
{
    if x.len() != y.len() {
        None
    } else if i < 0 || i >= x.len() {
        Some(acc)
    } else {
        match sv_eq(x[i], y[i]) {
            Some(e) => sv_eqs(x, y, i + 1, acc.push(e)),
            None => None,
        }
    }
}

/// The conditions that fields of the same names are the same, one by one, from `i` on.
pub open spec fn field_eqs(x: Seq<(Seq<char>, SV)>, y: Seq<(Seq<char>, SV)>, i: int, acc: Seq<FE>) -> Option<
    Seq<FE>,
>
    decreases x, x.len() - i,
{
    if x.len() != y.len() {
        None
    } else if i < 0 || i >= x.len() {
        Some(acc)
    } else if x[i].0 != y[i].0 {
        None
    } else {
        match sv_eq(x[i].1, y[i].1) {
            Some(e) => field_eqs(x, y, i + 1, acc.push(e)),
            None => None,
        }
    }
}

/// The expression holds exactly where the two values are the same, wherever both have one.
pub open spec fn tells(r: FE, a: SV, b: SV) -> bool {
    forall|env: Leaves|
        mean(a, env) is Some && mean(b, env) is Some ==> #[trigger] holds(sem(r, env)) == (mean(a, env) == mean(b, env))
}

/// The expressions hold exactly where the values are the same, one by one.
proof fn tells_all(es: Seq<FE>, x: Seq<SV>, y: Seq<SV>, env: Leaves)
    requires
        es.len() == x.len(),
        x.len() == y.len(),
        forall|i: int| 0 <= i < es.len() ==> tells(#[trigger] es[i], x[i], y[i]),
        all_of(means(x, env)) is Some,
        all_of(means(y, env)) is Some,
    ensures
        all_hold(sems(es, env)) == (all_of(means(x, env)) == all_of(means(y, env))),
{
    let o = sems(es, env);
    let mx = means(x, env);
    let my = means(y, env);
    assert forall|i: int| 0 <= i < es.len() implies holds(#[trigger] o[i]) == (mx[i] == my[i]) by {
        assert(tells(es[i], x[i], y[i]));
        assert(mx[i] is Some && my[i] is Some);
        assert(mean(x[i], env) is Some && mean(y[i], env) is Some);
        assert(holds(sem(es[i], env)) == (mean(x[i], env) == mean(y[i], env)));
    }
    let sx = all_of(mx)->0;
    let sy = all_of(my)->0;
    if all_hold(o) {
        assert(sx =~= sy) by {
            assert forall|i: int| 0 <= i < sx.len() implies #[trigger] sx[i] == sy[i] by {
                assert(holds(o[i]));
                assert(mx[i] == my[i]);
            }
        }
    }
    if sx == sy {
        assert forall|i: int| 0 <= i < o.len() implies holds(#[trigger] o[i]) by {
            assert(sx[i] == sy[i]);
            assert(mx[i] is Some && my[i] is Some);
            assert(mx[i] == my[i]);
        }
    }
}

proof fn eqs_tell(x: Seq<SV>, y: Seq<SV>, i: int, acc: Seq<FE>)
    requires
        0 <= i <= x.len(),
        x.len() == y.len(),
        acc.len() == i,
        forall|j: int| 0 <= j < i ==> tells(#[trigger] acc[j], x[j], y[j]),
        sv_eqs(x, y, i, acc) is Some,
    ensures
        sv_eqs(x, y, i, acc)->0.len() == x.len(),
        forall|j: int| 0 <= j < x.len() ==> tells(#[trigger] sv_eqs(x, y, i, acc)->0[j], x[j], y[j]),
    decreases x, x.len() - i,
{
    reveal_with_fuel(sv_eqs, 2);
    if i < x.len() {
        eq_tells(x[i], y[i]);
        let e = sv_eq(x[i], y[i])->0;
        assert forall|j: int| 0 <= j < i + 1 implies tells(#[trigger] acc.push(e)[j], x[j], y[j]) by {
            if j < i {
                assert(acc.push(e)[j] == acc[j]);
            }
        }
        eqs_tell(x, y, i + 1, acc.push(e));
    }
}

/// The values of fields.
pub open spec fn parts(x: Seq<(Seq<char>, SV)>) -> Seq<SV> {
    Seq::new(x.len(), |i: int| x[i].1)
}

proof fn field_eqs_tell(x: Seq<(Seq<char>, SV)>, y: Seq<(Seq<char>, SV)>, i: int, acc: Seq<FE>)
    requires
        0 <= i <= x.len(),
        x.len() == y.len(),
        acc.len() == i,
        forall|j: int| 0 <= j < i ==> tells(#[trigger] acc[j], parts(x)[j], parts(y)[j]),
        forall|j: int| 0 <= j < i ==> (#[trigger] x[j]).0 == y[j].0,
        field_eqs(x, y, i, acc) is Some,
    ensures
        field_eqs(x, y, i, acc)->0.len() == x.len(),
        forall|j: int| 0 <= j < x.len() ==> (#[trigger] x[j]).0 == y[j].0,
        forall|j: int|
            0 <= j < x.len() ==> tells(#[trigger] field_eqs(x, y, i, acc)->0[j], parts(x)[j], parts(y)[j]),
    decreases x, x.len() - i,
{
    reveal_with_fuel(field_eqs, 2);
    if i < x.len() {
        eq_tells(x[i].1, y[i].1);
        let e = sv_eq(x[i].1, y[i].1)->0;
        assert forall|j: int| 0 <= j < i + 1 implies tells(#[trigger] acc.push(e)[j], parts(x)[j], parts(y)[j]) by {
            if j < i {
                assert(acc.push(e)[j] == acc[j]);
            }
        }
        field_eqs_tell(x, y, i + 1, acc.push(e));
    }
}

/// The condition that two symbolic values are the same holds exactly where they are, wherever both
/// have a value.
pub proof fn eq_tells(a: SV, b: SV)
    requires
        sv_eq(a, b) is Some,
    ensures
        tells(sv_eq(a, b)->0, a, b),
    decreases a,
{
    let r = sv_eq(a, b)->0;
    assert forall|env: Leaves| mean(a, env) is Some && mean(b, env) is Some implies #[trigger] holds(sem(r, env)) == (
    mean(a, env) == mean(b, env)) by {
        match (a, b) {
            (SV::Ground(x), SV::Ground(y)) => {},
            (SV::Tuple(x), SV::Tuple(y)) => {
                let es = sv_eqs(x, y, 0, Seq::empty())->0;
                eqs_tell(x, y, 0, Seq::empty());
                and_meaning(es, env);
                tells_all(es, x, y, env);
            },
            (SV::Array(_t, x), SV::Array(_u, y)) => {
                let es = sv_eqs(x, y, 0, Seq::empty())->0;
                eqs_tell(x, y, 0, Seq::empty());
                and_meaning(es, env);
                tells_all(es, x, y, env);
            },
            (SV::Record(x), SV::Record(y)) => {
                let es = field_eqs(x, y, 0, Seq::empty())->0;
                field_eqs_tell(x, y, 0, Seq::empty());
                and_meaning(es, env);
                assert(field_means(x, env) =~= means(parts(x), env));
                assert(field_means(y, env) =~= means(parts(y), env));
                tells_all(es, parts(x), parts(y), env);
                let sx = all_of(means(parts(x), env))->0;
                let sy = all_of(means(parts(y), env))->0;
                let p = Seq::new(x.len(), |i: int| (x[i].0, sx[i]));
                let q = Seq::new(y.len(), |i: int| (y[i].0, sy[i]));
                if sx == sy {
                    assert(p =~= q) by {
                        assert forall|i: int| 0 <= i < p.len() implies #[trigger] p[i] == q[i] by {
                            assert(x[i].0 == y[i].0);
                        }
                    }
                }
                if p == q {
                    assert(sx =~= sy) by {
                        assert forall|i: int| 0 <= i < sx.len() implies #[trigger] sx[i] == sy[i] by {
                            assert(p[i] == q[i]);
                        }
                    }
                }
            },
            _ => {
                eq_meaning(scalar_fe(a), scalar_fe(b), env);
            },
        }
    }
}

impl SVal {
    /// The symbolic value of a condition.
    pub fn from_bool_expr(e: FExpr) -> (r: SVal)
        ensures
            r.model() == (match e.model() {
                FE::Const(v) => SV::Ground(v),
                m => SV::Sym(m, LT::Bool),
            }),
            forall|env: Leaves| #[trigger] mean(r.model(), env) == sem(e.model(), env),
    {
        match e {
            FExpr::Const(v) => SVal::Ground(v),
            other => SVal::Sym(other, LeafType::Bool),
        }
    }

    /// The condition that a symbolic truth value is.
    pub fn to_bool_fexpr(&self) -> (r: Result<FExpr, String>)
        ensures
            match self.model() {
                SV::Ground(Val::Bool(b)) => r matches Ok(e) && e.model() == fe_bool(b),
                SV::Sym(e, LT::Bool) => r matches Ok(x) && x.model() == e,
                _ => r matches Err(m) && m@ == "boolean expression expected"@,
            },
    {
        match self {
            SVal::Ground(Value::Bool(b)) => Ok(FExpr::Const(Value::Bool(*b))),
            SVal::Sym(e, LeafType::Bool) => Ok(e.clone()),
            _ => Err(own("boolean expression expected")),
        }
    }

    /// The expression of a scalar value.
    pub fn to_scalar_fexpr(&self) -> (r: Option<FExpr>)
        ensures
            match r {
                Some(e) => scalar(self.model()) && e.model() == scalar_fe(self.model()),
                None => !scalar(self.model()),
            },
    {
        match self {
            SVal::Ground(Value::Bool(b)) => Some(FExpr::Const(Value::Bool(*b))),
            SVal::Ground(Value::Num(n)) => Some(FExpr::Const(Value::Num(n.clone()))),
            SVal::Ground(Value::Scalar(id, i)) => Some(FExpr::Const(Value::Scalar(id.clone(), *i))),
            SVal::Sym(e, _t) => Some(e.clone()),
            _ => None,
        }
    }

    /// The condition that two symbolic values are the same.
    pub fn eq_sval(&self, other: &SVal) -> (r: Result<FExpr, String>)
        ensures
            match (r, sv_eq(self.model(), other.model())) {
                (Ok(e), Some(m)) => e.model() == m,
                (Err(m), None) => m@ == "values that cannot be compared"@,
                _ => false,
            },
        decreases self, 1nat,
    {
        match (self, other) {
            (SVal::Ground(x), SVal::Ground(y)) => Ok(FExpr::Const(Value::Bool(x.same(y)))),
            (SVal::Tuple(x), SVal::Tuple(y)) => match eq_all(x, y) {
                Ok(v) => Ok(FExpr::and(v)),
                Err(m) => Err(m),
            },
            (SVal::Array(_t, x), SVal::Array(_u, y)) => match eq_all(x, y) {
                Ok(v) => Ok(FExpr::and(v)),
                Err(m) => Err(m),
            },
            (SVal::Record(x), SVal::Record(y)) => match eq_fields(x, y) {
                Ok(v) => Ok(FExpr::and(v)),
                Err(m) => Err(m),
            },
            _ => match (self.to_scalar_fexpr(), other.to_scalar_fexpr()) {
                (Some(x), Some(y)) => Ok(FExpr::eq(x, y)),
                _ => Err(own("values that cannot be compared")),
            },
        }
    }
}

fn eq_all(x: &Vec<SVal>, y: &Vec<SVal>) -> (r: Result<Vec<FExpr>, String>)
    ensures
        match (r, sv_eqs(sv_models(x@), sv_models(y@), 0, Seq::empty())) {
            (Ok(v), Some(m)) => fe_models(v@) == m,
            (Err(m), None) => m@ == "values that cannot be compared"@,
            _ => false,
        },
    decreases x, 0nat,
{
    let ghost xm = sv_models(x@);
    let ghost ym = sv_models(y@);
    if x.len() != y.len() {
        proof {
            reveal_with_fuel(sv_eqs, 2);
        }
        return Err(own("values that cannot be compared"));
    }
    let mut v: Vec<FExpr> = Vec::new();
    let mut i: usize = 0;
    assert(fe_models(v@) =~= Seq::empty());
    while i < x.len()
        invariant
            i <= x@.len(),
            x@.len() == y@.len(),
            xm == sv_models(x@),
            ym == sv_models(y@),
            sv_eqs(xm, ym, i as int, fe_models(v@)) == sv_eqs(xm, ym, 0, Seq::empty()),
        decreases x.len() - i,
    {
        proof {
            reveal_with_fuel(sv_eqs, 2);
            assert(xm[i as int] == x@[i as int].model());
            assert(ym[i as int] == y@[i as int].model());
        }
        match x[i].eq_sval(&y[i]) {
            Ok(e) => {
                let ghost a = v@;
                let ghost m = e.model();
                v.push(e);
                assert(fe_models(v@) =~= fe_models(a).push(m));
            },
            Err(m) => {
                return Err(m);
            },
        }
        i += 1;
    }
    proof {
        reveal_with_fuel(sv_eqs, 2);
    }
    Ok(v)
}

fn eq_fields(x: &Vec<(String, SVal)>, y: &Vec<(String, SVal)>) -> (r: Result<Vec<FExpr>, String>)
    ensures
        match (r, field_eqs(sv_fields(x@), sv_fields(y@), 0, Seq::empty())) {
            (Ok(v), Some(m)) => fe_models(v@) == m,
            (Err(m), None) => m@ == "values that cannot be compared"@,
            _ => false,
        },
    decreases x, 0nat,
{
    let ghost xm = sv_fields(x@);
    let ghost ym = sv_fields(y@);
    if x.len() != y.len() {
        proof {
            reveal_with_fuel(field_eqs, 2);
        }
        return Err(own("values that cannot be compared"));
    }
    let mut v: Vec<FExpr> = Vec::new();
    let mut i: usize = 0;
    assert(fe_models(v@) =~= Seq::empty());
    while i < x.len()
        invariant
            i <= x@.len(),
            x@.len() == y@.len(),
            xm == sv_fields(x@),
            ym == sv_fields(y@),
            field_eqs(xm, ym, i as int, fe_models(v@)) == field_eqs(xm, ym, 0, Seq::empty()),
        decreases x.len() - i,
    {
        proof {
            reveal_with_fuel(field_eqs, 2);
            assert(xm[i as int] == (x@[i as int].0@, x@[i as int].1.model()));
            assert(ym[i as int] == (y@[i as int].0@, y@[i as int].1.model()));
        }
        if !(x[i].0 == y[i].0) {
            return Err(own("values that cannot be compared"));
        }
        match x[i].1.eq_sval(&y[i].1) {
            Ok(e) => {
                let ghost a = v@;
                let ghost m = e.model();
                v.push(e);
                assert(fe_models(v@) =~= fe_models(a).push(m));
            },
            Err(m) => {
                return Err(m);
            },
        }
        i += 1;
    }
    proof {
        reveal_with_fuel(field_eqs, 2);
    }
    Ok(v)
}

/// Copies symbolic values.
pub fn copy_svals(v: &Vec<SVal>) -> (r: Vec<SVal>)
    ensures
        sv_models(r@) == sv_models(v@),
    decreases v, 0nat,
{
    let mut r: Vec<SVal> = Vec::new();
    let mut i: usize = 0;
    while i < v.len()
        invariant
            i <= v@.len(),
            r@.len() == i,
            forall|j: int| 0 <= j < i ==> (#[trigger] r@[j]).model() == v@[j].model(),
        decreases v.len() - i,
    {
        r.push(v[i].copy());
        i += 1;
    }
    assert(sv_models(r@) =~= sv_models(v@));
    r
}

/// Copies named symbolic values.
pub fn copy_locals(v: &Vec<(String, SVal)>) -> (r: Vec<(String, SVal)>)
    ensures
        sv_fields(r@) == sv_fields(v@),
    decreases v, 0nat,
{
    let mut r: Vec<(String, SVal)> = Vec::new();
    let mut i: usize = 0;
    while i < v.len()
        invariant
            i <= v@.len(),
            r@.len() == i,
            forall|j: int|
                0 <= j < i ==> (#[trigger] r@[j]).0@ == v@[j].0@ && r@[j].1.model() == v@[j].1.model(),
        decreases v.len() - i,
    {
        r.push((v[i].0.clone(), v[i].1.copy()));
        i += 1;
    }
    assert(sv_fields(r@) =~= sv_fields(v@));
    r
}

/// Copies texts.
pub fn copy_texts(v: &Vec<String>) -> (r: Vec<String>)
    ensures
        views(r@) == views(v@),
{
    let mut r: Vec<String> = Vec::new();
    let mut i: usize = 0;
    while i < v.len()
        invariant
            i <= v@.len(),
            r@.len() == i,
            forall|j: int| 0 <= j < i ==> (#[trigger] r@[j])@ == v@[j]@,
        decreases v.len() - i,
    {
        r.push(v[i].clone());
        i += 1;
    }
    assert(views(r@) =~= views(v@));
    r
}

impl SVal {
    /// A copy.
    pub fn copy(&self) -> (r: SVal)
        ensures
            r.model() == self.model(),
        decreases self, 1nat,
    {
        match self {
            SVal::Ground(v) => SVal::Ground(v.clone()),
            SVal::Sym(e, t) => SVal::Sym(e.clone(), t.clone()),
            SVal::Tuple(v) => SVal::Tuple(copy_svals(v)),
            SVal::Record(v) => SVal::Record(copy_locals(v)),
            SVal::Array(t, v) => SVal::Array(Box::new(t.copy()), copy_svals(v)),
            SVal::Fun(c) => SVal::Fun(c.copy()),
            SVal::Among(s) => SVal::Among(s.copy()),
            SVal::Formula(f) => SVal::Formula(f.clone()),
        }
    }
}

impl Closure {
    /// A copy.
    pub fn copy(&self) -> (r: Closure)
        ensures
            r.model() == self.model(),
        decreases self, 1nat,
    {
        match self {
            Closure::Lambda(ps, b, i, l) => Closure::Lambda(copy_texts(ps), b.dup(), *i, copy_locals(l)),
            Closure::Ctor(t, c, n) => Closure::Ctor(t.clone(), c.clone(), *n),
            Closure::Recognizer(c) => Closure::Recognizer(c.clone()),
            Closure::Accessor(c, n) => Closure::Accessor(c.clone(), *n),
            Closure::Builtin(b) => Closure::Builtin(b.clone()),
        }
    }
}

impl SetRepr {
    /// A copy.
    pub fn copy(&self) -> (r: SetRepr)
        ensures
            r.model() == self.model(),
        decreases self, 1nat,
    {
        match self {
            SetRepr::Pred(i, l, v, p) => SetRepr::Pred(*i, copy_locals(l), v.clone(), p.dup()),
            SetRepr::List(vs) => SetRepr::List(copy_svals(vs)),
            SetRepr::Bound(k, b) => SetRepr::Bound(*k, b.clone()),
        }
    }
}

/// The type of a scalar value, as far as it is known.
pub open spec fn scalar_lt(v: SV) -> LT {
    match v {
        SV::Ground(Val::Bool(_b)) => LT::Bool,
        SV::Ground(Val::Scalar(id, _i)) => LT::Scalar(id, Seq::empty()),
        SV::Sym(_e, t) => t,
        _ => LT::Int { min: None, max: None },
    }
}

fn scalar_type(v: &SVal) -> (r: LeafType)
    ensures
        r@ == scalar_lt(v.model()),
{
    match v {
        SVal::Ground(Value::Bool(_b)) => LeafType::Bool,
        SVal::Ground(Value::Scalar(id, _i)) => {
            let none: Vec<String> = Vec::new();
            assert(views(none@) =~= Seq::empty());
            LeafType::Scalar(id.clone(), none)
        },
        SVal::Sym(_e, t) => t.clone(),
        _ => LeafType::Int { min: None, max: None },
    }
}

/// One of two symbolic values, by a condition: where the condition is not a constant, they have to
/// be aggregates of one shape, or formulas, or scalar.
pub open spec fn sv_ite(c: FE, t: SV, e: SV) -> Option<SV>
    decreases t,
{
    if c == fe_bool(true) {
        Some(t)
    } else if c == fe_bool(false) {
        Some(e)
    } else {
        match (t, e) {
            (SV::Tuple(x), SV::Tuple(y)) => match sv_ites(c, x, y, 0, Seq::empty()) {
                Some(v) => Some(SV::Tuple(v)),
                None => None,
            },
            (SV::Record(x), SV::Record(y)) => match field_ites(c, x, y, 0, Seq::empty()) {
                Some(v) => Some(SV::Record(v)),
                None => None,
            },
            (SV::Array(i, x), SV::Array(_j, y)) => match sv_ites(c, x, y, 0, Seq::empty()) {
                Some(v) => Some(SV::Array(i, v)),
                None => None,
            },
            (SV::Formula(f), SV::Formula(g)) => Some(SV::Formula(tf_ite(TF::Atom(c), f, g))),
            _ => if scalar(t) && scalar(e) {
                Some(SV::Sym(fe_ite(c, scalar_fe(t), scalar_fe(e)), scalar_lt(t)))
            } else {
                None
            },
        }
    }
}

/// One of two symbolic values by a condition, one by one, from `i` on.
pub open spec fn sv_ites(c: FE, x: Seq<SV>, y: Seq<SV>, i: int, acc: Seq<SV>) -> Option<Seq<SV>>
    decreases x, x.len() - i,
{
    if x.len() != y.len() {
        None
    } else if i < 0 || i >= x.len() {
        Some(acc)
    } else {
        match sv_ite(c, x[i], y[i]) {
            Some(v) => sv_ites(c, x, y, i + 1, acc.push(v)),
            None => None,
        }
    }
}

/// One of two fields by a condition, one by one, from `i` on; the names are those of the first.
pub open spec fn field_ites(
    c: FE,
    x: Seq<(Seq<char>, SV)>,
    y: Seq<(Seq<char>, SV)>,
    i: int,
    acc: Seq<(Seq<char>, SV)>,
) -> Option<Seq<(Seq<char>, SV)>>
    decreases x, x.len() - i,
{
    if x.len() != y.len() {
        None
    } else if i < 0 || i >= x.len() {
        Some(acc)
    } else {
        match sv_ite(c, x[i].1, y[i].1) {
            Some(v) => field_ites(c, x, y, i + 1, acc.push((x[i].0, v))),
            None => None,
        }
    }
}

/// The first value is the second where the condition holds, and the third elsewhere.
pub open spec fn chosen(r: SV, c: FE, t: SV, e: SV) -> bool {
    forall|env: Leaves| #[trigger]
        mean(r, env) == (if holds(sem(c, env)) {
            mean(t, env)
        } else {
            mean(e, env)
        })
}

/// Records that meet have the same field names.
pub open spec fn alike(t: SV, e: SV) -> bool
    decreases t,
{
    match (t, e) {
        (SV::Tuple(x), SV::Tuple(y)) => all_alike(x, y),
        (SV::Array(_i, x), SV::Array(_j, y)) => all_alike(x, y),
        (SV::Record(x), SV::Record(y)) => fields_alike(x, y),
        _ => true,
    }
}

/// Records that meet have the same field names, one by one.
pub open spec fn all_alike(x: Seq<SV>, y: Seq<SV>) -> bool
    decreases x,
{
    forall|i: int| 0 <= i < x.len() && i < y.len() ==> alike(#[trigger] x[i], y[i])
}

/// The fields have the same names, and so have those of records in them.
pub open spec fn fields_alike(x: Seq<(Seq<char>, SV)>, y: Seq<(Seq<char>, SV)>) -> bool
    decreases x,
{
    forall|i: int| 0 <= i < x.len() && i < y.len() ==> (#[trigger] x[i]).0 == y[i].0 && alike(x[i].1, y[i].1)
}

/// Values chosen one by one.
proof fn chosen_all(v: Seq<SV>, c: FE, x: Seq<SV>, y: Seq<SV>, env: Leaves)
    requires
        v.len() == x.len(),
        x.len() == y.len(),
        forall|i: int| 0 <= i < x.len() ==> chosen(#[trigger] v[i], c, x[i], y[i]),
    ensures
        means(v, env) == (if holds(sem(c, env)) {
            means(x, env)
        } else {
            means(y, env)
        }),
{
    let m = if holds(sem(c, env)) {
        means(x, env)
    } else {
        means(y, env)
    };
    assert forall|i: int| 0 <= i < v.len() implies #[trigger] means(v, env)[i] == m[i] by {
        assert(chosen(v[i], c, x[i], y[i]));
        assert(mean(v[i], env) == (if holds(sem(c, env)) {
            mean(x[i], env)
        } else {
            mean(y[i], env)
        }));
    }
    assert(means(v, env) =~= m);
}

proof fn ites_chosen(c: FE, x: Seq<SV>, y: Seq<SV>, i: int, acc: Seq<SV>)
    requires
        0 <= i <= x.len(),
        x.len() == y.len(),
        acc.len() == i,
        all_alike(x, y),
        forall|j: int| 0 <= j < i ==> chosen(#[trigger] acc[j], c, x[j], y[j]),
        sv_ites(c, x, y, i, acc) is Some,
    ensures
        sv_ites(c, x, y, i, acc)->0.len() == x.len(),
        forall|j: int| 0 <= j < x.len() ==> chosen(#[trigger] sv_ites(c, x, y, i, acc)->0[j], c, x[j], y[j]),
    decreases x, x.len() - i,
{
    reveal_with_fuel(sv_ites, 2);
    if i < x.len() {
        assert(alike(x[i], y[i]));
        ite_chooses(c, x[i], y[i]);
        let v = sv_ite(c, x[i], y[i])->0;
        assert forall|j: int| 0 <= j < i + 1 implies chosen(#[trigger] acc.push(v)[j], c, x[j], y[j]) by {
            if j < i {
                assert(acc.push(v)[j] == acc[j]);
            }
        }
        ites_chosen(c, x, y, i + 1, acc.push(v));
    }
}

proof fn field_ites_chosen(
    c: FE,
    x: Seq<(Seq<char>, SV)>,
    y: Seq<(Seq<char>, SV)>,
    i: int,
    acc: Seq<(Seq<char>, SV)>,
)
    requires
        0 <= i <= x.len(),
        x.len() == y.len(),
        acc.len() == i,
        fields_alike(x, y),
        forall|j: int| 0 <= j < i ==> (#[trigger] acc[j]).0 == x[j].0 && chosen(acc[j].1, c, x[j].1, y[j].1),
        field_ites(c, x, y, i, acc) is Some,
    ensures
        field_ites(c, x, y, i, acc)->0.len() == x.len(),
        forall|j: int|
            0 <= j < x.len() ==> (#[trigger] field_ites(c, x, y, i, acc)->0[j]).0 == x[j].0 && chosen(
                field_ites(c, x, y, i, acc)->0[j].1,
                c,
                x[j].1,
                y[j].1,
            ),
    decreases x, x.len() - i,
{
    reveal_with_fuel(field_ites, 2);
    if i < x.len() {
        assert(x[i].0 == y[i].0 && alike(x[i].1, y[i].1));
        ite_chooses(c, x[i].1, y[i].1);
        let v = (x[i].0, sv_ite(c, x[i].1, y[i].1)->0);
        assert forall|j: int| 0 <= j < i + 1 implies (#[trigger] acc.push(v)[j]).0 == x[j].0 && chosen(
            acc.push(v)[j].1,
            c,
            x[j].1,
            y[j].1,
        ) by {
            if j < i {
                assert(acc.push(v)[j] == acc[j]);
            }
        }
        field_ites_chosen(c, x, y, i + 1, acc.push(v));
    }
}

/// One of two symbolic values by a condition is the first where the condition holds and the second
/// elsewhere.
pub proof fn ite_chooses(c: FE, t: SV, e: SV)
    requires
        sv_ite(c, t, e) is Some,
        alike(t, e),
    ensures
        chosen(sv_ite(c, t, e)->0, c, t, e),
    decreases t,
{
    let r = sv_ite(c, t, e)->0;
    assert forall|env: Leaves| #[trigger] mean(r, env) == (if holds(sem(c, env)) {
        mean(t, env)
    } else {
        mean(e, env)
    }) by {
        if c != fe_bool(true) && c != fe_bool(false) {
            match (t, e) {
                (SV::Tuple(x), SV::Tuple(y)) => {
                    assert(all_alike(x, y));
                    ites_chosen(c, x, y, 0, Seq::empty());
                    chosen_all(sv_ites(c, x, y, 0, Seq::empty())->0, c, x, y, env);
                },
                (SV::Array(_i, x), SV::Array(_j, y)) => {
                    assert(all_alike(x, y));
                    ites_chosen(c, x, y, 0, Seq::empty());
                    chosen_all(sv_ites(c, x, y, 0, Seq::empty())->0, c, x, y, env);
                },
                (SV::Record(x), SV::Record(y)) => {
                    assert(fields_alike(x, y));
                    field_ites_chosen(c, x, y, 0, Seq::empty());
                    let v = field_ites(c, x, y, 0, Seq::empty())->0;
                    assert forall|i: int| 0 <= i < parts(x).len() implies chosen(
                        #[trigger] parts(v)[i],
                        c,
                        parts(x)[i],
                        parts(y)[i],
                    ) by {
                        assert(v[i].0 == x[i].0);
                    }
                    chosen_all(parts(v), c, parts(x), parts(y), env);
                    assert(field_means(v, env) =~= means(parts(v), env));
                    assert(field_means(x, env) =~= means(parts(x), env));
                    assert(field_means(y, env) =~= means(parts(y), env));
                    let o = means(parts(v), env);
                    if all_of(o) is Some {
                        let s = all_of(o)->0;
                        let p = Seq::new(v.len(), |i: int| (v[i].0, s[i]));
                        let q = Seq::new(x.len(), |i: int| (x[i].0, s[i]));
                        let w = Seq::new(y.len(), |i: int| (y[i].0, s[i]));
                        assert forall|i: int| 0 <= i < p.len() implies #[trigger] p[i] == q[i] && p[i] == w[i] by {
                            assert(v[i].0 == x[i].0);
                            assert(x[i].0 == y[i].0);
                        }
                        assert(p =~= q);
                        assert(p =~= w);
                    }
                },
                (SV::Formula(f), SV::Formula(g)) => {},
                _ => {
                    ite_meaning(c, scalar_fe(t), scalar_fe(e), env);
                },
            }
        }
    }
}

fn merge_all(c: &FExpr, x: &Vec<SVal>, y: &Vec<SVal>) -> (r: Result<Vec<SVal>, String>)
    ensures
        match (r, sv_ites(c.model(), sv_models(x@), sv_models(y@), 0, Seq::empty())) {
            (Ok(v), Some(m)) => sv_models(v@) == m,
            (Err(m), None) => m@ == "values that cannot be merged"@,
            _ => false,
        },
    decreases x, 0nat,
{
    let ghost cm = c.model();
    let ghost xm = sv_models(x@);
    let ghost ym = sv_models(y@);
    if x.len() != y.len() {
        proof {
            reveal_with_fuel(sv_ites, 2);
        }
        return Err(own("values that cannot be merged"));
    }
    let mut v: Vec<SVal> = Vec::new();
    let mut i: usize = 0;
    assert(sv_models(v@) =~= Seq::empty());
    while i < x.len()
        invariant
            i <= x@.len(),
            x@.len() == y@.len(),
            cm == c.model(),
            xm == sv_models(x@),
            ym == sv_models(y@),
            sv_ites(cm, xm, ym, i as int, sv_models(v@)) == sv_ites(cm, xm, ym, 0, Seq::empty()),
        decreases x.len() - i,
    {
        proof {
            reveal_with_fuel(sv_ites, 2);
            assert(xm[i as int] == x@[i as int].model());
            assert(ym[i as int] == y@[i as int].model());
        }
        match SVal::ite(c, &x[i], &y[i]) {
            Ok(e) => {
                let ghost a = v@;
                let ghost m = e.model();
                v.push(e);
                assert(sv_models(v@) =~= sv_models(a).push(m));
            },
            Err(m) => {
                return Err(m);
            },
        }
        i += 1;
    }
    proof {
        reveal_with_fuel(sv_ites, 2);
    }
    Ok(v)
}

fn merge_fields(c: &FExpr, x: &Vec<(String, SVal)>, y: &Vec<(String, SVal)>) -> (r: Result<
    Vec<(String, SVal)>,
    String,
>)
    ensures
        match (r, field_ites(c.model(), sv_fields(x@), sv_fields(y@), 0, Seq::empty())) {
            (Ok(v), Some(m)) => sv_fields(v@) == m,
            (Err(m), None) => m@ == "values that cannot be merged"@,
            _ => false,
        },
    decreases x, 0nat,
{
    let ghost cm = c.model();
    let ghost xm = sv_fields(x@);
    let ghost ym = sv_fields(y@);
    if x.len() != y.len() {
        proof {
            reveal_with_fuel(field_ites, 2);
        }
        return Err(own("values that cannot be merged"));
    }
    let mut v: Vec<(String, SVal)> = Vec::new();
    let mut i: usize = 0;
    assert(sv_fields(v@) =~= Seq::empty());
    while i < x.len()
        invariant
            i <= x@.len(),
            x@.len() == y@.len(),
            cm == c.model(),
            xm == sv_fields(x@),
            ym == sv_fields(y@),
            field_ites(cm, xm, ym, i as int, sv_fields(v@)) == field_ites(cm, xm, ym, 0, Seq::empty()),
        decreases x.len() - i,
    {
        proof {
            reveal_with_fuel(field_ites, 2);
            assert(xm[i as int] == (x@[i as int].0@, x@[i as int].1.model()));
            assert(ym[i as int] == (y@[i as int].0@, y@[i as int].1.model()));
        }
        match SVal::ite(c, &x[i].1, &y[i].1) {
            Ok(e) => {
                let ghost a = v@;
                let ghost m = (x@[i as int].0@, e.model());
                v.push((x[i].0.clone(), e));
                assert(sv_fields(v@) =~= sv_fields(a).push(m));
            },
            Err(m) => {
                return Err(m);
            },
        }
        i += 1;
    }
    proof {
        reveal_with_fuel(field_ites, 2);
    }
    Ok(v)
}

impl SVal {
    /// One of two symbolic values, by a condition.
    pub fn ite(c: &FExpr, t: &SVal, e: &SVal) -> (r: Result<SVal, String>)
        ensures
            match (r, sv_ite(c.model(), t.model(), e.model())) {
                (Ok(v), Some(m)) => v.model() == m,
                (Err(m), None) => m@ == "values that cannot be merged"@,
                _ => false,
            },
        decreases t, 1nat,
    {
        if c.is_true() {
            return Ok(t.copy());
        }
        if c.is_false() {
            return Ok(e.copy());
        }
        match (t, e) {
            (SVal::Tuple(x), SVal::Tuple(y)) => match merge_all(c, x, y) {
                Ok(v) => Ok(SVal::Tuple(v)),
                Err(m) => Err(m),
            },
            (SVal::Array(i, x), SVal::Array(_j, y)) => match merge_all(c, x, y) {
                Ok(v) => Ok(SVal::Array(Box::new(i.copy()), v)),
                Err(m) => Err(m),
            },
            (SVal::Record(x), SVal::Record(y)) => match merge_fields(c, x, y) {
                Ok(v) => Ok(SVal::Record(v)),
                Err(m) => Err(m),
            },
            (SVal::Formula(f), SVal::Formula(g)) => Ok(
                SVal::Formula(TFormula::ite(TFormula::Atom(c.clone()), f.clone(), g.clone())),
            ),
            _ => match (t.to_scalar_fexpr(), e.to_scalar_fexpr()) {
                (Some(x), Some(y)) => Ok(SVal::Sym(FExpr::ite(c.clone(), x, y), scalar_type(t))),
                _ => Err(own("values that cannot be merged")),
            },
        }
    }
}

/// The value of the element whose index value the index has, from `i` on; that of the last element
/// for any other index value.
pub open spec fn picked(vals: Seq<Val>, elems: Seq<SV>, idx: SV, i: int) -> Option<SV>
    decreases elems.len() - i,
{
    if i < 0 || i >= elems.len() {
        None
    } else if i == elems.len() - 1 {
        Some(elems[i])
    } else if i >= vals.len() {
        None
    } else {
        match picked(vals, elems, idx, i + 1) {
            Some(rest) => match sv_eq(idx, SV::Ground(vals[i])) {
                Some(c) => sv_ite(c, elems[i], rest),
                None => None,
            },
            None => None,
        }
    }
}

/// The element of an array or function at an index, which may be symbolic.
pub open spec fn sv_select(index: CT, elems: Seq<SV>, idx: SV) -> Option<SV> {
    match idx {
        SV::Ground(v) => match position(index, v) {
            Some(i) => if i < elems.len() {
                Some(elems[i as int])
            } else {
                None
            },
            None => None,
        },
        _ => match values(index) {
            Some(vals) => picked(vals, elems, idx, 0),
            None => None,
        },
    }
}

/// The value is that of the element whose index value the index has, if it is the first such
/// element from `i` on.
pub open spec fn picks(r: SV, vals: Seq<Val>, elems: Seq<SV>, idx: SV, i: int) -> bool {
    forall|env: Leaves, k: int|
        i <= k < elems.len() && k < vals.len() && mean(idx, env) == Some(vals[k]) && (forall|j: int|
            i <= j < k ==> #[trigger] vals[j] != vals[k]) ==> #[trigger] mean(r, env) == #[trigger] mean(elems[k], env)
}

/// What is selected from scalar elements by a symbolic index is the element whose index value the
/// index has.
pub proof fn picked_picks(vals: Seq<Val>, elems: Seq<SV>, idx: SV, i: int)
    requires
        0 <= i < elems.len(),
        picked(vals, elems, idx, i) is Some,
        forall|k: int| 0 <= k < elems.len() ==> scalar(#[trigger] elems[k]),
    ensures
        picks(picked(vals, elems, idx, i)->0, vals, elems, idx, i),
        scalar(picked(vals, elems, idx, i)->0),
    decreases elems.len() - i,
{
    let r = picked(vals, elems, idx, i)->0;
    if i < elems.len() - 1 {
        picked_picks(vals, elems, idx, i + 1);
        let rest = picked(vals, elems, idx, i + 1)->0;
        let c = sv_eq(idx, SV::Ground(vals[i]))->0;
        eq_tells(idx, SV::Ground(vals[i]));
        assert(scalar(elems[i]));
        assert(alike(elems[i], rest));
        ite_chooses(c, elems[i], rest);
        assert forall|env: Leaves, k: int|
            i <= k < elems.len() && k < vals.len() && mean(idx, env) == Some(vals[k]) && (forall|q: int|
                i <= q < k ==> #[trigger] vals[q] != vals[k]) implies #[trigger] mean(r, env) == #[trigger] mean(
            elems[k],
            env,
        ) by {
            assert(mean(SV::Ground(vals[i]), env) == Some(vals[i]));
            assert(holds(sem(c, env)) == (mean(idx, env) == Some(vals[i])));
            if k > i {
                assert(vals[i] != vals[k]);
                assert(mean(rest, env) == mean(elems[k], env));
            }
        }
    }
}

/// The element of an array or function at an index, which may be symbolic.
pub fn select_indexed(index: &CType, elems: &Vec<SVal>, idx: &SVal) -> (r: Result<SVal, String>)
    ensures
        match (r, sv_select(index.model(), sv_models(elems@), idx.model())) {
            (Ok(v), Some(m)) => v.model() == m,
            (Err(m), None) => m@ == "Index out of bounds."@,
            _ => false,
        },
{
    match idx {
        SVal::Ground(v) => {
            match index.index_of(v) {
                Some(i) => {
                    if i < elems.len() {
                        assert(sv_models(elems@)[i as int] == elems@[i as int].model());
                        Ok(elems[i].copy())
                    } else {
                        Err(own("Index out of bounds."))
                    }
                },
                None => Err(own("Index out of bounds.")),
            }
        },
        _ => {
            match index.enumerate() {
                Some(vals) => match pick(&vals, elems, idx, 0) {
                    Some(r) => Ok(r),
                    None => Err(own("Index out of bounds.")),
                },
                None => Err(own("Index out of bounds.")),
            }
        },
    }
}

/// The content of a symbolic value, where there is one.
pub open spec fn opt_sv(v: Option<SVal>) -> Option<SV> {
    match v {
        Some(x) => Some(x.model()),
        None => None,
    }
}

fn pick(vals: &Vec<Value>, elems: &Vec<SVal>, idx: &SVal, i: usize) -> (r: Option<SVal>)
    ensures
        opt_sv(r) == picked(models(vals@), sv_models(elems@), idx.model(), i as int),
    decreases elems.len() - i,
{
    if i >= elems.len() {
        return None;
    }
    assert(sv_models(elems@)[i as int] == elems@[i as int].model());
    if i == elems.len() - 1 {
        return Some(elems[i].copy());
    }
    if i >= vals.len() {
        return None;
    }
    assert(models(vals@)[i as int] == vals@[i as int].model());
    match pick(vals, elems, idx, i + 1) {
        Some(rest) => {
            let g = SVal::Ground(vals[i].clone());
            match idx.eq_sval(&g) {
                Ok(c) => match SVal::ite(&c, &elems[i], &rest) {
                    Ok(v) => Some(v),
                    Err(_) => None,
                },
                Err(_) => None,
            }
        },
        None => None,
    }
}

/// The symbolic value with every leaf read in the next state.
pub open spec fn sv_primed(v: SV) -> SV
    decreases v,
{
    match v {
        SV::Sym(e, t) => SV::Sym(primed(e), t),
        SV::Tuple(vs) => SV::Tuple(sv_primeds(vs)),
        SV::Record(fs) => SV::Record(fields_primed(fs)),
        SV::Array(t, vs) => SV::Array(t, sv_primeds(vs)),
        _ => v,
    }
}

/// The symbolic values with every leaf read in the next state.
pub open spec fn sv_primeds(vs: Seq<SV>) -> Seq<SV>
    decreases vs,
{
    Seq::new(
        vs.len(),
        |i: int|
            if 0 <= i < vs.len() {
                sv_primed(vs[i])
            } else {
                arbitrary()
            },
    )
}

/// The fields with every leaf read in the next state.
pub open spec fn fields_primed(fs: Seq<(Seq<char>, SV)>) -> Seq<(Seq<char>, SV)>
    decreases fs,
{
    Seq::new(
        fs.len(),
        |i: int|
            if 0 <= i < fs.len() {
                (fs[i].0, sv_primed(fs[i].1))
            } else {
                arbitrary()
            },
    )
}

fn prime_svals(v: &Vec<SVal>) -> (r: Vec<SVal>)
    ensures
        sv_models(r@) == sv_primeds(sv_models(v@)),
    decreases v, 0nat,
{
    let mut r: Vec<SVal> = Vec::new();
    let mut i: usize = 0;
    while i < v.len()
        invariant
            i <= v@.len(),
            r@.len() == i,
            forall|j: int| 0 <= j < i ==> (#[trigger] r@[j]).model() == sv_primed(v@[j].model()),
        decreases v.len() - i,
    {
        r.push(v[i].to_next());
        i += 1;
    }
    assert(sv_models(r@) =~= sv_primeds(sv_models(v@)));
    r
}

impl SVal {
    /// The symbolic value with every leaf read in the next state.
    pub fn to_next(&self) -> (r: SVal)
        ensures
            r.model() == sv_primed(self.model()),
        decreases self, 1nat,
    {
        match self {
            SVal::Sym(e, t) => SVal::Sym(prime(e), t.clone()),
            SVal::Tuple(v) => SVal::Tuple(prime_svals(v)),
            SVal::Record(v) => {
                let mut r: Vec<(String, SVal)> = Vec::new();
                let mut i: usize = 0;
                while i < v.len()
                    invariant
                        i <= v@.len(),
                        r@.len() == i,
                        decreases_to!(self => v),
                        forall|j: int|
                            0 <= j < i ==> (#[trigger] r@[j]).0@ == v@[j].0@ && r@[j].1.model() == sv_primed(
                                v@[j].1.model(),
                            ),
                    decreases v.len() - i,
                {
                    r.push((v[i].0.clone(), v[i].1.to_next()));
                    i += 1;
                }
                assert(sv_fields(r@) =~= fields_primed(sv_fields(v@)));
                SVal::Record(r)
            },
            SVal::Array(t, v) => SVal::Array(Box::new(t.copy()), prime_svals(v)),
            _ => self.copy(),
        }
    }
}

} // verus!
