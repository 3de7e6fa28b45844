//! Flat expressions over leaf state variables.

use crate::ast::VarClass;
use crate::num::{Int, Rat, Q};
use crate::types::{Tid, TypeId};
use crate::value::{Val, Value};
use std::collections::BTreeSet;
use vstd::prelude::*;

verus! {

/// Index into the leaf table.
pub type LeafId = u32;

/// The scalar type of a leaf variable.
#[derive(Debug)]
pub enum LeafType {
    /// Truth values.
    Bool,
    /// The integers between two bounds, both included.
    Range(Int, Int),
    /// Integers, with the bounds that are known.
    Int { min: Option<Int>, max: Option<Int> },
    /// Reals.
    Real,
    /// A scalar type with its element names.
    Scalar(TypeId, Vec<String>),
}

/// The mathematical content of a [`LeafType`].
pub ghost enum LT {
    Bool,
    Range(int, int),
    Int { min: Option<int>, max: Option<int> },
    Real,
    Scalar(Tid, Seq<Seq<char>>),
}

/// The content of an optional integer.
pub open spec fn opt_int(x: Option<Int>) -> Option<int> {
    match x {
        Some(n) => Some(n@),
        None => None,
    }
}

/// A copy of an optional integer.
pub fn clone_opt_int(x: &Option<Int>) -> (r: Option<Int>)
    ensures
        opt_int(r) == opt_int(*x),
{
    match x {
        Some(n) => Some(n.clone()),
        None => None,
    }
}

/// Copies of several strings.
pub fn clone_strings(v: &Vec<String>) -> (r: Vec<String>)
    ensures
        r@ == v@,
{
    let mut out: Vec<String> = Vec::new();
    let mut i: usize = 0;
    while i < v.len()
        invariant
            i <= v.len(),
            out@ == v@.take(i as int),
        decreases v.len() - i,
    {
        let s = v[i].clone();
        out.push(s);
        i += 1;
        assert(out@ =~= v@.take(i as int));
    }
    assert(out@ =~= v@);
    out
}

impl View for LeafType {
    type V = LT;

    open spec fn view(&self) -> LT {
        match self {
            LeafType::Bool => LT::Bool,
            LeafType::Range(lo, hi) => LT::Range(lo@, hi@),
            LeafType::Int { min, max } => LT::Int { min: opt_int(*min), max: opt_int(*max) },
            LeafType::Real => LT::Real,
            LeafType::Scalar(t, es) => LT::Scalar(t@, crate::text::views(es@)),
        }
    }
}

impl Clone for LeafType {
    fn clone(&self) -> (r: LeafType)
        ensures
            r@ == self@,
    {
        match self {
            LeafType::Bool => LeafType::Bool,
            LeafType::Range(lo, hi) => LeafType::Range(lo.clone(), hi.clone()),
            LeafType::Int { min, max } => LeafType::Int {
                min: clone_opt_int(min),
                max: clone_opt_int(max),
            },
            LeafType::Real => LeafType::Real,
            LeafType::Scalar(t, es) => LeafType::Scalar(t.clone(), clone_strings(es)),
        }
    }
}

/// How many values a leaf type has, where it is finite.
pub open spec fn leaf_card(t: LT) -> Option<nat> {
    match t {
        LT::Bool => Some(2),
        LT::Range(lo, hi) => Some(
            if hi < lo {
                0
            } else {
                (hi - lo + 1) as nat
            },
        ),
        LT::Scalar(_, es) => Some(es.len()),
        _ => None,
    }
}

/// The `i`-th value of a finite leaf type.
pub open spec fn leaf_value(t: LT, i: int) -> Val {
    match t {
        LT::Bool => Val::Bool(i == 1),
        LT::Range(lo, hi) => Val::Num(Q::whole(lo + i)),
        LT::Scalar(id, _) => Val::Scalar(id, i as nat),
        _ => arbitrary(),
    }
}

/// All values of a finite leaf type, in order.
pub open spec fn leaf_values(t: LT) -> Option<Seq<Val>> {
    match leaf_card(t) {
        Some(n) => Some(Seq::new(n, |i: int| leaf_value(t, i))),
        None => None,
    }
}

impl LeafType {
    /// The number of values, if it is finite and fits a machine word.
    pub fn cardinality(&self) -> (r: Option<u64>)
        ensures
            match r {
                Some(n) => leaf_card(self@) == Some(n as nat),
                None => leaf_card(self@) is None || leaf_card(self@)->0 > u64::MAX,
            },
    {
        match self {
            LeafType::Bool => Some(2),
            LeafType::Range(lo, hi) => {
                if hi.less(lo) {
                    Some(0)
                } else {
                    hi.minus(lo).plus(&Int::from_u64(1)).to_u64()
                }
            },
            LeafType::Scalar(_, es) => Some(es.len() as u64),
            _ => None,
        }
    }

    /// All values of a finite type, in order.
    pub fn values(&self) -> (r: Option<Vec<Value>>)
        ensures
            match r {
                Some(vs) => leaf_values(self@) == Some(crate::value::models(vs@)),
                None => leaf_values(self@) is None,
            },
    {
        match self {
            LeafType::Bool => {
                let mut out: Vec<Value> = Vec::new();
                out.push(Value::Bool(false));
                out.push(Value::Bool(true));
                assert(crate::value::models(out@) =~= leaf_values(self@)->0);
                Some(out)
            },
            LeafType::Range(lo, hi) => {
                let mut out: Vec<Value> = Vec::new();
                let mut i = lo.clone();
                let one = Int::from_u64(1);
                while !hi.less(&i)
                    invariant
                        one@ == 1,
                        i@ == lo@ + out@.len(),
                        out@.len() > 0 ==> lo@ + out@.len() <= hi@ + 1,
                        forall|k: int|
                            0 <= k < out@.len() ==> out@[k].model() == Val::Num(
                                Q::whole(lo@ + k),
                            ),
                    decreases hi@ + 1 - i@,
                {
                    out.push(Value::Num(Rat::from_integer(i.clone())));
                    i = i.plus(&one);
                }
                assert(crate::value::models(out@) =~= leaf_values(self@)->0);
                Some(out)
            },
            LeafType::Scalar(id, es) => {
                let mut out: Vec<Value> = Vec::new();
                let mut i: usize = 0;
                while i < es.len()
                    invariant
                        i <= es.len(),
                        out.len() == i,
                        forall|k: int|
                            0 <= k < i ==> out@[k].model() == Val::Scalar(id@, k as nat),
                    decreases es.len() - i,
                {
                    out.push(Value::Scalar(id.clone(), i));
                    i += 1;
                }
                assert(crate::value::models(out@) =~= leaf_values(self@)->0);
                Some(out)
            },
            _ => None,
        }
    }
}

/// Metadata of one leaf variable.
#[derive(Debug)]
pub struct LeafInfo {
    /// Display path, such as `pc[1].phase`.
    pub name: String,
    /// The leaf's type.
    pub ty: LeafType,
    /// The class of the state variable that the leaf is part of.
    pub class: VarClass,
}

/// A flat expression.
#[derive(Debug)]
pub enum FExpr {
    /// A ground value.
    Const(Value),
    /// A leaf variable; the flag is set for its next-state value.
    Var(LeafId, bool),
    Not(Box<FExpr>),
    And(Vec<FExpr>),
    Or(Vec<FExpr>),
    Ite(Box<FExpr>, Box<FExpr>, Box<FExpr>),
    /// Equality of two scalar expressions.
    Eq(Box<FExpr>, Box<FExpr>),
    Lt(Box<FExpr>, Box<FExpr>),
    Le(Box<FExpr>, Box<FExpr>),
    Add(Vec<FExpr>),
    Mul(Vec<FExpr>),
    Neg(Box<FExpr>),
    /// Division of rationals.
    Div(Box<FExpr>, Box<FExpr>),
    /// Euclidean quotient of integers.
    IDiv(Box<FExpr>, Box<FExpr>),
    /// Euclidean remainder of integers.
    Mod(Box<FExpr>, Box<FExpr>),
}

/// The mathematical content of an [`FExpr`].
pub ghost enum FE {
    Const(Val),
    Var(LeafId, bool),
    Not(Box<FE>),
    And(Seq<FE>),
    Or(Seq<FE>),
    Ite(Box<FE>, Box<FE>, Box<FE>),
    Eq(Box<FE>, Box<FE>),
    Lt(Box<FE>, Box<FE>),
    Le(Box<FE>, Box<FE>),
    Add(Seq<FE>),
    Mul(Seq<FE>),
    Neg(Box<FE>),
    Div(Box<FE>, Box<FE>),
    IDiv(Box<FE>, Box<FE>),
    Mod(Box<FE>, Box<FE>),
}

impl FExpr {
    /// The content of the expression.
    pub open spec fn model(&self) -> FE
        decreases self,
    {
        match self {
            FExpr::Const(v) => FE::Const(v.model()),
            FExpr::Var(l, p) => FE::Var(*l, *p),
            FExpr::Not(a) => FE::Not(Box::new(a.model())),
            FExpr::And(es) => FE::And(fe_models(es@)),
            FExpr::Or(es) => FE::Or(fe_models(es@)),
            FExpr::Ite(c, t, e) => FE::Ite(
                Box::new(c.model()),
                Box::new(t.model()),
                Box::new(e.model()),
            ),
            FExpr::Eq(a, b) => FE::Eq(Box::new(a.model()), Box::new(b.model())),
            FExpr::Lt(a, b) => FE::Lt(Box::new(a.model()), Box::new(b.model())),
            FExpr::Le(a, b) => FE::Le(Box::new(a.model()), Box::new(b.model())),
            FExpr::Add(es) => FE::Add(fe_models(es@)),
            FExpr::Mul(es) => FE::Mul(fe_models(es@)),
            FExpr::Neg(a) => FE::Neg(Box::new(a.model())),
            FExpr::Div(a, b) => FE::Div(Box::new(a.model()), Box::new(b.model())),
            FExpr::IDiv(a, b) => FE::IDiv(Box::new(a.model()), Box::new(b.model())),
            FExpr::Mod(a, b) => FE::Mod(Box::new(a.model()), Box::new(b.model())),
        }
    }
}

/// The contents of several expressions.
pub open spec fn fe_models(es: Seq<FExpr>) -> Seq<FE>
    decreases es,
{
    Seq::new(
        es.len(),
        |i: int|
            if 0 <= i < es.len() {
                es[i].model()
            } else {
                arbitrary()
            },
    )
}

/// Values of the leaves: of a leaf in the current or (flag set) the next state.
pub type Leaves = spec_fn(LeafId, bool) -> Option<Val>;

/// The outcome `true`.
pub open spec fn holds(o: Option<Val>) -> bool {
    o == Some(Val::Bool(true))
}

/// A truth value as an outcome.
pub open spec fn truth(b: bool) -> Option<Val> {
    Some(Val::Bool(b))
}

/// The number of an outcome.
pub open spec fn number(o: Option<Val>) -> Option<Q> {
    match o {
        Some(Val::Num(q)) => Some(q),
        _ => None,
    }
}

/// A number as an outcome.
pub open spec fn of_number(q: Option<Q>) -> Option<Val> {
    match q {
        Some(x) => Some(Val::Num(x)),
        None => None,
    }
}

/// The value of an expression. There is none where a leaf has none, where an operator meets
/// operands that it does not take, and on division by zero. A connective counts an operand
/// without a value as not true; equality and order do not hold of one.
pub open spec fn sem(e: FE, env: Leaves) -> Option<Val>
    decreases e,
{
    match e {
        FE::Const(v) => Some(v),
        FE::Var(l, p) => env(l, p),
        FE::Not(a) => truth(!holds(sem(*a, env))),
        FE::And(es) => truth(all_hold(sems(es, env))),
        FE::Or(es) => truth(some_holds(sems(es, env))),
        FE::Ite(c, t, f) => if holds(sem(*c, env)) {
            sem(*t, env)
        } else {
            sem(*f, env)
        },
        FE::Eq(a, b) => truth(sem(*a, env) is Some && sem(*a, env) == sem(*b, env)),
        FE::Lt(a, b) => truth(
            match (number(sem(*a, env)), number(sem(*b, env))) {
                (Some(x), Some(y)) => x.less(y),
                _ => false,
            },
        ),
        FE::Le(a, b) => truth(
            match (number(sem(*a, env)), number(sem(*b, env))) {
                (Some(x), Some(y)) => x.at_most(y),
                _ => false,
            },
        ),
        FE::Add(es) => of_number(total(sems(es, env))),
        FE::Mul(es) => of_number(product(sems(es, env))),
        FE::Neg(a) => match number(sem(*a, env)) {
            Some(x) => Some(Val::Num(x.neg())),
            None => None,
        },
        FE::Div(a, b) => match (number(sem(*a, env)), number(sem(*b, env))) {
            (Some(x), Some(y)) => of_number(q_div(x, y)),
            _ => None,
        },
        FE::IDiv(a, b) => match (number(sem(*a, env)), number(sem(*b, env))) {
            (Some(x), Some(y)) => of_number(q_idiv(x, y)),
            _ => None,
        },
        FE::Mod(a, b) => match (number(sem(*a, env)), number(sem(*b, env))) {
            (Some(x), Some(y)) => of_number(q_mod(x, y)),
            _ => None,
        },
    }
}

/// Quotient of two numbers, if the divisor is not zero.
pub open spec fn q_div(x: Q, y: Q) -> Option<Q> {
    if y.n == 0 {
        None
    } else {
        Some(x.over(y))
    }
}

/// Euclidean quotient of two whole numbers, if the divisor is not zero.
pub open spec fn q_idiv(x: Q, y: Q) -> Option<Q> {
    if y.n == 0 || !x.is_int() || !y.is_int() {
        None
    } else {
        Some(Q::whole(x.n / y.n))
    }
}

/// Euclidean remainder of two whole numbers, if the divisor is not zero.
pub open spec fn q_mod(x: Q, y: Q) -> Option<Q> {
    if y.n == 0 || !x.is_int() || !y.is_int() {
        None
    } else {
        Some(Q::whole(x.n % y.n))
    }
}

/// The values of several expressions.
pub open spec fn sems(es: Seq<FE>, env: Leaves) -> Seq<Option<Val>>
    decreases es,
{
    Seq::new(
        es.len(),
        |i: int|
            if 0 <= i < es.len() {
                sem(es[i], env)
            } else {
                arbitrary()
            },
    )
}

/// Every outcome is `true`.
pub open spec fn all_hold(outs: Seq<Option<Val>>) -> bool {
    forall|i: int| 0 <= i < outs.len() ==> holds(#[trigger] outs[i])
}

/// Some outcome is `true`.
pub open spec fn some_holds(outs: Seq<Option<Val>>) -> bool {
    exists|i: int| 0 <= i < outs.len() && holds(#[trigger] outs[i])
}

/// The sum of the outcomes.
pub open spec fn total(outs: Seq<Option<Val>>) -> Option<Q>
    decreases outs.len(),
{
    if outs.len() == 0 {
        Some(Q::whole(0))
    } else {
        match (total(outs.drop_last()), number(outs.last())) {
            (Some(x), Some(y)) => Some(x.plus(y)),
            _ => None,
        }
    }
}

/// The product of the outcomes.
pub open spec fn product(outs: Seq<Option<Val>>) -> Option<Q>
    decreases outs.len(),
{
    if outs.len() == 0 {
        Some(Q::whole(1))
    } else {
        match (product(outs.drop_last()), number(outs.last())) {
            (Some(x), Some(y)) => Some(x.times(y)),
            _ => None,
        }
    }
}

/// Copies of several expressions.
pub fn clone_fexprs(es: &Vec<FExpr>) -> (r: Vec<FExpr>)
    ensures
        fe_models(r@) == fe_models(es@),
    decreases es, 0nat,
{
    let mut out: Vec<FExpr> = Vec::new();
    let mut i: usize = 0;
    while i < es.len()
        invariant
            i <= es.len(),
            out.len() == i,
            forall|k: int| 0 <= k < i ==> out@[k].model() == es@[k].model(),
        decreases es.len() - i,
    {
        out.push(es[i].clone());
        i += 1;
    }
    assert(fe_models(out@) =~= fe_models(es@));
    out
}

/// Whether two lists hold the same expressions.
fn same_fexprs(a: &Vec<FExpr>, b: &Vec<FExpr>) -> (r: bool)
    ensures
        r == (fe_models(a@) == fe_models(b@)),
    decreases a,
{
    if a.len() != b.len() {
        assert(fe_models(a@).len() != fe_models(b@).len());
        return false;
    }
    let mut i: usize = 0;
    while i < a.len()
        invariant
            i <= a.len(),
            a.len() == b.len(),
            forall|k: int| 0 <= k < i ==> a@[k].model() == b@[k].model(),
        decreases a.len() - i,
    {
        if !a[i].same(&b[i]) {
            assert(fe_models(a@)[i as int] != fe_models(b@)[i as int]);
            return false;
        }
        i += 1;
    }
    assert(fe_models(a@) =~= fe_models(b@));
    true
}

impl Clone for FExpr {
    fn clone(&self) -> (r: FExpr)
        ensures
            r.model() == self.model(),
        decreases self, 0nat,
    {
        match self {
            FExpr::Const(v) => FExpr::Const(v.clone()),
            FExpr::Var(l, p) => FExpr::Var(*l, *p),
            FExpr::Not(a) => FExpr::Not(dup(a)),
            FExpr::And(es) => FExpr::And(clone_fexprs(es)),
            FExpr::Or(es) => FExpr::Or(clone_fexprs(es)),
            FExpr::Ite(c, t, e) => FExpr::Ite(dup(c), dup(t), dup(e)),
            FExpr::Eq(a, b) => FExpr::Eq(dup(a), dup(b)),
            FExpr::Lt(a, b) => FExpr::Lt(dup(a), dup(b)),
            FExpr::Le(a, b) => FExpr::Le(dup(a), dup(b)),
            FExpr::Add(es) => FExpr::Add(clone_fexprs(es)),
            FExpr::Mul(es) => FExpr::Mul(clone_fexprs(es)),
            FExpr::Neg(a) => FExpr::Neg(dup(a)),
            FExpr::Div(a, b) => FExpr::Div(dup(a), dup(b)),
            FExpr::IDiv(a, b) => FExpr::IDiv(dup(a), dup(b)),
            FExpr::Mod(a, b) => FExpr::Mod(dup(a), dup(b)),
        }
    }
}

fn dup(e: &Box<FExpr>) -> (r: Box<FExpr>)
    ensures
        r.model() == e.model(),
    decreases e, 1nat,
{
    Box::new((**e).clone())
}

/// The negation, without a double negation.
pub open spec fn fe_not(e: FE) -> FE {
    match e {
        FE::Const(Val::Bool(b)) => FE::Const(Val::Bool(!b)),
        FE::Not(a) => *a,
        _ => FE::Not(Box::new(e)),
    }
}

/// The constant for a truth value.
pub open spec fn fe_bool(b: bool) -> FE {
    FE::Const(Val::Bool(b))
}

/// The conjuncts that remain of several expressions: `true` is dropped, and a conjunction
/// stands for its own conjuncts.
pub open spec fn conjuncts(es: Seq<FE>) -> Seq<FE>
    decreases es.len(),
{
    if es.len() == 0 {
        Seq::empty()
    } else {
        let rest = conjuncts(es.drop_last());
        let e = es.last();
        if e == fe_bool(true) {
            rest
        } else if e is And {
            rest + e->And_0
        } else {
            rest.push(e)
        }
    }
}

/// The disjuncts that remain of several expressions: `false` is dropped, and a disjunction
/// stands for its own disjuncts.
pub open spec fn disjuncts(es: Seq<FE>) -> Seq<FE>
    decreases es.len(),
{
    if es.len() == 0 {
        Seq::empty()
    } else {
        let rest = disjuncts(es.drop_last());
        let e = es.last();
        if e == fe_bool(false) {
            rest
        } else if e is Or {
            rest + e->Or_0
        } else {
            rest.push(e)
        }
    }
}

/// The conjunction of several expressions, simplified.
pub open spec fn fe_and(es: Seq<FE>) -> FE {
    if es.contains(fe_bool(false)) {
        fe_bool(false)
    } else {
        let cs = conjuncts(es);
        if cs.len() == 0 {
            fe_bool(true)
        } else if cs.len() == 1 {
            cs[0]
        } else {
            FE::And(cs)
        }
    }
}

/// The disjunction of several expressions, simplified.
pub open spec fn fe_or(es: Seq<FE>) -> FE {
    if es.contains(fe_bool(true)) {
        fe_bool(true)
    } else {
        let ds = disjuncts(es);
        if ds.len() == 0 {
            fe_bool(false)
        } else if ds.len() == 1 {
            ds[0]
        } else {
            FE::Or(ds)
        }
    }
}

/// The conditional, simplified.
pub open spec fn fe_ite(c: FE, t: FE, e: FE) -> FE {
    if c == fe_bool(true) {
        t
    } else if c == fe_bool(false) {
        e
    } else if t == e {
        t
    } else {
        FE::Ite(Box::new(c), Box::new(t), Box::new(e))
    }
}

/// The equation, simplified.
pub open spec fn fe_eq(a: FE, b: FE) -> FE {
    if a is Const && b is Const {
        fe_bool(a == b)
    } else if a == b {
        fe_bool(true)
    } else {
        FE::Eq(Box::new(a), Box::new(b))
    }
}

/// The leaves that occur in an expression, in the current or (flag set) the next state.
pub open spec fn fe_leaves(e: FE, primed: bool) -> Set<LeafId>
    decreases e,
{
    match e {
        FE::Const(_) => Set::empty(),
        FE::Var(l, p) => if p == primed {
            set![l]
        } else {
            Set::empty()
        },
        FE::Not(a) => fe_leaves(*a, primed),
        FE::Neg(a) => fe_leaves(*a, primed),
        FE::And(es) => all_leaves(es, primed),
        FE::Or(es) => all_leaves(es, primed),
        FE::Add(es) => all_leaves(es, primed),
        FE::Mul(es) => all_leaves(es, primed),
        FE::Ite(a, b, c) => fe_leaves(*a, primed) + fe_leaves(*b, primed) + fe_leaves(*c, primed),
        FE::Eq(a, b) => fe_leaves(*a, primed) + fe_leaves(*b, primed),
        FE::Lt(a, b) => fe_leaves(*a, primed) + fe_leaves(*b, primed),
        FE::Le(a, b) => fe_leaves(*a, primed) + fe_leaves(*b, primed),
        FE::Div(a, b) => fe_leaves(*a, primed) + fe_leaves(*b, primed),
        FE::IDiv(a, b) => fe_leaves(*a, primed) + fe_leaves(*b, primed),
        FE::Mod(a, b) => fe_leaves(*a, primed) + fe_leaves(*b, primed),
    }
}

/// The leaves that occur in several expressions.
pub open spec fn all_leaves(es: Seq<FE>, primed: bool) -> Set<LeafId>
    decreases es,
{
    if es.len() == 0 {
        Set::empty()
    } else {
        all_leaves(es.drop_last(), primed) + fe_leaves(es.last(), primed)
    }
}

fn list_leaves(es: &Vec<FExpr>, cur: &mut BTreeSet<LeafId>, next: &mut BTreeSet<LeafId>)
    ensures
        final(cur)@ == old(cur)@ + all_leaves(fe_models(es@), false),
        final(next)@ == old(next)@ + all_leaves(fe_models(es@), true),
    decreases es,
{
    let ghost ms = fe_models(es@);
    let mut i: usize = 0;
    proof {
        assert(ms.take(0) =~= Seq::empty());
        assert(cur@ + all_leaves(ms.take(0), false) =~= cur@);
        assert(next@ + all_leaves(ms.take(0), true) =~= next@);
    }
    while i < es.len()
        invariant
            i <= es@.len(),
            ms == fe_models(es@),
            cur@ == old(cur)@ + all_leaves(ms.take(i as int), false),
            next@ == old(next)@ + all_leaves(ms.take(i as int), true),
        decreases es.len() - i,
    {
        es[i].leaves(cur, next);
        proof {
            assert(ms.take(i + 1).drop_last() =~= ms.take(i as int));
            assert(ms.take(i + 1).last() == es@[i as int].model());
            assert(cur@ =~= old(cur)@ + all_leaves(ms.take(i + 1), false));
            assert(next@ =~= old(next)@ + all_leaves(ms.take(i + 1), true));
        }
        i += 1;
    }
    assert(ms.take(i as int) =~= ms);
}

impl FExpr {
    /// Adds the leaves that occur, those of the current and those of the next state.
    pub fn leaves(&self, cur: &mut BTreeSet<LeafId>, next: &mut BTreeSet<LeafId>)
        ensures
            final(cur)@ == old(cur)@ + fe_leaves(self.model(), false),
            final(next)@ == old(next)@ + fe_leaves(self.model(), true),
        decreases self,
    {
        match self {
            FExpr::Const(_v) => {},
            FExpr::Var(l, p) => {
                if *p {
                    next.insert(*l);
                } else {
                    cur.insert(*l);
                }
            },
            FExpr::Not(a) => {
                a.leaves(cur, next);
            },
            FExpr::Neg(a) => {
                a.leaves(cur, next);
            },
            FExpr::And(es) => {
                list_leaves(es, cur, next);
            },
            FExpr::Or(es) => {
                list_leaves(es, cur, next);
            },
            FExpr::Add(es) => {
                list_leaves(es, cur, next);
            },
            FExpr::Mul(es) => {
                list_leaves(es, cur, next);
            },
            FExpr::Ite(a, b, c) => {
                a.leaves(cur, next);
                b.leaves(cur, next);
                c.leaves(cur, next);
            },
            FExpr::Eq(a, b) => {
                a.leaves(cur, next);
                b.leaves(cur, next);
            },
            FExpr::Lt(a, b) => {
                a.leaves(cur, next);
                b.leaves(cur, next);
            },
            FExpr::Le(a, b) => {
                a.leaves(cur, next);
                b.leaves(cur, next);
            },
            FExpr::Div(a, b) => {
                a.leaves(cur, next);
                b.leaves(cur, next);
            },
            FExpr::IDiv(a, b) => {
                a.leaves(cur, next);
                b.leaves(cur, next);
            },
            FExpr::Mod(a, b) => {
                a.leaves(cur, next);
                b.leaves(cur, next);
            },
        }
        proof {
            assert(cur@ =~= old(cur)@ + fe_leaves(self.model(), false));
            assert(next@ =~= old(next)@ + fe_leaves(self.model(), true));
        }
    }
}

impl FExpr {
    /// Equality of expressions.
    pub fn same(&self, o: &FExpr) -> (r: bool)
        ensures
            r == (self.model() == o.model()),
        decreases self,
    {
        match (self, o) {
            (FExpr::Const(a), FExpr::Const(b)) => a.same(b),
            (FExpr::Var(a, p), FExpr::Var(b, q)) => *a == *b && *p == *q,
            (FExpr::Not(a), FExpr::Not(b)) => a.same(b),
            (FExpr::And(a), FExpr::And(b)) => same_fexprs(a, b),
            (FExpr::Or(a), FExpr::Or(b)) => same_fexprs(a, b),
            (FExpr::Ite(a, b, c), FExpr::Ite(x, y, z)) => a.same(x) && b.same(y) && c.same(z),
            (FExpr::Eq(a, b), FExpr::Eq(x, y)) => a.same(x) && b.same(y),
            (FExpr::Lt(a, b), FExpr::Lt(x, y)) => a.same(x) && b.same(y),
            (FExpr::Le(a, b), FExpr::Le(x, y)) => a.same(x) && b.same(y),
            (FExpr::Add(a), FExpr::Add(b)) => same_fexprs(a, b),
            (FExpr::Mul(a), FExpr::Mul(b)) => same_fexprs(a, b),
            (FExpr::Neg(a), FExpr::Neg(b)) => a.same(b),
            (FExpr::Div(a, b), FExpr::Div(x, y)) => a.same(x) && b.same(y),
            (FExpr::IDiv(a, b), FExpr::IDiv(x, y)) => a.same(x) && b.same(y),
            (FExpr::Mod(a, b), FExpr::Mod(x, y)) => a.same(x) && b.same(y),
            _ => false,
        }
    }

    /// The constant `true`.
    pub fn tt() -> (r: FExpr)
        ensures
            r.model() == fe_bool(true),
    {
        FExpr::Const(Value::Bool(true))
    }

    /// The constant `false`.
    pub fn ff() -> (r: FExpr)
        ensures
            r.model() == fe_bool(false),
    {
        FExpr::Const(Value::Bool(false))
    }

    /// Whether the expression is the constant `true`.
    pub fn is_true(&self) -> (r: bool)
        ensures
            r == (self.model() == fe_bool(true)),
    {
        match self {
            FExpr::Const(Value::Bool(b)) => *b,
            _ => false,
        }
    }

    /// Whether the expression is the constant `false`.
    pub fn is_false(&self) -> (r: bool)
        ensures
            r == (self.model() == fe_bool(false)),
    {
        match self {
            FExpr::Const(Value::Bool(b)) => !*b,
            _ => false,
        }
    }

    /// The negation.
    pub fn not(e: FExpr) -> (r: FExpr)
        ensures
            r.model() == fe_not(e.model()),
    {
        match e {
            FExpr::Const(Value::Bool(b)) => FExpr::Const(Value::Bool(!b)),
            FExpr::Not(inner) => *inner,
            other => FExpr::Not(Box::new(other)),
        }
    }

    /// The conjunction.
    pub fn and(es: Vec<FExpr>) -> (r: FExpr)
        ensures
            r.model() == fe_and(fe_models(es@)),
    {
        let mut out: Vec<FExpr> = Vec::new();
        let mut i: usize = 0;
        let ghost ms = fe_models(es@);
        while i < es.len()
            invariant
                i <= es.len(),
                ms == fe_models(es@),
                fe_models(out@) == conjuncts(ms.take(i as int)),
                forall|k: int| 0 <= k < i ==> ms[k] != fe_bool(false),
            decreases es.len() - i,
        {
            proof {
                assert(ms.take(i + 1).drop_last() =~= ms.take(i as int));
                assert(ms.take(i + 1).last() == es@[i as int].model());
            }
            if es[i].is_false() {
                assert(ms[i as int] == fe_bool(false));
                return FExpr::ff();
            }
            if !es[i].is_true() {
                match &es[i] {
                    FExpr::And(inner) => {
                        let ghost before = out@;
                        let mut more = clone_fexprs(inner);
                        let ghost added = more@;
                        out.append(&mut more);
                        assert(fe_models(out@) =~= fe_models(before) + fe_models(added));
                    },
                    other => {
                        let ghost before = out@;
                        out.push(other.clone());
                        assert(fe_models(out@) =~= fe_models(before).push(es@[i as int].model()));
                    },
                }
            }
            i += 1;
        }
        assert(ms.take(i as int) =~= ms);
        assert(!ms.contains(fe_bool(false)));
        if out.len() == 0 {
            FExpr::tt()
        } else if out.len() == 1 {
            assert(fe_models(out@)[0] == out@[0].model());
            out.remove(0)
        } else {
            FExpr::And(out)
        }
    }

    /// The disjunction.
    pub fn or(es: Vec<FExpr>) -> (r: FExpr)
        ensures
            r.model() == fe_or(fe_models(es@)),
    {
        let mut out: Vec<FExpr> = Vec::new();
        let mut i: usize = 0;
        let ghost ms = fe_models(es@);
        while i < es.len()
            invariant
                i <= es.len(),
                ms == fe_models(es@),
                fe_models(out@) == disjuncts(ms.take(i as int)),
                forall|k: int| 0 <= k < i ==> ms[k] != fe_bool(true),
            decreases es.len() - i,
        {
            proof {
                assert(ms.take(i + 1).drop_last() =~= ms.take(i as int));
                assert(ms.take(i + 1).last() == es@[i as int].model());
            }
            if es[i].is_true() {
                assert(ms[i as int] == fe_bool(true));
                return FExpr::tt();
            }
            if !es[i].is_false() {
                match &es[i] {
                    FExpr::Or(inner) => {
                        let ghost before = out@;
                        let mut more = clone_fexprs(inner);
                        let ghost added = more@;
                        out.append(&mut more);
                        assert(fe_models(out@) =~= fe_models(before) + fe_models(added));
                    },
                    other => {
                        let ghost before = out@;
                        out.push(other.clone());
                        assert(fe_models(out@) =~= fe_models(before).push(es@[i as int].model()));
                    },
                }
            }
            i += 1;
        }
        assert(ms.take(i as int) =~= ms);
        assert(!ms.contains(fe_bool(true)));
        if out.len() == 0 {
            FExpr::ff()
        } else if out.len() == 1 {
            assert(fe_models(out@)[0] == out@[0].model());
            out.remove(0)
        } else {
            FExpr::Or(out)
        }
    }

    /// The conditional.
    pub fn ite(c: FExpr, t: FExpr, e: FExpr) -> (r: FExpr)
        ensures
            r.model() == fe_ite(c.model(), t.model(), e.model()),
    {
        if c.is_true() {
            return t;
        }
        if c.is_false() {
            return e;
        }
        if t.same(&e) {
            return t;
        }
        FExpr::Ite(Box::new(c), Box::new(t), Box::new(e))
    }

    /// The equation.
    pub fn eq(a: FExpr, b: FExpr) -> (r: FExpr)
        ensures
            r.model() == fe_eq(a.model(), b.model()),
    {
        match (&a, &b) {
            (FExpr::Const(x), FExpr::Const(y)) => {
                return FExpr::Const(Value::Bool(x.same(y)));
            },
            _ => {},
        }
        if a.same(&b) {
            return FExpr::tt();
        }
        FExpr::Eq(Box::new(a), Box::new(b))
    }
}

/// A conjunction holds exactly where all that it was made of hold.
pub proof fn and_meaning(es: Seq<FE>, env: Leaves)
    ensures
        holds(sem(fe_and(es), env)) == all_hold(sems(es, env)),
{
    if es.contains(fe_bool(false)) {
        let i = choose|i: int| 0 <= i < es.len() && es[i] == fe_bool(false);
        assert(!holds(sems(es, env)[i]));
    } else {
        conjuncts_meaning(es, env);
        let cs = conjuncts(es);
        if cs.len() == 1 {
            assert(sems(cs, env)[0] == sem(cs[0], env));
        }
    }
}

proof fn conjuncts_meaning(es: Seq<FE>, env: Leaves)
    ensures
        all_hold(sems(conjuncts(es), env)) == all_hold(sems(es, env)),
    decreases es.len(),
{
    if es.len() > 0 {
        let pre = es.drop_last();
        let e = es.last();
        conjuncts_meaning(pre, env);
        let rest = conjuncts(pre);
        all_hold_concat(sems(pre, env), seq![sem(e, env)]);
        assert(sems(es, env) =~= sems(pre, env) + seq![sem(e, env)]);
        assert(seq![sem(e, env)][0] == sem(e, env));
        assert(all_hold(seq![sem(e, env)]) == holds(sem(e, env)));
        if e == fe_bool(true) {
        } else if e is And {
            all_hold_concat(sems(rest, env), sems(e->And_0, env));
            assert(sems(rest + e->And_0, env) =~= sems(rest, env) + sems(e->And_0, env));
        } else {
            all_hold_concat(sems(rest, env), seq![sem(e, env)]);
            assert(sems(rest.push(e), env) =~= sems(rest, env) + seq![sem(e, env)]);
        }
    }
}

proof fn all_hold_concat(a: Seq<Option<Val>>, b: Seq<Option<Val>>)
    ensures
        all_hold(a + b) == (all_hold(a) && all_hold(b)),
{
    if all_hold(a + b) {
        assert forall|i: int| 0 <= i < a.len() implies holds(#[trigger] a[i]) by {
            assert((a + b)[i] == a[i]);
        }
        assert forall|i: int| 0 <= i < b.len() implies holds(#[trigger] b[i]) by {
            assert((a + b)[a.len() + i] == b[i]);
        }
    }
}

/// A disjunction holds exactly where something that it was made of holds.
pub proof fn or_meaning(es: Seq<FE>, env: Leaves)
    ensures
        holds(sem(fe_or(es), env)) == some_holds(sems(es, env)),
{
    if es.contains(fe_bool(true)) {
        let i = choose|i: int| 0 <= i < es.len() && es[i] == fe_bool(true);
        assert(holds(sems(es, env)[i]));
    } else {
        disjuncts_meaning(es, env);
        let ds = disjuncts(es);
        if ds.len() == 1 {
            assert(sems(ds, env)[0] == sem(ds[0], env));
        }
    }
}

proof fn disjuncts_meaning(es: Seq<FE>, env: Leaves)
    ensures
        some_holds(sems(disjuncts(es), env)) == some_holds(sems(es, env)),
    decreases es.len(),
{
    if es.len() > 0 {
        let pre = es.drop_last();
        let e = es.last();
        disjuncts_meaning(pre, env);
        let rest = disjuncts(pre);
        some_holds_concat(sems(pre, env), seq![sem(e, env)]);
        assert(sems(es, env) =~= sems(pre, env) + seq![sem(e, env)]);
        assert(seq![sem(e, env)][0] == sem(e, env));
        assert(some_holds(seq![sem(e, env)]) == holds(sem(e, env)));
        if e == fe_bool(false) {
        } else if e is Or {
            some_holds_concat(sems(rest, env), sems(e->Or_0, env));
            assert(sems(rest + e->Or_0, env) =~= sems(rest, env) + sems(e->Or_0, env));
        } else {
            some_holds_concat(sems(rest, env), seq![sem(e, env)]);
            assert(sems(rest.push(e), env) =~= sems(rest, env) + seq![sem(e, env)]);
        }
    }
}

proof fn some_holds_concat(a: Seq<Option<Val>>, b: Seq<Option<Val>>)
    ensures
        some_holds(a + b) == (some_holds(a) || some_holds(b)),
{
    if some_holds(a) {
        let i = choose|i: int| 0 <= i < a.len() && holds(#[trigger] a[i]);
        assert(holds((a + b)[i]));
    }
    if some_holds(b) {
        let i = choose|i: int| 0 <= i < b.len() && holds(#[trigger] b[i]);
        assert(holds((a + b)[a.len() + i]));
    }
}

/// A negation holds exactly where what it was made of does not.
pub proof fn not_meaning(e: FE, env: Leaves)
    ensures
        holds(sem(fe_not(e), env)) == !holds(sem(e, env)),
{
}

/// A conditional has the value of the branch that its condition selects.
pub proof fn ite_meaning(c: FE, t: FE, e: FE, env: Leaves)
    ensures
        sem(fe_ite(c, t, e), env) == (if holds(sem(c, env)) {
            sem(t, env)
        } else {
            sem(e, env)
        }),
{
}

/// An equation holds exactly where both sides have the same value. Where neither side has a
/// value it may hold all the same: two equal expressions are never compared.
pub proof fn eq_meaning(a: FE, b: FE, env: Leaves)
    requires
        sem(a, env) is Some || sem(b, env) is Some,
    ensures
        holds(sem(fe_eq(a, b), env)) == (sem(a, env) == sem(b, env)),
{
}

/// What kind of value an expression has.
#[derive(Clone, Copy, Debug, PartialEq, Eq, Structural)]
pub enum Sort {
    /// Truth values.
    B,
    /// Numbers.
    N,
    /// Anything else.
    O,
}

/// The kind of a value.
pub open spec fn val_sort(v: Val) -> Sort {
    match v {
        Val::Bool(_) => Sort::B,
        Val::Num(_) => Sort::N,
        _ => Sort::O,
    }
}

/// The kind of a leaf type's values.
pub open spec fn leaf_sort(t: LT) -> Sort {
    match t {
        LT::Bool => Sort::B,
        LT::Scalar(_, _) => Sort::O,
        _ => Sort::N,
    }
}

/// The kind of an expression over the given leaves, if every operator is given operands of the
/// kinds that it takes.
pub open spec fn typed(e: FE, leaves: Seq<LT>) -> Option<Sort>
    decreases e,
{
    match e {
        FE::Const(v) => Some(val_sort(v)),
        FE::Var(l, _) => if (l as int) < leaves.len() {
            Some(leaf_sort(leaves[l as int]))
        } else {
            None
        },
        FE::Not(a) => only_if(typed(*a, leaves) == Some(Sort::B), Sort::B),
        FE::And(es) => only_if(all_sort(typeds(es, leaves), Sort::B), Sort::B),
        FE::Or(es) => only_if(all_sort(typeds(es, leaves), Sort::B), Sort::B),
        FE::Ite(c, t, f) => if typed(*c, leaves) == Some(Sort::B) && typed(*t, leaves) == typed(
            *f,
            leaves,
        ) {
            typed(*t, leaves)
        } else {
            None
        },
        FE::Eq(a, b) => only_if(typed(*a, leaves) is Some && typed(*b, leaves) is Some, Sort::B),
        FE::Lt(a, b) => only_if(
            typed(*a, leaves) == Some(Sort::N) && typed(*b, leaves) == Some(Sort::N),
            Sort::B,
        ),
        FE::Le(a, b) => only_if(
            typed(*a, leaves) == Some(Sort::N) && typed(*b, leaves) == Some(Sort::N),
            Sort::B,
        ),
        FE::Add(es) => only_if(all_sort(typeds(es, leaves), Sort::N), Sort::N),
        FE::Mul(es) => only_if(all_sort(typeds(es, leaves), Sort::N), Sort::N),
        FE::Neg(a) => only_if(typed(*a, leaves) == Some(Sort::N), Sort::N),
        FE::Div(a, b) => only_if(
            typed(*a, leaves) == Some(Sort::N) && typed(*b, leaves) == Some(Sort::N),
            Sort::N,
        ),
        FE::IDiv(a, b) => only_if(
            typed(*a, leaves) == Some(Sort::N) && typed(*b, leaves) == Some(Sort::N),
            Sort::N,
        ),
        FE::Mod(a, b) => only_if(
            typed(*a, leaves) == Some(Sort::N) && typed(*b, leaves) == Some(Sort::N),
            Sort::N,
        ),
    }
}

/// The kinds of several expressions.
pub open spec fn typeds(es: Seq<FE>, leaves: Seq<LT>) -> Seq<Option<Sort>>
    decreases es,
{
    Seq::new(
        es.len(),
        |i: int|
            if 0 <= i < es.len() {
                typed(es[i], leaves)
            } else {
                arbitrary()
            },
    )
}

/// The kind, under a condition.
pub open spec fn only_if(b: bool, s: Sort) -> Option<Sort> {
    if b {
        Some(s)
    } else {
        None
    }
}

/// All are of one kind.
pub open spec fn all_sort(ss: Seq<Option<Sort>>, s: Sort) -> bool {
    forall|i: int| 0 <= i < ss.len() ==> #[trigger] ss[i] == Some(s)
}

/// The expression is a well-typed condition.
pub open spec fn is_condition(e: FE, leaves: Seq<LT>) -> bool {
    typed(e, leaves) == Some(Sort::B)
}

/// The expression speaks of the current state only.
pub open spec fn unprimed(e: FE) -> bool
    decreases e,
{
    match e {
        FE::Const(_) => true,
        FE::Var(_, p) => !p,
        FE::Not(a) => unprimed(*a),
        FE::And(es) => all_true(unprimeds(es)),
        FE::Or(es) => all_true(unprimeds(es)),
        FE::Ite(c, t, f) => unprimed(*c) && unprimed(*t) && unprimed(*f),
        FE::Eq(a, b) => unprimed(*a) && unprimed(*b),
        FE::Lt(a, b) => unprimed(*a) && unprimed(*b),
        FE::Le(a, b) => unprimed(*a) && unprimed(*b),
        FE::Add(es) => all_true(unprimeds(es)),
        FE::Mul(es) => all_true(unprimeds(es)),
        FE::Neg(a) => unprimed(*a),
        FE::Div(a, b) => unprimed(*a) && unprimed(*b),
        FE::IDiv(a, b) => unprimed(*a) && unprimed(*b),
        FE::Mod(a, b) => unprimed(*a) && unprimed(*b),
    }
}

/// Which of the expressions speak of the current state only.
pub open spec fn unprimeds(es: Seq<FE>) -> Seq<bool>
    decreases es,
{
    Seq::new(
        es.len(),
        |i: int|
            if 0 <= i < es.len() {
                unprimed(es[i])
            } else {
                arbitrary()
            },
    )
}

/// All are true.
pub open spec fn all_true(bs: Seq<bool>) -> bool {
    forall|i: int| 0 <= i < bs.len() ==> #[trigger] bs[i]
}

/// An expression on the current state has the same value where the leaves have the same current
/// values.
pub proof fn unprimed_meaning(e: FE, x: Leaves, y: Leaves)
    requires
        unprimed(e),
        forall|l: LeafId| #[trigger] x(l, false) == y(l, false),
    ensures
        sem(e, x) == sem(e, y),
    decreases e,
{
    match e {
        FE::Const(_) => {},
        FE::Var(l, p) => {
            assert(x(l, false) == y(l, false));
        },
        FE::Not(a) => {
            unprimed_meaning(*a, x, y);
        },
        FE::And(es) => {
            unprimeds_meaning(es, x, y);
        },
        FE::Or(es) => {
            unprimeds_meaning(es, x, y);
        },
        FE::Ite(c, t, f) => {
            unprimed_meaning(*c, x, y);
            unprimed_meaning(*t, x, y);
            unprimed_meaning(*f, x, y);
        },
        FE::Eq(a, b) => {
            unprimed_meaning(*a, x, y);
            unprimed_meaning(*b, x, y);
        },
        FE::Lt(a, b) => {
            unprimed_meaning(*a, x, y);
            unprimed_meaning(*b, x, y);
        },
        FE::Le(a, b) => {
            unprimed_meaning(*a, x, y);
            unprimed_meaning(*b, x, y);
        },
        FE::Add(es) => {
            unprimeds_meaning(es, x, y);
        },
        FE::Mul(es) => {
            unprimeds_meaning(es, x, y);
        },
        FE::Neg(a) => {
            unprimed_meaning(*a, x, y);
        },
        FE::Div(a, b) => {
            unprimed_meaning(*a, x, y);
            unprimed_meaning(*b, x, y);
        },
        FE::IDiv(a, b) => {
            unprimed_meaning(*a, x, y);
            unprimed_meaning(*b, x, y);
        },
        FE::Mod(a, b) => {
            unprimed_meaning(*a, x, y);
            unprimed_meaning(*b, x, y);
        },
    }
}

/// The same for several expressions.
pub proof fn unprimeds_meaning(es: Seq<FE>, x: Leaves, y: Leaves)
    requires
        all_true(unprimeds(es)),
        forall|l: LeafId| #[trigger] x(l, false) == y(l, false),
    ensures
        sems(es, x) == sems(es, y),
    decreases es,
{
    assert forall|i: int| 0 <= i < es.len() implies sems(es, x)[i] == sems(es, y)[i] by {
        assert(unprimeds(es)[i]);
        unprimed_meaning(es[i], x, y);
    }
    assert(sems(es, x) =~= sems(es, y));
}

} // verus!
