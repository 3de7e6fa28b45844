//! Relations and operations on values.

use crate::explicit::EngineError;
use crate::fexpr::{leaf_sort, leaf_values, number, of_number, q_div, q_idiv, q_mod, val_sort, LT};
use crate::num::{euclid, Rat, Q};
use crate::text::own;
use crate::value::{models, Val, Value};
use vstd::prelude::*;

verus! {

/// A relation between two values.
#[derive(Clone, Copy)]
pub enum Rel {
    Eq,
    Lt,
    Le,
}

/// The relation is defined for the values.
pub open spec fn rel_takes(how: Rel, v: Val, w: Val) -> bool {
    how is Eq || (v is Num && w is Num)
}

/// The relation holds.
pub open spec fn rel_holds(how: Rel, v: Val, w: Val) -> bool {
    match how {
        Rel::Eq => v == w,
        Rel::Lt => match (v, w) {
            (Val::Num(x), Val::Num(y)) => x.less(y),
            _ => false,
        },
        Rel::Le => match (v, w) {
            (Val::Num(x), Val::Num(y)) => x.at_most(y),
            _ => false,
        },
    }
}

/// The relation of two values that may be missing.
pub open spec fn rel_out(how: Rel, v: Option<Val>, w: Option<Val>) -> bool {
    match (v, w) {
        (Some(x), Some(y)) => rel_holds(how, x, y),
        _ => false,
    }
}

/// Whether the relation holds, where it is defined.
pub fn test_rel(how: Rel, x: &Value, y: &Value) -> (r: Option<bool>)
    ensures
        match r {
            Some(b) => rel_takes(how, x.model(), y.model()) && b == rel_holds(
                how,
                x.model(),
                y.model(),
            ),
            None => !rel_takes(how, x.model(), y.model()),
        },
{
    match how {
        Rel::Eq => Some(x.same(y)),
        Rel::Lt => match (x, y) {
            (Value::Num(p), Value::Num(q)) => Some(p.less(q)),
            _ => None,
        },
        Rel::Le => match (x, y) {
            (Value::Num(p), Value::Num(q)) => Some(p.at_most(q)),
            _ => None,
        },
    }
}

/// An operation on two numbers.
#[derive(Clone, Copy)]
pub enum Arith {
    Add,
    Mul,
    Div,
    IDiv,
    Mod,
}

/// The result of an operation.
pub open spec fn arith(how: Arith, x: Q, y: Q) -> Option<Q> {
    match how {
        Arith::Add => Some(x.plus(y)),
        Arith::Mul => Some(x.times(y)),
        Arith::Div => q_div(x, y),
        Arith::IDiv => q_idiv(x, y),
        Arith::Mod => q_mod(x, y),
    }
}

/// The result of an operation on values that may be missing.
pub open spec fn arith_out(how: Arith, v: Option<Val>, w: Option<Val>) -> Option<Val> {
    match (number(v), number(w)) {
        (Some(x), Some(y)) => of_number(arith(how, x, y)),
        _ => None,
    }
}

/// The result of an operation, if it has one.
pub fn compute(how: Arith, x: &Rat, y: &Rat) -> (r: Option<Rat>)
    ensures
        match r {
            Some(z) => arith(how, x@, y@) == Some(z@),
            None => arith(how, x@, y@) is None,
        },
{
    match how {
        Arith::Add => Some(x.plus(y)),
        Arith::Mul => Some(x.times(y)),
        Arith::Div => if y.is_zero() {
            None
        } else {
            Some(x.over(y))
        },
        Arith::IDiv => if y.is_zero() || !x.is_integer() || !y.is_integer() {
            None
        } else {
            let (q, _) = euclid(x.numer(), y.numer());
            Some(Rat::from_integer(q))
        },
        Arith::Mod => if y.is_zero() || !x.is_integer() || !y.is_integer() {
            None
        } else {
            let (_, r) = euclid(x.numer(), y.numer());
            Some(Rat::from_integer(r))
        },
    }
}

/// An error of evaluation.
pub fn bad(msg: &str) -> (r: EngineError)
    ensures
        r is Eval,
{
    EngineError::Eval(own(msg))
}

/// The values of a leaf are of its kind.
pub proof fn leaf_sorts(t: LT, vs: Seq<Value>, i: int)
    requires
        leaf_values(t) == Some(models(vs)),
        0 <= i < vs.len(),
    ensures
        val_sort(vs[i].model()) == leaf_sort(t),
{
    assert(models(vs).len() == vs.len());
    assert(models(vs)[i] == vs[i].model());
    assert(leaf_values(t)->0[i] == crate::fexpr::leaf_value(t, i));
}

} // verus!
