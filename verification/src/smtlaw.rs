//! What the questions for a solver mean.

use crate::fexpr::{all_hold, holds, number, product, sem, sems, some_holds, total, truth, LeafId, Leaves, FE, LT};
use crate::num::{abs, dec, dec_nat, gcd, ratio, Q};
use crate::sexpr::{
    all_b, all_i, applied, are_proper, dec_read, decimal, ends_word, is_proper, is_word, op_of, op_words, product_i,
    product_r, stands, sum_i, sum_r, value, value_applied, values, written, written_items, Names, SV3, SX,
};
use crate::smtlib::{
    any_real, as_real, aux, compared, folded, junction, kind_of, lit_int, made_alike, op1, op2, spaced, sym, term,
    terms, value_term, Kind, Term,
};
use crate::types::Tid;
use crate::value::Val;
use vstd::prelude::*;

verus! {

/// The type of an expression: truth values, integers, real numbers, or the elements of a named type.
pub ghost enum Ty {
    B,
    I,
    R,
    S(Tid),
}

/// The sort in which values of the type are written.
pub open spec fn kind(t: Ty) -> Kind {
    match t {
        Ty::B => Kind::B,
        Ty::R => Kind::R,
        _ => Kind::I,
    }
}

/// The type of a leaf.
pub open spec fn leaf_ty(t: LT) -> Ty {
    match t {
        LT::Bool => Ty::B,
        LT::Real => Ty::R,
        LT::Scalar(id, _) => Ty::S(id),
        _ => Ty::I,
    }
}

/// The value is one of the type.
pub open spec fn of_ty(t: Ty, v: Val) -> bool {
    match t {
        Ty::B => v is Bool,
        Ty::I => v matches Val::Num(q) && q.d == 1,
        Ty::R => v is Num,
        Ty::S(id) => v matches Val::Scalar(a, _) && a == id,
    }
}

/// The type of two values that are compared or chosen from: an integer may be taken as a real number.
pub open spec fn joined(a: Option<Ty>, b: Option<Ty>) -> Option<Ty> {
    match (a, b) {
        (Some(x), Some(y)) => if x == y {
            Some(x)
        } else if (x is I && y is R) || (x is R && y is I) {
            Some(Ty::R)
        } else {
            None
        },
        _ => None,
    }
}

/// The type is one of numbers.
pub open spec fn numeric(a: Option<Ty>) -> bool {
    a == Some(Ty::I) || a == Some(Ty::R)
}

/// The type of an expression over leaves, where every operator is given what it takes.
pub open spec fn sorted(e: FE, ts: Seq<LT>) -> Option<Ty>
    decreases e,
{
    match e {
        FE::Const(v) => match v {
            Val::Bool(_) => Some(Ty::B),
            Val::Num(q) => if q.d == 1 {
                Some(Ty::I)
            } else if q.d > 1 && ratio(q.n, q.d) == q {
                Some(Ty::R)
            } else {
                None
            },
            Val::Scalar(id, _) => Some(Ty::S(id)),
            _ => None,
        },
        FE::Var(l, _) => if l < ts.len() {
            Some(leaf_ty(ts[l as int]))
        } else {
            None
        },
        FE::Not(a) => if sorted(*a, ts) == Some(Ty::B) {
            Some(Ty::B)
        } else {
            None
        },
        FE::And(es) => if all_ty_b(sorteds(es, ts)) {
            Some(Ty::B)
        } else {
            None
        },
        FE::Or(es) => if all_ty_b(sorteds(es, ts)) {
            Some(Ty::B)
        } else {
            None
        },
        FE::Ite(c, a, b) => if sorted(*c, ts) == Some(Ty::B) {
            joined(sorted(*a, ts), sorted(*b, ts))
        } else {
            None
        },
        FE::Eq(a, b) => if joined(sorted(*a, ts), sorted(*b, ts)) is Some {
            Some(Ty::B)
        } else {
            None
        },
        FE::Lt(a, b) => if numeric(sorted(*a, ts)) && numeric(sorted(*b, ts)) {
            Some(Ty::B)
        } else {
            None
        },
        FE::Le(a, b) => if numeric(sorted(*a, ts)) && numeric(sorted(*b, ts)) {
            Some(Ty::B)
        } else {
            None
        },
        FE::Add(es) => of_numbers(sorteds(es, ts)),
        FE::Mul(es) => of_numbers(sorteds(es, ts)),
        FE::Neg(a) => if numeric(sorted(*a, ts)) {
            sorted(*a, ts)
        } else {
            None
        },
        FE::Div(a, b) => if numeric(sorted(*a, ts)) && numeric(sorted(*b, ts)) {
            Some(Ty::R)
        } else {
            None
        },
        FE::IDiv(a, b) => if sorted(*a, ts) == Some(Ty::I) && sorted(*b, ts) == Some(Ty::I) {
            Some(Ty::I)
        } else {
            None
        },
        FE::Mod(a, b) => if sorted(*a, ts) == Some(Ty::I) && sorted(*b, ts) == Some(Ty::I) {
            Some(Ty::I)
        } else {
            None
        },
    }
}

/// The types of several expressions.
pub open spec fn sorteds(es: Seq<FE>, ts: Seq<LT>) -> Seq<Option<Ty>>
    decreases es,
{
    Seq::new(
        es.len(),
        |i: int|
            if 0 <= i < es.len() {
                sorted(es[i], ts)
            } else {
                arbitrary()
            },
    )
}

pub open spec fn all_ty_b(v: Seq<Option<Ty>>) -> bool {
    forall|i: int| 0 <= i < v.len() ==> #[trigger] v[i] == Some(Ty::B)
}

/// The type of a sum or product of numbers.
pub open spec fn of_numbers(v: Seq<Option<Ty>>) -> Option<Ty> {
    if v.len() > 0 && forall|i: int| 0 <= i < v.len() ==> numeric(#[trigger] v[i]) {
        if exists|i: int| 0 <= i < v.len() && #[trigger] v[i] == Some(Ty::R) {
            Some(Ty::R)
        } else {
            Some(Ty::I)
        }
    } else {
        None
    }
}

/// Every part of the expression has a value: nothing is divided by zero.
pub open spec fn valued(e: FE, env: Leaves) -> bool
    decreases e,
{
    &&& sem(e, env) is Some
    &&& match e {
        FE::Const(_) => true,
        FE::Var(_, _) => true,
        FE::Not(a) => valued(*a, env),
        FE::And(es) => all_valued(valueds(es, env)),
        FE::Or(es) => all_valued(valueds(es, env)),
        FE::Ite(a, b, c) => valued(*a, env) && valued(*b, env) && valued(*c, env),
        FE::Eq(a, b) => valued(*a, env) && valued(*b, env),
        FE::Lt(a, b) => valued(*a, env) && valued(*b, env),
        FE::Le(a, b) => valued(*a, env) && valued(*b, env),
        FE::Add(es) => all_valued(valueds(es, env)),
        FE::Mul(es) => all_valued(valueds(es, env)),
        FE::Neg(a) => valued(*a, env),
        FE::Div(a, b) => valued(*a, env) && valued(*b, env),
        FE::IDiv(a, b) => valued(*a, env) && valued(*b, env),
        FE::Mod(a, b) => valued(*a, env) && valued(*b, env),
    }
}

pub open spec fn valueds(es: Seq<FE>, env: Leaves) -> Seq<bool>
    decreases es,
{
    Seq::new(
        es.len(),
        |i: int|
            if 0 <= i < es.len() {
                valued(es[i], env)
            } else {
                arbitrary()
            },
    )
}

pub open spec fn all_valued(v: Seq<bool>) -> bool {
    forall|i: int| 0 <= i < v.len() ==> #[trigger] v[i]
}

/// The value as one of a sort: an element of a named type is its number.
pub open spec fn given(k: Kind, v: Val) -> SV3 {
    match v {
        Val::Bool(b) => SV3::B(b),
        Val::Num(q) => if k == Kind::R {
            SV3::R(q)
        } else {
            SV3::I(q.n)
        },
        Val::Scalar(_, i) => SV3::I(i as int),
        _ => SV3::B(false),
    }
}

/// The names of the leaves at two steps stand for the values of the leaves.
pub open spec fn named_right(names: Names, ts: Seq<LT>, env: Leaves, c: nat, n: nat) -> bool {
    forall|l: LeafId, p: bool|
        l < ts.len() ==> ((#[trigger] env(l, p)) matches Some(v) && of_ty(leaf_ty(ts[l as int]), v) && names(
            sym(
                l as int,
                if p {
                    n as int
                } else {
                    c as int
                },
            ),
        ) == Some(given(kind_of(ts[l as int]), v)))
}

/// The term is the text of a list that has the value of the expression.
pub open spec fn is_term(e: FE, ts: Seq<LT>, env: Leaves, names: Names, t: Term, x: SX) -> bool {
    &&& sorted(e, ts) is Some
    &&& sem(e, env) is Some
    &&& t == (written(x), kind(sorted(e, ts)->0))
    &&& is_proper(x)
    &&& of_ty(sorted(e, ts)->0, sem(e, env)->0)
    &&& value(x, names) == Some(given(kind(sorted(e, ts)->0), sem(e, env)->0))
}

pub proof fn written1(op: Seq<char>, x: SX)
    requires
        is_word(op),
        is_proper(x),
    ensures
        op1(op, written(x)) == written(SX::List(seq![SX::Word(op), x])),
        is_proper(SX::List(seq![SX::Word(op), x])),
{
    reveal_strlit("(");
    reveal_strlit(")");
    reveal_strlit(" ");
    let v = seq![SX::Word(op), x];
    assert(v[0] == SX::Word(op) && v[1] == x);
    assert(v =~= seq![SX::Word(op)] + seq![x]);
    items_proper(op, seq![x], 0);
    assert(written_items(v, 2) =~= Seq::empty());
    assert(written_items(v, 1) =~= seq![' '] + written(x));
    assert(written(SX::Word(op)) == op);
    assert(written_items(v, 0) =~= op + written_items(v, 1));
    assert(op1(op, written(x)) =~= written(SX::List(v)));
}

pub proof fn written2(op: Seq<char>, x: SX, y: SX)
    requires
        is_word(op),
        is_proper(x),
        is_proper(y),
    ensures
        op2(op, written(x), written(y)) == written(SX::List(seq![SX::Word(op), x, y])),
        is_proper(SX::List(seq![SX::Word(op), x, y])),
{
    reveal_strlit("(");
    reveal_strlit(")");
    reveal_strlit(" ");
    let v = seq![SX::Word(op), x, y];
    assert(v[0] == SX::Word(op) && v[1] == x && v[2] == y);
    assert(v =~= seq![SX::Word(op)] + seq![x, y]);
    items_proper(op, seq![x, y], 0);
    assert(written_items(v, 3) =~= Seq::empty());
    assert(written_items(v, 2) =~= seq![' '] + written(y));
    assert(written_items(v, 1) =~= seq![' '] + written(x) + written_items(v, 2));
    assert(written(SX::Word(op)) == op);
    assert(written_items(v, 0) =~= op + written_items(v, 1));
    assert(op2(op, written(x), written(y)) =~= written(SX::List(v)));
}

proof fn written3(x: SX, y: SX, z: SX)
    requires
        is_proper(x),
        is_proper(y),
        is_proper(z),
    ensures
        "(ite "@ + written(x) + " "@ + written(y) + " "@ + written(z) + ")"@ == written(
            SX::List(seq![SX::Word("ite"@), x, y, z]),
        ),
        is_proper(SX::List(seq![SX::Word("ite"@), x, y, z])),
{
    op_words();
    reveal_strlit("(ite ");
    reveal_strlit("ite");
    reveal_strlit(")");
    reveal_strlit(" ");
    let v = seq![SX::Word("ite"@), x, y, z];
    let op = "ite"@;
    assert(v[0] == SX::Word(op) && v[1] == x && v[2] == y && v[3] == z);
    assert(v =~= seq![SX::Word(op)] + seq![x, y, z]);
    items_proper(op, seq![x, y, z], 0);
    assert(written_items(v, 4) =~= Seq::empty());
    assert(written_items(v, 3) =~= seq![' '] + written(z));
    assert(written_items(v, 2) =~= seq![' '] + written(y) + written_items(v, 3));
    assert(written_items(v, 1) =~= seq![' '] + written(x) + written_items(v, 2));
    assert(written(SX::Word(op)) == op);
    assert(written_items(v, 0) =~= op + written_items(v, 1));
    assert("(ite "@ + written(x) + " "@ + written(y) + " "@ + written(z) + ")"@ =~= written(SX::List(v)));
}

pub proof fn apply1(op: Seq<char>, x: SX, names: Names)
    ensures
        value(SX::List(seq![SX::Word(op), x]), names) == applied(op_of(op), seq![value(x, names)]),
{
    value_applied(op, seq![x], names);
    assert(seq![SX::Word(op)] + seq![x] =~= seq![SX::Word(op), x]);
    assert(values(seq![x], names) =~= seq![value(x, names)]);
}

pub proof fn apply2(op: Seq<char>, x: SX, y: SX, names: Names)
    ensures
        value(SX::List(seq![SX::Word(op), x, y]), names) == applied(
            op_of(op),
            seq![value(x, names), value(y, names)],
        ),
{
    value_applied(op, seq![x, y], names);
    assert(seq![SX::Word(op)] + seq![x, y] =~= seq![SX::Word(op), x, y]);
    assert(values(seq![x, y], names) =~= seq![value(x, names), value(y, names)]);
}

proof fn apply3(op: Seq<char>, x: SX, y: SX, z: SX, names: Names)
    ensures
        value(SX::List(seq![SX::Word(op), x, y, z]), names) == applied(
            op_of(op),
            seq![value(x, names), value(y, names), value(z, names)],
        ),
{
    value_applied(op, seq![x, y, z], names);
    assert(seq![SX::Word(op)] + seq![x, y, z] =~= seq![SX::Word(op), x, y, z]);
    assert(values(seq![x, y, z], names) =~= seq![value(x, names), value(y, names), value(z, names)]);
}

/// A decimal numeral as a term.
pub proof fn numeral_means(n: nat, names: Names)
    ensures
        written(SX::Word(dec(n as int))) == dec(n as int),
        is_proper(SX::Word(dec(n as int))),
        value(SX::Word(dec(n as int)), names) == Some(SV3::I(n as int)),
{
    dec_read(n);
    reveal_strlit("true");
    reveal_strlit("false");
    let w = dec_nat(n);
    assert('0' <= w[0] <= '9');
    assert("true"@[0] == 't' && "false"@[0] == 'f');
}

/// An integer as a term.
pub proof fn integer_means(n: int, names: Names) -> (x: SX)
    ensures
        written(x) == lit_int(n),
        is_proper(x),
        value(x, names) == Some(SV3::I(n)),
{
    if n < 0 {
        numeral_means((-n) as nat, names);
        op_words();
        let d = SX::Word(dec(-n));
        written1("-"@, d);
        apply1("-"@, d, names);
        reveal_strlit("(- ");
        reveal_strlit("(");
        reveal_strlit("-");
        reveal_strlit(" ");
        reveal_strlit(")");
        assert(lit_int(n) =~= op1("-"@, dec(-n)));
        SX::List(seq![SX::Word("-"@), d])
    } else {
        numeral_means(n as nat, names);
        SX::Word(dec(n))
    }
}

/// A number, taken as a real one.
proof fn real_means(t: Term, ty: Ty, q: Q, x: SX, names: Names) -> (y: SX)
    requires
        ty is I || ty is R,
        of_ty(ty, Val::Num(q)),
        t == (written(x), kind(ty)),
        is_proper(x),
        value(x, names) == Some(given(kind(ty), Val::Num(q))),
    ensures
        as_real(t) == written(y),
        is_proper(y),
        value(y, names) == Some(SV3::R(q)),
{
    if ty is I {
        op_words();
        written1("to_real"@, x);
        apply1("to_real"@, x, names);
        reveal_strlit("(to_real ");
        reveal_strlit("(");
        reveal_strlit("to_real");
        reveal_strlit(" ");
        reveal_strlit(")");
        assert("(to_real "@ + written(x) + ")"@ =~= op1("to_real"@, written(x)));
        let xs = seq![value(x, names)];
        assert(all_i(xs));
        SX::List(seq![SX::Word("to_real"@), x])
    } else {
        x
    }
}

/// Two terms made to agree.
proof fn alike_means(a: FE, b: FE, ts: Seq<LT>, env: Leaves, names: Names, ta: Term, tb: Term, xa: SX, xb: SX) -> (r: (
    SX,
    SX,
))
    requires
        is_term(a, ts, env, names, ta, xa),
        is_term(b, ts, env, names, tb, xb),
        joined(sorted(a, ts), sorted(b, ts)) is Some,
    ensures
        made_alike(ta, tb) == (written(r.0), written(r.1)),
        is_proper(r.0),
        is_proper(r.1),
        value(r.0, names) == Some(given(kind(joined(sorted(a, ts), sorted(b, ts))->0), sem(a, env)->0)),
        value(r.1, names) == Some(given(kind(joined(sorted(a, ts), sorted(b, ts))->0), sem(b, env)->0)),
{
    let s = sorted(a, ts)->0;
    let u = sorted(b, ts)->0;
    if s == u {
        (xa, xb)
    } else {
        let x = number(sem(a, env))->0;
        let y = number(sem(b, env))->0;
        let p = real_means(ta, s, x, xa, names);
        let q = real_means(tb, u, y, xb, names);
        (p, q)
    }
}

/// A comparison of two terms.
proof fn comparison_means(
    e: FE,
    op: Seq<char>,
    a: FE,
    b: FE,
    ts: Seq<LT>,
    env: Leaves,
    names: Names,
    ta: Term,
    tb: Term,
    xa: SX,
    xb: SX,
) -> (x: SX)
    requires
        is_term(a, ts, env, names, ta, xa),
        is_term(b, ts, env, names, tb, xb),
        sorted(e, ts) == Some(Ty::B),
        (op == "="@ && e == FE::Eq(Box::new(a), Box::new(b))) || (op == "<"@ && e == FE::Lt(Box::new(a), Box::new(b))) || (
        op == "<="@ && e == FE::Le(Box::new(a), Box::new(b))),
    ensures
        compared(op, Some(ta), Some(tb)) matches Some(t) && is_term(e, ts, env, names, t, x),
{
    op_words();
    let j = joined(sorted(a, ts), sorted(b, ts))->0;
    let (p, q) = alike_means(a, b, ts, env, names, ta, tb, xa, xb);
    written2(op, p, q);
    apply2(op, p, q, names);
    let va = sem(a, env)->0;
    let vb = sem(b, env)->0;
    let s = sorted(a, ts)->0;
    let u = sorted(b, ts)->0;
    let xs = seq![value(p, names), value(q, names)];
    assert(xs[0] == value(p, names) && xs[1] == value(q, names));
    if op == "="@ {
        match (va, vb) {
            (Val::Num(m), Val::Num(n)) => {},
            _ => {},
        }
    }
    SX::List(seq![SX::Word(op), p, q])
}

proof fn spaced_written(out: Seq<char>, v: Seq<Term>, reals: bool, op: Seq<char>, xs: Seq<SX>, i: int)
    requires
        v.len() == xs.len(),
        0 <= i <= v.len(),
        forall|j: int|
            0 <= j < v.len() ==> (if reals {
                as_real(#[trigger] v[j])
            } else {
                v[j].0
            }) == written(xs[j]),
    ensures
        spaced(out, v, reals, i) == out + written_items(seq![SX::Word(op)] + xs, i + 1),
    decreases v.len() - i,
{
    let all = seq![SX::Word(op)] + xs;
    reveal_strlit(" ");
    if i < v.len() {
        let t = if reals {
            as_real(v[i])
        } else {
            v[i].0
        };
        assert(all[i + 1] == xs[i]);
        spaced_written(out + " "@ + t, v, reals, op, xs, i + 1);
        assert(out + " "@ + t + written_items(all, i + 2) =~= out + (seq![' '] + written(xs[i]) + written_items(
            all,
            i + 2,
        )));
    } else {
        assert(written_items(all, i + 1) =~= Seq::empty());
        assert(out + Seq::<char>::empty() =~= out);
    }
}

pub proof fn items_proper(op: Seq<char>, xs: Seq<SX>, i: int)
    requires
        is_word(op),
        0 <= i <= xs.len() + 1,
        forall|j: int| 0 <= j < xs.len() ==> is_proper(#[trigger] xs[j]),
    ensures
        are_proper(seq![SX::Word(op)] + xs, i),
    decreases xs.len() + 1 - i,
{
    let all = seq![SX::Word(op)] + xs;
    if i <= xs.len() {
        if i > 0 {
            assert(all[i] == xs[i - 1]);
        } else {
            assert(is_proper(SX::Word(op)));
        }
        assert(is_proper(all[i]));
        items_proper(op, xs, i + 1);
        assert(are_proper(all, i + 1));
    }
}

/// An operator applied to several terms.
proof fn list_means(op: Seq<char>, v: Seq<Term>, reals: bool, xs: Seq<SX>, names: Names)
    requires
        is_word(op),
        v.len() == xs.len(),
        forall|j: int|
            0 <= j < v.len() ==> (if reals {
                as_real(#[trigger] v[j])
            } else {
                v[j].0
            }) == written(xs[j]),
        forall|j: int| 0 <= j < xs.len() ==> is_proper(#[trigger] xs[j]),
    ensures
        spaced("("@ + op, v, reals, 0) + ")"@ == written(SX::List(seq![SX::Word(op)] + xs)),
        is_proper(SX::List(seq![SX::Word(op)] + xs)),
        value(SX::List(seq![SX::Word(op)] + xs), names) == applied(op_of(op), values(xs, names)),
{
    let all = seq![SX::Word(op)] + xs;
    reveal_strlit("(");
    reveal_strlit(")");
    spaced_written("("@ + op, v, reals, op, xs, 0);
    items_proper(op, xs, 0);
    value_applied(op, xs, names);
    assert(all[0] == SX::Word(op));
    assert(written_items(all, 0) =~= op + written_items(all, 1)) by {
        reveal_with_fuel(written, 2);
        assert(written(SX::Word(op)) == op);
    }
    assert("("@ + op + written_items(all, 1) + ")"@ =~= seq!['('] + written_items(all, 0) + seq![')']);
}

/// A junction of conditions.
pub proof fn junction_means(conj: bool, v: Seq<Term>, xs: Seq<SX>, bs: Seq<bool>, names: Names) -> (x: SX)
    requires
        v.len() == xs.len(),
        v.len() == bs.len(),
        forall|j: int| 0 <= j < v.len() ==> (#[trigger] v[j]).0 == written(xs[j]),
        forall|j: int| 0 <= j < xs.len() ==> is_proper(#[trigger] xs[j]),
        forall|j: int| 0 <= j < xs.len() ==> value(#[trigger] xs[j], names) == Some(SV3::B(bs[j])),
    ensures
        is_proper(x),
        conj ==> junction("and"@, "true"@, v) == written(x) && value(x, names) == Some(
            SV3::B(forall|j: int| 0 <= j < bs.len() ==> #[trigger] bs[j]),
        ),
        !conj ==> junction("or"@, "false"@, v) == written(x) && value(x, names) == Some(
            SV3::B(exists|j: int| 0 <= j < bs.len() && #[trigger] bs[j]),
        ),
{
    op_words();
    let op = if conj {
        "and"@
    } else {
        "or"@
    };
    if v.len() == 0 {
        if conj {
            SX::Word("true"@)
        } else {
            SX::Word("false"@)
        }
    } else {
        list_means(op, v, false, xs, names);
        let o = values(xs, names);
        assert forall|j: int| 0 <= j < o.len() implies #[trigger] o[j] == Some(SV3::B(bs[j])) by {
            assert(value(xs[j], names) == Some(SV3::B(bs[j])));
        }
        assert(all_b(o));
        if conj {
            if forall|j: int| 0 <= j < bs.len() ==> #[trigger] bs[j] {
                assert forall|j: int| 0 <= j < o.len() implies #[trigger] o[j] == Some(SV3::B(true)) by {
                    assert(bs[j]);
                }
            }
            if forall|j: int| 0 <= j < o.len() ==> #[trigger] o[j] == Some(SV3::B(true)) {
                assert forall|j: int| 0 <= j < bs.len() implies #[trigger] bs[j] by {
                    assert(o[j] == Some(SV3::B(true)));
                }
            }
        } else {
            if exists|j: int| 0 <= j < bs.len() && #[trigger] bs[j] {
                let j = choose|j: int| 0 <= j < bs.len() && #[trigger] bs[j];
                assert(o[j] == Some(SV3::B(true)));
            }
            if exists|j: int| 0 <= j < o.len() && #[trigger] o[j] == Some(SV3::B(true)) {
                let j = choose|j: int| 0 <= j < o.len() && #[trigger] o[j] == Some(SV3::B(true));
                assert(bs[j]);
            }
        }
        SX::List(seq![SX::Word(op)] + xs)
    }
}

proof fn whole_ratio(n: int)
    ensures
        ratio(n, 1) == (Q { n, d: 1 }),
{
    reveal_with_fuel(gcd, 3);
    assert(abs(1) == 1);
    assert(gcd(abs(n), 1) == 1);
    assert(n / 1 == n);
}

proof fn whole_folds(o: Seq<Option<Val>>, xs: Seq<Option<SV3>>)
    requires
        o.len() == xs.len(),
        forall|i: int|
            0 <= i < o.len() ==> ((#[trigger] o[i]) matches Some(Val::Num(q)) && q.d == 1 && xs[i] == Some(SV3::I(q.n))),
    ensures
        total(o) == Some(Q { n: sum_i(xs), d: 1 }),
        product(o) == Some(Q { n: product_i(xs), d: 1 }),
    decreases o.len(),
{
    if o.len() > 0 {
        let p = o.drop_last();
        let ys = xs.drop_last();
        assert forall|i: int| 0 <= i < p.len() implies ((#[trigger] p[i]) matches Some(Val::Num(q)) && q.d == 1 && ys[i]
            == Some(SV3::I(q.n))) by {
            assert(p[i] == o[i]);
        }
        whole_folds(p, ys);
        assert(o.last() == o[o.len() - 1]);
        let q = o.last()->0->Num_0;
        whole_ratio(sum_i(ys) * 1 + q.n * 1);
        whole_ratio(product_i(ys) * q.n);
    }
}

proof fn real_folds(o: Seq<Option<Val>>, xs: Seq<Option<SV3>>)
    requires
        o.len() == xs.len(),
        forall|i: int| 0 <= i < o.len() ==> ((#[trigger] o[i]) matches Some(Val::Num(q)) && xs[i] == Some(SV3::R(q))),
    ensures
        total(o) == Some(sum_r(xs)),
        product(o) == Some(product_r(xs)),
    decreases o.len(),
{
    if o.len() > 0 {
        let p = o.drop_last();
        let ys = xs.drop_last();
        assert forall|i: int| 0 <= i < p.len() implies ((#[trigger] p[i]) matches Some(Val::Num(q)) && ys[i] == Some(
            SV3::R(q),
        )) by {
            assert(p[i] == o[i]);
        }
        real_folds(p, ys);
        assert(o.last() == o[o.len() - 1]);
    }
}

/// The terms are those of the expressions.
spec fn are_terms(es: Seq<FE>, ts: Seq<LT>, env: Leaves, names: Names, v: Seq<Term>, xs: Seq<SX>, n: int) -> bool {
    &&& v.len() == n
    &&& xs.len() == n
    &&& forall|i: int| 0 <= i < n ==> is_term(#[trigger] es[i], ts, env, names, v[i], xs[i])
}

proof fn real_found(v: Seq<Term>, i: int)
    requires
        0 <= i <= v.len(),
    ensures
        any_real(v, i) == exists|j: int| i <= j < v.len() && (#[trigger] v[j]).1 == Kind::R,
    decreases v.len() - i,
{
    if i < v.len() {
        real_found(v, i + 1);
        if v[i].1 == Kind::R {
            assert(i <= i && v[i].1 == Kind::R);
        }
        if exists|j: int| i <= j < v.len() && (#[trigger] v[j]).1 == Kind::R {
            let j = choose|j: int| i <= j < v.len() && (#[trigger] v[j]).1 == Kind::R;
            if j > i {
                assert(i + 1 <= j && v[j].1 == Kind::R);
            }
        }
    }
}

proof fn reals_of(es: Seq<FE>, ts: Seq<LT>, env: Leaves, names: Names, v: Seq<Term>, xs: Seq<SX>, n: int) -> (ys: Seq<SX>)
    requires
        are_terms(es, ts, env, names, v, xs, es.len() as int),
        0 <= n <= es.len(),
        forall|i: int| 0 <= i < es.len() ==> numeric(sorted(#[trigger] es[i], ts)),
    ensures
        ys.len() == n,
        forall|i: int|
            0 <= i < n ==> as_real(v[i]) == written(#[trigger] ys[i]) && is_proper(ys[i]) && (sem(es[i], env) matches Some(
                Val::Num(q),
            ) && value(ys[i], names) == Some(SV3::R(q))),
    decreases n,
{
    if n == 0 {
        Seq::empty()
    } else {
        let r = reals_of(es, ts, env, names, v, xs, n - 1);
        let i = n - 1;
        assert(numeric(sorted(es[i], ts)));
        assert(is_term(es[i], ts, env, names, v[i], xs[i]));
        let q = number(sem(es[i], env))->0;
        let y = real_means(v[i], sorted(es[i], ts)->0, q, xs[i], names);
        r.push(y)
    }
}

/// A sum or product.
proof fn fold_means(add: bool, es: Seq<FE>, ts: Seq<LT>, env: Leaves, names: Names, v: Seq<Term>, xs: Seq<SX>) -> (x: SX)
    requires
        are_terms(es, ts, env, names, v, xs, es.len() as int),
        of_numbers(sorteds(es, ts)) is Some,
    ensures
        is_term(
            if add {
                FE::Add(es)
            } else {
                FE::Mul(es)
            },
            ts,
            env,
            names,
            folded(
                if add {
                    "+"@
                } else {
                    "*"@
                },
                v,
            ),
            x,
        ),
{
    op_words();
    let op = if add {
        "+"@
    } else {
        "*"@
    };
    let so = sorteds(es, ts);
    let o = sems(es, env);
    assert forall|i: int| 0 <= i < es.len() implies numeric(sorted(#[trigger] es[i], ts)) by {
        assert(numeric(so[i]));
    }
    real_found(v, 0);
    if exists|i: int| 0 <= i < so.len() && #[trigger] so[i] == Some(Ty::R) {
        let i = choose|i: int| 0 <= i < so.len() && #[trigger] so[i] == Some(Ty::R);
        assert(is_term(es[i], ts, env, names, v[i], xs[i]));
        assert(v[i].1 == Kind::R);
        assert(any_real(v, 0));
        let ys = reals_of(es, ts, env, names, v, xs, es.len() as int);
        assert forall|j: int| 0 <= j < v.len() implies as_real(#[trigger] v[j]) == written(ys[j]) by {
            assert(is_proper(ys[j]));
        }
        list_means(op, v, true, ys, names);
        let w = values(ys, names);
        assert forall|j: int| 0 <= j < o.len() implies ((#[trigger] o[j]) matches Some(Val::Num(q)) && w[j] == Some(
            SV3::R(q),
        )) by {
            assert(is_proper(ys[j]));
        }
        real_folds(o, w);
        assert forall|j: int| 0 <= j < w.len() implies (#[trigger] w[j]) matches Some(SV3::R(_)) by {
            assert(o[j] is Some);
        }
        assert(w[0] matches Some(SV3::R(_)));
        SX::List(seq![SX::Word(op)] + ys)
    } else {
        assert forall|j: int| 0 <= j < v.len() implies (#[trigger] v[j]).1 == Kind::I by {
            assert(is_term(es[j], ts, env, names, v[j], xs[j]));
            assert(so[j] != Some(Ty::R));
            assert(numeric(so[j]));
        }
        assert(!any_real(v, 0));
        assert forall|j: int| 0 <= j < v.len() implies (#[trigger] v[j]).0 == written(xs[j]) by {
            assert(is_term(es[j], ts, env, names, v[j], xs[j]));
        }
        assert forall|j: int| 0 <= j < xs.len() implies is_proper(#[trigger] xs[j]) by {
            assert(is_term(es[j], ts, env, names, v[j], xs[j]));
        }
        list_means(op, v, false, xs, names);
        let w = values(xs, names);
        assert forall|j: int| 0 <= j < o.len() implies ((#[trigger] o[j]) matches Some(Val::Num(q)) && q.d == 1 && w[j]
            == Some(SV3::I(q.n))) by {
            assert(is_term(es[j], ts, env, names, v[j], xs[j]));
            assert(so[j] != Some(Ty::R));
            assert(numeric(so[j]));
        }
        whole_folds(o, w);
        assert forall|j: int| 0 <= j < w.len() implies (#[trigger] w[j]) matches Some(SV3::I(_)) by {
            assert(o[j] is Some);
        }
        SX::List(seq![SX::Word(op)] + xs)
    }
}

/// A constant as a term.
proof fn constant_means(v: Val, ts: Seq<LT>, env: Leaves, names: Names) -> (x: SX)
    requires
        sorted(FE::Const(v), ts) is Some,
    ensures
        value_term(v) matches Some(t) && is_term(FE::Const(v), ts, env, names, t, x),
{
    op_words();
    match v {
        Val::Bool(b) => SX::Word(
            if b {
                "true"@
            } else {
                "false"@
            },
        ),
        Val::Num(q) => {
            let a = integer_means(q.n, names);
            if q.d == 1 {
                a
            } else {
                let b = integer_means(q.d, names);
                written2("/"@, a, b);
                apply2("/"@, a, b, names);
                let xs = seq![value(a, names), value(b, names)];
                assert(xs[0] == Some(SV3::I(q.n)) && xs[1] == Some(SV3::I(q.d)));
                assert(Q { n: q.n, d: 1 }.over(Q { n: q.d, d: 1 }) == ratio(q.n * 1, 1 * q.d));
                SX::List(seq![SX::Word("/"@), a, b])
            }
        },
        Val::Scalar(_, i) => {
            numeral_means(i, names);
            SX::Word(dec(i as int))
        },
        _ => arbitrary(),
    }
}

/// The name of a leaf is a word that stands for itself.
pub proof fn sym_word(l: nat, t: nat, names: Names)
    ensures
        is_word(sym(l as int, t as int)),
        sym(l as int, t as int).len() > 0,
        sym(l as int, t as int)[0] == 's',
        value(SX::Word(sym(l as int, t as int)), names) == names(sym(l as int, t as int)),
{
    let w = sym(l as int, t as int);
    dec_read(l);
    dec_read(t);
    reveal_strlit("s");
    reveal_strlit("_l");
    reveal_strlit("true");
    reveal_strlit("false");
    let a = "s"@;
    let b = dec(t as int);
    let c = "_l"@;
    let d = dec(l as int);
    assert forall|k: int| 0 <= k < w.len() implies !ends_word(#[trigger] w[k]) by {
        if k < 1 {
            assert(w[k] == a[k]);
        } else if k < 1 + b.len() {
            assert(w[k] == b[k - 1]);
            assert(!ends_word(b[k - 1]));
        } else if k < 3 + b.len() {
            assert(w[k] == c[k - 1 - b.len()]);
        } else {
            assert(w[k] == d[k - 3 - b.len()]);
            assert(!ends_word(d[k - 3 - b.len()]));
        }
    }
    assert(w[0] == a[0]);
    assert("true"@[0] == 't' && "false"@[0] == 'f');
    assert(!('0' <= w[0] <= '9'));
}

/// The name of a formula is a word that stands for itself.
pub proof fn aux_word(i: nat, names: Names)
    ensures
        is_word(aux(i as int)),
        aux(i as int).len() > 0,
        aux(i as int)[0] == 'a',
        value(SX::Word(aux(i as int)), names) == names(aux(i as int)),
{
    let w = aux(i as int);
    dec_read(i);
    reveal_strlit("aux");
    reveal_strlit("true");
    reveal_strlit("false");
    let a = "aux"@;
    let b = dec(i as int);
    assert forall|k: int| 0 <= k < w.len() implies !ends_word(#[trigger] w[k]) by {
        if k < 3 {
            assert(w[k] == a[k]);
        } else {
            assert(w[k] == b[k - 3]);
            assert(!ends_word(b[k - 3]));
        }
    }
    assert(w[0] == a[0]);
    assert("true"@[0] == 't' && "false"@[0] == 'f');
    assert(!('0' <= w[0] <= '9'));
}

/// Different formulas have different names.
pub proof fn aux_apart(i: nat, j: nat)
    requires
        aux(i as int) == aux(j as int),
    ensures
        i == j,
{
    dec_read(i);
    dec_read(j);
    let a = "aux"@;
    assert(aux(i as int).skip(a.len() as int) =~= dec(i as int));
    assert(aux(j as int).skip(a.len() as int) =~= dec(j as int));
}

/// A term of one operand or of two operands that are numbers.
proof fn arithmetic_means(
    e: FE,
    a: FE,
    b: FE,
    ts: Seq<LT>,
    env: Leaves,
    names: Names,
    ta: Term,
    tb: Term,
    xa: SX,
    xb: SX,
) -> (x: SX)
    requires
        is_term(a, ts, env, names, ta, xa),
        is_term(b, ts, env, names, tb, xb),
        sorted(e, ts) is Some,
        sem(e, env) is Some,
        e == FE::Div(Box::new(a), Box::new(b)) || e == FE::IDiv(Box::new(a), Box::new(b)) || e == FE::Mod(
            Box::new(a),
            Box::new(b),
        ),
    ensures
        is_term(
            e,
            ts,
            env,
            names,
            match e {
                FE::Div(_, _) => (op2("/"@, as_real(ta), as_real(tb)), Kind::R),
                FE::IDiv(_, _) => (op2("div"@, ta.0, tb.0), Kind::I),
                _ => (op2("mod"@, ta.0, tb.0), Kind::I),
            },
            x,
        ),
{
    op_words();
    let m = number(sem(a, env))->0;
    let n = number(sem(b, env))->0;
    if e is Div {
        let p = real_means(ta, sorted(a, ts)->0, m, xa, names);
        let q = real_means(tb, sorted(b, ts)->0, n, xb, names);
        written2("/"@, p, q);
        apply2("/"@, p, q, names);
        SX::List(seq![SX::Word("/"@), p, q])
    } else {
        let op = if e is IDiv {
            "div"@
        } else {
            "mod"@
        };
        written2(op, xa, xb);
        apply2(op, xa, xb, names);
        let xs = seq![value(xa, names), value(xb, names)];
        assert(xs[0] == Some(SV3::I(m.n)) && xs[1] == Some(SV3::I(n.n)));
        assert(all_i(xs));
        SX::List(seq![SX::Word(op), xa, xb])
    }
}

/// A choice between two terms.
proof fn choice_means(
    c: FE,
    a: FE,
    b: FE,
    ts: Seq<LT>,
    env: Leaves,
    names: Names,
    tc: Term,
    ta: Term,
    tb: Term,
    xc: SX,
    xa: SX,
    xb: SX,
) -> (x: SX)
    requires
        is_term(c, ts, env, names, tc, xc),
        is_term(a, ts, env, names, ta, xa),
        is_term(b, ts, env, names, tb, xb),
        sorted(FE::Ite(Box::new(c), Box::new(a), Box::new(b)), ts) is Some,
    ensures
        is_term(
            FE::Ite(Box::new(c), Box::new(a), Box::new(b)),
            ts,
            env,
            names,
            (
                "(ite "@ + tc.0 + " "@ + made_alike(ta, tb).0 + " "@ + made_alike(ta, tb).1 + ")"@,
                if ta.1 == tb.1 {
                    ta.1
                } else {
                    Kind::R
                },
            ),
            x,
        ),
{
    op_words();
    let (p, q) = alike_means(a, b, ts, env, names, ta, tb, xa, xb);
    written3(xc, p, q);
    apply3("ite"@, xc, p, q, names);
    let xs = seq![value(xc, names), value(p, names), value(q, names)];
    assert(xs[0] == value(xc, names) && xs[1] == value(p, names) && xs[2] == value(q, names));
    SX::List(seq![SX::Word("ite"@), xc, p, q])
}

/// The conditions hold as their values say.
proof fn bools_of(es: Seq<FE>, ts: Seq<LT>, env: Leaves, names: Names, v: Seq<Term>, xs: Seq<SX>) -> (bs: Seq<bool>)
    requires
        are_terms(es, ts, env, names, v, xs, es.len() as int),
        all_ty_b(sorteds(es, ts)),
    ensures
        bs.len() == es.len(),
        forall|j: int| 0 <= j < v.len() ==> (#[trigger] v[j]).0 == written(xs[j]),
        forall|j: int| 0 <= j < xs.len() ==> is_proper(#[trigger] xs[j]),
        forall|j: int| 0 <= j < xs.len() ==> value(#[trigger] xs[j], names) == Some(SV3::B(bs[j])),
        all_hold(sems(es, env)) == forall|j: int| 0 <= j < bs.len() ==> #[trigger] bs[j],
        some_holds(sems(es, env)) == exists|j: int| 0 <= j < bs.len() && #[trigger] bs[j],
{
    let o = sems(es, env);
    let so = sorteds(es, ts);
    let bs = Seq::new(es.len(), |j: int| holds(o[j]));
    assert forall|j: int| 0 <= j < es.len() implies v[j].0 == written(xs[j]) && is_proper(xs[j]) && value(xs[j], names)
        == Some(SV3::B(#[trigger] bs[j])) by {
        assert(so[j] == Some(Ty::B));
        assert(is_term(es[j], ts, env, names, v[j], xs[j]));
        assert(o[j] == sem(es[j], env));
    }
    assert forall|j: int| 0 <= j < v.len() implies (#[trigger] v[j]).0 == written(xs[j]) by {
        assert(bs[j] == holds(o[j]));
    }
    assert forall|j: int| 0 <= j < xs.len() implies is_proper(#[trigger] xs[j]) by {
        assert(bs[j] == holds(o[j]));
    }
    assert forall|j: int| 0 <= j < xs.len() implies value(#[trigger] xs[j], names) == Some(SV3::B(bs[j])) by {
        assert(bs[j] == holds(o[j]));
    }
    if all_hold(o) {
        assert forall|j: int| 0 <= j < bs.len() implies #[trigger] bs[j] by {
            assert(holds(o[j]));
        }
    }
    if forall|j: int| 0 <= j < bs.len() ==> #[trigger] bs[j] {
        assert forall|j: int| 0 <= j < o.len() implies holds(#[trigger] o[j]) by {
            assert(bs[j]);
        }
    }
    if some_holds(o) {
        let j = choose|j: int| 0 <= j < o.len() && holds(#[trigger] o[j]);
        assert(bs[j]);
    }
    if exists|j: int| 0 <= j < bs.len() && #[trigger] bs[j] {
        let j = choose|j: int| 0 <= j < bs.len() && #[trigger] bs[j];
        assert(holds(o[j]));
    }
    bs
}

/// The written term of an expression has the value of the expression.
pub proof fn term_means(e: FE, ts: Seq<LT>, c: nat, n: nat, env: Leaves, names: Names) -> (x: SX)
    requires
        sorted(e, ts) is Some,
        valued(e, env),
        named_right(names, ts, env, c, n),
    ensures
        term(e, ts, c, n) matches Some(t) && is_term(e, ts, env, names, t, x),
    decreases e, 0nat,
{
    op_words();
    match e {
        FE::Const(v) => constant_means(v, ts, env, names),
        FE::Var(l, p) => {
            assert(env(l, p) is Some);
            sym_word(
                l as nat,
                if p {
                    n
                } else {
                    c
                },
                names,
            );
            SX::Word(
                sym(
                    l as int,
                    if p {
                        n as int
                    } else {
                        c as int
                    },
                ),
            )
        },
        FE::Not(a) => {
            let x = term_means(*a, ts, c, n, env, names);
            written1("not"@, x);
            apply1("not"@, x, names);
            let xs = seq![value(x, names)];
            assert(xs[0] == value(x, names));
            assert(all_b(xs));
            SX::List(seq![SX::Word("not"@), x])
        },
        FE::And(es) => {
            let (v, xs) = terms_mean(es, ts, c, n, env, names, 0, Seq::empty(), Seq::empty());
            let bs = bools_of(es, ts, env, names, v, xs);
            junction_means(true, v, xs, bs, names)
        },
        FE::Or(es) => {
            let (v, xs) = terms_mean(es, ts, c, n, env, names, 0, Seq::empty(), Seq::empty());
            let bs = bools_of(es, ts, env, names, v, xs);
            junction_means(false, v, xs, bs, names)
        },
        FE::Ite(p, a, b) => {
            let xp = term_means(*p, ts, c, n, env, names);
            let xa = term_means(*a, ts, c, n, env, names);
            let xb = term_means(*b, ts, c, n, env, names);
            choice_means(
                *p,
                *a,
                *b,
                ts,
                env,
                names,
                term(*p, ts, c, n)->0,
                term(*a, ts, c, n)->0,
                term(*b, ts, c, n)->0,
                xp,
                xa,
                xb,
            )
        },
        FE::Eq(a, b) => {
            let xa = term_means(*a, ts, c, n, env, names);
            let xb = term_means(*b, ts, c, n, env, names);
            comparison_means(e, "="@, *a, *b, ts, env, names, term(*a, ts, c, n)->0, term(*b, ts, c, n)->0, xa, xb)
        },
        FE::Lt(a, b) => {
            let xa = term_means(*a, ts, c, n, env, names);
            let xb = term_means(*b, ts, c, n, env, names);
            comparison_means(e, "<"@, *a, *b, ts, env, names, term(*a, ts, c, n)->0, term(*b, ts, c, n)->0, xa, xb)
        },
        FE::Le(a, b) => {
            let xa = term_means(*a, ts, c, n, env, names);
            let xb = term_means(*b, ts, c, n, env, names);
            comparison_means(e, "<="@, *a, *b, ts, env, names, term(*a, ts, c, n)->0, term(*b, ts, c, n)->0, xa, xb)
        },
        FE::Add(es) => {
            let (v, xs) = terms_mean(es, ts, c, n, env, names, 0, Seq::empty(), Seq::empty());
            fold_means(true, es, ts, env, names, v, xs)
        },
        FE::Mul(es) => {
            let (v, xs) = terms_mean(es, ts, c, n, env, names, 0, Seq::empty(), Seq::empty());
            fold_means(false, es, ts, env, names, v, xs)
        },
        FE::Neg(a) => {
            let x = term_means(*a, ts, c, n, env, names);
            written1("-"@, x);
            apply1("-"@, x, names);
            let xs = seq![value(x, names)];
            assert(xs[0] == value(x, names));
            SX::List(seq![SX::Word("-"@), x])
        },
        FE::Div(a, b) => {
            let xa = term_means(*a, ts, c, n, env, names);
            let xb = term_means(*b, ts, c, n, env, names);
            arithmetic_means(e, *a, *b, ts, env, names, term(*a, ts, c, n)->0, term(*b, ts, c, n)->0, xa, xb)
        },
        FE::IDiv(a, b) => {
            let xa = term_means(*a, ts, c, n, env, names);
            let xb = term_means(*b, ts, c, n, env, names);
            arithmetic_means(e, *a, *b, ts, env, names, term(*a, ts, c, n)->0, term(*b, ts, c, n)->0, xa, xb)
        },
        FE::Mod(a, b) => {
            let xa = term_means(*a, ts, c, n, env, names);
            let xb = term_means(*b, ts, c, n, env, names);
            arithmetic_means(e, *a, *b, ts, env, names, term(*a, ts, c, n)->0, term(*b, ts, c, n)->0, xa, xb)
        },
    }
}

proof fn terms_mean(
    es: Seq<FE>,
    ts: Seq<LT>,
    c: nat,
    n: nat,
    env: Leaves,
    names: Names,
    i: int,
    acc: Seq<Term>,
    xs: Seq<SX>,
) -> (r: (Seq<Term>, Seq<SX>))
    requires
        0 <= i <= es.len(),
        forall|j: int| 0 <= j < es.len() ==> (#[trigger] sorteds(es, ts)[j]) is Some,
        all_valued(valueds(es, env)),
        named_right(names, ts, env, c, n),
        are_terms(es, ts, env, names, acc, xs, i),
    ensures
        terms(es, ts, c, n, i, acc) == Some(r.0),
        are_terms(es, ts, env, names, r.0, r.1, es.len() as int),
    decreases es, es.len() - i,
{
    reveal_with_fuel(terms, 2);
    if i < es.len() {
        assert(valueds(es, env)[i]);
        assert(sorteds(es, ts)[i] is Some);
        let x = term_means(es[i], ts, c, n, env, names);
        let t = term(es[i], ts, c, n)->0;
        let acc2 = acc.push(t);
        let xs2 = xs.push(x);
        assert forall|j: int| 0 <= j < i + 1 implies is_term(#[trigger] es[j], ts, env, names, acc2[j], xs2[j]) by {
            if j < i {
                assert(acc2[j] == acc[j] && xs2[j] == xs[j]);
            }
        }
        terms_mean(es, ts, c, n, env, names, i + 1, acc2, xs2)
    } else {
        (acc, xs)
    }
}

/// An expression of a type can be written.
pub proof fn term_some(e: FE, ts: Seq<LT>, c: nat, n: nat)
    requires
        sorted(e, ts) is Some,
    ensures
        term(e, ts, c, n) is Some,
    decreases e, 0nat,
{
    match e {
        FE::Const(_) => {},
        FE::Var(_, _) => {},
        FE::Not(a) => {
            term_some(*a, ts, c, n);
        },
        FE::And(es) => {
            terms_some(es, ts, c, n, 0, Seq::empty());
        },
        FE::Or(es) => {
            terms_some(es, ts, c, n, 0, Seq::empty());
        },
        FE::Ite(p, a, b) => {
            term_some(*p, ts, c, n);
            term_some(*a, ts, c, n);
            term_some(*b, ts, c, n);
        },
        FE::Eq(a, b) => {
            term_some(*a, ts, c, n);
            term_some(*b, ts, c, n);
        },
        FE::Lt(a, b) => {
            term_some(*a, ts, c, n);
            term_some(*b, ts, c, n);
        },
        FE::Le(a, b) => {
            term_some(*a, ts, c, n);
            term_some(*b, ts, c, n);
        },
        FE::Add(es) => {
            terms_some(es, ts, c, n, 0, Seq::empty());
        },
        FE::Mul(es) => {
            terms_some(es, ts, c, n, 0, Seq::empty());
        },
        FE::Neg(a) => {
            term_some(*a, ts, c, n);
        },
        FE::Div(a, b) => {
            term_some(*a, ts, c, n);
            term_some(*b, ts, c, n);
        },
        FE::IDiv(a, b) => {
            term_some(*a, ts, c, n);
            term_some(*b, ts, c, n);
        },
        FE::Mod(a, b) => {
            term_some(*a, ts, c, n);
            term_some(*b, ts, c, n);
        },
    }
}

proof fn terms_some(es: Seq<FE>, ts: Seq<LT>, c: nat, n: nat, i: int, acc: Seq<Term>)
    requires
        0 <= i <= es.len(),
        forall|j: int| 0 <= j < es.len() ==> (#[trigger] sorteds(es, ts)[j]) is Some,
    ensures
        terms(es, ts, c, n, i, acc) is Some,
    decreases es, es.len() - i,
{
    reveal_with_fuel(terms, 2);
    if i < es.len() {
        assert(sorteds(es, ts)[i] is Some);
        term_some(es[i], ts, c, n);
        terms_some(es, ts, c, n, i + 1, acc.push(term(es[i], ts, c, n)->0));
    }
}

} // verus!
