//! Questions for a solver as text, in the SMT-LIB language.

use crate::explicit::EngineError;
use crate::fexpr::{fe_models, FExpr, LeafInfo, LeafType, FE, LT};
use crate::flat::leaf_types;
use crate::num::{dec, Int};
use crate::smt::{Node, SmtEnc, NV};
use crate::text::{own, put};
use crate::value::{Val, Value};
use vstd::prelude::*;

verus! {

/// The sort of a term.
#[derive(Clone, Copy, Debug, PartialEq, Eq, Structural)]
pub enum Kind {
    /// A truth value.
    B,
    /// An integer.
    I,
    /// A real number.
    R,
}

/// The sort of the values of a leaf.
pub open spec fn kind_of(t: LT) -> Kind {
    match t {
        LT::Bool => Kind::B,
        LT::Real => Kind::R,
        _ => Kind::I,
    }
}

fn leaf_kind(t: &LeafType) -> (r: Kind)
    ensures
        r == kind_of(t@),
{
    match t {
        LeafType::Bool => Kind::B,
        LeafType::Real => Kind::R,
        _ => Kind::I,
    }
}

/// The name of a leaf at a step.
pub open spec fn sym(l: int, t: int) -> Seq<char> {
    "s"@ + dec(t) + "_l"@ + dec(l)
}

fn put_sym(out: &mut String, l: usize, t: usize)
    ensures
        final(out)@ == old(out)@ + sym(l as int, t as int),
{
    let ghost o = out@;
    put(out, "s");
    put(out, Int::from_u64(t as u64).text().as_str());
    put(out, "_l");
    put(out, Int::from_u64(l as u64).text().as_str());
    assert(out@ =~= o + sym(l as int, t as int));
}

/// The name of a formula.
pub open spec fn aux(i: int) -> Seq<char> {
    "aux"@ + dec(i)
}

fn put_aux(out: &mut String, i: usize)
    ensures
        final(out)@ == old(out)@ + aux(i as int),
{
    let ghost o = out@;
    put(out, "aux");
    put(out, Int::from_u64(i as u64).text().as_str());
    assert(out@ =~= o + aux(i as int));
}

/// An integer as a term.
pub open spec fn lit_int(n: int) -> Seq<char> {
    if n < 0 {
        "(- "@ + dec(-n) + ")"@
    } else {
        dec(n)
    }
}

fn int_lit(n: &Int) -> (r: String)
    ensures
        r@ == lit_int(n@),
{
    if n.is_negative() {
        let mut out = own("(- ");
        put(&mut out, n.negated().text().as_str());
        put(&mut out, ")");
        out
    } else {
        n.text()
    }
}

/// A term and its sort.
pub type Term = (Seq<char>, Kind);

/// A term as one of the reals, if it is an integer.
pub open spec fn as_real(t: Term) -> Seq<char> {
    if t.1 == Kind::I {
        "(to_real "@ + t.0 + ")"@
    } else {
        t.0
    }
}

fn to_real(t: (String, Kind)) -> (r: String)
    ensures
        r@ == as_real((t.0@, t.1)),
{
    if t.1 == Kind::I {
        let mut out = own("(to_real ");
        put(&mut out, t.0.as_str());
        put(&mut out, ")");
        out
    } else {
        t.0
    }
}

/// Two terms made to agree: where they differ in sort, as reals.
pub open spec fn made_alike(a: Term, b: Term) -> (Seq<char>, Seq<char>) {
    if a.1 == b.1 {
        (a.0, b.0)
    } else {
        (as_real(a), as_real(b))
    }
}

fn make_alike(a: (String, Kind), b: (String, Kind)) -> (r: (String, String))
    ensures
        (r.0@, r.1@) == made_alike((a.0@, a.1), (b.0@, b.1)),
{
    if a.1 == b.1 {
        (a.0, b.0)
    } else {
        (to_real(a), to_real(b))
    }
}

/// An operator applied to one term.
pub open spec fn op1(op: Seq<char>, a: Seq<char>) -> Seq<char> {
    "("@ + op + " "@ + a + ")"@
}

fn apply1(op: &str, a: &String) -> (r: String)
    ensures
        r@ == op1(op@, a@),
{
    let mut out = own("(");
    put(&mut out, op);
    put(&mut out, " ");
    put(&mut out, a.as_str());
    put(&mut out, ")");
    out
}

/// An operator applied to two terms.
pub open spec fn op2(op: Seq<char>, a: Seq<char>, b: Seq<char>) -> Seq<char> {
    "("@ + op + " "@ + a + " "@ + b + ")"@
}

fn apply2(op: &str, a: &String, b: &String) -> (r: String)
    ensures
        r@ == op2(op@, a@, b@),
{
    let mut out = own("(");
    put(&mut out, op);
    put(&mut out, " ");
    put(&mut out, a.as_str());
    put(&mut out, " ");
    put(&mut out, b.as_str());
    put(&mut out, ")");
    out
}

/// The terms from `i` on, each behind a blank; as reals where `reals`.
pub open spec fn spaced(out: Seq<char>, ts: Seq<Term>, reals: bool, i: int) -> Seq<char>
    decreases ts.len() - i,
{
    if i < 0 || i >= ts.len() {
        out
    } else {
        spaced(
            out + " "@ + (if reals {
                as_real(ts[i])
            } else {
                ts[i].0
            }),
            ts,
            reals,
            i + 1,
        )
    }
}

/// The contents of terms.
pub open spec fn term_views(v: Seq<(String, Kind)>) -> Seq<Term> {
    Seq::new(v.len(), |i: int| (v[i].0@, v[i].1))
}

fn put_spaced(out: &mut String, ts: &Vec<(String, Kind)>, reals: bool)
    ensures
        final(out)@ == spaced(old(out)@, term_views(ts@), reals, 0),
{
    let mut i: usize = 0;
    while i < ts.len()
        invariant
            i <= ts@.len(),
            spaced(out@, term_views(ts@), reals, i as int) == spaced(old(out)@, term_views(ts@), reals, 0),
        decreases ts.len() - i,
    {
        assert(term_views(ts@)[i as int] == (ts@[i as int].0@, ts@[i as int].1));
        put(out, " ");
        if reals {
            let t = to_real((ts[i].0.clone(), ts[i].1));
            put(out, t.as_str());
        } else {
            put(out, ts[i].0.as_str());
        }
        i += 1;
    }
}

/// A junction of conditions; of none, its neutral element.
pub open spec fn junction(op: Seq<char>, none: Seq<char>, ts: Seq<Term>) -> Seq<char> {
    if ts.len() == 0 {
        none
    } else {
        spaced("("@ + op, ts, false, 0) + ")"@
    }
}

fn join_terms(op: &str, none: &str, ts: &Vec<(String, Kind)>) -> (r: String)
    ensures
        r@ == junction(op@, none@, term_views(ts@)),
{
    if ts.len() == 0 {
        own(none)
    } else {
        let mut out = own("(");
        put(&mut out, op);
        put_spaced(&mut out, ts, false);
        put(&mut out, ")");
        out
    }
}

/// One of the terms from `i` on is a real.
pub open spec fn any_real(ts: Seq<Term>, i: int) -> bool
    decreases ts.len() - i,
{
    if i < 0 || i >= ts.len() {
        false
    } else {
        ts[i].1 == Kind::R || any_real(ts, i + 1)
    }
}

fn has_real(ts: &Vec<(String, Kind)>) -> (r: bool)
    ensures
        r == any_real(term_views(ts@), 0),
{
    let mut i: usize = 0;
    while i < ts.len()
        invariant
            any_real(term_views(ts@), 0) == any_real(term_views(ts@), i as int),
        decreases ts.len() - i,
    {
        assert(term_views(ts@)[i as int] == (ts@[i as int].0@, ts@[i as int].1));
        if ts[i].1 == Kind::R {
            return true;
        }
        i += 1;
    }
    false
}

/// A sum or product: of reals if one of the terms is a real.
pub open spec fn folded(op: Seq<char>, ts: Seq<Term>) -> Term {
    let reals = any_real(ts, 0);
    (
        spaced("("@ + op, ts, reals, 0) + ")"@,
        if reals {
            Kind::R
        } else {
            Kind::I
        },
    )
}

fn fold(op: &str, ts: &Vec<(String, Kind)>) -> (r: (String, Kind))
    ensures
        (r.0@, r.1) == folded(op@, term_views(ts@)),
{
    let reals = has_real(ts);
    let mut out = own("(");
    put(&mut out, op);
    put_spaced(&mut out, ts, reals);
    put(&mut out, ")");
    (
        out,
        if reals {
            Kind::R
        } else {
            Kind::I
        },
    )
}

/// A value as a term; only scalar values have one.
pub open spec fn value_term(v: Val) -> Option<Term> {
    match v {
        Val::Bool(b) => Some(
            (
                if b {
                    "true"@
                } else {
                    "false"@
                },
                Kind::B,
            ),
        ),
        Val::Num(q) => Some(
            if q.is_int() {
                (lit_int(q.n), Kind::I)
            } else {
                (op2("/"@, lit_int(q.n), lit_int(q.d)), Kind::R)
            },
        ),
        Val::Scalar(_t, i) => Some((dec(i as int), Kind::I)),
        _ => None,
    }
}

/// The content of a term, where there is one.
pub open spec fn opt_term(t: Option<(String, Kind)>) -> Option<Term> {
    match t {
        Some(x) => Some((x.0@, x.1)),
        None => None,
    }
}

fn term_of_value(v: &Value) -> (r: Option<(String, Kind)>)
    ensures
        opt_term(r) == value_term(v.model()),
{
    match v {
        Value::Bool(b) => Some(
            (
                own(
                    if *b {
                        "true"
                    } else {
                        "false"
                    },
                ),
                Kind::B,
            ),
        ),
        Value::Num(q) => if q.is_integer() {
            Some((int_lit(q.numer()), Kind::I))
        } else {
            let a = int_lit(q.numer());
            let b = int_lit(q.denom());
            Some((apply2("/", &a, &b), Kind::R))
        },
        Value::Scalar(_t, i) => Some((Int::from_u64(*i as u64).text(), Kind::I)),
        _ => None,
    }
}

/// An expression as a term, over the leaves of two steps.
pub open spec fn term(e: FE, ts: Seq<LT>, c: nat, n: nat) -> Option<Term>
    decreases e,
{
    match e {
        FE::Const(v) => value_term(v),
        FE::Var(l, p) => if l < ts.len() {
            Some(
                (
                    sym(
                        l as int,
                        if p {
                            n as int
                        } else {
                            c as int
                        },
                    ),
                    kind_of(ts[l as int]),
                ),
            )
        } else {
            None
        },
        FE::Not(a) => match term(*a, ts, c, n) {
            Some(x) => Some((op1("not"@, x.0), Kind::B)),
            None => None,
        },
        FE::And(es) => match terms(es, ts, c, n, 0, Seq::empty()) {
            Some(v) => Some((junction("and"@, "true"@, v), Kind::B)),
            None => None,
        },
        FE::Or(es) => match terms(es, ts, c, n, 0, Seq::empty()) {
            Some(v) => Some((junction("or"@, "false"@, v), Kind::B)),
            None => None,
        },
        FE::Ite(a, b, d) => match (term(*a, ts, c, n), term(*b, ts, c, n), term(*d, ts, c, n)) {
            (Some(x), Some(y), Some(z)) => {
                let p = made_alike(y, z);
                Some(
                    (
                        "(ite "@ + x.0 + " "@ + p.0 + " "@ + p.1 + ")"@,
                        if y.1 == z.1 {
                            y.1
                        } else {
                            Kind::R
                        },
                    ),
                )
            },
            _ => None,
        },
        FE::Eq(a, b) => compared("="@, term(*a, ts, c, n), term(*b, ts, c, n)),
        FE::Lt(a, b) => compared("<"@, term(*a, ts, c, n), term(*b, ts, c, n)),
        FE::Le(a, b) => compared("<="@, term(*a, ts, c, n), term(*b, ts, c, n)),
        FE::Add(es) => match terms(es, ts, c, n, 0, Seq::empty()) {
            Some(v) => Some(folded("+"@, v)),
            None => None,
        },
        FE::Mul(es) => match terms(es, ts, c, n, 0, Seq::empty()) {
            Some(v) => Some(folded("*"@, v)),
            None => None,
        },
        FE::Neg(a) => match term(*a, ts, c, n) {
            Some(x) => Some((op1("-"@, x.0), x.1)),
            None => None,
        },
        FE::Div(a, b) => match (term(*a, ts, c, n), term(*b, ts, c, n)) {
            (Some(x), Some(y)) => Some((op2("/"@, as_real(x), as_real(y)), Kind::R)),
            _ => None,
        },
        FE::IDiv(a, b) => match (term(*a, ts, c, n), term(*b, ts, c, n)) {
            (Some(x), Some(y)) => Some((op2("div"@, x.0, y.0), Kind::I)),
            _ => None,
        },
        FE::Mod(a, b) => match (term(*a, ts, c, n), term(*b, ts, c, n)) {
            (Some(x), Some(y)) => Some((op2("mod"@, x.0, y.0), Kind::I)),
            _ => None,
        },
    }
}

/// The expressions from `i` on as terms.
pub open spec fn terms(es: Seq<FE>, ts: Seq<LT>, c: nat, n: nat, i: int, acc: Seq<Term>) -> Option<Seq<Term>>
    decreases es, es.len() - i,
{
    if i < 0 || i >= es.len() {
        Some(acc)
    } else {
        match term(es[i], ts, c, n) {
            Some(x) => terms(es, ts, c, n, i + 1, acc.push(x)),
            None => None,
        }
    }
}

/// A comparison.
pub open spec fn compared(op: Seq<char>, a: Option<Term>, b: Option<Term>) -> Option<Term> {
    match (a, b) {
        (Some(x), Some(y)) => {
            let p = made_alike(x, y);
            Some((op2(op, p.0, p.1), Kind::B))
        },
        _ => None,
    }
}

fn compare(op: &str, a: Option<(String, Kind)>, b: Option<(String, Kind)>) -> (r: Option<(String, Kind)>)
    ensures
        opt_term(r) == compared(op@, opt_term(a), opt_term(b)),
{
    match (a, b) {
        (Some(x), Some(y)) => {
            let p = make_alike(x, y);
            Some((apply2(op, &p.0, &p.1), Kind::B))
        },
        _ => None,
    }
}

fn write_term(e: &FExpr, leaves: &Vec<LeafInfo>, c: usize, n: usize) -> (r: Option<(String, Kind)>)
    ensures
        opt_term(r) == term(e.model(), leaf_types(leaves@), c as nat, n as nat),
    decreases e, 1nat,
{
    let ghost ts = leaf_types(leaves@);
    match e {
        FExpr::Const(v) => term_of_value(v),
        FExpr::Var(l, p) => {
            if (*l as usize) < leaves.len() {
                let mut out = own("");
                put_sym(
                    &mut out,
                    *l as usize,
                    if *p {
                        n
                    } else {
                        c
                    },
                );
                proof {
                    reveal_strlit("");
                    assert(out@ =~= sym(
                        *l as int,
                        if *p {
                            n as int
                        } else {
                            c as int
                        },
                    ));
                }
                Some((out, leaf_kind(&leaves[*l as usize].ty)))
            } else {
                None
            }
        },
        FExpr::Not(a) => match write_term(a, leaves, c, n) {
            Some(x) => Some((apply1("not", &x.0), Kind::B)),
            None => None,
        },
        FExpr::And(es) => match write_terms(es, leaves, c, n) {
            Some(v) => Some((join_terms("and", "true", &v), Kind::B)),
            None => None,
        },
        FExpr::Or(es) => match write_terms(es, leaves, c, n) {
            Some(v) => Some((join_terms("or", "false", &v), Kind::B)),
            None => None,
        },
        FExpr::Ite(a, b, d) => {
            let x = write_term(a, leaves, c, n);
            let y = write_term(b, leaves, c, n);
            let z = write_term(d, leaves, c, n);
            match (x, y, z) {
                (Some(x), Some(y), Some(z)) => {
                    let k = if y.1 == z.1 {
                        y.1
                    } else {
                        Kind::R
                    };
                    let p = make_alike(y, z);
                    let mut out = own("(ite ");
                    put(&mut out, x.0.as_str());
                    put(&mut out, " ");
                    put(&mut out, p.0.as_str());
                    put(&mut out, " ");
                    put(&mut out, p.1.as_str());
                    put(&mut out, ")");
                    Some((out, k))
                },
                _ => None,
            }
        },
        FExpr::Eq(a, b) => compare("=", write_term(a, leaves, c, n), write_term(b, leaves, c, n)),
        FExpr::Lt(a, b) => compare("<", write_term(a, leaves, c, n), write_term(b, leaves, c, n)),
        FExpr::Le(a, b) => compare("<=", write_term(a, leaves, c, n), write_term(b, leaves, c, n)),
        FExpr::Add(es) => match write_terms(es, leaves, c, n) {
            Some(v) => Some(fold("+", &v)),
            None => None,
        },
        FExpr::Mul(es) => match write_terms(es, leaves, c, n) {
            Some(v) => Some(fold("*", &v)),
            None => None,
        },
        FExpr::Neg(a) => match write_term(a, leaves, c, n) {
            Some(x) => Some((apply1("-", &x.0), x.1)),
            None => None,
        },
        FExpr::Div(a, b) => match (write_term(a, leaves, c, n), write_term(b, leaves, c, n)) {
            (Some(x), Some(y)) => {
                let p = to_real(x);
                let q = to_real(y);
                Some((apply2("/", &p, &q), Kind::R))
            },
            _ => None,
        },
        FExpr::IDiv(a, b) => match (write_term(a, leaves, c, n), write_term(b, leaves, c, n)) {
            (Some(x), Some(y)) => Some((apply2("div", &x.0, &y.0), Kind::I)),
            _ => None,
        },
        FExpr::Mod(a, b) => match (write_term(a, leaves, c, n), write_term(b, leaves, c, n)) {
            (Some(x), Some(y)) => Some((apply2("mod", &x.0, &y.0), Kind::I)),
            _ => None,
        },
    }
}

/// The content of terms, where there are some.
pub open spec fn opt_terms(v: Option<Vec<(String, Kind)>>) -> Option<Seq<Term>> {
    match v {
        Some(x) => Some(term_views(x@)),
        None => None,
    }
}

fn write_terms(es: &Vec<FExpr>, leaves: &Vec<LeafInfo>, c: usize, n: usize) -> (r: Option<Vec<(String, Kind)>>)
    ensures
        opt_terms(r) == terms(fe_models(es@), leaf_types(leaves@), c as nat, n as nat, 0, Seq::empty()),
    decreases es, 0nat,
{
    let ghost ms = fe_models(es@);
    let ghost ts = leaf_types(leaves@);
    let mut v: Vec<(String, Kind)> = Vec::new();
    let mut i: usize = 0;
    assert(term_views(v@) =~= Seq::empty());
    while i < es.len()
        invariant
            i <= es@.len(),
            ms == fe_models(es@),
            ts == leaf_types(leaves@),
            terms(ms, ts, c as nat, n as nat, i as int, term_views(v@)) == terms(
                ms,
                ts,
                c as nat,
                n as nat,
                0,
                Seq::empty(),
            ),
        decreases es.len() - i,
    {
        proof {
            reveal_with_fuel(terms, 2);
            assert(ms[i as int] == es@[i as int].model());
        }
        match write_term(&es[i], leaves, c, n) {
            Some(x) => {
                let ghost a = v@;
                let ghost m = (x.0@, x.1);
                v.push(x);
                assert(term_views(v@) =~= term_views(a).push(m));
            },
            None => {
                return None;
            },
        }
        i += 1;
    }
    proof {
        reveal_with_fuel(terms, 2);
    }
    Some(v)
}

/// A term of a truth value.
pub open spec fn plain(s: Seq<char>) -> Term {
    (s, Kind::B)
}

/// What it means for leaf `l` and those behind it to have values of their types at a step.
pub open spec fn domain_terms(ts: Seq<LT>, t: int, l: int, acc: Seq<Term>) -> Seq<Term>
    decreases ts.len() - l,
{
    if l < 0 || l >= ts.len() {
        acc
    } else {
        let s = sym(l, t);
        domain_terms(
            ts,
            t,
            l + 1,
            match ts[l] {
                LT::Range(lo, hi) => acc.push(plain(op2("<="@, lit_int(lo), s))).push(
                    plain(op2("<="@, s, lit_int(hi))),
                ),
                LT::Scalar(_id, elems) => acc.push(plain(op2("<="@, "0"@, s))).push(
                    plain(op2("<"@, s, dec(elems.len() as int))),
                ),
                LT::Int { min, max } => {
                    let a = match min {
                        Some(m) => acc.push(plain(op2("<="@, lit_int(m), s))),
                        None => acc,
                    };
                    match max {
                        Some(m) => a.push(plain(op2("<="@, s, lit_int(m)))),
                        None => a,
                    }
                },
                _ => acc,
            },
        )
    }
}

fn push_plain(v: &mut Vec<(String, Kind)>, s: String)
    ensures
        term_views(final(v)@) == term_views(old(v)@).push(plain(s@)),
{
    let ghost a = v@;
    let ghost m = s@;
    v.push((s, Kind::B));
    assert(term_views(v@) =~= term_views(a).push(plain(m)));
}

pub(crate) fn own_sym(l: usize, t: usize) -> (r: String)
    ensures
        r@ == sym(l as int, t as int),
{
    let mut out = own("");
    put_sym(&mut out, l, t);
    proof {
        reveal_strlit("");
        assert(out@ =~= sym(l as int, t as int));
    }
    out
}

fn list_domain(leaves: &Vec<LeafInfo>, t: usize) -> (r: Vec<(String, Kind)>)
    ensures
        term_views(r@) == domain_terms(leaf_types(leaves@), t as int, 0, Seq::empty()),
{
    let ghost ts = leaf_types(leaves@);
    let mut v: Vec<(String, Kind)> = Vec::new();
    assert(term_views(v@) =~= Seq::empty());
    let mut l: usize = 0;
    while l < leaves.len()
        invariant
            l <= leaves@.len(),
            ts == leaf_types(leaves@),
            domain_terms(ts, t as int, l as int, term_views(v@)) == domain_terms(ts, t as int, 0, Seq::empty()),
        decreases leaves.len() - l,
    {
        let s = own_sym(l, t);
        assert(ts[l as int] == leaves@[l as int].ty@);
        match &leaves[l].ty {
            LeafType::Range(lo, hi) => {
                let a = int_lit(lo);
                let b = int_lit(hi);
                push_plain(&mut v, apply2("<=", &a, &s));
                push_plain(&mut v, apply2("<=", &s, &b));
            },
            LeafType::Scalar(_id, elems) => {
                let a = own("0");
                let b = Int::from_u64(elems.len() as u64).text();
                push_plain(&mut v, apply2("<=", &a, &s));
                push_plain(&mut v, apply2("<", &s, &b));
            },
            LeafType::Int { min, max } => {
                match min {
                    Some(m) => {
                        let a = int_lit(m);
                        push_plain(&mut v, apply2("<=", &a, &s));
                    },
                    None => {},
                }
                match max {
                    Some(m) => {
                        let a = int_lit(m);
                        push_plain(&mut v, apply2("<=", &s, &a));
                    },
                    None => {},
                }
            },
            _ => {},
        }
        l += 1;
    }
    v
}

/// What it means for leaf `l` and those behind it to have the same values at two steps.
pub open spec fn same_terms(n: nat, s: int, t: int, l: int, acc: Seq<Term>) -> Seq<Term>
    decreases n - l,
{
    if l < 0 || l >= n {
        acc
    } else {
        same_terms(n, s, t, l + 1, acc.push(plain(op2("="@, sym(l, s), sym(l, t)))))
    }
}

fn list_same(n: usize, s: usize, t: usize) -> (r: Vec<(String, Kind)>)
    ensures
        term_views(r@) == same_terms(n as nat, s as int, t as int, 0, Seq::empty()),
{
    let mut v: Vec<(String, Kind)> = Vec::new();
    assert(term_views(v@) =~= Seq::empty());
    let mut l: usize = 0;
    while l < n
        invariant
            l <= n,
            same_terms(n as nat, s as int, t as int, l as int, term_views(v@)) == same_terms(
                n as nat,
                s as int,
                t as int,
                0,
                Seq::empty(),
            ),
        decreases n - l,
    {
        let a = own_sym(l, s);
        let b = own_sym(l, t);
        push_plain(&mut v, apply2("=", &a, &b));
        l += 1;
    }
    v
}

/// The names of formulas.
pub open spec fn aux_terms(v: Seq<usize>) -> Seq<Term> {
    Seq::new(v.len(), |i: int| plain(aux(v[i] as int)))
}

fn list_aux(v: &Vec<usize>) -> (r: Vec<(String, Kind)>)
    ensures
        term_views(r@) == aux_terms(v@),
{
    let mut r: Vec<(String, Kind)> = Vec::new();
    let mut i: usize = 0;
    while i < v.len()
        invariant
            i <= v@.len(),
            r@.len() == i,
            forall|j: int| 0 <= j < i ==> (#[trigger] r@[j]).0@ == aux(v@[j] as int) && r@[j].1 == Kind::B,
        decreases v.len() - i,
    {
        r.push((own_aux(v[i]), Kind::B));
        i += 1;
    }
    assert(term_views(r@) =~= aux_terms(v@));
    r
}

fn own_aux(i: usize) -> (r: String)
    ensures
        r@ == aux(i as int),
{
    let mut out = own("");
    put_aux(&mut out, i);
    proof {
        reveal_strlit("");
        assert(out@ =~= aux(i as int));
    }
    out
}

/// A formula as a term over the names of earlier ones.
pub open spec fn node_term(n: NV, ts: Seq<LT>) -> Option<Seq<char>> {
    match n {
        NV::Atom(e, c, t) => match term(e, ts, c, t) {
            Some(x) => Some(x.0),
            None => None,
        },
        NV::Domain(t) => Some(junction("and"@, "true"@, domain_terms(ts, t as int, 0, Seq::empty()))),
        NV::Same(s, t) => Some(junction("and"@, "true"@, same_terms(ts.len(), s as int, t as int, 0, Seq::empty()))),
        NV::Not(a) => Some(op1("not"@, aux(a as int))),
        NV::And(v) => Some(junction("and"@, "true"@, aux_terms(v))),
        NV::Or(v) => Some(junction("or"@, "false"@, aux_terms(v))),
    }
}

fn write_node(n: &Node, leaves: &Vec<LeafInfo>) -> (r: Option<String>)
    ensures
        match (r, node_term(n.model(), leaf_types(leaves@))) {
            (Some(a), Some(b)) => a@ == b,
            (None, None) => true,
            _ => false,
        },
{
    match n {
        Node::Atom(e, c, t) => match write_term(e, leaves, *c, *t) {
            Some(x) => Some(x.0),
            None => None,
        },
        Node::Domain(t) => Some(join_terms("and", "true", &list_domain(leaves, *t))),
        Node::Same(s, t) => Some(join_terms("and", "true", &list_same(leaves.len(), *s, *t))),
        Node::Not(a) => {
            let x = own_aux(*a);
            Some(apply1("not", &x))
        },
        Node::And(v) => Some(join_terms("and", "true", &list_aux(v))),
        Node::Or(v) => Some(join_terms("or", "false", &list_aux(v))),
    }
}

/// The name of a sort.
pub open spec fn kind_name(k: Kind) -> Seq<char> {
    match k {
        Kind::B => "Bool"@,
        Kind::I => "Int"@,
        Kind::R => "Real"@,
    }
}

/// The declarations of leaf `l` and those behind it at a step.
pub open spec fn declared_leaves(out: Seq<char>, ts: Seq<LT>, t: int, l: int) -> Seq<char>
    decreases ts.len() - l,
{
    if l < 0 || l >= ts.len() {
        out
    } else {
        declared_leaves(
            out + "(declare-const "@ + sym(l, t) + " "@ + kind_name(kind_of(ts[l])) + ")\n"@,
            ts,
            t,
            l + 1,
        )
    }
}

/// The declarations of the leaves at step `t` and those behind it.
pub open spec fn declared_steps(out: Seq<char>, ts: Seq<LT>, t: int, last: int) -> Seq<char>
    decreases last - t + 1,
{
    if t > last {
        out
    } else {
        declared_steps(declared_leaves(out, ts, t, 0), ts, t + 1, last)
    }
}

/// The definitions of formula `i` and those behind it.
pub open spec fn defined(out: Seq<char>, ns: Seq<NV>, ts: Seq<LT>, i: int) -> Option<Seq<char>>
    decreases ns.len() - i,
{
    if i < 0 || i >= ns.len() {
        Some(out)
    } else {
        match node_term(ns[i], ts) {
            Some(x) => defined(out + "(define-fun "@ + aux(i) + " () Bool "@ + x + ")\n"@, ns, ts, i + 1),
            None => None,
        }
    }
}

/// The question whether a formula about the steps up to `last` can hold, if all its values can be
/// written.
pub open spec fn question(ns: Seq<NV>, ts: Seq<LT>, root: int, last: int) -> Option<Seq<char>> {
    match defined(declared_steps("(set-logic ALL)\n"@, ts, 0, last), ns, ts, 0) {
        Some(s) => Some(s + "(assert "@ + aux(root) + ")\n(check-sat)\n"@),
        None => None,
    }
}

/// The names of leaf `l` and those behind it at a step, each behind a blank.
pub open spec fn step_names(out: Seq<char>, n: nat, t: int, l: int) -> Seq<char>
    decreases n - l,
{
    if l < 0 || l >= n {
        out
    } else {
        step_names(
            (if t == 0 && l == 0 {
                out
            } else {
                out + " "@
            }) + sym(l, t),
            n,
            t,
            l + 1,
        )
    }
}

/// The names of the leaves at step `t` and those behind it.
pub open spec fn all_names(out: Seq<char>, n: nat, t: int, last: int) -> Seq<char>
    decreases last - t + 1,
{
    if t > last {
        out
    } else {
        all_names(step_names(out, n, t, 0), n, t + 1, last)
    }
}

impl<'m> SmtEnc<'m> {
    /// The question whether a formula about the steps up to `last` can hold.
    pub fn script(&self, root: usize, last: usize) -> (r: Result<String, EngineError>)
        requires
            last < usize::MAX,
        ensures
            match (r, question(self.ns(), self.sys().leaves, root as int, last as int)) {
                (Ok(a), Some(b)) => a@ == b,
                (Err(x), None) => x matches EngineError::Eval(m) && m@ == "cannot encode a value for SMT"@,
                _ => false,
            },
    {
        let leaves = &self.flat.leaves;
        let ghost ts = self.sys().leaves;
        let ghost ns = self.ns();
        let mut out = own("(set-logic ALL)\n");
        let ghost start = out@;
        let mut t: usize = 0;
        while t <= last
            invariant
                t <= last + 1,
                last < usize::MAX,
                ts == leaf_types(leaves@),
                declared_steps(out@, ts, t as int, last as int) == declared_steps(start, ts, 0, last as int),
            decreases last + 1 - t,
        {
            let ghost before = out@;
            let mut l: usize = 0;
            while l < leaves.len()
                invariant
                    l <= leaves@.len(),
                    ts == leaf_types(leaves@),
                    declared_leaves(out@, ts, t as int, l as int) == declared_leaves(before, ts, t as int, 0),
                decreases leaves.len() - l,
            {
                assert(ts[l as int] == leaves@[l as int].ty@);
                put(&mut out, "(declare-const ");
                put(&mut out, own_sym(l, t).as_str());
                put(&mut out, " ");
                put(
                    &mut out,
                    match leaf_kind(&leaves[l].ty) {
                        Kind::B => "Bool",
                        Kind::I => "Int",
                        Kind::R => "Real",
                    },
                );
                put(&mut out, ")\n");
                l += 1;
            }
            t += 1;
        }
        let ghost middle = out@;
        let mut i: usize = 0;
        while i < self.nodes.len()
            invariant
                i <= self.nodes@.len(),
                leaves == &self.flat.leaves,
                ts == leaf_types(leaves@),
                ns == self.ns(),
                defined(out@, ns, ts, i as int) == defined(middle, ns, ts, 0),
                middle == declared_steps(start, ts, 0, last as int),
                start == "(set-logic ALL)\n"@,
                ts == self.sys().leaves,
            decreases self.nodes.len() - i,
        {
            assert(ns[i as int] == self.nodes@[i as int].model());
            match write_node(&self.nodes[i], leaves) {
                Some(x) => {
                    put(&mut out, "(define-fun ");
                    put(&mut out, own_aux(i).as_str());
                    put(&mut out, " () Bool ");
                    put(&mut out, x.as_str());
                    put(&mut out, ")\n");
                },
                None => {
                    return Err(EngineError::Eval(own("cannot encode a value for SMT")));
                },
            }
            i += 1;
        }
        put(&mut out, "(assert ");
        put(&mut out, own_aux(root).as_str());
        put(&mut out, ")\n(check-sat)\n");
        Ok(out)
    }

    /// The question for the values of the leaves at the steps up to `last`.
    pub fn value_query(&self, last: usize) -> (r: String)
        requires
            last < usize::MAX,
        ensures
            r@ == all_names("(get-value ("@, self.sys().leaves.len(), 0, last as int) + "))"@,
    {
        let n: usize = self.flat.leaves.len();
        let mut out = own("(get-value (");
        let ghost start = out@;
        let mut t: usize = 0;
        while t <= last
            invariant
                t <= last + 1,
                last < usize::MAX,
                all_names(out@, n as nat, t as int, last as int) == all_names(start, n as nat, 0, last as int),
            decreases last + 1 - t,
        {
            let ghost before = out@;
            let mut l: usize = 0;
            while l < n
                invariant
                    l <= n,
                    step_names(out@, n as nat, t as int, l as int) == step_names(before, n as nat, t as int, 0),
                decreases n - l,
            {
                if !(t == 0 && l == 0) {
                    put(&mut out, " ");
                }
                put(&mut out, own_sym(l, t).as_str());
                l += 1;
            }
            t += 1;
        }
        put(&mut out, "))");
        out
    }
}

} // verus!
