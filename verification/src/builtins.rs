//! The functions that every context knows, on symbolic values.

use crate::fexpr::{fe_and, fe_bool, fe_eq, fe_ite, fe_models, fe_not, fe_or, FExpr, FE};
use crate::formula::{TFormula, TF};
use crate::num::{Int, Rat, Q};
use crate::operators::{condition, formula, lifted, numeric, numeric_fexpr, numeric_type, to_formula};
use crate::sval::{copy_svals, sv_models, BoundKind, SVal, SetRepr, SetV, SV};
use crate::text::{own, same};
use crate::value::{Val, Value};
use vstd::prelude::*;

verus! {

/// A temporal operator of one argument.
pub open spec fn unary(name: Seq<char>, f: TF) -> Option<TF> {
    if name == "X"@ {
        Some(TF::X(Box::new(f)))
    } else if name == "G"@ {
        Some(TF::G(Box::new(f)))
    } else if name == "F"@ {
        Some(TF::F(Box::new(f)))
    } else if name == "EX"@ {
        Some(TF::EX(Box::new(f)))
    } else if name == "AX"@ {
        Some(TF::AX(Box::new(f)))
    } else if name == "EG"@ {
        Some(TF::EG(Box::new(f)))
    } else if name == "AG"@ {
        Some(TF::AG(Box::new(f)))
    } else if name == "EF"@ {
        Some(TF::EF(Box::new(f)))
    } else if name == "AF"@ {
        Some(TF::AF(Box::new(f)))
    } else if name == "accepting"@ {
        Some(f)
    } else {
        None
    }
}

fn unary_formula(name: &str, f: TFormula) -> (r: Option<TFormula>)
    ensures
        match (r, unary(name@, f.model())) {
            (Some(a), Some(b)) => a.model() == b,
            (None, None) => true,
            _ => false,
        },
{
    if same(name, "X") {
        Some(TFormula::X(Box::new(f)))
    } else if same(name, "G") {
        Some(TFormula::G(Box::new(f)))
    } else if same(name, "F") {
        Some(TFormula::F(Box::new(f)))
    } else if same(name, "EX") {
        Some(TFormula::EX(Box::new(f)))
    } else if same(name, "AX") {
        Some(TFormula::AX(Box::new(f)))
    } else if same(name, "EG") {
        Some(TFormula::EG(Box::new(f)))
    } else if same(name, "AG") {
        Some(TFormula::AG(Box::new(f)))
    } else if same(name, "EF") {
        Some(TFormula::EF(Box::new(f)))
    } else if same(name, "AF") {
        Some(TFormula::AF(Box::new(f)))
    } else if same(name, "accepting") {
        Some(f)
    } else {
        None
    }
}

/// A temporal operator of two arguments.
pub open spec fn binary(name: Seq<char>, f: TF, g: TF) -> Option<TF> {
    if name == "U"@ {
        Some(TF::U(Box::new(f), Box::new(g)))
    } else if name == "W"@ {
        Some(TF::W(Box::new(f), Box::new(g)))
    } else if name == "R"@ {
        Some(TF::R(Box::new(f), Box::new(g)))
    } else if name == "M"@ {
        Some(TF::M(Box::new(f), Box::new(g)))
    } else if name == "EU"@ {
        Some(TF::EU(Box::new(f), Box::new(g)))
    } else if name == "AU"@ {
        Some(TF::AU(Box::new(f), Box::new(g)))
    } else if name == "ER"@ {
        Some(TF::ER(Box::new(f), Box::new(g)))
    } else if name == "AR"@ {
        Some(TF::AR(Box::new(f), Box::new(g)))
    } else {
        None
    }
}

fn binary_formula(name: &str, f: TFormula, g: TFormula) -> (r: Option<TFormula>)
    ensures
        match (r, binary(name@, f.model(), g.model())) {
            (Some(a), Some(b)) => a.model() == b,
            (None, None) => true,
            _ => false,
        },
{
    if same(name, "U") {
        Some(TFormula::U(Box::new(f), Box::new(g)))
    } else if same(name, "W") {
        Some(TFormula::W(Box::new(f), Box::new(g)))
    } else if same(name, "R") {
        Some(TFormula::R(Box::new(f), Box::new(g)))
    } else if same(name, "M") {
        Some(TFormula::M(Box::new(f), Box::new(g)))
    } else if same(name, "EU") {
        Some(TFormula::EU(Box::new(f), Box::new(g)))
    } else if same(name, "AU") {
        Some(TFormula::AU(Box::new(f), Box::new(g)))
    } else if same(name, "ER") {
        Some(TFormula::ER(Box::new(f), Box::new(g)))
    } else if same(name, "AR") {
        Some(TFormula::AR(Box::new(f), Box::new(g)))
    } else {
        None
    }
}

/// Applies a temporal operator of one argument.
pub fn apply_unary(name: &str, a: SVal) -> (r: Result<SVal, String>)
    ensures
        match formula(a.model()) {
            Some(f) => match unary(name@, f) {
                Some(g) => r matches Ok(v) && v.model() == SV::Formula(g),
                None => r matches Err(m) && m@ == "no temporal operator of one argument"@,
            },
            None => r matches Err(m) && m@ == "boolean expression expected"@,
        },
{
    match to_formula(a) {
        Ok(f) => match unary_formula(name, f) {
            Some(g) => Ok(SVal::Formula(g)),
            None => Err(own("no temporal operator of one argument")),
        },
        Err(m) => Err(m),
    }
}

/// Applies a temporal operator of two arguments.
pub fn apply_binary(name: &str, a: SVal, b: SVal) -> (r: Result<SVal, String>)
    ensures
        match (formula(a.model()), formula(b.model())) {
            (Some(f), Some(g)) => match binary(name@, f, g) {
                Some(h) => r matches Ok(v) && v.model() == SV::Formula(h),
                None => r matches Err(m) && m@ == "no temporal operator of two arguments"@,
            },
            _ => r matches Err(m) && m@ == "boolean expression expected"@,
        },
{
    match (to_formula(a), to_formula(b)) {
        (Ok(f), Ok(g)) => match binary_formula(name, f, g) {
            Some(h) => Ok(SVal::Formula(h)),
            None => Err(own("no temporal operator of two arguments")),
        },
        (Err(m), _) => Err(m),
        (_, Err(m)) => Err(m),
    }
}

/// The smaller or the larger of two symbolic numbers.
pub fn apply_extreme(smaller: bool, a: &SVal, b: &SVal) -> (r: Result<SVal, String>)
    ensures
        match (a.model(), b.model()) {
            (SV::Ground(Val::Num(x)), SV::Ground(Val::Num(y))) => r matches Ok(v) && v.model() == SV::Ground(
                Val::Num(
                    if smaller == x.less(y) {
                        x
                    } else {
                        y
                    },
                ),
            ),
            _ => match (numeric(a.model()), numeric(b.model())) {
                (Some(e), Some(f)) => r matches Ok(v) && v.model() == SV::Sym(
                    fe_ite(
                        if smaller {
                            FE::Lt(Box::new(e), Box::new(f))
                        } else {
                            FE::Lt(Box::new(f), Box::new(e))
                        },
                        e,
                        f,
                    ),
                    numeric_type(a.model()),
                ),
                _ => r matches Err(m) && m@ == "Numeric expression expected."@,
            },
        },
{
    match (a, b) {
        (SVal::Ground(Value::Num(x)), SVal::Ground(Value::Num(y))) => if smaller == x.less(y) {
            Ok(SVal::Ground(Value::Num(x.clone())))
        } else {
            Ok(SVal::Ground(Value::Num(y.clone())))
        },
        _ => match (numeric_fexpr(a), numeric_fexpr(b)) {
            (Ok(x), Ok(y)) => {
                let c = if smaller {
                    FExpr::Lt(Box::new(x.0.clone()), Box::new(y.0.clone()))
                } else {
                    FExpr::Lt(Box::new(y.0.clone()), Box::new(x.0.clone()))
                };
                Ok(SVal::Sym(FExpr::ite(c, x.0, y.0), x.1))
            },
            (Err(m), _) => Err(m),
            (_, Err(m)) => Err(m),
        },
    }
}

/// A number multiplied with itself `k` times, starting from 1.
pub open spec fn raised(x: Q, k: nat) -> Q
    decreases k,
{
    if k == 0 {
        Q::whole(1)
    } else {
        raised(x, (k - 1) as nat).times(x)
    }
}

/// A ground number raised to a ground natural number.
pub fn apply_exp(a: &SVal, b: &SVal) -> (r: Result<SVal, String>)
    ensures
        match (a.model(), b.model()) {
            (SV::Ground(Val::Num(x)), SV::Ground(Val::Num(y))) => if y.is_int() && y.n >= 0 {
                r matches Ok(v) && v.model() == SV::Ground(Val::Num(raised(x, y.n as nat)))
            } else {
                r matches Err(m) && m@ == "exp requires constant arguments."@
            },
            _ => r matches Err(m) && m@ == "exp requires constant arguments."@,
        },
{
    match (a, b) {
        (SVal::Ground(Value::Num(x)), SVal::Ground(Value::Num(y))) => {
            if !y.is_integer() || y.is_negative() {
                return Err(own("exp requires constant arguments."));
            }
            let mut r = Rat::from_integer(Int::from_u64(1));
            let one = Int::from_u64(1);
            let mut left = y.numer().clone();
            while !left.is_zero()
                invariant
                    one@ == 1,
                    0 <= left@ <= y@.n,
                    r@ == raised(x@, (y@.n - left@) as nat),
                decreases left@,
            {
                r = r.times(x);
                left = left.minus(&one);
            }
            Ok(SVal::Ground(Value::Num(r)))
        },
        _ => Err(own("exp requires constant arguments.")),
    }
}

/// A connective of the prelude.
pub open spec fn connected(name: Seq<char>, a: FE, b: FE) -> FE {
    if name == "nor"@ {
        fe_not(fe_or(seq![a, b]))
    } else if name == "nand"@ {
        fe_not(fe_and(seq![a, b]))
    } else {
        fe_eq(a, b)
    }
}

/// Applies one of the connectives `nor`, `nand` and `xnor`.
pub fn apply_connective(name: &str, a: &SVal, b: &SVal) -> (r: Result<SVal, String>)
    ensures
        match (condition(a.model()), condition(b.model())) {
            (Some(e), Some(f)) => r matches Ok(v) && v.model() == lifted(connected(name@, e, f)),
            _ => r matches Err(m) && m@ == "boolean expression expected"@,
        },
{
    match (a.to_bool_fexpr(), b.to_bool_fexpr()) {
        (Ok(e), Ok(f)) => {
            let ghost em = e.model();
            let ghost fm = f.model();
            if same(name, "nor") || same(name, "nand") {
                let mut v: Vec<FExpr> = Vec::new();
                v.push(e);
                v.push(f);
                assert(fe_models(v@) =~= seq![em, fm]);
                if same(name, "nor") {
                    Ok(SVal::from_bool_expr(FExpr::not(FExpr::or(v))))
                } else {
                    Ok(SVal::from_bool_expr(FExpr::not(FExpr::and(v))))
                }
            } else {
                Ok(SVal::from_bool_expr(FExpr::eq(e, f)))
            }
        },
        (Err(m), _) => Err(m),
        (_, Err(m)) => Err(m),
    }
}

/// The arguments of a function of `n` arguments, which may be given as one tuple.
pub open spec fn unpacked(args: Seq<SV>, n: nat) -> Option<Seq<SV>> {
    if n > 1 && args.len() == 1 {
        match args[0] {
            SV::Tuple(vs) => if vs.len() == n {
                Some(vs)
            } else {
                None
            },
            _ => None,
        }
    } else if args.len() == n {
        Some(args)
    } else {
        None
    }
}

/// The arguments of a function of `n` arguments, which may be given as one tuple.
pub fn unpack(args: &Vec<SVal>, n: usize) -> (r: Option<Vec<SVal>>)
    ensures
        match (r, unpacked(sv_models(args@), n as nat)) {
            (Some(v), Some(m)) => sv_models(v@) == m,
            (None, None) => true,
            _ => false,
        },
{
    if n > 1 && args.len() == 1 {
        assert(sv_models(args@)[0] == args@[0].model());
        match &args[0] {
            SVal::Tuple(vs) => if vs.len() == n {
                Some(copy_svals(vs))
            } else {
                None
            },
            _ => None,
        }
    } else if args.len() == n {
        Some(copy_svals(args))
    } else {
        None
    }
}

/// A temporal operator of one argument.
pub open spec fn is_unary(name: Seq<char>) -> bool {
    unary(name, TF::Atom(fe_bool(true))) is Some
}

fn unary_name(name: &str) -> (r: bool)
    ensures
        r == is_unary(name@),
{
    unary_formula(name, TFormula::Atom(FExpr::tt())).is_some()
}

/// A temporal operator of two arguments.
pub open spec fn is_binary(name: Seq<char>) -> bool {
    binary(name, TF::Atom(fe_bool(true)), TF::Atom(fe_bool(true))) is Some
}

fn binary_name(name: &str) -> (r: bool)
    ensures
        r == is_binary(name@),
{
    binary_formula(name, TFormula::Atom(FExpr::tt()), TFormula::Atom(FExpr::tt())).is_some()
}

/// The smaller or the larger of two symbolic numbers, or why there is none.
pub open spec fn extreme(smaller: bool, a: SV, b: SV) -> Result<SV, Seq<char>> {
    match (a, b) {
        (SV::Ground(Val::Num(x)), SV::Ground(Val::Num(y))) => Ok(
            SV::Ground(
                Val::Num(
                    if smaller == x.less(y) {
                        x
                    } else {
                        y
                    },
                ),
            ),
        ),
        _ => match (numeric(a), numeric(b)) {
            (Some(e), Some(f)) => Ok(
                SV::Sym(
                    fe_ite(
                        if smaller {
                            FE::Lt(Box::new(e), Box::new(f))
                        } else {
                            FE::Lt(Box::new(f), Box::new(e))
                        },
                        e,
                        f,
                    ),
                    numeric_type(a),
                ),
            ),
            _ => Err("Numeric expression expected."@),
        },
    }
}

/// A function of the prelude of two arguments.
pub open spec fn is_pair_function(name: Seq<char>) -> bool {
    is_binary(name) || name == "min"@ || name == "max"@ || name == "exp"@ || name == "nor"@ || name == "nand"@ || name
        == "xnor"@
}

/// The value of a function of the prelude of two arguments, or why it has none.
pub open spec fn pair_value(name: Seq<char>, a: SV, b: SV) -> Result<SV, Seq<char>> {
    if name == "min"@ {
        extreme(true, a, b)
    } else if name == "max"@ {
        extreme(false, a, b)
    } else if name == "exp"@ {
        match (a, b) {
            (SV::Ground(Val::Num(x)), SV::Ground(Val::Num(y))) => if y.is_int() && y.n >= 0 {
                Ok(SV::Ground(Val::Num(raised(x, y.n as nat))))
            } else {
                Err("exp requires constant arguments."@)
            },
            _ => Err("exp requires constant arguments."@),
        }
    } else if name == "nor"@ || name == "nand"@ || name == "xnor"@ {
        match (condition(a), condition(b)) {
            (Some(e), Some(f)) => Ok(lifted(connected(name, e, f))),
            _ => Err("boolean expression expected"@),
        }
    } else {
        match (formula(a), formula(b)) {
            (Some(f), Some(g)) => match binary(name, f, g) {
                Some(h) => Ok(SV::Formula(h)),
                None => Err("no temporal operator of two arguments"@),
            },
            _ => Err("boolean expression expected"@),
        }
    }
}

fn apply_pair(name: &str, a: &SVal, b: &SVal) -> (r: Result<SVal, String>)
    ensures
        match (r, pair_value(name@, a.model(), b.model())) {
            (Ok(v), Ok(m)) => v.model() == m,
            (Err(e), Err(f)) => e@ == f,
            _ => false,
        },
{
    if same(name, "min") {
        apply_extreme(true, a, b)
    } else if same(name, "max") {
        apply_extreme(false, a, b)
    } else if same(name, "exp") {
        apply_exp(a, b)
    } else if same(name, "nor") || same(name, "nand") || same(name, "xnor") {
        apply_connective(name, a, b)
    } else {
        apply_binary(name, a.copy(), b.copy())
    }
}

/// The side of a bound that a function of the prelude makes.
pub open spec fn bound_kind(name: Seq<char>) -> Option<BoundKind> {
    if name == "up_to"@ {
        Some(BoundKind::UpTo)
    } else if name == "below"@ {
        Some(BoundKind::Below)
    } else if name == "above"@ {
        Some(BoundKind::Above)
    } else {
        None
    }
}

fn find_bound(name: &str) -> (r: Option<BoundKind>)
    ensures
        r == bound_kind(name@),
{
    if same(name, "up_to") {
        Some(BoundKind::UpTo)
    } else if same(name, "below") {
        Some(BoundKind::Below)
    } else if same(name, "above") {
        Some(BoundKind::Above)
    } else {
        None
    }
}

/// The value of a function of the prelude of one argument that is no temporal operator, or why it
/// has none.
pub open spec fn single_value(name: Seq<char>, a: SV) -> Result<SV, Seq<char>> {
    match bound_kind(name) {
        Some(k) => match numeric(a) {
            Some(e) => Ok(SV::Among(SetV::Bound(k, e))),
            None => Err("Numeric expression expected."@),
        },
        None => if name == "dbg_print"@ || name == "dbg_expr"@ {
            Ok(a)
        } else if name == "real_pred?"@ || name == "int_pred?"@ || name == "nat_pred?"@ {
            Ok(
                SV::Ground(
                    Val::Bool(
                        match a {
                            SV::Ground(Val::Num(q)) => name == "real_pred?"@ || (q.is_int() && (name == "int_pred?"@
                                || q.n >= 0)),
                            _ => true,
                        },
                    ),
                ),
            )
        } else {
            Err("The function is not supported here."@)
        },
    }
}

fn apply_single(name: &str, a: &SVal) -> (r: Result<SVal, String>)
    ensures
        match (r, single_value(name@, a.model())) {
            (Ok(v), Ok(m)) => v.model() == m,
            (Err(e), Err(f)) => e@ == f,
            _ => false,
        },
{
    match find_bound(name) {
        Some(k) => match numeric_fexpr(a) {
            Ok(x) => Ok(SVal::Among(SetRepr::Bound(k, x.0))),
            Err(m) => Err(m),
        },
        None => {
            if same(name, "dbg_print") || same(name, "dbg_expr") {
                Ok(a.copy())
            } else if same(name, "real_pred?") || same(name, "int_pred?") || same(name, "nat_pred?") {
                let b = match a {
                    SVal::Ground(Value::Num(q)) => same(name, "real_pred?") || (q.is_integer() && (same(
                        name,
                        "int_pred?",
                    ) || !q.is_negative())),
                    _ => true,
                };
                Ok(SVal::Ground(Value::Bool(b)))
            } else {
                Err(own("The function is not supported here."))
            }
        },
    }
}

/// The value of a function of the prelude, or why it has none.
pub open spec fn builtin_value(name: Seq<char>, args: Seq<SV>) -> Result<SV, Seq<char>> {
    if is_unary(name) {
        if args.len() != 1 {
            Err("Wrong number of arguments."@)
        } else {
            match formula(args[0]) {
                Some(f) => match unary(name, f) {
                    Some(g) => Ok(SV::Formula(g)),
                    None => Err("no temporal operator of one argument"@),
                },
                None => Err("boolean expression expected"@),
            }
        }
    } else if is_pair_function(name) {
        match unpacked(args, 2) {
            Some(v) => pair_value(name, v[0], v[1]),
            None => Err("Wrong number of arguments."@),
        }
    } else if args.len() == 0 {
        Err("Wrong number of arguments."@)
    } else {
        single_value(name, args[0])
    }
}

/// The value of a function of the prelude.
pub fn apply_builtin(name: &String, args: &Vec<SVal>) -> (r: Result<SVal, String>)
    ensures
        match (r, builtin_value(name@, sv_models(args@))) {
            (Ok(v), Ok(m)) => v.model() == m,
            (Err(e), Err(f)) => e@ == f,
            _ => false,
        },
{
    let n = name.as_str();
    if args.len() > 0 {
        assert(sv_models(args@)[0] == args@[0].model());
    }
    if unary_name(n) {
        if args.len() != 1 {
            return Err(own("Wrong number of arguments."));
        }
        return apply_unary(n, args[0].copy());
    }
    if binary_name(n) || same(n, "min") || same(n, "max") || same(n, "exp") || same(n, "nor") || same(n, "nand") || same(
        n,
        "xnor",
    ) {
        return match unpack(args, 2) {
            Some(v) => {
                assert(sv_models(v@)[0] == v@[0].model());
                assert(sv_models(v@)[1] == v@[1].model());
                apply_pair(n, &v[0], &v[1])
            },
            None => Err(own("Wrong number of arguments.")),
        };
    }
    if args.len() == 0 {
        return Err(own("Wrong number of arguments."));
    }
    apply_single(n, &args[0])
}

} // verus!
