use sal::ast::BinOp;
use sal::builtins::{apply_binary, apply_connective, apply_exp, apply_extreme, apply_unary};
use sal::ctype::CType;
use sal::fexpr::{FExpr, LeafType};
use sal::formula::TFormula;
use sal::num::Int;
use sal::operators::{
    eval_arith, eval_bool_op, eval_equality, eval_order, not_sval, numeric_fexpr, to_formula,
};
use sal::sval::{select_indexed, SVal};
use sal::value::Value;

fn num(i: i64) -> SVal {
    SVal::Ground(Value::integer(i))
}

fn var(l: u32) -> SVal {
    let t = LeafType::Range(Int::from_i64(0), Int::from_i64(3));
    SVal::Sym(FExpr::Var(l, false), t)
}

fn flag(l: u32) -> SVal {
    SVal::Sym(FExpr::Var(l, false), LeafType::Bool)
}

fn ground(v: &SVal) -> String {
    match v {
        SVal::Ground(x) => x.text(),
        _ => panic!("a ground value was expected"),
    }
}

#[test]
fn equality() {
    assert!(num(1).eq_sval(&num(1)).unwrap().is_true());
    assert!(num(1).eq_sval(&num(2)).unwrap().is_false());
    let a = SVal::Tuple(vec![num(1), var(0)]);
    let b = SVal::Tuple(vec![num(1), num(2)]);
    let c = SVal::Tuple(vec![num(2), num(2)]);
    assert!(matches!(a.eq_sval(&b).unwrap(), FExpr::Eq(_, _)));
    assert!(a.eq_sval(&c).unwrap().is_false());
    assert!(a.eq_sval(&num(1)).is_err());
    assert!(a.eq_sval(&SVal::Tuple(vec![num(1)])).is_err());
    let r = |n: &str| SVal::Record(vec![(n.to_string(), num(1))]);
    assert!(r("x").eq_sval(&r("x")).unwrap().is_true());
    assert!(r("x").eq_sval(&r("y")).is_err());
    assert_eq!(ground(&eval_equality(true, &num(1), &num(2)).unwrap()), "true");
}

#[test]
fn conditionals() {
    assert_eq!(ground(&SVal::ite(&FExpr::tt(), &num(1), &num(2)).unwrap()), "1");
    assert_eq!(ground(&SVal::ite(&FExpr::ff(), &num(1), &num(2)).unwrap()), "2");
    let c = FExpr::Var(1, false);
    assert!(matches!(SVal::ite(&c, &num(1), &num(2)).unwrap(), SVal::Sym(FExpr::Ite(_, _, _), _)));
    let pair = |i: i64| SVal::Tuple(vec![num(i), num(7)]);
    match SVal::ite(&c, &pair(1), &pair(2)).unwrap() {
        SVal::Tuple(v) => assert_eq!(v.len(), 2),
        _ => panic!("a tuple was expected"),
    }
    assert!(SVal::ite(&c, &pair(1), &num(2)).is_err());
}

#[test]
fn selection() {
    let index = CType::Range(Int::from_i64(1), Int::from_i64(3));
    let elems = vec![num(10), num(20), num(30)];
    assert_eq!(ground(&select_indexed(&index, &elems, &num(2)).unwrap()), "20");
    assert!(select_indexed(&index, &elems, &num(4)).is_err());
    match select_indexed(&index, &elems, &var(0)).unwrap() {
        SVal::Sym(FExpr::Ite(_, t, _), _) => {
            assert!(matches!(*t, FExpr::Const(v) if v.text() == "10"))
        }
        _ => panic!("a conditional was expected"),
    }
    assert!(select_indexed(&CType::Real, &vec![], &var(0)).is_err());
}

#[test]
fn arithmetic() {
    assert_eq!(ground(&eval_arith(BinOp::Plus, &num(2), &num(3)).unwrap()), "5");
    assert_eq!(ground(&eval_arith(BinOp::Div, &num(1), &num(2)).unwrap()), "1/2");
    assert_eq!(ground(&eval_arith(BinOp::IDiv, &num(-7), &num(2)).unwrap()), "-4");
    assert_eq!(ground(&eval_arith(BinOp::Mod, &num(-7), &num(2)).unwrap()), "1");
    assert_eq!(eval_arith(BinOp::Div, &num(1), &num(0)).err().unwrap(), "Division by zero.");
    assert_eq!(
        eval_arith(BinOp::Mod, &num(1), &num(0)).err().unwrap(),
        "DIV/MOD require integer operands and nonzero divisor."
    );
    assert!(matches!(
        eval_arith(BinOp::Minus, &var(0), &num(1)).unwrap(),
        SVal::Sym(FExpr::Add(_), LeafType::Range(_, _))
    ));
    assert_eq!(ground(&eval_order(BinOp::Ge, &num(2), &num(3)).unwrap()), "false");
    assert!(matches!(
        eval_order(BinOp::Gt, &var(0), &num(3)).unwrap(),
        SVal::Sym(FExpr::Lt(_, _), LeafType::Bool)
    ));
    assert_eq!(numeric_fexpr(&flag(0)).err().unwrap(), "Numeric expression expected.");
}

#[test]
fn connectives() {
    let t = || SVal::Ground(Value::Bool(true));
    assert_eq!(ground(&eval_bool_op(BinOp::And, t(), t()).unwrap()), "true");
    assert!(matches!(
        eval_bool_op(BinOp::And, t(), flag(0)).unwrap(),
        SVal::Sym(FExpr::Var(0, false), LeafType::Bool)
    ));
    let g = || SVal::Formula(TFormula::G(Box::new(TFormula::Atom(FExpr::Var(0, false)))));
    assert!(matches!(
        eval_bool_op(BinOp::Implies, flag(0), g()).unwrap(),
        SVal::Formula(TFormula::Or(_, _))
    ));
    assert!(matches!(not_sval(g()).unwrap(), SVal::Formula(TFormula::Not(_))));
    assert_eq!(ground(&not_sval(t()).unwrap()), "false");
    assert!(eval_bool_op(BinOp::Or, num(1), t()).is_err());
    assert!(matches!(to_formula(flag(0)).unwrap(), TFormula::Atom(_)));
    assert_eq!(num(1).to_bool_fexpr().err().unwrap(), "boolean expression expected");
}

#[test]
fn functions_of_the_prelude() {
    assert!(matches!(
        apply_unary("AG", flag(0)).unwrap(),
        SVal::Formula(TFormula::AG(_))
    ));
    assert!(apply_unary("U", flag(0)).is_err());
    assert!(apply_unary("G", num(1)).is_err());
    assert!(matches!(
        apply_binary("U", flag(0), flag(1)).unwrap(),
        SVal::Formula(TFormula::U(_, _))
    ));
    assert_eq!(ground(&apply_extreme(true, &num(2), &num(5)).unwrap()), "2");
    assert_eq!(ground(&apply_extreme(false, &num(2), &num(5)).unwrap()), "5");
    assert!(matches!(
        apply_extreme(true, &var(0), &num(5)).unwrap(),
        SVal::Sym(FExpr::Ite(_, _, _), LeafType::Range(_, _))
    ));
    assert_eq!(ground(&apply_exp(&num(2), &num(10)).unwrap()), "1024");
    assert!(apply_exp(&num(2), &num(-1)).is_err());
    let t = || SVal::Ground(Value::Bool(true));
    assert_eq!(ground(&apply_connective("nor", &t(), &t()).unwrap()), "false");
    assert_eq!(ground(&apply_connective("xnor", &t(), &t()).unwrap()), "true");
}
