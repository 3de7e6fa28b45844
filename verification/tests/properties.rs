use sal::ast::VarClass;
use sal::bmc::{bmc_search, BmcResult};
use sal::explicit::{CheckResult, EngineError, Explicit};
use sal::fexpr::{FExpr, LeafInfo, LeafType};
use sal::flat::{FlatCmd, FlatModule, TransNode};
use sal::formula::TFormula;
use sal::goals::goal_leaves;
use sal::num::Int;
use sal::property::{check, invariant_of};
use sal::symbolic::Symbolic;
use sal::value::Value;

fn leaf(name: &str, ty: LeafType) -> LeafInfo {
    LeafInfo { name: name.into(), ty, class: VarClass::Local }
}

fn x(primed: bool) -> FExpr {
    FExpr::Var(0, primed)
}

fn num(i: i64) -> FExpr {
    FExpr::Const(Value::integer(i))
}

fn is(i: i64) -> FExpr {
    FExpr::Eq(Box::new(x(false)), Box::new(num(i)))
}

fn at_most(i: i64) -> FExpr {
    FExpr::Le(Box::new(x(false)), Box::new(num(i)))
}

fn by(label: Option<&str>, n: i64) -> FlatCmd {
    FlatCmd {
        label: label.map(|s| s.to_string()),
        provenance: String::new(),
        guard: at_most(6 - n),
        constraint: FExpr::Eq(Box::new(x(true)), Box::new(FExpr::Add(vec![x(false), num(n)]))),
    }
}

/// A counter over `0..6` that goes up by one or by two.
fn counter() -> FlatModule {
    FlatModule {
        vars: vec![],
        leaves: vec![leaf("x", LeafType::Range(Int::from_i64(0), Int::from_i64(6)))],
        invariants: vec![],
        init_defs: vec![is(0)],
        init_choices: vec![],
        trans_defs: vec![],
        trans: TransNode::Cmds(vec![by(Some("one"), 1), by(Some("two"), 2)]),
        controlled: [0].into_iter().collect(),
        components: vec![],
    }
}

fn boxed(e: FExpr) -> Box<TFormula> {
    Box::new(TFormula::Atom(e))
}

#[test]
fn counterexamples_are_shortest_and_labelled() {
    let m = counter();
    let e = Explicit::new(&m).unwrap();
    match e.check_invariant(&at_most(4)) {
        Ok(CheckResult::Counterexample(p)) => {
            assert_eq!(p.steps.len(), 4);
            assert_eq!(p.steps[0].1, None);
            for (a, b) in p.steps.iter().zip(&p.steps[1..]) {
                let one = format!("{}", a.0[0].text().parse::<i64>().unwrap() + 1) == b.0[0].text();
                assert_eq!(b.1.as_deref(), Some(if one { "one" } else { "two" }));
            }
        }
        _ => panic!("a counterexample was expected"),
    }
    match e.check_deadlock() {
        Ok(CheckResult::Deadlock(p)) => assert_eq!(p.steps.len(), 4),
        _ => panic!("a deadlock was expected"),
    }
    match bmc_search(&m, &TFormula::G(boxed(at_most(4))), 6, &vec![]) {
        Ok(BmcResult::Counterexample(s)) => assert_eq!(s.len(), 4),
        _ => panic!("a counterexample was expected"),
    }
}

#[test]
fn labels_of_parts_are_joined() {
    let mut m = counter();
    let still = FlatCmd {
        label: Some("still".into()),
        provenance: String::new(),
        guard: FExpr::tt(),
        constraint: FExpr::tt(),
    };
    m.trans = TransNode::All(vec![
        TransNode::Cmds(vec![by(Some("one"), 1)]),
        TransNode::Cmds(vec![by(None, 1)]),
        TransNode::Cmds(vec![still]),
    ]);
    let e = Explicit::new(&m).unwrap();
    let next = e.successors(&vec![Value::integer(0)]).unwrap();
    assert_eq!(next.len(), 1);
    assert_eq!(next[0].1, "one || still");
    m.trans = TransNode::Interleave(vec![(TransNode::Cmds(vec![by(None, 2)]), FExpr::tt())]);
    let e = Explicit::new(&m).unwrap();
    assert_eq!(e.successors(&vec![Value::integer(0)]).unwrap()[0].1, "");
}

#[test]
fn the_first_infinite_leaf_is_named() {
    let mut m = counter();
    m.leaves.push(leaf("r", LeafType::Real));
    m.leaves.push(leaf("s", LeafType::Real));
    assert!(matches!(Explicit::new(&m), Err(EngineError::InfiniteType(n)) if n == "r"));
    assert!(matches!(Symbolic::new(&m), Err(EngineError::InfiniteType(n)) if n == "r"));
}

#[test]
fn conditions_of_invariants() {
    assert!(invariant_of(&TFormula::G(boxed(is(0)))).is_some());
    assert!(invariant_of(&TFormula::AG(boxed(is(0)))).is_some());
    assert!(invariant_of(&TFormula::Atom(is(0))).is_some());
    assert!(invariant_of(&TFormula::F(boxed(is(0)))).is_none());
    assert!(invariant_of(&TFormula::G(Box::new(TFormula::F(boxed(is(0)))))).is_none());
}

#[test]
fn each_property_has_its_check() {
    let m = counter();
    let mut s = Symbolic::new(&m).unwrap();
    assert!(check(&mut s, &TFormula::Atom(is(0))).unwrap().is_none());
    assert_eq!(check(&mut s, &TFormula::Atom(is(1))).unwrap().unwrap().len(), 1);
    assert!(check(&mut s, &TFormula::G(boxed(at_most(6)))).unwrap().is_none());
    assert_eq!(check(&mut s, &TFormula::AG(boxed(at_most(4)))).unwrap().unwrap().len(), 4);
    assert!(check(&mut s, &TFormula::EF(boxed(is(6)))).unwrap().is_none());
    assert_eq!(check(&mut s, &TFormula::EX(boxed(is(6)))).unwrap().unwrap().len(), 1);
    // there is no endless run
    assert!(check(&mut s, &TFormula::F(boxed(is(9)))).unwrap().is_none());
    let mixed = TFormula::F(Box::new(TFormula::EX(boxed(is(6)))));
    assert!(matches!(check(&mut s, &mixed), Err(EngineError::Eval(_))));
}

#[test]
fn goals_name_boolean_leaves() {
    let leaves = vec![
        leaf("a", LeafType::Range(Int::from_i64(0), Int::from_i64(1))),
        leaf("a", LeafType::Bool),
        leaf("b", LeafType::Bool),
        leaf("a", LeafType::Bool),
    ];
    let goals = vec!["b".to_string(), "a".to_string()];
    assert_eq!(goal_leaves(&leaves, &goals), Ok(vec![2, 1]));
    let goals = vec!["b".to_string(), "c".to_string(), "d".to_string()];
    assert_eq!(goal_leaves(&leaves, &goals), Err(1));
}
