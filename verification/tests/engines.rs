use sal::ast::VarClass;
use sal::bmc::{bmc_search, k_induction, BmcResult};
use sal::explicit::{CheckResult, EngineError, Explicit};
use sal::fexpr::{FExpr, LeafInfo, LeafType};
use sal::flat::{FlatCmd, FlatModule, TransNode};
use sal::formula::TFormula;
use sal::num::Int;
use sal::symbolic::Symbolic;
use sal::value::Value;

fn num(i: i64) -> FExpr {
    FExpr::Const(Value::integer(i))
}

fn x() -> FExpr {
    FExpr::Var(0, false)
}

fn is(i: i64) -> FExpr {
    FExpr::Eq(Box::new(x()), Box::new(num(i)))
}

fn at_most(i: i64) -> FExpr {
    FExpr::Le(Box::new(x()), Box::new(num(i)))
}

fn step_to(e: FExpr) -> FExpr {
    FExpr::Eq(Box::new(FExpr::Var(0, true)), Box::new(e))
}

/// A counter over `0..hi` that starts at 0, with the given guard and step.
fn counter(hi: i64, guard: FExpr, step: FExpr) -> FlatModule {
    FlatModule {
        vars: vec![],
        leaves: vec![LeafInfo {
            name: "x".into(),
            ty: LeafType::Range(Int::from_i64(0), Int::from_i64(hi)),
            class: VarClass::Local,
        }],
        invariants: vec![],
        init_defs: vec![is(0)],
        init_choices: vec![],
        trans_defs: vec![],
        trans: TransNode::Cmds(vec![FlatCmd {
            label: None,
            provenance: String::new(),
            guard,
            constraint: step,
        }]),
        controlled: [0].into_iter().collect(),
        components: vec![],
    }
}

fn round(hi: i64) -> FlatModule {
    let next = FExpr::Mod(
        Box::new(FExpr::Add(vec![x(), num(1)])),
        Box::new(num(hi + 1)),
    );
    counter(hi, FExpr::tt(), step_to(next))
}

/// Counts up to `hi` and stops there.
fn rising(hi: i64) -> FlatModule {
    counter(
        hi,
        FExpr::Lt(Box::new(x()), Box::new(num(hi))),
        step_to(FExpr::Add(vec![x(), num(1)])),
    )
}

fn shown(states: &[Vec<Value>]) -> Vec<String> {
    states.iter().map(|s| s[0].text()).collect()
}

fn atom(e: FExpr) -> Box<TFormula> {
    Box::new(TFormula::Atom(e))
}

#[test]
fn symbolic_invariants() {
    let m = round(3);
    let mut s = Symbolic::new(&m).unwrap();
    assert!(s.check_invariant(&at_most(3)).unwrap().is_none());
    let ce = s.check_invariant(&at_most(2)).unwrap().unwrap();
    assert_eq!(shown(&ce), vec!["0", "1", "2", "3"]);
}

#[test]
fn symbolic_deadlock() {
    let m = rising(2);
    let mut s = Symbolic::new(&m).unwrap();
    let ce = s.check_deadlock().unwrap().unwrap();
    assert_eq!(shown(&ce), vec!["0", "1", "2"]);
    let m = round(2);
    let mut s = Symbolic::new(&m).unwrap();
    assert!(s.check_deadlock().unwrap().is_none());
}

#[test]
fn symbolic_branching_time() {
    let m = round(3);
    let mut s = Symbolic::new(&m).unwrap();
    let can_return = TFormula::AG(Box::new(TFormula::EF(atom(is(0)))));
    assert!(s.check_ctl(&can_return).unwrap().is_none());
    let stays = TFormula::AG(atom(is(0)));
    assert!(s.check_ctl(&stays).unwrap().is_some());
}

#[test]
fn symbolic_linear_time() {
    let m = round(3);
    let mut s = Symbolic::new(&m).unwrap();
    let again = TFormula::G(Box::new(TFormula::F(atom(is(2)))));
    assert!(s.check_ltl(&again).unwrap().is_none());
    let settles = TFormula::F(Box::new(TFormula::G(atom(is(2)))));
    assert!(s.check_ltl(&settles).unwrap().is_some());
}

#[test]
fn bounded_search_agrees() {
    let m = round(3);
    let none: Vec<FExpr> = vec![];
    let g = TFormula::G(atom(at_most(2)));
    match bmc_search(&m, &g, 5, &none) {
        Ok(BmcResult::Counterexample(s)) => assert_eq!(shown(&s), vec!["0", "1", "2", "3"]),
        _ => panic!("a counterexample was expected"),
    }
    let again = TFormula::G(Box::new(TFormula::F(atom(is(2)))));
    assert!(matches!(
        bmc_search(&m, &again, 6, &none),
        Ok(BmcResult::NoCe(6))
    ));
    let settles = TFormula::F(Box::new(TFormula::G(atom(is(2)))));
    assert!(matches!(
        bmc_search(&m, &settles, 6, &none),
        Ok(BmcResult::Counterexample(_))
    ));
}

#[test]
fn bounded_search_refuses_branching_time() {
    let m = round(3);
    let f = TFormula::AG(atom(is(0)));
    assert!(matches!(
        bmc_search(&m, &f, 2, &vec![]),
        Err(EngineError::Eval(_))
    ));
}

#[test]
fn induction() {
    let m = round(3);
    assert!(matches!(
        k_induction(&m, &at_most(3), 0, &vec![]),
        Ok(BmcResult::Proved)
    ));
    // from 3, where nothing leads, the step to 4 cannot be excluded without the range
    let m = counter(7, FExpr::tt(), step_to(x()));
    assert!(matches!(
        k_induction(&m, &is(0), 0, &vec![]),
        Ok(BmcResult::Proved)
    ));
    let jump = FExpr::Ite(Box::new(is(3)), Box::new(num(7)), Box::new(x()));
    let m = counter(7, FExpr::tt(), step_to(jump));
    assert!(matches!(
        k_induction(&m, &at_most(4), 0, &vec![]),
        Ok(BmcResult::InductionFailed)
    ));
    match k_induction(&round(3), &at_most(1), 3, &vec![]) {
        Ok(BmcResult::Counterexample(s)) => assert_eq!(shown(&s), vec!["0", "1", "2", "3"]),
        _ => panic!("a counterexample was expected"),
    }
}

#[test]
fn induction_uses_lemmas() {
    let jump = FExpr::Ite(Box::new(is(3)), Box::new(num(7)), Box::new(x()));
    let m = counter(7, FExpr::tt(), step_to(jump));
    assert!(matches!(
        k_induction(&m, &at_most(4), 0, &vec![at_most(2)]),
        Ok(BmcResult::Proved)
    ));
}

#[test]
fn explicit_search() {
    let m = rising(2);
    let e = Explicit::new(&m).unwrap();
    let init = e.initial_states().unwrap();
    assert_eq!(shown(&init), vec!["0"]);
    let next = e.successors(&init[0]).unwrap();
    assert_eq!(next.len(), 1);
    assert_eq!(next[0].0[0].text(), "1");
    assert!(matches!(
        e.check_invariant(&at_most(2)),
        Ok(CheckResult::Proved)
    ));
    match e.check_invariant(&at_most(1)) {
        Ok(CheckResult::Counterexample(p)) => {
            let s: Vec<String> = p.steps.iter().map(|s| s.0[0].text()).collect();
            assert_eq!(s, vec!["0", "1", "2"]);
        }
        _ => panic!("a counterexample was expected"),
    }
    match e.check_deadlock() {
        Ok(CheckResult::Deadlock(p)) => assert_eq!(p.steps.len(), 3),
        _ => panic!("a deadlock was expected"),
    }
    let m = round(2);
    let e = Explicit::new(&m).unwrap();
    assert!(matches!(e.check_deadlock(), Ok(CheckResult::Fine)));
}

#[test]
fn infinite_types_are_refused() {
    let mut m = round(3);
    m.leaves[0].ty = LeafType::Real;
    assert!(matches!(Explicit::new(&m), Err(EngineError::InfiniteType(n)) if n == "x"));
    assert!(matches!(Symbolic::new(&m), Err(EngineError::InfiniteType(n)) if n == "x"));
    assert!(matches!(
        bmc_search(&m, &TFormula::G(atom(FExpr::tt())), 1, &vec![]),
        Err(EngineError::InfiniteType(n)) if n == "x"
    ));
    assert_eq!(
        EngineError::InfiniteType("x".into()).text(),
        "Finite type expected. The type of the variable \"x\" is not finite."
    );
    assert_eq!(
        EngineError::TooLarge("y".into()).text(),
        "State space too large: y"
    );
}

#[test]
fn large_domains_are_refused() {
    let m = counter(5_000_000, FExpr::tt(), FExpr::tt());
    let e = Explicit::new(&m).unwrap();
    // 0 can go to any value, more than are enumerated
    assert!(matches!(
        e.successors(&vec![Value::integer(0)]),
        Err(EngineError::TooLarge(_))
    ));
}

#[test]
fn orders_do_not_change_verdicts() {
    let mut m = round(3);
    m.leaves.push(LeafInfo {
        name: "y".into(),
        ty: LeafType::Bool,
        class: VarClass::Local,
    });
    for order in [vec![0, 1], vec![1, 0]] {
        let mut s = Symbolic::with_order(&m, &order).unwrap();
        assert!(s.check_invariant(&at_most(3)).unwrap().is_none());
        assert!(s.check_invariant(&at_most(2)).unwrap().is_some());
    }
}

#[test]
fn paths() {
    let m = rising(3);
    let mut s = Symbolic::new(&m).unwrap();
    assert_eq!(s.leaf_count(), 1);
    let start = s.state_bdd(&vec![Value::integer(0)]);
    let target = s.state_bdd(&vec![Value::integer(3)]);
    let p = s.find_path(start, target, 0, None).unwrap();
    assert_eq!(shown(&p), vec!["0", "1", "2", "3"]);
    assert!(s.find_path(start, target, 0, Some(2)).is_none());
    let p = s.random_path(10).unwrap();
    assert_eq!(shown(&p), vec!["0", "1", "2", "3"]);
    assert_eq!(shown(&s.random_path(1).unwrap()), vec!["0", "1"]);
    assert!(s.check_initial(&is(0)).unwrap().is_none());
    assert!(s.check_initial(&is(1)).unwrap().is_some());
}
