use sal::ast::VarClass;
use sal::fexpr::{FExpr, LeafInfo, LeafType};
use sal::flat::{FlatCmd, FlatModule, TransNode};
use sal::formula::TFormula;
use sal::num::{Int, Rat};
use sal::reply::{after_base, after_search, after_step, decode_model, outcome, SmtResult, Outcome};
use sal::smt::{base_query, search_query, step_query};
use sal::types::TypeId;
use sal::value::Value;

fn half() -> FExpr {
    FExpr::Const(Value::num(Rat::new(&Int::from_i64(-1), &Int::from_i64(2))))
}

/// A real `x` that starts at -1/2 and grows by an integer `n >= 0`.
fn module() -> FlatModule {
    let x = || Box::new(FExpr::Var(0, false));
    FlatModule {
        vars: vec![],
        leaves: vec![
            LeafInfo {
                name: "x".into(),
                ty: LeafType::Real,
                class: VarClass::Local,
            },
            LeafInfo {
                name: "n".into(),
                ty: LeafType::Int { min: Some(Int::from_i64(0)), max: None },
                class: VarClass::Input,
            },
        ],
        invariants: vec![],
        init_defs: vec![FExpr::Eq(x(), Box::new(half()))],
        init_choices: vec![],
        trans_defs: vec![],
        trans: TransNode::Cmds(vec![FlatCmd {
            label: None,
            provenance: String::new(),
            guard: FExpr::tt(),
            constraint: FExpr::Eq(
                Box::new(FExpr::Var(0, true)),
                Box::new(FExpr::Add(vec![FExpr::Var(0, false), FExpr::Var(1, false)])),
            ),
        }]),
        controlled: [0].into_iter().collect(),
        components: vec![],
    }
}

fn small() -> FExpr {
    FExpr::Le(Box::new(FExpr::Var(0, false)), Box::new(FExpr::Const(Value::integer(-3))))
}

#[test]
fn questions() {
    let m = module();
    let f = TFormula::G(Box::new(TFormula::Atom(small())));
    let (enc, root) = search_query(&m, &f, 1, &vec![]).unwrap();
    let text = enc.script(root, 2).unwrap();
    assert!(text.starts_with("(set-logic ALL)\n(declare-const s0_l0 Real)\n(declare-const s0_l1 Int)\n"));
    assert!(text.contains("(declare-const s2_l1 Int)\n"));
    assert!(text.contains("(define-fun aux0 () Bool (and (<= 0 s0_l1)))\n"));
    assert!(text.contains("(= s0_l0 (/ (- 1) 2))"));
    assert!(text.contains("(= s1_l0 (+ s0_l0 (to_real s0_l1)))"));
    assert!(text.contains("(<= s0_l0 (to_real (- 3)))"));
    assert!(text.ends_with(&format!("(assert aux{})\n(check-sat)\n", root)));
    assert_eq!(enc.value_query(1), "(get-value (s0_l0 s0_l1 s1_l0 s1_l1))");
    assert!(base_query(&m, &small(), 2, &vec![]).is_ok());
    assert!(step_query(&m, &small(), 2, &vec![]).is_ok());
    // a number is no condition
    assert!(base_query(&m, &half(), 2, &vec![]).is_err());
    assert!(search_query(&m, &TFormula::AG(Box::new(TFormula::Atom(small()))), 1, &vec![]).is_err());
}

#[test]
fn values_that_cannot_be_written() {
    let m = module();
    let t = || Box::new(FExpr::Const(Value::Tuple(vec![])));
    let f = TFormula::Atom(FExpr::Eq(t(), t()));
    let (enc, root) = search_query(&m, &f, 0, &vec![]).unwrap();
    assert_eq!(enc.script(root, 1).unwrap_err().text(), "cannot encode a value for SMT");
}

#[test]
fn answers() {
    assert_eq!(outcome("unsat\n"), Outcome::Unsat);
    assert_eq!(outcome("sat\n((s0_l0 1))"), Outcome::Sat);
    assert_eq!(outcome("(error)"), Outcome::Unknown);
    let mut m = module();
    m.leaves.push(LeafInfo {
        name: "c".into(),
        ty: LeafType::Scalar(
            TypeId { ctx: "c".into(), name: "T".into() },
            vec!["a".into(), "b".into()],
        ),
        class: VarClass::Local,
    });
    let answer = "sat\n((s0_l0 (- (/ 1 2)))\n (s0_l1 3)\n (s0_l2 1) (s1_l0 (/ (- 1) 4)) (s1_l1 (- 2)) (s1_l2 0))";
    let s = decode_model(&m.leaves, answer, 1);
    let shown: Vec<Vec<String>> = s.iter().map(|t| t.iter().map(|v| v.text()).collect()).collect();
    assert_eq!(shown[0][0], "-1/2");
    assert_eq!(shown[0][1], "3");
    assert!(matches!(s[0][2], Value::Scalar(_, 1)));
    assert_eq!(shown[1][0], "-1/4");
    assert_eq!(shown[1][1], "-2");
    let s = decode_model(&m.leaves, "sat ((s0_l0 1.25) (s0_l1 true))", 0);
    assert_eq!(s[0][0].text(), "5/4");
    assert_eq!(s[0][1].text(), "true");
}

#[test]
fn how_a_search_goes_on() {
    let m = module();
    assert!(matches!(after_search(&m.leaves, "unsat", 1, 3), Ok(None)));
    assert!(matches!(after_search(&m.leaves, "unsat", 3, 3), Ok(Some(SmtResult::NoCe(3)))));
    assert!(matches!(
        after_search(&m.leaves, "sat ((s0_l0 1.0) (s0_l1 0))", 0, 3),
        Ok(Some(SmtResult::Counterexample(_)))
    ));
    assert_eq!(
        after_search(&m.leaves, "", 0, 3).err().unwrap().text(),
        "no working SMT solver found (tried yices-smt2, z3, cvc5)"
    );
    assert!(matches!(after_base(&m.leaves, "unsat", 1), Ok(None)));
    assert!(matches!(after_step("unsat"), Ok(SmtResult::Proved)));
    assert!(matches!(after_step("sat"), Ok(SmtResult::InductionFailed)));
}
