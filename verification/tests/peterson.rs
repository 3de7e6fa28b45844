use sal::ast::{Ident, Module, ModuleKind, Name};
use sal::bmc::{bmc_search, k_induction, BmcResult};
use sal::eval::Flattener;
use sal::explicit::{CheckResult, Explicit};
use sal::flat::FlatModule;
use sal::formula::TFormula;
use sal::library::{report, SalEnv};
use sal::span::Span;
use sal::symbolic::Symbolic;
use sal::temporal::has_plain_atoms;

const PETERSON: &str = "peterson: CONTEXT =
BEGIN
  PC: TYPE = {sleeping, trying, critical};

  process [tval : BOOLEAN]: MODULE =
  BEGIN
    INPUT pc2 : PC
    INPUT x2  : BOOLEAN
    OUTPUT pc1 : PC
    OUTPUT x1  : BOOLEAN
    INITIALIZATION pc1 = sleeping
    TRANSITION
    [
      wakening: pc1 = sleeping --> pc1' = trying; x1' = (x2 = tval)
      []
      entering_critical: pc1 = trying AND (pc2 = sleeping OR x1 = (x2 /= tval))
        --> pc1' = critical
      []
      leaving_critical: pc1 = critical --> pc1' = sleeping; x1' = (x2 = tval)
    ]
  END;

  system: MODULE =
    process[FALSE]
    []
    RENAME pc2 TO pc1, pc1 TO pc2, x2 TO x1, x1 TO x2 IN process[TRUE];

  mutex: THEOREM system |- G(NOT(pc1 = critical AND pc2 = critical));
  mutex_ctl: THEOREM system |- AG(NOT(pc1 = critical AND pc2 = critical));
  invalid: THEOREM system |- G(NOT(pc1 = trying AND pc2 = critical));
  livenessbug1: THEOREM system |- G(F(pc1 = critical));
  liveness1: THEOREM system |- G(pc1 = trying => F(pc1 = critical));
END";

fn assertion(name: &str) -> (FlatModule, TFormula) {
    let mut env = SalEnv::new();
    let d = env.parse_file("peterson.sal", "peterson", PETERSON).expect("parse");
    let id = match env.check_instance(d) {
        Ok(id) => id,
        Err(e) => panic!("{}", report(e).text()),
    };
    match Flattener::new(&env).flatten_assertion(id, &name.to_string()) {
        Ok(r) => r,
        Err(e) => panic!("{}", e.text()),
    }
}

fn proved(name: &str) -> bool {
    let (flat, f) = assertion(name);
    assert!(flat.is_plain() && has_plain_atoms(&f));
    let mut engine = Symbolic::new(&flat).unwrap();
    match &f {
        TFormula::G(p) | TFormula::AG(p) => {
            if let Some(e) = p.as_atom() {
                return engine.check_invariant(e).unwrap().is_none();
            }
        }
        _ => {}
    }
    engine.check_ltl(&f).unwrap().is_none()
}

#[test]
fn peterson_suite() {
    assert!(proved("mutex"));
    assert!(!proved("invalid"));
    assert!(proved("mutex_ctl"));
    assert!(!proved("livenessbug1"));
    assert!(proved("liveness1"));
    let (flat, f) = assertion("invalid");
    assert!(matches!(bmc_search(&flat, &f, 10, &vec![]), Ok(BmcResult::Counterexample(_))));
    let (flat, f) = assertion("mutex");
    let prop = match &f {
        TFormula::G(p) => p.as_atom().unwrap(),
        _ => panic!("an invariant was expected"),
    };
    assert!(matches!(k_induction(&flat, prop, 3, &vec![]), Ok(BmcResult::Proved)));
    assert!(matches!(Explicit::new(&flat).unwrap().check_deadlock(), Ok(CheckResult::Fine)));
    assert!(matches!(Explicit::new(&flat).unwrap().check_invariant(prop), Ok(CheckResult::Proved)));
}

#[test]
fn a_module_of_nothing_known() {
    let mut env = SalEnv::new();
    let d = env.parse_file("peterson.sal", "peterson", PETERSON).expect("parse");
    let id = env.check_instance(d).ok().unwrap();
    // a context is checked once
    assert_eq!(env.check_instance(d).ok(), Some(id));
    let id_of = Ident { name: "nothing".into(), span: Span::dummy() };
    let m = Module {
        kind: ModuleKind::Instance(Name { ctx: None, id: id_of, span: Span::dummy() }, vec![]),
        span: Span::dummy(),
        parens: 0,
    };
    match Flattener::new(&env).flatten_module(id, &m) {
        Err(e) => assert!(e.text().contains("Unknown variable \"nothing\"."), "{}", e.text()),
        Ok(_) => panic!("an error was expected"),
    }
}
