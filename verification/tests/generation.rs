use sal::ast::{Ident, Module, ModuleKind, Name};
use sal::atg::generate_tests;
use sal::bmc::bmc_at;
use sal::eval::Flattener;
use sal::fexpr::{FExpr, LeafType};
use sal::flat::{is_unprimed, FlatModule};
use sal::formula::TFormula;
use sal::library::{report, SalEnv};
use sal::ordering::{compute_order, StaticOrder};
use sal::span::Span;
use sal::symbolic::Symbolic;
use sal::value::Value;

const COUNTER: &str = "c: CONTEXT = BEGIN
    m: MODULE = BEGIN
        INPUT up: BOOLEAN
        OUTPUT x: [0..5]
        OUTPUT low: BOOLEAN, high: BOOLEAN, never: BOOLEAN
        INITIALIZATION x = 0; low = FALSE; high = FALSE; never = FALSE
        TRANSITION [ up AND x < 5 --> x' = x + 1; low' = (x >= 1); high' = (x >= 3)
                  [] ELSE --> ]
    END;
    small: THEOREM m |- G(x <= 5);
    less: THEOREM m |- G(x < 3);
    other: CLAIM m |- X(x = 3);
    same: CLAIM m IMPLEMENTS m;
END";

fn checked(src: &str) -> (SalEnv, usize) {
    let mut env = SalEnv::new();
    let d = env.parse_file("c.sal", "c", src).expect("parse");
    match env.check_instance(d) {
        Ok(id) => (env, id),
        Err(e) => panic!("{}", report(e).text()),
    }
}

fn named(name: &str) -> Module {
    let id = Ident { name: name.into(), span: Span::dummy() };
    Module {
        kind: ModuleKind::Instance(Name { ctx: None, id, span: Span::dummy() }, vec![]),
        span: Span::dummy(),
        parens: 0,
    }
}

fn flat_of(src: &str, name: &str) -> FlatModule {
    let (env, id) = checked(src);
    match Flattener::new(&env).flatten_module(id, &named(name)) {
        Ok(f) => f,
        Err(e) => panic!("{}", e.text()),
    }
}

fn names(flat: &FlatModule) -> Vec<&str> {
    flat.leaves.iter().map(|l| l.name.as_str()).collect()
}

fn goal(flat: &FlatModule, name: &str) -> u32 {
    flat.leaves.iter().position(|l| l.name == name && matches!(l.ty, LeafType::Bool)).unwrap() as u32
}

#[test]
fn tests_meet_the_goals() {
    let flat = flat_of(COUNTER, "m");
    assert_eq!(names(&flat), ["up", "x", "low", "high", "never"]);
    let goals = vec![goal(&flat, "low"), goal(&flat, "high"), goal(&flat, "never")];
    let mut engine = Symbolic::new(&flat).unwrap();
    let (tests, open) = generate_tests(&mut engine, &goals, Some(8), 8, 0, false, false);
    assert_eq!(open, [2]);
    assert_eq!(tests.len(), 1);
    // low is first true after two steps, high after two more, or three where the input holds the counter back
    assert!(tests[0].len() == 5 || tests[0].len() == 6);
    assert!(matches!(tests[0][2][goals[0] as usize], Value::Bool(true)));
    assert!(matches!(tests[0].last().unwrap()[goals[1] as usize], Value::Bool(true)));
    // without extensions each goal has a test of its own
    let (tests, open) = generate_tests(&mut engine, &goals, None, 0, 0, false, false);
    assert_eq!(open, [2]);
    assert_eq!(tests.iter().map(|t| t.len()).collect::<Vec<_>>(), [3, 5]);
    // nothing is true within one step
    let (tests, open) = generate_tests(&mut engine, &goals, Some(1), 8, 0, false, false);
    assert!(tests.is_empty());
    assert_eq!(open, [0, 1, 2]);
}

#[test]
fn shortest_paths_within_bounds() {
    let flat = flat_of(COUNTER, "m");
    let mut engine = Symbolic::new(&flat).unwrap();
    let high = FExpr::Var(goal(&flat, "high"), false);
    let target = engine.states_where(&high).unwrap();
    let start = engine.initial_set();
    assert_eq!(engine.find_path(start, target, 0, None).unwrap().len(), 5);
    assert_eq!(engine.find_path(start, target, 5, None).unwrap().len(), 6);
    assert!(engine.find_path(start, target, 0, Some(3)).is_none());
}

#[test]
fn assertions_become_formulas() {
    let (env, id) = checked(COUNTER);
    let f = Flattener::new(&env);
    let (flat, small) = f.flatten_assertion(id, &"small".to_string()).unwrap();
    assert!(flat.is_plain());
    match &small {
        TFormula::G(p) => assert!(is_unprimed(p.as_atom().unwrap())),
        _ => panic!("an invariant was expected"),
    }
    let less = f.lower_assertion_in(id, &"less".to_string(), &flat).unwrap();
    assert!(bmc_at(&flat, &less, 2, &vec![]).unwrap().is_none());
    assert_eq!(bmc_at(&flat, &less, 3, &vec![]).unwrap().unwrap().len(), 4);
    assert!(matches!(f.lower_assertion_in(id, &"other".to_string(), &flat).unwrap(), TFormula::X(_)));
    match f.flatten_assertion(id, &"none".to_string()) {
        Err(e) => assert_eq!(e.text(), "Error: Assertion \"none\" was not found in context \"c\"."),
        Ok(_) => panic!("an error was expected"),
    }
    match f.flatten_assertion(id, &"same".to_string()) {
        Err(e) => assert_eq!(e.text(), "Error: IMPLEMENTS assertions are not supported."),
        Ok(_) => panic!("an error was expected"),
    }
}

#[test]
fn composition_shares_variables() {
    let src = "c: CONTEXT = BEGIN
        a: MODULE = BEGIN INPUT y: [0..1] OUTPUT x: [0..1]
            INITIALIZATION x = 0 TRANSITION [ TRUE --> x' = y ] END;
        b: MODULE = BEGIN INPUT x: [0..1] OUTPUT y: [0..1]
            INITIALIZATION y = 0 TRANSITION [ TRUE --> y' = 1 - x ] END;
        both: MODULE = a || b;
        hidden: MODULE = LOCAL x IN both;
        renamed: MODULE = RENAME x TO z IN a;
        extended: MODULE = WITH OUTPUT w: ARRAY [0..1] OF [0..1] (|| (i: [0..1]): RENAME x TO w[i] IN a);
    END";
    assert_eq!(names(&flat_of(src, "both")), ["y", "x"]);
    let hidden = flat_of(src, "hidden");
    assert_eq!(hidden.vars.len(), 2);
    assert!(hidden.vars.iter().any(|v| v.name == "x" && v.class == sal::ast::VarClass::Local));
    assert_eq!(names(&flat_of(src, "renamed")), ["y", "z"]);
    let extended = flat_of(src, "extended");
    assert!(names(&extended).contains(&"w[0]") && names(&extended).contains(&"w[1]"));
}

#[test]
fn evaluation_of_constants() {
    let src = "c: CONTEXT = BEGIN
        Color: TYPE = {red, green};
        fact(n: [0..10]): NATURAL = IF n = 0 THEN 1 ELSE n * fact(n - 1) ENDIF;
        best: [0..9] = 4;
        m: MODULE = BEGIN OUTPUT x: [0..200], col: Color
            INITIALIZATION x = fact(best) + (LET a: NATURAL = 2 IN a * 3); col = green
            TRANSITION [ col = red --> x' = 0 ] END;
    END";
    let flat = flat_of(src, "m");
    let mut engine = Symbolic::new(&flat).unwrap();
    let p = engine.random_path(0).unwrap();
    assert_eq!(p[0][0].text(), "30");
    assert_eq!(sal::show::display_leaf(&flat.leaves[1], &p[0][1]), "green");
}

#[test]
fn one_goal_at_a_time() {
    let flat = flat_of(COUNTER, "m");
    let low = goal(&flat, "low");
    let mut engine = Symbolic::new(&flat).unwrap();
    let lengths = |tests: &Vec<Vec<Vec<Value>>>| tests.iter().map(|t| t.len()).collect::<Vec<_>>();
    let (tests, open) = generate_tests(&mut engine, &vec![low, low], Some(8), 0, 0, false, false);
    assert_eq!((lengths(&tests), open), (vec![3], vec![]));
    let (tests, open) = generate_tests(&mut engine, &vec![low, low], Some(8), 0, 0, false, true);
    assert_eq!((lengths(&tests), open), (vec![3, 3], vec![]));
    let goals = vec![low, goal(&flat, "high"), goal(&flat, "never")];
    let (_, open) = generate_tests(&mut engine, &goals, Some(8), 8, 0, true, false);
    assert_eq!(open, [2]);
}

#[test]
fn compositions_record_their_components() {
    let src = "c: CONTEXT = BEGIN
        a: MODULE = BEGIN INPUT y: [0..1] OUTPUT x: [0..1]
            INITIALIZATION x = 0 TRANSITION [ TRUE --> x' = y ] END;
        b: MODULE = BEGIN INPUT x: [0..1] OUTPUT y: [0..1]
            INITIALIZATION y = 0 TRANSITION [ TRUE --> y' = 1 - x ] END;
        both: MODULE = a || b;
    END";
    let flat = flat_of(src, "both");
    assert_eq!(names(&flat), ["y", "x"]);
    assert_eq!(flat.components.len(), 2);
    assert_eq!(flat.components[0].owned.iter().collect::<Vec<_>>(), [&1]);
    assert_eq!(flat.components[1].owned.iter().collect::<Vec<_>>(), [&0]);
    assert_eq!(flat.components[0].reads.iter().collect::<Vec<_>>(), [&0, &1]);
    for s in [StaticOrder::Declared, StaticOrder::MinSupp, StaticOrder::MinComm2] {
        let mut order = compute_order(&flat, s);
        order.sort();
        assert_eq!(order, [0, 1]);
    }
}

#[test]
fn labels_reach_the_flat_commands() {
    let src = "c: CONTEXT = BEGIN
        m: MODULE = BEGIN OUTPUT x: [0..1] INITIALIZATION x = 0
            TRANSITION [ up: x = 0 --> x' = 1 [] x = 1 --> [] down: ELSE --> x' = 0 ] END;
    END";
    let flat = flat_of(src, "m");
    let e = sal::explicit::Explicit::new(&flat).unwrap();
    let start = e.initial_states().unwrap();
    assert_eq!(e.successors(&start[0]).unwrap()[0].1, "up");
}
