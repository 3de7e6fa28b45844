use sal::error::SalError;
use sal::library::{report, resolve_context, SalEnv};
use sal::types::{SemType, TypeId};

fn check(src: &str) -> Result<usize, String> {
    check_with(&[("c", src)])
}

/// Checks the last of the given contexts.
fn check_with(sources: &[(&str, &str)]) -> Result<usize, String> {
    let mut env = SalEnv::new();
    let mut last = 0;
    for (name, src) in sources {
        last = env.parse_file("c.sal", name, src).map_err(|e| e.text())?;
    }
    env.check_instance(last).map_err(|e| report(e).text())
}

fn message(src: &str) -> String {
    check(src).unwrap_err()
}

#[test]
fn a_good_context() {
    let src = "c: CONTEXT = BEGIN
        T: TYPE = [0..3];
        Color: TYPE = {red, green};
        next(n: T): T = IF n < 3 THEN n + 1 ELSE 0 ENDIF;
        m: MODULE = BEGIN
            INPUT i: BOOLEAN
            LOCAL x: T
            OUTPUT col: Color
            INITIALIZATION x = 0; col = red
            TRANSITION [ i --> x' = next(x) [] ELSE --> x' = 0; col' = green ]
        END;
        inv: THEOREM m |- G(x <= 3 AND col = red);
    END";
    assert_eq!(check(src), Ok(1));
}

#[test]
fn mismatches() {
    assert_eq!(
        message("c: CONTEXT = BEGIN x: BOOLEAN = 3; END"),
        "Error: [Context: c, line(1), column(32)]: Type mismatch: expected bool, found number."
    );
    assert!(message("c: CONTEXT = BEGIN x: NATURAL = y; END").contains("Unknown variable \"y\"."));
    assert!(message("c: CONTEXT = BEGIN x: Color = 1; END").contains("Unknown variable \"Color\"."));
    assert!(message("c: CONTEXT = BEGIN x: true = 1; END").contains("Unknown type \"true\"."));
    assert!(message("c: CONTEXT = BEGIN x: NATURAL = nat; END")
        .contains("Type \"nat\" used as an expression."));
    assert!(message("c: CONTEXT = BEGIN x: NATURAL = (1, 2).3; END")
        .contains("Tuple index out of bounds."));
    assert!(message("c: CONTEXT = BEGIN x: NATURAL = (# a := 1 #).b; END")
        .contains("Unknown record field \"b\"."));
    assert!(message("c: CONTEXT = BEGIN x: NATURAL = 3(4); END")
        .contains("Function (array) type expected, found number."));
    assert!(message("c: CONTEXT = BEGIN x: NATURAL = 3 WITH [1] := 2; END")
        .contains("Invalid access on a value of type number."));
}

#[test]
fn assignments() {
    let m = |body: &str| {
        message(&format!(
            "c: CONTEXT = BEGIN m: MODULE = BEGIN INPUT i: BOOLEAN LOCAL x: BOOLEAN {} END; END",
            body
        ))
    };
    assert!(m("INITIALIZATION i = TRUE").contains("Input variable \"i\" cannot be assigned."));
    assert!(m("INITIALIZATION x' = TRUE").contains("Next-state variables are not allowed here."));
    assert!(m("INITIALIZATION y = TRUE").contains("Undeclared state variable \"y\"."));
    assert!(m("TRANSITION x' = y'").contains("Undeclared state variable \"y\"."));
    assert!(m("LOCAL i: BOOLEAN").contains("Variable \"i\" is declared twice."));
}

#[test]
fn composition() {
    // local variables of both parts become a pair; of an indexed composition, an array
    let ok = "c: CONTEXT = BEGIN
        m: MODULE = BEGIN LOCAL x: BOOLEAN END;
        two: MODULE = m || m;
        all: MODULE = ([] (i: [1..3]): m);
        t1: THEOREM two |- G(x.1 OR x.2);
        t2: THEOREM all |- G(x[1]);
    END";
    assert_eq!(check(ok), Ok(1));
    let bad = "c: CONTEXT = BEGIN
        m: MODULE = BEGIN OUTPUT x: BOOLEAN END;
        n: MODULE = BEGIN INPUT x: NATURAL END;
        two: MODULE = m || n;
    END";
    assert!(message(bad)
        .contains("Variable \"x\" is declared with incompatible types in composed modules."));
    let hidden = "c: CONTEXT = BEGIN
        m: MODULE = BEGIN OUTPUT x: BOOLEAN END;
        h: MODULE = LOCAL y IN m;
    END";
    assert!(message(hidden).contains("Undeclared state variable \"y\"."));
    let count = "c: CONTEXT = BEGIN
        m [n: NATURAL]: MODULE = BEGIN LOCAL x: BOOLEAN END;
        k: MODULE = m[1, 2];
    END";
    assert!(message(count)
        .contains("Wrong number of module actuals for \"m\": expected 1, found 2."));
}

#[test]
fn datatypes() {
    let src = "c: CONTEXT = BEGIN
        list: TYPE = DATATYPE cons(head: NATURAL, tail: list), nil END;
        one: list = cons(1, nil);
        h: NATURAL = head(one);
        b: BOOLEAN = cons?(one);
    END";
    assert_eq!(check(src), Ok(1));
}

#[test]
fn parameters() {
    let q = "q{T: TYPE; n: NATURAL}: CONTEXT = BEGIN
        pair: TYPE = [T, T];
        limit: NATURAL = n;
    END";
    let c = "c: CONTEXT = BEGIN p: q{BOOLEAN; 3}!pair = (TRUE, FALSE); END";
    assert_eq!(check_with(&[("q", q), ("c", c)]), Ok(1));
    let bad = "c: CONTEXT = BEGIN p: q{BOOLEAN; 3}!pair = (TRUE, 4); END";
    assert!(check_with(&[("q", q), ("c", bad)])
        .unwrap_err()
        .contains("Type mismatch: expected "));
    let few = "c: CONTEXT = BEGIN p: q{BOOLEAN;}!pair = (TRUE, FALSE); END";
    assert!(check_with(&[("q", q), ("c", few)]).is_err());
    let absent = "c: CONTEXT = BEGIN x: NATURAL = q!limit; END";
    assert_eq!(
        message(absent),
        "Error: Source file for the context \"q\" was not found."
    );
    let value = "c: CONTEXT = BEGIN x: NATURAL = q{BOOLEAN; TRUE}!limit; END";
    assert!(check_with(&[("q", q), ("c", value)])
        .unwrap_err()
        .contains("Type mismatch: expected number, found bool."));
}

#[test]
fn contexts_that_need_each_other() {
    let a = "a: CONTEXT = BEGIN x: NATURAL = b!y; END";
    let b = "b: CONTEXT = BEGIN y: NATURAL = a!x; END";
    assert_eq!(check_with(&[("b", b), ("a", a)]), Ok(1));
    let first = "a: CONTEXT = BEGIN t: TYPE = b!u; END";
    let second = "b: CONTEXT = BEGIN u: TYPE = a!t; END";
    assert!(check_with(&[("b", second), ("a", first)])
        .unwrap_err()
        .contains("Cyclic dependency on context \"a\"."));
}

#[test]
fn names_of_files() {
    let mut env = SalEnv::new();
    let e = env.parse_file("d.sal", "d", "c: CONTEXT = BEGIN x: NATURAL = 1; END").unwrap_err();
    assert!(e.text().contains(
        "Invalid context name \"d\". The context declared name and the file name must be the same."
    ));
    let e = env.parse_file("c.sal", "c", "c: CONTEXT = ").unwrap_err();
    assert!(matches!(e, SalError::Parse { .. }));
    assert_eq!(env.parse_file("c.sal", "c", "c: CONTEXT = BEGIN x: NATURAL = 1; END").unwrap(), 0);
    assert_eq!(env.load_context(&"c".to_string()).unwrap(), 0);
    assert!(env.load_context(&"d".to_string()).is_err());
}

#[test]
fn qualified_references() {
    let q = "q{n: NATURAL}: CONTEXT = BEGIN limit: NATURAL = n; END";
    let mut env = SalEnv::new();
    env.parse_file("q.sal", "q", q).unwrap();
    let (id, name) = env.resolve_qualified("q{4}!limit").unwrap();
    assert_eq!(env.instances[id].key, "q{4}");
    assert_eq!(name, "limit");
    let (same, _) = env.resolve_qualified("q{4}!limit").unwrap();
    assert_eq!(same, id);
    assert_eq!(
        env.resolve_qualified("limit").unwrap_err().text(),
        "Error: Reference \"limit\" must be qualified with a context."
    );
    assert_eq!(
        env.resolve_qualified("1 + 2").unwrap_err().text(),
        "Error: Invalid reference \"1 + 2\"."
    );
    assert!(env.resolve_qualified("q{").is_err());
}

#[test]
fn compatible_types() {
    let n = || SemType::Number;
    let arr = SemType::Array(Box::new(n()), Box::new(SemType::Bool));
    let fun = SemType::Fun(Box::new(n()), Box::new(SemType::Bool));
    assert!(arr.compatible(&fun));
    assert!(fun.compatible(&arr));
    assert!(SemType::Any.compatible(&arr));
    assert!(!n().compatible(&SemType::Bool));
    let s = SemType::Scalar(TypeId { ctx: "c".into(), name: "T".into() });
    assert!(s.compatible(&s));
    assert_eq!(s.text(), "c!T");
}

#[test]
fn a_context_is_checked_once() {
    let mut env = SalEnv::new();
    let d = env.parse_file("c.sal", "c", "c: CONTEXT = BEGIN T: TYPE = [0..3]; x: T = 2; END").unwrap();
    let plain = env.plain_instance(d);
    assert_eq!(env.plain_instance(d), plain);
    assert!(env.instances[plain].symbols.is_empty());
    assert_eq!(env.check_instance(d).ok(), Some(plain));
    let entries = env.instances[plain].symbols.len();
    assert!(entries > 0);
    assert_eq!(env.check_instance(d).ok(), Some(plain));
    assert_eq!(env.instances[plain].symbols.len(), entries);
    assert_eq!(env.instances.len(), 2);
}

#[test]
fn contexts_are_found_by_their_names() {
    let mut env = SalEnv::new();
    let c = env.parse_file("c.sal", "c", "c: CONTEXT = BEGIN x: NATURAL = 2; END").unwrap();
    let p = env.parse_file("p.sal", "p", "p{n: NATURAL}: CONTEXT = BEGIN y: NATURAL = n; END").unwrap();
    assert_eq!(env.load_context(&"c".to_string()).ok(), Some(c));
    assert_eq!(env.load_context(&"p".to_string()).ok(), Some(p));
    let again = env.parse_file("c.sal", "c", "c: CONTEXT = BEGIN z: NATURAL = 2; END").unwrap();
    assert_eq!(env.load_context(&"c".to_string()).ok(), Some(again));
    let id = resolve_context(&mut env, "c").unwrap();
    assert_eq!(env.instances[id].key, "c");
    let id = resolve_context(&mut env, "p{3}").unwrap();
    assert_eq!(env.instances[id].name, "p");
    assert_eq!(resolve_context(&mut env, "p{3}").unwrap(), id);
    assert_eq!(
        resolve_context(&mut env, "q").unwrap_err().text(),
        "Error: Source file for the context \"q\" was not found."
    );
    assert!(resolve_context(&mut env, "p{").unwrap_err().text().contains("Invalid context reference \"p{\": "));
}

#[test]
fn sides_of_comparisons_change_places() {
    for (a, b) in [("1", "x"), ("TRUE", "1 < 2"), ("(1, TRUE)", "(x, FALSE)"), ("1", "TRUE"), ("(1, 2)", "3")] {
        let ok = |l: &str, r: &str| {
            check(&format!("c: CONTEXT = BEGIN x: NATURAL = 2; y: BOOLEAN = ({}) = ({}); END", l, r)).is_ok()
        };
        assert_eq!(ok(a, b), ok(b, a));
    }
}
