use sal::ast::VarClass;
use sal::explicit::Path;
use sal::fexpr::{LeafInfo, LeafType};
use sal::goals::parse_goals;
use sal::show::{display_leaf, print_path, print_states};
use sal::types::TypeId;
use sal::value::Value;

fn id() -> TypeId {
    TypeId { ctx: "c".into(), name: "T".into() }
}

fn leaves() -> Vec<LeafInfo> {
    vec![
        LeafInfo { name: "x".into(), ty: LeafType::Bool, class: VarClass::Local },
        LeafInfo {
            name: "c".into(),
            ty: LeafType::Scalar(id(), vec!["red".into(), "green".into()]),
            class: VarClass::Local,
        },
    ]
}

#[test]
fn values_of_leaves() {
    let ls = leaves();
    assert_eq!(display_leaf(&ls[0], &Value::Bool(true)), "true");
    assert_eq!(display_leaf(&ls[1], &Value::Scalar(id(), 1)), "green");
}

#[test]
fn paths_as_text() {
    let state = || vec![Value::Bool(false), Value::Scalar(id(), 0)];
    let step = "Step 0:\n--- System Variables (assignments) ---\nx = false\nc = red\n------------------------\n";
    let rule = "========================\n";
    let head = format!("Counterexample:\n{}Path\n{}", rule, rule);
    assert_eq!(
        print_states(&leaves(), &vec![state()], "Counterexample:"),
        format!("{}{}", head, step)
    );
    let path = Path { steps: vec![(state(), Some("go".into()))] };
    assert_eq!(
        print_path(&leaves(), &path, "Counterexample:"),
        format!(
            "{}{}Transition Information: \n(label go)\n------------------------\n",
            head, step
        )
    );
    let path = Path { steps: vec![(state(), None)] };
    assert_eq!(
        print_path(&leaves(), &path, "Counterexample:"),
        format!("{}{}", head, step)
    );
}

#[test]
fn goals() {
    let src = "; the \"goals\"\n(define goal-list '(\"g1\" ; first\n \"g2\"))\n";
    assert_eq!(parse_goals(src).unwrap(), vec!["g1", "g2"]);
    assert_eq!(parse_goals("(\"g1\")").unwrap_err(), "goals file does not define goal-list");
    assert_eq!(parse_goals("goal-list \"g1").unwrap_err(), "unterminated string in goals file");
    assert_eq!(parse_goals("goal-list ()").unwrap_err(), "no goals found in goals file");
}
