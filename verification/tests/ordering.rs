use sal::ast::VarClass;
use sal::fexpr::{FExpr, LeafInfo, LeafType};
use sal::flat::{Component, FlatCmd, FlatModule, TransNode};
use sal::ordering::{compute_order, order_from_file, StaticOrder};

fn leaf(name: &str) -> LeafInfo {
    LeafInfo {
        name: name.into(),
        ty: LeafType::Bool,
        class: VarClass::Local,
    }
}

fn module(names: &[&str]) -> FlatModule {
    FlatModule {
        leaves: names.iter().map(|n| leaf(n)).collect(),
        vars: vec![],
        invariants: vec![],
        init_defs: vec![],
        init_choices: vec![],
        trans_defs: vec![],
        trans: TransNode::True,
        controlled: Default::default(),
        components: vec![],
    }
}

#[test]
fn order_file_positional_bang_syntax() {
    // pc!2 = second element group of pc[...]
    let m = module(&["pc[a]", "pc[b]", "forks[a]", "forks[b]"]);
    let order = order_from_file(&m, "(\npc!2\nforks!1\n)").unwrap();
    assert_eq!(order[0], 1); // pc[b]
    assert_eq!(order[1], 2); // forks[a]
    assert_eq!(order.len(), 4); // rest appended
}

#[test]
fn order_file_ignores_unknown_names() {
    let m = module(&["x"]);
    let order = order_from_file(&m, "(zz x)").unwrap();
    assert_eq!(order, vec![0]);
}

#[test]
fn compute_order_is_a_permutation() {
    let m = module(&["a", "b", "c"]);
    let order = compute_order(&m, StaticOrder::MinSupp);
    let mut sorted = order.clone();
    sorted.sort();
    assert_eq!(sorted, vec![0, 1, 2]);
}

#[test]
fn order_file_bad_index() {
    let m = module(&["x"]);
    assert_eq!(
        order_from_file(&m, "(x!y)").unwrap_err(),
        "bad index in \"x!y\" in order file"
    );
}

#[test]
fn order_names() {
    assert_eq!(StaticOrder::parse("min-comm2"), Some(StaticOrder::MinComm2));
    assert_eq!(StaticOrder::parse("none"), Some(StaticOrder::Declared));
    assert_eq!(StaticOrder::parse("other"), None);
}

#[test]
fn inputs_come_before_what_reads_them() {
    let mut m = module(&["x", "y", "i"]);
    m.leaves[2].class = VarClass::Input;
    // y' = i
    let copy = FExpr::Eq(
        Box::new(FExpr::Var(1, true)),
        Box::new(FExpr::Var(2, false)),
    );
    m.trans = TransNode::Cmds(vec![FlatCmd {
        label: None,
        provenance: String::new(),
        guard: FExpr::tt(),
        constraint: copy,
    }]);
    for s in [
        StaticOrder::Simple,
        StaticOrder::MinSupp,
        StaticOrder::MinSupp2,
        StaticOrder::MinComm,
        StaticOrder::MinComm2,
    ] {
        m.components = vec![
            Component {
                owned: [0].into_iter().collect(),
                reads: [1].into_iter().collect(),
            },
            Component {
                owned: [1].into_iter().collect(),
                reads: [2].into_iter().collect(),
            },
        ];
        let order = compute_order(&m, s);
        let mut sorted = order.clone();
        sorted.sort();
        assert_eq!(sorted, vec![0, 1, 2]);
        let at = |l: u32| order.iter().position(|x| *x == l).unwrap();
        assert_eq!(at(2) + 1, at(1));
    }
}

#[test]
fn order_file_names_variables_and_elements() {
    let m = module(&["pc[a]", "pc[b]", "forks[a]", "forks[b]", "r.x", "r.y"]);
    assert_eq!(order_from_file(&m, "(\npc!2\nforks!1\n)").unwrap(), [1, 2, 0, 3, 4, 5]);
    assert_eq!(order_from_file(&m, "(r forks pc!+1)").unwrap(), [4, 5, 2, 3, 0, 1]);
    assert_eq!(order_from_file(&m, "pc!3 pc!0 r.y r.y").unwrap(), [5, 0, 1, 2, 3, 4]);
    assert_eq!(order_from_file(&m, "(r pc!)").unwrap_err(), "bad index in \"pc!\" in order file");
    assert_eq!(
        order_from_file(&m, "(a!b!99999999999999999999)").unwrap_err(),
        "bad index in \"a!b!99999999999999999999\" in order file"
    );
}
