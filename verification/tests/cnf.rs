use sal::cnf::{ff, flip, tt, Cnf, Lit};
use sal::sat::solve;

fn pos(var: usize) -> Lit {
    Lit { var, neg: false }
}

fn neg(var: usize) -> Lit {
    Lit { var, neg: true }
}

#[test]
fn a_new_formula_has_the_constant() {
    let c = Cnf::new();
    assert_eq!(c.size(), 1);
    assert_eq!(*c.clauses(), vec![vec![tt()]]);
}

#[test]
fn conjunctions_are_normal_and_shared() {
    let mut c = Cnf::new();
    let a = c.fresh();
    let b = c.fresh();
    assert_eq!((a, b), (pos(1), pos(2)));
    // repeats and the constant go, and the order does not matter
    let g = c.and_lits(vec![b, a, b, tt()]);
    assert_eq!(g, pos(3));
    assert_eq!(c.and_lits(vec![a, b]), g);
    assert_eq!(c.and(b, a), g);
    assert_eq!(
        *c.clauses(),
        vec![vec![tt()], vec![neg(3), a], vec![neg(3), b], vec![neg(1), neg(2), pos(3)]]
    );
    // a negation comes before a literal
    assert_eq!(c.and_lits(vec![a, flip(b)]), pos(4));
    assert_eq!(c.clauses()[4], vec![neg(4), neg(2)]);
    assert_eq!(c.and_lits(vec![a, ff()]), ff());
    assert_eq!(c.and_lits(vec![tt(), tt()]), tt());
    assert_eq!(c.and_lits(vec![tt(), b, b]), b);
    assert_eq!(c.size(), 5);
}

#[test]
fn disjunctions_are_negated_conjunctions() {
    let mut c = Cnf::new();
    let a = c.fresh();
    let b = c.fresh();
    let g = c.or_lits(vec![a, b]);
    assert_eq!(g, neg(3));
    assert_eq!(c.or(b, a), g);
    assert_eq!(c.and(flip(a), flip(b)), flip(g));
    assert_eq!(c.or_lits(vec![]), ff());
    assert_eq!(c.or_lits(vec![a, tt()]), tt());
}

#[test]
fn equalities_are_shared() {
    let mut c = Cnf::new();
    let a = c.fresh();
    let b = c.fresh();
    let e = c.iff_lit(a, b);
    let n = c.size();
    let clauses = c.clauses().len();
    assert_eq!(c.iff_lit(b, a), e);
    assert_eq!((c.size(), c.clauses().len()), (n, clauses));
    assert_eq!(c.iff_lit(a, tt()), a);
}

#[test]
fn solutions_meet_the_clauses() {
    let mut c = Cnf::new();
    let a = c.fresh();
    let b = c.fresh();
    let e = c.iff_lit(a, b);
    let m = solve(&c, &vec![e, flip(a)]).unwrap();
    assert_eq!(m.len(), c.size());
    assert!(m[0] && !m[a.var] && !m[b.var]);
    assert!(solve(&c, &vec![e, a, flip(b)]).is_none());
}
