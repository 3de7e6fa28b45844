use sal::ctype::CType;
use sal::fexpr::{FExpr, LeafType};
use sal::num::Int;
use sal::types::TypeId;
use sal::value::Value;

fn range(lo: i64, hi: i64) -> CType {
    CType::Range(Int::from_i64(lo), Int::from_i64(hi))
}

fn id() -> TypeId {
    TypeId { ctx: "c".into(), name: "T".into() }
}

#[test]
fn sizes() {
    assert_eq!(CType::Bool.cardinality(), Some(2));
    assert_eq!(range(3, 1).cardinality(), Some(0));
    assert_eq!(CType::Tuple(vec![range(0, 2), CType::Bool]).cardinality(), Some(6));
    let a = CType::Array(Box::new(range(1, 3)), Box::new(CType::Bool));
    assert_eq!(a.cardinality(), Some(8));
    let d = CType::Data(id(), vec![("nil".into(), vec![]), ("one".into(), vec![range(0, 4)])]);
    assert_eq!(d.cardinality(), Some(6));
    assert!(!CType::Real.is_finite());
    let wide = CType::Array(Box::new(range(1, 64)), Box::new(CType::Bool));
    assert_eq!(wide.cardinality(), None);
    let still = CType::Fun(Box::new(range(1, 1_000_000)), Box::new(range(7, 7)));
    assert_eq!(still.cardinality(), Some(1));
}

#[test]
fn lists_and_places() {
    let types = vec![
        CType::Bool,
        range(-1, 2),
        CType::Scalar(id(), vec!["a".into(), "b".into()]),
        CType::Tuple(vec![range(0, 2), CType::Bool]),
        CType::Record(vec![("x".into(), CType::Bool), ("y".into(), range(5, 6))]),
        CType::Array(Box::new(CType::Bool), Box::new(range(0, 2))),
        CType::Data(id(), vec![("nil".into(), vec![]), ("one".into(), vec![CType::Bool])]),
    ];
    for t in &types {
        let vs = t.enumerate().unwrap();
        assert_eq!(vs.len() as u64, t.cardinality().unwrap());
        for (i, v) in vs.iter().enumerate() {
            assert_eq!(t.index_of(v), Some(i));
        }
    }
    let vs = types[3].enumerate().unwrap();
    assert!(vs[1].same(&Value::Tuple(vec![Value::integer(0), Value::Bool(true)])));
    assert!(vs[2].same(&Value::Tuple(vec![Value::integer(1), Value::Bool(false)])));
    assert!(CType::Real.enumerate().is_none());
    assert_eq!(range(0, 3).index_of(&Value::integer(-1)), None);
}

#[test]
fn leaf_types() {
    assert!(matches!(LeafType::from_ctype(&CType::Bool), Some(LeafType::Bool)));
    assert!(matches!(LeafType::from_ctype(&range(0, 1)), Some(LeafType::Range(_, _))));
    assert!(LeafType::from_ctype(&CType::Tuple(vec![])).is_none());
}

#[test]
fn leaves_of_expressions() {
    let e = FExpr::And(vec![
        FExpr::Var(1, false),
        FExpr::Eq(Box::new(FExpr::Var(2, true)), Box::new(FExpr::Var(1, true))),
    ]);
    let (mut cur, mut next) = Default::default();
    e.leaves(&mut cur, &mut next);
    assert_eq!(cur.into_iter().collect::<Vec<u32>>(), vec![1]);
    assert_eq!(next.into_iter().collect::<Vec<u32>>(), vec![1, 2]);
}
