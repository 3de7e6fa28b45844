use sal::bdd::{Mgr, NodeId, F, T};

#[test]
fn basic_ops() {
    let mut m = Mgr::new();
    let a = m.var(0);
    let b = m.var(2);
    let ab = m.and(a, b);
    let na = m.not(a);
    assert_eq!(m.and(ab, na), F);
    let aob = m.or(a, b);
    assert_eq!(m.or(aob, na), T);
}

#[test]
fn shift_roundtrip() {
    let mut m = Mgr::new();
    let a = m.var(0);
    let b = m.var(4);
    let ab = m.and(a, b);
    let shifted = m.shift(ab, 1);
    let back = m.shift(shifted, -1);
    assert!(m.same(ab, back));
}

#[test]
fn exists_quantifies() {
    let mut m = Mgr::new();
    let a = m.var(0);
    let b = m.var(2);
    let ab = m.and(a, b);
    let r = m.exists_where(ab, &|v| v == 0, 100);
    assert!(m.same(r, b));
}

#[test]
fn gc_keeps_roots_and_frees_garbage() {
    let mut m = Mgr::new();
    let a = m.var(0);
    let b = m.var(2);
    let keep = m.and(a, b);
    // create garbage
    for v in [4u32, 6, 8] {
        let x = m.var(v);
        let _garbage = m.xor(keep, x);
    }
    let before = m.node_count();
    m.gc(&vec![keep]);
    assert!(m.node_count() < before, "gc freed nothing");
    // the kept function still works
    assert!(m.value(keep, &|v| v == 0 || v == 2));
    assert!(!m.value(keep, &|v| v == 0));
}

#[test]
fn sift_preserves_functions() {
    // pseudo-random functions over 8 variables, checked against brute-force evaluation across
    // repeated reorderings
    let mut m = Mgr::new();
    let vars: Vec<u32> = (0..8).collect();
    for v in &vars {
        m.var(*v);
    }
    let mut fns: Vec<(NodeId, Vec<(u32, u32, u32)>)> = Vec::new();
    let mut seed = 0x9e3779b9u64;
    let mut rnd = move || {
        seed = seed
            .wrapping_mul(6364136223846793005)
            .wrapping_add(1442695040888963407);
        (seed >> 33) as u32
    };
    for _ in 0..25 {
        // random 3-term formula: (va op vb) op2 vc
        let (a, b, c) = (rnd() % 8, rnd() % 8, rnd() % 8);
        let (op1, op2) = (rnd() % 3, rnd() % 3);
        let x = m.var(a);
        let y = m.var(b);
        let z = m.var(c);
        let t1 = match op1 {
            0 => m.and(x, y),
            1 => m.or(x, y),
            _ => m.xor(x, y),
        };
        let t2 = match op2 {
            0 => m.and(t1, z),
            1 => m.or(t1, z),
            _ => m.xor(t1, z),
        };
        fns.push((t2, vec![(a, b, c), (op1, op2, 0)]));
    }
    // truth tables before
    let table = |m: &Mgr, f: NodeId| -> Vec<bool> {
        (0..256u32)
            .map(|bits| m.value(f, &|v| bits >> v & 1 == 1))
            .collect()
    };
    let before: Vec<Vec<bool>> = fns.iter().map(|(f, _)| table(&m, *f)).collect();
    for round in 0..3 {
        let roots: Vec<NodeId> = fns.iter().map(|(f, _)| *f).collect();
        m.reorder_now(&roots);
        for (i, (f, _)) in fns.iter().enumerate() {
            assert_eq!(
                before[i],
                table(&m, *f),
                "function {} changed after reorder round {}",
                i,
                round
            );
        }
        // interleave more operations
        let extra = {
            let a = m.var(round as u32 % 8);
            let (f0, _) = fns[round as usize % fns.len()];
            m.and(a, f0)
        };
        let _ = extra;
    }
    // shift still valid after reordering
    let a = m.var(0);
    let b = m.var(2);
    let ab = m.and(a, b);
    let sh = m.shift(ab, 1);
    let back = m.shift(sh, -1);
    assert!(m.same(ab, back));
}

#[test]
fn restriction_and_choice() {
    let mut m = Mgr::new();
    let a = m.var(0);
    let b = m.var(2);
    let x = m.xor(a, b);
    assert!(m.value(x, &|v| v == 0));
    assert!(!m.value(x, &|_| true));
    let i = m.ite(a, b, x);
    assert!(m.value(i, &|v| v == 2));
    let e = m.iff(a, a);
    assert_eq!(e, T);
}

#[test]
fn reordering_never_grows_the_diagram() {
    let mut m = Mgr::new();
    for v in 0..6 {
        m.var(v);
    }
    // (0 and 3) or (1 and 4) or (2 and 5) is large in this order
    let mut f = F;
    for v in 0..3 {
        let a = m.var(v);
        let b = m.var(v + 3);
        let ab = m.and(a, b);
        f = m.or(f, ab);
    }
    m.gc(&vec![f]);
    let before = m.node_count();
    m.reorder_now(&vec![f]);
    assert!(m.node_count() <= before);
    assert_eq!(m.reorder_count, 1);
    assert!(m.value(f, &|v| v == 1 || v == 4));
    assert!(!m.value(f, &|v| v == 1 || v == 3));
    // nothing happens while reordering is off
    m.reorder_if_needed(&vec![f]);
    assert_eq!(m.reorder_count, 1);
}
