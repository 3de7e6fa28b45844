//! How the base modules of a composition are arranged, and how much their leaves weigh.

use crate::fexpr::{fe_leaves, FExpr, LeafId, FE};
use crate::flat::{
    branch_models, cmd_models, some, tn_models, Cmd, Component, FlatCmd, FlatModule, Sys, TransNode, TN,
};
use std::collections::BTreeSet;
use vstd::prelude::*;

verus! {

/// How many numbers below `n` have the property.
pub open spec fn tally(f: spec_fn(int) -> bool, n: int) -> nat
    decreases n,
{
    if n <= 0 {
        0
    } else {
        tally(f, n - 1) + if f(n - 1) {
            1nat
        } else {
            0nat
        }
    }
}

/// The condition relates the next value of `x` to the value of another leaf `l`.
pub open spec fn ties(e: FE, x: LeafId, l: LeafId) -> bool {
    x != l && fe_leaves(e, true).contains(x) && fe_leaves(e, false).contains(l)
}

/// A conjunct of the condition relates the next value of `x` to the value of `l`.
pub open spec fn conjunct_ties(e: FE, x: LeafId, l: LeafId) -> bool
    decreases e,
{
    match e {
        FE::And(es) => some(conjuncts_tie(es, x, l)),
        _ => ties(e, x, l),
    }
}

/// For which of the conditions that holds.
pub open spec fn conjuncts_tie(es: Seq<FE>, x: LeafId, l: LeafId) -> Seq<bool>
    decreases es,
{
    Seq::new(
        es.len(),
        |i: int|
            if 0 <= i < es.len() {
                conjunct_ties(es[i], x, l)
            } else {
                arbitrary()
            },
    )
}

/// The command relates the next value of `x` to the value of `l`: in its guard, in a conjunct of its constraint, or
/// because it gives `x` a value where its guard reads `l`.
pub open spec fn command_ties(c: Cmd, x: LeafId, l: LeafId) -> bool {
    ||| conjunct_ties(c.constraint, x, l)
    ||| ties(c.guard, x, l)
    ||| x != l && fe_leaves(c.constraint, true).contains(x) && fe_leaves(c.guard, false).contains(l)
}

/// One of the commands relates the next value of `x` to the value of `l`.
pub open spec fn some_command_ties(cs: Seq<Cmd>, x: LeafId, l: LeafId) -> bool {
    exists|i: int| 0 <= i < cs.len() && command_ties(#[trigger] cs[i], x, l)
}

/// A command of the relation relates the next value of `x` to the value of `l`.
pub open spec fn node_ties(n: TN, x: LeafId, l: LeafId) -> bool
    decreases n,
{
    match n {
        TN::True => false,
        TN::Cmds(cs) => some_command_ties(cs, x, l),
        TN::All(ns) => some(nodes_tie(ns, x, l)),
        TN::Interleave(bs) => some(branches_tie(bs, x, l)),
    }
}

/// For which of the relations that holds.
pub open spec fn nodes_tie(ns: Seq<TN>, x: LeafId, l: LeafId) -> Seq<bool>
    decreases ns,
{
    Seq::new(
        ns.len(),
        |i: int|
            if 0 <= i < ns.len() {
                node_ties(ns[i], x, l)
            } else {
                arbitrary()
            },
    )
}

/// For which of the branches that holds.
pub open spec fn branches_tie(bs: Seq<(TN, FE)>, x: LeafId, l: LeafId) -> Seq<bool>
    decreases bs,
{
    Seq::new(
        bs.len(),
        |i: int|
            if 0 <= i < bs.len() {
                node_ties(bs[i].0, x, l)
            } else {
                arbitrary()
            },
    )
}

/// The next value of `x` depends on the value of another leaf `l`.
pub open spec fn depends(sys: Sys, x: LeafId, l: LeafId) -> bool {
    node_ties(sys.trans, x, l) || exists|i: int| 0 <= i < sys.trans_defs.len() && ties(#[trigger] sys.trans_defs[i], x, l)
}

/// A square table.
pub open spec fn square(d: Seq<Vec<bool>>, n: nat) -> bool {
    d.len() == n && n <= u32::MAX && forall|i: int| 0 <= i < n ==> (#[trigger] d[i])@.len() == n
}

/// The table has what another had, and the pairs of `f`.
pub open spec fn grown(d: Seq<Vec<bool>>, o: Seq<Vec<bool>>, n: nat, f: spec_fn(LeafId, LeafId) -> bool) -> bool {
    &&& square(d, n)
    &&& square(o, n)
    &&& forall|x: int, l: int|
        0 <= x < n && 0 <= l < n ==> #[trigger] d[x]@[l] == (o[x]@[l] || f(x as LeafId, l as LeafId))
}

/// Notes that each leaf of `next` depends on each other leaf of `cur`.
fn depend(deps: &mut Vec<Vec<bool>>, next: &BTreeSet<LeafId>, cur: &BTreeSet<LeafId>)
    requires
        square(old(deps)@, old(deps)@.len()),
    ensures
        grown(
            final(deps)@,
            old(deps)@,
            old(deps)@.len(),
            |x: LeafId, l: LeafId| x != l && next@.contains(x) && cur@.contains(l),
        ),
{
    let n: usize = deps.len();
    let ghost o = deps@;
    let ghost f = |x: LeafId, l: LeafId| x != l && next@.contains(x) && cur@.contains(l);
    let mut i: usize = 0;
    while i < n
        invariant
            i <= n <= u32::MAX,
            n == o.len(),
            o == old(deps)@,
            square(o, n as nat),
            square(deps@, n as nat),
            f == (|x: LeafId, l: LeafId| x != l && next@.contains(x) && cur@.contains(l)),
            forall|x: int, l: int|
                0 <= x < i && 0 <= l < n ==> #[trigger] deps@[x]@[l] == (o[x]@[l] || f(x as LeafId, l as LeafId)),
            forall|x: int| i <= x < n ==> #[trigger] deps@[x] == o[x],
        decreases n - i,
    {
        let x = i as LeafId;
        if next.contains(&x) {
            let mut row: Vec<bool> = Vec::new();
            let mut j: usize = 0;
            while j < n
                invariant
                    j <= n <= u32::MAX,
                    i < n,
                    n == o.len(),
                    x == i,
                    next@.contains(x),
                    square(deps@, n as nat),
                    deps@[i as int] == o[i as int],
                    row@.len() == j,
                    f == (|x: LeafId, l: LeafId| x != l && next@.contains(x) && cur@.contains(l)),
                    forall|l: int| 0 <= l < j ==> #[trigger] row@[l] == (o[i as int]@[l] || f(x, l as LeafId)),
                decreases n - j,
            {
                row.push(deps[i][j] || (j != i && cur.contains(&(j as LeafId))));
                j += 1;
            }
            let ghost before = deps@;
            deps.set(i, row);
            proof {
                assert forall|y: int, l: int| 0 <= y < i + 1 && 0 <= l < n implies #[trigger] deps@[y]@[l] == (
                o[y]@[l] || f(y as LeafId, l as LeafId)) by {
                    if y < i {
                        assert(deps@[y] == before[y]);
                        assert(before[y]@[l] == (o[y]@[l] || f(y as LeafId, l as LeafId)));
                    }
                }
            }
        }
        i += 1;
    }
}

fn depend_expr(deps: &mut Vec<Vec<bool>>, e: &FExpr)
    requires
        square(old(deps)@, old(deps)@.len()),
    ensures
        grown(final(deps)@, old(deps)@, old(deps)@.len(), |x: LeafId, l: LeafId| ties(e.model(), x, l)),
{
    let ghost o = deps@;
    let mut cur: BTreeSet<LeafId> = BTreeSet::new();
    let mut next: BTreeSet<LeafId> = BTreeSet::new();
    e.leaves(&mut cur, &mut next);
    depend(deps, &next, &cur);
    proof {
        let m = e.model();
        assert(cur@ =~= fe_leaves(m, false));
        assert(next@ =~= fe_leaves(m, true));
        let f = |x: LeafId, l: LeafId| ties(m, x, l);
        assert forall|x: int, l: int| 0 <= x < o.len() && 0 <= l < o.len() implies #[trigger] deps@[x]@[l] == (
        o[x]@[l] || f(x as LeafId, l as LeafId)) by {}
    }
}

fn depend_conjuncts(deps: &mut Vec<Vec<bool>>, e: &FExpr)
    requires
        square(old(deps)@, old(deps)@.len()),
    ensures
        grown(final(deps)@, old(deps)@, old(deps)@.len(), |x: LeafId, l: LeafId| conjunct_ties(e.model(), x, l)),
    decreases e,
{
    let ghost o = deps@;
    let ghost n = o.len();
    match e {
        FExpr::And(es) => {
            let ghost ms = crate::fexpr::fe_models(es@);
            let mut i: usize = 0;
            while i < es.len()
                invariant
                    i <= es@.len(),
                    decreases_to!(e => es),
                    n == o.len(),
                    square(o, n),
                    square(deps@, n),
                    deps@.len() == n,
                    ms == crate::fexpr::fe_models(es@),
                    forall|x: int, l: int|
                        0 <= x < n && 0 <= l < n ==> #[trigger] deps@[x]@[l] == (o[x]@[l] || exists|k: int|
                            0 <= k < i && conjunct_ties(#[trigger] ms[k], x as LeafId, l as LeafId)),
                decreases es.len() - i,
            {
                let ghost b = deps@;
                depend_conjuncts(deps, &es[i]);
                proof {
                    assert(ms[i as int] == es@[i as int].model());
                    assert forall|x: int, l: int| 0 <= x < n && 0 <= l < n implies #[trigger] deps@[x]@[l] == (
                    o[x]@[l] || exists|k: int|
                        0 <= k < i + 1 && conjunct_ties(#[trigger] ms[k], x as LeafId, l as LeafId)) by {
                        assert(deps@[x]@[l] == (b[x]@[l] || conjunct_ties(
                            ms[i as int],
                            x as LeafId,
                            l as LeafId,
                        )));
                        assert(b[x]@[l] == (o[x]@[l] || exists|k: int|
                            0 <= k < i && conjunct_ties(#[trigger] ms[k], x as LeafId, l as LeafId)));
                        if exists|k: int| 0 <= k < i + 1 && conjunct_ties(#[trigger] ms[k], x as LeafId, l as LeafId) {
                            let k = choose|k: int|
                                0 <= k < i + 1 && conjunct_ties(#[trigger] ms[k], x as LeafId, l as LeafId);
                            assert(k < i || k == i);
                        }
                    }
                }
                i += 1;
            }
            proof {
                let f = |x: LeafId, l: LeafId| conjunct_ties(e.model(), x, l);
                assert(e.model() == FE::And(ms));
                assert forall|x: int, l: int| 0 <= x < n && 0 <= l < n implies #[trigger] deps@[x]@[l] == (o[x]@[l]
                    || f(x as LeafId, l as LeafId)) by {
                    let bs = conjuncts_tie(ms, x as LeafId, l as LeafId);
                    if exists|k: int| 0 <= k < ms.len() && conjunct_ties(#[trigger] ms[k], x as LeafId, l as LeafId) {
                        let k = choose|k: int|
                            0 <= k < ms.len() && conjunct_ties(#[trigger] ms[k], x as LeafId, l as LeafId);
                        assert(bs[k]);
                    }
                    if some(bs) {
                        let k = choose|k: int| 0 <= k < bs.len() && #[trigger] bs[k];
                        assert(conjunct_ties(ms[k], x as LeafId, l as LeafId));
                    }
                }
            }
        },
        _ => {
            depend_expr(deps, e);
            proof {
                let f = |x: LeafId, l: LeafId| conjunct_ties(e.model(), x, l);
                assert forall|x: int, l: int| 0 <= x < n && 0 <= l < n implies #[trigger] deps@[x]@[l] == (o[x]@[l]
                    || f(x as LeafId, l as LeafId)) by {
                    assert(conjunct_ties(e.model(), x as LeafId, l as LeafId) == ties(
                        e.model(),
                        x as LeafId,
                        l as LeafId,
                    ));
                }
            }
        },
    }
}

fn depend_command(deps: &mut Vec<Vec<bool>>, c: &FlatCmd)
    requires
        square(old(deps)@, old(deps)@.len()),
    ensures
        grown(final(deps)@, old(deps)@, old(deps)@.len(), |x: LeafId, l: LeafId| command_ties(c.model(), x, l)),
{
    let ghost o = deps@;
    let ghost n = o.len();
    let ghost m = c.model();
    depend_conjuncts(deps, &c.constraint);
    let ghost b = deps@;
    depend_expr(deps, &c.guard);
    let ghost d = deps@;
    let mut gcur: BTreeSet<LeafId> = BTreeSet::new();
    let mut gnext: BTreeSet<LeafId> = BTreeSet::new();
    c.guard.leaves(&mut gcur, &mut gnext);
    let mut ccur: BTreeSet<LeafId> = BTreeSet::new();
    let mut cnext: BTreeSet<LeafId> = BTreeSet::new();
    c.constraint.leaves(&mut ccur, &mut cnext);
    depend(deps, &cnext, &gcur);
    proof {
        assert(gcur@ =~= fe_leaves(m.guard, false));
        assert(cnext@ =~= fe_leaves(m.constraint, true));
        let f = |x: LeafId, l: LeafId| command_ties(m, x, l);
        assert forall|x: int, l: int| 0 <= x < n && 0 <= l < n implies #[trigger] deps@[x]@[l] == (o[x]@[l] || f(
            x as LeafId,
            l as LeafId,
        )) by {
            assert(d[x]@[l] == (b[x]@[l] || ties(m.guard, x as LeafId, l as LeafId)));
            assert(b[x]@[l] == (o[x]@[l] || conjunct_ties(m.constraint, x as LeafId, l as LeafId)));
        }
    }
}

/// Notes the dependencies of a relation.
fn depend_node(deps: &mut Vec<Vec<bool>>, node: &TransNode)
    requires
        square(old(deps)@, old(deps)@.len()),
    ensures
        grown(final(deps)@, old(deps)@, old(deps)@.len(), |x: LeafId, l: LeafId| node_ties(node.model(), x, l)),
    decreases node,
{
    let ghost o = deps@;
    let ghost n = o.len();
    match node {
        TransNode::True => {
            proof {
                let f = |x: LeafId, l: LeafId| node_ties(node.model(), x, l);
                assert(node.model() == TN::True);
                assert forall|x: int, l: int| 0 <= x < n && 0 <= l < n implies #[trigger] deps@[x]@[l] == (o[x]@[l]
                    || f(x as LeafId, l as LeafId)) by {
                    assert(!node_ties(TN::True, x as LeafId, l as LeafId));
                }
            }
        },
        TransNode::Cmds(cs) => {
            let ghost ms = cmd_models(cs@);
            let mut i: usize = 0;
            while i < cs.len()
                invariant
                    i <= cs@.len(),
                    n == o.len(),
                    square(o, n),
                    square(deps@, n),
                    deps@.len() == n,
                    ms == cmd_models(cs@),
                    forall|x: int, l: int|
                        0 <= x < n && 0 <= l < n ==> #[trigger] deps@[x]@[l] == (o[x]@[l] || exists|k: int|
                            0 <= k < i && command_ties(#[trigger] ms[k], x as LeafId, l as LeafId)),
                decreases cs.len() - i,
            {
                let ghost b = deps@;
                depend_command(deps, &cs[i]);
                proof {
                    assert(ms[i as int] == cs@[i as int].model());
                    assert forall|x: int, l: int| 0 <= x < n && 0 <= l < n implies #[trigger] deps@[x]@[l] == (
                    o[x]@[l] || exists|k: int|
                        0 <= k < i + 1 && command_ties(#[trigger] ms[k], x as LeafId, l as LeafId)) by {
                        assert(deps@[x]@[l] == (b[x]@[l] || command_ties(
                            ms[i as int],
                            x as LeafId,
                            l as LeafId,
                        )));
                        assert(b[x]@[l] == (o[x]@[l] || exists|k: int|
                            0 <= k < i && command_ties(#[trigger] ms[k], x as LeafId, l as LeafId)));
                        if exists|k: int| 0 <= k < i + 1 && command_ties(#[trigger] ms[k], x as LeafId, l as LeafId) {
                            let k = choose|k: int|
                                0 <= k < i + 1 && command_ties(#[trigger] ms[k], x as LeafId, l as LeafId);
                            assert(k < i || k == i);
                        }
                    }
                }
                i += 1;
            }
            proof {
                let f = |x: LeafId, l: LeafId| node_ties(node.model(), x, l);
                assert(node.model() == TN::Cmds(ms));
                assert forall|x: int, l: int| 0 <= x < n && 0 <= l < n implies #[trigger] deps@[x]@[l] == (o[x]@[l]
                    || f(x as LeafId, l as LeafId)) by {
                    assert(deps@[x]@[l] == (o[x]@[l] || exists|k: int|
                        0 <= k < ms.len() && command_ties(#[trigger] ms[k], x as LeafId, l as LeafId)));
                    assert(node_ties(TN::Cmds(ms), x as LeafId, l as LeafId) == some_command_ties(
                        ms,
                        x as LeafId,
                        l as LeafId,
                    ));
                }
            }
        },
        TransNode::All(ns) => {
            let ghost ms = tn_models(ns@);
            let mut i: usize = 0;
            while i < ns.len()
                invariant
                    i <= ns@.len(),
                    decreases_to!(node => ns),
                    n == o.len(),
                    square(o, n),
                    square(deps@, n),
                    deps@.len() == n,
                    ms == tn_models(ns@),
                    forall|x: int, l: int|
                        0 <= x < n && 0 <= l < n ==> #[trigger] deps@[x]@[l] == (o[x]@[l] || exists|k: int|
                            0 <= k < i && node_ties(#[trigger] ms[k], x as LeafId, l as LeafId)),
                decreases ns.len() - i,
            {
                let ghost b = deps@;
                depend_node(deps, &ns[i]);
                proof {
                    assert(ms[i as int] == ns@[i as int].model());
                    assert forall|x: int, l: int| 0 <= x < n && 0 <= l < n implies #[trigger] deps@[x]@[l] == (
                    o[x]@[l] || exists|k: int|
                        0 <= k < i + 1 && node_ties(#[trigger] ms[k], x as LeafId, l as LeafId)) by {
                        assert(deps@[x]@[l] == (b[x]@[l] || node_ties(ms[i as int], x as LeafId, l as LeafId)));
                        assert(b[x]@[l] == (o[x]@[l] || exists|k: int|
                            0 <= k < i && node_ties(#[trigger] ms[k], x as LeafId, l as LeafId)));
                        if exists|k: int| 0 <= k < i + 1 && node_ties(#[trigger] ms[k], x as LeafId, l as LeafId) {
                            let k = choose|k: int|
                                0 <= k < i + 1 && node_ties(#[trigger] ms[k], x as LeafId, l as LeafId);
                            assert(k < i || k == i);
                        }
                    }
                }
                i += 1;
            }
            proof {
                let f = |x: LeafId, l: LeafId| node_ties(node.model(), x, l);
                assert(node.model() == TN::All(ms));
                assert forall|x: int, l: int| 0 <= x < n && 0 <= l < n implies #[trigger] deps@[x]@[l] == (o[x]@[l]
                    || f(x as LeafId, l as LeafId)) by {
                    let bs = nodes_tie(ms, x as LeafId, l as LeafId);
                    if exists|k: int| 0 <= k < ms.len() && node_ties(#[trigger] ms[k], x as LeafId, l as LeafId) {
                        let k = choose|k: int|
                            0 <= k < ms.len() && node_ties(#[trigger] ms[k], x as LeafId, l as LeafId);
                        assert(bs[k]);
                    }
                    if some(bs) {
                        let k = choose|k: int| 0 <= k < bs.len() && #[trigger] bs[k];
                        assert(node_ties(ms[k], x as LeafId, l as LeafId));
                    }
                }
            }
        },
        TransNode::Interleave(bs) => {
            let ghost ms = branch_models(bs@);
            let mut i: usize = 0;
            while i < bs.len()
                invariant
                    i <= bs@.len(),
                    decreases_to!(node => bs),
                    n == o.len(),
                    square(o, n),
                    square(deps@, n),
                    deps@.len() == n,
                    ms == branch_models(bs@),
                    forall|x: int, l: int|
                        0 <= x < n && 0 <= l < n ==> #[trigger] deps@[x]@[l] == (o[x]@[l] || exists|k: int|
                            0 <= k < i && node_ties((#[trigger] ms[k]).0, x as LeafId, l as LeafId)),
                decreases bs.len() - i,
            {
                let ghost b = deps@;
                depend_node(deps, &bs[i].0);
                proof {
                    assert(ms[i as int].0 == bs@[i as int].0.model());
                    assert forall|x: int, l: int| 0 <= x < n && 0 <= l < n implies #[trigger] deps@[x]@[l] == (
                    o[x]@[l] || exists|k: int|
                        0 <= k < i + 1 && node_ties((#[trigger] ms[k]).0, x as LeafId, l as LeafId)) by {
                        assert(deps@[x]@[l] == (b[x]@[l] || node_ties(ms[i as int].0, x as LeafId, l as LeafId)));
                        assert(b[x]@[l] == (o[x]@[l] || exists|k: int|
                            0 <= k < i && node_ties((#[trigger] ms[k]).0, x as LeafId, l as LeafId)));
                        if exists|k: int|
                            0 <= k < i + 1 && node_ties((#[trigger] ms[k]).0, x as LeafId, l as LeafId) {
                            let k = choose|k: int|
                                0 <= k < i + 1 && node_ties((#[trigger] ms[k]).0, x as LeafId, l as LeafId);
                            assert(k < i || k == i);
                        }
                    }
                }
                i += 1;
            }
            proof {
                let f = |x: LeafId, l: LeafId| node_ties(node.model(), x, l);
                assert(node.model() == TN::Interleave(ms));
                assert forall|x: int, l: int| 0 <= x < n && 0 <= l < n implies #[trigger] deps@[x]@[l] == (o[x]@[l]
                    || f(x as LeafId, l as LeafId)) by {
                    let ts = branches_tie(ms, x as LeafId, l as LeafId);
                    if exists|k: int| 0 <= k < ms.len() && node_ties((#[trigger] ms[k]).0, x as LeafId, l as LeafId) {
                        let k = choose|k: int|
                            0 <= k < ms.len() && node_ties((#[trigger] ms[k]).0, x as LeafId, l as LeafId);
                        assert(ts[k]);
                    }
                    if some(ts) {
                        let k = choose|k: int| 0 <= k < ts.len() && #[trigger] ts[k];
                        assert(node_ties(ms[k].0, x as LeafId, l as LeafId));
                    }
                }
            }
        },
    }
}

/// The table says which leaf depends on which.
pub open spec fn tabulates(d: Seq<Vec<bool>>, sys: Sys) -> bool {
    &&& square(d, sys.leaves.len())
    &&& forall|x: int, l: int|
        0 <= x < d.len() && 0 <= l < d.len() ==> #[trigger] d[x]@[l] == depends(sys, x as LeafId, l as LeafId)
}

fn clear_row(n: usize) -> (r: Vec<bool>)
    ensures
        r@.len() == n,
        forall|i: int| 0 <= i < n ==> !#[trigger] r@[i],
{
    let mut out: Vec<bool> = Vec::new();
    while out.len() < n
        invariant
            out@.len() <= n,
            forall|k: int| 0 <= k < out@.len() ==> !#[trigger] out@[k],
        decreases n - out.len(),
    {
        out.push(false);
    }
    out
}

/// Tabulates which leaf depends on which.
pub fn dependency_graph(flat: &FlatModule) -> (r: Vec<Vec<bool>>)
    requires
        flat.leaves@.len() <= u32::MAX,
    ensures
        tabulates(r@, flat.sys()),
{
    let ghost sys = flat.sys();
    let n: usize = flat.leaves.len();
    let mut deps: Vec<Vec<bool>> = Vec::new();
    while deps.len() < n
        invariant
            deps@.len() <= n,
            forall|k: int| 0 <= k < deps@.len() ==> (#[trigger] deps@[k])@.len() == n,
            forall|k: int, l: int| 0 <= k < deps@.len() && 0 <= l < n ==> !#[trigger] deps@[k]@[l],
        decreases n - deps.len(),
    {
        let row = clear_row(n);
        let ghost before = deps@;
        deps.push(row);
        assert forall|k: int, l: int| 0 <= k < deps@.len() && 0 <= l < n implies !#[trigger] deps@[k]@[l] by {
            if k < before.len() {
                assert(deps@[k] == before[k]);
                assert(!before[k]@[l]);
            }
        }
    }
    let ghost o = deps@;
    depend_node(&mut deps, &flat.trans);
    let ghost ms = sys.trans_defs;
    let mut i: usize = 0;
    proof {
        assert forall|x: int, l: int| 0 <= x < n && 0 <= l < n implies #[trigger] deps@[x]@[l] == (node_ties(
            sys.trans,
            x as LeafId,
            l as LeafId,
        ) || exists|k: int| 0 <= k < 0 && ties(#[trigger] ms[k], x as LeafId, l as LeafId)) by {
            assert(!o[x]@[l]);
        }
    }
    while i < flat.trans_defs.len()
        invariant
            i <= flat.trans_defs@.len(),
            sys == flat.sys(),
            ms == crate::fexpr::fe_models(flat.trans_defs@),
            square(deps@, n as nat),
            deps@.len() == n,
            forall|x: int, l: int|
                0 <= x < n && 0 <= l < n ==> #[trigger] deps@[x]@[l] == (node_ties(
                    sys.trans,
                    x as LeafId,
                    l as LeafId,
                ) || exists|k: int| 0 <= k < i && ties(#[trigger] ms[k], x as LeafId, l as LeafId)),
        decreases flat.trans_defs.len() - i,
    {
        let ghost b = deps@;
        depend_expr(&mut deps, &flat.trans_defs[i]);
        proof {
            assert(ms[i as int] == flat.trans_defs@[i as int].model());
            assert forall|x: int, l: int| 0 <= x < n && 0 <= l < n implies #[trigger] deps@[x]@[l] == (node_ties(
                sys.trans,
                x as LeafId,
                l as LeafId,
            ) || exists|k: int| 0 <= k < i + 1 && ties(#[trigger] ms[k], x as LeafId, l as LeafId)) by {
                assert(deps@[x]@[l] == (b[x]@[l] || ties(ms[i as int], x as LeafId, l as LeafId)));
                assert(b[x]@[l] == (node_ties(sys.trans, x as LeafId, l as LeafId) || exists|k: int|
                    0 <= k < i && ties(#[trigger] ms[k], x as LeafId, l as LeafId)));
                if exists|k: int| 0 <= k < i + 1 && ties(#[trigger] ms[k], x as LeafId, l as LeafId) {
                    let k = choose|k: int| 0 <= k < i + 1 && ties(#[trigger] ms[k], x as LeafId, l as LeafId);
                    assert(k < i || k == i);
                }
            }
        }
        i += 1;
    }
    deps
}

/// How much a leaf weighs: how many others read it, over how many it reads.
pub open spec fn weight(sys: Sys, l: LeafId) -> (nat, nat) {
    (
        tally(|x: int| depends(sys, x as LeafId, l), sys.leaves.len() as int),
        tally(|x: int| depends(sys, l, x as LeafId), sys.leaves.len() as int),
    )
}

/// The first weight is greater: the quotient of both counts, or more than any quotient where the second count is zero.
pub open spec fn heavier(a: (nat, nat), b: (nat, nat)) -> bool {
    b.1 != 0 && (a.1 == 0 || a.0 * b.1 > b.0 * a.1)
}

proof fn tally_same(f: spec_fn(int) -> bool, g: spec_fn(int) -> bool, n: int)
    requires
        forall|i: int| 0 <= i < n ==> #[trigger] f(i) == g(i),
    ensures
        tally(f, n) == tally(g, n),
    decreases n,
{
    if n > 0 {
        tally_same(f, g, n - 1);
        assert(f(n - 1) == g(n - 1));
    }
}

proof fn tally_most(f: spec_fn(int) -> bool, n: int)
    requires
        n >= 0,
    ensures
        tally(f, n) <= n,
    decreases n,
{
    if n > 0 {
        tally_most(f, n - 1);
    }
}

/// The weights of all leaves.
pub open spec fn weighs(w: Seq<(usize, usize)>, sys: Sys) -> bool {
    &&& w.len() == sys.leaves.len()
    &&& forall|l: int|
        0 <= l < w.len() ==> ((#[trigger] w[l]).0 as nat, w[l].1 as nat) == weight(sys, l as LeafId)
}

/// Weighs the leaves.
pub fn weights(deps: &Vec<Vec<bool>>, Ghost(sys): Ghost<Sys>) -> (r: Vec<(usize, usize)>)
    requires
        tabulates(deps@, sys),
    ensures
        weighs(r@, sys),
{
    let n: usize = deps.len();
    let mut out: Vec<(usize, usize)> = Vec::new();
    while out.len() < n
        invariant
            out@.len() <= n,
            n == deps@.len(),
            tabulates(deps@, sys),
            forall|l: int|
                0 <= l < out@.len() ==> ((#[trigger] out@[l]).0 as nat, out@[l].1 as nat) == weight(sys, l as LeafId),
        decreases n - out.len(),
    {
        let i: usize = out.len();
        let ghost f = |x: int| depends(sys, x as LeafId, i as LeafId);
        let ghost g = |x: int| depends(sys, i as LeafId, x as LeafId);
        let mut relevance: usize = 0;
        let mut support: usize = 0;
        let mut j: usize = 0;
        while j < n
            invariant
                i < n,
                j <= n,
                n == deps@.len(),
                tabulates(deps@, sys),
                relevance <= j,
                support <= j,
                f == (|x: int| depends(sys, x as LeafId, i as LeafId)),
                g == (|x: int| depends(sys, i as LeafId, x as LeafId)),
                relevance == tally(f, j as int),
                support == tally(g, j as int),
            decreases n - j,
        {
            assert(deps@[i as int]@[j as int] == g(j as int));
            assert(deps@[j as int]@[i as int] == f(j as int));
            if deps[i][j] {
                support += 1;
            }
            if deps[j][i] {
                relevance += 1;
            }
            j += 1;
        }
        out.push((relevance, support));
    }
    out
}

fn is_heavier(a: (usize, usize), b: (usize, usize)) -> (r: bool)
    ensures
        r == heavier((a.0 as nat, a.1 as nat), (b.0 as nat, b.1 as nat)),
{
    if b.1 == 0 {
        false
    } else if a.1 == 0 {
        true
    } else {
        proof {
            assert(a.0 * b.1 <= 0xffff_ffff_ffff_ffff * 0xffff_ffff_ffff_ffff) by (nonlinear_arith)
                requires
                    0 <= a.0 <= 0xffff_ffff_ffff_ffff,
                    0 <= b.1 <= 0xffff_ffff_ffff_ffff,
            ;
            assert(b.0 * a.1 <= 0xffff_ffff_ffff_ffff * 0xffff_ffff_ffff_ffff) by (nonlinear_arith)
                requires
                    0 <= b.0 <= 0xffff_ffff_ffff_ffff,
                    0 <= a.1 <= 0xffff_ffff_ffff_ffff,
            ;
        }
        (a.0 as u128) * (b.1 as u128) > (b.0 as u128) * (a.1 as u128)
    }
}

/// Where a leaf goes among sorted ones, from place `at` to the front: behind those that weigh as much.
pub open spec fn spot(sys: Sys, s: Seq<LeafId>, x: LeafId, at: int) -> int
    decreases at,
{
    if 0 < at <= s.len() && heavier(weight(sys, x), weight(sys, s[at - 1])) {
        spot(sys, s, x, at - 1)
    } else {
        at
    }
}

/// The first `n` leaves of a list by descending weight, in their order where they weigh as much.
pub open spec fn by_weight(sys: Sys, ls: Seq<LeafId>, n: int) -> Seq<LeafId>
    decreases n,
{
    if n <= 0 || n > ls.len() {
        Seq::empty()
    } else {
        let s = by_weight(sys, ls, n - 1);
        s.insert(spot(sys, s, ls[n - 1], s.len() as int), ls[n - 1])
    }
}

/// Sorts leaves by descending weight, keeping the order of equal ones.
pub fn sort_by_weight(ls: &Vec<LeafId>, w: &Vec<(usize, usize)>, Ghost(sys): Ghost<Sys>) -> (r: Vec<LeafId>)
    requires
        weighs(w@, sys),
        forall|i: int| 0 <= i < ls@.len() ==> (#[trigger] ls@[i]) < w@.len(),
    ensures
        r@ == by_weight(sys, ls@, ls@.len() as int),
        forall|i: int| 0 <= i < r@.len() ==> (#[trigger] r@[i]) < w@.len(),
{
    let mut out: Vec<LeafId> = Vec::new();
    let mut i: usize = 0;
    assert(out@ =~= by_weight(sys, ls@, 0));
    while i < ls.len()
        invariant
            i <= ls@.len(),
            weighs(w@, sys),
            out@.len() == i,
            out@ == by_weight(sys, ls@, i as int),
            forall|k: int| 0 <= k < ls@.len() ==> (#[trigger] ls@[k]) < w@.len(),
            forall|k: int| 0 <= k < out@.len() ==> (#[trigger] out@[k]) < w@.len(),
        decreases ls.len() - i,
    {
        let x = ls[i];
        let mut at: usize = out.len();
        while at > 0 && is_heavier(w[x as usize], w[out[at - 1] as usize])
            invariant
                at <= out@.len(),
                weighs(w@, sys),
                x < w@.len(),
                forall|k: int| 0 <= k < out@.len() ==> (#[trigger] out@[k]) < w@.len(),
                spot(sys, out@, x, out@.len() as int) == spot(sys, out@, x, at as int),
            decreases at,
        {
            assert(w@[out@[at - 1] as int] == w@[out@[at - 1] as int]);
            at -= 1;
        }
        proof {
            if at > 0 {
                let y = out@[at - 1];
                assert((w@[y as int].0 as nat, w@[y as int].1 as nat) == weight(sys, y));
                assert((w@[x as int].0 as nat, w@[x as int].1 as nat) == weight(sys, x));
            }
        }
        let ghost o = out@;
        out.insert(at, x);
        proof {
            assert(out@ == by_weight(sys, ls@, i + 1));
            assert forall|k: int| 0 <= k < out@.len() implies (#[trigger] out@[k]) < w@.len() by {
                if k < at {
                    assert(out@[k] == o[k]);
                } else if k > at {
                    assert(out@[k] == o[k - 1]);
                }
            }
        }
        i += 1;
    }
    out
}

/// What the base modules control and read.
pub type Parts = Seq<(Set<LeafId>, Set<LeafId>)>;

/// What the base modules control and read.
pub open spec fn parts_of(cs: Seq<Component>) -> Parts {
    Seq::new(cs.len(), |i: int| (cs[i].owned@, cs[i].reads@))
}

/// The first module from number `c` on that controls the leaf.
pub open spec fn owner(ps: Parts, l: LeafId, c: int) -> Option<int>
    decreases ps.len() - c,
{
    if c < 0 || c >= ps.len() {
        None
    } else if ps[c].0.contains(l) {
        Some(c)
    } else {
        owner(ps, l, c + 1)
    }
}

/// The module reads the leaf, which belongs to another.
pub open spec fn takes_in(ps: Parts, c: int, l: LeafId) -> bool {
    ps[c].1.contains(l) && owner(ps, l, 0) is Some && owner(ps, l, 0) != Some(c)
}

/// The module stands behind place `cut` of the arrangement.
pub open spec fn behind(perm: Seq<usize>, cut: int, c: int) -> bool {
    exists|i: int| cut < i < perm.len() && #[trigger] perm[i] == c
}

/// The module reads the leaf from the other side of the cut than `side`.
pub open spec fn crosses(ps: Parts, perm: Seq<usize>, cut: int, c: int, side: bool, l: LeafId) -> bool {
    takes_in(ps, c, l) && behind(perm, cut, owner(ps, l, 0)->0) != side
}

/// The cost of a cut among `n` leaves: the inputs of the two modules at it that come from its other side.
pub open spec fn supp_cost(ps: Parts, n: nat, perm: Seq<usize>, cut: int) -> nat {
    tally(|l: int| crosses(ps, perm, cut, perm[cut] as int, false, l as LeafId), n as int) + if cut + 1 < perm.len() {
        tally(|l: int| crosses(ps, perm, cut, perm[cut + 1] as int, true, l as LeafId), n as int)
    } else {
        0
    }
}

/// The leaf is read across the cut, from a module behind it (`back`) or before it.
pub open spec fn talked(ps: Parts, perm: Seq<usize>, cut: int, back: bool, l: LeafId) -> bool {
    exists|c: int|
        0 <= c < ps.len() && #[trigger] takes_in(ps, c, l) && behind(perm, cut, owner(ps, l, 0)->0) == back && behind(
            perm,
            cut,
            c,
        ) != back
}

/// Two to the power of `n`.
pub open spec fn doubled(n: nat) -> nat
    decreases n,
{
    if n == 0 {
        1
    } else {
        2 * doubled((n - 1) as nat)
    }
}

/// The cost of a cut among `n` leaves: the leaves that are read across it forwards, and two to the number of those that
/// are read across it backwards, as far as a machine number can say.
pub open spec fn comm_cost(ps: Parts, n: nat, perm: Seq<usize>, cut: int) -> nat {
    capped(
        tally(|l: int| talked(ps, perm, cut, false, l as LeafId), n as int) + doubled(
            tally(|l: int| talked(ps, perm, cut, true, l as LeafId), n as int),
        ),
    )
}

/// The number, or the greatest machine number.
pub open spec fn capped(n: nat) -> nat {
    if n <= u128::MAX {
        n
    } else {
        u128::MAX as nat
    }
}

/// The cost of a cut.
pub open spec fn cost(ps: Parts, n: nat, talk: bool, perm: Seq<usize>, cut: int) -> nat {
    if talk {
        comm_cost(ps, n, perm, cut)
    } else {
        supp_cost(ps, n, perm, cut)
    }
}

/// The list with two members exchanged.
pub open spec fn exchanged(s: Seq<usize>, i: int, j: int) -> Seq<usize> {
    s.update(i, s[j]).update(j, s[i])
}

/// The first place from `i` on whose module costs least at place `loc`, if less than `least`; otherwise `best`.
pub open spec fn cheapest(
    ps: Parts,
    n: nat,
    talk: bool,
    perm: Seq<usize>,
    loc: int,
    i: int,
    least: nat,
    best: int,
) -> int
    decreases perm.len() - i,
{
    if i < 0 || i >= perm.len() {
        best
    } else {
        let c = cost(ps, n, talk, exchanged(perm, loc, i), loc);
        if c < least {
            cheapest(ps, n, talk, perm, loc, i + 1, c, i)
        } else {
            cheapest(ps, n, talk, perm, loc, i + 1, least, best)
        }
    }
}

/// The modules arranged from place `loc` on, each time the one that costs least.
pub open spec fn singly(ps: Parts, n: nat, talk: bool, perm: Seq<usize>, loc: int) -> Seq<usize>
    decreases ps.len() - loc,
{
    if loc < 0 || loc + 1 >= ps.len() {
        perm
    } else {
        let b = cheapest(ps, n, talk, perm, loc, loc, cost(ps, n, talk, perm, loc), loc);
        singly(ps, n, talk, exchanged(perm, loc, b), loc + 1)
    }
}

/// The best choice for places `loc` and `loc + 1`, with its cost: those of `row` with place `j` or more for the second.
pub open spec fn best_second(
    ps: Parts,
    n: nat,
    talk: bool,
    row: Seq<usize>,
    loc: int,
    i: int,
    j: int,
    best: (nat, int, int),
) -> (nat, int, int)
    decreases row.len() - j,
{
    if j < 0 || j >= row.len() {
        best
    } else {
        let c = cost(ps, n, talk, exchanged(row, loc + 1, j), loc);
        best_second(
            ps,
            n,
            talk,
            row,
            loc,
            i,
            j + 1,
            if c < best.0 {
                (c, i, j)
            } else {
                best
            },
        )
    }
}

/// The best choice for places `loc` and `loc + 1`, with its cost: those with place `i` or more for the first.
pub open spec fn best_pair(
    ps: Parts,
    n: nat,
    talk: bool,
    perm: Seq<usize>,
    loc: int,
    i: int,
    best: (nat, int, int),
) -> (nat, int, int)
    decreases perm.len() - i,
{
    if i < 0 || i >= perm.len() {
        best
    } else {
        best_pair(
            ps,
            n,
            talk,
            perm,
            loc,
            i + 1,
            best_second(ps, n, talk, exchanged(perm, loc, i), loc, i, loc + 1, best),
        )
    }
}

/// The modules arranged from place `loc` on, each time the two that cost least.
pub open spec fn in_pairs(ps: Parts, n: nat, talk: bool, perm: Seq<usize>, loc: int) -> Seq<usize>
    decreases ps.len() - loc,
{
    if loc < 0 || loc + 1 >= ps.len() {
        perm
    } else {
        let b = best_pair(ps, n, talk, perm, loc, loc, (cost(ps, n, talk, perm, loc), loc, loc + 1));
        in_pairs(ps, n, talk, exchanged(exchanged(perm, loc, b.1), loc + 1, b.2), loc + 2)
    }
}

/// The modules as they are composed.
pub open spec fn as_composed(m: nat) -> Seq<usize> {
    Seq::new(m, |i: int| i as usize)
}

/// What the base modules own and read, each leaf owned by the first that controls it.
pub struct Comm {
    /// For each leaf its owner.
    pub owner: Vec<Option<usize>>,
    /// For each module and leaf whether the module reads it of another.
    pub inputs: Vec<Vec<bool>>,
}

/// The owner as a number.
pub open spec fn opt_index(o: Option<usize>) -> Option<int> {
    match o {
        Some(c) => Some(c as int),
        None => None,
    }
}

impl Comm {
    /// It says what the modules do with `n` leaves.
    pub open spec fn tells(&self, ps: Parts, n: nat) -> bool {
        &&& n <= u32::MAX
        &&& self.owner@.len() == n
        &&& self.inputs@.len() == ps.len()
        &&& forall|l: int| 0 <= l < n ==> opt_index(#[trigger] self.owner@[l]) == owner(ps, l as LeafId, 0)
        &&& forall|l: int| 0 <= l < n ==> ((#[trigger] self.owner@[l]) matches Some(c) ==> c < ps.len())
        &&& forall|c: int| 0 <= c < ps.len() ==> (#[trigger] self.inputs@[c])@.len() == n
        &&& forall|c: int, l: int|
            0 <= c < ps.len() && 0 <= l < n ==> #[trigger] self.inputs@[c]@[l] == takes_in(ps, c, l as LeafId)
    }
}

fn find_owner(cs: &Vec<Component>, l: LeafId) -> (r: Option<usize>)
    ensures
        opt_index(r) == owner(parts_of(cs@), l, 0),
        r matches Some(c) ==> c < cs@.len(),
{
    let ghost ps = parts_of(cs@);
    let mut c: usize = 0;
    while c < cs.len()
        invariant
            c <= cs@.len(),
            ps == parts_of(cs@),
            owner(ps, l, 0) == owner(ps, l, c as int),
        decreases cs.len() - c,
    {
        assert(ps[c as int] == (cs@[c as int].owned@, cs@[c as int].reads@));
        if cs[c].owned.contains(&l) {
            return Some(c);
        }
        c += 1;
    }
    None
}

/// What the base modules own and read.
pub fn communication(cs: &Vec<Component>, n: usize) -> (r: Comm)
    requires
        n <= u32::MAX,
    ensures
        r.tells(parts_of(cs@), n as nat),
{
    let ghost ps = parts_of(cs@);
    let mut owners: Vec<Option<usize>> = Vec::new();
    while owners.len() < n
        invariant
            owners@.len() <= n <= u32::MAX,
            ps == parts_of(cs@),
            forall|l: int| 0 <= l < owners@.len() ==> opt_index(#[trigger] owners@[l]) == owner(ps, l as LeafId, 0),
            forall|l: int| 0 <= l < owners@.len() ==> ((#[trigger] owners@[l]) matches Some(c) ==> c < ps.len()),
        decreases n - owners.len(),
    {
        let l: usize = owners.len();
        owners.push(find_owner(cs, l as LeafId));
    }
    let mut inputs: Vec<Vec<bool>> = Vec::new();
    while inputs.len() < cs.len()
        invariant
            inputs@.len() <= cs@.len(),
            n <= u32::MAX,
            ps == parts_of(cs@),
            owners@.len() == n,
            forall|l: int| 0 <= l < n ==> opt_index(#[trigger] owners@[l]) == owner(ps, l as LeafId, 0),
            forall|c: int| 0 <= c < inputs@.len() ==> (#[trigger] inputs@[c])@.len() == n,
            forall|c: int, l: int|
                0 <= c < inputs@.len() && 0 <= l < n ==> #[trigger] inputs@[c]@[l] == takes_in(ps, c, l as LeafId),
        decreases cs.len() - inputs.len(),
    {
        let c: usize = inputs.len();
        assert(ps[c as int] == (cs@[c as int].owned@, cs@[c as int].reads@));
        let mut reads: Vec<bool> = Vec::new();
        while reads.len() < n
            invariant
                c < cs@.len(),
                reads@.len() <= n <= u32::MAX,
                ps == parts_of(cs@),
                ps[c as int] == (cs@[c as int].owned@, cs@[c as int].reads@),
                owners@.len() == n,
                forall|l: int| 0 <= l < n ==> opt_index(#[trigger] owners@[l]) == owner(ps, l as LeafId, 0),
                forall|l: int| 0 <= l < reads@.len() ==> #[trigger] reads@[l] == takes_in(ps, c as int, l as LeafId),
            decreases n - reads.len(),
        {
            let l: usize = reads.len();
            let id: LeafId = l as LeafId;
            assert(opt_index(owners@[l as int]) == owner(ps, id, 0));
            let own = match owners[l] {
                Some(o) => o != c,
                None => false,
            };
            reads.push(own && cs[c].reads.contains(&id));
        }
        let ghost before = inputs@;
        inputs.push(reads);
        assert forall|k: int, l: int| 0 <= k < inputs@.len() && 0 <= l < n implies #[trigger] inputs@[k]@[l] == takes_in(
            ps,
            k,
            l as LeafId,
        ) by {
            if k < before.len() {
                assert(inputs@[k] == before[k]);
                assert(before[k]@[l] == takes_in(ps, k, l as LeafId));
            }
        }
    }
    Comm { owner: owners, inputs }
}

/// Each number below `n` occurs exactly once.
pub open spec fn is_perm(v: Seq<usize>, n: nat) -> bool {
    &&& v.len() == n
    &&& forall|i: int| 0 <= i < n ==> (#[trigger] v[i]) < n
    &&& forall|i: int, j: int| 0 <= i < j < n ==> #[trigger] v[i] != #[trigger] v[j]
}

proof fn exchanged_perm(s: Seq<usize>, i: int, j: int)
    requires
        is_perm(s, s.len()),
        0 <= i < s.len(),
        0 <= j < s.len(),
    ensures
        is_perm(exchanged(s, i, j), s.len()),
        exchanged(exchanged(s, i, j), i, j) == s,
{
    let v = exchanged(s, i, j);
    let n = s.len();
    let at = |x: int|
        if x == j {
            i
        } else if x == i {
            j
        } else {
            x
        };
    assert forall|x: int| 0 <= x < n implies #[trigger] v[x] == s[at(x)] by {}
    assert forall|x: int, y: int| 0 <= x < y < n implies #[trigger] v[x] != #[trigger] v[y] by {
        let p = at(x);
        let q = at(y);
        assert(v[x] == s[p] && v[y] == s[q]);
        if p < q {
            assert(s[p] != s[q]);
        } else {
            assert(s[q] != s[p]);
        }
    }
    assert(exchanged(v, i, j) =~= s);
}

fn swap(v: &mut Vec<usize>, i: usize, j: usize)
    requires
        i < old(v)@.len(),
        j < old(v)@.len(),
    ensures
        final(v)@ == exchanged(old(v)@, i as int, j as int),
{
    let a: usize = v[i];
    let b: usize = v[j];
    v.set(i, b);
    v.set(j, a);
}

/// For each module whether it stands behind the cut.
fn suffix(perm: &Vec<usize>, cut: usize) -> (r: Vec<bool>)
    requires
        is_perm(perm@, perm@.len()),
    ensures
        r@.len() == perm@.len(),
        forall|c: int| 0 <= c < r@.len() ==> #[trigger] r@[c] == behind(perm@, cut as int, c),
{
    let n: usize = perm.len();
    let mut out = clear_row(n);
    let mut i: usize = 0;
    while i < n
        invariant
            i <= n,
            n == perm@.len(),
            is_perm(perm@, n as nat),
            out@.len() == n,
            forall|c: int|
                0 <= c < n ==> #[trigger] out@[c] == exists|k: int| cut < k < i && #[trigger] perm@[k] == c,
        decreases n - i,
    {
        let ghost before = out@;
        let p: usize = perm[i];
        if i > cut {
            out.set(p, true);
        }
        proof {
            assert forall|c: int| 0 <= c < n implies #[trigger] out@[c] == exists|k: int|
                cut < k < i + 1 && #[trigger] perm@[k] == c by {
                assert(before[c] == exists|k: int| cut < k < i && #[trigger] perm@[k] == c);
                if before[c] {
                    let k = choose|k: int| cut < k < i && #[trigger] perm@[k] == c;
                    assert(cut < k < i + 1 && perm@[k] == c);
                }
                if c == p && i > cut {
                    assert(perm@[i as int] == c);
                }
                if exists|k: int| cut < k < i + 1 && #[trigger] perm@[k] == c {
                    let k = choose|k: int| cut < k < i + 1 && #[trigger] perm@[k] == c;
                    assert(k < i || k == i);
                }
            }
        }
        i += 1;
    }
    out
}

/// Where the modules stand: what they do with `n` leaves, in an arrangement that is cut at a place.
pub ghost struct Cut {
    pub ps: Parts,
    pub n: nat,
    pub perm: Seq<usize>,
    pub at: int,
}

impl Cut {
    spec fn told(self, comm: &Comm, after: Seq<bool>) -> bool {
        &&& comm.tells(self.ps, self.n)
        &&& self.perm.len() == self.ps.len()
        &&& after.len() == self.ps.len()
        &&& forall|c: int| 0 <= c < after.len() ==> #[trigger] after[c] == behind(self.perm, self.at, c)
    }
}

/// How many inputs of a module come from the other side of the cut.
fn crossing(comm: &Comm, after: &Vec<bool>, c: usize, side: bool, Ghost(g): Ghost<Cut>) -> (r: usize)
    requires
        g.told(comm, after@),
        c < after@.len(),
    ensures
        r == tally(|l: int| crosses(g.ps, g.perm, g.at, c as int, side, l as LeafId), g.n as int),
        r <= u32::MAX,
{
    let ghost f = |l: int| crosses(g.ps, g.perm, g.at, c as int, side, l as LeafId);
    let mut count: usize = 0;
    let mut l: usize = 0;
    while l < comm.owner.len()
        invariant
            g.told(comm, after@),
            c < after@.len(),
            l <= g.n == comm.owner@.len(),
            f == (|l: int| crosses(g.ps, g.perm, g.at, c as int, side, l as LeafId)),
            count <= l,
            count == tally(f, l as int),
        decreases g.n - l,
    {
        proof {
            assert(comm.inputs@[c as int]@[l as int] == takes_in(g.ps, c as int, l as LeafId));
            assert(opt_index(comm.owner@[l as int]) == owner(g.ps, l as LeafId, 0));
        }
        let mut hit = false;
        if comm.inputs[c][l] {
            match comm.owner[l] {
                Some(o) => {
                    hit = after[o] != side;
                },
                None => {},
            }
        }
        assert(hit == f(l as int));
        if hit {
            count += 1;
        }
        l += 1;
    }
    count
}

fn min_supp_cost(comm: &Comm, perm: &Vec<usize>, cut: usize, Ghost(ps): Ghost<Parts>, Ghost(n): Ghost<nat>) -> (r: u128)
    requires
        comm.tells(ps, n),
        is_perm(perm@, ps.len()),
        cut < perm@.len(),
    ensures
        r == supp_cost(ps, n, perm@, cut as int),
{
    let after = suffix(perm, cut);
    let ghost g = Cut { ps, n, perm: perm@, at: cut as int };
    let a: usize = crossing(comm, &after, perm[cut], false, Ghost(g));
    let b: usize = if cut < perm.len() - 1 {
        crossing(comm, &after, perm[cut + 1], true, Ghost(g))
    } else {
        0
    };
    a as u128 + b as u128
}

/// Whether a leaf is read across the cut.
fn is_talked(comm: &Comm, after: &Vec<bool>, l: usize, back: bool, Ghost(g): Ghost<Cut>) -> (r: bool)
    requires
        g.told(comm, after@),
        l < g.n,
    ensures
        r == talked(g.ps, g.perm, g.at, back, l as LeafId),
{
    assert(opt_index(comm.owner@[l as int]) == owner(g.ps, l as LeafId, 0));
    let o: usize = match comm.owner[l] {
        Some(o) => o,
        None => {
            return false;
        },
    };
    if after[o] != back {
        return false;
    }
    let mut c: usize = 0;
    while c < comm.inputs.len()
        invariant
            g.told(comm, after@),
            l < g.n,
            c <= g.ps.len(),
            owner(g.ps, l as LeafId, 0) == Some(o as int),
            behind(g.perm, g.at, o as int) == back,
            forall|k: int|
                0 <= k < c ==> !(#[trigger] takes_in(g.ps, k, l as LeafId) && behind(g.perm, g.at, k) != back),
        decreases g.ps.len() - c,
    {
        assert(comm.inputs@[c as int]@[l as int] == takes_in(g.ps, c as int, l as LeafId));
        if comm.inputs[c][l] && after[c] != back {
            assert(takes_in(g.ps, c as int, l as LeafId));
            return true;
        }
        c += 1;
    }
    false
}

proof fn doubled_grows(a: nat, b: nat)
    requires
        a <= b,
    ensures
        1 <= doubled(a) <= doubled(b),
    decreases b,
{
    if a < b {
        doubled_grows(a, (b - 1) as nat);
    } else if a > 0 {
        doubled_grows((a - 1) as nat, (b - 1) as nat);
    }
}

fn min_comm_cost(comm: &Comm, perm: &Vec<usize>, cut: usize, Ghost(ps): Ghost<Parts>, Ghost(n): Ghost<nat>) -> (r: u128)
    requires
        comm.tells(ps, n),
        is_perm(perm@, ps.len()),
        cut < perm@.len(),
    ensures
        r == comm_cost(ps, n, perm@, cut as int),
{
    let after = suffix(perm, cut);
    let ghost g = Cut { ps, n, perm: perm@, at: cut as int };
    let ghost f = |l: int| talked(ps, perm@, cut as int, false, l as LeafId);
    let ghost h = |l: int| talked(ps, perm@, cut as int, true, l as LeafId);
    let mut ahead: u128 = 0;
    let mut power: u128 = 1;
    let mut l: usize = 0;
    while l < comm.owner.len()
        invariant
            g.told(comm, after@),
            g == (Cut { ps, n, perm: perm@, at: cut as int }),
            l <= n == comm.owner@.len(),
            f == (|l: int| talked(ps, perm@, cut as int, false, l as LeafId)),
            h == (|l: int| talked(ps, perm@, cut as int, true, l as LeafId)),
            ahead <= l,
            ahead == tally(f, l as int),
            power == capped(doubled(tally(h, l as int))),
        decreases n - l,
    {
        if is_talked(comm, &after, l, false, Ghost(g)) {
            ahead += 1;
        }
        if is_talked(comm, &after, l, true, Ghost(g)) {
            power = match power.checked_mul(2) {
                Some(p) => p,
                None => u128::MAX,
            };
        }
        l += 1;
    }
    match power.checked_add(ahead) {
        Some(p) => p,
        None => u128::MAX,
    }
}

fn cut_cost(comm: &Comm, perm: &Vec<usize>, cut: usize, talk: bool, Ghost(ps): Ghost<Parts>, Ghost(n): Ghost<nat>) -> (r:
    u128)
    requires
        comm.tells(ps, n),
        is_perm(perm@, ps.len()),
        cut < perm@.len(),
    ensures
        r == cost(ps, n, talk, perm@, cut as int),
{
    if talk {
        min_comm_cost(comm, perm, cut, Ghost(ps), Ghost(n))
    } else {
        min_supp_cost(comm, perm, cut, Ghost(ps), Ghost(n))
    }
}

/// The modules as they are composed.
pub fn composed_order(m: usize) -> (r: Vec<usize>)
    ensures
        r@ == as_composed(m as nat),
        is_perm(r@, m as nat),
{
    let mut v: Vec<usize> = Vec::new();
    while v.len() < m
        invariant
            v@.len() <= m,
            forall|k: int| 0 <= k < v@.len() ==> #[trigger] v@[k] == k,
        decreases m - v.len(),
    {
        let k: usize = v.len();
        v.push(k);
    }
    assert(v@ =~= as_composed(m as nat));
    v
}

/// Arranges the modules one at a time.
pub fn arrange_singly(comm: &Comm, m: usize, talk: bool, Ghost(ps): Ghost<Parts>, Ghost(n): Ghost<nat>) -> (perm: Vec<
    usize,
>)
    requires
        comm.tells(ps, n),
        m == ps.len(),
    ensures
        perm@ == singly(ps, n, talk, as_composed(m as nat), 0),
        is_perm(perm@, m as nat),
{
    let mut perm = composed_order(m);
    let mut loc: usize = 0;
    while loc < m && loc + 1 < m
        invariant
            loc <= m,
            m == ps.len(),
            comm.tells(ps, n),
            is_perm(perm@, m as nat),
            singly(ps, n, talk, perm@, loc as int) == singly(ps, n, talk, as_composed(m as nat), 0),
        decreases m - loc,
    {
        let ghost p0 = perm@;
        let mut least: u128 = cut_cost(comm, &perm, loc, talk, Ghost(ps), Ghost(n));
        let ghost first = least as nat;
        let mut best: usize = loc;
        let mut i: usize = loc;
        while i < m
            invariant
                loc <= i <= m,
                loc < m,
                m == ps.len(),
                comm.tells(ps, n),
                perm@ == p0,
                is_perm(p0, m as nat),
                loc <= best < m,
                cheapest(ps, n, talk, p0, loc as int, i as int, least as nat, best as int) == cheapest(
                    ps,
                    n,
                    talk,
                    p0,
                    loc as int,
                    loc as int,
                    first,
                    loc as int,
                ),
            decreases m - i,
        {
            proof {
                exchanged_perm(p0, loc as int, i as int);
            }
            swap(&mut perm, loc, i);
            let c: u128 = cut_cost(comm, &perm, loc, talk, Ghost(ps), Ghost(n));
            if c < least {
                least = c;
                best = i;
            }
            swap(&mut perm, loc, i);
            i += 1;
        }
        proof {
            exchanged_perm(p0, loc as int, best as int);
        }
        swap(&mut perm, loc, best);
        loc += 1;
    }
    perm
}

/// Arranges the modules two at a time.
pub fn arrange_in_pairs(comm: &Comm, m: usize, talk: bool, Ghost(ps): Ghost<Parts>, Ghost(n): Ghost<nat>) -> (perm: Vec<
    usize,
>)
    requires
        comm.tells(ps, n),
        m == ps.len(),
    ensures
        perm@ == in_pairs(ps, n, talk, as_composed(m as nat), 0),
        is_perm(perm@, m as nat),
{
    let mut perm = composed_order(m);
    let mut loc: usize = 0;
    while loc < m && loc + 1 < m
        invariant
            loc <= m,
            m == ps.len(),
            comm.tells(ps, n),
            is_perm(perm@, m as nat),
            in_pairs(ps, n, talk, perm@, loc as int) == in_pairs(ps, n, talk, as_composed(m as nat), 0),
        decreases m - loc,
    {
        let ghost p0 = perm@;
        let mut least: u128 = cut_cost(comm, &perm, loc, talk, Ghost(ps), Ghost(n));
        let ghost first = (least as nat, loc as int, loc + 1);
        let mut b0: usize = loc;
        let mut b1: usize = loc + 1;
        let mut i: usize = loc;
        while i < m
            invariant
                loc <= i <= m,
                loc + 1 < m,
                m == ps.len(),
                comm.tells(ps, n),
                perm@ == p0,
                is_perm(p0, m as nat),
                loc <= b0 < m,
                loc < b1 < m,
                best_pair(ps, n, talk, p0, loc as int, i as int, (least as nat, b0 as int, b1 as int)) == best_pair(
                    ps,
                    n,
                    talk,
                    p0,
                    loc as int,
                    loc as int,
                    first,
                ),
            decreases m - i,
        {
            proof {
                exchanged_perm(p0, loc as int, i as int);
            }
            swap(&mut perm, loc, i);
            let ghost row = perm@;
            let ghost start = (least as nat, b0 as int, b1 as int);
            let mut j: usize = loc + 1;
            while j < m
                invariant
                    loc < j <= m,
                    loc <= i < m,
                    m == ps.len(),
                    comm.tells(ps, n),
                    perm@ == row,
                    is_perm(row, m as nat),
                    loc <= b0 < m,
                    loc < b1 < m,
                    best_second(
                        ps,
                        n,
                        talk,
                        row,
                        loc as int,
                        i as int,
                        j as int,
                        (least as nat, b0 as int, b1 as int),
                    ) == best_second(ps, n, talk, row, loc as int, i as int, loc + 1, start),
                decreases m - j,
            {
                proof {
                    exchanged_perm(row, loc + 1, j as int);
                }
                swap(&mut perm, loc + 1, j);
                let c: u128 = cut_cost(comm, &perm, loc, talk, Ghost(ps), Ghost(n));
                if c < least {
                    least = c;
                    b0 = i;
                    b1 = j;
                }
                swap(&mut perm, loc + 1, j);
                j += 1;
            }
            swap(&mut perm, loc, i);
            i += 1;
        }
        proof {
            exchanged_perm(p0, loc as int, b0 as int);
            exchanged_perm(exchanged(p0, loc as int, b0 as int), loc + 1, b1 as int);
        }
        swap(&mut perm, loc, b0);
        swap(&mut perm, loc + 1, b1);
        loc += 2;
    }
    perm
}

} // verus!
