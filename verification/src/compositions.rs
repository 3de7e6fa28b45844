//! What compositions of modules mean.

use crate::ast::{IdentV, ModuleKindV, ModuleV, VarClass, VarDeclV};
use crate::calc::with_first;
use crate::compose::{all_branches, all_defined, all_trans, gathered, merged_multi, others};
use crate::ctype::{values, CT};
use crate::elaboration::{build, build_rules, f_composed, f_copies, f_module_body, f_module_rest, f_multi, DEPTH};
use crate::fexpr::{all_hold, holds, sem, sems, LeafId, Leaves, FE};
use crate::flat::{allowed, allows, branches_allowed, every, some, some_cmd, Cmd, TN};
use crate::flatten::{elaborated, FlatV};
use crate::judgement::World;
use crate::laws::{frame_law, is_framed, keeps};
use crate::meaning::evaluation;
use crate::skel::{ambient, classed, frame_fe, merged_elab, shared, ElabV, LeafV, VarsV};
use crate::sval::SV;
use crate::value::Val;
use vstd::prelude::*;

verus! {

/// What elaborating a module gives: the module, the variables that are visible behind it, and the leaves.
pub type Built = (ElabV, VarsV, Seq<LeafV>);

/// The module `m` gives `r` where these are visible.
pub open spec fn gives(w: World, k: nat, at: nat, m: ModuleV, lo: Seq<(Seq<char>, SV)>, amb: VarsV, ls: Seq<LeafV>, r: Built) -> bool {
    (build(w, k).module)(at, m, lo, amb, ls) == Ok::<Built, crate::judgement::CEV>(r)
}

/// The next values that definitions give hold.
pub open spec fn defined_in(e: ElabV, env: Leaves) -> bool {
    all_hold(sems(e.trans_defs, env))
}

/// One command of each choice can run.
pub open spec fn all_choices(cs: Seq<Seq<Cmd>>, env: Leaves) -> bool {
    forall|i: int| 0 <= i < cs.len() ==> some_cmd(#[trigger] cs[i], env)
}

/// What the initialization says holds.
pub open spec fn begins(e: ElabV, env: Leaves) -> bool {
    all_hold(sems(e.init_defs, env)) && all_choices(e.init_choices, env)
}

/// What has to hold in every state does.
pub open spec fn stays(e: ElabV, env: Leaves) -> bool {
    all_hold(sems(e.invariants, env))
}

/// The module says of single states, of the start and of what definitions give what both others say.
pub open spec fn says_both(e: ElabV, a: ElabV, b: ElabV, env: Leaves) -> bool {
    &&& stays(e, env) == (stays(a, env) && stays(b, env))
    &&& begins(e, env) == (begins(a, env) && begins(b, env))
    &&& defined_in(e, env) == (defined_in(a, env) && defined_in(b, env))
}

/// The module controls, and gives by definitions, what either of the others does.
pub open spec fn owns_both(e: ElabV, a: ElabV, b: ElabV) -> bool {
    &&& forall|l: LeafId| #[trigger] e.controlled.contains(l) == (a.controlled.contains(l) || b.controlled.contains(l))
    &&& forall|l: LeafId| #[trigger] e.def_next.contains(l) == (a.def_next.contains(l) || b.def_next.contains(l))
}

/// The leaf belongs to the first module alone, and no definition of either gives it a next value.
pub open spec fn only_of(a: ElabV, b: ElabV, l: LeafId) -> bool {
    a.controlled.contains(l) && !b.controlled.contains(l) && !a.def_next.contains(l) && !b.def_next.contains(l)
}

/// Every leaf below `n` that belongs to the first module alone keeps its value.
pub open spec fn rests(a: ElabV, b: ElabV, n: nat, env: Leaves) -> bool {
    forall|l: LeafId| l < n && #[trigger] only_of(a, b, l) ==> env(l, true) == env(l, false)
}

/// Every leaf has a value in the current state.
pub open spec fn settled(n: nat, env: Leaves) -> bool {
    forall|i: LeafId| i < n ==> (#[trigger] env(i, false)) is Some
}

/// The last variable of a name that is not local, among the first `n`.
pub open spec fn offered(vars: VarsV, name: Seq<char>, n: int) -> Option<crate::skel::VarE>
    decreases n,
{
    if n <= 0 || n > vars.len() {
        None
    } else if vars[n - 1].0 == name && vars[n - 1].1.class != VarClass::Local {
        Some(vars[n - 1].1)
    } else {
        offered(vars, name, n - 1)
    }
}

/// What is visible: what was, and over it the variables of a module that are not local.
pub open spec fn sees(more: VarsV, amb: VarsV, vars: VarsV) -> bool {
    forall|name: Seq<char>| #[trigger]
        ambient(more, name) == match offered(vars, name, vars.len() as int) {
            Some(x) => Some(x),
            None => ambient(amb, name),
        }
}

/// What was visible still is, and so is every variable of a module that is not local.
pub open spec fn shows_too(more: VarsV, amb: VarsV, vars: VarsV) -> bool {
    &&& forall|name: Seq<char>| #[trigger] ambient(amb, name) is Some ==> ambient(more, name) == ambient(amb, name)
    &&& forall|i: int|
        0 <= i < vars.len() && vars[i].1.class != VarClass::Local ==> ambient(more, (#[trigger] vars[i]).0) is Some
}

proof fn ambient_push(v: VarsV, x: (Seq<char>, crate::skel::VarE))
    ensures
        forall|name: Seq<char>| #[trigger]
            ambient(v.push(x), name) == if x.0 == name {
                Some(x.1)
            } else {
                ambient(v, name)
            },
{
    assert(v.push(x).drop_last() =~= v);
}

proof fn shared_sees(amb0: VarsV, amb: VarsV, vars: VarsV, i: int)
    requires
        0 <= i <= vars.len(),
        forall|name: Seq<char>| #[trigger]
            ambient(amb, name) == match offered(vars, name, i) {
                Some(x) => Some(x),
                None => ambient(amb0, name),
            },
    ensures
        sees(shared(amb, vars, false, i), amb0, vars),
    decreases vars.len() - i,
{
    if i < vars.len() {
        let next = if vars[i].1.class != VarClass::Local {
            amb.push(vars[i])
        } else {
            amb
        };
        ambient_push(amb, vars[i]);
        assert forall|name: Seq<char>| #[trigger] ambient(next, name) == match offered(vars, name, i + 1) {
            Some(x) => Some(x),
            None => ambient(amb0, name),
        } by {
            assert(ambient(amb, name) == match offered(vars, name, i) {
                Some(x) => Some(x),
                None => ambient(amb0, name),
            });
        }
        shared_sees(amb0, next, vars, i + 1);
    }
}

proof fn shared_shows(amb0: VarsV, amb: VarsV, vars: VarsV, i: int)
    requires
        0 <= i <= vars.len(),
        forall|name: Seq<char>| #[trigger] ambient(amb0, name) is Some ==> ambient(amb, name) == ambient(amb0, name),
        forall|j: int|
            0 <= j < i && vars[j].1.class != VarClass::Local ==> ambient(amb, (#[trigger] vars[j]).0) is Some,
    ensures
        shows_too(shared(amb, vars, true, i), amb0, vars),
    decreases vars.len() - i,
{
    if i < vars.len() {
        let next = if vars[i].1.class != VarClass::Local && !(ambient(amb, vars[i].0) is Some) {
            amb.push(vars[i])
        } else {
            amb
        };
        ambient_push(amb, vars[i]);
        shared_shows(amb0, next, vars, i + 1);
    }
}

proof fn hold_both(x: Seq<FE>, y: Seq<FE>, env: Leaves)
    ensures
        all_hold(sems(x + y, env)) == (all_hold(sems(x, env)) && all_hold(sems(y, env))),
{
    let a = sems(x, env);
    let b = sems(y, env);
    let c = sems(x + y, env);
    assert(c =~= a + b);
    if all_hold(c) {
        assert forall|i: int| 0 <= i < a.len() implies holds(#[trigger] a[i]) by {
            assert(c[i] == a[i]);
        }
        assert forall|i: int| 0 <= i < b.len() implies holds(#[trigger] b[i]) by {
            assert(c[a.len() + i] == b[i]);
        }
    }
}

proof fn choices_both(x: Seq<Seq<Cmd>>, y: Seq<Seq<Cmd>>, env: Leaves)
    ensures
        all_choices(x + y, env) == (all_choices(x, env) && all_choices(y, env)),
{
    let z = x + y;
    if all_choices(z, env) {
        assert forall|i: int| 0 <= i < x.len() implies some_cmd(#[trigger] x[i], env) by {
            assert(z[i] == x[i]);
        }
        assert forall|i: int| 0 <= i < y.len() implies some_cmd(#[trigger] y[i], env) by {
            assert(z[x.len() + i] == y[i]);
        }
    }
}

proof fn merged_says(a: ElabV, b: ElabV, sync: bool, ls: Seq<LeafV>)
    ensures
        forall|env: Leaves| says_both(merged_elab(a, b, sync, ls).0, a, b, env),
        owns_both(merged_elab(a, b, sync, ls).0, a, b),
{
    let e = merged_elab(a, b, sync, ls).0;
    assert forall|env: Leaves| says_both(e, a, b, env) by {
        hold_both(a.invariants, b.invariants, env);
        hold_both(a.init_defs, b.init_defs, env);
        hold_both(a.trans_defs, b.trans_defs, env);
        choices_both(a.init_choices, b.init_choices, env);
    }
    joined_ids(a.controlled, b.controlled);
    joined_ids(a.def_next, b.def_next);
}

proof fn joined_ids(x: Seq<LeafId>, y: Seq<LeafId>)
    ensures
        forall|l: LeafId| #[trigger] (x + y).contains(l) == (x.contains(l) || y.contains(l)),
{
    let z = x + y;
    assert forall|l: LeafId| #[trigger] z.contains(l) == (x.contains(l) || y.contains(l)) by {
        if x.contains(l) {
            let i = choose|i: int| 0 <= i < x.len() && x[i] == l;
            assert(z[i] == l);
        }
        if y.contains(l) {
            let i = choose|i: int| 0 <= i < y.len() && y[i] == l;
            assert(z[x.len() + i] == l);
        }
    }
}

proof fn merged_steps(a: ElabV, b: ElabV, ls: Seq<LeafV>)
    requires
        ls.len() <= u32::MAX,
    ensures
        forall|env: Leaves| #[trigger]
            allows(merged_elab(a, b, true, ls).0.trans, env) == (allows(a.trans, env) && allows(b.trans, env)),
        forall|env: Leaves|
            settled(ls.len(), env) ==> #[trigger] allows(merged_elab(a, b, false, ls).0.trans, env) == ((allows(
                a.trans,
                env,
            ) && rests(b, a, ls.len(), env)) || (allows(b.trans, env) && rests(a, b, ls.len(), env))),
{
    let n = ls.len();
    let d = a.def_next + b.def_next;
    joined_ids(a.def_next, b.def_next);
    assert forall|env: Leaves| #[trigger] allows(merged_elab(a, b, true, ls).0.trans, env) == (allows(a.trans, env)
        && allows(b.trans, env)) by {
        let ns = seq![a.trans, b.trans];
        let o = allowed(ns, env);
        reveal_with_fuel(allows, 2);
        assert(o.len() == 2 && o[0] == allows(a.trans, env) && o[1] == allows(b.trans, env));
    }
    assert forall|env: Leaves| settled(n, env) implies #[trigger] allows(merged_elab(a, b, false, ls).0.trans, env) == ((
    allows(a.trans, env) && rests(b, a, n, env)) || (allows(b.trans, env) && rests(a, b, n, env))) by {
        let f = frame_fe(b.controlled, a.controlled, d, n);
        let h = frame_fe(a.controlled, b.controlled, d, n);
        frame_law(b.controlled, a.controlled, d, n, env);
        frame_law(a.controlled, b.controlled, d, n, env);
        frame_rests(b, a, d, n, env);
        frame_rests(a, b, d, n, env);
        let bs = seq![(a.trans, f), (b.trans, h)];
        let o = branches_allowed(bs, env);
        reveal_with_fuel(allows, 2);
        assert(o.len() == 2);
        assert(o[0] == (allows(a.trans, env) && holds(sem(f, env))));
        assert(o[1] == (allows(b.trans, env) && holds(sem(h, env))));
        if allows(a.trans, env) && holds(sem(f, env)) {
            assert(o[0]);
        }
        if allows(b.trans, env) && holds(sem(h, env)) {
            assert(o[1]);
        }
    }
}

proof fn frame_rests(a: ElabV, b: ElabV, d: Seq<LeafId>, n: nat, env: Leaves)
    requires
        forall|l: LeafId| #[trigger] d.contains(l) == (a.def_next.contains(l) || b.def_next.contains(l)),
    ensures
        (forall|i: LeafId| i < n && #[trigger] is_framed(a.controlled, b.controlled, d, i) ==> keeps(env, i)) == rests(
            a,
            b,
            n,
            env,
        ),
{
    assert forall|i: LeafId| #[trigger] is_framed(a.controlled, b.controlled, d, i) == only_of(a, b, i) by {
        assert(d.contains(i) == (a.def_next.contains(i) || b.def_next.contains(i)));
    }
    if rests(a, b, n, env) {
        assert forall|i: LeafId| i < n && #[trigger] is_framed(a.controlled, b.controlled, d, i) implies keeps(env, i) by {
            assert(only_of(a, b, i));
        }
    }
    if forall|i: LeafId| i < n && #[trigger] is_framed(a.controlled, b.controlled, d, i) ==> keeps(env, i) {
        assert forall|l: LeafId| l < n && #[trigger] only_of(a, b, l) implies env(l, true) == env(l, false) by {
            assert(is_framed(a.controlled, b.controlled, d, l));
        }
    }
}

/// The parts that two composed modules give: the first where the composition stands, the second where it also sees the
/// variables of the first.
pub open spec fn composed_of(
    w: World,
    k: nat,
    at: nat,
    a: ModuleV,
    b: ModuleV,
    lo: Seq<(Seq<char>, SV)>,
    amb: VarsV,
    ls: Seq<LeafV>,
    p: Built,
    mid: VarsV,
    q: Built,
) -> bool {
    &&& gives(w, k, at, a, lo, amb, ls, p)
    &&& sees(mid, p.1, p.0.vars)
    &&& gives(w, k, at, b, lo, mid, p.2, q)
    &&& q.2.len() <= u32::MAX
}

proof fn composed_parts(
    w: World,
    k: nat,
    at: nat,
    a: ModuleV,
    b: ModuleV,
    sync: bool,
    keep: bool,
    span: crate::span::Span,
    lo: Seq<(Seq<char>, SV)>,
    amb: VarsV,
    ls: Seq<LeafV>,
    r: Built,
) -> (f: (Built, VarsV, Built))
    requires
        f_composed(w, at, a, b, sync, keep, span, lo, amb, ls, build(w, k)) == Ok::<Built, crate::judgement::CEV>(r),
    ensures
        composed_of(w, k, at, a, b, lo, amb, ls, f.0, f.1, f.2),
        r.0 == merged_elab(f.0.0, f.2.0, sync, f.2.2).0,
        keep ==> shows_too(r.1, f.0.1, f.0.0.vars) && shows_too(r.1, f.0.1, f.2.0.vars),
        !keep ==> r.1 == f.0.1,
{
    reveal(f_composed);
    let g = build(w, k);
    let p = (g.module)(at, a, lo, amb, ls)->Ok_0;
    let mid = shared(p.1, p.0.vars, false, 0);
    let q = (g.module)(at, b, lo, mid, p.2)->Ok_0;
    shared_sees(p.1, p.1, p.0.vars, 0);
    let m1 = shared(p.1, q.0.vars, true, 0);
    shared_shows(p.1, p.1, q.0.vars, 0);
    shared_shows(m1, m1, p.0.vars, 0);
    if keep {
        assert forall|i: int| 0 <= i < q.0.vars.len() && q.0.vars[i].1.class != VarClass::Local implies ambient(
            r.1,
            (#[trigger] q.0.vars[i]).0,
        ) is Some by {
            assert(ambient(m1, q.0.vars[i].0) is Some);
        }
        assert forall|name: Seq<char>| #[trigger] ambient(p.1, name) is Some implies ambient(r.1, name) == ambient(
            p.1,
            name,
        ) by {
            assert(ambient(m1, name) == ambient(p.1, name));
        }
    }
    (p, mid, q)
}

/// A synchronous composition `a || b` takes a step exactly where both modules take it together; it starts where both
/// start, and what has to hold in a state, or is defined, in either of them does in it. The second module sees the
/// variables of the first, and both are seen from outside.
pub proof fn sync_law(
    w: World,
    k: nat,
    at: nat,
    x: ModuleV,
    a: ModuleV,
    b: ModuleV,
    lo: Seq<(Seq<char>, SV)>,
    amb: VarsV,
    ls: Seq<LeafV>,
    r: Built,
) -> (f: (Built, VarsV, Built))
    requires
        x.kind == ModuleKindV::Sync(Box::new(a), Box::new(b)),
        gives(w, k + 1, at, x, lo, amb, ls, r),
    ensures
        composed_of(w, k, at, a, b, lo, amb, ls, f.0, f.1, f.2),
        forall|env: Leaves| #[trigger] allows(r.0.trans, env) == (allows(f.0.0.trans, env) && allows(f.2.0.trans, env)),
        forall|env: Leaves| says_both(r.0, f.0.0, f.2.0, env),
        owns_both(r.0, f.0.0, f.2.0),
        shows_too(r.1, f.0.1, f.0.0.vars),
        shows_too(r.1, f.0.1, f.2.0.vars),
{
    build_rules(w, k + 1);
    reveal(f_module_body);
    let f = composed_parts(w, k, at, a, b, true, true, x.span, lo, amb, ls, r);
    merged_steps(f.0.0, f.2.0, f.2.2);
    merged_says(f.0.0, f.2.0, true, f.2.2);
    f
}

/// An asynchronous composition `a [] b` takes a step exactly where one of the modules takes it and the leaves that
/// only the other one controls, and no definition gives, keep their values.
pub proof fn async_law(
    w: World,
    k: nat,
    at: nat,
    x: ModuleV,
    a: ModuleV,
    b: ModuleV,
    lo: Seq<(Seq<char>, SV)>,
    amb: VarsV,
    ls: Seq<LeafV>,
    r: Built,
) -> (f: (Built, VarsV, Built))
    requires
        x.kind == ModuleKindV::Async(Box::new(a), Box::new(b)),
        gives(w, k + 1, at, x, lo, amb, ls, r),
    ensures
        composed_of(w, k, at, a, b, lo, amb, ls, f.0, f.1, f.2),
        forall|env: Leaves|
            settled(f.2.2.len(), env) ==> #[trigger] allows(r.0.trans, env) == ((allows(f.0.0.trans, env) && rests(
                f.2.0,
                f.0.0,
                f.2.2.len(),
                env,
            )) || (allows(f.2.0.trans, env) && rests(f.0.0, f.2.0, f.2.2.len(), env))),
        forall|env: Leaves| says_both(r.0, f.0.0, f.2.0, env),
        owns_both(r.0, f.0.0, f.2.0),
        shows_too(r.1, f.0.1, f.0.0.vars),
        shows_too(r.1, f.0.1, f.2.0.vars),
{
    build_rules(w, k + 1);
    reveal(f_module_body);
    let f = composed_parts(w, k, at, a, b, false, true, x.span, lo, amb, ls, r);
    merged_steps(f.0.0, f.2.0, f.2.2);
    merged_says(f.0.0, f.2.0, false, f.2.2);
    f
}

/// An observed module steps together with its observer, whose variables are not seen from outside.
pub proof fn observe_law(
    w: World,
    k: nat,
    at: nat,
    x: ModuleV,
    a: ModuleV,
    b: ModuleV,
    lo: Seq<(Seq<char>, SV)>,
    amb: VarsV,
    ls: Seq<LeafV>,
    r: Built,
) -> (f: (Built, VarsV, Built))
    requires
        x.kind == ModuleKindV::Observe(Box::new(a), Box::new(b)),
        gives(w, k + 1, at, x, lo, amb, ls, r),
    ensures
        composed_of(w, k, at, a, b, lo, amb, ls, f.0, f.1, f.2),
        forall|env: Leaves| #[trigger] allows(r.0.trans, env) == (allows(f.0.0.trans, env) && allows(f.2.0.trans, env)),
        forall|env: Leaves| says_both(r.0, f.0.0, f.2.0, env),
        owns_both(r.0, f.0.0, f.2.0),
        r.1 == f.0.1,
{
    build_rules(w, k + 1);
    reveal(f_module_body);
    let f = composed_parts(w, k, at, a, b, true, false, x.span, lo, amb, ls, r);
    merged_steps(f.0.0, f.2.0, f.2.2);
    merged_says(f.0.0, f.2.0, true, f.2.2);
    f
}

/// The flat system of a synchronous composition takes a step exactly where the systems of both modules do.
pub proof fn flat_sync_law(w: World, at: nat, x: ModuleV, a: ModuleV, b: ModuleV, r: FlatV) -> (f: (Built, VarsV, Built))
    requires
        x.kind == ModuleKindV::Sync(Box::new(a), Box::new(b)),
        elaborated(w, at, x) == Ok::<FlatV, crate::judgement::CEV>(r),
    ensures
        composed_of(
            w,
            (usize::MAX - 1) as nat,
            at,
            a,
            b,
            Seq::empty(),
            Seq::empty(),
            Seq::empty(),
            f.0,
            f.1,
            f.2,
        ),
        forall|env: Leaves| #[trigger]
            r.sys.trans_at(env) == (allows(f.0.0.trans, env) && allows(f.2.0.trans, env) && defined_in(f.0.0, env)
                && defined_in(f.2.0, env)),
        forall|env: Leaves| #[trigger] r.sys.init_at(env) == (begins(f.0.0, env) && begins(f.2.0, env)),
        forall|env: Leaves| #[trigger] r.sys.invariant_at(env) == (stays(f.0.0, env) && stays(f.2.0, env)),
{
    let k = (usize::MAX - 1) as nat;
    let b0 = (build(w, usize::MAX as nat).module)(at, x, Seq::empty(), Seq::empty(), Seq::empty())->Ok_0;
    let f = sync_law(w, k, at, x, a, b, Seq::empty(), Seq::empty(), Seq::empty(), b0);
    assert forall|env: Leaves| #[trigger] r.sys.trans_at(env) == (allows(f.0.0.trans, env) && allows(f.2.0.trans, env)
        && defined_in(f.0.0, env) && defined_in(f.2.0, env)) by {
        assert(says_both(b0.0, f.0.0, f.2.0, env));
        assert(allows(b0.0.trans, env) == (allows(f.0.0.trans, env) && allows(f.2.0.trans, env)));
    }
    assert forall|env: Leaves| #[trigger] r.sys.init_at(env) == (begins(f.0.0, env) && begins(f.2.0, env)) by {
        assert(says_both(b0.0, f.0.0, f.2.0, env));
        assert(r.sys.init_choices == b0.0.init_choices);
        assert(r.sys.init_at(env) == begins(b0.0, env));
    }
    assert forall|env: Leaves| #[trigger] r.sys.invariant_at(env) == (stays(f.0.0, env) && stays(f.2.0, env)) by {
        assert(says_both(b0.0, f.0.0, f.2.0, env));
    }
    f
}

/// The flat system of an asynchronous composition takes a step exactly where the system of one of the modules does and
/// what belongs to the other one alone rests; the definitions of both hold.
pub proof fn flat_async_law(w: World, at: nat, x: ModuleV, a: ModuleV, b: ModuleV, r: FlatV) -> (f: (Built, VarsV, Built))
    requires
        x.kind == ModuleKindV::Async(Box::new(a), Box::new(b)),
        elaborated(w, at, x) == Ok::<FlatV, crate::judgement::CEV>(r),
    ensures
        composed_of(
            w,
            (usize::MAX - 1) as nat,
            at,
            a,
            b,
            Seq::empty(),
            Seq::empty(),
            Seq::empty(),
            f.0,
            f.1,
            f.2,
        ),
        forall|env: Leaves|
            settled(f.2.2.len(), env) ==> #[trigger] r.sys.trans_at(env) == (((allows(f.0.0.trans, env) && rests(
                f.2.0,
                f.0.0,
                f.2.2.len(),
                env,
            )) || (allows(f.2.0.trans, env) && rests(f.0.0, f.2.0, f.2.2.len(), env))) && defined_in(f.0.0, env)
                && defined_in(f.2.0, env)),
        forall|env: Leaves| #[trigger] r.sys.init_at(env) == (begins(f.0.0, env) && begins(f.2.0, env)),
        forall|env: Leaves| #[trigger] r.sys.invariant_at(env) == (stays(f.0.0, env) && stays(f.2.0, env)),
{
    let k = (usize::MAX - 1) as nat;
    let b0 = (build(w, usize::MAX as nat).module)(at, x, Seq::empty(), Seq::empty(), Seq::empty())->Ok_0;
    let f = async_law(w, k, at, x, a, b, Seq::empty(), Seq::empty(), Seq::empty(), b0);
    assert forall|env: Leaves| settled(f.2.2.len(), env) implies #[trigger] r.sys.trans_at(env) == (((allows(
        f.0.0.trans,
        env,
    ) && rests(f.2.0, f.0.0, f.2.2.len(), env)) || (allows(f.2.0.trans, env) && rests(f.0.0, f.2.0, f.2.2.len(), env)))
        && defined_in(f.0.0, env) && defined_in(f.2.0, env)) by {
        assert(says_both(b0.0, f.0.0, f.2.0, env));
        assert(allows(b0.0.trans, env) == ((allows(f.0.0.trans, env) && rests(f.2.0, f.0.0, f.2.2.len(), env)) || (
        allows(f.2.0.trans, env) && rests(f.0.0, f.2.0, f.2.2.len(), env))));
    }
    assert forall|env: Leaves| #[trigger] r.sys.init_at(env) == (begins(f.0.0, env) && begins(f.2.0, env)) by {
        assert(says_both(b0.0, f.0.0, f.2.0, env));
        assert(r.sys.init_choices == b0.0.init_choices);
        assert(r.sys.init_at(env) == begins(b0.0, env));
    }
    assert forall|env: Leaves| #[trigger] r.sys.invariant_at(env) == (stays(f.0.0, env) && stays(f.2.0, env)) by {
        assert(says_both(b0.0, f.0.0, f.2.0, env));
    }
    f
}

/// The variables with the value of an index.
pub open spec fn indexed_by(lo: Seq<(Seq<char>, SV)>, ids: Seq<IdentV>, v: Val) -> Seq<(Seq<char>, SV)> {
    if ids.len() == 0 {
        lo
    } else {
        lo.push((ids[0].name, SV::Ground(v)))
    }
}

/// The copies of a module, one for each value of an index: each with what is visible and the leaves before it, and
/// what it makes visible.
pub ghost struct Copies {
    pub es: Seq<ElabV>,
    pub before: Seq<VarsV>,
    pub behind: Seq<VarsV>,
    pub leaves: Seq<Seq<LeafV>>,
}

impl Copies {
    /// The copies are what the module gives for the values from the first on, each seeing those before it.
    pub open spec fn of(
        self,
        w: World,
        k: nat,
        at: nat,
        vals: Seq<Val>,
        ids: Seq<IdentV>,
        m: ModuleV,
        lo: Seq<(Seq<char>, SV)>,
        amb: VarsV,
        ls: Seq<LeafV>,
        n: int,
    ) -> bool {
        &&& self.es.len() == n
        &&& self.behind.len() == n
        &&& self.before.len() == n + 1
        &&& self.leaves.len() == n + 1
        &&& self.before[0] == amb
        &&& self.leaves[0] == ls
        &&& forall|i: int| 0 <= i < n ==> self.copy(w, k, at, vals, ids, m, lo, i)
    }

    pub open spec fn copy(
        self,
        w: World,
        k: nat,
        at: nat,
        vals: Seq<Val>,
        ids: Seq<IdentV>,
        m: ModuleV,
        lo: Seq<(Seq<char>, SV)>,
        i: int,
    ) -> bool {
        &&& gives(
            w,
            k,
            at,
            m,
            indexed_by(lo, ids, vals[i]),
            self.before[i],
            self.leaves[i],
            (#[trigger] self.es[i], self.behind[i], self.leaves[i + 1]),
        )
        &&& shows_too(self.before[i + 1], self.behind[i], self.es[i].vars)
    }

    pub open spec fn more(self, e: ElabV, behind: VarsV, amb: VarsV, ls: Seq<LeafV>) -> Copies {
        Copies {
            es: self.es.push(e),
            before: self.before.push(amb),
            behind: self.behind.push(behind),
            leaves: self.leaves.push(ls),
        }
    }
}

proof fn copies_made(
    w: World,
    k: nat,
    at: nat,
    vals: Seq<Val>,
    ids: Seq<IdentV>,
    m: ModuleV,
    lo: Seq<(Seq<char>, SV)>,
    amb0: VarsV,
    ls0: Seq<LeafV>,
    c: Copies,
    i: int,
) -> (r: Copies)
    requires
        0 <= i <= vals.len(),
        c.of(w, k, at, vals, ids, m, lo, amb0, ls0, i),
        f_copies(w, at, vals, ids, m, lo, c.es, c.before[i], c.leaves[i], build(w, k), i) is Ok,
    ensures
        r.of(w, k, at, vals, ids, m, lo, amb0, ls0, vals.len() as int),
        f_copies(w, at, vals, ids, m, lo, c.es, c.before[i], c.leaves[i], build(w, k), i) == Ok::<
            (Seq<ElabV>, VarsV, Seq<LeafV>),
            crate::judgement::CEV,
        >((r.es, r.before[vals.len() as int], r.leaves[vals.len() as int])),
    decreases vals.len() - i,
{
    reveal_with_fuel(f_copies, 2);
    if i < vals.len() {
        let inner = with_first(lo, ids, SV::Ground(vals[i]));
        let b = (build(w, k).module)(at, m, inner, c.before[i], c.leaves[i])->Ok_0;
        let amb = shared(b.1, b.0.vars, true, 0);
        shared_shows(b.1, b.1, b.0.vars, 0);
        let d = c.more(b.0, b.1, amb, b.2);
        assert forall|j: int| 0 <= j < i + 1 implies d.copy(w, k, at, vals, ids, m, lo, j) by {
            if j < i {
                assert(c.copy(w, k, at, vals, ids, m, lo, j));
                assert(d.es[j] == c.es[j]);
            }
        }
        copies_made(w, k, at, vals, ids, m, lo, amb0, ls0, d, i + 1)
    } else {
        c
    }
}

/// The module says of single states, of the start and of what definitions give what all the others say.
pub open spec fn says_all(e: ElabV, es: Seq<ElabV>, env: Leaves) -> bool {
    &&& stays(e, env) == forall|i: int| 0 <= i < es.len() ==> stays(#[trigger] es[i], env)
    &&& begins(e, env) == forall|i: int| 0 <= i < es.len() ==> begins(#[trigger] es[i], env)
    &&& defined_in(e, env) == forall|i: int| 0 <= i < es.len() ==> defined_in(#[trigger] es[i], env)
}

proof fn gathered_says(es: Seq<ElabV>, i: int, acc: ElabV, env: Leaves)
    requires
        0 <= i <= es.len(),
    ensures
        ({
            let e = gathered(es, i, acc);
            &&& stays(e, env) == (stays(acc, env) && forall|j: int| i <= j < es.len() ==> stays(#[trigger] es[j], env))
            &&& begins(e, env) == (begins(acc, env) && forall|j: int|
                i <= j < es.len() ==> begins(#[trigger] es[j], env))
            &&& defined_in(e, env) == (defined_in(acc, env) && forall|j: int|
                i <= j < es.len() ==> defined_in(#[trigger] es[j], env))
            &&& e.trans == acc.trans
            &&& e.controlled == acc.controlled
            &&& e.def_next == acc.def_next
        }),
    decreases es.len() - i,
{
    if i < es.len() {
        let next = ElabV {
            invariants: acc.invariants + es[i].invariants,
            init_defs: acc.init_defs + es[i].init_defs,
            init_choices: acc.init_choices + es[i].init_choices,
            trans_defs: acc.trans_defs + es[i].trans_defs,
            parts: acc.parts + es[i].parts,
            ..acc
        };
        hold_both(acc.invariants, es[i].invariants, env);
        hold_both(acc.init_defs, es[i].init_defs, env);
        hold_both(acc.trans_defs, es[i].trans_defs, env);
        choices_both(acc.init_choices, es[i].init_choices, env);
        gathered_says(es, i + 1, next, env);
        assert(stays(next, env) == (stays(acc, env) && stays(es[i], env)));
        assert(begins(next, env) == (begins(acc, env) && begins(es[i], env)));
        assert(defined_in(next, env) == (defined_in(acc, env) && defined_in(es[i], env)));
    }
}

/// One of the modules other than `but` controls the leaf.
pub open spec fn other_owns(es: Seq<ElabV>, but: int, l: LeafId) -> bool {
    exists|j: int| 0 <= j < es.len() && j != but && (#[trigger] es[j]).controlled.contains(l)
}

/// A definition of one of the modules gives the leaf its next value.
pub open spec fn some_defines(es: Seq<ElabV>, l: LeafId) -> bool {
    exists|j: int| 0 <= j < es.len() && (#[trigger] es[j]).def_next.contains(l)
}

/// Every leaf below `n` that others control and number `i` does not, and that no definition gives, keeps its value.
pub open spec fn others_rest(es: Seq<ElabV>, i: int, n: nat, env: Leaves) -> bool {
    forall|l: LeafId|
        l < n && #[trigger] other_owns(es, i, l) && !es[i].controlled.contains(l) && !some_defines(es, l) ==> env(l, true)
            == env(l, false)
}

proof fn others_owned(es: Seq<ElabV>, but: int, i: int, acc: Seq<LeafId>, l: LeafId)
    requires
        0 <= i <= es.len(),
    ensures
        others(es, but, i, acc).contains(l) == (acc.contains(l) || exists|j: int|
            i <= j < es.len() && j != but && (#[trigger] es[j]).controlled.contains(l)),
    decreases es.len() - i,
{
    if i < es.len() {
        let next = if i == but {
            acc
        } else {
            acc + es[i].controlled
        };
        joined_ids(acc, es[i].controlled);
        others_owned(es, but, i + 1, next, l);
        if exists|j: int| i <= j < es.len() && j != but && (#[trigger] es[j]).controlled.contains(l) {
            let j = choose|j: int| i <= j < es.len() && j != but && (#[trigger] es[j]).controlled.contains(l);
            if j > i {
                assert(i + 1 <= j && es[j].controlled.contains(l));
            }
        }
        if i != but && es[i].controlled.contains(l) {
            assert(i <= i && es[i].controlled.contains(l));
        }
    }
}

proof fn all_defines(es: Seq<ElabV>, i: int, acc: Seq<LeafId>, l: LeafId)
    requires
        0 <= i <= es.len(),
    ensures
        all_defined(es, i, acc).contains(l) == (acc.contains(l) || exists|j: int|
            i <= j < es.len() && (#[trigger] es[j]).def_next.contains(l)),
    decreases es.len() - i,
{
    if i < es.len() {
        let next = acc + es[i].def_next;
        joined_ids(acc, es[i].def_next);
        all_defines(es, i + 1, next, l);
        if exists|j: int| i <= j < es.len() && (#[trigger] es[j]).def_next.contains(l) {
            let j = choose|j: int| i <= j < es.len() && (#[trigger] es[j]).def_next.contains(l);
            if j > i {
                assert(i + 1 <= j && es[j].def_next.contains(l));
            }
        }
        if es[i].def_next.contains(l) {
            assert(i <= i && es[i].def_next.contains(l));
        }
    }
}

proof fn multi_says(es: Seq<ElabV>, t: CT, vals: Seq<Val>, sync: bool, ls: Seq<LeafV>)
    ensures
        forall|env: Leaves| says_all(merged_multi(es, t, vals, sync, ls).0, es, env),
        forall|l: LeafId| #[trigger]
            merged_multi(es, t, vals, sync, ls).0.controlled.contains(l) == other_owns(es, -1, l),
        forall|l: LeafId| #[trigger] merged_multi(es, t, vals, sync, ls).0.def_next.contains(l) == some_defines(es, l),
{
    let e = merged_multi(es, t, vals, sync, ls).0;
    let all = crate::compose::cat_vars(es, 0, Seq::empty());
    let vs = crate::compose::array_vars(
        all,
        t,
        vals,
        0,
        crate::compose::common_vars(all, 0, Seq::empty()),
        Seq::empty(),
        ls,
    );
    let defined = all_defined(es, 0, Seq::empty());
    let none = ElabV {
        vars: vs.0,
        invariants: Seq::empty(),
        init_defs: Seq::empty(),
        init_choices: Seq::empty(),
        trans_defs: Seq::empty(),
        trans: if sync {
            TN::All(all_trans(es))
        } else {
            TN::Interleave(all_branches(es, defined, ls.len()))
        },
        controlled: others(es, -1, 0, Seq::empty()),
        def_next: defined,
        parts: Seq::empty(),
    };
    assert(e == gathered(es, 0, none));
    assert forall|env: Leaves| says_all(e, es, env) by {
        gathered_says(es, 0, none, env);
    }
    assert forall|l: LeafId| #[trigger] e.controlled.contains(l) == other_owns(es, -1, l) by {
        gathered_says(es, 0, none, arbitrary());
        others_owned(es, -1, 0, Seq::empty(), l);
    }
    assert forall|l: LeafId| #[trigger] e.def_next.contains(l) == some_defines(es, l) by {
        gathered_says(es, 0, none, arbitrary());
        all_defines(es, 0, Seq::empty(), l);
    }
}

proof fn multi_steps(es: Seq<ElabV>, t: CT, vals: Seq<Val>, ls: Seq<LeafV>)
    requires
        ls.len() <= u32::MAX,
    ensures
        forall|env: Leaves| #[trigger]
            allows(merged_multi(es, t, vals, true, ls).0.trans, env) == forall|i: int|
                0 <= i < es.len() ==> allows((#[trigger] es[i]).trans, env),
        forall|env: Leaves|
            settled(ls.len(), env) ==> #[trigger] allows(merged_multi(es, t, vals, false, ls).0.trans, env) == exists|
                i: int,
            |
                0 <= i < es.len() && allows((#[trigger] es[i]).trans, env) && others_rest(es, i, ls.len(), env),
{
    let n = ls.len();
    let d = all_defined(es, 0, Seq::empty());
    multi_trans(es, t, vals, true, ls);
    multi_trans(es, t, vals, false, ls);
    reveal_with_fuel(allows, 2);
    assert forall|env: Leaves| #[trigger] allows(merged_multi(es, t, vals, true, ls).0.trans, env) == forall|i: int|
        0 <= i < es.len() ==> allows((#[trigger] es[i]).trans, env) by {
        let o = allowed(all_trans(es), env);
        assert forall|i: int| 0 <= i < es.len() implies #[trigger] o[i] == allows(es[i].trans, env) by {}
        if every(o) {
            assert forall|i: int| 0 <= i < es.len() implies allows((#[trigger] es[i]).trans, env) by {
                assert(o[i]);
            }
        }
    }
    assert forall|env: Leaves| settled(n, env) implies #[trigger] allows(
        merged_multi(es, t, vals, false, ls).0.trans,
        env,
    ) == exists|i: int| 0 <= i < es.len() && allows((#[trigger] es[i]).trans, env) && others_rest(es, i, n, env) by {
        let bs = all_branches(es, d, n);
        let o = branches_allowed(bs, env);
        assert forall|i: int| 0 <= i < es.len() implies #[trigger] o[i] == (allows(es[i].trans, env) && others_rest(
            es,
            i,
            n,
            env,
        )) by {
            multi_frame(es, i, n, env);
            assert(bs[i].0 == es[i].trans);
        }
        if some(o) {
            let i = choose|i: int| 0 <= i < o.len() && #[trigger] o[i];
            assert(allows(es[i].trans, env) && others_rest(es, i, n, env));
        }
        if exists|i: int| 0 <= i < es.len() && allows((#[trigger] es[i]).trans, env) && others_rest(es, i, n, env) {
            let i = choose|i: int|
                0 <= i < es.len() && allows((#[trigger] es[i]).trans, env) && others_rest(es, i, n, env);
            assert(o[i]);
        }
    }
}

proof fn multi_trans(es: Seq<ElabV>, t: CT, vals: Seq<Val>, sync: bool, ls: Seq<LeafV>)
    ensures
        merged_multi(es, t, vals, sync, ls).0.trans == (if sync {
            TN::All(all_trans(es))
        } else {
            TN::Interleave(all_branches(es, all_defined(es, 0, Seq::empty()), ls.len()))
        }),
{
    let all = crate::compose::cat_vars(es, 0, Seq::empty());
    let vs = crate::compose::array_vars(
        all,
        t,
        vals,
        0,
        crate::compose::common_vars(all, 0, Seq::empty()),
        Seq::empty(),
        ls,
    );
    let defined = all_defined(es, 0, Seq::empty());
    let none = ElabV {
        vars: vs.0,
        invariants: Seq::empty(),
        init_defs: Seq::empty(),
        init_choices: Seq::empty(),
        trans_defs: Seq::empty(),
        trans: if sync {
            TN::All(all_trans(es))
        } else {
            TN::Interleave(all_branches(es, defined, ls.len()))
        },
        controlled: others(es, -1, 0, Seq::empty()),
        def_next: defined,
        parts: Seq::empty(),
    };
    gathered_says(es, 0, none, arbitrary());
}

proof fn multi_frame(es: Seq<ElabV>, i: int, n: nat, env: Leaves)
    requires
        0 <= i < es.len(),
        n <= u32::MAX,
        settled(n, env),
    ensures
        holds(
            sem(
                frame_fe(others(es, i, 0, Seq::empty()), es[i].controlled, all_defined(es, 0, Seq::empty()), n),
                env,
            ),
        ) == others_rest(es, i, n, env),
{
    let f = others(es, i, 0, Seq::empty());
    let d = all_defined(es, 0, Seq::empty());
    frame_law(f, es[i].controlled, d, n, env);
    assert forall|l: LeafId| #[trigger] is_framed(f, es[i].controlled, d, l) == (other_owns(es, i, l)
        && !es[i].controlled.contains(l) && !some_defines(es, l)) by {
        others_owned(es, i, 0, Seq::empty(), l);
        all_defines(es, 0, Seq::empty(), l);
    }
    if others_rest(es, i, n, env) {
        assert forall|l: LeafId| l < n && #[trigger] is_framed(f, es[i].controlled, d, l) implies keeps(env, l) by {
            assert(other_owns(es, i, l));
        }
    }
    if forall|l: LeafId| l < n && #[trigger] is_framed(f, es[i].controlled, d, l) ==> keeps(env, l) {
        assert forall|l: LeafId|
            l < n && #[trigger] other_owns(es, i, l) && !es[i].controlled.contains(l) && !some_defines(es, l) implies env(
            l,
            true,
        ) == env(l, false) by {
            assert(is_framed(f, es[i].controlled, d, l));
        }
    }
}

/// The values of the type over which a module is composed with itself.
pub open spec fn index_values(w: World, at: nat, d: VarDeclV, lo: Seq<(Seq<char>, SV)>) -> Option<Seq<Val>> {
    match (evaluation(w, DEPTH as nat).ctype)(at, d.ty, lo, Seq::<(nat, Seq<char>)>::empty()) {
        Ok(t) => values(t),
        Err(_) => None,
    }
}

proof fn multi_parts(
    w: World,
    k: nat,
    at: nat,
    d: VarDeclV,
    m: ModuleV,
    sync: bool,
    span: crate::span::Span,
    lo: Seq<(Seq<char>, SV)>,
    amb: VarsV,
    ls: Seq<LeafV>,
    r: Built,
) -> (f: (Copies, CT))
    requires
        f_multi(w, at, d, m, sync, span, lo, amb, ls, build(w, k)) == Ok::<Built, crate::judgement::CEV>(r),
    ensures
        index_values(w, at, d, lo) matches Some(vals) && f.0.of(
            w,
            k,
            at,
            vals,
            d.names,
            m,
            lo,
            amb,
            ls,
            vals.len() as int,
        ) && f.0.leaves[vals.len() as int].len() <= u32::MAX && r.0 == merged_multi(
            f.0.es,
            f.1,
            vals,
            sync,
            f.0.leaves[vals.len() as int],
        ).0 && r.1 == f.0.before[vals.len() as int],
{
    reveal(f_multi);
    let t = (evaluation(w, DEPTH as nat).ctype)(at, d.ty, lo, Seq::<(nat, Seq<char>)>::empty())->Ok_0;
    let vals = values(t)->0;
    let c = Copies { es: Seq::empty(), before: seq![amb], behind: Seq::empty(), leaves: seq![ls] };
    let f = copies_made(w, k, at, vals, d.names, m, lo, amb, ls, c, 0);
    (f, t)
}

/// A module composed synchronously with itself over an index type has a copy for each value of the type, and takes a
/// step exactly where all copies take it together.
pub proof fn multi_sync_law(
    w: World,
    k: nat,
    at: nat,
    x: ModuleV,
    d: VarDeclV,
    m: ModuleV,
    lo: Seq<(Seq<char>, SV)>,
    amb: VarsV,
    ls: Seq<LeafV>,
    r: Built,
) -> (f: Copies)
    requires
        x.kind == ModuleKindV::MultiSync(Box::new(d), Box::new(m)),
        gives(w, k + 1, at, x, lo, amb, ls, r),
    ensures
        index_values(w, at, d, lo) matches Some(vals) && f.of(w, k, at, vals, d.names, m, lo, amb, ls, vals.len() as int),
        forall|env: Leaves| #[trigger]
            allows(r.0.trans, env) == forall|i: int| 0 <= i < f.es.len() ==> allows((#[trigger] f.es[i]).trans, env),
        forall|env: Leaves| says_all(r.0, f.es, env),
        forall|l: LeafId| #[trigger] r.0.controlled.contains(l) == other_owns(f.es, -1, l),
        forall|l: LeafId| #[trigger] r.0.def_next.contains(l) == some_defines(f.es, l),
{
    build_rules(w, k + 1);
    reveal(f_module_body);
    reveal(f_module_rest);
    let f = multi_parts(w, k, at, d, m, true, x.span, lo, amb, ls, r);
    let vals = index_values(w, at, d, lo)->0;
    let all = f.0.leaves[vals.len() as int];
    multi_steps(f.0.es, f.1, vals, all);
    multi_says(f.0.es, f.1, vals, true, all);
    f.0
}

/// A module composed asynchronously with itself over an index type has a copy for each value of the type, and takes a
/// step exactly where one copy takes it and the leaves that only other copies control, and no definition gives, keep
/// their values.
pub proof fn multi_async_law(
    w: World,
    k: nat,
    at: nat,
    x: ModuleV,
    d: VarDeclV,
    m: ModuleV,
    lo: Seq<(Seq<char>, SV)>,
    amb: VarsV,
    ls: Seq<LeafV>,
    r: Built,
) -> (f: Copies)
    requires
        x.kind == ModuleKindV::MultiAsync(Box::new(d), Box::new(m)),
        gives(w, k + 1, at, x, lo, amb, ls, r),
    ensures
        index_values(w, at, d, lo) matches Some(vals) && f.of(
            w,
            k,
            at,
            vals,
            d.names,
            m,
            lo,
            amb,
            ls,
            vals.len() as int,
        ) && forall|env: Leaves|
            settled(f.leaves[vals.len() as int].len(), env) ==> #[trigger] allows(r.0.trans, env) == exists|i: int|
                0 <= i < f.es.len() && allows((#[trigger] f.es[i]).trans, env) && others_rest(
                    f.es,
                    i,
                    f.leaves[vals.len() as int].len(),
                    env,
                ),
        forall|env: Leaves| says_all(r.0, f.es, env),
        forall|l: LeafId| #[trigger] r.0.controlled.contains(l) == other_owns(f.es, -1, l),
        forall|l: LeafId| #[trigger] r.0.def_next.contains(l) == some_defines(f.es, l),
{
    build_rules(w, k + 1);
    reveal(f_module_body);
    reveal(f_module_rest);
    let f = multi_parts(w, k, at, d, m, false, x.span, lo, amb, ls, r);
    let vals = index_values(w, at, d, lo)->0;
    let all = f.0.leaves[vals.len() as int];
    multi_steps(f.0.es, f.1, vals, all);
    multi_says(f.0.es, f.1, vals, false, all);
    f.0
}

/// The modules do the same: only their variables may differ.
pub open spec fn same_behaviour(e: ElabV, a: ElabV) -> bool {
    &&& forall|env: Leaves| #[trigger] allows(e.trans, env) == allows(a.trans, env)
    &&& forall|env: Leaves| #[trigger] defined_in(e, env) == defined_in(a, env)
    &&& forall|env: Leaves| #[trigger] begins(e, env) == begins(a, env)
    &&& forall|env: Leaves| #[trigger] stays(e, env) == stays(a, env)
}

/// The variables are the same but for the class of the named ones.
pub open spec fn only_classes(v: VarsV, u: VarsV, ids: Seq<IdentV>, class: VarClass) -> bool {
    &&& v.len() == u.len()
    &&& forall|i: int|
        0 <= i < v.len() ==> (#[trigger] v[i]).0 == u[i].0 && v[i].1.ctype == u[i].1.ctype && v[i].1.skel == u[i].1.skel
            && (v[i].1.class == u[i].1.class || (v[i].1.class == class && named_in(ids, u[i].0, ids.len() as int)))
    &&& forall|j: int|
        0 <= j < ids.len() ==> (forall|i: int| 0 <= i < u.len() ==> (#[trigger] u[i]).0 != ids[j].name) || exists|i: int|
            0 <= i < v.len() && (#[trigger] v[i]).0 == (#[trigger] ids[j]).name && v[i].1.class == class
}

/// One of the first `n` names.
pub open spec fn named_in(ids: Seq<IdentV>, name: Seq<char>, n: int) -> bool {
    exists|j: int| 0 <= j < n && j < ids.len() && (#[trigger] ids[j]).name == name
}

proof fn place_found(v: VarsV, name: Seq<char>, i: int)
    requires
        0 <= i <= v.len(),
    ensures
        match crate::calc::field_place(v, name, i) {
            Some(p) => i <= p < v.len() && v[p as int].0 == name,
            None => forall|j: int| i <= j < v.len() ==> (#[trigger] v[j]).0 != name,
        },
    decreases v.len() - i,
{
    if i < v.len() && v[i].0 != name {
        place_found(v, name, i + 1);
    }
}

/// The variables after the class of the first `n` named ones has changed.
spec fn changed_to(v: VarsV, u: VarsV, ids: Seq<IdentV>, class: VarClass, n: int) -> bool {
    &&& v.len() == u.len()
    &&& forall|i: int|
        0 <= i < v.len() ==> (#[trigger] v[i]).0 == u[i].0 && v[i].1.ctype == u[i].1.ctype && v[i].1.skel == u[i].1.skel
            && (v[i].1.class == u[i].1.class || (v[i].1.class == class && named_in(ids, u[i].0, n)))
    &&& forall|j: int|
        0 <= j < n ==> (forall|i: int| 0 <= i < u.len() ==> (#[trigger] u[i]).0 != ids[j].name) || exists|i: int|
            0 <= i < v.len() && (#[trigger] v[i]).0 == (#[trigger] ids[j]).name && v[i].1.class == class
}

proof fn classes_changed(v: VarsV, u: VarsV, ids: Seq<IdentV>, class: VarClass, n: int)
    requires
        0 <= n <= ids.len(),
        changed_to(v, u, ids, class, n),
    ensures
        only_classes(classed(v, ids, class, n), u, ids, class),
    decreases ids.len() - n,
{
    if n < ids.len() {
        let name = ids[n].name;
        place_found(v, name, 0);
        let next = match crate::calc::field_place(v, name, 0) {
            Some(p) => v.update(p as int, (v[p as int].0, crate::skel::VarE { class, ..v[p as int].1 })),
            None => v,
        };
        assert forall|i: int| 0 <= i < next.len() implies (#[trigger] next[i]).0 == u[i].0 && next[i].1.ctype
            == u[i].1.ctype && next[i].1.skel == u[i].1.skel && (next[i].1.class == u[i].1.class || (next[i].1.class
            == class && named_in(ids, u[i].0, n + 1))) by {
            assert(v[i].0 == u[i].0);
            if named_in(ids, u[i].0, n) {
                let j = choose|j: int| 0 <= j < n && j < ids.len() && (#[trigger] ids[j]).name == u[i].0;
                assert(ids[j].name == u[i].0);
            }
            if next[i] != v[i] {
                assert(ids[n].name == u[i].0);
            }
        }
        assert forall|j: int| 0 <= j < n + 1 implies (forall|i: int| 0 <= i < u.len() ==> (#[trigger] u[i]).0
            != ids[j].name) || exists|i: int|
            0 <= i < next.len() && (#[trigger] next[i]).0 == (#[trigger] ids[j]).name && next[i].1.class == class by {
            if exists|i: int| 0 <= i < u.len() && (#[trigger] u[i]).0 == ids[j].name {
                let i0 = choose|i: int| 0 <= i < u.len() && (#[trigger] u[i]).0 == ids[j].name;
                assert(v[i0].0 == u[i0].0);
                if j < n {
                    let i = choose|i: int| 0 <= i < v.len() && (#[trigger] v[i]).0 == ids[j].name && v[i].1.class == class;
                    assert(next[i].0 == ids[j].name && next[i].1.class == class);
                } else {
                    let p = crate::calc::field_place(v, name, 0)->0;
                    assert(next[p as int].0 == ids[j].name && next[p as int].1.class == class);
                }
            }
        }
        classes_changed(next, u, ids, class, n + 1);
    }
}

/// A hidden variable is local, and nothing else about the module changes.
pub proof fn hide_law(
    w: World,
    k: nat,
    at: nat,
    x: ModuleV,
    ids: Seq<IdentV>,
    m: ModuleV,
    lo: Seq<(Seq<char>, SV)>,
    amb: VarsV,
    ls: Seq<LeafV>,
    r: Built,
) -> (f: Built)
    requires
        x.kind == ModuleKindV::Hide(ids, Box::new(m)),
        gives(w, k + 1, at, x, lo, amb, ls, r),
    ensures
        gives(w, k, at, m, lo, amb, ls, f),
        same_behaviour(r.0, f.0),
        only_classes(r.0.vars, f.0.vars, ids, VarClass::Local),
        r.0.controlled == f.0.controlled,
        r.1 == f.1,
        r.2 == f.2,
{
    build_rules(w, k + 1);
    reveal(f_module_body);
    reveal(f_module_rest);
    let f = (build(w, k).module)(at, m, lo, amb, ls)->Ok_0;
    classes_changed(f.0.vars, f.0.vars, ids, VarClass::Local, 0);
    f
}

/// A variable that is made an output is one, and nothing else about the module changes.
pub proof fn output_law(
    w: World,
    k: nat,
    at: nat,
    x: ModuleV,
    ids: Seq<IdentV>,
    m: ModuleV,
    lo: Seq<(Seq<char>, SV)>,
    amb: VarsV,
    ls: Seq<LeafV>,
    r: Built,
) -> (f: Built)
    requires
        x.kind == ModuleKindV::NewOutput(ids, Box::new(m)),
        gives(w, k + 1, at, x, lo, amb, ls, r),
    ensures
        gives(w, k, at, m, lo, amb, ls, f),
        same_behaviour(r.0, f.0),
        only_classes(r.0.vars, f.0.vars, ids, VarClass::Output),
        r.0.controlled == f.0.controlled,
        r.1 == f.1,
        r.2 == f.2,
{
    build_rules(w, k + 1);
    reveal(f_module_body);
    reveal(f_module_rest);
    let f = (build(w, k).module)(at, m, lo, amb, ls)->Ok_0;
    classes_changed(f.0.vars, f.0.vars, ids, VarClass::Output, 0);
    f
}

} // verus!
