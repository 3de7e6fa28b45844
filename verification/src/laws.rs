//! What holds of the flat systems that modules become.

use crate::blocks::{guards, stuttering};
use crate::compose::framed_cmds;
use crate::fexpr::{
    all_hold, and_meaning, eq_meaning, fe_and, fe_bool, fe_eq, fe_not, fe_or, holds, not_meaning, or_meaning, sem,
    sems, some_holds, LeafId, Leaves, FE,
};
use crate::flat::{allows, some_cmd, Cmd, TN};
use crate::skel::{fe_ids, frame_fe, frames, ElabV};
use vstd::prelude::*;

verus! {

/// The leaf keeps its value.
pub open spec fn keeps(env: Leaves, l: LeafId) -> bool {
    env(l, true) == env(l, false)
}

/// The leaf is framed: it belongs to the framed ones, and nothing gives it a next value.
pub open spec fn is_framed(framed: Seq<LeafId>, stepping: Seq<LeafId>, defined: Seq<LeafId>, l: LeafId) -> bool {
    framed.contains(l) && !stepping.contains(l) && !defined.contains(l)
}

proof fn frames_meaning(
    framed: Seq<LeafId>,
    stepping: Seq<LeafId>,
    defined: Seq<LeafId>,
    n: nat,
    l: nat,
    acc: Seq<FE>,
    env: Leaves,
)
    requires
        n <= u32::MAX,
        l <= n,
        forall|i: LeafId| i < n ==> (#[trigger] env(i, false)) is Some,
    ensures
        all_hold(sems(frames(framed, stepping, defined, n, l, acc), env)) == (all_hold(sems(acc, env)) && forall|
            i: LeafId,
        |
            l <= i < n && #[trigger] is_framed(framed, stepping, defined, i) ==> keeps(env, i)),
    decreases n - l,
{
    if l < n {
        let i = l as LeafId;
        let e = fe_eq(FE::Var(i, true), FE::Var(i, false));
        let more = if is_framed(framed, stepping, defined, i) {
            acc.push(e)
        } else {
            acc
        };
        frames_meaning(framed, stepping, defined, n, l + 1, more, env);
        if is_framed(framed, stepping, defined, i) {
            assert(env(i, false) is Some);
            eq_meaning(FE::Var(i, true), FE::Var(i, false), env);
            let a = sems(acc, env);
            let b = sems(more, env);
            assert(b =~= a.push(sem(e, env)));
            if all_hold(b) {
                assert(holds(b[acc.len() as int]));
                assert forall|k: int| 0 <= k < a.len() implies holds(#[trigger] a[k]) by {
                    assert(b[k] == a[k]);
                }
            }
            if all_hold(a) && keeps(env, i) {
                assert forall|k: int| 0 <= k < b.len() implies holds(#[trigger] b[k]) by {
                    if k < a.len() {
                        assert(b[k] == a[k]);
                    }
                }
            }
        }
    }
}

/// A frame condition says exactly that the leaves which it frames keep their values.
pub proof fn frame_law(framed: Seq<LeafId>, stepping: Seq<LeafId>, defined: Seq<LeafId>, n: nat, env: Leaves)
    requires
        n <= u32::MAX,
        forall|i: LeafId| i < n ==> (#[trigger] env(i, false)) is Some,
    ensures
        holds(sem(frame_fe(framed, stepping, defined, n), env)) == forall|i: LeafId|
            i < n && #[trigger] is_framed(framed, stepping, defined, i) ==> keeps(env, i),
{
    let none = Seq::<FE>::empty();
    frames_meaning(framed, stepping, defined, n, 0, none, env);
    and_meaning(frames(framed, stepping, defined, n, 0, none), env);
    assert(sems(none, env).len() == 0);
}

proof fn framed_at(cs: Seq<Cmd>, controlled: Seq<LeafId>, given: Seq<LeafId>, n: nat, i: int, acc: Seq<Cmd>, k: int)
    requires
        0 <= i <= cs.len(),
        acc.len() == i,
        0 <= k < cs.len(),
        k < i ==> acc[k] == framed_one(cs[k], controlled, given, n),
    ensures
        framed_cmds(cs, controlled, given, n, i, acc).len() == cs.len(),
        framed_cmds(cs, controlled, given, n, i, acc)[k] == framed_one(cs[k], controlled, given, n),
    decreases cs.len() - i,
{
    if i < cs.len() {
        framed_at(cs, controlled, given, n, i + 1, acc.push(framed_one(cs[i], controlled, given, n)), k);
    }
}

/// A command with the conditions that the leaves which nothing gives a next value keep theirs.
pub open spec fn framed_one(c: Cmd, controlled: Seq<LeafId>, given: Seq<LeafId>, n: nat) -> Cmd {
    Cmd {
        label: c.label,
        guard: c.guard,
        constraint: fe_and(
            frames(controlled, fe_ids(c.constraint, true, Seq::empty()), given, n, 0, seq![c.constraint]),
        ),
    }
}

/// A command of a transition section does what it says, and every controlled leaf that neither the command nor a
/// definition nor another choice gives a next value keeps its value.
pub proof fn command_law(cs: Seq<Cmd>, controlled: Seq<LeafId>, given: Seq<LeafId>, n: nat, k: int, env: Leaves)
    requires
        n <= u32::MAX,
        0 <= k < cs.len(),
        forall|i: LeafId| i < n ==> (#[trigger] env(i, false)) is Some,
    ensures
        framed_cmds(cs, controlled, given, n, 0, Seq::empty()).len() == cs.len(),
        framed_cmds(cs, controlled, given, n, 0, Seq::empty())[k].guard == cs[k].guard,
        holds(sem(framed_cmds(cs, controlled, given, n, 0, Seq::empty())[k].constraint, env)) == (holds(
            sem(cs[k].constraint, env),
        ) && forall|i: LeafId|
            i < n && #[trigger] is_framed(controlled, fe_ids(cs[k].constraint, true, Seq::empty()), given, i) ==> keeps(
                env,
                i,
            )),
{
    framed_at(cs, controlled, given, n, 0, Seq::empty(), k);
    let own = fe_ids(cs[k].constraint, true, Seq::empty());
    let first = seq![cs[k].constraint];
    frames_meaning(controlled, own, given, n, 0, first, env);
    and_meaning(frames(controlled, own, given, n, 0, first), env);
    let a = sems(first, env);
    assert(a.len() == 1 && a[0] == sem(cs[k].constraint, env));
    if holds(a[0]) {
        assert(all_hold(a));
    }
}

/// A module without a transition section stutters: its steps are those that keep every leaf which it controls and no
/// definition gives.
pub proof fn stutter_law(e: ElabV, n: nat, env: Leaves)
    requires
        n <= u32::MAX,
        forall|i: LeafId| i < n ==> (#[trigger] env(i, false)) is Some,
    ensures
        allows(stuttering(e, n).trans, env) == forall|i: LeafId|
            i < n && #[trigger] is_framed(e.controlled, Seq::empty(), e.def_next, i) ==> keeps(env, i),
{
    frame_law(e.controlled, Seq::empty(), e.def_next, n, env);
    let c = Cmd {
        label: None,
        guard: fe_bool(true),
        constraint: frame_fe(e.controlled, Seq::empty(), e.def_next, n),
    };
    let cs = seq![c];
    assert(stuttering(e, n).trans == TN::Cmds(cs));
    assert(holds(sem(c.guard, env)));
    if holds(sem(c.constraint, env)) {
        assert(cs[0] == c);
        assert(some_cmd(cs, env));
    }
    if some_cmd(cs, env) {
        let i = choose|i: int|
            0 <= i < cs.len() && holds(sem((#[trigger] cs[i]).guard, env)) && holds(sem(cs[i].constraint, env));
        assert(cs[i] == c);
    }
}

/// The guard of an `ELSE` command holds exactly where none of the other guards of the choice does.
pub proof fn else_law(cs: Seq<Cmd>, env: Leaves)
    ensures
        holds(sem(fe_not(fe_or(guards(cs))), env)) == forall|i: int|
            0 <= i < cs.len() ==> !holds(sem((#[trigger] cs[i]).guard, env)),
{
    let gs = guards(cs);
    not_meaning(fe_or(gs), env);
    or_meaning(gs, env);
    let vs = sems(gs, env);
    assert forall|i: int| 0 <= i < cs.len() implies #[trigger] vs[i] == sem(cs[i].guard, env) by {
        assert(gs[i] == cs[i].guard);
    }
    if some_holds(vs) {
        let i = choose|i: int| 0 <= i < vs.len() && holds(#[trigger] vs[i]);
        assert(holds(sem(cs[i].guard, env)));
    } else {
        assert forall|i: int| 0 <= i < cs.len() implies !holds(sem((#[trigger] cs[i]).guard, env)) by {
            assert(!holds(vs[i]));
        }
    }
}

} // verus!
