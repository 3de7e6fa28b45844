//! Search in a relation that is given by decision diagrams.
//!
//! A state is an assignment to the even variables; the odd variable next to each stands for the
//! same bit of the successor. A relation is a list of diagrams, one of which has to hold.

use crate::bdd::{
    agree_outside, consistent, current, describes, narrowed, shifted, upcoming, with, Asg, Mgr, NodeId, Vars, BF, F,
    T, VAR_LIMIT,
};
use crate::tables::{cube_get, Cube};
use vstd::prelude::*;

verus! {

/// A relation between states.
pub type BR = spec_fn(Asg, Asg) -> bool;

/// The assignment for a state and its successor.
pub open spec fn join(x: Asg, y: Asg) -> Asg {
    |v: u32|
        if v % 2 == 0 {
            x(v)
        } else {
            y((v - 1) as u32)
        }
}

/// The bits of a state: the even variables below `w`.
pub open spec fn bits(w: u32) -> Vars {
    |v: u32| v % 2 == 0 && v < w
}

/// The variables below `w`.
pub open spec fn below(w: u32) -> Vars {
    |v: u32| v < w
}

/// Two states agree on the bits below `w`.
pub open spec fn alike(x: Asg, y: Asg, w: u32) -> bool {
    forall|v: u32| #[trigger] bits(w)(v) ==> x(v) == y(v)
}

/// One step from `f` leads to `y`.
pub open spec fn one_step(f: BF, r: BR, y: Asg) -> bool {
    exists|x: Asg| #[trigger] f(x) && r(x, y)
}

/// Where the search can be after exactly `k` steps from `s`.
pub open spec fn after_set(s: BF, r: BR, k: nat) -> BF
    decreases k,
{
    if k == 0 {
        s
    } else {
        let f = after_set(s, r, (k - 1) as nat);
        |y: Asg| one_step(f, r, y)
    }
}

/// After exactly `k` steps from `s` the search can be at `y`.
pub open spec fn after(s: BF, r: BR, k: nat, y: Asg) -> bool {
    (after_set(s, r, k))(y)
}

proof fn after_step(s: BF, r: BR, k: nat, y: Asg)
    ensures
        after(s, r, k + 1, y) == exists|x: Asg| #[trigger] after(s, r, k, x) && r(x, y),
{
    let f = after_set(s, r, k);
    assert(after(s, r, k + 1, y) == one_step(f, r, y));
    if one_step(f, r, y) {
        let x = choose|x: Asg| #[trigger] f(x) && r(x, y);
        assert(after(s, r, k, x) && r(x, y));
    }
    if exists|x: Asg| #[trigger] after(s, r, k, x) && r(x, y) {
        let x = choose|x: Asg| #[trigger] after(s, r, k, x) && r(x, y);
        assert(f(x) && r(x, y));
    }
}

/// After at most `k` steps from `s` the search can be at `y`.
pub open spec fn within(s: BF, r: BR, k: nat, y: Asg) -> bool {
    exists|j: nat| j <= k && #[trigger] after(s, r, j, y)
}

/// The search can be at `y` after `k` steps from `s`, and not earlier.
pub open spec fn first_at(s: BF, r: BR, k: nat, y: Asg) -> bool {
    after(s, r, k, y) && forall|j: nat| j < k ==> !#[trigger] after(s, r, j, y)
}

proof fn first_step(s: BF, r: BR, k: nat, y: Asg)
    ensures
        first_at(s, r, k + 1, y) == ((exists|x: Asg| #[trigger] first_at(s, r, k, x) && r(x, y))
            && !within(s, r, k, y)),
        within(s, r, k + 1, y) == (within(s, r, k, y) || (exists|x: Asg| #[trigger]
            first_at(s, r, k, x) && r(x, y))),
{
    after_step(s, r, k, y);
    if exists|x: Asg| #[trigger] first_at(s, r, k, x) && r(x, y) {
        let x = choose|x: Asg| #[trigger] first_at(s, r, k, x) && r(x, y);
        assert(after(s, r, k, x));
        assert(after(s, r, k + 1, y));
    }
    if after(s, r, k + 1, y) && !within(s, r, k, y) {
        let x = choose|x: Asg| #[trigger] after(s, r, k, x) && r(x, y);
        assert forall|j: nat| j < k implies !#[trigger] after(s, r, j, x) by {
            if after(s, r, j, x) {
                after_step(s, r, j, y);
                assert(after(s, r, j + 1, y));
                assert(within(s, r, k, y));
            }
        }
        assert(first_at(s, r, k, x));
    }
    if first_at(s, r, k + 1, y) && within(s, r, k, y) {
        let j = choose|j: nat| j <= k && #[trigger] after(s, r, j, y);
        assert(false);
    }
    if within(s, r, k, y) {
        let j = choose|j: nat| j <= k && #[trigger] after(s, r, j, y);
        assert(j <= k + 1 && after(s, r, j, y));
    }
    if within(s, r, k + 1, y) && !within(s, r, k, y) {
        let j = choose|j: nat| j <= k + 1 && #[trigger] after(s, r, j, y);
        assert(j == k + 1) by {
            if j <= k {
                assert(within(s, r, k, y));
            }
        }
    }
    if !within(s, r, k, y) && after(s, r, k + 1, y) {
        assert forall|j: nat| j < k + 1 implies !#[trigger] after(s, r, j, y) by {
            if after(s, r, j, y) {
                assert(within(s, r, k, y));
            }
        }
    }
}

/// The least number of steps to `y`.
pub proof fn least_after(s: BF, r: BR, k: nat, y: Asg) -> (j: nat)
    requires
        after(s, r, k, y),
    ensures
        j <= k,
        first_at(s, r, j, y),
    decreases k,
{
    if exists|i: nat| i < k && #[trigger] after(s, r, i, y) {
        let i = choose|i: nat| i < k && #[trigger] after(s, r, i, y);
        least_after(s, r, i, y)
    } else {
        k
    }
}

/// Where one step adds nothing, no number of steps does.
proof fn closed_stays(s: BF, r: BR, k: nat, j: nat, y: Asg)
    requires
        forall|z: Asg| #[trigger] within(s, r, k + 1, z) ==> within(s, r, k, z),
        after(s, r, j, y),
    ensures
        within(s, r, k, y),
    decreases j,
{
    if j > k {
        after_step(s, r, (j - 1) as nat, y);
        let x = choose|x: Asg| #[trigger] after(s, r, (j - 1) as nat, x) && r(x, y);
        closed_stays(s, r, k, (j - 1) as nat, x);
        let i = choose|i: nat| i <= k && #[trigger] after(s, r, i, x);
        after_step(s, r, i, y);
        assert(after(s, r, i + 1, y));
        assert(within(s, r, k + 1, y));
    }
}

/// The number of assignments to the variables below `w`, and `a` elsewhere, on which `f` is true.
pub open spec fn count(f: BF, w: nat, a: Asg) -> nat
    decreases w,
{
    if w == 0 {
        if f(a) {
            1
        } else {
            0
        }
    } else {
        count(f, (w - 1) as nat, with(a, (w - 1) as u32, false)) + count(
            f,
            (w - 1) as nat,
            with(a, (w - 1) as u32, true),
        )
    }
}

/// A power of two.
pub open spec fn p2(n: nat) -> nat
    decreases n,
{
    if n == 0 {
        1
    } else {
        2 * p2((n - 1) as nat)
    }
}

proof fn count_bound(f: BF, w: nat, a: Asg)
    ensures
        count(f, w, a) <= p2(w),
    decreases w,
{
    if w > 0 {
        count_bound(f, (w - 1) as nat, with(a, (w - 1) as u32, false));
        count_bound(f, (w - 1) as nat, with(a, (w - 1) as u32, true));
    }
}

proof fn count_mono(f: BF, g: BF, w: nat, a: Asg)
    requires
        forall|x: Asg| #[trigger] f(x) ==> g(x),
    ensures
        count(f, w, a) <= count(g, w, a),
    decreases w,
{
    if w > 0 {
        count_mono(f, g, (w - 1) as nat, with(a, (w - 1) as u32, false));
        count_mono(f, g, (w - 1) as nat, with(a, (w - 1) as u32, true));
    } else {
        assert(f(a) ==> g(a));
    }
}

proof fn count_strict(f: BF, g: BF, w: nat, a: Asg, x: Asg)
    requires
        w <= VAR_LIMIT,
        forall|x: Asg| #[trigger] f(x) ==> g(x),
        g(x),
        !f(x),
        forall|v: u32| v >= w ==> #[trigger] x(v) == a(v),
    ensures
        count(f, w, a) < count(g, w, a),
    decreases w,
{
    if w > 0 {
        let u = (w - 1) as u32;
        count_mono(f, g, (w - 1) as nat, with(a, u, false));
        count_mono(f, g, (w - 1) as nat, with(a, u, true));
        count_strict(f, g, (w - 1) as nat, with(a, u, x(u)), x);
    } else {
        assert(x =~= a);
    }
}

/// The function of a node.
spec fn fun_of(m: &Mgr, n: NodeId) -> BF {
    |x: Asg| m.eval(n, x)
}

/// The size of a set of states, for termination.
spec fn size(m: &Mgr, n: NodeId, w: u32) -> nat {
    count(fun_of(m, n), w as nat, |v: u32| false)
}

proof fn size_keeps(m: &Mgr, old: &Mgr, n: NodeId, w: u32)
    requires
        m.keeps_values(old),
        old.valid(n),
    ensures
        size(m, n, w) == size(old, n, w),
{
    assert(fun_of(m, n) =~= fun_of(old, n));
}

proof fn size_grows(m: &Mgr, s: NodeId, t: NodeId, w: u32)
    requires
        m.wf(),
        is_set(m, s, w),
        is_set(m, t, w),
        w <= VAR_LIMIT,
        s != t,
        forall|x: Asg| #[trigger] m.eval(s, x) ==> m.eval(t, x),
    ensures
        size(m, s, w) < size(m, t, w),
        size(m, t, w) <= p2(w as nat),
{
    if forall|x: Asg| #[trigger] m.eval(s, x) == m.eval(t, x) {
        m.canonical(s, t);
    }
    let x = choose|x: Asg| #[trigger] m.eval(s, x) != m.eval(t, x);
    let y = |v: u32|
        if v < w {
            x(v)
        } else {
            false
        };
    assert(alike(x, y, w));
    same_on(m, s, w, x, y);
    same_on(m, t, w, x, y);
    let f = fun_of(m, s);
    let g = fun_of(m, t);
    assert forall|z: Asg| #[trigger] f(z) implies g(z) by {
        assert(m.eval(s, z));
    }
    count_strict(f, g, w as nat, |v: u32| false, y);
    count_bound(g, w as nat, |v: u32| false);
}

/// The node is a set of states with bits below `w`.
pub open spec fn is_set(m: &Mgr, n: NodeId, w: u32) -> bool {
    m.valid(n) && m.depends_on(n, bits(w))
}

/// The nodes are parts of a relation between states with bits below `w`.
pub open spec fn is_rel(m: &Mgr, parts: Seq<NodeId>, w: u32) -> bool {
    &&& w % 2 == 0
    &&& w <= VAR_LIMIT
    &&& forall|k: int|
        0 <= k < parts.len() ==> m.valid(#[trigger] parts[k]) && m.depends_on(parts[k], below(w))
}

/// The relation holds.
pub open spec fn rel_at(m: &Mgr, parts: Seq<NodeId>, x: Asg, y: Asg) -> bool {
    exists|k: int| 0 <= k < parts.len() && m.eval(#[trigger] parts[k], join(x, y))
}

/// The relation of a list of parts.
pub open spec fn rel_of(m: &Mgr, parts: Seq<NodeId>) -> BR {
    |x: Asg, y: Asg| rel_at(m, parts, x, y)
}

/// The set of a node.
pub open spec fn set_of(m: &Mgr, n: NodeId) -> BF {
    |x: Asg| m.eval(n, x)
}

/// The keys under which quantification is remembered are used for one set of variables each.
pub open spec fn keys_ok(m: &Mgr) -> bool {
    &&& m.preds().contains_key(1) ==> (m.preds()[1])(current())
    &&& m.preds().contains_key(2) ==> (m.preds()[2])(upcoming())
}

proof fn same_on(m: &Mgr, n: NodeId, w: u32, x: Asg, y: Asg)
    requires
        is_set(m, n, w),
        alike(x, y, w),
    ensures
        m.eval(n, x) == m.eval(n, y),
{
    let q = bits(w);
    assert(forall|v: u32| #[trigger] q(v) ==> x(v) == y(v));
}

pub proof fn rel_same(m: &Mgr, parts: Seq<NodeId>, w: u32, x: Asg, y: Asg, x2: Asg, y2: Asg)
    requires
        is_rel(m, parts, w),
        alike(x, x2, w),
        alike(y, y2, w),
    ensures
        rel_at(m, parts, x, y) == rel_at(m, parts, x2, y2),
{
    let q = below(w);
    let a = join(x, y);
    let b = join(x2, y2);
    assert forall|v: u32| #[trigger] q(v) implies a(v) == b(v) by {
        if v % 2 == 0 {
            assert(bits(w)(v));
        } else {
            assert(bits(w)((v - 1) as u32));
        }
    }
    if rel_at(m, parts, x, y) {
        let k = choose|k: int| 0 <= k < parts.len() && m.eval(#[trigger] parts[k], a);
        assert(m.depends_on(parts[k], q));
        assert(m.eval(parts[k], b));
    }
    if rel_at(m, parts, x2, y2) {
        let k = choose|k: int| 0 <= k < parts.len() && m.eval(#[trigger] parts[k], b);
        assert(m.depends_on(parts[k], q));
        assert(m.eval(parts[k], a));
    }
}

/// Sets stay sets.
pub proof fn set_keeps(m: &Mgr, old: &Mgr, n: NodeId, w: u32)
    requires
        m.keeps_values(old),
        is_set(old, n, w),
    ensures
        is_set(m, n, w),
        set_of(m, n) == set_of(old, n),
{
    let q = bits(w);
    assert forall|a: Asg, b: Asg| (forall|v: u32| #[trigger] q(v) ==> a(v) == b(v)) implies
        #[trigger] m.eval(n, a) == #[trigger] m.eval(n, b) by {
        assert(old.eval(n, a) == old.eval(n, b));
    }
    assert(set_of(m, n) =~= set_of(old, n));
}

/// Relations stay relations.
pub proof fn rel_keeps(m: &Mgr, old: &Mgr, parts: Seq<NodeId>, w: u32)
    requires
        m.keeps_values(old),
        is_rel(old, parts, w),
    ensures
        is_rel(m, parts, w),
        rel_of(m, parts) == rel_of(old, parts),
{
    let q = below(w);
    assert forall|k: int| 0 <= k < parts.len() implies m.valid(#[trigger] parts[k]) && m.depends_on(
        parts[k],
        q,
    ) by {
        assert(old.valid(parts[k]));
        assert forall|a: Asg, b: Asg| (forall|v: u32| #[trigger] q(v) ==> a(v) == b(v)) implies
            #[trigger] m.eval(parts[k], a) == #[trigger] m.eval(parts[k], b) by {
            assert(old.depends_on(parts[k], q));
            assert(old.eval(parts[k], a) == old.eval(parts[k], b));
        }
    }
    assert forall|x: Asg, y: Asg| #[trigger] rel_at(m, parts, x, y) == rel_at(old, parts, x, y) by {
        if rel_at(m, parts, x, y) {
            let k = choose|k: int| 0 <= k < parts.len() && m.eval(#[trigger] parts[k], join(x, y));
            assert(old.valid(parts[k]));
            assert(old.eval(parts[k], join(x, y)));
        }
        if rel_at(old, parts, x, y) {
            let k = choose|k: int| 0 <= k < parts.len() && old.eval(#[trigger] parts[k], join(x, y));
            assert(old.valid(parts[k]));
            assert(m.eval(parts[k], join(x, y)));
        }
    }
    assert(rel_of(m, parts) =~= rel_of(old, parts));
}

/// Every assignment is joint.
pub proof fn join_parts(b: Asg)
    ensures
        join(b, shifted(b, true)) == b,
{
    assert(join(b, shifted(b, true)) =~= b);
}

/// Quantifies the current state.
fn exists_cur(mgr: &mut Mgr, n: NodeId) -> (r: NodeId)
    requires
        old(mgr).wf(),
        keys_ok(old(mgr)),
        old(mgr).valid(n),
    ensures
        final(mgr).wf(),
        keys_ok(final(mgr)),
        final(mgr).keeps_values(old(mgr)),
        final(mgr).valid(r),
        forall|a: Asg| #[trigger]
            final(mgr).eval(r, a) == old(mgr).some_choice(n, current(), a),
{
    let even = |v: u32| -> (b: bool)
        ensures
            b == (v % 2 == 0),
        { v % 2 == 0 };
    assert(describes(even, current()));
    let r = mgr.exists_where(n, &even, 1);
    assert(narrowed(old(mgr).preds(), 1, even)(current()));
    assert forall|a: Asg| #[trigger] mgr.eval(r, a) == old(mgr).some_choice(n, current(), a) by {}
    r
}

/// Quantifies the next state.
fn exists_next(mgr: &mut Mgr, n: NodeId) -> (r: NodeId)
    requires
        old(mgr).wf(),
        keys_ok(old(mgr)),
        old(mgr).valid(n),
    ensures
        final(mgr).wf(),
        keys_ok(final(mgr)),
        final(mgr).keeps_values(old(mgr)),
        final(mgr).valid(r),
        forall|a: Asg| #[trigger]
            final(mgr).eval(r, a) == old(mgr).some_choice(n, upcoming(), a),
{
    let odd = |v: u32| -> (b: bool)
        ensures
            b == (v % 2 == 1),
        { v % 2 == 1 };
    assert(describes(odd, upcoming()));
    let r = mgr.exists_where(n, &odd, 2);
    assert(narrowed(old(mgr).preds(), 2, odd)(upcoming()));
    assert forall|a: Asg| #[trigger] mgr.eval(r, a) == old(mgr).some_choice(n, upcoming(), a) by {}
    r
}

/// The relation of the first `n` parts.
spec fn some_part(m: &Mgr, parts: Seq<NodeId>, n: int, z: Asg) -> bool {
    exists|k: int| 0 <= k < n && m.eval(#[trigger] parts[k], z)
}

/// The successors of the states of `s`.
pub fn image(mgr: &mut Mgr, parts: &Vec<NodeId>, w: u32, s: NodeId) -> (r: NodeId)
    requires
        old(mgr).wf(),
        keys_ok(old(mgr)),
        is_rel(old(mgr), parts@, w),
        is_set(old(mgr), s, w),
    ensures
        final(mgr).wf(),
        keys_ok(final(mgr)),
        final(mgr).keeps_values(old(mgr)),
        is_set(final(mgr), r, w),
        forall|y: Asg| #[trigger]
            final(mgr).eval(r, y) == exists|x: Asg| #[trigger]
                old(mgr).eval(s, x) && rel_at(old(mgr), parts@, x, y),
{
    let ghost m0 = *mgr;
    proof {
        mgr.constants_meaning();
    }
    let mut out = F;
    let mut i: usize = 0;
    while i < parts.len()
        invariant
            i <= parts@.len(),
            m0 == *old(mgr),
            mgr.wf(),
            keys_ok(mgr),
            mgr.keeps_values(&m0),
            is_rel(&m0, parts@, w),
            is_set(&m0, s, w),
            mgr.valid(out),
            forall|y: Asg| #[trigger]
                mgr.eval(out, y) == exists|x: Asg| #[trigger]
                    m0.eval(s, x) && some_part(&m0, parts@, i as int, join(x, y)),
        decreases parts.len() - i,
    {
        let p = parts[i];
        assert(m0.valid(parts@[i as int]));
        let ghost m1 = *mgr;
        let step = mgr.and(p, s);
        let ghost m2 = *mgr;
        let next = exists_cur(mgr, step);
        let ghost m3 = *mgr;
        proof {
            assert forall|a: Asg, b: Asg| (forall|v: u32| #[trigger] upcoming()(v) ==> a(v) == b(v)) implies
                #[trigger] m3.eval(next, a) == #[trigger] m3.eval(next, b) by {
                next_only(&m2, step, a, b);
            }
            assert(m3.depends_on(next, upcoming()));
        }
        let img = mgr.shift(next, -1);
        let ghost m4 = *mgr;
        let ghost out0 = out;
        out = mgr.or(out, img);
        proof {
            assert forall|y: Asg| #[trigger] mgr.eval(out, y) == exists|x: Asg| #[trigger]
                m0.eval(s, x) && some_part(&m0, parts@, i + 1, join(x, y)) by {
                assert(m4.eval(out0, y) == m1.eval(out0, y));
                assert(m4.eval(img, y) == m3.eval(next, shifted(y, false)));
                assert(m3.eval(next, shifted(y, false)) == m2.some_choice(
                    step,
                    current(),
                    shifted(y, false),
                ));
                if m1.eval(out0, y) {
                    let x = choose|x: Asg| #[trigger]
                        m0.eval(s, x) && some_part(&m0, parts@, i as int, join(x, y));
                    let k = choose|k: int|
                        0 <= k < i && m0.eval(#[trigger] parts@[k], join(x, y));
                    assert(0 <= k < i + 1 && m0.eval(parts@[k], join(x, y)));
                    assert(some_part(&m0, parts@, i + 1, join(x, y)));
                }
                if m4.eval(img, y) {
                    let b = choose|b: Asg|
                        agree_outside(shifted(y, false), b, current()) && #[trigger] m2.eval(step, b);
                    assert(join(b, y) =~= b) by {
                        assert forall|v: u32| join(b, y)(v) == #[trigger] b(v) by {
                            if v % 2 == 1 {
                                assert(!current()(v));
                                assert(b(v) == shifted(y, false)(v));
                            }
                        }
                    }
                    assert(m1.eval(p, b) && m1.eval(s, b));
                    assert(m0.eval(p, b) && m0.eval(s, b));
                    assert(m0.eval(parts@[i as int], join(b, y)));
                    assert(some_part(&m0, parts@, i + 1, join(b, y)));
                }
                if exists|x: Asg| #[trigger]
                    m0.eval(s, x) && some_part(&m0, parts@, i + 1, join(x, y)) {
                    let x = choose|x: Asg| #[trigger]
                        m0.eval(s, x) && some_part(&m0, parts@, i + 1, join(x, y));
                    let k = choose|k: int|
                        0 <= k < i + 1 && m0.eval(#[trigger] parts@[k], join(x, y));
                    let b = join(x, y);
                    if k < i {
                        assert(some_part(&m0, parts@, i as int, b));
                        assert(m1.eval(out0, y));
                    } else {
                        assert(alike(x, b, w));
                        same_on(&m0, s, w, x, b);
                        assert(m1.eval(p, b) == m0.eval(p, b));
                        assert(m1.eval(s, b) == m0.eval(s, b));
                        assert(m2.eval(step, b));
                        assert(agree_outside(shifted(y, false), b, current()));
                        assert(m2.some_choice(step, current(), shifted(y, false)));
                    }
                }
            }
        }
        i += 1;
    }
    proof {
        assert forall|y: Asg| #[trigger] mgr.eval(out, y) == exists|x: Asg| #[trigger]
            m0.eval(s, x) && rel_at(&m0, parts@, x, y) by {
            if exists|x: Asg| #[trigger] m0.eval(s, x) && rel_at(&m0, parts@, x, y) {
                let x = choose|x: Asg| #[trigger] m0.eval(s, x) && rel_at(&m0, parts@, x, y);
                assert(some_part(&m0, parts@, i as int, join(x, y)));
            }
            if mgr.eval(out, y) {
                let x = choose|x: Asg| #[trigger]
                    m0.eval(s, x) && some_part(&m0, parts@, i as int, join(x, y));
                assert(rel_at(&m0, parts@, x, y));
            }
        }
        assert forall|a: Asg, b: Asg| (forall|v: u32| #[trigger] bits(w)(v) ==> a(v) == b(v)) implies
            #[trigger] mgr.eval(out, a) == #[trigger] mgr.eval(out, b) by {
            if mgr.eval(out, a) {
                let x = choose|x: Asg| #[trigger] m0.eval(s, x) && rel_at(&m0, parts@, x, a);
                rel_same(&m0, parts@, w, x, a, x, b);
            }
            if mgr.eval(out, b) {
                let x = choose|x: Asg| #[trigger] m0.eval(s, x) && rel_at(&m0, parts@, x, b);
                rel_same(&m0, parts@, w, x, a, x, b);
            }
        }
    }
    out
}

proof fn next_only(m: &Mgr, n: NodeId, a: Asg, b: Asg)
    requires
        forall|v: u32| #[trigger] upcoming()(v) ==> a(v) == b(v),
    ensures
        m.some_choice(n, current(), a) == m.some_choice(n, current(), b),
{
    assert forall|c: Asg| #[trigger] agree_outside(a, c, current()) == agree_outside(b, c, current()) by {
        if agree_outside(a, c, current()) {
            assert forall|v: u32| !current()(v) implies #[trigger] c(v) == b(v) by {
                assert(upcoming()(v));
            }
        }
        if agree_outside(b, c, current()) {
            assert forall|v: u32| !current()(v) implies #[trigger] c(v) == a(v) by {
                assert(upcoming()(v));
            }
        }
    }
    if m.some_choice(n, current(), a) {
        let c = choose|c: Asg| agree_outside(a, c, current()) && #[trigger] m.eval(n, c);
        assert(agree_outside(b, c, current()) && m.eval(n, c));
    }
    if m.some_choice(n, current(), b) {
        let c = choose|c: Asg| agree_outside(b, c, current()) && #[trigger] m.eval(n, c);
        assert(agree_outside(a, c, current()) && m.eval(n, c));
    }
}

/// The states with a successor in `s`.
pub fn preimage(mgr: &mut Mgr, parts: &Vec<NodeId>, w: u32, s: NodeId) -> (r: NodeId)
    requires
        old(mgr).wf(),
        keys_ok(old(mgr)),
        is_rel(old(mgr), parts@, w),
        is_set(old(mgr), s, w),
    ensures
        final(mgr).wf(),
        keys_ok(final(mgr)),
        final(mgr).keeps_values(old(mgr)),
        is_set(final(mgr), r, w),
        forall|x: Asg| #[trigger]
            final(mgr).eval(r, x) == exists|y: Asg| #[trigger]
                old(mgr).eval(s, y) && rel_at(old(mgr), parts@, x, y),
{
    let ghost m0 = *mgr;
    proof {
        mgr.constants_meaning();
        assert forall|a: Asg, b: Asg| (forall|v: u32| #[trigger] current()(v) ==> a(v) == b(v)) implies
            #[trigger] m0.eval(s, a) == #[trigger] m0.eval(s, b) by {
            assert(alike(a, b, w)) by {
                assert forall|v: u32| #[trigger] bits(w)(v) implies a(v) == b(v) by {
                    assert(current()(v));
                }
            }
            same_on(&m0, s, w, a, b);
        }
    }
    let sp = mgr.shift(s, 1);
    let ghost m1 = *mgr;
    let mut out = F;
    let mut i: usize = 0;
    while i < parts.len()
        invariant
            i <= parts@.len(),
            m0 == *old(mgr),
            mgr.wf(),
            keys_ok(mgr),
            mgr.keeps_values(&m0),
            mgr.keeps_values(&m1),
            m1.keeps_values(&m0),
            is_rel(&m0, parts@, w),
            is_set(&m0, s, w),
            m1.valid(sp),
            forall|a: Asg| #[trigger] m1.eval(sp, a) == m0.eval(s, shifted(a, true)),
            mgr.valid(out),
            forall|x: Asg| #[trigger]
                mgr.eval(out, x) == exists|y: Asg| #[trigger]
                    m0.eval(s, y) && some_part(&m0, parts@, i as int, join(x, y)),
        decreases parts.len() - i,
    {
        let p = parts[i];
        assert(m0.valid(parts@[i as int]));
        let ghost m2 = *mgr;
        let step = mgr.and(p, sp);
        let ghost m3 = *mgr;
        let pre = exists_next(mgr, step);
        let ghost m4 = *mgr;
        let ghost out0 = out;
        out = mgr.or(out, pre);
        proof {
            assert forall|x: Asg| #[trigger] mgr.eval(out, x) == exists|y: Asg| #[trigger]
                m0.eval(s, y) && some_part(&m0, parts@, i + 1, join(x, y)) by {
                assert(m4.eval(out0, x) == m2.eval(out0, x));
                assert(m4.eval(pre, x) == m3.some_choice(step, upcoming(), x));
                if m2.eval(out0, x) {
                    let y = choose|y: Asg| #[trigger]
                        m0.eval(s, y) && some_part(&m0, parts@, i as int, join(x, y));
                    let k = choose|k: int|
                        0 <= k < i && m0.eval(#[trigger] parts@[k], join(x, y));
                    assert(0 <= k < i + 1 && m0.eval(parts@[k], join(x, y)));
                    assert(some_part(&m0, parts@, i + 1, join(x, y)));
                }
                if m4.eval(pre, x) {
                    let b = choose|b: Asg|
                        agree_outside(x, b, upcoming()) && #[trigger] m3.eval(step, b);
                    let y = shifted(b, true);
                    assert(join(x, y) =~= b) by {
                        assert forall|v: u32| join(x, y)(v) == #[trigger] b(v) by {
                            if v % 2 == 0 {
                                assert(!upcoming()(v));
                                assert(b(v) == x(v));
                            }
                        }
                    }
                    assert(m2.eval(p, b) && m2.eval(sp, b));
                    assert(m2.eval(sp, b) == m1.eval(sp, b));
                    assert(m0.eval(s, y));
                    assert(m0.eval(parts@[i as int], join(x, y)));
                    assert(some_part(&m0, parts@, i + 1, join(x, y)));
                }
                if exists|y: Asg| #[trigger]
                    m0.eval(s, y) && some_part(&m0, parts@, i + 1, join(x, y)) {
                    let y = choose|y: Asg| #[trigger]
                        m0.eval(s, y) && some_part(&m0, parts@, i + 1, join(x, y));
                    let k = choose|k: int|
                        0 <= k < i + 1 && m0.eval(#[trigger] parts@[k], join(x, y));
                    let b = join(x, y);
                    if k < i {
                        assert(some_part(&m0, parts@, i as int, b));
                        assert(m2.eval(out0, x));
                    } else {
                        assert(alike(y, shifted(b, true), w));
                        same_on(&m0, s, w, y, shifted(b, true));
                        assert(m2.eval(p, b) == m0.eval(p, b));
                        assert(m1.eval(sp, b));
                        assert(m2.eval(sp, b) == m1.eval(sp, b));
                        assert(m3.eval(step, b));
                        assert(agree_outside(x, b, upcoming()));
                        assert(m3.some_choice(step, upcoming(), x));
                    }
                }
            }
        }
        i += 1;
    }
    proof {
        assert forall|x: Asg| #[trigger] mgr.eval(out, x) == exists|y: Asg| #[trigger]
            m0.eval(s, y) && rel_at(&m0, parts@, x, y) by {
            if exists|y: Asg| #[trigger] m0.eval(s, y) && rel_at(&m0, parts@, x, y) {
                let y = choose|y: Asg| #[trigger] m0.eval(s, y) && rel_at(&m0, parts@, x, y);
                assert(some_part(&m0, parts@, i as int, join(x, y)));
            }
            if mgr.eval(out, x) {
                let y = choose|y: Asg| #[trigger]
                    m0.eval(s, y) && some_part(&m0, parts@, i as int, join(x, y));
                assert(rel_at(&m0, parts@, x, y));
            }
        }
        assert forall|a: Asg, b: Asg| (forall|v: u32| #[trigger] bits(w)(v) ==> a(v) == b(v)) implies
            #[trigger] mgr.eval(out, a) == #[trigger] mgr.eval(out, b) by {
            if mgr.eval(out, a) {
                let y = choose|y: Asg| #[trigger] m0.eval(s, y) && rel_at(&m0, parts@, a, y);
                rel_same(&m0, parts@, w, a, y, b, y);
            }
            if mgr.eval(out, b) {
                let y = choose|y: Asg| #[trigger] m0.eval(s, y) && rel_at(&m0, parts@, b, y);
                rel_same(&m0, parts@, w, a, y, b, y);
            }
        }
    }
    out
}

/// The state of a partial assignment: what is not assigned is false.
pub open spec fn asg_of(c: Map<u32, bool>) -> Asg {
    |v: u32| c.contains_key(v) && c[v]
}

/// The set of one state.
pub fn cube_set(mgr: &mut Mgr, c: &Cube, w: u32) -> (r: NodeId)
    requires
        old(mgr).wf(),
        w % 2 == 0,
        w <= VAR_LIMIT,
    ensures
        final(mgr).wf(),
        final(mgr).keeps(old(mgr)),
        is_set(final(mgr), r, w),
        forall|x: Asg| #[trigger] final(mgr).eval(r, x) == alike(x, asg_of(c@), w),
{
    proof {
        mgr.constants_meaning();
    }
    let mut r = T;
    let mut v: u32 = 0;
    while v < w
        invariant
            v % 2 == 0,
            w % 2 == 0,
            v <= w,
            w <= VAR_LIMIT,
            mgr.wf(),
            mgr.keeps(old(mgr)),
            mgr.valid(r),
            forall|x: Asg| #[trigger] mgr.eval(r, x) == alike(x, asg_of(c@), v),
        decreases w - v,
    {
        let ghost m0 = *mgr;
        let ghost r0 = r;
        let on = match cube_get(c, v) {
            Some(b) => b,
            None => false,
        };
        let lit = if on {
            mgr.var(v)
        } else {
            mgr.nvar(v)
        };
        let ghost m1 = *mgr;
        r = mgr.and(r, lit);
        proof {
            let y = asg_of(c@);
            assert forall|x: Asg| #[trigger] mgr.eval(r, x) == alike(x, y, (v + 2) as u32) by {
                assert(m1.eval(r0, x) == m0.eval(r0, x));
                assert(m1.eval(lit, x) == (x(v) == y(v)));
                if alike(x, y, (v + 2) as u32) {
                    assert(bits((v + 2) as u32)(v));
                    assert forall|u: u32| #[trigger] bits(v)(u) implies x(u) == y(u) by {
                        assert(bits((v + 2) as u32)(u));
                    }
                }
                if alike(x, y, v) && x(v) == y(v) {
                    assert forall|u: u32| #[trigger] bits((v + 2) as u32)(u) implies x(u) == y(u) by {
                        if u != v {
                            assert(bits(v)(u));
                        }
                    }
                }
            }
        }
        v += 2;
    }
    assert forall|a: Asg, b: Asg| (forall|v: u32| #[trigger] bits(w)(v) ==> a(v) == b(v)) implies
        #[trigger] mgr.eval(r, a) == #[trigger] mgr.eval(r, b) by {}
    r
}

proof fn and_set(m: &Mgr, old: &Mgr, a: NodeId, b: NodeId, r: NodeId, w: u32)
    requires
        is_set(old, a, w),
        is_set(old, b, w),
        m.valid(r),
        forall|x: Asg| #[trigger] m.eval(r, x) == (old.eval(a, x) && old.eval(b, x)),
    ensures
        is_set(m, r, w),
{
    let q = bits(w);
    assert forall|x: Asg, y: Asg| (forall|v: u32| #[trigger] q(v) ==> x(v) == y(v)) implies #[trigger] m.eval(
        r,
        x,
    ) == #[trigger] m.eval(r, y) by {
        assert(old.eval(a, x) == old.eval(a, y));
        assert(old.eval(b, x) == old.eval(b, y));
    }
}

proof fn or_set(m: &Mgr, old: &Mgr, a: NodeId, b: NodeId, r: NodeId, w: u32)
    requires
        is_set(old, a, w),
        is_set(old, b, w),
        m.valid(r),
        forall|x: Asg| #[trigger] m.eval(r, x) == (old.eval(a, x) || old.eval(b, x)),
    ensures
        is_set(m, r, w),
{
    let q = bits(w);
    assert forall|x: Asg, y: Asg| (forall|v: u32| #[trigger] q(v) ==> x(v) == y(v)) implies #[trigger] m.eval(
        r,
        x,
    ) == #[trigger] m.eval(r, y) by {
        assert(old.eval(a, x) == old.eval(a, y));
        assert(old.eval(b, x) == old.eval(b, y));
    }
}

proof fn not_set(m: &Mgr, old: &Mgr, a: NodeId, r: NodeId, w: u32)
    requires
        is_set(old, a, w),
        m.valid(r),
        forall|x: Asg| #[trigger] m.eval(r, x) == !old.eval(a, x),
    ensures
        is_set(m, r, w),
{
    let q = bits(w);
    assert forall|x: Asg, y: Asg| (forall|v: u32| #[trigger] q(v) ==> x(v) == y(v)) implies #[trigger] m.eval(
        r,
        x,
    ) == #[trigger] m.eval(r, y) by {
        assert(old.eval(a, x) == old.eval(a, y));
    }
}

/// Conjunction of two sets.
pub fn meet(mgr: &mut Mgr, a: NodeId, b: NodeId, Ghost(w): Ghost<u32>) -> (r: NodeId)
    requires
        old(mgr).wf(),
        is_set(old(mgr), a, w),
        is_set(old(mgr), b, w),
    ensures
        final(mgr).wf(),
        final(mgr).keeps(old(mgr)),
        is_set(final(mgr), r, w),
        forall|x: Asg| #[trigger]
            final(mgr).eval(r, x) == (old(mgr).eval(a, x) && old(mgr).eval(b, x)),
{
    let r = mgr.and(a, b);
    proof {
        and_set(mgr, old(mgr), a, b, r, w);
    }
    r
}

/// Union of two sets.
pub fn union(mgr: &mut Mgr, a: NodeId, b: NodeId, Ghost(w): Ghost<u32>) -> (r: NodeId)
    requires
        old(mgr).wf(),
        is_set(old(mgr), a, w),
        is_set(old(mgr), b, w),
    ensures
        final(mgr).wf(),
        final(mgr).keeps(old(mgr)),
        is_set(final(mgr), r, w),
        forall|x: Asg| #[trigger]
            final(mgr).eval(r, x) == (old(mgr).eval(a, x) || old(mgr).eval(b, x)),
{
    let r = mgr.or(a, b);
    proof {
        or_set(mgr, old(mgr), a, b, r, w);
    }
    r
}

/// Complement of a set.
pub fn outside(mgr: &mut Mgr, a: NodeId, Ghost(w): Ghost<u32>) -> (r: NodeId)
    requires
        old(mgr).wf(),
        is_set(old(mgr), a, w),
    ensures
        final(mgr).wf(),
        final(mgr).keeps(old(mgr)),
        is_set(final(mgr), r, w),
        forall|x: Asg| #[trigger] final(mgr).eval(r, x) == !old(mgr).eval(a, x),
{
    let r = mgr.not(a);
    proof {
        not_set(mgr, old(mgr), a, r, w);
    }
    r
}

/// The states follow one another.
pub open spec fn linked(r: BR, p: Seq<Cube>) -> bool {
    forall|i: int| 0 <= i < p.len() - 1 ==> r(asg_of((#[trigger] p[i])@), asg_of(p[i + 1]@))
}

/// A state of a set.
pub fn pick_state(mgr: &Mgr, n: NodeId) -> (r: Cube)
    requires
        mgr.wf(),
        mgr.valid(n),
        n != F,
    ensures
        mgr.eval(n, asg_of(r@)),
{
    let r = mgr.pick(n).unwrap();
    assert(consistent(asg_of(r@), r@));
    r
}

/// Each layer can be left only into the next.
spec fn layered(m: &Mgr, parts: Seq<NodeId>, rings: Seq<NodeId>, w: u32) -> bool {
    &&& forall|i: int| 0 <= i < rings.len() ==> is_set(m, #[trigger] rings[i], w)
    &&& forall|i: int, y: Asg|
        0 < i < rings.len() && #[trigger] m.eval(rings[i], y) ==> one_step(
            set_of(m, rings[i - 1]),
            rel_of(m, parts),
            y,
        )
}

/// A path through the layers into `hit`.
fn trace(mgr: &mut Mgr, parts: &Vec<NodeId>, w: u32, rings: &Vec<NodeId>, hit: NodeId) -> (p: Vec<
    Cube,
>)
    requires
        old(mgr).wf(),
        keys_ok(old(mgr)),
        is_rel(old(mgr), parts@, w),
        layered(old(mgr), parts@, rings@, w),
        rings@.len() > 0,
        is_set(old(mgr), hit, w),
        hit != F,
        forall|y: Asg| #[trigger]
            old(mgr).eval(hit, y) ==> old(mgr).eval(rings@[rings@.len() - 1], y),
    ensures
        final(mgr).wf(),
        keys_ok(final(mgr)),
        final(mgr).keeps_values(old(mgr)),
        p@.len() == rings@.len(),
        linked(rel_of(old(mgr), parts@), p@),
        forall|i: int|
            0 <= i < p@.len() ==> old(mgr).eval(rings@[i], asg_of((#[trigger] p@[i])@)),
        old(mgr).eval(hit, asg_of(p@[p@.len() - 1]@)),
{
    let ghost m0 = *mgr;
    let ghost r = rel_of(&m0, parts@);
    let n: usize = rings.len();
    let last = pick_state(mgr, hit);
    let mut p: Vec<Cube> = Vec::new();
    p.push(last);
    let mut i: usize = n - 1;
    while i > 0
        invariant
            0 <= i <= n - 1,
            n == rings@.len(),
            m0 == *old(mgr),
            r == rel_of(&m0, parts@),
            mgr.wf(),
            keys_ok(mgr),
            mgr.keeps_values(&m0),
            is_rel(&m0, parts@, w),
            layered(&m0, parts@, rings@, w),
            p@.len() == n - i,
            linked(r, p@),
            forall|k: int|
                0 <= k < p@.len() ==> m0.eval(rings@[i + k], asg_of((#[trigger] p@[k])@)),
            m0.eval(hit, asg_of(p@[p@.len() - 1]@)),
        decreases i,
    {
        let ghost c = asg_of(p@[0]@);
        let one = cube_set(mgr, &p[0], w);
        let ghost m1 = *mgr;
        proof {
            rel_keeps(mgr, &m0, parts@, w);
        }
        let pre = preimage(mgr, parts, w, one);
        let ghost m2 = *mgr;
        let ring = rings[i - 1];
        proof {
            assert(is_set(&m0, rings@[i - 1], w));
            set_keeps(mgr, &m0, ring, w);
        }
        let cand = meet(mgr, pre, ring, Ghost(w));
        proof {
            assert(m0.eval(rings@[i + 0], c));
            let x = choose|x: Asg| #[trigger] set_of(&m0, ring)(x) && r(x, c);
            assert(alike(c, c, w));
            assert(m1.eval(one, c));
            assert(rel_at(&m1, parts@, x, c)) by {
                assert(rel_of(&m1, parts@)(x, c));
            }
            assert(m2.eval(pre, x));
            assert(m2.eval(ring, x) == m0.eval(ring, x));
            assert(mgr.eval(cand, x));
            mgr.constants_meaning();
        }
        let s = pick_state(mgr, cand);
        proof {
            let a = asg_of(s@);
            assert(m2.eval(pre, a) && m2.eval(ring, a));
            assert(m0.eval(ring, a));
            let y = choose|y: Asg| #[trigger] m1.eval(one, y) && rel_at(&m1, parts@, a, y);
            assert(alike(y, c, w));
            assert(alike(a, a, w));
            rel_same(&m1, parts@, w, a, y, a, c);
            assert(rel_of(&m1, parts@)(a, c));
            assert(r(a, c));
        }
        let ghost p0 = p@;
        p.insert(0, s);
        proof {
            assert forall|k: int| 0 <= k < p@.len() - 1 implies r(
                asg_of((#[trigger] p@[k])@),
                asg_of(p@[k + 1]@),
            ) by {
                if k > 0 {
                    assert(p@[k] == p0[k - 1]);
                    assert(p@[k + 1] == p0[k]);
                } else {
                    assert(p@[1] == p0[0]);
                }
            }
            assert forall|k: int| 0 <= k < p@.len() implies m0.eval(
                rings@[i - 1 + k],
                asg_of((#[trigger] p@[k])@),
            ) by {
                if k > 0 {
                    assert(p@[k] == p0[k - 1]);
                }
            }
            assert(p@[p@.len() - 1] == p0[p0.len() - 1]);
        }
        i -= 1;
    }
    p
}

/// How the search for `t` from `s` ended.
pub open spec fn found(s: BF, r: BR, t: BF, min: int, max: Option<usize>, res: Option<Seq<Cube>>) -> bool {
    match res {
        Some(p) => {
            &&& p.len() > 0
            &&& min <= p.len() - 1
            &&& max matches Some(m) ==> p.len() - 1 <= m
            &&& s(asg_of(p[0]@))
            &&& linked(r, p)
            &&& t(asg_of(p[p.len() - 1]@))
            &&& first_at(s, r, (p.len() - 1) as nat, asg_of(p[p.len() - 1]@))
            &&& forall|k: nat, y: Asg|
                min <= k < p.len() - 1 ==> !(#[trigger] first_at(s, r, k, y) && t(y))
        },
        None => forall|k: nat, y: Asg|
            min <= k && (max matches Some(m) ==> k <= m) ==> !(#[trigger] first_at(s, r, k, y) && t(
                y,
            )),
    }
}

/// The content of an optional path.
pub open spec fn path_of(p: Option<Vec<Cube>>) -> Option<Seq<Cube>> {
    match p {
        Some(v) => Some(v@),
        None => None,
    }
}

/// Searches for a shortest path from `start` to a state of `target` whose distance is at least
/// `min` and at most `max`.
pub fn find(
    mgr: &mut Mgr,
    parts: &Vec<NodeId>,
    w: u32,
    start: NodeId,
    target: NodeId,
    min: usize,
    max: Option<usize>,
) -> (res: Option<Vec<Cube>>)
    requires
        old(mgr).wf(),
        keys_ok(old(mgr)),
        is_rel(old(mgr), parts@, w),
        is_set(old(mgr), start, w),
        is_set(old(mgr), target, w),
    ensures
        final(mgr).wf(),
        keys_ok(final(mgr)),
        final(mgr).keeps_values(old(mgr)),
        found(
            set_of(old(mgr), start),
            rel_of(old(mgr), parts@),
            set_of(old(mgr), target),
            min as int,
            max,
            path_of(res),
        ),
{
    let ghost m0 = *mgr;
    let ghost s = set_of(&m0, start);
    let ghost r = rel_of(&m0, parts@);
    let ghost t = set_of(&m0, target);
    let mut rings: Vec<NodeId> = Vec::new();
    rings.push(start);
    let mut reach = start;
    let mut frontier = start;
    proof {
        assert forall|y: Asg| #[trigger] m0.eval(start, y) == first_at(s, r, 0, y) by {
            assert(after(s, r, 0, y) == s(y));
        }
        assert forall|y: Asg| #[trigger] m0.eval(start, y) == within(s, r, 0, y) by {
            if m0.eval(start, y) {
                assert(after(s, r, 0, y));
            }
            if within(s, r, 0, y) {
                let j = choose|j: nat| j <= 0 && #[trigger] after(s, r, j, y);
                assert(j == 0);
            }
        }
        count_bound(fun_of(mgr, reach), w as nat, |v: u32| false);
    }
    loop
        invariant
            m0 == *old(mgr),
            s == set_of(&m0, start),
            r == rel_of(&m0, parts@),
            t == set_of(&m0, target),
            mgr.wf(),
            keys_ok(mgr),
            mgr.keeps_values(&m0),
            is_rel(&m0, parts@, w),
            is_set(&m0, target, w),
            rings@.len() > 0,
            frontier == rings@[rings@.len() - 1],
            forall|i: int| 0 <= i < rings@.len() ==> is_set(mgr, #[trigger] rings@[i], w),
            forall|i: int, y: Asg|
                0 <= i < rings@.len() ==> #[trigger] mgr.eval(rings@[i], y) == first_at(
                    s,
                    r,
                    i as nat,
                    y,
                ),
            is_set(mgr, reach, w),
            forall|y: Asg| #[trigger]
                mgr.eval(reach, y) == within(s, r, (rings@.len() - 1) as nat, y),
            forall|k: nat, y: Asg|
                min <= k < rings@.len() - 1 ==> !(#[trigger] first_at(s, r, k, y) && t(y)),
            max matches Some(m) ==> rings@.len() - 1 <= m,
            size(mgr, reach, w) <= p2(w as nat),
        decreases p2(w as nat) - size(mgr, reach, w),
    {
        let k: usize = rings.len() - 1;
        let ghost mk = *mgr;
        proof {
            set_keeps(mgr, &m0, target, w);
        }
        if k >= min {
            assert(is_set(mgr, rings@[k as int], w));
            let hit = meet(mgr, frontier, target, Ghost(w));
            if hit != F {
                proof {
                    rel_keeps(mgr, &m0, parts@, w);
                    assert forall|i: int| 0 <= i < rings@.len() implies is_set(mgr, #[trigger] rings@[i], w) by {
                        set_keeps(mgr, &mk, rings@[i], w);
                    }
                    assert forall|i: int, y: Asg| 0 < i < rings@.len() && #[trigger] mgr.eval(
                        rings@[i],
                        y,
                    ) implies one_step(set_of(mgr, rings@[i - 1]), rel_of(mgr, parts@), y) by {
                        assert(is_set(&mk, rings@[i], w) && is_set(&mk, rings@[i - 1], w));
                        assert(mk.eval(rings@[i], y));
                        assert(first_at(s, r, i as nat, y));
                        first_step(s, r, (i - 1) as nat, y);
                        let x = choose|x: Asg| #[trigger]
                            first_at(s, r, (i - 1) as nat, x) && r(x, y);
                        assert(mk.eval(rings@[i - 1], x));
                        assert(set_of(mgr, rings@[i - 1])(x) && rel_of(mgr, parts@)(x, y));
                    }
                }
                let ghost mh = *mgr;
                let p = trace(mgr, parts, w, &rings, hit);
                proof {
                    let e = asg_of(p@[p@.len() - 1]@);
                    assert(mh.eval(hit, e));
                    assert(mk.eval(frontier, e) && mk.eval(target, e));
                    assert(first_at(s, r, k as nat, e));
                    assert(t(e));
                    assert(mh.eval(rings@[0], asg_of(p@[0]@)));
                    assert(is_set(&mk, rings@[0], w));
                    assert(mk.eval(rings@[0], asg_of(p@[0]@)));
                    assert(first_at(s, r, 0, asg_of(p@[0]@)));
                    assert(after(s, r, 0, asg_of(p@[0]@)));
                    assert(rel_of(&mh, parts@) == r);
                }
                return Some(p);
            }
            proof {
                mgr.constants_meaning();
                assert forall|y: Asg| !(#[trigger] first_at(s, r, k as nat, y) && t(y)) by {
                    assert(!mgr.eval(hit, y));
                    assert(mk.eval(rings@[k as int], y) == first_at(s, r, k as nat, y));
                    assert(mk.eval(target, y) == t(y));
                }
            }
        }
        match max {
            Some(m) => {
                if k >= m {
                    return None;
                }
            },
            None => {},
        }
        let ghost m1 = *mgr;
        proof {
            rel_keeps(mgr, &m0, parts@, w);
            assert(is_set(&mk, rings@[k as int], w));
            set_keeps(mgr, &mk, frontier, w);
            set_keeps(mgr, &mk, reach, w);
        }
        let img = image(mgr, parts, w, frontier);
        let ghost m2 = *mgr;
        proof {
            set_keeps(mgr, &m1, reach, w);
        }
        let nreach = union(mgr, reach, img, Ghost(w));
        let ghost m3 = *mgr;
        proof {
            assert forall|y: Asg| #[trigger] m2.eval(img, y) == (exists|x: Asg| #[trigger]
                first_at(s, r, k as nat, x) && r(x, y)) by {
                if m2.eval(img, y) {
                    let x = choose|x: Asg| #[trigger]
                        m1.eval(frontier, x) && rel_at(&m1, parts@, x, y);
                    assert(mk.eval(rings@[k as int], x));
                    assert(first_at(s, r, k as nat, x));
                    assert(rel_of(&m1, parts@)(x, y));
                    assert(r(x, y));
                }
                if exists|x: Asg| #[trigger] first_at(s, r, k as nat, x) && r(x, y) {
                    let x = choose|x: Asg| #[trigger] first_at(s, r, k as nat, x) && r(x, y);
                    assert(mk.eval(rings@[k as int], x));
                    assert(m1.eval(frontier, x));
                    assert(rel_of(&m1, parts@)(x, y));
                    assert(rel_at(&m1, parts@, x, y));
                }
            }
            assert forall|y: Asg| #[trigger] m3.eval(nreach, y) == within(s, r, (k + 1) as nat, y) by {
                first_step(s, r, k as nat, y);
                assert(m2.eval(reach, y) == mk.eval(reach, y));
                assert(m2.eval(img, y) == (exists|x: Asg| #[trigger]
                    first_at(s, r, k as nat, x) && r(x, y)));
            }
        }
        if nreach == reach {
            proof {
                assert forall|z: Asg| #[trigger] within(s, r, (k + 1) as nat, z) implies within(
                    s,
                    r,
                    k as nat,
                    z,
                ) by {
                    assert(m3.eval(nreach, z));
                    assert(m3.eval(reach, z) == mk.eval(reach, z));
                }
                assert forall|j: nat, y: Asg| min <= j implies !(#[trigger] first_at(s, r, j, y) && t(y)) by {
                    if first_at(s, r, j, y) && t(y) {
                        closed_stays(s, r, k as nat, j, y);
                        let i = choose|i: nat| i <= k && #[trigger] after(s, r, i, y);
                        assert(j <= k);
                    }
                }
            }
            return None;
        }
        proof {
            set_keeps(&m3, &m2, reach, w);
            assert forall|x: Asg| #[trigger] m3.eval(reach, x) implies m3.eval(nreach, x) by {
                assert(m2.eval(reach, x));
            }
            size_grows(&m3, reach, nreach, w);
            size_keeps(&m3, &mk, reach, w);
        }
        let not_reach = outside(mgr, reach, Ghost(w));
        let ghost m4 = *mgr;
        proof {
            set_keeps(&m4, &m2, img, w);
        }
        frontier = meet(mgr, img, not_reach, Ghost(w));
        let ghost rings0 = rings@;
        rings.push(frontier);
        proof {
            set_keeps(mgr, &m3, nreach, w);
            size_keeps(mgr, &m3, nreach, w);
            assert forall|i: int| 0 <= i < rings@.len() implies is_set(mgr, #[trigger] rings@[i], w) by {
                if i < rings0.len() {
                    assert(is_set(&mk, rings0[i], w));
                    set_keeps(mgr, &mk, rings0[i], w);
                }
            }
            assert forall|i: int, y: Asg| 0 <= i < rings@.len() implies #[trigger] mgr.eval(rings@[i], y)
                == first_at(s, r, i as nat, y) by {
                if i < rings0.len() {
                    assert(is_set(&mk, rings0[i], w));
                    assert(mgr.eval(rings0[i], y) == mk.eval(rings0[i], y));
                } else {
                    first_step(s, r, k as nat, y);
                    assert(m4.eval(img, y) == m2.eval(img, y));
                    assert(m4.eval(not_reach, y) == !m3.eval(reach, y));
                    assert(m3.eval(reach, y) == mk.eval(reach, y));
                    assert(m2.eval(img, y) == (exists|x: Asg| #[trigger]
                        first_at(s, r, k as nat, x) && r(x, y)));
                }
            }
            assert forall|y: Asg| #[trigger] mgr.eval(nreach, y) == within(
                s,
                r,
                (rings@.len() - 1) as nat,
                y,
            ) by {
                assert(mgr.eval(nreach, y) == m3.eval(nreach, y));
            }
        }
        reach = nreach;
    }
}

/// The states that `start` reaches, and its layers: layer `k` holds the states at distance `k`.
pub fn layers(mgr: &mut Mgr, parts: &Vec<NodeId>, w: u32, start: NodeId) -> (res: (NodeId, Vec<NodeId>))
    requires
        old(mgr).wf(),
        keys_ok(old(mgr)),
        is_rel(old(mgr), parts@, w),
        is_set(old(mgr), start, w),
    ensures
        final(mgr).wf(),
        keys_ok(final(mgr)),
        final(mgr).keeps_values(old(mgr)),
        is_set(final(mgr), res.0, w),
        forall|y: Asg| #[trigger]
            final(mgr).eval(res.0, y) == reaches(
                set_of(old(mgr), start),
                rel_of(old(mgr), parts@),
                y,
            ),
        res.1@.len() > 0,
        forall|i: int| 0 <= i < res.1@.len() ==> is_set(final(mgr), #[trigger] res.1@[i], w),
        forall|i: int, y: Asg|
            0 <= i < res.1@.len() ==> #[trigger] final(mgr).eval(res.1@[i], y) == first_at(
                set_of(old(mgr), start),
                rel_of(old(mgr), parts@),
                i as nat,
                y,
            ),
        forall|y: Asg| #[trigger]
            final(mgr).eval(res.0, y) == within(
                set_of(old(mgr), start),
                rel_of(old(mgr), parts@),
                (res.1@.len() - 1) as nat,
                y,
            ),
{
    let ghost m0 = *mgr;
    let ghost s = set_of(&m0, start);
    let ghost r = rel_of(&m0, parts@);
    let mut rings: Vec<NodeId> = Vec::new();
    rings.push(start);
    let mut reach = start;
    let mut frontier = start;
    proof {
        assert forall|y: Asg| #[trigger] m0.eval(start, y) == first_at(s, r, 0, y) by {
            assert(after(s, r, 0, y) == s(y));
        }
        assert forall|y: Asg| #[trigger] m0.eval(start, y) == within(s, r, 0, y) by {
            if m0.eval(start, y) {
                assert(after(s, r, 0, y));
            }
            if within(s, r, 0, y) {
                let j = choose|j: nat| j <= 0 && #[trigger] after(s, r, j, y);
                assert(j == 0);
            }
        }
        count_bound(fun_of(mgr, reach), w as nat, |v: u32| false);
    }
    loop
        invariant
            m0 == *old(mgr),
            s == set_of(&m0, start),
            r == rel_of(&m0, parts@),
            mgr.wf(),
            keys_ok(mgr),
            mgr.keeps_values(&m0),
            is_rel(&m0, parts@, w),
            rings@.len() > 0,
            frontier == rings@[rings@.len() - 1],
            forall|i: int| 0 <= i < rings@.len() ==> is_set(mgr, #[trigger] rings@[i], w),
            forall|i: int, y: Asg|
                0 <= i < rings@.len() ==> #[trigger] mgr.eval(rings@[i], y) == first_at(
                    s,
                    r,
                    i as nat,
                    y,
                ),
            is_set(mgr, reach, w),
            forall|y: Asg| #[trigger]
                mgr.eval(reach, y) == within(s, r, (rings@.len() - 1) as nat, y),
            size(mgr, reach, w) <= p2(w as nat),
        decreases p2(w as nat) - size(mgr, reach, w),
    {
        let ghost k = (rings@.len() - 1) as int;
        let ghost mk = *mgr;
        proof {
            rel_keeps(mgr, &m0, parts@, w);
            assert(is_set(&mk, rings@[k], w));
        }
        let img = image(mgr, parts, w, frontier);
        let ghost m2 = *mgr;
        proof {
            set_keeps(mgr, &mk, reach, w);
        }
        let nreach = union(mgr, reach, img, Ghost(w));
        let ghost m3 = *mgr;
        proof {
            assert forall|y: Asg| #[trigger] m2.eval(img, y) == (exists|x: Asg| #[trigger]
                first_at(s, r, k as nat, x) && r(x, y)) by {
                if m2.eval(img, y) {
                    let x = choose|x: Asg| #[trigger]
                        mk.eval(frontier, x) && rel_at(&mk, parts@, x, y);
                    assert(mk.eval(rings@[k], x));
                    assert(first_at(s, r, k as nat, x));
                    assert(rel_of(&mk, parts@)(x, y));
                    assert(r(x, y));
                }
                if exists|x: Asg| #[trigger] first_at(s, r, k as nat, x) && r(x, y) {
                    let x = choose|x: Asg| #[trigger] first_at(s, r, k as nat, x) && r(x, y);
                    assert(mk.eval(rings@[k], x));
                    assert(rel_of(&mk, parts@)(x, y));
                    assert(rel_at(&mk, parts@, x, y));
                }
            }
            assert forall|y: Asg| #[trigger] m3.eval(nreach, y) == within(s, r, (k + 1) as nat, y) by {
                first_step(s, r, k as nat, y);
                assert(m2.eval(reach, y) == mk.eval(reach, y));
                assert(m2.eval(img, y) == (exists|x: Asg| #[trigger]
                    first_at(s, r, k as nat, x) && r(x, y)));
            }
        }
        if nreach == reach {
            proof {
                assert forall|z: Asg| #[trigger] within(s, r, (k + 1) as nat, z) implies within(
                    s,
                    r,
                    k as nat,
                    z,
                ) by {
                    assert(m3.eval(nreach, z));
                    assert(m3.eval(reach, z) == mk.eval(reach, z));
                }
                assert forall|i: int| 0 <= i < rings@.len() implies is_set(mgr, #[trigger] rings@[i], w) by {
                    set_keeps(mgr, &mk, rings@[i], w);
                }
                assert forall|i: int, y: Asg| 0 <= i < rings@.len() implies #[trigger] mgr.eval(
                    rings@[i],
                    y,
                ) == first_at(s, r, i as nat, y) by {
                    assert(is_set(&mk, rings@[i], w));
                    assert(mgr.eval(rings@[i], y) == mk.eval(rings@[i], y));
                }
                assert forall|y: Asg| #[trigger] mgr.eval(reach, y) == within(s, r, k as nat, y) by {
                    assert(mgr.eval(reach, y) == mk.eval(reach, y));
                }
                assert forall|y: Asg| #[trigger] mgr.eval(reach, y) == reaches(s, r, y) by {
                    if reaches(s, r, y) {
                        let j = choose|j: nat| #[trigger] after(s, r, j, y);
                        closed_stays(s, r, k as nat, j, y);
                    }
                    if within(s, r, k as nat, y) {
                        let j = choose|j: nat| j <= k && #[trigger] after(s, r, j, y);
                        assert(after(s, r, j, y));
                    }
                }
                set_keeps(mgr, &m2, reach, w);
            }
            return (reach, rings);
        }
        proof {
            set_keeps(&m3, &m2, reach, w);
            assert forall|x: Asg| #[trigger] m3.eval(reach, x) implies m3.eval(nreach, x) by {
                assert(m2.eval(reach, x));
            }
            size_grows(&m3, reach, nreach, w);
            size_keeps(&m3, &mk, reach, w);
        }
        let not_reach = outside(mgr, reach, Ghost(w));
        let ghost m4 = *mgr;
        proof {
            set_keeps(&m4, &m2, img, w);
        }
        frontier = meet(mgr, img, not_reach, Ghost(w));
        let ghost rings0 = rings@;
        rings.push(frontier);
        proof {
            set_keeps(mgr, &m3, nreach, w);
            size_keeps(mgr, &m3, nreach, w);
            assert forall|i: int| 0 <= i < rings@.len() implies is_set(mgr, #[trigger] rings@[i], w) by {
                if i < rings0.len() {
                    assert(is_set(&mk, rings0[i], w));
                    set_keeps(mgr, &mk, rings0[i], w);
                }
            }
            assert forall|i: int, y: Asg| 0 <= i < rings@.len() implies #[trigger] mgr.eval(rings@[i], y)
                == first_at(s, r, i as nat, y) by {
                if i < rings0.len() {
                    assert(is_set(&mk, rings0[i], w));
                    assert(mgr.eval(rings0[i], y) == mk.eval(rings0[i], y));
                } else {
                    first_step(s, r, k as nat, y);
                    assert(m4.eval(img, y) == m2.eval(img, y));
                    assert(m4.eval(not_reach, y) == !m3.eval(reach, y));
                    assert(m3.eval(reach, y) == mk.eval(reach, y));
                    assert(m2.eval(img, y) == (exists|x: Asg| #[trigger]
                        first_at(s, r, k as nat, x) && r(x, y)));
                }
            }
            assert forall|y: Asg| #[trigger] mgr.eval(nreach, y) == within(
                s,
                r,
                (rings@.len() - 1) as nat,
                y,
            ) by {
                assert(mgr.eval(nreach, y) == m3.eval(nreach, y));
            }
        }
        reach = nreach;
    }
}

/// After some number of steps from `s` the search can be at `y`.
pub open spec fn reaches(s: BF, r: BR, y: Asg) -> bool {
    exists|k: nat| #[trigger] after(s, r, k, y)
}

/// One step from `x` leads into `f`.
pub open spec fn can_step(f: BF, r: BR, x: Asg) -> bool {
    exists|y: Asg| #[trigger] f(y) && r(x, y)
}

/// The states from which `g` is reached in exactly `k` steps through states of `f`.
pub open spec fn until_set(f: BF, g: BF, r: BR, k: nat) -> BF
    decreases k,
{
    if k == 0 {
        g
    } else {
        let h = until_set(f, g, r, (k - 1) as nat);
        |x: Asg| f(x) && can_step(h, r, x)
    }
}

/// From `x`, `g` is reached in exactly `k` steps through states of `f`.
pub open spec fn until(f: BF, g: BF, r: BR, k: nat, x: Asg) -> bool {
    (until_set(f, g, r, k))(x)
}

/// From `x`, `g` is reached through states of `f`.
pub open spec fn eventually(f: BF, g: BF, r: BR, x: Asg) -> bool {
    exists|k: nat| #[trigger] until(f, g, r, k, x)
}

spec fn until_within(f: BF, g: BF, r: BR, k: nat, x: Asg) -> bool {
    exists|j: nat| j <= k && #[trigger] until(f, g, r, j, x)
}

proof fn until_step(f: BF, g: BF, r: BR, k: nat, x: Asg)
    ensures
        until_within(f, g, r, k + 1, x) == (until_within(f, g, r, k, x) || (f(x) && exists|y: Asg| #[trigger]
            until_within(f, g, r, k, y) && r(x, y))),
{
    if until_within(f, g, r, k, x) {
        let j = choose|j: nat| j <= k && #[trigger] until(f, g, r, j, x);
        assert(j <= k + 1 && until(f, g, r, j, x));
    }
    if f(x) && exists|y: Asg| #[trigger] until_within(f, g, r, k, y) && r(x, y) {
        let y = choose|y: Asg| #[trigger] until_within(f, g, r, k, y) && r(x, y);
        let j = choose|j: nat| j <= k && #[trigger] until(f, g, r, j, y);
        let h = until_set(f, g, r, j);
        assert(h(y) && r(x, y));
        assert(until(f, g, r, j + 1, x));
    }
    if until_within(f, g, r, k + 1, x) {
        let j = choose|j: nat| j <= k + 1 && #[trigger] until(f, g, r, j, x);
        if j == 0 {
            assert(0 <= k && until(f, g, r, 0, x));
        } else {
            let h = until_set(f, g, r, (j - 1) as nat);
            let y = choose|y: Asg| #[trigger] h(y) && r(x, y);
            assert(j - 1 <= k && until(f, g, r, (j - 1) as nat, y));
            assert(until_within(f, g, r, k, y));
        }
    }
}

proof fn until_closed(f: BF, g: BF, r: BR, k: nat, j: nat, x: Asg)
    requires
        forall|z: Asg| #[trigger] until_within(f, g, r, k + 1, z) ==> until_within(f, g, r, k, z),
        until(f, g, r, j, x),
    ensures
        until_within(f, g, r, k, x),
    decreases j,
{
    if j > k {
        let h = until_set(f, g, r, (j - 1) as nat);
        let y = choose|y: Asg| #[trigger] h(y) && r(x, y);
        assert(until(f, g, r, (j - 1) as nat, y));
        until_closed(f, g, r, k, (j - 1) as nat, y);
        until_step(f, g, r, k, x);
        assert(until_within(f, g, r, k + 1, x));
    }
}

/// The states from which `g` is reached through states of `f`.
pub fn eu(mgr: &mut Mgr, parts: &Vec<NodeId>, w: u32, f: NodeId, g: NodeId) -> (z: NodeId)
    requires
        old(mgr).wf(),
        keys_ok(old(mgr)),
        is_rel(old(mgr), parts@, w),
        is_set(old(mgr), f, w),
        is_set(old(mgr), g, w),
    ensures
        final(mgr).wf(),
        keys_ok(final(mgr)),
        final(mgr).keeps_values(old(mgr)),
        is_set(final(mgr), z, w),
        forall|x: Asg| #[trigger]
            final(mgr).eval(z, x) == eventually(
                set_of(old(mgr), f),
                set_of(old(mgr), g),
                rel_of(old(mgr), parts@),
                x,
            ),
{
    let ghost m0 = *mgr;
    let ghost ff = set_of(&m0, f);
    let ghost gg = set_of(&m0, g);
    let ghost r = rel_of(&m0, parts@);
    let mut z = g;
    let ghost mut k: nat = 0;
    proof {
        assert forall|x: Asg| #[trigger] m0.eval(g, x) == until_within(ff, gg, r, 0, x) by {
            if m0.eval(g, x) {
                assert(until(ff, gg, r, 0, x));
            }
            if until_within(ff, gg, r, 0, x) {
                let j = choose|j: nat| j <= 0 && #[trigger] until(ff, gg, r, j, x);
                assert(j == 0);
            }
        }
        count_bound(fun_of(mgr, z), w as nat, |v: u32| false);
    }
    loop
        invariant
            m0 == *old(mgr),
            ff == set_of(&m0, f),
            gg == set_of(&m0, g),
            r == rel_of(&m0, parts@),
            mgr.wf(),
            keys_ok(mgr),
            mgr.keeps_values(&m0),
            is_rel(&m0, parts@, w),
            is_set(&m0, f, w),
            is_set(mgr, z, w),
            forall|x: Asg| #[trigger] mgr.eval(z, x) == until_within(ff, gg, r, k, x),
            size(mgr, z, w) <= p2(w as nat),
        decreases p2(w as nat) - size(mgr, z, w),
    {
        let ghost mk = *mgr;
        proof {
            rel_keeps(mgr, &m0, parts@, w);
        }
        let pre = preimage(mgr, parts, w, z);
        let ghost m1 = *mgr;
        proof {
            set_keeps(mgr, &m0, f, w);
        }
        let fpre = meet(mgr, f, pre, Ghost(w));
        let ghost m2 = *mgr;
        proof {
            set_keeps(mgr, &mk, z, w);
        }
        let nz = union(mgr, z, fpre, Ghost(w));
        proof {
            assert forall|x: Asg| #[trigger] mgr.eval(nz, x) == until_within(ff, gg, r, k + 1, x) by {
                until_step(ff, gg, r, k, x);
                assert(m2.eval(z, x) == mk.eval(z, x));
                assert(m2.eval(fpre, x) == (m1.eval(f, x) && m1.eval(pre, x)));
                assert(m1.eval(f, x) == ff(x));
                if m1.eval(pre, x) {
                    let y = choose|y: Asg| #[trigger] mk.eval(z, y) && rel_at(&mk, parts@, x, y);
                    assert(until_within(ff, gg, r, k, y));
                    assert(rel_of(&mk, parts@)(x, y));
                    assert(r(x, y));
                }
                if exists|y: Asg| #[trigger] until_within(ff, gg, r, k, y) && r(x, y) {
                    let y = choose|y: Asg| #[trigger] until_within(ff, gg, r, k, y) && r(x, y);
                    assert(mk.eval(z, y));
                    assert(rel_of(&mk, parts@)(x, y));
                    assert(rel_at(&mk, parts@, x, y));
                }
            }
        }
        if nz == z {
            proof {
                assert forall|x: Asg| #[trigger] until_within(ff, gg, r, k + 1, x) implies until_within(
                    ff,
                    gg,
                    r,
                    k,
                    x,
                ) by {
                    assert(mgr.eval(nz, x));
                    assert(mgr.eval(z, x) == mk.eval(z, x));
                }
                assert forall|x: Asg| #[trigger] mgr.eval(z, x) == eventually(ff, gg, r, x) by {
                    assert(mgr.eval(z, x) == mk.eval(z, x));
                    if until_within(ff, gg, r, k, x) {
                        let j = choose|j: nat| j <= k && #[trigger] until(ff, gg, r, j, x);
                        assert(until(ff, gg, r, j, x));
                    }
                    if eventually(ff, gg, r, x) {
                        let j = choose|j: nat| #[trigger] until(ff, gg, r, j, x);
                        until_closed(ff, gg, r, k, j, x);
                    }
                }
            }
            return z;
        }
        proof {
            set_keeps(mgr, &m2, z, w);
            assert forall|x: Asg| #[trigger] mgr.eval(z, x) implies mgr.eval(nz, x) by {
                assert(m2.eval(z, x));
            }
            size_grows(mgr, z, nz, w);
            size_keeps(mgr, &mk, z, w);
            k = k + 1;
        }
        z = nz;
    }
}

/// The states from which `k` steps through states of `f` are possible.
pub open spec fn stay_set(f: BF, r: BR, k: nat) -> BF
    decreases k,
{
    if k == 0 {
        f
    } else {
        let h = stay_set(f, r, (k - 1) as nat);
        |x: Asg| f(x) && can_step(h, r, x)
    }
}

spec fn stay(f: BF, r: BR, k: nat, x: Asg) -> bool {
    (stay_set(f, r, k))(x)
}

/// The states follow one another for ever, all in `f`.
pub open spec fn endless(f: BF, r: BR, p: spec_fn(nat) -> Asg) -> bool {
    &&& forall|i: nat| f(#[trigger] p(i))
    &&& forall|i: nat| #[trigger] hops(r, p, i)
}

/// The sequence makes a step after `i`.
pub open spec fn hops(r: BR, p: spec_fn(nat) -> Asg, i: nat) -> bool {
    r(p(i), p((i + 1) as nat))
}

/// Some endless path through `f` starts at `x`.
pub open spec fn forever(f: BF, r: BR, x: Asg) -> bool {
    exists|p: spec_fn(nat) -> Asg| #[trigger] endless(f, r, p) && p(0) == x
}

spec fn walk(z: BF, r: BR, x: Asg, n: nat) -> Asg
    decreases n,
{
    if n == 0 {
        x
    } else {
        let y = walk(z, r, x, (n - 1) as nat);
        choose|u: Asg| #[trigger] z(u) && r(y, u)
    }
}

proof fn walk_in(z: BF, r: BR, x: Asg, n: nat)
    requires
        forall|y: Asg| #[trigger] z(y) ==> can_step(z, r, y),
        z(x),
    ensures
        z(walk(z, r, x, n)),
        r(walk(z, r, x, n), walk(z, r, x, n + 1)),
    decreases n,
{
    if n > 0 {
        walk_in(z, r, x, (n - 1) as nat);
        let y = walk(z, r, x, (n - 1) as nat);
        assert(can_step(z, r, y));
    }
    let y = walk(z, r, x, n);
    assert(z(y)) by {
        if n > 0 {
            let u = walk(z, r, x, (n - 1) as nat);
            assert(z(u));
            assert(can_step(z, r, u));
        }
    }
    assert(can_step(z, r, y));
}

proof fn stay_of_endless(f: BF, r: BR, p: spec_fn(nat) -> Asg, i: nat, k: nat)
    requires
        endless(f, r, p),
    ensures
        stay(f, r, k, p(i)),
    decreases k,
{
    assert(f(p(i)));
    if k > 0 {
        stay_of_endless(f, r, p, i + 1, (k - 1) as nat);
        let h = stay_set(f, r, (k - 1) as nat);
        assert(hops(r, p, i));
        assert(h(p(i + 1)) && r(p(i), p(i + 1)));
    }
}

proof fn stay_less(f: BF, r: BR, k: nat, x: Asg)
    requires
        stay(f, r, k + 1, x),
    ensures
        stay(f, r, k, x),
    decreases k,
{
    if k > 0 {
        let h = stay_set(f, r, k);
        let y = choose|y: Asg| #[trigger] h(y) && r(x, y);
        stay_less(f, r, (k - 1) as nat, y);
        let h2 = stay_set(f, r, (k - 1) as nat);
        assert(h2(y) && r(x, y));
    }
}

/// The states from which an endless path through `f` starts.
pub fn eg(mgr: &mut Mgr, parts: &Vec<NodeId>, w: u32, f: NodeId) -> (z: NodeId)
    requires
        old(mgr).wf(),
        keys_ok(old(mgr)),
        is_rel(old(mgr), parts@, w),
        is_set(old(mgr), f, w),
    ensures
        final(mgr).wf(),
        keys_ok(final(mgr)),
        final(mgr).keeps_values(old(mgr)),
        is_set(final(mgr), z, w),
        forall|x: Asg| #[trigger]
            final(mgr).eval(z, x) == forever(set_of(old(mgr), f), rel_of(old(mgr), parts@), x),
{
    let ghost m0 = *mgr;
    let ghost ff = set_of(&m0, f);
    let ghost r = rel_of(&m0, parts@);
    let mut z = f;
    let ghost mut k: nat = 0;
    loop
        invariant
            m0 == *old(mgr),
            ff == set_of(&m0, f),
            r == rel_of(&m0, parts@),
            mgr.wf(),
            keys_ok(mgr),
            mgr.keeps_values(&m0),
            is_rel(&m0, parts@, w),
            is_set(&m0, f, w),
            is_set(mgr, z, w),
            forall|x: Asg| #[trigger] mgr.eval(z, x) == stay(ff, r, k, x),
        decreases size(mgr, z, w),
    {
        let ghost mk = *mgr;
        proof {
            rel_keeps(mgr, &m0, parts@, w);
        }
        let pre = preimage(mgr, parts, w, z);
        let ghost m1 = *mgr;
        proof {
            set_keeps(mgr, &m0, f, w);
        }
        let nz = meet(mgr, f, pre, Ghost(w));
        proof {
            assert forall|x: Asg| #[trigger] mgr.eval(nz, x) == stay(ff, r, k + 1, x) by {
                let h = stay_set(ff, r, k);
                assert(m1.eval(f, x) == ff(x));
                if m1.eval(pre, x) {
                    let y = choose|y: Asg| #[trigger] mk.eval(z, y) && rel_at(&mk, parts@, x, y);
                    assert(stay(ff, r, k, y));
                    assert(rel_of(&mk, parts@)(x, y));
                    assert(h(y) && r(x, y));
                }
                if can_step(h, r, x) {
                    let y = choose|y: Asg| #[trigger] h(y) && r(x, y);
                    assert(stay(ff, r, k, y));
                    assert(mk.eval(z, y));
                    assert(rel_of(&mk, parts@)(x, y));
                    assert(rel_at(&mk, parts@, x, y));
                }
            }
        }
        if nz == z {
            proof {
                assert forall|y: Asg| #[trigger] stay(ff, r, k, y) implies stay(ff, r, k + 1, y) by {
                    assert(mk.eval(z, y));
                    assert(mgr.eval(nz, y) == mgr.eval(z, y));
                }
                assert forall|x: Asg| #[trigger] mgr.eval(z, x) == forever(ff, r, x) by {
                    assert(mgr.eval(z, x) == mk.eval(z, x));
                    stay_fixed(ff, r, k, x);
                }
            }
            return z;
        }
        proof {
            set_keeps(mgr, &mk, z, w);
            assert forall|x: Asg| #[trigger] mgr.eval(nz, x) implies mgr.eval(z, x) by {
                assert(stay(ff, r, k + 1, x));
                stay_less(ff, r, k, x);
                assert(mk.eval(z, x));
            }
            size_grows(mgr, nz, z, w);
            size_keeps(mgr, &mk, z, w);
            k = k + 1;
        }
        z = nz;
    }
}

proof fn stay_fixed(f: BF, r: BR, k: nat, x: Asg)
    requires
        forall|y: Asg| #[trigger] stay(f, r, k, y) ==> stay(f, r, k + 1, y),
    ensures
        stay(f, r, k, x) == forever(f, r, x),
{
    let z = stay_set(f, r, k);
    assert forall|y: Asg| #[trigger] z(y) implies can_step(z, r, y) by {
        assert(stay(f, r, k, y));
        assert(stay(f, r, k + 1, y));
    }
    if stay(f, r, k, x) {
        let p = |n: nat| walk(z, r, x, n);
        assert forall|i: nat| f(#[trigger] p(i)) by {
            walk_in(z, r, x, i);
            assert(stay(f, r, k, p(i)));
            stay_first(f, r, k, p(i));
        }
        assert forall|i: nat| #[trigger] hops(r, p, i) by {
            walk_in(z, r, x, i);
        }
        assert(endless(f, r, p) && p(0) == x);
    }
    if forever(f, r, x) {
        let p = choose|p: spec_fn(nat) -> Asg| #[trigger] endless(f, r, p) && p(0) == x;
        stay_of_endless(f, r, p, 0, k);
    }
}

proof fn stay_first(f: BF, r: BR, k: nat, x: Asg)
    requires
        stay(f, r, k, x),
    ensures
        f(x),
{
}

/// At `i` or later the sequence is in `f`.
pub open spec fn visits_from(f: BF, p: spec_fn(nat) -> Asg, i: nat) -> bool {
    exists|j: nat| i <= j && f(#[trigger] p(j))
}

/// The sequence is in `f` again and again.
pub open spec fn visits(f: BF, p: spec_fn(nat) -> Asg) -> bool {
    forall|i: nat| #[trigger] visits_from(f, p, i)
}

/// An endless path through `h` that is in every set of `fs` again and again.
pub open spec fn fair_path(h: BF, r: BR, fs: Seq<BF>, p: spec_fn(nat) -> Asg) -> bool {
    &&& endless(h, r, p)
    &&& forall|s: int| 0 <= s < fs.len() ==> #[trigger] visits(fs[s], p)
}

/// Some fair path through `h` starts at `x`.
pub open spec fn fair_from(h: BF, r: BR, fs: Seq<BF>, x: Asg) -> bool {
    exists|p: spec_fn(nat) -> Asg| #[trigger] fair_path(h, r, fs, p) && p(0) == x
}

/// The states of `h` in `f`.
pub open spec fn inside(h: BF, f: BF) -> BF {
    |x: Asg| h(x) && f(x)
}

/// From `x` one step leads to a state from which `f` is reached inside `h`.
pub open spec fn serves(h: BF, r: BR, f: BF, x: Asg) -> bool {
    exists|y: Asg| #[trigger] eventually(h, inside(h, f), r, y) && r(x, y)
}

/// A place on a fair walk: the state, the set that is sought, and how far it is.
ghost struct Place {
    x: Asg,
    s: int,
    k: nat,
}

spec fn place_ok(h: BF, r: BR, fs: Seq<BF>, c: Place) -> bool {
    0 <= c.s < fs.len() && until(h, inside(h, fs[c.s]), r, c.k, c.x)
}

spec fn next_set(fs: Seq<BF>, s: int) -> int {
    if s + 1 >= fs.len() {
        0
    } else {
        s + 1
    }
}

spec fn next_place(h: BF, r: BR, fs: Seq<BF>, c: Place) -> Place {
    if c.k > 0 {
        let y = choose|y: Asg| #[trigger]
            until(h, inside(h, fs[c.s]), r, (c.k - 1) as nat, y) && r(c.x, y);
        Place { x: y, s: c.s, k: (c.k - 1) as nat }
    } else {
        let s = next_set(fs, c.s);
        let y = choose|y: Asg| #[trigger] eventually(h, inside(h, fs[s]), r, y) && r(c.x, y);
        let k = choose|k: nat| #[trigger] until(h, inside(h, fs[s]), r, k, y);
        Place { x: y, s, k }
    }
}

spec fn place(h: BF, r: BR, fs: Seq<BF>, c: Place, i: nat) -> Place
    decreases i,
{
    if i == 0 {
        c
    } else {
        next_place(h, r, fs, place(h, r, fs, c, (i - 1) as nat))
    }
}

proof fn until_first(h: BF, g: BF, r: BR, k: nat, x: Asg)
    requires
        until(h, inside(h, g), r, k, x),
    ensures
        h(x),
        k == 0 ==> g(x),
        k > 0 ==> exists|y: Asg| #[trigger] until(h, inside(h, g), r, (k - 1) as nat, y) && r(x, y),
{
    if k > 0 {
        let f = until_set(h, inside(h, g), r, (k - 1) as nat);
        let y = choose|y: Asg| #[trigger] f(y) && r(x, y);
        assert(until(h, inside(h, g), r, (k - 1) as nat, y));
    }
}

proof fn next_ok(h: BF, r: BR, fs: Seq<BF>, c: Place)
    requires
        forall|s: int, x: Asg| 0 <= s < fs.len() && h(x) ==> #[trigger] serves(h, r, fs[s], x),
        0 <= c.s < fs.len(),
        h(c.x),
        c.k > 0 ==> place_ok(h, r, fs, c),
    ensures
        place_ok(h, r, fs, next_place(h, r, fs, c)),
        r(c.x, next_place(h, r, fs, c).x),
        h(next_place(h, r, fs, c).x),
        c.k > 0 ==> next_place(h, r, fs, c).s == c.s && next_place(h, r, fs, c).k == c.k - 1,
        c.k == 0 ==> next_place(h, r, fs, c).s == next_set(fs, c.s),
{
    if c.k > 0 {
        until_first(h, fs[c.s], r, c.k, c.x);
    } else {
        let s = next_set(fs, c.s);
        assert(serves(h, r, fs[s], c.x));
        let y = choose|y: Asg| #[trigger] eventually(h, inside(h, fs[s]), r, y) && r(c.x, y);
        assert(eventually(h, inside(h, fs[s]), r, y));
    }
    let d = next_place(h, r, fs, c);
    until_first(h, fs[d.s], r, d.k, d.x);
}

proof fn place_good(h: BF, r: BR, fs: Seq<BF>, c: Place, i: nat)
    requires
        forall|s: int, x: Asg| 0 <= s < fs.len() && h(x) ==> #[trigger] serves(h, r, fs[s], x),
        0 <= c.s < fs.len(),
        h(c.x),
        c.k == 0,
    ensures
        0 <= place(h, r, fs, c, i).s < fs.len(),
        h(place(h, r, fs, c, i).x),
        i > 0 ==> place_ok(h, r, fs, place(h, r, fs, c, i)),
        r(place(h, r, fs, c, i).x, place(h, r, fs, c, i + 1).x),
        place(h, r, fs, c, i).k > 0 ==> place(h, r, fs, c, i + 1).s == place(h, r, fs, c, i).s && place(
            h,
            r,
            fs,
            c,
            i + 1,
        ).k == place(h, r, fs, c, i).k - 1,
        place(h, r, fs, c, i).k == 0 ==> place(h, r, fs, c, i + 1).s == next_set(
            fs,
            place(h, r, fs, c, i).s,
        ),
    decreases i,
{
    if i > 0 {
        place_good(h, r, fs, c, (i - 1) as nat);
        let b = place(h, r, fs, c, (i - 1) as nat);
        next_ok(h, r, fs, b);
    }
    next_ok(h, r, fs, place(h, r, fs, c, i));
}

/// From any place the walk gets to the set that is sought.
proof fn gets_there(h: BF, r: BR, fs: Seq<BF>, c: Place, i: nat, k: nat) -> (j: nat)
    requires
        forall|s: int, x: Asg| 0 <= s < fs.len() && h(x) ==> #[trigger] serves(h, r, fs[s], x),
        0 <= c.s < fs.len(),
        h(c.x),
        c.k == 0,
        k == place(h, r, fs, c, i).k,
    ensures
        i <= j,
        place(h, r, fs, c, j).k == 0,
        place(h, r, fs, c, j).s == place(h, r, fs, c, i).s,
    decreases k,
{
    place_good(h, r, fs, c, i);
    if k == 0 {
        i
    } else {
        gets_there(h, r, fs, c, i + 1, (k - 1) as nat)
    }
}

/// The walk gets to every set.
proof fn gets_round(h: BF, r: BR, fs: Seq<BF>, c: Place, i: nat, t: int, d: nat) -> (j: nat)
    requires
        forall|s: int, x: Asg| 0 <= s < fs.len() && h(x) ==> #[trigger] serves(h, r, fs[s], x),
        0 <= c.s < fs.len(),
        h(c.x),
        c.k == 0,
        0 <= t < fs.len(),
        d == (if place(h, r, fs, c, i).s <= t {
            t - place(h, r, fs, c, i).s
        } else {
            t + fs.len() - place(h, r, fs, c, i).s
        }),
    ensures
        i <= j,
        place(h, r, fs, c, j).k == 0,
        place(h, r, fs, c, j).s == t,
    decreases d,
{
    place_good(h, r, fs, c, i);
    let m = gets_there(h, r, fs, c, i, place(h, r, fs, c, i).k);
    if d == 0 {
        m
    } else {
        place_good(h, r, fs, c, m);
        gets_round(h, r, fs, c, m + 1, t, (d - 1) as nat)
    }
}

/// Where every state can be served for every set, every state has a fair path.
proof fn served_fair(h: BF, r: BR, fs: Seq<BF>, x: Asg)
    requires
        forall|s: int, x: Asg| 0 <= s < fs.len() && h(x) ==> #[trigger] serves(h, r, fs[s], x),
        fs.len() > 0,
        h(x),
    ensures
        fair_from(h, r, fs, x),
{
    let c = Place { x, s: 0, k: 0 };
    let p = |i: nat| place(h, r, fs, c, i).x;
    assert forall|i: nat| h(#[trigger] p(i)) by {
        place_good(h, r, fs, c, i);
    }
    assert forall|i: nat| #[trigger] hops(r, p, i) by {
        place_good(h, r, fs, c, i);
    }
    assert forall|s: int| 0 <= s < fs.len() implies #[trigger] visits(fs[s], p) by {
        assert forall|i: nat| #[trigger] visits_from(fs[s], p, i) by {
            place_good(h, r, fs, c, i + 1);
            let e = place(h, r, fs, c, i + 1).s;
            let d: nat = if e <= s {
                (s - e) as nat
            } else {
                (s + fs.len() - e) as nat
            };
            let j = gets_round(h, r, fs, c, i + 1, s, d);
            place_good(h, r, fs, c, j);
            until_first(h, fs[s], r, 0, p(j));
            assert(i <= j && fs[s](p(j)));
        }
    }
    assert(fair_path(h, r, fs, p) && p(0) == x);
}

/// A fair path may start later.
proof fn fair_suffix(h: BF, r: BR, fs: Seq<BF>, p: spec_fn(nat) -> Asg, m: nat)
    requires
        fair_path(h, r, fs, p),
    ensures
        fair_from(h, r, fs, p(m)),
{
    let q = |i: nat| p((i + m) as nat);
    assert forall|i: nat| #[trigger] hops(r, q, i) by {
        assert(hops(r, p, (i + m) as nat));
    }
    assert forall|s: int| 0 <= s < fs.len() implies #[trigger] visits(fs[s], q) by {
        assert forall|i: nat| #[trigger] visits_from(fs[s], q, i) by {
            assert(visits(fs[s], p));
            assert(visits_from(fs[s], p, (i + m) as nat));
            let j = choose|j: nat| i + m <= j && fs[s](#[trigger] p(j));
            assert(q((j - m) as nat) == p(j));
            assert(i <= (j - m) as nat && fs[s](q((j - m) as nat)));
        }
    }
    assert(fair_path(h, r, fs, q) && q(0) == p(m));
}

/// Along a path inside `n`, a state of `f` is reached.
proof fn path_until(n: BF, f: BF, r: BR, p: spec_fn(nat) -> Asg, i: nat, j: nat)
    requires
        i <= j,
        forall|k: nat| n(#[trigger] p(k)),
        forall|k: nat| #[trigger] hops(r, p, k),
        f(p(j)),
    ensures
        until(n, inside(n, f), r, (j - i) as nat, p(i)),
    decreases j - i,
{
    assert(n(p(i)));
    if i < j {
        path_until(n, f, r, p, i + 1, j);
        let h = until_set(n, inside(n, f), r, (j - i - 1) as nat);
        assert(hops(r, p, i));
        assert(h(p(i + 1)) && r(p(i), p(i + 1)));
    }
}

/// Fair paths stay inside a smaller set that still serves them.
proof fn fair_kept(h: BF, n: BF, r: BR, fs: Seq<BF>, s: int, x: Asg)
    requires
        forall|y: Asg| #[trigger] fair_from(h, r, fs, y) ==> n(y),
        0 <= s < fs.len(),
        fair_from(h, r, fs, x),
    ensures
        serves(n, r, fs[s], x),
{
    let p = choose|p: spec_fn(nat) -> Asg| #[trigger] fair_path(h, r, fs, p) && p(0) == x;
    assert forall|k: nat| n(#[trigger] p(k)) by {
        fair_suffix(h, r, fs, p, k);
    }
    assert(visits(fs[s], p));
    assert(visits_from(fs[s], p, 1));
    let j = choose|j: nat| 1 <= j && fs[s](#[trigger] p(j));
    path_until(n, fs[s], r, p, 1, j);
    assert(eventually(n, inside(n, fs[s]), r, p(1)));
    assert(hops(r, p, 0));
    assert(r(x, p(1)));
}

spec fn served_at(before: Seq<BF>, r: BR, fs: Seq<BF>, s: int, x: Asg) -> bool {
    (before[s])(x) && serves(before[s], r, fs[s], x)
}

/// The sets of nodes.
pub open spec fn sets_of(m: &Mgr, ns: Seq<NodeId>) -> Seq<BF> {
    Seq::new(ns.len(), |i: int| set_of(m, ns[i]))
}

/// The states of `start` from which a fair path inside `start` begins.
pub fn fair_hull(mgr: &mut Mgr, parts: &Vec<NodeId>, w: u32, start: NodeId, fair: &Vec<NodeId>) -> (hull:
    NodeId)
    requires
        old(mgr).wf(),
        keys_ok(old(mgr)),
        is_rel(old(mgr), parts@, w),
        is_set(old(mgr), start, w),
        fair@.len() > 0,
        forall|i: int| 0 <= i < fair@.len() ==> is_set(old(mgr), #[trigger] fair@[i], w),
    ensures
        final(mgr).wf(),
        keys_ok(final(mgr)),
        final(mgr).keeps_values(old(mgr)),
        is_set(final(mgr), hull, w),
        forall|x: Asg| #[trigger] final(mgr).eval(hull, x) ==> old(mgr).eval(start, x),
        forall|x: Asg|
            final(mgr).eval(hull, x) ==> #[trigger] fair_from(
                set_of(final(mgr), hull),
                rel_of(old(mgr), parts@),
                sets_of(old(mgr), fair@),
                x,
            ),
        forall|x: Asg| #[trigger]
            fair_from(
                set_of(old(mgr), start),
                rel_of(old(mgr), parts@),
                sets_of(old(mgr), fair@),
                x,
            ) ==> final(mgr).eval(hull, x),
{
    let ghost m0 = *mgr;
    let ghost r = rel_of(&m0, parts@);
    let ghost fs = sets_of(&m0, fair@);
    let ghost h0 = set_of(&m0, start);
    let mut hull = start;
    proof {
        assert forall|x: Asg| #[trigger] fair_from(h0, r, fs, x) implies m0.eval(start, x) by {
            let p = choose|p: spec_fn(nat) -> Asg| #[trigger] fair_path(h0, r, fs, p) && p(0) == x;
            assert(h0(p(0)));
        }
    }
    loop
        invariant
            m0 == *old(mgr),
            r == rel_of(&m0, parts@),
            fs == sets_of(&m0, fair@),
            h0 == set_of(&m0, start),
            mgr.wf(),
            keys_ok(mgr),
            mgr.keeps_values(&m0),
            is_rel(&m0, parts@, w),
            fair@.len() > 0,
            forall|i: int| 0 <= i < fair@.len() ==> is_set(&m0, #[trigger] fair@[i], w),
            is_set(mgr, hull, w),
            forall|x: Asg| #[trigger] mgr.eval(hull, x) ==> m0.eval(start, x),
            forall|x: Asg| #[trigger] fair_from(h0, r, fs, x) ==> mgr.eval(hull, x),
        decreases size(mgr, hull, w),
    {
        let ghost mk = *mgr;
        let ghost hb = set_of(&mk, hull);
        let mut n = hull;
        let ghost mut before: Seq<BF> = Seq::empty();
        let mut i: usize = 0;
        while i < fair.len()
            invariant
                i <= fair@.len(),
                m0 == *old(mgr),
                r == rel_of(&m0, parts@),
                fs == sets_of(&m0, fair@),
                h0 == set_of(&m0, start),
                mgr.wf(),
                keys_ok(mgr),
                mgr.keeps_values(&m0),
                mgr.keeps_values(&mk),
                mk.keeps_values(&m0),
                mk.valid(hull),
                hb == set_of(&mk, hull),
                is_rel(&m0, parts@, w),
                forall|i: int| 0 <= i < fair@.len() ==> is_set(&m0, #[trigger] fair@[i], w),
                is_set(mgr, n, w),
                forall|x: Asg| #[trigger] mgr.eval(n, x) ==> hb(x),
                forall|x: Asg| #[trigger] fair_from(h0, r, fs, x) ==> mgr.eval(n, x),
                before.len() == i,
                forall|s: int, x: Asg| 0 <= s < i && #[trigger] (before[s])(x) ==> hb(x),
                forall|s: int, x: Asg|
                    0 <= s < i && mgr.eval(n, x) ==> #[trigger] served_at(before, r, fs, s, x),
            decreases fair.len() - i,
        {
            let ghost m1 = *mgr;
            let ghost nb = set_of(&m1, n);
            assert(is_set(&m0, fair@[i as int], w));
            proof {
                set_keeps(mgr, &m0, fair@[i as int], w);
            }
            let target = meet(mgr, n, fair[i], Ghost(w));
            let ghost m2 = *mgr;
            proof {
                rel_keeps(mgr, &m0, parts@, w);
                set_keeps(mgr, &m1, n, w);
            }
            let far = eu(mgr, parts, w, n, target);
            let ghost m3 = *mgr;
            proof {
                rel_keeps(mgr, &m0, parts@, w);
            }
            let pre = preimage(mgr, parts, w, far);
            let ghost m4 = *mgr;
            proof {
                set_keeps(mgr, &m1, n, w);
            }
            let n0 = n;
            n = meet(mgr, n, pre, Ghost(w));
            proof {
                let f = fs[i as int];
                assert(f == set_of(&m0, fair@[i as int]));
                assert(set_of(&m2, n0) == nb);
                assert(set_of(&m2, target) =~= inside(nb, f)) by {
                    assert forall|x: Asg| #[trigger] set_of(&m2, target)(x) == inside(nb, f)(x) by {
                        assert(m2.eval(target, x) == (m1.eval(n0, x) && m1.eval(fair@[i as int], x)));
                        assert(m1.eval(fair@[i as int], x) == m0.eval(fair@[i as int], x));
                    }
                }
                assert forall|x: Asg| #[trigger] m4.eval(pre, x) == serves(nb, r, f, x) by {
                    if m4.eval(pre, x) {
                        let y = choose|y: Asg| #[trigger]
                            m3.eval(far, y) && rel_at(&m3, parts@, x, y);
                        assert(eventually(nb, inside(nb, f), r, y));
                        assert(rel_of(&m3, parts@)(x, y));
                        assert(r(x, y));
                    }
                    if serves(nb, r, f, x) {
                        let y = choose|y: Asg| #[trigger]
                            eventually(nb, inside(nb, f), r, y) && r(x, y);
                        assert(m3.eval(far, y));
                        assert(rel_of(&m3, parts@)(x, y));
                        assert(rel_at(&m3, parts@, x, y));
                    }
                }
                assert forall|x: Asg| #[trigger] mgr.eval(n, x) == (nb(x) && serves(nb, r, f, x)) by {
                    assert(m4.eval(n0, x) == m1.eval(n0, x));
                    assert(m4.eval(pre, x) == serves(nb, r, f, x));
                }
                assert forall|x: Asg| #[trigger] fair_from(h0, r, fs, x) implies mgr.eval(n, x) by {
                    assert forall|y: Asg| #[trigger] fair_from(h0, r, fs, y) implies nb(y) by {
                        assert(m1.eval(n0, y));
                    }
                    fair_kept(h0, nb, r, fs, i as int, x);
                }
                let before0 = before;
                before = before.push(nb);
                assert forall|s: int, x: Asg| 0 <= s < i + 1 && #[trigger] (before[s])(x) implies hb(x) by {
                    if s < i {
                        assert(before[s] == before0[s]);
                        assert((before0[s])(x));
                    } else {
                        assert(m1.eval(n0, x));
                    }
                }
                assert forall|s: int, x: Asg| 0 <= s < i + 1 && mgr.eval(n, x) implies #[trigger] served_at(
                    before,
                    r,
                    fs,
                    s,
                    x,
                ) by {
                    assert(nb(x));
                    assert(m1.eval(n0, x));
                    if s < i {
                        assert(before[s] == before0[s]);
                        assert(served_at(before0, r, fs, s, x));
                    } else {
                        assert(s == i);
                        assert(before[s] == nb);
                        assert(serves(nb, r, f, x));
                    }
                }
                assert forall|x: Asg| #[trigger] mgr.eval(n, x) implies hb(x) by {
                    assert(m1.eval(n0, x));
                }
            }
            i += 1;
        }
        if n == hull {
            proof {
                let h = set_of(mgr, hull);
                assert forall|x: Asg| #[trigger] h(x) == hb(x) by {
                    assert(mgr.eval(hull, x) == mk.eval(hull, x));
                }
                assert(h =~= hb);
                assert forall|s: int, x: Asg| 0 <= s < fs.len() && h(x) implies #[trigger] serves(
                    h,
                    r,
                    fs[s],
                    x,
                ) by {
                    assert(mgr.eval(n, x));
                    assert(served_at(before, r, fs, s, x));
                    assert forall|y: Asg| #[trigger] (before[s])(y) == h(y) by {
                        if h(y) {
                            assert(mgr.eval(n, y));
                            assert(served_at(before, r, fs, s, y));
                        }
                    }
                    assert(before[s] =~= h);
                }
                assert forall|x: Asg| mgr.eval(hull, x) implies #[trigger] fair_from(h, r, fs, x) by {
                    assert(h(x));
                    served_fair(h, r, fs, x);
                }
            }
            return hull;
        }
        proof {
            set_keeps(mgr, &mk, hull, w);
            assert forall|x: Asg| #[trigger] mgr.eval(n, x) implies mgr.eval(hull, x) by {
                assert(hb(x));
                assert(mk.eval(hull, x));
            }
            size_grows(mgr, n, hull, w);
            size_keeps(mgr, &mk, hull, w);
            assert forall|x: Asg| #[trigger] mgr.eval(n, x) implies m0.eval(start, x) by {
                assert(hb(x));
                assert(mk.eval(hull, x));
            }
        }
        hull = n;
    }
}

} // verus!
