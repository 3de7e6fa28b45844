//! Test generation: runs that make trap variables true.

use crate::fexpr::{
    all_sort, all_true, fe_models, holds, is_condition, sems, some_holds, typed, typeds, unprimeds, FExpr, LeafId,
    Sort, FE, LT,
};
use crate::flat::{holds_in, state_leaves, State, Sys};
use crate::symbolic::{ends, nearest, states_of, Symbolic};
use crate::value::{models, Val, Value};
use vstd::prelude::*;

verus! {

/// The trap variable is true in a state.
pub open spec fn sprung(l: LeafId, s: State) -> bool {
    (l as int) < s.len() && s[l as int] == Val::Bool(true)
}

/// The trap variable is true somewhere along a path.
pub open spec fn met(l: LeafId, p: Seq<State>) -> bool {
    exists|i: int| 0 <= i < p.len() && sprung(l, #[trigger] p[i])
}

/// Some test makes the trap variable true.
pub open spec fn discharged(l: LeafId, tests: Seq<Vec<Vec<Value>>>) -> bool {
    exists|i: int| 0 <= i < tests.len() && met(l, states_of((#[trigger] tests[i])@))
}

fn meets(l: LeafId, path: &Vec<Vec<Value>>) -> (r: bool)
    ensures
        r == met(l, states_of(path@)),
{
    let ghost q = states_of(path@);
    let mut i: usize = 0;
    while i < path.len()
        invariant
            i <= path@.len(),
            q == states_of(path@),
            forall|k: int| 0 <= k < i ==> !sprung(l, #[trigger] q[k]),
        decreases path.len() - i,
    {
        assert(q[i as int] == models(path@[i as int]@));
        if (l as usize) < path[i].len() {
            assert(q[i as int][l as int] == path@[i as int]@[l as int].model());
            match &path[i][l as usize] {
                Value::Bool(b) => {
                    if *b {
                        assert(sprung(l, q[i as int]));
                        return true;
                    }
                },
                _ => {},
            }
        }
        i += 1;
    }
    false
}

/// What is asked of the tests: the trap variables, the bounds on the lengths of segments, and how goals are closed.
pub ghost struct Plan {
    pub goals: Seq<LeafId>,
    pub id: Option<usize>,
    pub ed: usize,
    pub md: usize,
    pub branch: bool,
    pub noprune: bool,
}

/// The open goals from number `i` on that stay open after a path: those that it does not meet or, where goals are not
/// pruned, all but the first that it meets, unless one was met before (`hit`).
pub open spec fn remaining(
    goals: Seq<LeafId>,
    open: Seq<usize>,
    p: Seq<State>,
    noprune: bool,
    i: int,
    hit: bool,
    acc: Seq<usize>,
) -> Seq<usize>
    decreases open.len() - i,
{
    if i < 0 || i >= open.len() {
        acc
    } else if met(goals[open[i] as int], p) && (!noprune || !hit) {
        remaining(goals, open, p, noprune, i + 1, true, acc)
    } else {
        remaining(goals, open, p, noprune, i + 1, hit, acc.push(open[i]))
    }
}

/// The goals that stay open after a path.
pub open spec fn left(plan: Plan, open: Seq<usize>, p: Seq<State>) -> Seq<usize> {
    remaining(plan.goals, open, p, plan.noprune, 0, false, Seq::empty())
}

/// A shortest path from a state of `start` to a state that meets an open goal, of those whose distance from `start` is
/// at least `min` and at most `max`.
pub open spec fn leads(
    sys: Sys,
    goals: Seq<LeafId>,
    open: Seq<usize>,
    start: spec_fn(State) -> bool,
    min: int,
    max: Option<usize>,
    q: Seq<State>,
) -> bool {
    &&& q.len() > 0
    &&& start(q[0])
    &&& sys.chain(q)
    &&& hit_in(goals, open, q.last())
    &&& min <= q.len() - 1
    &&& max matches Some(m) ==> q.len() - 1 <= m
    &&& nearest(sys, start, (q.len() - 1) as nat, q.last())
    &&& forall|k: nat, t: State|
        min <= k < q.len() - 1 && #[trigger] nearest(sys, start, k, t) ==> !hit_in(goals, open, t)
}

/// No state whose distance from `start` is at least `min` and at most `max` meets an open goal.
pub open spec fn leads_nowhere(
    sys: Sys,
    goals: Seq<LeafId>,
    open: Seq<usize>,
    start: spec_fn(State) -> bool,
    min: int,
    max: Option<usize>,
) -> bool {
    forall|k: nat, t: State|
        min <= k && (max matches Some(m) ==> k <= m) && #[trigger] nearest(sys, start, k, t) ==> !hit_in(goals, open, t)
}

/// The initial states.
pub open spec fn beginnings(sys: Sys) -> spec_fn(State) -> bool {
    |s: State| sys.initial(s)
}

/// One state only.
pub open spec fn just(t: State) -> spec_fn(State) -> bool {
    |s: State| s == t
}

impl Plan {
    /// The least length of a segment that extends a test.
    pub open spec fn least(self) -> int {
        if self.md > 1 {
            self.md as int
        } else {
            1
        }
    }

    /// The segment leads from the state on to an open goal.
    pub open spec fn goes_on(self, sys: Sys, open: Seq<usize>, s: State, q: Seq<State>) -> bool {
        leads(sys, self.goals, open, just(s), self.least(), Some(self.ed), q)
    }

    /// No segment leads from the state on to an open goal.
    pub open spec fn stops(self, sys: Sys, open: Seq<usize>, s: State) -> bool {
        leads_nowhere(sys, self.goals, open, just(s), self.least(), Some(self.ed))
    }

    /// The segment extends a test whose first segment has `end` steps: from the end of the test or, where tests are
    /// branched and none leads on from there, from the end of the first segment.
    pub open spec fn extends(self, sys: Sys, open: Seq<usize>, p: Seq<State>, end: int, q: Seq<State>) -> bool {
        ||| self.goes_on(sys, open, p.last(), q)
        ||| self.branch && self.stops(sys, open, p.last()) && self.goes_on(sys, open, p[end], q)
    }

    /// The test cannot be extended, or no goal is open.
    pub open spec fn finished(self, sys: Sys, open: Seq<usize>, p: Seq<State>, end: int) -> bool {
        open.len() == 0 || (self.stops(sys, open, p.last()) && (self.branch ==> self.stops(sys, open, p[end])))
    }

    /// The segment number `n` extends the test `p1` to `p`, and closes goals.
    pub open spec fn extends_to(
        self,
        sys: Sys,
        end: int,
        p1: Seq<State>,
        open1: Seq<usize>,
        q: Seq<State>,
        p: Seq<State>,
        open: Seq<usize>,
    ) -> bool {
        self.extends(sys, open1, p1, end, q) && p == p1 + q.skip(1) && open == left(self, open1, p)
    }

    /// After the first segment and `n` more the test is `p`, with these goals open.
    pub open spec fn grown(
        self,
        sys: Sys,
        first: Seq<State>,
        open0: Seq<usize>,
        n: nat,
        p: Seq<State>,
        open: Seq<usize>,
    ) -> bool
        decreases n,
    {
        if n == 0 {
            p == first && open == left(self, open0, first)
        } else {
            exists|p1: Seq<State>, open1: Seq<usize>, q: Seq<State>|
                self.grown(sys, first, open0, (n - 1) as nat, p1, open1) && #[trigger] self.extends_to(
                    sys,
                    first.len() - 1,
                    p1,
                    open1,
                    q,
                    p,
                    open,
                )
        }
    }

    /// After the first segment and some more the test is `p`, with these goals open.
    pub open spec fn grows(
        self,
        sys: Sys,
        first: Seq<State>,
        open0: Seq<usize>,
        p: Seq<State>,
        open: Seq<usize>,
    ) -> bool {
        exists|n: nat| self.grown(sys, first, open0, n, p, open) && #[trigger] is_count(n)
    }

    /// The test that is made of a first segment, and the goals open after it.
    pub open spec fn made_of(
        self,
        sys: Sys,
        open0: Seq<usize>,
        first: Seq<State>,
        p: Seq<State>,
        open: Seq<usize>,
    ) -> bool {
        &&& leads(sys, self.goals, open0, beginnings(sys), 0, self.id, first)
        &&& if self.ed > 0 {
            self.grows(sys, first, open0, p, open) && self.finished(sys, open, p, first.len() - 1)
        } else {
            p == first && open == left(self, open0, first)
        }
    }

    /// A test made where the goals of `open0` are open, and the goals open after it.
    pub open spec fn makes(self, sys: Sys, open0: Seq<usize>, p: Seq<State>, open: Seq<usize>) -> bool {
        exists|first: Seq<State>| #[trigger] self.made_of(sys, open0, first, p, open)
    }

    /// The tests, one after the other, and the goals open after them.
    pub open spec fn generates(self, sys: Sys, tests: Seq<Seq<State>>, open: Seq<usize>) -> bool
        decreases tests.len(),
    {
        if tests.len() == 0 {
            open == all_goals(self.goals.len())
        } else {
            exists|mid: Seq<usize>|
                self.generates(sys, tests.drop_last(), mid) && #[trigger] self.makes(sys, mid, tests.last(), open)
        }
    }

    /// No further test can begin, or no goal is open.
    pub open spec fn exhausted(self, sys: Sys, open: Seq<usize>) -> bool {
        open.len() == 0 || leads_nowhere(sys, self.goals, open, beginnings(sys), 0, self.id)
    }
}

/// The number counts segments.
pub open spec fn is_count(n: nat) -> bool {
    true
}

/// All goals.
pub open spec fn all_goals(n: nat) -> Seq<usize> {
    Seq::new(n, |i: int| i as usize)
}

/// The states of several tests.
pub open spec fn paths_of(tests: Seq<Vec<Vec<Value>>>) -> Seq<Seq<State>> {
    Seq::new(tests.len(), |i: int| states_of(tests[i]@))
}

/// The goals that stay open after a path: those that it does not meet or, where goals are not pruned, all but the
/// first that it meets.
fn discharge(goals: &Vec<LeafId>, open: &Vec<usize>, path: &Vec<Vec<Value>>, noprune: bool) -> (r: Vec<usize>)
    requires
        forall|i: int| 0 <= i < open@.len() ==> #[trigger] open@[i] < goals@.len(),
    ensures
        forall|i: int| 0 <= i < r@.len() ==> #[trigger] r@[i] < goals@.len(),
        forall|g: usize| #[trigger] r@.contains(g) ==> open@.contains(g),
        forall|g: usize| #[trigger] open@.contains(g) && !r@.contains(g) ==> met(goals@[g as int], states_of(path@)),
        !noprune ==> forall|g: usize| #[trigger] r@.contains(g) ==> !met(goals@[g as int], states_of(path@)),
        r@.len() <= open@.len(),
        (exists|g: usize| #[trigger] open@.contains(g) && met(goals@[g as int], states_of(path@))) ==> r@.len()
            < open@.len(),
        r@ == remaining(goals@, open@, states_of(path@), noprune, 0, false, Seq::empty()),
{
    let ghost q = states_of(path@);
    let mut r: Vec<usize> = Vec::new();
    let mut hit = false;
    let mut i: usize = 0;
    assert(r@ =~= Seq::empty());
    while i < open.len()
        invariant
            i <= open@.len(),
            q == states_of(path@),
            forall|k: int| 0 <= k < open@.len() ==> #[trigger] open@[k] < goals@.len(),
            forall|k: int| 0 <= k < r@.len() ==> #[trigger] r@[k] < goals@.len(),
            forall|g: usize| #[trigger] r@.contains(g) ==> open@.contains(g),
            forall|k: int| 0 <= k < i ==> r@.contains(#[trigger] open@[k]) || met(goals@[open@[k] as int], q),
            !noprune ==> forall|k: int| 0 <= k < r@.len() ==> !met(goals@[#[trigger] r@[k] as int], q),
            r@.len() <= i,
            hit ==> r@.len() < i,
            remaining(goals@, open@, q, noprune, i as int, hit, r@) == remaining(
                goals@,
                open@,
                q,
                noprune,
                0,
                false,
                Seq::empty(),
            ),
            !hit ==> forall|k: int| 0 <= k < i ==> !met(goals@[#[trigger] open@[k] as int], q),
        decreases open.len() - i,
    {
        let g = open[i];
        let ghost before = r@;
        if meets(goals[g], path) && (!noprune || !hit) {
            hit = true;
        } else {
            r.push(g);
            proof {
                assert forall|x: usize| #[trigger] r@.contains(x) implies open@.contains(x) by {
                    let k = choose|k: int| 0 <= k < r@.len() && r@[k] == x;
                    if k < before.len() {
                        assert(before.contains(before[k]));
                    } else {
                        assert(open@[i as int] == x);
                    }
                }
                assert forall|k: int| 0 <= k < i + 1 implies r@.contains(#[trigger] open@[k]) || met(
                    goals@[open@[k] as int],
                    q,
                ) by {
                    if k < i {
                        if before.contains(open@[k]) {
                            let j = choose|j: int| 0 <= j < before.len() && before[j] == open@[k];
                            assert(r@[j] == open@[k]);
                        }
                    } else {
                        assert(r@[before.len() as int] == open@[k]);
                    }
                }
            }
        }
        i += 1;
    }
    proof {
        assert forall|g: usize| #[trigger] open@.contains(g) && !r@.contains(g) implies met(goals@[g as int], q) by {
            let k = choose|k: int| 0 <= k < open@.len() && open@[k] == g;
            assert(r@.contains(open@[k]) || met(goals@[open@[k] as int], q));
        }
        if !noprune {
            assert forall|g: usize| #[trigger] r@.contains(g) implies !met(goals@[g as int], q) by {
                let k = choose|k: int| 0 <= k < r@.len() && r@[k] == g;
                assert(!met(goals@[r@[k] as int], q));
            }
        }
        if exists|g: usize| #[trigger] open@.contains(g) && met(goals@[g as int], q) {
            let g = choose|g: usize| #[trigger] open@.contains(g) && met(goals@[g as int], q);
            let k = choose|k: int| 0 <= k < open@.len() && open@[k] == g;
            assert(met(goals@[open@[k] as int], q));
        }
    }
    r
}

/// One of the open goals is met in a state.
pub open spec fn hit_in(goals: Seq<LeafId>, open: Seq<usize>, s: State) -> bool {
    exists|i: int| 0 <= i < open.len() && sprung(goals[#[trigger] open[i] as int], s)
}

/// The condition that one of the open goals is met.
fn target_of(goals: &Vec<LeafId>, open: &Vec<usize>, Ghost(ts): Ghost<Seq<LT>>) -> (r: FExpr)
    requires
        forall|i: int| 0 <= i < open@.len() ==> #[trigger] open@[i] < goals@.len(),
        forall|i: int| 0 <= i < goals@.len() ==> (#[trigger] goals@[i] as int) < ts.len() && ts[goals@[i] as int] == LT::Bool,
    ensures
        crate::fexpr::unprimed(r.model()),
        is_condition(r.model(), ts),
        forall|s: State| #[trigger] holds_in(r.model(), s) == hit_in(goals@, open@, s),
{
    let mut es: Vec<FExpr> = Vec::new();
    let mut i: usize = 0;
    while i < open.len()
        invariant
            i <= open@.len(),
            es@.len() == i,
            forall|k: int| 0 <= k < open@.len() ==> #[trigger] open@[k] < goals@.len(),
            forall|k: int| 0 <= k < i ==> (#[trigger] es@[k]).model() == FE::Var(goals@[open@[k] as int], false),
        decreases open.len() - i,
    {
        es.push(FExpr::Var(goals[open[i]], false));
        i += 1;
    }
    let ghost ms = fe_models(es@);
    let r = FExpr::Or(es);
    proof {
        assert(r.model() == FE::Or(ms));
        assert forall|k: int| 0 <= k < ms.len() implies #[trigger] unprimeds(ms)[k] by {
            assert(ms[k] == es@[k].model());
        }
        assert(all_true(unprimeds(ms)));
        assert forall|k: int| 0 <= k < ms.len() implies #[trigger] typeds(ms, ts)[k] == Some(Sort::B) by {
            assert(ms[k] == es@[k].model());
            assert(goals@[open@[k] as int] < ts.len());
        }
        assert(all_sort(typeds(ms, ts), Sort::B));
        assert(typed(r.model(), ts) == Some(Sort::B));
        assert forall|s: State| #[trigger] holds_in(r.model(), s) == hit_in(goals@, open@, s) by {
            let env = state_leaves(s);
            let vs = sems(ms, env);
            assert forall|k: int| 0 <= k < ms.len() implies holds(#[trigger] vs[k]) == sprung(
                goals@[open@[k] as int],
                s,
            ) by {
                assert(ms[k] == es@[k].model());
            }
            assert(holds_in(r.model(), s) == some_holds(vs));
            if some_holds(vs) {
                let k = choose|k: int| 0 <= k < vs.len() && holds(#[trigger] vs[k]);
                assert(sprung(goals@[open@[k] as int], s));
            }
            if hit_in(goals@, open@, s) {
                let k = choose|k: int| 0 <= k < open@.len() && sprung(goals@[#[trigger] open@[k] as int], s);
                assert(holds(vs[k]));
            }
        }
    }
    r
}

spec fn start_of(sys: Sys, from: Option<&Vec<Value>>) -> spec_fn(State) -> bool {
    match from {
        Some(s) => just(models(s@)),
        None => beginnings(sys),
    }
}

proof fn near_state(sys: Sys, start: spec_fn(State) -> bool, k: nat, t: State)
    requires
        nearest(sys, start, k, t),
        forall|s: State| #[trigger] start(s) ==> sys.is_state(s),
    ensures
        sys.is_state(t),
{
    let q = choose|q: Seq<State>| #[trigger] ends(sys, start, k, t, q);
    if k > 0 {
        assert(sys.step(q[k - 1], q[(k - 1) + 1]));
    }
}

/// Searches for a shortest path to a state that meets an open goal.
fn seek<'m>(
    engine: &mut Symbolic<'m>,
    goals: &Vec<LeafId>,
    open: &Vec<usize>,
    from: Option<&Vec<Value>>,
    min: usize,
    max: Option<usize>,
) -> (r: Option<Vec<Vec<Value>>>)
    requires
        old(engine).wf(),
        forall|i: int| 0 <= i < open@.len() ==> #[trigger] open@[i] < goals@.len(),
        forall|i: int|
            0 <= i < goals@.len() ==> (#[trigger] goals@[i] as int) < old(engine).sys().leaves.len() && old(
                engine).sys().leaves[goals@[i] as int] == LT::Bool,
        from matches Some(s) ==> old(engine).sys().is_state(models(s@)),
    ensures
        final(engine).wf(),
        final(engine).sys() == old(engine).sys(),
        match r {
            Some(p) => {
                &&& p@.len() > min
                &&& p@.len() > 0
                &&& match from {
                    Some(s) => states_of(p@)[0] == models(s@),
                    None => old(engine).sys().initial(states_of(p@)[0]),
                }
                &&& old(engine).sys().chain(states_of(p@))
                &&& forall|i: int| 0 <= i < p@.len() ==> old(engine).sys().is_state(#[trigger] states_of(p@)[i])
                &&& hit_in(goals@, open@, states_of(p@).last())
                &&& leads(
                    old(engine).sys(),
                    goals@,
                    open@,
                    start_of(old(engine).sys(), from),
                    min as int,
                    max,
                    states_of(p@),
                )
            },
            None => {
                &&& leads_nowhere(
                    old(engine).sys(),
                    goals@,
                    open@,
                    start_of(old(engine).sys(), from),
                    min as int,
                    max,
                )
                &&& from is None && min == 0 ==> forall|q: Seq<State>|
                    (max matches Some(m) ==> q.len() - 1 <= m) && #[trigger] old(engine).sys().run(q) ==> !hit_in(
                        goals@,
                        open@,
                        q.last(),
                    )
            },
        },
{
    let ghost o = *engine;
    let ghost ts = engine.sys().leaves;
    let e = target_of(goals, open, Ghost(ts));
    let found = engine.states_where(&e);
    let ghost o1 = *engine;
    proof {
        o.kept(&o1);
    }
    let target = match found {
        Ok(n) => n,
        Err(_x) => {
            return None;
        },
    };
    let start = match from {
        Some(s) => engine.state_bdd(s),
        None => engine.initial_set(),
    };
    let ghost o2 = *engine;
    proof {
        if from is Some {
            o1.kept(&o2);
            o1.still(&o2, target);
        }
    }
    let r = engine.find_path(start, target, min, max);
    proof {
        o2.kept(engine);
        let sys = o.sys();
        let begin = start_of(sys, from);
        assert(o2.states(start) =~= begin) by {
            assert forall|s: State| #[trigger] o2.states(start)(s) == begin(s) by {
                assert(o2.member(start, s) == begin(s));
            }
        }
        assert forall|s: State| #[trigger] begin(s) implies sys.is_state(s) by {}
        assert forall|k: nat, t: State| #[trigger] nearest(sys, begin, k, t) implies o2.member(target, t) == hit_in(
            goals@,
            open@,
            t,
        ) by {
            near_state(sys, begin, k, t);
            assert(holds_in(e.model(), t) == hit_in(goals@, open@, t));
        }
        if r is None && from is None && min == 0 {
            assert forall|q: Seq<State>| (max matches Some(m) ==> q.len() - 1 <= m) && #[trigger] o.sys().run(
                q,
            ) implies !hit_in(goals@, open@, q.last()) by {
                assert(o2.member(start, q[0]));
                if q.len() > 1 {
                    assert(o.sys().step(q[q.len() - 2], q[(q.len() - 2) + 1]));
                }
                assert(o.sys().is_state(q.last()));
                assert(!o2.member(target, q.last()));
                assert(holds_in(e.model(), q.last()) == hit_in(goals@, open@, q.last()));
            }
        }
    }
    r
}

fn joined(path: Vec<Vec<Value>>, seg: &Vec<Vec<Value>>) -> (r: Vec<Vec<Value>>)
    requires
        seg@.len() > 0,
    ensures
        states_of(r@) == states_of(path@) + states_of(seg@).skip(1),
{
    let mut r = path;
    let mut i: usize = 1;
    let ghost base = states_of(path@);
    let ghost more = states_of(seg@);
    assert(states_of(r@) =~= base + more.subrange(1, 1));
    while i < seg.len()
        invariant
            1 <= i <= seg@.len(),
            more == states_of(seg@),
            states_of(r@) == base + more.subrange(1, i as int),
        decreases seg.len() - i,
    {
        let ghost before = r@;
        let s = crate::value::clone_values(&seg[i]);
        r.push(s);
        proof {
            assert(states_of(r@) =~= states_of(before).push(more[i as int]));
            assert(more.subrange(1, i + 1) =~= more.subrange(1, i as int).push(more[i as int]));
            assert(states_of(r@) =~= base + more.subrange(1, i + 1));
        }
        i += 1;
    }
    assert(more.subrange(1, i as int) =~= more.skip(1));
    r
}

/// What is known of a test in the making: its states are states, and it is a run, unless it was branched.
spec fn sound_path(sys: Sys, p: Seq<State>, branch: bool) -> bool {
    &&& p.len() > 0
    &&& forall|i: int| 0 <= i < p.len() ==> sys.is_state(#[trigger] p[i])
    &&& !branch ==> sys.run(p)
}

proof fn extended_path(sys: Sys, p: Seq<State>, q: Seq<State>, branch: bool)
    requires
        sound_path(sys, p, branch),
        q.len() > 0,
        sys.chain(q),
        forall|i: int| 0 <= i < q.len() ==> sys.is_state(#[trigger] q[i]),
        !branch ==> q[0] == p.last(),
    ensures
        sound_path(sys, p + q.skip(1), branch),
        (p + q.skip(1)).last() == if q.len() > 1 { q.last() } else { p.last() },
{
    let r = p + q.skip(1);
    assert forall|i: int| 0 <= i < r.len() implies sys.is_state(#[trigger] r[i]) by {
        if i < p.len() {
            assert(r[i] == p[i]);
        } else {
            assert(r[i] == q[i - p.len() + 1]);
        }
    }
    if !branch {
        assert(r[0] == p[0]);
        assert forall|i: int| 0 <= i < r.len() - 1 implies sys.step(#[trigger] r[i], r[i + 1]) by {
            if i + 1 < p.len() {
                assert(sys.step(p[i], p[i + 1]));
            } else {
                let j = i - p.len() + 1;
                assert(r[i] == q[j]);
                assert(sys.step(q[j], q[j + 1]));
            }
        }
    }
}

/// Extends a test as long as segments lead on to open goals.
fn extend_test<'m>(
    engine: &mut Symbolic<'m>,
    goals: &Vec<LeafId>,
    open0: Vec<usize>,
    path0: Vec<Vec<Value>>,
    ed: usize,
    md: usize,
    branch: bool,
    noprune: bool,
    Ghost(plan): Ghost<Plan>,
    Ghost(whole): Ghost<Seq<usize>>,
) -> (r: (Vec<Vec<Value>>, Vec<usize>))
    requires
        old(engine).wf(),
        plan.goals == goals@,
        plan.ed == ed,
        plan.md == md,
        plan.branch == branch,
        plan.noprune == noprune,
        open0@ == left(plan, whole, states_of(path0@)),
        forall|i: int| 0 <= i < open0@.len() ==> #[trigger] open0@[i] < goals@.len(),
        forall|i: int|
            0 <= i < goals@.len() ==> (#[trigger] goals@[i] as int) < old(engine).sys().leaves.len() && old(
                engine).sys().leaves[goals@[i] as int] == LT::Bool,
        sound_path(old(engine).sys(), states_of(path0@), branch),
        !noprune ==> forall|g: usize| #[trigger] open0@.contains(g) ==> !met(goals@[g as int], states_of(path0@)),
    ensures
        final(engine).wf(),
        final(engine).sys() == old(engine).sys(),
        sound_path(old(engine).sys(), states_of(r.0@), branch),
        states_of(path0@).is_prefix_of(states_of(r.0@)),
        forall|i: int| 0 <= i < r.1@.len() ==> #[trigger] r.1@[i] < goals@.len(),
        forall|g: usize| #[trigger] r.1@.contains(g) ==> open0@.contains(g),
        forall|g: usize| #[trigger] open0@.contains(g) && !r.1@.contains(g) ==> met(goals@[g as int], states_of(r.0@)),
        !noprune ==> forall|g: usize| #[trigger] r.1@.contains(g) ==> !met(goals@[g as int], states_of(r.0@)),
        r.1@.len() <= open0@.len(),
        plan.grows(old(engine).sys(), states_of(path0@), whole, states_of(r.0@), r.1@),
        plan.finished(old(engine).sys(), r.1@, states_of(r.0@), path0@.len() - 1),
{
    let ghost o = *engine;
    let ghost sys = engine.sys();
    let end: usize = path0.len() - 1;
    let least: usize = if md > 1 {
        md
    } else {
        1
    };
    let mut path = path0;
    let mut open = open0;
    let ghost first = states_of(path0@);
    let ghost mut n: nat = 0;
    loop
        invariant
            plan.goals == goals@,
            plan.ed == ed,
            plan.md == md,
            plan.branch == branch,
            plan.noprune == noprune,
            first == states_of(path0@),
            end == first.len() - 1,
            least == plan.least(),
            plan.grown(sys, first, whole, n, states_of(path@), open@),
            engine.wf(),
            engine.sys() == sys,
            end < path@.len(),
            least >= 1,
            forall|i: int|
                0 <= i < goals@.len() ==> (#[trigger] goals@[i] as int) < sys.leaves.len() && sys.leaves[goals@[i] as int]
                    == LT::Bool,
            forall|i: int| 0 <= i < open@.len() ==> #[trigger] open@[i] < goals@.len(),
            sound_path(sys, states_of(path@), branch),
            states_of(path0@).is_prefix_of(states_of(path@)),
            forall|g: usize| #[trigger] open@.contains(g) ==> open0@.contains(g),
            forall|g: usize| #[trigger] open0@.contains(g) && !open@.contains(g) ==> met(
                goals@[g as int],
                states_of(path@),
            ),
            !noprune ==> forall|g: usize| #[trigger] open@.contains(g) ==> !met(goals@[g as int], states_of(path@)),
            open@.len() <= open0@.len(),
        ensures
            plan.grown(sys, first, whole, n, states_of(path@), open@),
            plan.finished(sys, open@, states_of(path@), end as int),
            engine.wf(),
            engine.sys() == sys,
            forall|i: int| 0 <= i < open@.len() ==> #[trigger] open@[i] < goals@.len(),
            sound_path(sys, states_of(path@), branch),
            states_of(path0@).is_prefix_of(states_of(path@)),
            forall|g: usize| #[trigger] open@.contains(g) ==> open0@.contains(g),
            forall|g: usize| #[trigger] open0@.contains(g) && !open@.contains(g) ==> met(
                goals@[g as int],
                states_of(path@),
            ),
            !noprune ==> forall|g: usize| #[trigger] open@.contains(g) ==> !met(goals@[g as int], states_of(path@)),
            open@.len() <= open0@.len(),
        decreases open@.len(),
    {
        if open.len() == 0 {
            break;
        }
        let ghost ps = states_of(path@);
        let last = path.len() - 1;
        assert(sys.is_state(ps[last as int]));
        assert(ps[last as int] == models(path@[last as int]@));
        let mut seg = seek(engine, goals, &open, Some(&path[last]), least, Some(ed));
        let ghost at_last = seg;
        assert(ps.last() == ps[last as int]);
        if seg.is_none() && branch {
            assert(sys.is_state(ps[end as int]));
            assert(ps[end as int] == models(path@[end as int]@));
            seg = seek(engine, goals, &open, Some(&path[end]), least, Some(ed));
        }
        match seg {
            None => {
                break;
            },
            Some(q) => {
                let ghost qs = states_of(q@);
                let ghost before = open@;
                proof {
                    extended_path(sys, ps, qs, branch);
                    assert(plan.extends(sys, before, ps, end as int, qs));
                }
                path = joined(path, &q);
                let ghost now = states_of(path@);
                proof {
                    assert(now.last() == qs.last());
                    let k = choose|k: int|
                        0 <= k < before.len() && sprung(goals@[#[trigger] before[k] as int], qs.last());
                    assert(sprung(goals@[before[k] as int], now[now.len() - 1]));
                    assert(met(goals@[before[k] as int], now));
                    assert(before.contains(before[k]));
                    assert forall|l: LeafId| met(l, ps) implies #[trigger] met(l, now) by {
                        let i = choose|i: int| 0 <= i < ps.len() && sprung(l, #[trigger] ps[i]);
                        assert(sprung(l, now[i]));
                    }
                    assert(states_of(path0@).is_prefix_of(now));
                }
                open = discharge(goals, &open, &path, noprune);
                proof {
                    assert(plan.extends_to(sys, first.len() - 1, ps, before, qs, states_of(path@), open@));
                    n = n + 1;
                }
            },
        }
    }
    assert(is_count(n));
    (path, open)
}

/// Generates tests that together meet the goals, trap variables of the module. A test begins with a shortest run to
/// a state that meets an open goal, within `id` steps; segments of at least `md` and at most `ed` steps extend it.
/// The result is the tests, and the numbers of the goals that stay open.
///
/// Without `branch` every test is a run of the module. With `branch`, where a test cannot be extended from its end, it
/// goes on from the end of its first segment.
pub fn generate_tests<'m>(
    engine: &mut Symbolic<'m>,
    goals: &Vec<LeafId>,
    id: Option<usize>,
    ed: usize,
    md: usize,
    branch: bool,
    noprune: bool,
) -> (r: (Vec<Vec<Vec<Value>>>, Vec<usize>))
    requires
        old(engine).wf(),
        forall|i: int|
            0 <= i < goals@.len() ==> (#[trigger] goals@[i] as int) < old(engine).sys().leaves.len() && old(
                engine).sys().leaves[goals@[i] as int] == LT::Bool,
    ensures
        final(engine).wf(),
        final(engine).sys() == old(engine).sys(),
        ({
            let plan = Plan { goals: goals@, id, ed, md, branch, noprune };
            plan.generates(old(engine).sys(), paths_of(r.0@), r.1@) && plan.exhausted(old(engine).sys(), r.1@)
        }),
        forall|i: int|
            0 <= i < r.0@.len() ==> states_of((#[trigger] r.0@[i])@).len() > 0 && old(engine).sys().initial(
                states_of(r.0@[i]@)[0],
            ),
        !branch ==> forall|i: int| 0 <= i < r.0@.len() ==> old(engine).sys().run(states_of((#[trigger] r.0@[i])@)),
        forall|g: usize| #[trigger] r.1@.contains(g) ==> g < goals@.len(),
        forall|g: usize| g < goals@.len() && !#[trigger] r.1@.contains(g) ==> discharged(goals@[g as int], r.0@),
        !noprune ==> forall|g: usize| #[trigger] r.1@.contains(g) ==> !discharged(goals@[g as int], r.0@),
        forall|g: usize, q: Seq<State>|
            #![trigger r.1@.contains(g), old(engine).sys().run(q)]
            r.1@.contains(g) && old(engine).sys().run(q) && (id matches Some(m) ==> q.len() - 1 <= m) ==> !sprung(
                goals@[g as int],
                q.last(),
            ),
{
    let ghost sys = engine.sys();
    let ghost plan = Plan { goals: goals@, id, ed, md, branch, noprune };
    let mut open: Vec<usize> = Vec::new();
    let mut i: usize = 0;
    while i < goals.len()
        invariant
            i <= goals@.len(),
            open@.len() == i,
            forall|k: int| 0 <= k < i ==> #[trigger] open@[k] == k,
        decreases goals.len() - i,
    {
        open.push(i);
        i += 1;
    }
    let mut tests: Vec<Vec<Vec<Value>>> = Vec::new();
    proof {
        assert(open@ =~= all_goals(goals@.len()));
        assert(plan.generates(sys, paths_of(tests@), open@));
        assert forall|g: usize| g < goals@.len() && !#[trigger] open@.contains(g) implies discharged(
            goals@[g as int],
            tests@,
        ) by {
            assert(open@[g as int] == g);
        }
        assert(open@.len() == goals@.len());
    }
    loop
        invariant
            engine.wf(),
            engine.sys() == sys,
            plan == (Plan { goals: goals@, id, ed, md, branch, noprune }),
            plan.generates(sys, paths_of(tests@), open@),
            forall|i: int|
                0 <= i < goals@.len() ==> (#[trigger] goals@[i] as int) < sys.leaves.len() && sys.leaves[goals@[i] as int]
                    == LT::Bool,
            forall|i: int| 0 <= i < open@.len() ==> #[trigger] open@[i] < goals@.len(),
            forall|i: int|
                0 <= i < tests@.len() ==> states_of((#[trigger] tests@[i])@).len() > 0 && sys.initial(
                    states_of(tests@[i]@)[0],
                ),
            !branch ==> forall|i: int| 0 <= i < tests@.len() ==> sys.run(states_of((#[trigger] tests@[i])@)),
            forall|g: usize| g < goals@.len() && !#[trigger] open@.contains(g) ==> discharged(goals@[g as int], tests@),
            !noprune ==> forall|g: usize| #[trigger] open@.contains(g) ==> !discharged(goals@[g as int], tests@),
        ensures
            plan.generates(sys, paths_of(tests@), open@),
            plan.exhausted(sys, open@),
            forall|g: usize, q: Seq<State>|
                #![trigger open@.contains(g), sys.run(q)]
                open@.contains(g) && sys.run(q) && (id matches Some(m) ==> q.len() - 1 <= m) ==> !sprung(
                    goals@[g as int],
                    q.last(),
                ),
        decreases open@.len(),
    {
        if open.len() == 0 {
            break;
        }
        let first = match seek(engine, goals, &open, None, 0, id) {
            Some(p) => p,
            None => {
                proof {
                    assert forall|g: usize, q: Seq<State>|
                        #![trigger open@.contains(g), sys.run(q)]
                        open@.contains(g) && sys.run(q) && (id matches Some(m) ==> q.len() - 1 <= m) implies !sprung(
                        goals@[g as int],
                        q.last(),
                    ) by {
                        let k = choose|k: int| 0 <= k < open@.len() && open@[k] == g;
                        assert(!hit_in(goals@, open@, q.last()));
                        assert(open@[k] == g);
                    }
                }
                break;
            },
        };
        let ghost before = open@;
        let ghost fs = states_of(first@);
        proof {
            let k = choose|k: int| 0 <= k < before.len() && sprung(goals@[#[trigger] before[k] as int], fs.last());
            assert(sprung(goals@[before[k] as int], fs[fs.len() - 1]));
            assert(met(goals@[before[k] as int], fs));
            assert(before.contains(before[k]));
        }
        let kept = discharge(goals, &open, &first, noprune);
        let ghost mid = kept@;
        assert(mid == left(plan, before, fs));
        assert(plan.grown(sys, fs, before, 0, fs, mid));
        let (path, rest) = if ed > 0 {
            extend_test(engine, goals, kept, first, ed, md, branch, noprune, Ghost(plan), Ghost(before))
        } else {
            (first, kept)
        };
        let ghost ps = states_of(path@);
        let ghost done = tests@;
        tests.push(path);
        open = rest;
        proof {
            assert(plan.made_of(sys, before, fs, ps, rest@));
            assert(plan.makes(sys, before, ps, rest@));
            assert(paths_of(tests@).drop_last() =~= paths_of(done));
            assert(paths_of(tests@).last() == ps);
            assert(plan.generates(sys, paths_of(tests@).drop_last(), before));
            assert(plan.generates(sys, paths_of(tests@), open@));
            assert(ps[0] == fs[0]);
            assert(tests@[done.len() as int] == path);
            assert forall|l: LeafId| met(l, fs) implies #[trigger] met(l, ps) by {
                let i = choose|i: int| 0 <= i < fs.len() && sprung(l, #[trigger] fs[i]);
                assert(ps[i] == fs[i]);
                assert(sprung(l, ps[i]));
            }
            assert forall|l: LeafId| #[trigger] discharged(l, tests@) == (discharged(l, done) || met(l, ps)) by {
                if discharged(l, tests@) {
                    let i = choose|i: int| 0 <= i < tests@.len() && met(l, states_of((#[trigger] tests@[i])@));
                    if i < done.len() {
                        assert(done[i] == tests@[i]);
                    }
                }
                if discharged(l, done) {
                    let i = choose|i: int| 0 <= i < done.len() && met(l, states_of((#[trigger] done[i])@));
                    assert(tests@[i] == done[i]);
                }
                if met(l, ps) {
                    assert(met(l, states_of(tests@[done.len() as int]@)));
                }
            }
            assert forall|g: usize| g < goals@.len() && !#[trigger] open@.contains(g) implies discharged(
                goals@[g as int],
                tests@,
            ) by {
                if before.contains(g) {
                    if mid.contains(g) {
                        assert(met(goals@[g as int], ps));
                    } else {
                        assert(met(goals@[g as int], fs));
                        assert(met(goals@[g as int], ps));
                    }
                }
                assert(discharged(goals@[g as int], tests@) == (discharged(goals@[g as int], done) || met(
                    goals@[g as int],
                    ps,
                )));
            }
            if !noprune {
                assert forall|g: usize| #[trigger] open@.contains(g) implies !discharged(goals@[g as int], tests@) by {
                    assert(mid.contains(g));
                    assert(before.contains(g));
                    assert(discharged(goals@[g as int], tests@) == (discharged(goals@[g as int], done) || met(
                        goals@[g as int],
                        ps,
                    )));
                }
            }
        }
    }
    (tests, open)
}

} // verus!
