//! Bounded model checking of systems with infinitely many states: the question for a solver of
//! formulas over integers and reals, and what its answer says.

use crate::bounded::{alg_word, b_sat, folded, folded_range, lasso, loop_meaning, path_meaning, BoolAlg, BoundedLtl};
use crate::explicit::EngineError;
use crate::fexpr::{
    all_hold, all_sort, clone_fexprs, fe_models, holds, is_condition, sem, sems, some_holds, typed, typeds, FExpr,
    Leaves, Sort, FE, LT,
};
use crate::flat::{
    allowed, allows, branch_models, branches_allowed, branches_typed, cmd_models, cmds_typed, every, holds_in, some,
    some_cmd, state_leaves, step_leaves, tn_models, tn_typed, tns_typed, Cmd, FlatCmd, FlatModule, State, Sys,
    TransNode, TN,
};
use crate::formula::{TFormula, TF};
use crate::ltl::{nn_atoms, nnf, nnf_meaning, tf_sat, to_nnf, Ltl, NN};
use crate::sorts::{atoms_ok, sort_of};
use crate::symbolic::word_of;
use crate::temporal::Trace;
use crate::text::own;
use crate::value::Val;
use vstd::prelude::*;

verus! {

/// A formula over the states of a path, made of earlier formulas.
pub enum Node {
    /// The truth of a condition on two states.
    Atom(FExpr, usize, usize),
    /// Every leaf has a value of its type in a state.
    Domain(usize),
    /// Two states are the same.
    Same(usize, usize),
    Not(usize),
    And(Vec<usize>),
    Or(Vec<usize>),
}

/// The content of a formula.
pub ghost enum NV {
    Atom(FE, nat, nat),
    Domain(nat),
    Same(nat, nat),
    Not(usize),
    And(Seq<usize>),
    Or(Seq<usize>),
}

impl Node {
    /// The content.
    pub open spec fn model(&self) -> NV {
        match self {
            Node::Atom(e, s, t) => NV::Atom(e.model(), *s as nat, *t as nat),
            Node::Domain(t) => NV::Domain(*t as nat),
            Node::Same(s, t) => NV::Same(*s as nat, *t as nat),
            Node::Not(a) => NV::Not(*a),
            Node::And(v) => NV::And(v@),
            Node::Or(v) => NV::Or(v@),
        }
    }
}

/// The contents of formulas.
pub open spec fn node_views(v: Seq<Node>) -> Seq<NV> {
    Seq::new(v.len(), |i: int| v[i].model())
}

/// The value is one of the type; there may be infinitely many.
pub open spec fn fits(t: LT, v: Val) -> bool {
    match t {
        LT::Bool => v is Bool,
        LT::Range(lo, hi) => v matches Val::Num(q) && q.is_int() && lo <= q.n <= hi,
        LT::Int { min, max } => v matches Val::Num(q) && q.is_int() && (min matches Some(m) ==> m <= q.n) && (
        max matches Some(m) ==> q.n <= m),
        LT::Real => v is Num,
        LT::Scalar(id, elems) => v matches Val::Scalar(a, i) && a == id && i < elems.len(),
    }
}

/// Each leaf has a value of its type.
pub open spec fn in_domain(ts: Seq<LT>, s: State) -> bool {
    s.len() == ts.len() && forall|l: int| 0 <= l < ts.len() ==> fits(#[trigger] ts[l], s[l])
}

/// The truth of the formula number `i` on the states of a path.
pub open spec fn true_at(ts: Seq<LT>, ns: Seq<NV>, i: int, x: Trace) -> bool
    decreases i,
{
    if i < 0 || i >= ns.len() {
        false
    } else {
        match ns[i] {
            NV::Atom(e, s, t) => holds(sem(e, step_leaves(x(s), x(t)))),
            NV::Domain(t) => in_domain(ts, x(t)),
            NV::Same(s, t) => x(s) == x(t),
            NV::Not(a) => a < i && !true_at(ts, ns, a as int, x),
            NV::And(v) => forall|j: int| 0 <= j < v.len() ==> #[trigger] v[j] < i && true_at(ts, ns, v[j] as int, x),
            NV::Or(v) => exists|j: int| 0 <= j < v.len() && #[trigger] v[j] < i && true_at(ts, ns, v[j] as int, x),
        }
    }
}

/// A formula is made of earlier ones, and its conditions are ones on the leaves.
pub open spec fn node_ok(ts: Seq<LT>, n: NV, i: int) -> bool {
    match n {
        NV::Atom(e, _s, _t) => is_condition(e, ts),
        NV::Domain(_t) => true,
        NV::Same(_s, _t) => true,
        NV::Not(a) => a < i,
        NV::And(v) => forall|j: int| 0 <= j < v.len() ==> #[trigger] v[j] < i,
        NV::Or(v) => forall|j: int| 0 <= j < v.len() ==> #[trigger] v[j] < i,
    }
}

/// A later formula changes nothing about the earlier ones.
proof fn earlier(ts: Seq<LT>, ns: Seq<NV>, ms: Seq<NV>, i: int, x: Trace)
    requires
        0 <= i < ns.len() <= ms.len(),
        forall|j: int| 0 <= j < ns.len() ==> #[trigger] ms[j] == ns[j],
    ensures
        true_at(ts, ms, i, x) == true_at(ts, ns, i, x),
    decreases i,
{
    assert(ms[i] == ns[i]);
    match ns[i] {
        NV::Not(a) => {
            if a < i {
                earlier(ts, ns, ms, a as int, x);
            }
        },
        NV::And(v) => {
            assert forall|j: int| 0 <= j < v.len() && #[trigger] v[j] < i implies true_at(ts, ms, v[j] as int, x)
                == true_at(ts, ns, v[j] as int, x) by {
                earlier(ts, ns, ms, v[j] as int, x);
            }
        },
        NV::Or(v) => {
            assert forall|j: int| 0 <= j < v.len() && #[trigger] v[j] < i implies true_at(ts, ms, v[j] as int, x)
                == true_at(ts, ns, v[j] as int, x) by {
                earlier(ts, ns, ms, v[j] as int, x);
            }
        },
        _ => {},
    }
}

/// The formulas about the paths of a system.
pub struct SmtEnc<'m> {
    pub flat: &'m FlatModule,
    pub nodes: Vec<Node>,
}

impl<'m> SmtEnc<'m> {
    /// The system.
    pub open spec fn sys(&self) -> Sys {
        self.flat.sys()
    }

    /// The content of the formulas.
    pub open spec fn ns(&self) -> Seq<NV> {
        node_views(self.nodes@)
    }

    /// Every formula is made of earlier ones.
    pub open spec fn wf(&self) -> bool {
        forall|i: int| 0 <= i < self.nodes@.len() ==> node_ok(self.sys().leaves, #[trigger] self.ns()[i], i)
    }

    /// There is a formula of this number.
    pub open spec fn has(&self, n: usize) -> bool {
        n < self.nodes@.len()
    }

    /// The truth of a formula.
    pub open spec fn eval(&self, n: usize, x: Trace) -> bool {
        true_at(self.sys().leaves, self.ns(), n as int, x)
    }

    /// The formulas of `o` are still there.
    pub open spec fn keeps(&self, o: &SmtEnc<'m>) -> bool {
        &&& self.flat == o.flat
        &&& forall|n: usize| #[trigger] o.has(n) ==> self.has(n)
        &&& forall|n: usize, x: Trace| o.has(n) ==> #[trigger] self.eval(n, x) == o.eval(n, x)
    }

    /// No formulas yet.
    pub fn new(flat: &'m FlatModule) -> (r: SmtEnc<'m>)
        ensures
            r.wf(),
            r.flat == flat,
    {
        SmtEnc { flat, nodes: Vec::new() }
    }

    fn put_node(&mut self, n: Node) -> (r: usize)
        requires
            old(self).wf(),
            node_ok(old(self).sys().leaves, n.model(), old(self).nodes@.len() as int),
        ensures
            final(self).wf(),
            final(self).keeps(old(self)),
            r == old(self).nodes@.len(),
            final(self).has(r),
            final(self).ns() == old(self).ns().push(n.model()),
    {
        let ghost o = *self;
        let ghost m = n.model();
        let r: usize = self.nodes.len();
        self.nodes.push(n);
        proof {
            assert(self.ns() =~= o.ns().push(m));
            assert forall|i: int| 0 <= i < self.nodes@.len() implies node_ok(
                self.sys().leaves,
                #[trigger] self.ns()[i],
                i,
            ) by {
                if i < o.nodes@.len() {
                    assert(self.ns()[i] == o.ns()[i]);
                }
            }
            assert forall|n: usize, x: Trace| o.has(n) implies #[trigger] self.eval(n, x) == o.eval(n, x) by {
                earlier(self.sys().leaves, o.ns(), self.ns(), n as int, x);
            }
        }
        r
    }

    /// Every leaf has a value of its type at the step.
    pub fn declare_step(&mut self, t: usize) -> (r: usize)
        requires
            old(self).wf(),
        ensures
            final(self).wf(),
            final(self).keeps(old(self)),
            final(self).has(r),
            forall|x: Trace| #[trigger] final(self).eval(r, x) == in_domain(
                old(self).sys().leaves,
                x(t as nat)
            ),
    {
        self.put_node(Node::Domain(t))
    }

    /// The states at two steps are the same.
    pub fn state_eq(&mut self, s: usize, t: usize) -> (r: usize)
        requires
            old(self).wf(),
        ensures
            final(self).wf(),
            final(self).keeps(old(self)),
            final(self).has(r),
            forall|x: Trace| #[trigger] final(self).eval(r, x) == (x(s as nat) == x(t as nat)),
    {
        self.put_node(Node::Same(s, t))
    }

    fn negation(&mut self, a: usize) -> (r: usize)
        requires
            old(self).wf(),
            old(self).has(a),
        ensures
            final(self).wf(),
            final(self).keeps(old(self)),
            final(self).has(r),
            forall|x: Trace| #[trigger] final(self).eval(r, x) == !old(self).eval(a, x),
    {
        let ghost o = *self;
        let r = self.put_node(Node::Not(a));
        proof {
            assert forall|x: Trace| #[trigger] self.eval(r, x) == !o.eval(a, x) by {
                assert(self.eval(a, x) == o.eval(a, x));
            }
        }
        r
    }

    fn conjunction(&mut self, v: Vec<usize>) -> (r: usize)
        requires
            old(self).wf(),
            forall|i: int| 0 <= i < v@.len() ==> old(self).has(#[trigger] v@[i]),
        ensures
            final(self).wf(),
            final(self).keeps(old(self)),
            final(self).has(r),
            forall|x: Trace| #[trigger]
                final(self).eval(r, x) == (forall|i: int| 0 <= i < v@.len() ==> old(self).eval(#[trigger] v@[i], x)),
    {
        let ghost o = *self;
        let ghost m = v@;
        let r = self.put_node(Node::And(v));
        proof {
            assert forall|x: Trace| #[trigger] self.eval(r, x) == (forall|i: int|
                0 <= i < m.len() ==> o.eval(#[trigger] m[i], x)) by {
                assert(self.ns()[r as int] == NV::And(m));
                assert forall|i: int| 0 <= i < m.len() implies self.eval(#[trigger] m[i], x) == o.eval(m[i], x)
                    && m[i] < r by {
                    assert(o.has(m[i]));
                }
                if self.eval(r, x) {
                    assert forall|i: int| 0 <= i < m.len() implies o.eval(#[trigger] m[i], x) by {
                        assert(self.eval(m[i], x));
                    }
                }
                if forall|i: int| 0 <= i < m.len() ==> o.eval(#[trigger] m[i], x) {
                    assert forall|i: int| 0 <= i < m.len() implies #[trigger] m[i] < r && true_at(
                        self.sys().leaves,
                        self.ns(),
                        m[i] as int,
                        x,
                    ) by {
                        assert(o.eval(m[i], x));
                        assert(self.eval(m[i], x));
                    }
                }
            }
        }
        r
    }

    fn disjunction(&mut self, v: Vec<usize>) -> (r: usize)
        requires
            old(self).wf(),
            forall|i: int| 0 <= i < v@.len() ==> old(self).has(#[trigger] v@[i]),
        ensures
            final(self).wf(),
            final(self).keeps(old(self)),
            final(self).has(r),
            forall|x: Trace| #[trigger]
                final(self).eval(r, x) == (exists|i: int| 0 <= i < v@.len() && old(self).eval(#[trigger] v@[i], x)),
    {
        let ghost o = *self;
        let ghost m = v@;
        let r = self.put_node(Node::Or(v));
        proof {
            assert forall|x: Trace| #[trigger] self.eval(r, x) == (exists|i: int|
                0 <= i < m.len() && o.eval(#[trigger] m[i], x)) by {
                assert(self.ns()[r as int] == NV::Or(m));
                assert forall|i: int| 0 <= i < m.len() implies self.eval(#[trigger] m[i], x) == o.eval(m[i], x)
                    && m[i] < r by {
                    assert(o.has(m[i]));
                }
                if self.eval(r, x) {
                    let j = choose|j: int|
                        0 <= j < m.len() && #[trigger] m[j] < r && true_at(
                            self.sys().leaves,
                            self.ns(),
                            m[j] as int,
                            x,
                        );
                    assert(self.eval(m[j], x));
                    assert(o.eval(m[j], x));
                }
                if exists|i: int| 0 <= i < m.len() && o.eval(#[trigger] m[i], x) {
                    let j = choose|i: int| 0 <= i < m.len() && o.eval(#[trigger] m[i], x);
                    assert(self.eval(m[j], x));
                    assert(m[j] < r && true_at(self.sys().leaves, self.ns(), m[j] as int, x));
                }
            }
        }
        r
    }

    fn both(&mut self, a: usize, b: usize) -> (r: usize)
        requires
            old(self).wf(),
            old(self).has(a),
            old(self).has(b),
        ensures
            final(self).wf(),
            final(self).keeps(old(self)),
            final(self).has(r),
            forall|x: Trace| #[trigger] final(self).eval(r, x) == (old(self).eval(a, x) && old(self).eval(b, x)),
    {
        let ghost o = *self;
        let mut v: Vec<usize> = Vec::new();
        v.push(a);
        v.push(b);
        let ghost m = v@;
        let r = self.conjunction(v);
        proof {
            assert forall|x: Trace| #[trigger] self.eval(r, x) == (o.eval(a, x) && o.eval(b, x)) by {
                assert(m[0] == a && m[1] == b);
                if o.eval(a, x) && o.eval(b, x) {
                    assert forall|i: int| 0 <= i < m.len() implies o.eval(#[trigger] m[i], x) by {}
                }
            }
        }
        r
    }

    fn either(&mut self, a: usize, b: usize) -> (r: usize)
        requires
            old(self).wf(),
            old(self).has(a),
            old(self).has(b),
        ensures
            final(self).wf(),
            final(self).keeps(old(self)),
            final(self).has(r),
            forall|x: Trace| #[trigger] final(self).eval(r, x) == (old(self).eval(a, x) || old(self).eval(b, x)),
    {
        let ghost o = *self;
        let mut v: Vec<usize> = Vec::new();
        v.push(a);
        v.push(b);
        let ghost m = v@;
        let r = self.disjunction(v);
        proof {
            assert forall|x: Trace| #[trigger] self.eval(r, x) == (o.eval(a, x) || o.eval(b, x)) by {
                assert(m[0] == a && m[1] == b);
                if o.eval(a, x) {
                    assert(o.eval(m[0], x));
                }
                if o.eval(b, x) {
                    assert(o.eval(m[1], x));
                }
            }
        }
        r
    }

    /// The condition holds on the states of two steps.
    pub fn enc_bool(&mut self, e: &FExpr, cur: usize, next: usize) -> (r: Result<usize, EngineError>)
        requires
            old(self).wf(),
        ensures
            final(self).wf(),
            final(self).keeps(old(self)),
            match r {
                Ok(n) => final(self).has(n) && forall|x: Trace| #[trigger]
                    final(self).eval(n, x) == holds(sem(e.model(), step_leaves(x(cur as nat), x(next as nat)))),
                Err(x) => x is Eval && !is_condition(e.model(), old(self).sys().leaves),
            },
    {
        match sort_of(e, &self.flat.leaves) {
            Some(Sort::B) => {
                let c = e.clone();
                Ok(self.put_node(Node::Atom(c, cur, next)))
            },
            _ => Err(EngineError::Eval(own("a condition was expected"))),
        }
    }

}

/// An expression with the truth value of a list of commands: one of them can run.
fn commands_expr(cs: &Vec<FlatCmd>) -> (r: FExpr)
    ensures
        forall|env: Leaves| #[trigger] holds(sem(r.model(), env)) == some_cmd(cmd_models(cs@), env),
        forall|ts: Seq<LT>| #[trigger] is_condition(r.model(), ts) == cmds_typed(cmd_models(cs@), ts),
{
    let mut v: Vec<FExpr> = Vec::new();
    let mut i: usize = 0;
    let ghost ms = cmd_models(cs@);
    while i < cs.len()
        invariant
            i <= cs@.len(),
            v@.len() == i,
            ms == cmd_models(cs@),
            forall|j: int, env: Leaves|
                0 <= j < i ==> holds(#[trigger] sem(v@[j].model(), env)) == (holds(sem(ms[j].guard, env)) && holds(
                    sem(ms[j].constraint, env),
                )),
            forall|j: int, ts: Seq<LT>|
                0 <= j < i ==> #[trigger] is_condition(v@[j].model(), ts) == (is_condition(ms[j].guard, ts)
                    && is_condition(ms[j].constraint, ts)),
        decreases cs.len() - i,
    {
        let e = pair_expr(cs[i].guard.clone(), cs[i].constraint.clone());
        assert(ms[i as int] == cs@[i as int].model());
        v.push(e);
        i += 1;
    }
    let r = FExpr::Or(v);
    proof {
        let es = fe_models(v@);
        assert forall|env: Leaves| #[trigger] holds(sem(r.model(), env)) == some_cmd(ms, env) by {
            assert(r.model() == FE::Or(es));
            let o = sems(es, env);
            assert forall|j: int| 0 <= j < es.len() implies #[trigger] o[j] == sem(v@[j].model(), env) by {}
            if some_cmd(ms, env) {
                let j = choose|j: int|
                    0 <= j < ms.len() && holds(sem((#[trigger] ms[j]).guard, env))
                        && holds(sem(ms[j].constraint, env));
                assert(holds(o[j]));
            }
            if some_holds(o) {
                let j = choose|j: int| 0 <= j < o.len() && holds(#[trigger] o[j]);
                assert(holds(sem(v@[j].model(), env)));
                assert(holds(sem(ms[j].guard, env)));
            }
        }
        assert forall|ts: Seq<LT>| #[trigger] is_condition(r.model(), ts) == cmds_typed(ms, ts) by {
            assert(r.model() == FE::Or(es));
            let o = typeds(es, ts);
            assert forall|j: int| 0 <= j < es.len() implies (#[trigger] o[j] == Some(Sort::B)) == is_condition(
                v@[j].model(),
                ts,
            ) by {}
            if cmds_typed(ms, ts) {
                assert forall|j: int| 0 <= j < o.len() implies #[trigger] o[j] == Some(Sort::B) by {
                    assert(is_condition(ms[j].guard, ts));
                    assert(is_condition(v@[j].model(), ts));
                }
            }
            if all_sort(o, Sort::B) {
                assert forall|j: int| 0 <= j < ms.len() implies is_condition((#[trigger] ms[j]).guard, ts)
                    && is_condition(ms[j].constraint, ts) by {
                    assert(o[j] == Some(Sort::B));
                    assert(is_condition(v@[j].model(), ts));
                }
            }
        }
    }
    r
}

/// Both conditions.
fn pair_expr(a: FExpr, b: FExpr) -> (r: FExpr)
    ensures
        forall|env: Leaves| #[trigger]
            holds(sem(r.model(), env)) == (holds(sem(a.model(), env)) && holds(sem(b.model(), env))),
        forall|ts: Seq<LT>| #[trigger]
            is_condition(r.model(), ts) == (is_condition(a.model(), ts) && is_condition(b.model(), ts)),
{
    let ghost am = a.model();
    let ghost bm = b.model();
    let mut v: Vec<FExpr> = Vec::new();
    v.push(a);
    v.push(b);
    let r = FExpr::And(v);
    proof {
        let es = fe_models(v@);
        assert(es.len() == 2 && es[0] == am && es[1] == bm);
        assert(r.model() == FE::And(es));
        assert forall|env: Leaves| #[trigger] holds(sem(r.model(), env)) == (holds(sem(am, env)) && holds(
            sem(bm, env),
        )) by {
            let o = sems(es, env);
            assert(o[0] == sem(am, env));
            assert(o[1] == sem(bm, env));
            if holds(o[0]) && holds(o[1]) {
                assert(all_hold(o));
            }
        }
        assert forall|ts: Seq<LT>| #[trigger] is_condition(r.model(), ts) == (is_condition(am, ts) && is_condition(
            bm,
            ts,
        )) by {
            let o = typeds(es, ts);
            assert(o[0] == typed(am, ts));
            assert(o[1] == typed(bm, ts));
            if o[0] == Some(Sort::B) && o[1] == Some(Sort::B) {
                assert(all_sort(o, Sort::B));
            }
        }
    }
    r
}

/// All conditions of a list.
fn all_expr(es: &Vec<FExpr>) -> (r: FExpr)
    ensures
        forall|env: Leaves| #[trigger] holds(sem(r.model(), env)) == all_hold(sems(fe_models(es@), env)),
        forall|ts: Seq<LT>| #[trigger]
            is_condition(r.model(), ts) == all_sort(typeds(fe_models(es@), ts), Sort::B),
{
    let v = clone_fexprs(es);
    let r = FExpr::And(v);
    assert(r.model() == FE::And(fe_models(v@)));
    r
}

/// An expression with the truth value of a transition relation.
fn relation_expr(n: &TransNode) -> (r: FExpr)
    ensures
        forall|env: Leaves| #[trigger] holds(sem(r.model(), env)) == allows(n.model(), env),
        forall|ts: Seq<LT>| #[trigger] is_condition(r.model(), ts) == tn_typed(n.model(), ts),
    decreases n,
{
    match n {
        TransNode::True => {
            let r = FExpr::And(Vec::new());
            proof {
                let es = fe_models(Seq::empty());
                assert(r.model() == FE::And(es));
                assert forall|env: Leaves| #[trigger] holds(sem(r.model(), env)) by {
                    assert(all_hold(sems(es, env)));
                }
                assert forall|ts: Seq<LT>| #[trigger] is_condition(r.model(), ts) by {
                    assert(all_sort(typeds(es, ts), Sort::B));
                }
            }
            r
        },
        TransNode::Cmds(cs) => commands_expr(cs),
        TransNode::All(ns) => {
            let mut v: Vec<FExpr> = Vec::new();
            let mut i: usize = 0;
            while i < ns.len()
                invariant
                    i <= ns@.len(),
                    v@.len() == i,
                    decreases_to!(n => ns),
                    forall|j: int, env: Leaves|
                        0 <= j < i ==> holds(#[trigger] sem(v@[j].model(), env)) == allows(ns@[j].model(), env),
                    forall|j: int, ts: Seq<LT>|
                        0 <= j < i ==> #[trigger] is_condition(v@[j].model(), ts) == tn_typed(ns@[j].model(), ts),
                decreases ns.len() - i,
            {
                v.push(relation_expr(&ns[i]));
                i += 1;
            }
            let r = FExpr::And(v);
            proof {
                let es = fe_models(v@);
                let ms = tn_models(ns@);
                assert(r.model() == FE::And(es));
                assert(n.model() == TN::All(ms));
                assert forall|env: Leaves| #[trigger] holds(sem(r.model(), env)) == allows(n.model(), env) by {
                    let o = sems(es, env);
                    let a = allowed(ms, env);
                    assert forall|j: int| 0 <= j < es.len() implies holds(#[trigger] o[j]) == a[j] by {
                        assert(o[j] == sem(v@[j].model(), env));
                        assert(ms[j] == ns@[j].model());
                    }
                    if every(a) {
                        assert forall|j: int| 0 <= j < o.len() implies holds(#[trigger] o[j]) by {
                            assert(a[j]);
                        }
                    }
                    if all_hold(o) {
                        assert forall|j: int| 0 <= j < a.len() implies #[trigger] a[j] by {
                            assert(holds(o[j]));
                        }
                    }
                }
                assert forall|ts: Seq<LT>| #[trigger] is_condition(r.model(), ts) == tn_typed(n.model(), ts) by {
                    let o = typeds(es, ts);
                    let a = tns_typed(ms, ts);
                    assert forall|j: int| 0 <= j < es.len() implies (#[trigger] o[j] == Some(Sort::B)) == a[j] by {
                        assert(o[j] == typed(v@[j].model(), ts));
                        assert(is_condition(v@[j].model(), ts) == tn_typed(ns@[j].model(), ts));
                        assert(ms[j] == ns@[j].model());
                    }
                    if every(a) {
                        assert forall|j: int| 0 <= j < o.len() implies #[trigger] o[j] == Some(Sort::B) by {
                            assert(a[j]);
                        }
                    }
                    if all_sort(o, Sort::B) {
                        assert forall|j: int| 0 <= j < a.len() implies #[trigger] a[j] by {
                            assert(o[j] == Some(Sort::B));
                        }
                    }
                }
            }
            r
        },
        TransNode::Interleave(bs) => {
            let mut v: Vec<FExpr> = Vec::new();
            let mut i: usize = 0;
            while i < bs.len()
                invariant
                    i <= bs@.len(),
                    v@.len() == i,
                    decreases_to!(n => bs),
                    forall|j: int, env: Leaves|
                        0 <= j < i ==> holds(#[trigger] sem(v@[j].model(), env)) == (allows(bs@[j].0.model(), env)
                            && holds(sem(bs@[j].1.model(), env))),
                    forall|j: int, ts: Seq<LT>|
                        0 <= j < i ==> #[trigger] is_condition(v@[j].model(), ts) == (tn_typed(bs@[j].0.model(), ts)
                            && is_condition(bs@[j].1.model(), ts)),
                decreases bs.len() - i,
            {
                let a = relation_expr(&bs[i].0);
                v.push(pair_expr(a, bs[i].1.clone()));
                i += 1;
            }
            let r = FExpr::Or(v);
            proof {
                let es = fe_models(v@);
                let ms = branch_models(bs@);
                assert(r.model() == FE::Or(es));
                assert(n.model() == TN::Interleave(ms));
                assert forall|env: Leaves| #[trigger] holds(sem(r.model(), env)) == allows(n.model(), env) by {
                    let o = sems(es, env);
                    let a = branches_allowed(ms, env);
                    assert forall|j: int| 0 <= j < es.len() implies holds(#[trigger] o[j]) == a[j] by {
                        assert(o[j] == sem(v@[j].model(), env));
                        assert(ms[j] == (bs@[j].0.model(), bs@[j].1.model()));
                    }
                    if some(a) {
                        let j = choose|j: int| 0 <= j < a.len() && #[trigger] a[j];
                        assert(holds(o[j]));
                    }
                    if some_holds(o) {
                        let j = choose|j: int| 0 <= j < o.len() && holds(#[trigger] o[j]);
                        assert(a[j]);
                    }
                }
                assert forall|ts: Seq<LT>| #[trigger] is_condition(r.model(), ts) == tn_typed(n.model(), ts) by {
                    let o = typeds(es, ts);
                    let a = branches_typed(ms, ts);
                    assert forall|j: int| 0 <= j < es.len() implies (#[trigger] o[j] == Some(Sort::B)) == a[j] by {
                        assert(o[j] == typed(v@[j].model(), ts));
                        assert(is_condition(v@[j].model(), ts) == (tn_typed(bs@[j].0.model(), ts) && is_condition(
                            bs@[j].1.model(),
                            ts,
                        )));
                        assert(ms[j] == (bs@[j].0.model(), bs@[j].1.model()));
                    }
                    if every(a) {
                        assert forall|j: int| 0 <= j < o.len() implies #[trigger] o[j] == Some(Sort::B) by {
                            assert(a[j]);
                        }
                    }
                    if all_sort(o, Sort::B) {
                        assert forall|j: int| 0 <= j < a.len() implies #[trigger] a[j] by {
                            assert(o[j] == Some(Sort::B));
                        }
                    }
                }
            }
            r
        },
    }
}

/// The first `n` blocks of commands can each run.
spec fn blocks_run(bs: Seq<Seq<Cmd>>, n: int, env: Leaves) -> bool {
    forall|i: int| 0 <= i < n ==> some_cmd(#[trigger] bs[i], env)
}

/// The first `n` blocks of commands are well-typed.
spec fn blocks_typed(bs: Seq<Seq<Cmd>>, n: int, ts: Seq<LT>) -> bool {
    forall|i: int| 0 <= i < n ==> cmds_typed(#[trigger] bs[i], ts)
}

/// An expression that holds in the initial states.
fn initial_expr(flat: &FlatModule) -> (r: FExpr)
    ensures
        forall|env: Leaves| #[trigger]
            holds(sem(r.model(), env)) == (flat.sys().invariant_at(env) && flat.sys().init_at(env)),
        flat.sys().well_typed() ==> is_condition(r.model(), flat.sys().leaves),
{
    let ghost sys = flat.sys();
    let ghost cs = sys.init_choices;
    let ghost ts = sys.leaves;
    let mut r = pair_expr(all_expr(&flat.invariants), all_expr(&flat.init_defs));
    let mut i: usize = 0;
    while i < flat.init_choices.len()
        invariant
            i <= flat.init_choices@.len(),
            sys == flat.sys(),
            cs == sys.init_choices,
            ts == sys.leaves,
            forall|env: Leaves| #[trigger]
                holds(sem(r.model(), env)) == (sys.invariant_at(env) && all_hold(sems(sys.init_defs, env))
                    && blocks_run(cs, i as int, env)),
            is_condition(r.model(), ts) == (all_sort(typeds(sys.invariants, ts), Sort::B) && all_sort(
                typeds(sys.init_defs, ts),
                Sort::B,
            ) && blocks_typed(cs, i as int, ts)),
        decreases flat.init_choices.len() - i,
    {
        let c = commands_expr(&flat.init_choices[i]);
        let ghost rm = r.model();
        let ghost cm = c.model();
        proof {
            assert(cs[i as int] == cmd_models(flat.init_choices@[i as int]@));
        }
        r = pair_expr(r, c);
        proof {
            assert forall|env: Leaves| #[trigger] holds(sem(r.model(), env)) == (sys.invariant_at(env) && all_hold(
                sems(sys.init_defs, env),
            ) && blocks_run(cs, i + 1, env)) by {
                assert(holds(sem(cm, env)) == some_cmd(cs[i as int], env));
                assert(holds(sem(rm, env)) == (sys.invariant_at(env) && all_hold(sems(sys.init_defs, env))
                    && blocks_run(cs, i as int, env)));
            }
            assert(is_condition(cm, ts) == cmds_typed(cs[i as int], ts));
        }
        i += 1;
    }
    proof {
        assert forall|env: Leaves| #[trigger] holds(sem(r.model(), env)) == (sys.invariant_at(env)
            && sys.init_at(env)) by {
            assert(blocks_run(cs, cs.len() as int, env) == (forall|i: int|
                0 <= i < cs.len() ==> some_cmd(#[trigger] cs[i], env)));
        }
    }
    r
}

/// The system can go from one state to the other, whatever the types of its leaves.
pub open spec fn moves_on(sys: Sys, s: State, t: State) -> bool {
    &&& in_domain(sys.leaves, t)
    &&& sys.invariant_at(state_leaves(t))
    &&& sys.trans_at(step_leaves(s, t))
}

/// The state is one in which the system can start, whatever the types of its leaves.
pub open spec fn starts(sys: Sys, s: State) -> bool {
    &&& in_domain(sys.leaves, s)
    &&& sys.invariant_at(state_leaves(s))
    &&& sys.init_at(state_leaves(s))
}

impl<'m> SmtEnc<'m> {
    /// The state at the first step is one in which the system can start.
    pub fn init(&mut self) -> (r: Result<usize, EngineError>)
        requires
            old(self).wf(),
        ensures
            final(self).wf(),
            final(self).keeps(old(self)),
            match r {
                Ok(n) => final(self).has(n) && forall|x: Trace| #[trigger]
                    final(self).eval(n, x) == starts(old(self).sys(), x(0)),
                Err(x) => x is Eval && !old(self).sys().well_typed(),
            },
    {
        let ghost o = *self;
        let e = initial_expr(self.flat);
        let d = self.declare_step(0);
        let ghost s1 = *self;
        let c = match self.enc_bool(&e, 0, 0) {
            Ok(n) => n,
            Err(x) => {
                return Err(x);
            },
        };
        let ghost s2 = *self;
        let r = self.both(d, c);
        proof {
            assert forall|x: Trace| #[trigger] self.eval(r, x) == starts(o.sys(), x(0)) by {
                assert(s2.eval(d, x) == s1.eval(d, x));
                assert(s2.eval(c, x) == holds(sem(e.model(), step_leaves(x(0), x(0)))));
            }
        }
        Ok(r)
    }

    /// The system can go from the state at one step to that at another.
    pub fn trans(&mut self, cur: usize, next: usize) -> (r: Result<usize, EngineError>)
        requires
            old(self).wf(),
        ensures
            final(self).wf(),
            final(self).keeps(old(self)),
            match r {
                Ok(n) => final(self).has(n) && forall|x: Trace| #[trigger]
                    final(self).eval(n, x) == moves_on(old(self).sys(), x(cur as nat), x(next as nat)),
                Err(x) => x is Eval && !old(self).sys().well_typed(),
            },
    {
        let ghost o = *self;
        let flat = self.flat;
        let e = pair_expr(all_expr(&flat.trans_defs), relation_expr(&flat.trans));
        let i = all_expr(&flat.invariants);
        let d = self.declare_step(next);
        let ghost s1 = *self;
        let a = match self.enc_bool(&e, cur, next) {
            Ok(n) => n,
            Err(x) => {
                return Err(x);
            },
        };
        let ghost s2 = *self;
        let b = match self.enc_bool(&i, next, next) {
            Ok(n) => n,
            Err(x) => {
                return Err(x);
            },
        };
        let ghost s3 = *self;
        let c = self.both(d, a);
        let ghost s4 = *self;
        let r = self.both(c, b);
        proof {
            assert forall|x: Trace| #[trigger] self.eval(r, x) == moves_on(
                o.sys(),
                x(cur as nat),
                x(next as nat)
            ) by {
                let env = step_leaves(x(cur as nat), x(next as nat));
                assert(s2.eval(d, x) == s1.eval(d, x));
                assert(s3.eval(d, x) == s2.eval(d, x));
                assert(s3.eval(a, x) == s2.eval(a, x));
                assert(s4.eval(b, x) == s3.eval(b, x));
                assert(s4.eval(c, x) == (s3.eval(d, x) && s3.eval(a, x)));
                assert(holds(sem(e.model(), env)) == (all_hold(sems(o.sys().trans_defs, env)) && allows(
                    o.sys().trans,
                    env,
                )));
            }
        }
        Ok(r)
    }
}

/// The formulas as a source of terms.
pub struct SmtAlg<'m> {
    pub enc: SmtEnc<'m>,
}

impl<'m> BoolAlg for SmtAlg<'m> {
    type B = usize;

    type Env = Trace;

    open spec fn ok(&self) -> bool {
        self.enc.wf()
    }

    open spec fn takes(&self, e: FE) -> bool {
        is_condition(e, self.enc.sys().leaves)
    }

    open spec fn good(&self, b: usize) -> bool {
        self.enc.has(b)
    }

    open spec fn value(&self, b: usize, x: Trace) -> bool {
        self.enc.eval(b, x)
    }

    open spec fn extends(&self, old: &SmtAlg<'m>) -> bool {
        self.enc.keeps(&old.enc)
    }

    proof fn extends_self(&self) {
    }

    proof fn extends_on(&self, mid: &SmtAlg<'m>, old: &SmtAlg<'m>) {
    }

    open spec fn atom_value(&self, e: FE, t: nat, x: Trace) -> bool {
        holds_in(e, x(t))
    }

    fn tt(&mut self) -> (r: usize) {
        self.enc.conjunction(Vec::new())
    }

    fn ff(&mut self) -> (r: usize) {
        self.enc.disjunction(Vec::new())
    }

    fn and(&mut self, xs: Vec<usize>) -> (r: usize) {
        let ghost o = self.enc;
        let ghost m = xs@;
        proof {
            assert forall|i: int| 0 <= i < xs@.len() implies o.has(#[trigger] xs@[i]) by {
                assert(self.good(xs@[i]));
            }
        }
        let r = self.enc.conjunction(xs);
        proof {
            assert forall|x: Trace| #[trigger] self.value(r, x) == (forall|i: int|
                0 <= i < m.len() ==> old(self).value(#[trigger] m[i], x)) by {
                assert(self.enc.eval(r, x) == (forall|i: int| 0 <= i < m.len() ==> o.eval(#[trigger] m[i], x)));
                if forall|i: int| 0 <= i < m.len() ==> o.eval(#[trigger] m[i], x) {
                    assert forall|i: int| 0 <= i < m.len() implies old(self).value(#[trigger] m[i], x) by {
                        assert(o.eval(m[i], x));
                    }
                }
                if forall|i: int| 0 <= i < m.len() ==> old(self).value(#[trigger] m[i], x) {
                    assert forall|i: int| 0 <= i < m.len() implies o.eval(#[trigger] m[i], x) by {
                        assert(old(self).value(m[i], x));
                    }
                }
            }
        }
        r
    }

    fn or(&mut self, xs: Vec<usize>) -> (r: usize) {
        let ghost o = self.enc;
        let ghost m = xs@;
        proof {
            assert forall|i: int| 0 <= i < xs@.len() implies o.has(#[trigger] xs@[i]) by {
                assert(self.good(xs@[i]));
            }
        }
        let r = self.enc.disjunction(xs);
        proof {
            assert forall|x: Trace| #[trigger] self.value(r, x) == (exists|i: int|
                0 <= i < m.len() && old(self).value(#[trigger] m[i], x)) by {
                assert(self.enc.eval(r, x) == (exists|i: int| 0 <= i < m.len() && o.eval(#[trigger] m[i], x)));
                if exists|i: int| 0 <= i < m.len() && o.eval(#[trigger] m[i], x) {
                    let i = choose|i: int| 0 <= i < m.len() && o.eval(#[trigger] m[i], x);
                    assert(old(self).value(m[i], x));
                }
                if exists|i: int| 0 <= i < m.len() && old(self).value(#[trigger] m[i], x) {
                    let i = choose|i: int| 0 <= i < m.len() && old(self).value(#[trigger] m[i], x);
                    assert(o.eval(m[i], x));
                }
            }
        }
        r
    }

    fn not(&mut self, b: usize) -> (r: usize) {
        self.enc.negation(b)
    }

    fn atom(&mut self, e: &FExpr, t: usize) -> (r: usize) {
        match self.enc.enc_bool(e, t, t) {
            Ok(n) => n,
            Err(_) => {
                assert(false);
                0
            },
        }
    }
}

/// The first `k + 1` states are a path of the system, from a state in which it can start if
/// `init`, and the lemmas hold along it.
pub open spec fn goes(sys: Sys, init: bool, lemmas: Seq<FE>, k: nat, x: Trace) -> bool {
    &&& init ==> starts(sys, x(0))
    &&& in_domain(sys.leaves, x(0)) && sys.invariant_at(state_leaves(x(0)))
    &&& forall|t: nat| t < k ==> #[trigger] hop(sys, x, t)
    &&& forall|t: nat| t <= k ==> #[trigger] lemmas_at(lemmas, x, t)
}

/// The system goes from the state at a step to the next.
pub open spec fn hop(sys: Sys, x: Trace, t: nat) -> bool {
    moves_on(sys, x(t), x(t + 1))
}

/// The lemmas hold at a step.
pub open spec fn lemmas_at(lemmas: Seq<FE>, x: Trace, t: nat) -> bool {
    all_hold(sems(lemmas, state_leaves(x(t))))
}

/// A path of `k` steps can be closed: the system can go from its end to the state number `l`.
pub open spec fn back(sys: Sys, k: nat, l: nat, x: Trace) -> bool {
    moves_on(sys, x(k), x(k + 1)) && x(k + 1) == x(l)
}

/// The formula holds on a path of `k` steps, with or without a loop.
pub open spec fn shows(sys: Sys, f: NN, k: nat, x: Trace) -> bool {
    ||| b_sat(f, word_of(x), k, None)(0)
    ||| exists|l: nat| l <= k && #[trigger] shows_loop(sys, f, k, l, x)
}

/// The formula holds on a path of `k` steps with a loop.
pub open spec fn shows_loop(sys: Sys, f: NN, k: nat, l: nat, x: Trace) -> bool {
    back(sys, k, l, x) && b_sat(f, word_of(x), k, Some(l))(0)
}

/// The formula holds with or without one of the first `n` loops.
spec fn shown_below(sys: Sys, f: NN, k: nat, n: int, x: Trace) -> bool {
    ||| b_sat(f, word_of(x), k, None)(0)
    ||| exists|l: nat| l < n && #[trigger] shows_loop(sys, f, k, l, x)
}

impl<'m> SmtEnc<'m> {
    /// The states of the first steps are a path of the system.
    fn path(&mut self, init: bool, k: usize, lemmas: &Vec<FExpr>) -> (r: Result<usize, EngineError>)
        requires
            old(self).wf(),
            k < usize::MAX,
        ensures
            final(self).wf(),
            final(self).keeps(old(self)),
            match r {
                Ok(n) => final(self).has(n) && forall|x: Trace| #[trigger]
                    final(self).eval(n, x) == goes(old(self).sys(), init, fe_models(lemmas@), k as nat, x),
                Err(x) => x is Eval && !(old(self).sys().well_typed() && all_sort(
                    typeds(fe_models(lemmas@), old(self).sys().leaves),
                    Sort::B,
                )),
            },
    {
        let ghost o = *self;
        let ghost sys = self.sys();
        let ghost ls = fe_models(lemmas@);
        let flat = self.flat;
        let inv = all_expr(&flat.invariants);
        let lem = all_expr(lemmas);
        let d = self.declare_step(0);
        let ghost s1 = *self;
        let i = match self.enc_bool(&inv, 0, 0) {
            Ok(n) => n,
            Err(x) => {
                return Err(x);
            },
        };
        let ghost s2 = *self;
        let mut r = self.both(d, i);
        proof {
            assert forall|x: Trace| #[trigger] self.eval(r, x) == (in_domain(sys.leaves, x(0)) && sys.invariant_at(
                state_leaves(x(0)),
            )) by {
                assert(s2.eval(d, x) == s1.eval(d, x));
                assert(s2.eval(i, x) == holds(sem(inv.model(), step_leaves(x(0), x(0)))));
            }
        }
        if init {
            let ghost s3 = *self;
            let b = match self.init() {
                Ok(n) => n,
                Err(x) => {
                    return Err(x);
                },
            };
            let ghost s4 = *self;
            let r2 = self.both(r, b);
            proof {
                assert forall|x: Trace| #[trigger] self.eval(r2, x) == (starts(sys, x(0))
                    && in_domain(sys.leaves, x(0))
                    && sys.invariant_at(state_leaves(x(0)))) by {
                    assert(s4.eval(r, x) == s3.eval(r, x));
                    assert(s4.eval(b, x) == starts(sys, x(0)));
                }
            }
            r = r2;
        }
        let mut t: usize = 0;
        while t < k
            invariant
                t <= k,
                k < usize::MAX,
                o == *old(self),
                sys == o.sys(),
                self.wf(),
                self.keeps(&o),
                self.has(r),
                forall|x: Trace| #[trigger]
                    self.eval(r, x) == ((init ==> starts(sys, x(0))) && in_domain(sys.leaves, x(0))
                        && sys.invariant_at(state_leaves(x(0)))
                            && forall|j: nat| j < t ==> #[trigger] hop(sys, x, j)),
            decreases k - t,
        {
            let ghost a1 = *self;
            let s = match self.trans(t, t + 1) {
                Ok(n) => n,
                Err(x) => {
                    return Err(x);
                },
            };
            let ghost a2 = *self;
            let r2 = self.both(r, s);
            proof {
                assert forall|x: Trace| #[trigger] self.eval(r2, x) == ((init ==> starts(sys, x(0))) && in_domain(
                    sys.leaves,
                    x(0),
                ) && sys.invariant_at(state_leaves(x(0)))
                    && forall|j: nat| j < t + 1 ==> #[trigger] hop(sys, x, j)) by {
                    assert(a2.eval(r, x) == a1.eval(r, x));
                    assert(a2.eval(s, x) == hop(sys, x, t as nat));
                }
            }
            r = r2;
            t += 1;
        }
        let mut t: usize = 0;
        while t <= k
            invariant
                t <= k + 1,
                k < usize::MAX,
                o == *old(self),
                sys == o.sys(),
                ls == fe_models(lemmas@),
                self.wf(),
                self.keeps(&o),
                self.has(r),
                forall|env: Leaves| #[trigger] holds(sem(lem.model(), env)) == all_hold(sems(ls, env)),
                is_condition(lem.model(), sys.leaves) == all_sort(typeds(ls, sys.leaves), Sort::B),
                forall|x: Trace| #[trigger]
                    self.eval(r, x) == ((init ==> starts(sys, x(0))) && in_domain(sys.leaves, x(0))
                        && sys.invariant_at(state_leaves(x(0)))
                            && (forall|j: nat| j < k ==> #[trigger] hop(sys, x, j))
                        && (forall|j: nat| j < t ==> #[trigger] lemmas_at(ls, x, j))),
            decreases k + 1 - t,
        {
            let ghost a1 = *self;
            let s = match self.enc_bool(&lem, t, t) {
                Ok(n) => n,
                Err(x) => {
                    return Err(x);
                },
            };
            let ghost a2 = *self;
            let r2 = self.both(r, s);
            proof {
                assert forall|x: Trace| #[trigger] self.eval(r2, x) == ((init ==> starts(sys, x(0))) && in_domain(
                    sys.leaves,
                    x(0),
                ) && sys.invariant_at(state_leaves(x(0))) && (forall|j: nat| j < k ==> #[trigger] hop(sys, x, j)) && (
                forall|j: nat| j < t + 1 ==> #[trigger] lemmas_at(ls, x, j))) by {
                    assert(a2.eval(r, x) == a1.eval(r, x));
                    assert(a2.eval(s, x) == lemmas_at(ls, x, t as nat));
                }
            }
            r = r2;
            t += 1;
        }
        Ok(r)
    }
}

/// A formula for: the negated formula holds on the path, with or without a loop.
fn property<'m>(enc: SmtEnc<'m>, neg: &Ltl, k: usize) -> (r: Result<(SmtEnc<'m>, usize), EngineError>)
    requires
        enc.wf(),
        k < usize::MAX - 1,
        nn_atoms(neg.model(), |e: FE| is_condition(e, enc.sys().leaves)),
    ensures
        match r {
            Ok((e2, n)) => {
                &&& e2.wf()
                &&& e2.keeps(&enc)
                &&& e2.has(n)
                &&& forall|x: Trace| #[trigger] e2.eval(n, x) == shows(enc.sys(), neg.model(), k as nat, x)
            },
            Err(x) => x is Eval && !enc.sys().well_typed(),
        },
{
    let ghost a0 = SmtAlg { enc };
    let ghost f = neg.model();
    let ghost sys = enc.sys();
    let mut bl = BoundedLtl::new(SmtAlg { enc }, k);
    proof {
        takes_all(&bl, &a0, f);
    }
    let mut r = bl.no_loop(neg, 0);
    proof {
        assert forall|x: Trace| #[trigger] bl.alg.enc.eval(r, x) == shown_below(sys, f, k as nat, 0, x) by {
            same_word(&a0, x);
            assert(bl.alg.value(r, x) == b_sat(f, alg_word(&a0, x), k as nat, None)(0));
        }
    }
    let mut l: usize = 0;
    while l <= k
        invariant
            l <= k + 1,
            k < usize::MAX - 1,
            bl.k == k,
            f == neg.model(),
            nn_atoms(f, |e: FE| is_condition(e, sys.leaves)),
            sys == a0.enc.sys(),
            a0.enc == enc,
            bl.alg.enc.wf(),
            bl.alg.enc.keeps(&a0.enc),
            bl.alg.enc.has(r),
            forall|x: Trace| #[trigger] bl.alg.enc.eval(r, x) == shown_below(sys, f, k as nat, l as int, x),
        decreases k + 1 - l,
    {
        let ghost b0 = bl.alg;
        proof {
            takes_all(&bl, &a0, f);
        }
        let wl = bl.with_loop(neg, 0, l);
        let ghost b1a = bl.alg;
        let ghost b1 = bl.alg.enc;
        let tk = match bl.alg.enc.trans(k, k + 1) {
            Ok(n) => n,
            Err(x) => {
                return Err(x);
            },
        };
        let ghost b2 = bl.alg.enc;
        let eq = bl.alg.enc.state_eq(k + 1, l);
        let ghost b3 = bl.alg.enc;
        let c1 = bl.alg.enc.both(tk, eq);
        let ghost b4 = bl.alg.enc;
        let c2 = bl.alg.enc.both(c1, wl);
        let ghost b5 = bl.alg.enc;
        let r2 = bl.alg.enc.either(r, c2);
        proof {
            assert forall|x: Trace| #[trigger] bl.alg.enc.eval(r2, x) == shown_below(sys, f, k as nat, l + 1, x) by {
                same_word(&b0, x);
                assert(b1a.value(wl, x) == b_sat(f, alg_word(&b0, x), k as nat, Some(l as nat))(0));
                assert(b1.eval(wl, x) == b1a.value(wl, x));
                assert(b2.eval(wl, x) == b1.eval(wl, x));
                assert(b3.eval(wl, x) == b2.eval(wl, x));
                assert(b4.eval(wl, x) == b3.eval(wl, x));
                assert(b3.eval(tk, x) == b2.eval(tk, x));
                assert(b4.eval(c1, x) == (b3.eval(tk, x) && b3.eval(eq, x)));
                assert(b5.eval(c2, x) == (b4.eval(c1, x) && b4.eval(wl, x)));
                assert(b5.eval(c2, x) == shows_loop(sys, f, k as nat, l as nat, x));
                assert(b1.eval(r, x) == b0.enc.eval(r, x));
                assert(b2.eval(r, x) == b1.eval(r, x));
                assert(b3.eval(r, x) == b2.eval(r, x));
                assert(b4.eval(r, x) == b3.eval(r, x));
                assert(b5.eval(r, x) == b4.eval(r, x));
                if shown_below(sys, f, k as nat, l + 1, x) && !b_sat(f, word_of(x), k as nat, None)(0) {
                    let m = choose|m: nat| m < l + 1 && #[trigger] shows_loop(sys, f, k as nat, m, x);
                    if m < l {
                        assert(shown_below(sys, f, k as nat, l as int, x));
                    }
                }
                if shown_below(sys, f, k as nat, l as int, x) && !b_sat(f, word_of(x), k as nat, None)(0) {
                    let m = choose|m: nat| m < l && #[trigger] shows_loop(sys, f, k as nat, m, x);
                    assert(shown_below(sys, f, k as nat, l + 1, x));
                }
            }
        }
        r = r2;
        l += 1;
    }
    proof {
        assert forall|x: Trace| #[trigger] bl.alg.enc.eval(r, x) == shows(sys, f, k as nat, x) by {
            if shown_below(sys, f, k as nat, k + 1, x) && !b_sat(f, word_of(x), k as nat, None)(0) {
                let m = choose|m: nat| m < k + 1 && #[trigger] shows_loop(sys, f, k as nat, m, x);
                assert(shows(sys, f, k as nat, x));
            }
            if shows(sys, f, k as nat, x) && !b_sat(f, word_of(x), k as nat, None)(0) {
                let m = choose|m: nat| m <= k && #[trigger] shows_loop(sys, f, k as nat, m, x);
                assert(shown_below(sys, f, k as nat, k + 1, x));
            }
        }
    }
    Ok((bl.alg.enc, r))
}

proof fn same_word<'m>(a: &SmtAlg<'m>, x: Trace)
    ensures
        alg_word(a, x) == word_of(x),
{
    assert(alg_word(a, x) =~= word_of(x)) by {
        assert forall|i: nat, e: FE| #[trigger] alg_word(a, x)(i, e) == word_of(x)(i, e) by {}
    }
}

proof fn takes_all<'m>(bl: &BoundedLtl<SmtAlg<'m>>, a: &SmtAlg<'m>, f: NN)
    requires
        bl.alg.enc.wf(),
        bl.k < usize::MAX,
        bl.alg.enc.sys() == a.enc.sys(),
        nn_atoms(f, |e: FE| is_condition(e, a.enc.sys().leaves)),
    ensures
        bl.takes(f),
{
    let p = |e: FE| is_condition(e, a.enc.sys().leaves);
    let q = |e: FE| bl.alg.takes(e);
    assert forall|e: FE| #[trigger] p(e) == q(e) by {}
    assert(p =~= q);
}

/// Whether there is a path of `k` steps, along which the lemmas hold, that shows the negation of
/// the formula: a formula that holds on exactly these paths.
pub fn search_query<'m>(flat: &'m FlatModule, formula: &TFormula, k: usize, lemmas: &Vec<FExpr>) -> (r: Result<
    (SmtEnc<'m>, usize),
    EngineError,
>)
    requires
        k < usize::MAX - 1,
    ensures
        match r {
            Ok((e, n)) => {
                &&& e.wf()
                &&& e.flat == flat
                &&& e.has(n)
                &&& nnf(formula.model(), true) is Some
                &&& forall|x: Trace| #[trigger]
                    e.eval(n, x) == (goes(flat.sys(), true, fe_models(lemmas@), k as nat, x) && shows(
                        flat.sys(),
                        nnf(formula.model(), true)->0,
                        k as nat,
                        x,
                    ))
            },
            Err(x) => x is Eval && !(nnf(formula.model(), true) is Some && nn_atoms(
                nnf(formula.model(), true)->0,
                |e: FE| is_condition(e, flat.sys().leaves),
            ) && flat.sys().well_typed() && all_sort(typeds(fe_models(lemmas@), flat.sys().leaves), Sort::B)),
        },
{
    let neg = match to_nnf(formula, true) {
        Ok(n) => n,
        Err(m) => {
            return Err(EngineError::Eval(m));
        },
    };
    if !atoms_ok(&neg, &flat.leaves) {
        return Err(EngineError::Eval(own("atom encoding failed")));
    }
    let mut enc = SmtEnc::new(flat);
    let p = match enc.path(true, k, lemmas) {
        Ok(n) => n,
        Err(x) => {
            return Err(x);
        },
    };
    let ghost e1 = enc;
    let (mut enc, q) = match property(enc, &neg, k) {
        Ok(x) => x,
        Err(x) => {
            return Err(x);
        },
    };
    let ghost e2 = enc;
    let r = enc.both(p, q);
    proof {
        assert forall|x: Trace| #[trigger] enc.eval(r, x) == (goes(
            flat.sys(),
            true,
            fe_models(lemmas@),
            k as nat,
            x
        )
            && shows(flat.sys(), nnf(formula.model(), true)->0, k as nat, x)) by {
            assert(e2.eval(p, x) == e1.eval(p, x));
        }
    }
    Ok((enc, r))
}

/// The property fails at one of the first `n` steps.
spec fn fails_below(p: FE, n: int, x: Trace) -> bool {
    exists|t: nat| t < n && !#[trigger] holds_in(p, x(t))
}

/// The property fails at one of the first `k + 1` steps.
pub open spec fn fails_within(p: FE, k: nat, x: Trace) -> bool {
    exists|t: nat| t <= k && !#[trigger] holds_in(p, x(t))
}

impl<'m> SmtEnc<'m> {
    /// The property fails at one of the first `n` steps.
    fn failure(&mut self, prop: &FExpr, n: usize) -> (r: Result<usize, EngineError>)
        requires
            old(self).wf(),
        ensures
            final(self).wf(),
            final(self).keeps(old(self)),
            match r {
                Ok(m) => final(self).has(m) && forall|x: Trace| #[trigger]
                    final(self).eval(m, x) == fails_below(prop.model(), n as int, x),
                Err(x) => x is Eval && !is_condition(prop.model(), old(self).sys().leaves),
            },
    {
        let ghost o = *self;
        let ghost pm = prop.model();
        let mut r = self.disjunction(Vec::new());
        let mut t: usize = 0;
        while t < n
            invariant
                t <= n,
                o == *old(self),
                pm == prop.model(),
                self.wf(),
                self.keeps(&o),
                self.has(r),
                forall|x: Trace| #[trigger] self.eval(r, x) == fails_below(pm, t as int, x),
            decreases n - t,
        {
            let ghost a0 = *self;
            let p = match self.enc_bool(prop, t, t) {
                Ok(n) => n,
                Err(x) => {
                    return Err(x);
                },
            };
            let ghost a1 = *self;
            let np = self.negation(p);
            let ghost a2 = *self;
            let r2 = self.either(r, np);
            proof {
                assert forall|x: Trace| #[trigger] self.eval(r2, x) == fails_below(pm, t + 1, x) by {
                    assert(a1.eval(r, x) == a0.eval(r, x));
                    assert(a2.eval(r, x) == a1.eval(r, x));
                    assert(a1.eval(p, x) == holds_in(pm, x(t as nat)));
                    if fails_below(pm, t as int, x) {
                        let j = choose|j: nat| j < t && !#[trigger] holds_in(pm, x(j));
                        assert(!holds_in(pm, x(j)));
                    }
                }
            }
            r = r2;
            t += 1;
        }
        Ok(r)
    }
}

/// The first question of an induction of depth `k`: the paths of `k` steps from a start on which
/// the property fails somewhere.
pub fn base_query<'m>(flat: &'m FlatModule, prop: &FExpr, k: usize, lemmas: &Vec<FExpr>) -> (r: Result<
    (SmtEnc<'m>, usize),
    EngineError,
>)
    requires
        k < usize::MAX - 1,
    ensures
        match r {
            Ok((e, n)) => {
                &&& e.wf()
                &&& e.flat == flat
                &&& e.has(n)
                &&& forall|x: Trace| #[trigger]
                    e.eval(n, x) == (goes(flat.sys(), true, fe_models(lemmas@), k as nat, x) && fails_within(
                        prop.model(),
                        k as nat,
                        x,
                    ))
            },
            Err(x) => x is Eval && !(flat.sys().well_typed() && is_condition(prop.model(), flat.sys().leaves)
                && all_sort(typeds(fe_models(lemmas@), flat.sys().leaves), Sort::B)),
        },
{
    let mut enc = SmtEnc::new(flat);
    let p = match enc.path(true, k, lemmas) {
        Ok(n) => n,
        Err(x) => {
            return Err(x);
        },
    };
    let ghost e1 = enc;
    let q = match enc.failure(prop, k + 1) {
        Ok(n) => n,
        Err(x) => {
            return Err(x);
        },
    };
    let ghost e2 = enc;
    let r = enc.both(p, q);
    proof {
        assert forall|x: Trace| #[trigger] enc.eval(r, x) == (goes(
            flat.sys(),
            true,
            fe_models(lemmas@),
            k as nat,
            x
        )
            && fails_within(prop.model(), k as nat, x)) by {
            assert(e2.eval(p, x) == e1.eval(p, x));
            if fails_below(prop.model(), k + 1, x) {
                let j = choose|j: nat| j < k + 1 && !#[trigger] holds_in(prop.model(), x(j));
                assert(!holds_in(prop.model(), x(j)));
            }
            if fails_within(prop.model(), k as nat, x) {
                let j = choose|j: nat| j <= k && !#[trigger] holds_in(prop.model(), x(j));
                assert(!holds_in(prop.model(), x(j)));
            }
        }
    }
    Ok((enc, r))
}

/// The second question of an induction of depth `k`: the paths of `k + 1` steps from anywhere on
/// which the property holds everywhere but at the end.
pub fn step_query<'m>(flat: &'m FlatModule, prop: &FExpr, k: usize, lemmas: &Vec<FExpr>) -> (r: Result<
    (SmtEnc<'m>, usize),
    EngineError,
>)
    requires
        k < usize::MAX - 1,
    ensures
        match r {
            Ok((e, n)) => {
                &&& e.wf()
                &&& e.flat == flat
                &&& e.has(n)
                &&& forall|x: Trace| #[trigger]
                    e.eval(n, x) == (goes(
                        flat.sys(),
                        false,
                        fe_models(lemmas@),
                        (k + 1) as nat,
                        x
                    ) && !fails_within(
                        prop.model(),
                        k as nat,
                        x,
                    ) && !holds_in(prop.model(), x((k + 1) as nat)))
            },
            Err(x) => x is Eval && !(flat.sys().well_typed() && is_condition(prop.model(), flat.sys().leaves)
                && all_sort(typeds(fe_models(lemmas@), flat.sys().leaves), Sort::B)),
        },
{
    let mut enc = SmtEnc::new(flat);
    let p = match enc.path(false, k + 1, lemmas) {
        Ok(n) => n,
        Err(x) => {
            return Err(x);
        },
    };
    let ghost e1 = enc;
    let q = match enc.failure(prop, k + 1) {
        Ok(n) => n,
        Err(x) => {
            return Err(x);
        },
    };
    let ghost e2 = enc;
    let last = match enc.enc_bool(prop, k + 1, k + 1) {
        Ok(n) => n,
        Err(x) => {
            return Err(x);
        },
    };
    let ghost e3 = enc;
    let bad = enc.either(q, last);
    let ghost e4 = enc;
    let good = enc.negation(bad);
    let ghost e5 = enc;
    let r = enc.both(p, good);
    proof {
        let pm = prop.model();
        assert forall|x: Trace| #[trigger] enc.eval(r, x) == (goes(
            flat.sys(),
            false,
            fe_models(lemmas@),
            (k + 1) as nat,
            x,
        ) && !fails_within(pm, k as nat, x) && !holds_in(pm, x((k + 1) as nat))) by {
            assert(e2.eval(p, x) == e1.eval(p, x));
            assert(e3.eval(p, x) == e2.eval(p, x));
            assert(e4.eval(p, x) == e3.eval(p, x));
            assert(e5.eval(p, x) == e4.eval(p, x));
            assert(e3.eval(q, x) == e2.eval(q, x));
            assert(e3.eval(last, x) == holds_in(pm, x((k + 1) as nat)));
            assert(e5.eval(good, x) == !e4.eval(bad, x));
            if fails_below(pm, k + 1, x) {
                let j = choose|j: nat| j < k + 1 && !#[trigger] holds_in(pm, x(j));
                assert(!holds_in(pm, x(j)));
            }
            if fails_within(pm, k as nat, x) {
                let j = choose|j: nat| j <= k && !#[trigger] holds_in(pm, x(j));
                assert(!holds_in(pm, x(j)));
            }
        }
    }
    Ok((enc, r))
}

/// The endless sequence of states that goes along the first `k + 1` states and then from the state
/// number `l` round for ever.
pub open spec fn looped(x: Trace, k: nat, l: nat) -> Trace {
    |i: nat| x(folded(k, l, i))
}

/// A path that shows the negation of a formula refutes the formula: with a loop, on the endless
/// sequence round the loop; without, however the path goes on.
pub proof fn shown_refutes(sys: Sys, f: TF, k: nat, x: Trace)
    requires
        nnf(f, true) is Some,
        shows(sys, nnf(f, true)->0, k, x),
    ensures
        (forall|tr: Trace|
            (forall|i: nat| i <= k ==> #[trigger] x(i) == tr(i)) ==> !#[trigger] tf_sat(f, word_of(tr))(0)) || (
        exists|l: nat|
            l <= k && #[trigger] shows_loop(sys, nnf(f, true)->0, k, l, x)
                && !tf_sat(f, word_of(looped(x, k, l)))(0)),
{
    let g = nnf(f, true)->0;
    let w = word_of(x);
    if b_sat(g, w, k, None)(0) {
        assert forall|tr: Trace| (forall|i: nat| i <= k ==> #[trigger] x(i) == tr(i)) implies !#[trigger] tf_sat(
            f,
            word_of(tr),
        )(0) by {
            let v = word_of(tr);
            assert forall|j: nat, e: FE| j <= k implies #[trigger] v(j, e) == w(j, e) by {
                assert(x(j) == tr(j));
            }
            path_meaning(g, w, v, k, 0);
            nnf_meaning(f, true, v, 0);
        }
    } else {
        let l = choose|l: nat| l <= k && #[trigger] shows_loop(sys, g, k, l, x);
        let v = word_of(looped(x, k, l));
        let u = lasso(w, k, l);
        assert forall|i: nat, e: FE| #[trigger] v(i, e) == u(i, e) by {
            if i > k {
                folded_range(k, l, i);
            }
        }
        assert(v =~= u);
        loop_meaning(g, w, k, l, 0);
        nnf_meaning(f, true, v, 0);
        assert(!tf_sat(f, word_of(looped(x, k, l)))(0));
    }
}

/// An induction of depth `k` proves the property: if neither question has a path that answers it,
/// the property holds along every path of at least `k` steps from a start.
pub proof fn induction_proves(sys: Sys, p: FE, lemmas: Seq<FE>, k: nat)
    requires
        forall|x: Trace| #[trigger] goes(sys, true, lemmas, k, x) ==> !fails_within(p, k, x),
        forall|x: Trace| #[trigger]
            goes(sys, false, lemmas, k + 1, x) && !fails_within(p, k, x) ==> holds_in(p, x(k + 1)),
    ensures
        forall|x: Trace, n: nat, i: nat| #[trigger]
            goes(sys, true, lemmas, n, x) && n >= k && i <= n ==> holds_in(p, #[trigger] x(i)),
{
    assert forall|x: Trace, n: nat, i: nat| #[trigger] goes(sys, true, lemmas, n, x) && n >= k
        && i <= n implies holds_in(
        p,
        #[trigger] x(i),
    ) by {
        holds_at(sys, p, lemmas, k, x, n, i);
    }
}

proof fn holds_at(sys: Sys, p: FE, lemmas: Seq<FE>, k: nat, x: Trace, n: nat, i: nat)
    requires
        forall|x: Trace| #[trigger] goes(sys, true, lemmas, k, x) ==> !fails_within(p, k, x),
        forall|x: Trace| #[trigger]
            goes(sys, false, lemmas, k + 1, x) && !fails_within(p, k, x) ==> holds_in(p, x(k + 1)),
        goes(sys, true, lemmas, n, x),
        n >= k,
        i <= n,
    ensures
        holds_in(p, x(i)),
    decreases i,
{
    if i <= k {
        assert(goes(sys, true, lemmas, k, x));
        if !holds_in(p, x(i)) {
            assert(fails_within(p, k, x));
        }
    } else {
        let s = (i - k - 1) as nat;
        let y = |t: nat| x(t + s);
        assert(in_domain(sys.leaves, y(0)) && sys.invariant_at(state_leaves(y(0)))) by {
            if s > 0 {
                assert(hop(sys, x, (s - 1) as nat));
            }
        }
        assert forall|t: nat| t < k + 1 implies #[trigger] hop(sys, y, t) by {
            assert(hop(sys, x, t + s));
            assert(t + s + 1 == (t + 1) + s);
        }
        assert forall|t: nat| t <= k + 1 implies #[trigger] lemmas_at(lemmas, y, t) by {
            assert(lemmas_at(lemmas, x, t + s));
        }
        assert(goes(sys, false, lemmas, k + 1, y));
        assert(!fails_within(p, k, y)) by {
            if fails_within(p, k, y) {
                let t = choose|t: nat| t <= k && !#[trigger] holds_in(p, y(t));
                holds_at(sys, p, lemmas, k, x, n, t + s);
            }
        }
        assert(holds_in(p, y(k + 1)));
        assert(k + 1 + s == i);
    }
}

} // verus!
