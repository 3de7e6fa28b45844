//! Flat transition systems and what they mean.

use crate::ast::VarClass;
use crate::ctype::CType;
use crate::fexpr::{
    all_hold, all_sort, all_true, fe_models, holds, is_condition, leaf_values, sem, sems, typeds, unprimed,
    unprimeds, FExpr, LeafId, LeafInfo, Leaves, Sort, FE, LT,
};
use crate::sval::SVal;
use crate::value::Val;
use std::collections::BTreeSet;
use vstd::prelude::*;

verus! {

/// One guarded command.
#[derive(Debug)]
pub struct FlatCmd {
    /// The label, if the command has one.
    pub label: Option<String>,
    /// Where the command comes from, for printing.
    pub provenance: String,
    /// The guard.
    pub guard: FExpr,
    /// The conjunction of the assignments and, for transitions, of the frame conditions.
    pub constraint: FExpr,
}

/// A transition relation that keeps the shape of the composition.
#[derive(Debug)]
pub enum TransNode {
    /// Every step.
    True,
    /// A choice among guarded commands.
    Cmds(Vec<FlatCmd>),
    /// Steps that all parts allow.
    All(Vec<TransNode>),
    /// A choice among parts, each with the condition that frames the others.
    Interleave(Vec<(TransNode, FExpr)>),
}

/// The leaves that one base module of a composition owns and reads.
#[derive(Debug)]
pub struct Component {
    /// The leaves that the module controls.
    pub owned: BTreeSet<LeafId>,
    /// The leaves of the module's variables: those that it can read.
    pub reads: BTreeSet<LeafId>,
}

/// A guarded command: guard and constraint.
pub ghost struct Cmd {
    pub label: Option<Seq<char>>,
    pub guard: FE,
    pub constraint: FE,
}

/// The text, where there is one.
pub open spec fn opt_text(s: Option<String>) -> Option<Seq<char>> {
    match s {
        Some(s) => Some(s@),
        None => None,
    }
}

/// The mathematical content of a [`TransNode`].
pub ghost enum TN {
    True,
    Cmds(Seq<Cmd>),
    All(Seq<TN>),
    Interleave(Seq<(TN, FE)>),
}

/// The contents of several commands.
pub open spec fn cmd_models(cs: Seq<FlatCmd>) -> Seq<Cmd> {
    Seq::new(cs.len(), |i: int| cs[i].model())
}

impl FlatCmd {
    /// The content of the command.
    pub open spec fn model(&self) -> Cmd {
        Cmd { label: opt_text(self.label), guard: self.guard.model(), constraint: self.constraint.model() }
    }
}

impl Clone for FlatCmd {
    fn clone(&self) -> (r: FlatCmd)
        ensures
            r.model() == self.model(),
            r.label == self.label,
            r.provenance == self.provenance,
    {
        let label = match &self.label {
            Some(s) => Some(s.clone()),
            None => None,
        };
        FlatCmd {
            label,
            provenance: self.provenance.clone(),
            guard: self.guard.clone(),
            constraint: self.constraint.clone(),
        }
    }
}

impl TransNode {
    /// The content of the relation.
    pub open spec fn model(&self) -> TN
        decreases self,
    {
        match self {
            TransNode::True => TN::True,
            TransNode::Cmds(cs) => TN::Cmds(cmd_models(cs@)),
            TransNode::All(ns) => TN::All(tn_models(ns@)),
            TransNode::Interleave(bs) => TN::Interleave(branch_models(bs@)),
        }
    }
}

/// The contents of several relations.
pub open spec fn tn_models(ns: Seq<TransNode>) -> Seq<TN>
    decreases ns,
{
    Seq::new(
        ns.len(),
        |i: int|
            if 0 <= i < ns.len() {
                ns[i].model()
            } else {
                arbitrary()
            },
    )
}

/// The contents of several branches.
pub open spec fn branch_models(bs: Seq<(TransNode, FExpr)>) -> Seq<(TN, FE)>
    decreases bs,
{
    Seq::new(
        bs.len(),
        |i: int|
            if 0 <= i < bs.len() {
                (bs[i].0.model(), bs[i].1.model())
            } else {
                arbitrary()
            },
    )
}

/// The mathematical content of a transition system.
pub ghost struct Sys {
    pub leaves: Seq<LT>,
    pub invariants: Seq<FE>,
    pub init_defs: Seq<FE>,
    pub init_choices: Seq<Seq<Cmd>>,
    pub trans_defs: Seq<FE>,
    pub trans: TN,
}

/// A state: a value for each leaf.
pub type State = Seq<Val>;

/// The leaves' values in a state and its successor.
pub open spec fn step_leaves(s: State, t: State) -> Leaves {
    |l: LeafId, primed: bool|
        {
            let x = if primed {
                t
            } else {
                s
            };
            if (l as int) < x.len() {
                Some(x[l as int])
            } else {
                None
            }
        }
}

/// The leaves' values in one state.
pub open spec fn state_leaves(s: State) -> Leaves {
    step_leaves(s, s)
}

/// Some command can run: its guard and its constraint hold.
pub open spec fn some_cmd(cs: Seq<Cmd>, env: Leaves) -> bool {
    exists|i: int|
        0 <= i < cs.len() && holds(sem((#[trigger] cs[i]).guard, env)) && holds(
            sem(cs[i].constraint, env),
        )
}

/// The relation allows the step.
pub open spec fn allows(n: TN, env: Leaves) -> bool
    decreases n,
{
    match n {
        TN::True => true,
        TN::Cmds(cs) => some_cmd(cs, env),
        TN::All(ns) => every(allowed(ns, env)),
        TN::Interleave(bs) => some(branches_allowed(bs, env)),
    }
}

/// The command can take the step.
pub open spec fn fires(c: Cmd, env: Leaves) -> bool {
    holds(sem(c.guard, env)) && holds(sem(c.constraint, env))
}

/// The label of a command, where it has one, as a list.
pub open spec fn label_list(c: Cmd) -> Seq<Seq<char>> {
    match c.label {
        Some(l) => seq![l],
        None => Seq::empty(),
    }
}

/// A list is two others, one after the other.
pub open spec fn splits(ls: Seq<Seq<char>>, a: Seq<Seq<char>>, b: Seq<Seq<char>>) -> bool {
    ls == a + b
}

/// The number of a part.
pub open spec fn is_part(i: int) -> bool {
    true
}

/// Command `i` can take the step, and this is its label.
pub open spec fn takes_cmd(cs: Seq<Cmd>, i: int, env: Leaves, ls: Seq<Seq<char>>) -> bool {
    0 <= i < cs.len() && fires(cs[i], env) && ls == label_list(cs[i])
}

/// The step can be taken by commands with these labels: one command of a choice, one of each part of a synchronous
/// composition, and those of one part of an asynchronous one.
pub open spec fn takes(n: TN, env: Leaves, ls: Seq<Seq<char>>) -> bool
    decreases n, 0nat,
{
    match n {
        TN::True => ls.len() == 0,
        TN::Cmds(cs) => exists|i: int| #[trigger] is_part(i) && takes_cmd(cs, i, env, ls),
        TN::All(ns) => takes_all(ns, ns.len(), env, ls),
        TN::Interleave(bs) => exists|i: int| #[trigger] is_part(i) && takes_branch(bs, i, env, ls),
    }
}

/// The first `k` parts can take the step together.
pub open spec fn takes_all(ns: Seq<TN>, k: nat, env: Leaves, ls: Seq<Seq<char>>) -> bool
    decreases ns, k,
{
    if k == 0 || k > ns.len() {
        ls.len() == 0
    } else {
        exists|a: Seq<Seq<char>>, b: Seq<Seq<char>>|
            #[trigger] splits(ls, a, b) && takes_all(ns, (k - 1) as nat, env, a) && takes(ns[k - 1], env, b)
    }
}

/// Part `i` can take the step while the others keep still.
pub open spec fn takes_branch(bs: Seq<(TN, FE)>, i: int, env: Leaves, ls: Seq<Seq<char>>) -> bool
    decreases bs, 0nat,
{
    if 0 <= i < bs.len() {
        takes(bs[i].0, env, ls) && holds(sem(bs[i].1, env))
    } else {
        false
    }
}

/// Which of the relations allow the step.
pub open spec fn allowed(ns: Seq<TN>, env: Leaves) -> Seq<bool>
    decreases ns,
{
    Seq::new(
        ns.len(),
        |i: int|
            if 0 <= i < ns.len() {
                allows(ns[i], env)
            } else {
                arbitrary()
            },
    )
}

/// Which of the branches allow the step.
pub open spec fn branches_allowed(bs: Seq<(TN, FE)>, env: Leaves) -> Seq<bool>
    decreases bs,
{
    Seq::new(
        bs.len(),
        |i: int|
            if 0 <= i < bs.len() {
                allows(bs[i].0, env) && holds(sem(bs[i].1, env))
            } else {
                arbitrary()
            },
    )
}

/// All are true.
pub open spec fn every(bs: Seq<bool>) -> bool {
    forall|i: int| 0 <= i < bs.len() ==> #[trigger] bs[i]
}

/// One is true.
pub open spec fn some(bs: Seq<bool>) -> bool {
    exists|i: int| 0 <= i < bs.len() && #[trigger] bs[i]
}

impl Sys {
    /// Each leaf has a value of its type.
    pub open spec fn is_state(self, s: State) -> bool {
        &&& s.len() == self.leaves.len()
        &&& forall|l: int|
            0 <= l < s.len() ==> leaf_values(self.leaves[l]) is Some && leaf_values(
                self.leaves[l],
            )->0.contains(#[trigger] s[l])
    }

    /// The invariants hold.
    pub open spec fn invariant_at(self, env: Leaves) -> bool {
        all_hold(sems(self.invariants, env))
    }

    /// The initialization constraints hold.
    pub open spec fn init_at(self, env: Leaves) -> bool {
        &&& all_hold(sems(self.init_defs, env))
        &&& forall|i: int|
            0 <= i < self.init_choices.len() ==> some_cmd(#[trigger] self.init_choices[i], env)
    }

    /// The transition constraints hold.
    pub open spec fn trans_at(self, env: Leaves) -> bool {
        &&& all_hold(sems(self.trans_defs, env))
        &&& allows(self.trans, env)
    }

    /// The state is initial.
    pub open spec fn initial(self, s: State) -> bool {
        &&& self.is_state(s)
        &&& self.invariant_at(state_leaves(s))
        &&& self.init_at(state_leaves(s))
    }

    /// The system can go from `s` to `t`.
    pub open spec fn step(self, s: State, t: State) -> bool {
        &&& self.is_state(s)
        &&& self.is_state(t)
        &&& self.invariant_at(state_leaves(s))
        &&& self.invariant_at(state_leaves(t))
        &&& self.trans_at(step_leaves(s, t))
    }

    /// No step leaves the state.
    pub open spec fn stuck(self, s: State) -> bool {
        forall|t: State| !#[trigger] self.step(s, t)
    }

    /// Each state of the sequence leads to the next.
    pub open spec fn chain(self, p: Seq<State>) -> bool {
        forall|i: int| 0 <= i < p.len() - 1 ==> self.step(#[trigger] p[i], p[i + 1])
    }

    /// The sequence is a run: it starts in an initial state, and each state leads to the next.
    pub open spec fn run(self, p: Seq<State>) -> bool {
        &&& p.len() > 0
        &&& self.initial(p[0])
        &&& self.chain(p)
    }

    /// Some run ends in the state.
    pub open spec fn reachable(self, s: State) -> bool {
        exists|p: Seq<State>| #[trigger] self.run(p) && p.last() == s
    }
}

/// An expression holds in a state.
pub open spec fn holds_in(e: FE, s: State) -> bool {
    holds(sem(e, state_leaves(s)))
}

/// A state variable of a flat transition system.
pub struct TopVar {
    /// The name.
    pub name: String,
    /// The class.
    pub class: VarClass,
    /// The type.
    pub ctype: CType,
    /// The value, over the leaves.
    pub skel: SVal,
}

/// A flat transition system.
pub struct FlatModule {
    /// The leaf variables.
    pub leaves: Vec<LeafInfo>,
    /// The state variables.
    pub vars: Vec<TopVar>,
    /// Definitions and subtype constraints: they hold in every state.
    pub invariants: Vec<FExpr>,
    /// Initialization definitions.
    pub init_defs: Vec<FExpr>,
    /// Initialization choices: of each block one command runs.
    pub init_choices: Vec<Vec<FlatCmd>>,
    /// Transition definitions: they hold in every step.
    pub trans_defs: Vec<FExpr>,
    /// The transition relation.
    pub trans: TransNode,
    /// The leaves that the module controls.
    pub controlled: BTreeSet<LeafId>,
    /// The base modules of the composition.
    pub components: Vec<Component>,
}

/// The types of leaves.
pub open spec fn leaf_types(ls: Seq<LeafInfo>) -> Seq<LT> {
    Seq::new(ls.len(), |i: int| ls[i].ty@)
}

/// The leaf is the first with infinitely many values.
pub open spec fn endless_at(ls: Seq<LeafInfo>, l: int) -> bool {
    &&& 0 <= l < ls.len()
    &&& leaf_values(ls[l].ty@) is None
    &&& forall|j: int| 0 <= j < l ==> leaf_values((#[trigger] ls[j]).ty@) is Some
}

/// The contents of blocks of commands.
pub open spec fn block_models(bs: Seq<Vec<FlatCmd>>) -> Seq<Seq<Cmd>> {
    Seq::new(bs.len(), |i: int| cmd_models(bs[i]@))
}

impl FlatModule {
    /// The content of the transition system.
    pub open spec fn sys(&self) -> Sys {
        Sys {
            leaves: leaf_types(self.leaves@),
            invariants: fe_models(self.invariants@),
            init_defs: fe_models(self.init_defs@),
            init_choices: block_models(self.init_choices@),
            trans_defs: fe_models(self.trans_defs@),
            trans: self.trans.model(),
        }
    }
}

/// Whether an expression speaks of the current state only.
pub fn is_unprimed(e: &FExpr) -> (r: bool)
    ensures
        r == unprimed(e.model()),
    decreases e, 1nat,
{
    match e {
        FExpr::Const(_v) => true,
        FExpr::Var(_l, p) => !*p,
        FExpr::Not(a) => is_unprimed(a),
        FExpr::Neg(a) => is_unprimed(a),
        FExpr::And(es) => are_unprimed(es),
        FExpr::Or(es) => are_unprimed(es),
        FExpr::Add(es) => are_unprimed(es),
        FExpr::Mul(es) => are_unprimed(es),
        FExpr::Ite(c, t, f) => is_unprimed(c) && is_unprimed(t) && is_unprimed(f),
        FExpr::Eq(a, b) => is_unprimed(a) && is_unprimed(b),
        FExpr::Lt(a, b) => is_unprimed(a) && is_unprimed(b),
        FExpr::Le(a, b) => is_unprimed(a) && is_unprimed(b),
        FExpr::Div(a, b) => is_unprimed(a) && is_unprimed(b),
        FExpr::IDiv(a, b) => is_unprimed(a) && is_unprimed(b),
        FExpr::Mod(a, b) => is_unprimed(a) && is_unprimed(b),
    }
}

fn are_unprimed(es: &Vec<FExpr>) -> (r: bool)
    ensures
        r == all_true(unprimeds(fe_models(es@))),
    decreases es, 0nat,
{
    let ghost us = unprimeds(fe_models(es@));
    let mut i: usize = 0;
    while i < es.len()
        invariant
            i <= es@.len(),
            us == unprimeds(fe_models(es@)),
            forall|k: int| 0 <= k < i ==> #[trigger] us[k],
        decreases es.len() - i,
    {
        assert(us[i as int] == unprimed(es@[i as int].model()));
        if !is_unprimed(&es[i]) {
            return false;
        }
        i += 1;
    }
    true
}

fn are_cmds_unprimed(cs: &Vec<FlatCmd>) -> (r: bool)
    ensures
        r == cmds_unprimed(cmd_models(cs@)),
{
    let ghost ms = cmd_models(cs@);
    let mut i: usize = 0;
    while i < cs.len()
        invariant
            i <= cs@.len(),
            ms == cmd_models(cs@),
            forall|k: int| 0 <= k < i ==> unprimed((#[trigger] ms[k]).guard) && unprimed(ms[k].constraint),
        decreases cs.len() - i,
    {
        assert(ms[i as int] == cs@[i as int].model());
        if !is_unprimed(&cs[i].guard) || !is_unprimed(&cs[i].constraint) {
            return false;
        }
        i += 1;
    }
    true
}

impl FlatModule {
    /// Whether what has to hold of one state speaks of the current state only.
    pub fn is_plain(&self) -> (r: bool)
        ensures
            r == self.sys().plain(),
    {
        if !are_unprimed(&self.invariants) || !are_unprimed(&self.init_defs) {
            return false;
        }
        let ghost bs = self.sys().init_choices;
        let mut i: usize = 0;
        while i < self.init_choices.len()
            invariant
                i <= self.init_choices@.len(),
                bs == block_models(self.init_choices@),
                bs == self.sys().init_choices,
                forall|k: int| 0 <= k < i ==> cmds_unprimed(#[trigger] bs[k]),
            decreases self.init_choices.len() - i,
        {
            assert(bs[i as int] == cmd_models(self.init_choices@[i as int]@));
            if !are_cmds_unprimed(&self.init_choices[i]) {
                return false;
            }
            i += 1;
        }
        true
    }
}

/// The guards and constraints speak of the current state only.
pub open spec fn cmds_unprimed(cs: Seq<Cmd>) -> bool {
    forall|i: int|
        0 <= i < cs.len() ==> unprimed((#[trigger] cs[i]).guard) && unprimed(cs[i].constraint)
}

/// The guards and constraints are well-typed conditions.
pub open spec fn cmds_typed(cs: Seq<Cmd>, leaves: Seq<LT>) -> bool {
    forall|i: int|
        0 <= i < cs.len() ==> is_condition((#[trigger] cs[i]).guard, leaves) && is_condition(
            cs[i].constraint,
            leaves,
        )
}

/// All conditions of the relation are well-typed.
pub open spec fn tn_typed(n: TN, leaves: Seq<LT>) -> bool
    decreases n,
{
    match n {
        TN::True => true,
        TN::Cmds(cs) => cmds_typed(cs, leaves),
        TN::All(ns) => every(tns_typed(ns, leaves)),
        TN::Interleave(bs) => every(branches_typed(bs, leaves)),
    }
}

/// Which of the relations are well-typed.
pub open spec fn tns_typed(ns: Seq<TN>, leaves: Seq<LT>) -> Seq<bool>
    decreases ns,
{
    Seq::new(
        ns.len(),
        |i: int|
            if 0 <= i < ns.len() {
                tn_typed(ns[i], leaves)
            } else {
                arbitrary()
            },
    )
}

/// Which of the branches are well-typed.
pub open spec fn branches_typed(bs: Seq<(TN, FE)>, leaves: Seq<LT>) -> Seq<bool>
    decreases bs,
{
    Seq::new(
        bs.len(),
        |i: int|
            if 0 <= i < bs.len() {
                tn_typed(bs[i].0, leaves) && is_condition(bs[i].1, leaves)
            } else {
                arbitrary()
            },
    )
}

impl Sys {
    /// What has to hold of one state speaks of the current state only.
    pub open spec fn plain(self) -> bool {
        &&& all_true(unprimeds(self.invariants))
        &&& all_true(unprimeds(self.init_defs))
        &&& forall|i: int|
            0 <= i < self.init_choices.len() ==> cmds_unprimed(#[trigger] self.init_choices[i])
    }

    /// All conditions are well-typed.
    pub open spec fn well_typed(self) -> bool {
        &&& all_sort(typeds(self.invariants, self.leaves), Sort::B)
        &&& all_sort(typeds(self.init_defs, self.leaves), Sort::B)
        &&& forall|i: int|
            0 <= i < self.init_choices.len() ==> cmds_typed(
                #[trigger] self.init_choices[i],
                self.leaves,
            )
        &&& all_sort(typeds(self.trans_defs, self.leaves), Sort::B)
        &&& tn_typed(self.trans, self.leaves)
    }
}

} // verus!
