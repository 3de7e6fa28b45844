//! Bounded model checking: the runs of a bounded length, as a propositional formula.

use crate::bounded::{alg_word, b_sat, lasso, loop_meaning, path_meaning, BoolAlg, BoundedLtl};
use crate::cnf::{clauses_true, ff, flip, lit_true, tt, Bits, Cnf, Input, Lit, Model};
use crate::explicit::EngineError;
use crate::fexpr::{
    all_hold, all_sort, fe_models, holds, is_condition, leaf_values, sem, sems, typeds, FExpr, LeafId, Leaves, Sort,
    FE, LT,
};
use crate::flat::{
    allowed, allows, branch_models, branches_allowed, branches_typed, cmd_models, cmds_typed, endless_at, every,
    holds_in, leaf_types, some, some_cmd, state_leaves, step_leaves, tn_models, tn_typed, tns_typed, FlatCmd,
    FlatModule, State, Sys, TransNode, TN,
};
use crate::formula::{TFormula, TF};
use crate::ltl::{nn_atoms, nnf, nnf_meaning, tf_sat, to_nnf, Ltl, Word, NN};
use crate::reach::p2;
use crate::sat::{as_model, solve};
use crate::symbolic::{bits_for, states_of, word_of};
use crate::temporal::Trace;
use crate::text::own;
use crate::unroll::{
    code, enc_bool, enc_junction, encodes, leaf_eq_index, leaf_ok, leaf_out, leaves_at, leaves_ok, Frame, LeafBits,
    Steps,
};
use crate::value::{models, Val, Value};
use vstd::prelude::*;

verus! {

/// Every leaf has a value at the step.
pub open spec fn dom_at(es: Seq<LeafBits>, t: usize, b: Bits) -> bool {
    forall|l: int| 0 <= l < es.len() ==> leaf_out(#[trigger] es[l], l as u32, t, b) is Some
}

/// The state at a step.
pub open spec fn state_at(es: Seq<LeafBits>, t: usize, b: Bits) -> State {
    Seq::new(es.len(), |l: int| leaf_out(es[l], l as u32, t, b)->0)
}

/// The leaves at two steps are those of the states there.
proof fn frame_leaves(f: Frame, b: Bits)
    requires
        dom_at(f.es, f.cur, b),
        dom_at(f.es, f.next, b),
    ensures
        leaves_at(f, b) == step_leaves(state_at(f.es, f.cur, b), state_at(f.es, f.next, b)),
{
    let x = leaves_at(f, b);
    let y = step_leaves(state_at(f.es, f.cur, b), state_at(f.es, f.next, b));
    assert forall|l: LeafId, p: bool| #[trigger] x(l, p) == y(l, p) by {
        if (l as int) < f.es.len() {
            assert(leaf_out(f.es[l as int], l, f.cur, b) is Some);
            assert(leaf_out(f.es[l as int], l, f.next, b) is Some);
        }
    }
    assert(x =~= y);
}

/// The state at a step is one of the system.
proof fn state_ok(es: Seq<LeafBits>, sys: Sys, t: usize, b: Bits)
    requires
        encodes(Frame { es, cur: t, next: t }, sys.leaves),
        dom_at(es, t, b),
    ensures
        sys.is_state(state_at(es, t, b)),
{
    let s = state_at(es, t, b);
    assert forall|l: int| 0 <= l < s.len() implies leaf_values(sys.leaves[l]) is Some && leaf_values(
        sys.leaves[l],
    )->0.contains(#[trigger] s[l]) by {
        let e = es[l];
        assert(leaf_out(e, l as u32, t, b) is Some);
        let c = code(b, l as u32, 0, t, e.bits as nat) as int;
        assert(leaf_values(sys.leaves[l]) == Some(models(e.values@)));
        assert(models(e.values@).len() == e.values@.len());
        assert(models(e.values@)[c] == s[l]);
    }
}

proof fn code_bound(b: Bits, l: u32, k: u32, t: usize, n: nat)
    ensures
        code(b, l, k, t, n) < p2(n),
    decreases n,
{
    if n > 0 {
        code_bound(b, l, (k + 1) as u32, t, (n - 1) as nat);
    }
}

/// The bit number `b` of `i`.
spec fn bit(i: nat, b: nat) -> bool
    decreases b,
{
    if b == 0 {
        i % 2 == 1
    } else {
        bit(i / 2, (b - 1) as nat)
    }
}

proof fn code_of_bits(b: Bits, l: u32, k: u32, t: usize, n: nat, i: nat)
    requires
        k + n <= 64,
        i < p2(n),
        forall|j: u32| k <= j < k + n ==> b(Input::Bit(l, j, t)) == #[trigger] bit(i, (j - k) as nat),
    ensures
        code(b, l, k, t, n) == i,
    decreases n,
{
    if n > 0 {
        assert(b(Input::Bit(l, k, t)) == bit(i, (k - k) as nat));
        let k2 = (k + 1) as u32;
        assert forall|j: u32| k2 <= j < k2 + (n - 1) implies b(Input::Bit(l, j, t)) == #[trigger] bit(
            i / 2,
            (j - k2) as nat,
        ) by {
            assert(b(Input::Bit(l, j, t)) == bit(i, (j - k) as nat));
        }
        code_of_bits(b, l, k2, t, (n - 1) as nat, i / 2);
    }
}

spec fn value_index(e: LeafBits, v: Val) -> int {
    choose|i: int| 0 <= i < e.values@.len() && (#[trigger] e.values@[i]).model() == v
}

/// Inputs that encode a sequence of states.
spec fn bits_of(es: Seq<LeafBits>, p: spec_fn(usize) -> State) -> Bits {
    |i: Input|
        match i {
            Input::Bit(l, k, t) => (l as int) < es.len() && bit(
                value_index(es[l as int], p(t)[l as int]) as nat,
                k as nat,
            ),
            Input::Free(_) => false,
        }
}

proof fn states_encoded(es: Seq<LeafBits>, sys: Sys, p: spec_fn(usize) -> State, t: usize)
    requires
        es.len() <= u32::MAX,
        leaves_ok(Frame { es, cur: t, next: t }),
        encodes(Frame { es, cur: t, next: t }, sys.leaves),
        sys.is_state(p(t)),
    ensures
        dom_at(es, t, bits_of(es, p)),
        state_at(es, t, bits_of(es, p)) == p(t),
{
    let b = bits_of(es, p);
    let s = p(t);
    assert forall|l: int| 0 <= l < es.len() implies leaf_out(
        #[trigger] es[l],
        l as u32,
        t,
        b
    ) == Some(s[l]) by {
        let e = es[l];
        assert(leaf_ok(Frame { es, cur: t, next: t }.es[l]));
        assert(leaf_values(sys.leaves[l]) == Some(models(e.values@)));
        assert(models(e.values@).contains(s[l]));
        let j = choose|j: int| 0 <= j < models(e.values@).len() && models(e.values@)[j] == s[l];
        assert(e.values@[j].model() == s[l]);
        let i = value_index(e, s[l]);
        assert(0 <= i < e.values@.len() && e.values@[i].model() == s[l]);
        assert forall|k: u32| 0 <= k < 0 + e.bits implies b(Input::Bit(l as u32, k, t)) == #[trigger] bit(
            i as nat,
            (k - 0) as nat,
        ) by {}
        code_of_bits(b, l as u32, 0, t, e.bits as nat, i as nat);
    }
    assert(state_at(es, t, b) =~= s);
}

proof fn code_same(b: Bits, l: u32, k: u32, s: usize, t: usize, n: nat)
    requires
        k + n <= 64,
        forall|j: u32| k <= j < k + n ==> #[trigger] b(Input::Bit(l, j, s)) == b(Input::Bit(l, j, t)),
    ensures
        code(b, l, k, s, n) == code(b, l, k, t, n),
    decreases n,
{
    if n > 0 {
        assert(b(Input::Bit(l, k, s)) == b(Input::Bit(l, k, t)));
        code_same(b, l, (k + 1) as u32, s, t, (n - 1) as nat);
    }
}

/// The bits of two steps are the same.
spec fn same_bits(es: Seq<LeafBits>, s: usize, t: usize, b: Bits) -> bool {
    forall|l: u32, k: u32|
        (l as int) < es.len() && k < es[l as int].bits ==> #[trigger] b(Input::Bit(l, k, s)) == b(
            Input::Bit(l, k, t),
        )
}

proof fn same_state(es: Seq<LeafBits>, s: usize, t: usize, b: Bits)
    requires
        es.len() <= u32::MAX,
        leaves_ok(Frame { es, cur: s, next: t }),
        same_bits(es, s, t, b),
    ensures
        dom_at(es, s, b) == dom_at(es, t, b),
        state_at(es, s, b) == state_at(es, t, b),
{
    assert forall|l: int| 0 <= l < es.len() implies #[trigger] leaf_out(es[l], l as u32, s, b) == leaf_out(
        es[l],
        l as u32,
        t,
        b,
    ) by {
        assert(leaf_ok(Frame { es, cur: s, next: t }.es[l]));
        assert forall|j: u32| 0 <= j < 0 + es[l].bits implies #[trigger] b(Input::Bit(l as u32, j, s)) == b(
            Input::Bit(l as u32, j, t),
        ) by {}
        code_same(b, l as u32, 0, s, t, es[l].bits as nat);
    }
    assert(state_at(es, s, b) =~= state_at(es, t, b));
    if dom_at(es, s, b) {
        assert forall|l: int| 0 <= l < es.len() implies leaf_out(#[trigger] es[l], l as u32, t, b) is Some by {
            assert(leaf_out(es[l], l as u32, s, b) is Some);
        }
    }
    if dom_at(es, t, b) {
        assert forall|l: int| 0 <= l < es.len() implies leaf_out(#[trigger] es[l], l as u32, s, b) is Some by {
            assert(leaf_out(es[l], l as u32, t, b) is Some);
        }
    }
}

/// Whether all codes of the bits are taken.
fn is_full(len: usize, bits: u32) -> (r: bool)
    ensures
        r ==> len == p2(bits as nat),
{
    let mut p: usize = 1;
    let mut i: u32 = 0;
    while i < bits
        invariant
            i <= bits,
            p == p2(i as nat),
        decreases bits - i,
    {
        if p > len / 2 {
            return false;
        }
        p = p * 2;
        i += 1;
    }
    p == len
}

/// The encoding of the runs of a system.
pub struct BmcEnc<'m> {
    pub flat: &'m FlatModule,
    pub cnf: Cnf,
    pub leaves: Vec<LeafBits>,
}

/// The system cannot be encoded.
pub open spec fn enc_error(flat: &FlatModule, x: EngineError) -> bool {
    match x {
        EngineError::InfiniteType(n) => flat.leaves@.len() <= u32::MAX && exists|l: int| #[trigger]
            endless_at(flat.leaves@, l) && flat.leaves@[l].name@ == n@,
        EngineError::TooLarge(_) => flat.leaves@.len() > u32::MAX,
        EngineError::Eval(_) => false,
    }
}

impl<'m> BmcEnc<'m> {
    /// The system.
    pub open spec fn sys(&self) -> Sys {
        self.flat.sys()
    }

    /// The leaves.
    pub open spec fn es(&self) -> Seq<LeafBits> {
        self.leaves@
    }

    /// The leaves with two steps.
    pub open spec fn frame(&self, cur: usize, next: usize) -> Frame {
        Frame { es: self.es(), cur, next }
    }

    /// The encoding is in order.
    pub open spec fn wf(&self) -> bool {
        &&& self.cnf.wf()
        &&& self.es().len() <= u32::MAX
        &&& leaves_ok(self.frame(0, 0))
        &&& encodes(self.frame(0, 0), self.sys().leaves)
    }

    /// The same system, and the literals keep their meaning.
    pub open spec fn keeps(&self, o: &BmcEnc<'m>) -> bool {
        &&& self.flat == o.flat
        &&& self.es() == o.es()
        &&& self.cnf.keeps(&o.cnf)
    }

    proof fn keeps_trans(&self, b: &BmcEnc<'m>, a: &BmcEnc<'m>)
        requires
            self.keeps(b),
            b.keeps(a),
        ensures
            self.keeps(a),
    {
        assert forall|v: int| 0 <= v < a.cnf.count() implies #[trigger] self.cnf.meanings()[v]
            == a.cnf.meanings()[v] by {
            assert(b.cnf.meanings()[v] == a.cnf.meanings()[v]);
        }
        assert forall|l: Lit, x: Bits| a.cnf.valid(l) implies #[trigger] self.cnf.eval(l, x) == a.cnf.eval(l, x) by {
            assert(b.cnf.eval(l, x) == a.cnf.eval(l, x));
        }
    }

    proof fn frames_ok(&self, cur: usize, next: usize)
        requires
            self.wf(),
        ensures
            leaves_ok(self.frame(cur, next)),
            encodes(self.frame(cur, next), self.sys().leaves),
    {
        let f = self.frame(cur, next);
        let g = self.frame(0, 0);
        assert forall|l: int| 0 <= l < f.es.len() implies leaf_ok(#[trigger] f.es[l]) by {
            assert(leaf_ok(g.es[l]));
        }
    }

    /// An encoding without constraints.
    pub fn new(flat: &'m FlatModule) -> (r: Result<BmcEnc<'m>, EngineError>)
        ensures
            match r {
                Ok(e) => e.wf() && e.flat == flat && flat.leaves@.len() <= u32::MAX && forall|l: int| !#[trigger]
                    endless_at(flat.leaves@, l),
                Err(x) => enc_error(flat, x),
            },
    {
        let ghost ts = flat.sys().leaves;
        if flat.leaves.len() > 0xffff_ffff {
            return Err(EngineError::TooLarge(own("too many state variables")));
        }
        let mut leaves: Vec<LeafBits> = Vec::new();
        let mut i: usize = 0;
        while i < flat.leaves.len()
            invariant
                i <= flat.leaves@.len() <= u32::MAX,
                leaves@.len() == i,
                ts == leaf_types(flat.leaves@),
                ts == flat.sys().leaves,
                forall|l: int| 0 <= l < i ==> leaf_ok(#[trigger] leaves@[l]),
                forall|l: int|
                    0 <= l < i ==> leaf_values(#[trigger] ts[l]) == Some(models(leaves@[l].values@))
                        && leaves@[l].is_bool == (ts[l] is Bool),
            decreases flat.leaves.len() - i,
        {
            proof {
                assert(ts[i as int] == flat.leaves@[i as int].ty@);
            }
            let is_bool: bool = match &flat.leaves[i].ty {
                crate::fexpr::LeafType::Bool => true,
                _ => false,
            };
            match flat.leaves[i].ty.values() {
                None => {
                    assert(endless_at(flat.leaves@, i as int)) by {
                        assert forall|j: int| 0 <= j < i implies leaf_values((#[trigger] flat.leaves@[j]).ty@) is Some by {
                            assert(ts[j] == flat.leaves@[j].ty@);
                        }
                    }
                    return Err(EngineError::InfiniteType(flat.leaves[i].name.clone()));
                },
                Some(values) => {
                    let bits: u32 = bits_for(values.len());
                    proof {
                        assert(models(values@).len() == values@.len());
                        if is_bool {
                            assert(models(values@) =~= seq![Val::Bool(false), Val::Bool(true)]);
                            assert(values@.len() == 2);
                        }
                    }
                    leaves.push(LeafBits { bits, is_bool, values });
                },
            }
            i += 1;
        }
        let r = BmcEnc { flat, cnf: Cnf::new(), leaves };
        assert forall|l: int| !#[trigger] endless_at(flat.leaves@, l) by {
            if endless_at(flat.leaves@, l) {
                assert(ts[l] == flat.leaves@[l].ty@);
            }
        }
        Ok(r)
    }

    /// A literal for: every leaf has a value at the step.
    pub fn domain(&mut self, t: usize) -> (r: Lit)
        requires
            old(self).wf(),
        ensures
            final(self).wf(),
            final(self).keeps(old(self)),
            final(self).cnf.valid(r),
            forall|b: Bits| #[trigger] final(self).cnf.eval(r, b) == dom_at(old(self).es(), t, b),
    {
        let ghost o = *self;
        proof {
            self.cnf.constants_meaning();
        }
        let mut r = tt();
        let mut l: usize = 0;
        while l < self.leaves.len()
            invariant
                l <= self.leaves@.len(),
                o.wf(),
                self.wf(),
                self.keeps(&o),
                self.leaves == o.leaves,
                self.cnf.valid(r),
                forall|b: Bits| #[trigger] self.cnf.eval(r, b) == dom_below(o.leaves@, l as int, t, b),
            decreases self.leaves.len() - l,
        {
            let ghost s0 = *self;
            let ghost e = o.leaves@[l as int];
            proof {
                assert(leaf_ok(self.frame(0, 0).es[l as int]));
                self.frames_ok(t, t);
            }
            if is_full(self.leaves[l].values.len(), self.leaves[l].bits) {
                proof {
                    assert forall|b: Bits| #[trigger] self.cnf.eval(r, b) == dom_below(o.leaves@, l + 1, t, b) by {
                        code_bound(b, l as u32, 0, t, e.bits as nat);
                        dom_next(o.leaves@, l as int, t, b);
                    }
                }
            } else {
                let c = leaf_alternatives(&mut self.cnf, &self.leaves[l], l as u32, t);
                let ghost s1 = *self;
                let r2 = self.cnf.and(r, c);
                proof {
                    self.keeps_trans(&s1, &s0);
                    self.keeps_trans(&s0, &o);
                    assert forall|b: Bits| #[trigger] self.cnf.eval(r2, b) == dom_below(o.leaves@, l + 1, t, b) by {
                        assert(s1.cnf.eval(r, b) == s0.cnf.eval(r, b));
                        assert(s1.cnf.eval(c, b) == (leaf_out(e, l as u32, t, b) is Some));
                        dom_next(o.leaves@, l as int, t, b);
                    }
                }
                r = r2;
            }
            l += 1;
        }
        r
    }
}

/// The first leaves have a value at the step.
spec fn dom_below(es: Seq<LeafBits>, n: int, t: usize, b: Bits) -> bool {
    forall|l: int| 0 <= l < n ==> leaf_out(#[trigger] es[l], l as u32, t, b) is Some
}

proof fn dom_next(es: Seq<LeafBits>, n: int, t: usize, b: Bits)
    requires
        0 <= n < es.len(),
    ensures
        dom_below(es, n + 1, t, b) == (dom_below(es, n, t, b) && leaf_out(es[n], n as u32, t, b) is Some),
{
    if dom_below(es, n + 1, t, b) {
        assert(leaf_out(es[n], n as u32, t, b) is Some);
    }
}

/// A literal for: the leaf has one of its values.
fn leaf_alternatives(cnf: &mut Cnf, e: &LeafBits, l: u32, t: usize) -> (r: Lit)
    requires
        old(cnf).wf(),
        leaf_ok(*e),
    ensures
        final(cnf).wf(),
        final(cnf).keeps(old(cnf)),
        final(cnf).valid(r),
        forall|b: Bits| #[trigger] final(cnf).eval(r, b) == (leaf_out(*e, l, t, b) is Some),
{
    let ghost o = *cnf;
    let mut alts: Vec<Lit> = Vec::new();
    let mut i: usize = 0;
    while i < e.values.len()
        invariant
            i <= e.values@.len(),
            alts@.len() == i,
            leaf_ok(*e),
            cnf.wf(),
            cnf.keeps(&o),
            forall|k: int| 0 <= k < i ==> cnf.valid(#[trigger] alts@[k]),
            forall|k: int, b: Bits|
                0 <= k < i ==> #[trigger] cnf.eval(alts@[k], b) == (code(b, l, 0, t, e.bits as nat) == k),
        decreases e.values.len() - i,
    {
        let ghost m0 = *cnf;
        let ghost a0 = alts@;
        let c = leaf_eq_index(cnf, e, l, t, i);
        alts.push(c);
        proof {
            assert forall|k: int| 0 <= k < i + 1 implies cnf.valid(#[trigger] alts@[k]) by {
                if k < i {
                    assert(m0.valid(a0[k]));
                }
            }
            assert forall|k: int, b: Bits| 0 <= k < i + 1 implies #[trigger] cnf.eval(alts@[k], b) == (code(
                b,
                l,
                0,
                t,
                e.bits as nat,
            ) == k) by {
                if k < i {
                    assert(m0.valid(a0[k]));
                    assert(m0.eval(a0[k], b) == (code(b, l, 0, t, e.bits as nat) == k));
                }
            }
        }
        i += 1;
    }
    let ghost m1 = *cnf;
    let ghost v = alts@;
    let r = cnf.or_lits(alts);
    proof {
        assert forall|b: Bits| #[trigger] cnf.eval(r, b) == (leaf_out(*e, l, t, b) is Some) by {
            let c = code(b, l, 0, t, e.bits as nat);
            assert(cnf.eval(r, b) == m1.some_true(v, b));
            if (c as int) < e.values@.len() {
                assert(m1.eval(v[c as int], b));
            }
        }
    }
    r
}

/// The condition of one command: guard and constraint.
fn enc_cmd(cnf: &mut Cnf, les: &Steps, c: &FlatCmd, Ghost(ts): Ghost<Seq<LT>>) -> (r: Result<
    Lit,
    EngineError,
>)
    requires
        old(cnf).wf(),
        leaves_ok(les@),
        encodes(les@, ts),
    ensures
        final(cnf).wf(),
        final(cnf).keeps(old(cnf)),
        match r {
            Ok(n) => final(cnf).valid(n) && forall|a: Bits| #[trigger]
                final(cnf).eval(n, a) == (holds(sem(c.model().guard, leaves_at(les@, a))) && holds(
                    sem(c.model().constraint, leaves_at(les@, a)),
                )),
            Err(x) => x is Eval && !(is_condition(c.model().guard, ts) && is_condition(
                c.model().constraint,
                ts,
            )),
        },
{
    let g = match enc_bool(cnf, les, &c.guard, Ghost(ts)) {
        Ok(n) => n,
        Err(x) => {
            return Err(x);
        },
    };
    let ghost m1 = *cnf;
    let k = match enc_bool(cnf, les, &c.constraint, Ghost(ts)) {
        Ok(n) => n,
        Err(x) => {
            return Err(x);
        },
    };
    let ghost m2 = *cnf;
    let r = cnf.and(g, k);
    assert forall|a: Bits| #[trigger] cnf.eval(r, a) == (holds(
        sem(c.model().guard, leaves_at(les@, a)),
    ) && holds(sem(c.model().constraint, leaves_at(les@, a)))) by {
        assert(m2.eval(g, a) == m1.eval(g, a));
    }
    Ok(r)
}

/// Where one of the commands can run.
fn enc_cmds(
    cnf: &mut Cnf,
    les: &Steps,
    cs: &Vec<FlatCmd>,
    Ghost(ts): Ghost<Seq<LT>>,
) -> (r: Result<Lit, EngineError>)
    requires
        old(cnf).wf(),
        leaves_ok(les@),
        encodes(les@, ts),
    ensures
        final(cnf).wf(),
        final(cnf).keeps(old(cnf)),
        match r {
            Ok(n) => final(cnf).valid(n) && forall|a: Bits| #[trigger]
                final(cnf).eval(n, a) == some_cmd(cmd_models(cs@), leaves_at(les@, a)),
            Err(x) => x is Eval && !cmds_typed(cmd_models(cs@), ts),
        },
{
    let ghost ms = cmd_models(cs@);
    proof {
        cnf.constants_meaning();
    }
    let mut r = ff();
    let mut i: usize = 0;
    while i < cs.len()
        invariant
            i <= cs@.len(),
            ms == cmd_models(cs@),
            cnf.wf(),
            cnf.keeps(old(cnf)),
            leaves_ok(les@),
            encodes(les@, ts),
            cnf.valid(r),
            forall|a: Bits| #[trigger]
                cnf.eval(r, a) == some_cmd(ms.take(i as int), leaves_at(les@, a)),
        decreases cs.len() - i,
    {
        let ghost m0 = *cnf;
        let ghost r0 = r;
        let gc = match enc_cmd(cnf, les, &cs[i], Ghost(ts)) {
            Ok(n) => n,
            Err(x) => {
                assert(ms[i as int] == cs@[i as int].model());
                return Err(x);
            },
        };
        let ghost m1 = *cnf;
        r = cnf.or(r, gc);
        proof {
            assert forall|a: Bits| #[trigger] cnf.eval(r, a) == some_cmd(
                ms.take(i + 1),
                leaves_at(les@, a),
            ) by {
                let env = leaves_at(les@, a);
                assert(m1.eval(r0, a) == m0.eval(r0, a));
                let x = ms.take(i as int);
                let y = ms.take(i + 1);
                assert(y[i as int] == cs@[i as int].model());
                if some_cmd(x, env) {
                    let k = choose|k: int|
                        0 <= k < x.len() && holds(sem((#[trigger] x[k]).guard, env)) && holds(
                            sem(x[k].constraint, env),
                        );
                    assert(y[k] == x[k]);
                }
                if some_cmd(y, env) {
                    let k = choose|k: int|
                        0 <= k < y.len() && holds(sem((#[trigger] y[k]).guard, env)) && holds(
                            sem(y[k].constraint, env),
                        );
                    if k < i {
                        assert(x[k] == y[k]);
                    }
                }
            }
        }
        i += 1;
    }
    assert(ms.take(i as int) =~= ms);
    Ok(r)
}

/// Where the relation allows a step.
fn enc_trans(
    cnf: &mut Cnf,
    les: &Steps,
    node: &TransNode,
    Ghost(ts): Ghost<Seq<LT>>,
) -> (r: Result<Lit, EngineError>)
    requires
        old(cnf).wf(),
        leaves_ok(les@),
        encodes(les@, ts),
    ensures
        final(cnf).wf(),
        final(cnf).keeps(old(cnf)),
        match r {
            Ok(n) => final(cnf).valid(n) && forall|a: Bits| #[trigger]
                final(cnf).eval(n, a) == allows(node.model(), leaves_at(les@, a)),
            Err(x) => x is Eval && !tn_typed(node.model(), ts),
        },
    decreases node,
{
    proof {
        cnf.constants_meaning();
    }
    match node {
        TransNode::True => Ok(tt()),
        TransNode::Cmds(cs) => enc_cmds(cnf, les, cs, Ghost(ts)),
        TransNode::All(ns) => {
            let ghost ms = tn_models(ns@);
            let mut r = tt();
            let mut i: usize = 0;
            while i < ns.len()
                invariant
                    i <= ns@.len(),
                    decreases_to!(node => ns),
                    ms == tn_models(ns@),
                    node.model() == TN::All(ms),
                    cnf.wf(),
                    cnf.keeps(old(cnf)),
                    leaves_ok(les@),
                    encodes(les@, ts),
                    cnf.valid(r),
                    forall|a: Bits| #[trigger]
                        cnf.eval(r, a) == every(allowed(ms.take(i as int), leaves_at(les@, a))),
                decreases ns.len() - i,
            {
                let ghost m0 = *cnf;
                let ghost r0 = r;
                let n = match enc_trans(cnf, les, &ns[i], Ghost(ts)) {
                    Ok(n) => n,
                    Err(x) => {
                        assert(!tns_typed(ms, ts)[i as int]);
                        return Err(x);
                    },
                };
                let ghost m1 = *cnf;
                r = cnf.and(r, n);
                proof {
                    assert forall|a: Bits| #[trigger] cnf.eval(r, a) == every(
                        allowed(ms.take(i + 1), leaves_at(les@, a)),
                    ) by {
                        let env = leaves_at(les@, a);
                        assert(m1.eval(r0, a) == m0.eval(r0, a));
                        let x = allowed(ms.take(i as int), env);
                        let y = allowed(ms.take(i + 1), env);
                        assert(y =~= x.push(allows(ms[i as int], env)));
                        if every(y) {
                            assert(y[i as int]);
                            assert forall|k: int| 0 <= k < x.len() implies #[trigger] x[k] by {
                                assert(y[k] == x[k]);
                            }
                        }
                    }
                }
                i += 1;
            }
            assert(ms.take(i as int) =~= ms);
            Ok(r)
        },
        TransNode::Interleave(bs) => {
            let ghost ms = branch_models(bs@);
            let mut r = ff();
            let mut i: usize = 0;
            while i < bs.len()
                invariant
                    i <= bs@.len(),
                    decreases_to!(node => bs),
                    ms == branch_models(bs@),
                    node.model() == TN::Interleave(ms),
                    cnf.wf(),
                    cnf.keeps(old(cnf)),
                    leaves_ok(les@),
                    encodes(les@, ts),
                    cnf.valid(r),
                    forall|a: Bits| #[trigger]
                        cnf.eval(r, a) == some(
                            branches_allowed(ms.take(i as int), leaves_at(les@, a)),
                        ),
                decreases bs.len() - i,
            {
                let ghost m0 = *cnf;
                let ghost r0 = r;
                let n = match enc_trans(cnf, les, &bs[i].0, Ghost(ts)) {
                    Ok(n) => n,
                    Err(x) => {
                        assert(!branches_typed(ms, ts)[i as int]);
                        return Err(x);
                    },
                };
                let ghost m1 = *cnf;
                let f = match enc_bool(cnf, les, &bs[i].1, Ghost(ts)) {
                    Ok(n) => n,
                    Err(x) => {
                        assert(!branches_typed(ms, ts)[i as int]);
                        return Err(x);
                    },
                };
                let ghost m2 = *cnf;
                let ef = cnf.and(n, f);
                let ghost m3 = *cnf;
                r = cnf.or(r, ef);
                proof {
                    assert forall|a: Bits| #[trigger] cnf.eval(r, a) == some(
                        branches_allowed(ms.take(i + 1), leaves_at(les@, a)),
                    ) by {
                        let env = leaves_at(les@, a);
                        assert(m3.eval(r0, a) == m0.eval(r0, a));
                        assert(m2.eval(n, a) == m1.eval(n, a));
                        assert(m3.eval(ef, a) == (m2.eval(n, a) && m2.eval(f, a)));
                        let x = branches_allowed(ms.take(i as int), env);
                        let y = branches_allowed(ms.take(i + 1), env);
                        assert(y =~= x.push(
                            allows(ms[i as int].0, env) && holds(sem(ms[i as int].1, env)),
                        ));
                        if some(x) {
                            let k = choose|k: int| 0 <= k < x.len() && #[trigger] x[k];
                            assert(y[k]);
                        }
                        if m3.eval(ef, a) {
                            assert(y[i as int]);
                        }
                    }
                }
                i += 1;
            }
            assert(ms.take(i as int) =~= ms);
            Ok(r)
        },
    }
}


impl<'m> BmcEnc<'m> {
    /// A literal for a condition at two steps.
    pub fn enc_bool(&mut self, e: &FExpr, cur: usize, next: usize) -> (r: Result<Lit, EngineError>)
        requires
            old(self).wf(),
        ensures
            final(self).wf(),
            final(self).keeps(old(self)),
            match r {
                Ok(n) => final(self).cnf.valid(n) && forall|b: Bits| #[trigger]
                    final(self).cnf.eval(n, b) == holds(sem(e.model(), leaves_at(old(self).frame(cur, next), b))),
                Err(x) => x is Eval && !is_condition(e.model(), old(self).sys().leaves),
            },
    {
        proof {
            self.frames_ok(cur, next);
        }
        let ghost ts = self.sys().leaves;
        let les = Steps { leaves: &self.leaves, cur, next };
        enc_bool(&mut self.cnf, &les, e, Ghost(ts))
    }

    fn enc_list(&mut self, es: &Vec<FExpr>, cur: usize, next: usize) -> (r: Result<Lit, EngineError>)
        requires
            old(self).wf(),
        ensures
            final(self).wf(),
            final(self).keeps(old(self)),
            match r {
                Ok(n) => final(self).cnf.valid(n) && forall|b: Bits| #[trigger]
                    final(self).cnf.eval(n, b) == all_hold(
                        sems(fe_models(es@), leaves_at(old(self).frame(cur, next), b)),
                    ),
                Err(x) => x is Eval && !all_sort(typeds(fe_models(es@), old(self).sys().leaves), Sort::B),
            },
    {
        proof {
            self.frames_ok(cur, next);
        }
        let ghost ts = self.sys().leaves;
        let les = Steps { leaves: &self.leaves, cur, next };
        enc_junction(&mut self.cnf, &les, es, true, Ghost(ts))
    }

    fn join(&mut self, x: Lit, y: Lit) -> (r: Lit)
        requires
            old(self).wf(),
            old(self).cnf.valid(x),
            old(self).cnf.valid(y),
        ensures
            final(self).wf(),
            final(self).keeps(old(self)),
            final(self).cnf.valid(r),
            forall|b: Bits| #[trigger]
                final(self).cnf.eval(r, b) == (old(self).cnf.eval(x, b) && old(self).cnf.eval(y, b)),
    {
        self.cnf.and(x, y)
    }

    /// The first blocks of initial choices.
    fn enc_choices(&mut self) -> (r: Result<Lit, EngineError>)
        requires
            old(self).wf(),
        ensures
            final(self).wf(),
            final(self).keeps(old(self)),
            match r {
                Ok(n) => final(self).cnf.valid(n) && forall|b: Bits| #[trigger]
                    final(self).cnf.eval(n, b) == choices_hold(
                        old(self).sys().init_choices,
                        old(self).sys().init_choices.len() as int,
                        leaves_at(old(self).frame(0, 0), b),
                    ),
                Err(x) => x is Eval && !old(self).sys().well_typed(),
            },
    {
        let ghost o = *self;
        let ghost cs = self.sys().init_choices;
        let ghost ts = self.sys().leaves;
        proof {
            self.cnf.constants_meaning();
        }
        let flat = self.flat;
        let mut r = tt();
        let mut i: usize = 0;
        while i < flat.init_choices.len()
            invariant
                i <= flat.init_choices@.len(),
                o == *old(self),
                flat == o.flat,
                cs == o.sys().init_choices,
                cs.len() == flat.init_choices@.len(),
                ts == o.sys().leaves,
                o.wf(),
                self.wf(),
                self.keeps(&o),
                self.cnf.valid(r),
                forall|b: Bits| #[trigger]
                    self.cnf.eval(r, b) == choices_hold(cs, i as int, leaves_at(o.frame(0, 0), b)),
            decreases flat.init_choices.len() - i,
        {
            let ghost s0 = *self;
            proof {
                assert(cs[i as int] == cmd_models(flat.init_choices@[i as int]@));
                self.frames_ok(0, 0);
            }
            let les = Steps { leaves: &self.leaves, cur: 0, next: 0 };
            let c = match enc_cmds(&mut self.cnf, &les, &flat.init_choices[i], Ghost(ts)) {
                Ok(c) => c,
                Err(x) => {
                    proof {
                        self.keeps_trans(&s0, &o);
                        assert(!cmds_typed(cs[i as int], ts));
                    }
                    return Err(x);
                },
            };
            let ghost s1 = *self;
            proof {
                s1.keeps_trans(&s0, &o);
            }
            let r2 = self.join(r, c);
            proof {
                self.keeps_trans(&s1, &o);
                assert forall|b: Bits| #[trigger] self.cnf.eval(r2, b) == choices_hold(
                    cs,
                    i + 1,
                    leaves_at(o.frame(0, 0), b),
                ) by {
                    let env = leaves_at(o.frame(0, 0), b);
                    assert(s1.cnf.eval(r, b) == s0.cnf.eval(r, b));
                    assert(s1.cnf.eval(c, b) == some_cmd(cs[i as int], env));
                    if choices_hold(cs, i + 1, env) {
                        assert(some_cmd(cs[i as int], env));
                    }
                }
            }
            r = r2;
            i += 1;
        }
        Ok(r)
    }

    /// A literal for: the state at step 0 is initial.
    pub fn init(&mut self) -> (r: Result<Lit, EngineError>)
        requires
            old(self).wf(),
        ensures
            final(self).wf(),
            final(self).keeps(old(self)),
            match r {
                Ok(n) => final(self).cnf.valid(n) && forall|b: Bits| #[trigger]
                    final(self).cnf.eval(n, b) == (dom_at(old(self).es(), 0, b) && old(self).sys().initial(
                        state_at(old(self).es(), 0, b),
                    )),
                Err(x) => x is Eval && !old(self).sys().well_typed(),
            },
    {
        let ghost o = *self;
        let flat = self.flat;
        let d = self.domain(0);
        let ghost s1 = *self;
        let inv = match self.enc_list(&flat.invariants, 0, 0) {
            Ok(n) => n,
            Err(x) => {
                proof {
                    self.keeps_trans(&s1, &o);
                }
                return Err(x);
            },
        };
        let ghost s2 = *self;
        proof {
            s2.keeps_trans(&s1, &o);
        }
        let defs = match self.enc_list(&flat.init_defs, 0, 0) {
            Ok(n) => n,
            Err(x) => {
                proof {
                    self.keeps_trans(&s2, &o);
                }
                return Err(x);
            },
        };
        let ghost s3 = *self;
        proof {
            s3.keeps_trans(&s2, &o);
        }
        let ch = match self.enc_choices() {
            Ok(n) => n,
            Err(x) => {
                proof {
                    self.keeps_trans(&s3, &o);
                }
                return Err(x);
            },
        };
        let ghost s4 = *self;
        proof {
            s4.keeps_trans(&s3, &o);
        }
        let a = self.join(d, inv);
        let ghost s5 = *self;
        proof {
            s5.keeps_trans(&s4, &o);
        }
        let b2 = self.join(a, defs);
        let ghost s6 = *self;
        proof {
            s6.keeps_trans(&s5, &o);
        }
        let r = self.join(b2, ch);
        proof {
            self.keeps_trans(&s6, &o);
            assert forall|b: Bits| #[trigger] self.cnf.eval(r, b) == (dom_at(o.es(), 0, b) && o.sys().initial(
                state_at(o.es(), 0, b),
            )) by {
                let f = o.frame(0, 0);
                let env = leaves_at(f, b);
                let sys = o.sys();
                assert(s4.cnf.eval(d, b) == dom_at(o.es(), 0, b)) by {
                    assert(s3.cnf.eval(d, b) == s2.cnf.eval(d, b));
                    assert(s2.cnf.eval(d, b) == s1.cnf.eval(d, b));
                }
                assert(s4.cnf.eval(inv, b) == sys.invariant_at(env)) by {
                    assert(s3.cnf.eval(inv, b) == s2.cnf.eval(inv, b));
                }
                assert(s6.cnf.eval(ch, b) == s5.cnf.eval(ch, b));
                assert(s5.cnf.eval(ch, b) == s4.cnf.eval(ch, b));
                assert(s5.cnf.eval(defs, b) == s4.cnf.eval(defs, b));
                assert(s4.cnf.eval(defs, b) == s3.cnf.eval(defs, b));
                assert(s6.cnf.eval(b2, b) == (s5.cnf.eval(a, b) && s5.cnf.eval(defs, b)));
                assert(s5.cnf.eval(a, b) == (s4.cnf.eval(d, b) && s4.cnf.eval(inv, b)));
                if dom_at(o.es(), 0, b) {
                    frame_leaves(f, b);
                    o.frames_ok(0, 0);
                    state_ok(o.es(), sys, 0, b);
                    let s = state_at(o.es(), 0, b);
                    assert(env == state_leaves(s));
                    let cs = sys.init_choices;
                    if choices_hold(cs, cs.len() as int, env) {
                        assert forall|i: int| 0 <= i < cs.len() implies some_cmd(#[trigger] cs[i], env) by {}
                    }
                }
            }
        }
        Ok(r)
    }

    /// A literal for: the system can go from the state at one step to the state at another. The
    /// first state is taken to be one of the system.
    pub fn trans(&mut self, cur: usize, next: usize) -> (r: Result<Lit, EngineError>)
        requires
            old(self).wf(),
        ensures
            final(self).wf(),
            final(self).keeps(old(self)),
            match r {
                Ok(n) => final(self).cnf.valid(n) && forall|b: Bits| #[trigger]
                    final(self).cnf.eval(n, b) == moves(old(self).es(), old(self).sys(), cur, next, b),
                Err(x) => x is Eval && !old(self).sys().well_typed(),
            },
    {
        let ghost o = *self;
        let flat = self.flat;
        let ghost ts = self.sys().leaves;
        proof {
            self.frames_ok(cur, next);
        }
        let les = Steps { leaves: &self.leaves, cur, next };
        let n = match enc_trans(&mut self.cnf, &les, &flat.trans, Ghost(ts)) {
            Ok(n) => n,
            Err(x) => {
                return Err(x);
            },
        };
        let ghost s1 = *self;
        let defs = match self.enc_list(&flat.trans_defs, cur, next) {
            Ok(n) => n,
            Err(x) => {
                proof {
                    self.keeps_trans(&s1, &o);
                }
                return Err(x);
            },
        };
        let ghost s2 = *self;
        proof {
            s2.keeps_trans(&s1, &o);
        }
        let d = self.domain(next);
        let ghost s3 = *self;
        proof {
            s3.keeps_trans(&s2, &o);
        }
        let inv = match self.enc_list(&flat.invariants, next, next) {
            Ok(n) => n,
            Err(x) => {
                proof {
                    self.keeps_trans(&s3, &o);
                }
                return Err(x);
            },
        };
        let ghost s4 = *self;
        proof {
            s4.keeps_trans(&s3, &o);
        }
        let a = self.join(n, defs);
        let ghost s5 = *self;
        proof {
            s5.keeps_trans(&s4, &o);
        }
        let c = self.join(d, inv);
        let ghost s6 = *self;
        proof {
            s6.keeps_trans(&s5, &o);
        }
        let r = self.join(a, c);
        proof {
            self.keeps_trans(&s6, &o);
            assert forall|b: Bits| #[trigger] self.cnf.eval(r, b) == moves(o.es(), o.sys(), cur, next, b) by {
                assert(s4.cnf.eval(n, b) == s1.cnf.eval(n, b)) by {
                    assert(s3.cnf.eval(n, b) == s2.cnf.eval(n, b));
                    assert(s2.cnf.eval(n, b) == s1.cnf.eval(n, b));
                }
                assert(s4.cnf.eval(defs, b) == s2.cnf.eval(defs, b)) by {
                    assert(s3.cnf.eval(defs, b) == s2.cnf.eval(defs, b));
                }
                assert(s5.cnf.eval(d, b) == s3.cnf.eval(d, b)) by {
                    assert(s4.cnf.eval(d, b) == s3.cnf.eval(d, b));
                }
                assert(s5.cnf.eval(inv, b) == s4.cnf.eval(inv, b));
                assert(s6.cnf.eval(a, b) == s5.cnf.eval(a, b));
            }
        }
        Ok(r)
    }

    /// A literal for: the bits of two steps are the same.
    pub fn state_eq(&mut self, s: usize, t: usize) -> (r: Lit)
        requires
            old(self).wf(),
        ensures
            final(self).wf(),
            final(self).keeps(old(self)),
            final(self).cnf.valid(r),
            forall|b: Bits| #[trigger] final(self).cnf.eval(r, b) == equal_bits(old(self).es(), s, t, b),
    {
        let ghost o = *self;
        proof {
            self.cnf.constants_meaning();
        }
        let mut r = tt();
        let mut l: usize = 0;
        while l < self.leaves.len()
            invariant
                l <= self.leaves@.len(),
                o.wf(),
                self.wf(),
                self.keeps(&o),
                self.leaves == o.leaves,
                self.cnf.valid(r),
                forall|b: Bits| #[trigger]
                    self.cnf.eval(r, b) == bits_equal(o.leaves@, l as int, 0, s, t, b),
            decreases self.leaves.len() - l,
        {
            let n: u32 = self.leaves[l].bits;
            let mut k: u32 = 0;
            proof {
                assert forall|b: Bits| #[trigger] self.cnf.eval(r, b) == bits_equal(
                    o.leaves@,
                    l as int,
                    0,
                    s,
                    t,
                    b,
                ) by {}
            }
            while k < n
                invariant
                    k <= n,
                    n == o.leaves@[l as int].bits,
                    l < o.leaves@.len(),
                    o.wf(),
                    self.wf(),
                    self.keeps(&o),
                    self.leaves == o.leaves,
                    self.cnf.valid(r),
                    forall|b: Bits| #[trigger]
                        self.cnf.eval(r, b) == bits_equal(o.leaves@, l as int, k as int, s, t, b),
                decreases n - k,
            {
                let ghost s0 = *self;
                let x = self.cnf.bitvar(l as u32, k, s);
                let ghost s1 = *self;
                let y = self.cnf.bitvar(l as u32, k, t);
                let ghost s2 = *self;
                let e = self.cnf.iff_lit(x, y);
                let ghost s3 = *self;
                let r2 = self.cnf.and(r, e);
                proof {
                    s1.keeps_trans(&s0, &o);
                    s2.keeps_trans(&s1, &o);
                    s3.keeps_trans(&s2, &o);
                    self.keeps_trans(&s3, &o);
                    assert forall|b: Bits| #[trigger] self.cnf.eval(r2, b) == bits_equal(
                        o.leaves@,
                        l as int,
                        k + 1,
                        s,
                        t,
                        b,
                    ) by {
                        assert(s3.cnf.eval(r, b) == s0.cnf.eval(r, b)) by {
                            assert(s2.cnf.eval(r, b) == s1.cnf.eval(r, b));
                            assert(s1.cnf.eval(r, b) == s0.cnf.eval(r, b));
                        }
                        assert(s2.cnf.eval(x, b) == s1.cnf.eval(x, b));
                        assert(s3.cnf.eval(e, b) == (b(Input::Bit(l as u32, k, s)) == b(Input::Bit(l as u32, k, t))));
                        let p = bits_equal(o.leaves@, l as int, k as int, s, t, b);
                        let q = bits_equal(o.leaves@, l as int, k + 1, s, t, b);
                        if q {
                            assert(b(Input::Bit(l as u32, k, s)) == b(Input::Bit(l as u32, k, t)));
                        }
                    }
                }
                r = r2;
                k += 1;
            }
            proof {
                assert forall|b: Bits| #[trigger] self.cnf.eval(r, b) == bits_equal(
                    o.leaves@,
                    l + 1,
                    0,
                    s,
                    t,
                    b,
                ) by {
                    assert(bits_equal(o.leaves@, l as int, n as int, s, t, b) == bits_equal(
                        o.leaves@,
                        l + 1,
                        0,
                        s,
                        t,
                        b,
                    ));
                }
            }
            l += 1;
        }
        r
    }

    /// Every leaf has at least one value.
    pub open spec fn inhabited(&self) -> bool {
        forall|l: int| 0 <= l < self.es().len() ==> (#[trigger] self.es()[l]).values@.len() > 0
    }

    /// The model gives these bits; those without a variable are false.
    pub open spec fn gives(&self, m: Model, b: Bits) -> bool {
        &&& forall|l: u32, k: u32, t: usize| #[trigger]
            self.cnf.has_bit(l, k, t) ==> b(Input::Bit(l, k, t)) == m(self.cnf.bit_of(l, k, t))
        &&& forall|l: u32, k: u32, t: usize| !#[trigger] self.cnf.has_bit(l, k, t) ==> !b(Input::Bit(l, k, t))
    }

    fn read_code(&self, model: &Vec<bool>, l: u32, k: u32, t: usize, n: u32) -> (r: u64)
        requires
            self.wf(),
            model@.len() == self.cnf.count(),
            k + n <= 64,
        ensures
            r < p2(n as nat),
            forall|b: Bits| #[trigger] self.gives(as_model(model@), b) ==> code(b, l, k, t, n as nat) == r,
        decreases n,
    {
        proof {
            crate::symbolic::p2_64();
            p2_mono(n as nat, 64);
        }
        if n == 0 {
            return 0;
        }
        let rest: u64 = self.read_code(model, l, k + 1, t, n - 1);
        let low: u64 = match self.cnf.find_bit(l, k, t) {
            Some(v) => if model[v] {
                1
            } else {
                0
            },
            None => 0,
        };
        proof {
            assert forall|b: Bits| #[trigger] self.gives(as_model(model@), b) implies code(b, l, k, t, n as nat)
                == low + 2
                * rest by {
                assert(code(b, l, (k + 1) as u32, t, (n - 1) as nat) == rest);
                assert(self.cnf.has_bit(l, k, t) || !self.cnf.has_bit(l, k, t));
            }
        }
        low + 2 * rest
    }

    /// The states of a model at the steps up to `steps`. A number that stands for no value is taken
    /// to be the last one that does.
    pub fn decode(&self, model: &Vec<bool>, steps: usize) -> (r: Vec<Vec<Value>>)
        requires
            self.wf(),
            self.inhabited(),
            model@.len() == self.cnf.count(),
            steps < usize::MAX,
        ensures
            r@.len() == steps + 1,
            forall|b: Bits, t: usize|
                self.gives(as_model(model@), b) && t <= steps && #[trigger] dom_at(self.es(), t, b) ==> models(
                    r@[t as int]@,
                ) == state_at(self.es(), t, b),
    {
        let mut out: Vec<Vec<Value>> = Vec::new();
        let mut t: usize = 0;
        while t <= steps
            invariant
                t <= steps + 1,
                steps < usize::MAX,
                out@.len() == t,
                self.wf(),
                self.inhabited(),
                model@.len() == self.cnf.count(),
                forall|b: Bits, u: usize|
                    self.gives(as_model(model@), b) && u < t && #[trigger] dom_at(self.es(), u, b) ==> models(
                        out@[u as int]@,
                    ) == state_at(self.es(), u, b),
            decreases steps + 1 - t,
        {
            let mut s: Vec<Value> = Vec::new();
            let mut l: usize = 0;
            while l < self.leaves.len()
                invariant
                    l <= self.leaves@.len(),
                    s@.len() == l,
                    self.wf(),
                    self.inhabited(),
                    model@.len() == self.cnf.count(),
                    forall|b: Bits, i: int|
                        self.gives(as_model(model@), b) && 0 <= i < l && #[trigger] leaf_out(
                            self.es()[i],
                            i as u32,
                            t,
                            b,
                        ) is Some ==> s@[i].model() == leaf_out(self.es()[i], i as u32, t, b)->0,
                decreases self.leaves.len() - l,
            {
                proof {
                    assert(leaf_ok(self.frame(0, 0).es[l as int]));
                    assert(self.es()[l as int].values@.len() > 0);
                }
                let e = &self.leaves[l];
                let c: u64 = self.read_code(model, l as u32, 0, t, e.bits);
                let i: usize = if c < e.values.len() as u64 {
                    c as usize
                } else {
                    e.values.len() - 1
                };
                s.push(e.values[i].clone());
                proof {
                    assert forall|b: Bits, j: int| self.gives(as_model(model@), b) && 0 <= j < l + 1
                        && #[trigger] leaf_out(self.es()[j], j as u32, t, b) is Some implies s@[j].model()
                        == leaf_out(self.es()[j], j as u32, t, b)->0 by {
                        if j == l {
                            assert(code(b, l as u32, 0, t, e.bits as nat) == c);
                        }
                    }
                }
                l += 1;
            }
            proof {
                assert forall|b: Bits| self.gives(as_model(model@), b)
                    && #[trigger] dom_at(self.es(), t, b) implies models(
                    s@,
                ) == state_at(self.es(), t, b) by {
                    assert forall|i: int| 0 <= i < s@.len() implies models(s@)[i] == #[trigger] state_at(
                        self.es(),
                        t,
                        b,
                    )[i] by {
                        assert(leaf_out(self.es()[i], i as u32, t, b) is Some);
                    }
                    assert(models(s@) =~= state_at(self.es(), t, b));
                }
            }
            out.push(s);
            t += 1;
        }
        out
    }
}

proof fn p2_mono(m: nat, n: nat)
    requires
        m <= n,
    ensures
        p2(m) <= p2(n),
    decreases n - m,
{
    if m < n {
        p2_mono(m + 1, n);
    }
}

/// The first blocks of choices hold.
spec fn choices_hold(cs: Seq<Seq<crate::flat::Cmd>>, n: int, env: Leaves) -> bool {
    forall|i: int| 0 <= i < n ==> some_cmd(#[trigger] cs[i], env)
}

/// The transition constraints hold from one step to the other, and the second state is one of the
/// system.
pub open spec fn moves(es: Seq<LeafBits>, sys: Sys, cur: usize, next: usize, b: Bits) -> bool {
    &&& dom_at(es, next, b)
    &&& sys.invariant_at(leaves_at(Frame { es, cur: next, next }, b))
    &&& sys.trans_at(leaves_at(Frame { es, cur, next }, b))
}

/// The bits of two steps are the same.
pub open spec fn equal_bits(es: Seq<LeafBits>, s: usize, t: usize, b: Bits) -> bool {
    bits_equal(es, es.len() as int, 0, s, t, b)
}

/// The bits of the first `n` leaves, and the first `m` of the next leaf, are the same at two steps.
pub open spec fn bits_equal(es: Seq<LeafBits>, n: int, m: int, s: usize, t: usize, b: Bits) -> bool {
    forall|l: u32, k: u32|
        (l < n && k < es[l as int].bits || l == n && k < m) ==> #[trigger] b(Input::Bit(l, k, s)) == b(
            Input::Bit(l, k, t),
        )
}


/// The lemmas hold in all states.
pub open spec fn holds_along(lemmas: Seq<FE>, p: Seq<State>) -> bool {
    forall|i: int| 0 <= i < p.len() ==> all_hold(sems(lemmas, state_leaves(#[trigger] p[i])))
}

/// The states are ones of the system in which the invariants hold, and each leads to the next.
pub open spec fn window(sys: Sys, p: Seq<State>) -> bool {
    &&& p.len() > 0
    &&& sys.is_state(p[0])
    &&& sys.invariant_at(state_leaves(p[0]))
    &&& sys.chain(p)
}

/// The states at the steps up to `k`.
pub open spec fn path_at(es: Seq<LeafBits>, k: nat, b: Bits) -> Seq<State> {
    Seq::new((k + 1) as nat, |t: int| state_at(es, t as usize, b))
}

/// All steps have states.
pub open spec fn all_dom(es: Seq<LeafBits>, k: nat, b: Bits) -> bool {
    forall|t: usize| t <= k ==> #[trigger] dom_at(es, t, b)
}

/// The states at the steps up to `k` are a run, or any window, along which the lemmas hold.
pub open spec fn path_ok(es: Seq<LeafBits>, sys: Sys, init: bool, lemmas: Seq<FE>, k: nat, b: Bits) -> bool {
    &&& all_dom(es, k, b)
    &&& window(sys, path_at(es, k, b))
    &&& init ==> sys.initial(state_at(es, 0, b))
    &&& holds_along(lemmas, path_at(es, k, b))
}

/// A state more.
#[verifier::rlimit(40)]
proof fn path_next(es: Seq<LeafBits>, sys: Sys, init: bool, lemmas: Seq<FE>, k: usize, b: Bits)
    requires
        k < usize::MAX,
        es.len() <= u32::MAX,
        encodes(Frame { es, cur: 0, next: 0 }, sys.leaves),
    ensures
        path_ok(
            es,
            sys,
            init,
            lemmas,
            (k + 1) as nat,
            b
        ) == (path_ok(es, sys, init, lemmas, k as nat, b) && moves(
            es,
            sys,
            k,
            (k + 1) as usize,
            b,
        ) && all_hold(
            sems(
                lemmas,
                leaves_at(Frame { es, cur: (k + 1) as usize, next: (k + 1) as usize }, b),
            ),
        )),
{
    let n = (k + 1) as usize;
    let p = path_at(es, k as nat, b);
    let q = path_at(es, n as nat, b);
    assert(q =~= p.push(state_at(es, n, b)));
    if dom_at(es, k, b) && dom_at(es, n, b) {
        frame_leaves(Frame { es, cur: k, next: n }, b);
        frame_leaves(Frame { es, cur: n, next: n }, b);
        frame_leaves(Frame { es, cur: k, next: k }, b);
        state_ok(es, sys, n, b);
        state_ok(es, sys, k, b);
    }
    if path_ok(es, sys, init, lemmas, n as nat, b) {
        assert(dom_at(es, n, b));
        assert(dom_at(es, k, b));
        assert(sys.step(q[k as int], q[k + 1]));
        assert forall|i: int| 0 <= i < p.len() implies all_hold(sems(lemmas, state_leaves(#[trigger] p[i]))) by {
            assert(p[i] == q[i]);
        }
        assert forall|i: int| 0 <= i < p.len() - 1 implies sys.step(#[trigger] p[i], p[i + 1]) by {
            assert(sys.step(q[i], q[i + 1]));
        }
        assert(all_hold(sems(lemmas, state_leaves(q[n as int]))));
    }
    if path_ok(es, sys, init, lemmas, k as nat, b) && moves(es, sys, k, n, b) {
        assert(dom_at(es, k, b));
        assert(sys.invariant_at(state_leaves(p[k as int]))) by {
            if k > 0 {
                assert(sys.step(p[k - 1], p[k - 1 + 1]));
            }
        }
        assert(sys.step(q[k as int], q[n as int]));
        assert forall|i: int| 0 <= i < q.len() - 1 implies sys.step(#[trigger] q[i], q[i + 1]) by {
            if i < k {
                assert(sys.step(p[i], p[i + 1]));
            }
        }
        assert forall|t: usize| t <= n implies #[trigger] dom_at(es, t, b) by {}
        if all_hold(sems(lemmas, leaves_at(Frame { es, cur: n, next: n }, b))) {
            assert forall|i: int| 0 <= i < q.len() implies all_hold(sems(lemmas, state_leaves(#[trigger] q[i]))) by {
                if i <= k {
                    assert(q[i] == p[i]);
                }
            }
        }
    }
}

proof fn path_first(es: Seq<LeafBits>, sys: Sys, init: bool, lemmas: Seq<FE>, b: Bits)
    requires
        encodes(Frame { es, cur: 0, next: 0 }, sys.leaves),
    ensures
        path_ok(es, sys, init, lemmas, 0, b) == (dom_at(es, 0, b) && (init ==> sys.initial(state_at(es, 0, b)))
            && sys.invariant_at(leaves_at(Frame { es, cur: 0, next: 0 }, b)) && all_hold(
            sems(lemmas, leaves_at(Frame { es, cur: 0, next: 0 }, b)),
        )),
{
    let p = path_at(es, 0, b);
    assert(p =~= seq![state_at(es, 0, b)]);
    if dom_at(es, 0, b) {
        frame_leaves(Frame { es, cur: 0, next: 0 }, b);
        state_ok(es, sys, 0, b);
        assert(p[0] == state_at(es, 0, b));
        assert forall|t: usize| t <= 0 implies #[trigger] dom_at(es, t, b) by {}
        if all_hold(sems(lemmas, state_leaves(p[0]))) {
            assert forall|i: int| 0 <= i < p.len() implies all_hold(sems(lemmas, state_leaves(#[trigger] p[i]))) by {}
        }
    }
}

impl<'m> BmcEnc<'m> {
    /// A literal for: the states at the steps up to `k` are a run, or any window, along which the
    /// lemmas hold.
    fn path(&mut self, init: bool, k: usize, lemmas: &Vec<FExpr>) -> (r: Result<Lit, EngineError>)
        requires
            old(self).wf(),
            k < usize::MAX,
        ensures
            final(self).wf(),
            final(self).keeps(old(self)),
            match r {
                Ok(n) => final(self).cnf.valid(n) && forall|b: Bits| #[trigger]
                    final(self).cnf.eval(n, b) == path_ok(
                        old(self).es(),
                        old(self).sys(),
                        init,
                        fe_models(lemmas@),
                        k as nat,
                        b,
                    ),
                Err(x) => x is Eval && !(old(self).sys().well_typed() && all_sort(
                    typeds(fe_models(lemmas@), old(self).sys().leaves),
                    Sort::B,
                )),
            },
    {
        let ghost o = *self;
        let ghost ls = fe_models(lemmas@);
        let flat = self.flat;
        let first = if init {
            match self.init() {
                Ok(n) => n,
                Err(x) => {
                    return Err(x);
                },
            }
        } else {
            self.domain(0)
        };
        let ghost s1 = *self;
        let inv = match self.enc_list(&flat.invariants, 0, 0) {
            Ok(n) => n,
            Err(x) => {
                proof {
                    self.keeps_trans(&s1, &o);
                }
                return Err(x);
            },
        };
        let ghost s2 = *self;
        proof {
            s2.keeps_trans(&s1, &o);
        }
        let lem = match self.enc_list(lemmas, 0, 0) {
            Ok(n) => n,
            Err(x) => {
                proof {
                    self.keeps_trans(&s2, &o);
                }
                return Err(x);
            },
        };
        let ghost s3 = *self;
        proof {
            s3.keeps_trans(&s2, &o);
        }
        let c1 = self.join(first, inv);
        let ghost s4 = *self;
        proof {
            s4.keeps_trans(&s3, &o);
        }
        let mut r = self.join(c1, lem);
        proof {
            self.keeps_trans(&s4, &o);
            assert forall|b: Bits| #[trigger] self.cnf.eval(r, b) == path_ok(
                o.es(),
                o.sys(),
                init,
                ls,
                0,
                b
            ) by {
                assert(s3.cnf.eval(first, b) == s1.cnf.eval(first, b)) by {
                    assert(s2.cnf.eval(first, b) == s1.cnf.eval(first, b));
                }
                assert(s3.cnf.eval(inv, b) == s2.cnf.eval(inv, b));
                assert(s4.cnf.eval(lem, b) == s3.cnf.eval(lem, b));
                assert(s4.cnf.eval(c1, b) == (s3.cnf.eval(first, b) && s3.cnf.eval(inv, b)));
                path_first(o.es(), o.sys(), init, ls, b);
            }
        }
        let mut t: usize = 0;
        while t < k
            invariant
                t <= k,
                k < usize::MAX,
                o == *old(self),
                o.wf(),
                ls == fe_models(lemmas@),
                self.wf(),
                self.keeps(&o),
                self.cnf.valid(r),
                forall|b: Bits| #[trigger]
                    self.cnf.eval(r, b) == path_ok(o.es(), o.sys(), init, ls, t as nat, b),
            decreases k - t,
        {
            let ghost a0 = *self;
            let mv = match self.trans(t, t + 1) {
                Ok(n) => n,
                Err(x) => {
                    proof {
                        self.keeps_trans(&a0, &o);
                    }
                    return Err(x);
                },
            };
            let ghost a1 = *self;
            proof {
                a1.keeps_trans(&a0, &o);
            }
            let lem = match self.enc_list(lemmas, t + 1, t + 1) {
                Ok(n) => n,
                Err(x) => {
                    proof {
                        self.keeps_trans(&a1, &o);
                    }
                    return Err(x);
                },
            };
            let ghost a2 = *self;
            proof {
                a2.keeps_trans(&a1, &o);
            }
            let c = self.join(mv, lem);
            let ghost a3 = *self;
            proof {
                a3.keeps_trans(&a2, &o);
            }
            let r2 = self.join(r, c);
            proof {
                self.keeps_trans(&a3, &o);
                assert forall|b: Bits| #[trigger] self.cnf.eval(r2, b) == path_ok(
                    o.es(),
                    o.sys(),
                    init,
                    ls,
                    (t + 1) as nat,
                    b,
                ) by {
                    assert(a3.cnf.eval(r, b) == a0.cnf.eval(r, b)) by {
                        assert(a2.cnf.eval(r, b) == a1.cnf.eval(r, b));
                        assert(a1.cnf.eval(r, b) == a0.cnf.eval(r, b));
                    }
                    assert(a2.cnf.eval(mv, b) == a1.cnf.eval(mv, b));
                    assert(a3.cnf.eval(c, b) == (a2.cnf.eval(mv, b) && a2.cnf.eval(lem, b)));
                    path_next(o.es(), o.sys(), init, ls, t, b);
                }
            }
            r = r2;
            t += 1;
        }
        Ok(r)
    }
}

/// The encoding as a source of terms.
pub struct CnfAlg<'m> {
    pub enc: BmcEnc<'m>,
}

impl<'m> BoolAlg for CnfAlg<'m> {
    type B = Lit;

    type Env = Bits;

    open spec fn ok(&self) -> bool {
        self.enc.wf()
    }

    open spec fn takes(&self, e: FE) -> bool {
        is_condition(e, self.enc.sys().leaves)
    }

    open spec fn good(&self, b: Lit) -> bool {
        self.enc.cnf.valid(b)
    }

    open spec fn value(&self, b: Lit, x: Bits) -> bool {
        self.enc.cnf.eval(b, x)
    }

    open spec fn extends(&self, old: &CnfAlg<'m>) -> bool {
        self.enc.keeps(&old.enc)
    }

    proof fn extends_self(&self) {
    }

    proof fn extends_on(&self, mid: &CnfAlg<'m>, old: &CnfAlg<'m>) {
        self.enc.keeps_trans(&mid.enc, &old.enc);
    }

    open spec fn atom_value(&self, e: FE, t: nat, x: Bits) -> bool {
        holds(sem(e, leaves_at(self.enc.frame(t as usize, t as usize), x)))
    }

    fn tt(&mut self) -> (r: Lit) {
        proof {
            self.enc.cnf.constants_meaning();
        }
        tt()
    }

    fn ff(&mut self) -> (r: Lit) {
        proof {
            self.enc.cnf.constants_meaning();
        }
        ff()
    }

    fn and(&mut self, xs: Vec<Lit>) -> (r: Lit) {
        let ghost o = self.enc;
        let r = self.enc.cnf.and_lits(xs);
        proof {
            assert forall|x: Bits| #[trigger] self.value(r, x) == (forall|i: int|
                0 <= i < xs@.len() ==> old(self).value(#[trigger] xs@[i], x)) by {
                assert(self.enc.cnf.eval(r, x) == o.cnf.all_true(xs@, x));
                if o.cnf.all_true(xs@, x) {
                    assert forall|i: int| 0 <= i < xs@.len() implies old(self).value(#[trigger] xs@[i], x) by {
                        assert(o.cnf.eval(xs@[i], x));
                    }
                }
                if forall|i: int| 0 <= i < xs@.len() ==> old(self).value(#[trigger] xs@[i], x) {
                    assert forall|i: int| 0 <= i < xs@.len() implies o.cnf.eval(#[trigger] xs@[i], x) by {
                        assert(old(self).value(xs@[i], x));
                    }
                }
            }
        }
        r
    }

    fn or(&mut self, xs: Vec<Lit>) -> (r: Lit) {
        let ghost o = self.enc;
        let r = self.enc.cnf.or_lits(xs);
        proof {
            assert forall|x: Bits| #[trigger] self.value(r, x) == (exists|i: int|
                0 <= i < xs@.len() && old(self).value(#[trigger] xs@[i], x)) by {
                assert(self.enc.cnf.eval(r, x) == o.cnf.some_true(xs@, x));
                if o.cnf.some_true(xs@, x) {
                    let i = choose|i: int| 0 <= i < xs@.len() && o.cnf.eval(#[trigger] xs@[i], x);
                    assert(old(self).value(xs@[i], x));
                }
                if exists|i: int| 0 <= i < xs@.len() && old(self).value(#[trigger] xs@[i], x) {
                    let i = choose|i: int| 0 <= i < xs@.len() && old(self).value(#[trigger] xs@[i], x);
                    assert(o.cnf.eval(xs@[i], x));
                }
            }
        }
        r
    }

    fn not(&mut self, b: Lit) -> (r: Lit) {
        flip(b)
    }

    fn atom(&mut self, e: &FExpr, t: usize) -> (r: Lit) {
        match self.enc.enc_bool(e, t, t) {
            Ok(n) => n,
            Err(_) => {
                assert(false);
                tt()
            },
        }
    }
}


/// The word of a finite sequence of states.
pub open spec fn path_word(p: Seq<State>) -> Word {
    |i: nat, e: FE| (i as int) < p.len() && holds_in(e, p[i as int])
}

/// The formula holds on the path closed by an edge from its end to the state number `l`.
pub open spec fn loop_witness(sys: Sys, f: NN, p: Seq<State>, l: nat) -> bool {
    &&& sys.step(p[p.len() - 1], p[l as int])
    &&& b_sat(f, path_word(p), (p.len() - 1) as nat, Some(l))(0)
}

/// The formula holds on the path, with or without a loop.
pub open spec fn witness(sys: Sys, f: NN, p: Seq<State>) -> bool {
    ||| b_sat(f, path_word(p), (p.len() - 1) as nat, None)(0)
    ||| exists|l: nat| l < p.len() && #[trigger] loop_witness(sys, f, p, l)
}

/// The endless sequence of states that goes along the path and then round the loop for ever.
pub open spec fn lasso_trace(p: Seq<State>, l: nat) -> Trace {
    |i: nat| p[crate::bounded::folded((p.len() - 1) as nat, l, i) as int]
}

/// A path with a witness for the negation of a formula refutes the formula: with a loop, on the
/// endless run round the loop; without, however the path goes on.
pub proof fn witness_refutes(sys: Sys, f: TF, p: Seq<State>)
    requires
        p.len() > 0,
        nnf(f, true) is Some,
        witness(sys, nnf(f, true)->0, p),
    ensures
        (forall|tr: Trace|
            (forall|i: int| 0 <= i < p.len() ==> #[trigger] p[i] == tr(i as nat)) ==> !#[trigger] tf_sat(
                f,
                word_of(tr),
            )(0)) || (exists|l: nat|
            l < p.len() && #[trigger] loop_witness(sys, nnf(f, true)->0, p, l) && !tf_sat(
                f,
                word_of(lasso_trace(p, l)),
            )(0)),
{
    let g = nnf(f, true)->0;
    let k = (p.len() - 1) as nat;
    let w = path_word(p);
    if b_sat(g, w, k, None)(0) {
        assert forall|tr: Trace| (forall|i: int| 0 <= i < p.len() ==> #[trigger] p[i] == tr(i as nat)) implies
            !#[trigger] tf_sat(f, word_of(tr))(0) by {
            let v = word_of(tr);
            assert forall|j: nat, e: FE| j <= k implies #[trigger] v(j, e) == w(j, e) by {
                assert(p[j as int] == tr(j));
            }
            path_meaning(g, w, v, k, 0);
            nnf_meaning(f, true, v, 0);
        }
    } else {
        let l = choose|l: nat| l < p.len() && #[trigger] loop_witness(sys, g, p, l);
        let v = word_of(lasso_trace(p, l));
        let u = lasso(w, k, l);
        assert forall|i: nat, e: FE| #[trigger] v(i, e) == u(i, e) by {
            if i > k {
                crate::bounded::folded_range(k, l, i);
            }
        }
        assert(v =~= u);
        loop_meaning(g, w, k, l, 0);
        nnf_meaning(f, true, v, 0);
        assert(!tf_sat(f, word_of(lasso_trace(p, l)))(0));
    }
}

/// How bounded model checking ended.
pub enum BmcResult {
    /// There is no counterexample of up to so many steps.
    NoCe(usize),
    /// The states of a counterexample.
    Counterexample(Vec<Vec<Value>>),
    /// The property is proved.
    Proved,
    /// The property could not be proved by induction of this depth.
    InductionFailed,
}

/// The word of the encoding is that of the path.
proof fn words_agree(alg: &CnfAlg, k: usize, b: Bits)
    requires
        all_dom(alg.enc.es(), k as nat, b),
    ensures
        forall|j: nat, e: FE|
            j <= k ==> #[trigger] path_word(path_at(alg.enc.es(), k as nat, b))(j, e) == alg_word(alg, b)(j, e),
{
    let es = alg.enc.es();
    let p = path_at(es, k as nat, b);
    assert forall|j: nat, e: FE| j <= k implies #[trigger] path_word(p)(j, e) == alg_word(alg, b)(j, e) by {
        let t = j as usize;
        assert(dom_at(es, t, b));
        frame_leaves(Frame { es, cur: t, next: t }, b);
        assert(p[j as int] == state_at(es, t, b));
    }
}

/// The loop is closed from the step `k` to the step `l`, by way of the step after `k`.
spec fn closes(es: Seq<LeafBits>, sys: Sys, k: usize, l: usize, b: Bits) -> bool {
    moves(es, sys, k, (k + 1) as usize, b) && equal_bits(es, (k + 1) as usize, l, b)
}

/// One of the first `n` loops is closed, and the formula holds on the path with it.
spec fn some_loop(w: Word, f: NN, es: Seq<LeafBits>, sys: Sys, k: usize, n: int, b: Bits) -> bool {
    exists|l: usize| l < n && #[trigger] loop_at(w, f, es, sys, k, l, b)
}

spec fn loop_at(w: Word, f: NN, es: Seq<LeafBits>, sys: Sys, k: usize, l: usize, b: Bits) -> bool {
    closes(es, sys, k, l, b) && b_sat(f, w, k as nat, Some(l as nat))(0)
}

/// A closed loop is an edge of the system.
proof fn closed_edge(es: Seq<LeafBits>, sys: Sys, k: usize, l: usize, b: Bits)
    requires
        k < usize::MAX,
        l <= k,
        es.len() <= u32::MAX,
        leaves_ok(Frame { es, cur: 0, next: 0 }),
        encodes(Frame { es, cur: 0, next: 0 }, sys.leaves),
        all_dom(es, k as nat, b),
        window(sys, path_at(es, k as nat, b)),
        closes(es, sys, k, l, b),
    ensures
        sys.step(path_at(es, k as nat, b)[k as int], path_at(es, k as nat, b)[l as int]),
{
    let n = (k + 1) as usize;
    let p = path_at(es, k as nat, b);
    assert(dom_at(es, k, b));
    assert(dom_at(es, l, b));
    frame_leaves(Frame { es, cur: k, next: n }, b);
    frame_leaves(Frame { es, cur: n, next: n }, b);
    state_ok(es, sys, k, b);
    state_ok(es, sys, n, b);
    assert(leaves_ok(Frame { es, cur: n, next: l })) by {
        assert forall|i: int| 0 <= i < es.len() implies leaf_ok(#[trigger] es[i]) by {
            assert(leaf_ok(Frame { es, cur: 0, next: 0 }.es[i]));
        }
    }
    assert(same_bits(es, n, l, b));
    same_state(es, n, l, b);
    assert(sys.invariant_at(state_leaves(p[k as int]))) by {
        if k > 0 {
            assert(sys.step(p[k - 1], p[k - 1 + 1]));
        }
    }
}

/// A term for: the negated formula holds on the path, with or without a loop.
fn property<'m>(enc: BmcEnc<'m>, neg: &Ltl, k: usize) -> (r: Result<(BmcEnc<'m>, Lit), EngineError>)
    requires
        enc.wf(),
        k < usize::MAX - 1,
        nn_atoms(neg.model(), |e: FE| is_condition(e, enc.sys().leaves)),
    ensures
        match r {
            Ok((e2, n)) => {
                &&& e2.wf()
                &&& e2.keeps(&enc)
                &&& e2.cnf.valid(n)
                &&& forall|b: Bits| #[trigger]
                    e2.cnf.eval(n, b) == ({
                        let w = alg_word(&(CnfAlg { enc }), b);
                        b_sat(neg.model(), w, k as nat, None)(0) || some_loop(
                            w,
                            neg.model(),
                            enc.es(),
                            enc.sys(),
                            k,
                            k + 1,
                            b,
                        )
                    })
            },
            Err(x) => x is Eval && !enc.sys().well_typed(),
        },
{
    let ghost a0 = CnfAlg { enc };
    let ghost f = neg.model();
    let ghost es = enc.es();
    let ghost sys = enc.sys();
    let mut bl = BoundedLtl::new(CnfAlg { enc }, k);
    proof {
        takes_all(&bl, &a0, f);
    }
    let mut r = bl.no_loop(neg, 0);
    proof {
        assert forall|b: Bits| #[trigger] bl.alg.enc.cnf.eval(r, b) == (b_sat(
            f,
            alg_word(&a0, b),
            k as nat,
            None
        )(0)
            || some_loop(alg_word(&a0, b), f, es, sys, k, 0, b)) by {
            assert(bl.alg.value(r, b) == b_sat(f, alg_word(&a0, b), k as nat, None)(0));
        }
    }
    let mut l: usize = 0;
    while l <= k
        invariant
            l <= k + 1,
            k < usize::MAX - 1,
            bl.k == k,
            f == neg.model(),
            a0.enc.wf(),
            nn_atoms(f, |e: FE| is_condition(e, sys.leaves)),
            es == a0.enc.es(),
            sys == a0.enc.sys(),
            a0.enc == enc,
            bl.alg.enc.wf(),
            bl.alg.enc.keeps(&a0.enc),
            bl.alg.enc.cnf.valid(r),
            forall|b: Bits| #[trigger]
                bl.alg.enc.cnf.eval(r, b) == (b_sat(f, alg_word(&a0, b), k as nat, None)(0) || some_loop(
                    alg_word(&a0, b),
                    f,
                    es,
                    sys,
                    k,
                    l as int,
                    b,
                )),
        decreases k + 1 - l,
    {
        let ghost b0 = bl.alg;
        proof {
            takes_all(&bl, &a0, f);
        }
        let wl = bl.with_loop(neg, 0, l);
        let ghost b1 = bl.alg;
        proof {
            b1.enc.keeps_trans(&b0.enc, &a0.enc);
        }
        let tk = match bl.alg.enc.trans(k, k + 1) {
            Ok(n) => n,
            Err(x) => {
                return Err(x);
            },
        };
        let ghost b2 = bl.alg;
        proof {
            b2.enc.keeps_trans(&b1.enc, &a0.enc);
        }
        let eq = bl.alg.enc.state_eq(k + 1, l);
        let ghost b3 = bl.alg;
        proof {
            b3.enc.keeps_trans(&b2.enc, &a0.enc);
        }
        let c1 = bl.alg.enc.join(tk, eq);
        let ghost b4 = bl.alg;
        proof {
            b4.enc.keeps_trans(&b3.enc, &a0.enc);
        }
        let c2 = bl.alg.enc.join(c1, wl);
        let ghost b5 = bl.alg;
        proof {
            b5.enc.keeps_trans(&b4.enc, &a0.enc);
        }
        let r2 = bl.alg.enc.cnf.or(r, c2);
        proof {
            bl.alg.enc.keeps_trans(&b5.enc, &a0.enc);
            assert forall|b: Bits| #[trigger] bl.alg.enc.cnf.eval(r2, b) == (b_sat(
                f,
                alg_word(&a0, b),
                k as nat,
                None
            )(0)
                || some_loop(alg_word(&a0, b), f, es, sys, k, l + 1, b)) by {
                let w = alg_word(&a0, b);
                same_words(&b0, &a0, b);
                assert(b1.value(wl, b) == b_sat(f, alg_word(&b0, b), k as nat, Some(l as nat))(0));
                assert(b4.enc.cnf.eval(wl, b) == b1.enc.cnf.eval(wl, b)) by {
                    assert(b3.enc.cnf.eval(wl, b) == b2.enc.cnf.eval(wl, b));
                    assert(b2.enc.cnf.eval(wl, b) == b1.enc.cnf.eval(wl, b));
                }
                assert(b3.enc.cnf.eval(tk, b) == b2.enc.cnf.eval(tk, b));
                assert(b5.enc.cnf.eval(c2, b) == (b4.enc.cnf.eval(c1, b) && b4.enc.cnf.eval(wl, b)));
                assert(b4.enc.cnf.eval(c1, b) == (b3.enc.cnf.eval(tk, b) && b3.enc.cnf.eval(eq, b)));
                assert(b5.enc.cnf.eval(c2, b) == loop_at(w, f, es, sys, k, l, b));
                assert(b5.enc.cnf.eval(r, b) == b0.enc.cnf.eval(r, b)) by {
                    assert(b4.enc.cnf.eval(r, b) == b3.enc.cnf.eval(r, b));
                    assert(b3.enc.cnf.eval(r, b) == b2.enc.cnf.eval(r, b));
                    assert(b2.enc.cnf.eval(r, b) == b1.enc.cnf.eval(r, b));
                    assert(b1.enc.cnf.eval(r, b) == b0.enc.cnf.eval(r, b));
                }
                if some_loop(w, f, es, sys, k, l + 1, b) {
                    let m = choose|m: usize| m < l + 1 && #[trigger] loop_at(w, f, es, sys, k, m, b);
                    if m < l {
                        assert(some_loop(w, f, es, sys, k, l as int, b));
                    }
                }
                if some_loop(w, f, es, sys, k, l as int, b) {
                    let m = choose|m: usize| m < l && #[trigger] loop_at(w, f, es, sys, k, m, b);
                    assert(some_loop(w, f, es, sys, k, l + 1, b));
                }
            }
        }
        r = r2;
        l += 1;
    }
    Ok((bl.alg.enc, r))
}

proof fn same_words<'m>(a: &CnfAlg<'m>, b: &CnfAlg<'m>, x: Bits)
    requires
        a.enc.keeps(&b.enc),
    ensures
        alg_word(a, x) == alg_word(b, x),
{
    assert(alg_word(a, x) =~= alg_word(b, x)) by {
        assert forall|i: nat, e: FE| #[trigger] alg_word(a, x)(i, e) == alg_word(b, x)(i, e) by {}
    }
}

proof fn takes_all<'m>(bl: &BoundedLtl<CnfAlg<'m>>, a: &CnfAlg<'m>, f: NN)
    requires
        bl.alg.enc.wf(),
        bl.k < usize::MAX,
        bl.alg.enc.sys() == a.enc.sys(),
        nn_atoms(f, |e: FE| is_condition(e, a.enc.sys().leaves)),
    ensures
        bl.takes(f),
{
    let p = |e: FE| is_condition(e, a.enc.sys().leaves);
    let q = |e: FE| bl.alg.takes(e);
    assert forall|e: FE| #[trigger] p(e) == q(e) by {}
    assert(p =~= q);
}

/// All conditions of the system, and the lemmas, are conditions on its leaves.
pub open spec fn checkable(flat: &FlatModule, lemmas: Seq<FE>) -> bool {
    flat.sys().well_typed() && all_sort(typeds(lemmas, flat.sys().leaves), Sort::B)
}

/// Why a search ends without an outcome: the system cannot be encoded, or the question is not `typed`.
pub open spec fn excused(flat: &FlatModule, x: EngineError, typed: bool) -> bool {
    match x {
        EngineError::Eval(_) => !typed,
        _ => enc_error(flat, x),
    }
}

/// Searches for a run of exactly `k` steps with a witness.
fn search_at(flat: &FlatModule, neg: &Ltl, k: usize, lemmas: &Vec<FExpr>) -> (r: Result<
    Option<Vec<Vec<Value>>>,
    EngineError,
>)
    requires
        k < usize::MAX - 1,
        nn_atoms(neg.model(), |e: FE| is_condition(e, flat.sys().leaves)),
    ensures
        match r {
            Ok(Some(s)) => {
                &&& s@.len() == k + 1
                &&& flat.sys().run(states_of(s@))
                &&& holds_along(fe_models(lemmas@), states_of(s@))
                &&& witness(flat.sys(), neg.model(), states_of(s@))
            },
            Ok(None) => forall|p: Seq<State>| #[trigger]
                flat.sys().run(p) && p.len() == k + 1 && holds_along(fe_models(lemmas@), p) ==> !witness(
                    flat.sys(),
                    neg.model(),
                    p,
                ),
            Err(x) => excused(flat, x, checkable(flat, fe_models(lemmas@))),
        },
{
    let ghost sys = flat.sys();
    let ghost ls = fe_models(lemmas@);
    let ghost f = neg.model();
    let mut enc = match BmcEnc::new(flat) {
        Ok(e) => e,
        Err(x) => {
            return Err(x);
        },
    };
    let path = match enc.path(true, k, lemmas) {
        Ok(n) => n,
        Err(x) => {
            return Err(x);
        },
    };
    let ghost e1 = enc;
    let ghost es = enc.es();
    let (mut enc, prop) = match property(enc, neg, k) {
        Ok(x) => x,
        Err(x) => {
            return Err(x);
        },
    };
    let ghost e2 = enc;
    let all = enc.join(path, prop);
    let mut assumed: Vec<Lit> = Vec::new();
    assumed.push(all);
    let ghost alg = CnfAlg { enc: e1 };
    proof {
        assert forall|b: Bits| #[trigger] enc.cnf.eval(all, b) == (path_ok(
            es,
            sys,
            true,
            ls,
            k as nat,
            b
        ) && (b_sat(
            f,
            alg_word(&alg, b),
            k as nat,
            None,
        )(0) || some_loop(alg_word(&alg, b), f, es, sys, k, k + 1, b))) by {
            assert(e2.cnf.eval(path, b) == e1.cnf.eval(path, b));
        }
    }
    match solve(&enc.cnf, &assumed) {
        None => {
            proof {
                assert forall|p: Seq<State>| #[trigger] sys.run(p) && p.len() == k + 1
                    && holds_along(ls, p) implies !witness(
                    sys,
                    f,
                    p,
                ) by {
                    if witness(sys, f, p) {
                        let b = witness_bits(&e1, sys, f, ls, k, p);
                        assert(enc.cnf.eval(all, b));
                        let m = enc.cnf.model_of(b);
                        assert(lit_true(assumed@[0], m));
                    }
                }
            }
            Ok(None)
        },
        Some(m) => {
            let ghost mm = as_model(m@);
            let ghost mut bits: Bits = arbitrary();
            proof {
                let b = enc.cnf.inputs_of(mm);
                assert(lit_true(assumed@[0], mm));
                assert(enc.cnf.eval(all, b));
                assert(enc.gives(mm, b));
                assert(dom_at(es, 0, b));
                assert forall|l: int| 0 <= l < enc.es().len() implies (#[trigger] enc.es()[l]).values@.len() > 0 by {
                    assert(leaf_out(es[l], l as u32, 0, b) is Some);
                }
                bits = b;
            }
            let states = enc.decode(&m, k);
            proof {
                let b = bits;
                let p = path_at(es, k as nat, b);
                assert(states_of(states@) =~= p) by {
                    assert forall|t: int| 0 <= t <= k implies #[trigger] states_of(states@)[t] == p[t] by {
                        assert(dom_at(es, t as usize, b));
                    }
                }
                words_agree(&alg, k, b);
                let w = path_word(p);
                let v = alg_word(&alg, b);
                assert(sys.run(p));
                if b_sat(f, v, k as nat, None)(0) {
                    crate::bounded::b_local(f, w, v, k as nat, None, 0);
                } else {
                    let l = choose|l: usize| l < k + 1 && #[trigger] loop_at(v, f, es, sys, k, l, b);
                    closed_edge(es, sys, k, l, b);
                    crate::bounded::b_local(f, w, v, k as nat, Some(l as nat), 0);
                    assert(loop_witness(sys, f, p, l as nat));
                }
            }
            Ok(Some(states))
        },
    }
}

/// Inputs under which the encoding of a path with a witness holds.
proof fn witness_bits(e1: &BmcEnc, sys: Sys, f: NN, ls: Seq<FE>, k: usize, p: Seq<State>) -> (b: Bits)
    requires
        e1.wf(),
        sys == e1.sys(),
        k < usize::MAX - 1,
        sys.run(p),
        p.len() == k + 1,
        holds_along(ls, p),
        witness(sys, f, p),
    ensures
        path_ok(e1.es(), sys, true, ls, k as nat, b),
        ({
            let w = alg_word(&(CnfAlg { enc: *e1 }), b);
            b_sat(f, w, k as nat, None)(0) || some_loop(w, f, e1.es(), sys, k, k + 1, b)
        }),
{
    let es = e1.es();
    let n = (k + 1) as usize;
    let looped = !b_sat(f, path_word(p), k as nat, None)(0);
    let l = choose|l: nat| l < p.len() && #[trigger] loop_witness(sys, f, p, l);
    let tr = |t: usize|
        if t <= k {
            p[t as int]
        } else {
            p[l as int]
        };
    let b = bits_of(es, tr);
    let alg = CnfAlg { enc: *e1 };
    run_encoded(e1, sys, tr, k, p);
    let q = path_at(es, k as nat, b);
    assert(q =~= p);
    words_agree(&alg, k, b);
    let w = alg_word(&alg, b);
    if looped {
        assert(loop_witness(sys, f, p, l));
        e1.frames_ok(n, n);
        states_encoded(es, sys, tr, n);
        frame_leaves(Frame { es, cur: k, next: n }, b);
        frame_leaves(Frame { es, cur: n, next: n }, b);
        assert(moves(es, sys, k, n, b));
        let lu = l as usize;
        assert forall|a: u32, c: u32| (a < es.len() && c < es[a as int].bits || a == es.len() && c < 0) implies
            #[trigger] b(Input::Bit(a, c, n)) == b(Input::Bit(a, c, lu)) by {
            assert(tr(n) == tr(lu));
        }
        assert(equal_bits(es, n, lu, b));
        crate::bounded::b_local(f, path_word(p), w, k as nat, Some(l), 0);
        assert(loop_at(w, f, es, sys, k, lu, b));
    } else {
        crate::bounded::b_local(f, path_word(p), w, k as nat, None, 0);
    }
    b
}

/// The encoded states are those of the sequence.
proof fn run_encoded(e1: &BmcEnc, sys: Sys, tr: spec_fn(usize) -> State, k: usize, p: Seq<State>)
    requires
        e1.wf(),
        sys == e1.sys(),
        p.len() == k + 1,
        window(sys, p),
        forall|t: usize| t <= k ==> #[trigger] tr(t) == p[t as int],
    ensures
        all_dom(e1.es(), k as nat, bits_of(e1.es(), tr)),
        path_at(e1.es(), k as nat, bits_of(e1.es(), tr)) == p,
{
    let es = e1.es();
    let b = bits_of(es, tr);
    assert forall|t: usize| t <= k implies #[trigger] dom_at(es, t, b) && state_at(es, t, b) == p[t as int] by {
        e1.frames_ok(t, t);
        assert(tr(t) == p[t as int]);
        if t > 0 {
            assert(sys.step(p[t - 1], p[t - 1 + 1]));
        }
        states_encoded(es, sys, tr, t);
    }
    assert(path_at(es, k as nat, b) =~= p) by {
        assert forall|i: int| 0 <= i < p.len() implies #[trigger] path_at(es, k as nat, b)[i] == p[i] by {
            assert(dom_at(es, i as usize, b));
        }
    }
}

/// Searches for a counterexample of up to `depth` steps: a run, along which the lemmas hold, with
/// a witness for the negation of the formula. None with fewer steps is one.
pub fn bmc_search(flat: &FlatModule, formula: &TFormula, depth: usize, lemmas: &Vec<FExpr>) -> (r: Result<
    BmcResult,
    EngineError,
>)
    requires
        depth < usize::MAX - 1,
    ensures
        match r {
            Ok(BmcResult::Counterexample(s)) => {
                &&& nnf(formula.model(), true) is Some
                &&& 0 < s@.len() <= depth + 1
                &&& flat.sys().run(states_of(s@))
                &&& holds_along(fe_models(lemmas@), states_of(s@))
                &&& witness(flat.sys(), nnf(formula.model(), true)->0, states_of(s@))
                &&& forall|p: Seq<State>| #[trigger]
                    flat.sys().run(p) && p.len() < s@.len() && holds_along(fe_models(lemmas@), p) ==> !witness(
                        flat.sys(),
                        nnf(formula.model(), true)->0,
                        p,
                    )
            },
            Ok(BmcResult::NoCe(d)) => {
                &&& d == depth
                &&& nnf(formula.model(), true) is Some
                &&& forall|p: Seq<State>| #[trigger]
                    flat.sys().run(p) && p.len() <= depth + 1 && holds_along(fe_models(lemmas@), p) ==> !witness(
                        flat.sys(),
                        nnf(formula.model(), true)->0,
                        p,
                    )
            },
            Ok(_) => false,
            Err(x) => excused(
                flat,
                x,
                checkable(flat, fe_models(lemmas@)) && nnf(formula.model(), true) is Some && nn_atoms(
                    nnf(formula.model(), true)->0,
                    |e: FE| is_condition(e, flat.sys().leaves),
                ),
            ),
        },
{
    let neg = match to_nnf(formula, true) {
        Ok(n) => n,
        Err(m) => {
            return Err(EngineError::Eval(m));
        },
    };
    if !crate::sorts::atoms_ok(&neg, &flat.leaves) {
        return Err(EngineError::Eval(own("atom encoding failed")));
    }
    let mut k: usize = 0;
    while k <= depth
        invariant
            k <= depth + 1,
            depth < usize::MAX - 1,
            nnf(formula.model(), true) == Some(neg.model()),
            nn_atoms(neg.model(), |e: FE| is_condition(e, flat.sys().leaves)),
            forall|p: Seq<State>| #[trigger]
                flat.sys().run(p) && p.len() <= k && holds_along(fe_models(lemmas@), p) ==> !witness(
                    flat.sys(),
                    neg.model(),
                    p,
                ),
        decreases depth + 1 - k,
    {
        match search_at(flat, &neg, k, lemmas) {
            Err(x) => {
                return Err(x);
            },
            Ok(Some(s)) => {
                return Ok(BmcResult::Counterexample(s));
            },
            Ok(None) => {},
        }
        k += 1;
    }
    Ok(BmcResult::NoCe(depth))
}

/// Searches for a counterexample of exactly `k` steps: a run, along which the lemmas hold, with a witness for the
/// negation of the formula.
pub fn bmc_at(flat: &FlatModule, formula: &TFormula, k: usize, lemmas: &Vec<FExpr>) -> (r: Result<
    Option<Vec<Vec<Value>>>,
    EngineError,
>)
    requires
        k < usize::MAX - 1,
    ensures
        match r {
            Ok(Some(s)) => {
                &&& nnf(formula.model(), true) is Some
                &&& s@.len() == k + 1
                &&& flat.sys().run(states_of(s@))
                &&& holds_along(fe_models(lemmas@), states_of(s@))
                &&& witness(flat.sys(), nnf(formula.model(), true)->0, states_of(s@))
            },
            Ok(None) => {
                &&& nnf(formula.model(), true) is Some
                &&& forall|p: Seq<State>| #[trigger]
                    flat.sys().run(p) && p.len() == k + 1 && holds_along(fe_models(lemmas@), p) ==> !witness(
                        flat.sys(),
                        nnf(formula.model(), true)->0,
                        p,
                    )
            },
            Err(x) => excused(
                flat,
                x,
                checkable(flat, fe_models(lemmas@)) && nnf(formula.model(), true) is Some && nn_atoms(
                    nnf(formula.model(), true)->0,
                    |e: FE| is_condition(e, flat.sys().leaves),
                ),
            ),
        },
{
    let neg = match to_nnf(formula, true) {
        Ok(n) => n,
        Err(m) => {
            return Err(EngineError::Eval(m));
        },
    };
    if !crate::sorts::atoms_ok(&neg, &flat.leaves) {
        return Err(EngineError::Eval(own("atom encoding failed")));
    }
    search_at(flat, &neg, k, lemmas)
}

/// A window of `k + 2` states along which the lemmas hold, and in all but the last of which the
/// property holds.
pub open spec fn gap(sys: Sys, prop: FE, lemmas: Seq<FE>, k: nat, p: Seq<State>) -> bool {
    &&& window(sys, p)
    &&& p.len() == k + 2
    &&& holds_along(lemmas, p)
    &&& forall|i: int| 0 <= i <= k ==> holds_in(prop, #[trigger] p[i])
    &&& !holds_in(prop, p[(k + 1) as int])
}

impl<'m> BmcEnc<'m> {
    /// A literal for: the property holds at the steps below `n`.
    fn always(&mut self, prop: &FExpr, n: usize) -> (r: Result<Lit, EngineError>)
        requires
            old(self).wf(),
        ensures
            final(self).wf(),
            final(self).keeps(old(self)),
            match r {
                Ok(l) => final(self).cnf.valid(l) && forall|b: Bits| #[trigger]
                    final(self).cnf.eval(l, b) == held_below(old(self).es(), prop.model(), n as int, b),
                Err(x) => x is Eval && !is_condition(prop.model(), old(self).sys().leaves),
            },
    {
        let ghost o = *self;
        proof {
            self.cnf.constants_meaning();
        }
        let mut r = tt();
        let mut t: usize = 0;
        while t < n
            invariant
                t <= n,
                o == *old(self),
                o.wf(),
                self.wf(),
                self.keeps(&o),
                self.cnf.valid(r),
                forall|b: Bits| #[trigger]
                    self.cnf.eval(r, b) == held_below(o.es(), prop.model(), t as int, b),
            decreases n - t,
        {
            let ghost a0 = *self;
            let c = match self.enc_bool(prop, t, t) {
                Ok(c) => c,
                Err(x) => {
                    proof {
                        self.keeps_trans(&a0, &o);
                    }
                    return Err(x);
                },
            };
            let ghost a1 = *self;
            proof {
                a1.keeps_trans(&a0, &o);
            }
            let r2 = self.join(r, c);
            proof {
                self.keeps_trans(&a1, &o);
                assert forall|b: Bits| #[trigger] self.cnf.eval(r2, b) == held_below(
                    o.es(),
                    prop.model(),
                    t + 1,
                    b,
                ) by {
                    assert(a1.cnf.eval(r, b) == a0.cnf.eval(r, b));
                    assert(a1.cnf.eval(c, b) == held_at(o.es(), prop.model(), t, b));
                    if held_below(o.es(), prop.model(), t + 1, b) {
                        assert(held_at(o.es(), prop.model(), t, b));
                    }
                }
            }
            r = r2;
            t += 1;
        }
        Ok(r)
    }
}

/// The property holds at a step.
spec fn held_at(es: Seq<LeafBits>, prop: FE, t: usize, b: Bits) -> bool {
    holds(sem(prop, leaves_at(Frame { es, cur: t, next: t }, b)))
}

spec fn held_below(es: Seq<LeafBits>, prop: FE, n: int, b: Bits) -> bool {
    forall|t: usize| t < n ==> #[trigger] held_at(es, prop, t, b)
}

proof fn held_in_path(es: Seq<LeafBits>, prop: FE, k: usize, t: usize, b: Bits)
    requires
        t <= k,
        all_dom(es, k as nat, b),
    ensures
        held_at(es, prop, t, b) == holds_in(prop, path_at(es, k as nat, b)[t as int]),
{
    assert(dom_at(es, t, b));
    frame_leaves(Frame { es, cur: t, next: t }, b);
}

/// The states of a model that satisfies a literal.
fn states_from<'m>(
    enc: &BmcEnc<'m>,
    m: &Vec<bool>,
    k: usize,
    all: Lit,
    Ghost(init): Ghost<bool>,
    Ghost(ls): Ghost<Seq<FE>>,
) -> (r: (Vec<Vec<Value>>, Ghost<Bits>))
    requires
        enc.wf(),
        k < usize::MAX,
        enc.cnf.valid(all),
        m@.len() == enc.cnf.count(),
        clauses_true(enc.cnf@, as_model(m@)),
        lit_true(all, as_model(m@)),
        forall|b: Bits| #[trigger] enc.cnf.eval(all, b) ==> path_ok(enc.es(), enc.sys(), init, ls, k as nat, b),
    ensures
        enc.cnf.eval(all, r.1@),
        states_of(r.0@) == path_at(enc.es(), k as nat, r.1@),
{
    let ghost mm = as_model(m@);
    let ghost mut bits: Bits = arbitrary();
    let ghost es = enc.es();
    proof {
        let b = enc.cnf.inputs_of(mm);
        assert(enc.cnf.eval(all, b));
        assert(enc.gives(mm, b));
        assert(dom_at(es, 0, b));
        assert forall|l: int| 0 <= l < enc.es().len() implies (#[trigger] enc.es()[l]).values@.len() > 0 by {
            assert(leaf_out(es[l], l as u32, 0, b) is Some);
        }
        bits = b;
    }
    let states = enc.decode(m, k);
    proof {
        let b = bits;
        let p = path_at(es, k as nat, b);
        assert(states_of(states@) =~= p) by {
            assert forall|t: int| 0 <= t <= k implies #[trigger] states_of(states@)[t] == p[t] by {
                assert(dom_at(es, t as usize, b));
            }
        }
    }
    (states, Ghost(bits))
}

/// The property holds in the first `k + 1` states of every run of that length, or there is one in
/// which it does not.
#[verifier::rlimit(40)]
fn base_case(flat: &FlatModule, prop: &FExpr, k: usize, lemmas: &Vec<FExpr>) -> (r: Result<
    Option<Vec<Vec<Value>>>,
    EngineError,
>)
    requires
        k < usize::MAX - 1,
    ensures
        match r {
            Ok(Some(s)) => {
                &&& s@.len() == k + 1
                &&& flat.sys().run(states_of(s@))
                &&& holds_along(fe_models(lemmas@), states_of(s@))
                &&& exists|i: int| 0 <= i <= k && !holds_in(prop.model(), #[trigger] states_of(s@)[i])
            },
            Ok(None) => forall|p: Seq<State>, i: int|
                flat.sys().run(p) && p.len() == k + 1 && holds_along(fe_models(lemmas@), p) && 0 <= i <= k
                    ==> holds_in(prop.model(), #[trigger] p[i]),
            Err(x) => excused(
                flat,
                x,
                checkable(flat, fe_models(lemmas@)) && is_condition(prop.model(), flat.sys().leaves),
            ),
        },
{
    let ghost sys = flat.sys();
    let ghost ls = fe_models(lemmas@);
    let ghost pm = prop.model();
    let mut enc = match BmcEnc::new(flat) {
        Ok(e) => e,
        Err(x) => {
            return Err(x);
        },
    };
    let path = match enc.path(true, k, lemmas) {
        Ok(n) => n,
        Err(x) => {
            return Err(x);
        },
    };
    let ghost e1 = enc;
    let ghost es = enc.es();
    let good = match enc.always(prop, k + 1) {
        Ok(n) => n,
        Err(x) => {
            return Err(x);
        },
    };
    let ghost e2 = enc;
    let all = enc.join(path, flip(good));
    let mut assumed: Vec<Lit> = Vec::new();
    assumed.push(all);
    proof {
        let bad = Lit { var: good.var, neg: !good.neg };
        assert forall|b: Bits| #[trigger] enc.cnf.eval(all, b) == (path_ok(
            es,
            sys,
            true,
            ls,
            k as nat,
            b
        ) && !held_below(
            es,
            pm,
            k + 1,
            b,
        )) by {
            assert(e2.cnf.eval(path, b) == e1.cnf.eval(path, b));
            assert(e2.cnf.eval(bad, b) == !e2.cnf.eval(good, b));
        }
    }
    match solve(&enc.cnf, &assumed) {
        Some(m) => {
            assert(lit_true(assumed@[0], as_model(m@)));
            let (states, Ghost(b)) = states_from(&enc, &m, k, all, Ghost(true), Ghost(ls));
            proof {
                let p = path_at(es, k as nat, b);
                let t = choose|t: usize| t < k + 1 && !#[trigger] held_at(es, pm, t, b);
                held_in_path(es, pm, k, t, b);
                assert(!holds_in(pm, states_of(states@)[t as int]));
                assert(sys.run(p));
            }
            Ok(Some(states))
        },
        None => {
            proof {
                assert forall|p: Seq<State>, i: int| sys.run(p) && p.len() == k + 1 && holds_along(ls, p) && 0 <= i
                    <= k implies holds_in(pm, #[trigger] p[i]) by {
                    if !holds_in(pm, p[i]) {
                        let tr = |t: usize| p[t as int];
                        let b = bits_of(es, tr);
                        run_encoded(&e1, sys, tr, k, p);
                        held_in_path(es, pm, k, i as usize, b);
                        assert(!held_at(es, pm, i as usize, b));
                        assert(enc.cnf.eval(all, b));
                        let m = enc.cnf.model_of(b);
                        assert(lit_true(assumed@[0], m));
                    }
                }
            }
            Ok(None)
        },
    }
}

/// Whether the property can fail after `k + 1` states in which it holds.
fn step_case(flat: &FlatModule, prop: &FExpr, k: usize, lemmas: &Vec<FExpr>) -> (r: Result<bool, EngineError>)
    requires
        k < usize::MAX - 1,
    ensures
        match r {
            Ok(fails) => fails == exists|p: Seq<State>| #[trigger]
                gap(flat.sys(), prop.model(), fe_models(lemmas@), k as nat, p),
            Err(x) => excused(
                flat,
                x,
                checkable(flat, fe_models(lemmas@)) && is_condition(prop.model(), flat.sys().leaves),
            ),
        },
{
    let ghost sys = flat.sys();
    let ghost ls = fe_models(lemmas@);
    let ghost pm = prop.model();
    let n: usize = k + 1;
    let mut enc = match BmcEnc::new(flat) {
        Ok(e) => e,
        Err(x) => {
            return Err(x);
        },
    };
    let path = match enc.path(false, n, lemmas) {
        Ok(n) => n,
        Err(x) => {
            return Err(x);
        },
    };
    let ghost f1 = enc;
    let ghost fs = enc.es();
    let good = match enc.always(prop, n) {
        Ok(n) => n,
        Err(x) => {
            return Err(x);
        },
    };
    let ghost f2 = enc;
    let last = match enc.enc_bool(prop, n, n) {
        Ok(n) => n,
        Err(x) => {
            return Err(x);
        },
    };
    let ghost f3 = enc;
    proof {
        f3.keeps_trans(&f2, &f1);
    }
    let c = enc.join(path, good);
    let ghost f4 = enc;
    let all = enc.join(c, flip(last));
    let mut assumed: Vec<Lit> = Vec::new();
    assumed.push(all);
    proof {
        let bad = Lit { var: last.var, neg: !last.neg };
        assert forall|b: Bits| #[trigger] enc.cnf.eval(all, b) == (path_ok(
            fs,
            sys,
            false,
            ls,
            n as nat,
            b
        ) && held_below(
            fs,
            pm,
            n as int,
            b,
        ) && !held_at(fs, pm, n, b)) by {
            assert(f3.cnf.eval(path, b) == f1.cnf.eval(path, b));
            assert(f3.cnf.eval(good, b) == f2.cnf.eval(good, b));
            assert(f4.cnf.eval(bad, b) == !f4.cnf.eval(last, b));
            assert(f4.cnf.eval(last, b) == f3.cnf.eval(last, b));
            assert(f4.cnf.eval(c, b) == (f3.cnf.eval(path, b) && f3.cnf.eval(good, b)));
            assert(f3.cnf.eval(last, b) == held_at(fs, pm, n, b));
        }
    }
    match solve(&enc.cnf, &assumed) {
        Some(m) => {
            proof {
                let mm = as_model(m@);
                let b = enc.cnf.inputs_of(mm);
                assert(lit_true(assumed@[0], mm));
                assert(enc.cnf.eval(all, b));
                let p = path_at(fs, n as nat, b);
                assert forall|i: int| 0 <= i <= k implies holds_in(pm, #[trigger] p[i]) by {
                    held_in_path(fs, pm, n, i as usize, b);
                    assert(held_at(fs, pm, i as usize, b));
                }
                held_in_path(fs, pm, n, n, b);
                assert(gap(sys, pm, ls, k as nat, p));
            }
            Ok(true)
        },
        None => {
            proof {
                assert forall|p: Seq<State>| !#[trigger] gap(sys, pm, ls, k as nat, p) by {
                    if gap(sys, pm, ls, k as nat, p) {
                        let tr = |t: usize| p[t as int];
                        let b = bits_of(fs, tr);
                        run_encoded(&f1, sys, tr, n, p);
                        assert forall|t: usize| t < n implies #[trigger] held_at(fs, pm, t, b) by {
                            held_in_path(fs, pm, n, t, b);
                            assert(holds_in(pm, p[t as int]));
                        }
                        held_in_path(fs, pm, n, n, b);
                        assert(enc.cnf.eval(all, b));
                        let mm = enc.cnf.model_of(b);
                        assert(lit_true(assumed@[0], mm));
                    }
                }
            }
            Ok(false)
        },
    }
}

/// Proves an invariant by induction of depth `k`: it holds in the first `k + 1` states of every
/// run, and after `k + 1` states in which it holds it holds in the next. A run that ends earlier
/// is not looked at.
pub fn k_induction(
    flat: &FlatModule,
    prop: &FExpr,
    k: usize,
    lemmas: &Vec<FExpr>
) -> (r: Result<BmcResult, EngineError>)
    requires
        k < usize::MAX - 1,
    ensures
        match r {
            Ok(BmcResult::Counterexample(s)) => {
                &&& s@.len() == k + 1
                &&& flat.sys().run(states_of(s@))
                &&& holds_along(fe_models(lemmas@), states_of(s@))
                &&& exists|i: int| 0 <= i <= k && !holds_in(prop.model(), #[trigger] states_of(s@)[i])
            },
            Ok(BmcResult::Proved) => forall|p: Seq<State>, i: int|
                flat.sys().run(p) && p.len() > k && holds_along(fe_models(lemmas@), p) && 0 <= i < p.len()
                    ==> holds_in(prop.model(), #[trigger] p[i]),
            Ok(BmcResult::InductionFailed) => exists|p: Seq<State>| #[trigger]
                gap(flat.sys(), prop.model(), fe_models(lemmas@), k as nat, p),
            Ok(BmcResult::NoCe(_)) => false,
            Err(x) => excused(
                flat,
                x,
                checkable(flat, fe_models(lemmas@)) && is_condition(prop.model(), flat.sys().leaves),
            ),
        },
{
    match base_case(flat, prop, k, lemmas) {
        Err(x) => {
            return Err(x);
        },
        Ok(Some(s)) => {
            return Ok(BmcResult::Counterexample(s));
        },
        Ok(None) => {},
    }
    match step_case(flat, prop, k, lemmas) {
        Err(x) => Err(x),
        Ok(true) => Ok(BmcResult::InductionFailed),
        Ok(false) => {
            proof {
                let sys = flat.sys();
                let ls = fe_models(lemmas@);
                let pm = prop.model();
                assert forall|p: Seq<State>, i: int| sys.run(p) && p.len() > k && holds_along(ls, p) && 0 <= i
                    < p.len() implies holds_in(pm, #[trigger] p[i]) by {
                    induction_step(sys, pm, ls, k as nat, p, i);
                }
            }
            Ok(BmcResult::Proved)
        },
    }
}

proof fn induction_step(sys: Sys, pm: FE, ls: Seq<FE>, k: nat, p: Seq<State>, i: int)
    requires
        sys.run(p),
        p.len() > k,
        holds_along(ls, p),
        0 <= i < p.len(),
        forall|q: Seq<State>, j: int|
            sys.run(q) && q.len() == k + 1 && holds_along(ls, q) && 0 <= j <= k ==> holds_in(pm, #[trigger] q[j]),
        forall|q: Seq<State>| !#[trigger] gap(sys, pm, ls, k, q),
    ensures
        holds_in(pm, p[i]),
    decreases i,
{
    if i <= k {
        let q = p.take((k + 1) as int);
        assert(q[0] == p[0]);
        assert forall|j: int| 0 <= j < q.len() - 1 implies sys.step(#[trigger] q[j], q[j + 1]) by {
            assert(sys.step(p[j], p[j + 1]));
        }
        assert forall|j: int| 0 <= j < q.len() implies all_hold(sems(ls, state_leaves(#[trigger] q[j]))) by {
            assert(q[j] == p[j]);
        }
        assert(sys.run(q));
        assert(holds_in(pm, q[i]));
    } else {
        let lo = i - k - 1;
        let q = p.subrange(lo, i + 1);
        assert forall|j: int| 0 <= j < q.len() - 1 implies sys.step(#[trigger] q[j], q[j + 1]) by {
            assert(sys.step(p[lo + j], p[lo + j + 1]));
        }
        assert forall|j: int| 0 <= j < q.len() implies all_hold(sems(ls, state_leaves(#[trigger] q[j]))) by {
            assert(q[j] == p[lo + j]);
        }
        assert forall|j: int| 0 <= j <= k implies holds_in(pm, #[trigger] q[j]) by {
            induction_step(sys, pm, ls, k, p, lo + j);
        }
        assert(sys.step(p[lo], p[lo + 1]));
        assert(!gap(sys, pm, ls, k, q));
        assert(q[(k + 1) as int] == p[i]);
    }
}

} // verus!
