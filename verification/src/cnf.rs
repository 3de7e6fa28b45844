//! Propositional formulas in conjunctive normal form, built up gate by gate.
//!
//! Every variable is the constant, an input, or defined by its clauses as a function of the inputs.

use crate::tables::{table_get, table_insert, table_new, Key, Table};
use vstd::prelude::*;

verus! {

/// A literal: a variable or its negation.
#[derive(Clone, Copy, Debug, PartialEq, Eq, Structural)]
pub struct Lit {
    pub var: usize,
    pub neg: bool,
}

/// The literal that always holds.
pub open spec fn top() -> Lit {
    Lit { var: 0, neg: false }
}

/// The literal that always holds.
#[verifier::when_used_as_spec(top)]
pub fn tt() -> (r: Lit)
    ensures
        r == top(),
{
    Lit { var: 0, neg: false }
}

/// The literal that never holds.
pub open spec fn bottom() -> Lit {
    Lit { var: 0, neg: true }
}

/// The literal that never holds.
#[verifier::when_used_as_spec(bottom)]
pub fn ff() -> (r: Lit)
    ensures
        r == bottom(),
{
    Lit { var: 0, neg: true }
}

/// The negation of a literal.
pub fn flip(l: Lit) -> (r: Lit)
    ensures
        r == (Lit { var: l.var, neg: !l.neg }),
{
    Lit { var: l.var, neg: !l.neg }
}

/// The negation of a literal.
pub open spec fn flipped(l: Lit) -> Lit {
    Lit { var: l.var, neg: !l.neg }
}

/// The negations of literals.
pub open spec fn all_flipped(xs: Seq<Lit>) -> Seq<Lit> {
    Seq::new(xs.len(), |i: int| flipped(xs[i]))
}

/// The place of a literal in the order of literals: negations first, then by the variable.
pub open spec fn rank(l: Lit) -> int {
    if l.neg {
        -1 - l.var
    } else {
        l.var as int
    }
}

/// A sorted list with a literal put in from place `i` on, unless it has it.
pub open spec fn put_in(s: Seq<Lit>, x: Lit, i: int) -> Seq<Lit>
    decreases s.len() - i,
{
    if i < 0 || i >= s.len() {
        s.push(x)
    } else if s[i] == x {
        s
    } else if rank(x) < rank(s[i]) {
        s.insert(i, x)
    } else {
        put_in(s, x, i + 1)
    }
}

/// The literals from number `i` on put into a sorted list, without repeats and without the literal that always holds.
pub open spec fn normal(xs: Seq<Lit>, i: int, acc: Seq<Lit>) -> Seq<Lit>
    decreases xs.len() - i,
{
    if i < 0 || i >= xs.len() {
        acc
    } else {
        normal(
            xs,
            i + 1,
            if xs[i] == top() {
                acc
            } else {
                put_in(acc, xs[i], 0)
            },
        )
    }
}

proof fn push_has(s: Seq<Lit>, x: Lit)
    ensures
        forall|y: Lit| #[trigger] s.push(x).contains(y) == (s.contains(y) || y == x),
{
    let t = s.push(x);
    assert forall|y: Lit| #[trigger] t.contains(y) == (s.contains(y) || y == x) by {
        if s.contains(y) {
            let k = choose|k: int| 0 <= k < s.len() && s[k] == y;
            assert(t[k] == y);
        }
        assert(t[s.len() as int] == x);
    }
}

proof fn put_in_has(s: Seq<Lit>, x: Lit, i: int)
    requires
        0 <= i <= s.len(),
    ensures
        put_in(s, x, i).len() <= s.len() + 1,
        forall|y: Lit| #[trigger] put_in(s, x, i).contains(y) == (s.contains(y) || y == x),
    decreases s.len() - i,
{
    let t = put_in(s, x, i);
    if i >= s.len() {
        push_has(s, x);
    } else if s[i] == x {
    } else if rank(x) < rank(s[i]) {
        assert forall|y: Lit| #[trigger] t.contains(y) == (s.contains(y) || y == x) by {
            if s.contains(y) {
                let k = choose|k: int| 0 <= k < s.len() && s[k] == y;
                assert(t[if k < i { k } else { k + 1 }] == y);
            }
            assert(t[i] == x);
            if t.contains(y) {
                let k = choose|k: int| 0 <= k < t.len() && t[k] == y;
                if k < i {
                    assert(s[k] == y);
                } else if k > i {
                    assert(s[k - 1] == y);
                }
            }
        }
    } else {
        put_in_has(s, x, i + 1);
    }
}

proof fn normal_two(x: Lit, y: Lit)
    ensures
        normal(seq![x, y], 0, Seq::empty()).len() <= 2,
{
    reveal_with_fuel(normal, 4);
    reveal_with_fuel(put_in, 3);
}

/// Two literals in order give the same list whichever comes first.
pub proof fn normal_pair(x: Lit, y: Lit)
    ensures
        normal(seq![x, y], 0, Seq::empty()) == normal(seq![y, x], 0, Seq::empty()),
{
    reveal_with_fuel(normal, 4);
    reveal_with_fuel(put_in, 3);
    assert(normal(seq![x, y], 0, Seq::empty()) =~= normal(seq![y, x], 0, Seq::empty()));
}

/// The clauses that make the variable `v` the conjunction of literals.
pub open spec fn defining(ys: Seq<Lit>, v: usize) -> Seq<Seq<Lit>> {
    Seq::new(
        ys.len() + 1,
        |k: int|
            if k < ys.len() {
                seq![Lit { var: v, neg: true }, ys[k]]
            } else {
                all_flipped(ys).push(Lit { var: v, neg: false })
            },
    )
}

/// The literals of clauses.
pub open spec fn clause_views(cs: Seq<Vec<Lit>>) -> Seq<Seq<Lit>> {
    Seq::new(cs.len(), |k: int| cs[k]@)
}

/// What an input variable stands for: a bit of a leaf at a step, or nothing in particular.
pub ghost enum Input {
    Bit(u32, u32, usize),
    Free(usize),
}

/// Truth values of the inputs.
pub type Bits = spec_fn(Input) -> bool;

/// A function of the inputs.
pub type CF = spec_fn(Bits) -> bool;

/// Truth values of the variables.
pub type Model = spec_fn(int) -> bool;

/// The literal holds.
pub open spec fn lit_true(l: Lit, m: Model) -> bool {
    m(l.var as int) != l.neg
}

/// Some literal of the clause holds.
pub open spec fn clause_true(c: Seq<Lit>, m: Model) -> bool {
    exists|i: int| 0 <= i < c.len() && lit_true(#[trigger] c[i], m)
}

/// All clauses hold.
pub open spec fn clauses_true(cs: Seq<Vec<Lit>>, m: Model) -> bool {
    forall|k: int| 0 <= k < cs.len() ==> clause_true((#[trigger] cs[k])@, m)
}

/// A formula in conjunctive normal form.
pub struct Cnf {
    clauses: Vec<Vec<Lit>>,
    /// For each variable whether it is an input.
    inputs: Vec<bool>,
    /// The variable of each bit.
    bitvars: Table,
    /// The gates of two literals that are there.
    gates: Table,
    /// What each input stands for.
    stands: Ghost<Seq<Input>>,
    /// What each variable means.
    means: Ghost<Seq<CF>>,
}

/// The variables' values for given inputs.
pub open spec fn values_of(means: Seq<CF>, b: Bits) -> Model {
    |v: int|
        if 0 <= v < means.len() {
            (means[v])(b)
        } else {
            false
        }
}

spec fn bit_key(leaf: u32, bit: u32, step: usize) -> Key {
    (leaf as u64, bit as u64, step as u64)
}

spec fn gate_key(x: Lit, y: Lit) -> Key {
    (
        x.var as u64,
        y.var as u64,
        if x.neg {
            if y.neg {
                3u64
            } else {
                1u64
            }
        } else {
            if y.neg {
                2u64
            } else {
                0u64
            }
        },
    )
}

impl Cnf {
    /// The clauses.
    pub closed spec fn view(&self) -> Seq<Vec<Lit>> {
        self.clauses@
    }

    /// The number of variables.
    pub closed spec fn count(&self) -> nat {
        self.inputs@.len()
    }

    /// What the variables mean.
    pub closed spec fn meanings(&self) -> Seq<CF> {
        self.means@
    }

    /// The literal's variable is there.
    pub open spec fn valid(&self, l: Lit) -> bool {
        l.var < self.count()
    }

    /// The literal's value for given inputs.
    pub open spec fn eval(&self, l: Lit, b: Bits) -> bool {
        (self.meanings()[l.var as int])(b) != l.neg
    }

    /// The model gives the inputs these values.
    pub closed spec fn reads(&self, m: Model, b: Bits) -> bool {
        forall|v: int|
            0 <= v < self.inputs@.len() && #[trigger] self.inputs@[v] ==> m(v) == b(self.stands@[v])
    }

    /// The variable that the conjunction of two literals has, if it has one.
    pub closed spec fn shared(&self, x: Lit, y: Lit) -> Option<usize> {
        if self.gates@.contains_key(gate_key(x, y)) {
            Some(self.gates@[gate_key(x, y)])
        } else {
            None
        }
    }

    /// The literal that the conjunction of literals has, if it needs no new variable.
    pub open spec fn conjunction(&self, xs: Seq<Lit>) -> Option<Lit> {
        let ys = normal(xs, 0, Seq::empty());
        if xs.contains(bottom()) {
            Some(bottom())
        } else if ys.len() == 0 {
            Some(top())
        } else if ys.len() == 1 {
            Some(ys[0])
        } else if ys.len() == 2 {
            match self.shared(ys[0], ys[1]) {
                Some(v) => Some(Lit { var: v, neg: false }),
                None => None,
            }
        } else {
            None
        }
    }

    /// What a conjunction does to the formula: nothing, where it has a literal; otherwise it adds a variable, with the
    /// clauses that define it, and a conjunction of two literals is found again.
    pub open spec fn conjoined(&self, old: &Cnf, xs: Seq<Lit>, r: Lit) -> bool {
        let ys = normal(xs, 0, Seq::empty());
        match old.conjunction(xs) {
            Some(l) => r == l && *self == *old,
            None => {
                &&& r.var == old.count()
                &&& !r.neg
                &&& self.count() == old.count() + 1
                &&& clause_views(self@) == clause_views(old@) + defining(ys, r.var)
                &&& forall|x: Lit, y: Lit| #[trigger]
                    self.shared(x, y) == if ys.len() == 2 && x == ys[0] && y == ys[1] {
                        Some(r.var)
                    } else {
                        old.shared(x, y)
                    }
            },
        }
    }

    /// The literal that the equality of two literals has, if it needs no new variable.
    pub open spec fn equality(&self, x: Lit, y: Lit) -> Option<Lit> {
        match (self.conjunction(seq![x, y]), self.conjunction(seq![flipped(x), flipped(y)])) {
            (Some(p), Some(q)) => match self.conjunction(seq![flipped(p), flipped(q)]) {
                Some(l) => Some(flipped(l)),
                None => None,
            },
            _ => None,
        }
    }

    /// The literal for the equality of two literals is the same whichever comes first.
    pub proof fn equality_symmetric(&self, x: Lit, y: Lit)
        ensures
            self.equality(x, y) == self.equality(y, x),
    {
        self.conjunction_symmetric(x, y);
        self.conjunction_symmetric(flipped(x), flipped(y));
    }

    /// The literal for the conjunction of two literals is the same whichever comes first.
    pub proof fn conjunction_symmetric(&self, x: Lit, y: Lit)
        ensures
            self.conjunction(seq![x, y]) == self.conjunction(seq![y, x]),
    {
        normal_pair(x, y);
        let a = seq![x, y];
        let b = seq![y, x];
        assert(a[0] == x && a[1] == y && b[0] == y && b[1] == x);
        assert(a.contains(bottom()) == b.contains(bottom())) by {
            if a.contains(bottom()) {
                let k = choose|k: int| 0 <= k < a.len() && a[k] == bottom();
                assert(b[1 - k] == bottom());
            }
            if b.contains(bottom()) {
                let k = choose|k: int| 0 <= k < b.len() && b[k] == bottom();
                assert(a[1 - k] == bottom());
            }
        }
    }

    /// After a conjunction it has a literal, and other conjunctions keep theirs.
    pub proof fn conjoined_again(&self, old: &Cnf, xs: Seq<Lit>, r: Lit, zs: Seq<Lit>)
        requires
            self.conjoined(old, xs, r),
            normal(xs, 0, Seq::empty()).len() <= 2,
        ensures
            self.conjunction(xs) == Some(r),
            old.conjunction(zs) is Some ==> self.conjunction(zs) == old.conjunction(zs),
    {
        if old.conjunction(xs) is None {
            let ys = normal(xs, 0, Seq::empty());
            assert(self.shared(ys[0], ys[1]) == Some(r.var));
            let us = normal(zs, 0, Seq::empty());
            if us.len() == 2 {
                assert(self.shared(us[0], us[1]) == if us[0] == ys[0] && us[1] == ys[1] {
                    Some(r.var)
                } else {
                    old.shared(us[0], us[1])
                });
            }
        }
    }

    /// The bit has a variable.
    pub closed spec fn has_bit(&self, leaf: u32, bit: u32, step: usize) -> bool {
        self.bitvars@.contains_key(bit_key(leaf, bit, step))
    }

    /// The variable of a bit.
    pub closed spec fn bit_of(&self, leaf: u32, bit: u32, step: usize) -> int {
        self.bitvars@[bit_key(leaf, bit, step)] as int
    }

    spec fn basic(&self) -> bool {
        &&& self.inputs@.len() == self.means@.len()
        &&& self.inputs@.len() == self.stands@.len()
        &&& self.inputs@.len() > 0
        &&& !self.inputs@[0]
        &&& forall|b: Bits| #[trigger] (self.means@[0])(b)
        &&& forall|v: int, b: Bits|
            0 <= v < self.inputs@.len() && self.inputs@[v] ==> #[trigger] (self.means@[v])(b) == b(
                self.stands@[v],
            )
        &&& forall|k: int, i: int|
            0 <= k < self.clauses@.len() && 0 <= i < self.clauses@[k]@.len() ==> (
            #[trigger] self.clauses@[k]@[i]).var < self.inputs@.len()
    }

    /// Every input is found under what it stands for.
    spec fn inputs_known(&self) -> bool {
        forall|v: int|
            0 <= v < self.inputs@.len() && self.inputs@[v] ==> match #[trigger] self.stands@[v] {
                Input::Bit(l, k, t) => self.has_bit(l, k, t) && self.bit_of(l, k, t) == v,
                Input::Free(w) => w == v,
            }
    }

    spec fn tables_ok(&self) -> bool {
        &&& forall|l: u32, k: u32, t: usize| #[trigger]
            self.bitvars@.contains_key(bit_key(l, k, t)) ==> {
                let v = self.bitvars@[bit_key(l, k, t)];
                v < self.inputs@.len() && self.inputs@[v as int] && self.stands@[v as int] == Input::Bit(l, k, t)
            }
        &&& forall|x: Lit, y: Lit| #[trigger]
            self.gates@.contains_key(gate_key(x, y)) ==> {
                let v = self.gates@[gate_key(x, y)];
                v < self.inputs@.len() && x.var < self.inputs@.len() && y.var < self.inputs@.len() && forall|
                    b: Bits,
                | #[trigger]
                    (self.means@[v as int])(b) == (self.eval(x, b) && self.eval(y, b))
            }
    }

    /// The clauses hold for the meanings of the variables, and for nothing else: a model of the
    /// clauses that gives the inputs some values gives every variable what it means for them.
    pub closed spec fn wf(&self) -> bool {
        &&& self.basic()
        &&& self.tables_ok()
        &&& self.inputs_known()
        &&& forall|b: Bits| #[trigger] clauses_true(self.clauses@, values_of(self.means@, b))
        &&& forall|m: Model, b: Bits|
            #![trigger clauses_true(self.clauses@, m), self.reads(m, b)]
            clauses_true(self.clauses@, m) && self.reads(m, b) ==> self.follows(m, b)
    }

    /// The model gives every variable what it means.
    pub open spec fn follows(&self, m: Model, b: Bits) -> bool {
        forall|v: int| 0 <= v < self.count() ==> m(v) == #[trigger] (self.meanings()[v])(b)
    }

    /// The literals of `old` mean the same.
    pub open spec fn keeps(&self, old: &Cnf) -> bool {
        &&& old.count() <= self.count()
        &&& old@.len() <= self@.len()
        &&& forall|k: int| 0 <= k < old@.len() ==> #[trigger] self@[k] == old@[k]
        &&& forall|v: int|
            0 <= v < old.count() ==> #[trigger] self.meanings()[v] == old.meanings()[v]
        &&& forall|l: Lit, b: Bits| old.valid(l) ==> #[trigger] self.eval(l, b) == old.eval(l, b)
    }

    /// The clauses speak of the variables that are there.
    pub proof fn clause_range(&self)
        requires
            self.wf(),
        ensures
            forall|k: int, i: int|
                0 <= k < self@.len() && 0 <= i < self@[k]@.len() ==> (#[trigger] self@[k]@[i]).var < self.count(),
    {
    }

    /// The constant literals.
    pub proof fn constants_meaning(&self)
        requires
            self.wf(),
        ensures
            self.valid(tt()),
            self.valid(ff()),
            forall|b: Bits| #[trigger] self.eval(tt(), b),
            forall|b: Bits| !#[trigger] self.eval(ff(), b),
    {
        assert forall|b: Bits| #[trigger] self.eval(tt(), b) by {
            assert((self.means@[0])(b));
        }
        assert forall|b: Bits| !#[trigger] self.eval(ff(), b) by {
            assert((self.means@[0])(b));
        }
    }

    /// The inputs of a model, and what the literals are for them.
    pub proof fn inputs_of(&self, m: Model) -> (b: Bits)
        requires
            self.wf(),
            clauses_true(self@, m),
        ensures
            forall|l: Lit| self.valid(l) ==> lit_true(l, m) == #[trigger] self.eval(l, b),
            forall|l: u32, k: u32, t: usize| #[trigger]
                self.has_bit(l, k, t) ==> b(Input::Bit(l, k, t)) == m(self.bit_of(l, k, t)),
            forall|l: u32, k: u32, t: usize| !#[trigger] self.has_bit(l, k, t) ==> !b(Input::Bit(l, k, t)),
    {
        let b = |i: Input|
            match i {
                Input::Bit(l, k, t) => self.has_bit(l, k, t) && m(self.bit_of(l, k, t)),
                Input::Free(v) => m(v as int),
            };
        assert(self.reads(m, b));
        assert(self.follows(m, b));
        assert forall|l: Lit| self.valid(l) implies lit_true(l, m) == #[trigger] self.eval(l, b) by {
            assert(m(l.var as int) == (self.meanings()[l.var as int])(b));
        }
        b
    }

    /// For any inputs there is a model of the clauses.
    pub proof fn model_of(&self, b: Bits) -> (m: Model)
        requires
            self.wf(),
        ensures
            clauses_true(self@, m),
            forall|l: Lit| self.valid(l) ==> lit_true(l, m) == #[trigger] self.eval(l, b),
    {
        let m = values_of(self.means@, b);
        assert(clauses_true(self.clauses@, values_of(self.means@, b)));
        m
    }

    /// A formula without inputs.
    pub fn new() -> (r: Cnf)
        ensures
            r.wf(),
            r.count() == 1,
            clause_views(r@) == seq![seq![top()]],
            forall|x: Lit, y: Lit| (#[trigger] r.shared(x, y)) is None,
            forall|l: u32, k: u32, t: usize| !#[trigger] r.has_bit(l, k, t),
    {
        let unit = vec![tt()];
        let mut clauses: Vec<Vec<Lit>> = Vec::new();
        clauses.push(unit);
        let mut inputs: Vec<bool> = Vec::new();
        inputs.push(false);
        let ghost stands = seq![Input::Free(0)];
        let ghost means: Seq<CF> = seq![|b: Bits| true];
        let r = Cnf {
            clauses,
            inputs,
            bitvars: table_new(),
            gates: table_new(),
            stands: Ghost(stands),
            means: Ghost(means),
        };
        proof {
            assert(r.clauses@[0]@ =~= seq![tt()]);
            assert(clause_views(r@) =~= seq![seq![top()]]);
            assert forall|b: Bits| #[trigger] clauses_true(r.clauses@, values_of(r.means@, b)) by {
                let m = values_of(r.means@, b);
                assert(lit_true(r.clauses@[0]@[0], m));
            }
            assert forall|m: Model, b: Bits|
                #![trigger clauses_true(r.clauses@, m), r.reads(m, b)]
                clauses_true(r.clauses@, m) && r.reads(m, b) implies r.follows(m, b) by {
                assert(clause_true(r.clauses@[0]@, m));
                let i = choose|i: int| 0 <= i < r.clauses@[0]@.len() && lit_true(#[trigger] r.clauses@[0]@[i], m);
                assert(r.clauses@[0]@[i] == tt());
            }
        }
        r
    }

    /// The number of variables.
    pub fn size(&self) -> (r: usize)
        ensures
            r == self.count(),
    {
        self.inputs.len()
    }

    /// The clauses.
    pub fn clauses(&self) -> (r: &Vec<Vec<Lit>>)
        ensures
            r@ == self@,
    {
        &self.clauses
    }

    /// The variable of a bit, if it has one.
    pub fn find_bit(&self, leaf: u32, bit: u32, step: usize) -> (r: Option<usize>)
        requires
            self.wf(),
        ensures
            match r {
                Some(v) => self.has_bit(leaf, bit, step) && v == self.bit_of(leaf, bit, step) && v
                    < self.count(),
                None => !self.has_bit(leaf, bit, step),
            },
    {
        proof {
            assert(self.bitvars@.contains_key(bit_key(leaf, bit, step)) == self.has_bit(leaf, bit, step));
        }
        table_get(&self.bitvars, (leaf as u64, bit as u64, step as u64))
    }

    /// Adds an input.
    fn add_input(&mut self, Ghost(i): Ghost<Input>) -> (r: usize)
        requires
            old(self).basic(),
            forall|b: Bits| #[trigger] clauses_true(old(self).clauses@, values_of(old(self).means@, b)),
            forall|m: Model, b: Bits|
                #![trigger clauses_true(old(self).clauses@, m), old(self).reads(m, b)]
                clauses_true(old(self).clauses@, m) && old(self).reads(m, b) ==> old(self).follows(m, b),
        ensures
            r == old(self).count(),
            final(self).basic(),
            final(self).keeps(old(self)),
            final(self).count() == r + 1,
            final(self).clauses == old(self).clauses,
            final(self).bitvars == old(self).bitvars,
            final(self).gates == old(self).gates,
            final(self).inputs@ == old(self).inputs@.push(true),
            final(self).stands@ == old(self).stands@.push(i),
            final(self).means@ == old(self).means@.push(|b: Bits| b(i)),
            forall|b: Bits| #[trigger] clauses_true(final(self).clauses@, values_of(final(self).means@, b)),
            forall|m: Model, b: Bits|
                #![trigger clauses_true(final(self).clauses@, m), final(self).reads(m, b)]
                clauses_true(final(self).clauses@, m) && final(self).reads(m, b) ==> final(self).follows(m, b),
    {
        let ghost o = *self;
        let v: usize = self.inputs.len();
        self.inputs.push(true);
        proof {
            self.stands@ = self.stands@.push(i);
            self.means@ = self.means@.push(|b: Bits| b(i));
            assert(self.means@.take(o.means@.len() as int) =~= o.means@);
            self.added_keeps(&o);
            assert forall|m: Model, b: Bits|
                #![trigger clauses_true(self.clauses@, m), self.reads(m, b)]
                clauses_true(self.clauses@, m) && self.reads(m, b) implies self.follows(m, b) by {
                assert forall|w: int| 0 <= w < o.inputs@.len() && #[trigger] o.inputs@[w] implies m(w) == b(
                    o.stands@[w],
                ) by {
                    assert(self.inputs@[w]);
                }
                assert(o.reads(m, b));
                assert(o.follows(m, b));
                assert(self.inputs@[v as int]);
                assert forall|w: int| 0 <= w < self.count() implies m(w) == #[trigger] (self.meanings()[w])(b) by {
                    if w < v {
                        assert(m(w) == (o.meanings()[w])(b));
                    }
                }
            }
        }
        v
    }

    /// More variables change nothing of the clauses that are there.
    proof fn added_keeps(&self, o: &Cnf)
        requires
            o.basic(),
            self.clauses == o.clauses,
            self.means@.len() == o.means@.len() + 1,
            self.inputs@.len() == o.inputs@.len() + 1,
            self.means@.take(o.means@.len() as int) == o.means@,
            forall|b: Bits| #[trigger] clauses_true(o.clauses@, values_of(o.means@, b)),
        ensures
            self.keeps(o),
            forall|b: Bits| #[trigger] clauses_true(self.clauses@, values_of(self.means@, b)),
    {
        assert forall|v: int| 0 <= v < o.count() implies #[trigger] self.meanings()[v] == o.meanings()[v] by {
            assert(self.means@.take(o.means@.len() as int)[v] == self.means@[v]);
        }
        assert forall|b: Bits| #[trigger] clauses_true(self.clauses@, values_of(self.means@, b)) by {
            let m = values_of(self.means@, b);
            let n = values_of(o.means@, b);
            assert(clauses_true(o.clauses@, n));
            assert forall|k: int| 0 <= k < self.clauses@.len() implies clause_true((#[trigger] self.clauses@[k])@, m) by {
                let c = self.clauses@[k]@;
                assert(clause_true(o.clauses@[k]@, n));
                let i = choose|i: int| 0 <= i < c.len() && lit_true(#[trigger] c[i], n);
                assert(o.clauses@[k]@[i].var < o.inputs@.len());
                assert(self.meanings()[c[i].var as int] == o.meanings()[c[i].var as int]);
                assert(lit_true(c[i], m));
            }
        }
    }

    /// A new variable without a meaning.
    pub fn fresh(&mut self) -> (r: Lit)
        requires
            old(self).wf(),
        ensures
            final(self).wf(),
            final(self).keeps(old(self)),
            final(self).valid(r),
            !old(self).valid(r),
            forall|b: Bits| #[trigger] final(self).eval(r, b) == b(Input::Free(r.var)),
    {
        let ghost o = *self;
        let ghost i = Input::Free(self.inputs@.len() as usize);
        let v = self.add_input(Ghost(i));
        proof {
            self.tables_keep(&o);
        }
        Lit { var: v, neg: false }
    }

    proof fn tables_keep(&self, o: &Cnf)
        requires
            o.tables_ok(),
            self.keeps(o),
            self.bitvars == o.bitvars,
            self.gates == o.gates,
            self.inputs@.len() >= o.inputs@.len(),
            self.means@.len() == self.inputs@.len(),
            o.means@.len() == o.inputs@.len(),
            forall|v: int| 0 <= v < o.inputs@.len() ==> self.inputs@[v] == o.inputs@[v]
                && self.stands@[v] == #[trigger] o.stands@[v],
        ensures
            self.tables_ok(),
    {
        assert forall|l: u32, k: u32, t: usize| #[trigger] self.bitvars@.contains_key(bit_key(l, k, t)) implies {
            let v = self.bitvars@[bit_key(l, k, t)];
            v < self.inputs@.len() && self.inputs@[v as int] && self.stands@[v as int] == Input::Bit(l, k, t)
        } by {
            assert(o.bitvars@.contains_key(bit_key(l, k, t)));
            let v = o.bitvars@[bit_key(l, k, t)];
            assert(o.stands@[v as int] == Input::Bit(l, k, t));
        }
        assert forall|x: Lit, y: Lit| #[trigger] self.gates@.contains_key(gate_key(x, y)) implies {
            let v = self.gates@[gate_key(x, y)];
            v < self.inputs@.len() && x.var < self.inputs@.len() && y.var < self.inputs@.len() && forall|
                b: Bits,
            | #[trigger]
                (self.means@[v as int])(b) == (self.eval(x, b) && self.eval(y, b))
        } by {
            assert(o.gates@.contains_key(gate_key(x, y)));
            let v = o.gates@[gate_key(x, y)];
            assert(self.meanings()[v as int] == o.meanings()[v as int]);
            assert forall|b: Bits| #[trigger] (self.means@[v as int])(b) == (self.eval(x, b) && self.eval(y, b)) by {
                assert((o.means@[v as int])(b) == (o.eval(x, b) && o.eval(y, b)));
            }
        }
    }

    /// The variable of a bit of a leaf at a step.
    pub fn bitvar(&mut self, leaf: u32, bit: u32, step: usize) -> (r: Lit)
        requires
            old(self).wf(),
        ensures
            final(self).wf(),
            final(self).keeps(old(self)),
            final(self).valid(r),
            final(self).has_bit(leaf, bit, step),
            forall|l: u32, k: u32, t: usize|
                old(self).has_bit(l, k, t) ==> #[trigger] final(self).has_bit(l, k, t),
            forall|b: Bits| #[trigger] final(self).eval(r, b) == b(Input::Bit(leaf, bit, step)),
    {
        let ghost o = *self;
        match table_get(&self.bitvars, (leaf as u64, bit as u64, step as u64)) {
            Some(v) => {
                let r = Lit { var: v, neg: false };
                proof {
                    assert(self.bitvars@.contains_key(bit_key(leaf, bit, step)));
                    assert forall|b: Bits| #[trigger] self.eval(r, b) == b(Input::Bit(leaf, bit, step)) by {
                        assert((self.means@[v as int])(b) == b(self.stands@[v as int]));
                    }
                }
                r
            },
            None => {
                let v = self.add_input(Ghost(Input::Bit(leaf, bit, step)));
                proof {
                    self.tables_keep(&o);
                }
                let ghost s = *self;
                table_insert(&mut self.bitvars, (leaf as u64, bit as u64, step as u64), v);
                proof {
                    let key = bit_key(leaf, bit, step);
                    assert forall|l: u32, k: u32, t: usize| #[trigger] self.bitvars@.contains_key(
                        bit_key(l, k, t),
                    ) implies {
                        let w = self.bitvars@[bit_key(l, k, t)];
                        w < self.inputs@.len() && self.inputs@[w as int] && self.stands@[w as int] == Input::Bit(
                            l,
                            k,
                            t,
                        )
                    } by {
                        if bit_key(l, k, t) != key {
                            assert(s.bitvars@.contains_key(bit_key(l, k, t)));
                        }
                    }
                    assert forall|x: Lit, y: Lit| #[trigger] self.gates@.contains_key(gate_key(x, y)) implies {
                        let v = self.gates@[gate_key(x, y)];
                        v < self.inputs@.len() && x.var < self.inputs@.len() && y.var < self.inputs@.len() && forall|
                            b: Bits,
                        | #[trigger]
                            (self.means@[v as int])(b) == (self.eval(x, b) && self.eval(y, b))
                    } by {
                        assert(s.gates@.contains_key(gate_key(x, y)));
                        let g = s.gates@[gate_key(x, y)];
                        assert forall|b: Bits| #[trigger] (self.means@[g as int])(b) == (self.eval(x, b) && self.eval(
                            y,
                            b,
                        )) by {
                            assert((s.means@[g as int])(b) == (s.eval(x, b) && s.eval(y, b)));
                            assert(self.meanings() == s.meanings());
                        }
                    }
                    assert(self.meanings() == s.meanings());
                    assert forall|m: Model, b: Bits|
                        #![trigger clauses_true(self.clauses@, m), self.reads(m, b)]
                        clauses_true(self.clauses@, m) && self.reads(m, b) implies self.follows(m, b) by {
                        assert(s.reads(m, b));
                        assert(s.follows(m, b));
                    }
                }
                Lit { var: v, neg: false }
            },
        }
    }

    /// Adds a variable that the clauses define as a function of the others.
    fn define(&mut self, new: Vec<Vec<Lit>>, Ghost(f): Ghost<CF>) -> (r: usize)
        requires
            old(self).wf(),
            forall|k: int, i: int|
                0 <= k < new@.len() && 0 <= i < new@[k]@.len() ==> (#[trigger] new@[k]@[i]).var
                    <= old(self).count(),
            forall|b: Bits, m: Model|
                #![trigger old(self).follows(m, b), clauses_true(new@, m)]
                old(self).follows(m, b) ==> (clauses_true(new@, m) <==> m(old(self).count() as int) == f(b)),
        ensures
            final(self).wf(),
            final(self).keeps(old(self)),
            r == old(self).count(),
            final(self).count() == r + 1,
            final(self).meanings()[r as int] == f,
            final(self)@ == old(self)@ + new@,
            final(self).gates == old(self).gates,
            forall|l: u32, k: u32, t: usize|
                old(self).has_bit(l, k, t) ==> #[trigger] final(self).has_bit(l, k, t),
    {
        let ghost o = *self;
        let v: usize = self.inputs.len();
        let mut more = new;
        self.inputs.push(false);
        self.clauses.append(&mut more);
        proof {
            self.stands@ = self.stands@.push(Input::Free(v));
            self.means@ = self.means@.push(f);
            let cs = self.clauses@;
            assert(cs =~= o.clauses@ + new@);
            assert forall|w: int| 0 <= w < o.count() implies #[trigger] self.meanings()[w] == o.meanings()[w] by {}
            assert(self.keeps(&o));
            assert forall|k: int, i: int| 0 <= k < cs.len()
                && 0 <= i < cs[k]@.len() implies (#[trigger] cs[k]@[i]).var
                < self.inputs@.len() by {
                if k < o.clauses@.len() {
                    assert(o.clauses@[k]@[i].var < o.inputs@.len());
                } else {
                    assert(new@[k - o.clauses@.len()]@[i].var <= o.count());
                }
            }
            assert(self.basic()) by {
                assert forall|w: int, b: Bits| 0 <= w < self.inputs@.len() && self.inputs@[w] implies
                    #[trigger] (self.means@[w])(b) == b(self.stands@[w]) by {
                    assert((o.means@[w])(b) == b(o.stands@[w]));
                }
                assert forall|b: Bits| #[trigger] (self.means@[0])(b) by {
                    assert((o.means@[0])(b));
                }
            }
            self.tables_keep(&o);
            assert forall|b: Bits| #[trigger] clauses_true(cs, values_of(self.means@, b)) by {
                let m = values_of(self.means@, b);
                let n = values_of(o.means@, b);
                assert(clauses_true(o.clauses@, n));
                assert forall|w: int| 0 <= w < o.count() implies m(w) == #[trigger] (o.meanings()[w])(b) by {
                    assert(self.meanings()[w] == o.meanings()[w]);
                }
                assert(o.follows(m, b));
                assert(m(v as int) == f(b));
                assert(clauses_true(new@, m));
                assert forall|k: int| 0 <= k < cs.len() implies clause_true((#[trigger] cs[k])@, m) by {
                    let c = cs[k]@;
                    if k < o.clauses@.len() {
                        assert(clause_true(o.clauses@[k]@, n));
                        let i = choose|i: int| 0 <= i < c.len() && lit_true(#[trigger] c[i], n);
                        assert(o.clauses@[k]@[i].var < o.inputs@.len());
                        assert(m(c[i].var as int) == (o.meanings()[c[i].var as int])(b));
                        assert(lit_true(c[i], m));
                    } else {
                        assert(clause_true(new@[k - o.clauses@.len()]@, m));
                    }
                }
            }
            assert forall|m: Model, b: Bits|
                #![trigger clauses_true(cs, m), self.reads(m, b)]
                clauses_true(cs, m) && self.reads(m, b) implies self.follows(m, b) by {
                assert forall|k: int| 0 <= k < o.clauses@.len() implies clause_true((#[trigger] o.clauses@[k])@, m) by {
                    assert(clause_true(cs[k]@, m));
                }
                assert forall|k: int| 0 <= k < new@.len() implies clause_true((#[trigger] new@[k])@, m) by {
                    assert(clause_true(cs[k + o.clauses@.len()]@, m));
                }
                assert forall|w: int| 0 <= w < o.inputs@.len() && #[trigger] o.inputs@[w] implies m(w) == b(
                    o.stands@[w],
                ) by {
                    assert(self.inputs@[w]);
                }
                assert(o.reads(m, b));
                assert(clauses_true(o.clauses@, m));
                assert(o.follows(m, b));
                assert(clauses_true(new@, m));
                assert(m(v as int) == f(b));
                assert forall|w: int| 0 <= w < self.count() implies m(w) == #[trigger] (self.meanings()[w])(b) by {
                    if w < v {
                        assert(m(w) == (o.meanings()[w])(b));
                    }
                }
            }
        }
        v
    }

    /// A literal for the conjunction of literals.
    pub fn and_lits(&mut self, xs: Vec<Lit>) -> (r: Lit)
        requires
            old(self).wf(),
            forall|i: int| 0 <= i < xs@.len() ==> old(self).valid(#[trigger] xs@[i]),
        ensures
            final(self).wf(),
            final(self).keeps(old(self)),
            final(self).valid(r),
            forall|l: u32, k: u32, t: usize|
                old(self).has_bit(l, k, t) ==> #[trigger] final(self).has_bit(l, k, t),
            forall|b: Bits| #[trigger] final(self).eval(r, b) == old(self).all_true(xs@, b),
            final(self).conjoined(old(self), xs@, r),
    {
        let ghost o = *self;
        proof {
            self.constants_meaning();
        }
        let mut ys: Vec<Lit> = Vec::new();
        let mut i: usize = 0;
        assert(ys@ =~= Seq::empty());
        while i < xs.len()
            invariant
                i <= xs@.len(),
                *self == o,
                o.wf(),
                forall|b: Bits| #[trigger] o.eval(tt(), b),
                forall|b: Bits| !#[trigger] o.eval(ff(), b),
                o.valid(ff()),
                forall|k: int| 0 <= k < xs@.len() ==> o.valid(#[trigger] xs@[k]),
                forall|k: int| 0 <= k < ys@.len() ==> o.valid(#[trigger] ys@[k]),
                forall|b: Bits| #[trigger] o.all_true(ys@, b) == o.all_true(xs@.take(i as int), b),
                normal(xs@, i as int, ys@) == normal(xs@, 0, Seq::empty()),
                forall|k: int| 0 <= k < i ==> #[trigger] xs@[k] != bottom(),
            decreases xs.len() - i,
        {
            let x = xs[i];
            assert(o.valid(xs@[i as int]));
            let ghost ys0 = ys@;
            if x == ff() {
                proof {
                    assert forall|b: Bits| #[trigger] self.eval(ff(), b) == o.all_true(xs@, b) by {
                        assert(!o.eval(xs@[i as int], b));
                    }
                    assert(xs@.contains(bottom()));
                }
                return ff();
            }
            if x != tt() {
                ys = put(ys, x);
            }
            proof {
                put_in_has(ys0, x, 0);
                assert forall|k: int| 0 <= k < ys@.len() implies o.valid(#[trigger] ys@[k]) by {
                    assert(ys@.contains(ys@[k]));
                    if ys0.contains(ys@[k]) {
                        let j = choose|j: int| 0 <= j < ys0.len() && ys0[j] == ys@[k];
                        assert(o.valid(ys0[j]));
                    }
                }
                assert forall|b: Bits| #[trigger] o.all_true(ys@, b) == o.all_true(xs@.take(i + 1), b) by {
                    assert(o.all_true(ys0, b) == o.all_true(xs@.take(i as int), b));
                    all_push(&o, xs@.take(i as int), x, b);
                    assert(xs@.take(i as int).push(x) =~= xs@.take(i + 1));
                    if x != tt() {
                        push_has(ys0, x);
                        all_same(&o, ys0.push(x), ys@, b);
                        all_push(&o, ys0, x, b);
                    }
                }
            }
            i += 1;
        }
        assert(!xs@.contains(bottom()));
        assert(xs@.take(i as int) =~= xs@);
        if ys.len() == 0 {
            proof {
                assert forall|b: Bits| #[trigger] self.eval(tt(), b) == o.all_true(xs@, b) by {
                    assert(o.all_true(ys@, b) == o.all_true(xs@, b));
                }
            }
            return tt();
        }
        if ys.len() == 1 {
            proof {
                assert forall|b: Bits| #[trigger] self.eval(ys@[0], b) == o.all_true(xs@, b) by {
                    assert(o.all_true(ys@, b) == o.all_true(xs@, b));
                    if o.eval(ys@[0], b) {
                        assert forall|k: int| 0 <= k < ys@.len() implies o.eval(#[trigger] ys@[k], b) by {}
                    }
                }
            }
            return ys[0];
        }
        if ys.len() == 2 {
            proof {
                assert(o.valid(ys@[0]) && o.valid(ys@[1]));
                assert forall|b: Bits| #[trigger] o.all_true(xs@, b) == (o.eval(ys@[0], b) && o.eval(ys@[1], b)) by {
                    assert(o.all_true(ys@, b) == o.all_true(xs@, b));
                    if o.eval(ys@[0], b) && o.eval(ys@[1], b) {
                        assert forall|k: int| 0 <= k < ys@.len() implies o.eval(#[trigger] ys@[k], b) by {}
                    }
                }
            }
            assert(ys@ =~= seq![ys@[0], ys@[1]]);
            return self.gate(ys[0], ys[1]);
        }
        let r = self.junction(&ys);
        proof {
            assert forall|b: Bits| #[trigger] self.eval(r, b) == o.all_true(xs@, b) by {
                assert(o.all_true(ys@, b) == o.all_true(xs@, b));
            }
            assert forall|x: Lit, y: Lit| #[trigger] self.shared(x, y) == o.shared(x, y) by {}
        }
        r
    }

    /// All literals hold for the inputs.
    pub open spec fn all_true(&self, xs: Seq<Lit>, b: Bits) -> bool {
        forall|i: int| 0 <= i < xs.len() ==> self.eval(#[trigger] xs[i], b)
    }

    /// Some literal holds for the inputs.
    pub open spec fn some_true(&self, xs: Seq<Lit>, b: Bits) -> bool {
        exists|i: int| 0 <= i < xs.len() && self.eval(#[trigger] xs[i], b)
    }

    /// A conjunction of two literals, which is shared.
    fn gate(&mut self, x: Lit, y: Lit) -> (r: Lit)
        requires
            old(self).wf(),
            old(self).valid(x),
            old(self).valid(y),
        ensures
            final(self).wf(),
            final(self).keeps(old(self)),
            final(self).valid(r),
            forall|l: u32, k: u32, t: usize|
                old(self).has_bit(l, k, t) ==> #[trigger] final(self).has_bit(l, k, t),
            forall|b: Bits| #[trigger] final(self).eval(r, b) == (old(self).eval(x, b) && old(self).eval(y, b)),
            !r.neg,
            match old(self).shared(x, y) {
                Some(v) => r.var == v && *final(self) == *old(self),
                None => {
                    &&& r.var == old(self).count()
                    &&& final(self).count() == old(self).count() + 1
                    &&& clause_views(final(self)@) == clause_views(old(self)@) + defining(seq![x, y], r.var)
                    &&& forall|p: Lit, q: Lit| #[trigger]
                        final(self).shared(p, q) == if p == x && q == y {
                            Some(r.var)
                        } else {
                            old(self).shared(p, q)
                        }
                },
            },
    {
        let ghost o = *self;
        let low: u64 = if x.neg {
            1
        } else {
            0
        };
        let high: u64 = if y.neg {
            2
        } else {
            0
        };
        let key: Key = (x.var as u64, y.var as u64, low + high);
        assert(key == gate_key(x, y));
        match table_get(&self.gates, key) {
            Some(v) => {
                let r = Lit { var: v, neg: false };
                proof {
                    assert(self.gates@.contains_key(gate_key(x, y)));
                    assert forall|b: Bits| #[trigger] self.eval(r, b) == (o.eval(x, b) && o.eval(y, b)) by {
                        assert((self.means@[v as int])(b) == (o.eval(x, b) && o.eval(y, b)));
                    }
                }
                r
            },
            None => {
                let mut ys: Vec<Lit> = Vec::new();
                ys.push(x);
                ys.push(y);
                let r = self.junction(&ys);
                let ghost s = *self;
                proof {
                    assert forall|b: Bits| #[trigger] self.eval(r, b) == (o.eval(x, b) && o.eval(y, b)) by {
                        assert(self.eval(r, b) == o.all_true(ys@, b));
                        assert(o.all_true(ys@, b) ==> o.eval(ys@[0], b) && o.eval(ys@[1], b));
                    }
                }
                table_insert(&mut self.gates, key, r.var);
                proof {
                    assert(ys@ =~= seq![x, y]);
                    assert forall|p: Lit, q: Lit| #[trigger] self.shared(p, q) == if p == x && q == y {
                        Some(r.var)
                    } else {
                        o.shared(p, q)
                    } by {
                        if gate_key(p, q) == key {
                            gate_same(p, q, x, y);
                        }
                    }
                    assert(self.meanings() == s.meanings());
                    assert forall|p: Lit, q: Lit| #[trigger] self.gates@.contains_key(gate_key(p, q)) implies {
                        let v = self.gates@[gate_key(p, q)];
                        v < self.inputs@.len() && p.var < self.inputs@.len() && q.var < self.inputs@.len() && forall|
                            b: Bits,
                        | #[trigger]
                            (self.means@[v as int])(b) == (self.eval(p, b) && self.eval(q, b))
                    } by {
                        if gate_key(p, q) == key {
                            gate_same(p, q, x, y);
                            assert forall|b: Bits| #[trigger] (self.means@[r.var as int])(b) == (self.eval(p, b)
                                && self.eval(q, b)) by {
                                assert(s.eval(r, b) == (o.eval(x, b) && o.eval(y, b)));
                            }
                        } else {
                            assert(s.gates@.contains_key(gate_key(p, q)));
                            let g = s.gates@[gate_key(p, q)];
                            assert forall|b: Bits| #[trigger] (self.means@[g as int])(b) == (self.eval(p, b)
                                && self.eval(q, b)) by {
                                assert((s.means@[g as int])(b) == (s.eval(p, b) && s.eval(q, b)));
                            }
                        }
                    }
                    assert forall|l: u32, k: u32, t: usize| #[trigger] self.bitvars@.contains_key(
                        bit_key(l, k, t),
                    ) implies {
                        let v = self.bitvars@[bit_key(l, k, t)];
                        v < self.inputs@.len() && self.inputs@[v as int] && self.stands@[v as int] == Input::Bit(
                            l,
                            k,
                            t,
                        )
                    } by {
                        assert(s.bitvars@.contains_key(bit_key(l, k, t)));
                    }
                    assert forall|m: Model, b: Bits|
                        #![trigger clauses_true(self.clauses@, m), self.reads(m, b)]
                        clauses_true(self.clauses@, m) && self.reads(m, b) implies self.follows(m, b) by {
                        assert(s.reads(m, b));
                        assert(s.follows(m, b));
                    }
                    assert forall|l: u32, k: u32, t: usize| o.has_bit(l, k, t) implies #[trigger] self.has_bit(
                        l,
                        k,
                        t,
                    ) by {
                        assert(s.has_bit(l, k, t));
                    }
                    assert forall|b: Bits| #[trigger] self.eval(r, b) == (o.eval(x, b) && o.eval(y, b)) by {
                        assert(s.eval(r, b) == (o.eval(x, b) && o.eval(y, b)));
                    }
                }
                r
            },
        }
    }

    /// A new variable for the conjunction of literals.
    fn junction(&mut self, ys: &Vec<Lit>) -> (r: Lit)
        requires
            old(self).wf(),
            forall|i: int| 0 <= i < ys@.len() ==> old(self).valid(#[trigger] ys@[i]),
        ensures
            final(self).wf(),
            final(self).keeps(old(self)),
            final(self).valid(r),
            !r.neg,
            r.var == old(self).count(),
            final(self).count() == old(self).count() + 1,
            clause_views(final(self)@) == clause_views(old(self)@) + defining(ys@, r.var),
            final(self).gates == old(self).gates,
            forall|l: u32, k: u32, t: usize|
                old(self).has_bit(l, k, t) ==> #[trigger] final(self).has_bit(l, k, t),
            forall|b: Bits| #[trigger] final(self).eval(r, b) == old(self).all_true(ys@, b),
    {
        let ghost o = *self;
        let v: usize = self.inputs.len();
        let out = Lit { var: v, neg: false };
        let mut new: Vec<Vec<Lit>> = Vec::new();
        let mut last: Vec<Lit> = Vec::new();
        let mut i: usize = 0;
        while i < ys.len()
            invariant
                i <= ys@.len(),
                new@.len() == i,
                last@.len() == i,
                out == (Lit { var: v, neg: false }),
                forall|k: int| 0 <= k < i ==> (#[trigger] new@[k])@ == seq![Lit { var: v, neg: true }, ys@[k]],
                forall|k: int| 0 <= k < i ==> #[trigger] last@[k] == (Lit { var: ys@[k].var, neg: !ys@[k].neg }),
            decreases ys.len() - i,
        {
            let mut c: Vec<Lit> = Vec::new();
            c.push(flip(out));
            c.push(ys[i]);
            assert(c@ =~= seq![Lit { var: v, neg: true }, ys@[i as int]]);
            new.push(c);
            last.push(flip(ys[i]));
            i += 1;
        }
        let ghost n = ys@.len();
        last.push(out);
        let ghost lastv = last@;
        new.push(last);
        let ghost f = |b: Bits| o.all_true(ys@, b);
        proof {
            assert forall|k: int, j: int| 0 <= k < new@.len() && 0 <= j < new@[k]@.len() implies (
            #[trigger] new@[k]@[j]).var <= o.count() by {
                if k < n {
                    assert(new@[k]@ == seq![Lit { var: v, neg: true }, ys@[k]]);
                    assert(o.valid(ys@[k]));
                } else if j < n {
                    assert(lastv[j] == (Lit { var: ys@[j].var, neg: !ys@[j].neg }));
                    assert(o.valid(ys@[j]));
                }
            }
            assert forall|b: Bits, m: Model|
                #![trigger o.follows(m, b), clauses_true(new@, m)]
                o.follows(m, b) implies (clauses_true(new@, m) <==> m(o.count() as int) == f(b)) by {
                assert forall|k: int| 0 <= k < n implies lit_true(#[trigger] ys@[k], m) == o.eval(ys@[k], b) by {
                    assert(o.valid(ys@[k]));
                    assert(m(ys@[k].var as int) == (o.meanings()[ys@[k].var as int])(b));
                }
                if clauses_true(new@, m) {
                    if m(v as int) {
                        assert forall|k: int| 0 <= k < n implies o.eval(#[trigger] ys@[k], b) by {
                            assert(clause_true(new@[k]@, m));
                            assert(new@[k]@ == seq![Lit { var: v, neg: true }, ys@[k]]);
                            let j = choose|j: int| 0 <= j < new@[k]@.len() && lit_true(#[trigger] new@[k]@[j], m);
                            assert(j == 1);
                        }
                    } else {
                        assert(clause_true(new@[n as int]@, m));
                        let j = choose|j: int| 0 <= j < lastv.len() && lit_true(#[trigger] lastv[j], m);
                        assert(j < n);
                        assert(!lit_true(ys@[j], m));
                        assert(!o.eval(ys@[j], b));
                    }
                }
                if m(v as int) == f(b) {
                    assert forall|k: int| 0 <= k < new@.len() implies clause_true((#[trigger] new@[k])@, m) by {
                        let c = new@[k]@;
                        if k < n {
                            assert(c == seq![Lit { var: v, neg: true }, ys@[k]]);
                            if m(v as int) {
                                assert(o.eval(ys@[k], b));
                                assert(lit_true(c[1], m));
                            } else {
                                assert(lit_true(c[0], m));
                            }
                        } else {
                            if m(v as int) {
                                assert(lit_true(c[n as int], m));
                            } else {
                                let j = choose|j: int| 0 <= j < n && !o.eval(#[trigger] ys@[j], b);
                                assert(!lit_true(ys@[j], m));
                                assert(lit_true(c[j], m));
                            }
                        }
                    }
                }
            }
        }
        let r = self.define(new, Ghost(f));
        proof {
            assert(lastv =~= all_flipped(ys@).push(Lit { var: v, neg: false }));
            let d = defining(ys@, v);
            assert(clause_views(new@) =~= d) by {
                assert forall|k: int| 0 <= k < d.len() implies clause_views(new@)[k] == #[trigger] d[k] by {
                    if k < n {
                        assert(new@[k]@ == seq![Lit { var: v, neg: true }, ys@[k]]);
                    }
                }
            }
            assert(clause_views(self@) =~= clause_views(o@) + clause_views(new@));
        }
        Lit { var: r, neg: false }
    }

    /// A literal for the disjunction of literals.
    pub fn or_lits(&mut self, xs: Vec<Lit>) -> (r: Lit)
        requires
            old(self).wf(),
            forall|i: int| 0 <= i < xs@.len() ==> old(self).valid(#[trigger] xs@[i]),
        ensures
            final(self).wf(),
            final(self).keeps(old(self)),
            final(self).valid(r),
            forall|l: u32, k: u32, t: usize|
                old(self).has_bit(l, k, t) ==> #[trigger] final(self).has_bit(l, k, t),
            forall|b: Bits| #[trigger] final(self).eval(r, b) == old(self).some_true(xs@, b),
            final(self).conjoined(old(self), all_flipped(xs@), flipped(r)),
    {
        let ghost o = *self;
        let mut ys: Vec<Lit> = Vec::new();
        let mut i: usize = 0;
        while i < xs.len()
            invariant
                i <= xs@.len(),
                ys@.len() == i,
                forall|k: int| 0 <= k < i ==> #[trigger] ys@[k] == (Lit { var: xs@[k].var, neg: !xs@[k].neg }),
            decreases xs.len() - i,
        {
            ys.push(flip(xs[i]));
            i += 1;
        }
        proof {
            assert forall|k: int| 0 <= k < ys@.len() implies o.valid(#[trigger] ys@[k]) by {
                assert(o.valid(xs@[k]));
            }
        }
        let ghost zs = ys@;
        assert(zs =~= all_flipped(xs@));
        let r = flip(self.and_lits(ys));
        proof {
            assert forall|b: Bits| #[trigger] self.eval(r, b) == o.some_true(xs@, b) by {
                let q = Lit { var: r.var, neg: !r.neg };
                assert(self.eval(q, b) == o.all_true(zs, b));
                if o.some_true(xs@, b) {
                    let k = choose|k: int| 0 <= k < xs@.len() && o.eval(#[trigger] xs@[k], b);
                    assert(!o.eval(zs[k], b));
                }
                if !o.all_true(zs, b) {
                    let k = choose|k: int| 0 <= k < zs.len() && !o.eval(#[trigger] zs[k], b);
                    assert(o.eval(xs@[k], b));
                }
            }
        }
        r
    }

    /// Conjunction of two literals.
    pub fn and(&mut self, x: Lit, y: Lit) -> (r: Lit)
        requires
            old(self).wf(),
            old(self).valid(x),
            old(self).valid(y),
        ensures
            final(self).wf(),
            final(self).keeps(old(self)),
            final(self).valid(r),
            forall|l: u32, k: u32, t: usize|
                old(self).has_bit(l, k, t) ==> #[trigger] final(self).has_bit(l, k, t),
            forall|b: Bits| #[trigger] final(self).eval(r, b) == (old(self).eval(x, b) && old(self).eval(y, b)),
            final(self).conjoined(old(self), seq![x, y], r),
    {
        let ghost o = *self;
        let xs = vec![x, y];
        let ghost v = xs@;
        assert(v =~= seq![x, y]);
        let r = self.and_lits(xs);
        proof {
            assert forall|b: Bits| #[trigger] self.eval(r, b) == (o.eval(x, b) && o.eval(y, b)) by {
                assert(self.eval(r, b) == o.all_true(v, b));
                assert(o.all_true(v, b) ==> o.eval(v[0], b) && o.eval(v[1], b));
            }
        }
        r
    }

    /// Disjunction of two literals.
    pub fn or(&mut self, x: Lit, y: Lit) -> (r: Lit)
        requires
            old(self).wf(),
            old(self).valid(x),
            old(self).valid(y),
        ensures
            final(self).wf(),
            final(self).keeps(old(self)),
            final(self).valid(r),
            forall|l: u32, k: u32, t: usize|
                old(self).has_bit(l, k, t) ==> #[trigger] final(self).has_bit(l, k, t),
            forall|b: Bits| #[trigger] final(self).eval(r, b) == (old(self).eval(x, b) || old(self).eval(y, b)),
            final(self).conjoined(old(self), seq![flipped(x), flipped(y)], flipped(r)),
    {
        let ghost o = *self;
        let xs = vec![x, y];
        let ghost v = xs@;
        assert(all_flipped(v) =~= seq![flipped(x), flipped(y)]);
        let r = self.or_lits(xs);
        proof {
            assert forall|b: Bits| #[trigger] self.eval(r, b) == (o.eval(x, b) || o.eval(y, b)) by {
                assert(self.eval(r, b) == o.some_true(v, b));
                assert(o.eval(v[0], b) ==> o.some_true(v, b));
                assert(o.eval(v[1], b) ==> o.some_true(v, b));
            }
        }
        r
    }

    /// Negation of a literal.
    pub fn not(&mut self, x: Lit) -> (r: Lit)
        requires
            old(self).wf(),
            old(self).valid(x),
        ensures
            *final(self) == *old(self),
            final(self).keeps(old(self)),
            final(self).valid(r),
            forall|b: Bits| #[trigger] final(self).eval(r, b) == !old(self).eval(x, b),
    {
        flip(x)
    }

    /// A literal for `c` and `t`, or not `c` and `e`.
    pub fn ite_lit(&mut self, c: Lit, t: Lit, e: Lit) -> (r: Lit)
        requires
            old(self).wf(),
            old(self).valid(c),
            old(self).valid(t),
            old(self).valid(e),
        ensures
            final(self).wf(),
            final(self).keeps(old(self)),
            final(self).valid(r),
            forall|l: u32, k: u32, s: usize|
                old(self).has_bit(l, k, s) ==> #[trigger] final(self).has_bit(l, k, s),
            forall|b: Bits| #[trigger]
                final(self).eval(r, b) == if old(self).eval(c, b) {
                    old(self).eval(t, b)
                } else {
                    old(self).eval(e, b)
                },
    {
        let ghost o = *self;
        let x = self.and(c, t);
        let ghost m1 = *self;
        let y = self.and(flip(c), e);
        let ghost m2 = *self;
        let r = self.or(x, y);
        proof {
            let nc = Lit { var: c.var, neg: !c.neg };
            assert forall|b: Bits| #[trigger] self.eval(r, b) == if o.eval(c, b) {
                o.eval(t, b)
            } else {
                o.eval(e, b)
            } by {
                assert(self.eval(r, b) == (m2.eval(x, b) || m2.eval(y, b)));
                assert(m2.eval(x, b) == m1.eval(x, b));
                assert(m2.eval(y, b) == (m1.eval(nc, b) && m1.eval(e, b)));
                assert(m1.eval(nc, b) == o.eval(nc, b));
                assert(m1.eval(e, b) == o.eval(e, b));
            }
        }
        r
    }

    /// A literal for the equality of two literals.
    pub fn iff_lit(&mut self, x: Lit, y: Lit) -> (r: Lit)
        requires
            old(self).wf(),
            old(self).valid(x),
            old(self).valid(y),
        ensures
            final(self).wf(),
            final(self).keeps(old(self)),
            final(self).valid(r),
            forall|l: u32, k: u32, t: usize|
                old(self).has_bit(l, k, t) ==> #[trigger] final(self).has_bit(l, k, t),
            forall|b: Bits| #[trigger] final(self).eval(r, b) == (old(self).eval(x, b) == old(self).eval(y, b)),
            final(self).equality(x, y) == Some(r),
            match old(self).equality(x, y) {
                Some(l) => r == l && *final(self) == *old(self),
                None => true,
            },
    {
        let ghost o = *self;
        let p = self.and(x, y);
        let ghost m1 = *self;
        let q = self.and(flip(x), flip(y));
        let ghost m2 = *self;
        let r = self.or(p, q);
        proof {
            let nx = Lit { var: x.var, neg: !x.neg };
            let ny = Lit { var: y.var, neg: !y.neg };
            let a = seq![x, y];
            let b = seq![flipped(x), flipped(y)];
            let d = seq![flipped(p), flipped(q)];
            normal_two(x, y);
            normal_two(flipped(x), flipped(y));
            normal_two(flipped(p), flipped(q));
            m1.conjoined_again(&o, a, p, b);
            m2.conjoined_again(&m1, b, q, a);
            self.conjoined_again(&m2, d, flipped(r), a);
            self.conjoined_again(&m2, d, flipped(r), b);
            assert forall|b: Bits| #[trigger] self.eval(r, b) == (o.eval(x, b) == o.eval(y, b)) by {
                assert(self.eval(r, b) == (m2.eval(p, b) || m2.eval(q, b)));
                assert(m2.eval(p, b) == m1.eval(p, b));
                assert(m2.eval(q, b) == (m1.eval(nx, b) && m1.eval(ny, b)));
                assert(m1.eval(nx, b) == o.eval(nx, b));
                assert(m1.eval(ny, b) == o.eval(ny, b));
            }
        }
        r
    }
}

impl Default for Cnf {
    fn default() -> (r: Cnf)
        ensures
            r.wf(),
    {
        Cnf::new()
    }
}

proof fn gate_same(p: Lit, q: Lit, x: Lit, y: Lit)
    requires
        gate_key(p, q) == gate_key(x, y),
    ensures
        p == x,
        q == y,
{
    assert(p.var as u64 as int == p.var as int);
    assert(x.var as u64 as int == x.var as int);
    assert(q.var as u64 as int == q.var as int);
    assert(y.var as u64 as int == y.var as int);
}

proof fn all_push(c: &Cnf, xs: Seq<Lit>, x: Lit, b: Bits)
    ensures
        c.all_true(xs.push(x), b) == (c.all_true(xs, b) && c.eval(x, b)),
{
    let ys = xs.push(x);
    if c.all_true(ys, b) {
        assert(c.eval(ys[xs.len() as int], b));
        assert forall|i: int| 0 <= i < xs.len() implies c.eval(#[trigger] xs[i], b) by {
            assert(ys[i] == xs[i]);
        }
    }
    if c.all_true(xs, b) && c.eval(x, b) {
        assert forall|i: int| 0 <= i < ys.len() implies c.eval(#[trigger] ys[i], b) by {
            if i < xs.len() {
                assert(ys[i] == xs[i]);
            }
        }
    }
}

proof fn all_same(c: &Cnf, xs: Seq<Lit>, ys: Seq<Lit>, b: Bits)
    requires
        forall|x: Lit| #[trigger] ys.contains(x) == xs.contains(x),
    ensures
        c.all_true(xs, b) == c.all_true(ys, b),
{
    if c.all_true(xs, b) {
        assert forall|i: int| 0 <= i < ys.len() implies c.eval(#[trigger] ys[i], b) by {
            assert(ys.contains(ys[i]));
            let j = choose|j: int| 0 <= j < xs.len() && xs[j] == ys[i];
            assert(c.eval(xs[j], b));
        }
    }
    if c.all_true(ys, b) {
        assert forall|i: int| 0 <= i < xs.len() implies c.eval(#[trigger] xs[i], b) by {
            assert(xs.contains(xs[i]));
            assert(ys.contains(xs[i]));
            let j = choose|j: int| 0 <= j < ys.len() && ys[j] == xs[i];
            assert(c.eval(ys[j], b));
        }
    }
}

fn ranks_below(x: Lit, y: Lit) -> (r: bool)
    ensures
        r == (rank(x) < rank(y)),
{
    if x.neg {
        !y.neg || x.var > y.var
    } else {
        !y.neg && x.var < y.var
    }
}

fn put(ys: Vec<Lit>, x: Lit) -> (r: Vec<Lit>)
    ensures
        r@ == put_in(ys@, x, 0),
{
    let mut r = ys;
    let mut i: usize = 0;
    while i < r.len()
        invariant
            i <= r@.len(),
            r@ == ys@,
            put_in(ys@, x, 0) == put_in(ys@, x, i as int),
        decreases r.len() - i,
    {
        if r[i] == x {
            return r;
        }
        if ranks_below(x, r[i]) {
            r.insert(i, x);
            return r;
        }
        i += 1;
    }
    r.push(x);
    r
}

} // verus!
