//! What the scripts for a solver mean.

use crate::fexpr::{LeafId, LT};
use crate::flat::{step_leaves, State};
use crate::num::dec;
use crate::sexpr::{
    are_proper, is_proper, is_word, no_names, obeyed, of_sort, op_words, past_blanks, satisfied, stands,
    stands_char, stands_parts, value, with_name, written, written_items, written_read, Names, SV3, SX,
};
use crate::smt::{fits, true_at, NV};
use crate::smtlaw::{
    apply1, apply2, aux_apart, aux_word, given, integer_means, items_proper, junction_means, kind, leaf_ty,
    numeral_means, of_ty, sorted, sym_word, term_means, valued, written1, written2, Ty,
};
use crate::smtlib::{
    aux, aux_terms, declared_leaves, declared_steps, defined, domain_terms, kind_name, kind_of, lit_int, node_term,
    op1, op2, plain, question, same_terms, sym, Term,
};
use crate::temporal::Trace;
use vstd::prelude::*;

verus! {

/// Each leaf has, up to step `last`, a value of its kind, though perhaps not one within the bounds of its type.
pub open spec fn of_kinds(ts: Seq<LT>, x: Trace, last: nat) -> bool {
    forall|t: nat|
        t <= last ==> (#[trigger] x(t)).len() == ts.len() && forall|l: int|
            0 <= l < ts.len() ==> of_ty(leaf_ty(#[trigger] ts[l]), x(t)[l])
}

/// The names of the leaves up to step `last` stand for their values in the trace.
pub open spec fn describes(names: Names, ts: Seq<LT>, x: Trace, last: nat) -> bool {
    forall|l: nat, t: nat|
        l < ts.len() && t <= last ==> names(#[trigger] sym(l as int, t as int)) == Some(
            given(kind_of(ts[l as int]), x(t)[l as int]),
        )
}

/// The formula is made of earlier ones, speaks of steps up to `last`, and its conditions have values.
pub open spec fn is_plain(ts: Seq<LT>, n: NV, i: int, x: Trace, last: nat) -> bool {
    match n {
        NV::Atom(e, s, t) => s <= last && t <= last && sorted(e, ts) == Some(Ty::B) && valued(
            e,
            step_leaves(x(s), x(t)),
        ),
        NV::Domain(t) => t <= last,
        NV::Same(s, t) => s <= last && t <= last,
        NV::Not(a) => a < i,
        NV::And(v) => forall|j: int| 0 <= j < v.len() ==> #[trigger] v[j] < i,
        NV::Or(v) => forall|j: int| 0 <= j < v.len() ==> #[trigger] v[j] < i,
    }
}

/// The names of the first formulas stand for their truth.
pub open spec fn tells_first(names: Names, ts: Seq<LT>, ns: Seq<NV>, x: Trace, n: int) -> bool {
    forall|j: nat| j < n ==> names(#[trigger] aux(j as int)) == Some(SV3::B(true_at(ts, ns, j as int, x)))
}

/// Conditions, their texts and their values.
ghost struct Conds {
    ts: Seq<Term>,
    xs: Seq<SX>,
    bs: Seq<bool>,
}

impl Conds {
    spec fn ok(self, names: Names) -> bool {
        &&& self.ts.len() == self.xs.len()
        &&& self.ts.len() == self.bs.len()
        &&& forall|j: int| 0 <= j < self.ts.len() ==> (#[trigger] self.ts[j]).0 == written(self.xs[j])
        &&& forall|j: int| 0 <= j < self.xs.len() ==> is_proper(#[trigger] self.xs[j])
        &&& forall|j: int| 0 <= j < self.xs.len() ==> value(#[trigger] self.xs[j], names) == Some(SV3::B(self.bs[j]))
    }

    spec fn all(self) -> bool {
        forall|j: int| 0 <= j < self.bs.len() ==> #[trigger] self.bs[j]
    }

    spec fn more(self, t: Seq<char>, x: SX, b: bool) -> Conds {
        Conds { ts: self.ts.push(plain(t)), xs: self.xs.push(x), bs: self.bs.push(b) }
    }

    proof fn added(self, t: Seq<char>, x: SX, b: bool, names: Names)
        requires
            self.ok(names),
            t == written(x),
            is_proper(x),
            value(x, names) == Some(SV3::B(b)),
        ensures
            self.more(t, x, b).ok(names),
            self.more(t, x, b).all() == (self.all() && b),
    {
        let m = self.more(t, x, b);
        assert forall|j: int| 0 <= j < m.ts.len() implies (#[trigger] m.ts[j]).0 == written(m.xs[j]) by {
            if j < self.ts.len() {
                assert(m.ts[j] == self.ts[j]);
            }
        }
        assert forall|j: int| 0 <= j < m.xs.len() implies is_proper(#[trigger] m.xs[j]) by {
            if j < self.xs.len() {
                assert(m.xs[j] == self.xs[j]);
            }
        }
        assert forall|j: int| 0 <= j < m.xs.len() implies value(#[trigger] m.xs[j], names) == Some(SV3::B(m.bs[j])) by {
            if j < self.xs.len() {
                assert(m.xs[j] == self.xs[j]);
            }
        }
        if m.all() {
            assert forall|j: int| 0 <= j < self.bs.len() implies #[trigger] self.bs[j] by {
                assert(m.bs[j]);
            }
            assert(m.bs[self.bs.len() as int]);
        }
        if self.all() && b {
            assert forall|j: int| 0 <= j < m.bs.len() implies #[trigger] m.bs[j] by {
                if j < self.bs.len() {
                    assert(self.bs[j]);
                }
            }
        }
    }
}

/// A comparison of two integers.
proof fn bound_means(op: Seq<char>, a: SX, b: SX, m: int, n: int, names: Names) -> (x: SX)
    requires
        op == "<="@ || op == "<"@,
        is_proper(a),
        is_proper(b),
        value(a, names) == Some(SV3::I(m)),
        value(b, names) == Some(SV3::I(n)),
    ensures
        op2(op, written(a), written(b)) == written(x),
        is_proper(x),
        value(x, names) == Some(
            SV3::B(
                if op == "<="@ {
                    m <= n
                } else {
                    m < n
                },
            ),
        ),
{
    op_words();
    written2(op, a, b);
    apply2(op, a, b, names);
    let xs = seq![value(a, names), value(b, names)];
    assert(xs[0] == value(a, names) && xs[1] == value(b, names));
    SX::List(seq![SX::Word(op), a, b])
}

proof fn zero_means(names: Names)
    ensures
        written(SX::Word("0"@)) == "0"@,
        is_proper(SX::Word("0"@)),
        value(SX::Word("0"@), names) == Some(SV3::I(0)),
{
    numeral_means(0, names);
    reveal_strlit("0");
    assert(dec(0) =~= "0"@) by {
        assert(crate::num::digit_char(0) == '0');
    }
}

/// What the bounds of the types say.
proof fn domain_means(ts: Seq<LT>, t: nat, l: int, c: Conds, names: Names, s: State) -> (r: Conds)
    requires
        0 <= l <= ts.len(),
        c.ok(names),
        s.len() == ts.len(),
        forall|k: int| 0 <= k < ts.len() ==> of_ty(leaf_ty(#[trigger] ts[k]), s[k]),
        forall|k: nat|
            k < ts.len() ==> names(#[trigger] sym(k as int, t as int)) == Some(given(kind_of(ts[k as int]), s[k as int])),
    ensures
        r.ok(names),
        domain_terms(ts, t as int, l, c.ts) == r.ts,
        r.all() == (c.all() && forall|k: int| l <= k < ts.len() ==> fits(#[trigger] ts[k], s[k])),
    decreases ts.len() - l,
{
    if l < ts.len() {
        let y = sym(l, t as int);
        sym_word(l as nat, t, names);
        let v = SX::Word(y);
        assert(written(v) == y);
        assert(is_proper(v));
        assert(of_ty(leaf_ty(ts[l]), s[l]));
        assert(names(sym((l as nat) as int, t as int)) == Some(given(kind_of(ts[l]), s[l])));
        let d = match ts[l] {
            LT::Range(lo, hi) => {
                let n = s[l]->Num_0.n;
                let a = integer_means(lo, names);
                let b = integer_means(hi, names);
                let p = bound_means("<="@, a, v, lo, n, names);
                let q = bound_means("<="@, v, b, n, hi, names);
                c.added(op2("<="@, lit_int(lo), y), p, lo <= n, names);
                let m = c.more(op2("<="@, lit_int(lo), y), p, lo <= n);
                m.added(op2("<="@, y, lit_int(hi)), q, n <= hi, names);
                m.more(op2("<="@, y, lit_int(hi)), q, n <= hi)
            },
            LT::Scalar(_id, elems) => {
                op_words();
                reveal_strlit("<");
                reveal_strlit("<=");
                let n = s[l]->Scalar_1 as int;
                zero_means(names);
                numeral_means(elems.len(), names);
                let a = SX::Word("0"@);
                let b = SX::Word(dec(elems.len() as int));
                let p = bound_means("<="@, a, v, 0, n, names);
                let q = bound_means("<"@, v, b, n, elems.len() as int, names);
                c.added(op2("<="@, "0"@, y), p, 0 <= n, names);
                let m = c.more(op2("<="@, "0"@, y), p, 0 <= n);
                m.added(op2("<"@, y, dec(elems.len() as int)), q, n < elems.len(), names);
                m.more(op2("<"@, y, dec(elems.len() as int)), q, n < elems.len())
            },
            LT::Int { min, max } => {
                let n = s[l]->Num_0.n;
                let m = match min {
                    Some(lo) => {
                        let a = integer_means(lo, names);
                        let p = bound_means("<="@, a, v, lo, n, names);
                        c.added(op2("<="@, lit_int(lo), y), p, lo <= n, names);
                        c.more(op2("<="@, lit_int(lo), y), p, lo <= n)
                    },
                    None => c,
                };
                match max {
                    Some(hi) => {
                        let b = integer_means(hi, names);
                        let q = bound_means("<="@, v, b, n, hi, names);
                        m.added(op2("<="@, y, lit_int(hi)), q, n <= hi, names);
                        m.more(op2("<="@, y, lit_int(hi)), q, n <= hi)
                    },
                    None => m,
                }
            },
            _ => c,
        };
        assert(d.ok(names));
        assert(d.all() == (c.all() && fits(ts[l], s[l])));
        let r = domain_means(ts, t, l + 1, d, names, s);
        r
    } else {
        c
    }
}

/// What the equality of two states says.
proof fn same_means(ts: Seq<LT>, a: nat, b: nat, l: int, c: Conds, names: Names, s: State, t: State) -> (r: Conds)
    requires
        0 <= l <= ts.len(),
        c.ok(names),
        s.len() == ts.len(),
        t.len() == ts.len(),
        forall|k: int| 0 <= k < ts.len() ==> of_ty(leaf_ty(#[trigger] ts[k]), s[k]) && of_ty(leaf_ty(ts[k]), t[k]),
        forall|k: nat|
            k < ts.len() ==> names(#[trigger] sym(k as int, a as int)) == Some(given(kind_of(ts[k as int]), s[k as int])),
        forall|k: nat|
            k < ts.len() ==> names(#[trigger] sym(k as int, b as int)) == Some(given(kind_of(ts[k as int]), t[k as int])),
    ensures
        r.ok(names),
        same_terms(ts.len(), a as int, b as int, l, c.ts) == r.ts,
        r.all() == (c.all() && forall|k: int| l <= k < ts.len() ==> #[trigger] s[k] == t[k]),
    decreases ts.len() - l,
{
    if l < ts.len() {
        op_words();
        let p = SX::Word(sym(l, a as int));
        let q = SX::Word(sym(l, b as int));
        sym_word(l as nat, a, names);
        sym_word(l as nat, b, names);
        assert(is_proper(p) && is_proper(q));
        assert(names(sym((l as nat) as int, a as int)) == Some(given(kind_of(ts[l]), s[l])));
        assert(names(sym((l as nat) as int, b as int)) == Some(given(kind_of(ts[l]), t[l])));
        assert(of_ty(leaf_ty(ts[l]), s[l]) && of_ty(leaf_ty(ts[l]), t[l]));
        written2("="@, p, q);
        apply2("="@, p, q, names);
        let xs = seq![value(p, names), value(q, names)];
        assert(xs[0] == value(p, names) && xs[1] == value(q, names));
        let x = SX::List(seq![SX::Word("="@), p, q]);
        let w = op2("="@, sym(l, a as int), sym(l, b as int));
        c.added(w, x, s[l] == t[l], names);
        let d = c.more(w, x, s[l] == t[l]);
        let r = same_means(ts, a, b, l + 1, d, names, s, t);
        r
    } else {
        c
    }
}

proof fn aux_conds(v: Seq<usize>, ts: Seq<LT>, ns: Seq<NV>, x: Trace, i: int, names: Names) -> (r: Conds)
    requires
        tells_first(names, ts, ns, x, i),
        forall|j: int| 0 <= j < v.len() ==> #[trigger] v[j] < i,
    ensures
        r.ok(names),
        r.ts == aux_terms(v),
        r.bs.len() == v.len(),
        forall|j: int| 0 <= j < v.len() ==> #[trigger] r.bs[j] == true_at(ts, ns, v[j] as int, x),
{
    let r = Conds {
        ts: aux_terms(v),
        xs: Seq::new(v.len(), |j: int| SX::Word(aux(v[j] as int))),
        bs: Seq::new(v.len(), |j: int| true_at(ts, ns, v[j] as int, x)),
    };
    assert forall|j: int| 0 <= j < r.xs.len() implies is_proper(#[trigger] r.xs[j]) && value(r.xs[j], names) == Some(
        SV3::B(r.bs[j]),
    ) && r.ts[j].0 == written(r.xs[j]) by {
        aux_word(v[j] as nat, names);
        assert(v[j] < i);
        assert(names(aux((v[j] as nat) as int)) == Some(SV3::B(true_at(ts, ns, v[j] as int, x))));
    }
    assert forall|j: int| 0 <= j < r.ts.len() implies (#[trigger] r.ts[j]).0 == written(r.xs[j]) by {
        assert(is_proper(r.xs[j]));
    }
    r
}

/// The written formula has the truth of the formula.
pub proof fn node_means(ts: Seq<LT>, ns: Seq<NV>, i: int, x: Trace, last: nat, names: Names) -> (y: SX)
    requires
        0 <= i < ns.len(),
        is_plain(ts, ns[i], i, x, last),
        of_kinds(ts, x, last),
        describes(names, ts, x, last),
        tells_first(names, ts, ns, x, i),
    ensures
        node_term(ns[i], ts) == Some(written(y)),
        is_proper(y),
        value(y, names) == Some(SV3::B(true_at(ts, ns, i, x))),
{
    let none = Conds { ts: Seq::empty(), xs: Seq::empty(), bs: Seq::empty() };
    assert(none.ok(names) && none.all());
    match ns[i] {
        NV::Atom(e, s, t) => {
            let env = step_leaves(x(s), x(t));
            assert(x(s).len() == ts.len() && x(t).len() == ts.len());
            assert forall|l: LeafId, p: bool| l < ts.len() implies ((#[trigger] env(l, p)) matches Some(v) && of_ty(
                leaf_ty(ts[l as int]),
                v,
            ) && names(
                sym(
                    l as int,
                    if p {
                        t as int
                    } else {
                        s as int
                    },
                ),
            ) == Some(given(kind_of(ts[l as int]), v))) by {
                assert(names(sym((l as nat) as int, s as int)) == Some(
                    given(kind_of(ts[l as int]), x(s)[l as int]),
                ));
                assert(names(sym((l as nat) as int, t as int)) == Some(
                    given(kind_of(ts[l as int]), x(t)[l as int]),
                ));
                assert(of_ty(leaf_ty(ts[l as int]), x(s)[l as int]));
                assert(of_ty(leaf_ty(ts[l as int]), x(t)[l as int]));
            }
            let y = term_means(e, ts, s, t, env, names);
            y
        },
        NV::Domain(t) => {
            assert(x(t).len() == ts.len());
            let r = domain_means(ts, t, 0, none, names, x(t));
            let y = junction_means(true, r.ts, r.xs, r.bs, names);
            y
        },
        NV::Same(s, t) => {
            assert(x(s).len() == ts.len() && x(t).len() == ts.len());
            let r = same_means(ts, s, t, 0, none, names, x(s), x(t));
            let y = junction_means(true, r.ts, r.xs, r.bs, names);
            if r.all() {
                assert(x(s) =~= x(t));
            }
            y
        },
        NV::Not(a) => {
            op_words();
            aux_word(a as nat, names);
            let w = SX::Word(aux(a as int));
            assert(names(aux((a as nat) as int)) == Some(SV3::B(true_at(ts, ns, a as int, x))));
            assert(is_proper(w));
            written1("not"@, w);
            apply1("not"@, w, names);
            let xs = seq![value(w, names)];
            assert(xs[0] == value(w, names));
            assert(crate::sexpr::all_b(xs));
            SX::List(seq![SX::Word("not"@), w])
        },
        NV::And(v) => {
            let r = aux_conds(v, ts, ns, x, i, names);
            let y = junction_means(true, r.ts, r.xs, r.bs, names);
            if r.all() {
                assert forall|j: int| 0 <= j < v.len() implies #[trigger] v[j] < i && true_at(ts, ns, v[j] as int, x) by {
                    assert(r.bs[j]);
                }
            }
            if true_at(ts, ns, i, x) {
                assert forall|j: int| 0 <= j < r.bs.len() implies #[trigger] r.bs[j] by {
                    assert(v[j] < i && true_at(ts, ns, v[j] as int, x));
                }
            }
            y
        },
        NV::Or(v) => {
            let r = aux_conds(v, ts, ns, x, i, names);
            let y = junction_means(false, r.ts, r.xs, r.bs, names);
            if exists|j: int| 0 <= j < r.bs.len() && #[trigger] r.bs[j] {
                let j = choose|j: int| 0 <= j < r.bs.len() && #[trigger] r.bs[j];
                assert(v[j] < i && true_at(ts, ns, v[j] as int, x));
            }
            if true_at(ts, ns, i, x) {
                let j = choose|j: int| 0 <= j < v.len() && #[trigger] v[j] < i && true_at(ts, ns, v[j] as int, x);
                assert(r.bs[j]);
            }
            y
        },
    }
}

/// The text begins with the other.
spec fn leads(a: Seq<char>, s: Seq<char>) -> bool {
    a.len() <= s.len() && s.take(a.len() as int) == a
}

proof fn leads_stands(a: Seq<char>, b: Seq<char>, s: Seq<char>)
    requires
        leads(a + b, s),
    ensures
        leads(a, s),
        stands(s, a.len() as int, b),
{
    let z = a + b;
    assert(s.take(a.len() as int) =~= a) by {
        assert forall|k: int| 0 <= k < a.len() implies s.take(a.len() as int)[k] == a[k] by {
            assert(s.take(z.len() as int)[k] == z[k]);
        }
    }
    assert(s.subrange(a.len() as int, a.len() as int + b.len()) =~= b) by {
        assert forall|k: int| 0 <= k < b.len() implies s.subrange(a.len() as int, a.len() as int + b.len())[k] == b[k] by {
            assert(s.take(z.len() as int)[a.len() + k] == z[a.len() + k]);
        }
    }
}

/// One command on a line of its own.
proof fn command_obeyed(s: Seq<char>, p: int, k: int, x: SX, names: Names, model: Names)
    requires
        0 <= p <= k,
        past_blanks(s, p) == k,
        is_proper(x),
        x is List,
        stands(s, k, written(x) + seq!['\n']),
    ensures
        satisfied(s, p, names, model) == match obeyed(x, names, model) {
            Some(more) => satisfied(s, k + written(x).len(), more, model),
            None => false,
        },
        s[k + written(x).len()] == '\n',
        k + written(x).len() < s.len(),
{
    let t = written(x);
    stands_parts(s, k, t, seq!['\n']);
    stands_char(s, k + t.len(), seq!['\n'], 0);
    written_read(s, k, x);
    assert(t.len() > 0) by {
        assert(t[0] == '(');
    }
    reveal_with_fuel(satisfied, 2);
}

/// A list that starts with a word and has one more item.
proof fn pair_text(c: Seq<char>, x: SX)
    requires
        is_word(c),
        is_proper(x),
    ensures
        written(SX::List(seq![SX::Word(c), x])) == seq!['('] + c + seq![' '] + written(x) + seq![')'],
        is_proper(SX::List(seq![SX::Word(c), x])),
{
    written1(c, x);
    reveal_strlit("(");
    reveal_strlit(" ");
    reveal_strlit(")");
    assert(op1(c, written(x)) =~= seq!['('] + c + seq![' '] + written(x) + seq![')']);
}

proof fn command_words()
    ensures
        is_word("set-logic"@),
        is_word("declare-const"@),
        is_word("define-fun"@),
        is_word("assert"@),
        is_word("check-sat"@),
        is_word("ALL"@),
        is_word("Bool"@),
        is_word("Int"@),
        is_word("Real"@),
        "declare-const"@ != "set-logic"@,
        "declare-const"@ != "check-sat"@,
        "define-fun"@ != "set-logic"@,
        "define-fun"@ != "check-sat"@,
        "define-fun"@ != "declare-const"@,
        "assert"@ != "set-logic"@,
        "assert"@ != "check-sat"@,
        "assert"@ != "declare-const"@,
        "assert"@ != "define-fun"@,
        "Bool"@ != "Int"@,
        "Bool"@ != "Real"@,
        "Int"@ != "Real"@,
{
    reveal_strlit("set-logic");
    reveal_strlit("declare-const");
    reveal_strlit("define-fun");
    reveal_strlit("assert");
    reveal_strlit("check-sat");
    reveal_strlit("ALL");
    reveal_strlit("Bool");
    reveal_strlit("Int");
    reveal_strlit("Real");
    assert("set-logic"@.len() == 9 && "declare-const"@.len() == 13 && "define-fun"@.len() == 10 && "assert"@.len() == 6
        && "check-sat"@.len() == 9);
    assert("Bool"@[0] == 'B' && "Int"@[0] == 'I' && "Real"@[0] == 'R');
}

/// The declared names are known.
spec fn knows(names: Names, model: Names, n: nat, t: int, l: int) -> bool {
    forall|k: nat, u: nat|
        k < n && (u < t || (u == t && k < l)) ==> names(#[trigger] sym(k as int, u as int)) == model(
            sym(k as int, u as int),
        )
}

/// A declaration.
proof fn declaration_obeyed(s: Seq<char>, p: int, k: int, w: Seq<char>, sort: Seq<char>, names: Names, model: Names)
    requires
        0 <= p <= k,
        past_blanks(s, p) == k,
        is_word(w),
        is_word(sort),
        of_sort(model(w), sort),
        stands(s, k, "(declare-const "@ + w + " "@ + sort + ")\n"@),
    ensures
        satisfied(s, p, names, model) == satisfied(
            s,
            k + ("(declare-const "@ + w + " "@ + sort + ")\n"@).len() - 1,
            with_name(names, w, model(w)),
            model,
        ),
        s[k + ("(declare-const "@ + w + " "@ + sort + ")\n"@).len() - 1] == '\n',
{
    command_words();
    reveal_strlit("(declare-const ");
    reveal_strlit("declare-const");
    reveal_strlit(" ");
    reveal_strlit(")\n");
    reveal_strlit("(");
    reveal_strlit(")");
    let c = "declare-const"@;
    let a = SX::Word(w);
    let b = SX::Word(sort);
    let x = SX::List(seq![SX::Word(c), a, b]);
    assert(is_proper(a) && is_proper(b));
    written2(c, a, b);
    assert(written(a) == w && written(b) == sort);
    assert("(declare-const "@ + w + " "@ + sort + ")\n"@ =~= op2(c, w, sort) + seq!['\n']);
    command_obeyed(s, p, k, x, names, model);
    let v = seq![SX::Word(c), a, b];
    assert(v[0] == SX::Word(c) && v[1] == a && v[2] == b);
}

proof fn after_line(s: Seq<char>, p: int)
    requires
        0 <= p,
        p + 1 < s.len(),
        s[p] == '\n',
        s[p + 1] == '(',
    ensures
        past_blanks(s, p) == p + 1,
{
    reveal_with_fuel(past_blanks, 3);
}

proof fn leaves_grow(out: Seq<char>, ts: Seq<LT>, t: int, l: int, s: Seq<char>)
    requires
        leads(declared_leaves(out, ts, t, l), s),
    ensures
        leads(out, s),
    decreases ts.len() - l,
{
    if 0 <= l < ts.len() {
        let line = "(declare-const "@ + sym(l, t) + " "@ + kind_name(kind_of(ts[l])) + ")\n"@;
        let next = out + "(declare-const "@ + sym(l, t) + " "@ + kind_name(kind_of(ts[l])) + ")\n"@;
        assert(next =~= out + line);
        leaves_grow(next, ts, t, l + 1, s);
        leads_stands(out, line, s);
    }
}

proof fn steps_grow(out: Seq<char>, ts: Seq<LT>, t: int, last: int, s: Seq<char>)
    requires
        leads(declared_steps(out, ts, t, last), s),
    ensures
        leads(out, s),
    decreases last - t + 1,
{
    if t <= last {
        steps_grow(declared_leaves(out, ts, t, 0), ts, t + 1, last, s);
        leaves_grow(out, ts, t, 0, s);
    }
}

proof fn defined_grows(out: Seq<char>, ns: Seq<NV>, ts: Seq<LT>, i: int, s: Seq<char>)
    requires
        defined(out, ns, ts, i) matches Some(d) && leads(d, s),
    ensures
        leads(out, s),
    decreases ns.len() - i,
{
    if 0 <= i < ns.len() {
        let x = node_term(ns[i], ts)->0;
        let line = "(define-fun "@ + aux(i) + " () Bool "@ + x + ")\n"@;
        let next = out + "(define-fun "@ + aux(i) + " () Bool "@ + x + ")\n"@;
        assert(next =~= out + line);
        defined_grows(next, ns, ts, i + 1, s);
        leads_stands(out, line, s);
    }
}

/// The declarations of the leaves of one step.
proof fn leaves_obeyed(
    s: Seq<char>,
    out: Seq<char>,
    ts: Seq<LT>,
    t: nat,
    l: int,
    names: Names,
    model: Names,
    x: Trace,
    last: nat,
) -> (r: Names)
    requires
        0 <= l <= ts.len(),
        t <= last,
        out.len() > 0,
        out.last() == '\n',
        leads(declared_leaves(out, ts, t as int, l), s),
        of_kinds(ts, x, last),
        describes(model, ts, x, last),
        knows(names, model, ts.len(), t as int, l),
    ensures
        declared_leaves(out, ts, t as int, l).len() > 0,
        declared_leaves(out, ts, t as int, l).last() == '\n',
        satisfied(s, out.len() - 1, names, model) == satisfied(
            s,
            declared_leaves(out, ts, t as int, l).len() - 1,
            r,
            model,
        ),
        knows(r, model, ts.len(), t as int + 1, 0),
    decreases ts.len() - l,
{
    leaves_grow(out, ts, t as int, l, s);
    if l < ts.len() {
        let w = sym(l, t as int);
        let sort = kind_name(kind_of(ts[l]));
        let line = "(declare-const "@ + w + " "@ + sort + ")\n"@;
        let next = out + "(declare-const "@ + w + " "@ + sort + ")\n"@;
        assert(next =~= out + line);
        leaves_grow(next, ts, t as int, l + 1, s);
        leads_stands(out, line, s);
        sym_word(l as nat, t, model);
        command_words();
        assert(x(t).len() == ts.len());
        assert(of_ty(leaf_ty(ts[l]), x(t)[l]));
        assert(model(sym((l as nat) as int, t as int)) == Some(given(kind_of(ts[l]), x(t)[l])));
        let p = out.len() - 1;
        assert(s[p] == '\n') by {
            assert(s.take(out.len() as int)[p] == out[p]);
        }
        reveal_strlit("(declare-const ");
        assert(line[0] == '(');
        stands_char(s, out.len() as int, line, 0);
        after_line(s, p);
        declaration_obeyed(s, p, p + 1, w, sort, names, model);
        let more = with_name(names, w, model(w));
        assert forall|k: nat, u: nat| k < ts.len() && (u < t || (u == t && k < l + 1)) implies more(
            #[trigger] sym(k as int, u as int),
        ) == model(sym(k as int, u as int)) by {
            if !(u == t && k == l) {
                assert(names(sym(k as int, u as int)) == model(sym(k as int, u as int)));
            }
        }
        reveal_strlit(")\n");
        assert(next.last() == '\n');
        assert(next.len() - 1 == p + 1 + line.len() - 1);
        leaves_obeyed(s, next, ts, t, l + 1, more, model, x, last)
    } else {
        assert forall|k: nat, u: nat| k < ts.len() && (u < t + 1 || (u == t + 1 && k < 0)) implies names(
            #[trigger] sym(k as int, u as int),
        ) == model(sym(k as int, u as int)) by {}
        names
    }
}

proof fn steps_obeyed(
    s: Seq<char>,
    out: Seq<char>,
    ts: Seq<LT>,
    t: nat,
    last: nat,
    names: Names,
    model: Names,
    x: Trace,
) -> (r: Names)
    requires
        t <= last + 1,
        out.len() > 0,
        out.last() == '\n',
        leads(declared_steps(out, ts, t as int, last as int), s),
        of_kinds(ts, x, last),
        describes(model, ts, x, last),
        knows(names, model, ts.len(), t as int, 0),
    ensures
        declared_steps(out, ts, t as int, last as int).len() > 0,
        declared_steps(out, ts, t as int, last as int).last() == '\n',
        satisfied(s, out.len() - 1, names, model) == satisfied(
            s,
            declared_steps(out, ts, t as int, last as int).len() - 1,
            r,
            model,
        ),
        knows(r, model, ts.len(), last as int + 1, 0),
    decreases last + 1 - t,
{
    if t <= last {
        let next = declared_leaves(out, ts, t as int, 0);
        steps_grow(next, ts, t as int + 1, last as int, s);
        let more = leaves_obeyed(s, out, ts, t, 0, names, model, x, last);
        steps_obeyed(s, next, ts, t + 1, last, more, model, x)
    } else {
        names
    }
}

/// A definition of a truth value.
proof fn definition_obeyed(s: Seq<char>, p: int, k: int, w: Seq<char>, y: SX, names: Names, model: Names)
    requires
        0 <= p <= k,
        past_blanks(s, p) == k,
        is_word(w),
        is_proper(y),
        value(y, names) matches Some(SV3::B(_)),
        stands(s, k, "(define-fun "@ + w + " () Bool "@ + written(y) + ")\n"@),
    ensures
        satisfied(s, p, names, model) == satisfied(
            s,
            k + ("(define-fun "@ + w + " () Bool "@ + written(y) + ")\n"@).len() - 1,
            with_name(names, w, value(y, names)),
            model,
        ),
{
    command_words();
    reveal_strlit("(define-fun ");
    reveal_strlit("define-fun");
    reveal_strlit(" () Bool ");
    reveal_strlit("Bool");
    reveal_strlit(")\n");
    let c = "define-fun"@;
    let none = SX::List(Seq::<SX>::empty());
    let a = SX::Word(w);
    let b = SX::Word("Bool"@);
    let v = seq![SX::Word(c), a, none, b, y];
    let x = SX::List(v);
    assert(v[0] == SX::Word(c) && v[1] == a && v[2] == none && v[3] == b && v[4] == y);
    assert(v =~= seq![SX::Word(c)] + seq![a, none, b, y]);
    assert(is_proper(a) && is_proper(b));
    assert(is_proper(none)) by {
        assert(are_proper(Seq::<SX>::empty(), 0));
    }
    let items = seq![a, none, b, y];
    assert forall|j: int| 0 <= j < items.len() implies is_proper(#[trigger] items[j]) by {}
    items_proper(c, items, 0);
    assert(written(none) =~= seq!['(', ')']) by {
        assert(written_items(Seq::<SX>::empty(), 0) =~= Seq::empty());
    }
    assert(written(a) == w && written(b) == "Bool"@ && written(SX::Word(c)) == c);
    assert(written_items(v, 5) =~= Seq::empty());
    assert(written_items(v, 4) =~= seq![' '] + written(y));
    assert(written_items(v, 3) =~= seq![' '] + "Bool"@ + written_items(v, 4));
    assert(written_items(v, 2) =~= seq![' ', '(', ')'] + written_items(v, 3));
    assert(written_items(v, 1) =~= seq![' '] + w + written_items(v, 2));
    assert(written_items(v, 0) =~= c + written_items(v, 1));
    assert("(define-fun "@ + w + " () Bool "@ + written(y) + ")\n"@ =~= written(x) + seq!['\n']);
    command_obeyed(s, p, k, x, names, model);
}

/// The definitions of the formulas.
proof fn formulas_obeyed(
    s: Seq<char>,
    out: Seq<char>,
    ns: Seq<NV>,
    ts: Seq<LT>,
    i: int,
    names: Names,
    model: Names,
    x: Trace,
    last: nat,
) -> (r: Names)
    requires
        0 <= i <= ns.len(),
        out.len() > 0,
        out.last() == '\n',
        of_kinds(ts, x, last),
        forall|j: int| 0 <= j < ns.len() ==> is_plain(ts, #[trigger] ns[j], j, x, last),
        describes(names, ts, x, last),
        tells_first(names, ts, ns, x, i),
        defined(out, ns, ts, i) matches Some(d) ==> leads(d, s),
    ensures
        defined(out, ns, ts, i) matches Some(d) && d.len() > 0 && d.last() == '\n' && satisfied(
            s,
            out.len() - 1,
            names,
            model,
        ) == satisfied(s, d.len() - 1, r, model),
        tells_first(r, ts, ns, x, ns.len() as int),
    decreases ns.len() - i,
{
    if i < ns.len() {
        let y = node_means(ts, ns, i, x, last, names);
        let line = "(define-fun "@ + aux(i) + " () Bool "@ + written(y) + ")\n"@;
        let next = out + "(define-fun "@ + aux(i) + " () Bool "@ + written(y) + ")\n"@;
        assert(next =~= out + line);
        aux_word(i as nat, names);
        let b = true_at(ts, ns, i, x);
        let more = with_name(names, aux(i), Some(SV3::B(b)));
        assert forall|l: nat, t: nat| l < ts.len() && t <= last implies more(#[trigger] sym(l as int, t as int)) == Some(
            given(kind_of(ts[l as int]), x(t)[l as int]),
        ) by {
            sym_word(l, t, names);
            assert(names(sym(l as int, t as int)) == Some(given(kind_of(ts[l as int]), x(t)[l as int])));
        }
        assert forall|j: nat| j < i + 1 implies more(#[trigger] aux(j as int)) == Some(
            SV3::B(true_at(ts, ns, j as int, x)),
        ) by {
            if aux(j as int) == aux(i) {
                aux_apart(j, i as nat);
            } else {
                assert(names(aux(j as int)) == Some(SV3::B(true_at(ts, ns, j as int, x))));
            }
        }
        reveal_strlit(")\n");
        assert(next.last() == '\n');
        let r = formulas_obeyed(s, next, ns, ts, i + 1, more, model, x, last);
        defined_grows(next, ns, ts, i + 1, s);
        leads_stands(out, line, s);
        let p = out.len() - 1;
        assert(s[p] == '\n') by {
            assert(s.take(out.len() as int)[p] == out[p]);
        }
        reveal_strlit("(define-fun ");
        assert(line[0] == '(');
        stands_char(s, out.len() as int, line, 0);
        after_line(s, p);
        definition_obeyed(s, p, p + 1, aux(i), y, names, model);
        assert(next.len() - 1 == p + 1 + line.len() - 1);
        r
    } else {
        names
    }
}

/// The first line.
proof fn opening_obeyed(s: Seq<char>, names: Names, model: Names)
    requires
        leads("(set-logic ALL)\n"@, s),
    ensures
        "(set-logic ALL)\n"@.len() > 0,
        "(set-logic ALL)\n"@.last() == '\n',
        satisfied(s, 0, names, model) == satisfied(s, "(set-logic ALL)\n"@.len() - 1, names, model),
{
    command_words();
    let start = "(set-logic ALL)\n"@;
    let l = SX::List(seq![SX::Word("set-logic"@), SX::Word("ALL"@)]);
    assert(is_proper(SX::Word("ALL"@)));
    pair_text("set-logic"@, SX::Word("ALL"@));
    reveal_strlit("(set-logic ALL)\n");
    reveal_strlit("set-logic");
    reveal_strlit("ALL");
    assert(written(SX::Word("ALL"@)) == "ALL"@);
    assert(start =~= written(l) + seq!['\n']);
    assert(s.subrange(0, start.len() as int) =~= start) by {
        assert(s.take(start.len() as int) =~= s.subrange(0, start.len() as int));
    }
    assert(stands(s, 0, start));
    stands_char(s, 0, start, 0);
    assert(start[0] == '(');
    assert(past_blanks(s, 0) == 0);
    command_obeyed(s, 0, 0, l, names, model);
    let v = seq![SX::Word("set-logic"@), SX::Word("ALL"@)];
    assert(v[0] == SX::Word("set-logic"@));
}

/// The last two lines.
proof fn closing_obeyed(s: Seq<char>, d: Seq<char>, root: nat, b: bool, names: Names, model: Names)
    requires
        d.len() > 0,
        d.last() == '\n',
        names(aux(root as int)) == Some(SV3::B(b)),
        s == d + ("(assert "@ + aux(root as int) + ")\n(check-sat)\n"@),
    ensures
        satisfied(s, d.len() - 1, names, model) == b,
{
    command_words();
    let tail = "(assert "@ + aux(root as int) + ")\n(check-sat)\n"@;
    reveal_strlit("(assert ");
    reveal_strlit("assert");
    reveal_strlit(")\n(check-sat)\n");
    reveal_strlit("check-sat");
    aux_word(root, names);
    let w = SX::Word(aux(root as int));
    assert(is_proper(w));
    let a = SX::List(seq![SX::Word("assert"@), w]);
    pair_text("assert"@, w);
    assert(written(w) == aux(root as int));
    let one = seq![SX::Word("check-sat"@)];
    let c = SX::List(one);
    assert(one =~= seq![SX::Word("check-sat"@)] + Seq::<SX>::empty());
    items_proper("check-sat"@, Seq::empty(), 0);
    assert(one[0] == SX::Word("check-sat"@));
    assert(written(SX::Word("check-sat"@)) == "check-sat"@);
    assert(written_items(one, 1) =~= Seq::empty());
    assert(written_items(one, 0) =~= "check-sat"@);
    assert(written(c) =~= seq!['('] + "check-sat"@ + seq![')']);
    assert(tail =~= (written(a) + seq!['\n']) + (written(c) + seq!['\n']));
    assert(stands(s, d.len() as int, tail)) by {
        assert(s.subrange(d.len() as int, d.len() as int + tail.len()) =~= tail);
    }
    stands_parts(s, d.len() as int, written(a) + seq!['\n'], written(c) + seq!['\n']);
    let p = d.len() - 1;
    assert(s[p] == d[p]);
    assert((written(a) + seq!['\n'])[0] == '(');
    stands_char(s, d.len() as int, written(a) + seq!['\n'], 0);
    after_line(s, p);
    command_obeyed(s, p, p + 1, a, names, model);
    let v = seq![SX::Word("assert"@), w];
    assert(v[0] == SX::Word("assert"@) && v[1] == w);
    let q = d.len() as int + written(a).len();
    assert((written(c) + seq!['\n'])[0] == '(');
    stands_char(s, q + 1, written(c) + seq!['\n'], 0);
    after_line(s, q);
    command_obeyed(s, q, q + 1, c, names, model);
    let e = q + 1 + written(c).len();
    assert(e + 1 == s.len());
    last_blank(s, e, names, model);
}

proof fn last_blank(s: Seq<char>, e: int, names: Names, model: Names)
    requires
        0 <= e,
        e + 1 == s.len(),
        s[e] == '\n',
    ensures
        satisfied(s, e, names, model),
{
    reveal_with_fuel(past_blanks, 3);
    assert(past_blanks(s, e) == s.len());
}

/// The script that asks for a formula about the steps up to `last` is satisfied in a model exactly where the formula
/// is true of the trace whose values the model gives to the names of the leaves.
pub proof fn script_means(ns: Seq<NV>, ts: Seq<LT>, root: int, last: nat, x: Trace, model: Names)
    requires
        0 <= root < ns.len(),
        of_kinds(ts, x, last),
        forall|j: int| 0 <= j < ns.len() ==> is_plain(ts, #[trigger] ns[j], j, x, last),
        describes(model, ts, x, last),
    ensures
        question(ns, ts, root, last as int) matches Some(s) && satisfied(s, 0, no_names(), model) == true_at(
            ts,
            ns,
            root,
            x,
        ),
{
    let start = "(set-logic ALL)\n"@;
    let mid = declared_steps(start, ts, 0, last as int);
    formulas_some(mid, ns, ts, 0, x, last);
    let d = defined(mid, ns, ts, 0)->0;
    let tail = "(assert "@ + aux(root) + ")\n(check-sat)\n"@;
    let s = d + "(assert "@ + aux(root) + ")\n(check-sat)\n"@;
    assert(s =~= d + tail);
    assert(leads(d, s)) by {
        assert(s.take(d.len() as int) =~= d);
    }
    defined_grows(mid, ns, ts, 0, s);
    steps_grow(start, ts, 0, last as int, s);
    opening_obeyed(s, no_names(), model);
    let known = steps_obeyed(s, start, ts, 0, last, no_names(), model, x);
    assert forall|k: nat, t: nat| k < ts.len() && t <= last implies known(#[trigger] sym(k as int, t as int)) == Some(
        given(kind_of(ts[k as int]), x(t)[k as int]),
    ) by {
        assert(known(sym(k as int, t as int)) == model(sym(k as int, t as int)));
    }
    let told = formulas_obeyed(s, mid, ns, ts, 0, known, model, x, last);
    assert(told(aux((root as nat) as int)) == Some(SV3::B(true_at(ts, ns, root, x))));
    closing_obeyed(s, d, root as nat, true_at(ts, ns, root, x), told, model);
}

/// All formulas can be written.
proof fn formulas_some(out: Seq<char>, ns: Seq<NV>, ts: Seq<LT>, i: int, x: Trace, last: nat)
    requires
        0 <= i <= ns.len(),
        of_kinds(ts, x, last),
        forall|j: int| 0 <= j < ns.len() ==> is_plain(ts, #[trigger] ns[j], j, x, last),
    ensures
        defined(out, ns, ts, i) is Some,
    decreases ns.len() - i,
{
    if i < ns.len() {
        node_some(ts, ns, i, x, last);
        let t = node_term(ns[i], ts)->0;
        formulas_some(out + "(define-fun "@ + aux(i) + " () Bool "@ + t + ")\n"@, ns, ts, i + 1, x, last);
    }
}

proof fn node_some(ts: Seq<LT>, ns: Seq<NV>, i: int, x: Trace, last: nat)
    requires
        0 <= i < ns.len(),
        is_plain(ts, ns[i], i, x, last),
        of_kinds(ts, x, last),
    ensures
        node_term(ns[i], ts) is Some,
{
    match ns[i] {
        NV::Atom(e, s, t) => {
            crate::smtlaw::term_some(e, ts, s, t);
        },
        _ => {},
    }
}

} // verus!
