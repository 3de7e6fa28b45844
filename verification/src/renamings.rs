//! What instances and renamings of modules mean.

use crate::ast::{LhsV, ModuleV};
use crate::calc::{data_value, grounds, with_args};
use crate::compose::{rename_place, renamed_vars};
use crate::compositions::{gives, same_behaviour, Built};
use crate::elaboration::{
    build, build_rules, f_instance, f_module_body, f_module_rest, f_rename_targets, f_slice_ctype, f_slice_skel,
    DEPTH,
};
use crate::env::EntryV;
use crate::evaluations::{declared, exprs_are, names_declared, scope_with, values_of, Scope};
use crate::judgement::World;
use crate::meaning::entry_at;
use crate::skel::{ambient, LeafV, VarE, VarsV};
use crate::sval::{ClosureV, SV};
use crate::types::Tid;
use crate::value::Val;
use vstd::prelude::*;

verus! {

/// An instance of a declared module is the module, in its own context, where its parameters, in order, have the values
/// of the actuals and nothing else is in scope.
pub proof fn instance_law(
    w: World,
    k: nat,
    at: nat,
    x: ModuleV,
    lo: Scope,
    amb: VarsV,
    ls: Seq<LeafV>,
    r: Built,
    vs: Seq<SV>,
)
    requires
        x.kind is Instance,
        gives(w, k + 1, at, x, lo, amb, ls, r),
        values_of(w, DEPTH as nat, at, x.kind->Instance_1, lo, vs),
    ensures
        entry_at(w, at, x.kind->Instance_0) matches Some(found) && (found.1 matches EntryV::Module(_p, _s, def, ds)
            && declared(ds, 0).len() == vs.len() && gives(
            w,
            k,
            found.0,
            def,
            scope_with(Seq::empty(), declared(ds, 0), vs),
            amb,
            ls,
            r,
        )),
{
    build_rules(w, (k + 1) as nat);
    reveal(f_module_body);
    reveal(f_instance);
    exprs_are(w, DEPTH as nat, at, x.kind->Instance_1, lo, vs);
    match entry_at(w, at, x.kind->Instance_0) {
        Some(found) => match found.1 {
            EntryV::Module(_p, _s, def, ds) => {
                let none = Seq::<Seq<char>>::empty();
                names_declared(ds, 0, none);
                assert(none + declared(ds, 0) =~= declared(ds, 0));
                let nolo: Scope = Seq::empty();
                if declared(ds, 0).len() == vs.len() {
                    assert(with_args(nolo, declared(ds, 0), vs) =~= scope_with(nolo, declared(ds, 0), vs));
                }
            },
            _ => {},
        },
        None => {},
    }
}

/// The variable goes by the same name where it is not renamed, and by the new name where it is renamed to one that
/// nothing around the module has.
pub open spec fn renamed_in(vs: VarsV, v: (Seq<char>, VarE), rs: Seq<(LhsV, LhsV)>, amb: VarsV) -> bool {
    match rename_place(rs, v.0, 0) {
        None => vs.contains(v),
        Some(p) => rs[p as int].1.accesses.len() == 0 && ambient(amb, rs[p as int].1.base.name) is None ==> vs.contains(
            (rs[p as int].1.base.name, v.1),
        ),
    }
}

proof fn renamed_are(vars: VarsV, rs: Seq<(LhsV, LhsV)>, amb: VarsV, ls: Seq<LeafV>, i: int, acc: VarsV)
    requires
        0 <= i <= vars.len(),
    ensures
        forall|v: (Seq<char>, VarE)|
            acc.contains(v) ==> #[trigger] renamed_vars(vars, rs, amb, ls, i, acc).0.contains(v),
        forall|j: int|
            i <= j < vars.len() ==> renamed_in(renamed_vars(vars, rs, amb, ls, i, acc).0, #[trigger] vars[j], rs, amb),
    decreases vars.len() - i,
{
    let res = renamed_vars(vars, rs, amb, ls, i, acc).0;
    if i < vars.len() {
        let to = rs[rename_place(rs, vars[i].0, 0)->0 as int].1;
        let (next, more) = match rename_place(rs, vars[i].0, 0) {
            None => (acc.push(vars[i]), ls),
            Some(p) => if to.accesses.len() == 0 && ambient(amb, to.base.name) is None {
                (
                    acc.push((to.base.name, vars[i].1)),
                    crate::skel::renamed_leaves(ls, vars[i].1.skel, to.base.name),
                )
            } else {
                (acc, ls)
            },
        };
        assert(res == renamed_vars(vars, rs, amb, more, i + 1, next).0);
        renamed_are(vars, rs, amb, more, i + 1, next);
        pushed_has(acc, vars[i]);
        pushed_has(acc, (to.base.name, vars[i].1));
        assert forall|v: (Seq<char>, VarE)| acc.contains(v) implies #[trigger] res.contains(v) by {
            assert(next.contains(v));
            assert(renamed_vars(vars, rs, amb, more, i + 1, next).0.contains(v));
        }
        assert(renamed_in(res, vars[i], rs, amb)) by {
            if rename_place(rs, vars[i].0, 0) is None {
                assert(next.contains(vars[i]));
                assert(renamed_vars(vars, rs, amb, more, i + 1, next).0.contains(vars[i]));
            } else if to.accesses.len() == 0 && ambient(amb, to.base.name) is None {
                let v = (to.base.name, vars[i].1);
                assert(next.contains(v));
                assert(renamed_vars(vars, rs, amb, more, i + 1, next).0.contains(v));
            }
        }
    }
}

proof fn pushed_has<T>(s: Seq<T>, x: T)
    ensures
        s.push(x).contains(x),
        forall|v: T| s.contains(v) ==> #[trigger] s.push(x).contains(v),
{
    assert(s.push(x)[s.len() as int] == x);
    assert forall|v: T| s.contains(v) implies #[trigger] s.push(x).contains(v) by {
        let i = choose|i: int| 0 <= i < s.len() && s[i] == v;
        assert(s.push(x)[i] == v);
    }
}

/// The renaming gives the name to a variable around the module.
pub open spec fn takes_over(rs: Seq<(LhsV, LhsV)>, amb: VarsV, i: int) -> bool {
    ambient(amb, rs[i].1.base.name) is Some
}

proof fn targets_are(w: World, k: nat, at: nat, rs: Seq<(LhsV, LhsV)>, lo: Scope, amb: VarsV, acc: VarsV, i: int)
    requires
        0 <= i <= rs.len(),
        f_rename_targets(w, at, rs, lo, amb, acc, build(w, k), i) is Ok,
    ensures
        ({
            let more = f_rename_targets(w, at, rs, lo, amb, acc, build(w, k), i)->Ok_0;
            &&& forall|name: Seq<char>|
                (forall|j: int| i <= j < rs.len() && takes_over(rs, amb, j) ==> (#[trigger] rs[j]).0.base.name != name)
                    ==> #[trigger] ambient(more, name) == ambient(acc, name)
            &&& forall|j: int|
                i <= j < rs.len() && takes_over(rs, amb, j) && rs[j].1.accesses.len() == 0 && (forall|l: int|
                    j < l < rs.len() && takes_over(rs, amb, l) ==> (#[trigger] rs[l]).0.base.name != rs[j].0.base.name)
                    ==> ambient(more, (#[trigger] rs[j]).0.base.name) == ambient(amb, rs[j].1.base.name)
        }),
    decreases rs.len() - i,
{
    reveal_with_fuel(f_rename_targets, 2);
    reveal_with_fuel(f_slice_skel, 2);
    reveal_with_fuel(f_slice_ctype, 2);
    if i < rs.len() {
        let g = build(w, k);
        match ambient(amb, rs[i].1.base.name) {
            Some(x) => {
                let sk = f_slice_skel(w, at, rs[i].1.accesses, rs[i].1.span, lo, x.skel, g, 0)->Ok_0;
                let ct = f_slice_ctype(w, at, rs[i].1.accesses, rs[i].1.span, x.ctype, g, 0)->Ok_0;
                let y = VarE { class: x.class, ctype: ct, skel: sk };
                let next = acc.push((rs[i].0.base.name, y));
                assert(next.drop_last() =~= acc);
                targets_are(w, k, at, rs, lo, amb, next, i + 1);
                let more = f_rename_targets(w, at, rs, lo, amb, acc, g, i)->Ok_0;
                assert(takes_over(rs, amb, i));
                assert forall|name: Seq<char>|
                    (forall|j: int| i <= j < rs.len() && takes_over(rs, amb, j) ==> (#[trigger] rs[j]).0.base.name != name) implies #[trigger] ambient(
                    more,
                    name,
                ) == ambient(acc, name) by {
                    assert(rs[i].0.base.name != name);
                    assert(ambient(more, name) == ambient(next, name));
                }
                if rs[i].1.accesses.len() == 0 && (forall|l: int|
                    i < l < rs.len() && takes_over(rs, amb, l) ==> (#[trigger] rs[l]).0.base.name != rs[i].0.base.name) {
                    assert(ambient(more, rs[i].0.base.name) == ambient(next, rs[i].0.base.name));
                    assert(y == x);
                }
            },
            None => {
                targets_are(w, k, at, rs, lo, amb, acc, i + 1);
                assert(!takes_over(rs, amb, i));
            },
        }
    }
}

/// A renamed module does what the module does where a variable that is renamed to one around it stands for that one. Of
/// its other variables, those that are not renamed keep their names and the others have the new ones.
pub proof fn rename_law(
    w: World,
    k: nat,
    at: nat,
    x: ModuleV,
    lo: Scope,
    amb: VarsV,
    ls: Seq<LeafV>,
    r: Built,
) -> (f: (VarsV, Built))
    requires
        x.kind is Rename,
        gives(w, k + 1, at, x, lo, amb, ls, r),
    ensures
        ({
            let rs = x.kind->Rename_0;
            let inner = f.1;
            &&& gives(w, k, at, *x.kind->Rename_1, lo, f.0, ls, inner)
            &&& same_behaviour(r.0, inner.0)
            &&& r.0.controlled == inner.0.controlled
            &&& forall|j: int|
                0 <= j < inner.0.vars.len() ==> renamed_in(r.0.vars, #[trigger] inner.0.vars[j], rs, amb)
            &&& forall|name: Seq<char>|
                (forall|j: int| 0 <= j < rs.len() && takes_over(rs, amb, j) ==> (#[trigger] rs[j]).0.base.name != name)
                    ==> #[trigger] ambient(f.0, name) == ambient(amb, name)
            &&& forall|j: int|
                0 <= j < rs.len() && takes_over(rs, amb, j) && rs[j].1.accesses.len() == 0 && (forall|l: int|
                    j < l < rs.len() && takes_over(rs, amb, l) ==> (#[trigger] rs[l]).0.base.name != rs[j].0.base.name)
                    ==> ambient(f.0, (#[trigger] rs[j]).0.base.name) == ambient(amb, rs[j].1.base.name)
        }),
{
    build_rules(w, (k + 1) as nat);
    reveal(f_module_body);
    reveal(f_module_rest);
    let rs = x.kind->Rename_0;
    let g = build(w, k);
    let amb2 = f_rename_targets(w, at, rs, lo, amb, amb, g, 0)->Ok_0;
    targets_are(w, k, at, rs, lo, amb, amb, 0);
    let inner = (g.module)(at, *x.kind->Rename_1, lo, amb2, ls)->Ok_0;
    renamed_are(inner.0.vars, rs, amb, inner.2, 0, Seq::empty());
    (amb2, inner)
}

proof fn grounds_are(vs: Seq<Val>, i: int, acc: Seq<Val>)
    requires
        0 <= i <= vs.len(),
        acc == vs.take(i),
    ensures
        grounds(Seq::new(vs.len(), |j: int| SV::Ground(vs[j])), i, acc) == Some(vs),
    decreases vs.len() - i,
{
    let us = Seq::new(vs.len(), |j: int| SV::Ground(vs[j]));
    if i < vs.len() {
        assert(us[i] == SV::Ground(vs[i]));
        assert(acc.push(vs[i]) =~= vs.take(i + 1));
        grounds_are(vs, i + 1, acc.push(vs[i]));
    } else {
        assert(vs.take(i) =~= vs);
    }
}

/// A datum that a constructor makes of arguments is recognized as that constructor's and as no other's, and each
/// accessor of the constructor gives back its argument.
pub proof fn datum_law(t: Tid, c: Seq<char>, vs: Seq<Val>, other: Seq<char>, n: nat)
    requires
        n < vs.len(),
    ensures
        data_value(ClosureV::Ctor(t, c, vs.len()), Seq::new(vs.len(), |j: int| SV::Ground(vs[j]))) matches Some(d) && {
            &&& data_value(ClosureV::Recognizer(other), seq![d]) == Some(SV::Ground(Val::Bool(other == c)))
            &&& data_value(ClosureV::Accessor(c, n), seq![d]) == Some(SV::Ground(vs[n as int]))
        },
{
    let us = Seq::new(vs.len(), |j: int| SV::Ground(vs[j]));
    assert(Seq::<Val>::empty() =~= vs.take(0));
    grounds_are(vs, 0, Seq::empty());
    if us.len() == 1 {
        assert(us[0] == SV::Ground(vs[0]));
    }
}

} // verus!
