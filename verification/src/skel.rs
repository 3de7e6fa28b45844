//! State variables as symbolic values over leaves, and modules on the way to flat systems.

use crate::ast::{ident_models, Ident, IdentV, VarClass};
use crate::calc::{add_local, field_place, make_next, next_name};
use crate::ctype::{ct_fields, ct_models, ctor_models, values, CType, CT};
use crate::fexpr::{fe_and, fe_eq, fe_models, FExpr, LeafId, LeafInfo, LeafType, FE, LT};
use crate::flat::{block_models, branch_models, cmd_models, opt_text, tn_models, Cmd, FlatCmd, TransNode, TN};
use crate::num::{dec, Int};
use crate::sval::{copy_locals, sv_fields, sv_models, sv_primed, SVal, SV};
use crate::text::{join, joined, own, put, views};
use crate::value::{field_models, models, val_text, Val, Value};
use vstd::prelude::*;

verus! {

/// The content of a leaf: its name, type and class.
pub type LeafV = (Seq<char>, LT, VarClass);

/// The contents of leaves.
pub open spec fn leaf_infos(v: Seq<LeafInfo>) -> Seq<LeafV> {
    Seq::new(v.len(), |i: int| (v[i].name@, v[i].ty@, v[i].class))
}

/// Adds a leaf.
pub fn add_leaf(ls: Vec<LeafInfo>, name: String, ty: LeafType, class: VarClass) -> (r: Vec<LeafInfo>)
    ensures
        leaf_infos(r@) == leaf_infos(ls@).push((name@, ty@, class)),
        r@.len() == ls@.len() + 1,
{
    let ghost s = ls@;
    let ghost m = (name@, ty@, class);
    let mut r = ls;
    r.push(LeafInfo { name, ty, class });
    assert(leaf_infos(r@) =~= leaf_infos(s).push(m));
    r
}

/// A value as it is shown, elements by the names that their type gives them.
pub open spec fn ct_text(t: CT, v: Val) -> Seq<char>
    decreases t, 0nat, 0int,
{
    match (t, v) {
        (CT::Scalar(_id, es), Val::Scalar(_a, i)) => if i < es.len() {
            es[i as int]
        } else {
            val_text(v)
        },
        (CT::Tuple(ts), Val::Tuple(vs)) => "("@ + joined(ct_texts(ts, vs, 0, Seq::empty()), ", "@) + ")"@,
        (CT::Record(fs), Val::Record(r)) => "(# "@ + joined(field_texts(fs, r, 0, Seq::empty()), ", "@) + " #)"@,
        (CT::Maps(_f, _i, e), Val::Array(vs)) => "["@ + joined(element_texts(*e, vs, 0, Seq::empty()), ", "@) + "]"@,
        (CT::Data(_id, cs), Val::Data(_a, c, args)) => if args.len() == 0 {
            c
        } else {
            c + "("@ + joined(ctor_texts(cs, c, args, 0), ", "@) + ")"@
        },
        _ => val_text(v),
    }
}

/// Values as they are shown, from `i` on.
pub open spec fn ct_texts(ts: Seq<CT>, vs: Seq<Val>, i: int, acc: Seq<Seq<char>>) -> Seq<Seq<char>>
    decreases ts, 1nat, ts.len() - i,
{
    if i < 0 || i >= ts.len() || i >= vs.len() {
        acc
    } else {
        ct_texts(ts, vs, i + 1, acc.push(ct_text(ts[i], vs[i])))
    }
}

/// Fields as they are shown, from `i` on.
pub open spec fn field_texts(
    fs: Seq<(Seq<char>, CT)>,
    r: Seq<(Seq<char>, Val)>,
    i: int,
    acc: Seq<Seq<char>>,
) -> Seq<Seq<char>>
    decreases fs, 1nat, fs.len() - i,
{
    if i < 0 || i >= fs.len() || i >= r.len() {
        acc
    } else {
        field_texts(fs, r, i + 1, acc.push(r[i].0 + " := "@ + ct_text(fs[i].1, r[i].1)))
    }
}

/// Elements as they are shown, from `i` on.
pub open spec fn element_texts(e: CT, vs: Seq<Val>, i: int, acc: Seq<Seq<char>>) -> Seq<Seq<char>>
    decreases e, 1nat, vs.len() - i,
{
    if i < 0 || i >= vs.len() {
        acc
    } else {
        element_texts(e, vs, i + 1, acc.push(ct_text(e, vs[i])))
    }
}

/// The arguments of a constructor as they are shown; by the first constructor of its name from `i` on.
pub open spec fn ctor_texts(cs: Seq<(Seq<char>, Seq<CT>)>, c: Seq<char>, args: Seq<Val>, i: int) -> Seq<Seq<char>>
    decreases cs, 1nat, cs.len() - i,
{
    if i < 0 || i >= cs.len() {
        Seq::empty()
    } else if cs[i].0 == c {
        ct_texts(cs[i].1, args, 0, Seq::empty())
    } else {
        ctor_texts(cs, c, args, i + 1)
    }
}

fn put_text(v: Vec<String>, s: String) -> (r: Vec<String>)
    ensures
        views(r@) == views(v@).push(s@),
{
    let ghost a = v@;
    let ghost m = s@;
    let mut r = v;
    r.push(s);
    assert(views(r@) =~= views(a).push(m));
    r
}

fn wrapped(open: &str, parts: &Vec<String>, close: &str) -> (r: String)
    ensures
        r@ == open@ + joined(views(parts@), ", "@) + close@,
{
    let mut out = own(open);
    put(&mut out, join(parts, ", ").as_str());
    put(&mut out, close);
    out
}

fn show_values(ts: &Vec<CType>, vs: &Vec<Value>) -> (r: Vec<String>)
    ensures
        views(r@) == ct_texts(ct_models(ts@), models(vs@), 0, Seq::empty()),
    decreases ts, 1nat,
{
    let ghost tm = ct_models(ts@);
    let ghost vm = models(vs@);
    let mut r: Vec<String> = Vec::new();
    let mut i: usize = 0;
    assert(views(r@) =~= Seq::empty());
    while i < ts.len() && i < vs.len()
        invariant
            i <= ts@.len(),
            i <= vs@.len(),
            tm == ct_models(ts@),
            vm == models(vs@),
            ct_texts(tm, vm, i as int, views(r@)) == ct_texts(tm, vm, 0, Seq::empty()),
        decreases ts.len() - i,
    {
        proof {
            reveal_with_fuel(ct_texts, 2);
            assert(tm[i as int] == ts@[i as int].model());
            assert(vm[i as int] == vs@[i as int].model());
        }
        r = put_text(r, show_value(&ts[i], &vs[i]));
        i += 1;
    }
    proof {
        reveal_with_fuel(ct_texts, 2);
    }
    r
}

/// Shows a value of a type.
pub fn show_value(t: &CType, v: &Value) -> (r: String)
    ensures
        r@ == ct_text(t.model(), v.model()),
    decreases t, 0nat,
{
    match (t, v) {
        (CType::Scalar(_id, es), Value::Scalar(_a, i)) => if *i < es.len() {
            assert(views(es@)[*i as int] == es@[*i as int]@);
            es[*i].clone()
        } else {
            v.text()
        },
        (CType::Tuple(ts), Value::Tuple(vs)) => wrapped("(", &show_values(ts, vs), ")"),
        (CType::Record(fs), Value::Record(rs)) => {
            let ghost fm = ct_fields(fs@);
            let ghost rm = field_models(rs@);
            let mut r: Vec<String> = Vec::new();
            let mut i: usize = 0;
            assert(views(r@) =~= Seq::empty());
            while i < fs.len() && i < rs.len()
                invariant
                    i <= fs@.len(),
                    i <= rs@.len(),
                    fm == ct_fields(fs@),
                    rm == field_models(rs@),
                    decreases_to!(t => fs),
                    field_texts(fm, rm, i as int, views(r@)) == field_texts(fm, rm, 0, Seq::empty()),
                decreases fs.len() - i,
            {
                proof {
                    reveal_with_fuel(field_texts, 2);
                    assert(fm[i as int] == (fs@[i as int].0@, fs@[i as int].1.model()));
                    assert(rm[i as int] == (rs@[i as int].0@, rs@[i as int].1.model()));
                }
                let mut s = rs[i].0.clone();
                put(&mut s, " := ");
                put(&mut s, show_value(&fs[i].1, &rs[i].1).as_str());
                r = put_text(r, s);
                i += 1;
            }
            proof {
                reveal_with_fuel(field_texts, 2);
            }
            wrapped("(# ", &r, " #)")
        },
        (CType::Array(_i, e), Value::Array(vs)) => wrapped("[", &show_elements(e, vs), "]"),
        (CType::Fun(_i, e), Value::Array(vs)) => wrapped("[", &show_elements(e, vs), "]"),
        (CType::Data(_id, cs), Value::Data(_a, c, args)) => {
            if args.len() == 0 {
                return c.clone();
            }
            let r = show_ctor(cs, c, args);
            let mut s = c.clone();
            put(&mut s, "(");
            put(&mut s, join(&r, ", ").as_str());
            put(&mut s, ")");
            s
        },
        _ => v.text(),
    }
}

fn show_ctor(cs: &Vec<(String, Vec<CType>)>, c: &String, args: &Vec<Value>) -> (r: Vec<String>)
    ensures
        views(r@) == ctor_texts(ctor_models(cs@), c@, models(args@), 0),
    decreases cs, 1nat,
{
    let ghost cm = ctor_models(cs@);
    let ghost am = models(args@);
    let mut i: usize = 0;
    while i < cs.len()
        invariant
            i <= cs@.len(),
            cm == ctor_models(cs@),
            am == models(args@),
            ctor_texts(cm, c@, am, i as int) == ctor_texts(cm, c@, am, 0),
        decreases cs.len() - i,
    {
        proof {
            reveal_with_fuel(ctor_texts, 2);
            assert(cm[i as int] == (cs@[i as int].0@, ct_models(cs@[i as int].1@)));
        }
        if cs[i].0 == *c {
            return show_values(&cs[i].1, args);
        }
        i += 1;
    }
    proof {
        reveal_with_fuel(ctor_texts, 2);
    }
    let r: Vec<String> = Vec::new();
    assert(views(r@) =~= Seq::empty());
    r
}

fn show_elements(e: &CType, vs: &Vec<Value>) -> (r: Vec<String>)
    ensures
        views(r@) == element_texts(e.model(), models(vs@), 0, Seq::empty()),
    decreases e, 1nat,
{
    let ghost em = e.model();
    let ghost vm = models(vs@);
    let mut r: Vec<String> = Vec::new();
    let mut i: usize = 0;
    assert(views(r@) =~= Seq::empty());
    while i < vs.len()
        invariant
            i <= vs@.len(),
            em == e.model(),
            vm == models(vs@),
            element_texts(em, vm, i as int, views(r@)) == element_texts(em, vm, 0, Seq::empty()),
        decreases vs.len() - i,
    {
        proof {
            reveal_with_fuel(element_texts, 2);
            assert(vm[i as int] == vs@[i as int].model());
        }
        r = put_text(r, show_value(e, &vs[i]));
        i += 1;
    }
    proof {
        reveal_with_fuel(element_texts, 2);
    }
    r
}

/// The values of a type as they are shown.
pub open spec fn all_texts(t: CT, vs: Seq<Val>) -> Seq<Seq<char>> {
    element_texts(t, vs, 0, Seq::empty())
}

/// Shows the values of a type.
pub fn show_all(t: &CType, vs: &Vec<Value>) -> (r: Vec<String>)
    ensures
        views(r@) == all_texts(t.model(), models(vs@)),
{
    show_elements(t, vs)
}

/// The name of a part that has a number, which counts from 1.
pub open spec fn numbered(path: Seq<char>, i: int) -> Seq<char> {
    path + "."@ + dec(i + 1)
}

/// The name of a part that has a number.
pub fn make_numbered(path: &String, i: usize) -> (r: String)
    ensures
        r@ == numbered(path@, i as int),
{
    let mut r = path.clone();
    put(&mut r, ".");
    put(&mut r, Int::from_u64(i as u64).plus(&Int::from_u64(1)).text().as_str());
    r
}

/// The name of a part that has a name.
pub open spec fn dotted(path: Seq<char>, name: Seq<char>) -> Seq<char> {
    path + "."@ + name
}

/// The name of a part that has a name.
pub fn make_dotted(path: &String, name: &String) -> (r: String)
    ensures
        r@ == dotted(path@, name@),
{
    let mut r = path.clone();
    put(&mut r, ".");
    put(&mut r, name.as_str());
    r
}

/// The name of an element.
pub open spec fn indexed(path: Seq<char>, t: CT, v: Val) -> Seq<char> {
    path + "["@ + ct_text(t, v) + "]"@
}

/// The name of an element.
pub fn make_indexed(path: &String, t: &CType, v: &Value) -> (r: String)
    ensures
        r@ == indexed(path@, t.model(), v.model()),
{
    let mut r = path.clone();
    put(&mut r, "[");
    put(&mut r, show_value(t, v).as_str());
    put(&mut r, "]");
    r
}

/// The leaves, with those of a state variable named after a path.
pub open spec fn renamed_leaves(ls: Seq<LeafV>, v: SV, path: Seq<char>) -> Seq<LeafV>
    decreases v,
{
    match v {
        SV::Sym(FE::Var(l, _p), _t) => if (l as int) < ls.len() {
            ls.update(l as int, (path, ls[l as int].1, ls[l as int].2))
        } else {
            ls
        },
        SV::Tuple(vs) => renamed_parts(ls, vs, path, 0),
        SV::Record(fs) => renamed_fields(ls, fs, path, 0),
        SV::Array(t, vs) => match values(t) {
            Some(vals) => renamed_elements(ls, vs, t, vals, path, 0),
            None => ls,
        },
        _ => ls,
    }
}

/// The leaves, with those of parts from `i` on named after a path.
pub open spec fn renamed_parts(ls: Seq<LeafV>, vs: Seq<SV>, path: Seq<char>, i: int) -> Seq<LeafV>
    decreases vs, vs.len() - i,
{
    if i < 0 || i >= vs.len() {
        ls
    } else {
        renamed_parts(renamed_leaves(ls, vs[i], numbered(path, i)), vs, path, i + 1)
    }
}

/// The leaves, with those of fields from `i` on named after a path.
pub open spec fn renamed_fields(ls: Seq<LeafV>, fs: Seq<(Seq<char>, SV)>, path: Seq<char>, i: int) -> Seq<LeafV>
    decreases fs, fs.len() - i,
{
    if i < 0 || i >= fs.len() {
        ls
    } else {
        renamed_fields(renamed_leaves(ls, fs[i].1, dotted(path, fs[i].0)), fs, path, i + 1)
    }
}

/// The leaves, with those of elements from `i` on named after a path.
pub open spec fn renamed_elements(
    ls: Seq<LeafV>,
    vs: Seq<SV>,
    t: CT,
    vals: Seq<Val>,
    path: Seq<char>,
    i: int,
) -> Seq<LeafV>
    decreases vs, vs.len() - i,
{
    if i < 0 || i >= vs.len() || i >= vals.len() {
        ls
    } else {
        renamed_elements(renamed_leaves(ls, vs[i], indexed(path, t, vals[i])), vs, t, vals, path, i + 1)
    }
}

/// Names the leaves of a state variable after a path.
pub fn rename_leaves(ls0: Vec<LeafInfo>, v: &SVal, path: &String) -> (r: Vec<LeafInfo>)
    ensures
        leaf_infos(r@) == renamed_leaves(leaf_infos(ls0@), v.model(), path@),
    decreases v,
{
    let mut ls = ls0;
    let ghost all = leaf_infos(ls@);
    match v {
        SVal::Sym(FExpr::Var(l, _p), _t) => {
            if (*l as usize) < ls.len() {
                let old_leaf = &ls[*l as usize];
                let x = LeafInfo { name: path.clone(), ty: old_leaf.ty.clone(), class: old_leaf.class };
                let ghost m = (x.name@, x.ty@, x.class);
                ls.set(*l as usize, x);
                assert(leaf_infos(ls@) =~= all.update(*l as int, m));
            }
            ls
        },
        SVal::Tuple(vs) => {
            let ghost ms = sv_models(vs@);
            let mut i: usize = 0;
            while i < vs.len()
                invariant
                    i <= vs@.len(),
                    ms == sv_models(vs@),
                    decreases_to!(v => vs),
                    renamed_parts(leaf_infos(ls@), ms, path@, i as int) == renamed_parts(all, ms, path@, 0),
                decreases vs.len() - i,
            {
                proof {
                    reveal_with_fuel(renamed_parts, 2);
                    assert(ms[i as int] == vs@[i as int].model());
                }
                ls = rename_leaves(ls, &vs[i], &make_numbered(path, i));
                i += 1;
            }
            proof {
                reveal_with_fuel(renamed_parts, 2);
            }
            ls
        },
        SVal::Record(fs) => {
            let ghost ms = sv_fields(fs@);
            let mut i: usize = 0;
            while i < fs.len()
                invariant
                    i <= fs@.len(),
                    ms == sv_fields(fs@),
                    decreases_to!(v => fs),
                    renamed_fields(leaf_infos(ls@), ms, path@, i as int) == renamed_fields(all, ms, path@, 0),
                decreases fs.len() - i,
            {
                proof {
                    reveal_with_fuel(renamed_fields, 2);
                    assert(ms[i as int] == (fs@[i as int].0@, fs@[i as int].1.model()));
                }
                ls = rename_leaves(ls, &fs[i].1, &make_dotted(path, &fs[i].0));
                i += 1;
            }
            proof {
                reveal_with_fuel(renamed_fields, 2);
            }
            ls
        },
        SVal::Array(t, vs) => {
            match t.enumerate() {
                Some(vals) => {
                    let ghost ms = sv_models(vs@);
                    let ghost vm = models(vals@);
                    let ghost tm = t.model();
                    let mut i: usize = 0;
                    while i < vs.len() && i < vals.len()
                        invariant
                            i <= vs@.len(),
                            i <= vals@.len(),
                            ms == sv_models(vs@),
                            vm == models(vals@),
                            tm == t.model(),
                            decreases_to!(v => vs),
                            renamed_elements(leaf_infos(ls@), ms, tm, vm, path@, i as int) == renamed_elements(
                                all,
                                ms,
                                tm,
                                vm,
                                path@,
                                0,
                            ),
                        decreases vs.len() - i,
                    {
                        proof {
                            reveal_with_fuel(renamed_elements, 2);
                            assert(ms[i as int] == vs@[i as int].model());
                            assert(vm[i as int] == vals@[i as int].model());
                        }
                        ls = rename_leaves(ls, &vs[i], &make_indexed(path, t, &vals[i]));
                        i += 1;
                    }
                    proof {
                        reveal_with_fuel(renamed_elements, 2);
                    }
                    ls
                },
                None => ls,
            }
        },
        _ => ls,
    }
}

/// The leaves that occur in an expression, in order; those in the next state alone where `next`.
pub open spec fn fe_ids(e: FE, next: bool, acc: Seq<LeafId>) -> Seq<LeafId>
    decreases e,
{
    match e {
        FE::Const(_v) => acc,
        FE::Var(l, p) => if p || !next {
            acc.push(l)
        } else {
            acc
        },
        FE::Not(a) => fe_ids(*a, next, acc),
        FE::Neg(a) => fe_ids(*a, next, acc),
        FE::And(es) => fe_ids_from(es, next, 0, acc),
        FE::Or(es) => fe_ids_from(es, next, 0, acc),
        FE::Add(es) => fe_ids_from(es, next, 0, acc),
        FE::Mul(es) => fe_ids_from(es, next, 0, acc),
        FE::Ite(a, b, c) => fe_ids(*c, next, fe_ids(*b, next, fe_ids(*a, next, acc))),
        FE::Eq(a, b) => fe_ids(*b, next, fe_ids(*a, next, acc)),
        FE::Lt(a, b) => fe_ids(*b, next, fe_ids(*a, next, acc)),
        FE::Le(a, b) => fe_ids(*b, next, fe_ids(*a, next, acc)),
        FE::Div(a, b) => fe_ids(*b, next, fe_ids(*a, next, acc)),
        FE::IDiv(a, b) => fe_ids(*b, next, fe_ids(*a, next, acc)),
        FE::Mod(a, b) => fe_ids(*b, next, fe_ids(*a, next, acc)),
    }
}

/// The leaves that occur in expressions from `i` on.
pub open spec fn fe_ids_from(es: Seq<FE>, next: bool, i: int, acc: Seq<LeafId>) -> Seq<LeafId>
    decreases es, es.len() - i,
{
    if i < 0 || i >= es.len() {
        acc
    } else {
        fe_ids_from(es, next, i + 1, fe_ids(es[i], next, acc))
    }
}

fn list_ids_from(es: &Vec<FExpr>, next: bool, acc0: Vec<LeafId>) -> (r: Vec<LeafId>)
    ensures
        r@ == fe_ids_from(fe_models(es@), next, 0, acc0@),
    decreases es, 0nat,
{
    let ghost ms = fe_models(es@);
    let mut acc = acc0;
    let mut i: usize = 0;
    while i < es.len()
        invariant
            i <= es@.len(),
            ms == fe_models(es@),
            fe_ids_from(ms, next, i as int, acc@) == fe_ids_from(ms, next, 0, acc0@),
        decreases es.len() - i,
    {
        proof {
            reveal_with_fuel(fe_ids_from, 2);
            assert(ms[i as int] == es@[i as int].model());
        }
        acc = list_ids(&es[i], next, acc);
        i += 1;
    }
    proof {
        reveal_with_fuel(fe_ids_from, 2);
    }
    acc
}

/// Lists the leaves that occur in an expression.
pub fn list_ids(e: &FExpr, next: bool, acc: Vec<LeafId>) -> (r: Vec<LeafId>)
    ensures
        r@ == fe_ids(e.model(), next, acc@),
    decreases e, 1nat,
{
    match e {
        FExpr::Const(_v) => acc,
        FExpr::Var(l, p) => {
            if *p || !next {
                let mut r = acc;
                r.push(*l);
                r
            } else {
                acc
            }
        },
        FExpr::Not(a) => list_ids(a, next, acc),
        FExpr::Neg(a) => list_ids(a, next, acc),
        FExpr::And(es) => list_ids_from(es, next, acc),
        FExpr::Or(es) => list_ids_from(es, next, acc),
        FExpr::Add(es) => list_ids_from(es, next, acc),
        FExpr::Mul(es) => list_ids_from(es, next, acc),
        FExpr::Ite(a, b, c) => list_ids(c, next, list_ids(b, next, list_ids(a, next, acc))),
        FExpr::Eq(a, b) => list_ids(b, next, list_ids(a, next, acc)),
        FExpr::Lt(a, b) => list_ids(b, next, list_ids(a, next, acc)),
        FExpr::Le(a, b) => list_ids(b, next, list_ids(a, next, acc)),
        FExpr::Div(a, b) => list_ids(b, next, list_ids(a, next, acc)),
        FExpr::IDiv(a, b) => list_ids(b, next, list_ids(a, next, acc)),
        FExpr::Mod(a, b) => list_ids(b, next, list_ids(a, next, acc)),
    }
}

/// The leaves that occur in a symbolic value, in order.
pub open spec fn sv_ids(v: SV, acc: Seq<LeafId>) -> Seq<LeafId>
    decreases v,
{
    match v {
        SV::Sym(e, _t) => fe_ids(e, false, acc),
        SV::Tuple(vs) => sv_ids_from(vs, 0, acc),
        SV::Array(_t, vs) => sv_ids_from(vs, 0, acc),
        SV::Record(fs) => field_ids_from(fs, 0, acc),
        _ => acc,
    }
}

/// The leaves that occur in symbolic values from `i` on.
pub open spec fn sv_ids_from(vs: Seq<SV>, i: int, acc: Seq<LeafId>) -> Seq<LeafId>
    decreases vs, vs.len() - i,
{
    if i < 0 || i >= vs.len() {
        acc
    } else {
        sv_ids_from(vs, i + 1, sv_ids(vs[i], acc))
    }
}

/// The leaves that occur in fields from `i` on.
pub open spec fn field_ids_from(fs: Seq<(Seq<char>, SV)>, i: int, acc: Seq<LeafId>) -> Seq<LeafId>
    decreases fs, fs.len() - i,
{
    if i < 0 || i >= fs.len() {
        acc
    } else {
        field_ids_from(fs, i + 1, sv_ids(fs[i].1, acc))
    }
}

fn skel_leaves_from(vs: &Vec<SVal>, acc0: Vec<LeafId>) -> (r: Vec<LeafId>)
    ensures
        r@ == sv_ids_from(sv_models(vs@), 0, acc0@),
    decreases vs, 0nat,
{
    let ghost ms = sv_models(vs@);
    let mut acc = acc0;
    let mut i: usize = 0;
    while i < vs.len()
        invariant
            i <= vs@.len(),
            ms == sv_models(vs@),
            sv_ids_from(ms, i as int, acc@) == sv_ids_from(ms, 0, acc0@),
        decreases vs.len() - i,
    {
        proof {
            reveal_with_fuel(sv_ids_from, 2);
            assert(ms[i as int] == vs@[i as int].model());
        }
        acc = skel_leaves(&vs[i], acc);
        i += 1;
    }
    proof {
        reveal_with_fuel(sv_ids_from, 2);
    }
    acc
}

/// Lists the leaves that occur in a symbolic value.
pub fn skel_leaves(v: &SVal, acc0: Vec<LeafId>) -> (r: Vec<LeafId>)
    ensures
        r@ == sv_ids(v.model(), acc0@),
    decreases v, 1nat,
{
    match v {
        SVal::Sym(e, _t) => list_ids(e, false, acc0),
        SVal::Tuple(vs) => skel_leaves_from(vs, acc0),
        SVal::Array(_t, vs) => skel_leaves_from(vs, acc0),
        SVal::Record(fs) => {
            let ghost ms = sv_fields(fs@);
            let mut acc = acc0;
            let mut i: usize = 0;
            while i < fs.len()
                invariant
                    i <= fs@.len(),
                    ms == sv_fields(fs@),
                    decreases_to!(v => fs),
                    field_ids_from(ms, i as int, acc@) == field_ids_from(ms, 0, acc0@),
                decreases fs.len() - i,
            {
                proof {
                    reveal_with_fuel(field_ids_from, 2);
                    assert(ms[i as int] == (fs@[i as int].0@, fs@[i as int].1.model()));
                }
                acc = skel_leaves(&fs[i].1, acc);
                i += 1;
            }
            proof {
                reveal_with_fuel(field_ids_from, 2);
            }
            acc
        },
        _ => acc0,
    }
}

/// A state variable on the way to a flat system.
pub struct VarEntry {
    pub class: VarClass,
    pub ctype: CType,
    pub skel: SVal,
}

/// The content of a state variable on the way to a flat system.
pub ghost struct VarE {
    pub class: VarClass,
    pub ctype: CT,
    pub skel: SV,
}

impl VarEntry {
    /// The content.
    pub open spec fn model(&self) -> VarE {
        VarE { class: self.class, ctype: self.ctype.model(), skel: self.skel.model() }
    }

    /// A copy.
    pub fn copy(&self) -> (r: VarEntry)
        ensures
            r.model() == self.model(),
    {
        VarEntry { class: self.class, ctype: self.ctype.copy(), skel: self.skel.copy() }
    }
}

/// Named state variables.
pub type VarsV = Seq<(Seq<char>, VarE)>;

/// The contents of named state variables.
pub open spec fn entries(v: Seq<(String, VarEntry)>) -> VarsV {
    Seq::new(v.len(), |i: int| (v[i].0@, v[i].1.model()))
}

/// Copies state variables.
pub fn copy_entries(v: &Vec<(String, VarEntry)>) -> (r: Vec<(String, VarEntry)>)
    ensures
        entries(r@) == entries(v@),
{
    let mut r: Vec<(String, VarEntry)> = Vec::new();
    let mut i: usize = 0;
    while i < v.len()
        invariant
            i <= v@.len(),
            r@.len() == i,
            forall|j: int| 0 <= j < i ==> (#[trigger] r@[j]).0@ == v@[j].0@ && r@[j].1.model() == v@[j].1.model(),
        decreases v.len() - i,
    {
        r.push((v[i].0.clone(), v[i].1.copy()));
        i += 1;
    }
    assert(entries(r@) =~= entries(v@));
    r
}

/// Adds a state variable.
pub fn add_var(v: Vec<(String, VarEntry)>, name: String, e: VarEntry) -> (r: Vec<(String, VarEntry)>)
    ensures
        entries(r@) == entries(v@).push((name@, e.model())),
{
    let ghost s = v@;
    let ghost m = (name@, e.model());
    let mut r = v;
    r.push((name, e));
    assert(entries(r@) =~= entries(s).push(m));
    r
}

/// Finds a state variable.
pub fn find_entry_place(v: &Vec<(String, VarEntry)>, name: &String) -> (r: Option<usize>)
    ensures
        match (r, field_place(entries(v@), name@, 0)) {
            (Some(i), Some(j)) => i == j && i < v@.len(),
            (None, None) => true,
            _ => false,
        },
{
    let mut i: usize = 0;
    while i < v.len()
        invariant
            field_place(entries(v@), name@, 0) == field_place(entries(v@), name@, i as int),
        decreases v.len() - i,
    {
        assert(entries(v@)[i as int] == (v@[i as int].0@, v@[i as int].1.model()));
        if v[i].0 == *name {
            return Some(i);
        }
        i += 1;
    }
    None
}

/// The last state variable of a name.
pub open spec fn ambient(v: VarsV, name: Seq<char>) -> Option<VarE>
    decreases v.len(),
{
    if v.len() == 0 {
        None
    } else if v.last().0 == name {
        Some(v.last().1)
    } else {
        ambient(v.drop_last(), name)
    }
}

/// Finds the last state variable of a name.
pub fn find_ambient<'a>(v: &'a Vec<(String, VarEntry)>, name: &String) -> (r: Option<&'a VarEntry>)
    ensures
        match (r, ambient(entries(v@), name@)) {
            (Some(a), Some(b)) => a.model() == b,
            (None, None) => true,
            _ => false,
        },
{
    let mut i: usize = v.len();
    let ghost s = entries(v@);
    assert(s.take(i as int) =~= s);
    while i > 0
        invariant
            i <= v@.len(),
            s == entries(v@),
            ambient(s, name@) == ambient(s.take(i as int), name@),
        decreases i,
    {
        assert(s.take(i as int).last() == (v@[i - 1].0@, v@[i - 1].1.model()));
        assert(s.take(i as int).drop_last() =~= s.take(i - 1));
        if v[i - 1].0 == *name {
            return Some(&v[i - 1].1);
        }
        i -= 1;
    }
    None
}

/// The variables that a composed module sees: those around it, and from `i` on those of its
/// sibling that are not local; where `fresh`, only ones of new names.
pub open spec fn shared(amb: VarsV, vars: VarsV, fresh: bool, i: int) -> VarsV
    decreases vars.len() - i,
{
    if i < 0 || i >= vars.len() {
        amb
    } else {
        shared(
            if vars[i].1.class != VarClass::Local && !(fresh && ambient(amb, vars[i].0) is Some) {
                amb.push(vars[i])
            } else {
                amb
            },
            vars,
            fresh,
            i + 1,
        )
    }
}

/// The variables that a composed module sees.
pub fn share(amb0: Vec<(String, VarEntry)>, vars: &Vec<(String, VarEntry)>, fresh: bool) -> (r: Vec<
    (String, VarEntry),
>)
    ensures
        entries(r@) == shared(entries(amb0@), entries(vars@), fresh, 0),
{
    let ghost vm = entries(vars@);
    let mut amb = amb0;
    let mut i: usize = 0;
    while i < vars.len()
        invariant
            i <= vars@.len(),
            vm == entries(vars@),
            shared(entries(amb@), vm, fresh, i as int) == shared(entries(amb0@), vm, fresh, 0),
        decreases vars.len() - i,
    {
        assert(vm[i as int] == (vars@[i as int].0@, vars@[i as int].1.model()));
        if vars[i].1.class != VarClass::Local && !(fresh && find_ambient(&amb, &vars[i].0).is_some()) {
            amb = add_var(amb, vars[i].0.clone(), vars[i].1.copy());
        }
        i += 1;
    }
    amb
}

/// The variables in scope of the sections of a module: each state variable, in the current and in
/// the next state.
pub open spec fn state_locals(lo: Seq<(Seq<char>, SV)>, vars: VarsV, i: int) -> Seq<(Seq<char>, SV)>
    decreases vars.len() - i,
{
    if i < 0 || i >= vars.len() {
        lo
    } else {
        state_locals(
            lo.push((vars[i].0, vars[i].1.skel)).push((next_name(vars[i].0), sv_primed(vars[i].1.skel))),
            vars,
            i + 1,
        )
    }
}

/// The variables in scope of the sections of a module.
pub fn add_state(lo: &Vec<(String, SVal)>, vars: &Vec<(String, VarEntry)>) -> (r: Vec<(String, SVal)>)
    ensures
        sv_fields(r@) == state_locals(sv_fields(lo@), entries(vars@), 0),
{
    let ghost s = sv_fields(lo@);
    let ghost vm = entries(vars@);
    let mut r = copy_locals(lo);
    let mut i: usize = 0;
    while i < vars.len()
        invariant
            i <= vars@.len(),
            vm == entries(vars@),
            state_locals(sv_fields(r@), vm, i as int) == state_locals(s, vm, 0),
        decreases vars.len() - i,
    {
        assert(vm[i as int] == (vars@[i as int].0@, vars@[i as int].1.model()));
        r = add_local(r, vars[i].0.clone(), vars[i].1.skel.copy());
        r = add_local(r, make_next(&vars[i].0), vars[i].1.skel.to_next());
        i += 1;
    }
    r
}

/// The variables with the class of the named ones changed, from the name `i` on.
pub open spec fn classed(vars: VarsV, ids: Seq<IdentV>, class: VarClass, i: int) -> VarsV
    decreases ids.len() - i,
{
    if i < 0 || i >= ids.len() {
        vars
    } else {
        classed(
            match field_place(vars, ids[i].name, 0) {
                Some(p) => vars.update(p as int, (vars[p as int].0, VarE { class, ..vars[p as int].1 })),
                None => vars,
            },
            ids,
            class,
            i + 1,
        )
    }
}

/// Changes the class of the named variables.
pub fn set_classes(vars0: Vec<(String, VarEntry)>, ids: &Vec<Ident>, class: VarClass) -> (r: Vec<(String, VarEntry)>)
    ensures
        entries(r@) == classed(entries(vars0@), ident_models(ids@), class, 0),
{
    let ghost im = ident_models(ids@);
    let mut vars = vars0;
    let mut i: usize = 0;
    while i < ids.len()
        invariant
            i <= ids@.len(),
            im == ident_models(ids@),
            classed(entries(vars@), im, class, i as int) == classed(entries(vars0@), im, class, 0),
        decreases ids.len() - i,
    {
        let ghost m = ids@[i as int].model();
        assert(im[i as int] == m);
        let ghost before = entries(vars@);
        match find_entry_place(&vars, &ids[i].name) {
            Some(p) => {
                assert(before[p as int] == (vars@[p as int].0@, vars@[p as int].1.model()));
                let name = vars[p].0.clone();
                let mut e = vars[p].1.copy();
                e.class = class;
                let ghost x = (name@, e.model());
                vars.set(p, (name, e));
                assert(entries(vars@) =~= before.update(p as int, x));
            },
            None => {},
        }
        i += 1;
    }
    vars
}

/// The conditions that leaves from `l` to `n` keep their values: those that are framed, and neither
/// stepping nor defined.
pub open spec fn frames(
    framed: Seq<LeafId>,
    stepping: Seq<LeafId>,
    defined: Seq<LeafId>,
    n: nat,
    l: nat,
    acc: Seq<FE>,
) -> Seq<FE>
    decreases n - l,
{
    if l >= n {
        acc
    } else {
        let i = l as LeafId;
        frames(
            framed,
            stepping,
            defined,
            n,
            l + 1,
            if framed.contains(i) && !stepping.contains(i) && !defined.contains(i) {
                acc.push(fe_eq(FE::Var(i, true), FE::Var(i, false)))
            } else {
                acc
            },
        )
    }
}

fn holds_id(v: &Vec<LeafId>, l: LeafId) -> (r: bool)
    ensures
        r == v@.contains(l),
{
    let mut i: usize = 0;
    while i < v.len()
        invariant
            i <= v@.len(),
            forall|j: int| 0 <= j < i ==> v@[j] != l,
        decreases v.len() - i,
    {
        if v[i] == l {
            return true;
        }
        i += 1;
    }
    false
}

/// Adds the conditions that leaves keep their values.
pub fn add_frames(
    framed: &Vec<LeafId>,
    stepping: &Vec<LeafId>,
    defined: &Vec<LeafId>,
    n: usize,
    acc0: Vec<FExpr>,
) -> (r: Vec<FExpr>)
    requires
        n <= u32::MAX,
    ensures
        fe_models(r@) == frames(framed@, stepping@, defined@, n as nat, 0, fe_models(acc0@)),
{
    let mut acc = acc0;
    let mut l: usize = 0;
    while l < n
        invariant
            l <= n <= u32::MAX,
            frames(framed@, stepping@, defined@, n as nat, l as nat, fe_models(acc@)) == frames(
                framed@,
                stepping@,
                defined@,
                n as nat,
                0,
                fe_models(acc0@),
            ),
        decreases n - l,
    {
        let i = l as u32;
        if holds_id(framed, i) && !holds_id(stepping, i) && !holds_id(defined, i) {
            let ghost a = acc@;
            let e = FExpr::eq(FExpr::Var(i, true), FExpr::Var(i, false));
            let ghost m = e.model();
            acc.push(e);
            assert(fe_models(acc@) =~= fe_models(a).push(m));
        }
        l += 1;
    }
    acc
}

/// The conditions that leaves keep their values, as one.
pub open spec fn frame_fe(framed: Seq<LeafId>, stepping: Seq<LeafId>, defined: Seq<LeafId>, n: nat) -> FE {
    fe_and(frames(framed, stepping, defined, n, 0, Seq::empty()))
}

/// The conditions that leaves keep their values, as one.
pub fn frame_expr(framed: &Vec<LeafId>, stepping: &Vec<LeafId>, defined: &Vec<LeafId>, n: usize) -> (r: FExpr)
    requires
        n <= u32::MAX,
    ensures
        r.model() == frame_fe(framed@, stepping@, defined@, n as nat),
{
    let none: Vec<FExpr> = Vec::new();
    assert(fe_models(none@) =~= Seq::empty());
    FExpr::and(add_frames(framed, stepping, defined, n, none))
}

fn dup_cmds(v: &Vec<FlatCmd>) -> (r: Vec<FlatCmd>)
    ensures
        cmd_models(r@) == cmd_models(v@),
{
    let mut r: Vec<FlatCmd> = Vec::new();
    let mut i: usize = 0;
    while i < v.len()
        invariant
            i <= v@.len(),
            r@.len() == i,
            forall|j: int| 0 <= j < i ==> (#[trigger] r@[j]).model() == v@[j].model(),
        decreases v.len() - i,
    {
        r.push(v[i].clone());
        i += 1;
    }
    assert(cmd_models(r@) =~= cmd_models(v@));
    r
}

/// A copy of a transition relation.
pub fn dup_trans(n: &TransNode) -> (r: TransNode)
    ensures
        r.model() == n.model(),
    decreases n,
{
    match n {
        TransNode::True => TransNode::True,
        TransNode::Cmds(cs) => TransNode::Cmds(dup_cmds(cs)),
        TransNode::All(ns) => {
            let mut r: Vec<TransNode> = Vec::new();
            let mut i: usize = 0;
            while i < ns.len()
                invariant
                    i <= ns@.len(),
                    r@.len() == i,
                    decreases_to!(n => ns),
                    forall|j: int| 0 <= j < i ==> (#[trigger] r@[j]).model() == ns@[j].model(),
                decreases ns.len() - i,
            {
                r.push(dup_trans(&ns[i]));
                i += 1;
            }
            assert(tn_models(r@) =~= tn_models(ns@));
            TransNode::All(r)
        },
        TransNode::Interleave(bs) => {
            let mut r: Vec<(TransNode, FExpr)> = Vec::new();
            let mut i: usize = 0;
            while i < bs.len()
                invariant
                    i <= bs@.len(),
                    r@.len() == i,
                    decreases_to!(n => bs),
                    forall|j: int|
                        0 <= j < i ==> (#[trigger] r@[j]).0.model() == bs@[j].0.model() && r@[j].1.model()
                            == bs@[j].1.model(),
                decreases bs.len() - i,
            {
                r.push((dup_trans(&bs[i].0), bs[i].1.clone()));
                i += 1;
            }
            assert(branch_models(r@) =~= branch_models(bs@));
            TransNode::Interleave(r)
        },
    }
}

/// A module on the way to a flat system.
pub struct Elab {
    pub vars: Vec<(String, VarEntry)>,
    pub invariants: Vec<FExpr>,
    pub init_defs: Vec<FExpr>,
    pub init_choices: Vec<Vec<FlatCmd>>,
    pub trans_defs: Vec<FExpr>,
    pub trans: TransNode,
    /// The leaves that the module controls.
    pub controlled: Vec<LeafId>,
    /// The leaves whose next values definitions give.
    pub def_next: Vec<LeafId>,
    /// The base modules: of each the leaves that it controls, and those that it sees.
    pub parts: Vec<(Vec<LeafId>, Vec<LeafId>)>,
}

/// The contents of parts.
pub open spec fn part_views(v: Seq<(Vec<LeafId>, Vec<LeafId>)>) -> Seq<(Seq<LeafId>, Seq<LeafId>)> {
    Seq::new(v.len(), |i: int| (v[i].0@, v[i].1@))
}

/// Puts two lists of parts together.
pub fn append_parts(a: Vec<(Vec<LeafId>, Vec<LeafId>)>, b: Vec<(Vec<LeafId>, Vec<LeafId>)>) -> (r: Vec<
    (Vec<LeafId>, Vec<LeafId>),
>)
    ensures
        part_views(r@) == part_views(a@) + part_views(b@),
{
    let ghost x = a@;
    let ghost y = b@;
    let mut r = a;
    let mut b = b;
    r.append(&mut b);
    assert(part_views(r@) =~= part_views(x) + part_views(y));
    r
}

/// The content of a module on the way to a flat system.
pub ghost struct ElabV {
    pub vars: VarsV,
    pub invariants: Seq<FE>,
    pub init_defs: Seq<FE>,
    pub init_choices: Seq<Seq<Cmd>>,
    pub trans_defs: Seq<FE>,
    pub trans: TN,
    pub controlled: Seq<LeafId>,
    pub def_next: Seq<LeafId>,
    pub parts: Seq<(Seq<LeafId>, Seq<LeafId>)>,
}

impl Elab {
    /// The content.
    pub open spec fn model(&self) -> ElabV {
        ElabV {
            vars: entries(self.vars@),
            invariants: fe_models(self.invariants@),
            init_defs: fe_models(self.init_defs@),
            init_choices: block_models(self.init_choices@),
            trans_defs: fe_models(self.trans_defs@),
            trans: self.trans.model(),
            controlled: self.controlled@,
            def_next: self.def_next@,
            parts: part_views(self.parts@),
        }
    }
}

/// The contents of modules.
pub open spec fn elabs(v: Seq<Elab>) -> Seq<ElabV> {
    Seq::new(v.len(), |i: int| v[i].model())
}

/// Appends expressions.
pub fn append_fexprs(a: Vec<FExpr>, b: Vec<FExpr>) -> (r: Vec<FExpr>)
    ensures
        fe_models(r@) == fe_models(a@) + fe_models(b@),
{
    let ghost x = a@;
    let ghost y = b@;
    let mut r = a;
    let mut b = b;
    r.append(&mut b);
    assert(fe_models(r@) =~= fe_models(x) + fe_models(y));
    r
}

/// Adds an expression.
pub fn add_fexpr(a: Vec<FExpr>, e: FExpr) -> (r: Vec<FExpr>)
    ensures
        fe_models(r@) == fe_models(a@).push(e.model()),
{
    let ghost x = a@;
    let ghost m = e.model();
    let mut r = a;
    r.push(e);
    assert(fe_models(r@) =~= fe_models(x).push(m));
    r
}

/// Appends blocks of commands.
pub fn append_blocks(a: Vec<Vec<FlatCmd>>, b: Vec<Vec<FlatCmd>>) -> (r: Vec<Vec<FlatCmd>>)
    ensures
        block_models(r@) == block_models(a@) + block_models(b@),
{
    let ghost x = a@;
    let ghost y = b@;
    let mut r = a;
    let mut b = b;
    r.append(&mut b);
    assert(block_models(r@) =~= block_models(x) + block_models(y));
    r
}

/// Adds a block of commands.
pub fn add_block(a: Vec<Vec<FlatCmd>>, b: Vec<FlatCmd>) -> (r: Vec<Vec<FlatCmd>>)
    ensures
        block_models(r@) == block_models(a@).push(cmd_models(b@)),
{
    let ghost x = a@;
    let ghost m = cmd_models(b@);
    let mut r = a;
    r.push(b);
    assert(block_models(r@) =~= block_models(x).push(m));
    r
}

/// Adds a command.
pub fn add_cmd(a: Vec<FlatCmd>, label: Option<String>, provenance: String, guard: FExpr, constraint: FExpr) -> (r: Vec<
    FlatCmd,
>)
    ensures
        cmd_models(r@) == cmd_models(a@).push(
            (Cmd { label: opt_text(label), guard: guard.model(), constraint: constraint.model() }),
        ),
{
    let ghost x = a@;
    let ghost m = Cmd { label: opt_text(label), guard: guard.model(), constraint: constraint.model() };
    let mut r = a;
    let c = FlatCmd { label, provenance, guard, constraint };
    assert(c.model() == m);
    r.push(c);
    assert(cmd_models(r@) =~= cmd_models(x).push(m));
    r
}

/// Appends leaves.
pub fn append_ids(a: Vec<LeafId>, b: &Vec<LeafId>) -> (r: Vec<LeafId>)
    ensures
        r@ == a@ + b@,
{
    let ghost x = a@;
    let mut r = a;
    let mut i: usize = 0;
    assert(x + b@.take(0) =~= x);
    while i < b.len()
        invariant
            i <= b@.len(),
            r@ == x + b@.take(i as int),
        decreases b.len() - i,
    {
        r.push(b[i]);
        assert(r@ =~= x + b@.take(i + 1));
        i += 1;
    }
    assert(b@.take(i as int) =~= b@);
    r
}

/// The variables of a composition of two modules, from the variable `i` of the first on, with those
/// of the second that are left, and the leaves. A local variable of both becomes a pair.
pub open spec fn merged_vars(a: VarsV, b: VarsV, ls: Seq<LeafV>, i: int, acc: VarsV) -> (VarsV, Seq<LeafV>)
    decreases a.len() - i,
{
    if i < 0 || i >= a.len() {
        (acc + b, ls)
    } else {
        let n = a[i].0;
        let x = a[i].1;
        match field_place(b, n, 0) {
            None => merged_vars(a, b, ls, i + 1, acc.push(a[i])),
            Some(p) => {
                let y = b[p as int].1;
                if x.class == VarClass::Local && y.class == VarClass::Local {
                    merged_vars(
                        a,
                        b.remove(p as int),
                        renamed_leaves(renamed_leaves(ls, x.skel, numbered(n, 0)), y.skel, numbered(n, 1)),
                        i + 1,
                        acc.push(
                            (
                                n,
                                VarE {
                                    class: VarClass::Local,
                                    ctype: CT::Tuple(seq![x.ctype, y.ctype]),
                                    skel: SV::Tuple(seq![x.skel, y.skel]),
                                },
                            ),
                        ),
                    )
                } else {
                    merged_vars(
                        a,
                        b.remove(p as int),
                        ls,
                        i + 1,
                        acc.push((n, VarE { class: joint_class(x.class, y.class), ..x })),
                    )
                }
            },
        }
    }
}

/// The class of a variable that two composed modules share.
pub open spec fn joint_class(a: VarClass, b: VarClass) -> VarClass {
    if b == VarClass::Output || (a == VarClass::Input && b == VarClass::Global) {
        b
    } else {
        a
    }
}

fn join_class(a: VarClass, b: VarClass) -> (r: VarClass)
    ensures
        r == joint_class(a, b),
{
    if b == VarClass::Output || (a == VarClass::Input && b == VarClass::Global) {
        b
    } else {
        a
    }
}

/// The variables of a composition of two modules.
pub fn merge_vars(a: &Vec<(String, VarEntry)>, b0: Vec<(String, VarEntry)>, ls0: Vec<LeafInfo>) -> (r: (
    Vec<(String, VarEntry)>,
    Vec<LeafInfo>,
))
    ensures
        (entries(r.0@), leaf_infos(r.1@)) == merged_vars(
            entries(a@),
            entries(b0@),
            leaf_infos(ls0@),
            0,
            Seq::empty(),
        ),
{
    let ghost am = entries(a@);
    let ghost whole = merged_vars(am, entries(b0@), leaf_infos(ls0@), 0, Seq::empty());
    let mut b = b0;
    let mut ls = ls0;
    let mut acc: Vec<(String, VarEntry)> = Vec::new();
    let mut i: usize = 0;
    assert(entries(acc@) =~= Seq::empty());
    while i < a.len()
        invariant
            i <= a@.len(),
            am == entries(a@),
            merged_vars(am, entries(b@), leaf_infos(ls@), i as int, entries(acc@)) == whole,
        decreases a.len() - i,
    {
        assert(am[i as int] == (a@[i as int].0@, a@[i as int].1.model()));
        let n = &a[i].0;
        match find_entry_place(&b, n) {
            None => {
                acc = add_var(acc, n.clone(), a[i].1.copy());
            },
            Some(p) => {
                let ghost bm = entries(b@);
                assert(bm[p as int] == (b@[p as int].0@, b@[p as int].1.model()));
                let y = b.remove(p).1;
                assert(entries(b@) =~= bm.remove(p as int));
                if a[i].1.class == VarClass::Local && y.class == VarClass::Local {
                    ls = rename_leaves(ls, &a[i].1.skel, &make_numbered(n, 0));
                    ls = rename_leaves(ls, &y.skel, &make_numbered(n, 1));
                    let mut ts: Vec<CType> = Vec::new();
                    let ghost c1 = a@[i as int].1.ctype.model();
                    let ghost c2 = y.ctype.model();
                    let ghost s1 = a@[i as int].1.skel.model();
                    let ghost s2 = y.skel.model();
                    ts.push(a[i].1.ctype.copy());
                    ts.push(y.ctype);
                    assert(ct_models(ts@) =~= seq![c1, c2]);
                    let mut vs: Vec<SVal> = Vec::new();
                    vs.push(a[i].1.skel.copy());
                    vs.push(y.skel);
                    assert(sv_models(vs@) =~= seq![s1, s2]);
                    let e = VarEntry { class: VarClass::Local, ctype: CType::Tuple(ts), skel: SVal::Tuple(vs) };
                    acc = add_var(acc, n.clone(), e);
                } else {
                    let mut e = a[i].1.copy();
                    e.class = join_class(e.class, y.class);
                    acc = add_var(acc, n.clone(), e);
                }
            },
        }
        i += 1;
    }
    let ghost x = acc@;
    let ghost y = b@;
    acc.append(&mut b);
    assert(entries(acc@) =~= entries(x) + entries(y));
    (acc, ls)
}

/// Two modules composed, synchronously or not. `n` is the number of leaves.
pub open spec fn merged_elab(a: ElabV, b: ElabV, sync: bool, ls: Seq<LeafV>) -> (ElabV, Seq<LeafV>) {
    let vs = merged_vars(a.vars, b.vars, ls, 0, Seq::empty());
    let defined = a.def_next + b.def_next;
    let n = ls.len();
    (
        ElabV {
            vars: vs.0,
            invariants: a.invariants + b.invariants,
            init_defs: a.init_defs + b.init_defs,
            init_choices: a.init_choices + b.init_choices,
            trans_defs: a.trans_defs + b.trans_defs,
            trans: if sync {
                TN::All(seq![a.trans, b.trans])
            } else {
                TN::Interleave(
                    seq![
                        (a.trans, frame_fe(b.controlled, a.controlled, defined, n)),
                        (b.trans, frame_fe(a.controlled, b.controlled, defined, n)),
                    ],
                )
            },
            controlled: a.controlled + b.controlled,
            def_next: defined,
            parts: a.parts + b.parts,
        },
        vs.1,
    )
}

/// Composes two modules.
pub fn merge_binary(a: Elab, b: Elab, sync: bool, ls: Vec<LeafInfo>) -> (r: (Elab, Vec<LeafInfo>))
    requires
        ls@.len() <= u32::MAX,
    ensures
        (r.0.model(), leaf_infos(r.1@)) == merged_elab(a.model(), b.model(), sync, leaf_infos(ls@)),
{
    let ghost am = a.model();
    let ghost bm = b.model();
    let ghost lm = leaf_infos(ls@);
    let n: usize = ls.len();
    let ca: Vec<LeafId> = Vec::new();
    let ca = append_ids(ca, &a.controlled);
    assert(ca@ =~= a.controlled@);
    let da: Vec<LeafId> = Vec::new();
    let da = append_ids(da, &a.def_next);
    assert(da@ =~= a.def_next@);
    let defined = append_ids(da, &b.def_next);
    let frame_b = frame_expr(&b.controlled, &a.controlled, &defined, n);
    let frame_a = frame_expr(&a.controlled, &b.controlled, &defined, n);
    let (vars, ls2) = merge_vars(&a.vars, b.vars, ls);
    let controlled = append_ids(ca, &b.controlled);
    let trans = if sync {
        let mut ns: Vec<TransNode> = Vec::new();
        ns.push(a.trans);
        ns.push(b.trans);
        assert(tn_models(ns@) =~= seq![am.trans, bm.trans]);
        TransNode::All(ns)
    } else {
        let mut bs: Vec<(TransNode, FExpr)> = Vec::new();
        let ghost fb = frame_b.model();
        let ghost fa = frame_a.model();
        bs.push((a.trans, frame_b));
        bs.push((b.trans, frame_a));
        assert(branch_models(bs@) =~= seq![(am.trans, fb), (bm.trans, fa)]);
        TransNode::Interleave(bs)
    };
    let e = Elab {
        vars,
        invariants: append_fexprs(a.invariants, b.invariants),
        init_defs: append_fexprs(a.init_defs, b.init_defs),
        init_choices: append_blocks(a.init_choices, b.init_choices),
        trans_defs: append_fexprs(a.trans_defs, b.trans_defs),
        trans,
        controlled,
        def_next: defined,
        parts: append_parts(a.parts, b.parts),
    };
    (e, ls2)
}

} // verus!
