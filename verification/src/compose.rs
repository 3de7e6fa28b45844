//! Composition of a module with itself over an index type, and renaming.

use crate::ast::{lhs_lhs_pairs, Lhs, LhsV, VarClass};
use crate::calc::field_place;
use crate::ctype::{CType, CT};
use crate::fexpr::{fe_and, fe_models, FExpr, LeafId, LeafInfo, FE};
use crate::flat::{block_models, branch_models, cmd_models, tn_models, Cmd, FlatCmd, TransNode, TN};
use crate::skel::{
    add_cmd, add_frames, add_var, ambient, append_blocks, append_fexprs, append_ids, append_parts, copy_entries,
    dup_trans, elabs, entries, fe_ids, find_ambient, find_entry_place, frame_expr, frame_fe, frames, indexed,
    leaf_infos, list_ids, make_indexed, rename_leaves, renamed_leaves, skel_leaves, sv_ids, Elab, ElabV, LeafV,
    VarE, VarEntry, VarsV,
};
use crate::sval::{sv_models, SVal, SV};
use crate::text::views;
use crate::value::{models, Val, Value};
use vstd::prelude::*;

verus! {

/// The variables of modules from `i` on, one after another.
pub open spec fn cat_vars(es: Seq<ElabV>, i: int, acc: VarsV) -> VarsV
    decreases es.len() - i,
{
    if i < 0 || i >= es.len() {
        acc
    } else {
        cat_vars(es, i + 1, acc + es[i].vars)
    }
}

fn list_vars(es: &Vec<Elab>) -> (r: Vec<(String, VarEntry)>)
    ensures
        entries(r@) == cat_vars(elabs(es@), 0, Seq::empty()),
{
    let ghost ms = elabs(es@);
    let mut r: Vec<(String, VarEntry)> = Vec::new();
    let mut i: usize = 0;
    assert(entries(r@) =~= Seq::empty());
    while i < es.len()
        invariant
            i <= es@.len(),
            ms == elabs(es@),
            cat_vars(ms, i as int, entries(r@)) == cat_vars(ms, 0, Seq::empty()),
        decreases es.len() - i,
    {
        assert(ms[i as int] == es@[i as int].model());
        let ghost a = r@;
        let mut more = copy_entries(&es[i].vars);
        let ghost b = more@;
        r.append(&mut more);
        assert(entries(r@) =~= entries(a) + entries(b));
        i += 1;
    }
    r
}

/// The variables from `i` on that are not local, each name once.
pub open spec fn common_vars(all: VarsV, i: int, acc: VarsV) -> VarsV
    decreases all.len() - i,
{
    if i < 0 || i >= all.len() {
        acc
    } else {
        common_vars(
            all,
            i + 1,
            if all[i].1.class != VarClass::Local && field_place(acc, all[i].0, 0) is None {
                acc.push(all[i])
            } else {
                acc
            },
        )
    }
}

fn list_common(all: &Vec<(String, VarEntry)>) -> (r: Vec<(String, VarEntry)>)
    ensures
        entries(r@) == common_vars(entries(all@), 0, Seq::empty()),
{
    let ghost ms = entries(all@);
    let mut r: Vec<(String, VarEntry)> = Vec::new();
    let mut i: usize = 0;
    assert(entries(r@) =~= Seq::empty());
    while i < all.len()
        invariant
            i <= all@.len(),
            ms == entries(all@),
            common_vars(ms, i as int, entries(r@)) == common_vars(ms, 0, Seq::empty()),
        decreases all.len() - i,
    {
        assert(ms[i as int] == (all@[i as int].0@, all@[i as int].1.model()));
        if all[i].1.class != VarClass::Local && find_entry_place(&r, &all[i].0).is_none() {
            r = add_var(r, all[i].0.clone(), all[i].1.copy());
        }
        i += 1;
    }
    r
}

/// The local variables of a name, from `i` on.
pub open spec fn locals_of(all: VarsV, name: Seq<char>, i: int, acc: Seq<VarE>) -> Seq<VarE>
    decreases all.len() - i,
{
    if i < 0 || i >= all.len() {
        acc
    } else {
        locals_of(
            all,
            name,
            i + 1,
            if all[i].1.class == VarClass::Local && all[i].0 == name {
                acc.push(all[i].1)
            } else {
                acc
            },
        )
    }
}

/// The contents of state variables.
pub open spec fn entry_models(v: Seq<VarEntry>) -> Seq<VarE> {
    Seq::new(v.len(), |i: int| v[i].model())
}

fn list_locals(all: &Vec<(String, VarEntry)>, name: &String) -> (r: Vec<VarEntry>)
    ensures
        entry_models(r@) == locals_of(entries(all@), name@, 0, Seq::empty()),
{
    let ghost ms = entries(all@);
    let mut r: Vec<VarEntry> = Vec::new();
    let mut i: usize = 0;
    assert(entry_models(r@) =~= Seq::empty());
    while i < all.len()
        invariant
            i <= all@.len(),
            ms == entries(all@),
            locals_of(ms, name@, i as int, entry_models(r@)) == locals_of(ms, name@, 0, Seq::empty()),
        decreases all.len() - i,
    {
        assert(ms[i as int] == (all@[i as int].0@, all@[i as int].1.model()));
        if all[i].1.class == VarClass::Local && all[i].0 == *name {
            let ghost a = r@;
            let e = all[i].1.copy();
            let ghost m = e.model();
            r.push(e);
            assert(entry_models(r@) =~= entry_models(a).push(m));
        }
        i += 1;
    }
    r
}

/// The leaves, with those of variables from `i` on named as elements.
pub open spec fn renamed_all(ls: Seq<LeafV>, es: Seq<VarE>, name: Seq<char>, t: CT, vals: Seq<Val>, i: int) -> Seq<LeafV>
    decreases es.len() - i,
{
    if i < 0 || i >= es.len() || i >= vals.len() {
        ls
    } else {
        renamed_all(renamed_leaves(ls, es[i].skel, indexed(name, t, vals[i])), es, name, t, vals, i + 1)
    }
}

fn rename_all(ls0: Vec<LeafInfo>, es: &Vec<VarEntry>, name: &String, t: &CType, vals: &Vec<Value>) -> (r: Vec<LeafInfo>)
    ensures
        leaf_infos(r@) == renamed_all(leaf_infos(ls0@), entry_models(es@), name@, t.model(), models(vals@), 0),
{
    let ghost em = entry_models(es@);
    let ghost vm = models(vals@);
    let ghost tm = t.model();
    let mut ls = ls0;
    let mut i: usize = 0;
    while i < es.len() && i < vals.len()
        invariant
            i <= es@.len(),
            i <= vals@.len(),
            em == entry_models(es@),
            vm == models(vals@),
            tm == t.model(),
            renamed_all(leaf_infos(ls@), em, name@, tm, vm, i as int) == renamed_all(
                leaf_infos(ls0@),
                em,
                name@,
                tm,
                vm,
                0,
            ),
        decreases es.len() - i,
    {
        assert(em[i as int] == es@[i as int].model());
        assert(vm[i as int] == vals@[i as int].model());
        ls = rename_leaves(ls, &es[i].skel, &make_indexed(name, t, &vals[i]));
        i += 1;
    }
    ls
}

/// The symbolic values of variables.
pub open spec fn skels(es: Seq<VarE>) -> Seq<SV> {
    Seq::new(es.len(), |i: int| es[i].skel)
}

fn list_skels(es: &Vec<VarEntry>) -> (r: Vec<SVal>)
    ensures
        sv_models(r@) == skels(entry_models(es@)),
{
    let mut r: Vec<SVal> = Vec::new();
    let mut i: usize = 0;
    while i < es.len()
        invariant
            i <= es@.len(),
            r@.len() == i,
            forall|j: int| 0 <= j < i ==> (#[trigger] r@[j]).model() == es@[j].skel.model(),
        decreases es.len() - i,
    {
        r.push(es[i].skel.copy());
        i += 1;
    }
    assert(sv_models(r@) =~= skels(entry_models(es@)));
    r
}

/// The local variables of modules from `i` on, each name once, made arrays over an index type; one
/// that some module lacks stays as it is first declared.
pub open spec fn array_vars(all: VarsV, t: CT, vals: Seq<Val>, i: int, acc: VarsV, done: Seq<Seq<char>>, ls: Seq<LeafV>) -> (
    VarsV,
    Seq<LeafV>,
)
    decreases all.len() - i,
{
    if i < 0 || i >= all.len() {
        (acc, ls)
    } else if all[i].1.class != VarClass::Local || done.contains(all[i].0) {
        array_vars(all, t, vals, i + 1, acc, done, ls)
    } else {
        let n = all[i].0;
        let es = locals_of(all, n, 0, Seq::empty());
        if es.len() != vals.len() {
            array_vars(all, t, vals, i + 1, acc.push(all[i]), done.push(n), ls)
        } else {
            array_vars(
                all,
                t,
                vals,
                i + 1,
                acc.push(
                    (
                        n,
                        VarE {
                            class: VarClass::Local,
                            ctype: CT::Maps(false, Box::new(t), Box::new(all[i].1.ctype)),
                            skel: SV::Array(t, skels(es)),
                        },
                    ),
                ),
                done.push(n),
                renamed_all(ls, es, n, t, vals, 0),
            )
        }
    }
}

fn holds_name(v: &Vec<String>, name: &String) -> (r: bool)
    ensures
        r == views(v@).contains(name@),
{
    let ghost s = views(v@);
    let mut i: usize = 0;
    while i < v.len()
        invariant
            i <= v@.len(),
            s == views(v@),
            forall|j: int| 0 <= j < i ==> s[j] != name@,
        decreases v.len() - i,
    {
        assert(s[i as int] == v@[i as int]@);
        if v[i] == *name {
            return true;
        }
        i += 1;
    }
    false
}

fn list_arrays(
    all: &Vec<(String, VarEntry)>,
    t: &CType,
    vals: &Vec<Value>,
    acc0: Vec<(String, VarEntry)>,
    ls0: Vec<LeafInfo>,
) -> (r: (Vec<(String, VarEntry)>, Vec<LeafInfo>))
    ensures
        (entries(r.0@), leaf_infos(r.1@)) == array_vars(
            entries(all@),
            t.model(),
            models(vals@),
            0,
            entries(acc0@),
            Seq::empty(),
            leaf_infos(ls0@),
        ),
{
    let ghost am = entries(all@);
    let ghost tm = t.model();
    let ghost vm = models(vals@);
    let ghost whole = array_vars(am, tm, vm, 0, entries(acc0@), Seq::empty(), leaf_infos(ls0@));
    let mut acc = acc0;
    let mut ls = ls0;
    let mut done: Vec<String> = Vec::new();
    let mut i: usize = 0;
    assert(views(done@) =~= Seq::empty());
    while i < all.len()
        invariant
            i <= all@.len(),
            am == entries(all@),
            tm == t.model(),
            vm == models(vals@),
            array_vars(am, tm, vm, i as int, entries(acc@), views(done@), leaf_infos(ls@)) == whole,
        decreases all.len() - i,
    {
        assert(am[i as int] == (all@[i as int].0@, all@[i as int].1.model()));
        if all[i].1.class == VarClass::Local && !holds_name(&done, &all[i].0) {
            let es = list_locals(all, &all[i].0);
            assert(entry_models(es@).len() == es@.len());
            if es.len() != vals.len() {
                acc = add_var(acc, all[i].0.clone(), all[i].1.copy());
            } else {
                ls = rename_all(ls, &es, &all[i].0, t, vals);
                let e = VarEntry {
                    class: VarClass::Local,
                    ctype: CType::Array(Box::new(t.copy()), Box::new(all[i].1.ctype.copy())),
                    skel: SVal::Array(Box::new(t.copy()), list_skels(&es)),
                };
                acc = add_var(acc, all[i].0.clone(), e);
            }
            let ghost d = done@;
            done.push(all[i].0.clone());
            assert(views(done@) =~= views(d).push(all@[i as int].0@));
        }
        i += 1;
    }
    (acc, ls)
}

/// The leaves that modules other than `but` control, from `i` on.
pub open spec fn others(es: Seq<ElabV>, but: int, i: int, acc: Seq<LeafId>) -> Seq<LeafId>
    decreases es.len() - i,
{
    if i < 0 || i >= es.len() {
        acc
    } else {
        others(
            es,
            but,
            i + 1,
            if i == but {
                acc
            } else {
                acc + es[i].controlled
            },
        )
    }
}

fn list_others(es: &Vec<Elab>, but: usize) -> (r: Vec<LeafId>)
    ensures
        r@ == others(elabs(es@), but as int, 0, Seq::empty()),
{
    let ghost ms = elabs(es@);
    let mut r: Vec<LeafId> = Vec::new();
    let mut i: usize = 0;
    assert(r@ =~= Seq::empty());
    while i < es.len()
        invariant
            i <= es@.len(),
            ms == elabs(es@),
            others(ms, but as int, i as int, r@) == others(ms, but as int, 0, Seq::empty()),
        decreases es.len() - i,
    {
        assert(ms[i as int] == es@[i as int].model());
        if i != but {
            r = append_ids(r, &es[i].controlled);
        }
        i += 1;
    }
    r
}

/// The leaves whose next values the definitions of modules from `i` on give.
pub open spec fn all_defined(es: Seq<ElabV>, i: int, acc: Seq<LeafId>) -> Seq<LeafId>
    decreases es.len() - i,
{
    if i < 0 || i >= es.len() {
        acc
    } else {
        all_defined(es, i + 1, acc + es[i].def_next)
    }
}

fn list_defined(es: &Vec<Elab>) -> (r: Vec<LeafId>)
    ensures
        r@ == all_defined(elabs(es@), 0, Seq::empty()),
{
    let ghost ms = elabs(es@);
    let mut r: Vec<LeafId> = Vec::new();
    let mut i: usize = 0;
    assert(r@ =~= Seq::empty());
    while i < es.len()
        invariant
            i <= es@.len(),
            ms == elabs(es@),
            all_defined(ms, i as int, r@) == all_defined(ms, 0, Seq::empty()),
        decreases es.len() - i,
    {
        assert(ms[i as int] == es@[i as int].model());
        r = append_ids(r, &es[i].def_next);
        i += 1;
    }
    r
}

/// The transition relations of modules.
pub open spec fn all_trans(es: Seq<ElabV>) -> Seq<TN> {
    Seq::new(es.len(), |i: int| es[i].trans)
}

/// The transition relations of modules, each with the condition that frames the others.
pub open spec fn all_branches(es: Seq<ElabV>, defined: Seq<LeafId>, n: nat) -> Seq<(TN, FE)> {
    Seq::new(
        es.len(),
        |i: int| (es[i].trans, frame_fe(others(es, i, 0, Seq::empty()), es[i].controlled, defined, n)),
    )
}

/// What modules from `i` on say, one after another.
pub open spec fn gathered(es: Seq<ElabV>, i: int, acc: ElabV) -> ElabV
    decreases es.len() - i,
{
    if i < 0 || i >= es.len() {
        acc
    } else {
        gathered(
            es,
            i + 1,
            ElabV {
                invariants: acc.invariants + es[i].invariants,
                init_defs: acc.init_defs + es[i].init_defs,
                init_choices: acc.init_choices + es[i].init_choices,
                trans_defs: acc.trans_defs + es[i].trans_defs,
                parts: acc.parts + es[i].parts,
                ..acc
            },
        )
    }
}

/// A module composed with itself, synchronously or not.
pub open spec fn merged_multi(es: Seq<ElabV>, t: CT, vals: Seq<Val>, sync: bool, ls: Seq<LeafV>) -> (ElabV, Seq<LeafV>) {
    let all = cat_vars(es, 0, Seq::empty());
    let vs = array_vars(all, t, vals, 0, common_vars(all, 0, Seq::empty()), Seq::empty(), ls);
    let defined = all_defined(es, 0, Seq::empty());
    (
        gathered(
            es,
            0,
            ElabV {
                vars: vs.0,
                invariants: Seq::empty(),
                init_defs: Seq::empty(),
                init_choices: Seq::empty(),
                trans_defs: Seq::empty(),
                trans: if sync {
                    TN::All(all_trans(es))
                } else {
                    TN::Interleave(all_branches(es, defined, ls.len()))
                },
                controlled: others(es, -1, 0, Seq::empty()),
                def_next: defined,
                parts: Seq::empty(),
            },
        ),
        vs.1,
    )
}

/// Composes a module with itself.
pub fn merge_multi(es: Vec<Elab>, t: &CType, vals: &Vec<Value>, sync: bool, ls: Vec<LeafInfo>) -> (r: (
    Elab,
    Vec<LeafInfo>,
))
    requires
        ls@.len() <= u32::MAX,
        es@.len() < usize::MAX,
    ensures
        (r.0.model(), leaf_infos(r.1@)) == merged_multi(
            elabs(es@),
            t.model(),
            models(vals@),
            sync,
            leaf_infos(ls@),
        ),
{
    let ghost ms = elabs(es@);
    let n: usize = ls.len();
    let all = list_vars(&es);
    let common = list_common(&all);
    let defined = list_defined(&es);
    let controlled = list_others(&es, usize::MAX);
    proof {
        nobody_left_out(ms, usize::MAX as int, 0, Seq::empty());
    }
    let (vars, ls2) = list_arrays(&all, t, vals, common, ls);
    let trans = if sync {
        let mut ns: Vec<TransNode> = Vec::new();
        let mut i: usize = 0;
        while i < es.len()
            invariant
                i <= es@.len(),
                ns@.len() == i,
                ms == elabs(es@),
                forall|j: int| 0 <= j < i ==> (#[trigger] ns@[j]).model() == ms[j].trans,
            decreases es.len() - i,
        {
            assert(ms[i as int] == es@[i as int].model());
            ns.push(dup_trans(&es[i].trans));
            i += 1;
        }
        assert(tn_models(ns@) =~= all_trans(ms));
        TransNode::All(ns)
    } else {
        let mut bs: Vec<(TransNode, FExpr)> = Vec::new();
        let ghost want = all_branches(ms, defined@, n as nat);
        let mut i: usize = 0;
        while i < es.len()
            invariant
                i <= es@.len(),
                bs@.len() == i,
                n <= u32::MAX,
                ms == elabs(es@),
                want == all_branches(ms, defined@, n as nat),
                forall|j: int| 0 <= j < i ==> ((#[trigger] bs@[j]).0.model(), bs@[j].1.model()) == want[j],
            decreases es.len() - i,
        {
            assert(ms[i as int] == es@[i as int].model());
            let rest = list_others(&es, i);
            let f = frame_expr(&rest, &es[i].controlled, &defined, n);
            bs.push((dup_trans(&es[i].trans), f));
            i += 1;
        }
        assert(branch_models(bs@) =~= want);
        TransNode::Interleave(bs)
    };
    let mut r = Elab {
        vars,
        invariants: Vec::new(),
        init_defs: Vec::new(),
        init_choices: Vec::new(),
        trans_defs: Vec::new(),
        trans,
        controlled,
        def_next: defined,
        parts: Vec::new(),
    };
    proof {
        assert(r.model().parts =~= Seq::empty());
        assert(r.model().invariants =~= Seq::empty());
        assert(r.model().init_defs =~= Seq::empty());
        assert(r.model().init_choices =~= Seq::empty());
        assert(r.model().trans_defs =~= Seq::empty());
    }
    let ghost begun = r.model();
    let mut es = es;
    let mut i: usize = 0;
    let count: usize = es.len();
    while i < count
        invariant
            i <= count,
            count == ms.len(),
            es@.len() == count - i,
            forall|j: int| 0 <= j < es@.len() ==> (#[trigger] es@[j]).model() == ms[i + j],
            gathered(ms, i as int, r.model()) == gathered(ms, 0, begun),
        decreases count - i,
    {
        let ghost before = es@;
        let e = es.remove(0);
        let ghost rm = r.model();
        assert(e.model() == ms[i as int]) by {
            assert(before[0].model() == ms[i + 0]);
        }
        r = Elab {
            vars: r.vars,
            invariants: append_fexprs(r.invariants, e.invariants),
            init_defs: append_fexprs(r.init_defs, e.init_defs),
            init_choices: append_blocks(r.init_choices, e.init_choices),
            trans_defs: append_fexprs(r.trans_defs, e.trans_defs),
            trans: r.trans,
            controlled: r.controlled,
            def_next: r.def_next,
            parts: append_parts(r.parts, e.parts),
        };
        assert forall|j: int| 0 <= j < es@.len() implies (#[trigger] es@[j]).model() == ms[i + 1 + j] by {
            assert(before[j + 1].model() == ms[i + (j + 1)]);
        }
        i += 1;
    }
    (r, ls2)
}

proof fn nobody_left_out(es: Seq<ElabV>, but: int, i: int, acc: Seq<LeafId>)
    requires
        but >= es.len(),
        0 <= i,
    ensures
        others(es, but, i, acc) == others(es, -1, i, acc),
    decreases es.len() - i,
{
    if i < es.len() {
        nobody_left_out(es, but, i + 1, acc + es[i].controlled);
    }
}

/// The variables of a module with added ones in front, from the last, number `i - 1`, to the first.
pub open spec fn with_front(vars: VarsV, front: VarsV, i: int) -> VarsV
    decreases i,
{
    if i <= 0 || i > front.len() {
        vars
    } else {
        with_front(
            if field_place(vars, front[i - 1].0, 0) is None {
                seq![front[i - 1]] + vars
            } else {
                vars
            },
            front,
            i - 1,
        )
    }
}

/// Puts added variables in front.
pub fn put_front(vars0: Vec<(String, VarEntry)>, front: &Vec<(String, VarEntry)>) -> (r: Vec<(String, VarEntry)>)
    ensures
        entries(r@) == with_front(entries(vars0@), entries(front@), front@.len() as int),
{
    let ghost fm = entries(front@);
    let mut vars = vars0;
    let mut i: usize = front.len();
    while i > 0
        invariant
            i <= front@.len(),
            fm == entries(front@),
            with_front(entries(vars@), fm, i as int) == with_front(entries(vars0@), fm, front@.len() as int),
        decreases i,
    {
        assert(fm[i - 1] == (front@[i - 1].0@, front@[i - 1].1.model()));
        if find_entry_place(&vars, &front[i - 1].0).is_none() {
            let ghost a = vars@;
            let e = front[i - 1].1.copy();
            let n = front[i - 1].0.clone();
            let ghost m = (n@, e.model());
            vars.insert(0, (n, e));
            assert(entries(vars@) =~= seq![m] + entries(a));
        }
        i -= 1;
    }
    vars
}

/// The leaves of the variables from `i` on that are no inputs.
pub open spec fn owned(vars: VarsV, i: int, acc: Seq<LeafId>) -> Seq<LeafId>
    decreases vars.len() - i,
{
    if i < 0 || i >= vars.len() {
        acc
    } else {
        owned(
            vars,
            i + 1,
            if vars[i].1.class != VarClass::Input {
                sv_ids(vars[i].1.skel, acc)
            } else {
                acc
            },
        )
    }
}

/// Lists the leaves of the variables that are no inputs.
pub fn list_owned(vars: &Vec<(String, VarEntry)>, acc0: Vec<LeafId>) -> (r: Vec<LeafId>)
    ensures
        r@ == owned(entries(vars@), 0, acc0@),
{
    let ghost ms = entries(vars@);
    let mut r = acc0;
    let mut i: usize = 0;
    while i < vars.len()
        invariant
            i <= vars@.len(),
            ms == entries(vars@),
            owned(ms, i as int, r@) == owned(ms, 0, acc0@),
        decreases vars.len() - i,
    {
        assert(ms[i as int] == (vars@[i as int].0@, vars@[i as int].1.model()));
        if vars[i].1.class != VarClass::Input {
            r = skel_leaves(&vars[i].1.skel, r);
        }
        i += 1;
    }
    r
}

/// The place of the first renaming of a variable, from `i` on.
pub open spec fn rename_place(rs: Seq<(LhsV, LhsV)>, name: Seq<char>, i: int) -> Option<nat>
    decreases rs.len() - i,
{
    if i < 0 || i >= rs.len() {
        None
    } else if rs[i].0.base.name == name {
        Some(i as nat)
    } else {
        rename_place(rs, name, i + 1)
    }
}

fn find_rename(rs: &Vec<(Lhs, Lhs)>, name: &String) -> (r: Option<usize>)
    ensures
        match (r, rename_place(lhs_lhs_pairs(rs@), name@, 0)) {
            (Some(i), Some(j)) => i == j && i < rs@.len(),
            (None, None) => true,
            _ => false,
        },
{
    let mut i: usize = 0;
    while i < rs.len()
        invariant
            rename_place(lhs_lhs_pairs(rs@), name@, 0) == rename_place(lhs_lhs_pairs(rs@), name@, i as int),
        decreases rs.len() - i,
    {
        let ghost a = rs@[i as int].0.model();
        let ghost b = rs@[i as int].0.base.model();
        assert(lhs_lhs_pairs(rs@)[i as int] == (rs@[i as int].0.model(), rs@[i as int].1.model()));
        if rs[i].0.base.name == *name {
            return Some(i);
        }
        i += 1;
    }
    None
}

/// The variables of a renamed module from `i` on, and the leaves. A variable that is renamed to a
/// variable around the module, or to a part of one, is no longer one of the module.
pub open spec fn renamed_vars(
    vars: VarsV,
    rs: Seq<(LhsV, LhsV)>,
    amb: VarsV,
    ls: Seq<LeafV>,
    i: int,
    acc: VarsV,
) -> (VarsV, Seq<LeafV>)
    decreases vars.len() - i,
{
    if i < 0 || i >= vars.len() {
        (acc, ls)
    } else {
        match rename_place(rs, vars[i].0, 0) {
            None => renamed_vars(vars, rs, amb, ls, i + 1, acc.push(vars[i])),
            Some(p) => {
                let to = rs[p as int].1;
                if to.accesses.len() == 0 && ambient(amb, to.base.name) is None {
                    renamed_vars(
                        vars,
                        rs,
                        amb,
                        renamed_leaves(ls, vars[i].1.skel, to.base.name),
                        i + 1,
                        acc.push((to.base.name, vars[i].1)),
                    )
                } else {
                    renamed_vars(vars, rs, amb, ls, i + 1, acc)
                }
            },
        }
    }
}

/// Renames the variables of a module.
pub fn rename_vars(
    vars: &Vec<(String, VarEntry)>,
    rs: &Vec<(Lhs, Lhs)>,
    amb: &Vec<(String, VarEntry)>,
    ls0: Vec<LeafInfo>,
) -> (r: (Vec<(String, VarEntry)>, Vec<LeafInfo>))
    ensures
        (entries(r.0@), leaf_infos(r.1@)) == renamed_vars(
            entries(vars@),
            lhs_lhs_pairs(rs@),
            entries(amb@),
            leaf_infos(ls0@),
            0,
            Seq::empty(),
        ),
{
    let ghost vm = entries(vars@);
    let ghost rm = lhs_lhs_pairs(rs@);
    let ghost am = entries(amb@);
    let ghost whole = renamed_vars(vm, rm, am, leaf_infos(ls0@), 0, Seq::empty());
    let mut ls = ls0;
    let mut acc: Vec<(String, VarEntry)> = Vec::new();
    let mut i: usize = 0;
    assert(entries(acc@) =~= Seq::empty());
    while i < vars.len()
        invariant
            i <= vars@.len(),
            vm == entries(vars@),
            rm == lhs_lhs_pairs(rs@),
            am == entries(amb@),
            renamed_vars(vm, rm, am, leaf_infos(ls@), i as int, entries(acc@)) == whole,
        decreases vars.len() - i,
    {
        assert(vm[i as int] == (vars@[i as int].0@, vars@[i as int].1.model()));
        match find_rename(rs, &vars[i].0) {
            None => {
                acc = add_var(acc, vars[i].0.clone(), vars[i].1.copy());
            },
            Some(p) => {
                let ghost b = rs@[p as int].1.model();
                let ghost c = rs@[p as int].1.base.model();
                assert(rm[p as int].1 == b);
                let to = &rs[p].1;
                if to.accesses.len() == 0 && find_ambient(amb, &to.base.name).is_none() {
                    ls = rename_leaves(ls, &vars[i].1.skel, &to.base.name);
                    acc = add_var(acc, to.base.name.clone(), vars[i].1.copy());
                }
            },
        }
        i += 1;
    }
    (acc, ls)
}

/// The leaves whose next values the commands from `i` on constrain.
pub open spec fn assigned(cs: Seq<Cmd>, i: int, acc: Seq<LeafId>) -> Seq<LeafId>
    decreases cs.len() - i,
{
    if i < 0 || i >= cs.len() {
        acc
    } else {
        assigned(cs, i + 1, fe_ids(cs[i].constraint, true, acc))
    }
}

fn list_assigned(cs: &Vec<FlatCmd>, acc0: Vec<LeafId>) -> (r: Vec<LeafId>)
    ensures
        r@ == assigned(cmd_models(cs@), 0, acc0@),
{
    let ghost ms = cmd_models(cs@);
    let mut r = acc0;
    let mut i: usize = 0;
    while i < cs.len()
        invariant
            i <= cs@.len(),
            ms == cmd_models(cs@),
            assigned(ms, i as int, r@) == assigned(ms, 0, acc0@),
        decreases cs.len() - i,
    {
        assert(ms[i as int] == cs@[i as int].model());
        r = list_ids(&cs[i].constraint, true, r);
        i += 1;
    }
    r
}

/// The leaves whose next values blocks other than `but` constrain, and those in `acc`, from block
/// `i` on.
pub open spec fn other_blocks(bs: Seq<Seq<Cmd>>, but: int, i: int, acc: Seq<LeafId>) -> Seq<LeafId>
    decreases bs.len() - i,
{
    if i < 0 || i >= bs.len() {
        acc
    } else {
        other_blocks(
            bs,
            but,
            i + 1,
            if i == but {
                acc
            } else {
                assigned(bs[i], 0, acc)
            },
        )
    }
}

fn list_other_blocks(bs: &Vec<Vec<FlatCmd>>, but: usize, acc0: Vec<LeafId>) -> (r: Vec<LeafId>)
    ensures
        r@ == other_blocks(block_models(bs@), but as int, 0, acc0@),
{
    let ghost ms = block_models(bs@);
    let mut r = acc0;
    let mut i: usize = 0;
    while i < bs.len()
        invariant
            i <= bs@.len(),
            ms == block_models(bs@),
            other_blocks(ms, but as int, i as int, r@) == other_blocks(ms, but as int, 0, acc0@),
        decreases bs.len() - i,
    {
        assert(ms[i as int] == cmd_models(bs@[i as int]@));
        if i != but {
            r = list_assigned(&bs[i], r);
        }
        i += 1;
    }
    r
}

/// The commands of a block from `i` on, each with the conditions that the leaves which nothing gives
/// a next value keep theirs.
pub open spec fn framed_cmds(
    cs: Seq<Cmd>,
    controlled: Seq<LeafId>,
    given: Seq<LeafId>,
    n: nat,
    i: int,
    acc: Seq<Cmd>,
) -> Seq<Cmd>
    decreases cs.len() - i,
{
    if i < 0 || i >= cs.len() {
        acc
    } else {
        let own = fe_ids(cs[i].constraint, true, Seq::empty());
        framed_cmds(
            cs,
            controlled,
            given,
            n,
            i + 1,
            acc.push(
                Cmd {
                    label: cs[i].label,
                    guard: cs[i].guard,
                    constraint: fe_and(frames(controlled, own, given, n, 0, seq![cs[i].constraint])),
                },
            ),
        )
    }
}

fn copy_label(l: &Option<String>) -> (r: Option<String>)
    ensures
        r == *l,
{
    match l {
        Some(s) => Some(s.clone()),
        None => None,
    }
}

fn frame_cmds(cs: &Vec<FlatCmd>, controlled: &Vec<LeafId>, given: &Vec<LeafId>, n: usize) -> (r: Vec<FlatCmd>)
    requires
        n <= u32::MAX,
    ensures
        cmd_models(r@) == framed_cmds(cmd_models(cs@), controlled@, given@, n as nat, 0, Seq::empty()),
{
    let ghost ms = cmd_models(cs@);
    let mut r: Vec<FlatCmd> = Vec::new();
    let mut i: usize = 0;
    assert(cmd_models(r@) =~= Seq::empty());
    while i < cs.len()
        invariant
            i <= cs@.len(),
            n <= u32::MAX,
            ms == cmd_models(cs@),
            framed_cmds(ms, controlled@, given@, n as nat, i as int, cmd_models(r@)) == framed_cmds(
                ms,
                controlled@,
                given@,
                n as nat,
                0,
                Seq::empty(),
            ),
        decreases cs.len() - i,
    {
        assert(ms[i as int] == cs@[i as int].model());
        let none: Vec<LeafId> = Vec::new();
        assert(none@ =~= Seq::empty());
        let own = list_ids(&cs[i].constraint, true, none);
        let mut first: Vec<FExpr> = Vec::new();
        first.push(cs[i].constraint.clone());
        assert(fe_models(first@) =~= seq![ms[i as int].constraint]);
        let c = FExpr::and(add_frames(controlled, &own, given, n, first));
        r = add_cmd(r, copy_label(&cs[i].label), cs[i].provenance.clone(), cs[i].guard.clone(), c);
        i += 1;
    }
    r
}

/// The transition relation that blocks of commands give, each block framed.
pub open spec fn framed_nodes(
    bs: Seq<Seq<Cmd>>,
    controlled: Seq<LeafId>,
    defined: Seq<LeafId>,
    n: nat,
) -> Seq<TN> {
    Seq::new(
        bs.len(),
        |i: int|
            TN::Cmds(framed_cmds(bs[i], controlled, other_blocks(bs, i, 0, defined), n, 0, Seq::empty())),
    )
}

/// The transition relation of a transition section.
pub open spec fn section_trans(bs: Seq<Seq<Cmd>>, controlled: Seq<LeafId>, defined: Seq<LeafId>, n: nat) -> TN {
    if bs.len() == 0 {
        TN::True
    } else if bs.len() == 1 {
        framed_nodes(bs, controlled, defined, n)[0]
    } else {
        TN::All(framed_nodes(bs, controlled, defined, n))
    }
}

/// The transition relation of a transition section.
pub fn make_trans(bs: &Vec<Vec<FlatCmd>>, controlled: &Vec<LeafId>, defined: &Vec<LeafId>, n: usize) -> (r: TransNode)
    requires
        n <= u32::MAX,
    ensures
        r.model() == section_trans(block_models(bs@), controlled@, defined@, n as nat),
{
    let ghost ms = block_models(bs@);
    let ghost want = framed_nodes(ms, controlled@, defined@, n as nat);
    let mut nodes: Vec<TransNode> = Vec::new();
    let mut i: usize = 0;
    while i < bs.len()
        invariant
            i <= bs@.len(),
            nodes@.len() == i,
            n <= u32::MAX,
            ms == block_models(bs@),
            want == framed_nodes(ms, controlled@, defined@, n as nat),
            forall|j: int| 0 <= j < i ==> (#[trigger] nodes@[j]).model() == want[j],
        decreases bs.len() - i,
    {
        assert(ms[i as int] == cmd_models(bs@[i as int]@));
        let start: Vec<LeafId> = Vec::new();
        let start = append_ids(start, defined);
        assert(start@ =~= defined@);
        let given = list_other_blocks(bs, i, start);
        nodes.push(TransNode::Cmds(frame_cmds(&bs[i], controlled, &given, n)));
        i += 1;
    }
    if nodes.len() == 0 {
        TransNode::True
    } else if nodes.len() == 1 {
        let r = nodes.remove(0);
        r
    } else {
        assert(tn_models(nodes@) =~= want);
        TransNode::All(nodes)
    }
}

} // verus!
