//! The steps by which the flat form of a module grows.

use crate::ast::{
    base_decl_models, ident_models, Access, AccessV, BaseDecl, BaseDeclV, GuardedCommand, Ident, IdentV, Lhs, LhsV,
    VarClass,
};
use crate::calc::{field_place, make_next, next_name, opt_fe};
use crate::compose::{list_owned, owned, put_front, with_front};
use crate::ctype::{ct_fields, ct_models, CType, CT};
use crate::fexpr::{fe_and, fe_bool, fe_models, FExpr, LeafId, FE};
use crate::flat::{cmd_models, opt_text, Cmd, FlatCmd, TransNode, TN};
use crate::operators::condition;
use crate::skel::{
    add_block, add_fexpr, add_var, append_ids, classed, entries, frame_expr, frame_fe, part_views, set_classes,
    skel_leaves, sv_ids, Elab, ElabV, VarE, VarEntry, VarsV,
};
use crate::sval::{opt_sv, select_indexed, sv_eq, sv_select, SVal, SV};
use crate::text::{own, same};
use vstd::prelude::*;

verus! {

/// A condition together with another, where there is another.
pub open spec fn also(inner: Option<FE>, c: FE) -> FE {
    match inner {
        Some(i) => fe_and(seq![i, c]),
        None => c,
    }
}

/// A condition together with another, where there is another.
pub fn join_also(inner: Option<FExpr>, c: FExpr) -> (r: FExpr)
    ensures
        r.model() == also(opt_fe(inner), c.model()),
{
    match inner {
        Some(i) => {
            let ghost im = i.model();
            let ghost cm = c.model();
            let mut v: Vec<FExpr> = Vec::new();
            v.push(i);
            v.push(c);
            assert(fe_models(v@) =~= seq![im, cm]);
            FExpr::and(v)
        },
        None => c,
    }
}

/// The condition that a symbolic value is.
pub fn as_condition(v: &SVal) -> (r: Option<FExpr>)
    ensures
        opt_fe(r) == condition(v.model()),
{
    match v.to_bool_fexpr() {
        Ok(e) => Some(e),
        Err(_) => None,
    }
}

/// The condition that two symbolic values are equal.
pub fn equal_svals(a: &SVal, b: &SVal) -> (r: Option<FExpr>)
    ensures
        opt_fe(r) == sv_eq(a.model(), b.model()),
{
    match a.eq_sval(b) {
        Ok(e) => Some(e),
        Err(_) => None,
    }
}

/// The name under which the variable of a left side is looked up.
#[verifier::opaque]
pub open spec fn head_name(l: LhsV) -> Seq<char> {
    if l.next {
        next_name(l.base.name)
    } else {
        l.base.name
    }
}

/// The name under which the variable of a left side is looked up.
pub fn make_head(l: &Lhs) -> (r: String)
    ensures
        r@ == head_name(l.model()),
{
    let ghost bm = l.base.model();
    proof {
        reveal(head_name);
    }
    if l.next {
        make_next(&l.base.name)
    } else {
        l.base.name.clone()
    }
}

/// The element of an array at a fixed index.
pub open spec fn fixed_element(c: SV, iv: SV) -> Option<SV> {
    match iv {
        SV::Ground(_v) => skel_element(c, iv),
        _ => None,
    }
}

/// The element of an array at a fixed index.
pub fn find_fixed_element(c: &SVal, iv: &SVal) -> (r: Option<SVal>)
    ensures
        opt_sv(r) == fixed_element(c.model(), iv.model()),
{
    match iv {
        SVal::Ground(_v) => find_skel_element(c, iv),
        _ => None,
    }
}

/// The element of an array at an index.
pub open spec fn skel_element(c: SV, iv: SV) -> Option<SV> {
    match c {
        SV::Array(it, es) => sv_select(it, es, iv),
        _ => None,
    }
}

/// The element of an array at an index.
pub fn find_skel_element(c: &SVal, iv: &SVal) -> (r: Option<SVal>)
    ensures
        opt_sv(r) == skel_element(c.model(), iv.model()),
{
    match c {
        SVal::Array(it, es) => match select_indexed(it, es, iv) {
            Ok(v) => Some(v),
            Err(_) => None,
        },
        _ => None,
    }
}

/// The type that an access leads to.
pub open spec fn type_part(t: CT, a: AccessV) -> Option<CT> {
    match (a, t) {
        (AccessV::Array(_e), CT::Maps(_f, _i, e)) => Some(*e),
        (AccessV::Record(f), CT::Record(fs)) => match field_place(fs, f.name, 0) {
            Some(p) => Some(fs[p as int].1),
            None => None,
        },
        (AccessV::Tuple(n), CT::Tuple(ts)) => if 1 <= n <= ts.len() {
            Some(ts[n - 1])
        } else {
            None
        },
        _ => None,
    }
}

/// The content of a type, where there is one.
pub open spec fn opt_ct(t: Option<CType>) -> Option<CT> {
    match t {
        Some(x) => Some(x.model()),
        None => None,
    }
}

fn find_type_field(fs: &Vec<(String, CType)>, name: &String) -> (r: Option<CType>)
    ensures
        opt_ct(r) == (match field_place(ct_fields(fs@), name@, 0) {
            Some(p) => Some(ct_fields(fs@)[p as int].1),
            None => None,
        }),
{
    let ghost ms = ct_fields(fs@);
    let mut i: usize = 0;
    while i < fs.len()
        invariant
            i <= fs@.len(),
            ms == ct_fields(fs@),
            field_place(ms, name@, 0) == field_place(ms, name@, i as int),
        decreases fs.len() - i,
    {
        assert(ms[i as int] == (fs@[i as int].0@, fs@[i as int].1.model()));
        if same(&fs[i].0, name) {
            return Some(fs[i].1.copy());
        }
        i += 1;
    }
    None
}

/// The type that an access leads to.
pub fn find_type_part(t: &CType, a: &Access) -> (r: Option<CType>)
    ensures
        opt_ct(r) == type_part(t.model(), a.model()),
{
    match a {
        Access::Array(_e) => match t {
            CType::Array(_i, e) => Some(e.copy()),
            CType::Fun(_i, e) => Some(e.copy()),
            _ => None,
        },
        Access::Record(f) => match t {
            CType::Record(fs) => find_type_field(fs, &f.name),
            _ => None,
        },
        Access::Tuple(n) => match t {
            CType::Tuple(ts) => {
                if 1 <= *n && *n as usize <= ts.len() {
                    assert(ct_models(ts@)[*n - 1] == ts@[*n - 1].model());
                    Some(ts[*n as usize - 1].copy())
                } else {
                    None
                }
            },
            _ => None,
        },
        Access::Args(_e) => None,
    }
}

/// A copy of an entry, where there is one.
pub fn opt_copy(x: Option<&VarEntry>) -> (r: Option<VarEntry>)
    ensures
        match (r, x) {
            (Some(a), Some(b)) => a.model() == b.model(),
            (None, None) => true,
            _ => false,
        },
{
    match x {
        Some(e) => Some(e.copy()),
        None => None,
    }
}

/// The guards of commands.
pub open spec fn guards(cs: Seq<Cmd>) -> Seq<FE> {
    Seq::new(cs.len(), |i: int| cs[i].guard)
}

/// The guards of commands.
pub fn list_guards(cs: &Vec<FlatCmd>) -> (r: Vec<FExpr>)
    ensures
        fe_models(r@) == guards(cmd_models(cs@)),
{
    let mut r: Vec<FExpr> = Vec::new();
    let mut i: usize = 0;
    while i < cs.len()
        invariant
            i <= cs@.len(),
            r@.len() == i,
            forall|j: int| 0 <= j < i ==> (#[trigger] r@[j]).model() == cs@[j].guard.model(),
        decreases cs.len() - i,
    {
        r.push(cs[i].guard.clone());
        i += 1;
    }
    assert(fe_models(r@) =~= guards(cmd_models(cs@)));
    r
}

/// The text of a label, where there is one.
pub open spec fn label_text(l: Option<IdentV>) -> Option<Seq<char>> {
    match l {
        Some(x) => Some(x.name),
        None => None,
    }
}

/// The label of a command.
pub fn label_of(c: &GuardedCommand) -> (r: Option<String>)
    ensures
        opt_text(r) == label_text(c.model().label),
{
    match &c.label {
        Some(l) => {
            let ghost m = l.model();
            Some(l.name.clone())
        },
        None => None,
    }
}

/// A module of nothing.
pub open spec fn no_elab() -> ElabV {
    ElabV {
        vars: Seq::empty(),
        invariants: Seq::empty(),
        init_defs: Seq::empty(),
        init_choices: Seq::empty(),
        trans_defs: Seq::empty(),
        trans: TN::True,
        controlled: Seq::empty(),
        def_next: Seq::empty(),
        parts: Seq::empty(),
    }
}

/// A module of nothing.
pub fn empty_elab() -> (r: Elab)
    ensures
        r.model() == no_elab(),
{
    let r = Elab {
        vars: Vec::new(),
        invariants: Vec::new(),
        init_defs: Vec::new(),
        init_choices: Vec::new(),
        trans_defs: Vec::new(),
        trans: TransNode::True,
        controlled: Vec::new(),
        def_next: Vec::new(),
        parts: Vec::new(),
    };
    proof {
        assert(r.model().vars =~= no_elab().vars);
        assert(r.model().invariants =~= no_elab().invariants);
        assert(r.model().init_defs =~= no_elab().init_defs);
        assert(r.model().init_choices =~= no_elab().init_choices);
        assert(r.model().trans_defs =~= no_elab().trans_defs);
        assert(r.model().controlled =~= no_elab().controlled);
        assert(r.model().def_next =~= no_elab().def_next);
        assert(r.model().parts =~= no_elab().parts);
    }
    r
}

/// A module with one more condition on every state.
pub open spec fn with_invariant(e: ElabV, c: FE) -> ElabV {
    ElabV { invariants: e.invariants.push(c), ..e }
}

/// A module with one more condition on every state.
pub fn add_invariant(e: Elab, c: FExpr) -> (r: Elab)
    ensures
        r.model() == with_invariant(e.model(), c.model()),
{
    let Elab { vars, invariants, init_defs, init_choices, trans_defs, trans, controlled, def_next, parts } = e;
    Elab { vars, invariants: add_fexpr(invariants, c), init_defs, init_choices, trans_defs, trans, controlled, def_next, parts }
}

/// A module with one more condition on the first state.
pub open spec fn with_init_def(e: ElabV, c: FE) -> ElabV {
    ElabV { init_defs: e.init_defs.push(c), ..e }
}

/// A module with one more condition on the first state.
pub fn add_init_def(e: Elab, c: FExpr) -> (r: Elab)
    ensures
        r.model() == with_init_def(e.model(), c.model()),
{
    let Elab { vars, invariants, init_defs, init_choices, trans_defs, trans, controlled, def_next, parts } = e;
    Elab { vars, invariants, init_defs: add_fexpr(init_defs, c), init_choices, trans_defs, trans, controlled, def_next, parts }
}

/// A module with one more condition on every step.
pub open spec fn with_trans_def(e: ElabV, c: FE) -> ElabV {
    ElabV { trans_defs: e.trans_defs.push(c), ..e }
}

/// A module with one more condition on every step.
pub fn add_trans_def(e: Elab, c: FExpr) -> (r: Elab)
    ensures
        r.model() == with_trans_def(e.model(), c.model()),
{
    let Elab { vars, invariants, init_defs, init_choices, trans_defs, trans, controlled, def_next, parts } = e;
    Elab { vars, invariants, init_defs, init_choices, trans_defs: add_fexpr(trans_defs, c), trans, controlled, def_next, parts }
}

/// A module with one more choice for the first state.
pub open spec fn with_init_block(e: ElabV, b: Seq<Cmd>) -> ElabV {
    ElabV { init_choices: e.init_choices.push(b), ..e }
}

/// A module with one more choice for the first state.
pub fn add_init_block(e: Elab, b: Vec<FlatCmd>) -> (r: Elab)
    ensures
        r.model() == with_init_block(e.model(), cmd_models(b@)),
{
    let Elab { vars, invariants, init_defs, init_choices, trans_defs, trans, controlled, def_next, parts } = e;
    Elab { vars, invariants, init_defs, init_choices: add_block(init_choices, b), trans_defs, trans, controlled, def_next, parts }
}

/// A module with more leaves whose next values definitions give.
pub open spec fn with_defined(e: ElabV, ids: Seq<LeafId>) -> ElabV {
    ElabV { def_next: e.def_next + ids, ..e }
}

/// A module with more leaves whose next values definitions give.
pub fn add_defined(e: Elab, ids: &Vec<LeafId>) -> (r: Elab)
    ensures
        r.model() == with_defined(e.model(), ids@),
{
    let Elab { vars, invariants, init_defs, init_choices, trans_defs, trans, controlled, def_next, parts } = e;
    Elab { vars, invariants, init_defs, init_choices, trans_defs, trans, controlled, def_next: append_ids(def_next, ids), parts }
}

/// A module with its transition relation.
pub open spec fn with_trans(e: ElabV, t: TN) -> ElabV {
    ElabV { trans: t, ..e }
}

/// A module with its transition relation.
pub fn set_trans(e: Elab, t: TransNode) -> (r: Elab)
    ensures
        r.model() == with_trans(e.model(), t.model()),
{
    let Elab { vars, invariants, init_defs, init_choices, trans_defs, trans, controlled, def_next, parts } = e;
    Elab { vars, invariants, init_defs, init_choices, trans_defs, trans: t, controlled, def_next, parts }
}

/// A module with other variables.
pub open spec fn with_vars(e: ElabV, vs: VarsV) -> ElabV {
    ElabV { vars: vs, ..e }
}

/// A module with other variables.
pub fn set_vars(e: Elab, vs: Vec<(String, VarEntry)>) -> (r: Elab)
    ensures
        r.model() == with_vars(e.model(), entries(vs@)),
{
    let Elab { vars, invariants, init_defs, init_choices, trans_defs, trans, controlled, def_next, parts } = e;
    Elab { vars: vs, invariants, init_defs, init_choices, trans_defs, trans, controlled, def_next, parts }
}

/// A module some of whose variables change their class.
pub open spec fn reclassed(e: ElabV, ids: Seq<IdentV>, class: VarClass) -> ElabV {
    ElabV { vars: classed(e.vars, ids, class, 0), ..e }
}

/// A module some of whose variables change their class.
pub fn reclass(e: Elab, ids: &Vec<Ident>, class: VarClass) -> (r: Elab)
    ensures
        r.model() == reclassed(e.model(), ident_models(ids@), class),
{
    let Elab { vars, invariants, init_defs, init_choices, trans_defs, trans, controlled, def_next, parts } = e;
    Elab { vars: set_classes(vars, ids, class), invariants, init_defs, init_choices, trans_defs, trans, controlled, def_next, parts }
}

/// A module with more variables in front.
pub open spec fn fronted(e: ElabV, fr: VarsV) -> ElabV {
    ElabV { vars: with_front(e.vars, fr, fr.len() as int), controlled: owned(fr, 0, e.controlled), ..e }
}

/// A module with more variables in front.
pub fn put_fronted(e: Elab, fr: &Vec<(String, VarEntry)>) -> (r: Elab)
    ensures
        r.model() == fronted(e.model(), entries(fr@)),
{
    let Elab { vars, invariants, init_defs, init_choices, trans_defs, trans, controlled, def_next, parts } = e;
    Elab { vars: put_front(vars, fr), invariants, init_defs, init_choices, trans_defs, trans, controlled: list_owned(fr, controlled), def_next, parts }
}

/// The leaves of variables from number `i` on, after those of `acc`.
pub open spec fn seen_leaves(vs: VarsV, i: int, acc: Seq<LeafId>) -> Seq<LeafId>
    decreases vs.len() - i,
{
    if i < 0 || i >= vs.len() {
        acc
    } else {
        seen_leaves(vs, i + 1, sv_ids(vs[i].1.skel, acc))
    }
}

fn list_seen(vs: &Vec<(String, VarEntry)>) -> (r: Vec<LeafId>)
    ensures
        r@ == seen_leaves(entries(vs@), 0, Seq::empty()),
{
    let ghost ms = entries(vs@);
    let mut r: Vec<LeafId> = Vec::new();
    let mut i: usize = 0;
    assert(r@ =~= Seq::empty());
    while i < vs.len()
        invariant
            i <= vs@.len(),
            ms == entries(vs@),
            seen_leaves(ms, i as int, r@) == seen_leaves(ms, 0, Seq::empty()),
        decreases vs.len() - i,
    {
        assert(ms[i as int] == (vs@[i as int].0@, vs@[i as int].1.model()));
        r = skel_leaves(&vs[i].1.skel, r);
        i += 1;
    }
    r
}

/// A base module as the only part of a composition: what it controls, and what it sees.
pub open spec fn as_part(e: ElabV) -> ElabV {
    ElabV { parts: seq![(e.controlled, seen_leaves(e.vars, 0, Seq::empty()))], ..e }
}

/// A base module as the only part of a composition: what it controls, and what it sees.
pub fn make_part(e: Elab) -> (r: Elab)
    ensures
        r.model() == as_part(e.model()),
{
    let Elab { vars, invariants, init_defs, init_choices, trans_defs, trans, controlled, def_next, parts: _p } = e;
    let none: Vec<LeafId> = Vec::new();
    let mine = append_ids(none, &controlled);
    assert(mine@ =~= controlled@);
    let seen = list_seen(&vars);
    let mut parts: Vec<(Vec<LeafId>, Vec<LeafId>)> = Vec::new();
    let ghost p = (mine@, seen@);
    parts.push((mine, seen));
    assert(part_views(parts@) =~= seq![p]);
    Elab { vars, invariants, init_defs, init_choices, trans_defs, trans, controlled, def_next, parts }
}

/// There is a transition section.
pub open spec fn has_transition(ds: Seq<BaseDeclV>) -> bool {
    exists|i: int| 0 <= i < ds.len() && (#[trigger] ds[i]) is Transition
}

/// Whether there is a transition section.
pub fn find_transition(ds: &Vec<BaseDecl>) -> (r: bool)
    ensures
        r == has_transition(base_decl_models(ds@)),
{
    let ghost ms = base_decl_models(ds@);
    let mut i: usize = 0;
    while i < ds.len()
        invariant
            i <= ds@.len(),
            ms == base_decl_models(ds@),
            forall|j: int| 0 <= j < i ==> !((#[trigger] ms[j]) is Transition),
        decreases ds.len() - i,
    {
        assert(ms[i as int] == ds@[i as int].model());
        match &ds[i] {
            BaseDecl::Transition(_d) => {
                assert(ms[i as int] is Transition);
                return true;
            },
            _ => {},
        }
        i += 1;
    }
    false
}

/// A module without a transition section: its steps keep what it controls and no definition gives.
pub open spec fn stuttering(e: ElabV, n: nat) -> ElabV {
    ElabV {
        trans: TN::Cmds(
            seq![
                Cmd {
                    label: None,
                    guard: fe_bool(true),
                    constraint: frame_fe(e.controlled, Seq::empty(), e.def_next, n),
                },
            ],
        ),
        ..e
    }
}

/// A module without a transition section: its steps keep what it controls and no definition gives.
pub fn make_stutter(e: Elab, n: usize) -> (r: Elab)
    requires
        n <= u32::MAX,
    ensures
        r.model() == stuttering(e.model(), n as nat),
{
    let none: Vec<LeafId> = Vec::new();
    assert(none@ =~= Seq::empty());
    let c = frame_expr(&e.controlled, &none, &e.def_next, n);
    let ghost cm = c.model();
    let mut cs: Vec<FlatCmd> = Vec::new();
    cs.push(FlatCmd { label: None, provenance: own(""), guard: FExpr::tt(), constraint: c });
    assert(cmd_models(cs@) =~= seq![Cmd { label: None, guard: fe_bool(true), constraint: cm }]);
    set_trans(e, TransNode::Cmds(cs))
}

/// A module with one more condition on every state, where there is one.
pub open spec fn with_constraint(e: ElabV, c: Option<FE>) -> ElabV {
    match c {
        Some(x) => with_invariant(e, x),
        None => e,
    }
}

/// A module with one more condition on every state, where there is one.
pub fn add_constraint(e: Elab, c: Option<FExpr>) -> (r: Elab)
    ensures
        r.model() == with_constraint(e.model(), opt_fe(c)),
{
    match c {
        Some(x) => add_invariant(e, x),
        None => e,
    }
}

/// A module with one more variable, whose leaves it controls unless it is an input.
pub open spec fn with_var(e: ElabV, name: Seq<char>, x: VarE) -> ElabV {
    ElabV {
        vars: e.vars.push((name, x)),
        controlled: if x.class == VarClass::Input {
            e.controlled
        } else {
            sv_ids(x.skel, e.controlled)
        },
        ..e
    }
}

/// A module with one more variable, whose leaves it controls unless it is an input.
pub fn add_elab_var(e: Elab, name: String, x: VarEntry) -> (r: Elab)
    ensures
        r.model() == with_var(e.model(), name@, x.model()),
{
    let Elab { vars, invariants, init_defs, init_choices, trans_defs, trans, controlled, def_next, parts } = e;
    let owned_ids = match x.class {
        VarClass::Input => controlled,
        _ => skel_leaves(&x.skel, controlled),
    };
    Elab {
        vars: add_var(vars, name, x),
        invariants,
        init_defs,
        init_choices,
        trans_defs,
        trans,
        controlled: owned_ids,
        def_next,
        parts,
    }
}

} // verus!
