//! What the evaluation of expressions is made of: variables, parts of values, and lists of names.

use crate::ast::{ident_models, var_decl_models, Ident, IdentV, Name, NameV, Quantifier, VarDecl, VarDeclV};
use crate::ctype::{ct_fields, ct_models, row_models, CType, Endless, CT};
use crate::env::{at_most, is_at_most};
use crate::fexpr::{fe_and, fe_eq, fe_ite, fe_models, fe_or, opt_int, FExpr, LeafType, FE, LT};
use crate::formula::{tf_and, tf_or, TFormula, TF};
use crate::num::{dec, Int};
use crate::operators::{condition, formula, lifted, numeric, numeric_fexpr, to_formula};
use crate::sval::{
    copy_locals, copy_svals, opt_sv, sv_eq, sv_fields, sv_ite, sv_models, BoundKind, Closure, ClosureV, SVal, SV,
};
use crate::text::{own, put, same, views};
use crate::types::{Tid, TypeId};
use crate::value::{clone_values, models, Val, Value};
use vstd::prelude::*;

verus! {

/// The value of the last variable of a name.
pub open spec fn local(lo: Seq<(Seq<char>, SV)>, name: Seq<char>) -> Option<SV>
    decreases lo.len(),
{
    if lo.len() == 0 {
        None
    } else if lo.last().0 == name {
        Some(lo.last().1)
    } else {
        local(lo.drop_last(), name)
    }
}

/// Looks a variable up.
pub fn find_local(lo: &Vec<(String, SVal)>, name: &String) -> (r: Option<SVal>)
    ensures
        opt_sv(r) == local(sv_fields(lo@), name@),
{
    let mut i: usize = lo.len();
    let ghost s = sv_fields(lo@);
    assert(s.take(i as int) =~= s);
    while i > 0
        invariant
            i <= lo@.len(),
            s == sv_fields(lo@),
            local(s, name@) == local(s.take(i as int), name@),
        decreases i,
    {
        assert(s.take(i as int).last() == (lo@[i - 1].0@, lo@[i - 1].1.model()));
        assert(s.take(i as int).drop_last() =~= s.take(i - 1));
        if lo[i - 1].0 == *name {
            return Some(lo[i - 1].1.copy());
        }
        i -= 1;
    }
    None
}

/// Adds a variable.
pub fn add_local(lo: Vec<(String, SVal)>, name: String, v: SVal) -> (r: Vec<(String, SVal)>)
    ensures
        sv_fields(r@) == sv_fields(lo@).push((name@, v.model())),
{
    let ghost s = lo@;
    let ghost m = (name@, v.model());
    let mut r = lo;
    r.push((name, v));
    assert(sv_fields(r@) =~= sv_fields(s).push(m));
    r
}

/// The name of a variable in the next state.
pub open spec fn next_name(name: Seq<char>) -> Seq<char> {
    name + "'"@
}

/// The name of a variable in the next state.
pub fn make_next(name: &String) -> (r: String)
    ensures
        r@ == next_name(name@),
{
    let mut r = name.clone();
    put(&mut r, "'");
    r
}

/// Named things with one more, put behind those whose name is not after its name.
pub open spec fn sorted_in<T>(fs: Seq<(Seq<char>, T)>, name: Seq<char>, t: T) -> Seq<(Seq<char>, T)> {
    fs.insert(spot(fs, name, 0), (name, t))
}

/// How many named things stand before a new one: those from `i` on whose name is not after its name.
pub open spec fn spot<T>(fs: Seq<(Seq<char>, T)>, name: Seq<char>, i: int) -> int
    decreases fs.len() - i,
{
    if i < 0 || i >= fs.len() || !at_most(fs[i].0, name, 0) {
        i
    } else {
        spot(fs, name, i + 1)
    }
}

/// Adds a field in order.
pub fn insert_sval(fs: Vec<(String, SVal)>, name: String, t: SVal) -> (r: Vec<(String, SVal)>)
    ensures
        sv_fields(r@) == sorted_in(sv_fields(fs@), name@, t.model()),
{
    let ghost s = sv_fields(fs@);
    let ghost e = (name@, t.model());
    let mut r = fs;
    let mut i: usize = 0;
    while i < r.len()
        invariant
            i <= r@.len(),
            s == sv_fields(r@),
            spot(s, name@, 0) == spot(s, name@, i as int),
        ensures
            spot(s, name@, 0) == i,
        decreases r.len() - i,
    {
        assert(s[i as int] == (r@[i as int].0@, r@[i as int].1.model()));
        if !is_at_most(&r[i].0, &name) {
            break;
        }
        i += 1;
    }
    let ghost a = r@;
    r.insert(i, (name, t));
    assert(sv_fields(r@) =~= sv_fields(a).insert(i as int, e));
    r
}

/// Adds a field in order.
pub fn insert_ctype(fs: Vec<(String, CType)>, name: String, t: CType) -> (r: Vec<(String, CType)>)
    ensures
        ct_fields(r@) == sorted_in(ct_fields(fs@), name@, t.model()),
{
    let ghost s = ct_fields(fs@);
    let ghost e = (name@, t.model());
    let mut r = fs;
    let mut i: usize = 0;
    while i < r.len()
        invariant
            i <= r@.len(),
            s == ct_fields(r@),
            spot(s, name@, 0) == spot(s, name@, i as int),
        ensures
            spot(s, name@, 0) == i,
        decreases r.len() - i,
    {
        assert(s[i as int] == (r@[i as int].0@, r@[i as int].1.model()));
        if !is_at_most(&r[i].0, &name) {
            break;
        }
        i += 1;
    }
    let ghost a = r@;
    r.insert(i, (name, t));
    assert(ct_fields(r@) =~= ct_fields(a).insert(i as int, e));
    r
}

/// The integers between two bounds, where both are given; otherwise the integers, with the bounds
/// that are given.
pub open spec fn range_type(a: Option<int>, b: Option<int>) -> CT {
    match (a, b) {
        (Some(lo), Some(hi)) => CT::Range(lo, hi),
        _ => CT::Infinite(Endless::Int(a, b)),
    }
}

/// The integers between bounds.
pub fn make_range(a: Option<Int>, b: Option<Int>) -> (r: CType)
    ensures
        r.model() == range_type(opt_int(a), opt_int(b)),
{
    match (a, b) {
        (Some(lo), Some(hi)) => CType::Range(lo, hi),
        (min, max) => CType::Int { min, max },
    }
}

/// The type that a name of the prelude stands for.
pub open spec fn prelude_type(name: Seq<char>) -> Option<CT> {
    if name == "BOOLEAN"@ || name == "boolean"@ || name == "bool"@ {
        Some(CT::Bool)
    } else if name == "INTEGER"@ || name == "integer"@ || name == "int"@ || name == "NZINTEGER"@ || name == "nzint"@ {
        Some(CT::Infinite(Endless::Int(None, None)))
    } else if name == "NATURAL"@ || name == "natural"@ || name == "nat"@ {
        Some(CT::Infinite(Endless::Int(Some(0), None)))
    } else if name == "nznat"@ {
        Some(CT::Infinite(Endless::Int(Some(1), None)))
    } else if name == "REAL"@ || name == "real"@ || name == "NZREAL"@ || name == "nzreal"@ || name == "number"@ {
        Some(CT::Infinite(Endless::Real))
    } else if name == "CHAR"@ || name == "char"@ || name == "character"@ {
        Some(CT::Range(0, 255))
    } else {
        None
    }
}

/// The type that a name without a context stands for in the prelude.
pub open spec fn plain_type(n: NameV) -> Option<CT> {
    if n.ctx is None {
        prelude_type(n.id.name)
    } else {
        None
    }
}

/// The type that a name without a context stands for in the prelude.
pub fn find_plain_type(n: &Name) -> (r: Option<CType>)
    ensures
        match (r, plain_type(n.model())) {
            (Some(a), Some(b)) => a.model() == b,
            (None, None) => true,
            _ => false,
        },
{
    let ghost m = n.id.model();
    if n.ctx.is_some() {
        return None;
    }
    let s = n.id.name.as_str();
    if same(s, "BOOLEAN") || same(s, "boolean") || same(s, "bool") {
        Some(CType::Bool)
    } else if same(s, "INTEGER") || same(s, "integer") || same(s, "int") || same(s, "NZINTEGER") || same(s, "nzint") {
        Some(CType::Int { min: None, max: None })
    } else if same(s, "NATURAL") || same(s, "natural") || same(s, "nat") {
        Some(CType::Int { min: Some(Int::from_u64(0)), max: None })
    } else if same(s, "nznat") {
        Some(CType::Int { min: Some(Int::from_u64(1)), max: None })
    } else if same(s, "REAL") || same(s, "real") || same(s, "NZREAL") || same(s, "nzreal") || same(s, "number") {
        Some(CType::Real)
    } else if same(s, "CHAR") || same(s, "char") || same(s, "character") {
        Some(CType::Range(Int::from_u64(0), Int::from_u64(255)))
    } else {
        None
    }
}

/// The names of identifiers.
pub open spec fn ident_names(ids: Seq<IdentV>) -> Seq<Seq<char>> {
    Seq::new(ids.len(), |i: int| ids[i].name)
}

fn append_names(v: Vec<String>, ids: &Vec<Ident>) -> (r: Vec<String>)
    ensures
        views(r@) == views(v@) + ident_names(ident_models(ids@)),
{
    let ghost s = views(v@);
    let ghost n = ident_names(ident_models(ids@));
    let mut r = v;
    let mut i: usize = 0;
    assert(s + n.take(0) =~= s);
    while i < ids.len()
        invariant
            i <= ids@.len(),
            n == ident_names(ident_models(ids@)),
            views(r@) == s + n.take(i as int),
        decreases ids.len() - i,
    {
        let ghost m = ids@[i as int].model();
        let ghost a = r@;
        r.push(ids[i].name.clone());
        assert(views(r@) =~= views(a).push(n[i as int]));
        assert(views(r@) =~= s + n.take(i + 1));
        i += 1;
    }
    assert(n.take(i as int) =~= n);
    r
}

/// The names of identifiers.
pub fn list_names(ids: &Vec<Ident>) -> (r: Vec<String>)
    ensures
        views(r@) == ident_names(ident_models(ids@)),
{
    let none: Vec<String> = Vec::new();
    assert(views(none@) =~= Seq::empty());
    let r = append_names(none, ids);
    assert(views(r@) =~= ident_names(ident_models(ids@)));
    r
}

/// The names of declared variables from declaration `i` on.
pub open spec fn all_names(ds: Seq<VarDeclV>, i: int, acc: Seq<Seq<char>>) -> Seq<Seq<char>>
    decreases ds.len() - i,
{
    if i < 0 || i >= ds.len() {
        acc
    } else {
        all_names(ds, i + 1, acc + ident_names(ds[i].names))
    }
}

/// The names of declared variables.
pub fn list_all_names(ds: &Vec<VarDecl>) -> (r: Vec<String>)
    ensures
        views(r@) == all_names(var_decl_models(ds@), 0, Seq::empty()),
{
    let ghost ms = var_decl_models(ds@);
    let mut r: Vec<String> = Vec::new();
    let mut i: usize = 0;
    assert(views(r@) =~= Seq::empty());
    while i < ds.len()
        invariant
            i <= ds@.len(),
            ms == var_decl_models(ds@),
            all_names(ms, i as int, views(r@)) == all_names(ms, 0, Seq::empty()),
        decreases ds.len() - i,
    {
        let ghost m = ds@[i as int].model();
        assert(ms[i as int] == m);
        r = append_names(r, &ds[i].names);
        i += 1;
    }
    r
}

/// The names of the elements of a type given by its size.
pub open spec fn element_names(name: Seq<char>, n: nat) -> Seq<Seq<char>> {
    Seq::new(n, |i: int| name + "_"@ + dec(i))
}

/// The names of the elements of a type given by its size.
pub fn list_elements(name: &String, n: usize) -> (r: Vec<String>)
    ensures
        views(r@) == element_names(name@, n as nat),
{
    let mut r: Vec<String> = Vec::new();
    let mut i: usize = 0;
    while i < n
        invariant
            i <= n,
            r@.len() == i,
            forall|j: int| 0 <= j < i ==> (#[trigger] r@[j])@ == name@ + "_"@ + dec(j),
        decreases n - i,
    {
        let mut s = name.clone();
        put(&mut s, "_");
        put(&mut s, Int::from_u64(i as u64).text().as_str());
        r.push(s);
        i += 1;
    }
    assert(views(r@) =~= element_names(name@, n as nat));
    r
}

/// The datatypes whose definition is being followed.
pub open spec fn busy_views(v: Seq<(usize, String)>) -> Seq<(nat, Seq<char>)> {
    Seq::new(v.len(), |i: int| (v[i].0 as nat, v[i].1@))
}

/// Whether the definition of a datatype is being followed.
pub fn is_busy(v: &Vec<(usize, String)>, id: usize, name: &String) -> (r: bool)
    ensures
        r == busy_views(v@).contains((id as nat, name@)),
{
    let ghost s = busy_views(v@);
    let mut i: usize = 0;
    while i < v.len()
        invariant
            i <= v@.len(),
            s == busy_views(v@),
            forall|j: int| 0 <= j < i ==> s[j] != (id as nat, name@),
        decreases v.len() - i,
    {
        assert(s[i as int] == (v@[i as int].0 as nat, v@[i as int].1@));
        if v[i].0 == id && v[i].1 == *name {
            return true;
        }
        i += 1;
    }
    false
}

/// The datatypes whose definition is being followed, with one more.
pub fn add_busy(v: &Vec<(usize, String)>, id: usize, name: &String) -> (r: Vec<(usize, String)>)
    ensures
        busy_views(r@) == busy_views(v@).push((id as nat, name@)),
{
    let mut r: Vec<(usize, String)> = Vec::new();
    let mut i: usize = 0;
    while i < v.len()
        invariant
            i <= v@.len(),
            r@.len() == i,
            forall|j: int| 0 <= j < i ==> (#[trigger] r@[j]).0 == v@[j].0 && r@[j].1@ == v@[j].1@,
        decreases v.len() - i,
    {
        r.push((v[i].0, v[i].1.clone()));
        i += 1;
    }
    r.push((id, name.clone()));
    assert(busy_views(r@) =~= busy_views(v@).push((id as nat, name@)));
    r
}

/// A ground natural number, if it fits a machine size.
pub open spec fn size_of(v: SV) -> Option<nat> {
    match v {
        SV::Ground(Val::Num(q)) => if q.is_int() && 0 <= q.n <= usize::MAX {
            Some(q.n as nat)
        } else {
            None
        },
        _ => None,
    }
}

/// A ground natural number, if it fits a machine size.
pub fn find_size(v: &SVal) -> (r: Option<usize>)
    ensures
        match (r, size_of(v.model())) {
            (Some(a), Some(b)) => a == b,
            (None, None) => true,
            _ => false,
        },
{
    match v {
        SVal::Ground(Value::Num(q)) => if q.is_integer() {
            match q.numer().to_u64() {
                Some(k) => if k <= usize::MAX as u64 {
                    Some(k as usize)
                } else {
                    None
                },
                None => None,
            }
        } else {
            None
        },
        _ => None,
    }
}

/// As many times the same type.
pub open spec fn repeated(n: nat, t: CT) -> Seq<CT> {
    Seq::new(n, |i: int| t)
}

/// Appends a type several times.
pub fn append_ctypes(v: Vec<CType>, n: usize, t: &CType) -> (r: Vec<CType>)
    ensures
        ct_models(r@) == ct_models(v@) + repeated(n as nat, t.model()),
{
    let ghost s = ct_models(v@);
    let mut r = v;
    let mut i: usize = 0;
    assert(s + repeated(0, t.model()) =~= s);
    while i < n
        invariant
            i <= n,
            ct_models(r@) == s + repeated(i as nat, t.model()),
        decreases n - i,
    {
        let ghost a = r@;
        r.push(t.copy());
        assert(ct_models(r@) =~= ct_models(a).push(t.model()));
        assert(ct_models(r@) =~= s + repeated((i + 1) as nat, t.model()));
        i += 1;
    }
    r
}

/// As many times the same column.
pub open spec fn columns_of(n: nat, vs: Seq<Val>) -> Seq<Seq<Val>> {
    Seq::new(n, |i: int| vs)
}

/// Appends a column several times.
pub fn append_columns(v: Vec<Vec<Value>>, n: usize, vs: &Vec<Value>) -> (r: Vec<Vec<Value>>)
    ensures
        row_models(r@) == row_models(v@) + columns_of(n as nat, models(vs@)),
{
    let ghost s = row_models(v@);
    let ghost m = models(vs@);
    let mut r = v;
    let mut i: usize = 0;
    assert(s + columns_of(0, m) =~= s);
    while i < n
        invariant
            i <= n,
            m == models(vs@),
            row_models(r@) == s + columns_of(i as nat, m),
        decreases n - i,
    {
        let ghost a = r@;
        r.push(clone_values(vs));
        assert(row_models(r@) =~= row_models(a).push(m));
        assert(row_models(r@) =~= s + columns_of((i + 1) as nat, m));
        i += 1;
    }
    r
}

/// The part of a record of a name.
pub open spec fn field_value(fs: Seq<(Seq<char>, SV)>, name: Seq<char>) -> Option<SV> {
    match field_place(fs, name, 0) {
        Some(p) => Some(fs[p as int].1),
        None => None,
    }
}

/// The place of a field, from `i` on.
pub open spec fn field_place<T>(fs: Seq<(Seq<char>, T)>, name: Seq<char>, i: int) -> Option<nat>
    decreases fs.len() - i,
{
    if i < 0 || i >= fs.len() {
        None
    } else if fs[i].0 == name {
        Some(i as nat)
    } else {
        field_place(fs, name, i + 1)
    }
}

/// Finds a field.
pub fn find_field_place(fs: &Vec<(String, SVal)>, name: &String) -> (r: Option<usize>)
    ensures
        match (r, field_place(sv_fields(fs@), name@, 0)) {
            (Some(i), Some(j)) => i == j && i < fs@.len(),
            (None, None) => true,
            _ => false,
        },
{
    let mut i: usize = 0;
    while i < fs.len()
        invariant
            field_place(sv_fields(fs@), name@, 0) == field_place(sv_fields(fs@), name@, i as int),
        decreases fs.len() - i,
    {
        assert(sv_fields(fs@)[i as int] == (fs@[i as int].0@, fs@[i as int].1.model()));
        if fs[i].0 == *name {
            return Some(i);
        }
        i += 1;
    }
    None
}

/// The field of a record, ground or not.
pub open spec fn record_part(v: SV, name: Seq<char>) -> Option<SV> {
    match v {
        SV::Record(fs) => field_value(fs, name),
        SV::Ground(Val::Record(fs)) => match field_place(fs, name, 0) {
            Some(p) => Some(SV::Ground(fs[p as int].1)),
            None => None,
        },
        _ => None,
    }
}

/// The field of a record, ground or not.
pub fn find_record_part(v: &SVal, name: &String) -> (r: Option<SVal>)
    ensures
        opt_sv(r) == record_part(v.model(), name@),
{
    match v {
        SVal::Record(fs) => match find_field_place(fs, name) {
            Some(p) => {
                assert(sv_fields(fs@)[p as int] == (fs@[p as int].0@, fs@[p as int].1.model()));
                Some(fs[p].1.copy())
            },
            None => None,
        },
        SVal::Ground(Value::Record(fs)) => {
            let ghost ms = crate::value::field_models(fs@);
            let mut i: usize = 0;
            while i < fs.len()
                invariant
                    ms == crate::value::field_models(fs@),
                    v.model() == SV::Ground(Val::Record(ms)),
                    field_place(ms, name@, 0) == field_place(ms, name@, i as int),
                decreases fs.len() - i,
            {
                assert(ms[i as int] == (fs@[i as int].0@, fs@[i as int].1.model()));
                if fs[i].0 == *name {
                    return Some(SVal::Ground(fs[i].1.clone()));
                }
                i += 1;
            }
            None
        },
        _ => None,
    }
}

/// The part of a tuple, ground or not; parts count from 1.
pub open spec fn tuple_part(v: SV, j: nat) -> Option<SV> {
    match v {
        SV::Tuple(vs) => if 1 <= j <= vs.len() {
            Some(vs[j - 1])
        } else {
            None
        },
        SV::Ground(Val::Tuple(vs)) => if 1 <= j <= vs.len() {
            Some(SV::Ground(vs[j - 1]))
        } else {
            None
        },
        _ => None,
    }
}

/// The part of a tuple, ground or not.
pub fn find_tuple_part(v: &SVal, j: u32) -> (r: Option<SVal>)
    ensures
        opt_sv(r) == tuple_part(v.model(), j as nat),
{
    match v {
        SVal::Tuple(vs) => if 1 <= j && j as usize <= vs.len() {
            assert(sv_models(vs@)[j - 1] == vs@[j - 1].model());
            Some(vs[j as usize - 1].copy())
        } else {
            None
        },
        SVal::Ground(Value::Tuple(vs)) => if 1 <= j && j as usize <= vs.len() {
            assert(models(vs@)[j - 1] == vs@[j - 1].model());
            Some(SVal::Ground(vs[j as usize - 1].clone()))
        } else {
            None
        },
        _ => None,
    }
}

/// A list with one value replaced.
pub fn set_sval(vs: &Vec<SVal>, p: usize, v: SVal) -> (r: Vec<SVal>)
    requires
        p < vs@.len(),
    ensures
        sv_models(r@) == sv_models(vs@).update(p as int, v.model()),
{
    let ghost m = v.model();
    let mut r = copy_svals(vs);
    let ghost a = r@;
    assert(sv_models(r@).len() == vs@.len());
    r.set(p, v);
    assert(sv_models(r@) =~= sv_models(a).update(p as int, m));
    r
}

/// Fields with one value replaced.
pub fn set_field(fs: &Vec<(String, SVal)>, p: usize, v: SVal) -> (r: Vec<(String, SVal)>)
    requires
        p < fs@.len(),
    ensures
        sv_fields(r@) == sv_fields(fs@).update(p as int, (sv_fields(fs@)[p as int].0, v.model())),
{
    let ghost m = v.model();
    let mut r = copy_locals(fs);
    let ghost a = r@;
    assert(sv_fields(r@).len() == fs@.len());
    assert(sv_fields(fs@)[p as int].0 == fs@[p as int].0@);
    let n = fs[p].0.clone();
    r.set(p, (n, v));
    assert(sv_fields(r@) =~= sv_fields(a).update(p as int, (fs@[p as int].0@, m)));
    r
}

/// The value of a name of the prelude.
pub open spec fn prelude_value(name: Seq<char>) -> Option<SV> {
    if name == "true"@ || name == "TRUE"@ {
        Some(SV::Ground(Val::Bool(true)))
    } else if name == "false"@ || name == "FALSE"@ {
        Some(SV::Ground(Val::Bool(false)))
    } else if is_function(name) {
        Some(SV::Fun(ClosureV::Builtin(name)))
    } else {
        None
    }
}

/// A function of the prelude.
pub open spec fn is_function(name: Seq<char>) -> bool {
    ||| name == "X"@ || name == "G"@ || name == "F"@ || name == "U"@ || name == "W"@ || name == "R"@ || name == "M"@
    ||| name == "EX"@ || name == "AX"@ || name == "EG"@ || name == "AG"@ || name == "EF"@ || name == "AF"@
    ||| name == "EU"@ || name == "AU"@ || name == "ER"@ || name == "AR"@ || name == "accepting"@
    ||| name == "min"@ || name == "max"@ || name == "exp"@ || name == "nor"@ || name == "nand"@ || name == "xnor"@
    ||| name == "rsucc"@ || name == "rpred"@ || name == "dbg_print"@ || name == "dbg_expr"@
    ||| name == "up_to"@ || name == "below"@ || name == "above"@
    ||| name == "real_pred?"@ || name == "int_pred?"@ || name == "nat_pred?"@
}

fn function_name(n: &str) -> (r: bool)
    ensures
        r == is_function(n@),
{
    same(n, "X") || same(n, "G") || same(n, "F") || same(n, "U") || same(n, "W") || same(n, "R") || same(n, "M")
        || same(n, "EX") || same(n, "AX") || same(n, "EG") || same(n, "AG") || same(n, "EF") || same(n, "AF")
        || same(n, "EU") || same(n, "AU") || same(n, "ER") || same(n, "AR") || same(n, "accepting") || same(n, "min")
        || same(n, "max") || same(n, "exp") || same(n, "nor") || same(n, "nand") || same(n, "xnor") || same(n, "rsucc")
        || same(n, "rpred") || same(n, "dbg_print") || same(n, "dbg_expr") || same(n, "up_to") || same(n, "below")
        || same(n, "above") || same(n, "real_pred?") || same(n, "int_pred?") || same(n, "nat_pred?")
}

/// The value of a name without a context: of a variable, or of the prelude.
pub open spec fn plain_value(n: NameV, lo: Seq<(Seq<char>, SV)>) -> Option<SV> {
    if n.ctx is None {
        match local(lo, n.id.name) {
            Some(v) => Some(v),
            None => prelude_value(n.id.name),
        }
    } else {
        None
    }
}

/// The value of a name without a context.
pub fn find_plain_value(n: &Name, lo: &Vec<(String, SVal)>) -> (r: Option<SVal>)
    ensures
        opt_sv(r) == plain_value(n.model(), sv_fields(lo@)),
{
    let ghost m = n.id.model();
    if n.ctx.is_some() {
        return None;
    }
    match find_local(lo, &n.id.name) {
        Some(v) => Some(v),
        None => {
            let s = n.id.name.as_str();
            if same(s, "true") || same(s, "TRUE") {
                Some(SVal::Ground(Value::Bool(true)))
            } else if same(s, "false") || same(s, "FALSE") {
                Some(SVal::Ground(Value::Bool(false)))
            } else if function_name(s) {
                Some(SVal::Fun(Closure::Builtin(n.id.name.clone())))
            } else {
                None
            }
        },
    }
}

/// Variables with the values of a row.
pub open spec fn with_row(lo: Seq<(Seq<char>, SV)>, names: Seq<Seq<char>>, row: Seq<Val>) -> Seq<(Seq<char>, SV)> {
    lo + Seq::new(
        if names.len() <= row.len() {
            names.len()
        } else {
            row.len()
        },
        |i: int| (names[i], SV::Ground(row[i])),
    )
}

/// Variables with the values of a row.
pub fn add_row(lo: &Vec<(String, SVal)>, names: &Vec<String>, row: &Vec<Value>) -> (r: Vec<(String, SVal)>)
    ensures
        sv_fields(r@) == with_row(sv_fields(lo@), views(names@), models(row@)),
{
    let ghost s = sv_fields(lo@);
    let ghost n = Seq::new(
        if names@.len() <= row@.len() {
            names@.len()
        } else {
            row@.len()
        },
        |i: int| (views(names@)[i], SV::Ground(models(row@)[i])),
    );
    let mut r = copy_locals(lo);
    let mut i: usize = 0;
    assert(s + n.take(0) =~= s);
    while i < names.len() && i < row.len()
        invariant
            i <= n.len(),
            n.len() <= names@.len(),
            n.len() <= row@.len(),
            n.len() == names@.len() || n.len() == row@.len(),
            forall|j: int| 0 <= j < n.len() ==> #[trigger] n[j] == (names@[j]@, SV::Ground(row@[j].model())),
            sv_fields(r@) == s + n.take(i as int),
        decreases names.len() - i,
    {
        r = add_local(r, names[i].clone(), SVal::Ground(row[i].clone()));
        assert(sv_fields(r@) =~= s + n.take(i + 1));
        i += 1;
    }
    assert(n.take(i as int) =~= n);
    assert(sv_fields(r@) =~= with_row(s, views(names@), models(row@)));
    r
}

/// Variables with the arguments of a function.
pub open spec fn with_args(lo: Seq<(Seq<char>, SV)>, names: Seq<Seq<char>>, args: Seq<SV>) -> Seq<(Seq<char>, SV)> {
    lo + Seq::new(
        if names.len() <= args.len() {
            names.len()
        } else {
            args.len()
        },
        |i: int| (names[i], args[i]),
    )
}

/// Variables with the arguments of a function.
pub fn add_args(lo: &Vec<(String, SVal)>, names: &Vec<String>, args: &Vec<SVal>) -> (r: Vec<(String, SVal)>)
    ensures
        sv_fields(r@) == with_args(sv_fields(lo@), views(names@), sv_models(args@)),
{
    let ghost s = sv_fields(lo@);
    let ghost n = Seq::new(
        if names@.len() <= args@.len() {
            names@.len()
        } else {
            args@.len()
        },
        |i: int| (views(names@)[i], sv_models(args@)[i]),
    );
    let mut r = copy_locals(lo);
    let mut i: usize = 0;
    assert(s + n.take(0) =~= s);
    while i < names.len() && i < args.len()
        invariant
            i <= n.len(),
            n.len() <= names@.len(),
            n.len() <= args@.len(),
            n.len() == names@.len() || n.len() == args@.len(),
            forall|j: int| 0 <= j < n.len() ==> #[trigger] n[j] == (names@[j]@, args@[j].model()),
            sv_fields(r@) == s + n.take(i as int),
        decreases names.len() - i,
    {
        r = add_local(r, names[i].clone(), args[i].copy());
        assert(sv_fields(r@) =~= s + n.take(i + 1));
        i += 1;
    }
    assert(n.take(i as int) =~= n);
    assert(sv_fields(r@) =~= with_args(s, views(names@), sv_models(args@)));
    r
}

/// Variables with a value for the first of the named ones.
pub open spec fn with_first(lo: Seq<(Seq<char>, SV)>, ids: Seq<IdentV>, v: SV) -> Seq<(Seq<char>, SV)> {
    if ids.len() == 0 {
        lo
    } else {
        lo.push((ids[0].name, v))
    }
}

/// Variables with a value for the first of the named ones.
pub fn add_first(lo: &Vec<(String, SVal)>, ids: &Vec<Ident>, v: SVal) -> (r: Vec<(String, SVal)>)
    ensures
        sv_fields(r@) == with_first(sv_fields(lo@), ident_models(ids@), v.model()),
{
    let r = copy_locals(lo);
    if ids.len() == 0 {
        r
    } else {
        let ghost m = ids@[0].model();
        add_local(r, ids[0].name.clone(), v)
    }
}

/// Several arguments as one value.
pub open spec fn packed_args(args: Seq<SV>) -> SV {
    if args.len() == 1 {
        args[0]
    } else {
        SV::Tuple(args)
    }
}

/// Several arguments as one value.
pub fn pack_args(args: &Vec<SVal>) -> (r: SVal)
    ensures
        r.model() == packed_args(sv_models(args@)),
{
    if args.len() == 1 {
        assert(sv_models(args@)[0] == args@[0].model());
        args[0].copy()
    } else {
        SVal::Tuple(copy_svals(args))
    }
}

/// A list of one value.
pub fn one_sval(v: SVal) -> (r: Vec<SVal>)
    ensures
        sv_models(r@) == seq![v.model()],
{
    let ghost m = v.model();
    let mut r: Vec<SVal> = Vec::new();
    r.push(v);
    assert(sv_models(r@) =~= seq![m]);
    r
}

/// The ground values of symbolic values from `i` on, if they are all ground.
pub open spec fn grounds(args: Seq<SV>, i: int, acc: Seq<Val>) -> Option<Seq<Val>>
    decreases args.len() - i,
{
    if i < 0 || i >= args.len() {
        Some(acc)
    } else {
        match args[i] {
            SV::Ground(v) => grounds(args, i + 1, acc.push(v)),
            _ => None,
        }
    }
}

fn list_grounds(args: &Vec<SVal>) -> (r: Option<Vec<Value>>)
    ensures
        match (r, grounds(sv_models(args@), 0, Seq::empty())) {
            (Some(v), Some(m)) => models(v@) == m,
            (None, None) => true,
            _ => false,
        },
{
    let ghost ms = sv_models(args@);
    let mut r: Vec<Value> = Vec::new();
    let mut i: usize = 0;
    assert(models(r@) =~= Seq::empty());
    while i < args.len()
        invariant
            i <= args@.len(),
            ms == sv_models(args@),
            grounds(ms, i as int, models(r@)) == grounds(ms, 0, Seq::empty()),
        decreases args.len() - i,
    {
        assert(ms[i as int] == args@[i as int].model());
        match &args[i] {
            SVal::Ground(v) => {
                let ghost a = r@;
                r.push(v.clone());
                assert(models(r@) =~= models(a).push(v.model()));
            },
            _ => {
                return None;
            },
        }
        i += 1;
    }
    Some(r)
}

/// The arguments of a constructor, which may be given as one tuple.
pub open spec fn ctor_args(args: Seq<SV>, arity: nat) -> Seq<SV> {
    if args.len() == 1 && arity > 1 && args[0] is Tuple {
        args[0]->Tuple_0
    } else {
        args
    }
}

/// The value of a function that belongs to a datatype, at ground arguments.
pub open spec fn data_value(c: ClosureV, args: Seq<SV>) -> Option<SV> {
    match c {
        ClosureV::Ctor(t, name, arity) => match grounds(ctor_args(args, arity), 0, Seq::empty()) {
            Some(vs) => Some(SV::Ground(Val::Data(t, name, vs))),
            None => None,
        },
        ClosureV::Recognizer(ctor) => if args.len() == 0 {
            None
        } else {
            match args[0] {
                SV::Ground(Val::Data(_t, c, _vs)) => Some(SV::Ground(Val::Bool(c == ctor))),
                _ => None,
            }
        },
        ClosureV::Accessor(ctor, n) => if args.len() == 0 {
            None
        } else {
            match args[0] {
                SV::Ground(Val::Data(_t, c, vs)) => if c == ctor && n < vs.len() {
                    Some(SV::Ground(vs[n as int]))
                } else {
                    None
                },
                _ => None,
            }
        },
        _ => None,
    }
}

/// The value of a function that belongs to a datatype.
pub fn apply_data(c: &Closure, args: &Vec<SVal>) -> (r: Option<SVal>)
    ensures
        opt_sv(r) == data_value(c.model(), sv_models(args@)),
{
    if args.len() > 0 {
        assert(sv_models(args@)[0] == args@[0].model());
    }
    match c {
        Closure::Ctor(t, name, arity) => {
            let vs = if args.len() == 1 && *arity > 1 {
                match &args[0] {
                    SVal::Tuple(v) => list_grounds(v),
                    _ => list_grounds(args),
                }
            } else {
                list_grounds(args)
            };
            match vs {
                Some(v) => Some(SVal::Ground(Value::Data(t.clone(), name.clone(), v))),
                None => None,
            }
        },
        Closure::Recognizer(ctor) => {
            if args.len() == 0 {
                return None;
            }
            match &args[0] {
                SVal::Ground(Value::Data(_t, c, _vs)) => Some(SVal::Ground(Value::Bool(*c == *ctor))),
                _ => None,
            }
        },
        Closure::Accessor(ctor, n) => {
            if args.len() == 0 {
                return None;
            }
            match &args[0] {
                SVal::Ground(Value::Data(_t, c, vs)) => {
                    if *c == *ctor && *n < vs.len() {
                        assert(models(vs@)[*n as int] == vs@[*n as int].model());
                        Some(SVal::Ground(vs[*n].clone()))
                    } else {
                        None
                    }
                },
                _ => None,
            }
        },
        _ => None,
    }
}

/// The conditions that a value is each of the listed ones from `i` on.
pub open spec fn listed(vs: Seq<SV>, x: SV, i: int, acc: Seq<FE>) -> Option<Seq<FE>>
    decreases vs.len() - i,
{
    if i < 0 || i >= vs.len() {
        Some(acc)
    } else {
        match sv_eq(x, vs[i]) {
            Some(e) => listed(vs, x, i + 1, acc.push(e)),
            None => None,
        }
    }
}

/// The conditions that a value is each of the listed ones.
pub fn is_listed(vs: &Vec<SVal>, x: &SVal) -> (r: Option<Vec<FExpr>>)
    ensures
        match (r, listed(sv_models(vs@), x.model(), 0, Seq::empty())) {
            (Some(v), Some(m)) => fe_models(v@) == m,
            (None, None) => true,
            _ => false,
        },
{
    let ghost ms = sv_models(vs@);
    let mut r: Vec<FExpr> = Vec::new();
    let mut i: usize = 0;
    assert(fe_models(r@) =~= Seq::empty());
    while i < vs.len()
        invariant
            i <= vs@.len(),
            ms == sv_models(vs@),
            listed(ms, x.model(), i as int, fe_models(r@)) == listed(ms, x.model(), 0, Seq::empty()),
        decreases vs.len() - i,
    {
        assert(ms[i as int] == vs@[i as int].model());
        match x.eq_sval(&vs[i]) {
            Ok(e) => {
                let ghost a = r@;
                let ghost m = e.model();
                r.push(e);
                assert(fe_models(r@) =~= fe_models(a).push(m));
            },
            Err(_) => {
                return None;
            },
        }
        i += 1;
    }
    Some(r)
}

/// The expression of a symbolic number.
pub fn numeric_only(v: &SVal) -> (r: Option<FExpr>)
    ensures
        match (r, numeric(v.model())) {
            (Some(a), Some(b)) => a.model() == b,
            (None, None) => true,
            _ => false,
        },
{
    match numeric_fexpr(v) {
        Ok(x) => Some(x.0),
        Err(_) => None,
    }
}

/// The condition that a number is on a side of a bound.
pub open spec fn bound_fe(k: BoundKind, bound: FE, v: FE) -> FE {
    match k {
        BoundKind::UpTo => FE::Le(Box::new(v), Box::new(bound)),
        BoundKind::Below => FE::Lt(Box::new(v), Box::new(bound)),
        BoundKind::Above => FE::Lt(Box::new(bound), Box::new(v)),
    }
}

/// The condition that a number is on a side of a bound.
pub fn bound_expr(k: BoundKind, bound: FExpr, v: FExpr) -> (r: FExpr)
    ensures
        r.model() == bound_fe(k, bound.model(), v.model()),
{
    match k {
        BoundKind::UpTo => FExpr::Le(Box::new(v), Box::new(bound)),
        BoundKind::Below => FExpr::Lt(Box::new(v), Box::new(bound)),
        BoundKind::Above => FExpr::Lt(Box::new(bound), Box::new(v)),
    }
}

/// A function that goes round a ring.
pub open spec fn is_ring(name: Seq<char>) -> bool {
    name == "rsucc"@ || name == "rpred"@
}

/// Whether a function goes round a ring.
pub fn ring_name(name: &String) -> (r: bool)
    ensures
        r == is_ring(name@),
{
    same(name.as_str(), "rsucc") || same(name.as_str(), "rpred")
}

/// The next or the previous number on a ring of `n`.
pub open spec fn shifted(succ: bool, i: nat, n: nat) -> nat {
    let r = (i % n) as nat;
    if succ {
        if r + 1 == n {
            0
        } else {
            r + 1
        }
    } else if r == 0 {
        (n - 1) as nat
    } else {
        (r - 1) as nat
    }
}

/// The next or the previous number on a ring of `n`.
pub fn shift(succ: bool, i: usize, n: usize) -> (r: usize)
    requires
        n > 0,
    ensures
        r == shifted(succ, i as nat, n as nat),
{
    let k: usize = i % n;
    if succ {
        if k + 1 == n {
            0
        } else {
            k + 1
        }
    } else if k == 0 {
        n - 1
    } else {
        k - 1
    }
}

/// The next or the previous element of a ring of `n`, of an element that is not before `i`.
pub open spec fn chain(e: FE, tid: Tid, succ: bool, n: nat, i: nat) -> FE
    decreases n - i,
{
    if i + 1 >= n {
        FE::Const(Val::Scalar(tid, shifted(succ, (n - 1) as nat, n)))
    } else {
        fe_ite(
            fe_eq(e, FE::Const(Val::Scalar(tid, i))),
            FE::Const(Val::Scalar(tid, shifted(succ, i, n))),
            chain(e, tid, succ, n, i + 1),
        )
    }
}

fn make_chain(e: &FExpr, tid: &TypeId, succ: bool, n: usize, i: usize) -> (r: FExpr)
    requires
        i < n,
    ensures
        r.model() == chain(e.model(), tid@, succ, n as nat, i as nat),
    decreases n - i,
{
    if i == n - 1 {
        FExpr::Const(Value::Scalar(tid.clone(), shift(succ, n - 1, n)))
    } else {
        let c = FExpr::eq(e.clone(), FExpr::Const(Value::Scalar(tid.clone(), i)));
        let t = FExpr::Const(Value::Scalar(tid.clone(), shift(succ, i, n)));
        FExpr::ite(c, t, make_chain(e, tid, succ, n, i + 1))
    }
}

/// The next or the previous element of a ring.
pub fn ring_chain(e: &FExpr, tid: &TypeId, succ: bool, es: &Vec<String>) -> (r: SVal)
    requires
        es@.len() > 0,
    ensures
        r.model() == SV::Sym(
            chain(e.model(), tid@, succ, views(es@).len(), 0),
            LT::Scalar(tid@, views(es@)),
        ),
{
    let x = make_chain(e, tid, succ, es.len(), 0);
    let names = crate::fexpr::clone_strings(es);
    SVal::Sym(x, LeafType::Scalar(tid.clone(), names))
}

/// A ground aggregate as an aggregate of ground values; an array has no index type.
pub open spec fn raised_value(v: Val) -> Option<SV>
    decreases v,
{
    match v {
        Val::Tuple(vs) => match raised_values(vs, 0, Seq::empty()) {
            Some(s) => Some(SV::Tuple(s)),
            None => None,
        },
        Val::Record(fs) => match raised_fields(fs, 0, Seq::empty()) {
            Some(s) => Some(SV::Record(s)),
            None => None,
        },
        Val::Array(_vs) => None,
        _ => Some(SV::Ground(v)),
    }
}

/// Ground aggregates as aggregates of ground values, from `i` on.
pub open spec fn raised_values(vs: Seq<Val>, i: int, acc: Seq<SV>) -> Option<Seq<SV>>
    decreases vs, vs.len() - i,
{
    if i < 0 || i >= vs.len() {
        Some(acc)
    } else {
        match raised_value(vs[i]) {
            Some(x) => raised_values(vs, i + 1, acc.push(x)),
            None => None,
        }
    }
}

/// Fields as aggregates of ground values, from `i` on.
pub open spec fn raised_fields(fs: Seq<(Seq<char>, Val)>, i: int, acc: Seq<(Seq<char>, SV)>) -> Option<
    Seq<(Seq<char>, SV)>,
>
    decreases fs, fs.len() - i,
{
    if i < 0 || i >= fs.len() {
        Some(acc)
    } else {
        match raised_value(fs[i].1) {
            Some(x) => raised_fields(fs, i + 1, acc.push((fs[i].0, x))),
            None => None,
        }
    }
}

/// A ground aggregate as an aggregate of ground values.
pub fn raise_value(v: &Value) -> (r: Option<SVal>)
    ensures
        opt_sv(r) == raised_value(v.model()),
    decreases v,
{
    match v {
        Value::Tuple(vs) => {
            let ghost ms = models(vs@);
            let mut out: Vec<SVal> = Vec::new();
            let mut i: usize = 0;
            assert(sv_models(out@) =~= Seq::empty());
            while i < vs.len()
                invariant
                    i <= vs@.len(),
                    ms == models(vs@),
                    v.model() == Val::Tuple(ms),
                    decreases_to!(v => vs),
                    raised_values(ms, i as int, sv_models(out@)) == raised_values(ms, 0, Seq::empty()),
                decreases vs.len() - i,
            {
                proof {
                    reveal_with_fuel(raised_values, 2);
                    assert(ms[i as int] == vs@[i as int].model());
                }
                match raise_value(&vs[i]) {
                    Some(x) => {
                        let ghost a = out@;
                        let ghost m = x.model();
                        out.push(x);
                        assert(sv_models(out@) =~= sv_models(a).push(m));
                    },
                    None => {
                        return None;
                    },
                }
                i += 1;
            }
            proof {
                reveal_with_fuel(raised_values, 2);
            }
            Some(SVal::Tuple(out))
        },
        Value::Record(fs) => {
            let ghost ms = crate::value::field_models(fs@);
            let mut out: Vec<(String, SVal)> = Vec::new();
            let mut i: usize = 0;
            assert(sv_fields(out@) =~= Seq::empty());
            while i < fs.len()
                invariant
                    i <= fs@.len(),
                    ms == crate::value::field_models(fs@),
                    v.model() == Val::Record(ms),
                    decreases_to!(v => fs),
                    raised_fields(ms, i as int, sv_fields(out@)) == raised_fields(ms, 0, Seq::empty()),
                decreases fs.len() - i,
            {
                proof {
                    reveal_with_fuel(raised_fields, 2);
                    assert(ms[i as int] == (fs@[i as int].0@, fs@[i as int].1.model()));
                }
                match raise_value(&fs[i].1) {
                    Some(x) => {
                        out = add_local(out, fs[i].0.clone(), x);
                    },
                    None => {
                        return None;
                    },
                }
                i += 1;
            }
            proof {
                reveal_with_fuel(raised_fields, 2);
            }
            Some(SVal::Record(out))
        },
        Value::Array(_vs) => None,
        _ => Some(SVal::Ground(v.clone())),
    }
}

/// The content of an expression, where there is one.
pub open spec fn opt_fe(e: Option<FExpr>) -> Option<FE> {
    match e {
        Some(x) => Some(x.model()),
        None => None,
    }
}

/// The condition that a symbolic value is a ground one.
pub fn equal_to(x: &SVal, v: &Value) -> (r: Option<FExpr>)
    ensures
        opt_fe(r) == sv_eq(x.model(), SV::Ground(v.model())),
{
    let g = SVal::Ground(v.clone());
    match x.eq_sval(&g) {
        Ok(e) => Some(e),
        Err(_) => None,
    }
}

/// One of two symbolic values, by a condition.
pub fn merged_value(c: &FExpr, t: &SVal, e: &SVal) -> (r: Option<SVal>)
    ensures
        opt_sv(r) == sv_ite(c.model(), t.model(), e.model()),
{
    match SVal::ite(c, t, e) {
        Ok(v) => Some(v),
        Err(_) => None,
    }
}

/// One of the values from `i` on is a formula.
pub open spec fn any_formula(vs: Seq<SV>, i: int) -> bool
    decreases vs.len() - i,
{
    if i < 0 || i >= vs.len() {
        false
    } else {
        vs[i] is Formula || any_formula(vs, i + 1)
    }
}

fn has_formula(vs: &Vec<SVal>) -> (r: bool)
    ensures
        r == any_formula(sv_models(vs@), 0),
{
    let mut i: usize = 0;
    while i < vs.len()
        invariant
            any_formula(sv_models(vs@), 0) == any_formula(sv_models(vs@), i as int),
        decreases vs.len() - i,
    {
        assert(sv_models(vs@)[i as int] == vs@[i as int].model());
        match &vs[i] {
            SVal::Formula(_f) => {
                return true;
            },
            _ => {},
        }
        i += 1;
    }
    false
}

/// The conjunction or disjunction of formulas from `i` on with those before.
pub open spec fn folded_formulas(all: bool, vs: Seq<SV>, i: int, acc: TF) -> Option<TF>
    decreases vs.len() - i,
{
    if i < 0 || i >= vs.len() {
        Some(acc)
    } else {
        match formula(vs[i]) {
            Some(f) => folded_formulas(
                all,
                vs,
                i + 1,
                if all {
                    tf_and(acc, f)
                } else {
                    tf_or(acc, f)
                },
            ),
            None => None,
        }
    }
}

/// The conditions from `i` on.
pub open spec fn conditions(vs: Seq<SV>, i: int, acc: Seq<FE>) -> Option<Seq<FE>>
    decreases vs.len() - i,
{
    if i < 0 || i >= vs.len() {
        Some(acc)
    } else {
        match condition(vs[i]) {
            Some(e) => conditions(vs, i + 1, acc.push(e)),
            None => None,
        }
    }
}

/// The conditions that symbolic values are.
pub fn list_conditions(vs: &Vec<SVal>) -> (r: Option<Vec<FExpr>>)
    ensures
        match (r, conditions(sv_models(vs@), 0, Seq::empty())) {
            (Some(v), Some(m)) => fe_models(v@) == m,
            (None, None) => true,
            _ => false,
        },
{
    let ghost ms = sv_models(vs@);
    let mut r: Vec<FExpr> = Vec::new();
    let mut i: usize = 0;
    assert(fe_models(r@) =~= Seq::empty());
    while i < vs.len()
        invariant
            i <= vs@.len(),
            ms == sv_models(vs@),
            conditions(ms, i as int, fe_models(r@)) == conditions(ms, 0, Seq::empty()),
        decreases vs.len() - i,
    {
        assert(ms[i as int] == vs@[i as int].model());
        match vs[i].to_bool_fexpr() {
            Ok(e) => {
                let ghost a = r@;
                let ghost m = e.model();
                r.push(e);
                assert(fe_models(r@) =~= fe_models(a).push(m));
            },
            Err(_) => {
                return None;
            },
        }
        i += 1;
    }
    Some(r)
}

/// The value of a quantified expression, or why it has none: of formulas, if one of the instances
/// is a formula.
pub open spec fn quantified_value(q: Quantifier, vs: Seq<SV>) -> Result<SV, Seq<char>> {
    let all = q == Quantifier::Forall;
    if any_formula(vs, 0) {
        match formula(vs[0]) {
            Some(f) => match folded_formulas(all, vs, 1, f) {
                Some(g) => Ok(SV::Formula(g)),
                None => Err("boolean expression expected"@),
            },
            None => Err("boolean expression expected"@),
        }
    } else {
        match conditions(vs, 0, Seq::empty()) {
            Some(es) => Ok(
                lifted(
                    if all {
                        fe_and(es)
                    } else {
                        fe_or(es)
                    },
                ),
            ),
            None => Err("boolean expression expected"@),
        }
    }
}

/// The value of a quantified expression.
pub fn combine(q: Quantifier, vs: &Vec<SVal>) -> (r: Result<SVal, String>)
    ensures
        match (r, quantified_value(q, sv_models(vs@))) {
            (Ok(v), Ok(m)) => v.model() == m,
            (Err(e), Err(f)) => e@ == f,
            _ => false,
        },
{
    let all = q == Quantifier::Forall;
    let ghost ms = sv_models(vs@);
    if has_formula(vs) {
        if vs.len() == 0 {
            return Err(own("boolean expression expected"));
        }
        assert(ms[0] == vs@[0].model());
        let mut acc = match to_formula(vs[0].copy()) {
            Ok(f) => f,
            Err(m) => {
                return Err(m);
            },
        };
        let ghost first = acc.model();
        let mut i: usize = 1;
        while i < vs.len()
            invariant
                1 <= i <= vs@.len(),
                ms == sv_models(vs@),
                any_formula(ms, 0),
                all == (q == Quantifier::Forall),
                formula(ms[0]) == Some(first),
                folded_formulas(all, ms, i as int, acc.model()) == folded_formulas(all, ms, 1, first),
            decreases vs.len() - i,
        {
            assert(ms[i as int] == vs@[i as int].model());
            match to_formula(vs[i].copy()) {
                Ok(f) => {
                    if all {
                        acc = TFormula::and(acc, f);
                    } else {
                        acc = TFormula::or(acc, f);
                    }
                },
                Err(m) => {
                    return Err(m);
                },
            }
            i += 1;
        }
        Ok(SVal::Formula(acc))
    } else {
        match list_conditions(vs) {
            Some(es) => if all {
                Ok(SVal::from_bool_expr(FExpr::and(es)))
            } else {
                Ok(SVal::from_bool_expr(FExpr::or(es)))
            },
            None => Err(own("boolean expression expected")),
        }
    }
}

} // verus!
