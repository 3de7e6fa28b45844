//! Types whose structure and bounds are known. Finite types list their values.

use crate::fexpr::{clone_opt_int, clone_strings, opt_int, LeafType, LT};
use crate::num::{Int, Rat, Q};
use crate::text::views;
use crate::types::{Tid, TypeId};
use crate::value::{clone_values, field_models, models, Val, Value};
use vstd::prelude::*;

verus! {

/// A type.
pub enum CType {
    Bool,
    /// The integers between two bounds, both included.
    Range(Int, Int),
    /// Integers, with the bounds that are known.
    Int { min: Option<Int>, max: Option<Int> },
    Real,
    /// An enumeration with its element names.
    Scalar(TypeId, Vec<String>),
    /// A datatype: its constructors, with the types of their fields.
    Data(TypeId, Vec<(String, Vec<CType>)>),
    Array(Box<CType>, Box<CType>),
    Fun(Box<CType>, Box<CType>),
    Tuple(Vec<CType>),
    /// Fields sorted by name.
    Record(Vec<(String, CType)>),
    /// A type without a definition.
    Uninterp(TypeId),
}

/// The content of a type.
pub ghost enum CT {
    Bool,
    Range(int, int),
    Scalar(Tid, Seq<Seq<char>>),
    Data(Tid, Seq<(Seq<char>, Seq<CT>)>),
    /// Arrays and, where the flag is set, functions.
    Maps(bool, Box<CT>, Box<CT>),
    Tuple(Seq<CT>),
    Record(Seq<(Seq<char>, CT)>),
    /// A type whose values are not listed.
    Infinite(Endless),
}

/// The content of a type whose values are not listed.
pub ghost enum Endless {
    Int(Option<int>, Option<int>),
    Real,
    Uninterp(Tid),
}

impl CType {
    /// The content.
    pub open spec fn model(&self) -> CT
        decreases self,
    {
        match self {
            CType::Bool => CT::Bool,
            CType::Range(lo, hi) => CT::Range(lo@, hi@),
            CType::Scalar(id, es) => CT::Scalar(id@, views(es@)),
            CType::Data(id, cs) => CT::Data(id@, ctor_models(cs@)),
            CType::Array(i, e) => CT::Maps(false, Box::new(i.model()), Box::new(e.model())),
            CType::Fun(i, e) => CT::Maps(true, Box::new(i.model()), Box::new(e.model())),
            CType::Tuple(ts) => CT::Tuple(ct_models(ts@)),
            CType::Record(fs) => CT::Record(ct_fields(fs@)),
            CType::Int { min, max } => CT::Infinite(Endless::Int(opt_int(*min), opt_int(*max))),
            CType::Real => CT::Infinite(Endless::Real),
            CType::Uninterp(id) => CT::Infinite(Endless::Uninterp(id@)),
        }
    }
}

/// The contents of types.
pub open spec fn ct_models(v: Seq<CType>) -> Seq<CT>
    decreases v,
{
    Seq::new(
        v.len(),
        |i: int|
            if 0 <= i < v.len() {
                v[i].model()
            } else {
                arbitrary()
            },
    )
}

/// The contents of fields.
pub open spec fn ct_fields(v: Seq<(String, CType)>) -> Seq<(Seq<char>, CT)>
    decreases v,
{
    Seq::new(
        v.len(),
        |i: int|
            if 0 <= i < v.len() {
                (v[i].0@, v[i].1.model())
            } else {
                arbitrary()
            },
    )
}

/// The contents of constructors.
pub open spec fn ctor_models(v: Seq<(String, Vec<CType>)>) -> Seq<(Seq<char>, Seq<CT>)>
    decreases v,
{
    Seq::new(
        v.len(),
        |i: int|
            if 0 <= i < v.len() {
                (v[i].0@, ct_models(v[i].1@))
            } else {
                arbitrary()
            },
    )
}

/// A number, if it fits a machine word.
pub open spec fn word(n: int) -> Option<nat> {
    if 0 <= n <= u64::MAX {
        Some(n as nat)
    } else {
        None
    }
}

/// A product, if there is one that fits.
pub open spec fn times(a: Option<nat>, b: Option<nat>) -> Option<nat> {
    match (a, b) {
        (Some(x), Some(y)) => word((x * y) as int),
        _ => None,
    }
}

/// A power, if it fits.
pub open spec fn power(b: nat, n: nat) -> Option<nat>
    decreases n,
{
    if n == 0 {
        Some(1)
    } else {
        times(power(b, (n - 1) as nat), Some(b))
    }
}

/// The number of values, if there are finitely many and the number, as it is worked out, fits a
/// machine word at every step.
pub open spec fn size(t: CT) -> Option<nat>
    decreases t,
{
    match t {
        CT::Bool => Some(2),
        CT::Range(lo, hi) => if hi < lo {
            Some(0)
        } else {
            word(hi - lo + 1)
        },
        CT::Scalar(_id, n) => word(n.len() as int),
        CT::Data(_id, cs) => sum_size(cs, 0, 0),
        CT::Maps(_f, i, e) => maps(size(*i), size(*e)),
        CT::Tuple(ts) => product_size(ts, 0, 1),
        CT::Record(fs) => field_size(fs, 0, 1),
        CT::Infinite(_t) => None,
    }
}

/// The product of the numbers of values from `i` on.
pub open spec fn product_size(ts: Seq<CT>, i: int, acc: nat) -> Option<nat>
    decreases ts, ts.len() - i,
{
    if i < 0 || i >= ts.len() {
        Some(acc)
    } else {
        match times(Some(acc), size(ts[i])) {
            Some(n) => product_size(ts, i + 1, n),
            None => None,
        }
    }
}

/// The product of the numbers of values of the fields from `i` on.
pub open spec fn field_size(fs: Seq<(Seq<char>, CT)>, i: int, acc: nat) -> Option<nat>
    decreases fs, fs.len() - i,
{
    if i < 0 || i >= fs.len() {
        Some(acc)
    } else {
        match times(Some(acc), size(fs[i].1)) {
            Some(n) => field_size(fs, i + 1, n),
            None => None,
        }
    }
}

/// The sum of the numbers of values of the constructors from `i` on.
pub open spec fn sum_size(cs: Seq<(Seq<char>, Seq<CT>)>, i: int, acc: nat) -> Option<nat>
    decreases cs, cs.len() - i,
{
    if i < 0 || i >= cs.len() {
        Some(acc)
    } else {
        match product_size(cs[i].1, 0, 1) {
            Some(n) => match word((acc + n) as int) {
                Some(m) => sum_size(cs, i + 1, m),
                None => None,
            },
            None => None,
        }
    }
}

fn checked_times(a: u64, b: u64) -> (r: Option<u64>)
    ensures
        match (r, word(a * b)) {
            (Some(x), Some(y)) => x == y,
            (None, None) => true,
            _ => false,
        },
{
    proof {
        assert(a * b >= 0) by (nonlinear_arith)
            requires
                a >= 0,
                b >= 0,
        ;
    }
    a.checked_mul(b)
}

fn checked_power(b: u64, n: u64) -> (r: Option<u64>)
    ensures
        match (r, power(b as nat, n as nat)) {
            (Some(x), Some(y)) => x == y,
            (None, None) => true,
            _ => false,
        },
{
    if b <= 1 && n > 0 {
        proof {
            small_power(b as nat, n as nat);
        }
        return Some(b);
    }
    let mut r: u64 = 1;
    let mut i: u64 = 0;
    while i < n
        invariant
            i <= n,
            power(b as nat, i as nat) == Some(r as nat),
        decreases n - i,
    {
        match checked_times(r, b) {
            Some(x) => {
                r = x;
            },
            None => {
                proof {
                    stays_none(b as nat, (i + 1) as nat, n as nat);
                }
                return None;
            },
        }
        i += 1;
    }
    Some(r)
}

proof fn small_power(b: nat, n: nat)
    requires
        b <= 1,
        n > 0,
    ensures
        power(b, n) == Some(b),
    decreases n,
{
    reveal_with_fuel(power, 2);
    if n > 1 {
        small_power(b, (n - 1) as nat);
        assert(b * b == b) by (nonlinear_arith)
            requires
                b == 0 || b == 1,
        ;
    } else {
        assert(1 * b == b);
    }
}

proof fn stays_none(b: nat, i: nat, n: nat)
    requires
        i <= n,
        power(b, i) is None,
    ensures
        power(b, n) is None,
    decreases n - i,
{
    if i < n {
        stays_none(b, i, (n - 1) as nat);
    }
}

fn product_card(ts: &Vec<CType>) -> (r: Option<u64>)
    ensures
        match (r, product_size(ct_models(ts@), 0, 1)) {
            (Some(x), Some(y)) => x == y,
            (None, None) => true,
            _ => false,
        },
    decreases ts,
{
    let ghost ms = ct_models(ts@);
    let mut acc: u64 = 1;
    let mut i: usize = 0;
    while i < ts.len()
        invariant
            i <= ts@.len(),
            ms == ct_models(ts@),
            product_size(ms, i as int, acc as nat) == product_size(ms, 0, 1),
        decreases ts.len() - i,
    {
        proof {
            reveal_with_fuel(product_size, 2);
            assert(ms[i as int] == ts@[i as int].model());
        }
        match ts[i].cardinality() {
            Some(n) => match checked_times(acc, n) {
                Some(x) => {
                    acc = x;
                },
                None => {
                    return None;
                },
            },
            None => {
                return None;
            },
        }
        i += 1;
    }
    proof {
        reveal_with_fuel(product_size, 2);
    }
    Some(acc)
}

impl CType {
    /// The number of values.
    pub fn cardinality(&self) -> (r: Option<u64>)
        ensures
            match (r, size(self.model())) {
                (Some(x), Some(y)) => x == y,
                (None, None) => true,
                _ => false,
            },
        decreases self,
    {
        match self {
            CType::Bool => Some(2),
            CType::Range(lo, hi) => {
                if hi.less(lo) {
                    Some(0)
                } else {
                    hi.minus(lo).plus(&Int::from_u64(1)).to_u64()
                }
            },
            CType::Scalar(_id, es) => Some(es.len() as u64),
            CType::Data(_id, cs) => {
                let ghost ms = ctor_models(cs@);
                let mut acc: u64 = 0;
                let mut i: usize = 0;
                while i < cs.len()
                    invariant
                        i <= cs@.len(),
                        ms == ctor_models(cs@),
                        self.model() == CT::Data(_id@, ms),
                        decreases_to!(self => cs),
                        sum_size(ms, i as int, acc as nat) == sum_size(ms, 0, 0),
                    decreases cs.len() - i,
                {
                    proof {
                        reveal_with_fuel(sum_size, 2);
                        assert(ms[i as int] == (cs@[i as int].0@, ct_models(cs@[i as int].1@)));
                    }
                    match product_card(&cs[i].1) {
                        Some(n) => match acc.checked_add(n) {
                            Some(x) => {
                                acc = x;
                            },
                            None => {
                                return None;
                            },
                        },
                        None => {
                            return None;
                        },
                    }
                    i += 1;
                }
                proof {
                    reveal_with_fuel(sum_size, 2);
                }
                Some(acc)
            },
            CType::Array(i, e) => map_count(i.cardinality(), e.cardinality()),
            CType::Fun(i, e) => map_count(i.cardinality(), e.cardinality()),
            CType::Tuple(ts) => product_card(ts),
            CType::Record(fs) => {
                let ghost ms = ct_fields(fs@);
                let mut acc: u64 = 1;
                let mut i: usize = 0;
                while i < fs.len()
                    invariant
                        i <= fs@.len(),
                        ms == ct_fields(fs@),
                        self.model() == CT::Record(ms),
                        decreases_to!(self => fs),
                        field_size(ms, i as int, acc as nat) == field_size(ms, 0, 1),
                    decreases fs.len() - i,
                {
                    proof {
                        reveal_with_fuel(field_size, 2);
                        assert(ms[i as int] == (fs@[i as int].0@, fs@[i as int].1.model()));
                    }
                    match fs[i].1.cardinality() {
                        Some(n) => match checked_times(acc, n) {
                            Some(x) => {
                                acc = x;
                            },
                            None => {
                                return None;
                            },
                        },
                        None => {
                            return None;
                        },
                    }
                    i += 1;
                }
                proof {
                    reveal_with_fuel(field_size, 2);
                }
                Some(acc)
            },
            _ => None,
        }
    }

    /// Whether there are finitely many values, of a number that fits.
    pub fn is_finite(&self) -> (r: bool)
        ensures
            r == (size(self.model()) is Some),
    {
        self.cardinality().is_some()
    }
}

/// The number of maps between so many arguments and so many values.
pub open spec fn maps(n: Option<nat>, b: Option<nat>) -> Option<nat> {
    match (n, b) {
        (Some(n), Some(b)) => if n <= u32::MAX {
            power(b, n)
        } else {
            None
        },
        _ => None,
    }
}

/// The content of a number.
pub open spec fn opt_nat(n: Option<u64>) -> Option<nat> {
    match n {
        Some(x) => Some(x as nat),
        None => None,
    }
}

fn map_count(n: Option<u64>, b: Option<u64>) -> (r: Option<u64>)
    ensures
        opt_nat(r) == maps(opt_nat(n), opt_nat(b)),
{
    match (n, b) {
        (Some(n), Some(b)) => if n <= 4_294_967_295 {
            checked_power(b, n)
        } else {
            None
        },
        _ => None,
    }
}

/// Rows with one more value each: for every row, in order, every value, in order.
pub open spec fn widened(ps: Seq<Seq<Val>>, vs: Seq<Val>) -> Seq<Seq<Val>>
    decreases ps.len(),
{
    if ps.len() == 0 {
        Seq::empty()
    } else {
        widened(ps.drop_last(), vs) + ended(ps.last(), vs)
    }
}

/// A row with every value at its end.
pub open spec fn ended(p: Seq<Val>, vs: Seq<Val>) -> Seq<Seq<Val>> {
    Seq::new(vs.len(), |j: int| p.push(vs[j]))
}

/// All rows with a value from each column from `i` on.
pub open spec fn rows(cols: Seq<Seq<Val>>, i: int, acc: Seq<Seq<Val>>) -> Seq<Seq<Val>>
    decreases cols.len() - i,
{
    if i < 0 || i >= cols.len() {
        acc
    } else {
        rows(cols, i + 1, widened(acc, cols[i]))
    }
}

/// The row without values, alone.
pub open spec fn start() -> Seq<Seq<Val>> {
    seq![Seq::empty()]
}

/// All values of a type with finitely many, in order.
pub open spec fn values(t: CT) -> Option<Seq<Val>>
    decreases t,
{
    match t {
        CT::Bool => Some(seq![Val::Bool(false), Val::Bool(true)]),
        CT::Range(lo, hi) => Some(
            Seq::new(
                if hi < lo {
                    0
                } else {
                    (hi - lo + 1) as nat
                },
                |i: int| Val::Num(Q::whole(lo + i)),
            ),
        ),
        CT::Scalar(id, n) => Some(Seq::new(n.len(), |i: int| Val::Scalar(id, i as nat))),
        CT::Data(id, cs) => data_values(id, cs, 0, Seq::empty()),
        CT::Maps(_f, i, e) => match (size(*i), values(*e)) {
            (Some(n), Some(vs)) => Some(arrays(rows(Seq::new(n, |k: int| vs), 0, start()))),
            _ => None,
        },
        CT::Tuple(ts) => match columns(ts, 0, Seq::empty()) {
            Some(cols) => Some(tuples(rows(cols, 0, start()))),
            None => None,
        },
        CT::Record(fs) => match field_columns(fs, 0, Seq::empty()) {
            Some(cols) => Some(records(field_names(fs), rows(cols, 0, start()))),
            None => None,
        },
        CT::Infinite(_t) => None,
    }
}

/// Rows as tuples.
pub open spec fn tuples(rs: Seq<Seq<Val>>) -> Seq<Val> {
    Seq::new(rs.len(), |i: int| Val::Tuple(rs[i]))
}

/// Rows as arrays.
pub open spec fn arrays(rs: Seq<Seq<Val>>) -> Seq<Val> {
    Seq::new(rs.len(), |i: int| Val::Array(rs[i]))
}

/// Rows as values of a constructor.
pub open spec fn built(id: Tid, c: Seq<char>, rs: Seq<Seq<Val>>) -> Seq<Val> {
    Seq::new(rs.len(), |i: int| Val::Data(id, c, rs[i]))
}

/// A row as a record.
pub open spec fn record(ns: Seq<Seq<char>>, r: Seq<Val>) -> Val {
    Val::Record(Seq::new(ns.len(), |j: int| (ns[j], r[j])))
}

/// Rows as records.
pub open spec fn records(ns: Seq<Seq<char>>, rs: Seq<Seq<Val>>) -> Seq<Val> {
    Seq::new(rs.len(), |i: int| record(ns, rs[i]))
}

/// The names of fields.
pub open spec fn field_names(fs: Seq<(Seq<char>, CT)>) -> Seq<Seq<char>> {
    Seq::new(fs.len(), |i: int| fs[i].0)
}

/// The values of each type from `i` on.
pub open spec fn columns(ts: Seq<CT>, i: int, acc: Seq<Seq<Val>>) -> Option<Seq<Seq<Val>>>
    decreases ts, ts.len() - i,
{
    if i < 0 || i >= ts.len() {
        Some(acc)
    } else {
        match values(ts[i]) {
            Some(vs) => columns(ts, i + 1, acc.push(vs)),
            None => None,
        }
    }
}

/// The values of each field from `i` on.
pub open spec fn field_columns(fs: Seq<(Seq<char>, CT)>, i: int, acc: Seq<Seq<Val>>) -> Option<Seq<Seq<Val>>>
    decreases fs, fs.len() - i,
{
    if i < 0 || i >= fs.len() {
        Some(acc)
    } else {
        match values(fs[i].1) {
            Some(vs) => field_columns(fs, i + 1, acc.push(vs)),
            None => None,
        }
    }
}

/// The values of each constructor from `i` on.
pub open spec fn data_values(id: Tid, cs: Seq<(Seq<char>, Seq<CT>)>, i: int, acc: Seq<Val>) -> Option<Seq<Val>>
    decreases cs, cs.len() - i,
{
    if i < 0 || i >= cs.len() {
        Some(acc)
    } else {
        match columns(cs[i].1, 0, Seq::empty()) {
            Some(cols) => data_values(id, cs, i + 1, acc + built(id, cs[i].0, rows(cols, 0, start()))),
            None => None,
        }
    }
}

/// The contents of lists of values.
pub open spec fn row_models(v: Seq<Vec<Value>>) -> Seq<Seq<Val>> {
    Seq::new(v.len(), |i: int| models(v[i]@))
}

fn widen(ps: &Vec<Vec<Value>>, vs: &Vec<Value>) -> (r: Vec<Vec<Value>>)
    ensures
        row_models(r@) == widened(row_models(ps@), models(vs@)),
{
    let ghost pm = row_models(ps@);
    let ghost vm = models(vs@);
    let mut r: Vec<Vec<Value>> = Vec::new();
    let mut i: usize = 0;
    assert(row_models(r@) =~= widened(pm.take(0), vm));
    while i < ps.len()
        invariant
            i <= ps@.len(),
            pm == row_models(ps@),
            vm == models(vs@),
            row_models(r@) == widened(pm.take(i as int), vm),
        decreases ps.len() - i,
    {
        let ghost before = row_models(r@);
        let ghost more = ended(pm[i as int], vm);
        let mut j: usize = 0;
        assert(before + more.take(0) =~= before);
        while j < vs.len()
            invariant
                j <= vs@.len(),
                i < ps@.len(),
                pm == row_models(ps@),
                vm == models(vs@),
                more == ended(pm[i as int], vm),
                row_models(r@) == before + more.take(j as int),
            decreases vs.len() - j,
        {
            let mut p = clone_values(&ps[i]);
            let ghost q = p@;
            p.push(vs[j].clone());
            assert(models(p@) =~= models(q).push(vm[j as int]));
            assert(models(p@) == more[j as int]);
            let ghost a = r@;
            r.push(p);
            assert(row_models(r@) =~= row_models(a).push(more[j as int]));
            assert(row_models(r@) =~= before + more.take(j + 1));
            j += 1;
        }
        assert(more.take(j as int) =~= more);
        assert(pm.take(i + 1).drop_last() =~= pm.take(i as int));
        assert(pm.take(i + 1).last() == pm[i as int]);
        i += 1;
    }
    assert(pm.take(i as int) =~= pm);
    r
}

fn first_rows() -> (r: Vec<Vec<Value>>)
    ensures
        row_models(r@) == start(),
{
    let mut r: Vec<Vec<Value>> = Vec::new();
    let none: Vec<Value> = Vec::new();
    assert(models(none@) =~= Seq::empty());
    r.push(none);
    assert(row_models(r@) =~= start());
    r
}

pub fn all_rows(cols: &Vec<Vec<Value>>) -> (r: Vec<Vec<Value>>)
    ensures
        row_models(r@) == rows(row_models(cols@), 0, start()),
{
    let ghost cm = row_models(cols@);
    let mut r = first_rows();
    let mut i: usize = 0;
    while i < cols.len()
        invariant
            i <= cols@.len(),
            cm == row_models(cols@),
            rows(cm, i as int, row_models(r@)) == rows(cm, 0, start()),
        decreases cols.len() - i,
    {
        assert(cm[i as int] == models(cols@[i as int]@));
        r = widen(&r, &cols[i]);
        i += 1;
    }
    r
}

/// The content of a list of columns, where there is one.
pub open spec fn opt_rows(v: Option<Vec<Vec<Value>>>) -> Option<Seq<Seq<Val>>> {
    match v {
        Some(x) => Some(row_models(x@)),
        None => None,
    }
}

/// The content of a list of values, where there is one.
pub open spec fn opt_values(v: Option<Vec<Value>>) -> Option<Seq<Val>> {
    match v {
        Some(x) => Some(models(x@)),
        None => None,
    }
}

fn list_columns(ts: &Vec<CType>) -> (r: Option<Vec<Vec<Value>>>)
    ensures
        opt_rows(r) == columns(ct_models(ts@), 0, Seq::empty()),
    decreases ts,
{
    let ghost ms = ct_models(ts@);
    let mut cols: Vec<Vec<Value>> = Vec::new();
    let mut i: usize = 0;
    assert(row_models(cols@) =~= Seq::empty());
    while i < ts.len()
        invariant
            i <= ts@.len(),
            ms == ct_models(ts@),
            columns(ms, i as int, row_models(cols@)) == columns(ms, 0, Seq::empty()),
        decreases ts.len() - i,
    {
        proof {
            reveal_with_fuel(columns, 2);
            assert(ms[i as int] == ts@[i as int].model());
        }
        match ts[i].enumerate() {
            Some(vs) => {
                let ghost a = cols@;
                let ghost m = models(vs@);
                cols.push(vs);
                assert(row_models(cols@) =~= row_models(a).push(m));
            },
            None => {
                return None;
            },
        }
        i += 1;
    }
    proof {
        reveal_with_fuel(columns, 2);
    }
    Some(cols)
}

impl CType {
    /// All values of a type with finitely many, in order.
    pub fn enumerate(&self) -> (r: Option<Vec<Value>>)
        ensures
            opt_values(r) == values(self.model()),
        decreases self,
    {
        match self {
            CType::Bool => {
                let mut out: Vec<Value> = Vec::new();
                out.push(Value::Bool(false));
                out.push(Value::Bool(true));
                assert(models(out@) =~= seq![Val::Bool(false), Val::Bool(true)]);
                Some(out)
            },
            CType::Range(lo, hi) => {
                let mut out: Vec<Value> = Vec::new();
                let mut i = lo.clone();
                let one = Int::from_u64(1);
                while !hi.less(&i)
                    invariant
                        one@ == 1,
                        i@ == lo@ + out@.len(),
                        out@.len() > 0 ==> lo@ + out@.len() <= hi@ + 1,
                        forall|k: int| 0 <= k < out@.len() ==> out@[k].model() == Val::Num(Q::whole(lo@ + k)),
                    decreases hi@ + 1 - i@,
                {
                    out.push(Value::Num(Rat::from_integer(i.clone())));
                    i = i.plus(&one);
                }
                assert(models(out@) =~= values(self.model())->0);
                Some(out)
            },
            CType::Scalar(id, es) => {
                let mut out: Vec<Value> = Vec::new();
                let mut i: usize = 0;
                while i < es.len()
                    invariant
                        i <= es.len(),
                        out.len() == i,
                        forall|k: int| 0 <= k < i ==> out@[k].model() == Val::Scalar(id@, k as nat),
                    decreases es.len() - i,
                {
                    out.push(Value::Scalar(id.clone(), i));
                    i += 1;
                }
                assert(models(out@) =~= values(self.model())->0);
                Some(out)
            },
            CType::Data(id, cs) => {
                let ghost ms = ctor_models(cs@);
                let mut out: Vec<Value> = Vec::new();
                let mut i: usize = 0;
                assert(models(out@) =~= Seq::empty());
                while i < cs.len()
                    invariant
                        i <= cs@.len(),
                        ms == ctor_models(cs@),
                        self.model() == CT::Data(id@, ms),
                        decreases_to!(self => cs),
                        data_values(id@, ms, i as int, models(out@)) == data_values(id@, ms, 0, Seq::empty()),
                    decreases cs.len() - i,
                {
                    proof {
                        reveal_with_fuel(data_values, 2);
                        assert(ms[i as int] == (cs@[i as int].0@, ct_models(cs@[i as int].1@)));
                    }
                    match list_columns(&cs[i].1) {
                        Some(cols) => {
                            let rs = all_rows(&cols);
                            out = append_built(out, id, &cs[i].0, rs);
                        },
                        None => {
                            return None;
                        },
                    }
                    i += 1;
                }
                proof {
                    reveal_with_fuel(data_values, 2);
                }
                Some(out)
            },
            CType::Array(i, e) => map_values(i.cardinality(), e.enumerate()),
            CType::Fun(i, e) => map_values(i.cardinality(), e.enumerate()),
            CType::Tuple(ts) => match list_columns(ts) {
                Some(cols) => {
                    let rs = all_rows(&cols);
                    let mut out: Vec<Value> = Vec::new();
                    let ghost want = tuples(row_models(rs@));
                    let mut i: usize = 0;
                    while i < rs.len()
                        invariant
                            i <= rs@.len(),
                            out@.len() == i,
                            want == tuples(row_models(rs@)),
                            forall|k: int| 0 <= k < i ==> (#[trigger] out@[k]).model() == want[k],
                        decreases rs.len() - i,
                    {
                        out.push(Value::Tuple(clone_values(&rs[i])));
                        i += 1;
                    }
                    assert(models(out@) =~= want);
                    Some(out)
                },
                None => None,
            },
            CType::Record(fs) => {
                let ghost ms = ct_fields(fs@);
                let mut cols: Vec<Vec<Value>> = Vec::new();
                let mut i: usize = 0;
                assert(row_models(cols@) =~= Seq::empty());
                while i < fs.len()
                    invariant
                        i <= fs@.len(),
                        ms == ct_fields(fs@),
                        self.model() == CT::Record(ms),
                        decreases_to!(self => fs),
                        cols@.len() == i,
                        field_columns(ms, i as int, row_models(cols@)) == field_columns(ms, 0, Seq::empty()),
                    decreases fs.len() - i,
                {
                    proof {
                        reveal_with_fuel(field_columns, 2);
                        assert(ms[i as int] == (fs@[i as int].0@, fs@[i as int].1.model()));
                    }
                    match fs[i].1.enumerate() {
                        Some(vs) => {
                            let ghost a = cols@;
                            let ghost m = models(vs@);
                            cols.push(vs);
                            assert(row_models(cols@) =~= row_models(a).push(m));
                        },
                        None => {
                            return None;
                        },
                    }
                    i += 1;
                }
                proof {
                    reveal_with_fuel(field_columns, 2);
                    row_width(row_models(cols@), 0, start());
                }
                let rs = all_rows(&cols);
                Some(list_records(fs, rs))
            },
            _ => None,
        }
    }
}

/// The rows are as long as there are columns.
proof fn row_width(cols: Seq<Seq<Val>>, i: int, acc: Seq<Seq<Val>>)
    requires
        0 <= i <= cols.len(),
        forall|k: int| 0 <= k < acc.len() ==> (#[trigger] acc[k]).len() == i,
    ensures
        forall|k: int| 0 <= k < rows(cols, i, acc).len() ==> (#[trigger] rows(cols, i, acc)[k]).len() == cols.len(),
    decreases cols.len() - i,
{
    if i < cols.len() {
        wider(acc, cols[i], i as nat);
        row_width(cols, i + 1, widened(acc, cols[i]));
        assert(rows(cols, i, acc) == rows(cols, i + 1, widened(acc, cols[i])));
    } else {
        assert(rows(cols, i, acc) == acc);
    }
}

proof fn wider(ps: Seq<Seq<Val>>, vs: Seq<Val>, n: nat)
    requires
        forall|k: int| 0 <= k < ps.len() ==> (#[trigger] ps[k]).len() == n,
    ensures
        forall|k: int| 0 <= k < widened(ps, vs).len() ==> (#[trigger] widened(ps, vs)[k]).len() == n + 1,
    decreases ps.len(),
{
    if ps.len() > 0 {
        assert forall|k: int| 0 <= k < ps.drop_last().len() implies (#[trigger] ps.drop_last()[k]).len() == n by {
            assert(ps[k].len() == n);
        }
        let a = widened(ps.drop_last(), vs);
        let b = ended(ps.last(), vs);
        wider(ps.drop_last(), vs, n);
        assert(ps[ps.len() - 1].len() == n);
        assert forall|k: int| 0 <= k < widened(ps, vs).len() implies (#[trigger] widened(ps, vs)[k]).len() == n + 1 by {
            if k < a.len() {
                assert(widened(ps, vs)[k] == a[k]);
            } else {
                assert(widened(ps, vs)[k] == b[k - a.len()]);
            }
        }
    }
}

fn append_built(v: Vec<Value>, id: &TypeId, c: &String, rs: Vec<Vec<Value>>) -> (r: Vec<Value>)
    ensures
        models(r@) == models(v@) + built(id@, c@, row_models(rs@)),
{
    let ghost s = models(v@);
    let ghost n = built(id@, c@, row_models(rs@));
    let mut r = v;
    let mut i: usize = 0;
    assert(s + n.take(0) =~= s);
    while i < rs.len()
        invariant
            i <= rs@.len(),
            n == built(id@, c@, row_models(rs@)),
            models(r@) == s + n.take(i as int),
        decreases rs.len() - i,
    {
        let ghost a = r@;
        let x = Value::Data(id.clone(), c.clone(), clone_values(&rs[i]));
        let ghost m = x.model();
        assert(m == n[i as int]);
        r.push(x);
        assert(models(r@) =~= models(a).push(m));
        assert(models(r@) =~= s + n.take(i + 1));
        i += 1;
    }
    assert(n.take(i as int) =~= n);
    r
}

fn list_records(fs: &Vec<(String, CType)>, rs: Vec<Vec<Value>>) -> (r: Vec<Value>)
    requires
        forall|k: int| 0 <= k < rs@.len() ==> (#[trigger] row_models(rs@)[k]).len() == fs@.len(),
    ensures
        models(r@) == records(field_names(ct_fields(fs@)), row_models(rs@)),
{
    let ghost want = records(field_names(ct_fields(fs@)), row_models(rs@));
    let mut out: Vec<Value> = Vec::new();
    let mut i: usize = 0;
    while i < rs.len()
        invariant
            i <= rs@.len(),
            out@.len() == i,
            want == records(field_names(ct_fields(fs@)), row_models(rs@)),
            forall|k: int| 0 <= k < rs@.len() ==> (#[trigger] row_models(rs@)[k]).len() == fs@.len(),
            forall|k: int| 0 <= k < i ==> (#[trigger] out@[k]).model() == want[k],
        decreases rs.len() - i,
    {
        let row = &rs[i];
        assert(row_models(rs@)[i as int] == models(row@));
        let mut fields: Vec<(String, Value)> = Vec::new();
        let mut j: usize = 0;
        while j < fs.len()
            invariant
                j <= fs@.len(),
                row@.len() == fs@.len(),
                fields@.len() == j,
                forall|k: int|
                    0 <= k < j ==> (#[trigger] fields@[k]).0@ == fs@[k].0@ && fields@[k].1.model() == row@[k].model(),
            decreases fs.len() - j,
        {
            fields.push((fs[j].0.clone(), row[j].clone()));
            j += 1;
        }
        proof {
            let ns = field_names(ct_fields(fs@));
            let m = Seq::new(ns.len(), |j: int| (ns[j], models(row@)[j]));
            assert(field_models(fields@) =~= m);
        }
        out.push(Value::Record(fields));
        i += 1;
    }
    assert(models(out@) =~= want);
    out
}

fn map_values(n: Option<u64>, vs: Option<Vec<Value>>) -> (r: Option<Vec<Value>>)
    ensures
        opt_values(r) == (match (opt_nat(n), opt_values(vs)) {
            (Some(n), Some(vs)) => Some(arrays(rows(Seq::new(n, |k: int| vs), 0, start()))),
            _ => None,
        }),
{
    match (n, vs) {
        (Some(n), Some(vs)) => {
            let ghost vm = models(vs@);
            let ghost cols = Seq::new(n as nat, |k: int| vm);
            let mut rs = first_rows();
            let mut i: u64 = 0;
            while i < n
                invariant
                    i <= n,
                    vm == models(vs@),
                    cols == Seq::new(n as nat, |k: int| vm),
                    rows(cols, i as int, row_models(rs@)) == rows(cols, 0, start()),
                decreases n - i,
            {
                assert(cols[i as int] == vm);
                rs = widen(&rs, &vs);
                i += 1;
            }
            let mut out: Vec<Value> = Vec::new();
            let ghost want = arrays(row_models(rs@));
            let mut j: usize = 0;
            while j < rs.len()
                invariant
                    j <= rs@.len(),
                    out@.len() == j,
                    want == arrays(row_models(rs@)),
                    forall|k: int| 0 <= k < j ==> (#[trigger] out@[k]).model() == want[k],
                decreases rs.len() - j,
            {
                out.push(Value::Array(clone_values(&rs[j])));
                j += 1;
            }
            assert(models(out@) =~= want);
            Some(out)
        },
        _ => None,
    }
}

/// The value is one of the type.
pub open spec fn has(t: CT, v: Val) -> bool
    decreases t,
{
    match t {
        CT::Bool => v is Bool,
        CT::Range(lo, hi) => v matches Val::Num(q) && q.d == 1 && lo <= q.n <= hi,
        CT::Scalar(id, n) => v matches Val::Scalar(a, i) && a == id && i < n.len(),
        CT::Data(id, cs) => v matches Val::Data(a, c, args) && a == id && has_ctor(cs, c, args),
        CT::Maps(_f, i, e) => v matches Val::Array(vs) && size(*i) == Some(vs.len()) && (forall|k: int|
            0 <= k < vs.len() ==> has(*e, #[trigger] vs[k])),
        CT::Tuple(ts) => v matches Val::Tuple(vs) && has_all(ts, vs),
        CT::Record(fs) => v matches Val::Record(r) && has_fields(fs, r),
        CT::Infinite(_t) => false,
    }
}

/// The values are of the types, one by one.
pub open spec fn has_all(ts: Seq<CT>, vs: Seq<Val>) -> bool
    decreases ts,
{
    ts.len() == vs.len() && forall|k: int| 0 <= k < ts.len() ==> has(ts[k], #[trigger] vs[k])
}

/// The fields have the names and types, one by one.
pub open spec fn has_fields(fs: Seq<(Seq<char>, CT)>, r: Seq<(Seq<char>, Val)>) -> bool
    decreases fs,
{
    fs.len() == r.len() && forall|k: int|
        0 <= k < fs.len() ==> fs[k].0 == (#[trigger] r[k]).0 && has(fs[k].1, r[k].1)
}

/// The arguments are ones of a constructor of this name.
pub open spec fn has_ctor(cs: Seq<(Seq<char>, Seq<CT>)>, c: Seq<char>, args: Seq<Val>) -> bool
    decreases cs,
{
    exists|k: int| 0 <= k < cs.len() && (#[trigger] cs[k]).0 == c && has_all(cs[k].1, args)
}

proof fn widened_has(ps: Seq<Seq<Val>>, vs: Seq<Val>, q: Seq<Val>)
    ensures
        widened(ps, vs).contains(q) == (q.len() > 0 && ps.contains(q.drop_last()) && vs.contains(q.last())),
    decreases ps.len(),
{
    if ps.len() > 0 {
        let ds = ps.drop_last();
        let l = ps.last();
        let a = widened(ds, vs);
        let b = ended(l, vs);
        widened_has(ds, vs, q);
        if widened(ps, vs).contains(q) {
            let k = choose|k: int| 0 <= k < (a + b).len() && (a + b)[k] == q;
            if k < a.len() {
                assert(a[k] == q);
                assert(a.contains(q));
                let m = choose|m: int| 0 <= m < ds.len() && ds[m] == q.drop_last();
                assert(ps[m] == q.drop_last());
            } else {
                let j = k - a.len();
                assert(b[j] == q);
                assert(q == l.push(vs[j]));
                assert(q.drop_last() =~= l);
                assert(ps[ps.len() - 1] == q.drop_last());
                assert(vs[j] == q.last());
            }
        }
        if q.len() > 0 && ps.contains(q.drop_last()) && vs.contains(q.last()) {
            let m = choose|m: int| 0 <= m < ps.len() && ps[m] == q.drop_last();
            if m < ds.len() {
                assert(ds[m] == q.drop_last());
                assert(a.contains(q));
                let k = choose|k: int| 0 <= k < a.len() && a[k] == q;
                assert((a + b)[k] == q);
            } else {
                let j = choose|j: int| 0 <= j < vs.len() && vs[j] == q.last();
                assert(q =~= l.push(vs[j]));
                assert(b[j] == q);
                assert((a + b)[a.len() + j] == q);
            }
        }
    }
}

proof fn rows_have(cols: Seq<Seq<Val>>, i: int, acc: Seq<Seq<Val>>, q: Seq<Val>)
    requires
        0 <= i <= cols.len(),
        forall|k: int| 0 <= k < acc.len() ==> (#[trigger] acc[k]).len() == i,
    ensures
        rows(cols, i, acc).contains(q) == (q.len() == cols.len() && acc.contains(q.take(i)) && forall|j: int|
            i <= j < cols.len() ==> (#[trigger] cols[j]).contains(q[j])),
    decreases cols.len() - i,
{
    if i < cols.len() {
        let w = widened(acc, cols[i]);
        wider(acc, cols[i], i as nat);
        rows_have(cols, i + 1, w, q);
        if q.len() == cols.len() {
            let p = q.take(i + 1);
            widened_has(acc, cols[i], p);
            assert(p.drop_last() =~= q.take(i));
            assert(p.last() == q[i]);
            if rows(cols, i, acc).contains(q) {
                assert forall|j: int| i <= j < cols.len() implies (#[trigger] cols[j]).contains(q[j]) by {}
            }
        }
    } else {
        if acc.contains(q) {
            let k = choose|k: int| 0 <= k < acc.len() && acc[k] == q;
            assert(acc[k].len() == i);
            assert(q.take(i) =~= q);
        }
        if q.len() == cols.len() {
            assert(q.take(i) =~= q);
        }
    }
}

/// The rows are those with a value of each column.
pub proof fn all_rows_have(cols: Seq<Seq<Val>>, q: Seq<Val>)
    ensures
        rows(cols, 0, start()).contains(q) == (q.len() == cols.len() && forall|j: int|
            0 <= j < cols.len() ==> (#[trigger] cols[j]).contains(q[j])),
{
    rows_have(cols, 0, start(), q);
    assert(start()[0] =~= q.take(0));
}

proof fn columns_are(ts: Seq<CT>, i: int, acc: Seq<Seq<Val>>)
    requires
        0 <= i <= ts.len(),
        acc.len() == i,
        columns(ts, i, acc) is Some,
        forall|k: int| 0 <= k < i ==> values(ts[k]) == Some(#[trigger] acc[k]),
    ensures
        columns(ts, i, acc)->0.len() == ts.len(),
        forall|k: int| 0 <= k < ts.len() ==> values(ts[k]) == Some(#[trigger] columns(ts, i, acc)->0[k]),
    decreases ts.len() - i,
{
    reveal_with_fuel(columns, 2);
    if i < ts.len() {
        columns_are(ts, i + 1, acc.push(values(ts[i])->0));
    }
}

proof fn field_columns_are(fs: Seq<(Seq<char>, CT)>, i: int, acc: Seq<Seq<Val>>)
    requires
        0 <= i <= fs.len(),
        acc.len() == i,
        field_columns(fs, i, acc) is Some,
        forall|k: int| 0 <= k < i ==> values(fs[k].1) == Some(#[trigger] acc[k]),
    ensures
        field_columns(fs, i, acc)->0.len() == fs.len(),
        forall|k: int| 0 <= k < fs.len() ==> values(fs[k].1) == Some(#[trigger] field_columns(fs, i, acc)->0[k]),
    decreases fs.len() - i,
{
    reveal_with_fuel(field_columns, 2);
    if i < fs.len() {
        field_columns_are(fs, i + 1, acc.push(values(fs[i].1)->0));
    }
}

/// The rows of the columns of types are the lists of values of the types.
proof fn columns_have(ts: Seq<CT>, q: Seq<Val>)
    requires
        columns(ts, 0, Seq::empty()) is Some,
    ensures
        rows(columns(ts, 0, Seq::empty())->0, 0, start()).contains(q) == has_all(ts, q),
    decreases ts, 0nat,
{
    let cols = columns(ts, 0, Seq::empty())->0;
    columns_are(ts, 0, Seq::empty());
    all_rows_have(cols, q);
    if q.len() == ts.len() {
        assert forall|k: int| 0 <= k < ts.len() implies (#[trigger] cols[k]).contains(q[k]) == has(ts[k], q[k]) by {
            assert(values(ts[k]) == Some(cols[k]));
            lists_exactly(ts[k], q[k]);
        }
        if has_all(ts, q) {
            assert forall|k: int| 0 <= k < cols.len() implies (#[trigger] cols[k]).contains(q[k]) by {
                assert(has(ts[k], q[k]));
            }
        }
        if forall|k: int| 0 <= k < cols.len() ==> (#[trigger] cols[k]).contains(q[k]) {
            assert forall|k: int| 0 <= k < ts.len() implies has(ts[k], #[trigger] q[k]) by {
                assert(cols[k].contains(q[k]));
            }
        }
    }
}

proof fn data_have(id: Tid, cs: Seq<(Seq<char>, Seq<CT>)>, i: int, acc: Seq<Val>, v: Val)
    requires
        0 <= i <= cs.len(),
        data_values(id, cs, i, acc) is Some,
    ensures
        data_values(id, cs, i, acc)->0.contains(v) == (acc.contains(v) || (v matches Val::Data(a, c, args) && a == id
            && exists|k: int| i <= k < cs.len() && (#[trigger] cs[k]).0 == c && has_all(cs[k].1, args))),
    decreases cs, 1nat, cs.len() - i,
{
    reveal_with_fuel(data_values, 2);
    if i < cs.len() {
        let rs = rows(columns(cs[i].1, 0, Seq::empty())->0, 0, start());
        let b = built(id, cs[i].0, rs);
        data_have(id, cs, i + 1, acc + b, v);
        assert((acc + b).contains(v) == (acc.contains(v) || b.contains(v))) by {
            if acc.contains(v) {
                let k = choose|k: int| 0 <= k < acc.len() && acc[k] == v;
                assert((acc + b)[k] == v);
            }
            if b.contains(v) {
                let k = choose|k: int| 0 <= k < b.len() && b[k] == v;
                assert((acc + b)[acc.len() + k] == v);
            }
            if (acc + b).contains(v) {
                let k = choose|k: int| 0 <= k < (acc + b).len() && (acc + b)[k] == v;
                if k < acc.len() {
                    assert(acc[k] == v);
                } else {
                    assert(b[k - acc.len()] == v);
                }
            }
        }
        match v {
            Val::Data(a, c, args) => {
                columns_have(cs[i].1, args);
                assert(b.contains(v) == (a == id && c == cs[i].0 && has_all(cs[i].1, args))) by {
                    if b.contains(v) {
                        let k = choose|k: int| 0 <= k < b.len() && b[k] == v;
                        assert(rs[k] == args);
                    }
                    if a == id && c == cs[i].0 && has_all(cs[i].1, args) {
                        let k = choose|k: int| 0 <= k < rs.len() && rs[k] == args;
                        assert(b[k] == v);
                    }
                }
                if a == id && exists|k: int| i <= k < cs.len() && (#[trigger] cs[k]).0 == c && has_all(cs[k].1, args) {
                    let k = choose|k: int| i <= k < cs.len() && (#[trigger] cs[k]).0 == c && has_all(cs[k].1, args);
                    if k > i {
                        assert(i + 1 <= k);
                    }
                }
                if a == id && c == cs[i].0 && has_all(cs[i].1, args) {
                    assert(cs[i].0 == c);
                }
            },
            _ => {
                if b.contains(v) {
                    let k = choose|k: int| 0 <= k < b.len() && b[k] == v;
                }
            },
        }
    }
}

/// The list of the values of a type holds a value exactly if it is one of the type.
pub proof fn lists_exactly(t: CT, v: Val)
    requires
        values(t) is Some,
    ensures
        values(t)->0.contains(v) == has(t, v),
    decreases t, 2nat,
{
    let s = values(t)->0;
    match t {
        CT::Bool => {
            assert(s[0] == Val::Bool(false));
            assert(s[1] == Val::Bool(true));
            if v is Bool {
                assert(v == s[0] || v == s[1]);
                assert(s.contains(v));
            }
            if s.contains(v) {
                let k = choose|k: int| 0 <= k < s.len() && s[k] == v;
                assert(k == 0 || k == 1);
            }
        },
        CT::Range(lo, hi) => {
            if has(t, v) {
                let q = v->Num_0;
                assert(q == Q::whole(lo + (q.n - lo)));
                assert(s[q.n - lo] == v);
            }
            assert(s.contains(v) == has(t, v));
        },
        CT::Scalar(id, n) => {
            if has(t, v) {
                let i = v->Scalar_1;
                assert(s[i as int] == v);
            }
            assert(s.contains(v) == has(t, v));
        },
        CT::Data(id, cs) => {
            data_have(id, cs, 0, Seq::empty(), v);
            match v {
                Val::Data(a, c, args) => {
                    assert(has(t, v) == (a == id && has_ctor(cs, c, args)));
                },
                _ => {},
            }
            assert(s.contains(v) == has(t, v));
        },
        CT::Maps(_f, i, e) => {
            let n = size(*i)->0;
            let vs = values(*e)->0;
            let cols = Seq::new(n, |k: int| vs);
            let rs = rows(cols, 0, start());
            match v {
                Val::Array(q) => {
                    all_rows_have(cols, q);
                    assert forall|k: int| 0 <= k < q.len() implies vs.contains(#[trigger] q[k]) == has(*e, q[k]) by {
                        lists_exactly(*e, q[k]);
                    }
                    if rs.contains(q) {
                        let k = choose|k: int| 0 <= k < rs.len() && rs[k] == q;
                        assert(s[k] == v);
                        assert forall|k: int| 0 <= k < q.len() implies has(*e, #[trigger] q[k]) by {
                            assert(cols[k].contains(q[k]));
                        }
                    }
                    if s.contains(v) {
                        let k = choose|k: int| 0 <= k < s.len() && s[k] == v;
                        assert(rs[k] == q);
                    }
                    if has(t, v) {
                        assert forall|j: int| 0 <= j < cols.len() implies (#[trigger] cols[j]).contains(q[j]) by {
                            assert(has(*e, q[j]));
                        }
                    }
                },
                _ => {},
            }
        },
        CT::Tuple(ts) => {
            let rs = rows(columns(ts, 0, Seq::empty())->0, 0, start());
            match v {
                Val::Tuple(q) => {
                    assert(has(t, v) == has_all(ts, q));
                    columns_have(ts, q);
                    if rs.contains(q) {
                        let k = choose|k: int| 0 <= k < rs.len() && rs[k] == q;
                        assert(s[k] == v);
                    }
                    if s.contains(v) {
                        let k = choose|k: int| 0 <= k < s.len() && s[k] == v;
                        assert(rs[k] == q);
                    }
                },
                _ => {},
            }
        },
        CT::Record(fs) => {
            let cols = field_columns(fs, 0, Seq::empty())->0;
            let rs = rows(cols, 0, start());
            let ns = field_names(fs);
            field_columns_are(fs, 0, Seq::empty());
            row_width(cols, 0, start());
            match v {
                Val::Record(r) => {
                    let q = Seq::new(r.len(), |j: int| r[j].1);
                    all_rows_have(cols, q);
                    assert(has(t, v) == has_fields(fs, r));
                    if has(t, v) {
                        assert forall|j: int| 0 <= j < cols.len() implies (#[trigger] cols[j]).contains(q[j]) by {
                            assert(values(fs[j].1) == Some(cols[j]));
                            assert(fs[j].0 == r[j].0 && has(fs[j].1, r[j].1));
                            lists_exactly(fs[j].1, q[j]);
                        }
                        let k = choose|k: int| 0 <= k < rs.len() && rs[k] == q;
                        assert(r =~= Seq::new(ns.len(), |j: int| (ns[j], rs[k][j]))) by {
                            assert forall|j: int| 0 <= j < r.len() implies #[trigger] r[j] == (ns[j], rs[k][j]) by {
                                assert(fs[j].0 == r[j].0);
                            }
                        }
                        assert(s[k] == v);
                    }
                    if s.contains(v) {
                        let k = choose|k: int| 0 <= k < s.len() && s[k] == v;
                        assert(s[k] == record(ns, rs[k]));
                        assert(r == Seq::new(ns.len(), |j: int| (ns[j], rs[k][j])));
                        assert(rs[k].len() == cols.len());
                        assert(q =~= rs[k]);
                        assert forall|j: int| 0 <= j < fs.len() implies fs[j].0 == (#[trigger] r[j]).0 && has(
                            fs[j].1,
                            r[j].1,
                        ) by {
                            assert(values(fs[j].1) == Some(cols[j]));
                            assert(cols[j].contains(q[j]));
                            lists_exactly(fs[j].1, q[j]);
                        }
                    }
                },
                _ => {},
            }
        },
        CT::Infinite(_t) => {},
    }
}

proof fn widened_len(ps: Seq<Seq<Val>>, vs: Seq<Val>)
    ensures
        widened(ps, vs).len() == ps.len() * vs.len(),
    decreases ps.len(),
{
    if ps.len() > 0 {
        widened_len(ps.drop_last(), vs);
        assert((ps.len() - 1) * vs.len() + vs.len() == ps.len() * vs.len()) by (nonlinear_arith);
    } else {
        assert(0 * vs.len() == 0);
    }
}

/// The rows of the columns of types are as many as the product of their sizes.
proof fn product_len(ts: Seq<CT>, cols: Seq<Seq<Val>>, i: int, acc: Seq<Seq<Val>>)
    requires
        0 <= i <= ts.len(),
        cols.len() == ts.len(),
        forall|k: int| 0 <= k < ts.len() ==> values(ts[k]) == Some(#[trigger] cols[k]),
        product_size(ts, i, acc.len()) is Some,
    ensures
        rows(cols, i, acc).len() == product_size(ts, i, acc.len())->0,
    decreases ts, ts.len() - i,
{
    reveal_with_fuel(product_size, 2);
    if i < ts.len() {
        assert(values(ts[i]) == Some(cols[i]));
        counts_exactly(ts[i]);
        widened_len(acc, cols[i]);
        product_len(ts, cols, i + 1, widened(acc, cols[i]));
    }
}

proof fn field_len(fs: Seq<(Seq<char>, CT)>, cols: Seq<Seq<Val>>, i: int, acc: Seq<Seq<Val>>)
    requires
        0 <= i <= fs.len(),
        cols.len() == fs.len(),
        forall|k: int| 0 <= k < fs.len() ==> values(fs[k].1) == Some(#[trigger] cols[k]),
        field_size(fs, i, acc.len()) is Some,
    ensures
        rows(cols, i, acc).len() == field_size(fs, i, acc.len())->0,
    decreases fs, fs.len() - i,
{
    reveal_with_fuel(field_size, 2);
    if i < fs.len() {
        assert(values(fs[i].1) == Some(cols[i]));
        counts_exactly(fs[i].1);
        widened_len(acc, cols[i]);
        field_len(fs, cols, i + 1, widened(acc, cols[i]));
    }
}

proof fn sum_len(id: Tid, cs: Seq<(Seq<char>, Seq<CT>)>, i: int, acc: Seq<Val>)
    requires
        0 <= i <= cs.len(),
        data_values(id, cs, i, acc) is Some,
        sum_size(cs, i, acc.len()) is Some,
    ensures
        data_values(id, cs, i, acc)->0.len() == sum_size(cs, i, acc.len())->0,
    decreases cs, cs.len() - i,
{
    reveal_with_fuel(data_values, 2);
    reveal_with_fuel(sum_size, 2);
    if i < cs.len() {
        let cols = columns(cs[i].1, 0, Seq::empty())->0;
        columns_are(cs[i].1, 0, Seq::empty());
        product_len(cs[i].1, cols, 0, start());
        sum_len(id, cs, i + 1, acc + built(id, cs[i].0, rows(cols, 0, start())));
    }
}

proof fn power_len(vs: Seq<Val>, n: nat, i: nat, acc: Seq<Seq<Val>>)
    requires
        i <= n,
        power(vs.len(), i) == Some(acc.len()),
        power(vs.len(), n) is Some,
    ensures
        rows(Seq::new(n, |k: int| vs), i as int, acc).len() == power(vs.len(), n)->0,
    decreases n - i,
{
    let cols = Seq::new(n, |k: int| vs);
    if i < n {
        if power(vs.len(), i + 1) is None {
            stays_none(vs.len(), i + 1, n);
        }
        assert(cols[i as int] == vs);
        widened_len(acc, vs);
        power_len(vs, n, i + 1, widened(acc, vs));
    }
}

/// The list of the values of a type is as long as the type is large.
pub proof fn counts_exactly(t: CT)
    requires
        values(t) is Some,
        size(t) is Some,
    ensures
        values(t)->0.len() == size(t)->0,
    decreases t,
{
    match t {
        CT::Data(id, cs) => {
            sum_len(id, cs, 0, Seq::empty());
        },
        CT::Maps(_f, i, e) => {
            counts_exactly(*e);
            power_len(values(*e)->0, size(*i)->0, 0, start());
        },
        CT::Tuple(ts) => {
            columns_are(ts, 0, Seq::empty());
            product_len(ts, columns(ts, 0, Seq::empty())->0, 0, start());
        },
        CT::Record(fs) => {
            field_columns_are(fs, 0, Seq::empty());
            field_len(fs, field_columns(fs, 0, Seq::empty())->0, 0, start());
        },
        _ => {},
    }
}

/// The place of a value in a list, from `i` on.
pub open spec fn place(s: Seq<Val>, v: Val, i: int) -> Option<nat>
    decreases s.len() - i,
{
    if i < 0 || i >= s.len() {
        None
    } else if s[i] == v {
        Some(i as nat)
    } else {
        place(s, v, i + 1)
    }
}

/// The number of a value of a type: its place in the list of the values of the type.
pub open spec fn position(t: CT, v: Val) -> Option<nat> {
    match (t, v) {
        (CT::Bool, Val::Bool(b)) => Some(
            if b {
                1
            } else {
                0
            },
        ),
        (CT::Range(lo, hi), Val::Num(q)) => if q.is_int() && lo <= q.n <= hi && q.n - lo <= usize::MAX {
            Some((q.n - lo) as nat)
        } else {
            None
        },
        (CT::Scalar(_id, n), Val::Scalar(_a, i)) => if i < n.len() {
            Some(i)
        } else {
            None
        },
        _ => match values(t) {
            Some(s) => place(s, v, 0),
            None => None,
        },
    }
}

proof fn place_is(s: Seq<Val>, v: Val, i: int)
    requires
        0 <= i,
        exists|k: int| i <= k < s.len() && s[k] == v,
    ensures
        place(s, v, i) is Some,
        place(s, v, i)->0 < s.len(),
        s[place(s, v, i)->0 as int] == v,
    decreases s.len() - i,
{
    if s[i] != v {
        let k = choose|k: int| i <= k < s.len() && s[k] == v;
        assert(i + 1 <= k);
        place_is(s, v, i + 1);
    }
}

/// The number of a value of a type is its place in the list of the values of the type.
pub proof fn position_is_place(t: CT, v: Val)
    requires
        values(t) is Some,
        has(t, v),
        values(t)->0.len() <= usize::MAX,
    ensures
        position(t, v) matches Some(i) && i < values(t)->0.len() && values(t)->0[i as int] == v,
{
    lists_exactly(t, v);
    let s = values(t)->0;
    match (t, v) {
        (CT::Bool, Val::Bool(b)) => {},
        (CT::Range(lo, hi), Val::Num(q)) => {
            assert(q == Q::whole(lo + (q.n - lo)));
        },
        (CT::Scalar(_id, _n), Val::Scalar(_a, i)) => {},
        _ => {
            let k = choose|k: int| 0 <= k < s.len() && s[k] == v;
            place_is(s, v, 0);
        },
    }
}

impl CType {
    /// The number of a value of the type.
    pub fn index_of(&self, v: &Value) -> (r: Option<usize>)
        ensures
            match (r, position(self.model(), v.model())) {
                (Some(i), Some(j)) => i == j,
                (None, None) => true,
                _ => false,
            },
    {
        match (self, v) {
            (CType::Bool, Value::Bool(b)) => Some(
                if *b {
                    1
                } else {
                    0
                },
            ),
            (CType::Range(lo, hi), Value::Num(q)) => if q.is_integer() && !q.numer().less(lo) && !hi.less(q.numer()) {
                match q.numer().minus(lo).to_u64() {
                    Some(k) => if k <= usize::MAX as u64 {
                        Some(k as usize)
                    } else {
                        None
                    },
                    None => None,
                }
            } else {
                None
            },
            (CType::Scalar(_id, es), Value::Scalar(_a, i)) => if *i < es.len() {
                Some(*i)
            } else {
                None
            },
            _ => match self.enumerate() {
                Some(s) => {
                    let ghost want = position(self.model(), v.model());
                    let mut i: usize = 0;
                    while i < s.len()
                        invariant
                            i <= s@.len(),
                            want == position(self.model(), v.model()),
                            want == place(models(s@), v.model(), i as int),
                        decreases s.len() - i,
                    {
                        assert(models(s@)[i as int] == s@[i as int].model());
                        if s[i].same(v) {
                            return Some(i);
                        }
                        i += 1;
                    }
                    None
                },
                None => None,
            },
        }
    }
}

/// The leaf type that a type without parts is; of other types there is none.
pub open spec fn leaf_of(t: CT) -> Option<LT> {
    match t {
        CT::Bool => Some(LT::Bool),
        CT::Range(lo, hi) => Some(LT::Range(lo, hi)),
        CT::Infinite(Endless::Int(min, max)) => Some(LT::Int { min, max }),
        CT::Infinite(Endless::Real) => Some(LT::Real),
        CT::Scalar(id, es) => Some(LT::Scalar(id, es)),
        _ => None,
    }
}

impl LeafType {
    /// The leaf type that a type without parts is.
    pub fn from_ctype(t: &CType) -> (r: Option<LeafType>)
        ensures
            match (r, leaf_of(t.model())) {
                (Some(a), Some(b)) => a@ == b,
                (None, None) => true,
                _ => false,
            },
    {
        match t {
            CType::Bool => Some(LeafType::Bool),
            CType::Range(lo, hi) => Some(LeafType::Range(lo.clone(), hi.clone())),
            CType::Int { min, max } => Some(LeafType::Int { min: clone_opt_int(min), max: clone_opt_int(max) }),
            CType::Real => Some(LeafType::Real),
            CType::Scalar(id, es) => Some(LeafType::Scalar(id.clone(), clone_strings(es))),
            _ => None,
        }
    }
}

fn copy_ctypes(v: &Vec<CType>) -> (r: Vec<CType>)
    ensures
        ct_models(r@) == ct_models(v@),
    decreases v, 0nat,
{
    let mut r: Vec<CType> = Vec::new();
    let mut i: usize = 0;
    while i < v.len()
        invariant
            i <= v@.len(),
            r@.len() == i,
            forall|j: int| 0 <= j < i ==> (#[trigger] r@[j]).model() == v@[j].model(),
        decreases v.len() - i,
    {
        r.push(v[i].copy());
        i += 1;
    }
    assert(ct_models(r@) =~= ct_models(v@));
    r
}

impl CType {
    /// A copy.
    pub fn copy(&self) -> (r: CType)
        ensures
            r.model() == self.model(),
        decreases self, 1nat,
    {
        match self {
            CType::Bool => CType::Bool,
            CType::Range(lo, hi) => CType::Range(lo.clone(), hi.clone()),
            CType::Int { min, max } => CType::Int { min: clone_opt_int(min), max: clone_opt_int(max) },
            CType::Real => CType::Real,
            CType::Scalar(id, es) => CType::Scalar(id.clone(), clone_strings(es)),
            CType::Data(id, cs) => {
                let mut r: Vec<(String, Vec<CType>)> = Vec::new();
                let mut i: usize = 0;
                while i < cs.len()
                    invariant
                        i <= cs@.len(),
                        r@.len() == i,
                        decreases_to!(self => cs),
                        forall|j: int|
                            0 <= j < i ==> (#[trigger] r@[j]).0@ == cs@[j].0@ && ct_models(r@[j].1@) == ct_models(
                                cs@[j].1@,
                            ),
                    decreases cs.len() - i,
                {
                    r.push((cs[i].0.clone(), copy_ctypes(&cs[i].1)));
                    i += 1;
                }
                assert(ctor_models(r@) =~= ctor_models(cs@));
                CType::Data(id.clone(), r)
            },
            CType::Array(i, e) => CType::Array(Box::new(i.copy()), Box::new(e.copy())),
            CType::Fun(i, e) => CType::Fun(Box::new(i.copy()), Box::new(e.copy())),
            CType::Tuple(ts) => CType::Tuple(copy_ctypes(ts)),
            CType::Record(fs) => {
                let mut r: Vec<(String, CType)> = Vec::new();
                let mut i: usize = 0;
                while i < fs.len()
                    invariant
                        i <= fs@.len(),
                        r@.len() == i,
                        decreases_to!(self => fs),
                        forall|j: int|
                            0 <= j < i ==> (#[trigger] r@[j]).0@ == fs@[j].0@ && r@[j].1.model() == fs@[j].1.model(),
                    decreases fs.len() - i,
                {
                    r.push((fs[i].0.clone(), fs[i].1.copy()));
                    i += 1;
                }
                assert(ct_fields(r@) =~= ct_fields(fs@));
                CType::Record(r)
            },
            CType::Uninterp(id) => CType::Uninterp(id.clone()),
        }
    }
}

} // verus!
