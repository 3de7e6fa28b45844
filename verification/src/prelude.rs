//! The names that every context knows.

use crate::env::{
    add_entry, binding_views, fun_sem, fun_type, no_entries, pair_type, string_sem, string_type, symbol_views,
    Binding, Entry, EntryV, InstV, Instance, SymbolsV,
};
use crate::text::own;
use crate::types::{SemType, ST};
use vstd::prelude::*;

verus! {

/// The type of a function of two arguments.
pub open spec fn fun2_sem(a: ST, b: ST, r: ST) -> ST {
    fun_sem(ST::Tuple(seq![a, b]), r)
}

fn fun2(a: SemType, b: SemType, r: SemType) -> (t: SemType)
    ensures
        t.model() == fun2_sem(a.model(), b.model(), r.model()),
{
    fun_type(pair_type(a, b), r)
}

/// Truth values.
pub open spec fn truth_types(s: SymbolsV) -> SymbolsV {
    let e = EntryV::Type(ST::Bool, None);
    s.push(("bool"@, e)).push(("boolean"@, e)).push(("BOOLEAN"@, e))
}

fn add_truth_types(v: Vec<(String, Entry)>) -> (r: Vec<(String, Entry)>)
    ensures
        symbol_views(r@) == truth_types(symbol_views(v@)),
{
    let e = Entry::Type(SemType::Bool, None);
    let v = add_entry(v, own("bool"), e.clone());
    let v = add_entry(v, own("boolean"), e.clone());
    let v = add_entry(v, own("BOOLEAN"), e.clone());
    v
}

/// The type of everything.
pub open spec fn top_type(s: SymbolsV) -> SymbolsV {
    let e = EntryV::Type(ST::Any, None);
    s.push(("any"@, e))
}

fn add_top_type(v: Vec<(String, Entry)>) -> (r: Vec<(String, Entry)>)
    ensures
        symbol_views(r@) == top_type(symbol_views(v@)),
{
    let e = Entry::Type(SemType::Any, None);
    let v = add_entry(v, own("any"), e.clone());
    v
}

/// Numbers of all kinds, and characters.
pub open spec fn number_types(s: SymbolsV) -> SymbolsV {
    let e = EntryV::Type(ST::Number, None);
    s.push(("number"@, e)).push(("real"@, e)).push(("REAL"@, e)).push(("int"@, e)).push(("integer"@, e)).push(("INTEGER"@, e)).push(("nat"@, e)).push(("natural"@, e)).push(("NATURAL"@, e)).push(("nzint"@, e)).push(("NZINTEGER"@, e)).push(("nzreal"@, e)).push(("NZREAL"@, e)).push(("nznat"@, e)).push(("char"@, e)).push(("CHAR"@, e)).push(("character"@, e))
}

fn add_number_types(v: Vec<(String, Entry)>) -> (r: Vec<(String, Entry)>)
    ensures
        symbol_views(r@) == number_types(symbol_views(v@)),
{
    let e = Entry::Type(SemType::Number, None);
    let v = add_entry(v, own("number"), e.clone());
    let v = add_entry(v, own("real"), e.clone());
    let v = add_entry(v, own("REAL"), e.clone());
    let v = add_entry(v, own("int"), e.clone());
    let v = add_entry(v, own("integer"), e.clone());
    let v = add_entry(v, own("INTEGER"), e.clone());
    let v = add_entry(v, own("nat"), e.clone());
    let v = add_entry(v, own("natural"), e.clone());
    let v = add_entry(v, own("NATURAL"), e.clone());
    let v = add_entry(v, own("nzint"), e.clone());
    let v = add_entry(v, own("NZINTEGER"), e.clone());
    let v = add_entry(v, own("nzreal"), e.clone());
    let v = add_entry(v, own("NZREAL"), e.clone());
    let v = add_entry(v, own("nznat"), e.clone());
    let v = add_entry(v, own("char"), e.clone());
    let v = add_entry(v, own("CHAR"), e.clone());
    let v = add_entry(v, own("character"), e.clone());
    v
}

/// Texts.
pub open spec fn text_types(s: SymbolsV) -> SymbolsV {
    let e = EntryV::Type(string_sem(), None);
    s.push(("string"@, e)).push(("STRING"@, e))
}

fn add_text_types(v: Vec<(String, Entry)>) -> (r: Vec<(String, Entry)>)
    ensures
        symbol_views(r@) == text_types(symbol_views(v@)),
{
    let e = Entry::Type(string_type(), None);
    let v = add_entry(v, own("string"), e.clone());
    let v = add_entry(v, own("STRING"), e.clone());
    v
}

/// The truth values themselves.
pub open spec fn truth_values(s: SymbolsV) -> SymbolsV {
    let e = EntryV::Const(ST::Bool, None);
    s.push(("true"@, e)).push(("false"@, e)).push(("TRUE"@, e)).push(("FALSE"@, e))
}

fn add_truth_values(v: Vec<(String, Entry)>) -> (r: Vec<(String, Entry)>)
    ensures
        symbol_views(r@) == truth_values(symbol_views(v@)),
{
    let e = Entry::Const(SemType::Bool, None);
    let v = add_entry(v, own("true"), e.clone());
    let v = add_entry(v, own("false"), e.clone());
    let v = add_entry(v, own("TRUE"), e.clone());
    let v = add_entry(v, own("FALSE"), e.clone());
    v
}

/// Operations on two numbers.
pub open spec fn number_operations(s: SymbolsV) -> SymbolsV {
    let e = EntryV::Const(fun2_sem(ST::Number, ST::Number, ST::Number), None);
    s.push(("max"@, e)).push(("min"@, e)).push(("exp"@, e))
}

fn add_number_operations(v: Vec<(String, Entry)>) -> (r: Vec<(String, Entry)>)
    ensures
        symbol_views(r@) == number_operations(symbol_views(v@)),
{
    let e = Entry::Const(fun2(SemType::Number, SemType::Number, SemType::Number), None);
    let v = add_entry(v, own("max"), e.clone());
    let v = add_entry(v, own("min"), e.clone());
    let v = add_entry(v, own("exp"), e.clone());
    v
}

/// Further connectives.
pub open spec fn further_connectives(s: SymbolsV) -> SymbolsV {
    let e = EntryV::Const(fun2_sem(ST::Bool, ST::Bool, ST::Bool), None);
    s.push(("nor"@, e)).push(("nand"@, e)).push(("xnor"@, e))
}

fn add_further_connectives(v: Vec<(String, Entry)>) -> (r: Vec<(String, Entry)>)
    ensures
        symbol_views(r@) == further_connectives(symbol_views(v@)),
{
    let e = Entry::Const(fun2(SemType::Bool, SemType::Bool, SemType::Bool), None);
    let v = add_entry(v, own("nor"), e.clone());
    let v = add_entry(v, own("nand"), e.clone());
    let v = add_entry(v, own("xnor"), e.clone());
    v
}

/// Tests of numbers.
pub open spec fn number_tests(s: SymbolsV) -> SymbolsV {
    let e = EntryV::Const(fun_sem(ST::Number, ST::Bool), None);
    s.push(("real_pred?"@, e)).push(("int_pred?"@, e)).push(("nat_pred?"@, e))
}

fn add_number_tests(v: Vec<(String, Entry)>) -> (r: Vec<(String, Entry)>)
    ensures
        symbol_views(r@) == number_tests(symbol_views(v@)),
{
    let e = Entry::Const(fun_type(SemType::Number, SemType::Bool), None);
    let v = add_entry(v, own("real_pred?"), e.clone());
    let v = add_entry(v, own("int_pred?"), e.clone());
    let v = add_entry(v, own("nat_pred?"), e.clone());
    v
}

/// Sets of numbers with a bound.
pub open spec fn bounded_sets(s: SymbolsV) -> SymbolsV {
    let e = EntryV::Const(fun_sem(ST::Number, fun_sem(ST::Number, ST::Bool)), None);
    s.push(("up_to"@, e)).push(("below"@, e)).push(("above"@, e))
}

fn add_bounded_sets(v: Vec<(String, Entry)>) -> (r: Vec<(String, Entry)>)
    ensures
        symbol_views(r@) == bounded_sets(symbol_views(v@)),
{
    let e = Entry::Const(fun_type(SemType::Number, fun_type(SemType::Number, SemType::Bool)), None);
    let v = add_entry(v, own("up_to"), e.clone());
    let v = add_entry(v, own("below"), e.clone());
    let v = add_entry(v, own("above"), e.clone());
    v
}

/// Temporal operators of one argument.
pub open spec fn unary_temporal(s: SymbolsV) -> SymbolsV {
    let e = EntryV::Const(fun_sem(ST::Bool, ST::Bool), None);
    s.push(("X"@, e)).push(("G"@, e)).push(("F"@, e))
}

fn add_unary_temporal(v: Vec<(String, Entry)>) -> (r: Vec<(String, Entry)>)
    ensures
        symbol_views(r@) == unary_temporal(symbol_views(v@)),
{
    let e = Entry::Const(fun_type(SemType::Bool, SemType::Bool), None);
    let v = add_entry(v, own("X"), e.clone());
    let v = add_entry(v, own("G"), e.clone());
    let v = add_entry(v, own("F"), e.clone());
    v
}

/// Temporal operators of two arguments.
pub open spec fn binary_temporal(s: SymbolsV) -> SymbolsV {
    let e = EntryV::Const(fun2_sem(ST::Bool, ST::Bool, ST::Bool), None);
    s.push(("W"@, e)).push(("M"@, e)).push(("R"@, e)).push(("U"@, e))
}

fn add_binary_temporal(v: Vec<(String, Entry)>) -> (r: Vec<(String, Entry)>)
    ensures
        symbol_views(r@) == binary_temporal(symbol_views(v@)),
{
    let e = Entry::Const(fun2(SemType::Bool, SemType::Bool, SemType::Bool), None);
    let v = add_entry(v, own("W"), e.clone());
    let v = add_entry(v, own("M"), e.clone());
    let v = add_entry(v, own("R"), e.clone());
    let v = add_entry(v, own("U"), e.clone());
    v
}

/// Branching-time operators of one argument.
pub open spec fn unary_branching(s: SymbolsV) -> SymbolsV {
    let e = EntryV::Const(fun_sem(ST::Bool, ST::Bool), None);
    s.push(("EX"@, e)).push(("AX"@, e)).push(("EG"@, e)).push(("AG"@, e)).push(("EF"@, e)).push(("AF"@, e))
}

fn add_unary_branching(v: Vec<(String, Entry)>) -> (r: Vec<(String, Entry)>)
    ensures
        symbol_views(r@) == unary_branching(symbol_views(v@)),
{
    let e = Entry::Const(fun_type(SemType::Bool, SemType::Bool), None);
    let v = add_entry(v, own("EX"), e.clone());
    let v = add_entry(v, own("AX"), e.clone());
    let v = add_entry(v, own("EG"), e.clone());
    let v = add_entry(v, own("AG"), e.clone());
    let v = add_entry(v, own("EF"), e.clone());
    let v = add_entry(v, own("AF"), e.clone());
    v
}

/// Branching-time operators of two arguments.
pub open spec fn binary_branching(s: SymbolsV) -> SymbolsV {
    let e = EntryV::Const(fun2_sem(ST::Bool, ST::Bool, ST::Bool), None);
    s.push(("EU"@, e)).push(("AU"@, e)).push(("ER"@, e)).push(("AR"@, e))
}

fn add_binary_branching(v: Vec<(String, Entry)>) -> (r: Vec<(String, Entry)>)
    ensures
        symbol_views(r@) == binary_branching(symbol_views(v@)),
{
    let e = Entry::Const(fun2(SemType::Bool, SemType::Bool, SemType::Bool), None);
    let v = add_entry(v, own("EU"), e.clone());
    let v = add_entry(v, own("AU"), e.clone());
    let v = add_entry(v, own("ER"), e.clone());
    let v = add_entry(v, own("AR"), e.clone());
    v
}

/// The acceptance operator.
pub open spec fn acceptance(s: SymbolsV) -> SymbolsV {
    let e = EntryV::Const(fun_sem(ST::Bool, ST::Bool), None);
    s.push(("accepting"@, e))
}

fn add_acceptance(v: Vec<(String, Entry)>) -> (r: Vec<(String, Entry)>)
    ensures
        symbol_views(r@) == acceptance(symbol_views(v@)),
{
    let e = Entry::Const(fun_type(SemType::Bool, SemType::Bool), None);
    let v = add_entry(v, own("accepting"), e.clone());
    v
}

/// Ring operations, and printing.
pub open spec fn ring_operations(s: SymbolsV) -> SymbolsV {
    let e = EntryV::Const(fun_sem(ST::Any, ST::Any), None);
    s.push(("rpred"@, e)).push(("rsucc"@, e)).push(("dbg_print"@, e)).push(("dbg_expr"@, e))
}

fn add_ring_operations(v: Vec<(String, Entry)>) -> (r: Vec<(String, Entry)>)
    ensures
        symbol_views(r@) == ring_operations(symbol_views(v@)),
{
    let e = Entry::Const(fun_type(SemType::Any, SemType::Any), None);
    let v = add_entry(v, own("rpred"), e.clone());
    let v = add_entry(v, own("rsucc"), e.clone());
    let v = add_entry(v, own("dbg_print"), e.clone());
    let v = add_entry(v, own("dbg_expr"), e.clone());
    v
}

/// What the names of the prelude stand for.
pub open spec fn prelude_symbols() -> SymbolsV {
    ring_operations(acceptance(binary_branching(unary_branching(binary_temporal(unary_temporal(bounded_sets(number_tests(further_connectives(number_operations(truth_values(text_types(number_types(top_type(truth_types(Seq::empty())))))))))))))))
}

/// The prelude.
pub open spec fn prelude_inst() -> InstV {
    InstV {
        name: "prelude"@,
        key: "prelude"@,
        bindings: Seq::empty(),
        from: 0,
        symbols: prelude_symbols(),
        open: false,
    }
}

/// Builds the prelude.
pub fn build() -> (r: Instance)
    ensures
        r.model() == prelude_inst(),
{
    let v = no_entries();
    let v = add_truth_types(v);
    let v = add_top_type(v);
    let v = add_number_types(v);
    let v = add_text_types(v);
    let v = add_truth_values(v);
    let v = add_number_operations(v);
    let v = add_further_connectives(v);
    let v = add_number_tests(v);
    let v = add_bounded_sets(v);
    let v = add_unary_temporal(v);
    let v = add_binary_temporal(v);
    let v = add_unary_branching(v);
    let v = add_binary_branching(v);
    let v = add_acceptance(v);
    let v = add_ring_operations(v);
    let bindings: Vec<(String, Binding)> = Vec::new();
    assert(binding_views(bindings@) =~= Seq::empty());
    Instance { name: own("prelude"), key: own("prelude"), bindings, from: 0, symbols: v, open: false }
}

} // verus!
