//! Paths as they are shown.

use crate::explicit::Path;
use crate::fexpr::{LeafInfo, LeafType, LT};
use crate::flat::State;
use crate::num::{dec, Int};
use crate::text::{own, put, views};
use crate::value::{models, val_text, Val, Value};
use vstd::prelude::*;

verus! {

/// A value of a leaf: an element by its name, any other value by its printed form.
pub open spec fn leaf_text(t: LT, v: Val) -> Seq<char> {
    match (v, t) {
        (Val::Scalar(_id, i), LT::Scalar(_a, es)) => if i < es.len() {
            es[i as int]
        } else {
            val_text(v)
        },
        _ => val_text(v),
    }
}

/// Shows a value of a leaf.
pub fn display_leaf(leaf: &LeafInfo, v: &Value) -> (r: String)
    ensures
        r@ == leaf_text(leaf.ty@, v.model()),
{
    match (v, &leaf.ty) {
        (Value::Scalar(_id, i), LeafType::Scalar(_a, es)) => {
            if *i < es.len() {
                assert(views(es@)[*i as int] == es@[*i as int]@);
                es[*i].clone()
            } else {
                v.text()
            }
        },
        _ => v.text(),
    }
}

/// The names and types of leaves.
pub open spec fn leaf_names(ls: Seq<LeafInfo>) -> Seq<(Seq<char>, LT)> {
    Seq::new(ls.len(), |i: int| (ls[i].name@, ls[i].ty@))
}

/// The values of leaf `l` and those behind it, one in each line.
pub open spec fn state_text(out: Seq<char>, ls: Seq<(Seq<char>, LT)>, s: State, l: int) -> Seq<char>
    decreases s.len() - l,
{
    if l < 0 || l >= s.len() || l >= ls.len() {
        out
    } else {
        state_text(out + ls[l].0 + " = "@ + leaf_text(ls[l].1, s[l]) + "\n"@, ls, s, l + 1)
    }
}

fn put_state(out: &mut String, ls: &Vec<LeafInfo>, s: &Vec<Value>)
    ensures
        final(out)@ == state_text(old(out)@, leaf_names(ls@), models(s@), 0),
{
    let mut l: usize = 0;
    while l < s.len() && l < ls.len()
        invariant
            l <= s@.len(),
            l <= ls@.len(),
            state_text(out@, leaf_names(ls@), models(s@), l as int) == state_text(
                old(out)@,
                leaf_names(ls@),
                models(s@),
                0,
            ),
        decreases s.len() - l,
    {
        assert(leaf_names(ls@)[l as int] == (ls@[l as int].name@, ls@[l as int].ty@));
        assert(models(s@)[l as int] == s@[l as int].model());
        put(out, ls[l].name.as_str());
        put(out, " = ");
        put(out, display_leaf(&ls[l], &s[l]).as_str());
        put(out, "\n");
        l += 1;
    }
}

/// A line under a heading.
pub open spec fn rule() -> Seq<char> {
    "========================\n"@
}

/// What stands before the steps of a path.
pub open spec fn heading(header: Seq<char>) -> Seq<char> {
    header + "\n"@ + rule() + "Path\n"@ + rule()
}

fn put_heading(header: &str) -> (r: String)
    ensures
        r@ == heading(header@),
{
    let mut out = own(header);
    put(&mut out, "\n");
    put(&mut out, "========================\n");
    put(&mut out, "Path\n");
    put(&mut out, "========================\n");
    out
}

/// One step: its number and the values of the leaves.
pub open spec fn step_text(out: Seq<char>, ls: Seq<(Seq<char>, LT)>, s: State, i: int) -> Seq<char> {
    state_text(
        out + "Step "@ + dec(i) + ":\n"@ + "--- System Variables (assignments) ---\n"@,
        ls,
        s,
        0,
    ) + "------------------------\n"@
}

fn put_step(out: &mut String, ls: &Vec<LeafInfo>, s: &Vec<Value>, i: usize)
    ensures
        final(out)@ == step_text(old(out)@, leaf_names(ls@), models(s@), i as int),
{
    put(out, "Step ");
    put(out, Int::from_u64(i as u64).text().as_str());
    put(out, ":\n");
    put(out, "--- System Variables (assignments) ---\n");
    put_state(out, ls, s);
    put(out, "------------------------\n");
}

/// The steps from `i` on.
pub open spec fn steps_text(out: Seq<char>, ls: Seq<(Seq<char>, LT)>, p: Seq<State>, i: int) -> Seq<char>
    decreases p.len() - i,
{
    if i < 0 || i >= p.len() {
        out
    } else {
        steps_text(step_text(out, ls, p[i], i), ls, p, i + 1)
    }
}

/// The contents of states.
pub open spec fn path_models(v: Seq<Vec<Value>>) -> Seq<State> {
    Seq::new(v.len(), |i: int| models(v[i]@))
}

/// A path of states as text.
pub fn print_states(ls: &Vec<LeafInfo>, states: &Vec<Vec<Value>>, header: &str) -> (r: String)
    ensures
        r@ == steps_text(heading(header@), leaf_names(ls@), path_models(states@), 0),
{
    let mut out = put_heading(header);
    let ghost start = out@;
    let ghost p = path_models(states@);
    let mut i: usize = 0;
    while i < states.len()
        invariant
            i <= states@.len(),
            p == path_models(states@),
            steps_text(out@, leaf_names(ls@), p, i as int) == steps_text(start, leaf_names(ls@), p, 0),
        decreases states.len() - i,
    {
        assert(p[i as int] == models(states@[i as int]@));
        put_step(&mut out, ls, &states[i], i);
        i += 1;
    }
    out
}

/// What led to a state, where it has a name.
pub open spec fn label_text(out: Seq<char>, label: Option<Seq<char>>) -> Seq<char> {
    match label {
        Some(l) => if l.len() > 0 {
            out + "Transition Information: \n"@ + "(label "@ + l + ")\n"@ + "------------------------\n"@
        } else {
            out
        },
        None => out,
    }
}

/// The content of a label.
pub open spec fn opt_view(l: Option<String>) -> Option<Seq<char>> {
    match l {
        Some(s) => Some(s@),
        None => None,
    }
}

fn put_label(out: &mut String, label: &Option<String>)
    ensures
        final(out)@ == label_text(old(out)@, opt_view(*label)),
{
    match label {
        Some(l) => {
            let none = own("");
            proof {
                reveal_strlit("");
                if l@.len() == 0 {
                    assert(l@ =~= none@);
                }
            }
            if !(*l == none) {
                put(out, "Transition Information: \n");
                put(out, "(label ");
                put(out, l.as_str());
                put(out, ")\n");
                put(out, "------------------------\n");
            }
        },
        None => {},
    }
}

/// The steps from `i` on, each with what led to it.
pub open spec fn labelled_text(
    out: Seq<char>,
    ls: Seq<(Seq<char>, LT)>,
    p: Seq<(State, Option<Seq<char>>)>,
    i: int,
) -> Seq<char>
    decreases p.len() - i,
{
    if i < 0 || i >= p.len() {
        out
    } else {
        labelled_text(label_text(step_text(out, ls, p[i].0, i), p[i].1), ls, p, i + 1)
    }
}

/// The contents of labelled states.
pub open spec fn labelled(v: Seq<(Vec<Value>, Option<String>)>) -> Seq<(State, Option<Seq<char>>)> {
    Seq::new(v.len(), |i: int| (models(v[i].0@), opt_view(v[i].1)))
}

/// A path as text, each state with what led to it.
pub fn print_path(ls: &Vec<LeafInfo>, path: &Path, header: &str) -> (r: String)
    ensures
        r@ == labelled_text(heading(header@), leaf_names(ls@), labelled(path.steps@), 0),
{
    let mut out = put_heading(header);
    let ghost start = out@;
    let ghost p = labelled(path.steps@);
    let mut i: usize = 0;
    while i < path.steps.len()
        invariant
            i <= path.steps@.len(),
            p == labelled(path.steps@),
            labelled_text(out@, leaf_names(ls@), p, i as int) == labelled_text(start, leaf_names(ls@), p, 0),
        decreases path.steps.len() - i,
    {
        assert(p[i as int] == (models(path.steps@[i as int].0@), opt_view(path.steps@[i as int].1)));
        put_step(&mut out, ls, &path.steps[i].0, i);
        put_label(&mut out, &path.steps[i].1);
        i += 1;
    }
    out
}

} // verus!
