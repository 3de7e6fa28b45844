//! Static variable orders.
//!
//! The base modules of a composition are arranged so that few variables cross from one part of the
//! arrangement to the other. Each variable of a module comes after the inputs that its next value
//! depends on; variables that many others read, and that read few, come first.

use crate::arrange::{
    arrange_in_pairs, arrange_singly, as_composed, by_weight, communication, composed_order, dependency_graph,
    depends, in_pairs, is_perm, opt_index, owner, parts_of, singly, sort_by_weight, tabulates, weighs, weights,
    Comm, Parts,
};
use crate::ast::VarClass;
use crate::fexpr::{LeafId, LeafInfo};
use crate::flat::{FlatModule, Sys};
use crate::lexer::characters;
use crate::text::{own, put, same};
use vstd::prelude::*;

verus! {

/// How the order is chosen.
#[derive(Clone, Copy, Debug, PartialEq, Eq, Structural)]
pub enum StaticOrder {
    /// The order of declaration.
    Declared,
    /// The modules as they are composed.
    Simple,
    /// Modules arranged for few inputs across each cut.
    MinSupp,
    /// The same, two modules at a time.
    MinSupp2,
    /// Modules arranged for little communication across each cut.
    MinComm,
    /// The same, two modules at a time.
    MinComm2,
}

/// The order that a name stands for.
pub open spec fn order_named(s: Seq<char>) -> Option<StaticOrder> {
    if s == "none"@ {
        Some(StaticOrder::Declared)
    } else if s == "simple"@ {
        Some(StaticOrder::Simple)
    } else if s == "min-supp"@ {
        Some(StaticOrder::MinSupp)
    } else if s == "min-supp2"@ {
        Some(StaticOrder::MinSupp2)
    } else if s == "min-comm"@ {
        Some(StaticOrder::MinComm)
    } else if s == "min-comm2"@ {
        Some(StaticOrder::MinComm2)
    } else {
        None
    }
}

impl StaticOrder {
    /// The order that a name stands for.
    pub fn parse(s: &str) -> (r: Option<StaticOrder>)
        ensures
            r == order_named(s@),
    {
        if same(s, "none") {
            Some(StaticOrder::Declared)
        } else if same(s, "simple") {
            Some(StaticOrder::Simple)
        } else if same(s, "min-supp") {
            Some(StaticOrder::MinSupp)
        } else if same(s, "min-supp2") {
            Some(StaticOrder::MinSupp2)
        } else if same(s, "min-comm") {
            Some(StaticOrder::MinComm)
        } else if same(s, "min-comm2") {
            Some(StaticOrder::MinComm2)
        } else {
            None
        }
    }
}

/// Each number below `n` occurs exactly once.
pub open spec fn is_order(v: Seq<LeafId>, n: nat) -> bool {
    &&& v.len() == n
    &&& forall|i: int| 0 <= i < v.len() ==> (#[trigger] v[i]) < n
    &&& forall|i: int, j: int| 0 <= i < j < v.len() ==> #[trigger] v[i] != #[trigger] v[j]
}

fn flags(n: usize, b: bool) -> (r: Vec<bool>)
    ensures
        r@.len() == n,
        forall|i: int| 0 <= i < n ==> #[trigger] r@[i] == b,
{
    let mut out: Vec<bool> = Vec::new();
    let mut i: usize = 0;
    while i < n
        invariant
            i <= n,
            out@.len() == i,
            forall|k: int| 0 <= k < i ==> #[trigger] out@[k] == b,
        decreases n - i,
    {
        out.push(b);
        i += 1;
    }
    out
}

/// Places a leaf, unless it is placed.
fn place(order: &mut Vec<LeafId>, placed: &mut Vec<bool>, l: LeafId)
    requires
        partial_order(old(order)@, old(placed)@),
        l < old(placed)@.len(),
    ensures
        partial_order(final(order)@, final(placed)@),
        final(placed)@.len() == old(placed)@.len(),
        final(placed)@[l as int],
        forall|i: int| 0 <= i < old(placed)@.len() && old(placed)@[i] ==> #[trigger] final(placed)@[i],
        final(order)@ == (if old(order)@.contains(l) {
            old(order)@
        } else {
            old(order)@.push(l)
        }),
{
    let i: usize = l as usize;
    assert(placed@[i as int] == order@.contains(l));
    if !placed[i] {
        let ghost o = order@;
        let ghost p = placed@;
        placed.set(i, true);
        order.push(l);
        proof {
            assert forall|k: int| 0 <= k < placed@.len() implies #[trigger] placed@[k]
                == order@.contains(k as LeafId) by {
                if k == i {
                    assert(order@[o.len() as int] == l);
                } else {
                    if p[k] {
                        let j = choose|j: int| 0 <= j < o.len() && o[j] == k as LeafId;
                        assert(order@[j] == k as LeafId);
                    }
                    if order@.contains(k as LeafId) {
                        let j = choose|j: int| 0 <= j < order@.len() && order@[j] == k as LeafId;
                        assert(j < o.len());
                        assert(o[j] == k as LeafId);
                    }
                }
            }
            assert forall|a: int, b: int| 0 <= a < b < order@.len() implies #[trigger] order@[a] != #[trigger] order@[b] by {
                if b == o.len() && order@[a] == l {
                    assert(o[a] == l);
                    assert(o.contains(l));
                }
            }
        }
    }
}

/// The leaves of the order are those that are marked, each once.
spec fn partial_order(v: Seq<LeafId>, placed: Seq<bool>) -> bool {
    &&& placed.len() <= u32::MAX + 1
    &&& forall|i: int| 0 <= i < v.len() ==> (#[trigger] v[i]) < placed.len()
    &&& forall|i: int, j: int| 0 <= i < j < v.len() ==> #[trigger] v[i] != #[trigger] v[j]
    &&& forall|k: int| 0 <= k < placed.len() ==> #[trigger] placed[k] == v.contains(k as LeafId)
}

/// A list that has every leaf once is as long as there are leaves.
proof fn complete_order(v: Seq<LeafId>, placed: Seq<bool>)
    requires
        partial_order(v, placed),
        forall|k: int| 0 <= k < placed.len() ==> #[trigger] placed[k],
    ensures
        is_order(v, placed.len()),
{
    let n = placed.len();
    let ids = Seq::new(n, |i: int| i as LeafId);
    assert(v.no_duplicates()) by {
        assert forall|i: int, j: int| 0 <= i < v.len() && 0 <= j < v.len() && i != j implies v[i] != v[j] by {
            if i < j {
                assert(v[i] != v[j]);
            } else {
                assert(v[j] != v[i]);
            }
        }
    }
    assert(ids.no_duplicates()) by {
        assert forall|i: int, j: int| 0 <= i < n && 0 <= j < n && i != j implies ids[i] != ids[j] by {
            assert(ids[i] as int == i && ids[j] as int == j);
        }
    }
    assert(v.to_set() =~= ids.to_set()) by {
        assert forall|x: LeafId| v.to_set().contains(x) == ids.to_set().contains(x) by {
            if v.contains(x) {
                let i = choose|i: int| 0 <= i < v.len() && v[i] == x;
                assert(v[i] < n);
                assert(ids[x as int] == x);
            }
            if ids.contains(x) {
                let i = choose|i: int| 0 <= i < n && ids[i] == x;
                assert(placed[i]);
            }
        }
    }
    v.unique_seq_to_set();
    ids.unique_seq_to_set();
}

fn all_leaves(n: usize) -> (r: Vec<LeafId>)
    requires
        n <= u32::MAX,
    ensures
        is_order(r@, n as nat),
        forall|i: int| 0 <= i < n ==> #[trigger] r@[i] == i,
{
    let mut out: Vec<LeafId> = Vec::new();
    let mut i: usize = 0;
    while i < n
        invariant
            i <= n <= u32::MAX,
            out@.len() == i,
            forall|k: int| 0 <= k < i ==> #[trigger] out@[k] == k,
        decreases n - i,
    {
        out.push(i as LeafId);
        i += 1;
    }
    out
}

/// The leaf is an input or a global variable, which modules share.
pub open spec fn is_shared(ls: Seq<LeafInfo>, l: int) -> bool {
    ls[l].class == VarClass::Input || ls[l].class == VarClass::Global
}

/// The leaves below `l` that the next value of `x` depends on, that are shared and not yet placed.
pub open spec fn wanted(sys: Sys, ls: Seq<LeafInfo>, order: Seq<LeafId>, x: LeafId, l: int) -> Seq<LeafId>
    decreases l,
{
    if l <= 0 {
        Seq::empty()
    } else {
        let s = wanted(sys, ls, order, x, l - 1);
        let id = (l - 1) as LeafId;
        if depends(sys, x, id) && id != x && !order.contains(id) && is_shared(ls, l - 1) {
            s.push(id)
        } else {
            s
        }
    }
}

/// The leaves placed, with `x` behind what it depends on, unless it is placed.
pub open spec fn with_leaf(sys: Sys, ls: Seq<LeafInfo>, order: Seq<LeafId>, x: LeafId) -> Seq<LeafId> {
    if order.contains(x) {
        order
    } else {
        let u = wanted(sys, ls, order, x, ls.len() as int);
        with_new(with_new(order, by_weight(sys, u, u.len() as int), 0), seq![x], 0)
    }
}

/// The leaves placed, with those of `xs` from number `k` on.
pub open spec fn with_leaves(sys: Sys, ls: Seq<LeafInfo>, order: Seq<LeafId>, xs: Seq<LeafId>, k: int) -> Seq<LeafId>
    decreases xs.len() - k,
{
    if k < 0 || k >= xs.len() {
        order
    } else {
        with_leaves(sys, ls, with_leaf(sys, ls, order, xs[k]), xs, k + 1)
    }
}

/// The leaves below `l` that the module owns.
pub open spec fn owned_by(ps: Parts, c: int, l: int) -> Seq<LeafId>
    decreases l,
{
    if l <= 0 {
        Seq::empty()
    } else if owner(ps, (l - 1) as LeafId, 0) == Some(c) {
        owned_by(ps, c, l - 1).push((l - 1) as LeafId)
    } else {
        owned_by(ps, c, l - 1)
    }
}

/// The leaves of the modules from place `i` of an arrangement on, behind those placed: of each module the leaves that it
/// owns, by weight.
pub open spec fn laid_out(
    sys: Sys,
    ls: Seq<LeafInfo>,
    ps: Parts,
    perm: Seq<usize>,
    i: int,
    order: Seq<LeafId>,
) -> Seq<LeafId>
    decreases perm.len() - i,
{
    if i < 0 || i >= perm.len() {
        order
    } else {
        let xs = owned_by(ps, perm[i] as int, ls.len() as int);
        laid_out(
            sys,
            ls,
            ps,
            perm,
            i + 1,
            with_leaves(sys, ls, order, by_weight(sys, xs, xs.len() as int), 0),
        )
    }
}

/// The leaves below `l` that are not placed.
pub open spec fn unplaced(order: Seq<LeafId>, l: int) -> Seq<LeafId>
    decreases l,
{
    if l <= 0 {
        Seq::empty()
    } else if order.contains((l - 1) as LeafId) {
        unplaced(order, l - 1)
    } else {
        unplaced(order, l - 1).push((l - 1) as LeafId)
    }
}

/// The arrangement of the modules that a strategy asks for.
pub open spec fn arrangement(ps: Parts, n: nat, strategy: StaticOrder) -> Seq<usize> {
    let v = as_composed(ps.len());
    match strategy {
        StaticOrder::MinSupp => singly(ps, n, false, v, 0),
        StaticOrder::MinSupp2 => in_pairs(ps, n, false, v, 0),
        StaticOrder::MinComm => singly(ps, n, true, v, 0),
        StaticOrder::MinComm2 => in_pairs(ps, n, true, v, 0),
        _ => v,
    }
}

/// The order of the leaves: first, by weight, those that the layout of the modules leaves out, then the layout.
pub open spec fn static_order(sys: Sys, ls: Seq<LeafInfo>, ps: Parts, strategy: StaticOrder) -> Seq<LeafId> {
    if strategy == StaticOrder::Declared || ps.len() == 0 {
        declared(ls.len())
    } else {
        let order = laid_out(sys, ls, ps, arrangement(ps, ls.len(), strategy), 0, Seq::empty());
        let rest = unplaced(order, ls.len() as int);
        with_new(
            with_new(with_new(Seq::empty(), by_weight(sys, rest, rest.len() as int), 0), order, 0),
            declared(ls.len()),
            0,
        )
    }
}

fn list_wanted(
    flat: &FlatModule,
    deps: &Vec<Vec<bool>>,
    placed: &Vec<bool>,
    x: LeafId,
    Ghost(order): Ghost<Seq<LeafId>>,
) -> (r: Vec<LeafId>)
    requires
        tabulates(deps@, flat.sys()),
        partial_order(order, placed@),
        placed@.len() == flat.leaves@.len() <= u32::MAX,
        x < flat.leaves@.len(),
    ensures
        r@ == wanted(flat.sys(), flat.leaves@, order, x, flat.leaves@.len() as int),
        forall|j: int| 0 <= j < r@.len() ==> (#[trigger] r@[j]) < flat.leaves@.len(),
{
    let ghost sys = flat.sys();
    let n: usize = flat.leaves.len();
    let mut used: Vec<LeafId> = Vec::new();
    let mut l: usize = 0;
    assert(used@ =~= wanted(sys, flat.leaves@, order, x, 0));
    while l < n
        invariant
            l <= n,
            n == flat.leaves@.len() <= u32::MAX,
            x < n,
            sys == flat.sys(),
            sys.leaves.len() == n,
            tabulates(deps@, sys),
            partial_order(order, placed@),
            placed@.len() == n,
            used@ == wanted(sys, flat.leaves@, order, x, l as int),
            forall|j: int| 0 <= j < used@.len() ==> (#[trigger] used@[j]) < n,
        decreases n - l,
    {
        assert(deps@[x as int]@[l as int] == depends(sys, x, l as LeafId));
        assert(placed@[l as int] == order.contains(l as LeafId));
        let shared = flat.leaves[l].class == VarClass::Input || flat.leaves[l].class == VarClass::Global;
        if deps[x as usize][l] && l != x as usize && !placed[l] && shared {
            used.push(l as LeafId);
        }
        l += 1;
    }
    used
}

fn list_owned(comm: &Comm, c: usize, Ghost(ps): Ghost<Parts>, Ghost(n): Ghost<nat>) -> (r: Vec<LeafId>)
    requires
        comm.tells(ps, n),
    ensures
        r@ == owned_by(ps, c as int, n as int),
        forall|j: int| 0 <= j < r@.len() ==> (#[trigger] r@[j]) < n,
{
    let mut mine: Vec<LeafId> = Vec::new();
    let mut l: usize = 0;
    assert(mine@ =~= owned_by(ps, c as int, 0));
    while l < comm.owner.len()
        invariant
            comm.tells(ps, n),
            l <= n == comm.owner@.len(),
            mine@ == owned_by(ps, c as int, l as int),
            forall|j: int| 0 <= j < mine@.len() ==> (#[trigger] mine@[j]) < n,
        decreases n - l,
    {
        assert(opt_index(comm.owner@[l as int]) == owner(ps, l as LeafId, 0));
        match comm.owner[l] {
            Some(o) => {
                if o == c {
                    mine.push(l as LeafId);
                }
            },
            None => {},
        }
        l += 1;
    }
    mine
}

fn list_unplaced(placed: &Vec<bool>, Ghost(order): Ghost<Seq<LeafId>>) -> (r: Vec<LeafId>)
    requires
        partial_order(order, placed@),
        placed@.len() <= u32::MAX,
    ensures
        r@ == unplaced(order, placed@.len() as int),
        forall|j: int| 0 <= j < r@.len() ==> (#[trigger] r@[j]) < placed@.len(),
{
    let mut rest: Vec<LeafId> = Vec::new();
    let mut l: usize = 0;
    assert(rest@ =~= unplaced(order, 0));
    while l < placed.len()
        invariant
            l <= placed@.len() <= u32::MAX,
            partial_order(order, placed@),
            rest@ == unplaced(order, l as int),
            forall|j: int| 0 <= j < rest@.len() ==> (#[trigger] rest@[j]) < placed@.len(),
        decreases placed.len() - l,
    {
        assert(placed@[l as int] == order.contains(l as LeafId));
        if !placed[l] {
            rest.push(l as LeafId);
        }
        l += 1;
    }
    rest
}

fn arrange(comm: &Comm, m: usize, strategy: StaticOrder, Ghost(ps): Ghost<Parts>, Ghost(n): Ghost<nat>) -> (r: Vec<usize>)
    requires
        comm.tells(ps, n),
        m == ps.len(),
    ensures
        r@ == arrangement(ps, n, strategy),
        is_perm(r@, m as nat),
{
    match strategy {
        StaticOrder::MinSupp => arrange_singly(comm, m, false, Ghost(ps), Ghost(n)),
        StaticOrder::MinSupp2 => arrange_in_pairs(comm, m, false, Ghost(ps), Ghost(n)),
        StaticOrder::MinComm => arrange_singly(comm, m, true, Ghost(ps), Ghost(n)),
        StaticOrder::MinComm2 => arrange_in_pairs(comm, m, true, Ghost(ps), Ghost(n)),
        _ => composed_order(m),
    }
}

fn one_leaf(x: LeafId) -> (r: Vec<LeafId>)
    ensures
        r@ == seq![x],
{
    let mut v: Vec<LeafId> = Vec::new();
    v.push(x);
    assert(v@ =~= seq![x]);
    v
}

/// The order of the leaves that a strategy asks for. Every leaf occurs in it exactly once.
pub fn compute_order(flat: &FlatModule, strategy: StaticOrder) -> (r: Vec<LeafId>)
    requires
        flat.leaves@.len() <= u32::MAX,
    ensures
        r@ == static_order(flat.sys(), flat.leaves@, parts_of(flat.components@), strategy),
        is_order(r@, flat.leaves@.len()),
{
    let ghost sys = flat.sys();
    let ghost ls = flat.leaves@;
    let ghost ps = parts_of(flat.components@);
    let n: usize = flat.leaves.len();
    let m: usize = flat.components.len();
    let all = all_leaves(n);
    assert(all@ =~= declared(n as nat));
    if strategy == StaticOrder::Declared || m == 0 {
        return all;
    }
    let deps = dependency_graph(flat);
    let w = weights(&deps, Ghost(sys));
    let comm = communication(&flat.components, n);
    let ghost nn = n as nat;
    let perm = arrange(&comm, m, strategy, Ghost(ps), Ghost(nn));
    let mut placed = flags(n, false);
    let mut order: Vec<LeafId> = Vec::new();
    let mut i: usize = 0;
    assert(order@ =~= Seq::empty());
    while i < perm.len()
        invariant
            i <= perm@.len(),
            is_perm(perm@, m as nat),
            m == ps.len(),
            sys == flat.sys(),
            ls == flat.leaves@,
            n == ls.len() <= u32::MAX,
            nn == n,
            sys.leaves.len() == n,
            comm.tells(ps, n as nat),
            weighs(w@, sys),
            tabulates(deps@, sys),
            placed@.len() == n,
            partial_order(order@, placed@),
            laid_out(sys, ls, ps, perm@, i as int, order@) == laid_out(sys, ls, ps, perm@, 0, Seq::empty()),
        decreases perm.len() - i,
    {
        let mine = list_owned(&comm, perm[i], Ghost(ps), Ghost(nn));
        let sorted = sort_by_weight(&mine, &w, Ghost(sys));
        let ghost o0 = order@;
        let mut k: usize = 0;
        while k < sorted.len()
            invariant
                k <= sorted@.len(),
                sys == flat.sys(),
                ls == flat.leaves@,
                n == ls.len() <= u32::MAX,
                sys.leaves.len() == n,
                forall|j: int| 0 <= j < sorted@.len() ==> (#[trigger] sorted@[j]) < n,
                weighs(w@, sys),
                tabulates(deps@, sys),
                placed@.len() == n,
                partial_order(order@, placed@),
                with_leaves(sys, ls, order@, sorted@, k as int) == with_leaves(sys, ls, o0, sorted@, 0),
            decreases sorted.len() - k,
        {
            let x = sorted[k];
            assert(placed@[x as int] == order@.contains(x));
            if !placed[x as usize] {
                let used = list_wanted(flat, &deps, &placed, x, Ghost(order@));
                let used = sort_by_weight(&used, &w, Ghost(sys));
                place_new(&mut order, &mut placed, &used);
                let one = one_leaf(x);
                place_new(&mut order, &mut placed, &one);
            }
            k += 1;
        }
        i += 1;
    }
    let rest = list_unplaced(&placed, Ghost(order@));
    let rest = sort_by_weight(&rest, &w, Ghost(sys));
    let mut seen = flags(n, false);
    let mut result: Vec<LeafId> = Vec::new();
    assert(result@ =~= Seq::empty());
    place_new(&mut result, &mut seen, &rest);
    place_new(&mut result, &mut seen, &order);
    place_new(&mut result, &mut seen, &all);
    proof {
        assert forall|k: int| 0 <= k < n implies #[trigger] seen@[k] by {
            assert(all@[k] == k);
        }
        complete_order(result@, seen@);
    }
    result
}

/// A character between words of an order file.
pub open spec fn is_gap(c: char) -> bool {
    ||| c == '(' || c == ')' || c == ' ' || '\t' <= c <= '\r' || c == '\u{85}' || c == '\u{a0}' || c == '\u{1680}'
    ||| '\u{2000}' <= c <= '\u{200a}' || c == '\u{2028}' || c == '\u{2029}' || c == '\u{202f}' || c == '\u{205f}'
        || c == '\u{3000}'
}

pub(crate) fn gap_at(c: char) -> (r: bool)
    ensures
        r == is_gap(c),
{
    c == '(' || c == ')' || c == ' ' || ('\t' <= c
        && c <= '\r') || c == '\u{85}' || c == '\u{a0}' || c == '\u{1680}' || (
    '\u{2000}' <= c
        && c <= '\u{200a}') || c == '\u{2028}' || c == '\u{2029}' || c == '\u{202f}' || c == '\u{205f}' || c
        == '\u{3000}'
}

/// The words of a text from place `i` on, after those of `acc`, where `w` is the word begun.
pub open spec fn words(s: Seq<char>, i: int, w: Seq<char>, acc: Seq<Seq<char>>) -> Seq<Seq<char>>
    decreases s.len() - i,
{
    let done = if w.len() == 0 {
        acc
    } else {
        acc.push(w)
    };
    if i < 0 || i >= s.len() {
        done
    } else if is_gap(s[i]) {
        words(s, i + 1, Seq::empty(), done)
    } else {
        words(s, i + 1, w.push(s[i]), acc)
    }
}

/// The texts of words.
pub open spec fn word_views(v: Seq<Vec<char>>) -> Seq<Seq<char>> {
    Seq::new(v.len(), |i: int| v[i]@)
}

fn list_words(s: &Vec<char>) -> (r: Vec<Vec<char>>)
    ensures
        word_views(r@) == words(s@, 0, Seq::empty(), Seq::empty()),
{
    let mut r: Vec<Vec<char>> = Vec::new();
    let mut w: Vec<char> = Vec::new();
    let mut i: usize = 0;
    assert(word_views(r@) =~= Seq::empty());
    assert(w@ =~= Seq::empty());
    while i < s.len()
        invariant
            i <= s@.len(),
            words(s@, i as int, w@, word_views(r@)) == words(s@, 0, Seq::empty(), Seq::empty()),
        decreases s.len() - i,
    {
        if gap_at(s[i]) {
            if w.len() > 0 {
                let ghost before = r@;
                let ghost m = w@;
                r.push(w);
                assert(word_views(r@) =~= word_views(before).push(m));
                w = Vec::new();
            }
            assert(w@ =~= Seq::empty());
        } else {
            w.push(s[i]);
        }
        i += 1;
    }
    if w.len() > 0 {
        let ghost before = r@;
        let ghost m = w@;
        r.push(w);
        assert(word_views(r@) =~= word_views(before).push(m));
    }
    r
}

/// The text stands at the beginning of another.
pub open spec fn begins(s: Seq<char>, p: Seq<char>) -> bool {
    p.len() <= s.len() && s.take(p.len() as int) == p
}

fn begins_with(s: &Vec<char>, p: &Vec<char>) -> (r: bool)
    ensures
        r == begins(s@, p@),
{
    if p.len() > s.len() {
        return false;
    }
    let mut i: usize = 0;
    while i < p.len()
        invariant
            i <= p@.len() <= s@.len(),
            forall|k: int| 0 <= k < i ==> #[trigger] s@[k] == p@[k],
        decreases p.len() - i,
    {
        if s[i] != p[i] {
            proof {
                assert(s@.take(p@.len() as int)[i as int] != p@[i as int]);
            }
            return false;
        }
        i += 1;
    }
    assert(s@.take(p@.len() as int) =~= p@);
    true
}

fn part_of(s: &Vec<char>, a: usize, b: usize) -> (r: Vec<char>)
    requires
        a <= b <= s@.len(),
    ensures
        r@ == s@.subrange(a as int, b as int),
{
    let mut r: Vec<char> = Vec::new();
    let mut i: usize = a;
    while i < b
        invariant
            a <= i <= b <= s@.len(),
            r@ == s@.subrange(a as int, i as int),
        decreases b - i,
    {
        r.push(s[i]);
        i += 1;
        assert(r@ =~= s@.subrange(a as int, i as int));
    }
    r
}

/// The number that the digits from place `i` on give, after `n`: nothing where there is another character, or where
/// the number is over that of a machine word.
pub open spec fn digits_from(s: Seq<char>, i: int, n: nat) -> Option<nat>
    decreases s.len() - i,
{
    if i < 0 || i >= s.len() {
        Some(n)
    } else if !('0' <= s[i] && s[i] <= '9') || n * 10 + (s[i] as u32 - 48) > usize::MAX {
        None
    } else {
        digits_from(s, i + 1, (n * 10 + (s[i] as u32 - 48)) as nat)
    }
}

/// The number of a decimal numeral, if it is one of a machine word.
pub open spec fn numeral(s: Seq<char>) -> Option<nat> {
    let from: int = if s.len() > 0 && s[0] == '+' {
        1
    } else {
        0
    };
    if from >= s.len() {
        None
    } else {
        digits_from(s, from, 0)
    }
}

fn read_numeral(s: &Vec<char>) -> (r: Option<usize>)
    ensures
        match (r, numeral(s@)) {
            (Some(a), Some(b)) => a == b,
            (None, None) => true,
            _ => false,
        },
{
    let mut i: usize = 0;
    if s.len() > 0 && s[0] == '+' {
        i = 1;
    }
    if i >= s.len() {
        return None;
    }
    let mut n: usize = 0;
    while i < s.len()
        invariant
            i <= s@.len(),
            numeral(s@) == digits_from(s@, i as int, n as nat),
        decreases s.len() - i,
    {
        let c = s[i];
        if !('0' <= c && c <= '9') {
            return None;
        }
        let d: usize = (c as u32 - 48) as usize;
        let ghost whole = n * 10 + d;
        n = match n.checked_mul(10) {
            Some(m) => match m.checked_add(d) {
                Some(x) => x,
                None => {
                    return None;
                },
            },
            None => {
                return None;
            },
        };
        assert(n == whole);
        i += 1;
    }
    Some(n)
}

/// Where the last `!` before place `i` of a word stands.
pub open spec fn bang_before(w: Seq<char>, i: int) -> Option<int>
    decreases i,
{
    if i <= 0 || i > w.len() {
        None
    } else if w[i - 1] == '!' {
        Some(i - 1)
    } else {
        bang_before(w, i - 1)
    }
}

/// Where the first `]` from place `i` on stands.
pub open spec fn close_from(s: Seq<char>, i: int) -> Option<int>
    decreases s.len() - i,
{
    if i < 0 || i >= s.len() {
        None
    } else if s[i] == ']' {
        Some(i)
    } else {
        close_from(s, i + 1)
    }
}

/// The index between brackets, if the name is that of a part of an array's element.
pub open spec fn element_key(name: Seq<char>, base: Seq<char>) -> Option<Seq<char>> {
    let from = base.len() as int + 1;
    if begins(name, base.push('[')) {
        match close_from(name, from) {
            Some(e) => Some(name.subrange(from, e)),
            None => None,
        }
    } else {
        None
    }
}

/// The text of a word, where there is one.
pub open spec fn opt_word(w: Option<Vec<char>>) -> Option<Seq<char>> {
    match w {
        Some(x) => Some(x@),
        None => None,
    }
}

fn find_key(name: &Vec<char>, base: &Vec<char>) -> (r: Option<Vec<char>>)
    ensures
        opt_word(r) == element_key(name@, base@),
{
    let mut p = part_of(base, 0, base.len());
    assert(p@ =~= base@);
    p.push('[');
    if !begins_with(name, &p) {
        return None;
    }
    let from: usize = p.len();
    let mut i: usize = from;
    while i < name.len()
        invariant
            from == base@.len() + 1,
            from <= i <= name@.len(),
            begins(name@, base@.push('[')),
            close_from(name@, i as int) == close_from(name@, from as int),
        decreases name.len() - i,
    {
        if name[i] == ']' {
            return Some(part_of(name, from, i));
        }
        i += 1;
    }
    None
}

/// The word is among the listed ones.
pub open spec fn in_list(ks: Seq<Seq<char>>, w: Seq<char>) -> bool {
    exists|i: int| 0 <= i < ks.len() && #[trigger] ks[i] == w
}

fn same_word(a: &Vec<char>, b: &Vec<char>) -> (r: bool)
    ensures
        r == (a@ == b@),
{
    if a.len() != b.len() {
        return false;
    }
    let r = begins_with(a, b);
    assert(a@.take(b@.len() as int) =~= a@);
    r
}

fn find_in(ks: &Vec<Vec<char>>, w: &Vec<char>) -> (r: bool)
    ensures
        r == in_list(word_views(ks@), w@),
{
    let ghost ms = word_views(ks@);
    let mut i: usize = 0;
    while i < ks.len()
        invariant
            i <= ks@.len(),
            ms == word_views(ks@),
            forall|k: int| 0 <= k < i ==> #[trigger] ms[k] != w@,
        decreases ks.len() - i,
    {
        assert(ms[i as int] == ks@[i as int]@);
        if same_word(&ks[i], w) {
            return true;
        }
        i += 1;
    }
    false
}

/// The indices of an array's elements, in the order of the leaves from leaf `i` on, after those of `acc`.
pub open spec fn element_keys(names: Seq<Seq<char>>, base: Seq<char>, i: int, acc: Seq<Seq<char>>) -> Seq<Seq<char>>
    decreases names.len() - i,
{
    if i < 0 || i >= names.len() {
        acc
    } else {
        element_keys(
            names,
            base,
            i + 1,
            match element_key(names[i], base) {
                Some(k) => if in_list(acc, k) {
                    acc
                } else {
                    acc.push(k)
                },
                None => acc,
            },
        )
    }
}

fn list_keys(names: &Vec<Vec<char>>, base: &Vec<char>) -> (r: Vec<Vec<char>>)
    ensures
        word_views(r@) == element_keys(word_views(names@), base@, 0, Seq::empty()),
{
    let ghost ms = word_views(names@);
    let mut r: Vec<Vec<char>> = Vec::new();
    let mut i: usize = 0;
    assert(word_views(r@) =~= Seq::empty());
    while i < names.len()
        invariant
            i <= names@.len(),
            ms == word_views(names@),
            element_keys(ms, base@, i as int, word_views(r@)) == element_keys(ms, base@, 0, Seq::empty()),
        decreases names.len() - i,
    {
        assert(ms[i as int] == names@[i as int]@);
        match find_key(&names[i], base) {
            Some(k) => {
                if !find_in(&r, &k) {
                    let ghost before = r@;
                    let ghost m = k@;
                    r.push(k);
                    assert(word_views(r@) =~= word_views(before).push(m));
                }
            },
            None => {},
        }
        i += 1;
    }
    r
}

/// The leaves from leaf `i` on, after those of `acc`, that belong to the element of index `key`.
pub open spec fn element_leaves(
    names: Seq<Seq<char>>,
    base: Seq<char>,
    key: Seq<char>,
    i: int,
    acc: Seq<LeafId>,
) -> Seq<LeafId>
    decreases names.len() - i,
{
    if i < 0 || i >= names.len() {
        acc
    } else {
        element_leaves(
            names,
            base,
            key,
            i + 1,
            if element_key(names[i], base) == Some(key) {
                acc.push(i as LeafId)
            } else {
                acc
            },
        )
    }
}

/// The name is that of a variable or of a part of it.
pub open spec fn belongs(name: Seq<char>, w: Seq<char>) -> bool {
    name == w || begins(name, w.push('.')) || begins(name, w.push('['))
}

/// The leaves from leaf `i` on, after those of `acc`, that belong to the variable `w`.
pub open spec fn variable_leaves(names: Seq<Seq<char>>, w: Seq<char>, i: int, acc: Seq<LeafId>) -> Seq<LeafId>
    decreases names.len() - i,
{
    if i < 0 || i >= names.len() {
        acc
    } else {
        variable_leaves(
            names,
            w,
            i + 1,
            if belongs(names[i], w) {
                acc.push(i as LeafId)
            } else {
                acc
            },
        )
    }
}

/// The leaves that a word names: `name!i` those of the element number `i` of an array, from 1, and `name` those of a
/// variable. Nothing where the index is no numeral.
pub open spec fn named(names: Seq<Seq<char>>, w: Seq<char>) -> Option<Seq<LeafId>> {
    match bang_before(w, w.len() as int) {
        Some(b) => match numeral(w.skip(b + 1)) {
            Some(n) => {
                let keys = element_keys(names, w.take(b), 0, Seq::empty());
                if 1 <= n <= keys.len() {
                    Some(element_leaves(names, w.take(b), keys[n - 1], 0, Seq::empty()))
                } else {
                    Some(Seq::empty())
                }
            },
            None => None,
        },
        None => Some(variable_leaves(names, w, 0, Seq::empty())),
    }
}

fn list_element(names: &Vec<Vec<char>>, base: &Vec<char>, key: &Vec<char>) -> (r: Vec<LeafId>)
    requires
        names@.len() <= u32::MAX,
    ensures
        r@ == element_leaves(word_views(names@), base@, key@, 0, Seq::empty()),
        forall|k: int| 0 <= k < r@.len() ==> (#[trigger] r@[k]) < names@.len(),
{
    let ghost ms = word_views(names@);
    let mut r: Vec<LeafId> = Vec::new();
    let mut i: usize = 0;
    assert(r@ =~= Seq::empty());
    while i < names.len()
        invariant
            i <= names@.len() <= u32::MAX,
            ms == word_views(names@),
            element_leaves(ms, base@, key@, i as int, r@) == element_leaves(ms, base@, key@, 0, Seq::empty()),
            forall|k: int| 0 <= k < r@.len() ==> (#[trigger] r@[k]) < names@.len(),
        decreases names.len() - i,
    {
        assert(ms[i as int] == names@[i as int]@);
        match find_key(&names[i], base) {
            Some(k) => {
                if same_word(&k, key) {
                    r.push(i as LeafId);
                }
            },
            None => {},
        }
        i += 1;
    }
    r
}

fn belongs_to(name: &Vec<char>, w: &Vec<char>) -> (r: bool)
    ensures
        r == belongs(name@, w@),
{
    if same_word(name, w) {
        return true;
    }
    let mut p = part_of(w, 0, w.len());
    assert(p@ =~= w@);
    p.push('.');
    if begins_with(name, &p) {
        return true;
    }
    let mut q = part_of(w, 0, w.len());
    assert(q@ =~= w@);
    q.push('[');
    begins_with(name, &q)
}

fn list_variable(names: &Vec<Vec<char>>, w: &Vec<char>) -> (r: Vec<LeafId>)
    requires
        names@.len() <= u32::MAX,
    ensures
        r@ == variable_leaves(word_views(names@), w@, 0, Seq::empty()),
        forall|k: int| 0 <= k < r@.len() ==> (#[trigger] r@[k]) < names@.len(),
{
    let ghost ms = word_views(names@);
    let mut r: Vec<LeafId> = Vec::new();
    let mut i: usize = 0;
    assert(r@ =~= Seq::empty());
    while i < names.len()
        invariant
            i <= names@.len() <= u32::MAX,
            ms == word_views(names@),
            variable_leaves(ms, w@, i as int, r@) == variable_leaves(ms, w@, 0, Seq::empty()),
            forall|k: int| 0 <= k < r@.len() ==> (#[trigger] r@[k]) < names@.len(),
        decreases names.len() - i,
    {
        assert(ms[i as int] == names@[i as int]@);
        if belongs_to(&names[i], w) {
            r.push(i as LeafId);
        }
        i += 1;
    }
    r
}

fn named_leaves(names: &Vec<Vec<char>>, w: &Vec<char>) -> (r: Option<Vec<LeafId>>)
    requires
        names@.len() <= u32::MAX,
    ensures
        match (r, named(word_views(names@), w@)) {
            (Some(a), Some(b)) => a@ == b && forall|k: int| 0 <= k < a@.len() ==> (#[trigger] a@[k]) < names@.len(),
            (None, None) => true,
            _ => false,
        },
{
    let mut bang: usize = w.len();
    while bang > 0 && w[bang - 1] != '!'
        invariant
            bang <= w@.len(),
            bang_before(w@, w@.len() as int) == bang_before(w@, bang as int),
        decreases bang,
    {
        bang -= 1;
    }
    if bang == 0 {
        return Some(list_variable(names, w));
    }
    let base = part_of(w, 0, bang - 1);
    assert(base@ =~= w@.take(bang - 1));
    let tail = part_of(w, bang, w.len());
    assert(tail@ =~= w@.skip(bang as int));
    match read_numeral(&tail) {
        Some(n) => {
            let keys = list_keys(names, &base);
            let count: usize = keys.len();
            if n >= 1 && n <= count {
                assert(word_views(keys@)[n - 1] == keys@[n - 1]@);
                Some(list_element(names, &base, &keys[n - 1]))
            } else {
                let none: Vec<LeafId> = Vec::new();
                assert(none@ =~= Seq::empty());
                Some(none)
            }
        },
        None => None,
    }
}

/// A list with the leaves of `ls` from place `i` on added, those left out that it has.
pub open spec fn with_new(order: Seq<LeafId>, ls: Seq<LeafId>, i: int) -> Seq<LeafId>
    decreases ls.len() - i,
{
    if i < 0 || i >= ls.len() {
        order
    } else {
        with_new(
            if order.contains(ls[i]) {
                order
            } else {
                order.push(ls[i])
            },
            ls,
            i + 1,
        )
    }
}

fn place_new(order: &mut Vec<LeafId>, placed: &mut Vec<bool>, ls: &Vec<LeafId>)
    requires
        partial_order(old(order)@, old(placed)@),
        forall|k: int| 0 <= k < ls@.len() ==> (#[trigger] ls@[k]) < old(placed)@.len(),
    ensures
        partial_order(final(order)@, final(placed)@),
        final(placed)@.len() == old(placed)@.len(),
        final(order)@ == with_new(old(order)@, ls@, 0),
        forall|k: int| 0 <= k < ls@.len() ==> final(placed)@[(#[trigger] ls@[k]) as int],
{
    let mut i: usize = 0;
    while i < ls.len()
        invariant
            i <= ls@.len(),
            placed@.len() == old(placed)@.len(),
            forall|k: int| 0 <= k < ls@.len() ==> (#[trigger] ls@[k]) < placed@.len(),
            partial_order(order@, placed@),
            with_new(order@, ls@, i as int) == with_new(old(order)@, ls@, 0),
            forall|k: int| 0 <= k < i ==> placed@[(#[trigger] ls@[k]) as int],
        decreases ls.len() - i,
    {
        place(order, placed, ls[i]);
        i += 1;
    }
}

/// The order that the words from word `i` on give, after `order`; the word whose index is no numeral, where one is.
pub open spec fn order_by(names: Seq<Seq<char>>, ws: Seq<Seq<char>>, i: int, order: Seq<LeafId>) -> Result<
    Seq<LeafId>,
    Seq<char>,
>
    decreases ws.len() - i,
{
    if i < 0 || i >= ws.len() {
        Ok(order)
    } else {
        match named(names, ws[i]) {
            Some(ls) => order_by(names, ws, i + 1, with_new(order, ls, 0)),
            None => Err(ws[i]),
        }
    }
}

/// The leaves as they are declared.
pub open spec fn declared(n: nat) -> Seq<LeafId> {
    Seq::new(n, |i: int| i as LeafId)
}

/// The names of leaves.
pub open spec fn leaf_names(ls: Seq<LeafInfo>) -> Seq<Seq<char>> {
    Seq::new(ls.len(), |i: int| ls[i].name@)
}

/// The order of an order file: the leaves that its words name, in their order, then the others as they are declared.
pub open spec fn file_order(ls: Seq<LeafInfo>, text: Seq<char>) -> Result<Seq<LeafId>, Seq<char>> {
    match order_by(leaf_names(ls), words(text, 0, Seq::empty(), Seq::empty()), 0, Seq::empty()) {
        Ok(v) => Ok(with_new(v, declared(ls.len()), 0)),
        Err(w) => Err(w),
    }
}

fn bad_index(w: &Vec<char>) -> (r: String)
    ensures
        r@ == "bad index in \""@ + w@ + "\" in order file"@,
{
    let mut m = own("bad index in \"");
    let ghost head = m@;
    let mut k: usize = 0;
    assert(m@ =~= head + w@.take(0));
    while k < w.len()
        invariant
            k <= w@.len(),
            m@ == head + w@.take(k as int),
        decreases w.len() - k,
    {
        m.push(w[k]);
        k += 1;
        assert(m@ =~= head + w@.take(k as int));
    }
    assert(w@.take(k as int) =~= w@);
    put(&mut m, "\" in order file");
    m
}

/// The order of an order file: a list of names in parentheses. The leaves that it does not name
/// come after the others, as they are declared. A name that nothing has is passed over.
pub fn order_from_file(flat: &FlatModule, text: &str) -> (r: Result<Vec<LeafId>, String>)
    requires
        flat.leaves@.len() <= u32::MAX,
    ensures
        match (r, file_order(flat.leaves@, text@)) {
            (Ok(v), Ok(m)) => v@ == m && is_order(v@, flat.leaves@.len()),
            (Err(m), Err(w)) => m@ == "bad index in \""@ + w + "\" in order file"@,
            _ => false,
        },
{
    let n: usize = flat.leaves.len();
    let mut names: Vec<Vec<char>> = Vec::new();
    let mut l: usize = 0;
    while l < n
        invariant
            l <= n == flat.leaves@.len(),
            names@.len() == l,
            forall|k: int| 0 <= k < l ==> (#[trigger] names@[k])@ == flat.leaves@[k].name@,
        decreases n - l,
    {
        names.push(characters(flat.leaves[l].name.as_str()));
        l += 1;
    }
    let ghost nm = leaf_names(flat.leaves@);
    assert(word_views(names@) =~= nm);
    let ws = list_words(&characters(text));
    let ghost wm = words(text@, 0, Seq::empty(), Seq::empty());
    let mut placed = flags(n, false);
    let mut order: Vec<LeafId> = Vec::new();
    let mut i: usize = 0;
    assert(order@ =~= Seq::empty());
    while i < ws.len()
        invariant
            i <= ws@.len(),
            wm == word_views(ws@),
            wm == words(text@, 0, Seq::empty(), Seq::empty()),
            nm == word_views(names@),
            nm == leaf_names(flat.leaves@),
            names@.len() == n == flat.leaves@.len() <= u32::MAX,
            placed@.len() == n,
            partial_order(order@, placed@),
            order_by(nm, wm, i as int, order@) == order_by(nm, wm, 0, Seq::empty()),
        decreases ws.len() - i,
    {
        assert(wm[i as int] == ws@[i as int]@);
        match named_leaves(&names, &ws[i]) {
            Some(ls) => {
                place_new(&mut order, &mut placed, &ls);
            },
            None => {
                return Err(bad_index(&ws[i]));
            },
        }
        i += 1;
    }
    let all = all_leaves(n);
    assert(all@ =~= declared(n as nat));
    place_new(&mut order, &mut placed, &all);
    proof {
        assert forall|k: int| 0 <= k < n implies #[trigger] placed@[k] by {
            assert(all@[k] == k);
        }
        complete_order(order@, placed@);
    }
    Ok(order)
}

} // verus!
