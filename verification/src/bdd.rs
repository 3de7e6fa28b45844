//! Binary decision diagrams with dynamic variable reordering.
//!
//! Variables are identities; their position in the order is a separate *level*. Variables come
//! in pairs `2k`, `2k + 1` (a bit of the current and of the next state) that stay next to each
//! other, the even one above, so that priming is the map from `v` to `v + 1`.

use crate::tables::{
    cube_get, cube_insert, cube_new, table_get, table_insert, table_new, table_remove, Cube, Key, Table,
};
use vstd::prelude::*;

verus! {

/// Index of a node.
pub type NodeId = usize;

/// The constant `false`.
pub const F: NodeId = 0;

/// The constant `true`.
pub const T: NodeId = 1;

/// An assignment of truth values to variables.
pub type Asg = spec_fn(u32) -> bool;

/// A Boolean function.
pub type BF = spec_fn(Asg) -> bool;

/// A set of variables.
pub type Vars = spec_fn(u32) -> bool;

/// Marks the two terminals.
const TERMINAL: u32 = 0xffff_ffff;

/// Marks a free slot.
const FREE: u32 = 0xffff_fffd;

/// Variables are less than this.
pub const VAR_LIMIT: u32 = 0xffff_fff0;

#[derive(Clone, Copy)]
struct Node {
    var: u32,
    lo: NodeId,
    hi: NodeId,
}

/// The diagrams and the variable order.
struct Store {
    nodes: Vec<Node>,
    /// From variable and branches to the node.
    unique: Table,
    level_of: Vec<u32>,
    var_at: Vec<u32>,
    free_list: Vec<NodeId>,
    fun: Ghost<Seq<BF>>,
}

/// A manager of decision diagrams.
pub struct Mgr {
    store: Store,
    ite_cache: Table,
    exists_cache: Table,
    shift_cache: Table,
    preds: Ghost<Map<u64, spec_fn(Vars) -> bool>>,
    reorder_enabled: bool,
    next_reorder: usize,
    /// How many groups one reordering moves.
    pub sift_groups: usize,
    /// How many nodes one reordering may touch, as a multiple of the live nodes.
    pub sift_budget: usize,
    /// One more than the greatest variable in use.
    pub num_vars: u32,
    /// The number of reorderings so far.
    pub reorder_count: usize,
}

/// The assignment that gives `v` the value `b` and otherwise agrees with `a`.
pub open spec fn with(a: Asg, v: u32, b: bool) -> Asg {
    |u: u32|
        if u == v {
            b
        } else {
            a(u)
        }
}

/// The assignments agree on every variable outside `q`.
pub open spec fn agree_outside(a: Asg, b: Asg, q: Vars) -> bool {
    forall|v: u32| !q(v) ==> #[trigger] b(v) == a(v)
}

/// The assignment in which each variable has the value of the one above (`up`) or below it.
pub open spec fn shifted(a: Asg, up: bool) -> Asg {
    |v: u32|
        if up {
            a((v + 1) as u32)
        } else {
            a((v - 1) as u32)
        }
}

spec fn key_of(n: Node) -> Key {
    (n.var as u64, n.lo as u64, n.hi as u64)
}

spec fn constants() -> Seq<BF> {
    seq![|a: Asg| false, |a: Asg| true]
}

spec fn min3(a: int, b: int, c: int) -> int {
    if a <= b && a <= c {
        a
    } else if b <= c {
        b
    } else {
        c
    }
}

spec fn shift_key(up: bool) -> u64 {
    if up {
        1
    } else {
        0
    }
}

spec fn shifted_level(l: int, up: bool) -> int {
    if l == 0xffff_ffff {
        l
    } else if up {
        l + 1
    } else {
        l - 1
    }
}

spec fn valid_in(nodes: Seq<Node>, n: NodeId) -> bool {
    n < nodes.len() && (n <= 1 || nodes[n as int].var != FREE)
}

spec fn inner_in(nodes: Seq<Node>, n: NodeId) -> bool {
    2 <= n < nodes.len() && nodes[n as int].var != FREE
}

spec fn ev(fun: Seq<BF>, n: NodeId, a: Asg) -> bool {
    (fun[n as int])(a)
}

spec fn level_in(nodes: Seq<Node>, levels: Seq<u32>, n: NodeId) -> int {
    if n <= 1 {
        0xffff_ffff
    } else {
        levels[nodes[n as int].var as int] as int
    }
}

spec fn splits(fun: Seq<BF>, r: NodeId, var: u32, lo: NodeId, hi: NodeId) -> bool {
    forall|a: Asg| #[trigger]
        ev(fun, r, a) == if a(var) {
            ev(fun, hi, a)
        } else {
            ev(fun, lo, a)
        }
}

spec fn node_base(nodes: Seq<Node>, fun: Seq<BF>, nv: int, i: NodeId) -> bool {
    let n = nodes[i as int];
    &&& n.var < nv
    &&& n.lo != n.hi
    &&& valid_in(nodes, n.lo)
    &&& valid_in(nodes, n.hi)
    &&& splits(fun, i, n.var, n.lo, n.hi)
}

spec fn node_ord(nodes: Seq<Node>, levels: Seq<u32>, unique: Map<Key, usize>, i: NodeId) -> bool {
    let n = nodes[i as int];
    &&& level_in(nodes, levels, i) < level_in(nodes, levels, n.lo)
    &&& level_in(nodes, levels, i) < level_in(nodes, levels, n.hi)
    &&& unique.contains_key(key_of(n))
    &&& unique[key_of(n)] == i
}

spec fn levels_ok(level_of: Seq<u32>, var_at: Seq<u32>) -> bool {
    &&& level_of.len() == var_at.len()
    &&& level_of.len() <= VAR_LIMIT
    &&& forall|v: int|
        0 <= v < level_of.len() ==> (#[trigger] level_of[v]) < var_at.len()
            && var_at[level_of[v] as int] == v
    &&& forall|l: int|
        0 <= l < var_at.len() ==> (#[trigger] var_at[l]) < level_of.len()
            && level_of[var_at[l] as int] == l
}

spec fn pairs_ok(level_of: Seq<u32>) -> bool {
    &&& level_of.len() % 2 == 0
    &&& forall|v: int|
        0 <= v < level_of.len() && v % 2 == 0 ==> (#[trigger] level_of[v]) % 2 == 0
            && level_of[v + 1] == level_of[v] + 1
}

/// The even variables in the order of their groups.
spec fn group_order(var_at: Seq<u32>) -> Seq<u32> {
    Seq::new((var_at.len() / 2) as nat, |p: int| var_at[2 * p])
}

/// The list with its member number `i` moved to place `j`.
spec fn moved_to(s: Seq<u32>, i: int, j: int) -> Seq<u32> {
    s.remove(i).insert(j, s[i])
}

proof fn moved_next(s: Seq<u32>, i: int, j: int)
    requires
        0 <= i < s.len(),
        0 <= j < s.len() - 1,
    ensures
        moved_to(s, i, j).len() == s.len(),
        moved_to(s, i, j + 1) == moved_to(s, i, j).update(j, moved_to(s, i, j)[j + 1]).update(
            j + 1,
            moved_to(s, i, j)[j],
        ),
        moved_to(s, i, j) == moved_to(s, i, j + 1).update(j, moved_to(s, i, j + 1)[j + 1]).update(
            j + 1,
            moved_to(s, i, j + 1)[j],
        ),
{
    let a = moved_to(s, i, j);
    let b = moved_to(s, i, j + 1);
    assert(b =~= a.update(j, a[j + 1]).update(j + 1, a[j]));
    assert(a =~= b.update(j, b[j + 1]).update(j + 1, b[j]));
}

proof fn moved_nowhere(s: Seq<u32>, i: int)
    requires
        0 <= i < s.len(),
    ensures
        moved_to(s, i, i) == s,
{
    assert(moved_to(s, i, i) =~= s);
}

/// The order of the groups fixes the levels.
proof fn same_levels(la: Seq<u32>, va: Seq<u32>, lb: Seq<u32>, vb: Seq<u32>)
    requires
        levels_ok(la, va),
        levels_ok(lb, vb),
        pairs_ok(la),
        pairs_ok(lb),
        la.len() == lb.len(),
        group_order(va) == group_order(vb),
    ensures
        la == lb,
{
    pairs_both(la, va);
    pairs_both(lb, vb);
    assert forall|l: int| 0 <= l < va.len() implies va[l] == vb[l] by {
        let p = l / 2;
        assert(group_order(va)[p] == va[2 * p] && group_order(vb)[p] == vb[2 * p]);
        if l % 2 == 1 {
            assert(va[2 * p] % 2 == 0 && va[2 * p + 1] == va[2 * p] + 1);
            assert(vb[2 * p] % 2 == 0 && vb[2 * p + 1] == vb[2 * p] + 1);
        }
    }
    assert(va =~= vb);
    assert forall|v: int| 0 <= v < la.len() implies la[v] == lb[v] by {
        let l = la[v] as int;
        assert(va[l] == v);
        assert(lb[vb[l] as int] == l);
    }
    assert(la =~= lb);
}

spec fn free_ok(nodes: Seq<Node>, free: Seq<NodeId>) -> bool {
    &&& forall|i: int|
        0 <= i < free.len() ==> 2 <= (#[trigger] free[i]) < nodes.len()
            && nodes[free[i] as int].var == FREE
    &&& forall|i: int, j: int| 0 <= i < j < free.len() ==> free[i] != free[j]
}

spec fn unique_ok(nodes: Seq<Node>, unique: Map<Key, usize>, ex: Set<NodeId>) -> bool {
    forall|k: Key| #[trigger]
        unique.contains_key(k) ==> inner_in(nodes, unique[k]) && !ex.contains(unique[k]) && key_of(
            nodes[unique[k] as int],
        ) == k
}

spec fn bases_ok(nodes: Seq<Node>, fun: Seq<BF>, nv: int) -> bool {
    &&& nodes.len() >= 2
    &&& nodes[0].var == TERMINAL
    &&& nodes[1].var == TERMINAL
    &&& fun.len() == nodes.len()
    &&& forall|a: Asg| #[trigger] ev(fun, 0, a) == false
    &&& forall|a: Asg| #[trigger] ev(fun, 1, a) == true
    &&& forall|i: NodeId| #[trigger] inner_in(nodes, i) ==> node_base(nodes, fun, nv, i)
}

spec fn ords_ok(
    nodes: Seq<Node>,
    levels: Seq<u32>,
    unique: Map<Key, usize>,
    ex: Set<NodeId>,
) -> bool {
    &&& forall|i: NodeId| #[trigger]
        inner_in(nodes, i) && !ex.contains(i) ==> node_ord(nodes, levels, unique, i)
    &&& forall|i: NodeId| #[trigger] ex.contains(i) ==> inner_in(nodes, i)
}

/// The diagrams of `old` are untouched.
spec fn extends(nodes: Seq<Node>, fun: Seq<BF>, old_nodes: Seq<Node>, old_fun: Seq<BF>) -> bool {
    forall|n: NodeId| #[trigger]
        valid_in(old_nodes, n) ==> valid_in(nodes, n) && nodes[n as int] == old_nodes[n as int]
            && fun[n as int] == old_fun[n as int]
}

/// The levels of `old` are untouched.
spec fn widens(levels: Seq<u32>, old: Seq<u32>) -> bool {
    &&& old.len() <= levels.len()
    &&& forall|v: int| 0 <= v < old.len() ==> levels[v] == #[trigger] old[v]
}

impl Store {
    spec fn valid(&self, n: NodeId) -> bool {
        valid_in(self.nodes@, n)
    }

    spec fn inner(&self, n: NodeId) -> bool {
        inner_in(self.nodes@, n)
    }

    spec fn ev(&self, n: NodeId, a: Asg) -> bool {
        ev(self.fun@, n, a)
    }

    spec fn level(&self, n: NodeId) -> int {
        level_in(self.nodes@, self.level_of@, n)
    }

    /// Well-formed but for the nodes of `ex`, which are out of order and out of the table.
    spec fn wf_on(&self, ex: Set<NodeId>) -> bool {
        &&& levels_ok(self.level_of@, self.var_at@)
        &&& bases_ok(self.nodes@, self.fun@, self.level_of@.len() as int)
        &&& ords_ok(self.nodes@, self.level_of@, self.unique@, ex)
        &&& unique_ok(self.nodes@, self.unique@, ex)
        &&& free_ok(self.nodes@, self.free_list@)
    }

    spec fn wf(&self) -> bool {
        self.wf_on(Set::empty())
    }

    spec fn grows(&self, old: &Store) -> bool {
        &&& extends(self.nodes@, self.fun@, old.nodes@, old.fun@)
        &&& widens(self.level_of@, old.level_of@)
    }

    spec fn some_choice(&self, n: NodeId, q: Vars, a: Asg) -> bool {
        exists|b: Asg| agree_outside(a, b, q) && #[trigger] self.ev(n, b)
    }

    spec fn ite_entry(&self, c: NodeId, t: NodeId, e: NodeId, r: NodeId) -> bool {
        &&& self.valid(c)
        &&& self.valid(t)
        &&& self.valid(e)
        &&& self.valid(r)
        &&& self.level(r) >= min3(self.level(c), self.level(t), self.level(e))
        &&& forall|a: Asg| #[trigger]
            self.ev(r, a) == if self.ev(c, a) {
                self.ev(t, a)
            } else {
                self.ev(e, a)
            }
    }

    spec fn exists_entry(&self, n: NodeId, qs: spec_fn(Vars) -> bool, r: NodeId) -> bool {
        &&& self.valid(n)
        &&& self.valid(r)
        &&& self.level(r) >= self.level(n)
        &&& forall|q: Vars, a: Asg|
            qs(q) ==> self.ev(r, a) == #[trigger] self.some_choice(n, q, a)
    }

    spec fn shift_entry(&self, n: NodeId, up: bool, r: NodeId) -> bool {
        &&& self.valid(n)
        &&& self.valid(r)
        &&& shifted_level(self.level(n), up) <= self.level(r)
        &&& forall|a: Asg| #[trigger] self.ev(r, a) == self.ev(n, shifted(a, up))
    }

    spec fn ite_ok(&self, cache: Map<Key, usize>) -> bool {
        forall|c: NodeId, t: NodeId, e: NodeId| #[trigger]
            cache.contains_key((c as u64, t as u64, e as u64)) ==> self.ite_entry(
                c,
                t,
                e,
                cache[(c as u64, t as u64, e as u64)],
            )
    }

    spec fn exists_ok(&self, cache: Map<Key, usize>, preds: Map<u64, spec_fn(Vars) -> bool>) -> bool {
        forall|n: NodeId, k: u64| #[trigger]
            cache.contains_key((n as u64, k, 0u64)) ==> preds.contains_key(k) && self.exists_entry(
                n,
                preds[k],
                cache[(n as u64, k, 0u64)],
            )
    }

    spec fn shift_ok(&self, cache: Map<Key, usize>) -> bool {
        forall|n: NodeId, up: bool| #[trigger]
            cache.contains_key((n as u64, shift_key(up), 0u64)) ==> self.shift_entry(
                n,
                up,
                cache[(n as u64, shift_key(up), 0u64)],
            )
    }

    proof fn same_ev(&self, old: &Store, n: NodeId)
        requires
            self.grows(old),
            old.valid(n),
        ensures
            self.valid(n),
            forall|a: Asg| #[trigger] self.ev(n, a) == old.ev(n, a),
            forall|a: Asg| self.ev(n, a) == #[trigger] old.ev(n, a),
    {
    }

    proof fn same_level(&self, old: &Store, n: NodeId)
        requires
            self.grows(old),
            old.wf_on(Set::empty()),
            old.valid(n),
        ensures
            self.level(n) == old.level(n),
    {
        if n > 1 {
            assert(old.inner(n));
        }
    }

    proof fn same_choice(&self, old: &Store, n: NodeId, q: Vars, a: Asg)
        requires
            forall|b: Asg| self.ev(n, b) == old.ev(n, b),
        ensures
            self.some_choice(n, q, a) == old.some_choice(n, q, a),
    {
        if self.some_choice(n, q, a) {
            let b = choose|b: Asg| agree_outside(a, b, q) && #[trigger] self.ev(n, b);
            assert(old.ev(n, b));
        }
        if old.some_choice(n, q, a) {
            let b = choose|b: Asg| agree_outside(a, b, q) && #[trigger] old.ev(n, b);
            assert(self.ev(n, b));
        }
    }

    proof fn keep_caches(
        &self,
        old: &Store,
        ite: Map<Key, usize>,
        exi: Map<Key, usize>,
        preds: Map<u64, spec_fn(Vars) -> bool>,
        shi: Map<Key, usize>,
    )
        requires
            self.grows(old),
            old.wf(),
            old.ite_ok(ite),
            old.exists_ok(exi, preds),
            old.shift_ok(shi),
        ensures
            self.ite_ok(ite),
            self.exists_ok(exi, preds),
            self.shift_ok(shi),
    {
        assert forall|c: NodeId, t: NodeId, e: NodeId| #[trigger]
            ite.contains_key((c as u64, t as u64, e as u64)) implies self.ite_entry(
            c,
            t,
            e,
            ite[(c as u64, t as u64, e as u64)],
        ) by {
            let r = ite[(c as u64, t as u64, e as u64)];
            assert(old.ite_entry(c, t, e, r));
            self.same_level(old, c);
            self.same_level(old, t);
            self.same_level(old, e);
            self.same_level(old, r);
            self.same_ev(old, c);
            self.same_ev(old, t);
            self.same_ev(old, e);
            self.same_ev(old, r);
        }
        assert forall|n: NodeId, k: u64| #[trigger]
            exi.contains_key((n as u64, k, 0u64)) implies preds.contains_key(k)
            && self.exists_entry(n, preds[k], exi[(n as u64, k, 0u64)]) by {
            let r = exi[(n as u64, k, 0u64)];
            assert(old.exists_entry(n, preds[k], r));
            self.same_level(old, n);
            self.same_level(old, r);
            self.same_ev(old, n);
            self.same_ev(old, r);
            let qs = preds[k];
            assert forall|q: Vars, a: Asg| qs(q) implies self.ev(r, a) == #[trigger] self.some_choice(
                n,
                q,
                a,
            ) by {
                self.same_choice(old, n, q, a);
                assert(old.ev(r, a) == old.some_choice(n, q, a));
            }
        }
        assert forall|n: NodeId, up: bool| #[trigger]
            shi.contains_key((n as u64, shift_key(up), 0u64)) implies self.shift_entry(
            n,
            up,
            shi[(n as u64, shift_key(up), 0u64)],
        ) by {
            let r = shi[(n as u64, shift_key(up), 0u64)];
            assert(old.shift_entry(n, up, r));
            self.same_level(old, n);
            self.same_level(old, r);
            self.same_ev(old, n);
            self.same_ev(old, r);
        }
    }

    fn level_at(&self, n: NodeId) -> (r: u32)
        requires
            self.wf(),
            self.valid(n),
        ensures
            r == self.level(n),
    {
        if n <= 1 {
            0xffff_ffff
        } else {
            assert(inner_in(self.nodes@, n));
            self.level_of[self.nodes[n].var as usize]
        }
    }

    /// Gives a level to every variable up to the pair of `v`.
    fn ensure_var(&mut self, v: u32)
        requires
            old(self).wf(),
            pairs_ok(old(self).level_of@),
            v < VAR_LIMIT,
        ensures
            final(self).wf(),
            pairs_ok(final(self).level_of@),
            final(self).grows(old(self)),
            v < final(self).level_of@.len(),
            v < old(self).level_of@.len() ==> *final(self) == *old(self),
            final(self).nodes == old(self).nodes,
            final(self).fun == old(self).fun,
    {
        let want: usize = v as usize + 2 - (v % 2) as usize;
        while self.level_of.len() < want
            invariant
                want == v + 2 - v % 2,
                v < VAR_LIMIT,
                want % 2 == 0,
                self.wf(),
                pairs_ok(self.level_of@),
                self.grows(old(self)),
                v < old(self).level_of@.len() ==> *self == *old(self),
                pairs_ok(old(self).level_of@),
                self.nodes == old(self).nodes,
                self.fun == old(self).fun,
            decreases want - self.level_of.len(),
        {
            let nv: u32 = self.level_of.len() as u32;
            let ghost before = *self;
            self.level_of.push(nv);
            self.var_at.push(nv);
            self.level_of.push(nv + 1);
            self.var_at.push(nv + 1);
            proof {
                assert forall|i: NodeId| #[trigger] inner_in(self.nodes@, i) implies node_base(
                    self.nodes@,
                    self.fun@,
                    self.level_of@.len() as int,
                    i,
                ) by {
                    assert(node_base(before.nodes@, before.fun@, before.level_of@.len() as int, i));
                }
                assert forall|i: NodeId| #[trigger] inner_in(self.nodes@, i) implies node_ord(
                    self.nodes@,
                    self.level_of@,
                    self.unique@,
                    i,
                ) by {
                    assert(node_ord(before.nodes@, before.level_of@, before.unique@, i));
                    assert(node_base(before.nodes@, before.fun@, before.level_of@.len() as int, i));
                    self.same_level(&before, i);
                    self.same_level(&before, self.nodes@[i as int].lo);
                    self.same_level(&before, self.nodes@[i as int].hi);
                }
            }
        }
    }

    /// The node for "if `var` then `hi` else `lo`".
    fn mk_on(&mut self, var: u32, lo: NodeId, hi: NodeId, Ghost(ex): Ghost<Set<NodeId>>) -> (r:
        NodeId)
        requires
            old(self).wf_on(ex),
            var < old(self).level_of@.len(),
            old(self).valid(lo),
            old(self).valid(hi),
            old(self).level_of@[var as int] < old(self).level(lo),
            old(self).level_of@[var as int] < old(self).level(hi),
        ensures
            final(self).wf_on(ex),
            final(self).grows(old(self)),
            final(self).valid(r),
            splits(final(self).fun@, r, var, lo, hi),
            final(self).level(r) >= old(self).level_of@[var as int],
            lo != hi ==> final(self).inner(r) && !ex.contains(r) && final(self).nodes@[r as int]
                == (Node { var, lo, hi }),
            lo == hi ==> r == lo,
            forall|n: NodeId| #[trigger] final(self).valid(n) ==> old(self).valid(n) || n == r,
            final(self).level_of == old(self).level_of,
            final(self).var_at == old(self).var_at,
    {
        if lo == hi {
            return lo;
        }
        let key: Key = (var as u64, lo as u64, hi as u64);
        let ghost node = Node { var, lo, hi };
        assert(key_of(node) == key);
        match table_get(&self.unique, key) {
            Some(id) => {
                assert(inner_in(self.nodes@, id));
                assert(node_base(self.nodes@, self.fun@, self.level_of@.len() as int, id));
                return id;
            },
            None => {},
        }
        let ghost f = |a: Asg|
            if a(var) {
                ev(self.fun@, hi, a)
            } else {
                ev(self.fun@, lo, a)
            };
        let id: NodeId;
        match self.free_list.pop() {
            Some(slot) => {
                id = slot;
                self.nodes.set(slot, Node { var, lo, hi });
                self.fun = Ghost(self.fun@.update(slot as int, f));
            },
            None => {
                id = self.nodes.len();
                self.nodes.push(Node { var, lo, hi });
                self.fun = Ghost(self.fun@.push(f));
            },
        }
        table_insert(&mut self.unique, key, id);
        proof {
            let pre = *old(self);
            assert(!pre.valid(id));
            assert(id >= 2);
            assert(self.grows(&pre));
            assert(forall|a: Asg| ev(self.fun@, id, a) == f(a));
            assert(forall|n: NodeId, a: Asg|
                valid_in(pre.nodes@, n) ==> #[trigger] ev(self.fun@, n, a) == ev(pre.fun@, n, a));
            assert(splits(self.fun@, id, var, lo, hi));
            assert forall|i: NodeId| #[trigger] inner_in(self.nodes@, i) && i != id implies inner_in(
                pre.nodes@,
                i,
            ) by {}
            assert forall|i: NodeId| #[trigger] inner_in(self.nodes@, i) implies node_base(
                self.nodes@,
                self.fun@,
                self.level_of@.len() as int,
                i,
            ) by {
                if i != id {
                    assert(node_base(pre.nodes@, pre.fun@, pre.level_of@.len() as int, i));
                    let n = pre.nodes@[i as int];
                    assert(valid_in(pre.nodes@, n.lo) && valid_in(pre.nodes@, n.hi));
                    assert(splits(self.fun@, i, n.var, n.lo, n.hi)) by {
                        assert(splits(pre.fun@, i, n.var, n.lo, n.hi));
                        assert(valid_in(pre.nodes@, i));
                        assert forall|a: Asg| #[trigger] ev(self.fun@, i, a) == if a(n.var) {
                            ev(self.fun@, n.hi, a)
                        } else {
                            ev(self.fun@, n.lo, a)
                        } by {
                            assert(ev(self.fun@, i, a) == ev(pre.fun@, i, a));
                        }
                    }
                }
            }
            assert forall|i: NodeId| #[trigger] inner_in(self.nodes@, i) && !ex.contains(i) implies node_ord(
                self.nodes@,
                self.level_of@,
                self.unique@,
                i,
            ) by {
                if i != id {
                    assert(node_ord(pre.nodes@, pre.level_of@, pre.unique@, i));
                    assert(node_base(pre.nodes@, pre.fun@, pre.level_of@.len() as int, i));
                }
            }
            assert forall|k: Key| #[trigger] self.unique@.contains_key(k) implies inner_in(
                self.nodes@,
                self.unique@[k],
            ) && !ex.contains(self.unique@[k]) && key_of(self.nodes@[self.unique@[k] as int]) == k by {
                if k != key {
                    assert(pre.unique@.contains_key(k));
                    assert(inner_in(pre.nodes@, pre.unique@[k]));
                }
            }
        }
        id
    }
}

impl Store {
    /// A function does not depend on variables above its node.
    proof fn independent(&self, n: NodeId, a: Asg, b: Asg)
        requires
            self.wf(),
            self.valid(n),
            forall|v: u32|
                v < self.level_of@.len() && self.level_of@[v as int] >= self.level(n) ==> #[trigger]
                a(v) == b(v),
        ensures
            self.ev(n, a) == self.ev(n, b),
        decreases 0xffff_ffff - self.level(n),
    {
        if n > 1 {
            assert(inner_in(self.nodes@, n));
            let k = self.nodes@[n as int];
            assert(node_base(self.nodes@, self.fun@, self.level_of@.len() as int, n));
            assert(node_ord(self.nodes@, self.level_of@, self.unique@, n));
            assert(a(k.var) == b(k.var));
            self.independent(k.lo, a, b);
            self.independent(k.hi, a, b);
            assert(ev(self.fun@, n, a) == if a(k.var) {
                ev(self.fun@, k.hi, a)
            } else {
                ev(self.fun@, k.lo, a)
            });
            assert(ev(self.fun@, n, b) == if b(k.var) {
                ev(self.fun@, k.hi, b)
            } else {
                ev(self.fun@, k.lo, b)
            });
        }
    }

    /// A branch of a node is the node's function for one value of the variable.
    proof fn branch(&self, n: NodeId, a: Asg)
        requires
            self.wf(),
            self.inner(n),
        ensures
            ({
                let k = self.nodes@[n as int];
                &&& self.valid(k.lo)
                &&& self.valid(k.hi)
                &&& self.level(k.lo) > self.level(n)
                &&& self.level(k.hi) > self.level(n)
                &&& self.ev(k.lo, a) == self.ev(n, with(a, k.var, false))
                &&& self.ev(k.hi, a) == self.ev(n, with(a, k.var, true))
                &&& self.ev(k.lo, a) == self.ev(k.lo, with(a, k.var, true))
                &&& self.ev(k.hi, a) == self.ev(k.hi, with(a, k.var, false))
            }),
    {
        let k = self.nodes@[n as int];
        assert(node_base(self.nodes@, self.fun@, self.level_of@.len() as int, n));
        assert(node_ord(self.nodes@, self.level_of@, self.unique@, n));
        let a0 = with(a, k.var, false);
        let a1 = with(a, k.var, true);
        self.independent(k.lo, a, a0);
        self.independent(k.hi, a, a1);
        self.independent(k.lo, a, a1);
        self.independent(k.hi, a, a0);
        assert(ev(self.fun@, n, a0) == ev(self.fun@, k.lo, a0));
        assert(ev(self.fun@, n, a1) == ev(self.fun@, k.hi, a1));
    }

    /// A function that does not depend on the top variable of its node has equal branches.
    proof fn no_redundancy(&self, n: NodeId)
        requires
            self.wf(),
            self.inner(n),
        ensures
            exists|a: Asg| #[trigger]
                self.ev(n, with(a, self.nodes@[n as int].var, false)) != self.ev(
                    n,
                    with(a, self.nodes@[n as int].var, true),
                ),
        decreases 0xffff_ffff - self.level(n), 1nat,
    {
        let k = self.nodes@[n as int];
        if forall|a: Asg| #[trigger]
            self.ev(n, with(a, k.var, false)) == self.ev(n, with(a, k.var, true)) {
            assert forall|a: Asg| #[trigger] self.ev(k.lo, a) == self.ev(k.hi, a) by {
                self.branch(n, a);
                assert(self.ev(n, with(a, k.var, false)) == self.ev(n, with(a, k.var, true)));
            }
            self.branch(n, |u: u32| false);
            self.canonical(k.lo, k.hi);
            assert(node_base(self.nodes@, self.fun@, self.level_of@.len() as int, n));
        }
    }

    /// Nodes with the same function are the same node.
    proof fn canonical(&self, i: NodeId, j: NodeId)
        requires
            self.wf(),
            self.valid(i),
            self.valid(j),
            forall|a: Asg| #[trigger] self.ev(i, a) == self.ev(j, a),
        ensures
            i == j,
        decreases
                0xffff_ffff - (if self.level(i) <= self.level(j) {
                    self.level(i)
                } else {
                    self.level(j)
                }),
                2nat,
    {
        let a0 = |u: u32| false;
        if i <= 1 && j <= 1 {
            assert(self.ev(i, a0) == self.ev(j, a0));
            assert(ev(self.fun@, 0, a0) == false);
            assert(ev(self.fun@, 1, a0) == true);
        } else if self.level(i) == self.level(j) {
            assert(inner_in(self.nodes@, i) || inner_in(self.nodes@, j));
            assert(i > 1 ==> node_base(self.nodes@, self.fun@, self.level_of@.len() as int, i));
            assert(j > 1 ==> inner_in(self.nodes@, j));
            assert(j > 1 ==> node_base(self.nodes@, self.fun@, self.level_of@.len() as int, j));
            assert(i > 1 && j > 1);
            let k = self.nodes@[i as int];
            let m = self.nodes@[j as int];
            assert(self.level_of@[k.var as int] == self.level_of@[m.var as int]);
            assert(k.var == m.var);
            assert forall|a: Asg| #[trigger] self.ev(k.lo, a) == self.ev(m.lo, a) by {
                self.branch(i, a);
                self.branch(j, a);
                assert(self.ev(i, with(a, k.var, false)) == self.ev(j, with(a, k.var, false)));
            }
            assert forall|a: Asg| #[trigger] self.ev(k.hi, a) == self.ev(m.hi, a) by {
                self.branch(i, a);
                self.branch(j, a);
                assert(self.ev(i, with(a, k.var, true)) == self.ev(j, with(a, k.var, true)));
            }
            self.branch(i, a0);
            self.branch(j, a0);
            self.canonical(k.lo, m.lo);
            self.canonical(k.hi, m.hi);
            assert(node_ord(self.nodes@, self.level_of@, self.unique@, i));
            assert(node_ord(self.nodes@, self.level_of@, self.unique@, j));
        } else {
            let (p, q) = if self.level(i) < self.level(j) {
                (i, j)
            } else {
                (j, i)
            };
            assert(inner_in(self.nodes@, p)) by {
                if q > 1 {
                    assert(inner_in(self.nodes@, q));
                    assert(node_base(self.nodes@, self.fun@, self.level_of@.len() as int, q));
                }
            }
            let v = self.nodes@[p as int].var;
            self.no_redundancy(p);
            let a = choose|a: Asg| #[trigger]
                self.ev(p, with(a, v, false)) != self.ev(p, with(a, v, true));
            assert(self.ev(i, with(a, v, false)) == self.ev(j, with(a, v, false)));
            assert(self.ev(i, with(a, v, true)) == self.ev(j, with(a, v, true)));
            assert(node_base(self.nodes@, self.fun@, self.level_of@.len() as int, p));
            self.independent(q, with(a, v, false), with(a, v, true));
        }
    }

    proof fn choice_in(&self, n: NodeId, q: Vars, a: Asg)
        requires
            self.wf(),
            self.inner(n),
            q(self.nodes@[n as int].var),
        ensures
            self.some_choice(n, q, a) == (self.some_choice(self.nodes@[n as int].lo, q, a)
                || self.some_choice(self.nodes@[n as int].hi, q, a)),
    {
        let k = self.nodes@[n as int];
        assert(node_base(self.nodes@, self.fun@, self.level_of@.len() as int, n));
        if self.some_choice(n, q, a) {
            let b = choose|b: Asg| agree_outside(a, b, q) && #[trigger] self.ev(n, b);
            assert(ev(self.fun@, n, b));
            assert(self.ev(k.hi, b) || self.ev(k.lo, b));
        }
        if self.some_choice(k.lo, q, a) {
            let b = choose|b: Asg| agree_outside(a, b, q) && #[trigger] self.ev(k.lo, b);
            self.branch(n, b);
            assert(agree_outside(a, with(b, k.var, false), q));
            assert(self.ev(n, with(b, k.var, false)));
        }
        if self.some_choice(k.hi, q, a) {
            let b = choose|b: Asg| agree_outside(a, b, q) && #[trigger] self.ev(k.hi, b);
            self.branch(n, b);
            assert(agree_outside(a, with(b, k.var, true), q));
            assert(self.ev(n, with(b, k.var, true)));
        }
    }

    proof fn choice_out(&self, n: NodeId, q: Vars, a: Asg)
        requires
            self.wf(),
            self.inner(n),
            !q(self.nodes@[n as int].var),
        ensures
            self.some_choice(n, q, a) == (if a(self.nodes@[n as int].var) {
                self.some_choice(self.nodes@[n as int].hi, q, a)
            } else {
                self.some_choice(self.nodes@[n as int].lo, q, a)
            }),
    {
        let k = self.nodes@[n as int];
        assert(node_base(self.nodes@, self.fun@, self.level_of@.len() as int, n));
        let m = if a(k.var) {
            k.hi
        } else {
            k.lo
        };
        if self.some_choice(n, q, a) {
            let b = choose|b: Asg| agree_outside(a, b, q) && #[trigger] self.ev(n, b);
            assert(b(k.var) == a(k.var));
            assert(ev(self.fun@, n, b));
            assert(self.ev(m, b));
        }
        if self.some_choice(m, q, a) {
            let b = choose|b: Asg| agree_outside(a, b, q) && #[trigger] self.ev(m, b);
            assert(b(k.var) == a(k.var));
            assert(ev(self.fun@, n, b) == ev(self.fun@, m, b));
            assert(self.ev(n, b));
        }
    }

    /// The two branches of a node for a variable at or above its level.
    fn cofactor(&self, n: NodeId, var: u32) -> (r: (NodeId, NodeId))
        requires
            self.wf(),
            self.valid(n),
            var < self.level_of@.len(),
            self.level_of@[var as int] <= self.level(n),
        ensures
            self.valid(r.0),
            self.valid(r.1),
            self.level(r.0) > self.level_of@[var as int],
            self.level(r.1) > self.level_of@[var as int],
            splits(self.fun@, n, var, r.0, r.1),
    {
        if n > 1 {
            assert(inner_in(self.nodes@, n));
            let node = self.nodes[n];
            assert(node_base(self.nodes@, self.fun@, self.level_of@.len() as int, n));
            assert(node_ord(self.nodes@, self.level_of@, self.unique@, n));
            if node.var == var {
                return (node.lo, node.hi);
            }
        }
        (n, n)
    }
}

impl Mgr {
    /// The node denotes a function: it is a terminal, or has been made and not been collected.
    pub closed spec fn valid(&self, n: NodeId) -> bool {
        self.store.valid(n)
    }

    /// The value of the node's function under an assignment.
    pub closed spec fn eval(&self, n: NodeId, a: Asg) -> bool {
        self.store.ev(n, a)
    }

    /// For each key of [`Mgr::exists_where`], the sets of variables that fit all tests it has been
    /// used with.
    pub closed spec fn preds(&self) -> Map<u64, spec_fn(Vars) -> bool> {
        self.preds@
    }

    /// The manager is in good order.
    pub closed spec fn wf(&self) -> bool {
        &&& self.store.wf()
        &&& pairs_ok(self.store.level_of@)
        &&& self.store.ite_ok(self.ite_cache@)
        &&& self.store.exists_ok(self.exists_cache@, self.preds@)
        &&& self.store.shift_ok(self.shift_cache@)
    }

    /// The function of `n` is true under some assignment that agrees with `a` on every variable
    /// outside `q`.
    pub open spec fn some_choice(&self, n: NodeId, q: Vars, a: Asg) -> bool {
        exists|b: Asg| agree_outside(a, b, q) && #[trigger] self.eval(n, b)
    }

    /// Every function of `old` is still there, under the same index.
    pub open spec fn keeps_values(&self, old: &Mgr) -> bool {
        &&& forall|n: NodeId| #[trigger] old.valid(n) ==> self.valid(n)
        &&& forall|n: NodeId, a: Asg|
            old.valid(n) ==> #[trigger] self.eval(n, a) == old.eval(n, a)
    }

    /// Every function of `old` is still there, and no key of [`Mgr::exists_where`] has been used.
    pub open spec fn keeps(&self, old: &Mgr) -> bool {
        &&& self.keeps_values(old)
        &&& self.preds() == old.preds()
    }

    /// The function of `n` depends on variables of `q` only.
    pub open spec fn depends_on(&self, n: NodeId, q: Vars) -> bool {
        forall|a: Asg, b: Asg|
            (forall|v: u32| #[trigger] q(v) ==> a(v) == b(v)) ==> #[trigger] self.eval(n, a)
                == #[trigger] self.eval(n, b)
    }

    /// The two constants are valid, and denote `false` and `true`.
    pub proof fn constants_meaning(&self)
        requires
            self.wf(),
        ensures
            self.valid(F),
            self.valid(T),
            forall|a: Asg| #[trigger] self.eval(F, a) == false,
            forall|a: Asg| #[trigger] self.eval(T, a) == true,
    {
        assert(forall|a: Asg| self.eval(F, a) == ev(self.store.fun@, 0, a));
        assert(forall|a: Asg| self.eval(T, a) == ev(self.store.fun@, 1, a));
    }

    /// Two nodes with the same function are the same node.
    pub proof fn canonical(&self, i: NodeId, j: NodeId)
        requires
            self.wf(),
            self.valid(i),
            self.valid(j),
            forall|a: Asg| #[trigger] self.eval(i, a) == self.eval(j, a),
        ensures
            i == j,
    {
        assert forall|a: Asg| #[trigger] self.store.ev(i, a) == self.store.ev(j, a) by {
            assert(self.eval(i, a) == self.eval(j, a));
        }
        self.store.canonical(i, j);
    }

    /// A node other than `F` is true under some assignment.
    pub proof fn satisfiable(&self, n: NodeId)
        requires
            self.wf(),
            self.valid(n),
            n != F,
        ensures
            exists|a: Asg| #[trigger] self.eval(n, a),
    {
        if forall|a: Asg| !#[trigger] self.eval(n, a) {
            self.constants_meaning();
            self.canonical(n, F);
        }
    }

    /// A manager without variables.
    pub fn new() -> (r: Mgr)
        ensures
            r.wf(),
            r.preds() =~= Map::empty(),
    {
        let mut nodes: Vec<Node> = Vec::new();
        nodes.push(Node { var: TERMINAL, lo: F, hi: F });
        nodes.push(Node { var: TERMINAL, lo: T, hi: T });
        let store = Store {
            nodes,
            unique: table_new(),
            level_of: Vec::new(),
            var_at: Vec::new(),
            free_list: Vec::new(),
            fun: Ghost(constants()),
        };
        Mgr {
            store,
            ite_cache: table_new(),
            exists_cache: table_new(),
            shift_cache: table_new(),
            preds: Ghost(Map::empty()),
            reorder_enabled: false,
            next_reorder: 150_000,
            sift_groups: 16,
            sift_budget: 12,
            num_vars: 0,
            reorder_count: 0,
        }
    }

    /// Automatic reordering is on.
    pub closed spec fn reordering(&self) -> bool {
        self.reorder_enabled
    }

    /// Turns automatic reordering on or off.
    pub fn set_reorder(&mut self, on: bool)
        requires
            old(self).wf(),
        ensures
            final(self).wf(),
            final(self).keeps(old(self)),
            final(self).reordering() == on,
            final(self).live() == old(self).live(),
    {
        self.reorder_enabled = on;
    }

    /// The node that stands for the function of `n`: `n` itself.
    pub fn resolve(&self, n: NodeId) -> (r: NodeId)
        ensures
            r == n,
    {
        n
    }

    /// Whether two nodes have the same function.
    pub fn same(&self, a: NodeId, b: NodeId) -> (r: bool)
        requires
            self.wf(),
            self.valid(a),
            self.valid(b),
        ensures
            r == (forall|x: Asg| #[trigger] self.eval(a, x) == self.eval(b, x)),
    {
        proof {
            if forall|x: Asg| #[trigger] self.eval(a, x) == self.eval(b, x) {
                self.canonical(a, b);
            }
        }
        a == b
    }

    /// The node for "if `var` then `hi` else `lo`".
    fn mk(&mut self, var: u32, lo: NodeId, hi: NodeId) -> (r: NodeId)
        requires
            old(self).wf(),
            var < old(self).store.level_of@.len(),
            old(self).valid(lo),
            old(self).valid(hi),
            old(self).store.level_of@[var as int] < old(self).store.level(lo),
            old(self).store.level_of@[var as int] < old(self).store.level(hi),
        ensures
            final(self).wf(),
            final(self).store.grows(&old(self).store),
            final(self).preds == old(self).preds,
            final(self).valid(r),
            splits(final(self).store.fun@, r, var, lo, hi),
            final(self).store.level(r) >= old(self).store.level_of@[var as int],
            final(self).store.level_of == old(self).store.level_of,
            final(self).ite_cache == old(self).ite_cache,
            final(self).exists_cache == old(self).exists_cache,
            final(self).shift_cache == old(self).shift_cache,
    {
        let r = self.store.mk_on(var, lo, hi, Ghost(Set::empty()));
        proof {
            self.store.keep_caches(
                &old(self).store,
                self.ite_cache@,
                self.exists_cache@,
                self.preds@,
                self.shift_cache@,
            );
        }
        r
    }

    fn reserve(&mut self, v: u32)
        requires
            old(self).wf(),
            v < VAR_LIMIT,
        ensures
            final(self).wf(),
            final(self).store.grows(&old(self).store),
            final(self).preds == old(self).preds,
            v < final(self).store.level_of@.len(),
            v < old(self).store.level_of@.len() ==> final(self).store == old(self).store,
            final(self).store.nodes == old(self).store.nodes,
            final(self).store.fun == old(self).store.fun,
            final(self).ite_cache == old(self).ite_cache,
            final(self).exists_cache == old(self).exists_cache,
            final(self).shift_cache == old(self).shift_cache,
    {
        self.store.ensure_var(v);
        if self.num_vars < v + 1 {
            self.num_vars = v + 1;
        }
        proof {
            self.store.keep_caches(
                &old(self).store,
                self.ite_cache@,
                self.exists_cache@,
                self.preds@,
                self.shift_cache@,
            );
        }
    }

    proof fn keeps_of_grows(&self, old: &Mgr)
        requires
            self.store.grows(&old.store),
            self.preds == old.preds,
        ensures
            self.keeps(old),
    {
        assert forall|n: NodeId| #[trigger] old.valid(n) implies self.valid(n) by {
            self.store.same_ev(&old.store, n);
        }
        assert forall|n: NodeId, a: Asg| old.valid(n) implies #[trigger] self.eval(n, a) == old.eval(
            n,
            a,
        ) by {
            self.store.same_ev(&old.store, n);
        }
    }

    /// The function that is the variable `v`.
    pub fn var(&mut self, v: u32) -> (r: NodeId)
        requires
            old(self).wf(),
            v < VAR_LIMIT,
        ensures
            final(self).wf(),
            final(self).keeps(old(self)),
            final(self).valid(r),
            forall|a: Asg| #[trigger] final(self).eval(r, a) == a(v),
    {
        self.reserve(v);
        let r = self.mk(v, F, T);
        proof {
            self.keeps_of_grows(old(self));
            assert forall|a: Asg| #[trigger] self.eval(r, a) == a(v) by {
                assert(ev(self.store.fun@, r, a) == a(v)) by {
                    assert(ev(self.store.fun@, 0, a) == false);
                    assert(ev(self.store.fun@, 1, a) == true);
                }
            }
        }
        r
    }

    /// The function that is the negation of the variable `v`.
    pub fn nvar(&mut self, v: u32) -> (r: NodeId)
        requires
            old(self).wf(),
            v < VAR_LIMIT,
        ensures
            final(self).wf(),
            final(self).keeps(old(self)),
            final(self).valid(r),
            forall|a: Asg| #[trigger] final(self).eval(r, a) == !a(v),
    {
        self.reserve(v);
        let r = self.mk(v, T, F);
        proof {
            self.keeps_of_grows(old(self));
            assert forall|a: Asg| #[trigger] self.eval(r, a) == !a(v) by {
                assert(ev(self.store.fun@, r, a) == !a(v)) by {
                    assert(ev(self.store.fun@, 0, a) == false);
                    assert(ev(self.store.fun@, 1, a) == true);
                }
            }
        }
        r
    }

    fn ite_rec(&mut self, c: NodeId, t: NodeId, e: NodeId) -> (r: NodeId)
        requires
            old(self).wf(),
            old(self).valid(c),
            old(self).valid(t),
            old(self).valid(e),
        ensures
            final(self).wf(),
            final(self).store.grows(&old(self).store),
            final(self).preds == old(self).preds,
            final(self).store.level_of == old(self).store.level_of,
            final(self).exists_cache == old(self).exists_cache,
            final(self).shift_cache == old(self).shift_cache,
            final(self).store.ite_entry(c, t, e, r),
        decreases
                0xffff_ffff - min3(
                    old(self).store.level(c),
                    old(self).store.level(t),
                    old(self).store.level(e),
                ),
    {
        proof {
            assert(forall|a: Asg| self.store.ev(0, a) == ev(self.store.fun@, 0, a));
            assert(forall|a: Asg| self.store.ev(1, a) == ev(self.store.fun@, 1, a));
        }
        if c == T {
            return t;
        }
        if c == F {
            return e;
        }
        if t == e {
            return t;
        }
        if t == T && e == F {
            return c;
        }
        let key: Key = (c as u64, t as u64, e as u64);
        match table_get(&self.ite_cache, key) {
            Some(r) => {
                return r;
            },
            None => {},
        }
        let lc: u32 = self.store.level_at(c);
        let lt: u32 = self.store.level_at(t);
        let le: u32 = self.store.level_at(e);
        let mut top: u32 = lc;
        if lt < top {
            top = lt;
        }
        if le < top {
            top = le;
        }
        proof {
            assert(inner_in(self.store.nodes@, c));
            assert(node_base(self.store.nodes@, self.store.fun@, self.store.level_of@.len() as int, c));
            assert(lc < self.store.level_of@.len());
        }
        let var: u32 = self.store.var_at[top as usize];
        let (c0, c1) = self.store.cofactor(c, var);
        let (t0, t1) = self.store.cofactor(t, var);
        let (e0, e1) = self.store.cofactor(e, var);
        let lo = self.ite_rec(c0, t0, e0);
        let ghost mid = *self;
        proof {
            self.store.same_level(&old(self).store, c1);
            self.store.same_level(&old(self).store, t1);
            self.store.same_level(&old(self).store, e1);
        }
        let hi = self.ite_rec(c1, t1, e1);
        proof {
            self.store.same_level(&mid.store, lo);
        }
        let ghost post = *self;
        let r = self.mk(var, lo, hi);
        proof {
            let pre = *old(self);
            let st = self.store;
            st.same_ev(&pre.store, c);
            st.same_ev(&pre.store, t);
            st.same_ev(&pre.store, e);
            st.same_ev(&pre.store, c0);
            st.same_ev(&pre.store, c1);
            st.same_ev(&pre.store, t0);
            st.same_ev(&pre.store, t1);
            st.same_ev(&pre.store, e0);
            st.same_ev(&pre.store, e1);
            mid.store.same_ev(&pre.store, c0);
            mid.store.same_ev(&pre.store, t0);
            mid.store.same_ev(&pre.store, e0);
            post.store.same_ev(&pre.store, c1);
            post.store.same_ev(&pre.store, t1);
            post.store.same_ev(&pre.store, e1);
            st.same_ev(&mid.store, lo);
            st.same_ev(&post.store, hi);
            assert forall|a: Asg| #[trigger] st.ev(r, a) == if st.ev(c, a) {
                st.ev(t, a)
            } else {
                st.ev(e, a)
            } by {
                assert(ev(st.fun@, r, a) == if a(var) {
                    ev(st.fun@, hi, a)
                } else {
                    ev(st.fun@, lo, a)
                });
                assert(st.ev(lo, a) == mid.store.ev(lo, a));
                assert(st.ev(hi, a) == post.store.ev(hi, a));
                assert(ev(pre.store.fun@, c, a) == if a(var) {
                    ev(pre.store.fun@, c1, a)
                } else {
                    ev(pre.store.fun@, c0, a)
                });
                assert(ev(pre.store.fun@, t, a) == if a(var) {
                    ev(pre.store.fun@, t1, a)
                } else {
                    ev(pre.store.fun@, t0, a)
                });
                assert(ev(pre.store.fun@, e, a) == if a(var) {
                    ev(pre.store.fun@, e1, a)
                } else {
                    ev(pre.store.fun@, e0, a)
                });
                assert(st.ev(c, a) == pre.store.ev(c, a));
                assert(st.ev(t, a) == pre.store.ev(t, a));
                assert(st.ev(e, a) == pre.store.ev(e, a));
                assert(st.ev(c0, a) == pre.store.ev(c0, a));
                assert(mid.store.ev(c0, a) == pre.store.ev(c0, a));
                assert(mid.store.ev(t0, a) == pre.store.ev(t0, a));
                assert(mid.store.ev(e0, a) == pre.store.ev(e0, a));
                assert(post.store.ev(c1, a) == pre.store.ev(c1, a));
                assert(post.store.ev(t1, a) == pre.store.ev(t1, a));
                assert(post.store.ev(e1, a) == pre.store.ev(e1, a));
            }
            st.same_level(&pre.store, c);
            st.same_level(&pre.store, t);
            st.same_level(&pre.store, e);
            assert(st.ite_entry(c, t, e, r));
        }
        table_insert(&mut self.ite_cache, key, r);
        r
    }
}

/// The variables of the current state.
pub open spec fn current() -> Vars {
    |v: u32| v % 2 == 0
}

/// The variables of the next state.
pub open spec fn upcoming() -> Vars {
    |v: u32| v % 2 == 1
}

/// The assignment agrees with a partial one.
pub open spec fn consistent(a: Asg, c: Map<u32, bool>) -> bool {
    forall|v: u32| #[trigger] c.contains_key(v) ==> a(v) == c[v]
}

/// The assignment that follows a partial one, and `a` elsewhere.
pub open spec fn overridden(a: Asg, c: Map<u32, bool>) -> Asg {
    |v: u32|
        if c.contains_key(v) {
            c[v]
        } else {
            a(v)
        }
}

/// The test answers `true` exactly on the variables of `q`.
pub open spec fn describes<Q: Fn(u32) -> bool>(t: Q, q: Vars) -> bool {
    forall|v: u32, b: bool| #[trigger] t.ensures((v,), b) ==> b == q(v)
}

/// The test can be asked about every variable.
pub open spec fn answers<Q: Fn(u32) -> bool>(t: Q) -> bool {
    forall|v: u32| #[trigger] t.requires((v,))
}

/// The sets of variables that fit a test and all earlier ones under the same key.
pub open spec fn narrowed<Q: Fn(u32) -> bool>(
    preds: Map<u64, spec_fn(Vars) -> bool>,
    key: u64,
    t: Q,
) -> spec_fn(Vars) -> bool {
    |q: Vars| describes(t, q) && (preds.contains_key(key) ==> (preds[key])(q))
}

impl Store {
    /// A function of `q` tests only variables of `q`, and so do its branches.
    proof fn support(&self, n: NodeId, q: Vars)
        requires
            self.wf(),
            self.inner(n),
            self.only(n, q),
        ensures
            q(self.nodes@[n as int].var),
            self.only(self.nodes@[n as int].lo, q),
            self.only(self.nodes@[n as int].hi, q),
    {
        let k = self.nodes@[n as int];
        if !q(k.var) {
            self.no_redundancy(n);
            let a = choose|a: Asg| #[trigger]
                self.ev(n, with(a, k.var, false)) != self.ev(n, with(a, k.var, true));
            let x = with(a, k.var, false);
            let y = with(a, k.var, true);
            assert(forall|v: u32| #[trigger] q(v) ==> x(v) == y(v));
            assert(self.ev(n, x) == self.ev(n, y));
        }
        assert forall|a: Asg, b: Asg| (forall|v: u32| #[trigger] q(v) ==> a(v) == b(v)) implies
            #[trigger] self.ev(k.lo, a) == #[trigger] self.ev(k.lo, b) by {
            self.branch(n, a);
            self.branch(n, b);
            let x = with(a, k.var, false);
            let y = with(b, k.var, false);
            assert(forall|v: u32| #[trigger] q(v) ==> x(v) == y(v));
            assert(self.ev(n, x) == self.ev(n, y));
        }
        assert forall|a: Asg, b: Asg| (forall|v: u32| #[trigger] q(v) ==> a(v) == b(v)) implies
            #[trigger] self.ev(k.hi, a) == #[trigger] self.ev(k.hi, b) by {
            self.branch(n, a);
            self.branch(n, b);
            let x = with(a, k.var, true);
            let y = with(b, k.var, true);
            assert(forall|v: u32| #[trigger] q(v) ==> x(v) == y(v));
            assert(self.ev(n, x) == self.ev(n, y));
        }
    }

    spec fn only(&self, n: NodeId, q: Vars) -> bool {
        forall|a: Asg, b: Asg|
            (forall|v: u32| #[trigger] q(v) ==> a(v) == b(v)) ==> #[trigger] self.ev(n, a)
                == #[trigger] self.ev(n, b)
    }
}

impl Mgr {
    /// "If `c` then `t` else `e`".
    pub fn ite(&mut self, c: NodeId, t: NodeId, e: NodeId) -> (r: NodeId)
        requires
            old(self).wf(),
            old(self).valid(c),
            old(self).valid(t),
            old(self).valid(e),
        ensures
            final(self).wf(),
            final(self).keeps(old(self)),
            final(self).valid(r),
            forall|a: Asg| #[trigger]
                final(self).eval(r, a) == if old(self).eval(c, a) {
                    old(self).eval(t, a)
                } else {
                    old(self).eval(e, a)
                },
    {
        let r = self.ite_rec(c, t, e);
        proof {
            self.keeps_of_grows(old(self));
            assert forall|a: Asg| #[trigger] self.eval(r, a) == if old(self).eval(c, a) {
                old(self).eval(t, a)
            } else {
                old(self).eval(e, a)
            } by {
                assert(self.store.ev(r, a) == if self.store.ev(c, a) {
                    self.store.ev(t, a)
                } else {
                    self.store.ev(e, a)
                });
                assert(self.eval(c, a) == old(self).eval(c, a));
                assert(self.eval(t, a) == old(self).eval(t, a));
                assert(self.eval(e, a) == old(self).eval(e, a));
            }
        }
        r
    }

    /// Conjunction.
    pub fn and(&mut self, x: NodeId, y: NodeId) -> (r: NodeId)
        requires
            old(self).wf(),
            old(self).valid(x),
            old(self).valid(y),
        ensures
            final(self).wf(),
            final(self).keeps(old(self)),
            final(self).valid(r),
            forall|a: Asg| #[trigger]
                final(self).eval(r, a) == (old(self).eval(x, a) && old(self).eval(y, a)),
    {
        proof {
            self.constants_meaning();
        }
        self.ite(x, y, F)
    }

    /// Disjunction.
    pub fn or(&mut self, x: NodeId, y: NodeId) -> (r: NodeId)
        requires
            old(self).wf(),
            old(self).valid(x),
            old(self).valid(y),
        ensures
            final(self).wf(),
            final(self).keeps(old(self)),
            final(self).valid(r),
            forall|a: Asg| #[trigger]
                final(self).eval(r, a) == (old(self).eval(x, a) || old(self).eval(y, a)),
    {
        proof {
            self.constants_meaning();
        }
        self.ite(x, T, y)
    }

    /// Negation.
    pub fn not(&mut self, x: NodeId) -> (r: NodeId)
        requires
            old(self).wf(),
            old(self).valid(x),
        ensures
            final(self).wf(),
            final(self).keeps(old(self)),
            final(self).valid(r),
            forall|a: Asg| #[trigger] final(self).eval(r, a) == !old(self).eval(x, a),
    {
        proof {
            self.constants_meaning();
        }
        self.ite(x, F, T)
    }

    /// Exclusive disjunction.
    pub fn xor(&mut self, x: NodeId, y: NodeId) -> (r: NodeId)
        requires
            old(self).wf(),
            old(self).valid(x),
            old(self).valid(y),
        ensures
            final(self).wf(),
            final(self).keeps(old(self)),
            final(self).valid(r),
            forall|a: Asg| #[trigger]
                final(self).eval(r, a) == (old(self).eval(x, a) != old(self).eval(y, a)),
    {
        let ny = self.not(y);
        self.ite(x, ny, y)
    }

    /// Equivalence.
    pub fn iff(&mut self, x: NodeId, y: NodeId) -> (r: NodeId)
        requires
            old(self).wf(),
            old(self).valid(x),
            old(self).valid(y),
        ensures
            final(self).wf(),
            final(self).keeps(old(self)),
            final(self).valid(r),
            forall|a: Asg| #[trigger]
                final(self).eval(r, a) == (old(self).eval(x, a) == old(self).eval(y, a)),
    {
        let ny = self.not(y);
        self.ite(x, y, ny)
    }

    /// Conjunction of several functions.
    pub fn and_many(&mut self, xs: &Vec<NodeId>) -> (r: NodeId)
        requires
            old(self).wf(),
            forall|i: int| 0 <= i < xs@.len() ==> old(self).valid(#[trigger] xs@[i]),
        ensures
            final(self).wf(),
            final(self).keeps(old(self)),
            final(self).valid(r),
            forall|a: Asg| #[trigger]
                final(self).eval(r, a) == (forall|i: int|
                    0 <= i < xs@.len() ==> old(self).eval(#[trigger] xs@[i], a)),
    {
        proof {
            self.constants_meaning();
        }
        let mut r = T;
        let mut i: usize = 0;
        while i < xs.len()
            invariant
                i <= xs.len(),
                self.wf(),
                self.keeps(old(self)),
                self.valid(r),
                forall|k: int| 0 <= k < xs@.len() ==> old(self).valid(#[trigger] xs@[k]),
                forall|a: Asg| #[trigger]
                    self.eval(r, a) == (forall|k: int|
                        0 <= k < i ==> old(self).eval(#[trigger] xs@[k], a)),
            decreases xs.len() - i,
        {
            let ghost before = *self;
            r = self.and(r, xs[i]);
            assert forall|a: Asg| #[trigger] self.eval(r, a) == (forall|k: int|
                0 <= k < i + 1 ==> old(self).eval(#[trigger] xs@[k], a)) by {
                assert(before.eval(xs@[i as int], a) == old(self).eval(xs@[i as int], a));
            }
            i += 1;
            if r == F {
                proof {
                    self.constants_meaning();
                    assert forall|a: Asg| #[trigger] self.eval(r, a) == (forall|k: int|
                        0 <= k < xs@.len() ==> old(self).eval(#[trigger] xs@[k], a)) by {
                        assert(!self.eval(r, a));
                    }
                }
                return r;
            }
        }
        r
    }

    /// Disjunction of several functions.
    pub fn or_many(&mut self, xs: &Vec<NodeId>) -> (r: NodeId)
        requires
            old(self).wf(),
            forall|i: int| 0 <= i < xs@.len() ==> old(self).valid(#[trigger] xs@[i]),
        ensures
            final(self).wf(),
            final(self).keeps(old(self)),
            final(self).valid(r),
            forall|a: Asg| #[trigger]
                final(self).eval(r, a) == (exists|i: int|
                    0 <= i < xs@.len() && old(self).eval(#[trigger] xs@[i], a)),
    {
        proof {
            self.constants_meaning();
        }
        let mut r = F;
        let mut i: usize = 0;
        while i < xs.len()
            invariant
                i <= xs.len(),
                self.wf(),
                self.keeps(old(self)),
                self.valid(r),
                forall|k: int| 0 <= k < xs@.len() ==> old(self).valid(#[trigger] xs@[k]),
                forall|a: Asg| #[trigger]
                    self.eval(r, a) == (exists|k: int|
                        0 <= k < i && old(self).eval(#[trigger] xs@[k], a)),
            decreases xs.len() - i,
        {
            let ghost before = *self;
            r = self.or(r, xs[i]);
            assert forall|a: Asg| #[trigger] self.eval(r, a) == (exists|k: int|
                0 <= k < i + 1 && old(self).eval(#[trigger] xs@[k], a)) by {
                assert(before.eval(xs@[i as int], a) == old(self).eval(xs@[i as int], a));
                if before.eval(xs@[i as int], a) {
                    assert(0 <= i < i + 1);
                }
            }
            i += 1;
            if r == T {
                proof {
                    self.constants_meaning();
                    assert forall|a: Asg| #[trigger] self.eval(r, a) == (exists|k: int|
                        0 <= k < xs@.len() && old(self).eval(#[trigger] xs@[k], a)) by {
                        assert(self.eval(r, a));
                        let k = choose|k: int| 0 <= k < i && old(self).eval(#[trigger] xs@[k], a);
                        assert(0 <= k < xs@.len());
                    }
                }
                return r;
            }
        }
        r
    }

    /// Quantifies the variables on which `quantify` answers `true`. Results are remembered under
    /// the key, so a key has to go with one set of variables.
    pub fn exists_where<Q: Fn(u32) -> bool>(
        &mut self,
        n: NodeId,
        quantify: &Q,
        cache_key: u64,
    ) -> (r: NodeId)
        requires
            old(self).wf(),
            old(self).valid(n),
            answers(*quantify),
        ensures
            final(self).wf(),
            final(self).keeps_values(old(self)),
            final(self).preds() =~= old(self).preds().insert(
                cache_key,
                narrowed(old(self).preds(), cache_key, *quantify),
            ),
            final(self).valid(r),
            forall|q: Vars, a: Asg|
                narrowed(old(self).preds(), cache_key, *quantify)(q) ==> final(self).eval(r, a)
                    == #[trigger] old(self).some_choice(n, q, a),
    {
        let ghost qs = narrowed(self.preds@, cache_key, *quantify);
        self.preds = Ghost(self.preds@.insert(cache_key, qs));
        assert(self.store.exists_ok(self.exists_cache@, self.preds@)) by {
            assert forall|m: NodeId, k: u64| #[trigger]
                self.exists_cache@.contains_key((m as u64, k, 0u64)) implies self.preds@.contains_key(
                k,
            ) && self.store.exists_entry(
                m,
                self.preds@[k],
                self.exists_cache@[(m as u64, k, 0u64)],
            ) by {
                assert(old(self).preds@.contains_key(k));
                let ps = old(self).preds@[k];
                assert(old(self).store.exists_entry(m, ps, self.exists_cache@[(m as u64, k, 0u64)]));
            }
        }
        let ghost start = *self;
        let r = self.exists_rec(n, quantify, cache_key);
        proof {
            self.keeps_of_grows(&start);
            assert forall|m: NodeId| #[trigger] old(self).valid(m) implies self.valid(m) by {
                assert(start.valid(m));
            }
            assert forall|m: NodeId, a: Asg| old(self).valid(m) implies #[trigger] self.eval(m, a)
                == old(self).eval(m, a) by {
                assert(start.valid(m));
                assert(self.eval(m, a) == start.eval(m, a));
            }
            self.store.same_ev(&start.store, n);
            assert forall|q: Vars, a: Asg| qs(q) implies self.eval(r, a) == #[trigger] old(
                self).some_choice(n, q, a) by {
                self.store.same_choice(&start.store, n, q, a);
                assert(self.store.ev(r, a) == self.store.some_choice(n, q, a));
                self.choice_of_store(&start, n, q, a);
                assert(start.some_choice(n, q, a) == old(self).some_choice(n, q, a)) by {
                    assert(forall|b: Asg| start.eval(n, b) == old(self).eval(n, b));
                }
            }
        }
        r
    }

    proof fn choice_of_store(&self, start: &Mgr, n: NodeId, q: Vars, a: Asg)
        ensures
            start.store.some_choice(n, q, a) == start.some_choice(n, q, a),
    {
        if start.store.some_choice(n, q, a) {
            let b = choose|b: Asg| agree_outside(a, b, q) && #[trigger] start.store.ev(n, b);
            assert(start.eval(n, b));
        }
        if start.some_choice(n, q, a) {
            let b = choose|b: Asg| agree_outside(a, b, q) && #[trigger] start.eval(n, b);
            assert(start.store.ev(n, b));
        }
    }

    fn exists_rec<Q: Fn(u32) -> bool>(
        &mut self,
        n: NodeId,
        quantify: &Q,
        cache_key: u64,
    ) -> (r: NodeId)
        requires
            old(self).wf(),
            old(self).valid(n),
            answers(*quantify),
            old(self).preds@.contains_key(cache_key),
            forall|q: Vars| #[trigger] (old(self).preds@[cache_key])(q) ==> describes(*quantify, q),
        ensures
            final(self).wf(),
            final(self).store.grows(&old(self).store),
            final(self).preds == old(self).preds,
            final(self).store.level_of == old(self).store.level_of,
            final(self).store.exists_entry(n, old(self).preds@[cache_key], r),
        decreases 0xffff_ffff - old(self).store.level(n),
    {
        let ghost qs = self.preds@[cache_key];
        if n <= 1 {
            proof {
                let st = self.store;
                assert forall|q: Vars, a: Asg| qs(q) implies st.ev(n, a) == #[trigger] st.some_choice(
                    n,
                    q,
                    a,
                ) by {
                    assert(ev(st.fun@, 0, a) == false);
                    assert(ev(st.fun@, 1, a) == true);
                    if st.some_choice(n, q, a) {
                        let b = choose|b: Asg| agree_outside(a, b, q) && #[trigger] st.ev(n, b);
                        assert(ev(st.fun@, 0, b) == false);
                    }
                    if st.ev(n, a) {
                        assert(agree_outside(a, a, q));
                    }
                }
            }
            return n;
        }
        let key: Key = (n as u64, cache_key, 0u64);
        match table_get(&self.exists_cache, key) {
            Some(r) => {
                return r;
            },
            None => {},
        }
        assert(inner_in(self.store.nodes@, n));
        let node = self.store.nodes[n];
        proof {
            self.store.branch(n, |u: u32| false);
            assert(node_base(self.store.nodes@, self.store.fun@, self.store.level_of@.len() as int, n));
        }
        let lo = self.exists_rec(node.lo, quantify, cache_key);
        let ghost mid = *self;
        proof {
            self.store.same_level(&old(self).store, node.hi);
        }
        let hi = self.exists_rec(node.hi, quantify, cache_key);
        let ghost post = *self;
        proof {
            post.store.same_level(&mid.store, lo);
            mid.store.same_level(&old(self).store, node.lo);
            assert(post.store.level(hi) >= old(self).store.level(node.hi));
        }
        let hidden = quantify(node.var);
        let r;
        if hidden {
            r = self.ite_rec(lo, T, hi);
        } else {
            r = self.mk(node.var, lo, hi);
        }
        proof {
            let pre = *old(self);
            let st = self.store;
            st.same_ev(&pre.store, n);
            st.same_ev(&pre.store, node.lo);
            st.same_ev(&pre.store, node.hi);
            mid.store.same_ev(&pre.store, node.lo);
            post.store.same_ev(&mid.store, lo);
            post.store.same_ev(&pre.store, node.hi);
            st.same_ev(&post.store, lo);
            st.same_ev(&post.store, hi);
            assert forall|q: Vars, a: Asg| qs(q) implies st.ev(r, a) == #[trigger] st.some_choice(
                n,
                q,
                a,
            ) by {
                assert(describes(*quantify, q));
                assert(hidden == q(node.var));
                st.same_choice(&pre.store, n, q, a);
                mid.store.same_choice(&pre.store, node.lo, q, a);
                post.store.same_choice(&pre.store, node.hi, q, a);
                assert(st.ev(lo, a) == mid.store.ev(lo, a));
                assert(mid.store.ev(lo, a) == mid.store.some_choice(node.lo, q, a));
                assert(st.ev(hi, a) == post.store.ev(hi, a));
                assert(post.store.ev(hi, a) == post.store.some_choice(node.hi, q, a));
                assert(ev(st.fun@, 1, a) == true);
                assert(st.ev(1, a));
                if q(node.var) {
                    pre.store.choice_in(n, q, a);
                    assert(st.ev(r, a) == if st.ev(lo, a) {
                        st.ev(1, a)
                    } else {
                        st.ev(hi, a)
                    });
                } else {
                    pre.store.choice_out(n, q, a);
                    assert(ev(st.fun@, r, a) == if a(node.var) {
                        ev(st.fun@, hi, a)
                    } else {
                        ev(st.fun@, lo, a)
                    });
                }
            }
            st.same_level(&pre.store, n);
            st.same_level(&post.store, hi);
            st.same_level(&post.store, lo);
            assert(st.exists_entry(n, qs, r));
        }
        table_insert(&mut self.exists_cache, key, r);
        r
    }

    /// Moves every variable to its partner: `delta` 1 from current to next state, -1 back.
    pub fn shift(&mut self, n: NodeId, delta: i8) -> (r: NodeId)
        requires
            old(self).wf(),
            old(self).valid(n),
            delta == 1 || delta == -1,
            delta == 1 ==> old(self).depends_on(n, current()),
            delta == -1 ==> old(self).depends_on(n, upcoming()),
        ensures
            final(self).wf(),
            final(self).keeps(old(self)),
            final(self).valid(r),
            forall|a: Asg| #[trigger]
                final(self).eval(r, a) == old(self).eval(n, shifted(a, delta == 1)),
    {
        proof {
            assert forall|q: Vars| #[trigger] old(self).depends_on(n, q) implies old(self).store.only(
                n,
                q,
            ) by {
                assert forall|a: Asg, b: Asg| (forall|v: u32| #[trigger] q(v) ==> a(v) == b(v)) implies
                    #[trigger] old(self).store.ev(n, a) == #[trigger] old(self).store.ev(n, b) by {
                    assert(old(self).eval(n, a) == old(self).eval(n, b));
                }
            }
        }
        let r = self.shift_rec(n, delta == 1);
        proof {
            self.keeps_of_grows(old(self));
            assert forall|a: Asg| #[trigger] self.eval(r, a) == old(self).eval(
                n,
                shifted(a, delta == 1),
            ) by {
                assert(self.store.ev(r, a) == self.store.ev(n, shifted(a, delta == 1)));
                assert(self.eval(n, shifted(a, delta == 1)) == old(self).eval(
                    n,
                    shifted(a, delta == 1),
                ));
            }
        }
        r
    }

    fn shift_rec(&mut self, n: NodeId, up: bool) -> (r: NodeId)
        requires
            old(self).wf(),
            old(self).valid(n),
            old(self).store.only(
                n,
                if up {
                    current()
                } else {
                    upcoming()
                },
            ),
        ensures
            final(self).wf(),
            final(self).store.grows(&old(self).store),
            final(self).preds == old(self).preds,
            final(self).store.level_of == old(self).store.level_of,
            final(self).store.shift_entry(n, up, r),
        decreases 0xffff_ffff - old(self).store.level(n),
    {
        let ghost q = if up {
            current()
        } else {
            upcoming()
        };
        if n <= 1 {
            proof {
                let st = self.store;
                assert forall|a: Asg| #[trigger] st.ev(n, a) == st.ev(n, shifted(a, up)) by {
                    assert(ev(st.fun@, 0, a) == false);
                    assert(ev(st.fun@, 1, a) == true);
                    assert(ev(st.fun@, 0, shifted(a, up)) == false);
                    assert(ev(st.fun@, 1, shifted(a, up)) == true);
                }
            }
            return n;
        }
        let tag: u64 = if up {
            1
        } else {
            0
        };
        let key: Key = (n as u64, tag, 0u64);
        assert(tag == shift_key(up));
        match table_get(&self.shift_cache, key) {
            Some(r) => {
                return r;
            },
            None => {},
        }
        assert(inner_in(self.store.nodes@, n));
        let node = self.store.nodes[n];
        proof {
            self.store.branch(n, |u: u32| false);
            self.store.support(n, q);
            assert(node_base(self.store.nodes@, self.store.fun@, self.store.level_of@.len() as int, n));
        }
        let lo = self.shift_rec(node.lo, up);
        let ghost mid = *self;
        proof {
            self.store.same_level(&old(self).store, node.hi);
            self.store.same_ev(&old(self).store, node.hi);
            assert forall|a: Asg, b: Asg| (forall|v: u32| #[trigger] q(v) ==> a(v) == b(v)) implies
                #[trigger] self.store.ev(node.hi, a) == #[trigger] self.store.ev(node.hi, b) by {
                assert(old(self).store.ev(node.hi, a) == old(self).store.ev(node.hi, b));
            }
        }
        let hi = self.shift_rec(node.hi, up);
        let ghost post = *self;
        let v: u32 = if up {
            node.var + 1
        } else {
            node.var - 1
        };
        proof {
            post.store.same_level(&mid.store, lo);
            mid.store.same_level(&old(self).store, node.lo);
            let even: int = if up {
                node.var as int
            } else {
                node.var - 1
            };
            assert(even % 2 == 0);
            assert(self.store.level_of@[even + 1] == self.store.level_of@[even] + 1);
            assert(self.store.level_of@[v as int] == shifted_level(old(self).store.level(n), up));
        }
        let r = self.mk(v, lo, hi);
        proof {
            let pre = *old(self);
            let st = self.store;
            st.same_ev(&pre.store, n);
            st.same_ev(&pre.store, node.lo);
            st.same_ev(&pre.store, node.hi);
            mid.store.same_ev(&pre.store, node.lo);
            post.store.same_ev(&pre.store, node.hi);
            st.same_ev(&mid.store, lo);
            st.same_ev(&post.store, hi);
            assert forall|a: Asg| #[trigger] st.ev(r, a) == st.ev(n, shifted(a, up)) by {
                let b = shifted(a, up);
                assert(b(node.var) == a(v));
                assert(ev(st.fun@, r, a) == if a(v) {
                    ev(st.fun@, hi, a)
                } else {
                    ev(st.fun@, lo, a)
                });
                assert(ev(pre.store.fun@, n, b) == if b(node.var) {
                    ev(pre.store.fun@, node.hi, b)
                } else {
                    ev(pre.store.fun@, node.lo, b)
                });
                assert(st.ev(lo, a) == mid.store.ev(lo, a));
                assert(st.ev(hi, a) == post.store.ev(hi, a));
                assert(mid.store.ev(lo, a) == mid.store.ev(node.lo, b));
                assert(post.store.ev(hi, a) == post.store.ev(node.hi, b));
                assert(mid.store.ev(node.lo, b) == pre.store.ev(node.lo, b));
                assert(post.store.ev(node.hi, b) == pre.store.ev(node.hi, b));
                assert(st.ev(n, b) == pre.store.ev(n, b));
            }
            st.same_level(&pre.store, n);
            assert(st.shift_entry(n, up, r));
        }
        table_insert(&mut self.shift_cache, key, r);
        r
    }

    /// A partial assignment under which the function of `n` is true, if there is one.
    pub fn pick(&self, n: NodeId) -> (r: Option<Cube>)
        requires
            self.wf(),
            self.valid(n),
        ensures
            match r {
                Some(c) => forall|a: Asg| consistent(a, c@) ==> #[trigger] self.eval(n, a),
                None => forall|a: Asg| !#[trigger] self.eval(n, a),
            },
            r is None <==> n == F,
    {
        proof {
            self.constants_meaning();
        }
        if n == F {
            return None;
        }
        let mut cur: NodeId = n;
        let mut out = cube_new();
        while cur > T
            invariant
                self.wf(),
                self.valid(cur),
                cur != F,
                forall|v: u32| #[trigger]
                    out@.contains_key(v) ==> v < self.store.level_of@.len()
                        && self.store.level_of@[v as int] < self.store.level(cur),
                forall|a: Asg|
                    consistent(a, out@) ==> #[trigger] self.store.ev(n, a) == self.store.ev(cur, a),
            decreases 0xffff_ffff - self.store.level(cur),
        {
            assert(inner_in(self.store.nodes@, cur));
            let node = self.store.nodes[cur];
            proof {
                self.store.branch(cur, |u: u32| false);
                assert(node_base(
                    self.store.nodes@,
                    self.store.fun@,
                    self.store.level_of@.len() as int,
                    cur,
                ));
            }
            let ghost before = out@;
            let next: NodeId;
            if node.lo != F {
                cube_insert(&mut out, node.var, false);
                next = node.lo;
            } else {
                cube_insert(&mut out, node.var, true);
                next = node.hi;
            }
            proof {
                assert forall|a: Asg| consistent(a, out@) implies #[trigger] self.store.ev(n, a)
                    == self.store.ev(next, a) by {
                    assert(!before.contains_key(node.var));
                    assert(out@.contains_key(node.var));
                    assert(a(node.var) == out@[node.var]);
                    assert(consistent(a, before)) by {
                        assert forall|v: u32| #[trigger] before.contains_key(v) implies a(v)
                            == before[v] by {
                            assert(out@.contains_key(v));
                        }
                    }
                    assert(ev(self.store.fun@, cur, a) == ev(self.store.fun@, next, a));
                }
            }
            cur = next;
        }
        proof {
            assert forall|a: Asg| consistent(a, out@) implies #[trigger] self.eval(n, a) by {
                assert(self.store.ev(n, a) == self.store.ev(cur, a));
                assert(self.eval(T, a));
            }
        }
        Some(out)
    }

    /// The function under a partial assignment.
    pub fn restrict(&mut self, n: NodeId, assignment: &Cube) -> (r: NodeId)
        requires
            old(self).wf(),
            old(self).valid(n),
        ensures
            final(self).wf(),
            final(self).keeps(old(self)),
            final(self).valid(r),
            forall|a: Asg| #[trigger]
                final(self).eval(r, a) == old(self).eval(n, overridden(a, assignment@)),
    {
        let r = self.restrict_rec(n, assignment);
        proof {
            self.keeps_of_grows(old(self));
            assert forall|a: Asg| #[trigger] self.eval(r, a) == old(self).eval(
                n,
                overridden(a, assignment@),
            ) by {
                assert(self.store.ev(r, a) == old(self).store.ev(n, overridden(a, assignment@)));
            }
        }
        r
    }

    fn restrict_rec(&mut self, n: NodeId, assignment: &Cube) -> (r: NodeId)
        requires
            old(self).wf(),
            old(self).valid(n),
        ensures
            final(self).wf(),
            final(self).store.grows(&old(self).store),
            final(self).preds == old(self).preds,
            final(self).store.level_of == old(self).store.level_of,
            final(self).valid(r),
            final(self).store.level(r) >= old(self).store.level(n),
            forall|a: Asg| #[trigger]
                final(self).store.ev(r, a) == old(self).store.ev(n, overridden(a, assignment@)),
        decreases 0xffff_ffff - old(self).store.level(n),
    {
        let ghost c = assignment@;
        if n <= 1 {
            proof {
                let st = self.store;
                assert forall|a: Asg| #[trigger] st.ev(n, a) == st.ev(n, overridden(a, c)) by {
                    assert(ev(st.fun@, 0, a) == false);
                    assert(ev(st.fun@, 1, a) == true);
                    assert(ev(st.fun@, 0, overridden(a, c)) == false);
                    assert(ev(st.fun@, 1, overridden(a, c)) == true);
                }
            }
            return n;
        }
        assert(inner_in(self.store.nodes@, n));
        let node = self.store.nodes[n];
        let ghost pre = *self;
        proof {
            self.store.branch(n, |u: u32| false);
            assert(node_base(self.store.nodes@, self.store.fun@, self.store.level_of@.len() as int, n));
            assert forall|a: Asg| #[trigger] pre.store.ev(n, a) == if a(node.var) {
                pre.store.ev(node.hi, a)
            } else {
                pre.store.ev(node.lo, a)
            } by {
                assert(ev(pre.store.fun@, n, a) == if a(node.var) {
                    ev(pre.store.fun@, node.hi, a)
                } else {
                    ev(pre.store.fun@, node.lo, a)
                });
            }
        }
        match cube_get(assignment, node.var) {
            Some(b) => {
                let next = if b {
                    node.hi
                } else {
                    node.lo
                };
                let r = self.restrict_rec(next, assignment);
                assert forall|a: Asg| #[trigger] self.store.ev(r, a) == pre.store.ev(
                    n,
                    overridden(a, c),
                ) by {
                    assert(self.store.ev(r, a) == pre.store.ev(next, overridden(a, c)));
                    assert(overridden(a, c)(node.var) == b);
                }
                return r;
            },
            None => {},
        }
        let lo = self.restrict_rec(node.lo, assignment);
        let ghost mid = *self;
        proof {
            self.store.same_level(&pre.store, node.hi);
        }
        let hi = self.restrict_rec(node.hi, assignment);
        let ghost post = *self;
        proof {
            post.store.same_level(&mid.store, lo);
        }
        let r = self.mk(node.var, lo, hi);
        proof {
            let st = self.store;
            mid.store.same_ev(&pre.store, node.hi);
            st.same_ev(&mid.store, lo);
            st.same_ev(&post.store, hi);
            assert forall|a: Asg| #[trigger] st.ev(r, a) == pre.store.ev(n, overridden(a, c)) by {
                let b = overridden(a, c);
                assert(b(node.var) == a(node.var));
                assert(ev(st.fun@, r, a) == if a(node.var) {
                    ev(st.fun@, hi, a)
                } else {
                    ev(st.fun@, lo, a)
                });
                assert(st.ev(lo, a) == mid.store.ev(lo, a));
                assert(st.ev(hi, a) == post.store.ev(hi, a));
                assert(mid.store.ev(lo, a) == pre.store.ev(node.lo, b));
                assert(post.store.ev(hi, a) == mid.store.ev(node.hi, b));
                assert(mid.store.ev(node.hi, b) == pre.store.ev(node.hi, b));
            }
        }
        r
    }

    /// The value of the function of `n` under an assignment, found by following branches.
    pub fn value<Q: Fn(u32) -> bool>(&self, n: NodeId, assign: &Q) -> (r: bool)
        requires
            self.wf(),
            self.valid(n),
            answers(*assign),
        ensures
            forall|a: Vars| describes(*assign, a) ==> r == #[trigger] self.eval(n, a),
    {
        let mut cur: NodeId = n;
        while cur > T
            invariant
                self.wf(),
                self.valid(cur),
                answers(*assign),
                forall|a: Vars|
                    describes(*assign, a) ==> #[trigger] self.store.ev(n, a) == self.store.ev(cur, a),
            decreases 0xffff_ffff - self.store.level(cur),
        {
            assert(inner_in(self.store.nodes@, cur));
            let node = self.store.nodes[cur];
            proof {
                self.store.branch(cur, |u: u32| false);
                assert(node_base(
                    self.store.nodes@,
                    self.store.fun@,
                    self.store.level_of@.len() as int,
                    cur,
                ));
            }
            let b = assign(node.var);
            let next = if b {
                node.hi
            } else {
                node.lo
            };
            assert forall|a: Vars| describes(*assign, a) implies #[trigger] self.store.ev(n, a)
                == self.store.ev(next, a) by {
                assert(a(node.var) == b);
                assert(ev(self.store.fun@, cur, a) == ev(self.store.fun@, next, a));
            }
            cur = next;
        }
        proof {
            assert forall|a: Vars| describes(*assign, a) implies (cur == T) == #[trigger] self.eval(
                n,
                a,
            ) by {
                assert(self.store.ev(n, a) == self.store.ev(cur, a));
                assert(ev(self.store.fun@, 0, a) == false);
                assert(ev(self.store.fun@, 1, a) == true);
            }
        }
        cur == T
    }
}

spec fn unmarked(m: Seq<bool>) -> nat
    decreases m.len(),
{
    if m.len() == 0 {
        0
    } else {
        unmarked(m.drop_last()) + if m.last() {
            0nat
        } else {
            1nat
        }
    }
}

proof fn unmarked_update(m: Seq<bool>, i: int)
    requires
        0 <= i < m.len(),
        !m[i],
    ensures
        unmarked(m.update(i, true)) + 1 == unmarked(m),
    decreases m.len(),
{
    let u = m.update(i, true);
    if i == m.len() - 1 {
        assert(u.drop_last() =~= m.drop_last());
    } else {
        assert(u.drop_last() =~= m.drop_last().update(i, true));
        unmarked_update(m.drop_last(), i);
    }
}

spec fn live_in(nodes: Seq<Node>, n: int) -> nat
    decreases n,
{
    if n <= 2 {
        0
    } else {
        live_in(nodes, n - 1) + if nodes[n - 1].var != FREE {
            1nat
        } else {
            0nat
        }
    }
}

/// What a sweep leaves is tight.
proof fn swept_tight(pre: &Store, now: &Store, marked: Seq<bool>, roots: Seq<NodeId>)
    requires
        marked.len() == pre.nodes@.len(),
        now.nodes@.len() == pre.nodes@.len(),
        forall|n: NodeId|
            #![trigger inner_in(pre.nodes@, n)]
            inner_in(pre.nodes@, n) && marked[n as int] ==> held(pre.nodes@, marked, roots, n),
        forall|n: NodeId| #[trigger]
            valid_in(now.nodes@, n) <==> valid_in(pre.nodes@, n) && marked[n as int],
        forall|n: NodeId| valid_in(now.nodes@, n) ==> #[trigger] now.nodes@[n as int] == pre.nodes@[n as int],
    ensures
        now.tight(roots),
{
    assert forall|n: NodeId| #[trigger] now.inner(n) implies roots.contains(n) || now.below_some(n) by {
        assert(valid_in(now.nodes@, n));
        assert(inner_in(pre.nodes@, n));
        assert(held(pre.nodes@, marked, roots, n));
        if !roots.contains(n) {
            let p = choose|p: NodeId|
                #![trigger pre.nodes@[p as int]]
                inner_in(pre.nodes@, p) && marked[p as int] && (pre.nodes@[p as int].lo == n
                    || pre.nodes@[p as int].hi == n);
            assert(valid_in(now.nodes@, p));
            assert(now.nodes@[p as int] == pre.nodes@[p as int]);
            assert(now.inner(p));
        }
    }
}

proof fn live_least(a: Seq<Node>, b: Seq<Node>, n: int)
    requires
        forall|i: int| 2 <= i < n && (#[trigger] a[i]).var != FREE ==> b[i].var != FREE,
    ensures
        live_in(a, n) <= live_in(b, n),
    decreases n,
{
    if n > 2 {
        live_least(a, b, n - 1);
        assert(a[n - 1].var != FREE ==> b[n - 1].var != FREE);
    }
}

proof fn live_lost(a: Seq<Node>, b: Seq<Node>, n: int, k: int)
    requires
        forall|i: int| 2 <= i < n && (#[trigger] a[i]).var != FREE ==> b[i].var != FREE,
        2 <= k < n,
        a[k].var == FREE,
        b[k].var != FREE,
    ensures
        live_in(a, n) < live_in(b, n),
    decreases n,
{
    assert(a[n - 1].var != FREE ==> b[n - 1].var != FREE);
    if k == n - 1 {
        live_least(a, b, n - 1);
    } else {
        live_lost(a, b, n - 1, k);
    }
}

spec fn inner_set(nodes: Seq<Node>, k: int) -> Set<NodeId> {
    Set::new(|n: NodeId| 2 <= n < k && nodes[n as int].var != FREE)
}

proof fn live_counts(nodes: Seq<Node>, k: int)
    requires
        0 <= k <= nodes.len(),
        k <= usize::MAX,
    ensures
        inner_set(nodes, k).finite(),
        inner_set(nodes, k).len() == live_in(nodes, k),
    decreases k,
{
    let s = inner_set(nodes, k);
    if k <= 2 {
        assert(s =~= Set::empty());
    } else {
        live_counts(nodes, k - 1);
        let t = inner_set(nodes, k - 1);
        let n = (k - 1) as NodeId;
        if nodes[k - 1].var != FREE {
            assert(s =~= t.insert(n));
        } else {
            assert(s =~= t);
        }
    }
}

impl Store {
    /// Under one variable order a function begins with the same variable in all diagrams.
    proof fn same_top(&self, o: &Store, n: NodeId, m: NodeId)
        requires
            self.wf(),
            o.wf(),
            self.level_of@ == o.level_of@,
            self.valid(n),
            o.valid(m),
            forall|a: Asg| #[trigger] self.ev(n, a) == o.ev(m, a),
        ensures
            self.level(n) == o.level(m),
    {
        assert(n > 1 ==> inner_in(self.nodes@, n));
        assert(m > 1 ==> inner_in(o.nodes@, m));
        assert(n > 1 ==> node_base(self.nodes@, self.fun@, self.level_of@.len() as int, n));
        assert(m > 1 ==> node_base(o.nodes@, o.fun@, o.level_of@.len() as int, m));
        if self.level(n) < o.level(m) {
            let v = self.nodes@[n as int].var;
            self.no_redundancy(n);
            let a = choose|a: Asg| #[trigger] self.ev(n, with(a, v, false)) != self.ev(n, with(a, v, true));
            o.independent(m, with(a, v, false), with(a, v, true));
            assert(self.ev(n, with(a, v, false)) == o.ev(m, with(a, v, false)));
            assert(self.ev(n, with(a, v, true)) == o.ev(m, with(a, v, true)));
        } else if o.level(m) < self.level(n) {
            let v = o.nodes@[m as int].var;
            o.no_redundancy(m);
            let a = choose|a: Asg| #[trigger] o.ev(m, with(a, v, false)) != o.ev(m, with(a, v, true));
            self.independent(n, with(a, v, false), with(a, v, true));
            assert(self.ev(n, with(a, v, false)) == o.ev(m, with(a, v, false)));
            assert(self.ev(n, with(a, v, true)) == o.ev(m, with(a, v, true)));
        }
    }

    /// The node is a branch of a node in use.
    spec fn below_some(&self, n: NodeId) -> bool {
        exists|p: NodeId|
            #![trigger self.nodes@[p as int]]
            self.inner(p) && (self.nodes@[p as int].lo == n || self.nodes@[p as int].hi == n)
    }

    /// Every node in use is one of the roots, or a branch of a node in use.
    spec fn tight(&self, roots: Seq<NodeId>) -> bool {
        forall|n: NodeId| #[trigger] self.inner(n) ==> roots.contains(n) || self.below_some(n)
    }

    /// The roots have the same functions.
    spec fn same_roots(&self, o: &Store, roots: Seq<NodeId>) -> bool {
        forall|i: int|
            0 <= i < roots.len() ==> self.valid(#[trigger] roots[i]) && o.valid(roots[i]) && forall|a: Asg| #[trigger]
                self.ev(roots[i], a) == o.ev(roots[i], a)
    }

    /// A node of tight diagrams has a counterpart in all diagrams with the same roots and order.
    proof fn counterpart(&self, o: &Store, roots: Seq<NodeId>, n: NodeId) -> (m: NodeId)
        requires
            self.wf(),
            o.wf(),
            self.level_of@ == o.level_of@,
            self.tight(roots),
            self.same_roots(o, roots),
            self.inner(n),
        ensures
            o.inner(m),
            forall|a: Asg| #[trigger] self.ev(n, a) == o.ev(m, a),
        decreases self.level(n),
    {
        assert(inner_in(self.nodes@, n));
        assert(node_base(self.nodes@, self.fun@, self.level_of@.len() as int, n));
        if roots.contains(n) {
            let i = choose|i: int| 0 <= i < roots.len() && roots[i] == n;
            assert(self.valid(roots[i]));
            n
        } else {
            assert(self.below_some(n));
            let p = choose|p: NodeId|
                #![trigger self.nodes@[p as int]]
                self.inner(p) && (self.nodes@[p as int].lo == n || self.nodes@[p as int].hi == n);
            let any = |u: u32| false;
            self.branch(p, any);
            assert(inner_in(self.nodes@, p));
            assert(node_base(self.nodes@, self.fun@, self.level_of@.len() as int, p));
            let q = self.counterpart(o, roots, p);
            assert(inner_in(o.nodes@, q));
            assert(node_base(o.nodes@, o.fun@, o.level_of@.len() as int, q));
            self.same_top(o, p, q);
            let k = self.nodes@[p as int];
            let h = o.nodes@[q as int];
            assert(k.var == h.var);
            let m = if k.lo == n {
                h.lo
            } else {
                h.hi
            };
            o.branch(q, any);
            assert forall|a: Asg| #[trigger] self.ev(n, a) == o.ev(m, a) by {
                self.branch(p, a);
                o.branch(q, a);
                assert(self.ev(p, with(a, k.var, false)) == o.ev(q, with(a, k.var, false)));
                assert(self.ev(p, with(a, k.var, true)) == o.ev(q, with(a, k.var, true)));
            }
            self.same_top(o, n, m);
            m
        }
    }

    /// Tight diagrams are the smallest with their roots and order.
    proof fn tight_least(&self, o: &Store, roots: Seq<NodeId>)
        requires
            self.wf(),
            o.wf(),
            self.level_of@ == o.level_of@,
            self.tight(roots),
            self.same_roots(o, roots),
            self.nodes@.len() <= usize::MAX,
            o.nodes@.len() <= usize::MAX,
        ensures
            live_in(self.nodes@, self.nodes@.len() as int) <= live_in(o.nodes@, o.nodes@.len() as int),
    {
        let x = inner_set(self.nodes@, self.nodes@.len() as int);
        let y = inner_set(o.nodes@, o.nodes@.len() as int);
        live_counts(self.nodes@, self.nodes@.len() as int);
        live_counts(o.nodes@, o.nodes@.len() as int);
        let f = |n: NodeId|
            choose|m: NodeId| o.inner(m) && forall|a: Asg| #[trigger] self.ev(n, a) == o.ev(m, a);
        assert forall|n: NodeId| #[trigger] x.contains(n) implies o.inner(f(n)) && forall|a: Asg| #[trigger]
            self.ev(n, a) == o.ev(f(n), a) by {
            let m = self.counterpart(o, roots, n);
            assert(o.inner(m) && forall|a: Asg| #[trigger] self.ev(n, a) == o.ev(m, a));
        }
        assert forall|n: NodeId, m: NodeId| x.contains(n) && x.contains(m) && #[trigger] f(n) == #[trigger] f(
            m,
        ) implies n == m by {
            assert forall|a: Asg| #[trigger] self.ev(n, a) == self.ev(m, a) by {
                assert(self.ev(n, a) == o.ev(f(n), a));
                assert(self.ev(m, a) == o.ev(f(m), a));
            }
            self.canonical(n, m);
        }
        let z = x.map(f);
        assert(z.subset_of(y)) by {
            assert forall|m: NodeId| z.contains(m) implies y.contains(m) by {
                let n = choose|n: NodeId| x.contains(n) && f(n) == m;
                assert(o.inner(f(n)));
            }
        }
        assert(vstd::relations::injective_on(f, x)) by {
            assert forall|n: NodeId, m: NodeId| x.contains(n) && x.contains(m) && #[trigger] f(n) == #[trigger] f(
                m,
            ) implies n == m by {}
        }
        vstd::set_lib::lemma_map_size(x, z, f);
        vstd::set_lib::lemma_len_subset(z, y);
    }
}

spec fn held(nodes: Seq<Node>, marked: Seq<bool>, roots: Seq<NodeId>, n: NodeId) -> bool {
    n <= 1 || roots.contains(n) || exists|p: NodeId|
        #![trigger nodes[p as int]]
        inner_in(nodes, p) && marked[p as int] && (nodes[p as int].lo == n || nodes[p as int].hi
            == n)
}

impl Store {
    /// Marks the nodes that `roots` reach.
    fn mark(&self, roots: &Vec<NodeId>) -> (r: Vec<bool>)
        requires
            self.wf(),
            forall|i: int| 0 <= i < roots@.len() ==> self.valid(#[trigger] roots@[i]),
        ensures
            r@.len() == self.nodes@.len(),
            r@[0] && r@[1],
            forall|n: NodeId| n < r@.len() && #[trigger] r@[n as int] ==> self.valid(n),
            forall|i: int| 0 <= i < roots@.len() ==> r@[#[trigger] roots@[i] as int],
            forall|n: NodeId|
                #![trigger inner_in(self.nodes@, n)]
                inner_in(self.nodes@, n) && r@[n as int] ==> r@[self.nodes@[n as int].lo as int]
                    && r@[self.nodes@[n as int].hi as int] && held(self.nodes@, r@, roots@, n),
    {
        let mut marked: Vec<bool> = Vec::new();
        let mut i: usize = 0;
        while i < self.nodes.len()
            invariant
                i <= self.nodes.len(),
                marked@.len() == i,
                forall|k: int| 0 <= k < i ==> #[trigger] marked@[k] == (k <= 1),
            decreases self.nodes.len() - i,
        {
            marked.push(i <= 1);
            i += 1;
        }
        let mut stack: Vec<NodeId> = Vec::new();
        let mut j: usize = 0;
        while j < roots.len()
            invariant
                j <= roots.len(),
                stack@ == roots@.take(j as int),
            decreases roots.len() - j,
        {
            stack.push(roots[j]);
            j += 1;
            assert(stack@ =~= roots@.take(j as int));
        }
        assert(stack@ =~= roots@);
        assert forall|i: int| 0 <= i < roots@.len() implies stack@.contains(#[trigger] roots@[i]) by {}
        while stack.len() > 0
            invariant
                self.wf(),
                marked@.len() == self.nodes@.len(),
                marked@[0] && marked@[1],
                forall|n: NodeId| n < marked@.len() && #[trigger] marked@[n as int] ==> self.valid(n),
                forall|i: int| 0 <= i < stack@.len() ==> self.valid(#[trigger] stack@[i]) && held(
                    self.nodes@,
                    marked@,
                    roots@,
                    stack@[i],
                ),
                forall|i: int|
                    0 <= i < roots@.len() ==> self.valid(#[trigger] roots@[i])
                        && (marked@[roots@[i] as int] || stack@.contains(roots@[i])),
                forall|n: NodeId|
                    #![trigger inner_in(self.nodes@, n)]
                    inner_in(self.nodes@, n) && marked@[n as int] ==> {
                        let k = self.nodes@[n as int];
                        &&& marked@[k.lo as int] || stack@.contains(k.lo)
                        &&& marked@[k.hi as int] || stack@.contains(k.hi)
                        &&& held(self.nodes@, marked@, roots@, n)
                    },
            decreases unmarked(marked@), stack.len(),
        {
            let ghost before = stack@;
            let n = stack.pop().unwrap();
            assert(n == before.last());
            assert(forall|x: NodeId| before.contains(x) ==> x == n || stack@.contains(x)) by {
                assert forall|x: NodeId| before.contains(x) && x != n implies stack@.contains(x) by {
                    let p = choose|p: int| 0 <= p < before.len() && before[p] == x;
                    assert(stack@[p] == x);
                }
            }
            assert(self.valid(before[before.len() - 1]));
            if marked[n] {
                continue;
            }
            let ghost m0 = marked@;
            marked.set(n, true);
            proof {
                unmarked_update(m0, n as int);
                assert forall|x: NodeId| held(self.nodes@, m0, roots@, x) implies held(
                    self.nodes@,
                    marked@,
                    roots@,
                    x,
                ) by {
                    if x > 1 && !roots@.contains(x) {
                        let p = choose|p: NodeId|
                            #![trigger self.nodes@[p as int]]
                            inner_in(self.nodes@, p) && m0[p as int] && (self.nodes@[p as int].lo == x
                                || self.nodes@[p as int].hi == x);
                        assert(inner_in(self.nodes@, p) && marked@[p as int]);
                        assert(self.nodes@[p as int].lo == x || self.nodes@[p as int].hi == x);
                    }
                }
            }
            assert(n > 1);
            assert(inner_in(self.nodes@, n));
            let node = self.nodes[n];
            assert(node_base(self.nodes@, self.fun@, self.level_of@.len() as int, n));
            let ghost s0 = stack@;
            stack.push(node.lo);
            stack.push(node.hi);
            proof {
                assert(stack@[s0.len() as int] == node.lo);
                assert(stack@[s0.len() as int + 1] == node.hi);
                assert forall|x: NodeId| s0.contains(x) implies stack@.contains(x) by {
                    let p = choose|p: int| 0 <= p < s0.len() && s0[p] == x;
                    assert(stack@[p] == x);
                }
                assert(marked@[n as int] && self.nodes@[n as int] == node);
                assert(held(self.nodes@, marked@, roots@, node.lo));
                assert(held(self.nodes@, marked@, roots@, node.hi));
                assert forall|i: int| 0 <= i < stack@.len() implies self.valid(#[trigger] stack@[i])
                    && held(self.nodes@, marked@, roots@, stack@[i]) by {
                    if i < s0.len() {
                        assert(stack@[i] == before[i]);
                        assert(held(self.nodes@, m0, roots@, before[i]));
                    }
                }
                assert(held(self.nodes@, m0, roots@, before[before.len() - 1]));
            }
        }
        marked
    }

    /// Frees the nodes that are not marked.
    fn sweep(&mut self, marked: &Vec<bool>)
        requires
            old(self).wf(),
            marked@.len() == old(self).nodes@.len(),
            marked@[0] && marked@[1],
            forall|n: NodeId|
                #![trigger inner_in(old(self).nodes@, n)]
                inner_in(old(self).nodes@, n)
                    && marked@[n as int] ==> marked@[old(self).nodes@[n as int].lo as int]
                    && marked@[old(self).nodes@[n as int].hi as int],
        ensures
            final(self).wf(),
            final(self).fun == old(self).fun,
            final(self).level_of == old(self).level_of,
            final(self).var_at == old(self).var_at,
            final(self).nodes@.len() == old(self).nodes@.len(),
            forall|n: NodeId| #[trigger]
                valid_in(final(self).nodes@, n) <==> valid_in(old(self).nodes@, n)
                    && marked@[n as int],
            forall|n: NodeId|
                valid_in(final(self).nodes@, n)
                    ==> #[trigger] final(self).nodes@[n as int] == old(self).nodes@[n as int],
    {
        let mut i: usize = 2;
        let ghost pre = *self;
        while i < self.nodes.len()
            invariant
                2 <= i <= self.nodes@.len(),
                pre == *old(self),
                pre.wf(),
                self.nodes@.len() == pre.nodes@.len(),
                marked@.len() == pre.nodes@.len(),
                marked@[0] && marked@[1],
                self.fun == pre.fun,
                self.level_of == pre.level_of,
                self.var_at == pre.var_at,
                forall|k: int|
                    0 <= k < pre.nodes@.len() ==> #[trigger] self.nodes@[k] == if k < i && !marked@[k] {
                        Node { var: FREE, lo: F, hi: F }
                    } else {
                        pre.nodes@[k]
                    } || self.nodes@[k] == pre.nodes@[k] && pre.nodes@[k].var == FREE,
                forall|k: Key| #[trigger]
                    self.unique@.contains_key(k) <==> pre.unique@.contains_key(k) && (pre.unique@[k]
                        >= i || marked@[pre.unique@[k] as int]),
                forall|k: Key| #[trigger]
                    self.unique@.contains_key(k) ==> self.unique@[k] == pre.unique@[k],
                free_ok(self.nodes@, self.free_list@),
                forall|j: int| 0 <= j < self.free_list@.len() ==> (#[trigger] self.free_list@[j]) < i
                    || pre.nodes@[self.free_list@[j] as int].var == FREE,
            decreases self.nodes.len() - i,
        {
            if !marked[i] && self.nodes[i].var != FREE {
                let node = self.nodes[i];
                assert(self.nodes@[i as int] == pre.nodes@[i as int]);
                assert(inner_in(pre.nodes@, i));
                assert(node_ord(pre.nodes@, pre.level_of@, pre.unique@, i));
                let key: Key = (node.var as u64, node.lo as u64, node.hi as u64);
                assert(key == key_of(node));
                table_remove(&mut self.unique, key);
                self.nodes.set(i, Node { var: FREE, lo: F, hi: F });
                self.free_list.push(i);
                proof {
                    assert forall|k: Key| k != key && pre.unique@.contains_key(k) implies
                        pre.unique@[k] != i by {
                        assert(key_of(pre.nodes@[pre.unique@[k] as int]) == k);
                    }
                }
            }
            i += 1;
        }
        proof {
            assert(self.nodes@[0] == pre.nodes@[0] && self.nodes@[1] == pre.nodes@[1]);
            assert forall|n: NodeId| #[trigger] valid_in(self.nodes@, n) <==> valid_in(pre.nodes@, n)
                && marked@[n as int] by {
                if n < pre.nodes@.len() {
                    assert(self.nodes@[n as int] == self.nodes@[n as int]);
                }
            }
            assert forall|n: NodeId| #[trigger] inner_in(self.nodes@, n) implies inner_in(
                pre.nodes@,
                n,
            ) && marked@[n as int] && self.nodes@[n as int] == pre.nodes@[n as int] by {}
            assert forall|n: NodeId| #[trigger] inner_in(self.nodes@, n) implies node_base(
                self.nodes@,
                self.fun@,
                self.level_of@.len() as int,
                n,
            ) && node_ord(self.nodes@, self.level_of@, self.unique@, n) by {
                assert(node_base(pre.nodes@, pre.fun@, pre.level_of@.len() as int, n));
                assert(node_ord(pre.nodes@, pre.level_of@, pre.unique@, n));
                let k = pre.nodes@[n as int];
                assert(valid_in(self.nodes@, k.lo) && valid_in(self.nodes@, k.hi));
                assert(self.nodes@[k.lo as int] == pre.nodes@[k.lo as int]);
                assert(self.nodes@[k.hi as int] == pre.nodes@[k.hi as int]);
                assert(pre.unique@.contains_key(key_of(k)));
                assert(self.unique@.contains_key(key_of(k)));
            }
            assert forall|k: Key| #[trigger] self.unique@.contains_key(k) implies inner_in(
                self.nodes@,
                self.unique@[k],
            ) && key_of(self.nodes@[self.unique@[k] as int]) == k by {
                assert(pre.unique@.contains_key(k));
                assert(inner_in(pre.nodes@, pre.unique@[k]));
            }
        }
    }
}

impl Mgr {
    /// The number of nodes in use, the constants not counted.
    pub closed spec fn live(&self) -> nat {
        live_in(self.store.nodes@, self.store.nodes@.len() as int)
    }

    /// The number of nodes in use, the constants not counted.
    pub fn node_count(&self) -> (r: usize)
        requires
            self.wf(),
        ensures
            r == self.live(),
    {
        let mut n: usize = 0;
        let mut i: usize = 2;
        while i < self.store.nodes.len()
            invariant
                2 <= i <= self.store.nodes@.len(),
                n == live_in(self.store.nodes@, i as int),
                n <= i,
            decreases self.store.nodes.len() - i,
        {
            if self.store.nodes[i].var != FREE {
                n += 1;
            }
            i += 1;
        }
        n
    }

    /// The node is a branch of a valid node.
    pub closed spec fn is_branch(&self, n: NodeId) -> bool {
        exists|p: NodeId|
            #![trigger self.store.nodes@[p as int]]
            self.store.inner(p) && (self.store.nodes@[p as int].lo == n
                || self.store.nodes@[p as int].hi == n)
    }

    /// What there is are the constants, the roots and what they are built of.
    pub closed spec fn collected(&self, roots: Seq<NodeId>) -> bool {
        self.store.tight(roots)
    }

    /// After a collection every node is a constant, a root or a branch.
    pub proof fn collected_nodes(&self, roots: Seq<NodeId>, n: NodeId)
        requires
            self.collected(roots),
            self.valid(n),
        ensures
            n <= 1 || roots.contains(n) || self.is_branch(n),
    {
        if n > 1 {
            assert(self.store.inner(n));
            if !roots.contains(n) {
                assert(self.store.below_some(n));
            }
        }
    }

    /// How many nodes there have to be for a reordering.
    pub closed spec fn threshold(&self) -> nat {
        self.next_reorder as nat
    }

    /// The number of reorderings so far.
    pub closed spec fn reorderings(&self) -> nat {
        self.reorder_count as nat
    }

    /// Collects garbage. What remains are the constants, the roots and what they are built of.
    pub fn gc(&mut self, roots: &Vec<NodeId>)
        requires
            old(self).wf(),
            forall|i: int| 0 <= i < roots@.len() ==> old(self).valid(#[trigger] roots@[i]),
        ensures
            final(self).wf(),
            final(self).preds() == old(self).preds(),
            forall|i: int| 0 <= i < roots@.len() ==> final(self).valid(#[trigger] roots@[i]),
            forall|n: NodeId, a: Asg|
                final(self).valid(n) ==> #[trigger] final(self).eval(n, a) == old(self).eval(n, a),
            forall|n: NodeId| #[trigger]
                final(self).valid(n) ==> old(self).valid(n)
                    && (n <= 1 || roots@.contains(n) || final(self).is_branch(n)),
            final(self).live() <= old(self).live(),
            (exists|n: NodeId| #[trigger] old(self).valid(n) && !final(self).valid(n)) ==> final(self).live() < old(
                self).live(),
            final(self).reordering() == old(self).reordering(),
            final(self).collected(roots@),
            final(self).threshold() == old(self).threshold(),
            final(self).reorderings() == old(self).reorderings(),
    {
        let marked = self.store.mark(roots);
        let ghost pre = self.store;
        self.store.sweep(&marked);
        self.ite_cache = table_new();
        self.exists_cache = table_new();
        self.shift_cache = table_new();
        let _count: usize = self.store.nodes.len();
        proof {
            let now = self.store.nodes@;
            let len = now.len() as int;
            assert forall|i: int| 2 <= i < len && (#[trigger] now[i]).var != FREE implies pre.nodes@[i].var != FREE by {
                assert(valid_in(now, i as NodeId));
            }
            live_least(now, pre.nodes@, len);
            if exists|n: NodeId| #[trigger] old(self).valid(n) && !self.valid(n) {
                let n = choose|n: NodeId| #[trigger] old(self).valid(n) && !self.valid(n);
                assert(valid_in(pre.nodes@, n) && !valid_in(now, n));
                live_lost(now, pre.nodes@, len, n as int);
            }
            assert forall|i: int| 0 <= i < roots@.len() implies self.valid(#[trigger] roots@[i]) by {
                assert(pre.valid(roots@[i]));
                assert(valid_in(self.store.nodes@, roots@[i]));
            }
            assert forall|n: NodeId| #[trigger] self.valid(n) implies old(self).valid(n) && (n <= 1
                || roots@.contains(n) || self.is_branch(n)) by {
                assert(valid_in(self.store.nodes@, n));
                if n > 1 && !roots@.contains(n) {
                    assert(inner_in(pre.nodes@, n));
                    assert(held(pre.nodes@, marked@, roots@, n));
                    let p = choose|p: NodeId|
                        #![trigger pre.nodes@[p as int]]
                        inner_in(pre.nodes@, p) && marked@[p as int] && (pre.nodes@[p as int].lo == n
                            || pre.nodes@[p as int].hi == n);
                    assert(valid_in(self.store.nodes@, p));
                    assert(self.store.nodes@[p as int] == pre.nodes@[p as int]);
                    assert(self.store.inner(p));
                }
            }
            swept_tight(&pre, &self.store, marked@, roots@);
        }
    }
}

/// A count of reorderings after one more, as far as it can be counted.
pub open spec fn counted(n: nat) -> nat {
    if n < usize::MAX {
        n + 1
    } else {
        n
    }
}

/// How many nodes there have to be for a reordering after one that left `live` nodes.
pub open spec fn next_threshold(live: nat) -> nat {
    if 3 * live <= 150_000 {
        150_000
    } else if 3 * live <= usize::MAX {
        3 * live
    } else {
        usize::MAX as nat
    }
}

impl Default for Mgr {
    fn default() -> (r: Mgr)
        ensures
            r.wf(),
            r.preds() =~= Map::empty(),
    {
        Mgr::new()
    }
}

impl Store {
    /// The levels `l` and `l + 1` of `o`, of the variables `x` and `y`, have been swapped, and all
    /// nodes but those of `ex` have been put in order.
    spec fn swapping(&self, o: &Store, l: int, x: u32, y: u32, ex: Set<NodeId>) -> bool {
        &&& o.wf()
        &&& self.wf_on(ex)
        &&& 0 <= l
        &&& l + 1 < o.level_of@.len()
        &&& o.var_at@[l] == x
        &&& o.var_at@[l + 1] == y
        &&& self.level_of@ == o.level_of@.update(x as int, (l + 1) as u32).update(y as int, l as u32)
        &&& self.var_at@ == o.var_at@.update(l, y).update(l + 1, x)
        &&& forall|n: NodeId| #[trigger]
            valid_in(o.nodes@, n) ==> valid_in(self.nodes@, n) && self.fun@[n as int]
                == o.fun@[n as int] && ((o.nodes@[n as int].var != x || ex.contains(n))
                ==> self.nodes@[n as int] == o.nodes@[n as int])
        &&& forall|n: NodeId| #[trigger]
            ex.contains(n) ==> inner_in(o.nodes@, n) && o.nodes@[n as int].var == x
        &&& forall|n: NodeId| #[trigger]
            inner_in(self.nodes@, n) && self.nodes@[n as int].var == y ==> valid_in(o.nodes@, n)
        &&& forall|p: NodeId| #[trigger]
            inner_in(self.nodes@, p) && !ex.contains(p) && (ex.contains(self.nodes@[p as int].lo)
                || ex.contains(self.nodes@[p as int].hi)) ==> level_in(
                self.nodes@,
                self.level_of@,
                p,
            ) < l
    }

    /// A node of `o` below both levels has its old place.
    proof fn below(&self, o: &Store, l: int, x: u32, y: u32, ex: Set<NodeId>, n: NodeId)
        requires
            self.swapping(o, l, x, y, ex),
            o.valid(n),
            o.level(n) > l + 1,
        ensures
            self.valid(n),
            self.level(n) == o.level(n),
            !ex.contains(n),
            self.level(n) > l + 1,
    {
        assert(valid_in(o.nodes@, n));
        if n > 1 {
            assert(inner_in(o.nodes@, n));
            assert(node_base(o.nodes@, o.fun@, o.level_of@.len() as int, n));
        }
    }

    /// The branches of `f` for the variable `y`, where `f` is below level `l`.
    fn split_at(
        &self,
        f: NodeId,
        y: u32,
        Ghost(o): Ghost<Store>,
        Ghost(l): Ghost<int>,
        Ghost(x): Ghost<u32>,
        Ghost(ex): Ghost<Set<NodeId>>,
    ) -> (r: (NodeId, NodeId))
        requires
            self.swapping(&o, l, x, y, ex),
            o.valid(f),
            o.level(f) > l,
        ensures
            o.valid(r.0),
            o.valid(r.1),
            o.level(r.0) > l + 1,
            o.level(r.1) > l + 1,
            splits(o.fun@, f, y, r.0, r.1),
            r.0 != r.1 <==> (f > 1 && o.nodes@[f as int].var == y),
    {
        assert(valid_in(o.nodes@, f));
        if f > 1 {
            assert(inner_in(o.nodes@, f));
            assert(node_base(o.nodes@, o.fun@, o.level_of@.len() as int, f));
            assert(node_ord(o.nodes@, o.level_of@, o.unique@, f));
            assert(o.nodes@[f as int].var != x);
            let node = self.nodes[f];
            if node.var == y {
                return (node.lo, node.hi);
            }
            assert(o.level_of@[node.var as int] != l + 1);
        }
        (f, f)
    }

    /// Puts one node in order.
    fn rewrite(
        &mut self,
        n: NodeId,
        x: u32,
        y: u32,
        Ghost(o): Ghost<Store>,
        Ghost(l): Ghost<int>,
        Ghost(ex): Ghost<Set<NodeId>>,
    )
        requires
            old(self).swapping(&o, l, x, y, ex),
            ex.contains(n),
            o.nodes@[n as int].lo > 1 && o.nodes@[o.nodes@[n as int].lo as int].var == y
                || o.nodes@[n as int].hi > 1 && o.nodes@[o.nodes@[n as int].hi as int].var == y,
        ensures
            final(self).swapping(&o, l, x, y, ex.remove(n)),
    {
        assert(inner_in(o.nodes@, n));
        assert(valid_in(o.nodes@, n));
        assert(node_base(o.nodes@, o.fun@, o.level_of@.len() as int, n));
        assert(node_ord(o.nodes@, o.level_of@, o.unique@, n));
        let node = self.nodes[n];
        assert(node == o.nodes@[n as int]);
        assert(x != y);
        let (f00, f01) = self.split_at(node.lo, y, Ghost(o), Ghost(l), Ghost(x), Ghost(ex));
        let (f10, f11) = self.split_at(node.hi, y, Ghost(o), Ghost(l), Ghost(x), Ghost(ex));
        proof {
            self.below(&o, l, x, y, ex, f00);
            self.below(&o, l, x, y, ex, f01);
            self.below(&o, l, x, y, ex, f10);
            self.below(&o, l, x, y, ex, f11);
        }
        let ghost s0 = *self;
        let a = self.mk_on(x, f00, f10, Ghost(ex));
        let ghost s1 = *self;
        proof {
            s0.stays(&s1, &o, l, x, y, ex, f00, f10, a);
            self.below(&o, l, x, y, ex, f00);
            self.below(&o, l, x, y, ex, f01);
            self.below(&o, l, x, y, ex, f10);
            self.below(&o, l, x, y, ex, f11);
        }
        let b = self.mk_on(x, f01, f11, Ghost(ex));
        let ghost s2 = *self;
        proof {
            s1.stays(&s2, &o, l, x, y, ex, f01, f11, b);
            s2.below(&o, l, x, y, ex, f00);
            s2.below(&o, l, x, y, ex, f01);
            s2.below(&o, l, x, y, ex, f10);
            s2.below(&o, l, x, y, ex, f11);
            assert(valid_in(s1.nodes@, a));
            assert(valid_in(s2.nodes@, a));
            assert(s2.fun@[a as int] == s1.fun@[a as int]);
            // the functions of the two new branches
            assert forall|z: Asg| #[trigger] ev(s2.fun@, a, z) == if z(x) {
                ev(o.fun@, f10, z)
            } else {
                ev(o.fun@, f00, z)
            } by {
                assert(ev(s1.fun@, a, z) == if z(x) {
                    ev(s1.fun@, f10, z)
                } else {
                    ev(s1.fun@, f00, z)
                });
                assert(valid_in(o.nodes@, f10) && valid_in(o.nodes@, f00));
            }
            assert forall|z: Asg| #[trigger] ev(s2.fun@, b, z) == if z(x) {
                ev(o.fun@, f11, z)
            } else {
                ev(o.fun@, f01, z)
            } by {
                assert(ev(s2.fun@, b, z) == if z(x) {
                    ev(s2.fun@, f11, z)
                } else {
                    ev(s2.fun@, f01, z)
                });
                assert(valid_in(o.nodes@, f11) && valid_in(o.nodes@, f01));
            }
            assert forall|z: Asg| #[trigger] ev(s2.fun@, n, z) == if z(y) {
                ev(s2.fun@, b, z)
            } else {
                ev(s2.fun@, a, z)
            } by {
                assert(s2.fun@[n as int] == o.fun@[n as int]);
                assert(ev(o.fun@, n, z) == if z(x) {
                    ev(o.fun@, node.hi, z)
                } else {
                    ev(o.fun@, node.lo, z)
                });
                assert(ev(o.fun@, node.hi, z) == if z(y) {
                    ev(o.fun@, f11, z)
                } else {
                    ev(o.fun@, f10, z)
                });
                assert(ev(o.fun@, node.lo, z) == if z(y) {
                    ev(o.fun@, f01, z)
                } else {
                    ev(o.fun@, f00, z)
                });
                assert(ev(s2.fun@, a, z) == if z(x) {
                    ev(o.fun@, f10, z)
                } else {
                    ev(o.fun@, f00, z)
                });
                assert(ev(s2.fun@, b, z) == if z(x) {
                    ev(o.fun@, f11, z)
                } else {
                    ev(o.fun@, f01, z)
                });
            }
            assert(splits(s2.fun@, n, y, a, b));
            if a == b {
                assert forall|z: Asg| #[trigger] o.ev(f00, z) == o.ev(f01, z) by {
                    let w = with(z, x, false);
                    o.independent(f00, z, w);
                    o.independent(f01, z, w);
                    assert(ev(s2.fun@, a, w) == ev(o.fun@, f00, w));
                    assert(ev(s2.fun@, b, w) == ev(o.fun@, f01, w));
                }
                o.canonical(f00, f01);
                assert forall|z: Asg| #[trigger] o.ev(f10, z) == o.ev(f11, z) by {
                    let w = with(z, x, true);
                    o.independent(f10, z, w);
                    o.independent(f11, z, w);
                    assert(ev(s2.fun@, a, w) == ev(o.fun@, f10, w));
                    assert(ev(s2.fun@, b, w) == ev(o.fun@, f11, w));
                }
                o.canonical(f10, f11);
                assert(false);
            }
            let key = (y as u64, a as u64, b as u64);
            if s2.unique@.contains_key(key) {
                let m = s2.unique@[key];
                assert(inner_in(s2.nodes@, m));
                assert(node_base(s2.nodes@, s2.fun@, s2.level_of@.len() as int, m));
                assert(s2.nodes@[m as int].var == y && s2.nodes@[m as int].lo == a
                    && s2.nodes@[m as int].hi == b);
                assert(valid_in(o.nodes@, m));
                assert forall|z: Asg| #[trigger] o.ev(m, z) == o.ev(n, z) by {
                    assert(ev(s2.fun@, m, z) == if z(y) {
                        ev(s2.fun@, b, z)
                    } else {
                        ev(s2.fun@, a, z)
                    });
                    assert(ev(s2.fun@, n, z) == ev(s2.fun@, m, z));
                }
                o.canonical(m, n);
                assert(false);
            }
        }
        let key: Key = (y as u64, a as u64, b as u64);
        table_insert(&mut self.unique, key, n);
        self.nodes.set(n, Node { var: y, lo: a, hi: b });
        proof {
            let ex2 = ex.remove(n);
            assert(key == key_of(self.nodes@[n as int]));
            assert forall|i: NodeId| #[trigger] inner_in(self.nodes@, i) <==> inner_in(s2.nodes@, i) by {}
            assert forall|i: NodeId| #[trigger] valid_in(self.nodes@, i) <==> valid_in(s2.nodes@, i) by {}
            assert forall|i: NodeId| #[trigger] inner_in(self.nodes@, i) implies node_base(
                self.nodes@,
                self.fun@,
                self.level_of@.len() as int,
                i,
            ) by {
                if i != n {
                    assert(inner_in(s2.nodes@, i));
                    assert(node_base(s2.nodes@, s2.fun@, s2.level_of@.len() as int, i));
                    let k = s2.nodes@[i as int];
                    assert(valid_in(s2.nodes@, k.lo) && valid_in(s2.nodes@, k.hi));
                    assert(valid_in(self.nodes@, k.lo) && valid_in(self.nodes@, k.hi));
                } else {
                    assert(valid_in(s2.nodes@, a) && valid_in(s2.nodes@, b));
                }
            }
            assert(!ex.contains(a)) by {
                if f00 == f10 {
                    assert(a == f00);
                }
            }
            assert(!ex.contains(b)) by {
                if f01 == f11 {
                    assert(b == f01);
                }
            }
            assert(s2.level(a) > l);
            assert(s2.level(b) > l);
            assert forall|i: NodeId| #[trigger] inner_in(self.nodes@, i) && !ex2.contains(i) implies node_ord(
                self.nodes@,
                self.level_of@,
                self.unique@,
                i,
            ) by {
                if i != n {
                    assert(inner_in(s2.nodes@, i) && !ex.contains(i));
                    assert(node_ord(s2.nodes@, s2.level_of@, s2.unique@, i));
                }
            }
            assert forall|k: Key| #[trigger] self.unique@.contains_key(k) implies inner_in(
                self.nodes@,
                self.unique@[k],
            ) && !ex2.contains(self.unique@[k]) && key_of(self.nodes@[self.unique@[k] as int]) == k by {
                if k != key {
                    assert(s2.unique@.contains_key(k));
                    assert(inner_in(s2.nodes@, s2.unique@[k]));
                }
            }
            assert(self.wf_on(ex2));
            assert forall|p: NodeId| #[trigger] inner_in(self.nodes@, p) && !ex2.contains(p) && (
            ex2.contains(self.nodes@[p as int].lo) || ex2.contains(self.nodes@[p as int].hi)) implies level_in(
                self.nodes@,
                self.level_of@,
                p,
            ) < l by {
                if p != n {
                    assert(inner_in(s2.nodes@, p));
                }
            }
            assert forall|i: NodeId| #[trigger] inner_in(self.nodes@, i) && self.nodes@[i as int].var
                == y implies valid_in(o.nodes@, i) by {
                if i != n {
                    assert(inner_in(s2.nodes@, i));
                }
            }
            assert forall|i: NodeId| #[trigger] valid_in(o.nodes@, i) implies valid_in(self.nodes@, i)
                && self.fun@[i as int] == o.fun@[i as int] && ((o.nodes@[i as int].var != x
                || ex2.contains(i)) ==> self.nodes@[i as int] == o.nodes@[i as int]) by {
                assert(valid_in(s2.nodes@, i));
            }
        }
    }

    proof fn stays(
        &self,
        s: &Store,
        o: &Store,
        l: int,
        x: u32,
        y: u32,
        ex: Set<NodeId>,
        lo: NodeId,
        hi: NodeId,
        r: NodeId,
    )
        requires
            self.swapping(o, l, x, y, ex),
            s.wf_on(ex),
            s.grows(self),
            s.level_of == self.level_of,
            s.var_at == self.var_at,
            !ex.contains(lo),
            !ex.contains(hi),
            lo != hi ==> s.inner(r) && s.nodes@[r as int] == (Node { var: x, lo, hi }),
            lo == hi ==> r == lo,
            self.valid(lo),
            forall|n: NodeId| #[trigger] s.valid(n) ==> self.valid(n) || n == r,
        ensures
            s.swapping(o, l, x, y, ex),
    {
        assert(x != y);
        assert forall|n: NodeId| #[trigger] valid_in(o.nodes@, n) implies valid_in(s.nodes@, n)
            && s.fun@[n as int] == o.fun@[n as int] && ((o.nodes@[n as int].var != x || ex.contains(n))
            ==> s.nodes@[n as int] == o.nodes@[n as int]) by {
            assert(valid_in(self.nodes@, n));
        }
        assert forall|n: NodeId| #[trigger] inner_in(s.nodes@, n) && s.nodes@[n as int].var == y implies valid_in(
            o.nodes@,
            n,
        ) by {
            assert(s.valid(n));
            if self.valid(n) {
                assert(valid_in(self.nodes@, n));
                assert(inner_in(self.nodes@, n));
            }
        }
        assert forall|p: NodeId| #[trigger] inner_in(s.nodes@, p) && !ex.contains(p) && (ex.contains(
            s.nodes@[p as int].lo,
        ) || ex.contains(s.nodes@[p as int].hi)) implies level_in(s.nodes@, s.level_of@, p) < l by {
            assert(s.valid(p));
            if self.valid(p) {
                assert(valid_in(self.nodes@, p));
                assert(inner_in(self.nodes@, p));
            }
        }
    }

    /// Swaps the levels `l` and `l + 1` in place. Every node keeps its function.
    fn swap_levels(&mut self, l: usize)
        requires
            old(self).wf(),
            l + 1 < old(self).level_of@.len(),
        ensures
            final(self).wf(),
            final(self).var_at@ == old(self).var_at@.update(
                l as int,
                old(self).var_at@[l + 1],
            ).update(l + 1, old(self).var_at@[l as int]),
            final(self).level_of@.len() == old(self).level_of@.len(),
            forall|n: NodeId| #[trigger]
                valid_in(old(self).nodes@, n) ==> valid_in(final(self).nodes@, n) && final(
                    self).fun@[n as int] == old(self).fun@[n as int],
    {
        let x: u32 = self.var_at[l];
        let y: u32 = self.var_at[l + 1];
        let ghost o = *self;
        assert(x != y);
        let mut affected: Vec<NodeId> = Vec::new();
        let mut i: usize = 2;
        while i < self.nodes.len()
            invariant
                2 <= i <= self.nodes@.len(),
                o.wf(),
                l + 1 < o.level_of@.len(),
                x == o.var_at@[l as int],
                y == o.var_at@[l + 1],
                x != y,
                self.nodes == o.nodes,
                self.fun == o.fun,
                self.level_of == o.level_of,
                self.var_at == o.var_at,
                self.free_list == o.free_list,
                forall|j: int| 0 <= j < affected@.len() ==> (#[trigger] affected@[j]) < i && o.affected(
                    x,
                    y,
                    affected@[j],
                ),
                forall|j: int, k: int|
                    0 <= j < k < affected@.len() ==> affected@[j] != affected@[k],
                forall|n: NodeId| n < i && #[trigger] o.affected(x, y, n) ==> affected@.contains(n),
                forall|k: Key| #[trigger]
                    self.unique@.contains_key(k) <==> o.unique@.contains_key(k)
                        && !affected@.contains(o.unique@[k]),
                forall|k: Key| #[trigger]
                    self.unique@.contains_key(k) ==> self.unique@[k] == o.unique@[k],
            decreases self.nodes.len() - i,
        {
            let node = self.nodes[i];
            if node.var == x {
                assert(inner_in(o.nodes@, i));
                assert(node_base(o.nodes@, o.fun@, o.level_of@.len() as int, i));
                assert(node_ord(o.nodes@, o.level_of@, o.unique@, i));
                let lo_hit = node.lo > 1 && self.nodes[node.lo].var == y;
                let hi_hit = node.hi > 1 && self.nodes[node.hi].var == y;
                if lo_hit || hi_hit {
                    let ghost before = affected@;
                    let ghost tab = self.unique@;
                    affected.push(i);
                    let key: Key = (node.var as u64, node.lo as u64, node.hi as u64);
                    assert(key == key_of(node));
                    table_remove(&mut self.unique, key);
                    proof {
                        assert(forall|n: NodeId|
                            affected@.contains(n) <==> before.contains(n) || n == i) by {
                            assert forall|n: NodeId| before.contains(n) implies affected@.contains(n) by {
                                let p = choose|p: int| 0 <= p < before.len() && before[p] == n;
                                assert(affected@[p] == n);
                            }
                            assert(affected@[before.len() as int] == i);
                        }
                        assert forall|k: Key| #[trigger] self.unique@.contains_key(k) <==> o.unique@.contains_key(k)
                            && !affected@.contains(o.unique@[k]) by {
                            assert(tab.contains_key(k) <==> o.unique@.contains_key(k) && !before.contains(
                                o.unique@[k],
                            ));
                            if o.unique@.contains_key(k) && o.unique@[k] == i {
                                assert(key_of(o.nodes@[o.unique@[k] as int]) == k);
                            }
                        }
                        assert forall|k: Key| #[trigger] self.unique@.contains_key(k) implies
                            self.unique@[k] == o.unique@[k] by {
                            assert(tab.contains_key(k));
                        }
                    }
                }
            }
            assert forall|n: NodeId| n < i + 1 && #[trigger] o.affected(x, y, n) implies
                affected@.contains(n) by {
                if n == i {
                    assert(node.var == x);
                    assert(affected@[affected@.len() - 1] == i);
                }
            }
            i += 1;
        }
        self.var_at.set(l, y);
        self.var_at.set(l + 1, x);
        self.level_of.set(x as usize, (l + 1) as u32);
        self.level_of.set(y as usize, l as u32);
        let ghost mut ex = affected@.to_set();
        proof {
            assert forall|n: NodeId| #[trigger] ex.contains(n) <==> o.affected(x, y, n) by {
                if ex.contains(n) {
                    let p = choose|p: int| 0 <= p < affected@.len() && affected@[p] == n;
                    assert(o.affected(x, y, affected@[p]));
                }
                if o.affected(x, y, n) {
                    assert(affected@.contains(n));
                }
            }
            self.after_swap(&o, l as int, x, y, ex);
        }
        let mut j: usize = 0;
        while j < affected.len()
            invariant
                j <= affected@.len(),
                self.swapping(&o, l as int, x, y, ex),
                forall|n: NodeId| #[trigger]
                    ex.contains(n) <==> exists|p: int| j <= p < affected@.len() && affected@[p] == n,
                forall|p: int, k: int|
                    0 <= p < k < affected@.len() ==> affected@[p] != affected@[k],
                forall|p: int| 0 <= p < affected@.len() ==> o.affected(x, y, #[trigger] affected@[p]),
            decreases affected.len() - j,
        {
            let n = affected[j];
            assert(ex.contains(n));
            assert(o.affected(x, y, affected@[j as int]));
            self.rewrite(n, x, y, Ghost(o), Ghost(l as int), Ghost(ex));
            proof {
                let ex2 = ex.remove(n);
                assert forall|m: NodeId| #[trigger] ex2.contains(m) <==> exists|p: int|
                    j + 1 <= p < affected@.len() && affected@[p] == m by {
                    if ex2.contains(m) {
                        assert(ex.contains(m));
                        let p = choose|p: int| j <= p < affected@.len() && affected@[p] == m;
                        assert(p != j);
                        assert(j + 1 <= p < affected@.len() && affected@[p] == m);
                    }
                    if exists|p: int| j + 1 <= p < affected@.len() && affected@[p] == m {
                        let p = choose|p: int| j + 1 <= p < affected@.len() && affected@[p] == m;
                        assert(j <= p < affected@.len() && affected@[p] == m);
                        assert(ex.contains(m));
                        assert(affected@[j as int] != affected@[p]);
                    }
                }
                ex = ex2;
            }
            j += 1;
        }
        assert(ex =~= Set::empty()) by {
            assert forall|n: NodeId| !ex.contains(n) by {}
        }
    }

    spec fn affected(&self, x: u32, y: u32, n: NodeId) -> bool {
        &&& inner_in(self.nodes@, n)
        &&& self.nodes@[n as int].var == x
        &&& (self.nodes@[n as int].lo > 1 && self.nodes@[self.nodes@[n as int].lo as int].var == y
            || self.nodes@[n as int].hi > 1 && self.nodes@[self.nodes@[n as int].hi as int].var == y)
    }

    proof fn after_swap(&self, o: &Store, l: int, x: u32, y: u32, ex: Set<NodeId>)
        requires
            o.wf(),
            0 <= l,
            l + 1 < o.level_of@.len(),
            x == o.var_at@[l],
            y == o.var_at@[l + 1],
            self.nodes == o.nodes,
            self.fun == o.fun,
            self.free_list == o.free_list,
            self.level_of@ == o.level_of@.update(x as int, (l + 1) as u32).update(
                y as int,
                l as u32,
            ),
            self.var_at@ == o.var_at@.update(l, y).update(l + 1, x),
            forall|n: NodeId| #[trigger] ex.contains(n) <==> o.affected(x, y, n),
            forall|k: Key| #[trigger]
                self.unique@.contains_key(k) <==> o.unique@.contains_key(k) && !ex.contains(
                    o.unique@[k],
                ),
            forall|k: Key| #[trigger]
                self.unique@.contains_key(k) ==> self.unique@[k] == o.unique@[k],
        ensures
            self.swapping(o, l, x, y, ex),
    {
        assert(x != y) by {
            assert(o.level_of@[o.var_at@[l] as int] == l);
            assert(o.level_of@[o.var_at@[l + 1] as int] == l + 1);
        }
        assert(levels_ok(self.level_of@, self.var_at@)) by {
            assert forall|v: int| 0 <= v < self.level_of@.len() implies (#[trigger] self.level_of@[v])
                < self.var_at@.len() && self.var_at@[self.level_of@[v] as int] == v by {
                assert(o.level_of@[v] < o.var_at@.len() && o.var_at@[o.level_of@[v] as int] == v);
            }
            assert forall|k: int| 0 <= k < self.var_at@.len() implies (#[trigger] self.var_at@[k])
                < self.level_of@.len() && self.level_of@[self.var_at@[k] as int] == k by {
                assert(o.var_at@[k] < o.level_of@.len() && o.level_of@[o.var_at@[k] as int] == k);
            }
        }
        assert forall|i: NodeId| #[trigger] inner_in(self.nodes@, i) implies node_base(
            self.nodes@,
            self.fun@,
            self.level_of@.len() as int,
            i,
        ) by {
            assert(node_base(o.nodes@, o.fun@, o.level_of@.len() as int, i));
        }
        assert forall|i: NodeId| #[trigger] inner_in(self.nodes@, i) && !ex.contains(i) implies node_ord(
            self.nodes@,
            self.level_of@,
            self.unique@,
            i,
        ) by {
            assert(node_base(o.nodes@, o.fun@, o.level_of@.len() as int, i));
            assert(node_ord(o.nodes@, o.level_of@, o.unique@, i));
            let k = o.nodes@[i as int];
            self.moved(o, l, x, y, k.lo);
            self.moved(o, l, x, y, k.hi);
            self.moved(o, l, x, y, i);
            assert(!o.affected(x, y, i));
            assert(self.unique@.contains_key(key_of(k)));
            assert(o.level_of@[k.var as int] == l ==> k.var == x);
            assert(o.level_of@[k.var as int] == l + 1 ==> k.var == y);
        }
        assert forall|i: NodeId| #[trigger] ex.contains(i) implies inner_in(self.nodes@, i) by {
            assert(o.affected(x, y, i));
        }
        assert forall|k: Key| #[trigger] self.unique@.contains_key(k) implies inner_in(
            self.nodes@,
            self.unique@[k],
        ) && !ex.contains(self.unique@[k]) && key_of(self.nodes@[self.unique@[k] as int]) == k by {
            assert(o.unique@.contains_key(k));
            assert(inner_in(o.nodes@, o.unique@[k]));
        }
        assert(self.wf_on(ex));
        assert forall|n: NodeId| #[trigger] inner_in(self.nodes@, n)
            && self.nodes@[n as int].var == y implies valid_in(
            o.nodes@,
            n,
        ) by {}
        assert forall|p: NodeId| #[trigger] inner_in(self.nodes@, p) && !ex.contains(p) && (ex.contains(
            self.nodes@[p as int].lo,
        ) || ex.contains(self.nodes@[p as int].hi)) implies level_in(
            self.nodes@,
            self.level_of@,
            p,
        ) < l by {
            assert(node_base(o.nodes@, o.fun@, o.level_of@.len() as int, p));
            assert(node_ord(o.nodes@, o.level_of@, o.unique@, p));
            let k = o.nodes@[p as int];
            self.moved(o, l, x, y, p);
            if ex.contains(k.lo) {
                assert(o.affected(x, y, k.lo));
            }
            if ex.contains(k.hi) {
                assert(o.affected(x, y, k.hi));
            }
        }
        assert forall|n: NodeId| #[trigger] ex.contains(n) implies inner_in(o.nodes@, n)
            && o.nodes@[n as int].var == x by {
            assert(o.affected(x, y, n));
        }
    }

    proof fn moved(&self, o: &Store, l: int, x: u32, y: u32, n: NodeId)
        requires
            o.wf(),
            o.valid(n),
            0 <= l,
            l + 1 < o.level_of@.len(),
            x == o.var_at@[l],
            y == o.var_at@[l + 1],
            self.nodes == o.nodes,
            self.level_of@ == o.level_of@.update(x as int, (l + 1) as u32).update(
                y as int,
                l as u32,
            ),
        ensures
            self.level(n) == (if n > 1 && o.nodes@[n as int].var == x {
                l + 1
            } else if n > 1 && o.nodes@[n as int].var == y {
                l
            } else {
                o.level(n)
            }),
            n > 1 && o.nodes@[n as int].var == x ==> o.level(n) == l,
            n > 1 && o.nodes@[n as int].var == y ==> o.level(n) == l + 1,
            o.level(n) == l ==> n > 1 && o.nodes@[n as int].var == x,
            o.level(n) == l + 1 ==> n > 1 && o.nodes@[n as int].var == y,
    {
        assert(o.level_of@[o.var_at@[l] as int] == l);
        assert(o.level_of@[o.var_at@[l + 1] as int] == l + 1);
        if n > 1 {
            assert(inner_in(o.nodes@, n));
            assert(node_base(o.nodes@, o.fun@, o.level_of@.len() as int, n));
        }
    }
}

fn plus_capped(a: usize, b: usize) -> (r: usize)
    ensures
        r == if a + b <= usize::MAX {
            a + b
        } else {
            usize::MAX as int
        },
{
    if a <= usize::MAX - b {
        a + b
    } else {
        usize::MAX
    }
}

fn times_capped(a: usize, b: usize) -> (r: usize)
    ensures
        r == if a * b <= usize::MAX {
            a * b
        } else {
            usize::MAX as int
        },
{
    match a.checked_mul(b) {
        Some(c) => c,
        None => usize::MAX,
    }
}

spec fn var_pairs(var_at: Seq<u32>) -> bool {
    &&& var_at.len() % 2 == 0
    &&& forall|l: int|
        0 <= l < var_at.len() && l % 2 == 0 ==> (#[trigger] var_at[l]) % 2 == 0 && var_at[l + 1]
            == var_at[l] + 1
}

proof fn pairs_both(level_of: Seq<u32>, var_at: Seq<u32>)
    requires
        levels_ok(level_of, var_at),
    ensures
        pairs_ok(level_of) == var_pairs(var_at),
{
    if pairs_ok(level_of) {
        assert forall|l: int| 0 <= l < var_at.len() && l % 2 == 0 implies (#[trigger] var_at[l]) % 2
            == 0 && var_at[l + 1] == var_at[l] + 1 by {
            let v = var_at[l] as int;
            assert(level_of[v] == l);
            if v % 2 == 1 {
                assert(level_of[v - 1] % 2 == 0);
                assert(level_of[(v - 1) + 1] == level_of[v - 1] + 1);
            }
            assert(level_of[v + 1] == level_of[v] + 1);
            assert(var_at[level_of[v + 1] as int] == v + 1);
        }
    }
    if var_pairs(var_at) {
        assert forall|v: int| 0 <= v < level_of.len() && v % 2 == 0 implies (#[trigger] level_of[v])
            % 2 == 0 && level_of[v + 1] == level_of[v] + 1 by {
            let l = level_of[v] as int;
            assert(var_at[l] == v);
            if l % 2 == 1 {
                assert(var_at[l - 1] % 2 == 0);
                assert(var_at[(l - 1) + 1] == var_at[l - 1] + 1);
            }
            assert(var_at[l + 1] == var_at[l] + 1);
            assert(level_of[var_at[l + 1] as int] == l + 1);
        }
    }
}

impl Store {
    /// The number of nodes of two variables.
    fn count_of(&self, x: u32, y: u32) -> (r: usize)
        ensures
            r <= self.nodes@.len(),
    {
        let mut n: usize = 0;
        let mut i: usize = 2;
        while i < self.nodes.len()
            invariant
                n <= i,
                i <= self.nodes@.len() || n == 0,
            decreases self.nodes.len() - i,
        {
            if self.nodes[i].var == x || self.nodes[i].var == y {
                n += 1;
            }
            i += 1;
        }
        n
    }

    /// Swaps the pairs at levels `2p` and `2p + 2`. The result counts the nodes of the four
    /// variables.
    fn swap_groups(&mut self, p: usize) -> (work: usize)
        requires
            old(self).wf(),
            pairs_ok(old(self).level_of@),
            2 * p + 3 < old(self).level_of@.len(),
        ensures
            final(self).wf(),
            pairs_ok(final(self).level_of@),
            final(self).level_of@.len() == old(self).level_of@.len(),
            group_order(final(self).var_at@) == group_order(old(self).var_at@).update(
                p as int,
                group_order(old(self).var_at@)[p + 1],
            ).update(p + 1, group_order(old(self).var_at@)[p as int]),
            forall|n: NodeId| #[trigger]
                valid_in(old(self).nodes@, n) ==> valid_in(final(self).nodes@, n) && final(
                    self).fun@[n as int] == old(self).fun@[n as int],
    {
        let l: usize = 2 * p;
        let ghost v0 = self.var_at@;
        proof {
            pairs_both(self.level_of@, self.var_at@);
            assert(v0[l as int] % 2 == 0);
            assert(v0[l + 2] % 2 == 0);
        }
        self.swap_levels(l + 1);
        self.swap_levels(l);
        self.swap_levels(l + 2);
        self.swap_levels(l + 1);
        proof {
            let v4 = self.var_at@;
            assert(v4[l as int] == v0[l + 2]);
            assert(v4[l + 1] == v0[l + 3]);
            assert(v4[l + 2] == v0[l as int]);
            assert(v4[l + 3] == v0[l + 1]);
            assert forall|k: int| 0 <= k < v4.len() && k % 2 == 0 implies (#[trigger] v4[k]) % 2 == 0
                && v4[k + 1] == v4[k] + 1 by {
                assert(v0[k] % 2 == 0 && v0[k + 1] == v0[k] + 1);
            }
            pairs_both(self.level_of@, self.var_at@);
            let g0 = group_order(v0);
            assert(group_order(v4) =~= g0.update(p as int, g0[p + 1]).update(p + 1, g0[p as int])) by {
                assert forall|q: int| 0 <= q < g0.len() implies #[trigger] group_order(v4)[q] == g0.update(
                    p as int,
                    g0[p + 1],
                ).update(p + 1, g0[p as int])[q] by {
                    assert(group_order(v4)[q] == v4[2 * q]);
                    assert(g0[q] == v0[2 * q]);
                    assert(g0[p as int] == v0[2 * p]);
                    assert(g0[p + 1] == v0[2 * (p + 1)]);
                }
            }
        }
        let a: usize = self.count_of(self.var_at[l], self.var_at[l + 1]);
        let b: usize = self.count_of(self.var_at[l + 2], self.var_at[l + 3]);
        times_capped(2, plus_capped(a, b))
    }
}

impl Mgr {
    /// What reordering does not touch is the same.
    spec fn same_settings(&self, o: &Mgr) -> bool {
        &&& self.reorder_enabled == o.reorder_enabled
        &&& self.next_reorder == o.next_reorder
        &&& self.reorder_count == o.reorder_count
    }

    /// Diagrams with the same roots, in the same order, one of them tight.
    proof fn no_larger(&self, b: &Mgr, o: &Mgr, roots: Seq<NodeId>, g: Seq<u32>)
        requires
            self.holds_roots(roots, o),
            b.holds_roots(roots, o),
            self.store.tight(roots),
            self.store.level_of@.len() == b.store.level_of@.len(),
            group_order(self.store.var_at@) == g,
            group_order(b.store.var_at@) == g,
            self.store.nodes@.len() <= usize::MAX,
            b.store.nodes@.len() <= usize::MAX,
        ensures
            self.live() <= b.live(),
    {
        same_levels(self.store.level_of@, self.store.var_at@, b.store.level_of@, b.store.var_at@);
        assert forall|i: int| 0 <= i < roots.len() implies self.store.valid(#[trigger] roots[i]) && b.store.valid(
            roots[i],
        ) && forall|a: Asg| #[trigger] self.store.ev(roots[i], a) == b.store.ev(roots[i], a) by {
            assert(self.valid(roots[i]) && b.valid(roots[i]));
            assert forall|a: Asg| #[trigger] self.store.ev(roots[i], a) == b.store.ev(roots[i], a) by {
                assert(self.eval(roots[i], a) == o.eval(roots[i], a));
                assert(b.eval(roots[i], a) == o.eval(roots[i], a));
            }
        }
        self.store.tight_least(&b.store, roots);
    }

    spec fn holds_roots(&self, roots: Seq<NodeId>, o: &Mgr) -> bool {
        &&& self.wf()
        &&& self.preds() == o.preds()
        &&& forall|i: int| 0 <= i < roots.len() ==> self.valid(#[trigger] roots[i])
        &&& forall|i: int, a: Asg|
            0 <= i < roots.len() ==> #[trigger] self.eval(roots[i], a) == o.eval(roots[i], a)
    }

    /// Swaps two groups and collects the garbage that this leaves.
    fn swap_step(&mut self, p: usize, roots: &Vec<NodeId>, Ghost(o): Ghost<Mgr>) -> (work: usize)
        requires
            old(self).holds_roots(roots@, &o),
            2 * p + 3 < old(self).store.level_of@.len(),
            old(self).ite_cache@ == Map::<Key, usize>::empty(),
            old(self).exists_cache@ == Map::<Key, usize>::empty(),
            old(self).shift_cache@ == Map::<Key, usize>::empty(),
        ensures
            final(self).holds_roots(roots@, &o),
            final(self).store.tight(roots@),
            final(self).same_settings(old(self)),
            group_order(final(self).store.var_at@) == group_order(old(self).store.var_at@).update(
                p as int,
                group_order(old(self).store.var_at@)[p + 1],
            ).update(p + 1, group_order(old(self).store.var_at@)[p as int]),
            final(self).store.level_of@.len() == old(self).store.level_of@.len(),
            final(self).ite_cache@ == Map::<Key, usize>::empty(),
            final(self).exists_cache@ == Map::<Key, usize>::empty(),
            final(self).shift_cache@ == Map::<Key, usize>::empty(),
    {
        let ghost before = *self;
        let work: usize = self.store.swap_groups(p);
        proof {
            assert(self.store.ite_ok(self.ite_cache@));
            assert(self.store.exists_ok(self.exists_cache@, self.preds@));
            assert(self.store.shift_ok(self.shift_cache@));
            assert(self.wf());
            assert forall|i: int| 0 <= i < roots@.len() implies self.valid(#[trigger] roots@[i]) by {
                assert(before.valid(roots@[i]));
                assert(valid_in(before.store.nodes@, roots@[i]));
            }
        }
        let ghost mid = *self;
        let marked = self.store.mark(roots);
        self.store.sweep(&marked);
        proof {
            assert(self.store.ite_ok(self.ite_cache@));
            assert(self.store.exists_ok(self.exists_cache@, self.preds@));
            assert(self.store.shift_ok(self.shift_cache@));
            assert forall|i: int| 0 <= i < roots@.len() implies self.valid(#[trigger] roots@[i]) by {
                assert(mid.valid(roots@[i]));
                assert(valid_in(self.store.nodes@, roots@[i]));
            }
            assert forall|i: int, a: Asg| 0 <= i < roots@.len() implies #[trigger] self.eval(
                roots@[i],
                a,
            ) == o.eval(roots@[i], a) by {
                assert(before.valid(roots@[i]));
                assert(valid_in(before.store.nodes@, roots@[i]));
                assert(before.eval(roots@[i], a) == o.eval(roots@[i], a));
            }
            swept_tight(&mid.store, &self.store, marked@, roots@);
        }
        work
    }

    /// The even variables of the largest groups, largest first, groups of at most `least` nodes
    /// left out.
    fn largest_groups(&self, least: usize) -> (r: Vec<u32>)
        requires
            self.wf(),
        ensures
            forall|i: int|
                0 <= i < r@.len() ==> (#[trigger] r@[i]) < self.store.level_of@.len(),
    {
        let mut out: Vec<u32> = Vec::new();
        let mut sizes: Vec<usize> = Vec::new();
        let mut p: usize = 0;
        while p < self.store.var_at.len() / 2
            invariant
                self.wf(),
                out@.len() == sizes@.len(),
                p <= self.store.var_at@.len() / 2,
                forall|i: int|
                    0 <= i < out@.len() ==> (#[trigger] out@[i]) < self.store.level_of@.len(),
            decreases self.store.var_at.len() / 2 - p,
        {
            let v: u32 = self.store.var_at[2 * p];
            let w: u32 = self.store.var_at[2 * p + 1];
            let size: usize = self.store.count_of(v, w);
            if size > least {
                let mut at: usize = 0;
                while at < sizes.len() && sizes[at] >= size
                    invariant
                        at <= sizes@.len(),
                    decreases sizes.len() - at,
                {
                    at += 1;
                }
                let ghost before = out@;
                out.insert(at, v);
                sizes.insert(at, size);
                assert forall|i: int| 0 <= i < out@.len() implies (#[trigger] out@[i])
                    < self.store.level_of@.len() by {
                    if i < at {
                        assert(out@[i] == before[i]);
                    } else if i > at {
                        assert(out@[i] == before[i - 1]);
                    }
                }
            }
            p += 1;
        }
        let mut r: Vec<u32> = Vec::new();
        let mut i: usize = 0;
        while i < out.len() && i < self.sift_groups
            invariant
                i <= out@.len(),
                forall|i: int|
                    0 <= i < out@.len() ==> (#[trigger] out@[i]) < self.store.level_of@.len(),
                forall|i: int|
                    0 <= i < r@.len() ==> (#[trigger] r@[i]) < self.store.level_of@.len(),
            decreases out.len() - i,
        {
            r.push(out[i]);
            i += 1;
        }
        r
    }

    /// Moves the largest groups of variables to where the diagrams are smallest, within a budget
    /// of nodes touched.
    fn sift_with_roots(&mut self, roots: &Vec<NodeId>)
        requires
            old(self).wf(),
            forall|i: int| 0 <= i < roots@.len() ==> old(self).valid(#[trigger] roots@[i]),
            old(self).store.tight(roots@),
        ensures
            final(self).holds_roots(roots@, old(self)),
            final(self).store.tight(roots@),
            final(self).same_settings(old(self)),
            final(self).live() <= old(self).live(),
    {
        let ghost o = *old(self);
        self.ite_cache = table_new();
        self.exists_cache = table_new();
        self.shift_cache = table_new();
        proof {
            assert(self.wf());
            assert forall|i: int| 0 <= i < roots@.len() implies self.valid(#[trigger] roots@[i]) by {
                assert(o.valid(roots@[i]));
            }
        }
        let ngroups: usize = self.store.var_at.len() / 2;
        if ngroups < 2 {
            return;
        }
        let live: usize = self.node_count();
        let groups = self.largest_groups(live / 200);
        let factor: usize = if self.sift_budget / 4 > 2 {
            self.sift_budget / 4
        } else {
            2
        };
        let mut budget: usize = times_capped(live, self.sift_budget);
        let mut g: usize = 0;
        while g < groups.len() && budget > 0
            invariant
                g <= groups@.len(),
                self.holds_roots(roots@, &o),
                ngroups == self.store.level_of@.len() / 2,
                ngroups >= 2,
                self.store.tight(roots@),
                self.same_settings(&o),
                self.live() <= o.live(),
                self.store.level_of@.len() == o.store.level_of@.len(),
                forall|i: int|
                    0 <= i < groups@.len() ==> (#[trigger] groups@[i]) < self.store.level_of@.len(),
                self.ite_cache@ == Map::<Key, usize>::empty(),
                self.exists_cache@ == Map::<Key, usize>::empty(),
                self.shift_cache@ == Map::<Key, usize>::empty(),
            decreases groups.len() - g,
        {
            let gv: u32 = groups[g];
            let start: usize = self.node_count();
            let mut pos: usize = (self.store.level_of[gv as usize] / 2) as usize;
            let mut best: usize = start;
            let mut best_pos: usize = pos;
            let mut group_budget: usize = times_capped(start, factor);
            if budget < group_budget {
                group_budget = budget;
            }
            let most: usize = plus_capped(start, start / 5);
            let mut spent: usize = 0;
            let mut grown = false;
            let ghost first = *self;
            let ghost from = pos as int;
            let ghost g0 = group_order(self.store.var_at@);
            let ghost mut seen = *self;
            let _count: usize = self.store.nodes.len();
            proof {
                assert(g0.len() == ngroups);
                moved_nowhere(g0, from);
            }
            while pos + 1 < ngroups && spent < group_budget && !grown
                invariant
                    pos < ngroups,
                    best_pos < ngroups,
                    self.holds_roots(roots@, &o),
                    ngroups == self.store.level_of@.len() / 2,
                    self.store.tight(roots@),
                    self.same_settings(&o),
                    self.store.level_of@.len() == o.store.level_of@.len(),
                    g0.len() == ngroups,
                    0 <= from < ngroups,
                    group_order(self.store.var_at@) == moved_to(g0, from, pos as int),
                    seen.holds_roots(roots@, &o),
                    seen.store.level_of@.len() == o.store.level_of@.len(),
                    seen.store.nodes@.len() <= usize::MAX,
                    seen.live() == best,
                    best <= first.live(),
                    group_order(seen.store.var_at@) == moved_to(g0, from, best_pos as int),
                    self.ite_cache@ == Map::<Key, usize>::empty(),
                    self.exists_cache@ == Map::<Key, usize>::empty(),
                    self.shift_cache@ == Map::<Key, usize>::empty(),
                    forall|i: int|
                        0 <= i < groups@.len() ==> (#[trigger] groups@[i])
                            < self.store.level_of@.len(),
                decreases ngroups - pos,
            {
                let work: usize = self.swap_step(pos, roots, Ghost(o));
                spent = plus_capped(spent, work);
                pos += 1;
                proof {
                    moved_next(g0, from, pos - 1);
                }
                let now: usize = self.node_count();
                let _size: usize = self.store.nodes.len();
                if now < best {
                    best = now;
                    best_pos = pos;
                    proof {
                        seen = *self;
                    }
                }
                grown = now > most;
            }
            grown = false;
            while pos > 0 && spent < group_budget && !grown
                invariant
                    pos < ngroups,
                    best_pos < ngroups,
                    self.holds_roots(roots@, &o),
                    ngroups == self.store.level_of@.len() / 2,
                    self.store.tight(roots@),
                    self.same_settings(&o),
                    self.store.level_of@.len() == o.store.level_of@.len(),
                    g0.len() == ngroups,
                    0 <= from < ngroups,
                    group_order(self.store.var_at@) == moved_to(g0, from, pos as int),
                    seen.holds_roots(roots@, &o),
                    seen.store.level_of@.len() == o.store.level_of@.len(),
                    seen.store.nodes@.len() <= usize::MAX,
                    seen.live() == best,
                    best <= first.live(),
                    group_order(seen.store.var_at@) == moved_to(g0, from, best_pos as int),
                    self.ite_cache@ == Map::<Key, usize>::empty(),
                    self.exists_cache@ == Map::<Key, usize>::empty(),
                    self.shift_cache@ == Map::<Key, usize>::empty(),
                    forall|i: int|
                        0 <= i < groups@.len() ==> (#[trigger] groups@[i])
                            < self.store.level_of@.len(),
                decreases pos,
            {
                let work: usize = self.swap_step(pos - 1, roots, Ghost(o));
                spent = plus_capped(spent, work);
                pos -= 1;
                proof {
                    moved_next(g0, from, pos as int);
                }
                let now: usize = self.node_count();
                let _size: usize = self.store.nodes.len();
                if now < best {
                    best = now;
                    best_pos = pos;
                    proof {
                        seen = *self;
                    }
                }
                grown = now > most;
            }
            while pos != best_pos
                invariant
                    pos < ngroups,
                    best_pos < ngroups,
                    self.holds_roots(roots@, &o),
                    ngroups == self.store.level_of@.len() / 2,
                    self.store.tight(roots@),
                    self.same_settings(&o),
                    self.store.level_of@.len() == o.store.level_of@.len(),
                    g0.len() == ngroups,
                    0 <= from < ngroups,
                    group_order(self.store.var_at@) == moved_to(g0, from, pos as int),
                    seen.holds_roots(roots@, &o),
                    seen.store.level_of@.len() == o.store.level_of@.len(),
                    seen.store.nodes@.len() <= usize::MAX,
                    seen.live() == best,
                    best <= first.live(),
                    group_order(seen.store.var_at@) == moved_to(g0, from, best_pos as int),
                    self.ite_cache@ == Map::<Key, usize>::empty(),
                    self.exists_cache@ == Map::<Key, usize>::empty(),
                    self.shift_cache@ == Map::<Key, usize>::empty(),
                    forall|i: int|
                        0 <= i < groups@.len() ==> (#[trigger] groups@[i])
                            < self.store.level_of@.len(),
                decreases
                        if pos < best_pos {
                            best_pos - pos
                        } else {
                            pos - best_pos
                        },
            {
                if pos < best_pos {
                    let work: usize = self.swap_step(pos, roots, Ghost(o));
                    spent = plus_capped(spent, work);
                    pos += 1;
                    proof {
                        moved_next(g0, from, pos - 1);
                    }
                } else {
                    let work: usize = self.swap_step(pos - 1, roots, Ghost(o));
                    spent = plus_capped(spent, work);
                    pos -= 1;
                    proof {
                        moved_next(g0, from, pos as int);
                    }
                }
            }
            let _end: usize = self.store.nodes.len();
            proof {
                self.no_larger(&seen, &o, roots@, moved_to(g0, from, best_pos as int));
            }
            budget = if budget > spent {
                budget - spent
            } else {
                0
            };
            g += 1;
        }
    }

    /// What a collection for the roots leaves: their functions, and nothing that they are not built of.
    pub open spec fn collects(&self, mid: &Mgr, roots: Seq<NodeId>) -> bool {
        &&& mid.wf()
        &&& mid.collected(roots)
        &&& mid.live() <= self.live()
        &&& forall|n: NodeId| #[trigger] mid.valid(n) ==> self.valid(n)
        &&& forall|n: NodeId, a: Asg| mid.valid(n) ==> #[trigger] mid.eval(n, a) == self.eval(n, a)
        &&& forall|i: int| 0 <= i < roots.len() ==> mid.valid(#[trigger] roots[i])
    }

    /// Reorders the variables. Every function among `roots` keeps its index; other indices may
    /// become invalid.
    pub fn reorder_now(&mut self, roots: &Vec<NodeId>)
        requires
            old(self).wf(),
            forall|i: int| 0 <= i < roots@.len() ==> old(self).valid(#[trigger] roots@[i]),
        ensures
            final(self).wf(),
            final(self).preds() == old(self).preds(),
            forall|i: int| 0 <= i < roots@.len() ==> final(self).valid(#[trigger] roots@[i]),
            forall|i: int, a: Asg|
                0 <= i < roots@.len() ==> #[trigger] final(self).eval(roots@[i], a) == old(
                    self).eval(roots@[i], a),
            final(self).collected(roots@),
            forall|n: NodeId| #[trigger]
                final(self).valid(n) ==> n <= 1 || roots@.contains(n) || final(self).is_branch(n),
            final(self).live() <= old(self).live(),
            final(self).reordering() == old(self).reordering(),
            final(self).threshold() == old(self).threshold(),
            final(self).reorderings() == counted(old(self).reorderings()),
    {
        self.gc(roots);
        let ghost mid = *self;
        self.sift_with_roots(roots);
        let ghost end = *self;
        if self.reorder_count < usize::MAX {
            self.reorder_count += 1;
        }
        proof {
            assert forall|n: NodeId| #[trigger] self.valid(n) implies n <= 1 || roots@.contains(n) || self.is_branch(
                n,
            ) by {
                self.collected_nodes(roots@, n);
            }
            assert forall|i: int, a: Asg| 0 <= i < roots@.len() implies #[trigger] self.eval(
                roots@[i],
                a,
            ) == old(self).eval(roots@[i], a) by {
                assert(mid.valid(roots@[i]));
                assert(end.eval(roots@[i], a) == mid.eval(roots@[i], a));
                assert(mid.eval(roots@[i], a) == old(self).eval(roots@[i], a));
            }
        }
    }

    /// Collects garbage and reorders the variables when reordering is on and the diagrams have
    /// grown enough. Every function among `roots` keeps its index; other indices may become
    /// invalid.
    pub fn reorder_if_needed(&mut self, roots: &Vec<NodeId>)
        requires
            old(self).wf(),
            forall|i: int| 0 <= i < roots@.len() ==> old(self).valid(#[trigger] roots@[i]),
        ensures
            final(self).wf(),
            final(self).preds() == old(self).preds(),
            forall|i: int| 0 <= i < roots@.len() ==> final(self).valid(#[trigger] roots@[i]),
            forall|i: int, a: Asg|
                0 <= i < roots@.len() ==> #[trigger] final(self).eval(roots@[i], a) == old(
                    self).eval(roots@[i], a),
            !old(self).reordering() || old(self).live() < old(self).threshold() ==> *final(self) == *old(self),
            old(self).reordering() && old(self).live() >= old(self).threshold() ==> {
                &&& final(self).collected(roots@)
                &&& forall|n: NodeId| #[trigger]
                    final(self).valid(n) ==> n <= 1 || roots@.contains(n) || final(self).is_branch(n)
                &&& final(self).live() <= old(self).live()
                &&& final(self).reordering()
                &&& final(self).threshold() == next_threshold(final(self).live())
                &&& exists|mid: Mgr| #[trigger]
                    old(self).collects(&mid, roots@) && final(self).live() <= mid.live()
                        && final(self).reorderings() == if mid.live() >= 30_000 {
                        counted(old(self).reorderings())
                    } else {
                        old(self).reorderings()
                    }
            },
    {
        if !self.reorder_enabled || self.node_count() < self.next_reorder {
            return ;
        }
        self.gc(roots);
        let ghost mid = *self;
        if self.node_count() >= 30_000 {
            self.sift_with_roots(roots);
            let ghost sifted = *self;
            if self.reorder_count < usize::MAX {
                self.reorder_count += 1;
            }
            assert forall|i: int, a: Asg| 0 <= i < roots@.len() implies #[trigger] self.eval(
                roots@[i],
                a,
            ) == mid.eval(roots@[i], a) by {
                assert(sifted.eval(roots@[i], a) == mid.eval(roots@[i], a));
            }
        }
        let ghost end = *self;
        let triple: usize = times_capped(self.node_count(), 3);
        self.next_reorder = if triple > 150_000 {
            triple
        } else {
            150_000
        };
        proof {
            assert forall|i: int, a: Asg| 0 <= i < roots@.len() implies #[trigger] self.eval(
                roots@[i],
                a,
            ) == old(self).eval(roots@[i], a) by {
                assert(mid.valid(roots@[i]));
                assert(end.eval(roots@[i], a) == mid.eval(roots@[i], a));
                assert(mid.eval(roots@[i], a) == old(self).eval(roots@[i], a));
            }
            assert forall|n: NodeId| #[trigger] self.valid(n) implies n <= 1 || roots@.contains(n) || self.is_branch(
                n,
            ) by {
                self.collected_nodes(roots@, n);
            }
            assert(old(self).collects(&mid, roots@));
        }
    }
}

} // verus!
