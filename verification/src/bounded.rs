//! Linear-time formulas on bounded paths, with and without a loop.

use crate::fexpr::{FExpr, FE};
use crate::ltl::{lt_release, lt_until, nn_atoms, nn_sat, Ltl, Times, Word, NN};
use vstd::prelude::*;

verus! {

/// `p` holds from `lo` up to `hi`, `hi` not counted.
pub open spec fn all_in(p: Times, lo: nat, hi: nat) -> bool {
    forall|m: nat| lo <= m < hi ==> #[trigger] p(m)
}

/// `q` comes at `j`, before the end of the path, and `p` holds until there.
pub open spec fn until_by(p: Times, q: Times, i: nat, j: nat) -> bool {
    q(j) && all_in(p, i, j)
}

/// `q` comes at `j` in the loop, and `p` holds on the way round to it.
pub open spec fn until_round(p: Times, q: Times, k: nat, l: nat, i: nat, j: nat) -> bool {
    q(j) && all_in(p, i, (k + 1) as nat) && all_in(p, l, j)
}

/// Until, on a path of the steps up to `k` with an edge from `k` back to `l`, or without.
pub open spec fn b_until(p: Times, q: Times, k: nat, l: Option<nat>, i: nat) -> bool {
    ||| exists|j: nat| i <= j <= k && #[trigger] until_by(p, q, i, j)
    ||| match l {
        Some(l) => round_until(p, q, k, l, i),
        None => false,
    }
}

/// `q` comes in the loop before `i`, and `p` holds on the way round to it.
pub open spec fn round_until(p: Times, q: Times, k: nat, l: nat, i: nat) -> bool {
    exists|j: nat| l <= j < i && #[trigger] until_round(p, q, k, l, i, j)
}

/// `p` comes at `j`, before the end of the path, and `q` holds up to and including there.
pub open spec fn release_by(p: Times, q: Times, i: nat, j: nat) -> bool {
    p(j) && all_in(q, i, (j + 1) as nat)
}

/// `p` comes at `j` in the loop, and `q` holds on the way round up to and including there.
pub open spec fn release_round(p: Times, q: Times, k: nat, l: nat, i: nat, j: nat) -> bool {
    p(j) && all_in(q, i, (k + 1) as nat) && all_in(q, l, (j + 1) as nat)
}

/// The lesser of two numbers.
pub open spec fn least(a: nat, b: nat) -> nat {
    if a <= b {
        a
    } else {
        b
    }
}

/// Release, on a path of the steps up to `k` with an edge from `k` back to `l`, or without.
pub open spec fn b_release(p: Times, q: Times, k: nat, l: Option<nat>, i: nat) -> bool {
    ||| exists|j: nat| i <= j <= k && #[trigger] release_by(p, q, i, j)
    ||| match l {
        Some(l) => all_in(q, least(i, l), (k + 1) as nat) || round_release(p, q, k, l, i),
        None => false,
    }
}

/// `p` comes in the loop before `i`, and `q` holds on the way round to it.
pub open spec fn round_release(p: Times, q: Times, k: nat, l: nat, i: nat) -> bool {
    exists|j: nat| l <= j < i && #[trigger] release_round(p, q, k, l, i, j)
}

/// The steps of a bounded path at which a formula holds. Without a loop it holds only if it holds
/// however the path goes on.
pub open spec fn b_sat(f: NN, w: Word, k: nat, l: Option<nat>) -> Times
    decreases f,
{
    match f {
        NN::True => |i: nat| true,
        NN::False => |i: nat| false,
        NN::Atom(e) => |i: nat| w(i, e),
        NN::NAtom(e) => |i: nat| !w(i, e),
        NN::And(a, b) => {
            let p = b_sat(*a, w, k, l);
            let q = b_sat(*b, w, k, l);
            |i: nat| p(i) && q(i)
        },
        NN::Or(a, b) => {
            let p = b_sat(*a, w, k, l);
            let q = b_sat(*b, w, k, l);
            |i: nat| p(i) || q(i)
        },
        NN::X(a) => {
            let p = b_sat(*a, w, k, l);
            |i: nat|
                if i < k {
                    p((i + 1) as nat)
                } else {
                    match l {
                        Some(l) => p(l),
                        None => false,
                    }
                }
        },
        NN::U(a, b) => {
            let p = b_sat(*a, w, k, l);
            let q = b_sat(*b, w, k, l);
            |i: nat| b_until(p, q, k, l, i)
        },
        NN::R(a, b) => {
            let p = b_sat(*a, w, k, l);
            let q = b_sat(*b, w, k, l);
            |i: nat| b_release(p, q, k, l, i)
        },
    }
}

/// The step of the path that a position of the endless word falls on.
pub open spec fn folded(k: nat, l: nat, i: nat) -> nat {
    if i <= k {
        i
    } else {
        (l + (i - l) % (k - l + 1)) as nat
    }
}

/// The endless word that goes along the path and then round the loop for ever.
pub open spec fn lasso(w: Word, k: nat, l: nat) -> Word {
    |i: nat, e: FE| w(folded(k, l, i), e)
}

/// From `a` on, the word is as it is from `b` on.
spec fn matches_from(w: Word, a: nat, b: nat) -> bool {
    forall|j: nat, e: FE| #[trigger] w((a + j) as nat, e) == w((b + j) as nat, e)
}

proof fn shifted_sat(f: NN, w: Word, a: nat, b: nat, j: nat)
    requires
        matches_from(w, a, b),
    ensures
        nn_sat(f, w)((a + j) as nat) == nn_sat(f, w)((b + j) as nat),
    decreases f, 1nat,
{
    match f {
        NN::Atom(e) => {
            assert(w((a + j) as nat, e) == w((b + j) as nat, e));
        },
        NN::NAtom(e) => {
            assert(w((a + j) as nat, e) == w((b + j) as nat, e));
        },
        NN::And(x, y) => {
            shifted_sat(*x, w, a, b, j);
            shifted_sat(*y, w, a, b, j);
        },
        NN::Or(x, y) => {
            shifted_sat(*x, w, a, b, j);
            shifted_sat(*y, w, a, b, j);
        },
        NN::X(x) => {
            shifted_sat(*x, w, a, b, j + 1);
        },
        NN::U(x, y) => {
            shifted_until(f, *x, *y, w, a, b, j);
            assert(matches_from(w, b, a)) by {
                assert forall|i: nat, e: FE| #[trigger] w((b + i) as nat, e) == w((a + i) as nat, e) by {
                    assert(w((a + i) as nat, e) == w((b + i) as nat, e));
                }
            }
            shifted_until(f, *x, *y, w, b, a, j);
        },
        NN::R(x, y) => {
            shifted_release(f, *x, *y, w, a, b, j);
            assert(matches_from(w, b, a)) by {
                assert forall|i: nat, e: FE| #[trigger] w((b + i) as nat, e) == w((a + i) as nat, e) by {
                    assert(w((a + i) as nat, e) == w((b + i) as nat, e));
                }
            }
            shifted_release(f, *x, *y, w, b, a, j);
        },
        _ => {},
    }
}

proof fn shifted_until(f: NN, x: NN, y: NN, w: Word, a: nat, b: nat, j: nat)
    requires
        matches_from(w, a, b),
        decreases_to!(f => x),
        decreases_to!(f => y),
    ensures
        lt_until(nn_sat(x, w), nn_sat(y, w), (a + j) as nat) ==> lt_until(
            nn_sat(x, w),
            nn_sat(y, w),
            (b + j) as nat,
        ),
    decreases f, 0nat,
{
    let p = nn_sat(x, w);
    let q = nn_sat(y, w);
    if !lt_until(p, q, (a + j) as nat) {
        return ;
    }
    let n = choose|n: nat| a + j <= n && #[trigger] q(n) && forall|m: nat| a + j <= m < n ==> #[trigger] p(m);
    let d = (n - a) as nat;
    shifted_sat(y, w, a, b, d);
    assert(q((b + d) as nat));
    assert forall|m: nat| b + j <= m < b + d implies #[trigger] p(m) by {
        let c = (m - b) as nat;
        assert(p((a + c) as nat));
        shifted_sat(x, w, a, b, c);
    }
}

proof fn shifted_release(f: NN, x: NN, y: NN, w: Word, a: nat, b: nat, j: nat)
    requires
        matches_from(w, a, b),
        decreases_to!(f => x),
        decreases_to!(f => y),
    ensures
        lt_release(nn_sat(x, w), nn_sat(y, w), (a + j) as nat) ==> lt_release(
            nn_sat(x, w),
            nn_sat(y, w),
            (b + j) as nat,
        ),
    decreases f, 0nat,
{
    let p = nn_sat(x, w);
    let q = nn_sat(y, w);
    if !lt_release(p, q, (a + j) as nat) {
        return ;
    }
    assert forall|n: nat| b + j <= n implies #[trigger] q(n) || exists|m: nat| b + j <= m < n && #[trigger] p(m) by {
        let d = (n - b) as nat;
        shifted_sat(y, w, a, b, d);
        assert(q((a + d) as nat) || exists|m: nat| a + j <= m < a + d && #[trigger] p(m));
        if !q((a + d) as nat) {
            let m = choose|m: nat| a + j <= m < a + d && #[trigger] p(m);
            let c = (m - a) as nat;
            shifted_sat(x, w, a, b, c);
            assert(p((b + c) as nat));
        }
    }
}

/// Positions a whole number of rounds apart fall on the same step.
proof fn folded_round(k: nat, l: nat, i: nat)
    requires
        l <= k,
        l <= i,
    ensures
        folded(k, l, (i + (k - l + 1)) as nat) == folded(k, l, i),
        folded(k, l, i) <= k,
        l <= folded(k, l, i),
{
    let n = k - l + 1;
    let d = i - l;
    assert((d + n) % n == d % n) by (nonlinear_arith)
        requires
            n > 0,
            d >= 0,
    ;
    assert(0 <= d % n < n) by (nonlinear_arith)
        requires
            n > 0,
            d >= 0,
    ;
    if i <= k {
        assert(d % n == d) by (nonlinear_arith)
            requires
                0 <= d < n,
        ;
    }
}

/// Every position falls on a step of the path.
pub proof fn folded_range(k: nat, l: nat, i: nat)
    requires
        l <= k,
    ensures
        folded(k, l, i) <= k,
{
    if i > k {
        folded_round(k, l, i);
    }
}

/// A formula holds at a position of the endless word just if it holds at the step it falls on.
proof fn folded_sat(f: NN, w: Word, k: nat, l: nat, i: nat)
    requires
        l <= k,
    ensures
        nn_sat(f, lasso(w, k, l))(i) == nn_sat(f, lasso(w, k, l))(folded(k, l, i)),
    decreases i,
{
    if i > k {
        let n = (k - l + 1) as nat;
        let j = (i - n) as nat;
        let lw = lasso(w, k, l);
        assert(matches_from(lw, j, i)) by {
            assert forall|d: nat, e: FE| #[trigger] lw((j + d) as nat, e) == lw((i + d) as nat, e) by {
                folded_round(k, l, (j + d) as nat);
                assert(j + d + n == i + d);
            }
        }
        shifted_sat(f, lw, j, i, 0);
        folded_round(k, l, j);
        folded_sat(f, w, k, l, j);
    }
}

spec fn periodic(p: Times, k: nat, l: nat) -> bool {
    forall|i: nat| #[trigger] p(i) == p(folded(k, l, i))
}

/// Until goes round the loop at most once.
proof fn until_folded(p: Times, q: Times, k: nat, l: nat, i: nat)
    requires
        l <= k,
        i <= k,
        periodic(p, k, l),
        periodic(q, k, l),
    ensures
        lt_until(p, q, i) == b_until(p, q, k, Some(l), i),
{
    let n = (k - l + 1) as nat;
    if lt_until(p, q, i) {
        let j = choose|j: nat| i <= j && #[trigger] q(j) && forall|m: nat| i <= m < j ==> #[trigger] p(m);
        if j <= k {
            assert(until_by(p, q, i, j));
            assert(b_until(p, q, k, Some(l), i));
        } else {
            let c = folded(k, l, j);
            folded_round(k, l, j);
            assert(q(c));
            if i <= c {
                assert(until_by(p, q, i, c));
                assert(b_until(p, q, k, Some(l), i));
            } else {
                assert forall|m: nat| l <= m < c implies #[trigger] p(m) by {
                    // the position in the last round
                    let e = (j - (c - m)) as nat;
                    folded_back(k, l, j, m);
                    assert(p(e));
                }
                assert(until_round(p, q, k, l, i, c));
                assert(round_until(p, q, k, l, i));
                assert(b_until(p, q, k, Some(l), i));
            }
        }
    }
    if b_until(p, q, k, Some(l), i) {
        if exists|j: nat| i <= j <= k && #[trigger] until_by(p, q, i, j) {
            let j = choose|j: nat| i <= j <= k && #[trigger] until_by(p, q, i, j);
            assert(q(j));
            assert(lt_until(p, q, i));
        } else {
            let j = choose|j: nat| l <= j < i && #[trigger] until_round(p, q, k, l, i, j);
            let e = (j + n) as nat;
            folded_round(k, l, j);
            assert(q(e));
            assert forall|m: nat| i <= m < e implies #[trigger] p(m) by {
                if m > k {
                    let d = (m - n) as nat;
                    folded_round(k, l, d);
                    assert(p(d));
                }
            }
            assert(lt_until(p, q, i));
        }
    }
}

/// The position in the round of `j` that falls on an earlier step than `j` does.
proof fn folded_back(k: nat, l: nat, j: nat, m: nat)
    requires
        l <= k,
        k < j,
        l <= m <= folded(k, l, j),
    ensures
        k < j - (folded(k, l, j) - m),
        folded(k, l, (j - (folded(k, l, j) - m)) as nat) == m,
{
    let n = k - l + 1;
    let d = j - l;
    let c = folded(k, l, j);
    let r = d % n;
    let t = d / n;
    assert(d == n * t + r && 0 <= r < n) by (nonlinear_arith)
        requires
            n > 0,
            d >= 0,
            r == d % n,
            t == d / n,
    ;
    assert(t >= 1) by (nonlinear_arith)
        requires
            d >= n,
            d == n * t + r,
            0 <= r < n,
            n > 0,
    ;
    let s = m - l;
    let e = (j - (c - m)) as nat;
    assert(e - l == n * t + s);
    assert(n * t >= n) by (nonlinear_arith)
        requires
            t >= 1,
            n > 0,
    ;
    assert((n * t + s) % n == s) by (nonlinear_arith)
        requires
            0 <= s < n,
            n > 0,
            t >= 1,
    ;
}

/// Release is settled within one round.
proof fn release_folded(p: Times, q: Times, k: nat, l: nat, i: nat)
    requires
        l <= k,
        i <= k,
        periodic(p, k, l),
        periodic(q, k, l),
    ensures
        lt_release(p, q, i) == b_release(p, q, k, Some(l), i),
{
    let np = |m: nat| !p(m);
    let nq = |m: nat| !q(m);
    assert(periodic(np, k, l)) by {
        assert forall|m: nat| #[trigger] np(m) == np(folded(k, l, m)) by {
            assert(p(m) == p(folded(k, l, m)));
        }
    }
    assert(periodic(nq, k, l)) by {
        assert forall|m: nat| #[trigger] nq(m) == nq(folded(k, l, m)) by {
            assert(q(m) == q(folded(k, l, m)));
        }
    }
    until_folded(np, nq, k, l, i);
    assert(lt_release(p, q, i) == !lt_until(np, nq, i)) by {
        if lt_release(p, q, i) && lt_until(np, nq, i) {
            let j = choose|j: nat| i <= j && #[trigger] nq(j) && forall|m: nat| i <= m < j ==> #[trigger] np(m);
            assert(q(j) || exists|m: nat| i <= m < j && #[trigger] p(m));
            let m = choose|m: nat| i <= m < j && #[trigger] p(m);
            assert(np(m));
        }
        if !lt_until(np, nq, i) {
            assert forall|j: nat| i <= j implies #[trigger] q(j) || exists|m: nat| i <= m < j && #[trigger] p(m) by {
                if !q(j) {
                    assert(nq(j));
                    assert(!(forall|m: nat| i <= m < j ==> #[trigger] np(m)));
                    let m = choose|m: nat| i <= m < j && !#[trigger] np(m);
                    assert(p(m));
                }
            }
        }
    }
    dual(p, q, np, nq, k, l, i);
}

/// The bounded release is the bounded until of the complements, turned round.
proof fn dual(p: Times, q: Times, np: Times, nq: Times, k: nat, l: nat, i: nat)
    requires
        l <= k,
        i <= k,
        forall|m: nat| #[trigger] np(m) == !p(m),
        forall|m: nat| #[trigger] nq(m) == !q(m),
    ensures
        b_release(p, q, k, Some(l), i) == !b_until(np, nq, k, Some(l), i),
{
    if b_until(np, nq, k, Some(l), i) {
        if exists|j: nat| i <= j <= k && #[trigger] until_by(np, nq, i, j) {
            let j = choose|j: nat| i <= j <= k && #[trigger] until_by(np, nq, i, j);
            assert(nq(j));
            assert(!q(j));
            assert(!all_in(q, least(i, l), (k + 1) as nat));
            assert forall|m: nat| i <= m <= k implies !#[trigger] release_by(p, q, i, m) by {
                if release_by(p, q, i, m) {
                    if m < j {
                        assert(np(m));
                    } else {
                        assert(q(j));
                    }
                }
            }
            assert forall|m: nat| l <= m < i implies !#[trigger] release_round(p, q, k, l, i, m) by {
                if release_round(p, q, k, l, i, m) {
                    assert(q(j));
                }
            }
        } else {
            let j = choose|j: nat| l <= j < i && #[trigger] until_round(np, nq, k, l, i, j);
            assert(nq(j));
            assert(!q(j));
            assert(!all_in(q, least(i, l), (k + 1) as nat));
            assert forall|m: nat| i <= m <= k implies !#[trigger] release_by(p, q, i, m) by {
                assert(np(m));
            }
            assert forall|m: nat| l <= m < i implies !#[trigger] release_round(p, q, k, l, i, m) by {
                if release_round(p, q, k, l, i, m) {
                    if m < j {
                        assert(np(m));
                    } else {
                        assert(q(j));
                    }
                }
            }
        }
    } else {
        if !b_release(p, q, k, Some(l), i) {
            // the first step from i on, then round, at which q fails
            if exists|j: nat| i <= j <= k && !#[trigger] q(j) {
                let j = first_failure(q, i, k);
                assert forall|m: nat| i <= m < j implies #[trigger] np(m) by {
                    if p(m) {
                        assert(all_in(q, i, (m + 1) as nat));
                        assert(release_by(p, q, i, m));
                    }
                }
                assert(nq(j));
                assert(until_by(np, nq, i, j));
            } else {
                assert(all_in(q, i, (k + 1) as nat));
                let c = choose|c: nat| least(i, l) <= c < k + 1 && !#[trigger] q(c);
                assert(l <= c < i);
                let j = first_failure(q, l, (i - 1) as nat);
                assert forall|m: nat| i <= m < k + 1 implies #[trigger] np(m) by {
                    if p(m) {
                        assert(all_in(q, i, (m + 1) as nat));
                        assert(release_by(p, q, i, m));
                    }
                }
                assert forall|m: nat| l <= m < j implies #[trigger] np(m) by {
                    if p(m) {
                        assert(all_in(q, l, (m + 1) as nat));
                        assert(release_round(p, q, k, l, i, m));
                    }
                }
                assert(nq(j));
                assert(until_round(np, nq, k, l, i, j));
            }
        }
    }
}

proof fn first_failure(q: Times, lo: nat, hi: nat) -> (j: nat)
    requires
        exists|j: nat| lo <= j <= hi && !#[trigger] q(j),
    ensures
        lo <= j <= hi,
        !q(j),
        all_in(q, lo, j),
    decreases hi - lo,
{
    if !q(lo) {
        lo
    } else {
        let c = choose|j: nat| lo <= j <= hi && !#[trigger] q(j);
        let j = first_failure(q, lo + 1, hi);
        assert forall|m: nat| lo <= m < j implies #[trigger] q(m) by {
            if m > lo {
                assert(all_in(q, lo + 1, j));
            }
        }
        j
    }
}

/// Until and release depend on the steps of the path only.
proof fn times_same(p: Times, q: Times, p2: Times, q2: Times, k: nat, l: Option<nat>, i: nat)
    requires
        l matches Some(n) ==> n <= k,
        i <= k,
        forall|m: nat| m <= k ==> #[trigger] p(m) == p2(m),
        forall|m: nat| m <= k ==> #[trigger] q(m) == q2(m),
    ensures
        b_until(p, q, k, l, i) ==> b_until(p2, q2, k, l, i),
        b_release(p, q, k, l, i) ==> b_release(p2, q2, k, l, i),
{
    if b_until(p, q, k, l, i) {
        if exists|j: nat| i <= j <= k && #[trigger] until_by(p, q, i, j) {
            let j = choose|j: nat| i <= j <= k && #[trigger] until_by(p, q, i, j);
            assert forall|m: nat| i <= m < j implies #[trigger] p2(m) by {
                assert(p(m));
            }
            assert(q(j));
            assert(until_by(p2, q2, i, j));
        } else {
            let l = l->0;
            let j = choose|j: nat| l <= j < i && #[trigger] until_round(p, q, k, l, i, j);
            assert forall|m: nat| (i <= m < k + 1 || l <= m < j) implies #[trigger] p2(m) by {
                assert(p(m));
            }
            assert(q(j));
            assert(until_round(p2, q2, k, l, i, j));
            assert(round_until(p2, q2, k, l, i));
        }
    }
    if b_release(p, q, k, l, i) {
        if exists|j: nat| i <= j <= k && #[trigger] release_by(p, q, i, j) {
            let j = choose|j: nat| i <= j <= k && #[trigger] release_by(p, q, i, j);
            assert forall|m: nat| i <= m < j + 1 implies #[trigger] q2(m) by {
                assert(q(m));
            }
            assert(p(j));
            assert(release_by(p2, q2, i, j));
        } else {
            let l = l->0;
            if all_in(q, least(i, l), (k + 1) as nat) {
                assert forall|m: nat| least(i, l) <= m < k + 1 implies #[trigger] q2(m) by {
                    assert(q(m));
                }
            } else {
                let j = choose|j: nat| l <= j < i && #[trigger] release_round(p, q, k, l, i, j);
                assert forall|m: nat| (i <= m < k + 1 || l <= m < j + 1) implies #[trigger] q2(m) by {
                    assert(q(m));
                }
                assert(p(j));
                assert(release_round(p2, q2, k, l, i, j));
                assert(round_release(p2, q2, k, l, i));
            }
        }
    }
}

/// A formula holds on a path with a loop just if it holds on the endless word that the path and
/// its loop make.
pub proof fn loop_meaning(f: NN, w: Word, k: nat, l: nat, i: nat)
    requires
        l <= k,
        i <= k,
    ensures
        b_sat(f, w, k, Some(l))(i) == nn_sat(f, lasso(w, k, l))(i),
    decreases f,
{
    let lw = lasso(w, k, l);
    match f {
        NN::And(a, b) => {
            loop_meaning(*a, w, k, l, i);
            loop_meaning(*b, w, k, l, i);
        },
        NN::Or(a, b) => {
            loop_meaning(*a, w, k, l, i);
            loop_meaning(*b, w, k, l, i);
        },
        NN::X(a) => {
            if i < k {
                loop_meaning(*a, w, k, l, i + 1);
            } else {
                loop_meaning(*a, w, k, l, l);
                folded_sat(*a, w, k, l, (k + 1) as nat);
                folded_round(k, l, l);
                assert(folded(k, l, l) == l);
                assert(folded(k, l, (k + 1) as nat) == l);
            }
        },
        NN::U(a, b) => {
            let p = b_sat(*a, w, k, Some(l));
            let q = b_sat(*b, w, k, Some(l));
            let p2 = nn_sat(*a, lw);
            let q2 = nn_sat(*b, lw);
            assert forall|m: nat| m <= k implies #[trigger] p(m) == p2(m) by {
                loop_meaning(*a, w, k, l, m);
            }
            assert forall|m: nat| m <= k implies #[trigger] q(m) == q2(m) by {
                loop_meaning(*b, w, k, l, m);
            }
            both_periodic(*a, *b, w, k, l);
            until_folded(p2, q2, k, l, i);
            times_same(p, q, p2, q2, k, Some(l), i);
            times_same(p2, q2, p, q, k, Some(l), i);
        },
        NN::R(a, b) => {
            let p = b_sat(*a, w, k, Some(l));
            let q = b_sat(*b, w, k, Some(l));
            let p2 = nn_sat(*a, lw);
            let q2 = nn_sat(*b, lw);
            assert forall|m: nat| m <= k implies #[trigger] p(m) == p2(m) by {
                loop_meaning(*a, w, k, l, m);
            }
            assert forall|m: nat| m <= k implies #[trigger] q(m) == q2(m) by {
                loop_meaning(*b, w, k, l, m);
            }
            both_periodic(*a, *b, w, k, l);
            release_folded(p2, q2, k, l, i);
            times_same(p, q, p2, q2, k, Some(l), i);
            times_same(p2, q2, p, q, k, Some(l), i);
        },
        _ => {},
    }
}

proof fn both_periodic(a: NN, b: NN, w: Word, k: nat, l: nat)
    requires
        l <= k,
    ensures
        periodic(nn_sat(a, lasso(w, k, l)), k, l),
        periodic(nn_sat(b, lasso(w, k, l)), k, l),
{
    let p = nn_sat(a, lasso(w, k, l));
    let q = nn_sat(b, lasso(w, k, l));
    assert forall|i: nat| #[trigger] p(i) == p(folded(k, l, i)) by {
        folded_sat(a, w, k, l, i);
    }
    assert forall|i: nat| #[trigger] q(i) == q(folded(k, l, i)) by {
        folded_sat(b, w, k, l, i);
    }
}

/// Whether a formula holds on a path depends on the steps of the path only.
pub proof fn b_local(f: NN, w: Word, v: Word, k: nat, l: Option<nat>, i: nat)
    requires
        i <= k,
        l matches Some(n) ==> n <= k,
        forall|j: nat, e: FE| j <= k ==> #[trigger] v(j, e) == w(j, e),
    ensures
        b_sat(f, w, k, l)(i) == b_sat(f, v, k, l)(i),
    decreases f, 1nat,
{
    match f {
        NN::Atom(e) => {
            assert(v(i, e) == w(i, e));
        },
        NN::NAtom(e) => {
            assert(v(i, e) == w(i, e));
        },
        NN::And(a, b) => {
            b_local(*a, w, v, k, l, i);
            b_local(*b, w, v, k, l, i);
        },
        NN::Or(a, b) => {
            b_local(*a, w, v, k, l, i);
            b_local(*b, w, v, k, l, i);
        },
        NN::X(a) => {
            if i < k {
                b_local(*a, w, v, k, l, i + 1);
            } else if l is Some {
                b_local(*a, w, v, k, l, l->0);
            }
        },
        NN::U(a, b) => {
            b_local_parts(f, *a, *b, w, v, k, l);
            let (p, q) = (b_sat(*a, w, k, l), b_sat(*b, w, k, l));
            let (p2, q2) = (b_sat(*a, v, k, l), b_sat(*b, v, k, l));
            times_same(p, q, p2, q2, k, l, i);
            times_same(p2, q2, p, q, k, l, i);
        },
        NN::R(a, b) => {
            b_local_parts(f, *a, *b, w, v, k, l);
            let (p, q) = (b_sat(*a, w, k, l), b_sat(*b, w, k, l));
            let (p2, q2) = (b_sat(*a, v, k, l), b_sat(*b, v, k, l));
            times_same(p, q, p2, q2, k, l, i);
            times_same(p2, q2, p, q, k, l, i);
        },
        _ => {},
    }
}

proof fn b_local_parts(f: NN, a: NN, b: NN, w: Word, v: Word, k: nat, l: Option<nat>)
    requires
        decreases_to!(f => a),
        decreases_to!(f => b),
        l matches Some(n) ==> n <= k,
        forall|j: nat, e: FE| j <= k ==> #[trigger] v(j, e) == w(j, e),
    ensures
        forall|m: nat| m <= k ==> #[trigger] b_sat(a, w, k, l)(m) == b_sat(a, v, k, l)(m),
        forall|m: nat| m <= k ==> #[trigger] b_sat(b, w, k, l)(m) == b_sat(b, v, k, l)(m),
        forall|m: nat| m <= k ==> b_sat(a, w, k, l)(m) == #[trigger] b_sat(a, v, k, l)(m),
        forall|m: nat| m <= k ==> b_sat(b, w, k, l)(m) == #[trigger] b_sat(b, v, k, l)(m),
    decreases f, 0nat,
{
    assert forall|m: nat| m <= k implies #[trigger] b_sat(a, w, k, l)(m) == b_sat(a, v, k, l)(m) by {
        b_local(a, w, v, k, l, m);
    }
    assert forall|m: nat| m <= k implies #[trigger] b_sat(b, w, k, l)(m) == b_sat(b, v, k, l)(m) by {
        b_local(b, w, v, k, l, m);
    }
}

/// A formula that holds on a path without a loop holds however the path goes on.
pub proof fn path_meaning(f: NN, w: Word, v: Word, k: nat, i: nat)
    requires
        i <= k,
        forall|j: nat, e: FE| j <= k ==> #[trigger] v(j, e) == w(j, e),
        b_sat(f, w, k, None)(i),
    ensures
        nn_sat(f, v)(i),
    decreases f,
{
    match f {
        NN::And(a, b) => {
            path_meaning(*a, w, v, k, i);
            path_meaning(*b, w, v, k, i);
        },
        NN::Or(a, b) => {
            if b_sat(*a, w, k, None)(i) {
                path_meaning(*a, w, v, k, i);
            } else {
                path_meaning(*b, w, v, k, i);
            }
        },
        NN::X(a) => {
            path_meaning(*a, w, v, k, i + 1);
        },
        NN::U(a, b) => {
            let p = b_sat(*a, w, k, None);
            let q = b_sat(*b, w, k, None);
            let p2 = nn_sat(*a, v);
            let q2 = nn_sat(*b, v);
            let j = choose|j: nat| i <= j <= k && #[trigger] until_by(p, q, i, j);
            path_meaning(*b, w, v, k, j);
            assert(q2(j));
            assert forall|m: nat| i <= m < j implies #[trigger] p2(m) by {
                assert(p(m));
                path_meaning(*a, w, v, k, m);
            }
        },
        NN::R(a, b) => {
            let p = b_sat(*a, w, k, None);
            let q = b_sat(*b, w, k, None);
            let p2 = nn_sat(*a, v);
            let q2 = nn_sat(*b, v);
            let j = choose|j: nat| i <= j <= k && #[trigger] release_by(p, q, i, j);
            path_meaning(*a, w, v, k, j);
            assert(p2(j));
            assert forall|n: nat| i <= n implies #[trigger] q2(n) || exists|m: nat| i <= m < n && #[trigger] p2(m) by {
                if n <= j {
                    assert(q(n));
                    path_meaning(*b, w, v, k, n);
                }
            }
        },
        _ => {},
    }
}

/// A source of propositional terms for the states of a bounded path.
pub trait BoolAlg: Sized {
    /// A term.
    type B: Copy;

    /// What a term is evaluated under.
    type Env;

    /// The source is in order.
    spec fn ok(&self) -> bool;

    /// The atom can be made into a term.
    spec fn takes(&self, e: FE) -> bool;

    /// The term belongs to the source.
    spec fn good(&self, b: Self::B) -> bool;

    /// The value of a term.
    spec fn value(&self, b: Self::B, x: Self::Env) -> bool;

    /// The source has grown out of another.
    spec fn extends(&self, old: &Self) -> bool;

    /// Every source has grown out of itself.
    proof fn extends_self(&self)
        ensures
            self.extends(self),
    ;

    /// Growing twice is growing.
    proof fn extends_on(&self, mid: &Self, old: &Self)
        requires
            self.extends(mid),
            mid.extends(old),
        ensures
            self.extends(old),
    ;

    /// The value of an atom at a step.
    spec fn atom_value(&self, e: FE, t: nat, x: Self::Env) -> bool;

    /// The true term.
    fn tt(&mut self) -> (r: Self::B)
        requires
            old(self).ok(),
        ensures
            final(self).ok(),
            final(self).extends(old(self)),
            forall|b: Self::B| #[trigger] old(self).good(b) ==> final(self).good(b),
            forall|b: Self::B, x: Self::Env|
                old(self).good(b) ==> #[trigger] final(self).value(b, x) == old(self).value(b, x),
            forall|e: FE| #[trigger] final(self).takes(e) == old(self).takes(e),
            forall|e: FE, t: nat, x: Self::Env| #[trigger]
                final(self).atom_value(e, t, x) == old(self).atom_value(e, t, x),
            final(self).good(r),
            forall|x: Self::Env| #[trigger] final(self).value(r, x),
    ;

    /// The false term.
    fn ff(&mut self) -> (r: Self::B)
        requires
            old(self).ok(),
        ensures
            final(self).ok(),
            final(self).extends(old(self)),
            forall|b: Self::B| #[trigger] old(self).good(b) ==> final(self).good(b),
            forall|b: Self::B, x: Self::Env|
                old(self).good(b) ==> #[trigger] final(self).value(b, x) == old(self).value(b, x),
            forall|e: FE| #[trigger] final(self).takes(e) == old(self).takes(e),
            forall|e: FE, t: nat, x: Self::Env| #[trigger]
                final(self).atom_value(e, t, x) == old(self).atom_value(e, t, x),
            final(self).good(r),
            forall|x: Self::Env| !#[trigger] final(self).value(r, x),
    ;

    /// Conjunction.
    fn and(&mut self, xs: Vec<Self::B>) -> (r: Self::B)
        requires
            old(self).ok(),
            forall|i: int| 0 <= i < xs@.len() ==> old(self).good(#[trigger] xs@[i]),
        ensures
            final(self).ok(),
            final(self).extends(old(self)),
            forall|b: Self::B| #[trigger] old(self).good(b) ==> final(self).good(b),
            forall|b: Self::B, x: Self::Env|
                old(self).good(b) ==> #[trigger] final(self).value(b, x) == old(self).value(b, x),
            forall|e: FE| #[trigger] final(self).takes(e) == old(self).takes(e),
            forall|e: FE, t: nat, x: Self::Env| #[trigger]
                final(self).atom_value(e, t, x) == old(self).atom_value(e, t, x),
            final(self).good(r),
            forall|x: Self::Env| #[trigger]
                final(self).value(r, x) == (forall|i: int|
                    0 <= i < xs@.len() ==> old(self).value(#[trigger] xs@[i], x)),
    ;

    /// Disjunction.
    fn or(&mut self, xs: Vec<Self::B>) -> (r: Self::B)
        requires
            old(self).ok(),
            forall|i: int| 0 <= i < xs@.len() ==> old(self).good(#[trigger] xs@[i]),
        ensures
            final(self).ok(),
            final(self).extends(old(self)),
            forall|b: Self::B| #[trigger] old(self).good(b) ==> final(self).good(b),
            forall|b: Self::B, x: Self::Env|
                old(self).good(b) ==> #[trigger] final(self).value(b, x) == old(self).value(b, x),
            forall|e: FE| #[trigger] final(self).takes(e) == old(self).takes(e),
            forall|e: FE, t: nat, x: Self::Env| #[trigger]
                final(self).atom_value(e, t, x) == old(self).atom_value(e, t, x),
            final(self).good(r),
            forall|x: Self::Env| #[trigger]
                final(self).value(r, x) == (exists|i: int|
                    0 <= i < xs@.len() && old(self).value(#[trigger] xs@[i], x)),
    ;

    /// Negation.
    fn not(&mut self, b: Self::B) -> (r: Self::B)
        requires
            old(self).ok(),
            old(self).good(b),
        ensures
            final(self).ok(),
            final(self).extends(old(self)),
            forall|b: Self::B| #[trigger] old(self).good(b) ==> final(self).good(b),
            forall|b: Self::B, x: Self::Env|
                old(self).good(b) ==> #[trigger] final(self).value(b, x) == old(self).value(b, x),
            forall|e: FE| #[trigger] final(self).takes(e) == old(self).takes(e),
            forall|e: FE, t: nat, x: Self::Env| #[trigger]
                final(self).atom_value(e, t, x) == old(self).atom_value(e, t, x),
            final(self).good(r),
            forall|x: Self::Env| #[trigger] final(self).value(r, x) == !old(self).value(b, x),
    ;

    /// The truth of an atom at a step.
    fn atom(&mut self, e: &FExpr, t: usize) -> (r: Self::B)
        requires
            old(self).ok(),
            old(self).takes(e.model()),
        ensures
            final(self).ok(),
            final(self).extends(old(self)),
            forall|b: Self::B| #[trigger] old(self).good(b) ==> final(self).good(b),
            forall|b: Self::B, x: Self::Env|
                old(self).good(b) ==> #[trigger] final(self).value(b, x) == old(self).value(b, x),
            forall|e: FE| #[trigger] final(self).takes(e) == old(self).takes(e),
            forall|e: FE, t: nat, x: Self::Env| #[trigger]
                final(self).atom_value(e, t, x) == old(self).atom_value(e, t, x),
            final(self).good(r),
            forall|x: Self::Env| #[trigger] final(self).value(r, x) == old(self).atom_value(e.model(), t as nat, x),
    ;
}

/// The word that a source gives under an environment.
pub open spec fn alg_word<A: BoolAlg>(alg: &A, x: A::Env) -> Word {
    |i: nat, e: FE| alg.atom_value(e, i, x)
}

/// The terms of `old` keep their values.
pub open spec fn grown<A: BoolAlg>(new: &A, old: &A) -> bool {
    &&& new.extends(old)
    &&& forall|b: A::B| #[trigger] old.good(b) ==> new.good(b)
    &&& forall|b: A::B, x: A::Env| old.good(b) ==> #[trigger] new.value(b, x) == old.value(b, x)
    &&& forall|e: FE| #[trigger] new.takes(e) == old.takes(e)
    &&& forall|e: FE, t: nat, x: A::Env| #[trigger] new.atom_value(e, t, x) == old.atom_value(e, t, x)
}

/// All terms belong to the source.
pub open spec fn all_good<A: BoolAlg>(alg: &A, xs: Seq<A::B>) -> bool {
    forall|i: int| 0 <= i < xs.len() ==> alg.good(#[trigger] xs[i])
}

/// The value of the term for each step.
pub open spec fn row_times<A: BoolAlg>(alg: &A, row: Seq<A::B>, x: A::Env) -> Times {
    |t: nat| (t as int) < row.len() && alg.value(row[t as int], x)
}

proof fn row_keeps<A: BoolAlg>(new: &A, old: &A, row: Seq<A::B>)
    requires
        grown(new, old),
        all_good(old, row),
    ensures
        all_good(new, row),
        forall|x: A::Env| #[trigger] row_times(new, row, x) == row_times(old, row, x),
{
    assert forall|x: A::Env| #[trigger] row_times(new, row, x) == row_times(old, row, x) by {
        assert forall|t: nat| #[trigger] row_times(new, row, x)(t) == row_times(old, row, x)(t) by {
            if (t as int) < row.len() {
                assert(old.good(row[t as int]));
            }
        }
        assert(row_times(new, row, x) =~= row_times(old, row, x));
    }
}

proof fn grown_trans<A: BoolAlg>(c: &A, b: &A, a: &A)
    requires
        grown(c, b),
        grown(b, a),
    ensures
        grown(c, a),
{
    c.extends_on(b, a);
    assert forall|t: A::B, x: A::Env| a.good(t) implies #[trigger] c.value(t, x) == a.value(t, x) by {
        assert(b.good(t));
        assert(c.value(t, x) == b.value(t, x));
        assert(b.value(t, x) == a.value(t, x));
    }
    assert forall|t: A::B| #[trigger] a.good(t) implies c.good(t) by {
        assert(b.good(t));
    }
    assert forall|e: FE| #[trigger] c.takes(e) == a.takes(e) by {
        assert(b.takes(e) == a.takes(e));
    }
    assert forall|e: FE, t: nat, x: A::Env| #[trigger] c.atom_value(e, t, x) == a.atom_value(e, t, x) by {
        assert(b.atom_value(e, t, x) == a.atom_value(e, t, x));
    }
}

/// The term `first` and the terms of a row from `lo` up to `hi`.
fn meet_range<A: BoolAlg>(alg: &mut A, first: A::B, row: &Vec<A::B>, lo: usize, hi: usize) -> (r: A::B)
    requires
        old(alg).ok(),
        old(alg).good(first),
        all_good(old(alg), row@),
        hi <= row@.len(),
    ensures
        final(alg).ok(),
        grown(final(alg), old(alg)),
        final(alg).good(r),
        forall|x: A::Env| #[trigger]
            final(alg).value(r, x) == (old(alg).value(first, x) && all_in(
                row_times(old(alg), row@, x),
                lo as nat,
                hi as nat,
            )),
{
    let ghost o = *alg;
    let mut xs: Vec<A::B> = Vec::new();
    xs.push(first);
    let mut i: usize = lo;
    while i < hi
        invariant
            lo <= i,
            lo <= hi ==> i <= hi,
            hi <= row@.len(),
            lo > hi ==> i == lo,
            *alg == o,
            all_good(&o, row@),
            xs@.len() == 1 + (i - lo),
            xs@[0] == first,
            o.good(first),
            forall|k: int| 1 <= k < xs@.len() ==> #[trigger] xs@[k] == row@[lo + k - 1],
        decreases hi - i,
    {
        xs.push(row[i]);
        i += 1;
    }
    let ghost v = xs@;
    proof {
        assert forall|k: int| 0 <= k < v.len() implies o.good(#[trigger] v[k]) by {
            if k >= 1 {
                assert(o.good(row@[lo + k - 1]));
            }
        }
    }
    let r = alg.and(xs);
    proof {
        assert forall|x: A::Env| #[trigger] alg.value(r, x) == (o.value(first, x) && all_in(
            row_times(&o, row@, x),
            lo as nat,
            hi as nat,
        )) by {
            let p = row_times(&o, row@, x);
            if alg.value(r, x) {
                assert(o.value(v[0], x));
                assert forall|m: nat| lo <= m < hi implies #[trigger] p(m) by {
                    assert(o.value(v[m - lo + 1], x));
                }
            }
            if o.value(first, x) && all_in(p, lo as nat, hi as nat) {
                assert forall|k: int| 0 <= k < v.len() implies o.value(#[trigger] v[k], x) by {
                    if k >= 1 {
                        assert(p((lo + k - 1) as nat));
                    }
                }
            }
        }
    }
    r
}

/// A disjunction over the steps from `lo` on: at each step `j` the term of `heads`, and the terms
/// of `row` from `from` up to `j`, or up to and including it.
fn first_by<A: BoolAlg>(
    alg: &mut A,
    out: &mut Vec<A::B>,
    heads: &Vec<A::B>,
    row: &Vec<A::B>,
    all: Option<(usize, usize)>,
    from: usize,
    lo: usize,
    hi: usize,
    incl: bool,
)
    requires
        old(alg).ok(),
        all_good(old(alg), old(out)@),
        all_good(old(alg), heads@),
        all_good(old(alg), row@),
        lo <= hi <= heads@.len(),
        heads@.len() == row@.len(),
        all matches Some((a, b)) ==> b <= row@.len(),
    ensures
        final(alg).ok(),
        grown(final(alg), old(alg)),
        all_good(final(alg), final(out)@),
        forall|x: A::Env| #[trigger]
            holds_one(final(alg), final(out)@, x) == (holds_one(old(alg), old(out)@, x) || exists|j: nat|
                lo <= j < hi && #[trigger] by_step(
                    row_times(old(alg), heads@, x),
                    row_times(old(alg), row@, x),
                    all,
                    from as nat,
                    j,
                    incl,
                )),
{
    let ghost o = *alg;
    proof {
        alg.extends_self();
    }
    let ghost out0 = out@;
    let mut j: usize = lo;
    while j < hi
        invariant
            lo <= j <= hi <= heads@.len(),
            heads@.len() == row@.len(),
            all matches Some((a, b)) ==> b <= row@.len(),
            alg.ok(),
            grown(alg, &o),
            all_good(&o, heads@),
            all_good(&o, row@),
            all_good(alg, out@),
            forall|x: A::Env| #[trigger]
                holds_one(alg, out@, x) == (holds_one(&o, out0, x) || exists|k: nat|
                    lo <= k < j && #[trigger] by_step(
                        row_times(&o, heads@, x),
                        row_times(&o, row@, x),
                        all,
                        from as nat,
                        k,
                        incl,
                    )),
        decreases hi - j,
    {
        let ghost a0 = *alg;
        let ghost o0 = out@;
        proof {
            alg.extends_self();
            row_keeps(&a0, &o, heads@);
            row_keeps(&a0, &o, row@);
            assert(o.good(heads@[j as int]));
            assert(a0.good(heads@[j as int]));
        }
        let mut t = heads[j];
        match all {
            Some((a, b)) => {
                t = meet_range(alg, t, row, a, b);
            },
            None => {},
        }
        let ghost a1 = *alg;
        let ghost t1 = t;
        proof {
            row_keeps(&a1, &a0, row@);
            grown_trans(&a1, &a0, &o);
        }
        let end: usize = if incl {
            j + 1
        } else {
            j
        };
        t = meet_range(alg, t, row, from, end);
        proof {
            grown_trans(alg, &a1, &a0);
            row_keeps(alg, &a0, o0);
            grown_trans(alg, &a1, &o);
        }
        out.push(t);
        proof {
            assert forall|k: int| 0 <= k < out@.len() implies alg.good(#[trigger] out@[k]) by {
                if k < o0.len() {
                    assert(alg.good(o0[k]));
                }
            }
            assert forall|x: A::Env| #[trigger] holds_one(alg, out@, x) == (holds_one(&o, out0, x) || exists|k: nat|
                lo <= k < j + 1 && #[trigger] by_step(
                    row_times(&o, heads@, x),
                    row_times(&o, row@, x),
                    all,
                    from as nat,
                    k,
                    incl,
                )) by {
                let h = row_times(&o, heads@, x);
                let p = row_times(&o, row@, x);
                assert(row_times(&a0, heads@, x) == h);
                assert(row_times(&a0, row@, x) == p);
                assert(row_times(&a1, row@, x) == p);
                assert(a0.value(heads@[j as int], x) == h(j as nat));
                assert(alg.value(t, x) == by_step(h, p, all, from as nat, j as nat, incl));
                assert(holds_one(&a0, o0, x) == (holds_one(&o, out0, x) || exists|k: nat|
                    lo <= k < j && #[trigger] by_step(h, p, all, from as nat, k, incl)));
                if holds_one(alg, out@, x) {
                    let k = choose|k: int| 0 <= k < out@.len() && alg.value(#[trigger] out@[k], x);
                    if k < o0.len() {
                        assert(a0.good(o0[k]));
                        assert(alg.value(o0[k], x) == a0.value(o0[k], x));
                        assert(holds_one(&a0, o0, x));
                    }
                }
                if holds_one(&a0, o0, x) {
                    let k = choose|k: int| 0 <= k < o0.len() && a0.value(#[trigger] o0[k], x);
                    assert(a0.good(o0[k]));
                    assert(alg.value(out@[k], x));
                }
                if by_step(h, p, all, from as nat, j as nat, incl) {
                    assert(alg.value(out@[o0.len() as int], x));
                }
            }
        }
        j += 1;
    }
}

/// Some term holds.
pub open spec fn holds_one<A: BoolAlg>(alg: &A, xs: Seq<A::B>, x: A::Env) -> bool {
    exists|i: int| 0 <= i < xs.len() && alg.value(#[trigger] xs[i], x)
}

/// `h` holds at `j`, and `p` in a given stretch and from `from` up to `j`.
pub open spec fn by_step(h: Times, p: Times, all: Option<(usize, usize)>, from: nat, j: nat, incl: bool) -> bool {
    &&& h(j)
    &&& all matches Some((a, b)) ==> all_in(p, a as nat, b as nat)
    &&& all_in(
        p,
        from,
        if incl {
            (j + 1) as nat
        } else {
            j
        },
    )
}

/// The optional step, as a number.
pub open spec fn opt_nat(l: Option<usize>) -> Option<nat> {
    match l {
        Some(n) => Some(n as nat),
        None => None,
    }
}

/// Formulas on the paths of `k` steps of a source.
pub struct BoundedLtl<A: BoolAlg> {
    pub alg: A,
    pub k: usize,
}

impl<A: BoolAlg> BoundedLtl<A> {
    /// For the paths of `k` steps.
    pub fn new(alg: A, k: usize) -> (r: BoundedLtl<A>)
        ensures
            r.alg == alg,
            r.k == k,
    {
        BoundedLtl { alg, k }
    }

    /// All atoms can be made into terms, and the numbers of steps fit.
    pub open spec fn takes(&self, f: NN) -> bool {
        &&& self.alg.ok()
        &&& self.k < usize::MAX
        &&& nn_atoms(f, |e: FE| self.alg.takes(e))
    }

    /// A term for the truth of the formula at a step of a path without a loop.
    pub fn no_loop(&mut self, f: &Ltl, t: usize) -> (r: A::B)
        requires
            old(self).takes(f.model()),
            t <= old(self).k,
        ensures
            final(self).k == old(self).k,
            final(self).alg.ok(),
            grown(&final(self).alg, &old(self).alg),
            final(self).alg.good(r),
            forall|x: A::Env| #[trigger]
                final(self).alg.value(r, x) == b_sat(
                    f.model(),
                    alg_word(&old(self).alg, x),
                    old(self).k as nat,
                    None,
                )(t as nat),
    {
        let row = self.row(f, None);
        let r = row[t];
        proof {
            assert forall|x: A::Env| #[trigger] self.alg.value(r, x) == b_sat(
                f.model(),
                alg_word(&old(self).alg, x),
                old(self).k as nat,
                None,
            )(t as nat) by {
                assert(alg_word(&self.alg, x) == alg_word(&old(self).alg, x));
                assert(row_times(&self.alg, row@, x)(t as nat) == self.alg.value(row@[t as int], x));
            }
            assert(self.alg.good(row@[t as int]));
        }
        r
    }

    /// A term for the truth of the formula at a step of a path with an edge from its end to the
    /// step `l`.
    pub fn with_loop(&mut self, f: &Ltl, t: usize, l: usize) -> (r: A::B)
        requires
            old(self).takes(f.model()),
            t <= old(self).k,
            l <= old(self).k,
        ensures
            final(self).k == old(self).k,
            final(self).alg.ok(),
            grown(&final(self).alg, &old(self).alg),
            final(self).alg.good(r),
            forall|x: A::Env| #[trigger]
                final(self).alg.value(r, x) == b_sat(
                    f.model(),
                    alg_word(&old(self).alg, x),
                    old(self).k as nat,
                    Some(l as nat),
                )(t as nat),
    {
        let row = self.row(f, Some(l));
        let r = row[t];
        proof {
            assert forall|x: A::Env| #[trigger] self.alg.value(r, x) == b_sat(
                f.model(),
                alg_word(&old(self).alg, x),
                old(self).k as nat,
                Some(l as nat),
            )(t as nat) by {
                assert(alg_word(&self.alg, x) == alg_word(&old(self).alg, x));
                assert(row_times(&self.alg, row@, x)(t as nat) == self.alg.value(row@[t as int], x));
            }
            assert(self.alg.good(row@[t as int]));
        }
        r
    }

    /// The row is that of the formula.
    pub open spec fn row_ok(&self, row: Seq<A::B>, f: NN, l: Option<nat>) -> bool {
        &&& row.len() == self.k + 1
        &&& all_good(&self.alg, row)
        &&& forall|x: A::Env, t: nat|
            t <= self.k ==> #[trigger] row_times(&self.alg, row, x)(t) == b_sat(
                f,
                alg_word(&self.alg, x),
                self.k as nat,
                l,
            )(t)
    }

    proof fn row_ok_keeps(&self, o: &BoundedLtl<A>, row: Seq<A::B>, f: NN, l: Option<nat>)
        requires
            o.row_ok(row, f, l),
            grown(&self.alg, &o.alg),
            self.k == o.k,
        ensures
            self.row_ok(row, f, l),
    {
        row_keeps(&self.alg, &o.alg, row);
        assert forall|x: A::Env, t: nat| t <= self.k implies #[trigger] row_times(&self.alg, row, x)(t) == b_sat(
            f,
            alg_word(&self.alg, x),
            self.k as nat,
            l,
        )(t) by {
            assert(row_times(&self.alg, row, x) == row_times(&o.alg, row, x));
            assert(alg_word(&self.alg, x) =~= alg_word(&o.alg, x)) by {
                assert forall|i: nat, e: FE| #[trigger] alg_word(&self.alg, x)(i, e) == alg_word(&o.alg, x)(i, e) by {
                    assert(self.alg.atom_value(e, i, x) == o.alg.atom_value(e, i, x));
                }
            }
            assert(row_times(&o.alg, row, x)(t) == b_sat(f, alg_word(&o.alg, x), o.k as nat, l)(t));
        }
    }

    /// The rows of the parts of a formula.
    spec fn parts_ok(&self, ra: Seq<A::B>, rb: Seq<A::B>, f: NN, l: Option<nat>) -> bool {
        match f {
            NN::And(a, b) => self.row_ok(ra, *a, l) && self.row_ok(rb, *b, l),
            NN::Or(a, b) => self.row_ok(ra, *a, l) && self.row_ok(rb, *b, l),
            NN::U(a, b) => self.row_ok(ra, *a, l) && self.row_ok(rb, *b, l),
            NN::R(a, b) => self.row_ok(ra, *a, l) && self.row_ok(rb, *b, l),
            NN::X(a) => self.row_ok(ra, *a, l),
            _ => true,
        }
    }

    proof fn parts_keep(&self, o: &BoundedLtl<A>, ra: Seq<A::B>, rb: Seq<A::B>, f: NN, l: Option<nat>)
        requires
            o.parts_ok(ra, rb, f, l),
            grown(&self.alg, &o.alg),
            self.k == o.k,
        ensures
            self.parts_ok(ra, rb, f, l),
    {
        match f {
            NN::And(a, b) => {
                self.row_ok_keeps(o, ra, *a, l);
                self.row_ok_keeps(o, rb, *b, l);
            },
            NN::Or(a, b) => {
                self.row_ok_keeps(o, ra, *a, l);
                self.row_ok_keeps(o, rb, *b, l);
            },
            NN::U(a, b) => {
                self.row_ok_keeps(o, ra, *a, l);
                self.row_ok_keeps(o, rb, *b, l);
            },
            NN::R(a, b) => {
                self.row_ok_keeps(o, ra, *a, l);
                self.row_ok_keeps(o, rb, *b, l);
            },
            NN::X(a) => {
                self.row_ok_keeps(o, ra, *a, l);
            },
            _ => {},
        }
    }

    proof fn takes_keeps(&self, o: &BoundedLtl<A>, f: NN)
        requires
            o.takes(f),
            grown(&self.alg, &o.alg),
            self.alg.ok(),
            self.k == o.k,
        ensures
            self.takes(f),
    {
        let p = |e: FE| o.alg.takes(e);
        let q = |e: FE| self.alg.takes(e);
        assert forall|e: FE| #[trigger] p(e) == q(e) by {
            assert(self.alg.takes(e) == o.alg.takes(e));
        }
        assert(p =~= q);
    }

    /// A term for each step.
    fn row(&mut self, f: &Ltl, l: Option<usize>) -> (r: Vec<A::B>)
        requires
            old(self).takes(f.model()),
            l matches Some(n) ==> n <= old(self).k,
        ensures
            final(self).k == old(self).k,
            final(self).alg.ok(),
            grown(&final(self).alg, &old(self).alg),
            final(self).row_ok(r@, f.model(), opt_nat(l)),
            forall|x: A::Env| #[trigger] alg_word(&final(self).alg, x) == alg_word(&old(self).alg, x),
        decreases f,
    {
        let ghost o = *self;
        proof {
            self.alg.extends_self();
        }
        let ghost fm = f.model();
        let ghost ln = opt_nat(l);
        let mut ra: Vec<A::B> = Vec::new();
        let mut rb: Vec<A::B> = Vec::new();
        match f {
            Ltl::And(a, b) | Ltl::Or(a, b) | Ltl::U(a, b) | Ltl::R(a, b) => {
                ra = self.row(a, l);
                let ghost s1 = *self;
                proof {
                    self.takes_keeps(&o, b.model());
                }
                rb = self.row(b, l);
                proof {
                    self.row_ok_keeps(&s1, ra@, a.model(), ln);
                    grown_trans(&self.alg, &s1.alg, &o.alg);
                }
            },
            Ltl::X(a) => {
                ra = self.row(a, l);
            },
            _ => {},
        }
        proof {
            self.takes_keeps(&o, fm);
        }
        let ghost s2 = *self;
        let mut out: Vec<A::B> = Vec::new();
        let mut t: usize = 0;
        let end: usize = self.k + 1;
        while t < end
            invariant
                t <= end,
                end == o.k + 1,
                self.k == o.k,
                l matches Some(n) ==> n <= self.k,
                ln == opt_nat(l),
                fm == f.model(),
                self.takes(fm),
                self.parts_ok(ra@, rb@, fm, ln),
                grown(&self.alg, &o.alg),
                out@.len() == t,
                all_good(&self.alg, out@),
                forall|x: A::Env, i: nat|
                    i < t ==> #[trigger] row_times(&self.alg, out@, x)(i) == b_sat(
                        fm,
                        alg_word(&o.alg, x),
                        o.k as nat,
                        ln,
                    )(i),
            decreases end - t,
        {
            let ghost s3 = *self;
            let ghost out0 = out@;
            let b = self.term_at(f, &ra, &rb, t, l);
            proof {
                self.takes_keeps(&s3, fm);
                self.parts_keep(&s3, ra@, rb@, fm, ln);
                grown_trans(&self.alg, &s3.alg, &o.alg);
                row_keeps(&self.alg, &s3.alg, out0);
            }
            out.push(b);
            proof {
                assert forall|k: int| 0 <= k < out@.len() implies self.alg.good(#[trigger] out@[k]) by {
                    if k < out0.len() {
                        assert(self.alg.good(out0[k]));
                    }
                }
                assert forall|x: A::Env, i: nat| i < t + 1 implies #[trigger] row_times(&self.alg, out@, x)(i)
                    == b_sat(fm, alg_word(&o.alg, x), o.k as nat, ln)(i) by {
                    same_word(&s3.alg, &o.alg, x);
                    if i < t {
                        assert(row_times(&self.alg, out0, x) == row_times(&s3.alg, out0, x));
                        assert(row_times(&self.alg, out0, x)(i) == row_times(&self.alg, out@, x)(i));
                        assert(row_times(&s3.alg, out0, x)(i) == b_sat(fm, alg_word(&o.alg, x), o.k as nat, ln)(
                            i,
                        ));
                    } else {
                        assert(self.alg.value(b, x) == b_sat(fm, alg_word(&s3.alg, x), o.k as nat, ln)(t as nat));
                    }
                }
            }
            t += 1;
        }
        proof {
            assert forall|x: A::Env| #[trigger] alg_word(&self.alg, x) == alg_word(&o.alg, x) by {
                same_word(&self.alg, &o.alg, x);
            }
            assert forall|x: A::Env, i: nat| i <= self.k implies #[trigger] row_times(&self.alg, out@, x)(i) == b_sat(
                fm,
                alg_word(&self.alg, x),
                self.k as nat,
                ln,
            )(i) by {
                assert(alg_word(&self.alg, x) == alg_word(&o.alg, x));
            }
        }
        out
    }

    /// A term for one step, from the rows of the parts.
    fn term_at(&mut self, f: &Ltl, ra: &Vec<A::B>, rb: &Vec<A::B>, t: usize, l: Option<usize>) -> (r: A::B)
        requires
            old(self).takes(f.model()),
            t <= old(self).k,
            l matches Some(n) ==> n <= old(self).k,
            old(self).parts_ok(ra@, rb@, f.model(), opt_nat(l)),
        ensures
            final(self).k == old(self).k,
            final(self).alg.ok(),
            grown(&final(self).alg, &old(self).alg),
            final(self).alg.good(r),
            forall|x: A::Env| #[trigger]
                final(self).alg.value(r, x) == b_sat(
                    f.model(),
                    alg_word(&old(self).alg, x),
                    old(self).k as nat,
                    opt_nat(l),
                )(t as nat),
    {
        let ghost o = *self;
        proof {
            self.alg.extends_self();
        }
        let ghost k = self.k as nat;
        let ghost ln = opt_nat(l);
        match f {
            Ltl::True => self.alg.tt(),
            Ltl::False => self.alg.ff(),
            Ltl::Atom(e) => self.alg.atom(e, t),
            Ltl::NAtom(e) => {
                let a = self.alg.atom(e, t);
                let ghost s1 = *self;
                let r = self.alg.not(a);
                proof {
                    grown_trans(&self.alg, &s1.alg, &o.alg);
                }
                r
            },
            Ltl::And(a, b) => {
                let xs = vec![ra[t], rb[t]];
                let ghost v = xs@;
                proof {
                    assert(o.alg.good(ra@[t as int]) && o.alg.good(rb@[t as int]));
                }
                let r = self.alg.and(xs);
                proof {
                    assert forall|x: A::Env| #[trigger] self.alg.value(r, x) == b_sat(
                        f.model(),
                        alg_word(&o.alg, x),
                        k,
                        ln,
                    )(t as nat) by {
                        assert(row_times(&o.alg, ra@, x)(t as nat) == o.alg.value(v[0], x));
                        assert(row_times(&o.alg, rb@, x)(t as nat) == o.alg.value(v[1], x));
                        if o.alg.value(v[0], x) && o.alg.value(v[1], x) {
                            assert forall|i: int| 0 <= i < v.len() implies o.alg.value(#[trigger] v[i], x) by {}
                        }
                    }
                }
                r
            },
            Ltl::Or(a, b) => {
                let xs = vec![ra[t], rb[t]];
                let ghost v = xs@;
                proof {
                    assert(o.alg.good(ra@[t as int]) && o.alg.good(rb@[t as int]));
                }
                let r = self.alg.or(xs);
                proof {
                    assert forall|x: A::Env| #[trigger] self.alg.value(r, x) == b_sat(
                        f.model(),
                        alg_word(&o.alg, x),
                        k,
                        ln,
                    )(t as nat) by {
                        assert(row_times(&o.alg, ra@, x)(t as nat) == o.alg.value(v[0], x));
                        assert(row_times(&o.alg, rb@, x)(t as nat) == o.alg.value(v[1], x));
                    }
                }
                r
            },
            Ltl::X(a) => {
                let at: Option<usize> = if t < self.k {
                    Some(t + 1)
                } else {
                    l
                };
                match at {
                    Some(i) => {
                        let r = ra[i];
                        proof {
                            assert(o.alg.good(ra@[i as int]));
                            assert forall|x: A::Env| #[trigger] self.alg.value(r, x) == b_sat(
                                f.model(),
                                alg_word(&o.alg, x),
                                k,
                                ln,
                            )(t as nat) by {
                                assert(row_times(&o.alg, ra@, x)(i as nat) == o.alg.value(ra@[i as int], x));
                            }
                        }
                        r
                    },
                    None => self.alg.ff(),
                }
            },
            Ltl::U(a, b) => {
                let n: usize = self.k + 1;
                let mut xs: Vec<A::B> = Vec::new();
                first_by(&mut self.alg, &mut xs, rb, ra, None, t, t, n, false);
                let ghost s1 = *self;
                let ghost x1 = xs@;
                match l {
                    Some(m) => {
                        if m < t {
                            proof {
                                row_keeps(&s1.alg, &o.alg, ra@);
                                row_keeps(&s1.alg, &o.alg, rb@);
                            }
                            first_by(&mut self.alg, &mut xs, rb, ra, Some((t, n)), m, m, t, false);
                            proof {
                                grown_trans(&self.alg, &s1.alg, &o.alg);
                            }
                        }
                    },
                    None => {},
                }
                let ghost s2 = *self;
                let ghost x2 = xs@;
                let r = self.alg.or(xs);
                proof {
                    grown_trans(&self.alg, &s2.alg, &o.alg);
                    assert forall|x: A::Env| #[trigger] self.alg.value(r, x) == b_sat(
                        f.model(),
                        alg_word(&o.alg, x),
                        k,
                        ln,
                    )(t as nat) by {
                        let p = row_times(&o.alg, ra@, x);
                        let q = row_times(&o.alg, rb@, x);
                        let w = alg_word(&o.alg, x);
                        let p2 = b_sat(a.model(), w, k, ln);
                        let q2 = b_sat(b.model(), w, k, ln);
                        assert(self.alg.value(r, x) == holds_one(&s2.alg, x2, x));
                        assert(!holds_one(&o.alg, Seq::<A::B>::empty(), x));
                        assert(holds_one(&s1.alg, x1, x) == exists|j: nat|
                            t <= j < n && #[trigger] by_step(q, p, None, t as nat, j, false));
                        until_steps(p, q, k, t as nat);
                        if l is Some && l->0 < t {
                            assert(row_times(&s1.alg, ra@, x) == p);
                            assert(row_times(&s1.alg, rb@, x) == q);
                            assert(holds_one(&s2.alg, x2, x) == (holds_one(&s1.alg, x1, x) || exists|j: nat|
                                l->0 <= j < t && #[trigger] by_step(
                                    q,
                                    p,
                                    Some((t, n)),
                                    l->0 as nat,
                                    j,
                                    false,
                                )));
                            until_rounds(p, q, k, l->0 as nat, t, n);
                        } else if l is Some {
                            assert(!round_until(p, q, k, l->0 as nat, t as nat));
                        }
                        assert(holds_one(&s2.alg, x2, x) == b_until(p, q, k, ln, t as nat));
                        times_same(p, q, p2, q2, k, ln, t as nat);
                        times_same(p2, q2, p, q, k, ln, t as nat);
                    }
                }
                r
            },
            Ltl::R(a, b) => {
                let n: usize = self.k + 1;
                let mut xs: Vec<A::B> = Vec::new();
                first_by(&mut self.alg, &mut xs, ra, rb, None, t, t, n, true);
                let ghost s1 = *self;
                let ghost x1 = xs@;
                let ghost mut s3 = s1;
                let ghost mut x3 = x1;
                match l {
                    Some(m) => {
                        proof {
                            row_keeps(&s1.alg, &o.alg, ra@);
                            row_keeps(&s1.alg, &o.alg, rb@);
                        }
                        if m < t {
                            first_by(&mut self.alg, &mut xs, ra, rb, Some((t, n)), m, m, t, true);
                            proof {
                                grown_trans(&self.alg, &s1.alg, &o.alg);
                            }
                        }
                        proof {
                            s3 = *self;
                            x3 = xs@;
                            row_keeps(&s3.alg, &o.alg, rb@);
                        }
                        let lo: usize = if t <= m {
                            t
                        } else {
                            m
                        };
                        let top = self.alg.tt();
                        let ghost s4 = *self;
                        proof {
                            grown_trans(&s4.alg, &s3.alg, &o.alg);
                            row_keeps(&s4.alg, &o.alg, rb@);
                        }
                        let all = meet_range(&mut self.alg, top, rb, lo, n);
                        proof {
                            grown_trans(&self.alg, &s4.alg, &o.alg);
                            grown_trans(&self.alg, &s4.alg, &s3.alg);
                            row_keeps(&self.alg, &s3.alg, x3);
                        }
                        xs.push(all);
                        proof {
                            assert forall|i: int| 0 <= i < xs@.len() implies self.alg.good(#[trigger] xs@[i]) by {
                                if i < x3.len() {
                                    assert(self.alg.good(x3[i]));
                                }
                            }
                            assert forall|x: A::Env| #[trigger] holds_one(&self.alg, xs@, x) == (holds_one(
                                &s3.alg,
                                x3,
                                x,
                            ) || all_in(row_times(&o.alg, rb@, x), lo as nat, n as nat)) by {
                                assert(row_times(&s4.alg, rb@, x) == row_times(&o.alg, rb@, x));
                                assert(s4.alg.value(top, x));
                                if holds_one(&self.alg, xs@, x) {
                                    let i = choose|i: int| 0 <= i < xs@.len() && self.alg.value(#[trigger] xs@[i], x);
                                    if i < x3.len() {
                                        assert(s3.alg.good(x3[i]));
                                        assert(s3.alg.value(x3[i], x));
                                    }
                                }
                                if holds_one(&s3.alg, x3, x) {
                                    let i = choose|i: int| 0 <= i < x3.len() && s3.alg.value(#[trigger] x3[i], x);
                                    assert(s3.alg.good(x3[i]));
                                    assert(self.alg.value(xs@[i], x));
                                }
                                if all_in(row_times(&o.alg, rb@, x), lo as nat, n as nat) {
                                    assert(self.alg.value(xs@[x3.len() as int], x));
                                }
                            }
                        }
                    },
                    None => {},
                }
                let ghost s2 = *self;
                let ghost x2 = xs@;
                let r = self.alg.or(xs);
                proof {
                    grown_trans(&self.alg, &s2.alg, &o.alg);
                    assert forall|x: A::Env| #[trigger] self.alg.value(r, x) == b_sat(
                        f.model(),
                        alg_word(&o.alg, x),
                        k,
                        ln,
                    )(t as nat) by {
                        let p = row_times(&o.alg, ra@, x);
                        let q = row_times(&o.alg, rb@, x);
                        let w = alg_word(&o.alg, x);
                        let p2 = b_sat(a.model(), w, k, ln);
                        let q2 = b_sat(b.model(), w, k, ln);
                        assert(self.alg.value(r, x) == holds_one(&s2.alg, x2, x));
                        assert(!holds_one(&o.alg, Seq::<A::B>::empty(), x));
                        assert(holds_one(&s1.alg, x1, x) == exists|j: nat|
                            t <= j < n && #[trigger] by_step(p, q, None, t as nat, j, true));
                        release_steps(p, q, k, t as nat);
                        if l is Some {
                            assert(row_times(&s1.alg, ra@, x) == p);
                            assert(row_times(&s1.alg, rb@, x) == q);
                            if l->0 < t {
                                assert(holds_one(&s3.alg, x3, x) == (holds_one(&s1.alg, x1, x) || exists|j: nat|
                                    l->0 <= j < t && #[trigger] by_step(
                                        p,
                                        q,
                                        Some((t, n)),
                                        l->0 as nat,
                                        j,
                                        true,
                                    )));
                                release_rounds(p, q, k, l->0 as nat, t, n);
                            } else {
                                assert(!round_release(p, q, k, l->0 as nat, t as nat));
                            }
                            assert(holds_one(&s2.alg, x2, x) == (holds_one(&s3.alg, x3, x) || all_in(
                                q,
                                least(t as nat, l->0 as nat),
                                (k + 1) as nat,
                            )));
                        }
                        assert(holds_one(&s2.alg, x2, x) == b_release(p, q, k, ln, t as nat));
                        times_same(p, q, p2, q2, k, ln, t as nat);
                        times_same(p2, q2, p, q, k, ln, t as nat);
                    }
                }
                r
            },
        }
    }
}

proof fn same_word<A: BoolAlg>(a: &A, b: &A, x: A::Env)
    requires
        grown(a, b),
    ensures
        alg_word(a, x) == alg_word(b, x),
{
    assert forall|i: nat, e: FE| #[trigger] alg_word(a, x)(i, e) == alg_word(b, x)(i, e) by {
        assert(a.atom_value(e, i, x) == b.atom_value(e, i, x));
    }
    assert(alg_word(a, x) =~= alg_word(b, x));
}

proof fn until_steps(p: Times, q: Times, k: nat, t: nat)
    ensures
        (exists|j: nat| t <= j < k + 1 && #[trigger] by_step(q, p, None, t, j, false)) == (exists|j: nat|
            t <= j <= k && #[trigger] until_by(p, q, t, j)),
{
    assert forall|j: nat| #[trigger] by_step(q, p, None, t, j, false) == #[trigger] until_by(p, q, t, j) by {}
    if exists|j: nat| t <= j < k + 1 && #[trigger] by_step(q, p, None, t, j, false) {
        let j = choose|j: nat| t <= j < k + 1 && #[trigger] by_step(q, p, None, t, j, false);
        assert(until_by(p, q, t, j));
    }
    if exists|j: nat| t <= j <= k && #[trigger] until_by(p, q, t, j) {
        let j = choose|j: nat| t <= j <= k && #[trigger] until_by(p, q, t, j);
        assert(by_step(q, p, None, t, j, false));
    }
}

proof fn release_steps(p: Times, q: Times, k: nat, t: nat)
    ensures
        (exists|j: nat| t <= j < k + 1 && #[trigger] by_step(p, q, None, t, j, true)) == (exists|j: nat|
            t <= j <= k && #[trigger] release_by(p, q, t, j)),
{
    if exists|j: nat| t <= j < k + 1 && #[trigger] by_step(p, q, None, t, j, true) {
        let j = choose|j: nat| t <= j < k + 1 && #[trigger] by_step(p, q, None, t, j, true);
        assert(release_by(p, q, t, j));
    }
    if exists|j: nat| t <= j <= k && #[trigger] release_by(p, q, t, j) {
        let j = choose|j: nat| t <= j <= k && #[trigger] release_by(p, q, t, j);
        assert(by_step(p, q, None, t, j, true));
    }
}

proof fn until_rounds(p: Times, q: Times, k: nat, l: nat, t: usize, n: usize)
    requires
        n == k + 1,
    ensures
        (exists|j: nat| l <= j < t && #[trigger] by_step(q, p, Some((t, n)), l, j, false)) == round_until(
            p,
            q,
            k,
            l,
            t as nat,
        ),
{
    if exists|j: nat| l <= j < t && #[trigger] by_step(q, p, Some((t, n)), l, j, false) {
        let j = choose|j: nat| l <= j < t && #[trigger] by_step(q, p, Some((t, n)), l, j, false);
        assert(until_round(p, q, k, l, t as nat, j));
    }
    if round_until(p, q, k, l, t as nat) {
        let j = choose|j: nat| l <= j < t && #[trigger] until_round(p, q, k, l, t as nat, j);
        assert(by_step(q, p, Some((t, n)), l, j, false));
    }
}

proof fn release_rounds(p: Times, q: Times, k: nat, l: nat, t: usize, n: usize)
    requires
        n == k + 1,
    ensures
        (exists|j: nat| l <= j < t && #[trigger] by_step(p, q, Some((t, n)), l, j, true)) == round_release(
            p,
            q,
            k,
            l,
            t as nat,
        ),
{
    if exists|j: nat| l <= j < t && #[trigger] by_step(p, q, Some((t, n)), l, j, true) {
        let j = choose|j: nat| l <= j < t && #[trigger] by_step(p, q, Some((t, n)), l, j, true);
        assert(release_round(p, q, k, l, t as nat, j));
    }
    if round_release(p, q, k, l, t as nat) {
        let j = choose|j: nat| l <= j < t && #[trigger] release_round(p, q, k, l, t as nat, j);
        assert(by_step(p, q, Some((t, n)), l, j, true));
    }
}

} // verus!
