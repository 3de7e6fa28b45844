//! The answer of a solver: its outcome, and the states of a path read back from its values.

use crate::explicit::EngineError;
use crate::fexpr::{LeafInfo, LeafType, LT};
use crate::flat::{leaf_types, State};
use crate::lexer::characters;
use crate::num::{parse_int, quot, ratio, Int, Rat, Q};
use crate::ordering::{gap_at, is_gap};
use crate::smtlib::{own_sym, sym};
use crate::text::{own, views};
use crate::value::{models, Val, Value};
use vstd::prelude::*;

verus! {

/// The words and brackets of a text from place `i` on, with the word `cur` begun.
pub open spec fn pieces(s: Seq<char>, i: int, cur: Seq<char>, acc: Seq<Seq<char>>) -> Seq<Seq<char>>
    decreases s.len() - i,
{
    if i < 0 || i >= s.len() {
        flushed(cur, acc)
    } else if s[i] == '(' || s[i] == ')' {
        pieces(s, i + 1, Seq::empty(), flushed(cur, acc).push(seq![s[i]]))
    } else if is_gap(s[i]) {
        pieces(s, i + 1, Seq::empty(), flushed(cur, acc))
    } else {
        pieces(s, i + 1, cur.push(s[i]), acc)
    }
}

/// The words with the word that has been begun, if it has.
pub open spec fn flushed(cur: Seq<char>, acc: Seq<Seq<char>>) -> Seq<Seq<char>> {
    if cur.len() == 0 {
        acc
    } else {
        acc.push(cur)
    }
}

fn push_piece(v: &mut Vec<String>, s: String)
    ensures
        views(final(v)@) == views(old(v)@).push(s@),
{
    let ghost a = v@;
    let ghost m = s@;
    v.push(s);
    assert(views(v@) =~= views(a).push(m));
}

/// The words and brackets of a text.
pub fn split(s: &str) -> (r: Vec<String>)
    ensures
        views(r@) == pieces(s@, 0, Seq::empty(), Seq::empty()),
{
    let cs = characters(s);
    let mut acc: Vec<String> = Vec::new();
    let mut cur = String::new();
    let mut n: usize = 0;
    let mut i: usize = 0;
    assert(views(acc@) =~= Seq::empty());
    assert(cur@ =~= Seq::empty());
    while i < cs.len()
        invariant
            i <= cs@.len(),
            cs@ == s@,
            n == cur@.len(),
            n <= i,
            pieces(s@, i as int, cur@, views(acc@)) == pieces(s@, 0, Seq::empty(), Seq::empty()),
        decreases cs.len() - i,
    {
        let c = cs[i];
        if c == '(' || c == ')' {
            if n > 0 {
                push_piece(&mut acc, cur);
                cur = String::new();
                n = 0;
            }
            assert(cur@ =~= Seq::empty());
            let mut one = String::new();
            one.push(c);
            assert(one@ =~= seq![c]);
            push_piece(&mut acc, one);
        } else if gap_at(c) {
            if n > 0 {
                push_piece(&mut acc, cur);
                cur = String::new();
                n = 0;
            }
            assert(cur@ =~= Seq::empty());
        } else {
            cur.push(c);
            n += 1;
        }
        i += 1;
    }
    if n > 0 {
        push_piece(&mut acc, cur);
    }
    acc
}

/// The power of ten.
pub open spec fn pow10(n: nat) -> int
    decreases n,
{
    if n == 0 {
        1
    } else {
        10 * pow10((n - 1) as nat)
    }
}

proof fn pow10_positive(n: nat)
    ensures
        pow10(n) > 0,
    decreases n,
{
    if n > 0 {
        pow10_positive((n - 1) as nat);
    }
}

fn power10(n: usize) -> (r: Int)
    ensures
        r@ == pow10(n as nat),
        r@ > 0,
{
    let mut r = Int::from_u64(1);
    let ten = Int::from_u64(10);
    let mut i: usize = 0;
    while i < n
        invariant
            i <= n,
            ten@ == 10,
            r@ == pow10(i as nat),
        decreases n - i,
    {
        r = ten.times(&r);
        i += 1;
    }
    proof {
        pow10_positive(n as nat);
    }
    r
}

/// The place of the first point, from `i` on.
pub open spec fn point(s: Seq<char>, i: int) -> Option<int>
    decreases s.len() - i,
{
    if i < 0 || i >= s.len() {
        None
    } else if s[i] == '.' {
        Some(i)
    } else {
        point(s, i + 1)
    }
}

/// The number that a numeral denotes, with or without a point.
pub open spec fn numeral(s: Seq<char>) -> Option<Q> {
    match point(s, 0) {
        Some(d) => match parse_int(s.remove(d)) {
            Some(n) => Some(ratio(n, pow10((s.len() - d - 1) as nat))),
            None => None,
        },
        None => match parse_int(s) {
            Some(n) => Some(Q::whole(n)),
            None => None,
        },
    }
}

/// The number that a numeral denotes.
fn read_numeral(s: &String) -> (r: Option<Rat>)
    ensures
        match (r, numeral(s@)) {
            (Some(a), Some(b)) => a@ == b,
            (None, None) => true,
            _ => false,
        },
{
    let cs = characters(s.as_str());
    let mut i: usize = 0;
    while i < cs.len()
        invariant
            i <= cs@.len(),
            cs@ == s@,
            point(s@, 0) == point(s@, i as int),
        decreases cs.len() - i,
    {
        if cs[i] == '.' {
            let rest: usize = cs.len() - i - 1;
            let mut digits = String::new();
            let mut j: usize = 0;
            let ghost all = s@.remove(i as int);
            assert(digits@ =~= all.take(0));
            while j < cs.len()
                invariant
                    j <= cs@.len(),
                    i < cs@.len(),
                    cs@ == s@,
                    all == s@.remove(i as int),
                    digits@ == all.take(
                        if j <= i {
                            j as int
                        } else {
                            j - 1
                        },
                    ),
                decreases cs.len() - j,
            {
                if j != i {
                    let ghost before = digits@;
                    digits.push(cs[j]);
                    assert(digits@ =~= all.take(
                        if j < i {
                            j + 1
                        } else {
                            j as int
                        },
                    ));
                }
                j += 1;
            }
            assert(all.take(all.len() as int) =~= all);
            assert(digits@ == all);
            return match Int::parse(digits.as_str()) {
                Some(n) => Some(Rat::new(&n, &power10(rest))),
                None => None,
            };
        }
        i += 1;
    }
    match Int::parse(s.as_str()) {
        Some(n) => Some(Rat::from_integer(n)),
        None => None,
    }
}

/// The place behind the next closing bracket.
pub open spec fn behind(ts: Seq<Seq<char>>, i: int) -> int
    decreases ts.len() - i,
{
    if i < 0 || i >= ts.len() {
        ts.len() as int
    } else if ts[i] == ")"@ {
        i + 1
    } else {
        behind(ts, i + 1)
    }
}

fn find_behind(ts: &Vec<String>, i: usize) -> (r: usize)
    requires
        i <= ts@.len(),
    ensures
        r == behind(views(ts@), i as int),
        i <= r <= ts@.len(),
{
    let mut j: usize = i;
    let close = own(")");
    while j < ts.len()
        invariant
            i <= j <= ts@.len(),
            close@ == ")"@,
            behind(views(ts@), i as int) == behind(views(ts@), j as int),
        decreases ts.len() - j,
    {
        assert(views(ts@)[j as int] == ts@[j as int]@);
        if ts[j] == close {
            return j + 1;
        }
        j += 1;
    }
    j
}

/// The number at place `i`, and the place behind it: a numeral, a negation or difference, or a
/// quotient.
pub open spec fn number(ts: Seq<Seq<char>>, i: int) -> Option<(Q, int)>
    decreases ts.len() - i,
{
    if i < 0 || i >= ts.len() {
        None
    } else if ts[i] == "("@ {
        if i + 1 >= ts.len() {
            None
        } else if ts[i + 1] == "-"@ {
            match number(ts, i + 2) {
                None => None,
                Some((a, p)) => if p <= i || p > ts.len() {
                    None
                } else {
                    match number(ts, p) {
                        Some((b, q)) => Some((a.minus(b), behind(ts, q))),
                        None => Some((a.neg(), behind(ts, p))),
                    }
                },
            }
        } else if ts[i + 1] == "/"@ {
            match number(ts, i + 2) {
                None => None,
                Some((a, p)) => if p <= i || p > ts.len() {
                    None
                } else {
                    match number(ts, p) {
                        Some((b, q)) => if b.n == 0 {
                            None
                        } else {
                            Some((a.over(b), behind(ts, q)))
                        },
                        None => None,
                    }
                },
            }
        } else {
            None
        }
    } else {
        match numeral(ts[i]) {
            Some(q) => Some((q, i + 1)),
            None => None,
        }
    }
}

fn read_number(ts: &Vec<String>, i: usize) -> (r: Option<(Rat, usize)>)
    ensures
        match (r, number(views(ts@), i as int)) {
            (Some(a), Some(b)) => a.0@ == b.0 && a.1 == b.1 && i < a.1 <= ts@.len(),
            (None, None) => true,
            _ => false,
        },
    decreases ts.len() - i,
{
    if i >= ts.len() {
        return None;
    }
    let ghost vs = views(ts@);
    assert(vs[i as int] == ts@[i as int]@);
    if ts[i] == own("(") {
        if i + 1 >= ts.len() {
            return None;
        }
        assert(vs[i + 1] == ts@[i + 1]@);
        let minus = ts[i + 1] == own("-");
        if !minus && !(ts[i + 1] == own("/")) {
            return None;
        }
        let (a, p) = match read_number(ts, i + 2) {
            Some(x) => x,
            None => {
                return None;
            },
        };
        match read_number(ts, p) {
            Some((b, q)) => {
                if minus {
                    Some((a.minus(&b), find_behind(ts, q)))
                } else if b.is_zero() {
                    None
                } else {
                    Some((a.over(&b), find_behind(ts, q)))
                }
            },
            None => {
                if minus {
                    Some((a.negated(), find_behind(ts, p)))
                } else {
                    None
                }
            },
        }
    } else {
        match read_numeral(&ts[i]) {
            Some(q) => Some((q, i + 1)),
            None => None,
        }
    }
}

/// The value that words give to a leaf; a number that cannot be read is 0.
pub open spec fn value_of(ts: Seq<Seq<char>>, t: LT) -> Val {
    if ts == seq!["true"@] {
        Val::Bool(true)
    } else if ts == seq!["false"@] {
        Val::Bool(false)
    } else {
        let q = match number(ts, 0) {
            Some((q, _p)) => q,
            None => Q::whole(0),
        };
        match t {
            LT::Scalar(id, _elems) => {
                let n = quot(q.n, q.d);
                Val::Scalar(
                    id,
                    if 0 <= n <= usize::MAX {
                        n as nat
                    } else {
                        0
                    },
                )
            },
            _ => Val::Num(q),
        }
    }
}

fn is_word(ts: &Vec<String>, w: &str) -> (r: bool)
    ensures
        r == (views(ts@) == seq![w@]),
{
    if ts.len() == 1 {
        assert(views(ts@)[0] == ts@[0]@);
        let r = ts[0] == own(w);
        proof {
            if r {
                assert(views(ts@) =~= seq![w@]);
            } else {
                assert(seq![w@][0] == w@);
            }
        }
        r
    } else {
        assert(seq![w@].len() == 1);
        false
    }
}

/// The value that words give to a leaf.
pub fn parse_value(ts: &Vec<String>, t: &LeafType) -> (r: Value)
    ensures
        r.model() == value_of(views(ts@), t@),
{
    if is_word(ts, "true") {
        return Value::Bool(true);
    }
    if is_word(ts, "false") {
        return Value::Bool(false);
    }
    let q = match read_number(ts, 0) {
        Some((q, _p)) => q,
        None => Rat::zero(),
    };
    match t {
        LeafType::Scalar(id, _elems) => {
            let n = q.numer().quotient(q.denom());
            let k: usize = match n.to_u64() {
                Some(k) => if k <= usize::MAX as u64 {
                    k as usize
                } else {
                    0
                },
                None => 0,
            };
            Value::Scalar(id.clone(), k)
        },
        _ => Value::Num(q),
    }
}

/// The place of the bracket that closes what is open at place `i`.
pub open spec fn closing(ts: Seq<Seq<char>>, i: int, depth: nat) -> int
    decreases ts.len() - i,
{
    if i < 0 || i >= ts.len() {
        ts.len() as int
    } else if ts[i] == "("@ {
        closing(ts, i + 1, depth + 1)
    } else if ts[i] == ")"@ {
        if depth == 0 {
            i
        } else {
            closing(ts, i + 1, (depth - 1) as nat)
        }
    } else {
        closing(ts, i + 1, depth)
    }
}

fn find_closing(ts: &Vec<String>, i: usize) -> (r: usize)
    requires
        i <= ts@.len(),
    ensures
        r == closing(views(ts@), i as int, 0),
        i <= r <= ts@.len(),
{
    let mut j: usize = i;
    let mut depth: usize = 0;
    let begin = own("(");
    let end = own(")");
    while j < ts.len()
        invariant
            i <= j <= ts@.len(),
            depth <= j - i,
            begin@ == "("@,
            end@ == ")"@,
            closing(views(ts@), i as int, 0) == closing(views(ts@), j as int, depth as nat),
        decreases ts.len() - j,
    {
        assert(views(ts@)[j as int] == ts@[j as int]@);
        if ts[j] == begin {
            depth += 1;
        } else if ts[j] == end {
            if depth == 0 {
                return j;
            }
            depth -= 1;
        }
        j += 1;
    }
    j
}

/// The words behind the last pair, from place `i` on, that begins with the given name.
pub open spec fn entry(ts: Seq<Seq<char>>, name: Seq<char>, i: int, found: Seq<Seq<char>>) -> Seq<Seq<char>>
    decreases ts.len() - i,
{
    if i < 0 || i >= ts.len() {
        found
    } else if ts[i] == "("@ && i + 1 < ts.len() && ts[i + 1].len() > 0 && ts[i + 1][0] == 's' {
        let j = closing(ts, i + 2, 0);
        let words = if ts[i + 1] == name {
            ts.subrange(i + 2, j)
        } else {
            found
        };
        if j < i + 2 || j >= ts.len() {
            words
        } else {
            entry(ts, name, j + 1, words)
        }
    } else {
        entry(ts, name, i + 1, found)
    }
}

fn starts_with_s(s: &String) -> (r: bool)
    ensures
        r == (s@.len() > 0 && s@[0] == 's'),
{
    let cs = characters(s.as_str());
    cs.len() > 0 && cs[0] == 's'
}

fn copy_range(ts: &Vec<String>, a: usize, b: usize) -> (r: Vec<String>)
    requires
        a <= b <= ts@.len(),
    ensures
        views(r@) == views(ts@).subrange(a as int, b as int),
{
    let mut r: Vec<String> = Vec::new();
    let mut i: usize = a;
    while i < b
        invariant
            a <= i <= b <= ts@.len(),
            r@.len() == i - a,
            forall|j: int| 0 <= j < i - a ==> (#[trigger] r@[j])@ == ts@[a + j]@,
        decreases b - i,
    {
        r.push(ts[i].clone());
        i += 1;
    }
    assert(views(r@) =~= views(ts@).subrange(a as int, b as int));
    r
}

fn find_entry(ts: &Vec<String>, name: &String) -> (r: Vec<String>)
    ensures
        views(r@) == entry(views(ts@), name@, 0, Seq::empty()),
{
    let ghost vs = views(ts@);
    let mut found: Vec<String> = Vec::new();
    let begin = own("(");
    let mut i: usize = 0;
    assert(views(found@) =~= Seq::empty());
    while i < ts.len()
        invariant
            i <= ts@.len(),
            vs == views(ts@),
            begin@ == "("@,
            entry(vs, name@, i as int, views(found@)) == entry(vs, name@, 0, Seq::empty()),
        decreases ts.len() - i,
    {
        assert(vs[i as int] == ts@[i as int]@);
        if ts[i] == begin && i + 1 < ts.len() && starts_with_s(&ts[i + 1]) {
            assert(vs[i + 1] == ts@[i + 1]@);
            let j = find_closing(ts, i + 2);
            if ts[i + 1] == *name {
                found = copy_range(ts, i + 2, j);
            }
            if j >= ts.len() {
                return found;
            }
            i = j + 1;
        } else {
            if i + 1 < ts.len() {
                assert(vs[i + 1] == ts@[i + 1]@);
            }
            i += 1;
        }
    }
    found
}

/// The state that an answer gives for a step.
pub open spec fn state_of(ts: Seq<Seq<char>>, leaves: Seq<LT>, t: int) -> State {
    Seq::new(leaves.len(), |l: int| value_of(entry(ts, sym(l, t), 0, Seq::empty()), leaves[l]))
}

fn read_state(ts: &Vec<String>, leaves: &Vec<LeafInfo>, t: usize) -> (r: Vec<Value>)
    ensures
        models(r@) == state_of(views(ts@), leaf_types(leaves@), t as int),
{
    let ghost want = state_of(views(ts@), leaf_types(leaves@), t as int);
    let mut r: Vec<Value> = Vec::new();
    let mut l: usize = 0;
    while l < leaves.len()
        invariant
            l <= leaves@.len(),
            r@.len() == l,
            want == state_of(views(ts@), leaf_types(leaves@), t as int),
            forall|j: int| 0 <= j < l ==> (#[trigger] r@[j]).model() == want[j],
        decreases leaves.len() - l,
    {
        let name = own_sym(l, t);
        let words = find_entry(ts, &name);
        r.push(parse_value(&words, &leaves[l].ty));
        l += 1;
    }
    assert(models(r@) =~= want);
    r
}

/// The states that an answer gives for the steps up to `last`.
pub fn decode_model(leaves: &Vec<LeafInfo>, answer: &str, last: usize) -> (r: Vec<Vec<Value>>)
    requires
        last < usize::MAX,
    ensures
        r@.len() == last + 1,
        forall|t: int|
            0 <= t <= last ==> models((#[trigger] r@[t])@) == state_of(
                pieces(answer@, 0, Seq::empty(), Seq::empty()),
                leaf_types(leaves@),
                t,
            ),
{
    let ts = split(answer);
    let mut r: Vec<Vec<Value>> = Vec::new();
    let mut t: usize = 0;
    while t <= last
        invariant
            t <= last + 1,
            last < usize::MAX,
            r@.len() == t,
            views(ts@) == pieces(answer@, 0, Seq::empty(), Seq::empty()),
            forall|j: int|
                0 <= j < t ==> models((#[trigger] r@[j])@) == state_of(views(ts@), leaf_types(leaves@), j),
        decreases last + 1 - t,
    {
        r.push(read_state(&ts, leaves, t));
        t += 1;
    }
    r
}

/// What a solver said.
#[derive(Clone, Copy, Debug, PartialEq, Eq, Structural)]
pub enum Outcome {
    /// The formula can hold.
    Sat,
    /// It cannot.
    Unsat,
    /// Neither was said.
    Unknown,
}

/// The text begins with the other.
pub open spec fn begins(s: Seq<char>, p: Seq<char>) -> bool {
    p.len() <= s.len() && s.take(p.len() as int) == p
}

fn does_begin(s: &Vec<char>, p: &Vec<char>) -> (r: bool)
    ensures
        r == begins(s@, p@),
{
    if p.len() > s.len() {
        return false;
    }
    let mut i: usize = 0;
    while i < p.len()
        invariant
            i <= p@.len() <= s@.len(),
            forall|j: int| 0 <= j < i ==> s@[j] == p@[j],
        decreases p.len() - i,
    {
        if s[i] != p[i] {
            assert(s@.take(p@.len() as int)[i as int] != p@[i as int]);
            return false;
        }
        i += 1;
    }
    assert(s@.take(p@.len() as int) =~= p@);
    true
}

/// What the answer of a solver says first.
pub fn outcome(answer: &str) -> (r: Outcome)
    ensures
        r == (if begins(answer@, "unsat"@) {
            Outcome::Unsat
        } else if begins(answer@, "sat"@) {
            Outcome::Sat
        } else {
            Outcome::Unknown
        }),
{
    let s = characters(answer);
    if does_begin(&s, &characters("unsat")) {
        Outcome::Unsat
    } else if does_begin(&s, &characters("sat")) {
        Outcome::Sat
    } else {
        Outcome::Unknown
    }
}

/// How a search or an induction ended.
pub enum SmtResult {
    /// There is no counterexample of up to so many steps.
    NoCe(usize),
    /// The states of a counterexample.
    Counterexample(Vec<Vec<Value>>),
    /// The property is proved.
    Proved,
    /// The property could not be proved by induction of this depth.
    InductionFailed,
}

/// The error that no solver gave a outcome.
pub open spec fn no_solver(e: EngineError) -> bool {
    e matches EngineError::Eval(m) && m@ == "no working SMT solver found (tried yices-smt2, z3, cvc5)"@
}

/// The result is a counterexample of `k` steps with the states that the answer gives.
pub open spec fn read_back(r: SmtResult, leaves: Seq<LT>, answer: Seq<char>, k: int) -> bool {
    r matches SmtResult::Counterexample(s) && s@.len() == k + 1 && forall|t: int|
        0 <= t <= k ==> models((#[trigger] s@[t])@) == state_of(
            pieces(answer, 0, Seq::empty(), Seq::empty()),
            leaves,
            t,
        )
}

fn silence() -> (r: EngineError)
    ensures
        no_solver(r),
{
    EngineError::Eval(own("no working SMT solver found (tried yices-smt2, z3, cvc5)"))
}

/// How a search for counterexamples of up to `depth` steps goes on after the answer for `k` steps:
/// with the next number of steps, where nothing is returned.
pub fn after_search(leaves: &Vec<LeafInfo>, answer: &str, k: usize, depth: usize) -> (r: Result<
    Option<SmtResult>,
    EngineError,
>)
    requires
        k <= depth < usize::MAX,
    ensures
        if begins(answer@, "unsat"@) {
            if k == depth {
                r matches Ok(Some(SmtResult::NoCe(d))) && d == depth
            } else {
                r matches Ok(None)
            }
        } else if begins(answer@, "sat"@) {
            r matches Ok(Some(c)) && read_back(c, leaf_types(leaves@), answer@, k as int)
        } else {
            r matches Err(e) && no_solver(e)
        },
{
    match outcome(answer) {
        Outcome::Unsat => if k == depth {
            Ok(Some(SmtResult::NoCe(depth)))
        } else {
            Ok(None)
        },
        Outcome::Sat => Ok(Some(SmtResult::Counterexample(decode_model(leaves, answer, k)))),
        Outcome::Unknown => Err(silence()),
    }
}

/// How an induction of depth `k` goes on after the answer to its first question: with the second,
/// where nothing is returned.
pub fn after_base(leaves: &Vec<LeafInfo>, answer: &str, k: usize) -> (r: Result<Option<SmtResult>, EngineError>)
    requires
        k < usize::MAX,
    ensures
        if begins(answer@, "unsat"@) {
            r matches Ok(None)
        } else if begins(answer@, "sat"@) {
            r matches Ok(Some(c)) && read_back(c, leaf_types(leaves@), answer@, k as int)
        } else {
            r matches Err(e) && no_solver(e)
        },
{
    match outcome(answer) {
        Outcome::Unsat => Ok(None),
        Outcome::Sat => Ok(Some(SmtResult::Counterexample(decode_model(leaves, answer, k)))),
        Outcome::Unknown => Err(silence()),
    }
}

/// How an induction ends after the answer to its second question.
pub fn after_step(answer: &str) -> (r: Result<SmtResult, EngineError>)
    ensures
        if begins(answer@, "unsat"@) {
            r matches Ok(SmtResult::Proved)
        } else if begins(answer@, "sat"@) {
            r matches Ok(SmtResult::InductionFailed)
        } else {
            r matches Err(e) && no_solver(e)
        },
{
    match outcome(answer) {
        Outcome::Unsat => Ok(SmtResult::Proved),
        Outcome::Sat => Ok(SmtResult::InductionFailed),
        Outcome::Unknown => Err(silence()),
    }
}

} // verus!
