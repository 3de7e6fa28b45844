//! Goals files: a Scheme definition of `goal-list` with the names of the goals.

use crate::fexpr::{LeafInfo, LeafType, LT};
use crate::lexer::characters;
use crate::text::{own, same, views};
use vstd::prelude::*;

verus! {

/// The text from place `i` on without comments, which go from a semicolon to the end of the line.
/// Lines end in a line feed alone.
pub open spec fn without_comments(s: Seq<char>, i: int, comment: bool, acc: Seq<char>) -> Seq<char>
    decreases s.len() - i,
{
    if i < 0 || i >= s.len() {
        acc
    } else if s[i] == '\n' {
        without_comments(s, i + 1, false, acc.push('\n'))
    } else if comment || s[i] == ';' {
        without_comments(s, i + 1, true, acc)
    } else if s[i] == '\r' && i + 1 < s.len() && s[i + 1] == '\n' {
        without_comments(s, i + 1, false, acc)
    } else {
        without_comments(s, i + 1, false, acc.push(s[i]))
    }
}

fn strip_comments(s: &Vec<char>) -> (r: Vec<char>)
    ensures
        r@ == without_comments(s@, 0, false, Seq::empty()),
{
    let mut r: Vec<char> = Vec::new();
    let mut comment = false;
    let mut i: usize = 0;
    assert(r@ =~= Seq::empty());
    while i < s.len()
        invariant
            i <= s@.len(),
            without_comments(s@, i as int, comment, r@) == without_comments(s@, 0, false, Seq::empty()),
        decreases s.len() - i,
    {
        if s[i] == '\n' {
            comment = false;
            r.push('\n');
        } else if comment || s[i] == ';' {
            comment = true;
        } else if s[i] == '\r' && i + 1 < s.len() && s[i + 1] == '\n' {
        } else {
            r.push(s[i]);
        }
        i += 1;
    }
    r
}

/// The word stands at a place of the text.
pub open spec fn stands_at(s: Seq<char>, w: Seq<char>, i: int) -> bool {
    0 <= i && i + w.len() <= s.len() && s.subrange(i, i + w.len()) == w
}

fn stands(s: &Vec<char>, w: &Vec<char>, i: usize) -> (r: bool)
    requires
        i <= s@.len(),
    ensures
        r == stands_at(s@, w@, i as int),
{
    let n: usize = s.len();
    if w.len() > n - i {
        return false;
    }
    let mut j: usize = 0;
    while j < w.len()
        invariant
            j <= w@.len(),
            n == s@.len(),
            i + w@.len() <= n,
            forall|k: int| 0 <= k < j ==> s@[i + k] == w@[k],
        decreases w.len() - j,
    {
        if s[i + j] != w[j] {
            assert(s@.subrange(i as int, i + w@.len())[j as int] != w@[j as int]);
            return false;
        }
        j += 1;
    }
    assert(s@.subrange(i as int, i + w@.len()) =~= w@);
    true
}

/// The word stands somewhere in the text.
pub open spec fn contains_word(s: Seq<char>, w: Seq<char>) -> bool {
    exists|i: int| #[trigger] stands_at(s, w, i)
}

fn has_word(s: &Vec<char>, w: &Vec<char>) -> (r: bool)
    ensures
        r == contains_word(s@, w@),
{
    let mut i: usize = 0;
    while i < s.len()
        invariant
            i <= s@.len(),
            forall|k: int| 0 <= k < i ==> !stands_at(s@, w@, k),
        decreases s.len() - i,
    {
        if stands(s, w, i) {
            return true;
        }
        i += 1;
    }
    let last = stands(s, w, i);
    proof {
        if contains_word(s@, w@) && !last {
            let k = choose|k: int| #[trigger] stands_at(s@, w@, k);
            assert(k <= s@.len());
        }
    }
    last
}

/// The place of the next quote, from `i` on.
pub open spec fn quote(s: Seq<char>, i: int) -> Option<int>
    decreases s.len() - i,
{
    if i < 0 || i >= s.len() {
        None
    } else if s[i] == '"' {
        Some(i)
    } else {
        quote(s, i + 1)
    }
}

fn find_quote(s: &Vec<char>, from: usize) -> (r: Option<usize>)
    ensures
        match (r, quote(s@, from as int)) {
            (Some(a), Some(b)) => a == b && from <= a < s@.len(),
            (None, None) => true,
            _ => false,
        },
{
    let mut i: usize = from;
    while i < s.len()
        invariant
            from <= i,
            quote(s@, from as int) == quote(s@, i as int),
        decreases s.len() - i,
    {
        if s[i] == '"' {
            return Some(i);
        }
        i += 1;
    }
    None
}

/// The quoted texts from place `i` on, unless the last is not closed.
pub open spec fn quoted(s: Seq<char>, i: int, acc: Seq<Seq<char>>) -> Option<Seq<Seq<char>>>
    decreases s.len() - i,
{
    match quote(s, i) {
        None => Some(acc),
        Some(a) => match quote(s, a + 1) {
            None => None,
            Some(b) => if i <= a < b < s.len() {
                quoted(s, b + 1, acc.push(s.subrange(a + 1, b)))
            } else {
                None
            },
        },
    }
}

fn text_between(s: &Vec<char>, a: usize, b: usize) -> (r: String)
    requires
        a <= b <= s@.len(),
    ensures
        r@ == s@.subrange(a as int, b as int),
{
    let mut r = String::new();
    let mut i: usize = a;
    assert(r@ =~= s@.subrange(a as int, a as int));
    while i < b
        invariant
            a <= i <= b <= s@.len(),
            r@ == s@.subrange(a as int, i as int),
        decreases b - i,
    {
        r.push(s[i]);
        i += 1;
        assert(r@ =~= s@.subrange(a as int, i as int));
    }
    r
}

/// What a goals file says: the names of the goals, or why it says nothing.
pub open spec fn goals_of(src: Seq<char>) -> Result<Seq<Seq<char>>, Seq<char>> {
    let s = without_comments(src, 0, false, Seq::empty());
    if !contains_word(s, "goal-list"@) {
        Err("goals file does not define goal-list"@)
    } else {
        match quoted(s, 0, Seq::empty()) {
            None => Err("unterminated string in goals file"@),
            Some(v) => if v.len() == 0 {
                Err("no goals found in goals file"@)
            } else {
                Ok(v)
            },
        }
    }
}

/// Reads a goals file.
pub fn parse_goals(src: &str) -> (r: Result<Vec<String>, String>)
    ensures
        match (r, goals_of(src@)) {
            (Ok(v), Ok(m)) => views(v@) == m,
            (Err(e), Err(f)) => e@ == f,
            _ => false,
        },
{
    let s = strip_comments(&characters(src));
    if !has_word(&s, &characters("goal-list")) {
        return Err(own("goals file does not define goal-list"));
    }
    let mut v: Vec<String> = Vec::new();
    let mut i: usize = 0;
    assert(views(v@) =~= Seq::empty());
    loop
        invariant
            i <= s@.len(),
            s@ == without_comments(src@, 0, false, Seq::empty()),
            contains_word(s@, "goal-list"@),
            quoted(s@, i as int, views(v@)) == quoted(s@, 0, Seq::empty()),
        decreases s.len() - i,
    {
        match find_quote(&s, i) {
            None => {
                if v.len() == 0 {
                    return Err(own("no goals found in goals file"));
                }
                return Ok(v);
            },
            Some(a) => match find_quote(&s, a + 1) {
                None => {
                    return Err(own("unterminated string in goals file"));
                },
                Some(b) => {
                    let ghost before = v@;
                    let t = text_between(&s, a + 1, b);
                    let ghost m = t@;
                    v.push(t);
                    assert(views(v@) =~= views(before).push(m));
                    i = b + 1;
                },
            },
        }
    }
}

/// The boolean leaf of a name.
pub open spec fn is_trap(l: LeafInfo, name: Seq<char>) -> bool {
    l.name@ == name && l.ty@ == LT::Bool
}

/// The first boolean leaf of a name is number `i`.
pub open spec fn trap_at(ls: Seq<LeafInfo>, name: Seq<char>, i: int) -> bool {
    &&& 0 <= i < ls.len()
    &&& is_trap(ls[i], name)
    &&& forall|j: int| 0 <= j < i ==> !#[trigger] is_trap(ls[j], name)
}

/// Some boolean leaf has the name.
pub open spec fn has_trap(ls: Seq<LeafInfo>, name: Seq<char>) -> bool {
    exists|i: int| trap_at(ls, name, i)
}

fn find_trap(leaves: &Vec<LeafInfo>, name: &str) -> (r: Option<u32>)
    requires
        leaves@.len() <= u32::MAX,
    ensures
        match r {
            Some(i) => trap_at(leaves@, name@, i as int),
            None => !has_trap(leaves@, name@),
        },
{
    let mut i: usize = 0;
    while i < leaves.len()
        invariant
            i <= leaves@.len() <= u32::MAX,
            forall|j: int| 0 <= j < i ==> !#[trigger] is_trap(leaves@[j], name@),
        decreases leaves.len() - i,
    {
        let truth = match &leaves[i].ty {
            LeafType::Bool => true,
            _ => false,
        };
        if truth && same(&leaves[i].name, name) {
            return Some(i as u32);
        }
        i += 1;
    }
    None
}

/// The boolean leaves that the goals name, or the number of the first goal that names none.
pub fn goal_leaves(leaves: &Vec<LeafInfo>, goals: &Vec<String>) -> (r: Result<Vec<u32>, usize>)
    requires
        leaves@.len() <= u32::MAX,
    ensures
        match r {
            Ok(v) => v@.len() == goals@.len() && forall|g: int|
                0 <= g < v@.len() ==> trap_at(leaves@, (#[trigger] goals@[g])@, v@[g] as int),
            Err(g) => {
                &&& g < goals@.len()
                &&& !has_trap(leaves@, goals@[g as int]@)
                &&& forall|h: int| 0 <= h < g ==> has_trap(leaves@, (#[trigger] goals@[h])@)
            },
        },
{
    let mut v: Vec<u32> = Vec::new();
    let mut g: usize = 0;
    while g < goals.len()
        invariant
            g <= goals@.len(),
            leaves@.len() <= u32::MAX,
            v@.len() == g,
            forall|h: int| 0 <= h < g ==> trap_at(leaves@, (#[trigger] goals@[h])@, v@[h] as int),
        decreases goals.len() - g,
    {
        match find_trap(leaves, &goals[g]) {
            Some(i) => {
                v.push(i);
            },
            None => {
                assert forall|h: int| 0 <= h < g implies has_trap(leaves@, (#[trigger] goals@[h])@) by {
                    assert(trap_at(leaves@, goals@[h]@, v@[h] as int));
                }
                return Err(g);
            },
        }
        g += 1;
    }
    Ok(v)
}

} // verus!
