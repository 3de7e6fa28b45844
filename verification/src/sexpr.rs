//! Texts of nested lists, as the SMT-LIB language has them, and what the terms among them mean.

use crate::num::{dec_nat, digit_char, Q};
use vstd::prelude::*;

verus! {

/// A word, or a list in parentheses.
pub ghost enum SX {
    Word(Seq<char>),
    List(Seq<SX>),
}

/// The character separates words.
pub open spec fn is_blank(c: char) -> bool {
    c == ' ' || c == '\n'
}

/// The character ends a word.
pub open spec fn ends_word(c: char) -> bool {
    is_blank(c) || c == '(' || c == ')'
}

/// The end of the word at a place.
pub open spec fn word_end(s: Seq<char>, i: int) -> int
    decreases s.len() - i,
{
    if 0 <= i < s.len() && !ends_word(s[i]) {
        word_end(s, i + 1)
    } else {
        i
    }
}

/// The first place from `i` on that is no blank.
pub open spec fn past_blanks(s: Seq<char>, i: int) -> int
    decreases s.len() - i,
{
    if 0 <= i < s.len() && is_blank(s[i]) {
        past_blanks(s, i + 1)
    } else {
        i
    }
}

/// The word or list that starts at a place, and its end.
pub open spec fn read(s: Seq<char>, i: int) -> Option<(SX, int)>
    decreases s.len() - i, 0nat,
{
    if i < 0 || i >= s.len() || is_blank(s[i]) || s[i] == ')' {
        None
    } else if s[i] == '(' {
        match read_items(s, i + 1) {
            Some((v, j)) => Some((SX::List(v), j)),
            None => None,
        }
    } else {
        let j = word_end(s, i);
        Some((SX::Word(s.subrange(i, j)), j))
    }
}

/// The items of a list from a place on, and the end of the list.
pub open spec fn read_items(s: Seq<char>, i: int) -> Option<(Seq<SX>, int)>
    decreases s.len() - i, 1nat,
{
    let k = past_blanks(s, i);
    if k < i || k >= s.len() {
        None
    } else if s[k] == ')' {
        Some((Seq::empty(), k + 1))
    } else {
        match read(s, k) {
            Some((x, j)) => if j <= k || j > s.len() {
                None
            } else {
                match read_items(s, j) {
                    Some((v, e)) => Some((seq![x] + v, e)),
                    None => None,
                }
            },
            None => None,
        }
    }
}

/// The text of a word or list, with one blank between items.
pub open spec fn written(x: SX) -> Seq<char>
    decreases x, 0nat,
{
    match x {
        SX::Word(w) => w,
        SX::List(v) => seq!['('] + written_items(v, 0) + seq![')'],
    }
}

/// The texts of the items from `i` on, each but the first behind a blank.
pub open spec fn written_items(v: Seq<SX>, i: int) -> Seq<char>
    decreases v, v.len() - i,
{
    if 0 <= i < v.len() {
        (if i > 0 {
            seq![' ']
        } else {
            Seq::empty()
        }) + written(v[i]) + written_items(v, i + 1)
    } else {
        Seq::empty()
    }
}

/// The words are ones: not empty, and without blanks or parentheses.
pub open spec fn is_proper(x: SX) -> bool
    decreases x, 0nat,
{
    match x {
        SX::Word(w) => is_word(w),
        SX::List(v) => are_proper(v, 0),
    }
}

/// The items from `i` on are made of words.
pub open spec fn are_proper(v: Seq<SX>, i: int) -> bool
    decreases v, v.len() - i,
{
    if 0 <= i < v.len() {
        is_proper(v[i]) && are_proper(v, i + 1)
    } else {
        true
    }
}

pub open spec fn is_word(w: Seq<char>) -> bool {
    w.len() > 0 && forall|k: int| 0 <= k < w.len() ==> !ends_word(#[trigger] w[k])
}

/// The text stands in another at a place.
pub open spec fn stands(s: Seq<char>, i: int, t: Seq<char>) -> bool {
    0 <= i && i + t.len() <= s.len() && s.subrange(i, i + t.len()) == t
}

pub proof fn stands_parts(s: Seq<char>, i: int, a: Seq<char>, b: Seq<char>)
    requires
        stands(s, i, a + b),
    ensures
        stands(s, i, a),
        stands(s, i + a.len(), b),
{
    let z = a + b;
    let w = s.subrange(i, i + z.len());
    assert(s.subrange(i, i + a.len()) =~= a) by {
        assert forall|k: int| 0 <= k < a.len() implies s.subrange(i, i + a.len())[k] == a[k] by {
            assert(w[k] == z[k]);
        }
    }
    assert(s.subrange(i + a.len(), i + a.len() + b.len()) =~= b) by {
        assert forall|k: int| 0 <= k < b.len() implies s.subrange(i + a.len(), i + a.len() + b.len())[k] == b[k] by {
            assert(w[a.len() + k] == z[a.len() + k]);
        }
    }
}

pub proof fn stands_char(s: Seq<char>, i: int, t: Seq<char>, k: int)
    requires
        stands(s, i, t),
        0 <= k < t.len(),
    ensures
        s[i + k] == t[k],
{
    assert(s.subrange(i, i + t.len())[k] == s[i + k]);
}

proof fn word_ends(s: Seq<char>, i: int, n: nat)
    requires
        0 <= i,
        i + n <= s.len(),
        forall|k: int| i <= k < i + n ==> !ends_word(#[trigger] s[k]),
        i + n < s.len() ==> ends_word(s[i + n]),
    ensures
        word_end(s, i) == i + n,
    decreases n,
{
    if n > 0 {
        assert(!ends_word(s[i]));
        word_ends(s, i + 1, (n - 1) as nat);
    }
}

proof fn written_some(x: SX)
    requires
        is_proper(x),
    ensures
        written(x).len() > 0,
        !is_blank(written(x)[0]),
        written(x)[0] != ')',
{
    match x {
        SX::Word(w) => {
            assert(!ends_word(w[0]));
        },
        SX::List(v) => {},
    }
}

proof fn word_read(s: Seq<char>, i: int, w: Seq<char>)
    requires
        is_word(w),
        stands(s, i, w),
        i + w.len() < s.len() ==> ends_word(s[i + w.len()]),
    ensures
        read(s, i) == Some((SX::Word(w), i + w.len())),
{
    assert forall|k: int| i <= k < i + w.len() implies !ends_word(#[trigger] s[k]) by {
        stands_char(s, i, w, k - i);
        assert(!ends_word(w[k - i]));
    }
    word_ends(s, i, w.len());
    assert(!ends_word(s[i]));
    assert(s.subrange(i, word_end(s, i)) == w);
}

/// What is written is read back.
pub proof fn written_read(s: Seq<char>, i: int, x: SX)
    requires
        is_proper(x),
        stands(s, i, written(x)),
        i + written(x).len() < s.len() ==> ends_word(s[i + written(x).len()]),
    ensures
        read(s, i) == Some((x, i + written(x).len())),
    decreases x, 0nat,
{
    let t = written(x);
    written_some(x);
    stands_char(s, i, t, 0);
    match x {
        SX::Word(w) => {
            word_read(s, i, w);
        },
        SX::List(v) => {
            let b = written_items(v, 0);
            assert(t =~= seq!['('] + (b + seq![')']));
            stands_parts(s, i, seq!['('], b + seq![')']);
            items_read(s, i + 1, v, 0);
            assert(v.skip(0) =~= v);
        },
    }
}

proof fn items_read(s: Seq<char>, i: int, v: Seq<SX>, k: int)
    requires
        0 <= k <= v.len(),
        are_proper(v, k),
        stands(s, i, written_items(v, k) + seq![')']),
    ensures
        read_items(s, i) == Some((v.skip(k), i + written_items(v, k).len() + 1)),
    decreases v, v.len() - k,
{
    let t = written_items(v, k);
    if k < v.len() {
        let lead: Seq<char> = if k > 0 {
            seq![' ']
        } else {
            Seq::empty()
        };
        let a = written(v[k]);
        let rest = written_items(v, k + 1);
        assert(t + seq![')'] =~= lead + (a + (rest + seq![')'])));
        stands_parts(s, i, lead, a + (rest + seq![')']));
        let p = i + lead.len();
        stands_parts(s, p, a, rest + seq![')']);
        let q = p + a.len();
        written_some(v[k]);
        stands_char(s, p, a, 0);
        stands_char(s, q, rest + seq![')'], 0);
        reveal_with_fuel(past_blanks, 2);
        if k > 0 {
            stands_char(s, i, lead, 0);
        }
        assert(past_blanks(s, i) == p);
        assert(ends_word(s[q])) by {
            if k + 1 < v.len() {
                assert((rest + seq![')'])[0] == ' ');
            } else {
                assert(rest =~= Seq::empty());
                assert((rest + seq![')'])[0] == ')');
            }
        }
        written_read(s, p, v[k]);
        items_read(s, q, v, k + 1);
        assert(seq![v[k]] + v.skip(k + 1) =~= v.skip(k));
    } else {
        assert(t =~= Seq::empty());
        stands_char(s, i, t + seq![')'], 0);
        assert(past_blanks(s, i) == i);
        assert(v.skip(k) =~= Seq::empty());
    }
}

/// The value of a term: a truth value, an integer, or a real number (here a fraction).
pub ghost enum SV3 {
    B(bool),
    I(int),
    R(Q),
}

/// What the names stand for.
pub type Names = spec_fn(Seq<char>) -> Option<SV3>;

/// The text is a numeral.
pub open spec fn is_numeral(w: Seq<char>) -> bool {
    w.len() > 0 && forall|k: int| 0 <= k < w.len() ==> '0' <= #[trigger] w[k] <= '9'
}

/// The number that a numeral denotes.
pub open spec fn decimal(w: Seq<char>) -> int
    decreases w.len(),
{
    if w.len() == 0 {
        0
    } else {
        10 * decimal(w.drop_last()) + (w.last() as int - '0' as int)
    }
}

proof fn digit_chars(d: nat)
    requires
        d < 10,
    ensures
        '0' <= digit_char(d) <= '9',
        digit_char(d) as int - '0' as int == d,
{
    let u: u8 = (48 + d) as u8;
    assert(u == 48 + d);
    assert(u as char as int == u);
}

/// The decimal numeral of a number denotes the number.
pub proof fn dec_read(n: nat)
    ensures
        is_numeral(dec_nat(n)),
        decimal(dec_nat(n)) == n,
        is_word(dec_nat(n)),
    decreases n,
{
    let w = dec_nat(n);
    if n < 10 {
        digit_chars(n);
        assert(w.drop_last() =~= Seq::empty());
        assert(decimal(w.drop_last()) == 0);
    } else {
        dec_read(n / 10);
        digit_chars(n % 10);
        assert(w.drop_last() =~= dec_nat(n / 10));
        assert forall|k: int| 0 <= k < w.len() implies '0' <= #[trigger] w[k] <= '9' by {
            if k < w.len() - 1 {
                assert(w[k] == dec_nat(n / 10)[k]);
            }
        }
    }
    assert forall|k: int| 0 <= k < w.len() implies !ends_word(#[trigger] w[k]) by {
        assert('0' <= w[k] <= '9');
    }
}

/// The operators of terms.
pub ghost enum Op {
    Not,
    And,
    Or,
    Ite,
    Eq,
    Lt,
    Le,
    Plus,
    Times,
    Minus,
    Over,
    Div,
    Mod,
    ToReal,
    Other,
}

/// The operator that a word stands for.
pub open spec fn op_of(w: Seq<char>) -> Op {
    if w == "not"@ {
        Op::Not
    } else if w == "and"@ {
        Op::And
    } else if w == "or"@ {
        Op::Or
    } else if w == "ite"@ {
        Op::Ite
    } else if w == "="@ {
        Op::Eq
    } else if w == "<"@ {
        Op::Lt
    } else if w == "<="@ {
        Op::Le
    } else if w == "+"@ {
        Op::Plus
    } else if w == "*"@ {
        Op::Times
    } else if w == "-"@ {
        Op::Minus
    } else if w == "/"@ {
        Op::Over
    } else if w == "div"@ {
        Op::Div
    } else if w == "mod"@ {
        Op::Mod
    } else if w == "to_real"@ {
        Op::ToReal
    } else {
        Op::Other
    }
}

/// The operators of the words, all of which are proper.
pub proof fn op_words()
    ensures
        op_of("not"@) is Not && is_word("not"@),
        op_of("and"@) is And && is_word("and"@),
        op_of("or"@) is Or && is_word("or"@),
        op_of("ite"@) is Ite && is_word("ite"@),
        op_of("="@) is Eq && is_word("="@),
        op_of("<"@) is Lt && is_word("<"@),
        op_of("<="@) is Le && is_word("<="@),
        op_of("+"@) is Plus && is_word("+"@),
        op_of("*"@) is Times && is_word("*"@),
        op_of("-"@) is Minus && is_word("-"@),
        op_of("/"@) is Over && is_word("/"@),
        op_of("div"@) is Div && is_word("div"@),
        op_of("mod"@) is Mod && is_word("mod"@),
        op_of("to_real"@) is ToReal && is_word("to_real"@),
        is_word("true"@),
        is_word("false"@),
        "true"@ != "false"@,
{
    reveal_strlit("not");
    reveal_strlit("and");
    reveal_strlit("or");
    reveal_strlit("ite");
    reveal_strlit("=");
    reveal_strlit("<");
    reveal_strlit("<=");
    reveal_strlit("+");
    reveal_strlit("*");
    reveal_strlit("-");
    reveal_strlit("/");
    reveal_strlit("div");
    reveal_strlit("mod");
    reveal_strlit("to_real");
    reveal_strlit("true");
    reveal_strlit("false");
    assert("not"@[0] == 'n' && "and"@[0] == 'a' && "or"@[0] == 'o' && "ite"@[0] == 'i' && "="@[0] == '=' && "<"@[0] == '<'
        && "<="@[0] == '<' && "+"@[0] == '+' && "*"@[0] == '*' && "-"@[0] == '-' && "/"@[0] == '/' && "div"@[0] == 'd'
        && "mod"@[0] == 'm' && "to_real"@[0] == 't');
    assert("<"@.len() == 1 && "<="@.len() == 2);
    assert("true"@.len() == 4 && "false"@.len() == 5);
}

/// All are truth values.
pub open spec fn all_b(xs: Seq<Option<SV3>>) -> bool {
    forall|i: int| 0 <= i < xs.len() ==> (#[trigger] xs[i]) matches Some(SV3::B(_))
}

/// All are integers.
pub open spec fn all_i(xs: Seq<Option<SV3>>) -> bool {
    forall|i: int| 0 <= i < xs.len() ==> (#[trigger] xs[i]) matches Some(SV3::I(_))
}

/// All are real numbers.
pub open spec fn all_r(xs: Seq<Option<SV3>>) -> bool {
    forall|i: int| 0 <= i < xs.len() ==> (#[trigger] xs[i]) matches Some(SV3::R(_))
}

/// The sum of integers.
pub open spec fn sum_i(xs: Seq<Option<SV3>>) -> int
    decreases xs.len(),
{
    if xs.len() == 0 {
        0
    } else {
        sum_i(xs.drop_last()) + xs.last()->0->I_0
    }
}

/// The product of integers.
pub open spec fn product_i(xs: Seq<Option<SV3>>) -> int
    decreases xs.len(),
{
    if xs.len() == 0 {
        1
    } else {
        product_i(xs.drop_last()) * xs.last()->0->I_0
    }
}

/// The sum of fractions.
pub open spec fn sum_r(xs: Seq<Option<SV3>>) -> Q
    decreases xs.len(),
{
    if xs.len() == 0 {
        Q { n: 0, d: 1 }
    } else {
        sum_r(xs.drop_last()).plus(xs.last()->0->R_0)
    }
}

/// The product of fractions.
pub open spec fn product_r(xs: Seq<Option<SV3>>) -> Q
    decreases xs.len(),
{
    if xs.len() == 0 {
        Q { n: 1, d: 1 }
    } else {
        product_r(xs.drop_last()).times(xs.last()->0->R_0)
    }
}

/// A number as a real one.
pub open spec fn fraction(x: SV3) -> Option<Q> {
    match x {
        SV3::I(n) => Some(Q { n, d: 1 }),
        SV3::R(q) => Some(q),
        SV3::B(_) => None,
    }
}

/// The value of an operator applied to values; none where it does not take them, or divides by zero.
pub open spec fn applied(op: Op, xs: Seq<Option<SV3>>) -> Option<SV3> {
    match op {
        Op::Not => if xs.len() == 1 && all_b(xs) {
            Some(SV3::B(!xs[0]->0->B_0))
        } else {
            None
        },
        Op::And => if xs.len() > 0 && all_b(xs) {
            Some(SV3::B(forall|i: int| 0 <= i < xs.len() ==> (#[trigger] xs[i]) == Some(SV3::B(true))))
        } else {
            None
        },
        Op::Or => if xs.len() > 0 && all_b(xs) {
            Some(SV3::B(exists|i: int| 0 <= i < xs.len() && (#[trigger] xs[i]) == Some(SV3::B(true))))
        } else {
            None
        },
        Op::Ite => if xs.len() == 3 && xs[0] is Some && xs[1] is Some && xs[2] is Some {
            match (xs[0]->0, xs[1]->0, xs[2]->0) {
                (SV3::B(b), SV3::B(_), SV3::B(_)) => if b {
                    xs[1]
                } else {
                    xs[2]
                },
                (SV3::B(b), SV3::I(_), SV3::I(_)) => if b {
                    xs[1]
                } else {
                    xs[2]
                },
                (SV3::B(b), SV3::R(_), SV3::R(_)) => if b {
                    xs[1]
                } else {
                    xs[2]
                },
                _ => None,
            }
        } else {
            None
        },
        Op::Eq => if xs.len() == 2 && xs[0] is Some && xs[1] is Some {
            match (xs[0]->0, xs[1]->0) {
                (SV3::B(x), SV3::B(y)) => Some(SV3::B(x == y)),
                (SV3::I(x), SV3::I(y)) => Some(SV3::B(x == y)),
                (SV3::R(x), SV3::R(y)) => Some(SV3::B(x == y)),
                _ => None,
            }
        } else {
            None
        },
        Op::Lt => if xs.len() == 2 && xs[0] is Some && xs[1] is Some {
            match (xs[0]->0, xs[1]->0) {
                (SV3::I(x), SV3::I(y)) => Some(SV3::B(x < y)),
                (SV3::R(x), SV3::R(y)) => Some(SV3::B(x.n * y.d < y.n * x.d)),
                _ => None,
            }
        } else {
            None
        },
        Op::Le => if xs.len() == 2 && xs[0] is Some && xs[1] is Some {
            match (xs[0]->0, xs[1]->0) {
                (SV3::I(x), SV3::I(y)) => Some(SV3::B(x <= y)),
                (SV3::R(x), SV3::R(y)) => Some(SV3::B(x.n * y.d <= y.n * x.d)),
                _ => None,
            }
        } else {
            None
        },
        Op::Plus => if xs.len() > 0 && all_i(xs) {
            Some(SV3::I(sum_i(xs)))
        } else if xs.len() > 0 && all_r(xs) {
            Some(SV3::R(sum_r(xs)))
        } else {
            None
        },
        Op::Times => if xs.len() > 0 && all_i(xs) {
            Some(SV3::I(product_i(xs)))
        } else if xs.len() > 0 && all_r(xs) {
            Some(SV3::R(product_r(xs)))
        } else {
            None
        },
        Op::Minus => if xs.len() == 1 && xs[0] is Some {
            match xs[0]->0 {
                SV3::I(x) => Some(SV3::I(-x)),
                SV3::R(x) => Some(SV3::R(Q { n: -x.n, d: x.d })),
                SV3::B(_) => None,
            }
        } else {
            None
        },
        Op::Over => if xs.len() == 2 && xs[0] is Some && xs[1] is Some {
            match (fraction(xs[0]->0), fraction(xs[1]->0)) {
                (Some(x), Some(y)) => if y.n == 0 {
                    None
                } else {
                    Some(SV3::R(x.over(y)))
                },
                _ => None,
            }
        } else {
            None
        },
        Op::Div => if xs.len() == 2 && all_i(xs) && xs[1]->0->I_0 != 0 {
            Some(SV3::I(xs[0]->0->I_0 / xs[1]->0->I_0))
        } else {
            None
        },
        Op::Mod => if xs.len() == 2 && all_i(xs) && xs[1]->0->I_0 != 0 {
            Some(SV3::I(xs[0]->0->I_0 % xs[1]->0->I_0))
        } else {
            None
        },
        Op::ToReal => if xs.len() == 1 && all_i(xs) {
            Some(SV3::R(Q { n: xs[0]->0->I_0, d: 1 }))
        } else {
            None
        },
        Op::Other => None,
    }
}

/// The value of a term.
pub open spec fn value(x: SX, names: Names) -> Option<SV3>
    decreases x,
{
    match x {
        SX::Word(w) => if w == "true"@ {
            Some(SV3::B(true))
        } else if w == "false"@ {
            Some(SV3::B(false))
        } else if is_numeral(w) {
            Some(SV3::I(decimal(w)))
        } else {
            names(w)
        },
        SX::List(v) => if v.len() > 0 && v[0] is Word {
            applied(op_of(v[0]->Word_0), values(v, names).skip(1))
        } else {
            None
        },
    }
}

/// The values of terms.
pub open spec fn values(v: Seq<SX>, names: Names) -> Seq<Option<SV3>>
    decreases v,
{
    Seq::new(
        v.len(),
        |i: int|
            if 0 <= i < v.len() {
                value(v[i], names)
            } else {
                arbitrary()
            },
    )
}

/// The value of an operator applied to terms.
pub proof fn value_applied(op: Seq<char>, v: Seq<SX>, names: Names)
    ensures
        value(SX::List(seq![SX::Word(op)] + v), names) == applied(op_of(op), values(v, names)),
{
    let all = seq![SX::Word(op)] + v;
    assert(values(all, names).skip(1) =~= values(v, names)) by {
        assert forall|i: int| 0 <= i < v.len() implies values(all, names).skip(1)[i] == values(v, names)[i] by {
            assert(all[i + 1] == v[i]);
        }
    }
}

/// What a list of commands does: the names that are known then, if it is understood, its assertions hold and the
/// declared names have values of their sorts in the model.
pub open spec fn obeyed(x: SX, names: Names, model: Names) -> Option<Names> {
    match x {
        SX::List(v) => if v.len() == 0 || !(v[0] is Word) {
            None
        } else {
            let c = v[0]->Word_0;
            if c == "set-logic"@ || c == "check-sat"@ {
                Some(names)
            } else if c == "declare-const"@ {
                if v.len() == 3 && v[1] is Word && v[2] is Word && of_sort(model(v[1]->Word_0), v[2]->Word_0) {
                    Some(with_name(names, v[1]->Word_0, model(v[1]->Word_0)))
                } else {
                    None
                }
            } else if c == "define-fun"@ {
                if v.len() == 5 && v[1] is Word && v[2] == SX::List(Seq::empty()) && v[3] is Word && of_sort(
                    value(v[4], names),
                    v[3]->Word_0,
                ) {
                    Some(with_name(names, v[1]->Word_0, value(v[4], names)))
                } else {
                    None
                }
            } else if c == "assert"@ {
                if v.len() == 2 && value(v[1], names) == Some(SV3::B(true)) {
                    Some(names)
                } else {
                    None
                }
            } else {
                None
            }
        },
        _ => None,
    }
}

/// The value is of the sort of a name.
pub open spec fn of_sort(v: Option<SV3>, sort: Seq<char>) -> bool {
    match v {
        Some(SV3::B(_)) => sort == "Bool"@,
        Some(SV3::I(_)) => sort == "Int"@,
        Some(SV3::R(_)) => sort == "Real"@,
        None => false,
    }
}

/// The names with one more.
pub open spec fn with_name(names: Names, w: Seq<char>, v: Option<SV3>) -> Names {
    |u: Seq<char>|
        if u == w {
            v
        } else {
            names(u)
        }
}

/// No names.
pub open spec fn no_names() -> Names {
    |u: Seq<char>| None
}

/// The commands of a text from a place on are obeyed in the model.
pub open spec fn satisfied(s: Seq<char>, i: int, names: Names, model: Names) -> bool
    decreases s.len() - i,
{
    let k = past_blanks(s, i);
    if k < i {
        false
    } else if k >= s.len() {
        true
    } else {
        match read(s, k) {
            Some((x, j)) => if j <= i || j > s.len() {
                false
            } else {
                match obeyed(x, names, model) {
                    Some(more) => satisfied(s, j, more, model),
                    None => false,
                }
            },
            None => false,
        }
    }
}

} // verus!
