//! What the numbers in the answer of a solver mean.

use crate::connectives::ratio_value;
use crate::fexpr::LT;
use crate::num::{dec, dec_nat, digit_char, digit_value, numeral_value, parse_int, Q};
use crate::reply::{behind, number, numeral, point, pow10, value_of};
use crate::value::Val;
use vstd::prelude::*;

verus! {

/// Decimal digits, at least one.
pub open spec fn all_digits(s: Seq<char>) -> bool {
    s.len() > 0 && forall|i: int| 0 <= i < s.len() ==> '0' <= #[trigger] s[i] <= '9'
}

proof fn digit(d: nat)
    requires
        d < 10,
    ensures
        '0' <= digit_char(d) <= '9',
        digit_value(digit_char(d)) == d,
{
    let u: u8 = (48 + d) as u8;
    assert(u == 48 + d);
    assert(u as char as int == u);
}

proof fn dec_digits(n: nat)
    ensures
        all_digits(dec_nat(n)),
        numeral_value(dec_nat(n), 10) == n,
    decreases n,
{
    let s = dec_nat(n);
    digit(n % 10);
    if n < 10 {
        assert(s.drop_last() =~= Seq::empty());
        assert(numeral_value(s.drop_last(), 10) == 0);
    } else {
        dec_digits(n / 10);
        assert(s.drop_last() =~= dec_nat(n / 10));
        assert forall|i: int| 0 <= i < s.len() implies '0' <= #[trigger] s[i] <= '9' by {
            if i < s.len() - 1 {
                assert(s[i] == dec_nat(n / 10)[i]);
            }
        }
    }
}

proof fn digits_read(s: Seq<char>)
    requires
        all_digits(s),
    ensures
        parse_int(s) == Some(numeral_value(s, 10) as int),
{
    assert('0' <= s[0] <= '9');
    assert forall|i: int| 0 <= i < s.len() implies s[i] == '_' || digit_value(#[trigger] s[i]) < 10 by {
        assert('0' <= s[i] <= '9');
    }
}

/// The decimal numeral of an integer is read as that integer.
pub proof fn numeral_law(n: int)
    ensures
        parse_int(dec(n)) == Some(n),
{
    if n < 0 {
        let s = dec_nat((-n) as nat);
        dec_digits((-n) as nat);
        digits_read(s);
        assert(dec(n).drop_first() =~= s);
        assert(dec(n)[1] == s[0]);
        assert('0' <= s[0] <= '9');
    } else {
        dec_digits(n as nat);
        digits_read(dec_nat(n as nat));
    }
}

proof fn no_point(s: Seq<char>, i: int)
    requires
        0 <= i,
        all_digits(s),
    ensures
        point(s, i) is None,
    decreases s.len() - i,
{
    if i < s.len() {
        assert('0' <= s[i] <= '9');
        no_point(s, i + 1);
    }
}

proof fn point_at(s: Seq<char>, i: int, p: int)
    requires
        0 <= i <= p < s.len(),
        s[p] == '.',
        forall|j: int| 0 <= j < p ==> #[trigger] s[j] != '.',
    ensures
        point(s, i) == Some(p),
    decreases p - i,
{
    if i < p {
        assert(s[i] != '.');
        point_at(s, i + 1, p);
    }
}

/// A decimal fraction has the value of its digits divided by ten as often as there are digits behind the point.
pub proof fn decimal_law(a: Seq<char>, b: Seq<char>)
    requires
        all_digits(a),
        all_digits(b),
    ensures
        numeral(a + seq!['.'] + b) matches Some(z) && z.d > 0 && z.n * pow10(b.len()) == numeral_value(a + b, 10) * z.d,
{
    let s = a + seq!['.'] + b;
    let p = a.len() as int;
    assert forall|j: int| 0 <= j < p implies #[trigger] s[j] != '.' by {
        assert(s[j] == a[j]);
    }
    point_at(s, 0, p);
    assert(s.remove(p) =~= a + b);
    assert(all_digits(a + b)) by {
        let c = a + b;
        assert forall|i: int| 0 <= i < c.len() implies '0' <= #[trigger] c[i] <= '9' by {
            if i < p {
                assert(c[i] == a[i]);
            } else {
                assert(c[i] == b[i - p]);
            }
        }
    }
    digits_read(a + b);
    pow_positive(b.len());
    ratio_value(numeral_value(a + b, 10) as int, pow10(b.len()));
}

proof fn pow_positive(n: nat)
    ensures
        pow10(n) > 0,
    decreases n,
{
    if n > 0 {
        pow_positive((n - 1) as nat);
    }
}

proof fn signs()
    ensures
        "("@ == seq!['('],
        ")"@ == seq![')'],
        "-"@ == seq!['-'],
        "/"@ == seq!['/'],
{
    reveal_strlit("(");
    reveal_strlit(")");
    reveal_strlit("-");
    reveal_strlit("/");
    assert("("@ =~= seq!['(']);
    assert(")"@ =~= seq![')']);
    assert("-"@ =~= seq!['-']);
    assert("/"@ =~= seq!['/']);
}

proof fn no_words(ts: Seq<Seq<char>>)
    requires
        ts.len() > 0,
        all_digits(ts[0]) || ts[0] == "("@,
    ensures
        ts != seq!["true"@],
        ts != seq!["false"@],
{
    signs();
    reveal_strlit("true");
    reveal_strlit("false");
    assert("true"@[0] == 't' && "false"@[0] == 'f');
    assert(seq!["true"@][0] == "true"@ && seq!["false"@][0] == "false"@);
    assert("("@.len() == 1 && "true"@.len() == 4 && "false"@.len() == 5);
}

proof fn plain_number(ts: Seq<Seq<char>>, i: int, n: nat)
    requires
        0 <= i < ts.len(),
        ts[i] == dec_nat(n),
    ensures
        number(ts, i) == Some((Q::whole(n as int), i + 1)),
{
    signs();
    dec_digits(n);
    digits_read(dec_nat(n));
    no_point(dec_nat(n), 0);
    assert('0' <= dec_nat(n)[0] <= '9');
    assert("("@[0] == '(');
}

/// A natural number, a negated one and a quotient are read from an answer as the numbers that they denote, and a natural
/// number of an enumerated type as the element of that number. For the negated one it matters that a closing bracket is
/// no numeral.
pub proof fn answer_law(n: nat, d: nat, t: LT)
    requires
        d > 0,
    ensures
        value_of(seq!["true"@], t) == Val::Bool(true),
        value_of(seq!["false"@], t) == Val::Bool(false),
        !(t is Scalar) ==> value_of(seq![dec_nat(n)], t) == Val::Num(Q { n: n as int, d: 1 }),
        !(t is Scalar) && parse_int(")"@) is None ==> value_of(seq!["("@, "-"@, dec_nat(n), ")"@], t) == Val::Num(
            Q { n: -(n as int), d: 1 },
        ),
        !(t is Scalar) ==> (value_of(seq!["("@, "/"@, dec_nat(n), dec_nat(d), ")"@], t) matches Val::Num(z) && z.d > 0
            && z.n * d == n * z.d),
        t matches LT::Scalar(id, _es) ==> n <= usize::MAX ==> value_of(seq![dec_nat(n)], t) == Val::Scalar(id, n),
{
    signs();
    reveal_strlit("true");
    reveal_strlit("false");
    assert("true"@.len() == 4 && "false"@.len() == 5);
    assert(seq!["true"@][0] == "true"@ && seq!["false"@][0] == "false"@);
    dec_digits(n);
    dec_digits(d);
    let a = seq![dec_nat(n)];
    no_words(a);
    plain_number(a, 0, n);
    let b = seq!["("@, "-"@, dec_nat(n), ")"@];
    no_words(b);
    plain_number(b, 2, n);
    assert(parse_int(")"@) is None ==> number(b, 3) is None) by {
        assert(b[3] == ")"@);
        assert(")"@[0] == ')' && ")"@.len() == 1 && "("@[0] == '(');
        assert(point(")"@, 1) is None);
        assert(point(")"@, 0) is None);
    }
    assert(b[0] == "("@ && b[1] == "-"@);
    let c = seq!["("@, "/"@, dec_nat(n), dec_nat(d), ")"@];
    no_words(c);
    plain_number(c, 2, n);
    plain_number(c, 3, d);
    assert("/"@[0] == '/' && "-"@[0] == '-');
    assert(c[0] == "("@ && c[1] == "/"@);
    let x = Q::whole(n as int);
    let y = Q::whole(d as int);
    assert(x.n * y.d == n && x.d * y.n == d) by (nonlinear_arith)
        requires
            x.n == n,
            y.n == d,
            x.d == 1,
            y.d == 1,
    ;
    ratio_value(n as int, d as int);
    reveal_with_fuel(number, 2);
    assert(n as int / 1 == n);
    assert(crate::num::quot(n as int, 1) == n);
}

} // verus!
