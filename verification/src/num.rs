//! Unbounded integers and rationals.
//!
//! The values are held as plain digits; the arithmetic is done by `num-bigint`
//! and `num-rational`.

use num_bigint::{BigInt, BigUint, Sign};
use num_rational::BigRational;
use vstd::prelude::*;

verus! {

/// The natural number with the given base 2^32 digits, least significant first.
pub open spec fn digits_value(m: Seq<u32>) -> nat
    decreases m.len(),
{
    if m.len() == 0 {
        0
    } else {
        m[0] as nat + 0x1_0000_0000 * digits_value(m.drop_first())
    }
}

/// Greatest common divisor.
pub open spec fn gcd(a: nat, b: nat) -> nat
    decreases b,
{
    if b == 0 {
        a
    } else {
        gcd(b, a % b)
    }
}

/// Absolute value.
pub open spec fn abs(n: int) -> nat {
    if n < 0 {
        (-n) as nat
    } else {
        n as nat
    }
}

/// A fraction in lowest terms with a positive denominator: numerator and denominator.
pub ghost struct Q {
    pub n: int,
    pub d: int,
}

/// The fraction `n / d` in lowest terms.
pub open spec fn ratio(n: int, d: int) -> Q
    recommends
        d != 0,
{
    let g = gcd(abs(n), abs(d)) as int;
    if d > 0 {
        Q { n: n / g, d: d / g }
    } else {
        Q { n: (-n) / g, d: (-d) / g }
    }
}

impl Q {
    /// The integer `n`.
    pub open spec fn whole(n: int) -> Q {
        Q { n, d: 1 }
    }

    /// Sum.
    pub open spec fn plus(self, o: Q) -> Q {
        ratio(self.n * o.d + o.n * self.d, self.d * o.d)
    }

    /// Difference.
    pub open spec fn minus(self, o: Q) -> Q {
        ratio(self.n * o.d - o.n * self.d, self.d * o.d)
    }

    /// Product.
    pub open spec fn times(self, o: Q) -> Q {
        ratio(self.n * o.n, self.d * o.d)
    }

    /// Quotient, for a divisor other than zero.
    pub open spec fn over(self, o: Q) -> Q {
        ratio(self.n * o.d, self.d * o.n)
    }

    /// Negation.
    pub open spec fn neg(self) -> Q {
        Q { n: -self.n, d: self.d }
    }

    /// Strict order of the fractions' values.
    pub open spec fn less(self, o: Q) -> bool {
        self.n * o.d < o.n * self.d
    }

    /// Order of the fractions' values.
    pub open spec fn at_most(self, o: Q) -> bool {
        self.n * o.d <= o.n * self.d
    }

    /// The fraction is a whole number.
    pub open spec fn is_int(self) -> bool {
        self.d == 1
    }
}

/// The digit of a decimal numeral.
pub open spec fn digit_char(d: nat) -> char {
    (48 + d) as u8 as char
}

/// The decimal numeral of a natural number.
pub open spec fn dec_nat(n: nat) -> Seq<char>
    decreases n,
{
    if n < 10 {
        seq![digit_char(n)]
    } else {
        dec_nat(n / 10).push(digit_char(n % 10))
    }
}

/// The decimal numeral of an integer.
pub open spec fn dec(n: int) -> Seq<char> {
    if n < 0 {
        seq!['-'] + dec_nat((-n) as nat)
    } else {
        dec_nat(n as nat)
    }
}

/// The value of a digit character, at least 36 for any other character.
pub open spec fn digit_value(c: char) -> nat {
    if '0' <= c <= '9' {
        (c as int - '0' as int) as nat
    } else if 'a' <= c <= 'z' {
        (c as int - 'a' as int + 10) as nat
    } else if 'A' <= c <= 'Z' {
        (c as int - 'A' as int + 10) as nat
    } else {
        36
    }
}

/// The value of a numeral, most significant digit first, in which `_` stands for nothing.
pub open spec fn numeral_value(s: Seq<char>, radix: nat) -> nat
    decreases s.len(),
{
    if s.len() == 0 {
        0
    } else if s.last() == '_' {
        numeral_value(s.drop_last(), radix)
    } else {
        numeral_value(s.drop_last(), radix) * radix + digit_value(s.last())
    }
}

/// The natural number that a text denotes in a radix: an optional `+`, then digits, among
/// which `_` may stand anywhere but first.
pub open spec fn parse_nat(s: Seq<char>, radix: nat) -> Option<nat> {
    let t = if s.len() > 0 && s[0] == '+' && !(s.len() > 1 && s[1] == '+') {
        s.drop_first()
    } else {
        s
    };
    if t.len() > 0 && t[0] != '_' && (forall|i: int|
        0 <= i < t.len() ==> t[i] == '_' || digit_value(#[trigger] t[i]) < radix) {
        Some(numeral_value(t, radix))
    } else {
        None
    }
}

/// The integer that a decimal text denotes: a natural number after an optional `-`.
pub open spec fn parse_int(s: Seq<char>) -> Option<int> {
    if s.len() > 0 && s[0] == '-' {
        if s.len() > 1 && s[1] == '+' {
            None
        } else {
            match parse_nat(s.drop_first(), 10) {
                Some(n) => Some(-(n as int)),
                None => None,
            }
        }
    } else {
        match parse_nat(s, 10) {
            Some(n) => Some(n as int),
            None => None,
        }
    }
}

/// An unbounded integer: sign and base 2^32 digits, least significant first.
#[derive(Debug)]
pub struct Int {
    neg: bool,
    mag: Vec<u32>,
}

impl View for Int {
    type V = int;

    closed spec fn view(&self) -> int {
        if self.neg {
            -(digits_value(self.mag@) as int)
        } else {
            digits_value(self.mag@) as int
        }
    }
}

/// `+` of `num_bigint::BigInt`: the sum of the two integers.
#[verifier::external_body]
fn int_add(a: &Int, b: &Int) -> (r: Int)
    ensures
        r@ == a@ + b@,
{
    let x = BigInt::from_slice(if a.neg { Sign::Minus } else { Sign::Plus }, &a.mag);
    let y = BigInt::from_slice(if b.neg { Sign::Minus } else { Sign::Plus }, &b.mag);
    let (sign, mag) = (x + y).to_u32_digits();
    Int { neg: sign == Sign::Minus, mag }
}

/// `-` of `num_bigint::BigInt`: the difference of the two integers.
#[verifier::external_body]
fn int_sub(a: &Int, b: &Int) -> (r: Int)
    ensures
        r@ == a@ - b@,
{
    let x = BigInt::from_slice(if a.neg { Sign::Minus } else { Sign::Plus }, &a.mag);
    let y = BigInt::from_slice(if b.neg { Sign::Minus } else { Sign::Plus }, &b.mag);
    let (sign, mag) = (x - y).to_u32_digits();
    Int { neg: sign == Sign::Minus, mag }
}

/// `*` of `num_bigint::BigInt`: the product of the two integers.
#[verifier::external_body]
fn int_mul(a: &Int, b: &Int) -> (r: Int)
    ensures
        r@ == a@ * b@,
{
    let x = BigInt::from_slice(if a.neg { Sign::Minus } else { Sign::Plus }, &a.mag);
    let y = BigInt::from_slice(if b.neg { Sign::Minus } else { Sign::Plus }, &b.mag);
    let (sign, mag) = (x * y).to_u32_digits();
    Int { neg: sign == Sign::Minus, mag }
}

/// The quotient of two integers, rounded towards zero.
pub open spec fn quot(a: int, b: int) -> int
    recommends
        b != 0,
{
    let q = abs(a) as int / abs(b) as int;
    if (a < 0) == (b < 0) {
        q
    } else {
        -q
    }
}

/// `/` of `num_bigint::BigInt`: the quotient, rounded towards zero. It panics on a zero
/// divisor.
#[verifier::external_body]
fn int_quot(a: &Int, b: &Int) -> (r: Int)
    requires
        b@ != 0,
    ensures
        r@ == quot(a@, b@),
{
    let x = BigInt::from_slice(if a.neg { Sign::Minus } else { Sign::Plus }, &a.mag);
    let y = BigInt::from_slice(if b.neg { Sign::Minus } else { Sign::Plus }, &b.mag);
    let (sign, mag) = (x / y).to_u32_digits();
    Int { neg: sign == Sign::Minus, mag }
}

/// `to_string` of `num_bigint::BigInt`: the decimal numeral.
#[verifier::external_body]
fn int_to_text(a: &Int) -> (r: String)
    ensures
        r@ == dec(a@),
{
    let x = BigInt::from_slice(if a.neg { Sign::Minus } else { Sign::Plus }, &a.mag);
    x.to_string()
}

/// `str::parse` to a `num_bigint::BigInt`: the integer that a decimal text denotes, if it
/// denotes one.
#[verifier::external_body]
fn int_from_text(s: &str) -> (r: Option<Int>)
    ensures
        match r {
            Some(x) => parse_int(s@) == Some(x@),
            None => parse_int(s@) is None,
        },
{
    let (sign, mag) = s.parse::<BigInt>().ok()?.to_u32_digits();
    Some(Int { neg: sign == Sign::Minus, mag })
}

/// `num_bigint::BigUint::parse_bytes` on the bytes of a text: the natural number that the
/// text denotes in the radix, if it denotes one. It panics on a radix outside 2 to 36.
#[verifier::external_body]
fn nat_from_text(s: &str, radix: u32) -> (r: Option<Int>)
    requires
        2 <= radix <= 36,
    ensures
        match r {
            Some(x) => 0 <= x@ && parse_nat(s@, radix as nat) == Some(x@ as nat),
            None => parse_nat(s@, radix as nat) is None,
        },
{
    Some(Int { neg: false, mag: BigUint::parse_bytes(s.as_bytes(), radix)?.to_u32_digits() })
}

proof fn digits_zero(m: Seq<u32>)
    ensures
        digits_value(m) == 0 <==> (forall|i: int| 0 <= i < m.len() ==> m[i] == 0),
    decreases m.len(),
{
    if m.len() > 0 {
        let t = m.drop_first();
        digits_zero(t);
        if forall|i: int| 0 <= i < m.len() ==> m[i] == 0 {
            assert(forall|i: int| 0 <= i < t.len() ==> t[i] == m[i + 1]);
            assert(m[0] == 0);
        }
        if digits_value(m) == 0 {
            assert forall|i: int| 0 <= i < m.len() implies m[i] == 0 by {
                if i > 0 {
                    assert(m[i] == t[i - 1]);
                }
            }
        }
    }
}

impl Clone for Int {
    fn clone(&self) -> (r: Int)
        ensures
            r@ == self@,
    {
        let mut mag: Vec<u32> = Vec::new();
        let mut i: usize = 0;
        while i < self.mag.len()
            invariant
                i <= self.mag.len(),
                mag@ == self.mag@.take(i as int),
            decreases self.mag.len() - i,
        {
            mag.push(self.mag[i]);
            i += 1;
            assert(mag@ =~= self.mag@.take(i as int));
        }
        assert(mag@ =~= self.mag@);
        Int { neg: self.neg, mag }
    }
}

impl Int {
    /// The integer zero.
    pub fn zero() -> (r: Int)
        ensures
            r@ == 0,
    {
        Int { neg: false, mag: Vec::new() }
    }

    /// The integer of a machine word.
    pub fn from_u64(n: u64) -> (r: Int)
        ensures
            r@ == n,
    {
        let lo: u32 = (n % 0x1_0000_0000) as u32;
        let hi: u32 = (n / 0x1_0000_0000) as u32;
        let mut mag: Vec<u32> = Vec::new();
        mag.push(lo);
        mag.push(hi);
        proof {
            assert(mag@.drop_first() =~= seq![hi]);
            assert(mag@.drop_first().drop_first() =~= Seq::<u32>::empty());
            reveal_with_fuel(digits_value, 3);
        }
        Int { neg: false, mag }
    }

    /// The integer of a machine integer.
    pub fn from_i64(n: i64) -> (r: Int)
        ensures
            r@ == n,
    {
        if n >= 0 {
            Int::from_u64(n as u64)
        } else if n == i64::MIN {
            let m = Int::from_u64(0x8000_0000_0000_0000);
            Int { neg: true, mag: m.mag }
        } else {
            let m = Int::from_u64((-n) as u64);
            Int { neg: true, mag: m.mag }
        }
    }

    /// Whether the integer is zero.
    pub fn is_zero(&self) -> (r: bool)
        ensures
            r == (self@ == 0),
    {
        proof {
            digits_zero(self.mag@);
        }
        let mut i: usize = 0;
        while i < self.mag.len()
            invariant
                i <= self.mag.len(),
                forall|k: int| 0 <= k < i ==> self.mag@[k] == 0,
                digits_value(self.mag@) == 0 <==> (forall|k: int|
                    0 <= k < self.mag@.len() ==> self.mag@[k] == 0),
            decreases self.mag.len() - i,
        {
            if self.mag[i] != 0 {
                return false;
            }
            i += 1;
        }
        true
    }

    /// Whether the integer is less than zero.
    pub fn is_negative(&self) -> (r: bool)
        ensures
            r == (self@ < 0),
    {
        self.neg && !self.is_zero()
    }

    /// Sum.
    pub fn plus(&self, o: &Int) -> (r: Int)
        ensures
            r@ == self@ + o@,
    {
        int_add(self, o)
    }

    /// Difference.
    pub fn minus(&self, o: &Int) -> (r: Int)
        ensures
            r@ == self@ - o@,
    {
        int_sub(self, o)
    }

    /// Product.
    pub fn times(&self, o: &Int) -> (r: Int)
        ensures
            r@ == self@ * o@,
    {
        int_mul(self, o)
    }

    /// Quotient, rounded towards zero.
    pub fn quotient(&self, o: &Int) -> (r: Int)
        requires
            o@ != 0,
        ensures
            r@ == quot(self@, o@),
    {
        int_quot(self, o)
    }

    /// Negation.
    pub fn negated(&self) -> (r: Int)
        ensures
            r@ == -self@,
    {
        let c = self.clone();
        Int { neg: !c.neg, mag: c.mag }
    }

    /// Equality of values.
    pub fn same(&self, o: &Int) -> (r: bool)
        ensures
            r == (self@ == o@),
    {
        int_sub(self, o).is_zero()
    }

    /// Strict order.
    pub fn less(&self, o: &Int) -> (r: bool)
        ensures
            r == (self@ < o@),
    {
        int_sub(self, o).is_negative()
    }

    /// The decimal numeral.
    pub fn text(&self) -> (r: String)
        ensures
            r@ == dec(self@),
    {
        int_to_text(self)
    }

    /// The integer that a decimal text denotes.
    pub fn parse(s: &str) -> (r: Option<Int>)
        ensures
            match r {
                Some(x) => parse_int(s@) == Some(x@),
                None => parse_int(s@) is None,
            },
    {
        int_from_text(s)
    }

    /// The natural number that a text denotes in the radix.
    pub fn parse_radix(s: &str, radix: u32) -> (r: Option<Int>)
        requires
            2 <= radix <= 36,
        ensures
            match r {
                Some(x) => 0 <= x@ && parse_nat(s@, radix as nat) == Some(x@ as nat),
                None => parse_nat(s@, radix as nat) is None,
            },
    {
        nat_from_text(s, radix)
    }

    /// The integer as a machine word, where it fits.
    pub fn to_u64(&self) -> (r: Option<u64>)
        ensures
            match r {
                Some(n) => n == self@,
                None => self@ < 0 || self@ > u64::MAX,
            },
    {
        if self.is_negative() {
            return None;
        }
        proof {
            digits_zero(self.mag@);
        }
        if self.is_zero() {
            return Some(0);
        }
        assert(!self.neg);
        let n: usize = self.mag.len();
        assert(n > 0) by {
            if n == 0 {
                assert(digits_value(self.mag@) == 0);
            }
        }
        let ghost m = self.mag@;
        let ghost t = m.drop_first();
        let lo: u64 = self.mag[0] as u64;
        if n == 1 {
            assert(digits_value(t) == 0);
            return Some(lo);
        }
        let hi: u64 = self.mag[1] as u64;
        let ghost u = t.drop_first();
        proof {
            digits_zero(u);
            assert(t[0] == m[1]);
            assert(digits_value(t) == t[0] as nat + 0x1_0000_0000 * digits_value(u));
            assert(digits_value(m) == m[0] as nat + 0x1_0000_0000 * digits_value(t));
        }
        let mut i: usize = 2;
        while i < n
            invariant
                2 <= i <= n,
                n == self.mag.len(),
                m == self.mag@,
                u == m.drop_first().drop_first(),
                forall|k: int| 2 <= k < i ==> m[k] == 0,
                self@ == digits_value(m),
                digits_value(m) == m[0] as nat + 0x1_0000_0000 * (m[1] as nat + 0x1_0000_0000
                    * digits_value(u)),
                digits_value(u) == 0 <==> (forall|k: int| 0 <= k < u.len() ==> u[k] == 0),
            decreases n - i,
        {
            if self.mag[i] != 0 {
                assert(u[i - 2] == m[i as int]);
                assert(digits_value(u) >= 1);
                return None;
            }
            i += 1;
        }
        assert(forall|k: int| 0 <= k < u.len() ==> u[k] == m[k + 2]);
        Some(lo + 0x1_0000_0000 * hi)
    }
}

/// A rational number in lowest terms.
#[derive(Debug)]
pub struct Rat {
    num: Int,
    den: Int,
}

impl View for Rat {
    type V = Q;

    closed spec fn view(&self) -> Q {
        Q { n: self.num@, d: self.den@ }
    }
}

impl Q {
    /// Lowest terms, with a positive denominator.
    pub open spec fn wf(self) -> bool {
        self.d > 0 && gcd(abs(self.n), self.d as nat) == 1
    }
}

impl Rat {
    #[verifier::type_invariant]
    spec fn inv(self) -> bool {
        self.den@ > 0 && gcd(abs(self.num@), self.den@ as nat) == 1
    }
}

/// `num_rational::BigRational::new`: the fraction of two integers, in lowest terms with a
/// positive denominator. It panics on a zero denominator.
#[verifier::external_body]
fn rat_new(n: &Int, d: &Int) -> (r: Rat)
    requires
        d@ != 0,
    ensures
        r@ == ratio(n@, d@),
        r@.wf(),
{
    let x = BigInt::from_slice(if n.neg { Sign::Minus } else { Sign::Plus }, &n.mag);
    let y = BigInt::from_slice(if d.neg { Sign::Minus } else { Sign::Plus }, &d.mag);
    let (a, b) = BigRational::new(x, y).into_raw();
    let ((s, num), (t, den)) = (a.to_u32_digits(), b.to_u32_digits());
    Rat { num: Int { neg: s == Sign::Minus, mag: num }, den: Int { neg: t == Sign::Minus, mag: den } }
}


proof fn gcd_one(n: nat)
    ensures
        gcd(n, 1) == 1,
{
    reveal_with_fuel(gcd, 3);
}

impl Clone for Rat {
    fn clone(&self) -> (r: Rat)
        ensures
            r@ == self@,
    {
        proof {
            use_type_invariant(self);
        }
        Rat { num: self.num.clone(), den: self.den.clone() }
    }
}

impl Rat {
    /// The fraction of two integers.
    pub fn new(n: &Int, d: &Int) -> (r: Rat)
        requires
            d@ != 0,
        ensures
            r@ == ratio(n@, d@),
    {
        rat_new(n, d)
    }

    /// The whole number `n`.
    pub fn from_integer(n: Int) -> (r: Rat)
        ensures
            r@ == Q::whole(n@),
    {
        let den = Int::from_u64(1);
        proof {
            gcd_one(abs(n@));
        }
        Rat { num: n, den }
    }

    /// Zero.
    pub fn zero() -> (r: Rat)
        ensures
            r@ == Q::whole(0),
    {
        Rat::from_integer(Int::zero())
    }

    /// The numerator.
    pub fn numer(&self) -> (r: &Int)
        ensures
            r@ == self@.n,
    {
        &self.num
    }

    /// The denominator.
    pub fn denom(&self) -> (r: &Int)
        ensures
            r@ == self@.d,
            r@ > 0,
    {
        proof {
            use_type_invariant(self);
        }
        &self.den
    }

    /// Sum.
    pub fn plus(&self, o: &Rat) -> (r: Rat)
        ensures
            r@ == self@.plus(o@),
    {
        proof {
            use_type_invariant(self);
            use_type_invariant(o);
            positive_product(self.den@, o.den@);
        }
        let n = self.num.times(&o.den).plus(&o.num.times(&self.den));
        Rat::new(&n, &self.den.times(&o.den))
    }

    /// Difference.
    pub fn minus(&self, o: &Rat) -> (r: Rat)
        ensures
            r@ == self@.minus(o@),
    {
        proof {
            use_type_invariant(self);
            use_type_invariant(o);
            positive_product(self.den@, o.den@);
        }
        let n = self.num.times(&o.den).minus(&o.num.times(&self.den));
        Rat::new(&n, &self.den.times(&o.den))
    }

    /// Product.
    pub fn times(&self, o: &Rat) -> (r: Rat)
        ensures
            r@ == self@.times(o@),
    {
        proof {
            use_type_invariant(self);
            use_type_invariant(o);
            positive_product(self.den@, o.den@);
        }
        Rat::new(&self.num.times(&o.num), &self.den.times(&o.den))
    }

    /// Quotient.
    pub fn over(&self, o: &Rat) -> (r: Rat)
        requires
            o@.n != 0,
        ensures
            r@ == self@.over(o@),
    {
        proof {
            use_type_invariant(self);
            nonzero_product(self.den@, o.num@);
        }
        Rat::new(&self.num.times(&o.den), &self.den.times(&o.num))
    }

    /// Negation.
    pub fn negated(&self) -> (r: Rat)
        ensures
            r@ == self@.neg(),
    {
        proof {
            use_type_invariant(self);
        }
        Rat { num: self.num.negated(), den: self.den.clone() }
    }

    /// Equality of values.
    pub fn same(&self, o: &Rat) -> (r: bool)
        ensures
            r == (self@ == o@),
    {
        self.num.same(&o.num) && self.den.same(&o.den)
    }

    /// Strict order.
    pub fn less(&self, o: &Rat) -> (r: bool)
        ensures
            r == self@.less(o@),
    {
        self.num.times(&o.den).less(&o.num.times(&self.den))
    }

    /// Order.
    pub fn at_most(&self, o: &Rat) -> (r: bool)
        ensures
            r == self@.at_most(o@),
    {
        !o.num.times(&self.den).less(&self.num.times(&o.den))
    }

    /// Whether the value is zero.
    pub fn is_zero(&self) -> (r: bool)
        ensures
            r == (self@.n == 0),
    {
        self.num.is_zero()
    }

    /// Whether the value is less than zero.
    pub fn is_negative(&self) -> (r: bool)
        ensures
            r == (self@.n < 0),
    {
        self.num.is_negative()
    }

    /// Whether the value is a whole number.
    pub fn is_integer(&self) -> (r: bool)
        ensures
            r == self@.is_int(),
    {
        self.den.same(&Int::from_u64(1))
    }
}

proof fn positive_product(a: int, b: int)
    requires
        a > 0,
        b > 0,
    ensures
        a * b > 0,
{
    assert(a * b > 0) by (nonlinear_arith)
        requires
            a > 0,
            b > 0,
    ;
}

proof fn nonzero_product(a: int, b: int)
    requires
        a != 0,
        b != 0,
    ensures
        a * b != 0,
{
    assert(a * b != 0) by (nonlinear_arith)
        requires
            a != 0,
            b != 0,
    ;
}

/// Division with a remainder that is never negative: quotient and remainder.
pub open spec fn euclid_spec(a: int, b: int) -> (int, int)
    recommends
        b != 0,
{
    (a / b, a % b)
}

/// Euclidean division: `a == q * b + r` with `0 <= r < |b|`.
pub fn euclid(a: &Int, b: &Int) -> (r: (Int, Int))
    requires
        b@ != 0,
    ensures
        (r.0@, r.1@) == euclid_spec(a@, b@),
        a@ == r.0@ * b@ + r.1@,
        0 <= r.1@ < abs(b@),
{
    let q = a.quotient(b);
    let r = a.minus(&q.times(b));
    let one = Int::from_u64(1);
    proof {
        quot_facts(a@, b@);
    }
    if r.is_negative() {
        if !b.is_negative() {
            let q2 = q.minus(&one);
            let r2 = r.plus(b);
            proof {
                assert((q@ - 1) * b@ == q@ * b@ - b@) by (nonlinear_arith);
                euclid_unique(a@, b@, q2@, r2@);
            }
            (q2, r2)
        } else {
            let q2 = q.plus(&one);
            let r2 = r.minus(b);
            proof {
                assert((q@ + 1) * b@ == q@ * b@ + b@) by (nonlinear_arith);
                euclid_unique(a@, b@, q2@, r2@);
            }
            (q2, r2)
        }
    } else {
        proof {
            euclid_unique(a@, b@, q@, r@);
        }
        (q, r)
    }
}

proof fn quot_facts(a: int, b: int)
    requires
        b != 0,
    ensures
        abs(a - quot(a, b) * b) < abs(b),
{
    let x = abs(a) as int;
    let y = abs(b) as int;
    let q = x / y;
    assert(x == q * y + x % y && 0 <= x % y < y) by (nonlinear_arith)
        requires
            y > 0,
            q == x / y,
    ;
    assert((-q) * b == -(q * b)) by (nonlinear_arith);
    assert(q * (-b) == -(q * b)) by (nonlinear_arith);
}

proof fn euclid_unique(a: int, b: int, q: int, r: int)
    requires
        b != 0,
        a == q * b + r,
        0 <= r < abs(b),
    ensures
        q == a / b,
        r == a % b,
{
    assert(q == a / b && r == a % b) by (nonlinear_arith)
        requires
            b != 0,
            a == q * b + r,
            0 <= r < (if b < 0 {
                -b
            } else {
                b
            }),
    ;
}

} // verus!
