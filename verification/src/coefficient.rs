//! Coefficients of formal sums: elements of a commutative ring.

use vstd::prelude::*;

verus! {

/// A ring element that can stand as the weight of a term.
///
/// The `*_spec` functions are the ring's operations as mathematics; the
/// executable methods compute them. The proof methods are the ring laws that
/// every implementation has to establish.
pub trait Coefficient: Copy {
    /// The additive identity.
    spec fn ring_zero() -> Self;

    /// The multiplicative identity.
    spec fn ring_one() -> Self;

    /// Ring addition.
    spec fn ring_add(self, rhs: Self) -> Self;

    /// Additive inverse.
    spec fn ring_neg(self) -> Self;

    /// Ring multiplication.
    spec fn ring_mul(self, rhs: Self) -> Self;

    /// The additive identity.
    fn zero() -> (r: Self)
        ensures
            r == Self::ring_zero(),
    ;

    /// The multiplicative identity.
    fn one() -> (r: Self)
        ensures
            r == Self::ring_one(),
    ;

    /// Whether this is the additive identity.
    fn is_zero(&self) -> (b: bool)
        ensures
            b == (*self == Self::ring_zero()),
    ;

    /// Whether the two are the same element.
    fn same(&self, other: &Self) -> (b: bool)
        ensures
            b == (*self == *other),
    ;

    /// The sum.
    fn plus(self, rhs: Self) -> (r: Self)
        ensures
            r == self.ring_add(rhs),
    ;

    /// The difference: the sum with the negation of `rhs`.
    fn minus(self, rhs: Self) -> (r: Self)
        ensures
            r == self.ring_add(rhs.ring_neg()),
    ;

    /// The additive inverse.
    fn negated(self) -> (r: Self)
        ensures
            r == self.ring_neg(),
    ;

    /// The product.
    fn times(self, rhs: Self) -> (r: Self)
        ensures
            r == self.ring_mul(rhs),
    ;

    /// Addition is commutative.
    proof fn lemma_add_commutative(a: Self, b: Self)
        ensures
            a.ring_add(b) == b.ring_add(a),
    ;

    /// Addition is associative.
    proof fn lemma_add_associative(a: Self, b: Self, c: Self)
        ensures
            a.ring_add(b).ring_add(c) == a.ring_add(b.ring_add(c)),
    ;

    /// Zero is neutral for addition.
    proof fn lemma_add_zero(a: Self)
        ensures
            a.ring_add(Self::ring_zero()) == a,
    ;

    /// Every element cancels against its negation.
    proof fn lemma_add_negation(a: Self)
        ensures
            a.ring_add(a.ring_neg()) == Self::ring_zero(),
    ;

    /// One is neutral for multiplication, on either side.
    proof fn lemma_mul_one(a: Self)
        ensures
            a.ring_mul(Self::ring_one()) == a,
            Self::ring_one().ring_mul(a) == a,
    ;

    /// Multiplication is associative.
    proof fn lemma_mul_associative(a: Self, b: Self, c: Self)
        ensures
            a.ring_mul(b).ring_mul(c) == a.ring_mul(b.ring_mul(c)),
    ;

    /// Multiplication distributes over addition, on either side.
    proof fn lemma_mul_distributive(a: Self, b: Self, c: Self)
        ensures
            a.ring_mul(b.ring_add(c)) == a.ring_mul(b).ring_add(a.ring_mul(c)),
            a.ring_add(b).ring_mul(c) == a.ring_mul(c).ring_add(b.ring_mul(c)),
    ;

    /// A product with zero is zero.
    proof fn lemma_mul_zero(a: Self)
        ensures
            a.ring_mul(Self::ring_zero()) == Self::ring_zero(),
            Self::ring_zero().ring_mul(a) == Self::ring_zero(),
    ;
}

/// Two integers that differ by a multiple of `m`.
pub open spec fn congruent(a: int, b: int, m: int) -> bool {
    a % m == b % m
}

/// Sums of congruent integers are congruent.
pub proof fn lemma_congruent_add(a: int, b: int, c: int, d: int, m: int)
    requires
        m > 0,
        congruent(a, b, m),
        congruent(c, d, m),
    ensures
        congruent(a + c, b + d, m),
{
    vstd::arithmetic::div_mod::lemma_add_mod_noop(a, c, m);
    vstd::arithmetic::div_mod::lemma_add_mod_noop(b, d, m);
}

/// Products of congruent integers are congruent.
pub proof fn lemma_congruent_mul(a: int, b: int, c: int, d: int, m: int)
    requires
        m > 0,
        congruent(a, b, m),
        congruent(c, d, m),
    ensures
        congruent(a * c, b * d, m),
{
    vstd::arithmetic::div_mod::lemma_mul_mod_noop(a, c, m);
    vstd::arithmetic::div_mod::lemma_mul_mod_noop(b, d, m);
}

/// Congruent integers that lie in one window of length `m` are equal.
pub proof fn lemma_congruent_equal(a: int, b: int, m: int, low: int)
    requires
        m > 0,
        congruent(a, b, m),
        low <= a < low + m,
        low <= b < low + m,
    ensures
        a == b,
{
    vstd::arithmetic::div_mod::lemma_fundamental_div_mod(a, m);
    vstd::arithmetic::div_mod::lemma_fundamental_div_mod(b, m);
    let qa = a / m;
    let qb = b / m;
    if qa != qb {
        assert(a - b == m * (qa - qb)) by (nonlinear_arith)
            requires
                a == m * qa + a % m,
                b == m * qb + b % m,
                a % m == b % m,
        ;
        if qa > qb {
            assert(m * (qa - qb) >= m) by (nonlinear_arith)
                requires
                    qa - qb >= 1,
                    m > 0,
            ;
        } else {
            assert(m * (qa - qb) <= -m) by (nonlinear_arith)
                requires
                    qa - qb <= -1,
                    m > 0,
            ;
        }
    }
}

/// What wraps around `2^32` is congruent to what was meant.
pub proof fn lemma_wrap_32(a: i32, b: i32)
    ensures
        congruent(a.ring_add(b) as int, a + b, 0x1_0000_0000),
        congruent(a.ring_mul(b) as int, a * b, 0x1_0000_0000),
        congruent(a.ring_neg() as int, -a, 0x1_0000_0000),
{
    let m = 0x1_0000_0000int;
    vstd::arithmetic::div_mod::lemma_mod_add_multiples_vanish(a + b, m);
    vstd::arithmetic::div_mod::lemma_mod_sub_multiples_vanish(a + b, m);
    vstd::arithmetic::div_mod::lemma_mod_add_multiples_vanish(-a, m);
    vstd::arithmetic::div_mod::lemma_mod_sub_multiples_vanish(-a, m);
    let p = a * b;
    vstd::arithmetic::div_mod::lemma_mod_twice(p, m);
    vstd::arithmetic::div_mod::lemma_mod_sub_multiples_vanish(p % m, m);
    vstd::arithmetic::div_mod::lemma_mod_bound(p, m);
}


/// What wraps around `2^64` is congruent to what was meant.
pub proof fn lemma_wrap_64(a: i64, b: i64)
    ensures
        congruent(a.ring_add(b) as int, a + b, 0x1_0000_0000_0000_0000),
        congruent(a.ring_mul(b) as int, a * b, 0x1_0000_0000_0000_0000),
        congruent(a.ring_neg() as int, -a, 0x1_0000_0000_0000_0000),
{
    let m = 0x1_0000_0000_0000_0000int;
    vstd::arithmetic::div_mod::lemma_mod_add_multiples_vanish(a + b, m);
    vstd::arithmetic::div_mod::lemma_mod_sub_multiples_vanish(a + b, m);
    vstd::arithmetic::div_mod::lemma_mod_add_multiples_vanish(-a, m);
    vstd::arithmetic::div_mod::lemma_mod_sub_multiples_vanish(-a, m);
    let p = a * b;
    vstd::arithmetic::div_mod::lemma_mod_twice(p, m);
    vstd::arithmetic::div_mod::lemma_mod_sub_multiples_vanish(p % m, m);
    vstd::arithmetic::div_mod::lemma_mod_bound(p, m);
}

/// The wrapped sum of two values stands for the sum of what they stand for.
pub proof fn lemma_sum_stands_for(p: i32, p_int: int, q: i32, q_int: int)
    requires
        congruent(p as int, p_int, 0x1_0000_0000),
        congruent(q as int, q_int, 0x1_0000_0000),
    ensures
        congruent(p.ring_add(q) as int, p_int + q_int, 0x1_0000_0000),
{
    let m = 0x1_0000_0000int;
    lemma_wrap_32(p, q);
    lemma_congruent_add(p as int, p_int, q as int, q_int, m);
}

/// The wrapped product of two values stands for the product of what they stand for.
pub proof fn lemma_product_stands_for(p: i32, p_int: int, q: i32, q_int: int)
    requires
        congruent(p as int, p_int, 0x1_0000_0000),
        congruent(q as int, q_int, 0x1_0000_0000),
    ensures
        congruent(p.ring_mul(q) as int, p_int * q_int, 0x1_0000_0000),
{
    let m = 0x1_0000_0000int;
    lemma_wrap_32(p, q);
    lemma_congruent_mul(p as int, p_int, q as int, q_int, m);
}

/// The wrapped negation of a value stands for the negation of what it stands for.
pub proof fn lemma_negation_stands_for(p: i32, p_int: int)
    requires
        congruent(p as int, p_int, 0x1_0000_0000),
    ensures
        congruent(p.ring_neg() as int, -p_int, 0x1_0000_0000),
{
    let m = 0x1_0000_0000int;
    lemma_wrap_32(p, p);
    lemma_congruent_mul(p as int, p_int, -1, -1, m);
    assert(p * (-1) == -p) by (nonlinear_arith);
    assert(p_int * (-1) == -p_int) by (nonlinear_arith);
}

impl Coefficient for i32 {
    open spec fn ring_zero() -> i32 {
        0i32
    }

    open spec fn ring_one() -> i32 {
        1i32
    }

    open spec fn ring_add(self, rhs: i32) -> i32 {
        vstd::wrapping::i32_specs::wrapping_add(self, rhs)
    }

    open spec fn ring_neg(self) -> i32 {
        vstd::wrapping::i32_specs::wrapping_sub(0i32, self)
    }

    open spec fn ring_mul(self, rhs: i32) -> i32 {
        vstd::wrapping::i32_specs::wrapping_mul(self, rhs)
    }

    fn zero() -> (r: i32) {
        0i32
    }

    fn one() -> (r: i32) {
        1i32
    }

    fn is_zero(&self) -> (b: bool) {
        *self == 0i32
    }

    fn same(&self, other: &i32) -> (b: bool) {
        *self == *other
    }

    fn plus(self, rhs: i32) -> (r: i32) {
        self.wrapping_add(rhs)
    }

    fn minus(self, rhs: i32) -> (r: i32) {
        self.wrapping_sub(rhs)
    }

    fn negated(self) -> (r: i32) {
        0i32.wrapping_sub(self)
    }

    fn times(self, rhs: i32) -> (r: i32) {
        self.wrapping_mul(rhs)
    }

    proof fn lemma_add_commutative(a: i32, b: i32) {
    }

    proof fn lemma_add_associative(a: i32, b: i32, c: i32) {
    }

    proof fn lemma_add_zero(a: i32) {
    }

    proof fn lemma_add_negation(a: i32) {
    }

    proof fn lemma_mul_one(a: i32) {
    }

    proof fn lemma_mul_associative(a: i32, b: i32, c: i32) {
        let m = 0x1_0000_0000int;
        lemma_wrap_32(a, b);
        lemma_wrap_32(b, c);
        lemma_wrap_32(a.ring_mul(b), c);
        lemma_wrap_32(a, b.ring_mul(c));
        lemma_congruent_mul(a.ring_mul(b) as int, a * b, c as int, c as int, m);
        lemma_congruent_mul(a as int, a as int, b.ring_mul(c) as int, b * c, m);
        assert((a * b) * c == a * (b * c)) by (nonlinear_arith);
        lemma_congruent_equal(
            a.ring_mul(b).ring_mul(c) as int,
            a.ring_mul(b.ring_mul(c)) as int,
            m,
            -0x8000_0000,
        );
    }

    proof fn lemma_mul_distributive(a: i32, b: i32, c: i32) {
        let m = 0x1_0000_0000int;
        lemma_wrap_32(b, c);
        lemma_wrap_32(a, b.ring_add(c));
        lemma_wrap_32(a, b);
        lemma_wrap_32(a, c);
        lemma_wrap_32(a.ring_mul(b), a.ring_mul(c));
        lemma_congruent_mul(a as int, a as int, b.ring_add(c) as int, b + c, m);
        lemma_congruent_add(a.ring_mul(b) as int, a * b, a.ring_mul(c) as int, a * c, m);
        assert(a * (b + c) == a * b + a * c) by (nonlinear_arith);
        lemma_congruent_equal(
            a.ring_mul(b.ring_add(c)) as int,
            a.ring_mul(b).ring_add(a.ring_mul(c)) as int,
            m,
            -0x8000_0000,
        );
        lemma_wrap_32(a, b);
        lemma_wrap_32(a.ring_add(b), c);
        lemma_wrap_32(b, c);
        lemma_wrap_32(a.ring_mul(c), b.ring_mul(c));
        lemma_congruent_mul(a.ring_add(b) as int, a + b, c as int, c as int, m);
        lemma_congruent_add(a.ring_mul(c) as int, a * c, b.ring_mul(c) as int, b * c, m);
        assert((a + b) * c == a * c + b * c) by (nonlinear_arith);
        lemma_congruent_equal(
            a.ring_add(b).ring_mul(c) as int,
            a.ring_mul(c).ring_add(b.ring_mul(c)) as int,
            m,
            -0x8000_0000,
        );
    }

    proof fn lemma_mul_zero(a: i32) {
    }
}

impl Coefficient for i64 {
    open spec fn ring_zero() -> i64 {
        0i64
    }

    open spec fn ring_one() -> i64 {
        1i64
    }

    open spec fn ring_add(self, rhs: i64) -> i64 {
        vstd::wrapping::i64_specs::wrapping_add(self, rhs)
    }

    open spec fn ring_neg(self) -> i64 {
        vstd::wrapping::i64_specs::wrapping_sub(0i64, self)
    }

    open spec fn ring_mul(self, rhs: i64) -> i64 {
        vstd::wrapping::i64_specs::wrapping_mul(self, rhs)
    }

    fn zero() -> (r: i64) {
        0i64
    }

    fn one() -> (r: i64) {
        1i64
    }

    fn is_zero(&self) -> (b: bool) {
        *self == 0i64
    }

    fn same(&self, other: &i64) -> (b: bool) {
        *self == *other
    }

    fn plus(self, rhs: i64) -> (r: i64) {
        self.wrapping_add(rhs)
    }

    fn minus(self, rhs: i64) -> (r: i64) {
        self.wrapping_sub(rhs)
    }

    fn negated(self) -> (r: i64) {
        0i64.wrapping_sub(self)
    }

    fn times(self, rhs: i64) -> (r: i64) {
        self.wrapping_mul(rhs)
    }

    proof fn lemma_add_commutative(a: i64, b: i64) {
    }

    proof fn lemma_add_associative(a: i64, b: i64, c: i64) {
    }

    proof fn lemma_add_zero(a: i64) {
    }

    proof fn lemma_add_negation(a: i64) {
    }

    proof fn lemma_mul_one(a: i64) {
    }

    proof fn lemma_mul_associative(a: i64, b: i64, c: i64) {
        let m = 0x1_0000_0000_0000_0000int;
        lemma_wrap_64(a, b);
        lemma_wrap_64(b, c);
        lemma_wrap_64(a.ring_mul(b), c);
        lemma_wrap_64(a, b.ring_mul(c));
        lemma_congruent_mul(a.ring_mul(b) as int, a * b, c as int, c as int, m);
        lemma_congruent_mul(a as int, a as int, b.ring_mul(c) as int, b * c, m);
        assert((a * b) * c == a * (b * c)) by (nonlinear_arith);
        lemma_congruent_equal(
            a.ring_mul(b).ring_mul(c) as int,
            a.ring_mul(b.ring_mul(c)) as int,
            m,
            -0x8000_0000_0000_0000,
        );
    }

    proof fn lemma_mul_distributive(a: i64, b: i64, c: i64) {
        let m = 0x1_0000_0000_0000_0000int;
        lemma_wrap_64(b, c);
        lemma_wrap_64(a, b.ring_add(c));
        lemma_wrap_64(a, b);
        lemma_wrap_64(a, c);
        lemma_wrap_64(a.ring_mul(b), a.ring_mul(c));
        lemma_congruent_mul(a as int, a as int, b.ring_add(c) as int, b + c, m);
        lemma_congruent_add(a.ring_mul(b) as int, a * b, a.ring_mul(c) as int, a * c, m);
        assert(a * (b + c) == a * b + a * c) by (nonlinear_arith);
        lemma_congruent_equal(
            a.ring_mul(b.ring_add(c)) as int,
            a.ring_mul(b).ring_add(a.ring_mul(c)) as int,
            m,
            -0x8000_0000_0000_0000,
        );
        lemma_wrap_64(a.ring_add(b), c);
        lemma_wrap_64(a.ring_mul(c), b.ring_mul(c));
        lemma_congruent_mul(a.ring_add(b) as int, a + b, c as int, c as int, m);
        lemma_congruent_add(a.ring_mul(c) as int, a * c, b.ring_mul(c) as int, b * c, m);
        assert((a + b) * c == a * c + b * c) by (nonlinear_arith);
        lemma_congruent_equal(
            a.ring_add(b).ring_mul(c) as int,
            a.ring_mul(c).ring_add(b.ring_mul(c)) as int,
            m,
            -0x8000_0000_0000_0000,
        );
    }

    proof fn lemma_mul_zero(a: i64) {
    }
}

/// A complex number with integer parts. Each part is an integer modulo
/// `2^32`, so that the arithmetic never fails and the ring laws hold exactly.
#[derive(Clone, Copy, PartialEq, Eq, Structural, Debug)]
pub struct Complex {
    pub re: i32,
    pub im: i32,
}

impl Complex {
    /// The number with real part `re` and imaginary part `im`.
    pub fn new(re: i32, im: i32) -> (r: Complex)
        ensures
            r == (Complex { re, im }),
    {
        Complex { re, im }
    }

    /// The complex conjugate as mathematics.
    pub open spec fn conj_spec(self) -> Complex {
        Complex { re: self.re, im: self.im.ring_neg() }
    }

    /// The complex conjugate: the imaginary part changes its sign.
    pub fn conj(&self) -> (r: Complex)
        ensures
            r == self.conj_spec(),
    {
        Complex { re: self.re, im: self.im.negated() }
    }

    /// Conjugating twice gives the number back.
    pub proof fn lemma_conj_involution(self)
        ensures
            self.conj_spec().conj_spec() == self,
    {
    }
}

impl Coefficient for Complex {
    open spec fn ring_zero() -> Complex {
        Complex { re: 0i32, im: 0i32 }
    }

    open spec fn ring_one() -> Complex {
        Complex { re: 1i32, im: 0i32 }
    }

    open spec fn ring_add(self, rhs: Complex) -> Complex {
        Complex { re: self.re.ring_add(rhs.re), im: self.im.ring_add(rhs.im) }
    }

    open spec fn ring_neg(self) -> Complex {
        Complex { re: self.re.ring_neg(), im: self.im.ring_neg() }
    }

    open spec fn ring_mul(self, rhs: Complex) -> Complex {
        Complex {
            re: self.re.ring_mul(rhs.re).ring_add(self.im.ring_mul(rhs.im).ring_neg()),
            im: self.re.ring_mul(rhs.im).ring_add(self.im.ring_mul(rhs.re)),
        }
    }

    fn zero() -> (r: Complex) {
        Complex { re: 0i32, im: 0i32 }
    }

    fn one() -> (r: Complex) {
        Complex { re: 1i32, im: 0i32 }
    }

    fn is_zero(&self) -> (b: bool) {
        self.re == 0i32 && self.im == 0i32
    }

    fn same(&self, other: &Complex) -> (b: bool) {
        self.re == other.re && self.im == other.im
    }

    fn plus(self, rhs: Complex) -> (r: Complex) {
        Complex { re: self.re.plus(rhs.re), im: self.im.plus(rhs.im) }
    }

    fn minus(self, rhs: Complex) -> (r: Complex) {
        Complex { re: self.re.minus(rhs.re), im: self.im.minus(rhs.im) }
    }

    fn negated(self) -> (r: Complex) {
        Complex { re: self.re.negated(), im: self.im.negated() }
    }

    fn times(self, rhs: Complex) -> (r: Complex) {
        Complex {
            re: self.re.times(rhs.re).plus(self.im.times(rhs.im).negated()),
            im: self.re.times(rhs.im).plus(self.im.times(rhs.re)),
        }
    }

    proof fn lemma_add_commutative(a: Complex, b: Complex) {
    }

    proof fn lemma_add_associative(a: Complex, b: Complex, c: Complex) {
    }

    proof fn lemma_add_zero(a: Complex) {
    }

    proof fn lemma_add_negation(a: Complex) {
    }

    proof fn lemma_mul_one(a: Complex) {
    }

    proof fn lemma_mul_associative(a: Complex, b: Complex, c: Complex) {
        let m = 0x1_0000_0000int;
        let (ar, ai, br, bi, cr, ci) = (
            a.re as int,
            a.im as int,
            b.re as int,
            b.im as int,
            c.re as int,
            c.im as int,
        );
        let ab = a.ring_mul(b);
        let bc = b.ring_mul(c);
        lemma_complex_product(a, ar, ai, b, br, bi);
        lemma_complex_product(b, br, bi, c, cr, ci);
        lemma_complex_product(ab, ar * br - ai * bi, ar * bi + ai * br, c, cr, ci);
        lemma_complex_product(a, ar, ai, bc, br * cr - bi * ci, br * ci + bi * cr);
        lemma_expand(ar * br, ai * bi, cr);
        lemma_expand(ar * bi, -(ai * br), ci);
        lemma_expand(ar * br, ai * bi, ci);
        lemma_expand(ar * bi, -(ai * br), cr);
        lemma_expand_left(ar, br * cr, bi * ci);
        lemma_expand_left(ai, br * ci, -(bi * cr));
        lemma_expand_left(ar, br * ci, -(bi * cr));
        lemma_expand_left(ai, br * cr, bi * ci);
        lemma_regroup(ar, br, cr);
        lemma_regroup(ai, bi, cr);
        lemma_regroup(ar, bi, ci);
        lemma_regroup(ai, br, ci);
        lemma_regroup(ar, br, ci);
        lemma_regroup(ai, bi, ci);
        lemma_regroup(ar, bi, cr);
        lemma_regroup(ai, br, cr);
        assert((ar * br - ai * bi) * cr - (ar * bi + ai * br) * ci == ar * (br * cr - bi * ci) - ai
            * (br * ci + bi * cr));
        assert((ar * br - ai * bi) * ci + (ar * bi + ai * br) * cr == ar * (br * ci + bi * cr) + ai
            * (br * cr - bi * ci));
        lemma_congruent_equal(
            ab.ring_mul(c).re as int,
            a.ring_mul(bc).re as int,
            m,
            -0x8000_0000,
        );
        lemma_congruent_equal(
            ab.ring_mul(c).im as int,
            a.ring_mul(bc).im as int,
            m,
            -0x8000_0000,
        );
    }

    proof fn lemma_mul_distributive(a: Complex, b: Complex, c: Complex) {
        let m = 0x1_0000_0000int;
        let (ar, ai, br, bi, cr, ci) = (
            a.re as int,
            a.im as int,
            b.re as int,
            b.im as int,
            c.re as int,
            c.im as int,
        );
        // a * (b + c)
        let sum = b.ring_add(c);
        lemma_wrap_32(b.re, c.re);
        lemma_wrap_32(b.im, c.im);
        lemma_complex_product(a, ar, ai, sum, br + cr, bi + ci);
        lemma_complex_product(a, ar, ai, b, br, bi);
        lemma_complex_product(a, ar, ai, c, cr, ci);
        let ab = a.ring_mul(b);
        let ac = a.ring_mul(c);
        lemma_sum_stands_for(ab.re, ar * br - ai * bi, ac.re, ar * cr - ai * ci);
        lemma_sum_stands_for(ab.im, ar * bi + ai * br, ac.im, ar * ci + ai * cr);
        assert(ar * (br + cr) - ai * (bi + ci) == (ar * br - ai * bi) + (ar * cr - ai * ci))
            by (nonlinear_arith);
        assert(ar * (bi + ci) + ai * (br + cr) == (ar * bi + ai * br) + (ar * ci + ai * cr))
            by (nonlinear_arith);
        lemma_congruent_equal(
            a.ring_mul(sum).re as int,
            ab.ring_add(ac).re as int,
            m,
            -0x8000_0000,
        );
        lemma_congruent_equal(
            a.ring_mul(sum).im as int,
            ab.ring_add(ac).im as int,
            m,
            -0x8000_0000,
        );
        // (a + b) * c
        let left = a.ring_add(b);
        lemma_wrap_32(a.re, b.re);
        lemma_wrap_32(a.im, b.im);
        lemma_complex_product(left, ar + br, ai + bi, c, cr, ci);
        lemma_complex_product(b, br, bi, c, cr, ci);
        let bc = b.ring_mul(c);
        lemma_sum_stands_for(ac.re, ar * cr - ai * ci, bc.re, br * cr - bi * ci);
        lemma_sum_stands_for(ac.im, ar * ci + ai * cr, bc.im, br * ci + bi * cr);
        assert((ar + br) * cr - (ai + bi) * ci == (ar * cr - ai * ci) + (br * cr - bi * ci))
            by (nonlinear_arith);
        assert((ar + br) * ci + (ai + bi) * cr == (ar * ci + ai * cr) + (br * ci + bi * cr))
            by (nonlinear_arith);
        lemma_congruent_equal(
            left.ring_mul(c).re as int,
            ac.ring_add(bc).re as int,
            m,
            -0x8000_0000,
        );
        lemma_congruent_equal(
            left.ring_mul(c).im as int,
            ac.ring_add(bc).im as int,
            m,
            -0x8000_0000,
        );
    }

    proof fn lemma_mul_zero(a: Complex) {
    }
}

/// A difference times a number.
proof fn lemma_expand(x: int, y: int, c: int)
    ensures
        (x - y) * c == x * c - y * c,
        (x - (-y)) * c == x * c + y * c,
        (-y) * c == -(y * c),
{
    assert((x - y) * c == x * c - y * c) by (nonlinear_arith);
    assert((x - (-y)) * c == x * c + y * c) by (nonlinear_arith);
    assert((-y) * c == -(y * c)) by (nonlinear_arith);
}

/// A number times a difference.
proof fn lemma_expand_left(a: int, x: int, y: int)
    ensures
        a * (x - y) == a * x - a * y,
        a * (x - (-y)) == a * x + a * y,
        a * (-y) == -(a * y),
{
    assert(a * (x - y) == a * x - a * y) by (nonlinear_arith);
    assert(a * (x - (-y)) == a * x + a * y) by (nonlinear_arith);
    assert(a * (-y) == -(a * y)) by (nonlinear_arith);
}

/// A product of three numbers, bracketed either way.
proof fn lemma_regroup(a: int, b: int, c: int)
    ensures
        (a * b) * c == a * (b * c),
{
    assert((a * b) * c == a * (b * c)) by (nonlinear_arith);
}

/// The parts of a product of two complex numbers stand for the parts of
/// the product of what the two stand for.
pub proof fn lemma_complex_product(
    a: Complex,
    a_re: int,
    a_im: int,
    b: Complex,
    b_re: int,
    b_im: int,
)
    requires
        congruent(a.re as int, a_re, 0x1_0000_0000),
        congruent(a.im as int, a_im, 0x1_0000_0000),
        congruent(b.re as int, b_re, 0x1_0000_0000),
        congruent(b.im as int, b_im, 0x1_0000_0000),
    ensures
        congruent(a.ring_mul(b).re as int, a_re * b_re - a_im * b_im, 0x1_0000_0000),
        congruent(a.ring_mul(b).im as int, a_re * b_im + a_im * b_re, 0x1_0000_0000),
{
    lemma_product_stands_for(a.re, a_re, b.re, b_re);
    lemma_product_stands_for(a.im, a_im, b.im, b_im);
    lemma_negation_stands_for(a.im.ring_mul(b.im), a_im * b_im);
    lemma_sum_stands_for(
        a.re.ring_mul(b.re),
        a_re * b_re,
        a.im.ring_mul(b.im).ring_neg(),
        -(a_im * b_im),
    );
    lemma_product_stands_for(a.re, a_re, b.im, b_im);
    lemma_product_stands_for(a.im, a_im, b.re, b_re);
    lemma_sum_stands_for(a.re.ring_mul(b.im), a_re * b_im, a.im.ring_mul(b.re), a_im * b_re);
}

} // verus!
