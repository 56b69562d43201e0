//! An exact rational number with sentinel-encoded infinities and signed zeros.
//!
//! A `Fraction` is a pair of 64-bit signed integers.  Three regimes share the
//! representation:
//! - a numerator at the extreme representable magnitude (`i64::MAX` or its
//!   negation) denotes a positive or negative infinity;
//! - otherwise, a denominator at the extreme magnitude denotes a signed zero,
//!   whose numerator keeps a hidden finite value so that a later product with
//!   an infinity resolves to a finite quotient;
//! - otherwise the pair is an ordinary fraction.
//!
//! Finite results of arithmetic are always reduced: the numerator and
//! denominator are coprime and the denominator is positive.

use vstd::prelude::*;

verus! {

use vstd::arithmetic::div_mod::{
    lemma_fundamental_div_mod,
    lemma_mod_multiples_basic,
    lemma_mod_self_0,
    lemma_sub_mod_noop,
    lemma_mul_mod_noop_right,
    lemma_breakdown,
    lemma_div_multiples_vanish,
};
use vstd::arithmetic::mul::lemma_mul_is_commutative;

/// Magnitude of an integer, as a natural number.
pub open spec fn abs_int(x: int) -> nat {
    if x >= 0 {
        x as nat
    } else {
        (-x) as nat
    }
}

/// Greatest common divisor by the Euclidean algorithm; `gcd_nat(a, 0) == a`.
pub open spec fn gcd_nat(a: nat, b: nat) -> nat
    decreases b,
{
    if b == 0 {
        a
    } else {
        gcd_nat(b, a % b)
    }
}

/// The gcd divides both of its arguments.
proof fn lemma_gcd_divides(a: nat, b: nat)
    ensures
        gcd_nat(a, b) > 0 ==> a % gcd_nat(a, b) == 0,
        gcd_nat(a, b) > 0 ==> b % gcd_nat(a, b) == 0,
    decreases b,
{
    let g = gcd_nat(a, b);
    if b == 0 {
        if g > 0 {
            lemma_mod_self_0(a as int);
            assert(0nat % g == 0) by {
                vstd::arithmetic::div_mod::lemma_small_mod(0nat, g);
            }
        }
    } else {
        let r = a % b;
        lemma_gcd_divides(b, r);
        if g > 0 {
            lemma_fundamental_div_mod(a as int, b as int);
            // a == b * (a / b) + r, and g divides b and r, so g divides a.
            let q = (a / b) as int;
            let bi = b as int;
            let gi = g as int;
            assert(g == gcd_nat(b, r));
            assert(b % g == 0);
            assert((bi * q) % gi == 0) by {
                lemma_mul_mod_noop_right(q, bi, gi);
                assert(bi % gi == 0);
                assert(q * (bi % gi) == 0) by {
                    vstd::arithmetic::mul::lemma_mul_basics(q);
                }
                vstd::arithmetic::div_mod::lemma_small_mod(0nat, g);
                lemma_mul_is_commutative(q, bi);
            }
            assert((bi * q + r) % gi == 0) by {
                vstd::arithmetic::div_mod::lemma_add_mod_noop(bi * q, r as int, gi);
                vstd::arithmetic::div_mod::lemma_small_mod(0nat, g);
            }
            assert(a as int == bi * q + r);
        }
    }
}

/// The gcd of two naturals is positive unless both are zero.
proof fn lemma_gcd_pos(a: nat, b: nat)
    requires
        a > 0 || b > 0,
    ensures
        gcd_nat(a, b) > 0,
    decreases b,
{
    if b > 0 {
        lemma_gcd_pos(b, a % b);
    }
}

/// Scaling both arguments scales the gcd: `gcd(k*a, k*b) == k * gcd(a, b)`.
proof fn lemma_gcd_scale(a: nat, b: nat, k: nat)
    requires
        k > 0,
    ensures
        gcd_nat(k * a, k * b) == k * gcd_nat(a, b),
    decreases b,
{
    if b == 0 {
        assert(k * b == 0);
        assert(gcd_nat(k * a, 0) == k * a);
    } else {
        assert(k * b > 0) by {
            vstd::arithmetic::mul::lemma_mul_strictly_positive(k as int, b as int);
        }
        lemma_mod_scale(a, b, k);
        lemma_gcd_scale(b, a % b, k);
        assert(gcd_nat(k * a, k * b) == gcd_nat(k * b, (k * a) % (k * b)));
    }
}

/// Scaling both operands scales the remainder: `(k*a) % (k*b) == k * (a % b)`.
proof fn lemma_mod_scale(a: nat, b: nat, k: nat)
    requires
        b > 0,
        k > 0,
    ensures
        (k * a) % (k * b) == k * (a % b),
{
    let x = (k * a) as int;
    let kk = k as int;
    let bb = b as int;
    lemma_breakdown(x, kk, bb);
    assert(x % (kk * bb) == kk * ((x / kk) % bb) + x % kk);
    assert(x / kk == a as int) by {
        lemma_div_multiples_vanish(a as int, kk);
        assert(kk * (a as int) == x) by {
            lemma_mul_is_commutative(kk, a as int);
        }
    }
    assert(x % kk == 0) by {
        lemma_mod_multiples_basic(a as int, kk);
        assert((a as int) * kk == x) by {
            lemma_mul_is_commutative(kk, a as int);
        }
    }
    assert(x % (kk * bb) == kk * ((a as int) % bb));
    assert((k * b) as int == kk * bb);
    assert(((k * a) % (k * b)) as int == x % (kk * bb));
    assert((k * (a % b)) as int == kk * ((a as int) % bb));
}

/// For `g` dividing `|x|` exactly: the quotient is exact and its magnitude is
/// `|x| / g`.
proof fn lemma_signed_exact_div(x: int, g: int)
    requires
        g > 0,
        abs_int(x) % (g as nat) == 0,
    ensures
        x == g * (x / g),
        abs_int(x / g) == abs_int(x) / (g as nat),
        x > 0 ==> x / g >= 0,
        x < 0 ==> x / g <= 0,
{
    if x >= 0 {
        lemma_fundamental_div_mod(x, g);
        vstd::arithmetic::div_mod::lemma_div_pos_is_pos(x, g);
    } else {
        let m = -x;
        lemma_fundamental_div_mod(m, g);
        assert(m == g * (m / g));
        let q = -(m / g);
        assert(x == q * g + 0) by {
            lemma_mul_is_commutative(g, m / g);
            assert(q * g == -(m / g) * g);
            vstd::arithmetic::mul::lemma_mul_unary_negation(m / g, g);
        }
        vstd::arithmetic::div_mod::lemma_fundamental_div_mod_converse(x, g, q, 0);
        assert(x / g == q);
        vstd::arithmetic::div_mod::lemma_div_pos_is_pos(m, g);
        assert(x == g * (x / g)) by {
            lemma_mul_is_commutative(g, q);
        }
    }
}

/// The gcd of the magnitudes of a fraction's parts, as an integer.
pub open spec fn gcd_of(n: int, d: int) -> int {
    gcd_nat(abs_int(n), abs_int(d)) as int
}

/// Numerator of the canonical (reduced, positive-denominator) form of `n / d`.
pub open spec fn canon_num(n: int, d: int) -> int {
    if d < 0 {
        -(n / gcd_of(n, d))
    } else {
        n / gcd_of(n, d)
    }
}

/// Denominator of the canonical form of `n / d`.
pub open spec fn canon_den(n: int, d: int) -> int {
    if d < 0 {
        -(d / gcd_of(n, d))
    } else {
        d / gcd_of(n, d)
    }
}

/// A numerator/denominator pair in lowest terms with a positive denominator.
pub open spec fn is_reduced(n: int, d: int) -> bool {
    d > 0 && gcd_nat(abs_int(n), abs_int(d)) == 1
}

/// The canonical form of a fraction: same value, lowest terms, positive
/// denominator, magnitudes no larger than the originals.
pub proof fn lemma_canon_props(n: int, d: int)
    requires
        d != 0,
    ensures
        is_reduced(canon_num(n, d), canon_den(n, d)),
        canon_num(n, d) * d == n * canon_den(n, d),
        abs_int(canon_num(n, d)) <= abs_int(n),
        abs_int(canon_den(n, d)) <= abs_int(d),
        n == 0 ==> canon_num(n, d) == 0 && canon_den(n, d) == 1,
{
    let na = abs_int(n);
    let da = abs_int(d);
    let g = gcd_of(n, d);
    lemma_gcd_pos(na, da);
    assert(g > 0);
    lemma_gcd_divides(na, da);
    lemma_signed_exact_div(n, g);
    lemma_signed_exact_div(d, g);
    let qn = n / g;
    let qd = d / g;
    let cn = canon_num(n, d);
    let cd = canon_den(n, d);
    assert(abs_int(cn) == na / (g as nat));
    assert(abs_int(cd) == da / (g as nat));
    // The denominator of the canonical form is positive.
    assert(da / (g as nat) > 0) by {
        if da / (g as nat) == 0 {
            assert(d == g * qd);
            assert(qd == 0 || qd == 0 - 0) by {
                assert(abs_int(qd) == 0);
            }
            assert(d == 0) by {
                vstd::arithmetic::mul::lemma_mul_basics(g);
            }
        }
    }
    assert(cd > 0);
    // Cross-multiplied equality: cn * d == n * cd.
    assert(cn * d == n * cd) by {
        if d < 0 {
            assert(cn == -qn && cd == -qd);
            assert((-qn) * d == n * (-qd)) by (nonlinear_arith)
                requires
                    n == g * qn,
                    d == g * qd,
            ;
        } else {
            assert(qn * d == n * qd) by (nonlinear_arith)
                requires
                    n == g * qn,
                    d == g * qd,
            ;
        }
    }
    // Lowest terms: gcd of the quotient magnitudes is one.
    let qna = na / (g as nat);
    let qda = da / (g as nat);
    assert(gcd_nat(qna, qda) == 1) by {
        lemma_gcd_scale(qna, qda, g as nat);
        assert((g as nat) * qna == na) by {
            assert(n == g * qn);
            assert(abs_int(qn) == qna);
            lemma_abs_mul(g, qn);
        }
        assert((g as nat) * qda == da) by {
            assert(d == g * qd);
            assert(abs_int(qd) == qda);
            lemma_abs_mul(g, qd);
        }
        assert((g as nat) * gcd_nat(qna, qda) == gcd_nat(na, da));
        assert(gcd_nat(na, da) == g as nat);
        assert(gcd_nat(qna, qda) == 1) by (nonlinear_arith)
            requires
                (g as nat) * gcd_nat(qna, qda) == g as nat,
                g > 0,
        ;
    }
    // Magnitude bounds.
    assert(na / (g as nat) <= na) by {
        lemma_div_nonincreasing_nat(na, g as nat);
    }
    assert(da / (g as nat) <= da) by {
        lemma_div_nonincreasing_nat(da, g as nat);
    }
    if n == 0 {
        assert(na == 0);
        assert(gcd_nat(0, da) == da) by {
            lemma_gcd_zero_left(da);
        }
        assert(abs_int(cn) == 0nat / (g as nat));
        assert(0nat / (g as nat) == 0) by {
            vstd::arithmetic::div_mod::lemma_div_of0(g);
        }
        assert(abs_int(cd) == da / (g as nat));
        assert(da / da == 1) by {
            vstd::arithmetic::div_mod::lemma_div_by_self(da as int);
        }
    }
}

/// `|x * y| == |x| * |y|` for a nonnegative left factor.
proof fn lemma_abs_mul(g: int, q: int)
    requires
        g >= 0,
    ensures
        abs_int(g * q) == (g as nat) * abs_int(q),
{
    if q >= 0 {
        vstd::arithmetic::mul::lemma_mul_nonnegative(g, q);
    } else {
        assert(g * q == -(g * (-q))) by {
            vstd::arithmetic::mul::lemma_mul_unary_negation(g, -q);
        }
        vstd::arithmetic::mul::lemma_mul_nonnegative(g, -q);
    }
}

/// `gcd(0, b) == b`.
proof fn lemma_gcd_zero_left(b: nat)
    ensures
        gcd_nat(0, b) == b,
{
    if b == 0 {
    } else {
        assert(0nat % b == 0) by {
            vstd::arithmetic::div_mod::lemma_small_mod(0nat, b);
        }
        assert(gcd_nat(0, b) == gcd_nat(b, 0));
    }
}

proof fn lemma_div_nonincreasing_nat(x: nat, d: nat)
    requires
        d > 0,
    ensures
        x / d <= x,
{
    vstd::arithmetic::div_mod::lemma_div_nonincreasing(x as int, d as int);
}

/// Two reduced pairs with the same cross-multiplied value are identical.
pub proof fn lemma_reduced_unique(n1: int, d1: int, n2: int, d2: int)
    requires
        is_reduced(n1, d1),
        is_reduced(n2, d2),
        n1 * d2 == n2 * d1,
    ensures
        n1 == n2,
        d1 == d2,
{
    let a1 = abs_int(n1);
    let a2 = abs_int(n2);
    // Signs of the numerators agree, and the magnitudes cross-multiply equally.
    assert(a1 * (d2 as nat) == a2 * (d1 as nat)) by (nonlinear_arith)
        requires
            n1 * d2 == n2 * d1,
            d1 > 0,
            d2 > 0,
            a1 == abs_int(n1),
            a2 == abs_int(n2),
    ;
    // gcd(a1 * d2, d1 * d2) == d2 and gcd(a2 * d1, d2 * d1) == d1.
    lemma_gcd_scale(a1, d1 as nat, d2 as nat);
    lemma_gcd_scale(a2, d2 as nat, d1 as nat);
    assert(gcd_nat((d2 as nat) * a1, (d2 as nat) * (d1 as nat)) == (d2 as nat) * 1);
    assert(gcd_nat((d1 as nat) * a2, (d1 as nat) * (d2 as nat)) == (d1 as nat) * 1);
    assert((d2 as nat) * a1 == (d1 as nat) * a2) by (nonlinear_arith)
        requires
            a1 * (d2 as nat) == a2 * (d1 as nat),
    ;
    assert((d2 as nat) * (d1 as nat) == (d1 as nat) * (d2 as nat)) by (nonlinear_arith);
    assert(d1 == d2);
    assert(n1 == n2) by (nonlinear_arith)
        requires
            n1 * d2 == n2 * d1,
            d1 == d2,
            d1 > 0,
    ;
}

/// Fractions with the same cross-multiplied value share one canonical form.
pub proof fn lemma_canon_eq(n1: int, d1: int, n2: int, d2: int)
    requires
        d1 != 0,
        d2 != 0,
        n1 * d2 == n2 * d1,
    ensures
        canon_num(n1, d1) == canon_num(n2, d2),
        canon_den(n1, d1) == canon_den(n2, d2),
{
    lemma_canon_props(n1, d1);
    lemma_canon_props(n2, d2);
    let c1n = canon_num(n1, d1);
    let c1d = canon_den(n1, d1);
    let c2n = canon_num(n2, d2);
    let c2d = canon_den(n2, d2);
    assert(c1n * c2d == c2n * c1d) by (nonlinear_arith)
        requires
            c1n * d1 == n1 * c1d,
            c2n * d2 == n2 * c2d,
            n1 * d2 == n2 * d1,
            d1 != 0,
            d2 != 0,
    ;
    lemma_reduced_unique(c1n, c1d, c2n, c2d);
}

/// A reduced pair is its own canonical form.
pub proof fn lemma_canon_of_reduced(n: int, d: int)
    requires
        is_reduced(n, d),
    ensures
        canon_num(n, d) == n,
        canon_den(n, d) == d,
{
    assert(gcd_of(n, d) == 1);
    assert(n / 1int == n) by {
        vstd::arithmetic::div_mod::lemma_div_basics(n);
    }
    assert(d / 1int == d) by {
        vstd::arithmetic::div_mod::lemma_div_basics(d);
    }
}

/// An exact rational number; see the module documentation for the three
/// regimes (finite, signed infinity, signed zero) that share this
/// representation.
#[derive(Clone, Copy, Debug, PartialEq, Eq, Structural)]
pub struct Fraction {
    pub numerator: i64,
    pub denominator: i64,
}

impl Fraction {
    /// The positive-infinity sentinel: numerator at the extreme magnitude.
    pub open spec fn is_pos_inf(self) -> bool {
        self.numerator == i64::MAX
    }

    /// The negative-infinity sentinel.
    pub open spec fn is_neg_inf(self) -> bool {
        self.numerator == -i64::MAX
    }

    pub open spec fn is_inf(self) -> bool {
        self.is_pos_inf() || self.is_neg_inf()
    }

    /// The signed-zero sentinel: denominator at the extreme magnitude (and not
    /// an infinity).  The numerator keeps the hidden finite value, the
    /// denominator's sign is the zero's sign.
    pub open spec fn is_signed_zero(self) -> bool {
        !self.is_inf() && (self.denominator == i64::MAX || self.denominator == -i64::MAX)
    }

    /// An ordinary fraction.
    pub open spec fn is_finite(self) -> bool {
        !self.is_inf() && !self.is_signed_zero()
    }

    /// Structurally valid: nonzero denominator, and both parts away from the
    /// asymmetric extreme of the machine integer, so that negation and
    /// magnitude never overflow.
    pub open spec fn wf(self) -> bool {
        &&& self.denominator != 0
        &&& self.numerator != i64::MIN
        &&& self.denominator != i64::MIN
    }

    /// The canonical reduced fraction with value `n / d`.
    pub open spec fn canon(n: int, d: int) -> Fraction {
        Fraction { numerator: canon_num(n, d) as i64, denominator: canon_den(n, d) as i64 }
    }

    /// The fraction `i / 1`.
    pub open spec fn from_int(i: int) -> Fraction {
        Fraction { numerator: i as i64, denominator: 1 }
    }
}

/// The canonical form of an in-range fraction is itself in range, so the
/// fields of `Fraction::canon` carry exactly `canon_num` and `canon_den`.
pub proof fn lemma_canon_in_range(n: int, d: int)
    requires
        d != 0,
        -i64::MAX <= n <= i64::MAX,
        -i64::MAX <= d <= i64::MAX,
    ensures
        Fraction::canon(n, d).numerator == canon_num(n, d),
        Fraction::canon(n, d).denominator == canon_den(n, d),
        Fraction::canon(n, d).wf(),
        Fraction::canon(n, d).denominator > 0,
{
    lemma_canon_props(n, d);
}

impl Fraction {
    /// Builds a raw (not necessarily reduced) fraction; a zero denominator is
    /// rejected by the precondition.
    pub fn new(n: i64, d: i64) -> (f: Fraction)
        requires
            d != 0,
        ensures
            f == (Fraction { numerator: n, denominator: d }),
    {
        Fraction { numerator: n, denominator: d }
    }

    /// Divides both parts by their greatest common divisor and makes the
    /// denominator positive, producing the canonical form of the same value.
    pub fn reduce(&mut self)
        requires
            old(self).wf(),
        ensures
            *final(self) == Fraction::canon(
                old(self).numerator as int,
                old(self).denominator as int,
            ),
            final(self).wf(),
            final(self).denominator > 0,
    {
        let ghost n0: int = self.numerator as int;
        let ghost d0: int = self.denominator as int;
        let g = gcd(self.numerator, self.denominator);
        proof {
            lemma_gcd_pos(abs_int(n0), abs_int(d0));
            lemma_gcd_divides(abs_int(n0), abs_int(d0));
            lemma_canon_props(n0, d0);
            lemma_canon_in_range(n0, d0);
            lemma_signed_exact_div(n0, g as int);
            lemma_signed_exact_div(d0, g as int);
        }
        let neg_n = self.numerator < 0;
        let mag_n = if neg_n {
            -self.numerator
        } else {
            self.numerator
        };
        let mag_d = if self.denominator < 0 {
            -self.denominator
        } else {
            self.denominator
        };
        let qn_mag = mag_n / g;
        let qd_mag = mag_d / g;
        let same_sign = neg_n == (self.denominator < 0);
        proof {
            assert(qn_mag as nat == abs_int(n0) / (g as nat));
            assert(qd_mag as nat == abs_int(d0) / (g as nat));
            assert(abs_int(n0 / (g as int)) == qn_mag as nat);
            assert(abs_int(d0 / (g as int)) == qd_mag as nat);
        }
        self.numerator = if same_sign {
            qn_mag
        } else {
            -qn_mag
        };
        self.denominator = qd_mag;
        proof {
            assert(self.denominator as int == canon_den(n0, d0));
            assert(self.numerator as int == canon_num(n0, d0));
        }
    }
}

/// Greatest common divisor of the magnitudes of two machine integers, by the
/// Euclidean algorithm; `gcd(a, 0) == |a|`.  The three excluded corner cases
/// are a machine limit: their result would be the magnitude of `i64::MIN`,
/// which no machine integer holds.
pub fn gcd(a: i64, b: i64) -> (g: i64)
    requires
        !(a == i64::MIN && b == i64::MIN),
        !(a == i64::MIN && b == 0),
        !(a == 0 && b == i64::MIN),
    ensures
        g as nat == gcd_nat(abs_int(a as int), abs_int(b as int)),
        g >= 0,
        (a != 0 || b != 0) ==> g > 0,
        a != 0 ==> abs_int(a as int) % (g as nat) == 0,
        b != 0 ==> abs_int(b as int) % (g as nat) == 0,
{
    let mut x: i128 = a as i128;
    if x < 0 {
        x = -x;
    }
    let mut y: i128 = b as i128;
    if y < 0 {
        y = -y;
    }
    proof {
        if a != 0 || b != 0 {
            lemma_gcd_pos(abs_int(a as int), abs_int(b as int));
        }
        lemma_gcd_divides(abs_int(a as int), abs_int(b as int));
        lemma_gcd_le(abs_int(a as int), abs_int(b as int));
    }
    while y != 0
        invariant
            x >= 0,
            y >= 0,
            gcd_nat(x as nat, y as nat) == gcd_nat(abs_int(a as int), abs_int(b as int)),
        decreases y,
    {
        let r = x % y;
        proof {
            assert(gcd_nat(x as nat, y as nat) == gcd_nat(y as nat, (x as nat) % (y as nat)));
        }
        x = y;
        y = r;
    }
    proof {
        assert(x as nat == gcd_nat(abs_int(a as int), abs_int(b as int)));
        // The result fits a machine integer: it divides some argument whose
        // magnitude is representable.
        if b != 0 && b != i64::MIN {
            assert(x <= i64::MAX as i128);
        } else if b == i64::MIN {
            assert(a != 0 && a != i64::MIN);
            assert(x <= i64::MAX as i128);
        } else {
            assert(b == 0 && a != i64::MIN);
            assert(x <= i64::MAX as i128);
        }
    }
    x as i64
}

/// The gcd is no larger than either positive argument (it divides both).
proof fn lemma_gcd_le(a: nat, b: nat)
    ensures
        b > 0 ==> gcd_nat(a, b) <= b,
        a > 0 ==> gcd_nat(a, b) <= a,
{
    let g = gcd_nat(a, b);
    lemma_gcd_divides(a, b);
    if b > 0 {
        lemma_gcd_pos(a, b);
        if g > b {
            vstd::arithmetic::div_mod::lemma_small_mod(b, g);
        }
    }
    if a > 0 {
        if b > 0 {
            lemma_gcd_pos(a, b);
        }
        if g > a {
            vstd::arithmetic::div_mod::lemma_small_mod(a, g);
        }
    }
}

/// `x` is representable as a well-formed machine numerator or denominator
/// (the asymmetric extreme is excluded so negation stays in range).
pub open spec fn in_i64(x: int) -> bool {
    -i64::MAX <= x <= i64::MAX
}

/// Exact negation of a machine integer away from the asymmetric extreme.
pub open spec fn neg64(x: i64) -> i64 {
    (-x) as i64
}

impl Fraction {
    /// The sum, following the regime rules: infinities of equal sign combine,
    /// of opposite signs cancel to zero, an infinity absorbs a finite operand,
    /// a signed zero is the identity, and finite operands cross-multiply and
    /// reduce.
    pub open spec fn add_val(self, o: Fraction) -> Fraction {
        if self.is_inf() && o.is_inf() {
            if self.is_pos_inf() {
                if o.is_pos_inf() {
                    Fraction::from_int(i64::MAX as int)
                } else {
                    Fraction::from_int(0)
                }
            } else {
                if o.is_pos_inf() {
                    Fraction::from_int(0)
                } else {
                    Fraction::from_int(-(i64::MAX as int))
                }
            }
        } else if self.is_inf() {
            Fraction::from_int(self.numerator as int)
        } else if o.is_inf() {
            Fraction::from_int(o.numerator as int)
        } else if self.is_signed_zero() {
            o
        } else if o.is_signed_zero() {
            self
        } else {
            Fraction::canon(
                self.numerator * o.denominator + o.numerator * self.denominator,
                self.denominator * o.denominator,
            )
        }
    }

    /// The sum stays within the machine range (always true unless both
    /// operands are finite and a cross product leaves the range).
    pub open spec fn add_ok(self, o: Fraction) -> bool {
        self.is_finite() && o.is_finite() ==> {
            &&& in_i64(self.numerator * o.denominator + o.numerator * self.denominator)
            &&& in_i64(self.denominator * o.denominator)
        }
    }

    /// The difference; mirrors `add_val` with the subtrahend's sign flipped,
    /// except that equal infinities cancel to zero.
    pub open spec fn sub_val(self, o: Fraction) -> Fraction {
        if self.is_inf() && o.numerator == self.numerator {
            Fraction::from_int(0)
        } else if self.is_inf() {
            Fraction::from_int(self.numerator as int)
        } else if o.is_inf() {
            Fraction::from_int(-(o.numerator as int))
        } else if self.is_signed_zero() {
            Fraction { numerator: neg64(o.numerator), denominator: o.denominator }
        } else if o.is_signed_zero() {
            self
        } else {
            Fraction::canon(
                self.numerator * o.denominator - o.numerator * self.denominator,
                self.denominator * o.denominator,
            )
        }
    }

    pub open spec fn sub_ok(self, o: Fraction) -> bool {
        self.is_finite() && o.is_finite() ==> {
            &&& in_i64(self.numerator * o.denominator - o.numerator * self.denominator)
            &&& in_i64(self.denominator * o.denominator)
        }
    }

    /// The product.  An infinity times a signed zero resolves to the finite
    /// value hidden in the zero's numerator over the infinity's denominator,
    /// signed by both operands.
    pub open spec fn mul_val(self, o: Fraction) -> Fraction {
        if self.is_inf() && o.is_inf() {
            if (self.numerator > 0) != (o.numerator > 0) {
                Fraction::from_int(-(i64::MAX as int))
            } else {
                Fraction::from_int(i64::MAX as int)
            }
        } else if self.is_inf() {
            if o.is_signed_zero() {
                if self.is_pos_inf() {
                    Fraction::canon(o.numerator as int, self.denominator as int)
                } else {
                    Fraction::canon(-(o.numerator as int), self.denominator as int)
                }
            } else {
                if o.numerator > 0 {
                    Fraction::from_int(self.numerator as int)
                } else {
                    Fraction::from_int(-(self.numerator as int))
                }
            }
        } else if self.is_signed_zero() {
            if o.is_inf() {
                if o.is_pos_inf() {
                    Fraction::canon(self.numerator as int, o.denominator as int)
                } else {
                    Fraction::canon(-(self.numerator as int), o.denominator as int)
                }
            } else {
                Fraction::from_int(0)
            }
        } else if o.is_inf() {
            if self.numerator > 0 {
                Fraction::from_int(o.numerator as int)
            } else {
                Fraction::from_int(-(o.numerator as int))
            }
        } else if o.is_signed_zero() {
            Fraction::from_int(0)
        } else {
            Fraction::canon(
                self.numerator * o.numerator,
                self.denominator * o.denominator,
            )
        }
    }

    pub open spec fn mul_ok(self, o: Fraction) -> bool {
        self.is_finite() && o.is_finite() ==> {
            &&& in_i64(self.numerator * o.numerator)
            &&& in_i64(self.denominator * o.denominator)
        }
    }

    /// The quotient.  A ratio of infinities compares their denominators; a
    /// finite value over a signed zero blows up to an infinity signed by both
    /// operands.
    pub open spec fn div_val(self, o: Fraction) -> Fraction {
        if self.is_inf() && o.is_inf() {
            if (self.numerator > 0) != (o.numerator > 0) {
                Fraction::canon(-(o.denominator as int), self.denominator as int)
            } else {
                Fraction::canon(o.denominator as int, self.denominator as int)
            }
        } else if self.is_inf() {
            if o.numerator < 0 {
                Fraction::from_int(-(self.numerator as int))
            } else {
                Fraction::from_int(self.numerator as int)
            }
        } else if o.is_inf() {
            Fraction::from_int(0)
        } else if self.is_signed_zero() && o.is_signed_zero() {
            Fraction::canon(self.numerator as int, o.numerator as int)
        } else if o.is_signed_zero() {
            if self.numerator > 0 {
                if o.numerator > 0 {
                    Fraction::from_int(i64::MAX as int)
                } else {
                    Fraction::from_int(-(i64::MAX as int))
                }
            } else {
                if o.numerator > 0 {
                    Fraction::from_int(-(i64::MAX as int))
                } else {
                    Fraction::from_int(i64::MAX as int)
                }
            }
        } else if self.is_signed_zero() {
            Fraction::from_int(0)
        } else {
            Fraction::canon(
                self.numerator * o.denominator,
                self.denominator * o.numerator,
            )
        }
    }

    /// Division is possible when the divisor's numerator is nonzero in the
    /// regimes that divide by it, and the cross products stay in range.
    pub open spec fn div_ok(self, o: Fraction) -> bool {
        &&& (self.is_signed_zero() && o.is_signed_zero() ==> o.numerator != 0)
        &&& (self.is_finite() && o.is_finite() ==> {
            &&& o.numerator != 0
            &&& in_i64(self.numerator * o.denominator)
            &&& in_i64(self.denominator * o.numerator)
        })
    }

    /// The negation: the numerator's sign flips, infinities and signed zeros
    /// included.
    pub open spec fn neg_val(self) -> Fraction {
        Fraction { numerator: neg64(self.numerator), denominator: self.denominator }
    }
}

/// The product of two machine integers, computed without overflow in a wider
/// type.
fn mul_i64_wide(x: i64, y: i64) -> (p: i128)
    requires
        x != i64::MIN,
        y != i64::MIN,
    ensures
        p == x * y,
        -((i64::MAX as int) * (i64::MAX as int)) <= p <= (i64::MAX as int) * (i64::MAX as int),
{
    proof {
        let m = i64::MAX as int;
        assert(-(m * m) <= (x as int) * (y as int) <= m * m) by (nonlinear_arith)
            requires
                m == i64::MAX as int,
                -m <= x <= m,
                -m <= y <= m,
        ;
        assert(m * m < i128::MAX);
    }
    (x as i128) * (y as i128)
}

/// Builds the canonical fraction for an in-range numerator and denominator
/// held in wide integers.
fn reduced_from_i128(n: i128, d: i128) -> (r: Fraction)
    requires
        d != 0,
        -(i64::MAX as int) <= n <= i64::MAX as int,
        -(i64::MAX as int) <= d <= i64::MAX as int,
    ensures
        r == Fraction::canon(n as int, d as int),
        r.wf(),
        r.denominator > 0,
{
    proof {
        lemma_canon_in_range(n as int, d as int);
    }
    let mut f = Fraction { numerator: n as i64, denominator: d as i64 };
    f.reduce();
    f
}

impl Fraction {
    /// The sum, or `None` when both operands are finite and a cross product
    /// leaves the machine range.
    pub fn checked_add(self, other: Fraction) -> (r: Option<Fraction>)
        requires
            self.wf(),
            other.wf(),
        ensures
            r is Some <==> self.add_ok(other),
            self.add_ok(other) ==> r == Some(self.add_val(other)),
            r is Some ==> r->Some_0.wf(),
    {
        let a = self;
        let b = other;
        if (a.numerator == i64::MAX || a.numerator == -i64::MAX) && (b.numerator == i64::MAX
            || b.numerator == -i64::MAX) {
            if a.numerator == i64::MAX {
                if b.numerator == i64::MAX {
                    Some(Fraction { numerator: i64::MAX, denominator: 1 })
                } else {
                    Some(Fraction { numerator: 0, denominator: 1 })
                }
            } else {
                if b.numerator == i64::MAX {
                    Some(Fraction { numerator: 0, denominator: 1 })
                } else {
                    Some(Fraction { numerator: -i64::MAX, denominator: 1 })
                }
            }
        } else if a.numerator == i64::MAX || a.numerator == -i64::MAX {
            Some(Fraction { numerator: a.numerator, denominator: 1 })
        } else if b.numerator == i64::MAX || b.numerator == -i64::MAX {
            Some(Fraction { numerator: b.numerator, denominator: 1 })
        } else if a.denominator == i64::MAX || a.denominator == -i64::MAX {
            Some(b)
        } else if b.denominator == i64::MAX || b.denominator == -i64::MAX {
            Some(a)
        } else {
            let n = mul_i64_wide(a.numerator, b.denominator) + mul_i64_wide(
                b.numerator,
                a.denominator,
            );
            let d = mul_i64_wide(a.denominator, b.denominator);
            proof {
                assert(d != 0) by (nonlinear_arith)
                    requires
                        d == (a.denominator as int) * (b.denominator as int),
                        a.denominator != 0,
                        b.denominator != 0,
                ;
            }
            if n < -i64::MAX as i128 || n > i64::MAX as i128 || d < -i64::MAX as i128 || d
                > i64::MAX as i128 {
                None
            } else {
                Some(reduced_from_i128(n, d))
            }
        }
    }

    /// The difference, or `None` when both operands are finite and a cross
    /// product leaves the machine range.
    pub fn checked_sub(self, other: Fraction) -> (r: Option<Fraction>)
        requires
            self.wf(),
            other.wf(),
        ensures
            r is Some <==> self.sub_ok(other),
            self.sub_ok(other) ==> r == Some(self.sub_val(other)),
            r is Some ==> r->Some_0.wf(),
    {
        let a = self;
        let b = other;
        if (a.numerator == i64::MAX || a.numerator == -i64::MAX) && b.numerator == a.numerator {
            Some(Fraction { numerator: 0, denominator: 1 })
        } else if a.numerator == i64::MAX || a.numerator == -i64::MAX {
            Some(Fraction { numerator: a.numerator, denominator: 1 })
        } else if b.numerator == i64::MAX || b.numerator == -i64::MAX {
            Some(Fraction { numerator: -b.numerator, denominator: 1 })
        } else if a.denominator == i64::MAX || a.denominator == -i64::MAX {
            Some(Fraction { numerator: -b.numerator, denominator: b.denominator })
        } else if b.denominator == i64::MAX || b.denominator == -i64::MAX {
            Some(a)
        } else {
            let n = mul_i64_wide(a.numerator, b.denominator) - mul_i64_wide(
                b.numerator,
                a.denominator,
            );
            let d = mul_i64_wide(a.denominator, b.denominator);
            proof {
                assert(d != 0) by (nonlinear_arith)
                    requires
                        d == (a.denominator as int) * (b.denominator as int),
                        a.denominator != 0,
                        b.denominator != 0,
                ;
            }
            if n < -i64::MAX as i128 || n > i64::MAX as i128 || d < -i64::MAX as i128 || d
                > i64::MAX as i128 {
                None
            } else {
                Some(reduced_from_i128(n, d))
            }
        }
    }

    /// The product, or `None` when both operands are finite and a product of
    /// parts leaves the machine range.
    pub fn checked_mul(self, other: Fraction) -> (r: Option<Fraction>)
        requires
            self.wf(),
            other.wf(),
        ensures
            r is Some <==> self.mul_ok(other),
            self.mul_ok(other) ==> r == Some(self.mul_val(other)),
            r is Some ==> r->Some_0.wf(),
    {
        let a = self;
        let b = other;
        if (a.numerator == i64::MAX || a.numerator == -i64::MAX) && (b.numerator == i64::MAX
            || b.numerator == -i64::MAX) {
            if (a.numerator > 0) != (b.numerator > 0) {
                Some(Fraction { numerator: -i64::MAX, denominator: 1 })
            } else {
                Some(Fraction { numerator: i64::MAX, denominator: 1 })
            }
        } else if a.numerator == i64::MAX || a.numerator == -i64::MAX {
            if b.denominator == i64::MAX || b.denominator == -i64::MAX {
                if a.numerator == i64::MAX {
                    Some(reduced_from_i128(b.numerator as i128, a.denominator as i128))
                } else {
                    Some(reduced_from_i128(-(b.numerator as i128), a.denominator as i128))
                }
            } else {
                if b.numerator > 0 {
                    Some(Fraction { numerator: a.numerator, denominator: 1 })
                } else {
                    Some(Fraction { numerator: -a.numerator, denominator: 1 })
                }
            }
        } else if a.denominator == i64::MAX || a.denominator == -i64::MAX {
            if b.numerator == i64::MAX || b.numerator == -i64::MAX {
                if b.numerator == i64::MAX {
                    Some(reduced_from_i128(a.numerator as i128, b.denominator as i128))
                } else {
                    Some(reduced_from_i128(-(a.numerator as i128), b.denominator as i128))
                }
            } else {
                Some(Fraction { numerator: 0, denominator: 1 })
            }
        } else if b.numerator == i64::MAX || b.numerator == -i64::MAX {
            if a.numerator > 0 {
                Some(Fraction { numerator: b.numerator, denominator: 1 })
            } else {
                Some(Fraction { numerator: -b.numerator, denominator: 1 })
            }
        } else if b.denominator == i64::MAX || b.denominator == -i64::MAX {
            Some(Fraction { numerator: 0, denominator: 1 })
        } else {
            let n = mul_i64_wide(a.numerator, b.numerator);
            let d = mul_i64_wide(a.denominator, b.denominator);
            proof {
                assert(d != 0) by (nonlinear_arith)
                    requires
                        d == (a.denominator as int) * (b.denominator as int),
                        a.denominator != 0,
                        b.denominator != 0,
                ;
            }
            if n < -i64::MAX as i128 || n > i64::MAX as i128 || d < -i64::MAX as i128 || d
                > i64::MAX as i128 {
                None
            } else {
                Some(reduced_from_i128(n, d))
            }
        }
    }

    /// The quotient, or `None` when the divisor's numerator is zero in a
    /// regime that divides by it, or a finite cross product leaves the
    /// machine range.
    pub fn checked_div(self, other: Fraction) -> (r: Option<Fraction>)
        requires
            self.wf(),
            other.wf(),
        ensures
            r is Some <==> self.div_ok(other),
            self.div_ok(other) ==> r == Some(self.div_val(other)),
            r is Some ==> r->Some_0.wf(),
    {
        let a = self;
        let b = other;
        if (a.numerator == i64::MAX || a.numerator == -i64::MAX) && (b.numerator == i64::MAX
            || b.numerator == -i64::MAX) {
            if (a.numerator > 0) != (b.numerator > 0) {
                Some(reduced_from_i128(-(b.denominator as i128), a.denominator as i128))
            } else {
                Some(reduced_from_i128(b.denominator as i128, a.denominator as i128))
            }
        } else if a.numerator == i64::MAX || a.numerator == -i64::MAX {
            if b.numerator < 0 {
                Some(Fraction { numerator: -a.numerator, denominator: 1 })
            } else {
                Some(Fraction { numerator: a.numerator, denominator: 1 })
            }
        } else if b.numerator == i64::MAX || b.numerator == -i64::MAX {
            Some(Fraction { numerator: 0, denominator: 1 })
        } else if (a.denominator == i64::MAX || a.denominator == -i64::MAX) && (b.denominator
            == i64::MAX || b.denominator == -i64::MAX) {
            if b.numerator == 0 {
                None
            } else {
                Some(reduced_from_i128(a.numerator as i128, b.numerator as i128))
            }
        } else if b.denominator == i64::MAX || b.denominator == -i64::MAX {
            if a.numerator > 0 {
                if b.numerator > 0 {
                    Some(Fraction { numerator: i64::MAX, denominator: 1 })
                } else {
                    Some(Fraction { numerator: -i64::MAX, denominator: 1 })
                }
            } else {
                if b.numerator > 0 {
                    Some(Fraction { numerator: -i64::MAX, denominator: 1 })
                } else {
                    Some(Fraction { numerator: i64::MAX, denominator: 1 })
                }
            }
        } else if a.denominator == i64::MAX || a.denominator == -i64::MAX {
            Some(Fraction { numerator: 0, denominator: 1 })
        } else {
            if b.numerator == 0 {
                return None;
            }
            let n = mul_i64_wide(a.numerator, b.denominator);
            let d = mul_i64_wide(a.denominator, b.numerator);
            proof {
                assert(d != 0) by (nonlinear_arith)
                    requires
                        d == (a.denominator as int) * (b.numerator as int),
                        a.denominator != 0,
                        b.numerator != 0,
                ;
            }
            if n < -i64::MAX as i128 || n > i64::MAX as i128 || d < -i64::MAX as i128 || d
                > i64::MAX as i128 {
                None
            } else {
                Some(reduced_from_i128(n, d))
            }
        }
    }
}

impl core::ops::Add for Fraction {
    type Output = Fraction;

    /// The sum; the precondition (`add_req`) demands well-formed operands
    /// whose cross products stay in range.
    fn add(self, other: Fraction) -> (r: Fraction) {
        self.checked_add(other).unwrap()
    }
}

impl vstd::std_specs::ops::AddSpecImpl for Fraction {
    open spec fn obeys_add_spec() -> bool {
        true
    }

    open spec fn add_req(self, rhs: Fraction) -> bool {
        self.wf() && rhs.wf() && self.add_ok(rhs)
    }

    open spec fn add_spec(self, rhs: Fraction) -> Fraction {
        self.add_val(rhs)
    }
}

impl core::ops::Sub for Fraction {
    type Output = Fraction;

    /// The difference; the precondition (`sub_req`) demands well-formed
    /// operands whose cross products stay in range.
    fn sub(self, other: Fraction) -> (r: Fraction) {
        self.checked_sub(other).unwrap()
    }
}

impl vstd::std_specs::ops::SubSpecImpl for Fraction {
    open spec fn obeys_sub_spec() -> bool {
        true
    }

    open spec fn sub_req(self, rhs: Fraction) -> bool {
        self.wf() && rhs.wf() && self.sub_ok(rhs)
    }

    open spec fn sub_spec(self, rhs: Fraction) -> Fraction {
        self.sub_val(rhs)
    }
}

impl core::ops::Mul for Fraction {
    type Output = Fraction;

    /// The product; the precondition (`mul_req`) demands well-formed operands
    /// whose part products stay in range.
    fn mul(self, other: Fraction) -> (r: Fraction) {
        self.checked_mul(other).unwrap()
    }
}

impl vstd::std_specs::ops::MulSpecImpl for Fraction {
    open spec fn obeys_mul_spec() -> bool {
        true
    }

    open spec fn mul_req(self, rhs: Fraction) -> bool {
        self.wf() && rhs.wf() && self.mul_ok(rhs)
    }

    open spec fn mul_spec(self, rhs: Fraction) -> Fraction {
        self.mul_val(rhs)
    }
}

impl core::ops::Div for Fraction {
    type Output = Fraction;

    /// The quotient; the precondition (`div_req`) demands well-formed
    /// operands, a divisor numerator that is nonzero where it is divided by,
    /// and in-range cross products.
    fn div(self, other: Fraction) -> (r: Fraction) {
        self.checked_div(other).unwrap()
    }
}

impl vstd::std_specs::ops::DivSpecImpl for Fraction {
    open spec fn obeys_div_spec() -> bool {
        true
    }

    open spec fn div_req(self, rhs: Fraction) -> bool {
        self.wf() && rhs.wf() && self.div_ok(rhs)
    }

    open spec fn div_spec(self, rhs: Fraction) -> Fraction {
        self.div_val(rhs)
    }
}

impl core::ops::Neg for Fraction {
    type Output = Fraction;

    /// The negation; the precondition (`neg_req`) excludes the one numerator
    /// whose negation overflows.
    fn neg(self) -> (r: Fraction) {
        Fraction { numerator: -self.numerator, denominator: self.denominator }
    }
}

impl vstd::std_specs::ops::NegSpecImpl for Fraction {
    open spec fn obeys_neg_spec() -> bool {
        true
    }

    open spec fn neg_req(self) -> bool {
        self.numerator != i64::MIN
    }

    open spec fn neg_spec(self) -> Fraction {
        self.neg_val()
    }
}

/// The ordering of two integers.
pub open spec fn ord_int(x: int, y: int) -> core::cmp::Ordering {
    if x < y {
        core::cmp::Ordering::Less
    } else if x == y {
        core::cmp::Ordering::Equal
    } else {
        core::cmp::Ordering::Greater
    }
}

impl Fraction {
    /// The total order: infinities compare by their signed numerator, a
    /// signed zero by the sign of its denominator (reversed), finite values
    /// by exact cross multiplication.
    pub open spec fn cmp_val(self, o: Fraction) -> core::cmp::Ordering {
        if self.is_inf() || o.is_inf() {
            ord_int(self.numerator as int, o.numerator as int)
        } else if self.denominator == i64::MAX || self.denominator == -i64::MAX || o.denominator
            == i64::MAX || o.denominator == -i64::MAX {
            ord_int(o.denominator as int, self.denominator as int)
        } else {
            ord_int(
                self.numerator * o.denominator,
                o.numerator * self.denominator,
            )
        }
    }

    /// Strictly less, under the order above.
    pub open spec fn lt_val(self, o: Fraction) -> bool {
        self.cmp_val(o) == core::cmp::Ordering::Less
    }

    /// Less or equivalent, under the order above.
    pub open spec fn le_val(self, o: Fraction) -> bool {
        self.cmp_val(o) != core::cmp::Ordering::Greater
    }

    /// Strictly greater, under the order above.
    pub open spec fn gt_val(self, o: Fraction) -> bool {
        self.cmp_val(o) == core::cmp::Ordering::Greater
    }
}

/// The product of any two machine integers, computed in a wider type.
fn mul_i64_wide_total(x: i64, y: i64) -> (p: i128)
    ensures
        p == x * y,
{
    proof {
        let m = -(i64::MIN as int);
        assert(-(m * m) <= (x as int) * (y as int) <= m * m) by (nonlinear_arith)
            requires
                m == -(i64::MIN as int),
                -m <= x < m,
                -m <= y < m,
        ;
        assert(m * m < i128::MAX);
    }
    (x as i128) * (y as i128)
}

impl PartialOrd for Fraction {
    /// Total comparison by the sentinel rules, with exact wide-integer cross
    /// multiplication for finite operands.
    fn partial_cmp(&self, other: &Fraction) -> (r: Option<core::cmp::Ordering>) {
        if self.numerator == i64::MAX || self.numerator == -i64::MAX || other.numerator
            == i64::MAX || other.numerator == -i64::MAX {
            if self.numerator < other.numerator {
                Some(core::cmp::Ordering::Less)
            } else if self.numerator == other.numerator {
                Some(core::cmp::Ordering::Equal)
            } else {
                Some(core::cmp::Ordering::Greater)
            }
        } else if self.denominator == i64::MAX || self.denominator == -i64::MAX
            || other.denominator == i64::MAX || other.denominator == -i64::MAX {
            if other.denominator < self.denominator {
                Some(core::cmp::Ordering::Less)
            } else if other.denominator == self.denominator {
                Some(core::cmp::Ordering::Equal)
            } else {
                Some(core::cmp::Ordering::Greater)
            }
        } else {
            let lhs = mul_i64_wide_total(self.numerator, other.denominator);
            let rhs = mul_i64_wide_total(other.numerator, self.denominator);
            if lhs < rhs {
                Some(core::cmp::Ordering::Less)
            } else if lhs == rhs {
                Some(core::cmp::Ordering::Equal)
            } else {
                Some(core::cmp::Ordering::Greater)
            }
        }
    }
}

impl vstd::std_specs::cmp::PartialOrdSpecImpl for Fraction {
    open spec fn obeys_partial_cmp_spec() -> bool {
        true
    }

    open spec fn partial_cmp_spec(&self, other: &Fraction) -> Option<core::cmp::Ordering> {
        Some(self.cmp_val(*other))
    }
}

impl From<i64> for Fraction {
    /// The fraction `i / 1`.
    fn from(i: i64) -> (r: Fraction) {
        Fraction { numerator: i, denominator: 1 }
    }
}

impl vstd::std_specs::convert::FromSpecImpl<i64> for Fraction {
    open spec fn obeys_from_spec() -> bool {
        true
    }

    open spec fn from_spec(i: i64) -> Fraction {
        Fraction { numerator: i, denominator: 1 }
    }
}

/// The quotient of well-formed operands whose division stays in range is
/// itself well-formed, with a positive denominator.
pub proof fn lemma_div_val_wf(a: Fraction, b: Fraction)
    requires
        a.wf(),
        b.wf(),
        a.div_ok(b),
    ensures
        a.div_val(b).wf(),
        a.div_val(b).denominator > 0,
{
    if a.is_inf() && b.is_inf() {
        if (a.numerator > 0) != (b.numerator > 0) {
            lemma_canon_in_range(-(b.denominator as int), a.denominator as int);
        } else {
            lemma_canon_in_range(b.denominator as int, a.denominator as int);
        }
    } else if a.is_inf() {
    } else if b.is_inf() {
    } else if a.is_signed_zero() && b.is_signed_zero() {
        lemma_canon_in_range(a.numerator as int, b.numerator as int);
    } else if b.is_signed_zero() {
    } else if a.is_signed_zero() {
    } else {
        let dd = a.denominator * b.numerator;
        assert(dd != 0) by (nonlinear_arith)
            requires
                dd == a.denominator * b.numerator,
                a.denominator != 0,
                b.numerator != 0,
        ;
        lemma_canon_in_range(a.numerator * b.denominator, dd);
    }
}

/// Multiplying any well-formed fraction by minus one stays in range and
/// yields a well-formed result.
pub proof fn lemma_mul_neg_one_wf(v: Fraction)
    requires
        v.wf(),
    ensures
        v.mul_ok(Fraction { numerator: -1i64, denominator: 1i64 }),
        v.mul_val(Fraction { numerator: -1i64, denominator: 1i64 }).wf(),
{
    let o = Fraction { numerator: -1i64, denominator: 1i64 };
    if v.is_inf() {
    } else if v.is_signed_zero() {
    } else {
        lemma_canon_in_range(v.numerator * o.numerator, v.denominator * o.denominator);
    }
}

/// Subtracting a finite fraction from itself gives exactly the zero
/// fraction.
pub proof fn lemma_sub_self_zero(x: Fraction)
    requires
        x.wf(),
        x.is_finite(),
        x.sub_ok(x),
    ensures
        x.sub_val(x) == Fraction::from_int(0),
{
    let dd = x.denominator * x.denominator;
    assert(dd != 0) by (nonlinear_arith)
        requires
            dd == x.denominator * x.denominator,
            x.denominator != 0,
    ;
    assert(x.numerator * x.denominator - x.numerator * x.denominator == 0);
    lemma_canon_props(0, dd);
    assert(canon_num(0, dd) == 0 && canon_den(0, dd) == 1);
}

/// Law: reducing any well-formed fraction yields a pair in lowest terms —
/// coprime parts and a positive denominator — that cross-multiplies equally
/// with the original, so the value is unchanged.
pub proof fn lemma_reduce_in_lowest_terms(f: Fraction)
    requires
        f.wf(),
    ensures
        is_reduced(
            Fraction::canon(f.numerator as int, f.denominator as int).numerator as int,
            Fraction::canon(f.numerator as int, f.denominator as int).denominator as int,
        ),
        Fraction::canon(f.numerator as int, f.denominator as int).numerator * f.denominator
            == f.numerator * Fraction::canon(
            f.numerator as int,
            f.denominator as int,
        ).denominator,
{
    lemma_canon_props(f.numerator as int, f.denominator as int);
    lemma_canon_in_range(f.numerator as int, f.denominator as int);
}

/// Law: for a finite fraction `a` in lowest terms and a finite divisor `b`
/// with a nonzero value, dividing by `b` and multiplying by `b` again gives
/// back exactly `a`, provided the intermediate quotient stays in the machine
/// range and in the finite regime.
pub proof fn lemma_div_then_mul(a: Fraction, b: Fraction)
    requires
        a.wf(),
        b.wf(),
        a.is_finite(),
        b.is_finite(),
        b.numerator != 0,
        is_reduced(a.numerator as int, a.denominator as int),
        a.div_ok(b),
        a.div_val(b).is_finite(),
    ensures
        a.div_val(b).mul_val(b) == a,
{
    let nn = a.numerator * b.denominator;
    let dd = a.denominator * b.numerator;
    assert(dd != 0) by (nonlinear_arith)
        requires
            dd == a.denominator * b.numerator,
            a.denominator != 0,
            b.numerator != 0,
    ;
    lemma_canon_props(nn as int, dd as int);
    lemma_canon_in_range(nn as int, dd as int);
    let q = a.div_val(b);
    assert(q == Fraction::canon(nn as int, dd as int));
    assert(q.numerator == canon_num(nn as int, dd as int));
    assert(q.denominator == canon_den(nn as int, dd as int));
    // The quotient's cross-multiplied value equals nn / dd.
    assert(q.numerator * dd == nn * q.denominator);
    let pn = q.numerator * b.numerator;
    let pd = q.denominator * b.denominator;
    assert(q.mul_val(b) == Fraction::canon(pn as int, pd as int));
    // The product's value equals a's value: pn * a.d == a.n * pd.
    assert(pn * a.denominator == a.numerator * pd) by (nonlinear_arith)
        requires
            pn == q.numerator * b.numerator,
            pd == q.denominator * b.denominator,
            q.numerator * dd == nn * q.denominator,
            nn == a.numerator * b.denominator,
            dd == a.denominator * b.numerator,
            b.numerator != 0,
            b.denominator != 0,
    ;
    assert(pd != 0) by (nonlinear_arith)
        requires
            pd == q.denominator * b.denominator,
            q.denominator != 0,
            b.denominator != 0,
    ;
    lemma_canon_eq(pn as int, pd as int, a.numerator as int, a.denominator as int);
    lemma_canon_of_reduced(a.numerator as int, a.denominator as int);
    assert(canon_num(pn as int, pd as int) == a.numerator as int);
    assert(canon_den(pn as int, pd as int) == a.denominator as int);
}

} // verus!
