//! Exact rational arithmetic on a fixed-width representation.
//!
//! A `Num` holds a rational number as a reduced fraction: a numerator
//! and a positive denominator with no common factor.  The form is
//! canonical, so two `Num` values are structurally equal exactly when
//! they denote the same rational.  Every operation states, over the
//! mathematical view, both the value it produces and the exact
//! condition under which the fixed width is exceeded.

use vstd::prelude::*;
use vstd::arithmetic::div_mod::{lemma_div_multiples_vanish, lemma_fundamental_div_mod};
use vstd::math::abs;

verus! {

/// The mathematical value of a `Num`: a fraction of unbounded
/// integers.
pub ghost struct Rat {
    pub num: int,
    pub den: int,
}

/// Greatest common divisor of two non-negative integers, by Euclid.
pub open spec fn gcd(a: int, b: int) -> int
    decreases b,
{
    if b <= 0 {
        a
    } else {
        gcd(b, a % b)
    }
}

/// `d` divides `n` exactly.
pub open spec fn divides(d: int, n: int) -> bool {
    exists|k: int| n == #[trigger] (k * d)
}

/// `x` is representable: its magnitude stays within the signed
/// 128-bit word (the most negative word is excluded so that negation
/// is always possible).
pub open spec fn in_mag(x: int) -> bool {
    -(i128::MAX as int) <= x && x <= i128::MAX as int
}

/// A well-formed rational view: positive representable denominator,
/// representable numerator, fraction fully reduced.
pub open spec fn rat_wf(r: Rat) -> bool {
    &&& 1 <= r.den <= i128::MAX as int
    &&& in_mag(r.num)
    &&& gcd(abs(r.num) as int, r.den) == 1
}

/// The reduced form of the fraction `n / d`.
pub open spec fn norm_rat(n: int, d: int) -> Rat {
    let g = gcd(abs(n) as int, d);
    Rat { num: n / g, den: d / g }
}

proof fn lemma_gcd_divides(a: int, b: int)
    requires
        a >= 0,
        b >= 0,
    ensures
        divides(gcd(a, b), a),
        divides(gcd(a, b), b),
        gcd(a, b) >= 0,
        a >= 1 ==> gcd(a, b) >= 1,
        b >= 1 ==> gcd(a, b) >= 1,
    decreases b,
{
    if b <= 0 {
        assert(a == 1 * a);
        assert(b == 0 * a);
    } else {
        lemma_gcd_divides(b, a % b);
        let g = gcd(a, b);
        assert(g == gcd(b, a % b));
        let kb = choose|k: int| b == #[trigger] (k * g);
        let kr = choose|k: int| a % b == #[trigger] (k * g);
        lemma_fundamental_div_mod(a, b);
        let q = a / b;
        assert(a == (q * kb + kr) * g) by (nonlinear_arith)
            requires
                a == b * q + a % b,
                b == kb * g,
                a % b == kr * g,
        ;
    }
}

proof fn lemma_divides_gcd(c: int, a: int, b: int)
    requires
        c >= 1,
        a >= 0,
        b >= 0,
        divides(c, a),
        divides(c, b),
    ensures
        divides(c, gcd(a, b)),
    decreases b,
{
    if b <= 0 {
    } else {
        let ka = choose|k: int| a == #[trigger] (k * c);
        let kb = choose|k: int| b == #[trigger] (k * c);
        lemma_fundamental_div_mod(a, b);
        let q = a / b;
        assert(a % b == a - q * b);
        assert(a % b == (ka - q * kb) * c) by (nonlinear_arith)
            requires
                a % b == a - q * b,
                a == ka * c,
                b == kb * c,
        ;
        lemma_divides_gcd(c, b, a % b);
    }
}

proof fn lemma_divides_le(c: int, n: int)
    requires
        c >= 1,
        n >= 1,
        divides(c, n),
    ensures
        c <= n,
{
    let k = choose|k: int| n == #[trigger] (k * c);
    assert(k >= 1 && n >= c) by (nonlinear_arith)
        requires
            n == k * c,
            c >= 1,
            n >= 1,
    ;
}

/// Dividing both sides of a fraction by their gcd yields a reduced
/// fraction with the same value.
proof fn lemma_quotient_coprime(a: int, b: int)
    requires
        a >= 0,
        b >= 1,
    ensures
        gcd(a, b) >= 1,
        (a / gcd(a, b)) * gcd(a, b) == a,
        (b / gcd(a, b)) * gcd(a, b) == b,
        a / gcd(a, b) >= 0,
        b / gcd(a, b) >= 1,
        a / gcd(a, b) <= a,
        b / gcd(a, b) <= b,
        gcd(a / gcd(a, b), b / gcd(a, b)) == 1,
        a == 0 ==> a / gcd(a, b) == 0 && b / gcd(a, b) == 1,
{
    lemma_gcd_divides(a, b);
    let g = gcd(a, b);
    let ka = choose|k: int| a == #[trigger] (k * g);
    let kb = choose|k: int| b == #[trigger] (k * g);
    lemma_div_multiples_vanish(ka, g);
    lemma_div_multiples_vanish(kb, g);
    assert(g * ka == ka * g && g * kb == kb * g) by (nonlinear_arith);
    assert(a / g == ka && b / g == kb);
    assert(ka >= 0 && kb >= 1 && ka <= a && kb <= b) by (nonlinear_arith)
        requires
            a == ka * g,
            b == kb * g,
            g >= 1,
            a >= 0,
            b >= 1,
    ;
    let g2 = gcd(ka, kb);
    lemma_gcd_divides(ka, kb);
    let ja = choose|k: int| ka == #[trigger] (k * g2);
    let jb = choose|k: int| kb == #[trigger] (k * g2);
    assert(a == ja * (g2 * g) && b == jb * (g2 * g) && g2 * g >= 1) by (nonlinear_arith)
        requires
            a == ka * g,
            b == kb * g,
            ka == ja * g2,
            kb == jb * g2,
            g >= 1,
            g2 >= 1,
    ;
    lemma_divides_gcd(g2 * g, a, b);
    lemma_divides_le(g2 * g, g);
    assert(g2 == 1) by (nonlinear_arith)
        requires
            g2 * g <= g,
            g >= 1,
            g2 >= 1,
    ;
    if a == 0 {
        assert(0int % b == 0);
        assert(gcd(0int, b) == gcd(b, 0int));
        assert(gcd(b, 0int) == b);
        assert(ka == 0) by (nonlinear_arith)
            requires
                0 == ka * g,
                g >= 1,
                ka >= 0,
        ;
        assert(kb == 1) by (nonlinear_arith)
            requires
                b == kb * g,
                g == b,
                b >= 1,
        ;
    }
}

/// The reduced form is well formed, keeps the value, and does not
/// grow either side of the fraction.
pub proof fn lemma_norm_rat(n: int, d: int)
    requires
        1 <= d <= i128::MAX as int,
        in_mag(n),
    ensures
        rat_wf(norm_rat(n, d)),
        norm_rat(n, d).num * d == n * norm_rat(n, d).den,
        gcd(abs(n) as int, d) >= 1,
        abs(norm_rat(n, d).num) as int == abs(n) as int / gcd(abs(n) as int, d),
        abs(norm_rat(n, d).num) <= abs(n),
        1 <= norm_rat(n, d).den <= d,
        norm_rat(n, d).num >= 0 <==> n >= 0,
        n == 0 ==> norm_rat(n, d) == (Rat { num: 0, den: 1 }),
{
    let m = abs(n) as int;
    lemma_quotient_coprime(m, d);
    let g = gcd(m, d);
    let km = m / g;
    let r = norm_rat(n, d);
    assert(km * g == m);
    assert(m >= 1 ==> km >= 1) by (nonlinear_arith)
        requires
            km * g == m,
            km >= 0,
    ;
    if n >= 0 {
        assert(r.num == km);
    } else {
        assert(n == (-km) * g) by (nonlinear_arith)
            requires
                n == -m,
                km * g == m,
        ;
        lemma_div_multiples_vanish(-km, g);
        assert(g * (-km) == (-km) * g) by (nonlinear_arith);
        assert(r.num == -km);
        assert(km >= 1);
    }
    assert(abs(r.num) as int == km);
    assert(r.num * d == n * r.den) by (nonlinear_arith)
        requires
            km * g == m,
            (d / g) * g == d,
            r.den == d / g,
            m == abs(n) as int,
            n >= 0 ==> r.num == km && n == m,
            n < 0 ==> r.num == -km && n == -m,
    ;
}

/// An exact rational in reduced form.
#[derive(Debug, PartialEq, Eq, Structural, Clone, Copy)]
pub struct Num {
    num: i128,
    den: i128,
}

impl View for Num {
    type V = Rat;

    closed spec fn view(&self) -> Rat {
        Rat { num: self.num as int, den: self.den as int }
    }
}

/// An `Option<Num>` seen as an optional mathematical value.
pub open spec fn opt_view(o: Option<Num>) -> Option<Rat> {
    match o {
        Some(n) => Some(n@),
        None => None,
    }
}

/// The exact sum, or `None` where an intermediate product or the sum
/// leaves the representable range.
pub open spec fn spec_add(a: Rat, b: Rat) -> Option<Rat> {
    let n1 = a.num * b.den;
    let n2 = b.num * a.den;
    let d = a.den * b.den;
    if in_mag(n1) && in_mag(n2) && in_mag(n1 + n2) && in_mag(d) {
        Some(norm_rat(n1 + n2, d))
    } else {
        None
    }
}

/// The exact difference, under the same width condition as the sum.
pub open spec fn spec_sub(a: Rat, b: Rat) -> Option<Rat> {
    let n1 = a.num * b.den;
    let n2 = b.num * a.den;
    let d = a.den * b.den;
    if in_mag(n1) && in_mag(n2) && in_mag(n1 - n2) && in_mag(d) {
        Some(norm_rat(n1 - n2, d))
    } else {
        None
    }
}

/// The exact product, or `None` where a product leaves the
/// representable range.
pub open spec fn spec_mul(a: Rat, b: Rat) -> Option<Rat> {
    let n = a.num * b.num;
    let d = a.den * b.den;
    if in_mag(n) && in_mag(d) {
        Some(norm_rat(n, d))
    } else {
        None
    }
}

/// The exact quotient of `a` by a non-zero `b`, or `None` where a
/// product leaves the representable range.
pub open spec fn spec_div(a: Rat, b: Rat) -> Option<Rat> {
    let n0 = a.num * b.den;
    let d0 = a.den * b.num;
    if in_mag(n0) && in_mag(d0) {
        if d0 < 0 {
            Some(norm_rat(-n0, -d0))
        } else {
            Some(norm_rat(n0, d0))
        }
    } else {
        None
    }
}

/// Euclid's algorithm.
fn gcd_exec(a0: u128, b0: u128) -> (g: u128)
    ensures
        g as int == gcd(a0 as int, b0 as int),
{
    let mut a = a0;
    let mut b = b0;
    while b != 0
        invariant
            gcd(a as int, b as int) == gcd(a0 as int, b0 as int),
        decreases b,
    {
        let t = a % b;
        a = b;
        b = t;
    }
    a
}

impl Num {
    /// The representation invariant: the view is always a reduced
    /// fraction with a positive denominator.
    #[verifier::type_invariant]
    pub open spec fn inv(self) -> bool {
        rat_wf(self@)
    }

    /// Builds the reduced form of `n / d`; private, the arithmetic
    /// operations funnel through it.
    fn from_raw(n: i128, d: i128) -> (r: Num)
        requires
            1 <= d,
            n != i128::MIN,
        ensures
            r@ == norm_rat(n as int, d as int),
    {
        proof {
            lemma_norm_rat(n as int, d as int);
            lemma_quotient_coprime(abs(n as int) as int, d as int);
        }
        let mag: u128 = if n < 0 {
            (-n) as u128
        } else {
            n as u128
        };
        let g: u128 = gcd_exec(mag, d as u128);
        let q: u128 = mag / g;
        let dq: u128 = (d as u128) / g;
        let rn: i128 = if n < 0 {
            -(q as i128)
        } else {
            q as i128
        };
        Num { num: rn, den: dq as i128 }
    }

    /// The rational with value `n`.
    pub fn from_int(n: i64) -> (r: Num)
        ensures
            r@ == (Rat { num: n as int, den: 1 }),
    {
        proof {
            lemma_norm_rat(n as int, 1);
        }
        Self::from_raw(n as i128, 1)
    }

    /// The reduced rational `n / d`; `None` for a zero denominator or
    /// for the most negative word, which has no magnitude.
    pub fn ratio(n: i128, d: i128) -> (r: Option<Num>)
        ensures
            d == 0 || n == i128::MIN || d == i128::MIN ==> r is None,
            d >= 1 && n != i128::MIN ==> opt_view(r) == Some(norm_rat(n as int, d as int)),
            d <= -1 && n != i128::MIN && d != i128::MIN ==> opt_view(r) == Some(
                norm_rat(-n as int, -d as int),
            ),
    {
        if d == 0 || n == i128::MIN || d == i128::MIN {
            return None;
        }
        if d < 0 {
            Some(Self::from_raw(-n, -d))
        } else {
            Some(Self::from_raw(n, d))
        }
    }

    /// The numerator of the reduced form.
    pub fn numerator(&self) -> (n: i128)
        ensures
            n as int == self@.num,
    {
        self.num
    }

    /// The denominator of the reduced form; always positive.
    pub fn denominator(&self) -> (d: i128)
        ensures
            d as int == self@.den,
    {
        self.den
    }

    /// The value is exactly zero.
    pub fn is_zero(&self) -> (b: bool)
        ensures
            b == (self@.num == 0),
    {
        self.num == 0
    }

    /// Exact addition; `None` reports that the fixed width was
    /// exceeded.
    pub fn add(&self, other: &Num) -> (r: Option<Num>)
        ensures
            opt_view(r) == spec_add(self@, other@),
    {
        proof {
            use_type_invariant(self);
            use_type_invariant(other);
        }
        let n1 = match self.num.checked_mul(other.den) {
            Some(x) => x,
            None => {
                return None;
            },
        };
        let n2 = match other.num.checked_mul(self.den) {
            Some(x) => x,
            None => {
                return None;
            },
        };
        let n = match n1.checked_add(n2) {
            Some(x) => x,
            None => {
                return None;
            },
        };
        let d = match self.den.checked_mul(other.den) {
            Some(x) => x,
            None => {
                return None;
            },
        };
        if n1 == i128::MIN || n2 == i128::MIN || n == i128::MIN {
            return None;
        }
        proof {
            assert(d >= 1) by (nonlinear_arith)
                requires
                    d == self@.den * other@.den,
                    self@.den >= 1,
                    other@.den >= 1,
            ;
        }
        Some(Self::from_raw(n, d))
    }

    /// Exact subtraction; `None` reports that the fixed width was
    /// exceeded.
    pub fn sub(&self, other: &Num) -> (r: Option<Num>)
        ensures
            opt_view(r) == spec_sub(self@, other@),
    {
        proof {
            use_type_invariant(self);
            use_type_invariant(other);
        }
        let n1 = match self.num.checked_mul(other.den) {
            Some(x) => x,
            None => {
                return None;
            },
        };
        let n2 = match other.num.checked_mul(self.den) {
            Some(x) => x,
            None => {
                return None;
            },
        };
        let n = match n1.checked_sub(n2) {
            Some(x) => x,
            None => {
                return None;
            },
        };
        let d = match self.den.checked_mul(other.den) {
            Some(x) => x,
            None => {
                return None;
            },
        };
        if n1 == i128::MIN || n2 == i128::MIN || n == i128::MIN {
            return None;
        }
        proof {
            assert(d >= 1) by (nonlinear_arith)
                requires
                    d == self@.den * other@.den,
                    self@.den >= 1,
                    other@.den >= 1,
            ;
        }
        Some(Self::from_raw(n, d))
    }

    /// Exact multiplication; `None` reports that the fixed width was
    /// exceeded.
    pub fn mul(&self, other: &Num) -> (r: Option<Num>)
        ensures
            opt_view(r) == spec_mul(self@, other@),
    {
        proof {
            use_type_invariant(self);
            use_type_invariant(other);
        }
        let n = match self.num.checked_mul(other.num) {
            Some(x) => x,
            None => {
                return None;
            },
        };
        let d = match self.den.checked_mul(other.den) {
            Some(x) => x,
            None => {
                return None;
            },
        };
        if n == i128::MIN {
            return None;
        }
        proof {
            assert(d >= 1) by (nonlinear_arith)
                requires
                    d == self@.den * other@.den,
                    self@.den >= 1,
                    other@.den >= 1,
            ;
        }
        Some(Self::from_raw(n, d))
    }

    /// Exact division by a non-zero divisor; `None` reports that the
    /// fixed width was exceeded.
    pub fn div(&self, other: &Num) -> (r: Option<Num>)
        requires
            other@.num != 0,
        ensures
            opt_view(r) == spec_div(self@, other@),
    {
        proof {
            use_type_invariant(self);
            use_type_invariant(other);
        }
        let n0 = match self.num.checked_mul(other.den) {
            Some(x) => x,
            None => {
                return None;
            },
        };
        let d0 = match self.den.checked_mul(other.num) {
            Some(x) => x,
            None => {
                return None;
            },
        };
        if n0 == i128::MIN || d0 == i128::MIN {
            return None;
        }
        proof {
            assert(d0 != 0) by (nonlinear_arith)
                requires
                    d0 == self@.den * other@.num,
                    self@.den >= 1,
                    other@.num != 0,
            ;
        }
        if d0 < 0 {
            Some(Self::from_raw(-n0, -d0))
        } else {
            Some(Self::from_raw(n0, d0))
        }
    }
}

} // verus!
