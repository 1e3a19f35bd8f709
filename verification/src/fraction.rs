//! Exact signed ratios of wide numbers. A ratio stands for a real number, and
//! two ratios are compared by cross-multiplication, without rounding.

use crate::wide::{Rank, Wide};
use vstd::prelude::*;

verus! {

/// The real number `num / den`.
pub open spec fn ratio(num: int, den: int) -> real {
    (num as real) / (den as real)
}

/// The integer `magnitude`, with a minus sign where `negative` holds.
pub open spec fn signed(negative: bool, magnitude: nat) -> int {
    if negative {
        -(magnitude as int)
    } else {
        magnitude as int
    }
}

/// Two ratios with positive denominators are ordered as their cross products.
pub proof fn lemma_ratio_order(a: int, b: int, c: int, d: int)
    by (nonlinear_arith)
    requires
        b > 0,
        d > 0,
    ensures
        ratio(a, b) < ratio(c, d) <==> a * d < c * b,
        ratio(a, b) == ratio(c, d) <==> a * d == c * b,
{
}

/// A ratio has the sign of its numerator, and a ratio over one is its numerator.
pub proof fn lemma_ratio_sign(a: int, b: int)
    by (nonlinear_arith)
    requires
        b > 0,
    ensures
        ratio(a, b) == 0real <==> a == 0,
        ratio(a, b) < 0real <==> a < 0,
        ratio(-a, b) == -ratio(a, b),
        ratio(a, 1) == a as real,
{
}

/// The sum of two ratios.
pub proof fn lemma_ratio_sum(a: int, b: int, c: int, d: int)
    by (nonlinear_arith)
    requires
        b > 0,
        d > 0,
    ensures
        ratio(a, b) + ratio(c, d) == ratio(a * d + c * b, b * d),
        b * d > 0,
{
}

/// The product of two ratios.
pub proof fn lemma_ratio_product(a: int, b: int, c: int, d: int)
    by (nonlinear_arith)
    requires
        b > 0,
        d > 0,
    ensures
        ratio(a, b) * ratio(c, d) == ratio(a * c, b * d),
        b * d > 0,
{
}

/// The inverse of a ratio that is not zero.
pub proof fn lemma_ratio_inverse(a: int, b: int)
    by (nonlinear_arith)
    requires
        a > 0,
        b > 0,
    ensures
        1real / ratio(a, b) == ratio(b, a),
        1real / ratio(-a, b) == ratio(-b, a),
{
}

/// An exact ratio of two wide numbers, with a sign.
#[derive(Debug)]
pub struct Fraction {
    negative: bool,
    num: Wide,
    den: Wide,
}

impl Fraction {
    /// A ratio is well formed when its denominator is not zero.
    pub closed spec fn wf(self) -> bool {
        self.den@ > 0
    }

    #[verifier::type_invariant]
    spec fn inv(self) -> bool {
        self.wf()
    }

    /// The numerator with its sign.
    pub closed spec fn top(self) -> int {
        signed(self.negative, self.num@)
    }

    /// The denominator, which is positive.
    pub closed spec fn bottom(self) -> int {
        self.den@ as int
    }

    /// The real number that the ratio stands for.
    pub open spec fn value(self) -> real {
        ratio(self.top(), self.bottom())
    }

    /// The ratio `num / den`, negated where `negative` holds.
    pub fn new(negative: bool, num: Wide, den: Wide) -> (r: Fraction)
        requires
            den@ > 0,
        ensures
            r.wf(),
            r.top() == signed(negative, num@),
            r.bottom() == den@,
    {
        Fraction { negative, num, den }
    }

    /// The ratio `num / den`, negated where `negative` holds.
    pub fn from_u128(negative: bool, num: u128, den: u128) -> (r: Fraction)
        requires
            den > 0,
        ensures
            r.wf(),
            r.top() == signed(negative, num as nat),
            r.bottom() == den,
    {
        Fraction { negative, num: Wide::from_u128(num), den: Wide::from_u128(den) }
    }

    /// The whole number `n`.
    pub fn from_u64(n: u64) -> (r: Fraction)
        ensures
            r.wf(),
            r.top() == n,
            r.bottom() == 1,
            r.value() == n as real,
    {
        proof {
            lemma_ratio_sign(n as int, 1);
        }
        Fraction { negative: false, num: Wide::from_u64(n), den: Wide::from_u64(1) }
    }

    /// Whether a minus sign stands before the ratio. Zero may carry one.
    pub fn is_negative(&self) -> (r: bool)
        ensures
            r ==> self.top() <= 0,
            !r ==> self.top() >= 0,
    {
        self.negative
    }

    /// The numerator without its sign.
    pub fn numerator(&self) -> (r: &Wide)
        ensures
            r@ == if self.top() < 0 { -self.top() } else { self.top() },
    {
        &self.num
    }

    /// The denominator.
    pub fn denominator(&self) -> (r: &Wide)
        ensures
            r@ == self.bottom(),
            r@ > 0,
    {
        proof {
            use_type_invariant(self);
        }
        &self.den
    }

    /// Whether the ratio is zero.
    pub fn is_zero(&self) -> (r: bool)
        ensures
            r == (self.value() == 0real),
    {
        proof {
            use_type_invariant(self);
            lemma_ratio_sign(self.top(), self.bottom());
        }
        self.num.is_zero()
    }

    /// How `self` stands to `other`, as real numbers.
    pub fn rank(&self, other: &Fraction) -> (r: Rank)
        ensures
            r is Less <==> self.value() < other.value(),
            r is Equal <==> self.value() == other.value(),
            r is Greater <==> self.value() > other.value(),
    {
        proof {
            use_type_invariant(self);
            use_type_invariant(other);
            lemma_ratio_order(self.top(), self.bottom(), other.top(), other.bottom());
            lemma_ratio_order(other.top(), other.bottom(), self.top(), self.bottom());
        }
        let left = self.num.times(&other.den);
        let right = other.num.times(&self.den);
        proof {
            let (a, b) = (self.num@ as int, self.den@ as int);
            let (c, d) = (other.num@ as int, other.den@ as int);
            assert((-a) * d == -(a * d)) by (nonlinear_arith);
            assert((-c) * b == -(c * b)) by (nonlinear_arith);
            assert(a * d >= 0 && c * b >= 0) by (nonlinear_arith)
                requires
                    a >= 0,
                    b >= 0,
                    c >= 0,
                    d >= 0,
            ;
        }
        if self.negative {
            if other.negative {
                right.rank(&left)
            } else if left.is_zero() && right.is_zero() {
                Rank::Equal
            } else {
                Rank::Less
            }
        } else {
            if !other.negative {
                left.rank(&right)
            } else if left.is_zero() && right.is_zero() {
                Rank::Equal
            } else {
                Rank::Greater
            }
        }
    }

    /// The ratio with the other sign.
    pub fn negated(&self) -> (r: Fraction)
        ensures
            r.wf(),
            r.value() == -self.value(),
    {
        proof {
            use_type_invariant(self);
            lemma_ratio_sign(self.top(), self.bottom());
        }
        Fraction {
            negative: !self.negative,
            num: Wide::from_limbs(copy_limbs(self.num.limbs())),
            den: Wide::from_limbs(copy_limbs(self.den.limbs())),
        }
    }

    /// The sum of two ratios.
    pub fn plus(&self, other: &Fraction) -> (r: Fraction)
        ensures
            r.wf(),
            r.value() == self.value() + other.value(),
    {
        proof {
            use_type_invariant(self);
            use_type_invariant(other);
            lemma_ratio_sum(self.top(), self.bottom(), other.top(), other.bottom());
        }
        let left = self.num.times(&other.den);
        let right = other.num.times(&self.den);
        let den = self.den.times(&other.den);
        proof {
            let (a, b) = (self.num@ as int, self.den@ as int);
            let (c, d) = (other.num@ as int, other.den@ as int);
            assert((-a) * d == -(a * d)) by (nonlinear_arith);
            assert((-c) * b == -(c * b)) by (nonlinear_arith);
        }
        if self.negative == other.negative {
            Fraction { negative: self.negative, num: left.plus(&right), den }
        } else {
            let negative = match left.rank(&right) {
                Rank::Less => other.negative,
                _ => self.negative,
            };
            Fraction { negative, num: left.abs_diff(&right), den }
        }
    }

    /// The difference of two ratios.
    pub fn minus(&self, other: &Fraction) -> (r: Fraction)
        ensures
            r.wf(),
            r.value() == self.value() - other.value(),
    {
        let back = other.negated();
        self.plus(&back)
    }

    /// The product of two ratios.
    pub fn times(&self, other: &Fraction) -> (r: Fraction)
        ensures
            r.wf(),
            r.value() == self.value() * other.value(),
    {
        proof {
            use_type_invariant(self);
            use_type_invariant(other);
            lemma_ratio_product(self.top(), self.bottom(), other.top(), other.bottom());
            let (a, c) = (self.num@ as int, other.num@ as int);
            assert((-a) * c == -(a * c)) by (nonlinear_arith);
            assert(a * (-c) == -(a * c)) by (nonlinear_arith);
            assert((-a) * (-c) == a * c) by (nonlinear_arith);
        }
        Fraction {
            negative: self.negative != other.negative,
            num: self.num.times(&other.num),
            den: self.den.times(&other.den),
        }
    }

    /// One divided by the ratio, which must not be zero.
    pub fn inverse(&self) -> (r: Fraction)
        requires
            self.value() != 0real,
        ensures
            r.wf(),
            r.value() == 1real / self.value(),
    {
        proof {
            use_type_invariant(self);
            lemma_ratio_sign(self.top(), self.bottom());
            lemma_ratio_inverse(self.num@ as int, self.den@ as int);
        }
        Fraction {
            negative: self.negative,
            num: Wide::from_limbs(copy_limbs(self.den.limbs())),
            den: Wide::from_limbs(copy_limbs(self.num.limbs())),
        }
    }
}

/// A copy of the limbs.
fn copy_limbs(limbs: &Vec<u64>) -> (out: Vec<u64>)
    ensures
        out@ == limbs@,
{
    let mut out: Vec<u64> = Vec::new();
    let mut i: usize = 0;
    while i < limbs.len()
        invariant
            i <= limbs@.len(),
            out@ =~= limbs@.take(i as int),
        decreases limbs@.len() - i,
    {
        out.push(limbs[i]);
        i += 1;
    }
    assert(limbs@.take(limbs@.len() as int) =~= limbs@);
    out
}

} // verus!
