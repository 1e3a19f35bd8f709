//! Natural numbers of any size, held as 64-bit limbs with the least significant
//! limb first. The products that an exact comparison of two ratios needs do not
//! fit a machine word; these do not overflow.

use vstd::prelude::*;

verus! {

/// The weight of the limb at place `n`: 2^(64 n).
pub open spec fn limb_weight(n: nat) -> nat
    decreases n,
{
    if n == 0 {
        1
    } else {
        0x1_0000_0000_0000_0000 * limb_weight((n - 1) as nat)
    }
}

/// The number that a sequence of limbs denotes, least significant limb first.
pub open spec fn limbs_value(limbs: Seq<u64>) -> nat
    decreases limbs.len(),
{
    if limbs.len() == 0 {
        0
    } else {
        limbs[0] as nat + 0x1_0000_0000_0000_0000 * limbs_value(limbs.drop_first())
    }
}

/// A number is the value of its low limbs plus the weighted value of the rest.
pub proof fn lemma_value_split(s: Seq<u64>, k: int)
    requires
        0 <= k <= s.len(),
    ensures
        limbs_value(s) == limbs_value(s.take(k)) + limb_weight(k as nat) * limbs_value(s.skip(k)),
    decreases k,
{
    if k == 0 {
        assert(s.skip(0) =~= s);
        assert(s.take(0).len() == 0);
        assert(limb_weight(0) * limbs_value(s) == limbs_value(s)) by (nonlinear_arith)
            requires
                limb_weight(0) == 1,
        ;
    } else {
        let t = s.drop_first();
        lemma_value_split(t, k - 1);
        assert(s.take(k).drop_first() =~= t.take(k - 1));
        assert(s.skip(k) =~= t.skip(k - 1));
        let lo = limbs_value(t.take(k - 1));
        let hi = limbs_value(t.skip(k - 1));
        let w = limb_weight((k - 1) as nat);
        assert(limbs_value(s) == s[0] as nat + 0x1_0000_0000_0000_0000 * limbs_value(t));
        assert(limbs_value(s.take(k)) == s.take(k)[0] as nat + 0x1_0000_0000_0000_0000 * lo);
        assert(limb_weight(k as nat) == 0x1_0000_0000_0000_0000 * w);
        assert(0x1_0000_0000_0000_0000 * (lo + w * hi) == 0x1_0000_0000_0000_0000 * lo + (
        0x1_0000_0000_0000_0000 * w) * hi) by (nonlinear_arith);
    }
}

/// Appending a limb adds it with the weight of its place.
pub proof fn lemma_value_push(s: Seq<u64>, x: u64)
    ensures
        limbs_value(s.push(x)) == limbs_value(s) + x * limb_weight(s.len()),
{
    let p = s.push(x);
    lemma_value_split(p, s.len() as int);
    assert(p.take(s.len() as int) =~= s);
    let last = p.skip(s.len() as int);
    assert(last.len() == 1 && last[0] == x);
    assert(last.drop_first().len() == 0);
    assert(limbs_value(last) == x as nat + 0x1_0000_0000_0000_0000 * limbs_value(
        last.drop_first(),
    ));
    assert(limb_weight(s.len()) * (x as nat) == x * limb_weight(s.len())) by (nonlinear_arith);
}

/// A number of `n` limbs is below 2^(64 n).
pub proof fn lemma_value_bound(s: Seq<u64>)
    ensures
        limbs_value(s) < limb_weight(s.len()),
    decreases s.len(),
{
    if s.len() > 0 {
        lemma_value_bound(s.drop_first());
    }
}

/// Two numbers of the same length that agree above place `k` are ordered as
/// their limbs at place `k`.
pub proof fn lemma_value_order(a: Seq<u64>, b: Seq<u64>, k: int)
    requires
        a.len() == b.len(),
        0 <= k < a.len(),
        forall|j: int| k < j < a.len() ==> a[j] == b[j],
        a[k] < b[k],
    ensures
        limbs_value(a) < limbs_value(b),
{
    lemma_value_split(a, k + 1);
    lemma_value_split(b, k + 1);
    assert(a.skip(k + 1) =~= b.skip(k + 1));
    assert(a.take(k + 1) =~= a.take(k).push(a[k]));
    assert(b.take(k + 1) =~= b.take(k).push(b[k]));
    lemma_value_push(a.take(k), a[k]);
    lemma_value_push(b.take(k), b[k]);
    lemma_value_bound(a.take(k));
    let w = limb_weight(k as nat);
    assert((a[k] + 1) * w <= b[k] * w) by (nonlinear_arith)
        requires
            a[k] + 1 <= b[k],
            w >= 0,
    ;
    assert((a[k] + 1) * w == a[k] * w + w) by (nonlinear_arith);
}

/// How one number stands to another.
#[derive(Clone, Copy, Debug, PartialEq, Eq, Structural)]
pub enum Rank {
    Less,
    Equal,
    Greater,
}

/// A natural number of any size.
#[derive(Debug)]
pub struct Wide {
    limbs: Vec<u64>,
}

impl View for Wide {
    type V = nat;

    closed spec fn view(&self) -> nat {
        limbs_value(self.limbs@)
    }
}

/// The limbs of `limbs`, followed by zeros up to the length `n`.
fn padded(limbs: &Vec<u64>, n: usize) -> (out: Vec<u64>)
    ensures
        out@.len() == if n > limbs@.len() { n as nat } else { limbs@.len() },
        limbs_value(out@) == limbs_value(limbs@),
{
    let mut out: Vec<u64> = Vec::new();
    let mut i: usize = 0;
    while i < limbs.len()
        invariant
            i <= limbs@.len(),
            out@ =~= limbs@.take(i as int),
        decreases limbs@.len() - i,
    {
        out.push(limbs[i]);
        i += 1;
    }
    assert(limbs@.take(limbs@.len() as int) =~= limbs@);
    while i < n
        invariant
            limbs@.len() <= i,
            i == limbs@.len() || i <= n,
            out@.len() == i,
            limbs_value(out@) == limbs_value(limbs@),
        decreases n - i,
    {
        proof {
            lemma_value_push(out@, 0);
        }
        out.push(0);
        i += 1;
    }
    out
}

/// The difference of two numbers of the same length, the first not below the
/// second.
fn sub_limbs(a: &Vec<u64>, b: &Vec<u64>) -> (out: Vec<u64>)
    requires
        a@.len() == b@.len(),
        limbs_value(a@) >= limbs_value(b@),
    ensures
        limbs_value(out@) == limbs_value(a@) - limbs_value(b@),
{
    let n = a.len();
    let mut out: Vec<u64> = Vec::new();
    let mut borrow: u64 = 0;
    let mut i: usize = 0;
    while i < n
        invariant
            n == a@.len(),
            n == b@.len(),
            i <= n,
            out@.len() == i,
            borrow <= 1,
            limbs_value(out@) + limbs_value(b@.take(i as int)) == limbs_value(a@.take(i as int))
                + borrow * limb_weight(i as nat),
        decreases n - i,
    {
        let x: u128 = a[i] as u128 + 0x1_0000_0000_0000_0000u128;
        let y: u128 = b[i] as u128 + borrow as u128;
        let t: u128 = x - y;
        let lo: u64 = (t % 0x1_0000_0000_0000_0000u128) as u64;
        let next: u64 = if t < 0x1_0000_0000_0000_0000u128 {
            1
        } else {
            0
        };
        proof {
            let w = limb_weight(i as nat);
            assert(a@.take(i + 1) =~= a@.take(i as int).push(a@[i as int]));
            assert(b@.take(i + 1) =~= b@.take(i as int).push(b@[i as int]));
            lemma_value_push(a@.take(i as int), a@[i as int]);
            lemma_value_push(b@.take(i as int), b@[i as int]);
            lemma_value_push(out@, lo);
            assert(lo + b@[i as int] + borrow == a@[i as int] + next * 0x1_0000_0000_0000_0000);
            assert((lo + b@[i as int] + borrow) * w == (a@[i as int] + next
                * 0x1_0000_0000_0000_0000) * w);
            assert((lo + b@[i as int] + borrow) * w == lo * w + b@[i as int] * w + borrow * w)
                by (nonlinear_arith);
            assert((a@[i as int] + next * 0x1_0000_0000_0000_0000) * w == a@[i as int] * w + next
                * (0x1_0000_0000_0000_0000 * w)) by (nonlinear_arith);
        }
        out.push(lo);
        borrow = next;
        i += 1;
    }
    proof {
        assert(a@.take(n as int) =~= a@);
        assert(b@.take(n as int) =~= b@);
        lemma_value_bound(out@);
        if borrow == 1 {
            assert(borrow * limb_weight(n as nat) == limb_weight(n as nat)) by (nonlinear_arith)
                requires
                    borrow == 1,
            ;
        } else {
            assert(borrow * limb_weight(n as nat) == 0) by (nonlinear_arith)
                requires
                    borrow == 0,
            ;
        }
    }
    out
}

impl Wide {
    /// Zero.
    pub fn zero() -> (r: Wide)
        ensures
            r@ == 0,
    {
        Wide { limbs: Vec::new() }
    }

    /// The number `x`.
    pub fn from_u64(x: u64) -> (r: Wide)
        ensures
            r@ == x,
    {
        let mut limbs: Vec<u64> = Vec::new();
        proof {
            lemma_value_push(limbs@, x);
            assert(x * limb_weight(0) == x) by (nonlinear_arith)
                requires
                    limb_weight(0) == 1,
            ;
        }
        limbs.push(x);
        Wide { limbs }
    }

    /// The number `x`.
    pub fn from_u128(x: u128) -> (r: Wide)
        ensures
            r@ == x,
    {
        let lo: u64 = (x % 0x1_0000_0000_0000_0000u128) as u64;
        let hi: u64 = (x / 0x1_0000_0000_0000_0000u128) as u64;
        let mut limbs: Vec<u64> = Vec::new();
        proof {
            lemma_value_push(limbs@, lo);
            lemma_value_push(limbs@.push(lo), hi);
            assert(limb_weight(1) == 0x1_0000_0000_0000_0000 * limb_weight(0));
            assert(lo * limb_weight(0) == lo) by (nonlinear_arith)
                requires
                    limb_weight(0) == 1,
            ;
            assert(hi * limb_weight(1) == hi * 0x1_0000_0000_0000_0000) by (nonlinear_arith)
                requires
                    limb_weight(1) == 0x1_0000_0000_0000_0000,
            ;
        }
        limbs.push(lo);
        limbs.push(hi);
        Wide { limbs }
    }

    /// The number with the limbs `limbs`, least significant first.
    pub fn from_limbs(limbs: Vec<u64>) -> (r: Wide)
        ensures
            r@ == limbs_value(limbs@),
    {
        Wide { limbs }
    }

    /// The limbs of the number, least significant first. Limbs of zero may
    /// follow the most significant one.
    pub fn limbs(&self) -> (r: &Vec<u64>)
        ensures
            limbs_value(r@) == self@,
    {
        &self.limbs
    }

    /// How `self` stands to `other`.
    pub fn rank(&self, other: &Wide) -> (r: Rank)
        ensures
            r is Less <==> self@ < other@,
            r is Equal <==> self@ == other@,
            r is Greater <==> self@ > other@,
    {
        let n = if self.limbs.len() > other.limbs.len() {
            self.limbs.len()
        } else {
            other.limbs.len()
        };
        let a = padded(&self.limbs, n);
        let b = padded(&other.limbs, n);
        let mut i: usize = n;
        while i > 0
            invariant
                i <= n,
                a@.len() == n,
                b@.len() == n,
                limbs_value(a@) == self@,
                limbs_value(b@) == other@,
                forall|j: int| i <= j < n ==> a@[j] == b@[j],
            decreases i,
        {
            i -= 1;
            if a[i] < b[i] {
                proof {
                    lemma_value_order(a@, b@, i as int);
                }
                return Rank::Less;
            }
            if a[i] > b[i] {
                proof {
                    lemma_value_order(b@, a@, i as int);
                }
                return Rank::Greater;
            }
        }
        assert(a@ =~= b@);
        Rank::Equal
    }

    /// Whether the number is zero.
    pub fn is_zero(&self) -> (r: bool)
        ensures
            r == (self@ == 0),
    {
        let zero = Wide::zero();
        match self.rank(&zero) {
            Rank::Equal => true,
            _ => false,
        }
    }

    /// The sum of two numbers.
    pub fn plus(&self, other: &Wide) -> (r: Wide)
        ensures
            r@ == self@ + other@,
    {
        let n = if self.limbs.len() > other.limbs.len() {
            self.limbs.len()
        } else {
            other.limbs.len()
        };
        let a = padded(&self.limbs, n);
        let b = padded(&other.limbs, n);
        let mut out: Vec<u64> = Vec::new();
        let mut carry: u64 = 0;
        let mut i: usize = 0;
        while i < n
            invariant
                i <= n,
                a@.len() == n,
                b@.len() == n,
                out@.len() == i,
                carry <= 1,
                limbs_value(out@) + carry * limb_weight(i as nat) == limbs_value(
                    a@.take(i as int),
                ) + limbs_value(b@.take(i as int)),
            decreases n - i,
        {
            let t: u128 = a[i] as u128 + b[i] as u128 + carry as u128;
            let lo: u64 = (t % 0x1_0000_0000_0000_0000u128) as u64;
            let hi: u64 = (t / 0x1_0000_0000_0000_0000u128) as u64;
            proof {
                let w = limb_weight(i as nat);
                assert(a@.take(i + 1) =~= a@.take(i as int).push(a@[i as int]));
                assert(b@.take(i + 1) =~= b@.take(i as int).push(b@[i as int]));
                lemma_value_push(a@.take(i as int), a@[i as int]);
                lemma_value_push(b@.take(i as int), b@[i as int]);
                lemma_value_push(out@, lo);
                assert(lo + hi * 0x1_0000_0000_0000_0000 == a@[i as int] + b@[i as int] + carry);
                assert((lo + hi * 0x1_0000_0000_0000_0000) * w == (a@[i as int] + b@[i as int]
                    + carry) * w);
                assert((lo + hi * 0x1_0000_0000_0000_0000) * w == lo * w + hi * (
                0x1_0000_0000_0000_0000 * w)) by (nonlinear_arith);
                assert((a@[i as int] + b@[i as int] + carry) * w == a@[i as int] * w + b@[i as int]
                    * w + carry * w) by (nonlinear_arith);
            }
            out.push(lo);
            carry = hi;
            i += 1;
        }
        proof {
            assert(a@.take(n as int) =~= a@);
            assert(b@.take(n as int) =~= b@);
            lemma_value_push(out@, carry);
        }
        out.push(carry);
        Wide { limbs: out }
    }

    /// The distance between two numbers.
    pub fn abs_diff(&self, other: &Wide) -> (r: Wide)
        ensures
            r@ == if self@ >= other@ { self@ - other@ } else { other@ - self@ },
    {
        let n = if self.limbs.len() > other.limbs.len() {
            self.limbs.len()
        } else {
            other.limbs.len()
        };
        let a = padded(&self.limbs, n);
        let b = padded(&other.limbs, n);
        match self.rank(other) {
            Rank::Less => Wide { limbs: sub_limbs(&b, &a) },
            _ => Wide { limbs: sub_limbs(&a, &b) },
        }
    }

    /// The product of the number and one limb.
    pub fn times_word(&self, m: u64) -> (r: Wide)
        ensures
            r@ == self@ * m,
    {
        let n = self.limbs.len();
        let mut out: Vec<u64> = Vec::new();
        let mut carry: u64 = 0;
        let mut i: usize = 0;
        proof {
            assert(self.limbs@.take(0).len() == 0);
            assert(0 * m == 0) by (nonlinear_arith);
        }
        while i < n
            invariant
                n == self.limbs@.len(),
                i <= n,
                out@.len() == i,
                limbs_value(out@) + carry * limb_weight(i as nat) == limbs_value(
                    self.limbs@.take(i as int),
                ) * m,
            decreases n - i,
        {
            let x: u64 = self.limbs[i];
            assert(x * m <= 0xffff_ffff_ffff_ffff * 0xffff_ffff_ffff_ffff) by (nonlinear_arith)
                requires
                    x <= 0xffff_ffff_ffff_ffff,
                    m <= 0xffff_ffff_ffff_ffff,
            ;
            let t: u128 = (x as u128) * (m as u128) + (carry as u128);
            let lo: u64 = (t % 0x1_0000_0000_0000_0000u128) as u64;
            let hi: u64 = (t / 0x1_0000_0000_0000_0000u128) as u64;
            proof {
                let w = limb_weight(i as nat);
                let v = limbs_value(out@);
                let p = limbs_value(self.limbs@.take(i as int));
                assert(self.limbs@.take(i + 1) =~= self.limbs@.take(i as int).push(x));
                lemma_value_push(self.limbs@.take(i as int), x);
                lemma_value_push(out@, lo);
                assert(v + lo * w + hi * (0x1_0000_0000_0000_0000 * w) == (p + x * w) * m)
                    by (nonlinear_arith)
                    requires
                        v + carry * w == p * m,
                        lo + hi * 0x1_0000_0000_0000_0000 == x * m + carry,
                ;
            }
            out.push(lo);
            carry = hi;
            i += 1;
        }
        proof {
            assert(self.limbs@.take(n as int) =~= self.limbs@);
            lemma_value_push(out@, carry);
        }
        out.push(carry);
        Wide { limbs: out }
    }

    /// The number times 2^64.
    fn shifted(&self) -> (r: Wide)
        ensures
            r@ == 0x1_0000_0000_0000_0000 * self@,
    {
        let mut out: Vec<u64> = Vec::new();
        out.push(0);
        let mut i: usize = 0;
        while i < self.limbs.len()
            invariant
                i <= self.limbs@.len(),
                out@ =~= seq![0u64] + self.limbs@.take(i as int),
            decreases self.limbs@.len() - i,
        {
            out.push(self.limbs[i]);
            i += 1;
        }
        proof {
            assert(self.limbs@.take(self.limbs@.len() as int) =~= self.limbs@);
            assert(out@.drop_first() =~= self.limbs@);
        }
        Wide { limbs: out }
    }

    /// The product of two numbers.
    pub fn times(&self, other: &Wide) -> (r: Wide)
        ensures
            r@ == self@ * other@,
    {
        let mut acc = Wide::zero();
        let mut i: usize = other.limbs.len();
        proof {
            assert(other.limbs@.skip(i as int).len() == 0);
            assert(self@ * 0 == 0) by (nonlinear_arith);
        }
        while i > 0
            invariant
                i <= other.limbs@.len(),
                acc@ == self@ * limbs_value(other.limbs@.skip(i as int)),
            decreases i,
        {
            i -= 1;
            let part = self.times_word(other.limbs[i]);
            let high = acc.shifted();
            proof {
                let rest = limbs_value(other.limbs@.skip(i + 1));
                let x = other.limbs@[i as int];
                assert(other.limbs@.skip(i as int).drop_first() =~= other.limbs@.skip(i + 1));
                assert(limbs_value(other.limbs@.skip(i as int)) == x as nat
                    + 0x1_0000_0000_0000_0000 * rest);
                assert(0x1_0000_0000_0000_0000 * (self@ * rest) + self@ * x == self@ * (x
                    + 0x1_0000_0000_0000_0000 * rest)) by (nonlinear_arith);
            }
            acc = high.plus(&part);
        }
        proof {
            assert(other.limbs@.skip(0) =~= other.limbs@);
        }
        acc
    }
}

} // verus!
