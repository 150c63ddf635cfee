//! Natural numbers of any size, held as base 2^32 limbs from the least significant up.
//!
//! These carry the exact intermediate results of [`crate::double`]: a sum, product or
//! quotient of two doubles is formed here without loss and only then rounded.

use vstd::arithmetic::power2::{lemma2_to64, lemma_pow2_adds, lemma_pow2_unfold, pow2};
use vstd::prelude::*;

verus! {

/// One more than the largest limb.
pub const BASE: u64 = 4294967296;

/// The number that the limbs `s` stand for.
pub open spec fn limbs_value(s: Seq<u32>) -> nat
    decreases s.len(),
{
    if s.len() == 0 {
        0
    } else {
        s[0] as nat + BASE as nat * limbs_value(s.drop_first())
    }
}

/// `BASE` to the power `n`.
pub open spec fn base_pow(n: nat) -> nat
    decreases n,
{
    if n == 0 {
        1
    } else {
        BASE as nat * base_pow((n - 1) as nat)
    }
}

/// A natural number of any size.
pub struct Natural {
    limbs: Vec<u32>,
}

impl View for Natural {
    type V = nat;

    closed spec fn view(&self) -> nat {
        limbs_value(self.limbs@)
    }
}

proof fn lemma_push(s: Seq<u32>, x: u32)
    ensures
        limbs_value(s.push(x)) == limbs_value(s) + x as nat * base_pow(s.len()),
    decreases s.len(),
{
    if s.len() == 0 {
        assert(s.push(x).drop_first() =~= Seq::<u32>::empty());
        assert(limbs_value(s.push(x).drop_first()) == 0);
        assert(x as nat * base_pow(0) == x as nat) by (nonlinear_arith)
            requires
                base_pow(0) == 1,
        ;
    } else {
        let t = s.drop_first();
        lemma_push(t, x);
        assert(s.push(x).drop_first() =~= t.push(x));
        assert(BASE as nat * (limbs_value(t) + x as nat * base_pow(t.len())) == BASE as nat
            * limbs_value(t) + x as nat * (BASE as nat * base_pow(t.len()))) by (nonlinear_arith);
    }
}

proof fn lemma_take(s: Seq<u32>, i: int)
    requires
        0 <= i < s.len(),
    ensures
        limbs_value(s.take(i + 1)) == limbs_value(s.take(i)) + s[i] as nat * base_pow(i as nat),
{
    lemma_push(s.take(i), s[i]);
    assert(s.take(i + 1) =~= s.take(i).push(s[i]));
}

/// A number with `n` limbs is below `base_pow(n)`.
proof fn lemma_bound(s: Seq<u32>)
    ensures
        limbs_value(s) < base_pow(s.len()),
    decreases s.len(),
{
    if s.len() > 0 {
        lemma_bound(s.drop_first());
        let v = limbs_value(s.drop_first());
        let p = base_pow((s.len() - 1) as nat);
        assert(BASE as nat * v + BASE as nat <= BASE as nat * p) by (nonlinear_arith)
            requires
                v + 1 <= p,
        ;
    }
}

impl Natural {
    /// Zero.
    pub fn zero() -> (r: Natural)
        ensures
            r@ == 0,
    {
        Natural { limbs: Vec::new() }
    }

    /// The number `x`.
    pub fn from_u64(x: u64) -> (r: Natural)
        ensures
            r@ == x,
    {
        let lo: u32 = (x % BASE) as u32;
        let hi: u32 = (x / BASE) as u32;
        let mut limbs: Vec<u32> = Vec::new();
        limbs.push(lo);
        proof {
            lemma_push(Seq::empty(), lo);
            lemma_push(limbs@, hi);
            reveal_with_fuel(base_pow, 2);
            assert(lo as nat * base_pow(0) == lo as nat) by (nonlinear_arith)
                requires
                    base_pow(0) == 1,
            ;
            assert(hi as nat * base_pow(1) == hi as nat * BASE as nat) by (nonlinear_arith)
                requires
                    base_pow(1) == BASE as nat,
            ;
            assert(limbs_value(Seq::<u32>::empty()) == 0);
            assert(limbs@ =~= Seq::<u32>::empty().push(lo));
        }
        limbs.push(hi);
        Natural { limbs }
    }

    /// The same number once more.
    pub fn copy(&self) -> (r: Natural)
        ensures
            r@ == self@,
    {
        let mut limbs: Vec<u32> = Vec::new();
        let mut i: usize = 0;
        while i < self.limbs.len()
            invariant
                i <= self.limbs.len(),
                limbs@ =~= self.limbs@.take(i as int),
            decreases self.limbs.len() - i,
        {
            limbs.push(self.limbs[i]);
            i += 1;
        }
        assert(limbs@ =~= self.limbs@);
        Natural { limbs }
    }

    /// `self * k + c`.
    pub fn mul_add(&self, k: u32, c: u32) -> (r: Natural)
        ensures
            r@ == self@ * k + c,
    {
        let mut limbs: Vec<u32> = Vec::new();
        let mut carry: u64 = c as u64;
        let mut i: usize = 0;
        proof {
            assert(self.limbs@.take(0) =~= Seq::<u32>::empty());
            assert(0 * k == 0) by (nonlinear_arith);
            assert(carry as nat * base_pow(0) == carry as nat) by (nonlinear_arith)
                requires
                    base_pow(0) == 1,
            ;
        }
        while i < self.limbs.len()
            invariant
                i <= self.limbs.len(),
                limbs.len() == i,
                carry < BASE,
                limbs_value(limbs@) + carry as nat * base_pow(i as nat) == limbs_value(
                    self.limbs@.take(i as int),
                ) * k + c,
            decreases self.limbs.len() - i,
        {
            let x: u32 = self.limbs[i];
            assert(x as u64 * k as u64 + carry <= 0xffff_ffff * 0xffff_ffff + 0xffff_ffff)
                by (nonlinear_arith)
                requires
                    x <= 0xffff_ffff,
                    k <= 0xffff_ffff,
                    carry <= 0xffff_ffff,
            ;
            let t: u64 = x as u64 * k as u64 + carry;
            let lo: u32 = (t % BASE) as u32;
            let hi: u64 = t / BASE;
            proof {
                lemma_push(limbs@, lo);
                lemma_take(self.limbs@, i as int);
                let p = base_pow(i as nat);
                let below = limbs_value(self.limbs@.take(i as int));
                assert(base_pow((i + 1) as nat) == BASE as nat * p);
                assert(lo as nat * p + hi as nat * (BASE as nat * p) == (x as nat * k as nat
                    + carry as nat) * p) by (nonlinear_arith)
                    requires
                        lo as nat + hi as nat * BASE as nat == x as nat * k as nat + carry as nat,
                ;
                assert((below + x as nat * p) * k == below * k + (x as nat * k as nat) * p)
                    by (nonlinear_arith);
                assert((x as nat * k as nat + carry as nat) * p == (x as nat * k as nat) * p
                    + carry as nat * p) by (nonlinear_arith);
            }
            limbs.push(lo);
            carry = hi;
            i += 1;
        }
        assert(self.limbs@.take(self.limbs.len() as int) =~= self.limbs@);
        if carry != 0 {
            proof {
                lemma_push(limbs@, carry as u32);
            }
            limbs.push(carry as u32);
        }
        Natural { limbs }
    }

    /// `2 * self`.
    pub fn double(&self) -> (r: Natural)
        ensures
            r@ == 2 * self@,
    {
        self.mul_add(2, 0)
    }

    /// `self + other`.
    pub fn plus(&self, other: &Natural) -> (r: Natural)
        ensures
            r@ == self@ + other@,
    {
        let n: usize = self.limbs.len();
        let m: usize = other.limbs.len();
        let len: usize = if n < m {
            m
        } else {
            n
        };
        let ghost a = widen(self.limbs@, len as nat);
        let ghost b = widen(other.limbs@, len as nat);
        proof {
            lemma_widen(self.limbs@, len as nat);
            lemma_widen(other.limbs@, len as nat);
            assert(a.take(0) =~= Seq::<u32>::empty());
            assert(b.take(0) =~= Seq::<u32>::empty());
        }
        let mut limbs: Vec<u32> = Vec::new();
        let mut carry: u64 = 0;
        let mut i: usize = 0;
        while i < len
            invariant
                i <= len,
                n == self.limbs.len(),
                m == other.limbs.len(),
                n <= len,
                m <= len,
                a == widen(self.limbs@, len as nat),
                b == widen(other.limbs@, len as nat),
                a.len() == len,
                b.len() == len,
                limbs.len() == i,
                carry <= 1,
                limbs_value(limbs@) + carry as nat * base_pow(i as nat) == limbs_value(
                    a.take(i as int),
                ) + limbs_value(b.take(i as int)),
            decreases len - i,
        {
            let x: u64 = if i < n {
                self.limbs[i] as u64
            } else {
                0
            };
            let y: u64 = if i < m {
                other.limbs[i] as u64
            } else {
                0
            };
            let t: u64 = x + y + carry;
            let lo: u32 = (t % BASE) as u32;
            let hi: u64 = t / BASE;
            proof {
                lemma_push(limbs@, lo);
                lemma_take(a, i as int);
                lemma_take(b, i as int);
                let p = base_pow(i as nat);
                assert(base_pow((i + 1) as nat) == BASE as nat * p);
                assert(lo as nat * p + hi as nat * (BASE as nat * p) == x as nat * p + y as nat * p
                    + carry as nat * p) by (nonlinear_arith)
                    requires
                        lo as nat + hi as nat * BASE as nat == x as nat + y as nat + carry as nat,
                ;
            }
            limbs.push(lo);
            carry = hi;
            i += 1;
        }
        proof {
            assert(a.take(len as int) =~= a);
            assert(b.take(len as int) =~= b);
            assert(carry == 0 ==> carry as nat * base_pow(len as nat) == 0) by (nonlinear_arith);
        }
        if carry != 0 {
            proof {
                lemma_push(limbs@, carry as u32);
            }
            limbs.push(carry as u32);
        }
        Natural { limbs }
    }

    /// `self - other`, or nothing where that is negative.
    pub fn minus(&self, other: &Natural) -> (r: Option<Natural>)
        ensures
            match r {
                Some(d) => self@ >= other@ && d@ == self@ - other@,
                None => self@ < other@,
            },
    {
        let n: usize = self.limbs.len();
        let m: usize = other.limbs.len();
        let len: usize = if n < m {
            m
        } else {
            n
        };
        let ghost a = widen(self.limbs@, len as nat);
        let ghost b = widen(other.limbs@, len as nat);
        proof {
            lemma_widen(self.limbs@, len as nat);
            lemma_widen(other.limbs@, len as nat);
            assert(a.take(0) =~= Seq::<u32>::empty());
            assert(b.take(0) =~= Seq::<u32>::empty());
        }
        let mut limbs: Vec<u32> = Vec::new();
        let mut borrow: u64 = 0;
        let mut i: usize = 0;
        while i < len
            invariant
                i <= len,
                n == self.limbs.len(),
                m == other.limbs.len(),
                n <= len,
                m <= len,
                a == widen(self.limbs@, len as nat),
                b == widen(other.limbs@, len as nat),
                a.len() == len,
                b.len() == len,
                limbs.len() == i,
                borrow <= 1,
                limbs_value(limbs@) + limbs_value(b.take(i as int)) == limbs_value(a.take(i as int))
                    + borrow as nat * base_pow(i as nat),
            decreases len - i,
        {
            let x: u64 = if i < n {
                self.limbs[i] as u64
            } else {
                0
            };
            let y: u64 = if i < m {
                other.limbs[i] as u64
            } else {
                0
            };
            let next: u64 = if x < y + borrow {
                1
            } else {
                0
            };
            let t: u64 = x + next * BASE - y - borrow;
            let lo: u32 = t as u32;
            proof {
                lemma_push(limbs@, lo);
                lemma_take(a, i as int);
                lemma_take(b, i as int);
                let p = base_pow(i as nat);
                assert(base_pow((i + 1) as nat) == BASE as nat * p);
                assert(lo as nat * p + y as nat * p + borrow as nat * p == x as nat * p
                    + next as nat * (BASE as nat * p)) by (nonlinear_arith)
                    requires
                        lo as nat + y as nat + borrow as nat == x as nat + next as nat
                            * BASE as nat,
                ;
            }
            limbs.push(lo);
            borrow = next;
            i += 1;
        }
        proof {
            assert(a.take(len as int) =~= a);
            assert(b.take(len as int) =~= b);
            lemma_bound(limbs@);
            assert(borrow == 1 ==> borrow as nat * base_pow(len as nat) == base_pow(len as nat))
                by (nonlinear_arith);
            assert(borrow == 0 ==> borrow as nat * base_pow(len as nat) == 0) by (nonlinear_arith);
        }
        if borrow == 0 {
            Some(Natural { limbs })
        } else {
            None
        }
    }

    /// Whether the number is zero.
    pub fn is_zero(&self) -> (r: bool)
        ensures
            r == (self@ == 0),
    {
        self.minus(&Natural::from_u64(1)).is_none()
    }

    /// `self * 2^n`.
    pub fn shl(&self, n: u32) -> (r: Natural)
        ensures
            r@ == self@ * pow2(n as nat),
    {
        let mut r: Natural = self.copy();
        let mut k: u32 = 0;
        proof {
            lemma2_to64();
            assert(r@ * pow2(0) == r@) by (nonlinear_arith)
                requires
                    pow2(0) == 1,
            ;
        }
        while n - k >= 16
            invariant
                k <= n,
                r@ == self@ * pow2(k as nat),
            decreases n - k,
        {
            proof {
                lemma_pow2_adds(k as nat, 16);
                lemma2_to64();
                assert(self@ * pow2(k as nat) * 65536 == self@ * (pow2(k as nat) * 65536))
                    by (nonlinear_arith);
            }
            r = r.mul_add(65536, 0);
            k += 16;
        }
        while k < n
            invariant
                k <= n,
                r@ == self@ * pow2(k as nat),
            decreases n - k,
        {
            proof {
                lemma_pow2_unfold((k + 1) as nat);
                assert(2 * (self@ * pow2(k as nat)) == self@ * (2 * pow2(k as nat)))
                    by (nonlinear_arith);
            }
            r = r.double();
            k += 1;
        }
        r
    }

    /// `self * k`.
    pub fn times_u64(&self, k: u64) -> (r: Natural)
        ensures
            r@ == self@ * k,
    {
        let lo: u32 = (k % BASE) as u32;
        let hi: u32 = (k / BASE) as u32;
        proof {
            lemma2_to64();
            assert(self@ * hi * BASE as nat + self@ * lo == self@ * k) by (nonlinear_arith)
                requires
                    k as nat == hi as nat * BASE as nat + lo as nat,
            ;
        }
        self.mul_add(hi, 0).shl(32).plus(&self.mul_add(lo, 0))
    }

    /// Quotient and remainder by a small number.
    pub fn div_small(&self, d: u32) -> (r: (Natural, u32))
        requires
            d > 0,
        ensures
            self@ == r.0@ * d + r.1,
            r.1 < d,
    {
        let mut q: Vec<u32> = Vec::new();
        let mut rem: u64 = 0;
        let mut i: usize = self.limbs.len();
        proof {
            assert(self.limbs@.skip(i as int) =~= Seq::<u32>::empty());
            assert(limbs_value(q@) * d == 0) by (nonlinear_arith)
                requires
                    limbs_value(q@) == 0,
            ;
        }
        while i > 0
            invariant
                i <= self.limbs.len(),
                d > 0,
                rem < d,
                limbs_value(self.limbs@.skip(i as int)) == limbs_value(q@) * d + rem,
            decreases i,
        {
            let x: u32 = self.limbs[i - 1];
            assert(rem * BASE + x <= 0xffff_fffe * 0x1_0000_0000 + 0xffff_ffff);
            let t: u64 = rem * BASE + x as u64;
            assert(t / d as u64 <= 0xffff_ffff) by (nonlinear_arith)
                requires
                    t == rem * 4294967296 + x,
                    rem + 1 <= d,
                    x <= 0xffff_ffff,
                    d > 0,
            ;
            let lo: u32 = (t / d as u64) as u32;
            proof {
                let ghost v = limbs_value(q@);
                assert(self.limbs@.skip(i - 1).drop_first() =~= self.limbs@.skip(i as int));
                let grown = q@.insert(0, lo);
                assert(grown.drop_first() =~= q@);
                assert(grown[0] == lo);
                assert(t == lo as u64 * d as u64 + t % d as u64) by (nonlinear_arith)
                    requires
                        lo as u64 == t / d as u64,
                        d > 0,
                ;
                assert((lo as nat + BASE as nat * v) * d == lo as nat * d as nat + BASE as nat * (v
                    * d)) by (nonlinear_arith);
                assert(BASE as nat * (v * d + rem as nat) == BASE as nat * (v * d) + rem as nat
                    * BASE as nat) by (nonlinear_arith);
            }
            q.insert(0, lo);
            rem = t % d as u64;
            i -= 1;
        }
        assert(self.limbs@.skip(0) =~= self.limbs@);
        (Natural { limbs: q }, rem as u32)
    }

    /// Quotient and remainder.
    pub fn div_rem(&self, d: &Natural) -> (r: (Natural, Natural))
        requires
            d@ > 0,
        ensures
            self@ == r.0@ * d@ + r.1@,
            r.1@ < d@,
    {
        // `d`, `2 * d`, `4 * d`, .. up to the first that is above the number.
        let mut top: Natural = d.copy();
        let mut scaled: Vec<Natural> = Vec::new();
        proof {
            lemma2_to64();
            assert(d@ * pow2(0) == d@) by (nonlinear_arith)
                requires
                    pow2(0) == 1,
            ;
        }
        while self.minus(&top).is_some()
            invariant
                d@ > 0,
                top@ == d@ * pow2(scaled.len() as nat),
                top@ >= d@,
                forall|k: int| 0 <= k < scaled.len() ==> (#[trigger] scaled@[k])@ == d@ * pow2(k as nat),
            ensures
                self@ < top@,
            decreases 2 * self@ + d@ - top@,
        {
            proof {
                lemma_pow2_unfold((scaled.len() + 1) as nat);
                assert(2 * (d@ * pow2(scaled.len() as nat)) == d@ * (2 * pow2(scaled.len() as nat)))
                    by (nonlinear_arith);
            }
            let next: Natural = top.double();
            scaled.push(top);
            top = next;
        }
        let mut rem: Natural = self.copy();
        let mut quo: Natural = Natural::zero();
        assert(0 * top@ == 0) by (nonlinear_arith);
        while scaled.len() > 0
            invariant
                rem@ < d@ * pow2(scaled.len() as nat),
                self@ == quo@ * (d@ * pow2(scaled.len() as nat)) + rem@,
                forall|k: int| 0 <= k < scaled.len() ==> (#[trigger] scaled@[k])@ == d@ * pow2(k as nat),
            decreases scaled.len(),
        {
            let ghost i = (scaled.len() - 1) as nat;
            assert(scaled@[i as int]@ == d@ * pow2(i));
            let step: Natural = match scaled.pop() {
                Some(t) => t,
                None => Natural::zero(),
            };
            proof {
                let w = d@ * pow2(i);
                lemma_pow2_unfold(i + 1);
                assert(d@ * (2 * pow2(i)) == 2 * w) by (nonlinear_arith)
                    requires
                        w == d@ * pow2(i),
                ;
                assert(quo@ * (2 * w) == (2 * quo@) * w) by (nonlinear_arith);
                assert((2 * quo@ + 1) * w == (2 * quo@) * w + w) by (nonlinear_arith);
            }
            match rem.minus(&step) {
                Some(less) => {
                    rem = less;
                    quo = quo.mul_add(2, 1);
                },
                None => {
                    quo = quo.double();
                },
            }
        }
        (quo, rem)
    }

    /// The number as a machine word.
    pub fn to_u64(&self) -> (r: u64)
        requires
            self@ <= u64::MAX,
        ensures
            r == self@,
    {
        let mut r: u64 = 0;
        let mut i: usize = self.limbs.len();
        assert(self.limbs@.skip(i as int) =~= Seq::<u32>::empty());
        while i > 0
            invariant
                i <= self.limbs.len(),
                self@ <= u64::MAX,
                r == limbs_value(self.limbs@.skip(i as int)),
            decreases i,
        {
            proof {
                assert(self.limbs@.skip(i - 1).drop_first() =~= self.limbs@.skip(i as int));
                lemma_skip_below(self.limbs@, i - 1);
            }
            r = r * BASE + self.limbs[i - 1] as u64;
            i -= 1;
        }
        assert(self.limbs@.skip(0) =~= self.limbs@);
        r
    }
}

/// The limbs `s` with zeros above them, `n` limbs in all.
spec fn widen(s: Seq<u32>, n: nat) -> Seq<u32> {
    s + Seq::new((n - s.len()) as nat, |i: int| 0u32)
}

proof fn lemma_widen(s: Seq<u32>, n: nat)
    requires
        s.len() <= n,
    ensures
        widen(s, n).len() == n,
        limbs_value(widen(s, n)) == limbs_value(s),
    decreases n - s.len(),
{
    if s.len() == n {
        assert(widen(s, n) =~= s);
    } else {
        lemma_push(s, 0);
        lemma_widen(s.push(0), n);
        assert(widen(s.push(0), n) =~= widen(s, n));
        assert(0 * base_pow(s.len()) == 0) by (nonlinear_arith);
    }
}

proof fn lemma_skip_below(s: Seq<u32>, i: int)
    requires
        0 <= i <= s.len(),
    ensures
        limbs_value(s.skip(i)) <= limbs_value(s),
    decreases i,
{
    if i == 0 {
        assert(s.skip(0) =~= s);
    } else {
        lemma_skip_below(s.drop_first(), i - 1);
        assert(s.drop_first().skip(i - 1) =~= s.skip(i));
    }
}

} // verus!
