//! Natural numbers of any size, as 32-bit limbs from the least significant up.

use vstd::prelude::*;
use vstd::arithmetic::power2::pow2;

verus! {

/// The weight of limb `i`.
pub open spec fn weight(i: nat) -> nat {
    pow2(32 * i)
}

/// The number that limbs stand for.
pub open spec fn number(s: Seq<u32>) -> nat
    decreases s.len(),
{
    if s.len() == 0 {
        0
    } else {
        number(s.drop_last()) + s.last() as nat * weight((s.len() - 1) as nat)
    }
}

proof fn lemma_weight(i: nat)
    ensures
        weight(0) == 1,
        weight(i + 1) == 0x1_0000_0000 * weight(i),
        weight(i) > 0,
{
    vstd::arithmetic::power2::lemma2_to64();
    vstd::arithmetic::power2::lemma_pow2_adds(32, 32 * i);
    vstd::arithmetic::power2::lemma_pow2_pos(32 * i);
}

proof fn lemma_take(s: Seq<u32>, i: int)
    requires
        0 <= i < s.len(),
    ensures
        number(s.take(i + 1)) == number(s.take(i)) + s[i] as nat * weight(i as nat),
{
    assert(s.take(i + 1).drop_last() =~= s.take(i));
}

proof fn lemma_push(s: Seq<u32>, x: u32)
    ensures
        number(s.push(x)) == number(s) + x as nat * weight(s.len()),
{
    assert(s.push(x).drop_last() =~= s);
}

pub struct Natural {
    pub limbs: Vec<u32>,
}

impl View for Natural {
    type V = nat;

    open spec fn view(&self) -> nat {
        number(self.limbs@)
    }
}

impl Natural {
    pub fn from_u64(x: u64) -> (r: Natural)
        ensures
            r@ == x,
    {
        let lo: u32 = (x % 0x1_0000_0000) as u32;
        let hi: u32 = (x / 0x1_0000_0000) as u32;
        let mut limbs: Vec<u32> = Vec::new();
        proof {
            lemma_push(limbs@, lo);
            lemma_push(limbs@.push(lo), hi);
            lemma_weight(0);
            assert(number(limbs@) == 0);
            assert(lo as nat * weight(0) == lo) by (nonlinear_arith)
                requires
                    weight(0) == 1,
            ;
            assert(hi as nat * weight(1) == hi * 0x1_0000_0000) by (nonlinear_arith)
                requires
                    weight(1) == 0x1_0000_0000,
            ;
        }
        limbs.push(lo);
        limbs.push(hi);
        Natural { limbs }
    }

    pub fn copy(&self) -> (r: Natural)
        ensures
            r@ == self@,
    {
        let limbs: Vec<u32> = self.limbs.clone();
        assert(limbs@ =~= self.limbs@);
        Natural { limbs }
    }

    pub fn is_zero(&self) -> (r: bool)
        ensures
            r == (self@ == 0),
    {
        let mut i: usize = 0;
        proof {
            assert(self.limbs@.take(0) =~= Seq::<u32>::empty());
        }
        while i < self.limbs.len()
            invariant
                i <= self.limbs.len(),
                number(self.limbs@.take(i as int)) == 0,
            decreases self.limbs.len() - i,
        {
            proof {
                lemma_take(self.limbs@, i as int);
                lemma_weight(i as nat);
            }
            if self.limbs[i] != 0 {
                proof {
                    let w = weight(i as nat);
                    let x = self.limbs@[i as int];
                    assert(x as nat * w > 0) by (nonlinear_arith)
                        requires
                            x > 0,
                            w > 0,
                    ;
                    lemma_prefix_bound(self.limbs@, i + 1);
                }
                return false;
            }
            i = i + 1;
        }
        proof {
            assert(self.limbs@.take(i as int) =~= self.limbs@);
        }
        true
    }

    /// Replaces the number by `m` times it plus `a`.
    pub fn mul_add(&mut self, m: u32, a: u32)
        ensures
            final(self)@ == old(self)@ * m + a,
    {
        let mut out: Vec<u32> = Vec::new();
        let mut carry: u64 = a as u64;
        let mut i: usize = 0;
        let n: usize = self.limbs.len();
        let ghost s = self.limbs@;
        proof {
            assert(s.take(0) =~= Seq::<u32>::empty());
            lemma_weight(0);
            assert(carry * weight(0) == a) by (nonlinear_arith)
                requires
                    carry == a,
                    weight(0) == 1,
            ;
            assert(number(s.take(0)) * m == 0) by (nonlinear_arith)
                requires
                    number(s.take(0)) == 0,
            ;
        }
        while i < n
            invariant
                i <= n,
                n == s.len(),
                s == self.limbs@,
                *self == *old(self),
                out@.len() == i,
                carry <= 0xffff_ffff,
                number(out@) + carry * weight(i as nat) == number(s.take(i as int)) * m + a,
            decreases n - i,
        {
            let x: u32 = self.limbs[i];
            proof {
                assert(x * m <= 0xffff_ffff * 0xffff_ffff) by (nonlinear_arith)
                    requires
                        x <= 0xffff_ffff,
                        m <= 0xffff_ffff,
                ;
            }
            let t: u64 = x as u64 * m as u64 + carry;
            let lo: u32 = (t % 0x1_0000_0000) as u32;
            let next: u64 = t / 0x1_0000_0000;
            proof {
                lemma_take(s, i as int);
                lemma_push(out@, lo);
                lemma_weight(i as nat);
                let w = weight(i as nat);
                let w1 = weight((i + 1) as nat);
                let before = number(out@);
                let pre = number(s.take(i as int));
                assert(before + lo as nat * w + next * w1 == (pre + x as nat * w) * m + a) by (nonlinear_arith)
                    requires
                        before + carry * w == pre * m + a,
                        t == x * m + carry,
                        t == next * 0x1_0000_0000 + lo,
                        w1 == 0x1_0000_0000 * w,
                ;
            }
            out.push(lo);
            carry = next;
            i = i + 1;
        }
        proof {
            assert(s.take(n as int) =~= s);
            lemma_push(out@, carry as u32);
        }
        if carry > 0 {
            out.push(carry as u32);
        }
        self.limbs = out;
    }

    /// The difference, where it is not negative.
    pub fn checked_sub(&self, o: &Natural) -> (r: Option<Natural>)
        ensures
            r is Some <==> self@ >= o@,
            r matches Some(d) ==> d@ == self@ - o@,
    {
        let mut out: Vec<u32> = Vec::new();
        let mut borrow: u64 = 0;
        let mut i: usize = 0;
        let n: usize = if self.limbs.len() > o.limbs.len() { self.limbs.len() } else { o.limbs.len() };
        let ghost s = self.limbs@;
        let ghost t = o.limbs@;
        proof {
            assert(s.take(0) =~= Seq::<u32>::empty());
            assert(t.take(0) =~= Seq::<u32>::empty());
            lemma_weight(0);
        }
        while i < n
            invariant
                i <= n,
                s == self.limbs@,
                t == o.limbs@,
                n >= s.len(),
                n >= t.len(),
                out@.len() == i,
                borrow <= 1,
                number(out@) + number(t.take(low(i as int, t.len()))) == number(
                    s.take(low(i as int, s.len())),
                ) + borrow * weight(i as nat),
                number(out@) < weight(i as nat),
            decreases n - i,
        {
            let x: u64 = if i < self.limbs.len() { self.limbs[i] as u64 } else { 0 };
            let y: u64 = if i < o.limbs.len() { o.limbs[i] as u64 } else { 0 };
            let d: u64 = x + 0x1_0000_0000 - y - borrow;
            let lo: u32 = (d % 0x1_0000_0000) as u32;
            let next: u64 = if d < 0x1_0000_0000 { 1 } else { 0 };
            proof {
                lemma_push(out@, lo);
                lemma_weight(i as nat);
                let w = weight(i as nat);
                let w1 = weight((i + 1) as nat);
                if i < s.len() {
                    lemma_take(s, i as int);
                } else {
                    assert(0 * w == 0);
                }
                if i < t.len() {
                    lemma_take(t, i as int);
                }
                let before = number(out@);
                let ps = number(s.take(low(i as int, s.len())));
                let pt = number(t.take(low(i as int, t.len())));
                assert(before + lo as nat * w + (pt + y * w) == (ps + x * w) + next * w1) by (nonlinear_arith)
                    requires
                        before + pt == ps + borrow * w,
                        d == x + 0x1_0000_0000 - y - borrow,
                        d == lo + (1 - next) * 0x1_0000_0000,
                        w1 == 0x1_0000_0000 * w,
                ;
                assert(before + lo as nat * w < w1) by (nonlinear_arith)
                    requires
                        before < w,
                        lo <= 0xffff_ffff,
                        w1 == 0x1_0000_0000 * w,
                ;
                assert(number(t.take(low(i + 1, t.len()))) == pt + y * w);
                assert(number(s.take(low(i + 1, s.len()))) == ps + x * w);
            }
            out.push(lo);
            borrow = next;
            i = i + 1;
        }
        proof {
            assert(s.take(s.len() as int) =~= s);
            assert(t.take(t.len() as int) =~= t);
            lemma_weight(n as nat);
        }
        if borrow == 0 {
            Some(Natural { limbs: out })
        } else {
            None
        }
    }
}

spec fn low(i: int, n: nat) -> int {
    if i < n {
        i
    } else {
        n as int
    }
}

proof fn lemma_prefix_bound(s: Seq<u32>, i: int)
    requires
        0 <= i <= s.len(),
    ensures
        number(s.take(i)) <= number(s),
    decreases s.len() - i,
{
    if i == s.len() {
        assert(s.take(i) =~= s);
    } else {
        lemma_take(s, i);
        let w = weight(i as nat);
        assert(s[i] as nat * w >= 0) by (nonlinear_arith)
            requires
                s[i] >= 0,
                w >= 0,
        ;
        lemma_prefix_bound(s, i + 1);
    }
}

} // verus!
