//! Unbounded natural numbers, as little-endian sequences of 64-bit limbs.
//! Likelihoods are compared as exact products, which outgrow every
//! fixed-width integer.

use vstd::prelude::*;
use vstd::arithmetic::power::*;

verus! {

/// The radix of one limb.
pub open spec fn radix() -> int {
    0x1_0000_0000_0000_0000
}

/// Limb `i` of `s`, where limbs past the end are zero.
pub open spec fn digit(s: Seq<u64>, i: int) -> int {
    if 0 <= i < s.len() {
        s[i] as int
    } else {
        0
    }
}

/// The value of the `k` lowest limbs of `s`.
pub open spec fn low_value(s: Seq<u64>, k: nat) -> int
    decreases k,
{
    if k == 0 {
        0
    } else {
        low_value(s, (k - 1) as nat) + digit(s, k - 1) * pow(radix(), (k - 1) as nat)
    }
}

/// The value of all the limbs of `s`.
pub open spec fn value_of(s: Seq<u64>) -> int {
    low_value(s, s.len())
}

/// The `k` lowest limbs are worth less than `radix() ^ k`.
proof fn lemma_low_value_bounds(s: Seq<u64>, k: nat)
    ensures
        0 <= low_value(s, k) < pow(radix(), k),
    decreases k,
{
    reveal(pow);
    if k > 0 {
        let k1 = (k - 1) as nat;
        lemma_low_value_bounds(s, k1);
        let p = pow(radix(), k1);
        let lo = low_value(s, k1);
        let d = digit(s, k - 1);
        assert(pow(radix(), k) == radix() * p) by {
            reveal(pow);
        }
        assert(0 <= lo + d * p < radix() * p) by (nonlinear_arith)
            requires
                0 <= lo < p,
                0 <= d < radix(),
        ;
    }
}

/// The low value reads only the limbs below `k`.
proof fn lemma_low_value_agree(s: Seq<u64>, t: Seq<u64>, k: nat)
    requires
        forall|j: int| 0 <= j < k ==> digit(s, j) == digit(t, j),
    ensures
        low_value(s, k) == low_value(t, k),
    decreases k,
{
    if k > 0 {
        lemma_low_value_agree(s, t, (k - 1) as nat);
    }
}

/// Limbs past the end add nothing.
proof fn lemma_low_value_past_end(s: Seq<u64>, k: nat)
    requires
        k >= s.len(),
    ensures
        low_value(s, k) == value_of(s),
    decreases k,
{
    if k > s.len() {
        lemma_low_value_past_end(s, (k - 1) as nat);
    }
}

/// A natural number of any size.
pub struct Natural {
    limbs: Vec<u64>,
}

impl View for Natural {
    type V = nat;

    closed spec fn view(&self) -> nat {
        value_of(self.limbs@) as nat
    }
}

impl Natural {
    /// The number one.
    pub fn one() -> (r: Natural)
        ensures
            r@ == 1,
    {
        let r = Natural { limbs: vec![1u64] };
        proof {
            reveal(pow);
            assert(low_value(r.limbs@, 0) == 0);
        }
        r
    }

    /// Multiplies the number by `m`.
    pub fn mul_small(&mut self, m: u64)
        ensures
            final(self)@ == old(self)@ * m,
    {
        let n = self.limbs.len();
        let mut out: Vec<u64> = Vec::new();
        let mut carry: u64 = 0;
        let mut i: usize = 0;
        while i < n
            invariant
                n == self.limbs.len(),
                i <= n,
                out.len() == i,
                low_value(out@, i as nat) + carry * pow(radix(), i as nat) == low_value(
                    self.limbs@,
                    i as nat,
                ) * m,
            decreases n - i,
        {
            let a = self.limbs[i];
            assert((a as int) * (m as int) + (carry as int) < radix() * radix()) by (
            nonlinear_arith)
                requires
                    0 <= a < radix(),
                    0 <= m < radix(),
                    0 <= carry < radix(),
            ;
            let t: u128 = (a as u128) * (m as u128) + (carry as u128);
            let lo = (t % 0x1_0000_0000_0000_0000u128) as u64;
            let hi = (t / 0x1_0000_0000_0000_0000u128) as u64;
            let ghost old_out = out@;
            let ghost old_carry = carry as int;
            out.push(lo);
            carry = hi;
            proof {
                let p = pow(radix(), i as nat);
                assert(pow(radix(), (i + 1) as nat) == radix() * p) by {
                    reveal(pow);
                }
                lemma_low_value_agree(out@, old_out, i as nat);
                assert(digit(out@, i as int) == lo);
                assert(digit(self.limbs@, i as int) == a);
                assert(low_value(out@, (i + 1) as nat) == low_value(old_out, i as nat) + lo * p);
                assert(low_value(self.limbs@, (i + 1) as nat) == low_value(self.limbs@, i as nat)
                    + a * p);
                assert(t == lo + hi * radix());
                let lv = low_value(self.limbs@, i as nat);
                let ov = low_value(old_out, i as nat);
                assert(ov + lo * p + hi * (radix() * p) == (lv + a * p) * m) by (nonlinear_arith)
                    requires
                        ov + old_carry * p == lv * m,
                        t == lo + hi * radix(),
                        t == a * m + old_carry,
                ;
            }
            i = i + 1;
        }
        proof {
            lemma_low_value_past_end(self.limbs@, n as nat);
        }
        if carry > 0 {
            let ghost old_out = out@;
            out.push(carry);
            proof {
                lemma_low_value_agree(out@, old_out, n as nat);
                assert(digit(out@, n as int) == carry);
            }
        }
        proof {
            lemma_low_value_bounds(self.limbs@, n as nat);
        }
        self.limbs = out;
    }

    /// Limb `i`, or zero past the end.
    fn limb(&self, i: usize) -> (r: u64)
        ensures
            r == digit(self.limbs@, i as int),
    {
        if i < self.limbs.len() {
            self.limbs[i]
        } else {
            0
        }
    }

    /// Whether this number is less than `other`.
    pub fn less_than(&self, other: &Natural) -> (r: bool)
        ensures
            r == (self@ < other@),
    {
        let a = self.limbs.len();
        let b = other.limbs.len();
        let n = if a < b {
            b
        } else {
            a
        };
        proof {
            lemma_low_value_past_end(self.limbs@, n as nat);
            lemma_low_value_past_end(other.limbs@, n as nat);
            lemma_low_value_bounds(self.limbs@, n as nat);
            lemma_low_value_bounds(other.limbs@, n as nat);
        }
        let mut i: usize = n;
        while i > 0
            invariant
                i <= n,
                n >= self.limbs.len(),
                n >= other.limbs.len(),
                value_of(self.limbs@) >= 0,
                value_of(other.limbs@) >= 0,
                (value_of(self.limbs@) < value_of(other.limbs@)) == (low_value(
                    self.limbs@,
                    i as nat,
                ) < low_value(other.limbs@, i as nat)),
            decreases i,
        {
            let x = self.limb(i - 1);
            let y = other.limb(i - 1);
            let ghost k = (i - 1) as nat;
            proof {
                lemma_low_value_bounds(self.limbs@, k);
                lemma_low_value_bounds(other.limbs@, k);
                lemma_pow_positive(radix(), k);
            }
            let ghost p = pow(radix(), k);
            let ghost u = low_value(self.limbs@, k);
            let ghost v = low_value(other.limbs@, k);
            assert(low_value(self.limbs@, i as nat) == u + x * p);
            assert(low_value(other.limbs@, i as nat) == v + y * p);
            if x < y {
                assert(u + x * p < v + y * p) by (nonlinear_arith)
                    requires
                        0 <= u < p,
                        0 <= v,
                        x < y,
                ;
                return true;
            }
            if y < x {
                assert(v + y * p < u + x * p) by (nonlinear_arith)
                    requires
                        0 <= v < p,
                        0 <= u,
                        y < x,
                ;
                return false;
            }
            i = i - 1;
        }
        false
    }
}

} // verus!
