//! Arbitrary-size natural numbers held as little-endian 32-bit limbs.
use vstd::prelude::*;
use vstd::arithmetic::power2::{pow2, lemma_pow2_adds, lemma2_to64};

verus! {

/// The radix of one limb.
pub open spec fn base() -> nat {
    0x1_0000_0000
}

/// `base()` raised to `n`.
pub open spec fn radix_pow(n: nat) -> nat
    decreases n,
{
    if n == 0 {
        1
    } else {
        base() * radix_pow((n - 1) as nat)
    }
}

/// Limb `i` of `s`, reading missing high limbs as zero.
pub open spec fn limb(s: Seq<u32>, i: nat) -> nat {
    if i < s.len() {
        s[i as int] as nat
    } else {
        0
    }
}

/// The number formed by the lowest `n` limbs of `s`.
pub open spec fn prefix_value(s: Seq<u32>, n: nat) -> nat
    decreases n,
{
    if n == 0 {
        0
    } else {
        prefix_value(s, (n - 1) as nat) + limb(s, (n - 1) as nat) * radix_pow((n - 1) as nat)
    }
}

/// The number that the limbs `s` stand for.
pub open spec fn value(s: Seq<u32>) -> nat {
    prefix_value(s, s.len())
}

/// The lowest `n` limbs stay below `base()^n`.
proof fn lemma_prefix_bound(s: Seq<u32>, n: nat)
    ensures
        prefix_value(s, n) < radix_pow(n),
    decreases n,
{
    if n == 0 {
    } else {
        let m = (n - 1) as nat;
        lemma_prefix_bound(s, m);
        let p = radix_pow(m);
        let l = limb(s, m);
        let r = prefix_value(s, m);
        assert(r + l * p < base() * p) by (nonlinear_arith)
            requires
                r < p,
                l < base(),
                0 <= l,
        ;
    }
}

/// Limbs at or above the length add nothing.
proof fn lemma_prefix_past_len(s: Seq<u32>, n: nat)
    requires
        n >= s.len(),
    ensures
        prefix_value(s, n) == value(s),
    decreases n,
{
    if n > s.len() {
        lemma_prefix_past_len(s, (n - 1) as nat);
    }
}

/// The lowest `n` limbs are all that the lowest `n` limbs depend on.
proof fn lemma_prefix_same(s: Seq<u32>, t: Seq<u32>, n: nat)
    requires
        forall|i: nat| i < n ==> limb(s, i) == limb(t, i),
    ensures
        prefix_value(s, n) == prefix_value(t, n),
    decreases n,
{
    if n > 0 {
        lemma_prefix_same(s, t, (n - 1) as nat);
    }
}

/// Appending limb `v` to `s` adds `v * base()^len`.
proof fn lemma_push(s: Seq<u32>, v: u32)
    ensures
        value(s.push(v)) == value(s) + v * radix_pow(s.len()),
{
    let t = s.push(v);
    assert forall|i: nat| i < s.len() implies limb(s, i) == limb(t, i) by {}
    lemma_prefix_same(s, t, s.len());
}

/// Comparing two numbers below `p` after one more digit of weight `p` on top:
/// the higher digit decides, and on a tie the lower parts do.
proof fn lemma_digit_order(lx: int, ly: int, dx: int, dy: int, p: int)
    requires
        0 <= lx < p,
        0 <= ly < p,
        0 <= dx,
        0 <= dy,
    ensures
        (lx + dx * p < ly + dy * p) == (dx < dy || (dx == dy && lx < ly)),
{
    if dx < dy {
        assert(dx * p + p <= dy * p) by (nonlinear_arith)
            requires
                dx + 1 <= dy,
                0 < p,
        ;
    } else if dx > dy {
        assert(dy * p + p <= dx * p) by (nonlinear_arith)
            requires
                dy + 1 <= dx,
                0 < p,
        ;
    }
}

/// The limb `i` of `v`, zero past its end.
fn limb_at(v: &Vec<u32>, i: usize) -> (r: u32)
    ensures
        r == limb(v@, i as nat),
{
    if i < v.len() {
        v[i]
    } else {
        0
    }
}

/// A natural number of any size.
pub struct BigNat {
    pub limbs: Vec<u32>,
}

impl View for BigNat {
    type V = nat;

    open spec fn view(&self) -> nat {
        value(self.limbs@)
    }
}

impl BigNat {
    /// The number `v`.
    pub fn from_u64(v: u64) -> (r: BigNat)
        ensures
            r@ == v,
    {
        let lo: u32 = (v % 0x1_0000_0000) as u32;
        let hi: u32 = (v / 0x1_0000_0000) as u32;
        let mut limbs: Vec<u32> = Vec::new();
        limbs.push(lo);
        limbs.push(hi);
        proof {
            lemma_push(Seq::empty(), lo);
            lemma_push(seq![lo], hi);
            assert(Seq::<u32>::empty().push(lo) =~= seq![lo]);
            assert(seq![lo].push(hi) =~= limbs@);
            assert(radix_pow(0) == 1);
            assert(radix_pow(1) == base());
            assert(value(Seq::<u32>::empty()) == 0);
            assert(lo * radix_pow(0) == lo) by (nonlinear_arith)
                requires
                    radix_pow(0) == 1,
            ;
            assert(value(seq![lo]) == lo);
            assert(value(limbs@) == lo + hi * base());
        }
        BigNat { limbs }
    }

    /// The product of this number and `m`.
    pub fn mul_small(&self, m: u64) -> (r: BigNat)
        ensures
            r@ == self@ * m,
    {
        let n = self.limbs.len();
        let mut out: Vec<u32> = Vec::new();
        let mut carry: u64 = 0;
        let mut i: usize = 0;
        proof {
            assert(value(out@) == 0);
            assert(radix_pow(0) == 1);
            assert(prefix_value(self.limbs@, 0) == 0);
            assert(0 * (m as int) == 0);
        }
        while i < n
            invariant
                i <= n,
                n == self.limbs.len(),
                out.len() == i,
                value(out@) + carry * radix_pow(i as nat) == prefix_value(self.limbs@, i as nat) * m,
            decreases n - i,
        {
            let d: u32 = self.limbs[i];
            assert((d as int) * (m as int) + carry <= 0xffff_ffff_ffff_ffff_ffff_ffffu128 as int - 0xffff_ffff) by (nonlinear_arith)
                requires
                    0 <= d < 0x1_0000_0000,
                    0 <= m < 0x1_0000_0000_0000_0000,
                    0 <= carry < 0x1_0000_0000_0000_0000,
            ;
            let t: u128 = (d as u128) * (m as u128) + (carry as u128);
            let lo: u32 = (t % 0x1_0000_0000) as u32;
            let c: u64 = (t / 0x1_0000_0000) as u64;
            proof {
                let p = radix_pow(i as nat);
                lemma_push(out@, lo);
                assert(limb(self.limbs@, i as nat) == d);
                assert(prefix_value(self.limbs@, (i + 1) as nat) == prefix_value(self.limbs@, i as nat) + d * p);
                assert(radix_pow((i + 1) as nat) == base() * p);
                assert(lo * p + c * (base() * p) == d * m * p + carry * p) by (nonlinear_arith)
                    requires
                        t == lo + base() * c,
                        t == d * m + carry,
                ;
                assert(value(out@) + lo * p + c * (base() * p) == (prefix_value(self.limbs@, i as nat) + d * p) * m) by (nonlinear_arith)
                    requires
                        value(out@) + carry * p == prefix_value(self.limbs@, i as nat) * m,
                        lo * p + c * (base() * p) == d * m * p + carry * p,
                ;
            }
            out.push(lo);
            carry = c;
            i = i + 1;
        }
        while carry > 0
            invariant
                value(out@) + carry * radix_pow(out.len() as nat) == self@ * m,
            decreases carry,
        {
            let lo: u32 = (carry % 0x1_0000_0000) as u32;
            let c: u64 = carry / 0x1_0000_0000;
            proof {
                let p = radix_pow(out.len() as nat);
                lemma_push(out@, lo);
                assert(radix_pow((out.len() + 1) as nat) == base() * p);
                assert(lo * p + c * (base() * p) == carry * p) by (nonlinear_arith)
                    requires
                        carry == lo + base() * c,
                ;
            }
            out.push(lo);
            carry = c;
        }
        proof {
            assert(carry * radix_pow(out.len() as nat) == 0);
        }
        BigNat { limbs: out }
    }

    /// The sum of this number and `other`.
    pub fn add(&self, other: &BigNat) -> (r: BigNat)
        ensures
            r@ == self@ + other@,
    {
        let n = if self.limbs.len() < other.limbs.len() {
            other.limbs.len()
        } else {
            self.limbs.len()
        };
        let mut out: Vec<u32> = Vec::new();
        let mut carry: u64 = 0;
        let mut i: usize = 0;
        proof {
            assert(value(out@) == 0);
            assert(radix_pow(0) == 1);
        }
        while i < n
            invariant
                i <= n,
                n >= self.limbs.len(),
                n >= other.limbs.len(),
                out.len() == i,
                carry <= 1,
                value(out@) + carry * radix_pow(i as nat) == prefix_value(self.limbs@, i as nat)
                    + prefix_value(other.limbs@, i as nat),
            decreases n - i,
        {
            let x: u32 = limb_at(&self.limbs, i);
            let y: u32 = limb_at(&other.limbs, i);
            let t: u64 = (x as u64) + (y as u64) + carry;
            let lo: u32 = (t % 0x1_0000_0000) as u32;
            let c: u64 = t / 0x1_0000_0000;
            proof {
                let p = radix_pow(i as nat);
                lemma_push(out@, lo);
                assert(radix_pow((i + 1) as nat) == base() * p);
                assert(lo * p + c * (base() * p) == x * p + y * p + carry * p) by (nonlinear_arith)
                    requires
                        t == lo + base() * c,
                        t == x + y + carry,
                ;
            }
            out.push(lo);
            carry = c;
            i = i + 1;
        }
        proof {
            lemma_prefix_past_len(self.limbs@, n as nat);
            lemma_prefix_past_len(other.limbs@, n as nat);
        }
        if carry > 0 {
            proof {
                lemma_push(out@, 1u32);
            }
            out.push(1u32);
        } else {
            proof {
                assert(carry * radix_pow(n as nat) == 0);
            }
        }
        BigNat { limbs: out }
    }

    /// Whether this number is less than `other`.
    pub fn lt(&self, other: &BigNat) -> (r: bool)
        ensures
            r == (self@ < other@),
    {
        let n = if self.limbs.len() < other.limbs.len() {
            other.limbs.len()
        } else {
            self.limbs.len()
        };
        let mut below = false;
        let mut i: usize = 0;
        while i < n
            invariant
                i <= n,
                n >= self.limbs.len(),
                n >= other.limbs.len(),
                below == (prefix_value(self.limbs@, i as nat) < prefix_value(other.limbs@, i as nat)),
            decreases n - i,
        {
            let x: u32 = limb_at(&self.limbs, i);
            let y: u32 = limb_at(&other.limbs, i);
            proof {
                let p = radix_pow(i as nat);
                lemma_prefix_bound(self.limbs@, i as nat);
                lemma_prefix_bound(other.limbs@, i as nat);
                lemma_digit_order(
                    prefix_value(self.limbs@, i as nat) as int,
                    prefix_value(other.limbs@, i as nat) as int,
                    x as int,
                    y as int,
                    p as int,
                );
            }
            below = x < y || (x == y && below);
            i = i + 1;
        }
        proof {
            lemma_prefix_past_len(self.limbs@, n as nat);
            lemma_prefix_past_len(other.limbs@, n as nat);
        }
        below
    }

    /// This number times `2^k`.
    pub fn shl(&self, k: u32) -> (r: BigNat)
        ensures
            r@ == self@ * pow2(k as nat),
    {
        let mut out = self.mul_small(1);
        let mut done: u32 = 0;
        proof {
            lemma2_to64();
        }
        while done < k
            invariant
                done <= k,
                out@ == self@ * pow2(done as nat),
            decreases k - done,
        {
            let step: u64 = if k - done >= 16 {
                65536
            } else {
                2
            };
            let bits: u32 = if k - done >= 16 {
                16
            } else {
                1
            };
            proof {
                lemma2_to64();
                lemma_pow2_adds(done as nat, bits as nat);
                assert(pow2(bits as nat) == step);
                let q = pow2(done as nat);
                assert(self@ * q * step == self@ * (q * step)) by (nonlinear_arith);
            }
            out = out.mul_small(step);
            done = done + bits;
        }
        out
    }

    /// The difference of this number and a number `other` not above it.
    pub fn sub(&self, other: &BigNat) -> (r: BigNat)
        requires
            other@ <= self@,
        ensures
            r@ == self@ - other@,
    {
        let n = if self.limbs.len() < other.limbs.len() {
            other.limbs.len()
        } else {
            self.limbs.len()
        };
        let mut out: Vec<u32> = Vec::new();
        let mut borrow: u64 = 0;
        let mut i: usize = 0;
        proof {
            assert(value(out@) == 0);
            assert(radix_pow(0) == 1);
        }
        while i < n
            invariant
                i <= n,
                n >= self.limbs.len(),
                n >= other.limbs.len(),
                out.len() == i,
                borrow <= 1,
                value(out@) == prefix_value(self.limbs@, i as nat) - prefix_value(other.limbs@, i as nat)
                    + borrow * radix_pow(i as nat),
            decreases n - i,
        {
            let x: u32 = limb_at(&self.limbs, i);
            let y: u32 = limb_at(&other.limbs, i);
            let lo: u32;
            let nb: u64;
            if (x as u64) >= (y as u64) + borrow {
                lo = ((x as u64) - (y as u64) - borrow) as u32;
                nb = 0;
            } else {
                lo = ((x as u64) + 0x1_0000_0000 - (y as u64) - borrow) as u32;
                nb = 1;
            }
            proof {
                let p = radix_pow(i as nat);
                lemma_push(out@, lo);
                assert(radix_pow((i + 1) as nat) == base() * p);
                assert(lo * p == x * p - y * p - borrow * p + nb * (base() * p)) by (nonlinear_arith)
                    requires
                        lo == x - y - borrow + nb * base(),
                ;
            }
            out.push(lo);
            borrow = nb;
            i = i + 1;
        }
        proof {
            lemma_prefix_past_len(self.limbs@, n as nat);
            lemma_prefix_past_len(other.limbs@, n as nat);
            lemma_prefix_bound(out@, n as nat);
            if borrow == 1 {
                assert(borrow * radix_pow(n as nat) == radix_pow(n as nat));
            } else {
                assert(borrow * radix_pow(n as nat) == 0);
            }
        }
        BigNat { limbs: out }
    }

    /// Whether this number is zero.
    pub fn is_zero(&self) -> (r: bool)
        ensures
            r == (self@ == 0),
    {
        !BigNat::from_u64(0).lt(self)
    }
}

} // verus!
