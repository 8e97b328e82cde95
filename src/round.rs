//! Rounding to nearest, ties to even, into a binary format.
//!
//! A non-negative quantity is given as the quotient `num / den`, measured in
//! units of the smallest subnormal of the format.
use vstd::prelude::*;
use vstd::arithmetic::power2::{pow2, lemma_pow2_adds, lemma_pow2_unfold, lemma_pow2_strictly_increases};
use vstd::arithmetic::div_mod::{lemma_fundamental_div_mod, lemma_fundamental_div_mod_converse};
use crate::bignat::BigNat;
use crate::ieee::{exp_count, frac_bits, frac_bits_of, frac_scale, lemma_frac_scale, max_magnitude, max_magnitude_of, Precision};

verus! {

/// Whether `e` is the exponent of the last place of `num / den`: the quotient
/// lies below `2^(frac_bits + 1 + e)`, and unless `e` is zero not below
/// `2^(frac_bits + e)`.
pub open spec fn is_binade(p: Precision, num: nat, den: nat, e: nat) -> bool {
    &&& num < den * pow2(frac_bits(p) + 1 + e)
    &&& (e == 0 || den * pow2(frac_bits(p) + e) <= num)
}

pub open spec fn binade(p: Precision, num: nat, den: nat) -> nat {
    choose|e: nat| is_binade(p, num, den, e)
}

/// `num / den` rounded to the nearest value of the format, ties to an even
/// significand; `None` where the result overflows to infinity.
pub open spec fn round_to_format(p: Precision, num: nat, den: nat) -> Option<nat> {
    let e = binade(p, num, den);
    let w = den * pow2(e);
    let q = num / w;
    let r = num % w;
    let m: nat = if 2 * r > w || (2 * r == w && q % 2 == 1) {
        q + 1
    } else {
        q
    };
    let v = m * pow2(e);
    if v > max_magnitude(p) {
        None
    } else {
        Some(v)
    }
}

pub open spec fn opt_view(r: Option<BigNat>) -> Option<nat> {
    match r {
        Some(v) => Some(v@),
        None => None,
    }
}

proof fn lemma_binade_unique(p: Precision, num: nat, den: nat, e: nat)
    requires
        is_binade(p, num, den, e),
    ensures
        binade(p, num, den) == e,
{
    let g = binade(p, num, den);
    assert(is_binade(p, num, den, g));
    let fb = frac_bits(p);
    if g < e {
        if fb + 1 + g < fb + e {
            lemma_pow2_strictly_increases(fb + 1 + g, fb + e);
        }
        assert(den * pow2(fb + 1 + g) <= den * pow2(fb + e)) by (nonlinear_arith)
            requires
                pow2(fb + 1 + g) <= pow2(fb + e),
        ;
    } else if e < g {
        if fb + 1 + e < fb + g {
            lemma_pow2_strictly_increases(fb + 1 + e, fb + g);
        }
        assert(den * pow2(fb + 1 + e) <= den * pow2(fb + g)) by (nonlinear_arith)
            requires
                pow2(fb + 1 + e) <= pow2(fb + g),
        ;
    }
}

/// Rounds `num / den` into the format `p`.
pub fn round(p: Precision, num: &BigNat, den: &BigNat) -> (r: Option<BigNat>)
    requires
        den@ > 0,
        num@ < pow2(4096),
    ensures
        opt_view(r) == round_to_format(p, num@, den@),
        r matches Some(v) ==> v@ * den@ <= 2 * num@ + pow2(frac_bits(p) + 1) * den@,
        r matches Some(v) ==> (num@ >= den@ ==> v@ >= 1),
{
    let fb = frac_bits_of(p);
    proof {
        lemma_frac_scale(p);
    }
    let mut e: u32 = 0;
    while !num.lt(&den.shl(fb + 1 + e))
        invariant
            den@ > 0,
            num@ < pow2(4096),
            fb == frac_bits(p),
            fb <= 52,
            e <= 4096,
            e == 0 || den@ * pow2((fb + e) as nat) <= num@,
        decreases 4096 - e,
    {
        proof {
            let k = (fb + 1 + e) as nat;
            assert(pow2(k) <= den@ * pow2(k)) by (nonlinear_arith)
                requires
                    den@ > 0,
            ;
            if k >= 4096 {
                if k > 4096 {
                    lemma_pow2_strictly_increases(4096, k);
                }
                assert(false);
            }
        }
        e = e + 1;
    }
    let ghost ee = e as nat;
    proof {
        assert(is_binade(p, num@, den@, ee));
        lemma_binade_unique(p, num@, den@, ee);
    }
    let w = den.shl(e);
    let ghost wv = w@;
    proof {
        lemma_pow2_adds((fb + 1) as nat, ee);
        assert(den@ * pow2((fb + 1) as nat + ee) == pow2((fb + 1) as nat) * wv) by (nonlinear_arith)
            requires
                pow2((fb + 1) as nat + ee) == pow2((fb + 1) as nat) * pow2(ee),
                wv == den@ * pow2(ee),
        ;
        vstd::arithmetic::power2::lemma_pow2_pos(ee);
        assert(wv > 0) by (nonlinear_arith)
            requires
                wv == den@ * pow2(ee),
                den@ > 0,
                pow2(ee) > 0,
        ;
        vstd::arithmetic::power2::lemma2_to64();
        vstd::arithmetic::power2::lemma2_to64_rest();
        if fb < 52 {
            lemma_pow2_strictly_increases((fb + 1) as nat, 53);
        }
    }
    let mut q: u64 = 0;
    let mut step: u64 = 2 * crate::ieee::frac_scale_of(p);
    let mut i: u32 = fb + 1;
    while i > 0
        invariant
            fb == frac_bits(p),
            fb <= 52,
            i <= fb + 1,
            step == pow2(i as nat),
            q + step <= pow2((fb + 1) as nat),
            pow2((fb + 1) as nat) <= pow2(53),
            pow2(53) == 0x20_0000_0000_0000,
            wv == w@,
            q * wv <= num@,
            num@ < (q + step) * wv,
        decreases i,
    {
        proof {
            lemma_pow2_unfold(i as nat);
        }
        let half = step / 2;
        let cand = q + half;
        let prod = w.mul_small(cand);
        if !num.lt(&prod) {
            q = cand;
        }
        step = half;
        i = i - 1;
    }
    proof {
        assert(pow2(0) == 1);
        assert((q + 1) * wv == q * wv + wv) by (nonlinear_arith);
        lemma_fundamental_div_mod_converse(num@ as int, wv as int, q as int, num@ - q * wv);
    }
    let two_num = num.mul_small(2);
    let mid = w.mul_small(2 * q + 1);
    proof {
        assert(wv * (2 * q + 1) == 2 * (q * wv) + wv) by (nonlinear_arith);
        assert(wv == den@ * pow2(ee));
        assert(num@ / wv == q);
        assert(num@ % wv == num@ - q * wv);
    }
    let up = mid.lt(&two_num) || (!two_num.lt(&mid) && q % 2 == 1);
    let ghost rem = (num@ - q * wv) as nat;
    assert(up == (2 * rem > wv || (2 * rem == wv && q % 2 == 1)));
    let m: u64 = if up {
        q + 1
    } else {
        q
    };
    let v = BigNat::from_u64(m).shl(e);
    proof {
        let pe = pow2(ee);
        let fbn = (fb + 1) as nat;
        assert(m <= pow2(fbn));
        if ee == 0 {
            assert(pe == 1);
            assert(v@ * den@ <= pow2(fbn) * den@) by (nonlinear_arith)
                requires
                    v@ == m * pe,
                    pe == 1,
                    m <= pow2(fbn),
            ;
            if num@ >= den@ {
                assert(wv == den@) by (nonlinear_arith)
                    requires
                        wv == den@ * pe,
                        pe == 1,
                ;
                assert(q >= 1) by (nonlinear_arith)
                    requires
                        num@ < (q + 1) * wv,
                        num@ >= wv,
                        wv > 0,
                ;
            }
        } else {
            lemma_pow2_adds((fb + 1) as nat, ee);
            lemma_pow2_adds(fb as nat, ee);
            lemma_pow2_unfold(fbn);
            assert(v@ * den@ <= 2 * num@) by (nonlinear_arith)
                requires
                    v@ == m * pe,
                    m <= pow2(fbn),
                    pow2(fbn) == 2 * pow2(fb as nat),
                    pow2(fb as nat + ee) == pow2(fb as nat) * pe,
                    den@ * pow2(fb as nat + ee) <= num@,
            ;
            assert(pow2(fb as nat) * wv <= num@) by (nonlinear_arith)
                requires
                    pow2(fb as nat + ee) == pow2(fb as nat) * pe,
                    den@ * pow2(fb as nat + ee) <= num@,
                    wv == den@ * pe,
            ;
            vstd::arithmetic::power2::lemma_pow2_pos(fb as nat);
            assert(q >= 1) by (nonlinear_arith)
                requires
                    num@ < (q + 1) * wv,
                    pow2(fb as nat) * wv <= num@,
                    pow2(fb as nat) >= 1,
                    wv > 0,
            ;
        }
        if num@ >= den@ {
            assert(m * pe >= 1) by (nonlinear_arith)
                requires
                    m >= 1,
                    pe >= 1,
            ;
        }
    }
    let top = max_magnitude_of(p);
    if top.lt(&v) {
        None
    } else {
        Some(v)
    }
}

proof fn lemma_pow2_above(k: nat)
    ensures
        k < pow2(k),
    decreases k,
{
    if k == 0 {
        vstd::arithmetic::power2::lemma2_to64();
    } else {
        lemma_pow2_above((k - 1) as nat);
        lemma_pow2_unfold(k);
        vstd::arithmetic::power2::lemma_pow2_pos((k - 1) as nat);
    }
}

/// Below any exponent that bounds the quotient there is a binade.
proof fn lemma_binade_below(p: Precision, num: nat, den: nat, e: nat)
    requires
        num < den * pow2(frac_bits(p) + 1 + e),
    ensures
        is_binade(p, num, den, binade(p, num, den)),
    decreases e,
{
    if e == 0 || den * pow2(frac_bits(p) + e) <= num {
        assert(is_binade(p, num, den, e));
    } else {
        assert(frac_bits(p) + 1 + (e - 1) == frac_bits(p) + e);
        lemma_binade_below(p, num, den, (e - 1) as nat);
    }
}

/// A quotient with a positive denominator has a binade.
pub proof fn lemma_binade_exists(p: Precision, num: nat, den: nat)
    requires
        den > 0,
    ensures
        is_binade(p, num, den, binade(p, num, den)),
{
    let k = frac_bits(p) + 1 + num;
    lemma_pow2_above(k);
    assert(pow2(k) <= den * pow2(k)) by (nonlinear_arith)
        requires
            den > 0,
    ;
    lemma_binade_below(p, num, den, num);
}

/// A whole number at or above the largest finite value rounds to that value
/// or above it, or overflows.
pub proof fn lemma_round_reaches_max(p: Precision, n: nat)
    requires
        n >= max_magnitude(p),
    ensures
        round_to_format(p, n, 1) matches Some(v) ==> v >= max_magnitude(p),
{
    lemma_binade_exists(p, n, 1);
    lemma_frac_scale(p);
    let e = binade(p, n, 1);
    let fb = frac_bits(p);
    let big_e = (exp_count(p) - 3) as nat;
    let w = 1 * pow2(e);
    vstd::arithmetic::power2::lemma_pow2_pos(e);
    vstd::arithmetic::power2::lemma_pow2_pos(big_e);
    lemma_fundamental_div_mod(n as int, w as int);
    let q = n / w;
    let pf1 = pow2(fb + 1);
    let mx = max_magnitude(p);
    assert(mx == (pf1 - 1) * pow2(big_e));
    lemma_pow2_adds(fb + 1, big_e);
    lemma_pow2_adds(fb, big_e);
    lemma_pow2_unfold(fb + 1);
    if e < big_e {
        lemma_pow2_adds(fb + 1, e);
        if fb + 1 + e < fb + big_e {
            lemma_pow2_strictly_increases(fb + 1 + e, fb + big_e);
        }
        assert(pow2(big_e) <= pow2(fb) * pow2(big_e)) by (nonlinear_arith)
            requires
                pow2(fb) >= 1,
        ;
        assert(mx >= pow2(fb + big_e)) by (nonlinear_arith)
            requires
                mx == (pf1 - 1) * pow2(big_e),
                pf1 == 2 * pow2(fb),
                pow2(fb + big_e) == pow2(fb) * pow2(big_e),
                pow2(big_e) <= pow2(fb) * pow2(big_e),
        ;
        assert(false);
    } else if e == big_e {
        assert(q >= pf1 - 1) by (nonlinear_arith)
            requires
                n == q * w + n % w,
                n % w < w,
                n >= (pf1 - 1) * w,
                w > 0,
        ;
        assert(q * pow2(e) >= mx) by (nonlinear_arith)
            requires
                q >= pf1 - 1,
                mx == (pf1 - 1) * pow2(e),
        ;
    } else {
        lemma_pow2_adds(fb, e);
        assert(q >= pow2(fb)) by (nonlinear_arith)
            requires
                n == q * w + n % w,
                n % w < w,
                n >= 1 * pow2(fb + e),
                pow2(fb + e) == pow2(fb) * w,
                w > 0,
        ;
        if fb + 1 + big_e < fb + e {
            lemma_pow2_strictly_increases(fb + 1 + big_e, fb + e);
        }
        assert(q * pow2(e) >= pow2(fb + e)) by (nonlinear_arith)
            requires
                q >= pow2(fb),
                pow2(fb + e) == pow2(fb) * pow2(e),
        ;
        assert(mx < pf1 * pow2(big_e)) by (nonlinear_arith)
            requires
                mx == (pf1 - 1) * pow2(big_e),
                pow2(big_e) > 0,
        ;
    }
    let r = n % w;
    let m: nat = if 2 * r > w || (2 * r == w && q % 2 == 1) {
        q + 1
    } else {
        q
    };
    assert(m * pow2(e) >= q * pow2(e)) by (nonlinear_arith)
        requires
            m >= q,
    ;
}

} // verus!
