//! Exact integer model of the IEEE-754 binary32 operations (round to nearest,
//! ties to even) that the HSB conversion performs.  Only the way a value
//! that lies exactly half-way between two integers is rounded depends on it.
use vstd::arithmetic::power2::{
    lemma2_to64, lemma2_to64_rest, lemma_pow2_pos, lemma_pow2_strictly_increases, lemma_pow2_unfold,
    pow2,
};
use vstd::prelude::*;

verus! {

/// The value `(-1)^neg * mant * 2^exp`; `mant == 0` is zero.
#[derive(Clone, Copy)]
pub struct Bin32 {
    pub neg: bool,
    pub mant: u64,
    pub exp: i64,
}

pub open spec fn b32_zero() -> Bin32 {
    Bin32 { neg: false, mant: 0, exp: 0 }
}

/// A 24-bit significand and an exponent far inside the range the model covers.
pub open spec fn b32_wf(x: Bin32) -> bool {
    x.mant < 0x100_0000 && -1000 <= x.exp <= 1000
}

/// Doubles `d` (raising `e`) until `n / d < 2^24`, at most `fuel` times.
pub open spec fn grow_den(n: int, d: int, e: int, fuel: nat) -> (int, int)
    decreases fuel,
{
    if fuel == 0 || n < d * 0x100_0000 {
        (d, e)
    } else {
        grow_den(n, d * 2, e + 1, (fuel - 1) as nat)
    }
}

/// Doubles `n` (lowering `e`) until `n / d >= 2^23`, at most `fuel` times.
pub open spec fn grow_num(n: int, d: int, e: int, fuel: nat) -> (int, int)
    decreases fuel,
{
    if fuel == 0 || n >= d * 0x80_0000 {
        (n, e)
    } else {
        grow_num(n * 2, d, e - 1, (fuel - 1) as nat)
    }
}

/// `n / d` rounded to the nearest integer, ties to even.
pub open spec fn round_even(n: int, d: int) -> int {
    let q = n / d;
    let r = n % d;
    if 2 * r > d || (2 * r == d && q % 2 == 1) {
        q + 1
    } else {
        q
    }
}

/// `(-1)^neg * num / den * 2^e0` rounded to a 24-bit significand.
pub open spec fn round_ratio_spec(neg: bool, num: int, den: int, e0: int) -> Bin32 {
    if num == 0 {
        b32_zero()
    } else {
        let (d1, e1) = grow_den(num, den, e0, 101);
        let (n2, e2) = grow_num(num, d1, e1, 101);
        let m0 = round_even(n2, d1);
        let m = if m0 == 0x100_0000 {
            0x80_0000
        } else {
            m0
        };
        let e3 = if m0 == 0x100_0000 {
            e2 + 1
        } else {
            e2
        };
        if m < 0x100_0000 && -1000 <= e3 <= 1000 {
            Bin32 { neg, mant: m as u64, exp: e3 as i64 }
        } else {
            b32_zero()
        }
    }
}

fn round_ratio(neg: bool, num: u128, den: u128, e0: i64) -> (r: Bin32)
    requires
        num < 0x10_0000_0000_0000_0000_0000_0000,
        0 < den < 0x1_0000_0000_0000_0000,
        -3000 <= e0 <= 3000,
    ensures
        r == round_ratio_spec(neg, num as int, den as int, e0 as int),
        b32_wf(r),
{
    if num == 0 {
        return Bin32 { neg: false, mant: 0, exp: 0 };
    }
    let mut d = den;
    let mut e = e0;
    let mut i: u64 = 0;
    while i < 101 && num >= d * 0x100_0000
        invariant
            0 < d < 0x4000_0000_0000_0000_0000,
            i <= 101,
            e == e0 + i,
            -3000 <= e0 <= 3000,
            0 < num < 0x10_0000_0000_0000_0000_0000_0000,
            grow_den(num as int, d as int, e as int, (101 - i) as nat) == grow_den(
                num as int,
                den as int,
                e0 as int,
                101,
            ),
        decreases 101 - i,
    {
        d = d * 2;
        e = e + 1;
        i = i + 1;
    }
    let ghost e1 = e as int;
    assert(grow_den(num as int, den as int, e0 as int, 101) == (d as int, e1));
    let mut n = num;
    let mut j: u64 = 0;
    while j < 101 && n < d * 0x80_0000
        invariant
            0 < d < 0x4000_0000_0000_0000_0000,
            j <= 101,
            e == e1 - j,
            -3101 <= e1 <= 3101,
            0 < n < 0x80_0000_0000_0000_0000_0000_0000,
            grow_num(n as int, d as int, e as int, (101 - j) as nat) == grow_num(
                num as int,
                d as int,
                e1,
                101,
            ),
        decreases 101 - j,
    {
        n = n * 2;
        e = e - 1;
        j = j + 1;
    }
    assert(grow_num(num as int, d as int, e1, 101) == (n as int, e as int));
    let q = n / d;
    let rem = n % d;
    let m0 = if 2 * rem > d || (2 * rem == d && q % 2 == 1) {
        q + 1
    } else {
        q
    };
    let (m, e3) = if m0 == 0x100_0000 {
        (0x80_0000u128, e + 1)
    } else {
        (m0, e)
    };
    if m < 0x100_0000 && -1000 <= e3 && e3 <= 1000 {
        Bin32 { neg, mant: m as u64, exp: e3 }
    } else {
        Bin32 { neg: false, mant: 0, exp: 0 }
    }
}

/// `x * 2^k`.
fn times_pow2(x: u128, k: u64) -> (r: u128)
    requires
        x < 0x400_0000,
        k <= 60,
    ensures
        r == x * pow2(k as nat),
        r < 0x40_0000_0000_0000_0000_0000,
{
    let mut r = x;
    let mut i: u64 = 0;
    proof {
        lemma2_to64();
        lemma2_to64_rest();
    }
    while i < k
        invariant
            i <= k,
            k <= 60,
            x < 0x400_0000,
            r == x * pow2(i as nat),
            pow2(i as nat) <= 0x1000_0000_0000_0000,
        decreases k - i,
    {
        proof {
            lemma_pow2_unfold((i + 1) as nat);
            lemma2_to64_rest();
            if i + 1 < 60 {
                lemma_pow2_strictly_increases((i + 1) as nat, 60);
            }
            let p = pow2(i as nat);
            assert(x * p * 2 < 0x40_0000_0000_0000_0000_0000) by (nonlinear_arith)
                requires
                    x < 0x400_0000,
                    p * 2 <= 0x1000_0000_0000_0000,
                    p >= 0,
            ;
            assert(x * (2 * p) == x * p * 2) by (nonlinear_arith);
        }
        r = r * 2;
        i = i + 1;
    }
    proof {
        lemma_pow2_pos(k as nat);
        if k < 60 {
            lemma_pow2_strictly_increases(k as nat, 60);
        }
        let p = pow2(k as nat);
        assert(x * p < 0x40_0000_0000_0000_0000_0000) by (nonlinear_arith)
            requires
                x < 0x400_0000,
                p <= 0x1000_0000_0000_0000,
                p >= 0,
        ;
    }
    r
}

pub open spec fn neg_spec(a: Bin32) -> Bin32 {
    if a.mant == 0 {
        a
    } else {
        Bin32 { neg: !a.neg, mant: a.mant, exp: a.exp }
    }
}

pub open spec fn add_spec(a: Bin32, b: Bin32) -> Bin32 {
    if a.mant == 0 {
        b
    } else if b.mant == 0 {
        a
    } else if a.exp - b.exp > 60 {
        a
    } else if b.exp - a.exp > 60 {
        b
    } else {
        let e = if a.exp <= b.exp {
            a.exp as int
        } else {
            b.exp as int
        };
        let na = a.mant * pow2((a.exp - e) as nat);
        let nb = b.mant * pow2((b.exp - e) as nat);
        if a.neg == b.neg {
            round_ratio_spec(a.neg, na + nb, 1, e)
        } else if na > nb {
            round_ratio_spec(a.neg, na - nb, 1, e)
        } else if nb > na {
            round_ratio_spec(b.neg, nb - na, 1, e)
        } else {
            b32_zero()
        }
    }
}

pub open spec fn mul_spec(a: Bin32, b: Bin32) -> Bin32 {
    if a.mant == 0 || b.mant == 0 {
        b32_zero()
    } else {
        round_ratio_spec(a.neg != b.neg, a.mant * b.mant, 1, a.exp + b.exp)
    }
}

/// Quotient; a zero divisor (which the HSB conversion never uses) gives zero.
pub open spec fn div_spec(a: Bin32, b: Bin32) -> Bin32 {
    if a.mant == 0 || b.mant == 0 {
        b32_zero()
    } else {
        round_ratio_spec(a.neg != b.neg, a.mant * 0x100_0000_0000, b.mant as int, a.exp - b.exp - 40)
    }
}

/// The binary32 value of the integer `k`.
pub open spec fn int_spec(k: int) -> Bin32 {
    round_ratio_spec(false, k, 1, 0)
}

/// The binary32 quotient `v / 255` of a channel value.
pub open spec fn unit_spec(v: int) -> Bin32 {
    round_ratio_spec(false, v, 255, 0)
}

/// `x` rounded half away from zero is above `lo` (for `x >= 0`).
pub open spec fn rounds_past(x: Bin32, lo: int) -> bool {
    if x.neg || x.mant == 0 {
        false
    } else if x.exp >= 0 {
        if x.exp > 40 {
            true
        } else {
            2 * x.mant * pow2(x.exp as nat) >= 2 * lo + 1
        }
    } else {
        if -x.exp > 60 {
            false
        } else {
            2 * x.mant >= (2 * lo + 1) * pow2((-x.exp) as nat)
        }
    }
}

pub fn negate(a: Bin32) -> (r: Bin32)
    requires
        b32_wf(a),
    ensures
        r == neg_spec(a),
        b32_wf(r),
{
    if a.mant == 0 {
        a
    } else {
        Bin32 { neg: !a.neg, mant: a.mant, exp: a.exp }
    }
}

pub fn sum(a: Bin32, b: Bin32) -> (r: Bin32)
    requires
        b32_wf(a),
        b32_wf(b),
    ensures
        r == add_spec(a, b),
        b32_wf(r),
{
    if a.mant == 0 {
        b
    } else if b.mant == 0 {
        a
    } else if a.exp - b.exp > 60 {
        a
    } else if b.exp - a.exp > 60 {
        b
    } else {
        let e = if a.exp <= b.exp {
            a.exp
        } else {
            b.exp
        };
        let na = times_pow2(a.mant as u128, (a.exp - e) as u64);
        let nb = times_pow2(b.mant as u128, (b.exp - e) as u64);
        if a.neg == b.neg {
            round_ratio(a.neg, na + nb, 1, e)
        } else if na > nb {
            round_ratio(a.neg, na - nb, 1, e)
        } else if nb > na {
            round_ratio(b.neg, nb - na, 1, e)
        } else {
            Bin32 { neg: false, mant: 0, exp: 0 }
        }
    }
}

pub fn product(a: Bin32, b: Bin32) -> (r: Bin32)
    requires
        b32_wf(a),
        b32_wf(b),
    ensures
        r == mul_spec(a, b),
        b32_wf(r),
{
    if a.mant == 0 || b.mant == 0 {
        Bin32 { neg: false, mant: 0, exp: 0 }
    } else {
        assert(a.mant as u128 * b.mant as u128 <= 0x1_0000_0000_0000) by (nonlinear_arith)
            requires
                a.mant < 0x100_0000,
                b.mant < 0x100_0000,
        ;
        round_ratio(a.neg != b.neg, a.mant as u128 * b.mant as u128, 1, a.exp + b.exp)
    }
}

pub fn quotient(a: Bin32, b: Bin32) -> (r: Bin32)
    requires
        b32_wf(a),
        b32_wf(b),
    ensures
        r == div_spec(a, b),
        b32_wf(r),
{
    if a.mant == 0 || b.mant == 0 {
        Bin32 { neg: false, mant: 0, exp: 0 }
    } else {
        round_ratio(
            a.neg != b.neg,
            a.mant as u128 * 0x100_0000_0000,
            b.mant as u128,
            a.exp - b.exp - 40,
        )
    }
}

pub fn from_int(k: u16) -> (r: Bin32)
    ensures
        r == int_spec(k as int),
        b32_wf(r),
{
    round_ratio(false, k as u128, 1, 0)
}

pub fn unit(v: u8) -> (r: Bin32)
    ensures
        r == unit_spec(v as int),
        b32_wf(r),
{
    round_ratio(false, v as u128, 255, 0)
}

pub fn is_negative(x: Bin32) -> (r: bool)
    ensures
        r == (x.neg && x.mant != 0),
{
    x.neg && x.mant != 0
}

pub fn check_rounds_past(x: Bin32, lo: u16) -> (r: bool)
    requires
        b32_wf(x),
        lo < 0x400,
    ensures
        r == rounds_past(x, lo as int),
{
    if x.neg || x.mant == 0 {
        false
    } else if x.exp >= 0 {
        if x.exp > 40 {
            true
        } else {
            let v = times_pow2(2 * x.mant as u128, x.exp as u64);
            proof {
                assert(2 * x.mant * pow2(x.exp as nat) == (2 * x.mant) * pow2(x.exp as nat));
            }
            v >= 2 * lo as u128 + 1
        }
    } else {
        if x.exp < -60 {
            false
        } else {
            let v = times_pow2(2 * lo as u128 + 1, (-x.exp) as u64);
            2 * x.mant as u128 >= v
        }
    }
}

} // verus!
