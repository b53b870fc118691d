use vstd::arithmetic::div_mod::{lemma_mul_mod_noop_right, lemma_small_mod};
use vstd::arithmetic::mul::lemma_mul_inequality;
use vstd::arithmetic::power2::{lemma2_to64, lemma_pow2_pos, lemma_pow2_strictly_increases, lemma_pow2_unfold, pow2};
use vstd::prelude::*;

verus! {

/// A JSON number as delivered by the walker.
///
/// A floating-point value is held exactly, as `mantissa * 2^exponent`, the form
/// in which every binary64 value can be written.
#[derive(Clone, Copy, Debug, PartialEq, Eq, Structural)]
pub enum Number {
    Unsigned(u64),
    Signed(i64),
    Float { mantissa: i64, exponent: i32 },
}

/// The mantissa of a number, when it is written as `mantissa * 2^exponent`.
pub open spec fn mantissa_of(n: Number) -> int {
    match n {
        Number::Unsigned(u) => u as int,
        Number::Signed(s) => s as int,
        Number::Float { mantissa, .. } => mantissa as int,
    }
}

/// The exponent of a number, when it is written as `mantissa * 2^exponent`.
pub open spec fn exponent_of(n: Number) -> int {
    match n {
        Number::Float { exponent, .. } => exponent as int,
        _ => 0,
    }
}

pub open spec fn abs(x: int) -> int {
    if x < 0 { -x } else { x }
}

pub open spec fn min_int(a: int, b: int) -> int {
    if a < b { a } else { b }
}

/// `n` scaled by `2^-base`: an integer whenever `base` is at most the exponent of `n`.
pub open spec fn scaled(n: Number, base: int) -> int {
    mantissa_of(n) * pow2((exponent_of(n) - base) as nat)
}

/// The common scale at which two numbers are both integers.
pub open spec fn common_base(a: Number, b: Number) -> int {
    min_int(exponent_of(a), exponent_of(b))
}

/// The value of `a` is below the value of `b`.
pub open spec fn num_lt(a: Number, b: Number) -> bool {
    scaled(a, common_base(a, b)) < scaled(b, common_base(a, b))
}

/// The value of `a` equals the value of `b`.
pub open spec fn num_eq(a: Number, b: Number) -> bool {
    scaled(a, common_base(a, b)) == scaled(b, common_base(a, b))
}

/// The value of `a` is an integer multiple of the (nonzero) value of `b`.
pub open spec fn num_multiple_of(a: Number, b: Number) -> bool {
    mantissa_of(b) != 0 && abs(scaled(a, common_base(a, b))) % abs(scaled(b, common_base(a, b))) == 0
}

/// The value of `n` has no fractional part.
pub open spec fn num_integral(n: Number) -> bool {
    exponent_of(n) >= 0 || abs(mantissa_of(n)) % (pow2((-exponent_of(n)) as nat) as int) == 0
}

/// Compares two scaled mantissas; `r < 0`, `r == 0`, `r > 0` as `a` is below, equal to,
/// or above `b`.
fn compare_parts(ma: i128, ea: i32, mb: i128, eb: i32) -> (r: i8)
    requires
        -0x1_0000_0000_0000_0000 < ma < 0x1_0000_0000_0000_0000,
        -0x1_0000_0000_0000_0000 < mb < 0x1_0000_0000_0000_0000,
    ensures
        ({
            let base = min_int(ea as int, eb as int);
            let x = ma * pow2((ea - base) as nat);
            let y = mb * pow2((eb - base) as nat);
            &&& (r < 0 <==> x < y)
            &&& (r == 0 <==> x == y)
            &&& (r > 0 <==> x > y)
        }),
{
    if ea < eb {
        let r = compare_ordered(mb, eb, ma, ea);
        -r
    } else {
        compare_ordered(ma, ea, mb, eb)
    }
}

/// `compare_parts` where the exponent of `a` is at least that of `b`.
fn compare_ordered(ma: i128, ea: i32, mb: i128, eb: i32) -> (r: i8)
    requires
        -0x1_0000_0000_0000_0000 < ma < 0x1_0000_0000_0000_0000,
        -0x1_0000_0000_0000_0000 < mb < 0x1_0000_0000_0000_0000,
        ea >= eb,
    ensures
        ({
            let base = min_int(ea as int, eb as int);
            let x = ma * pow2((ea - base) as nat);
            let y = mb * pow2((eb - base) as nat);
            &&& (r < 0 <==> x < y)
            &&& (r == 0 <==> x == y)
            &&& (r > 0 <==> x > y)
        }),
        -1 <= r <= 1,
{
    let d: i64 = ea as i64 - eb as i64;
    proof {
        lemma2_to64();
        lemma_pow2_pos((ea - eb) as nat);
        assert(min_int(ea as int, eb as int) == eb as int);
        assert(pow2((eb - eb) as nat) == 1) by { lemma2_to64(); }
        assert(mb * pow2((eb - eb) as nat) == mb);
    }
    if d >= 64 {
        proof {
            lemma_pow2_le(64, (ea - eb) as nat);
        }
        let ghost p = pow2((ea - eb) as nat) as int;
        if ma == 0 {
            assert(ma * p == 0);
            return if mb > 0 { -1 } else if mb == 0 { 0 } else { 1 };
        } else if ma > 0 {
            proof { lemma_mul_inequality(1, ma as int, p); }
            return 1;
        } else {
            proof { lemma_mul_inequality(1, -ma as int, p); }
            assert(ma * p == -((-ma) * p)) by (nonlinear_arith);
            return -1;
        }
    }
    let p = pow2_u128(d as u32);
    proof {
        lemma_pow2_le((d as u32) as nat, 63);
        vstd::arithmetic::power2::lemma2_to64_rest();
        assert(p <= 0x8000_0000_0000_0000);
    }
    assert(-0x8000_0000_0000_0000_0000_0000_0000_0000 < ma * (p as int) < 0x8000_0000_0000_0000_0000_0000_0000_0000) by (nonlinear_arith)
        requires -0x1_0000_0000_0000_0000 < ma < 0x1_0000_0000_0000_0000, 0 < p <= 0x8000_0000_0000_0000;
    let x: i128 = ma * (p as i128);
    if x < mb {
        -1
    } else if x == mb {
        0
    } else {
        1
    }
}

/// `2^k` as an integer.
fn pow2_u128(k: u32) -> (r: u128)
    requires
        k < 127,
    ensures
        r == pow2(k as nat),
{
    let mut r: u128 = 1;
    let mut i: u32 = 0;
    proof { lemma2_to64(); }
    while i < k
        invariant
            i <= k < 127,
            r == pow2(i as nat),
        decreases k - i,
    {
        proof {
            lemma_pow2_unfold((i + 1) as nat);
            lemma_pow2_strictly_increases((i + 1) as nat, 127);
            crate::number::lemma_pow2_127();
        }
        r = r * 2;
        i = i + 1;
    }
    r
}

proof fn lemma_pow2_le(e1: nat, e2: nat)
    requires
        e1 <= e2,
    ensures
        pow2(e1) <= pow2(e2),
{
    if e1 < e2 {
        lemma_pow2_strictly_increases(e1, e2);
    }
}

proof fn lemma_pow2_127()
    ensures
        pow2(127) == 0x8000_0000_0000_0000_0000_0000_0000_0000,
{
    lemma2_to64();
    vstd::arithmetic::power2::lemma_pow2_adds(64, 63);
    vstd::arithmetic::power2::lemma2_to64_rest();
}

/// The mantissa of a number, in a type that holds all three kinds.
pub fn mantissa(n: &Number) -> (r: i128)
    ensures
        r == mantissa_of(*n),
        -0x1_0000_0000_0000_0000 < r < 0x1_0000_0000_0000_0000,
{
    match n {
        Number::Unsigned(u) => *u as i128,
        Number::Signed(s) => *s as i128,
        Number::Float { mantissa, .. } => *mantissa as i128,
    }
}

/// The exponent of a number.
pub fn exponent(n: &Number) -> (r: i32)
    ensures
        r == exponent_of(*n),
{
    match n {
        Number::Float { exponent, .. } => *exponent,
        _ => 0,
    }
}

impl Number {
    /// Whether the value of `self` is below the value of `other`.
    pub fn lt(&self, other: &Number) -> (r: bool)
        ensures
            r == num_lt(*self, *other),
    {
        compare_parts(mantissa(self), exponent(self), mantissa(other), exponent(other)) < 0
    }

    /// Whether the value of `self` is at most the value of `other`.
    pub fn le(&self, other: &Number) -> (r: bool)
        ensures
            r == (num_lt(*self, *other) || num_eq(*self, *other)),
    {
        compare_parts(mantissa(self), exponent(self), mantissa(other), exponent(other)) <= 0
    }

    /// Whether the value of `self` has no fractional part.
    pub fn is_integral(&self) -> (r: bool)
        ensures
            r == num_integral(*self),
    {
        let e = exponent(self);
        if e >= 0 {
            return true;
        }
        let m = mantissa(self);
        let am: u128 = if m < 0 { (-m) as u128 } else { m as u128 };
        let k: i64 = -(e as i64);
        if k >= 64 {
            proof {
                lemma2_to64();
                lemma_pow2_le(64, k as nat);
                lemma_small_mod(am as nat, pow2(k as nat));
            }
            am == 0
        } else {
            let p = pow2_u128(k as u32);
            proof { lemma_pow2_pos(k as nat); }
            am % p == 0
        }
    }

    /// Whether the value of `self` is an integer multiple of the value of `divisor`;
    /// never when the divisor is zero.
    pub fn is_multiple_of(&self, divisor: &Number) -> (r: bool)
        ensures
            r == num_multiple_of(*self, *divisor),
    {
        let ma = mantissa(self);
        let mb = mantissa(divisor);
        if mb == 0 {
            return false;
        }
        let ea = exponent(self);
        let eb = exponent(divisor);
        let am: u128 = if ma < 0 { (-ma) as u128 } else { ma as u128 };
        let bm: u128 = if mb < 0 { (-mb) as u128 } else { mb as u128 };
        let ghost base = common_base(*self, *divisor);
        proof {
            lemma2_to64();
            assert(pow2(0) == 1);
        }
        if ea >= eb {
            // Double the remainder once per step of the exponent difference.
            let d: i64 = ea as i64 - eb as i64;
            assert(base == eb);
            assert(abs(scaled(*divisor, base)) == bm as int) by {
                assert(scaled(*divisor, base) == mb * pow2(0));
            }
            assert(am as int * pow2(0) == am as int);
            let mut rem: u128 = am % bm;
            let mut i: i64 = 0;
            while i < d
                invariant
                    0 <= i <= d,
                    bm > 0,
                    bm < 0x1_0000_0000_0000_0000,
                    rem < bm,
                    rem as int == (am as int * pow2(i as nat)) % (bm as int),
                decreases d - i,
            {
                proof {
                    lemma_pow2_unfold((i + 1) as nat);
                    lemma_mul_mod_noop_right(2, am as int * pow2(i as nat), bm as int);
                    assert(am as int * pow2((i + 1) as nat) == 2 * (am as int * pow2(i as nat))) by (nonlinear_arith)
                        requires pow2((i + 1) as nat) == 2 * pow2(i as nat);
                }
                rem = (rem * 2) % bm;
                i = i + 1;
            }
            proof {
                assert(abs(scaled(*self, base)) == am as int * pow2(d as nat)) by {
                    lemma_pow2_pos(d as nat);
                    if ma < 0 {
                        assert(ma * pow2(d as nat) == -((-ma) * pow2(d as nat))) by (nonlinear_arith);
                        assert((-ma) * pow2(d as nat) >= 0) by (nonlinear_arith)
                            requires -ma > 0, pow2(d as nat) > 0;
                    } else {
                        assert(ma * pow2(d as nat) >= 0) by (nonlinear_arith)
                            requires ma >= 0, pow2(d as nat) > 0;
                    }
                }
            }
            rem == 0
        } else {
            let k: i64 = eb as i64 - ea as i64;
            assert(base == ea);
            assert(abs(scaled(*self, base)) == am as int) by {
                assert(scaled(*self, base) == ma * pow2(0));
            }
            proof {
                lemma_pow2_pos(k as nat);
                if mb < 0 {
                    assert(mb * pow2(k as nat) == -((-mb) * pow2(k as nat))) by (nonlinear_arith);
                    assert((-mb) * pow2(k as nat) >= 0) by (nonlinear_arith)
                        requires -mb > 0, pow2(k as nat) > 0;
                } else {
                    assert(mb * pow2(k as nat) >= 0) by (nonlinear_arith)
                        requires mb >= 0, pow2(k as nat) > 0;
                }
                assert(abs(scaled(*divisor, base)) == bm as int * pow2(k as nat));
            }
            if k >= 64 {
                proof {
                    lemma_pow2_le(64, k as nat);
                    lemma_mul_inequality(1, bm as int, pow2(k as nat) as int);
                    lemma_small_mod(am as nat, (bm as int * pow2(k as nat)) as nat);
                }
                am == 0
            } else {
                let p = pow2_u128(k as u32);
                proof {
                    lemma_pow2_le((k as u32) as nat, 63);
                    vstd::arithmetic::power2::lemma2_to64_rest();
                    assert(p <= 0x8000_0000_0000_0000);
                }
                assert(bm * p > 0) by (nonlinear_arith)
                    requires bm > 0, p > 0;
                assert(bm as int * p < 0x8000_0000_0000_0000_0000_0000_0000_0000) by (nonlinear_arith)
                    requires bm < 0x1_0000_0000_0000_0000, p <= 0x8000_0000_0000_0000;
                am % (bm * p) == 0
            }
        }
    }
}

} // verus!
