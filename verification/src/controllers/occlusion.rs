//! The occlusion test of the edge selection, in the arithmetic of 32-bit IEEE
//! floating point carried out on integers.

use vstd::arithmetic::power2::*;
use vstd::prelude::*;

verus! {

/// One more than the largest significand of a 32-bit float.
pub const SIGNIFICAND_END: u32 = 0x0100_0000;

/// The spacing of the 32-bit floats at the whole number `x`: the power of two
/// that leaves twenty-four significant bits.
pub open spec fn spacing(x: nat) -> nat
    decreases x,
{
    if x < SIGNIFICAND_END {
        1
    } else {
        2 * spacing(x / 2)
    }
}

/// The whole number `x` rounded to twenty-four significant bits, to the nearest
/// and on a tie to the even one: what converting it to a 32-bit float gives.
pub open spec fn rounded(x: nat) -> nat {
    let unit = spacing(x);
    let whole = x / unit;
    let rest = x % unit;
    if 2 * rest > unit || (2 * rest == unit && whole % 2 == 1) {
        (whole + 1) * unit
    } else {
        whole * unit
    }
}

/// A positive finite 32-bit float, `significand * 2^exponent`.
#[derive(Clone, Copy, Debug, PartialEq, Eq, Structural)]
pub struct PruneFactor {
    pub significand: u32,
    pub exponent: i32,
}

/// The value of the float whose bits are `bits`, if it is finite and positive:
/// sign bit, eight bits of biased exponent, twenty-three bits of fraction.
pub open spec fn factor_of_bits(bits: u32) -> Option<PruneFactor> {
    let field = bits / 0x80_0000;
    let fraction = bits % 0x80_0000;
    if field >= 255 || bits == 0 {
        None
    } else if field == 0 {
        Some(PruneFactor { significand: fraction, exponent: -149i32 })
    } else {
        Some(
            PruneFactor {
                significand: (0x80_0000 + fraction) as u32,
                exponent: (field - 150) as i32,
            },
        )
    }
}

impl PruneFactor {
    /// A value that a positive finite 32-bit float has.
    pub open spec fn wf(&self) -> bool {
        &&& 0 < self.significand < SIGNIFICAND_END
        &&& -149 <= self.exponent <= 104
    }

    /// `d * factor < score`, each whole number converted to a 32-bit float and
    /// the product rounded to one.
    pub open spec fn scales_below(&self, d: u32, score: u32) -> bool {
        let product = rounded(rounded(d as nat) * (self.significand as nat));
        let bound = rounded(score as nat);
        if self.exponent >= 0 {
            product * pow2(self.exponent as nat) < bound
        } else {
            product < bound * pow2((-self.exponent) as nat)
        }
    }

    /// The factor whose float has the bits `bits`; `None` for a zero, a
    /// negative number, an infinity or a NaN.
    pub fn from_bits(bits: u32) -> (f: Option<PruneFactor>)
        ensures
            f == factor_of_bits(bits),
            f matches Some(p) ==> p.wf(),
    {
        let field: u32 = bits / 0x80_0000;
        let fraction: u32 = bits % 0x80_0000;
        if field >= 255 || bits == 0 {
            None
        } else if field == 0 {
            Some(PruneFactor { significand: fraction, exponent: -149 })
        } else {
            Some(PruneFactor { significand: 0x80_0000 + fraction, exponent: field as i32 - 150 })
        }
    }

    /// Whether a candidate at distance `score` is occluded by a kept neighbour
    /// that is `d` away from it.
    pub fn occludes(&self, d: u32, score: u32) -> (r: bool)
        requires
            self.wf(),
        ensures
            r == self.scales_below(d, score),
    {
        proof {
            lemma_rounded_range(d as nat);
            lemma_rounded_range(score as nat);
        }
        let wide: u64 = round_to_float(d as u64);
        assert(wide * self.significand <= 0x1_0000_0000 * 0xff_ffff) by (nonlinear_arith)
            requires
                wide <= 0x1_0000_0000,
                self.significand <= 0xff_ffff,
        ;
        let exact: u64 = wide * self.significand as u64;
        proof {
            lemma_rounded_range(exact as nat);
        }
        let product: u64 = round_to_float(exact);
        let bound: u64 = round_to_float(score as u64);
        if self.exponent >= 0 {
            let e: u32 = self.exponent as u32;
            if product == 0 {
                assert(0 * pow2(e as nat) == 0) by (nonlinear_arith);
                0 < bound
            } else if e > 32 {
                proof {
                    lemma2_to64();
                    lemma_pow2_strictly_increases(32, e as nat);
                    assert(product * pow2(e as nat) >= pow2(e as nat)) by (nonlinear_arith)
                        requires
                            product >= 1,
                    ;
                }
                false
            } else {
                let power: u128 = power_of_two(e);
                proof {
                    lemma2_to64();
                    if e < 32 {
                        lemma_pow2_strictly_increases(e as nat, 32);
                    }
                    assert(product * power <= 0x200_0000_0000_0000 * 0x1_0000_0000)
                        by (nonlinear_arith)
                        requires
                            product <= 0x200_0000_0000_0000,
                            power <= 0x1_0000_0000,
                    ;
                }
                (product as u128) * power < bound as u128
            }
        } else {
            let e: u32 = (-self.exponent) as u32;
            if bound == 0 {
                assert(0 * pow2(e as nat) == 0) by (nonlinear_arith);
                false
            } else if e > 64 {
                proof {
                    lemma2_to64();
                    lemma_pow2_strictly_increases(64, e as nat);
                    assert(bound * pow2(e as nat) >= pow2(e as nat)) by (nonlinear_arith)
                        requires
                            bound >= 1,
                    ;
                }
                true
            } else {
                let power: u128 = power_of_two(e);
                proof {
                    lemma2_to64();
                    if e < 64 {
                        lemma_pow2_strictly_increases(e as nat, 64);
                    }
                    assert(bound * power <= 0x1_0000_0000 * 0x1_0000_0000_0000_0000)
                        by (nonlinear_arith)
                        requires
                            bound <= 0x1_0000_0000,
                            power <= 0x1_0000_0000_0000_0000,
                    ;
                }
                (product as u128) < (bound as u128) * power
            }
        }
    }
}

/// The factor 1.2, as the nearest 32-bit float.
pub fn default_factor() -> (f: PruneFactor)
    ensures
        f == (PruneFactor { significand: 10066330, exponent: -23i32 }),
        f.wf(),
        factor_of_bits(0x3f99_999a) == Some(f),
{
    PruneFactor { significand: 10066330, exponent: -23 }
}

proof fn lemma_spacing(x: nat)
    ensures
        spacing(x) >= 1,
        x < SIGNIFICAND_END ==> spacing(x) == 1,
        x >= SIGNIFICAND_END ==> 0x80_0000 * spacing(x) <= x && spacing(x) % 2 == 0,
        x < SIGNIFICAND_END * spacing(x),
    decreases x,
{
    if x >= SIGNIFICAND_END {
        lemma_spacing(x / 2);
    }
}

/// Rounding keeps a number between the two multiples of its spacing.
proof fn lemma_rounded_range(x: nat)
    ensures
        x <= 0xffff_ffff ==> rounded(x) <= 0x1_0000_0000,
        rounded(x) <= 2 * x,
        x < SIGNIFICAND_END ==> rounded(x) == x,
{
    lemma_spacing(x);
    let u = spacing(x);
    let q = x / u;
    let r = x % u;
    assert(x == q * u + r && 0 <= r < u) by (nonlinear_arith)
        requires
            u >= 1,
            q == x / u,
            r == x % u,
    ;
    if x < SIGNIFICAND_END {
        assert(q == x && r == 0);
        assert(q * u == x) by (nonlinear_arith)
            requires
                q == x,
                u == 1,
        ;
    } else {
        assert((q + 1) * u == q * u + u) by (nonlinear_arith);
        if x <= 0xffff_ffff {
            lemma_spacing_cap(x);
            assert(q < SIGNIFICAND_END) by (nonlinear_arith)
                requires
                    x < SIGNIFICAND_END * u,
                    x == q * u + r,
                    r >= 0,
                    u >= 1,
            ;
            assert((q + 1) * u <= 0x1_0000_0000) by (nonlinear_arith)
                requires
                    q + 1 <= 0x100_0000,
                    u <= 256,
                    u >= 1,
            ;
        }
    }
}

proof fn lemma_spacing_cap(x: nat)
    requires
        x <= 0xffff_ffff,
    ensures
        spacing(x) <= 256,
{
    reveal_with_fuel(spacing, 10);
}

/// Converts a whole number to the nearest 32-bit float, as a whole number.
fn round_to_float(x: u64) -> (r: u64)
    requires
        x <= 0x100_0000_0000_0000,
    ensures
        r == rounded(x as nat),
{
    let mut unit: u64 = 1;
    let mut top: u64 = x;
    proof {
        lemma_spacing(x as nat);
        lemma_rounded_range(x as nat);
    }
    while top >= 0x100_0000
        invariant
            unit >= 1,
            unit * spacing(top as nat) == spacing(x as nat),
            unit as int * top as int <= x,
            x <= 0x100_0000_0000_0000,
        decreases top,
    {
        let ghost u0 = unit as int;
        let ghost t0 = top as int;
        assert(u0 * t0 >= u0 * 0x100_0000) by (nonlinear_arith)
            requires
                t0 >= 0x100_0000,
                u0 >= 1,
        ;
        top = top / 2;
        assert(u0 * spacing(t0 as nat) == u0 * (2 * spacing((t0 / 2) as nat)));
        assert(u0 * (2 * spacing((t0 / 2) as nat)) == (2 * u0) * spacing((t0 / 2) as nat))
            by (nonlinear_arith);
        assert((2 * u0) * (t0 / 2) <= u0 * t0) by (nonlinear_arith)
            requires
                u0 >= 1,
                t0 >= 0,
        ;
        unit = unit * 2;
    }
    assert(unit == spacing(x as nat)) by (nonlinear_arith)
        requires
            unit * spacing(top as nat) == spacing(x as nat),
            spacing(top as nat) == 1,
    ;
    let whole: u64 = x / unit;
    let rest: u64 = x % unit;
    proof {
        assert(whole * unit + rest == x) by (nonlinear_arith)
            requires
                unit >= 1,
                whole == x / unit,
                rest == x % unit,
        ;
        assert((whole + 1) * unit == whole * unit + unit) by (nonlinear_arith);
        assert(unit <= x || unit == 1) by {
            if x >= SIGNIFICAND_END {
                assert(0x80_0000 * spacing(x as nat) <= x);
            }
        }
    }
    if 2 * rest > unit || (2 * rest == unit && whole % 2 == 1) {
        (whole + 1) * unit
    } else {
        whole * unit
    }
}

/// A small power of two.
fn power_of_two(e: u32) -> (r: u128)
    requires
        e <= 64,
    ensures
        r == pow2(e as nat),
{
    let mut r: u128 = 1;
    let mut i: u32 = 0;
    proof {
        lemma2_to64();
    }
    while i < e
        invariant
            i <= e,
            e <= 64,
            r == pow2(i as nat),
        decreases e - i,
    {
        proof {
            lemma_pow2_unfold((i + 1) as nat);
            lemma2_to64();
            lemma_pow2_strictly_increases(i as nat, 64);
        }
        r = r * 2;
        i = i + 1;
    }
    r
}

// ---------------------------------------------------------------------------
// A greater factor occludes less
// ---------------------------------------------------------------------------

proof fn lemma_spacing_order(a: nat, b: nat)
    requires
        a <= b,
    ensures
        spacing(a) <= spacing(b),
        spacing(a) < spacing(b) ==> 2 * spacing(a) <= spacing(b),
    decreases b,
{
    lemma_spacing(a);
    lemma_spacing(b);
    if a >= SIGNIFICAND_END {
        lemma_spacing_order(a / 2, b / 2);
    }
}

/// A number in units of its spacing.
proof fn lemma_units(x: nat)
    ensures
        ({
            let u = spacing(x);
            let q = x / u;
            let r = x % u;
            &&& u >= 1
            &&& x == q * u + r
            &&& 0 <= r < u
            &&& q < SIGNIFICAND_END
            &&& x >= SIGNIFICAND_END ==> q >= 0x80_0000
            &&& q * u <= rounded(x) <= (q + 1) * u
        }),
{
    lemma_spacing(x);
    let u = spacing(x);
    let q = x / u;
    let r = x % u;
    assert(x == q * u + r && 0 <= r < u) by (nonlinear_arith)
        requires
            u >= 1,
            q == x / u,
            r == x % u,
    ;
    assert(q < SIGNIFICAND_END) by (nonlinear_arith)
        requires
            x < SIGNIFICAND_END * u,
            x == q * u + r,
            r >= 0,
            u >= 1,
    ;
    if x >= SIGNIFICAND_END {
        assert(q >= 0x80_0000) by (nonlinear_arith)
            requires
                0x80_0000 * u <= x,
                x == q * u + r,
                r < u,
                u >= 1,
        ;
    }
    assert((q + 1) * u == q * u + u) by (nonlinear_arith);
}

/// Rounding keeps the order.
proof fn lemma_rounded_order(a: nat, b: nat)
    requires
        a <= b,
    ensures
        rounded(a) <= rounded(b),
{
    lemma_units(a);
    lemma_units(b);
    lemma_spacing_order(a, b);
    let u = spacing(a);
    let v = spacing(b);
    let qa = a / u;
    let qb = b / v;
    if u == v {
        if qa < qb {
            assert((qa + 1) * u <= qb * u) by (nonlinear_arith)
                requires
                    qa + 1 <= qb,
                    u >= 1,
            ;
        } else {
            assert(qa == qb) by (nonlinear_arith)
                requires
                    qa >= qb,
                    u >= 1,
                    a <= b,
                    a == qa * u + a % u,
                    b == qb * u + b % u,
                    0 <= a % u < u,
                    0 <= b % u < u,
            ;
            assert((qa + 1) * u == qa * u + u) by (nonlinear_arith);
        }
    } else {
        lemma_spacing(a);
        lemma_spacing(b);
        assert(b >= SIGNIFICAND_END);
        assert((qa + 1) * u <= qb * v) by (nonlinear_arith)
            requires
                qa + 1 <= 0x100_0000,
                qb >= 0x80_0000,
                2 * u <= v,
                u >= 1,
        ;
    }
}

/// Doubling and rounding may change places.
proof fn lemma_rounded_double(x: nat)
    ensures
        rounded(2 * x) == 2 * rounded(x),
{
    lemma_units(x);
    lemma_units(2 * x);
    lemma_spacing(x);
    let u = spacing(x);
    let q = x / u;
    let r = x % u;
    if 2 * x < SIGNIFICAND_END {
        lemma_rounded_range(x);
        lemma_rounded_range(2 * x);
    } else {
        assert((2 * x) / 2 == x);
        assert(spacing(2 * x) == 2 * u);
        assert((2 * x) / (2 * u) == q && (2 * x) % (2 * u) == 2 * r) by (nonlinear_arith)
            requires
                x == q * u + r,
                0 <= r < u,
                u >= 1,
        ;
        assert((q + 1) * (2 * u) == 2 * ((q + 1) * u)) by (nonlinear_arith);
        assert(q * (2 * u) == 2 * (q * u)) by (nonlinear_arith);
    }
}

/// So may scaling by a power of two.
proof fn lemma_rounded_scaled(x: nat, k: nat)
    ensures
        rounded(x * pow2(k)) == rounded(x) * pow2(k),
    decreases k,
{
    if k == 0 {
        lemma2_to64();
    } else {
        let h = (k - 1) as nat;
        lemma_rounded_scaled(x, h);
        lemma_pow2_unfold(k);
        lemma_rounded_double(x * pow2(h));
        assert(x * pow2(k) == 2 * (x * pow2(h))) by (nonlinear_arith)
            requires
                pow2(k) == 2 * pow2(h),
        ;
        assert(rounded(x) * pow2(k) == 2 * (rounded(x) * pow2(h))) by (nonlinear_arith)
            requires
                pow2(k) == 2 * pow2(h),
        ;
    }
}

/// The significand of a factor when it is written with the lesser exponent `m`.
pub open spec fn significand_at(f: PruneFactor, m: int) -> nat {
    f.significand as nat * pow2((f.exponent - m) as nat)
}

/// `f` is no greater than `g`.
pub open spec fn no_greater(f: PruneFactor, g: PruneFactor) -> bool {
    let m = if f.exponent <= g.exponent {
        f.exponent as int
    } else {
        g.exponent as int
    };
    significand_at(f, m) <= significand_at(g, m)
}

/// The occlusion test with the factor written with the lesser exponent `m`.
proof fn lemma_scales_at(f: PruneFactor, d: u32, score: u32, m: int)
    requires
        m <= f.exponent,
    ensures
        ({
            let product = rounded(rounded(d as nat) * significand_at(f, m));
            let bound = rounded(score as nat);
            f.scales_below(d, score) <==> if m >= 0 {
                product * pow2(m as nat) < bound
            } else {
                product < bound * pow2((-m) as nat)
            }
        }),
{
    let rd = rounded(d as nat);
    let sig = f.significand as nat;
    let e = f.exponent as int;
    let k = (e - m) as nat;
    let base = rounded(rd * sig);
    let bound = rounded(score as nat);
    lemma_rounded_scaled(rd * sig, k);
    assert(rd * (sig * pow2(k)) == (rd * sig) * pow2(k)) by (nonlinear_arith);
    let product = rounded(rd * significand_at(f, m));
    assert(product == base * pow2(k));
    if m >= 0 {
        lemma_pow2_adds(k, m as nat);
        assert(k + m == e);
        assert(product * pow2(m as nat) == base * pow2(e as nat)) by (nonlinear_arith)
            requires
                product == base * pow2(k),
                pow2(k) * pow2(m as nat) == pow2(e as nat),
        ;
    } else if e >= 0 {
        let n = (-m) as nat;
        lemma_pow2_adds(e as nat, n);
        lemma_pow2_pos(n);
        assert(e + n == k);
        assert(base * pow2(k) < bound * pow2(n) <==> base * pow2(e as nat) < bound)
            by (nonlinear_arith)
            requires
                pow2(e as nat) * pow2(n) == pow2(k),
                pow2(n) > 0,
        ;
    } else {
        let n = (-m) as nat;
        let p = (-e) as nat;
        lemma_pow2_adds(p, k);
        lemma_pow2_pos(k);
        assert(p + k == n);
        assert(base * pow2(k) < bound * pow2(n) <==> base < bound * pow2(p)) by (nonlinear_arith)
            requires
                pow2(p) * pow2(k) == pow2(n),
                pow2(k) > 0,
        ;
    }
}

/// A greater factor occludes no candidate that a lesser one does not.
pub proof fn lemma_greater_occludes_less(f: PruneFactor, g: PruneFactor, d: u32, score: u32)
    requires
        f.wf(),
        g.wf(),
        no_greater(f, g),
    ensures
        g.scales_below(d, score) ==> f.scales_below(d, score),
{
    let m = if f.exponent <= g.exponent {
        f.exponent as int
    } else {
        g.exponent as int
    };
    lemma_scales_at(f, d, score, m);
    lemma_scales_at(g, d, score, m);
    let rd = rounded(d as nat);
    let a = rd * significand_at(f, m);
    let b = rd * significand_at(g, m);
    assert(a <= b) by (nonlinear_arith)
        requires
            a == rd * significand_at(f, m),
            b == rd * significand_at(g, m),
            significand_at(f, m) <= significand_at(g, m),
            rd >= 0,
    ;
    lemma_rounded_order(a, b);
    if m >= 0 {
        assert(rounded(a) * pow2(m as nat) <= rounded(b) * pow2(m as nat)) by (nonlinear_arith)
            requires
                rounded(a) <= rounded(b),
        ;
    }
}

/// Rounding moves a number by a 2^24th of it at most, and a number of twenty-four
/// bits not at all.
pub proof fn lemma_rounded_near(x: nat)
    ensures
        x < 0x100_0000 ==> rounded(x) == x,
        0x100_0000 * (rounded(x) - x) <= x,
        0x100_0000 * (x - rounded(x)) <= x,
{
    lemma_rounded_range(x);
    lemma_spacing(x);
    let u = spacing(x);
    let q = x / u;
    let r = x % u;
    assert(x == q * u + r && 0 <= r < u) by (nonlinear_arith)
        requires
            u >= 1,
            q == x / u,
            r == x % u,
    ;
    assert((q + 1) * u == q * u + u) by (nonlinear_arith);
}

/// The occlusion test compares the product of distance and factor with the score,
/// and is wrong at most where they differ by less than a 2^24th. This is for numbers
/// of twenty-four bits, which no conversion changes; `product` and `bound` are the
/// two sides in units of the exponent.
pub proof fn lemma_occludes_by_product(
    f: PruneFactor,
    d: u32,
    score: u32,
    product: int,
    bound: int,
)
    requires
        f.wf(),
        d < 0x100_0000,
        score < 0x100_0000,
        f.exponent >= 0 ==> product == d * f.significand * pow2(f.exponent as nat) && bound
            == score,
        f.exponent < 0 ==> product == d * f.significand && bound == score * pow2(
            (-f.exponent) as nat,
        ),
    ensures
        0x100_0001 * product < 0x100_0000 * bound ==> f.scales_below(d, score),
        0xff_ffff * product >= 0x100_0000 * bound ==> !f.scales_below(d, score),
{
    lemma_rounded_near(d as nat);
    lemma_rounded_near(score as nat);
    let exact = (d * f.significand) as nat;
    assert(rounded(d as nat) * (f.significand as nat) == exact);
    lemma_rounded_near(exact);
    let near = rounded(exact);
    if f.exponent >= 0 {
        let p = pow2(f.exponent as nat);
        lemma_pow2_pos(f.exponent as nat);
        assert(0x100_0000 * (near * p) <= 0x100_0001 * (exact * p)) by (nonlinear_arith)
            requires
                0x100_0000 * (near - exact) <= exact,
                p > 0,
        ;
        assert(0x100_0000 * (near * p) >= 0xff_ffff * (exact * p)) by (nonlinear_arith)
            requires
                0x100_0000 * (exact - near) <= exact,
                p > 0,
        ;
    }
}

/// Bits in order are factors in order: a factor of greater bits is the greater.
pub proof fn lemma_bits_in_order(a: u32, b: u32)
    requires
        factor_of_bits(a) is Some,
        factor_of_bits(b) is Some,
        a <= b,
    ensures
        no_greater(factor_of_bits(a)->0, factor_of_bits(b)->0),
        factor_of_bits(0x3f80_0000) == Some(
            PruneFactor { significand: 0x80_0000, exponent: -23i32 },
        ),
{
    let f = factor_of_bits(a)->0;
    let g = factor_of_bits(b)->0;
    let k = (g.exponent - f.exponent) as nat;
    lemma2_to64();
    assert(f.exponent <= g.exponent);
    lemma_pow2_pos(k);
    assert(f.significand * pow2(0) == f.significand);
    if k > 0 {
        lemma_pow2_unfold(k);
        lemma_pow2_pos((k - 1) as nat);
        assert(g.significand >= 0x80_0000);
        assert(g.significand * pow2(k) >= 0x100_0000) by (nonlinear_arith)
            requires
                g.significand >= 0x80_0000,
                pow2(k) >= 2,
        ;
    } else {
        assert(g.significand * pow2(0) == g.significand);
    }
}

/// What a factor of one occludes: candidates that are farther than they are from the
/// kept neighbour.
pub proof fn lemma_factor_one(d: u32, score: u32)
    requires
        d < 0x100_0000,
        score < 0x100_0000,
    ensures
        (PruneFactor { significand: 0x80_0000, exponent: -23i32 }).scales_below(d, score) <==> d
            < score,
{
    let f = PruneFactor { significand: 0x80_0000, exponent: -23i32 };
    lemma_rounded_near(d as nat);
    lemma_rounded_near(score as nat);
    lemma2_to64();
    lemma_rounded_scaled(d as nat, 23);
    assert(pow2(23) == 0x80_0000);
    assert(rounded(d as nat) * (f.significand as nat) == d as nat * pow2(23));
    assert((-f.exponent) as nat == 23);
    assert(score as nat * pow2(23) == score * 0x80_0000);
}

} // verus!
