//! How large an image is shown: shrunk to fit the window, never enlarged.
//!
//! Sizes are scaled by a binary floating point factor with 53 significant bits, rounding to nearest
//! with ties to even after each operation. The arithmetic is carried out on integers, which hold
//! such numbers exactly.
use vstd::arithmetic::power2::{lemma_pow2_adds, lemma_pow2_pos, lemma_pow2_unfold, pow2};
use vstd::prelude::*;

verus! {

/// The weight of the highest bit of a significand.
pub const ONE: u128 = 0x10_0000_0000_0000;

/// `p / q` rounded to the nearest integer, ties to even.
pub open spec fn nearest_even(p: nat, q: nat) -> nat {
    let floor = p / q;
    let twice = 2 * (p % q);
    if twice < q || (twice == q && floor % 2 == 0) {
        floor
    } else {
        floor + 1
    }
}

/// A floating point number: `significand / ONE / divisor`.
pub ghost struct Float {
    pub significand: nat,
    pub divisor: nat,
}

/// The floating point number nearest to `a / n / divisor`, for `0 < a < 2 * n` and a `divisor` that
/// is a power of two.
pub open spec fn normalize(a: nat, n: nat, divisor: nat) -> Float
    decreases
            if a < n {
                n - a
            } else {
                0
            },
{
    if 0 < a < n {
        normalize(2 * a, n, 2 * divisor)
    } else {
        Float { significand: nearest_even(a * ONE as nat, n), divisor }
    }
}

/// `p` rounded to 53 significant bits, of which `unit` is the weight of the lowest or lower.
pub open spec fn round_bits(p: nat, unit: nat) -> nat
    decreases
            if p < 2 * ONE as nat * unit {
                0
            } else {
                p - 2 * ONE as nat * unit + 1
            },
{
    if unit == 0 || p < 2 * ONE as nat * unit {
        nearest_even(p, unit) * unit
    } else {
        proof {
            assert(2 * ONE as nat * (2 * unit) > 2 * ONE as nat * unit) by (nonlinear_arith)
                requires
                    unit > 0,
            ;
        }
        round_bits(p, 2 * unit)
    }
}

impl Float {
    /// The number one.
    pub open spec fn one() -> Self {
        Float { significand: ONE as nat, divisor: 1 }
    }

    /// The number nearest to `a / n`, for `0 < a < n`.
    pub open spec fn quotient(a: nat, n: nat) -> Self {
        normalize(a, n, 1)
    }

    pub open spec fn le(self, other: Self) -> bool {
        self.significand * other.divisor <= other.significand * self.divisor
    }

    pub open spec fn min(self, other: Self) -> Self {
        if self.le(other) {
            self
        } else {
            other
        }
    }

    /// The integer nearest to the product of `self` and `n`, after that product has been rounded to
    /// 53 significant bits. Ties go up.
    pub open spec fn times(self, n: nat) -> nat {
        let one = ONE as nat * self.divisor;
        (2 * round_bits(n * self.significand, 1) + one) / (2 * one)
    }
}

/// A number that `fit` computes with.
struct Factor {
    significand: u128,
    divisor: u128,
}

impl Factor {
    spec fn view(self) -> Float {
        Float { significand: self.significand as nat, divisor: self.divisor as nat }
    }

    spec fn wf(self) -> bool {
        &&& ONE <= self.significand <= 2 * ONE
        &&& 1 <= self.divisor < 0x2_0000_0000
    }
}

proof fn lemma_nearest_even(p: nat, q: nat)
    requires
        q > 0,
    ensures
        2 * (nearest_even(p, q) * q - p) <= q,
        2 * (p - nearest_even(p, q) * q) <= q,
{
    vstd::arithmetic::div_mod::lemma_fundamental_div_mod(p as int, q as int);
    let f: int = (p / q) as int;
    assert((f + 1) * q == f * q + q) by (nonlinear_arith);
    assert(f * q == q * f) by (nonlinear_arith);
}

fn divide_nearest_even(p: u128, q: u128) -> (r: u128)
    requires
        0 < q,
        q < 0x8000_0000_0000_0000_0000_0000_0000_0000,
        p < 0x8000_0000_0000_0000_0000_0000_0000_0000,
    ensures
        r == nearest_even(p as nat, q as nat),
{
    let floor: u128 = p / q;
    let twice: u128 = 2 * (p % q);
    proof {
        assert(p / q <= p) by (nonlinear_arith)
            requires
                q > 0,
        ;
    }
    if twice < q || (twice == q && floor % 2 == 0) {
        floor
    } else {
        floor + 1
    }
}

impl Factor {
    fn one() -> (r: Self)
        ensures
            r.wf(),
            r.view() == Float::one(),
    {
        Factor { significand: ONE, divisor: 1 }
    }

    fn quotient(a: u128, n: u128) -> (r: Self)
        requires
            0 < a < n < 0x1_0000_0000,
        ensures
            r.wf(),
            r.view() == Float::quotient(a as nat, n as nat),
    {
        let mut scaled: u128 = a;
        let mut divisor: u128 = 1;
        while scaled < n
            invariant
                0 < a < n < 0x1_0000_0000,
                scaled == a * divisor,
                0 < scaled < 2 * n,
                1 <= divisor < 0x2_0000_0000,
                normalize(scaled as nat, n as nat, divisor as nat) == Float::quotient(
                    a as nat,
                    n as nat,
                ),
            decreases 2 * n - scaled,
        {
            proof {
                assert(divisor <= a * divisor) by (nonlinear_arith)
                    requires
                        a > 0,
                ;
                assert(a * (divisor * 2) == 2 * (a * divisor)) by (nonlinear_arith);
            }
            scaled = scaled * 2;
            divisor = divisor * 2;
        }
        proof {
            lemma_nearest_even(scaled as nat * ONE as nat, n as nat);
            let r: int = nearest_even(scaled as nat * ONE as nat, n as nat) as int;
            assert(ONE <= r <= 2 * ONE) by (nonlinear_arith)
                requires
                    n <= scaled,
                    scaled < 2 * n,
                    n > 0,
                    2 * (r * n - scaled * ONE) <= n,
                    2 * (scaled * ONE - r * n) <= n,
            ;
            assert(scaled * ONE < 0x2_0000_0000 * ONE) by (nonlinear_arith)
                requires
                    scaled < 0x2_0000_0000,
                    ONE > 0,
            ;
        }
        Factor { significand: divide_nearest_even(scaled * ONE, n), divisor }
    }

    fn min(self, other: Self) -> (r: Self)
        requires
            self.wf(),
            other.wf(),
        ensures
            r.wf(),
            r.view() == self.view().min(other.view()),
    {
        proof {
            assert(self.significand * other.divisor <= 2 * ONE * 0x2_0000_0000) by (nonlinear_arith)
                requires
                    self.significand <= 2 * ONE,
                    other.divisor <= 0x2_0000_0000,
            ;
            assert(other.significand * self.divisor <= 2 * ONE * 0x2_0000_0000) by (nonlinear_arith)
                requires
                    other.significand <= 2 * ONE,
                    self.divisor <= 0x2_0000_0000,
            ;
        }
        if self.significand * other.divisor <= other.significand * self.divisor {
            self
        } else {
            other
        }
    }

    fn times(&self, n: u32) -> (r: u128)
        requires
            self.wf(),
        ensures
            r == self.view().times(n as nat),
    {
        proof {
            assert(n * self.significand <= 0xffff_ffff * (2 * ONE)) by (nonlinear_arith)
                requires
                    n <= 0xffff_ffff,
                    self.significand <= 2 * ONE,
            ;
        }
        let p: u128 = n as u128 * self.significand;
        let mut unit: u128 = 1;
        while 2 * ONE * unit <= p
            invariant
                p <= 0xffff_ffff * (2 * ONE),
                1 <= unit <= 0x2_0000_0000,
                2 * ONE * unit <= 2 * ONE * 0x2_0000_0000,
                round_bits(p as nat, unit as nat) == round_bits(p as nat, 1),
            decreases 0x4_0000_0000 - unit,
        {
            proof {
                assert(unit < 0xffff_ffff + 1) by (nonlinear_arith)
                    requires
                        2 * ONE * unit <= 0xffff_ffff * (2 * ONE),
                ;
                assert(2 * ONE * (unit * 2) == 2 * (2 * ONE * unit)) by (nonlinear_arith);
            }
            unit = unit * 2;
        }
        let floor: u128 = divide_nearest_even(p, unit);
        proof {
            lemma_nearest_even(p as nat, unit as nat);
        }
        let rounded: u128 = floor * unit;
        let one: u128 = ONE * self.divisor;
        (2 * rounded + one) / (2 * one)
    }
}

/// The factor by which `n` has to shrink to be at most `max`: at most one.
pub open spec fn shrink(n: nat, max: nat) -> Float {
    if n <= max {
        Float::one()
    } else {
        Float::quotient(max, n)
    }
}

/// The factor that makes an image of `size` fit in an area of `area`.
pub open spec fn scale_of(size: (nat, nat), area: (nat, nat)) -> Float {
    shrink(size.0, area.0).min(shrink(size.1, area.1))
}

/// `n` times `scale`, rounded and kept within `1..=max`.
pub open spec fn scaled_to(n: nat, scale: Float, max: nat) -> nat {
    let product = scale.times(n);
    if product < 1 {
        1
    } else if product > max {
        max
    } else {
        product
    }
}

/// An area as images are fitted to it: no side is empty.
pub open spec fn usable(area: (u16, u16)) -> (nat, nat) {
    (
        if area.0 == 0 {
            1
        } else {
            area.0 as nat
        },
        if area.1 == 0 {
            1
        } else {
            area.1 as nat
        },
    )
}

/// The size at which an image of `size` is shown in `area`.
pub open spec fn fitted(size: (u32, u32), area: (u16, u16)) -> (nat, nat) {
    let room = usable(area);
    let scale = scale_of((size.0 as nat, size.1 as nat), room);
    (scaled_to(size.0 as nat, scale, room.0), scaled_to(size.1 as nat, scale, room.1))
}

fn shrink_factor(n: u32, max: u16) -> (r: Factor)
    requires
        max > 0,
    ensures
        r.wf(),
        r.view() == shrink(n as nat, max as nat),
{
    if n <= max as u32 {
        Factor::one()
    } else {
        Factor::quotient(max as u128, n as u128)
    }
}

fn scaled(n: u32, scale: &Factor, max: u16) -> (r: u16)
    requires
        max > 0,
        scale.wf(),
    ensures
        r == scaled_to(n as nat, scale.view(), max as nat),
{
    let product: u128 = scale.times(n);
    if product < 1 {
        1
    } else if product > max as u128 {
        max
    } else {
        product as u16
    }
}

/// The size of an image of `size` shrunk to fit in `area`, keeping its aspect ratio. Images are
/// never enlarged.
pub fn fit(size: (u32, u32), area: (u16, u16)) -> (r: (u16, u16))
    ensures
        (r.0 as nat, r.1 as nat) == fitted(size, area),
{
    let width: u16 = if area.0 == 0 {
        1
    } else {
        area.0
    };
    let height: u16 = if area.1 == 0 {
        1
    } else {
        area.1
    };
    let scale = shrink_factor(size.0, width).min(shrink_factor(size.1, height));
    (scaled(size.0, &scale, width), scaled(size.1, &scale, height))
}

/// `a / n` as a factor: the smaller of the two ratios between the area's sides and the image's.
pub open spec fn limiting_ratio(size: (nat, nat), area: (nat, nat)) -> (nat, nat) {
    if area.0 * size.1 <= area.1 * size.0 {
        (area.0, size.0)
    } else {
        (area.1, size.1)
    }
}

/// `r` is `p / q` rounded to an integer, or one if that would be zero.
pub open spec fn rounded(r: nat, p: nat, q: nat) -> bool {
    ||| -(q as int) <= 2 * (r * q - p) <= q
    ||| r == 1 && 2 * p <= q
}

/// `x` differs from `a / n` by at most one part in `2 * ONE`.
spec fn close(x: Float, a: nat, n: nat) -> bool {
    let one = ONE as nat * x.divisor;
    &&& 2 * ONE * (x.significand * n - a * one) <= x.significand * n
    &&& 2 * ONE * (a * one - x.significand * n) <= x.significand * n
}

proof fn lemma_normalize(a: nat, n: nat, divisor: nat) -> (scaled: nat)
    requires
        0 < a < 2 * n,
        1 <= divisor,
    ensures
        n <= scaled < 2 * n,
        scaled * divisor == a * normalize(a, n, divisor).divisor,
        normalize(a, n, divisor).significand == nearest_even(scaled * ONE as nat, n),
        1 <= normalize(a, n, divisor).divisor,
    decreases 2 * n - a,
{
    if a < n {
        let scaled = lemma_normalize(2 * a, n, 2 * divisor);
        let d: nat = normalize(a, n, divisor).divisor;
        assert(scaled * divisor == a * d) by (nonlinear_arith)
            requires
                scaled * (2 * divisor) == 2 * a * d,
        ;
        scaled
    } else {
        a
    }
}

proof fn lemma_quotient(a: nat, n: nat)
    requires
        0 < a < n,
    ensures
        close(Float::quotient(a, n), a, n),
        ONE <= Float::quotient(a, n).significand,
        1 <= Float::quotient(a, n).divisor,
{
    let x = Float::quotient(a, n);
    let scaled: nat = lemma_normalize(a, n, 1);
    let p: nat = scaled * ONE as nat;
    lemma_nearest_even(p, n);
    assert(ONE <= x.significand) by (nonlinear_arith)
        requires
            n <= scaled,
            n > 0,
            p == scaled * ONE,
            2 * (p - x.significand * n) <= n,
    ;
    let one: nat = ONE as nat * x.divisor;
    assert(a * one == p) by (nonlinear_arith)
        requires
            one == ONE as nat * x.divisor,
            scaled == a * x.divisor,
            p == scaled * ONE as nat,
    ;
    assert(ONE * n <= x.significand * n) by (nonlinear_arith)
        requires
            ONE <= x.significand,
    ;
}

proof fn lemma_round_bits(p: nat, unit: nat)
    requires
        unit > 0,
        ONE as nat * unit <= p,
    ensures
        2 * ONE * (round_bits(p, unit) - p) <= p,
        2 * ONE * (p - round_bits(p, unit)) <= p,
    decreases p - unit,
{
    if p < 2 * ONE as nat * unit {
        lemma_nearest_even(p, unit);
    } else {
        assert(ONE as nat * (2 * unit) == 2 * ONE as nat * unit) by (nonlinear_arith);
        assert(unit < 2 * ONE as nat * unit) by (nonlinear_arith)
            requires
                unit > 0,
        ;
        assert(p - 2 * unit >= 0) by (nonlinear_arith)
            requires
                2 * ONE as nat * unit <= p,
        ;
        lemma_round_bits(p, 2 * unit);
    }
}

proof fn lemma_times(x: Float, size: nat) -> (q: nat)
    requires
        x.divisor > 0,
        ONE <= x.significand,
    ensures
        2 * ONE * (q - size * x.significand) <= size * x.significand,
        2 * ONE * (size * x.significand - q) <= size * x.significand,
        2 * (x.times(size) * (ONE as nat * x.divisor) - q) <= ONE as nat * x.divisor,
        2 * (q - x.times(size) * (ONE as nat * x.divisor)) <= ONE as nat * x.divisor,
{
    let one: nat = ONE as nat * x.divisor;
    let product: nat = size * x.significand;
    let q: nat = round_bits(product, 1);
    if size == 0 {
        assert(product == 0) by (nonlinear_arith)
            requires
                size == 0,
                product == size * x.significand,
        ;
        assert(nearest_even(0, 1) == 0);
        assert(q == 0);
    } else {
        assert(ONE <= product) by (nonlinear_arith)
            requires
                size >= 1,
                ONE <= x.significand,
                product == size * x.significand,
        ;
        lemma_round_bits(product, 1);
    }
    assert(one > 0) by (nonlinear_arith)
        requires
            one == ONE as nat * x.divisor,
            x.divisor > 0,
    ;
    let r: nat = x.times(size);
    vstd::arithmetic::div_mod::lemma_fundamental_div_mod((2 * q + one) as int, (2 * one) as int);
    assert(2 * one * r == 2 * (r * one)) by (nonlinear_arith);
    q
}

/// What rounding twice to 53 bits can do to `size * a / n` is too little to move the integer that
/// it is rounded to.
proof fn lemma_times_close(x: Float, a: nat, n: nat, size: nat)
    requires
        x.divisor > 0,
        ONE <= x.significand,
        close(x, a, n),
        0 < n < 0x1_0000_0000,
        size * a <= n * 0x1_0000,
    ensures
        2 * (x.times(size) * n - size * a) <= n,
        2 * (size * a - x.times(size) * n) <= n,
{
    let q: int = lemma_times(x, size) as int;
    let s: int = x.significand as int;
    let one: int = ONE * x.divisor;
    let p: int = size * s;
    let r: int = x.times(size) as int;
    let d: int = 2 * ONE;
    let size: int = size as int;
    let n: int = n as int;
    let a: int = a as int;
    assert(one > 0) by (nonlinear_arith)
        requires
            one == ONE * x.divisor,
            x.divisor > 0,
    ;
    // The product is small compared to its denominator.
    assert(s * n <= 2 * (a * one)) by (nonlinear_arith)
        requires
            d * (s * n - a * one) <= s * n,
            d >= 2,
            s * n >= 0,
    ;
    assert(p * n <= 0x2_0000 * (n * one)) by (nonlinear_arith)
        requires
            p == size * s,
            s * n <= 2 * (a * one),
            size * a <= n * 0x1_0000,
            size >= 0,
            one > 0,
    {
        assert(p * n == size * (s * n)) by (nonlinear_arith)
            requires
                p == size * s,
        ;
        assert(size * (s * n) <= size * (2 * (a * one))) by (nonlinear_arith)
            requires
                s * n <= 2 * (a * one),
                size >= 0,
        ;
        assert(size * (2 * (a * one)) == 2 * one * (size * a)) by (nonlinear_arith);
        assert(2 * one * (size * a) <= 2 * one * (n * 0x1_0000)) by (nonlinear_arith)
            requires
                size * a <= n * 0x1_0000,
                one > 0,
        ;
        assert(2 * one * (n * 0x1_0000) == 0x2_0000 * (n * one)) by (nonlinear_arith);
    }
    // The three errors, all multiplied by `d * n`.
    let e1: int = r * one - q;
    let e2: int = q - p;
    let e3: int = s * n - a * one;
    assert((r * n - size * a) * one == n * e1 + n * e2 + size * e3) by (nonlinear_arith)
        requires
            e1 == r * one - q,
            e2 == q - p,
            e3 == s * n - a * one,
            p == size * s,
    ;
    assert(-(n * one) <= 2 * (n * e1) <= n * one) by (nonlinear_arith)
        requires
            -one <= 2 * e1 <= one,
            n > 0,
    ;
    assert(-(n * p) <= d * (n * e2) <= n * p) by (nonlinear_arith)
        requires
            -p <= d * e2 <= p,
            n > 0,
    ;
    assert(d * e3 == -(d * (a * one - s * n))) by (nonlinear_arith)
        requires
            e3 == s * n - a * one,
    ;
    assert(-(size * (s * n)) <= d * (size * e3) <= size * (s * n)) by (nonlinear_arith)
        requires
            -(s * n) <= d * e3 <= s * n,
            size >= 0,
    ;
    assert(size * (s * n) == n * p) by (nonlinear_arith)
        requires
            p == size * s,
    ;
    assert(n * p == p * n) by (nonlinear_arith);
    let t: int = r * n - size * a;
    assert(d * (t * one) == d * (n * e1) + d * (n * e2) + d * (size * e3)) by (nonlinear_arith)
        requires
            t * one == n * e1 + n * e2 + size * e3,
    ;
    assert(d * (n * one) == 0x20_0000_0000_0000 * (n * one)) by (nonlinear_arith)
        requires
            d == 2 * ONE,
    ;
    assert(-(d * (n * one)) <= 2 * (d * (n * e1)) <= d * (n * one)) by (nonlinear_arith)
        requires
            -(n * one) <= 2 * (n * e1) <= n * one,
            d > 0,
    ;
    assert(2 * (d * (t * one)) <= d * (n * one) + 0x8_0000 * (n * one));
    assert(-(2 * (d * (t * one))) <= d * (n * one) + 0x8_0000 * (n * one));
    assert(2 * t < n + 1 && -(2 * t) < n + 1) by (nonlinear_arith)
        requires
            2 * (d * (t * one)) <= d * (n * one) + 0x8_0000 * (n * one),
            -(2 * (d * (t * one))) <= d * (n * one) + 0x8_0000 * (n * one),
            d == 0x20_0000_0000_0000,
            0 < n < 0x1_0000_0000,
            one > 0,
    {
        assert(d * (t * one) == d * t * one) by (nonlinear_arith);
        assert(d * (n * one) == d * n * one) by (nonlinear_arith);
        assert(0x8_0000 * (n * one) == 0x8_0000 * n * one) by (nonlinear_arith);
        assert(2 * (d * t) <= d * n + 0x8_0000 * n) by (nonlinear_arith)
            requires
                2 * (d * t * one) <= d * n * one + 0x8_0000 * n * one,
                one > 0,
        ;
        assert(-(2 * (d * t)) <= d * n + 0x8_0000 * n) by (nonlinear_arith)
            requires
                -(2 * (d * t * one)) <= d * n * one + 0x8_0000 * n * one,
                one > 0,
        ;
    }
}

/// The factor of an image that has to shrink is the limiting ratio, but for rounding.
proof fn lemma_scale_close(size: (nat, nat), area: (nat, nat))
    requires
        0 < area.0,
        0 < area.1,
        limiting_ratio(size, area).0 < limiting_ratio(size, area).1,
    ensures
        ({
            let (a, n) = limiting_ratio(size, area);
            let x = scale_of(size, area);
            close(x, a, n) && x.divisor > 0 && ONE <= x.significand
        }),
{
    let (a, n) = limiting_ratio(size, area);
    let x = Float::quotient(a, n);
    lemma_quotient(a, n);
    let (b, m) = if area.0 * size.1 <= area.1 * size.0 {
        (area.1, size.1)
    } else {
        (area.0, size.0)
    };
    assert(a * m <= b * n) by (nonlinear_arith)
        requires
            (a == area.0 && n == size.0 && b == area.1 && m == size.1 && area.0 * size.1 <= area.1
                * size.0) || (a == area.1 && n == size.1 && b == area.0 && m == size.0 && area.0
                * size.1 > area.1 * size.0),
    ;
    let y = shrink(m, b);
    if m > b {
        lemma_quotient(b, m);
    }
    assert(y.divisor > 0 && ONE <= y.significand);
    assert(scale_of(size, area) == x || scale_of(size, area) == y);
    if y.significand * x.divisor <= x.significand * y.divisor {
        lemma_smaller_close(x, a, n, y, b, m);
    }
}

/// The number nearest to the larger of two ratios is close to the smaller one too, if it is not
/// larger than the number nearest to that.
proof fn lemma_smaller_close(x: Float, a: nat, n: nat, y: Float, b: nat, m: nat)
    requires
        0 < a < n,
        0 < b,
        a * m <= b * n,
        close(x, a, n),
        x.divisor > 0,
        y.divisor > 0,
        y == shrink(m, b),
        m > b ==> close(y, b, m),
        y.significand * x.divisor <= x.significand * y.divisor,
    ensures
        close(y, a, n),
{
    let d: int = 2 * ONE;
    let sx: int = x.significand as int;
    let sy: int = y.significand as int;
    let dx: int = x.divisor as int;
    let dy: int = y.divisor as int;
    let a: int = a as int;
    let n: int = n as int;
    let b: int = b as int;
    let m: int = m as int;
    let one_x: int = ONE * dx;
    let one_y: int = ONE * dy;
    // From above, through `x`.
    assert((d - 1) * (sx * n) <= d * (a * one_x)) by (nonlinear_arith)
        requires
            d * (sx * n - a * one_x) <= sx * n,
    ;
    assert((d - 1) * (sy * n) * dx <= (d - 1) * (sx * n) * dy) by (nonlinear_arith)
        requires
            sy * dx <= sx * dy,
            d > 1,
            n > 0,
    ;
    assert((d - 1) * (sx * n) * dy <= d * (a * one_x) * dy) by (nonlinear_arith)
        requires
            (d - 1) * (sx * n) <= d * (a * one_x),
            dy > 0,
    ;
    assert(d * (a * one_x) * dy == d * (a * one_y) * dx) by (nonlinear_arith)
        requires
            one_x == ONE * dx,
            one_y == ONE * dy,
    ;
    assert((d - 1) * (sy * n) <= d * (a * one_y)) by (nonlinear_arith)
        requires
            (d - 1) * (sy * n) * dx <= d * (a * one_y) * dx,
            dx > 0,
    ;
    assert(d * (sy * n - a * one_y) <= sy * n) by (nonlinear_arith)
        requires
            (d - 1) * (sy * n) <= d * (a * one_y),
    ;
    // From below, through the other ratio.
    if m > b {
        assert(d * (b * one_y) <= (d + 1) * (sy * m)) by (nonlinear_arith)
            requires
                d * (b * one_y - sy * m) <= sy * m,
        ;
        assert(d * (a * one_y) * m <= d * (b * one_y) * n) by (nonlinear_arith)
            requires
                a * m <= b * n,
                d > 0,
                one_y >= 0,
        ;
        assert(d * (b * one_y) * n <= (d + 1) * (sy * m) * n) by (nonlinear_arith)
            requires
                d * (b * one_y) <= (d + 1) * (sy * m),
                n > 0,
        ;
        assert((d + 1) * (sy * m) * n == (d + 1) * (sy * n) * m) by (nonlinear_arith);
        assert(d * (a * one_y) <= (d + 1) * (sy * n)) by (nonlinear_arith)
            requires
                d * (a * one_y) * m <= (d + 1) * (sy * n) * m,
                m > 0,
        ;
    } else {
        assert(a * one_y <= sy * n) by (nonlinear_arith)
            requires
                a < n,
                sy == one_y,
                sy > 0,
        ;
        assert(d * (a * one_y) <= (d + 1) * (sy * n)) by (nonlinear_arith)
            requires
                a * one_y <= sy * n,
                a * one_y >= 0,
                d > 0,
        ;
    }
    assert(d * (a * one_y - sy * n) <= sy * n) by (nonlinear_arith)
        requires
            d * (a * one_y) <= (d + 1) * (sy * n),
    ;
}

proof fn lemma_one_times(n: nat)
    requires
        n < 0x1_0000,
    ensures
        Float::one().times(n) == n,
{
    assert(close(Float::one(), 1, 1)) by (nonlinear_arith);
    lemma_times_close(Float::one(), 1, 1, n);
}

proof fn lemma_scaled(size: (u32, u32), area: (u16, u16), n: nat, max: nat)
    requires
        (n == size.0 && max == usable(area).0) || (n == size.1 && max == usable(area).1),
    ensures
        ({
            let whole = (size.0 as nat, size.1 as nat);
            let room = usable(area);
            let (a, m) = limiting_ratio(whole, room);
            let r = scaled_to(n, scale_of(whole, room), max);
            &&& 1 <= r <= max
            &&& a < m ==> rounded(r, n * a, m) && n * a <= max * m
            &&& a >= m && n > 0 ==> r == n
        }),
{
    let whole = (size.0 as nat, size.1 as nat);
    let room = usable(area);
    let (a, m) = limiting_ratio(whole, room);
    let x = scale_of(whole, room);
    assert(n * a <= max * m) by (nonlinear_arith)
        requires
            (n == whole.0 && max == room.0) || (n == whole.1 && max == room.1),
            (a == room.0 && m == whole.0 && room.0 * whole.1 <= room.1 * whole.0) || (a == room.1
                && m == whole.1 && room.0 * whole.1 > room.1 * whole.0),
    ;
    if a < m {
        lemma_scale_close(whole, room);
        assert(n * a <= m * 0x1_0000) by (nonlinear_arith)
            requires
                n * a <= max * m,
                max < 0x1_0000,
        ;
        lemma_times_close(x, a, m, n);
        let r: nat = x.times(n);
        assert(r <= max) by (nonlinear_arith)
            requires
                2 * (r * m - n * a) <= m,
                n * a <= max * m,
                m > 0,
        ;
        if r == 0 {
            assert(r * m == 0) by (nonlinear_arith)
                requires
                    r == 0,
            ;
        }
    } else {
        assert(whole.0 <= room.0 && whole.1 <= room.1) by (nonlinear_arith)
            requires
                a >= m,
                0 < room.0,
                0 < room.1,
                (a == room.0 && m == whole.0 && room.0 * whole.1 <= room.1 * whole.0) || (a
                    == room.1 && m == whole.1 && room.0 * whole.1 > room.1 * whole.0),
        ;
        lemma_one_times(n);
    }
}

/// An image is shown at a size that is not empty and that the window has room for. A window side of
/// zero counts as one.
pub proof fn fit_fits(size: (u32, u32), area: (u16, u16))
    ensures
        1 <= fitted(size, area).0 <= usable(area).0,
        1 <= fitted(size, area).1 <= usable(area).1,
{
    lemma_scaled(size, area, size.0 as nat, usable(area).0);
    lemma_scaled(size, area, size.1 as nat, usable(area).1);
}

/// An image that the window has room for is shown at its own size.
pub proof fn fit_keeps_small_images(size: (u32, u32), area: (u16, u16))
    requires
        1 <= size.0 <= usable(area).0,
        1 <= size.1 <= usable(area).1,
    ensures
        fitted(size, area) == (size.0 as nat, size.1 as nat),
{
    lemma_one_times(size.0 as nat);
    lemma_one_times(size.1 as nat);
}

/// Images are never enlarged.
pub proof fn fit_never_enlarges(size: (u32, u32), area: (u16, u16))
    requires
        1 <= size.0,
        1 <= size.1,
    ensures
        fitted(size, area).0 <= size.0,
        fitted(size, area).1 <= size.1,
{
    let room = usable(area);
    let (a, m) = limiting_ratio((size.0 as nat, size.1 as nat), room);
    lemma_scaled(size, area, size.0 as nat, room.0);
    lemma_scaled(size, area, size.1 as nat, room.1);
    if a < m {
        lemma_rounded_smaller(fitted(size, area).0, size.0 as nat, a, m);
        lemma_rounded_smaller(fitted(size, area).1, size.1 as nat, a, m);
    }
}

proof fn lemma_rounded_smaller(r: nat, n: nat, a: nat, m: nat)
    requires
        1 <= n,
        a < m,
        rounded(r, n * a, m),
    ensures
        r <= n,
{
    if r != 1 {
        assert(r <= n) by (nonlinear_arith)
            requires
                2 * (r * m - n * a) <= m,
                a < m,
                n >= 1,
        ;
    }
}

proof fn lemma_shrinks(size: (nat, nat), area: (nat, nat))
    requires
        0 < area.0,
        0 < area.1,
        size.0 > area.0 || size.1 > area.1,
    ensures
        limiting_ratio(size, area).0 < limiting_ratio(size, area).1,
{
    let (a, n) = limiting_ratio(size, area);
    assert(a < n) by (nonlinear_arith)
        requires
            size.0 > area.0 || size.1 > area.1,
            0 < area.0,
            0 < area.1,
            (a == area.0 && n == size.0 && area.0 * size.1 <= area.1 * size.0) || (a == area.1
                && n == size.1 && area.0 * size.1 > area.1 * size.0),
    ;
}

/// The aspect ratio is kept: both sides of an image that has to shrink are multiplied by the same
/// ratio, the smaller of the two between window and image, and rounded to the nearest integer (to
/// one rather than to zero).
pub proof fn fit_keeps_aspect_ratio(size: (u32, u32), area: (u16, u16))
    requires
        size.0 > usable(area).0 || size.1 > usable(area).1,
    ensures
        ({
            let (a, n) = limiting_ratio((size.0 as nat, size.1 as nat), usable(area));
            let r = fitted(size, area);
            &&& rounded(r.0, size.0 as nat * a, n)
            &&& rounded(r.1, size.1 as nat * a, n)
        }),
{
    let whole = (size.0 as nat, size.1 as nat);
    let room = usable(area);
    let (a, n) = limiting_ratio(whole, room);
    lemma_shrinks(whole, room);
    lemma_scaled(size, area, size.0 as nat, room.0);
    lemma_scaled(size, area, size.1 as nat, room.1);
}

/// An image that has to shrink fills the window in one direction.
pub proof fn fit_fills_the_window(size: (u32, u32), area: (u16, u16))
    requires
        size.0 > usable(area).0 || size.1 > usable(area).1,
    ensures
        fitted(size, area).0 == usable(area).0 || fitted(size, area).1 == usable(area).1,
{
    let (a, n) = limiting_ratio((size.0 as nat, size.1 as nat), usable(area));
    lemma_shrinks((size.0 as nat, size.1 as nat), usable(area));
    fit_keeps_aspect_ratio(size, area);
    let r: nat = if n == size.0 && a == usable(area).0 {
        fitted(size, area).0
    } else {
        fitted(size, area).1
    };
    assert(r == a) by (nonlinear_arith)
        requires
            rounded(r, n * a, n),
            n > 0,
            a > 0,
    ;
}

/// `x` has exactly 53 significant bits, and `k` doublings led to its divisor.
spec fn normal(x: Float, k: nat) -> bool {
    &&& x.divisor == pow2(k)
    &&& ONE <= x.significand < 2 * ONE
}

proof fn lemma_normalize_power(a: nat, n: nat, divisor: nat, k: nat) -> (r: nat)
    requires
        0 < a < 2 * n,
        divisor == pow2(k),
    ensures
        normalize(a, n, divisor).divisor == pow2(r),
        k <= r,
        a < n ==> k < r,
    decreases 2 * n - a,
{
    if a < n {
        lemma_pow2_unfold(k + 1);
        lemma_normalize_power(2 * a, n, 2 * divisor, k + 1)
    } else {
        k
    }
}

proof fn lemma_quotient_normal(a: nat, n: nat) -> (k: nat)
    requires
        0 < a < n < 0x1_0000_0000,
    ensures
        normal(Float::quotient(a, n), k),
        k >= 1,
        n <= a * pow2(k) < 2 * n,
        Float::quotient(a, n).significand == nearest_even(a * pow2(k) * ONE as nat, n),
{
    let x = Float::quotient(a, n);
    lemma_pow2_zero();
    let k: nat = lemma_normalize_power(a, n, 1, 0);
    let scaled: nat = lemma_normalize(a, n, 1);
    lemma_quotient(a, n);
    let p: nat = scaled * ONE as nat;
    lemma_nearest_even(p, n);
    let s: int = x.significand as int;
    assert(s < 2 * ONE) by (nonlinear_arith)
        requires
            2 * (s * n - p) <= n,
            p == scaled * ONE,
            scaled <= 2 * n - 1,
            0 < n < 0x1_0000_0000,
    ;
    k
}

proof fn lemma_pow2_zero()
    ensures
        pow2(0) == 1,
{
    vstd::arithmetic::power2::lemma2_to64();
}

proof fn lemma_doubled(k: nat, m: nat)
    requires
        k < m,
    ensures
        2 * pow2(k) <= pow2(m),
    decreases m,
{
    lemma_pow2_unfold(m);
    lemma_pow2_pos(k);
    if k + 1 < m {
        lemma_doubled(k, (m - 1) as nat);
    }
}

proof fn lemma_shrink_normal(n: nat, max: nat) -> (k: nat)
    requires
        n < 0x1_0000_0000,
        0 < max,
    ensures
        normal(shrink(n, max), k),
{
    lemma_pow2_zero();
    if n <= max {
        0
    } else {
        lemma_quotient_normal(max, n)
    }
}

/// The larger of two numbers does not have the larger divisor.
proof fn lemma_le_powers(x: Float, k: nat, y: Float, m: nat)
    requires
        normal(x, k),
        normal(y, m),
        x.le(y),
    ensures
        m <= k,
{
    if k < m {
        lemma_doubled(k, m);
        lemma_pow2_pos(k);
        assert(x.significand * y.divisor > y.significand * x.divisor) by (nonlinear_arith)
            requires
                2 * x.divisor <= y.divisor,
                x.divisor > 0,
                ONE <= x.significand,
                y.significand < 2 * ONE,
        ;
    }
}

/// A number is written in one way only.
proof fn lemma_normal_unique(x: Float, k: nat, y: Float, m: nat)
    requires
        normal(x, k),
        normal(y, m),
        x.le(y),
        y.le(x),
    ensures
        x == y,
{
    lemma_le_powers(x, k, y, m);
    lemma_le_powers(y, m, x, k);
    lemma_pow2_pos(k);
    assert(x.significand == y.significand) by (nonlinear_arith)
        requires
            x.significand * y.divisor == y.significand * x.divisor,
            x.divisor == y.divisor,
            x.divisor > 0,
    ;
}

/// Width and height are treated alike.
pub proof fn fit_treats_sides_alike(size: (u32, u32), area: (u16, u16))
    ensures
        fitted((size.1, size.0), (area.1, area.0)) == (fitted(size, area).1, fitted(size, area).0),
{
    let room = usable(area);
    let x = shrink(size.0 as nat, room.0);
    let y = shrink(size.1 as nat, room.1);
    let k: nat = lemma_shrink_normal(size.0 as nat, room.0);
    let m: nat = lemma_shrink_normal(size.1 as nat, room.1);
    if x.le(y) && y.le(x) {
        lemma_normal_unique(x, k, y, m);
    }
}

proof fn lemma_nearest_even_grows(p: nat, more: nat, q: nat)
    requires
        p <= more,
        q > 0,
    ensures
        nearest_even(p, q) <= nearest_even(more, q),
{
    vstd::arithmetic::div_mod::lemma_div_is_ordered(p as int, more as int, q as int);
    if p / q == more / q {
        vstd::arithmetic::div_mod::lemma_fundamental_div_mod(p as int, q as int);
        vstd::arithmetic::div_mod::lemma_fundamental_div_mod(more as int, q as int);
    }
}

proof fn lemma_quotient_grows(a: nat, b: nat, n: nat)
    requires
        0 < a <= b < n < 0x1_0000_0000,
    ensures
        Float::quotient(a, n).le(Float::quotient(b, n)),
{
    let x = Float::quotient(a, n);
    let y = Float::quotient(b, n);
    let k: nat = lemma_quotient_normal(a, n);
    let m: nat = lemma_quotient_normal(b, n);
    lemma_pow2_pos(k);
    lemma_pow2_pos(m);
    if k == m {
        assert(a * pow2(k) * ONE <= b * pow2(k) * ONE) by (nonlinear_arith)
            requires
                a <= b,
        ;
        lemma_nearest_even_grows(a * pow2(k) * ONE as nat, b * pow2(k) * ONE as nat, n);
        assert(x.significand * y.divisor <= y.significand * x.divisor) by (nonlinear_arith)
            requires
                x.significand <= y.significand,
                x.divisor == y.divisor,
        ;
    } else if m < k {
        lemma_doubled(m, k);
        assert(x.significand * y.divisor <= y.significand * x.divisor) by (nonlinear_arith)
            requires
                2 * y.divisor <= x.divisor,
                x.significand < 2 * ONE,
                ONE <= y.significand,
        ;
    } else {
        lemma_doubled(k, m);
        assert(false) by (nonlinear_arith)
            requires
                n <= a * pow2(k),
                b * pow2(m) < 2 * n,
                2 * pow2(k) <= pow2(m),
                a <= b,
                0 < pow2(k),
        ;
    }
}

proof fn lemma_shrink_grows(n: nat, max: nat, more: nat)
    requires
        n < 0x1_0000_0000,
        0 < max <= more,
    ensures
        shrink(n, max).le(shrink(n, more)),
{
    if max < n {
        let x = Float::quotient(max, n);
        let k: nat = lemma_quotient_normal(max, n);
        if more < n {
            lemma_quotient_grows(max, more, n);
        } else {
            lemma_pow2_zero();
            lemma_doubled(0, k);
            assert(x.significand * 1 <= ONE as nat * x.divisor) by (nonlinear_arith)
                requires
                    x.significand < 2 * ONE,
                    2 <= x.divisor,
            ;
        }
    }
}

proof fn lemma_le_transitive(x: Float, y: Float, z: Float)
    requires
        x.le(y),
        y.le(z),
        y.divisor > 0,
    ensures
        x.le(z),
{
    assert(x.significand * z.divisor <= z.significand * x.divisor) by (nonlinear_arith)
        requires
            x.significand * y.divisor <= y.significand * x.divisor,
            y.significand * z.divisor <= z.significand * y.divisor,
            y.divisor > 0,
    ;
}

proof fn lemma_scale_grows(size: (nat, nat), area: (nat, nat), more: (nat, nat)) -> (r: (nat, nat))
    requires
        size.0 < 0x1_0000_0000,
        size.1 < 0x1_0000_0000,
        0 < area.0 <= more.0,
        0 < area.1 <= more.1,
    ensures
        scale_of(size, area).le(scale_of(size, more)),
        normal(scale_of(size, area), r.0),
        normal(scale_of(size, more), r.1),
{
    let (x, y) = (shrink(size.0, area.0), shrink(size.1, area.1));
    let (z, w) = (shrink(size.0, more.0), shrink(size.1, more.1));
    let kx: nat = lemma_shrink_normal(size.0, area.0);
    let ky: nat = lemma_shrink_normal(size.1, area.1);
    let kz: nat = lemma_shrink_normal(size.0, more.0);
    let kw: nat = lemma_shrink_normal(size.1, more.1);
    lemma_pow2_pos(kx);
    lemma_pow2_pos(ky);
    lemma_shrink_grows(size.0, area.0, more.0);
    lemma_shrink_grows(size.1, area.1, more.1);
    let least = x.min(y);
    assert(least.le(x) && least.le(y));
    lemma_le_transitive(least, x, z);
    lemma_le_transitive(least, y, w);
    (
        if x.le(y) {
            kx
        } else {
            ky
        },
        if z.le(w) {
            kz
        } else {
            kw
        },
    )
}

proof fn lemma_round_bits_least(p: nat, unit: nat)
    requires
        unit > 0,
        ONE as nat * unit <= p,
    ensures
        ONE as nat * unit <= round_bits(p, unit),
    decreases p - unit,
{
    if p < 2 * ONE as nat * unit {
        lemma_nearest_even_grows(ONE as nat * unit, p, unit);
        assert(nearest_even(ONE as nat * unit, unit) == ONE) by {
            vstd::arithmetic::div_mod::lemma_div_multiples_vanish(ONE as int, unit as int);
            vstd::arithmetic::div_mod::lemma_mod_multiples_basic(ONE as int, unit as int);
            assert(ONE * unit == unit * ONE) by (nonlinear_arith);
        }
        assert(ONE as nat * unit <= nearest_even(p, unit) * unit) by (nonlinear_arith)
            requires
                ONE <= nearest_even(p, unit),
        ;
    } else {
        assert(ONE as nat * (2 * unit) == 2 * ONE as nat * unit) by (nonlinear_arith);
        assert(p - 2 * unit >= 0) by (nonlinear_arith)
            requires
                2 * ONE as nat * unit <= p,
        ;
        lemma_round_bits_least(p, 2 * unit);
    }
}

proof fn lemma_round_bits_grows(p: nat, more: nat, unit: nat)
    requires
        p <= more,
        unit > 0,
    ensures
        round_bits(p, unit) <= round_bits(more, unit),
    decreases more - unit + 1,
{
    if more < 2 * ONE as nat * unit {
        lemma_nearest_even_grows(p, more, unit);
        assert(nearest_even(p, unit) * unit <= nearest_even(more, unit) * unit) by (nonlinear_arith)
            requires
                nearest_even(p, unit) <= nearest_even(more, unit),
        ;
    } else {
        assert(ONE as nat * (2 * unit) == 2 * ONE as nat * unit) by (nonlinear_arith);
        assert(more - 2 * unit >= 0) by (nonlinear_arith)
            requires
                2 * ONE as nat * unit <= more,
        ;
        if p < 2 * ONE as nat * unit {
            let top: nat = 2 * ONE as nat;
            lemma_nearest_even_grows(p, top * unit, unit);
            assert(nearest_even(top * unit, unit) == top) by {
                vstd::arithmetic::div_mod::lemma_div_multiples_vanish(top as int, unit as int);
                vstd::arithmetic::div_mod::lemma_mod_multiples_basic(top as int, unit as int);
                assert(top * unit == unit * top) by (nonlinear_arith);
            }
            assert(nearest_even(p, unit) * unit <= top * unit) by (nonlinear_arith)
                requires
                    nearest_even(p, unit) <= top,
            ;
            lemma_round_bits_least(more, 2 * unit);
        } else {
            lemma_round_bits_grows(p, more, 2 * unit);
        }
    }
}

proof fn lemma_round_bits_doubles(p: nat, unit: nat)
    requires
        unit > 0,
    ensures
        round_bits(2 * p, 2 * unit) == 2 * round_bits(p, unit),
    decreases
            if p < 2 * ONE as nat * unit {
                0
            } else {
                p - unit + 1
            },
{
    assert(2 * ONE as nat * (2 * unit) == 2 * (2 * ONE as nat * unit)) by (nonlinear_arith);
    if p < 2 * ONE as nat * unit {
        assert(nearest_even(2 * p, 2 * unit) == nearest_even(p, unit)) by {
            vstd::arithmetic::div_mod::lemma_truncate_middle(p as int, 2, unit as int);
            vstd::arithmetic::div_mod::lemma_div_denominator(2 * p as int, 2, unit as int);
        }
        assert(nearest_even(p, unit) * (2 * unit) == 2 * (nearest_even(p, unit) * unit))
            by (nonlinear_arith);
    } else {
        assert(p - 2 * unit >= 0) by (nonlinear_arith)
            requires
                2 * ONE as nat * unit <= p,
        ;
        lemma_round_bits_doubles(p, 2 * unit);
    }
}

/// Multiplying by a power of two moves the rounded bits and changes nothing else.
proof fn lemma_round_bits_shifts(p: nat, k: nat)
    requires
        ONE <= p,
    ensures
        round_bits(p * pow2(k), 1) == round_bits(p, 1) * pow2(k),
        ONE <= p * pow2(k),
    decreases k,
{
    lemma_pow2_zero();
    if k > 0 {
        let j: nat = (k - 1) as nat;
        lemma_pow2_unfold(k);
        lemma_round_bits_shifts(p, j);
        let q: nat = p * pow2(j);
        assert(p * pow2(k) == 2 * q) by (nonlinear_arith)
            requires
                q == p * pow2(j),
                pow2(k) == 2 * pow2(j),
        ;
        assert(round_bits(2 * q, 1) == round_bits(2 * q, 2));
        lemma_round_bits_doubles(q, 1);
        let r: nat = round_bits(p, 1);
        assert(2 * (r * pow2(j)) == r * pow2(k)) by (nonlinear_arith)
            requires
                pow2(k) == 2 * pow2(j),
        ;
    }
}

proof fn lemma_times_grows(x: Float, k: nat, y: Float, m: nat, n: nat)
    requires
        normal(x, k),
        normal(y, m),
        x.le(y),
    ensures
        x.times(n) <= y.times(n),
{
    lemma_le_powers(x, k, y, m);
    let j: nat = (k - m) as nat;
    let f: nat = pow2(j);
    lemma_pow2_adds(m, j);
    lemma_pow2_pos(m);
    lemma_pow2_pos(j);
    let p: nat = n * x.significand;
    let q: nat = n * y.significand;
    let one: nat = ONE as nat * y.divisor;
    assert(one > 0 && ONE as nat * x.divisor == one * f && one * f > 0) by (nonlinear_arith)
        requires
            one == ONE as nat * y.divisor,
            x.divisor == y.divisor * f,
            y.divisor > 0,
            f > 0,
    ;
    assert(x.significand <= y.significand * f) by (nonlinear_arith)
        requires
            x.significand * y.divisor <= y.significand * x.divisor,
            x.divisor == y.divisor * f,
            y.divisor > 0,
    ;
    assert(p <= q * f) by (nonlinear_arith)
        requires
            p == n * x.significand,
            q == n * y.significand,
            x.significand <= y.significand * f,
    ;
    lemma_round_bits_grows(p, q * f, 1);
    let r: nat = round_bits(q, 1);
    assert(round_bits(q * f, 1) == r * f) by {
        if n == 0 {
            assert(q == 0 && q * f == 0) by (nonlinear_arith)
                requires
                    n == 0,
                    q == n * y.significand,
            ;
            assert(nearest_even(0, 1) == 0);
            assert(r == 0);
        } else {
            assert(ONE <= q) by (nonlinear_arith)
                requires
                    q == n * y.significand,
                    n >= 1,
                    ONE <= y.significand,
            ;
            lemma_round_bits_shifts(q, j);
        }
    }
    let below: int = (2 * round_bits(p, 1) + one * f) as int;
    let above: int = ((2 * r + one) * f) as int;
    assert(2 * (r * f) + one * f == (2 * r + one) * f) by (nonlinear_arith);
    vstd::arithmetic::div_mod::lemma_div_is_ordered(below, above, (2 * (one * f)) as int);
    assert(2 * (one * f) == f * (2 * one) && above == f * (2 * r + one)) by (nonlinear_arith)
        requires
            above == (2 * r + one) * f,
    ;
    vstd::arithmetic::div_mod::lemma_div_denominator(above, f as int, (2 * one) as int);
    vstd::arithmetic::div_mod::lemma_div_multiples_vanish((2 * r + one) as int, f as int);
}

/// A larger window never makes an image smaller.
pub proof fn fit_grows_with_the_window(size: (u32, u32), area: (u16, u16), more: (u16, u16))
    requires
        area.0 <= more.0,
        area.1 <= more.1,
    ensures
        fitted(size, area).0 <= fitted(size, more).0,
        fitted(size, area).1 <= fitted(size, more).1,
{
    let whole = (size.0 as nat, size.1 as nat);
    let (room, larger) = (usable(area), usable(more));
    let (k, m) = lemma_scale_grows(whole, room, larger);
    let (x, y) = (scale_of(whole, room), scale_of(whole, larger));
    lemma_times_grows(x, k, y, m, whole.0);
    lemma_times_grows(x, k, y, m, whole.1);
}

/// Rounding to the nearest integer, and to an even one if two are equally near.
pub proof fn ties_go_to_even(p: nat, q: nat)
    requires
        q > 0,
    ensures
        ({
            let r = nearest_even(p, q);
            &&& -(q as int) <= 2 * (r * q - p) <= q
            &&& 2 * (r * q - p) == q || 2 * (p - r * q) == q ==> r % 2 == 0
        }),
{
    lemma_nearest_even(p, q);
    vstd::arithmetic::div_mod::lemma_fundamental_div_mod(p as int, q as int);
    let f: int = (p / q) as int;
    assert((f + 1) * q == f * q + q) by (nonlinear_arith);
    assert(f * q == q * f) by (nonlinear_arith);
}

/// A quotient has 53 significant bits and is the nearest such number: `a` is doubled until it is not
/// less than `n`, and then divided.
pub proof fn quotients_are_nearest(a: nat, n: nat) -> (k: nat)
    requires
        0 < a < n < 0x1_0000_0000,
    ensures
        n <= a * pow2(k) < 2 * n,
        Float::quotient(a, n).divisor == pow2(k),
        Float::quotient(a, n).significand == nearest_even(a * pow2(k) * 0x10_0000_0000_0000, n),
{
    lemma_quotient_normal(a, n)
}

/// A product is rounded to 53 significant bits: to a multiple of the weight of the lowest of them.
pub proof fn products_are_nearest(p: nat, k: nat)
    requires
        p < 0x20_0000_0000_0000 * pow2(k),
        k > 0 ==> 0x10_0000_0000_0000 * pow2(k) <= p,
    ensures
        round_bits(p, 1) == nearest_even(p, pow2(k)) * pow2(k),
{
    lemma_pow2_zero();
    lemma_unit(p, 0, k);
}

proof fn lemma_unit(p: nat, j: nat, k: nat)
    requires
        j <= k,
        p < 2 * ONE as nat * pow2(k),
        j < k ==> ONE as nat * pow2(k) <= p,
    ensures
        round_bits(p, pow2(j)) == nearest_even(p, pow2(k)) * pow2(k),
    decreases k - j,
{
    lemma_pow2_pos(j);
    if j < k {
        lemma_doubled(j, k);
        lemma_pow2_unfold(j + 1);
        assert(2 * ONE as nat * pow2(j) <= ONE as nat * pow2(k)) by (nonlinear_arith)
            requires
                2 * pow2(j) <= pow2(k),
        ;
        lemma_unit(p, j + 1, k);
    }
}

/// A side is the rounded product of the factor and the image's side, to the nearest integer, and upwards
/// if two are equally near. It is at least one and at most what there is room for.
pub proof fn sides_are_rounded(x: Float, n: nat, max: nat)
    requires
        x.divisor > 0,
        max >= 1,
    ensures
        ({
            let one: int = (0x10_0000_0000_0000 * x.divisor) as int;
            let product: int = round_bits(n * x.significand, 1) as int;
            let r: int = x.times(n) as int;
            &&& -one < 2 * (r * one - product) <= one
            &&& 1 <= scaled_to(n, x, max) <= max
            &&& 1 <= r <= max ==> scaled_to(n, x, max) == r
            &&& r < 1 ==> scaled_to(n, x, max) == 1
            &&& r > max ==> scaled_to(n, x, max) == max
        }),
{
    let one: int = ONE * x.divisor;
    let q: int = round_bits(n * x.significand, 1) as int;
    let r: int = x.times(n) as int;
    assert(one > 0) by (nonlinear_arith)
        requires
            one == ONE * x.divisor,
            x.divisor > 0,
    ;
    vstd::arithmetic::div_mod::lemma_fundamental_div_mod(2 * q + one, 2 * one);
    assert(2 * one * r == 2 * (r * one)) by (nonlinear_arith);
}

/// Both sides are multiplied by one factor. It is the smaller one of those that the two sides need, and
/// one if none of them is too long.
pub proof fn both_sides_have_one_factor(size: (u32, u32), area: (u16, u16))
    ensures
        ({
            let (width, height) = (size.0 as nat, size.1 as nat);
            let across: nat = if area.0 == 0 {
                1
            } else {
                area.0 as nat
            };
            let down: nat = if area.1 == 0 {
                1
            } else {
                area.1 as nat
            };
            let x = if width <= across {
                Float::one()
            } else {
                Float::quotient(across, width)
            };
            let y = if height <= down {
                Float::one()
            } else {
                Float::quotient(down, height)
            };
            let least = if x.significand * y.divisor <= y.significand * x.divisor {
                x
            } else {
                y
            };
            &&& fitted(size, area).0 == scaled_to(width, least, across)
            &&& fitted(size, area).1 == scaled_to(height, least, down)
            &&& Float::one().significand == 0x10_0000_0000_0000
            &&& Float::one().divisor == 1
        }),
{
}

} // verus!
