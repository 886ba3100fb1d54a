//! Frequencies and rates as exact binary fractions.
//!
//! A double-precision number is, unless it is infinite or no number at all, a whole number
//! times a power of two. [`Dyadic`] holds it that way, and every comparison and rounding
//! below is exact.

use vstd::arithmetic::div_mod::*;
use vstd::arithmetic::power2::*;
use vstd::prelude::*;

verus! {

/// A number read from the outside: a binary fraction `±mantissa * 2^exponent`, an infinity,
/// or no number at all.
#[derive(Debug, Clone, Copy, PartialEq, Eq, Structural)]
pub enum Dyadic {
    NotANumber,
    Infinite { negative: bool },
    Finite { negative: bool, mantissa: u64, exponent: i32 },
}

/// The size of a binary fraction, rounded down, with what was cut off.
pub struct Magnitude {
    /// The whole part, where it fits.
    pub whole: u64,
    /// The whole part is larger than any `u64`.
    pub over: bool,
    /// Something was cut off.
    pub fraction: bool,
    /// At least one half was cut off.
    pub half: bool,
}

/// Numerator of `mantissa * 2^exponent`.
pub open spec fn numerator(mantissa: nat, exponent: int) -> nat {
    if exponent >= 0 {
        mantissa * pow2(exponent as nat)
    } else {
        mantissa
    }
}

/// Denominator of `mantissa * 2^exponent`.
pub open spec fn denominator(exponent: int) -> nat {
    if exponent >= 0 {
        1
    } else {
        pow2((-exponent) as nat)
    }
}

/// `a / b` rounded to the nearest whole number, halves upwards.
pub open spec fn nearest(a: int, b: int) -> int {
    (2 * a + b) / (2 * b)
}

impl Dyadic {
    /// Numerator of the size of the number.
    pub open spec fn num(self) -> nat {
        match self {
            Dyadic::Finite { mantissa, exponent, .. } => numerator(
                mantissa as nat,
                exponent as int,
            ),
            _ => 0,
        }
    }

    /// Denominator of the size of the number.
    pub open spec fn den(self) -> nat {
        match self {
            Dyadic::Finite { exponent, .. } => denominator(exponent as int),
            _ => 1,
        }
    }

    /// The number is less than zero.
    pub open spec fn below_zero(self) -> bool {
        match self {
            Dyadic::NotANumber => false,
            Dyadic::Infinite { negative } => negative,
            Dyadic::Finite { negative, mantissa, .. } => negative && mantissa > 0,
        }
    }

    /// The number is finite and more than zero.
    pub open spec fn above_zero(self) -> bool {
        self matches Dyadic::Finite { negative, mantissa, .. } && !negative && mantissa > 0
    }

    /// The number is the whole number `n`.
    pub open spec fn equals(self, n: nat) -> bool {
        &&& self is Finite
        &&& !self.below_zero()
        &&& self.num() == n * self.den()
    }

    /// The number lies between zero and the whole number `n`, both included.
    pub open spec fn at_most(self, n: nat) -> bool {
        &&& self is Finite
        &&& !self.below_zero()
        &&& self.num() <= n * self.den()
    }

    /// The size of the number rounded to the nearest whole number, halves away from zero.
    pub open spec fn rounded(self) -> int {
        nearest(self.num() as int, self.den() as int)
    }

    /// The size of the number without its fraction.
    pub open spec fn truncated(self) -> int {
        self.num() as int / self.den() as int
    }

    /// The number without its fraction: what is no number counts as zero, what does not
    /// fit an `i64` counts as the nearest that does.
    pub open spec fn as_i64(self) -> int {
        if self is NotANumber {
            0
        } else if self.below_zero() {
            if self is Infinite || -self.truncated() < i64::MIN {
                i64::MIN as int
            } else {
                -self.truncated()
            }
        } else if self is Infinite || self.truncated() > i64::MAX {
            i64::MAX as int
        } else {
            self.truncated()
        }
    }

    /// The nearest whole number as a count: what is no number or is negative counts as
    /// zero, what does not fit counts as the largest count.
    pub open spec fn as_count(self) -> int {
        if self is NotANumber || self.below_zero() {
            0
        } else if self is Infinite || self.rounded() > usize::MAX {
            usize::MAX as int
        } else {
            self.rounded()
        }
    }

    /// The number with the given double-precision bit pattern.
    pub fn from_bits(bits: u64) -> (d: Dyadic)
        ensures
            ({
                let exponent = (bits as int / 0x10_0000_0000_0000) % 0x800;
                let fraction = bits as int % 0x10_0000_0000_0000;
                match d {
                    Dyadic::NotANumber => exponent == 0x7FF && fraction != 0,
                    Dyadic::Infinite { negative } => {
                        &&& exponent == 0x7FF && fraction == 0
                        &&& negative == (bits >= 0x8000_0000_0000_0000)
                    },
                    Dyadic::Finite { negative, mantissa, exponent: e } => {
                        &&& exponent != 0x7FF
                        &&& negative == (bits >= 0x8000_0000_0000_0000)
                        &&& exponent == 0 ==> mantissa == fraction && e == -1074
                        &&& exponent != 0 ==> mantissa == 0x10_0000_0000_0000 + fraction && e
                            == exponent - 1075
                    },
                }
            }),
    {
        let exponent: u64 = (bits / 0x10_0000_0000_0000) % 0x800;
        let fraction: u64 = bits % 0x10_0000_0000_0000;
        let negative = bits >= 0x8000_0000_0000_0000;
        if exponent == 0x7FF {
            if fraction == 0 {
                Dyadic::Infinite { negative }
            } else {
                Dyadic::NotANumber
            }
        } else if exponent == 0 {
            Dyadic::Finite { negative, mantissa: fraction, exponent: -1074 }
        } else {
            Dyadic::Finite {
                negative,
                mantissa: 0x10_0000_0000_0000 + fraction,
                exponent: exponent as i32 - 1075,
            }
        }
    }

    /// A whole number.
    pub fn whole(n: u64) -> (d: Dyadic)
        ensures
            d == (Dyadic::Finite { negative: false, mantissa: n, exponent: 0 }),
            d.equals(n as nat),
            d.num() == n,
            d.den() == 1,
    {
        proof {
            lemma2_to64();
            assert(n * pow2(0) == n) by (nonlinear_arith)
                requires
                    pow2(0) == 1,
            ;
        }
        Dyadic::Finite { negative: false, mantissa: n, exponent: 0 }
    }

    /// The number is finite and more than zero.
    pub fn is_positive(&self) -> (yes: bool)
        ensures
            yes == self.above_zero(),
    {
        match *self {
            Dyadic::Finite { negative, mantissa, .. } => !negative && mantissa > 0,
            _ => false,
        }
    }

    /// The number is the whole number `n`.
    pub fn is_whole(&self, n: u64) -> (yes: bool)
        ensures
            yes == self.equals(n as nat),
    {
        match *self {
            Dyadic::Finite { negative, mantissa, exponent } => {
                if negative && mantissa > 0 {
                    return false;
                }
                let m = magnitude(mantissa, exponent);
                proof {
                    lemma_quotient_decides(self.num() as int, self.den() as int, n as int);
                }
                !m.over && !m.fraction && m.whole == n
            },
            _ => false,
        }
    }

    /// The nearest whole number, where the number lies in `0..=u32::MAX`.
    pub fn to_u32(&self) -> (n: Option<u32>)
        ensures
            match n {
                Some(n) => self.at_most(u32::MAX as nat) && n == self.rounded(),
                None => !self.at_most(u32::MAX as nat),
            },
    {
        match *self {
            Dyadic::NotANumber => None,
            Dyadic::Infinite { .. } => None,
            Dyadic::Finite { negative, mantissa, exponent } => {
                if negative && mantissa > 0 {
                    return None;
                }
                let m = magnitude(mantissa, exponent);
                proof {
                    lemma_quotient_decides(
                        self.num() as int,
                        self.den() as int,
                        u32::MAX as int,
                    );
                    lemma_nearest(self.num() as int, self.den() as int);
                }
                let limit: u64 = u32::MAX as u64;
                if m.over || m.whole > limit || (m.whole == limit && m.fraction) {
                    None
                } else if m.half {
                    Some((m.whole + 1) as u32)
                } else {
                    Some(m.whole as u32)
                }
            },
        }
    }

    /// The nearest whole number as a count.
    pub fn to_count(&self) -> (n: usize)
        ensures
            n == self.as_count(),
    {
        match *self {
            Dyadic::NotANumber => 0,
            Dyadic::Infinite { negative } => if negative {
                0
            } else {
                usize::MAX
            },
            Dyadic::Finite { negative, mantissa, exponent } => {
                if negative && mantissa > 0 {
                    return 0;
                }
                let m = magnitude(mantissa, exponent);
                proof {
                    lemma_nearest(self.num() as int, self.den() as int);
                }
                let step: u64 = if m.half { 1 } else { 0 };
                if m.over || m.whole > usize::MAX as u64 - step {
                    usize::MAX
                } else {
                    (m.whole + step) as usize
                }
            },
        }
    }

    /// The number without its fraction.
    pub fn to_i64(&self) -> (n: i64)
        ensures
            n == self.as_i64(),
    {
        match *self {
            Dyadic::NotANumber => 0,
            Dyadic::Infinite { negative } => if negative {
                i64::MIN
            } else {
                i64::MAX
            },
            Dyadic::Finite { negative, mantissa, exponent } => {
                let m = magnitude(mantissa, exponent);
                let limit: u64 = i64::MAX as u64;
                if negative && mantissa > 0 {
                    if m.over || m.whole > limit {
                        i64::MIN
                    } else {
                        -(m.whole as i64)
                    }
                } else if m.over || m.whole > limit {
                    i64::MAX
                } else {
                    m.whole as i64
                }
            },
        }
    }

    /// `a` divided by the number, rounded to the nearest whole number; `None` where that is
    /// more than a `u64` holds.
    pub fn divide(&self, a: u128) -> (q: Option<u64>)
        requires
            self.above_zero(),
            a < 0x8000_0000_0000_0000_0000_0000_0000_0000,
        ensures
            match q {
                Some(q) => q == nearest(a * self.den(), self.num() as int),
                None => nearest(a * self.den(), self.num() as int) > u64::MAX,
            },
    {
        match *self {
            Dyadic::Finite { mantissa, exponent, .. } => {
                let m: u128 = mantissa as u128;
                let q: u128 = if exponent >= 0 {
                    proof {
                        assert(a * 1 == a);
                        lemma_pow2_pos(exponent as nat);
                        assert(mantissa * pow2(exponent as nat) > 0) by (nonlinear_arith)
                            requires
                                mantissa > 0,
                                pow2(exponent as nat) > 0,
                        ;
                    }
                    match shifted(m, exponent as u32, u128::MAX) {
                        Some(num) => divide_nearest(a, num),
                        None => {
                            proof {
                                lemma_small_division(
                                    2 * a + self.num(),
                                    2 * self.num() as int,
                                );
                            }
                            0
                        },
                    }
                } else {
                    match shifted(a, (-(exponent as i64)) as u32, u128::MAX) {
                        Some(x) => divide_nearest(x, m),
                        None => {
                            proof {
                                lemma_large_quotient(a * self.den(), mantissa as int);
                            }
                            return None;
                        },
                    }
                };
                if q <= u64::MAX as u128 {
                    Some(q as u64)
                } else {
                    None
                }
            },
            _ => None,
        }
    }

    /// `a` times the number, rounded to the nearest whole number; `None` where that is more
    /// than a `u64` holds.
    pub fn times(&self, a: u64) -> (p: Option<u64>)
        requires
            self is Finite,
            !self.below_zero(),
        ensures
            match p {
                Some(p) => p == nearest(a * self.num(), self.den() as int),
                None => nearest(a * self.num(), self.den() as int) > u64::MAX,
            },
    {
        match *self {
            Dyadic::Finite { mantissa, exponent, .. } => {
                proof {
                    assert(0 <= a * mantissa <= u64::MAX * u64::MAX) by (nonlinear_arith)
                        requires
                            0 <= a <= u64::MAX,
                            0 <= mantissa <= u64::MAX,
                    ;
                }
                let product: u128 = a as u128 * mantissa as u128;
                if exponent >= 0 {
                    let ghost e = exponent as nat;
                    proof {
                        lemma_pow2_pos(e);
                        assert(a * (mantissa * pow2(e)) == product * pow2(e)) by (nonlinear_arith)
                            requires
                                product == a * mantissa,
                        ;
                        lemma_nearest_of_whole(product * pow2(e));
                    }
                    match shifted(product, exponent as u32, u64::MAX as u128) {
                        Some(y) => Some(y as u64),
                        None => None,
                    }
                } else if exponent < -128 {
                    let ghost k = (-(exponent as int)) as nat;
                    proof {
                        lemma2_to64();
                        lemma_pow2_adds(64, 64);
                        lemma_pow2_unfold(129);
                        if k > 129 {
                            lemma_pow2_strictly_increases(129, k);
                        }
                        lemma_small_division(2 * product + pow2(k), 2 * pow2(k) as int);
                    }
                    Some(0)
                } else if exponent == -128 {
                    proof {
                        lemma2_to64();
                        lemma_pow2_adds(64, 64);
                        lemma_nearest_of_less_than_one(product as int, pow2(128) as int);
                    }
                    if product >= 0x8000_0000_0000_0000_0000_0000_0000_0000 {
                        Some(1)
                    } else {
                        Some(0)
                    }
                } else {
                    let k: u32 = (-exponent) as u32;
                    proof {
                        lemma2_to64();
                        lemma_pow2_adds(64, 64);
                        lemma_pow2_strictly_increases(k as nat, 128);
                        lemma_pow2_pos(k as nat);
                    }
                    let q: u128 = divide_nearest(product, two_to(k));
                    if q <= u64::MAX as u128 {
                        Some(q as u64)
                    } else {
                        None
                    }
                }
            },
            _ => None,
        }
    }

    /// `a` times the number is less than `b`.
    pub fn product_below(&self, a: u64, b: u64) -> (yes: bool)
        requires
            self is Finite,
            !self.below_zero(),
        ensures
            yes == (a * self.num() < b * self.den()),
    {
        match *self {
            Dyadic::Finite { mantissa, exponent, .. } => {
                proof {
                    assert(0 <= a * mantissa <= u64::MAX * u64::MAX) by (nonlinear_arith)
                        requires
                            0 <= a <= u64::MAX,
                            0 <= mantissa <= u64::MAX,
                    ;
                }
                let product: u128 = a as u128 * mantissa as u128;
                if exponent >= 0 {
                    let ghost e = exponent as nat;
                    proof {
                        assert(a * (mantissa * pow2(e)) == product * pow2(e)) by (nonlinear_arith)
                            requires
                                product == a * mantissa,
                        ;
                        assert(b * 1 == b);
                    }
                    match shifted(product, exponent as u32, u64::MAX as u128) {
                        Some(y) => y < b as u128,
                        None => false,
                    }
                } else if exponent <= -128 {
                    let ghost k = (-(exponent as int)) as nat;
                    proof {
                        lemma2_to64();
                        lemma_pow2_adds(64, 64);
                        if k > 128 {
                            lemma_pow2_strictly_increases(128, k);
                        }
                        if b > 0 {
                            assert(b * pow2(k) >= pow2(k)) by (nonlinear_arith)
                                requires
                                    b >= 1,
                                    pow2(k) >= 0,
                            ;
                        }
                    }
                    b > 0
                } else {
                    let k: u32 = (-exponent) as u32;
                    proof {
                        lemma2_to64();
                        lemma_pow2_adds(64, 64);
                        lemma_pow2_strictly_increases(k as nat, 128);
                        lemma_pow2_pos(k as nat);
                        lemma_quotient_less(product as int, pow2(k as nat) as int, b as int);
                    }
                    product / two_to(k) < b as u128
                }
            },
            _ => false,
        }
    }

    /// The number times `c` is more than `b`.
    pub fn scaled_exceeds(&self, c: u128, b: u64) -> (yes: bool)
        requires
            0 < c < 0x1_0000_0000_0000_0000_0000_0000_0000,
        ensures
            yes == (match *self {
                Dyadic::NotANumber => false,
                Dyadic::Infinite { negative } => !negative,
                Dyadic::Finite { .. } => !self.below_zero() && self.num() * c > b * self.den(),
            }),
    {
        match *self {
            Dyadic::NotANumber => false,
            Dyadic::Infinite { negative } => !negative,
            Dyadic::Finite { negative, mantissa, exponent } => {
                if negative && mantissa > 0 {
                    return false;
                }
                let q: u128 = b as u128 / c;
                let r: u128 = b as u128 % c;
                proof {
                    lemma_fundamental_div_mod(b as int, c as int);
                    lemma_quotient_bounds(b as int, c as int);
                    assert(c * q == q * c) by (nonlinear_arith);
                    lemma2_to64();
                    lemma_quotient_exceeded(self.num() as int, c as int, b * self.den());
                }
                if exponent >= 0 {
                    proof {
                        assert(b * 1 == b);
                    }
                    shifted_exceeds(mantissa, exponent as u32, q)
                } else {
                    quotient_below(b, c, q, r, exponent, mantissa)
                }
            },
        }
    }
}

proof fn lemma_quotient_less(p: int, d: int, b: int)
    requires
        p >= 0,
        d > 0,
        b >= 0,
    ensures
        p / d < b <==> p < b * d,
{
    lemma_fundamental_div_mod(p, d);
    lemma_mod_bound(p, d);
    let q = p / d;
    if q < b {
        assert(d * q + d <= b * d) by (nonlinear_arith)
            requires
                q + 1 <= b,
                d > 0,
        ;
    } else {
        assert(d * q >= b * d) by (nonlinear_arith)
            requires
                q >= b,
                d > 0,
        ;
    }
}

/// The denominator is positive, and so is the numerator of what is more than zero.
pub proof fn lemma_fraction_is_proper(d: Dyadic)
    ensures
        d.den() > 0,
        d.above_zero() ==> d.num() > 0,
{
    match d {
        Dyadic::Finite { mantissa, exponent, .. } => {
            if exponent >= 0 {
                lemma_pow2_pos(exponent as nat);
                if mantissa > 0 {
                    assert(mantissa * pow2(exponent as nat) > 0) by (nonlinear_arith)
                        requires
                            mantissa > 0,
                            pow2(exponent as nat) > 0,
                    ;
                }
            } else {
                lemma_pow2_pos((-(exponent as int)) as nat);
            }
        },
        _ => {},
    }
}

/// What lies between zero and a whole number does so when it is rounded.
pub proof fn lemma_rounded_in_range(d: Dyadic, n: nat)
    requires
        d.at_most(n),
    ensures
        0 <= d.rounded() <= n,
{
    let num = d.num() as int;
    let den = d.den() as int;
    if d->exponent < 0 {
        lemma_pow2_pos((-(d->exponent as int)) as nat);
    }
    assert(2 * (n * den) + den == n * (2 * den) + den) by (nonlinear_arith);
    lemma_fundamental_div_mod_converse(2 * (n * den) + den, 2 * den, n as int, den);
    lemma_div_is_ordered(2 * num + den, 2 * (n * den) + den, 2 * den);
    lemma_div_pos_is_pos(2 * num + den, 2 * den);
}

/// `x * 2^e`, where that is at most `limit`.
fn shifted(x: u128, e: u32, limit: u128) -> (y: Option<u128>)
    ensures
        match y {
            Some(y) => y == x * pow2(e as nat) && y <= limit,
            None => x * pow2(e as nat) > limit,
        },
{
    proof {
        lemma2_to64();
        lemma_pow2_pos(e as nat);
        assert(x * pow2(0) == x) by (nonlinear_arith)
            requires
                pow2(0) == 1,
        ;
        assert(0 * pow2(e as nat) == 0) by (nonlinear_arith);
    }
    if x == 0 {
        return Some(0);
    }
    if x > limit {
        proof {
            lemma_growing_product(x as int, 0, e as nat);
        }
        return None;
    }
    let mut y: u128 = x;
    let mut i: u32 = 0;
    while i < e
        invariant
            i <= e,
            x > 0,
            y == x * pow2(i as nat),
            y <= limit,
        decreases e - i,
    {
        proof {
            lemma_pow2_unfold((i + 1) as nat);
            let p = pow2(i as nat);
            assert(x * (2 * p) == 2 * (x * p)) by (nonlinear_arith);
        }
        if y > limit - y {
            proof {
                lemma_growing_product(x as int, (i + 1) as nat, e as nat);
            }
            return None;
        }
        y = 2 * y;
        i = i + 1;
    }
    Some(y)
}

/// `m * 2^e > q`.
fn shifted_exceeds(m: u64, e: u32, q: u128) -> (yes: bool)
    ensures
        yes == (m * pow2(e as nat) > q),
{
    match shifted(m as u128, e, q) {
        Some(_) => false,
        None => true,
    }
}

/// Whether `b * 2^k / c`, rounded down, is below `m`, for `k = -exponent`. `q` and `r` are
/// quotient and remainder of `b` by `c`.
fn quotient_below(b: u64, c: u128, q: u128, r: u128, exponent: i32, m: u64) -> (yes: bool)
    requires
        0 < c < 0x1_0000_0000_0000_0000_0000_0000_0000,
        b == q * c + r,
        r < c,
        q <= u64::MAX,
        exponent < 0,
    ensures
        yes == (m > (b * pow2((-(exponent as int)) as nat)) / (c as int)),
{
    let ghost k = (-(exponent as int)) as nat;
    let mut q: u128 = q;
    let mut r: u128 = r;
    let mut left: i32 = exponent;
    let ghost mut j: nat = 0;
    proof {
        lemma2_to64();
        assert(b * pow2(0) == b) by (nonlinear_arith)
            requires
                pow2(0) == 1,
        ;
    }
    while left < 0
        invariant
            left <= 0,
            j == k + left,
            j <= k,
            k == -(exponent as int),
            0 < c < 0x1_0000_0000_0000_0000_0000_0000_0000,
            b * pow2(j) == q * c + r,
            r < c,
            q <= 0x1_FFFF_FFFF_FFFF_FFFF,
        decreases -left,
    {
        if q >= m as u128 {
            proof {
                lemma_growing_quotient(b as int, c as int, q as int, r as int, j, k);
            }
            return false;
        }
        let ghost before = (q, r);
        let twice: u128 = 2 * r;
        if twice >= c {
            q = 2 * q + 1;
            r = twice - c;
        } else {
            q = 2 * q;
            r = twice;
        }
        proof {
            lemma_pow2_unfold(j + 1);
            let p = pow2(j);
            assert(b * (2 * p) == 2 * (b * p)) by (nonlinear_arith);
            let (q0, r0) = before;
            assert(2 * (q0 * c + r0) == q * c + r) by (nonlinear_arith)
                requires
                    (q == 2 * q0 + 1 && r == 2 * r0 - c) || (q == 2 * q0 && r == 2 * r0),
            ;
            j = j + 1;
        }
        left = left + 1;
    }
    proof {
        assert(q * c == c * q) by (nonlinear_arith);
        lemma_fundamental_div_mod_converse(b * pow2(k), c as int, q as int, r as int);
    }
    m as u128 > q
}

proof fn lemma_growing_product(x: int, i: nat, e: nat)
    requires
        x >= 0,
        i <= e,
    ensures
        x * pow2(i) <= x * pow2(e),
{
    if i < e {
        lemma_pow2_strictly_increases(i, e);
    }
    assert(x * pow2(i) <= x * pow2(e)) by (nonlinear_arith)
        requires
            x >= 0,
            pow2(i) <= pow2(e),
    ;
}

proof fn lemma_growing_quotient(b: int, c: int, q: int, r: int, j: nat, k: nat)
    requires
        b >= 0,
        c > 0,
        b * pow2(j) == q * c + r,
        0 <= r < c,
        j <= k,
    ensures
        (b * pow2(k)) / c >= q,
{
    lemma_growing_product(b, j, k);
    assert(q * c == c * q) by (nonlinear_arith);
    lemma_fundamental_div_mod_converse(b * pow2(j), c, q, r);
    lemma_div_is_ordered(b * pow2(j), b * pow2(k), c);
}

/// `num * c > x` comes down to comparing `num` with a quotient.
proof fn lemma_quotient_exceeded(num: int, c: int, x: int)
    requires
        num >= 0,
        c > 0,
        x >= 0,
    ensures
        num * c > x <==> num > x / c,
{
    lemma_fundamental_div_mod(x, c);
    lemma_mod_bound(x, c);
    let q = x / c;
    if num > q {
        assert(num * c >= c * q + c) by (nonlinear_arith)
            requires
                num >= q + 1,
                c > 0,
        ;
    } else {
        assert(num * c <= c * q) by (nonlinear_arith)
            requires
                num <= q,
                c > 0,
        ;
    }
}

proof fn lemma_nearest_of_whole(x: int)
    requires
        x >= 0,
    ensures
        nearest(x, 1) == x,
{
    lemma_fundamental_div_mod_converse(2 * x + 1, 2, x, 1);
}

proof fn lemma_nearest_of_less_than_one(x: int, d: int)
    requires
        0 <= x < d,
        d > 0,
    ensures
        nearest(x, d) == (if 2 * x >= d { 1int } else { 0int }),
{
    lemma_nearest(x, d);
    lemma_small_division(x, d);
}

/// `a / b`, rounded to the nearest whole number, halves upwards.
fn divide_nearest(a: u128, b: u128) -> (q: u128)
    requires
        b > 0,
    ensures
        q == nearest(a as int, b as int),
{
    let q: u128 = a / b;
    let r: u128 = a % b;
    proof {
        lemma_nearest(a as int, b as int);
        lemma_quotient_bounds(a as int, b as int);
    }
    if r >= b - r {
        proof {
            lemma_fundamental_div_mod(a as int, b as int);
            assert(q < u128::MAX) by (nonlinear_arith)
                requires
                    a == b * q + r,
                    r >= b - r,
                    b > 0,
                    a <= u128::MAX,
            ;
        }
        q + 1
    } else {
        q
    }
}

proof fn lemma_large_quotient(x: int, m: int)
    requires
        x > u128::MAX,
        0 < m <= u64::MAX,
    ensures
        nearest(x, m) > u64::MAX,
{
    let limit = 0x1_0000_0000_0000_0000int;
    assert(limit * (2 * m) <= 2 * x) by (nonlinear_arith)
        requires
            x >= limit * limit,
            m <= limit,
            limit > 0,
    ;
    lemma_fundamental_div_mod_converse(limit * (2 * m), 2 * m, limit, 0);
    lemma_div_is_ordered(limit * (2 * m), 2 * x + m, 2 * m);
}

/// `2^e`.
fn two_to(e: u32) -> (p: u128)
    requires
        pow2(e as nat) <= u128::MAX,
    ensures
        p == pow2(e as nat),
{
    let mut p: u128 = 1;
    let mut i: u32 = 0;
    proof {
        lemma2_to64();
    }
    while i < e
        invariant
            i <= e,
            p == pow2(i as nat),
            pow2(e as nat) <= u128::MAX,
        decreases e - i,
    {
        proof {
            lemma_pow2_unfold((i + 1) as nat);
            if i + 1 < e {
                lemma_pow2_strictly_increases((i + 1) as nat, e as nat);
            }
        }
        p = 2 * p;
        i = i + 1;
    }
    p
}

/// Take `mantissa * 2^exponent` apart.
fn magnitude(mantissa: u64, exponent: i32) -> (m: Magnitude)
    ensures
        ({
            let num = numerator(mantissa as nat, exponent as int) as int;
            let den = denominator(exponent as int) as int;
            &&& den > 0
            &&& m.over == (num / den > u64::MAX)
            &&& !m.over ==> m.whole == num / den
            &&& m.fraction == (num % den != 0)
            &&& m.half == (2 * (num % den) >= den)
        }),
{
    proof {
        lemma2_to64();
    }
    if exponent >= 0 {
        if mantissa == 0 {
            proof {
                lemma_pow2_pos(exponent as nat);
                assert(0 * pow2(exponent as nat) == 0) by (nonlinear_arith);
            }
            Magnitude { whole: 0, over: false, fraction: false, half: false }
        } else if exponent >= 64 {
            proof {
                if exponent > 64 {
                    lemma_pow2_strictly_increases(64, exponent as nat);
                }
                assert(mantissa * pow2(exponent as nat) >= pow2(exponent as nat))
                    by (nonlinear_arith)
                    requires
                        mantissa >= 1,
                ;
            }
            Magnitude { whole: 0, over: true, fraction: false, half: false }
        } else {
            proof {
                lemma_pow2_strictly_increases(exponent as nat, 64);
            }
            let p: u128 = two_to(exponent as u32);
            proof {
                assert(mantissa * p <= u64::MAX * p) by (nonlinear_arith)
                    requires
                        mantissa <= u64::MAX,
                        p >= 0,
                ;
            }
            let w: u128 = mantissa as u128 * p;
            if w > u64::MAX as u128 {
                Magnitude { whole: 0, over: true, fraction: false, half: false }
            } else {
                Magnitude { whole: w as u64, over: false, fraction: false, half: false }
            }
        }
    } else if exponent < -65 {
        let ghost k = (-(exponent as int)) as nat;
        proof {
            lemma_pow2_pos(k);
            lemma_pow2_unfold(65);
            lemma_pow2_strictly_increases(65, k);
            lemma_small_division(mantissa as int, pow2(k) as int);
        }
        Magnitude { whole: 0, over: false, fraction: mantissa > 0, half: false }
    } else {
        let k: u32 = (-exponent) as u32;
        proof {
            lemma_pow2_unfold(65);
            lemma_pow2_unfold(66);
            lemma_pow2_strictly_increases(k as nat, 66);
            lemma_pow2_pos(k as nat);
        }
        let p: u128 = two_to(k);
        let m: u128 = mantissa as u128;
        proof {
            lemma_quotient_bounds(m as int, p as int);
        }
        Magnitude {
            whole: (m / p) as u64,
            over: false,
            fraction: m % p != 0,
            half: 2 * (m % p) >= p,
        }
    }
}

proof fn lemma_small_division(x: int, d: int)
    requires
        0 <= x < d,
    ensures
        x / d == 0,
        x % d == x,
{
    lemma_fundamental_div_mod_converse(x, d, 0, x);
}

proof fn lemma_quotient_bounds(x: int, d: int)
    requires
        x >= 0,
        d > 0,
    ensures
        0 <= x / d <= x,
        0 <= x % d < d,
{
    lemma_fundamental_div_mod(x, d);
    lemma_mod_bound(x, d);
    lemma_div_nonincreasing(x, d);
    lemma_div_pos_is_pos(x, d);
}

/// Comparing a fraction with a whole number comes down to its quotient and remainder.
proof fn lemma_quotient_decides(num: int, den: int, n: int)
    requires
        num >= 0,
        den > 0,
        n >= 0,
    ensures
        num == n * den <==> num / den == n && num % den == 0,
        num <= n * den <==> num / den < n || (num / den == n && num % den == 0),
{
    lemma_fundamental_div_mod(num, den);
    lemma_mod_bound(num, den);
    let q = num / den;
    if q < n {
        assert(den * (q + 1) <= n * den) by (nonlinear_arith)
            requires
                q + 1 <= n,
                den > 0,
        ;
        assert(den * (q + 1) == den * q + den) by (nonlinear_arith);
    } else if q > n {
        assert(den * q >= n * den + den) by (nonlinear_arith)
            requires
                q >= n + 1,
                den > 0,
        ;
    } else {
        assert(den * q == n * den) by (nonlinear_arith)
            requires
                q == n,
        ;
    }
}

/// The nearest whole number is no more than one half away, and above where it is just that.
pub proof fn law_nearest_is_within_a_half(a: int, b: int)
    requires
        b > 0,
    ensures
        -b <= 2 * (a - nearest(a, b) * b) < b,
{
    lemma_fundamental_div_mod(2 * a + b, 2 * b);
    lemma_mod_bound(2 * a + b, 2 * b);
    let q = nearest(a, b);
    assert((2 * b) * q == 2 * (q * b)) by (nonlinear_arith);
}

/// Rounding depends on the fraction, not on how it is written.
pub proof fn lemma_nearest_of_equal_fractions(a: int, b: int, c: int, d: int)
    requires
        a >= 0,
        c >= 0,
        b > 0,
        d > 0,
        a * d == c * b,
    ensures
        nearest(a, b) == nearest(c, d),
{
    let q = nearest(a, b);
    lemma_fundamental_div_mod(2 * a + b, 2 * b);
    lemma_mod_bound(2 * a + b, 2 * b);
    let r = (2 * a + b) % (2 * b);
    assert(2 * c + d >= (2 * d) * q) by (nonlinear_arith)
        requires
            2 * a + b == (2 * b) * q + r,
            r >= 0,
            b > 0,
            d > 0,
            a * d == c * b,
    ;
    assert(2 * c + d < (2 * d) * q + 2 * d) by (nonlinear_arith)
        requires
            2 * a + b == (2 * b) * q + r,
            r < 2 * b,
            b > 0,
            d > 0,
            a * d == c * b,
    ;
    lemma_fundamental_div_mod_converse(2 * c + d, 2 * d, q, 2 * c + d - (2 * d) * q);
}

/// Rounding adds one to the quotient when at least half is cut off.
proof fn lemma_nearest(num: int, den: int)
    requires
        num >= 0,
        den > 0,
    ensures
        nearest(num, den) == num / den + (if 2 * (num % den) >= den { 1int } else { 0int }),
{
    lemma_fundamental_div_mod(num, den);
    lemma_mod_bound(num, den);
    let q = num / den;
    let r = num % den;
    if 2 * r >= den {
        assert(2 * num + den == (2 * den) * (q + 1) + (2 * r - den)) by (nonlinear_arith)
            requires
                num == den * q + r,
        ;
        lemma_fundamental_div_mod_converse(2 * num + den, 2 * den, q + 1, 2 * r - den);
    } else {
        assert(2 * num + den == (2 * den) * q + (2 * r + den)) by (nonlinear_arith)
            requires
                num == den * q + r,
        ;
        lemma_fundamental_div_mod_converse(2 * num + den, 2 * den, q, 2 * r + den);
    }
}

/// A number is brought to a whole one by leaving out its fraction, towards zero, where that
/// fits an `i64`.
pub proof fn law_truncation_goes_towards_zero(d: Dyadic)
    requires
        d is Finite,
        d.num() < 0x7FFF_FFFF_FFFF_FFFF * d.den(),
    ensures
        ({
            let size = if d.below_zero() {
                -d.as_i64()
            } else {
                d.as_i64()
            };
            &&& 0 <= size
            &&& size * d.den() <= d.num() < (size + 1) * d.den()
        }),
{
    lemma_fraction_is_proper(d);
    let (num, den) = (d.num() as int, d.den() as int);
    lemma_fundamental_div_mod(num, den);
    lemma_mod_bound(num, den);
    lemma_div_pos_is_pos(num, den);
    let q = num / den;
    assert(den * q == q * den) by (nonlinear_arith);
    assert((q + 1) * den == q * den + den) by (nonlinear_arith);
    if q >= 0x7FFF_FFFF_FFFF_FFFF {
        assert(q * den >= 0x7FFF_FFFF_FFFF_FFFF * den) by (nonlinear_arith)
            requires
                q >= 0x7FFF_FFFF_FFFF_FFFF,
                den > 0,
        ;
    }
}

/// What does not fit an `i64` counts as the nearest that does, and what is no number as zero.
pub proof fn law_what_does_not_fit_is_cut_off(d: Dyadic)
    ensures
        d is NotANumber ==> d.as_i64() == 0,
        d == (Dyadic::Infinite { negative: false }) ==> d.as_i64() == i64::MAX,
        d == (Dyadic::Infinite { negative: true }) ==> d.as_i64() == i64::MIN,
        d is Finite && !d.below_zero() && d.num() >= 0x7FFF_FFFF_FFFF_FFFF * d.den() ==> d.as_i64()
            == i64::MAX,
        d is Finite && d.below_zero() && d.num() >= 0x8000_0000_0000_0000 * d.den() ==> d.as_i64()
            == i64::MIN,
{
    if d is Finite {
        lemma_fraction_is_proper(d);
        let (num, den) = (d.num() as int, d.den() as int);
        lemma_fundamental_div_mod(num, den);
        lemma_mod_bound(num, den);
        let q = num / den;
        assert((q + 1) * den == den * q + den) by (nonlinear_arith);
        if num >= 0x7FFF_FFFF_FFFF_FFFF * den {
            assert(q >= 0x7FFF_FFFF_FFFF_FFFF) by (nonlinear_arith)
                requires
                    num < (q + 1) * den,
                    num >= 0x7FFF_FFFF_FFFF_FFFF * den,
                    den > 0,
            ;
        }
        if num >= 0x8000_0000_0000_0000 * den {
            assert(q >= 0x8000_0000_0000_0000) by (nonlinear_arith)
                requires
                    num < (q + 1) * den,
                    num >= 0x8000_0000_0000_0000 * den,
                    den > 0,
            ;
        }
    }
}

/// A number stands for the count nearest to it, the upper one of two equally near; what is
/// below zero or no number at all stands for none.
pub proof fn law_counts_are_the_nearest(d: Dyadic)
    ensures
        d is NotANumber || d.below_zero() ==> d.as_count() == 0,
        d == (Dyadic::Infinite { negative: false }) ==> d.as_count() == usize::MAX,
        d is Finite && !d.below_zero() && d.num() < 0xFFFF_FFFF * d.den() ==> -(d.den() as int)
            <= 2 * (d.num() - d.as_count() * d.den()) < d.den(),
{
    lemma_fraction_is_proper(d);
    if d is Finite && !d.below_zero() && d.num() < 0xFFFF_FFFF * d.den() {
        law_nearest_is_within_a_half(d.num() as int, d.den() as int);
        assert(d.at_most(0xFFFF_FFFF)) by {
            assert(0xFFFF_FFFFnat * d.den() == 0xFFFF_FFFF * d.den());
        }
        lemma_rounded_in_range(d, 0xFFFF_FFFF);
    }
}

/// The number is its mantissa, doubled for each step of its exponent above zero and halved for
/// each below.
pub proof fn law_exponents_double(negative: bool, mantissa: u64, exponent: i32)
    requires
        exponent < i32::MAX,
    ensures
        ({
            let d = Dyadic::Finite { negative, mantissa, exponent };
            let twice = Dyadic::Finite { negative, mantissa, exponent: (exponent + 1) as i32 };
            &&& d.den() > 0
            &&& twice.num() * d.den() == 2 * d.num() * twice.den()
            &&& exponent == 0 ==> d.num() == mantissa && d.den() == 1
        }),
{
    crate::listen::lemma_doubling(mantissa as nat, exponent as int);
    lemma2_to64();
    if exponent == 0 {
        assert(mantissa * pow2(0) == mantissa) by (nonlinear_arith)
            requires
                pow2(0) == 1,
        ;
    }
}

} // verus!
