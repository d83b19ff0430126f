//! Binary32 floating-point arithmetic carried out on integers.
//!
//! A value is a sign, a significand below `2^24` and an exponent. Every operation returns the
//! binary32 value nearest to the exact result, a tie going to the even significand, so colour
//! and frame-rate computations come out bit for bit the same on every machine.

use vstd::prelude::*;

verus! {

/// Two to the power of `n`, for `n >= 0`.
#[verifier::inline]
pub open spec fn pow2(n: int) -> int {
    vstd::arithmetic::power2::pow2(n as nat) as int
}

/// A binary32 value: `mant * 2^exp`, negated if `neg` is set.
#[derive(Debug, Clone, Copy, PartialEq, Eq)]
pub enum Single {
    /// Not a number.
    Nan,
    /// An infinity.
    Infinite { neg: bool },
    /// A finite value. Zero has the significand 0 and the least exponent.
    Finite { neg: bool, mant: u32, exp: i32 },
}

/// The number of binary digits of `n`.
pub open spec fn bits(n: int) -> int
    decreases n,
{
    if n <= 0 {
        0
    } else {
        1 + bits(n / 2)
    }
}

/// The integer nearest to `n / d`, a tie going to the even one.
pub open spec fn half_even(n: int, d: int) -> int {
    let q = n / d;
    let r = n % d;
    if 2 * r < d || (2 * r == d && q % 2 == 0) {
        q
    } else {
        q + 1
    }
}

/// The exponent `x` with `2^x <= n / d < 2^(x + 1)`, for positive `n` and `d`.
pub open spec fn exponent(n: int, d: int) -> int {
    if n >= d {
        bits(n / d) - 1
    } else {
        -bits((d - 1) / n)
    }
}

/// The zero of the given sign.
pub open spec fn zero(neg: bool) -> Single {
    Single::Finite { neg, mant: 0, exp: -149i32 }
}

/// `mant * 2^exp` as a binary32 value, where `mant <= 2^24` may have been rounded up to `2^24`.
pub open spec fn packed(neg: bool, mant: int, exp: int) -> Single {
    if mant == 0x100_0000 {
        if exp + 1 > 104 {
            Single::Infinite { neg }
        } else {
            Single::Finite { neg, mant: 0x80_0000, exp: (exp + 1) as i32 }
        }
    } else if exp > 104 {
        Single::Infinite { neg }
    } else {
        Single::Finite { neg, mant: mant as u32, exp: exp as i32 }
    }
}

/// The exponent of the last place kept of `n / d * 2^k`.
pub open spec fn last_place(n: int, d: int, k: int) -> int {
    if exponent(n, d) + k - 23 < -149 {
        -149
    } else {
        exponent(n, d) + k - 23
    }
}

/// The binary32 value nearest to `n / d * 2^k`, negated if `neg` is set, a tie going to the
/// even significand.
pub open spec fn rounded(neg: bool, n: int, d: int, k: int) -> Single {
    if n <= 0 {
        zero(neg)
    } else {
        let e = last_place(n, d, k);
        let m = if k >= e {
            half_even(n * pow2(k - e), d)
        } else {
            half_even(n, d * pow2(e - k))
        };
        packed(neg, m, e)
    }
}

/// `2^b` bounds the numbers of `b` binary digits.
pub proof fn lemma_bits(n: int)
    requires
        n > 0,
    ensures
        bits(n) >= 1,
        pow2(bits(n) - 1) <= n < pow2(bits(n)),
    decreases n,
{
    vstd::arithmetic::power2::lemma2_to64();
    if n > 1 {
        lemma_bits(n / 2);
        vstd::arithmetic::power2::lemma_pow2_unfold(bits(n) as nat);
        vstd::arithmetic::power2::lemma_pow2_unfold((bits(n) - 1) as nat);
    } else {
        assert(bits(0) == 0);
        assert(bits(1) == 1);
    }
}

/// The number of binary digits is fixed by the powers of two around a number.
pub proof fn lemma_bits_unique(n: int, b: int)
    requires
        n > 0,
        b >= 1,
        pow2(b - 1) <= n < pow2(b),
    ensures
        bits(n) == b,
{
    lemma_bits(n);
    let c = bits(n);
    if c < b {
        if c < b - 1 {
            vstd::arithmetic::power2::lemma_pow2_strictly_increases(c as nat, (b - 1) as nat);
        }
    } else if c > b {
        if c - 1 > b {
            vstd::arithmetic::power2::lemma_pow2_strictly_increases(b as nat, (c - 1) as nat);
        }
    }
}

pub proof fn lemma_bits_le(n: int, b: int)
    requires
        0 <= n < pow2(b),
        b >= 0,
    ensures
        0 <= bits(n) <= b,
{
    if n > 0 {
        lemma_bits(n);
        if bits(n) > b {
            if bits(n) - 1 > b {
                vstd::arithmetic::power2::lemma_pow2_strictly_increases(b as nat, (bits(n) - 1) as nat);
            }
        }
    }
}

proof fn lemma_leading_zeros(n: u64)
    ensures
        vstd::std_specs::bits::u64_leading_zeros(n) == 64 - bits(n as int),
    decreases n,
{
    reveal(vstd::std_specs::bits::u64_leading_zeros);
    if n > 0 {
        lemma_leading_zeros(n / 2);
    }
}

/// The number of binary digits of `n`.
fn bit_length(n: u64) -> (b: i32)
    ensures
        b == bits(n as int),
        0 <= b <= 64,
{
    proof {
        lemma_leading_zeros(n);
        vstd::std_specs::bits::axiom_u64_leading_zeros(n);
    }
    let z: u32 = n.leading_zeros();
    64 - z as i32
}

/// `n * 2^s`.
fn shifted_left(n: u64, s: i32) -> (r: u64)
    requires
        0 <= s < 64,
        n * pow2(s as int) <= u64::MAX,
    ensures
        r == n * pow2(s as int),
{
    proof {
        vstd::bits::lemma_u64_shl_is_mul(n, s as u64);
    }
    n << (s as u64)
}

/// The integer nearest to `n / d`, a tie going to the even one.
fn divide_half_even(n: u64, d: u64) -> (r: u64)
    requires
        d > 0,
        n < 0x8000_0000_0000_0000,
    ensures
        r == half_even(n as int, d as int),
{
    let q: u64 = n / d;
    let r: u64 = n % d;
    proof {
        assert(q <= n) by (nonlinear_arith) requires q == n / d, d > 0;
    }
    // `2 * r < d` without leaving the range of the type.
    let rest: u64 = d - r;
    if r < rest || (r == rest && q % 2 == 0) {
        q
    } else {
        q + 1
    }
}

fn pack(neg: bool, mant: u64, exp: i32) -> (r: Single)
    requires
        mant <= 0x100_0000,
        -1000 <= exp <= 1000,
    ensures
        r == packed(neg, mant as int, exp as int),
{
    if mant == 0x100_0000 {
        if exp + 1 > 104 {
            Single::Infinite { neg }
        } else {
            Single::Finite { neg, mant: 0x80_0000, exp: exp + 1 }
        }
    } else if exp > 104 {
        Single::Infinite { neg }
    } else {
        Single::Finite { neg, mant: mant as u32, exp }
    }
}

impl Single {
    /// The representation is the one that binary32 gives its values.
    pub open spec fn wf(self) -> bool {
        match self {
            Single::Finite { neg, mant, exp } => {
                &&& mant < 0x100_0000
                &&& -149 <= exp <= 104
                &&& (mant >= 0x80_0000 || exp == -149)
            },
            _ => true,
        }
    }
}

proof fn lemma_pow2_mul(a: int, b: int)
    requires
        a >= 0,
        b >= 0,
    ensures
        pow2(a) * pow2(b) == pow2(a + b),
        pow2(a) > 0,
        pow2(b) > 0,
{
    vstd::arithmetic::power2::lemma_pow2_adds(a as nat, b as nat);
    vstd::arithmetic::power2::lemma_pow2_pos(a as nat);
    vstd::arithmetic::power2::lemma_pow2_pos(b as nat);
}

proof fn lemma_pow2_le(a: int, b: int)
    requires
        0 <= a <= b,
    ensures
        0 < pow2(a) <= pow2(b),
{
    vstd::arithmetic::power2::lemma_pow2_pos(a as nat);
    if a < b {
        vstd::arithmetic::power2::lemma_pow2_strictly_increases(a as nat, b as nat);
    }
}

/// What `exponent` promises, without fractions.
proof fn lemma_exponent(n: int, d: int)
    requires
        n > 0,
        d > 0,
    ensures
        exponent(n, d) >= 0 ==> d * pow2(exponent(n, d)) <= n < d * pow2(exponent(n, d) + 1),
        exponent(n, d) < 0 ==> d <= n * pow2(-exponent(n, d)) < 2 * d,
{
    if n >= d {
        let q = n / d;
        assert(q >= 1 && q * d <= n < (q + 1) * d) by (nonlinear_arith)
            requires
                q == n / d,
                n >= d,
                d > 0,
        ;
        lemma_bits(q);
        let lo = pow2(bits(q) - 1);
        let hi = pow2(bits(q));
        assert(d * lo <= q * d) by (nonlinear_arith)
            requires
                lo <= q,
                d > 0,
        ;
        assert((q + 1) * d <= d * hi) by (nonlinear_arith)
            requires
                q + 1 <= hi,
                d > 0,
        ;
    } else {
        let q = (d - 1) / n;
        assert(q >= 1 && q * n <= d - 1 < (q + 1) * n) by (nonlinear_arith)
            requires
                q == (d - 1) / n,
                0 < n <= d - 1,
        ;
        lemma_bits(q);
        let lo = pow2(bits(q) - 1);
        let hi = pow2(bits(q));
        vstd::arithmetic::power2::lemma_pow2_unfold(bits(q) as nat);
        assert((q + 1) * n <= n * hi) by (nonlinear_arith)
            requires
                q + 1 <= hi,
                n > 0,
        ;
        assert(n * hi <= 2 * (q * n)) by (nonlinear_arith)
            requires
                hi == 2 * lo,
                lo <= q,
                n > 0,
        ;
    }
}

/// A number below `m` divisors rounds to `m` at most, one from `m` divisors up to `m` at least.
proof fn lemma_half_even_bounds(n: int, d: int, m: int)
    requires
        d > 0,
        n >= 0,
    ensures
        half_even(n, d) >= 0,
        n <= m * d ==> half_even(n, d) <= m,
        n >= m * d ==> half_even(n, d) >= m,
{
    let q = n / d;
    let r = n % d;
    assert(n == q * d + r && 0 <= r < d && q >= 0) by (nonlinear_arith)
        requires
            q == n / d,
            r == n % d,
            d > 0,
            n >= 0,
    ;
    if n <= m * d {
        if q >= m {
            assert(q == m && r == 0) by (nonlinear_arith)
                requires
                    n == q * d + r,
                    n <= m * d,
                    q >= m,
                    0 <= r < d,
            ;
        }
    }
    if n >= m * d {
        assert(q >= m) by (nonlinear_arith)
            requires
                n == q * d + r,
                n >= m * d,
                0 <= r < d,
        ;
    }
}

/// The significand that `rounded` keeps is in range.
proof fn lemma_kept(n: int, d: int, k: int)
    requires
        n > 0,
        d > 0,
    ensures
        ({
            let e = last_place(n, d, k);
            let num = if k >= e { n * pow2(k - e) } else { n };
            let den = if k >= e { d } else { d * pow2(e - k) };
            &&& den > 0
            &&& 0 < num <= 0x100_0000 * den
            &&& e > -149 ==> num >= 0x80_0000 * den
        }),
{
    lemma_exponent(n, d);
    vstd::arithmetic::power2::lemma2_to64();
    let x = exponent(n, d);
    let e = last_place(n, d, k);
    // the exponent without the lower limit
    let f = x + k - 23;
    if k >= e {
        let s = k - e;
        lemma_pow2_le(0, s);
        // n * 2^s < d * 2^24
        if x >= 0 {
            lemma_pow2_mul(x + 1, s);
            lemma_pow2_le(x + 1 + s, 24);
            let a = pow2(x + 1);
            let b = pow2(s);
            assert(n * b <= d * (a * b)) by (nonlinear_arith)
                requires
                    n < d * a,
                    b > 0,
            ;
            assert(d * (a * b) <= 0x100_0000 * d) by (nonlinear_arith)
                requires
                    a * b <= 0x100_0000,
                    d > 0,
            ;
            if e > -149 {
                lemma_pow2_mul(x, s);
                let c = pow2(x);
                assert(n * b >= d * (c * b)) by (nonlinear_arith)
                    requires
                        d * c <= n,
                        b > 0,
                ;
                assert(x + s == 23);
                assert(d * (c * b) == 0x80_0000 * d) by (nonlinear_arith)
                    requires
                        c * b == 0x80_0000,
                ;
            }
        } else {
            let y = -x;
            if s >= y {
                lemma_pow2_mul(y, s - y);
                lemma_pow2_mul(1, s - y);
                lemma_pow2_le(1 + s - y, 24);
                let a = pow2(y);
                let b = pow2(s - y);
                assert(n * (a * b) <= d * (2 * b)) by (nonlinear_arith)
                    requires
                        n * a < 2 * d,
                        b > 0,
                ;
                assert(d * (2 * b) <= 0x100_0000 * d) by (nonlinear_arith)
                    requires
                        2 * b <= 0x100_0000,
                        d > 0,
                ;
                if e > -149 {
                    assert(s - y == 23);
                    assert(n * (a * b) >= 0x80_0000 * d) by (nonlinear_arith)
                        requires
                            n * a >= d,
                            b == 0x80_0000,
                    ;
                }
            } else {
                assert(e == -149);
                lemma_pow2_le(s, y);
                let a = pow2(y);
                let b = pow2(s);
                assert(n * b <= 0x100_0000 * d) by (nonlinear_arith)
                    requires
                        n * a < 2 * d,
                        0 < b <= a,
                        n > 0,
                        d > 0,
                ;
            }
        }
        assert(n * pow2(s) > 0) by (nonlinear_arith)
            requires
                n > 0,
                pow2(s) > 0,
        ;
    } else {
        let s = e - k;
        lemma_pow2_le(0, s);
        let b = pow2(s);
        assert(d * b > 0) by (nonlinear_arith)
            requires
                d > 0,
                b > 0,
        ;
        // n < d * 2^(s + 24)
        if x >= 0 {
            lemma_pow2_le(x + 1, s + 24);
            lemma_pow2_mul(s, 24);
            let a = pow2(x + 1);
            assert(n <= 0x100_0000 * (d * b)) by (nonlinear_arith)
                requires
                    n < d * a,
                    a <= b * 0x100_0000,
                    d > 0,
            ;
            if e > -149 {
                assert(x == s + 23);
                lemma_pow2_mul(s, 23);
                let c = pow2(x);
                assert(n >= 0x80_0000 * (d * b)) by (nonlinear_arith)
                    requires
                        d * c <= n,
                        c == b * 0x80_0000,
                ;
            }
        } else {
            let a = pow2(-x);
            lemma_pow2_le(0, -x);
            assert(n <= 0x100_0000 * (d * b)) by (nonlinear_arith)
                requires
                    n * a < 2 * d,
                    a > 0,
                    b > 0,
                    n > 0,
                    d > 0,
            ;
            assert(e == -149);
        }
    }
}

/// `rounded` gives proper binary32 values.
pub proof fn lemma_rounded_wf(neg: bool, n: int, d: int, k: int)
    requires
        d > 0,
    ensures
        rounded(neg, n, d, k).wf(),
{
    if n > 0 {
        lemma_kept(n, d, k);
        let e = last_place(n, d, k);
        let num = if k >= e { n * pow2(k - e) } else { n };
        let den = if k >= e { d } else { d * pow2(e - k) };
        lemma_half_even_bounds(num, den, 0x100_0000);
        lemma_half_even_bounds(num, den, 0x80_0000);
    }
}

/// `n * 2^k`, rounded.
fn round_scaled(neg: bool, n: u64, k: i32) -> (r: Single)
    requires
        n < 0x4000_0000_0000_0000,
        -400 <= k <= 400,
    ensures
        r == rounded(neg, n as int, 1, k as int),
        r.wf(),
{
    proof {
        lemma_rounded_wf(neg, n as int, 1, k as int);
        vstd::arithmetic::power2::lemma2_to64();
        vstd::arithmetic::power2::lemma2_to64_rest();
    }
    if n == 0 {
        return Single::Finite { neg, mant: 0, exp: -149 };
    }
    let b: i32 = bit_length(n);
    let e: i32 = if k + b - 24 < -149 { -149 } else { k + b - 24 };
    proof {
        lemma_bits(n as int);
        lemma_bits_le(n as int, 62);
        assert(n as int / 1 == n as int);
        assert(exponent(n as int, 1) == b - 1);
        assert(last_place(n as int, 1, k as int) == e);
        lemma_kept(n as int, 1, k as int);
    }
    if k >= e {
        let s: i32 = k - e;
        let m: u64 = shifted_left(n, s);
        proof {
            assert(half_even(m as int, 1) == m);
        }
        pack(neg, m, e)
    } else {
        let s: i32 = e - k;
        if s >= 63 {
            proof {
                lemma_pow2_le(63, s as int);
                let d = pow2(s as int);
                assert(n as int / d == 0 && n as int % d == n) by (nonlinear_arith)
                    requires
                        0 <= n < d,
                ;
            }
            pack(neg, 0, e)
        } else {
            proof {
                lemma_pow2_le(s as int, 63);
            }
            let d: u64 = shifted_left(1, s);
            let m: u64 = divide_half_even(n, d);
            proof {
                lemma_half_even_bounds(n as int, d as int, 0x100_0000);
            }
            pack(neg, m, e)
        }
    }
}

/// `n / d * 2^k`, rounded.
fn round_ratio(neg: bool, n: u32, d: u32, k: i32) -> (r: Single)
    requires
        0 < n < 0x100_0000,
        0 < d < 0x100_0000,
        -400 <= k <= 400,
    ensures
        r == rounded(neg, n as int, d as int, k as int),
        r.wf(),
{
    proof {
        lemma_rounded_wf(neg, n as int, d as int, k as int);
        vstd::arithmetic::power2::lemma2_to64();
        vstd::arithmetic::power2::lemma2_to64_rest();
    }
    let x: i32 = if n >= d {
        bit_length((n / d) as u64) - 1
    } else {
        -bit_length(((d - 1) / n) as u64)
    };
    let e: i32 = if x + k - 23 < -149 { -149 } else { x + k - 23 };
    proof {
        assert(x == exponent(n as int, d as int));
        lemma_kept(n as int, d as int, k as int);
    }
    if k >= e {
        let s: i32 = k - e;
        proof {
            if s >= 49 {
                lemma_pow2_le(49, s as int);
                assert(n * pow2(s as int) >= pow2(49)) by (nonlinear_arith)
                    requires
                        n >= 1,
                        pow2(s as int) >= pow2(49),
                ;
            }
        }
        let a: u64 = shifted_left(n as u64, s);
        let m: u64 = divide_half_even(a, d as u64);
        proof {
            lemma_half_even_bounds(a as int, d as int, 0x100_0000);
        }
        pack(neg, m, e)
    } else {
        let s: i32 = e - k;
        if s > 38 {
            proof {
                lemma_pow2_le(39, s as int);
                let b = d * pow2(s as int);
                assert(b >= pow2(39)) by (nonlinear_arith)
                    requires
                        b == d * pow2(s as int),
                        d >= 1,
                        pow2(s as int) >= pow2(39),
                ;
                assert(n as int / b == 0 && n as int % b == n) by (nonlinear_arith)
                    requires
                        0 <= n < b,
                ;
            }
            pack(neg, 0, e)
        } else {
            proof {
                lemma_pow2_le(s as int, 38);
                assert(d * pow2(s as int) < 0x100_0000 * pow2(38)) by (nonlinear_arith)
                    requires
                        0 < d < 0x100_0000,
                        0 < pow2(s as int) <= pow2(38),
                ;
            }
            let b: u64 = shifted_left(d as u64, s);
            let m: u64 = divide_half_even(n as u64, b);
            proof {
                lemma_half_even_bounds(n as int, b as int, 0x100_0000);
            }
            pack(neg, m, e)
        }
    }
}

/// The significand with its sign.
pub open spec fn signed(neg: bool, mant: int) -> int {
    if neg {
        -mant
    } else {
        mant
    }
}

pub open spec fn least(a: int, b: int) -> int {
    if a <= b {
        a
    } else {
        b
    }
}

/// The exact sum of two finite values, in units of `2^least(e, f)`.
pub open spec fn exact_sum(neg: bool, m: int, e: int, other: bool, n: int, f: int) -> int {
    signed(neg, m) * pow2(e - least(e, f)) + signed(other, n) * pow2(f - least(e, f))
}

/// The value with its sign changed.
pub open spec fn negated(a: Single) -> Single {
    match a {
        Single::Nan => Single::Nan,
        Single::Infinite { neg } => Single::Infinite { neg: !neg },
        Single::Finite { neg, mant, exp } => Single::Finite { neg: !neg, mant, exp },
    }
}

/// The sum of two values.
#[verifier::opaque]
pub open spec fn sum(a: Single, b: Single) -> Single {
    match (a, b) {
        (Single::Nan, _) => Single::Nan,
        (_, Single::Nan) => Single::Nan,
        (Single::Infinite { neg: n }, Single::Infinite { neg: o }) => if n == o {
            a
        } else {
            Single::Nan
        },
        (Single::Infinite { neg: n }, _) => a,
        (_, Single::Infinite { neg: o }) => b,
        (
            Single::Finite { neg: n, mant: m, exp: e },
            Single::Finite { neg: o, mant: w, exp: f },
        ) => {
            let t = exact_sum(n, m as int, e as int, o, w as int, f as int);
            if t == 0 {
                zero(n && o)
            } else {
                rounded(t < 0, if t < 0 { -t } else { t }, 1, least(e as int, f as int))
            }
        },
    }
}

/// What is left of a value after taking away another as often as it goes, with the sign of the
/// first.
#[verifier::opaque]
pub open spec fn remainder(a: Single, b: Single) -> Single {
    match (a, b) {
        (Single::Nan, _) => Single::Nan,
        (_, Single::Nan) => Single::Nan,
        (Single::Infinite { neg: _ }, _) => Single::Nan,
        (_, Single::Infinite { neg: _ }) => a,
        (
            Single::Finite { neg: n, mant: m, exp: e },
            Single::Finite { neg: _, mant: w, exp: f },
        ) => if w == 0 {
            Single::Nan
        } else {
            let k = least(e as int, f as int);
            rounded(n, (m * pow2(e - k)) % (w * pow2(f - k)), 1, k)
        },
    }
}

/// The difference of two values.
pub open spec fn difference(a: Single, b: Single) -> Single {
    sum(a, negated(b))
}

/// The product of two values.
#[verifier::opaque]
pub open spec fn product(a: Single, b: Single) -> Single {
    match (a, b) {
        (Single::Nan, _) => Single::Nan,
        (_, Single::Nan) => Single::Nan,
        (Single::Infinite { neg: n }, Single::Infinite { neg: o }) => Single::Infinite {
            neg: n != o,
        },
        (Single::Infinite { neg: n }, Single::Finite { neg: o, mant: w, exp: f }) => if w == 0 {
            Single::Nan
        } else {
            Single::Infinite { neg: n != o }
        },
        (Single::Finite { neg: n, mant: m, exp: e }, Single::Infinite { neg: o }) => if m == 0 {
            Single::Nan
        } else {
            Single::Infinite { neg: n != o }
        },
        (
            Single::Finite { neg: n, mant: m, exp: e },
            Single::Finite { neg: o, mant: w, exp: f },
        ) => rounded(n != o, m * w, 1, e + f),
    }
}

/// The quotient of two values.
#[verifier::opaque]
pub open spec fn quotient(a: Single, b: Single) -> Single {
    match (a, b) {
        (Single::Nan, _) => Single::Nan,
        (_, Single::Nan) => Single::Nan,
        (Single::Infinite { neg: n }, Single::Infinite { neg: o }) => Single::Nan,
        (Single::Infinite { neg: n }, Single::Finite { neg: o, mant: w, exp: f }) => {
            Single::Infinite { neg: n != o }
        },
        (Single::Finite { neg: n, mant: m, exp: e }, Single::Infinite { neg: o }) => zero(n != o),
        (
            Single::Finite { neg: n, mant: m, exp: e },
            Single::Finite { neg: o, mant: w, exp: f },
        ) => if w == 0 {
            if m == 0 {
                Single::Nan
            } else {
                Single::Infinite { neg: n != o }
            }
        } else {
            rounded(n != o, m as int, w as int, e - f)
        },
    }
}

proof fn lemma_half_even_at(n: int, d: int, q: int, r: int)
    requires
        d > 0,
        n == q * d + r,
        0 <= r < d,
    ensures
        half_even(n, d) == if 2 * r < d || (2 * r == d && q % 2 == 0) {
            q
        } else {
            q + 1
        },
{
    vstd::arithmetic::div_mod::lemma_fundamental_div_mod_converse(n, d, q, r);
}

/// Adding less than a quarter of the last place changes nothing.
proof fn lemma_far(neg: bool, m: int, e: int, s: int, w: int)
    requires
        0 < m < 0x100_0000,
        -149 <= e <= 104,
        m >= 0x80_0000 || e == -149,
        s >= 26,
        -0x100_0000 < w < 0x100_0000,
    ensures
        m * pow2(s) + w > 0,
        rounded(neg, m * pow2(s) + w, 1, e - s) == (Single::Finite {
            neg,
            mant: m as u32,
            exp: e as i32,
        }),
{
    vstd::arithmetic::power2::lemma2_to64();
    lemma_pow2_le(26, s);
    let p = pow2(s);
    let n = m * p + w;
    let b = bits(m);
    lemma_bits(m);
    assert(n > 0) by (nonlinear_arith)
        requires
            n == m * p + w,
            m >= 1,
            p >= 0x400_0000,
            w > -0x100_0000,
    ;
    assert(n / 1 == n);
    lemma_bits_le(m, 24);
    if m >= 0x80_0000 {
        lemma_bits_unique(m, 24);
    }
    lemma_pow2_mul(b - 1, s);
    lemma_pow2_mul(b, s);
    let lo = pow2(b - 1);
    let hi = pow2(b);
    if w >= 0 || m > lo {
        assert(lo * p <= n < hi * p) by (nonlinear_arith)
            requires
                n == m * p + w,
                lo <= m < hi,
                w >= 0 || m > lo,
                p >= 0x400_0000,
                -0x100_0000 < w < 0x100_0000,
        ;
        lemma_bits_unique(n, b + s);
        assert(last_place(n, 1, e - s) == e);
        if w >= 0 {
            lemma_half_even_at(n, p, m, w);
        } else {
            assert(n == (m - 1) * p + (p + w)) by (nonlinear_arith)
                requires
                    n == m * p + w,
            ;
            lemma_half_even_at(n, p, m - 1, p + w);
        }
        assert(half_even(n, 1 * p) == m);
    } else {
        vstd::arithmetic::power2::lemma_pow2_unfold(s as nat);
        let h = pow2(s - 1);
        lemma_pow2_mul(b - 1, s - 1);
        assert(lo * h <= n < lo * p) by (nonlinear_arith)
            requires
                n == lo * p + w,
                lo >= 1,
                p == 2 * h,
                p >= 0x400_0000,
                -0x100_0000 < w < 0,
        ;
        lemma_bits_unique(n, b - 1 + s);
        if e > -149 {
            assert(last_place(n, 1, e - s) == e - 1);
            assert(m == 0x80_0000);
            assert(n == 0xff_ffff * h + (h + w)) by (nonlinear_arith)
                requires
                    n == 0x80_0000 * p + w,
                    p == 2 * h,
            ;
            lemma_half_even_at(n, h, 0xff_ffff, h + w);
            assert(half_even(n, 1 * h) == 0x100_0000);
        } else {
            assert(last_place(n, 1, e - s) == e);
            assert(n == (m - 1) * p + (p + w)) by (nonlinear_arith)
                requires
                    n == m * p + w,
            ;
            lemma_half_even_at(n, p, m - 1, p + w);
            assert(half_even(n, 1 * p) == m);
        }
    }
}

/// Rounding does not depend on how a value is written.
proof fn lemma_signed(neg: bool, m: int, s: int)
    requires
        m >= 0,
        s >= 0,
    ensures
        signed(neg, m) * pow2(s) == signed(neg, m * pow2(s)),
        m * pow2(s) >= 0,
{
    lemma_pow2_le(0, s);
    let p = pow2(s);
    assert((-m) * p == -(m * p) && m * p >= 0) by (nonlinear_arith)
        requires
            m >= 0,
            p > 0,
    ;
}

/// The sum of two finite values of which the first has the larger exponent.
fn add_ordered(neg: bool, m: u32, e: i32, other: bool, w: u32, f: i32) -> (r: Single)
    requires
        (Single::Finite { neg, mant: m, exp: e }).wf(),
        (Single::Finite { neg: other, mant: w, exp: f }).wf(),
        e >= f,
    ensures
        r == sum(
            Single::Finite { neg, mant: m, exp: e },
            Single::Finite { neg: other, mant: w, exp: f },
        ),
        r.wf(),
{
    proof {
        reveal(sum);
    }
    let s: i32 = e - f;
    proof {
        vstd::arithmetic::power2::lemma2_to64();
        vstd::arithmetic::power2::lemma2_to64_rest();
        lemma_signed(neg, m as int, s as int);
        lemma_signed(other, w as int, 0);
        assert(signed(other, w as int) * pow2(0) == signed(other, w as int));
    }
    let ghost t = exact_sum(neg, m as int, e as int, other, w as int, f as int);
    if s > 37 {
        proof {
            assert(e > -149);
            lemma_far(neg, m as int, e as int, s as int, if neg == other { w as int } else { -(w as int) });
            lemma_pow2_le(38, s as int);
            assert(t == signed(neg, m * pow2(s as int) + (if neg == other { w as int } else { -(w as int) })));
        }
        Single::Finite { neg, mant: m, exp: e }
    } else {
        proof {
            lemma_pow2_le(s as int, 37);
            assert(m * pow2(s as int) < 0x100_0000 * pow2(37)) by (nonlinear_arith)
                requires
                    0 <= m < 0x100_0000,
                    0 < pow2(s as int) <= pow2(37),
            ;
        }
        let a: u64 = shifted_left(m as u64, s);
        let b: u64 = w as u64;
        if neg == other {
            if a + b == 0 {
                return Single::Finite { neg: neg && other, mant: 0, exp: -149 };
            }
            round_scaled(neg, a + b, f)
        } else if a == b {
            Single::Finite { neg: neg && other, mant: 0, exp: -149 }
        } else if a > b {
            round_scaled(neg, a - b, f)
        } else {
            round_scaled(other, b - a, f)
        }
    }
}

/// `t` is the square root of `n`, rounded down.
pub open spec fn is_isqrt(n: int, t: int) -> bool {
    t >= 0 && t * t <= n < (t + 1) * (t + 1)
}

/// The square root of `n`, rounded down.
pub open spec fn isqrt(n: int) -> int {
    choose|t: int| is_isqrt(n, t)
}

/// The square root of `m * 2^e` for a positive `m < 2^24`. The significand is first shifted
/// left to `N = m * 2^j` of 47 or 48 digits so that `e - j` is even; the result is the integer
/// nearest to the root of `N`, which never lies halfway between two integers.
pub open spec fn root_of(m: int, e: int) -> Single {
    let j0 = 47 - bits(m);
    let j = if (e - j0) % 2 == 0 {
        j0
    } else {
        j0 + 1
    };
    let n = m * pow2(j);
    let t = isqrt(n);
    packed(false, if n - t * t > t { t + 1 } else { t }, (e - j) / 2)
}

/// The square root of a value.
#[verifier::opaque]
pub open spec fn root(a: Single) -> Single {
    match a {
        Single::Nan => Single::Nan,
        Single::Infinite { neg } => if neg {
            Single::Nan
        } else {
            a
        },
        Single::Finite { neg, mant, exp } => if mant == 0 {
            a
        } else if neg {
            Single::Nan
        } else {
            root_of(mant as int, exp as int)
        },
    }
}

proof fn lemma_isqrt(n: int, t: int)
    requires
        t >= 0,
        t * t <= n < (t + 1) * (t + 1),
    ensures
        isqrt(n) == t,
{
    let u = isqrt(n);
    assert(is_isqrt(n, t));
    assert(is_isqrt(n, u));
    assert(u == t) by (nonlinear_arith)
        requires
            t >= 0,
            u >= 0,
            t * t <= n < (t + 1) * (t + 1),
            u * u <= n < (u + 1) * (u + 1),
    ;
}

fn integer_root(n: u64) -> (t: u64)
    requires
        n < 0x1_0000_0000_0000,
    ensures
        t == isqrt(n as int),
        t * t <= n < (t + 1) * (t + 1),
        t < 0x100_0000,
{
    let mut t: u64 = 0;
    let mut step: u64 = 0x80_0000;
    assert(n < (t + 2 * step) * (t + 2 * step)) by (nonlinear_arith)
        requires
            n < 0x1_0000_0000_0000,
            t == 0,
            step == 0x80_0000,
    ;
    while step > 0
        invariant
            n < 0x1_0000_0000_0000,
            t * t <= n,
            t <= 0x100_0000 - (if step == 0 { 1 } else { 2 * step as int }),
            step <= 0x80_0000,
            step > 0 ==> n < (t + 2 * step) * (t + 2 * step),
            step == 0 ==> n < (t + 1) * (t + 1),
            step > 1 ==> step % 2 == 0,
            step == 0x80_0000 || step == 0x40_0000 || step == 0x20_0000 || step == 0x10_0000
                || step == 0x8_0000 || step == 0x4_0000 || step == 0x2_0000 || step == 0x1_0000
                || step == 0x8000 || step == 0x4000 || step == 0x2000 || step == 0x1000
                || step == 0x800 || step == 0x400 || step == 0x200 || step == 0x100 || step == 0x80
                || step == 0x40 || step == 0x20 || step == 0x10 || step == 8 || step == 4
                || step == 2 || step == 1 || step == 0,
        decreases step,
    {
        let u: u64 = t + step;
        assert(u * u <= 0x100_0000 * 0x100_0000) by (nonlinear_arith)
            requires
                u <= 0x100_0000,
        ;
        if u * u <= n {
            t = u;
        }
        step = step / 2;
    }
    proof {
        lemma_isqrt(n as int, t as int);
    }
    t
}

fn sqrt_positive(m: u32, e: i32) -> (r: Single)
    requires
        0 < m < 0x100_0000,
        -149 <= e <= 104,
    ensures
        r == root_of(m as int, e as int),
        r.wf(),
{
    let b: i32 = bit_length(m as u64);
    let j0: i32 = 47 - b;
    let j: i32 = if (e + 1000 - j0) % 2 == 0 { j0 } else { j0 + 1 };
    proof {
        vstd::arithmetic::power2::lemma2_to64();
        vstd::arithmetic::power2::lemma2_to64_rest();
        lemma_bits(m as int);
        lemma_bits_le(m as int, 24);
        lemma_pow2_mul(b - 1, j as int);
        lemma_pow2_mul(b as int, j as int);
        lemma_pow2_le(46, b - 1 + j);
        lemma_pow2_le(b + j, 48);
        let p = pow2(j as int);
        assert(pow2(b - 1) * p <= m * p < pow2(b as int) * p) by (nonlinear_arith)
            requires
                pow2(b - 1) <= m < pow2(b as int),
                p > 0,
        ;
    }
    let n: u64 = shifted_left(m as u64, j);
    let t: u64 = integer_root(n);
    assert(t * t <= 0x100_0000 * 0x100_0000 && t >= 0x80_0000) by (nonlinear_arith)
        requires
            t < 0x100_0000,
            0x4000_0000_0000 <= n < (t + 1) * (t + 1),
    ;
    let u: u64 = if n - t * t > t { t + 1 } else { t };
    let half: i32 = (e + 1000 - j) / 2 - 500;
    assert(half == (e - j) / 2);
    pack(false, u, half)
}

impl Single {
    /// The sum.
    pub fn plus(self, other: Single) -> (r: Single)
        requires
            self.wf(),
            other.wf(),
        ensures
            r == sum(self, other),
            r.wf(),
    {
        proof {
            reveal(sum);
        }
        match (self, other) {
            (Single::Nan, _) => Single::Nan,
            (_, Single::Nan) => Single::Nan,
            (Single::Infinite { neg: n }, Single::Infinite { neg: o }) => {
                if n == o {
                    self
                } else {
                    Single::Nan
                }
            },
            (Single::Infinite { neg: _ }, _) => self,
            (_, Single::Infinite { neg: _ }) => other,
            (
                Single::Finite { neg: n, mant: m, exp: e },
                Single::Finite { neg: o, mant: w, exp: f },
            ) => {
                if e >= f {
                    add_ordered(n, m, e, o, w, f)
                } else {
                    add_ordered(o, w, f, n, m, e)
                }
            },
        }
    }

    /// The value with its sign changed.
    pub fn negate(self) -> (r: Single)
        requires
            self.wf(),
        ensures
            r == negated(self),
            r.wf(),
    {
        match self {
            Single::Nan => Single::Nan,
            Single::Infinite { neg } => Single::Infinite { neg: !neg },
            Single::Finite { neg, mant, exp } => Single::Finite { neg: !neg, mant, exp },
        }
    }

    /// The difference.
    pub fn minus(self, other: Single) -> (r: Single)
        requires
            self.wf(),
            other.wf(),
        ensures
            r == difference(self, other),
            r.wf(),
    {
        self.plus(other.negate())
    }

    /// The product.
    pub fn times(self, other: Single) -> (r: Single)
        requires
            self.wf(),
            other.wf(),
        ensures
            r == product(self, other),
            r.wf(),
    {
        proof {
            reveal(product);
        }
        match (self, other) {
            (Single::Nan, _) => Single::Nan,
            (_, Single::Nan) => Single::Nan,
            (Single::Infinite { neg: n }, Single::Infinite { neg: o }) => Single::Infinite {
                neg: n != o,
            },
            (Single::Infinite { neg: n }, Single::Finite { neg: o, mant: w, exp: _ }) => {
                if w == 0 {
                    Single::Nan
                } else {
                    Single::Infinite { neg: n != o }
                }
            },
            (Single::Finite { neg: n, mant: m, exp: _ }, Single::Infinite { neg: o }) => {
                if m == 0 {
                    Single::Nan
                } else {
                    Single::Infinite { neg: n != o }
                }
            },
            (
                Single::Finite { neg: n, mant: m, exp: e },
                Single::Finite { neg: o, mant: w, exp: f },
            ) => {
                assert(m * w < 0x1_0000_0000_0000) by (nonlinear_arith)
                    requires
                        0 <= m < 0x100_0000,
                        0 <= w < 0x100_0000,
                ;
                round_scaled(n != o, m as u64 * w as u64, e + f)
            },
        }
    }

    /// The quotient.
    pub fn over(self, other: Single) -> (r: Single)
        requires
            self.wf(),
            other.wf(),
        ensures
            r == quotient(self, other),
            r.wf(),
    {
        proof {
            reveal(quotient);
        }
        match (self, other) {
            (Single::Nan, _) => Single::Nan,
            (_, Single::Nan) => Single::Nan,
            (Single::Infinite { neg: _ }, Single::Infinite { neg: _ }) => Single::Nan,
            (Single::Infinite { neg: n }, Single::Finite { neg: o, mant: _, exp: _ }) => {
                Single::Infinite { neg: n != o }
            },
            (Single::Finite { neg: n, mant: _, exp: _ }, Single::Infinite { neg: o }) => {
                Single::Finite { neg: n != o, mant: 0, exp: -149 }
            },
            (
                Single::Finite { neg: n, mant: m, exp: e },
                Single::Finite { neg: o, mant: w, exp: f },
            ) => {
                if w == 0 {
                    if m == 0 {
                        Single::Nan
                    } else {
                        Single::Infinite { neg: n != o }
                    }
                } else if m == 0 {
                    Single::Finite { neg: n != o, mant: 0, exp: -149 }
                } else {
                    round_ratio(n != o, m, w, e - f)
                }
            },
        }
    }

    /// The square root.
    pub fn sqrt(self) -> (r: Single)
        requires
            self.wf(),
        ensures
            r == root(self),
            r.wf(),
    {
        proof {
            reveal(root);
        }
        match self {
            Single::Nan => Single::Nan,
            Single::Infinite { neg } => {
                if neg {
                    Single::Nan
                } else {
                    self
                }
            },
            Single::Finite { neg, mant, exp } => {
                if mant == 0 {
                    self
                } else if neg {
                    Single::Nan
                } else {
                    sqrt_positive(mant, exp)
                }
            },
        }
    }
}

/// `a` is less than `b`. No value is less than a value that is not a number, nor the reverse.
#[verifier::opaque]
pub open spec fn less(a: Single, b: Single) -> bool {
    match (a, b) {
        (Single::Nan, _) => false,
        (_, Single::Nan) => false,
        (Single::Infinite { neg: n }, Single::Infinite { neg: o }) => n && !o,
        (Single::Infinite { neg: n }, _) => n,
        (_, Single::Infinite { neg: o }) => !o,
        (
            Single::Finite { neg: n, mant: m, exp: e },
            Single::Finite { neg: o, mant: w, exp: f },
        ) => {
            let k = least(e as int, f as int);
            signed(n, m as int) * pow2(e - k) < signed(o, w as int) * pow2(f - k)
        },
    }
}

/// The smaller of two values; a value that is not a number counts for nothing.
pub open spec fn minimum(a: Single, b: Single) -> Single {
    if a is Nan {
        b
    } else if less(b, a) {
        b
    } else {
        a
    }
}

/// The larger of two values; a value that is not a number counts for nothing.
pub open spec fn maximum(a: Single, b: Single) -> Single {
    if a is Nan {
        b
    } else if less(a, b) {
        b
    } else {
        a
    }
}

/// The value limited to the range from `low` to `high`.
pub open spec fn clamped(a: Single, low: Single, high: Single) -> Single {
    if less(a, low) {
        low
    } else if less(high, a) {
        high
    } else {
        a
    }
}

/// The absolute value.
pub open spec fn magnitude(a: Single) -> Single {
    match a {
        Single::Nan => Single::Nan,
        Single::Infinite { neg } => Single::Infinite { neg: false },
        Single::Finite { neg, mant, exp } => Single::Finite { neg: false, mant, exp },
    }
}

/// The integer nearest to `mant * 2^exp`, a tie going up.
pub open spec fn nearest(mant: int, exp: int) -> int {
    if exp >= 0 {
        mant * pow2(exp)
    } else {
        (2 * mant + pow2(-exp)) / (2 * pow2(-exp))
    }
}

/// `mant * 2^exp` without its fraction.
pub open spec fn truncated(mant: int, exp: int) -> int {
    if exp >= 0 {
        mant * pow2(exp)
    } else {
        mant / pow2(-exp)
    }
}

pub open spec fn limited(v: int, low: int, high: int) -> int {
    if v < low {
        low
    } else if v > high {
        high
    } else {
        v
    }
}

/// The nearest integer, ties away from zero, limited to the range from `low` to `high`; 0 for a
/// value that is not a number.
#[verifier::opaque]
pub open spec fn nearest_within(a: Single, low: int, high: int) -> int {
    match a {
        Single::Nan => 0,
        Single::Infinite { neg } => if neg {
            low
        } else {
            high
        },
        Single::Finite { neg, mant, exp } => limited(
            signed(neg, nearest(mant as int, exp as int)),
            low,
            high,
        ),
    }
}

/// The value without its fraction, limited to the range from `low` to `high`; 0 for a value that
/// is not a number.
#[verifier::opaque]
pub open spec fn truncated_within(a: Single, low: int, high: int) -> int {
    match a {
        Single::Nan => 0,
        Single::Infinite { neg } => if neg {
            low
        } else {
            high
        },
        Single::Finite { neg, mant, exp } => limited(
            signed(neg, truncated(mant as int, exp as int)),
            low,
            high,
        ),
    }
}

/// The value nearest to the ratio of two integers.
#[verifier::opaque]
pub open spec fn ratio(n: int, d: int) -> Single {
    rounded(false, n, d, 0)
}

/// The value that the 32 bits of the binary32 interchange format stand for.
pub open spec fn from_pattern(b: int) -> Single {
    let neg = b >= 0x8000_0000;
    let field = (b % 0x8000_0000) / 0x80_0000;
    let fraction = b % 0x80_0000;
    if field == 255 {
        if fraction == 0 {
            Single::Infinite { neg }
        } else {
            Single::Nan
        }
    } else if field == 0 {
        Single::Finite { neg, mant: fraction as u32, exp: -149i32 }
    } else {
        Single::Finite { neg, mant: (fraction + 0x80_0000) as u32, exp: (field - 150) as i32 }
    }
}

/// The 32 bits of the binary32 interchange format.
pub open spec fn pattern(a: Single) -> int {
    match a {
        Single::Nan => 0x7fc0_0000,
        Single::Infinite { neg } => 0x7f80_0000 + (if neg { 0x8000_0000 } else { 0int }),
        Single::Finite { neg, mant, exp } => mant + (exp + 149) * 0x80_0000 + (if neg {
            0x8000_0000
        } else {
            0int
        }),
    }
}

/// A value is recovered from its bits.
pub proof fn law_pattern_round_trip(a: Single)
    requires
        a.wf(),
    ensures
        0 <= pattern(a) <= u32::MAX,
        from_pattern(pattern(a)) == a,
{
}

fn magnitude_less(m: u32, e: i32, w: u32, f: i32) -> (r: bool)
    requires
        (Single::Finite { neg: false, mant: m, exp: e }).wf(),
        (Single::Finite { neg: false, mant: w, exp: f }).wf(),
    ensures
        r == (m * pow2(e - least(e as int, f as int)) < w * pow2(f - least(e as int, f as int))),
{
    proof {
        vstd::arithmetic::power2::lemma2_to64();
        if e > f {
            vstd::arithmetic::power2::lemma_pow2_unfold((e - f) as nat);
            lemma_pow2_le(0, e - f - 1);
            let h = pow2(e - f - 1);
            assert(m * (2 * h) > w) by (nonlinear_arith)
                requires
                    h >= 1,
                    m >= 0x80_0000,
                    w < 0x100_0000,
            ;
            assert(w * 1 == w);
        } else if f > e {
            vstd::arithmetic::power2::lemma_pow2_unfold((f - e) as nat);
            lemma_pow2_le(0, f - e - 1);
            let h = pow2(f - e - 1);
            assert(w * (2 * h) > m) by (nonlinear_arith)
                requires
                    h >= 1,
                    w >= 0x80_0000,
                    m < 0x100_0000,
            ;
            assert(m * 1 == m);
        }
    }
    if e == f {
        m < w
    } else {
        e < f
    }
}

impl Single {
    /// The value nearest to an integer.
    pub fn from_u32(n: u32) -> (r: Single)
        ensures
            r == whole_number(n as int),
            r.wf(),
    {
        proof {
            reveal(whole_number);
        }
        round_scaled(false, n as u64, 0)
    }

    /// The value nearest to an integer.
    pub fn from_u64(n: u64) -> (r: Single)
        ensures
            r == whole_number(n as int),
            r.wf(),
    {
        proof {
            reveal(whole_number);
        }
        if n < 0x4000_0000_0000_0000 {
            return round_scaled(false, n, 0);
        }
        let quarter: u64 = n / 4;
        let m: u64 = if n % 4 != 0 && quarter % 2 == 0 { quarter + 1 } else { quarter };
        proof {
            lemma_quartered(n as int, m as int);
        }
        round_scaled(false, m, 2)
    }

    /// What is left of the value after taking away the other as often as it goes, with the sign of
    /// the value.
    pub fn rem(self, other: Single) -> (r: Single)
        requires
            self.wf(),
            other.wf(),
        ensures
            r == remainder(self, other),
            r.wf(),
    {
        proof {
            reveal(remainder);
        }
        match (self, other) {
            (Single::Nan, _) => Single::Nan,
            (_, Single::Nan) => Single::Nan,
            (Single::Infinite { neg: _ }, _) => Single::Nan,
            (_, Single::Infinite { neg: _ }) => self,
            (
                Single::Finite { neg: n, mant: m, exp: e },
                Single::Finite { neg: _, mant: w, exp: f },
            ) => {
                if w == 0 {
                    Single::Nan
                } else if e >= f {
                    let left: u64 = shifted_rem(m as u64, e - f, w as u64);
                    round_scaled(n, left, f)
                } else {
                    let left: u64 = rem_shifted(m as u64, w as u64, f - e);
                    round_scaled(n, left, e)
                }
            },
        }
    }

    /// The value nearest to the ratio of two integers.
    pub fn from_ratio(n: u32, d: u32) -> (r: Single)
        requires
            0 < n < 0x100_0000,
            0 < d < 0x100_0000,
        ensures
            r == ratio(n as int, d as int),
            r.wf(),
    {
        proof {
            reveal(ratio);
        }
        round_ratio(false, n, d, 0)
    }

    /// The value that the 32 bits of the binary32 interchange format stand for.
    pub fn from_bits(b: u32) -> (r: Single)
        ensures
            r == from_pattern(b as int),
            r.wf(),
    {
        let neg: bool = b >= 0x8000_0000;
        let field: u32 = (b % 0x8000_0000) / 0x80_0000;
        let fraction: u32 = b % 0x80_0000;
        if field == 255 {
            if fraction == 0 {
                Single::Infinite { neg }
            } else {
                Single::Nan
            }
        } else if field == 0 {
            Single::Finite { neg, mant: fraction, exp: -149 }
        } else {
            Single::Finite { neg, mant: fraction + 0x80_0000, exp: field as i32 - 150 }
        }
    }

    /// The 32 bits of the binary32 interchange format.
    pub fn to_bits(self) -> (b: u32)
        requires
            self.wf(),
        ensures
            b == pattern(self),
    {
        match self {
            Single::Nan => 0x7fc0_0000,
            Single::Infinite { neg } => {
                if neg {
                    0xff80_0000
                } else {
                    0x7f80_0000
                }
            },
            Single::Finite { neg, mant, exp } => {
                let low: u32 = mant + (exp + 149) as u32 * 0x80_0000;
                if neg {
                    low + 0x8000_0000
                } else {
                    low
                }
            },
        }
    }

    /// Whether the value is less than another.
    pub fn lt(self, other: Single) -> (r: bool)
        requires
            self.wf(),
            other.wf(),
        ensures
            r == less(self, other),
    {
        proof {
            reveal(less);
        }
        match (self, other) {
            (Single::Nan, _) => false,
            (_, Single::Nan) => false,
            (Single::Infinite { neg: n }, Single::Infinite { neg: o }) => n && !o,
            (Single::Infinite { neg: n }, _) => n,
            (_, Single::Infinite { neg: o }) => !o,
            (
                Single::Finite { neg: n, mant: m, exp: e },
                Single::Finite { neg: o, mant: w, exp: f },
            ) => {
                proof {
                    let k = least(e as int, f as int);
                    lemma_signed(n, m as int, e - k);
                    lemma_signed(o, w as int, f - k);
                    lemma_pow2_le(0, e - k);
                    lemma_pow2_le(0, f - k);
                    assert(m > 0 ==> m * pow2(e - k) > 0) by (nonlinear_arith)
                        requires
                            pow2(e - k) > 0,
                    ;
                    assert(w > 0 ==> w * pow2(f - k) > 0) by (nonlinear_arith)
                        requires
                            pow2(f - k) > 0,
                    ;
                }
                if n {
                    if o {
                        magnitude_less(w, f, m, e)
                    } else {
                        m != 0 || w != 0
                    }
                } else if o {
                    false
                } else {
                    magnitude_less(m, e, w, f)
                }
            },
        }
    }

    /// The smaller of two values.
    pub fn min(self, other: Single) -> (r: Single)
        requires
            self.wf(),
            other.wf(),
        ensures
            r == minimum(self, other),
            r.wf(),
    {
        if let Single::Nan = self {
            other
        } else if other.lt(self) {
            other
        } else {
            self
        }
    }

    /// The larger of two values.
    pub fn max(self, other: Single) -> (r: Single)
        requires
            self.wf(),
            other.wf(),
        ensures
            r == maximum(self, other),
            r.wf(),
    {
        if let Single::Nan = self {
            other
        } else if self.lt(other) {
            other
        } else {
            self
        }
    }

    /// The value limited to a range.
    pub fn clamp(self, low: Single, high: Single) -> (r: Single)
        requires
            self.wf(),
            low.wf(),
            high.wf(),
        ensures
            r == clamped(self, low, high),
            r.wf(),
    {
        if self.lt(low) {
            low
        } else if high.lt(self) {
            high
        } else {
            self
        }
    }

    /// The absolute value.
    pub fn abs(self) -> (r: Single)
        requires
            self.wf(),
        ensures
            r == magnitude(self),
            r.wf(),
    {
        match self {
            Single::Nan => Single::Nan,
            Single::Infinite { neg: _ } => Single::Infinite { neg: false },
            Single::Finite { neg: _, mant, exp } => Single::Finite { neg: false, mant, exp },
        }
    }

    /// The nearest integer, ties away from zero, within the range of the type.
    pub fn round_i32(self) -> (r: i32)
        requires
            self.wf(),
        ensures
            r == nearest_within(self, i32::MIN as int, i32::MAX as int),
    {
        proof {
            reveal(nearest_within);
        }
        match self {
            Single::Nan => 0,
            Single::Infinite { neg } => {
                if neg {
                    i32::MIN
                } else {
                    i32::MAX
                }
            },
            Single::Finite { neg, mant, exp } => {
                let v: u64 = nearest_magnitude(mant, exp);
                if neg {
                    if v >= 0x8000_0000 {
                        i32::MIN
                    } else {
                        -(v as i32)
                    }
                } else if v >= 0x7fff_ffff {
                    i32::MAX
                } else {
                    v as i32
                }
            },
        }
    }

    /// The nearest integer, ties away from zero, within the range of the type.
    pub fn round_u32(self) -> (r: u32)
        requires
            self.wf(),
        ensures
            r == nearest_within(self, 0, u32::MAX as int),
    {
        proof {
            reveal(nearest_within);
        }
        match self {
            Single::Nan => 0,
            Single::Infinite { neg } => {
                if neg {
                    0
                } else {
                    u32::MAX
                }
            },
            Single::Finite { neg, mant, exp } => {
                let v: u64 = nearest_magnitude(mant, exp);
                if neg {
                    0
                } else if v >= 0xffff_ffff {
                    u32::MAX
                } else {
                    v as u32
                }
            },
        }
    }

    /// The nearest integer, ties away from zero, within the range of the type.
    pub fn round_u64(self) -> (r: u64)
        requires
            self.wf(),
        ensures
            r == nearest_within(self, 0, u64::MAX as int),
    {
        proof {
            reveal(nearest_within);
            vstd::arithmetic::power2::lemma2_to64();
            vstd::arithmetic::power2::lemma2_to64_rest();
        }
        match self {
            Single::Nan => 0,
            Single::Infinite { neg } => {
                if neg {
                    0
                } else {
                    u64::MAX
                }
            },
            Single::Finite { neg, mant, exp } => {
                if exp < 8 {
                    let v: u64 = nearest_magnitude(mant, exp);
                    proof {
                        if exp >= 0 {
                            lemma_pow2_le(exp as int, 7);
                            assert(mant * pow2(exp as int) <= 0xFF_FFFF * 128) by (nonlinear_arith)
                                requires
                                    0 <= mant <= 0xFF_FFFF,
                                    0 <= pow2(exp as int) <= 128,
                            ;
                        } else {
                            let p = pow2(-exp as int);
                            lemma_pow2_le(0, -exp as int);
                            assert((2 * mant + p) / (2 * p) <= mant + 1) by (nonlinear_arith)
                                requires
                                    p >= 1,
                                    mant >= 0,
                            ;
                        }
                    }
                    if neg {
                        0
                    } else {
                        v
                    }
                } else {
                    proof {
                        let p = pow2(exp as int);
                        if exp > 40 {
                            lemma_pow2_le(41, exp as int);
                            assert(mant * p >= 0x80_0000 * 0x200_0000_0000) by (nonlinear_arith)
                                requires
                                    mant >= 0x80_0000,
                                    p >= 0x200_0000_0000,
                            ;
                        } else {
                            lemma_pow2_le(exp as int, 40);
                            assert(0 <= mant * p <= 0xFF_FFFF * 0x100_0000_0000)
                                by (nonlinear_arith)
                                requires
                                    0 <= mant <= 0xFF_FFFF,
                                    0 < p <= 0x100_0000_0000,
                            ;
                        }
                    }
                    if neg {
                        0
                    } else if exp > 40 {
                        u64::MAX
                    } else {
                        shifted_left(mant as u64, exp)
                    }
                }
            },
        }
    }

    /// The value without its fraction, within the range of the type.
    pub fn trunc_u32(self) -> (r: u32)
        requires
            self.wf(),
        ensures
            r == truncated_within(self, 0, u32::MAX as int),
    {
        proof {
            reveal(truncated_within);
        }
        match self {
            Single::Nan => 0,
            Single::Infinite { neg } => {
                if neg {
                    0
                } else {
                    u32::MAX
                }
            },
            Single::Finite { neg, mant, exp } => {
                let v: u64 = truncated_magnitude(mant, exp);
                if neg {
                    0
                } else if v >= 0xffff_ffff {
                    u32::MAX
                } else {
                    v as u32
                }
            },
        }
    }

    /// The value without its fraction, within the range of the type.
    pub fn trunc_u8(self) -> (r: u8)
        requires
            self.wf(),
        ensures
            r == truncated_within(self, 0, 255),
    {
        proof {
            reveal(truncated_within);
        }
        let v: u32 = self.trunc_u32();
        if v > 255 {
            255
        } else {
            v as u8
        }
    }
}

/// `mant * 2^exp` for `exp >= 0`, with everything from `2^32` up made `2^32`.
fn whole(mant: u32, exp: i32) -> (v: u64)
    requires
        mant < 0x100_0000,
        0 <= exp <= 104,
        mant >= 0x80_0000,
    ensures
        v == limited(mant * pow2(exp as int), 0, 0x1_0000_0000),
        mant * pow2(exp as int) >= 0,
{
    proof {
        vstd::arithmetic::power2::lemma2_to64();
    }
    if exp >= 9 {
        proof {
            lemma_pow2_le(9, exp as int);
            assert(mant * pow2(exp as int) >= 0x1_0000_0000) by (nonlinear_arith)
                requires
                    mant >= 0x80_0000,
                    pow2(exp as int) >= 0x200,
            ;
        }
        0x1_0000_0000
    } else {
        proof {
            lemma_pow2_le(exp as int, 8);
            assert(0 <= mant * pow2(exp as int) <= 0x1_0000_0000) by (nonlinear_arith)
                requires
                    0 <= mant < 0x100_0000,
                    0 < pow2(exp as int) <= 0x100,
            ;
        }
        shifted_left(mant as u64, exp)
    }
}

fn nearest_magnitude(mant: u32, exp: i32) -> (v: u64)
    requires
        (Single::Finite { neg: false, mant, exp }).wf(),
    ensures
        v == limited(nearest(mant as int, exp as int), 0, 0x1_0000_0000),
        nearest(mant as int, exp as int) >= 0,
{
    if exp >= 0 {
        return whole(mant, exp);
    }
    let s: i32 = -exp;
    proof {
        vstd::arithmetic::power2::lemma2_to64();
        let p = pow2(s as int);
        if s >= 25 {
            lemma_pow2_le(25, s as int);
            assert((2 * mant + p) / (2 * p) == 0) by (nonlinear_arith)
                requires
                    0 <= 2 * mant < p,
            ;
        } else {
            lemma_pow2_le(s as int, 24);
            assert(0 <= (2 * mant + p) / (2 * p) <= 2 * mant + p) by (nonlinear_arith)
                requires
                    p > 0,
                    mant >= 0,
            ;
        }
    }
    if s >= 25 {
        0
    } else {
        let p: u64 = shifted_left(1, s);
        (2 * mant as u64 + p) / (2 * p)
    }
}

fn truncated_magnitude(mant: u32, exp: i32) -> (v: u64)
    requires
        (Single::Finite { neg: false, mant, exp }).wf(),
    ensures
        v == limited(truncated(mant as int, exp as int), 0, 0x1_0000_0000),
        truncated(mant as int, exp as int) >= 0,
{
    if exp >= 0 {
        return whole(mant, exp);
    }
    let s: i32 = -exp;
    proof {
        vstd::arithmetic::power2::lemma2_to64();
        let p = pow2(s as int);
        if s >= 24 {
            lemma_pow2_le(24, s as int);
            assert(mant as int / p == 0) by (nonlinear_arith)
                requires
                    0 <= mant < p,
            ;
        } else {
            lemma_pow2_le(s as int, 24);
            assert(0 <= mant as int / p <= mant) by (nonlinear_arith)
                requires
                    p > 0,
                    mant >= 0,
            ;
        }
    }
    if s >= 24 {
        0
    } else {
        let p: u64 = shifted_left(1, s);
        mant as u64 / p
    }
}

/// The exact value of a finite value, in units of `2^-149`.
pub open spec fn units(a: Single) -> int {
    match a {
        Single::Finite { neg, mant, exp } => signed(neg, mant as int) * pow2(exp + 149),
        _ => 0,
    }
}

/// The value is finite and equal to `v * 2^k`.
pub open spec fn is_exactly(a: Single, v: int, k: int) -> bool {
    a is Finite && a.wf() && units(a) == v * pow2(k + 149)
}

/// The value of an integer.
#[verifier::opaque]
pub open spec fn whole_number(n: int) -> Single {
    rounded(false, n, 1, 0)
}

proof fn lemma_bits_shift(n: int, j: int)
    requires
        n > 0,
        j >= 0,
    ensures
        bits(n * pow2(j)) == bits(n) + j,
        n * pow2(j) > 0,
{
    lemma_bits(n);
    lemma_pow2_mul(bits(n) - 1, j);
    lemma_pow2_mul(bits(n), j);
    let p = pow2(j);
    assert(pow2(bits(n) - 1) * p <= n * p < pow2(bits(n)) * p && n * p > 0) by (nonlinear_arith)
        requires
            pow2(bits(n) - 1) <= n < pow2(bits(n)),
            p > 0,
            n > 0,
    ;
    lemma_bits_unique(n * p, bits(n) + j);
}

/// `packed` keeps the value.
proof fn lemma_packed_units(neg: bool, m: int, e: int)
    requires
        0 <= m <= 0x100_0000,
        -149 <= e <= 103,
        m >= 0x80_0000 || e == -149,
    ensures
        packed(neg, m, e) is Finite,
        packed(neg, m, e).wf(),
        units(packed(neg, m, e)) == signed(neg, m) * pow2(e + 149),
{
    if m == 0x100_0000 {
        vstd::arithmetic::power2::lemma_pow2_unfold((e + 150) as nat);
        let p = pow2(e + 149);
        assert(0x80_0000 * (2 * p) == 0x100_0000 * p) by (nonlinear_arith);
        assert((-0x80_0000) * (2 * p) == (-0x100_0000) * p) by (nonlinear_arith);
    }
}

/// Rounding leaves a value alone that has a significand of 24 binary digits at most.
pub proof fn lemma_rounded_exact(neg: bool, n: int, l: int, v: int, k: int)
    requires
        0 < n,
        0 < v < 0x100_0000,
        -149 <= k <= 80,
        -149 <= l,
        n * pow2(l + 149) == v * pow2(k + 149),
    ensures
        is_exactly(rounded(neg, n, 1, l), signed(neg, v), k),
{
    vstd::arithmetic::power2::lemma2_to64();
    lemma_kept(n, 1, l);
    assert(n / 1 == n);
    lemma_bits_le(v, 24);
    let e = last_place(n, 1, l);
    assert(exponent(n, 1) == bits(n) - 1);
    let m = if l >= e {
        half_even(n * pow2(l - e), 1)
    } else {
        half_even(n, 1 * pow2(e - l))
    };
    assert(m * pow2(e + 149) == v * pow2(k + 149) && e <= k + 23) by {
        if l <= k {
            let j = k - l;
            lemma_pow2_mul(j, l + 149);
            let p = pow2(l + 149);
            let q = pow2(j);
            assert(n == v * q) by (nonlinear_arith)
                requires
                    n * p == v * (q * p),
                    p > 0,
            ;
            lemma_bits_shift(v, j);
            assert(e <= k);
            if l >= e {
                lemma_pow2_mul(l - e, e + 149);
                let a = pow2(l - e);
                let b = pow2(e + 149);
                assert(m == n * a) by {
                    assert((n * a) / 1 == n * a && (n * a) % 1 == 0);
                }
                assert((n * a) * b == n * (a * b)) by (nonlinear_arith);
            } else {
                lemma_pow2_mul(k - e, e - l);
                let a = pow2(k - e);
                let b = pow2(e - l);
                assert(n == (v * a) * b + 0) by (nonlinear_arith)
                    requires
                        n == v * q,
                        q == a * b,
                ;
                lemma_half_even_at(n, b, v * a, 0);
                assert(m == v * a);
                lemma_pow2_mul(k - e, e + 149);
                assert((v * a) * pow2(e + 149) == v * (a * pow2(e + 149))) by (nonlinear_arith);
            }
        } else {
            let j = l - k;
            lemma_pow2_mul(j, k + 149);
            let p = pow2(k + 149);
            let q = pow2(j);
            assert(v == n * q) by (nonlinear_arith)
                requires
                    n * (q * p) == v * p,
                    p > 0,
            ;
            lemma_bits_shift(n, j);
            lemma_bits(n);
            assert(e <= l);
            assert(l <= k + 23);
            lemma_pow2_mul(l - e, e + 149);
            let a = pow2(l - e);
            let b = pow2(e + 149);
            assert(m == n * a) by {
                assert((n * a) / 1 == n * a && (n * a) % 1 == 0);
            }
            assert((n * a) * b == n * (a * b)) by (nonlinear_arith);
        }
    }
    let num = if l >= e { n * pow2(l - e) } else { n };
    let den = if l >= e { 1 } else { 1 * pow2(e - l) };
    lemma_half_even_bounds(num, den, 0x100_0000);
    lemma_half_even_bounds(num, den, 0x80_0000);
    lemma_packed_units(neg, m, e);
    assert((-m) * pow2(e + 149) == -(m * pow2(e + 149))) by (nonlinear_arith);
    assert((-v) * pow2(k + 149) == -(v * pow2(k + 149))) by (nonlinear_arith);
}

/// Small integers are exact.
pub proof fn lemma_whole_number(n: int, k: int)
    requires
        0 <= n < 0x100_0000,
        -149 <= k <= 0,
        n * pow2(-k) < 0x100_0000,
    ensures
        is_exactly(whole_number(n), n * pow2(-k), k),
{
    reveal(whole_number);
    lemma_pow2_mul(-k, k + 149);
    let p = pow2(-k);
    let q = pow2(k + 149);
    assert((n * p) * q == n * (p * q)) by (nonlinear_arith);
    if n > 0 {
        assert(n * p > 0) by (nonlinear_arith)
            requires
                n > 0,
                p > 0,
        ;
        lemma_rounded_exact(false, n, 0, n * p, k);
    } else {
        assert(0 * p == 0);
        assert(0 * q == 0);
        assert(0 * pow2(0) == 0);
    }
}

/// A sum that has a significand of 24 binary digits at most is exact.
pub proof fn lemma_sum_exact(a: Single, v: int, b: Single, w: int, k: int)
    requires
        is_exactly(a, v, k),
        is_exactly(b, w, k),
        -149 <= k <= 80,
        -0x100_0000 < v + w < 0x100_0000,
    ensures
        is_exactly(sum(a, b), v + w, k),
{
    reveal(sum);
    match (a, b) {
        (
            Single::Finite { neg: n, mant: m, exp: e },
            Single::Finite { neg: o, mant: x, exp: f },
        ) => {
            let l = least(e as int, f as int);
            let t = exact_sum(n, m as int, e as int, o, x as int, f as int);
            lemma_pow2_mul(e - l, l + 149);
            lemma_pow2_mul(f - l, l + 149);
            lemma_pow2_le(0, k + 149);
            let p = pow2(l + 149);
            let q = pow2(k + 149);
            let sm = signed(n, m as int);
            let sx = signed(o, x as int);
            assert((sm * pow2(e - l) + sx * pow2(f - l)) * p == sm * (pow2(e - l) * p) + sx * (pow2(
                f - l,
            ) * p)) by (nonlinear_arith);
            assert((v + w) * q == v * q + w * q) by (nonlinear_arith);
            assert(t * p == (v + w) * q);
            if t == 0 {
                assert(v + w == 0) by (nonlinear_arith)
                    requires
                        0 * p == (v + w) * q,
                        q > 0,
                ;
                assert(0 * pow2(0) == 0);
                assert(0 * q == 0);
            } else if t > 0 {
                assert(v + w > 0) by (nonlinear_arith)
                    requires
                        t * p == (v + w) * q,
                        t > 0,
                        p > 0,
                        q > 0,
                ;
                lemma_rounded_exact(false, t, l, v + w, k);
            } else {
                assert(v + w < 0) by (nonlinear_arith)
                    requires
                        t * p == (v + w) * q,
                        t < 0,
                        p > 0,
                        q > 0,
                ;
                assert((-t) * p == (-(v + w)) * q) by (nonlinear_arith)
                    requires
                        t * p == (v + w) * q,
                ;
                lemma_rounded_exact(true, -t, l, -(v + w), k);
            }
        },
        _ => {},
    }
}

/// A difference that has a significand of 24 binary digits at most is exact.
pub proof fn lemma_difference_exact(a: Single, v: int, b: Single, w: int, k: int)
    requires
        is_exactly(a, v, k),
        is_exactly(b, w, k),
        -149 <= k <= 80,
        -0x100_0000 < v - w < 0x100_0000,
    ensures
        is_exactly(difference(a, b), v - w, k),
{
    match b {
        Single::Finite { neg, mant, exp } => {
            let p = pow2(exp + 149);
            assert((-mant) * p == -(mant * p)) by (nonlinear_arith);
            assert((-w) * pow2(k + 149) == -(w * pow2(k + 149))) by (nonlinear_arith);
        },
        _ => {},
    }
    lemma_sum_exact(a, v, negated(b), -w, k);
}

/// The order of exact values.
pub proof fn lemma_less_units(a: Single, v: int, b: Single, w: int, k: int)
    requires
        is_exactly(a, v, k),
        is_exactly(b, w, k),
        -149 <= k,
    ensures
        less(a, b) == (v < w),
{
    reveal(less);
    match (a, b) {
        (
            Single::Finite { neg: n, mant: m, exp: e },
            Single::Finite { neg: o, mant: x, exp: f },
        ) => {
            let l = least(e as int, f as int);
            lemma_pow2_mul(e - l, l + 149);
            lemma_pow2_mul(f - l, l + 149);
            lemma_pow2_le(0, k + 149);
            let p = pow2(l + 149);
            let q = pow2(k + 149);
            let s = signed(n, m as int) * pow2(e - l);
            let t = signed(o, x as int) * pow2(f - l);
            assert(s * p == signed(n, m as int) * (pow2(e - l) * p)) by (nonlinear_arith)
                requires
                    s == signed(n, m as int) * pow2(e - l),
            ;
            assert(t * p == signed(o, x as int) * (pow2(f - l) * p)) by (nonlinear_arith)
                requires
                    t == signed(o, x as int) * pow2(f - l),
            ;
            assert((s < t) == (v < w)) by (nonlinear_arith)
                requires
                    s * p == v * q,
                    t * p == w * q,
                    p > 0,
                    q > 0,
            ;
        },
        _ => {},
    }
}

/// The integer part of an exact value.
pub proof fn lemma_truncated_units(a: Single, v: int, k: int)
    requires
        is_exactly(a, v, k),
        v >= 0,
        -149 <= k <= 0,
    ensures
        truncated_within(a, 0, 255) == limited(v / pow2(-k), 0, 255),
{
    reveal(truncated_within);
    match a {
        Single::Finite { neg, mant, exp } => {
            lemma_pow2_le(0, exp + 149);
            lemma_pow2_mul(-k, k + 149);
            let p = pow2(exp + 149);
            let q = pow2(k + 149);
            let d = pow2(-k);
            assert(mant > 0 ==> (-mant) * p < 0) by (nonlinear_arith)
                requires
                    p > 0,
            ;
            assert(v * q >= 0) by (nonlinear_arith)
                requires
                    v >= 0,
                    q > 0,
            ;
            assert(mant * p == v * q);
            let t = truncated(mant as int, exp as int);
            let unit = pow2(149);
            // the integer part is the same in either form
            if exp >= 0 {
                lemma_pow2_mul(exp as int, 149);
                let w = pow2(exp as int);
                assert((mant * w) * (d * q) == v * q) by (nonlinear_arith)
                    requires
                        mant * p == v * q,
                        p == w * (d * q),
                ;
                assert(v == (mant * w) * d) by (nonlinear_arith)
                    requires
                        (mant * w) * (d * q) == v * q,
                        q > 0,
                ;
                assert(v / d == mant * w) by {
                    vstd::arithmetic::div_mod::lemma_div_multiples_vanish(mant * w, d);
                    assert((mant * w) * d == d * (mant * w)) by (nonlinear_arith);
                }
            } else {
                lemma_pow2_mul(-exp, exp + 149);
                let w = pow2(-exp);
                // mant * p == v * q, w * p == d * q
                let x = mant as int / w;
                let y = v / d;
                assert(x * w <= mant < x * w + w) by (nonlinear_arith)
                    requires
                        x == mant as int / w,
                        w > 0,
                ;
                assert(y * d <= v < y * d + d) by (nonlinear_arith)
                    requires
                        y == v / d,
                        d > 0,
                ;
                assert(x == y) by (nonlinear_arith)
                    requires
                        mant * p == v * q,
                        w * p == d * q,
                        x * w <= mant < x * w + w,
                        y * d <= v < y * d + d,
                        p > 0,
                        q > 0,
                        d > 0,
                        w > 0,
                ;
            }
        },
        _ => {},
    }
}

/// A product that has a significand of 24 binary digits at most is exact.
pub proof fn lemma_product_exact(a: Single, b: Single, v: int, k: int)
    requires
        a is Finite,
        b is Finite,
        -149 <= k <= 80,
        -0x100_0000 < v < 0x100_0000,
        ({
            let l = a->exp + b->exp;
            &&& l >= -149
            &&& signed(a->Finite_neg != b->Finite_neg, a->mant * b->mant) * pow2(l + 149) == v
                * pow2(k + 149)
        }),
    ensures
        is_exactly(product(a, b), v, k),
{
    reveal(product);
    let l = a->exp + b->exp;
    let neg = a->Finite_neg != b->Finite_neg;
    let n = a->mant * b->mant;
    let p = pow2(l + 149);
    let q = pow2(k + 149);
    lemma_pow2_le(0, l + 149);
    lemma_pow2_le(0, k + 149);
    assert(n >= 0) by (nonlinear_arith)
        requires
            n == a->mant * b->mant,
            a->mant >= 0,
            b->mant >= 0,
    ;
    if n == 0 {
        assert(signed(neg, n) == 0);
        assert(0 * p == 0);
        assert(v == 0) by (nonlinear_arith)
            requires
                v * q == 0,
                q > 0,
        ;
        assert(0 * pow2(0) == 0);
        assert(0 * q == 0);
    } else {
        let w = signed(neg, v);
        assert(n * p == w * q) by (nonlinear_arith)
            requires
                signed(neg, n) * p == v * q,
                w == signed(neg, v),
                neg ==> signed(neg, n) == -n && w == -v,
                !neg ==> signed(neg, n) == n && w == v,
        ;
        assert(w > 0) by (nonlinear_arith)
            requires
                n * p == w * q,
                n > 0,
                p > 0,
                q > 0,
        ;
        lemma_rounded_exact(neg, n, l, w, k);
    }
}

/// The product of exact values is exact if it has 24 binary digits at most.
pub proof fn lemma_product_units(a: Single, v: int, k: int, b: Single, w: int, l: int)
    requires
        is_exactly(a, v, k),
        is_exactly(b, w, l),
        -40 <= k <= 0,
        -40 <= l <= 0,
        0 <= v,
        0 <= w,
        v * w < 0x100_0000,
    ensures
        is_exactly(product(a, b), v * w, k + l),
{
    lemma_zero(a);
    lemma_zero(b);
    assert(0 * pow2(149) == 0);
    assert(0 * pow2(k + l + 149) == 0);
    if a->mant == 0 || b->mant == 0 {
        lemma_exact_zero(a, v, k);
        lemma_exact_zero(b, w, l);
        if a->mant == 0 {
            lemma_zero_arithmetic(a, b);
        } else {
            lemma_zero_arithmetic(b, a);
        }
        assert(v * w == 0) by (nonlinear_arith)
            requires
                v == 0 || w == 0,
        ;
    } else {
        lemma_exact_exponent(a, v, k);
        lemma_exact_exponent(b, w, l);
        let e = a->exp as int;
        let f = b->exp as int;
        let m = a->mant as int;
        let n = b->mant as int;
        lemma_pow2_mul(e + f + 149, 149);
        lemma_pow2_mul(e + 149, f + 149);
        lemma_pow2_mul(k + l + 149, 149);
        lemma_pow2_mul(k + 149, l + 149);
        lemma_pow2_le(0, 149);
        let (x, y) = (pow2(e + 149), pow2(f + 149));
        let (r, s) = (pow2(k + 149), pow2(l + 149));
        let (g, h) = (pow2(e + f + 149), pow2(k + l + 149));
        let q = pow2(149);
        assert((m * n) * (x * y) == (m * x) * (n * y)) by (nonlinear_arith);
        assert((v * w) * (r * s) == (v * r) * (w * s)) by (nonlinear_arith);
        lemma_cancel(m * n, g, v * w, h, q);
        assert(0 <= v * w) by (nonlinear_arith)
            requires
                0 <= v,
                0 <= w,
        ;
        lemma_product_exact(a, b, v * w, k + l);
    }
}

/// A common factor of two products can be left out.
proof fn lemma_cancel(a: int, g: int, b: int, h: int, q: int)
    by (nonlinear_arith)
    requires
        a * (g * q) == b * (h * q),
        q > 0,
    ensures
        a * g == b * h,
{
}

/// What is exactly 0 times something has significand 0, and the other way round.
proof fn lemma_exact_zero(a: Single, v: int, k: int)
    requires
        is_exactly(a, v, k),
        -149 <= k,
    ensures
        v == 0 <==> a->mant == 0,
{
    let p = pow2(a->exp + 149);
    let q = pow2(k + 149);
    lemma_pow2_le(0, a->exp + 149);
    lemma_pow2_le(0, k + 149);
    let m = signed(a->Finite_neg, a->mant as int);
    assert(m == 0 <==> v == 0) by (nonlinear_arith)
        requires
            m * p == v * q,
            p > 0,
            q > 0,
    ;
}

/// The exponent and the sign of an exact positive value.
proof fn lemma_exact_exponent(a: Single, v: int, k: int)
    requires
        is_exactly(a, v, k),
        -100 <= k,
        0 <= v,
        a->mant != 0,
    ensures
        a->exp > k - 24,
        !a->Finite_neg,
{
    let p = pow2(a->exp + 149);
    let q = pow2(k + 149);
    lemma_pow2_le(0, a->exp + 149);
    lemma_pow2_le(0, k + 149);
    let m = signed(a->Finite_neg, a->mant as int);
    lemma_exact_zero(a, v, k);
    assert(m > 0) by (nonlinear_arith)
        requires
            m * p == v * q,
            v > 0,
            p > 0,
            q > 0,
    ;
    if a->exp <= k - 24 {
        lemma_pow2_mul(24, k + 125);
        lemma_pow2_le(a->exp + 149, k + 125);
        vstd::arithmetic::power2::lemma2_to64();
        let r = pow2(k + 125);
        assert(false) by (nonlinear_arith)
            requires
                m * p == v * q,
                1 <= v,
                0 < m < 0x100_0000,
                0 < p <= r,
                q == 0x100_0000 * r,
        ;
    }
}

/// An integer that is not zero has a last place that is not too fine.
pub proof fn lemma_integer_exponent(a: Single, v: int)
    requires
        is_exactly(a, v, 0),
    ensures
        a->mant != 0 ==> a->exp >= -30,
        a->mant == 0 ==> v == 0,
{
    vstd::arithmetic::power2::lemma2_to64();
    match a {
        Single::Finite { neg, mant, exp } => {
            lemma_pow2_le(0, exp + 149);
            lemma_pow2_le(0, 149);
            let p = pow2(exp + 149);
            let q = pow2(149);
            if mant == 0 {
                assert(0 * p == 0);
                assert(v == 0) by (nonlinear_arith)
                    requires
                        v * q == 0,
                        q > 0,
                ;
            } else if exp < -30 {
                lemma_pow2_mul(-exp, exp + 149);
                lemma_pow2_le(31, -exp);
                let w = pow2(-exp);
                assert(mant * p < w * p) by (nonlinear_arith)
                    requires
                        0 < mant < 0x100_0000,
                        w >= 0x8000_0000,
                        p > 0,
                ;
                assert((-mant) * p == -(mant * p)) by (nonlinear_arith);
                assert(mant * p > 0) by (nonlinear_arith)
                    requires
                        mant > 0,
                        p > 0,
                ;
                assert(false) by (nonlinear_arith)
                    requires
                        v * q == mant * p || v * q == -(mant * p),
                        0 < mant * p < q,
                ;
            }
        },
        _ => {},
    }
}

/// Dividing an integer by a power of two is exact.
pub proof fn lemma_quotient_power(a: Single, v: int, j: int)
    requires
        is_exactly(a, v, 0),
        -0x8000 < v < 0x8000,
        0 <= j <= 6,
    ensures
        is_exactly(quotient(a, whole_number(pow2(j))), v, -j),
{
    reveal(quotient);
    vstd::arithmetic::power2::lemma2_to64();
    vstd::arithmetic::power2::lemma2_to64_rest();
    lemma_power_of_two(j);
    let b = whole_number(pow2(j));
    assert(b == (Single::Finite { neg: false, mant: 0x80_0000, exp: (j - 23) as i32 }));
    match a {
        Single::Finite { neg, mant, exp } => {
            lemma_pow2_le(0, exp + 149);
            let p = pow2(exp + 149);
            let q = pow2(149);
            lemma_pow2_le(0, 149);
            if mant == 0 {
                assert(0 * p == 0);
                assert(v == 0) by (nonlinear_arith)
                    requires
                        v * q == 0,
                        q > 0,
                ;
                assert(0 * pow2(0) == 0);
                assert(0 * pow2(-j + 149) == 0);
            } else {
                lemma_integer_exponent(a, v);
                let k = exp - (j - 23);
                assert(mant as int / 0x80_0000 == 1);
                assert(bits(1) == 1) by {
                    assert(bits(0) == 0);
                }
                assert(exponent(mant as int, 0x80_0000) == 0);
                assert(last_place(mant as int, 0x80_0000, k) == exp - j);
                lemma_half_even_at(mant * pow2(23), 0x80_0000, mant as int, 0);
                assert(quotient(a, b) == (Single::Finite { neg, mant, exp: (exp - j) as i32 }));
                lemma_pow2_mul(j, exp - j + 149);
                lemma_pow2_mul(j, -j + 149);
                let s = signed(neg, mant as int);
                let x = pow2(exp - j + 149);
                let y = pow2(-j + 149);
                let z = pow2(j);
                assert(s * x == v * y) by (nonlinear_arith)
                    requires
                        s * (z * x) == v * (z * y),
                        z > 0,
                ;
            }
        },
        _ => {},
    }
}

/// Small powers of two.
pub proof fn lemma_power_of_two(j: int)
    requires
        0 <= j <= 6,
    ensures
        whole_number(pow2(j)) == (Single::Finite {
            neg: false,
            mant: 0x80_0000,
            exp: (j - 23) as i32,
        }),
        ratio(1, pow2(j)) == (Single::Finite { neg: false, mant: 0x80_0000, exp: (-j - 23) as i32 }),
{
    reveal(whole_number);
    reveal(ratio);
    vstd::arithmetic::power2::lemma2_to64();
    let n = pow2(j);
    lemma_pow2_le(0, j);
    vstd::arithmetic::power2::lemma_pow2_unfold((j + 1) as nat);
    lemma_bits_unique(n, j + 1);
    assert(n / 1 == n);
    // the integer
    assert(last_place(n, 1, 0) == j - 23);
    lemma_pow2_mul(j, 23 - j);
    assert(half_even(n * pow2(23 - j), 1) == 0x80_0000) by {
        assert(0x80_0000int / 1 == 0x80_0000int);
        assert(0x80_0000int % 1 == 0);
    }
    // its inverse
    if j == 0 {
        assert(exponent(1, 1) == 0);
    } else {
        assert((n - 1) / 1 == n - 1);
        vstd::arithmetic::power2::lemma_pow2_unfold(j as nat);
        lemma_pow2_le(0, j - 1);
        lemma_bits_unique(n - 1, j);
    }
    assert(last_place(1, n, 0) == -j - 23);
    lemma_pow2_mul(23, j);
    assert(1 * pow2(23 + j) == 0x80_0000 * n + 0);
    lemma_half_even_at(1 * pow2(23 + j), n, 0x80_0000, 0);
}

/// A value that is exactly zero.
pub open spec fn is_zero(a: Single) -> bool {
    is_exactly(a, 0, 0)
}

/// The zeros are those with significand 0.
pub proof fn lemma_zero(a: Single)
    requires
        a is Finite,
        a.wf(),
    ensures
        is_zero(a) == (a->mant == 0),
{
    let p = pow2(a->exp + 149);
    lemma_pow2_le(0, a->exp + 149);
    assert(0 * pow2(149) == 0);
    assert(a->mant > 0 ==> a->mant * p > 0 && (-a->mant) * p < 0) by (nonlinear_arith)
        requires
            p > 0,
    ;
    assert(0 * p == 0);
}

/// Arithmetic with zeros.
pub proof fn lemma_zero_arithmetic(a: Single, b: Single)
    requires
        is_zero(a),
        b is Finite,
        b.wf(),
    ensures
        is_zero(product(a, b)),
        is_zero(product(b, a)),
        is_zero(b) ==> is_zero(sum(a, b)),
        is_zero(b) ==> is_zero(difference(a, b)),
        !is_zero(b) ==> is_zero(quotient(a, b)),
        is_zero(root(a)),
        is_zero(magnitude(a)),
        !b->Finite_neg && b->mant > 0 ==> less(a, b) && !less(b, a),
        b->Finite_neg && b->mant > 0 ==> less(b, a) && !less(a, b),
        b->mant == 0 ==> !less(a, b) && !less(b, a),
{
    lemma_zero(a);
    lemma_zero(b);
    assert(0 * pow2(149) == 0);
    assert(0 * pow2(0) == 0);
    assert(is_zero(product(a, b))) by {
        reveal(product);
        assert(a->mant * b->mant == 0);
    }
    assert(is_zero(product(b, a))) by {
        reveal(product);
        assert(b->mant * a->mant == 0);
    }
    if is_zero(b) {
        lemma_sum_exact(a, 0, b, 0, 0);
        lemma_difference_exact(a, 0, b, 0, 0);
    } else {
        assert(is_zero(quotient(a, b))) by {
            reveal(quotient);
        }
    }
    assert(root(a) == a) by {
        reveal(root);
    }
    lemma_zero(magnitude(a));
    reveal(less);
    let k = least(a->exp as int, b->exp as int);
    lemma_pow2_le(0, b->exp - k);
    let p = pow2(b->exp - k);
    assert(b->mant > 0 ==> b->mant * p > 0 && (-b->mant) * p < 0) by (nonlinear_arith)
        requires
            p > 0,
    ;
    assert(0 * p == 0);
    assert(0 * pow2(a->exp - k) == 0);
}

/// The integer nearest to an exact integer is that integer.
pub proof fn lemma_nearest_exact(a: Single, v: int, low: int, high: int)
    requires
        is_exactly(a, v, 0),
        0 <= v,
        low <= v <= high,
    ensures
        nearest_within(a, low, high) == v,
{
    reveal(nearest_within);
    match a {
        Single::Finite { neg, mant, exp } => {
            lemma_pow2_le(0, exp + 149);
            lemma_pow2_le(0, 149);
            let p = pow2(exp + 149);
            let q = pow2(149);
            assert(v * q >= 0) by (nonlinear_arith)
                requires
                    v >= 0,
                    q > 0,
            ;
            assert(mant > 0 ==> (-mant) * p < 0) by (nonlinear_arith)
                requires
                    p > 0,
            ;
            assert(mant * p == v * q);
            if exp >= 0 {
                lemma_pow2_mul(exp as int, 149);
                let w = pow2(exp as int);
                assert(mant * w == v) by (nonlinear_arith)
                    requires
                        mant * (w * q) == v * q,
                        q > 0,
                ;
            } else {
                lemma_pow2_mul(-exp, exp + 149);
                let w = pow2(-exp);
                assert(mant == v * w) by (nonlinear_arith)
                    requires
                        mant * p == v * (w * p),
                        p > 0,
                ;
                assert(2 * mant + w == v * (2 * w) + w) by (nonlinear_arith)
                    requires
                        mant == v * w,
                ;
                vstd::arithmetic::div_mod::lemma_fundamental_div_mod_converse(
                    2 * mant + w,
                    2 * w,
                    v,
                    w,
                );
            }
            assert(mant == 0 ==> v == 0) by (nonlinear_arith)
                requires
                    mant * p == v * q,
                    q > 0,
            ;
        },
        _ => {},
    }
}

/// `(m * 2^s) % w`.
fn shifted_rem(m: u64, s: i32, w: u64) -> (r: u64)
    requires
        0 <= s <= 300,
        0 < w < 0x100_0000,
    ensures
        r == (m * pow2(s as int)) % (w * pow2(0)),
        r < w,
{
    proof {
        vstd::arithmetic::power2::lemma2_to64();
    }
    let mut r: u64 = m % w;
    let mut i: i32 = 0;
    assert(m * pow2(0) == m);
    while i < s
        invariant
            0 <= i <= s <= 300,
            0 < w < 0x100_0000,
            r < w,
            r == (m * pow2(i as int)) % (w as int),
        decreases s - i,
    {
        proof {
            let p = m * pow2(i as int);
            let q = p / (w as int);
            vstd::arithmetic::power2::lemma_pow2_unfold((i + 1) as nat);
            let next = pow2(i + 1);
            assert(m * next == 2 * p) by (nonlinear_arith)
                requires
                    p == m * pow2(i as int),
                    next == 2 * pow2(i as int),
            ;
            let half = 2 * r as int;
            let t = half / (w as int);
            let u = half % (w as int);
            vstd::arithmetic::div_mod::lemma_fundamental_div_mod(p, w as int);
            vstd::arithmetic::div_mod::lemma_fundamental_div_mod(half, w as int);
            assert(w * q == q * w && w * t == t * w) by (nonlinear_arith);
            assert(2 * p == (2 * q + t) * w + u && 0 <= u < w) by (nonlinear_arith)
                requires
                    p == q * w + r,
                    half == 2 * r,
                    half == t * w + u,
                    0 <= u < w,
            ;
            vstd::arithmetic::div_mod::lemma_fundamental_div_mod_converse(
                2 * p,
                w as int,
                2 * q + t,
                u,
            );
        }
        r = (2 * r) % w;
        i = i + 1;
    }
    r
}

/// `m % (w * 2^s)`.
fn rem_shifted(m: u64, w: u64, s: i32) -> (r: u64)
    requires
        m < 0x100_0000,
        0 < w < 0x100_0000,
        0 < s <= 300,
    ensures
        r == (m * pow2(0)) % (w * pow2(s as int)),
        r <= m,
{
    proof {
        vstd::arithmetic::power2::lemma2_to64();
        assert(m * pow2(0) == m);
    }
    if s >= 24 {
        proof {
            lemma_pow2_le(24, s as int);
            let d = w * pow2(s as int);
            assert(d >= 0x100_0000) by (nonlinear_arith)
                requires
                    d == w * pow2(s as int),
                    pow2(s as int) >= 0x100_0000,
                    w >= 1,
            ;
            vstd::arithmetic::div_mod::lemma_small_mod(m as nat, d as nat);
        }
        m
    } else {
        proof {
            lemma_pow2_le(s as int, 24);
            let p = pow2(s as int);
            assert(0 < w * p <= 0xFF_FFFF * 0x100_0000) by (nonlinear_arith)
                requires
                    0 < w <= 0xFF_FFFF,
                    0 < p <= 0x100_0000,
            ;
            assert(m as int % (w * p) <= m) by (nonlinear_arith)
                requires
                    0 < w * p,
                    0 <= m,
            ;
        }
        m % shifted_left(w, s)
    }
}

/// A large integer rounds like its quarter, if the quarter is made odd where bits were dropped.
proof fn lemma_quartered(n: int, m: int)
    requires
        0x4000_0000_0000_0000 <= n <= u64::MAX,
        m == if n % 4 != 0 && (n / 4) % 2 == 0 {
            n / 4 + 1
        } else {
            n / 4
        },
    ensures
        rounded(false, n, 1, 0) == rounded(false, m, 1, 2),
{
    vstd::arithmetic::power2::lemma2_to64();
    vstd::arithmetic::power2::lemma2_to64_rest();
    let b: int = if n < 0x8000_0000_0000_0000 {
        63
    } else {
        64
    };
    assert(pow2(64) == 0x1_0000_0000_0000_0000) by {
        vstd::arithmetic::power2::lemma_pow2_unfold(64);
    }
    lemma_bits_unique(n, b);
    lemma_bits_unique(m, b - 2);
    assert(n / 1 == n);
    assert(m / 1 == m);
    let e = b - 24;
    assert(last_place(n, 1, 0) == e);
    assert(last_place(m, 1, 2) == e);
    let d = pow2(e - 2);
    let eighth = pow2(e - 4);
    vstd::arithmetic::power2::lemma_pow2_unfold(e as nat);
    vstd::arithmetic::power2::lemma_pow2_unfold((e - 1) as nat);
    vstd::arithmetic::power2::lemma_pow2_unfold((e - 2) as nat);
    vstd::arithmetic::power2::lemma_pow2_unfold((e - 3) as nat);
    assert(pow2(e) == 4 * d);
    assert(d == 4 * eighth);
    let a = n / 4;
    let q = a / d;
    let r = a % d;
    let odd = m - a;
    assert(a == q * d + r && 0 <= r < d) by (nonlinear_arith)
        requires
            q == a / d,
            r == a % d,
            d > 0,
    ;
    // The quotients agree, and the remainders lie on the same side of the middle.
    assert(n == q * (4 * d) + (4 * r + n % 4)) by (nonlinear_arith)
        requires
            n == 4 * a + n % 4,
            a == q * d + r,
    ;
    vstd::arithmetic::div_mod::lemma_fundamental_div_mod_converse(n, 4 * d, q, 4 * r + n % 4);
    let even = q * (2 * eighth);
    assert(q * d == 2 * even) by (nonlinear_arith)
        requires
            even == q * (2 * eighth),
            d == 4 * eighth,
    ;
    assert(a % 2 == r % 2);
    assert(r + odd < d);
    assert(m == q * d + (r + odd));
    vstd::arithmetic::div_mod::lemma_fundamental_div_mod_converse(m, d, q, r + odd);
    assert(half_even(n, 4 * d) == half_even(m, d));
    assert(1 * pow2(e) == 4 * d);
    assert(1 * pow2(e - 2) == d);
}

/// A small positive ratio.
pub proof fn lemma_small_ratio()
    ensures
        ratio(1, 10000) is Finite,
        ratio(1, 10000).wf(),
        !(ratio(1, 10000)->Finite_neg),
        ratio(1, 10000)->mant > 0,
        ratio(1, 10000)->exp >= -37,
{
    reveal(ratio);
    lemma_rounded_wf(false, 1, 10000, 0);
    vstd::arithmetic::power2::lemma2_to64();
    lemma_bits_unique(9999, 14);
    assert((10000 - 1) / 1int == 9999);
    assert(exponent(1, 10000) == -14);
    assert(last_place(1, 10000, 0) == -37);
    lemma_kept(1, 10000, 0);
    lemma_half_even_bounds(1 * pow2(37), 10000, 0x80_0000);
    lemma_half_even_bounds(1 * pow2(37), 10000, 0x100_0000);
}

/// What the exponent of a ratio promises, with both sides scaled up.
proof fn lemma_exponent_scaled(n: int, d: int, x: int, s: int)
    requires
        n > 0,
        d > 0,
        s >= 0,
        x + s >= 0,
        x >= 0 ==> d * pow2(x) <= n < d * pow2(x + 1),
        x < 0 ==> d <= n * pow2(-x) < 2 * d,
    ensures
        d * pow2(x + s) <= n * pow2(s) < d * pow2(x + 1 + s),
{
    if x >= 0 {
        lemma_pow2_mul(x, s);
        lemma_pow2_mul(x + 1, s);
        let p = pow2(s);
        let a = pow2(x);
        let b = pow2(x + 1);
        assert(d * (a * p) <= n * p < d * (b * p)) by (nonlinear_arith)
            requires
                d * a <= n < d * b,
                p > 0,
        ;
    } else {
        lemma_pow2_mul(-x, x + s);
        vstd::arithmetic::power2::lemma_pow2_unfold((x + 1 + s) as nat);
        let p = pow2(x + s);
        let a = pow2(-x);
        assert(d * p <= n * (a * p) < d * (2 * p)) by (nonlinear_arith)
            requires
                d <= n * a < 2 * d,
                p > 0,
        ;
    }
}

/// The exponent of a ratio is fixed by the powers of two around it.
proof fn lemma_exponent_unique(n: int, d: int, x: int)
    requires
        n > 0,
        d > 0,
        x >= 0 ==> d * pow2(x) <= n < d * pow2(x + 1),
        x < 0 ==> d <= n * pow2(-x) < 2 * d,
    ensures
        exponent(n, d) == x,
{
    let y = exponent(n, d);
    lemma_exponent(n, d);
    let s = if x < 0 && x <= y {
        -x
    } else if y < 0 {
        -y
    } else {
        0
    };
    lemma_exponent_scaled(n, d, x, s);
    lemma_exponent_scaled(n, d, y, s);
    if x < y {
        lemma_pow2_le(x + 1 + s, y + s);
        let a = pow2(x + 1 + s);
        let b = pow2(y + s);
        assert(d * a <= d * b) by (nonlinear_arith)
            requires
                a <= b,
                d > 0,
        ;
    } else if y < x {
        lemma_pow2_le(y + 1 + s, x + s);
        let a = pow2(y + 1 + s);
        let b = pow2(x + s);
        assert(d * a <= d * b) by (nonlinear_arith)
            requires
                a <= b,
                d > 0,
        ;
    }
}

/// Scaling both sides of a ratio does not change what it rounds to.
proof fn lemma_half_even_scaled(n: int, d: int, c: int)
    requires
        n >= 0,
        d > 0,
        c > 0,
    ensures
        half_even(n * c, d * c) == half_even(n, d),
{
    let q = n / d;
    let r = n % d;
    assert(n == q * d + r && 0 <= r < d) by (nonlinear_arith)
        requires
            q == n / d,
            r == n % d,
            d > 0,
    ;
    assert(n * c == q * (d * c) + r * c && 0 <= r * c < d * c) by (nonlinear_arith)
        requires
            n == q * d + r,
            0 <= r < d,
            c > 0,
    ;
    assert(d * c > 0);
    lemma_half_even_at(n, d, q, r);
    lemma_half_even_at(n * c, d * c, q, r * c);
    assert((2 * (r * c) < d * c) == (2 * r < d)) by (nonlinear_arith)
        requires
            c > 0,
    ;
    assert((2 * (r * c) == d * c) == (2 * r == d)) by (nonlinear_arith)
        requires
            c > 0,
    ;
}

/// A ratio with both sides scaled rounds to the same value.
pub proof fn lemma_rounded_scaled(neg: bool, n: int, d: int, c: int, k: int)
    requires
        n > 0,
        d > 0,
        c > 0,
    ensures
        rounded(neg, n * c, d * c, k) == rounded(neg, n, d, k),
{
    let x = exponent(n, d);
    lemma_exponent(n, d);
    assert(n * c > 0 && d * c > 0) by (nonlinear_arith)
        requires
            n > 0,
            d > 0,
            c > 0,
    ;
    if x >= 0 {
        let a = pow2(x);
        let b = pow2(x + 1);
        assert((d * c) * a <= n * c < (d * c) * b) by (nonlinear_arith)
            requires
                d * a <= n < d * b,
                c > 0,
        ;
    } else {
        let a = pow2(-x);
        assert(d * c <= (n * c) * a < 2 * (d * c)) by (nonlinear_arith)
            requires
                d <= n * a < 2 * d,
                c > 0,
        ;
    }
    lemma_exponent_unique(n * c, d * c, x);
    let e = last_place(n, d, k);
    if k >= e {
        let p = pow2(k - e);
        lemma_pow2_le(0, k - e);
        assert((n * c) * p == (n * p) * c && n * p > 0) by (nonlinear_arith)
            requires
                n > 0,
                p > 0,
        ;
        lemma_half_even_scaled(n * p, d, c);
    } else {
        let p = pow2(e - k);
        lemma_pow2_le(0, e - k);
        assert((d * c) * p == (d * p) * c && d * p > 0) by (nonlinear_arith)
            requires
                d > 0,
                p > 0,
        ;
        lemma_half_even_scaled(n, d * p, c);
    }
}

/// A power of two may be part of the numerator or of the scale.
pub proof fn lemma_rounded_shifted(neg: bool, n: int, d: int, k: int, j: int)
    requires
        n > 0,
        d > 0,
        j >= 0,
    ensures
        rounded(neg, n * pow2(j), d, k - j) == rounded(neg, n, d, k),
{
    let x = exponent(n, d);
    let c = pow2(j);
    lemma_pow2_le(0, j);
    lemma_exponent(n, d);
    assert(n * c > 0) by (nonlinear_arith)
        requires
            n > 0,
            c > 0,
    ;
    let y = x + j;
    if y >= 0 {
        lemma_exponent_scaled(n, d, x, j);
    } else {
        lemma_pow2_mul(-y, j);
        let a = pow2(-y);
        assert((n * c) * a == n * (a * c)) by (nonlinear_arith);
    }
    lemma_exponent_unique(n * c, d, y);
    let e = last_place(n, d, k);
    assert(e == last_place(n * c, d, k - j));
    if k - j >= e {
        lemma_pow2_mul(j, k - j - e);
        let p = pow2(k - j - e);
        assert((n * c) * p == n * (c * p)) by (nonlinear_arith);
    } else if k >= e {
        // n * c against d * 2^(e - k + j), n * 2^(k - e) against d
        let p = pow2(k - e);
        let q = pow2(e - k + j);
        lemma_pow2_mul(k - e, e - k + j);
        assert(n * c == (n * p) * q && n * p > 0) by (nonlinear_arith)
            requires
                c == p * q,
                n > 0,
                p > 0,
        ;
        lemma_half_even_scaled(n * p, d, q);
    } else {
        let p = pow2(e - k);
        lemma_pow2_mul(e - k, j);
        assert(d * (p * c) == (d * p) * c && d * p > 0) by (nonlinear_arith)
            requires
                d > 0,
                p > 0,
        ;
        lemma_half_even_scaled(n, d * p, c);
    }
}

/// The form of an integer of 24 binary digits at most.
proof fn lemma_whole_form(n: int)
    requires
        0 < n < 0x100_0000,
    ensures
        whole_number(n) is Finite,
        !(whole_number(n)->Finite_neg),
        whole_number(n).wf(),
        whole_number(n)->mant > 0,
        -149 <= whole_number(n)->exp <= 0,
        whole_number(n)->mant == n * pow2(-whole_number(n)->exp),
{
    let a = whole_number(n);
    assert(n * pow2(0) == n) by {
        vstd::arithmetic::power2::lemma2_to64();
    }
    lemma_whole_number(n, 0);
    match a {
        Single::Finite { neg, mant, exp } => {
            let p = pow2(exp + 149);
            let q = pow2(149);
            lemma_pow2_le(0, exp + 149);
            lemma_pow2_le(0, 149);
            assert(n * q > 0) by (nonlinear_arith)
                requires
                    n > 0,
                    q > 0,
            ;
            assert((-mant) * p <= 0) by (nonlinear_arith)
                requires
                    mant >= 0,
                    p > 0,
            ;
            assert(mant * p == n * q);
            if exp > 0 {
                lemma_pow2_mul(exp as int, 149);
                lemma_pow2_le(1, exp as int);
                vstd::arithmetic::power2::lemma2_to64();
                let w = pow2(exp as int);
                assert(mant * w == n) by (nonlinear_arith)
                    requires
                        mant * (w * q) == n * q,
                        q > 0,
                ;
                assert(mant * w >= 0x100_0000) by (nonlinear_arith)
                    requires
                        mant >= 0x80_0000,
                        w >= 2,
                ;
            } else {
                lemma_pow2_mul(-exp, exp + 149);
                let w = pow2(-exp);
                assert(mant == n * w) by (nonlinear_arith)
                    requires
                        mant * p == n * (w * p),
                        p > 0,
                ;
                assert(n * w > 0) by (nonlinear_arith)
                    requires
                        n > 0,
                        w > 0,
                ;
            }
        },
        _ => {},
    }
}

/// The quotient of two integers of 24 binary digits at most is the value nearest to their ratio.
pub proof fn lemma_whole_quotient(n: int, d: int)
    requires
        0 < n < 0x100_0000,
        0 < d < 0x100_0000,
    ensures
        quotient(whole_number(n), whole_number(d)) == ratio(n, d),
{
    reveal(quotient);
    reveal(ratio);
    lemma_whole_form(n);
    lemma_whole_form(d);
    let s = -whole_number(n)->exp;
    let t = -whole_number(d)->exp;
    lemma_pow2_le(0, s as int);
    lemma_pow2_le(0, t as int);
    if s >= t {
        lemma_pow2_mul(s - t, t as int);
        let p = pow2(s - t);
        let q = pow2(t as int);
        assert(n * (p * q) == (n * p) * q && n * p > 0) by (nonlinear_arith)
            requires
                n > 0,
                p > 0,
        ;
        lemma_rounded_scaled(false, n * p, d, q, t - s);
        lemma_rounded_shifted(false, n, d, 0, s - t);
    } else {
        lemma_pow2_mul(t - s, s as int);
        let p = pow2(t - s);
        let q = pow2(s as int);
        assert(d * (p * q) == (d * p) * q && d * p > 0) by (nonlinear_arith)
            requires
                d > 0,
                p > 0,
        ;
        lemma_rounded_scaled(false, n, d * p, q, t - s);
        lemma_rounded_shifted(false, n, d * p, t - s, t - s);
        lemma_rounded_scaled(false, n, d, p, 0);
    }
}

/// A multiple divided by one of its parts is the other.
pub proof fn lemma_exact_quotient(v: int, w: int)
    requires
        0 < v,
        0 < w,
        v * w < 0x100_0000,
    ensures
        quotient(whole_number(v * w), whole_number(w)) == whole_number(v),
{
    assert(v <= v * w && w <= v * w) by (nonlinear_arith)
        requires
            v > 0,
            w > 0,
    ;
    lemma_whole_quotient(v * w, w);
    reveal(ratio);
    reveal(whole_number);
    lemma_rounded_scaled(false, v, 1, w, 0);
    assert(1 * w == w);
}

/// The product of integers is exact if it has 24 binary digits at most.
pub proof fn lemma_whole_product(v: int, w: int)
    requires
        0 < v,
        0 < w,
        v * w < 0x100_0000,
    ensures
        product(whole_number(v), whole_number(w)) == whole_number(v * w),
{
    assert(0 < v <= v * w && w <= v * w) by (nonlinear_arith)
        requires
            v > 0,
            w > 0,
    ;
    lemma_whole_form(v);
    lemma_whole_form(w);
    reveal(product);
    reveal(whole_number);
    let s = -whole_number(v)->exp;
    let t = -whole_number(w)->exp;
    lemma_pow2_mul(s as int, t as int);
    let p = pow2(s as int);
    let q = pow2(t as int);
    assert((v * p) * (w * q) == (v * w) * (p * q)) by (nonlinear_arith);
    lemma_rounded_shifted(false, v * w, 1, 0, s + t);
}

/// What is left of an integer of 24 binary digits at most is what is left of it as an integer.
pub proof fn lemma_whole_remainder(n: int, d: int)
    requires
        0 <= n < 0x100_0000,
        0 < d < 0x100_0000,
    ensures
        remainder(whole_number(n), whole_number(d)) == whole_number(n % d),
{
    reveal(remainder);
    lemma_whole_form(d);
    if n == 0 {
        reveal(whole_number);
        assert(0 * pow2(-149 - least(-149, whole_number(d)->exp as int)) == 0);
        let m = whole_number(d)->mant * pow2(whole_number(d)->exp + 149);
        lemma_pow2_le(0, whole_number(d)->exp + 149);
        assert(m > 0) by (nonlinear_arith)
            requires
                m == whole_number(d)->mant * pow2(whole_number(d)->exp + 149),
                whole_number(d)->mant > 0,
                pow2(whole_number(d)->exp + 149) > 0,
        ;
        assert(0int % m == 0) by {
            vstd::arithmetic::div_mod::lemma_small_mod(0, m as nat);
        }
        assert(0int % d == 0) by {
            vstd::arithmetic::div_mod::lemma_small_mod(0, d as nat);
        }
    } else {
        lemma_remainder_positive(n, d);
    }
}

proof fn lemma_remainder_positive(n: int, d: int)
    requires
        0 < n < 0x100_0000,
        0 < d < 0x100_0000,
    ensures
        remainder(whole_number(n), whole_number(d)) == whole_number(n % d),
{
    reveal(remainder);
    lemma_whole_form(d);
    lemma_whole_form(n);
    let e = whole_number(n)->exp as int;
    let f = whole_number(d)->exp as int;
    let k = least(e, f);
    let c = pow2(-k);
    lemma_pow2_mul(-e, e - k);
    lemma_pow2_mul(-f, f - k);
    assert((n * pow2(-e)) * pow2(e - k) == n * (pow2(-e) * pow2(e - k))) by (nonlinear_arith);
    assert((d * pow2(-f)) * pow2(f - k) == d * (pow2(-f) * pow2(f - k))) by (nonlinear_arith);
    let r = n % d;
    let q = n / d;
    assert(n == q * d + r && 0 <= r < d) by (nonlinear_arith)
        requires
            q == n / d,
            r == n % d,
            d > 0,
    ;
    assert(n * c == q * (d * c) + r * c && 0 <= r * c < d * c) by (nonlinear_arith)
        requires
            n == q * d + r,
            0 <= r < d,
            c > 0,
    ;
    vstd::arithmetic::div_mod::lemma_fundamental_div_mod_converse(n * c, d * c, q, r * c);
    reveal(whole_number);
    if r > 0 {
        lemma_rounded_shifted(false, r, 1, 0, -k);
    } else {
        assert(0 * c == 0);
    }
}

/// The integer part of an integer is the integer.
pub proof fn lemma_whole_truncated(n: int, high: int)
    requires
        0 <= n < 0x100_0000,
        n <= high,
    ensures
        truncated_within(whole_number(n), 0, high) == n,
{
    reveal(truncated_within);
    if n == 0 {
        reveal(whole_number);
        lemma_pow2_le(0, 149);
        assert(0int / pow2(149) == 0) by {
            vstd::arithmetic::div_mod::lemma_div_basics(pow2(149));
        }
    } else {
        lemma_whole_form(n);
        let e = whole_number(n)->exp as int;
        let c = pow2(-e);
        lemma_pow2_le(0, -e);
        assert((n * c) / c == n) by {
            vstd::arithmetic::div_mod::lemma_div_multiples_vanish(n, c);
            assert(n * c == c * n) by (nonlinear_arith);
        }
        if e == 0 {
            vstd::arithmetic::power2::lemma2_to64();
            assert(whole_number(n)->mant == n);
            assert(n * pow2(0) == n);
        }
        assert(truncated(whole_number(n)->mant as int, e) == n);
    }
}

/// The integer part of a quotient of integers of 24 binary digits at most is the quotient of the
/// integers: rounding never reaches the next one.
pub proof fn lemma_whole_quotient_truncated(n: int, d: int, high: int)
    requires
        0 <= n < 0x100_0000,
        0 < d < 0x100_0000,
        n <= high,
    ensures
        truncated_within(quotient(whole_number(n), whole_number(d)), 0, high) == n / d,
{
    if n == 0 {
        lemma_whole_form(d);
        reveal(quotient);
        reveal(whole_number);
        lemma_whole_truncated(0, high);
        assert(0int / d == 0) by {
            vstd::arithmetic::div_mod::lemma_div_basics(d);
        }
    } else {
        lemma_ratio_truncated(n, d, high);
    }
}

proof fn lemma_ratio_truncated(n: int, d: int, high: int)
    requires
        0 < n < 0x100_0000,
        0 < d < 0x100_0000,
        n <= high,
    ensures
        truncated_within(quotient(whole_number(n), whole_number(d)), 0, high) == n / d,
{
    let q = n / d;
    let r = n % d;
    assert(n == q * d + r && 0 <= r < d && 0 <= q <= n) by (nonlinear_arith)
        requires
            q == n / d,
            r == n % d,
            d > 0,
            n >= 0,
    ;
    lemma_whole_quotient(n, d);
    reveal(ratio);
    reveal(truncated_within);
    vstd::arithmetic::power2::lemma2_to64();
    lemma_exponent(n, d);
    lemma_kept(n, d, 0);
    let x = exponent(n, d);
    // 2^x * d <= n < 2^24, so x <= 23, and x > -25
    if x >= 24 {
        lemma_pow2_le(24, x);
        assert(d * pow2(x) >= 0x100_0000) by (nonlinear_arith)
            requires
                d >= 1,
                pow2(x) >= 0x100_0000,
        ;
    }
    if x < -24 {
        lemma_pow2_le(25, -x);
        assert(n * pow2(-x) >= 0x200_0000) by (nonlinear_arith)
            requires
                n >= 1,
                pow2(-x) >= 0x200_0000,
        ;
    }
    let e = last_place(n, d, 0);
    assert(e == x - 23);
    let u = pow2(-e);
    lemma_pow2_le(0, -e);
    let m = half_even(n * u, d);
    assert(0int >= e);
    lemma_half_even_bounds(n * u, d, 0x100_0000);
    lemma_half_even_bounds(n * u, d, 0x80_0000);
    // not below q
    assert(n * u >= (q * u) * d && n * u >= 0) by (nonlinear_arith)
        requires
            n == q * d + r,
            r >= 0,
            u > 0,
            n >= 0,
    ;
    lemma_half_even_bounds(n * u, d, q * u);
    // below q + 1: the distance to it is more than half a unit
    assert(2 * u > d) by {
        if x >= 0 {
            lemma_pow2_mul(x, 24 - x);
            vstd::arithmetic::power2::lemma_pow2_unfold((24 - x) as nat);
            let a = pow2(x);
            assert(2 * u > d) by (nonlinear_arith)
                requires
                    a * (2 * u) == 0x100_0000,
                    d * a < 0x100_0000,
                    a > 0,
            ;
        } else {
            lemma_pow2_le(24, -e);
        }
    }
    let g = (q + 1) * u;
    assert(n * u <= g * d - u) by (nonlinear_arith)
        requires
            n == q * d + r,
            r <= d - 1,
            g == (q + 1) * u,
            u > 0,
    ;
    assert(m < g) by {
        let y = (n * u) / d;
        let z = (n * u) % d;
        assert(n * u == y * d + z && 0 <= z < d) by (nonlinear_arith)
            requires
                y == (n * u) / d,
                z == (n * u) % d,
                d > 0,
        ;
        if m >= g {
            assert(y >= g - 1);
            assert(y == g - 1 && z == d - (g * d - n * u)) by (nonlinear_arith)
                requires
                    n * u == y * d + z,
                    n * u <= g * d - u,
                    u > 0,
                    y >= g - 1,
                    0 <= z < d,
            ;
            assert(2 * z < d);
        }
    }
    // the value kept is m / u
    assert(q * u <= m < (q + 1) * u);
    if m == 0x100_0000 {
        if e == 0 {
            // then d is 1 and the value is exact
            assert(u == 1);
            assert(m == q);
            assert(q < 0x100_0000);
        } else {
            lemma_pow2_mul(1, -e - 1);
            let h = pow2(-e - 1);
            assert(q * h <= 0x80_0000 < (q + 1) * h) by (nonlinear_arith)
                requires
                    q * u <= 0x100_0000 < (q + 1) * u,
                    u == 2 * h,
            ;
            assert(0x80_0000int / h == q) by {
                lemma_between(0x80_0000, h, q);
            }
            if e == -1 {
                assert(h == 1);
                assert(q == 0x80_0000) by (nonlinear_arith)
                    requires
                        h == 1,
                        q * h <= 0x80_0000 < (q + 1) * h,
                ;
                assert(0x80_0000 * pow2(0) == 0x80_0000);
            } else {
                assert(-(e + 1) == -e - 1);
                assert(pow2(-(e + 1)) == h);
            }
            assert(truncated(0x80_0000, e + 1) == q);
        }
    } else {
        lemma_between(m, u, q);
        if e == 0 {
            assert(u == 1);
            assert(m * pow2(0) == m);
        }
        assert(truncated(m, e) == q);
        assert(packed(false, m, e) == (Single::Finite { neg: false, mant: m as u32, exp: e as i32 }));
    }
}

/// A number between two multiples.
proof fn lemma_between(m: int, u: int, q: int)
    requires
        u > 0,
        q * u <= m < (q + 1) * u,
    ensures
        m / u == q,
{
    let r = m - q * u;
    assert(0 <= r < u) by (nonlinear_arith)
        requires
            r == m - q * u,
            q * u <= m < (q + 1) * u,
    ;
    vstd::arithmetic::div_mod::lemma_fundamental_div_mod_converse(m, u, q, r);
}

/// The value in finer units.
pub proof fn lemma_finer_units(a: Single, v: int, k: int, j: int)
    requires
        is_exactly(a, v, k),
        j >= 0,
        k - j >= -149,
    ensures
        is_exactly(a, v * pow2(j), k - j),
{
    lemma_pow2_mul(j, k - j + 149);
    let p = pow2(j);
    let q = pow2(k - j + 149);
    assert((v * p) * q == v * (p * q)) by (nonlinear_arith);
}

/// A ratio is kept as its nearest multiple of the last place.
proof fn lemma_ratio_form(n: int, d: int, x: int, m: int, r: int)
    requires
        n > 0,
        d > 0,
        -100 <= x <= 23,
        x >= 0 ==> d * pow2(x) <= n < d * pow2(x + 1),
        x < 0 ==> d <= n * pow2(-x) < 2 * d,
        n * pow2(23 - x) == m * d + r,
        0 <= r,
        2 * r < d,
        0x80_0000 <= m < 0x100_0000,
    ensures
        ratio(n, d) == (Single::Finite { neg: false, mant: m as u32, exp: (x - 23) as i32 }),
        is_exactly(ratio(n, d), m, x - 23),
{
    reveal(ratio);
    lemma_exponent_unique(n, d, x);
    assert(last_place(n, d, 0) == x - 23);
    lemma_half_even_at(n * pow2(23 - x), d, m, r);
}

/// The rates and the tolerance that timescales are chosen by.
pub proof fn lemma_broadcast_rates()
    ensures
        is_exactly(ratio(2997, 100), 15712911, -19),
        is_exactly(ratio(5994, 100), 15712911, -18),
        is_exactly(ratio(23976, 1000), 12570329, -19),
        is_exactly(ratio(1, 100), 10737418, -30),
        ratio(1, 100) == (Single::Finite { neg: false, mant: 10737418, exp: -30i32 }),
{
    vstd::arithmetic::power2::lemma2_to64();
    lemma_ratio_form(2997, 100, 4, 15712911, 36);
    lemma_ratio_form(5994, 100, 5, 15712911, 36);
    lemma_ratio_form(23976, 1000, 4, 12570329, 88);
    lemma_ratio_form(1, 100, -7, 10737418, 24);
}

/// A large difference is not less than a hundredth.
proof fn lemma_large_difference(a: Single, v: int, b: Single, w: int, k: int)
    requires
        is_exactly(a, v, k),
        is_exactly(b, w, k),
        -19 <= k <= 0,
        v - w >= 0x100_0000,
    ensures
        !less(magnitude(difference(a, b)), ratio(1, 100)),
{
    reveal(sum);
    reveal(less);
    lemma_broadcast_rates();
    vstd::arithmetic::power2::lemma2_to64();
    match (a, b) {
        (
            Single::Finite { neg: n, mant: m, exp: e },
            Single::Finite { neg: o, mant: x, exp: f },
        ) => {
            let l = least(e as int, f as int);
            let t = exact_sum(n, m as int, e as int, !o, x as int, f as int);
            lemma_pow2_mul(e - l, l + 149);
            lemma_pow2_mul(f - l, l + 149);
            lemma_pow2_le(0, k + 149);
            let p = pow2(l + 149);
            let q = pow2(k + 149);
            let sm = signed(n, m as int);
            let sx = signed(!o, x as int);
            assert((sm * pow2(e - l) + sx * pow2(f - l)) * p == sm * (pow2(e - l) * p) + sx * (pow2(
                f - l,
            ) * p)) by (nonlinear_arith);
            assert(sx * (pow2(f - l) * p) == -(w * q)) by {
                let y = pow2(f - l) * p;
                assert((-x) * y == -(x * y)) by (nonlinear_arith);
            }
            assert((v - w) * q == v * q - w * q) by (nonlinear_arith);
            assert(t * p == (v - w) * q);
            assert(t > 0) by (nonlinear_arith)
                requires
                    t * p == (v - w) * q,
                    v - w > 0,
                    p > 0,
                    q > 0,
            ;
            // the value is 32 at least
            lemma_bits(t);
            let c = bits(t);
            lemma_pow2_mul(c, l + 149);
            lemma_pow2_mul(24, k + 149);
            lemma_pow2_le(154, k + 173);
            assert(t * p >= pow2(154)) by (nonlinear_arith)
                requires
                    t * p == (v - w) * q,
                    v - w >= 0x100_0000,
                    0x100_0000 * q >= pow2(154),
                    q > 0,
            ;
            assert(t * p < pow2(c) * p) by (nonlinear_arith)
                requires
                    t < pow2(c),
                    p > 0,
            ;
            if c + l + 149 <= 154 {
                lemma_pow2_le(c + l + 149, 154);
            }
            assert(t / 1 == t);
            let g = last_place(t, 1, l);
            assert(g >= -18);
            lemma_kept(t, 1, l);
            let num = if l >= g { t * pow2(l - g) } else { t };
            let den = if l >= g { 1 } else { 1 * pow2(g - l) };
            lemma_half_even_bounds(num, den, 0x100_0000);
            lemma_half_even_bounds(num, den, 0x80_0000);
            let r = difference(a, b);
            if r is Finite {
                let h = r->exp as int;
                assert(h >= -18);
                lemma_pow2_le(12, h + 30);
                let s = pow2(h + 30);
                let y = r->mant as int;
                assert(y * s >= 0x80_0000 * 4096) by (nonlinear_arith)
                    requires
                        y >= 0x80_0000,
                        s >= 4096,
                ;
                assert(10737418 * pow2(0) == 10737418);
            }
        },
        _ => {},
    }
}

/// An integer is not within a hundredth of a rate that lies between two integers, more than a
/// hundredth from either.
pub proof fn lemma_apart(r: int, rate: Single, m: int, k: int, below: int)
    requires
        0 < r < 0x8000,
        -19 <= k <= -18,
        is_exactly(rate, m, k),
        0 < m < 0x100_0000,
        below * pow2(-k) + 5243 <= m,
        m + 5243 <= (below + 1) * pow2(-k),
    ensures
        !less(magnitude(difference(whole_number(r), rate)), ratio(1, 100)),
{
    vstd::arithmetic::power2::lemma2_to64();
    lemma_broadcast_rates();
    let a = whole_number(r);
    let u = pow2(-k);
    assert(r * pow2(0) == r);
    lemma_whole_number(r, 0);
    lemma_finer_units(a, r, 0, -k);
    let v = r * u;
    assert(v - m >= 5243 || m - v >= 5243) by {
        if r <= below {
            assert(r * u <= below * u) by (nonlinear_arith)
                requires
                    r <= below,
                    u > 0,
            ;
        } else {
            assert(r * u >= (below + 1) * u) by (nonlinear_arith)
                requires
                    r >= below + 1,
                    u > 0,
            ;
        }
    }
    assert(v > 0) by (nonlinear_arith)
        requires
            v == r * u,
            r > 0,
            u > 0,
    ;
    if v - m >= 0x100_0000 {
        lemma_large_difference(a, v, rate, m, k);
    } else {
        lemma_difference_exact(a, v, rate, m, k);
        let d = difference(a, rate);
        let s = if v >= m {
            v - m
        } else {
            m - v
        };
        assert(is_exactly(magnitude(d), s, k)) by {
            let p = pow2(d->exp + 149);
            let q = pow2(k + 149);
            let mant = d->mant as int;
            lemma_pow2_le(0, d->exp + 149);
            lemma_pow2_le(0, k + 149);
            assert((-mant) * p == -(mant * p)) by (nonlinear_arith);
            assert((-(v - m)) * q == -((v - m) * q)) by (nonlinear_arith);
            assert(mant * p >= 0) by (nonlinear_arith)
                requires
                    mant >= 0,
                    p > 0,
            ;
            assert(s * q >= 0) by (nonlinear_arith)
                requires
                    s >= 0,
                    q > 0,
            ;
        }
        let j = k + 30;
        lemma_finer_units(magnitude(d), s, k, j);
        lemma_pow2_le(11, j);
        let t = pow2(j);
        assert(s * t >= 5243 * 2048) by (nonlinear_arith)
            requires
                s >= 5243,
                t >= 2048,
        ;
        lemma_less_units(magnitude(d), s * t, ratio(1, 100), 10737418, -30);
    }
}

// ---------------------------------------------------------------------------------------------
// Bounds.
// ---------------------------------------------------------------------------------------------

/// The value is finite and no larger than `2^t`, whatever its sign.
pub open spec fn within(a: Single, t: int) -> bool {
    a is Finite && a.wf() && a->mant * pow2(a->exp + 149) <= pow2(t + 149)
}

/// What `n / d * 2^k` is rounded to keeps within a power of two that it keeps within.
proof fn lemma_rounded_within(neg: bool, n: int, d: int, k: int, b: int, c: int)
    requires
        n > 0,
        d > 0,
        b >= 0,
        c >= 0,
        n * pow2(c) <= d * pow2(b),
        -149 <= b - c + k <= 127,
    ensures
        within(rounded(neg, n, d, k), b - c + k),
{
    let t = b - c + k;
    let e = last_place(n, d, k);
    let num = if k >= e { n * pow2(k - e) } else { n };
    let den = if k >= e { d } else { d * pow2(e - k) };
    lemma_kept(n, d, k);
    lemma_rounded_wf(neg, n, d, k);
    lemma_place(n, d, k, b, c);
    assert(e <= t && (e > -149 ==> e <= t - 23));
    lemma_scaled_bound(n, d, k, b, c, e);
    let m = half_even(num, den);
    lemma_half_even_bounds(num, den, pow2(t - e));
    lemma_half_even_bounds(num, den, 0x100_0000);
    lemma_pow2_mul(t - e, e + 149);
    let p = pow2(e + 149);
    assert(m * p <= pow2(t + 149)) by (nonlinear_arith)
        requires
            m <= pow2(t - e),
            pow2(t - e) * p == pow2(t + 149),
            p > 0,
    ;
    vstd::arithmetic::power2::lemma2_to64();
    if m == 0x100_0000 {
        if e > t - 24 {
            lemma_pow2_strict(t - e, 24);
        }
        lemma_pow2_mul(1, e + 149);
        assert(0x80_0000 * (2 * p) == 0x100_0000 * p) by (nonlinear_arith);
    }
}

proof fn lemma_pow2_strict(a: int, b: int)
    requires
        0 <= a < b,
    ensures
        pow2(a) < pow2(b),
{
    vstd::arithmetic::power2::lemma_pow2_strictly_increases(a as nat, b as nat);
}

/// The last place kept lies well below a power of two that the value keeps within.
proof fn lemma_place(n: int, d: int, k: int, b: int, c: int)
    requires
        n > 0,
        d > 0,
        b >= 0,
        c >= 0,
        n * pow2(c) <= d * pow2(b),
    ensures
        last_place(n, d, k) > -149 ==> last_place(n, d, k) <= b - c + k - 23,
{
    let e = last_place(n, d, k);
    if e > -149 && e > b - c + k - 23 {
        lemma_kept(n, d, k);
        vstd::arithmetic::power2::lemma2_to64();
        let x = pow2(c);
        let y = pow2(b);
        if k >= e {
            let z = pow2(k - e);
            lemma_pow2_mul(23, c);
            lemma_pow2_mul(b, k - e);
            lemma_pow2_strict(b + k - e, 23 + c);
            lemma_place_up(n, d, x, y, z);
        } else {
            let z = pow2(e - k);
            lemma_pow2_mul(23, c);
            lemma_pow2_mul(23 + c, e - k);
            lemma_pow2_strict(b, 23 + c + e - k);
            lemma_place_down(n, d, x, y, z);
        }
    }
}

proof fn lemma_place_up(n: int, d: int, x: int, y: int, z: int)
    requires
        n > 0,
        d > 0,
        x > 0,
        z > 0,
        n * x <= d * y,
        n * z >= 0x80_0000 * d,
    ensures
        0x80_0000 * x <= y * z,
{
    assert((n * z) * x == (n * x) * z) by (nonlinear_arith);
    assert((n * x) * z <= (d * y) * z) by (nonlinear_arith)
        requires
            n * x <= d * y,
            z > 0,
    ;
    assert((0x80_0000 * d) * x <= (n * z) * x) by (nonlinear_arith)
        requires
            n * z >= 0x80_0000 * d,
            x > 0,
    ;
    assert(0x80_0000 * x <= y * z) by (nonlinear_arith)
        requires
            (0x80_0000 * d) * x <= (d * y) * z,
            d > 0,
    ;
}

proof fn lemma_place_down(n: int, d: int, x: int, y: int, z: int)
    requires
        n > 0,
        d > 0,
        x > 0,
        z > 0,
        n * x <= d * y,
        n >= 0x80_0000 * (d * z),
    ensures
        (0x80_0000 * x) * z <= y,
{
    assert((0x80_0000 * (d * z)) * x <= n * x) by (nonlinear_arith)
        requires
            n >= 0x80_0000 * (d * z),
            x > 0,
    ;
    assert((0x80_0000 * x) * z <= y) by (nonlinear_arith)
        requires
            (0x80_0000 * (d * z)) * x <= d * y,
            d > 0,
    ;
}

/// A bound, in units of the last place.
proof fn lemma_scaled_bound(n: int, d: int, k: int, b: int, c: int, e: int)
    requires
        n > 0,
        d > 0,
        b >= 0,
        c >= 0,
        n * pow2(c) <= d * pow2(b),
        e <= b - c + k,
    ensures
        k >= e ==> n * pow2(k - e) <= pow2(b - c + k - e) * d,
        k < e ==> n <= pow2(b - c + k - e) * (d * pow2(e - k)),
{
    let t = b - c + k;
    let x = pow2(c);
    let y = pow2(b);
    let g = pow2(t - e);
    if k >= e {
        let z = pow2(k - e);
        lemma_pow2_mul(t - e, c);
        lemma_pow2_mul(b, k - e);
        assert((n * z) * x == (n * x) * z) by (nonlinear_arith);
        assert((n * x) * z <= (d * y) * z) by (nonlinear_arith)
            requires
                n * x <= d * y,
                z > 0,
        ;
        assert((d * y) * z == d * (y * z)) by (nonlinear_arith);
        assert(n * z <= g * d) by (nonlinear_arith)
            requires
                (n * z) * x <= d * (g * x),
                x > 0,
        ;
    } else {
        let z = pow2(e - k);
        lemma_pow2_mul(t - e, e - k);
        lemma_pow2_mul(t - k, c);
        assert(n <= d * pow2(t - k)) by (nonlinear_arith)
            requires
                n * x <= d * (pow2(t - k) * x),
                x > 0,
        ;
        assert(g * (d * z) == d * (g * z)) by (nonlinear_arith);
    }
}

/// A value within a power of two has a significand within one too.
proof fn lemma_within(a: Single, t: int)
    requires
        within(a, t),
        t >= -149,
    ensures
        a->mant > 0 ==> a->exp <= t,
        a->exp <= t ==> a->mant <= pow2(t - a->exp),
{
    let e = a->exp as int;
    let m = a->mant as int;
    let p = pow2(e + 149);
    lemma_pow2_le(0, e + 149);
    if m > 0 && e > t {
        lemma_pow2_strict(t + 149, e + 149);
        assert(p <= m * p) by (nonlinear_arith)
            requires
                m >= 1,
                p > 0,
        ;
    }
    if e <= t {
        lemma_pow2_mul(t - e, e + 149);
        let q = pow2(t - e);
        assert(m <= q) by (nonlinear_arith)
            requires
                m * p <= q * p,
                p > 0,
        ;
    }
}

/// A value within a power of two is within every larger one.
pub proof fn lemma_within_more(a: Single, t: int, u: int)
    requires
        within(a, t),
        -149 <= t <= u,
    ensures
        within(a, u),
{
    lemma_pow2_le(t + 149, u + 149);
}

/// Zero is within every power of two.
pub proof fn lemma_zero_within(a: Single, t: int)
    requires
        is_zero(a),
        t >= -149,
    ensures
        within(a, t),
{
    lemma_zero(a);
    lemma_pow2_le(0, t + 149);
    assert(0 * pow2(a->exp + 149) == 0);
}

#[verifier::spinoff_prover]
pub proof fn lemma_sum_within(a: Single, b: Single, t: int)
    requires
        within(a, t),
        within(b, t),
        -149 <= t <= 126,
    ensures
        within(sum(a, b), t + 1),
{
    reveal(sum);
    let (m, e) = (a->mant as int, a->exp as int);
    let (n, f) = (b->mant as int, b->exp as int);
    let l = least(e, f);
    lemma_within(a, t);
    lemma_within(b, t);
    let x = exact_sum(a->Finite_neg, m, e, b->Finite_neg, n, f);
    if x == 0 {
        lemma_zero(zero(a->Finite_neg && b->Finite_neg));
        lemma_zero_within(zero(a->Finite_neg && b->Finite_neg), t + 1);
    } else {
        lemma_shifted_bound(m, e, l, t);
        lemma_shifted_bound(n, f, l, t);
        lemma_pow2_mul(1, t - l);
        vstd::arithmetic::power2::lemma2_to64();
        let y = if x < 0 { -x } else { x };
        let g = pow2(t - l);
        assert(pow2(1) * g == 2 * g) by (nonlinear_arith)
            requires
                pow2(1) == 2,
        ;
        lemma_signed_bound(a->Finite_neg, m, pow2(e - l));
        lemma_signed_bound(b->Finite_neg, n, pow2(f - l));
        assert(y <= 2 * g);
        assert(pow2(t - l + 1) == 2 * g);
        assert(y * pow2(0) == y) by (nonlinear_arith)
            requires
                pow2(0) == 1,
        ;
        lemma_rounded_within(x < 0, y, 1, l, t - l + 1, 0);
    }
}

proof fn lemma_signed_bound(neg: bool, m: int, p: int)
    requires
        m >= 0,
        p > 0,
    ensures
        -(m * p) <= signed(neg, m) * p <= m * p,
        0 <= m * p,
        !neg ==> signed(neg, m) * p == m * p,
{
    assert((-m) * p == -(m * p) && 0 <= m * p) by (nonlinear_arith)
        requires
            m >= 0,
            p > 0,
    ;
}

/// A significand that is within a power of two stays so when it is written with a lower exponent.
proof fn lemma_shifted_bound(m: int, e: int, l: int, t: int)
    requires
        -149 <= l <= e,
        -149 <= t,
        0 <= m,
        m > 0 ==> e <= t && m <= pow2(t - e),
        l <= t || m == 0,
    ensures
        l <= t ==> m * pow2(e - l) <= pow2(t - l),
        pow2(e - l) > 0,
{
    lemma_pow2_le(0, e - l);
    if l <= t {
        lemma_pow2_le(0, t - l);
        if m > 0 {
            lemma_pow2_mul(t - e, e - l);
            let p = pow2(e - l);
            assert(m * p <= pow2(t - e) * p) by (nonlinear_arith)
                requires
                    m <= pow2(t - e),
                    p > 0,
            ;
        } else {
            assert(0 * pow2(e - l) == 0);
        }
    }
}

pub proof fn lemma_product_within(a: Single, b: Single, t: int, u: int)
    requires
        within(a, t),
        within(b, u),
        -149 <= t,
        -149 <= u,
        -149 <= t + u <= 127,
    ensures
        within(product(a, b), t + u),
{
    reveal(product);
    let (m, e) = (a->mant as int, a->exp as int);
    let (n, f) = (b->mant as int, b->exp as int);
    lemma_within(a, t);
    lemma_within(b, u);
    if m == 0 || n == 0 {
        assert(m * n == 0) by (nonlinear_arith)
            requires
                m == 0 || n == 0,
        ;
        let z = zero(a->Finite_neg != b->Finite_neg);
        lemma_zero(z);
        lemma_zero_within(z, t + u);
    } else {
        lemma_pow2_mul(t - e, u - f);
        let x = pow2(t - e);
        let y = pow2(u - f);
        assert(0 < m * n <= x * y) by (nonlinear_arith)
            requires
                0 < m <= x,
                0 < n <= y,
        ;
        vstd::arithmetic::power2::lemma2_to64();
        assert((m * n) * 1 <= 1 * pow2(t - e + u - f));
        lemma_rounded_within(a->Finite_neg != b->Finite_neg, m * n, 1, e + f, t - e + u - f, 0);
    }
}

/// The quotient by a value of at least `2^u`.
pub proof fn lemma_quotient_within(a: Single, b: Single, t: int, u: int)
    requires
        within(a, t),
        b is Finite,
        b.wf(),
        b->mant >= 0x80_0000,
        b->exp + 23 >= u,
        -149 <= t,
        -149 <= t - u <= 127,
        t - b->exp - 23 >= -149,
    ensures
        within(quotient(a, b), t - u),
{
    reveal(quotient);
    let (m, e) = (a->mant as int, a->exp as int);
    let (n, f) = (b->mant as int, b->exp as int);
    lemma_within(a, t);
    let neg = a->Finite_neg != b->Finite_neg;
    if m == 0 {
        lemma_zero(zero(neg));
        lemma_zero_within(zero(neg), t - u);
    } else {
        vstd::arithmetic::power2::lemma2_to64();
        let x = pow2(t - e);
        lemma_pow2_le(0, t - e);
        assert(m * 0x80_0000 <= n * x) by (nonlinear_arith)
            requires
                0 < m <= x,
                n >= 0x80_0000,
        ;
        lemma_rounded_within(neg, m, n, e - f, t - e, 23);
        lemma_within_more(quotient(a, b), t - f - 23, t - u);
    }
}

/// What `n * 2^k` is rounded to has an exponent as large as that of a power of two below it.
proof fn lemma_rounded_least(neg: bool, n: int, k: int, b: int)
    requires
        b >= 0,
        n >= pow2(b),
        rounded(neg, n, 1, k) is Finite,
    ensures
        rounded(neg, n, 1, k)->exp >= b + k - 23,
        rounded(neg, n, 1, k)->Finite_neg == neg,
{
    lemma_pow2_le(0, b);
    lemma_bits(n);
    assert(n / 1 == n);
    if bits(n) <= b {
        lemma_pow2_le(bits(n), b);
    }
}

/// A square is not negative, and its exponent follows that of its root.
pub proof fn lemma_square_least(a: Single)
    requires
        a is Finite,
        a.wf(),
        product(a, a) is Finite,
    ensures
        !product(a, a)->Finite_neg,
        a->mant >= 0x80_0000 ==> product(a, a)->exp >= 2 * a->exp + 23,
{
    reveal(product);
    let m = a->mant as int;
    if m >= 0x80_0000 {
        vstd::arithmetic::power2::lemma2_to64();
        vstd::arithmetic::power2::lemma2_to64_rest();
        assert(m * m >= 0x80_0000 * 0x80_0000) by (nonlinear_arith)
            requires
                m >= 0x80_0000,
        ;
        lemma_rounded_least(false, m * m, a->exp + a->exp, 46);
    }
}

/// A sum of values that are not negative is not negative either, and its exponent is not less than
/// that of a normal one of them.
pub proof fn lemma_sum_least(a: Single, b: Single)
    requires
        a is Finite,
        b is Finite,
        a.wf(),
        b.wf(),
        !a->Finite_neg,
        !b->Finite_neg,
        sum(a, b) is Finite,
    ensures
        !sum(a, b)->Finite_neg,
        a->mant >= 0x80_0000 ==> sum(a, b)->exp >= a->exp,
        b->mant >= 0x80_0000 ==> sum(a, b)->exp >= b->exp,
{
    reveal(sum);
    let (m, e) = (a->mant as int, a->exp as int);
    let (n, f) = (b->mant as int, b->exp as int);
    let l = least(e, f);
    lemma_pow2_le(0, e - l);
    lemma_pow2_le(0, f - l);
    lemma_signed_bound(false, m, pow2(e - l));
    lemma_signed_bound(false, n, pow2(f - l));
    let x = exact_sum(false, m, e, false, n, f);
    assert(x == m * pow2(e - l) + n * pow2(f - l));
    vstd::arithmetic::power2::lemma2_to64();
    if m >= 0x80_0000 {
        lemma_scaled_least(m, e - l);
        lemma_rounded_least(false, x, l, 23 + e - l);
    }
    if n >= 0x80_0000 {
        lemma_scaled_least(n, f - l);
        lemma_rounded_least(false, x, l, 23 + f - l);
    }
}

proof fn lemma_scaled_least(m: int, j: int)
    requires
        m >= 0x80_0000,
        j >= 0,
    ensures
        m * pow2(j) >= pow2(23 + j) > 0,
{
    vstd::arithmetic::power2::lemma2_to64();
    lemma_pow2_mul(23, j);
    let p = pow2(j);
    assert(m * p >= 0x80_0000 * p) by (nonlinear_arith)
        requires
            m >= 0x80_0000,
            p > 0,
    ;
    lemma_pow2_le(0, 23 + j);
}

/// Every number has a square root, rounded down.
proof fn lemma_isqrt_found(n: int) -> (t: int)
    requires
        n >= 0,
    ensures
        is_isqrt(n, t),
        isqrt(n) == t,
    decreases n,
{
    if n == 0 {
        lemma_isqrt(0, 0);
        0
    } else {
        let u = lemma_isqrt_found(n - 1);
        let t = if (u + 1) * (u + 1) <= n {
            u + 1
        } else {
            u
        };
        assert(n < (t + 1) * (t + 1)) by (nonlinear_arith)
            requires
                u >= 0,
                n - 1 < (u + 1) * (u + 1),
                t == u + 1 || (t == u && (u + 1) * (u + 1) > n),
        ;
        lemma_isqrt(n, t);
        t
    }
}

/// The square root of a positive value is a normal positive value with half the exponent.
pub proof fn lemma_root(a: Single)
    requires
        a is Finite,
        a.wf(),
        !a->Finite_neg,
        a->mant > 0,
    ensures
        root(a) is Finite,
        root(a).wf(),
        !root(a)->Finite_neg,
        root(a)->mant >= 0x80_0000,
        a->mant >= 0x80_0000 ==> 2 * root(a)->exp >= a->exp - 24,
        2 * root(a)->exp <= a->exp - 21,
{
    reveal(root);
    let (m, e) = (a->mant as int, a->exp as int);
    vstd::arithmetic::power2::lemma2_to64();
    vstd::arithmetic::power2::lemma2_to64_rest();
    lemma_bits(m);
    lemma_bits_le(m, 24);
    let j0 = 47 - bits(m);
    let j = if (e - j0) % 2 == 0 {
        j0
    } else {
        j0 + 1
    };
    if m >= 0x80_0000 {
        lemma_bits_unique(m, 24);
    }
    let n = m * pow2(j);
    lemma_pow2_mul(bits(m) - 1, j);
    lemma_pow2_mul(bits(m), j);
    let p = pow2(j);
    assert(pow2(bits(m) - 1) * p <= n < pow2(bits(m)) * p) by (nonlinear_arith)
        requires
            pow2(bits(m) - 1) <= m < pow2(bits(m)),
            n == m * p,
            p > 0,
    ;
    lemma_pow2_le(46, bits(m) - 1 + j);
    lemma_pow2_le(bits(m) + j, 48);
    let t = lemma_isqrt_found(n);
    assert(0x80_0000 <= t < 0x100_0000) by (nonlinear_arith)
        requires
            t >= 0,
            t * t <= n < (t + 1) * (t + 1),
            0x80_0000 * 0x80_0000 <= n < 0x100_0000 * 0x100_0000,
    ;
}

/// An exact value keeps within a power of two.
pub proof fn lemma_exact_within(a: Single, v: int, k: int, t: int)
    requires
        is_exactly(a, v, k),
        -149 <= k <= t,
        -pow2(t - k) <= v <= pow2(t - k),
    ensures
        within(a, t),
{
    let m = a->mant as int;
    let p = pow2(a->exp + 149);
    let q = pow2(k + 149);
    lemma_pow2_le(0, a->exp + 149);
    lemma_pow2_mul(t - k, k + 149);
    let g = pow2(t - k);
    lemma_signed_bound(a->Finite_neg, m, p);
    assert(-(g * q) <= v * q <= g * q) by (nonlinear_arith)
        requires
            -g <= v <= g,
            q > 0,
    ;
    assert((-m) * p == -(m * p)) by (nonlinear_arith);
}

/// A value keeps within the power of two that its exponent gives.
pub proof fn lemma_exponent_within(a: Single, e: int)
    requires
        a is Finite,
        a.wf(),
        a->exp <= e,
    ensures
        within(a, e + 24),
{
    vstd::arithmetic::power2::lemma2_to64();
    lemma_pow2_le(a->exp + 149, e + 149);
    lemma_pow2_mul(24, e + 149);
    let m = a->mant as int;
    let p = pow2(a->exp + 149);
    let q = pow2(e + 149);
    assert(m * p <= 0x100_0000 * q) by (nonlinear_arith)
        requires
            0 <= m <= 0x100_0000,
            0 < p <= q,
    ;
}

/// The exponent of a value that is within a power of two and not 0.
pub proof fn lemma_within_exponent(a: Single, t: int)
    requires
        within(a, t),
        t >= -149,
        a->mant > 0,
    ensures
        a->exp <= t,
{
    lemma_within(a, t);
}

/// A positive normal value is not less than one with a much smaller exponent.
pub proof fn lemma_not_less(a: Single, b: Single)
    requires
        a is Finite,
        b is Finite,
        a.wf(),
        b.wf(),
        !a->Finite_neg,
        !b->Finite_neg,
        a->mant >= 0x80_0000,
        b->exp < a->exp,
    ensures
        !less(a, b),
{
    let (m, e) = (a->mant as int, a->exp as int);
    let (n, f) = (b->mant as int, b->exp as int);
    reveal(less);
    assert(least(e, f) == f);
    vstd::arithmetic::power2::lemma2_to64();
    lemma_pow2_le(1, e - f);
    let p = pow2(e - f);
    assert(m * p >= 0x100_0000) by (nonlinear_arith)
        requires
            m >= 0x80_0000,
            p >= 2,
    ;
    assert(n * pow2(0) == n) by (nonlinear_arith)
        requires
            pow2(0) == 1,
    ;
}

/// Rounding a ratio gives an integer no further from it than a half, and from the middle between two
/// the even one.
pub proof fn law_half_even(n: int, d: int)
    requires
        0 < d,
    ensures
        ({
            let h = half_even(n, d);
            &&& -d <= 2 * (h * d - n) <= d
            &&& 2 * (h * d - n) == d || 2 * (h * d - n) == -d ==> h % 2 == 0
        }),
{
    let q = n / d;
    let r = n % d;
    vstd::arithmetic::div_mod::lemma_fundamental_div_mod(n, d);
    assert(0 <= r < d) by (nonlinear_arith)
        requires
            r == n % d,
            0 < d,
    ;
    assert(q * d == d * q && (q + 1) * d == d * q + d) by (nonlinear_arith);
}

/// Values that are no numbers make no numbers. An infinity stays one in sums with finite values, and
/// two of opposite signs make no number; times 0 it makes none. Dividing by 0 makes an infinity, but
/// 0 by 0 no number, and dividing by an infinity makes 0. The sign of a product and of a quotient is
/// minus exactly if the signs differ.
pub proof fn law_special_values(a: Single, n: bool, o: bool, m: u32, e: i32)
    requires
        m > 0,
    ensures
        ({
            let inf = Single::Infinite { neg: n };
            let other = Single::Infinite { neg: o };
            let fin = Single::Finite { neg: o, mant: m, exp: e };
            let nil = zero(o);
            &&& sum(a, Single::Nan) is Nan && sum(Single::Nan, a) is Nan
            &&& product(a, Single::Nan) is Nan && product(Single::Nan, a) is Nan
            &&& quotient(a, Single::Nan) is Nan && quotient(Single::Nan, a) is Nan
            &&& remainder(a, Single::Nan) is Nan && remainder(Single::Nan, a) is Nan
            &&& !less(a, Single::Nan) && !less(Single::Nan, a)
            &&& sum(inf, fin) == inf && sum(fin, inf) == inf
            &&& n == o ==> sum(inf, other) == inf && difference(inf, other) is Nan
            &&& n != o ==> sum(inf, other) is Nan && difference(inf, other) == inf
            &&& product(inf, nil) is Nan && product(nil, inf) is Nan
            &&& product(inf, fin) == (Single::Infinite { neg: n != o })
            &&& product(fin, inf) == (Single::Infinite { neg: n != o })
            &&& quotient(inf, other) is Nan
            &&& quotient(inf, fin) == (Single::Infinite { neg: n != o })
            &&& quotient(fin, inf) == zero(n != o)
            &&& quotient(fin, zero(n)) == (Single::Infinite { neg: n != o })
            &&& quotient(nil, zero(n)) is Nan
            &&& remainder(inf, fin) is Nan && remainder(fin, inf) == fin && remainder(fin, nil)
                is Nan
            &&& less(inf, fin) == n && less(fin, inf) == !n && less(inf, other) == (n && !o)
        }),
{
    reveal(sum);
    reveal(product);
    reveal(quotient);
    reveal(remainder);
    reveal(less);
}

/// Arithmetic on whole numbers that have room for the result is that of the integers, and so is
/// their order.
pub proof fn law_whole_numbers(v: int, w: int)
    requires
        1 <= v,
        1 <= w,
        v + w < 0x100_0000,
        v * w < 0x100_0000,
    ensures
        is_exactly(sum(whole_number(v), whole_number(w)), v + w, 0),
        is_exactly(difference(whole_number(v), whole_number(w)), v - w, 0),
        product(whole_number(v), whole_number(w)) == whole_number(v * w),
        quotient(whole_number(v * w), whole_number(w)) == whole_number(v),
        less(whole_number(v), whole_number(w)) == (v < w),
        is_exactly(whole_number(v), v, 0),
{
    vstd::arithmetic::power2::lemma2_to64();
    assert(v * pow2(0) == v && w * pow2(0) == w) by (nonlinear_arith)
        requires
            pow2(0) == 1,
    ;
    lemma_whole_number(v, 0);
    lemma_whole_number(w, 0);
    lemma_sum_exact(whole_number(v), v, whole_number(w), w, 0);
    lemma_difference_exact(whole_number(v), v, whole_number(w), w, 0);
    lemma_whole_product(v, w);
    lemma_exact_quotient(v, w);
    lemma_less_units(whole_number(v), v, whole_number(w), w, 0);
}

/// The nearest integer to a fraction is no further from it than a half, from the middle the larger;
/// without its fraction a value is no larger, by less than 1.
pub proof fn law_integers_of(mant: int, k: int)
    requires
        0 <= mant,
        0 < k,
    ensures
        ({
            let p = pow2(k);
            let v = nearest(mant, -k);
            let t = truncated(mant, -k);
            &&& -p <= 2 * (mant - v * p) < p
            &&& 0 <= mant - t * p < p
        }),
{
    lemma_pow2_le(0, k);
    vstd::arithmetic::power2::lemma2_to64();
    let p = pow2(k);
    let v = nearest(mant, -k);
    let t = truncated(mant, -k);
    assert(v * (2 * p) <= 2 * mant + p < (v + 1) * (2 * p)) by (nonlinear_arith)
        requires
            v == (2 * mant + p) / (2 * p),
            p > 0,
            mant >= 0,
    ;
    assert(t * p <= mant < (t + 1) * p) by (nonlinear_arith)
        requires
            t == mant / p,
            p > 0,
            mant >= 0,
    ;
    assert(v * (2 * p) == 2 * (v * p) && (v + 1) * (2 * p) == 2 * (v * p) + 2 * p && (t + 1) * p
        == t * p + p) by (nonlinear_arith);
}

/// The smaller and the larger of two values are one of them each, in their order; a value between
/// the limits is not moved, and one outside them goes to the limit on its side. The magnitude has no
/// sign.
pub proof fn law_choices(a: Single, b: Single, low: Single, high: Single)
    ensures
        less(a, b) ==> minimum(a, b) == a || less(b, a),
        less(b, a) ==> minimum(a, b) == b,
        less(a, b) ==> maximum(a, b) == b,
        less(b, a) && !less(a, b) ==> maximum(a, b) == a,
        minimum(Single::Nan, b) == b && maximum(Single::Nan, b) == b,
        less(a, low) ==> clamped(a, low, high) == low,
        !less(a, low) && less(high, a) ==> clamped(a, low, high) == high,
        !less(a, low) && !less(high, a) ==> clamped(a, low, high) == a,
        magnitude(negated(a)) == magnitude(a),
        magnitude(a) is Finite ==> !magnitude(a)->Finite_neg,
        negated(negated(a)) == a,
        a is Finite ==> negated(a)->Finite_neg != a->Finite_neg,
{
    reveal(less);
}

} // verus!
