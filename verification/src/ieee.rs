//! Binary floating point of the IEEE 754 formats binary32 and binary64, computed on integers.
//!
//! A number is a sign and a code: the bits below the sign bit. Every finite number is a whole
//! multiple of the smallest positive one, the unit of its format, so that the value of a number is
//! an integer and each operation is the exact result rounded once, to the nearest number with ties
//! to the even code.
use vstd::arithmetic::{div_mod, mul, power2};
use vstd::prelude::*;

verus! {

/// The two formats, told apart by the number of fraction bits.
pub open spec fn is_format(m: nat) -> bool {
    m == 23 || m == 52
}

/// The exponent field of infinity.
pub open spec fn top_field(m: nat) -> nat {
    if m == 23 {
        255
    } else {
        2047
    }
}

/// How many doublings lead from the unit to one.
pub open spec fn unit_exponent(m: nat) -> nat {
    if m == 23 {
        149
    } else {
        1074
    }
}

/// The code of infinity; the codes above it are not numbers.
pub open spec fn infinity_code(m: nat) -> nat {
    top_field(m) * power2::pow2(m)
}

/// The value of a finite code, in units.
pub open spec fn magnitude(m: nat, code: nat) -> nat {
    if code < power2::pow2(m) {
        code
    } else {
        (power2::pow2(m) + code % power2::pow2(m)) * power2::pow2((code / power2::pow2(m) - 1) as nat)
    }
}

/// How often `limit` has to be doubled to exceed `num`.
pub open spec fn doublings(num: nat, limit: nat) -> nat
    decreases (if num >= limit { num - limit + 1 } else { 0 }),
{
    if limit == 0 || num < limit {
        0
    } else {
        1 + doublings(num, 2 * limit)
    }
}

/// The code nearest to `num / den` units, ties to the even code; infinity above the largest number.
pub open spec fn nearest(m: nat, num: nat, den: nat) -> nat {
    let q = doublings(num, power2::pow2(m + 1) * den);
    let unit = den * power2::pow2(q);
    let whole = num / unit;
    let rest = num % unit;
    let up: nat = if 2 * rest > unit || (2 * rest == unit && whole % 2 == 1) {
        1
    } else {
        0
    };
    let code = q * power2::pow2(m) + whole + up;
    if code < infinity_code(m) {
        code
    } else {
        infinity_code(m)
    }
}

proof fn lemma_doublings_is(num: nat, limit: nat, q: nat)
    requires
        limit > 0,
        num < limit * power2::pow2(q),
        q > 0 ==> num >= limit * power2::pow2((q - 1) as nat),
    ensures
        doublings(num, limit) == q,
    decreases q,
{
    reveal_with_fuel(doublings, 2);
    assert(power2::pow2(0) == 1) by {
        lemma_pow2_zero();
    }
    if q == 0 {
    } else {
        power2::lemma_pow2_unfold(q);
        power2::lemma_pow2_pos((q - 1) as nat);
        assert(limit * power2::pow2(q) == (2 * limit) * power2::pow2((q - 1) as nat)) by (nonlinear_arith)
            requires
                power2::pow2(q) == 2 * power2::pow2((q - 1) as nat),
        ;
        assert(num >= limit) by (nonlinear_arith)
            requires
                num >= limit * power2::pow2((q - 1) as nat),
                power2::pow2((q - 1) as nat) >= 1,
                limit > 0,
        ;
        if q > 1 {
            power2::lemma_pow2_unfold((q - 1) as nat);
            assert(limit * power2::pow2((q - 1) as nat) == (2 * limit) * power2::pow2((q - 2) as nat)) by (nonlinear_arith)
                requires
                    power2::pow2((q - 1) as nat) == 2 * power2::pow2((q - 2) as nat),
            ;
        }
        lemma_doublings_is(num, 2 * limit, (q - 1) as nat);
    }
}

proof fn lemma_pow2_zero()
    ensures
        power2::pow2(0) == 1,
{
    vstd::arithmetic::power2::lemma2_to64();
}

/// `doublings` counts the doublings that are needed, and no more.
proof fn lemma_doublings_bounds(num: nat, limit: nat)
    requires
        limit > 0,
    ensures
        num < limit * power2::pow2(doublings(num, limit)),
        doublings(num, limit) > 0 ==> num >= limit * power2::pow2((doublings(num, limit) - 1) as nat),
    decreases (if num >= limit { num - limit + 1 } else { 0 }),
{
    lemma_pow2_zero();
    assert(limit * power2::pow2(0) == limit) by (nonlinear_arith)
        requires
            power2::pow2(0) == 1,
    ;
    if num >= limit {
        lemma_doublings_bounds(num, 2 * limit);
        let q = doublings(num, 2 * limit);
        power2::lemma_pow2_unfold(q + 1);
        assert(limit * power2::pow2(q + 1) == (2 * limit) * power2::pow2(q)) by (nonlinear_arith)
            requires
                power2::pow2(q + 1) == 2 * power2::pow2(q),
        ;
        if q > 0 {
            power2::lemma_pow2_unfold(q);
            assert(limit * power2::pow2(q) == (2 * limit) * power2::pow2((q - 1) as nat)) by (nonlinear_arith)
                requires
                    power2::pow2(q) == 2 * power2::pow2((q - 1) as nat),
            ;
        }
    }
}

/// Dividing by a multiple of `c` what is a multiple of `c`.
proof fn lemma_div_scaled(num: nat, den: nat, c: nat)
    requires
        den > 0,
        c > 0,
    ensures
        (num * c) / (den * c) == num / den,
        (num * c) % (den * c) == (num % den) * c,
        den * c > 0,
{
    let t = num / den;
    let r = num % den;
    div_mod::lemma_fundamental_div_mod(num as int, den as int);
    div_mod::lemma_mod_bound(num as int, den as int);
    assert(num * c == t * (den * c) + r * c) by (nonlinear_arith)
        requires
            num == den * t + r,
    ;
    assert(0 <= r * c < den * c) by (nonlinear_arith)
        requires
            0 <= r < den,
            c > 0,
    ;
    div_mod::lemma_fundamental_div_mod_converse((num * c) as int, (den * c) as int, t as int, (r * c) as int);
}

/// Only the ratio of numerator and denominator counts.
pub(crate) proof fn lemma_nearest_scaled(m: nat, num: nat, den: nat, c: nat)
    requires
        den > 0,
        c > 0,
    ensures
        nearest(m, num * c, den * c) == nearest(m, num, den),
        den * c > 0,
{
    let limit = power2::pow2(m + 1) * den;
    power2::lemma_pow2_pos(m + 1);
    assert(limit > 0) by (nonlinear_arith)
        requires
            limit == power2::pow2(m + 1) * den,
            power2::pow2(m + 1) > 0,
            den > 0,
    ;
    let q = doublings(num, limit);
    lemma_doublings_bounds(num, limit);
    assert(power2::pow2(m + 1) * (den * c) == limit * c) by (nonlinear_arith)
        requires
            limit == power2::pow2(m + 1) * den,
    ;
    assert((num * c) < (limit * c) * power2::pow2(q)) by (nonlinear_arith)
        requires
            num < limit * power2::pow2(q),
            c > 0,
    ;
    if q > 0 {
        let p = power2::pow2((q - 1) as nat);
        assert((num * c) >= (limit * c) * p) by (nonlinear_arith)
            requires
                num >= limit * p,
                c > 0,
        ;
    }
    assert(limit * c > 0) by (nonlinear_arith)
        requires
            limit > 0,
            c > 0,
    ;
    lemma_doublings_is(num * c, limit * c, q);
    let unit = den * power2::pow2(q);
    power2::lemma_pow2_pos(q);
    assert(unit > 0) by (nonlinear_arith)
        requires
            unit == den * power2::pow2(q),
            den > 0,
            power2::pow2(q) > 0,
    ;
    assert((den * c) * power2::pow2(q) == unit * c) by (nonlinear_arith)
        requires
            unit == den * power2::pow2(q),
    ;
    lemma_div_scaled(num, unit, c);
    let r = num % unit;
    assert(2 * (r * c) > unit * c <==> 2 * r > unit) by (nonlinear_arith)
        requires
            c > 0,
    ;
    assert(2 * (r * c) == unit * c <==> 2 * r == unit) by (nonlinear_arith)
        requires
            c > 0,
    ;
}

/// The code nearest to `n * 2^q / den` when `n / den` has as many bits as a fraction.
proof fn lemma_nearest_at(m: nat, n: nat, den: nat, q: nat)
    requires
        den > 0,
        n < power2::pow2(m + 1) * den,
        q > 0 ==> n >= power2::pow2(m) * den,
    ensures
        ({
            let whole = n / den;
            let rest = n % den;
            let up: nat = if 2 * rest > den || (2 * rest == den && whole % 2 == 1) {
                1
            } else {
                0
            };
            let code = q * power2::pow2(m) + whole + up;
            nearest(m, n * power2::pow2(q), den) == if code < infinity_code(m) {
                code
            } else {
                infinity_code(m)
            }
        }),
{
    power2::lemma_pow2_pos(q);
    power2::lemma_pow2_pos(m + 1);
    let limit = power2::pow2(m + 1) * den;
    assert(n * power2::pow2(q) < limit * power2::pow2(q)) by (nonlinear_arith)
        requires
            n < limit,
            power2::pow2(q) > 0,
    ;
    if q > 0 {
        power2::lemma_pow2_unfold(q);
        power2::lemma_pow2_unfold(m + 1);
        let h = power2::pow2((q - 1) as nat);
        let f = power2::pow2(m);
        assert(limit == 2 * (f * den)) by (nonlinear_arith)
            requires
                limit == power2::pow2(m + 1) * den,
                power2::pow2(m + 1) == 2 * f,
        ;
        assert(n * power2::pow2(q) >= limit * h) by (nonlinear_arith)
            requires
                2 * n >= limit,
                power2::pow2(q) == 2 * h,
        ;
    }
    lemma_doublings_is(n * power2::pow2(q), limit, q);
    lemma_div_scaled(n, den, power2::pow2(q));
    let rest = n % den;
    assert(2 * (rest * power2::pow2(q)) > den * power2::pow2(q) <==> 2 * rest > den) by (nonlinear_arith)
        requires
            power2::pow2(q) > 0,
    ;
    assert(2 * (rest * power2::pow2(q)) == den * power2::pow2(q) <==> 2 * rest == den) by (nonlinear_arith)
        requires
            power2::pow2(q) > 0,
    ;
}

/// The same ratio, written with other powers of two.
proof fn lemma_nearest_moved(m: nat, n: nat, d: nat, up: nat, down: nat, q: nat, s: nat)
    requires
        d > 0,
        up + s == down + q,
    ensures
        nearest(m, n * power2::pow2(up), d * power2::pow2(down)) == nearest(m, n * power2::pow2(q), d * power2::pow2(s)),
{
    power2::lemma_pow2_pos(s);
    power2::lemma_pow2_pos(down);
    mul::lemma_mul_strictly_positive(d as int, power2::pow2(down) as int);
    mul::lemma_mul_strictly_positive(d as int, power2::pow2(s) as int);
    lemma_nearest_scaled(m, n * power2::pow2(up), d * power2::pow2(down), power2::pow2(s));
    lemma_nearest_scaled(m, n * power2::pow2(q), d * power2::pow2(s), power2::pow2(down));
    power2::lemma_pow2_adds(up, s);
    power2::lemma_pow2_adds(q, down);
    mul::lemma_mul_is_associative(n as int, power2::pow2(up) as int, power2::pow2(s) as int);
    mul::lemma_mul_is_associative(n as int, power2::pow2(q) as int, power2::pow2(down) as int);
    mul::lemma_mul_is_associative(d as int, power2::pow2(down) as int, power2::pow2(s) as int);
    mul::lemma_mul_is_associative(d as int, power2::pow2(s) as int, power2::pow2(down) as int);
    mul::lemma_mul_is_commutative(power2::pow2(s) as int, power2::pow2(down) as int);
}

fn power_of_two(e: u32) -> (r: u128)
    requires
        e < 128,
    ensures
        r == power2::pow2(e as nat),
{
    if e < 64 {
        let r: u64 = 1u64 << e;
        proof {
            vstd::bits::lemma_u64_pow2_no_overflow(e as nat);
            vstd::bits::lemma_u64_shl_is_mul(1, e as u64);
        }
        r as u128
    } else {
        let h: u32 = e - 64;
        let r: u64 = 1u64 << h;
        proof {
            vstd::bits::lemma_u64_pow2_no_overflow(h as nat);
            vstd::bits::lemma_u64_shl_is_mul(1, h as u64);
            power2::lemma_pow2_adds(h as nat, 64);
            vstd::arithmetic::power2::lemma2_to64();
        }
        (r as u128) * 0x1_0000_0000_0000_0000u128
    }
}

/// The number of binary digits of a positive number.
fn bit_length(n: u128) -> (b: u32)
    requires
        n > 0,
    ensures
        1 <= b <= 128,
        n >= power2::pow2((b - 1) as nat),
        n < power2::pow2(b as nat),
{
    let mut low: u32 = 0;
    let mut step: u32 = 64;
    proof {
        lemma_pow2_zero();
        power2::lemma_pow2_adds(64, 64);
        vstd::arithmetic::power2::lemma2_to64();
    }
    while step > 0
        invariant
            step == 64 || step == 32 || step == 16 || step == 8 || step == 4 || step == 2 || step == 1
                || step == 0,
            n >= power2::pow2(low as nat),
            step > 0 ==> low + 2 * step <= 128 && n < power2::pow2((low + 2 * step) as nat),
            step == 0 ==> low < 128 && n < power2::pow2((low + 1) as nat),
        decreases step,
    {
        if n >= power_of_two(low + step) {
            low = low + step;
        }
        step = step / 2;
    }
    low + 1
}

/// The code of `t` at the scale `q`, or infinity.
fn pack(m: u32, q: u32, t: u64) -> (code: u64)
    requires
        is_format(m as nat),
        t <= power2::pow2(m as nat + 1),
    ensures
        code == if q * power2::pow2(m as nat) + t < infinity_code(m as nat) {
            q * power2::pow2(m as nat) + t
        } else {
            infinity_code(m as nat) as int
        },
{
    proof {
        vstd::arithmetic::power2::lemma2_to64();
        vstd::arithmetic::power2::lemma2_to64_rest();
    }
    let fraction: u64 = if m == 23 {
        0x80_0000
    } else {
        0x10_0000_0000_0000
    };
    let top: u32 = if m == 23 {
        255
    } else {
        2047
    };
    let limit: u64 = top as u64 * fraction;
    assert(limit == infinity_code(m as nat));
    if q >= top {
        assert(q * power2::pow2(m as nat) >= infinity_code(m as nat)) by (nonlinear_arith)
            requires
                q >= top_field(m as nat),
                infinity_code(m as nat) == top_field(m as nat) * power2::pow2(m as nat),
                power2::pow2(m as nat) >= 0,
        ;
        return limit;
    }
    assert(q * fraction <= 2047 * 0x10_0000_0000_0000) by (nonlinear_arith)
        requires
            0 <= q <= 2047,
            0 <= fraction <= 0x10_0000_0000_0000,
    ;
    let code: u64 = q as u64 * fraction + t;
    if code < limit {
        code
    } else {
        limit
    }
}

/// The code nearest to `n * 2^e` units.
fn round(m: u32, n: u128, e: i32) -> (code: u64)
    requires
        is_format(m as nat),
        0 < n < power2::pow2(120),
        -4000 <= e <= 4000,
    ensures
        e >= 0 ==> code == nearest(m as nat, n as nat * power2::pow2(e as nat), 1),
        e < 0 ==> code == nearest(m as nat, n as nat, power2::pow2((-e) as nat)),
{
    let b: u32 = bit_length(n);
    let excess: i32 = b as i32 + e - (m as i32 + 1);
    let q: i32 = if excess > 0 {
        excess
    } else {
        0
    };
    let s: i32 = q - e;
    let ghost up: nat = if e >= 0 {
        e as nat
    } else {
        0
    };
    let ghost down: nat = if e >= 0 {
        0
    } else {
        (-e) as nat
    };
    let ghost n0 = n as nat;
    let ghost mm = m as nat;
    proof {
        lemma_pow2_zero();
        assert(n0 * power2::pow2(0) == n0) by (nonlinear_arith)
            requires
                power2::pow2(0) == 1,
        ;
        vstd::arithmetic::power2::lemma2_to64();
        vstd::arithmetic::power2::lemma2_to64_rest();
    }
    if s <= 0 {
        let l: u32 = (-s) as u32;
        proof {
            power2::lemma_pow2_adds(b as nat, l as nat);
            power2::lemma_pow2_adds((b - 1) as nat, l as nat);
            power2::lemma_pow2_pos(l as nat);
            assert(n0 * power2::pow2(l as nat) < power2::pow2(b as nat) * power2::pow2(l as nat)) by (nonlinear_arith)
                requires
                    n0 < power2::pow2(b as nat),
                    power2::pow2(l as nat) > 0,
            ;
            if b + l < m + 1 {
                power2::lemma_pow2_strictly_increases((b + l) as nat, mm + 1);
            }
        }
        assert(l <= m + 1);
        assert(n0 * power2::pow2(l as nat) < power2::pow2(mm + 1));
        let p: u128 = power_of_two(l);
        assert(power2::pow2(mm + 1) <= 0x20_0000_0000_0000);
        let t: u64 = (n * p) as u64;
        proof {
            assert(t as nat == n0 * power2::pow2(l as nat));
            if q > 0 {
                assert(b + l == m + 1);
                assert(n0 * power2::pow2(l as nat) >= power2::pow2((b - 1) as nat) * power2::pow2(l as nat)) by (nonlinear_arith)
                    requires
                        n0 >= power2::pow2((b - 1) as nat),
                ;
            }
            vstd::arithmetic::mul::lemma_mul_basics(power2::pow2(mm + 1) as int);
            vstd::arithmetic::mul::lemma_mul_basics(power2::pow2(mm) as int);
            vstd::arithmetic::mul::lemma_mul_basics(power2::pow2(down) as int);
            lemma_nearest_at(mm, t as nat, 1, q as nat);
            power2::lemma_pow2_adds(l as nat, q as nat);
            mul::lemma_mul_is_associative(n0 as int, power2::pow2(l as nat) as int, power2::pow2(q as nat) as int);
            lemma_nearest_moved(mm, n0, 1, up, down, (l + q) as nat, 0);
        }
        pack(m, q as u32, t)
    } else {
        proof {
            lemma_nearest_moved(mm, n0, 1, up, down, q as nat, s as nat);
            power2::lemma_pow2_adds(mm + 1, s as nat);
            power2::lemma_pow2_adds(mm, s as nat);
            if b < m + 1 + s {
                power2::lemma_pow2_strictly_increases(b as nat, (m + 1 + s) as nat);
            }
            power2::lemma_pow2_pos(s as nat);
            lemma_nearest_at(mm, n0, power2::pow2(s as nat), q as nat);
        }
        if s > b as i32 {
            proof {
                assert(q == 0);
                power2::lemma_pow2_unfold(s as nat);
                if b < s - 1 {
                    power2::lemma_pow2_strictly_increases(b as nat, (s - 1) as nat);
                }
                vstd::arithmetic::div_mod::lemma_small_mod(n0, power2::pow2(s as nat));
                vstd::arithmetic::div_mod::lemma_basic_div(n0 as int, power2::pow2(s as nat) as int);
                assert(0 * power2::pow2(mm) == 0);
            }
            return 0;
        }
        proof {
            if b > 120 {
                power2::lemma_pow2_strictly_increases(120, b as nat);
                if b > 121 {
                    power2::lemma_pow2_strictly_increases(120, (b - 1) as nat);
                }
            }
        }
        let p: u128 = power_of_two(s as u32);
        proof {
            let p0 = p as nat;
            div_mod::lemma_fundamental_div_mod(n0 as int, p0 as int);
            div_mod::lemma_mod_bound(n0 as int, p0 as int);
            assert((n0 / p0) < power2::pow2(mm + 1)) by (nonlinear_arith)
                requires
                    n0 < power2::pow2(mm + 1) * p0,
                    n0 == p0 * (n0 / p0) + n0 % p0,
                    n0 % p0 >= 0,
                    p0 > 0,
            ;
        }
        let t: u64 = (n / p) as u64;
        let rest: u128 = n % p;
        let up: u64 = if rest > p - rest || (rest == p - rest && t % 2 == 1) {
            1
        } else {
            0
        };
        pack(m, q as u32, t + up)
    }
}

/// A number of either format: the sign, and the bits below the sign bit.
#[derive(Clone, Copy, Debug, PartialEq, Eq, Structural)]
pub struct Number {
    pub negative: bool,
    pub code: u64,
}

pub open spec fn is_nan(m: nat, a: Number) -> bool {
    a.code > infinity_code(m)
}

pub open spec fn is_infinite(m: nat, a: Number) -> bool {
    a.code == infinity_code(m)
}

pub open spec fn is_finite(m: nat, a: Number) -> bool {
    a.code < infinity_code(m)
}

/// The value of a finite number, in units.
pub open spec fn value(m: nat, a: Number) -> int {
    if a.negative {
        -(magnitude(m, a.code as nat) as int)
    } else {
        magnitude(m, a.code as nat) as int
    }
}

/// What an undefined operation gives.
pub open spec fn not_a_number(m: nat) -> Number {
    Number { negative: false, code: (infinity_code(m) + power2::pow2((m - 1) as nat)) as u64 }
}

pub open spec fn sum(m: nat, a: Number, b: Number) -> Number {
    if is_nan(m, a) || is_nan(m, b) {
        not_a_number(m)
    } else if is_infinite(m, a) {
        if is_infinite(m, b) && a.negative != b.negative {
            not_a_number(m)
        } else {
            a
        }
    } else if is_infinite(m, b) {
        b
    } else {
        let v = value(m, a) + value(m, b);
        if v == 0 {
            Number { negative: a.negative && b.negative, code: 0 }
        } else if v < 0 {
            Number { negative: true, code: nearest(m, (-v) as nat, 1) as u64 }
        } else {
            Number { negative: false, code: nearest(m, v as nat, 1) as u64 }
        }
    }
}

pub open spec fn opposite(a: Number) -> Number {
    Number { negative: !a.negative, code: a.code }
}

pub open spec fn product(m: nat, a: Number, b: Number) -> Number {
    let negative = a.negative != b.negative;
    if is_nan(m, a) || is_nan(m, b) {
        not_a_number(m)
    } else if is_infinite(m, a) || is_infinite(m, b) {
        if a.code == 0 || b.code == 0 {
            not_a_number(m)
        } else {
            Number { negative, code: infinity_code(m) as u64 }
        }
    } else {
        let num = magnitude(m, a.code as nat) * magnitude(m, b.code as nat);
        Number { negative, code: nearest(m, num, power2::pow2(unit_exponent(m))) as u64 }
    }
}

pub open spec fn quotient(m: nat, a: Number, b: Number) -> Number {
    let negative = a.negative != b.negative;
    if is_nan(m, a) || is_nan(m, b) {
        not_a_number(m)
    } else if is_infinite(m, a) {
        if is_infinite(m, b) {
            not_a_number(m)
        } else {
            Number { negative, code: infinity_code(m) as u64 }
        }
    } else if is_infinite(m, b) {
        Number { negative, code: 0 }
    } else if b.code == 0 {
        if a.code == 0 {
            not_a_number(m)
        } else {
            Number { negative, code: infinity_code(m) as u64 }
        }
    } else {
        let num = magnitude(m, a.code as nat) * power2::pow2(unit_exponent(m));
        Number { negative, code: nearest(m, num, magnitude(m, b.code as nat)) as u64 }
    }
}

/// Where a number stands among the numbers; the two zeros stand together.
pub open spec fn rank(a: Number) -> int {
    if a.negative {
        -(a.code as int)
    } else {
        a.code as int
    }
}

pub open spec fn less(m: nat, a: Number, b: Number) -> bool {
    !is_nan(m, a) && !is_nan(m, b) && rank(a) < rank(b)
}

pub open spec fn at_most(m: nat, a: Number, b: Number) -> bool {
    !is_nan(m, a) && !is_nan(m, b) && rank(a) <= rank(b)
}

/// The place in the total order, which tells the zeros apart and holds what is not a number too.
pub open spec fn total_rank(a: Number) -> int {
    if a.negative {
        -1 - a.code
    } else {
        a.code as int
    }
}

/// The number nearest to a whole number.
pub open spec fn from_whole(m: nat, n: nat) -> Number {
    Number { negative: false, code: nearest(m, n * power2::pow2(unit_exponent(m)), 1) as u64 }
}

/// The whole number nearest to the magnitude of a finite number, halves away from zero.
pub open spec fn nearest_whole(m: nat, code: nat) -> nat {
    (2 * magnitude(m, code) + power2::pow2(unit_exponent(m))) / (2 * power2::pow2(unit_exponent(m)))
}

fn infinity_of(m: u32) -> (code: u64)
    requires
        is_format(m as nat),
    ensures
        code == infinity_code(m as nat),
        code + power2::pow2((m - 1) as nat) < 0x7fff_ffff_ffff_ffff,
        m == 23 ==> code + power2::pow2((m - 1) as nat) < 0x7fff_ffff,
{
    proof {
        vstd::arithmetic::power2::lemma2_to64();
        vstd::arithmetic::power2::lemma2_to64_rest();
    }
    if m == 23 {
        0x7f80_0000
    } else {
        0x7ff0_0000_0000_0000
    }
}

fn nan_of(m: u32) -> (r: Number)
    requires
        is_format(m as nat),
    ensures
        r == not_a_number(m as nat),
        m == 23 ==> r.code < 0x8000_0000,
        r.code < 0x8000_0000_0000_0000,
{
    proof {
        vstd::arithmetic::power2::lemma2_to64();
        vstd::arithmetic::power2::lemma2_to64_rest();
    }
    let code: u64 = if m == 23 {
        0x7fc0_0000
    } else {
        0x7ff8_0000_0000_0000
    };
    Number { negative: false, code }
}

/// The digits and the scale of a finite code.
fn parts(m: u32, code: u64) -> (r: (u64, u32))
    requires
        is_format(m as nat),
        code < infinity_code(m as nat),
    ensures
        magnitude(m as nat, code as nat) == r.0 * power2::pow2(r.1 as nat),
        r.0 < power2::pow2(m as nat + 1),
        r.1 > 0 ==> r.0 >= power2::pow2(m as nat),
        r.1 <= top_field(m as nat) - 2,
        code == r.1 * power2::pow2(m as nat) + r.0,
        r.0 == 0 <==> code == 0,
        magnitude(m as nat, code as nat) == 0 <==> code == 0,
        r.0 < 0x20_0000_0000_0000,
{
    proof {
        vstd::arithmetic::power2::lemma2_to64();
        vstd::arithmetic::power2::lemma2_to64_rest();
    }
    let fraction: u64 = if m == 23 {
        0x80_0000
    } else {
        0x10_0000_0000_0000
    };
    assert(fraction == power2::pow2(m as nat));
    if code < fraction {
        assert(code * power2::pow2(0) == code) by (nonlinear_arith)
            requires
                power2::pow2(0) == 1,
        ;
        (code, 0)
    } else {
        let field: u64 = code / fraction;
        let rest: u64 = code % fraction;
        proof {
            let top = top_field(m as nat);
            div_mod::lemma_fundamental_div_mod(code as int, fraction as int);
            assert(field < top) by (nonlinear_arith)
                requires
                    code < top * fraction,
                    code == fraction * field + rest,
                    rest >= 0,
                    fraction > 0,
            ;
            assert(field >= 1) by (nonlinear_arith)
                requires
                    code >= fraction,
                    code == fraction * field + rest,
                    rest < fraction,
            ;
            assert(code == (field - 1) * fraction + (fraction + rest)) by (nonlinear_arith)
                requires
                    code == fraction * field + rest,
            ;
            power2::lemma_pow2_pos((field - 1) as nat);
            mul::lemma_mul_strictly_positive((fraction + rest) as int, power2::pow2((field - 1) as nat) as int);
        }
        (fraction + rest, (field - 1) as u32)
    }
}

/// Codes are ordered as their values are.
proof fn lemma_parts_ordered(m: nat, s1: nat, q1: nat, s2: nat, q2: nat)
    requires
        s1 < power2::pow2(m + 1),
        q1 > 0 ==> s1 >= power2::pow2(m),
        s2 < power2::pow2(m + 1),
        q2 > 0 ==> s2 >= power2::pow2(m),
        q1 * power2::pow2(m) + s1 >= q2 * power2::pow2(m) + s2,
    ensures
        q1 >= q2,
        s1 * power2::pow2(q1) >= s2 * power2::pow2(q2),
        q1 * power2::pow2(m) + s1 > q2 * power2::pow2(m) + s2 ==> s1 * power2::pow2(q1) > s2 * power2::pow2(q2),
{
    power2::lemma_pow2_unfold(m + 1);
    let f = power2::pow2(m);
    power2::lemma_pow2_pos(m);
    power2::lemma_pow2_pos(q1);
    power2::lemma_pow2_pos(q2);
    if q1 < q2 {
        assert(q1 * f + s1 < q2 * f + s2) by (nonlinear_arith)
            requires
                q1 + 1 <= q2,
                s1 < 2 * f,
                s2 >= f,
        ;
    } else if q1 == q2 {
        assert(s1 >= s2);
        mul::lemma_mul_inequality(s2 as int, s1 as int, power2::pow2(q1) as int);
        if s1 > s2 {
            mul::lemma_mul_strict_inequality(s2 as int, s1 as int, power2::pow2(q1) as int);
        }
    } else {
        power2::lemma_pow2_unfold(q1);
        let h = power2::pow2((q1 - 1) as nat);
        if q2 < q1 - 1 {
            power2::lemma_pow2_strictly_increases(q2, (q1 - 1) as nat);
        }
        assert(s1 * power2::pow2(q1) > s2 * power2::pow2(q2)) by (nonlinear_arith)
            requires
                power2::pow2(q1) == 2 * h,
                0 < power2::pow2(q2) <= h,
                s1 >= f,
                s2 < 2 * f,
        ;
    }
}

/// What is more than 64 scales smaller does not change the code.
proof fn lemma_far_apart(m: nat, s1: nat, q1: nat, s2: nat, q2: nat)
    requires
        is_format(m),
        s1 < power2::pow2(m + 1),
        s1 >= power2::pow2(m),
        s2 < power2::pow2(m + 1),
        q1 > q2 + 64,
        q1 * power2::pow2(m) + s1 < infinity_code(m),
    ensures
        s1 * power2::pow2(q1) > s2 * power2::pow2(q2),
        nearest(m, s1 * power2::pow2(q1) + s2 * power2::pow2(q2), 1) == q1 * power2::pow2(m) + s1,
        nearest(m, (s1 * power2::pow2(q1) - s2 * power2::pow2(q2)) as nat, 1) == q1 * power2::pow2(m) + s1,
{
    vstd::arithmetic::power2::lemma2_to64();
    vstd::arithmetic::power2::lemma2_to64_rest();
    let d = (q1 - q2) as nat;
    let g = power2::pow2(d);
    let f = power2::pow2(m);
    power2::lemma_pow2_unfold(m + 1);
    power2::lemma_pow2_unfold(d);
    power2::lemma_pow2_strictly_increases(64, d);
    if d > 65 {
        power2::lemma_pow2_strictly_increases(64, (d - 1) as nat);
    }
    let h = power2::pow2((d - 1) as nat);
    assert(g == 2 * h && h >= power2::pow2(64) && s2 < h);
    power2::lemma_pow2_adds(d, q2);
    let u = power2::pow2(q2);
    power2::lemma_pow2_pos(q2);
    // the sum
    let a = s1 * g + s2;
    assert(s1 * power2::pow2(q1) == (s1 * g) * u) by (nonlinear_arith)
        requires
            power2::pow2(q1) == g * u,
    ;
    assert(s1 * g > s2) by (nonlinear_arith)
        requires
            s1 >= 1,
            g > s2,
    ;
    let b = (s1 * g - s2) as nat;
    mul::lemma_mul_strict_inequality(s2 as int, (s1 * g) as int, u as int);
    assert(s1 * power2::pow2(q1) + s2 * power2::pow2(q2) == a * u) by (nonlinear_arith)
        requires
            s1 * power2::pow2(q1) == (s1 * g) * u,
            a == s1 * g + s2,
            u == power2::pow2(q2),
    ;
    assert(s1 * power2::pow2(q1) - s2 * power2::pow2(q2) == b * u) by (nonlinear_arith)
        requires
            s1 * power2::pow2(q1) == (s1 * g) * u,
            b == s1 * g - s2,
            u == power2::pow2(q2),
    ;
    vstd::arithmetic::mul::lemma_mul_basics(power2::pow2(0) as int);
    vstd::arithmetic::mul::lemma_mul_basics(g as int);
    vstd::arithmetic::mul::lemma_mul_basics(h as int);
    lemma_nearest_moved(m, a, 1, q2, 0, q1, d);
    assert(a < power2::pow2(m + 1) * g) by (nonlinear_arith)
        requires
            a == s1 * g + s2,
            s1 + 1 <= power2::pow2(m + 1),
            s2 < g,
    ;
    assert(a >= f * g) by (nonlinear_arith)
        requires
            a == s1 * g + s2,
            s1 >= f,
            g > 0,
            s2 >= 0,
    ;
    lemma_nearest_at(m, a, g, q1);
    div_mod::lemma_fundamental_div_mod_converse(a as int, g as int, s1 as int, s2 as int);
    // the difference
    if s2 == 0 {
    } else if s1 > f {
        lemma_nearest_moved(m, b, 1, q2, 0, q1, d);
        assert(b == (s1 - 1) * g + (g - s2)) by (nonlinear_arith)
            requires
                b == s1 * g - s2,
        ;
        assert(b < power2::pow2(m + 1) * g) by (nonlinear_arith)
            requires
                b <= s1 * g,
                s1 + 1 <= power2::pow2(m + 1),
                g > 0,
        ;
        assert(b >= f * g) by (nonlinear_arith)
            requires
                b == (s1 - 1) * g + (g - s2),
                s1 - 1 >= f,
                g > s2,
        ;
        lemma_nearest_at(m, b, g, q1);
        div_mod::lemma_fundamental_div_mod_converse(b as int, g as int, s1 - 1, g - s2);
    } else {
        let p = (q1 - 1) as nat;
        lemma_nearest_moved(m, b, 1, q2, 0, p, (d - 1) as nat);
        assert(s1 == f);
        assert(b == (2 * f - 1) * h + (h - s2)) by (nonlinear_arith)
            requires
                b == f * g - s2,
                g == 2 * h,
        ;
        assert(b < power2::pow2(m + 1) * h) by (nonlinear_arith)
            requires
                b == (2 * f - 1) * h + (h - s2),
                s2 > 0,
                power2::pow2(m + 1) == 2 * f,
        ;
        assert(b >= f * h) by (nonlinear_arith)
            requires
                b == (2 * f - 1) * h + (h - s2),
                h > s2,
                f >= 1,
        ;
        lemma_nearest_at(m, b, h, p);
        div_mod::lemma_fundamental_div_mod_converse(b as int, h as int, 2 * f - 1, h - s2);
        assert(p * f + (2 * f - 1) + 1 == q1 * f + s1) by (nonlinear_arith)
            requires
                p == q1 - 1,
                s1 == f,
        ;
    }
}

pub(crate) proof fn lemma_nearest_of_zero(m: nat, den: nat)
    requires
        is_format(m),
        den > 0,
    ensures
        nearest(m, 0, den) == 0,
{
    lemma_pow2_zero();
    power2::lemma_pow2_pos(m + 1);
    power2::lemma_pow2_pos(m);
    mul::lemma_mul_strictly_positive(power2::pow2(m + 1) as int, den as int);
    lemma_nearest_at(m, 0, den, 0);
    div_mod::lemma_fundamental_div_mod_converse(0, den as int, 0, 0);
    mul::lemma_mul_strictly_positive(top_field(m) as int, power2::pow2(m) as int);
    assert(0 * power2::pow2(0) == 0);
    assert(0 * power2::pow2(m) == 0);
}

pub(crate) fn negated(a: Number) -> (r: Number)
    ensures
        r == opposite(a),
{
    Number { negative: !a.negative, code: a.code }
}

/// The sum of two finite numbers, the first with the larger code.
fn add_finite(m: u32, a: Number, b: Number) -> (r: Number)
    requires
        is_format(m as nat),
        is_finite(m as nat, a),
        is_finite(m as nat, b),
        a.code >= b.code,
    ensures
        r == sum(m as nat, a, b),
{
    let ghost mm = m as nat;
    let (s1, q1) = parts(m, a.code);
    let (s2, q2) = parts(m, b.code);
    proof {
        lemma_parts_ordered(mm, s1 as nat, q1 as nat, s2 as nat, q2 as nat);
        vstd::arithmetic::power2::lemma2_to64();
        vstd::arithmetic::power2::lemma2_to64_rest();
    }
    let d: u32 = q1 - q2;
    if d > 64 {
        proof {
            lemma_far_apart(mm, s1 as nat, q1 as nat, s2 as nat, q2 as nat);
        }
        return a;
    }
    let p: u128 = power_of_two(d);
    proof {
        if d < 64 {
            power2::lemma_pow2_strictly_increases(d as nat, 64);
        }
        assert(s1 * p <= 0x20_0000_0000_0000 * 0x1_0000_0000_0000_0000) by (nonlinear_arith)
            requires
                0 <= s1 <= 0x20_0000_0000_0000,
                0 <= p <= 0x1_0000_0000_0000_0000,
        ;
        power2::lemma_pow2_adds(d as nat, q2 as nat);
        power2::lemma_pow2_pos(d as nat);
        let u = power2::pow2(q2 as nat);
        power2::lemma_pow2_pos(q2 as nat);
        let x = (s1 * p) as nat;
        assert(s1 * power2::pow2(q1 as nat) == x * u) by (nonlinear_arith)
            requires
                power2::pow2(q1 as nat) == p * u,
                x == s1 * p,
        ;
        assert(x * u + s2 * u == (x + s2) * u) by (nonlinear_arith);
        assert(x * u - s2 * u == (x - s2) * u) by (nonlinear_arith);
        assert(x >= s2) by (nonlinear_arith)
            requires
                x * u >= s2 * u,
                u > 0,
        ;
        assert((x + s2) * u == 0 <==> x + s2 == 0) by (nonlinear_arith)
            requires
                u > 0,
                x + s2 >= 0,
        ;
        assert((x - s2) * u == 0 <==> x - s2 == 0) by (nonlinear_arith)
            requires
                u > 0,
                x - s2 >= 0,
        ;
        assert((x + s2) * u >= 0 && (x - s2) * u >= 0) by (nonlinear_arith)
            requires
                u > 0,
                x - s2 >= 0,
                s2 >= 0,
        ;
        power2::lemma_pow2_adds(64, 56);
    }
    if a.negative == b.negative {
        let n: u128 = s1 as u128 * p + s2 as u128;
        if n == 0 {
            return Number { negative: a.negative, code: 0 };
        }
        Number { negative: a.negative, code: round(m, n, q2 as i32) }
    } else {
        let n: u128 = s1 as u128 * p - s2 as u128;
        if n == 0 {
            return Number { negative: false, code: 0 };
        }
        Number { negative: a.negative, code: round(m, n, q2 as i32) }
    }
}

pub(crate) fn add_numbers(m: u32, a: Number, b: Number) -> (r: Number)
    requires
        is_format(m as nat),
    ensures
        r == sum(m as nat, a, b),
{
    let top: u64 = infinity_of(m);
    if a.code > top || b.code > top {
        nan_of(m)
    } else if a.code == top {
        if b.code == top && a.negative != b.negative {
            nan_of(m)
        } else {
            a
        }
    } else if b.code == top {
        b
    } else if a.code >= b.code {
        add_finite(m, a, b)
    } else {
        add_finite(m, b, a)
    }
}

pub(crate) fn multiply_numbers(m: u32, a: Number, b: Number) -> (r: Number)
    requires
        is_format(m as nat),
    ensures
        r == product(m as nat, a, b),
{
    let top: u64 = infinity_of(m);
    let negative: bool = a.negative != b.negative;
    if a.code > top || b.code > top {
        nan_of(m)
    } else if a.code == top || b.code == top {
        if a.code == 0 || b.code == 0 {
            nan_of(m)
        } else {
            Number { negative, code: top }
        }
    } else {
        let (s1, q1) = parts(m, a.code);
        let (s2, q2) = parts(m, b.code);
        let ghost mm = m as nat;
        let ghost w = unit_exponent(mm);
        proof {
            power2::lemma_pow2_pos(w);
            assert(s1 * s2 <= 0x20_0000_0000_0000 * 0x20_0000_0000_0000) by (nonlinear_arith)
                requires
                    0 <= s1 <= 0x20_0000_0000_0000,
                    0 <= s2 <= 0x20_0000_0000_0000,
            ;
            vstd::arithmetic::power2::lemma2_to64();
            vstd::arithmetic::power2::lemma2_to64_rest();
            power2::lemma_pow2_adds(64, 56);
            let n = (s1 * s2) as nat;
            power2::lemma_pow2_adds(q1 as nat, q2 as nat);
            assert((s1 * power2::pow2(q1 as nat)) * (s2 * power2::pow2(q2 as nat)) == n * (power2::pow2(q1 as nat) * power2::pow2(
                q2 as nat,
            ))) by (nonlinear_arith)
                requires
                    n == s1 * s2,
            ;
            vstd::arithmetic::mul::lemma_mul_basics(power2::pow2(w) as int);
            lemma_nearest_of_zero(mm, power2::pow2(w));
            if n == 0 {
                assert(n * (power2::pow2(q1 as nat) * power2::pow2(q2 as nat)) == 0) by (nonlinear_arith)
                    requires
                        n == 0,
                ;
            }
        }
        let n: u128 = s1 as u128 * s2 as u128;
        if n == 0 {
            return Number { negative, code: 0 };
        }
        let unit: i32 = if m == 23 {
            149
        } else {
            1074
        };
        let e: i32 = q1 as i32 + q2 as i32 - unit;
        proof {
            lemma_pow2_zero();
            vstd::arithmetic::mul::lemma_mul_basics(n as int);
            let en = if e >= 0 {
                e as nat
            } else {
                0
            };
            let ed = if e >= 0 {
                0
            } else {
                (-e) as nat
            };
            vstd::arithmetic::mul::lemma_mul_basics(power2::pow2(ed) as int);
            lemma_nearest_moved(mm, n as nat, 1, (q1 + q2) as nat, w, en, ed);
        }
        Number { negative, code: round(m, n, e) }
    }
}

/// A quotient cut short, with a last digit that tells whether anything was cut, rounds alike.
proof fn lemma_nearest_sticky(m: nat, x: nat, d: nat, up: nat, down: nat)
    requires
        d > 0,
        x / d >= power2::pow2(m + 1),
    ensures
        ({
            let n: nat = 2 * (x / d) + if x % d != 0 {
                1nat
            } else {
                0nat
            };
            nearest(m, x * power2::pow2(up), d * power2::pow2(down)) == nearest(
                m,
                n * power2::pow2(up),
                2 * power2::pow2(down),
            )
        }),
{
    let y = x / d;
    let rho = x % d;
    let st: nat = if rho != 0 {
        1
    } else {
        0
    };
    let n = 2 * y + st;
    let l = power2::pow2(m + 1);
    power2::lemma_pow2_pos(m + 1);
    power2::lemma_pow2_pos(up);
    power2::lemma_pow2_pos(down);
    div_mod::lemma_fundamental_div_mod(x as int, d as int);
    div_mod::lemma_mod_bound(x as int, d as int);
    let dd = d * power2::pow2(down);
    mul::lemma_mul_strictly_positive(d as int, power2::pow2(down) as int);
    mul::lemma_mul_strictly_positive(l as int, dd as int);
    let q = doublings(x * power2::pow2(up), l * dd);
    lemma_doublings_bounds(x * power2::pow2(up), l * dd);
    power2::lemma_pow2_pos(q);
    power2::lemma_pow2_adds(down, q);
    // the scale is coarser than a digit of the quotient
    assert(x >= d * l) by (nonlinear_arith)
        requires
            x == d * y + rho,
            y >= l,
            rho >= 0,
            d > 0,
    ;
    assert(power2::pow2(up) < power2::pow2(down + q)) by (nonlinear_arith)
        requires
            x * power2::pow2(up) < (l * dd) * power2::pow2(q),
            dd == d * power2::pow2(down),
            power2::pow2(down + q) == power2::pow2(down) * power2::pow2(q),
            x >= d * l,
            d > 0,
            l > 0,
            power2::pow2(up) > 0,
    {
        assert((l * dd) * power2::pow2(q) == (d * l) * (power2::pow2(down) * power2::pow2(q)));
        assert((d * l) * power2::pow2(up) <= x * power2::pow2(up));
    }
    if up >= down + q {
        if up > down + q {
            power2::lemma_pow2_strictly_increases(down + q, up);
        }
        assert(false);
    }
    let g = (down + q - up) as nat;
    lemma_nearest_moved(m, x, d, up, down, q, g);
    lemma_nearest_moved(m, n, 2, up, down, q, g);
    let gg = power2::pow2(g);
    power2::lemma_pow2_pos(g);
    power2::lemma_pow2_unfold(g);
    let h = power2::pow2((g - 1) as nat);
    power2::lemma_pow2_adds(up, g);
    let w = y / gg;
    let v = y % gg;
    div_mod::lemma_fundamental_div_mod(y as int, gg as int);
    div_mod::lemma_mod_bound(y as int, gg as int);
    // the two divisions side by side
    assert(x == w * (d * gg) + (d * v + rho)) by (nonlinear_arith)
        requires
            x == d * y + rho,
            y == gg * w + v,
    ;
    assert(0 <= d * v + rho < d * gg) by (nonlinear_arith)
        requires
            0 <= v,
            v + 1 <= gg,
            0 <= rho < d,
    ;
    div_mod::lemma_fundamental_div_mod_converse(x as int, (d * gg) as int, w as int, (d * v + rho) as int);
    assert(n == w * (2 * gg) + (2 * v + st)) by (nonlinear_arith)
        requires
            n == 2 * y + st,
            y == gg * w + v,
    ;
    div_mod::lemma_fundamental_div_mod_converse(n as int, (2 * gg) as int, w as int, (2 * v + st) as int);
    assert(2 * (d * v + rho) > d * gg <==> v > h || (v == h && rho > 0)) by (nonlinear_arith)
        requires
            gg == 2 * h,
            0 <= rho < d,
    {
        if v > h {
            assert(d * v >= d * (h + 1));
        } else if v < h {
            assert(d * v <= d * (h - 1));
        }
    }
    assert(2 * (d * v + rho) == d * gg <==> v == h && rho == 0) by (nonlinear_arith)
        requires
            gg == 2 * h,
            0 <= rho < d,
    {
        if v > h {
            assert(d * v >= d * (h + 1));
        } else if v < h {
            assert(d * v <= d * (h - 1));
        }
    }
    // the bounds that fix the scale
    assert((l * dd) * power2::pow2(q) == (l * (d * gg)) * power2::pow2(up)) by (nonlinear_arith)
        requires
            dd == d * power2::pow2(down),
            power2::pow2(down) * power2::pow2(q) == power2::pow2(up) * gg,
    ;
    assert(x < l * (d * gg)) by (nonlinear_arith)
        requires
            x * power2::pow2(up) < (l * (d * gg)) * power2::pow2(up),
            power2::pow2(up) > 0,
    ;
    assert(y < l * gg) by (nonlinear_arith)
        requires
            x < l * (d * gg),
            x == d * y + rho,
            rho >= 0,
            d > 0,
    ;
    assert(n < l * (2 * gg)) by (nonlinear_arith)
        requires
            y + 1 <= l * gg,
            n <= 2 * y + 1,
    ;
    power2::lemma_pow2_unfold(m + 1);
    let f = power2::pow2(m);
    if q > 0 {
        power2::lemma_pow2_unfold(q);
        let r = power2::pow2((q - 1) as nat);
        assert(x >= f * (d * gg)) by (nonlinear_arith)
            requires
                x * power2::pow2(up) >= (l * dd) * r,
                (l * dd) * power2::pow2(q) == (l * (d * gg)) * power2::pow2(up),
                power2::pow2(q) == 2 * r,
                l == 2 * f,
                power2::pow2(up) > 0,
        {
            assert(2 * ((l * dd) * r) == (l * dd) * power2::pow2(q));
            assert(2 * (x * power2::pow2(up)) >= (2 * f * (d * gg)) * power2::pow2(up));
            assert((2 * x) * power2::pow2(up) >= (2 * f * (d * gg)) * power2::pow2(up));
        }
        assert(y >= f * gg) by (nonlinear_arith)
            requires
                x >= f * (d * gg),
                x == d * y + rho,
                rho < d,
                d > 0,
        {
            if y < f * gg {
                assert(d * (y + 1) <= d * (f * gg));
            }
        }
        assert(n >= f * (2 * gg)) by (nonlinear_arith)
            requires
                y >= f * gg,
                n >= 2 * y,
        ;
    }
    mul::lemma_mul_strictly_positive(d as int, gg as int);
    lemma_nearest_at(m, x, d * gg, q);
    lemma_nearest_at(m, n, 2 * gg, q);
}

pub(crate) fn divide_numbers(m: u32, a: Number, b: Number) -> (r: Number)
    requires
        is_format(m as nat),
    ensures
        r == quotient(m as nat, a, b),
{
    let top: u64 = infinity_of(m);
    let negative: bool = a.negative != b.negative;
    if a.code > top || b.code > top {
        return nan_of(m);
    }
    if a.code == top {
        if b.code == top {
            return nan_of(m);
        }
        return Number { negative, code: top };
    }
    if b.code == top {
        return Number { negative, code: 0 };
    }
    if b.code == 0 {
        if a.code == 0 {
            return nan_of(m);
        }
        return Number { negative, code: top };
    }
    let (s1, q1) = parts(m, a.code);
    let (s2, q2) = parts(m, b.code);
    let ghost mm = m as nat;
    let ghost w = unit_exponent(mm);
    proof {
        lemma_nearest_of_zero(mm, magnitude(mm, b.code as nat));
        if a.code == 0 {
            assert(0 * power2::pow2(w) == 0) by (nonlinear_arith);
        }
        vstd::arithmetic::power2::lemma2_to64();
        vstd::arithmetic::power2::lemma2_to64_rest();
        power2::lemma_pow2_adds(64, 56);
    }
    if a.code == 0 {
        return Number { negative, code: 0 };
    }
    let length: u32 = bit_length(s1 as u128);
    proof {
        if length > m + 1 {
            if length > m + 2 {
                power2::lemma_pow2_strictly_increases(mm + 1, (length - 1) as nat);
            }
        }
    }
    let z: u32 = m + 1 - length;
    let p: u128 = power_of_two(z);
    proof {
        power2::lemma_pow2_adds(length as nat, z as nat);
        power2::lemma_pow2_adds((length - 1) as nat, z as nat);
        power2::lemma_pow2_pos(z as nat);
        assert(s1 * p < power2::pow2(mm + 1)) by (nonlinear_arith)
            requires
                s1 < power2::pow2(length as nat),
                power2::pow2(mm + 1) == power2::pow2(length as nat) * p,
                p > 0,
        ;
        assert(s1 * p >= power2::pow2(mm)) by (nonlinear_arith)
            requires
                s1 >= power2::pow2((length - 1) as nat),
                power2::pow2(mm) == power2::pow2((length - 1) as nat) * p,
        ;
    }
    let x: u128 = (s1 as u128 * p) * 0x1_0000_0000_0000_0000u128;
    let y: u128 = x / (s2 as u128);
    let n: u128 = 2 * y + if x % (s2 as u128) != 0 {
        1
    } else {
        0
    };
    let unit: i32 = if m == 23 {
        149
    } else {
        1074
    };
    let e: i32 = q1 as i32 + unit - z as i32 - 64 - q2 as i32;
    proof {
        let d = s2 as nat;
        let x0 = x as nat;
        div_mod::lemma_fundamental_div_mod(x0 as int, d as int);
        div_mod::lemma_mod_bound(x0 as int, d as int);
        power2::lemma_pow2_unfold(mm + 1);
        let y0 = x0 / d;
        assert(y0 <= x0) by (nonlinear_arith)
            requires
                x0 == d * y0 + x0 % d,
                x0 % d >= 0,
                d >= 1,
        ;
        assert(y0 >= power2::pow2(mm + 1)) by (nonlinear_arith)
            requires
                x0 == d * y0 + x0 % d,
                x0 % d < d,
                d > 0,
                x0 >= power2::pow2(mm) * 0x1_0000_0000_0000_0000,
                d <= 2 * power2::pow2(mm),
                power2::pow2(mm + 1) <= 0x20_0000_0000_0000,
                power2::pow2(mm) > 0,
        {
            let f = power2::pow2(mm);
            if y0 < power2::pow2(mm + 1) {
                assert(d * (y0 + 1) <= (2 * f) * power2::pow2(mm + 1));
                assert((2 * f) * power2::pow2(mm + 1) <= (2 * f) * 0x20_0000_0000_0000);
            }
        }
        let up: nat = if e >= 0 {
            e as nat
        } else {
            0
        };
        let down: nat = if e >= 0 {
            0
        } else {
            (-e) as nat
        };
        lemma_nearest_sticky(mm, x0, d, up, down);
        // the ratio of the two values
        power2::lemma_pow2_adds(z as nat, 64);
        power2::lemma_pow2_adds(z as nat + 64, up);
        let k = z as nat + 64 + up;
        assert(x0 * power2::pow2(up) == s1 * power2::pow2(k)) by (nonlinear_arith)
            requires
                x0 == (s1 * p) * 0x1_0000_0000_0000_0000,
                power2::pow2(k) == (p * 0x1_0000_0000_0000_0000) * power2::pow2(up),
        ;
        lemma_nearest_moved(mm, s1 as nat, d, (q1 as nat + w) as nat, q2 as nat, k, down);
        power2::lemma_pow2_adds(q1 as nat, w);
        mul::lemma_mul_is_associative(s1 as int, power2::pow2(q1 as nat) as int, power2::pow2(w) as int);
        // the digits handed on
        power2::lemma_pow2_unfold(down + 1);
        vstd::arithmetic::mul::lemma_mul_basics(power2::pow2(down + 1) as int);
        vstd::arithmetic::mul::lemma_mul_basics(n as int);
        let f: int = e - 1;
        let fu: nat = if f >= 0 {
            f as nat
        } else {
            0
        };
        let fd: nat = if f >= 0 {
            0
        } else {
            (-f) as nat
        };
        vstd::arithmetic::mul::lemma_mul_basics(power2::pow2(fd) as int);
        lemma_nearest_moved(mm, n as nat, 1, up, down + 1, fu, fd);
    }
    Number { negative, code: round(m, n, e - 1) }
}

pub(crate) proof fn lemma_nearest_bounded(m: nat, num: nat, den: nat)
    requires
        is_format(m),
    ensures
        nearest(m, num, den) <= infinity_code(m),
        m == 23 ==> infinity_code(m) == 0x7f80_0000,
        m == 52 ==> infinity_code(m) == 0x7ff0_0000_0000_0000,
        m == 23 ==> not_a_number(m).code == 0x7fc0_0000,
        m == 52 ==> not_a_number(m).code == 0x7ff8_0000_0000_0000,
{
    vstd::arithmetic::power2::lemma2_to64();
    vstd::arithmetic::power2::lemma2_to64_rest();
}

pub(crate) fn whole_number(m: u32, n: u64) -> (r: Number)
    requires
        is_format(m as nat),
    ensures
        r == from_whole(m as nat, n as nat),
{
    let ghost mm = m as nat;
    if n == 0 {
        proof {
            lemma_nearest_of_zero(mm, 1);
            assert(0 * power2::pow2(unit_exponent(mm)) == 0) by (nonlinear_arith);
        }
        return Number { negative: false, code: 0 };
    }
    proof {
        vstd::arithmetic::power2::lemma2_to64();
        vstd::arithmetic::power2::lemma2_to64_rest();
        power2::lemma_pow2_adds(64, 56);
    }
    Number {
        negative: false,
        code: round(
            m,
            n as u128,
            if m == 23 {
                149
            } else {
                1074
            },
        ),
    }
}

/// The nearest whole number, or the largest `u64` where that is less.
pub(crate) fn nearest_whole_number(m: u32, code: u64) -> (r: u64)
    requires
        is_format(m as nat),
        code < infinity_code(m as nat),
    ensures
        r == if nearest_whole(m as nat, code as nat) <= u64::MAX {
            nearest_whole(m as nat, code as nat) as int
        } else {
            u64::MAX as int
        },
{
    let ghost mm = m as nat;
    let ghost w = unit_exponent(mm);
    let unit: u32 = if m == 23 {
        149
    } else {
        1074
    };
    let (s, q) = parts(m, code);
    proof {
        vstd::arithmetic::power2::lemma2_to64();
        vstd::arithmetic::power2::lemma2_to64_rest();
        power2::lemma_pow2_pos(w);
        power2::lemma_pow2_pos(q as nat);
    }
    if q >= unit {
        let k: u32 = q - unit;
        proof {
            power2::lemma_pow2_adds(k as nat, w);
            power2::lemma_pow2_pos(k as nat);
            let v = (s * power2::pow2(k as nat)) as nat;
            assert(2 * (s * power2::pow2(q as nat)) + power2::pow2(w) == v * (2 * power2::pow2(w)) + power2::pow2(w)) by (nonlinear_arith)
                requires
                    power2::pow2(q as nat) == power2::pow2(k as nat) * power2::pow2(w),
                    v == s * power2::pow2(k as nat),
            ;
            div_mod::lemma_fundamental_div_mod_converse(
                2 * (s * power2::pow2(q as nat)) + power2::pow2(w),
                (2 * power2::pow2(w)) as int,
                v as int,
                power2::pow2(w) as int,
            );
        }
        if k >= 64 {
            proof {
                if k > 64 {
                    power2::lemma_pow2_strictly_increases(64, k as nat);
                }
                assert(s * power2::pow2(k as nat) >= power2::pow2(64)) by (nonlinear_arith)
                    requires
                        s >= 1,
                        power2::pow2(k as nat) >= power2::pow2(64),
                ;
            }
            return u64::MAX;
        }
        let p: u128 = power_of_two(k);
        proof {
            power2::lemma_pow2_strictly_increases(k as nat, 64);
            assert(s * p <= 0x20_0000_0000_0000 * 0x1_0000_0000_0000_0000) by (nonlinear_arith)
                requires
                    0 <= s <= 0x20_0000_0000_0000,
                    0 <= p <= 0x1_0000_0000_0000_0000,
            ;
        }
        let v: u128 = s as u128 * p;
        if v > u64::MAX as u128 {
            u64::MAX
        } else {
            v as u64
        }
    } else {
        let d: u32 = unit - q;
        proof {
            power2::lemma_pow2_adds(d as nat, q as nat);
            power2::lemma_pow2_unfold(d as nat + 1);
            let u = power2::pow2(q as nat);
            let g = power2::pow2(d as nat);
            power2::lemma_pow2_pos(d as nat);
            let num: nat = (2 * s + g) as nat;
            assert(2 * (s * u) + power2::pow2(w) == num * u) by (nonlinear_arith)
                requires
                    num == 2 * s + g,
                    power2::pow2(w) == g * u,
            ;
            assert(2 * power2::pow2(w) == (2 * g) * u) by (nonlinear_arith)
                requires
                    power2::pow2(w) == g * u,
            ;
            lemma_div_scaled(num, 2 * g, u);
            if d > 60 {
                power2::lemma_pow2_strictly_increases(60, d as nat);
                vstd::arithmetic::div_mod::lemma_basic_div(num as int, (2 * g) as int);
            } else if d < 60 {
                power2::lemma_pow2_strictly_increases(d as nat, 60);
            }
        }
        if d > 60 {
            return 0;
        }
        let g: u128 = power_of_two(d);
        let num: u128 = 2 * s as u128 + g;
        proof {
            let n0 = num as nat;
            let g0 = (2 * g) as nat;
            div_mod::lemma_fundamental_div_mod(n0 as int, g0 as int);
            div_mod::lemma_mod_bound(n0 as int, g0 as int);
            assert((n0 / g0) <= n0) by (nonlinear_arith)
                requires
                    n0 == g0 * (n0 / g0) + n0 % g0,
                    n0 % g0 >= 0,
                    g0 >= 1,
            ;
        }
        (num / (2 * g)) as u64
    }
}

/// The fraction and the exponent of a code.
proof fn lemma_code_parts(m: nat, code: nat) -> (r: (nat, nat))
    ensures
        code == r.1 * power2::pow2(m) + r.0,
        magnitude(m, code) == r.0 * power2::pow2(r.1),
        r.0 < power2::pow2(m + 1),
        r.1 > 0 ==> r.0 >= power2::pow2(m),
{
    let f = power2::pow2(m);
    power2::lemma_pow2_pos(m);
    power2::lemma_pow2_unfold(m + 1);
    lemma_pow2_zero();
    if code < f {
        assert(code * power2::pow2(0) == code) by (nonlinear_arith)
            requires
                power2::pow2(0) == 1,
        ;
        assert(0 * f == 0) by (nonlinear_arith);
        (code, 0)
    } else {
        div_mod::lemma_fundamental_div_mod(code as int, f as int);
        div_mod::lemma_mod_bound(code as int, f as int);
        let d = code / f;
        let rest = code % f;
        assert(d >= 1) by (nonlinear_arith)
            requires
                code == f * d + rest,
                rest < f,
                code >= f,
                f > 0,
        ;
        assert(code == (d - 1) * f + (f + rest)) by (nonlinear_arith)
            requires
                code == f * d + rest,
        ;
        (f + rest, (d - 1) as nat)
    }
}

/// Every finite number is the one nearest to its own value.
pub proof fn rounding_keeps_numbers(m: nat, code: nat)
    requires
        code < infinity_code(m),
    ensures
        nearest(m, magnitude(m, code), 1) == code,
{
    let (n, q) = lemma_code_parts(m, code);
    assert(power2::pow2(m + 1) * 1 == power2::pow2(m + 1)) by (nonlinear_arith);
    assert(power2::pow2(m) * 1 == power2::pow2(m)) by (nonlinear_arith);
    lemma_nearest_at(m, n, 1, q);
    vstd::arithmetic::div_mod::lemma_div_basics(n as int);
    vstd::arithmetic::div_mod::lemma_mod_bound(n as int, 1);
}

/// Codes stand in the order of the values that they give.
pub proof fn codes_order_as_values(m: nat, a: nat, b: nat)
    requires
        a < b,
    ensures
        magnitude(m, a) < magnitude(m, b),
{
    let (s1, q1) = lemma_code_parts(m, b);
    let (s2, q2) = lemma_code_parts(m, a);
    lemma_parts_ordered(m, s1, q1, s2, q2);
}

/// A number that is finite and not zero, divided by itself, is one.
pub proof fn number_over_itself_is_one(m: nat, a: Number)
    requires
        is_format(m),
        is_finite(m, a),
        a.code > 0,
    ensures
        quotient(m, a, a) == from_whole(m, 1),
{
    let v = magnitude(m, a.code as nat);
    codes_order_as_values(m, 0, a.code as nat);
    let one = power2::pow2(unit_exponent(m));
    power2::lemma_pow2_pos(m);
    lemma_nearest_scaled(m, one, 1, v);
    assert(v * one == one * v) by (nonlinear_arith);
    assert(1 * v == v) by (nonlinear_arith);
    assert(1 * one == one) by (nonlinear_arith);
}

/// Adding zero changes no number but the sign of a zero.
pub proof fn adding_zero_changes_nothing(m: nat, a: Number, negative: bool)
    requires
        is_format(m),
        is_finite(m, a),
        a.code > 0,
    ensures
        sum(m, a, Number { negative, code: 0 }) == a,
{
    let zero = Number { negative, code: 0 };
    power2::lemma_pow2_pos(m);
    assert(infinity_code(m) > 0) by (nonlinear_arith)
        requires
            infinity_code(m) == top_field(m) * power2::pow2(m),
            power2::pow2(m) > 0,
            top_field(m) > 0,
    ;
    codes_order_as_values(m, 0, a.code as nat);
    rounding_keeps_numbers(m, a.code as nat);
}

/// The order of addition and multiplication does not count.
pub proof fn operands_may_change_places(m: nat, a: Number, b: Number)
    requires
        !is_nan(m, a) && !is_nan(m, b),
    ensures
        sum(m, a, b) == sum(m, b, a),
        product(m, a, b) == product(m, b, a),
{
    let x = magnitude(m, a.code as nat);
    let y = magnitude(m, b.code as nat);
    assert(x * y == y * x) by (nonlinear_arith);
}

/// Less and at most compare the values of finite numbers.
pub proof fn comparing_compares_values(m: nat, a: Number, b: Number)
    requires
        is_format(m),
        is_finite(m, a),
        is_finite(m, b),
    ensures
        less(m, a, b) <==> value(m, a) < value(m, b),
        at_most(m, a, b) <==> value(m, a) <= value(m, b),
{
    power2::lemma_pow2_pos(m);
    let x = a.code as nat;
    let y = b.code as nat;
    if x < y {
        codes_order_as_values(m, x, y);
    } else if y < x {
        codes_order_as_values(m, y, x);
    }
    if x > 0 {
        codes_order_as_values(m, 0, x);
    }
    if y > 0 {
        codes_order_as_values(m, 0, y);
    }
}

/// How far two numbers are apart.
pub open spec fn distance(a: int, b: int) -> int {
    if a < b {
        b - a
    } else {
        a - b
    }
}

proof fn lemma_parts_are_those(m: nat, code: nat, s: nat, q: nat)
    requires
        code == q * power2::pow2(m) + s,
        s < power2::pow2(m + 1),
        q > 0 ==> s >= power2::pow2(m),
    ensures
        magnitude(m, code) == s * power2::pow2(q),
{
    let (t, e) = lemma_code_parts(m, code);
    lemma_parts_ordered(m, s, q, t, e);
    lemma_parts_ordered(m, t, e, s, q);
}

proof fn lemma_next_magnitude(m: nat, s: nat, q: nat)
    requires
        s < power2::pow2(m + 1),
        q > 0 ==> s >= power2::pow2(m),
    ensures
        magnitude(m, q * power2::pow2(m) + s) == s * power2::pow2(q),
        magnitude(m, q * power2::pow2(m) + s + 1) == (s + 1) * power2::pow2(q),
{
    let f = power2::pow2(m);
    power2::lemma_pow2_pos(m);
    power2::lemma_pow2_unfold(m + 1);
    power2::lemma_pow2_unfold(q + 1);
    lemma_parts_are_those(m, q * f + s, s, q);
    if s + 1 < power2::pow2(m + 1) {
        lemma_parts_are_those(m, q * f + s + 1, s + 1, q);
    } else {
        let p = power2::pow2(q);
        assert((q + 1) * f + f == q * f + s + 1) by (nonlinear_arith)
            requires
                s + 1 == 2 * f,
        ;
        lemma_parts_are_those(m, q * f + s + 1, f, q + 1);
        assert(f * (2 * p) == (s + 1) * p) by (nonlinear_arith)
            requires
                s + 1 == 2 * f,
        ;
    }
}

proof fn lemma_nearest_parts(m: nat, num: nat, den: nat)
    requires
        den > 0,
    ensures
        ({
            let q = doublings(num, power2::pow2(m + 1) * den);
            let unit = den * power2::pow2(q);
            &&& unit > 0
            &&& num / unit < power2::pow2(m + 1)
            &&& q > 0 ==> num / unit >= power2::pow2(m)
            &&& num == num / unit * unit + num % unit
            &&& num % unit < unit
        }),
{
    let limit = power2::pow2(m + 1) * den;
    power2::lemma_pow2_pos(m + 1);
    mul::lemma_mul_strictly_positive(power2::pow2(m + 1) as int, den as int);
    lemma_doublings_bounds(num, limit);
    let q = doublings(num, limit);
    let p = power2::pow2(q);
    power2::lemma_pow2_pos(q);
    let unit = den * p;
    mul::lemma_mul_strictly_positive(den as int, p as int);
    div_mod::lemma_fundamental_div_mod(num as int, unit as int);
    div_mod::lemma_mod_bound(num as int, unit as int);
    let whole = num / unit;
    let rest = num % unit;
    assert(unit * whole == whole * unit) by (nonlinear_arith);
    let top = power2::pow2(m + 1);
    assert(limit * p == top * unit) by (nonlinear_arith)
        requires
            limit == top * den,
            unit == den * p,
    ;
    assert(whole < top) by (nonlinear_arith)
        requires
            num < top * unit,
            num == whole * unit + rest,
            unit > 0,
            rest >= 0,
    ;
    if q > 0 {
        let h = power2::pow2((q - 1) as nat);
        let f = power2::pow2(m);
        power2::lemma_pow2_unfold(q);
        power2::lemma_pow2_unfold(m + 1);
        assert(limit * h == f * unit) by (nonlinear_arith)
            requires
                limit == top * den,
                top == 2 * f,
                p == 2 * h,
                unit == den * p,
        ;
        assert(whole >= f) by (nonlinear_arith)
            requires
                num >= f * unit,
                num == whole * unit + rest,
                rest < unit,
                unit > 0,
        ;
    }
}

/// Rounding finds the nearest number: none of the others is nearer, and where another one is as near,
/// the code that was found is the even one of the two.
pub proof fn rounding_finds_the_nearest(m: nat, num: nat, den: nat, other: nat)
    requires
        is_format(m),
        den > 0,
        nearest(m, num, den) < infinity_code(m),
    ensures
        ({
            let code = nearest(m, num, den);
            let found = distance((magnitude(m, code) * den) as int, num as int);
            let another = distance((magnitude(m, other) * den) as int, num as int);
            &&& found <= another
            &&& found == another && other != code ==> code % 2 == 0
        }),
{
    let q = doublings(num, power2::pow2(m + 1) * den);
    let f = power2::pow2(m);
    let p = power2::pow2(q);
    let unit = den * p;
    let whole = num / unit;
    let rest = num % unit;
    lemma_nearest_parts(m, num, den);
    lemma_next_magnitude(m, whole, q);
    let base = q * f + whole;
    let code = nearest(m, num, den);
    let low = magnitude(m, base) * den;
    let high = magnitude(m, base + 1) * den;
    assert(low == whole * unit) by (nonlinear_arith)
        requires
            low == whole * p * den,
            unit == den * p,
    ;
    assert(high == whole * unit + unit) by (nonlinear_arith)
        requires
            high == (whole + 1) * p * den,
            unit == den * p,
    ;
    let x = magnitude(m, other) * den;
    if other < base {
        codes_order_as_values(m, other, base);
        mul::lemma_mul_strict_inequality(
            magnitude(m, other) as int,
            magnitude(m, base) as int,
            den as int,
        );
        assert(x < low);
    } else if other > base + 1 {
        codes_order_as_values(m, base + 1, other);
        mul::lemma_mul_strict_inequality(
            magnitude(m, base + 1) as int,
            magnitude(m, other) as int,
            den as int,
        );
        assert(x > high);
    }
    power2::lemma_pow2_unfold(m);
    let half = power2::pow2((m - 1) as nat);
    assert(q * f == 2 * (q * half)) by (nonlinear_arith)
        requires
            f == 2 * half,
    ;
    assert(base % 2 == whole % 2);
}

/// Adding, multiplying and dividing finite numbers gives the number nearest to the exact result, with
/// its sign.
pub proof fn results_are_rounded_once(m: nat, a: Number, b: Number)
    requires
        is_format(m),
        is_finite(m, a),
        is_finite(m, b),
    ensures
        ({
            let exact = value(m, a) + value(m, b);
            let unit = power2::pow2(unit_exponent(m));
            let x = magnitude(m, a.code as nat);
            let y = magnitude(m, b.code as nat);
            &&& exact != 0 ==> sum(m, a, b) == (Number {
                negative: exact < 0,
                code: nearest(m, distance(exact, 0) as nat, 1) as u64,
            })
            &&& exact == 0 ==> sum(m, a, b).code == 0
            &&& product(m, a, b) == (Number {
                negative: a.negative != b.negative,
                code: nearest(m, x * y, unit) as u64,
            })
            &&& b.code > 0 ==> quotient(m, a, b) == (Number {
                negative: a.negative != b.negative,
                code: nearest(m, x * unit, y) as u64,
            })
        }),
{
    lemma_nearest_of_zero(m, 1);
}

/// The whole number nearest to a number is less than half of one away from it, or half of one below
/// it.
pub proof fn whole_numbers_are_found_by_halves(m: nat, code: nat)
    ensures
        ({
            let one = power2::pow2(unit_exponent(m)) as int;
            let twice = 2 * magnitude(m, code) as int;
            let n = nearest_whole(m, code) as int;
            2 * one * n - one <= twice < 2 * one * n + one
        }),
{
    let one = power2::pow2(unit_exponent(m));
    power2::lemma_pow2_pos(unit_exponent(m));
    let x = 2 * magnitude(m, code) + one;
    div_mod::lemma_fundamental_div_mod(x as int, 2 * one as int);
    div_mod::lemma_mod_bound(x as int, 2 * one as int);
}

} // verus!
