//! Double-precision numbers, computed on their bit patterns.
use crate::number::{
    clipped, lemma_rounded_exact, lemma_rounded_in_binade, nearest_even, one, rounded, whole, Number,
};
use vstd::arithmetic::power2::{
    lemma2_to64, lemma2_to64_rest, lemma_pow2_adds, lemma_pow2_pos, lemma_pow2_strictly_increases,
    lemma_pow2_unfold, pow2,
};
use vstd::prelude::*;

verus! {

/// A double-precision number, held by its bit pattern: the sign, eleven bits of
/// exponent, 52 bits of fraction.
#[derive(Debug, Clone, Copy)]
pub struct Double {
    pub bits: u64,
}

/// The bit pattern of positive infinity; larger patterns without a sign are not
/// numbers.
pub const INFINITY_BITS: u64 = 0x7ff0_0000_0000_0000;

/// The units of the finite number with the pattern `magnitude` and no sign.
pub open spec fn pattern_units(magnitude: nat) -> nat {
    let exponent: nat = magnitude / 0x10_0000_0000_0000;
    let fraction: nat = magnitude % 0x10_0000_0000_0000;
    if exponent == 0 {
        fraction
    } else {
        (0x10_0000_0000_0000 + fraction) * pow2((exponent - 1) as nat)
    }
}

impl View for Double {
    type V = Number;

    open spec fn view(&self) -> Number {
        let negative: bool = self.bits >= 0x8000_0000_0000_0000;
        let magnitude: nat = (self.bits % 0x8000_0000_0000_0000) as nat;
        if magnitude > 0x7ff0_0000_0000_0000 {
            Number::NotANumber
        } else if magnitude == 0x7ff0_0000_0000_0000 {
            Number::Infinite { negative }
        } else {
            Number::Finite { negative, units: pattern_units(magnitude) }
        }
    }
}

/// A double taken apart; a finite one is `significand * 2^shift` units.
#[derive(Clone, Copy)]
pub(crate) enum Parts {
    NotANumber,
    Infinite { negative: bool },
    Finite { negative: bool, significand: u64, shift: u32 },
}

impl Parts {
    pub(crate) open spec fn number(self) -> Number {
        match self {
            Parts::NotANumber => Number::NotANumber,
            Parts::Infinite { negative } => Number::Infinite { negative },
            Parts::Finite { negative, significand, shift } => Number::Finite {
                negative,
                units: significand as nat * pow2(shift as nat),
            },
        }
    }

    /// The significand fills its 53 bits unless the number is subnormal.
    pub(crate) open spec fn normal(self) -> bool {
        self matches Parts::Finite { negative, significand, shift } ==> {
            &&& significand < 0x20_0000_0000_0000
            &&& shift <= 2045
            &&& shift > 0 ==> significand >= 0x10_0000_0000_0000
        }
    }
}

/// `2^exponent`.
fn power_of_two(exponent: u32) -> (power: u128)
    requires
        exponent < 128,
    ensures
        power as nat == pow2(exponent as nat),
{
    let mut power: u128 = 1;
    let mut done: u32 = 0;
    proof {
        lemma2_to64();
    }
    while done < exponent
        invariant
            done <= exponent < 128,
            power as nat == pow2(done as nat),
        decreases exponent - done,
    {
        proof {
            lemma_pow2_unfold((done + 1) as nat);
            lemma_pow2_bound((done + 1) as nat);
        }
        power = power * 2;
        done = done + 1;
    }
    power
}

proof fn lemma_pow2_bound(exponent: nat)
    requires
        exponent < 128,
    ensures
        pow2(exponent) <= u128::MAX,
{
    lemma2_to64();
    lemma_pow2_adds(64, 64);
    assert(pow2(128) == 0x1_0000_0000_0000_0000 * 0x1_0000_0000_0000_0000);
    lemma_pow2_strictly_increases(exponent, 128);
}

/// The number of bits of `value`.
fn bit_length(value: u128) -> (length: u32)
    ensures
        length <= 128,
        (value as nat) < pow2(length as nat),
        length > 0 ==> value as nat >= pow2((length - 1) as nat),
        length == 0 <==> value == 0,
{
    let mut rest: u128 = value;
    let mut length: u32 = 0;
    proof {
        lemma2_to64();
        lemma_pow2_adds(64, 64);
        assert(pow2(128) == 0x1_0000_0000_0000_0000 * 0x1_0000_0000_0000_0000);
    }
    while rest > 0
        invariant
            length <= 128,
            rest as nat * pow2(length as nat) <= value as nat,
            (value as nat) < (rest as nat + 1) * pow2(length as nat),
            pow2(128) == u128::MAX + 1,
            length > 0 && rest == 0 ==> value as nat >= pow2((length - 1) as nat),
            length == 0 ==> rest == value,
            length > 0 ==> value > 0,
        decreases rest,
    {
        proof {
            if length == 128 {
                assert(rest as nat * pow2(128) >= pow2(128)) by (nonlinear_arith)
                    requires
                        rest > 0,
                ;
            }
            let half: nat = (rest / 2) as nat;
            let p: nat = pow2(length as nat);
            lemma_pow2_unfold((length + 1) as nat);
            assert(half * (2 * p) <= rest as nat * p) by (nonlinear_arith)
                requires
                    2 * half <= rest as nat,
            ;
            assert((rest as nat + 1) * p <= (half + 1) * (2 * p)) by (nonlinear_arith)
                requires
                    rest as nat + 1 <= 2 * (half + 1),
            ;
            assert(rest as nat * p >= p) by (nonlinear_arith)
                requires
                    rest > 0,
            ;
        }
        rest = rest / 2;
        length = length + 1;
    }
    proof {
        assert((rest as nat + 1) * pow2(length as nat) == pow2(length as nat)) by (nonlinear_arith)
            requires
                rest == 0,
        ;
    }
    length
}

/// A significand and a shift, put together as a bit pattern, count for
/// `significand * 2^shift` units.
proof fn lemma_pattern_units(significand: nat, shift: nat)
    requires
        significand <= 0x20_0000_0000_0000,
        shift > 0 ==> significand >= 0x10_0000_0000_0000,
    ensures
        pattern_units(shift * 0x10_0000_0000_0000 + significand) == significand * pow2(shift),
{
    lemma2_to64();
    let pattern: nat = shift * 0x10_0000_0000_0000 + significand;
    if significand < 0x10_0000_0000_0000 {
        assert(significand * pow2(0) == significand) by (nonlinear_arith)
            requires
                pow2(0) == 1,
        ;
    } else if significand < 0x20_0000_0000_0000 {
        assert(pattern / 0x10_0000_0000_0000 == shift + 1);
        assert(pattern % 0x10_0000_0000_0000 == significand - 0x10_0000_0000_0000);
    } else {
        assert(pattern / 0x10_0000_0000_0000 == shift + 2);
        assert(pattern % 0x10_0000_0000_0000 == 0);
        lemma_pow2_unfold(shift + 1);
        assert(0x10_0000_0000_0000 * pow2(shift + 1) == significand * pow2(shift))
            by (nonlinear_arith)
            requires
                pow2(shift + 1) == 2 * pow2(shift),
                significand == 0x20_0000_0000_0000,
        ;
    }
}

/// The rounding of a value that lies between `significand` and `significand + 1`
/// times `weight`, cut down to its upper bits.
proof fn lemma_nearest_of_cut(n: nat, weight: nat, significand: nat, half: nat)
    requires
        weight > 0,
        half > 0,
        significand * weight <= n < (significand + 1) * weight,
    ensures
        ({
            let q: nat = significand / (2 * half);
            let r: nat = significand % (2 * half);
            let up: bool = r > half || (r == half && (n != significand * weight || q % 2 == 1));
            nearest_even(n, weight * (2 * half)) == if up {
                q + 1
            } else {
                q
            }
        }),
{
    let p: nat = 2 * half;
    let q: nat = significand / p;
    let r: nat = significand % p;
    let rest: nat = (n - significand * weight) as nat;
    let d: nat = weight * p;
    let left: nat = r * weight + rest;
    vstd::arithmetic::div_mod::lemma_fundamental_div_mod(significand as int, p as int);
    assert(significand * weight == q * d + r * weight) by (nonlinear_arith)
        requires
            significand == p * q + r,
            d == weight * p,
    ;
    assert(rest < weight) by (nonlinear_arith)
        requires
            rest == n - significand * weight,
            n < (significand + 1) * weight,
    ;
    assert(left < d) by (nonlinear_arith)
        requires
            left == r * weight + rest,
            rest < weight,
            r + 1 <= p,
            d == weight * p,
    ;
    assert(d > 0);
    vstd::arithmetic::div_mod::lemma_fundamental_div_mod_converse(
        n as int,
        d as int,
        q as int,
        left as int,
    );
    if r > half {
        assert(2 * left > d) by (nonlinear_arith)
            requires
                left >= r * weight,
                r >= half + 1,
                d == weight * (2 * half),
                weight > 0,
        ;
    } else if r == half {
        assert(2 * left == d + 2 * rest) by (nonlinear_arith)
            requires
                left == r * weight + rest,
                r == half,
                d == weight * (2 * half),
        ;
    } else {
        assert(2 * left < d) by (nonlinear_arith)
            requires
                left == r * weight + rest,
                rest < weight,
                r + 1 <= half,
                d == weight * (2 * half),
        ;
    }
}

/// A finite pattern is one whose units stay below 2^2098.
proof fn lemma_pattern_range(significand: nat, shift: nat)
    requires
        significand <= 0x20_0000_0000_0000,
        shift > 0 ==> significand >= 0x10_0000_0000_0000,
    ensures
        shift * 0x10_0000_0000_0000 + significand < INFINITY_BITS <==> significand * pow2(shift)
            < pow2(2098),
{
    lemma2_to64_rest();
    lemma_pow2_adds(53, 2044);
    lemma_pow2_adds(53, 2045);
    lemma_pow2_strictly_increases(2097, 2098);
    lemma_pow2_pos(shift);
    lemma_pow2_pos(2045);
    if shift <= 2044 {
        if shift < 2044 {
            lemma_pow2_strictly_increases(shift, 2044);
        }
        assert(significand * pow2(shift) <= 0x20_0000_0000_0000 * pow2(2044)) by (nonlinear_arith)
            requires
                significand <= 0x20_0000_0000_0000,
                pow2(shift) <= pow2(2044),
        ;
    } else if shift == 2045 {
        if significand < 0x20_0000_0000_0000 {
            assert(significand * pow2(2045) < 0x20_0000_0000_0000 * pow2(2045))
                by (nonlinear_arith)
                requires
                    significand < 0x20_0000_0000_0000,
                    pow2(2045) > 0,
            ;
        }
    } else {
        lemma_pow2_adds(52, 2046);
        if shift > 2046 {
            lemma_pow2_strictly_increases(2046, shift);
        }
        assert(significand * pow2(shift) >= 0x10_0000_0000_0000 * pow2(2046)) by (nonlinear_arith)
            requires
                significand >= 0x10_0000_0000_0000,
                pow2(shift) >= pow2(2046),
        ;
    }
}

/// How the unit of a significand relates to the denominator of a value.
pub(crate) open spec fn scaled(d: nat, weight: nat, shift: int) -> bool {
    if shift >= 0 {
        weight == d * pow2(shift as nat)
    } else {
        d == weight * pow2((-shift) as nat)
    }
}

proof fn lemma_scaled(d: nat, weight: nat, shift: int, kept: nat)
    requires
        scaled(d, weight, shift),
    ensures
        kept >= shift ==> d * pow2(kept) == weight * pow2((kept - shift) as nat),
        kept < shift ==> weight == (d * pow2(kept)) * pow2((shift - kept) as nat),
{
    if shift < 0 {
        let up: nat = (-shift) as nat;
        lemma_pow2_adds(up, kept);
        assert(up + kept == kept - shift);
        assert((weight * pow2(up)) * pow2(kept) == weight * pow2(up + kept)) by (nonlinear_arith)
            requires
                pow2(up + kept) == pow2(up) * pow2(kept),
        ;
    } else if kept >= shift {
        let up: nat = shift as nat;
        let rest: nat = (kept - shift) as nat;
        lemma_pow2_adds(up, rest);
        assert(up + rest == kept);
        assert(d * pow2(up + rest) == (d * pow2(up)) * pow2(rest)) by (nonlinear_arith)
            requires
                pow2(up + rest) == pow2(up) * pow2(rest),
        ;
    } else {
        let rest: nat = (shift - kept) as nat;
        lemma_pow2_adds(kept, rest);
        assert(kept + rest == shift);
        assert(d * pow2(kept + rest) == (d * pow2(kept)) * pow2(rest)) by (nonlinear_arith)
            requires
                pow2(kept + rest) == pow2(kept) * pow2(rest),
        ;
    }
}

pub(crate) proof fn lemma_pow2_ordered(low: nat, high: nat)
    requires
        low <= high,
    ensures
        pow2(low) <= pow2(high),
{
    if low < high {
        lemma_pow2_strictly_increases(low, high);
    }
}

/// Where `kept` low bits are dropped, the value lies in the binade of `kept`.
proof fn lemma_binade(
    n: nat,
    d: nat,
    weight: nat,
    significand: nat,
    length: nat,
    shift: int,
    kept: nat,
)
    requires
        d > 0,
        weight > 0,
        scaled(d, weight, shift),
        significand * weight <= n < (significand + 1) * weight,
        significand < pow2(length),
        length > 0,
        significand >= pow2((length - 1) as nat),
        length + shift - 53 <= kept,
        kept == 0 || kept == length + shift - 53,
    ensures
        n < d * pow2(53 + kept),
        kept == 0 || n >= d * pow2((52 + kept) as nat),
{
    let unit: nat = d * pow2(kept);
    lemma_scaled(d, weight, shift, kept);
    lemma_pow2_adds(53, kept);
    lemma_pow2_adds(52, kept);
    assert(d * pow2(53 + kept) == unit * pow2(53)) by (nonlinear_arith)
        requires
            pow2(53 + kept) == pow2(53) * pow2(kept),
            unit == d * pow2(kept),
    ;
    assert(d * pow2(52 + kept) == unit * pow2(52)) by (nonlinear_arith)
        requires
            pow2(52 + kept) == pow2(52) * pow2(kept),
            unit == d * pow2(kept),
    ;
    assert((significand + 1) * weight <= pow2(length) * weight) by (nonlinear_arith)
        requires
            significand + 1 <= pow2(length),
    ;
    if kept >= shift {
        let drop: nat = (kept - shift) as nat;
        lemma_pow2_ordered(length, 53 + drop);
        lemma_pow2_adds(53, drop);
        assert(pow2(length) * weight <= unit * pow2(53)) by (nonlinear_arith)
            requires
                pow2(length) <= pow2(53) * pow2(drop),
                unit == weight * pow2(drop),
        ;
        if kept > 0 {
            lemma_pow2_adds(52, drop);
            assert(length - 1 == 52 + drop);
            assert(significand * weight >= unit * pow2(52)) by (nonlinear_arith)
                requires
                    significand >= pow2(52) * pow2(drop),
                    unit == weight * pow2(drop),
            ;
        }
    } else {
        let lift: nat = (shift - kept) as nat;
        lemma_pow2_ordered(length + lift, 53);
        lemma_pow2_adds(length, lift);
        assert(pow2(length) * weight <= unit * pow2(53)) by (nonlinear_arith)
            requires
                pow2(length) * pow2(lift) <= pow2(53),
                weight == unit * pow2(lift),
        ;
        if kept > 0 {
            lemma_pow2_adds((length - 1) as nat, lift);
            assert(length - 1 + lift == 52);
            assert(significand * weight >= unit * pow2(52)) by (nonlinear_arith)
                requires
                    significand >= pow2((length - 1) as nat),
                    pow2((length - 1) as nat) * pow2(lift) == pow2(52),
                    weight == unit * pow2(lift),
            ;
        }
    }
}

/// The bits of `significand` that remain when `drop` low ones are rounded away.
fn round_off(
    significand: u128,
    drop: i32,
    sticky: bool,
    Ghost(n): Ghost<nat>,
    Ghost(unit): Ghost<nat>,
    Ghost(weight): Ghost<nat>,
) -> (kept: u64)
    requires
        -2000 <= drop <= 3000,
        weight > 0,
        unit > 0,
        (significand as nat) < pow2(120),
        significand as nat * weight <= n < (significand as nat + 1) * weight,
        sticky <==> n != significand as nat * weight,
        drop <= 0 ==> !sticky && weight == unit * pow2((-drop) as nat),
        drop > 0 ==> unit == weight * pow2(drop as nat),
        n < unit * pow2(53),
    ensures
        kept as nat == nearest_even(n, unit),
        kept <= 0x20_0000_0000_0000,
{
    proof {
        lemma2_to64();
        lemma2_to64_rest();
        vstd::arithmetic::div_mod::lemma_fundamental_div_mod(n as int, unit as int);
        assert(n / unit < pow2(53)) by (nonlinear_arith)
            requires
                n < unit * pow2(53),
                n == unit * (n / unit) + n % unit,
                0 <= n % unit,
                unit > 0,
        ;
    }
    if significand == 0 {
        proof {
            assert(n < weight) by (nonlinear_arith)
                requires
                    n < (significand as nat + 1) * weight,
                    significand == 0,
            ;
            if drop > 0 {
                lemma_pow2_unfold(drop as nat);
                lemma_pow2_pos((drop - 1) as nat);
                assert(unit >= 2 * weight) by (nonlinear_arith)
                    requires
                        unit == weight * pow2(drop as nat),
                        pow2(drop as nat) >= 2,
                ;
            } else {
                assert(n == 0) by (nonlinear_arith)
                    requires
                        n == significand as nat * weight,
                        significand == 0,
                ;
            }
            vstd::arithmetic::div_mod::lemma_fundamental_div_mod_converse(
                n as int,
                unit as int,
                0,
                n as int,
            );
        }
        return 0;
    }
    if drop <= 0 {
        let lift: u32 = (-drop) as u32;
        proof {
            let p: nat = pow2(lift as nat);
            lemma_pow2_pos(lift as nat);
            assert(n == (significand as nat * p) * unit) by (nonlinear_arith)
                requires
                    n == significand as nat * weight,
                    weight == unit * p,
            ;
            vstd::arithmetic::div_mod::lemma_fundamental_div_mod_converse(
                n as int,
                unit as int,
                (significand as nat * p) as int,
                0,
            );
            assert(p <= significand as nat * p) by (nonlinear_arith)
                requires
                    significand >= 1,
            ;
            assert(significand as nat <= significand as nat * p) by (nonlinear_arith)
                requires
                    p >= 1,
            ;
            if lift >= 53 {
                lemma_pow2_ordered(53, lift as nat);
            }
        }
        return (significand * power_of_two(lift)) as u64;
    }
    if drop > 121 {
        proof {
            lemma_pow2_ordered(122, drop as nat);
            lemma_pow2_adds(2, 120);
            assert(2 * n < unit) by (nonlinear_arith)
                requires
                    n < (significand as nat + 1) * weight,
                    significand as nat + 1 <= pow2(120),
                    unit == weight * pow2(drop as nat),
                    pow2(drop as nat) >= 4 * pow2(120),
                    weight > 0,
            ;
            vstd::arithmetic::div_mod::lemma_fundamental_div_mod_converse(
                n as int,
                unit as int,
                0,
                n as int,
            );
        }
        return 0;
    }
    let half: u128 = power_of_two((drop - 1) as u32);
    proof {
        lemma_pow2_unfold(drop as nat);
        lemma_pow2_pos((drop - 1) as nat);
        lemma_pow2_bound(drop as nat);
        lemma_nearest_of_cut(n, weight, significand as nat, half as nat);
    }
    let q: u128 = significand / (2 * half);
    let r: u128 = significand % (2 * half);
    if r > half || (r == half && (sticky || q % 2 == 1)) {
        (q + 1) as u64
    } else {
        q as u64
    }
}

/// The double nearest to `n / d` units. The value is known by its leading bits:
/// it is `significand * 2^shift` units and, where `sticky` is set, a little more.
fn assemble(
    negative: bool,
    significand: u128,
    shift: i32,
    sticky: bool,
    Ghost(n): Ghost<nat>,
    Ghost(d): Ghost<nat>,
    Ghost(weight): Ghost<nat>,
) -> (double: Double)
    requires
        d > 0,
        weight > 0,
        (significand as nat) < pow2(120),
        -2000 <= shift <= 4000,
        scaled(d, weight, shift as int),
        significand as nat * weight <= n < (significand as nat + 1) * weight,
        sticky <==> n != significand as nat * weight,
        sticky ==> significand >= 0x20_0000_0000_0000,
    ensures
        double@ == clipped(negative, rounded(n, d)),
{
    let sign: u64 = if negative {
        0x8000_0000_0000_0000
    } else {
        0
    };
    proof {
        lemma2_to64();
        lemma2_to64_rest();
    }
    if significand == 0 {
        proof {
            assert(n == 0) by (nonlinear_arith)
                requires
                    n == significand as nat * weight,
                    significand == 0,
            ;
            assert(0 < d * 0x20_0000_0000_0000);
            vstd::arithmetic::div_mod::lemma_fundamental_div_mod_converse(0, d as int, 0, 0);
            lemma_pow2_pos(2098);
        }
        return Double { bits: sign };
    }
    let length: u32 = bit_length(significand);
    proof {
        if length > 120 {
            lemma_pow2_ordered(120, (length - 1) as nat);
        }
        if sticky && length <= 53 {
            lemma_pow2_ordered(length as nat, 53);
        }
    }
    let top: i32 = length as i32 + shift;
    let kept: i32 = if top > 53 {
        top - 53
    } else {
        0
    };
    let ghost unit: nat = d * pow2(kept as nat);
    proof {
        lemma_scaled(d, weight, shift as int, kept as nat);
        lemma_pow2_pos(kept as nat);
        assert(unit > 0) by (nonlinear_arith)
            requires
                d > 0,
                pow2(kept as nat) > 0,
                unit == d * pow2(kept as nat),
        ;
        lemma_binade(n, d, weight, significand as nat, length as nat, shift as int, kept as nat);
        lemma_rounded_in_binade(n, d, kept as nat);
        lemma_pow2_adds(53, kept as nat);
        assert(d * pow2(53 + kept as nat) == unit * pow2(53)) by (nonlinear_arith)
            requires
                pow2(53 + kept as nat) == pow2(53) * pow2(kept as nat),
                unit == d * pow2(kept as nat),
        ;
        if kept == shift {
            assert(weight * pow2(0) == weight) by (nonlinear_arith)
                requires
                    pow2(0) == 1,
            ;
            assert(unit * pow2(0) == unit) by (nonlinear_arith)
                requires
                    pow2(0) == 1,
            ;
        }
    }
    let rest: u64 = round_off(
        significand,
        kept - shift,
        sticky,
        Ghost(n),
        Ghost(unit),
        Ghost(weight),
    );
    proof {
        if kept > 0 {
            lemma_pow2_adds(52, kept as nat);
            assert(n >= unit * pow2(52)) by (nonlinear_arith)
                requires
                    n >= d * pow2(52 + kept as nat),
                    pow2(52 + kept as nat) == pow2(52) * pow2(kept as nat),
                    unit == d * pow2(kept as nat),
            ;
            vstd::arithmetic::div_mod::lemma_fundamental_div_mod(n as int, unit as int);
            if n / unit < pow2(52) {
                let q: nat = n / unit;
                assert(unit * q + unit <= unit * pow2(52)) by (nonlinear_arith)
                    requires
                        q + 1 <= pow2(52),
                ;
                assert(n % unit < unit);
            }
        }
        lemma_pattern_units(rest as nat, kept as nat);
        lemma_pattern_range(rest as nat, kept as nat);
    }
    if kept > 2046 {
        return Double { bits: sign + INFINITY_BITS };
    }
    let pattern: u64 = kept as u64 * 0x10_0000_0000_0000 + rest;
    if pattern >= INFINITY_BITS {
        Double { bits: sign + INFINITY_BITS }
    } else {
        Double { bits: sign + pattern }
    }
}

/// A product of powers of two with a significand, as the unit of a result.
proof fn lemma_scaled_powers(factor: nat, low: nat, high: nat)
    ensures
        scaled(factor * pow2(low), factor * pow2(high), high - low),
{
    if high >= low {
        let rest: nat = (high - low) as nat;
        lemma_pow2_adds(low, rest);
        assert(low + rest == high);
        assert(factor * pow2(high) == (factor * pow2(low)) * pow2(rest)) by (nonlinear_arith)
            requires
                pow2(high) == pow2(low) * pow2(rest),
        ;
    } else {
        let rest: nat = (low - high) as nat;
        lemma_pow2_adds(high, rest);
        assert(high + rest == low);
        assert(factor * pow2(low) == (factor * pow2(high)) * pow2(rest)) by (nonlinear_arith)
            requires
                pow2(low) == pow2(high) * pow2(rest),
        ;
    }
}

proof fn lemma_positive_product(a: nat, b: nat)
    requires
        a > 0,
        b > 0,
    ensures
        a * b > 0,
{
    assert(a * b > 0) by (nonlinear_arith)
        requires
            a > 0,
            b > 0,
    ;
}

/// The exact product of two finite doubles, rounded.
fn product(negative: bool, m: u64, i: u32, n: u64, j: u32) -> (double: Double)
    requires
        m < 0x20_0000_0000_0000,
        n < 0x20_0000_0000_0000,
        i <= 2045,
        j <= 2045,
    ensures
        double@ == clipped(
            negative,
            rounded((m as nat * pow2(i as nat)) * (n as nat * pow2(j as nat)), one()),
        ),
{
    proof {
        let weight: nat = pow2((i + j) as nat);
        lemma_pow2_adds(i as nat, j as nat);
        lemma_pow2_pos(1074);
        lemma_pow2_pos((i + j) as nat);
        assert(m as nat * n as nat <= 0x1f_ffff_ffff_ffff * 0x1f_ffff_ffff_ffff)
            by (nonlinear_arith)
            requires
                m <= 0x1f_ffff_ffff_ffff,
                n <= 0x1f_ffff_ffff_ffff,
        ;
        lemma2_to64();
        lemma2_to64_rest();
        lemma_pow2_adds(60, 60);
        let a: nat = pow2(i as nat);
        let b: nat = pow2(j as nat);
        assert((m as nat * n as nat) * weight == (m as nat * a) * (n as nat * b))
            by (nonlinear_arith)
            requires
                weight == a * b,
        ;
        assert((m as nat * n as nat + 1) * weight > (m as nat * n as nat) * weight)
            by (nonlinear_arith)
            requires
                weight > 0,
        ;
        lemma_scaled_powers(1, 1074, (i + j) as nat);
    }
    assemble(
        negative,
        m as u128 * n as u128,
        i as i32 + j as i32 - 1074,
        false,
        Ghost((m as nat * pow2(i as nat)) * (n as nat * pow2(j as nat))),
        Ghost(one()),
        Ghost(pow2((i + j) as nat)),
    )
}

/// The exact quotient of two finite doubles that are not zero, rounded.
fn quotient(negative: bool, m: u64, i: u32, n: u64, j: u32) -> (double: Double)
    requires
        0 < m < 0x20_0000_0000_0000,
        0 < n < 0x20_0000_0000_0000,
        i <= 2045,
        j <= 2045,
    ensures
        double@ == clipped(
            negative,
            rounded((m as nat * pow2(i as nat)) * one(), n as nat * pow2(j as nat)),
        ),
{
    let length: u32 = bit_length(m as u128);
    proof {
        lemma2_to64();
        lemma2_to64_rest();
        if length > 53 {
            lemma_pow2_ordered(53, (length - 1) as nat);
        }
    }
    let lift: u32 = 117 - length;
    let power: u128 = power_of_two(lift);
    let ghost p: nat = pow2(lift as nat);
    proof {
        lemma_pow2_adds(length as nat, lift as nat);
        lemma_pow2_adds((length - 1) as nat, lift as nat);
        lemma_pow2_bound(117);
        lemma_pow2_pos(lift as nat);
        assert(length - 1 + lift == 116);
        assert(m as nat * p < pow2(117)) by (nonlinear_arith)
            requires
                (m as nat) < pow2(length as nat),
                pow2(length as nat) * p == pow2(117),
                p > 0,
        ;
        assert(m as nat * p >= pow2(116)) by (nonlinear_arith)
            requires
                m as nat >= pow2((length - 1) as nat),
                pow2((length - 1) as nat) * p == pow2(116),
        ;
    }
    let numerator: u128 = m as u128 * power;
    let q: u128 = numerator / n as u128;
    let r: u128 = numerator % n as u128;
    let ghost rest: nat = (i + 1074 - lift) as nat;
    let ghost weight: nat = n as nat * pow2(rest);
    let ghost d: nat = n as nat * pow2(j as nat);
    let ghost value: nat = (m as nat * pow2(i as nat)) * one();
    proof {
        vstd::arithmetic::div_mod::lemma_fundamental_div_mod(numerator as int, n as int);
        lemma_pow2_pos(rest);
        lemma_pow2_pos(j as nat);
        lemma_positive_product(n as nat, pow2(rest));
        lemma_positive_product(n as nat, pow2(j as nat));
        lemma_pow2_adds(i as nat, 1074);
        lemma_pow2_adds(lift as nat, rest);
        assert(lift + rest == i + 1074);
        let t: nat = pow2(rest);
        assert(value == numerator as nat * t) by (nonlinear_arith)
            requires
                value == (m as nat * pow2(i as nat)) * one(),
                one() == pow2(1074),
                pow2(i as nat) * pow2(1074) == p * t,
                numerator as nat == m as nat * p,
        ;
        assert(value == q as nat * weight + r as nat * t) by (nonlinear_arith)
            requires
                value == numerator as nat * t,
                numerator as nat == n as nat * q as nat + r as nat,
                weight == n as nat * t,
        ;
        assert(r as nat * t < weight) by (nonlinear_arith)
            requires
                (r as nat) < n as nat,
                weight == n as nat * t,
                t > 0,
        ;
        assert((q as nat + 1) * weight == q as nat * weight + weight) by (nonlinear_arith);
        assert(r as nat * t == 0 <==> r == 0) by (nonlinear_arith)
            requires
                t > 0,
        ;
        lemma_scaled_powers(n as nat, j as nat, rest);
        lemma_pow2_ordered(117, 120);
        lemma_pow2_adds(63, 53);
        if (q as nat) < pow2(63) {
            assert(n as nat * q as nat + n as nat <= pow2(53) * pow2(63)) by (nonlinear_arith)
                requires
                    q as nat + 1 <= pow2(63),
                    n as nat <= pow2(53),
            ;
        }
        assert(q as nat <= numerator as nat) by (nonlinear_arith)
            requires
                numerator as nat == n as nat * q as nat + r as nat,
                n >= 1,
        ;
    }
    assemble(
        negative,
        q,
        i as i32 - j as i32 + 1074 - lift as i32,
        r != 0,
        Ghost(value),
        Ghost(d),
        Ghost(weight),
    )
}

/// `m * 2^i`, in units of `2^j`.
proof fn lemma_aligned(m: nat, i: nat, j: nat)
    requires
        j <= i,
    ensures
        m * pow2(i) == (m * pow2((i - j) as nat)) * pow2(j),
{
    lemma_pow2_adds((i - j) as nat, j);
    assert(m * pow2(i) == (m * pow2((i - j) as nat)) * pow2(j)) by (nonlinear_arith)
        requires
            pow2(i) == pow2((i - j) as nat) * pow2(j),
    ;
}

/// The double that is exactly `significand * 2^shift` units, where it fits, and
/// the nearest one where it does not.
pub(crate) fn from_units(negative: bool, significand: u128, shift: u32) -> (double: Double)
    requires
        (significand as nat) < pow2(120),
        shift <= 2045,
    ensures
        double@ == clipped(negative, rounded(significand as nat * pow2(shift as nat), 1)),
{
    let ghost weight: nat = pow2(shift as nat);
    proof {
        lemma_pow2_pos(shift as nat);
        assert((significand as nat + 1) * weight > significand as nat * weight)
            by (nonlinear_arith)
            requires
                weight > 0,
        ;
    }
    assemble(
        negative,
        significand,
        shift as i32,
        false,
        Ghost(significand as nat * weight),
        Ghost(1),
        Ghost(weight),
    )
}

/// The sum of two magnitudes, of which the first is shifted at least as far.
fn sum_of_magnitudes(negative: bool, m: u64, i: u32, n: u64, j: u32) -> (double: Double)
    requires
        m < 0x20_0000_0000_0000,
        n < 0x20_0000_0000_0000,
        j <= i <= 2045,
        i > 0 ==> m >= 0x10_0000_0000_0000,
    ensures
        double@ == clipped(
            negative,
            rounded(m as nat * pow2(i as nat) + n as nat * pow2(j as nat), 1),
        ),
{
    proof {
        lemma2_to64();
        lemma2_to64_rest();
        lemma_pow2_adds(60, 60);
    }
    if i - j <= 62 {
        let power: u128 = power_of_two(i - j);
        proof {
            lemma_aligned(m as nat, i as nat, j as nat);
            lemma_pow2_ordered((i - j) as nat, 62);
            assert(m as nat * power as nat <= 0x20_0000_0000_0000 * 0x4000_0000_0000_0000)
                by (nonlinear_arith)
                requires
                    m < 0x20_0000_0000_0000,
                    power as nat <= 0x4000_0000_0000_0000,
            ;
            let a: nat = m as nat * power as nat;
            assert((a + n as nat) * pow2(j as nat) == a * pow2(j as nat) + n as nat * pow2(
                j as nat,
            )) by (nonlinear_arith);
        }
        from_units(negative, m as u128 * power + n as u128, j)
    } else {
        let ghost weight: nat = pow2((i - 10) as nat);
        let ghost small: nat = n as nat * pow2(j as nat);
        proof {
            lemma_aligned(m as nat, i as nat, (i - 10) as nat);
            lemma_small_addend(n as nat, i as nat, j as nat);
            lemma_pow2_pos((i - 10) as nat);
            let a: nat = (m * 1024) as nat;
            assert((a + 1) * weight == a * weight + weight) by (nonlinear_arith);
            lemma_pow2_adds(0, (i - 10) as nat);
        }
        assemble(
            negative,
            m as u128 * 1024,
            i as i32 - 10,
            n != 0,
            Ghost(m as nat * pow2(i as nat) + small),
            Ghost(1),
            Ghost(weight),
        )
    }
}

/// An addend far below the last bit of the other stays below that bit.
proof fn lemma_small_addend(n: nat, i: nat, j: nat)
    requires
        n < 0x20_0000_0000_0000,
        j + 63 <= i,
    ensures
        n * pow2(j) < pow2((i - 10) as nat),
        n * pow2(j) == 0 <==> n == 0,
{
    lemma2_to64_rest();
    lemma_pow2_adds(53, j);
    lemma_pow2_pos(j);
    lemma_pow2_ordered(53 + j, (i - 10) as nat);
    assert(n * pow2(j) < 0x20_0000_0000_0000 * pow2(j)) by (nonlinear_arith)
        requires
            n < 0x20_0000_0000_0000,
            pow2(j) > 0,
    ;
    assert(n * pow2(j) == 0 <==> n == 0) by (nonlinear_arith)
        requires
            pow2(j) > 0,
    ;
}

/// The first magnitude, with its sign, less the second, of which the first is
/// shifted at least as far.
fn difference_of_magnitudes(negative: bool, m: u64, i: u32, n: u64, j: u32) -> (double: Double)
    requires
        m < 0x20_0000_0000_0000,
        n < 0x20_0000_0000_0000,
        j <= i <= 2045,
        i > 0 ==> m >= 0x10_0000_0000_0000,
    ensures
        ({
            let a: nat = m as nat * pow2(i as nat);
            let b: nat = n as nat * pow2(j as nat);
            double@ == if a > b {
                clipped(negative, rounded((a - b) as nat, 1))
            } else if b > a {
                clipped(!negative, rounded((b - a) as nat, 1))
            } else {
                Number::Finite { negative: false, units: 0 }
            }
        }),
{
    let ghost a: nat = m as nat * pow2(i as nat);
    let ghost b: nat = n as nat * pow2(j as nat);
    proof {
        lemma2_to64();
        lemma2_to64_rest();
        lemma_pow2_adds(60, 60);
    }
    if i - j <= 62 {
        let power: u128 = power_of_two(i - j);
        let ghost p: nat = pow2(j as nat);
        proof {
            lemma_aligned(m as nat, i as nat, j as nat);
            lemma_pow2_ordered((i - j) as nat, 62);
            lemma_pow2_pos(j as nat);
            assert(m as nat * power as nat <= 0x20_0000_0000_0000 * 0x4000_0000_0000_0000)
                by (nonlinear_arith)
                requires
                    m < 0x20_0000_0000_0000,
                    power as nat <= 0x4000_0000_0000_0000,
            ;
        }
        let large: u128 = m as u128 * power;
        let small: u128 = n as u128;
        if large > small {
            proof {
                assert((large - small) * p == a - b && a > b) by (nonlinear_arith)
                    requires
                        a == large as nat * p,
                        b == small as nat * p,
                        large > small,
                        p > 0,
                ;
            }
            from_units(negative, large - small, j)
        } else if small > large {
            proof {
                assert((small - large) * p == b - a && b > a) by (nonlinear_arith)
                    requires
                        a == large as nat * p,
                        b == small as nat * p,
                        small > large,
                        p > 0,
                ;
            }
            from_units(!negative, small - large, j)
        } else {
            Double { bits: 0 }
        }
    } else {
        let ghost weight: nat = pow2((i - 10) as nat);
        proof {
            lemma_aligned(m as nat, i as nat, (i - 10) as nat);
            lemma_small_addend(n as nat, i as nat, j as nat);
            lemma_pow2_pos((i - 10) as nat);
            let c: nat = (m * 1024) as nat;
            assert((c + 1) * weight == c * weight + weight) by (nonlinear_arith);
            assert((c - 1) * weight == c * weight - weight) by (nonlinear_arith);
            assert(c * weight > weight) by (nonlinear_arith)
                requires
                    c >= 2,
                    weight > 0,
            ;
        }
        let borrow: u128 = if n != 0 {
            1
        } else {
            0
        };
        assemble(
            negative,
            m as u128 * 1024 - borrow,
            i as i32 - 10,
            n != 0,
            Ghost((a - b) as nat),
            Ghost(1),
            Ghost(weight),
        )
    }
}

impl Double {
    /// The number, taken apart.
    fn parts(self) -> (parts: Parts)
        ensures
            parts.number() == self@,
            parts.normal(),
    {
        let negative: bool = self.bits >= 0x8000_0000_0000_0000;
        let magnitude: u64 = self.bits % 0x8000_0000_0000_0000;
        if magnitude > INFINITY_BITS {
            return Parts::NotANumber;
        }
        if magnitude == INFINITY_BITS {
            return Parts::Infinite { negative };
        }
        let exponent: u64 = magnitude / 0x10_0000_0000_0000;
        let fraction: u64 = magnitude % 0x10_0000_0000_0000;
        if exponent == 0 {
            proof {
                lemma2_to64();
                assert(fraction as nat * pow2(0) == fraction as nat) by (nonlinear_arith)
                    requires
                        pow2(0) == 1,
                ;
            }
            Parts::Finite { negative, significand: fraction, shift: 0 }
        } else {
            Parts::Finite {
                negative,
                significand: 0x10_0000_0000_0000 + fraction,
                shift: (exponent - 1) as u32,
            }
        }
    }

    /// What is not a number.
    pub fn not_a_number() -> (double: Double)
        ensures
            double@ == Number::NotANumber,
    {
        Double { bits: 0x7ff8_0000_0000_0000 }
    }

    /// The infinity with this sign.
    pub fn infinity(negative: bool) -> (double: Double)
        ensures
            double@ == (Number::Infinite { negative }),
    {
        if negative {
            Double { bits: 0xfff0_0000_0000_0000 }
        } else {
            Double { bits: INFINITY_BITS }
        }
    }

    /// The zero with this sign.
    pub fn zero(negative: bool) -> (double: Double)
        ensures
            double@ == (Number::Finite { negative, units: 0 }),
    {
        if negative {
            Double { bits: 0x8000_0000_0000_0000 }
        } else {
            Double { bits: 0 }
        }
    }

    /// The number with the other sign.
    pub fn opposite(self) -> (double: Double)
        ensures
            double@ == self@.opposite(),
    {
        if self.bits >= 0x8000_0000_0000_0000 {
            Double { bits: self.bits - 0x8000_0000_0000_0000 }
        } else {
            Double { bits: self.bits + 0x8000_0000_0000_0000 }
        }
    }

    /// The sum, rounded to nearest.
    pub fn plus(self, other: Double) -> (sum: Double)
        ensures
            sum@ == self@.plus(other@),
    {
        match (self.parts(), other.parts()) {
            (Parts::NotANumber, _) => Double::not_a_number(),
            (_, Parts::NotANumber) => Double::not_a_number(),
            (Parts::Infinite { negative: a }, Parts::Infinite { negative: b }) => if a == b {
                self
            } else {
                Double::not_a_number()
            },
            (Parts::Infinite { .. }, _) => self,
            (_, Parts::Infinite { .. }) => other,
            (
                Parts::Finite { negative: a, significand: m, shift: i },
                Parts::Finite { negative: b, significand: n, shift: j },
            ) => if a == b {
                if i >= j {
                    sum_of_magnitudes(a, m, i, n, j)
                } else {
                    sum_of_magnitudes(a, n, j, m, i)
                }
            } else if i >= j {
                difference_of_magnitudes(a, m, i, n, j)
            } else {
                difference_of_magnitudes(b, n, j, m, i)
            },
        }
    }

    /// The difference, rounded to nearest.
    pub fn minus(self, other: Double) -> (difference: Double)
        ensures
            difference@ == self@.minus(other@),
    {
        self.plus(other.opposite())
    }

    /// The product, rounded to nearest.
    pub fn times(self, other: Double) -> (result: Double)
        ensures
            result@ == self@.times(other@),
    {
        match (self.parts(), other.parts()) {
            (Parts::NotANumber, _) => Double::not_a_number(),
            (_, Parts::NotANumber) => Double::not_a_number(),
            (Parts::Infinite { negative: a }, Parts::Infinite { negative: b }) => Double::infinity(
                a != b,
            ),
            (
                Parts::Infinite { negative: a },
                Parts::Finite { negative: b, significand: n, shift: j },
            ) => {
                proof {
                    lemma_zero_significand(n as nat, j as nat);
                }
                if n == 0 {
                    Double::not_a_number()
                } else {
                    Double::infinity(a != b)
                }
            },
            (
                Parts::Finite { negative: a, significand: m, shift: i },
                Parts::Infinite { negative: b },
            ) => {
                proof {
                    lemma_zero_significand(m as nat, i as nat);
                }
                if m == 0 {
                    Double::not_a_number()
                } else {
                    Double::infinity(a != b)
                }
            },
            (
                Parts::Finite { negative: a, significand: m, shift: i },
                Parts::Finite { negative: b, significand: n, shift: j },
            ) => product(a != b, m, i, n, j),
        }
    }

    /// The quotient, rounded to nearest.
    pub fn over(self, other: Double) -> (result: Double)
        ensures
            result@ == self@.over(other@),
    {
        match (self.parts(), other.parts()) {
            (Parts::NotANumber, _) => Double::not_a_number(),
            (_, Parts::NotANumber) => Double::not_a_number(),
            (Parts::Infinite { .. }, Parts::Infinite { .. }) => Double::not_a_number(),
            (Parts::Infinite { negative: a }, Parts::Finite { negative: b, .. }) =>
                Double::infinity(a != b),
            (Parts::Finite { negative: a, .. }, Parts::Infinite { negative: b }) => Double::zero(
                a != b,
            ),
            (
                Parts::Finite { negative: a, significand: m, shift: i },
                Parts::Finite { negative: b, significand: n, shift: j },
            ) => {
                proof {
                    lemma_zero_significand(m as nat, i as nat);
                    lemma_zero_significand(n as nat, j as nat);
                }
                if n == 0 {
                    if m == 0 {
                        Double::not_a_number()
                    } else {
                        Double::infinity(a != b)
                    }
                } else if m == 0 {
                    proof {
                        let d: nat = n as nat * pow2(j as nat);
                        assert((m as nat * pow2(i as nat)) * one() == 0) by (nonlinear_arith)
                            requires
                                m == 0,
                        ;
                        vstd::arithmetic::div_mod::lemma_fundamental_div_mod_converse(
                            0,
                            d as int,
                            0,
                            0,
                        );
                        lemma_pow2_pos(2098);
                    }
                    Double::zero(a != b)
                } else {
                    quotient(a != b, m, i, n, j)
                }
            },
        }
    }

    /// The whole number `value`, exactly.
    pub fn from_u32(value: u32) -> (double: Double)
        ensures
            double@ == whole(value as nat),
    {
        proof {
            lemma2_to64();
            lemma2_to64_rest();
            lemma_pow2_ordered(32, 120);
            lemma_rounded_exact(value as nat, 1074, 0);
            lemma_pow2_adds(32, 1074);
            lemma_pow2_ordered(1106, 2098);
            lemma_pow2_pos(1074);
            assert(value as nat * pow2(1074) < 0x1_0000_0000 * pow2(1074)) by (nonlinear_arith)
                requires
                    value < 0x1_0000_0000,
                    pow2(1074) > 0,
            ;
        }
        from_units(false, value as u128, 1074)
    }

    /// The double nearest to `value`.
    pub fn from_i64(value: i64) -> (double: Double)
        ensures
            double@ == clipped(
                value < 0,
                rounded((if value < 0 { -value as int } else { value as int }) as nat * one(), 1),
            ),
    {
        let magnitude: u128 = if value < 0 {
            (-(value as i128)) as u128
        } else {
            value as u128
        };
        proof {
            lemma2_to64();
            lemma_pow2_ordered(64, 120);
        }
        from_units(value < 0, magnitude, 1074)
    }

    /// Whether the number is below the other.
    pub fn below(self, other: Double) -> (less: bool)
        ensures
            less == self@.below(other@),
    {
        let m: u64 = self.bits % 0x8000_0000_0000_0000;
        let n: u64 = other.bits % 0x8000_0000_0000_0000;
        if m > INFINITY_BITS || n > INFINITY_BITS {
            return false;
        }
        proof {
            assert(pattern_units(0) == 0);
            if m < n {
                lemma_pattern_order(m as nat, n as nat);
            }
            if n < m {
                lemma_pattern_order(n as nat, m as nat);
            }
            if m > 0 {
                lemma_pattern_order(0, m as nat);
            }
            if n > 0 {
                lemma_pattern_order(0, n as nat);
            }
        }
        let a: i128 = if self.bits >= 0x8000_0000_0000_0000 {
            -(m as i128)
        } else {
            m as i128
        };
        let b: i128 = if other.bits >= 0x8000_0000_0000_0000 {
            -(n as i128)
        } else {
            n as i128
        };
        a < b
    }

    /// The smaller of two numbers.
    pub fn smaller(self, other: Double) -> (double: Double)
        ensures
            double@ == self@.smaller(other@),
    {
        if self.bits % 0x8000_0000_0000_0000 > INFINITY_BITS || other.below(self) {
            other
        } else {
            self
        }
    }

    /// The number rounded down to an integer, as near as an `i64` comes to it.
    pub fn floor_to_i64(self) -> (value: i64)
        ensures
            value == self@.floor_within(i64::MIN as int, i64::MAX as int),
    {
        match self.parts() {
            Parts::NotANumber => 0,
            Parts::Infinite { negative } => if negative {
                i64::MIN
            } else {
                i64::MAX
            },
            Parts::Finite { negative, significand, shift } => {
                let (count, inexact, _half) = split_whole(significand, shift);
                proof {
                    lemma_negative_floor(significand as nat * pow2(shift as nat));
                }
                signed_within(
                    negative,
                    if negative && inexact {
                        count + 1
                    } else {
                        count
                    },
                )
            },
        }
    }

    /// The number rounded up to an integer, as near as an `i64` comes to it.
    pub fn ceil_to_i64(self) -> (value: i64)
        ensures
            value == self@.ceil_within(i64::MIN as int, i64::MAX as int),
    {
        match self.parts() {
            Parts::NotANumber => 0,
            Parts::Infinite { negative } => if negative {
                i64::MIN
            } else {
                i64::MAX
            },
            Parts::Finite { negative, significand, shift } => {
                let (count, inexact, _half) = split_whole(significand, shift);
                proof {
                    lemma_negative_floor(significand as nat * pow2(shift as nat));
                }
                signed_within(
                    negative,
                    if !negative && inexact {
                        count + 1
                    } else {
                        count
                    },
                )
            },
        }
    }

    /// The nearest integer, halves away from zero, as near as an `i64` comes to it.
    pub fn round_to_i64(self) -> (value: i64)
        ensures
            value == self@.round_within(i64::MIN as int, i64::MAX as int),
    {
        match self.parts() {
            Parts::NotANumber => 0,
            Parts::Infinite { negative } => if negative {
                i64::MIN
            } else {
                i64::MAX
            },
            Parts::Finite { negative, significand, shift } => {
                let (count, _inexact, half) = split_whole(significand, shift);
                proof {
                    lemma_half_up(significand as nat * pow2(shift as nat));
                }
                signed_within(
                    negative,
                    if half {
                        count + 1
                    } else {
                        count
                    },
                )
            },
        }
    }

    /// The nearest integer, halves away from zero, as near as a `u32` comes to it.
    pub fn round_to_u32(self) -> (value: u32)
        ensures
            value == self@.round_within(0, u32::MAX as int),
    {
        let value: i64 = self.round_to_i64();
        if value < 0 {
            0
        } else if value > 0xffff_ffff {
            0xffff_ffff
        } else {
            value as u32
        }
    }
}

/// The signed integer of this magnitude, as near as an `i64` comes to it.
fn signed_within(negative: bool, magnitude: u128) -> (value: i64)
    ensures
        value == crate::number::within(
            if negative {
                -(magnitude as int)
            } else {
                magnitude as int
            },
            i64::MIN as int,
            i64::MAX as int,
        ),
{
    if negative {
        if magnitude >= 0x8000_0000_0000_0000 {
            i64::MIN
        } else {
            -(magnitude as i64)
        }
    } else if magnitude > 0x7fff_ffff_ffff_ffff {
        i64::MAX
    } else {
        magnitude as i64
    }
}

proof fn lemma_negative_floor(units: nat)
    ensures
        (-(units as int)) / (one() as int) == -((units / one()) as int) - if units % one() != 0 {
            1int
        } else {
            0int
        },
        (units as int) / (one() as int) == (units / one()) as int,
{
    let d: int = one() as int;
    let q: int = (units / one()) as int;
    let r: int = (units % one()) as int;
    lemma_pow2_pos(1074);
    vstd::arithmetic::div_mod::lemma_fundamental_div_mod(units as int, d);
    if r == 0 {
        assert(-(units as int) == (-q) * d) by (nonlinear_arith)
            requires
                units as int == d * q,
        ;
        vstd::arithmetic::div_mod::lemma_fundamental_div_mod_converse(-(units as int), d, -q, 0);
    } else {
        assert(-(units as int) == (-q - 1) * d + (d - r)) by (nonlinear_arith)
            requires
                units as int == d * q + r,
        ;
        vstd::arithmetic::div_mod::lemma_fundamental_div_mod_converse(
            -(units as int),
            d,
            -q - 1,
            d - r,
        );
    }
}

proof fn lemma_half_up(units: nat)
    ensures
        (2 * units + one()) as int / (2 * one()) as int == (units / one()) + if 2 * (units % one())
            >= one() {
            1int
        } else {
            0int
        },
{
    let d: int = one() as int;
    let q: int = (units / one()) as int;
    let r: int = (units % one()) as int;
    lemma_pow2_pos(1074);
    vstd::arithmetic::div_mod::lemma_fundamental_div_mod(units as int, d);
    if 2 * r >= d {
        assert(2 * units + d == (q + 1) * (2 * d) + (2 * r - d)) by (nonlinear_arith)
            requires
                units as int == d * q + r,
        ;
        vstd::arithmetic::div_mod::lemma_fundamental_div_mod_converse(
            2 * units + d,
            2 * d,
            q + 1,
            2 * r - d,
        );
    } else {
        assert(2 * units + d == q * (2 * d) + (2 * r + d)) by (nonlinear_arith)
            requires
                units as int == d * q + r,
        ;
        vstd::arithmetic::div_mod::lemma_fundamental_div_mod_converse(
            2 * units + d,
            2 * d,
            q,
            2 * r + d,
        );
    }
}

/// Larger patterns count for more units.
proof fn lemma_pattern_order(a: nat, b: nat)
    requires
        a < b,
    ensures
        pattern_units(a) < pattern_units(b),
{
    let e: nat = a / 0x10_0000_0000_0000;
    let f: nat = a % 0x10_0000_0000_0000;
    let g: nat = b / 0x10_0000_0000_0000;
    let h: nat = b % 0x10_0000_0000_0000;
    if g > 0 {
        let q: nat = pow2((g - 1) as nat);
        lemma_pow2_pos((g - 1) as nat);
        assert((0x10_0000_0000_0000 + h) * q >= 0x10_0000_0000_0000 * q) by (nonlinear_arith);
        if e == g {
            assert((0x10_0000_0000_0000 + f) * q < (0x10_0000_0000_0000 + h) * q)
                by (nonlinear_arith)
                requires
                    f < h,
                    q > 0,
            ;
        } else if e > 0 {
            let p: nat = pow2((e - 1) as nat);
            lemma_pow2_unfold(e);
            lemma_pow2_ordered(e, (g - 1) as nat);
            lemma_pow2_pos((e - 1) as nat);
            assert((0x10_0000_0000_0000 + f) * p < 0x10_0000_0000_0000 * (2 * p))
                by (nonlinear_arith)
                requires
                    f < 0x10_0000_0000_0000,
                    p > 0,
            ;
        }
    }
}

/// The whole number and what is left of it in `significand * 2^shift` units.
/// A whole number beyond 2^64 is given as some number beyond it.
fn split_whole(significand: u64, shift: u32) -> (split: (u128, bool, bool))
    requires
        significand < 0x20_0000_0000_0000,
        shift <= 2045,
        shift > 0 ==> significand >= 0x10_0000_0000_0000,
    ensures
        ({
            let units: nat = significand as nat * pow2(shift as nat);
            let (count, inexact, half) = split;
            &&& count < 0x1_0000_0000_0000_0000 ==> {
                &&& count as nat == units / one()
                &&& inexact <==> units % one() != 0
                &&& half <==> 2 * (units % one()) >= one()
            }
            &&& count >= 0x1_0000_0000_0000_0000 ==> units / one() >= 0x1_0000_0000_0000_0000
            &&& count <= u128::MAX - 1
        }),
{
    let ghost units: nat = significand as nat * pow2(shift as nat);
    proof {
        lemma2_to64();
        lemma2_to64_rest();
        lemma_pow2_pos(1074);
    }
    if shift >= 1074 {
        let lift: u32 = shift - 1074;
        proof {
            lemma_aligned(significand as nat, shift as nat, 1074);
            vstd::arithmetic::div_mod::lemma_fundamental_div_mod_converse(
                units as int,
                one() as int,
                (significand as nat * pow2(lift as nat)) as int,
                0,
            );
            lemma_pow2_ordered(if lift < 64 { lift as nat } else { 64 }, 64);
            assert(lift <= 64 ==> significand as nat * pow2(lift as nat) <= 0x20_0000_0000_0000
                * 0x1_0000_0000_0000_0000) by (nonlinear_arith)
                requires
                    significand < 0x20_0000_0000_0000,
                    lift <= 64 ==> pow2(lift as nat) <= 0x1_0000_0000_0000_0000,
            ;
        }
        if lift > 64 {
            proof {
                lemma_pow2_ordered(64, lift as nat);
                assert(significand as nat * pow2(lift as nat) >= pow2(lift as nat))
                    by (nonlinear_arith)
                    requires
                        significand >= 1,
                ;
            }
            (0x1_0000_0000_0000_0000, false, false)
        } else {
            (significand as u128 * power_of_two(lift), false, false)
        }
    } else {
        let drop: u32 = 1074 - shift;
        proof {
            lemma_aligned(1, 1074, shift as nat);
        }
        let ghost p: nat = pow2(shift as nat);
        if drop > 64 {
            proof {
                lemma_pow2_ordered(64, drop as nat);
                lemma_pow2_pos(shift as nat);
                assert(2 * units < one()) by (nonlinear_arith)
                    requires
                        units == significand as nat * p,
                        significand < 0x20_0000_0000_0000,
                        one() == (1 * pow2(drop as nat)) * p,
                        pow2(drop as nat) >= 0x1_0000_0000_0000_0000,
                        p > 0,
                ;
                vstd::arithmetic::div_mod::lemma_fundamental_div_mod_converse(
                    units as int,
                    one() as int,
                    0,
                    units as int,
                );
                lemma_zero_significand(significand as nat, shift as nat);
            }
            (0, significand != 0, false)
        } else {
            let power: u128 = power_of_two(drop);
            let q: u128 = significand as u128 / power;
            let r: u128 = significand as u128 % power;
            proof {
                lemma_pow2_pos(shift as nat);
                lemma_pow2_pos(drop as nat);
                vstd::arithmetic::div_mod::lemma_fundamental_div_mod(
                    significand as int,
                    power as int,
                );
                let left: nat = r as nat * p;
                assert(units == q as nat * one() + left) by (nonlinear_arith)
                    requires
                        units == significand as nat * p,
                        significand as nat == power as nat * q as nat + r as nat,
                        one() == (1 * power as nat) * p,
                        left == r as nat * p,
                ;
                assert(left < one()) by (nonlinear_arith)
                    requires
                        (r as nat) < power as nat,
                        one() == (1 * power as nat) * p,
                        left == r as nat * p,
                        p > 0,
                ;
                vstd::arithmetic::div_mod::lemma_fundamental_div_mod_converse(
                    units as int,
                    one() as int,
                    q as int,
                    left as int,
                );
                lemma_zero_significand(r as nat, shift as nat);
                assert(2 * left >= one() <==> 2 * r >= power) by (nonlinear_arith)
                    requires
                        one() == (1 * power as nat) * p,
                        left == r as nat * p,
                        p > 0,
                ;
            }
            (q, r != 0, 2 * r >= power)
        }
    }
}

proof fn lemma_zero_significand(significand: nat, shift: nat)
    ensures
        significand * pow2(shift) == 0 <==> significand == 0,
{
    lemma_pow2_pos(shift);
    assert(significand * pow2(shift) == 0 <==> significand == 0) by (nonlinear_arith)
        requires
            pow2(shift) > 0,
    ;
}

/// From one bit pattern to the next the number grows by one unit, and by twice as
/// many with every further exponent.
pub proof fn law_double_steps(magnitude: nat)
    ensures
        pattern_units(0) == 0,
        ({
            let exponent: nat = magnitude / 0x10_0000_0000_0000;
            pattern_units(magnitude + 1) - pattern_units(magnitude) == pow2(
                if exponent == 0 {
                    0
                } else {
                    (exponent - 1) as nat
                },
            )
        }),
{
    let exponent: nat = magnitude / 0x10_0000_0000_0000;
    let fraction: nat = magnitude % 0x10_0000_0000_0000;
    lemma2_to64();
    if fraction == 0xf_ffff_ffff_ffff {
        assert((magnitude + 1) / 0x10_0000_0000_0000 == exponent + 1);
        let rest: nat = (magnitude + 1) % 0x10_0000_0000_0000;
        let q: nat = pow2(exponent);
        assert((0x10_0000_0000_0000 + rest) * q == 0x10_0000_0000_0000 * q) by (nonlinear_arith)
            requires
                rest == 0,
        ;
        if exponent > 0 {
            lemma_pow2_unfold(exponent);
            let p: nat = pow2((exponent - 1) as nat);
            assert((0x10_0000_0000_0000 + fraction) * p + p == 0x10_0000_0000_0000 * (2 * p))
                by (nonlinear_arith)
                requires
                    fraction == 0xf_ffff_ffff_ffff,
            ;
        }
    } else {
        assert((magnitude + 1) / 0x10_0000_0000_0000 == exponent);
        assert((magnitude + 1) % 0x10_0000_0000_0000 == fraction + 1);
        if exponent > 0 {
            let p: nat = pow2((exponent - 1) as nat);
            let rest: nat = (magnitude + 1) % 0x10_0000_0000_0000;
            assert((0x10_0000_0000_0000 + rest) * p == (0x10_0000_0000_0000 + fraction) * p + p)
                by (nonlinear_arith)
                requires
                    rest == fraction + 1,
            ;
        }
    }
}

/// The highest bit is the sign. Without it, a pattern below that of infinity is a
/// finite number, and one above it is not a number.
pub proof fn law_double_patterns(bits: u64)
    ensures
        ({
            let negative: bool = bits >= 0x8000_0000_0000_0000;
            let magnitude: nat = if negative {
                (bits - 0x8000_0000_0000_0000) as nat
            } else {
                bits as nat
            };
            (Double { bits })@ == if magnitude < 0x7ff0_0000_0000_0000 {
                Number::Finite { negative, units: pattern_units(magnitude) }
            } else if magnitude == 0x7ff0_0000_0000_0000 {
                Number::Infinite { negative }
            } else {
                Number::NotANumber
            }
        }),
{
}

} // verus!
