//! Binary floating-point numbers as mathematical values.
//!
//! Every finite double-precision number is a whole multiple of 2^-1074. A
//! [`Number`] counts those multiples, so the arithmetic of the geometry is
//! stated over integers: an operation gives the exact result rounded to 53
//! significant bits, ties to even.
use vstd::arithmetic::power2::{
    lemma2_to64, lemma2_to64_rest, lemma_pow2_adds, lemma_pow2_pos, lemma_pow2_unfold, pow2,
};
use vstd::prelude::*;

verus! {

/// A floating-point value. `units` counts multiples of 2^-1074.
pub enum Number {
    NotANumber,
    Infinite { negative: bool },
    Finite { negative: bool, units: nat },
}

/// The units in the number one.
pub open spec fn one() -> nat {
    pow2(1074)
}

/// The integer nearest to `n / d`; of two that are equally near, the even one.
pub open spec fn nearest_even(n: nat, d: nat) -> nat {
    let q: nat = n / d;
    let r: nat = n % d;
    if 2 * r < d || (2 * r == d && q % 2 == 0) {
        q
    } else {
        q + 1
    }
}

/// `n / d` rounded to an integer of 53 significant bits, ties to even.
pub open spec fn rounded(n: nat, d: nat) -> nat
    decreases n - d,
{
    if d == 0 || n < d * 0x20_0000_0000_0000 {
        nearest_even(n, d)
    } else {
        2 * rounded(n, 2 * d)
    }
}

/// The finite number with this sign and magnitude, or an infinity where the
/// magnitude is beyond the largest finite number.
pub open spec fn clipped(negative: bool, units: nat) -> Number {
    if units < pow2(2098) {
        Number::Finite { negative, units }
    } else {
        Number::Infinite { negative }
    }
}

/// The whole number `n`.
pub open spec fn whole(n: nat) -> Number {
    Number::Finite { negative: false, units: n * one() }
}

impl Number {
    /// The signed count of units of a finite number.
    pub open spec fn signed(self) -> int {
        match self {
            Number::Finite { negative, units } => if negative {
                -(units as int)
            } else {
                units as int
            },
            _ => 0,
        }
    }

    /// The number with the other sign.
    pub open spec fn opposite(self) -> Number {
        match self {
            Number::NotANumber => Number::NotANumber,
            Number::Infinite { negative } => Number::Infinite { negative: !negative },
            Number::Finite { negative, units } => Number::Finite { negative: !negative, units },
        }
    }

    /// The sum, rounded.
    pub open spec fn plus(self, other: Number) -> Number {
        match (self, other) {
            (Number::NotANumber, _) => Number::NotANumber,
            (_, Number::NotANumber) => Number::NotANumber,
            (Number::Infinite { negative: a }, Number::Infinite { negative: b }) => if a == b {
                self
            } else {
                Number::NotANumber
            },
            (Number::Infinite { .. }, _) => self,
            (_, Number::Infinite { .. }) => other,
            (
                Number::Finite { negative: a, units: m },
                Number::Finite { negative: b, units: n },
            ) => if a == b {
                clipped(a, rounded(m + n, 1))
            } else if m > n {
                clipped(a, rounded((m - n) as nat, 1))
            } else if n > m {
                clipped(b, rounded((n - m) as nat, 1))
            } else {
                Number::Finite { negative: false, units: 0 }
            },
        }
    }

    /// The difference, rounded.
    pub open spec fn minus(self, other: Number) -> Number {
        self.plus(other.opposite())
    }

    /// The product, rounded.
    pub open spec fn times(self, other: Number) -> Number {
        match (self, other) {
            (Number::NotANumber, _) => Number::NotANumber,
            (_, Number::NotANumber) => Number::NotANumber,
            (Number::Infinite { negative: a }, Number::Infinite { negative: b }) =>
                Number::Infinite { negative: a != b },
            (Number::Infinite { negative: a }, Number::Finite { negative: b, units: n }) => if n
                == 0 {
                Number::NotANumber
            } else {
                Number::Infinite { negative: a != b }
            },
            (Number::Finite { negative: a, units: m }, Number::Infinite { negative: b }) => if m
                == 0 {
                Number::NotANumber
            } else {
                Number::Infinite { negative: a != b }
            },
            (
                Number::Finite { negative: a, units: m },
                Number::Finite { negative: b, units: n },
            ) => clipped(a != b, rounded(m * n, one())),
        }
    }

    /// The quotient, rounded.
    pub open spec fn over(self, other: Number) -> Number {
        match (self, other) {
            (Number::NotANumber, _) => Number::NotANumber,
            (_, Number::NotANumber) => Number::NotANumber,
            (Number::Infinite { .. }, Number::Infinite { .. }) => Number::NotANumber,
            (Number::Infinite { negative: a }, Number::Finite { negative: b, .. }) =>
                Number::Infinite { negative: a != b },
            (Number::Finite { negative: a, .. }, Number::Infinite { negative: b }) =>
                Number::Finite { negative: a != b, units: 0 },
            (
                Number::Finite { negative: a, units: m },
                Number::Finite { negative: b, units: n },
            ) => if n > 0 {
                clipped(a != b, rounded(m * one(), n))
            } else if m == 0 {
                Number::NotANumber
            } else {
                Number::Infinite { negative: a != b }
            },
        }
    }

    /// Strict order; nothing is below or above what is not a number.
    pub open spec fn below(self, other: Number) -> bool {
        match (self, other) {
            (Number::NotANumber, _) => false,
            (_, Number::NotANumber) => false,
            (Number::Infinite { negative: a }, Number::Infinite { negative: b }) => a && !b,
            (Number::Infinite { negative: a }, _) => a,
            (_, Number::Infinite { negative: b }) => !b,
            (_, _) => self.signed() < other.signed(),
        }
    }

    /// The smaller of two numbers; what is not a number gives way to the other.
    pub open spec fn smaller(self, other: Number) -> Number {
        if self is NotANumber || other.below(self) && !(other is NotANumber) {
            other
        } else {
            self
        }
    }

    /// The largest integer that is not above the number, within `[low, high]`;
    /// 0 for what is not a number.
    pub open spec fn floor_within(self, low: int, high: int) -> int {
        match self {
            Number::NotANumber => 0,
            Number::Infinite { negative } => if negative { low } else { high },
            Number::Finite { .. } => within(self.signed() / (one() as int), low, high),
        }
    }

    /// The smallest integer that is not below the number, within `[low, high]`;
    /// 0 for what is not a number.
    pub open spec fn ceil_within(self, low: int, high: int) -> int {
        match self {
            Number::NotANumber => 0,
            Number::Infinite { negative } => if negative { low } else { high },
            Number::Finite { .. } => within(-((-self.signed()) / (one() as int)), low, high),
        }
    }

    /// The integer nearest to the number, the one farther from zero of two that
    /// are equally near, within `[low, high]`; 0 for what is not a number.
    pub open spec fn round_within(self, low: int, high: int) -> int {
        match self {
            Number::NotANumber => 0,
            Number::Infinite { negative } => if negative { low } else { high },
            Number::Finite { negative, units } => {
                let magnitude: int = (2 * units + one()) as int / (2 * one()) as int;
                within(if negative { -magnitude } else { magnitude }, low, high)
            },
        }
    }
}

/// `value` moved into `[low, high]`.
pub open spec fn within(value: int, low: int, high: int) -> int {
    if value < low {
        low
    } else if value > high {
        high
    } else {
        value
    }
}

/// The binade in which a value lies fixes how it is rounded.
pub proof fn lemma_rounded_in_binade(n: nat, d: nat, shift: nat)
    requires
        d > 0,
        n < d * pow2(53 + shift),
        shift == 0 || n >= d * pow2((52 + shift) as nat),
    ensures
        rounded(n, d) == nearest_even(n, d * pow2(shift)) * pow2(shift),
    decreases shift,
{
    lemma2_to64();
    lemma2_to64_rest();
    if shift == 0 {
        assert(d * pow2(0) == d) by (nonlinear_arith)
            requires
                pow2(0) == 1,
        ;
        assert(nearest_even(n, d) * pow2(0) == nearest_even(n, d)) by (nonlinear_arith)
            requires
                pow2(0) == 1,
        ;
    } else {
        let less: nat = (shift - 1) as nat;
        lemma_pow2_unfold(shift);
        lemma_pow2_unfold(53 + shift);
        lemma_pow2_unfold(52 + shift);
        lemma_pow2_adds(53, less);
        lemma_pow2_pos(less);
        assert(52 + shift == 53 + less);
        assert(d * pow2((53 + less) as nat) >= d * 0x20_0000_0000_0000) by (nonlinear_arith)
            requires
                pow2((53 + less) as nat) == 0x20_0000_0000_0000 * pow2(less),
                pow2(less) > 0,
        ;
        assert((2 * d) * pow2(53 + less) == d * pow2(53 + shift)) by (nonlinear_arith)
            requires
                pow2(53 + shift) == 2 * pow2(53 + less),
        ;
        if less > 0 {
            assert((2 * d) * pow2((52 + less) as nat) == d * pow2((52 + shift) as nat))
                by (nonlinear_arith)
                requires
                    pow2((52 + shift) as nat) == 2 * pow2((52 + less) as nat),
            ;
        }
        lemma_rounded_in_binade(n, 2 * d, less);
        assert((2 * d) * pow2(less) == d * pow2(shift)) by (nonlinear_arith)
            requires
                pow2(shift) == 2 * pow2(less),
        ;
        let m: nat = nearest_even(n, d * pow2(shift));
        assert(2 * (m * pow2(less)) == m * pow2(shift)) by (nonlinear_arith)
            requires
                pow2(shift) == 2 * pow2(less),
        ;
    }
}

/// A number of at most 53 significant bits is not changed by rounding.
pub proof fn lemma_rounded_exact(m: nat, shift: nat, scale: nat)
    requires
        m < 0x20_0000_0000_0000,
        scale <= shift,
    ensures
        rounded(m * pow2(shift), pow2(scale)) == m * pow2((shift - scale) as nat),
    decreases shift - scale,
{
    let rest: nat = (shift - scale) as nat;
    let d: nat = pow2(scale);
    let n: nat = m * pow2(shift);
    lemma_pow2_pos(scale);
    lemma_pow2_adds(scale, rest);
    assert(scale + rest == shift);
    assert(n == (m * pow2(rest)) * d) by (nonlinear_arith)
        requires
            n == m * pow2(shift),
            pow2(shift) == d * pow2(rest),
    ;
    if n < d * 0x20_0000_0000_0000 {
        vstd::arithmetic::div_mod::lemma_fundamental_div_mod_converse(
            n as int,
            d as int,
            (m * pow2(rest)) as int,
            0,
        );
    } else {
        if rest == 0 {
            lemma2_to64();
            assert(n < d * 0x20_0000_0000_0000) by (nonlinear_arith)
                requires
                    n == (m * pow2(rest)) * d,
                    pow2(rest) == 1,
                    m < 0x20_0000_0000_0000,
                    d > 0,
            ;
        }
        lemma_pow2_unfold(scale + 1);
        lemma_rounded_exact(m, shift, scale + 1);
        lemma_pow2_unfold(rest);
        let less: nat = (rest - 1) as nat;
        assert(2 * (m * pow2(less)) == m * pow2(rest)) by (nonlinear_arith)
            requires
                pow2(rest) == 2 * pow2(less),
        ;
    }
}

/// Rounding moves a value by at most half a unit or one part in 2^53.
pub proof fn lemma_rounded_error(n: nat, d: nat)
    requires
        d > 0,
    ensures
        ({
            let error: int = rounded(n, d) * d - n;
            ||| -(d as int) <= 2 * error <= d
            ||| -(n as int) <= 0x20_0000_0000_0000 * error <= n
        }),
    decreases n - d,
{
    let v: nat = rounded(n, d);
    if n < d * 0x20_0000_0000_0000 {
        let q: nat = n / d;
        vstd::arithmetic::div_mod::lemma_fundamental_div_mod(n as int, d as int);
        assert(q * d == d * q) by (nonlinear_arith);
        assert((q + 1) * d == d * q + d) by (nonlinear_arith);
    } else {
        lemma_rounded_error(n, 2 * d);
        let half: nat = rounded(n, 2 * d);
        assert(v * d == half * (2 * d)) by (nonlinear_arith)
            requires
                v == 2 * half,
        ;
    }
}

/// The value of a finite number, in units with a sign.
pub open spec fn value_of(negative: bool, units: nat) -> int {
    if negative {
        -(units as int)
    } else {
        units as int
    }
}

/// The nearest integer to a quotient is at most half away from it, and is even
/// where it is exactly half away.
pub proof fn law_nearest_even(n: nat, d: nat)
    requires
        d > 0,
    ensures
        ({
            let error: int = nearest_even(n, d) * d - n;
            &&& -(d as int) <= 2 * error <= d
            &&& 2 * error == d || 2 * error == -(d as int) ==> nearest_even(n, d) % 2 == 0
        }),
{
    let q: nat = n / d;
    vstd::arithmetic::div_mod::lemma_fundamental_div_mod(n as int, d as int);
    assert(q * d == d * q) by (nonlinear_arith);
    assert((q + 1) * d == d * q + d) by (nonlinear_arith);
}

/// Rounding gives a number of 53 significant bits in the binade of the quotient,
/// at most half of its last bit away from the quotient, and with an even last bit
/// where it is exactly half away. The result is `k * 2^s`, for the `k` and `s` that
/// are returned.
pub proof fn law_rounded_to_nearest(n: nat, d: nat) -> (found: (nat, nat))
    requires
        d > 0,
    ensures
        ({
            let (k, s) = found;
            let step: nat = d * pow2(s);
            let error: int = k * step - n;
            &&& rounded(n, d) == k * pow2(s)
            &&& k <= 0x20_0000_0000_0000
            &&& n < step * 0x20_0000_0000_0000
            &&& s > 0 ==> k >= 0x10_0000_0000_0000 && n >= step * 0x10_0000_0000_0000
            &&& -(step as int) <= 2 * error <= step
            &&& 2 * error == step || 2 * error == -(step as int) ==> k % 2 == 0
        }),
    decreases n - d,
{
    lemma2_to64();
    if n < d * 0x20_0000_0000_0000 {
        let k: nat = nearest_even(n, d);
        law_nearest_even(n, d);
        assert(d * pow2(0) == d && k * pow2(0) == k) by (nonlinear_arith)
            requires
                pow2(0) == 1,
        ;
        vstd::arithmetic::div_mod::lemma_fundamental_div_mod(n as int, d as int);
        assert(n / d < 0x20_0000_0000_0000) by (nonlinear_arith)
            requires
                n < d * 0x20_0000_0000_0000,
                n == d * (n / d) + n % d,
                0 <= n % d,
                d > 0,
        ;
        (k, 0)
    } else {
        let (k, less) = law_rounded_to_nearest(n, 2 * d);
        let s: nat = less + 1;
        lemma_pow2_unfold(s);
        assert((2 * d) * pow2(less) == d * pow2(s) && 2 * (k * pow2(less)) == k * pow2(s))
            by (nonlinear_arith)
            requires
                pow2(s) == 2 * pow2(less),
        ;
        if less == 0 {
            let step: nat = d * pow2(s);
            assert(step == 2 * d) by (nonlinear_arith)
                requires
                    step == d * pow2(s),
                    pow2(s) == 2,
            ;
            assert(k >= 0x10_0000_0000_0000) by {
                if k < 0x10_0000_0000_0000 {
                    assert(k * step + step <= step * 0x10_0000_0000_0000) by (nonlinear_arith)
                        requires
                            k + 1 <= 0x10_0000_0000_0000,
                    ;
                }
            }
        }
        (k, s)
    }
}

/// Of two finite numbers the smaller value is below the other; the infinities are
/// beyond all of them, and nothing is below or above what is not a number.
pub proof fn law_order_of_values(a: Number, b: Number)
    ensures
        match (a, b) {
            (
                Number::Finite { negative: na, units: m },
                Number::Finite { negative: nb, units: n },
            ) => a.below(b) <==> value_of(na, m) < value_of(nb, n),
            (Number::Infinite { negative: true }, Number::Finite { .. }) => a.below(b),
            (Number::Infinite { negative: true }, Number::Infinite { negative }) => a.below(b)
                == !negative,
            (Number::Finite { .. }, Number::Infinite { negative: false }) => a.below(b),
            _ => !a.below(b),
        },
{
}

/// The smaller of two numbers is one of them, and neither is below it; what is not
/// a number is given only where both are not.
pub proof fn law_smaller_of_two(a: Number, b: Number)
    ensures
        ({
            let least: Number = a.smaller(b);
            &&& least == a || least == b
            &&& !a.below(least) && !b.below(least)
            &&& least is NotANumber <==> a is NotANumber && b is NotANumber
        }),
{
}

/// The sum of two finite numbers is the exact sum of their values, rounded, or an
/// infinity of its sign where that is too large. A sum of zero is positive unless
/// both numbers are negative. A finite number leaves an infinity as it is,
/// infinities add up only with the same sign, and with what is not a number there
/// is no sum.
pub proof fn law_sum_of_values(a: Number, b: Number)
    ensures
        match (a, b) {
            (
                Number::Finite { negative: na, units: m },
                Number::Finite { negative: nb, units: n },
            ) => {
                let exact: int = value_of(na, m) + value_of(nb, n);
                let negative: bool = exact < 0 || (exact == 0 && na && nb);
                let magnitude: nat = rounded(
                    if exact < 0 {
                        (-exact) as nat
                    } else {
                        exact as nat
                    },
                    1,
                );
                a.plus(b) == if magnitude < pow2(2098) {
                    Number::Finite { negative, units: magnitude }
                } else {
                    Number::Infinite { negative }
                }
            },
            (Number::Infinite { negative: na }, Number::Infinite { negative: nb }) => a.plus(b)
                == if na == nb {
                a
            } else {
                Number::NotANumber
            },
            (Number::Infinite { .. }, Number::Finite { .. }) => a.plus(b) == a,
            (Number::Finite { .. }, Number::Infinite { .. }) => a.plus(b) == b,
            _ => a.plus(b) is NotANumber,
        },
{
    lemma_pow2_pos(2098);
    assert(0nat / 1nat == 0 && 0nat % 1nat == 0);
}

/// To take a number away is to add it with the other sign.
pub proof fn law_difference_of_values(a: Number, b: Number)
    ensures
        match b {
            Number::Finite { negative, units } => a.minus(b) == a.plus(
                Number::Finite { negative: !negative, units },
            ),
            Number::Infinite { negative } => a.minus(b) == a.plus(
                Number::Infinite { negative: !negative },
            ),
            Number::NotANumber => a.minus(b) is NotANumber,
        },
{
}

/// The product of two finite numbers is the exact product of their values,
/// rounded, and negative where their signs differ; zero times an infinity is not a
/// number.
pub proof fn law_product_of_values(a: Number, b: Number)
    ensures
        match (a, b) {
            (
                Number::Finite { negative: na, units: m },
                Number::Finite { negative: nb, units: n },
            ) => {
                let magnitude: nat = rounded(m * n, pow2(1074));
                a.times(b) == if magnitude < pow2(2098) {
                    Number::Finite { negative: na != nb, units: magnitude }
                } else {
                    Number::Infinite { negative: na != nb }
                }
            },
            (Number::Infinite { negative: na }, Number::Infinite { negative: nb }) => a.times(b) == (
            Number::Infinite { negative: na != nb }),
            (Number::Infinite { negative: na }, Number::Finite { negative: nb, units }) => a.times(b)
                == if units == 0 {
                Number::NotANumber
            } else {
                Number::Infinite { negative: na != nb }
            },
            (Number::Finite { negative: na, units }, Number::Infinite { negative: nb }) => a.times(b)
                == if units == 0 {
                Number::NotANumber
            } else {
                Number::Infinite { negative: na != nb }
            },
            _ => a.times(b) is NotANumber,
        },
{
}

/// The quotient of two finite numbers is the exact quotient of their values,
/// rounded, and negative where their signs differ. What is divided by zero is
/// infinite, but for zero itself.
pub proof fn law_quotient_of_values(a: Number, b: Number)
    ensures
        match (a, b) {
            (
                Number::Finite { negative: na, units: m },
                Number::Finite { negative: nb, units: n },
            ) => {
                let magnitude: nat = rounded(m * pow2(1074), n);
                a.over(b) == if n == 0 && m == 0 {
                    Number::NotANumber
                } else if n == 0 || magnitude >= pow2(2098) {
                    Number::Infinite { negative: na != nb }
                } else {
                    Number::Finite { negative: na != nb, units: magnitude }
                }
            },
            (Number::Infinite { negative: na }, Number::Finite { negative: nb, .. }) => a.over(b)
                == (Number::Infinite { negative: na != nb }),
            (Number::Finite { negative: na, .. }, Number::Infinite { negative: nb }) => a.over(b)
                == (Number::Finite { negative: na != nb, units: 0 }),
            _ => a.over(b) is NotANumber,
        },
{
}

/// The whole number `n` is `n` times 2^1074 units.
pub proof fn law_whole_numbers(n: nat)
    ensures
        whole(n) == (Number::Finite { negative: false, units: n * pow2(1074) }),
{
}

/// `edge` is the last whole number up to `number`, or the nearer bound of
/// `[low, high]` where that is not within; what is not a number counts as `none`.
pub open spec fn is_floor(number: Number, edge: int, low: int, high: int, none: int) -> bool {
    match number {
        Number::NotANumber => edge == none,
        Number::Infinite { negative } => edge == if negative {
            low
        } else {
            high
        },
        Number::Finite { negative, units } => {
            &&& low <= edge <= high
            &&& edge > low ==> edge * pow2(1074) <= value_of(negative, units)
            &&& edge < high ==> value_of(negative, units) < (edge + 1) * pow2(1074)
        },
    }
}

/// `edge` is the first whole number from `number` on, or the nearer bound of
/// `[low, high]` where that is not within; what is not a number counts as `none`.
pub open spec fn is_ceiling(number: Number, edge: int, low: int, high: int, none: int) -> bool {
    match number {
        Number::NotANumber => edge == none,
        Number::Infinite { negative } => edge == if negative {
            low
        } else {
            high
        },
        Number::Finite { negative, units } => {
            &&& low <= edge <= high
            &&& edge < high ==> value_of(negative, units) <= edge * pow2(1074)
            &&& edge > low ==> (edge - 1) * pow2(1074) < value_of(negative, units)
        },
    }
}

/// `near` is the whole number nearest to `number`, the one farther from zero of two
/// that are equally near, or the nearer bound of `[low, high]` where that is not
/// within; what is not a number counts as 0.
pub open spec fn is_nearest(number: Number, near: int, low: int, high: int) -> bool {
    match number {
        Number::NotANumber => near == 0,
        Number::Infinite { negative } => near == if negative {
            low
        } else {
            high
        },
        Number::Finite { negative, units } => {
            let twice: int = 2 * value_of(negative, units);
            &&& low <= near <= high
            &&& near > low ==> (2 * near - 1) * pow2(1074) < twice || (!negative && (2 * near - 1)
                * pow2(1074) == twice)
            &&& near < high ==> twice < (2 * near + 1) * pow2(1074) || (negative && twice == (2
                * near + 1) * pow2(1074))
        },
    }
}

/// A number is rounded down to a whole number within bounds around 0.
pub proof fn law_floor(number: Number, low: int, high: int)
    requires
        low <= 0 <= high,
    ensures
        is_floor(number, number.floor_within(low, high), low, high, 0),
{
    let u: int = pow2(1074) as int;
    lemma_pow2_pos(1074);
    if number is Finite {
        let v: int = number.signed();
        lemma_quotient_bounds(v, u);
        lemma_clamped(v / u, low, high, u);
    }
}

/// A number is rounded up to a whole number within bounds around 0.
pub proof fn law_ceiling(number: Number, low: int, high: int)
    requires
        low <= 0 <= high,
    ensures
        is_ceiling(number, number.ceil_within(low, high), low, high, 0),
{
    let u: int = pow2(1074) as int;
    lemma_pow2_pos(1074);
    if number is Finite {
        let v: int = number.signed();
        let up: int = -((-v) / u);
        lemma_quotient_bounds(-v, u);
        assert(((-v) / u) * u == -(up * u) && ((-v) / u + 1) * u == -((up - 1) * u))
            by (nonlinear_arith)
            requires
                up == -((-v) / u),
        ;
        lemma_clamped(up, low, high, u);
    }
}

/// A number is rounded to the nearest whole number within bounds around 0.
pub proof fn law_round(number: Number, low: int, high: int)
    requires
        low <= 0 <= high,
    ensures
        is_nearest(number, number.round_within(low, high), low, high),
{
    let u: int = pow2(1074) as int;
    lemma_pow2_pos(1074);
    match number {
        Number::Finite { negative, units } => {
            let q: int = (2 * units + u) / (2 * u);
            lemma_quotient_bounds(2 * units + u, 2 * u);
            let near: int = if negative {
                -q
            } else {
                q
            };
            assert(q * (2 * u) == (2 * q) * u && (q + 1) * (2 * u) == (2 * q + 2) * u)
                by (nonlinear_arith);
            assert((2 * q - 1) * u == (2 * q) * u - u && (2 * q + 1) * u == (2 * q) * u + u && (2
                * q + 2) * u == (2 * q) * u + 2 * u && (-(2 * q) - 1) * u == -((2 * q) * u) - u && (
            -(2 * q) + 1) * u == -((2 * q) * u) + u) by (nonlinear_arith);
            let kept: int = within(near, low, high);
            assert(2 * (-q) == -(2 * q));
            if near < low {
                assert((2 * low + 1) * u >= (2 * near + 3) * u) by (nonlinear_arith)
                    requires
                        low >= near + 1,
                        u > 0,
                ;
                assert((2 * near + 3) * u == (2 * near + 1) * u + 2 * u) by (nonlinear_arith);
            } else if near > high {
                assert((2 * high - 1) * u <= (2 * near - 3) * u) by (nonlinear_arith)
                    requires
                        high <= near - 1,
                        u > 0,
                ;
                assert((2 * near - 3) * u == (2 * near - 1) * u - 2 * u) by (nonlinear_arith);
            }
        },
        _ => {},
    }
}

proof fn lemma_quotient_bounds(v: int, u: int)
    requires
        u > 0,
    ensures
        (v / u) * u <= v < (v / u + 1) * u,
{
    vstd::arithmetic::div_mod::lemma_fundamental_div_mod(v, u);
    assert((v / u) * u == u * (v / u) && (v / u + 1) * u == u * (v / u) + u) by (nonlinear_arith);
}

/// A bound is no farther than what lies beyond it.
proof fn lemma_clamped(value: int, low: int, high: int, u: int)
    requires
        u > 0,
        low <= high,
    ensures
        value < low ==> (value + 1) * u <= low * u && value * u <= (low - 1) * u && value * u <= low
            * u,
        value > high ==> high * u <= (value - 1) * u && (high + 1) * u <= value * u && high * u
            <= value * u,
        low * u <= (low + 1) * u,
        (high - 1) * u <= high * u,
{
    assert(low * u <= (low + 1) * u && (high - 1) * u <= high * u) by (nonlinear_arith)
        requires
            u > 0,
    ;
    if value < low {
        assert((value + 1) * u <= low * u && value * u <= (low - 1) * u && value * u <= low * u)
            by (nonlinear_arith)
            requires
                value + 1 <= low,
                u > 0,
        ;
    }
    if value > high {
        assert(high * u <= (value - 1) * u && (high + 1) * u <= value * u && high * u <= value * u)
            by (nonlinear_arith)
            requires
                value - 1 >= high,
                u > 0,
        ;
    }
}

} // verus!
