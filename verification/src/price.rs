//! Decimal prices and their number of ticks.
use vstd::arithmetic::div_mod::lemma_div_multiples_vanish;
use vstd::arithmetic::div_mod::lemma_fundamental_div_mod;
use vstd::arithmetic::div_mod::lemma_mod_multiples_basic;
use vstd::prelude::*;

verus! {

/// Largest magnitude of a decimal's mantissa: 96 bits.
pub const MAX_MANTISSA: i128 = 79228162514264337593543950335i128;

/// Largest number of decimal places of a decimal.
pub const MAX_SCALE: u32 = 28u32;

/// Ten to the power `n`.
pub open spec fn pow10(n: nat) -> nat
    decreases n,
{
    if n == 0 {
        1
    } else {
        10 * pow10((n - 1) as nat)
    }
}

/// A price as a decimal number, `mantissa / 10^scale`, given by its parts.
#[derive(Debug, Clone, Copy, PartialEq, Eq)]
pub struct DecimalParts {
    pub mantissa: i128,
    pub scale: u32,
}

impl DecimalParts {
    /// The parts are those of a 96-bit decimal of at most 28 places.
    pub open spec fn is_decimal(self) -> bool {
        self.scale <= MAX_SCALE && -MAX_MANTISSA <= self.mantissa <= MAX_MANTISSA
    }

    /// The number is an exact multiple of the tick, 0.01.
    pub open spec fn on_tick(self) -> bool {
        self.is_decimal() && (self.mantissa * 100) % (pow10(self.scale as nat) as int) == 0
    }

    /// The number in ticks of 0.01, where it is a multiple of the tick.
    pub open spec fn ticks(self) -> int {
        (self.mantissa * 100) / (pow10(self.scale as nat) as int)
    }

    /// The number in ticks, if it is a decimal and a multiple of the tick.
    pub fn to_ticks(&self) -> (ticks: Option<i128>)
        ensures
            ticks == if self.on_tick() {
                Some(self.ticks() as i128)
            } else {
                None::<i128>
            },
            self.on_tick() ==> -100 * MAX_MANTISSA <= self.ticks() <= 100 * MAX_MANTISSA,
    {
        if self.scale > MAX_SCALE || self.mantissa > MAX_MANTISSA || self.mantissa < -MAX_MANTISSA {
            return None;
        }
        let m = self.mantissa;
        proof {
            lemma_pow10_values();
        }
        if self.scale == 0 {
            proof {
                lemma_exact_quotient(m * 100, 1, m * 100);
            }
            Some(m * 100)
        } else if self.scale == 1 {
            proof {
                lemma_exact_quotient(m * 100, 10, m * 10);
            }
            Some(m * 10)
        } else {
            let unit: i128 = power_of_ten(self.scale - 2);
            proof {
                assert(pow10(self.scale as nat) == 100 * pow10((self.scale - 2) as nat)) by {
                    reveal_with_fuel(pow10, 3);
                }
            }
            let quotient: i128 = m / unit;
            let remainder: i128 = m % unit;
            proof {
                lemma_exec_division(m as int, unit as int, quotient as int, remainder as int);
                if remainder == 0 {
                    assert(m * 100 == quotient * (100 * unit)) by (nonlinear_arith)
                        requires
                            m == quotient * unit,
                    ;
                    lemma_exact_quotient(m * 100, 100 * unit, quotient as int);
                    assert(-MAX_MANTISSA <= quotient <= MAX_MANTISSA) by (nonlinear_arith)
                        requires
                            m == quotient * unit,
                            unit >= 1,
                            -MAX_MANTISSA <= m <= MAX_MANTISSA,
                    ;
                } else {
                    lemma_not_multiple(m as int, unit as int, quotient as int, remainder as int);
                }
            }
            if remainder == 0 {
                Some(quotient)
            } else {
                None
            }
        }
    }
}

/// A price on the tick is its number of ticks times 0.01, exactly.
pub proof fn lemma_ticks_exact(price: DecimalParts)
    requires
        price.on_tick(),
    ensures
        price.ticks() * pow10(price.scale as nat) == price.mantissa * 100,
{
    let d = pow10(price.scale as nat) as int;
    lemma_pow10_monotonic(0, price.scale as nat);
    lemma_fundamental_div_mod(price.mantissa * 100, d);
    assert(d * price.ticks() == price.ticks() * d) by (nonlinear_arith);
}

/// A number of ticks as it is written: whether it is negative, and its
/// magnitude in whole units and hundredths.
pub fn split_ticks(ticks: i128) -> (parts: (bool, u128, u8))
    ensures
        parts.0 == (ticks < 0),
        parts.2 < 100,
        parts.1 * 100 + parts.2 == if ticks < 0 {
            -ticks
        } else {
            ticks as int
        },
{
    let magnitude: u128 = if ticks >= 0 {
        ticks as u128
    } else {
        (-(ticks + 1)) as u128 + 1
    };
    (ticks < 0, magnitude / 100, (magnitude % 100) as u8)
}

/// Ten to the power `n`, for `n` up to 26.
fn power_of_ten(n: u32) -> (p: i128)
    requires
        n <= 26,
    ensures
        p == pow10(n as nat),
        1 <= p <= 100000000000000000000000000,
{
    let mut p: i128 = 1;
    let mut i: u32 = 0;
    proof {
        lemma_pow10_values();
    }
    while i < n
        invariant
            i <= n <= 26,
            p == pow10(i as nat),
            1 <= p,
            pow10(26) == 100000000000000000000000000,
        decreases n - i,
    {
        proof {
            lemma_pow10_monotonic((i + 1) as nat, 26);
        }
        p = p * 10;
        i += 1;
    }
    proof {
        lemma_pow10_monotonic(n as nat, 26);
    }
    p
}

pub proof fn lemma_pow10_values()
    ensures
        pow10(0) == 1,
        pow10(1) == 10,
        pow10(2) == 100,
        pow10(26) == 100000000000000000000000000,
{
    reveal_with_fuel(pow10, 30);
}

pub proof fn lemma_pow10_monotonic(a: nat, b: nat)
    requires
        a <= b,
    ensures
        1 <= pow10(a) <= pow10(b),
    decreases b,
{
    if a < b {
        lemma_pow10_monotonic(a, (b - 1) as nat);
    } else if a > 0 {
        lemma_pow10_monotonic((a - 1) as nat, (b - 1) as nat);
    }
}

/// Where `x == q * d` with `d` positive, `d` divides `x` and the quotient
/// is `q`.
proof fn lemma_exact_quotient(x: int, d: int, q: int)
    requires
        d > 0,
        x == q * d,
    ensures
        x % d == 0,
        x / d == q,
{
    lemma_mod_multiples_basic(q, d);
    lemma_div_multiples_vanish(q, d);
    assert(q * d == d * q) by (nonlinear_arith);
}

/// What truncating division of machine integers by a positive divisor gives.
proof fn lemma_exec_division(m: int, d: int, q: int, r: int)
    requires
        d > 0,
        q == if m >= 0 {
            m / d
        } else {
            -((-m) / d)
        },
        r == if m >= 0 {
            m % d
        } else {
            -((-m) % d)
        },
    ensures
        m == q * d + r,
        -d < r < d,
{
    if m >= 0 {
        lemma_fundamental_div_mod(m, d);
        assert(d * (m / d) == (m / d) * d) by (nonlinear_arith);
    } else {
        lemma_fundamental_div_mod(-m, d);
        assert(-(d * ((-m) / d)) == (-((-m) / d)) * d) by (nonlinear_arith);
    }
}

/// A number that leaves a remainder on division by `unit` is, in hundredths,
/// no multiple of a hundred units.
proof fn lemma_not_multiple(m: int, unit: int, q: int, r: int)
    requires
        unit > 0,
        m == q * unit + r,
        -unit < r < unit,
        r != 0,
    ensures
        (m * 100) % (100 * unit) != 0,
{
    if (m * 100) % (100 * unit) == 0 {
        let k = (m * 100) / (100 * unit);
        lemma_fundamental_div_mod(m * 100, 100 * unit);
        assert(m == k * unit) by (nonlinear_arith)
            requires
                m * 100 == (100 * unit) * k,
        ;
        assert(r == (k - q) * unit) by (nonlinear_arith)
            requires
                m == k * unit,
                m == q * unit + r,
        ;
        assert(false) by (nonlinear_arith)
            requires
                r == (k - q) * unit,
                -unit < r < unit,
                r != 0,
                unit > 0,
        ;
    }
}

} // verus!
