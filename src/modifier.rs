use vstd::prelude::*;
use vstd::arithmetic::power::pow;
use crate::date::{valid_date, Date};
use crate::recurrence::ScheduleEnum;
use rust_decimal::Decimal;

verus! {

/// A compounding adjustment with a recurrence of its own. Its amount and percentage count
/// ten-thousandths, as every amount of the ledger does: `1_0000` is one unit, `1000` is 0.1.
#[derive(Debug)]
pub struct Modifier {
    pub id: u128,
    pub name: String,
    pub period: ScheduleEnum,
    pub frequency: i64,
    pub start_date: Date,
    pub end_date: Option<Date>,
    /// Fixed amount added on each cycle, in ten-thousandths.
    pub amount: i128,
    /// Fraction of the running amount added on each cycle, in ten-thousandths.
    pub percentage: i128,
}

pub open spec fn wf_modifier(m: Modifier) -> bool {
    &&& valid_date(m.start_date)
    &&& m.frequency >= 1
}

/// `num / den` rounded to the nearest integer, ties to the even neighbour.
pub open spec fn round_half_even(num: int, den: int) -> int {
    let q = num / den;
    let r = num % den;
    if 2 * r > den {
        q + 1
    } else if 2 * r < den {
        q
    } else if q % 2 == 0 {
        q
    } else {
        q + 1
    }
}

pub open spec fn fits(x: int) -> bool {
    i128::MIN <= x <= i128::MAX
}

/// The largest mantissa of a decimal: 96 bits.
pub const MAX_MANTISSA: i128 = 79228162514264337593543950335;

/// The largest number of decimal places of a decimal.
pub const MAX_DECIMAL_SCALE: u32 = 28;

/// A decimal given by its mantissa and its number of decimal places: `m / 10^s`.
pub open spec fn is_decimal(x: (i128, u32)) -> bool {
    -MAX_MANTISSA <= x.0 <= MAX_MANTISSA && x.1 <= MAX_DECIMAL_SCALE
}

/// The sum of two decimals as the decimal crate computes it; `None` on overflow.
pub uninterp spec fn decimal_sum(a: (i128, u32), b: (i128, u32)) -> Option<(i128, u32)>;

/// The product of two decimals as the decimal crate computes it; `None` on overflow.
pub uninterp spec fn decimal_product(a: (i128, u32), b: (i128, u32)) -> Option<(i128, u32)>;

/// Relies on rust_decimal's `Decimal::checked_add`: the sum, `None` when it overflows.
#[verifier::external_body]
fn dec_add(a: (i128, u32), b: (i128, u32)) -> (r: Option<(i128, u32)>)
    requires
        is_decimal(a),
        is_decimal(b),
    ensures
        r == decimal_sum(a, b),
        r matches Some(x) ==> is_decimal(x),
{
    let x = Decimal::from_i128_with_scale(a.0, a.1);
    let y = Decimal::from_i128_with_scale(b.0, b.1);
    x.checked_add(y).map(|d| (d.mantissa(), d.scale()))
}

/// Relies on rust_decimal's `Decimal::checked_mul`: the product, `None` when it overflows.
#[verifier::external_body]
fn dec_mul(a: (i128, u32), b: (i128, u32)) -> (r: Option<(i128, u32)>)
    requires
        is_decimal(a),
        is_decimal(b),
    ensures
        r == decimal_product(a, b),
        r matches Some(x) ==> is_decimal(x),
{
    let x = Decimal::from_i128_with_scale(a.0, a.1);
    let y = Decimal::from_i128_with_scale(b.0, b.1);
    x.checked_mul(y).map(|d| (d.mantissa(), d.scale()))
}

/// `m / 10^k` rounded half to even on its magnitude, the sign kept.
pub open spec fn round_magnitude(m: int, k: nat) -> int {
    let q = round_half_even(if m < 0 { -m } else { m }, pow(10, k));
    if m < 0 { -q } else { q }
}

/// Relies on rust_decimal's `Decimal::round_dp_with_strategy` with four places and
/// `MidpointNearestEven`: a decimal of at most four places is kept; one of more places is
/// rounded half to even on its magnitude to exactly four.
#[verifier::external_body]
fn dec_round4(a: (i128, u32)) -> (r: (i128, u32))
    requires
        is_decimal(a),
    ensures
        a.1 <= 4 ==> r == a,
        a.1 > 4 ==> r.1 == 4 && r.0 as int == round_magnitude(a.0 as int, (a.1 - 4) as nat),
{
    let x = Decimal::from_i128_with_scale(a.0, a.1);
    let d = x.round_dp_with_strategy(4, rust_decimal::RoundingStrategy::MidpointNearestEven);
    (d.mantissa(), d.scale())
}

/// The amount after `n` cycles, each adding the fixed amount `f` and `p` times the running
/// amount, in the decimal crate's arithmetic.
pub open spec fn compound_dec(a: (i128, u32), f: (i128, u32), p: (i128, u32), n: nat) -> Option<
    (i128, u32),
>
    decreases n,
{
    if n == 0 {
        Some(a)
    } else {
        match compound_dec(a, f, p, (n - 1) as nat) {
            None => None,
            Some(x) => match decimal_sum(x, f) {
                None => None,
                Some(y) => match decimal_product(p, x) {
                    None => None,
                    Some(z) => decimal_sum(y, z),
                },
            },
        }
    }
}

/// A decimal, rounded to four places, in ten-thousandths.
pub open spec fn units_of(x: (i128, u32)) -> int {
    if x.1 <= 4 {
        x.0 * pow(10, (4 - x.1) as nat)
    } else {
        round_magnitude(x.0 as int, (x.1 - 4) as nat)
    }
}

pub open spec fn is_units(v: int) -> bool {
    -MAX_MANTISSA <= v <= MAX_MANTISSA
}

/// The amount `a` after `n` cycles of fixed amount `f` and percentage `p`, all in
/// ten-thousandths, rounded once, at the end, to ten-thousandths; `None` when a value is too
/// large for a decimal.
pub open spec fn compound_units(a: int, f: int, p: int, n: nat) -> Option<int> {
    if is_units(a) && is_units(f) && is_units(p) {
        match compound_dec((a as i128, 4), (f as i128, 4), (p as i128, 4), n) {
            Some(x) => Some(units_of(x)),
            None => None,
        }
    } else {
        None
    }
}

proof fn lemma_round_magnitude_bound(m: int, k: nat)
    requires
        k >= 1,
    ensures
        -(if m < 0 { -m } else { m }) <= round_magnitude(m, k) <= (if m < 0 { -m } else { m }),
{
    let am = if m < 0 { -m } else { m };
    let d = pow(10, k);
    vstd::arithmetic::power::lemma_pow_increases(10, 1, k);
    vstd::arithmetic::power::lemma_pow1(10);
    vstd::arithmetic::div_mod::lemma_fundamental_div_mod(am, d);
    let q = am / d;
    let r = am % d;
    assert(q >= 0 && d * q >= 10 * q) by (nonlinear_arith)
        requires
            am == d * q + r,
            0 <= r < d,
            am >= 0,
            d >= 10,
    ;
}

/// A decimal in ten-thousandths after rounding to four places.
fn to_units(x: (i128, u32)) -> (r: i128)
    requires
        is_decimal(x),
    ensures
        r as int == units_of(x),
{
    let y = dec_round4(x);
    proof {
        if x.1 > 4 {
            lemma_round_magnitude_bound(x.0 as int, (x.1 - 4) as nat);
        }
        reveal_with_fuel(pow, 5);
    }
    let factor: i128 = if y.1 == 0 {
        10000
    } else if y.1 == 1 {
        1000
    } else if y.1 == 2 {
        100
    } else if y.1 == 3 {
        10
    } else {
        1
    };
    assert(factor as int == pow(10, (4 - y.1) as nat));
    assert(-MAX_MANTISSA * 10000 <= y.0 * factor <= MAX_MANTISSA * 10000) by (nonlinear_arith)
        requires
            -MAX_MANTISSA <= y.0 <= MAX_MANTISSA,
            1 <= factor <= 10000,
    ;
    y.0 * factor
}

impl Modifier {
    /// The amount after `cycle_count` cycles of this modifier: each adds the fixed amount and the
    /// percentage of the running amount, in decimal arithmetic; the result is rounded to
    /// ten-thousandths once, at the end. `None` when a value is too large for a decimal.
    pub fn apply(&self, amount: i128, cycle_count: u64) -> (r: Option<i128>)
        ensures
            r matches Some(v) ==> compound_units(
                amount as int,
                self.amount as int,
                self.percentage as int,
                cycle_count as nat,
            ) == Some(v as int),
            r is None ==> compound_units(
                amount as int,
                self.amount as int,
                self.percentage as int,
                cycle_count as nat,
            ) is None,
    {
        compound(amount, self.amount, self.percentage, cycle_count)
    }
}

/// `amount` after `n` cycles of fixed amount `f` and percentage `p`, rounded at the end.
pub fn compound(amount: i128, f: i128, p: i128, n: u64) -> (r: Option<i128>)
    ensures
        r matches Some(v) ==> compound_units(amount as int, f as int, p as int, n as nat) == Some(
            v as int,
        ),
        r is None ==> compound_units(amount as int, f as int, p as int, n as nat) is None,
{
    if amount < -MAX_MANTISSA || amount > MAX_MANTISSA || f < -MAX_MANTISSA || f > MAX_MANTISSA
        || p < -MAX_MANTISSA || p > MAX_MANTISSA {
        return None;
    }
    let a = (amount, 4u32);
    let fd = (f, 4u32);
    let pd = (p, 4u32);
    let mut x = a;
    let mut k: u64 = 0;
    while k < n
        invariant
            0 <= k <= n,
            a == (amount, 4u32),
            fd == (f, 4u32),
            pd == (p, 4u32),
            is_units(amount as int) && is_units(f as int) && is_units(p as int),
            is_decimal(x),
            is_decimal(fd),
            is_decimal(pd),
            compound_dec(a, fd, pd, k as nat) == Some(x),
        decreases n - k,
    {
        let y = match dec_add(x, fd) {
            None => {
                proof {
                    lemma_compound_stuck(a, fd, pd, k as nat + 1, n as nat);
                }
                return None;
            },
            Some(y) => y,
        };
        let z = match dec_mul(pd, x) {
            None => {
                proof {
                    assert(decimal_sum(x, fd) == Some(y));
                    assert(compound_dec(a, fd, pd, k as nat + 1) is None);
                    lemma_compound_stuck(a, fd, pd, k as nat + 1, n as nat);
                }
                return None;
            },
            Some(z) => z,
        };
        match dec_add(y, z) {
            None => {
                proof {
                    lemma_compound_stuck(a, fd, pd, k as nat + 1, n as nat);
                }
                return None;
            },
            Some(w) => {
                x = w;
            },
        }
        k = k + 1;
    }
    Some(to_units(x))
}

/// Once a cycle overflows, every later count overflows too.
proof fn lemma_compound_stuck(a: (i128, u32), f: (i128, u32), p: (i128, u32), k: nat, n: nat)
    requires
        compound_dec(a, f, p, k) is None,
        k <= n,
    ensures
        compound_dec(a, f, p, n) is None,
    decreases n - k,
{
    if k < n {
        lemma_compound_stuck(a, f, p, k + 1, n);
    }
}

} // verus!
