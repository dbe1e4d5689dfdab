//! How many indices a nominal length can hold: the plain numeral range and
//! the overflow tiers stacked on top of it.
//!
//! Tier `t` of a length `L` stands for `symbols` blocks of `tier_unit` indices
//! each. The unit is the nominal range `radix^L` divided `t + 1` times by the
//! radix, so the tiers shrink until the unit reaches zero.

use vstd::prelude::*;
use vstd::arithmetic::power::*;
use vstd::arithmetic::power2::*;
use vstd::arithmetic::logarithm::*;
use vstd::arithmetic::div_mod::*;
use vstd::arithmetic::mul::*;

verus! {

/// The number of indices that one symbol of tier `tier` covers:
/// `radix^length` divided `tier + 1` times by `radix`, rounding down.
pub open spec fn tier_unit(radix: nat, length: nat, tier: nat) -> nat {
    (pow(radix as int, length) / pow(radix as int, tier + 1)) as nat
}

/// The last index that lies below tier `tier`. Tier 0 starts right after the
/// plain numerals, each later tier right after the one before it.
pub open spec fn tier_base(radix: nat, symbols: nat, length: nat, tier: nat) -> int
    decreases tier,
{
    if tier == 0 {
        pow(radix as int, length) - 1
    } else {
        tier_base(radix, symbols, length, (tier - 1) as nat) + symbols * tier_unit(
            radix,
            length,
            (tier - 1) as nat,
        )
    }
}

/// `value` belongs to overflow tier `tier`.
pub open spec fn in_tier(radix: nat, symbols: nat, length: nat, value: nat, tier: nat) -> bool {
    &&& tier_unit(radix, length, tier) > 0
    &&& tier_base(radix, symbols, length, tier) < value <= tier_base(
        radix,
        symbols,
        length,
        tier + 1,
    )
}

/// `value` has a code of nominal length `length`: it is a plain numeral of
/// that many digits or belongs to some overflow tier.
pub open spec fn representable(radix: nat, symbols: nat, length: nat, value: nat) -> bool {
    value < pow(radix as int, length) || exists|tier: nat|
        in_tier(radix, symbols, length, value, tier)
}

/// The largest index that has a code of nominal length `length`, for a radix
/// of at least 2: the top of the last tier whose unit is positive. Zero for
/// length zero.
pub open spec fn max_index(radix: nat, symbols: nat, length: nat) -> nat {
    if length == 0 {
        0
    } else {
        tier_base(radix, symbols, length, length) as nat
    }
}

/// Dividing the nominal range once more by the radix is the same as dividing
/// it by the next power of the radix.
pub proof fn lemma_range_division_step(radix: nat, length: nat, divisions: nat)
    requires
        radix >= 1,
    ensures
        pow(radix as int, divisions) > 0,
        pow(radix as int, length) / pow(radix as int, divisions) >= 0,
        pow(radix as int, length) / pow(radix as int, divisions + 1) == (pow(radix as int, length)
            / pow(radix as int, divisions)) / (radix as int),
{
    let r = radix as int;
    lemma_pow_positive(r, length);
    lemma_pow_positive(r, divisions);
    lemma_pow_adds(r, divisions, 1);
    lemma_pow1(r);
    lemma_div_denominator(pow(r, length), pow(r, divisions), r);
    lemma_div_pos_is_pos(pow(r, length), pow(r, divisions));
}

/// For a radix of at least 2 the unit of a tier below `length` is an exact
/// power of the radix, and every tier from `length` on is empty.
pub proof fn lemma_tier_unit_exact(radix: nat, length: nat, tier: nat)
    requires
        radix >= 2,
    ensures
        tier < length ==> tier_unit(radix, length, tier) == pow(
            radix as int,
            (length - 1 - tier) as nat,
        ),
        tier < length ==> tier_unit(radix, length, tier) >= 1,
        tier >= length ==> tier_unit(radix, length, tier) == 0,
{
    let r = radix as int;
    lemma_pow_positive(r, length);
    lemma_pow_positive(r, tier + 1);
    if tier < length {
        let rest = (length - 1 - tier) as nat;
        lemma_pow_positive(r, rest);
        lemma_pow_adds(r, rest, tier + 1);
        lemma_div_by_multiple(pow(r, rest), pow(r, tier + 1));
    } else {
        lemma_pow_strictly_increases(radix, length, tier + 1);
        lemma_basic_div(pow(r, length), pow(r, tier + 1));
    }
}

/// With radix 1 every tier has unit 1: the tiers never run out.
pub proof fn lemma_tier_unit_unary(length: nat, tier: nat)
    ensures
        tier_unit(1, length, tier) == 1,
{
    lemma1_pow(length);
    lemma1_pow(tier + 1);
}

/// Later tiers have smaller units.
pub proof fn lemma_tier_unit_decreasing(radix: nat, length: nat, lower: nat, upper: nat)
    requires
        radix >= 1,
        lower <= upper,
    ensures
        tier_unit(radix, length, upper) <= tier_unit(radix, length, lower),
{
    let r = radix as int;
    lemma_pow_positive(r, length);
    lemma_pow_positive(r, lower + 1);
    lemma_pow_positive(r, upper + 1);
    lemma_pow_increases(radix, lower + 1, upper + 1);
    lemma_div_is_ordered_by_denominator(pow(r, length), pow(r, lower + 1), pow(r, upper + 1));
    lemma_div_pos_is_pos(pow(r, length), pow(r, upper + 1));
}

/// The tier bases never descend, and none lies below the last plain numeral.
pub proof fn lemma_tier_base_increasing(
    radix: nat,
    symbols: nat,
    length: nat,
    lower: nat,
    upper: nat,
)
    requires
        radix >= 1,
        lower <= upper,
    ensures
        pow(radix as int, length) - 1 <= tier_base(radix, symbols, length, lower),
        tier_base(radix, symbols, length, lower) <= tier_base(radix, symbols, length, upper),
    decreases upper,
{
    if upper == 0 {
    } else {
        let before = (upper - 1) as nat;
        lemma_mul_nonnegative(symbols as int, tier_unit(radix, length, before) as int);
        if lower < upper {
            lemma_tier_base_increasing(radix, symbols, length, lower, before);
        } else {
            lemma_tier_base_increasing(radix, symbols, length, before, before);
        }
    }
}

/// Every tier starts at a multiple of its unit: the index right after its
/// base leaves nothing when divided by the unit. So what an index of the
/// tier leaves modulo the unit is its place within its block.
pub proof fn lemma_tier_start_aligned(radix: nat, symbols: nat, length: nat, tier: nat)
    requires
        radix >= 1,
        tier_unit(radix, length, tier) >= 1,
    ensures
        (tier_base(radix, symbols, length, tier) + 1) % (tier_unit(radix, length, tier) as int)
            == 0,
    decreases tier,
{
    let r = radix as int;
    let unit = tier_unit(radix, length, tier) as int;
    if radix == 1 {
        lemma_tier_unit_unary(length, tier);
    } else {
        lemma_tier_unit_exact(radix, length, tier);
        let rest = (length - 1 - tier) as nat;
        lemma_pow_adds(r, 1, rest);
        lemma_pow1(r);
        if tier == 0 {
            lemma_mod_multiples_basic(r, unit);
        } else {
            let before = (tier - 1) as nat;
            let wide = tier_unit(radix, length, before) as int;
            let start = tier_base(radix, symbols, length, before) + 1;
            lemma_tier_unit_exact(radix, length, before);
            lemma_tier_start_aligned(radix, symbols, length, before);
            lemma_fundamental_div_mod(start, wide);
            let q = start / wide;
            assert(start + symbols * wide == (q * r + symbols * r) * unit) by (nonlinear_arith)
                requires
                    start == wide * q,
                    wide == r * unit,
            ;
            lemma_mod_multiples_basic(q * r + symbols * r, unit);
        }
    }
}

/// No index belongs to two tiers.
pub proof fn lemma_tier_unique(
    radix: nat,
    symbols: nat,
    length: nat,
    value: nat,
    first: nat,
    second: nat,
)
    requires
        radix >= 1,
        in_tier(radix, symbols, length, value, first),
        in_tier(radix, symbols, length, value, second),
    ensures
        first == second,
{
    if first < second {
        lemma_tier_base_increasing(radix, symbols, length, first + 1, second);
    } else if second < first {
        lemma_tier_base_increasing(radix, symbols, length, second + 1, first);
    }
}

/// Every index between the plain numerals and the base of tier `bound` lies
/// in one of the tiers below `bound`.
proof fn lemma_tier_exists_below(radix: nat, symbols: nat, length: nat, value: nat, bound: nat)
    requires
        radix >= 2,
        bound <= length,
        pow(radix as int, length) <= value <= tier_base(radix, symbols, length, bound),
    ensures
        exists|tier: nat| tier < bound && in_tier(radix, symbols, length, value, tier),
    decreases bound,
{
    if bound == 0 {
    } else {
        let before = (bound - 1) as nat;
        if value > tier_base(radix, symbols, length, before) {
            lemma_tier_unit_exact(radix, length, before);
            assert(in_tier(radix, symbols, length, value, before));
        } else {
            lemma_tier_exists_below(radix, symbols, length, value, before);
            let tier = choose|tier: nat|
                tier < before && in_tier(radix, symbols, length, value, tier);
            assert(tier < bound && in_tier(radix, symbols, length, value, tier));
        }
    }
}

/// For a radix of at least 2 the indices that have a code of nominal length
/// `length` are exactly those up to `max_index`.
pub proof fn lemma_representable_up_to_max(radix: nat, symbols: nat, length: nat, value: nat)
    requires
        radix >= 2,
        length >= 1,
    ensures
        representable(radix, symbols, length, value) <==> value <= max_index(
            radix,
            symbols,
            length,
        ),
        pow(radix as int, length) - 1 <= max_index(radix, symbols, length),
{
    lemma_tier_base_increasing(radix, symbols, length, 0, length);
    lemma_pow_positive(radix as int, length);
    if representable(radix, symbols, length, value) {
        if value >= pow(radix as int, length) {
            let tier = choose|tier: nat| in_tier(radix, symbols, length, value, tier);
            lemma_tier_unit_exact(radix, length, tier);
            lemma_tier_base_increasing(radix, symbols, length, tier + 1, length);
        }
    }
    if value <= max_index(radix, symbols, length) && value >= pow(radix as int, length) {
        lemma_tier_exists_below(radix, symbols, length, value, length);
    }
}

/// One more digit of nominal length multiplies every tier base by the radix
/// and adds `radix - 1`.
proof fn lemma_tier_base_scales(radix: nat, symbols: nat, length: nat, tier: nat)
    requires
        radix >= 2,
        tier <= length,
    ensures
        tier_base(radix, symbols, length + 1, tier) == radix * tier_base(
            radix,
            symbols,
            length,
            tier,
        ) + radix - 1,
    decreases tier,
{
    let r = radix as int;
    if tier == 0 {
        lemma_pow_adds(r, 1, length);
        lemma_pow1(r);
        lemma_mul_is_distributive_sub(r, pow(r, length), 1);
    } else {
        let before = (tier - 1) as nat;
        lemma_tier_base_scales(radix, symbols, length, before);
        lemma_tier_unit_exact(radix, length, before);
        lemma_tier_unit_exact(radix, length + 1, before);
        let rest = (length - 1 - before) as nat;
        lemma_pow_adds(r, 1, rest);
        lemma_pow1(r);
        let unit = tier_unit(radix, length, before) as int;
        let wide = tier_unit(radix, length + 1, before) as int;
        let base = tier_base(radix, symbols, length, before);
        assert(wide == r * unit);
        assert(symbols * wide == r * (symbols * unit)) by (nonlinear_arith)
            requires
                wide == r * unit,
        ;
        assert(r * (base + symbols * unit) == r * base + r * (symbols * unit))
            by (nonlinear_arith);
    }
}

/// The capacity after one more digit of nominal length, for a radix of at
/// least 2.
pub proof fn lemma_max_index_next(radix: nat, symbols: nat, length: nat)
    requires
        radix >= 2,
        length >= 1,
    ensures
        max_index(radix, symbols, length + 1) == radix * max_index(radix, symbols, length) + radix
            - 1 + symbols,
{
    lemma_tier_base_scales(radix, symbols, length, length);
    lemma_tier_unit_exact(radix, length + 1, length);
    lemma_pow0(radix as int);
    lemma_tier_base_increasing(radix, symbols, length, 0, length);
    lemma_tier_base_increasing(radix, symbols, length + 1, 0, length + 1);
    lemma_pow_positive(radix as int, length);
    lemma_pow_positive(radix as int, length + 1);
    assert(symbols * 1 == symbols) by (nonlinear_arith);
}

/// The capacity is zero at length zero and grows strictly with the nominal
/// length.
pub proof fn lemma_max_index_monotonic(radix: nat, symbols: nat, shorter: nat, longer: nat)
    requires
        radix >= 2,
        shorter <= longer,
    ensures
        max_index(radix, symbols, 0) == 0,
        max_index(radix, symbols, shorter) <= max_index(radix, symbols, longer),
        shorter < longer ==> max_index(radix, symbols, shorter) < max_index(
            radix,
            symbols,
            longer,
        ),
    decreases longer,
{
    if shorter < longer {
        let before = (longer - 1) as nat;
        if before == 0 {
            lemma_representable_up_to_max(radix, symbols, 1, 0);
            lemma_pow1(radix as int);
        } else {
            lemma_max_index_monotonic(radix, symbols, shorter, before);
            lemma_max_index_next(radix, symbols, before);
            let m = max_index(radix, symbols, before) as int;
            assert(radix * m >= m) by (nonlinear_arith)
                requires
                    radix >= 2,
                    m >= 0,
            ;
        }
    }
}

/// The capacity in closed form: the tiers add up to a geometric series, so
/// that `(radix - 1) * max_index` is `(radix - 1 + symbols) * (radix^length - 1)`.
pub proof fn lemma_max_index_closed_form(radix: nat, symbols: nat, length: nat)
    requires
        radix >= 2,
    ensures
        (radix - 1) * max_index(radix, symbols, length) == (radix - 1 + symbols) * (pow(
            radix as int,
            length,
        ) - 1),
    decreases length,
{
    let r = radix as int;
    let a = symbols as int;
    let max = max_index(radix, symbols, length) as int;
    let range = pow(r, length);
    if length == 0 {
        lemma_pow0(r);
        assert((r - 1) * 0 == (r - 1 + a) * 0) by (nonlinear_arith);
    } else if length == 1 {
        lemma_pow1(r);
        lemma_pow0(r);
        lemma_tier_unit_exact(radix, 1, 0);
        reveal_with_fuel(tier_base, 2);
        assert(a * 1 == a) by (nonlinear_arith);
        assert(max == r - 1 + a);
        assert((r - 1) * (r - 1 + a) == (r - 1 + a) * (r - 1)) by (nonlinear_arith);
    } else {
        let before = (length - 1) as nat;
        lemma_max_index_closed_form(radix, symbols, before);
        lemma_max_index_next(radix, symbols, before);
        lemma_pow_adds(r, 1, before);
        lemma_pow1(r);
        let m = max_index(radix, symbols, before) as int;
        let p = pow(r, before);
        assert(max == r * m + r - 1 + a);
        assert(range == r * p);
        assert((r - 1) * (r * m + r - 1 + a) == (r - 1 + a) * (r * p - 1)) by (nonlinear_arith)
            requires
                (r - 1) * m == (r - 1 + a) * (p - 1),
        ;
    }
}

/// `base^exponent`, or `None` where that does not fit in a `usize`.
pub fn checked_pow(base: usize, exponent: u32) -> (power: Option<usize>)
    ensures
        match power {
            Some(p) => p == pow(base as int, exponent as nat),
            None => pow(base as int, exponent as nat) > usize::MAX,
        },
{
    if base <= 1 {
        proof {
            lemma_pow0(base as int);
            if exponent > 0 {
                lemma0_pow(exponent as nat);
            }
            lemma1_pow(exponent as nat);
        }
        return Some(
            if exponent == 0 || base == 1 {
                1
            } else {
                0
            },
        );
    }
    let mut power: usize = 1;
    let mut done: u32 = 0;
    proof {
        lemma_pow0(base as int);
    }
    while done < exponent
        invariant
            base >= 2,
            done <= exponent,
            power == pow(base as int, done as nat),
        decreases exponent - done,
    {
        proof {
            lemma_pow_adds(base as int, 1, done as nat);
            lemma_pow1(base as int);
        }
        match power.checked_mul(base) {
            None => {
                proof {
                    lemma_pow_increases(base as nat, (done + 1) as nat, exponent as nat);
                    assert(power * base == base * power) by (nonlinear_arith);
                }
                return None;
            },
            Some(next) => {
                proof {
                    assert(power * base == base * power) by (nonlinear_arith);
                }
                power = next;
            },
        }
        done += 1;
    }
    Some(power)
}

/// The whole-number logarithm of `value` to base `base`: how often `value`
/// can be divided by `base` before it drops below it.
pub fn floor_log(value: usize, base: usize) -> (exponent: u32)
    requires
        base >= 2,
    ensures
        exponent == log(base as int, value as int),
{
    let mut rest = value;
    let mut exponent: u32 = 0;
    proof {
        lemma2_to64();
    }
    while rest >= base
        invariant
            base >= 2,
            exponent < 64,
            rest * pow2(exponent as nat) <= value,
            log(base as int, value as int) == exponent + log(base as int, rest as int),
        decreases rest,
    {
        proof {
            lemma_log_s(base as int, rest as int);
            let next = rest as int / base as int;
            let scale = pow2(exponent as nat) as int;
            lemma_pow2_unfold((exponent + 1) as nat);
            assert(next >= 1 && next < rest && 2 * next * scale <= rest * scale)
                by (nonlinear_arith)
                requires
                    next == rest as int / base as int,
                    rest >= base,
                    base >= 2,
                    scale >= 0,
            ;
            assert(next * (2 * scale) == 2 * next * scale) by (nonlinear_arith);
            assert(pow2((exponent + 1) as nat) <= value) by (nonlinear_arith)
                requires
                    next * pow2((exponent + 1) as nat) <= value,
                    next >= 1,
            ;
            lemma2_to64();
        }
        rest = rest / base;
        exponent += 1;
    }
    proof {
        lemma_log0(base as int, rest as int);
    }
    exponent
}

} // verus!
