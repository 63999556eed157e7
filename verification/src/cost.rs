//! The cost model: the level-to-experience curve, the work-penalty curve,
//! and their exact linear-search inverses.

use vstd::prelude::*;
use vstd::arithmetic::power2::{pow2, lemma_pow2_strictly_increases, lemma2_to64};
use vstd::bits::lemma_u32_shl_is_mul;

verus! {

/// Largest cost value: every cost is clamped into a 32-bit word.
pub const COST_MAX: u32 = 4_294_967_295;

/// Smallest level whose exact experience value no longer fits in 32 bits.
pub const LEVEL_CEILING: u32 = 30_913;

/// The exact (unclamped) experience value of a level: a piecewise quadratic
/// with breakpoints at levels 16 and 32.
pub open spec fn xp_exact(level: int) -> int {
    if level < 16 {
        level * level + 6 * level
    } else if level < 32 {
        (5 * level * level + 720 - 81 * level) / 2
    } else {
        (9 * level * level + 4440 - 325 * level) / 2
    }
}

/// The experience value of a level as computed in a 32-bit word: the exact
/// value, clamped at the largest representable cost.
pub open spec fn xp_sat(level: int) -> int {
    if xp_exact(level) > COST_MAX { COST_MAX as int } else { xp_exact(level) }
}

/// The work penalty of a piece that has been merged `work_count` times.
pub open spec fn spec_penalty(work_count: nat) -> int {
    pow2(work_count) - 1
}

/// `level` is the result of converting `xp` back into the level unit:
/// the least level whose experience value reaches `xp`.
pub open spec fn is_level_of(xp: int, level: int) -> bool {
    &&& level >= 0
    &&& xp_sat(level) >= xp
    &&& (level == 0 || xp_sat(level - 1) < xp)
}

/// `work_count` is the result of converting `penalty` back into a merge
/// count: the least count whose penalty reaches `penalty`.
pub open spec fn is_work_count_of(penalty: int, work_count: int) -> bool {
    &&& work_count >= 0
    &&& spec_penalty(work_count as nat) >= penalty
    &&& (work_count == 0 || spec_penalty((work_count - 1) as nat) < penalty)
}

/// The numerators of both quadratic regimes above level 16 are always even,
/// so the divisions by two in `xp_exact` are exact.
proof fn lemma_xp_numerator_even(level: int)
    requires
        level >= 0,
    ensures
        (5 * level * level + 720 - 81 * level) % 2 == 0,
        (9 * level * level + 4440 - 325 * level) % 2 == 0,
{
    let l = level;
    if l % 2 == 0 {
        let k = l / 2;
        assert(l == 2 * k);
        assert(5 * (2 * k) * (2 * k) + 720 - 81 * (2 * k) == 2 * (10 * k * k + 360 - 81 * k))
            by (nonlinear_arith);
        assert(9 * (2 * k) * (2 * k) + 4440 - 325 * (2 * k) == 2 * (18 * k * k + 2220 - 325 * k))
            by (nonlinear_arith);
    } else {
        let k = l / 2;
        assert(l == 2 * k + 1);
        assert(5 * (2 * k + 1) * (2 * k + 1) + 720 - 81 * (2 * k + 1) == 2 * (10 * k * k + 10 * k
            + 322 - 81 * k)) by (nonlinear_arith);
        assert(9 * (2 * k + 1) * (2 * k + 1) + 4440 - 325 * (2 * k + 1) == 2 * (18 * k * k + 18 * k
            + 2062 - 325 * k)) by (nonlinear_arith);
    }
}

/// The exact experience curve increases strictly from each level to the next.
proof fn lemma_xp_exact_step(level: int)
    requires
        level >= 0,
    ensures
        xp_exact(level) < xp_exact(level + 1),
{
    let l = level;
    if l < 15 {
        assert((l + 1) * (l + 1) + 6 * (l + 1) == l * l + 6 * l + 2 * l + 7) by (nonlinear_arith);
    } else if l == 15 {
        assert(xp_exact(15) == 315);
        assert(xp_exact(16) == (5 * 16 * 16 + 720 - 81 * 16) / 2);
    } else if l < 31 {
        assert(5 * (l + 1) * (l + 1) + 720 - 81 * (l + 1) == (5 * l * l + 720 - 81 * l) + 10 * l
            - 76) by (nonlinear_arith);
        lemma_xp_numerator_even(l);
        lemma_xp_numerator_even(l + 1);
        let a = 5 * l * l + 720 - 81 * l;
        let b = 5 * (l + 1) * (l + 1) + 720 - 81 * (l + 1);
        assert(a + 2 <= b);
        assert(a / 2 < b / 2);
    } else if l == 31 {
        assert(xp_exact(31) == (5 * 31 * 31 + 720 - 81 * 31) / 2);
        assert(xp_exact(32) == (9 * 32 * 32 + 4440 - 325 * 32) / 2);
    } else {
        assert(9 * (l + 1) * (l + 1) + 4440 - 325 * (l + 1) == (9 * l * l + 4440 - 325 * l) + 18
            * l - 316) by (nonlinear_arith);
        lemma_xp_numerator_even(l);
        lemma_xp_numerator_even(l + 1);
        let a = 9 * l * l + 4440 - 325 * l;
        let b = 9 * (l + 1) * (l + 1) + 4440 - 325 * (l + 1);
        assert(a + 2 <= b);
        assert(a / 2 < b / 2);
    }
}

/// The exact experience curve is strictly monotonic over the levels.
pub proof fn lemma_xp_exact_mono(a: int, b: int)
    requires
        0 <= a < b,
    ensures
        xp_exact(a) < xp_exact(b),
    decreases b - a,
{
    lemma_xp_exact_step(a);
    if a + 1 < b {
        lemma_xp_exact_mono(a + 1, b);
    }
}

/// The exact experience value is never negative.
pub proof fn lemma_xp_exact_nonneg(level: int)
    requires
        level >= 0,
    ensures
        xp_exact(level) >= 0,
{
    if level > 0 {
        lemma_xp_exact_mono(0, level);
    }
}

/// The clamped experience curve never decreases.
pub proof fn lemma_xp_sat_mono(a: int, b: int)
    requires
        0 <= a <= b,
    ensures
        xp_sat(a) <= xp_sat(b),
{
    if a < b {
        lemma_xp_exact_mono(a, b);
    }
}

/// Exact experience values stay within 32 bits below the level ceiling and
/// exceed it from the ceiling on.
pub proof fn lemma_level_ceiling(level: int)
    requires
        level >= 0,
    ensures
        level < LEVEL_CEILING ==> xp_exact(level) <= COST_MAX,
        level >= LEVEL_CEILING ==> xp_exact(level) > COST_MAX,
{
    assert(xp_exact(30_912) == (9 * 30_912 * 30_912 + 4440 - 325 * 30_912) / 2);
    assert(9 * 30_912 * 30_912 == 8_599_965_696);
    assert(xp_exact(30_913) == (9 * 30_913 * 30_913 + 4440 - 325 * 30_913) / 2);
    assert(9 * 30_913 * 30_913 == 8_600_522_121);
    if level < LEVEL_CEILING {
        if level < 30_912 {
            lemma_xp_exact_mono(level, 30_912);
        }
    } else {
        if level > 30_913 {
            lemma_xp_exact_mono(30_913, level);
        }
    }
}

/// Experience value of a level, clamped into a 32-bit word.
pub fn calc_xp(level: u32) -> (r: u32)
    ensures
        r == xp_sat(level as int),
{
    proof {
        lemma_xp_exact_nonneg(level as int);
        lemma_level_ceiling(level as int);
    }
    if level < 16 {
        level * level + 6 * level
    } else if level < 32 {
        let l = level as u64;
        proof {
            lemma_xp_numerator_even(level as int);
        }
        ((5 * l * l + 720 - 81 * l) / 2) as u32
    } else {
        let l = level as u128;
        proof {
            lemma_xp_numerator_even(level as int);
            assert(9 * (l as int) * (l as int) + 4440 <= 0xFFFF_FFFF_FFFF_FFFF_FFFF) by (nonlinear_arith)
                requires
                    l <= 0xFFFF_FFFFu128,
            ;
            assert(9 * (l as int) * (l as int) + 4440 >= 325 * (l as int)) by (nonlinear_arith)
                requires
                    l >= 32,
            ;
        }
        let wide = (9 * l * l + 4440 - 325 * l) / 2;
        if wide > COST_MAX as u128 {
            COST_MAX
        } else {
            wide as u32
        }
    }
}

/// Level whose experience value reaches `xp`, found by the same linear
/// search the curve's users rely on for an exact round trip.
pub fn calc_level(xp: u32) -> (r: u32)
    ensures
        is_level_of(xp as int, r as int),
        r == spec_level(xp as int),
{
    let mut test_xp: u32 = 0;
    let mut level: u32 = 0;
    while test_xp < xp
        invariant
            test_xp == xp_sat(level as int),
            level == 0 || xp_sat(level as int - 1) < xp,
            level <= LEVEL_CEILING,
        decreases LEVEL_CEILING - level,
    {
        proof {
            lemma_level_ceiling(level as int);
            if level >= LEVEL_CEILING {
                assert(test_xp == COST_MAX);
            }
        }
        level = level + 1;
        test_xp = calc_xp(level);
    }
    proof {
        assert(is_level_of(xp as int, level as int));
        assert(is_level_of(xp as int, spec_level(xp as int)));
        lemma_is_level_of_unique(xp as int, spec_level(xp as int), level as int);
    }
    level
}

/// Work penalty of a piece merged `work_count` times: one less than the
/// matching power of two.
pub fn calc_penalty(work_count: u32) -> (r: u32)
    requires
        work_count < 32,
    ensures
        r == spec_penalty(work_count as nat),
{
    proof {
        lemma2_to64();
        if work_count < 31 {
            lemma_pow2_strictly_increases(work_count as nat, 31);
        }
        lemma_u32_shl_is_mul(1u32, work_count);
    }
    (1u32 << work_count) - 1
}

/// The penalty curve increases strictly with the merge count.
pub proof fn lemma_penalty_mono(a: nat, b: nat)
    requires
        a < b,
    ensures
        spec_penalty(a) < spec_penalty(b),
{
    lemma_pow2_strictly_increases(a, b);
}

/// Merge count whose penalty reaches `penalty`, by linear search.
pub fn calc_work_count(penalty: u32) -> (r: u32)
    requires
        penalty <= 0x7FFF_FFFF,
    ensures
        is_work_count_of(penalty as int, r as int),
{
    let mut test_penalty: u32 = 0;
    let mut work_count: u32 = 0;
    proof {
        lemma2_to64();
    }
    while test_penalty < penalty
        invariant
            penalty <= 0x7FFF_FFFF,
            test_penalty == spec_penalty(work_count as nat),
            work_count == 0 || spec_penalty((work_count - 1) as nat) < penalty,
            work_count <= 31,
        decreases 31 - work_count,
    {
        proof {
            lemma2_to64();
            if work_count >= 31 {
                assert(spec_penalty(31) == 0x7FFF_FFFF);
            }
        }
        work_count = work_count + 1;
        test_penalty = calc_penalty(work_count);
    }
    work_count
}

/// Only one level can be the conversion result for a given experience
/// value.
pub proof fn lemma_is_level_of_unique(xp: int, a: int, b: int)
    requires
        is_level_of(xp, a),
        is_level_of(xp, b),
    ensures
        a == b,
{
    if a < b {
        lemma_xp_sat_mono(a, b - 1);
    }
    if b < a {
        lemma_xp_sat_mono(b, a - 1);
    }
}

/// The level a given experience value converts back to.
pub open spec fn spec_level(xp: int) -> int {
    choose|l: int| is_level_of(xp, l)
}

/// Converting a level to experience and back returns the level unchanged,
/// up to the first level whose experience value is clamped. From there the
/// clamp makes distinct levels share one experience value, so no inverse
/// can tell them apart.
pub proof fn lemma_level_round_trip(level: int, back: int)
    requires
        0 <= level <= LEVEL_CEILING,
        is_level_of(xp_sat(level), back),
    ensures
        back == level,
{
    lemma_level_ceiling(level);
    if back < level {
        lemma_level_ceiling(back);
        lemma_xp_exact_mono(back, level);
        lemma_xp_exact_nonneg(back);
        if level < LEVEL_CEILING {
            assert(xp_sat(back) < xp_sat(level));
        } else {
            assert(back <= 30_912);
            if back < 30_912 {
                lemma_xp_exact_mono(back, 30_912);
            }
            assert(xp_exact(back) <= xp_exact(30_912));
            assert(xp_exact(30_912) == (9 * 30_912 * 30_912 + 4440 - 325 * 30_912) / 2);
            assert(9 * 30_912 * 30_912 == 8_599_965_696);
            assert(xp_sat(back) < COST_MAX);
            assert(xp_sat(level) == COST_MAX);
        }
    }
    if back > level {
        lemma_xp_sat_mono(level, back - 1);
        assert(xp_sat(back - 1) >= xp_sat(level));
    }
}

/// Converting a merge count to a penalty and back returns the count
/// unchanged.
pub proof fn lemma_work_count_round_trip(work_count: int, back: int)
    requires
        0 <= work_count,
        is_work_count_of(spec_penalty(work_count as nat), back),
    ensures
        back == work_count,
{
    if back < work_count {
        lemma_penalty_mono(back as nat, work_count as nat);
    }
    if back > work_count {
        if back - 1 > work_count {
            lemma_penalty_mono(work_count as nat, (back - 1) as nat);
        }
        assert(spec_penalty((back - 1) as nat) >= spec_penalty(work_count as nat));
    }
}

/// A zero merge count carries no penalty, and each further merge doubles the
/// penalty and adds one.
pub proof fn lemma_penalty_doubling(work_count: nat)
    ensures
        spec_penalty(0) == 0,
        spec_penalty(work_count + 1) == 2 * spec_penalty(work_count) + 1,
{
    lemma2_to64();
    vstd::arithmetic::power2::lemma_pow2_unfold(work_count + 1);
}

/// Penalties are never negative.
pub proof fn lemma_penalty_nonneg(work_count: nat)
    ensures
        spec_penalty(work_count) >= 0,
{
    vstd::arithmetic::power2::lemma_pow2_pos(work_count);
}

/// A penalty of at most thirty merges fits well within a 32-bit word.
pub proof fn lemma_penalty_bound(work_count: nat)
    requires
        work_count <= 30,
    ensures
        0 <= spec_penalty(work_count) <= 0x3FFF_FFFF,
{
    lemma2_to64();
    lemma_penalty_nonneg(work_count);
    if work_count < 30 {
        lemma_pow2_strictly_increases(work_count, 30);
    }
}

} // verus!
