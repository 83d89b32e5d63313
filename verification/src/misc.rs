//! Small numeric tools: a pseudo-random number generator and the mapping
//! between centipawns and win probabilities.

use vstd::prelude::*;

verus! {

/// The multiplier of the generator.
pub const SPCG_MULTIPLIER: u64 = 0x9b60933458e17d7d;

/// The increment of the generator.
pub const SPCG_INCREMENT: u64 = 0xd737232eeccdf7ed;

/// The state that follows `state`: the state times the multiplier plus the
/// increment, modulo 2^64.
pub open spec fn spcg32_next(state: u64) -> u64 {
    state.wrapping_mul(SPCG_MULTIPLIER).wrapping_add(SPCG_INCREMENT)
}

/// The number drawn from a state: the state shifted right by 29 less its
/// top three bits, cut to 32 bits.
pub open spec fn spcg32_output(state: u64) -> u32 {
    ((state >> ((29 - (state >> 61)) as u64)) & 0xffff_ffff) as u32
}

/// One step of a permuted congruential generator: returns a 32-bit number
/// and the state to pass to the next call.
pub fn spcg32(state: &u64) -> (r: (u32, u64))
    ensures
        r.1 == spcg32_next(*state),
        r.0 == spcg32_output(r.1),
{
    let new_state: u64 = state.wrapping_mul(SPCG_MULTIPLIER).wrapping_add(SPCG_INCREMENT);
    let top: u64 = new_state >> 61;
    assert(top <= 7) by (bit_vector)
        requires
            top == new_state >> 61,
    ;
    let shift: u64 = 29 - top;
    let low: u64 = (new_state >> shift) & 0xffff_ffff;
    assert(low <= 0xffff_ffff) by (bit_vector)
        requires
            low == (new_state >> shift) & 0xffff_ffff,
    ;
    (low as u32, new_state)
}

/// A win probability for White, as the fraction `num / den`.
#[derive(Clone, Copy, PartialEq, Eq, Debug, Structural)]
pub struct Probability {
    pub num: u64,
    pub den: u64,
}

/// The numerator of the win probability of a centipawn score `cp`.
pub open spec fn probability_num(cp: int) -> int {
    if cp >= 0 {
        cp * cp + 10_000
    } else {
        10_000
    }
}

/// The denominator of the win probability of a centipawn score `cp`.
pub open spec fn probability_den(cp: int) -> int {
    cp * cp + 20_000
}

/// Maps a centipawn score to White's win probability: for a score in
/// White's favour `(cp² + 10000) / (cp² + 20000)`, for one in Black's
/// favour one less the same fraction of its absolute value, and one half
/// for a level score.
pub fn cp_to_eval(cp: i32) -> (p: Probability)
    ensures
        p.num == probability_num(cp as int),
        p.den == probability_den(cp as int),
{
    let wide: i64 = cp as i64;
    assert(0 <= wide * wide <= 0x4000_0000_0000_0000) by (nonlinear_arith)
        requires
            -0x8000_0000 <= wide <= 0x7fff_ffff,
    ;
    let square: u64 = (wide * wide) as u64;
    if cp >= 0 {
        Probability { num: square + 10_000, den: square + 20_000 }
    } else {
        Probability { num: 10_000, den: square + 20_000 }
    }
}

/// Whether `r` is the square root of `x`, rounded down.
pub open spec fn is_floor_sqrt(r: int, x: int) -> bool {
    0 <= r && r * r <= x < (r + 1) * (r + 1)
}

/// The centipawn score, from White's side, of a win probability
/// `num / den` above one half: the square root, rounded down, of
/// `(20000 p - 10000) / (1 - p)`, at most the largest 32-bit number; that
/// number also where `p` is one. For a probability below one half it is
/// the negative of the score of `1 - p`, and for one half it is zero.
pub open spec fn is_score_of(cp: int, num: int, den: int) -> bool {
    if 2 * num > den {
        if num >= den {
            cp == i32::MAX
        } else {
            let q = (20_000 * num - 10_000 * den) / (den - num);
            (cp == i32::MAX && q >= (i32::MAX as int) * (i32::MAX as int)) || (cp < i32::MAX
                && is_floor_sqrt(cp, q))
        }
    } else if 2 * num < den {
        if num <= 0 {
            cp == i32::MIN
        } else {
            let q = (10_000 * den - 20_000 * num) / num;
            (cp == -(i32::MAX as int) && q >= (i32::MAX as int) * (i32::MAX as int)) || (-(
            i32::MAX as int) < cp && is_floor_sqrt(-cp, q))
        }
    } else {
        cp == 0
    }
}

/// The square root of `x`, rounded down, where it is below 2^31.
fn floor_sqrt(x: u128) -> (r: u64)
    requires
        x < 0x4000_0000_0000_0000,
    ensures
        is_floor_sqrt(r as int, x as int),
        r < 0x8000_0000,
{
    let mut low: u64 = 0;
    let mut high: u64 = 0x8000_0000;
    assert(0x8000_0000u64 * 0x8000_0000u64 == 0x4000_0000_0000_0000u64) by (bit_vector);
    while high - low > 1
        invariant
            low < high <= 0x8000_0000,
            low * low <= x < high * high,
        decreases high - low,
    {
        let mid: u64 = low + (high - low) / 2;
        assert(mid * mid < 0x4000_0000_0000_0000) by (nonlinear_arith)
            requires
                mid < 0x8000_0000,
        ;
        if (mid * mid) as u128 <= x {
            low = mid;
        } else {
            high = mid;
        }
    }
    low
}

/// Maps a win probability back to a centipawn score.
pub fn eval_to_cp(eval: Probability) -> (cp: i32)
    requires
        eval.den > 0,
        eval.num <= eval.den,
    ensures
        is_score_of(cp as int, eval.num as int, eval.den as int),
{
    let num: u128 = eval.num as u128;
    let den: u128 = eval.den as u128;
    if 2 * num > den {
        if num >= den {
            return i32::MAX;
        }
        let q: u128 = (20_000 * num - 10_000 * den) / (den - num);
        if q >= 0x3fff_ffff_0000_0001 {
            i32::MAX
        } else {
            let r = floor_sqrt(q);
            assert(r < 0x7fff_ffff) by (nonlinear_arith)
                requires
                    r * r <= q,
                    q < 0x3fff_ffff_0000_0001,
                    r < 0x8000_0000,
            ;
            r as i32
        }
    } else if 2 * num < den {
        if num == 0 {
            return i32::MIN;
        }
        let q: u128 = (10_000 * den - 20_000 * num) / num;
        if q >= 0x3fff_ffff_0000_0001 {
            -i32::MAX
        } else {
            let r = floor_sqrt(q);
            assert(r < 0x7fff_ffff) by (nonlinear_arith)
                requires
                    r * r <= q,
                    q < 0x3fff_ffff_0000_0001,
                    r < 0x8000_0000,
            ;
            -(r as i32)
        }
    } else {
        0
    }
}

/// The number of moves that a game is expected to last from a position
/// with the given win probability.
pub fn eval_to_movestogo(_eval: Probability) -> (moves: u32)
    ensures
        moves == 50,
{
    50
}

/// A level score is a win probability of one half.
pub proof fn lemma_level_score_is_one_half()
    ensures
        2 * probability_num(0) == probability_den(0),
{
}

/// The win probability lies strictly between zero and one.
pub proof fn lemma_probability_bounded(cp: int)
    ensures
        0 < probability_num(cp) < probability_den(cp),
{
    assert(cp * cp >= 0) by (nonlinear_arith);
}

/// The win probability grows strictly with the score: of two scores, the
/// larger has the larger fraction.
pub proof fn lemma_probability_increasing(a: int, b: int)
    requires
        a < b,
    ensures
        probability_num(a) * probability_den(b) < probability_num(b) * probability_den(a),
{
    let x = a * a;
    let y = b * b;
    assert(x >= 0 && y >= 0) by (nonlinear_arith)
        requires
            x == a * a,
            y == b * b,
    ;
    if a >= 0 {
        assert(x < y) by (nonlinear_arith)
            requires
                0 <= a < b,
                x == a * a,
                y == b * b,
        ;
        assert((x + 10_000) * (y + 20_000) < (y + 10_000) * (x + 20_000)) by (nonlinear_arith)
            requires
                0 <= x < y,
        ;
    } else if b < 0 {
        assert(y < x) by (nonlinear_arith)
            requires
                a < b < 0,
                x == a * a,
                y == b * b,
        ;
        assert(10_000 * (y + 20_000) < 10_000 * (x + 20_000));
    } else {
        assert(x >= 1) by (nonlinear_arith)
            requires
                a < 0,
                x == a * a,
        ;
        assert(10_000 * (y + 20_000) < (y + 10_000) * (x + 20_000)) by (nonlinear_arith)
            requires
                x >= 1,
                y >= 0,
        ;
    }
}

/// Mapping a score to a win probability and back gives the score again.
pub proof fn lemma_score_round_trip(cp: int)
    requires
        -(i32::MAX as int) < cp < i32::MAX,
    ensures
        is_score_of(cp, probability_num(cp), probability_den(cp)),
{
    let x = cp * cp;
    assert(x >= 0) by (nonlinear_arith)
        requires
            x == cp * cp,
    ;
    let num = probability_num(cp);
    let den = probability_den(cp);
    if cp > 0 {
        assert(x >= 1) by (nonlinear_arith)
            requires
                cp > 0,
                x == cp * cp,
        ;
        assert(20_000 * num - 10_000 * den == 10_000 * x);
        assert(den - num == 10_000);
        assert((10_000 * x) / 10_000 == x);
        assert(is_floor_sqrt(cp, x)) by (nonlinear_arith)
            requires
                cp > 0,
                x == cp * cp,
        ;
    } else if cp < 0 {
        assert(x >= 1) by (nonlinear_arith)
            requires
                cp < 0,
                x == cp * cp,
        ;
        assert(10_000 * den - 20_000 * num == 10_000 * x);
        assert((10_000 * x) / 10_000 == x);
        assert(is_floor_sqrt(-cp, x)) by (nonlinear_arith)
            requires
                cp < 0,
                x == cp * cp,
        ;
    }
}

/// A number has one square root rounded down.
proof fn lemma_floor_sqrt_unique(a: int, b: int, x: int)
    requires
        is_floor_sqrt(a, x),
        is_floor_sqrt(b, x),
    ensures
        a == b,
{
    if a < b {
        assert((a + 1) * (a + 1) <= b * b) by (nonlinear_arith)
            requires
                0 <= a,
                a + 1 <= b,
        ;
    } else if b < a {
        assert((b + 1) * (b + 1) <= a * a) by (nonlinear_arith)
            requires
                0 <= b,
                b + 1 <= a,
        ;
    }
}

/// A win probability has one score.
pub proof fn lemma_score_unique(a: int, b: int, num: int, den: int)
    requires
        is_score_of(a, num, den),
        is_score_of(b, num, den),
    ensures
        a == b,
{
    let max = i32::MAX as int;
    if 2 * num > den && num < den {
        let q = (20_000 * num - 10_000 * den) / (den - num);
        if a < max && b < max {
            lemma_floor_sqrt_unique(a, b, q);
        } else if a < max {
            assert((a + 1) * (a + 1) <= max * max) by (nonlinear_arith)
                requires
                    0 <= a,
                    a + 1 <= max,
            ;
        } else if b < max {
            assert((b + 1) * (b + 1) <= max * max) by (nonlinear_arith)
                requires
                    0 <= b,
                    b + 1 <= max,
            ;
        }
    } else if 2 * num < den && num > 0 {
        let q = (10_000 * den - 20_000 * num) / num;
        if -max < a && -max < b {
            lemma_floor_sqrt_unique(-a, -b, q);
        } else if -max < a {
            assert((-a + 1) * (-a + 1) <= max * max) by (nonlinear_arith)
                requires
                    0 <= -a,
                    -a + 1 <= max,
            ;
        } else if -max < b {
            assert((-b + 1) * (-b + 1) <= max * max) by (nonlinear_arith)
                requires
                    0 <= -b,
                    -b + 1 <= max,
            ;
        }
    }
}

/// The score that [`eval_to_cp`] gives for the win probability of a score
/// is that score.
pub proof fn lemma_eval_to_cp_of_cp_to_eval(cp: int, back: int)
    requires
        -(i32::MAX as int) < cp < i32::MAX,
        is_score_of(back, probability_num(cp), probability_den(cp)),
    ensures
        back == cp,
{
    lemma_score_round_trip(cp);
    lemma_score_unique(back, cp, probability_num(cp), probability_den(cp));
}

} // verus!
