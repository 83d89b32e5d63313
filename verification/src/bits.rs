//! Bitboards: 64-bit sets of squares, square 0 being a1 and square 63 h8.

use vstd::prelude::*;

verus! {

/// The bitboard that holds `sq` and nothing else.
pub open spec fn square_mask(sq: u64) -> u64 {
    1u64 << sq
}

/// Whether the bitboard `bb` holds the square `sq`.
pub open spec fn bit(bb: u64, sq: u64) -> bool {
    bb & (1u64 << sq) != 0
}

/// A single-square bitboard holds its square and no other.
pub proof fn lemma_mask(a: u64)
    by (bit_vector)
    requires
        a < 64,
    ensures
        square_mask(a) != 0,
        forall|s: u64| s < 64 ==> (#[trigger] bit(square_mask(a), s) <==> s == a),
{
}

/// The empty bitboard holds no square.
pub proof fn lemma_empty()
    by (bit_vector)
    ensures
        forall|s: u64| s < 64 ==> !#[trigger] bit(0u64, s),
{
}

/// A union holds the squares of either operand.
pub proof fn lemma_union(x: u64, y: u64)
    by (bit_vector)
    ensures
        forall|s: u64| s < 64 ==> (#[trigger] bit(x | y, s) <==> bit(x, s) || bit(y, s)),
{
}

/// An intersection holds the squares of both operands.
pub proof fn lemma_intersection(x: u64, y: u64)
    by (bit_vector)
    ensures
        forall|s: u64| s < 64 ==> (#[trigger] bit(x & y, s) <==> bit(x, s) && bit(y, s)),
{
}

/// A difference holds the squares of the first operand that the second lacks.
pub proof fn lemma_difference(x: u64, y: u64)
    by (bit_vector)
    ensures
        forall|s: u64| s < 64 ==> (#[trigger] bit(x & !y, s) <==> bit(x, s) && !bit(y, s)),
{
}

/// Shifting right and masking tests the same bit as intersecting with the
/// square's mask.
pub proof fn lemma_shift_test(x: u64, s: u64)
    by (bit_vector)
    requires
        s < 64,
    ensures
        bit(x, s) <==> (x >> s) & 1u64 == 1u64,
{
}

/// A bitboard that holds no square is zero.
pub proof fn lemma_extensional_zero(x: u64)
    requires
        forall|s: u64| s < 64 ==> !#[trigger] bit(x, s),
    ensures
        x == 0,
{
    if x != 0 {
        let k = vstd::std_specs::bits::u64_trailing_zeros(x) as u64;
        vstd::std_specs::bits::axiom_u64_trailing_zeros(x);
        lemma_shift_test(x, k);
        assert(bit(x, k));
    }
}

/// Two bitboards that hold the same squares are equal.
pub proof fn lemma_extensional(x: u64, y: u64)
    requires
        forall|s: u64| s < 64 ==> (#[trigger] bit(x, s) <==> bit(y, s)),
    ensures
        x == y,
{
    let d = x ^ y;
    assert forall|s: u64| s < 64 implies !#[trigger] bit(d, s) by {
        assert(bit(x, s) <==> bit(y, s));
        assert(s < 64 ==> (bit(x ^ y, s) <==> (bit(x, s) != bit(y, s)))) by (bit_vector);
    }
    lemma_extensional_zero(d);
    assert(x ^ y == 0 ==> x == y) by (bit_vector);
}

/// The lowest square of a non-empty bitboard, and the bitboard without it.
pub fn pop_lsb(bb: u64) -> (r: (u64, u64))
    requires
        bb != 0,
    ensures
        r.0 < 64,
        bit(bb, r.0),
        forall|s: u64| s < r.0 ==> !bit(bb, s),
        r.1 == bb & !square_mask(r.0),
        r.1 < bb,
        forall|s: u64| s < 64 ==> (#[trigger] bit(r.1, s) <==> bit(bb, s) && s != r.0),
{
    let tz: u32 = bb.trailing_zeros();
    proof {
        vstd::std_specs::bits::axiom_u64_trailing_zeros(bb);
    }
    let sq: u64 = tz as u64;
    let rest: u64 = bb & !(1u64 << sq);
    proof {
        lemma_shift_test(bb, sq);
        assert forall|s: u64| s < sq implies !bit(bb, s) by {
            lemma_shift_test(bb, s);
        }
        lemma_difference(bb, square_mask(sq));
        lemma_mask(sq);
        assert(rest < bb) by (bit_vector)
            requires
                sq < 64,
                bb & (1u64 << sq) != 0,
                rest == bb & !(1u64 << sq),
        ;
    }
    (sq, rest)
}

/// The number of squares below `upto` that `bb` holds.
pub open spec fn count_below(bb: u64, upto: nat) -> nat
    decreases upto,
{
    if upto == 0 {
        0
    } else {
        count_below(bb, (upto - 1) as nat) + if bit(bb, (upto - 1) as u64) {
            1nat
        } else {
            0nat
        }
    }
}

/// The number of squares that `bb` holds.
pub open spec fn popcount(bb: u64) -> nat {
    count_below(bb, 64)
}

/// Counts the squares of a bitboard.
pub fn count_bits(bb: u64) -> (n: u32)
    ensures
        n == popcount(bb),
        n <= 64,
{
    let mut n: u32 = 0;
    let mut sq: u64 = 0;
    while sq < 64
        invariant
            sq <= 64,
            n == count_below(bb, sq as nat),
            n <= sq,
        decreases 64 - sq,
    {
        if bb & (1u64 << sq) != 0 {
            n = n + 1;
        }
        sq = sq + 1;
    }
    n
}

} // verus!
