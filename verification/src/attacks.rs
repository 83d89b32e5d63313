//! Attack sets by the geometry of the board, and the building of the
//! attack tables from them.

use crate::bits::{bit, lemma_intersection, lemma_mask, lemma_union, square_mask};
use crate::magic::{Magic, MagicTables};
use vstd::prelude::*;

verus! {

/// Whether a rank and a file name a square of the board.
pub open spec fn on_board(rank: int, file: int) -> bool {
    0 <= rank < 8 && 0 <= file < 8
}

/// The square on a rank and a file.
pub open spec fn square_of(rank: int, file: int) -> u64 {
    (rank * 8 + file) as u64
}

/// The square that lies `dr` ranks and `df` files from `sq`, as a
/// bitboard; empty if there is none on the board.
pub open spec fn leap(sq: u64, dr: int, df: int) -> u64 {
    if on_board(sq / 8 + dr, sq % 8 + df) {
        square_mask(square_of(sq / 8 + dr, sq % 8 + df))
    } else {
        0
    }
}

/// The squares a knight attacks from `sq`.
pub open spec fn knight_attacks(sq: u64) -> u64 {
    leap(sq, 1, 2) | leap(sq, 2, 1) | leap(sq, -1, 2) | leap(sq, -2, 1) | leap(sq, 1, -2) | leap(
        sq,
        2,
        -1,
    ) | leap(sq, -1, -2) | leap(sq, -2, -1)
}

/// The squares a king attacks from `sq`.
pub open spec fn king_attacks(sq: u64) -> u64 {
    leap(sq, 1, 0) | leap(sq, 1, 1) | leap(sq, 0, 1) | leap(sq, -1, 1) | leap(sq, -1, 0) | leap(
        sq,
        -1,
        -1,
    ) | leap(sq, 0, -1) | leap(sq, 1, -1)
}

/// The squares a pawn attacks from `sq`: one rank ahead on the two
/// neighbouring files, ahead being up the board for White.
pub open spec fn pawn_attacks_from(sq: u64, white: bool) -> u64 {
    if white {
        leap(sq, 1, -1) | leap(sq, 1, 1)
    } else {
        leap(sq, -1, -1) | leap(sq, -1, 1)
    }
}

/// The squares seen from a square along one direction, added to `seen`:
/// at most `n` squares, up to the edge of the board or the first occupied
/// square, which is seen too.
pub open spec fn ray(rank: int, file: int, dr: int, df: int, occ: u64, n: nat, seen: u64) -> u64
    decreases n,
{
    if n == 0 || !on_board(rank + dr, file + df) {
        seen
    } else {
        let s = square_of(rank + dr, file + df);
        if bit(occ, s) {
            seen | square_mask(s)
        } else {
            ray(rank + dr, file + df, dr, df, occ, (n - 1) as nat, seen | square_mask(s))
        }
    }
}

/// The squares along one direction that have a square of the board behind
/// them, added to `seen`: those whose occupancy decides how far a sliding
/// piece sees.
pub open spec fn inner(rank: int, file: int, dr: int, df: int, n: nat, seen: u64) -> u64
    decreases n,
{
    if n == 0 || !on_board(rank + 2 * dr, file + 2 * df) {
        seen
    } else {
        inner(
            rank + dr,
            file + df,
            dr,
            df,
            (n - 1) as nat,
            seen | square_mask(square_of(rank + dr, file + df)),
        )
    }
}

/// The squares a bishop (`diagonal`) or a rook attacks from `sq` when the
/// squares `occ` are occupied.
pub open spec fn slide(sq: u64, diagonal: bool, occ: u64) -> u64 {
    let r = (sq / 8) as int;
    let f = (sq % 8) as int;
    if diagonal {
        ray(r, f, 1, 1, occ, 7, 0) | ray(r, f, 1, -1, occ, 7, 0) | ray(r, f, -1, 1, occ, 7, 0) | ray(
            r,
            f,
            -1,
            -1,
            occ,
            7,
            0,
        )
    } else {
        ray(r, f, 1, 0, occ, 7, 0) | ray(r, f, -1, 0, occ, 7, 0) | ray(r, f, 0, 1, occ, 7, 0) | ray(
            r,
            f,
            0,
            -1,
            occ,
            7,
            0,
        )
    }
}

/// The squares whose occupancy matters for the attacks of a bishop
/// (`diagonal`) or a rook from `sq`.
pub open spec fn relevant(sq: u64, diagonal: bool) -> u64 {
    let r = (sq / 8) as int;
    let f = (sq % 8) as int;
    if diagonal {
        inner(r, f, 1, 1, 7, 0) | inner(r, f, 1, -1, 7, 0) | inner(r, f, -1, 1, 7, 0) | inner(
            r,
            f,
            -1,
            -1,
            7,
            0,
        )
    } else {
        inner(r, f, 1, 0, 7, 0) | inner(r, f, -1, 0, 7, 0) | inner(r, f, 0, 1, 7, 0) | inner(
            r,
            f,
            0,
            -1,
            7,
            0,
        )
    }
}

/// The square that lies `dr` ranks and `df` files from `sq`, as a
/// bitboard.
fn leap_from(sq: u64, dr: i64, df: i64) -> (r: u64)
    requires
        sq < 64,
        -8 < dr < 8,
        -8 < df < 8,
    ensures
        r == leap(sq, dr as int, df as int),
{
    let rank: i64 = (sq / 8) as i64 + dr;
    let file: i64 = (sq % 8) as i64 + df;
    if 0 <= rank && rank < 8 && 0 <= file && file < 8 {
        1u64 << ((rank * 8 + file) as u64)
    } else {
        0
    }
}

/// Computes the squares a knight attacks from `sq`.
pub fn knight_attacks_from(sq: u64) -> (r: u64)
    requires
        sq < 64,
    ensures
        r == knight_attacks(sq),
{
    leap_from(sq, 1, 2) | leap_from(sq, 2, 1) | leap_from(sq, -1, 2) | leap_from(sq, -2, 1)
        | leap_from(sq, 1, -2) | leap_from(sq, 2, -1) | leap_from(sq, -1, -2) | leap_from(
        sq,
        -2,
        -1,
    )
}

/// Computes the squares a king attacks from `sq`.
pub fn king_attacks_from(sq: u64) -> (r: u64)
    requires
        sq < 64,
    ensures
        r == king_attacks(sq),
{
    leap_from(sq, 1, 0) | leap_from(sq, 1, 1) | leap_from(sq, 0, 1) | leap_from(sq, -1, 1)
        | leap_from(sq, -1, 0) | leap_from(sq, -1, -1) | leap_from(sq, 0, -1) | leap_from(
        sq,
        1,
        -1,
    )
}

/// Computes the squares a pawn attacks from `sq`.
pub fn pawn_attacks_of(sq: u64, white: bool) -> (r: u64)
    requires
        sq < 64,
    ensures
        r == pawn_attacks_from(sq, white),
{
    if white {
        leap_from(sq, 1, -1) | leap_from(sq, 1, 1)
    } else {
        leap_from(sq, -1, -1) | leap_from(sq, -1, 1)
    }
}

/// Walks from `sq` along one direction up to the first occupied square.
fn walk(sq: u64, dr: i64, df: i64, occ: u64) -> (r: u64)
    requires
        sq < 64,
        -1 <= dr <= 1,
        -1 <= df <= 1,
    ensures
        r == ray((sq / 8) as int, (sq % 8) as int, dr as int, df as int, occ, 7, 0),
{
    let mut rank: i64 = (sq / 8) as i64;
    let mut file: i64 = (sq % 8) as i64;
    let mut seen: u64 = 0;
    let mut n: u64 = 7;
    let ghost goal = ray((sq / 8) as int, (sq % 8) as int, dr as int, df as int, occ, 7, 0);
    while n > 0 && 0 <= rank + dr && rank + dr < 8 && 0 <= file + df && file + df < 8
        invariant
            0 <= rank < 8,
            0 <= file < 8,
            -1 <= dr <= 1,
            -1 <= df <= 1,
            n <= 7,
            goal == ray((sq / 8) as int, (sq % 8) as int, dr as int, df as int, occ, 7, 0),
            ray(rank as int, file as int, dr as int, df as int, occ, n as nat, seen) == goal,
        decreases n,
    {
        rank = rank + dr;
        file = file + df;
        let s: u64 = (rank * 8 + file) as u64;
        seen = seen | (1u64 << s);
        if occ & (1u64 << s) != 0 {
            return seen;
        }
        n = n - 1;
    }
    seen
}

/// Walks from `sq` along one direction over the squares that have a
/// square behind them.
fn walk_inner(sq: u64, dr: i64, df: i64) -> (r: u64)
    requires
        sq < 64,
        -1 <= dr <= 1,
        -1 <= df <= 1,
    ensures
        r == inner((sq / 8) as int, (sq % 8) as int, dr as int, df as int, 7, 0),
{
    let mut rank: i64 = (sq / 8) as i64;
    let mut file: i64 = (sq % 8) as i64;
    let mut seen: u64 = 0;
    let mut n: u64 = 7;
    let ghost goal = inner((sq / 8) as int, (sq % 8) as int, dr as int, df as int, 7, 0);
    while n > 0 && 0 <= rank + 2 * dr && rank + 2 * dr < 8 && 0 <= file + 2 * df && file + 2 * df
        < 8
        invariant
            0 <= rank < 8,
            0 <= file < 8,
            -1 <= dr <= 1,
            -1 <= df <= 1,
            n <= 7,
            inner(rank as int, file as int, dr as int, df as int, n as nat, seen) == goal,
        decreases n,
    {
        rank = rank + dr;
        file = file + df;
        let s: u64 = (rank * 8 + file) as u64;
        seen = seen | (1u64 << s);
        n = n - 1;
    }
    seen
}

/// Computes the squares a bishop (`diagonal`) or a rook attacks from `sq`
/// when the squares `occ` are occupied.
pub fn slide_from(sq: u64, diagonal: bool, occ: u64) -> (r: u64)
    requires
        sq < 64,
    ensures
        r == slide(sq, diagonal, occ),
{
    if diagonal {
        walk(sq, 1, 1, occ) | walk(sq, 1, -1, occ) | walk(sq, -1, 1, occ) | walk(sq, -1, -1, occ)
    } else {
        walk(sq, 1, 0, occ) | walk(sq, -1, 0, occ) | walk(sq, 0, 1, occ) | walk(sq, 0, -1, occ)
    }
}

/// Computes the squares whose occupancy matters for the attacks of a
/// bishop (`diagonal`) or a rook from `sq`.
pub fn relevant_mask(sq: u64, diagonal: bool) -> (r: u64)
    requires
        sq < 64,
    ensures
        r == relevant(sq, diagonal),
{
    if diagonal {
        walk_inner(sq, 1, 1) | walk_inner(sq, 1, -1) | walk_inner(sq, -1, 1) | walk_inner(
            sq,
            -1,
            -1,
        )
    } else {
        walk_inner(sq, 1, 0) | walk_inner(sq, -1, 0) | walk_inner(sq, 0, 1) | walk_inner(sq, 0, -1)
    }
}

/// Whether the mask holds every square along a direction that has a
/// square of the board behind it.
spec fn covered(mask: u64, rank: int, file: int, dr: int, df: int, n: nat) -> bool
    decreases n,
{
    n == 0 || !on_board(rank + 2 * dr, file + 2 * df) || (bit(
        mask,
        square_of(rank + dr, file + df),
    ) && covered(mask, rank + dr, file + df, dr, df, (n - 1) as nat))
}

/// Whether a direction is a step of at most one rank and one file.
spec fn unit(dr: int, df: int) -> bool {
    -1 <= dr <= 1 && -1 <= df <= 1
}

/// What was seen stays seen.
proof fn lemma_inner_grows(rank: int, file: int, dr: int, df: int, n: nat, seen: u64, x: u64)
    requires
        on_board(rank, file),
        unit(dr, df),
        x < 64,
        bit(seen, x),
    ensures
        bit(inner(rank, file, dr, df, n, seen), x),
    decreases n,
{
    if n > 0 && on_board(rank + 2 * dr, file + 2 * df) {
        let s = square_of(rank + dr, file + df);
        lemma_union(seen, square_mask(s));
        lemma_inner_grows(rank + dr, file + df, dr, df, (n - 1) as nat, seen | square_mask(s), x);
    }
}

/// The squares with a square behind them are among those walked over.
proof fn lemma_inner_covers(rank: int, file: int, dr: int, df: int, n: nat, seen: u64)
    requires
        on_board(rank, file),
        unit(dr, df),
    ensures
        covered(inner(rank, file, dr, df, n, seen), rank, file, dr, df, n),
    decreases n,
{
    if n > 0 && on_board(rank + 2 * dr, file + 2 * df) {
        let s = square_of(rank + dr, file + df);
        let more = seen | square_mask(s);
        lemma_union(seen, square_mask(s));
        lemma_mask(s);
        lemma_inner_grows(rank + dr, file + df, dr, df, (n - 1) as nat, more, s);
        lemma_inner_covers(rank + dr, file + df, dr, df, (n - 1) as nat, more);
    }
}

/// A mask that holds more covers as much.
proof fn lemma_covered_wider(
    mask: u64,
    wider: u64,
    rank: int,
    file: int,
    dr: int,
    df: int,
    n: nat,
)
    requires
        on_board(rank, file),
        unit(dr, df),
        covered(mask, rank, file, dr, df, n),
        forall|x: u64| x < 64 && bit(mask, x) ==> bit(wider, x),
    ensures
        covered(wider, rank, file, dr, df, n),
    decreases n,
{
    if n > 0 && on_board(rank + 2 * dr, file + 2 * df) {
        lemma_covered_wider(mask, wider, rank + dr, file + df, dr, df, (n - 1) as nat);
    }
}

/// Along a direction, only the occupancy of the squares with a square
/// behind them decides what is seen.
proof fn lemma_ray_masked(
    rank: int,
    file: int,
    dr: int,
    df: int,
    occ: u64,
    mask: u64,
    n: nat,
    seen: u64,
)
    requires
        on_board(rank, file),
        unit(dr, df),
        covered(mask, rank, file, dr, df, n),
    ensures
        ray(rank, file, dr, df, occ, n, seen) == ray(rank, file, dr, df, occ & mask, n, seen),
    decreases n,
{
    if n > 0 && on_board(rank + dr, file + df) {
        let s = square_of(rank + dr, file + df);
        let more = seen | square_mask(s);
        lemma_intersection(occ, mask);
        if on_board(rank + 2 * dr, file + 2 * df) {
            lemma_ray_masked(rank + dr, file + df, dr, df, occ, mask, (n - 1) as nat, more);
        } else {
            assert(ray(rank + dr, file + df, dr, df, occ, (n - 1) as nat, more) == more);
            assert(ray(rank + dr, file + df, dr, df, occ & mask, (n - 1) as nat, more) == more);
        }
    }
}

/// One direction of a sliding piece sees the same whether or not the
/// squares outside the relevant mask are occupied.
proof fn lemma_direction_masked(sq: u64, diagonal: bool, occ: u64, dr: int, df: int, part: u64)
    requires
        sq < 64,
        unit(dr, df),
        part == inner((sq / 8) as int, (sq % 8) as int, dr, df, 7, 0),
        forall|x: u64| x < 64 && bit(part, x) ==> bit(relevant(sq, diagonal), x),
    ensures
        ray((sq / 8) as int, (sq % 8) as int, dr, df, occ, 7, 0) == ray(
            (sq / 8) as int,
            (sq % 8) as int,
            dr,
            df,
            occ & relevant(sq, diagonal),
            7,
            0,
        ),
{
    let r = (sq / 8) as int;
    let f = (sq % 8) as int;
    lemma_inner_covers(r, f, dr, df, 7, 0);
    lemma_covered_wider(part, relevant(sq, diagonal), r, f, dr, df, 7);
    lemma_ray_masked(r, f, dr, df, occ, relevant(sq, diagonal), 7, 0);
}

/// A sliding piece attacks the same squares whether or not the squares
/// outside its relevant mask are occupied.
pub proof fn lemma_slide_masked(sq: u64, diagonal: bool, occ: u64)
    requires
        sq < 64,
    ensures
        slide(sq, diagonal, occ & relevant(sq, diagonal)) == slide(sq, diagonal, occ),
{
    let r = (sq / 8) as int;
    let f = (sq % 8) as int;
    if diagonal {
        let a = inner(r, f, 1, 1, 7, 0);
        let b = inner(r, f, 1, -1, 7, 0);
        let c = inner(r, f, -1, 1, 7, 0);
        let d = inner(r, f, -1, -1, 7, 0);
        lemma_union(a, b);
        lemma_union(a | b, c);
        lemma_union(a | b | c, d);
        lemma_direction_masked(sq, diagonal, occ, 1, 1, a);
        lemma_direction_masked(sq, diagonal, occ, 1, -1, b);
        lemma_direction_masked(sq, diagonal, occ, -1, 1, c);
        lemma_direction_masked(sq, diagonal, occ, -1, -1, d);
    } else {
        let a = inner(r, f, 1, 0, 7, 0);
        let b = inner(r, f, -1, 0, 7, 0);
        let c = inner(r, f, 0, 1, 7, 0);
        let d = inner(r, f, 0, -1, 7, 0);
        lemma_union(a, b);
        lemma_union(a | b, c);
        lemma_union(a | b | c, d);
        lemma_direction_masked(sq, diagonal, occ, 1, 0, a);
        lemma_direction_masked(sq, diagonal, occ, -1, 0, b);
        lemma_direction_masked(sq, diagonal, occ, 0, 1, c);
        lemma_direction_masked(sq, diagonal, occ, 0, -1, d);
    }
}

/// The smallest shift that a table is built for: such a table has at most
/// 65536 entries.
pub const MIN_SHIFT: u32 = 48;

/// Whether every square of `x` is a square of `mask`.
pub open spec fn subset(x: u64, mask: u64) -> bool {
    x & !mask == 0
}

/// The subset of `mask` that follows the subset `sub` in the order of
/// numbers; the empty set after `mask` itself.
pub open spec fn next_subset(sub: u64, mask: u64) -> u64 {
    ((((sub | !mask) as u128 + 1) as u128) & mask as u128) as u64
}

/// The subsets of a mask follow each other without a gap.
proof fn lemma_next_subset(a: u64, x: u64, mask: u64)
    by (bit_vector)
    requires
        a & !mask == 0,
        x & !mask == 0,
    ensures
        next_subset(a, mask) & !mask == 0,
        a != mask ==> next_subset(a, mask) > a,
        a < x ==> next_subset(a, mask) <= x,
        a <= mask,
{
}

fn following(sub: u64, mask: u64) -> (r: u64)
    ensures
        r == next_subset(sub, mask),
{
    let wide: u128 = ((sub | !mask) as u128 + 1) & mask as u128;
    assert(wide <= 0xffff_ffff_ffff_ffff) by (bit_vector)
        requires
            wide == (((sub | !mask) as u128 + 1) as u128) & mask as u128,
    ;
    wide as u64
}

/// The place in the table of the blockers `x`: their product with the
/// multiplier modulo 2^64, shifted right.
pub open spec fn slot(x: u64, magic: u64, shift: u32) -> u64 {
    x.wrapping_mul(magic) >> (shift as u64)
}

/// Every place lies in a table of the size that goes with the shift.
proof fn lemma_slot_bound(x: u64, magic: u64, shift: u32)
    requires
        shift < 64,
    ensures
        slot(x, magic, shift) <= 0xffff_ffff_ffff_ffffu64 >> (shift as u64),
{
    let product = x.wrapping_mul(magic);
    let s = shift as u64;
    assert(product >> s <= 0xffff_ffff_ffff_ffffu64 >> s) by (bit_vector);
}

/// Whether the multiplier fails for the square: two arrangements of the
/// blockers with different attack sets have the same place in the table.
pub open spec fn clash(sq: u64, diagonal: bool, magic: u64, shift: u32) -> bool {
    exists|a: u64, b: u64|
        #![trigger slide(sq, diagonal, a), slide(sq, diagonal, b)]
        subset(a, relevant(sq, diagonal)) && subset(b, relevant(sq, diagonal)) && slot(
            a,
            magic,
            shift,
        ) == slot(b, magic, shift) && slide(sq, diagonal, a) != slide(sq, diagonal, b)
}

/// Whether the entry is the magic entry of a bishop (`diagonal`) or a rook
/// on `sq` for the given multiplier and shift: its mask is the relevant
/// mask, its table has a place for every product, and a lookup gives the
/// squares the piece attacks, whatever squares are occupied.
pub open spec fn is_entry(m: Magic, sq: u64, diagonal: bool, magic: u64, shift: u32) -> bool {
    &&& m.wf()
    &&& m.mask == relevant(sq, diagonal)
    &&& m.magic == magic
    &&& m.shift == shift
    &&& m.attacks@.len() == (0xffff_ffff_ffff_ffffu64 >> (shift as u64)) + 1
    &&& forall|occ: u64| #[trigger] m.spec_lookup(occ) == slide(sq, diagonal, occ)
}

/// Builds the magic entry of a bishop (`diagonal`) or a rook on `sq`: the
/// attack set of every arrangement of blockers on the relevant mask goes
/// to its place in the table. `None` where the shift is out of range or
/// the multiplier fails.
pub fn build_magic(sq: u64, diagonal: bool, magic: u64, shift: u32) -> (r: Option<Magic>)
    requires
        sq < 64,
    ensures
        match r {
            Some(m) => is_entry(m, sq, diagonal, magic, shift) && MIN_SHIFT <= shift < 64
                && !clash(sq, diagonal, magic, shift),
            None => shift < MIN_SHIFT || shift >= 64 || clash(sq, diagonal, magic, shift),
        },
{
    if shift < MIN_SHIFT || shift >= 64 {
        return None;
    }
    let mask = relevant_mask(sq, diagonal);
    let wide: u64 = 1u64 << ((64 - shift) as u64);
    let s64: u64 = shift as u64;
    assert(wide == (0xffff_ffff_ffff_ffffu64 >> s64) + 1 && wide <= 65536) by (bit_vector)
        requires
            48 <= s64 < 64,
            wide == 1u64 << ((64 - s64) as u64),
    ;
    let size: usize = wide as usize;
    let mut attacks: Vec<u64> = vec![0u64; size];
    let mut used: Vec<bool> = vec![false; size];
    let ghost mut owner: Seq<u64> = Seq::new(size as nat, |i: int| 0u64);
    let mut sub: u64 = 0;
    assert(subset(0u64, mask)) by (bit_vector);
    loop
        invariant_except_break
            subset(sub, mask),
            forall|x: u64|
                subset(x, mask) && x < sub ==> used@[#[trigger] slot(x, magic, shift) as int]
                    && attacks@[slot(x, magic, shift) as int] == slide(sq, diagonal, x),
        invariant
            sq < 64,
            mask == relevant(sq, diagonal),
            s64 == shift,
            48 <= shift < 64,
            size == (0xffff_ffff_ffff_ffffu64 >> s64) + 1,
            attacks@.len() == size,
            used@.len() == size,
            owner.len() == size,
            forall|i: int|
                0 <= i < size && #[trigger] used@[i] ==> subset(owner[i], mask) && slot(
                    owner[i],
                    magic,
                    shift,
                ) == i && attacks@[i] == slide(sq, diagonal, owner[i]),
        ensures
            forall|x: u64|
                subset(x, mask) ==> used@[#[trigger] slot(x, magic, shift) as int] && attacks@[slot(
                    x,
                    magic,
                    shift,
                ) as int] == slide(sq, diagonal, x),
        decreases mask - sub,
    {
        let a = slide_from(sq, diagonal, sub);
        let product: u64 = sub.wrapping_mul(magic);
        let i: u64 = product >> s64;
        proof {
            lemma_slot_bound(sub, magic, shift);
        }
        let at: usize = i as usize;
        let ghost used_before = used@;
        let ghost attacks_before = attacks@;
        if used[at] {
            if attacks[at] != a {
                proof {
                    assert(slide(sq, diagonal, owner[at as int]) != slide(sq, diagonal, sub));
                }
                return None;
            }
        } else {
            attacks[at] = a;
            used[at] = true;
            proof {
                owner = owner.update(at as int, sub);
            }
        }
        proof {
            assert forall|x: u64| subset(x, mask) && x <= sub implies used@[#[trigger] slot(
                x,
                magic,
                shift,
            ) as int] && attacks@[slot(x, magic, shift) as int] == slide(sq, diagonal, x) by {
                lemma_slot_bound(x, magic, shift);
                if x < sub {
                    assert(used_before[slot(x, magic, shift) as int]);
                    assert(attacks_before[slot(x, magic, shift) as int] == slide(sq, diagonal, x));
                } else {
                    assert(slot(x, magic, shift) == at);
                }
            }
            assert forall|x: u64| subset(x, mask) implies x <= mask by {
                lemma_next_subset(x, x, mask);
            }
        }
        if sub == mask {
            break ;
        }
        let ghost last = sub;
        sub = following(sub, mask);
        proof {
            lemma_next_subset(last, last, mask);
            lemma_next_subset(sub, sub, mask);
            assert forall|x: u64| subset(x, mask) && x < sub implies used@[#[trigger] slot(
                x,
                magic,
                shift,
            ) as int] && attacks@[slot(x, magic, shift) as int] == slide(sq, diagonal, x) by {
                lemma_next_subset(last, x, mask);
            }
        }
    }
    let m = Magic { mask, magic, shift, attacks };
    proof {
        assert forall|occ: u64| #[trigger] m.spec_lookup(occ) == slide(sq, diagonal, occ) by {
            let x = occ & mask;
            assert(subset(x, mask)) by (bit_vector)
                requires
                    x == occ & mask,
            ;
            assert(m.index(occ) == slot(x, magic, shift));
            lemma_slide_masked(sq, diagonal, occ);
        }
        assert(!clash(sq, diagonal, magic, shift)) by {
            assert forall|a: u64, b: u64|
                subset(a, mask) && subset(b, mask) && slot(a, magic, shift) == slot(
                    b,
                    magic,
                    shift,
                ) implies #[trigger] slide(sq, diagonal, a) == #[trigger] slide(
                sq,
                diagonal,
                b,
            ) by {
                assert(used@[slot(a, magic, shift) as int]);
                assert(used@[slot(b, magic, shift) as int]);
            }
        }
    }
    Some(m)
}

/// Whether the tables hold the true attack sets: for each square the
/// squares that a knight, a king and a pawn of either colour attack from
/// it, and for a bishop and a rook a magic entry whose lookup gives the
/// squares attacked, whatever squares are occupied.
pub open spec fn accurate(t: MagicTables) -> bool {
    &&& t.wf()
    &&& forall|sq: u64|
        sq < 64 ==> {
            &&& #[trigger] t.knight@[sq as int] == knight_attacks(sq)
            &&& t.king@[sq as int] == king_attacks(sq)
            &&& t.white_pawn@[sq as int] == pawn_attacks_from(sq, true)
            &&& t.black_pawn@[sq as int] == pawn_attacks_from(sq, false)
        }
    &&& forall|sq: u64, occ: u64|
        sq < 64 ==> #[trigger] t.bishop@[sq as int].spec_lookup(occ) == slide(sq, true, occ)
    &&& forall|sq: u64, occ: u64|
        sq < 64 ==> #[trigger] t.rook@[sq as int].spec_lookup(occ) == slide(sq, false, occ)
}

/// Whether tables can be built from the multipliers and shifts: the
/// shifts are in range, and no multiplier fails for its square.
pub open spec fn buildable(
    bishop_magics: Seq<u64>,
    rook_magics: Seq<u64>,
    bishop_shift: u32,
    rook_shift: u32,
) -> bool {
    &&& MIN_SHIFT <= bishop_shift < 64
    &&& MIN_SHIFT <= rook_shift < 64
    &&& forall|sq: u64|
        sq < 64 ==> !#[trigger] clash(sq, true, bishop_magics[sq as int], bishop_shift)
    &&& forall|sq: u64| sq < 64 ==> !#[trigger] clash(sq, false, rook_magics[sq as int], rook_shift)
}

/// Whether the tables are those built from the multipliers and shifts:
/// they are accurate, and each magic entry is that of its square.
pub open spec fn built_from(
    t: MagicTables,
    bishop_magics: Seq<u64>,
    rook_magics: Seq<u64>,
    bishop_shift: u32,
    rook_shift: u32,
) -> bool {
    &&& accurate(t)
    &&& forall|sq: u64|
        sq < 64 ==> is_entry(
            #[trigger] t.bishop@[sq as int],
            sq,
            true,
            bishop_magics[sq as int],
            bishop_shift,
        )
    &&& forall|sq: u64|
        sq < 64 ==> is_entry(
            #[trigger] t.rook@[sq as int],
            sq,
            false,
            rook_magics[sq as int],
            rook_shift,
        )
}

impl MagicTables {
    /// Builds the attack tables from a multiplier for each square and a
    /// shift for bishops and for rooks. `None` where they do not make
    /// tables.
    pub fn build(
        bishop_magics: &[u64; 64],
        rook_magics: &[u64; 64],
        bishop_shift: u32,
        rook_shift: u32,
    ) -> (r: Option<MagicTables>)
        ensures
            match r {
                Some(t) => built_from(t, bishop_magics@, rook_magics@, bishop_shift, rook_shift)
                    && buildable(bishop_magics@, rook_magics@, bishop_shift, rook_shift),
                None => !buildable(bishop_magics@, rook_magics@, bishop_shift, rook_shift),
            },
    {
        if bishop_shift < MIN_SHIFT || bishop_shift >= 64 || rook_shift < MIN_SHIFT || rook_shift
            >= 64 {
            return None;
        }
        let mut t = MagicTables {
            knight: Vec::new(),
            king: Vec::new(),
            white_pawn: Vec::new(),
            black_pawn: Vec::new(),
            bishop: Vec::new(),
            rook: Vec::new(),
        };
        let mut sq: u64 = 0;
        while sq < 64
            invariant
                sq <= 64,
                MIN_SHIFT <= bishop_shift < 64,
                MIN_SHIFT <= rook_shift < 64,
                t.knight@.len() == sq,
                t.king@.len() == sq,
                t.white_pawn@.len() == sq,
                t.black_pawn@.len() == sq,
                t.bishop@.len() == sq,
                t.rook@.len() == sq,
                forall|s: u64|
                    s < sq ==> {
                        &&& #[trigger] t.knight@[s as int] == knight_attacks(s)
                        &&& t.king@[s as int] == king_attacks(s)
                        &&& t.white_pawn@[s as int] == pawn_attacks_from(s, true)
                        &&& t.black_pawn@[s as int] == pawn_attacks_from(s, false)
                    },
                forall|s: u64|
                    s < sq ==> is_entry(
                        #[trigger] t.bishop@[s as int],
                        s,
                        true,
                        bishop_magics@[s as int],
                        bishop_shift,
                    ),
                forall|s: u64|
                    s < sq ==> is_entry(
                        #[trigger] t.rook@[s as int],
                        s,
                        false,
                        rook_magics@[s as int],
                        rook_shift,
                    ),
                forall|s: u64|
                    s < sq ==> !#[trigger] clash(s, true, bishop_magics@[s as int], bishop_shift),
                forall|s: u64|
                    s < sq ==> !#[trigger] clash(s, false, rook_magics@[s as int], rook_shift),
            decreases 64 - sq,
        {
            let bishop = match build_magic(sq, true, bishop_magics[sq as usize], bishop_shift) {
                Some(m) => m,
                None => {
                    return None;
                },
            };
            let rook = match build_magic(sq, false, rook_magics[sq as usize], rook_shift) {
                Some(m) => m,
                None => {
                    return None;
                },
            };
            t.knight.push(knight_attacks_from(sq));
            t.king.push(king_attacks_from(sq));
            t.white_pawn.push(pawn_attacks_of(sq, true));
            t.black_pawn.push(pawn_attacks_of(sq, false));
            t.bishop.push(bishop);
            t.rook.push(rook);
            sq = sq + 1;
        }
        proof {
            assert forall|s: int| 0 <= s < 64 implies (#[trigger] t.bishop@[s]).wf() by {
                let entry = t.bishop@[(s as u64) as int];
                assert(is_entry(entry, s as u64, true, bishop_magics@[s], bishop_shift));
            }
            assert forall|s: int| 0 <= s < 64 implies (#[trigger] t.rook@[s]).wf() by {
                let entry = t.rook@[(s as u64) as int];
                assert(is_entry(entry, s as u64, false, rook_magics@[s], rook_shift));
            }
            assert forall|s: u64, occ: u64| s < 64 implies #[trigger] t.bishop@[s as int].spec_lookup(
                occ,
            ) == slide(s, true, occ) by {
                let entry = t.bishop@[s as int];
                assert(is_entry(entry, s, true, bishop_magics@[s as int], bishop_shift));
            }
            assert forall|s: u64, occ: u64| s < 64 implies #[trigger] t.rook@[s as int].spec_lookup(
                occ,
            ) == slide(s, false, occ) by {
                let entry = t.rook@[s as int];
                assert(is_entry(entry, s, false, rook_magics@[s as int], rook_shift));
            }
        }
        Some(t)
    }

    /// Builds the attack tables from the multipliers of this crate, with
    /// a shift of 55 for bishops and of 52 for rooks.
    pub fn standard() -> (r: Option<MagicTables>)
        ensures
            match r {
                Some(t) => built_from(
                    t,
                    BISHOP_MAGICS@,
                    ROOK_MAGICS@,
                    BISHOP_SHIFT,
                    ROOK_SHIFT,
                ),
                None => !buildable(BISHOP_MAGICS@, ROOK_MAGICS@, BISHOP_SHIFT, ROOK_SHIFT),
            },
    {
        MagicTables::build(&BISHOP_MAGICS, &ROOK_MAGICS, BISHOP_SHIFT, ROOK_SHIFT)
    }
}

/// The shift of the bishop's tables: nine bits index an attack set.
pub const BISHOP_SHIFT: u32 = 55;

/// The shift of the rook's tables: twelve bits index an attack set.
pub const ROOK_SHIFT: u32 = 52;

/// A multiplier for the bishop on each square.
pub const BISHOP_MAGICS: [u64; 64] = [
    0x0804081001102040, 0x0001048810441840, 0x0022001101000000, 0x6020086020804a00,
    0x0008902000011042, 0x0000102520600010, 0x0200044100820000, 0x4a49090924002000,
    0x0000400088000a80, 0x1220041404a07490, 0x0e40030082008400, 0x0006025005400110,
    0x4460ba48040a0002, 0x0000010800401820, 0x101a102130482000, 0x0088804880402180,
    0x1002000448440221, 0x2008240202460008, 0x9422000484040458, 0x8a08200412008000,
    0x08e0204010400014, 0x8000800040104000, 0x0080101204100400, 0x4009280020140a00,
    0x0408411020148310, 0x0001086048208601, 0x0112004008004108, 0x0002040018010821,
    0x0230104409004000, 0x00040008092021a0, 0x1100424000100800, 0x0141000202031410,
    0x0009011000010481, 0x002048220c084042, 0x4001640400004800, 0x0000202020080080,
    0x8204090200100808, 0x0d41026620100800, 0x2000820040000820, 0x04240c0011010544,
    0x3c00402220c80342, 0x1100401802249100, 0x00d2001660c00990, 0x400118e208000020,
    0x0000008200440a00, 0x0001006022000118, 0x0420010032042412, 0x0000608055c10810,
    0x0000201102080822, 0x0400802401002201, 0x0d042002002f0242, 0x0080001201010000,
    0x000821d020020201, 0x1000100190000810, 0x8048088204000910, 0x02a0404308088000,
    0x9000848040104100, 0x0081080a8a083816, 0x0020000090282802, 0x0208184384220620,
    0x0000001430060130, 0x0281021000720044, 0x2020180e02aa0804, 0x48137102001a4002,
];

/// A multiplier for the rook on each square.
pub const ROOK_MAGICS: [u64; 64] = [
    0x4080024008218010, 0x2040009000200058, 0x0060000500590020, 0x0210010010c00200,
    0x00800a0080280405, 0xc108020004000100, 0x3e00080042002094, 0x2200008041022402,
    0x000008401080a200, 0x0002280024c00122, 0x0010401310408819, 0x0051001000210002,
    0x3200408040020828, 0x000a020008040205, 0x0003008802000401, 0x80450007000140a2,
    0x0110454000200810, 0x1045a06008824430, 0x1002809404081000, 0x0001001004400200,
    0x0004184800085010, 0x0080040082224811, 0x0488008100060020, 0x2238008000d008a1,
    0x08004840200010a4, 0x880a112002029000, 0x0002000480802014, 0x1001884202100002,
    0x08001020020080c4, 0x4800100200480420, 0x0026008300020024, 0x000020e080800100,
    0x2004800040a01220, 0x0280100008408022, 0x0400040040181040, 0x002940020a410044,
    0x8440028120820010, 0x00090c0800800200, 0xa4c1084080f00188, 0x0006840020180040,
    0x0013012080410010, 0x0028008c02000800, 0x0004801000140808, 0x1400400201200408,
    0x0000882004440080, 0x1004108001002200, 0x041001000ca08200, 0x0800600040042008,
    0x0203428832002200, 0x4000392100080013, 0x2002006040040a20, 0x8000040c50260604,
    0x09000200010a8020, 0x0104101082014020, 0x020084080e000068, 0x6000802001801008,
    0x8041800502204011, 0x0001102120884082, 0x0009084020000411, 0x0008102200402086,
    0x020a001c04130802, 0x9501090084000941, 0x0010020104058041, 0x20e8004025008406,
];

} // verus!
