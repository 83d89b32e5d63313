//! The static evaluation: material and piece-square tables, blended
//! between middlegame and endgame by the material left, plus a bonus for
//! the side to move.

use crate::bits::{bit, count_bits, pop_lsb, popcount};
use crate::board::Board;
use crate::search::Ending;
use vstd::prelude::*;

verus! {

/// The bonus, in centipawns, for having the move.
pub const INITIATIVE: i32 = 30;

/// The middlegame value of a pawn on each square, rank 8 first, seen from White.
pub const MG_PAWN_TABLE: [i16; 64] = [
    0, 0, 0, 0, 0, 0, 0, 0,
    98, 134, 61, 95, 68, 126, 34, -11,
    -6, 7, 26, 31, 65, 56, 25, -20,
    -14, 13, 6, 21, 23, 12, 17, -23,
    -27, -2, -5, 12, 17, 6, 10, -25,
    -26, -4, -4, -10, 3, 3, 33, -12,
    -35, -1, -20, -23, -15, 24, 38, -22,
    0, 0, 0, 0, 0, 0, 0, 0,
];

/// The endgame value of a pawn on each square, rank 8 first, seen from White.
pub const EG_PAWN_TABLE: [i16; 64] = [
    0, 0, 0, 0, 0, 0, 0, 0,
    178, 173, 158, 134, 147, 132, 165, 187,
    94, 100, 85, 67, 56, 53, 82, 84,
    32, 24, 13, 5, -2, 4, 17, 17,
    13, 9, -3, -7, -7, -8, 3, -1,
    4, 7, -6, 1, 0, -5, -1, -8,
    13, 8, 8, 10, 13, 0, 2, -7,
    0, 0, 0, 0, 0, 0, 0, 0,
];

/// The middlegame value of a knight on each square, rank 8 first, seen from White.
pub const MG_KNIGHT_TABLE: [i16; 64] = [
    -167, -89, -34, -49, 61, -97, -15, -107,
    -73, -41, 72, 36, 23, 62, 7, -17,
    -47, 60, 37, 65, 84, 129, 73, 44,
    -9, 17, 19, 53, 37, 69, 18, 22,
    -13, 4, 16, 13, 28, 19, 21, -8,
    -23, -9, 12, 10, 19, 17, 25, -16,
    -29, -53, -12, -3, -1, 18, -14, -19,
    -105, -21, -58, -33, -17, -28, -19, -23,
];

/// The endgame value of a knight on each square, rank 8 first, seen from White.
pub const EG_KNIGHT_TABLE: [i16; 64] = [
    -58, -38, -13, -28, -31, -27, -63, -99,
    -25, -8, -25, -2, -9, -25, -24, -52,
    -24, -20, 10, 9, -1, -9, -19, -41,
    -17, 3, 22, 22, 22, 11, 8, -18,
    -18, -6, 16, 25, 16, 17, 4, -18,
    -23, -3, -1, 15, 10, -3, -20, -22,
    -42, -20, -10, -5, -2, -20, -23, -44,
    -29, -51, -23, -15, -22, -18, -50, -64,
];

/// The middlegame value of a bishop on each square, rank 8 first, seen from White.
pub const MG_BISHOP_TABLE: [i16; 64] = [
    -29, 4, -82, -37, -25, -42, 7, -8,
    -26, 16, -18, -13, 30, 59, 18, -47,
    -16, 37, 43, 40, 35, 50, 37, -2,
    -4, 5, 19, 50, 37, 37, 7, -2,
    -6, 13, 13, 26, 34, 12, 10, 4,
    0, 15, 15, 15, 14, 27, 18, 10,
    4, 15, 16, 0, 7, 21, 33, 1,
    -33, -3, -14, -21, -13, -12, -39, -21,
];

/// The endgame value of a bishop on each square, rank 8 first, seen from White.
pub const EG_BISHOP_TABLE: [i16; 64] = [
    -14, -21, -11, -8, -7, -9, -17, -24,
    -8, -4, 7, -12, -3, -13, -4, -14,
    2, -8, 0, -1, -2, 6, 0, 4,
    -3, 9, 12, 9, 14, 10, 3, 2,
    -6, 3, 13, 19, 7, 10, -3, -9,
    -12, -3, 8, 10, 13, 3, -7, -15,
    -14, -18, -7, -1, 4, -9, -15, -27,
    -23, -9, -23, -5, -9, -16, -5, -17,
];

/// The middlegame value of a rook on each square, rank 8 first, seen from White.
pub const MG_ROOK_TABLE: [i16; 64] = [
    32, 42, 32, 51, 63, 9, 31, 43,
    27, 32, 58, 62, 80, 67, 26, 44,
    -5, 19, 26, 36, 17, 45, 61, 16,
    -24, -11, 7, 26, 24, 35, -8, -20,
    -36, -26, -12, -1, 9, -7, 6, -23,
    -45, -25, -16, -17, 3, 0, -5, -33,
    -44, -16, -20, -9, -1, 11, -6, -71,
    -19, -13, 1, 17, 16, 7, -37, -26,
];

/// The endgame value of a rook on each square, rank 8 first, seen from White.
pub const EG_ROOK_TABLE: [i16; 64] = [
    13, 10, 18, 15, 12, 12, 8, 5,
    11, 13, 13, 11, -3, 3, 8, 3,
    7, 7, 7, 5, 4, -3, -5, -3,
    4, 3, 13, 1, 2, 1, -1, 2,
    3, 5, 8, 4, -5, -6, -8, -11,
    -4, 0, -5, -1, -7, -12, -8, -16,
    -6, -6, 0, 2, -9, -9, -11, -3,
    -9, 2, 3, -1, -5, -13, 4, -20,
];

/// The middlegame value of a queen on each square, rank 8 first, seen from White.
pub const MG_QUEEN_TABLE: [i16; 64] = [
    -28, 0, 29, 12, 59, 44, 43, 45,
    -24, -39, -5, 1, -16, 57, 28, 54,
    -13, -17, 7, 8, 29, 56, 47, 57,
    -27, -27, -16, -16, -1, 17, -2, 1,
    -9, -26, -9, -10, -2, -4, 3, -3,
    -14, 2, -11, -2, -5, 2, 14, 5,
    -35, -8, 11, 2, 8, 15, -3, 1,
    -1, -18, -9, 10, -15, -25, -31, -50,
];

/// The endgame value of a queen on each square, rank 8 first, seen from White.
pub const EG_QUEEN_TABLE: [i16; 64] = [
    -9, 22, 22, 27, 27, 19, 10, 20,
    -17, 20, 32, 41, 58, 25, 30, 0,
    -20, 6, 9, 49, 47, 35, 19, 9,
    3, 22, 24, 45, 57, 40, 57, 36,
    -18, 28, 19, 47, 31, 34, 39, 23,
    -16, -27, 15, 6, 9, 17, 10, 5,
    -22, -23, -30, -16, -16, -23, -36, -32,
    -33, -28, -22, -43, -5, -32, -20, -41,
];

/// The middlegame value of a king on each square, rank 8 first, seen from White.
pub const MG_KING_TABLE: [i16; 64] = [
    -65, 23, 16, -15, -56, -34, 2, 13,
    29, -1, -20, -7, -8, -4, -38, -29,
    -9, 24, 2, -16, -20, 6, 22, -22,
    -17, -20, -12, -27, -30, -25, -14, -36,
    -49, -1, -27, -39, -46, -44, -33, -51,
    -14, -14, -22, -46, -44, -30, -15, -27,
    1, 7, -8, -64, -43, -16, 9, 8,
    -15, 36, 12, -54, 8, -28, 24, 14,
];

/// The endgame value of a king on each square, rank 8 first, seen from White.
pub const EG_KING_TABLE: [i16; 64] = [
    -74, -35, -18, -18, -11, 15, 4, -17,
    -12, 17, 14, 17, 17, 38, 23, 11,
    10, 17, 23, 15, 20, 45, 44, 13,
    -8, 22, 24, 27, 26, 33, 26, 3,
    -18, -4, 21, 24, 27, 23, 9, -11,
    -19, -3, 11, 21, 23, 16, 7, -9,
    -27, -11, 4, 13, 14, 4, -5, -17,
    -53, -34, -21, -11, -28, -14, -24, -43,
];

pub const MG_P_VAL: i32 = 82;

pub const EG_P_VAL: i32 = 94;

pub const MG_N_VAL: i32 = 337;

pub const EG_N_VAL: i32 = 281;

pub const MG_B_VAL: i32 = 365;

pub const EG_B_VAL: i32 = 297;

pub const MG_R_VAL: i32 = 477;

pub const EG_R_VAL: i32 = 512;

pub const MG_Q_VAL: i32 = 1025;

pub const EG_Q_VAL: i32 = 936;

/// The entry of a piece-square table for a piece on square `sq`: the
/// tables are written from White's side with rank 8 first, so White's
/// squares are mirrored top to bottom and Black's are read as they stand.
pub open spec fn table_index(sq: int, white: bool) -> int {
    if white {
        (7 - sq / 8) * 8 + sq % 8
    } else {
        sq
    }
}

/// The sum of the table values of the squares below `upto` that `bb`
/// holds.
pub open spec fn table_sum(bb: u64, table: Seq<i16>, white: bool, upto: nat) -> int
    decreases upto,
{
    if upto == 0 {
        0
    } else {
        table_sum(bb, table, white, (upto - 1) as nat) + if bit(bb, (upto - 1) as u64) {
            table[table_index(upto - 1, white)] as int
        } else {
            0
        }
    }
}

/// The piece-square value of one side in one phase: the sum over its six
/// kinds of piece.
pub open spec fn pesto(b: Board, white: bool, mg: bool) -> int {
    if white {
        if mg {
            table_sum(b.w_p_bb, MG_PAWN_TABLE@, true, 64) + table_sum(
                b.w_n_bb,
                MG_KNIGHT_TABLE@,
                true,
                64,
            ) + table_sum(b.w_b_bb, MG_BISHOP_TABLE@, true, 64) + table_sum(
                b.w_r_bb,
                MG_ROOK_TABLE@,
                true,
                64,
            ) + table_sum(b.w_q_bb, MG_QUEEN_TABLE@, true, 64) + table_sum(
                b.w_k_bb,
                MG_KING_TABLE@,
                true,
                64,
            )
        } else {
            table_sum(b.w_p_bb, EG_PAWN_TABLE@, true, 64) + table_sum(
                b.w_n_bb,
                EG_KNIGHT_TABLE@,
                true,
                64,
            ) + table_sum(b.w_b_bb, EG_BISHOP_TABLE@, true, 64) + table_sum(
                b.w_r_bb,
                EG_ROOK_TABLE@,
                true,
                64,
            ) + table_sum(b.w_q_bb, EG_QUEEN_TABLE@, true, 64) + table_sum(
                b.w_k_bb,
                EG_KING_TABLE@,
                true,
                64,
            )
        }
    } else {
        if mg {
            table_sum(b.b_p_bb, MG_PAWN_TABLE@, false, 64) + table_sum(
                b.b_n_bb,
                MG_KNIGHT_TABLE@,
                false,
                64,
            ) + table_sum(b.b_b_bb, MG_BISHOP_TABLE@, false, 64) + table_sum(
                b.b_r_bb,
                MG_ROOK_TABLE@,
                false,
                64,
            ) + table_sum(b.b_q_bb, MG_QUEEN_TABLE@, false, 64) + table_sum(
                b.b_k_bb,
                MG_KING_TABLE@,
                false,
                64,
            )
        } else {
            table_sum(b.b_p_bb, EG_PAWN_TABLE@, false, 64) + table_sum(
                b.b_n_bb,
                EG_KNIGHT_TABLE@,
                false,
                64,
            ) + table_sum(b.b_b_bb, EG_BISHOP_TABLE@, false, 64) + table_sum(
                b.b_r_bb,
                EG_ROOK_TABLE@,
                false,
                64,
            ) + table_sum(b.b_q_bb, EG_QUEEN_TABLE@, false, 64) + table_sum(
                b.b_k_bb,
                EG_KING_TABLE@,
                false,
                64,
            )
        }
    }
}

/// The material of one side in one phase: pawn 82 or 94, knight 337 or
/// 281, bishop 365 or 297, rook 477 or 512, queen 1025 or 936. The king
/// has no price.
pub open spec fn material(b: Board, white: bool, mg: bool) -> int {
    let p = popcount(if white { b.w_p_bb } else { b.b_p_bb });
    let n = popcount(if white { b.w_n_bb } else { b.b_n_bb });
    let bi = popcount(if white { b.w_b_bb } else { b.b_b_bb });
    let r = popcount(if white { b.w_r_bb } else { b.b_r_bb });
    let q = popcount(if white { b.w_q_bb } else { b.b_q_bb });
    if mg {
        (p * 82 + n * 337 + bi * 365 + r * 477 + q * 1025) as int
    } else {
        (p * 94 + n * 281 + bi * 297 + r * 512 + q * 936) as int
    }
}

/// The phase of the game from 24, the middlegame, down to 0, the endgame:
/// one for each knight and bishop, two for each rook and four for each
/// queen, at most 24.
pub open spec fn phase(b: Board) -> int {
    let count = popcount(b.w_n_bb) + popcount(b.b_n_bb) + popcount(b.w_b_bb) + popcount(b.b_b_bb)
        + 2 * popcount(b.w_r_bb) + 2 * popcount(b.b_r_bb) + 4 * popcount(b.w_q_bb) + 4 * popcount(
        b.b_q_bb,
    );
    if count < 24 {
        count as int
    } else {
        24
    }
}

/// The quotient of a division by 24 that rounds toward zero.
pub open spec fn toward_zero_24(x: int) -> int {
    if x >= 0 {
        x / 24
    } else {
        -((-x) / 24)
    }
}

/// The centipawn estimate of a position, from White's side: for each side
/// material and piece-square value in both phases, White's less Black's,
/// blended by the phase, plus 30 if White is to move and less 30 if Black
/// is.
pub open spec fn centipawns(b: Board) -> int {
    let mg = material(b, true, true) + pesto(b, true, true) - material(b, false, true) - pesto(
        b,
        false,
        true,
    );
    let eg = material(b, true, false) + pesto(b, true, false) - material(b, false, false) - pesto(
        b,
        false,
        false,
    );
    toward_zero_24(phase(b) * mg + (24 - phase(b)) * eg) + if b.is_w_move {
        30int
    } else {
        -30int
    }
}

/// The sum stays where it is over squares that the bitboard does not
/// hold.
proof fn lemma_table_sum_skip(bb: u64, table: Seq<i16>, white: bool, from: nat, upto: nat)
    requires
        from <= upto <= 64,
        forall|s: u64| from <= s < upto ==> !bit(bb, s),
    ensures
        table_sum(bb, table, white, upto) == table_sum(bb, table, white, from),
    decreases upto - from,
{
    if from < upto {
        assert(!bit(bb, (upto - 1) as u64));
        lemma_table_sum_skip(bb, table, white, from, (upto - 1) as nat);
    }
}

/// The sum over the squares of one bitboard of their table values.
fn table_score(bb: u64, table: &[i16; 64], white: bool) -> (score: i32)
    ensures
        score == table_sum(bb, table@, white, 64),
        -64 * 32768 <= score <= 64 * 32768,
{
    let mut rest: u64 = bb;
    let mut score: i32 = 0;
    let mut done: u64 = 0;
    while rest != 0
        invariant
            done <= 64,
            forall|s: u64| s < 64 ==> (#[trigger] bit(rest, s) <==> bit(bb, s) && s >= done),
            score == table_sum(bb, table@, white, done as nat),
            -(done as int) * 32768 <= score <= done * 32768,
        decreases rest,
    {
        let (pos, left) = pop_lsb(rest);
        let idx: u64 = if white {
            (7 - pos / 8) * 8 + pos % 8
        } else {
            pos
        };
        proof {
            assert forall|s: u64| done <= s < pos implies !bit(bb, s) by {
                assert(!bit(rest, s));
            }
            lemma_table_sum_skip(bb, table@, white, done as nat, pos as nat);
            assert(bit(bb, pos));
            assert(table_sum(bb, table@, white, (pos + 1) as nat) == table_sum(
                bb,
                table@,
                white,
                pos as nat,
            ) + table@[table_index(pos as int, white)] as int);
        }
        score = score + table[idx as usize] as i32;
        done = pos + 1;
        rest = left;
    }
    proof {
        crate::bits::lemma_empty();
        assert forall|s: u64| done <= s < 64 implies !bit(bb, s) by {
            assert(!bit(rest, s));
        }
        lemma_table_sum_skip(bb, table@, white, done as nat, 64);
    }
    score
}

/// The piece-square value of one side (`is_w_move` for White) in the
/// middlegame (`is_mg_phase`) or the endgame.
pub fn pesto_score(board: &Board, is_w_move: bool, is_mg_phase: bool) -> (score: i32)
    ensures
        score == pesto(*board, is_w_move, is_mg_phase),
        -6 * 64 * 32768 <= score <= 6 * 64 * 32768,
{
    let p = if is_w_move {
        board.w_p_bb
    } else {
        board.b_p_bb
    };
    let n = if is_w_move {
        board.w_n_bb
    } else {
        board.b_n_bb
    };
    let b = if is_w_move {
        board.w_b_bb
    } else {
        board.b_b_bb
    };
    let r = if is_w_move {
        board.w_r_bb
    } else {
        board.b_r_bb
    };
    let q = if is_w_move {
        board.w_q_bb
    } else {
        board.b_q_bb
    };
    let k = if is_w_move {
        board.w_k_bb
    } else {
        board.b_k_bb
    };
    if is_mg_phase {
        table_score(p, &MG_PAWN_TABLE, is_w_move) + table_score(n, &MG_KNIGHT_TABLE, is_w_move)
            + table_score(b, &MG_BISHOP_TABLE, is_w_move) + table_score(
            r,
            &MG_ROOK_TABLE,
            is_w_move,
        ) + table_score(q, &MG_QUEEN_TABLE, is_w_move) + table_score(k, &MG_KING_TABLE, is_w_move)
    } else {
        table_score(p, &EG_PAWN_TABLE, is_w_move) + table_score(n, &EG_KNIGHT_TABLE, is_w_move)
            + table_score(b, &EG_BISHOP_TABLE, is_w_move) + table_score(
            r,
            &EG_ROOK_TABLE,
            is_w_move,
        ) + table_score(q, &EG_QUEEN_TABLE, is_w_move) + table_score(k, &EG_KING_TABLE, is_w_move)
    }
}

/// The material of one side in one phase.
fn material_score(board: &Board, white: bool, mg: bool) -> (score: i32)
    ensures
        score == material(*board, white, mg),
        0 <= score <= 64 * 2400,
{
    let p = count_bits(if white { board.w_p_bb } else { board.b_p_bb }) as i32;
    let n = count_bits(if white { board.w_n_bb } else { board.b_n_bb }) as i32;
    let b = count_bits(if white { board.w_b_bb } else { board.b_b_bb }) as i32;
    let r = count_bits(if white { board.w_r_bb } else { board.b_r_bb }) as i32;
    let q = count_bits(if white { board.w_q_bb } else { board.b_q_bb }) as i32;
    if mg {
        p * MG_P_VAL + n * MG_N_VAL + b * MG_B_VAL + r * MG_R_VAL + q * MG_Q_VAL
    } else {
        p * EG_P_VAL + n * EG_N_VAL + b * EG_B_VAL + r * EG_R_VAL + q * EG_Q_VAL
    }
}

/// The phase of the game.
fn game_phase(board: &Board) -> (ph: i32)
    ensures
        ph == phase(*board),
        0 <= ph <= 24,
{
    let count: u32 = count_bits(board.w_n_bb) + count_bits(board.b_n_bb) + count_bits(
        board.w_b_bb,
    ) + count_bits(board.b_b_bb) + count_bits(board.w_r_bb) * 2 + count_bits(board.b_r_bb) * 2
        + count_bits(board.w_q_bb) * 4 + count_bits(board.b_q_bb) * 4;
    if count < 24 {
        count as i32
    } else {
        24
    }
}

/// Divides by 24, rounding toward zero.
fn div_24(x: i32) -> (q: i32)
    requires
        x > i32::MIN,
    ensures
        q == toward_zero_24(x as int),
        -(x as int) <= q <= x || x <= q <= -(x as int),
{
    if x >= 0 {
        ((x as u32) / 24) as i32
    } else {
        -((((-x) as u32) / 24) as i32)
    }
}

/// The ending that the position itself decides: a draw once fifty
/// halfmoves have passed without a pawn's move or a capture.
pub open spec fn ending_of(b: Board) -> Option<Ending> {
    if b.halfmove_clock >= 50 {
        Some(Ending::Draw)
    } else {
        None
    }
}

/// Evaluates a position: whether the halfmove clock has drawn the game,
/// and the centipawn estimate from White's side.
pub fn evaluate(board: &Board) -> (r: (Option<Ending>, i32))
    ensures
        r.0 == ending_of(*board),
        r.1 == centipawns(*board),
{
    let end = eval_ending(board);
    let w_mg = material_score(board, true, true) + pesto_score(board, true, true);
    let w_eg = material_score(board, true, false) + pesto_score(board, true, false);
    let b_mg = material_score(board, false, true) + pesto_score(board, false, true);
    let b_eg = material_score(board, false, false) + pesto_score(board, false, false);
    let ph = game_phase(board);
    let mg: i32 = w_mg - b_mg;
    let eg: i32 = w_eg - b_eg;
    assert(-24 * 30_000_000 <= ph * mg <= 24 * 30_000_000) by (nonlinear_arith)
        requires
            0 <= ph <= 24,
            -30_000_000 <= mg <= 30_000_000,
    ;
    assert(-24 * 30_000_000 <= (24 - ph) * eg <= 24 * 30_000_000) by (nonlinear_arith)
        requires
            0 <= ph <= 24,
            -30_000_000 <= eg <= 30_000_000,
    ;
    assert(-24 * 30_000_000 <= ph * mg + (24 - ph) * eg <= 24 * 30_000_000) by (nonlinear_arith)
        requires
            0 <= ph <= 24,
            -30_000_000 <= mg <= 30_000_000,
            -30_000_000 <= eg <= 30_000_000,
    ;
    let blended: i32 = ph * mg + (24 - ph) * eg;
    let cp = div_24(blended) + if board.is_w_move {
        INITIATIVE
    } else {
        -INITIATIVE
    };
    (end, cp)
}

/// Whether the halfmove clock has drawn the game.
pub fn eval_ending(board: &Board) -> (r: Option<Ending>)
    ensures
        r == ending_of(*board),
{
    if board.halfmove_clock >= 50 {
        Some(Ending::Draw)
    } else {
        None
    }
}

} // verus!
