//! What it means that a square is attacked: with accurate tables, the test
//! from the attacked square outwards finds an attacker exactly if some
//! piece of the attacking side attacks the square.

use crate::attacks::{
    accurate, king_attacks, knight_attacks, leap, on_board, pawn_attacks_from, ray, slide,
    square_of,
};
use crate::bits::{
    bit, lemma_difference, lemma_empty, lemma_extensional_zero, lemma_intersection, lemma_mask,
    lemma_union, square_mask,
};
use crate::board::{Board, PieceType, lemma_bitboard_squares, lemma_side_squares};
use crate::magic::MagicTables;
use crate::board::Move;
use crate::move_gen::{
    Candidate, attacked, castle_squares, enemy_king, king_square, legal,
    lemma_generated_king_safe, lemma_kings_stay, lemma_pseudo_legal_admits, lists, occupied,
    officer_targets, own_pieces, pseudo_legal, ready,
};
use vstd::prelude::*;

verus! {

/// The squares that the piece `pt` attacks from `s` when the squares `occ`
/// are occupied.
pub open spec fn attack_set(pt: PieceType, s: u64, occ: u64) -> u64 {
    match pt {
        PieceType::WP => pawn_attacks_from(s, true),
        PieceType::BP => pawn_attacks_from(s, false),
        PieceType::WN | PieceType::BN => knight_attacks(s),
        PieceType::WB | PieceType::BB => slide(s, true, occ),
        PieceType::WR | PieceType::BR => slide(s, false, occ),
        PieceType::WQ | PieceType::BQ => slide(s, true, occ) | slide(s, false, occ),
        PieceType::WK | PieceType::BK => king_attacks(s),
    }
}

/// Whether the piece on `s` is one of White (`by_white`) or of Black that
/// attacks the square `sq`.
pub open spec fn attacks_from(b: Board, by_white: bool, s: u64, sq: u64) -> bool {
    b@.squares[s as int] matches Some(p) && p.is_white() == by_white && bit(
        attack_set(p, s, occupied(b)),
        sq,
    )
}

/// Whether some piece of White (`by_white`) or of Black attacks the square
/// `sq`.
pub open spec fn attacked_by(b: Board, by_white: bool, sq: u64) -> bool {
    exists|s: u64| s < 64 && #[trigger] attacks_from(b, by_white, s, sq)
}

/// A bitboard is not empty exactly if it holds a square.
proof fn lemma_nonzero(x: u64)
    ensures
        x != 0 <==> exists|s: u64| s < 64 && #[trigger] bit(x, s),
{
    if x != 0 {
        if forall|s: u64| s < 64 ==> !#[trigger] bit(x, s) {
            lemma_extensional_zero(x);
        }
    } else {
        lemma_empty();
    }
}

/// A leap leads to a square exactly if the opposite leap leads back.
proof fn lemma_leap(a: u64, b: u64, dr: int, df: int)
    requires
        a < 64,
        b < 64,
    ensures
        bit(leap(a, dr, df), b) <==> (b / 8 == a / 8 + dr && b % 8 == a % 8 + df),
        bit(leap(a, dr, df), b) <==> bit(leap(b, -dr, -df), a),
{
    lemma_empty();
    if on_board(a / 8 + dr, a % 8 + df) {
        lemma_mask(square_of(a / 8 + dr, a % 8 + df));
    }
    if on_board(b / 8 - dr, b % 8 - df) {
        lemma_mask(square_of(b / 8 - dr, b % 8 - df));
    }
}

/// A knight attacks a square exactly if a knight on that square attacks
/// its own.
proof fn lemma_knight_symmetry(a: u64, b: u64)
    requires
        a < 64,
        b < 64,
    ensures
        bit(knight_attacks(a), b) <==> bit(knight_attacks(b), a),
{
    lemma_leap(a, b, 1, 2);
    lemma_leap(a, b, 2, 1);
    lemma_leap(a, b, -1, 2);
    lemma_leap(a, b, -2, 1);
    lemma_leap(a, b, 1, -2);
    lemma_leap(a, b, 2, -1);
    lemma_leap(a, b, -1, -2);
    lemma_leap(a, b, -2, -1);
    lemma_union8(
        leap(a, 1, 2),
        leap(a, 2, 1),
        leap(a, -1, 2),
        leap(a, -2, 1),
        leap(a, 1, -2),
        leap(a, 2, -1),
        leap(a, -1, -2),
        leap(a, -2, -1),
    );
    lemma_union8(
        leap(b, 1, 2),
        leap(b, 2, 1),
        leap(b, -1, 2),
        leap(b, -2, 1),
        leap(b, 1, -2),
        leap(b, 2, -1),
        leap(b, -1, -2),
        leap(b, -2, -1),
    );
}

/// A king attacks a square exactly if a king on that square attacks its
/// own.
proof fn lemma_king_symmetry(a: u64, b: u64)
    requires
        a < 64,
        b < 64,
    ensures
        bit(king_attacks(a), b) <==> bit(king_attacks(b), a),
{
    lemma_leap(a, b, 1, 0);
    lemma_leap(a, b, 1, 1);
    lemma_leap(a, b, 0, 1);
    lemma_leap(a, b, -1, 1);
    lemma_leap(a, b, -1, 0);
    lemma_leap(a, b, -1, -1);
    lemma_leap(a, b, 0, -1);
    lemma_leap(a, b, 1, -1);
    lemma_union8(
        leap(a, 1, 0),
        leap(a, 1, 1),
        leap(a, 0, 1),
        leap(a, -1, 1),
        leap(a, -1, 0),
        leap(a, -1, -1),
        leap(a, 0, -1),
        leap(a, 1, -1),
    );
    lemma_union8(
        leap(b, 1, 0),
        leap(b, 1, 1),
        leap(b, 0, 1),
        leap(b, -1, 1),
        leap(b, -1, 0),
        leap(b, -1, -1),
        leap(b, 0, -1),
        leap(b, 1, -1),
    );
}

/// A pawn attacks a square exactly if a pawn of the other colour on that
/// square attacks its own.
proof fn lemma_pawn_symmetry(a: u64, b: u64, white: bool)
    requires
        a < 64,
        b < 64,
    ensures
        bit(pawn_attacks_from(a, white), b) <==> bit(pawn_attacks_from(b, !white), a),
{
    lemma_leap(a, b, 1, -1);
    lemma_leap(a, b, 1, 1);
    lemma_leap(a, b, -1, -1);
    lemma_leap(a, b, -1, 1);
    lemma_union(leap(a, 1, -1), leap(a, 1, 1));
    lemma_union(leap(a, -1, -1), leap(a, -1, 1));
    lemma_union(leap(b, 1, -1), leap(b, 1, 1));
    lemma_union(leap(b, -1, -1), leap(b, -1, 1));
}

/// A union of eight holds the squares of any of them.
proof fn lemma_union8(a: u64, b: u64, c: u64, d: u64, e: u64, f: u64, g: u64, h: u64)
    ensures
        forall|s: u64|
            s < 64 ==> (#[trigger] bit(a | b | c | d | e | f | g | h, s) <==> bit(a, s) || bit(b, s)
                || bit(c, s) || bit(d, s) || bit(e, s) || bit(f, s) || bit(g, s) || bit(h, s)),
{
    lemma_union(a, b);
    lemma_union(a | b, c);
    lemma_union(a | b | c, d);
    lemma_union(a | b | c | d, e);
    lemma_union(a | b | c | d | e, f);
    lemma_union(a | b | c | d | e | f, g);
    lemma_union(a | b | c | d | e | f | g, h);
}

/// Whether the square `s` is seen from a square along one direction
/// within `n` steps: it is reached over empty squares.
pub open spec fn sees(rank: int, file: int, dr: int, df: int, occ: u64, n: nat, s: u64) -> bool
    decreases n,
{
    n > 0 && on_board(rank + dr, file + df) && (s == square_of(rank + dr, file + df) || (!bit(
        occ,
        square_of(rank + dr, file + df),
    ) && sees(rank + dr, file + df, dr, df, occ, (n - 1) as nat, s)))
}

/// The squares of a ray are those seen along it.
proof fn lemma_ray_sees(
    rank: int,
    file: int,
    dr: int,
    df: int,
    occ: u64,
    n: nat,
    seen: u64,
    s: u64,
)
    requires
        on_board(rank, file),
        s < 64,
    ensures
        bit(ray(rank, file, dr, df, occ, n, seen), s) <==> bit(seen, s) || sees(
            rank,
            file,
            dr,
            df,
            occ,
            n,
            s,
        ),
    decreases n,
{
    if n > 0 && on_board(rank + dr, file + df) {
        let next = square_of(rank + dr, file + df);
        lemma_union(seen, square_mask(next));
        lemma_mask(next);
        if !bit(occ, next) {
            lemma_ray_sees(
                rank + dr,
                file + df,
                dr,
                df,
                occ,
                (n - 1) as nat,
                seen | square_mask(next),
                s,
            );
        }
    }
}

/// A line of sight that ends on an empty square with a square behind it
/// reaches that square too.
proof fn lemma_sees_further(
    rank: int,
    file: int,
    dr: int,
    df: int,
    occ: u64,
    n: nat,
    tr: int,
    tf: int,
)
    requires
        on_board(rank, file),
        on_board(tr, tf),
        on_board(tr + dr, tf + df),
        sees(rank, file, dr, df, occ, n, square_of(tr, tf)),
        !bit(occ, square_of(tr, tf)),
    ensures
        sees(rank, file, dr, df, occ, n + 1, square_of(tr + dr, tf + df)),
    decreases n,
{
    let next = square_of(rank + dr, file + df);
    if square_of(tr, tf) == next {
        assert(tr == rank + dr && tf == file + df);
        assert(sees(tr, tf, dr, df, occ, n, square_of(tr + dr, tf + df)));
    } else {
        lemma_sees_further(rank + dr, file + df, dr, df, occ, (n - 1) as nat, tr, tf);
    }
}

/// A square seen along a direction sees back along the opposite
/// direction.
proof fn lemma_sees_back(
    rank: int,
    file: int,
    dr: int,
    df: int,
    occ: u64,
    n: nat,
    tr: int,
    tf: int,
)
    requires
        on_board(rank, file),
        on_board(tr, tf),
        sees(rank, file, dr, df, occ, n, square_of(tr, tf)),
    ensures
        sees(tr, tf, -dr, -df, occ, n, square_of(rank, file)),
    decreases n,
{
    let next = square_of(rank + dr, file + df);
    if square_of(tr, tf) == next {
        assert(tr == rank + dr && tf == file + df);
    } else {
        lemma_sees_back(rank + dr, file + df, dr, df, occ, (n - 1) as nat, tr, tf);
        lemma_sees_further(tr, tf, -dr, -df, occ, (n - 1) as nat, rank + dr, file + df);
    }
}

/// Along one direction a square is on the ray from another exactly if the
/// other is on the ray back.
proof fn lemma_ray_symmetry(a: u64, b: u64, dr: int, df: int, occ: u64)
    requires
        a < 64,
        b < 64,
    ensures
        bit(ray((a / 8) as int, (a % 8) as int, dr, df, occ, 7, 0), b) <==> bit(
            ray((b / 8) as int, (b % 8) as int, -dr, -df, occ, 7, 0),
            a,
        ),
{
    let ar = (a / 8) as int;
    let af = (a % 8) as int;
    let br = (b / 8) as int;
    let bf = (b % 8) as int;
    lemma_empty();
    lemma_ray_sees(ar, af, dr, df, occ, 7, 0, b);
    lemma_ray_sees(br, bf, -dr, -df, occ, 7, 0, a);
    assert(square_of(ar, af) == a && square_of(br, bf) == b);
    if sees(ar, af, dr, df, occ, 7, b) {
        lemma_sees_back(ar, af, dr, df, occ, 7, br, bf);
    }
    if sees(br, bf, -dr, -df, occ, 7, a) {
        lemma_sees_back(br, bf, -dr, -df, occ, 7, ar, af);
    }
}

/// A sliding piece attacks a square exactly if such a piece on that
/// square attacks its own.
proof fn lemma_slide_symmetry(a: u64, b: u64, diagonal: bool, occ: u64)
    requires
        a < 64,
        b < 64,
    ensures
        bit(slide(a, diagonal, occ), b) <==> bit(slide(b, diagonal, occ), a),
{
    let ar = (a / 8) as int;
    let af = (a % 8) as int;
    let br = (b / 8) as int;
    let bf = (b % 8) as int;
    if diagonal {
        lemma_ray_symmetry(a, b, 1, 1, occ);
        lemma_ray_symmetry(a, b, 1, -1, occ);
        lemma_ray_symmetry(a, b, -1, 1, occ);
        lemma_ray_symmetry(a, b, -1, -1, occ);
        lemma_union4(
            ray(ar, af, 1, 1, occ, 7, 0),
            ray(ar, af, 1, -1, occ, 7, 0),
            ray(ar, af, -1, 1, occ, 7, 0),
            ray(ar, af, -1, -1, occ, 7, 0),
        );
        lemma_union4(
            ray(br, bf, 1, 1, occ, 7, 0),
            ray(br, bf, 1, -1, occ, 7, 0),
            ray(br, bf, -1, 1, occ, 7, 0),
            ray(br, bf, -1, -1, occ, 7, 0),
        );
    } else {
        lemma_ray_symmetry(a, b, 1, 0, occ);
        lemma_ray_symmetry(a, b, -1, 0, occ);
        lemma_ray_symmetry(a, b, 0, 1, occ);
        lemma_ray_symmetry(a, b, 0, -1, occ);
        lemma_union4(
            ray(ar, af, 1, 0, occ, 7, 0),
            ray(ar, af, -1, 0, occ, 7, 0),
            ray(ar, af, 0, 1, occ, 7, 0),
            ray(ar, af, 0, -1, occ, 7, 0),
        );
        lemma_union4(
            ray(br, bf, 1, 0, occ, 7, 0),
            ray(br, bf, -1, 0, occ, 7, 0),
            ray(br, bf, 0, 1, occ, 7, 0),
            ray(br, bf, 0, -1, occ, 7, 0),
        );
    }
}

/// A union of four holds the squares of any of them.
proof fn lemma_union4(a: u64, b: u64, c: u64, d: u64)
    ensures
        forall|s: u64|
            s < 64 ==> (#[trigger] bit(a | b | c | d, s) <==> bit(a, s) || bit(b, s) || bit(c, s)
                || bit(d, s)),
{
    lemma_union(a, b);
    lemma_union(a | b, c);
    lemma_union(a | b | c, d);
}

/// A piece attacks a square exactly if a piece that moves like it, of the
/// other colour if it is a pawn, would attack its square from there.
pub proof fn lemma_attack_symmetry(pt: PieceType, s: u64, sq: u64, occ: u64)
    requires
        s < 64,
        sq < 64,
    ensures
        bit(attack_set(pt, s, occ), sq) <==> bit(
            attack_set(
                match pt {
                    PieceType::WP => PieceType::BP,
                    PieceType::BP => PieceType::WP,
                    other => other,
                },
                sq,
                occ,
            ),
            s,
        ),
{
    lemma_pawn_symmetry(s, sq, true);
    lemma_pawn_symmetry(s, sq, false);
    lemma_knight_symmetry(s, sq);
    lemma_king_symmetry(s, sq);
    lemma_slide_symmetry(s, sq, true, occ);
    lemma_slide_symmetry(s, sq, false, occ);
    lemma_union(slide(s, true, occ), slide(s, false, occ));
    lemma_union(slide(sq, true, occ), slide(sq, false, occ));
}

/// Whether the attack set `reach`, less the squares `ally`, meets the
/// pieces `enemy`.
spec fn meets(reach: u64, ally: u64, enemy: u64) -> bool {
    (reach & !ally) & enemy != 0
}

/// An attack set less the own pieces meets enemy pieces exactly if it
/// holds the square of one.
proof fn lemma_meets(reach: u64, ally: u64, enemy: u64)
    requires
        forall|s: u64| s < 64 && bit(enemy, s) ==> !bit(ally, s),
    ensures
        meets(reach, ally, enemy) <==> exists|s: u64|
            s < 64 && #[trigger] bit(enemy, s) && bit(reach, s),
{
    let x = (reach & !ally) & enemy;
    lemma_nonzero(x);
    lemma_intersection(reach & !ally, enemy);
    lemma_difference(reach, ally);
    if x != 0 {
        let s = choose|s: u64| s < 64 && #[trigger] bit(x, s);
        assert(bit(enemy, s) && bit(reach, s));
    }
    if exists|s: u64| s < 64 && #[trigger] bit(enemy, s) && bit(reach, s) {
        let s = choose|s: u64| s < 64 && #[trigger] bit(enemy, s) && bit(reach, s);
        assert(bit(x, s));
    }
}

/// With accurate tables, the test that looks from a square outwards, as if
/// a piece that moves like every piece stood there, finds an attacker
/// exactly if some piece of the attacking side attacks the square.
pub proof fn lemma_attacked_by(b: Board, t: MagicTables, by_white: bool, sq: u64)
    requires
        b.wf(),
        accurate(t),
        sq < 64,
    ensures
        attacked(b, t, by_white, sq) <==> attacked_by(b, by_white, sq),
{
    let occ = occupied(b);
    let ally = if by_white {
        b.spec_black()
    } else {
        b.spec_white()
    };
    let pawn = if by_white {
        PieceType::WP
    } else {
        PieceType::BP
    };
    let knight = if by_white {
        PieceType::WN
    } else {
        PieceType::BN
    };
    let bishop = if by_white {
        PieceType::WB
    } else {
        PieceType::BB
    };
    let rook = if by_white {
        PieceType::WR
    } else {
        PieceType::BR
    };
    let queen = if by_white {
        PieceType::WQ
    } else {
        PieceType::BQ
    };
    let king = if by_white {
        PieceType::WK
    } else {
        PieceType::BK
    };
    let diagonal = b.bb(bishop) | b.bb(queen);
    let straight = b.bb(rook) | b.bb(queen);
    assert(t.knight@[sq as int] == knight_attacks(sq));
    assert(t.bishop@[sq as int].spec_lookup(occ) == slide(sq, true, occ));
    assert(t.rook@[sq as int].spec_lookup(occ) == slide(sq, false, occ));
    lemma_union(b.bb(bishop), b.bb(queen));
    lemma_union(b.bb(rook), b.bb(queen));
    assert forall|s: u64| s < 64 implies {
        &&& (bit(b.bb(pawn), s) <==> b@.squares[s as int] == Some(pawn))
        &&& (bit(b.bb(knight), s) <==> b@.squares[s as int] == Some(knight))
        &&& (bit(diagonal, s) <==> b@.squares[s as int] == Some(bishop) || b@.squares[s as int]
            == Some(queen))
        &&& (bit(straight, s) <==> b@.squares[s as int] == Some(rook) || b@.squares[s as int]
            == Some(queen))
        &&& (bit(b.bb(king), s) <==> b@.squares[s as int] == Some(king))
        &&& (#[trigger] bit(ally, s) <==> (b@.squares[s as int] matches Some(p) && p.is_white()
            != by_white))
    } by {
        lemma_bitboard_squares(b, pawn, s);
        lemma_bitboard_squares(b, knight, s);
        lemma_bitboard_squares(b, bishop, s);
        lemma_bitboard_squares(b, rook, s);
        lemma_bitboard_squares(b, queen, s);
        lemma_bitboard_squares(b, king, s);
        lemma_side_squares(b, s);
    }
    lemma_meets(knight_attacks(sq), ally, b.bb(knight));
    lemma_meets(slide(sq, true, occ), ally, diagonal);
    lemma_meets(slide(sq, false, occ), ally, straight);
    lemma_meets(king_attacks(sq), ally, b.bb(king));
    let pawns = pawn_attacks_from(sq, !by_white) & b.bb(pawn);
    lemma_nonzero(pawns);
    lemma_intersection(pawn_attacks_from(sq, !by_white), b.bb(pawn));
    assert(attacked(b, t, by_white, sq) == (meets(knight_attacks(sq), ally, b.bb(knight)) || meets(
        slide(sq, true, occ),
        ally,
        diagonal,
    ) || meets(slide(sq, false, occ), ally, straight) || meets(king_attacks(sq), ally, b.bb(king))
        || pawns != 0));
    assert forall|s: u64| s < 64 implies (#[trigger] attacks_from(b, by_white, s, sq) <==> {
        ||| (bit(b.bb(knight), s) && bit(knight_attacks(sq), s))
        ||| (bit(diagonal, s) && bit(slide(sq, true, occ), s))
        ||| (bit(straight, s) && bit(slide(sq, false, occ), s))
        ||| (bit(b.bb(king), s) && bit(king_attacks(sq), s))
        ||| bit(pawns, s)
    }) by {
        lemma_bitboard_squares(b, pawn, s);
        lemma_bitboard_squares(b, knight, s);
        lemma_bitboard_squares(b, bishop, s);
        lemma_bitboard_squares(b, rook, s);
        lemma_bitboard_squares(b, queen, s);
        lemma_bitboard_squares(b, king, s);
        assert(bit(diagonal, s) <==> bit(b.bb(bishop), s) || bit(b.bb(queen), s));
        assert(bit(straight, s) <==> bit(b.bb(rook), s) || bit(b.bb(queen), s));
        assert(bit(pawns, s) <==> bit(pawn_attacks_from(sq, !by_white), s) && bit(b.bb(pawn), s));
        match b@.squares[s as int] {
            Some(p) => {
                lemma_attack_symmetry(p, s, sq, occ);
                lemma_union(slide(sq, true, occ), slide(sq, false, occ));
                if p.is_white() == by_white {
                    assert(p == pawn || p == knight || p == bishop || p == rook || p == queen
                        || p == king);
                }
            },
            None => {},
        }
    }
    if attacked(b, t, by_white, sq) {
        if meets(knight_attacks(sq), ally, b.bb(knight)) {
            let s = choose|s: u64|
                s < 64 && #[trigger] bit(b.bb(knight), s) && bit(knight_attacks(sq), s);
            assert(attacks_from(b, by_white, s, sq));
        } else if meets(slide(sq, true, occ), ally, diagonal) {
            let s = choose|s: u64|
                s < 64 && #[trigger] bit(diagonal, s) && bit(slide(sq, true, occ), s);
            assert(attacks_from(b, by_white, s, sq));
        } else if meets(slide(sq, false, occ), ally, straight) {
            let s = choose|s: u64|
                s < 64 && #[trigger] bit(straight, s) && bit(slide(sq, false, occ), s);
            assert(attacks_from(b, by_white, s, sq));
        } else if meets(king_attacks(sq), ally, b.bb(king)) {
            let s = choose|s: u64|
                s < 64 && #[trigger] bit(b.bb(king), s) && bit(king_attacks(sq), s);
            assert(attacks_from(b, by_white, s, sq));
        } else {
            let s = choose|s: u64| s < 64 && #[trigger] bit(pawns, s);
            assert(attacks_from(b, by_white, s, sq));
        }
    }
    if attacked_by(b, by_white, sq) {
        let s = choose|s: u64| s < 64 && #[trigger] attacks_from(b, by_white, s, sq);
        assert(attacks_from(b, by_white, s, sq));
    }
}

/// With accurate tables, in every position that the generator lists no
/// piece of the other side attacks the king of the side that has moved.
pub proof fn lemma_generated_king_unattacked(
    out: Seq<Candidate>,
    b: Board,
    t: MagicTables,
    i: int,
)
    requires
        accurate(t),
        ready(b),
        lists(out, b, t, Set::new(|m: Move| pseudo_legal(b, t, m))),
        0 <= i < out.len(),
    ensures
        king_square(out[i].board, b.is_w_move) < 64,
        !attacked_by(out[i].board, !b.is_w_move, king_square(out[i].board, b.is_w_move)),
{
    let after = out[i].board;
    let king = if b.is_w_move {
        PieceType::WK
    } else {
        PieceType::BK
    };
    assert(legal(b, t, out[i].mv));
    lemma_pseudo_legal_admits(b, t, out[i].mv);
    lemma_kings_stay(b@, out[i].mv);
    let s = choose|s: u64| s < 64 && #[trigger] after@.at(s) == Some(king);
    lemma_bitboard_squares(after, king, s);
    lemma_empty();
    vstd::std_specs::bits::axiom_u64_trailing_zeros(after.bb(king));
    lemma_generated_king_safe(out, b, t, i);
    lemma_attacked_by(out[i].board, t, !b.is_w_move, king_square(out[i].board, b.is_w_move));
}

/// With accurate tables, the squares that a knight, bishop, rook, queen or
/// king may move to in one plain move are the squares it attacks, less
/// those of its own side, the enemy king's and, for a king on its home
/// square, the two it reaches by castling.
pub proof fn lemma_officer_targets(b: Board, t: MagicTables, pt: PieceType, from: u64, to: u64)
    requires
        accurate(t),
        !pt.is_pawn(),
        from < 64,
        to < 64,
    ensures
        bit(officer_targets(b, t, pt, from), to) <==> bit(
            attack_set(pt, from, occupied(b)),
            to,
        ) && !bit(own_pieces(b), to) && !bit(enemy_king(b), to) && !bit(
            castle_squares(pt, from),
            to,
        ),
{
    let ally = own_pieces(b);
    let occ = occupied(b);
    assert(t.knight@[from as int] == knight_attacks(from));
    assert(t.bishop@[from as int].spec_lookup(occ) == slide(from, true, occ));
    assert(t.rook@[from as int].spec_lookup(occ) == slide(from, false, occ));
    lemma_empty();
    lemma_difference(knight_attacks(from), ally);
    lemma_difference(king_attacks(from), ally);
    lemma_difference(slide(from, true, occ), ally);
    lemma_difference(slide(from, false, occ), ally);
    lemma_union(slide(from, false, occ) & !ally, slide(from, true, occ) & !ally);
    lemma_union(slide(from, true, occ), slide(from, false, occ));
    lemma_difference(king_attacks(from) & !ally, castle_squares(pt, from));
    let reach = match pt {
        PieceType::WN | PieceType::BN => knight_attacks(from) & !ally,
        PieceType::WB | PieceType::BB => slide(from, true, occ) & !ally,
        PieceType::WR | PieceType::BR => slide(from, false, occ) & !ally,
        PieceType::WQ | PieceType::BQ => (slide(from, false, occ) & !ally) | (slide(
            from,
            true,
            occ,
        ) & !ally),
        _ => (king_attacks(from) & !ally) & !castle_squares(pt, from),
    };
    lemma_difference(reach, enemy_king(b));
}

} // verus!
