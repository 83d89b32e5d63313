//! The move generator: from a position, every legal move and the position
//! it leads to.
//!
//! A move is pseudo-legal when the piece may make it by the attack tables
//! and the rules of pushing, capturing, promoting and castling. It is legal
//! when, once made, it does not leave the mover's king attacked.

use crate::bits::{bit, lemma_difference, lemma_empty, lemma_mask, pop_lsb};
use crate::board::{
    Board, Move, PieceType, Position, file_char, file_letter, file_of, lemma_bitboard_squares,
    lemma_board_unique, lemma_mask_index, lemma_side_squares, rank_char, rank_digit, rank_of,
    rook_hop,
};
use crate::magic::MagicTables;
use crate::search::{Node, Tree};
use crate::text::push_glyph;
use vstd::prelude::*;
use vstd::std_specs::bits::{axiom_u64_trailing_zeros, u64_trailing_zeros};

verus! {

/// The squares a knight on `sq` may move to, given the squares `ally` of
/// its own side.
pub open spec fn knight_moves(t: MagicTables, sq: u64, ally: u64) -> u64 {
    t.knight@[sq as int] & !ally
}

/// The squares a king on `sq` may step to.
pub open spec fn king_moves(t: MagicTables, sq: u64, ally: u64) -> u64 {
    t.king@[sq as int] & !ally
}

/// The squares a bishop on `sq` may move to, given all occupied squares.
pub open spec fn bishop_moves(t: MagicTables, sq: u64, ally: u64, all: u64) -> u64 {
    t.bishop@[sq as int].spec_lookup(all) & !ally
}

/// The squares a rook on `sq` may move to, given all occupied squares.
pub open spec fn rook_moves(t: MagicTables, sq: u64, ally: u64, all: u64) -> u64 {
    t.rook@[sq as int].spec_lookup(all) & !ally
}

/// The enemy pawns that a pawn of colour `is_white` on `sq` attacks.
pub open spec fn pawn_attacks(t: MagicTables, sq: u64, enemy_pawns: u64, is_white: bool) -> u64 {
    if is_white {
        t.white_pawn@[sq as int] & enemy_pawns
    } else {
        t.black_pawn@[sq as int] & enemy_pawns
    }
}

/// The index of the lowest square of a non-empty bitboard.
fn lowest(bb: u64) -> (pos: usize)
    requires
        bb != 0,
    ensures
        pos < 64,
        pos == u64_trailing_zeros(bb),
{
    proof {
        axiom_u64_trailing_zeros(bb);
    }
    bb.trailing_zeros() as usize
}

/// The squares a knight on the lowest square of `bb` may move to.
pub fn solo_knight_moves(tables: &MagicTables, bb: u64, ally_pieces: u64) -> (r: u64)
    requires
        tables.wf(),
        bb != 0,
    ensures
        r == knight_moves(*tables, u64_trailing_zeros(bb) as u64, ally_pieces),
{
    let pos = lowest(bb);
    tables.knight[pos] & !ally_pieces
}

/// The squares a bishop on the lowest square of `bb` may move to.
pub fn solo_bishop_moves(tables: &MagicTables, bb: u64, ally_pieces: u64, all_pieces: u64) -> (r:
    u64)
    requires
        tables.wf(),
        bb != 0,
    ensures
        r == bishop_moves(*tables, u64_trailing_zeros(bb) as u64, ally_pieces, all_pieces),
{
    let pos = lowest(bb);
    tables.bishop[pos].lookup(all_pieces) & !ally_pieces
}

/// The squares a rook on the lowest square of `bb` may move to.
pub fn solo_rook_moves(tables: &MagicTables, bb: u64, ally_pieces: u64, all_pieces: u64) -> (r:
    u64)
    requires
        tables.wf(),
        bb != 0,
    ensures
        r == rook_moves(*tables, u64_trailing_zeros(bb) as u64, ally_pieces, all_pieces),
{
    let pos = lowest(bb);
    tables.rook[pos].lookup(all_pieces) & !ally_pieces
}

/// The squares a king on the lowest square of `bb` may step to.
pub fn solo_king_moves(tables: &MagicTables, bb: u64, ally_pieces: u64) -> (r: u64)
    requires
        tables.wf(),
        bb != 0,
    ensures
        r == king_moves(*tables, u64_trailing_zeros(bb) as u64, ally_pieces),
{
    let pos = lowest(bb);
    tables.king[pos] & !ally_pieces
}

/// The enemy pawns that a pawn of colour `is_white` on the lowest square of
/// `bb` attacks.
pub fn solo_pawn_attacks(tables: &MagicTables, bb: u64, enemy_pawns: u64, is_white: bool) -> (r:
    u64)
    requires
        tables.wf(),
        bb != 0,
    ensures
        r == pawn_attacks(*tables, u64_trailing_zeros(bb) as u64, enemy_pawns, is_white),
{
    let pos = lowest(bb);
    if is_white {
        tables.white_pawn[pos] & enemy_pawns
    } else {
        tables.black_pawn[pos] & enemy_pawns
    }
}

/// Whether a piece of White (`by_white`) or of Black attacks the square
/// `sq`. A piece of the attacked side is imagined on `sq` that moves like
/// every piece at once: it is attacked by an enemy knight where a knight's
/// move from `sq` reaches an enemy knight, and so for bishop, rook, queen,
/// king and pawn.
pub open spec fn attacked(b: Board, t: MagicTables, by_white: bool, sq: u64) -> bool {
    let all = b.spec_white() | b.spec_black();
    if by_white {
        let ally = b.spec_black();
        ||| knight_moves(t, sq, ally) & b.w_n_bb != 0
        ||| bishop_moves(t, sq, ally, all) & (b.w_b_bb | b.w_q_bb) != 0
        ||| rook_moves(t, sq, ally, all) & (b.w_r_bb | b.w_q_bb) != 0
        ||| king_moves(t, sq, ally) & b.w_k_bb != 0
        ||| pawn_attacks(t, sq, b.w_p_bb, false) != 0
    } else {
        let ally = b.spec_white();
        ||| knight_moves(t, sq, ally) & b.b_n_bb != 0
        ||| bishop_moves(t, sq, ally, all) & (b.b_b_bb | b.b_q_bb) != 0
        ||| rook_moves(t, sq, ally, all) & (b.b_r_bb | b.b_q_bb) != 0
        ||| king_moves(t, sq, ally) & b.b_k_bb != 0
        ||| pawn_attacks(t, sq, b.b_p_bb, true) != 0
    }
}

/// Whether a piece of White (`by_white`) or of Black attacks the lowest
/// square of `bb`.
pub fn is_attacked(board: &Board, tables: &MagicTables, by_white: bool, bb: u64) -> (r: bool)
    requires
        tables.wf(),
        bb != 0,
    ensures
        r == attacked(*board, *tables, by_white, u64_trailing_zeros(bb) as u64),
{
    let all_pieces = board.white() | board.black();
    if !by_white {
        let ally_pieces = board.white();
        if solo_knight_moves(tables, bb, ally_pieces) & board.b_n_bb != 0 {
            return true;
        }
        if solo_bishop_moves(tables, bb, ally_pieces, all_pieces) & (board.b_b_bb | board.b_q_bb)
            != 0 {
            return true;
        }
        if solo_rook_moves(tables, bb, ally_pieces, all_pieces) & (board.b_r_bb | board.b_q_bb)
            != 0 {
            return true;
        }
        if solo_king_moves(tables, bb, ally_pieces) & board.b_k_bb != 0 {
            return true;
        }
        if solo_pawn_attacks(tables, bb, board.b_p_bb, true) != 0 {
            return true;
        }
    } else {
        let ally_pieces = board.black();
        if solo_knight_moves(tables, bb, ally_pieces) & board.w_n_bb != 0 {
            return true;
        }
        if solo_bishop_moves(tables, bb, ally_pieces, all_pieces) & (board.w_b_bb | board.w_q_bb)
            != 0 {
            return true;
        }
        if solo_rook_moves(tables, bb, ally_pieces, all_pieces) & (board.w_r_bb | board.w_q_bb)
            != 0 {
            return true;
        }
        if solo_king_moves(tables, bb, ally_pieces) & board.w_k_bb != 0 {
            return true;
        }
        if solo_pawn_attacks(tables, bb, board.w_p_bb, false) != 0 {
            return true;
        }
    }
    false
}

/// The lower-case letter of a piece a pawn promotes to.
pub open spec fn promotion_char(pt: PieceType) -> char {
    if pt == PieceType::WN || pt == PieceType::BN {
        'n'
    } else if pt == PieceType::WB || pt == PieceType::BB {
        'b'
    } else if pt == PieceType::WR || pt == PieceType::BR {
        'r'
    } else {
        'q'
    }
}

/// A move in long algebraic notation: the two squares, then the lower-case
/// letter of the piece a pawn promotes to.
pub open spec fn notation(m: Move) -> Seq<char> {
    let squares = seq![
        file_char(file_of(m.from)),
        rank_char(rank_of(m.from)),
        file_char(file_of(m.to)),
        rank_char(rank_of(m.to)),
    ];
    match m.promotion {
        Some(pp) => squares.push(promotion_char(pp)),
        None => squares,
    }
}

/// Writes the move from the lowest square of `from` to the lowest square of
/// `to` in long algebraic notation.
pub fn notate(from: u64, to: u64, promotion: Option<PieceType>) -> (r: String)
    requires
        from != 0,
        to != 0,
        promotion matches Some(pp) ==> crate::board::promotable(pp),
    ensures
        r@ == notation(
            Move {
                from: u64_trailing_zeros(from) as u64,
                to: u64_trailing_zeros(to) as u64,
                promotion,
            },
        ),
{
    let from_pos: u64 = lowest(from) as u64;
    let to_pos: u64 = lowest(to) as u64;
    let mut r = String::new();
    push_glyph(&mut r, file_letter(from_pos % 8));
    push_glyph(&mut r, rank_digit(from_pos / 8));
    push_glyph(&mut r, file_letter(to_pos % 8));
    push_glyph(&mut r, rank_digit(to_pos / 8));
    match promotion {
        Some(pp) => {
            let c = match pp {
                PieceType::WN | PieceType::BN => 'n',
                PieceType::WB | PieceType::BB => 'b',
                PieceType::WR | PieceType::BR => 'r',
                _ => 'q',
            };
            push_glyph(&mut r, c);
        },
        None => {},
    }
    proof {
        let m = Move {
            from: u64_trailing_zeros(from) as u64,
            to: u64_trailing_zeros(to) as u64,
            promotion,
        };
        assert(r@ =~= notation(m));
    }
    r
}

/// The squares of the side to move.
pub open spec fn own_pieces(b: Board) -> u64 {
    if b.is_w_move {
        b.spec_white()
    } else {
        b.spec_black()
    }
}

/// All occupied squares.
pub open spec fn occupied(b: Board) -> u64 {
    b.spec_white() | b.spec_black()
}

/// The king of the side that is not to move.
pub open spec fn enemy_king(b: Board) -> u64 {
    if b.is_w_move {
        b.b_k_bb
    } else {
        b.w_k_bb
    }
}

/// The two squares a king reaches from its home square by castling: they
/// are never the destination of a plain step.
pub open spec fn castle_squares(pt: PieceType, from: u64) -> u64 {
    if pt == PieceType::WK && from == 4 {
        0x44
    } else if pt == PieceType::BK && from == 60 {
        0x4400_0000_0000_0000
    } else {
        0
    }
}

/// The squares that the knight, bishop, rook, queen or king `pt` on `from`
/// may move to in one plain move: what the tables give from there, less the
/// squares of its own side and the enemy king's.
pub open spec fn officer_targets(b: Board, t: MagicTables, pt: PieceType, from: u64) -> u64 {
    let ally = own_pieces(b);
    let all = occupied(b);
    let reach = match pt {
        PieceType::WN | PieceType::BN => knight_moves(t, from, ally),
        PieceType::WB | PieceType::BB => bishop_moves(t, from, ally, all),
        PieceType::WR | PieceType::BR => rook_moves(t, from, ally, all),
        PieceType::WQ | PieceType::BQ => rook_moves(t, from, ally, all) | bishop_moves(
            t,
            from,
            ally,
            all,
        ),
        PieceType::WK | PieceType::BK => king_moves(t, from, ally) & !castle_squares(pt, from),
        _ => 0,
    };
    reach & !enemy_king(b)
}

/// Whether `m` is a pawn's move for the side to move: a push to an empty
/// square, a double push from the home rank over an empty square to an
/// empty square, or a step to a neighbouring file that takes an enemy piece
/// other than the king or lands on the en-passant target. On the last rank
/// the pawn promotes to a knight, bishop, rook or queen of its side, and
/// nowhere else.
pub open spec fn pawn_move(p: Position, m: Move) -> bool {
    let white = p.white_to_move;
    let ahead = if white {
        m.from + 8
    } else {
        m.from - 8
    };
    let push = m.to == ahead && p.at(m.to) is None;
    let double = {
        &&& rank_of(m.from) == (if white {
            1u64
        } else {
            6u64
        })
        &&& m.to == (if white {
            m.from + 16
        } else {
            m.from - 16
        })
        &&& p.squares[ahead] is None
        &&& p.at(m.to) is None
    };
    let sideways = (m.to == ahead - 1 && file_of(m.from) > 0) || (m.to == ahead + 1 && file_of(
        m.from,
    ) < 7);
    let takes = match p.at(m.to) {
        Some(x) => x.is_white() != white && !x.is_king(),
        None => p.en_passant == Some(m.to),
    };
    let last_rank = rank_of(m.to) == (if white {
        7u64
    } else {
        0u64
    });
    &&& m.to < 64
    &&& (push || double || (sideways && takes))
    &&& match m.promotion {
        Some(pp) => last_rank && crate::board::promotable(pp) && pp.is_white() == white,
        None => !last_rank,
    }
}

/// Whether `m` is a castling move that the side to move may make: the king
/// stands on its home square and moves two files, the right is held, the
/// squares between king and rook are empty, and the enemy attacks neither
/// the king's square nor the one it crosses nor the one it reaches.
pub open spec fn castle(b: Board, t: MagicTables, m: Move) -> bool {
    let p = b@;
    if b.is_w_move {
        &&& m.from == 4
        &&& p.at(4) == Some(PieceType::WK)
        &&& !attacked(b, t, false, 4)
        &&& {
            ||| {
                &&& m.to == 6
                &&& b.is_w_castle
                &&& p.at(5) is None
                &&& p.at(6) is None
                &&& !attacked(b, t, false, 5)
                &&& !attacked(b, t, false, 6)
            }
            ||| {
                &&& m.to == 2
                &&& b.is_w_q_castle
                &&& p.at(1) is None
                &&& p.at(2) is None
                &&& p.at(3) is None
                &&& !attacked(b, t, false, 3)
                &&& !attacked(b, t, false, 2)
            }
        }
    } else {
        &&& m.from == 60
        &&& p.at(60) == Some(PieceType::BK)
        &&& !attacked(b, t, true, 60)
        &&& {
            ||| {
                &&& m.to == 62
                &&& b.is_b_castle
                &&& p.at(61) is None
                &&& p.at(62) is None
                &&& !attacked(b, t, true, 61)
                &&& !attacked(b, t, true, 62)
            }
            ||| {
                &&& m.to == 58
                &&& b.is_b_q_castle
                &&& p.at(57) is None
                &&& p.at(58) is None
                &&& p.at(59) is None
                &&& !attacked(b, t, true, 59)
                &&& !attacked(b, t, true, 58)
            }
        }
    }
}

/// Whether the side to move may make the move `m`, leaving aside whether
/// its king is then attacked.
pub open spec fn pseudo_legal(b: Board, t: MagicTables, m: Move) -> bool {
    &&& m.from < 64
    &&& m.to < 64
    &&& b@.at(m.from) matches Some(mover) && mover.is_white() == b.is_w_move && if mover.is_pawn() {
        pawn_move(b@, m)
    } else {
        &&& m.promotion is None
        &&& (bit(officer_targets(b, t, mover, m.from), m.to) || (mover.is_king() && castle(b, t, m)))
    }
}

/// The well-formed board that shows the position `p`.
pub open spec fn board_of(p: Position) -> Board {
    choose|b: Board| b.wf() && b@ == p
}

/// The square of a side's king.
pub open spec fn king_square(b: Board, white: bool) -> u64 {
    u64_trailing_zeros(
        if white {
            b.w_k_bb
        } else {
            b.b_k_bb
        },
    ) as u64
}

/// Whether the mover's king is attacked once the move `m` is made.
pub open spec fn exposes_king(b: Board, t: MagicTables, m: Move) -> bool {
    let after = board_of(b@.moved(m));
    attacked(after, t, !b.is_w_move, king_square(after, b.is_w_move))
}

/// Whether the move `m` is legal: the side to move may make it, and its
/// king is not attacked afterwards.
pub open spec fn legal(b: Board, t: MagicTables, m: Move) -> bool {
    pseudo_legal(b, t, m) && !exposes_king(b, t, m)
}

/// Whether both kings stand on the board.
pub open spec fn has_kings(p: Position) -> bool {
    &&& exists|s: u64| s < 64 && #[trigger] p.at(s) == Some(PieceType::WK)
    &&& exists|s: u64| s < 64 && #[trigger] p.at(s) == Some(PieceType::BK)
}

/// What the generator asks of a position: it is well formed, both kings
/// stand on the board, and the clocks have room to advance.
pub open spec fn ready(b: Board) -> bool {
    &&& b.wf()
    &&& has_kings(b@)
    &&& b.halfmove_clock < u32::MAX
    &&& b.fullmove_clock < u32::MAX
}

/// A legal move and the position it leads to, before the turn passes.
#[derive(Clone, Copy, PartialEq, Eq, Debug, Structural)]
pub struct Candidate {
    pub mv: Move,
    pub board: Board,
}

/// The candidate that the generator lists for the move `m`.
pub open spec fn emitted(b: Board, m: Move) -> Candidate {
    Candidate { mv: m, board: board_of(b@.moved(m)) }
}

/// Which squares the castling masks hold.
proof fn lemma_castle_squares(s: u64)
    by (bit_vector)
    requires
        s < 64,
    ensures
        bit(0x44u64, s) <==> s == 2 || s == 6,
        bit(0x4400_0000_0000_0000u64, s) <==> s == 58 || s == 62,
{
}

/// A pseudo-legal move can be played, and does not take a king.
pub proof fn lemma_pseudo_legal_admits(b: Board, t: MagicTables, m: Move)
    requires
        ready(b),
        pseudo_legal(b, t, m),
    ensures
        b@.admits(m),
        !(b@.at(m.to) matches Some(k) && k.is_king()),
        !(b@.at(m.to) matches Some(x) && x.is_white() == b.is_w_move),
{
    let p = b@;
    let mover = p.at(m.from).unwrap();
    lemma_side_squares(b, m.to);
    lemma_side_squares(b, m.from);
    if !mover.is_pawn() {
        if bit(officer_targets(b, t, mover, m.from), m.to) {
            let ally = own_pieces(b);
            let all = occupied(b);
            let reach = match mover {
                PieceType::WN | PieceType::BN => knight_moves(t, m.from, ally),
                PieceType::WB | PieceType::BB => bishop_moves(t, m.from, ally, all),
                PieceType::WR | PieceType::BR => rook_moves(t, m.from, ally, all),
                PieceType::WQ | PieceType::BQ => rook_moves(t, m.from, ally, all) | bishop_moves(
                    t,
                    m.from,
                    ally,
                    all,
                ),
                PieceType::WK | PieceType::BK => king_moves(t, m.from, ally) & !castle_squares(
                    mover,
                    m.from,
                ),
                _ => 0,
            };
            lemma_difference(reach, enemy_king(b));
            assert(bit(reach, m.to) && !bit(enemy_king(b), m.to));
            lemma_bitboard_squares(b, PieceType::WK, m.to);
            lemma_bitboard_squares(b, PieceType::BK, m.to);
            lemma_officer_reach(b, t, mover, m.from, m.to);
            assert(!bit(ally, m.to));
            if mover.is_king() {
                lemma_difference(king_moves(t, m.from, ally), castle_squares(mover, m.from));
                lemma_castle_squares(m.to);
                lemma_empty();
                assert(rook_hop(mover, m) is None);
            }
        }
    }
}

/// What an officer reaches through the tables is never a square of its own
/// side.
proof fn lemma_officer_reach(b: Board, t: MagicTables, pt: PieceType, from: u64, to: u64)
    requires
        to < 64,
        !pt.is_pawn(),
        bit(officer_targets(b, t, pt, from), to),
    ensures
        !bit(own_pieces(b), to),
{
    let ally = own_pieces(b);
    let all = occupied(b);
    lemma_difference(t.knight@[from as int], ally);
    lemma_difference(t.king@[from as int], ally);
    lemma_difference(t.bishop@[from as int].spec_lookup(all), ally);
    lemma_difference(t.rook@[from as int].spec_lookup(all), ally);
    crate::bits::lemma_union(rook_moves(t, from, ally, all), bishop_moves(t, from, ally, all));
    lemma_difference(king_moves(t, from, ally), castle_squares(pt, from));
    let reach = match pt {
        PieceType::WN | PieceType::BN => knight_moves(t, from, ally),
        PieceType::WB | PieceType::BB => bishop_moves(t, from, ally, all),
        PieceType::WR | PieceType::BR => rook_moves(t, from, ally, all),
        PieceType::WQ | PieceType::BQ => rook_moves(t, from, ally, all) | bishop_moves(
            t,
            from,
            ally,
            all,
        ),
        PieceType::WK | PieceType::BK => king_moves(t, from, ally) & !castle_squares(pt, from),
        _ => 0,
    };
    lemma_difference(reach, enemy_king(b));
}

/// A move that takes no king leaves both kings on the board.
pub proof fn lemma_kings_stay(p: Position, m: Move)
    requires
        p.squares.len() == 64,
        has_kings(p),
        p.admits(m),
        !(p.at(m.to) matches Some(k) && k.is_king()),
    ensures
        has_kings(p.moved(m)),
{
    let q = p.moved(m);
    let w = choose|s: u64| s < 64 && #[trigger] p.at(s) == Some(PieceType::WK);
    let k = choose|s: u64| s < 64 && #[trigger] p.at(s) == Some(PieceType::BK);
    let w2 = if w == m.from {
        m.to
    } else {
        w
    };
    let k2 = if k == m.from {
        m.to
    } else {
        k
    };
    assert(q.at(w2) == Some(PieceType::WK));
    assert(q.at(k2) == Some(PieceType::BK));
}

/// A bitboard that holds a square is not empty.
proof fn lemma_bit_nonzero(x: u64, s: u64)
    by (bit_vector)
    requires
        bit(x, s),
    ensures
        x != 0,
{
}

/// Makes the pseudo-legal move `m` on a copy of the position and hands the
/// result back if the mover's king is not attacked in it.
fn emit(board: &Board, tables: &MagicTables, m: Move) -> (r: Option<Candidate>)
    requires
        ready(*board),
        tables.wf(),
        pseudo_legal(*board, *tables, m),
    ensures
        r == (if legal(*board, *tables, m) {
            Some(emitted(*board, m))
        } else {
            None
        }),
        board_of(board@.moved(m)).wf(),
        board_of(board@.moved(m))@ == board@.moved(m),
{
    proof {
        lemma_pseudo_legal_admits(*board, *tables, m);
        lemma_kings_stay(board@, m);
    }
    let mut c: Board = *board;
    c.make_move(m);
    proof {
        let chosen = board_of(board@.moved(m));
        lemma_board_unique(c, chosen);
        let king = if board.is_w_move {
            PieceType::WK
        } else {
            PieceType::BK
        };
        let s = choose|s: u64| s < 64 && #[trigger] c@.at(s) == Some(king);
        lemma_bitboard_squares(c, king, s);
        lemma_bit_nonzero(c.bb(king), s);
    }
    let king_bb = if board.is_w_move {
        c.w_k_bb
    } else {
        c.b_k_bb
    };
    if is_attacked(&c, tables, !board.is_w_move, king_bb) {
        None
    } else {
        Some(Candidate { mv: m, board: c })
    }
}

/// Whether `out` lists the legal moves of `region`, each once and with the
/// position it leads to, and nothing else.
pub open spec fn lists(out: Seq<Candidate>, b: Board, t: MagicTables, region: Set<Move>) -> bool {
    &&& forall|i: int|
        0 <= i < out.len() ==> region.contains((#[trigger] out[i]).mv) && legal(b, t, out[i].mv)
            && out[i] == emitted(b, out[i].mv) && out[i].board.wf() && out[i].board@ == b@.moved(out[i].mv)
    &&& forall|m: Move| #[trigger]
        region.contains(m) && legal(b, t, m) ==> exists|i: int|
            0 <= i < out.len() && (#[trigger] out[i]).mv == m
    &&& forall|i: int, j: int|
        0 <= i < j < out.len() ==> (#[trigger] out[i]).mv != (#[trigger] out[j]).mv
}

/// Listing one more move: the list grows by the move if it is legal.
proof fn lemma_lists_step(
    out: Seq<Candidate>,
    b: Board,
    t: MagicTables,
    region: Set<Move>,
    m: Move,
    r: Option<Candidate>,
)
    requires
        lists(out, b, t, region),
        !region.contains(m),
        r == (if legal(b, t, m) {
            Some(emitted(b, m))
        } else {
            None
        }),
        r matches Some(c) ==> c.board.wf() && c.board@ == b@.moved(m),
    ensures
        lists(
            match r {
                Some(c) => out.push(c),
                None => out,
            },
            b,
            t,
            region.insert(m),
        ),
{
    let out2 = match r {
        Some(c) => out.push(c),
        None => out,
    };
    let region2 = region.insert(m);
    assert forall|x: Move| #[trigger] region2.contains(x) && legal(b, t, x) implies exists|i: int|
        0 <= i < out2.len() && (#[trigger] out2[i]).mv == x by {
        if x == m {
            assert(out2[out.len() as int].mv == m);
        } else {
            assert(region.contains(x));
            let i = choose|i: int| 0 <= i < out.len() && (#[trigger] out[i]).mv == x;
            assert(out2[i].mv == x);
        }
    }
    assert forall|i: int, j: int| 0 <= i < j < out2.len() implies (#[trigger] out2[i]).mv != (
    #[trigger] out2[j]).mv by {
        if j == out.len() {
            assert(region.contains(out[i].mv));
        }
    }
}

/// Two lists of regions that share no move make, one after the other, a
/// list of both regions.
proof fn lemma_lists_concat(
    a: Seq<Candidate>,
    c: Seq<Candidate>,
    b: Board,
    t: MagicTables,
    r1: Set<Move>,
    r2: Set<Move>,
)
    requires
        lists(a, b, t, r1),
        lists(c, b, t, r2),
        r1.disjoint(r2),
    ensures
        lists(a + c, b, t, r1.union(r2)),
{
    let out = a + c;
    let region = r1.union(r2);
    assert forall|i: int| 0 <= i < out.len() implies region.contains((#[trigger] out[i]).mv)
        && legal(b, t, out[i].mv) && out[i] == emitted(b, out[i].mv) && out[i].board.wf()
        && out[i].board@ == b@.moved(out[i].mv) by {
        if i < a.len() {
            assert(out[i] == a[i]);
        } else {
            assert(out[i] == c[i - a.len()]);
        }
    }
    assert forall|x: Move| #[trigger] region.contains(x) && legal(b, t, x) implies exists|i: int|
        0 <= i < out.len() && (#[trigger] out[i]).mv == x by {
        if r1.contains(x) {
            let i = choose|i: int| 0 <= i < a.len() && (#[trigger] a[i]).mv == x;
            assert(out[i].mv == x);
        } else {
            assert(r2.contains(x));
            let i = choose|i: int| 0 <= i < c.len() && (#[trigger] c[i]).mv == x;
            assert(out[i + a.len()].mv == x);
        }
    }
    assert forall|i: int, j: int| 0 <= i < j < out.len() implies (#[trigger] out[i]).mv != (
    #[trigger] out[j]).mv by {
        if i < a.len() {
            assert(out[i] == a[i]);
            assert(r1.contains(a[i].mv));
        } else {
            assert(out[i] == c[i - a.len()]);
        }
        if j < a.len() {
            assert(out[j] == a[j]);
        } else {
            assert(out[j] == c[j - a.len()]);
            assert(r2.contains(c[j - a.len()].mv));
        }
    }
}

/// A list of a region is a list of any region with the same legal moves.
proof fn lemma_lists_same(
    out: Seq<Candidate>,
    b: Board,
    t: MagicTables,
    r1: Set<Move>,
    r2: Set<Move>,
)
    requires
        lists(out, b, t, r1),
        forall|m: Move| legal(b, t, m) ==> (#[trigger] r1.contains(m) <==> #[trigger] r2.contains(m)),
    ensures
        lists(out, b, t, r2),
{
    assert forall|x: Move| #[trigger] r2.contains(x) && legal(b, t, x) implies exists|i: int|
        0 <= i < out.len() && (#[trigger] out[i]).mv == x by {
        assert(r1.contains(x));
    }
    assert forall|i: int| 0 <= i < out.len() implies r2.contains((#[trigger] out[i]).mv) by {
        assert(r1.contains(out[i].mv));
    }
}

/// The plain moves of the officer on `from`: the moves from there, without
/// promotion, to one of its target squares.
pub open spec fn officer_region(b: Board, t: MagicTables, pt: PieceType, from: u64) -> Set<Move> {
    Set::new(
        |m: Move|
            m.from == from && m.to < 64 && m.promotion is None && bit(
                officer_targets(b, t, pt, from),
                m.to,
            ),
    )
}

/// Computes the target squares of the officer `pt` on `from`.
fn targets_of(board: &Board, tables: &MagicTables, pt: PieceType, from: u64) -> (r: u64)
    requires
        tables.wf(),
        from < 64,
    ensures
        r == officer_targets(*board, *tables, pt, from),
{
    let bb: u64 = 1u64 << from;
    proof {
        lemma_mask(from);
        lemma_mask_index(from);
    }
    let ally: u64 = if board.is_w_move {
        board.white()
    } else {
        board.black()
    };
    let all: u64 = board.white() | board.black();
    let enemy_king: u64 = if board.is_w_move {
        board.b_k_bb
    } else {
        board.w_k_bb
    };
    let reach: u64 = match pt {
        PieceType::WN | PieceType::BN => solo_knight_moves(tables, bb, ally),
        PieceType::WB | PieceType::BB => solo_bishop_moves(tables, bb, ally, all),
        PieceType::WR | PieceType::BR => solo_rook_moves(tables, bb, ally, all),
        PieceType::WQ | PieceType::BQ => solo_rook_moves(tables, bb, ally, all)
            | solo_bishop_moves(tables, bb, ally, all),
        PieceType::WK => {
            let steps = solo_king_moves(tables, bb, ally);
            if from == 4 {
                steps & !0x44u64
            } else {
                proof {
                    assert(steps & !0u64 == steps) by (bit_vector);
                }
                steps
            }
        },
        PieceType::BK => {
            let steps = solo_king_moves(tables, bb, ally);
            if from == 60 {
                steps & !0x4400_0000_0000_0000u64
            } else {
                proof {
                    assert(steps & !0u64 == steps) by (bit_vector);
                }
                steps
            }
        },
        _ => 0,
    };
    reach & !enemy_king
}

/// The legal plain moves of the officer of the side to move that stands on
/// `from`.
fn officer_moves(board: &Board, tables: &MagicTables, pt: PieceType, from: u64) -> (out: Vec<
    Candidate,
>)
    requires
        ready(*board),
        tables.wf(),
        from < 64,
        board@.at(from) == Some(pt),
        pt.is_white() == board.is_w_move,
        !pt.is_pawn(),
    ensures
        lists(out@, *board, *tables, officer_region(*board, *tables, pt, from)),
{
    let full: u64 = targets_of(board, tables, pt, from);
    let mut targets: u64 = full;
    let mut out: Vec<Candidate> = Vec::new();
    let ghost mut region: Set<Move> = Set::empty();
    while targets != 0
        invariant
            ready(*board),
            tables.wf(),
            from < 64,
            board@.at(from) == Some(pt),
            pt.is_white() == board.is_w_move,
            !pt.is_pawn(),
            full == officer_targets(*board, *tables, pt, from),
            forall|s: u64| s < 64 && #[trigger] bit(targets, s) ==> bit(full, s),
            region =~= Set::new(
                |m: Move|
                    m.from == from && m.to < 64 && m.promotion is None && bit(full, m.to) && !bit(
                        targets,
                        m.to,
                    ),
            ),
            lists(out@, *board, *tables, region),
        decreases targets,
    {
        let (to, rest) = pop_lsb(targets);
        let m = Move { from, to, promotion: None };
        let r = emit(board, tables, m);
        proof {
            lemma_lists_step(out@, *board, *tables, region, m, r);
            region = region.insert(m);
        }
        match r {
            Some(c) => {
                out.push(c);
            },
            None => {},
        }
        targets = rest;
    }
    proof {
        lemma_empty();
        assert(region =~= officer_region(*board, *tables, pt, from));
    }
    out
}

/// The pseudo-legal moves of the piece `pt`.
pub open spec fn moves_of(b: Board, t: MagicTables, pt: PieceType) -> Set<Move> {
    Set::new(|m: Move| pseudo_legal(b, t, m) && b@.at(m.from) == Some(pt))
}

/// The own piece of the kind of `pt`.
pub open spec fn own(b: Board, white_piece: PieceType, black_piece: PieceType) -> PieceType {
    if b.is_w_move {
        white_piece
    } else {
        black_piece
    }
}

/// The legal plain moves of all officers `pt` of the side to move.
fn all_officer_moves(board: &Board, tables: &MagicTables, pt: PieceType) -> (out: Vec<Candidate>)
    requires
        ready(*board),
        tables.wf(),
        pt.is_white() == board.is_w_move,
        !pt.is_pawn(),
    ensures
        lists(
            out@,
            *board,
            *tables,
            Set::new(
                |m: Move|
                    m.from < 64 && board@.at(m.from) == Some(pt) && officer_region(
                        *board,
                        *tables,
                        pt,
                        m.from,
                    ).contains(m),
            ),
        ),
{
    let pieces: u64 = board.bitboard(pt);
    let mut rest: u64 = pieces;
    let mut out: Vec<Candidate> = Vec::new();
    let ghost mut region: Set<Move> = Set::empty();
    while rest != 0
        invariant
            ready(*board),
            tables.wf(),
            pt.is_white() == board.is_w_move,
            !pt.is_pawn(),
            pieces == board.bb(pt),
            forall|s: u64| s < 64 && #[trigger] bit(rest, s) ==> bit(pieces, s),
            region =~= Set::new(
                |m: Move|
                    m.from < 64 && bit(pieces, m.from) && !bit(rest, m.from) && officer_region(
                        *board,
                        *tables,
                        pt,
                        m.from,
                    ).contains(m),
            ),
            lists(out@, *board, *tables, region),
        decreases rest,
    {
        let (from, left) = pop_lsb(rest);
        proof {
            lemma_bitboard_squares(*board, pt, from);
        }
        let mut part = officer_moves(board, tables, pt, from);
        proof {
            let part_region = officer_region(*board, *tables, pt, from);
            lemma_lists_concat(out@, part@, *board, *tables, region, part_region);
            region = region.union(part_region);
        }
        out.append(&mut part);
        rest = left;
    }
    proof {
        lemma_empty();
        let goal = Set::new(
            |m: Move|
                m.from < 64 && board@.at(m.from) == Some(pt) && officer_region(
                    *board,
                    *tables,
                    pt,
                    m.from,
                ).contains(m),
        );
        assert forall|m: Move| region.contains(m) <==> goal.contains(m) by {
            if m.from < 64 {
                lemma_bitboard_squares(*board, pt, m.from);
            }
        }
        assert(region =~= goal);
    }
    out
}

/// The legal moves of the knights of the side to move.
pub fn gen_knight_moves(board: &Board, tables: &MagicTables) -> (out: Vec<Candidate>)
    requires
        ready(*board),
        tables.wf(),
    ensures
        lists(
            out@,
            *board,
            *tables,
            moves_of(*board, *tables, own(*board, PieceType::WN, PieceType::BN)),
        ),
{
    let pt = if board.is_w_move {
        PieceType::WN
    } else {
        PieceType::BN
    };
    let out = all_officer_moves(board, tables, pt);
    proof {
        lemma_officer_moves(*board, *tables, pt, out@);
    }
    out
}

/// The legal moves of the bishops of the side to move.
pub fn gen_bishop_moves(board: &Board, tables: &MagicTables) -> (out: Vec<Candidate>)
    requires
        ready(*board),
        tables.wf(),
    ensures
        lists(
            out@,
            *board,
            *tables,
            moves_of(*board, *tables, own(*board, PieceType::WB, PieceType::BB)),
        ),
{
    let pt = if board.is_w_move {
        PieceType::WB
    } else {
        PieceType::BB
    };
    let out = all_officer_moves(board, tables, pt);
    proof {
        lemma_officer_moves(*board, *tables, pt, out@);
    }
    out
}

/// The legal moves of the rooks of the side to move.
pub fn gen_rook_moves(board: &Board, tables: &MagicTables) -> (out: Vec<Candidate>)
    requires
        ready(*board),
        tables.wf(),
    ensures
        lists(
            out@,
            *board,
            *tables,
            moves_of(*board, *tables, own(*board, PieceType::WR, PieceType::BR)),
        ),
{
    let pt = if board.is_w_move {
        PieceType::WR
    } else {
        PieceType::BR
    };
    let out = all_officer_moves(board, tables, pt);
    proof {
        lemma_officer_moves(*board, *tables, pt, out@);
    }
    out
}

/// The legal moves of the queens of the side to move.
pub fn gen_queen_moves(board: &Board, tables: &MagicTables) -> (out: Vec<Candidate>)
    requires
        ready(*board),
        tables.wf(),
    ensures
        lists(
            out@,
            *board,
            *tables,
            moves_of(*board, *tables, own(*board, PieceType::WQ, PieceType::BQ)),
        ),
{
    let pt = if board.is_w_move {
        PieceType::WQ
    } else {
        PieceType::BQ
    };
    let out = all_officer_moves(board, tables, pt);
    proof {
        lemma_officer_moves(*board, *tables, pt, out@);
    }
    out
}

/// For a piece that does not castle, the plain moves are all its
/// pseudo-legal moves.
proof fn lemma_officer_moves(b: Board, t: MagicTables, pt: PieceType, out: Seq<Candidate>)
    requires
        !pt.is_pawn(),
        !pt.is_king(),
        pt.is_white() == b.is_w_move,
        lists(
            out,
            b,
            t,
            Set::new(
                |m: Move|
                    m.from < 64 && b@.at(m.from) == Some(pt) && officer_region(
                        b,
                        t,
                        pt,
                        m.from,
                    ).contains(m),
            ),
        ),
    ensures
        lists(out, b, t, moves_of(b, t, pt)),
{
    let r1 = Set::new(
        |m: Move|
            m.from < 64 && b@.at(m.from) == Some(pt) && officer_region(b, t, pt, m.from).contains(
                m,
            ),
    );
    assert(r1 =~= moves_of(b, t, pt));
}

/// Adds one move to the list if it may be made and is legal.
fn list_move(
    out: &mut Vec<Candidate>,
    board: &Board,
    tables: &MagicTables,
    m: Move,
    may: bool,
    Ghost(region): Ghost<Set<Move>>,
)
    requires
        ready(*board),
        tables.wf(),
        may == pseudo_legal(*board, *tables, m),
        lists(old(out)@, *board, *tables, region),
        !region.contains(m),
    ensures
        lists(final(out)@, *board, *tables, region.insert(m)),
{
    if may {
        let r = emit(board, tables, m);
        proof {
            lemma_lists_step(out@, *board, *tables, region, m, r);
        }
        match r {
            Some(c) => {
                out.push(c);
            },
            None => {},
        }
    } else {
        proof {
            lemma_lists_step(out@, *board, *tables, region, m, None);
        }
    }
}

/// Whether the enemy attacks the square `sq`.
fn enemy_attacks(board: &Board, tables: &MagicTables, sq: u64) -> (r: bool)
    requires
        tables.wf(),
        sq < 64,
    ensures
        r == attacked(*board, *tables, !board.is_w_move, sq),
{
    proof {
        lemma_mask(sq);
        lemma_mask_index(sq);
    }
    is_attacked(board, tables, !board.is_w_move, 1u64 << sq)
}

/// Whether the square `sq` is empty.
fn empty(board: &Board, sq: u64) -> (r: bool)
    requires
        sq < 64,
    ensures
        r == (board@.at(sq) is None),
{
    board.piece_on(sq).is_none()
}

/// The legal castling moves of the side to move.
fn castling_moves(board: &Board, tables: &MagicTables) -> (out: Vec<Candidate>)
    requires
        ready(*board),
        tables.wf(),
    ensures
        lists(
            out@,
            *board,
            *tables,
            Set::new(
                |m: Move|
                    m.promotion is None && m.to < 64 && castle(*board, *tables, m),
            ),
        ),
{
    let mut out: Vec<Candidate> = Vec::new();
    let home: u64 = if board.is_w_move {
        4
    } else {
        60
    };
    let king = if board.is_w_move {
        PieceType::WK
    } else {
        PieceType::BK
    };
    let ghost goal = Set::new(
        |m: Move| m.promotion is None && m.to < 64 && castle(*board, *tables, m),
    );
    if board.piece_on(home) == Some(king) && !enemy_attacks(board, tables, home) {
        let kingside = Move { from: home, to: home + 2, promotion: None };
        let queenside = Move { from: home, to: home - 2, promotion: None };
        let right_k = if board.is_w_move {
            board.is_w_castle
        } else {
            board.is_b_castle
        };
        let right_q = if board.is_w_move {
            board.is_w_q_castle
        } else {
            board.is_b_q_castle
        };
        let may_k = right_k && empty(board, home + 1) && empty(board, home + 2) && !enemy_attacks(
            board,
            tables,
            home + 1,
        ) && !enemy_attacks(board, tables, home + 2);
        let may_q = right_q && empty(board, home - 3) && empty(board, home - 2) && empty(
            board,
            home - 1,
        ) && !enemy_attacks(board, tables, home - 1) && !enemy_attacks(board, tables, home - 2);
        proof {
            lemma_king_steps_aside(*board, *tables, king, kingside);
            lemma_king_steps_aside(*board, *tables, king, queenside);
            assert(may_k == castle(*board, *tables, kingside));
            assert(may_q == castle(*board, *tables, queenside));
        }
        list_move(&mut out, board, tables, kingside, may_k, Ghost(Set::empty()));
        list_move(
            &mut out,
            board,
            tables,
            queenside,
            may_q,
            Ghost(Set::<Move>::empty().insert(kingside)),
        );
        proof {
            lemma_lists_same(
                out@,
                *board,
                *tables,
                Set::<Move>::empty().insert(kingside).insert(queenside),
                goal,
            );
        }
    } else {
        proof {
            assert(goal =~= Set::<Move>::empty());
        }
    }
    out
}

/// A king on its home square has no plain step to a castling square.
proof fn lemma_king_steps_aside(b: Board, t: MagicTables, king: PieceType, m: Move)
    requires
        king == own(b, PieceType::WK, PieceType::BK),
        m.from == (if b.is_w_move {
            4u64
        } else {
            60u64
        }),
        m.to == m.from + 2 || m.to == m.from - 2,
    ensures
        !bit(officer_targets(b, t, king, m.from), m.to),
{
    let ally = own_pieces(b);
    let reach = king_moves(t, m.from, ally) & !castle_squares(king, m.from);
    lemma_difference(king_moves(t, m.from, ally), castle_squares(king, m.from));
    lemma_difference(reach, enemy_king(b));
    lemma_castle_squares(m.to);
}

/// The legal moves of the king of the side to move: castling, then the
/// plain steps.
pub fn gen_king_moves(board: &Board, tables: &MagicTables) -> (out: Vec<Candidate>)
    requires
        ready(*board),
        tables.wf(),
    ensures
        lists(
            out@,
            *board,
            *tables,
            moves_of(*board, *tables, own(*board, PieceType::WK, PieceType::BK)),
        ),
{
    let pt = if board.is_w_move {
        PieceType::WK
    } else {
        PieceType::BK
    };
    let mut out = castling_moves(board, tables);
    let mut steps = all_officer_moves(board, tables, pt);
    proof {
        let b = *board;
        let t = *tables;
        let castles = Set::new(|m: Move| m.promotion is None && m.to < 64 && castle(b, t, m));
        let plain = Set::new(
            |m: Move|
                m.from < 64 && b@.at(m.from) == Some(pt) && officer_region(b, t, pt, m.from).contains(
                    m,
                ),
        );
        assert forall|m: Move| castles.contains(m) implies !plain.contains(m) by {
            lemma_king_steps_aside(b, t, pt, m);
        }
        assert(castles.disjoint(plain));
        lemma_lists_concat(out@, steps@, b, t, castles, plain);
        assert(castles.union(plain) =~= moves_of(b, t, pt));
    }
    out.append(&mut steps);
    out
}

/// Whether a pawn of the side to move on `from` may go to `to`: by a push,
/// a double push or a capture.
pub open spec fn pawn_reach(p: Position, from: u64, to: u64) -> bool {
    pawn_move(
        p,
        Move {
            from,
            to,
            promotion: if rank_of(to) == (if p.white_to_move {
                7u64
            } else {
                0u64
            }) {
                Some(
                    if p.white_to_move {
                        PieceType::WQ
                    } else {
                        PieceType::BQ
                    },
                )
            } else {
                None
            },
        },
    )
}

/// The pawn moves from `from` to one of the squares `tos`.
pub open spec fn pawn_region(p: Position, from: u64, tos: Set<u64>) -> Set<Move> {
    Set::new(|m: Move| m.from == from && tos.contains(m.to) && pawn_move(p, m))
}

/// Whether the pawn of the side to move on `from` may go to `to`.
fn pawn_reaches(board: &Board, from: u64, to: u64) -> (r: bool)
    requires
        board.wf(),
        from < 64,
        to < 64,
    ensures
        r == pawn_reach(board@, from, to),
{
    let white = board.is_w_move;
    let target = board.piece_on(to);
    if white && from >= 56 || !white && from < 8 {
        return false;
    }
    let ahead: u64 = if white {
        from + 8
    } else {
        from - 8
    };
    if to == ahead {
        return target.is_none();
    }
    let home: u64 = if white {
        1
    } else {
        6
    };
    if from / 8 == home && (white && to == from + 16 || !white && to + 16 == from) {
        return target.is_none() && board.piece_on(ahead).is_none();
    }
    let sideways = (to + 1 == ahead && from % 8 > 0) || (to == ahead + 1 && from % 8 < 7);
    if !sideways {
        return false;
    }
    match target {
        Some(x) => x.is_white() != white && !x.is_king(),
        None => match board.en_passent {
            Some(mask) => {
                proof {
                    lemma_mask_index(to);
                }
                mask == 1u64 << to
            },
            None => false,
        },
    }
}

/// The legal moves of the pawn on `from` to the square `to`, added to
/// `out`.
fn pawn_moves_to(
    out: &mut Vec<Candidate>,
    board: &Board,
    tables: &MagicTables,
    from: u64,
    to: u64,
    Ghost(done): Ghost<Set<u64>>,
)
    requires
        ready(*board),
        tables.wf(),
        from < 64,
        to < 64,
        board@.at(from) == Some(own(*board, PieceType::WP, PieceType::BP)),
        !done.contains(to),
        lists(old(out)@, *board, *tables, pawn_region(board@, from, done)),
    ensures
        lists(final(out)@, *board, *tables, pawn_region(board@, from, done.insert(to))),
{
    let ghost before = pawn_region(board@, from, done);
    let ghost after = pawn_region(board@, from, done.insert(to));
    let white = board.is_w_move;
    if !pawn_reaches(board, from, to) {
        proof {
            assert(before =~= after);
        }
        return ;
    }
    let last: u64 = if white {
        7
    } else {
        0
    };
    if to / 8 == last {
        let (n, b, r, q) = if white {
            (PieceType::WN, PieceType::WB, PieceType::WR, PieceType::WQ)
        } else {
            (PieceType::BN, PieceType::BB, PieceType::BR, PieceType::BQ)
        };
        let knight = Move { from, to, promotion: Some(n) };
        let bishop = Move { from, to, promotion: Some(b) };
        let rook = Move { from, to, promotion: Some(r) };
        let queen = Move { from, to, promotion: Some(q) };
        list_move(out, board, tables, knight, true, Ghost(before));
        list_move(out, board, tables, bishop, true, Ghost(before.insert(knight)));
        list_move(out, board, tables, rook, true, Ghost(before.insert(knight).insert(bishop)));
        list_move(
            out,
            board,
            tables,
            queen,
            true,
            Ghost(before.insert(knight).insert(bishop).insert(rook)),
        );
        proof {
            assert(before.insert(knight).insert(bishop).insert(rook).insert(queen) =~= after);
        }
    } else {
        let plain = Move { from, to, promotion: None };
        list_move(out, board, tables, plain, true, Ghost(before));
        proof {
            assert(before.insert(plain) =~= after);
        }
    }
}

/// The legal moves of the pawn of the side to move that stands on `from`.
fn pawn_moves_from(board: &Board, tables: &MagicTables, from: u64) -> (out: Vec<Candidate>)
    requires
        ready(*board),
        tables.wf(),
        from < 64,
        board@.at(from) == Some(own(*board, PieceType::WP, PieceType::BP)),
    ensures
        lists(
            out@,
            *board,
            *tables,
            Set::new(|m: Move| m.from == from && pawn_move(board@, m)),
        ),
{
    let mut out: Vec<Candidate> = Vec::new();
    let white = board.is_w_move;
    let ghost mut done: Set<u64> = Set::empty();
    proof {
        assert(pawn_region(board@, from, done) =~= Set::<Move>::empty());
    }
    if white && from < 56 || !white && from >= 8 {
        let ahead: u64 = if white {
            from + 8
        } else {
            from - 8
        };
        pawn_moves_to(&mut out, board, tables, from, ahead, Ghost(done));
        proof {
            done = done.insert(ahead);
        }
        if white && from < 48 {
            pawn_moves_to(&mut out, board, tables, from, from + 16, Ghost(done));
            proof {
                done = done.insert((from + 16) as u64);
            }
        }
        if !white && from >= 16 {
            pawn_moves_to(&mut out, board, tables, from, from - 16, Ghost(done));
            proof {
                done = done.insert((from - 16) as u64);
            }
        }
        if ahead >= 1 {
            pawn_moves_to(&mut out, board, tables, from, ahead - 1, Ghost(done));
            proof {
                done = done.insert((ahead - 1) as u64);
            }
        }
        if ahead < 63 {
            pawn_moves_to(&mut out, board, tables, from, ahead + 1, Ghost(done));
            proof {
                done = done.insert((ahead + 1) as u64);
            }
        }
    }
    proof {
        lemma_lists_same(
            out@,
            *board,
            *tables,
            pawn_region(board@, from, done),
            Set::new(|m: Move| m.from == from && pawn_move(board@, m)),
        );
    }
    out
}

/// The legal moves of the pawns of the side to move: pushes, double
/// pushes, captures, en-passant captures and promotions.
pub fn gen_pawn_moves(board: &Board, tables: &MagicTables) -> (out: Vec<Candidate>)
    requires
        ready(*board),
        tables.wf(),
    ensures
        lists(
            out@,
            *board,
            *tables,
            moves_of(*board, *tables, own(*board, PieceType::WP, PieceType::BP)),
        ),
{
    let pt = if board.is_w_move {
        PieceType::WP
    } else {
        PieceType::BP
    };
    let pieces: u64 = board.bitboard(pt);
    let mut rest: u64 = pieces;
    let mut out: Vec<Candidate> = Vec::new();
    let ghost mut region: Set<Move> = Set::empty();
    while rest != 0
        invariant
            ready(*board),
            tables.wf(),
            pt == own(*board, PieceType::WP, PieceType::BP),
            pieces == board.bb(pt),
            forall|s: u64| s < 64 && #[trigger] bit(rest, s) ==> bit(pieces, s),
            region =~= Set::new(
                |m: Move|
                    m.from < 64 && bit(pieces, m.from) && !bit(rest, m.from) && pawn_move(board@, m),
            ),
            lists(out@, *board, *tables, region),
        decreases rest,
    {
        let (from, left) = pop_lsb(rest);
        proof {
            lemma_bitboard_squares(*board, pt, from);
        }
        let mut part = pawn_moves_from(board, tables, from);
        proof {
            let part_region = Set::new(|m: Move| m.from == from && pawn_move(board@, m));
            lemma_lists_concat(out@, part@, *board, *tables, region, part_region);
            region = region.union(part_region);
        }
        out.append(&mut part);
        rest = left;
    }
    proof {
        lemma_empty();
        let goal = moves_of(*board, *tables, pt);
        assert forall|m: Move| region.contains(m) <==> goal.contains(m) by {
            if m.from < 64 {
                lemma_bitboard_squares(*board, pt, m.from);
            }
        }
        assert(region =~= goal);
    }
    out
}

/// Every legal move of the side to move, each once, with the position it
/// leads to: the pawns' moves first, then the knights', bishops', rooks',
/// queens' and the king's.
pub fn legal_moves(board: &Board, tables: &MagicTables) -> (out: Vec<Candidate>)
    requires
        ready(*board),
        tables.wf(),
    ensures
        lists(out@, *board, *tables, Set::new(|m: Move| pseudo_legal(*board, *tables, m))),
{
    let ghost b = *board;
    let ghost t = *tables;
    let ghost wp = moves_of(b, t, own(b, PieceType::WP, PieceType::BP));
    let ghost wn = moves_of(b, t, own(b, PieceType::WN, PieceType::BN));
    let ghost wb = moves_of(b, t, own(b, PieceType::WB, PieceType::BB));
    let ghost wr = moves_of(b, t, own(b, PieceType::WR, PieceType::BR));
    let ghost wq = moves_of(b, t, own(b, PieceType::WQ, PieceType::BQ));
    let ghost wk = moves_of(b, t, own(b, PieceType::WK, PieceType::BK));
    let mut out = gen_pawn_moves(board, tables);
    let mut knights = gen_knight_moves(board, tables);
    proof {
        lemma_lists_concat(out@, knights@, b, t, wp, wn);
    }
    out.append(&mut knights);
    let mut bishops = gen_bishop_moves(board, tables);
    proof {
        lemma_lists_concat(out@, bishops@, b, t, wp.union(wn), wb);
    }
    out.append(&mut bishops);
    let mut rooks = gen_rook_moves(board, tables);
    proof {
        lemma_lists_concat(out@, rooks@, b, t, wp.union(wn).union(wb), wr);
    }
    out.append(&mut rooks);
    let mut queens = gen_queen_moves(board, tables);
    proof {
        lemma_lists_concat(out@, queens@, b, t, wp.union(wn).union(wb).union(wr), wq);
    }
    out.append(&mut queens);
    let mut kings = gen_king_moves(board, tables);
    proof {
        lemma_lists_concat(out@, kings@, b, t, wp.union(wn).union(wb).union(wr).union(wq), wk);
        assert(wp.union(wn).union(wb).union(wr).union(wq).union(wk) =~= Set::new(
            |m: Move| pseudo_legal(b, t, m),
        ));
    }
    out.append(&mut kings);
    out
}

/// All moves that are legal in a position.
pub open spec fn legal_set(b: Board, t: MagicTables) -> Set<Move> {
    Set::new(|m: Move| legal(b, t, m))
}

/// A list of all legal moves is as long as there are legal moves.
pub proof fn lemma_lists_count(out: Seq<Candidate>, b: Board, t: MagicTables)
    requires
        lists(out, b, t, Set::new(|m: Move| pseudo_legal(b, t, m))),
    ensures
        legal_set(b, t).finite(),
        out.len() == legal_set(b, t).len(),
{
    let moves = Seq::new(out.len(), |i: int| out[i].mv);
    assert(moves.no_duplicates()) by {
        assert forall|i: int, j: int| 0 <= i < moves.len() && 0 <= j < moves.len() && i
            != j implies moves[i] != moves[j] by {
            if i < j {
                assert(out[i].mv != out[j].mv);
            } else {
                assert(out[j].mv != out[i].mv);
            }
        }
    }
    assert(moves.to_set() =~= legal_set(b, t)) by {
        assert forall|m: Move| moves.to_set().contains(m) <==> legal_set(b, t).contains(m) by {
            if moves.contains(m) {
                let i = choose|i: int| 0 <= i < moves.len() && moves[i] == m;
                assert(legal(b, t, out[i].mv));
            }
            if legal(b, t, m) {
                assert(Set::new(|m: Move| pseudo_legal(b, t, m)).contains(m));
                let i = choose|i: int| 0 <= i < out.len() && (#[trigger] out[i]).mv == m;
                assert(moves[i] == m);
            }
        }
    }
    moves.unique_seq_to_set();
    vstd::seq_lib::seq_to_set_is_finite(moves);
}

/// Whether `after` is the tree `before` with the node `leaf` expanded into
/// the children `cands`: the children are new nodes at the end of the
/// arena, in the order of `cands`, each spawned from its candidate; the
/// leaf names them and has height 1; every other node is as it was.
pub open spec fn bloomed(before: Tree, after: Tree, leaf: usize, cands: Seq<Candidate>) -> bool {
    let base = before.size();
    &&& after.root == before.root
    &&& after.cursors == before.cursors
    &&& after.tables == before.tables
    &&& after.size() == base + cands.len()
    &&& forall|i: int| 0 <= i < base && i != leaf ==> #[trigger] after.at(i) == before.at(i)
    &&& after.at(leaf as int).children@ == Seq::new(cands.len(), |j: int| (base + j) as usize)
    &&& after.at(leaf as int).depth == 1
    &&& after.at(leaf as int).board == before.at(leaf as int).board
    &&& after.at(leaf as int).visits == before.at(leaf as int).visits
    &&& after.at(leaf as int).eval == before.at(leaf as int).eval
    &&& after.at(leaf as int).ending == before.at(leaf as int).ending
    &&& after.at(leaf as int).parent == before.at(leaf as int).parent
    &&& after.at(leaf as int).last_move == before.at(leaf as int).last_move
    &&& after.at(leaf as int).proc_threads == before.at(leaf as int).proc_threads
    &&& forall|j: int|
        0 <= j < cands.len() ==> (#[trigger] after.at(base + j)).spawned(
            leaf,
            cands[j].board,
            notation(cands[j].mv),
        )
}

/// Whether the tree has room to expand a node with position `b`: the
/// clocks of the position can advance, and the arena can hold a child for
/// each legal move.
pub open spec fn can_bloom(size: int, b: Board, t: MagicTables) -> bool {
    &&& b.halfmove_clock < u32::MAX
    &&& b.fullmove_clock < u32::MAX
    &&& size + legal_set(b, t).len() <= u32::MAX
}

/// Expands the childless node `leaf`: gives it a child for each legal move
/// of its position, and height 1. Where the tree has no room for that,
/// nothing changes and `false` is returned.
#[verifier::rlimit(40)]
pub fn bloom(tree: &mut Tree, leaf: usize) -> (grown: bool)
    requires
        old(tree).shaped(),
        leaf < old(tree).size(),
        old(tree).at(leaf as int).children@.len() == 0,
    ensures
        final(tree).shaped(),
        grown == can_bloom(old(tree).size(), old(tree).at(leaf as int).board, old(tree).tables),
        !grown ==> *final(tree) == *old(tree),
        grown ==> exists|cands: Seq<Candidate>|
            lists(
                cands,
                old(tree).at(leaf as int).board,
                old(tree).tables,
                Set::new(
                    |m: Move|
                        pseudo_legal(old(tree).at(leaf as int).board, old(tree).tables, m),
                ),
            ) && #[trigger] bloomed(*old(tree), *final(tree), leaf, cands),
{
    let board: Board = tree.nodes[leaf].board;
    assert(old(tree).node_wf(leaf as int));
    if board.halfmove_clock == u32::MAX || board.fullmove_clock == u32::MAX {
        return false;
    }
    let cands = legal_moves(&board, &tree.tables);
    let base: usize = tree.nodes.len();
    let ghost tables = tree.tables;
    proof {
        lemma_lists_count(cands@, board, tables);
    }
    if cands.len() > u32::MAX as usize - base {
        return false;
    }
    let mut kids: Vec<usize> = Vec::new();
    let mut j: usize = 0;
    while j < cands.len()
        invariant
            j <= cands@.len(),
            base == old(tree).size(),
            base + cands@.len() <= u32::MAX,
            leaf < base,
            ready(board),
            board == old(tree).at(leaf as int).board,
            lists(cands@, board, tables, Set::new(|m: Move| pseudo_legal(board, tables, m))),
            tree.root == old(tree).root,
            tree.cursors == old(tree).cursors,
            tree.tables == old(tree).tables,
            tables == old(tree).tables,
            tables.wf(),
            tree.size() == base + j,
            forall|i: int| 0 <= i < base ==> #[trigger] tree.at(i) == old(tree).at(i),
            forall|k: int|
                0 <= k < j ==> (#[trigger] tree.at(base + k)).spawned(
                    leaf,
                    cands@[k].board,
                    notation(cands@[k].mv),
                ),
            forall|k: int|
                0 <= k < j ==> (#[trigger] tree.at(base + k)).board.wf() && has_kings(
                    tree.at(base + k).board@,
                ),
            kids@ == Seq::new(j as nat, |k: int| (base + k) as usize),
        decreases cands@.len() - j,
    {
        let c: Candidate = cands[j];
        proof {
            assert(legal(board, tables, c.mv));
            lemma_pseudo_legal_admits(board, tables, c.mv);
            lemma_kings_stay(board@, c.mv);
            lemma_mask(c.mv.from);
            lemma_mask(c.mv.to);
            lemma_mask_index(c.mv.from);
            lemma_mask_index(c.mv.to);
            lemma_turned(c.board);
        }
        let text = notate(1u64 << c.mv.from, 1u64 << c.mv.to, c.mv.promotion);
        let ghost before = *tree;
        tree.nodes.push(Node::spawn(leaf, c.board, text));
        let ghost grown_kids = kids@;
        kids.push(base + j);
        proof {
            assert(kids@ =~= Seq::new((j + 1) as nat, |k: int| (base + k) as usize));
            assert forall|i: int| 0 <= i < base implies #[trigger] tree.at(i) == old(tree).at(
                i,
            ) by {
                assert(tree.at(i) == before.at(i));
            }
            assert forall|k: int| 0 <= k < j + 1 implies (#[trigger] tree.at(base + k)).spawned(
                leaf,
                cands@[k].board,
                notation(cands@[k].mv),
            ) by {
                if k < j {
                    assert(tree.at(base + k) == before.at(base + k));
                }
            }
            assert forall|k: int| 0 <= k < j + 1 implies (#[trigger] tree.at(
                base + k,
            )).board.wf() && has_kings(tree.at(base + k).board@) by {
                if k < j {
                    assert(tree.at(base + k) == before.at(base + k));
                }
            }
        }
        j = j + 1;
    }
    let ghost grown = *tree;
    tree.nodes[leaf].children = kids;
    tree.nodes[leaf].depth = 1;
    proof {
        assert forall|i: int| 0 <= i < tree.size() implies #[trigger] tree.node_wf(i) by {
            if i < base {
                assert(old(tree).node_wf(i));
                match tree.at(i).parent {
                    Some(p) => {
                        assert(grown.at(i) == old(tree).at(i));
                        assert(old(tree).at(p as int).children@.contains(i as usize));
                        assert(p != leaf);
                        assert(tree.at(p as int) == grown.at(p as int));
                        assert(grown.at(p as int) == old(tree).at(p as int));
                    },
                    None => {},
                }
                if i != leaf {
                    assert(tree.at(i) == grown.at(i));
                    assert(tree.at(i) == old(tree).at(i));
                    let n = tree.at(i);
                    assert forall|k: int| 0 <= k < n.children@.len() implies {
                        let c = #[trigger] n.children@[k];
                        &&& i < c < tree.size()
                        &&& tree.at(c as int).parent == Some(i as usize)
                        &&& tree.at(c as int).board.is_w_move != n.board.is_w_move
                    } by {
                        let c = n.children@[k];
                        assert(c < base);
                        if c == leaf {
                            assert(grown.at(c as int) == old(tree).at(c as int));
                            assert(tree.at(c as int).parent == old(tree).at(c as int).parent);
                        } else {
                            assert(tree.at(c as int) == grown.at(c as int));
                            assert(tree.at(c as int) == old(tree).at(c as int));
                        }
                    }
                } else {
                    let n = tree.at(i);
                    assert forall|k: int| 0 <= k < n.children@.len() implies {
                        let c = #[trigger] n.children@[k];
                        &&& i < c < tree.size()
                        &&& tree.at(c as int).parent == Some(i as usize)
                        &&& tree.at(c as int).board.is_w_move != n.board.is_w_move
                    } by {
                        assert(tree.at(base + k) == grown.at(base + k));
                        assert(n.children@[k] == base + k);
                        assert(tree.at(base + k).spawned(
                            leaf,
                            cands@[k].board,
                            notation(cands@[k].mv),
                        ));
                        assert(cands@[k].board@ == board@.moved(cands@[k].mv));
                    }
                }
            } else {
                assert(tree.at(i) == grown.at(i));
                assert(grown.at(base + (i - base)).spawned(
                    leaf,
                    cands@[i - base].board,
                    notation(cands@[i - base].mv),
                ));
                assert(grown.at(base + (i - base)).board.wf());
                assert(tree.at(leaf as int).children@[i - base] == i);
                assert(tree.at(base + (i - base)).spawned(
                    leaf,
                    cands@[i - base].board,
                    notation(cands@[i - base].mv),
                ));
            }
        }
        assert(bloomed(*old(tree), *tree, leaf, cands@)) by {
            assert forall|i: int| 0 <= i < base && i != leaf implies #[trigger] tree.at(i) == old(
                tree,
            ).at(i) by {
                assert(tree.at(i) == grown.at(i));
                assert(grown.at(i) == old(tree).at(i));
            }
            assert forall|k: int| 0 <= k < cands@.len() implies (#[trigger] tree.at(
                base + k,
            )).spawned(leaf, cands@[k].board, notation(cands@[k].mv)) by {
                assert(tree.at(base + k) == grown.at(base + k));
            }
            assert(grown.at(leaf as int) == old(tree).at(leaf as int));
        }
    }
    true
}

/// Handing the turn over keeps a position well formed and its kings on the
/// board.
pub proof fn lemma_turned(b: Board)
    ensures
        b.turned().wf() == b.wf(),
        b.turned()@.squares == b@.squares,
        has_kings(b.turned()@) == has_kings(b@),
{
    crate::board::lemma_same_pieces(b, b.turned());
    let p = b@;
    let q = b.turned()@;
    assert(forall|s: u64| q.at(s) == p.at(s));
    if has_kings(p) {
        let w = choose|s: u64| s < 64 && #[trigger] p.at(s) == Some(PieceType::WK);
        let k = choose|s: u64| s < 64 && #[trigger] p.at(s) == Some(PieceType::BK);
        assert(q.at(w) == Some(PieceType::WK));
        assert(q.at(k) == Some(PieceType::BK));
    }
    if has_kings(q) {
        let w = choose|s: u64| s < 64 && #[trigger] q.at(s) == Some(PieceType::WK);
        let k = choose|s: u64| s < 64 && #[trigger] q.at(s) == Some(PieceType::BK);
        assert(p.at(w) == Some(PieceType::WK));
        assert(p.at(k) == Some(PieceType::BK));
    }
}

/// Whether the side to move is in check.
pub open spec fn checked(b: Board, t: MagicTables) -> bool {
    attacked(b, t, !b.is_w_move, king_square(b, b.is_w_move))
}

/// Whether the side to move is in check.
pub fn in_check(board: &Board, tables: &MagicTables) -> (r: bool)
    requires
        board.wf(),
        has_kings(board@),
        tables.wf(),
    ensures
        r == checked(*board, *tables),
{
    let king = if board.is_w_move {
        PieceType::WK
    } else {
        PieceType::BK
    };
    proof {
        let s = choose|s: u64| s < 64 && #[trigger] board@.at(s) == Some(king);
        lemma_bitboard_squares(*board, king, s);
        lemma_bit_nonzero(board.bb(king), s);
    }
    let king_bb = if board.is_w_move {
        board.w_k_bb
    } else {
        board.b_k_bb
    };
    is_attacked(board, tables, !board.is_w_move, king_bb)
}

/// In every position that the generator lists, the king of the side that
/// has moved is not attacked.
pub proof fn lemma_generated_king_safe(out: Seq<Candidate>, b: Board, t: MagicTables, i: int)
    requires
        lists(out, b, t, Set::new(|m: Move| pseudo_legal(b, t, m))),
        0 <= i < out.len(),
    ensures
        !attacked(out[i].board, t, !b.is_w_move, king_square(out[i].board, b.is_w_move)),
{
    assert(legal(b, t, out[i].mv));
    assert(out[i] == emitted(b, out[i].mv));
}

/// Every legal move is listed exactly once, with the position that it
/// leads to: once the turn has passed, the position after the move.
pub proof fn lemma_each_legal_move_once(out: Seq<Candidate>, b: Board, t: MagicTables, m: Move)
    requires
        ready(b),
        lists(out, b, t, Set::new(|m: Move| pseudo_legal(b, t, m))),
        legal(b, t, m),
    ensures
        exists|i: int|
            {
                &&& 0 <= i < out.len()
                &&& (#[trigger] out[i]).mv == m
                &&& out[i].board@ == b@.moved(m)
                &&& out[i].board.turned().wf()
                &&& out[i].board.turned()@ == b@.apply(m)
                &&& forall|j: int| 0 <= j < out.len() && (#[trigger] out[j]).mv == m ==> j == i
            },
{
    assert(Set::new(|m: Move| pseudo_legal(b, t, m)).contains(m));
    let i = choose|i: int| 0 <= i < out.len() && (#[trigger] out[i]).mv == m;
    assert forall|j: int| 0 <= j < out.len() && (#[trigger] out[j]).mv == m implies j == i by {
        if j < i {
            assert(out[j].mv != out[i].mv);
        } else if i < j {
            assert(out[i].mv != out[j].mv);
        }
    }
    lemma_turned(out[i].board);
    lemma_pseudo_legal_admits(b, t, m);
    assert(out[i].board@ == b@.moved(m));
    assert(out[i].board.fullmove_clock == b.fullmove_clock);
    assert(out[i].board.turned()@ =~= b@.apply(m));
}

/// The position of a listed move, once the turn has passed, is the board
/// that playing the move gives.
pub proof fn lemma_child_is_position_played(
    out: Seq<Candidate>,
    b: Board,
    t: MagicTables,
    i: int,
    played: Board,
)
    requires
        ready(b),
        lists(out, b, t, Set::new(|m: Move| pseudo_legal(b, t, m))),
        0 <= i < out.len(),
        played.wf(),
        played@ == b@.apply(out[i].mv),
    ensures
        out[i].board.turned() == played,
{
    let m = out[i].mv;
    assert(legal(b, t, m));
    lemma_turned(out[i].board);
    lemma_pseudo_legal_admits(b, t, m);
    assert(out[i].board.fullmove_clock == b.fullmove_clock);
    assert(out[i].board.turned()@ =~= b@.apply(m));
    lemma_board_unique(out[i].board.turned(), played);
}

/// A legal move leaves each side with as many kings as it had, and no
/// square with two pieces: the positions that the generator lists from a
/// position with one king each have one king each.
pub proof fn lemma_generated_keeps_kings(b: Board, t: MagicTables, m: Move, king: PieceType)
    requires
        ready(b),
        legal(b, t, m),
        king.is_king(),
    ensures
        crate::board::count_piece(b@.moved(m).squares, king, 64) == crate::board::count_piece(
            b@.squares,
            king,
            64,
        ),
{
    lemma_pseudo_legal_admits(b, t, m);
    crate::board::lemma_king_count_after_move(b@, m, king);
}

} // verus!
